//! Contracts of functions of the standard library that the verifier takes on
//! trust. Each says what the documentation of the function promises and no
//! more; none of them is proved here.

use std::time::{Duration, Instant};
use vstd::prelude::*;

verus! {

#[verifier::external_type_specification]
#[verifier::external_body]
pub struct ExInstant(Instant);

/// `Instant::now` reads the clock: nothing is claimed of the instant that it
/// returns.
pub assume_specification[ Instant::now ]() -> (now: Instant);

/// `Instant::elapsed` reads the clock again: nothing is claimed of the time
/// that it reports.
pub assume_specification[ Instant::elapsed ](start: &Instant) -> (elapsed: Duration);

/// `Duration::as_secs` gives the whole seconds of a duration. A duration is
/// opaque here, so nothing is claimed of their number.
pub assume_specification[ Duration::as_secs ](duration: &Duration) -> (seconds: u64);

/// `String::push` appends one character to the string.
pub assume_specification[ String::push ](text: &mut String, character: char)
    ensures
        final(text)@ == old(text)@.push(character),
;

/// `char::to_digit` gives the value of a character as a digit in the given
/// radix, and `None` for a character that is no such digit; it panics on a
/// radix outside of 2 to 36. Claimed here for radix ten only: the decimal
/// digits `0` to `9` have the values zero to nine, and no other character is
/// a digit.
pub assume_specification[ char::to_digit ](character: char, radix: u32) -> (digit: Option<u32>)
    requires
        2 <= radix <= 36,
    ensures
        radix == 10 ==> digit == if '0' <= character <= '9' {
            Some((character as u32 - 48) as u32)
        } else {
            None
        },
;

/// `char::from_digit` gives the character of a digit in the given radix, and
/// `None` for a number that is no digit in that radix; it panics on a radix
/// above 36. Claimed here for radix ten only: zero to nine give the decimal
/// digits `0` to `9`, and no other number is a digit.
pub assume_specification[ std::char::from_digit ](num: u32, radix: u32) -> (character: Option<char>)
    requires
        radix <= 36,
    ensures
        radix == 10 ==> character == if num < 10 {
            Some((num + 48) as char)
        } else {
            None
        },
;

} // verus!
