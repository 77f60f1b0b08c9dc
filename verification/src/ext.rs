//! Trusted declarations of the standard-library and `rand` items that the
//! verified code calls. Each contract below is believed, not proved.
use vstd::prelude::*;

use crate::text::decimal_value;

verus! {

/// `String::push`: appends the character `c` to the end of `s`, as the
/// standard library documents it.
#[verifier::external_body]
pub(crate) fn string_push(s: &mut String, c: char)
    ensures
        final(s)@ == old(s)@.push(c),
{
    s.push(c);
}

/// The text that Rust's `Debug` formatting gives the error of parsing `s`
/// as an `isize` (such as `ParseIntError { kind: InvalidDigit }`).
pub uninterp spec fn isize_parse_error_text(s: Seq<char>) -> Seq<char>;

/// What parsing `s` as an `isize` gives: the value, if `s` writes an integer
/// in decimal that fits an `isize`; otherwise the text of the error.
pub open spec fn isize_parse(s: Seq<char>) -> Result<int, Seq<char>> {
    match decimal_value(s) {
        Some(v) => if isize::MIN <= v && v <= isize::MAX {
            Ok(v)
        } else {
            Err(isize_parse_error_text(s))
        },
        None => Err(isize_parse_error_text(s)),
    }
}

/// `<isize as FromStr>::from_str`, with its error rendered by `Debug`. The
/// standard library documents that it accepts an optional `+` or `-`
/// followed by decimal digits, and fails on anything else (the empty string
/// included) and on values out of range. The error's text is named, not
/// stated: its exact wording is left to the standard library.
#[verifier::external_body]
pub(crate) fn parse_isize(s: &str) -> (r: Result<isize, String>)
    ensures
        r is Ok <==> (decimal_value(s@) matches Some(v) && isize::MIN <= v <= isize::MAX),
        r matches Ok(v) ==> decimal_value(s@) == Some(v as int),
        r matches Err(t) ==> t@ == isize_parse_error_text(s@),
{
    match s.parse::<isize>() {
        Ok(v) => Ok(v),
        Err(e) => Err(format!("{:?}", e)),
    }
}

/// The generator that `rand::thread_rng` hands out.
#[verifier::external_type_specification]
#[verifier::external_body]
pub struct ExThreadRng(rand::rngs::ThreadRng);

/// `rand::thread_rng`: a handle to the thread-local random generator.
/// Nothing is promised of it beyond its type.
#[verifier::external_body]
pub(crate) fn thread_rng() -> rand::rngs::ThreadRng {
    rand::thread_rng()
}

/// `Rng::gen_range(low..high)` for `isize`: a random value at least `low`
/// and below `high` (rand 0.8 asserts `low < high` and samples that range).
/// Which value comes out is left to chance.
#[verifier::external_body]
pub(crate) fn gen_range_isize(rng: &mut rand::rngs::ThreadRng, low: isize, high: isize) -> (x: isize)
    requires
        low < high,
    ensures
        low <= x < high,
{
    rand::Rng::gen_range(rng, low..high)
}

/// `Rng::gen_range(low..high)` for `usize`: a random value at least `low`
/// and below `high`, as for `isize` above.
#[verifier::external_body]
pub(crate) fn gen_range_usize(rng: &mut rand::rngs::ThreadRng, low: usize, high: usize) -> (x: usize)
    requires
        low < high,
    ensures
        low <= x < high,
{
    rand::Rng::gen_range(rng, low..high)
}

} // verus!
