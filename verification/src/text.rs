//! Text helpers for messages and for parsing option names.

use vstd::prelude::*;

verus! {

/// The lower-case form of a text, as `str::to_lowercase` gives it.
pub uninterp spec fn lowercase_of(text: Seq<char>) -> Seq<char>;

/// `str::to_lowercase`: the result is the lower-case form of `text`, which
/// depends on `text` alone.
#[verifier::external_body]
pub(crate) fn lowercase(text: &str) -> (lowered: String)
    ensures
        lowered@ == lowercase_of(text@),
{
    text.to_lowercase()
}

/// `head` followed by `tail`.
pub(crate) fn joined(head: &str, tail: &str) -> (text: String)
    ensures
        text@ == head@ + tail@,
{
    head.to_string().concat(tail)
}

/// `format!` with a text and a number: a message that starts with `head`.
/// Nothing is claimed of the digits.
#[verifier::external_body]
pub(crate) fn with_number(head: &str, number: u64) -> (text: String)
    ensures
        text@.len() >= head@.len(),
        text@.subrange(0, head@.len() as int) == head@,
{
    format!("{}{}", head, number)
}

/// `std::io::Error`, as the entropy coders of outside crates return it.
#[verifier::external_type_specification]
#[verifier::external_body]
pub struct ExIoError(std::io::Error);

/// `format!` with a text and an I/O error: a message that starts with `head`.
/// Nothing is claimed of the error's own words.
#[verifier::external_body]
pub(crate) fn with_io_error(head: &str, error: &std::io::Error) -> (text: String)
    ensures
        text@.len() >= head@.len(),
        text@.subrange(0, head@.len() as int) == head@,
{
    format!("{}{}", head, error)
}

} // verus!
