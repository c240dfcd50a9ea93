//! Piped input: the `{{input}}` variable.
use vstd::prelude::*;
use vstd::utf8::{decode_utf8, valid_utf8};

use crate::error::{fails_with, message, Error};

verus! {

/// The text that `bytes` encode, if they are valid UTF-8
/// (`std::str::from_utf8`).
///
/// Trusted: `from_utf8` accepts exactly the valid UTF-8 byte sequences, and
/// the text is what they decode to.
#[verifier::external_body]
pub(crate) fn utf8_text(bytes: &[u8]) -> (result: Option<&str>)
    ensures
        match result {
            Some(text) => valid_utf8(bytes@) && text@ == decode_utf8(bytes@),
            None => !valid_utf8(bytes@),
        },
{
    std::str::from_utf8(bytes).ok()
}

/// The text of everything read from standard input.
pub fn read_utf8(bytes: &[u8]) -> (result: Result<String, Error>)
    ensures
        valid_utf8(bytes@) ==> (result matches Ok(text) && text@ == decode_utf8(bytes@)),
        !valid_utf8(bytes@) ==> fails_with(result, "stdin is not valid UTF-8"@),
{
    match utf8_text(bytes) {
        Some(text) => Ok(text.to_owned()),
        None => Err(message("stdin is not valid UTF-8")),
    }
}

/// The piped input, given whether standard input is a terminal and (when it
/// is not) what was read from it: a terminal gives no input, which leaves
/// the `input` variable missing.
pub fn read_input(is_terminal: bool, bytes: &[u8]) -> (result: Result<String, Error>)
    ensures
        is_terminal ==> (result matches Err(Error::MissingVariable(name)) && name@ == "input"@),
        !is_terminal && valid_utf8(bytes@) ==> (result matches Ok(text) && text@ == decode_utf8(bytes@)),
        !is_terminal && !valid_utf8(bytes@) ==> fails_with(result, "stdin is not valid UTF-8"@),
{
    if is_terminal {
        return Err(Error::MissingVariable("input".to_owned()));
    }
    read_utf8(bytes)
}

/// The text that `bytes` encode, or a `Message` error holding `error` when
/// they are not UTF-8.
pub fn decode_or(bytes: &[u8], error: &str) -> (result: Result<String, Error>)
    ensures
        valid_utf8(bytes@) ==> (result matches Ok(text) && text@ == decode_utf8(bytes@)),
        !valid_utf8(bytes@) ==> fails_with(result, error@),
{
    match utf8_text(bytes) {
        Some(text) => Ok(text.to_owned()),
        None => Err(message(error)),
    }
}

} // verus!
