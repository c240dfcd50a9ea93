//! The errors the library reports.
use vstd::prelude::*;

use crate::text::push_str;

verus! {

/// An error of the prompt library.
#[derive(Debug, PartialEq, Eq)]
pub enum Error {
    /// Any other failure, described by its text.
    Message(String),
    PromptNotFound(String),
    PromptAlreadyExists(String),
    MissingVariable(String),
    DuplicateVariableSource(String),
}

/// The text with which an error is shown to the user.
pub open spec fn error_text(error: Error) -> Seq<char> {
    match error {
        Error::Message(text) => text@,
        Error::PromptNotFound(name) => "prompt not found: "@ + name@,
        Error::PromptAlreadyExists(name) => "prompt already exists: "@ + name@,
        Error::MissingVariable(name) => "missing variable: "@ + name@,
        Error::DuplicateVariableSource(name) => "duplicate variable source: "@ + name@,
    }
}

/// `result` failed with a `Message` error holding `text`.
pub open spec fn fails_with<T>(result: Result<T, Error>, text: Seq<char>) -> bool {
    match result {
        Err(Error::Message(t)) => t@ == text,
        _ => false,
    }
}

/// A `Message` error holding `prefix` followed by `detail`.
pub fn message_with(prefix: &str, detail: &str) -> (result: Error)
    ensures
        result matches Error::Message(text) && text@ == prefix@ + detail@,
{
    let mut text = prefix.to_owned();
    push_str(&mut text, detail);
    Error::Message(text)
}

/// A `Message` error holding `text`.
pub fn message(text: &str) -> (result: Error)
    ensures
        result matches Error::Message(t) && t@ == text@,
{
    Error::Message(text.to_owned())
}

impl Error {
    /// The text with which the error is shown to the user.
    pub fn text(&self) -> (result: String)
        ensures
            result@ == error_text(*self),
    {
        match self {
            Error::Message(text) => text.clone(),
            Error::PromptNotFound(name) => {
                let mut out = "prompt not found: ".to_owned();
                push_str(&mut out, name.as_str());
                out
            },
            Error::PromptAlreadyExists(name) => {
                let mut out = "prompt already exists: ".to_owned();
                push_str(&mut out, name.as_str());
                out
            },
            Error::MissingVariable(name) => {
                let mut out = "missing variable: ".to_owned();
                push_str(&mut out, name.as_str());
                out
            },
            Error::DuplicateVariableSource(name) => {
                let mut out = "duplicate variable source: ".to_owned();
                push_str(&mut out, name.as_str());
                out
            },
        }
    }
}

} // verus!
