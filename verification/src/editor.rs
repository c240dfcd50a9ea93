//! The editor: which command opens a prompt, and how a retry question is
//! answered.
use vstd::prelude::*;

use crate::commands::text_option;
use crate::error::{fails_with, message, Error};
use crate::prompt::{shell_words_split, split_shell_words, text_views};
use crate::text::{chars_of, trim, trim_text};

verus! {

/// The editor command line: `VISUAL` unless it is missing or blank, then
/// `EDITOR` likewise, then `vi`.
pub open spec fn editor_line(visual: Option<Seq<char>>, editor: Option<Seq<char>>) -> Seq<char> {
    match visual {
        Some(v) if trim(v).len() > 0 => v,
        _ => match editor {
            Some(e) if trim(e).len() > 0 => e,
            _ => "vi"@,
        },
    }
}

fn configured(value: Option<&str>) -> (result: Option<&str>)
    ensures
        match text_option(value) {
            Some(v) if trim(v).len() > 0 => result == value,
            _ => result is None,
        },
{
    match value {
        Some(text) => {
            let trimmed = trim_text(text);
            if trimmed.as_str().is_empty() {
                None
            } else {
                Some(text)
            }
        },
        None => None,
    }
}

/// The editor program and its arguments, given `VISUAL` and `EDITOR`: the
/// line is split into shell words; an open quote, or no word at all, fails.
pub fn editor_command(visual: Option<&str>, editor: Option<&str>) -> (result: Result<Vec<String>, Error>)
    ensures
        ({
            let line = editor_line(text_option(visual), text_option(editor));
            &&& shell_words_split(line) is None ==> fails_with(result, "invalid editor command: missing closing quote"@)
            &&& shell_words_split(line) matches Some(w) ==> (w.len() == 0 ==> fails_with(
                result,
                "editor command must not be empty"@,
            ))
            &&& shell_words_split(line) matches Some(w) ==> (w.len() > 0 ==> (result matches Ok(words)
                && text_views(words@) == w))
        }),
{
    let line: &str = match configured(visual) {
        Some(v) => v,
        None => match configured(editor) {
            Some(e) => e,
            None => "vi",
        },
    };
    match split_shell_words(line) {
        None => Err(message("invalid editor command: missing closing quote")),
        Some(words) => {
            if words.len() == 0 {
                Err(message("editor command must not be empty"))
            } else {
                Ok(words)
            }
        },
    }
}

/// `text` is `word` up to ASCII case (`word` in lower case), as
/// `text.to_ascii_lowercase() == word` tests it.
pub open spec fn is_word_ignoring_case(text: Seq<char>, word: Seq<char>) -> bool {
    &&& text.len() == word.len()
    &&& forall|i: int|
        0 <= i < text.len() ==> (#[trigger] text[i] == word[i] || ('a' <= word[i] <= 'z' && (text[i] as u32)
            + 32 == (word[i] as u32)))
}

/// Whether `text` is `word` up to ASCII case.
fn word_ignoring_case(text: &str, word: &str) -> (result: bool)
    requires
        forall|i: int| 0 <= i < word@.len() ==> 'a' <= #[trigger] word@[i] <= 'z',
    ensures
        result == is_word_ignoring_case(text@, word@),
{
    let t = chars_of(text);
    let w = chars_of(word);
    if t.len() != w.len() {
        return false;
    }
    let mut i: usize = 0;
    while i < t.len()
        invariant
            t@ == text@,
            w@ == word@,
            t@.len() == w@.len(),
            i <= t@.len(),
            forall|k: int| 0 <= k < w@.len() ==> 'a' <= #[trigger] w@[k] <= 'z',
            forall|k: int|
                0 <= k < i ==> (#[trigger] t@[k] == w@[k] || ('a' <= w@[k] <= 'z' && (t@[k] as u32) + 32
                    == (w@[k] as u32))),
        decreases t@.len() - i,
    {
        let a = t[i] as u32;
        let b = w[i] as u32;
        if !(a == b || (b >= 32 && a == b - 32)) {
            proof {
                vstd::utf8::char_u32_cast(t@[i as int], a);
                vstd::utf8::char_u32_cast(w@[i as int], b);
            }
            return false;
        }
        proof {
            if a == b {
                vstd::utf8::char_u32_cast(t@[i as int], a);
                vstd::utf8::char_u32_cast(w@[i as int], b);
            }
        }
        i = i + 1;
    }
    true
}

/// How a question answered with yes or no was answered.
#[derive(Debug, PartialEq, Eq)]
pub enum Answer {
    Yes,
    No,
    /// Neither: ask again.
    Unclear,
}

/// The answer to "Reopen editor? [Y/n]": an empty answer or `y`/`yes` (in
/// any case) reopens, `n`/`no` or the end of the input does not, anything
/// else is asked again.
pub fn reopen_answer(response: Option<&str>) -> (result: Answer)
    ensures
        response is None ==> result == Answer::No,
        response matches Some(r) ==> {
            let t = trim(r@);
            &&& (t.len() == 0 || is_word_ignoring_case(t, "y"@) || is_word_ignoring_case(t, "yes"@))
                ==> result == Answer::Yes
            &&& !(t.len() == 0 || is_word_ignoring_case(t, "y"@) || is_word_ignoring_case(t, "yes"@))
                && (is_word_ignoring_case(t, "n"@) || is_word_ignoring_case(t, "no"@)) ==> result
                == Answer::No
            &&& !(t.len() == 0 || is_word_ignoring_case(t, "y"@) || is_word_ignoring_case(t, "yes"@)
                || is_word_ignoring_case(t, "n"@) || is_word_ignoring_case(t, "no"@)) ==> result
                == Answer::Unclear
        },
{
    let response = match response {
        Some(r) => r,
        None => return Answer::No,
    };
    proof {
        reveal_strlit("y");
        reveal_strlit("yes");
        reveal_strlit("n");
        reveal_strlit("no");
    }
    let t = trim_text(response);
    if t.as_str().is_empty() || word_ignoring_case(t.as_str(), "y") || word_ignoring_case(t.as_str(), "yes") {
        Answer::Yes
    } else if word_ignoring_case(t.as_str(), "n") || word_ignoring_case(t.as_str(), "no") {
        Answer::No
    } else {
        Answer::Unclear
    }
}

/// What an edit session does next.
#[derive(Debug, PartialEq, Eq)]
pub enum EditAction {
    /// Open the editor on the prompt file (again).
    OpenEditor,
    /// The edited prompt is valid: keep it.
    Finish,
    /// The edited prompt is invalid and nobody can be asked: its
    /// validation error is the result.
    Fail,
    /// Show the validation error and ask "Reopen editor? [Y/n]".
    AskReopen,
    /// The answer was unclear: ask "Please answer y or n." and again.
    AskAgain,
    /// Give up with this error.
    Abort(Error),
}

/// What happened last in an edit session.
pub enum EditEvent {
    /// The edited file was read back and validated.
    Checked { valid: bool },
    /// "Reopen editor? [Y/n]" was answered.
    Answered(Answer),
}

/// The next step of an edit session, after `event`: a valid prompt is
/// kept; an invalid one fails at once unless validation errors can be
/// retried (standard input is a terminal), in which case the user is asked
/// whether to reopen the editor; yes reopens it, no aborts the edit, and an
/// unclear answer is asked again.
pub fn next_edit_action(event: EditEvent, retry_validation_errors: bool) -> (result: EditAction)
    ensures
        match event {
            EditEvent::Checked { valid } => if valid {
                result == EditAction::Finish
            } else if retry_validation_errors {
                result == EditAction::AskReopen
            } else {
                result == EditAction::Fail
            },
            EditEvent::Answered(Answer::Yes) => result == EditAction::OpenEditor,
            EditEvent::Answered(Answer::No) => result matches EditAction::Abort(Error::Message(text)) && text@
                == "edit aborted after validation failure"@,
            EditEvent::Answered(Answer::Unclear) => result == EditAction::AskAgain,
        },
{
    match event {
        EditEvent::Checked { valid } => {
            if valid {
                EditAction::Finish
            } else if retry_validation_errors {
                EditAction::AskReopen
            } else {
                EditAction::Fail
            }
        },
        EditEvent::Answered(Answer::Yes) => EditAction::OpenEditor,
        EditEvent::Answered(Answer::No) => EditAction::Abort(message("edit aborted after validation failure")),
        EditEvent::Answered(Answer::Unclear) => EditAction::AskAgain,
    }
}

/// Whether the answer to "Remove prompt '…'? [y/N]" confirms: `y` or `yes`
/// in any case, surrounding white space aside.
pub fn confirms_removal(response: &str) -> (result: bool)
    ensures
        result == (is_word_ignoring_case(trim(response@), "y"@) || is_word_ignoring_case(
            trim(response@),
            "yes"@,
        )),
{
    proof {
        reveal_strlit("y");
        reveal_strlit("yes");
    }
    let t = trim_text(response);
    word_ignoring_case(t.as_str(), "y") || word_ignoring_case(t.as_str(), "yes")
}

} // verus!
