//! `exec`: the command line that a prompt is piped into.
use vstd::prelude::*;

use crate::error::{fails_with, Error};
use crate::prompt::{parse_exec_command, shell_words_split, text_views};
use crate::text::push_str;

verus! {

/// The program and arguments of a prompt's exec command (the arguments
/// given on the command line come after them). A prompt without an exec
/// command, or with one that does not split into words, fails.
pub fn exec_invocation(name: &str, exec_command: &Option<String>) -> (result: Result<(String, Vec<String>), Error>)
    ensures
        exec_command is None ==> fails_with(result, "prompt has no exec command: "@ + name@),
        exec_command matches Some(c) ==> (shell_words_split(c@) is None ==> fails_with(
            result,
            "invalid exec command: missing closing quote"@,
        )),
        exec_command matches Some(c) ==> (shell_words_split(c@) matches Some(w) && w.len() == 0
            ==> fails_with(result, "exec command must not be empty"@)),
        exec_command matches Some(c) ==> (shell_words_split(c@) matches Some(w) && w.len() > 0
            ==> (result matches Ok((program, arguments)) && seq![program@] + text_views(arguments@)
            == shell_words_split(c@)->0)),
{
    let command = match exec_command {
        Some(command) => command,
        None => {
            let mut text = "prompt has no exec command: ".to_owned();
            push_str(&mut text, name);
            return Err(Error::Message(text));
        },
    };
    let mut words = parse_exec_command(command.as_str())?;
    let ghost configured = text_views(words@);
    let program = words.remove(0);
    assert(seq![program@] + text_views(words@) =~= configured);
    Ok((program, words))
}

} // verus!
