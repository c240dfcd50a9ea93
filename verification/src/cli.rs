//! The arguments of each command, as plain values.
use std::path::PathBuf;

use vstd::prelude::*;

use crate::prompt::template::{is_valid_variable_name, is_variable_name};
use crate::text::{chars_of, find_char, find_char_in, push_str, string_from_chars};

verus! {

#[verifier::external_type_specification]
#[verifier::external_body]
pub struct ExPathBuf(PathBuf);

/// Arguments naming one prompt.
#[derive(Debug)]
pub struct NameArgs {
    pub name: String,
}

/// Arguments of `add`.
#[derive(Debug)]
pub struct AddArgs {
    pub name: String,
    /// Store the prompt without opening an editor.
    pub no_edit: bool,
}

/// Arguments of `rm`.
#[derive(Debug)]
pub struct RemoveArgs {
    pub names: Vec<String>,
    /// Remove without confirmation.
    pub force: bool,
}

/// Arguments of `get`.
#[derive(Debug)]
pub struct GetArgs {
    pub prompt: PromptArgs,
}

/// Which prompt to render, and with which variables.
#[derive(Debug)]
pub struct PromptArgs {
    /// Prompt name; required unless `id` or `pick` is used.
    pub name: Option<String>,
    /// Select a prompt by ID instead of by name.
    pub id: Option<i64>,
    /// Select a prompt with fzf instead of by name.
    pub pick: bool,
    /// Variables set as KEY=VALUE.
    pub variables: Vec<VariableAssignment>,
    /// Ask for each missing variable on the terminal.
    pub interactive: bool,
}

/// Arguments of `search`.
#[derive(Debug)]
pub struct SearchArgs {
    pub query: String,
}

/// Arguments of `list`.
#[derive(Debug)]
pub struct ListArgs {
    /// List only prompts in this group; includes the trailing slash.
    pub group: Option<String>,
    /// List only prompts with this tag.
    pub tag: Option<String>,
    /// List only favorite prompts.
    pub favorite: bool,
    /// Sort order.
    pub sort: ListSort,
    /// Reverse the sort order.
    pub reverse: bool,
    /// Show every column.
    pub full: bool,
    /// Print only the names.
    pub quiet: bool,
}

/// Sort orders of `list`.
#[derive(Clone, Copy, Debug, PartialEq, Eq)]
pub enum ListSort {
    Name,
    Updated,
    Used,
}

impl Default for ListSort {
    /// The default sort order, by name.
    fn default() -> (result: ListSort)
        ensures
            result == ListSort::Name,
    {
        ListSort::Name
    }
}

/// Arguments of `import`.
#[derive(Debug)]
pub struct ImportArgs {
    pub file: PathBuf,
}

/// Arguments of `export`.
#[derive(Debug)]
pub struct ExportArgs {
    /// Prompt name, or output directory when exporting all.
    pub target: PathBuf,
    /// Export every prompt to the target directory.
    pub all: bool,
}

/// Arguments of `favorite`.
#[derive(Debug)]
pub struct FavoriteArgs {
    pub name: String,
    /// Remove the prompt from favorites.
    pub remove: bool,
}

/// Arguments of `history`.
#[derive(Debug)]
pub struct HistoryArgs {
    pub name: String,
    pub command: Option<HistoryCommand>,
}

/// Subcommands of `history`.
#[derive(Debug)]
pub enum HistoryCommand {
    /// Diff two saved versions of a prompt.
    Diff(HistoryDiffArgs),
}

/// Arguments of `history diff`.
#[derive(Debug)]
pub struct HistoryDiffArgs {
    /// Older version number.
    pub old: i64,
    /// Newer version number.
    pub new: i64,
}

/// Arguments of `update`.
#[derive(Debug)]
pub struct UpdateArgs {
    /// Check for a newer release without installing it.
    pub check: bool,
}

/// Arguments of `completions`.
#[derive(Debug)]
pub struct CompletionsArgs {
    pub shell: CompletionShell,
    /// Generate a script that reads prompt names at completion time.
    pub dynamic: bool,
}

/// Shells that completions are generated for.
#[derive(Clone, Copy, Debug, PartialEq, Eq)]
pub enum CompletionShell {
    Bash,
    Zsh,
    Fish,
}

impl CompletionShell {
    /// The shell's name, as the `COMPLETE` variable takes it.
    pub fn as_str(self) -> (result: &'static str)
        ensures
            result@ == match self {
                CompletionShell::Bash => "bash"@,
                CompletionShell::Zsh => "zsh"@,
                CompletionShell::Fish => "fish"@,
            },
    {
        match self {
            CompletionShell::Bash => "bash",
            CompletionShell::Zsh => "zsh",
            CompletionShell::Fish => "fish",
        }
    }
}

/// A variable set as `KEY=VALUE`.
#[derive(Clone, Debug)]
pub struct VariableAssignment {
    pub key: String,
    pub value: String,
}

/// How `KEY=VALUE` text splits at its first `=`: the key must be a variable
/// name; the value is the rest, `=` included.
pub open spec fn assignment_parts(text: Seq<char>) -> Result<(Seq<char>, Seq<char>), Seq<char>> {
    match find_char(text, 0, '=') {
        None => Err("expected KEY=VALUE"@),
        Some(i) => if is_variable_name(text.take(i)) {
            Ok((text.take(i), text.skip(i + 1)))
        } else {
            Err("invalid variable name: "@ + text.take(i))
        },
    }
}

/// Splits `KEY=VALUE` at the first `=`.
pub fn split_assignment(value: &str) -> (result: Result<(String, String), String>)
    ensures
        match assignment_parts(value@) {
            Ok((key, rest)) => result matches Ok((k, v)) && k@ == key && v@ == rest,
            Err(text) => result matches Err(e) && e@ == text,
        },
{
    let chars = chars_of(value);
    let position = match find_char_in(chars.as_slice(), 0, '=') {
        Some(i) => i,
        None => {
            return Err("expected KEY=VALUE".to_owned());
        },
    };
    proof {
        crate::text::lemma_find_char(chars@, 0, '=');
    }
    let key = string_from_chars(chars.as_slice(), 0, position);
    assert(key@ =~= value@.take(position as int));
    if !is_valid_variable_name(key.as_str()) {
        let mut text = "invalid variable name: ".to_owned();
        push_str(&mut text, key.as_str());
        return Err(text);
    }
    let n = chars.len();
    assert(position < n);
    let rest = string_from_chars(chars.as_slice(), position + 1, n);
    assert(rest@ =~= value@.skip(position + 1));
    Ok((key, rest))
}

impl VariableAssignment {
    /// Parses `KEY=VALUE` (see [`assignment_parts`]).
    pub fn parse(value: &str) -> (result: Result<VariableAssignment, String>)
        ensures
            match assignment_parts(value@) {
                Ok((key, rest)) => result matches Ok(a) && a.key@ == key && a.value@ == rest,
                Err(text) => result matches Err(e) && e@ == text,
            },
    {
        match split_assignment(value) {
            Ok((key, value)) => Ok(VariableAssignment { key, value }),
            Err(error) => Err(error),
        }
    }
}

impl std::str::FromStr for VariableAssignment {
    type Err = String;

    fn from_str(value: &str) -> (result: Result<VariableAssignment, String>)
        ensures
            match assignment_parts(value@) {
                Ok((key, rest)) => result matches Ok(a) && a.key@ == key && a.value@ == rest,
                Err(text) => result matches Err(e) && e@ == text,
            },
    {
        VariableAssignment::parse(value)
    }
}

} // verus!
