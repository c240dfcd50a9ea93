//! Markdown prompt files: YAML front matter between `---` lines, then the
//! prompt body.
//!
//! Decoding and encoding the YAML itself is the YAML library's work; this
//! module frames the file, checks the metadata and lays out what is written.
use vstd::prelude::*;

use crate::error::{fails_with, message, Error};
use crate::prompt::template::{
    find_pair, lemma_find_pair, problem_detail, syntax_check, syntax_error_text, validate_with_line_offset,
};
use crate::prompt::{
    is_valid_name, normalize_tags, parse_exec_command, shell_words_split, strictly_sorted,
    text_views, trimmed_tags, validate_name,
};
use crate::text::{
    chars_of, count_char, push_chars, push_repeated, push_str, repeat_char, replace_all,
    starts_with, string_from_chars,
};

verus! {

/// A prompt as written in a Markdown file.
#[derive(Debug, PartialEq, Eq)]
pub struct PromptDocument {
    pub name: String,
    pub description: Option<String>,
    pub tags: Vec<String>,
    pub exec_command: Option<String>,
    pub content: String,
}

/// The fields of the YAML front matter.
#[derive(Debug, PartialEq, Eq)]
pub struct Metadata {
    pub name: String,
    pub description: Option<String>,
    pub tags: Vec<String>,
    pub exec_command: Option<String>,
}

/// A Markdown prompt split at its front matter delimiters.
#[derive(Debug, PartialEq, Eq)]
pub struct FrontMatter {
    /// The YAML between the delimiter lines.
    pub metadata: String,
    /// Everything after the closing delimiter line and one line break.
    pub body: String,
    /// Number of lines before the body.
    pub body_line_offset: usize,
}

/// Line that stands in for empty content in the editor.
pub open spec fn content_placeholder() -> Seq<char> {
    "<!-- Enter prompt content here. -->"@
}

/// The delimiter line of the front matter.
pub open spec fn delimiter() -> Seq<char> {
    seq!['-', '-', '-']
}

/// `line` without one trailing `\r\n` or `\n`.
pub open spec fn trim_line_ending(line: Seq<char>) -> Seq<char> {
    if line.len() >= 2 && line[line.len() - 2] == '\r' && line[line.len() - 1] == '\n' {
        line.take(line.len() - 2)
    } else if line.len() >= 1 && line[line.len() - 1] == '\n' {
        line.take(line.len() - 1)
    } else {
        line
    }
}

/// Index just after the first `\n` at or after `start`.
pub open spec fn line_end(s: Seq<char>, start: int) -> Option<int>
    decreases s.len() - start,
{
    if start < 0 || start >= s.len() {
        None
    } else if s[start] == '\n' {
        Some(start + 1)
    } else {
        line_end(s, start + 1)
    }
}

pub proof fn lemma_line_end(s: Seq<char>, start: int)
    requires
        0 <= start,
    ensures
        line_end(s, start) matches Some(e) ==> start < e <= s.len() && s[e - 1] == '\n' && forall|k: int| start <= k < e - 1 ==> s[k] != '\n',
        line_end(s, start) is None ==> forall|k: int| start <= k < s.len() ==> s[k] != '\n',
    decreases s.len() - start,
{
    if start < s.len() && s[start] != '\n' {
        lemma_line_end(s, start + 1);
    }
}

/// End of the line that begins at `start`: after its `\n`, or the end of `s`.
pub open spec fn line_stop(s: Seq<char>, start: int) -> int {
    match line_end(s, start) {
        Some(e) => e,
        None => s.len() as int,
    }
}

/// Start of the line holding the closing delimiter, looking from `cursor`.
pub open spec fn closing_line(s: Seq<char>, cursor: int) -> Option<int>
    decreases s.len() - cursor,
    when 0 <= cursor <= s.len()
{
    let end = line_stop(s, cursor);
    if trim_line_ending(s.subrange(cursor, end)) == delimiter() {
        Some(cursor)
    } else if end == s.len() {
        None
    } else {
        proof {
            lemma_line_end(s, cursor);
        }
        closing_line(s, end)
    }
}

/// Start of the body after the closing delimiter line that begins at
/// `close`: one `\r\n` or `\n` after that line is skipped.
pub open spec fn body_start(s: Seq<char>, close: int) -> int {
    let end = line_stop(s, close);
    if end + 2 <= s.len() && s[end] == '\r' && s[end + 1] == '\n' {
        end + 2
    } else if end + 1 <= s.len() && s[end] == '\n' {
        end + 1
    } else {
        end
    }
}

/// The parts of `s` once the metadata starts at `first`, looking for the
/// closing delimiter from `cursor`.
pub open spec fn bounds_from(s: Seq<char>, first: int, cursor: int) -> Result<(int, int, int), Seq<char>> {
    match closing_line(s, cursor) {
        None => Err("invalid Markdown prompt: missing closing front matter delimiter"@),
        Some(close) => Ok((first, close, body_start(s, close))),
    }
}

/// Where the parts of a Markdown prompt stand: (start of the metadata, end
/// of the metadata, start of the body), or why it has no front matter.
pub open spec fn front_matter_bounds(s: Seq<char>) -> Result<(int, int, int), Seq<char>> {
    match line_end(s, 0) {
        None => Err("invalid Markdown prompt: missing opening front matter delimiter"@),
        Some(first) => if trim_line_ending(s.take(first)) != delimiter() {
            Err("invalid Markdown prompt: missing opening front matter delimiter"@)
        } else {
            bounds_from(s, first, first)
        },
    }
}

/// Index just after the first `\n` at or after `start`.
fn line_end_in(chars: &[char], start: usize) -> (result: Option<usize>)
    requires
        start <= chars@.len(),
    ensures
        match result {
            Some(e) => line_end(chars@, start as int) == Some(e as int),
            None => line_end(chars@, start as int) is None,
        },
{
    let mut i = start;
    while i < chars.len()
        invariant
            start <= i <= chars@.len(),
            line_end(chars@, i as int) == line_end(chars@, start as int),
        decreases chars@.len() - i,
    {
        if chars[i] == '\n' {
            return Some(i + 1);
        }
        i = i + 1;
    }
    None
}

/// Whether `chars[from..to]`, without its line ending, is `---`.
fn is_delimiter_line(chars: &[char], from: usize, to: usize) -> (result: bool)
    requires
        from <= to <= chars@.len(),
    ensures
        result == (trim_line_ending(chars@.subrange(from as int, to as int)) == delimiter()),
{
    let ghost line = chars@.subrange(from as int, to as int);
    let mut end = to;
    if end - from >= 2 && chars[end - 2] == '\r' && chars[end - 1] == '\n' {
        end = end - 2;
    } else if end - from >= 1 && chars[end - 1] == '\n' {
        end = end - 1;
    }
    assert(trim_line_ending(line) =~= chars@.subrange(from as int, end as int));
    if end - from == 3 && chars[from] == '-' && chars[from + 1] == '-' && chars[from + 2] == '-' {
        assert(chars@.subrange(from as int, end as int) =~= delimiter());
        true
    } else {
        assert(chars@.subrange(from as int, end as int) != delimiter() ) by {
            if chars@.subrange(from as int, end as int) == delimiter() {
                assert(chars@.subrange(from as int, end as int)[0] == '-');
                assert(chars@.subrange(from as int, end as int)[1] == '-');
                assert(chars@.subrange(from as int, end as int)[2] == '-');
            }
        }
        false
    }
}

/// Splits a Markdown prompt into its YAML front matter and its body. The
/// first line must be `---`; the front matter ends at the next `---` line,
/// and one line break after it is not part of the body.
pub fn split_front_matter(source: &str) -> (result: Result<FrontMatter, Error>)
    ensures
        match front_matter_bounds(source@) {
            Err(text) => fails_with(result, text),
            Ok((start, end, body)) => result matches Ok(front) && front.metadata@ == source@.subrange(start, end)
                && front.body@ == source@.skip(body) && front.body_line_offset == count_char(source@.take(body), '\n')
                && front.body_line_offset + front.body@.len() <= usize::MAX,
        },
{
    let chars = chars_of(source);
    let ghost s = chars@;
    let first = match line_end_in(chars.as_slice(), 0) {
        None => {
            return Err(message("invalid Markdown prompt: missing opening front matter delimiter"));
        },
        Some(first) => first,
    };
    proof {
        lemma_line_end(s, 0);
    }
    if !is_delimiter_line(chars.as_slice(), 0, first) {
        assert(s.subrange(0, first as int) =~= s.take(first as int));
        return Err(message("invalid Markdown prompt: missing opening front matter delimiter"));
    }
    assert(s.subrange(0, first as int) =~= s.take(first as int));
    let mut cursor = first;
    loop
        invariant
            s == chars@,
            s == source@,
            first <= cursor <= s.len(),
            front_matter_bounds(s) == bounds_from(s, first as int, cursor as int),
        decreases s.len() - cursor,
    {
        proof {
            lemma_line_end(s, cursor as int);
        }
        let end = match line_end_in(chars.as_slice(), cursor) {
            Some(e) => e,
            None => chars.len(),
        };
        if is_delimiter_line(chars.as_slice(), cursor, end) {
            let mut body = end;
            if end < chars.len() && chars.len() - end >= 2 && chars[end] == '\r' && chars[end + 1] == '\n' {
                body = end + 2;
            } else if end < chars.len() && chars[end] == '\n' {
                body = end + 1;
            }
            let metadata = string_from_chars(chars.as_slice(), first, cursor);
            let text = string_from_chars(chars.as_slice(), body, chars.len());
            let offset = count_newlines_before(chars.as_slice(), body);
            assert(s.subrange(body as int, s.len() as int) =~= s.skip(body as int));
            return Ok(FrontMatter { metadata, body: text, body_line_offset: offset });
        }
        if end == chars.len() {
            return Err(message("invalid Markdown prompt: missing closing front matter delimiter"));
        }
        cursor = end;
    }
}

/// Number of newlines in `chars[..i]`.
fn count_newlines_before(chars: &[char], i: usize) -> (result: usize)
    requires
        i <= chars@.len(),
    ensures
        result == count_char(chars@.take(i as int), '\n'),
        result <= i,
{
    let mut count: usize = 0;
    let mut k: usize = 0;
    while k < i
        invariant
            k <= i <= chars@.len(),
            count == count_char(chars@.take(k as int), '\n'),
            count <= k,
        decreases i - k,
    {
        assert(chars@.take(k + 1).drop_last() =~= chars@.take(k as int));
        if chars[k] == '\n' {
            count = count + 1;
        }
        k = k + 1;
    }
    count
}

/// The text of a rejected prompt name.
pub open spec fn name_error_text(name: Seq<char>) -> Seq<char> {
    if name.len() == 0 {
        "prompt name must not be empty"@
    } else {
        "invalid prompt name: "@ + name
    }
}

/// Why an exec command is rejected, if it is.
pub open spec fn exec_problem(command: Seq<char>) -> Option<Seq<char>> {
    match shell_words_split(command) {
        None => Some("invalid exec command: missing closing quote"@),
        Some(words) => if words.len() == 0 {
            Some("exec command must not be empty"@)
        } else {
            None
        },
    }
}

/// Some tag is empty once trimmed.
pub open spec fn has_empty_tag(tags: Seq<String>) -> bool {
    exists|i: int| 0 <= i < tags.len() && (#[trigger] trimmed_tags(tags)[i]).len() == 0
}

/// `tags` are `raw` trimmed, without repeats, in ascending order.
pub open spec fn normalized(tags: Seq<String>, raw: Seq<String>) -> bool {
    strictly_sorted(text_views(tags)) && text_views(tags).to_set() == trimmed_tags(raw).to_set()
}

/// Why a prompt with this metadata and body is rejected, if it is: the
/// name, then the tags, then the exec command, then the body's template
/// syntax are checked.
pub open spec fn document_problem(body: Seq<char>, line_offset: nat, metadata: Metadata) -> Option<Seq<char>> {
    if !is_valid_name(metadata.name@) {
        Some(name_error_text(metadata.name@))
    } else if has_empty_tag(metadata.tags@) {
        Some("tag must not be empty"@)
    } else if metadata.exec_command matches Some(command) && exec_problem(command@) is Some {
        exec_problem(metadata.exec_command->0@)
    } else {
        match syntax_check(body, 0) {
            Some((open, problem)) => Some(
                syntax_error_text(body, open, line_offset, problem_detail(body, open, problem)),
            ),
            None => None,
        }
    }
}

fn clone_text_option(value: &Option<String>) -> (result: Option<String>)
    ensures
        result == *value,
{
    match value {
        Some(text) => Some(text.clone()),
        None => None,
    }
}

/// Checks an exec command: it must split into at least one word.
fn check_exec_command(command: &Option<String>) -> (result: Result<(), Error>)
    ensures
        match command {
            Some(c) => match exec_problem(c@) {
                Some(text) => fails_with(result, text),
                None => result is Ok,
            },
            None => result is Ok,
        },
{
    match command {
        Some(c) => match parse_exec_command(c.as_str()) {
            Ok(_) => Ok(()),
            Err(error) => Err(error),
        },
        None => Ok(()),
    }
}

/// The prompt that a Markdown file describes, given its front matter split
/// off and its YAML decoded into `metadata`: the metadata and the body's
/// template syntax are checked (template errors name lines of the file),
/// and tags are normalized.
pub fn parse(front: &FrontMatter, metadata: Metadata) -> (result: Result<PromptDocument, Error>)
    requires
        front.body_line_offset + front.body@.len() <= usize::MAX,
    ensures
        match document_problem(front.body@, front.body_line_offset as nat, metadata) {
            Some(text) => fails_with(result, text),
            None => result matches Ok(document) && document.name == metadata.name
                && document.description == metadata.description && normalized(document.tags@, metadata.tags@)
                && document.exec_command == metadata.exec_command && document.content@ == front.body@,
        },
{
    match validate_name(metadata.name.as_str()) {
        Ok(()) => {},
        Err(error) => {
            return Err(error);
        },
    }
    let tags = match normalize_tags(metadata.tags) {
        Ok(tags) => tags,
        Err(error) => {
            return Err(error);
        },
    };
    match check_exec_command(&metadata.exec_command) {
        Ok(()) => {},
        Err(error) => {
            return Err(error);
        },
    }
    match validate_with_line_offset(front.body.as_str(), front.body_line_offset) {
        Ok(()) => {},
        Err(error) => {
            return Err(error);
        },
    }
    Ok(
        PromptDocument {
            name: metadata.name,
            description: metadata.description,
            tags,
            exec_command: metadata.exec_command,
            content: front.body.clone(),
        },
    )
}

/// `s` from `cursor` on, without the lines that (without their line
/// ending) are the content placeholder.
pub open spec fn without_placeholder(s: Seq<char>, cursor: int) -> Seq<char>
    decreases s.len() - cursor,
    when 0 <= cursor <= s.len()
{
    if cursor >= s.len() {
        Seq::empty()
    } else {
        proof {
            lemma_line_end(s, cursor);
        }
        let end = line_stop(s, cursor);
        let line = s.subrange(cursor, end);
        (if trim_line_ending(line) == content_placeholder() {
            Seq::empty()
        } else {
            line
        }) + without_placeholder(s, end)
    }
}

/// Whether `chars[from..to]` is the text `other`.
fn chars_equal(chars: &[char], from: usize, to: usize, other: &str) -> (result: bool)
    requires
        from <= to <= chars@.len(),
    ensures
        result == (chars@.subrange(from as int, to as int) == other@),
{
    let o = chars_of(other);
    if to - from != o.len() {
        return false;
    }
    let mut i: usize = 0;
    while i < o.len()
        invariant
            to - from == o@.len(),
            from <= to <= chars@.len(),
            o@ == other@,
            i <= o@.len(),
            forall|k: int| 0 <= k < i ==> chars@[from + k] == o@[k],
        decreases o@.len() - i,
    {
        if chars[from + i] != o[i] {
            assert(chars@.subrange(from as int, to as int)[i as int] != o@[i as int]);
            return false;
        }
        i = i + 1;
    }
    assert(chars@.subrange(from as int, to as int) =~= o@);
    true
}

/// Whether `chars[from..to]` starts with the text `prefix`.
fn chars_start_with(chars: &[char], from: usize, to: usize, prefix: &str) -> (result: bool)
    requires
        from <= to <= chars@.len(),
    ensures
        result == starts_with(chars@.subrange(from as int, to as int), prefix@),
{
    let p = chars_of(prefix);
    if to - from < p.len() {
        return false;
    }
    let r = chars_equal(chars, from, from + p.len(), prefix);
    assert(chars@.subrange(from as int, to as int).take(p@.len() as int) =~= chars@.subrange(
        from as int,
        from + p@.len(),
    ));
    r
}

/// Bounds of `chars[from..to]` without one trailing `\r\n` or `\n`.
fn without_line_ending(chars: &[char], from: usize, to: usize) -> (result: usize)
    requires
        from <= to <= chars@.len(),
    ensures
        from <= result <= to,
        chars@.subrange(from as int, result as int) == trim_line_ending(chars@.subrange(from as int, to as int)),
{
    let ghost line = chars@.subrange(from as int, to as int);
    let mut end = to;
    if end - from >= 2 && chars[end - 2] == '\r' && chars[end - 1] == '\n' {
        end = end - 2;
    } else if end - from >= 1 && chars[end - 1] == '\n' {
        end = end - 1;
    }
    assert(trim_line_ending(line) =~= chars@.subrange(from as int, end as int));
    end
}

/// Drops the content placeholder lines of a body being read back from the
/// editor.
fn strip_placeholder(content: &str) -> (result: String)
    ensures
        result@ == without_placeholder(content@, 0),
{
    let chars = chars_of(content);
    let ghost s = chars@;
    let mut output = String::new();
    let mut cursor: usize = 0;
    while cursor < chars.len()
        invariant
            s == chars@,
            s == content@,
            cursor <= s.len(),
            output@ + without_placeholder(s, cursor as int) == without_placeholder(s, 0),
        decreases s.len() - cursor,
    {
        proof {
            lemma_line_end(s, cursor as int);
        }
        let end = match line_end_in(chars.as_slice(), cursor) {
            Some(e) => e,
            None => chars.len(),
        };
        let stop = without_line_ending(chars.as_slice(), cursor, end);
        let ghost before = output@;
        if !chars_equal(chars.as_slice(), cursor, stop, "<!-- Enter prompt content here. -->") {
            push_chars(&mut output, chars.as_slice(), cursor, end);
            assert(output@ + without_placeholder(s, end as int) =~= before + without_placeholder(s, cursor as int));
        } else {
            assert(output@ + without_placeholder(s, end as int) =~= before + without_placeholder(s, cursor as int));
        }
        cursor = end;
    }
    assert(output@ =~= output@ + without_placeholder(s, cursor as int));
    output
}

/// Like [`parse`], for a prompt read back from the editor: lines that only
/// hold the content placeholder are dropped from the content.
pub fn parse_editor(front: &FrontMatter, metadata: Metadata) -> (result: Result<PromptDocument, Error>)
    requires
        front.body_line_offset + front.body@.len() <= usize::MAX,
    ensures
        match document_problem(front.body@, front.body_line_offset as nat, metadata) {
            Some(text) => fails_with(result, text),
            None => result matches Ok(document) && document.name == metadata.name
                && document.description == metadata.description && normalized(document.tags@, metadata.tags@)
                && document.exec_command == metadata.exec_command && document.content@
                == without_placeholder(front.body@, 0),
        },
{
    let mut document = match parse(front, metadata) {
        Ok(document) => document,
        Err(error) => {
            return Err(error);
        },
    };
    document.content = strip_placeholder(document.content.as_str());
    Ok(document)
}

/// Why a document cannot be exported, if it cannot: the name, then the exec
/// command, then the tags are checked.
pub open spec fn export_problem(document: PromptDocument) -> Option<Seq<char>> {
    if !is_valid_name(document.name@) {
        Some(name_error_text(document.name@))
    } else if document.exec_command matches Some(command) && exec_problem(command@) is Some {
        exec_problem(document.exec_command->0@)
    } else if has_empty_tag(document.tags@) {
        Some("tag must not be empty"@)
    } else {
        None
    }
}

fn clone_texts(items: &Vec<String>) -> (result: Vec<String>)
    ensures
        result@ == items@,
{
    let mut result: Vec<String> = Vec::new();
    let mut i: usize = 0;
    while i < items.len()
        invariant
            i <= items@.len(),
            result@ == items@.take(i as int),
        decreases items@.len() - i,
    {
        result.push(items[i].clone());
        assert(items@.take(i + 1) =~= items@.take(i as int).push(items@[i as int]));
        i = i + 1;
    }
    assert(items@.take(items@.len() as int) =~= items@);
    result
}

/// The metadata to write for a document, once it is checked: tags are
/// normalized.
pub fn export_metadata(document: &PromptDocument) -> (result: Result<Metadata, Error>)
    ensures
        match export_problem(*document) {
            Some(text) => fails_with(result, text),
            None => result matches Ok(metadata) && metadata.name == document.name
                && metadata.description == document.description && normalized(metadata.tags@, document.tags@)
                && metadata.exec_command == document.exec_command,
        },
{
    match validate_name(document.name.as_str()) {
        Ok(()) => {},
        Err(error) => {
            return Err(error);
        },
    }
    match check_exec_command(&document.exec_command) {
        Ok(()) => {},
        Err(error) => {
            return Err(error);
        },
    }
    let tags = match normalize_tags(clone_texts(&document.tags)) {
        Ok(tags) => tags,
        Err(error) => {
            return Err(error);
        },
    };
    Ok(
        Metadata {
            name: document.name.clone(),
            description: clone_text_option(&document.description),
            tags,
            exec_command: clone_text_option(&document.exec_command),
        },
    )
}

/// The help comment for a line of the metadata YAML, and whether tag
/// examples follow: (line as shown, help, examples).
pub open spec fn help_for(line: Seq<char>) -> (Seq<char>, Option<Seq<char>>, bool) {
    if starts_with(line, "name:"@) {
        (line, Some("required, unique"@), false)
    } else if starts_with(line, "description:"@) {
        (line, Some("optional, short description"@), false)
    } else if line == "tags: []"@ {
        ("tags:"@, Some("optional, YAML list"@), true)
    } else if line == "tags:"@ {
        (line, Some("optional, YAML list"@), false)
    } else if starts_with(line, "exec:"@) {
        (line, Some("optional, e.g. codex exec -"@), false)
    } else {
        (line, None, false)
    }
}

/// Spaces between a line and its help comment: up to column 20, at least 2.
pub open spec fn help_padding(shown: Seq<char>) -> nat {
    if shown.len() + 2 <= 20 {
        (20 - shown.len()) as nat
    } else {
        2
    }
}

/// A line of the metadata YAML as written, with its help comment.
pub open spec fn help_line(line: Seq<char>) -> Seq<char> {
    let (shown, help, examples) = help_for(line);
    shown + match help {
        Some(h) => repeat_char(' ', help_padding(shown)) + "# "@ + h,
        None => Seq::empty(),
    } + "\n"@ + if examples {
        "  # - coding\n  # - review\n"@
    } else {
        Seq::empty()
    }
}

/// The metadata YAML from `cursor` on, with help comments: each line (as
/// `str::lines` gives them) is written by `help_line`.
pub open spec fn with_field_help(s: Seq<char>, cursor: int) -> Seq<char>
    decreases s.len() - cursor,
    when 0 <= cursor <= s.len()
{
    if cursor >= s.len() {
        Seq::empty()
    } else {
        proof {
            lemma_line_end(s, cursor);
        }
        let end = line_stop(s, cursor);
        help_line(trim_line_ending(s.subrange(cursor, end))) + with_field_help(s, end)
    }
}

/// Help comments only append: every metadata line but `tags: []` is shown
/// as it is, and its written form is the line itself followed by either its
/// line break or white space before a `#` comment, so each field keeps its
/// value. `tags: []` is written as `tags:` with commented examples, still
/// an empty list.
pub proof fn lemma_help_keeps_lines(line: Seq<char>)
    ensures
        line != "tags: []"@ ==> help_for(line).0 == line,
        line != "tags: []"@ ==> help_line(line).take(line.len() as int) == line,
        line != "tags: []"@ ==> help_line(line)[line.len() as int] == ' ' || help_line(line)[line.len() as int]
            == '\n',
        help_line(line).last() == '\n' || help_for(line).2,
        line == "tags: []"@ ==> help_line(line).take(5) == "tags:"@,
{
    reveal_strlit("tags: []");
    reveal_strlit("tags:");
    reveal_strlit("\n");
    reveal_strlit("# ");
    reveal_strlit("  # - coding\n  # - review\n");
    let (shown, help, examples) = help_for(line);
    let comment = match help {
        Some(h) => repeat_char(' ', help_padding(shown)) + "# "@ + h,
        None => Seq::<char>::empty(),
    };
    let tail = if examples {
        "  # - coding\n  # - review\n"@
    } else {
        Seq::<char>::empty()
    };
    assert(help_line(line) == shown + comment + "\n"@ + tail);
    assert((shown + comment + "\n"@ + tail).take(shown.len() as int) =~= shown);
    if help is Some {
        assert(help_padding(shown) >= 2);
        assert(repeat_char(' ', help_padding(shown))[0] == ' ');
        assert(comment[0] == ' ');
        assert((shown + comment + "\n"@ + tail)[shown.len() as int] == comment[0]);
    } else {
        assert(comment.len() == 0);
        assert((shown + comment + "\n"@ + tail)[shown.len() as int] == '\n');
    }
    if !examples {
        assert(tail.len() == 0);
        assert((shown + comment + "\n"@ + tail).last() == '\n');
    }
}

/// Writes one metadata line with its help comment.
fn push_help_line(output: &mut String, chars: &[char], from: usize, to: usize)
    requires
        from <= to <= chars@.len(),
    ensures
        final(output)@ == old(output)@ + help_line(chars@.subrange(from as int, to as int)),
{
    let ghost line = chars@.subrange(from as int, to as int);
    let ghost start = output@;
    let mut examples = false;
    let help: Option<&str>;
    if chars_start_with(chars, from, to, "name:") {
        push_chars(output, chars, from, to);
        help = Some("required, unique");
    } else if chars_start_with(chars, from, to, "description:") {
        push_chars(output, chars, from, to);
        help = Some("optional, short description");
    } else if chars_equal(chars, from, to, "tags: []") {
        push_str(output, "tags:");
        help = Some("optional, YAML list");
        examples = true;
    } else if chars_equal(chars, from, to, "tags:") {
        push_chars(output, chars, from, to);
        help = Some("optional, YAML list");
    } else if chars_start_with(chars, from, to, "exec:") {
        push_chars(output, chars, from, to);
        help = Some("optional, e.g. codex exec -");
    } else {
        push_chars(output, chars, from, to);
        help = None;
    }
    let ghost shown = help_for(line).0;
    assert(output@ == start + shown);
    let shown_len: usize = if examples {
        proof {
            reveal_strlit("tags:");
        }
        5
    } else {
        to - from
    };
    assert(shown_len == shown.len());
    match help {
        Some(h) => {
            let padding: usize = if shown_len <= 18 {
                20 - shown_len
            } else {
                2
            };
            push_repeated(output, ' ', padding);
            push_str(output, "# ");
            push_str(output, h);
        },
        None => {},
    }
    push_str(output, "\n");
    if examples {
        push_str(output, "  # - coding\n  # - review\n");
    }
    assert(output@ =~= start + help_line(line));
}

/// Adds help comments to the metadata YAML.
pub fn add_field_help(yaml: &str) -> (result: String)
    ensures
        result@ == with_field_help(yaml@, 0),
{
    let chars = chars_of(yaml);
    let ghost s = chars@;
    let mut output = String::new();
    let mut cursor: usize = 0;
    while cursor < chars.len()
        invariant
            s == chars@,
            s == yaml@,
            cursor <= s.len(),
            output@ + with_field_help(s, cursor as int) == with_field_help(s, 0),
        decreases s.len() - cursor,
    {
        proof {
            lemma_line_end(s, cursor as int);
        }
        let end = match line_end_in(chars.as_slice(), cursor) {
            Some(e) => e,
            None => chars.len(),
        };
        let stop = without_line_ending(chars.as_slice(), cursor, end);
        let ghost before = output@;
        push_help_line(&mut output, chars.as_slice(), cursor, stop);
        assert(output@ + with_field_help(s, end as int) =~= before + with_field_help(s, cursor as int));
        cursor = end;
    }
    assert(output@ =~= output@ + with_field_help(s, cursor as int));
    output
}

/// `s` with every occurrence of `pattern` replaced by `replacement`.
pub fn replace_text(s: &str, pattern: &str, replacement: &str) -> (result: String)
    requires
        pattern@.len() > 0,
    ensures
        result@ == replace_all(s@, pattern@, replacement@),
{
    let chars = chars_of(s);
    let p = chars_of(pattern);
    let ghost t = chars@;
    let mut output = String::new();
    let mut i: usize = 0;
    assert(t.skip(0) =~= t);
    assert(output@ + t =~= t);
    while i < chars.len()
        invariant
            t == chars@,
            t == s@,
            p@ == pattern@,
            p@.len() > 0,
            i <= t.len(),
            output@ + replace_all(t.skip(i as int), pattern@, replacement@) == replace_all(t, pattern@, replacement@),
        decreases t.len() - i,
    {
        let ghost rest = t.skip(i as int);
        if chars.len() - i >= p.len() && chars_equal(chars.as_slice(), i, i + p.len(), pattern) {
            let ghost before = output@;
            push_str(&mut output, replacement);
            assert(rest.take(p@.len() as int) =~= t.subrange(i as int, i + p@.len()));
            assert(rest.skip(p@.len() as int) =~= t.skip(i + p@.len()));
            assert(output@ + replace_all(t.skip(i + p@.len()), pattern@, replacement@) =~= before + replace_all(rest, pattern@, replacement@));
            i = i + p.len();
        } else {
            let ghost before = output@;
            proof {
                if rest.len() >= p@.len() {
                    assert(rest.take(p@.len() as int) =~= t.subrange(i as int, i + p@.len()));
                }
            }
            push_char_at(&mut output, chars.as_slice(), i);
            assert(rest.drop_first() =~= t.skip(i + 1));
            assert(output@ + replace_all(t.skip(i + 1), pattern@, replacement@) =~= before + replace_all(rest, pattern@, replacement@));
            i = i + 1;
        }
    }
    assert(t.skip(i as int) =~= Seq::<char>::empty());
    assert(output@ =~= output@ + replace_all(t.skip(i as int), pattern@, replacement@));
    output
}

fn push_char_at(output: &mut String, chars: &[char], i: usize)
    requires
        i < chars@.len() <= usize::MAX,
    ensures
        final(output)@ == old(output)@ + seq![chars@[i as int]],
{
    push_chars(output, chars, i, i + 1);
    assert(chars@.subrange(i as int, i + 1) =~= seq![chars@[i as int]]);
}

/// The Markdown written for a prompt whose metadata YAML is `yaml` (as the
/// YAML library writes it): empty `description`/`exec` values are left
/// blank, lines get help comments, and the content follows a blank line
/// as it is, without an added line break.
pub open spec fn exported_markdown(yaml: Seq<char>, content: Seq<char>) -> Seq<char> {
    let blanked = replace_all(
        replace_all(yaml, "description: null\n"@, "description:\n"@),
        "exec: null\n"@,
        "exec:\n"@,
    );
    "---\n"@ + with_field_help(blanked, 0) + "---\n\n"@ + content
}

/// The Markdown for `document`, given `metadata_yaml`, the YAML that the
/// YAML library writes for `export_metadata(document)`.
pub fn export(document: &PromptDocument, metadata_yaml: &str) -> (result: Result<String, Error>)
    ensures
        match export_problem(*document) {
            Some(text) => fails_with(result, text),
            None => result matches Ok(markdown) && markdown@ == exported_markdown(
                metadata_yaml@,
                document.content@,
            ),
        },
{
    match export_metadata(document) {
        Ok(_) => {},
        Err(error) => {
            return Err(error);
        },
    }
    proof {
        reveal_strlit("description: null\n");
        reveal_strlit("exec: null\n");
    }
    let blanked = replace_text(metadata_yaml, "description: null\n", "description:\n");
    let blanked = replace_text(blanked.as_str(), "exec: null\n", "exec:\n");
    let mut markdown = "---\n".to_owned();
    let helped = add_field_help(blanked.as_str());
    push_str(&mut markdown, helped.as_str());
    push_str(&mut markdown, "---\n\n");
    push_str(&mut markdown, document.content.as_str());
    Ok(markdown)
}

/// Like [`export`], for the editor: empty content is shown as the content
/// placeholder, which [`parse_editor`] drops again.
pub fn export_for_editor(document: &PromptDocument, metadata_yaml: &str) -> (result: Result<String, Error>)
    ensures
        match export_problem(*document) {
            Some(text) => fails_with(result, text),
            None => result matches Ok(markdown) && markdown@ == exported_markdown(
                metadata_yaml@,
                document.content@,
            ) + if document.content@.len() == 0 {
                content_placeholder()
            } else {
                Seq::empty()
            },
        },
{
    let mut markdown = match export(document, metadata_yaml) {
        Ok(markdown) => markdown,
        Err(error) => {
            return Err(error);
        },
    };
    if document.content.as_str().is_empty() {
        push_str(&mut markdown, "<!-- Enter prompt content here. -->");
    } else {
        assert(markdown@ =~= markdown@ + Seq::<char>::empty());
    }
    Ok(markdown)
}

/// A Markdown prompt put together from its front matter text and its body:
/// `---`, the front matter, `---`, an empty line, the body.
pub open spec fn framed(metadata: Seq<char>, body: Seq<char>) -> Seq<char> {
    seq!['-', '-', '-', '\n'] + metadata + seq!['-', '-', '-', '\n', '\n'] + body
}

/// The front matter of an exported prompt: the YAML with blank optional
/// fields and help comments.
pub open spec fn exported_metadata(yaml: Seq<char>) -> Seq<char> {
    with_field_help(
        replace_all(
            replace_all(yaml, "description: null\n"@, "description:\n"@),
            "exec: null\n"@,
            "exec:\n"@,
        ),
        0,
    )
}

/// An exported prompt is its front matter and its content, framed.
pub proof fn lemma_exported_is_framed(yaml: Seq<char>, content: Seq<char>)
    ensures
        exported_markdown(yaml, content) == framed(exported_metadata(yaml), content),
{
    reveal_strlit("---\n");
    reveal_strlit("---\n\n");
    assert(exported_markdown(yaml, content) =~= framed(exported_metadata(yaml), content));
}

proof fn lemma_line_end_shift(s: Seq<char>, m: Seq<char>, offset: int, c: int)
    requires
        0 <= offset,
        0 <= c <= m.len(),
        offset + m.len() <= s.len(),
        forall|k: int| 0 <= k < m.len() ==> s[offset + k] == #[trigger] m[k],
        line_end(m, c) is Some,
    ensures
        line_end(s, offset + c) == Some(offset + line_end(m, c)->0),
    decreases m.len() - c,
{
    if c < m.len() && m[c] != '\n' {
        lemma_line_end_shift(s, m, offset, c + 1);
    }
}

proof fn lemma_closing_after(s: Seq<char>, m: Seq<char>, c: int)
    requires
        s == framed(m, s.skip(m.len() as int + 9)),
        s.len() >= m.len() + 9,
        0 <= c <= m.len(),
        m.len() == 0 || m.last() == '\n',
        closing_line(m, c) is None,
    ensures
        closing_line(s, 4 + c) == Some(4 + m.len() as int),
    decreases m.len() - c,
{
    let n = m.len() as int;
    assert forall|k: int| 0 <= k < m.len() implies s[4 + k] == #[trigger] m[k] by {}
    if c == n {
        assert(s[4 + n] == '-' && s[5 + n] == '-' && s[6 + n] == '-' && s[7 + n] == '\n');
        assert(line_end(s, 7 + n) == Some(8 + n));
        assert(line_end(s, 6 + n) == Some(8 + n));
        assert(line_end(s, 5 + n) == Some(8 + n));
        assert(line_end(s, 4 + n) == Some(8 + n));
        assert(trim_line_ending(s.subrange(4 + n, 8 + n)) =~= delimiter());
    } else {
        lemma_line_end(m, c);
        assert(line_end(m, c) is Some) by {
            if line_end(m, c) is None {
                assert(m[n - 1] == '\n');
            }
        }
        let e = line_end(m, c)->0;
        lemma_line_end_shift(s, m, 4, c);
        assert(line_stop(m, c) == e);
        assert(line_stop(s, 4 + c) == 4 + e);
        assert(s.subrange(4 + c, 4 + e) =~= m.subrange(c, e));
        lemma_line_end(s, 4 + c);
        lemma_closing_after(s, m, e);
    }
}

/// The front matter and the body of a framed prompt read back as they were
/// written, as long as the front matter has no `---` line of its own and
/// ends its last line: so an exported prompt imports with its content.
pub proof fn lemma_front_matter_round_trip(metadata: Seq<char>, body: Seq<char>)
    requires
        metadata.len() == 0 || metadata.last() == '\n',
        closing_line(metadata, 0) is None,
    ensures
        front_matter_bounds(framed(metadata, body)) == Ok::<(int, int, int), Seq<char>>(
            (4, 4 + metadata.len() as int, 9 + metadata.len() as int),
        ),
        framed(metadata, body).subrange(4, 4 + metadata.len() as int) == metadata,
        framed(metadata, body).skip(9 + metadata.len() as int) == body,
{
    let s = framed(metadata, body);
    let n = metadata.len() as int;
    assert(s.skip(n + 9) =~= body);
    assert(s[0] == '-' && s[1] == '-' && s[2] == '-' && s[3] == '\n');
    assert(line_end(s, 3) == Some(4int));
    assert(line_end(s, 2) == Some(4int));
    assert(line_end(s, 1) == Some(4int));
    assert(line_end(s, 0) == Some(4int));
    assert(trim_line_ending(s.take(4)) =~= delimiter());
    lemma_closing_after(s, metadata, 0);
    assert(s[4 + n] == '-' && s[5 + n] == '-' && s[6 + n] == '-' && s[7 + n] == '\n' && s[8 + n] == '\n');
    assert(line_end(s, 7 + n) == Some(8 + n));
    assert(line_end(s, 6 + n) == Some(8 + n));
    assert(line_end(s, 5 + n) == Some(8 + n));
    assert(line_end(s, 4 + n) == Some(8 + n));
    assert(body_start(s, 4 + n) == 9 + n);
    assert(s.subrange(4, 4 + n) =~= metadata);
}

/// An exported prompt reads back as it was: the front matter and content
/// are found where they were written, and the metadata that the YAML gives
/// back (the name, description, exec command and normalized tags that were
/// exported) passes every check, so parsing yields the document's name,
/// description, exec command and content, with its tags normalized. This
/// holds when the content is valid template text (parsing checks it and
/// exporting does not) and the front matter has no `---` line of its own
/// and ends its last line.
pub proof fn lemma_export_parse_round_trip(document: PromptDocument, yaml: Seq<char>, decoded: Metadata)
    requires
        export_problem(document) is None,
        syntax_check(document.content@, 0) is None,
        exported_metadata(yaml).len() == 0 || exported_metadata(yaml).last() == '\n',
        closing_line(exported_metadata(yaml), 0) is None,
        decoded.name == document.name,
        decoded.description == document.description,
        decoded.exec_command == document.exec_command,
        normalized(decoded.tags@, document.tags@),
    ensures
        front_matter_bounds(exported_markdown(yaml, document.content@)) == Ok::<(int, int, int), Seq<char>>(
            (4, 4 + exported_metadata(yaml).len() as int, 9 + exported_metadata(yaml).len() as int),
        ),
        exported_markdown(yaml, document.content@).subrange(4, 4 + exported_metadata(yaml).len() as int)
            == exported_metadata(yaml),
        exported_markdown(yaml, document.content@).skip(9 + exported_metadata(yaml).len() as int)
            == document.content@,
        forall|line_offset: nat| #[trigger] document_problem(document.content@, line_offset, decoded) is None,
{
    lemma_exported_is_framed(yaml, document.content@);
    lemma_front_matter_round_trip(exported_metadata(yaml), document.content@);
    assert(!has_empty_tag(decoded.tags@)) by {
        assert forall|i: int| 0 <= i < decoded.tags@.len() implies (#[trigger] trimmed_tags(decoded.tags@)[i]).len()
            != 0 by {
            let tag = decoded.tags@[i]@;
            assert(text_views(decoded.tags@)[i] == tag);
            assert(text_views(decoded.tags@).to_set().contains(tag));
            assert(trimmed_tags(document.tags@).to_set().contains(tag));
            let j = choose|j: int| 0 <= j < trimmed_tags(document.tags@).len() && trimmed_tags(document.tags@)[j] == tag;
            assert(trimmed_tags(document.tags@)[j].len() != 0);
            crate::text::lemma_trim_idempotent(document.tags@[j]@);
        }
    }
}

/// Some line of `s` from `cursor` on is, without its line ending, the
/// content placeholder.
pub open spec fn has_placeholder_line(s: Seq<char>, cursor: int) -> bool
    decreases s.len() - cursor,
    when 0 <= cursor <= s.len()
{
    if cursor >= s.len() {
        false
    } else {
        proof {
            lemma_line_end(s, cursor);
        }
        let end = line_stop(s, cursor);
        trim_line_ending(s.subrange(cursor, end)) == content_placeholder() || has_placeholder_line(s, end)
    }
}

/// Text without a placeholder line keeps every line.
proof fn lemma_without_placeholder_keeps(s: Seq<char>, cursor: int)
    requires
        0 <= cursor <= s.len(),
        !has_placeholder_line(s, cursor),
    ensures
        without_placeholder(s, cursor) == s.skip(cursor),
    decreases s.len() - cursor,
{
    if cursor < s.len() {
        lemma_line_end(s, cursor);
        let end = line_stop(s, cursor);
        lemma_without_placeholder_keeps(s, end);
        assert(s.skip(cursor) =~= s.subrange(cursor, end) + s.skip(end));
    } else {
        assert(s.skip(cursor) =~= Seq::<char>::empty());
    }
}

/// The placeholder is one line without a line break and without `{{`, which
/// reading back drops whole.
proof fn lemma_placeholder_text()
    ensures
        find_pair(content_placeholder(), 0, '{') is None,
        syntax_check(content_placeholder(), 0) is None,
        without_placeholder(content_placeholder(), 0) == Seq::<char>::empty(),
{
    let p = content_placeholder();
    reveal_strlit("<!-- Enter prompt content here. -->");
    assert(p.len() == 35);
    assert forall|k: int| 0 <= k < p.len() implies p[k] != '\n' && p[k] != '{' by {
        assert(p == seq![
            '<', '!', '-', '-', ' ', 'E', 'n', 't', 'e', 'r', ' ', 'p', 'r', 'o', 'm', 'p', 't', ' ', 'c',
            'o', 'n', 't', 'e', 'n', 't', ' ', 'h', 'e', 'r', 'e', '.', ' ', '-', '-', '>',
        ]);
    }
    lemma_line_end(p, 0);
    lemma_find_pair(p, 0, '{');
    assert(line_end(p, 0) is None);
    assert(trim_line_ending(p) == p);
    assert(p.subrange(0, p.len() as int) =~= p);
    assert(without_placeholder(p, p.len() as int) == Seq::<char>::empty());
}

/// A prompt written out for the editor reads back as it was: the front
/// matter is found where it was written, the content placeholder that
/// stands in for empty content is dropped again, and the exported metadata
/// passes every check, so the editor's parse yields the document's content.
/// This holds when the content is valid template text, has no line of its
/// own that is the placeholder, and the front matter has no `---` line of
/// its own and ends its last line.
pub proof fn lemma_export_editor_round_trip(document: PromptDocument, yaml: Seq<char>, decoded: Metadata)
    requires
        export_problem(document) is None,
        syntax_check(document.content@, 0) is None,
        !has_placeholder_line(document.content@, 0),
        exported_metadata(yaml).len() == 0 || exported_metadata(yaml).last() == '\n',
        closing_line(exported_metadata(yaml), 0) is None,
        decoded.name == document.name,
        decoded.description == document.description,
        decoded.exec_command == document.exec_command,
        normalized(decoded.tags@, document.tags@),
    ensures
        ({
            let markdown = exported_markdown(yaml, document.content@) + if document.content@.len() == 0 {
                content_placeholder()
            } else {
                Seq::empty()
            };
            let n = exported_metadata(yaml).len() as int;
            &&& front_matter_bounds(markdown) == Ok::<(int, int, int), Seq<char>>((4, 4 + n, 9 + n))
            &&& markdown.subrange(4, 4 + n) == exported_metadata(yaml)
            &&& without_placeholder(markdown.skip(9 + n), 0) == document.content@
            &&& forall|line_offset: nat| #[trigger] document_problem(markdown.skip(9 + n), line_offset, decoded) is None
        }),
{
    let content = document.content@;
    let body = if content.len() == 0 {
        content_placeholder()
    } else {
        content
    };
    let markdown = exported_markdown(yaml, content) + if content.len() == 0 {
        content_placeholder()
    } else {
        Seq::empty()
    };
    let n = exported_metadata(yaml).len() as int;
    assert(markdown =~= exported_markdown(yaml, body));
    lemma_exported_is_framed(yaml, body);
    lemma_front_matter_round_trip(exported_metadata(yaml), body);
    lemma_export_parse_round_trip(document, yaml, decoded);
    assert(markdown.skip(9 + n) == body);
    if content.len() == 0 {
        lemma_placeholder_text();
        assert(content =~= Seq::<char>::empty());
        assert forall|line_offset: nat| #[trigger] document_problem(body, line_offset, decoded) is None by {
            assert(document_problem(content, line_offset, decoded) is None);
        }
    } else {
        lemma_without_placeholder_keeps(content, 0);
        assert(content.skip(0) =~= content);
    }
}

} // verus!
