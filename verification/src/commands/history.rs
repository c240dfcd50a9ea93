//! `history`: the table of a prompt's saved versions, and the diff between
//! two of them, coloured line by line.
use vstd::prelude::*;

use crate::db::{PromptVersion, PromptVersionSummary};
use crate::error::{fails_with, Error};
use crate::prompt::markdown::PromptDocument;
use crate::prompt::text_views;
use crate::text::{
    chars_of, lines_from, push_signed, push_str, signed_decimal, split_lines, starts_with,
    string_from_chars,
};

use super::{
    cell_style, cell_styles, format_local_timestamp, format_table, full_timestamp_text,
    has_local_date, header_views, local_date_time, out_of_range_text, row_views, style_codes, style_views, table,
    TextStyle,
};

verus! {

/// The document of a saved version.
pub fn version_document(version: PromptVersion) -> (result: PromptDocument)
    ensures
        result.name == version.name,
        result.description == version.description,
        result.tags == version.tags,
        result.exec_command == version.exec_command,
        result.content == version.content,
{
    PromptDocument {
        name: version.name,
        description: version.description,
        tags: version.tags,
        exec_command: version.exec_command,
        content: version.content,
    }
}

/// `name@version`, as the diff headers name a version.
pub open spec fn version_label_text(name: Seq<char>, version: i64) -> Seq<char> {
    name + seq!['@'] + signed_decimal(version as int)
}

/// Writes `name@version`.
pub fn version_label(name: &str, version: i64) -> (result: String)
    ensures
        result@ == version_label_text(name@, version),
{
    let mut text = name.to_owned();
    push_str(&mut text, "@");
    push_signed(&mut text, version);
    assert(text@ =~= version_label_text(name@, version)) by {
        reveal_strlit("@");
    }
    text
}

/// The unified diff that `similar` writes from the lines of `old` to the
/// lines of `new`, under the headers `--- old_header` and `+++ new_header`.
pub uninterp spec fn unified_diff_text(
    old: Seq<char>,
    new: Seq<char>,
    old_header: Seq<char>,
    new_header: Seq<char>,
) -> Seq<char>;

/// A line diff: `similar::TextDiff::from_lines(old, new)`, written as a
/// unified diff with `header(old_header, new_header)`.
///
/// Trusted: the text is named `unified_diff_text`, not stated.
#[verifier::external_body]
fn unified_diff(old: &str, new: &str, old_header: &str, new_header: &str) -> (result: String)
    ensures
        result@ == unified_diff_text(old@, new@, old_header@, new_header@),
{
    similar::TextDiff::from_lines(old, new).unified_diff().header(old_header, new_header).to_string()
}

/// The colour of a diff line, by what it starts with: the file headers in
/// bold, removed lines red, added lines green, hunk headers cyan.
pub open spec fn diff_line_style(content: Seq<char>) -> TextStyle {
    if starts_with(content, "--- "@) {
        TextStyle::BoldRed
    } else if starts_with(content, "+++ "@) {
        TextStyle::BoldGreen
    } else if starts_with(content, "@@"@) {
        TextStyle::Cyan
    } else if starts_with(content, "-"@) {
        TextStyle::Red
    } else if starts_with(content, "+"@) {
        TextStyle::Green
    } else {
        TextStyle::Plain
    }
}

/// A diff line coloured: its content (without the line break) between the
/// codes of its style, then its line break if it had one.
pub open spec fn colored_line(line: Seq<char>) -> Seq<char> {
    let has_break = line.len() > 0 && line.last() == '\n';
    let content = if has_break {
        line.drop_last()
    } else {
        line
    };
    let codes = style_codes(diff_line_style(content));
    codes.0 + content + codes.1 + if has_break {
        seq!['\n']
    } else {
        Seq::empty()
    }
}

/// The lines written one after the other.
pub open spec fn concat(lines: Seq<Seq<char>>) -> Seq<char>
    decreases lines.len(),
{
    if lines.len() == 0 {
        Seq::empty()
    } else {
        concat(lines.drop_last()) + lines.last()
    }
}

/// A diff as it is shown: unchanged without colours, else each line
/// coloured (see [`colored_line`]).
pub open spec fn colorized(diff: Seq<char>, colors_enabled: bool) -> Seq<char> {
    if colors_enabled {
        concat(lines_from(diff, 0).map_values(|line: Seq<char>| colored_line(line)))
    } else {
        diff
    }
}

fn starts_with_text(content: &Vec<char>, end: usize, prefix: &str) -> (result: bool)
    requires
        end <= content@.len(),
    ensures
        result == starts_with(content@.take(end as int), prefix@),
{
    let p = chars_of(prefix);
    if p.len() > end {
        return false;
    }
    let mut i: usize = 0;
    while i < p.len()
        invariant
            p@ == prefix@,
            p@.len() <= end <= content@.len(),
            i <= p@.len(),
            forall|k: int| 0 <= k < i ==> content@[k] == p@[k],
        decreases p@.len() - i,
    {
        if content[i] != p[i] {
            assert(content@.take(end as int).take(p@.len() as int)[i as int] != prefix@[i as int]);
            return false;
        }
        i = i + 1;
    }
    assert(content@.take(end as int).take(p@.len() as int) =~= prefix@);
    true
}

/// Colours one diff line (see [`colored_line`]).
fn color_line(line: &str) -> (result: String)
    ensures
        result@ == colored_line(line@),
{
    let chars = chars_of(line);
    let n = chars.len();
    let has_break = n > 0 && chars[n - 1] == '\n';
    let end = if has_break {
        n - 1
    } else {
        n
    };
    let ghost content = chars@.take(end as int);
    assert(content =~= if has_break { line@.drop_last() } else { line@ });
    let style = if starts_with_text(&chars, end, "--- ") {
        TextStyle::BoldRed
    } else if starts_with_text(&chars, end, "+++ ") {
        TextStyle::BoldGreen
    } else if starts_with_text(&chars, end, "@@") {
        TextStyle::Cyan
    } else if starts_with_text(&chars, end, "-") {
        TextStyle::Red
    } else if starts_with_text(&chars, end, "+") {
        TextStyle::Green
    } else {
        TextStyle::Plain
    };
    assert(style == diff_line_style(content));
    let codes = cell_style(style);
    let mut text = codes.open.clone();
    let body = string_from_chars(chars.as_slice(), 0, end);
    push_str(&mut text, body.as_str());
    push_str(&mut text, codes.close.as_str());
    if has_break {
        push_str(&mut text, "\n");
    }
    assert(text@ =~= colored_line(line@)) by {
        reveal_strlit("\n");
    }
    text
}

/// Colours a diff (see [`colorized`]).
pub fn colorize_diff(diff: &str, colors_enabled: bool) -> (result: String)
    ensures
        result@ == colorized(diff@, colors_enabled),
{
    if !colors_enabled {
        return diff.to_owned();
    }
    let lines = split_lines(diff);
    let ghost colored = lines_from(diff@, 0).map_values(|line: Seq<char>| colored_line(line));
    let mut text = String::new();
    let mut i: usize = 0;
    while i < lines.len()
        invariant
            i <= lines@.len(),
            text_views(lines@) == lines_from(diff@, 0),
            colored == lines_from(diff@, 0).map_values(|line: Seq<char>| colored_line(line)),
            text@ == concat(colored.take(i as int)),
        decreases lines@.len() - i,
    {
        let line = color_line(lines[i].as_str());
        assert(lines@[i as int]@ == lines_from(diff@, 0)[i as int]);
        push_str(&mut text, line.as_str());
        assert(colored.take(i + 1).drop_last() =~= colored.take(i as int));
        i = i + 1;
    }
    assert(colored.take(lines@.len() as int) =~= colored);
    text
}

/// The diff between two versions of the prompt `name`, given their
/// Markdown: a unified diff under `name@old` and `name@new`, coloured when
/// colours are on.
pub open spec fn version_diff_text(
    name: Seq<char>,
    old_markdown: Seq<char>,
    new_markdown: Seq<char>,
    old_version: i64,
    new_version: i64,
    colors_enabled: bool,
) -> Seq<char> {
    colorized(
        unified_diff_text(
            old_markdown,
            new_markdown,
            version_label_text(name, old_version),
            version_label_text(name, new_version),
        ),
        colors_enabled,
    )
}

/// Writes the diff between two versions (see [`version_diff_text`]).
pub fn version_diff(
    name: &str,
    old_markdown: &str,
    new_markdown: &str,
    old_version: i64,
    new_version: i64,
    colors_enabled: bool,
) -> (result: String)
    ensures
        result@ == version_diff_text(
            name@,
            old_markdown@,
            new_markdown@,
            old_version,
            new_version,
            colors_enabled,
        ),
{
    let old_label = version_label(name, old_version);
    let new_label = version_label(name, new_version);
    let diff = unified_diff(old_markdown, new_markdown, old_label.as_str(), new_label.as_str());
    colorize_diff(diff.as_str(), colors_enabled)
}

/// The headers of the version table.
pub open spec fn history_headers() -> Seq<Seq<char>> {
    seq!["VERSION"@, "CREATED AT"@, "NAME"@]
}

/// The column styles of the version table.
pub open spec fn history_styles() -> Seq<TextStyle> {
    seq![TextStyle::Dimmed, TextStyle::Dimmed, TextStyle::Cyan]
}

/// The rows of the version table, or the error of the first version whose
/// time has no local date.
pub open spec fn history_rows(versions: Seq<PromptVersionSummary>, offset_seconds: i32) -> Result<
    Seq<Seq<Seq<char>>>,
    Seq<char>,
>
    decreases versions.len(),
{
    if versions.len() == 0 {
        Ok(Seq::empty())
    } else {
        match history_rows(versions.drop_last(), offset_seconds) {
            Err(e) => Err(e),
            Ok(rows) => {
                let version = versions.last();
                match local_date_time(version.created_at, offset_seconds) {
                    None => Err(out_of_range_text(version.created_at)),
                    Some(fields) => Ok(
                        rows.push(
                            seq![
                                signed_decimal(version.version as int),
                                full_timestamp_text(fields),
                                version.name@,
                            ],
                        ),
                    ),
                }
            },
        }
    }
}

proof fn lemma_history_rows_error(versions: Seq<PromptVersionSummary>, j: int, offset_seconds: i32)
    requires
        0 <= j <= versions.len(),
        history_rows(versions.take(j), offset_seconds) is Err,
    ensures
        history_rows(versions, offset_seconds) == history_rows(versions.take(j), offset_seconds),
    decreases versions.len(),
{
    if j == versions.len() {
        assert(versions.take(j) =~= versions);
    } else {
        assert(versions.drop_last().take(j) =~= versions.take(j));
        lemma_history_rows_error(versions.drop_last(), j, offset_seconds);
    }
}

/// Each row of the version table describes its own version: row `k`
/// shows the number of `versions[k]`, the local time of its creation and
/// its name, whatever the order of the versions.
pub proof fn lemma_history_rows_describe_their_versions(versions: Seq<PromptVersionSummary>, offset_seconds: i32)
    ensures
        history_rows(versions, offset_seconds) matches Ok(rows) ==> {
            &&& rows.len() == versions.len()
            &&& forall|k: int|
                0 <= k < versions.len() ==> {
                    let row = #[trigger] rows[k];
                    &&& row.len() == 3
                    &&& row[0] == signed_decimal(versions[k].version as int)
                    &&& local_date_time(versions[k].created_at, offset_seconds) matches Some(fields)
                    &&& row[1] == full_timestamp_text(fields)
                    &&& row[2] == versions[k].name@
                }
        },
    decreases versions.len(),
{
    if versions.len() > 0 {
        lemma_history_rows_describe_their_versions(versions.drop_last(), offset_seconds);
        match history_rows(versions, offset_seconds) {
            Ok(rows) => {
                let before = history_rows(versions.drop_last(), offset_seconds)->Ok_0;
                assert forall|k: int| 0 <= k < versions.len() implies {
                    let row = #[trigger] rows[k];
                    &&& row.len() == 3
                    &&& row[0] == signed_decimal(versions[k].version as int)
                    &&& local_date_time(versions[k].created_at, offset_seconds) matches Some(fields)
                    &&& row[1] == full_timestamp_text(fields)
                    &&& row[2] == versions[k].name@
                } by {
                    if k < versions.len() - 1 {
                        assert(rows[k] == before[k]);
                        assert(versions[k] == versions.drop_last()[k]);
                    }
                }
            },
            Err(_) => {},
        }
    }
}

/// Lays out the versions of a prompt: nothing when there are none, else a
/// table of version numbers, local creation times and names.
pub fn history_table(
    versions: &[PromptVersionSummary],
    offset_seconds: i32,
    colors_enabled: bool,
) -> (result: Result<Option<String>, Error>)
    requires
        -93_599 <= offset_seconds <= 93_599,
    ensures
        versions@.len() == 0 ==> result matches Ok(None),
        versions@.len() > 0 ==> match history_rows(versions@, offset_seconds) {
            Ok(rows) => result matches Ok(Some(text)) && text@ == table(
                history_headers(),
                rows,
                history_styles().map_values(|s: TextStyle| style_codes(s)),
                colors_enabled,
            ),
            Err(e) => fails_with(result, e),
        },
        result is Ok <==> forall|k: int|
            0 <= k < versions@.len() ==> has_local_date(#[trigger] versions@[k].created_at, offset_seconds),
{
    if versions.len() == 0 {
        return Ok(None);
    }
    let headers: [&str; 3] = ["VERSION", "CREATED AT", "NAME"];
    let kinds: [TextStyle; 3] = [TextStyle::Dimmed, TextStyle::Dimmed, TextStyle::Cyan];
    assert(kinds@ =~= history_styles());
    let styles = cell_styles(&kinds);
    assert(styles@.len() == style_views(styles@).len());
    let mut rows: Vec<Vec<String>> = Vec::new();
    let mut i: usize = 0;
    assert(versions@.take(0) =~= Seq::<PromptVersionSummary>::empty());
    assert(row_views(rows@) =~= Seq::<Seq<Seq<char>>>::empty());
    while i < versions.len()
        invariant
            i <= versions@.len(),
            -93_599 <= offset_seconds <= 93_599,
            rows@.len() == i,
            forall|r: int| 0 <= r < i ==> (#[trigger] rows@[r])@.len() == 3,
            history_rows(versions@.take(i as int), offset_seconds) == Ok::<Seq<Seq<Seq<char>>>, Seq<char>>(
                row_views(rows@),
            ),
            forall|k: int| 0 <= k < i ==> has_local_date(#[trigger] versions@[k].created_at, offset_seconds),
        decreases versions@.len() - i,
    {
        let version = &versions[i];
        assert(versions@.take(i + 1).drop_last() =~= versions@.take(i as int));
        assert(versions@.take(i + 1).last() == *version);
        let created = match format_local_timestamp(version.created_at, offset_seconds) {
            Ok(text) => text,
            Err(e) => {
                proof {
                    lemma_history_rows_error(versions@, i + 1, offset_seconds);
                    assert(!has_local_date(versions@[i as int].created_at, offset_seconds));
                }
                return Err(e);
            },
        };
        let mut number = String::new();
        push_signed(&mut number, version.version);
        let mut row: Vec<String> = Vec::new();
        row.push(number);
        row.push(created);
        row.push(version.name.clone());
        proof {
            assert(local_date_time(version.created_at, offset_seconds) is Some);
            let fields = local_date_time(version.created_at, offset_seconds)->0;
            assert(text_views(row@) =~= seq![
                signed_decimal(version.version as int),
                full_timestamp_text(fields),
                version.name@,
            ]);
        }
        let ghost before = rows@;
        rows.push(row);
        assert(rows@ == before.push(row));
        assert(row_views(rows@) =~= row_views(before).push(text_views(row@)));
        i = i + 1;
    }
    assert(versions@.take(versions@.len() as int) =~= versions@);
    assert(header_views(headers@) =~= history_headers());
    Ok(Some(format_table(&headers, rows.as_slice(), styles.as_slice(), colors_enabled)))
}

} // verus!
