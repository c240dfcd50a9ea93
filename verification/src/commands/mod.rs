//! What the commands compute: tables, list and search output, prompt
//! rendering and the update decision. Reading, writing and the database are
//! the program's work around them.
pub mod exec;
pub mod get;
pub mod history;
pub mod list;
pub mod recent;
pub mod search;
pub mod update;

use vstd::prelude::*;

use crate::db::{Prompt, PromptInput};
use crate::error::{fails_with, message, Error};
use crate::prompt::markdown::PromptDocument;
use crate::prompt::{shell_words_split, split_shell_words, text_views};
use crate::text::{
    char_count, chars_of, join, join_texts, push_char, push_repeated, push_signed, push_str,
    push_zero_padded, repeat_char, signed_decimal, trim, trim_end, trim_end_text, trim_text,
    zero_padded,
};

verus! {

/// How a table column is coloured: text written before and after a cell.
#[derive(Debug)]
pub struct CellStyle {
    pub open: String,
    pub close: String,
}

impl View for CellStyle {
    type V = (Seq<char>, Seq<char>);

    open spec fn view(&self) -> (Seq<char>, Seq<char>) {
        (self.open@, self.close@)
    }
}

/// The codes of each style.
pub open spec fn style_views(styles: Seq<CellStyle>) -> Seq<(Seq<char>, Seq<char>)> {
    styles.map_values(|s: CellStyle| s@)
}

/// `text` in `style` when colours are on.
pub open spec fn styled(text: Seq<char>, style: (Seq<char>, Seq<char>), colors_enabled: bool) -> Seq<char> {
    if colors_enabled {
        style.0 + text + style.1
    } else {
        text
    }
}

/// Writes `text` in `style` when colours are on.
pub fn style_text(text: &str, style: &CellStyle, colors_enabled: bool) -> (result: String)
    ensures
        result@ == styled(text@, style@, colors_enabled),
{
    if colors_enabled {
        let mut out = style.open.clone();
        push_str(&mut out, text);
        push_str(&mut out, style.close.as_str());
        out
    } else {
        text.to_owned()
    }
}

/// Tabs and line breaks replaced by spaces, so that a value stays on one
/// line and in one column.
pub open spec fn inline_text(value: Seq<char>) -> Seq<char> {
    value.map_values(|c: char| if c == '\t' || c == '\n' || c == '\r' { ' ' } else { c })
}

/// Replaces tabs and line breaks by spaces.
pub fn clean_inline(value: &str) -> (result: String)
    ensures
        result@ == inline_text(value@),
{
    let chars = chars_of(value);
    let mut out = String::new();
    let mut i: usize = 0;
    while i < chars.len()
        invariant
            i <= chars@.len(),
            chars@ == value@,
            out@ == inline_text(value@).take(i as int),
        decreases chars@.len() - i,
    {
        let c = chars[i];
        if c == '\t' || c == '\n' || c == '\r' {
            push_char(&mut out, ' ');
        } else {
            push_char(&mut out, c);
        }
        assert(inline_text(value@).take(i + 1) =~= inline_text(value@).take(i as int).push(
            inline_text(value@)[i as int],
        ));
        i = i + 1;
    }
    assert(inline_text(value@).take(chars@.len() as int) =~= inline_text(value@));
    out
}

/// Width of column `c`: its widest cell, header included, in characters.
pub open spec fn column_width(headers: Seq<Seq<char>>, rows: Seq<Seq<Seq<char>>>, c: int) -> nat
    decreases rows.len(),
{
    if rows.len() == 0 {
        headers[c].len()
    } else {
        let rest = column_width(headers, rows.drop_last(), c);
        let cell = rows.last()[c].len();
        if rest >= cell {
            rest
        } else {
            cell
        }
    }
}

pub proof fn lemma_column_width(headers: Seq<Seq<char>>, rows: Seq<Seq<Seq<char>>>, c: int)
    ensures
        column_width(headers, rows, c) >= headers[c].len(),
        forall|r: int| 0 <= r < rows.len() ==> column_width(headers, rows, c) >= (#[trigger] rows[r])[c].len(),
    decreases rows.len(),
{
    if rows.len() > 0 {
        lemma_column_width(headers, rows.drop_last(), c);
        assert forall|r: int| 0 <= r < rows.len() implies column_width(headers, rows, c) >= (#[trigger] rows[r])[c].len() by {
            if r < rows.len() - 1 {
                assert(rows.drop_last()[r] == rows[r]);
            }
        }
    }
}

/// The column widths of a table.
pub open spec fn column_widths(headers: Seq<Seq<char>>, rows: Seq<Seq<Seq<char>>>) -> Seq<nat> {
    Seq::new(headers.len(), |c: int| column_width(headers, rows, c))
}

/// A row of a table: each cell (coloured by its column's style) padded to
/// its column's width, cells separated by two spaces, trailing white space
/// removed.
pub open spec fn table_row(
    cells: Seq<Seq<char>>,
    widths: Seq<nat>,
    styles: Seq<(Seq<char>, Seq<char>)>,
    colors_enabled: bool,
) -> Seq<char> {
    trim_end(
        join(
            Seq::new(
                cells.len(),
                |c: int| styled(cells[c], styles[c], colors_enabled) + repeat_char(
                    ' ',
                    (widths[c] - cells[c].len()) as nat,
                ),
            ),
            "  "@,
        ),
    )
}

/// The rule under the header: one `─` per column width, separated by two
/// spaces.
pub open spec fn rule_line(widths: Seq<nat>) -> Seq<char> {
    join(Seq::new(widths.len(), |c: int| repeat_char('─', widths[c])), "  "@)
}

/// A table: header, rule, then one line per row, each ending with a line
/// break. Only the rows are coloured.
pub open spec fn table(
    headers: Seq<Seq<char>>,
    rows: Seq<Seq<Seq<char>>>,
    styles: Seq<(Seq<char>, Seq<char>)>,
    colors_enabled: bool,
) -> Seq<char> {
    let widths = column_widths(headers, rows);
    join(
        seq![table_row(headers, widths, styles, false), rule_line(widths)] + rows.map_values(
            |row: Seq<Seq<char>>| table_row(row, widths, styles, colors_enabled),
        ),
        "\n"@,
    ) + "\n"@
}

/// Views of table cells.
pub open spec fn row_views(rows: Seq<Vec<String>>) -> Seq<Seq<Seq<char>>> {
    rows.map_values(|row: Vec<String>| text_views(row@))
}

/// Views of header texts.
pub open spec fn header_views(headers: Seq<&str>) -> Seq<Seq<char>> {
    headers.map_values(|h: &str| h@)
}

/// Widths of the columns of a table.
fn table_widths(headers: &[&str], rows: &[Vec<String>]) -> (result: Vec<usize>)
    requires
        forall|r: int| 0 <= r < rows@.len() ==> (#[trigger] rows@[r])@.len() == headers@.len(),
    ensures
        result@.len() == headers@.len(),
        forall|c: int| 0 <= c < headers@.len() ==> result@[c] == column_width(header_views(headers@), row_views(rows@), c),
{
    let ghost hv = header_views(headers@);
    let ghost rv = row_views(rows@);
    let mut widths: Vec<usize> = Vec::new();
    let mut c: usize = 0;
    while c < headers.len()
        invariant
            c <= headers@.len(),
            hv == header_views(headers@),
            rv == row_views(rows@),
            forall|r: int| 0 <= r < rows@.len() ==> (#[trigger] rows@[r])@.len() == headers@.len(),
            widths@.len() == c,
            forall|k: int| 0 <= k < c ==> widths@[k] == column_width(hv, rv, k),
        decreases headers@.len() - c,
    {
        let mut width = char_count(headers[c]);
        let mut r: usize = 0;
        assert(rv.take(0) =~= Seq::<Seq<Seq<char>>>::empty());
        while r < rows.len()
            invariant
                r <= rows@.len(),
                c < headers@.len(),
                hv == header_views(headers@),
                rv == row_views(rows@),
                forall|q: int| 0 <= q < rows@.len() ==> (#[trigger] rows@[q])@.len() == headers@.len(),
                width == column_width(hv, rv.take(r as int), c as int),
            decreases rows@.len() - r,
        {
            assert(rv.take(r + 1).drop_last() =~= rv.take(r as int));
            assert(rv.take(r + 1).last() == rv[r as int]);
            assert(rv[r as int][c as int] == rows@[r as int]@[c as int]@);
            let cell = char_count(rows[r][c].as_str());
            if cell > width {
                width = cell;
            }
            r = r + 1;
        }
        assert(rv.take(rows@.len() as int) =~= rv);
        widths.push(width);
        c = c + 1;
    }
    widths
}

/// Writes one table row (see [`table_row`]).
fn format_table_row(
    cells: &[String],
    widths: &[usize],
    styles: &[CellStyle],
    colors_enabled: bool,
) -> (result: String)
    requires
        cells@.len() == widths@.len(),
        cells@.len() <= styles@.len(),
        forall|c: int| 0 <= c < cells@.len() ==> (#[trigger] cells@[c])@.len() <= widths@[c],
    ensures
        result@ == table_row(text_views(cells@), widths@.map_values(|w: usize| w as nat), style_views(styles@), colors_enabled),
{
    let ghost cv = text_views(cells@);
    let ghost wv = widths@.map_values(|w: usize| w as nat);
    let ghost parts = Seq::new(
        cv.len(),
        |c: int| styled(cv[c], styles@[c]@, colors_enabled) + repeat_char(' ', (wv[c] - cv[c].len()) as nat),
    );
    let mut line = String::new();
    let mut c: usize = 0;
    while c < cells.len()
        invariant
            c <= cells@.len() == widths@.len(),
            cells@.len() <= styles@.len(),
            forall|k: int| 0 <= k < cells@.len() ==> (#[trigger] cells@[k])@.len() <= widths@[k],
            cv == text_views(cells@),
            wv == widths@.map_values(|w: usize| w as nat),
            parts.len() == cv.len(),
            forall|k: int| 0 <= k < cv.len() ==> #[trigger] parts[k] == styled(cv[k], styles@[k]@, colors_enabled) + repeat_char(' ', (wv[k] - cv[k].len()) as nat),
            line@ == join(parts.take(c as int), "  "@),
        decreases cells@.len() - c,
    {
        proof {
            assert(parts.take(c + 1) =~= parts.take(c as int).push(parts[c as int]));
            crate::text::lemma_join_push(parts.take(c as int), "  "@, parts[c as int]);
        }
        if c > 0 {
            push_str(&mut line, "  ");
        }
        let ghost before = line@;
        let cell = style_text(cells[c].as_str(), &styles[c], colors_enabled);
        push_str(&mut line, cell.as_str());
        let pad = widths[c] - char_count(cells[c].as_str());
        push_repeated(&mut line, ' ', pad);
        assert(line@ =~= before + parts[c as int]);
        c = c + 1;
    }
    assert(parts.take(cells@.len() as int) =~= parts);
    assert forall|k: int| 0 <= k < cells@.len() implies #[trigger] style_views(styles@)[k] == styles@[k]@ by {}
    assert(parts =~= Seq::new(
        text_views(cells@).len(),
        |k: int| styled(text_views(cells@)[k], style_views(styles@)[k], colors_enabled) + repeat_char(' ', (wv[k] - text_views(cells@)[k].len()) as nat),
    ));
    trim_end_text(line.as_str())
}

/// Lays out a table (see [`table`]): every row needs one cell per header,
/// and every column a style.
pub fn format_table(
    headers: &[&str],
    rows: &[Vec<String>],
    styles: &[CellStyle],
    colors_enabled: bool,
) -> (result: String)
    requires
        forall|r: int| 0 <= r < rows@.len() ==> (#[trigger] rows@[r])@.len() == headers@.len(),
        headers@.len() <= styles@.len(),
    ensures
        result@ == table(header_views(headers@), row_views(rows@), style_views(styles@), colors_enabled),
{
    let ghost hv = header_views(headers@);
    let ghost rv = row_views(rows@);
    let widths = table_widths(headers, rows);
    let ghost wv = widths@.map_values(|w: usize| w as nat);
    proof {
        assert(wv =~= column_widths(hv, rv));
    }
    let mut header_cells: Vec<String> = Vec::new();
    let mut c: usize = 0;
    while c < headers.len()
        invariant
            c <= headers@.len(),
            hv == header_views(headers@),
            header_cells@.len() == c,
            text_views(header_cells@) == hv.take(c as int),
        decreases headers@.len() - c,
    {
        let ghost before = header_cells@;
        let cell = headers[c].to_owned();
        header_cells.push(cell);
        assert(header_cells@ == before.push(cell));
        assert forall|i: int| 0 <= i < c + 1 implies text_views(header_cells@)[i] == hv.take(c + 1)[i] by {
            if i < c {
                assert(header_cells@[i] == before[i]);
                assert(text_views(before)[i] == hv.take(c as int)[i]);
            }
        }
        assert(text_views(header_cells@) =~= hv.take(c + 1));
        c = c + 1;
    }
    assert(hv.take(headers@.len() as int) =~= hv);
    proof {
        assert forall|k: int| 0 <= k < header_cells@.len() implies (#[trigger] header_cells@[k])@.len() <= widths@[k] by {
            lemma_column_width(hv, rv, k);
            assert(header_cells@[k]@ == text_views(header_cells@)[k]);
        }
    }
    let mut lines: Vec<String> = Vec::new();
    lines.push(format_table_row(header_cells.as_slice(), widths.as_slice(), styles, false));
    let mut rule_parts: Vec<String> = Vec::new();
    let mut k: usize = 0;
    while k < widths.len()
        invariant
            k <= widths@.len(),
            wv == widths@.map_values(|w: usize| w as nat),
            rule_parts@.len() == k,
            rule_parts@.map_values(|t: String| t@) == Seq::new(k as nat, |i: int| repeat_char('─', wv[i])),
        decreases widths@.len() - k,
    {
        let mut part = String::new();
        push_repeated(&mut part, '─', widths[k]);
        let ghost before = rule_parts@;
        rule_parts.push(part);
        assert(rule_parts@ == before.push(part));
        assert forall|i: int| 0 <= i < k + 1 implies rule_parts@.map_values(|t: String| t@)[i] == repeat_char('─', wv[i]) by {
            if i < k {
                assert(rule_parts@[i] == before[i]);
                assert(before.map_values(|t: String| t@)[i] == repeat_char('─', wv[i]));
            }
        }
        assert(rule_parts@.map_values(|t: String| t@) =~= Seq::new((k + 1) as nat, |i: int| repeat_char('─', wv[i])));
        k = k + 1;
    }
    lines.push(join_texts(&rule_parts, "  "));
    let ghost row_lines = rv.map_values(|row: Seq<Seq<char>>| table_row(row, wv, style_views(styles@), colors_enabled));
    let mut r: usize = 0;
    while r < rows.len()
        invariant
            r <= rows@.len(),
            rv == row_views(rows@),
            hv == header_views(headers@),
            wv == widths@.map_values(|w: usize| w as nat),
            wv == column_widths(hv, rv),
            widths@.len() == headers@.len(),
            headers@.len() <= styles@.len(),
            forall|q: int| 0 <= q < rows@.len() ==> (#[trigger] rows@[q])@.len() == headers@.len(),
            forall|q: int| 0 <= q < headers@.len() ==> widths@[q] == column_width(hv, rv, q),
            row_lines == rv.map_values(|row: Seq<Seq<char>>| table_row(row, wv, style_views(styles@), colors_enabled)),
            lines@.len() == 2 + r,
            lines@[0]@ == table_row(hv, wv, style_views(styles@), false),
            lines@[1]@ == rule_line(wv),
            forall|q: int| 0 <= q < r ==> (#[trigger] lines@[q + 2])@ == row_lines[q],
        decreases rows@.len() - r,
    {
        proof {
            assert forall|q: int| 0 <= q < rows@[r as int]@.len() implies (#[trigger] rows@[r as int]@[q])@.len() <= widths@[q] by {
                lemma_column_width(hv, rv, q);
                assert(rv[r as int][q] == rows@[r as int]@[q]@);
            }
        }
        let line = format_table_row(rows[r].as_slice(), widths.as_slice(), styles, colors_enabled);
        assert(text_views(rows@[r as int]@) == rv[r as int]);
        lines.push(line);
        r = r + 1;
    }
    proof {
        let expected = seq![table_row(hv, wv, style_views(styles@), false), rule_line(wv)] + row_lines;
        assert(rule_line(wv) == join(Seq::new(widths@.len() as nat, |i: int| repeat_char('─', wv[i])), "  "@));
        assert forall|i: int| 0 <= i < expected.len() implies lines@.map_values(|t: String| t@)[i] == expected[i] by {
            if i >= 2 {
                assert(lines@[(i - 2) + 2]@ == row_lines[i - 2]);
            }
        }
        assert(lines@.map_values(|t: String| t@) =~= expected);
    }
    let mut result = join_texts(&lines, "\n");
    push_str(&mut result, "\n");
    result
}

/// The styles that tables use.
#[derive(Clone, Copy, Debug, PartialEq, Eq)]
pub enum TextStyle {
    Plain,
    Dimmed,
    Cyan,
    Red,
    Green,
    BoldRed,
    BoldGreen,
}

/// The ANSI escape codes written before and after text in `style`.
pub open spec fn style_codes(style: TextStyle) -> (Seq<char>, Seq<char>) {
    match style {
        TextStyle::Plain => (Seq::empty(), Seq::empty()),
        TextStyle::Dimmed => (seq!['\x1b', '[', '2', 'm'], seq!['\x1b', '[', '0', 'm']),
        TextStyle::Cyan => (seq!['\x1b', '[', '3', '6', 'm'], seq!['\x1b', '[', '0', 'm']),
        TextStyle::Red => (seq!['\x1b', '[', '3', '1', 'm'], seq!['\x1b', '[', '0', 'm']),
        TextStyle::Green => (seq!['\x1b', '[', '3', '2', 'm'], seq!['\x1b', '[', '0', 'm']),
        TextStyle::BoldRed => (
            seq!['\x1b', '[', '1', 'm', '\x1b', '[', '3', '1', 'm'],
            seq!['\x1b', '[', '0', 'm'],
        ),
        TextStyle::BoldGreen => (
            seq!['\x1b', '[', '1', 'm', '\x1b', '[', '3', '2', 'm'],
            seq!['\x1b', '[', '0', 'm'],
        ),
    }
}

/// The escape codes of a style, as `anstyle` renders them: `Style::render`
/// before the text and `Style::render_reset` after it.
///
/// Trusted: `anstyle` writes `ESC[1m` for bold and `ESC[2m` for dimmed, then
/// `ESC[31m`, `ESC[32m` or `ESC[36m` for red, green or cyan on the default
/// background; `ESC[0m` as the reset of any style but the plain one, and
/// nothing for the plain style.
#[verifier::external_body]
pub(crate) fn cell_style(style: TextStyle) -> (result: CellStyle)
    ensures
        result@ == style_codes(style),
{
    let style = match style {
        TextStyle::Plain => anstyle::Style::new(),
        TextStyle::Dimmed => anstyle::Style::new().dimmed(),
        TextStyle::Cyan => anstyle::AnsiColor::Cyan.on_default(),
        TextStyle::Red => anstyle::AnsiColor::Red.on_default(),
        TextStyle::Green => anstyle::AnsiColor::Green.on_default(),
        TextStyle::BoldRed => anstyle::AnsiColor::Red.on_default().bold(),
        TextStyle::BoldGreen => anstyle::AnsiColor::Green.on_default().bold(),
    };
    CellStyle { open: format!("{}", style.render()), close: format!("{}", style.render_reset()) }
}

/// The cell styles of a table's columns.
pub fn cell_styles(styles: &[TextStyle]) -> (result: Vec<CellStyle>)
    ensures
        style_views(result@) == styles@.map_values(|s: TextStyle| style_codes(s)),
{
    let mut result: Vec<CellStyle> = Vec::new();
    let mut c: usize = 0;
    while c < styles.len()
        invariant
            c <= styles@.len(),
            style_views(result@) == styles@.take(c as int).map_values(|s: TextStyle| style_codes(s)),
        decreases styles@.len() - c,
    {
        let ghost before = result@;
        let style = cell_style(styles[c]);
        result.push(style);
        assert(result@ == before.push(style));
        assert(style_views(result@) =~= style_views(before).push(style@));
        assert(styles@.take(c + 1).map_values(|s: TextStyle| style_codes(s)) =~= styles@.take(
            c as int,
        ).map_values(|s: TextStyle| style_codes(s)).push(style_codes(styles@[c as int])));
        c = c + 1;
    }
    assert(styles@.take(styles@.len() as int) =~= styles@);
    result
}

/// The local date and time `(year, month, day, hour, minute)` of a Unix
/// timestamp at a UTC offset given in seconds, as the `time` crate computes
/// them; `None` where the timestamp or the local date lies outside the
/// crate's range of dates.
pub uninterp spec fn local_date_time(timestamp: i64, offset_seconds: i32) -> Option<(i32, u8, u8, u8, u8)>;

/// The Unix timestamp of -9999-01-01 00:00:00 UTC, the first moment of the
/// `time` crate's range of dates.
pub open spec fn earliest_timestamp() -> int {
    -377_705_116_800
}

/// The Unix timestamp of 9999-12-31 23:59:59 UTC, the last second of the
/// `time` crate's range of dates.
pub open spec fn latest_timestamp() -> int {
    253_402_300_799
}

/// Whether a timestamp has a local date at a UTC offset: both the moment
/// and its local wall-clock time fall within years -9999 to 9999.
pub open spec fn has_local_date(timestamp: i64, offset_seconds: i32) -> bool {
    &&& earliest_timestamp() <= timestamp <= latest_timestamp()
    &&& earliest_timestamp() <= timestamp + offset_seconds <= latest_timestamp()
}

/// The local date and time of a timestamp: `OffsetDateTime::from_unix_timestamp`
/// then `checked_to_offset` to `UtcOffset::from_whole_seconds(offset_seconds)`,
/// read with `year`, `month`, `day`, `hour` and `minute`.
///
/// Trusted: the fields are named `local_date_time`, not stated; of them only
/// the ranges that the `time` documentation gives are claimed. A result is
/// claimed exactly when `from_unix_timestamp` accepts the timestamp (from
/// the first second of year -9999 to the last of year 9999, UTC) and
/// `checked_to_offset` finds the shifted wall-clock year within -9999 to
/// 9999 (the crate is built without `large-dates`).
#[verifier::external_body]
fn local_fields(timestamp: i64, offset_seconds: i32) -> (result: Option<(i32, u8, u8, u8, u8)>)
    requires
        -93_599 <= offset_seconds <= 93_599,
    ensures
        result == local_date_time(timestamp, offset_seconds),
        result is Some <==> has_local_date(timestamp, offset_seconds),
        result matches Some(f) ==> 1 <= f.1 <= 12 && 1 <= f.2 <= 31 && f.3 < 24 && f.4 < 60,
{
    let offset = time::UtcOffset::from_whole_seconds(offset_seconds).ok()?;
    let local = time::OffsetDateTime::from_unix_timestamp(timestamp).ok()?.checked_to_offset(offset)?;
    Some((local.year(), local.month() as u8, local.day(), local.hour(), local.minute()))
}

/// A year as `{:04}` writes it: four digits at least, the sign counted.
pub open spec fn year_text(year: int) -> Seq<char> {
    if year < 0 {
        seq!['-'] + zero_padded((-year) as nat, 3)
    } else {
        zero_padded(year as nat, 4)
    }
}

/// `YYYY-MM-DD HH:MM`.
pub open spec fn full_timestamp_text(fields: (i32, u8, u8, u8, u8)) -> Seq<char> {
    year_text(fields.0 as int) + seq!['-'] + zero_padded(fields.1 as nat, 2) + seq!['-'] + zero_padded(
        fields.2 as nat,
        2,
    ) + seq![' '] + zero_padded(fields.3 as nat, 2) + seq![':'] + zero_padded(fields.4 as nat, 2)
}

/// Writes local date and time fields as `YYYY-MM-DD HH:MM`.
pub fn format_date_time(fields: (i32, u8, u8, u8, u8)) -> (result: String)
    ensures
        result@ == full_timestamp_text(fields),
{
    let mut text = String::new();
    let (year, month, day, hour, minute) = fields;
    if year < 0 {
        push_char(&mut text, '-');
        push_zero_padded(&mut text, (-(year as i64)) as u64, 3);
    } else {
        push_zero_padded(&mut text, year as u64, 4);
    }
    push_char(&mut text, '-');
    push_zero_padded(&mut text, month as u64, 2);
    push_char(&mut text, '-');
    push_zero_padded(&mut text, day as u64, 2);
    push_char(&mut text, ' ');
    push_zero_padded(&mut text, hour as u64, 2);
    push_char(&mut text, ':');
    push_zero_padded(&mut text, minute as u64, 2);
    assert(text@ =~= full_timestamp_text(fields));
    text
}

/// The error for a timestamp that has no local date.
pub open spec fn out_of_range_text(timestamp: i64) -> Seq<char> {
    "timestamp is out of range: "@ + signed_decimal(timestamp as int)
}

pub fn out_of_range(timestamp: i64) -> (result: Error)
    ensures
        fails_with(Err::<(), Error>(result), out_of_range_text(timestamp)),
{
    let mut text = "timestamp is out of range: ".to_owned();
    push_signed(&mut text, timestamp);
    Error::Message(text)
}

/// A timestamp as local `YYYY-MM-DD HH:MM`.
pub fn format_local_timestamp(timestamp: i64, offset_seconds: i32) -> (result: Result<String, Error>)
    requires
        -93_599 <= offset_seconds <= 93_599,
    ensures
        match local_date_time(timestamp, offset_seconds) {
            Some(fields) => result matches Ok(text) && text@ == full_timestamp_text(fields),
            None => fails_with(result, out_of_range_text(timestamp)),
        },
        result is Ok <==> has_local_date(timestamp, offset_seconds),
{
    match local_fields(timestamp, offset_seconds) {
        Some(fields) => Ok(format_date_time(fields)),
        None => Err(out_of_range(timestamp)),
    }
}

/// The pager to use when the environment names none.
pub open spec fn default_pager() -> Seq<char> {
    "less -FRX"@
}

/// The pager command line: the configured one unless it is missing or
/// blank, then `less -FRX`.
pub open spec fn pager_line(configured: Option<Seq<char>>) -> Seq<char> {
    match configured {
        Some(value) if trim(value).len() > 0 => value,
        _ => default_pager(),
    }
}

/// The view of an optional text.
pub open spec fn text_option(value: Option<&str>) -> Option<Seq<char>> {
    match value {
        Some(v) => Some(v@),
        None => None,
    }
}

/// The pager program and its arguments, given the `PAGER` variable.
pub fn pager_command(configured: Option<&str>) -> (result: Result<Vec<String>, Error>)
    ensures
        shell_words_split(pager_line(text_option(configured))) is None ==> fails_with(
            result,
            "invalid pager command: missing closing quote"@,
        ),
        shell_words_split(pager_line(text_option(configured))) matches Some(w) && w.len() == 0
            ==> fails_with(result, "pager command must not be empty"@),
        shell_words_split(pager_line(text_option(configured))) matches Some(w) && w.len() > 0
            ==> (result matches Ok(words) && text_views(words@) == shell_words_split(
            pager_line(text_option(configured)),
        )->0),
{
    let line: &str = match configured {
        Some(value) => {
            let trimmed = trim_text(value);
            if trimmed.as_str().is_empty() {
                "less -FRX"
            } else {
                value
            }
        },
        None => "less -FRX",
    };
    match split_shell_words(line) {
        None => Err(message("invalid pager command: missing closing quote")),
        Some(words) => {
            if words.len() == 0 {
                Err(message("pager command must not be empty"))
            } else {
                Ok(words)
            }
        },
    }
}

/// The record to store for a document.
pub fn document_to_input(document: PromptDocument) -> (result: PromptInput)
    ensures
        result.name == document.name,
        result.description == document.description,
        result.exec_command == document.exec_command,
        result.content == document.content,
        result.tags == document.tags,
{
    PromptInput {
        name: document.name,
        description: document.description,
        exec_command: document.exec_command,
        content: document.content,
        tags: document.tags,
    }
}

/// The document for a stored prompt.
pub fn prompt_to_document(prompt: Prompt) -> (result: PromptDocument)
    ensures
        result.name == prompt.name,
        result.description == prompt.description,
        result.exec_command == prompt.exec_command,
        result.content == prompt.content,
        result.tags == prompt.tags,
{
    PromptDocument {
        name: prompt.name,
        description: prompt.description,
        tags: prompt.tags,
        exec_command: prompt.exec_command,
        content: prompt.content,
    }
}

/// The file that `export --all` writes a prompt to, inside the target
/// directory: the name with `.md` added (a grouped name lands in a
/// subdirectory).
pub fn export_file_name(name: &str) -> (result: String)
    ensures
        result@ == name@ + ".md"@,
{
    let mut file = name.to_owned();
    push_str(&mut file, ".md");
    file
}

} // verus!
