//! `list`: the order of the listed prompts and the three ways of showing
//! them (names only, the default table, the full table).
use vstd::prelude::*;

use crate::cli::{ListArgs, ListSort};
use crate::db::PromptListEntry;
use crate::error::{fails_with, Error};
use crate::prompt::{is_valid_name, validate_group};
use crate::text::{
    join, join_texts, trim, trim_text, lemma_text_order, order_texts, push_char, push_signed, push_str,
    push_zero_padded, signed_decimal, text_order, zero_padded,
};

use super::{
    cell_styles, clean_inline, format_date_time, format_table, full_timestamp_text, header_views,
    has_local_date, inline_text, local_date_time, local_fields, out_of_range, out_of_range_text, row_views,
    style_codes, style_views, table, TextStyle,
};

verus! {

broadcast use vstd::seq_lib::group_to_multiset_ensures;

/// Three-way order of two integers.
pub open spec fn int_order(a: int, b: int) -> int {
    if a < b {
        -1
    } else if a > b {
        1
    } else {
        0
    }
}

/// Three-way order of two last-use times, a prompt never used coming
/// before any use.
pub open spec fn last_use_order(a: Option<i64>, b: Option<i64>) -> int {
    match (a, b) {
        (None, None) => 0,
        (None, Some(_)) => -1,
        (Some(_), None) => 1,
        (Some(x), Some(y)) => int_order(x as int, y as int),
    }
}

/// The order that `sort` asks for: by name ascending, by last update
/// descending, or by last use descending (never used last).
pub open spec fn primary_order(a: PromptListEntry, b: PromptListEntry, sort: ListSort) -> int {
    match sort {
        ListSort::Name => text_order(a.name@, b.name@),
        ListSort::Updated => int_order(b.updated_at as int, a.updated_at as int),
        ListSort::Used => last_use_order(b.last_used_at, a.last_used_at),
    }
}

/// The order of a listing: the primary order, turned round when
/// `reverse`, and ties broken by name ascending.
pub open spec fn list_order(
    a: PromptListEntry,
    b: PromptListEntry,
    sort: ListSort,
    reverse: bool,
) -> int {
    let primary = if reverse {
        -primary_order(a, b, sort)
    } else {
        primary_order(a, b, sort)
    };
    if primary != 0 {
        primary
    } else {
        text_order(a.name@, b.name@)
    }
}

/// Every entry comes no later than the ones after it.
pub open spec fn in_list_order(entries: Seq<PromptListEntry>, sort: ListSort, reverse: bool) -> bool {
    forall|i: int, j: int|
        0 <= i < j < entries.len() ==> list_order(#[trigger] entries[i], #[trigger] entries[j], sort, reverse)
            <= 0
}

/// Whether an entry ranks level with `x`.
pub open spec fn level_with(x: PromptListEntry, sort: ListSort, reverse: bool) -> spec_fn(
    PromptListEntry,
) -> bool {
    |e: PromptListEntry| list_order(e, x, sort, reverse) == 0
}

/// The entries of `entries` that rank level with `x`, in their order.
pub open spec fn level_entries(
    entries: Seq<PromptListEntry>,
    x: PromptListEntry,
    sort: ListSort,
    reverse: bool,
) -> Seq<PromptListEntry> {
    entries.filter(level_with(x, sort, reverse))
}

proof fn lemma_primary_order(a: PromptListEntry, b: PromptListEntry, c: PromptListEntry, sort: ListSort)
    ensures
        primary_order(a, b, sort) == -primary_order(b, a, sort),
        -1 <= primary_order(a, b, sort) <= 1,
        primary_order(a, b, sort) <= 0 && primary_order(b, c, sort) <= 0 ==> primary_order(a, c, sort) <= 0,
        primary_order(a, b, sort) < 0 && primary_order(b, c, sort) <= 0 ==> primary_order(a, c, sort) < 0,
        primary_order(a, b, sort) <= 0 && primary_order(b, c, sort) < 0 ==> primary_order(a, c, sort) < 0,
{
    lemma_text_order(a.name@, b.name@, c.name@);
}

/// The listing order is antisymmetric and transitive, ranks an entry level
/// with itself, and ranks level only entries of the same name.
pub proof fn lemma_list_order(
    a: PromptListEntry,
    b: PromptListEntry,
    c: PromptListEntry,
    sort: ListSort,
    reverse: bool,
)
    ensures
        list_order(a, b, sort, reverse) == -list_order(b, a, sort, reverse),
        list_order(a, a, sort, reverse) == 0,
        list_order(a, b, sort, reverse) == 0 ==> a.name@ == b.name@,
        list_order(a, b, sort, reverse) <= 0 && list_order(b, c, sort, reverse) <= 0 ==> list_order(
            a,
            c,
            sort,
            reverse,
        ) <= 0,
{
    lemma_primary_order(a, b, c, sort);
    lemma_primary_order(b, a, c, sort);
    lemma_primary_order(a, a, a, sort);
    lemma_text_order(a.name@, b.name@, c.name@);
    lemma_text_order(a.name@, a.name@, a.name@);
}

/// Compares two entries (see [`list_order`]).
fn order_entries(
    a: &PromptListEntry,
    b: &PromptListEntry,
    sort: ListSort,
    reverse: bool,
) -> (result: i8)
    ensures
        result == list_order(*a, *b, sort, reverse),
{
    let primary: i8 = match sort {
        ListSort::Name => order_texts(a.name.as_str(), b.name.as_str()),
        ListSort::Updated => if b.updated_at < a.updated_at {
            -1
        } else if b.updated_at > a.updated_at {
            1
        } else {
            0
        },
        ListSort::Used => match (b.last_used_at, a.last_used_at) {
            (None, None) => 0,
            (None, Some(_)) => -1,
            (Some(_), None) => 1,
            (Some(x), Some(y)) => if x < y {
                -1
            } else if x > y {
                1
            } else {
                0
            },
        },
    };
    let primary = if reverse {
        -primary
    } else {
        primary
    };
    if primary != 0 {
        primary
    } else {
        order_texts(a.name.as_str(), b.name.as_str())
    }
}

/// Inserting `e` at `k`, after every entry that does not rank after it and
/// before every entry that does, keeps a sorted sequence sorted and keeps
/// each group of level entries in the order in which they came.
proof fn lemma_insert_in_order(
    sorted: Seq<PromptListEntry>,
    k: int,
    e: PromptListEntry,
    sort: ListSort,
    reverse: bool,
)
    requires
        0 <= k <= sorted.len(),
        in_list_order(sorted, sort, reverse),
        forall|j: int| 0 <= j < k ==> list_order(#[trigger] sorted[j], e, sort, reverse) <= 0,
        forall|j: int| k <= j < sorted.len() ==> list_order(#[trigger] sorted[j], e, sort, reverse) > 0,
    ensures
        in_list_order(sorted.insert(k, e), sort, reverse),
        forall|x: PromptListEntry|
            #[trigger] level_entries(sorted.insert(k, e), x, sort, reverse) == if level_with(
                x,
                sort,
                reverse,
            )(e) {
                level_entries(sorted, x, sort, reverse).push(e)
            } else {
                level_entries(sorted, x, sort, reverse)
            },
{
    let result = sorted.insert(k, e);
    assert forall|i: int, j: int| 0 <= i < j < result.len() implies list_order(
        #[trigger] result[i],
        #[trigger] result[j],
        sort,
        reverse,
    ) <= 0 by {
        if j < k {
            assert(result[i] == sorted[i] && result[j] == sorted[j]);
        } else if j == k {
            assert(result[i] == sorted[i]);
        } else if i == k {
            assert(result[j] == sorted[j - 1]);
            lemma_list_order(e, sorted[j - 1], e, sort, reverse);
        } else if i < k {
            assert(result[i] == sorted[i] && result[j] == sorted[j - 1]);
            assert(list_order(sorted[i], sorted[j - 1], sort, reverse) <= 0);
        } else {
            assert(result[i] == sorted[i - 1] && result[j] == sorted[j - 1]);
            assert(list_order(sorted[i - 1], sorted[j - 1], sort, reverse) <= 0);
        }
    }
    assert forall|x: PromptListEntry| #[trigger]
        level_entries(sorted.insert(k, e), x, sort, reverse) == if level_with(x, sort, reverse)(e) {
            level_entries(sorted, x, sort, reverse).push(e)
        } else {
            level_entries(sorted, x, sort, reverse)
        } by {
        let p = level_with(x, sort, reverse);
        let front = sorted.take(k);
        let back = sorted.skip(k);
        assert(sorted =~= front + back);
        assert(result =~= front.push(e) + back);
        Seq::filter_distributes_over_add(front, back, p);
        Seq::filter_distributes_over_add(front.push(e), back, p);
        front.lemma_filter_push(e, p);
        if p(e) {
            assert forall|j: int| 0 <= j < back.len() implies !p(#[trigger] back[j]) by {
                assert(back[j] == sorted[k + j]);
                lemma_list_order(back[j], x, e, sort, reverse);
                lemma_list_order(x, e, back[j], sort, reverse);
            }
            back.lemma_all_neg_filter_empty(p);
            assert(back.filter(p) =~= Seq::<PromptListEntry>::empty());
            assert(sorted.filter(p) =~= front.filter(p));
            assert(result.filter(p) =~= front.filter(p).push(e));
        } else {
            assert(result.filter(p) =~= sorted.filter(p));
        }
    }
}

/// Sorts a listing (see [`list_order`]): stable, so that entries that rank
/// level keep their order.
pub fn sort(prompts: &mut Vec<PromptListEntry>, sort: ListSort, reverse: bool)
    ensures
        final(prompts)@.to_multiset() == old(prompts)@.to_multiset(),
        in_list_order(final(prompts)@, sort, reverse),
        forall|x: PromptListEntry| #[trigger]
            level_entries(final(prompts)@, x, sort, reverse) == level_entries(
                old(prompts)@,
                x,
                sort,
                reverse,
            ),
{
    let ghost original = prompts@;
    let mut input: Vec<PromptListEntry> = Vec::new();
    std::mem::swap(prompts, &mut input);
    let mut sorted: Vec<PromptListEntry> = Vec::new();
    let ghost mut taken: int = 0;
    while input.len() > 0
        invariant
            0 <= taken <= original.len(),
            input@ == original.skip(taken),
            sorted@.to_multiset() == original.take(taken).to_multiset(),
            in_list_order(sorted@, sort, reverse),
            forall|x: PromptListEntry| #[trigger]
                level_entries(sorted@, x, sort, reverse) == level_entries(
                    original.take(taken),
                    x,
                    sort,
                    reverse,
                ),
        decreases input@.len(),
    {
        let ghost before = sorted@;
        let e = input.remove(0);
        assert(original.take(taken + 1) =~= original.take(taken).push(e));
        assert(original.skip(taken + 1) =~= original.skip(taken).drop_first());
        let mut k = sorted.len();
        while k > 0 && order_entries(&sorted[k - 1], &e, sort, reverse) > 0
            invariant
                k <= sorted@.len(),
                sorted@ == before,
                forall|j: int| k <= j < sorted@.len() ==> list_order(#[trigger] sorted@[j], e, sort, reverse) > 0,
            decreases k,
        {
            k = k - 1;
        }
        proof {
            assert forall|j: int| 0 <= j < k implies list_order(#[trigger] sorted@[j], e, sort, reverse)
                <= 0 by {
                if j < k - 1 {
                    lemma_list_order(sorted@[j], sorted@[k - 1], e, sort, reverse);
                }
            }
            lemma_insert_in_order(sorted@, k as int, e, sort, reverse);
            assert forall|x: PromptListEntry| #[trigger]
                level_entries(original.take(taken + 1), x, sort, reverse) == if level_with(
                    x,
                    sort,
                    reverse,
                )(e) {
                    level_entries(original.take(taken), x, sort, reverse).push(e)
                } else {
                    level_entries(original.take(taken), x, sort, reverse)
                } by {
                original.take(taken).lemma_filter_push(e, level_with(x, sort, reverse));
            }
        }
        sorted.insert(k, e);
        proof {
            taken = taken + 1;
        }
    }
    assert(original.take(taken) =~= original);
    *prompts = sorted;
}

/// The seconds from `timestamp` to `now`, never negative
/// (`now.saturating_sub(timestamp).max(0)`).
pub open spec fn elapsed_seconds(timestamp: i64, now: i64) -> u64 {
    let d = now as int - timestamp as int;
    if d < 0 {
        0
    } else if d > i64::MAX {
        i64::MAX as u64
    } else {
        d as u64
    }
}

/// What `timeago` writes for `elapsed` seconds when it counts in minutes
/// and larger units, one unit only (such as "2 hours ago").
pub uninterp spec fn relative_time_text(elapsed: u64) -> Seq<char>;

/// A duration in words: a `timeago::Formatter` with minutes as its smallest
/// unit, `convert` on `Duration::from_secs(elapsed)`.
///
/// Trusted: the text is named `relative_time_text`, not stated; what is
/// claimed of it is the documented "now" for durations too short for the
/// smallest unit.
#[verifier::external_body]
fn relative_time(elapsed: u64) -> (result: String)
    ensures
        result@ == relative_time_text(elapsed),
        elapsed < 60 ==> result@ == seq!['n', 'o', 'w'],
{
    let mut formatter = timeago::Formatter::new();
    formatter.min_unit(timeago::TimeUnit::Minutes);
    formatter.convert(std::time::Duration::from_secs(elapsed))
}

/// How long ago `timestamp` was at `now`, in words.
pub fn format_relative_timestamp(timestamp: i64, now: i64) -> (result: String)
    ensures
        result@ == relative_time_text(elapsed_seconds(timestamp, now)),
        elapsed_seconds(timestamp, now) < 60 ==> result@ == seq!['n', 'o', 'w'],
{
    let d: i128 = now as i128 - timestamp as i128;
    let elapsed: u64 = if d < 0 {
        0
    } else if d > i64::MAX as i128 {
        i64::MAX as u64
    } else {
        d as u64
    };
    relative_time(elapsed)
}

/// The names, one per line.
pub open spec fn quiet_text(prompts: Seq<PromptListEntry>) -> Seq<char> {
    join(prompts.map_values(|p: PromptListEntry| p.name@), "\n"@) + "\n"@
}

/// Lists the names only, one per line.
pub fn render_quiet(prompts: &[PromptListEntry]) -> (result: String)
    ensures
        result@ == quiet_text(prompts@),
{
    let mut names: Vec<String> = Vec::new();
    let mut i: usize = 0;
    while i < prompts.len()
        invariant
            i <= prompts@.len(),
            names@.map_values(|t: String| t@) == prompts@.take(i as int).map_values(|p: PromptListEntry| p.name@),
        decreases prompts@.len() - i,
    {
        let ghost before = names@;
        let name = prompts[i].name.clone();
        names.push(name);
        assert(names@ == before.push(name));
        assert(names@.map_values(|t: String| t@) =~= before.map_values(|t: String| t@).push(name@));
        assert(prompts@.take(i + 1).map_values(|p: PromptListEntry| p.name@) =~= prompts@.take(
            i as int,
        ).map_values(|p: PromptListEntry| p.name@).push(prompts@[i as int].name@));
        i = i + 1;
    }
    assert(prompts@.take(prompts@.len() as int) =~= prompts@);
    let mut text = join_texts(&names, "\n");
    push_str(&mut text, "\n");
    text
}

/// Tags on one line, separated by commas, or `-` when there are none.
pub open spec fn tags_text(tags: Seq<Seq<char>>) -> Seq<char> {
    if tags.len() == 0 {
        "-"@
    } else {
        join(tags.map_values(|t: Seq<char>| inline_text(t)), ", "@)
    }
}

/// Writes tags on one line (see [`tags_text`]).
pub fn format_tags(tags: &[String]) -> (result: String)
    ensures
        result@ == tags_text(tags@.map_values(|t: String| t@)),
{
    if tags.len() == 0 {
        return "-".to_owned();
    }
    let ghost views = tags@.map_values(|t: String| t@);
    let mut parts: Vec<String> = Vec::new();
    let mut i: usize = 0;
    while i < tags.len()
        invariant
            i <= tags@.len(),
            views == tags@.map_values(|t: String| t@),
            parts@.map_values(|t: String| t@) == views.take(i as int).map_values(|t: Seq<char>| inline_text(t)),
        decreases tags@.len() - i,
    {
        let ghost before = parts@;
        let part = clean_inline(tags[i].as_str());
        parts.push(part);
        assert(parts@ == before.push(part));
        assert(parts@.map_values(|t: String| t@) =~= before.map_values(|t: String| t@).push(part@));
        assert(views.take(i + 1).map_values(|t: Seq<char>| inline_text(t)) =~= views.take(
            i as int,
        ).map_values(|t: Seq<char>| inline_text(t)).push(inline_text(views[i as int])));
        i = i + 1;
    }
    assert(views.take(tags@.len() as int) =~= views);
    join_texts(&parts, ", ")
}

/// An optional text on one line, or `-` when it is missing or empty.
pub open spec fn optional_inline_text(value: Option<Seq<char>>) -> Seq<char> {
    match value {
        Some(text) => if text.len() > 0 {
            inline_text(text)
        } else {
            "-"@
        },
        None => "-"@,
    }
}

/// The view of an optional text.
pub open spec fn option_view(value: Option<String>) -> Option<Seq<char>> {
    match value {
        Some(text) => Some(text@),
        None => None,
    }
}

/// Writes an optional text on one line (see [`optional_inline_text`]).
pub fn format_optional_inline(value: &Option<String>) -> (result: String)
    ensures
        result@ == optional_inline_text(option_view(*value)),
{
    match value {
        Some(text) => if text.as_str().is_empty() {
            "-".to_owned()
        } else {
            clean_inline(text.as_str())
        },
        None => "-".to_owned(),
    }
}

/// A local date and time, without the year when it is `current_year`:
/// `MM-DD HH:MM`, else `YYYY-MM-DD HH:MM`.
pub open spec fn compact_timestamp_text(fields: (i32, u8, u8, u8, u8), current_year: i32) -> Seq<char> {
    if fields.0 == current_year {
        zero_padded(fields.1 as nat, 2) + seq!['-'] + zero_padded(fields.2 as nat, 2) + seq![' ']
            + zero_padded(fields.3 as nat, 2) + seq![':'] + zero_padded(fields.4 as nat, 2)
    } else {
        full_timestamp_text(fields)
    }
}

/// Writes a local date and time (see [`compact_timestamp_text`]).
pub fn compact_date_time(fields: (i32, u8, u8, u8, u8), current_year: i32) -> (result: String)
    ensures
        result@ == compact_timestamp_text(fields, current_year),
{
    if fields.0 == current_year {
        let mut text = String::new();
        push_zero_padded(&mut text, fields.1 as u64, 2);
        push_char(&mut text, '-');
        push_zero_padded(&mut text, fields.2 as u64, 2);
        push_char(&mut text, ' ');
        push_zero_padded(&mut text, fields.3 as u64, 2);
        push_char(&mut text, ':');
        push_zero_padded(&mut text, fields.4 as u64, 2);
        assert(text@ =~= compact_timestamp_text(fields, current_year));
        text
    } else {
        format_date_time(fields)
    }
}

/// What the full table shows for a timestamp: its compact local form, or
/// the error for a timestamp (or a current time) that has no local date.
pub open spec fn compact_timestamp(timestamp: i64, now: i64, offset_seconds: i32) -> Result<Seq<char>, Seq<char>> {
    match local_date_time(timestamp, offset_seconds) {
        None => Err(out_of_range_text(timestamp)),
        Some(fields) => match local_date_time(now, offset_seconds) {
            None => Err(out_of_range_text(now)),
            Some(current) => Ok(compact_timestamp_text(fields, current.0)),
        },
    }
}

/// A timestamp as the full table shows it (see [`compact_timestamp`]).
pub fn format_compact_timestamp(timestamp: i64, now: i64, offset_seconds: i32) -> (result: Result<String, Error>)
    requires
        -93_599 <= offset_seconds <= 93_599,
    ensures
        match compact_timestamp(timestamp, now, offset_seconds) {
            Ok(text) => result matches Ok(t) && t@ == text,
            Err(text) => fails_with(result, text),
        },
        result is Ok <==> has_local_date(timestamp, offset_seconds) && has_local_date(now, offset_seconds),
{
    let fields = match local_fields(timestamp, offset_seconds) {
        Some(fields) => fields,
        None => return Err(out_of_range(timestamp)),
    };
    let current = match local_fields(now, offset_seconds) {
        Some(current) => current,
        None => return Err(out_of_range(now)),
    };
    Ok(compact_date_time(fields, current.0))
}

/// When a prompt was last used, in words, or `-`.
pub open spec fn last_use_text(last_used_at: Option<i64>, now: i64) -> Seq<char> {
    match last_used_at {
        Some(timestamp) => relative_time_text(elapsed_seconds(timestamp, now)),
        None => "-"@,
    }
}

fn format_last_use(last_used_at: Option<i64>, now: i64) -> (result: String)
    ensures
        result@ == last_use_text(last_used_at, now),
{
    match last_used_at {
        Some(timestamp) => format_relative_timestamp(timestamp, now),
        None => "-".to_owned(),
    }
}

fn signed_text(n: i64) -> (result: String)
    ensures
        result@ == signed_decimal(n as int),
{
    let mut text = String::new();
    push_signed(&mut text, n);
    text
}

/// The headers of the default table.
pub open spec fn default_headers() -> Seq<Seq<char>> {
    seq!["ID"@, "NAME"@, "USES"@, "LAST USE"@]
}

/// The column styles of the default table.
pub open spec fn default_styles() -> Seq<TextStyle> {
    seq![TextStyle::Dimmed, TextStyle::Cyan, TextStyle::Plain, TextStyle::Dimmed]
}

/// A row of the default table: id, name, uses, last use.
pub open spec fn default_row(prompt: PromptListEntry, now: i64) -> Seq<Seq<char>> {
    seq![
        signed_decimal(prompt.id as int),
        prompt.name@,
        signed_decimal(prompt.use_count as int),
        last_use_text(prompt.last_used_at, now),
    ]
}

/// The default listing: a table of ids, names, uses and last use.
pub open spec fn default_table(prompts: Seq<PromptListEntry>, now: i64, colors_enabled: bool) -> Seq<char> {
    table(
        default_headers(),
        prompts.map_values(|p: PromptListEntry| default_row(p, now)),
        default_styles().map_values(|s: TextStyle| style_codes(s)),
        colors_enabled,
    )
}

/// Lays out the default listing (see [`default_table`]).
pub fn render_default_table(prompts: &[PromptListEntry], now: i64, colors_enabled: bool) -> (result: String)
    ensures
        result@ == default_table(prompts@, now, colors_enabled),
{
    let headers: [&str; 4] = ["ID", "NAME", "USES", "LAST USE"];
    let kinds: [TextStyle; 4] = [TextStyle::Dimmed, TextStyle::Cyan, TextStyle::Plain, TextStyle::Dimmed];
    assert(kinds@ =~= default_styles());
    let styles = cell_styles(&kinds);
    assert(styles@.len() == style_views(styles@).len());
    let ghost expected = prompts@.map_values(|p: PromptListEntry| default_row(p, now));
    let mut rows: Vec<Vec<String>> = Vec::new();
    let mut i: usize = 0;
    while i < prompts.len()
        invariant
            i <= prompts@.len(),
            expected == prompts@.map_values(|p: PromptListEntry| default_row(p, now)),
            rows@.len() == i,
            forall|r: int| 0 <= r < i ==> (#[trigger] rows@[r])@.len() == 4,
            row_views(rows@) == expected.take(i as int),
        decreases prompts@.len() - i,
    {
        let prompt = &prompts[i];
        let mut row: Vec<String> = Vec::new();
        row.push(signed_text(prompt.id));
        row.push(prompt.name.clone());
        row.push(signed_text(prompt.use_count));
        row.push(format_last_use(prompt.last_used_at, now));
        let ghost before = rows@;
        assert(crate::prompt::text_views(row@) =~= default_row(*prompt, now));
        rows.push(row);
        assert(rows@ == before.push(row));
        assert(row_views(rows@) =~= expected.take(i + 1));
        i = i + 1;
    }
    assert(expected.take(prompts@.len() as int) =~= expected);
    assert(header_views(headers@) =~= default_headers());
    format_table(&headers, rows.as_slice(), styles.as_slice(), colors_enabled)
}

/// The headers of the full table.
pub open spec fn full_headers() -> Seq<Seq<char>> {
    seq![
        "ID"@,
        "NAME"@,
        "TAGS"@,
        "FAVORITE"@,
        "USES"@,
        "CREATED AT"@,
        "UPDATED AT"@,
        "LAST USE"@,
        "EXEC"@,
        "DESCRIPTION"@,
    ]
}

/// The column styles of the full table.
pub open spec fn full_styles() -> Seq<TextStyle> {
    seq![
        TextStyle::Dimmed,
        TextStyle::Cyan,
        TextStyle::Plain,
        TextStyle::Plain,
        TextStyle::Plain,
        TextStyle::Dimmed,
        TextStyle::Dimmed,
        TextStyle::Dimmed,
        TextStyle::Plain,
        TextStyle::Plain,
    ]
}

/// A row of the full table, or the error of its first timestamp without a
/// local date.
pub open spec fn full_row(prompt: PromptListEntry, now: i64, offset_seconds: i32) -> Result<
    Seq<Seq<char>>,
    Seq<char>,
> {
    match compact_timestamp(prompt.created_at, now, offset_seconds) {
        Err(e) => Err(e),
        Ok(created) => match compact_timestamp(prompt.updated_at, now, offset_seconds) {
            Err(e) => Err(e),
            Ok(updated) => Ok(
                seq![
                    signed_decimal(prompt.id as int),
                    prompt.name@,
                    tags_text(prompt.tags@.map_values(|t: String| t@)),
                    if prompt.favorite {
                        "yes"@
                    } else {
                        "-"@
                    },
                    signed_decimal(prompt.use_count as int),
                    created,
                    updated,
                    last_use_text(prompt.last_used_at, now),
                    optional_inline_text(option_view(prompt.exec_command)),
                    optional_inline_text(option_view(prompt.description)),
                ],
            ),
        },
    }
}

/// The rows of the full table, or the error of the first row that fails.
pub open spec fn full_rows(prompts: Seq<PromptListEntry>, now: i64, offset_seconds: i32) -> Result<
    Seq<Seq<Seq<char>>>,
    Seq<char>,
>
    decreases prompts.len(),
{
    if prompts.len() == 0 {
        Ok(Seq::empty())
    } else {
        match full_rows(prompts.drop_last(), now, offset_seconds) {
            Err(e) => Err(e),
            Ok(rows) => match full_row(prompts.last(), now, offset_seconds) {
                Err(e) => Err(e),
                Ok(row) => Ok(rows.push(row)),
            },
        }
    }
}

/// The full listing: every field of every prompt on one line each.
pub open spec fn full_table(
    prompts: Seq<PromptListEntry>,
    now: i64,
    offset_seconds: i32,
    colors_enabled: bool,
) -> Result<Seq<char>, Seq<char>> {
    match full_rows(prompts, now, offset_seconds) {
        Err(e) => Err(e),
        Ok(rows) => Ok(
            table(
                full_headers(),
                rows,
                full_styles().map_values(|s: TextStyle| style_codes(s)),
                colors_enabled,
            ),
        ),
    }
}

proof fn lemma_full_rows_error(prompts: Seq<PromptListEntry>, j: int, now: i64, offset_seconds: i32)
    requires
        0 <= j <= prompts.len(),
        full_rows(prompts.take(j), now, offset_seconds) is Err,
    ensures
        full_rows(prompts, now, offset_seconds) == full_rows(prompts.take(j), now, offset_seconds),
    decreases prompts.len(),
{
    if j == prompts.len() {
        assert(prompts.take(j) =~= prompts);
    } else {
        assert(prompts.drop_last().take(j) =~= prompts.take(j));
        lemma_full_rows_error(prompts.drop_last(), j, now, offset_seconds);
    }
}

/// Each row of the full table describes its own prompt, column by column:
/// row `k` shows the id, name, tags, favorite mark and use count of
/// `prompts[k]`; its CREATED AT cell is the compact local time of that
/// prompt's `created_at` and its UPDATED AT cell that of its `updated_at`;
/// then its last use, exec command and description; whatever the order of
/// the prompts.
pub proof fn lemma_full_rows_describe_their_prompts(prompts: Seq<PromptListEntry>, now: i64, offset_seconds: i32)
    ensures
        full_rows(prompts, now, offset_seconds) matches Ok(rows) ==> {
            &&& rows.len() == prompts.len()
            &&& forall|k: int|
                0 <= k < prompts.len() ==> {
                    let row = #[trigger] rows[k];
                    &&& row.len() == 10
                    &&& row[0] == signed_decimal(prompts[k].id as int)
                    &&& row[1] == prompts[k].name@
                    &&& compact_timestamp(prompts[k].created_at, now, offset_seconds) == Ok::<Seq<char>, Seq<char>>(row[5])
                    &&& compact_timestamp(prompts[k].updated_at, now, offset_seconds) == Ok::<Seq<char>, Seq<char>>(row[6])
                    &&& row[2] == tags_text(prompts[k].tags@.map_values(|t: String| t@))
                    &&& row[3] == if prompts[k].favorite { "yes"@ } else { "-"@ }
                    &&& row[4] == signed_decimal(prompts[k].use_count as int)
                    &&& row[7] == last_use_text(prompts[k].last_used_at, now)
                    &&& row[8] == optional_inline_text(option_view(prompts[k].exec_command))
                    &&& row[9] == optional_inline_text(option_view(prompts[k].description))
                }
        },
    decreases prompts.len(),
{
    if prompts.len() > 0 {
        lemma_full_rows_describe_their_prompts(prompts.drop_last(), now, offset_seconds);
        match full_rows(prompts, now, offset_seconds) {
            Ok(rows) => {
                let before = full_rows(prompts.drop_last(), now, offset_seconds)->Ok_0;
                let row = full_row(prompts.last(), now, offset_seconds)->Ok_0;
                assert(rows == before.push(row));
                assert forall|k: int| 0 <= k < prompts.len() implies {
                    let row = #[trigger] rows[k];
                    &&& row.len() == 10
                    &&& row[0] == signed_decimal(prompts[k].id as int)
                    &&& row[1] == prompts[k].name@
                    &&& compact_timestamp(prompts[k].created_at, now, offset_seconds) == Ok::<Seq<char>, Seq<char>>(row[5])
                    &&& compact_timestamp(prompts[k].updated_at, now, offset_seconds) == Ok::<Seq<char>, Seq<char>>(row[6])
                    &&& row[2] == tags_text(prompts[k].tags@.map_values(|t: String| t@))
                    &&& row[3] == if prompts[k].favorite { "yes"@ } else { "-"@ }
                    &&& row[4] == signed_decimal(prompts[k].use_count as int)
                    &&& row[7] == last_use_text(prompts[k].last_used_at, now)
                    &&& row[8] == optional_inline_text(option_view(prompts[k].exec_command))
                    &&& row[9] == optional_inline_text(option_view(prompts[k].description))
                } by {
                    if k < prompts.len() - 1 {
                        assert(rows[k] == before[k]);
                        assert(prompts[k] == prompts.drop_last()[k]);
                    }
                }
            },
            Err(_) => {},
        }
    }
}

/// Writes a row of the full table (see [`full_row`]).
fn format_full_row(prompt: &PromptListEntry, now: i64, offset_seconds: i32) -> (result: Result<Vec<String>, Error>)
    requires
        -93_599 <= offset_seconds <= 93_599,
    ensures
        match full_row(*prompt, now, offset_seconds) {
            Ok(row) => result matches Ok(r) && crate::prompt::text_views(r@) == row && r@.len() == 10,
            Err(text) => fails_with(result, text),
        },
        result is Ok <==> has_local_date(prompt.created_at, offset_seconds) && has_local_date(
            prompt.updated_at,
            offset_seconds,
        ) && has_local_date(now, offset_seconds),
{
    let created = format_compact_timestamp(prompt.created_at, now, offset_seconds)?;
    let updated = format_compact_timestamp(prompt.updated_at, now, offset_seconds)?;
    let mut row: Vec<String> = Vec::new();
    row.push(signed_text(prompt.id));
    row.push(prompt.name.clone());
    row.push(format_tags(prompt.tags.as_slice()));
    row.push(if prompt.favorite { "yes".to_owned() } else { "-".to_owned() });
    row.push(signed_text(prompt.use_count));
    row.push(created);
    row.push(updated);
    row.push(format_last_use(prompt.last_used_at, now));
    row.push(format_optional_inline(&prompt.exec_command));
    row.push(format_optional_inline(&prompt.description));
    assert(crate::prompt::text_views(row@) =~= full_row(*prompt, now, offset_seconds)->Ok_0);
    Ok(row)
}

/// Both timestamps of a prompt have a local date at the offset.
pub open spec fn has_local_dates(prompt: PromptListEntry, offset_seconds: i32) -> bool {
    has_local_date(prompt.created_at, offset_seconds) && has_local_date(prompt.updated_at, offset_seconds)
}

/// Lays out the full listing (see [`full_table`]).
pub fn render_full_table(
    prompts: &[PromptListEntry],
    now: i64,
    offset_seconds: i32,
    colors_enabled: bool,
) -> (result: Result<String, Error>)
    requires
        -93_599 <= offset_seconds <= 93_599,
    ensures
        match full_table(prompts@, now, offset_seconds, colors_enabled) {
            Ok(text) => result matches Ok(t) && t@ == text,
            Err(text) => fails_with(result, text),
        },
        result is Ok <==> prompts@.len() == 0 || (has_local_date(now, offset_seconds) && forall|k: int|
            0 <= k < prompts@.len() ==> #[trigger] has_local_dates(prompts@[k], offset_seconds)),
{
    let headers: [&str; 10] = [
        "ID",
        "NAME",
        "TAGS",
        "FAVORITE",
        "USES",
        "CREATED AT",
        "UPDATED AT",
        "LAST USE",
        "EXEC",
        "DESCRIPTION",
    ];
    let kinds: [TextStyle; 10] = [
        TextStyle::Dimmed,
        TextStyle::Cyan,
        TextStyle::Plain,
        TextStyle::Plain,
        TextStyle::Plain,
        TextStyle::Dimmed,
        TextStyle::Dimmed,
        TextStyle::Dimmed,
        TextStyle::Plain,
        TextStyle::Plain,
    ];
    assert(kinds@ =~= full_styles());
    let styles = cell_styles(&kinds);
    assert(styles@.len() == style_views(styles@).len());
    let mut rows: Vec<Vec<String>> = Vec::new();
    let mut i: usize = 0;
    assert(prompts@.take(0) =~= Seq::<PromptListEntry>::empty());
    assert(row_views(rows@) =~= Seq::<Seq<Seq<char>>>::empty());
    while i < prompts.len()
        invariant
            i <= prompts@.len(),
            -93_599 <= offset_seconds <= 93_599,
            rows@.len() == i,
            forall|r: int| 0 <= r < i ==> (#[trigger] rows@[r])@.len() == 10,
            full_rows(prompts@.take(i as int), now, offset_seconds) == Ok::<Seq<Seq<Seq<char>>>, Seq<char>>(
                row_views(rows@),
            ),
            i > 0 ==> has_local_date(now, offset_seconds),
            forall|k: int| 0 <= k < i ==> #[trigger] has_local_dates(prompts@[k], offset_seconds),
        decreases prompts@.len() - i,
    {
        let prompt = &prompts[i];
        assert(prompts@.take(i + 1).drop_last() =~= prompts@.take(i as int));
        assert(prompts@.take(i + 1).last() == *prompt);
        let row = match format_full_row(prompt, now, offset_seconds) {
            Ok(row) => row,
            Err(e) => {
                proof {
                    lemma_full_rows_error(prompts@, i + 1, now, offset_seconds);
                    assert(!has_local_date(now, offset_seconds) || !has_local_dates(prompts@[i as int], offset_seconds));
                }
                return Err(e);
            },
        };
        let ghost before = rows@;
        proof {
            assert(prompts@[i as int] == *prompt);
            assert(has_local_dates(prompts@[i as int], offset_seconds));
            assert(has_local_date(now, offset_seconds));
        }
        rows.push(row);
        assert(rows@ == before.push(row));
        assert(row_views(rows@) =~= row_views(before).push(crate::prompt::text_views(row@)));
        i = i + 1;
    }
    assert(prompts@.take(prompts@.len() as int) =~= prompts@);
    assert(header_views(headers@) =~= full_headers());
    Ok(format_table(&headers, rows.as_slice(), styles.as_slice(), colors_enabled))
}

/// Whether `group` names a group: a valid prompt name followed by `/`.
pub open spec fn is_valid_group(group: Seq<char>) -> bool {
    group.len() > 0 && group.last() == '/' && is_valid_name(group.drop_last())
}

/// Checks the filters of `list` and gives the tag to filter by, trimmed.
pub fn list_tag_filter(arguments: &ListArgs) -> (result: Result<Option<String>, Error>)
    ensures
        arguments.group matches Some(g) && !(g@.len() > 0 && g@.last() == '/') ==> fails_with(
            result,
            "prompt group must end with '/': "@ + arguments.group->0@,
        ),
        arguments.group matches Some(g) && g@.len() > 0 && g@.last() == '/' && !is_valid_name(
            g@.drop_last(),
        ) ==> fails_with(result, "invalid prompt group: "@ + arguments.group->0@),
        (arguments.group matches Some(g) ==> is_valid_group(g@)) ==> match arguments.tag {
            Some(tag) => if trim(tag@).len() == 0 {
                fails_with(result, "tag must not be empty"@)
            } else {
                result matches Ok(Some(t)) && t@ == trim(tag@)
            },
            None => result matches Ok(None),
        },
{
    if let Some(group) = &arguments.group {
        validate_group(group.as_str())?;
    }
    match &arguments.tag {
        Some(tag) => {
            let trimmed = trim_text(tag.as_str());
            if trimmed.as_str().is_empty() {
                Err(crate::error::message("tag must not be empty"))
            } else {
                Ok(Some(trimmed))
            }
        },
        None => Ok(None),
    }
}

/// What `list` shows once the prompts are read.
#[derive(Debug, PartialEq, Eq)]
pub enum Listing {
    /// Nothing matched: nothing is written.
    Empty,
    /// The names, written as they are.
    Names(String),
    /// A table is to be laid out and paged.
    Table,
}

/// Sorts the prompts that `list` read and says what it shows of them.
pub fn plan_listing(prompts: &mut Vec<PromptListEntry>, arguments: &ListArgs) -> (result: Listing)
    ensures
        final(prompts)@.to_multiset() == old(prompts)@.to_multiset(),
        in_list_order(final(prompts)@, arguments.sort, arguments.reverse),
        forall|x: PromptListEntry| #[trigger]
            level_entries(final(prompts)@, x, arguments.sort, arguments.reverse) == level_entries(
                old(prompts)@,
                x,
                arguments.sort,
                arguments.reverse,
            ),
        old(prompts)@.len() == 0 ==> result == Listing::Empty,
        old(prompts)@.len() > 0 && arguments.quiet ==> (result matches Listing::Names(text) && text@
            == quiet_text(final(prompts)@)),
        old(prompts)@.len() > 0 && !arguments.quiet ==> result == Listing::Table,
{
    sort(prompts, arguments.sort, arguments.reverse);
    proof {
        vstd::seq_lib::to_multiset_len(old(prompts)@);
        vstd::seq_lib::to_multiset_len(prompts@);
    }
    if prompts.len() == 0 {
        Listing::Empty
    } else if arguments.quiet {
        Listing::Names(render_quiet(prompts.as_slice()))
    } else {
        Listing::Table
    }
}

/// Lays out the table of `list`: the full one or the default one.
pub fn render_listing_table(
    prompts: &[PromptListEntry],
    full: bool,
    now: i64,
    offset_seconds: i32,
    colors_enabled: bool,
) -> (result: Result<String, Error>)
    requires
        -93_599 <= offset_seconds <= 93_599,
    ensures
        full ==> match full_table(prompts@, now, offset_seconds, colors_enabled) {
            Ok(text) => result matches Ok(t) && t@ == text,
            Err(text) => fails_with(result, text),
        },
        !full ==> (result matches Ok(t) && t@ == default_table(prompts@, now, colors_enabled)),
        full ==> (result is Ok <==> prompts@.len() == 0 || (has_local_date(now, offset_seconds) && forall|k: int|
            0 <= k < prompts@.len() ==> #[trigger] has_local_dates(prompts@[k], offset_seconds))),
{
    if full {
        render_full_table(prompts, now, offset_seconds, colors_enabled)
    } else {
        Ok(render_default_table(prompts, now, colors_enabled))
    }
}

} // verus!
