//! Prompt templates: `{{name}}` variables and `{{prompt:name}}` compositions.
//!
//! The scanning works on the characters of a template; the positions that
//! [`Placeholder`] and [`Composition`] report are byte offsets, as string
//! slicing uses them.
use vstd::prelude::*;

use crate::error::{fails_with, Error};
use crate::prompt::{is_valid_name, validate_name};
use crate::text::{
    byte_length, byte_offset, byte_offsets, chars_of, count_char, decimal, find_char,
    is_ascii_alphabetic, is_ascii_alphanumeric, lemma_byte_offset_strict, lemma_find_char, push_chars, push_decimal, push_str,
    same_text, string_from_chars, trim, trim_bounds,
};

verus! {

/// A `{{name}}` variable of a template, by byte offsets.
#[derive(Debug, PartialEq, Eq)]
pub struct Placeholder {
    pub start: usize,
    pub end: usize,
    pub name: String,
}

/// A `{{prompt:name}}` reference to another prompt, by byte offsets.
#[derive(Debug, PartialEq, Eq)]
pub struct Composition {
    pub start: usize,
    pub end: usize,
    pub name: String,
}

/// A variable name: an ASCII letter or `_`, then ASCII letters, digits, `_`
/// or `-`.
pub open spec fn is_variable_name(s: Seq<char>) -> bool {
    &&& s.len() > 0
    &&& (is_ascii_alphabetic(s[0]) || s[0] == '_')
    &&& forall|i: int| 1 <= i < s.len() ==> (is_ascii_alphanumeric(#[trigger] s[i]) || s[i] == '_' || s[i] == '-')
}

/// The prefix of a composition expression.
pub open spec fn prompt_prefix() -> Seq<char> {
    seq!['p', 'r', 'o', 'm', 'p', 't', ':']
}

/// The prompt name that a trimmed expression refers to, if it is
/// `prompt:` followed by a valid prompt name.
pub open spec fn composition_name(candidate: Seq<char>) -> Option<Seq<char>> {
    if candidate.len() >= 7 && candidate.take(7) == prompt_prefix() && is_valid_name(
        candidate.skip(7),
    ) {
        Some(candidate.skip(7))
    } else {
        None
    }
}

/// Which kind of expression a scan collects.
#[derive(Clone, Copy, PartialEq, Eq)]
pub enum ExpressionKind {
    Variable,
    Composition,
}

/// The variable that a trimmed expression names, with its default value:
/// a variable name alone, or a variable name, `=` and the literal default
/// (everything after the first `=`).
pub open spec fn variable_parts(candidate: Seq<char>) -> Option<(Seq<char>, Option<Seq<char>>)> {
    match find_char(candidate, 0, '=') {
        Some(e) => if is_variable_name(candidate.take(e)) {
            Some((candidate.take(e), Some(candidate.skip(e + 1))))
        } else {
            None
        },
        None => if is_variable_name(candidate) {
            Some((candidate, None))
        } else {
            None
        },
    }
}

/// The name that a trimmed expression gives, for the kind being collected.
pub open spec fn selected_name(kind: ExpressionKind, candidate: Seq<char>) -> Option<Seq<char>> {
    match kind {
        ExpressionKind::Variable => match variable_parts(candidate) {
            Some((name, _)) => Some(name),
            None => None,
        },
        ExpressionKind::Composition => composition_name(candidate),
    }
}

/// `c` twice at `i`.
pub open spec fn pair_at(s: Seq<char>, i: int, c: char) -> bool {
    0 <= i && i + 1 < s.len() && s[i] == c && s[i + 1] == c
}

/// First index at or after `from` where `c` appears twice in a row.
pub open spec fn find_pair(s: Seq<char>, from: int, c: char) -> Option<int>
    decreases s.len() - from,
{
    if from < 0 || from + 1 >= s.len() {
        None
    } else if pair_at(s, from, c) {
        Some(from)
    } else {
        find_pair(s, from + 1, c)
    }
}

pub proof fn lemma_find_pair(s: Seq<char>, from: int, c: char)
    requires
        0 <= from,
    ensures
        find_pair(s, from, c) matches Some(j) ==> from <= j && pair_at(s, j, c) && forall|k: int|
            from <= k < j ==> !pair_at(s, k, c),
        find_pair(s, from, c) is None ==> forall|k: int| from <= k ==> !pair_at(s, k, c),
    decreases s.len() - from,
{
    if from + 1 < s.len() && !pair_at(s, from, c) {
        lemma_find_pair(s, from + 1, c);
    }
}

/// The expressions of kind `kind` found from `cursor` on, as (start, end,
/// name) by character index: each `{{` opens an expression closed by the
/// next `}}`; its trimmed content either names one (the scan then goes on
/// after the `}}`) or not (the scan goes on right after the `{{`).
pub open spec fn scan(s: Seq<char>, cursor: int, kind: ExpressionKind) -> Seq<(int, int, Seq<char>)>
    decreases s.len() - cursor,
    when 0 <= cursor
{
    match find_pair(s, cursor, '{') {
        None => seq![],
        Some(open) => {
            proof {
                lemma_find_pair(s, cursor, '{');
                lemma_find_pair(s, open + 2, '}');
            }
            match find_pair(s, open + 2, '}') {
                None => seq![],
                Some(close) => match selected_name(kind, trim(s.subrange(open + 2, close))) {
                    Some(name) => seq![(open, close + 2, name)] + scan(s, close + 2, kind),
                    None => scan(s, open + 2, kind),
                },
            }
        },
    }
}

/// Why a template is rejected.
pub enum SyntaxProblem {
    /// A `{{` without a later `}}`.
    Unclosed,
    /// An expression ending at the `}}` at this index that is neither a
    /// variable nor a composition.
    Invalid(int),
}

/// The first syntax error of `s` from `cursor` on, with the index of its
/// `{{`.
pub open spec fn syntax_check(s: Seq<char>, cursor: int) -> Option<(int, SyntaxProblem)>
    decreases s.len() - cursor,
    when 0 <= cursor
{
    match find_pair(s, cursor, '{') {
        None => None,
        Some(open) => {
            proof {
                lemma_find_pair(s, cursor, '{');
                lemma_find_pair(s, open + 2, '}');
            }
            match find_pair(s, open + 2, '}') {
                None => Some((open, SyntaxProblem::Unclosed)),
                Some(close) => {
                    let candidate = trim(s.subrange(open + 2, close));
                    if variable_parts(candidate) is Some || composition_name(candidate) is Some {
                        syntax_check(s, close + 2)
                    } else {
                        Some((open, SyntaxProblem::Invalid(close)))
                    }
                },
            }
        },
    }
}

/// Index just after the last newline before `i`, or 0.
pub open spec fn line_start(s: Seq<char>, i: int) -> int
    decreases i,
{
    if i <= 0 {
        0
    } else if s[i - 1] == '\n' {
        i
    } else {
        line_start(s, i - 1)
    }
}

/// The text of a syntax error at index `position`, on a template whose first
/// line is line `line_offset + 1` of its file.
pub open spec fn syntax_error_text(
    s: Seq<char>,
    position: int,
    line_offset: nat,
    detail: Seq<char>,
) -> Seq<char> {
    let line = line_offset + count_char(s.take(position), '\n') + 1;
    let column = position - line_start(s, position) + 1;
    "invalid template syntax at line "@ + decimal(line) + ", column "@ + decimal(column as nat)
        + ": "@ + detail
}

/// The detail of a syntax problem.
pub open spec fn problem_detail(s: Seq<char>, open: int, problem: SyntaxProblem) -> Seq<char> {
    match problem {
        SyntaxProblem::Unclosed => "unclosed `{{`"@,
        SyntaxProblem::Invalid(close) => "invalid expression `"@ + s.subrange(open, close + 2)
            + "`"@,
    }
}

/// Whether `name` is a valid variable name.
pub fn is_valid_variable_name(name: &str) -> (result: bool)
    ensures
        result == is_variable_name(name@),
{
    let chars = chars_of(name);
    assert(chars@.subrange(0, chars@.len() as int) =~= name@);
    is_variable_name_in(chars.as_slice(), 0, chars.len())
}

/// Whether `chars[from..to]` is a valid variable name.
fn is_variable_name_in(chars: &[char], from: usize, to: usize) -> (result: bool)
    requires
        from <= to <= chars@.len(),
    ensures
        result == is_variable_name(chars@.subrange(from as int, to as int)),
{
    let ghost s = chars@.subrange(from as int, to as int);
    if from == to {
        return false;
    }
    let first = chars[from];
    if !(('a' <= first && first <= 'z') || ('A' <= first && first <= 'Z') || first == '_') {
        return false;
    }
    let mut i = from + 1;
    while i < to
        invariant
            from < i <= to <= chars@.len(),
            s == chars@.subrange(from as int, to as int),
            forall|k: int| 1 <= k < i - from ==> (is_ascii_alphanumeric(#[trigger] s[k]) || s[k] == '_' || s[k] == '-'),
        decreases to - i,
    {
        let c = chars[i];
        if !(('a' <= c && c <= 'z') || ('A' <= c && c <= 'Z') || ('0' <= c && c <= '9') || c == '_'
            || c == '-') {
            assert(s[i - from] == c);
            return false;
        }
        i = i + 1;
    }
    true
}

/// The variable that `chars[from..to]` names (see [`variable_parts`]): where
/// its name ends, and whether a default follows.
fn variable_parts_in(chars: &[char], from: usize, to: usize) -> (result: Option<(usize, bool)>)
    requires
        from <= to <= chars@.len(),
    ensures
        ({
            let candidate = chars@.subrange(from as int, to as int);
            match result {
                Some((end, has_default)) => from <= end <= to && variable_parts(candidate) == Some(
                    (
                        chars@.subrange(from as int, end as int),
                        if has_default {
                            Some(chars@.subrange(end + 1, to as int))
                        } else {
                            None
                        },
                    ),
                ) && (has_default ==> end < to),
                None => variable_parts(candidate) is None,
            }
        }),
{
    let ghost candidate = chars@.subrange(from as int, to as int);
    let mut e = from;
    while e < to && chars[e] != '='
        invariant
            from <= e <= to <= chars@.len(),
            candidate == chars@.subrange(from as int, to as int),
            forall|k: int| 0 <= k < e - from ==> candidate[k] != '=',
        decreases to - e,
    {
        e = e + 1;
    }
    proof {
        lemma_find_char(candidate, 0, '=');
        if e < to {
            assert(candidate[e - from] == '=');
            assert(find_char(candidate, 0, '=') == Some(e - from)) by {
                if find_char(candidate, 0, '=') != Some(e - from) {
                    match find_char(candidate, 0, '=') {
                        Some(j) => {
                            assert(candidate[j] == '=');
                        },
                        None => {},
                    }
                }
            }
            assert(candidate.take(e - from) =~= chars@.subrange(from as int, e as int));
            assert(candidate.skip(e - from + 1) =~= chars@.subrange(e + 1, to as int));
        } else {
            assert(find_char(candidate, 0, '=') is None) by {
                match find_char(candidate, 0, '=') {
                    Some(j) => {
                        assert(candidate[j] == '=');
                    },
                    None => {},
                }
            }
        }
    }
    if is_variable_name_in(chars, from, e) {
        Some((e, e < to))
    } else {
        None
    }
}

/// The prompt name that `chars[from..to]` refers to as a composition.
fn composition_name_in(chars: &[char], from: usize, to: usize) -> (result: Option<String>)
    requires
        from <= to <= chars@.len(),
    ensures
        match (result, composition_name(chars@.subrange(from as int, to as int))) {
            (Some(name), Some(expected)) => name@ == expected,
            (None, None) => true,
            _ => false,
        },
{
    let ghost s = chars@.subrange(from as int, to as int);
    if to - from < 7 {
        return None;
    }
    if !(chars[from] == 'p' && chars[from + 1] == 'r' && chars[from + 2] == 'o' && chars[from + 3]
        == 'm' && chars[from + 4] == 'p' && chars[from + 5] == 't' && chars[from + 6] == ':') {
        assert(s.take(7) != prompt_prefix()) by {
            if s.take(7) == prompt_prefix() {
                assert(s.take(7)[0] == 'p');
                assert(s.take(7)[1] == 'r');
                assert(s.take(7)[2] == 'o');
                assert(s.take(7)[3] == 'm');
                assert(s.take(7)[4] == 'p');
                assert(s.take(7)[5] == 't');
                assert(s.take(7)[6] == ':');
            }
        }
        return None;
    }
    assert(s.take(7) =~= prompt_prefix());
    let name = string_from_chars(chars, from + 7, to);
    assert(name@ =~= s.skip(7));
    match validate_name(name.as_str()) {
        Ok(()) => Some(name),
        Err(_) => None,
    }
}

/// First index at or after `from` where `c` appears twice in a row.
fn find_pair_in(chars: &[char], from: usize, c: char) -> (result: Option<usize>)
    ensures
        match result {
            Some(j) => find_pair(chars@, from as int, c) == Some(j as int),
            None => find_pair(chars@, from as int, c) is None,
        },
{
    let mut i = from;
    while i < chars.len() && i + 1 < chars.len()
        invariant
            from <= i,
            find_pair(chars@, from as int, c) == find_pair(chars@, i as int, c),
        decreases chars@.len() - i,
    {
        if chars[i] == c && chars[i + 1] == c {
            return Some(i);
        }
        i = i + 1;
    }
    None
}

/// An expression found by a scan, by character index.
pub(crate) struct Span {
    pub(crate) start: usize,
    pub(crate) end: usize,
    pub(crate) name: String,
}

pub(crate) open spec fn span_views(spans: Seq<Span>) -> Seq<(int, int, Seq<char>)> {
    spans.map_values(|p: Span| (p.start as int, p.end as int, p.name@))
}

/// Where each expression of a scan stands: after the cursor, in order, and
/// inside the template.
pub proof fn lemma_scan_bounds(s: Seq<char>, cursor: int, kind: ExpressionKind)
    requires
        0 <= cursor,
    ensures
        forall|k: int|
            0 <= k < scan(s, cursor, kind).len() ==> cursor <= (#[trigger] scan(s, cursor, kind)[k]).0
                && scan(s, cursor, kind)[k].0 + 4 <= scan(s, cursor, kind)[k].1 <= s.len(),
        forall|k: int|
            0 <= k < scan(s, cursor, kind).len() - 1 ==> (#[trigger] scan(s, cursor, kind)[k]).1
                <= scan(s, cursor, kind)[k + 1].0,
    decreases s.len() - cursor,
{
    lemma_find_pair(s, cursor, '{');
    match find_pair(s, cursor, '{') {
        None => {},
        Some(open) => {
            lemma_find_pair(s, open + 2, '}');
            match find_pair(s, open + 2, '}') {
                None => {},
                Some(close) => {
                    match selected_name(kind, trim(s.subrange(open + 2, close))) {
                        Some(name) => {
                            lemma_scan_bounds(s, close + 2, kind);
                            assert(pair_at(s, close, '}'));
                            let rest = scan(s, close + 2, kind);
                            assert(scan(s, cursor, kind) == seq![(open, close + 2, name)] + rest);
                            assert forall|k: int| 0 <= k < scan(s, cursor, kind).len() - 1 implies (#[trigger] scan(s, cursor, kind)[k]).1 <= scan(s, cursor, kind)[k + 1].0 by {
                                if k > 0 {
                                    assert(scan(s, cursor, kind)[k] == rest[k - 1]);
                                }
                                assert(scan(s, cursor, kind)[k + 1] == rest[k]);
                            }
                            assert forall|k: int| 0 <= k < scan(s, cursor, kind).len() implies cursor <= (#[trigger] scan(s, cursor, kind)[k]).0 && scan(s, cursor, kind)[k].0 + 4 <= scan(s, cursor, kind)[k].1 <= s.len() by {
                                if k > 0 {
                                    assert(scan(s, cursor, kind)[k] == rest[k - 1]);
                                }
                            }
                        },
                        None => {
                            lemma_scan_bounds(s, open + 2, kind);
                            assert(scan(s, cursor, kind) == scan(s, open + 2, kind));
                        },
                    }
                },
            }
        },
    }
}

/// Each expression of a scan starts at a `{{`, ends right after the first
/// `}}` that follows it, and carries the name that its trimmed content
/// selects.
pub proof fn lemma_scan_entries(s: Seq<char>, cursor: int, kind: ExpressionKind)
    requires
        0 <= cursor,
    ensures
        forall|k: int|
            0 <= k < scan(s, cursor, kind).len() ==> {
                let e = #[trigger] scan(s, cursor, kind)[k];
                &&& pair_at(s, e.0, '{')
                &&& find_pair(s, e.0 + 2, '}') == Some(e.1 - 2)
                &&& selected_name(kind, trim(s.subrange(e.0 + 2, e.1 - 2))) == Some(e.2)
            },
    decreases s.len() - cursor,
{
    lemma_find_pair(s, cursor, '{');
    match find_pair(s, cursor, '{') {
        None => {},
        Some(open) => {
            lemma_find_pair(s, open + 2, '}');
            match find_pair(s, open + 2, '}') {
                None => {},
                Some(close) => {
                    match selected_name(kind, trim(s.subrange(open + 2, close))) {
                        Some(name) => {
                            lemma_scan_entries(s, close + 2, kind);
                            let rest = scan(s, close + 2, kind);
                            assert(scan(s, cursor, kind) == seq![(open, close + 2, name)] + rest);
                            assert forall|k: int| 0 < k < scan(s, cursor, kind).len() implies #[trigger] scan(s, cursor, kind)[k] == rest[k - 1] by {}
                        },
                        None => {
                            lemma_scan_entries(s, open + 2, kind);
                            assert(scan(s, cursor, kind) == scan(s, open + 2, kind));
                        },
                    }
                },
            }
        },
    }
}

/// A trimmed expression that names a composition never names a variable:
/// its seventh character is the `:` of `prompt:`, which no variable name
/// holds.
pub proof fn lemma_kinds_exclusive(candidate: Seq<char>)
    ensures
        !(selected_name(ExpressionKind::Variable, candidate) is Some && selected_name(
            ExpressionKind::Composition,
            candidate,
        ) is Some),
{
    if composition_name(candidate) is Some {
        assert(forall|i: int| 0 <= i < 7 ==> candidate[i] == #[trigger] prompt_prefix()[i]) by {
            assert forall|i: int| 0 <= i < 7 implies candidate[i] == #[trigger] prompt_prefix()[i] by {
                assert(candidate.take(7)[i] == candidate[i]);
            }
        }
        assert(candidate[6] == ':');
        lemma_find_char(candidate, 0, '=');
        match find_char(candidate, 0, '=') {
            Some(e) => {
                assert(e >= 7) by {
                    if e < 7 {
                        assert(candidate[e] == prompt_prefix()[e]);
                    }
                }
                assert(candidate.take(e)[6] == ':');
                assert(!is_variable_name(candidate.take(e)));
            },
            None => {
                assert(!is_variable_name(candidate));
            },
        }
    }
}

/// What a composition refers to: each `{{prompt:name}}` found in a template
/// has a valid prompt name, and its content, trimmed, is `prompt:` followed
/// by that name.
pub proof fn lemma_composition_references(template: Seq<char>)
    ensures
        forall|k: int|
            0 <= k < scan(template, 0, ExpressionKind::Composition).len() ==> {
                let e = #[trigger] scan(template, 0, ExpressionKind::Composition)[k];
                &&& is_valid_name(e.2)
                &&& trim(template.subrange(e.0 + 2, e.1 - 2)) == prompt_prefix() + e.2
            },
{
    lemma_scan_entries(template, 0, ExpressionKind::Composition);
    assert forall|k: int| 0 <= k < scan(template, 0, ExpressionKind::Composition).len() implies {
        let e = #[trigger] scan(template, 0, ExpressionKind::Composition)[k];
        &&& is_valid_name(e.2)
        &&& trim(template.subrange(e.0 + 2, e.1 - 2)) == prompt_prefix() + e.2
    } by {
        let e = scan(template, 0, ExpressionKind::Composition)[k];
        let c = trim(template.subrange(e.0 + 2, e.1 - 2));
        assert(composition_name(c) == Some(e.2));
        assert(c =~= c.take(7) + c.skip(7));
    }
}

/// Variables and compositions never share a start: no `{{name}}` variable
/// of a template begins where one of its `{{prompt:name}}` compositions
/// begins, by character index or by byte offset.
pub proof fn lemma_variables_and_compositions_apart(template: Seq<char>)
    ensures
        forall|j: int, k: int|
            0 <= j < scan(template, 0, ExpressionKind::Variable).len() && 0 <= k < scan(
                template,
                0,
                ExpressionKind::Composition,
            ).len() ==> {
                let v = #[trigger] scan(template, 0, ExpressionKind::Variable)[j];
                let c = #[trigger] scan(template, 0, ExpressionKind::Composition)[k];
                &&& v.0 != c.0
                &&& byte_offset(template, v.0) != byte_offset(template, c.0)
            },
{
    let vs = scan(template, 0, ExpressionKind::Variable);
    let cs = scan(template, 0, ExpressionKind::Composition);
    lemma_scan_entries(template, 0, ExpressionKind::Variable);
    lemma_scan_entries(template, 0, ExpressionKind::Composition);
    lemma_scan_bounds(template, 0, ExpressionKind::Variable);
    lemma_scan_bounds(template, 0, ExpressionKind::Composition);
    assert forall|j: int, k: int| 0 <= j < vs.len() && 0 <= k < cs.len() implies {
        let v = #[trigger] vs[j];
        let c = #[trigger] cs[k];
        &&& v.0 != c.0
        &&& byte_offset(template, v.0) != byte_offset(template, c.0)
    } by {
        let v = vs[j];
        let c = cs[k];
        if v.0 == c.0 {
            assert(v.1 == c.1);
            lemma_kinds_exclusive(trim(template.subrange(v.0 + 2, v.1 - 2)));
        }
        if v.0 < c.0 {
            lemma_byte_offset_strict(template, v.0, c.0);
        } else if c.0 < v.0 {
            lemma_byte_offset_strict(template, c.0, v.0);
        }
    }
}

/// Collects the expressions of kind `kind`, by character index.
pub(crate) fn scan_chars(chars: &[char], kind: ExpressionKind) -> (result: Vec<Span>)
    ensures
        span_views(result@) == scan(chars@, 0, kind),
{
    let ghost s = chars@;
    let mut result: Vec<Span> = Vec::new();
    let mut cursor: usize = 0;
    loop
        invariant
            s == chars@,
            span_views(result@) + scan(s, cursor as int, kind) == scan(s, 0, kind),
        ensures
            span_views(result@) == scan(s, 0, kind),
        decreases chars@.len() - cursor,
    {
        proof {
            lemma_find_pair(s, cursor as int, '{');
        }
        if cursor >= chars.len() {
            assert(scan(s, cursor as int, kind) =~= Seq::<(int, int, Seq<char>)>::empty());
            assert(span_views(result@) + scan(s, cursor as int, kind) =~= span_views(result@));
            break;
        }
        let open = match find_pair_in(chars, cursor, '{') {
            None => {
                assert(span_views(result@) + scan(s, cursor as int, kind) =~= span_views(result@));
                break;
            },
            Some(open) => open,
        };
        proof {
            lemma_find_pair(s, open + 2, '}');
        }
        let close = match find_pair_in(chars, open + 2, '}') {
            None => {
                assert(span_views(result@) + scan(s, cursor as int, kind) =~= span_views(result@));
                break;
            },
            Some(close) => close,
        };
        let (a, b) = trim_bounds(chars, open + 2, close);
        let name = match kind {
            ExpressionKind::Variable => match variable_parts_in(chars, a, b) {
                Some((end, _)) => Some(string_from_chars(chars, a, end)),
                None => None,
            },
            ExpressionKind::Composition => composition_name_in(chars, a, b),
        };
        match name {
            Some(name) => {
                let ghost old_views = span_views(result@);
                let ghost entry = (open as int, close + 2, name@);
                result.push(Span { start: open, end: close + 2, name });
                assert(span_views(result@) =~= old_views.push(entry));
                assert(scan(s, cursor as int, kind) == seq![entry] + scan(s, close + 2, kind));
                assert(old_views.push(entry) + scan(s, close + 2, kind) =~= old_views + (seq![entry]
                    + scan(s, close + 2, kind)));
                cursor = close + 2;
            },
            None => {
                cursor = open + 2;
            },
        }
    }
    result
}

/// The `{{name}}` variables of a template, in order. An expression whose
/// content is not a variable name is skipped, and the scan resumes right
/// after its `{{`.
pub fn placeholders(template: &str) -> (result: Vec<Placeholder>)
    ensures
        result@.len() == scan(template@, 0, ExpressionKind::Variable).len(),
        forall|i: int|
            #![trigger result@[i]]
            0 <= i < result@.len() ==> {
                let (start, end, name) = scan(template@, 0, ExpressionKind::Variable)[i];
                &&& result@[i].start == byte_offset(template@, start)
                &&& result@[i].end == byte_offset(template@, end)
                &&& result@[i].name@ == name
            },
{
    let chars = chars_of(template);
    let offsets = byte_offsets(chars.as_slice(), byte_length(template));
    let spans = scan_chars(chars.as_slice(), ExpressionKind::Variable);
    let ghost expected = scan(template@, 0, ExpressionKind::Variable);
    proof {
        lemma_scan_bounds(template@, 0, ExpressionKind::Variable);
    }
    let mut result: Vec<Placeholder> = Vec::new();
    let mut i: usize = 0;
    while i < spans.len()
        invariant
            i <= spans@.len(),
            chars@ == template@,
            span_views(spans@) == expected,
            offsets@.len() == chars@.len() + 1,
            forall|k: int| 0 <= k <= chars@.len() ==> offsets@[k] == byte_offset(chars@, k),
            forall|k: int| 0 <= k < expected.len() ==> (#[trigger] expected[k]).1 <= chars@.len(),
            forall|k: int| 0 <= k < expected.len() ==> 0 <= (#[trigger] expected[k]).0 <= expected[k].1,
            result@.len() == i,
            forall|k: int|
                #![trigger result@[k]]
                0 <= k < i ==> {
                    let (start, end, name) = expected[k];
                    &&& result@[k].start == byte_offset(template@, start)
                    &&& result@[k].end == byte_offset(template@, end)
                    &&& result@[k].name@ == name
                },
        decreases spans@.len() - i,
    {
        let span = &spans[i];
        assert(expected[i as int] == (span.start as int, span.end as int, span.name@));
        result.push(
            Placeholder {
                start: offsets[span.start],
                end: offsets[span.end],
                name: span.name.clone(),
            },
        );
        i = i + 1;
    }
    result
}

/// The `{{prompt:name}}` references of a template, in order. An expression
/// whose content is not `prompt:` and a valid prompt name is skipped, and
/// the scan resumes right after its `{{`.
pub fn compositions(template: &str) -> (result: Vec<Composition>)
    ensures
        result@.len() == scan(template@, 0, ExpressionKind::Composition).len(),
        forall|i: int|
            #![trigger result@[i]]
            0 <= i < result@.len() ==> {
                let (start, end, name) = scan(template@, 0, ExpressionKind::Composition)[i];
                &&& result@[i].start == byte_offset(template@, start)
                &&& result@[i].end == byte_offset(template@, end)
                &&& result@[i].name@ == name
            },
{
    let chars = chars_of(template);
    let offsets = byte_offsets(chars.as_slice(), byte_length(template));
    let spans = scan_chars(chars.as_slice(), ExpressionKind::Composition);
    let ghost expected = scan(template@, 0, ExpressionKind::Composition);
    proof {
        lemma_scan_bounds(template@, 0, ExpressionKind::Composition);
    }
    let mut result: Vec<Composition> = Vec::new();
    let mut i: usize = 0;
    while i < spans.len()
        invariant
            i <= spans@.len(),
            chars@ == template@,
            span_views(spans@) == expected,
            offsets@.len() == chars@.len() + 1,
            forall|k: int| 0 <= k <= chars@.len() ==> offsets@[k] == byte_offset(chars@, k),
            forall|k: int| 0 <= k < expected.len() ==> (#[trigger] expected[k]).1 <= chars@.len(),
            forall|k: int| 0 <= k < expected.len() ==> 0 <= (#[trigger] expected[k]).0 <= expected[k].1,
            result@.len() == i,
            forall|k: int|
                #![trigger result@[k]]
                0 <= k < i ==> {
                    let (start, end, name) = expected[k];
                    &&& result@[k].start == byte_offset(template@, start)
                    &&& result@[k].end == byte_offset(template@, end)
                    &&& result@[k].name@ == name
                },
        decreases spans@.len() - i,
    {
        let span = &spans[i];
        assert(expected[i as int] == (span.start as int, span.end as int, span.name@));
        result.push(
            Composition {
                start: offsets[span.start],
                end: offsets[span.end],
                name: span.name.clone(),
            },
        );
        i = i + 1;
    }
    result
}

/// Index after the last newline before `i` in `chars`, or 0.
fn line_start_in(chars: &[char], i: usize) -> (result: usize)
    requires
        i <= chars@.len(),
    ensures
        result == line_start(chars@, i as int),
        result <= i,
{
    let mut j = i;
    while j > 0 && chars[j - 1] != '\n'
        invariant
            j <= i <= chars@.len(),
            line_start(chars@, j as int) == line_start(chars@, i as int),
        decreases j,
    {
        j = j - 1;
    }
    j
}

/// Number of newlines in `chars[..i]`.
fn count_newlines(chars: &[char], i: usize) -> (result: usize)
    requires
        i <= chars@.len(),
    ensures
        result == count_char(chars@.take(i as int), '\n'),
        result <= i,
{
    let mut count: usize = 0;
    let mut k: usize = 0;
    while k < i
        invariant
            k <= i <= chars@.len(),
            count == count_char(chars@.take(k as int), '\n'),
            count <= k,
        decreases i - k,
    {
        assert(chars@.take(k + 1).drop_last() =~= chars@.take(k as int));
        if chars[k] == '\n' {
            count = count + 1;
        }
        k = k + 1;
    }
    count
}

/// The syntax error for the expression opening at `position`.
fn syntax_error(chars: &[char], position: usize, line_offset: usize, detail: String) -> (result: Error)
    requires
        position + 1 < chars@.len(),
        line_offset + chars@.len() <= usize::MAX,
    ensures
        result matches Error::Message(text) && text@ == syntax_error_text(
            chars@,
            position as int,
            line_offset as nat,
            detail@,
        ),
{
    let line = line_offset + count_newlines(chars, position) + 1;
    let column = position - line_start_in(chars, position) + 1;
    let mut text = "invalid template syntax at line ".to_owned();
    push_decimal(&mut text, line as u64);
    push_str(&mut text, ", column ");
    push_decimal(&mut text, column as u64);
    push_str(&mut text, ": ");
    push_str(&mut text, detail.as_str());
    Error::Message(text)
}

/// Checks the template syntax of `template`, whose first line is line
/// `line_offset + 1` of the file it comes from: every `{{` needs a later
/// `}}`, and the trimmed content between them must be a variable name
/// (with, after a `=`, a default value) or `prompt:` and a prompt name. The
/// error names the line and column of the first bad `{{`.
pub fn validate_with_line_offset(template: &str, line_offset: usize) -> (result: Result<(), Error>)
    requires
        line_offset + template@.len() <= usize::MAX,
    ensures
        match syntax_check(template@, 0) {
            None => result is Ok,
            Some((open, problem)) => fails_with(
                result,
                syntax_error_text(
                    template@,
                    open,
                    line_offset as nat,
                    problem_detail(template@, open, problem),
                ),
            ),
        },
{
    let chars = chars_of(template);
    let ghost s = chars@;
    let mut cursor: usize = 0;
    loop
        invariant
            s == chars@,
            s == template@,
            line_offset + s.len() <= usize::MAX,
            syntax_check(s, cursor as int) == syntax_check(s, 0),
        decreases s.len() - cursor,
    {
        proof {
            lemma_find_pair(s, cursor as int, '{');
        }
        let open = match find_pair_in(chars.as_slice(), cursor, '{') {
            None => {
                return Ok(());
            },
            Some(open) => open,
        };
        proof {
            lemma_find_pair(s, open + 2, '}');
        }
        let close = match find_pair_in(chars.as_slice(), open + 2, '}') {
            None => {
                let detail = "unclosed `{{`".to_owned();
                return Err(syntax_error(chars.as_slice(), open, line_offset, detail));
            },
            Some(close) => close,
        };
        let (a, b) = trim_bounds(chars.as_slice(), open + 2, close);
        let valid = variable_parts_in(chars.as_slice(), a, b).is_some() || composition_name_in(
            chars.as_slice(),
            a,
            b,
        ).is_some();
        if !valid {
            let mut detail = "invalid expression `".to_owned();
            push_chars(&mut detail, chars.as_slice(), open, close + 2);
            push_str(&mut detail, "`");
            return Err(syntax_error(chars.as_slice(), open, line_offset, detail));
        }
        cursor = close + 2;
    }
}

/// Checks the template syntax of `template` (see
/// [`validate_with_line_offset`]); lines are counted from 1.
pub fn validate(template: &str) -> (result: Result<(), Error>)
    ensures
        match syntax_check(template@, 0) {
            None => result is Ok,
            Some((open, problem)) => fails_with(
                result,
                syntax_error_text(template@, open, 0, problem_detail(template@, open, problem)),
            ),
        },
{
    let chars = chars_of(template);
    assert(chars@.len() <= usize::MAX);
    validate_with_line_offset(template, 0)
}

/// The map that a list of (key, value) entries describes.
pub open spec fn entries_map(entries: Seq<(String, String)>) -> Map<Seq<char>, Seq<char>>
    decreases entries.len(),
{
    if entries.len() == 0 {
        Map::empty()
    } else {
        entries_map(entries.drop_last()).insert(entries.last().0@, entries.last().1@)
    }
}

/// The map of a list of entries has finitely many keys.
pub proof fn lemma_entries_map_finite(entries: Seq<(String, String)>)
    ensures
        entries_map(entries).dom().finite(),
    decreases entries.len(),
{
    if entries.len() > 0 {
        lemma_entries_map_finite(entries.drop_last());
    }
}

/// No two entries have the same key.
pub open spec fn distinct_keys(entries: Seq<(String, String)>) -> bool {
    forall|i: int, j: int| 0 <= i < j < entries.len() ==> (#[trigger] entries[i]).0@ != (#[trigger] entries[j]).0@
}

pub proof fn lemma_entries_map(entries: Seq<(String, String)>, key: Seq<char>)
    requires
        distinct_keys(entries),
    ensures
        entries_map(entries).contains_key(key) <==> exists|i: int| 0 <= i < entries.len() && (#[trigger] entries[i]).0@ == key,
        forall|i: int| 0 <= i < entries.len() && (#[trigger] entries[i]).0@ == key ==> entries_map(entries)[key] == entries[i].1@,
    decreases entries.len(),
{
    if entries.len() > 0 {
        let rest = entries.drop_last();
        assert(distinct_keys(rest)) by {
            assert forall|i: int, j: int| 0 <= i < j < rest.len() implies (#[trigger] rest[i]).0@ != (#[trigger] rest[j]).0@ by {
                assert(rest[i] == entries[i] && rest[j] == entries[j]);
            }
        }
        lemma_entries_map(rest, key);
        if entries_map(entries).contains_key(key) && key != entries.last().0@ {
            let i = choose|i: int| 0 <= i < rest.len() && (#[trigger] rest[i]).0@ == key;
            assert(entries[i] == rest[i]);
        }
        assert forall|i: int| 0 <= i < entries.len() && (#[trigger] entries[i]).0@ == key implies entries_map(entries)[key] == entries[i].1@ by {
            if i < entries.len() - 1 {
                assert(rest[i] == entries[i]);
                assert(entries[i].0@ != entries.last().0@);
            }
        }
        if exists|i: int| 0 <= i < entries.len() && (#[trigger] entries[i]).0@ == key {
            let i = choose|i: int| 0 <= i < entries.len() && (#[trigger] entries[i]).0@ == key;
            if i < entries.len() - 1 {
                assert(rest[i] == entries[i]);
            }
        }
    }
}

/// Values for the variables of a template, by variable name.
pub struct Values {
    entries: Vec<(String, String)>,
}

impl View for Values {
    type V = Map<Seq<char>, Seq<char>>;

    closed spec fn view(&self) -> Map<Seq<char>, Seq<char>> {
        entries_map(self.entries@)
    }
}

impl Values {
    #[verifier::type_invariant]
    spec fn keys_are_distinct(self) -> bool {
        distinct_keys(self.entries@)
    }

    /// Finitely many variables have values.
    pub proof fn lemma_finite(&self)
        ensures
            self@.dom().finite(),
    {
        lemma_entries_map_finite(self.entries@);
    }

    /// No values.
    pub fn new() -> (result: Values)
        ensures
            result@ == Map::<Seq<char>, Seq<char>>::empty(),
    {
        let result = Values { entries: Vec::new() };
        assert(result@ == entries_map(Seq::<(String, String)>::empty()));
        result
    }

    /// Position of the entry for `key`.
    fn position(&self, key: &str) -> (result: Option<usize>)
        ensures
            match result {
                Some(i) => i < self.entries@.len() && self.entries@[i as int].0@ == key@,
                None => forall|i: int| 0 <= i < self.entries@.len() ==> (#[trigger] self.entries@[i]).0@ != key@,
            },
    {
        let mut i: usize = 0;
        while i < self.entries.len()
            invariant
                i <= self.entries@.len(),
                forall|k: int| 0 <= k < i ==> (#[trigger] self.entries@[k]).0@ != key@,
            decreases self.entries@.len() - i,
        {
            if same_text(self.entries[i].0.as_str(), key) {
                return Some(i);
            }
            i = i + 1;
        }
        None
    }

    /// The value for `key`, if there is one.
    pub fn get(&self, key: &str) -> (result: Option<&String>)
        ensures
            match result {
                Some(value) => self@.contains_key(key@) && value@ == self@[key@],
                None => !self@.contains_key(key@),
            },
    {
        proof {
            use_type_invariant(self);
            lemma_entries_map(self.entries@, key@);
        }
        match self.position(key) {
            Some(i) => Some(&self.entries[i].1),
            None => None,
        }
    }

    /// Whether there is a value for `key`.
    pub fn contains_key(&self, key: &str) -> (result: bool)
        ensures
            result == self@.contains_key(key@),
    {
        self.get(key).is_some()
    }

    /// Sets the value for `key`, returning the value it replaces.
    pub fn insert(&mut self, key: String, value: String) -> (result: Option<String>)
        ensures
            final(self)@ == old(self)@.insert(key@, value@),
            match result {
                Some(previous) => old(self)@.contains_key(key@) && previous@ == old(self)@[key@],
                None => !old(self)@.contains_key(key@),
            },
    {
        proof {
            use_type_invariant(&*self);
            lemma_entries_map(self.entries@, key@);
        }
        let ghost before = self.entries@;
        let position = self.position(key.as_str());
        let mut entries: Vec<(String, String)> = Vec::new();
        std::mem::swap(&mut entries, &mut self.entries);
        assert(entries@ == before);
        let result = match position {
            Some(i) => {
                let (_, previous) = entries.remove(i);
                entries.insert(i, (key, value));
                Some(previous)
            },
            None => {
                entries.push((key, value));
                None
            },
        };
        let ghost after = entries@;
        proof {
            assert(distinct_keys(after)) by {
                assert forall|a: int, b: int| 0 <= a < b < after.len() implies (#[trigger] after[a]).0@ != (#[trigger] after[b]).0@ by {
                    match position {
                        Some(i) => {
                            assert(after[a].0@ == before[a].0@);
                            assert(after[b].0@ == before[b].0@);
                        },
                        None => {
                            if b < before.len() {
                                assert(after[a] == before[a] && after[b] == before[b]);
                            } else {
                                assert(after[a] == before[a]);
                            }
                        },
                    }
                }
            }
            assert forall|k: Seq<char>| entries_map(after).contains_key(k) <==> entries_map(before).insert(key@, value@).contains_key(k) by {
                lemma_entries_map(after, k);
                lemma_entries_map(before, k);
                if entries_map(after).contains_key(k) {
                    let i = choose|i: int| 0 <= i < after.len() && (#[trigger] after[i]).0@ == k;
                    if i < before.len() && after[i].0@ == before[i].0@ {
                        assert(before[i].0@ == k);
                    }
                }
                if entries_map(before).contains_key(k) {
                    let i = choose|i: int| 0 <= i < before.len() && (#[trigger] before[i]).0@ == k;
                    assert(after[i].0@ == before[i].0@);
                }
                if k == key@ {
                    match position {
                        Some(i) => assert(after[i as int].0@ == k),
                        None => assert(after[before.len() as int].0@ == k),
                    }
                }
            }
            assert forall|k: Seq<char>| entries_map(after).contains_key(k) implies entries_map(after)[k] == entries_map(before).insert(key@, value@)[k] by {
                lemma_entries_map(after, k);
                lemma_entries_map(before, k);
                let i = choose|i: int| 0 <= i < after.len() && (#[trigger] after[i]).0@ == k;
                if k != key@ {
                    assert(after[i] == before[i]);
                }
            }
            assert(entries_map(after) =~= entries_map(before).insert(key@, value@));
        }
        self.entries = entries;
        result
    }
}

/// The default value that the variable expression `span` of `s` gives, if
/// any.
pub open spec fn expression_default(s: Seq<char>, span: (int, int, Seq<char>)) -> Option<Seq<char>> {
    match variable_parts(trim(s.subrange(span.0 + 2, span.1 - 2))) {
        Some((_, default)) => default,
        None => None,
    }
}

/// The value that the expression `span` takes: the value given for its
/// variable, else its default.
pub open spec fn expression_value(
    s: Seq<char>,
    span: (int, int, Seq<char>),
    values: Map<Seq<char>, Seq<char>>,
) -> Option<Seq<char>> {
    if values.contains_key(span.2) {
        Some(values[span.2])
    } else {
        expression_default(s, span)
    }
}

/// The first expression of `spans` whose variable has neither a value nor a
/// default.
pub open spec fn first_missing(
    s: Seq<char>,
    spans: Seq<(int, int, Seq<char>)>,
    values: Map<Seq<char>, Seq<char>>,
) -> Option<Seq<char>>
    decreases spans.len(),
{
    if spans.len() == 0 {
        None
    } else if expression_value(s, spans[0], values) is None {
        Some(spans[0].2)
    } else {
        first_missing(s, spans.drop_first(), values)
    }
}

/// `s` from `cursor` on, with the expressions `spans[k..]` replaced by their
/// values.
pub open spec fn fill(
    s: Seq<char>,
    spans: Seq<(int, int, Seq<char>)>,
    k: int,
    cursor: int,
    values: Map<Seq<char>, Seq<char>>,
) -> Seq<char>
    decreases spans.len() - k,
{
    if k < 0 || k >= spans.len() {
        s.subrange(cursor, s.len() as int)
    } else {
        s.subrange(cursor, spans[k].0) + expression_value(s, spans[k], values)->0 + fill(
            s,
            spans,
            k + 1,
            spans[k].1,
            values,
        )
    }
}

/// The default value of the variable expression `chars[start..end]`.
pub(crate) fn default_in(chars: &[char], start: usize, end: usize) -> (result: Option<String>)
    requires
        start + 4 <= end <= chars@.len(),
    ensures
        match (result, expression_default(chars@, (start as int, end as int, Seq::empty()))) {
            (Some(text), Some(expected)) => text@ == expected,
            (None, None) => true,
            _ => false,
        },
{
    let (a, b) = trim_bounds(chars, start + 2, end - 2);
    match variable_parts_in(chars, a, b) {
        Some((e, true)) => {
            let text = string_from_chars(chars, e + 1, b);
            Some(text)
        },
        _ => None,
    }
}

/// What rendering `template` with `values` gives: the text with each
/// variable replaced by its value.
pub open spec fn rendered(template: Seq<char>, values: Map<Seq<char>, Seq<char>>) -> Seq<char> {
    fill(template, scan(template, 0, ExpressionKind::Variable), 0, 0, values)
}

/// Renders `template`: checks its syntax, then replaces every variable by its
/// value, or by its default where no value is given. A variable with neither
/// fails with `MissingVariable`, naming the first such variable; compositions
/// and single braces stay as they are.
pub fn render(template: &str, values: &Values) -> (result: Result<String, Error>)
    ensures
        match syntax_check(template@, 0) {
            Some((open, problem)) => fails_with(
                result,
                syntax_error_text(template@, open, 0, problem_detail(template@, open, problem)),
            ),
            None => match first_missing(template@, scan(template@, 0, ExpressionKind::Variable), values@) {
                Some(name) => result matches Err(Error::MissingVariable(n)) && n@ == name,
                None => result matches Ok(text) && text@ == rendered(template@, values@),
            },
        },
{
    match validate(template) {
        Ok(()) => {},
        Err(error) => {
            return Err(error);
        },
    }
    let chars = chars_of(template);
    let spans = scan_chars(chars.as_slice(), ExpressionKind::Variable);
    let ghost s = chars@;
    let ghost sp = scan(s, 0, ExpressionKind::Variable);
    proof {
        lemma_scan_bounds(s, 0, ExpressionKind::Variable);
        assert(sp.skip(0) =~= sp);
    }
    let mut output = String::new();
    let mut cursor: usize = 0;
    let mut k: usize = 0;
    while k < spans.len()
        invariant
            s == chars@,
            s == template@,
            syntax_check(template@, 0) is None,
            span_views(spans@) == sp,
            sp == scan(s, 0, ExpressionKind::Variable),
            k <= sp.len(),
            k == 0 ==> cursor == 0,
            k > 0 ==> cursor == sp[k - 1].1,
            k < sp.len() ==> cursor <= sp[k as int].0,
            cursor <= s.len(),
            forall|j: int| 0 <= j < sp.len() ==> 0 <= (#[trigger] sp[j]).0 && sp[j].0 + 4 <= sp[j].1 <= s.len(),
            forall|j: int| 0 <= j < sp.len() - 1 ==> (#[trigger] sp[j]).1 <= sp[j + 1].0,
            first_missing(s, sp, values@) == first_missing(s, sp.skip(k as int), values@),
            output@ + fill(s, sp, k as int, cursor as int, values@) == fill(s, sp, 0, 0, values@),
        decreases sp.len() - k,
    {
        let span = &spans[k];
        assert(sp[k as int] == (span.start as int, span.end as int, span.name@));
        assert(sp.skip(k as int)[0] == sp[k as int]);
        assert(sp.skip(k as int).drop_first() =~= sp.skip(k + 1));
        let given = values.get(span.name.as_str());
        let default = match given {
            Some(_) => None,
            None => default_in(chars.as_slice(), span.start, span.end),
        };
        let value: &String = match given {
            Some(value) => value,
            None => match &default {
                Some(text) => text,
                None => {
                    assert(expression_value(s, sp[k as int], values@) is None);
                    assert(first_missing(s, sp.skip(k as int), values@) == Some(span.name@));
                    let name = span.name.clone();
                    assert(name@ == span.name@);
                    assert(syntax_check(template@, 0) is None);
                    assert(first_missing(template@, scan(template@, 0, ExpressionKind::Variable), values@) == Some(name@));
                    return Err(Error::MissingVariable(name));
                },
            },
        };
        assert(expression_value(s, sp[k as int], values@) == Some(value@));
        let ghost before = output@;
        push_chars(&mut output, chars.as_slice(), cursor, span.start);
        push_str(&mut output, value.as_str());
        assert(output@ == before + s.subrange(cursor as int, span.start as int) + value@);
        assert(output@ + fill(s, sp, k + 1, span.end as int, values@) =~= before + fill(s, sp, k as int, cursor as int, values@));
        cursor = span.end;
        k = k + 1;
    }
    assert(sp.skip(k as int) =~= Seq::<(int, int, Seq<char>)>::empty());
    let ghost before = output@;
    push_chars(&mut output, chars.as_slice(), cursor, chars.len());
    assert(output@ =~= before + fill(s, sp, k as int, cursor as int, values@));
    Ok(output)
}

/// A template without variables renders as itself, whatever the values:
/// single braces, compositions and all other text stay as they are.
pub proof fn lemma_render_without_variables(template: Seq<char>, values: Map<Seq<char>, Seq<char>>)
    requires
        scan(template, 0, ExpressionKind::Variable).len() == 0,
    ensures
        first_missing(template, scan(template, 0, ExpressionKind::Variable), values) is None,
        rendered(template, values) == template,
{
    assert(template.subrange(0, template.len() as int) =~= template);
}

/// Given values win over defaults, and a variable that has either renders
/// without error: rendering fails only on a variable that has neither.
pub proof fn lemma_value_before_default(
    s: Seq<char>,
    span: (int, int, Seq<char>),
    values: Map<Seq<char>, Seq<char>>,
)
    ensures
        values.contains_key(span.2) ==> expression_value(s, span, values) == Some(values[span.2]),
        !values.contains_key(span.2) ==> expression_value(s, span, values) == expression_default(s, span),
{
}

} // verus!
