//! `search`: one tab-separated line per match.
use vstd::prelude::*;

use crate::db::SearchResult;
use crate::text::{join, join_texts, push_signed, push_str, signed_decimal};

use super::{clean_inline, inline_text};

verus! {

/// A match as a line: id, name and description, separated by tabs, the
/// description kept on one line.
pub open spec fn search_line(result: SearchResult) -> Seq<char> {
    signed_decimal(result.id as int) + seq!['\t'] + result.name@ + seq!['\t'] + inline_text(
        result.description@,
    )
}

/// All matches, one line each.
pub open spec fn search_text(results: Seq<SearchResult>) -> Seq<char> {
    join(results.map_values(|r: SearchResult| search_line(r)), "\n"@) + "\n"@
}

/// Writes one match as a line (see [`search_line`]).
fn format_search_line(result: &SearchResult) -> (line: String)
    ensures
        line@ == search_line(*result),
{
    let mut line = String::new();
    push_signed(&mut line, result.id);
    push_str(&mut line, "\t");
    push_str(&mut line, result.name.as_str());
    push_str(&mut line, "\t");
    let description = clean_inline(result.description.as_str());
    push_str(&mut line, description.as_str());
    assert(line@ =~= search_line(*result)) by {
        reveal_strlit("\t");
    }
    line
}

/// What `search` writes: nothing when nothing matched, else one line per
/// match (see [`search_text`]).
pub fn render_search_results(results: &[SearchResult]) -> (output: Option<String>)
    ensures
        results@.len() == 0 ==> output is None,
        results@.len() > 0 ==> (output matches Some(text) && text@ == search_text(results@)),
{
    if results.len() == 0 {
        return None;
    }
    let mut lines: Vec<String> = Vec::new();
    let mut i: usize = 0;
    while i < results.len()
        invariant
            i <= results@.len(),
            lines@.map_values(|t: String| t@) == results@.take(i as int).map_values(
                |r: SearchResult| search_line(r),
            ),
        decreases results@.len() - i,
    {
        let ghost before = lines@;
        let line = format_search_line(&results[i]);
        lines.push(line);
        assert(lines@ == before.push(line));
        assert(lines@.map_values(|t: String| t@) =~= before.map_values(|t: String| t@).push(line@));
        assert(results@.take(i + 1).map_values(|r: SearchResult| search_line(r)) =~= results@.take(
            i as int,
        ).map_values(|r: SearchResult| search_line(r)).push(search_line(results@[i as int])));
        i = i + 1;
    }
    assert(results@.take(results@.len() as int) =~= results@);
    let mut text = join_texts(&lines, "\n");
    push_str(&mut text, "\n");
    Some(text)
}

} // verus!
