//! `recent`, `pick` and the name completions: lists of prompt names.
use vstd::prelude::*;

use crate::prompt::text_views;
use crate::text::{join, join_texts, push_str, starts_with};

verus! {

/// The names one per line, or nothing when there are none.
pub fn names_output(names: &Vec<String>) -> (result: Option<String>)
    ensures
        names@.len() == 0 ==> result is None,
        names@.len() > 0 ==> (result matches Some(text) && text@ == join(text_views(names@), "\n"@)
            + "\n"@),
{
    if names.len() == 0 {
        return None;
    }
    let mut text = join_texts(names, "\n");
    push_str(&mut text, "\n");
    Some(text)
}

/// The line that `pick` writes for the picked name.
pub fn picked_line(name: &str) -> (result: String)
    ensures
        result@ == name@ + "\n"@,
{
    let mut text = name.to_owned();
    push_str(&mut text, "\n");
    text
}

/// The names that complete `current`: those that start with it, in order.
pub open spec fn completions_of(names: Seq<Seq<char>>, current: Seq<char>) -> Seq<Seq<char>> {
    names.filter(|name: Seq<char>| starts_with(name, current))
}

fn text_starts_with(text: &str, prefix: &str) -> (result: bool)
    ensures
        result == starts_with(text@, prefix@),
{
    let t = crate::text::chars_of(text);
    let p = crate::text::chars_of(prefix);
    if p.len() > t.len() {
        return false;
    }
    let mut i: usize = 0;
    while i < p.len()
        invariant
            t@ == text@,
            p@ == prefix@,
            p@.len() <= t@.len(),
            i <= p@.len(),
            forall|k: int| 0 <= k < i ==> t@[k] == p@[k],
        decreases p@.len() - i,
    {
        if t[i] != p[i] {
            assert(text@.take(prefix@.len() as int)[i as int] != prefix@[i as int]);
            return false;
        }
        i = i + 1;
    }
    assert(text@.take(prefix@.len() as int) =~= prefix@);
    true
}

/// The prompt names that complete `current` (see [`completions_of`]).
pub fn matching_names(names: Vec<String>, current: &str) -> (result: Vec<String>)
    ensures
        text_views(result@) == completions_of(text_views(names@), current@),
{
    let ghost views = text_views(names@);
    let ghost keep = |name: Seq<char>| starts_with(name, current@);
    let mut result: Vec<String> = Vec::new();
    let mut i: usize = 0;
    while i < names.len()
        invariant
            i <= names@.len(),
            views == text_views(names@),
            keep == (|name: Seq<char>| starts_with(name, current@)),
            text_views(result@) == views.take(i as int).filter(keep),
        decreases names@.len() - i,
    {
        proof {
            assert(views.take(i + 1) =~= views.take(i as int).push(views[i as int]));
            views.take(i as int).lemma_filter_push(views[i as int], keep);
        }
        if text_starts_with(names[i].as_str(), current) {
            let ghost before = result@;
            let name = names[i].clone();
            result.push(name);
            assert(text_views(result@) =~= text_views(before).push(name@));
        }
        i = i + 1;
    }
    assert(views.take(names@.len() as int) =~= views);
    result
}

} // verus!
