//! The records that the prompt database stores and returns, and the rules
//! around them that do not need the database itself.
use vstd::prelude::*;

use crate::error::{fails_with, message, Error};
use crate::prompt::text_views;
use crate::text::{
    chars_of, is_white_space, is_white_space_char, join, push_char, push_str, same_text,
};

verus! {

/// A stored prompt.
#[derive(Debug, PartialEq, Eq)]
pub struct Prompt {
    pub id: i64,
    pub name: String,
    pub description: Option<String>,
    pub exec_command: Option<String>,
    pub content: String,
    pub tags: Vec<String>,
    pub created_at: i64,
    pub updated_at: i64,
    pub last_used_at: Option<i64>,
    pub use_count: i64,
    pub favorite: bool,
}

/// What is written when a prompt is created or updated.
#[derive(Debug, PartialEq, Eq)]
pub struct PromptInput {
    pub name: String,
    pub description: Option<String>,
    pub exec_command: Option<String>,
    pub content: String,
    pub tags: Vec<String>,
}

/// A prompt as `list` shows it.
#[derive(Clone, Debug, PartialEq, Eq)]
pub struct PromptListEntry {
    pub id: i64,
    pub name: String,
    pub description: Option<String>,
    pub tags: Vec<String>,
    pub exec_command: Option<String>,
    pub created_at: i64,
    pub updated_at: i64,
    pub last_used_at: Option<i64>,
    pub use_count: i64,
    pub favorite: bool,
}

/// A saved version of a prompt, in the version list.
#[derive(Debug, PartialEq, Eq)]
pub struct PromptVersionSummary {
    pub version: i64,
    pub name: String,
    pub created_at: i64,
}

/// A saved version of a prompt.
#[derive(Debug, PartialEq, Eq)]
pub struct PromptVersion {
    pub version: i64,
    pub name: String,
    pub description: Option<String>,
    pub exec_command: Option<String>,
    pub content: String,
    pub tags: Vec<String>,
    pub created_at: i64,
}

/// A prompt found by `search`.
#[derive(Debug, PartialEq, Eq)]
pub struct SearchResult {
    pub id: i64,
    pub name: String,
    pub description: String,
}

/// The text of an optional text.
pub open spec fn option_text(value: Option<String>) -> Option<Seq<char>> {
    match value {
        Some(text) => Some(text@),
        None => None,
    }
}

fn same_optional_text(a: &Option<String>, b: &Option<String>) -> (result: bool)
    ensures
        result == (option_text(*a) == option_text(*b)),
{
    match (a, b) {
        (Some(x), Some(y)) => same_text(x.as_str(), y.as_str()),
        (None, None) => true,
        _ => false,
    }
}

fn same_texts(a: &Vec<String>, b: &Vec<String>) -> (result: bool)
    ensures
        result == (text_views(a@) == text_views(b@)),
{
    if a.len() != b.len() {
        assert(text_views(a@).len() != text_views(b@).len());
        return false;
    }
    let mut i: usize = 0;
    while i < a.len()
        invariant
            a@.len() == b@.len(),
            i <= a@.len(),
            forall|k: int| 0 <= k < i ==> (#[trigger] a@[k])@ == b@[k]@,
        decreases a@.len() - i,
    {
        if !same_text(a[i].as_str(), b[i].as_str()) {
            assert(text_views(a@)[i as int] != text_views(b@)[i as int]);
            return false;
        }
        i = i + 1;
    }
    assert(text_views(a@) =~= text_views(b@));
    true
}

/// An update that changes nothing of what a version records: it neither
/// writes the prompt nor saves a version.
pub open spec fn unchanged(current: Prompt, input: PromptInput) -> bool {
    &&& current.name@ == input.name@
    &&& option_text(current.description) == option_text(input.description)
    &&& option_text(current.exec_command) == option_text(input.exec_command)
    &&& current.content@ == input.content@
    &&& text_views(current.tags@) == text_views(input.tags@)
}

/// An update counts as changing nothing only when every field that a
/// version records is the same: name, description, exec command, content
/// and tags, one by one.
pub proof fn lemma_unchanged_keeps_every_field(current: Prompt, input: PromptInput)
    requires
        unchanged(current, input),
    ensures
        current.name@ == input.name@,
        option_text(current.description) == option_text(input.description),
        option_text(current.exec_command) == option_text(input.exec_command),
        current.content@ == input.content@,
        current.tags@.len() == input.tags@.len(),
        forall|i: int| 0 <= i < current.tags@.len() ==> #[trigger] current.tags@[i]@ == input.tags@[i]@,
{
    let a = text_views(current.tags@);
    let b = text_views(input.tags@);
    assert(a.len() == current.tags@.len() && b.len() == input.tags@.len());
    assert forall|i: int| 0 <= i < current.tags@.len() implies #[trigger] current.tags@[i]@ == input.tags@[i]@ by {
        assert(a[i] == current.tags@[i]@);
        assert(b[i] == input.tags@[i]@);
    }
}

/// Whether writing `input` over `current` would change nothing.
pub fn is_unchanged(current: &Prompt, input: &PromptInput) -> (result: bool)
    ensures
        result == unchanged(*current, *input),
        result ==> option_text(current.description) == option_text(input.description),
        result ==> current.name@ == input.name@ && option_text(current.exec_command) == option_text(
            input.exec_command,
        ) && current.content@ == input.content@ && current.tags@.len() == input.tags@.len(),
        option_text(current.description) != option_text(input.description) ==> !result,
{
    let same = same_text(current.name.as_str(), input.name.as_str()) && same_optional_text(
        &current.description,
        &input.description,
    ) && same_optional_text(&current.exec_command, &input.exec_command) && same_text(
        current.content.as_str(),
        input.content.as_str(),
    ) && same_texts(&current.tags, &input.tags);
    proof {
        assert(text_views(current.tags@).len() == current.tags@.len());
        assert(text_views(input.tags@).len() == input.tags@.len());
    }
    same
}

/// Start of the word that begins at or after `i`, or the end of `s`.
pub open spec fn word_start(s: Seq<char>, i: int) -> int
    decreases s.len() - i,
{
    if 0 <= i < s.len() && is_white_space(s[i]) {
        word_start(s, i + 1)
    } else {
        i
    }
}

/// End of the word that begins at `i`.
pub open spec fn word_end(s: Seq<char>, i: int) -> int
    decreases s.len() - i,
{
    if 0 <= i < s.len() && !is_white_space(s[i]) {
        word_end(s, i + 1)
    } else {
        i
    }
}

pub proof fn lemma_word_bounds(s: Seq<char>, i: int)
    requires
        0 <= i <= s.len(),
    ensures
        i <= word_start(s, i) <= s.len(),
        word_start(s, i) <= word_end(s, word_start(s, i)) <= s.len(),
        word_start(s, i) < s.len() ==> word_start(s, i) < word_end(s, word_start(s, i)),
    decreases s.len() - i,
{
    if i < s.len() && is_white_space(s[i]) {
        lemma_word_bounds(s, i + 1);
    } else {
        lemma_word_end(s, i);
        if i < s.len() {
            lemma_word_end(s, i + 1);
        }
    }
}

pub proof fn lemma_word_end(s: Seq<char>, i: int)
    requires
        0 <= i <= s.len(),
    ensures
        i <= word_end(s, i) <= s.len(),
    decreases s.len() - i,
{
    if i < s.len() && !is_white_space(s[i]) {
        lemma_word_end(s, i + 1);
    }
}

/// The words of `s` from `i` on (`str::split_whitespace`): maximal runs of
/// characters that are not white space.
pub open spec fn words(s: Seq<char>, i: int) -> Seq<Seq<char>>
    decreases s.len() - i,
    when 0 <= i <= s.len()
{
    proof {
        lemma_word_bounds(s, i);
    }
    let start = word_start(s, i);
    if start >= s.len() {
        Seq::empty()
    } else {
        seq![s.subrange(start, word_end(s, start))] + words(s, word_end(s, start))
    }
}

/// A search term quoted as a literal FTS5 string: wrapped in `"`, with each
/// `"` doubled.
pub open spec fn quoted_term(term: Seq<char>) -> Seq<char> {
    "\""@ + crate::text::replace_all(term, "\""@, "\"\""@) + "\""@
}

/// The FTS5 query that finds `query`'s words literally: every word quoted,
/// all of them required.
pub open spec fn fts_query(query: Seq<char>) -> Seq<char> {
    join(words(query, 0).map_values(|w: Seq<char>| quoted_term(w)), " AND "@)
}

/// Appends `chars[from..to]` as a quoted FTS5 string.
fn push_quoted(out: &mut String, chars: &[char], from: usize, to: usize)
    requires
        from <= to <= chars@.len(),
    ensures
        final(out)@ == old(out)@ + quoted_term(chars@.subrange(from as int, to as int)),
{
    let ghost term = chars@.subrange(from as int, to as int);
    let ghost start = old(out)@;
    push_char(out, '"');
    let mut i = from;
    proof {
        reveal_strlit("\"");
        reveal_strlit("\"\"");
        assert(term.skip(0) =~= term);
    }
    while i < to
        invariant
            from <= i <= to <= chars@.len(),
            term == chars@.subrange(from as int, to as int),
            "\""@ == seq!['"'],
            "\"\""@ == seq!['"', '"'],
            out@ + crate::text::replace_all(term.skip(i - from), "\""@, "\"\""@) == start + seq!['"'] + crate::text::replace_all(term, "\""@, "\"\""@),
        decreases to - i,
    {
        let ghost rest = term.skip(i - from);
        let ghost before = out@;
        let c = chars[i];
        assert(rest[0] == c);
        assert(rest.skip(1) =~= term.skip(i + 1 - from));
        assert(rest.drop_first() =~= term.skip(i + 1 - from));
        if c == '"' {
            push_char(out, '"');
            push_char(out, '"');
            assert(rest.take(1) =~= seq!['"']);
            assert(out@ + crate::text::replace_all(term.skip(i + 1 - from), "\""@, "\"\""@) =~= before + crate::text::replace_all(rest, "\""@, "\"\""@));
        } else {
            push_char(out, c);
            assert(rest.take(1) != seq!['"']) by {
                assert(rest.take(1)[0] == c);
            }
            assert(out@ + crate::text::replace_all(term.skip(i + 1 - from), "\""@, "\"\""@) =~= before + crate::text::replace_all(rest, "\""@, "\"\""@));
        }
        i = i + 1;
    }
    assert(term.skip(to - from) =~= Seq::<char>::empty());
    push_char(out, '"');
    assert(out@ =~= start + quoted_term(term));
}

/// The FTS5 query for a search: each word of `query` quoted, so that search
/// syntax in it is taken literally, joined with ` AND `. A query with no
/// words is rejected.
pub fn literal_fts_query(query: &str) -> (result: Result<String, Error>)
    ensures
        words(query@, 0).len() == 0 ==> fails_with(result, "search query must not be empty"@),
        words(query@, 0).len() > 0 ==> (result matches Ok(text) && text@ == fts_query(query@)),
{
    let chars = chars_of(query);
    let ghost s = chars@;
    let ghost all = words(s, 0).map_values(|w: Seq<char>| quoted_term(w));
    let mut out = String::new();
    let mut count: usize = 0;
    let mut i: usize = 0;
    while i < chars.len()
        invariant
            s == chars@,
            s == query@,
            i <= s.len(),
            all == words(s, 0).map_values(|w: Seq<char>| quoted_term(w)),
            words(s, 0) == words(s, 0).take(count as int) + words(s, i as int),
            count <= words(s, 0).len(),
            count <= i,
            out@ == join(all.take(count as int), " AND "@),
        decreases s.len() - i,
    {
        proof {
            lemma_word_bounds(s, i as int);
        }
        let mut start = i;
        while start < chars.len() && is_white_space_char(chars[start])
            invariant
                i <= start <= s.len(),
                s == chars@,
                word_start(s, start as int) == word_start(s, i as int),
            decreases s.len() - start,
        {
            start = start + 1;
        }
        if start == chars.len() {
            assert(words(s, i as int) =~= Seq::<Seq<char>>::empty());
            assert(words(s, start as int) =~= Seq::<Seq<char>>::empty());
            i = start;
        } else {
            let mut end = start;
            while end < chars.len() && !is_white_space_char(chars[end])
                invariant
                    start <= end <= s.len(),
                    s == chars@,
                    word_end(s, end as int) == word_end(s, start as int),
                decreases s.len() - end,
            {
                end = end + 1;
            }
            let ghost word = s.subrange(start as int, end as int);
            assert(words(s, i as int) == seq![word] + words(s, end as int));
            assert(words(s, 0)[count as int] == word) by {
                assert(words(s, 0) == words(s, 0).take(count as int) + words(s, i as int));
            }
            if count > 0 {
                push_str(&mut out, " AND ");
            }
            push_quoted(&mut out, chars.as_slice(), start, end);
            proof {
                let t = all.take(count + 1);
                assert(t.drop_last() =~= all.take(count as int));
                assert(t.last() == quoted_term(word));
                if count == 0 {
                    assert(out@ =~= join(t, " AND "@));
                }
                assert(words(s, 0) =~= words(s, 0).take(count + 1) + words(s, end as int));
            }
            count = count + 1;
            i = end;
        }
    }
    proof {
        if i >= s.len() {
            assert(words(s, i as int) =~= Seq::<Seq<char>>::empty());
        }
        assert(words(s, 0).take(count as int) =~= words(s, 0));
        assert(all.take(count as int) =~= all);
    }
    if count == 0 {
        return Err(message("search query must not be empty"));
    }
    Ok(out)
}

/// What an update of a stored prompt does.
#[derive(Debug, PartialEq, Eq)]
pub enum UpdatePlan {
    /// Nothing changes: nothing is written and no version is saved.
    Unchanged,
    /// The prompt is rewritten and a version saved.
    Write,
}

/// Decides an update of the prompt stored as `original_name` (now
/// `current`) with `input`, given whether another prompt already has the
/// new name: a rename onto a taken name fails.
pub fn plan_update(
    current: &Prompt,
    original_name: &str,
    input: &PromptInput,
    new_name_taken: bool,
) -> (result: Result<UpdatePlan, Error>)
    ensures
        input.name@ != original_name@ && new_name_taken ==> (result matches Err(
            Error::PromptAlreadyExists(name),
        ) && name@ == input.name@),
        !(input.name@ != original_name@ && new_name_taken) ==> (result matches Ok(plan) && (plan
            == UpdatePlan::Unchanged <==> unchanged(*current, *input))),
        result matches Ok(UpdatePlan::Unchanged) ==> {
            &&& current.name@ == input.name@
            &&& option_text(current.description) == option_text(input.description)
            &&& option_text(current.exec_command) == option_text(input.exec_command)
            &&& current.content@ == input.content@
            &&& current.tags@.len() == input.tags@.len()
            &&& forall|i: int| 0 <= i < current.tags@.len() ==> #[trigger] current.tags@[i]@ == input.tags@[i]@
        },
        result matches Ok(UpdatePlan::Write) ==> {
            ||| current.name@ != input.name@
            ||| option_text(current.description) != option_text(input.description)
            ||| option_text(current.exec_command) != option_text(input.exec_command)
            ||| current.content@ != input.content@
            ||| current.tags@.len() != input.tags@.len()
            ||| exists|i: int| 0 <= i < current.tags@.len() && #[trigger] current.tags@[i]@ != input.tags@[i]@
        },
{
    if !same_text(input.name.as_str(), original_name) && new_name_taken {
        return Err(Error::PromptAlreadyExists(input.name.clone()));
    }
    if is_unchanged(current, input) {
        proof {
            assert(unchanged(*current, *input));
            let a = text_views(current.tags@);
            let b = text_views(input.tags@);
            assert(a.len() == current.tags@.len() && b.len() == input.tags@.len());
            assert forall|i: int| 0 <= i < current.tags@.len() implies #[trigger] current.tags@[i]@
                == input.tags@[i]@ by {
                assert(a[i] == current.tags@[i]@);
                assert(b[i] == input.tags@[i]@);
            }
        }
        Ok(UpdatePlan::Unchanged)
    } else {
        proof {
            if current.tags@.len() == input.tags@.len() && forall|i: int|
                0 <= i < current.tags@.len() ==> #[trigger] current.tags@[i]@ == input.tags@[i]@ {
                assert(text_views(current.tags@) =~= text_views(input.tags@));
            }
        }
        Ok(UpdatePlan::Write)
    }
}

/// The error for a version that the prompt does not have.
pub fn version_not_found(name: &str, version: i64) -> (result: Error)
    ensures
        result matches Error::Message(text) && text@ == "prompt version not found: "@
            + crate::commands::history::version_label_text(name@, version),
{
    let label = crate::commands::history::version_label(name, version);
    let mut text = "prompt version not found: ".to_owned();
    push_str(&mut text, label.as_str());
    Error::Message(text)
}

} // verus!
