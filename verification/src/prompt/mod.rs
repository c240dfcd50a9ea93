//! Prompt names, groups, tags and exec commands.
pub mod markdown;
pub mod template;

use vstd::prelude::*;

use crate::error::{fails_with, message, message_with, Error};
use crate::text::{
    chars_less, chars_of, is_ascii_alphanumeric, is_ascii_alphanumeric_char, lemma_chars_less_total,
    lemma_chars_less_transitive, same_text, string_from_chars, trim, trim_text,
};

verus! {

/// Characters allowed after the first character of a name segment.
pub open spec fn is_name_char(c: char) -> bool {
    is_ascii_alphanumeric(c) || c == '.' || c == '_' || c == '-'
}

/// A segment of a prompt name: an ASCII letter or digit followed by ASCII
/// letters, digits, `.`, `_` or `-`.
pub open spec fn is_valid_segment(segment: Seq<char>) -> bool {
    &&& segment.len() > 0
    &&& is_ascii_alphanumeric(segment[0])
    &&& forall|i: int| 1 <= i < segment.len() ==> is_name_char(#[trigger] segment[i])
}

/// Index `i` of `s` begins a `/`-separated segment.
pub open spec fn begins_segment(s: Seq<char>, i: int) -> bool {
    i == 0 || s[i - 1] == '/'
}

/// The character at `i` is allowed where it stands: an ASCII letter or digit
/// where a segment begins, `/` or a name character elsewhere.
pub open spec fn fits_at(s: Seq<char>, i: int) -> bool {
    if begins_segment(s, i) {
        is_ascii_alphanumeric(s[i])
    } else {
        s[i] == '/' || is_name_char(s[i])
    }
}

/// A prompt name: one or more valid segments separated by `/`. Stated per
/// character: it is non-empty, every character fits where it stands, and it
/// does not end with `/` (which would leave an empty last segment).
pub open spec fn is_valid_name(s: Seq<char>) -> bool {
    &&& s.len() > 0
    &&& s.last() != '/'
    &&& forall|i: int| 0 <= i < s.len() ==> #[trigger] fits_at(s, i)
}

/// Whether `segment` is a valid part of a prompt name.
pub fn is_valid_name_segment(segment: &str) -> (result: bool)
    ensures
        result == is_valid_segment(segment@),
{
    let chars = chars_of(segment);
    if chars.len() == 0 {
        return false;
    }
    if !is_ascii_alphanumeric_char(chars[0]) {
        return false;
    }
    let mut i: usize = 1;
    while i < chars.len()
        invariant
            1 <= i <= chars@.len(),
            chars@ == segment@,
            forall|k: int| 1 <= k < i ==> is_name_char(#[trigger] chars@[k]),
        decreases chars@.len() - i,
    {
        let c = chars[i];
        if !(is_ascii_alphanumeric_char(c) || c == '.' || c == '_' || c == '-') {
            assert(!is_name_char(chars@[i as int]));
            return false;
        }
        i = i + 1;
    }
    true
}

/// Checks a prompt name: non-empty, and `/`-separated valid segments.
pub fn validate_name(name: &str) -> (result: Result<(), Error>)
    ensures
        name@.len() == 0 ==> fails_with(result, "prompt name must not be empty"@),
        name@.len() > 0 && !is_valid_name(name@) ==> fails_with(result, "invalid prompt name: "@ + name@),
        is_valid_name(name@) <==> result is Ok,
{
    let chars = chars_of(name);
    let n = chars.len();
    if n == 0 {
        return Err(message("prompt name must not be empty"));
    }
    let mut i: usize = 0;
    while i < n
        invariant
            i <= n == chars@.len(),
            chars@ == name@,
            forall|k: int| 0 <= k < i ==> #[trigger] fits_at(name@, k),
        decreases n - i,
    {
        let c = chars[i];
        let starts = i == 0 || chars[i - 1] == '/';
        let fits = if starts {
            is_ascii_alphanumeric_char(c)
        } else {
            c == '/' || is_ascii_alphanumeric_char(c) || c == '.' || c == '_' || c == '-'
        };
        if !fits {
            assert(!fits_at(name@, i as int));
            return Err(message_with("invalid prompt name: ", name));
        }
        i = i + 1;
    }
    if chars[n - 1] == '/' {
        return Err(message_with("invalid prompt name: ", name));
    }
    Ok(())
}

/// Checks a group prefix: a prompt name followed by `/`.
pub fn validate_group(group: &str) -> (result: Result<(), Error>)
    ensures
        !(group@.len() > 0 && group@.last() == '/') ==> fails_with(result, "prompt group must end with '/': "@ + group@),
        group@.len() > 0 && group@.last() == '/' && !is_valid_name(group@.drop_last())
            ==> fails_with(result, "invalid prompt group: "@ + group@),
        result is Ok <==> group@.len() > 0 && group@.last() == '/' && is_valid_name(
            group@.drop_last(),
        ),
{
    let chars = chars_of(group);
    let n = chars.len();
    if n == 0 || chars[n - 1] != '/' {
        return Err(message_with("prompt group must end with '/': ", group));
    }
    let name = string_from_chars(chars.as_slice(), 0, n - 1);
    proof {
        assert(chars@.subrange(0, n - 1) =~= group@.drop_last());
    }
    match validate_name(name.as_str()) {
        Ok(()) => Ok(()),
        Err(_) => Err(message_with("invalid prompt group: ", group)),
    }
}

/// Tags after trimming, in order.
pub open spec fn trimmed_tags(tags: Seq<String>) -> Seq<Seq<char>> {
    tags.map_values(|t: String| trim(t@))
}

/// Views of a list of strings.
pub open spec fn text_views(items: Seq<String>) -> Seq<Seq<char>> {
    items.map_values(|t: String| t@)
}

/// Strictly increasing in the order of `str`.
pub open spec fn strictly_sorted(items: Seq<Seq<char>>) -> bool {
    forall|i: int, j: int| 0 <= i < j < items.len() ==> chars_less(#[trigger] items[i], #[trigger] items[j])
}

/// Whether `a` sorts before `b` as `str` values do.
pub fn text_less(a: &str, b: &str) -> (result: bool)
    ensures
        result == chars_less(a@, b@),
{
    let x = chars_of(a);
    let y = chars_of(b);
    let mut i: usize = 0;
    assert(a@.skip(0) =~= a@);
    assert(b@.skip(0) =~= b@);
    while i < x.len() && i < y.len() && x[i] == y[i]
        invariant
            i <= x@.len(),
            i <= y@.len(),
            x@ == a@,
            y@ == b@,
            chars_less(a@, b@) == chars_less(a@.skip(i as int), b@.skip(i as int)),
        decreases x@.len() - i,
    {
        proof {
            let sa = a@.skip(i as int);
            let sb = b@.skip(i as int);
            assert(sa.drop_first() =~= a@.skip(i + 1));
            assert(sb.drop_first() =~= b@.skip(i + 1));
        }
        i = i + 1;
    }
    let ghost sa = a@.skip(i as int);
    let ghost sb = b@.skip(i as int);
    if i == x.len() {
        assert(sa.len() == 0);
        i < y.len()
    } else if i == y.len() {
        assert(sb.len() == 0);
        false
    } else {
        assert(sa[0] == x@[i as int] && sb[0] == y@[i as int]);
        (x[i] as u32) < (y[i] as u32)
    }
}

/// Inserts `tag` into the strictly sorted `sorted`, unless it is there.
fn insert_sorted(sorted: &mut Vec<String>, tag: String)
    requires
        strictly_sorted(text_views(old(sorted)@)),
    ensures
        strictly_sorted(text_views(final(sorted)@)),
        forall|x: Seq<char>| #[trigger] text_views(final(sorted)@).contains(x) <==> text_views(old(sorted)@).contains(x) || x == tag@,
{
    let ghost old_sorted = sorted@;
    let mut p: usize = 0;
    while p < sorted.len() && text_less(sorted[p].as_str(), tag.as_str())
        invariant
            p <= sorted@.len(),
            sorted@ == old_sorted,
            forall|q: int| 0 <= q < p ==> chars_less((#[trigger] sorted@[q])@, tag@),
        decreases sorted@.len() - p,
    {
        p = p + 1;
    }
    let ghost ov = text_views(old_sorted);
    if p < sorted.len() && same_text(sorted[p].as_str(), tag.as_str()) {
        proof {
            assert forall|x: Seq<char>| #[trigger] ov.contains(x) <==> ov.contains(x) || x == tag@ by {
                if x == tag@ {
                    assert(ov[p as int] == x);
                }
            }
        }
        return;
    }
    proof {
        if p < old_sorted.len() {
            lemma_chars_less_total(ov[p as int], tag@);
        }
        assert forall|j: int| p <= j < ov.len() implies chars_less(tag@, #[trigger] ov[j]) by {
            if j > p {
                lemma_chars_less_transitive(tag@, ov[p as int], ov[j]);
            }
        }
    }
    sorted.insert(p, tag);
    proof {
        let v = text_views(sorted@);
        assert(v =~= ov.insert(p as int, tag@));
        assert forall|i: int, j: int| 0 <= i < j < v.len() implies chars_less(#[trigger] v[i], #[trigger] v[j]) by {
            if j < p {
                assert(v[i] == ov[i] && v[j] == ov[j]);
            } else if j == p {
                assert(v[i] == ov[i]);
            } else if i < p {
                assert(v[i] == ov[i] && v[j] == ov[j - 1]);
                lemma_chars_less_transitive(v[i], tag@, v[j]);
            } else if i == p {
                assert(v[j] == ov[j - 1]);
            } else {
                assert(v[i] == ov[i - 1] && v[j] == ov[j - 1]);
            }
        }
        assert forall|x: Seq<char>| #[trigger] v.contains(x) <==> ov.contains(x) || x == tag@ by {
            if v.contains(x) {
                let q = choose|q: int| 0 <= q < v.len() && v[q] == x;
                if q < p {
                    assert(ov[q] == x);
                } else if q > p {
                    assert(ov[q - 1] == x);
                }
            }
            if ov.contains(x) {
                let q = choose|q: int| 0 <= q < ov.len() && ov[q] == x;
                if q < p {
                    assert(v[q] == x);
                } else {
                    assert(v[q + 1] == x);
                }
            }
            if x == tag@ {
                assert(v[p as int] == x);
            }
        }
    }
}

/// Trims every tag, rejects empty ones, and returns the distinct tags in
/// ascending order.
pub fn normalize_tags(tags: Vec<String>) -> (result: Result<Vec<String>, Error>)
    ensures
        (exists|i: int| 0 <= i < tags@.len() && (#[trigger] trimmed_tags(tags@)[i]).len() == 0)
            ==> fails_with(result, "tag must not be empty"@),
        result is Ok <==> forall|i: int| 0 <= i < tags@.len() ==> (#[trigger] trimmed_tags(tags@)[i]).len() > 0,
        result matches Ok(sorted) ==> strictly_sorted(text_views(sorted@)) && text_views(
            sorted@,
        ).to_set() == trimmed_tags(tags@).to_set(),
{
    let ghost trimmed = trimmed_tags(tags@);
    let mut sorted: Vec<String> = Vec::new();
    let mut k: usize = 0;
    while k < tags.len()
        invariant
            k <= tags@.len(),
            trimmed == trimmed_tags(tags@),
            forall|i: int| 0 <= i < k ==> (#[trigger] trimmed[i]).len() > 0,
            strictly_sorted(text_views(sorted@)),
            forall|x: Seq<char>| #[trigger] text_views(sorted@).contains(x) <==> trimmed.take(k as int).contains(x),
        decreases tags@.len() - k,
    {
        let tag = trim_text(tags[k].as_str());
        assert(trimmed[k as int] == tag@);
        if tag.as_str().is_empty() {
            return Err(message("tag must not be empty"));
        }
        insert_sorted(&mut sorted, tag);
        proof {
            let t = trimmed.take(k + 1);
            assert(t =~= trimmed.take(k as int).push(trimmed[k as int]));
            assert forall|x: Seq<char>| #[trigger] text_views(sorted@).contains(x) <==> t.contains(x) by {
                if trimmed.take(k as int).contains(x) {
                    let i = choose|i: int| 0 <= i < k && trimmed.take(k as int)[i] == x;
                    assert(t[i] == x);
                }
                if x == trimmed[k as int] {
                    assert(t[k as int] == x);
                }
                if t.contains(x) {
                    let i = choose|i: int| 0 <= i < k + 1 && t[i] == x;
                    if i < k {
                        assert(trimmed.take(k as int)[i] == x);
                    }
                }
            }
        }
        k = k + 1;
    }
    proof {
        assert(trimmed.take(tags@.len() as int) =~= trimmed);
        assert(text_views(sorted@).to_set() =~= trimmed.to_set());
    }
    Ok(sorted)
}

/// What `shell_words::split` returns for `command`: the words, or `None`
/// where a quote is left open.
pub uninterp spec fn shell_words_split(command: Seq<char>) -> Option<Seq<Seq<char>>>;

/// Splits `command` into words as a POSIX shell would, without running a
/// shell (`shell_words::split`).
///
/// Trusted: the result is `shell_words::split(command)` with its error mapped
/// to `None`; the words are named `shell_words_split`, not stated.
#[verifier::external_body]
pub(crate) fn split_shell_words(command: &str) -> (result: Option<Vec<String>>)
    ensures
        match (result, shell_words_split(command@)) {
            (Some(words), Some(expected)) => text_views(words@) == expected,
            (None, None) => true,
            _ => false,
        },
{
    shell_words::split(command).ok()
}

/// The arguments of an exec command, given what splitting it into shell
/// words produced: an open quote or no words at all are rejected.
pub fn exec_arguments(split: Option<Vec<String>>) -> (result: Result<Vec<String>, Error>)
    ensures
        split is None ==> fails_with(result, "invalid exec command: missing closing quote"@),
        split matches Some(words) && words@.len() == 0 ==> fails_with(result, "exec command must not be empty"@),
        split matches Some(words) && words@.len() > 0 ==> result == Ok::<Vec<String>, Error>(
            split->0,
        ),
{
    match split {
        None => Err(message("invalid exec command: missing closing quote")),
        Some(words) => {
            if words.len() == 0 {
                Err(message("exec command must not be empty"))
            } else {
                Ok(words)
            }
        },
    }
}

/// Splits an exec command into its program and arguments.
pub fn parse_exec_command(command: &str) -> (result: Result<Vec<String>, Error>)
    ensures
        shell_words_split(command@) is None ==> fails_with(result, "invalid exec command: missing closing quote"@),
        shell_words_split(command@) matches Some(w) && w.len() == 0 ==> fails_with(result, "exec command must not be empty"@),
        shell_words_split(command@) matches Some(w) && w.len() > 0 ==> (result matches Ok(words)
            && text_views(words@) == shell_words_split(command@)->0),
{
    exec_arguments(split_shell_words(command))
}

/// Tags in strictly increasing order are determined by the set of tags
/// they hold: two such lists with the same tags are the same list. So the
/// normalized tags of a prompt do not depend on the order in which the tags
/// were given, or on repeats.
pub proof fn lemma_sorted_tags_unique(a: Seq<Seq<char>>, b: Seq<Seq<char>>)
    requires
        strictly_sorted(a),
        strictly_sorted(b),
        a.to_set() == b.to_set(),
    ensures
        a == b,
    decreases a.len(),
{
    if a.len() == 0 {
        if b.len() > 0 {
            assert(b.to_set().contains(b[0]));
        }
        assert(a =~= b);
    } else if b.len() == 0 {
        assert(a.to_set().contains(a[0]));
    } else {
        assert(b.to_set().contains(a[0]));
        assert(a.to_set().contains(b[0]));
        let j = choose|j: int| 0 <= j < b.len() && b[j] == a[0];
        let i = choose|i: int| 0 <= i < a.len() && a[i] == b[0];
        if i > 0 && j > 0 {
            assert(chars_less(a[0], a[i]));
            assert(chars_less(b[0], b[j]));
            crate::text::lemma_chars_less_asymmetric(a[0], b[0]);
        }
        assert(a[0] == b[0]);
        let ra = a.drop_first();
        let rb = b.drop_first();
        assert(strictly_sorted(ra)) by {
            assert forall|x: int, y: int| 0 <= x < y < ra.len() implies chars_less(#[trigger] ra[x], #[trigger] ra[y]) by {
                assert(ra[x] == a[x + 1] && ra[y] == a[y + 1]);
            }
        }
        assert(strictly_sorted(rb)) by {
            assert forall|x: int, y: int| 0 <= x < y < rb.len() implies chars_less(#[trigger] rb[x], #[trigger] rb[y]) by {
                assert(rb[x] == b[x + 1] && rb[y] == b[y + 1]);
            }
        }
        assert(ra.to_set() =~= rb.to_set()) by {
            assert forall|x: Seq<char>| ra.to_set().contains(x) implies rb.to_set().contains(x) by {
                let k = choose|k: int| 0 <= k < ra.len() && ra[k] == x;
                assert(a[k + 1] == x);
                assert(chars_less(a[0], a[k + 1]));
                crate::text::lemma_chars_less_irreflexive(x);
                assert(a.to_set().contains(x));
                assert(b.to_set().contains(x));
                let m = choose|m: int| 0 <= m < b.len() && b[m] == x;
                assert(m != 0);
                assert(rb[m - 1] == x);
            }
            assert forall|x: Seq<char>| rb.to_set().contains(x) implies ra.to_set().contains(x) by {
                let k = choose|k: int| 0 <= k < rb.len() && rb[k] == x;
                assert(b[k + 1] == x);
                assert(chars_less(b[0], b[k + 1]));
                crate::text::lemma_chars_less_irreflexive(x);
                assert(b.to_set().contains(x));
                assert(a.to_set().contains(x));
                let m = choose|m: int| 0 <= m < a.len() && a[m] == x;
                assert(m != 0);
                assert(ra[m - 1] == x);
            }
        }
        lemma_sorted_tags_unique(ra, rb);
        assert(a =~= seq![a[0]] + ra);
        assert(b =~= seq![b[0]] + rb);
    }
}

} // verus!
