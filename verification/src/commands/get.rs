//! `get`: expanding the prompts that a prompt includes, gathering the values
//! of its variables, and asking for the missing ones.
use vstd::prelude::*;

use crate::error::{fails_with, Error};
use crate::prompt::markdown;
use crate::prompt::template::{
    default_in, expression_default, lemma_scan_bounds, placeholders, scan, scan_chars, span_views,
    ExpressionKind, Values,
};
use crate::prompt::text_views;
use crate::stdin::utf8_text;
use vstd::utf8::{decode_utf8, valid_utf8};
use crate::text::{
    chars_of, decimal, join, join_texts, lines_from, push_chars, push_decimal, push_str,
    same_text, split_lines, string_from_chars, trim, trim_text,
};

verus! {

/// What expanding the compositions of a text comes to.
pub enum Expanded {
    /// The text with every composition replaced by the expanded prompt.
    Text(Seq<char>),
    /// A prompt that was needed and is not known.
    Missing(Seq<char>),
    /// A prompt that includes itself: the names from its first inclusion
    /// to the repeated one.
    Cycle(Seq<Seq<char>>),
}

/// The names on the stack are distinct known prompts.
pub open spec fn valid_stack(store: Map<Seq<char>, Seq<char>>, stack: Seq<Seq<char>>) -> bool {
    &&& store.dom().finite()
    &&& stack.no_duplicates()
    &&& stack.to_set().subset_of(store.dom())
}

/// A stack of distinct known prompts has room for one more known prompt
/// only while some known prompt is not on it.
pub proof fn lemma_stack_room(store: Map<Seq<char>, Seq<char>>, stack: Seq<Seq<char>>, name: Seq<char>)
    requires
        valid_stack(store, stack),
        store.contains_key(name),
        !stack.contains(name),
    ensures
        stack.len() < store.dom().len(),
        valid_stack(store, stack.push(name)),
{
    let longer = stack.push(name);
    assert(longer.no_duplicates()) by {
        assert forall|i: int, j: int| 0 <= i < longer.len() && 0 <= j < longer.len() && i != j implies longer[i]
            != longer[j] by {
            if i < stack.len() && j < stack.len() {
                assert(longer[i] == stack[i] && longer[j] == stack[j]);
            } else if i < stack.len() {
                assert(longer[i] == stack[i]);
            } else if j < stack.len() {
                assert(longer[j] == stack[j]);
            }
        }
    }
    assert(longer.to_set().subset_of(store.dom())) by {
        assert forall|x: Seq<char>| longer.to_set().contains(x) implies store.dom().contains(x) by {
            let i = choose|i: int| 0 <= i < longer.len() && longer[i] == x;
            if i < stack.len() {
                assert(stack[i] == x);
                assert(stack.to_set().contains(x));
            }
        }
    }
    longer.unique_seq_to_set();
    vstd::set_lib::lemma_len_subset(longer.to_set(), store.dom());
}

/// Expands the compositions of `content`, whose own expansion has reached
/// the prompts on `stack` (outermost first).
pub open spec fn expand_text(
    store: Map<Seq<char>, Seq<char>>,
    content: Seq<char>,
    stack: Seq<Seq<char>>,
) -> Expanded
    decreases store.dom().len() - stack.len(), 1int, 0int,
    when valid_stack(store, stack)
{
    expand_spans(store, content, scan(content, 0, ExpressionKind::Composition), 0, 0, stack)
}

/// Expands `content` from `cursor` on, with the compositions `spans[k..]`.
pub open spec fn expand_spans(
    store: Map<Seq<char>, Seq<char>>,
    content: Seq<char>,
    spans: Seq<(int, int, Seq<char>)>,
    k: int,
    cursor: int,
    stack: Seq<Seq<char>>,
) -> Expanded
    decreases store.dom().len() - stack.len(), 0int, spans.len() - k,
    when valid_stack(store, stack) && 0 <= k
{
    if k >= spans.len() {
        Expanded::Text(content.subrange(cursor, content.len() as int))
    } else {
        let name = spans[k].2;
        if stack.contains(name) {
            Expanded::Cycle(stack.skip(stack.index_of(name)).push(name))
        } else if !store.contains_key(name) {
            Expanded::Missing(name)
        } else {
            proof {
                lemma_stack_room(store, stack, name);
            }
            match expand_text(store, store[name], stack.push(name)) {
                Expanded::Text(inner) => match expand_spans(store, content, spans, k + 1, spans[k].1, stack) {
                    Expanded::Text(rest) => Expanded::Text(
                        content.subrange(cursor, spans[k].0) + inner + rest,
                    ),
                    other => other,
                },
                other => other,
            }
        }
    }
}

/// The contents of prompts by name, as far as they have been read.
pub struct PromptContents {
    contents: Values,
}

impl View for PromptContents {
    type V = Map<Seq<char>, Seq<char>>;

    closed spec fn view(&self) -> Map<Seq<char>, Seq<char>> {
        self.contents@
    }
}

impl PromptContents {
    /// No prompt read yet.
    pub fn new() -> (result: PromptContents)
        ensures
            result@ == Map::<Seq<char>, Seq<char>>::empty(),
    {
        PromptContents { contents: Values::new() }
    }

    /// Records the content of the prompt `name`.
    pub fn insert(&mut self, name: String, content: String)
        ensures
            final(self)@ == old(self)@.insert(name@, content@),
    {
        self.contents.insert(name, content);
    }

    /// The content of the prompt `name`, if it has been read.
    pub fn get(&self, name: &str) -> (result: Option<&String>)
        ensures
            match result {
                Some(content) => self@.contains_key(name@) && content@ == self@[name@],
                None => !self@.contains_key(name@),
            },
    {
        self.contents.get(name)
    }

    /// Finitely many prompts have been read.
    pub proof fn lemma_finite(&self)
        ensures
            self@.dom().finite(),
    {
        self.contents.lemma_finite();
    }
}

/// The error for a cycle of compositions.
pub open spec fn cycle_text(names: Seq<Seq<char>>) -> Seq<char> {
    "prompt composition cycle: "@ + join(names, " -> "@)
}

/// The outcome of one attempt to expand a prompt.
#[derive(Debug)]
pub enum Expansion {
    /// The expanded text.
    Done(String),
    /// The prompt of this name must be read before the expansion can go on.
    Missing(String),
    /// The expansion failed.
    Failed(Error),
}

/// `result` is what `expected` describes.
pub open spec fn expansion_is(result: Expansion, expected: Expanded) -> bool {
    match expected {
        Expanded::Text(text) => result matches Expansion::Done(t) && t@ == text,
        Expanded::Missing(name) => result matches Expansion::Missing(n) && n@ == name,
        Expanded::Cycle(names) => result matches Expansion::Failed(Error::Message(m)) && m@ == cycle_text(
            names,
        ),
    }
}

/// `expansion` with `prefix` written before its text.
pub open spec fn after_prefix(prefix: Seq<char>, expansion: Expanded) -> Expanded {
    match expansion {
        Expanded::Text(text) => Expanded::Text(prefix + text),
        other => other,
    }
}

/// The cycle error for `name`, found at `position` of the stack.
fn cycle_error(stack: &Vec<String>, position: usize, name: &String) -> (result: Error)
    requires
        position < stack@.len(),
    ensures
        result matches Error::Message(m) && m@ == cycle_text(
            text_views(stack@).skip(position as int).push(name@),
        ),
{
    let mut names: Vec<String> = Vec::new();
    let mut i = position;
    while i < stack.len()
        invariant
            position <= i <= stack@.len(),
            text_views(names@) == text_views(stack@).subrange(position as int, i as int),
        decreases stack@.len() - i,
    {
        let ghost before = names@;
        let item = stack[i].clone();
        names.push(item);
        assert(names@ == before.push(item));
        assert(text_views(names@) =~= text_views(before).push(item@));
        assert(text_views(stack@).subrange(position as int, i + 1) =~= text_views(stack@).subrange(
            position as int,
            i as int,
        ).push(item@));
        i = i + 1;
    }
    let ghost before = names@;
    let last = name.clone();
    names.push(last);
    assert(names@ == before.push(last));
    assert(text_views(names@) =~= text_views(before).push(last@));
    assert(text_views(stack@).subrange(position as int, stack@.len() as int) =~= text_views(stack@).skip(
        position as int,
    ));
    assert(names@.map_values(|t: String| t@) == text_views(names@));
    let joined = join_texts(&names, " -> ");
    let mut text = "prompt composition cycle: ".to_owned();
    push_str(&mut text, joined.as_str());
    Error::Message(text)
}

/// Where `name` stands on the stack, if it does.
fn stack_position(stack: &Vec<String>, name: &str) -> (result: Option<usize>)
    ensures
        match result {
            Some(i) => i < stack@.len() && text_views(stack@)[i as int] == name@,
            None => !text_views(stack@).contains(name@),
        },
{
    let mut position: usize = 0;
    while position < stack.len()
        invariant
            position <= stack@.len(),
            forall|j: int| 0 <= j < position ==> text_views(stack@)[j] != name@,
        decreases stack@.len() - position,
    {
        if same_text(stack[position].as_str(), name) {
            return Some(position);
        }
        position = position + 1;
    }
    None
}

/// Expands the compositions of `content`, with the prompts on `stack` being
/// expanded around it.
fn expand_in(store: &PromptContents, content: &str, stack: &mut Vec<String>) -> (result: Expansion)
    requires
        valid_stack(store@, text_views(old(stack)@)),
    ensures
        final(stack)@ == old(stack)@,
        expansion_is(result, expand_text(store@, content@, text_views(old(stack)@))),
    decreases store@.dom().len() - old(stack)@.len(), 1int, 0int,
{
    let ghost st = text_views(stack@);
    let ghost start = stack@;
    let chars = chars_of(content);
    let spans = scan_chars(chars.as_slice(), ExpressionKind::Composition);
    let ghost s = chars@;
    let ghost sp = scan(s, 0, ExpressionKind::Composition);
    proof {
        lemma_scan_bounds(s, 0, ExpressionKind::Composition);
    }
    let mut output = String::new();
    let mut cursor: usize = 0;
    let mut k: usize = 0;
    assert(output@ + Seq::<char>::empty() =~= Seq::<char>::empty());
    while k < spans.len()
        invariant
            s == chars@,
            s == content@,
            stack@ == start,
            start == old(stack)@,
            st == text_views(start),
            valid_stack(store@, st),
            span_views(spans@) == sp,
            sp == scan(s, 0, ExpressionKind::Composition),
            k <= sp.len(),
            k == 0 ==> cursor == 0,
            k > 0 ==> cursor == sp[k - 1].1,
            k < sp.len() ==> cursor <= sp[k as int].0,
            cursor <= s.len(),
            forall|j: int| 0 <= j < sp.len() ==> 0 <= (#[trigger] sp[j]).0 && sp[j].0 + 4 <= sp[j].1 <= s.len(),
            forall|j: int| 0 <= j < sp.len() - 1 ==> (#[trigger] sp[j]).1 <= sp[j + 1].0,
            after_prefix(output@, expand_spans(store@, s, sp, k as int, cursor as int, st)) == expand_spans(
                store@,
                s,
                sp,
                0,
                0,
                st,
            ),
        decreases sp.len() - k,
    {
        let span = &spans[k];
        assert(sp[k as int] == (span.start as int, span.end as int, span.name@));
        if let Some(position) = stack_position(stack, span.name.as_str()) {
            proof {
                assert(st.contains(span.name@));
                assert(st.index_of(span.name@) == position);
            }
            return Expansion::Failed(cycle_error(stack, position, &span.name));
        }
        let inner_content = match store.get(span.name.as_str()) {
            Some(inner_content) => inner_content,
            None => {
                return Expansion::Missing(span.name.clone());
            },
        };
        proof {
            lemma_stack_room(store@, st, span.name@);
        }
        stack.push(span.name.clone());
        assert(text_views(stack@) =~= st.push(span.name@));
        let inner = expand_in(store, inner_content.as_str(), stack);
        stack.pop();
        assert(stack@ =~= start);
        match inner {
            Expansion::Done(inner_text) => {
                let ghost before = output@;
                push_chars(&mut output, chars.as_slice(), cursor, span.start);
                push_str(&mut output, inner_text.as_str());
                assert(after_prefix(output@, expand_spans(store@, s, sp, k + 1, span.end as int, st))
                    == after_prefix(before, expand_spans(store@, s, sp, k as int, cursor as int, st))) by {
                    assert(output@ == before + s.subrange(cursor as int, span.start as int) + inner_text@);
                    match expand_spans(store@, s, sp, k + 1, span.end as int, st) {
                        Expanded::Text(rest) => {
                            assert(output@ + rest =~= before + (s.subrange(cursor as int, span.start as int)
                                + inner_text@ + rest));
                        },
                        _ => {},
                    }
                }
                cursor = span.end;
                k = k + 1;
            },
            other => {
                return other;
            },
        }
    }
    let ghost before = output@;
    push_chars(&mut output, chars.as_slice(), cursor, chars.len());
    assert(output@ =~= before + s.subrange(cursor as int, s.len() as int));
    Expansion::Done(output)
}

/// The prompt `name` with content `content`, its compositions expanded from
/// the prompts read so far. The prompt itself is recorded first.
pub open spec fn expand_prompt_spec(
    store: Map<Seq<char>, Seq<char>>,
    name: Seq<char>,
    content: Seq<char>,
) -> Expanded {
    expand_text(store.insert(name, content), content, seq![name])
}

/// One attempt to expand the compositions of the prompt `name`: records
/// the prompt, then expands with the prompts read so far. Where a prompt
/// that has not been read is needed, the attempt stops and names it; read
/// it, record it and try again.
pub fn expand_prompt(store: &mut PromptContents, name: String, content: String) -> (result: Expansion)
    ensures
        final(store)@ == old(store)@.insert(name@, content@),
        expansion_is(result, expand_prompt_spec(old(store)@, name@, content@)),
{
    store.insert(name.clone(), content.clone());
    let mut stack: Vec<String> = Vec::new();
    stack.push(name);
    proof {
        store.lemma_finite();
        let st = text_views(stack@);
        assert(st =~= seq![name@]);
        assert(st.to_set().subset_of(store@.dom())) by {
            assert forall|x: Seq<char>| st.to_set().contains(x) implies store@.dom().contains(x) by {
                assert(st.contains(x));
                let i = choose|i: int| 0 <= i < st.len() && st[i] == x;
                assert(x == name@);
            }
        }
    }
    expand_in(store, content.as_str(), &mut stack)
}

/// Records the value of a variable given on the command line; a variable
/// given twice fails (the later value is recorded all the same).
pub fn insert_value(values: &mut Values, key: String, value: String) -> (result: Result<(), Error>)
    ensures
        final(values)@ == old(values)@.insert(key@, value@),
        old(values)@.contains_key(key@) ==> (result matches Err(Error::DuplicateVariableSource(k)) && k@
            == key@),
        !old(values)@.contains_key(key@) ==> result is Ok,
{
    let name = key.clone();
    match values.insert(key, value) {
        Some(_) => Err(Error::DuplicateVariableSource(name)),
        None => Ok(()),
    }
}

/// The names of the variables of `template`, in order, repeats included.
pub open spec fn variable_names(template: Seq<char>) -> Seq<Seq<char>> {
    scan(template, 0, ExpressionKind::Variable).map_values(|span: (int, int, Seq<char>)| span.2)
}

/// Whether `get` reads the piped input into the `input` variable.
#[derive(Debug, PartialEq, Eq)]
pub enum PipedInput {
    /// The template does not use `input`, or a value was given for it.
    Unused,
    /// Every use of `input` has a default: the piped input is read when
    /// there is one.
    Optional,
    /// Some use of `input` has no default: the piped input must be read.
    Required,
}

/// Whether the expression `span` of `template` is a use of `input`
/// without a default.
pub open spec fn input_without_default(template: Seq<char>, span: (int, int, Seq<char>)) -> bool {
    span.2 == "input"@ && expression_default(template, span) is None
}

/// How `get` treats the piped input (see [`PipedInput`]).
pub open spec fn piped_input_need(template: Seq<char>, values: Map<Seq<char>, Seq<char>>) -> PipedInput {
    let spans = scan(template, 0, ExpressionKind::Variable);
    if !variable_names(template).contains("input"@) || values.contains_key("input"@) {
        PipedInput::Unused
    } else if exists|k: int| 0 <= k < spans.len() && input_without_default(template, #[trigger] spans[k]) {
        PipedInput::Required
    } else {
        PipedInput::Optional
    }
}

/// Decides whether `get` reads the piped input (see [`PipedInput`]).
pub fn piped_input(content: &str, values: &Values) -> (result: PipedInput)
    ensures
        result == piped_input_need(content@, values@),
{
    let chars = chars_of(content);
    let spans = scan_chars(chars.as_slice(), ExpressionKind::Variable);
    let ghost s = chars@;
    let ghost sp = scan(s, 0, ExpressionKind::Variable);
    let ghost names = variable_names(content@);
    proof {
        lemma_scan_bounds(s, 0, ExpressionKind::Variable);
    }
    let mut used = false;
    let mut without_default = false;
    let mut i: usize = 0;
    while i < spans.len()
        invariant
            s == chars@,
            s == content@,
            span_views(spans@) == sp,
            sp == scan(s, 0, ExpressionKind::Variable),
            names == variable_names(content@),
            names.len() == sp.len(),
            forall|k: int| 0 <= k < sp.len() ==> #[trigger] names[k] == sp[k].2,
            forall|k: int| 0 <= k < sp.len() ==> 0 <= (#[trigger] sp[k]).0 && sp[k].0 + 4 <= sp[k].1 <= s.len(),
            i <= sp.len(),
            used == names.take(i as int).contains("input"@),
            without_default == exists|k: int| 0 <= k < i && input_without_default(s, #[trigger] sp[k]),
        decreases sp.len() - i,
    {
        let span = &spans[i];
        assert(sp[i as int] == (span.start as int, span.end as int, span.name@));
        assert(names.take(i + 1) =~= names.take(i as int).push(names[i as int]));
        if same_text(span.name.as_str(), "input") {
            assert(names.take(i + 1)[i as int] == "input"@);
            used = true;
            if default_in(chars.as_slice(), span.start, span.end).is_none() {
                assert(input_without_default(s, sp[i as int]));
                without_default = true;
            }
        }
        i = i + 1;
    }
    assert(names.take(sp.len() as int) =~= names);
    if !used || values.contains_key("input") {
        PipedInput::Unused
    } else if without_default {
        PipedInput::Required
    } else {
        PipedInput::Optional
    }
}

/// The variables that have no value, each once, in the order in which the
/// template first uses them.
pub open spec fn missing_names(names: Seq<Seq<char>>, values: Map<Seq<char>, Seq<char>>) -> Seq<Seq<char>>
    decreases names.len(),
{
    if names.len() == 0 {
        Seq::empty()
    } else {
        let earlier = missing_names(names.drop_last(), values);
        let name = names.last();
        if values.contains_key(name) || earlier.contains(name) {
            earlier
        } else {
            earlier.push(name)
        }
    }
}

/// The variables asked for are asked once each, and none that has a value.
pub proof fn lemma_missing_names(names: Seq<Seq<char>>, values: Map<Seq<char>, Seq<char>>)
    ensures
        missing_names(names, values).no_duplicates(),
        forall|i: int| 0 <= i < missing_names(names, values).len() ==> !values.contains_key(
            #[trigger] missing_names(names, values)[i],
        ),
    decreases names.len(),
{
    if names.len() > 0 {
        lemma_missing_names(names.drop_last(), values);
    }
}

/// The variables of `content` that `values` leaves without a value, each
/// once, in order of first use.
pub fn missing_variables(content: &str, values: &Values) -> (result: Vec<String>)
    ensures
        text_views(result@) == missing_names(variable_names(content@), values@),
{
    let found = placeholders(content);
    let ghost names = variable_names(content@);
    let mut result: Vec<String> = Vec::new();
    let mut i: usize = 0;
    while i < found.len()
        invariant
            i <= found@.len(),
            found@.len() == names.len(),
            names == variable_names(content@),
            forall|k: int| 0 <= k < found@.len() ==> (#[trigger] found@[k]).name@ == names[k],
            text_views(result@) == missing_names(names.take(i as int), values@),
        decreases found@.len() - i,
    {
        let ghost earlier = text_views(result@);
        assert(names.take(i + 1).drop_last() =~= names.take(i as int));
        let name = &found[i].name;
        let mut seen = false;
        let mut j: usize = 0;
        while j < result.len()
            invariant
                j <= result@.len(),
                earlier == text_views(result@),
                seen == earlier.take(j as int).contains(name@),
            decreases result@.len() - j,
        {
            assert(earlier.take(j + 1) =~= earlier.take(j as int).push(earlier[j as int]));
            assert(earlier[j as int] == result@[j as int]@);
            if same_text(result[j].as_str(), name.as_str()) {
                assert(earlier.take(j + 1)[j as int] == name@);
                seen = true;
            } else {
                if !seen {
                    assert forall|q: int| 0 <= q < j + 1 implies #[trigger] earlier.take(j + 1)[q] != name@ by {
                        if q < j {
                            assert(earlier.take(j + 1)[q] == earlier.take(j as int)[q]);
                        }
                    }
                }
            }
            j = j + 1;
        }
        assert(earlier.take(result@.len() as int) =~= earlier);
        if !values.contains_key(name.as_str()) && !seen {
            let ghost before = result@;
            let copy = name.clone();
            result.push(copy);
            assert(result@ == before.push(copy));
            assert(text_views(result@) =~= earlier.push(name@));
        }
        i = i + 1;
    }
    assert(names.take(found@.len() as int) =~= names);
    result
}

/// Whether a line ends a value: it holds only `EOF`.
pub open spec fn ends_value(line: Seq<char>) -> bool {
    markdown::trim_line_ending(line) == "EOF"@
}

/// The value that the lines from `from` on give: every line up to the
/// first line holding only `EOF`, and the index after that line; `None`
/// when no such line comes.
pub open spec fn value_from(lines: Seq<Seq<char>>, from: int) -> Option<(Seq<char>, int)>
    decreases lines.len() - from,
{
    if from < 0 || from >= lines.len() {
        None
    } else if ends_value(lines[from]) {
        Some((Seq::empty(), from + 1))
    } else {
        match value_from(lines, from + 1) {
            Some((rest, next)) => Some((lines[from] + rest, next)),
            None => None,
        }
    }
}

/// The values given for `names`, in order, from the lines from `from` on,
/// each trimmed; or the first name whose value the lines do not finish.
pub open spec fn answers(lines: Seq<Seq<char>>, from: int, names: Seq<Seq<char>>) -> Result<
    Seq<Seq<char>>,
    Seq<char>,
>
    decreases names.len(),
{
    if names.len() == 0 {
        Ok(Seq::empty())
    } else {
        match value_from(lines, from) {
            None => Err(names[0]),
            Some((value, next)) => match answers(lines, next, names.drop_first()) {
                Ok(rest) => Ok(seq![trim(value)] + rest),
                Err(name) => Err(name),
            },
        }
    }
}

/// The values that the lines from `from` on finish for `names`, in order,
/// each trimmed, up to the first name whose value they do not finish.
pub open spec fn completed_answers(lines: Seq<Seq<char>>, from: int, names: Seq<Seq<char>>) -> Seq<Seq<char>>
    decreases names.len(),
{
    if names.len() == 0 {
        Seq::empty()
    } else {
        match value_from(lines, from) {
            None => Seq::empty(),
            Some((value, next)) => seq![trim(value)] + completed_answers(lines, next, names.drop_first()),
        }
    }
}

/// `values` with `names[i]` set to `answers[i]`, in order.
pub open spec fn with_answers(
    values: Map<Seq<char>, Seq<char>>,
    names: Seq<Seq<char>>,
    answers: Seq<Seq<char>>,
) -> Map<Seq<char>, Seq<char>>
    decreases names.len(),
{
    if names.len() == 0 || answers.len() == 0 {
        values
    } else {
        with_answers(values, names.drop_last(), answers.drop_last()).insert(names.last(), answers.last())
    }
}

/// The two lines written before the value of the variable `name`, the
/// `index`-th (from 0) of `total`.
pub open spec fn variable_header_text(index: nat, total: nat, name: Seq<char>) -> Seq<char> {
    seq!['['] + decimal(index + 1) + seq!['/'] + decimal(total) + seq![']', ' '] + name + seq!['\n']
        + "Enter or paste the value. Finish with a line containing only `EOF`.\n"@
}

/// The headers of all the variables asked for, in order.
pub open spec fn headers_text(names: Seq<Seq<char>>, count: nat) -> Seq<char>
    decreases count,
{
    if count == 0 {
        Seq::empty()
    } else {
        headers_text(names, (count - 1) as nat) + variable_header_text(
            (count - 1) as nat,
            names.len(),
            names[count - 1],
        )
    }
}

/// Writes the header for the `index`-th variable (see
/// [`variable_header_text`]).
pub fn variable_header(index: usize, total: usize, name: &str) -> (result: String)
    requires
        index < total,
    ensures
        result@ == variable_header_text(index as nat, total as nat, name@),
{
    let mut text = "[".to_owned();
    push_decimal(&mut text, (index + 1) as u64);
    push_str(&mut text, "/");
    push_decimal(&mut text, total as u64);
    push_str(&mut text, "] ");
    push_str(&mut text, name);
    push_str(&mut text, "\n");
    push_str(&mut text, "Enter or paste the value. Finish with a line containing only `EOF`.\n");
    assert(text@ =~= variable_header_text(index as nat, total as nat, name@)) by {
        reveal_strlit("[");
        reveal_strlit("/");
        reveal_strlit("] ");
        reveal_strlit("\n");
    }
    text
}

/// A line without its line ending (`\r\n` or `\n`).
pub fn trim_line_ending(line: &str) -> (result: String)
    ensures
        result@ == markdown::trim_line_ending(line@),
{
    let chars = chars_of(line);
    let n = chars.len();
    let end = if n >= 2 && chars[n - 2] == '\r' && chars[n - 1] == '\n' {
        n - 2
    } else if n >= 1 && chars[n - 1] == '\n' {
        n - 1
    } else {
        n
    };
    assert(markdown::trim_line_ending(line@) =~= chars@.subrange(0, end as int));
    string_from_chars(chars.as_slice(), 0, end)
}

/// The error for a value whose input ended too early.
pub open spec fn unfinished_text(name: Seq<char>) -> Seq<char> {
    "interactive input ended before completing variable: "@ + name
}

/// Asking for the values of the variables that have none: one variable at
/// a time, its value read line by line until a line holding only `EOF`.
pub struct VariablePrompt {
    names: Vec<String>,
    index: usize,
    value: String,
}

impl VariablePrompt {
    /// The variables asked for, in order.
    pub closed spec fn names(&self) -> Seq<Seq<char>> {
        text_views(self.names@)
    }

    /// How many variables have their value.
    pub closed spec fn answered(&self) -> nat {
        self.index as nat
    }

    /// The lines read so far for the variable being asked for.
    pub closed spec fn pending(&self) -> Seq<char> {
        self.value@
    }

    #[verifier::type_invariant]
    spec fn index_in_range(self) -> bool {
        self.index <= self.names@.len()
    }

    /// How many variables have their value.
    pub fn answered_count(&self) -> (result: usize)
        ensures
            result == self.answered(),
    {
        self.index
    }

    /// Starts asking for the variables of `content` that `values` leaves
    /// without a value.
    pub fn new(content: &str, values: &Values) -> (result: VariablePrompt)
        ensures
            result.names() == missing_names(variable_names(content@), values@),
            result.answered() == 0,
            result.pending() == Seq::<char>::empty(),
    {
        VariablePrompt { names: missing_variables(content, values), index: 0, value: String::new() }
    }

    /// The header to write before reading the value of the next variable;
    /// `None` when every variable has its value.
    pub fn header(&self) -> (result: Option<String>)
        ensures
            self.answered() <= self.names().len(),
            self.answered() < self.names().len() ==> (result matches Some(text) && text@
                == variable_header_text(self.answered(), self.names().len(), self.names()[self.answered() as int])),
            self.answered() == self.names().len() ==> result is None,
    {
        proof {
            use_type_invariant(self);
        }
        if self.index < self.names.len() {
            Some(variable_header(self.index, self.names.len(), self.names[self.index].as_str()))
        } else {
            None
        }
    }

    /// Takes the next line read for the variable being asked for (`None` at
    /// the end of the input): a line holding only `EOF` completes the value,
    /// which is recorded trimmed; any other line is added to the value.
    pub fn feed(&mut self, line: Option<&str>, values: &mut Values) -> (result: Result<(), Error>)
        requires
            old(self).answered() < old(self).names().len(),
        ensures
            final(self).names() == old(self).names(),
            match line {
                None => fails_with(result, unfinished_text(old(self).names()[old(self).answered() as int]))
                    && final(values)@ == old(values)@ && final(self).answered() == old(self).answered(),
                Some(text) => result is Ok && if ends_value(text@) {
                    &&& final(values)@ == old(values)@.insert(
                        old(self).names()[old(self).answered() as int],
                        trim(old(self).pending()),
                    )
                    &&& final(self).answered() == old(self).answered() + 1
                    &&& final(self).pending() == Seq::<char>::empty()
                } else {
                    &&& final(values)@ == old(values)@
                    &&& final(self).answered() == old(self).answered()
                    &&& final(self).pending() == old(self).pending() + text@
                },
            },
    {
        proof {
            use_type_invariant(&*self);
        }
        match line {
            None => {
                let mut text = "interactive input ended before completing variable: ".to_owned();
                push_str(&mut text, self.names[self.index].as_str());
                Err(Error::Message(text))
            },
            Some(text) => {
                let bare = trim_line_ending(text);
                let total = self.names.len();
                assert(self.index < total);
                if same_text(bare.as_str(), "EOF") {
                    let value = trim_text(self.value.as_str());
                    values.insert(self.names[self.index].clone(), value);
                    self.index = self.index + 1;
                    self.value = String::new();
                } else {
                    let mut value = self.value.clone();
                    push_str(&mut value, text);
                    self.value = value;
                }
                Ok(())
            },
        }
    }
}

/// The lines `lines[start..end]` written one after the other.
pub open spec fn joined_lines(lines: Seq<Seq<char>>, start: int, end: int) -> Seq<char>
    decreases end - start,
{
    if start >= end {
        Seq::empty()
    } else {
        lines[start] + joined_lines(lines, start + 1, end)
    }
}

proof fn lemma_joined_lines_push(lines: Seq<Seq<char>>, start: int, end: int)
    requires
        start <= end,
    ensures
        joined_lines(lines, start, end + 1) == joined_lines(lines, start, end) + lines[end],
    decreases end - start,
{
    if start < end {
        lemma_joined_lines_push(lines, start + 1, end);
        assert(joined_lines(lines, start, end + 1) =~= lines[start] + (joined_lines(lines, start + 1, end)
            + lines[end]));
    } else {
        assert(joined_lines(lines, start + 1, end + 1) == Seq::<char>::empty());
        assert(joined_lines(lines, start, end + 1) =~= lines[end]);
    }
}

/// Lines that do not end a value are part of it.
proof fn lemma_value_from(lines: Seq<Seq<char>>, start: int, end: int)
    requires
        0 <= start <= end <= lines.len(),
        forall|k: int| start <= k < end ==> !ends_value(#[trigger] lines[k]),
    ensures
        value_from(lines, start) == match value_from(lines, end) {
            Some((rest, next)) => Some((joined_lines(lines, start, end) + rest, next)),
            None => None,
        },
    decreases end - start,
{
    if start < end {
        lemma_value_from(lines, start + 1, end);
        match value_from(lines, end) {
            Some((rest, next)) => {
                assert(lines[start] + (joined_lines(lines, start + 1, end) + rest) =~= joined_lines(
                    lines,
                    start,
                    end,
                ) + rest);
            },
            None => {},
        }
    } else {
        match value_from(lines, end) {
            Some((rest, next)) => {
                assert(joined_lines(lines, start, end) + rest =~= rest);
            },
            None => {},
        }
    }
}

/// `result` with `done` before its values.
pub open spec fn after_answers(
    done: Seq<Seq<char>>,
    result: Result<Seq<Seq<char>>, Seq<char>>,
) -> Result<Seq<Seq<char>>, Seq<char>> {
    match result {
        Ok(rest) => Ok(done + rest),
        Err(name) => Err(name),
    }
}

/// Asks for the value of every variable of `content` that has none,
/// reading the values from `input`: writes a header for each variable to
/// `output`, then takes lines up to one holding only `EOF`; the value
/// recorded is what came before that line, trimmed.
pub fn prompt_for_variables(
    content: &str,
    values: &mut Values,
    input: &str,
    output: &mut String,
) -> (result: Result<(), Error>)
    ensures
        ({
            let names = missing_names(variable_names(content@), old(values)@);
            match answers(lines_from(input@, 0), 0, names) {
                Ok(given) => result is Ok && final(values)@ == with_answers(old(values)@, names, given)
                    && final(output)@ == old(output)@ + headers_text(names, names.len()),
                Err(name) => fails_with(result, unfinished_text(name)) && ({
                    let given = completed_answers(lines_from(input@, 0), 0, names);
                    final(values)@ == with_answers(old(values)@, names.take(given.len() as int), given)
                }),
            }
        }),
{
    let ghost base = values@;
    let ghost start_output = output@;
    let mut prompt = VariablePrompt::new(content, values);
    let ghost names = prompt.names();
    let lines = split_lines(input);
    let ghost ls = lines_from(input@, 0);
    let mut next: usize = 0;
    let ghost mut done: Seq<Seq<char>> = Seq::empty();
    assert(names.skip(0) =~= names);
    assert(names.take(0) =~= Seq::<Seq<char>>::empty());
    assert(done + completed_answers(ls, 0, names) =~= completed_answers(ls, 0, names));
    assert(after_answers(done, answers(ls, 0, names)) == answers(ls, 0, names)) by {
        match answers(ls, 0, names) {
            Ok(rest) => assert(done + rest =~= rest),
            Err(_) => {},
        }
    }
    loop
        invariant
            base == old(values)@,
            start_output == old(output)@,
            names == missing_names(variable_names(content@), base),
            prompt.names() == names,
            text_views(lines@) == ls,
            ls == lines_from(input@, 0),
            next <= lines@.len(),
            prompt.answered() <= names.len(),
            prompt.pending() == Seq::<char>::empty(),
            done.len() == prompt.answered(),
            answers(ls, 0, names) == after_answers(done, answers(ls, next as int, names.skip(prompt.answered() as int))),
            completed_answers(ls, 0, names) == done + completed_answers(ls, next as int, names.skip(prompt.answered() as int)),
            values@ == with_answers(base, names.take(prompt.answered() as int), done),
            output@ == start_output + headers_text(names, prompt.answered()),
        decreases names.len() - prompt.answered(),
    {
        let header = match prompt.header() {
            Some(header) => header,
            None => {
                assert(names.skip(prompt.answered() as int) =~= Seq::<Seq<char>>::empty());
                assert(names.take(prompt.answered() as int) =~= names);
                assert(done + Seq::<Seq<char>>::empty() =~= done);
                return Ok(());
            },
        };
        let current = prompt.answered_count();
        let ghost i = prompt.answered() as int;
        let ghost first = next as int;
        let ghost values_before = values@;
        push_str(output, header.as_str());
        assert(output@ == start_output + headers_text(names, (i + 1) as nat));
        assert(joined_lines(ls, first, first) == Seq::<char>::empty());
        loop
            invariant_except_break
                prompt.answered() == i,
                0 <= first <= next <= lines@.len(),
                prompt.pending() == joined_lines(ls, first, next as int),
                forall|k: int| first <= k < next ==> !ends_value(#[trigger] ls[k]),
                values@ == values_before,
            invariant
                base == old(values)@,
                start_output == old(output)@,
                prompt.names() == names,
                current == i,
                0 <= i < names.len(),
                text_views(lines@) == ls,
                names == missing_names(variable_names(content@), base),
                ls == lines_from(input@, 0),
                answers(ls, 0, names) == after_answers(done, answers(ls, first, names.skip(i))),
                completed_answers(ls, 0, names) == done + completed_answers(ls, first, names.skip(i)),
                values_before == with_answers(base, names.take(i), done),
                done.len() == i,
                output@ == start_output + headers_text(names, (i + 1) as nat),
            ensures
                prompt.names() == names,
                prompt.answered() == i + 1,
                prompt.pending() == Seq::<char>::empty(),
                first < next <= lines@.len(),
                value_from(ls, first) == Some((joined_lines(ls, first, next - 1), next as int)),
                values@ == values_before.insert(names[i], trim(joined_lines(ls, first, next - 1))),
                output@ == start_output + headers_text(names, (i + 1) as nat),
            decreases lines@.len() - next,
        {
            if next < lines.len() {
                proof {
                    lemma_joined_lines_push(ls, first, next as int);
                    lemma_value_from(ls, first, next as int);
                }
                assert(lines@[next as int]@ == ls[next as int]);
                let accepted = prompt.feed(Some(lines[next].as_str()), values);
                assert(accepted is Ok);
                if prompt.answered_count() != current {
                    next = next + 1;
                    break;
                }
                next = next + 1;
            } else {
                proof {
                    lemma_value_from(ls, first, next as int);
                    assert(names.skip(i)[0] == names[i]);
                    assert(value_from(ls, first) is None);
                    assert(answers(ls, first, names.skip(i)) == Err::<Seq<Seq<char>>, Seq<char>>(names[i]));
                    assert(completed_answers(ls, first, names.skip(i)) == Seq::<Seq<char>>::empty());
                    assert(done + Seq::<Seq<char>>::empty() =~= done);
                }
                let failed = prompt.feed(None, values);
                assert(fails_with(failed, unfinished_text(names[i])));
                return failed;
            }
        }
        proof {
            let value = trim(joined_lines(ls, first, next - 1));
            let later = answers(ls, next as int, names.skip(i + 1));
            assert(names.skip(i).drop_first() =~= names.skip(i + 1));
            assert(after_answers(done, answers(ls, first, names.skip(i))) == after_answers(done.push(value), later)) by {
                match later {
                    Ok(rest) => assert(done + (seq![value] + rest) =~= done.push(value) + rest),
                    Err(_) => {},
                }
            }
            assert(completed_answers(ls, first, names.skip(i)) == seq![value] + completed_answers(
                ls,
                next as int,
                names.skip(i + 1),
            ));
            assert(done + (seq![value] + completed_answers(ls, next as int, names.skip(i + 1)))
                =~= done.push(value) + completed_answers(ls, next as int, names.skip(i + 1)));
            assert(names.take(i + 1).drop_last() =~= names.take(i));
            assert(done.push(value).drop_last() =~= done);
            done = done.push(value);
        }
    }
}

/// What `fzf` is given to pick from: the names, one per line.
pub open spec fn candidates_text(names: Seq<Seq<char>>) -> Seq<char> {
    join(names, "\n"@) + "\n"@
}

/// The list that `--pick` offers; there must be a prompt to pick.
pub fn pick_candidates(names: &Vec<String>) -> (result: Result<String, Error>)
    ensures
        names@.len() == 0 ==> fails_with(result, "no prompts available to pick"@),
        names@.len() > 0 ==> (result matches Ok(text) && text@ == candidates_text(text_views(names@))),
{
    if names.len() == 0 {
        return Err(crate::error::message("no prompts available to pick"));
    }
    let mut text = join_texts(names, "\n");
    push_str(&mut text, "\n");
    Ok(text)
}

/// `s` without the line breaks (`\r` and `\n`) at its end.
pub open spec fn without_trailing_breaks(s: Seq<char>) -> Seq<char>
    decreases s.len(),
{
    if s.len() > 0 && (s.last() == '\r' || s.last() == '\n') {
        without_trailing_breaks(s.drop_last())
    } else {
        s
    }
}

/// `text` without its trailing line breaks (see [`without_trailing_breaks`]).
fn trim_trailing_breaks(text: &str) -> (result: String)
    ensures
        result@ == without_trailing_breaks(text@),
{
    let chars = chars_of(text);
    let mut end = chars.len();
    assert(chars@.take(end as int) =~= chars@);
    while end > 0 && (chars[end - 1] == '\r' || chars[end - 1] == '\n')
        invariant
            end <= chars@.len(),
            chars@ == text@,
            without_trailing_breaks(chars@.take(end as int)) == without_trailing_breaks(chars@),
        decreases end,
    {
        assert(chars@.take(end as int).drop_last() =~= chars@.take(end - 1));
        end = end - 1;
    }
    let result = string_from_chars(chars.as_slice(), 0, end);
    assert(result@ =~= chars@.take(end as int));
    result
}

/// Whether `text` is one of `names`.
fn contains_text(names: &Vec<String>, text: &str) -> (result: bool)
    ensures
        result == text_views(names@).contains(text@),
{
    let mut i: usize = 0;
    while i < names.len()
        invariant
            i <= names@.len(),
            forall|k: int| 0 <= k < i ==> text_views(names@)[k] != text@,
        decreases names@.len() - i,
    {
        if same_text(names[i].as_str(), text) {
            assert(text_views(names@)[i as int] == text@);
            return true;
        }
        i = i + 1;
    }
    false
}

/// The name that `fzf` picked, given whether it succeeded and what it
/// wrote: the output must be UTF-8 and, without its line breaks, one of the
/// names.
pub fn picked_name(names: &Vec<String>, succeeded: bool, output: &[u8]) -> (result: Result<String, Error>)
    ensures
        !succeeded ==> fails_with(result, "fzf exited without a selection"@),
        succeeded && !valid_utf8(output@) ==> fails_with(result, "fzf returned a non-UTF-8 selection"@),
        succeeded && valid_utf8(output@) ==> ({
            let selection = without_trailing_breaks(decode_utf8(output@));
            if selection.len() > 0 && text_views(names@).contains(selection) {
                result matches Ok(name) && name@ == selection
            } else {
                fails_with(result, "fzf returned an invalid selection"@)
            }
        }),
{
    if !succeeded {
        return Err(crate::error::message("fzf exited without a selection"));
    }
    let text = match utf8_text(output) {
        Some(text) => text,
        None => return Err(crate::error::message("fzf returned a non-UTF-8 selection")),
    };
    let selection = trim_trailing_breaks(text);
    if selection.as_str().is_empty() || !contains_text(names, selection.as_str()) {
        return Err(crate::error::message("fzf returned an invalid selection"));
    }
    Ok(selection)
}

/// Expanding a text without compositions gives the text itself.
pub proof fn lemma_expand_without_compositions(
    store: Map<Seq<char>, Seq<char>>,
    content: Seq<char>,
    stack: Seq<Seq<char>>,
)
    requires
        valid_stack(store, stack),
        scan(content, 0, ExpressionKind::Composition).len() == 0,
    ensures
        expand_text(store, content, stack) == Expanded::Text(content),
{
    assert(content.subrange(0, content.len() as int) =~= content);
}

/// `content` from `cursor` on with each span `spans[j]` (for `j` from `k`
/// on) replaced by `pieces[j]`.
pub open spec fn spliced(
    content: Seq<char>,
    spans: Seq<(int, int, Seq<char>)>,
    pieces: Seq<Seq<char>>,
    k: int,
    cursor: int,
) -> Seq<char>
    decreases spans.len() - k,
{
    if k < 0 || k >= spans.len() {
        content.subrange(cursor, content.len() as int)
    } else {
        content.subrange(cursor, spans[k].0) + pieces[k] + spliced(content, spans, pieces, k + 1, spans[k].1)
    }
}

proof fn lemma_expand_spans_splices(
    store: Map<Seq<char>, Seq<char>>,
    content: Seq<char>,
    spans: Seq<(int, int, Seq<char>)>,
    pieces: Seq<Seq<char>>,
    k: int,
    cursor: int,
    stack: Seq<Seq<char>>,
)
    requires
        valid_stack(store, stack),
        0 <= k <= spans.len(),
        pieces.len() == spans.len(),
        forall|j: int|
            k <= j < spans.len() ==> {
                let name = (#[trigger] spans[j]).2;
                &&& !stack.contains(name)
                &&& store.contains_key(name)
                &&& expand_text(store, store[name], stack.push(name)) == Expanded::Text(pieces[j])
            },
    ensures
        expand_spans(store, content, spans, k, cursor, stack) == Expanded::Text(
            spliced(content, spans, pieces, k, cursor),
        ),
    decreases spans.len() - k,
{
    if k < spans.len() {
        let name = spans[k].2;
        lemma_stack_room(store, stack, name);
        lemma_expand_spans_splices(store, content, spans, pieces, k + 1, spans[k].1, stack);
    }
}

/// Expansion replaces every composition of a text: when each
/// `{{prompt:n}}` of `content` names a known prompt that is not already
/// being expanded, and expands to `pieces[k]` (for the `k`-th), the
/// expanded text is `content` with each composition's span replaced by its
/// piece and everything between the spans kept as it is. So expanding
/// `X{{prompt:a}}Y{{prompt:b}}Z` gives `X`, the expansion of `a`, `Y`, the
/// expansion of `b`, then `Z`.
pub proof fn lemma_expansion_replaces_every_composition(
    store: Map<Seq<char>, Seq<char>>,
    content: Seq<char>,
    stack: Seq<Seq<char>>,
    pieces: Seq<Seq<char>>,
)
    requires
        valid_stack(store, stack),
        pieces.len() == scan(content, 0, ExpressionKind::Composition).len(),
        forall|j: int|
            0 <= j < scan(content, 0, ExpressionKind::Composition).len() ==> {
                let name = (#[trigger] scan(content, 0, ExpressionKind::Composition)[j]).2;
                &&& !stack.contains(name)
                &&& store.contains_key(name)
                &&& expand_text(store, store[name], stack.push(name)) == Expanded::Text(pieces[j])
            },
    ensures
        expand_text(store, content, stack) == Expanded::Text(
            spliced(content, scan(content, 0, ExpressionKind::Composition), pieces, 0, 0),
        ),
{
    lemma_expand_spans_splices(
        store,
        content,
        scan(content, 0, ExpressionKind::Composition),
        pieces,
        0,
        0,
        stack,
    );
}

/// What expansion reports for a composition of `name` that cannot be
/// expanded from `stack`: the cycle from the first inclusion of `name` to
/// its repetition, or the prompt that must be read.
pub open spec fn unresolved(stack: Seq<Seq<char>>, name: Seq<char>) -> Expanded {
    if stack.contains(name) {
        Expanded::Cycle(stack.skip(stack.index_of(name)).push(name))
    } else {
        Expanded::Missing(name)
    }
}

proof fn lemma_expand_spans_stops(
    store: Map<Seq<char>, Seq<char>>,
    content: Seq<char>,
    spans: Seq<(int, int, Seq<char>)>,
    pieces: Seq<Seq<char>>,
    k: int,
    m: int,
    cursor: int,
    stack: Seq<Seq<char>>,
)
    requires
        valid_stack(store, stack),
        0 <= k <= m < spans.len(),
        pieces.len() == spans.len(),
        stack.contains(spans[m].2) || !store.contains_key(spans[m].2),
        forall|j: int|
            k <= j < m ==> {
                let name = (#[trigger] spans[j]).2;
                &&& !stack.contains(name)
                &&& store.contains_key(name)
                &&& expand_text(store, store[name], stack.push(name)) == Expanded::Text(pieces[j])
            },
    ensures
        expand_spans(store, content, spans, k, cursor, stack) == unresolved(stack, spans[m].2),
    decreases m - k,
{
    if k < m {
        let name = spans[k].2;
        lemma_stack_room(store, stack, name);
        lemma_expand_spans_stops(store, content, spans, pieces, k + 1, m, spans[k].1, stack);
    }
}

/// Expansion stops at the first composition it cannot expand: when the
/// compositions before the `m`-th all expand, and the `m`-th names a prompt
/// that is being expanded already or has not been read, the result is that
/// cycle or that missing prompt, whatever follows.
pub proof fn lemma_expansion_stops_at_first_unresolved(
    store: Map<Seq<char>, Seq<char>>,
    content: Seq<char>,
    stack: Seq<Seq<char>>,
    pieces: Seq<Seq<char>>,
    m: int,
)
    requires
        valid_stack(store, stack),
        0 <= m < scan(content, 0, ExpressionKind::Composition).len(),
        pieces.len() == scan(content, 0, ExpressionKind::Composition).len(),
        stack.contains(scan(content, 0, ExpressionKind::Composition)[m].2) || !store.contains_key(
            scan(content, 0, ExpressionKind::Composition)[m].2,
        ),
        forall|j: int|
            0 <= j < m ==> {
                let name = (#[trigger] scan(content, 0, ExpressionKind::Composition)[j]).2;
                &&& !stack.contains(name)
                &&& store.contains_key(name)
                &&& expand_text(store, store[name], stack.push(name)) == Expanded::Text(pieces[j])
            },
    ensures
        expand_text(store, content, stack) == unresolved(
            stack,
            scan(content, 0, ExpressionKind::Composition)[m].2,
        ),
{
    lemma_expand_spans_stops(
        store,
        content,
        scan(content, 0, ExpressionKind::Composition),
        pieces,
        0,
        m,
        0,
        stack,
    );
}

/// A prompt that first includes itself is a cycle of that prompt alone.
pub proof fn lemma_expand_self_reference(store: Map<Seq<char>, Seq<char>>, name: Seq<char>, content: Seq<char>)
    requires
        store.dom().finite(),
        scan(content, 0, ExpressionKind::Composition).len() > 0,
        scan(content, 0, ExpressionKind::Composition)[0].2 == name,
    ensures
        expand_prompt_spec(store, name, content) == Expanded::Cycle(seq![name, name]),
{
    let full = store.insert(name, content);
    let stack = seq![name];
    assert(stack.to_set().subset_of(full.dom())) by {
        assert forall|x: Seq<char>| stack.to_set().contains(x) implies full.dom().contains(x) by {
            assert(stack.contains(x));
            let i = choose|i: int| 0 <= i < stack.len() && stack[i] == x;
        }
    }
    assert(valid_stack(full, stack));
    assert(stack.contains(name)) by {
        assert(stack[0] == name);
    }
    assert(stack.index_of(name) == 0);
    assert(stack.skip(0).push(name) =~= seq![name, name]);
}

/// Values read interactively only add to the given ones: a variable that
/// had a value keeps it, and each variable asked for (all distinct) gets
/// its answer.
pub proof fn lemma_answers_add_to_values(
    values: Map<Seq<char>, Seq<char>>,
    names: Seq<Seq<char>>,
    given: Seq<Seq<char>>,
)
    requires
        names.no_duplicates(),
        names.len() == given.len(),
        forall|i: int| 0 <= i < names.len() ==> !values.contains_key(#[trigger] names[i]),
    ensures
        forall|k: Seq<char>| #[trigger] values.contains_key(k) ==> with_answers(values, names, given).contains_key(k)
            && with_answers(values, names, given)[k] == values[k],
        forall|i: int| 0 <= i < names.len() ==> #[trigger] with_answers(values, names, given).contains_key(names[i])
            && with_answers(values, names, given)[names[i]] == given[i],
    decreases names.len(),
{
    if names.len() > 0 {
        let n = names.drop_last();
        let g = given.drop_last();
        assert(n.no_duplicates()) by {
            assert forall|i: int, j: int| 0 <= i < n.len() && 0 <= j < n.len() && i != j implies n[i] != n[j] by {
                assert(n[i] == names[i] && n[j] == names[j]);
            }
        }
        assert forall|i: int| 0 <= i < n.len() implies !values.contains_key(#[trigger] n[i]) by {
            assert(n[i] == names[i]);
        }
        lemma_answers_add_to_values(values, n, g);
        assert(with_answers(values, names, given) == with_answers(values, n, g).insert(
            names.last(),
            given.last(),
        ));
        assert forall|i: int| 0 <= i < names.len() implies #[trigger] with_answers(values, names, given).contains_key(names[i])
            && with_answers(values, names, given)[names[i]] == given[i] by {
            if i < names.len() - 1 {
                assert(n[i] == names[i] && g[i] == given[i]);
                assert(names[i] != names[names.len() - 1]);
            }
        }
        assert forall|k: Seq<char>| #[trigger] values.contains_key(k) implies with_answers(values, names, given).contains_key(k)
            && with_answers(values, names, given)[k] == values[k] by {
            assert(k != names.last());
        }
    }
}

} // verus!
