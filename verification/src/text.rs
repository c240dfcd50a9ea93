//! Character-level text helpers shared by the prompt, template and table code.
//!
//! Text is modelled as the `Seq<char>` view of `str`/`String`. Byte offsets
//! (as Rust's string slicing uses them) are the lengths of UTF-8 encodings of
//! character prefixes.
use vstd::prelude::*;
use vstd::utf8::*;

verus! {

/// Unicode `White_Space` property, which `char::is_whitespace`, `str::trim`
/// and `str::split_whitespace` use.
pub open spec fn is_white_space(c: char) -> bool {
    let u = c as u32;
    ||| 0x09 <= u <= 0x0D
    ||| u == 0x20
    ||| u == 0x85
    ||| u == 0xA0
    ||| u == 0x1680
    ||| 0x2000 <= u <= 0x200A
    ||| u == 0x2028
    ||| u == 0x2029
    ||| u == 0x202F
    ||| u == 0x205F
    ||| u == 0x3000
}

pub open spec fn is_ascii_alphabetic(c: char) -> bool {
    ('a' <= c && c <= 'z') || ('A' <= c && c <= 'Z')
}

pub open spec fn is_ascii_digit(c: char) -> bool {
    '0' <= c && c <= '9'
}

pub open spec fn is_ascii_alphanumeric(c: char) -> bool {
    is_ascii_alphabetic(c) || is_ascii_digit(c)
}

/// Index of the first character at or after `i` that is not white space.
pub open spec fn skip_white_space(s: Seq<char>, i: int) -> int
    decreases s.len() - i,
{
    if 0 <= i < s.len() && is_white_space(s[i]) {
        skip_white_space(s, i + 1)
    } else {
        i
    }
}

/// End of `s[lo..j]` once trailing white space is removed.
pub open spec fn skip_white_space_back(s: Seq<char>, lo: int, j: int) -> int
    decreases j - lo,
{
    if lo < j && j <= s.len() && is_white_space(s[j - 1]) {
        skip_white_space_back(s, lo, j - 1)
    } else {
        j
    }
}

/// `s` without leading and trailing white space (`str::trim`).
pub open spec fn trim(s: Seq<char>) -> Seq<char> {
    let start = skip_white_space(s, 0);
    s.subrange(start, skip_white_space_back(s, start, s.len() as int))
}

/// `s` without trailing white space (`str::trim_end`).
pub open spec fn trim_end(s: Seq<char>) -> Seq<char> {
    s.subrange(0, skip_white_space_back(s, 0, s.len() as int))
}

/// Number of bytes before character index `i` in the UTF-8 encoding of `s`.
pub open spec fn byte_offset(s: Seq<char>, i: int) -> int {
    encode_utf8(s.take(i)).len() as int
}

/// Number of occurrences of `c` in `s`.
pub open spec fn count_char(s: Seq<char>, c: char) -> nat
    decreases s.len(),
{
    if s.len() == 0 {
        0
    } else {
        count_char(s.drop_last(), c) + if s.last() == c { 1nat } else { 0nat }
    }
}

pub open spec fn digit_char(d: nat) -> char {
    if d == 0 { '0' }
    else if d == 1 { '1' }
    else if d == 2 { '2' }
    else if d == 3 { '3' }
    else if d == 4 { '4' }
    else if d == 5 { '5' }
    else if d == 6 { '6' }
    else if d == 7 { '7' }
    else if d == 8 { '8' }
    else { '9' }
}

/// Decimal representation of `n`, as `format!("{n}")` prints it.
pub open spec fn decimal(n: nat) -> Seq<char>
    decreases n,
{
    if n < 10 {
        seq![digit_char(n)]
    } else {
        decimal(n / 10).push(digit_char(n % 10))
    }
}

/// Decimal representation padded with leading zeros to at least `width`
/// characters, as `format!("{n:0width$}")` prints it.
pub open spec fn zero_padded(n: nat, width: nat) -> Seq<char> {
    let d = decimal(n);
    if d.len() >= width {
        d
    } else {
        Seq::new((width - d.len()) as nat, |i: int| '0') + d
    }
}

/// `n` copies of `c`.
pub open spec fn repeat_char(c: char, n: nat) -> Seq<char> {
    Seq::new(n, |i: int| c)
}

/// `s` with every occurrence of `pattern` (scanning left to right, without
/// overlap) replaced by `replacement` (`str::replace`).
pub open spec fn replace_all(s: Seq<char>, pattern: Seq<char>, replacement: Seq<char>) -> Seq<char>
    recommends
        pattern.len() > 0,
    decreases s.len(),
{
    if pattern.len() == 0 || s.len() < pattern.len() {
        s
    } else if s.take(pattern.len() as int) == pattern {
        replacement + replace_all(s.skip(pattern.len() as int), pattern, replacement)
    } else {
        seq![s[0]] + replace_all(s.drop_first(), pattern, replacement)
    }
}

/// `s` starts with `prefix`.
pub open spec fn starts_with(s: Seq<char>, prefix: Seq<char>) -> bool {
    prefix.len() <= s.len() && s.take(prefix.len() as int) == prefix
}

/// Lexicographic order of character sequences by code point, which is the
/// order of `str`/`String` (`Ord` compares the UTF-8 bytes, and UTF-8
/// preserves code point order).
pub open spec fn chars_less(a: Seq<char>, b: Seq<char>) -> bool
    decreases a.len(),
{
    if a.len() == 0 {
        b.len() > 0
    } else if b.len() == 0 {
        false
    } else if a[0] != b[0] {
        (a[0] as u32) < (b[0] as u32)
    } else {
        chars_less(a.drop_first(), b.drop_first())
    }
}

pub proof fn lemma_chars_less_irreflexive(a: Seq<char>)
    ensures
        !chars_less(a, a),
    decreases a.len(),
{
    if a.len() > 0 {
        lemma_chars_less_irreflexive(a.drop_first());
    }
}

pub proof fn lemma_chars_less_total(a: Seq<char>, b: Seq<char>)
    ensures
        a == b || chars_less(a, b) || chars_less(b, a),
    decreases a.len(),
{
    if a.len() > 0 && b.len() > 0 {
        if a[0] == b[0] {
            lemma_chars_less_total(a.drop_first(), b.drop_first());
            if a.drop_first() == b.drop_first() {
                assert(a =~= seq![a[0]] + a.drop_first());
                assert(b =~= seq![b[0]] + b.drop_first());
            }
        } else {
            vstd::utf8::char_u32_cast(a[0], a[0] as u32);
            vstd::utf8::char_u32_cast(b[0], b[0] as u32);
        }
    } else if a.len() == 0 && b.len() == 0 {
        assert(a =~= b);
    }
}

pub proof fn lemma_chars_less_asymmetric(a: Seq<char>, b: Seq<char>)
    ensures
        chars_less(a, b) ==> !chars_less(b, a),
    decreases a.len(),
{
    if a.len() > 0 && b.len() > 0 && a[0] == b[0] {
        lemma_chars_less_asymmetric(a.drop_first(), b.drop_first());
    }
}

pub proof fn lemma_chars_less_transitive(a: Seq<char>, b: Seq<char>, c: Seq<char>)
    requires
        chars_less(a, b),
        chars_less(b, c),
    ensures
        chars_less(a, c),
    decreases a.len(),
{
    if a.len() > 0 && b.len() > 0 && c.len() > 0 {
        if a[0] == b[0] && b[0] == c[0] {
            lemma_chars_less_transitive(a.drop_first(), b.drop_first(), c.drop_first());
        }
    }
}

/// Three-way order of two texts: -1, 0 or 1 as `a` sorts before, with or
/// after `b` (the order of `str`).
pub open spec fn text_order(a: Seq<char>, b: Seq<char>) -> int {
    if chars_less(a, b) {
        -1
    } else if chars_less(b, a) {
        1
    } else {
        0
    }
}

/// `text_order` is antisymmetric, is 0 exactly on equal texts, and is
/// transitive.
pub proof fn lemma_text_order(a: Seq<char>, b: Seq<char>, c: Seq<char>)
    ensures
        text_order(a, b) == -text_order(b, a),
        text_order(a, b) == 0 <==> a == b,
        text_order(a, b) <= 0 && text_order(b, c) <= 0 ==> text_order(a, c) <= 0,
        text_order(a, b) < 0 && text_order(b, c) <= 0 ==> text_order(a, c) < 0,
        text_order(a, b) <= 0 && text_order(b, c) < 0 ==> text_order(a, c) < 0,
{
    lemma_chars_less_asymmetric(a, b);
    lemma_chars_less_total(a, b);
    lemma_chars_less_irreflexive(a);
    lemma_chars_less_total(b, c);
    lemma_chars_less_total(a, c);
    lemma_chars_less_irreflexive(c);
    if chars_less(a, b) && chars_less(b, c) {
        lemma_chars_less_transitive(a, b, c);
    }
}

/// Compares two texts (see [`text_order`]).
pub fn order_texts(a: &str, b: &str) -> (result: i8)
    ensures
        result == text_order(a@, b@),
{
    let x = chars_of(a);
    let y = chars_of(b);
    let mut i: usize = 0;
    assert(a@.skip(0) =~= a@);
    assert(b@.skip(0) =~= b@);
    while i < x.len() && i < y.len() && x[i] == y[i]
        invariant
            i <= x@.len(),
            i <= y@.len(),
            x@ == a@,
            y@ == b@,
            chars_less(a@, b@) == chars_less(a@.skip(i as int), b@.skip(i as int)),
            chars_less(b@, a@) == chars_less(b@.skip(i as int), a@.skip(i as int)),
        decreases x@.len() - i,
    {
        assert(a@.skip(i as int).drop_first() =~= a@.skip(i + 1));
        assert(b@.skip(i as int).drop_first() =~= b@.skip(i + 1));
        i = i + 1;
    }
    if i < x.len() && i < y.len() {
        if (x[i] as u32) < (y[i] as u32) {
            -1
        } else {
            proof {
                vstd::utf8::char_u32_cast(x@[i as int], x@[i as int] as u32);
                vstd::utf8::char_u32_cast(y@[i as int], y@[i as int] as u32);
            }
            1
        }
    } else if i < y.len() {
        -1
    } else if i < x.len() {
        1
    } else {
        0
    }
}

/// Appends `c` to `s` (`String::push`).
///
/// Trusted: `String::push` appends the one character to the text.
#[verifier::external_body]
pub(crate) fn push_char(s: &mut String, c: char)
    ensures
        final(s)@ == old(s)@.push(c),
{
    s.push(c);
}

/// Appends `t` to `s` (`String::push_str`).
pub fn push_str(s: &mut String, t: &str)
    ensures
        final(s)@ == old(s)@ + t@,
{
    s.append(t);
}

/// The characters of `s`, in order.
pub fn chars_of(s: &str) -> (result: Vec<char>)
    ensures
        result@ == s@,
{
    let mut result: Vec<char> = Vec::new();
    for c in it: s.chars()
        invariant
            result@ == it.seq().take(it.index() as int),
    {
        result.push(c);
    }
    result
}

/// Appends `chars[from..to]` to `s`.
pub fn push_chars(s: &mut String, chars: &[char], from: usize, to: usize)
    requires
        from <= to <= chars@.len(),
    ensures
        final(s)@ == old(s)@ + chars@.subrange(from as int, to as int),
{
    let mut i = from;
    while i < to
        invariant
            from <= i <= to <= chars@.len(),
            s@ == old(s)@ + chars@.subrange(from as int, i as int),
        decreases to - i,
    {
        push_char(s, chars[i]);
        assert(chars@.subrange(from as int, i + 1) =~= chars@.subrange(from as int, i as int).push(
            chars@[i as int],
        ));
        i = i + 1;
    }
}

/// A new `String` holding `chars[from..to]`.
pub fn string_from_chars(chars: &[char], from: usize, to: usize) -> (result: String)
    requires
        from <= to <= chars@.len(),
    ensures
        result@ == chars@.subrange(from as int, to as int),
{
    let mut result = String::new();
    push_chars(&mut result, chars, from, to);
    assert(Seq::<char>::empty() + chars@.subrange(from as int, to as int) =~= chars@.subrange(
        from as int,
        to as int,
    ));
    result
}

/// Whether two texts are equal.
pub fn same_text(a: &str, b: &str) -> (result: bool)
    ensures
        result == (a@ == b@),
{
    let x = a.to_owned();
    let y = b.to_owned();
    x == y
}

pub fn is_white_space_char(c: char) -> (result: bool)
    ensures
        result == is_white_space(c),
{
    let u = c as u32;
    (0x09 <= u && u <= 0x0D) || u == 0x20 || u == 0x85 || u == 0xA0 || u == 0x1680 || (0x2000 <= u
        && u <= 0x200A) || u == 0x2028 || u == 0x2029 || u == 0x202F || u == 0x205F || u == 0x3000
}

pub fn is_ascii_alphanumeric_char(c: char) -> (result: bool)
    ensures
        result == is_ascii_alphanumeric(c),
{
    ('a' <= c && c <= 'z') || ('A' <= c && c <= 'Z') || ('0' <= c && c <= '9')
}

/// Bounds `(start, end)` of the trimmed part of `chars[lo..hi]`.
pub fn trim_bounds(chars: &[char], lo: usize, hi: usize) -> (result: (usize, usize))
    requires
        lo <= hi <= chars@.len(),
    ensures
        result.0 <= result.1 <= hi,
        lo <= result.0,
        chars@.subrange(result.0 as int, result.1 as int) == trim(
            chars@.subrange(lo as int, hi as int),
        ),
{
    let ghost s = chars@.subrange(lo as int, hi as int);
    let mut start = lo;
    while start < hi && is_white_space_char(chars[start])
        invariant
            lo <= start <= hi <= chars@.len(),
            s == chars@.subrange(lo as int, hi as int),
            skip_white_space(s, (start - lo) as int) == skip_white_space(s, 0),
        decreases hi - start,
    {
        start = start + 1;
    }
    let ghost a = (start - lo) as int;
    assert(skip_white_space(s, a) == a);
    let mut end = hi;
    while end > start && is_white_space_char(chars[end - 1])
        invariant
            lo <= start <= end <= hi <= chars@.len(),
            s == chars@.subrange(lo as int, hi as int),
            a == start - lo,
            skip_white_space_back(s, a, (end - lo) as int) == skip_white_space_back(
                s,
                a,
                s.len() as int,
            ),
        decreases end - start,
    {
        end = end - 1;
    }
    assert(skip_white_space_back(s, a, (end - lo) as int) == (end - lo) as int);
    assert(chars@.subrange(start as int, end as int) =~= s.subrange(a, (end - lo) as int));
    (start, end)
}

/// `s` without leading and trailing white space.
pub fn trim_text(s: &str) -> (result: String)
    ensures
        result@ == trim(s@),
{
    let chars = chars_of(s);
    let (start, end) = trim_bounds(chars.as_slice(), 0, chars.len());
    assert(chars@.subrange(0, chars@.len() as int) =~= s@);
    string_from_chars(chars.as_slice(), start, end)
}

/// Appends the decimal representation of `n` to `s`.
pub fn push_decimal(s: &mut String, n: u64)
    ensures
        final(s)@ == old(s)@ + decimal(n as nat),
    decreases n,
{
    if n >= 10 {
        push_decimal(s, n / 10);
    }
    let d = n % 10;
    let c = if d == 0 { '0' }
        else if d == 1 { '1' }
        else if d == 2 { '2' }
        else if d == 3 { '3' }
        else if d == 4 { '4' }
        else if d == 5 { '5' }
        else if d == 6 { '6' }
        else if d == 7 { '7' }
        else if d == 8 { '8' }
        else { '9' };
    push_char(s, c);
    if n < 10 {
        assert(old(s)@ + decimal(n as nat) =~= old(s)@.push(c));
    } else {
        assert(old(s)@ + decimal(n as nat) =~= (old(s)@ + decimal((n / 10) as nat)).push(c));
    }
}

/// Decimal representation of a signed number, as `format!("{n}")` prints it.
pub open spec fn signed_decimal(n: int) -> Seq<char> {
    if n < 0 {
        seq!['-'] + decimal((-n) as nat)
    } else {
        decimal(n as nat)
    }
}

/// Appends `n` in decimal.
pub fn push_signed(s: &mut String, n: i64)
    ensures
        final(s)@ == old(s)@ + signed_decimal(n as int),
{
    if n < 0 {
        push_char(s, '-');
        let magnitude: u64 = if n == i64::MIN {
            9_223_372_036_854_775_808u64
        } else {
            (-n) as u64
        };
        push_decimal(s, magnitude);
        assert(old(s)@ + signed_decimal(n as int) =~= old(s)@.push('-') + decimal(magnitude as nat));
    } else {
        push_decimal(s, n as u64);
    }
}

/// Appends `n` in decimal, padded with leading zeros to `width`.
pub fn push_zero_padded(s: &mut String, n: u64, width: usize)
    ensures
        final(s)@ == old(s)@ + zero_padded(n as nat, width as nat),
{
    let mut digits = String::new();
    push_decimal(&mut digits, n);
    let len = char_count(digits.as_str());
    if len < width {
        push_repeated(s, '0', width - len);
    }
    push_str(s, digits.as_str());
    assert(digits@ =~= decimal(n as nat));
    if len < width {
        assert(repeat_char('0', (width - len) as nat) =~= Seq::new((width - decimal(n as nat).len()) as nat, |i: int| '0'));
    }
}

/// Appends `n` copies of `c` to `s`.
pub fn push_repeated(s: &mut String, c: char, n: usize)
    ensures
        final(s)@ == old(s)@ + repeat_char(c, n as nat),
{
    let mut i: usize = 0;
    while i < n
        invariant
            i <= n,
            s@ == old(s)@ + repeat_char(c, i as nat),
        decreases n - i,
    {
        push_char(s, c);
        assert(old(s)@ + repeat_char(c, (i + 1) as nat) =~= (old(s)@ + repeat_char(c, i as nat)).push(c));
        i = i + 1;
    }
}

/// Number of UTF-8 bytes that encode `c` (`char::len_utf8`).
pub fn utf8_width(c: char) -> (result: usize)
    ensures
        result == encode_scalar(c as u32).len(),
        1 <= result <= 4,
{
    proof {
        char_is_scalar(c);
    }
    let u = c as u32;
    if u < 0x80 {
        1
    } else if u < 0x800 {
        2
    } else if u < 0x10000 {
        3
    } else {
        4
    }
}

pub proof fn lemma_encode_utf8_concat(a: Seq<char>, b: Seq<char>)
    ensures
        encode_utf8(a + b) == encode_utf8(a) + encode_utf8(b),
    decreases a.len(),
{
    if a.len() == 0 {
        assert(a + b =~= b);
        assert(encode_utf8(a) =~= Seq::<u8>::empty());
        assert(encode_utf8(a) + encode_utf8(b) =~= encode_utf8(b));
    } else {
        lemma_encode_utf8_concat(a.drop_first(), b);
        assert((a + b).drop_first() =~= a.drop_first() + b);
        assert((a + b)[0] == a[0]);
        assert(encode_utf8(a + b) =~= encode_scalar(a[0] as u32) + encode_utf8(a.drop_first() + b));
    }
}

/// The byte offset of character index `i + 1` is that of `i` plus the width
/// of `s[i]`.
pub proof fn lemma_byte_offset_step(s: Seq<char>, i: int)
    requires
        0 <= i < s.len(),
    ensures
        byte_offset(s, i + 1) == byte_offset(s, i) + encode_scalar(s[i] as u32).len(),
{
    assert(s.take(i + 1) =~= s.take(i) + seq![s[i]]);
    lemma_encode_utf8_concat(s.take(i), seq![s[i]]);
    assert(seq![s[i]].drop_first() =~= Seq::<char>::empty());
    assert(encode_utf8(seq![s[i]]) =~= encode_scalar(s[i] as u32) + encode_utf8(Seq::<char>::empty()));
}

pub proof fn lemma_byte_offset_monotonic(s: Seq<char>, i: int, j: int)
    requires
        0 <= i <= j <= s.len(),
    ensures
        byte_offset(s, i) <= byte_offset(s, j),
    decreases j - i,
{
    if i < j {
        lemma_byte_offset_monotonic(s, i, j - 1);
        lemma_byte_offset_step(s, j - 1);
    }
}

/// Distinct character indices have distinct byte offsets: every character
/// takes at least one byte.
pub proof fn lemma_byte_offset_strict(s: Seq<char>, i: int, j: int)
    requires
        0 <= i < j <= s.len(),
    ensures
        byte_offset(s, i) < byte_offset(s, j),
{
    lemma_byte_offset_monotonic(s, i, j - 1);
    lemma_byte_offset_step(s, j - 1);
    assert(encode_scalar(s[j - 1] as u32).len() >= 1);
}

/// Byte offsets of every character index `0..=chars.len()` of a text whose
/// UTF-8 encoding has `byte_len` bytes.
pub fn byte_offsets(chars: &[char], byte_len: usize) -> (result: Vec<usize>)
    requires
        encode_utf8(chars@).len() == byte_len,
    ensures
        result@.len() == chars@.len() + 1,
        forall|i: int| 0 <= i <= chars@.len() ==> result@[i] == byte_offset(chars@, i),
{
    let mut result: Vec<usize> = Vec::new();
    let mut offset: usize = 0;
    let mut i: usize = 0;
    proof {
        assert(chars@.take(0) =~= Seq::<char>::empty());
        assert(chars@.take(chars@.len() as int) =~= chars@);
    }
    while i < chars.len()
        invariant
            i <= chars@.len(),
            encode_utf8(chars@).len() == byte_len,
            chars@.take(chars@.len() as int) == chars@,
            offset == byte_offset(chars@, i as int),
            result@.len() == i,
            forall|k: int| 0 <= k < i ==> result@[k] == byte_offset(chars@, k),
        decreases chars@.len() - i,
    {
        result.push(offset);
        proof {
            lemma_byte_offset_step(chars@, i as int);
            lemma_byte_offset_monotonic(chars@, i as int + 1, chars@.len() as int);
        }
        let w = utf8_width(chars[i]);
        offset = offset + w;
        i = i + 1;
    }
    result.push(offset);
    result
}

/// Number of bytes in the UTF-8 encoding of `s` (`str::len`).
pub fn byte_length(s: &str) -> (result: usize)
    ensures
        result == encode_utf8(s@).len(),
{
    let bytes = s.as_bytes();
    bytes.len()
}

/// Index of the first `c` at or after `from`.
pub open spec fn find_char(s: Seq<char>, from: int, c: char) -> Option<int>
    decreases s.len() - from,
{
    if from < 0 || from >= s.len() {
        None
    } else if s[from] == c {
        Some(from)
    } else {
        find_char(s, from + 1, c)
    }
}

pub proof fn lemma_find_char(s: Seq<char>, from: int, c: char)
    requires
        0 <= from,
    ensures
        find_char(s, from, c) matches Some(j) ==> from <= j < s.len() && s[j] == c && forall|k: int| from <= k < j ==> s[k] != c,
        find_char(s, from, c) is None ==> forall|k: int| from <= k < s.len() ==> s[k] != c,
    decreases s.len() - from,
{
    if from < s.len() && s[from] != c {
        lemma_find_char(s, from + 1, c);
    }
}

/// Index of the first `c` at or after `from` in `chars`.
pub fn find_char_in(chars: &[char], from: usize, c: char) -> (result: Option<usize>)
    ensures
        match result {
            Some(j) => find_char(chars@, from as int, c) == Some(j as int),
            None => find_char(chars@, from as int, c) is None,
        },
{
    let mut i = from;
    while i < chars.len()
        invariant
            from <= i,
            find_char(chars@, from as int, c) == find_char(chars@, i as int, c),
        decreases chars@.len() - i,
    {
        if chars[i] == c {
            return Some(i);
        }
        i = i + 1;
    }
    None
}

/// `items` joined with `separator` between them.
pub open spec fn join(items: Seq<Seq<char>>, separator: Seq<char>) -> Seq<char>
    decreases items.len(),
{
    if items.len() == 0 {
        Seq::empty()
    } else if items.len() == 1 {
        items[0]
    } else {
        join(items.drop_last(), separator) + separator + items.last()
    }
}

pub proof fn lemma_join_push(items: Seq<Seq<char>>, separator: Seq<char>, item: Seq<char>)
    ensures
        join(items.push(item), separator) == if items.len() == 0 {
            item
        } else {
            join(items, separator) + separator + item
        },
{
    assert(items.push(item).drop_last() =~= items);
    if items.len() == 0 {
        assert(items.push(item) =~= seq![item]);
    }
}

/// The texts of `items` joined with `separator` between them.
pub fn join_texts(items: &Vec<String>, separator: &str) -> (result: String)
    ensures
        result@ == join(items@.map_values(|t: String| t@), separator@),
{
    let ghost views = items@.map_values(|t: String| t@);
    let mut result = String::new();
    let mut i: usize = 0;
    while i < items.len()
        invariant
            i <= items@.len(),
            views == items@.map_values(|t: String| t@),
            result@ == join(views.take(i as int), separator@),
        decreases items@.len() - i,
    {
        proof {
            assert(views.take(i + 1) =~= views.take(i as int).push(views[i as int]));
            lemma_join_push(views.take(i as int), separator@, views[i as int]);
        }
        if i > 0 {
            push_str(&mut result, separator);
        }
        push_str(&mut result, items[i].as_str());
        i = i + 1;
    }
    assert(views.take(items@.len() as int) =~= views);
    result
}

/// Number of characters of `s` (`s.chars().count()`).
pub fn char_count(s: &str) -> (result: usize)
    ensures
        result == s@.len(),
{
    let chars = chars_of(s);
    chars.len()
}

/// `s` without trailing white space.
pub fn trim_end_text(s: &str) -> (result: String)
    ensures
        result@ == trim_end(s@),
{
    let chars = chars_of(s);
    let mut end = chars.len();
    while end > 0 && is_white_space_char(chars[end - 1])
        invariant
            end <= chars@.len(),
            chars@ == s@,
            skip_white_space_back(s@, 0, end as int) == skip_white_space_back(s@, 0, s@.len() as int),
        decreases end,
    {
        end = end - 1;
    }
    string_from_chars(chars.as_slice(), 0, end)
}

/// The lines of `s` from `from` on, each with its line break when it has
/// one, as `BufRead::read_line` returns them.
pub open spec fn lines_from(s: Seq<char>, from: int) -> Seq<Seq<char>>
    decreases s.len() - from,
{
    if from < 0 || from >= s.len() {
        Seq::empty()
    } else {
        match find_char(s, from, '\n') {
            Some(j) => {
                proof {
                    lemma_find_char(s, from, '\n');
                }
                seq![s.subrange(from, j + 1)] + lines_from(s, j + 1)
            },
            None => seq![s.subrange(from, s.len() as int)],
        }
    }
}

/// The lines of a text (see [`lines_from`]).
pub fn split_lines(text: &str) -> (result: Vec<String>)
    ensures
        result@.map_values(|t: String| t@) == lines_from(text@, 0),
{
    let chars = chars_of(text);
    let ghost s = chars@;
    let mut result: Vec<String> = Vec::new();
    let mut from: usize = 0;
    while from < chars.len()
        invariant
            s == chars@,
            s == text@,
            from <= s.len(),
            result@.map_values(|t: String| t@) + lines_from(s, from as int) == lines_from(s, 0),
        decreases s.len() - from,
    {
        let ghost before = result@;
        proof {
            lemma_find_char(s, from as int, '\n');
        }
        match find_char_in(chars.as_slice(), from, '\n') {
            Some(j) => {
                let line = string_from_chars(chars.as_slice(), from, j + 1);
                result.push(line);
                assert(result@.map_values(|t: String| t@) =~= before.map_values(|t: String| t@).push(line@));
                assert(result@.map_values(|t: String| t@) + lines_from(s, j + 1) =~= before.map_values(|t: String| t@) + lines_from(
                    s,
                    from as int,
                ));
                from = j + 1;
            },
            None => {
                let line = string_from_chars(chars.as_slice(), from, chars.len());
                result.push(line);
                assert(result@.map_values(|t: String| t@) =~= before.map_values(|t: String| t@).push(line@));
                assert(result@.map_values(|t: String| t@) + lines_from(s, s.len() as int) =~= before.map_values(|t: String| t@)
                    + lines_from(s, from as int));
                from = chars.len();
            },
        }
    }
    assert(result@.map_values(|t: String| t@) + lines_from(s, from as int) =~= result@.map_values(|t: String| t@));
    result
}

proof fn lemma_skip_white_space(s: Seq<char>, i: int)
    requires
        0 <= i <= s.len(),
    ensures
        i <= skip_white_space(s, i) <= s.len(),
        skip_white_space(s, i) < s.len() ==> !is_white_space(s[skip_white_space(s, i)]),
    decreases s.len() - i,
{
    if i < s.len() && is_white_space(s[i]) {
        lemma_skip_white_space(s, i + 1);
    }
}

proof fn lemma_skip_white_space_back(s: Seq<char>, lo: int, j: int)
    requires
        0 <= lo <= j <= s.len(),
    ensures
        lo <= skip_white_space_back(s, lo, j) <= j,
        skip_white_space_back(s, lo, j) > lo ==> !is_white_space(s[skip_white_space_back(s, lo, j) - 1]),
    decreases j - lo,
{
    if lo < j && is_white_space(s[j - 1]) {
        lemma_skip_white_space_back(s, lo, j - 1);
    }
}

/// Trimming twice is trimming once.
pub proof fn lemma_trim_idempotent(s: Seq<char>)
    ensures
        trim(trim(s)) == trim(s),
{
    let a = skip_white_space(s, 0);
    lemma_skip_white_space(s, 0);
    let b = skip_white_space_back(s, a, s.len() as int);
    lemma_skip_white_space_back(s, a, s.len() as int);
    let t = trim(s);
    assert(t == s.subrange(a, b));
    if t.len() == 0 {
        assert(skip_white_space(t, 0) == 0);
        assert(trim(t) =~= t);
    } else {
        assert(t[0] == s[a]);
        assert(skip_white_space(t, 0) == 0);
        assert(t[t.len() - 1] == s[b - 1]);
        assert(skip_white_space_back(t, 0, t.len() as int) == t.len());
        assert(trim(t) =~= t);
    }
}

} // verus!
