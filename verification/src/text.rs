use vstd::prelude::*;
use vstd::string::*;

verus! {

/// The text that a lossy UTF-8 decoding of `bytes` yields.
pub uninterp spec fn lossy_text(bytes: Seq<u8>) -> Seq<char>;

/// Every byte is below 0x80.
pub open spec fn all_ascii(bytes: Seq<u8>) -> bool {
    forall|i: int| 0 <= i < bytes.len() ==> bytes[i] < 0x80
}

/// Each byte read as the character with the same code.
pub open spec fn ascii_text(bytes: Seq<u8>) -> Seq<char> {
    Seq::new(bytes.len(), |i: int| bytes[i] as char)
}

/// The text that bytes are read as: one character for each byte where all
/// of them are ASCII, else what a lossy UTF-8 decoding yields.
pub open spec fn text_of_bytes(bytes: Seq<u8>) -> Seq<char> {
    if all_ascii(bytes) {
        ascii_text(bytes)
    } else {
        lossy_text(bytes)
    }
}

/// Calls `String::from_utf8_lossy`. The result is a function of the bytes
/// alone; on bytes that are all ASCII it is those bytes, one character each.
#[verifier::external_body]
pub(crate) fn string_from_bytes(bytes: &[u8]) -> (r: String)
    ensures
        r@ == lossy_text(bytes@),
        all_ascii(bytes@) ==> r@ == ascii_text(bytes@),
{
    String::from_utf8_lossy(bytes).into_owned()
}

/// Calls `String::push`: appends one character.
#[verifier::external_body]
pub(crate) fn push_char(s: &mut String, c: char)
    ensures
        final(s)@ == old(s)@.push(c),
{
    s.push(c)
}

/// The character at the offset `i`.
pub fn char_at(chars: &Vec<char>, i: usize) -> (c: char)
    requires
        i < chars.len(),
    ensures
        c == chars@[i as int],
{
    chars[i]
}

/// The characters of `s`.
pub fn chars_of(s: &str) -> (r: Vec<char>)
    ensures
        r@ == s@,
{
    let mut out: Vec<char> = Vec::new();
    for c in it: s.chars()
        invariant
            it.seq() == s@,
            out@ == it.seq().take(it.index()),
    {
        out.push(c);
        assert(out@ =~= it.seq().take(it.index() + 1));
    }
    assert(out@ =~= s@);
    out
}

/// The string made of `chars[from..to]`.
pub fn string_of_range(chars: &Vec<char>, from: usize, to: usize) -> (r: String)
    requires
        from <= to <= chars.len(),
    ensures
        r@ == chars@.subrange(from as int, to as int),
{
    let mut out = String::new();
    let mut i: usize = from;
    assert(out@ =~= chars@.subrange(from as int, i as int));
    while i < to
        invariant
            from <= i <= to <= chars.len(),
            out@ == chars@.subrange(from as int, i as int),
        decreases to - i,
    {
        push_char(&mut out, chars[i]);
        i += 1;
        assert(out@ =~= chars@.subrange(from as int, i as int));
    }
    out
}

/// The string made of `chars`.
pub fn string_of(chars: &Vec<char>) -> (r: String)
    ensures
        r@ == chars@,
{
    let r = string_of_range(chars, 0, chars.len());
    assert(chars@.subrange(0, chars@.len() as int) =~= chars@);
    r
}

/// A character with the Unicode property `White_Space`.
pub open spec fn whitespace(c: char) -> bool {
    let u = c as u32;
    (0x09 <= u <= 0x0d) || u == 0x20 || u == 0x85 || u == 0xa0 || u == 0x1680 || (0x2000 <= u
        <= 0x200a) || u == 0x2028 || u == 0x2029 || u == 0x202f || u == 0x205f || u == 0x3000
}

/// Whether `c` is whitespace.
pub fn is_whitespace(c: char) -> (r: bool)
    ensures
        r == whitespace(c),
{
    let u = c as u32;
    (0x09 <= u && u <= 0x0d) || u == 0x20 || u == 0x85 || u == 0xa0 || u == 0x1680 || (0x2000 <= u
        && u <= 0x200a) || u == 0x2028 || u == 0x2029 || u == 0x202f || u == 0x205f || u == 0x3000
}

/// The number of whitespace characters at the start of `s`.
pub open spec fn leading_ws(s: Seq<char>) -> int
    decreases s.len(),
{
    if s.len() > 0 && whitespace(s[0]) {
        1 + leading_ws(s.drop_first())
    } else {
        0
    }
}

/// The number of whitespace characters at the end of `s`.
pub open spec fn trailing_ws(s: Seq<char>) -> int
    decreases s.len(),
{
    if s.len() > 0 && whitespace(s.last()) {
        1 + trailing_ws(s.drop_last())
    } else {
        0
    }
}

/// `s` without the whitespace at its start and at its end.
pub open spec fn trimmed(s: Seq<char>) -> Seq<char> {
    let a = leading_ws(s);
    let rest = s.subrange(a, s.len() as int);
    rest.subrange(0, rest.len() - trailing_ws(rest))
}

/// `s` holds nothing but whitespace.
pub open spec fn is_blank_text(s: Seq<char>) -> bool {
    trimmed(s).len() == 0
}

pub proof fn lemma_leading_ws(s: Seq<char>)
    ensures
        0 <= leading_ws(s) <= s.len(),
        forall|k: int| 0 <= k < leading_ws(s) ==> whitespace(#[trigger] s[k]),
        leading_ws(s) < s.len() ==> !whitespace(s[leading_ws(s)]),
    decreases s.len(),
{
    if s.len() > 0 && whitespace(s[0]) {
        let t = s.drop_first();
        lemma_leading_ws(t);
        assert forall|k: int| 0 <= k < leading_ws(s) implies whitespace(#[trigger] s[k]) by {
            if k > 0 {
                assert(s[k] == t[k - 1]);
            }
        }
        if leading_ws(s) < s.len() {
            assert(s[leading_ws(s)] == t[leading_ws(t)]);
        }
    }
}

pub proof fn lemma_trailing_ws(s: Seq<char>)
    ensures
        0 <= trailing_ws(s) <= s.len(),
        forall|k: int| s.len() - trailing_ws(s) <= k < s.len() ==> whitespace(#[trigger] s[k]),
        trailing_ws(s) < s.len() ==> !whitespace(s[s.len() - trailing_ws(s) - 1]),
    decreases s.len(),
{
    if s.len() > 0 && whitespace(s.last()) {
        let t = s.drop_last();
        lemma_trailing_ws(t);
        assert forall|k: int| s.len() - trailing_ws(s) <= k < s.len() implies whitespace(
            #[trigger] s[k],
        ) by {
            if k < s.len() - 1 {
                assert(s[k] == t[k]);
            }
        }
        if trailing_ws(s) < s.len() {
            assert(s[s.len() - trailing_ws(s) - 1] == t[t.len() - trailing_ws(t) - 1]);
        }
    }
}

/// What counts the leading whitespace: the first offset that holds none.
pub proof fn lemma_leading_ws_is(s: Seq<char>, a: int)
    requires
        0 <= a <= s.len(),
        forall|k: int| 0 <= k < a ==> whitespace(#[trigger] s[k]),
        a < s.len() ==> !whitespace(s[a]),
    ensures
        leading_ws(s) == a,
{
    lemma_leading_ws(s);
    let l = leading_ws(s);
    if l < a {
        assert(whitespace(s[l]));
    } else if a < l {
        assert(whitespace(s[a]));
    }
}

/// What counts the trailing whitespace: the last offset that holds none.
pub proof fn lemma_trailing_ws_is(s: Seq<char>, n: int)
    requires
        0 <= n <= s.len(),
        forall|k: int| s.len() - n <= k < s.len() ==> whitespace(#[trigger] s[k]),
        n < s.len() ==> !whitespace(s[s.len() - n - 1]),
    ensures
        trailing_ws(s) == n,
{
    lemma_trailing_ws(s);
    let t = trailing_ws(s);
    if t < n {
        assert(whitespace(s[s.len() - t - 1]));
    } else if n < t {
        assert(whitespace(s[s.len() - n - 1]));
    }
}

/// The offsets between which the trimmed text of `chars` lies.
pub fn trim_bounds(chars: &Vec<char>) -> (r: (usize, usize))
    ensures
        r.0 <= r.1 <= chars.len(),
        chars@.subrange(r.0 as int, r.1 as int) == trimmed(chars@),
{
    let n = chars.len();
    let mut a: usize = 0;
    while a < n && is_whitespace(chars[a])
        invariant
            a <= n == chars.len(),
            forall|k: int| 0 <= k < a ==> whitespace(#[trigger] chars@[k]),
        decreases n - a,
    {
        a += 1;
    }
    let mut e: usize = n;
    while e > a && is_whitespace(chars[e - 1])
        invariant
            a <= e <= n == chars.len(),
            forall|k: int| e <= k < n ==> whitespace(#[trigger] chars@[k]),
        decreases e,
    {
        e -= 1;
    }
    proof {
        lemma_leading_ws_is(chars@, a as int);
        let rest = chars@.subrange(a as int, n as int);
        assert forall|k: int| rest.len() - (n - e) <= k < rest.len() implies whitespace(
            #[trigger] rest[k],
        ) by {
            assert(rest[k] == chars@[a + k]);
        }
        if n - e < rest.len() {
            assert(rest[rest.len() - (n - e) - 1] == chars@[e - 1]);
        }
        lemma_trailing_ws_is(rest, n - e);
        assert(rest.subrange(0, rest.len() - (n - e)) =~= chars@.subrange(a as int, e as int));
    }
    (a, e)
}

/// `s` without the whitespace at its start and at its end.
pub fn trim(s: &str) -> (r: String)
    ensures
        r@ == trimmed(s@),
{
    let chars = chars_of(s);
    let (a, e) = trim_bounds(&chars);
    string_of_range(&chars, a, e)
}

/// `c` in lower case if it is an ASCII capital, else `c`.
pub open spec fn lower_char(c: char) -> char {
    if 'A' <= c <= 'Z' {
        ((c as u8) + 32) as char
    } else {
        c
    }
}

/// `s` with each ASCII capital in lower case.
pub open spec fn lower_text(s: Seq<char>) -> Seq<char> {
    Seq::new(s.len(), |i: int| lower_char(s[i]))
}

/// `a` and `b` are the same but for the case of ASCII letters.
pub open spec fn same_ignoring_case(a: Seq<char>, b: Seq<char>) -> bool {
    lower_text(a) == lower_text(b)
}

/// The ASCII letter `c` in lower case; any other character as it is.
pub fn to_lower_char(c: char) -> (r: char)
    ensures
        r == lower_char(c),
{
    if 'A' <= c && c <= 'Z' {
        ((c as u8) + 32) as char
    } else {
        c
    }
}

/// The characters of `s`, each ASCII capital in lower case.
pub fn lower_chars(s: &str) -> (r: Vec<char>)
    ensures
        r@ == lower_text(s@),
{
    let chars = chars_of(s);
    let mut out: Vec<char> = Vec::new();
    let mut i: usize = 0;
    while i < chars.len()
        invariant
            i <= chars.len(),
            out@ == lower_text(chars@.subrange(0, i as int)),
        decreases chars.len() - i,
    {
        out.push(to_lower_char(chars[i]));
        i += 1;
        assert(out@ =~= lower_text(chars@.subrange(0, i as int)));
    }
    assert(chars@.subrange(0, chars@.len() as int) =~= chars@);
    out
}

/// `s` with each ASCII capital in lower case.
pub fn to_lower(s: &str) -> (r: String)
    ensures
        r@ == lower_text(s@),
{
    let chars = lower_chars(s);
    string_of(&chars)
}

/// Whether two character vectors hold the same characters.
pub fn chars_eq(a: &Vec<char>, b: &Vec<char>) -> (r: bool)
    ensures
        r == (a@ == b@),
{
    if a.len() != b.len() {
        return false;
    }
    let mut i: usize = 0;
    while i < a.len()
        invariant
            i <= a.len() == b.len(),
            a@.subrange(0, i as int) == b@.subrange(0, i as int),
        decreases a.len() - i,
    {
        if a[i] != b[i] {
            return false;
        }
        i += 1;
        assert(a@.subrange(0, i as int) =~= a@.subrange(0, i - 1).push(a@[i - 1]));
        assert(b@.subrange(0, i as int) =~= b@.subrange(0, i - 1).push(b@[i - 1]));
    }
    assert(a@ =~= a@.subrange(0, a@.len() as int));
    assert(b@ =~= b@.subrange(0, b@.len() as int));
    true
}

/// Whether two strings hold the same text.
pub fn text_eq(a: &str, b: &str) -> (r: bool)
    ensures
        r == (a@ == b@),
{
    let x = chars_of(a);
    let y = chars_of(b);
    chars_eq(&x, &y)
}

/// Whether two strings hold the same text but for the case of ASCII letters.
pub fn eq_ignore_case(a: &str, b: &str) -> (r: bool)
    ensures
        r == same_ignoring_case(a@, b@),
{
    let x = lower_chars(a);
    let y = lower_chars(b);
    chars_eq(&x, &y)
}

/// Whether `c` occurs in `s`.
pub fn contains_char(s: &str, c: char) -> (r: bool)
    ensures
        r == s@.contains(c),
{
    let chars = chars_of(s);
    let mut i: usize = 0;
    while i < chars.len()
        invariant
            i <= chars.len(),
            forall|k: int| 0 <= k < i ==> chars@[k] != c,
        decreases chars.len() - i,
    {
        if chars[i] == c {
            return true;
        }
        i += 1;
    }
    false
}

/// Whether `token`, as bytes, spells `word` but for the case of ASCII letters.
pub open spec fn is_keyword(token: Seq<u8>, word: Seq<char>) -> bool {
    same_ignoring_case(ascii_text(token), word) && all_ascii(token)
}

/// Whether `bytes[from..to]` spells `word` but for the case of ASCII letters.
pub fn matches_keyword(bytes: &[u8], from: usize, to: usize, word: &str) -> (r: bool)
    requires
        from <= to <= bytes.len(),
    ensures
        r == is_keyword(bytes@.subrange(from as int, to as int), word@),
{
    let w = lower_chars(word);
    let ghost token = bytes@.subrange(from as int, to as int);
    if to - from != w.len() {
        assert(lower_text(ascii_text(token)).len() != lower_text(word@).len());
        return false;
    }
    let mut i: usize = 0;
    while i < w.len()
        invariant
            i <= w.len() == to - from,
            token.len() == w.len(),
            forall|k: int|
                0 <= k < i ==> (#[trigger] token[k]) < 0x80 && lower_char(token[k] as char)
                    == w@[k],
        decreases w.len() - i,
    {
        let b = bytes[from + i];
        assert(b == token[i as int]);
        if b >= 0x80 || to_lower_char(b as char) != w[i] {
            if b < 0x80 {
                assert(lower_text(ascii_text(token))[i as int] == lower_char(b as char));
                assert(lower_text(word@)[i as int] == w@[i as int]);
            }
            return false;
        }
        i += 1;
    }
    assert forall|k: int| 0 <= k < token.len() implies lower_text(ascii_text(token))[k]
        == lower_text(word@)[k] by {
        assert(token[k] < 0x80);
    }
    assert(lower_text(ascii_text(token)) =~= lower_text(word@));
    true
}

/// The text of an optional string.
pub open spec fn option_text(r: Option<String>) -> Option<Seq<char>> {
    match r {
        Some(s) => Some(s@),
        None => None,
    }
}

/// The parts one after the other.
pub open spec fn concat_all(parts: Seq<Seq<char>>) -> Seq<char>
    decreases parts.len(),
{
    if parts.len() == 0 {
        Seq::empty()
    } else {
        concat_all(parts.drop_last()) + parts.last()
    }
}

/// The parts one after the other, as one string.
pub fn concat(parts: &Vec<&str>) -> (r: String)
    ensures
        r@ == concat_all(parts.deep_view()),
{
    let mut out = String::new();
    let mut i: usize = 0;
    let ghost texts = parts.deep_view();
    assert(texts.take(0) =~= Seq::<Seq<char>>::empty());
    while i < parts.len()
        invariant
            i <= parts.len(),
            texts == parts.deep_view(),
            out@ == concat_all(texts.take(i as int)),
        decreases parts.len() - i,
    {
        out.append(parts[i]);
        i += 1;
        assert(texts.take(i as int).drop_last() =~= texts.take(i - 1));
        assert(texts.take(i as int).last() == parts[i - 1]@);
    }
    assert(texts.take(parts.len() as int) =~= texts);
    out
}

/// A copy of `s`.
pub fn copy_text(s: &str) -> (r: String)
    ensures
        r@ == s@,
{
    String::from_str(s)
}

/// The decimal digits of `n`.
pub open spec fn decimal_text(n: nat) -> Seq<char>
    decreases n,
{
    if n < 10 {
        seq![digit_char(n)]
    } else {
        decimal_text(n / 10).push(digit_char(n % 10))
    }
}

pub open spec fn digit_char(d: nat) -> char {
    ((0x30 + d % 10) as u8) as char
}

/// `n` in decimal.
pub fn decimal(n: usize) -> (r: String)
    ensures
        r@ == decimal_text(n as nat),
{
    let mut digits: Vec<char> = Vec::new();
    let mut rest = n;
    while rest >= 10
        invariant
            decimal_text(n as nat) == decimal_text(rest as nat) + digits@.reverse(),
        decreases rest,
    {
        let d = (rest % 10) as u8;
        let ghost before = digits@;
        digits.push((0x30 + d) as char);
        assert(digits@.reverse() =~= seq![digit_char((rest % 10) as nat)] + before.reverse());
        assert(decimal_text(rest as nat) == decimal_text((rest / 10) as nat).push(
            digit_char((rest % 10) as nat),
        ));
        assert(decimal_text((rest / 10) as nat).push(digit_char((rest % 10) as nat))
            + before.reverse() =~= decimal_text((rest / 10) as nat) + digits@.reverse());
        rest = rest / 10;
    }
    let ghost before = digits@;
    digits.push((0x30 + (rest as u8)) as char);
    assert(digits@.reverse() =~= seq![digit_char(rest as nat)] + before.reverse());
    let mut out = String::new();
    let mut i: usize = digits.len();
    assert(digits@.reverse().take(0) =~= Seq::<char>::empty());
    while i > 0
        invariant
            i <= digits.len(),
            out@ == digits@.reverse().take(digits.len() - i),
        decreases i,
    {
        i -= 1;
        push_char(&mut out, digits[i]);
        assert(out@ =~= digits@.reverse().take(digits.len() - i));
    }
    assert(digits@.reverse().take(digits.len() as int) =~= digits@.reverse());
    out
}

/// The UTF-8 bytes of a text.
pub open spec fn utf8(s: Seq<char>) -> Seq<u8> {
    vstd::utf8::encode_utf8(s)
}

/// Appends the bytes of `tail` to `out`.
pub fn append_bytes(out: &mut Vec<u8>, tail: &[u8])
    ensures
        final(out)@ == old(out)@ + tail@,
{
    let mut i: usize = 0;
    assert(out@ =~= old(out)@ + tail@.take(0));
    while i < tail.len()
        invariant
            i <= tail.len(),
            out@ == old(out)@ + tail@.take(i as int),
        decreases tail.len() - i,
    {
        out.push(tail[i]);
        i += 1;
        assert(out@ =~= old(out)@ + tail@.take(i as int));
    }
    assert(tail@.take(tail.len() as int) =~= tail@);
}

/// Appends the UTF-8 bytes of `tail` to `out`.
pub fn append_text_bytes(out: &mut Vec<u8>, tail: &str)
    ensures
        final(out)@ == old(out)@ + utf8(tail@),
{
    append_bytes(out, tail.as_bytes());
}

/// `s` with `to` in place of each `from`.
pub open spec fn replaced(s: Seq<char>, from: char, to: char) -> Seq<char> {
    Seq::new(
        s.len(),
        |i: int|
            if s[i] == from {
                to
            } else {
                s[i]
            },
    )
}

/// `s` with `to` in place of each `from`.
pub fn replace_char(s: &str, from: char, to: char) -> (r: String)
    ensures
        r@ == replaced(s@, from, to),
{
    let chars = chars_of(s);
    let mut out: Vec<char> = Vec::new();
    let mut i: usize = 0;
    while i < chars.len()
        invariant
            i <= chars.len(),
            out@ == replaced(chars@.take(i as int), from, to),
        decreases chars.len() - i,
    {
        let c = char_at(&chars, i);
        out.push(if c == from {
            to
        } else {
            c
        });
        i += 1;
        assert(out@ =~= replaced(chars@.take(i as int), from, to));
    }
    assert(chars@.take(chars.len() as int) =~= chars@);
    string_of(&out)
}

/// Whether `s` starts with `prefix`.
pub open spec fn starts_with(s: Seq<char>, prefix: Seq<char>) -> bool {
    prefix.len() <= s.len() && s.subrange(0, prefix.len() as int) == prefix
}

/// Whether `s` starts with `prefix`.
pub fn chars_start_with(s: &Vec<char>, prefix: &Vec<char>) -> (r: bool)
    ensures
        r == starts_with(s@, prefix@),
{
    if prefix.len() > s.len() {
        return false;
    }
    let mut i: usize = 0;
    while i < prefix.len()
        invariant
            i <= prefix.len() <= s.len(),
            forall|k: int| 0 <= k < i ==> s@[k] == prefix@[k],
        decreases prefix.len() - i,
    {
        if s[i] != prefix[i] {
            assert(s@.subrange(0, prefix.len() as int)[i as int] != prefix@[i as int]);
            return false;
        }
        i += 1;
    }
    assert(s@.subrange(0, prefix.len() as int) =~= prefix@);
    true
}

/// Whether `a` comes before `b`, or is `b`, where texts are ordered
/// character by character and a text comes behind each text that it
/// starts with.
pub open spec fn text_le(a: Seq<char>, b: Seq<char>) -> bool
    decreases a.len(),
{
    if a.len() == 0 {
        true
    } else if b.len() == 0 {
        false
    } else if a[0] != b[0] {
        (a[0] as u32) < (b[0] as u32)
    } else {
        text_le(a.drop_first(), b.drop_first())
    }
}

/// The order of `a.skip(i)` and `b.skip(i)` is that of the texts from
/// the next offset on, where the two agree at `i`.
pub proof fn lemma_text_le_step(a: Seq<char>, b: Seq<char>, i: int)
    requires
        0 <= i < a.len(),
        i < b.len(),
        a[i] == b[i],
    ensures
        text_le(a.skip(i), b.skip(i)) == text_le(a.skip(i + 1), b.skip(i + 1)),
{
    assert(a.skip(i).drop_first() =~= a.skip(i + 1));
    assert(b.skip(i).drop_first() =~= b.skip(i + 1));
}

/// Whether `a` comes before `b` or is `b`.
pub fn chars_le(a: &Vec<char>, b: &Vec<char>) -> (r: bool)
    ensures
        r == text_le(a@, b@),
{
    let mut i: usize = 0;
    assert(a@.skip(0) =~= a@);
    assert(b@.skip(0) =~= b@);
    while i < a.len() && i < b.len()
        invariant
            i <= a.len(),
            i <= b.len(),
            text_le(a@.skip(i as int), b@.skip(i as int)) == text_le(a@, b@),
        decreases a.len() - i,
    {
        let x = char_at(a, i);
        let y = char_at(b, i);
        if x != y {
            assert(a@.skip(i as int)[0] == x);
            assert(b@.skip(i as int)[0] == y);
            return (x as u32) < (y as u32);
        }
        proof {
            lemma_text_le_step(a@, b@, i as int);
        }
        i += 1;
    }
    assert(a@.skip(i as int).len() == a.len() - i);
    assert(b@.skip(i as int).len() == b.len() - i);
    i >= a.len()
}

/// Whether the text of `a` comes before that of `b` or is it.
pub fn str_le(a: &str, b: &str) -> (r: bool)
    ensures
        r == text_le(a@, b@),
{
    let x = chars_of(a);
    let y = chars_of(b);
    chars_le(&x, &y)
}

/// Where `key` belongs among the sorted `keys`: behind the keys at or
/// after `i` that do not come behind it.
pub open spec fn sorted_position(keys: Seq<Seq<char>>, key: Seq<char>, i: int) -> int
    decreases keys.len() - i,
{
    if 0 <= i < keys.len() && text_le(keys[i], key) {
        sorted_position(keys, key, i + 1)
    } else {
        i
    }
}

pub proof fn lemma_sorted_position(keys: Seq<Seq<char>>, key: Seq<char>, i: int)
    requires
        0 <= i <= keys.len(),
    ensures
        i <= sorted_position(keys, key, i) <= keys.len(),
    decreases keys.len() - i,
{
    if i < keys.len() && text_le(keys[i], key) {
        lemma_sorted_position(keys, key, i + 1);
    }
}

/// `keys` with `key` put in where it belongs.
pub open spec fn with_sorted(keys: Seq<Seq<char>>, key: Seq<char>) -> Seq<Seq<char>> {
    keys.insert(sorted_position(keys, key, 0), key)
}

/// Puts `item` into the sorted `items` where it belongs.
pub fn insert_sorted(items: &mut Vec<String>, item: String)
    ensures
        final(items).deep_view() == with_sorted(old(items).deep_view(), item@),
{
    let ghost keys = items.deep_view();
    let mut i: usize = 0;
    proof {
        lemma_sorted_position(keys, item@, 0);
    }
    while i < items.len() && str_le(items[i].as_str(), item.as_str())
        invariant
            i <= items.len(),
            *items == *old(items),
            sorted_position(keys, item@, i as int) == sorted_position(keys, item@, 0),
        decreases items.len() - i,
    {
        assert(keys[i as int] == items[i as int]@);
        i += 1;
    }
    if i < items.len() {
        assert(keys[i as int] == items[i as int]@);
    }
    items.insert(i, item);
    assert(items.deep_view() =~= keys.insert(i as int, item@));
}

/// The pieces of `s` from the offset `i` on, cut at each `sep`, behind
/// the pieces `acc`; `cur` is the piece that is being read.
pub open spec fn split_from(
    s: Seq<char>,
    i: int,
    sep: char,
    cur: Seq<char>,
    acc: Seq<Seq<char>>,
) -> Seq<Seq<char>>
    decreases s.len() - i,
{
    if i < 0 || i >= s.len() {
        acc.push(cur)
    } else if s[i] == sep {
        split_from(s, i + 1, sep, Seq::empty(), acc.push(cur))
    } else {
        split_from(s, i + 1, sep, cur.push(s[i]), acc)
    }
}

/// The pieces of `s`, cut at each `sep`.
pub open spec fn split_text(s: Seq<char>, sep: char) -> Seq<Seq<char>> {
    split_from(s, 0, sep, Seq::empty(), Seq::empty())
}

/// Cuts `s` at each `sep`.
pub fn split_on(s: &str, sep: char) -> (r: Vec<String>)
    ensures
        r.deep_view() == split_text(s@, sep),
{
    let chars = chars_of(s);
    let mut out: Vec<String> = Vec::new();
    let mut cur: Vec<char> = Vec::new();
    let mut i: usize = 0;
    assert(out.deep_view() =~= Seq::<Seq<char>>::empty());
    while i < chars.len()
        invariant
            i <= chars.len(),
            chars@ == s@,
            split_from(chars@, i as int, sep, cur@, out.deep_view()) == split_text(s@, sep),
        decreases chars.len() - i,
    {
        let c = char_at(&chars, i);
        if c == sep {
            let piece = string_of(&cur);
            let ghost before = out;
            out.push(piece);
            assert(out.deep_view() =~= before.deep_view().push(piece@));
            cur = Vec::new();
        } else {
            cur.push(c);
        }
        i += 1;
    }
    let piece = string_of(&cur);
    let ghost before = out;
    out.push(piece);
    assert(out.deep_view() =~= before.deep_view().push(piece@));
    out
}

/// `acc` with the word `cur`, if it is one.
pub open spec fn with_word(acc: Seq<Seq<char>>, cur: Seq<char>) -> Seq<Seq<char>> {
    if cur.len() > 0 {
        acc.push(cur)
    } else {
        acc
    }
}

/// The words of `s` from the offset `i` on, behind the words `acc`.
pub open spec fn words_from(s: Seq<char>, i: int, cur: Seq<char>, acc: Seq<Seq<char>>) -> Seq<
    Seq<char>,
>
    decreases s.len() - i,
{
    if i < 0 || i >= s.len() {
        with_word(acc, cur)
    } else if whitespace(s[i]) {
        words_from(s, i + 1, Seq::empty(), with_word(acc, cur))
    } else {
        words_from(s, i + 1, cur.push(s[i]), acc)
    }
}

/// The words of `s`: its runs of characters that are not whitespace.
pub open spec fn words_of(s: Seq<char>) -> Seq<Seq<char>> {
    words_from(s, 0, Seq::empty(), Seq::empty())
}

/// The words of `s`.
pub fn split_words(s: &str) -> (r: Vec<String>)
    ensures
        r.deep_view() == words_of(s@),
{
    let chars = chars_of(s);
    let mut out: Vec<String> = Vec::new();
    let mut cur: Vec<char> = Vec::new();
    let mut i: usize = 0;
    assert(out.deep_view() =~= Seq::<Seq<char>>::empty());
    while i < chars.len()
        invariant
            i <= chars.len(),
            chars@ == s@,
            words_from(chars@, i as int, cur@, out.deep_view()) == words_of(s@),
        decreases chars.len() - i,
    {
        let c = char_at(&chars, i);
        if is_whitespace(c) {
            if cur.len() > 0 {
                let piece = string_of(&cur);
                let ghost before = out;
                out.push(piece);
                assert(out.deep_view() =~= before.deep_view().push(piece@));
                cur = Vec::new();
            }
            assert(cur@ =~= Seq::<char>::empty());
        } else {
            cur.push(c);
        }
        i += 1;
    }
    if cur.len() > 0 {
        let piece = string_of(&cur);
        let ghost before = out;
        out.push(piece);
        assert(out.deep_view() =~= before.deep_view().push(piece@));
    }
    out
}

/// The parts `parts[k..]`, each behind `sep`, behind `acc`.
pub open spec fn join_from(parts: Seq<Seq<char>>, k: int, sep: Seq<char>, acc: Seq<char>) -> Seq<char>
    decreases parts.len() - k,
{
    if k < 0 || k >= parts.len() {
        acc
    } else {
        join_from(parts, k + 1, sep, acc + sep + parts[k])
    }
}

/// The parts with `sep` between them.
pub open spec fn join_text(parts: Seq<Seq<char>>, sep: Seq<char>) -> Seq<char> {
    if parts.len() == 0 {
        Seq::empty()
    } else {
        join_from(parts, 1, sep, parts[0])
    }
}

/// The strings `parts[from..]` with `sep` between them.
pub fn join_texts(parts: &Vec<String>, from: usize, sep: &str) -> (r: String)
    requires
        from <= parts.len(),
    ensures
        r@ == join_text(parts.deep_view().skip(from as int), sep@),
{
    let ghost tail = parts.deep_view().skip(from as int);
    if from == parts.len() {
        return String::new();
    }
    assert(tail[0] == parts[from as int]@);
    let mut out = parts[from].clone();
    let mut k: usize = from + 1;
    while k < parts.len()
        invariant
            from < k <= parts.len(),
            tail == parts.deep_view().skip(from as int),
            join_from(tail, k - from, sep@, out@) == join_text(tail, sep@),
        decreases parts.len() - k,
    {
        assert(tail[k - from] == parts[k as int]@);
        out.append(sep);
        out.append(parts[k].as_str());
        k += 1;
    }
    out
}

/// Puts `item` where `key` says that it belongs.
pub fn insert_by_key(items: &mut Vec<String>, keys: &mut Vec<String>, item: String, key: String)
    requires
        old(items).len() == old(keys).len(),
    ensures
        final(items).len() == final(keys).len(),
        final(items).deep_view() == old(items).deep_view().insert(
            sorted_position(old(keys).deep_view(), key@, 0),
            item@,
        ),
        final(keys).deep_view() == old(keys).deep_view().insert(
            sorted_position(old(keys).deep_view(), key@, 0),
            key@,
        ),
{
    let ghost before = keys.deep_view();
    let ghost held = items.deep_view();
    let mut i: usize = 0;
    proof {
        lemma_sorted_position(before, key@, 0);
    }
    while i < keys.len() && str_le(keys[i].as_str(), key.as_str())
        invariant
            i <= keys.len(),
            *keys == *old(keys),
            *items == *old(items),
            sorted_position(before, key@, i as int) == sorted_position(before, key@, 0),
        decreases keys.len() - i,
    {
        assert(before[i as int] == keys[i as int]@);
        i += 1;
    }
    if i < keys.len() {
        assert(before[i as int] == keys[i as int]@);
    }
    keys.insert(i, key);
    items.insert(i, item);
    assert(keys.deep_view() =~= before.insert(i as int, key@));
    assert(items.deep_view() =~= held.insert(i as int, item@));
}

/// The first offset at or after `i` that does not hold `c`.
pub open spec fn skip_front(s: Seq<char>, c: char, i: int) -> int
    decreases s.len() - i,
{
    if 0 <= i < s.len() && s[i] == c {
        skip_front(s, c, i + 1)
    } else {
        i
    }
}

/// The end of the text that starts at `from` once every `c` at its end
/// is taken off.
pub open spec fn skip_back(s: Seq<char>, c: char, from: int, end: int) -> int
    decreases end,
{
    if 0 <= from < end <= s.len() && s[end - 1] == c {
        skip_back(s, c, from, end - 1)
    } else {
        end
    }
}

/// `s` without each `c` at its start and at its end.
pub open spec fn stripped(s: Seq<char>, c: char) -> Seq<char> {
    let from = skip_front(s, c, 0);
    s.subrange(from, skip_back(s, c, from, s.len() as int))
}

/// `s` without each `c` at its start and at its end.
pub fn strip_char(s: &str, c: char) -> (r: String)
    ensures
        r@ == stripped(s@, c),
{
    let chars = chars_of(s);
    let mut from: usize = 0;
    while from < chars.len() && char_at(&chars, from) == c
        invariant
            from <= chars.len(),
            skip_front(chars@, c, from as int) == skip_front(chars@, c, 0),
        decreases chars.len() - from,
    {
        from += 1;
    }
    let mut end: usize = chars.len();
    while end > from && char_at(&chars, end - 1) == c
        invariant
            from <= end <= chars.len(),
            skip_back(chars@, c, from as int, end as int) == skip_back(
                chars@,
                c,
                from as int,
                chars.len() as int,
            ),
        decreases end,
    {
        end -= 1;
    }
    string_of_range(&chars, from, end)
}

} // verus!
