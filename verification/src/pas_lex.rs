use vstd::prelude::*;

use crate::text::{
    all_ascii, ascii_text, is_blank_text, is_keyword, matches_keyword, string_from_bytes, text_eq,
    text_of_bytes, trim, trimmed,
};

verus! {

pub const BRACE_OPEN: u8 = 0x7b;

pub const BRACE_CLOSE: u8 = 0x7d;

pub const PAREN_OPEN: u8 = 0x28;

pub const PAREN_CLOSE: u8 = 0x29;

pub const STAR: u8 = 0x2a;

pub const SLASH: u8 = 0x2f;

pub const BACKSLASH: u8 = 0x5c;

pub const QUOTE: u8 = 0x27;

pub const NEWLINE: u8 = 0x0a;

pub const CARRIAGE_RETURN: u8 = 0x0d;

pub const TAB: u8 = 0x09;

pub const SPACE: u8 = 0x20;

pub const DOLLAR: u8 = 0x24;

pub const COMMA: u8 = 0x2c;

pub const SEMICOLON: u8 = 0x3b;

pub const PLUS: u8 = 0x2b;

pub const MINUS: u8 = 0x2d;

/// Whether `byte` may begin an identifier: an ASCII letter or an underscore.
pub open spec fn ident_start(byte: u8) -> bool {
    (0x41 <= byte <= 0x5a) || (0x61 <= byte <= 0x7a) || byte == 0x5f
}

/// Whether `byte` may continue an identifier: an ASCII letter or digit, an
/// underscore, or the dot that joins the parts of a qualified name.
pub open spec fn ident_continue(byte: u8) -> bool {
    ident_start(byte) || (0x30 <= byte <= 0x39) || byte == 0x2e
}

/// Space, tab, line feed or carriage return.
pub open spec fn blank(byte: u8) -> bool {
    byte == SPACE || byte == TAB || byte == NEWLINE || byte == CARRIAGE_RETURN
}

/// ASCII whitespace: the blanks and the form feed.
pub open spec fn ascii_space(byte: u8) -> bool {
    blank(byte) || byte == 0x0c
}

/// The byte at `i` exists and equals `c`.
pub open spec fn has_byte(b: Seq<u8>, i: int, c: u8) -> bool {
    0 <= i < b.len() && b[i] == c
}

/// Where a brace comment whose body starts at `i` ends: just past the first
/// `}` at or after `i`, or at the end of the buffer when there is none.
pub open spec fn brace_end(b: Seq<u8>, i: int) -> int
    decreases b.len() - i,
{
    if i >= b.len() {
        b.len() as int
    } else if b[i] == BRACE_CLOSE {
        i + 1
    } else {
        brace_end(b, i + 1)
    }
}

/// Where a `(* *)` comment whose body starts at `i` ends: just past the first
/// `*)` at or after `i`, or at the end of the buffer when there is none.
pub open spec fn paren_end(b: Seq<u8>, i: int) -> int
    decreases b.len() - i,
{
    if i + 1 >= b.len() {
        b.len() as int
    } else if b[i] == STAR && b[i + 1] == PAREN_CLOSE {
        i + 2
    } else {
        paren_end(b, i + 1)
    }
}

/// Where a line comment whose body starts at `i` ends: just past the first
/// line feed at or after `i`, or at the end of the buffer.
pub open spec fn line_end(b: Seq<u8>, i: int) -> int
    decreases b.len() - i,
{
    if i >= b.len() {
        b.len() as int
    } else if b[i] == NEWLINE {
        i + 1
    } else {
        line_end(b, i + 1)
    }
}

/// Where a quoted literal whose body starts at `i` ends: just past the first
/// quote that is not doubled, or at the end of the buffer.
pub open spec fn string_end(b: Seq<u8>, i: int) -> int
    decreases b.len() - i,
{
    if i >= b.len() {
        b.len() as int
    } else if b[i] == QUOTE {
        if has_byte(b, i + 1, QUOTE) {
            string_end(b, i + 2)
        } else {
            i + 1
        }
    } else {
        string_end(b, i + 1)
    }
}

/// The body of a quoted literal from `i` on, with `acc` already read: the
/// bytes up to the closing quote, each doubled quote standing for one, and the
/// offset just past the closing quote. `None` when the literal never closes.
pub open spec fn literal_scan(b: Seq<u8>, i: int, acc: Seq<u8>) -> Option<(Seq<u8>, int)>
    decreases b.len() - i,
{
    if i >= b.len() {
        None
    } else if b[i] == QUOTE {
        if has_byte(b, i + 1, QUOTE) {
            literal_scan(b, i + 2, acc.push(QUOTE))
        } else {
            Some((acc, i + 1))
        }
    } else {
        literal_scan(b, i + 1, acc.push(b[i]))
    }
}

/// The decoded quoted literal that opens at `start`, if one does and closes.
pub open spec fn string_literal(b: Seq<u8>, start: int) -> Option<(Seq<char>, int)> {
    if has_byte(b, start, QUOTE) {
        match literal_scan(b, start + 1, Seq::empty()) {
            Some((content, end)) => Some((text_of_bytes(content), end)),
            None => None,
        }
    } else {
        None
    }
}

/// The end of the comment or quoted literal that opens at `i`, if one does.
pub open spec fn comment_or_string_end(b: Seq<u8>, i: int) -> Option<int> {
    if !(0 <= i < b.len()) {
        None
    } else if b[i] == BRACE_OPEN {
        Some(brace_end(b, i + 1))
    } else if b[i] == PAREN_OPEN && has_byte(b, i + 1, STAR) {
        Some(paren_end(b, i + 2))
    } else if b[i] == SLASH && has_byte(b, i + 1, SLASH) {
        Some(line_end(b, i + 2))
    } else if b[i] == QUOTE {
        Some(string_end(b, i + 1))
    } else {
        None
    }
}

/// The end of the comment that opens at `i`, if one does; a quoted literal
/// does not count.
pub open spec fn comment_end(b: Seq<u8>, i: int) -> Option<int> {
    if has_byte(b, i, QUOTE) {
        None
    } else {
        comment_or_string_end(b, i)
    }
}

/// The first offset at or after `i` that holds neither a blank nor the start
/// of a comment or quoted literal.
pub open spec fn ws_comments_end(b: Seq<u8>, i: int) -> int
    decreases b.len() - i,
{
    if i < 0 || i >= b.len() {
        i
    } else if blank(b[i]) {
        ws_comments_end(b, i + 1)
    } else {
        match comment_or_string_end(b, i) {
            Some(e) => {
                proof {
                    lemma_comment_or_string_end_bounds(b, i);
                }
                ws_comments_end(b, e)
            },
            None => i,
        }
    }
}

/// The first offset at or after `i` that does not hold ASCII whitespace.
pub open spec fn ascii_ws_end(b: Seq<u8>, i: int) -> int
    decreases b.len() - i,
{
    if 0 <= i < b.len() && ascii_space(b[i]) {
        ascii_ws_end(b, i + 1)
    } else {
        i
    }
}

/// The first offset at or after `i` that does not continue an identifier.
pub open spec fn ident_end(b: Seq<u8>, i: int) -> int
    decreases b.len() - i,
{
    if 0 <= i < b.len() && ident_continue(b[i]) {
        ident_end(b, i + 1)
    } else {
        i
    }
}

pub proof fn lemma_brace_end_bounds(b: Seq<u8>, i: int)
    requires
        0 <= i <= b.len(),
    ensures
        i <= brace_end(b, i) <= b.len(),
        i < b.len() ==> i < brace_end(b, i),
    decreases b.len() - i,
{
    if i < b.len() && b[i] != BRACE_CLOSE {
        lemma_brace_end_bounds(b, i + 1);
    }
}

pub proof fn lemma_paren_end_bounds(b: Seq<u8>, i: int)
    requires
        0 <= i <= b.len(),
    ensures
        i <= paren_end(b, i) <= b.len(),
        i < b.len() ==> i < paren_end(b, i),
    decreases b.len() - i,
{
    if i + 1 < b.len() && !(b[i] == STAR && b[i + 1] == PAREN_CLOSE) {
        lemma_paren_end_bounds(b, i + 1);
    }
}

pub proof fn lemma_line_end_bounds(b: Seq<u8>, i: int)
    requires
        0 <= i <= b.len(),
    ensures
        i <= line_end(b, i) <= b.len(),
        i < b.len() ==> i < line_end(b, i),
    decreases b.len() - i,
{
    if i < b.len() && b[i] != NEWLINE {
        lemma_line_end_bounds(b, i + 1);
    }
}

pub proof fn lemma_string_end_bounds(b: Seq<u8>, i: int)
    requires
        0 <= i <= b.len(),
    ensures
        i <= string_end(b, i) <= b.len(),
        i < b.len() ==> i < string_end(b, i),
    decreases b.len() - i,
{
    if i < b.len() {
        if b[i] == QUOTE {
            if has_byte(b, i + 1, QUOTE) {
                lemma_string_end_bounds(b, i + 2);
            }
        } else {
            lemma_string_end_bounds(b, i + 1);
        }
    }
}

pub proof fn lemma_literal_scan_bounds(b: Seq<u8>, i: int, acc: Seq<u8>)
    requires
        0 <= i <= b.len(),
    ensures
        literal_scan(b, i, acc) matches Some((content, end)) ==> i < end <= b.len()
            && end == string_end(b, i),
        literal_scan(b, i, acc) is None ==> string_end(b, i) == b.len(),
    decreases b.len() - i,
{
    if i < b.len() {
        if b[i] == QUOTE {
            if has_byte(b, i + 1, QUOTE) {
                lemma_literal_scan_bounds(b, i + 2, acc.push(QUOTE));
            }
        } else {
            lemma_literal_scan_bounds(b, i + 1, acc.push(b[i]));
        }
    }
}

/// A comment or literal that opens inside the buffer ends after its first
/// byte and inside the buffer.
pub proof fn lemma_comment_or_string_end_bounds(b: Seq<u8>, i: int)
    ensures
        comment_or_string_end(b, i) matches Some(e) ==> i < e <= b.len(),
        comment_end(b, i) matches Some(e) ==> i < e <= b.len(),
{
    if 0 <= i < b.len() {
        if b[i] == BRACE_OPEN {
            lemma_brace_end_bounds(b, i + 1);
        } else if b[i] == PAREN_OPEN && has_byte(b, i + 1, STAR) {
            lemma_paren_end_bounds(b, i + 2);
        } else if b[i] == SLASH && has_byte(b, i + 1, SLASH) {
            lemma_line_end_bounds(b, i + 2);
        } else if b[i] == QUOTE {
            lemma_string_end_bounds(b, i + 1);
        }
    }
}

pub proof fn lemma_ws_comments_end_bounds(b: Seq<u8>, i: int)
    requires
        0 <= i <= b.len(),
    ensures
        i <= ws_comments_end(b, i) <= b.len(),
    decreases b.len() - i,
{
    if i < b.len() {
        if blank(b[i]) {
            lemma_ws_comments_end_bounds(b, i + 1);
        } else {
            lemma_comment_or_string_end_bounds(b, i);
            match comment_or_string_end(b, i) {
                Some(e) => lemma_ws_comments_end_bounds(b, e),
                None => {},
            }
        }
    }
}

pub proof fn lemma_ascii_ws_end_bounds(b: Seq<u8>, i: int)
    requires
        0 <= i <= b.len(),
    ensures
        i <= ascii_ws_end(b, i) <= b.len(),
    decreases b.len() - i,
{
    if i < b.len() && ascii_space(b[i]) {
        lemma_ascii_ws_end_bounds(b, i + 1);
    }
}

/// An identifier's bytes are ASCII, and it ends inside the buffer.
pub proof fn lemma_ident_end_bounds(b: Seq<u8>, i: int)
    requires
        0 <= i <= b.len(),
    ensures
        i <= ident_end(b, i) <= b.len(),
        forall|k: int| i <= k < ident_end(b, i) ==> ident_continue(#[trigger] b[k]),
    decreases b.len() - i,
{
    if i < b.len() && ident_continue(b[i]) {
        lemma_ident_end_bounds(b, i + 1);
    }
}

/// Whether `byte` may start an identifier.
pub fn is_ident_start(byte: u8) -> (r: bool)
    ensures
        r == ident_start(byte),
{
    (0x41 <= byte && byte <= 0x5a) || (0x61 <= byte && byte <= 0x7a) || byte == 0x5f
}

/// Whether `byte` may continue an identifier.
pub fn is_ident_continue(byte: u8) -> (r: bool)
    ensures
        r == ident_continue(byte),
{
    is_ident_start(byte) || (0x30 <= byte && byte <= 0x39) || byte == 0x2e
}

/// Whether `byte` is a space, a tab, a line feed or a carriage return.
pub fn is_blank(byte: u8) -> (r: bool)
    ensures
        r == blank(byte),
{
    byte == SPACE || byte == TAB || byte == NEWLINE || byte == CARRIAGE_RETURN
}

/// Whether `byte` is ASCII whitespace.
pub fn is_ascii_space(byte: u8) -> (r: bool)
    ensures
        r == ascii_space(byte),
{
    is_blank(byte) || byte == 0x0c
}

/// Whether the byte at the offset `i` is `c`.
pub fn byte_is(bytes: &[u8], i: usize, c: u8) -> (r: bool)
    ensures
        r == has_byte(bytes@, i as int, c),
{
    i < bytes.len() && bytes[i] == c
}

/// The offset behind the `{...}` comment whose body starts at `i`; the
/// end of the buffer where the comment does not close.
pub fn skip_brace_comment(bytes: &[u8], i: usize) -> (r: usize)
    ensures
        r == brace_end(bytes@, i as int),
        i <= bytes.len() ==> i <= r <= bytes.len(),
{
    let mut k = i;
    proof {
        if i <= bytes.len() {
            lemma_brace_end_bounds(bytes@, i as int);
        }
    }
    while k < bytes.len()
        invariant
            brace_end(bytes@, k as int) == brace_end(bytes@, i as int),
        decreases bytes.len() - k,
    {
        if bytes[k] == BRACE_CLOSE {
            return k + 1;
        }
        k += 1;
    }
    bytes.len()
}

/// The offset behind the `(*...*)` comment whose body starts at `i`; the
/// end of the buffer where the comment does not close.
pub fn skip_paren_comment(bytes: &[u8], i: usize) -> (r: usize)
    ensures
        r == paren_end(bytes@, i as int),
        i <= bytes.len() ==> i <= r <= bytes.len(),
{
    let mut k = i;
    proof {
        if i <= bytes.len() {
            lemma_paren_end_bounds(bytes@, i as int);
        }
    }
    while k < bytes.len() && bytes.len() - k > 1
        invariant
            paren_end(bytes@, k as int) == paren_end(bytes@, i as int),
        decreases bytes.len() - k,
    {
        if bytes[k] == STAR && bytes[k + 1] == PAREN_CLOSE {
            return k + 2;
        }
        k += 1;
    }
    bytes.len()
}

/// The offset behind the line feed that ends the `//` comment whose body
/// starts at `i`; the end of the buffer where there is none.
pub fn skip_line_comment(bytes: &[u8], i: usize) -> (r: usize)
    ensures
        r == line_end(bytes@, i as int),
        i <= bytes.len() ==> i <= r <= bytes.len(),
{
    let mut k = i;
    proof {
        if i <= bytes.len() {
            lemma_line_end_bounds(bytes@, i as int);
        }
    }
    while k < bytes.len()
        invariant
            line_end(bytes@, k as int) == line_end(bytes@, i as int),
        decreases bytes.len() - k,
    {
        if bytes[k] == NEWLINE {
            return k + 1;
        }
        k += 1;
    }
    bytes.len()
}

/// The offset behind the `'...'` literal whose body starts at `i`, in
/// which `''` stands for a quote; the end of the buffer where the literal
/// does not close.
pub fn skip_string(bytes: &[u8], i: usize) -> (r: usize)
    ensures
        r == string_end(bytes@, i as int),
        i <= bytes.len() ==> i <= r <= bytes.len(),
{
    let mut k = i;
    proof {
        if i <= bytes.len() {
            lemma_string_end_bounds(bytes@, i as int);
        }
    }
    while k < bytes.len()
        invariant
            string_end(bytes@, k as int) == string_end(bytes@, i as int),
        decreases bytes.len() - k,
    {
        if bytes[k] == QUOTE {
            if byte_is(bytes, k + 1, QUOTE) {
                k += 2;
            } else {
                return k + 1;
            }
        } else {
            k += 1;
        }
    }
    bytes.len()
}

/// The view of an optional text with an offset.
pub open spec fn text_at_view(r: Option<(String, usize)>) -> Option<(Seq<char>, int)> {
    match r {
        Some((s, e)) => Some((s@, e as int)),
        None => None,
    }
}

/// Reads the `'...'` literal that starts at `start`: its text, with `'`
/// for each `''`, and the offset behind it. There is none where no quote
/// stands at `start` or the literal does not close.
pub fn read_string_literal(bytes: &[u8], start: usize) -> (r: Option<(String, usize)>)
    ensures
        text_at_view(r) == string_literal(bytes@, start as int),
        r matches Some((_, e)) ==> start < e <= bytes.len(),
{
    if start >= bytes.len() || bytes[start] != QUOTE {
        return None;
    }
    let mut out: Vec<u8> = Vec::new();
    let mut k = start + 1;
    proof {
        lemma_literal_scan_bounds(bytes@, start + 1, Seq::empty());
    }
    while k < bytes.len()
        invariant
            start < k,
            literal_scan(bytes@, k as int, out@) == literal_scan(
                bytes@,
                start + 1,
                Seq::empty(),
            ),
        decreases bytes.len() - k,
    {
        if bytes[k] == QUOTE {
            if byte_is(bytes, k + 1, QUOTE) {
                out.push(QUOTE);
                k += 2;
            } else {
                let value = string_from_bytes(out.as_slice());
                return Some((value, k + 1));
            }
        } else {
            out.push(bytes[k]);
            k += 1;
        }
    }
    None
}

/// Skips the comment or quoted literal that opens at `i`, if one does.
pub fn skip_comment_or_string(bytes: &[u8], i: usize) -> (r: Option<usize>)
    ensures
        r matches Some(e) ==> comment_or_string_end(bytes@, i as int) == Some(e as int) && i < e
            <= bytes.len(),
        r is None ==> comment_or_string_end(bytes@, i as int) is None,
{
    proof {
        lemma_comment_or_string_end_bounds(bytes@, i as int);
    }
    if i >= bytes.len() {
        None
    } else if bytes[i] == BRACE_OPEN {
        Some(skip_brace_comment(bytes, i + 1))
    } else if bytes[i] == PAREN_OPEN && byte_is(bytes, i + 1, STAR) {
        Some(skip_paren_comment(bytes, i + 2))
    } else if bytes[i] == SLASH && byte_is(bytes, i + 1, SLASH) {
        Some(skip_line_comment(bytes, i + 2))
    } else if bytes[i] == QUOTE {
        Some(skip_string(bytes, i + 1))
    } else {
        None
    }
}

/// Skips the comment that opens at `i`, if one does.
pub fn skip_comment(bytes: &[u8], i: usize) -> (r: Option<usize>)
    ensures
        r matches Some(e) ==> comment_end(bytes@, i as int) == Some(e as int) && i < e
            <= bytes.len(),
        r is None ==> comment_end(bytes@, i as int) is None,
{
    if byte_is(bytes, i, QUOTE) {
        None
    } else {
        skip_comment_or_string(bytes, i)
    }
}

/// The offset behind the whitespace, comments and literals that start at
/// `i`.
pub fn skip_ws_and_comments(bytes: &[u8], i: usize) -> (r: usize)
    ensures
        r == ws_comments_end(bytes@, i as int),
        i <= bytes.len() ==> i <= r <= bytes.len(),
{
    let mut k = i;
    proof {
        if i <= bytes.len() {
            lemma_ws_comments_end_bounds(bytes@, i as int);
        }
    }
    while k < bytes.len()
        invariant
            ws_comments_end(bytes@, k as int) == ws_comments_end(bytes@, i as int),
        decreases bytes.len() - k,
    {
        if is_blank(bytes[k]) {
            k += 1;
        } else {
            match skip_comment_or_string(bytes, k) {
                Some(e) => {
                    k = e;
                },
                None => {
                    return k;
                },
            }
        }
    }
    k
}

/// The offset behind the ASCII whitespace that starts at `i`.
pub fn skip_ws(bytes: &[u8], i: usize) -> (r: usize)
    ensures
        r == ascii_ws_end(bytes@, i as int),
        i <= bytes.len() ==> i <= r <= bytes.len(),
{
    let mut k = i;
    proof {
        if i <= bytes.len() {
            lemma_ascii_ws_end_bounds(bytes@, i as int);
        }
    }
    while k < bytes.len() && is_ascii_space(bytes[k])
        invariant
            ascii_ws_end(bytes@, k as int) == ascii_ws_end(bytes@, i as int),
        decreases bytes.len() - k,
    {
        k += 1;
    }
    k
}

/// The identifier token that starts at `i`: its first byte, whatever it is,
/// and the bytes after it that continue an identifier.
pub open spec fn ident_token(b: Seq<u8>, i: int) -> Seq<u8> {
    b.subrange(i, ident_end(b, i + 1))
}

/// The text of the identifier that starts at `i`, one character per byte.
pub open spec fn ident_text(b: Seq<u8>, i: int) -> Seq<char> {
    ascii_text(ident_token(b, i))
}

/// An identifier that starts with a letter or an underscore is ASCII.
pub proof fn lemma_ident_token_ascii(b: Seq<u8>, i: int)
    requires
        0 <= i < b.len(),
        ident_start(b[i]),
    ensures
        all_ascii(ident_token(b, i)),
        i < ident_end(b, i + 1) <= b.len(),
        ident_token(b, i).len() == ident_end(b, i + 1) - i,
{
    lemma_ident_end_bounds(b, i + 1);
    let t = ident_token(b, i);
    assert forall|k: int| 0 <= k < t.len() implies t[k] < 0x80 by {
        assert(t[k] == b[i + k]);
        if k > 0 {
            assert(ident_continue(b[i + k]));
        }
    }
}

/// Reads the identifier that starts at `i`.
pub fn read_ident(bytes: &[u8], i: usize) -> (r: (String, usize))
    requires
        i < bytes.len(),
    ensures
        r.1 == ident_end(bytes@, i + 1),
        i < r.1 <= bytes.len(),
        r.0@ == text_of_bytes(ident_token(bytes@, i as int)),
        ident_start(bytes@[i as int]) ==> r.0@ == ident_text(bytes@, i as int),
{
    let end = scan_ident(bytes, i);
    proof {
        if ident_start(bytes@[i as int]) {
            lemma_ident_token_ascii(bytes@, i as int);
        }
    }
    (string_from_bytes(&bytes[i..end]), end)
}

/// The end of the identifier that starts at `i`.
pub fn scan_ident(bytes: &[u8], i: usize) -> (r: usize)
    requires
        i < bytes.len(),
    ensures
        r == ident_end(bytes@, i + 1),
        i < r <= bytes.len(),
{
    let mut k = i + 1;
    proof {
        lemma_ident_end_bounds(bytes@, i + 1);
    }
    while k < bytes.len() && is_ident_continue(bytes[k])
        invariant
            i < k <= bytes.len(),
            ident_end(bytes@, k as int) == ident_end(bytes@, i + 1),
        decreases bytes.len() - k,
    {
        k += 1;
    }
    k
}

/// Reads the identifier that starts at `i`; a dot joins the parts of a
/// qualified name into one token.
pub fn read_ident_with_dots(bytes: &[u8], i: usize) -> (r: (String, usize))
    requires
        i < bytes.len(),
    ensures
        r.1 == ident_end(bytes@, i + 1),
        i < r.1 <= bytes.len(),
        r.0@ == text_of_bytes(ident_token(bytes@, i as int)),
        ident_start(bytes@[i as int]) ==> r.0@ == ident_text(bytes@, i as int),
{
    read_ident(bytes, i)
}

/// The token that closes a comment.
#[derive(Copy, Clone, PartialEq, Eq, Structural)]
pub enum CommentEnd {
    Brace,
    Paren,
}

/// Whether the token that closes the comment stands at `i`.
pub open spec fn comment_close_at(b: Seq<u8>, i: int, end: CommentEnd) -> bool {
    match end {
        CommentEnd::Brace => has_byte(b, i, BRACE_CLOSE),
        CommentEnd::Paren => has_byte(b, i, STAR) && has_byte(b, i + 1, PAREN_CLOSE),
    }
}

/// The offset just past the first closing token at or after `i`.
pub open spec fn close_search(b: Seq<u8>, i: int, end: CommentEnd) -> Option<int>
    decreases b.len() - i,
{
    if i < 0 || i >= b.len() {
        None
    } else if comment_close_at(b, i, end) {
        match end {
            CommentEnd::Brace => Some(i + 1),
            CommentEnd::Paren => Some(i + 2),
        }
    } else {
        close_search(b, i + 1, end)
    }
}

/// Where a file name written without quotes ends: at the first ASCII
/// whitespace or closing token at or after `i`, or at the end of the buffer.
pub open spec fn bare_name_end(b: Seq<u8>, i: int, end: CommentEnd) -> int
    decreases b.len() - i,
{
    if 0 <= i < b.len() && !ascii_space(b[i]) && !comment_close_at(b, i, end) {
        bare_name_end(b, i + 1, end)
    } else {
        i
    }
}

/// The file name of a directive, read at `i`: a quoted literal that is not
/// blank, taken as it stands, or the bare token up to whitespace or the
/// closing token, trimmed; a lone `+` or `-` is a compiler switch, no name.
pub open spec fn directive_filename(b: Seq<u8>, i: int, end: CommentEnd) -> Option<
    (Seq<char>, int),
> {
    if i < 0 || i >= b.len() {
        None
    } else if b[i] == QUOTE {
        match string_literal(b, i) {
            Some((value, next)) => if is_blank_text(value) {
                None
            } else {
                Some((value, next))
            },
            None => None,
        }
    } else {
        let e = bare_name_end(b, i, end);
        let value = trimmed(text_of_bytes(b.subrange(i, e)));
        if e == i || value.len() == 0 || value == seq!['+'] || value == seq!['-'] {
            None
        } else {
            Some((value, e))
        }
    }
}

/// The include directive whose comment body starts at `i`: `$`, then `I` or
/// `INCLUDE` in any case, then the file name, then the closing token. The
/// result holds the file name and the offset just past the closing token.
pub open spec fn include_directive_inner(b: Seq<u8>, i: int, end: CommentEnd) -> Option<
    (Seq<char>, int),
> {
    let dollar = ascii_ws_end(b, i);
    let word = ascii_ws_end(b, dollar + 1);
    let word_end = ident_end(b, word + 1);
    let token = b.subrange(word, word_end);
    if !has_byte(b, dollar, DOLLAR) {
        None
    } else if word >= b.len() || !ident_start(b[word]) {
        None
    } else if !is_keyword(token, seq!['i']) && !is_keyword(
        token,
        seq!['i', 'n', 'c', 'l', 'u', 'd', 'e'],
    ) {
        None
    } else {
        match directive_filename(b, ascii_ws_end(b, word_end), end) {
            None => None,
            Some((name, next)) => match close_search(b, ascii_ws_end(b, next), end) {
                None => None,
                Some(e) => Some((name, e)),
            },
        }
    }
}

/// The include directive that the comment opening at `start` holds, if it
/// holds one: the file name and the offset just past the comment.
pub open spec fn include_directive(b: Seq<u8>, start: int) -> Option<(Seq<char>, int)> {
    if start < 0 || start >= b.len() {
        None
    } else if b[start] == BRACE_OPEN {
        include_directive_inner(b, start + 1, CommentEnd::Brace)
    } else if b[start] == PAREN_OPEN && has_byte(b, start + 1, STAR) {
        include_directive_inner(b, start + 2, CommentEnd::Paren)
    } else {
        None
    }
}

pub proof fn lemma_close_search_bounds(b: Seq<u8>, i: int, end: CommentEnd)
    requires
        0 <= i,
    ensures
        close_search(b, i, end) matches Some(e) ==> i < e <= b.len(),
    decreases b.len() - i,
{
    if i < b.len() && !comment_close_at(b, i, end) {
        lemma_close_search_bounds(b, i + 1, end);
    }
}

pub proof fn lemma_bare_name_end_bounds(b: Seq<u8>, i: int, end: CommentEnd)
    requires
        0 <= i <= b.len(),
    ensures
        i <= bare_name_end(b, i, end) <= b.len(),
    decreases b.len() - i,
{
    if i < b.len() && !ascii_space(b[i]) && !comment_close_at(b, i, end) {
        lemma_bare_name_end_bounds(b, i + 1, end);
    }
}

/// A directive ends after the byte that opens its comment, inside the buffer.
pub proof fn lemma_include_directive_bounds(b: Seq<u8>, start: int)
    ensures
        include_directive(b, start) matches Some((_, e)) ==> start < e <= b.len(),
{
    if 0 <= start < b.len() {
        let (i, end) = if b[start] == BRACE_OPEN {
            (start + 1, CommentEnd::Brace)
        } else {
            (start + 2, CommentEnd::Paren)
        };
        if include_directive_inner(b, i, end) is Some && i <= b.len() {
            lemma_ascii_ws_end_bounds(b, i);
            let dollar = ascii_ws_end(b, i);
            lemma_ascii_ws_end_bounds(b, dollar + 1);
            let word = ascii_ws_end(b, dollar + 1);
            lemma_ident_end_bounds(b, word + 1);
            let word_end = ident_end(b, word + 1);
            lemma_ascii_ws_end_bounds(b, word_end);
            let at = ascii_ws_end(b, word_end);
            let next = match directive_filename(b, at, end) {
                Some((_, n)) => n,
                None => 0,
            };
            if b[at] == QUOTE {
                lemma_literal_scan_bounds(b, at + 1, Seq::empty());
            } else {
                lemma_bare_name_end_bounds(b, at, end);
            }
            lemma_ascii_ws_end_bounds(b, next);
            lemma_close_search_bounds(b, ascii_ws_end(b, next), end);
        }
    }
}

fn is_comment_end(bytes: &[u8], i: usize, end: CommentEnd) -> (r: bool)
    ensures
        r == comment_close_at(bytes@, i as int, end),
{
    match end {
        CommentEnd::Brace => byte_is(bytes, i, BRACE_CLOSE),
        CommentEnd::Paren => i < bytes.len() && bytes[i] == STAR && byte_is(
            bytes,
            i + 1,
            PAREN_CLOSE,
        ),
    }
}

fn find_comment_end(bytes: &[u8], i: usize, end: CommentEnd) -> (r: Option<usize>)
    ensures
        r matches Some(e) ==> close_search(bytes@, i as int, end) == Some(e as int) && i < e
            <= bytes.len(),
        r is None ==> close_search(bytes@, i as int, end) is None,
{
    let mut k = i;
    proof {
        lemma_close_search_bounds(bytes@, i as int, end);
    }
    while k < bytes.len()
        invariant
            close_search(bytes@, k as int, end) == close_search(bytes@, i as int, end),
        decreases bytes.len() - k,
    {
        if is_comment_end(bytes, k, end) {
            return match end {
                CommentEnd::Brace => Some(k + 1),
                CommentEnd::Paren => Some(k + 2),
            };
        }
        k += 1;
    }
    None
}

fn read_directive_filename(bytes: &[u8], i: usize, end: CommentEnd) -> (r: Option<
    (String, usize),
>)
    ensures
        text_at_view(r) == directive_filename(bytes@, i as int, end),
        r matches Some((_, e)) ==> i < e <= bytes.len(),
{
    if i >= bytes.len() {
        return None;
    }
    if bytes[i] == QUOTE {
        return match read_string_literal(bytes, i) {
            Some((value, next)) => {
                let t = trim(value.as_str());
                if t.as_str().unicode_len() == 0 {
                    None
                } else {
                    Some((value, next))
                }
            },
            None => None,
        };
    }
    let mut k = i;
    proof {
        lemma_bare_name_end_bounds(bytes@, i as int, end);
    }
    while k < bytes.len() && !is_ascii_space(bytes[k]) && !is_comment_end(bytes, k, end)
        invariant
            i <= k <= bytes.len(),
            bare_name_end(bytes@, k as int, end) == bare_name_end(bytes@, i as int, end),
        decreases bytes.len() - k,
    {
        k += 1;
    }
    if k == i {
        return None;
    }
    let raw = string_from_bytes(&bytes[i..k]);
    let value = trim(raw.as_str());
    if value.as_str().unicode_len() == 0 {
        return None;
    }
    if text_eq(value.as_str(), "+") || text_eq(value.as_str(), "-") {
        proof {
            reveal_strlit("+");
            reveal_strlit("-");
            assert("+"@ =~= seq!['+']);
            assert("-"@ =~= seq!['-']);
        }
        return None;
    }
    proof {
        reveal_strlit("+");
        reveal_strlit("-");
        assert("+"@ =~= seq!['+']);
        assert("-"@ =~= seq!['-']);
    }
    Some((value, k))
}

fn parse_include_directive_inner(bytes: &[u8], i: usize, end: CommentEnd) -> (r: Option<
    (String, usize),
>)
    requires
        i <= bytes.len(),
    ensures
        text_at_view(r) == include_directive_inner(bytes@, i as int, end),
{
    let dollar = skip_ws(bytes, i);
    if !byte_is(bytes, dollar, DOLLAR) {
        return None;
    }
    let word = skip_ws(bytes, dollar + 1);
    if word >= bytes.len() || !is_ident_start(bytes[word]) {
        return None;
    }
    let word_end = scan_ident(bytes, word);
    proof {
        reveal_strlit("i");
        reveal_strlit("include");
        assert("i"@ =~= seq!['i']);
        assert("include"@ =~= seq!['i', 'n', 'c', 'l', 'u', 'd', 'e']);
    }
    if !matches_keyword(bytes, word, word_end, "i") && !matches_keyword(
        bytes,
        word,
        word_end,
        "include",
    ) {
        return None;
    }
    let at = skip_ws(bytes, word_end);
    match read_directive_filename(bytes, at, end) {
        None => None,
        Some((name, next)) => {
            let from = skip_ws(bytes, next);
            match find_comment_end(bytes, from, end) {
                None => None,
                Some(e) => Some((name, e)),
            }
        },
    }
}

/// Reads the include directive that the comment opening at `start` holds.
pub fn parse_include_directive(bytes: &[u8], start: usize) -> (r: Option<(String, usize)>)
    ensures
        text_at_view(r) == include_directive(bytes@, start as int),
        r matches Some((_, e)) ==> start < e <= bytes.len(),
{
    proof {
        lemma_include_directive_bounds(bytes@, start as int);
    }
    if start >= bytes.len() {
        None
    } else if bytes[start] == BRACE_OPEN {
        parse_include_directive_inner(bytes, start + 1, CommentEnd::Brace)
    } else if bytes[start] == PAREN_OPEN && byte_is(bytes, start + 1, STAR) {
        parse_include_directive_inner(bytes, start + 2, CommentEnd::Paren)
    } else {
        None
    }
}

} // verus!
