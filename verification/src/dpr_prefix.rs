use vstd::prelude::*;

use crate::dpr_parse::{
    closed_entry, declared_path, flags_with_path, include_entries, lemma_declared_path_bounds,
    lemma_ws_comments_only_end_bounds, state_with_entry, uses_keyword_end, ws_comments_only_end,
    DprState, EntryModel,
};
use crate::dpr_roundtrip::{reach_behind, reach_start, Point};
use crate::pas_lex::{
    ascii_space, ascii_ws_end, bare_name_end, blank, brace_end, close_search, comment_close_at,
    comment_end, comment_or_string_end, directive_filename, has_byte, ident_continue, ident_end,
    ident_start, ident_text, include_directive, include_directive_inner, lemma_ascii_ws_end_bounds,
    lemma_bare_name_end_bounds, lemma_brace_end_bounds, lemma_close_search_bounds,
    lemma_comment_or_string_end_bounds, lemma_ident_end_bounds, lemma_include_directive_bounds,
    lemma_line_end_bounds, lemma_literal_scan_bounds, lemma_string_end_bounds,
    lemma_ws_comments_end_bounds, line_end, literal_scan, paren_end, string_end, string_literal,
    ws_comments_end, CommentEnd, BRACE_CLOSE, BRACE_OPEN, COMMA, NEWLINE, PAREN_CLOSE, PAREN_OPEN,
    QUOTE, SLASH, STAR,
};
use crate::source_tree::SourceTree;
use crate::text::is_keyword;

verus! {

/// The two texts hold the same bytes before the offset `m`, and both go
/// on from there.
pub open spec fn prefix_alike(b: Seq<u8>, c: Seq<u8>, m: int) -> bool {
    &&& 0 <= m < b.len()
    &&& m < c.len()
    &&& forall|k: int| 0 <= k < m ==> #[trigger] b[k] == c[k]
}

/// A byte that neither closes a literal nor, with the byte before it,
/// opens a comment.
pub open spec fn opens_nothing(byte: u8) -> bool {
    byte != QUOTE && byte != STAR && byte != SLASH
}

pub proof fn pre_subrange(b: Seq<u8>, c: Seq<u8>, m: int, i: int, j: int)
    requires
        prefix_alike(b, c, m),
        0 <= i <= j <= m,
    ensures
        c.subrange(i, j) == b.subrange(i, j),
{
    assert forall|k: int| 0 <= k < j - i implies c.subrange(i, j)[k] == b.subrange(i, j)[k] by {
        assert(b[i + k] == c[i + k]);
    }
    assert(c.subrange(i, j) =~= b.subrange(i, j));
}

pub proof fn pre_brace_end(b: Seq<u8>, c: Seq<u8>, m: int, i: int)
    requires
        prefix_alike(b, c, m),
        0 <= i,
        brace_end(b, i) <= m,
    ensures
        brace_end(c, i) == brace_end(b, i),
    decreases b.len() - i,
{
    if i < b.len() {
        lemma_brace_end_bounds(b, i);
        assert(b[i] == c[i]);
        if b[i] != BRACE_CLOSE {
            pre_brace_end(b, c, m, i + 1);
        }
    }
}

pub proof fn pre_paren_end(b: Seq<u8>, c: Seq<u8>, m: int, i: int)
    requires
        prefix_alike(b, c, m),
        0 <= i,
        paren_end(b, i) <= m,
    ensures
        paren_end(c, i) == paren_end(b, i),
        i + 2 <= paren_end(b, i),
    decreases b.len() - i,
{
    if i + 1 < b.len() {
        if b[i] == STAR && b[i + 1] == PAREN_CLOSE {
            assert(b[i] == c[i]);
            assert(b[i + 1] == c[i + 1]);
        } else {
            pre_paren_end(b, c, m, i + 1);
            assert(b[i] == c[i]);
            assert(b[i + 1] == c[i + 1]);
        }
    }
}

pub proof fn pre_line_end(b: Seq<u8>, c: Seq<u8>, m: int, i: int)
    requires
        prefix_alike(b, c, m),
        0 <= i,
        line_end(b, i) <= m,
    ensures
        line_end(c, i) == line_end(b, i),
    decreases b.len() - i,
{
    if i < b.len() {
        lemma_line_end_bounds(b, i);
        assert(b[i] == c[i]);
        if b[i] != NEWLINE {
            pre_line_end(b, c, m, i + 1);
        }
    }
}

pub proof fn pre_string_end(b: Seq<u8>, c: Seq<u8>, m: int, i: int)
    requires
        prefix_alike(b, c, m),
        0 <= i,
        string_end(b, i) <= m,
        c[m] != QUOTE,
    ensures
        string_end(c, i) == string_end(b, i),
    decreases b.len() - i,
{
    if i < b.len() {
        lemma_string_end_bounds(b, i);
        assert(b[i] == c[i]);
        if b[i] == QUOTE {
            if has_byte(b, i + 1, QUOTE) {
                lemma_string_end_bounds(b, i + 2);
                assert(b[i + 1] == c[i + 1]);
                pre_string_end(b, c, m, i + 2);
            } else if i + 1 < m {
                assert(b[i + 1] == c[i + 1]);
            }
        } else {
            pre_string_end(b, c, m, i + 1);
        }
    }
}

pub proof fn pre_literal_scan(b: Seq<u8>, c: Seq<u8>, m: int, i: int, acc: Seq<u8>)
    requires
        prefix_alike(b, c, m),
        0 <= i,
        literal_scan(b, i, acc) matches Some((_, e)) && e <= m,
        c[m] != QUOTE,
    ensures
        literal_scan(c, i, acc) == literal_scan(b, i, acc),
    decreases b.len() - i,
{
    if i < b.len() {
        lemma_literal_scan_bounds(b, i, acc);
        assert(b[i] == c[i]);
        if b[i] == QUOTE {
            if has_byte(b, i + 1, QUOTE) {
                lemma_literal_scan_bounds(b, i + 2, acc.push(QUOTE));
                assert(b[i + 1] == c[i + 1]);
                pre_literal_scan(b, c, m, i + 2, acc.push(QUOTE));
            } else if i + 1 < m {
                assert(b[i + 1] == c[i + 1]);
            }
        } else {
            pre_literal_scan(b, c, m, i + 1, acc.push(b[i]));
        }
    }
}

pub proof fn pre_string_literal(b: Seq<u8>, c: Seq<u8>, m: int, i: int)
    requires
        prefix_alike(b, c, m),
        0 <= i,
        string_literal(b, i) matches Some((_, e)) && e <= m,
        c[m] != QUOTE,
    ensures
        string_literal(c, i) == string_literal(b, i),
{
    lemma_literal_scan_bounds(b, i + 1, Seq::empty());
    assert(b[i] == c[i]);
    pre_literal_scan(b, c, m, i + 1, Seq::empty());
}

/// A comment or literal that opens before `m` and ends at or before `m`
/// in the one text does so in the other, and where none opens in the
/// one, none opens in the other.
pub proof fn pre_comment_or_string_end(b: Seq<u8>, c: Seq<u8>, m: int, i: int)
    requires
        prefix_alike(b, c, m),
        0 <= i < m,
        opens_nothing(c[m]),
        comment_or_string_end(b, i) matches Some(e) ==> e <= m,
    ensures
        comment_or_string_end(c, i) == comment_or_string_end(b, i),
        comment_end(c, i) == comment_end(b, i),
{
    assert(b[i] == c[i]);
    if i + 1 < m {
        assert(b[i + 1] == c[i + 1]);
    }
    if b[i] == BRACE_OPEN {
        pre_brace_end(b, c, m, i + 1);
    } else if b[i] == PAREN_OPEN && has_byte(b, i + 1, STAR) {
        pre_paren_end(b, c, m, i + 2);
    } else if b[i] == SLASH && has_byte(b, i + 1, SLASH) {
        lemma_line_end_bounds(b, i + 2);
        pre_line_end(b, c, m, i + 2);
    } else if b[i] == QUOTE {
        pre_string_end(b, c, m, i + 1);
    }
}

/// The offset `m` of the new text holds a byte at which the passing over
/// of blanks and comments stops.
pub open spec fn halts(c: Seq<u8>, m: int) -> bool {
    !blank(c[m]) && comment_or_string_end(c, m) is None
}

pub proof fn pre_ws_comments_end(b: Seq<u8>, c: Seq<u8>, m: int, i: int)
    requires
        prefix_alike(b, c, m),
        0 <= i,
        ws_comments_end(b, i) <= m,
        opens_nothing(c[m]),
        ws_comments_end(b, i) < m || halts(c, m),
    ensures
        ws_comments_end(c, i) == ws_comments_end(b, i),
    decreases b.len() - i,
{
    if i < m {
        assert(b[i] == c[i]);
        lemma_ws_comments_end_bounds(b, i);
        if blank(b[i]) {
            lemma_ws_comments_end_bounds(b, i + 1);
            pre_ws_comments_end(b, c, m, i + 1);
        } else {
            lemma_comment_or_string_end_bounds(b, i);
            match comment_or_string_end(b, i) {
                Some(e) => {
                    lemma_ws_comments_end_bounds(b, e);
                    pre_comment_or_string_end(b, c, m, i);
                    pre_ws_comments_end(b, c, m, e);
                },
                None => {
                    pre_comment_or_string_end(b, c, m, i);
                },
            }
        }
    } else if i == m {
        lemma_ws_comments_end_bounds(b, i);
    } else if i <= b.len() {
        lemma_ws_comments_end_bounds(b, i);
    }
}

/// The offset `m` of the new text holds a byte at which the passing over
/// of blanks and comments, but not of literals, stops.
pub open spec fn halts_before_literal(c: Seq<u8>, m: int) -> bool {
    !blank(c[m]) && comment_end(c, m) is None
}

pub proof fn pre_ws_comments_only_end(b: Seq<u8>, c: Seq<u8>, m: int, i: int)
    requires
        prefix_alike(b, c, m),
        0 <= i,
        ws_comments_only_end(b, i) <= m,
        opens_nothing(c[m]),
        ws_comments_only_end(b, i) < m || halts_before_literal(c, m),
    ensures
        ws_comments_only_end(c, i) == ws_comments_only_end(b, i),
    decreases b.len() - i,
{
    if i < m {
        assert(b[i] == c[i]);
        lemma_ws_comments_only_end_bounds(b, i);
        if blank(b[i]) {
            lemma_ws_comments_only_end_bounds(b, i + 1);
            pre_ws_comments_only_end(b, c, m, i + 1);
        } else {
            lemma_comment_or_string_end_bounds(b, i);
            match comment_end(b, i) {
                Some(e) => {
                    lemma_ws_comments_only_end_bounds(b, e);
                    pre_comment_or_string_end(b, c, m, i);
                    pre_ws_comments_only_end(b, c, m, e);
                },
                None => {
                    if b[i] != QUOTE {
                        pre_comment_or_string_end(b, c, m, i);
                    }
                },
            }
        }
    } else if i <= b.len() {
        lemma_ws_comments_only_end_bounds(b, i);
    }
}

pub proof fn pre_ident_end(b: Seq<u8>, c: Seq<u8>, m: int, i: int)
    requires
        prefix_alike(b, c, m),
        0 <= i,
        ident_end(b, i) <= m,
        ident_end(b, i) < m || !ident_continue(c[m]),
    ensures
        ident_end(c, i) == ident_end(b, i),
    decreases b.len() - i,
{
    if i < m {
        assert(b[i] == c[i]);
        if ident_continue(b[i]) {
            pre_ident_end(b, c, m, i + 1);
        }
    } else if i <= b.len() {
        lemma_ident_end_bounds(b, i);
    }
}

pub proof fn pre_ascii_ws_end(b: Seq<u8>, c: Seq<u8>, m: int, i: int)
    requires
        prefix_alike(b, c, m),
        0 <= i,
        ascii_ws_end(b, i) < m,
    ensures
        ascii_ws_end(c, i) == ascii_ws_end(b, i),
    decreases b.len() - i,
{
    if i < m {
        assert(b[i] == c[i]);
        if ascii_space(b[i]) {
            pre_ascii_ws_end(b, c, m, i + 1);
        }
    } else if i <= b.len() {
        lemma_ascii_ws_end_bounds(b, i);
    }
}

pub proof fn pre_comment_close_at(b: Seq<u8>, c: Seq<u8>, m: int, i: int, end: CommentEnd)
    requires
        prefix_alike(b, c, m),
        0 <= i,
        i + 1 < m || (end is Brace && i < m),
    ensures
        comment_close_at(c, i, end) == comment_close_at(b, i, end),
{
    assert(b[i] == c[i]);
    if i + 1 < m {
        assert(b[i + 1] == c[i + 1]);
    }
}

pub proof fn pre_close_search(b: Seq<u8>, c: Seq<u8>, m: int, i: int, end: CommentEnd)
    requires
        prefix_alike(b, c, m),
        0 <= i,
        close_search(b, i, end) matches Some(e) && e <= m,
    ensures
        close_search(c, i, end) == close_search(b, i, end),
    decreases b.len() - i,
{
    lemma_close_search_bounds(b, i, end);
    if i < b.len() {
        if comment_close_at(b, i, end) {
            pre_comment_close_at(b, c, m, i, end);
        } else {
            lemma_close_search_bounds(b, i + 1, end);
            pre_close_search(b, c, m, i + 1, end);
            assert(b[i] == c[i]);
            let e = close_search(b, i + 1, end).unwrap();
            match end {
                CommentEnd::Brace => {},
                CommentEnd::Paren => {
                    assert(i + 1 < m);
                    assert(b[i + 1] == c[i + 1]);
                },
            }
        }
    }
}

pub proof fn pre_bare_name_end(b: Seq<u8>, c: Seq<u8>, m: int, i: int, end: CommentEnd)
    requires
        prefix_alike(b, c, m),
        0 <= i,
        bare_name_end(b, i, end) < m,
        end is Paren ==> bare_name_end(b, i, end) + 1 < m,
    ensures
        bare_name_end(c, i, end) == bare_name_end(b, i, end),
    decreases b.len() - i,
{
    if i < b.len() {
        lemma_bare_name_end_bounds(b, i, end);
        pre_comment_close_at(b, c, m, i, end);
        assert(b[i] == c[i]);
        if !ascii_space(b[i]) && !comment_close_at(b, i, end) {
            pre_bare_name_end(b, c, m, i + 1, end);
        }
    }
}

pub proof fn pre_directive_filename(b: Seq<u8>, c: Seq<u8>, m: int, i: int, end: CommentEnd)
    requires
        prefix_alike(b, c, m),
        0 <= i,
        opens_nothing(c[m]),
        directive_filename(b, i, end) matches Some((_, next)) && next < m && (end is Paren
            ==> next + 1 < m),
    ensures
        directive_filename(c, i, end) == directive_filename(b, i, end),
{
    if b[i] == QUOTE {
        lemma_literal_scan_bounds(b, i + 1, Seq::empty());
        pre_string_literal(b, c, m, i);
        assert(b[i] == c[i]);
    } else {
        lemma_bare_name_end_bounds(b, i, end);
        pre_bare_name_end(b, c, m, i, end);
        pre_subrange(b, c, m, i, bare_name_end(b, i, end));
        assert(b[i] == c[i]);
    }
}

pub proof fn pre_include_directive_inner(b: Seq<u8>, c: Seq<u8>, m: int, i: int, end: CommentEnd)
    requires
        prefix_alike(b, c, m),
        0 <= i <= m,
        opens_nothing(c[m]),
        include_directive_inner(b, i, end) matches Some((_, e)) && e <= m,
    ensures
        include_directive_inner(c, i, end) == include_directive_inner(b, i, end),
{
    let dollar = ascii_ws_end(b, i);
    lemma_ascii_ws_end_bounds(b, i);
    let word = ascii_ws_end(b, dollar + 1);
    lemma_ascii_ws_end_bounds(b, dollar + 1);
    let word_end = ident_end(b, word + 1);
    lemma_ident_end_bounds(b, word + 1);
    let at = ascii_ws_end(b, word_end);
    lemma_ascii_ws_end_bounds(b, word_end);
    let next = match directive_filename(b, at, end) {
        Some((_, n)) => n,
        None => 0,
    };
    if b[at] == QUOTE {
        lemma_literal_scan_bounds(b, at + 1, Seq::empty());
    } else {
        lemma_bare_name_end_bounds(b, at, end);
    }
    let ws2 = ascii_ws_end(b, next);
    lemma_ascii_ws_end_bounds(b, next);
    lemma_close_search_bounds(b, ws2, end);
    let e = close_search(b, ws2, end).unwrap();
    assert(e >= ws2 + 2 || end is Brace) by {
        lemma_close_is_wide(b, ws2, end);
    }
    pre_ascii_ws_end(b, c, m, i);
    assert(b[dollar] == c[dollar]);
    pre_ascii_ws_end(b, c, m, dollar + 1);
    assert(b[word] == c[word]);
    pre_ident_end(b, c, m, word + 1);
    pre_subrange(b, c, m, word, word_end);
    pre_ascii_ws_end(b, c, m, word_end);
    pre_directive_filename(b, c, m, at, end);
    pre_ascii_ws_end(b, c, m, next);
    pre_close_search(b, c, m, ws2, end);
}

/// The token that closes a `(* *)` comment is two bytes wide.
pub proof fn lemma_close_is_wide(b: Seq<u8>, i: int, end: CommentEnd)
    requires
        0 <= i,
        close_search(b, i, end) is Some,
    ensures
        end is Paren ==> close_search(b, i, end).unwrap() >= i + 2,
    decreases b.len() - i,
{
    if i < b.len() && !comment_close_at(b, i, end) {
        lemma_close_is_wide(b, i + 1, end);
    }
}

/// A directive ends behind the place where its comment body starts.
pub proof fn lemma_directive_inner_above(b: Seq<u8>, i: int, end: CommentEnd)
    requires
        0 <= i <= b.len(),
        include_directive_inner(b, i, end) is Some,
    ensures
        include_directive_inner(b, i, end).unwrap().1 > i,
{
    let dollar = ascii_ws_end(b, i);
    lemma_ascii_ws_end_bounds(b, i);
    let word = ascii_ws_end(b, dollar + 1);
    lemma_ascii_ws_end_bounds(b, dollar + 1);
    let word_end = ident_end(b, word + 1);
    lemma_ident_end_bounds(b, word + 1);
    let at = ascii_ws_end(b, word_end);
    lemma_ascii_ws_end_bounds(b, word_end);
    let next = match directive_filename(b, at, end) {
        Some((_, n)) => n,
        None => 0,
    };
    if b[at] == QUOTE {
        lemma_literal_scan_bounds(b, at + 1, Seq::empty());
    } else {
        lemma_bare_name_end_bounds(b, at, end);
    }
    lemma_ascii_ws_end_bounds(b, next);
    lemma_close_search_bounds(b, ascii_ws_end(b, next), end);
}

/// An include directive that stands before `m` in the one text stands
/// in the other.
pub proof fn pre_include_directive(b: Seq<u8>, c: Seq<u8>, m: int, i: int)
    requires
        prefix_alike(b, c, m),
        0 <= i,
        opens_nothing(c[m]),
        include_directive(b, i) matches Some((_, e)) && e <= m,
    ensures
        include_directive(c, i) == include_directive(b, i),
{
    lemma_include_directive_bounds(b, i);
    assert(b[i] == c[i]);
    if b[i] == BRACE_OPEN {
        pre_include_directive_inner(b, c, m, i + 1, CommentEnd::Brace);
    } else {
        lemma_ascii_ws_end_bounds(b, i + 2);
        lemma_directive_inner_above(b, i + 2, CommentEnd::Paren);
        assert(b[i + 1] == c[i + 1]);
        pre_include_directive_inner(b, c, m, i + 2, CommentEnd::Paren);
    }
}

/// The splice does not stand inside an identifier, and what follows it
/// in the new text does not go on with an identifier that ends at it.
pub open spec fn uncut(b: Seq<u8>, c: Seq<u8>, m: int) -> bool {
    !(0 < m && ident_continue(b[m - 1]) && (ident_continue(b[m]) || ident_continue(c[m])))
}

pub proof fn lemma_ident_run(b: Seq<u8>, i: int, k: int)
    requires
        0 <= i <= k < ident_end(b, i),
    ensures
        ident_continue(b[k]),
        k < b.len(),
{
    lemma_ident_end_bounds(b, i);
}

pub proof fn pre_declared_path(b: Seq<u8>, c: Seq<u8>, m: int, i: int)
    requires
        prefix_alike(b, c, m),
        0 <= i <= m,
        opens_nothing(c[m]),
        uncut(b, c, m),
        declared_path(b, i).1 <= m,
        declared_path(b, i).1 < m || c[m] == COMMA,
    ensures
        declared_path(c, i) == declared_path(b, i),
{
    let after = declared_path(b, i).1;
    let j = ws_comments_end(b, i);
    lemma_ws_comments_end_bounds(b, i);
    if j < b.len() {
        lemma_ident_end_bounds(b, j + 1);
        lemma_ws_comments_only_end_bounds(b, ident_end(b, j + 1));
        let k0 = ws_comments_only_end(b, ident_end(b, j + 1));
        if k0 < b.len() {
            lemma_string_end_bounds(b, k0 + 1);
            lemma_literal_scan_bounds(b, k0 + 1, Seq::empty());
        }
    }
    assert(j <= after);
    pre_ws_comments_end(b, c, m, i);
    if j < m {
        assert(b[j] == c[j]);
        if ident_start(b[j]) {
            let t = ident_end(b, j + 1);
            if t >= m {
                if t > m {
                    lemma_ident_run(b, j + 1, m);
                }
                if m - 1 >= j + 1 {
                    lemma_ident_run(b, j + 1, m - 1);
                }
                assert(ident_continue(b[m - 1]));
                assert(t == m);
            }
            pre_ident_end(b, c, m, j + 1);
            pre_subrange(b, c, m, j, t);
            if is_keyword(b.subrange(j, t), "in"@) {
                let k = ws_comments_only_end(b, t);
                pre_ws_comments_only_end(b, c, m, t);
                if k < m {
                    assert(b[k] == c[k]);
                }
                if has_byte(b, k, QUOTE) {
                    pre_string_literal_or_end(b, c, m, k);
                }
            }
        }
    }
}

/// A literal that opens before `m` and ends at or before `m` in the one
/// text is the same literal in the other.
pub proof fn pre_string_literal_or_end(b: Seq<u8>, c: Seq<u8>, m: int, k: int)
    requires
        prefix_alike(b, c, m),
        0 <= k < m,
        b[k] == QUOTE,
        c[m] != QUOTE,
        string_end(b, k + 1) <= m,
    ensures
        string_literal(c, k) == string_literal(b, k),
        string_end(c, k + 1) == string_end(b, k + 1),
        string_literal(b, k) is Some,
{
    lemma_literal_scan_bounds(b, k + 1, Seq::empty());
    assert(b[k] == c[k]);
    pre_string_end(b, c, m, k + 1);
    pre_string_literal(b, c, m, k);
}

pub proof fn lemma_uses_keyword_end_above(b: Seq<u8>, i: int)
    requires
        0 <= i,
    ensures
        uses_keyword_end(b, i) matches Some(e) ==> i < e <= b.len(),
    decreases b.len() - i,
{
    if i < b.len() {
        lemma_comment_or_string_end_bounds(b, i);
        match comment_or_string_end(b, i) {
            Some(e) => lemma_uses_keyword_end_above(b, e),
            None => if ident_start(b[i]) {
                lemma_ident_end_bounds(b, i + 1);
                lemma_uses_keyword_end_above(b, ident_end(b, i + 1));
            } else {
                lemma_uses_keyword_end_above(b, i + 1);
            },
        }
    }
}

/// A clause that starts before `m` in the one text starts at the same
/// place in the other.
pub proof fn pre_uses_keyword_end(b: Seq<u8>, c: Seq<u8>, m: int, i: int)
    requires
        prefix_alike(b, c, m),
        0 <= i,
        opens_nothing(c[m]),
        uses_keyword_end(b, i) matches Some(s) && s < m,
    ensures
        uses_keyword_end(c, i) == uses_keyword_end(b, i),
    decreases b.len() - i,
{
    lemma_uses_keyword_end_above(b, i);
    if i < b.len() {
        assert(b[i] == c[i]);
        lemma_comment_or_string_end_bounds(b, i);
        match comment_or_string_end(b, i) {
            Some(e) => {
                lemma_uses_keyword_end_above(b, e);
                pre_comment_or_string_end(b, c, m, i);
                pre_uses_keyword_end(b, c, m, e);
            },
            None => {
                pre_comment_or_string_end(b, c, m, i);
                if ident_start(b[i]) {
                    let next = ident_end(b, i + 1);
                    lemma_ident_end_bounds(b, i + 1);
                    if !is_keyword(b.subrange(i, next), "uses"@) {
                        lemma_uses_keyword_end_above(b, next);
                    }
                    pre_ident_end(b, c, m, i + 1);
                    pre_subrange(b, c, m, i, next);
                    if !is_keyword(b.subrange(i, next), "uses"@) {
                        pre_uses_keyword_end(b, c, m, next);
                    }
                } else {
                    pre_uses_keyword_end(b, c, m, i + 1);
                }
            },
        }
    }
}

/// Before the offset `m`, the new text holds no include directive where
/// the old text holds none.
pub open spec fn no_new_directive(b: Seq<u8>, c: Seq<u8>, m: int) -> bool {
    forall|i: int|
        0 <= i < m && (#[trigger] include_directive(b, i)) is None ==> include_directive(c, i)
            is None
}

pub proof fn lemma_reach_start_below(
    tree: SourceTree,
    b: Seq<u8>,
    i: int,
    source: Seq<char>,
    stack: Seq<Seq<char>>,
    st: DprState,
    at: int,
)
    requires
        reach_start(tree, b, i, source, stack, st, at) is Some,
    ensures
        0 <= i <= at || i == at,
{
}

pub proof fn lemma_reach_behind_below(
    tree: SourceTree,
    b: Seq<u8>,
    i: int,
    source: Seq<char>,
    stack: Seq<Seq<char>>,
    st: DprState,
    open: EntryModel,
    pending: Seq<EntryModel>,
    at: int,
)
    requires
        reach_behind(tree, b, i, source, stack, st, open, pending, at) is Some,
    ensures
        0 <= i <= at || i == at,
{
}

/// The fit of the first byte of what follows the splice to the place at
/// which the reading comes by: it opens nothing, and behind an entry it
/// is a comma.
pub open spec fn fits_place(first: u8, point: Point) -> bool {
    opens_nothing(first) && (point is Behind ==> first == COMMA)
}

/// A reading that comes by the splice in the old text comes by it at the
/// same place in the new text.
pub proof fn pre_reach_start(
    tree: SourceTree,
    b: Seq<u8>,
    c: Seq<u8>,
    i: int,
    source: Seq<char>,
    stack: Seq<Seq<char>>,
    st: DprState,
    at: int,
)
    requires
        prefix_alike(b, c, at),
        0 <= i,
        reach_start(tree, b, i, source, stack, st, at) is Some,
        fits_place(c[at], reach_start(tree, b, i, source, stack, st, at).unwrap()),
        uncut(b, c, at),
        no_new_directive(b, c, at),
    ensures
        reach_start(tree, c, i, source, stack, st, at) == reach_start(
            tree,
            b,
            i,
            source,
            stack,
            st,
            at,
        ),
    decreases b.len() - i, 0int,
{
    if i != at {
        assert(b[i] == c[i]);
        if blank(b[i]) {
            pre_reach_start(tree, b, c, i + 1, source, stack, st, at);
        } else {
            lemma_include_directive_bounds(b, i);
            lemma_comment_or_string_end_bounds(b, i);
            match include_directive(b, i) {
                Some((name, end)) => {
                    let got = include_entries(
                        tree,
                        name,
                        i,
                        source,
                        stack,
                        st.warnings,
                        st.flags,
                    );
                    let next = DprState {
                        entries: st.entries + got.entries,
                        warnings: got.warnings,
                        flags: got.flags,
                    };
                    lemma_reach_start_below(tree, b, end, source, stack, next, at);
                    pre_include_directive(b, c, at, i);
                    pre_reach_start(tree, b, c, end, source, stack, next, at);
                },
                None => {
                    assert(include_directive(c, i) is None);
                    match comment_or_string_end(b, i) {
                        Some(e) => {
                            lemma_reach_start_below(tree, b, e, source, stack, st, at);
                            pre_comment_or_string_end(b, c, at, i);
                            pre_reach_start(tree, b, c, e, source, stack, st, at);
                        },
                        None => {
                            pre_comment_or_string_end(b, c, at, i);
                            if !ident_start(b[i]) {
                                pre_reach_start(tree, b, c, i + 1, source, stack, st, at);
                            } else {
                                let next = ident_end(b, i + 1);
                                let (in_path, after) = declared_path(b, next);
                                lemma_ident_end_bounds(b, i + 1);
                                lemma_declared_path_bounds(b, next);
                                let st2 = DprState {
                                    entries: st.entries,
                                    warnings: st.warnings,
                                    flags: flags_with_path(st.flags, in_path),
                                };
                                let open = EntryModel {
                                    name: ident_text(b, i),
                                    in_path,
                                    start: i,
                                    delimiter: None,
                                    delimiter_pos: None,
                                    from_include: false,
                                };
                                lemma_reach_behind_below(
                                    tree,
                                    b,
                                    after,
                                    source,
                                    stack,
                                    st2,
                                    open,
                                    Seq::empty(),
                                    at,
                                );
                                pre_ident_end(b, c, at, i + 1);
                                pre_subrange(b, c, at, i, next);
                                pre_declared_path(b, c, at, next);
                                pre_reach_behind(
                                    tree,
                                    b,
                                    c,
                                    after,
                                    source,
                                    stack,
                                    st2,
                                    open,
                                    Seq::empty(),
                                    at,
                                );
                            }
                        },
                    }
                },
            }
        }
    }
}

pub proof fn pre_reach_behind(
    tree: SourceTree,
    b: Seq<u8>,
    c: Seq<u8>,
    i: int,
    source: Seq<char>,
    stack: Seq<Seq<char>>,
    st: DprState,
    open: EntryModel,
    pending: Seq<EntryModel>,
    at: int,
)
    requires
        prefix_alike(b, c, at),
        0 <= i,
        reach_behind(tree, b, i, source, stack, st, open, pending, at) is Some,
        fits_place(c[at], reach_behind(tree, b, i, source, stack, st, open, pending, at).unwrap()),
        uncut(b, c, at),
        no_new_directive(b, c, at),
    ensures
        reach_behind(tree, c, i, source, stack, st, open, pending, at) == reach_behind(
            tree,
            b,
            i,
            source,
            stack,
            st,
            open,
            pending,
            at,
        ),
    decreases b.len() - i, 1int,
{
    if i != at {
        assert(b[i] == c[i]);
        if b[i] == COMMA {
            pre_reach_start(
                tree,
                b,
                c,
                i + 1,
                source,
                stack,
                state_with_entry(st, closed_entry(open, Some(COMMA), i), pending),
                at,
            );
        } else {
            lemma_include_directive_bounds(b, i);
            lemma_comment_or_string_end_bounds(b, i);
            match include_directive(b, i) {
                Some((name, end)) => {
                    let got = include_entries(
                        tree,
                        name,
                        i,
                        source,
                        stack,
                        st.warnings,
                        st.flags,
                    );
                    let next = DprState {
                        entries: st.entries,
                        warnings: got.warnings,
                        flags: got.flags,
                    };
                    lemma_reach_behind_below(
                        tree,
                        b,
                        end,
                        source,
                        stack,
                        next,
                        open,
                        pending + got.entries,
                        at,
                    );
                    pre_include_directive(b, c, at, i);
                    pre_reach_behind(
                        tree,
                        b,
                        c,
                        end,
                        source,
                        stack,
                        next,
                        open,
                        pending + got.entries,
                        at,
                    );
                },
                None => {
                    assert(include_directive(c, i) is None);
                    match comment_or_string_end(b, i) {
                        Some(e) => {
                            lemma_reach_behind_below(
                                tree,
                                b,
                                e,
                                source,
                                stack,
                                st,
                                open,
                                pending,
                                at,
                            );
                            pre_comment_or_string_end(b, c, at, i);
                            pre_reach_behind(tree, b, c, e, source, stack, st, open, pending, at);
                        },
                        None => {
                            pre_comment_or_string_end(b, c, at, i);
                            pre_reach_behind(
                                tree,
                                b,
                                c,
                                i + 1,
                                source,
                                stack,
                                st,
                                open,
                                pending,
                                at,
                            );
                        },
                    }
                },
            }
        }
    }
}

} // verus!
