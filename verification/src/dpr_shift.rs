use vstd::prelude::*;

use crate::dpr_parse::{
    anchor_at, closed_entry, declared_path, dpr_after_entry, dpr_fragment, flags_with_path,
    include_entries, lemma_declared_path_bounds, state_at_semicolon, state_with_entry,
    ws_comments_only_end, ClauseFlags, DprEnd, DprState, EntryModel,
};
use crate::dpr_roundtrip::{contents, EntryContent};
use crate::pas_lex::{
    ascii_space, ascii_ws_end, bare_name_end, blank, brace_end, close_search, comment_close_at,
    comment_end, comment_or_string_end, directive_filename, has_byte, ident_continue, ident_end,
    ident_start, ident_text, include_directive, include_directive_inner, lemma_ascii_ws_end_bounds,
    lemma_bare_name_end_bounds, lemma_comment_or_string_end_bounds, lemma_ident_end_bounds,
    lemma_include_directive_bounds, lemma_literal_scan_bounds, lemma_ws_comments_end_bounds,
    line_end, literal_scan, paren_end, string_end, string_literal, ws_comments_end, CommentEnd,
    BRACE_CLOSE, BRACE_OPEN, COMMA, NEWLINE, PAREN_CLOSE, PAREN_OPEN, QUOTE, SEMICOLON, SLASH, STAR,
};
use crate::source_tree::SourceTree;
use crate::uses_include::{
    include_budget, include_path, lemma_budget_decreases, lookup_include, warnings_after_lookup,
};

verus! {

/// From the offset `from` on, `b2` holds the bytes of `b1`, each `d`
/// places further on, and nothing behind them.
pub open spec fn shifted(b1: Seq<u8>, b2: Seq<u8>, from: int, d: int) -> bool {
    &&& 0 <= from <= b1.len()
    &&& 0 <= from + d
    &&& b2.len() == b1.len() + d
    &&& forall|k: int| from <= k < b1.len() ==> #[trigger] b1[k] == b2[k + d]
}

pub open spec fn moved(r: Option<int>, d: int) -> Option<int> {
    match r {
        Some(e) => Some(e + d),
        None => None,
    }
}

pub open spec fn moved_text(r: Option<(Seq<char>, int)>, d: int) -> Option<(Seq<char>, int)> {
    match r {
        Some((text, e)) => Some((text, e + d)),
        None => None,
    }
}

pub proof fn shift_has_byte(b1: Seq<u8>, b2: Seq<u8>, from: int, d: int, i: int, c: u8)
    requires
        shifted(b1, b2, from, d),
        from <= i,
    ensures
        has_byte(b2, i + d, c) == has_byte(b1, i, c),
{
    if i < b1.len() {
        assert(b1[i] == b2[i + d]);
    }
}

pub proof fn shift_subrange(b1: Seq<u8>, b2: Seq<u8>, from: int, d: int, i: int, j: int)
    requires
        shifted(b1, b2, from, d),
        from <= i <= j <= b1.len(),
    ensures
        b2.subrange(i + d, j + d) == b1.subrange(i, j),
{
    assert forall|k: int| 0 <= k < j - i implies b2.subrange(i + d, j + d)[k] == b1.subrange(
        i,
        j,
    )[k] by {
        assert(b1[i + k] == b2[i + k + d]);
    }
    assert(b2.subrange(i + d, j + d) =~= b1.subrange(i, j));
}

pub proof fn shift_brace_end(b1: Seq<u8>, b2: Seq<u8>, from: int, d: int, i: int)
    requires
        shifted(b1, b2, from, d),
        from <= i,
    ensures
        brace_end(b2, i + d) == brace_end(b1, i) + d,
    decreases b1.len() - i,
{
    if i < b1.len() {
        assert(b1[i] == b2[i + d]);
        if b1[i] != BRACE_CLOSE {
            shift_brace_end(b1, b2, from, d, i + 1);
        }
    }
}

pub proof fn shift_paren_end(b1: Seq<u8>, b2: Seq<u8>, from: int, d: int, i: int)
    requires
        shifted(b1, b2, from, d),
        from <= i,
    ensures
        paren_end(b2, i + d) == paren_end(b1, i) + d,
    decreases b1.len() - i,
{
    if i + 1 < b1.len() {
        assert(b1[i] == b2[i + d]);
        assert(b1[i + 1] == b2[i + 1 + d]);
        if !(b1[i] == STAR && b1[i + 1] == PAREN_CLOSE) {
            shift_paren_end(b1, b2, from, d, i + 1);
        }
    }
}

pub proof fn shift_line_end(b1: Seq<u8>, b2: Seq<u8>, from: int, d: int, i: int)
    requires
        shifted(b1, b2, from, d),
        from <= i,
    ensures
        line_end(b2, i + d) == line_end(b1, i) + d,
    decreases b1.len() - i,
{
    if i < b1.len() {
        assert(b1[i] == b2[i + d]);
        if b1[i] != NEWLINE {
            shift_line_end(b1, b2, from, d, i + 1);
        }
    }
}

pub proof fn shift_string_end(b1: Seq<u8>, b2: Seq<u8>, from: int, d: int, i: int)
    requires
        shifted(b1, b2, from, d),
        from <= i,
    ensures
        string_end(b2, i + d) == string_end(b1, i) + d,
    decreases b1.len() - i,
{
    if i < b1.len() {
        assert(b1[i] == b2[i + d]);
        shift_has_byte(b1, b2, from, d, i + 1, QUOTE);
        if b1[i] == QUOTE {
            if has_byte(b1, i + 1, QUOTE) {
                shift_string_end(b1, b2, from, d, i + 2);
            }
        } else {
            shift_string_end(b1, b2, from, d, i + 1);
        }
    }
}

pub open spec fn moved_literal(r: Option<(Seq<u8>, int)>, d: int) -> Option<(Seq<u8>, int)> {
    match r {
        Some((content, e)) => Some((content, e + d)),
        None => None,
    }
}

pub proof fn shift_literal_scan(
    b1: Seq<u8>,
    b2: Seq<u8>,
    from: int,
    d: int,
    i: int,
    acc: Seq<u8>,
)
    requires
        shifted(b1, b2, from, d),
        from <= i,
    ensures
        literal_scan(b2, i + d, acc) == moved_literal(literal_scan(b1, i, acc), d),
    decreases b1.len() - i,
{
    if i < b1.len() {
        assert(b1[i] == b2[i + d]);
        shift_has_byte(b1, b2, from, d, i + 1, QUOTE);
        if b1[i] == QUOTE {
            if has_byte(b1, i + 1, QUOTE) {
                shift_literal_scan(b1, b2, from, d, i + 2, acc.push(QUOTE));
            }
        } else {
            shift_literal_scan(b1, b2, from, d, i + 1, acc.push(b1[i]));
        }
    }
}

pub proof fn shift_string_literal(b1: Seq<u8>, b2: Seq<u8>, from: int, d: int, i: int)
    requires
        shifted(b1, b2, from, d),
        from <= i,
    ensures
        string_literal(b2, i + d) == moved_text(string_literal(b1, i), d),
{
    shift_has_byte(b1, b2, from, d, i, QUOTE);
    if has_byte(b1, i, QUOTE) {
        shift_literal_scan(b1, b2, from, d, i + 1, Seq::empty());
    }
}

pub proof fn shift_comment_or_string_end(b1: Seq<u8>, b2: Seq<u8>, from: int, d: int, i: int)
    requires
        shifted(b1, b2, from, d),
        from <= i,
    ensures
        comment_or_string_end(b2, i + d) == moved(comment_or_string_end(b1, i), d),
        comment_end(b2, i + d) == moved(comment_end(b1, i), d),
{
    shift_has_byte(b1, b2, from, d, i, QUOTE);
    if i < b1.len() {
        assert(b1[i] == b2[i + d]);
        shift_has_byte(b1, b2, from, d, i + 1, STAR);
        shift_has_byte(b1, b2, from, d, i + 1, SLASH);
        if b1[i] == BRACE_OPEN {
            shift_brace_end(b1, b2, from, d, i + 1);
        } else if b1[i] == PAREN_OPEN && has_byte(b1, i + 1, STAR) {
            shift_paren_end(b1, b2, from, d, i + 2);
        } else if b1[i] == SLASH && has_byte(b1, i + 1, SLASH) {
            shift_line_end(b1, b2, from, d, i + 2);
        } else if b1[i] == QUOTE {
            shift_string_end(b1, b2, from, d, i + 1);
        }
    }
}

pub proof fn shift_ws_comments_end(b1: Seq<u8>, b2: Seq<u8>, from: int, d: int, i: int)
    requires
        shifted(b1, b2, from, d),
        from <= i,
    ensures
        ws_comments_end(b2, i + d) == ws_comments_end(b1, i) + d,
    decreases b1.len() - i,
{
    if i < b1.len() {
        assert(b1[i] == b2[i + d]);
        if blank(b1[i]) {
            shift_ws_comments_end(b1, b2, from, d, i + 1);
        } else {
            shift_comment_or_string_end(b1, b2, from, d, i);
            lemma_comment_or_string_end_bounds(b1, i);
            match comment_or_string_end(b1, i) {
                Some(e) => shift_ws_comments_end(b1, b2, from, d, e),
                None => {},
            }
        }
    }
}

pub proof fn shift_ws_comments_only_end(b1: Seq<u8>, b2: Seq<u8>, from: int, d: int, i: int)
    requires
        shifted(b1, b2, from, d),
        from <= i,
    ensures
        ws_comments_only_end(b2, i + d) == ws_comments_only_end(b1, i) + d,
    decreases b1.len() - i,
{
    if i < b1.len() {
        assert(b1[i] == b2[i + d]);
        if blank(b1[i]) {
            shift_ws_comments_only_end(b1, b2, from, d, i + 1);
        } else {
            shift_comment_or_string_end(b1, b2, from, d, i);
            lemma_comment_or_string_end_bounds(b1, i);
            match comment_end(b1, i) {
                Some(e) => shift_ws_comments_only_end(b1, b2, from, d, e),
                None => {},
            }
        }
    }
}

pub proof fn shift_ascii_ws_end(b1: Seq<u8>, b2: Seq<u8>, from: int, d: int, i: int)
    requires
        shifted(b1, b2, from, d),
        from <= i,
    ensures
        ascii_ws_end(b2, i + d) == ascii_ws_end(b1, i) + d,
    decreases b1.len() - i,
{
    if i < b1.len() {
        assert(b1[i] == b2[i + d]);
        if ascii_space(b1[i]) {
            shift_ascii_ws_end(b1, b2, from, d, i + 1);
        }
    }
}

pub proof fn shift_ident_end(b1: Seq<u8>, b2: Seq<u8>, from: int, d: int, i: int)
    requires
        shifted(b1, b2, from, d),
        from <= i,
    ensures
        ident_end(b2, i + d) == ident_end(b1, i) + d,
    decreases b1.len() - i,
{
    if i < b1.len() {
        assert(b1[i] == b2[i + d]);
        if ident_continue(b1[i]) {
            shift_ident_end(b1, b2, from, d, i + 1);
        }
    }
}

pub proof fn shift_comment_close_at(
    b1: Seq<u8>,
    b2: Seq<u8>,
    from: int,
    d: int,
    i: int,
    end: CommentEnd,
)
    requires
        shifted(b1, b2, from, d),
        from <= i,
    ensures
        comment_close_at(b2, i + d, end) == comment_close_at(b1, i, end),
{
    shift_has_byte(b1, b2, from, d, i, BRACE_CLOSE);
    shift_has_byte(b1, b2, from, d, i, STAR);
    shift_has_byte(b1, b2, from, d, i + 1, PAREN_CLOSE);
}

pub proof fn shift_close_search(
    b1: Seq<u8>,
    b2: Seq<u8>,
    from: int,
    d: int,
    i: int,
    end: CommentEnd,
)
    requires
        shifted(b1, b2, from, d),
        from <= i,
    ensures
        close_search(b2, i + d, end) == moved(close_search(b1, i, end), d),
    decreases b1.len() - i,
{
    if i < b1.len() {
        shift_comment_close_at(b1, b2, from, d, i, end);
        if !comment_close_at(b1, i, end) {
            shift_close_search(b1, b2, from, d, i + 1, end);
        }
    }
}

pub proof fn shift_bare_name_end(
    b1: Seq<u8>,
    b2: Seq<u8>,
    from: int,
    d: int,
    i: int,
    end: CommentEnd,
)
    requires
        shifted(b1, b2, from, d),
        from <= i,
    ensures
        bare_name_end(b2, i + d, end) == bare_name_end(b1, i, end) + d,
    decreases b1.len() - i,
{
    if i < b1.len() {
        assert(b1[i] == b2[i + d]);
        shift_comment_close_at(b1, b2, from, d, i, end);
        if !ascii_space(b1[i]) && !comment_close_at(b1, i, end) {
            shift_bare_name_end(b1, b2, from, d, i + 1, end);
        }
    }
}

pub proof fn shift_directive_filename(
    b1: Seq<u8>,
    b2: Seq<u8>,
    from: int,
    d: int,
    i: int,
    end: CommentEnd,
)
    requires
        shifted(b1, b2, from, d),
        from <= i,
    ensures
        directive_filename(b2, i + d, end) == moved_text(directive_filename(b1, i, end), d),
{
    if i < b1.len() {
        assert(b1[i] == b2[i + d]);
        if b1[i] == QUOTE {
            shift_string_literal(b1, b2, from, d, i);
        } else {
            shift_bare_name_end(b1, b2, from, d, i, end);
            lemma_bare_name_end_bounds(b1, i, end);
            shift_subrange(b1, b2, from, d, i, bare_name_end(b1, i, end));
        }
    }
}

pub proof fn shift_include_directive_inner(
    b1: Seq<u8>,
    b2: Seq<u8>,
    from: int,
    d: int,
    i: int,
    end: CommentEnd,
)
    requires
        shifted(b1, b2, from, d),
        from <= i <= b1.len(),
    ensures
        include_directive_inner(b2, i + d, end) == moved_text(
            include_directive_inner(b1, i, end),
            d,
        ),
{
    let dollar = ascii_ws_end(b1, i);
    shift_ascii_ws_end(b1, b2, from, d, i);
    lemma_ascii_ws_end_bounds(b1, i);
    shift_has_byte(b1, b2, from, d, dollar, crate::pas_lex::DOLLAR);
    if has_byte(b1, dollar, crate::pas_lex::DOLLAR) {
        let word = ascii_ws_end(b1, dollar + 1);
        shift_ascii_ws_end(b1, b2, from, d, dollar + 1);
        lemma_ascii_ws_end_bounds(b1, dollar + 1);
        if word < b1.len() {
            assert(b1[word] == b2[word + d]);
            let word_end = ident_end(b1, word + 1);
            shift_ident_end(b1, b2, from, d, word + 1);
            lemma_ident_end_bounds(b1, word + 1);
            shift_subrange(b1, b2, from, d, word, word_end);
            let at = ascii_ws_end(b1, word_end);
            shift_ascii_ws_end(b1, b2, from, d, word_end);
            lemma_ascii_ws_end_bounds(b1, word_end);
            shift_directive_filename(b1, b2, from, d, at, end);
            match directive_filename(b1, at, end) {
                Some((name, next)) => {
                    if b1[at] == QUOTE {
                        lemma_literal_scan_bounds(b1, at + 1, Seq::empty());
                    } else {
                        lemma_bare_name_end_bounds(b1, at, end);
                    }
                    shift_ascii_ws_end(b1, b2, from, d, next);
                    lemma_ascii_ws_end_bounds(b1, next);
                    shift_close_search(b1, b2, from, d, ascii_ws_end(b1, next), end);
                },
                None => {},
            }
        }
    }
}

pub proof fn shift_include_directive(b1: Seq<u8>, b2: Seq<u8>, from: int, d: int, i: int)
    requires
        shifted(b1, b2, from, d),
        from <= i,
    ensures
        include_directive(b2, i + d) == moved_text(include_directive(b1, i), d),
{
    if i < b1.len() {
        assert(b1[i] == b2[i + d]);
        shift_has_byte(b1, b2, from, d, i + 1, STAR);
        if b1[i] == BRACE_OPEN {
            shift_include_directive_inner(b1, b2, from, d, i + 1, CommentEnd::Brace);
        } else if b1[i] == PAREN_OPEN && has_byte(b1, i + 1, STAR) {
            shift_include_directive_inner(b1, b2, from, d, i + 2, CommentEnd::Paren);
        }
    }
}

pub proof fn shift_declared_path(b1: Seq<u8>, b2: Seq<u8>, from: int, d: int, i: int)
    requires
        shifted(b1, b2, from, d),
        from <= i <= b1.len(),
    ensures
        declared_path(b2, i + d) == (declared_path(b1, i).0, declared_path(b1, i).1 + d),
{
    let j = ws_comments_end(b1, i);
    shift_ws_comments_end(b1, b2, from, d, i);
    lemma_ws_comments_end_bounds(b1, i);
    if j < b1.len() {
        assert(b1[j] == b2[j + d]);
        let token_end = ident_end(b1, j + 1);
        shift_ident_end(b1, b2, from, d, j + 1);
        lemma_ident_end_bounds(b1, j + 1);
        shift_subrange(b1, b2, from, d, j, token_end);
        let k = ws_comments_only_end(b1, token_end);
        shift_ws_comments_only_end(b1, b2, from, d, token_end);
        crate::dpr_parse::lemma_ws_comments_only_end_bounds(b1, token_end);
        shift_has_byte(b1, b2, from, d, k, QUOTE);
        shift_string_literal(b1, b2, from, d, k);
        shift_string_end(b1, b2, from, d, k + 1);
    }
}

pub proof fn lemma_contents_add(a: Seq<EntryModel>, b: Seq<EntryModel>)
    ensures
        contents(a + b) == contents(a) + contents(b),
{
    assert(contents(a + b) =~= contents(a) + contents(b));
}

/// What a reading added to the `base` entries with which it started.
pub open spec fn added(entries: Seq<EntryModel>, base: int) -> Seq<EntryContent> {
    contents(entries).skip(base)
}

/// The two readings end alike: at the same place, the one `d` places
/// further on than the other, with the same finding about semicolons in
/// include files, and each with its own entries and behind them the same
/// new ones.
pub open spec fn ends_alike(
    r1: DprEnd,
    r2: DprEnd,
    base1: Seq<EntryModel>,
    base2: Seq<EntryModel>,
    d: int,
) -> bool {
    &&& r2.semicolon == moved(r1.semicolon, d)
    &&& r2.state.flags.include_semicolon == r1.state.flags.include_semicolon
    &&& contents(r1.state.entries) == contents(base1) + added(r1.state.entries, base1.len() as int)
    &&& contents(r2.state.entries) == contents(base2) + added(r1.state.entries, base1.len() as int)
}

/// Readings that end alike from greater bases end alike from the bases
/// themselves, if what was added to the bases says the same.
pub proof fn lemma_ends_alike_from(
    r1: DprEnd,
    r2: DprEnd,
    base1: Seq<EntryModel>,
    base2: Seq<EntryModel>,
    more1: Seq<EntryModel>,
    more2: Seq<EntryModel>,
    d: int,
)
    requires
        ends_alike(r1, r2, base1 + more1, base2 + more2, d),
        contents(more1) == contents(more2),
    ensures
        ends_alike(r1, r2, base1, base2, d),
{
    lemma_contents_add(base1, more1);
    lemma_contents_add(base2, more2);
    let tail = added(r1.state.entries, (base1 + more1).len() as int);
    assert(contents(r1.state.entries) == contents(base1) + contents(more1) + tail);
    assert(added(r1.state.entries, base1.len() as int) =~= contents(more1) + tail);
    assert(contents(base1) + contents(more1) + tail =~= contents(base1) + (contents(more1)
        + tail));
    assert(contents(base2) + contents(more2) + tail =~= contents(base2) + (contents(more1)
        + tail));
}

/// A reading that ends at once ends like another that ends at once.
pub proof fn lemma_ends_alike_now(
    st1: DprState,
    st2: DprState,
    base1: Seq<EntryModel>,
    base2: Seq<EntryModel>,
)
    requires
        st1.entries == base1,
        st2.entries == base2,
    ensures
        contents(st1.entries) == contents(base1) + added(st1.entries, base1.len() as int),
        contents(st2.entries) == contents(base2) + added(st1.entries, base1.len() as int),
{
    assert(added(st1.entries, base1.len() as int) =~= Seq::<EntryContent>::empty());
    assert(contents(base1) + Seq::<EntryContent>::empty() =~= contents(base1));
    assert(contents(base2) + Seq::<EntryContent>::empty() =~= contents(base2));
}

/// Two readings of one include file give entries that say the same,
/// whatever the offsets that they stand for and whatever was found
/// before; and they find the same about semicolons.
pub proof fn alike_include_entries(
    tree: SourceTree,
    name: Seq<char>,
    anchor1: int,
    anchor2: int,
    source: Seq<char>,
    stack: Seq<Seq<char>>,
    warnings1: Seq<Seq<char>>,
    warnings2: Seq<Seq<char>>,
    flags1: ClauseFlags,
    flags2: ClauseFlags,
)
    requires
        flags1.include_semicolon == flags2.include_semicolon,
    ensures
        contents(
            include_entries(tree, name, anchor1, source, stack, warnings1, flags1).entries,
        ) == contents(include_entries(tree, name, anchor2, source, stack, warnings2, flags2).entries),
        include_entries(
            tree,
            name,
            anchor1,
            source,
            stack,
            warnings1,
            flags1,
        ).flags.include_semicolon == include_entries(
            tree,
            name,
            anchor2,
            source,
            stack,
            warnings2,
            flags2,
        ).flags.include_semicolon,
    decreases include_budget(tree, stack), 0int,
{
    if lookup_include(tree, name, source, stack) is Found {
        let path = include_path(source, name);
        let canonical = tree.canonical(path);
        let bytes = tree.files.value(canonical)@;
        lemma_budget_decreases(tree, name, source, stack);
        let st1 = DprState {
            entries: Seq::empty(),
            warnings: warnings_after_lookup(tree, name, source, stack, warnings1),
            flags: flags1,
        };
        let st2 = DprState {
            entries: Seq::empty(),
            warnings: warnings_after_lookup(tree, name, source, stack, warnings2),
            flags: flags2,
        };
        shift_fragment(
            tree,
            bytes,
            bytes,
            0,
            0,
            0,
            path,
            stack.push(canonical),
            Some(anchor1),
            Some(anchor2),
            st1,
            st2,
        );
        let r1 = dpr_fragment(tree, bytes, 0, path, stack.push(canonical), Some(anchor1), st1);
        let r2 = dpr_fragment(tree, bytes, 0, path, stack.push(canonical), Some(anchor2), st2);
        assert(contents(Seq::<EntryModel>::empty()) + added(r1.state.entries, 0) =~= added(
            r1.state.entries,
            0,
        ));
    }
}

/// Readings of texts of which the one holds the bytes of the other, from
/// where the readings start, end alike.
#[verifier::spinoff_prover]
#[verifier::rlimit(60)]
pub proof fn shift_fragment(
    tree: SourceTree,
    b1: Seq<u8>,
    b2: Seq<u8>,
    from: int,
    d: int,
    i: int,
    source: Seq<char>,
    stack: Seq<Seq<char>>,
    over1: Option<int>,
    over2: Option<int>,
    st1: DprState,
    st2: DprState,
)
    requires
        shifted(b1, b2, from, d),
        from <= i <= b1.len(),
        (over1 is Some) == (over2 is Some),
        st1.flags.include_semicolon == st2.flags.include_semicolon,
    ensures
        ends_alike(
            dpr_fragment(tree, b1, i, source, stack, over1, st1),
            dpr_fragment(tree, b2, i + d, source, stack, over2, st2),
            st1.entries,
            st2.entries,
            d,
        ),
    decreases include_budget(tree, stack), 2 + b1.len() - i,
{
    let r1 = dpr_fragment(tree, b1, i, source, stack, over1, st1);
    let r2 = dpr_fragment(tree, b2, i + d, source, stack, over2, st2);
    if i >= b1.len() {
        lemma_ends_alike_now(st1, st2, st1.entries, st2.entries);
    } else {
        assert(b1[i] == b2[i + d]);
        if blank(b1[i]) {
            shift_fragment(tree, b1, b2, from, d, i + 1, source, stack, over1, over2, st1, st2);
        } else {
            shift_include_directive(b1, b2, from, d, i);
            shift_comment_or_string_end(b1, b2, from, d, i);
            lemma_include_directive_bounds(b1, i);
            lemma_comment_or_string_end_bounds(b1, i);
            match include_directive(b1, i) {
                Some((name, end)) => {
                    let got1 = include_entries(
                        tree,
                        name,
                        anchor_at(over1, i),
                        source,
                        stack,
                        st1.warnings,
                        st1.flags,
                    );
                    let got2 = include_entries(
                        tree,
                        name,
                        anchor_at(over2, i + d),
                        source,
                        stack,
                        st2.warnings,
                        st2.flags,
                    );
                    alike_include_entries(
                        tree,
                        name,
                        anchor_at(over1, i),
                        anchor_at(over2, i + d),
                        source,
                        stack,
                        st1.warnings,
                        st2.warnings,
                        st1.flags,
                        st2.flags,
                    );
                    let next1 = DprState {
                        entries: st1.entries + got1.entries,
                        warnings: got1.warnings,
                        flags: got1.flags,
                    };
                    let next2 = DprState {
                        entries: st2.entries + got2.entries,
                        warnings: got2.warnings,
                        flags: got2.flags,
                    };
                    shift_fragment(
                        tree,
                        b1,
                        b2,
                        from,
                        d,
                        end,
                        source,
                        stack,
                        over1,
                        over2,
                        next1,
                        next2,
                    );
                    lemma_ends_alike_from(
                        r1,
                        r2,
                        st1.entries,
                        st2.entries,
                        got1.entries,
                        got2.entries,
                        d,
                    );
                },
                None => match comment_or_string_end(b1, i) {
                    Some(e) => {
                        shift_fragment(
                            tree,
                            b1,
                            b2,
                            from,
                            d,
                            e,
                            source,
                            stack,
                            over1,
                            over2,
                            st1,
                            st2,
                        );
                    },
                    None => if b1[i] == SEMICOLON {
                        lemma_ends_alike_now(
                            state_at_semicolon(st1, over1, source),
                            state_at_semicolon(st2, over2, source),
                            st1.entries,
                            st2.entries,
                        );
                    } else if !ident_start(b1[i]) {
                        shift_fragment(
                            tree,
                            b1,
                            b2,
                            from,
                            d,
                            i + 1,
                            source,
                            stack,
                            over1,
                            over2,
                            st1,
                            st2,
                        );
                    } else {
                        let next = ident_end(b1, i + 1);
                        shift_ident_end(b1, b2, from, d, i + 1);
                        lemma_ident_end_bounds(b1, i + 1);
                        shift_subrange(b1, b2, from, d, i, next);
                        shift_declared_path(b1, b2, from, d, next);
                        lemma_declared_path_bounds(b1, next);
                        let (in_path, after) = declared_path(b1, next);
                        let open1 = EntryModel {
                            name: ident_text(b1, i),
                            in_path,
                            start: anchor_at(over1, i),
                            delimiter: None,
                            delimiter_pos: None,
                            from_include: over1 is Some,
                        };
                        let open2 = EntryModel {
                            name: ident_text(b2, i + d),
                            in_path,
                            start: anchor_at(over2, i + d),
                            delimiter: None,
                            delimiter_pos: None,
                            from_include: over2 is Some,
                        };
                        let next1 = DprState {
                            entries: st1.entries,
                            warnings: st1.warnings,
                            flags: flags_with_path(st1.flags, in_path),
                        };
                        let next2 = DprState {
                            entries: st2.entries,
                            warnings: st2.warnings,
                            flags: flags_with_path(st2.flags, in_path),
                        };
                        shift_after_entry(
                            tree,
                            b1,
                            b2,
                            from,
                            d,
                            after,
                            source,
                            stack,
                            over1,
                            over2,
                            next1,
                            next2,
                            open1,
                            open2,
                            Seq::empty(),
                            Seq::empty(),
                        );
                        assert(st1.entries.push(open1) + Seq::<EntryModel>::empty()
                            =~= st1.entries + seq![open1]);
                        assert(st2.entries.push(open2) + Seq::<EntryModel>::empty()
                            =~= st2.entries + seq![open2]);
                        assert(contents(seq![open1]) =~= contents(seq![open2]));
                        lemma_ends_alike_from(
                            r1,
                            r2,
                            st1.entries,
                            st2.entries,
                            seq![open1],
                            seq![open2],
                            d,
                        );
                    },
                },
            }
        }
    }
}

/// Readings that go on behind entries which say the same, in texts of
/// which the one holds the bytes of the other, end alike.
#[verifier::spinoff_prover]
#[verifier::rlimit(60)]
pub proof fn shift_after_entry(
    tree: SourceTree,
    b1: Seq<u8>,
    b2: Seq<u8>,
    from: int,
    d: int,
    i: int,
    source: Seq<char>,
    stack: Seq<Seq<char>>,
    over1: Option<int>,
    over2: Option<int>,
    st1: DprState,
    st2: DprState,
    open1: EntryModel,
    open2: EntryModel,
    pending1: Seq<EntryModel>,
    pending2: Seq<EntryModel>,
)
    requires
        shifted(b1, b2, from, d),
        from <= i <= b1.len(),
        (over1 is Some) == (over2 is Some),
        st1.flags.include_semicolon == st2.flags.include_semicolon,
    ensures
        ends_alike(
            dpr_after_entry(tree, b1, i, source, stack, over1, st1, open1, pending1),
            dpr_after_entry(tree, b2, i + d, source, stack, over2, st2, open2, pending2),
            st1.entries.push(open1) + pending1,
            st2.entries.push(open2) + pending2,
            d,
        ),
    decreases include_budget(tree, stack), 2 + b1.len() - i,
{
    let r1 = dpr_after_entry(tree, b1, i, source, stack, over1, st1, open1, pending1);
    let r2 = dpr_after_entry(tree, b2, i + d, source, stack, over2, st2, open2, pending2);
    let base1 = st1.entries.push(open1) + pending1;
    let base2 = st2.entries.push(open2) + pending2;
    if i >= b1.len() {
        let end1 = state_with_entry(st1, closed_entry(open1, None, i), pending1);
        let end2 = state_with_entry(st2, closed_entry(open2, None, i + d), pending2);
        assert(contents(end1.entries) =~= contents(base1));
        assert(contents(end2.entries) =~= contents(base2));
        assert(added(end1.entries, base1.len() as int) =~= Seq::<EntryContent>::empty());
        assert(contents(base1) + Seq::<EntryContent>::empty() =~= contents(base1));
        assert(contents(base2) + Seq::<EntryContent>::empty() =~= contents(base2));
    } else {
        assert(b1[i] == b2[i + d]);
        if b1[i] == COMMA {
            let next1 = state_with_entry(st1, closed_entry(open1, Some(COMMA), i), pending1);
            let next2 = state_with_entry(st2, closed_entry(open2, Some(COMMA), i + d), pending2);
            shift_fragment(
                tree,
                b1,
                b2,
                from,
                d,
                i + 1,
                source,
                stack,
                over1,
                over2,
                next1,
                next2,
            );
            assert(contents(next1.entries) =~= contents(base1));
            assert(contents(next2.entries) =~= contents(base2));
            assert(next1.entries.len() == base1.len());
        } else if b1[i] == SEMICOLON {
            let end1 = state_with_entry(st1, closed_entry(open1, Some(SEMICOLON), i), pending1);
            let end2 = state_with_entry(
                st2,
                closed_entry(open2, Some(SEMICOLON), i + d),
                pending2,
            );
            assert(contents(end1.entries) =~= contents(base1));
            assert(contents(end2.entries) =~= contents(base2));
            assert(added(end1.entries, base1.len() as int) =~= Seq::<EntryContent>::empty());
            assert(contents(base1) + Seq::<EntryContent>::empty() =~= contents(base1));
            assert(contents(base2) + Seq::<EntryContent>::empty() =~= contents(base2));
        } else {
            shift_include_directive(b1, b2, from, d, i);
            shift_comment_or_string_end(b1, b2, from, d, i);
            lemma_include_directive_bounds(b1, i);
            lemma_comment_or_string_end_bounds(b1, i);
            match include_directive(b1, i) {
                Some((name, end)) => {
                    let got1 = include_entries(
                        tree,
                        name,
                        anchor_at(over1, i),
                        source,
                        stack,
                        st1.warnings,
                        st1.flags,
                    );
                    let got2 = include_entries(
                        tree,
                        name,
                        anchor_at(over2, i + d),
                        source,
                        stack,
                        st2.warnings,
                        st2.flags,
                    );
                    alike_include_entries(
                        tree,
                        name,
                        anchor_at(over1, i),
                        anchor_at(over2, i + d),
                        source,
                        stack,
                        st1.warnings,
                        st2.warnings,
                        st1.flags,
                        st2.flags,
                    );
                    shift_after_entry(
                        tree,
                        b1,
                        b2,
                        from,
                        d,
                        end,
                        source,
                        stack,
                        over1,
                        over2,
                        DprState {
                            entries: st1.entries,
                            warnings: got1.warnings,
                            flags: got1.flags,
                        },
                        DprState {
                            entries: st2.entries,
                            warnings: got2.warnings,
                            flags: got2.flags,
                        },
                        open1,
                        open2,
                        pending1 + got1.entries,
                        pending2 + got2.entries,
                    );
                    assert(st1.entries.push(open1) + (pending1 + got1.entries) =~= base1
                        + got1.entries);
                    assert(st2.entries.push(open2) + (pending2 + got2.entries) =~= base2
                        + got2.entries);
                    lemma_ends_alike_from(r1, r2, base1, base2, got1.entries, got2.entries, d);
                },
                None => match comment_or_string_end(b1, i) {
                    Some(e) => {
                        shift_after_entry(
                            tree,
                            b1,
                            b2,
                            from,
                            d,
                            e,
                            source,
                            stack,
                            over1,
                            over2,
                            st1,
                            st2,
                            open1,
                            open2,
                            pending1,
                            pending2,
                        );
                    },
                    None => {
                        shift_after_entry(
                            tree,
                            b1,
                            b2,
                            from,
                            d,
                            i + 1,
                            source,
                            stack,
                            over1,
                            over2,
                            st1,
                            st2,
                            open1,
                            open2,
                            pending1,
                            pending2,
                        );
                    },
                },
            }
        }
    }
}

/// The two states hold the same entries and flags; their warnings may
/// differ.
pub open spec fn same_but_warnings(s1: DprState, s2: DprState) -> bool {
    s1.entries == s2.entries && s1.flags == s2.flags
}

/// What an include file gives does not depend on the warnings that were
/// given before.
pub proof fn same_include_entries(
    tree: SourceTree,
    name: Seq<char>,
    anchor: int,
    source: Seq<char>,
    stack: Seq<Seq<char>>,
    warnings1: Seq<Seq<char>>,
    warnings2: Seq<Seq<char>>,
    flags: ClauseFlags,
)
    ensures
        same_but_warnings(
            include_entries(tree, name, anchor, source, stack, warnings1, flags),
            include_entries(tree, name, anchor, source, stack, warnings2, flags),
        ),
    decreases include_budget(tree, stack), 0int,
{
    if lookup_include(tree, name, source, stack) is Found {
        let path = include_path(source, name);
        let canonical = tree.canonical(path);
        lemma_budget_decreases(tree, name, source, stack);
        same_fragment(
            tree,
            tree.files.value(canonical)@,
            0,
            path,
            stack.push(canonical),
            Some(anchor),
            DprState {
                entries: Seq::empty(),
                warnings: warnings_after_lookup(tree, name, source, stack, warnings1),
                flags,
            },
            DprState {
                entries: Seq::empty(),
                warnings: warnings_after_lookup(tree, name, source, stack, warnings2),
                flags,
            },
        );
    }
}

/// What a reading finds does not depend on the warnings that were given
/// before.
pub proof fn same_fragment(
    tree: SourceTree,
    b: Seq<u8>,
    i: int,
    source: Seq<char>,
    stack: Seq<Seq<char>>,
    over: Option<int>,
    st1: DprState,
    st2: DprState,
)
    requires
        same_but_warnings(st1, st2),
    ensures
        dpr_fragment(tree, b, i, source, stack, over, st1).semicolon == dpr_fragment(
            tree,
            b,
            i,
            source,
            stack,
            over,
            st2,
        ).semicolon,
        same_but_warnings(
            dpr_fragment(tree, b, i, source, stack, over, st1).state,
            dpr_fragment(tree, b, i, source, stack, over, st2).state,
        ),
    decreases include_budget(tree, stack), 2 + b.len() - i,
{
    if 0 <= i < b.len() {
        if blank(b[i]) {
            same_fragment(tree, b, i + 1, source, stack, over, st1, st2);
        } else {
            lemma_include_directive_bounds(b, i);
            lemma_comment_or_string_end_bounds(b, i);
            match include_directive(b, i) {
                Some((name, end)) => {
                    let anchor = anchor_at(over, i);
                    let got1 = include_entries(
                        tree,
                        name,
                        anchor,
                        source,
                        stack,
                        st1.warnings,
                        st1.flags,
                    );
                    let got2 = include_entries(
                        tree,
                        name,
                        anchor,
                        source,
                        stack,
                        st2.warnings,
                        st2.flags,
                    );
                    same_include_entries(
                        tree,
                        name,
                        anchor,
                        source,
                        stack,
                        st1.warnings,
                        st2.warnings,
                        st1.flags,
                    );
                    same_fragment(
                        tree,
                        b,
                        end,
                        source,
                        stack,
                        over,
                        DprState {
                            entries: st1.entries + got1.entries,
                            warnings: got1.warnings,
                            flags: got1.flags,
                        },
                        DprState {
                            entries: st2.entries + got2.entries,
                            warnings: got2.warnings,
                            flags: got2.flags,
                        },
                    );
                },
                None => match comment_or_string_end(b, i) {
                    Some(e) => {
                        same_fragment(tree, b, e, source, stack, over, st1, st2);
                    },
                    None => if b[i] == SEMICOLON {
                    } else if !ident_start(b[i]) {
                        same_fragment(tree, b, i + 1, source, stack, over, st1, st2);
                    } else {
                        let next = ident_end(b, i + 1);
                        let (in_path, after) = declared_path(b, next);
                        lemma_ident_end_bounds(b, i + 1);
                        lemma_declared_path_bounds(b, next);
                        let open = EntryModel {
                            name: ident_text(b, i),
                            in_path,
                            start: anchor_at(over, i),
                            delimiter: None,
                            delimiter_pos: None,
                            from_include: over is Some,
                        };
                        same_after_entry(
                            tree,
                            b,
                            after,
                            source,
                            stack,
                            over,
                            DprState {
                                entries: st1.entries,
                                warnings: st1.warnings,
                                flags: flags_with_path(st1.flags, in_path),
                            },
                            DprState {
                                entries: st2.entries,
                                warnings: st2.warnings,
                                flags: flags_with_path(st2.flags, in_path),
                            },
                            open,
                            Seq::empty(),
                        );
                    },
                },
            }
        }
    }
}

pub proof fn same_after_entry(
    tree: SourceTree,
    b: Seq<u8>,
    i: int,
    source: Seq<char>,
    stack: Seq<Seq<char>>,
    over: Option<int>,
    st1: DprState,
    st2: DprState,
    open: EntryModel,
    pending: Seq<EntryModel>,
)
    requires
        same_but_warnings(st1, st2),
    ensures
        dpr_after_entry(tree, b, i, source, stack, over, st1, open, pending).semicolon
            == dpr_after_entry(tree, b, i, source, stack, over, st2, open, pending).semicolon,
        same_but_warnings(
            dpr_after_entry(tree, b, i, source, stack, over, st1, open, pending).state,
            dpr_after_entry(tree, b, i, source, stack, over, st2, open, pending).state,
        ),
    decreases include_budget(tree, stack), 2 + b.len() - i,
{
    if 0 <= i < b.len() {
        if b[i] == COMMA {
            same_fragment(
                tree,
                b,
                i + 1,
                source,
                stack,
                over,
                state_with_entry(st1, closed_entry(open, Some(COMMA), i), pending),
                state_with_entry(st2, closed_entry(open, Some(COMMA), i), pending),
            );
        } else if b[i] == SEMICOLON {
        } else {
            lemma_include_directive_bounds(b, i);
            lemma_comment_or_string_end_bounds(b, i);
            match include_directive(b, i) {
                Some((name, end)) => {
                    let anchor = anchor_at(over, i);
                    let got1 = include_entries(
                        tree,
                        name,
                        anchor,
                        source,
                        stack,
                        st1.warnings,
                        st1.flags,
                    );
                    let got2 = include_entries(
                        tree,
                        name,
                        anchor,
                        source,
                        stack,
                        st2.warnings,
                        st2.flags,
                    );
                    same_include_entries(
                        tree,
                        name,
                        anchor,
                        source,
                        stack,
                        st1.warnings,
                        st2.warnings,
                        st1.flags,
                    );
                    same_after_entry(
                        tree,
                        b,
                        end,
                        source,
                        stack,
                        over,
                        DprState {
                            entries: st1.entries,
                            warnings: got1.warnings,
                            flags: got1.flags,
                        },
                        DprState {
                            entries: st2.entries,
                            warnings: got2.warnings,
                            flags: got2.flags,
                        },
                        open,
                        pending + got1.entries,
                    );
                },
                None => match comment_or_string_end(b, i) {
                    Some(e) => {
                        same_after_entry(tree, b, e, source, stack, over, st1, st2, open, pending);
                    },
                    None => {
                        same_after_entry(
                            tree,
                            b,
                            i + 1,
                            source,
                            stack,
                            over,
                            st1,
                            st2,
                            open,
                            pending,
                        );
                    },
                },
            }
        }
    }
}

} // verus!
