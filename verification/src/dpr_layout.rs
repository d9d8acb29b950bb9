use vstd::prelude::*;

use crate::dpr_insert::{
    ends_with_comma, entry_text, insertion, insertion_after, leading_space_len,
    lemma_leading_space_len, separator_before, with_new_entry,
};
use crate::dpr_parse::{
    closed_entry, dpr_uses, entries_fit, has_newline, indent_bytes, indent_end, line_start,
    uses_keyword_end, ListModel,
};
use crate::dpr_place::{lemma_after_keeps, lemma_after_opens, lemma_fragment_keeps};
use crate::dpr_prefix::lemma_reach_start_below;
use crate::dpr_roundtrip::{
    clause_place, entries_at, entry_text_of, first_state, identifier, in_bytes,
    lemma_entry_is_read_back, lemma_entry_text_bytes, lemma_list_ignores_warnings,
    lemma_list_is_clause_end, lemma_reach_start_entries_below, lemma_reach_start_resumes,
    lemma_semicolon_is_reached, lemma_space_run, plain_splice, put_behind_anchor, reads_alike_up_to,
    shown_path, starts_below, Point,
};
use crate::pas_lex::{
    ident_continue, lemma_comment_or_string_end_bounds, lemma_include_directive_bounds, COMMA,
    NEWLINE, QUOTE, SEMICOLON,
};
use crate::source_tree::SourceTree;
use crate::text::{ascii_text, utf8};
use crate::unit_cache::UnitModel;

verus! {

/// The splice stands inside the text.
pub proof fn lemma_splice_place_bounds(b: Seq<u8>, list: ListModel, text: Seq<u8>, after: Option<int>)
    requires
        0 <= list.semicolon < b.len(),
        entries_fit(list.entries, b),
    ensures
        0 <= insertion(b, list, text, after).0 <= b.len(),
{
    lemma_space_run(b, list.semicolon);
    match after {
        Some(idx) => {
            if insertion_after(b, list, idx, text) is Some {
                let e = list.entries[idx];
                assert(0 <= e.start);
            }
        },
        None => {},
    }
}

/// Two texts that hold the same bytes before an offset have the same
/// indentation before the offsets up to it.
pub proof fn lemma_indent_before_splice(b: Seq<u8>, c: Seq<u8>, m: int, pos: int)
    requires
        0 <= pos <= m,
        m <= b.len(),
        m <= c.len(),
        forall|k: int| 0 <= k < m ==> #[trigger] b[k] == c[k],
    ensures
        line_start(c, pos) == line_start(b, pos),
        indent_bytes(c, pos) == indent_bytes(b, pos),
{
    lemma_line_start_alike(b, c, m, pos);
    let from = line_start(b, pos);
    crate::dpr_parse::lemma_line_start_bounds(b, pos);
    lemma_indent_end_alike(b, c, m, from, pos);
    crate::dpr_parse::lemma_indent_end_bounds(b, from, pos);
    let to = indent_end(b, from, pos);
    assert forall|k: int| 0 <= k < to - from implies c.subrange(from, to)[k] == b.subrange(
        from,
        to,
    )[k] by {
        assert(b[from + k] == c[from + k]);
    }
    assert(c.subrange(from, to) =~= b.subrange(from, to));
}

proof fn lemma_line_start_alike(b: Seq<u8>, c: Seq<u8>, m: int, pos: int)
    requires
        0 <= pos <= m,
        forall|k: int| 0 <= k < m ==> #[trigger] b[k] == c[k],
    ensures
        line_start(c, pos) == line_start(b, pos),
    decreases pos,
{
    if pos > 0 {
        assert(b[pos - 1] == c[pos - 1]);
        if b[pos - 1] != NEWLINE {
            lemma_line_start_alike(b, c, m, pos - 1);
        }
    }
}

proof fn lemma_indent_end_alike(b: Seq<u8>, c: Seq<u8>, m: int, i: int, limit: int)
    requires
        0 <= i,
        limit <= m,
        forall|k: int| 0 <= k < m ==> #[trigger] b[k] == c[k],
    ensures
        indent_end(c, i, limit) == indent_end(b, i, limit),
    decreases limit - i,
{
    if i < limit {
        assert(b[i] == c[i]);
        lemma_indent_end_alike(b, c, m, i + 1, limit);
    }
}

/// The first entry of a clause that is read alike up to a splice starts
/// where it started, before the splice.
pub proof fn lemma_first_entry_stays(
    tree: SourceTree,
    path: Seq<char>,
    b: Seq<u8>,
    new: Seq<u8>,
    warnings: Seq<Seq<char>>,
    at: int,
)
    requires
        dpr_uses(tree, path, b, warnings).list is Some,
        dpr_uses(tree, path, new, warnings).list is Some,
        reads_alike_up_to(tree, path, b, new, warnings, at),
        entries_at(clause_place(tree, path, b, warnings, at).unwrap()).len() >= 1,
        0 <= at <= b.len(),
        at <= new.len(),
    ensures
        dpr_uses(tree, path, new, warnings).list.unwrap().entries[0].start == dpr_uses(
            tree,
            path,
            b,
            warnings,
        ).list.unwrap().entries[0].start,
        dpr_uses(tree, path, b, warnings).list.unwrap().entries[0].start < at,
{
    let start = uses_keyword_end(b, 0).unwrap();
    let stack = seq![tree.canonical(path)];
    let st0 = first_state(warnings);
    let point = clause_place(tree, path, b, warnings, at).unwrap();
    let old_list = dpr_uses(tree, path, b, warnings).list.unwrap();
    let new_list = dpr_uses(tree, path, new, warnings).list.unwrap();
    lemma_list_is_clause_end(tree, path, b, warnings);
    lemma_list_is_clause_end(tree, path, new, warnings);
    lemma_reach_start_resumes(tree, b, start, path, stack, st0, at);
    lemma_reach_start_resumes(tree, new, start, path, stack, st0, at);
    lemma_reach_start_entries_below(tree, b, start, path, stack, st0, at);
    let met = entries_at(point);
    assert(met[0].start < at);
    match point {
        Point::Start(st) => {
            lemma_fragment_keeps(tree, b, at, path, stack, None, st);
            lemma_fragment_keeps(tree, new, at, path, stack, None, st);
            assert(old_list.entries[0] == st.entries[0]);
            assert(new_list.entries[0] == st.entries[0]);
        },
        Point::Behind(st, open, pending) => {
            if st.entries.len() >= 1 {
                lemma_after_keeps(tree, b, at, path, stack, None, st, open, pending);
                lemma_after_keeps(tree, new, at, path, stack, None, st, open, pending);
                assert(old_list.entries[0] == st.entries[0]);
                assert(new_list.entries[0] == st.entries[0]);
                assert(met[0] == st.entries[0]);
            } else {
                lemma_after_opens(tree, b, at, path, stack, None, st, open, pending);
                lemma_after_opens(tree, new, at, path, stack, None, st, open, pending);
                assert(met[0] == open);
            }
        },
    }
}

/// A clause that stands on several lines keeps its layout when a unit
/// is put into it: read again from the new text, it stands on several
/// lines, and its indentation is what it was.
///
/// This holds where the name of the unit is an identifier and its shown
/// path holds no quote, and where nothing stands in the way of reading
/// the entry back.
pub proof fn lemma_multiline_layout_stays(
    tree: SourceTree,
    path: Seq<char>,
    b: Seq<u8>,
    list: ListModel,
    unit: UnitModel,
    after: Option<int>,
    warnings: Seq<Seq<char>>,
    name: Seq<u8>,
    before: Seq<Seq<char>>,
)
    requires
        dpr_uses(tree, path, b, before).list == Some(list),
        unit.name == ascii_text(name),
        identifier(name),
        !utf8(shown_path(unit, path, list)).contains(QUOTE),
        plain_splice(
            tree,
            path,
            b,
            list,
            utf8(entry_text(unit.name, unit.path, path, list)),
            after,
            warnings,
        ),
        list.multiline,
    ensures
        ({
            let text = utf8(entry_text(unit.name, unit.path, path, list));
            let read = dpr_uses(tree, path, with_new_entry(b, list, text, after), warnings);
            &&& read.list is Some
            &&& read.list.unwrap().multiline
            &&& read.list.unwrap().indent == list.indent
            &&& read.list.unwrap().entries[0].start == list.entries[0].start
        }),
{
    let text = utf8(entry_text(unit.name, unit.path, path, list));
    let splice = insertion(b, list, text, after);
    let at = splice.0;
    let new = with_new_entry(b, list, text, after);
    lemma_entry_is_read_back(tree, path, b, list, unit, after, warnings, name, before);
    lemma_list_ignores_warnings(tree, path, b, before, warnings);
    lemma_list_is_clause_end(tree, path, b, warnings);
    lemma_splice_place_bounds(b, list, text, after);
    lemma_first_entry_stays(tree, path, b, new, warnings, at);
    let read = dpr_uses(tree, path, new, warnings).list.unwrap();
    let start = uses_keyword_end(b, 0).unwrap();
    let first = list.entries[0].start;
    let k = choose|k: int| start <= k < list.semicolon && #[trigger] b[k] == NEWLINE;
    if k < at {
        assert(new[k] == b[k]);
    } else {
        assert(new[k + splice.1.len()] == b[k]);
    }
    assert(has_newline(new, start, list.semicolon + splice.1.len()));
    assert forall|j: int| 0 <= j < at implies #[trigger] b[j] == new[j] by {}
    lemma_indent_before_splice(b, new, at, first);
}

/// Each entry of a clause starts before the semicolon that closes it.
pub proof fn lemma_entries_start_before_semicolon(
    tree: SourceTree,
    path: Seq<char>,
    b: Seq<u8>,
    warnings: Seq<Seq<char>>,
)
    requires
        dpr_uses(tree, path, b, warnings).list is Some,
    ensures
        starts_below(
            dpr_uses(tree, path, b, warnings).list.unwrap().entries,
            dpr_uses(tree, path, b, warnings).list.unwrap().semicolon,
        ),
{
    let list = dpr_uses(tree, path, b, warnings).list.unwrap();
    let semi = list.semicolon;
    let start = uses_keyword_end(b, 0).unwrap();
    let stack = seq![tree.canonical(path)];
    let st0 = first_state(warnings);
    lemma_list_is_clause_end(tree, path, b, warnings);
    lemma_semicolon_is_reached(tree, path, b, warnings);
    let point = clause_place(tree, path, b, warnings, semi).unwrap();
    lemma_reach_start_resumes(tree, b, start, path, stack, st0, semi);
    lemma_reach_start_entries_below(tree, b, start, path, stack, st0, semi);
    let met = entries_at(point);
    lemma_include_directive_bounds(b, semi);
    lemma_comment_or_string_end_bounds(b, semi);
    match point {
        Point::Start(st) => {
            assert(list.entries == st.entries);
        },
        Point::Behind(st, open, pending) => {
            let closed = closed_entry(open, Some(SEMICOLON), semi);
            assert(list.entries == st.entries.push(closed) + pending);
            assert forall|k: int| 0 <= k < list.entries.len() implies (
            #[trigger] list.entries[k]).start < semi by {
                assert(met[k].start < semi);
                if k < st.entries.len() {
                } else if k == st.entries.len() {
                    assert(met[k] == open);
                    assert(list.entries[k] == closed);
                } else {
                    assert(met[k] == pending[k - st.entries.len() - 1]);
                    assert(list.entries[k] == pending[k - st.entries.len() - 1]);
                }
            }
        },
    }
}

/// A clause that stands on one line stays on one line when a unit is put
/// into it, where the shown path of the unit holds no line feed: read
/// again from the new text, it stands on one line and has no
/// indentation.
///
/// This holds where the name of the unit is an identifier and its shown
/// path holds no quote, and where nothing stands in the way of reading
/// the entry back.
pub proof fn lemma_single_line_layout_stays(
    tree: SourceTree,
    path: Seq<char>,
    b: Seq<u8>,
    list: ListModel,
    unit: UnitModel,
    after: Option<int>,
    warnings: Seq<Seq<char>>,
    name: Seq<u8>,
    before: Seq<Seq<char>>,
)
    requires
        dpr_uses(tree, path, b, before).list == Some(list),
        unit.name == ascii_text(name),
        identifier(name),
        !utf8(shown_path(unit, path, list)).contains(QUOTE),
        !utf8(shown_path(unit, path, list)).contains(NEWLINE),
        plain_splice(
            tree,
            path,
            b,
            list,
            utf8(entry_text(unit.name, unit.path, path, list)),
            after,
            warnings,
        ),
        !list.multiline,
    ensures
        ({
            let text = utf8(entry_text(unit.name, unit.path, path, list));
            let read = dpr_uses(tree, path, with_new_entry(b, list, text, after), warnings);
            &&& read.list is Some
            &&& !read.list.unwrap().multiline
            &&& read.list.unwrap().indent == list.indent
            &&& read.list.unwrap().entries[0].start == list.entries[0].start
        }),
{
    let shown = shown_path(unit, path, list);
    let text = utf8(entry_text(unit.name, unit.path, path, list));
    let splice = insertion(b, list, text, after);
    let at = splice.0;
    let bytes = splice.1;
    let new = with_new_entry(b, list, text, after);
    let semi = list.semicolon;
    lemma_entry_is_read_back(tree, path, b, list, unit, after, warnings, name, before);
    lemma_list_ignores_warnings(tree, path, b, before, warnings);
    lemma_list_is_clause_end(tree, path, b, warnings);
    lemma_splice_place_bounds(b, list, text, after);
    lemma_first_entry_stays(tree, path, b, new, warnings, at);
    lemma_entries_start_before_semicolon(tree, path, b, warnings);
    let start = uses_keyword_end(b, 0).unwrap();
    let stack = seq![tree.canonical(path)];
    lemma_reach_start_below(tree, b, start, path, stack, first_state(warnings), at);
    assert(start <= at);
    assert(entry_text(unit.name, unit.path, path, list) == entry_text_of(name, shown));
    lemma_entry_text_bytes(name, shown);
    assert forall|j: int| 0 <= j < text.len() implies #[trigger] text[j] != NEWLINE by {
        let path_bytes = utf8(shown);
        if j < name.len() {
            assert(text[j] == name[j]);
            assert(ident_continue(name[j]));
        } else if j < name.len() + in_bytes().len() {
            assert(text[j] == in_bytes()[j - name.len()]);
        } else if j < name.len() + in_bytes().len() + path_bytes.len() {
            assert(text[j] == path_bytes[j - name.len() - in_bytes().len()]);
            assert(path_bytes.contains(path_bytes[j - name.len() - in_bytes().len()]));
        } else {
            assert(text[j] == QUOTE);
        }
    }
    let behind = put_behind_anchor(b, list, text, after);
    if behind {
        let idx = after.unwrap();
        let p = list.entries[idx].delimiter_pos.unwrap();
        let next_start = list.entries[idx + 1].start;
        let gap_from = b.subrange(p + 1, next_start);
        let gap = separator_before(b, list, gap_from);
        lemma_leading_space_len(gap_from);
        assert(bytes == gap + text + seq![COMMA]);
        assert(next_start < semi);
        assert forall|j: int| 0 <= j < bytes.len() implies #[trigger] bytes[j] != NEWLINE by {
            if j < gap.len() {
                let n = leading_space_len(gap_from);
                if n == gap_from.len() || n > 0 {
                    assert(gap[j] == gap_from[j]);
                    assert(gap_from[j] == b[p + 1 + j]);
                    if b[p + 1 + j] == NEWLINE {
                        assert(has_newline(b, start, semi));
                    }
                }
            } else if j < gap.len() + text.len() {
                assert(bytes[j] == text[j - gap.len()]);
            }
        }
    } else {
        assert(at == semi);
        assert forall|j: int| 0 <= j < bytes.len() implies #[trigger] bytes[j] != NEWLINE by {
            if ends_with_comma(list) {
                if j >= 1 {
                    assert(bytes[j] == text[j - 1]);
                }
            } else {
                if j >= 2 {
                    assert(bytes[j] == text[j - 2]);
                }
            }
        }
    }
    assert(at <= semi);
    assert forall|k: int| start <= k < semi + bytes.len() implies #[trigger] new[k] != NEWLINE by {
        if k < at {
            assert(new[k] == b[k]);
            if b[k] == NEWLINE {
                assert(has_newline(b, start, semi));
            }
        } else if k < at + bytes.len() {
            assert(new[k] == bytes[k - at]);
        } else {
            assert(new[k] == b[k - bytes.len()]);
            if b[k - bytes.len()] == NEWLINE {
                assert(has_newline(b, start, semi));
            }
        }
    }
    assert(!has_newline(new, start, semi + bytes.len()));
}

} // verus!
