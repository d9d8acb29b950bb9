use vstd::prelude::*;

use crate::dpr_parse::{detect_line_ending, line_ending, ListModel, UsesList};
use crate::pas_lex::{ascii_space, is_ascii_space, COMMA, NEWLINE, SPACE};
use crate::paths::{diff_paths, parent_of, path_parent, relative_to};
use crate::text::{
    append_bytes, append_text_bytes, chars_of, concat, concat_all, copy_text, string_of, utf8,
};

verus! {

/// The separator that the declared paths of a clause use: a slash only
/// where the clause holds slashes and no backslash.
pub open spec fn separator_of(list: ListModel) -> char {
    if list.has_backslash {
        '\\'
    } else if list.has_slash {
        '/'
    } else {
        '\\'
    }
}

/// `path` with `sep` in place of each slash and backslash.
pub open spec fn with_separator(path: Seq<char>, sep: char) -> Seq<char> {
    Seq::new(
        path.len(),
        |i: int|
            if path[i] == '\\' || path[i] == '/' {
                sep
            } else {
                path[i]
            },
    )
}

/// The path from the directory of the project file to `target`; `target`
/// itself where the project file has no directory or no such path exists.
pub open spec fn relative_path_text(target: Seq<char>, dpr_path: Seq<char>) -> Seq<char> {
    match parent_of(dpr_path) {
        Some(base) => match relative_to(target, base) {
            Some(diff) => diff,
            None => target,
        },
        None => target,
    }
}

/// The text of the entry that declares the unit `name` in the file
/// `target`: `<name> in '<path>'`, the path relative to the project file
/// and with the separator of the clause.
pub open spec fn entry_text(
    name: Seq<char>,
    target: Seq<char>,
    dpr_path: Seq<char>,
    list: ListModel,
) -> Seq<char> {
    concat_all(
        seq![
            name,
            " in '"@,
            with_separator(relative_path_text(target, dpr_path), separator_of(list)),
            "'"@,
        ],
    )
}

fn relative_path(target: &str, dpr_path: &str) -> (r: String)
    ensures
        r@ == relative_path_text(target@, dpr_path@),
{
    match path_parent(dpr_path) {
        Some(base) => match diff_paths(target, base.as_str()) {
            Some(diff) => diff,
            None => copy_text(target),
        },
        None => copy_text(target),
    }
}

fn replace_separators(path: &str, sep: char) -> (r: String)
    ensures
        r@ == with_separator(path@, sep),
{
    let chars = chars_of(path);
    let mut out: Vec<char> = Vec::new();
    let mut i: usize = 0;
    while i < chars.len()
        invariant
            i <= chars.len(),
            out@ == with_separator(chars@.take(i as int), sep),
        decreases chars.len() - i,
    {
        let c = chars[i];
        out.push(if c == '\\' || c == '/' {
            sep
        } else {
            c
        });
        i += 1;
        assert(out@ =~= with_separator(chars@.take(i as int), sep));
    }
    assert(chars@.take(chars.len() as int) =~= chars@);
    string_of(&out)
}

/// Builds the text of the entry that declares a unit.
pub fn build_entry_text(name: &str, target: &str, dpr_path: &str, list: &UsesList) -> (r: String)
    ensures
        r@ == entry_text(name@, target@, dpr_path@, list.deep_view()),
{
    let rel = relative_path(target, dpr_path);
    let sep = if list.has_backslash {
        '\\'
    } else if list.has_slash {
        '/'
    } else {
        '\\'
    };
    let shown = replace_separators(rel.as_str(), sep);
    let parts = vec![name, " in '", shown.as_str(), "'"];
    assert(parts.deep_view() =~= seq![name@, " in '"@, shown@, "'"@]);
    concat(&parts)
}

/// How many ASCII whitespace bytes open `s`.
pub open spec fn leading_space_len(s: Seq<u8>) -> int
    decreases s.len(),
{
    if s.len() > 0 && ascii_space(s[0]) {
        1 + leading_space_len(s.drop_first())
    } else {
        0
    }
}

/// Where the ASCII whitespace starts that ends at `pos`.
pub open spec fn space_run_start(b: Seq<u8>, pos: int) -> int
    decreases pos,
{
    if pos > 0 && ascii_space(b[pos - 1]) {
        space_run_start(b, pos - 1)
    } else {
        pos
    }
}

/// What stands between the comma of the anchor and the new entry: the
/// bytes `after` that follow that comma if they are whitespace; else the
/// whitespace that opens them; else, where they open with none, a line
/// ending and the indentation in a multiline clause and a space in others.
pub open spec fn separator_before(b: Seq<u8>, list: ListModel, after: Seq<u8>) -> Seq<u8> {
    let n = leading_space_len(after);
    if n == after.len() {
        after
    } else if n > 0 {
        after.subrange(0, n)
    } else if list.multiline {
        line_ending(b) + utf8(list.indent)
    } else {
        seq![SPACE]
    }
}

/// The splice that puts the entry `text` behind entry `idx`: the offset
/// just past that entry's comma and the bytes to put there. There is none
/// where that entry came from an include file, is not ended by a comma, or
/// is the last.
pub open spec fn insertion_after(b: Seq<u8>, list: ListModel, idx: int, text: Seq<u8>) -> Option<
    (int, Seq<u8>),
> {
    if idx < 0 || idx + 1 >= list.entries.len() {
        None
    } else {
        let entry = list.entries[idx];
        let next_start = list.entries[idx + 1].start;
        match entry.delimiter_pos {
            Some(p) => if entry.from_include || entry.delimiter != Some(COMMA) || p + 1
                > next_start || next_start > b.len() {
                None
            } else {
                Some(
                    (
                        p + 1,
                        separator_before(b, list, b.subrange(p + 1, next_start)) + text
                            + seq![COMMA],
                    ),
                )
            },
            None => None,
        }
    }
}

/// Whether a comma ends the last entry of the clause.
pub open spec fn ends_with_comma(list: ListModel) -> bool {
    list.entries.len() > 0 && list.entries.last().delimiter == Some(COMMA)
}

/// The splice that puts the entry `text` at the end of the clause. In a
/// multiline clause the entry gets a line of its own, behind a comma
/// that is put right behind the last entry; else it follows a comma and
/// a space.
pub open spec fn insertion_at_end(b: Seq<u8>, list: ListModel, text: Seq<u8>) -> (int, Seq<u8>) {
    let comma = ends_with_comma(list);
    if list.multiline {
        (
            if comma {
                list.semicolon
            } else {
                space_run_start(b, list.semicolon)
            },
            (if comma {
                Seq::<u8>::empty()
            } else {
                seq![COMMA]
            }) + line_ending(b) + utf8(list.indent) + text,
        )
    } else {
        (
            list.semicolon,
            (if comma {
                seq![SPACE]
            } else {
                seq![COMMA, SPACE]
            }) + text,
        )
    }
}

/// The splice that puts the entry `text` into the clause: behind the
/// anchor where that can be done, else at the end.
pub open spec fn insertion(
    b: Seq<u8>,
    list: ListModel,
    text: Seq<u8>,
    insert_after: Option<int>,
) -> (int, Seq<u8>) {
    match insert_after {
        Some(idx) => match insertion_after(b, list, idx, text) {
            Some(splice) => splice,
            None => insertion_at_end(b, list, text),
        },
        None => insertion_at_end(b, list, text),
    }
}

/// `b` with `bytes` put in at the offset `at`.
pub open spec fn spliced(b: Seq<u8>, at: int, bytes: Seq<u8>) -> Seq<u8> {
    b.subrange(0, at) + bytes + b.subrange(at, b.len() as int)
}

/// The project file with the entry `text` put into its clause. Nothing
/// but the bytes of the splice is new.
pub open spec fn with_new_entry(
    b: Seq<u8>,
    list: ListModel,
    text: Seq<u8>,
    insert_after: Option<int>,
) -> Seq<u8> {
    let (at, bytes) = insertion(b, list, text, insert_after);
    spliced(b, at, bytes)
}

pub proof fn lemma_leading_space_len(s: Seq<u8>)
    ensures
        0 <= leading_space_len(s) <= s.len(),
    decreases s.len(),
{
    if s.len() > 0 && ascii_space(s[0]) {
        lemma_leading_space_len(s.drop_first());
    }
}

/// The leading whitespace of `s` ends at `n` if the bytes before `n` are
/// whitespace and the byte at `n` is none.
pub proof fn lemma_leading_space_len_is(s: Seq<u8>, n: int)
    requires
        0 <= n <= s.len(),
        forall|k: int| 0 <= k < n ==> ascii_space(#[trigger] s[k]),
        n < s.len() ==> !ascii_space(s[n]),
    ensures
        leading_space_len(s) == n,
    decreases s.len(),
{
    if n > 0 {
        let t = s.drop_first();
        assert(ascii_space(s[0]));
        assert forall|k: int| 0 <= k < n - 1 implies ascii_space(#[trigger] t[k]) by {
            assert(t[k] == s[k + 1]);
        }
        if n - 1 < t.len() {
            assert(t[n - 1] == s[n]);
        }
        lemma_leading_space_len_is(t, n - 1);
    }
}

pub proof fn lemma_space_run_start_bounds(b: Seq<u8>, pos: int)
    requires
        0 <= pos <= b.len(),
    ensures
        0 <= space_run_start(b, pos) <= pos,
    decreases pos,
{
    if pos > 0 && ascii_space(b[pos - 1]) {
        lemma_space_run_start_bounds(b, pos - 1);
    }
}

fn separator_before_new_entry(bytes: &[u8], list: &UsesList, from: usize, to: usize) -> (r: Vec<u8>)
    requires
        from <= to <= bytes.len(),
    ensures
        r@ == separator_before(
            bytes@,
            list.deep_view(),
            bytes@.subrange(from as int, to as int),
        ),
{
    let ghost after = bytes@.subrange(from as int, to as int);
    let mut k = from;
    while k < to && is_ascii_space(bytes[k])
        invariant
            from <= k <= to,
            forall|j: int| 0 <= j < k - from ==> ascii_space(#[trigger] after[j]),
        decreases to - k,
    {
        k += 1;
    }
    proof {
        if k < to {
            assert(after[k - from] == bytes@[k as int]);
        }
        lemma_leading_space_len_is(after, k - from);
    }
    let mut out: Vec<u8> = Vec::new();
    if k > from {
        append_bytes(&mut out, &bytes[from..k]);
        assert(out@ =~= after.subrange(0, k - from));
        if k == to {
            assert(after.subrange(0, k - from) =~= after);
        }
    } else if from == to {
        assert(out@ =~= after);
    } else if list.multiline {
        if detect_line_ending(bytes) {
            out.push(0x0d);
        }
        out.push(NEWLINE);
        assert(out@ =~= line_ending(bytes@));
        append_text_bytes(&mut out, list.indent.as_str());
    } else {
        out.push(SPACE);
        assert(out@ =~= seq![SPACE]);
    }
    out
}

fn build_insertion_after(bytes: &[u8], list: &UsesList, insert_after: usize, entry_text: &[u8]) -> (r:
    Option<(usize, Vec<u8>)>)
    ensures
        match r {
            Some((at, ins)) => insertion_after(
                bytes@,
                list.deep_view(),
                insert_after as int,
                entry_text@,
            ) == Some((at as int, ins@)) && at <= bytes.len(),
            None => insertion_after(
                bytes@,
                list.deep_view(),
                insert_after as int,
                entry_text@,
            ) is None,
        },
{
    if insert_after >= list.entries.len() || list.entries.len() - insert_after < 2 {
        return None;
    }
    assert(list.deep_view().entries[insert_after as int] == list.entries[insert_after as int].deep_view());
    assert(list.deep_view().entries[insert_after + 1] == list.entries[insert_after + 1].deep_view());
    let entry = &list.entries[insert_after];
    if entry.from_include {
        return None;
    }
    let delimiter_pos = match entry.delimiter_pos {
        Some(p) => p,
        None => {
            return None;
        },
    };
    match entry.delimiter {
        Some(c) => {
            if c != COMMA {
                return None;
            }
        },
        None => {
            return None;
        },
    }
    let next_start = list.entries[insert_after + 1].start;
    if delimiter_pos >= next_start || next_start > bytes.len() {
        return None;
    }
    let mut out = separator_before_new_entry(bytes, list, delimiter_pos + 1, next_start);
    append_bytes(&mut out, entry_text);
    out.push(COMMA);
    assert(out@ =~= separator_before(
        bytes@,
        list.deep_view(),
        bytes@.subrange(delimiter_pos + 1, next_start as int),
    ) + entry_text@ + seq![COMMA]);
    Some((delimiter_pos + 1, out))
}

fn build_insertion_at_end(bytes: &[u8], list: &UsesList, entry_text: &[u8]) -> (r: (usize, Vec<u8>))
    requires
        list.semicolon <= bytes.len(),
    ensures
        (r.0 as int, r.1@) == insertion_at_end(bytes@, list.deep_view(), entry_text@),
        r.0 <= bytes.len(),
{
    let n = list.entries.len();
    let comma = if n > 0 {
        assert(list.deep_view().entries.last() == list.entries[n - 1].deep_view());
        match list.entries[n - 1].delimiter {
            Some(c) => c == COMMA,
            None => false,
        }
    } else {
        false
    };
    let mut out: Vec<u8> = Vec::new();
    if list.multiline {
        if !comma {
            out.push(COMMA);
        }
        let ghost prefix = out@;
        if detect_line_ending(bytes) {
            out.push(0x0d);
        }
        out.push(NEWLINE);
        assert(out@ =~= prefix + line_ending(bytes@));
        append_text_bytes(&mut out, list.indent.as_str());
        append_bytes(&mut out, entry_text);
        let mut at = list.semicolon;
        if !comma {
            proof {
                lemma_space_run_start_bounds(bytes@, list.semicolon as int);
            }
            while at > 0 && is_ascii_space(bytes[at - 1])
                invariant
                    at <= list.semicolon,
                    space_run_start(bytes@, at as int) == space_run_start(
                        bytes@,
                        list.semicolon as int,
                    ),
                decreases at,
            {
                at -= 1;
            }
        }
        (at, out)
    } else {
        if !comma {
            out.push(COMMA);
        }
        out.push(SPACE);
        let ghost prefix = out@;
        append_bytes(&mut out, entry_text);
        assert(out@ =~= (if comma {
            seq![SPACE]
        } else {
            seq![COMMA, SPACE]
        }) + entry_text@);
        (list.semicolon, out)
    }
}

/// `bytes` with `ins` put in at the offset `at`.
pub fn splice(bytes: &[u8], at: usize, ins: &[u8]) -> (r: Vec<u8>)
    requires
        at <= bytes.len(),
    ensures
        r@ == spliced(bytes@, at as int, ins@),
{
    let mut out: Vec<u8> = Vec::new();
    append_bytes(&mut out, &bytes[0..at]);
    append_bytes(&mut out, ins);
    append_bytes(&mut out, &bytes[at..bytes.len()]);
    assert(out@ =~= spliced(bytes@, at as int, ins@));
    out
}

/// The view of an optional offset.
pub open spec fn option_index(r: Option<usize>) -> Option<int> {
    match r {
        Some(p) => Some(p as int),
        None => None,
    }
}

/// Puts the entry `entry_text` into the clause of a project file: behind
/// the entry `insert_after` where that can be done, else at the end. The
/// result is the new text of the file; `list` must have been read from
/// `bytes`.
pub fn insert_entry(bytes: &[u8], list: &UsesList, entry_text: &str, insert_after: Option<usize>) -> (r:
    Vec<u8>)
    requires
        list.semicolon <= bytes.len(),
    ensures
        r@ == with_new_entry(
            bytes@,
            list.deep_view(),
            utf8(entry_text@),
            option_index(insert_after),
        ),
{
    let text = entry_text.as_bytes();
    match insert_after {
        Some(idx) => match build_insertion_after(bytes, list, idx, text) {
            Some((at, ins)) => {
                return splice(bytes, at, ins.as_slice());
            },
            None => {},
        },
        None => {},
    }
    let (at, ins) = build_insertion_at_end(bytes, list, text);
    splice(bytes, at, ins.as_slice())
}

} // verus!
