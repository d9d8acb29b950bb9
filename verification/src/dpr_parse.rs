use vstd::prelude::*;

use crate::pas_lex::{
    blank, byte_is, comment_end, comment_or_string_end, has_byte, ident_end, ident_start,
    ident_text, include_directive, is_blank, is_ident_start, lemma_comment_or_string_end_bounds,
    lemma_ident_end_bounds, lemma_include_directive_bounds, lemma_literal_scan_bounds,
    lemma_string_end_bounds, lemma_ws_comments_end_bounds, parse_include_directive, read_ident,
    read_string_literal, scan_ident, skip_comment, skip_comment_or_string, skip_string,
    skip_ws_and_comments, string_end, string_literal, ws_comments_end, BRACE_OPEN, COMMA, NEWLINE,
    PAREN_OPEN, QUOTE, SEMICOLON, SPACE, TAB,
};
use crate::source_tree::SourceTree;
use crate::text::{
    ascii_text, concat, concat_all, contains_char, is_keyword, matches_keyword, option_text,
    string_from_bytes,
};
use crate::text_map::{pop_text, push_text};
use crate::unit_cache::peek_ident;
use crate::uses_include::{
    include_budget, include_path, lemma_budget_decreases, lookup_include, warnings_after_lookup,
    with_include_bytes, IncludeFile,
};

verus! {

/// One entry of a uses clause: its name, the path that `in '...'` declares
/// for it, the offset at which it starts, the `,` or `;` that ends it and
/// the offset of that byte. An entry that an include file gave starts where
/// its directive stands, and has no offset for its delimiter.
pub struct UsesEntry {
    pub name: String,
    pub in_path: Option<String>,
    pub start: usize,
    pub delimiter: Option<u8>,
    pub delimiter_pos: Option<usize>,
    pub from_include: bool,
}

/// What a `UsesEntry` holds.
pub struct EntryModel {
    pub name: Seq<char>,
    pub in_path: Option<Seq<char>>,
    pub start: int,
    pub delimiter: Option<u8>,
    pub delimiter_pos: Option<int>,
    pub from_include: bool,
}

impl DeepView for UsesEntry {
    type V = EntryModel;

    open spec fn deep_view(&self) -> EntryModel {
        EntryModel {
            name: self.name@,
            in_path: option_text(self.in_path),
            start: self.start as int,
            delimiter: self.delimiter,
            delimiter_pos: match self.delimiter_pos {
                Some(p) => Some(p as int),
                None => None,
            },
            from_include: self.from_include,
        }
    }
}

/// What was seen while a uses clause was read: a backslash or a slash in a
/// declared path, and a `;` inside an include file.
#[derive(Copy, Clone, PartialEq, Eq, Structural)]
pub struct ClauseFlags {
    pub has_backslash: bool,
    pub has_slash: bool,
    pub include_semicolon: bool,
}

/// The uses clause of a project file as it was read from one buffer: its
/// offsets hold for that buffer alone.
pub struct UsesList {
    pub entries: Vec<UsesEntry>,
    pub semicolon: usize,
    pub multiline: bool,
    pub indent: String,
    pub has_backslash: bool,
    pub has_slash: bool,
}

/// What a `UsesList` holds.
pub struct ListModel {
    pub entries: Seq<EntryModel>,
    pub semicolon: int,
    pub multiline: bool,
    pub indent: Seq<char>,
    pub has_backslash: bool,
    pub has_slash: bool,
}

impl DeepView for UsesList {
    type V = ListModel;

    open spec fn deep_view(&self) -> ListModel {
        ListModel {
            entries: self.entries.deep_view(),
            semicolon: self.semicolon as int,
            multiline: self.multiline,
            indent: self.indent@,
            has_backslash: self.has_backslash,
            has_slash: self.has_slash,
        }
    }
}

/// The model of an optional list.
pub open spec fn option_list(r: Option<UsesList>) -> Option<ListModel> {
    match r {
        Some(list) => Some(list.deep_view()),
        None => None,
    }
}

/// Appends `e` to `v`.
pub fn push_entry(v: &mut Vec<UsesEntry>, e: UsesEntry)
    ensures
        final(v).deep_view() == old(v).deep_view().push(e.deep_view()),
{
    v.push(e);
    assert(final(v).deep_view() =~= old(v).deep_view().push(e.deep_view()));
}

/// Moves the entries of `tail` to the end of `v`.
pub fn append_entries(v: &mut Vec<UsesEntry>, tail: Vec<UsesEntry>)
    ensures
        final(v).deep_view() == old(v).deep_view() + tail.deep_view(),
{
    let mut tail = tail;
    let ghost moved = tail;
    v.append(&mut tail);
    assert(final(v).deep_view() =~= old(v).deep_view() + moved.deep_view());
}

/// The first offset at or after `i` that holds neither a blank nor the
/// start of a comment; a quoted literal stops the search.
pub open spec fn ws_comments_only_end(b: Seq<u8>, i: int) -> int
    decreases b.len() - i,
{
    if i < 0 || i >= b.len() {
        i
    } else if blank(b[i]) {
        ws_comments_only_end(b, i + 1)
    } else {
        match comment_end(b, i) {
            Some(e) => {
                proof {
                    lemma_comment_or_string_end_bounds(b, i);
                }
                ws_comments_only_end(b, e)
            },
            None => i,
        }
    }
}

pub proof fn lemma_ws_comments_only_end_bounds(b: Seq<u8>, i: int)
    requires
        0 <= i <= b.len(),
    ensures
        i <= ws_comments_only_end(b, i) <= b.len(),
    decreases b.len() - i,
{
    if i < b.len() {
        if blank(b[i]) {
            lemma_ws_comments_only_end_bounds(b, i + 1);
        } else {
            lemma_comment_or_string_end_bounds(b, i);
            match comment_end(b, i) {
                Some(e) => lemma_ws_comments_only_end_bounds(b, e),
                None => {},
            }
        }
    }
}

fn skip_ws_and_comments_no_strings(bytes: &[u8], i: usize) -> (r: usize)
    requires
        i <= bytes.len(),
    ensures
        r == ws_comments_only_end(bytes@, i as int),
        i <= r <= bytes.len(),
{
    let mut k = i;
    proof {
        lemma_ws_comments_only_end_bounds(bytes@, i as int);
    }
    while k < bytes.len()
        invariant
            i <= k <= bytes.len(),
            ws_comments_only_end(bytes@, k as int) == ws_comments_only_end(bytes@, i as int),
        decreases bytes.len() - k,
    {
        if is_blank(bytes[k]) {
            k += 1;
        } else {
            match skip_comment(bytes, k) {
                Some(e) => {
                    k = e;
                },
                None => {
                    return k;
                },
            }
        }
    }
    k
}

/// The path that `in '...'` declares behind the name that ends at `i`, if
/// there is one, and the offset at which the reading goes on.
pub open spec fn declared_path(b: Seq<u8>, i: int) -> (Option<Seq<char>>, int) {
    let j = ws_comments_end(b, i);
    if 0 <= j < b.len() && ident_start(b[j]) && is_keyword(
        b.subrange(j, ident_end(b, j + 1)),
        "in"@,
    ) {
        let k = ws_comments_only_end(b, ident_end(b, j + 1));
        if has_byte(b, k, QUOTE) {
            match string_literal(b, k) {
                Some((value, end)) => (Some(value), end),
                None => (None, string_end(b, k + 1)),
            }
        } else {
            (None, k)
        }
    } else {
        (None, j)
    }
}

pub proof fn lemma_declared_path_bounds(b: Seq<u8>, i: int)
    requires
        0 <= i <= b.len(),
    ensures
        i <= declared_path(b, i).1 <= b.len(),
{
    lemma_ws_comments_end_bounds(b, i);
    let j = ws_comments_end(b, i);
    if j < b.len() {
        lemma_ident_end_bounds(b, j + 1);
        lemma_ws_comments_only_end_bounds(b, ident_end(b, j + 1));
        let k = ws_comments_only_end(b, ident_end(b, j + 1));
        if k < b.len() {
            lemma_string_end_bounds(b, k + 1);
            lemma_literal_scan_bounds(b, k + 1, Seq::empty());
        }
    }
}

fn read_declared_path(bytes: &[u8], i: usize) -> (r: (Option<String>, usize))
    requires
        i <= bytes.len(),
    ensures
        (option_text(r.0), r.1 as int) == declared_path(bytes@, i as int),
        i <= r.1 <= bytes.len(),
{
    proof {
        lemma_declared_path_bounds(bytes@, i as int);
    }
    let j = skip_ws_and_comments(bytes, i);
    match peek_ident(bytes, j) {
        Some(token_end) => {
            if matches_keyword(bytes, j, token_end, "in") {
                let k = skip_ws_and_comments_no_strings(bytes, token_end);
                if byte_is(bytes, k, QUOTE) {
                    match read_string_literal(bytes, k) {
                        Some((value, end)) => (Some(value), end),
                        None => (None, skip_string(bytes, k + 1)),
                    }
                } else {
                    (None, k)
                }
            } else {
                (None, j)
            }
        },
        None => (None, j),
    }
}

/// The flags after the declared path of one more entry was seen.
pub open spec fn flags_with_path(flags: ClauseFlags, in_path: Option<Seq<char>>) -> ClauseFlags {
    match in_path {
        Some(path) => ClauseFlags {
            has_backslash: flags.has_backslash || path.contains('\\'),
            has_slash: flags.has_slash || path.contains('/'),
            include_semicolon: flags.include_semicolon,
        },
        None => flags,
    }
}

fn update_path_separator_flags(in_path: &Option<String>, flags: &mut ClauseFlags)
    ensures
        *final(flags) == flags_with_path(*old(flags), option_text(*in_path)),
{
    match in_path {
        Some(path) => {
            if contains_char(path.as_str(), '\\') {
                flags.has_backslash = true;
            }
            if contains_char(path.as_str(), '/') {
                flags.has_slash = true;
            }
        },
        None => {},
    }
}

/// The entries read so far, the warnings given so far, and the flags.
pub struct DprState {
    pub entries: Seq<EntryModel>,
    pub warnings: Seq<Seq<char>>,
    pub flags: ClauseFlags,
}

/// Where the reading of a clause stopped: the offset of the `;` that closes
/// it, if one was met, and what was read.
pub struct DprEnd {
    pub semicolon: Option<int>,
    pub state: DprState,
}

pub open spec fn semicolon_warning(source: Seq<char>) -> Seq<char> {
    concat_all(seq!["warning: include file "@, source, " contains ';' in uses list"@])
}

/// The offset that counts for what is read at `i`: inside an include file,
/// the offset of the directive that named the file.
pub open spec fn anchor_at(over: Option<int>, i: int) -> int {
    match over {
        Some(a) => a,
        None => i,
    }
}

/// The state after `;` was met: inside an include file that is a fault,
/// and gives a warning.
pub open spec fn state_at_semicolon(st: DprState, over: Option<int>, source: Seq<char>) -> DprState {
    if over is Some {
        DprState {
            entries: st.entries,
            warnings: st.warnings.push(semicolon_warning(source)),
            flags: ClauseFlags {
                has_backslash: st.flags.has_backslash,
                has_slash: st.flags.has_slash,
                include_semicolon: true,
            },
        }
    } else {
        st
    }
}

/// The entry `open` once the byte that ends it is known.
pub open spec fn closed_entry(open: EntryModel, delimiter: Option<u8>, pos: int) -> EntryModel {
    EntryModel {
        name: open.name,
        in_path: open.in_path,
        start: open.start,
        delimiter,
        delimiter_pos: if open.from_include || delimiter is None {
            None
        } else {
            Some(pos)
        },
        from_include: open.from_include,
    }
}

/// The state with one more entry and, behind it, the entries that include
/// files gave between the entry and its delimiter.
pub open spec fn state_with_entry(st: DprState, entry: EntryModel, pending: Seq<EntryModel>) -> DprState {
    DprState {
        entries: st.entries.push(entry) + pending,
        warnings: st.warnings,
        flags: st.flags,
    }
}

/// The entries that the include file named by a directive gives, read on
/// their own, with the warnings and flags after it was read.
pub open spec fn include_entries(
    tree: SourceTree,
    name: Seq<char>,
    anchor: int,
    source: Seq<char>,
    stack: Seq<Seq<char>>,
    warnings: Seq<Seq<char>>,
    flags: ClauseFlags,
) -> DprState
    decreases include_budget(tree, stack), 0int,
{
    let after = warnings_after_lookup(tree, name, source, stack, warnings);
    if lookup_include(tree, name, source, stack) is Found {
        let path = include_path(source, name);
        let canonical = tree.canonical(path);
        proof {
            lemma_budget_decreases(tree, name, source, stack);
        }
        dpr_fragment(
            tree,
            tree.files.value(canonical)@,
            0,
            path,
            stack.push(canonical),
            Some(anchor),
            DprState { entries: Seq::empty(), warnings: after, flags },
        ).state
    } else {
        DprState { entries: Seq::empty(), warnings: after, flags }
    }
}

/// Reads the entries of a clause from `i` on, where an entry may start.
/// Blanks, comments and literals are passed over; an include directive
/// gives the entries of its file; `;` closes the clause; an identifier
/// starts an entry; any other byte is passed over.
pub open spec fn dpr_fragment(
    tree: SourceTree,
    b: Seq<u8>,
    i: int,
    source: Seq<char>,
    stack: Seq<Seq<char>>,
    over: Option<int>,
    st: DprState,
) -> DprEnd
    decreases include_budget(tree, stack), 2 + b.len() - i,
{
    if i < 0 || i >= b.len() {
        DprEnd { semicolon: None, state: st }
    } else if blank(b[i]) {
        dpr_fragment(tree, b, i + 1, source, stack, over, st)
    } else {
        match include_directive(b, i) {
            Some((name, end)) => {
                proof {
                    lemma_include_directive_bounds(b, i);
                }
                let got = include_entries(
                    tree,
                    name,
                    anchor_at(over, i),
                    source,
                    stack,
                    st.warnings,
                    st.flags,
                );
                dpr_fragment(
                    tree,
                    b,
                    end,
                    source,
                    stack,
                    over,
                    DprState {
                        entries: st.entries + got.entries,
                        warnings: got.warnings,
                        flags: got.flags,
                    },
                )
            },
            None => match comment_or_string_end(b, i) {
                Some(e) => {
                    proof {
                        lemma_comment_or_string_end_bounds(b, i);
                    }
                    dpr_fragment(tree, b, e, source, stack, over, st)
                },
                None => if b[i] == SEMICOLON {
                    DprEnd { semicolon: Some(i), state: state_at_semicolon(st, over, source) }
                } else if !ident_start(b[i]) {
                    dpr_fragment(tree, b, i + 1, source, stack, over, st)
                } else {
                    let next = ident_end(b, i + 1);
                    let (in_path, after) = declared_path(b, next);
                    proof {
                        lemma_ident_end_bounds(b, i + 1);
                        lemma_declared_path_bounds(b, next);
                    }
                    dpr_after_entry(
                        tree,
                        b,
                        after,
                        source,
                        stack,
                        over,
                        DprState {
                            entries: st.entries,
                            warnings: st.warnings,
                            flags: flags_with_path(st.flags, in_path),
                        },
                        EntryModel {
                            name: ident_text(b, i),
                            in_path,
                            start: anchor_at(over, i),
                            delimiter: None,
                            delimiter_pos: None,
                            from_include: over is Some,
                        },
                        Seq::empty(),
                    )
                },
            },
        }
    }
}

/// Reads on from `i`, behind the entry `open`, to the `,` or `;` that ends
/// it. Include directives met on the way give entries that come behind the
/// entry. A `;` inside an include file is a fault here too.
pub open spec fn dpr_after_entry(
    tree: SourceTree,
    b: Seq<u8>,
    i: int,
    source: Seq<char>,
    stack: Seq<Seq<char>>,
    over: Option<int>,
    st: DprState,
    open: EntryModel,
    pending: Seq<EntryModel>,
) -> DprEnd
    decreases include_budget(tree, stack), 2 + b.len() - i,
{
    if i < 0 || i >= b.len() {
        DprEnd { semicolon: None, state: state_with_entry(st, closed_entry(open, None, i), pending) }
    } else if b[i] == COMMA {
        dpr_fragment(
            tree,
            b,
            i + 1,
            source,
            stack,
            over,
            state_with_entry(st, closed_entry(open, Some(COMMA), i), pending),
        )
    } else if b[i] == SEMICOLON {
        DprEnd {
            semicolon: Some(i),
            state: state_at_semicolon(
                state_with_entry(st, closed_entry(open, Some(SEMICOLON), i), pending),
                over,
                source,
            ),
        }
    } else {
        match include_directive(b, i) {
            Some((name, end)) => {
                proof {
                    lemma_include_directive_bounds(b, i);
                }
                let got = include_entries(
                    tree,
                    name,
                    anchor_at(over, i),
                    source,
                    stack,
                    st.warnings,
                    st.flags,
                );
                dpr_after_entry(
                    tree,
                    b,
                    end,
                    source,
                    stack,
                    over,
                    DprState { entries: st.entries, warnings: got.warnings, flags: got.flags },
                    open,
                    pending + got.entries,
                )
            },
            None => match comment_or_string_end(b, i) {
                Some(e) => {
                    proof {
                        lemma_comment_or_string_end_bounds(b, i);
                    }
                    dpr_after_entry(tree, b, e, source, stack, over, st, open, pending)
                },
                None => dpr_after_entry(tree, b, i + 1, source, stack, over, st, open, pending),
            },
        }
    }
}

/// An include directive that names a file which is being read gives no
/// entries, and one warning of the cycle.
pub proof fn lemma_include_cycle_ends_with_warning(
    tree: SourceTree,
    name: Seq<char>,
    anchor: int,
    source: Seq<char>,
    stack: Seq<Seq<char>>,
    warnings: Seq<Seq<char>>,
    flags: ClauseFlags,
)
    requires
        stack.contains(tree.canonical(include_path(source, name))),
    ensures
        include_entries(tree, name, anchor, source, stack, warnings, flags) == (DprState {
            entries: Seq::empty(),
            warnings: warnings.push(
                crate::uses_include::cycle_warning(include_path(source, name), source),
            ),
            flags,
        }),
{
}

/// What the vectors and flags hold, as a state of the reading.
pub open spec fn dpr_state(entries: Vec<UsesEntry>, warnings: Vec<String>, flags: ClauseFlags) -> DprState {
    DprState { entries: entries.deep_view(), warnings: warnings.deep_view(), flags }
}

/// The view of an optional offset.
pub open spec fn option_int(r: Option<usize>) -> Option<int> {
    match r {
        Some(p) => Some(p as int),
        None => None,
    }
}

fn parse_include_entries_for_dpr(
    tree: &SourceTree,
    include_name: &str,
    anchor: usize,
    source_path: &str,
    warnings: &mut Vec<String>,
    include_stack: &mut Vec<String>,
    flags: &mut ClauseFlags,
) -> (r: Vec<UsesEntry>)
    requires
        tree.wf(),
    ensures
        final(include_stack).deep_view() == old(include_stack).deep_view(),
        dpr_state(r, *final(warnings), *final(flags)) == include_entries(
            *tree,
            include_name@,
            anchor as int,
            source_path@,
            old(include_stack).deep_view(),
            old(warnings).deep_view(),
            *old(flags),
        ),
    decreases include_budget(*tree, old(include_stack).deep_view()), 0int,
{
    let ghost stack = include_stack.deep_view();
    match with_include_bytes(tree, include_name, source_path, warnings, include_stack) {
        None => {
            let r: Vec<UsesEntry> = Vec::new();
            assert(r.deep_view() =~= Seq::<EntryModel>::empty());
            r
        },
        Some(file) => {
            let mut entries: Vec<UsesEntry> = Vec::new();
            assert(entries.deep_view() =~= Seq::<EntryModel>::empty());
            let bytes = &tree.files.values[file.index];
            let IncludeFile { path, canonical, index } = file;
            proof {
                lemma_budget_decreases(*tree, include_name@, source_path@, stack);
            }
            push_text(include_stack, canonical);
            let _ = parse_uses_fragment_for_dpr(
                tree,
                bytes.as_slice(),
                0,
                path.as_str(),
                &mut entries,
                warnings,
                include_stack,
                flags,
                Some(anchor),
            );
            assert(include_stack.deep_view().len() == include_stack.len());
            pop_text(include_stack);
            assert(include_stack.deep_view() =~= stack);
            entries
        },
    }
}

fn skip_ws_comments_and_includes_dpr(
    tree: &SourceTree,
    bytes: &[u8],
    start: usize,
    source_path: &str,
    entries: &mut Vec<UsesEntry>,
    warnings: &mut Vec<String>,
    include_stack: &mut Vec<String>,
    flags: &mut ClauseFlags,
    entry_start_override: Option<usize>,
) -> (r: usize)
    requires
        tree.wf(),
        start <= bytes.len(),
    ensures
        start <= r <= bytes.len(),
        final(include_stack).deep_view() == old(include_stack).deep_view(),
        dpr_fragment(
            *tree,
            bytes@,
            r as int,
            source_path@,
            old(include_stack).deep_view(),
            option_int(entry_start_override),
            dpr_state(*final(entries), *final(warnings), *final(flags)),
        ) == dpr_fragment(
            *tree,
            bytes@,
            start as int,
            source_path@,
            old(include_stack).deep_view(),
            option_int(entry_start_override),
            dpr_state(*old(entries), *old(warnings), *old(flags)),
        ),
        r < bytes.len() ==> !blank(bytes@[r as int]) && include_directive(bytes@, r as int) is None
            && comment_or_string_end(bytes@, r as int) is None && bytes@[r as int] != PAREN_OPEN,
    decreases include_budget(*tree, old(include_stack).deep_view()), 1 + bytes.len() - start,
{
    let ghost stack = include_stack.deep_view();
    let ghost over = option_int(entry_start_override);
    let ghost goal = dpr_fragment(
        *tree,
        bytes@,
        start as int,
        source_path@,
        stack,
        over,
        dpr_state(*entries, *warnings, *flags),
    );
    let mut i = start;
    while i < bytes.len()
        invariant
            start <= i <= bytes.len(),
            include_stack.deep_view() == stack,
            dpr_fragment(
                *tree,
                bytes@,
                i as int,
                source_path@,
                stack,
                over,
                dpr_state(*entries, *warnings, *flags),
            ) == goal,
        decreases bytes.len() - i,
    {
        if is_blank(bytes[i]) {
            i += 1;
            continue ;
        }
        if bytes[i] == BRACE_OPEN || bytes[i] == PAREN_OPEN {
            match parse_include_directive(bytes, i) {
                Some((name, end)) => {
                    let anchor = match entry_start_override {
                        Some(a) => a,
                        None => i,
                    };
                    let got = parse_include_entries_for_dpr(
                        tree,
                        name.as_str(),
                        anchor,
                        source_path,
                        warnings,
                        include_stack,
                        flags,
                    );
                    append_entries(entries, got);
                    i = end;
                    continue ;
                },
                None => {},
            }
        }
        match skip_comment_or_string(bytes, i) {
            Some(e) => {
                i = e;
            },
            None => {
                if bytes[i] == PAREN_OPEN {
                    i += 1;
                } else {
                    break ;
                }
            },
        }
    }
    i
}

fn scan_to_delimiter_with_includes(
    tree: &SourceTree,
    bytes: &[u8],
    start: usize,
    source_path: &str,
    warnings: &mut Vec<String>,
    include_stack: &mut Vec<String>,
    flags: &mut ClauseFlags,
    entry_start_override: Option<usize>,
    Ghost(entries): Ghost<Seq<EntryModel>>,
    Ghost(open): Ghost<EntryModel>,
) -> (r: (usize, Option<u8>, Vec<UsesEntry>))
    requires
        tree.wf(),
        start <= bytes.len(),
    ensures
        start <= r.0 <= bytes.len(),
        final(include_stack).deep_view() == old(include_stack).deep_view(),
        r.1 matches Some(c) ==> r.0 < bytes.len() && bytes@[r.0 as int] == c && (c == COMMA || c
            == SEMICOLON),
        r.1 is None ==> r.0 == bytes.len(),
        dpr_after_entry(
            *tree,
            bytes@,
            r.0 as int,
            source_path@,
            old(include_stack).deep_view(),
            option_int(entry_start_override),
            DprState { entries, warnings: final(warnings).deep_view(), flags: *final(flags) },
            open,
            r.2.deep_view(),
        ) == dpr_after_entry(
            *tree,
            bytes@,
            start as int,
            source_path@,
            old(include_stack).deep_view(),
            option_int(entry_start_override),
            DprState { entries, warnings: old(warnings).deep_view(), flags: *old(flags) },
            open,
            Seq::empty(),
        ),
    decreases include_budget(*tree, old(include_stack).deep_view()), 1 + bytes.len() - start,
{
    let ghost stack = include_stack.deep_view();
    let ghost over = option_int(entry_start_override);
    let ghost goal = dpr_after_entry(
        *tree,
        bytes@,
        start as int,
        source_path@,
        stack,
        over,
        DprState { entries, warnings: warnings.deep_view(), flags: *flags },
        open,
        Seq::empty(),
    );
    let mut pending: Vec<UsesEntry> = Vec::new();
    assert(pending.deep_view() =~= Seq::<EntryModel>::empty());
    let mut i = start;
    while i < bytes.len()
        invariant
            start <= i <= bytes.len(),
            include_stack.deep_view() == stack,
            dpr_after_entry(
                *tree,
                bytes@,
                i as int,
                source_path@,
                stack,
                over,
                DprState { entries, warnings: warnings.deep_view(), flags: *flags },
                open,
                pending.deep_view(),
            ) == goal,
        decreases bytes.len() - i,
    {
        if bytes[i] == COMMA || bytes[i] == SEMICOLON {
            return (i, Some(bytes[i]), pending);
        }
        if bytes[i] == BRACE_OPEN || bytes[i] == PAREN_OPEN {
            match parse_include_directive(bytes, i) {
                Some((name, end)) => {
                    let anchor = match entry_start_override {
                        Some(a) => a,
                        None => i,
                    };
                    let got = parse_include_entries_for_dpr(
                        tree,
                        name.as_str(),
                        anchor,
                        source_path,
                        warnings,
                        include_stack,
                        flags,
                    );
                    append_entries(&mut pending, got);
                    i = end;
                    continue ;
                },
                None => {},
            }
        }
        match skip_comment_or_string(bytes, i) {
            Some(e) => {
                i = e;
            },
            None => {
                i += 1;
            },
        }
    }
    (i, None, pending)
}

/// Takes note of a `;` that ends a clause: inside an include file it is a
/// fault, and gives a warning.
fn note_semicolon(
    source_path: &str,
    entry_start_override: Option<usize>,
    warnings: &mut Vec<String>,
    flags: &mut ClauseFlags,
    Ghost(entries): Ghost<Seq<EntryModel>>,
)
    ensures
        (DprState { entries, warnings: final(warnings).deep_view(), flags: *final(flags) })
            == state_at_semicolon(
            DprState { entries, warnings: old(warnings).deep_view(), flags: *old(flags) },
            option_int(entry_start_override),
            source_path@,
        ),
{
    if entry_start_override.is_some() {
        let parts = vec!["warning: include file ", source_path, " contains ';' in uses list"];
        assert(parts.deep_view() =~= seq![
            "warning: include file "@,
            source_path@,
            " contains ';' in uses list"@,
        ]);
        push_text(warnings, concat(&parts));
        flags.include_semicolon = true;
    }
}

fn parse_uses_fragment_for_dpr(
    tree: &SourceTree,
    bytes: &[u8],
    start: usize,
    source_path: &str,
    entries: &mut Vec<UsesEntry>,
    warnings: &mut Vec<String>,
    include_stack: &mut Vec<String>,
    flags: &mut ClauseFlags,
    entry_start_override: Option<usize>,
) -> (r: Option<usize>)
    requires
        tree.wf(),
        start <= bytes.len(),
    ensures
        r matches Some(p) ==> start <= p < bytes.len() && bytes@[p as int] == SEMICOLON,
        final(include_stack).deep_view() == old(include_stack).deep_view(),
        (DprEnd {
            semicolon: option_int(r),
            state: dpr_state(*final(entries), *final(warnings), *final(flags)),
        }) == dpr_fragment(
            *tree,
            bytes@,
            start as int,
            source_path@,
            old(include_stack).deep_view(),
            option_int(entry_start_override),
            dpr_state(*old(entries), *old(warnings), *old(flags)),
        ),
    decreases include_budget(*tree, old(include_stack).deep_view()), 2 + bytes.len() - start,
{
    let ghost stack = include_stack.deep_view();
    let ghost over = option_int(entry_start_override);
    let ghost goal = dpr_fragment(
        *tree,
        bytes@,
        start as int,
        source_path@,
        stack,
        over,
        dpr_state(*entries, *warnings, *flags),
    );
    let mut i = start;
    while i < bytes.len()
        invariant
            start <= i <= bytes.len(),
            include_stack.deep_view() == stack,
            dpr_fragment(
                *tree,
                bytes@,
                i as int,
                source_path@,
                stack,
                over,
                dpr_state(*entries, *warnings, *flags),
            ) == goal,
        decreases bytes.len() - i,
    {
        i = skip_ws_comments_and_includes_dpr(
            tree,
            bytes,
            i,
            source_path,
            entries,
            warnings,
            include_stack,
            flags,
            entry_start_override,
        );
        if i >= bytes.len() {
            return None;
        }
        if bytes[i] == SEMICOLON {
            note_semicolon(
                source_path,
                entry_start_override,
                warnings,
                flags,
                Ghost(entries.deep_view()),
            );
            return Some(i);
        }
        if !is_ident_start(bytes[i]) {
            i += 1;
            continue ;
        }
        let entry_start = i;
        let (name, next) = read_ident(bytes, i);
        let (in_path, after) = read_declared_path(bytes, next);
        update_path_separator_flags(&in_path, flags);
        let entry_anchor = match entry_start_override {
            Some(a) => a,
            None => entry_start,
        };
        let ghost open = EntryModel {
            name: name@,
            in_path: option_text(in_path),
            start: entry_anchor as int,
            delimiter: None,
            delimiter_pos: None,
            from_include: entry_start_override is Some,
        };
        let (pos, delim, pending) = scan_to_delimiter_with_includes(
            tree,
            bytes,
            after,
            source_path,
            warnings,
            include_stack,
            flags,
            entry_start_override,
            Ghost(entries.deep_view()),
            Ghost(open),
        );
        let entry = UsesEntry {
            name,
            in_path,
            start: entry_anchor,
            delimiter: delim,
            delimiter_pos: if entry_start_override.is_some() {
                None
            } else {
                match delim {
                    Some(_) => Some(pos),
                    None => None,
                }
            },
            from_include: entry_start_override.is_some(),
        };
        assert(entry.deep_view() == closed_entry(open, delim, pos as int));
        push_entry(entries, entry);
        append_entries(entries, pending);
        match delim {
            Some(c) => {
                if c == COMMA {
                    i = pos + 1;
                } else {
                    note_semicolon(
                source_path,
                entry_start_override,
                warnings,
                flags,
                Ghost(entries.deep_view()),
            );
                    return Some(pos);
                }
            },
            None => {
                return None;
            },
        }
    }
    None
}

/// Where the line that holds the offset `pos` starts.
pub open spec fn line_start(b: Seq<u8>, pos: int) -> int
    decreases pos,
{
    if pos <= 0 {
        0
    } else if b[pos - 1] == NEWLINE {
        pos
    } else {
        line_start(b, pos - 1)
    }
}

/// The first offset at or after `i` and before `limit` that holds neither
/// a space nor a tab.
pub open spec fn indent_end(b: Seq<u8>, i: int, limit: int) -> int
    decreases limit - i,
{
    if i < limit && (b[i] == SPACE || b[i] == TAB) {
        indent_end(b, i + 1, limit)
    } else {
        i
    }
}

/// The spaces and tabs that open the line of the offset `pos`, as far as
/// they stand before `pos`.
pub open spec fn indent_bytes(b: Seq<u8>, pos: int) -> Seq<u8> {
    b.subrange(line_start(b, pos), indent_end(b, line_start(b, pos), pos))
}

pub proof fn lemma_line_start_bounds(b: Seq<u8>, pos: int)
    requires
        0 <= pos <= b.len(),
    ensures
        0 <= line_start(b, pos) <= pos,
    decreases pos,
{
    if pos > 0 && b[pos - 1] != NEWLINE {
        lemma_line_start_bounds(b, pos - 1);
    }
}

pub proof fn lemma_indent_end_bounds(b: Seq<u8>, i: int, limit: int)
    requires
        0 <= i <= limit <= b.len(),
    ensures
        i <= indent_end(b, i, limit) <= limit,
        forall|k: int| i <= k < indent_end(b, i, limit) ==> #[trigger] b[k] == SPACE || b[k] == TAB,
    decreases limit - i,
{
    if i < limit && (b[i] == SPACE || b[i] == TAB) {
        lemma_indent_end_bounds(b, i + 1, limit);
    }
}

/// The indentation of the line that holds the offset `entry_start`.
pub fn infer_indent(bytes: &[u8], entry_start: usize) -> (r: String)
    requires
        entry_start <= bytes.len(),
    ensures
        r@ == ascii_text(indent_bytes(bytes@, entry_start as int)),
{
    let mut from = entry_start;
    proof {
        lemma_line_start_bounds(bytes@, entry_start as int);
    }
    while from > 0 && bytes[from - 1] != NEWLINE
        invariant
            from <= entry_start,
            line_start(bytes@, from as int) == line_start(bytes@, entry_start as int),
        decreases from,
    {
        from -= 1;
    }
    let mut to = from;
    proof {
        lemma_indent_end_bounds(bytes@, from as int, entry_start as int);
    }
    while to < entry_start && (bytes[to] == SPACE || bytes[to] == TAB)
        invariant
            from <= to <= entry_start,
            indent_end(bytes@, to as int, entry_start as int) == indent_end(
                bytes@,
                from as int,
                entry_start as int,
            ),
        decreases entry_start - to,
    {
        to += 1;
    }
    string_from_bytes(&bytes[from..to])
}

/// Whether a carriage return stands before a line feed somewhere in `b`.
pub open spec fn has_crlf(b: Seq<u8>) -> bool {
    exists|i: int| 0 <= i && i + 1 < b.len() && b[i] == 0x0d && #[trigger] b[i + 1] == NEWLINE
}

/// The bytes that end a line in `b`: CR LF if `b` holds one, else LF.
pub open spec fn line_ending(b: Seq<u8>) -> Seq<u8> {
    if has_crlf(b) {
        seq![0x0du8, NEWLINE]
    } else {
        seq![NEWLINE]
    }
}

/// Whether the buffer ends its lines with CR LF.
pub fn detect_line_ending(bytes: &[u8]) -> (r: bool)
    ensures
        r == has_crlf(bytes@),
{
    let mut i: usize = 0;
    while i < bytes.len() && bytes.len() - i > 1
        invariant
            forall|k: int| 0 <= k < i && k + 1 < bytes.len() ==> !(bytes@[k] == 0x0d && #[trigger] bytes@[k + 1] == NEWLINE),
        decreases bytes.len() - i,
    {
        if bytes[i] == 0x0d && bytes[i + 1] == NEWLINE {
            return true;
        }
        i += 1;
    }
    false
}

/// The end of the first word `uses` at or after `i` that stands outside
/// comments and literals.
pub open spec fn uses_keyword_end(b: Seq<u8>, i: int) -> Option<int>
    decreases b.len() - i,
{
    if i < 0 || i >= b.len() {
        None
    } else {
        match comment_or_string_end(b, i) {
            Some(e) => {
                proof {
                    lemma_comment_or_string_end_bounds(b, i);
                }
                uses_keyword_end(b, e)
            },
            None => if ident_start(b[i]) {
                let next = ident_end(b, i + 1);
                proof {
                    lemma_ident_end_bounds(b, i + 1);
                }
                if is_keyword(b.subrange(i, next), "uses"@) {
                    Some(next)
                } else {
                    uses_keyword_end(b, next)
                }
            } else {
                uses_keyword_end(b, i + 1)
            },
        }
    }
}

/// A list that was read, if the clause is sound, and the warnings after
/// the reading.
pub struct ListRead {
    pub list: Option<ListModel>,
    pub warnings: Seq<Seq<char>>,
}

/// Whether a line feed stands in `b[from..to]`.
pub open spec fn has_newline(b: Seq<u8>, from: int, to: int) -> bool {
    exists|k: int| from <= k < to && #[trigger] b[k] == NEWLINE
}

/// The uses clause whose entries start at `start`. There is none where
/// the clause never closes, where an include file holds a `;`, or where it
/// has no entry. The clause is multiline if a line feed stands between
/// `start` and its `;`; its indentation is then that of its first entry.
pub open spec fn dpr_uses_list(
    tree: SourceTree,
    path: Seq<char>,
    b: Seq<u8>,
    start: int,
    warnings: Seq<Seq<char>>,
) -> ListRead {
    let end = dpr_fragment(
        tree,
        b,
        start,
        path,
        seq![tree.canonical(path)],
        None,
        DprState {
            entries: Seq::empty(),
            warnings,
            flags: ClauseFlags { has_backslash: false, has_slash: false, include_semicolon: false },
        },
    );
    let entries = end.state.entries;
    ListRead {
        list: match end.semicolon {
            Some(semicolon) => if end.state.flags.include_semicolon || entries.len() == 0 {
                None
            } else {
                let multiline = has_newline(b, start, semicolon);
                Some(
                    ListModel {
                        entries,
                        semicolon,
                        multiline,
                        indent: if multiline {
                            ascii_text(indent_bytes(b, entries[0].start))
                        } else {
                            Seq::empty()
                        },
                        has_backslash: end.state.flags.has_backslash,
                        has_slash: end.state.flags.has_slash,
                    },
                )
            },
            None => None,
        },
        warnings: end.state.warnings,
    }
}

/// The uses clause of the project file `b`: the one that follows the first
/// word `uses` outside comments and literals.
pub open spec fn dpr_uses(
    tree: SourceTree,
    path: Seq<char>,
    b: Seq<u8>,
    warnings: Seq<Seq<char>>,
) -> ListRead {
    match uses_keyword_end(b, 0) {
        Some(start) => dpr_uses_list(tree, path, b, start, warnings),
        None => ListRead { list: None, warnings },
    }
}

/// Every entry starts inside the buffer, and an entry's delimiter stands
/// where the entry says.
pub open spec fn entries_fit(entries: Seq<EntryModel>, b: Seq<u8>) -> bool {
    forall|k: int|
        0 <= k < entries.len() ==> {
            let e = #[trigger] entries[k];
            &&& 0 <= e.start <= b.len()
            &&& (e.delimiter_pos matches Some(p) ==> e.start < p < b.len() && e.delimiter == Some(
                b[p],
            ))
        }
}

/// The list was read from a buffer like `b`: its offsets lie inside `b`,
/// and its `;` stands where it says.
pub open spec fn list_fits(list: ListModel, b: Seq<u8>) -> bool {
    &&& 0 <= list.semicolon < b.len()
    &&& b[list.semicolon] == SEMICOLON
    &&& list.entries.len() > 0
    &&& entries_fit(list.entries, b)
}

fn contains_newline(bytes: &[u8], from: usize, to: usize) -> (r: bool)
    requires
        from <= to <= bytes.len(),
    ensures
        r == has_newline(bytes@, from as int, to as int),
{
    let mut k = from;
    while k < to
        invariant
            from <= k <= to,
            forall|j: int| from <= j < k ==> bytes@[j] != NEWLINE,
        decreases to - k,
    {
        if bytes[k] == NEWLINE {
            return true;
        }
        k += 1;
    }
    false
}

fn parse_dpr_uses_list(
    tree: &SourceTree,
    dpr_path: &str,
    bytes: &[u8],
    start: usize,
    warnings: &mut Vec<String>,
) -> (r: Option<UsesList>)
    requires
        tree.wf(),
        start <= bytes.len(),
    ensures
        (ListRead { list: option_list(r), warnings: final(warnings).deep_view() }) == dpr_uses_list(
            *tree,
            dpr_path@,
            bytes@,
            start as int,
            old(warnings).deep_view(),
        ),
{
    let mut entries: Vec<UsesEntry> = Vec::new();
    assert(entries.deep_view() =~= Seq::<EntryModel>::empty());
    let mut flags = ClauseFlags { has_backslash: false, has_slash: false, include_semicolon: false };
    let mut include_stack: Vec<String> = Vec::new();
    push_text(&mut include_stack, tree.canonicalize(dpr_path));
    assert(include_stack.deep_view() =~= seq![tree.canonical(dpr_path@)]);
    let semicolon = match parse_uses_fragment_for_dpr(
        tree,
        bytes,
        start,
        dpr_path,
        &mut entries,
        warnings,
        &mut include_stack,
        &mut flags,
        None,
    ) {
        Some(p) => p,
        None => {
            return None;
        },
    };
    if flags.include_semicolon {
        return None;
    }
    if entries.len() == 0 {
        return None;
    }
    let multiline = contains_newline(bytes, start, semicolon);
    assert(entries.deep_view()[0] == entries[0].deep_view());
    proof {
        if multiline {
            lemma_dpr_fragment_fits(
                *tree,
                bytes@,
                start as int,
                dpr_path@,
                seq![tree.canonical(dpr_path@)],
                None,
                DprState {
                    entries: Seq::empty(),
                    warnings: old(warnings).deep_view(),
                    flags: ClauseFlags {
                        has_backslash: false,
                        has_slash: false,
                        include_semicolon: false,
                    },
                },
            );
        }
    }
    let indent = if multiline {
        infer_indent(bytes, entries[0].start)
    } else {
        String::new()
    };
    Some(
        UsesList {
            entries,
            semicolon,
            multiline,
            indent,
            has_backslash: flags.has_backslash,
            has_slash: flags.has_slash,
        },
    )
}

/// Reads the uses clause of a project file.
pub fn parse_dpr_uses(tree: &SourceTree, dpr_path: &str, bytes: &[u8], warnings: &mut Vec<String>) -> (r:
    Option<UsesList>)
    requires
        tree.wf(),
    ensures
        (ListRead { list: option_list(r), warnings: final(warnings).deep_view() }) == dpr_uses(
            *tree,
            dpr_path@,
            bytes@,
            old(warnings).deep_view(),
        ),
        r matches Some(list) ==> list_fits(list.deep_view(), bytes@),
{
    let mut i: usize = 0;
    while i < bytes.len()
        invariant
            i <= bytes.len(),
            uses_keyword_end(bytes@, i as int) == uses_keyword_end(bytes@, 0),
            *warnings == *old(warnings),
        decreases bytes.len() - i,
    {
        match skip_comment_or_string(bytes, i) {
            Some(e) => {
                i = e;
            },
            None => {
                if is_ident_start(bytes[i]) {
                    let next = scan_ident(bytes, i);
                    if matches_keyword(bytes, i, next, "uses") {
                        proof {
                            lemma_dpr_fragment_fits(
                                *tree,
                                bytes@,
                                next as int,
                                dpr_path@,
                                seq![tree.canonical(dpr_path@)],
                                None,
                                DprState {
                                    entries: Seq::empty(),
                                    warnings: old(warnings).deep_view(),
                                    flags: ClauseFlags {
                                        has_backslash: false,
                                        has_slash: false,
                                        include_semicolon: false,
                                    },
                                },
                            );
                        }
                        return parse_dpr_uses_list(tree, dpr_path, bytes, next, warnings);
                    }
                    i = next;
                } else {
                    i += 1;
                }
            },
        }
    }
    None
}

/// The entries that a reading adds fit the buffer, and so does its `;`.
pub proof fn lemma_dpr_fragment_fits(
    tree: SourceTree,
    b: Seq<u8>,
    i: int,
    source: Seq<char>,
    stack: Seq<Seq<char>>,
    over: Option<int>,
    st: DprState,
)
    requires
        0 <= i <= b.len(),
        over is None,
        entries_fit(st.entries, b),
    ensures
        entries_fit(dpr_fragment(tree, b, i, source, stack, over, st).state.entries, b),
        dpr_fragment(tree, b, i, source, stack, over, st).semicolon matches Some(p) ==> i <= p
            < b.len() && b[p] == SEMICOLON,
    decreases b.len() - i, 1int,
{
    if i < b.len() {
        if blank(b[i]) {
            lemma_dpr_fragment_fits(tree, b, i + 1, source, stack, over, st);
        } else {
            lemma_include_directive_bounds(b, i);
            lemma_comment_or_string_end_bounds(b, i);
            match include_directive(b, i) {
                Some((name, end)) => {
                    let got = include_entries(
                        tree,
                        name,
                        anchor_at(over, i),
                        source,
                        stack,
                        st.warnings,
                        st.flags,
                    );
                    lemma_include_entries_anchored(
                        tree,
                        name,
                        i,
                        source,
                        stack,
                        st.warnings,
                        st.flags,
                    );
                    let st2 = DprState {
                        entries: st.entries + got.entries,
                        warnings: got.warnings,
                        flags: got.flags,
                    };
                    assert(entries_fit(st2.entries, b));
                    lemma_dpr_fragment_fits(tree, b, end, source, stack, over, st2);
                },
                None => match comment_or_string_end(b, i) {
                    Some(e) => {
                        lemma_dpr_fragment_fits(tree, b, e, source, stack, over, st);
                    },
                    None => if b[i] == SEMICOLON {
                    } else if !ident_start(b[i]) {
                        lemma_dpr_fragment_fits(tree, b, i + 1, source, stack, over, st);
                    } else {
                        let next = ident_end(b, i + 1);
                        let (in_path, after) = declared_path(b, next);
                        lemma_ident_end_bounds(b, i + 1);
                        lemma_declared_path_bounds(b, next);
                        lemma_dpr_after_entry_fits(
                            tree,
                            b,
                            after,
                            source,
                            stack,
                            over,
                            DprState {
                                entries: st.entries,
                                warnings: st.warnings,
                                flags: flags_with_path(st.flags, in_path),
                            },
                            EntryModel {
                                name: ident_text(b, i),
                                in_path,
                                start: anchor_at(over, i),
                                delimiter: None,
                                delimiter_pos: None,
                                from_include: over is Some,
                            },
                            Seq::empty(),
                        );
                    },
                },
            }
        }
    }
}

/// Entries that stand for an include file start at the directive and have
/// no offset for their delimiter.
pub open spec fn entries_anchored(entries: Seq<EntryModel>, anchor: int) -> bool {
    forall|k: int|
        0 <= k < entries.len() ==> (#[trigger] entries[k]).start == anchor
            && entries[k].delimiter_pos is None
}

pub proof fn lemma_dpr_after_entry_fits(
    tree: SourceTree,
    b: Seq<u8>,
    i: int,
    source: Seq<char>,
    stack: Seq<Seq<char>>,
    over: Option<int>,
    st: DprState,
    open: EntryModel,
    pending: Seq<EntryModel>,
)
    requires
        0 <= i <= b.len(),
        over is None,
        entries_fit(st.entries, b),
        entries_fit(pending, b),
        0 <= open.start < i,
        !open.from_include,
    ensures
        entries_fit(
            dpr_after_entry(tree, b, i, source, stack, over, st, open, pending).state.entries,
            b,
        ),
        dpr_after_entry(tree, b, i, source, stack, over, st, open, pending).semicolon matches Some(
            p,
        ) ==> i <= p < b.len() && b[p] == SEMICOLON,
    decreases b.len() - i, 1int,
{
    if i >= b.len() {
        assert(entries_fit(state_with_entry(st, closed_entry(open, None, i), pending).entries, b));
    } else if b[i] == COMMA {
        let st2 = state_with_entry(st, closed_entry(open, Some(COMMA), i), pending);
        assert(entries_fit(st2.entries, b));
        lemma_dpr_fragment_fits(tree, b, i + 1, source, stack, over, st2);
    } else if b[i] == SEMICOLON {
        let st2 = state_with_entry(st, closed_entry(open, Some(SEMICOLON), i), pending);
        assert(entries_fit(st2.entries, b));
    } else {
        lemma_include_directive_bounds(b, i);
        lemma_comment_or_string_end_bounds(b, i);
        match include_directive(b, i) {
            Some((name, end)) => {
                let got = include_entries(
                    tree,
                    name,
                    anchor_at(over, i),
                    source,
                    stack,
                    st.warnings,
                    st.flags,
                );
                lemma_include_entries_anchored(tree, name, i, source, stack, st.warnings, st.flags);
                assert(entries_fit(pending + got.entries, b));
                lemma_dpr_after_entry_fits(
                    tree,
                    b,
                    end,
                    source,
                    stack,
                    over,
                    DprState { entries: st.entries, warnings: got.warnings, flags: got.flags },
                    open,
                    pending + got.entries,
                );
            },
            None => match comment_or_string_end(b, i) {
                Some(e) => {
                    lemma_dpr_after_entry_fits(tree, b, e, source, stack, over, st, open, pending);
                },
                None => {
                    lemma_dpr_after_entry_fits(
                        tree,
                        b,
                        i + 1,
                        source,
                        stack,
                        over,
                        st,
                        open,
                        pending,
                    );
                },
            },
        }
    }
}

/// What an include file gives is anchored at its directive.
pub proof fn lemma_include_entries_anchored(
    tree: SourceTree,
    name: Seq<char>,
    anchor: int,
    source: Seq<char>,
    stack: Seq<Seq<char>>,
    warnings: Seq<Seq<char>>,
    flags: ClauseFlags,
)
    ensures
        entries_anchored(
            include_entries(tree, name, anchor, source, stack, warnings, flags).entries,
            anchor,
        ),
    decreases include_budget(tree, stack), 0int,
{
    let after = warnings_after_lookup(tree, name, source, stack, warnings);
    if lookup_include(tree, name, source, stack) is Found {
        let path = include_path(source, name);
        let canonical = tree.canonical(path);
        lemma_budget_decreases(tree, name, source, stack);
        lemma_inner_fragment_anchored(
            tree,
            tree.files.value(canonical)@,
            0,
            path,
            stack.push(canonical),
            anchor,
            DprState { entries: Seq::empty(), warnings: after, flags },
        );
    }
}

pub proof fn lemma_inner_fragment_anchored(
    tree: SourceTree,
    b: Seq<u8>,
    i: int,
    source: Seq<char>,
    stack: Seq<Seq<char>>,
    anchor: int,
    st: DprState,
)
    requires
        entries_anchored(st.entries, anchor),
    ensures
        entries_anchored(
            dpr_fragment(tree, b, i, source, stack, Some(anchor), st).state.entries,
            anchor,
        ),
    decreases include_budget(tree, stack), 2 + b.len() - i,
{
    let over = Some(anchor);
    if 0 <= i < b.len() {
        if blank(b[i]) {
            lemma_inner_fragment_anchored(tree, b, i + 1, source, stack, anchor, st);
        } else {
            lemma_include_directive_bounds(b, i);
            lemma_comment_or_string_end_bounds(b, i);
            match include_directive(b, i) {
                Some((name, end)) => {
                    let got = include_entries(
                        tree,
                        name,
                        anchor,
                        source,
                        stack,
                        st.warnings,
                        st.flags,
                    );
                    lemma_include_entries_anchored(
                        tree,
                        name,
                        anchor,
                        source,
                        stack,
                        st.warnings,
                        st.flags,
                    );
                    lemma_inner_fragment_anchored(
                        tree,
                        b,
                        end,
                        source,
                        stack,
                        anchor,
                        DprState {
                            entries: st.entries + got.entries,
                            warnings: got.warnings,
                            flags: got.flags,
                        },
                    );
                },
                None => match comment_or_string_end(b, i) {
                    Some(e) => {
                        lemma_inner_fragment_anchored(tree, b, e, source, stack, anchor, st);
                    },
                    None => if b[i] == SEMICOLON {
                    } else if !ident_start(b[i]) {
                        lemma_inner_fragment_anchored(tree, b, i + 1, source, stack, anchor, st);
                    } else {
                        let next = ident_end(b, i + 1);
                        let (in_path, after) = declared_path(b, next);
                        lemma_ident_end_bounds(b, i + 1);
                        lemma_declared_path_bounds(b, next);
                        lemma_inner_after_entry_anchored(
                            tree,
                            b,
                            after,
                            source,
                            stack,
                            anchor,
                            DprState {
                                entries: st.entries,
                                warnings: st.warnings,
                                flags: flags_with_path(st.flags, in_path),
                            },
                            EntryModel {
                                name: ident_text(b, i),
                                in_path,
                                start: anchor,
                                delimiter: None,
                                delimiter_pos: None,
                                from_include: true,
                            },
                            Seq::empty(),
                        );
                    },
                },
            }
        }
    }
}

pub proof fn lemma_inner_after_entry_anchored(
    tree: SourceTree,
    b: Seq<u8>,
    i: int,
    source: Seq<char>,
    stack: Seq<Seq<char>>,
    anchor: int,
    st: DprState,
    open: EntryModel,
    pending: Seq<EntryModel>,
)
    requires
        entries_anchored(st.entries, anchor),
        entries_anchored(pending, anchor),
        open.start == anchor,
        open.from_include,
    ensures
        entries_anchored(
            dpr_after_entry(
                tree,
                b,
                i,
                source,
                stack,
                Some(anchor),
                st,
                open,
                pending,
            ).state.entries,
            anchor,
        ),
    decreases include_budget(tree, stack), 2 + b.len() - i,
{
    if i < 0 || i >= b.len() {
    } else if b[i] == COMMA {
        lemma_inner_fragment_anchored(
            tree,
            b,
            i + 1,
            source,
            stack,
            anchor,
            state_with_entry(st, closed_entry(open, Some(COMMA), i), pending),
        );
    } else if b[i] == SEMICOLON {
    } else {
        lemma_include_directive_bounds(b, i);
        lemma_comment_or_string_end_bounds(b, i);
        match include_directive(b, i) {
            Some((name, end)) => {
                let got = include_entries(
                    tree,
                    name,
                    anchor,
                    source,
                    stack,
                    st.warnings,
                    st.flags,
                );
                lemma_include_entries_anchored(
                    tree,
                    name,
                    anchor,
                    source,
                    stack,
                    st.warnings,
                    st.flags,
                );
                lemma_inner_after_entry_anchored(
                    tree,
                    b,
                    end,
                    source,
                    stack,
                    anchor,
                    DprState { entries: st.entries, warnings: got.warnings, flags: got.flags },
                    open,
                    pending + got.entries,
                );
            },
            None => match comment_or_string_end(b, i) {
                Some(e) => {
                    lemma_inner_after_entry_anchored(
                        tree,
                        b,
                        e,
                        source,
                        stack,
                        anchor,
                        st,
                        open,
                        pending,
                    );
                },
                None => {
                    lemma_inner_after_entry_anchored(
                        tree,
                        b,
                        i + 1,
                        source,
                        stack,
                        anchor,
                        st,
                        open,
                        pending,
                    );
                },
            },
        }
    }
}

} // verus!
