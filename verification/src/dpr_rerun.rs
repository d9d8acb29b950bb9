use vstd::prelude::*;

use crate::dpr_alike::{
    all_cached, lemma_project_map_alike, lemma_project_map_sound, lemma_seeded_alike,
    lemma_walk_alike, same_files,
};
use crate::dpr_apart::{agrees_off, clause_avoids, lemma_clause_is_read_alike};
use crate::dpr_closure::{intro_ctx, introduced};
use crate::dpr_edit::{
    edited_file, empty_summary, has_name, lemma_settled_file_is_left, placed, summary_with,
    update_from, updated_file, with_introduced, Cursor, EditLog, FileEnd, FileOutcome, SummaryModel,
    WriteModel,
};
use crate::dpr_insert::{entry_text, with_new_entry};
use crate::dpr_parse::{
    anchor_at, closed_entry, declared_path, dpr_after_entry, dpr_fragment, dpr_uses,
    flags_with_path, include_entries, lemma_declared_path_bounds, state_with_entry,
    uses_keyword_end, ClauseFlags, DprState, EntryModel, ListModel,
};
use crate::dpr_resolve::{option_cache, option_cache_wf, project_map_of, MapModel, MapState};
use crate::dpr_roundtrip::{
    contents, identifier, lemma_entry_is_read_back, lemma_list_ignores_warnings,
    lemma_new_name_stands_once, name_count, new_content, new_entry_index, plain_splice, shown_path,
};
use crate::dpr_steps::{cursor_behind, lemma_steps_track_writes};
use crate::dpr_walk::{
    dependents_of, introducer_from, lemma_walk_ctx_knows, lemma_walk_starts_known, needs_unit, walk,
    walk_ctx, walk_start, GraphState,
};
use crate::pas_lex::{
    blank, comment_or_string_end, ident_end, ident_start, ident_text, include_directive,
    lemma_comment_or_string_end_bounds, lemma_ident_end_bounds, lemma_include_directive_bounds,
    COMMA, QUOTE, SEMICOLON,
};
use crate::source_tree::SourceTree;
use crate::text::{ascii_text, utf8};
use crate::unit_cache::{UnitCache, UnitModel};
use crate::uses_include::{
    include_budget, include_path, lemma_budget_decreases, lookup_include, warnings_after_lookup,
};

verus! {

/// An include directive gives the same in two trees that differ in a
/// file which is being read.
pub proof fn kept_include_entries(
    a: SourceTree,
    b: SourceTree,
    own: Seq<char>,
    name: Seq<char>,
    anchor: int,
    source: Seq<char>,
    stack: Seq<Seq<char>>,
    warnings: Seq<Seq<char>>,
    flags: ClauseFlags,
)
    requires
        a.agrees_but(b, own),
        stack.contains(own),
    ensures
        include_entries(a, name, anchor, source, stack, warnings, flags) == include_entries(
            b,
            name,
            anchor,
            source,
            stack,
            warnings,
            flags,
        ),
    decreases include_budget(a, stack), 0int,
{
    let path = include_path(source, name);
    let canonical = a.canonical(path);
    assert(b.canonical(path) == canonical);
    if !stack.contains(canonical) {
        assert(a.contents(path) == b.contents(path));
        if lookup_include(a, name, source, stack) is Found {
            lemma_budget_decreases(a, name, source, stack);
            let more = stack.push(canonical);
            let k = choose|k: int| 0 <= k < stack.len() && stack[k] == own;
            assert(more[k] == own);
            kept_fragment(
                a,
                b,
                own,
                a.files.value(canonical)@,
                0,
                path,
                more,
                Some(anchor),
                DprState {
                    entries: Seq::empty(),
                    warnings: warnings_after_lookup(a, name, source, stack, warnings),
                    flags,
                },
            );
        }
    }
}

/// A reading finds the same in two trees that differ in a file which is
/// being read.
pub proof fn kept_fragment(
    a: SourceTree,
    b: SourceTree,
    own: Seq<char>,
    bytes: Seq<u8>,
    i: int,
    source: Seq<char>,
    stack: Seq<Seq<char>>,
    over: Option<int>,
    st: DprState,
)
    requires
        a.agrees_but(b, own),
        stack.contains(own),
    ensures
        dpr_fragment(a, bytes, i, source, stack, over, st) == dpr_fragment(
            b,
            bytes,
            i,
            source,
            stack,
            over,
            st,
        ),
    decreases include_budget(a, stack), 2 + bytes.len() - i,
{
    if 0 <= i < bytes.len() {
        if blank(bytes[i]) {
            kept_fragment(a, b, own, bytes, i + 1, source, stack, over, st);
        } else {
            lemma_include_directive_bounds(bytes, i);
            lemma_comment_or_string_end_bounds(bytes, i);
            match include_directive(bytes, i) {
                Some((name, end)) => {
                    let got = include_entries(
                        a,
                        name,
                        anchor_at(over, i),
                        source,
                        stack,
                        st.warnings,
                        st.flags,
                    );
                    kept_include_entries(
                        a,
                        b,
                        own,
                        name,
                        anchor_at(over, i),
                        source,
                        stack,
                        st.warnings,
                        st.flags,
                    );
                    kept_fragment(
                        a,
                        b,
                        own,
                        bytes,
                        end,
                        source,
                        stack,
                        over,
                        DprState {
                            entries: st.entries + got.entries,
                            warnings: got.warnings,
                            flags: got.flags,
                        },
                    );
                },
                None => match comment_or_string_end(bytes, i) {
                    Some(e) => {
                        kept_fragment(a, b, own, bytes, e, source, stack, over, st);
                    },
                    None => if bytes[i] == SEMICOLON {
                    } else if !ident_start(bytes[i]) {
                        kept_fragment(a, b, own, bytes, i + 1, source, stack, over, st);
                    } else {
                        let next = ident_end(bytes, i + 1);
                        let (in_path, after) = declared_path(bytes, next);
                        lemma_ident_end_bounds(bytes, i + 1);
                        lemma_declared_path_bounds(bytes, next);
                        kept_after_entry(
                            a,
                            b,
                            own,
                            bytes,
                            after,
                            source,
                            stack,
                            over,
                            DprState {
                                entries: st.entries,
                                warnings: st.warnings,
                                flags: flags_with_path(st.flags, in_path),
                            },
                            EntryModel {
                                name: ident_text(bytes, i),
                                in_path,
                                start: anchor_at(over, i),
                                delimiter: None,
                                delimiter_pos: None,
                                from_include: over is Some,
                            },
                            Seq::empty(),
                        );
                    },
                },
            }
        }
    }
}

pub proof fn kept_after_entry(
    a: SourceTree,
    b: SourceTree,
    own: Seq<char>,
    bytes: Seq<u8>,
    i: int,
    source: Seq<char>,
    stack: Seq<Seq<char>>,
    over: Option<int>,
    st: DprState,
    open: EntryModel,
    pending: Seq<EntryModel>,
)
    requires
        a.agrees_but(b, own),
        stack.contains(own),
    ensures
        dpr_after_entry(a, bytes, i, source, stack, over, st, open, pending) == dpr_after_entry(
            b,
            bytes,
            i,
            source,
            stack,
            over,
            st,
            open,
            pending,
        ),
    decreases include_budget(a, stack), 2 + bytes.len() - i,
{
    if 0 <= i < bytes.len() {
        if bytes[i] == COMMA {
            kept_fragment(
                a,
                b,
                own,
                bytes,
                i + 1,
                source,
                stack,
                over,
                state_with_entry(st, closed_entry(open, Some(COMMA), i), pending),
            );
        } else if bytes[i] == SEMICOLON {
        } else {
            lemma_include_directive_bounds(bytes, i);
            lemma_comment_or_string_end_bounds(bytes, i);
            match include_directive(bytes, i) {
                Some((name, end)) => {
                    let got = include_entries(
                        a,
                        name,
                        anchor_at(over, i),
                        source,
                        stack,
                        st.warnings,
                        st.flags,
                    );
                    kept_include_entries(
                        a,
                        b,
                        own,
                        name,
                        anchor_at(over, i),
                        source,
                        stack,
                        st.warnings,
                        st.flags,
                    );
                    kept_after_entry(
                        a,
                        b,
                        own,
                        bytes,
                        end,
                        source,
                        stack,
                        over,
                        DprState { entries: st.entries, warnings: got.warnings, flags: got.flags },
                        open,
                        pending + got.entries,
                    );
                },
                None => match comment_or_string_end(bytes, i) {
                    Some(e) => {
                        kept_after_entry(a, b, own, bytes, e, source, stack, over, st, open, pending);
                    },
                    None => {
                        kept_after_entry(
                            a,
                            b,
                            own,
                            bytes,
                            i + 1,
                            source,
                            stack,
                            over,
                            st,
                            open,
                            pending,
                        );
                    },
                },
            }
        }
    }
}

/// The clause of a project file is read without the text that the tree
/// holds for the file itself: it is the same in two trees that differ in
/// that text alone.
pub proof fn lemma_own_text_is_not_read(
    a: SourceTree,
    b: SourceTree,
    path: Seq<char>,
    bytes: Seq<u8>,
    warnings: Seq<Seq<char>>,
)
    requires
        a.agrees_but(b, a.canonical(path)),
    ensures
        dpr_uses(a, path, bytes, warnings) == dpr_uses(b, path, bytes, warnings),
{
    let own = a.canonical(path);
    assert(b.canonical(path) == own);
    let stack = seq![own];
    assert(stack[0] == own);
    match uses_keyword_end(bytes, 0) {
        Some(start) => {
            kept_fragment(
                a,
                b,
                own,
                bytes,
                start,
                path,
                stack,
                None,
                DprState {
                    entries: Seq::empty(),
                    warnings,
                    flags: ClauseFlags {
                        has_backslash: false,
                        has_slash: false,
                        include_semicolon: false,
                    },
                },
            );
        },
        None => {},
    }
}

/// Where the new unit is to be put, and the warnings given until then.
pub struct Placement {
    pub anchor: Option<int>,
    pub warnings: Seq<Seq<char>>,
}

/// Where the work on a project file whose clause lacks the new unit puts
/// it: behind the first entry that names a direct importer, if there is
/// one; and the warnings that the walk through the units has given by
/// then.
pub open spec fn placement(
    tree: SourceTree,
    path: Seq<char>,
    list: ListModel,
    project_cache: UnitCache,
    delphi_cache: Option<&UnitCache>,
    new_unit: UnitModel,
    warnings: Seq<Seq<char>>,
) -> Placement {
    let mapped = project_map_of(
        tree,
        path,
        list.entries,
        project_cache@,
        option_cache(delphi_cache),
        warnings,
    );
    let end = walk(
        walk_ctx(tree, project_cache, delphi_cache, mapped.map, new_unit.name),
        0,
        walk_start(mapped.map, mapped.warnings),
    );
    Placement {
        anchor: introducer_from(list.entries, 0, mapped.map, end.paths, end.direct),
        warnings: end.warnings,
    }
}

/// A project file that a run gave the new unit is read back with it:
/// the run has written the file once, and the clause of the new text
/// holds the entries that the old clause held, as they were and in their
/// order, and among them one entry with the name of the new unit, right
/// behind its anchor or behind all of them.
///
/// This holds for a run that puts in the new unit alone, where the name
/// of the unit is an identifier and its shown path holds no quote, and
/// where nothing stands in the way of reading the new entry back from
/// the place where the run puts it.
pub proof fn lemma_edited_file_is_read_back(
    tree: SourceTree,
    path: Seq<char>,
    bytes: Seq<u8>,
    list: ListModel,
    project_cache: UnitCache,
    delphi_cache: Option<&UnitCache>,
    new_unit: UnitModel,
    name: Seq<u8>,
    log: EditLog,
    later: Seq<Seq<char>>,
)
    requires
        tree.contents(path) == Some(bytes),
        dpr_uses(tree, path, bytes, log.warnings).list == Some(list),
        new_unit.name == ascii_text(name),
        identifier(name),
        !utf8(shown_path(new_unit, path, list)).contains(QUOTE),
        ({
            let place = placement(
                tree,
                path,
                list,
                project_cache,
                delphi_cache,
                new_unit,
                dpr_uses(tree, path, bytes, log.warnings).warnings,
            );
            plain_splice(
                tree,
                path,
                bytes,
                list,
                utf8(entry_text(new_unit.name, new_unit.path, path, list)),
                place.anchor,
                place.warnings,
            )
        }),
        updated_file(tree, path, project_cache, delphi_cache, new_unit, false, log).outcome
            == FileOutcome::Updated,
    ensures
        ({
            let first = updated_file(
                tree,
                path,
                project_cache,
                delphi_cache,
                new_unit,
                false,
                log,
            );
            let place = placement(
                tree,
                path,
                list,
                project_cache,
                delphi_cache,
                new_unit,
                dpr_uses(tree, path, bytes, log.warnings).warnings,
            );
            let text = utf8(entry_text(new_unit.name, new_unit.path, path, list));
            let new_bytes = with_new_entry(bytes, list, text, place.anchor);
            let at = new_entry_index(bytes, list, text, place.anchor);
            let read = dpr_uses(tree, path, new_bytes, later);
            &&& first.log.writes == log.writes.push(WriteModel { path, bytes: new_bytes })
            &&& read.list is Some
            &&& 0 <= at <= list.entries.len()
            &&& contents(read.list.unwrap().entries) == contents(list.entries).insert(
                at,
                new_content(name, shown_path(new_unit, path, list)),
            )
            &&& name_count(contents(read.list.unwrap().entries), new_unit.name) == 1
            &&& has_name(read.list.unwrap().entries, new_unit.name)
        }),
{
    reveal(updated_file);
    reveal(edited_file);
    reveal(placed);
    let read = dpr_uses(tree, path, bytes, log.warnings);
    let place = placement(tree, path, list, project_cache, delphi_cache, new_unit, read.warnings);
    let text = utf8(entry_text(new_unit.name, new_unit.path, path, list));
    let new_bytes = with_new_entry(bytes, list, text, place.anchor);
    lemma_entry_is_read_back(
        tree,
        path,
        bytes,
        list,
        new_unit,
        place.anchor,
        place.warnings,
        name,
        log.warnings,
    );
    lemma_list_ignores_warnings(tree, path, new_bytes, place.warnings, later);
    let new_list = dpr_uses(tree, path, new_bytes, later).list.unwrap();
    lemma_new_name_stands_once(
        list.entries,
        new_list.entries,
        new_entry_index(bytes, list, text, place.anchor),
        new_content(name, shown_path(new_unit, path, list)),
    );
}

/// A project file that a run gave the new unit is left as it is by the
/// next run: nothing is written for it again. The next run works on a
/// tree that holds the new text of the file and is otherwise the same;
/// its caches may be any.
///
/// This holds for a run that puts in the new unit alone, where the name
/// of the unit is an identifier and its shown path holds no quote, and
/// where nothing stands in the way of reading the new entry back from
/// the place where the run puts it.
pub proof fn lemma_edited_file_is_left_next_time(
    tree: SourceTree,
    next: SourceTree,
    path: Seq<char>,
    bytes: Seq<u8>,
    list: ListModel,
    project_cache: UnitCache,
    delphi_cache: Option<&UnitCache>,
    next_project_cache: UnitCache,
    next_delphi_cache: Option<&UnitCache>,
    new_unit: UnitModel,
    name: Seq<u8>,
    log: EditLog,
    later: EditLog,
)
    requires
        tree.contents(path) == Some(bytes),
        dpr_uses(tree, path, bytes, log.warnings).list == Some(list),
        new_unit.name == ascii_text(name),
        identifier(name),
        !utf8(shown_path(new_unit, path, list)).contains(QUOTE),
        ({
            let place = placement(
                tree,
                path,
                list,
                project_cache,
                delphi_cache,
                new_unit,
                dpr_uses(tree, path, bytes, log.warnings).warnings,
            );
            plain_splice(
                tree,
                path,
                bytes,
                list,
                utf8(entry_text(new_unit.name, new_unit.path, path, list)),
                place.anchor,
                place.warnings,
            )
        }),
        updated_file(tree, path, project_cache, delphi_cache, new_unit, false, log).outcome
            == FileOutcome::Updated,
        tree.agrees_but(next, tree.canonical(path)),
        next.contents(path) == Some(
            updated_file(
                tree,
                path,
                project_cache,
                delphi_cache,
                new_unit,
                false,
                log,
            ).log.writes.last().bytes,
        ),
    ensures
        settled(next, path, next_project_cache, next_delphi_cache, new_unit, false),
        updated_file(
            next,
            path,
            next_project_cache,
            next_delphi_cache,
            new_unit,
            false,
            later,
        ).outcome == FileOutcome::Unchanged,
        updated_file(
            next,
            path,
            next_project_cache,
            next_delphi_cache,
            new_unit,
            false,
            later,
        ).log.writes == later.writes,
{
    lemma_edited_file_is_read_back(
        tree,
        path,
        bytes,
        list,
        project_cache,
        delphi_cache,
        new_unit,
        name,
        log,
        later.warnings,
    );
    reveal(updated_file);
    let place = placement(
        tree,
        path,
        list,
        project_cache,
        delphi_cache,
        new_unit,
        dpr_uses(tree, path, bytes, log.warnings).warnings,
    );
    let text = utf8(entry_text(new_unit.name, new_unit.path, path, list));
    let new_bytes = with_new_entry(bytes, list, text, place.anchor);
    assert(log.writes.push(WriteModel { path, bytes: new_bytes }).last().bytes == new_bytes);
    lemma_own_text_is_not_read(tree, next, path, new_bytes, Seq::empty());
    lemma_list_ignores_warnings(tree, path, new_bytes, later.warnings, Seq::empty());
    lemma_own_text_is_not_read(tree, next, path, new_bytes, later.warnings);
    let again = dpr_uses(next, path, new_bytes, later.warnings);
    lemma_settled_file_is_left(
        next,
        path,
        new_bytes,
        again.list.unwrap(),
        next_project_cache,
        next_delphi_cache,
        new_unit,
        false,
        EditLog { warnings: again.warnings, writes: later.writes },
    );
}

/// Whether a run leaves the project file `path` alone, whatever it has
/// warned of and written before: it writes nothing for the file and does
/// not count it as changed.
pub open spec fn rests(
    tree: SourceTree,
    path: Seq<char>,
    project_cache: UnitCache,
    delphi_cache: Option<&UnitCache>,
    new_unit: UnitModel,
    add_introduced: bool,
) -> bool {
    forall|log: EditLog|
        {
            let end = #[trigger] updated_file(
                tree,
                path,
                project_cache,
                delphi_cache,
                new_unit,
                add_introduced,
                log,
            );
            end.log.writes == log.writes && end.outcome != FileOutcome::Updated
        }
}

/// The clause of the project file `path`, if the tree holds the file and
/// the clause can be read.
pub open spec fn clause_of(tree: SourceTree, path: Seq<char>) -> Option<ListModel> {
    match tree.contents(path) {
        Some(bytes) => dpr_uses(tree, path, bytes, Seq::empty()).list,
        None => None,
    }
}

/// Whether the clause holds every unit that the new unit brings with it,
/// as a run finds them that has given the warnings `warnings`.
pub open spec fn holds_introduced(
    tree: SourceTree,
    path: Seq<char>,
    list: ListModel,
    project_cache: UnitCache,
    delphi_cache: Option<&UnitCache>,
    new_unit: UnitModel,
    warnings: Seq<Seq<char>>,
) -> bool {
    let mapped = project_map_of(
        tree,
        path,
        list.entries,
        project_cache@,
        option_cache(delphi_cache),
        warnings,
    );
    let found = introduced(
        intro_ctx(tree, project_cache, delphi_cache, mapped.map, new_unit),
        mapped.warnings,
    );
    forall|k: int|
        0 <= k < found.found.len() ==> has_name(list.entries, (#[trigger] found.found[k]).name)
}

/// Whether the project file `path` is settled: the tree holds it, and
/// its clause holds the new unit and, with `add_introduced`, every unit
/// that the new unit brings with it.
pub open spec fn settled(
    tree: SourceTree,
    path: Seq<char>,
    project_cache: UnitCache,
    delphi_cache: Option<&UnitCache>,
    new_unit: UnitModel,
    add_introduced: bool,
) -> bool {
    &&& clause_of(tree, path) is Some
    &&& has_name(clause_of(tree, path).unwrap().entries, new_unit.name)
    &&& add_introduced ==> forall|warnings: Seq<Seq<char>>| #[trigger]
        holds_introduced(
            tree,
            path,
            clause_of(tree, path).unwrap(),
            project_cache,
            delphi_cache,
            new_unit,
            warnings,
        )
}

/// A run leaves a settled project file alone.
pub proof fn lemma_settled_file_rests(
    tree: SourceTree,
    path: Seq<char>,
    project_cache: UnitCache,
    delphi_cache: Option<&UnitCache>,
    new_unit: UnitModel,
    add_introduced: bool,
)
    requires
        settled(tree, path, project_cache, delphi_cache, new_unit, add_introduced),
    ensures
        rests(tree, path, project_cache, delphi_cache, new_unit, add_introduced),
{
    let bytes = tree.contents(path).unwrap();
    let list = dpr_uses(tree, path, bytes, Seq::empty()).list.unwrap();
    assert forall|log: EditLog|
        {
            let end = #[trigger] updated_file(
                tree,
                path,
                project_cache,
                delphi_cache,
                new_unit,
                add_introduced,
                log,
            );
            end.log.writes == log.writes && end.outcome != FileOutcome::Updated
        } by {
        reveal(updated_file);
        lemma_list_ignores_warnings(tree, path, bytes, Seq::empty(), log.warnings);
        let read = dpr_uses(tree, path, bytes, log.warnings);
        if add_introduced {
            assert(holds_introduced(
                tree,
                path,
                list,
                project_cache,
                delphi_cache,
                new_unit,
                read.warnings,
            ));
        }
        lemma_settled_file_is_left(
            tree,
            path,
            bytes,
            list,
            project_cache,
            delphi_cache,
            new_unit,
            add_introduced,
            EditLog { warnings: read.warnings, writes: log.writes },
        );
    }
}

/// A run over project files that it leaves alone changes nothing: it
/// looks at each of them, writes nothing and counts none as changed. So
/// a second run changes nothing where the first has left every project
/// file at rest.
pub proof fn lemma_run_over_resting_files_changes_nothing(
    tree: SourceTree,
    paths: Seq<Seq<char>>,
    k: int,
    project_cache: UnitCache,
    delphi_cache: Option<&UnitCache>,
    new_unit: UnitModel,
    add_introduced: bool,
    summary: SummaryModel,
)
    requires
        0 <= k <= paths.len(),
        forall|i: int|
            k <= i < paths.len() ==> rests(
                tree,
                #[trigger] paths[i],
                project_cache,
                delphi_cache,
                new_unit,
                add_introduced,
            ),
    ensures
        ({
            let end = update_from(
                tree,
                paths,
                k,
                project_cache,
                delphi_cache,
                new_unit,
                add_introduced,
                summary,
            );
            &&& end.writes == summary.writes
            &&& end.updated == summary.updated
            &&& end.updated_paths == summary.updated_paths
            &&& end.scanned == summary.scanned + (paths.len() - k)
        }),
    decreases paths.len() - k,
{
    if k < paths.len() {
        let log = EditLog { warnings: summary.warnings, writes: summary.writes };
        let end = updated_file(
            tree,
            paths[k],
            project_cache,
            delphi_cache,
            new_unit,
            add_introduced,
            log,
        );
        assert(rests(tree, paths[k], project_cache, delphi_cache, new_unit, add_introduced));
        lemma_run_over_resting_files_changes_nothing(
            tree,
            paths,
            k + 1,
            project_cache,
            delphi_cache,
            new_unit,
            add_introduced,
            summary_with(summary, paths[k], end),
        );
    }
}

/// A second run over settled project files changes nothing, with or
/// without the units that the new unit brings with it.
pub proof fn lemma_run_over_settled_files_changes_nothing(
    tree: SourceTree,
    paths: Seq<Seq<char>>,
    project_cache: UnitCache,
    delphi_cache: Option<&UnitCache>,
    new_unit: UnitModel,
    add_introduced: bool,
)
    requires
        forall|i: int|
            0 <= i < paths.len() ==> settled(
                tree,
                #[trigger] paths[i],
                project_cache,
                delphi_cache,
                new_unit,
                add_introduced,
            ),
    ensures
        ({
            let end = update_from(
                tree,
                paths,
                0,
                project_cache,
                delphi_cache,
                new_unit,
                add_introduced,
                empty_summary(),
            );
            &&& end.writes.len() == 0
            &&& end.updated == 0
            &&& end.updated_paths.len() == 0
            &&& end.failures == 0
            &&& end.scanned == paths.len()
        }),
{
    assert forall|i: int| 0 <= i < paths.len() implies rests(
        tree,
        #[trigger] paths[i],
        project_cache,
        delphi_cache,
        new_unit,
        add_introduced,
    ) by {
        lemma_settled_file_rests(
            tree,
            paths[i],
            project_cache,
            delphi_cache,
            new_unit,
            add_introduced,
        );
    }
    lemma_run_over_resting_files_changes_nothing(
        tree,
        paths,
        0,
        project_cache,
        delphi_cache,
        new_unit,
        add_introduced,
        empty_summary(),
    );
    lemma_settled_run_has_no_failures(
        tree,
        paths,
        0,
        project_cache,
        delphi_cache,
        new_unit,
        add_introduced,
        empty_summary(),
    );
}

/// A run counts no settled project file as failed.
pub proof fn lemma_settled_run_has_no_failures(
    tree: SourceTree,
    paths: Seq<Seq<char>>,
    k: int,
    project_cache: UnitCache,
    delphi_cache: Option<&UnitCache>,
    new_unit: UnitModel,
    add_introduced: bool,
    summary: SummaryModel,
)
    requires
        0 <= k <= paths.len(),
        forall|i: int|
            k <= i < paths.len() ==> settled(
                tree,
                #[trigger] paths[i],
                project_cache,
                delphi_cache,
                new_unit,
                add_introduced,
            ),
    ensures
        update_from(
            tree,
            paths,
            k,
            project_cache,
            delphi_cache,
            new_unit,
            add_introduced,
            summary,
        ).failures == summary.failures,
    decreases paths.len() - k,
{
    if k < paths.len() {
        let log = EditLog { warnings: summary.warnings, writes: summary.writes };
        let path = paths[k];
        let end = updated_file(tree, path, project_cache, delphi_cache, new_unit, add_introduced, log);
        assert(settled(tree, path, project_cache, delphi_cache, new_unit, add_introduced));
        let bytes = tree.contents(path).unwrap();
        let list = dpr_uses(tree, path, bytes, Seq::empty()).list.unwrap();
        assert(end.outcome == FileOutcome::Unchanged) by {
            reveal(updated_file);
            lemma_list_ignores_warnings(tree, path, bytes, Seq::empty(), log.warnings);
            let read = dpr_uses(tree, path, bytes, log.warnings);
            if add_introduced {
                assert(holds_introduced(
                    tree,
                    path,
                    list,
                    project_cache,
                    delphi_cache,
                    new_unit,
                    read.warnings,
                ));
            }
            lemma_settled_file_is_left(
                tree,
                path,
                bytes,
                list,
                project_cache,
                delphi_cache,
                new_unit,
                add_introduced,
                EditLog { warnings: read.warnings, writes: log.writes },
            );
        }
        lemma_settled_run_has_no_failures(
            tree,
            paths,
            k + 1,
            project_cache,
            delphi_cache,
            new_unit,
            add_introduced,
            summary_with(summary, path, end),
        );
    }
}

/// The summary of a run after its first `k` project files.
pub open spec fn run_upto(
    tree: SourceTree,
    paths: Seq<Seq<char>>,
    k: int,
    project_cache: UnitCache,
    delphi_cache: Option<&UnitCache>,
    new_unit: UnitModel,
    add_introduced: bool,
) -> SummaryModel
    decreases k,
{
    if k <= 0 {
        empty_summary()
    } else {
        let before = run_upto(
            tree,
            paths,
            k - 1,
            project_cache,
            delphi_cache,
            new_unit,
            add_introduced,
        );
        summary_with(
            before,
            paths[k - 1],
            updated_file(
                tree,
                paths[k - 1],
                project_cache,
                delphi_cache,
                new_unit,
                add_introduced,
                EditLog { warnings: before.warnings, writes: before.writes },
            ),
        )
    }
}

/// The log with which a run comes to its project file `k`.
pub open spec fn log_at(
    tree: SourceTree,
    paths: Seq<Seq<char>>,
    k: int,
    project_cache: UnitCache,
    delphi_cache: Option<&UnitCache>,
    new_unit: UnitModel,
    add_introduced: bool,
) -> EditLog {
    let before = run_upto(tree, paths, k, project_cache, delphi_cache, new_unit, add_introduced);
    EditLog { warnings: before.warnings, writes: before.writes }
}

/// What a run makes of its project file `k`.
pub open spec fn file_end_at(
    tree: SourceTree,
    paths: Seq<Seq<char>>,
    k: int,
    project_cache: UnitCache,
    delphi_cache: Option<&UnitCache>,
    new_unit: UnitModel,
    add_introduced: bool,
) -> FileEnd {
    updated_file(
        tree,
        paths[k],
        project_cache,
        delphi_cache,
        new_unit,
        add_introduced,
        log_at(tree, paths, k, project_cache, delphi_cache, new_unit, add_introduced),
    )
}

/// A run goes on from the summary of its first `k` files to its end.
pub proof fn lemma_run_goes_on(
    tree: SourceTree,
    paths: Seq<Seq<char>>,
    k: int,
    project_cache: UnitCache,
    delphi_cache: Option<&UnitCache>,
    new_unit: UnitModel,
    add_introduced: bool,
)
    requires
        0 <= k <= paths.len(),
    ensures
        update_from(
            tree,
            paths,
            k,
            project_cache,
            delphi_cache,
            new_unit,
            add_introduced,
            run_upto(tree, paths, k, project_cache, delphi_cache, new_unit, add_introduced),
        ) == update_from(
            tree,
            paths,
            0,
            project_cache,
            delphi_cache,
            new_unit,
            add_introduced,
            empty_summary(),
        ),
    decreases k,
{
    if k > 0 {
        lemma_run_goes_on(tree, paths, k - 1, project_cache, delphi_cache, new_unit, add_introduced);
    }
}

/// The failures of a run do not get fewer from file to file.
pub proof fn lemma_failures_grow(
    tree: SourceTree,
    paths: Seq<Seq<char>>,
    j: int,
    k: int,
    project_cache: UnitCache,
    delphi_cache: Option<&UnitCache>,
    new_unit: UnitModel,
    add_introduced: bool,
)
    requires
        0 <= j <= k,
    ensures
        0 <= run_upto(tree, paths, j, project_cache, delphi_cache, new_unit, add_introduced).failures
            <= run_upto(
            tree,
            paths,
            k,
            project_cache,
            delphi_cache,
            new_unit,
            add_introduced,
        ).failures,
    decreases k,
{
    if k > 0 {
        if j < k {
            lemma_failures_grow(
                tree,
                paths,
                j,
                k - 1,
                project_cache,
                delphi_cache,
                new_unit,
                add_introduced,
            );
        } else {
            lemma_failures_grow(
                tree,
                paths,
                j - 1,
                k - 1,
                project_cache,
                delphi_cache,
                new_unit,
                add_introduced,
            );
        }
    }
}

/// The project files of a run, by their canonical paths.
pub open spec fn project_files(tree: SourceTree, paths: Seq<Seq<char>>) -> Set<Seq<char>> {
    Set::new(|c: Seq<char>| exists|k: int| 0 <= k < paths.len() && c == tree.canonical(#[trigger] paths[k]))
}

/// Whether the tree `next` holds what a run over the tree `tree` has
/// left: it holds the same files under the same paths, each project file
/// that the run changed with its last text, and every other file with
/// the text that it had.
pub open spec fn holds_run(
    tree: SourceTree,
    next: SourceTree,
    paths: Seq<Seq<char>>,
    project_cache: UnitCache,
    delphi_cache: Option<&UnitCache>,
    new_unit: UnitModel,
    add_introduced: bool,
) -> bool {
    &&& agrees_off(tree, next, project_files(tree, paths))
    &&& forall|k: int|
        0 <= k < paths.len() ==> {
            let end = #[trigger] file_end_at(
                tree,
                paths,
                k,
                project_cache,
                delphi_cache,
                new_unit,
                add_introduced,
            );
            next.contents(paths[k]) == if end.outcome == FileOutcome::Updated {
                Some(end.log.writes.last().bytes)
            } else {
                tree.contents(paths[k])
            }
        }
}

/// Whether the reading of the clause of each project file, as the tree
/// `next` holds it, reads no project file of the run as an include file.
pub open spec fn clauses_avoid_project_files(
    tree: SourceTree,
    next: SourceTree,
    paths: Seq<Seq<char>>,
) -> bool {
    forall|k: int|
        0 <= k < paths.len() && next.contents(#[trigger] paths[k]) is Some ==> clause_avoids(
            tree,
            paths[k],
            next.contents(paths[k]).unwrap(),
            project_files(tree, paths),
        )
}

/// Whether the caches hold every unit that the walk from the declared
/// units of the project file `path` can meet, so that the walk reads no
/// file.
pub open spec fn units_cached(
    tree: SourceTree,
    path: Seq<char>,
    project_cache: UnitCache,
    delphi_cache: Option<&UnitCache>,
    new_unit: UnitModel,
) -> bool {
    clause_of(tree, path) matches Some(list) && all_cached(
        walk_ctx(
            tree,
            project_cache,
            delphi_cache,
            project_map_of(
                tree,
                path,
                list.entries,
                project_cache@,
                option_cache(delphi_cache),
                Seq::empty(),
            ).map,
            new_unit.name,
        ),
    )
}

/// Putting the new unit into a clause never leaves the file alone: the
/// file counts as changed, or as failed.
pub proof fn lemma_placed_is_no_rest(
    tree: SourceTree,
    path: Seq<char>,
    bytes: Seq<u8>,
    list: ListModel,
    project_cache: UnitCache,
    delphi_cache: Option<&UnitCache>,
    map: MapModel,
    new_unit: UnitModel,
    add_introduced: bool,
    anchor: Option<int>,
    log: EditLog,
)
    ensures
        placed(
            tree,
            path,
            bytes,
            list,
            project_cache,
            delphi_cache,
            map,
            new_unit,
            add_introduced,
            anchor,
            log,
        ).outcome != FileOutcome::Unchanged,
{
    reveal(placed);
    reveal(with_introduced);
    let new_bytes = with_new_entry(
        bytes,
        list,
        utf8(entry_text(new_unit.name, new_unit.path, path, list)),
        anchor,
    );
    let writes = log.writes.push(WriteModel { path, bytes: new_bytes });
    let read = dpr_uses(tree, path, new_bytes, log.warnings);
    if add_introduced && read.list is Some {
        let cur = Cursor {
            bytes: new_bytes,
            list: read.list.unwrap(),
            last: Some(new_unit.name),
            updated: true,
        };
        let found = introduced(
            intro_ctx(tree, project_cache, delphi_cache, map, new_unit),
            read.warnings,
        );
        assert(writes.last().bytes == new_bytes);
        lemma_steps_track_writes(
            tree,
            path,
            found.found,
            0,
            true,
            cursor_behind(cur, new_unit),
            EditLog { warnings: found.warnings, writes },
        );
    }
}

/// A project file that lacks the new unit and that a run has left alone
/// is left alone again, whatever was warned before and whatever the
/// texts of the other files are, where the walk from its declared units
/// reads no file.
pub proof fn lemma_idle_file_rests(
    tree: SourceTree,
    next: SourceTree,
    path: Seq<char>,
    project_cache: UnitCache,
    delphi_cache: Option<&UnitCache>,
    new_unit: UnitModel,
    add_introduced: bool,
    log: EditLog,
)
    requires
        project_cache.wf(),
        option_cache_wf(delphi_cache),
        same_files(tree, next),
        tree.contents(path) is Some,
        next.contents(path) == tree.contents(path),
        dpr_uses(next, path, tree.contents(path).unwrap(), Seq::empty()).list == dpr_uses(
            tree,
            path,
            tree.contents(path).unwrap(),
            Seq::empty(),
        ).list,
        updated_file(
            tree,
            path,
            project_cache,
            delphi_cache,
            new_unit,
            add_introduced,
            log,
        ).outcome == FileOutcome::Unchanged,
        units_cached(tree, path, project_cache, delphi_cache, new_unit),
        !has_name(clause_of(tree, path).unwrap().entries, new_unit.name),
    ensures
        rests(next, path, project_cache, delphi_cache, new_unit, add_introduced),
{
    let bytes = tree.contents(path).unwrap();
    let list = clause_of(tree, path).unwrap();
    let project = project_cache@;
    let delphi = option_cache(delphi_cache);
    let read1 = dpr_uses(tree, path, bytes, log.warnings);
    lemma_list_ignores_warnings(tree, path, bytes, log.warnings, Seq::empty());
    let no_map = MapModel { keys: Seq::empty(), values: Seq::empty() };
    let m0 = project_map_of(tree, path, list.entries, project, delphi, Seq::empty());
    let m1 = project_map_of(tree, path, list.entries, project, delphi, read1.warnings);
    lemma_project_map_alike(
        tree,
        tree,
        path,
        list.entries,
        0,
        project,
        delphi,
        MapState { map: no_map, warnings: read1.warnings },
        MapState { map: no_map, warnings: Seq::empty() },
    );
    lemma_project_map_sound(
        tree,
        path,
        list.entries,
        0,
        project,
        delphi,
        MapState { map: no_map, warnings: read1.warnings },
    );
    let ctx1 = walk_ctx(tree, project_cache, delphi_cache, m1.map, new_unit.name);
    let start1 = walk_start(m1.map, m1.warnings);
    let end1 = walk(ctx1, 0, start1);
    assert(m1.map.keys.len() == 0 || !needs_unit(
        list.entries,
        m1.map,
        end1.paths,
        dependents_of(end1.rev, end1.direct),
    )) by {
        reveal(updated_file);
        reveal(edited_file);
        lemma_placed_is_no_rest(
            tree,
            path,
            bytes,
            list,
            project_cache,
            delphi_cache,
            m1.map,
            new_unit,
            add_introduced,
            introducer_from(list.entries, 0, m1.map, end1.paths, end1.direct),
            EditLog { warnings: end1.warnings, writes: log.writes },
        );
    }
    assert forall|later: EditLog|
        {
            let end = #[trigger] updated_file(
                next,
                path,
                project_cache,
                delphi_cache,
                new_unit,
                add_introduced,
                later,
            );
            end.log.writes == later.writes && end.outcome != FileOutcome::Updated
        } by {
        let read2 = dpr_uses(next, path, bytes, later.warnings);
        lemma_list_ignores_warnings(next, path, bytes, later.warnings, Seq::empty());
        let m2 = project_map_of(next, path, list.entries, project, delphi, read2.warnings);
        lemma_project_map_alike(
            tree,
            next,
            path,
            list.entries,
            0,
            project,
            delphi,
            MapState { map: no_map, warnings: read1.warnings },
            MapState { map: no_map, warnings: read2.warnings },
        );
        if m1.map.keys.len() != 0 {
            let ctx2 = walk_ctx(next, project_cache, delphi_cache, m2.map, new_unit.name);
            let start2 = walk_start(m2.map, m2.warnings);
            lemma_walk_ctx_knows(tree, project_cache, delphi_cache, m1.map, new_unit.name);
            lemma_walk_starts_known(
                tree,
                project_cache,
                delphi_cache,
                m1.map,
                new_unit.name,
                m1.warnings,
            );
            lemma_seeded_alike(
                m1.map.values,
                0,
                GraphState {
                    paths: Seq::empty(),
                    rev: Seq::empty(),
                    direct: Seq::empty(),
                    warnings: m1.warnings,
                },
                GraphState {
                    paths: Seq::empty(),
                    rev: Seq::empty(),
                    direct: Seq::empty(),
                    warnings: m2.warnings,
                },
            );
            assert(ctx1 == walk_ctx(tree, project_cache, delphi_cache, m0.map, new_unit.name));
            lemma_walk_alike(ctx1, ctx2, 0, start1, start2);
        }
        reveal(updated_file);
        reveal(edited_file);
    }
}

/// Whether the new unit can be read back from the project file `path`
/// once a run that comes to the file with the log `log` has put it in:
/// its shown path holds no quote, and nothing stands in the way of
/// reading the new entry back from the place where the run puts it.
pub open spec fn reads_back(
    tree: SourceTree,
    path: Seq<char>,
    project_cache: UnitCache,
    delphi_cache: Option<&UnitCache>,
    new_unit: UnitModel,
    log: EditLog,
) -> bool {
    let bytes = tree.contents(path).unwrap();
    let read = dpr_uses(tree, path, bytes, log.warnings);
    let list = read.list.unwrap();
    let place = placement(tree, path, list, project_cache, delphi_cache, new_unit, read.warnings);
    &&& !utf8(shown_path(new_unit, path, list)).contains(QUOTE)
    &&& plain_splice(
        tree,
        path,
        bytes,
        list,
        utf8(entry_text(new_unit.name, new_unit.path, path, list)),
        place.anchor,
        place.warnings,
    )
}

/// A second run changes nothing: it looks at every project file, writes
/// nothing and counts no file as changed. The first run puts in the new
/// unit alone and fails on no file; the second works on a tree that
/// holds what the first has left.
///
/// This holds where the name of the unit is an identifier; where the new
/// unit can be read back from each file that the first run has changed;
/// where no project file of the run is an include file of the clause
/// of another; and where the caches
/// hold the units that the walk meets from each file that lacks the new
/// unit and that the first run has left alone.
pub proof fn lemma_second_run_changes_nothing(
    tree: SourceTree,
    next: SourceTree,
    paths: Seq<Seq<char>>,
    project_cache: UnitCache,
    delphi_cache: Option<&UnitCache>,
    new_unit: UnitModel,
    name: Seq<u8>,
    summary: SummaryModel,
)
    requires
        update_from(
            tree,
            paths,
            0,
            project_cache,
            delphi_cache,
            new_unit,
            false,
            empty_summary(),
        ).failures == 0,
        holds_run(tree, next, paths, project_cache, delphi_cache, new_unit, false),
        clauses_avoid_project_files(tree, next, paths),
        project_cache.wf(),
        option_cache_wf(delphi_cache),
        new_unit.name == ascii_text(name),
        identifier(name),
        forall|k: int|
            0 <= k < paths.len() && (#[trigger] file_end_at(
                tree,
                paths,
                k,
                project_cache,
                delphi_cache,
                new_unit,
                false,
            )).outcome == FileOutcome::Updated ==> reads_back(
                tree,
                paths[k],
                project_cache,
                delphi_cache,
                new_unit,
                log_at(tree, paths, k, project_cache, delphi_cache, new_unit, false),
            ),
        forall|k: int|
            0 <= k < paths.len() && (#[trigger] file_end_at(
                tree,
                paths,
                k,
                project_cache,
                delphi_cache,
                new_unit,
                false,
            )).outcome == FileOutcome::Unchanged && !(clause_of(tree, paths[k]) is Some && has_name(
                clause_of(tree, paths[k]).unwrap().entries,
                new_unit.name,
            )) ==> units_cached(tree, paths[k], project_cache, delphi_cache, new_unit),
    ensures
        ({
            let end = update_from(
                next,
                paths,
                0,
                project_cache,
                delphi_cache,
                new_unit,
                false,
                summary,
            );
            &&& end.writes == summary.writes
            &&& end.updated == summary.updated
            &&& end.updated_paths == summary.updated_paths
            &&& end.scanned == summary.scanned + paths.len()
        }),
{
    let n = paths.len() as int;
    lemma_run_goes_on(tree, paths, n, project_cache, delphi_cache, new_unit, false);
    assert forall|k: int| 0 <= k < paths.len() implies rests(
        next,
        #[trigger] paths[k],
        project_cache,
        delphi_cache,
        new_unit,
        false,
    ) by {
        let path = paths[k];
        let log = log_at(tree, paths, k, project_cache, delphi_cache, new_unit, false);
        let end = file_end_at(tree, paths, k, project_cache, delphi_cache, new_unit, false);
        lemma_failures_grow(tree, paths, k, k + 1, project_cache, delphi_cache, new_unit, false);
        lemma_failures_grow(tree, paths, k + 1, n, project_cache, delphi_cache, new_unit, false);
        lemma_failures_grow(tree, paths, 0, k, project_cache, delphi_cache, new_unit, false);
        assert(end.outcome != FileOutcome::Failed);
        lemma_file_rests_in_next(
            tree,
            next,
            paths,
            k,
            project_cache,
            delphi_cache,
            new_unit,
            name,
        );
    }
    lemma_run_over_resting_files_changes_nothing(
        next,
        paths,
        0,
        project_cache,
        delphi_cache,
        new_unit,
        false,
        summary,
    );
}

/// A project file on which the first run did not fail rests in the tree
/// that holds what the run has left.
proof fn lemma_file_rests_in_next(
    tree: SourceTree,
    next: SourceTree,
    paths: Seq<Seq<char>>,
    k: int,
    project_cache: UnitCache,
    delphi_cache: Option<&UnitCache>,
    new_unit: UnitModel,
    name: Seq<u8>,
)
    requires
        0 <= k < paths.len(),
        holds_run(tree, next, paths, project_cache, delphi_cache, new_unit, false),
        clauses_avoid_project_files(tree, next, paths),
        project_cache.wf(),
        option_cache_wf(delphi_cache),
        new_unit.name == ascii_text(name),
        identifier(name),
        file_end_at(tree, paths, k, project_cache, delphi_cache, new_unit, false).outcome
            != FileOutcome::Failed,
        file_end_at(tree, paths, k, project_cache, delphi_cache, new_unit, false).outcome
            == FileOutcome::Updated ==> reads_back(
            tree,
            paths[k],
            project_cache,
            delphi_cache,
            new_unit,
            log_at(tree, paths, k, project_cache, delphi_cache, new_unit, false),
        ),
        file_end_at(tree, paths, k, project_cache, delphi_cache, new_unit, false).outcome
            == FileOutcome::Unchanged && !(clause_of(tree, paths[k]) is Some && has_name(
            clause_of(tree, paths[k]).unwrap().entries,
            new_unit.name,
        )) ==> units_cached(tree, paths[k], project_cache, delphi_cache, new_unit),
    ensures
        rests(next, paths[k], project_cache, delphi_cache, new_unit, false),
{
    let path = paths[k];
    let log = log_at(tree, paths, k, project_cache, delphi_cache, new_unit, false);
    let end = file_end_at(tree, paths, k, project_cache, delphi_cache, new_unit, false);
    assert(end == updated_file(tree, path, project_cache, delphi_cache, new_unit, false, log));
    assert(tree.contents(path) is Some && dpr_uses(
        tree,
        path,
        tree.contents(path).unwrap(),
        log.warnings,
    ).list is Some) by {
        reveal(updated_file);
    }
    let bytes = tree.contents(path).unwrap();
    let list = dpr_uses(tree, path, bytes, log.warnings).list.unwrap();
    lemma_list_ignores_warnings(tree, path, bytes, log.warnings, Seq::empty());
    if end.outcome == FileOutcome::Updated {
        lemma_edited_file_is_read_back(
            tree,
            path,
            bytes,
            list,
            project_cache,
            delphi_cache,
            new_unit,
            name,
            log,
            Seq::empty(),
        );
        let place = placement(
            tree,
            path,
            list,
            project_cache,
            delphi_cache,
            new_unit,
            dpr_uses(tree, path, bytes, log.warnings).warnings,
        );
        let text = utf8(entry_text(new_unit.name, new_unit.path, path, list));
        let new_bytes = with_new_entry(bytes, list, text, place.anchor);
        assert(log.writes.push(WriteModel { path, bytes: new_bytes }).last().bytes == new_bytes);
        assert(next.contents(path) == Some(new_bytes));
        lemma_clause_is_read_alike(
            tree,
            next,
            project_files(tree, paths),
            path,
            new_bytes,
            Seq::empty(),
        );
        assert(settled(next, path, project_cache, delphi_cache, new_unit, false));
        lemma_settled_file_rests(next, path, project_cache, delphi_cache, new_unit, false);
    } else if has_name(list.entries, new_unit.name) {
        assert(next.contents(path) == Some(bytes));
        lemma_clause_is_read_alike(
            tree,
            next,
            project_files(tree, paths),
            path,
            bytes,
            Seq::empty(),
        );
        assert(settled(next, path, project_cache, delphi_cache, new_unit, false));
        lemma_settled_file_rests(next, path, project_cache, delphi_cache, new_unit, false);
    } else {
        assert(clause_of(tree, path) == Some(list));
        assert(next.contents(path) == Some(bytes));
        lemma_clause_is_read_alike(
            tree,
            next,
            project_files(tree, paths),
            path,
            bytes,
            Seq::empty(),
        );
        assert(same_files(tree, next));
        lemma_idle_file_rests(
            tree,
            next,
            path,
            project_cache,
            delphi_cache,
            new_unit,
            false,
            log,
        );
    }
}

} // verus!
