use vstd::prelude::*;

use crate::dpr_alike::{
    intro_cached, lemma_intro_walk_alike, lemma_project_map_alike, lemma_project_map_sound,
    same_files, same_intro,
};
use crate::dpr_apart::{agrees_off, clause_avoids, lemma_clause_is_read_alike};
use crate::dpr_closure::{intro_ctx, introduced, lemma_intro_ctx_knows, ClosureState};
use crate::dpr_edit::{
    edited_file, empty_summary, has_name, inserts_from, placed, update_from, updated_file,
    with_introduced, Cursor, EditLog, FileOutcome, SummaryModel, WriteModel,
};
use crate::dpr_insert::{entry_text, with_new_entry};
use crate::dpr_parse::{dpr_uses, ListModel};
use crate::dpr_rerun::{
    clause_of, clauses_avoid_project_files, file_end_at, holds_introduced, holds_run,
    lemma_failures_grow, lemma_idle_file_rests, lemma_run_goes_on,
    lemma_run_over_resting_files_changes_nothing, lemma_settled_file_rests, log_at, placement,
    project_files, reads_back, rests, settled, units_cached,
};
use crate::dpr_resolve::{option_cache, option_cache_wf, project_map_of, MapModel, MapState};
use crate::dpr_roundtrip::{
    identifier, lemma_entry_is_read_back, lemma_list_ignores_warnings, lemma_new_name_stands_once,
    new_content, new_entry_index, shown_path,
};
use crate::dpr_steps::{
    cursor_behind, lemma_introduced_are_read_back, lemma_steps_track_writes, steps_read_back,
};
use crate::dpr_walk::dep_resolution;
use crate::source_tree::SourceTree;
use crate::text::{ascii_text, utf8};
use crate::unit_cache::{UnitCache, UnitModel};

verus! {

/// The map of the declared units of a clause, as a run builds it that
/// has warned of nothing.
pub open spec fn clause_map(
    tree: SourceTree,
    path: Seq<char>,
    list: ListModel,
    project_cache: UnitCache,
    delphi_cache: Option<&UnitCache>,
) -> MapModel {
    project_map_of(
        tree,
        path,
        list.entries,
        project_cache@,
        option_cache(delphi_cache),
        Seq::empty(),
    ).map
}

/// Whether the units that the new unit brings with it can be read back
/// when they are put in behind the cursor `cur`.
pub open spec fn introduced_read_back(
    tree: SourceTree,
    path: Seq<char>,
    project_cache: UnitCache,
    delphi_cache: Option<&UnitCache>,
    map: MapModel,
    new_unit: UnitModel,
    cur: Cursor,
    log: EditLog,
) -> bool {
    let found = introduced(
        intro_ctx(tree, project_cache, delphi_cache, map, new_unit),
        log.warnings,
    );
    steps_read_back(
        tree,
        path,
        found.found,
        0,
        cursor_behind(cur, new_unit),
        EditLog { warnings: found.warnings, writes: log.writes },
    )
}

/// Whether everything that a run with the log `log` puts into the
/// project file `path` can be read back: the new unit, where the clause
/// lacks it, and each unit that the new unit brings with it.
pub open spec fn all_read_back(
    tree: SourceTree,
    path: Seq<char>,
    project_cache: UnitCache,
    delphi_cache: Option<&UnitCache>,
    new_unit: UnitModel,
    log: EditLog,
) -> bool {
    let bytes = tree.contents(path).unwrap();
    let read = dpr_uses(tree, path, bytes, log.warnings);
    let list = read.list.unwrap();
    let mapped = project_map_of(
        tree,
        path,
        list.entries,
        project_cache@,
        option_cache(delphi_cache),
        read.warnings,
    );
    if has_name(list.entries, new_unit.name) {
        introduced_read_back(
            tree,
            path,
            project_cache,
            delphi_cache,
            mapped.map,
            new_unit,
            Cursor { bytes, list, last: None, updated: false },
            EditLog { warnings: mapped.warnings, writes: log.writes },
        )
    } else {
        let place = placement(
            tree,
            path,
            list,
            project_cache,
            delphi_cache,
            new_unit,
            read.warnings,
        );
        let new_bytes = with_new_entry(
            bytes,
            list,
            utf8(entry_text(new_unit.name, new_unit.path, path, list)),
            place.anchor,
        );
        let again = dpr_uses(tree, path, new_bytes, place.warnings);
        &&& reads_back(tree, path, project_cache, delphi_cache, new_unit, log)
        &&& introduced_read_back(
            tree,
            path,
            project_cache,
            delphi_cache,
            mapped.map,
            new_unit,
            Cursor {
                bytes: new_bytes,
                list: again.list.unwrap(),
                last: Some(new_unit.name),
                updated: true,
            },
            EditLog {
                warnings: again.warnings,
                writes: log.writes.push(WriteModel { path, bytes: new_bytes }),
            },
        )
    }
}

/// Whether the maps of the declared units of the project file `path`,
/// as the two trees hold it, lead each used name to the same file.
pub open spec fn maps_resolve_alike(
    tree: SourceTree,
    next: SourceTree,
    path: Seq<char>,
    project_cache: UnitCache,
    delphi_cache: Option<&UnitCache>,
) -> bool {
    forall|dep: Seq<char>, from: Seq<char>, warnings: Seq<Seq<char>>|
        (#[trigger] dep_resolution(
            clause_map(tree, path, clause_of(tree, path).unwrap(), project_cache, delphi_cache),
            project_cache@,
            option_cache(delphi_cache),
            dep,
            from,
            warnings,
        )).path == dep_resolution(
            clause_map(next, path, clause_of(next, path).unwrap(), project_cache, delphi_cache),
            project_cache@,
            option_cache(delphi_cache),
            dep,
            from,
            warnings,
        ).path
}

/// Whether the caches hold every unit that the walk from the new unit
/// can meet, so that the walk reads no file.
pub open spec fn introduced_cached(
    tree: SourceTree,
    path: Seq<char>,
    project_cache: UnitCache,
    delphi_cache: Option<&UnitCache>,
    new_unit: UnitModel,
) -> bool {
    clause_of(tree, path) matches Some(list) && intro_cached(
        intro_ctx(
            tree,
            project_cache,
            delphi_cache,
            clause_map(tree, path, list, project_cache, delphi_cache),
            new_unit,
        ),
    )
}

/// A text whose clause holds the new unit and every unit that the new
/// unit brings with it is settled in the next tree.
pub proof fn lemma_text_is_settled_in_next(
    tree: SourceTree,
    next: SourceTree,
    changed: Set<Seq<char>>,
    path: Seq<char>,
    text: Seq<u8>,
    list: ListModel,
    project_cache: UnitCache,
    delphi_cache: Option<&UnitCache>,
    new_unit: UnitModel,
    warnings: Seq<Seq<char>>,
)
    requires
        project_cache.wf(),
        option_cache_wf(delphi_cache),
        agrees_off(tree, next, changed),
        clause_avoids(tree, path, text, changed),
        next.contents(path) == Some(text),
        dpr_uses(tree, path, text, Seq::empty()).list == Some(list),
        has_name(list.entries, new_unit.name),
        clause_of(tree, path) is Some,
        introduced_cached(tree, path, project_cache, delphi_cache, new_unit),
        maps_resolve_alike(tree, next, path, project_cache, delphi_cache),
        ({
            let found = introduced(
                intro_ctx(
                    tree,
                    project_cache,
                    delphi_cache,
                    clause_map(
                        tree,
                        path,
                        clause_of(tree, path).unwrap(),
                        project_cache,
                        delphi_cache,
                    ),
                    new_unit,
                ),
                warnings,
            );
            forall|k: int|
                0 <= k < found.found.len() ==> has_name(
                    list.entries,
                    (#[trigger] found.found[k]).name,
                )
        }),
    ensures
        settled(next, path, project_cache, delphi_cache, new_unit, true),
{
    let project = project_cache@;
    let delphi = option_cache(delphi_cache);
    let old_list = clause_of(tree, path).unwrap();
    let map1 = clause_map(tree, path, old_list, project_cache, delphi_cache);
    let no_map = MapModel { keys: Seq::empty(), values: Seq::empty() };
    lemma_clause_is_read_alike(tree, next, changed, path, text, Seq::empty());
    assert(clause_of(next, path) == Some(list));
    assert(same_files(tree, next));
    lemma_project_map_sound(
        tree,
        path,
        old_list.entries,
        0,
        project,
        delphi,
        MapState { map: no_map, warnings: Seq::empty() },
    );
    let a = intro_ctx(tree, project_cache, delphi_cache, map1, new_unit);
    lemma_intro_ctx_knows(tree, project_cache, delphi_cache, map1, new_unit);
    let found1 = introduced(a, warnings);
    assert forall|later: Seq<Seq<char>>| #[trigger]
        holds_introduced(next, path, list, project_cache, delphi_cache, new_unit, later) by {
        let mapped2 = project_map_of(next, path, list.entries, project, delphi, later);
        lemma_project_map_alike(
            next,
            next,
            path,
            list.entries,
            0,
            project,
            delphi,
            MapState { map: no_map, warnings: later },
            MapState { map: no_map, warnings: Seq::empty() },
        );
        lemma_project_map_sound(
            next,
            path,
            list.entries,
            0,
            project,
            delphi,
            MapState { map: no_map, warnings: later },
        );
        let b = intro_ctx(next, project_cache, delphi_cache, mapped2.map, new_unit);
        lemma_intro_ctx_knows(next, project_cache, delphi_cache, mapped2.map, new_unit);
        assert(b.map == clause_map(next, path, list, project_cache, delphi_cache));
        assert(same_intro(a, b));
        let start1 = ClosureState {
            seen: seq![a.root],
            names: Seq::empty(),
            found: Seq::empty(),
            warnings,
        };
        let start2 = ClosureState {
            seen: seq![b.root],
            names: Seq::empty(),
            found: Seq::empty(),
            warnings: mapped2.warnings,
        };
        lemma_intro_walk_alike(a, b, 0, start1, start2);
        let found2 = introduced(b, mapped2.warnings);
        assert(found2.found == found1.found);
    }
}

/// Whether nothing stands in the way of the second run for the project
/// file `k` of a run: where the first run has changed the file, or its
/// clause held the new unit, everything that the run puts in can be read
/// back, the caches hold the units that the walk from the new unit
/// meets, and the declared units lead each used name to the same file
/// before and after; where the run has left a file alone that lacks the
/// new unit, the caches hold the units that the walk from its declared
/// units meets.
pub open spec fn file_is_plain(
    tree: SourceTree,
    next: SourceTree,
    paths: Seq<Seq<char>>,
    k: int,
    project_cache: UnitCache,
    delphi_cache: Option<&UnitCache>,
    new_unit: UnitModel,
) -> bool {
    let path = paths[k];
    let end = file_end_at(tree, paths, k, project_cache, delphi_cache, new_unit, true);
    let log = log_at(tree, paths, k, project_cache, delphi_cache, new_unit, true);
    if end.outcome == FileOutcome::Updated || (clause_of(tree, path) is Some && has_name(
        clause_of(tree, path).unwrap().entries,
        new_unit.name,
    )) {
        &&& all_read_back(tree, path, project_cache, delphi_cache, new_unit, log)
        &&& introduced_cached(tree, path, project_cache, delphi_cache, new_unit)
        &&& maps_resolve_alike(tree, next, path, project_cache, delphi_cache)
    } else {
        units_cached(tree, path, project_cache, delphi_cache, new_unit)
    }
}

/// A project file that a run with the units that the new unit brings
/// with it has changed, or whose clause held the new unit, is settled in
/// the tree that holds what the run has left.
proof fn lemma_edited_file_settles(
    tree: SourceTree,
    next: SourceTree,
    changed: Set<Seq<char>>,
    path: Seq<char>,
    project_cache: UnitCache,
    delphi_cache: Option<&UnitCache>,
    new_unit: UnitModel,
    name: Seq<u8>,
    log: EditLog,
)
    requires
        project_cache.wf(),
        option_cache_wf(delphi_cache),
        agrees_off(tree, next, changed),
        new_unit.name == ascii_text(name),
        identifier(name),
        tree.contents(path) is Some,
        dpr_uses(tree, path, tree.contents(path).unwrap(), log.warnings).list is Some,
        ({
            let end = updated_file(
                tree,
                path,
                project_cache,
                delphi_cache,
                new_unit,
                true,
                log,
            );
            &&& end.outcome != FileOutcome::Failed
            &&& end.outcome == FileOutcome::Updated || has_name(
                clause_of(tree, path).unwrap().entries,
                new_unit.name,
            )
            &&& next.contents(path) == if end.outcome == FileOutcome::Updated {
                Some(end.log.writes.last().bytes)
            } else {
                tree.contents(path)
            }
        }),
        clause_avoids(tree, path, next.contents(path).unwrap(), changed),
        all_read_back(tree, path, project_cache, delphi_cache, new_unit, log),
        introduced_cached(tree, path, project_cache, delphi_cache, new_unit),
        maps_resolve_alike(tree, next, path, project_cache, delphi_cache),
    ensures
        settled(next, path, project_cache, delphi_cache, new_unit, true),
{
    let project = project_cache@;
    let delphi = option_cache(delphi_cache);
    let bytes = tree.contents(path).unwrap();
    let read = dpr_uses(tree, path, bytes, log.warnings);
    let list = read.list.unwrap();
    lemma_list_ignores_warnings(tree, path, bytes, log.warnings, Seq::empty());
    assert(clause_of(tree, path) == Some(list));
    let no_map = MapModel { keys: Seq::empty(), values: Seq::empty() };
    let mapped = project_map_of(tree, path, list.entries, project, delphi, read.warnings);
    assert(same_files(tree, tree));
    lemma_project_map_alike(
        tree,
        tree,
        path,
        list.entries,
        0,
        project,
        delphi,
        MapState { map: no_map, warnings: read.warnings },
        MapState { map: no_map, warnings: Seq::empty() },
    );
    assert(mapped.map == clause_map(tree, path, list, project_cache, delphi_cache));
    let end = updated_file(tree, path, project_cache, delphi_cache, new_unit, true, log);
    if has_name(list.entries, new_unit.name) {
        let start = Cursor { bytes, list, last: None, updated: false };
        let start_log = EditLog { warnings: mapped.warnings, writes: log.writes };
        lemma_introduced_are_read_back(
            tree,
            path,
            project_cache,
            delphi_cache,
            mapped.map,
            new_unit,
            start,
            start_log,
            log.warnings,
        );
        assert(end == with_introduced(
            tree,
            path,
            project_cache,
            delphi_cache,
            mapped.map,
            new_unit,
            start,
            start_log,
        )) by {
            reveal(updated_file);
            reveal(edited_file);
        }
        let found = introduced(
            intro_ctx(tree, project_cache, delphi_cache, mapped.map, new_unit),
            start_log.warnings,
        );
        let fin = inserts_from(
            tree,
            path,
            found.found,
            0,
            true,
            cursor_behind(start, new_unit),
            EditLog { warnings: found.warnings, writes: start_log.writes },
        );
        assert(next.contents(path) == Some(fin.cursor.bytes));
        lemma_text_is_settled_in_next(
            tree,
            next,
            changed,
            path,
            fin.cursor.bytes,
            fin.cursor.list,
            project_cache,
            delphi_cache,
            new_unit,
            start_log.warnings,
        );
    } else {
        let place = placement(
            tree,
            path,
            list,
            project_cache,
            delphi_cache,
            new_unit,
            read.warnings,
        );
        let text = utf8(entry_text(new_unit.name, new_unit.path, path, list));
        let new_bytes = with_new_entry(bytes, list, text, place.anchor);
        let again = dpr_uses(tree, path, new_bytes, place.warnings);
        lemma_entry_is_read_back(
            tree,
            path,
            bytes,
            list,
            new_unit,
            place.anchor,
            place.warnings,
            name,
            log.warnings,
        );
        let new_list = again.list.unwrap();
        lemma_new_name_stands_once(
            list.entries,
            new_list.entries,
            new_entry_index(bytes, list, text, place.anchor),
            new_content(name, shown_path(new_unit, path, list)),
        );
        let cur = Cursor {
            bytes: new_bytes,
            list: new_list,
            last: Some(new_unit.name),
            updated: true,
        };
        let writes = log.writes.push(WriteModel { path, bytes: new_bytes });
        let after = EditLog { warnings: again.warnings, writes };
        assert(writes.last().bytes == new_bytes);
        lemma_introduced_are_read_back(
            tree,
            path,
            project_cache,
            delphi_cache,
            mapped.map,
            new_unit,
            cur,
            after,
            place.warnings,
        );
        assert(end == with_introduced(
            tree,
            path,
            project_cache,
            delphi_cache,
            mapped.map,
            new_unit,
            cur,
            after,
        )) by {
            reveal(updated_file);
            reveal(edited_file);
            reveal(placed);
        }
        let found = introduced(
            intro_ctx(tree, project_cache, delphi_cache, mapped.map, new_unit),
            after.warnings,
        );
        let fin = inserts_from(
            tree,
            path,
            found.found,
            0,
            true,
            cursor_behind(cur, new_unit),
            EditLog { warnings: found.warnings, writes: after.writes },
        );
        assert(fin.cursor.updated) by {
            lemma_steps_track_writes(
                tree,
                path,
                found.found,
                0,
                true,
                cursor_behind(cur, new_unit),
                EditLog { warnings: found.warnings, writes: after.writes },
            );
        }
        assert(next.contents(path) == Some(fin.cursor.bytes));
        lemma_text_is_settled_in_next(
            tree,
            next,
            changed,
            path,
            fin.cursor.bytes,
            fin.cursor.list,
            project_cache,
            delphi_cache,
            new_unit,
            after.warnings,
        );
    }
}

/// A second run changes nothing, with the units that the new unit
/// brings with it: it looks at every project file, writes nothing and
/// counts no file as changed. The first run fails on no file; the
/// second works on a tree that holds what the first has left.
///
/// This holds where the name of the new unit is an identifier; where
/// everything that the first run puts into a file can be read back;
/// where no project file of the run is an include file of the clause of
/// another; where the caches hold the units that the walks meet; and
/// where the declared units of a file lead each used name to the same
/// file before and after the run.
pub proof fn lemma_second_run_with_introduced_changes_nothing(
    tree: SourceTree,
    next: SourceTree,
    paths: Seq<Seq<char>>,
    project_cache: UnitCache,
    delphi_cache: Option<&UnitCache>,
    new_unit: UnitModel,
    name: Seq<u8>,
    summary: SummaryModel,
)
    requires
        update_from(
            tree,
            paths,
            0,
            project_cache,
            delphi_cache,
            new_unit,
            true,
            empty_summary(),
        ).failures == 0,
        holds_run(tree, next, paths, project_cache, delphi_cache, new_unit, true),
        clauses_avoid_project_files(tree, next, paths),
        project_cache.wf(),
        option_cache_wf(delphi_cache),
        new_unit.name == ascii_text(name),
        identifier(name),
        forall|k: int|
            0 <= k < paths.len() ==> file_is_plain(
                tree,
                next,
                paths,
                k,
                project_cache,
                delphi_cache,
                new_unit,
            ),
    ensures
        ({
            let end = update_from(
                next,
                paths,
                0,
                project_cache,
                delphi_cache,
                new_unit,
                true,
                summary,
            );
            &&& end.writes == summary.writes
            &&& end.updated == summary.updated
            &&& end.updated_paths == summary.updated_paths
            &&& end.scanned == summary.scanned + paths.len()
        }),
{
    let n = paths.len() as int;
    let changed = project_files(tree, paths);
    lemma_run_goes_on(tree, paths, n, project_cache, delphi_cache, new_unit, true);
    assert forall|k: int| 0 <= k < paths.len() implies rests(
        next,
        #[trigger] paths[k],
        project_cache,
        delphi_cache,
        new_unit,
        true,
    ) by {
        let path = paths[k];
        let log = log_at(tree, paths, k, project_cache, delphi_cache, new_unit, true);
        let end = file_end_at(tree, paths, k, project_cache, delphi_cache, new_unit, true);
        lemma_failures_grow(tree, paths, k, k + 1, project_cache, delphi_cache, new_unit, true);
        lemma_failures_grow(tree, paths, k + 1, n, project_cache, delphi_cache, new_unit, true);
        lemma_failures_grow(tree, paths, 0, k, project_cache, delphi_cache, new_unit, true);
        assert(end.outcome != FileOutcome::Failed);
        assert(file_is_plain(tree, next, paths, k, project_cache, delphi_cache, new_unit));
        assert(tree.contents(path) is Some && dpr_uses(
            tree,
            path,
            tree.contents(path).unwrap(),
            log.warnings,
        ).list is Some) by {
            reveal(updated_file);
        }
        let bytes = tree.contents(path).unwrap();
        lemma_list_ignores_warnings(tree, path, bytes, log.warnings, Seq::empty());
        assert(next.contents(path) is Some);
        if end.outcome == FileOutcome::Updated || has_name(
            clause_of(tree, path).unwrap().entries,
            new_unit.name,
        ) {
            lemma_edited_file_settles(
                tree,
                next,
                changed,
                path,
                project_cache,
                delphi_cache,
                new_unit,
                name,
                log,
            );
            lemma_settled_file_rests(next, path, project_cache, delphi_cache, new_unit, true);
        } else {
            lemma_clause_is_read_alike(tree, next, changed, path, bytes, Seq::empty());
            assert(same_files(tree, next));
            lemma_idle_file_rests(
                tree,
                next,
                path,
                project_cache,
                delphi_cache,
                new_unit,
                true,
                log,
            );
        }
    }
    lemma_run_over_resting_files_changes_nothing(
        next,
        paths,
        0,
        project_cache,
        delphi_cache,
        new_unit,
        true,
        summary,
    );
}

} // verus!
