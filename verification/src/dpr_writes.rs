use vstd::prelude::*;

use crate::dpr_closure::{fix_ctx, intro_ctx, introduced, missing_units, roots_from, RootsState};
use crate::dpr_edit::{
    edited_file, fixed_file, has_name, inserted, inserts_from, lower_names, placed, repaired,
    summary_with, update_from, updated_file, with_introduced, Cursor, EditLog, SummaryModel,
    WriteModel,
};
use crate::dpr_insert::{entry_text, with_new_entry};
use crate::dpr_parse::{dpr_uses, ListModel};
use crate::dpr_resolve::{option_cache, project_map_of, MapModel};
use crate::dpr_walk::{introducer_from, walk, walk_ctx, walk_start};
use crate::source_tree::SourceTree;
use crate::text::utf8;
use crate::unit_cache::{UnitCache, UnitModel};

verus! {

/// The writes `after` are the writes `before` and, behind them, writes
/// that all go to the file `path`.
pub open spec fn grown_for(before: Seq<WriteModel>, after: Seq<WriteModel>, path: Seq<char>) -> bool {
    &&& before.len() <= after.len()
    &&& forall|i: int| 0 <= i < before.len() ==> after[i] == before[i]
    &&& forall|i: int| before.len() <= i < after.len() ==> (#[trigger] after[i]).path == path
}

/// The writes `after` are the writes `before` and, behind them, writes
/// that all go to one of the files `paths`.
pub open spec fn grown_among(
    before: Seq<WriteModel>,
    after: Seq<WriteModel>,
    paths: Seq<Seq<char>>,
) -> bool {
    &&& before.len() <= after.len()
    &&& forall|i: int| 0 <= i < before.len() ==> after[i] == before[i]
    &&& forall|i: int|
        before.len() <= i < after.len() ==> paths.contains((#[trigger] after[i]).path)
}

/// Putting units into the clause of a project file writes that file and
/// no other.
pub proof fn lemma_inserts_write_the_file(
    tree: SourceTree,
    path: Seq<char>,
    units: Seq<UnitModel>,
    j: int,
    skip_declared: bool,
    cur: Cursor,
    log: EditLog,
)
    requires
        0 <= j,
    ensures
        grown_for(
            log.writes,
            inserts_from(tree, path, units, j, skip_declared, cur, log).log.writes,
            path,
        ),
    decreases units.len() - j,
{
    if j < units.len() {
        if skip_declared && has_name(cur.list.entries, units[j].name) {
            lemma_inserts_write_the_file(tree, path, units, j + 1, skip_declared, cur, log);
        } else {
            let step = inserted(tree, path, units[j], cur, log);
            if !step.failed {
                lemma_inserts_write_the_file(
                    tree,
                    path,
                    units,
                    j + 1,
                    skip_declared,
                    step.cursor,
                    step.log,
                );
            }
        }
    }
}

/// The work on one project file writes that file and no other: no unit
/// file and no include file is ever written.
pub proof fn lemma_edit_writes_the_file(
    tree: SourceTree,
    path: Seq<char>,
    project_cache: UnitCache,
    delphi_cache: Option<&UnitCache>,
    new_unit: UnitModel,
    add_introduced: bool,
    log: EditLog,
)
    ensures
        grown_for(
            log.writes,
            updated_file(
                tree,
                path,
                project_cache,
                delphi_cache,
                new_unit,
                add_introduced,
                log,
            ).log.writes,
            path,
        ),
{
    reveal(updated_file);
    match tree.contents(path) {
        None => {},
        Some(bytes) => {
            let read = dpr_uses(tree, path, bytes, log.warnings);
            match read.list {
                None => {},
                Some(list) => {
                    lemma_parsed_edit_writes_the_file(
                        tree,
                        path,
                        bytes,
                        list,
                        project_cache,
                        delphi_cache,
                        new_unit,
                        add_introduced,
                        EditLog { warnings: read.warnings, writes: log.writes },
                    );
                },
            }
        },
    }
}

proof fn lemma_introduced_write_the_file(
    tree: SourceTree,
    path: Seq<char>,
    project_cache: UnitCache,
    delphi_cache: Option<&UnitCache>,
    map: MapModel,
    new_unit: UnitModel,
    cur: Cursor,
    log: EditLog,
)
    ensures
        grown_for(
            log.writes,
            with_introduced(tree, path, project_cache, delphi_cache, map, new_unit, cur, log).log.writes,
            path,
        ),
{
    reveal(with_introduced);
    let found = introduced(
        intro_ctx(tree, project_cache, delphi_cache, map, new_unit),
        log.warnings,
    );
    lemma_inserts_write_the_file(
        tree,
        path,
        found.found,
        0,
        true,
        Cursor { bytes: cur.bytes, list: cur.list, last: Some(new_unit.name), updated: cur.updated },
        EditLog { warnings: found.warnings, writes: log.writes },
    );
}

proof fn lemma_parsed_edit_writes_the_file(
    tree: SourceTree,
    path: Seq<char>,
    bytes: Seq<u8>,
    list: ListModel,
    project_cache: UnitCache,
    delphi_cache: Option<&UnitCache>,
    new_unit: UnitModel,
    add_introduced: bool,
    log: EditLog,
)
    ensures
        grown_for(
            log.writes,
            edited_file(
                tree,
                path,
                bytes,
                list,
                project_cache,
                delphi_cache,
                new_unit,
                add_introduced,
                log,
            ).log.writes,
            path,
        ),
{
    reveal(edited_file);
    reveal(placed);
    let mapped = project_map_of(
        tree,
        path,
        list.entries,
        project_cache@,
        option_cache(delphi_cache),
        log.warnings,
    );
    let start = Cursor { bytes, list, last: None, updated: false };
    if has_name(list.entries, new_unit.name) {
        if add_introduced {
            lemma_introduced_write_the_file(
                tree,
                path,
                project_cache,
                delphi_cache,
                mapped.map,
                new_unit,
                start,
                EditLog { warnings: mapped.warnings, writes: log.writes },
            );
        }
    } else if mapped.map.keys.len() != 0 {
        let end = walk(
            walk_ctx(tree, project_cache, delphi_cache, mapped.map, new_unit.name),
            0,
            walk_start(mapped.map, mapped.warnings),
        );
        let walked = EditLog { warnings: end.warnings, writes: log.writes };
        let anchor = introducer_from(
            list.entries,
            0,
            mapped.map,
            end.paths,
            end.direct,
        );
        let bytes2 = with_new_entry(
            bytes,
            list,
            utf8(
                entry_text(new_unit.name, new_unit.path, path, list),
            ),
            anchor,
        );
        let writes = walked.writes.push(WriteModel { path, bytes: bytes2 });
        let read = dpr_uses(tree, path, bytes2, walked.warnings);
        match read.list {
            None => {},
            Some(list2) => {
                if add_introduced {
                    lemma_introduced_write_the_file(
                        tree,
                        path,
                        project_cache,
                        delphi_cache,
                        mapped.map,
                        new_unit,
                        Cursor {
                            bytes: bytes2,
                            list: list2,
                            last: Some(new_unit.name),
                            updated: true,
                        },
                        EditLog { warnings: read.warnings, writes },
                    );
                }
            },
        }
    }
}

/// A run writes the project files that it was given and no other file.
pub proof fn lemma_run_writes_project_files(
    tree: SourceTree,
    paths: Seq<Seq<char>>,
    k: int,
    project_cache: UnitCache,
    delphi_cache: Option<&UnitCache>,
    new_unit: UnitModel,
    add_introduced: bool,
    summary: SummaryModel,
)
    requires
        0 <= k,
    ensures
        grown_among(
            summary.writes,
            update_from(
                tree,
                paths,
                k,
                project_cache,
                delphi_cache,
                new_unit,
                add_introduced,
                summary,
            ).writes,
            paths,
        ),
    decreases paths.len() - k,
{
    if k < paths.len() {
        let log = EditLog { warnings: summary.warnings, writes: summary.writes };
        let end = updated_file(
            tree,
            paths[k],
            project_cache,
            delphi_cache,
            new_unit,
            add_introduced,
            log,
        );
        lemma_edit_writes_the_file(
            tree,
            paths[k],
            project_cache,
            delphi_cache,
            new_unit,
            add_introduced,
            log,
        );
        let next = summary_with(summary, paths[k], end);
        lemma_run_writes_project_files(
            tree,
            paths,
            k + 1,
            project_cache,
            delphi_cache,
            new_unit,
            add_introduced,
            next,
        );
        let last = update_from(
            tree,
            paths,
            k + 1,
            project_cache,
            delphi_cache,
            new_unit,
            add_introduced,
            next,
        ).writes;
        assert forall|i: int| summary.writes.len() <= i < last.len() implies paths.contains(
            (#[trigger] last[i]).path,
        ) by {
            if i < next.writes.len() {
                assert(last[i] == next.writes[i]);
                assert(next.writes[i].path == paths[k]);
            }
        }
    }
}

/// A repair writes the project file that it was given and no other file.
pub proof fn lemma_repair_writes_the_file(
    tree: SourceTree,
    dpr_path: Seq<char>,
    project_cache: UnitCache,
    delphi_cache: Option<&UnitCache>,
)
    ensures
        grown_for(
            Seq::empty(),
            fixed_file(tree, dpr_path, project_cache, delphi_cache).writes,
            tree.canonical(dpr_path),
        ),
{
    reveal(repaired);
    let path = tree.canonical(dpr_path);
    match tree.contents(path) {
        None => {},
        Some(bytes) => {
            let read = dpr_uses(tree, path, bytes, Seq::empty());
            match read.list {
                None => {},
                Some(list) => {
                    let mapped = project_map_of(
                        tree,
                        path,
                        list.entries,
                        project_cache@,
                        option_cache(delphi_cache),
                        read.warnings,
                    );
                    let roots = roots_from(
                        tree,
                        path,
                        list.entries,
                        0,
                        mapped.map,
                        project_cache@,
                        option_cache(delphi_cache),
                        RootsState { roots: Seq::empty(), warnings: mapped.warnings },
                    );
                    let missing = missing_units(
                        fix_ctx(
                            tree,
                            project_cache,
                            delphi_cache,
                            lower_names(list.entries),
                            roots.roots,
                        ),
                        roots.roots,
                        roots.warnings,
                    );
                    lemma_inserts_write_the_file(
                        tree,
                        path,
                        missing.found,
                        0,
                        false,
                        Cursor { bytes, list, last: None, updated: false },
                        EditLog { warnings: missing.warnings, writes: Seq::empty() },
                    );
                },
            }
        },
    }
}

} // verus!
