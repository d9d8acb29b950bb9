use vstd::prelude::*;

use crate::dpr_closure::{intro_ctx, introduced};
use crate::dpr_edit::{
    anchor_of, has_name, inserted, inserts_from, outcome_of, with_introduced, Cursor, EditLog,
};
use crate::dpr_insert::entry_text;
use crate::dpr_parse::dpr_uses;
use crate::dpr_resolve::MapModel;
use crate::dpr_roundtrip::{
    identifier, lemma_list_ignores_warnings, lemma_new_name_stands_once, lemma_old_names_stay,
    lemma_step_is_read_back, new_content, new_entry_index, plain_splice, shown_path,
};
use crate::pas_lex::QUOTE;
use crate::source_tree::SourceTree;
use crate::text::{ascii_text, utf8};
use crate::unit_cache::{UnitCache, UnitModel};

verus! {

/// Whether the text is an identifier: a letter or an underscore, then
/// letters, digits, underscores and dots.
pub open spec fn identifier_text(text: Seq<char>) -> bool {
    exists|name: Seq<u8>| identifier(name) && text == ascii_text(name)
}

/// Whether each of the units `units[j..]` that is put into the clause
/// can be read back: its name is an identifier, its shown path holds no
/// quote, and nothing stands in the way of reading its entry back from
/// the place where it is put.
pub open spec fn steps_read_back(
    tree: SourceTree,
    path: Seq<char>,
    units: Seq<UnitModel>,
    j: int,
    cur: Cursor,
    log: EditLog,
) -> bool
    decreases units.len() - j,
{
    if j < 0 || j >= units.len() {
        true
    } else if has_name(cur.list.entries, units[j].name) {
        steps_read_back(tree, path, units, j + 1, cur, log)
    } else {
        let step = inserted(tree, path, units[j], cur, log);
        &&& identifier_text(units[j].name)
        &&& !utf8(shown_path(units[j], path, cur.list)).contains(QUOTE)
        &&& plain_splice(
            tree,
            path,
            cur.bytes,
            cur.list,
            utf8(entry_text(units[j].name, units[j].path, path, cur.list)),
            anchor_of(cur.list.entries, cur.last),
            log.warnings,
        )
        &&& steps_read_back(tree, path, units, j + 1, step.cursor, step.log)
    }
}

/// Units that are put into a clause one after the other are read back:
/// no step fails, the clause at the end holds every name that it held
/// and the name of each of the units, and it is the clause of the text
/// at the end.
pub proof fn lemma_steps_are_read_back(
    tree: SourceTree,
    path: Seq<char>,
    units: Seq<UnitModel>,
    j: int,
    cur: Cursor,
    log: EditLog,
    before: Seq<Seq<char>>,
)
    requires
        0 <= j,
        dpr_uses(tree, path, cur.bytes, before).list == Some(cur.list),
        steps_read_back(tree, path, units, j, cur, log),
    ensures
        ({
            let end = inserts_from(tree, path, units, j, true, cur, log);
            &&& !end.failed
            &&& forall|name: Seq<char>| #[trigger]
                has_name(cur.list.entries, name) ==> has_name(end.cursor.list.entries, name)
            &&& forall|k: int|
                j <= k < units.len() ==> has_name(
                    end.cursor.list.entries,
                    (#[trigger] units[k]).name,
                )
            &&& dpr_uses(tree, path, end.cursor.bytes, Seq::empty()).list == Some(end.cursor.list)
        }),
    decreases units.len() - j,
{
    let end = inserts_from(tree, path, units, j, true, cur, log);
    if j >= units.len() {
        lemma_list_ignores_warnings(tree, path, cur.bytes, before, Seq::empty());
    } else if has_name(cur.list.entries, units[j].name) {
        lemma_steps_are_read_back(tree, path, units, j + 1, cur, log, before);
    } else {
        let unit = units[j];
        let name = choose|name: Seq<u8>| identifier(name) && unit.name == ascii_text(name);
        let step = inserted(tree, path, unit, cur, log);
        let text = utf8(entry_text(unit.name, unit.path, path, cur.list));
        let at = new_entry_index(cur.bytes, cur.list, text, anchor_of(cur.list.entries, cur.last));
        let new = new_content(name, shown_path(unit, path, cur.list));
        lemma_step_is_read_back(tree, path, unit, cur, log, name, before);
        lemma_new_name_stands_once(cur.list.entries, step.cursor.list.entries, at, new);
        lemma_steps_are_read_back(tree, path, units, j + 1, step.cursor, step.log, log.warnings);
        assert forall|old_name: Seq<char>| #[trigger]
            has_name(cur.list.entries, old_name) implies has_name(
            end.cursor.list.entries,
            old_name,
        ) by {
            lemma_old_names_stay(cur.list.entries, step.cursor.list.entries, at, new, old_name);
        }
        assert(has_name(step.cursor.list.entries, unit.name));
    }
}

/// Whether the text of the cursor is the text that was written last, if
/// anything was put in.
pub open spec fn tracks(cur: Cursor, log: EditLog) -> bool {
    cur.updated ==> log.writes.len() > 0 && log.writes.last().bytes == cur.bytes
}

/// The text at the end of the steps is the text that was written last;
/// where nothing was put in, nothing was written and the text is as it
/// was.
pub proof fn lemma_steps_track_writes(
    tree: SourceTree,
    path: Seq<char>,
    units: Seq<UnitModel>,
    j: int,
    skip_declared: bool,
    cur: Cursor,
    log: EditLog,
)
    requires
        0 <= j,
        tracks(cur, log),
    ensures
        ({
            let end = inserts_from(tree, path, units, j, skip_declared, cur, log);
            !end.failed ==> {
                &&& tracks(end.cursor, end.log)
                &&& !end.cursor.updated ==> end.cursor.bytes == cur.bytes && end.log.writes
                    == log.writes && !cur.updated
            }
        }),
    decreases units.len() - j,
{
    if j < units.len() {
        if skip_declared && has_name(cur.list.entries, units[j].name) {
            lemma_steps_track_writes(tree, path, units, j + 1, skip_declared, cur, log);
        } else {
            let step = inserted(tree, path, units[j], cur, log);
            if !step.failed {
                assert(step.log.writes.last().bytes == step.cursor.bytes);
                lemma_steps_track_writes(
                    tree,
                    path,
                    units,
                    j + 1,
                    skip_declared,
                    step.cursor,
                    step.log,
                );
            }
        }
    }
}

/// The cursor with which the units that the new unit brings with it are
/// put in.
pub open spec fn cursor_behind(cur: Cursor, new_unit: UnitModel) -> Cursor {
    Cursor { bytes: cur.bytes, list: cur.list, last: Some(new_unit.name), updated: cur.updated }
}

/// The units that the new unit brings with it are read back: where each
/// step can be read back, the work does not fail, and the clause at its
/// end holds the new unit and each of those units, and is the clause of
/// the text that the file has at the end.
pub proof fn lemma_introduced_are_read_back(
    tree: SourceTree,
    path: Seq<char>,
    project_cache: UnitCache,
    delphi_cache: Option<&UnitCache>,
    map: MapModel,
    new_unit: UnitModel,
    cur: Cursor,
    log: EditLog,
    before: Seq<Seq<char>>,
)
    requires
        dpr_uses(tree, path, cur.bytes, before).list == Some(cur.list),
        has_name(cur.list.entries, new_unit.name),
        tracks(cur, log),
        ({
            let found = introduced(
                intro_ctx(tree, project_cache, delphi_cache, map, new_unit),
                log.warnings,
            );
            steps_read_back(
                tree,
                path,
                found.found,
                0,
                cursor_behind(cur, new_unit),
                EditLog { warnings: found.warnings, writes: log.writes },
            )
        }),
    ensures
        ({
            let found = introduced(
                intro_ctx(tree, project_cache, delphi_cache, map, new_unit),
                log.warnings,
            );
            let end = inserts_from(
                tree,
                path,
                found.found,
                0,
                true,
                cursor_behind(cur, new_unit),
                EditLog { warnings: found.warnings, writes: log.writes },
            );
            let fin = with_introduced(
                tree,
                path,
                project_cache,
                delphi_cache,
                map,
                new_unit,
                cur,
                log,
            );
            &&& fin.outcome == outcome_of(end.cursor.updated)
            &&& fin.log == end.log
            &&& has_name(end.cursor.list.entries, new_unit.name)
            &&& forall|k: int|
                0 <= k < found.found.len() ==> has_name(
                    end.cursor.list.entries,
                    (#[trigger] found.found[k]).name,
                )
            &&& dpr_uses(tree, path, end.cursor.bytes, Seq::empty()).list == Some(end.cursor.list)
            &&& tracks(end.cursor, end.log)
            &&& !end.cursor.updated ==> end.cursor.bytes == cur.bytes && end.log.writes
                == log.writes
        }),
{
    reveal(with_introduced);
    let found = introduced(
        intro_ctx(tree, project_cache, delphi_cache, map, new_unit),
        log.warnings,
    );
    let start = cursor_behind(cur, new_unit);
    let start_log = EditLog { warnings: found.warnings, writes: log.writes };
    lemma_steps_are_read_back(tree, path, found.found, 0, start, start_log, before);
    lemma_steps_track_writes(tree, path, found.found, 0, true, start, start_log);
}

} // verus!
