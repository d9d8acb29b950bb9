use vstd::prelude::*;

use crate::dpr_closure::{
    collect_fix_root_paths, collect_introduced_dependencies, collect_missing_dpr_dependencies,
    fix_ctx, intro_ctx, introduced, missing_units, roots_from, units_view, RootsState,
};
use crate::dpr_insert::{build_entry_text, entry_text, insert_entry, option_index, with_new_entry};
use crate::dpr_parse::{
    dpr_uses, list_fits, parse_dpr_uses, EntryModel, ListModel, ListRead, UsesList,
};
use crate::dpr_resolve::{
    build_project_map, map_model, option_cache, option_cache_wf, project_map_of, MapModel,
};
use crate::dpr_walk::{
    compute_project_dependents, dependents_of, find_direct_introducer_index, introducer_from,
    lemma_marks_are_dependents, needs_new_unit, needs_unit, walk, walk_ctx, walk_start,
};
use crate::source_tree::SourceTree;
use crate::text::{
    append_bytes, concat, concat_all, copy_text, eq_ignore_case, lower_text, same_ignoring_case,
    to_lower, utf8,
};
use crate::text_map::{push_text, TextMap};
use crate::unit_cache::{ReadError, UnitCache, UnitFileInfo, UnitModel};

verus! {

/// The new text of a file.
pub struct FileWrite {
    pub path: String,
    pub bytes: Vec<u8>,
}

/// What a `FileWrite` holds.
pub struct WriteModel {
    pub path: Seq<char>,
    pub bytes: Seq<u8>,
}

impl DeepView for FileWrite {
    type V = WriteModel;

    open spec fn deep_view(&self) -> WriteModel {
        WriteModel { path: self.path@, bytes: self.bytes@ }
    }
}

/// What a run did: how many project files it looked at, how many it
/// changed and which, how many it failed on, its warnings, and each text
/// that it gave a file, in the order in which the files are to be written.
pub struct DprUpdateSummary {
    pub scanned: usize,
    pub updated: usize,
    pub updated_paths: Vec<String>,
    pub warnings: Vec<String>,
    pub failures: usize,
    pub writes: Vec<FileWrite>,
}

/// What a `DprUpdateSummary` holds.
pub struct SummaryModel {
    pub scanned: int,
    pub updated: int,
    pub updated_paths: Seq<Seq<char>>,
    pub warnings: Seq<Seq<char>>,
    pub failures: int,
    pub writes: Seq<WriteModel>,
}

impl DeepView for DprUpdateSummary {
    type V = SummaryModel;

    open spec fn deep_view(&self) -> SummaryModel {
        SummaryModel {
            scanned: self.scanned as int,
            updated: self.updated as int,
            updated_paths: self.updated_paths.deep_view(),
            warnings: self.warnings.deep_view(),
            failures: self.failures as int,
            writes: self.writes.deep_view(),
        }
    }
}

/// Builds the entry for the unit `new_unit` and puts it into the clause of
/// the project file: behind the entry `insert_after` where that can be
/// done, else at the end. The result is the new text of the file.
pub fn insert_new_unit(
    bytes: &[u8],
    dpr_path: &str,
    list: &UsesList,
    new_unit: &UnitFileInfo,
    insert_after: Option<usize>,
) -> (r: Vec<u8>)
    requires
        list.semicolon <= bytes.len(),
    ensures
        r@ == with_new_entry(
            bytes@,
            list.deep_view(),
            utf8(entry_text(new_unit.name@, new_unit.path@, dpr_path@, list.deep_view())),
            option_index(insert_after),
        ),
{
    let text = build_entry_text(
        new_unit.name.as_str(),
        new_unit.path.as_str(),
        dpr_path,
        list,
    );
    insert_entry(bytes, list, text.as_str(), insert_after)
}

/// Whether the clause holds an entry with the name `name`, in any case.
pub open spec fn has_name(entries: Seq<EntryModel>, name: Seq<char>) -> bool {
    exists|k: int| 0 <= k < entries.len() && same_ignoring_case((#[trigger] entries[k]).name, name)
}

/// Whether the clause holds an entry of that name, in any case.
pub fn list_has_name(list: &UsesList, name: &str) -> (r: bool)
    ensures
        r == has_name(list.entries.deep_view(), name@),
{
    let mut k: usize = 0;
    while k < list.entries.len()
        invariant
            k <= list.entries.len(),
            forall|j: int|
                0 <= j < k ==> !same_ignoring_case(
                    (#[trigger] list.entries.deep_view()[j]).name,
                    name@,
                ),
        decreases list.entries.len() - k,
    {
        assert(list.entries.deep_view()[k as int] == list.entries[k as int].deep_view());
        if eq_ignore_case(list.entries[k].name.as_str(), name) {
            return true;
        }
        k += 1;
    }
    false
}

/// The first entry at or after `k` that is written in the project file
/// itself and has the name `name`, in any case.
pub open spec fn anchor_from(entries: Seq<EntryModel>, name: Seq<char>, k: int) -> Option<int>
    decreases entries.len() - k,
{
    if k < 0 || k >= entries.len() {
        None
    } else if !entries[k].from_include && same_ignoring_case(entries[k].name, name) {
        Some(k)
    } else {
        anchor_from(entries, name, k + 1)
    }
}

/// The entry behind which the next entry is put: that of the unit that
/// was put in last.
pub open spec fn anchor_of(entries: Seq<EntryModel>, last: Option<Seq<char>>) -> Option<int> {
    match last {
        Some(name) => anchor_from(entries, name, 0),
        None => None,
    }
}

/// The entry behind which the next unit is to be put: the one that names
/// the unit that was put in last, if there is one.
pub fn find_anchor(list: &UsesList, last: &Option<String>) -> (r: Option<usize>)
    ensures
        option_index(r) == anchor_of(list.entries.deep_view(), crate::text::option_text(*last)),
{
    let name = match last {
        Some(name) => name,
        None => {
            return None;
        },
    };
    let mut k: usize = 0;
    while k < list.entries.len()
        invariant
            k <= list.entries.len(),
            anchor_from(list.entries.deep_view(), name@, k as int) == anchor_from(
                list.entries.deep_view(),
                name@,
                0,
            ),
        decreases list.entries.len() - k,
    {
        assert(list.entries.deep_view()[k as int] == list.entries[k as int].deep_view());
        if !list.entries[k].from_include && eq_ignore_case(
            list.entries[k].name.as_str(),
            name.as_str(),
        ) {
            return Some(k);
        }
        k += 1;
    }
    None
}

/// The warnings of a run and the texts that it gave to files.
pub struct EditLog {
    pub warnings: Seq<Seq<char>>,
    pub writes: Seq<WriteModel>,
}

/// The project file that is being edited: its text, its clause as read
/// from that text, the name of the unit that was put in last, and whether
/// anything was put in.
pub struct Cursor {
    pub bytes: Seq<u8>,
    pub list: ListModel,
    pub last: Option<Seq<char>>,
    pub updated: bool,
}

/// Where an edit ended; `failed` says that the clause could not be read
/// again from the new text.
pub struct EditEnd {
    pub cursor: Cursor,
    pub log: EditLog,
    pub failed: bool,
}

pub open spec fn no_uses_warning(path: Seq<char>) -> Seq<char> {
    concat_all(seq!["warning: no uses list found in "@, path])
}

pub open spec fn unreadable_dpr_warning(path: Seq<char>) -> Seq<char> {
    concat_all(seq!["warning: failed to read dpr "@, path])
}

/// Puts the unit `unit` into the clause and reads the clause again from
/// the new text, which is what the file holds from then on.
pub open spec fn inserted(
    tree: SourceTree,
    path: Seq<char>,
    unit: UnitModel,
    cur: Cursor,
    log: EditLog,
) -> EditEnd {
    let bytes = with_new_entry(
        cur.bytes,
        cur.list,
        utf8(entry_text(unit.name, unit.path, path, cur.list)),
        anchor_of(cur.list.entries, cur.last),
    );
    let writes = log.writes.push(WriteModel { path, bytes });
    let read = dpr_uses(tree, path, bytes, log.warnings);
    match read.list {
        Some(list) => EditEnd {
            cursor: Cursor { bytes, list, last: Some(unit.name), updated: true },
            log: EditLog { warnings: read.warnings, writes },
            failed: false,
        },
        None => EditEnd {
            cursor: cur,
            log: EditLog { warnings: read.warnings.push(no_uses_warning(path)), writes },
            failed: true,
        },
    }
}

/// Puts the units `units[j..]` into the clause, one after the other, each
/// behind the one before it. With `skip_declared`, a unit whose name the
/// clause holds is passed over.
pub open spec fn inserts_from(
    tree: SourceTree,
    path: Seq<char>,
    units: Seq<UnitModel>,
    j: int,
    skip_declared: bool,
    cur: Cursor,
    log: EditLog,
) -> EditEnd
    decreases units.len() - j,
{
    if j < 0 || j >= units.len() {
        EditEnd { cursor: cur, log, failed: false }
    } else if skip_declared && has_name(cur.list.entries, units[j].name) {
        inserts_from(tree, path, units, j + 1, skip_declared, cur, log)
    } else {
        let step = inserted(tree, path, units[j], cur, log);
        if step.failed {
            step
        } else {
            inserts_from(tree, path, units, j + 1, skip_declared, step.cursor, step.log)
        }
    }
}

/// Units whose names the clause holds are passed over: nothing is put
/// in, and nothing is written.
pub proof fn lemma_declared_units_are_passed_over(
    tree: SourceTree,
    path: Seq<char>,
    units: Seq<UnitModel>,
    j: int,
    cur: Cursor,
    log: EditLog,
)
    requires
        0 <= j,
        forall|k: int| j <= k < units.len() ==> has_name(cur.list.entries, (#[trigger] units[k]).name),
    ensures
        inserts_from(tree, path, units, j, true, cur, log) == (EditEnd {
            cursor: cur,
            log,
            failed: false,
        }),
    decreases units.len() - j,
{
    if j < units.len() {
        assert(has_name(cur.list.entries, units[j].name));
        lemma_declared_units_are_passed_over(tree, path, units, j + 1, cur, log);
    }
}

/// The project file while it is edited.
pub struct EditCursor {
    pub bytes: Vec<u8>,
    pub list: UsesList,
    pub last: Option<String>,
    pub updated: bool,
}

impl DeepView for EditCursor {
    type V = Cursor;

    open spec fn deep_view(&self) -> Cursor {
        Cursor {
            bytes: self.bytes@,
            list: self.list.deep_view(),
            last: crate::text::option_text(self.last),
            updated: self.updated,
        }
    }
}

/// What the two vectors hold, as a log.
pub open spec fn edit_log(warnings: Vec<String>, writes: Vec<FileWrite>) -> EditLog {
    EditLog { warnings: warnings.deep_view(), writes: writes.deep_view() }
}

fn push_write(writes: &mut Vec<FileWrite>, path: &str, bytes: &Vec<u8>)
    ensures
        final(writes).deep_view() == old(writes).deep_view().push(
            WriteModel { path: path@, bytes: bytes@ },
        ),
{
    let mut copy: Vec<u8> = Vec::new();
    append_bytes(&mut copy, bytes.as_slice());
    assert(copy@ =~= bytes@);
    writes.push(FileWrite { path: copy_text(path), bytes: copy });
    assert(final(writes).deep_view() =~= old(writes).deep_view().push(
        WriteModel { path: path@, bytes: bytes@ },
    ));
}

/// Reads the clause again from the text that the file holds after an edit.
pub fn reload_dpr_state(tree: &SourceTree, path: &str, bytes: &Vec<u8>, warnings: &mut Vec<String>) -> (r:
    Option<UsesList>)
    requires
        tree.wf(),
    ensures
        (ListRead {
            list: crate::dpr_parse::option_list(r),
            warnings: final(warnings).deep_view(),
        }) == dpr_uses(*tree, path@, bytes@, old(warnings).deep_view()),
        r matches Some(list) ==> list_fits(list.deep_view(), bytes@),
{
    parse_dpr_uses(tree, path, bytes.as_slice(), warnings)
}

fn insert_and_reload(
    tree: &SourceTree,
    path: &str,
    unit: &UnitFileInfo,
    cur: &mut EditCursor,
    warnings: &mut Vec<String>,
    writes: &mut Vec<FileWrite>,
) -> (ok: bool)
    requires
        tree.wf(),
        list_fits(old(cur).list.deep_view(), old(cur).bytes@),
    ensures
        ({
            let end = inserted(
                *tree,
                path@,
                unit@,
                old(cur).deep_view(),
                edit_log(*old(warnings), *old(writes)),
            );
            &&& ok == !end.failed
            &&& edit_log(*final(warnings), *final(writes)) == end.log
            &&& ok ==> final(cur).deep_view() == end.cursor && list_fits(
                final(cur).list.deep_view(),
                final(cur).bytes@,
            )
        }),
{
    let after = find_anchor(&cur.list, &cur.last);
    let bytes = insert_new_unit(cur.bytes.as_slice(), path, &cur.list, unit, after);
    push_write(writes, path, &bytes);
    match reload_dpr_state(tree, path, &bytes, warnings) {
        Some(list) => {
            cur.bytes = bytes;
            cur.list = list;
            cur.last = Some(unit.name.clone());
            cur.updated = true;
            true
        },
        None => {
            let parts = vec!["warning: no uses list found in ", path];
            assert(parts.deep_view() =~= seq!["warning: no uses list found in "@, path@]);
            push_text(warnings, concat(&parts));
            false
        },
    }
}

fn insert_units(
    tree: &SourceTree,
    path: &str,
    units: &Vec<UnitFileInfo>,
    skip_declared: bool,
    cur: &mut EditCursor,
    warnings: &mut Vec<String>,
    writes: &mut Vec<FileWrite>,
) -> (ok: bool)
    requires
        tree.wf(),
        list_fits(old(cur).list.deep_view(), old(cur).bytes@),
    ensures
        ({
            let end = inserts_from(
                *tree,
                path@,
                units_view(*units),
                0,
                skip_declared,
                old(cur).deep_view(),
                edit_log(*old(warnings), *old(writes)),
            );
            &&& ok == !end.failed
            &&& edit_log(*final(warnings), *final(writes)) == end.log
            &&& ok ==> final(cur).deep_view() == end.cursor
        }),
{
    let ghost goal = inserts_from(
        *tree,
        path@,
        units_view(*units),
        0,
        skip_declared,
        cur.deep_view(),
        edit_log(*warnings, *writes),
    );
    let mut j: usize = 0;
    while j < units.len()
        invariant
            j <= units.len(),
            list_fits(cur.list.deep_view(), cur.bytes@),
            inserts_from(
                *tree,
                path@,
                units_view(*units),
                j as int,
                skip_declared,
                cur.deep_view(),
                edit_log(*warnings, *writes),
            ) == goal,
        decreases units.len() - j,
    {
        assert(units_view(*units)[j as int] == units[j as int]@);
        if skip_declared && list_has_name(&cur.list, units[j].name.as_str()) {
            j += 1;
            continue ;
        }
        if !insert_and_reload(tree, path, &units[j], cur, warnings, writes) {
            return false;
        }
        j += 1;
    }
    true
}

/// What became of one project file.
#[derive(Copy, Clone, PartialEq, Eq, Structural)]
pub enum FileOutcome {
    Unchanged,
    Updated,
    Failed,
}

/// What became of one project file, and the log after it.
pub struct FileEnd {
    pub outcome: FileOutcome,
    pub log: EditLog,
}

/// The outcome of an edit that went through.
pub open spec fn outcome_of(updated: bool) -> FileOutcome {
    if updated {
        FileOutcome::Updated
    } else {
        FileOutcome::Unchanged
    }
}

/// The second part of the work on one project file: the units that the
/// new unit brings with it are put in, each unless the clause holds it,
/// the first behind the new unit.
#[verifier::opaque]
pub open spec fn with_introduced(
    tree: SourceTree,
    path: Seq<char>,
    project_cache: UnitCache,
    delphi_cache: Option<&UnitCache>,
    map: MapModel,
    new_unit: UnitModel,
    cur: Cursor,
    log: EditLog,
) -> FileEnd {
    let found = introduced(
        intro_ctx(tree, project_cache, delphi_cache, map, new_unit),
        log.warnings,
    );
    let end = inserts_from(
        tree,
        path,
        found.found,
        0,
        true,
        Cursor { bytes: cur.bytes, list: cur.list, last: Some(new_unit.name), updated: cur.updated },
        EditLog { warnings: found.warnings, writes: log.writes },
    );
    FileEnd {
        outcome: if end.failed {
            FileOutcome::Failed
        } else {
            outcome_of(end.cursor.updated)
        },
        log: end.log,
    }
}

/// Puts the new unit into the clause, behind the entry `anchor` where
/// that can be done, reads the clause again, and goes on with what the
/// new unit brings with it.
#[verifier::opaque]
pub open spec fn placed(
    tree: SourceTree,
    path: Seq<char>,
    bytes: Seq<u8>,
    list: ListModel,
    project_cache: UnitCache,
    delphi_cache: Option<&UnitCache>,
    map: MapModel,
    new_unit: UnitModel,
    add_introduced: bool,
    anchor: Option<int>,
    log: EditLog,
) -> FileEnd {
    let bytes2 = with_new_entry(
        bytes,
        list,
        utf8(entry_text(new_unit.name, new_unit.path, path, list)),
        anchor,
    );
    let writes = log.writes.push(WriteModel { path, bytes: bytes2 });
    let read = dpr_uses(tree, path, bytes2, log.warnings);
    match read.list {
        None => FileEnd {
            outcome: FileOutcome::Failed,
            log: EditLog { warnings: read.warnings.push(no_uses_warning(path)), writes },
        },
        Some(list2) => {
            let cur = Cursor { bytes: bytes2, list: list2, last: Some(new_unit.name), updated: true };
            let after = EditLog { warnings: read.warnings, writes };
            if add_introduced {
                with_introduced(
                    tree,
                    path,
                    project_cache,
                    delphi_cache,
                    map,
                    new_unit,
                    cur,
                    after,
                )
            } else {
                FileEnd { outcome: FileOutcome::Updated, log: after }
            }
        },
    }
}

/// The work on one project file whose clause was read. A clause that
/// holds the new unit is left as it is, but for what the new unit brings
/// with it. Any other clause gets the new unit if one of the units that
/// it declares depends on the new unit: behind the first entry that names
/// the new unit itself, else at the end.
#[verifier::opaque]
pub open spec fn edited_file(
    tree: SourceTree,
    path: Seq<char>,
    bytes: Seq<u8>,
    list: ListModel,
    project_cache: UnitCache,
    delphi_cache: Option<&UnitCache>,
    new_unit: UnitModel,
    add_introduced: bool,
    log: EditLog,
) -> FileEnd {
    let mapped = project_map_of(
        tree,
        path,
        list.entries,
        project_cache@,
        option_cache(delphi_cache),
        log.warnings,
    );
    let start = Cursor { bytes, list, last: None, updated: false };
    if has_name(list.entries, new_unit.name) {
        if add_introduced {
            with_introduced(
                tree,
                path,
                project_cache,
                delphi_cache,
                mapped.map,
                new_unit,
                start,
                EditLog { warnings: mapped.warnings, writes: log.writes },
            )
        } else {
            FileEnd {
                outcome: FileOutcome::Unchanged,
                log: EditLog { warnings: mapped.warnings, writes: log.writes },
            }
        }
    } else if mapped.map.keys.len() == 0 {
        FileEnd {
            outcome: FileOutcome::Unchanged,
            log: EditLog { warnings: mapped.warnings, writes: log.writes },
        }
    } else {
        let end = walk(
            walk_ctx(tree, project_cache, delphi_cache, mapped.map, new_unit.name),
            0,
            walk_start(mapped.map, mapped.warnings),
        );
        let walked = EditLog { warnings: end.warnings, writes: log.writes };
        if !needs_unit(
            list.entries,
            mapped.map,
            end.paths,
            dependents_of(end.rev, end.direct),
        ) {
            FileEnd { outcome: FileOutcome::Unchanged, log: walked }
        } else {
            placed(
                tree,
                path,
                bytes,
                list,
                project_cache,
                delphi_cache,
                mapped.map,
                new_unit,
                add_introduced,
                introducer_from(list.entries, 0, mapped.map, end.paths, end.direct),
                walked,
            )
        }
    }
}

/// A project file whose clause holds the new unit and every unit that
/// the new unit brings with it is left as it is: nothing is written for
/// it.
pub proof fn lemma_settled_file_is_left(
    tree: SourceTree,
    path: Seq<char>,
    bytes: Seq<u8>,
    list: ListModel,
    project_cache: UnitCache,
    delphi_cache: Option<&UnitCache>,
    new_unit: UnitModel,
    add_introduced: bool,
    log: EditLog,
)
    requires
        has_name(list.entries, new_unit.name),
        add_introduced ==> ({
            let mapped = project_map_of(
                tree,
                path,
                list.entries,
                project_cache@,
                option_cache(delphi_cache),
                log.warnings,
            );
            let found = introduced(
                intro_ctx(tree, project_cache, delphi_cache, mapped.map, new_unit),
                mapped.warnings,
            );
            forall|k: int|
                0 <= k < found.found.len() ==> has_name(
                    list.entries,
                    (#[trigger] found.found[k]).name,
                )
        }),
    ensures
        edited_file(
            tree,
            path,
            bytes,
            list,
            project_cache,
            delphi_cache,
            new_unit,
            add_introduced,
            log,
        ).outcome == FileOutcome::Unchanged,
        edited_file(
            tree,
            path,
            bytes,
            list,
            project_cache,
            delphi_cache,
            new_unit,
            add_introduced,
            log,
        ).log.writes == log.writes,
{
    reveal(edited_file);
    reveal(with_introduced);
    if add_introduced {
        let mapped = project_map_of(
            tree,
            path,
            list.entries,
            project_cache@,
            option_cache(delphi_cache),
            log.warnings,
        );
        let found = introduced(
            intro_ctx(tree, project_cache, delphi_cache, mapped.map, new_unit),
            mapped.warnings,
        );
        lemma_declared_units_are_passed_over(
            tree,
            path,
            found.found,
            0,
            Cursor { bytes, list, last: Some(new_unit.name), updated: false },
            EditLog { warnings: found.warnings, writes: log.writes },
        );
    }
}

/// The work on the project file `path`: a file that the tree does not
/// hold, or that has no clause that can be read, is a failure.
#[verifier::opaque]
pub open spec fn updated_file(
    tree: SourceTree,
    path: Seq<char>,
    project_cache: UnitCache,
    delphi_cache: Option<&UnitCache>,
    new_unit: UnitModel,
    add_introduced: bool,
    log: EditLog,
) -> FileEnd {
    match tree.contents(path) {
        None => FileEnd {
            outcome: FileOutcome::Failed,
            log: EditLog {
                warnings: log.warnings.push(unreadable_dpr_warning(path)),
                writes: log.writes,
            },
        },
        Some(bytes) => {
            let read = dpr_uses(tree, path, bytes, log.warnings);
            match read.list {
                None => FileEnd {
                    outcome: FileOutcome::Failed,
                    log: EditLog {
                        warnings: read.warnings.push(no_uses_warning(path)),
                        writes: log.writes,
                    },
                },
                Some(list) => edited_file(
                    tree,
                    path,
                    bytes,
                    list,
                    project_cache,
                    delphi_cache,
                    new_unit,
                    add_introduced,
                    EditLog { warnings: read.warnings, writes: log.writes },
                ),
            }
        },
    }
}

/// What a result and the two vectors hold, as the end of the work on a
/// file.
pub open spec fn file_end(r: FileOutcome, warnings: Vec<String>, writes: Vec<FileWrite>) -> FileEnd {
    FileEnd { outcome: r, log: edit_log(warnings, writes) }
}

fn add_introduced_units(
    tree: &SourceTree,
    path: &str,
    project_cache: &UnitCache,
    delphi_cache: Option<&UnitCache>,
    project_map: &TextMap<String>,
    new_unit: &UnitFileInfo,
    cur: EditCursor,
    warnings: &mut Vec<String>,
    writes: &mut Vec<FileWrite>,
) -> (r: FileOutcome)
    requires
        tree.wf(),
        project_map.wf(),
        project_cache.wf(),
        option_cache_wf(delphi_cache),
        list_fits(cur.list.deep_view(), cur.bytes@),
    ensures
        file_end(r, *final(warnings), *final(writes)) == with_introduced(
            *tree,
            path@,
            *project_cache,
            delphi_cache,
            map_model(*project_map),
            new_unit@,
            cur.deep_view(),
            edit_log(*old(warnings), *old(writes)),
        ),
{
    reveal(with_introduced);
    let units = match collect_introduced_dependencies(
        tree,
        project_cache,
        delphi_cache,
        project_map,
        new_unit,
        warnings,
    ) {
        Ok(units) => units,
        Err(_) => {
            return FileOutcome::Failed;
        },
    };
    let mut cur = cur;
    cur.last = Some(new_unit.name.clone());
    if !insert_units(tree, path, &units, true, &mut cur, warnings, writes) {
        return FileOutcome::Failed;
    }
    if cur.updated {
        FileOutcome::Updated
    } else {
        FileOutcome::Unchanged
    }
}

fn place_new_unit(
    tree: &SourceTree,
    path: &str,
    bytes: &[u8],
    list: &UsesList,
    project_cache: &UnitCache,
    delphi_cache: Option<&UnitCache>,
    project_map: &TextMap<String>,
    new_unit: &UnitFileInfo,
    add_introduced_dependencies: bool,
    insert_after: Option<usize>,
    warnings: &mut Vec<String>,
    writes: &mut Vec<FileWrite>,
) -> (r: FileOutcome)
    requires
        tree.wf(),
        project_map.wf(),
        project_cache.wf(),
        option_cache_wf(delphi_cache),
        list_fits(list.deep_view(), bytes@),
    ensures
        file_end(r, *final(warnings), *final(writes)) == placed(
            *tree,
            path@,
            bytes@,
            list.deep_view(),
            *project_cache,
            delphi_cache,
            map_model(*project_map),
            new_unit@,
            add_introduced_dependencies,
            option_index(insert_after),
            edit_log(*old(warnings), *old(writes)),
        ),
{
    reveal(placed);
    let bytes2 = insert_new_unit(bytes, path, list, new_unit, insert_after);
    push_write(writes, path, &bytes2);
    let cur = match reload_dpr_state(tree, path, &bytes2, warnings) {
        Some(list2) => EditCursor {
            bytes: bytes2,
            list: list2,
            last: Some(new_unit.name.clone()),
            updated: true,
        },
        None => {
            let parts = vec!["warning: no uses list found in ", path];
            assert(parts.deep_view() =~= seq!["warning: no uses list found in "@, path@]);
            push_text(warnings, concat(&parts));
            return FileOutcome::Failed;
        },
    };
    if add_introduced_dependencies {
        return add_introduced_units(
            tree,
            path,
            project_cache,
            delphi_cache,
            project_map,
            new_unit,
            cur,
            warnings,
            writes,
        );
    }
    FileOutcome::Updated
}

fn edit_parsed(
    tree: &SourceTree,
    path: &str,
    bytes: &Vec<u8>,
    list: UsesList,
    project_cache: &UnitCache,
    delphi_cache: Option<&UnitCache>,
    new_unit: &UnitFileInfo,
    add_introduced_dependencies: bool,
    warnings: &mut Vec<String>,
    writes: &mut Vec<FileWrite>,
) -> (r: FileOutcome)
    requires
        tree.wf(),
        project_cache.wf(),
        option_cache_wf(delphi_cache),
        list_fits(list.deep_view(), bytes@),
    ensures
        file_end(r, *final(warnings), *final(writes)) == edited_file(
            *tree,
            path@,
            bytes@,
            list.deep_view(),
            *project_cache,
            delphi_cache,
            new_unit@,
            add_introduced_dependencies,
            edit_log(*old(warnings), *old(writes)),
        ),
{
    reveal(edited_file);
    let project_map = build_project_map(tree, path, &list, project_cache, delphi_cache, warnings);
    if list_has_name(&list, new_unit.name.as_str()) {
        if add_introduced_dependencies {
            let mut copy: Vec<u8> = Vec::new();
            append_bytes(&mut copy, bytes.as_slice());
            assert(copy@ =~= bytes@);
            let cur = EditCursor { bytes: copy, list, last: None, updated: false };
            return add_introduced_units(
                tree,
                path,
                project_cache,
                delphi_cache,
                &project_map,
                new_unit,
                cur,
                warnings,
                writes,
            );
        }
        return FileOutcome::Unchanged;
    }
    if project_map.is_empty() {
        return FileOutcome::Unchanged;
    }
    let ghost mapped = warnings.deep_view();
    let found = match compute_project_dependents(
        tree,
        project_cache,
        delphi_cache,
        &project_map,
        new_unit,
        warnings,
    ) {
        Ok(found) => found,
        Err(_) => {
            return FileOutcome::Failed;
        },
    };
    proof {
        let end = walk(
            walk_ctx(
                *tree,
                *project_cache,
                delphi_cache,
                map_model(project_map),
                new_unit.name@,
            ),
            0,
            walk_start(map_model(project_map), mapped),
        );
        lemma_marks_are_dependents(found.dependents@, end.rev, end.direct);
    }
    if !needs_new_unit(&list, &project_map, &found) {
        return FileOutcome::Unchanged;
    }
    let insert_after = find_direct_introducer_index(&list, &project_map, &found);
    place_new_unit(
        tree,
        path,
        bytes.as_slice(),
        &list,
        project_cache,
        delphi_cache,
        &project_map,
        new_unit,
        add_introduced_dependencies,
        insert_after,
        warnings,
        writes,
    )
}

fn update_one(
    tree: &SourceTree,
    path: &str,
    project_cache: &UnitCache,
    delphi_cache: Option<&UnitCache>,
    new_unit: &UnitFileInfo,
    add_introduced_dependencies: bool,
    warnings: &mut Vec<String>,
    writes: &mut Vec<FileWrite>,
) -> (r: FileOutcome)
    requires
        tree.wf(),
        project_cache.wf(),
        option_cache_wf(delphi_cache),
    ensures
        file_end(r, *final(warnings), *final(writes)) == updated_file(
            *tree,
            path@,
            *project_cache,
            delphi_cache,
            new_unit@,
            add_introduced_dependencies,
            edit_log(*old(warnings), *old(writes)),
        ),
{
    reveal(updated_file);
    let bytes = match tree.read(path) {
        Some(bytes) => bytes,
        None => {
            let parts = vec!["warning: failed to read dpr ", path];
            assert(parts.deep_view() =~= seq!["warning: failed to read dpr "@, path@]);
            push_text(warnings, concat(&parts));
            return FileOutcome::Failed;
        },
    };
    let list = match parse_dpr_uses(tree, path, bytes.as_slice(), warnings) {
        Some(list) => list,
        None => {
            let parts = vec!["warning: no uses list found in ", path];
            assert(parts.deep_view() =~= seq!["warning: no uses list found in "@, path@]);
            push_text(warnings, concat(&parts));
            return FileOutcome::Failed;
        },
    };
    edit_parsed(
        tree,
        path,
        bytes,
        list,
        project_cache,
        delphi_cache,
        new_unit,
        add_introduced_dependencies,
        warnings,
        writes,
    )
}

/// The summary after the work on one more project file.
pub open spec fn summary_with(summary: SummaryModel, path: Seq<char>, end: FileEnd) -> SummaryModel {
    SummaryModel {
        scanned: summary.scanned + 1,
        updated: summary.updated + if end.outcome == FileOutcome::Updated {
            1int
        } else {
            0int
        },
        updated_paths: if end.outcome == FileOutcome::Updated {
            summary.updated_paths.push(path)
        } else {
            summary.updated_paths
        },
        warnings: end.log.warnings,
        failures: summary.failures + if end.outcome == FileOutcome::Failed {
            1int
        } else {
            0int
        },
        writes: end.log.writes,
    }
}

/// The run over the project files `paths[k..]`, one after the other.
pub open spec fn update_from(
    tree: SourceTree,
    paths: Seq<Seq<char>>,
    k: int,
    project_cache: UnitCache,
    delphi_cache: Option<&UnitCache>,
    new_unit: UnitModel,
    add_introduced: bool,
    summary: SummaryModel,
) -> SummaryModel
    decreases paths.len() - k,
{
    if k < 0 || k >= paths.len() {
        summary
    } else {
        let end = updated_file(
            tree,
            paths[k],
            project_cache,
            delphi_cache,
            new_unit,
            add_introduced,
            EditLog { warnings: summary.warnings, writes: summary.writes },
        );
        update_from(
            tree,
            paths,
            k + 1,
            project_cache,
            delphi_cache,
            new_unit,
            add_introduced,
            summary_with(summary, paths[k], end),
        )
    }
}

pub open spec fn empty_summary() -> SummaryModel {
    SummaryModel {
        scanned: 0,
        updated: 0,
        updated_paths: Seq::empty(),
        warnings: Seq::empty(),
        failures: 0,
        writes: Seq::empty(),
    }
}

/// Adds the unit `new_unit` to each of the project files `dpr_paths` that
/// needs it, and with it, if `add_introduced_dependencies` says so, the
/// units that it brings with it. The files are not written: the summary
/// holds their new texts. The run looks at every file, and its result is
/// always `Ok`: what cannot be read gives a warning.
pub fn update_dpr_files(
    tree: &SourceTree,
    dpr_paths: &Vec<String>,
    project_cache: &UnitCache,
    delphi_cache: Option<&UnitCache>,
    new_unit: &UnitFileInfo,
    add_introduced_dependencies: bool,
) -> (r: Result<DprUpdateSummary, ReadError>)
    requires
        tree.wf(),
        project_cache.wf(),
        option_cache_wf(delphi_cache),
    ensures
        ({
            let end = update_from(
                *tree,
                dpr_paths.deep_view(),
                0,
                *project_cache,
                delphi_cache,
                new_unit@,
                add_introduced_dependencies,
                empty_summary(),
            );
            r matches Ok(summary) && summary.deep_view() == end
        }),
{
    let mut summary = DprUpdateSummary {
        scanned: 0,
        updated: 0,
        updated_paths: Vec::new(),
        warnings: Vec::new(),
        failures: 0,
        writes: Vec::new(),
    };
    assert(summary.updated_paths.deep_view() =~= Seq::<Seq<char>>::empty());
    assert(summary.warnings.deep_view() =~= Seq::<Seq<char>>::empty());
    assert(summary.writes.deep_view() =~= Seq::<WriteModel>::empty());
    let ghost goal = update_from(
        *tree,
        dpr_paths.deep_view(),
        0,
        *project_cache,
        delphi_cache,
        new_unit@,
        add_introduced_dependencies,
        empty_summary(),
    );
    let mut k: usize = 0;
    while k < dpr_paths.len()
        invariant
            k <= dpr_paths.len(),
            summary.scanned == k,
            summary.updated <= k,
            summary.failures <= k,
            update_from(
                *tree,
                dpr_paths.deep_view(),
                k as int,
                *project_cache,
                delphi_cache,
                new_unit@,
                add_introduced_dependencies,
                summary.deep_view(),
            ) == goal,
        decreases dpr_paths.len() - k,
    {
        assert(dpr_paths.deep_view()[k as int] == dpr_paths[k as int]@);
        let path = dpr_paths[k].as_str();
        let outcome = update_one(
            tree,
            path,
            project_cache,
            delphi_cache,
            new_unit,
            add_introduced_dependencies,
            &mut summary.warnings,
            &mut summary.writes,
        );
        summary.scanned += 1;
        match outcome {
            FileOutcome::Updated => {
                summary.updated += 1;
                push_text(&mut summary.updated_paths, copy_text(path));
            },
            FileOutcome::Failed => {
                summary.failures += 1;
            },
            FileOutcome::Unchanged => {},
        }
        k += 1;
    }
    Ok(summary)
}

/// The names of the entries, in lower case.
pub open spec fn lower_names(entries: Seq<EntryModel>) -> Seq<Seq<char>> {
    Seq::new(entries.len(), |k: int| lower_text(entries[k].name))
}

fn entry_names(list: &UsesList) -> (r: Vec<String>)
    ensures
        r.deep_view() == lower_names(list.entries.deep_view()),
{
    let mut names: Vec<String> = Vec::new();
    let mut k: usize = 0;
    while k < list.entries.len()
        invariant
            k <= list.entries.len(),
            names.deep_view() == lower_names(list.entries.deep_view()).take(k as int),
        decreases list.entries.len() - k,
    {
        assert(list.entries.deep_view()[k as int] == list.entries[k as int].deep_view());
        push_text(&mut names, to_lower(list.entries[k].name.as_str()));
        k += 1;
        assert(names.deep_view() =~= lower_names(list.entries.deep_view()).take(k as int));
    }
    assert(lower_names(list.entries.deep_view()).take(k as int) =~= lower_names(
        list.entries.deep_view(),
    ));
    names
}

/// The summary of a repair that looked at one file and changed nothing.
pub open spec fn idle_summary(warnings: Seq<Seq<char>>, failures: int) -> SummaryModel {
    SummaryModel {
        scanned: 1,
        updated: 0,
        updated_paths: Seq::empty(),
        warnings,
        failures,
        writes: Seq::empty(),
    }
}

/// The repair of a clause that was read: every unit that the declared
/// units reach through the caches and that the clause lacks is put in,
/// in the order in which a breadth first walk finds them, each behind
/// the one before it.
#[verifier::opaque]
pub open spec fn repaired(
    tree: SourceTree,
    path: Seq<char>,
    bytes: Seq<u8>,
    list: ListModel,
    project_cache: UnitCache,
    delphi_cache: Option<&UnitCache>,
    warnings: Seq<Seq<char>>,
) -> SummaryModel {
    let mapped = project_map_of(
        tree,
        path,
        list.entries,
        project_cache@,
        option_cache(delphi_cache),
        warnings,
    );
    let roots = roots_from(
        tree,
        path,
        list.entries,
        0,
        mapped.map,
        project_cache@,
        option_cache(delphi_cache),
        RootsState { roots: Seq::empty(), warnings: mapped.warnings },
    );
    let missing = missing_units(
        fix_ctx(
            tree,
            project_cache,
            delphi_cache,
            lower_names(list.entries),
            roots.roots,
        ),
        roots.roots,
        roots.warnings,
    );
    let end = inserts_from(
        tree,
        path,
        missing.found,
        0,
        false,
        Cursor { bytes, list, last: None, updated: false },
        EditLog { warnings: missing.warnings, writes: Seq::empty() },
    );
    if roots.roots.len() == 0 {
        idle_summary(roots.warnings, 0)
    } else if missing.found.len() == 0 {
        idle_summary(missing.warnings, 0)
    } else if end.failed {
        SummaryModel {
            scanned: 1,
            updated: 0,
            updated_paths: Seq::empty(),
            warnings: end.log.warnings,
            failures: 1,
            writes: end.log.writes,
        }
    } else {
        SummaryModel {
            scanned: 1,
            updated: if end.cursor.updated {
                1
            } else {
                0
            },
            updated_paths: if end.cursor.updated {
                seq![path]
            } else {
                Seq::empty()
            },
            warnings: end.log.warnings,
            failures: 0,
            writes: end.log.writes,
        }
    }
}

/// The repair of the project file `dpr_path`.
pub open spec fn fixed_file(
    tree: SourceTree,
    dpr_path: Seq<char>,
    project_cache: UnitCache,
    delphi_cache: Option<&UnitCache>,
) -> SummaryModel {
    let path = tree.canonical(dpr_path);
    match tree.contents(path) {
        None => idle_summary(seq![unreadable_dpr_warning(path)], 1),
        Some(bytes) => {
            let read = dpr_uses(tree, path, bytes, Seq::empty());
            match read.list {
                None => idle_summary(read.warnings.push(no_uses_warning(path)), 1),
                Some(list) => repaired(
                    tree,
                    path,
                    bytes,
                    list,
                    project_cache,
                    delphi_cache,
                    read.warnings,
                ),
            }
        },
    }
}

fn repair_parsed(
    tree: &SourceTree,
    path: String,
    bytes: &Vec<u8>,
    list: UsesList,
    project_cache: &UnitCache,
    delphi_cache: Option<&UnitCache>,
    warnings: Vec<String>,
) -> (r: DprUpdateSummary)
    requires
        tree.wf(),
        project_cache.wf(),
        option_cache_wf(delphi_cache),
        list_fits(list.deep_view(), bytes@),
    ensures
        r.deep_view() == repaired(
            *tree,
            path@,
            bytes@,
            list.deep_view(),
            *project_cache,
            delphi_cache,
            warnings.deep_view(),
        ),
{
    reveal(repaired);
    let mut summary = DprUpdateSummary {
        scanned: 1,
        updated: 0,
        updated_paths: Vec::new(),
        warnings,
        failures: 0,
        writes: Vec::new(),
    };
    assert(summary.updated_paths.deep_view() =~= Seq::<Seq<char>>::empty());
    assert(summary.writes.deep_view() =~= Seq::<WriteModel>::empty());
    let existing = entry_names(&list);
    let project_map = build_project_map(
        tree,
        path.as_str(),
        &list,
        project_cache,
        delphi_cache,
        &mut summary.warnings,
    );
    let roots = collect_fix_root_paths(
        tree,
        path.as_str(),
        &list,
        &project_map,
        project_cache,
        delphi_cache,
        &mut summary.warnings,
    );
    if roots.len() == 0 {
        return summary;
    }
    let missing = collect_missing_dpr_dependencies(
        tree,
        &roots,
        &existing,
        project_cache,
        delphi_cache,
        &mut summary.warnings,
    );
    assert(units_view(missing).len() == missing.len());
    if missing.len() == 0 {
        return summary;
    }
    let mut copy: Vec<u8> = Vec::new();
    append_bytes(&mut copy, bytes.as_slice());
    assert(copy@ =~= bytes@);
    let mut cur = EditCursor { bytes: copy, list, last: None, updated: false };
    if !insert_units(
        tree,
        path.as_str(),
        &missing,
        false,
        &mut cur,
        &mut summary.warnings,
        &mut summary.writes,
    ) {
        summary.failures = 1;
        return summary;
    }
    if cur.updated {
        summary.updated = 1;
        push_text(&mut summary.updated_paths, path);
        assert(summary.updated_paths.deep_view() =~= seq![path@]);
    }
    summary
}

/// Repairs one project file: puts into its clause every unit that the
/// units it declares reach and that it lacks. The file is not written:
/// the summary holds its new texts.
pub fn fix_dpr_file(
    tree: &SourceTree,
    dpr_path: &str,
    project_cache: &UnitCache,
    delphi_cache: Option<&UnitCache>,
) -> (r: DprUpdateSummary)
    requires
        tree.wf(),
        project_cache.wf(),
        option_cache_wf(delphi_cache),
    ensures
        r.deep_view() == fixed_file(*tree, dpr_path@, *project_cache, delphi_cache),
{
    let path = tree.canonicalize(dpr_path);
    let mut warnings: Vec<String> = Vec::new();
    assert(warnings.deep_view() =~= Seq::<Seq<char>>::empty());
    let bytes = match tree.read(path.as_str()) {
        Some(bytes) => bytes,
        None => {
            let parts = vec!["warning: failed to read dpr ", path.as_str()];
            assert(parts.deep_view() =~= seq!["warning: failed to read dpr "@, path@]);
            push_text(&mut warnings, concat(&parts));
            assert(warnings.deep_view() =~= seq![unreadable_dpr_warning(path@)]);
            return failed_summary(warnings);
        },
    };
    let list = match parse_dpr_uses(tree, path.as_str(), bytes.as_slice(), &mut warnings) {
        Some(list) => list,
        None => {
            let parts = vec!["warning: no uses list found in ", path.as_str()];
            assert(parts.deep_view() =~= seq!["warning: no uses list found in "@, path@]);
            push_text(&mut warnings, concat(&parts));
            return failed_summary(warnings);
        },
    };
    repair_parsed(tree, path, bytes, list, project_cache, delphi_cache, warnings)
}

fn failed_summary(warnings: Vec<String>) -> (r: DprUpdateSummary)
    ensures
        r.deep_view() == idle_summary(warnings.deep_view(), 1),
{
    let r = DprUpdateSummary {
        scanned: 1,
        updated: 0,
        updated_paths: Vec::new(),
        warnings,
        failures: 1,
        writes: Vec::new(),
    };
    assert(r.updated_paths.deep_view() =~= Seq::<Seq<char>>::empty());
    assert(r.writes.deep_view() =~= Seq::<WriteModel>::empty());
    r
}

} // verus!
