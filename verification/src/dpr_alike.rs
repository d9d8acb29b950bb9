use vstd::prelude::*;

use crate::dpr_closure::{
    intro_dep, intro_deps, intro_knows, intro_walk, lemma_intro_dep_keeps, ClosureState, IntroCtx,
};
use crate::dpr_parse::EntryModel;
use crate::dpr_resolve::{known_path, project_map_from, with_resolved_entry, MapState};
use crate::dpr_walk::{
    dep_resolution, knows_all, lemma_units_fit, lemma_with_dep_keeps, seeded, units_known, uses_of,
    walk, with_dep, with_deps, with_node, with_warnings, GraphState, WalkCtx,
};
use crate::source_tree::SourceTree;
use crate::unit_cache::CacheModel;

verus! {

/// The two trees hold the same files under the same paths; the texts of
/// the files may differ.
pub open spec fn same_files(a: SourceTree, b: SourceTree) -> bool {
    &&& forall|p: Seq<char>| #[trigger] a.canonical(p) == b.canonical(p)
    &&& forall|p: Seq<char>| #[trigger] a.has_file(p) == b.has_file(p)
}

/// The two states hold the same units, users and marks; their warnings
/// may differ.
pub open spec fn same_graph(a: GraphState, b: GraphState) -> bool {
    a.paths == b.paths && a.rev == b.rev && a.direct == b.direct
}

/// The two walks work with the same caches, map, name and known files,
/// over trees that hold the same files.
pub open spec fn same_walk(a: WalkCtx, b: WalkCtx) -> bool {
    &&& same_files(a.tree, b.tree)
    &&& a.project == b.project
    &&& a.delphi == b.delphi
    &&& a.map == b.map
    &&& a.new_name == b.new_name
    &&& a.known == b.known
}

/// Every known file of the walk has its unit in one of the caches, so
/// that the walk reads no file.
pub open spec fn all_cached(ctx: WalkCtx) -> bool {
    forall|i: int|
        0 <= i < ctx.known.len() ==> known_path(
            ctx.project,
            ctx.delphi,
            ctx.tree.canonical(#[trigger] ctx.known[i]),
        )
}

/// A map of the declared units has a file for each name.
pub proof fn lemma_project_map_sound(
    tree: SourceTree,
    dpr: Seq<char>,
    entries: Seq<EntryModel>,
    k: int,
    project: CacheModel,
    delphi: Option<CacheModel>,
    st: MapState,
)
    requires
        0 <= k,
        st.map.keys.len() == st.map.values.len(),
    ensures
        project_map_from(tree, dpr, entries, k, project, delphi, st).map.keys.len()
            == project_map_from(tree, dpr, entries, k, project, delphi, st).map.values.len(),
    decreases entries.len() - k,
{
    if k < entries.len() {
        lemma_project_map_sound(
            tree,
            dpr,
            entries,
            k + 1,
            project,
            delphi,
            with_resolved_entry(tree, dpr, entries[k], project, delphi, st),
        );
    }
}

/// The map of the declared units depends neither on the warnings that
/// were given before nor on the texts of the files.
pub proof fn lemma_project_map_alike(
    a: SourceTree,
    b: SourceTree,
    dpr: Seq<char>,
    entries: Seq<EntryModel>,
    k: int,
    project: CacheModel,
    delphi: Option<CacheModel>,
    st1: MapState,
    st2: MapState,
)
    requires
        0 <= k,
        same_files(a, b),
        st1.map == st2.map,
    ensures
        project_map_from(a, dpr, entries, k, project, delphi, st1).map == project_map_from(
            b,
            dpr,
            entries,
            k,
            project,
            delphi,
            st2,
        ).map,
    decreases entries.len() - k,
{
    if k < entries.len() {
        let entry = entries[k];
        match entry.in_path {
            Some(raw) => {
                let resolved = a.canonical(crate::uses_include::include_path(dpr, raw));
                assert(b.canonical(crate::uses_include::include_path(dpr, raw)) == resolved);
                assert(a.has_file(resolved) == b.has_file(resolved));
            },
            None => {},
        }
        lemma_project_map_alike(
            a,
            b,
            dpr,
            entries,
            k + 1,
            project,
            delphi,
            with_resolved_entry(a, dpr, entry, project, delphi, st1),
            with_resolved_entry(b, dpr, entry, project, delphi, st2),
        );
    }
}

/// The units with which a walk starts do not depend on the warnings.
pub proof fn lemma_seeded_alike(values: Seq<Seq<char>>, k: int, st1: GraphState, st2: GraphState)
    requires
        0 <= k,
        same_graph(st1, st2),
    ensures
        same_graph(seeded(values, k, st1), seeded(values, k, st2)),
    decreases values.len() - k,
{
    if k < values.len() {
        if st1.paths.contains(values[k]) {
            lemma_seeded_alike(values, k + 1, st1, st2);
        } else {
            lemma_seeded_alike(values, k + 1, with_node(st1, values[k]), with_node(st2, values[k]));
        }
    }
}

/// What the uses of a unit add to the units behind it does not depend
/// on the warnings.
pub proof fn lemma_with_deps_alike(
    a: WalkCtx,
    b: WalkCtx,
    uses: Seq<Seq<char>>,
    j: int,
    source: int,
    st1: GraphState,
    st2: GraphState,
)
    requires
        0 <= j,
        same_walk(a, b),
        same_graph(st1, st2),
        knows_all(a),
        units_known(a.known, st1.paths),
        0 <= source < st1.paths.len(),
    ensures
        same_graph(with_deps(a, uses, j, source, st1), with_deps(b, uses, j, source, st2)),
        units_known(a.known, with_deps(a, uses, j, source, st1).paths),
        with_deps(a, uses, j, source, st1).paths.len() >= st1.paths.len(),
    decreases uses.len() - j,
{
    if j < uses.len() {
        lemma_with_dep_keeps(a, uses[j], source, st1);
        lemma_with_deps_alike(
            a,
            b,
            uses,
            j + 1,
            source,
            with_dep(a, uses[j], source, st1),
            with_dep(b, uses[j], source, st2),
        );
    }
}

/// A walk that reads no file finds the same units, users and marks
/// whatever was warned before, and whatever the texts of the files are.
pub proof fn lemma_walk_alike(a: WalkCtx, b: WalkCtx, head: int, st1: GraphState, st2: GraphState)
    requires
        0 <= head,
        same_walk(a, b),
        same_graph(st1, st2),
        knows_all(a),
        all_cached(a),
        units_known(a.known, st1.paths),
    ensures
        same_graph(walk(a, head, st1), walk(b, head, st2)),
    decreases a.known.len() - head,
{
    lemma_units_fit(a.known, st1.paths);
    if head < st1.paths.len() {
        let path = st1.paths[head];
        assert(a.known.contains(path));
        let i = choose|i: int| 0 <= i < a.known.len() && a.known[i] == path;
        assert(known_path(a.project, a.delphi, a.tree.canonical(a.known[i])));
        assert(b.tree.canonical(path) == a.tree.canonical(path));
        let load1 = uses_of(a.tree, a.project, a.delphi, path, st1.warnings);
        let load2 = uses_of(b.tree, b.project, b.delphi, path, st2.warnings);
        assert(load1.uses is Some && load1.uses == load2.uses);
        let uses = load1.uses.unwrap();
        let next1 = with_warnings(st1, load1.warnings);
        let next2 = with_warnings(st2, load2.warnings);
        lemma_with_deps_alike(a, b, uses, 0, head, next1, next2);
        lemma_walk_alike(
            a,
            b,
            head + 1,
            with_deps(a, uses, 0, head, next1),
            with_deps(b, uses, 0, head, next2),
        );
    }
}

/// The two states hold the same files seen, names and units found;
/// their warnings may differ.
pub open spec fn same_closure(a: ClosureState, b: ClosureState) -> bool {
    a.seen == b.seen && a.names == b.names && a.found == b.found
}

/// The two walks from the new unit work with the same caches and name,
/// over trees that hold the same files, and their maps lead each used
/// name to the same file.
pub open spec fn same_intro(a: IntroCtx, b: IntroCtx) -> bool {
    &&& same_files(a.tree, b.tree)
    &&& a.project == b.project
    &&& a.delphi == b.delphi
    &&& a.new_name == b.new_name
    &&& a.root == b.root
    &&& forall|dep: Seq<char>, from: Seq<char>, warnings: Seq<Seq<char>>|
        (#[trigger] dep_resolution(a.map, a.project, a.delphi, dep, from, warnings)).path
            == dep_resolution(b.map, b.project, b.delphi, dep, from, warnings).path
}

/// Every known file of the walk has its unit in one of the caches, so
/// that the walk reads no file.
pub open spec fn intro_cached(ctx: IntroCtx) -> bool {
    forall|i: int|
        0 <= i < ctx.known.len() ==> known_path(
            ctx.project,
            ctx.delphi,
            ctx.tree.canonical(#[trigger] ctx.known[i]),
        )
}

/// What a used name adds to the units that the new unit brings with it
/// does not depend on the warnings.
pub proof fn lemma_intro_dep_alike(
    a: IntroCtx,
    b: IntroCtx,
    dep: Seq<char>,
    from: Seq<char>,
    st1: ClosureState,
    st2: ClosureState,
)
    requires
        same_intro(a, b),
        same_closure(st1, st2),
    ensures
        same_closure(intro_dep(a, dep, from, st1), intro_dep(b, dep, from, st2)),
{
    let r1 = dep_resolution(a.map, a.project, a.delphi, dep, from, st1.warnings);
    let r2 = dep_resolution(b.map, b.project, b.delphi, dep, from, st2.warnings);
    let r3 = dep_resolution(b.map, b.project, b.delphi, dep, from, st1.warnings);
    assert(r1.path == r3.path);
    assert(r3.path == r2.path);
    match r1.path {
        Some(path) => {
            assert(a.tree.canonical(path) == b.tree.canonical(path));
        },
        None => {},
    }
}

pub proof fn lemma_intro_deps_alike(
    a: IntroCtx,
    b: IntroCtx,
    uses: Seq<Seq<char>>,
    j: int,
    from: Seq<char>,
    st1: ClosureState,
    st2: ClosureState,
)
    requires
        0 <= j,
        same_intro(a, b),
        same_closure(st1, st2),
        intro_knows(a),
        intro_knows(b),
        units_known(a.known, st1.seen),
        units_known(b.known, st2.seen),
    ensures
        same_closure(intro_deps(a, uses, j, from, st1), intro_deps(b, uses, j, from, st2)),
        units_known(a.known, intro_deps(a, uses, j, from, st1).seen),
        units_known(b.known, intro_deps(b, uses, j, from, st2).seen),
    decreases uses.len() - j,
{
    if j < uses.len() {
        lemma_intro_dep_alike(a, b, uses[j], from, st1, st2);
        lemma_intro_dep_keeps(a, uses[j], from, st1);
        lemma_intro_dep_keeps(b, uses[j], from, st2);
        lemma_intro_deps_alike(
            a,
            b,
            uses,
            j + 1,
            from,
            intro_dep(a, uses[j], from, st1),
            intro_dep(b, uses[j], from, st2),
        );
    }
}

/// A walk from the new unit that reads no file finds the same units
/// whatever was warned before, and whatever the texts of the files are.
pub proof fn lemma_intro_walk_alike(
    a: IntroCtx,
    b: IntroCtx,
    head: int,
    st1: ClosureState,
    st2: ClosureState,
)
    requires
        0 <= head,
        same_intro(a, b),
        same_closure(st1, st2),
        intro_knows(a),
        intro_knows(b),
        intro_cached(a),
        units_known(a.known, st1.seen),
        units_known(b.known, st2.seen),
    ensures
        same_closure(intro_walk(a, head, st1), intro_walk(b, head, st2)),
    decreases a.known.len() - head,
{
    lemma_units_fit(a.known, st1.seen);
    if head < st1.seen.len() {
        let path = st1.seen[head];
        assert(a.known.contains(path));
        let i = choose|i: int| 0 <= i < a.known.len() && a.known[i] == path;
        assert(known_path(a.project, a.delphi, a.tree.canonical(a.known[i])));
        assert(b.tree.canonical(path) == a.tree.canonical(path));
        let load1 = uses_of(a.tree, a.project, a.delphi, path, st1.warnings);
        let load2 = uses_of(b.tree, b.project, b.delphi, path, st2.warnings);
        assert(load1.uses is Some && load1.uses == load2.uses);
        let uses = load1.uses.unwrap();
        let next1 = ClosureState {
            seen: st1.seen,
            names: st1.names,
            found: st1.found,
            warnings: load1.warnings,
        };
        let next2 = ClosureState {
            seen: st2.seen,
            names: st2.names,
            found: st2.found,
            warnings: load2.warnings,
        };
        lemma_intro_deps_alike(a, b, uses, 0, path, next1, next2);
        lemma_intro_walk_alike(
            a,
            b,
            head + 1,
            intro_deps(a, uses, 0, path, next1),
            intro_deps(b, uses, 0, path, next2),
        );
    }
}

} // verus!
