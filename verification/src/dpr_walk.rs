use vstd::prelude::*;

use crate::dpr_parse::{EntryModel, UsesList};
use crate::dpr_resolve::{
    ambiguous_dep_warning, map_model, matches_text, option_cache, option_cache_wf, resolve_by_name,
    resolve_name, MapModel, NameResolution, ResolveByName,
};
use crate::source_tree::SourceTree;
use crate::text::{concat, eq_ignore_case, lower_text, same_ignoring_case, to_lower};
use crate::text_map::{
    contains_text, copy_texts, find_text, first_index, lemma_first_from, push_text, TextMap,
};
use crate::unit_cache::{
    failed_read_warning, load_unit_file, loaded_unit, CacheModel, ReadError, UnitCache,
    UnitFileInfo,
};

verus! {

/// The paths that the first `n` lists hold, one list behind the other.
pub open spec fn bucket_paths(buckets: Seq<Vec<String>>, n: int) -> Seq<Seq<char>>
    decreases n,
{
    if n <= 0 {
        Seq::empty()
    } else {
        bucket_paths(buckets, n - 1) + buckets[n - 1].deep_view()
    }
}

/// The paths that the cache holds under its names.
pub open spec fn cache_paths(cache: UnitCache) -> Seq<Seq<char>> {
    bucket_paths(cache.by_name.values@, cache.by_name.values.len() as int)
}

pub open spec fn option_cache_paths(cache: Option<&UnitCache>) -> Seq<Seq<char>> {
    match cache {
        Some(c) => cache_paths(*c),
        None => Seq::empty(),
    }
}

/// Each path of each list is among the paths of the lists.
pub proof fn lemma_bucket_paths_hold(buckets: Seq<Vec<String>>, n: int, i: int, j: int)
    requires
        0 <= i < n <= buckets.len(),
        0 <= j < buckets[i].len(),
    ensures
        bucket_paths(buckets, n).contains(buckets[i].deep_view()[j]),
    decreases n,
{
    let all = bucket_paths(buckets, n);
    let before = bucket_paths(buckets, n - 1);
    if i == n - 1 {
        assert(all[before.len() + j] == buckets[i].deep_view()[j]);
    } else {
        lemma_bucket_paths_hold(buckets, n - 1, i, j);
        let k = choose|k: int| 0 <= k < before.len() && before[k] == buckets[i].deep_view()[j];
        assert(all[k] == before[k]);
    }
}

/// Every file that a name resolves to is among the known paths.
pub open spec fn resolvable(
    project: CacheModel,
    delphi: Option<CacheModel>,
    known: Seq<Seq<char>>,
) -> bool {
    forall|name: Seq<char>|
        (#[trigger] resolve_name(project, delphi, name)) is Unique ==> known.contains(
            resolve_name(project, delphi, name)->path,
        )
}

/// The file that a name resolves to in a cache is one of the paths of
/// the cache.
pub proof fn lemma_bucket_resolves(cache: UnitCache, key: Seq<char>)
    requires
        cache.wf(),
        cache@.names.contains_key(key),
    ensures
        cache_paths(cache).contains(cache@.names[key][0]),
{
    lemma_first_from(cache.by_name.key_texts(), key, 0);
    let i = cache.by_name.index_of(key).unwrap();
    assert(cache.by_name.values[i].len() > 0);
    lemma_bucket_paths_hold(cache.by_name.values@, cache.by_name.values.len() as int, i, 0);
}

/// The files that names resolve to are among the paths of the caches.
pub proof fn lemma_cache_paths_resolve(project_cache: UnitCache, delphi_cache: Option<&UnitCache>)
    requires
        project_cache.wf(),
        option_cache_wf(delphi_cache),
    ensures
        resolvable(
            project_cache@,
            option_cache(delphi_cache),
            cache_paths(project_cache) + option_cache_paths(delphi_cache),
        ),
{
    let known = cache_paths(project_cache) + option_cache_paths(delphi_cache);
    assert forall|name: Seq<char>|
        (#[trigger] resolve_name(project_cache@, option_cache(delphi_cache), name))
            is Unique implies known.contains(
        resolve_name(project_cache@, option_cache(delphi_cache), name)->path,
    ) by {
        let key = lower_text(name);
        let path = resolve_name(project_cache@, option_cache(delphi_cache), name)->path;
        if project_cache@.names.contains_key(key) {
            lemma_bucket_resolves(project_cache, key);
            let k = choose|k: int|
                0 <= k < cache_paths(project_cache).len() && cache_paths(project_cache)[k] == path;
            assert(known[k] == path);
        } else {
            let cache = *delphi_cache.unwrap();
            lemma_bucket_resolves(cache, key);
            let k = choose|k: int| 0 <= k < cache_paths(cache).len() && cache_paths(cache)[k] == path;
            assert(known[cache_paths(project_cache).len() + k] == path);
        }
    }
}

/// The units are units of known files, each once.
pub open spec fn units_known(known: Seq<Seq<char>>, paths: Seq<Seq<char>>) -> bool {
    paths.no_duplicates() && forall|k: int| 0 <= k < paths.len() ==> known.contains(#[trigger] paths[k])
}

/// There are no more units than known files.
pub proof fn lemma_units_fit(known: Seq<Seq<char>>, paths: Seq<Seq<char>>)
    requires
        units_known(known, paths),
    ensures
        paths.len() <= known.len(),
{
    paths.unique_seq_to_set();
    known.lemma_cardinality_of_set();
    vstd::seq_lib::seq_to_set_is_finite(known);
    assert(paths.to_set().subset_of(known.to_set())) by {
        assert forall|p: Seq<char>| paths.to_set().contains(p) implies known.to_set().contains(p) by {
            let k = choose|k: int| 0 <= k < paths.len() && paths[k] == p;
            assert(known.contains(paths[k]));
        }
    }
    vstd::set_lib::lemma_len_subset(paths.to_set(), known.to_set());
}

/// Units stay units of known files when a known file that is none of
/// them becomes one.
pub proof fn lemma_units_known_push(known: Seq<Seq<char>>, paths: Seq<Seq<char>>, path: Seq<char>)
    requires
        units_known(known, paths),
        known.contains(path),
        !paths.contains(path),
    ensures
        units_known(known, paths.push(path)),
{
    let more = paths.push(path);
    assert forall|i: int, j: int| 0 <= i < more.len() && 0 <= j < more.len() && i != j implies more[i]
        != more[j] by {
        if i < paths.len() && j < paths.len() {
            assert(paths[i] != paths[j]);
        } else if i < paths.len() {
            assert(paths.contains(paths[i]));
        } else {
            assert(paths.contains(paths[j]));
        }
    }
    assert forall|k: int| 0 <= k < more.len() implies known.contains(#[trigger] more[k]) by {
        if k < paths.len() {
            assert(more[k] == paths[k]);
        }
    }
}

/// The canonical paths of `paths`, in their order.
pub open spec fn canonical_paths(tree: SourceTree, paths: Seq<Seq<char>>) -> Seq<Seq<char>> {
    Seq::new(paths.len(), |i: int| tree.canonical(paths[i]))
}

/// The canonical path of one of the paths is one of their canonical paths.
pub proof fn lemma_canonical_paths_hold(tree: SourceTree, paths: Seq<Seq<char>>, path: Seq<char>)
    requires
        paths.contains(path),
    ensures
        canonical_paths(tree, paths).contains(tree.canonical(path)),
{
    let k = choose|k: int| 0 <= k < paths.len() && paths[k] == path;
    assert(canonical_paths(tree, paths)[k] == tree.canonical(path));
}

/// What a walk through the units works with: the tree, the two caches,
/// the map of the declared units, the name of the new unit, and the files
/// that it can meet.
pub struct WalkCtx {
    pub tree: SourceTree,
    pub project: CacheModel,
    pub delphi: Option<CacheModel>,
    pub map: MapModel,
    pub new_name: Seq<char>,
    pub known: Seq<Seq<char>>,
}

/// The known files of a walk hold every file that one of its names can
/// lead to: the declared files, and the files that names resolve to.
pub open spec fn knows_all(ctx: WalkCtx) -> bool {
    &&& ctx.map.keys.len() == ctx.map.values.len()
    &&& forall|i: int| 0 <= i < ctx.map.values.len() ==> ctx.known.contains(#[trigger] ctx.map.values[i])
    &&& resolvable(ctx.project, ctx.delphi, ctx.known)
}

/// The units met so far, each with the units that use it and with whether
/// it names the new unit, and the warnings given so far. A unit is known
/// by its offset in `paths`.
pub struct GraphState {
    pub paths: Seq<Seq<char>>,
    pub rev: Seq<Seq<usize>>,
    pub direct: Seq<bool>,
    pub warnings: Seq<Seq<char>>,
}

/// The units met by a walk.
pub struct ProjectGraph {
    pub paths: Vec<String>,
    pub rev: Vec<Vec<usize>>,
    pub direct: Vec<bool>,
}

impl ProjectGraph {
    /// Each unit has its list and its flag, and the lists hold units.
    pub open spec fn wf(&self) -> bool {
        &&& self.paths.len() == self.rev.len()
        &&& self.paths.len() == self.direct.len()
        &&& forall|i: int, j: int|
            0 <= i < self.rev.len() && 0 <= j < self.rev[i].len() ==> (#[trigger] self.rev[i][j])
                < self.paths.len()
    }
}

/// What the graph and the warnings hold, as a state.
pub open spec fn graph_state(g: ProjectGraph, warnings: Vec<String>) -> GraphState {
    GraphState {
        paths: g.paths.deep_view(),
        rev: g.rev.deep_view(),
        direct: g.direct@,
        warnings: warnings.deep_view(),
    }
}

/// The state with one more unit that nothing uses yet.
pub open spec fn with_node(st: GraphState, path: Seq<char>) -> GraphState {
    GraphState {
        paths: st.paths.push(path),
        rev: st.rev.push(Seq::empty()),
        direct: st.direct.push(false),
        warnings: st.warnings,
    }
}

/// The state with the warnings replaced.
pub open spec fn with_warnings(st: GraphState, warnings: Seq<Seq<char>>) -> GraphState {
    GraphState { paths: st.paths, rev: st.rev, direct: st.direct, warnings }
}

/// The state with the paths `values[k..]` as units, each once.
pub open spec fn seeded(values: Seq<Seq<char>>, k: int, st: GraphState) -> GraphState
    decreases values.len() - k,
{
    if k < 0 || k >= values.len() {
        st
    } else {
        seeded(
            values,
            k + 1,
            if st.paths.contains(values[k]) {
                st
            } else {
                with_node(st, values[k])
            },
        )
    }
}

/// A path that a used name resolved to, if it did, and the warnings after.
pub struct DepResolution {
    pub path: Option<Seq<char>>,
    pub warnings: Seq<Seq<char>>,
}

/// What the name `dep`, used by the unit in the file `from`, resolves to:
/// the file that the project file declares for it, else the one file that
/// the caches know under it. A name that several files declare resolves
/// to none and gives a warning.
pub open spec fn dep_resolution(
    map: MapModel,
    project: CacheModel,
    delphi: Option<CacheModel>,
    dep: Seq<char>,
    from: Seq<char>,
    warnings: Seq<Seq<char>>,
) -> DepResolution {
    match map.lookup(lower_text(dep)) {
        Some(path) => DepResolution { path: Some(path), warnings },
        None => match resolve_name(project, delphi, dep) {
            NameResolution::Unique { path, source } => DepResolution { path: Some(path), warnings },
            NameResolution::Ambiguous { count, source } => DepResolution {
                path: None,
                warnings: warnings.push(ambiguous_dep_warning(dep, from, count, source)),
            },
            NameResolution::NotFound => DepResolution { path: None, warnings },
        },
    }
}

/// A name that the project file does not declare and that several files
/// of the cache that counts declare resolves to no path, with a warning.
pub proof fn lemma_ambiguous_dep_is_dropped(
    map: MapModel,
    project: CacheModel,
    delphi: Option<CacheModel>,
    dep: Seq<char>,
    from: Seq<char>,
    warnings: Seq<Seq<char>>,
)
    requires
        map.lookup(lower_text(dep)) is None,
        project.ambiguous(lower_text(dep)) || (!project.names.contains_key(lower_text(dep))
            && delphi is Some && delphi.unwrap().ambiguous(lower_text(dep))),
    ensures
        dep_resolution(map, project, delphi, dep, from, warnings).path is None,
        dep_resolution(map, project, delphi, dep, from, warnings).warnings.len() == warnings.len()
            + 1,
{
}

/// The view of an optional text.
pub open spec fn option_path(r: Option<String>) -> Option<Seq<char>> {
    match r {
        Some(s) => Some(s@),
        None => None,
    }
}

/// Resolves a used name to a file: by the map of the declared units, else
/// by the caches. A name that several files declare resolves to none and
/// gives a warning.
pub fn resolve_dep_path(
    project_map: &TextMap<String>,
    project_cache: &UnitCache,
    delphi_cache: Option<&UnitCache>,
    dep_name: &str,
    source_path: &str,
    warnings: &mut Vec<String>,
) -> (r: Option<String>)
    requires
        project_map.wf(),
        project_cache.wf(),
        option_cache_wf(delphi_cache),
    ensures
        (DepResolution { path: option_path(r), warnings: final(warnings).deep_view() })
            == dep_resolution(
            map_model(*project_map),
            project_cache@,
            option_cache(delphi_cache),
            dep_name@,
            source_path@,
            old(warnings).deep_view(),
        ),
{
    let key = to_lower(dep_name);
    match project_map.find(key.as_str()) {
        Some(i) => {
            assert(project_map.values.deep_view()[i as int] == project_map.values[i as int]@);
            return Some(project_map.values[i].clone());
        },
        None => {},
    }
    match resolve_by_name(project_cache, delphi_cache, dep_name) {
        ResolveByName::Unique { path, source } => Some(path),
        ResolveByName::Ambiguous { count, source } => {
            let tail = crate::dpr_resolve::matches_message(count, source);
            let parts = vec![
                "warning: ambiguous unit ",
                dep_name,
                " referenced by ",
                source_path,
                tail.as_str(),
            ];
            assert(parts.deep_view() =~= seq![
                "warning: ambiguous unit "@,
                dep_name@,
                " referenced by "@,
                source_path@,
                matches_text(count as int, source),
            ]);
            push_text(warnings, concat(&parts));
            None
        },
        ResolveByName::NotFound => None,
    }
}

/// The names that a unit uses, if the unit could be read and named, and
/// the warnings after.
pub struct UsesLoad {
    pub uses: Option<Seq<Seq<char>>>,
    pub warnings: Seq<Seq<char>>,
}

/// The names that the unit in the file `path` uses: those that the
/// project cache holds for the file, else those of the fallback cache,
/// else those that reading the file gives. A file that the tree does not
/// hold gives none.
pub open spec fn uses_of(
    tree: SourceTree,
    project: CacheModel,
    delphi: Option<CacheModel>,
    path: Seq<char>,
    warnings: Seq<Seq<char>>,
) -> UsesLoad {
    let canonical = tree.canonical(path);
    if project.units.contains_key(canonical) {
        UsesLoad { uses: Some(project.units[canonical].uses), warnings }
    } else if delphi is Some && delphi.unwrap().units.contains_key(canonical) {
        UsesLoad { uses: Some(delphi.unwrap().units[canonical].uses), warnings }
    } else if !tree.has_file(canonical) {
        UsesLoad { uses: None, warnings }
    } else {
        let got = loaded_unit(tree, canonical, tree.contents(canonical).unwrap(), warnings);
        UsesLoad {
            uses: match got.unit {
                Some(unit) => Some(unit.uses),
                None => None,
            },
            warnings: got.warnings,
        }
    }
}

/// The texts of an optional list of strings.
pub open spec fn option_texts(r: Option<Vec<String>>) -> Option<Seq<Seq<char>>> {
    match r {
        Some(v) => Some(v.deep_view()),
        None => None,
    }
}

/// The names that the unit in the file `unit_path` uses, from the caches
/// or else from the file itself. The result is always `Ok`; `Ok(None)`
/// says that the tree does not hold the file or that the file holds no
/// unit.
pub fn load_unit_uses(
    tree: &SourceTree,
    project_cache: &UnitCache,
    delphi_cache: Option<&UnitCache>,
    unit_path: &str,
    warnings: &mut Vec<String>,
) -> (r: Result<Option<Vec<String>>, ReadError>)
    requires
        tree.wf(),
        project_cache.wf(),
        option_cache_wf(delphi_cache),
    ensures
        r matches Ok(uses) && (UsesLoad {
            uses: option_texts(uses),
            warnings: final(warnings).deep_view(),
        }) == uses_of(
            *tree,
            project_cache@,
            option_cache(delphi_cache),
            unit_path@,
            old(warnings).deep_view(),
        ),
{
    let canonical = tree.canonicalize(unit_path);
    match project_cache.by_path.get(canonical.as_str()) {
        Some(unit) => {
            return Ok(Some(copy_texts(&unit.uses)));
        },
        None => {},
    }
    match delphi_cache {
        Some(cache) => match cache.by_path.get(canonical.as_str()) {
            Some(unit) => {
                return Ok(Some(copy_texts(&unit.uses)));
            },
            None => {},
        },
        None => {},
    }
    match load_unit_file(tree, canonical.as_str(), warnings) {
        Err(_) => Ok(None),
        Ok(None) => Ok(None),
        Ok(Some(unit)) => Ok(Some(unit.uses)),
    }
}

/// The state after the unit `source` was seen to use the name `dep`. The
/// name of the new unit marks `source` as a direct importer. Any other
/// name that resolves to a file makes that file a unit, if it is none
/// yet, and `source` one of the units that use it.
pub open spec fn with_dep(ctx: WalkCtx, dep: Seq<char>, source: int, st: GraphState) -> GraphState {
    if same_ignoring_case(dep, ctx.new_name) {
        GraphState {
            paths: st.paths,
            rev: st.rev,
            direct: st.direct.update(source, true),
            warnings: st.warnings,
        }
    } else {
        let found = dep_resolution(
            ctx.map,
            ctx.project,
            ctx.delphi,
            dep,
            st.paths[source],
            st.warnings,
        );
        match found.path {
            None => with_warnings(st, found.warnings),
            Some(path) => {
                let known = first_index(st.paths, path);
                let target = match known {
                    Some(id) => id,
                    None => st.paths.len() as int,
                };
                let grown = if known is Some {
                    with_warnings(st, found.warnings)
                } else {
                    with_node(with_warnings(st, found.warnings), path)
                };
                GraphState {
                    paths: grown.paths,
                    rev: grown.rev.update(target, grown.rev[target].push(source as usize)),
                    direct: grown.direct,
                    warnings: grown.warnings,
                }
            },
        }
    }
}

/// The state after the unit `source` was seen to use the names
/// `uses[j..]`.
pub open spec fn with_deps(
    ctx: WalkCtx,
    uses: Seq<Seq<char>>,
    j: int,
    source: int,
    st: GraphState,
) -> GraphState
    decreases uses.len() - j,
{
    if j < 0 || j >= uses.len() {
        st
    } else {
        with_deps(ctx, uses, j + 1, source, with_dep(ctx, uses[j], source, st))
    }
}

/// Walks breadth first through the units from the unit `head` on: each
/// unit's uses are taken in, which may add units behind the last; a unit
/// that cannot be read gives a warning. The walk ends because each unit
/// is one of the known files, and none is a unit twice.
pub open spec fn walk(ctx: WalkCtx, head: int, st: GraphState) -> GraphState
    decreases ctx.known.len() - head,
    when units_known(ctx.known, st.paths)
    via walk_decreases
{
    if head < 0 || head >= st.paths.len() {
        st
    } else {
        let path = st.paths[head];
        let load = uses_of(ctx.tree, ctx.project, ctx.delphi, path, st.warnings);
        match load.uses {
            None => walk(
                ctx,
                head + 1,
                with_warnings(st, load.warnings.push(failed_read_warning(path))),
            ),
            Some(uses) => walk(
                ctx,
                head + 1,
                with_deps(ctx, uses, 0, head, with_warnings(st, load.warnings)),
            ),
        }
    }
}

#[via_fn]
proof fn walk_decreases(ctx: WalkCtx, head: int, st: GraphState) {
    lemma_units_fit(ctx.known, st.paths);
}

/// The file that a used name leads to is a known file.
pub proof fn lemma_dep_is_known(ctx: WalkCtx, dep: Seq<char>, from: Seq<char>, warnings: Seq<Seq<char>>)
    requires
        knows_all(ctx),
    ensures
        dep_resolution(ctx.map, ctx.project, ctx.delphi, dep, from, warnings).path matches Some(path)
            ==> ctx.known.contains(path),
{
    lemma_first_from(ctx.map.keys, lower_text(dep), 0);
    if ctx.map.lookup(lower_text(dep)) is None {
        if dep_resolution(ctx.map, ctx.project, ctx.delphi, dep, from, warnings).path is Some {
            assert(resolve_name(ctx.project, ctx.delphi, dep) is Unique);
        }
    }
}

/// A used name adds no unit but one of a known file that is no unit yet.
pub proof fn lemma_with_dep_keeps(ctx: WalkCtx, dep: Seq<char>, source: int, st: GraphState)
    requires
        knows_all(ctx),
        units_known(ctx.known, st.paths),
        0 <= source < st.paths.len(),
    ensures
        units_known(ctx.known, with_dep(ctx, dep, source, st).paths),
        with_dep(ctx, dep, source, st).paths.len() >= st.paths.len(),
{
    if !same_ignoring_case(dep, ctx.new_name) {
        let found = dep_resolution(
            ctx.map,
            ctx.project,
            ctx.delphi,
            dep,
            st.paths[source],
            st.warnings,
        );
        lemma_dep_is_known(ctx, dep, st.paths[source], st.warnings);
        match found.path {
            None => {},
            Some(path) => {
                lemma_first_from(st.paths, path, 0);
                if first_index(st.paths, path) is None {
                    lemma_units_known_push(ctx.known, st.paths, path);
                }
            },
        }
    }
}

/// The declared files become units of known files.
pub proof fn lemma_seeded_keeps(known: Seq<Seq<char>>, values: Seq<Seq<char>>, k: int, st: GraphState)
    requires
        0 <= k,
        units_known(known, st.paths),
        forall|i: int| 0 <= i < values.len() ==> known.contains(#[trigger] values[i]),
    ensures
        units_known(known, seeded(values, k, st).paths),
    decreases values.len() - k,
{
    if k < values.len() {
        if st.paths.contains(values[k]) {
            lemma_seeded_keeps(known, values, k + 1, st);
        } else {
            lemma_units_known_push(known, st.paths, values[k]);
            lemma_seeded_keeps(known, values, k + 1, with_node(st, values[k]));
        }
    }
}

impl ProjectGraph {
    /// A graph without units.
    pub fn new() -> (r: ProjectGraph)
        ensures
            r.wf(),
            r.paths.len() == 0,
    {
        ProjectGraph { paths: Vec::new(), rev: Vec::new(), direct: Vec::new() }
    }

    /// Adds a unit that nothing uses yet.
    pub fn add_node(&mut self, path: String)
        requires
            old(self).wf(),
        ensures
            final(self).wf(),
            forall|warnings: Vec<String>|
                #[trigger] graph_state(*final(self), warnings) == with_node(
                    graph_state(*old(self), warnings),
                    path@,
                ),
            final(self).paths.deep_view() == old(self).paths.deep_view().push(path@),
            final(self).paths.len() == old(self).paths.len() + 1,
    {
        let ghost before = *self;
        self.paths.push(path);
        let fresh: Vec<usize> = Vec::new();
        assert(fresh.deep_view() =~= Seq::<usize>::empty());
        self.rev.push(fresh);
        self.direct.push(false);
        proof {
            assert(self.paths.deep_view() =~= before.paths.deep_view().push(path@));
            assert(self.rev.deep_view() =~= before.rev.deep_view().push(Seq::empty()));
            assert forall|i: int, j: int|
                0 <= i < self.rev.len() && 0 <= j < self.rev[i].len() implies (
            #[trigger] self.rev[i][j]) < self.paths.len() by {
                if i < before.rev.len() {
                    assert(self.rev[i] == before.rev[i]);
                    assert(before.rev[i][j] < before.paths.len());
                }
            }
        }
    }

    /// Records that the unit `source` uses the unit `target`.
    pub fn add_edge(&mut self, target: usize, source: usize)
        requires
            old(self).wf(),
            target < old(self).paths.len(),
            source < old(self).paths.len(),
        ensures
            final(self).wf(),
            final(self).paths == old(self).paths,
            final(self).direct == old(self).direct,
            final(self).rev.deep_view() == old(self).rev.deep_view().update(
                target as int,
                old(self).rev.deep_view()[target as int].push(source),
            ),
    {
        let ghost before = *self;
        self.rev[target].push(source);
        proof {
            assert(before.rev.deep_view()[target as int] =~= before.rev[target as int]@);
            assert(self.rev[target as int].deep_view() =~= self.rev[target as int]@);
            assert(self.rev.deep_view() =~= before.rev.deep_view().update(
                target as int,
                before.rev.deep_view()[target as int].push(source),
            ));
            assert forall|i: int, j: int|
                0 <= i < self.rev.len() && 0 <= j < self.rev[i].len() implies (
            #[trigger] self.rev[i][j]) < self.paths.len() by {
                if i != target {
                    assert(self.rev[i] == before.rev[i]);
                    assert(before.rev[i][j] < before.paths.len());
                } else if j < before.rev[i].len() {
                    assert(self.rev[i][j] == before.rev[i][j]);
                    assert(before.rev[i][j] < before.paths.len());
                }
            }
        }
    }
}

/// What a walk for the unit `new_name` works with.
pub open spec fn walk_ctx(
    tree: SourceTree,
    project_cache: UnitCache,
    delphi_cache: Option<&UnitCache>,
    map: MapModel,
    new_name: Seq<char>,
) -> WalkCtx {
    WalkCtx {
        tree,
        project: project_cache@,
        delphi: option_cache(delphi_cache),
        map,
        new_name,
        known: map.values + (cache_paths(project_cache) + option_cache_paths(delphi_cache)),
    }
}

/// The known files of a walk hold every file that its names can lead to.
pub proof fn lemma_walk_ctx_knows(
    tree: SourceTree,
    project_cache: UnitCache,
    delphi_cache: Option<&UnitCache>,
    map: MapModel,
    new_name: Seq<char>,
)
    requires
        project_cache.wf(),
        option_cache_wf(delphi_cache),
        map.keys.len() == map.values.len(),
    ensures
        knows_all(walk_ctx(tree, project_cache, delphi_cache, map, new_name)),
{
    let ctx = walk_ctx(tree, project_cache, delphi_cache, map, new_name);
    let caches = cache_paths(project_cache) + option_cache_paths(delphi_cache);
    lemma_cache_paths_resolve(project_cache, delphi_cache);
    assert forall|i: int| 0 <= i < map.values.len() implies ctx.known.contains(
        #[trigger] map.values[i],
    ) by {
        assert(ctx.known[i] == map.values[i]);
    }
    assert forall|name: Seq<char>|
        (#[trigger] resolve_name(ctx.project, ctx.delphi, name)) is Unique implies ctx.known.contains(
        resolve_name(ctx.project, ctx.delphi, name)->path,
    ) by {
        let path = resolve_name(ctx.project, ctx.delphi, name)->path;
        let k = choose|k: int| 0 <= k < caches.len() && caches[k] == path;
        assert(ctx.known[map.values.len() + k] == path);
    }
}

/// The walk of a project file starts from units of known files, so that
/// it comes to an end.
pub proof fn lemma_walk_starts_known(
    tree: SourceTree,
    project_cache: UnitCache,
    delphi_cache: Option<&UnitCache>,
    map: MapModel,
    new_name: Seq<char>,
    warnings: Seq<Seq<char>>,
)
    requires
        project_cache.wf(),
        option_cache_wf(delphi_cache),
        map.keys.len() == map.values.len(),
    ensures
        units_known(
            walk_ctx(tree, project_cache, delphi_cache, map, new_name).known,
            walk_start(map, warnings).paths,
        ),
{
    let ctx = walk_ctx(tree, project_cache, delphi_cache, map, new_name);
    lemma_walk_ctx_knows(tree, project_cache, delphi_cache, map, new_name);
    lemma_seeded_keeps(
        ctx.known,
        map.values,
        0,
        GraphState { paths: Seq::empty(), rev: Seq::empty(), direct: Seq::empty(), warnings },
    );
}

fn take_dep(
    tree: &SourceTree,
    project_cache: &UnitCache,
    delphi_cache: Option<&UnitCache>,
    project_map: &TextMap<String>,
    new_name: &str,
    dep: &str,
    source: usize,
    graph: &mut ProjectGraph,
    warnings: &mut Vec<String>,
)
    requires
        project_map.wf(),
        project_cache.wf(),
        option_cache_wf(delphi_cache),
        old(graph).wf(),
        source < old(graph).paths.len(),
    ensures
        final(graph).wf(),
        final(graph).paths.len() >= old(graph).paths.len(),
        graph_state(*final(graph), *final(warnings)) == with_dep(
            walk_ctx(*tree, *project_cache, delphi_cache, map_model(*project_map), new_name@),
            dep@,
            source as int,
            graph_state(*old(graph), *old(warnings)),
        ),
{
    if eq_ignore_case(dep, new_name) {
        graph.direct.set(source, true);
        return ;
    }
    assert(graph.paths.deep_view()[source as int] == graph.paths[source as int]@);
    let from = graph.paths[source].clone();
    let found = resolve_dep_path(
        project_map,
        project_cache,
        delphi_cache,
        dep,
        from.as_str(),
        warnings,
    );
    match found {
        None => {},
        Some(path) => {
            let target = match find_text(&graph.paths, path.as_str()) {
                Some(id) => id,
                None => {
                    graph.add_node(path);
                    graph.paths.len() - 1
                },
            };
            let ghost grown = graph_state(*graph, *warnings);
            graph.add_edge(target, source);
        },
    }
}

/// Takes in the uses of every unit from the unit `head` on.
fn walk_units(
    tree: &SourceTree,
    project_cache: &UnitCache,
    delphi_cache: Option<&UnitCache>,
    project_map: &TextMap<String>,
    new_name: &str,
    graph: &mut ProjectGraph,
    warnings: &mut Vec<String>,
)
    requires
        tree.wf(),
        project_map.wf(),
        project_cache.wf(),
        option_cache_wf(delphi_cache),
        old(graph).wf(),
        units_known(
            walk_ctx(*tree, *project_cache, delphi_cache, map_model(*project_map), new_name@).known,
            old(graph).paths.deep_view(),
        ),
    ensures
        final(graph).wf(),
        graph_state(*final(graph), *final(warnings)) == walk(
            walk_ctx(*tree, *project_cache, delphi_cache, map_model(*project_map), new_name@),
            0,
            graph_state(*old(graph), *old(warnings)),
        ),
{
    let ghost ctx = walk_ctx(
        *tree,
        *project_cache,
        delphi_cache,
        map_model(*project_map),
        new_name@,
    );
    let ghost goal = walk(ctx, 0, graph_state(*graph, *warnings));
    proof {
        lemma_walk_ctx_knows(
            *tree,
            *project_cache,
            delphi_cache,
            map_model(*project_map),
            new_name@,
        );
    }
    let mut head: usize = 0;
    while head < graph.paths.len()
        invariant
            graph.wf(),
            knows_all(ctx),
            units_known(ctx.known, graph.paths.deep_view()),
            walk(ctx, head as int, graph_state(*graph, *warnings)) == goal,
        decreases ctx.known.len() - head,
    {
        proof {
            lemma_units_fit(ctx.known, graph.paths.deep_view());
        }
        assert(graph.paths.deep_view()[head as int] == graph.paths[head as int]@);
        let unit_path = graph.paths[head].clone();
        match load_unit_uses(tree, project_cache, delphi_cache, unit_path.as_str(), warnings) {
            Err(_) => {},
            Ok(None) => {
                let parts = vec!["warning: failed to read unit at ", unit_path.as_str()];
                assert(parts.deep_view() =~= seq!["warning: failed to read unit at "@, unit_path@]);
                push_text(warnings, concat(&parts));
            },
            Ok(Some(uses)) => {
                let ghost start = graph_state(*graph, *warnings);
                let mut j: usize = 0;
                while j < uses.len()
                    invariant
                        j <= uses.len(),
                        graph.wf(),
                        head < graph.paths.len(),
                        units_known(ctx.known, graph.paths.deep_view()),
                        with_deps(
                            ctx,
                            uses.deep_view(),
                            j as int,
                            head as int,
                            graph_state(*graph, *warnings),
                        ) == with_deps(ctx, uses.deep_view(), 0, head as int, start),
                    decreases uses.len() - j,
                {
                    assert(uses.deep_view()[j as int] == uses[j as int]@);
                    proof {
                        lemma_with_dep_keeps(
                            ctx,
                            uses[j as int]@,
                            head as int,
                            graph_state(*graph, *warnings),
                        );
                    }
                    take_dep(
                        tree,
                        project_cache,
                        delphi_cache,
                        project_map,
                        new_name,
                        uses[j].as_str(),
                        head,
                        graph,
                        warnings,
                    );
                    j += 1;
                }
            },
        }
        head += 1;
    }
}

/// Whether the unit `id` is a direct importer, or uses a unit that is
/// found to depend on one in at most `n - 1` steps.
pub open spec fn reach(rev: Seq<Seq<usize>>, direct: Seq<bool>, id: int, n: nat) -> bool
    decreases n,
{
    0 <= id < direct.len() && (direct[id] || (n > 0 && exists|c: int, k: int|
        0 <= c < rev.len() && 0 <= k < rev[c].len() && #[trigger] rev[c][k] == id && reach(
            rev,
            direct,
            c,
            (n - 1) as nat,
        )))
}

/// Whether the unit `id` depends on the new unit: it is a direct
/// importer, or it uses, through any number of units, a direct importer.
pub open spec fn depends(rev: Seq<Seq<usize>>, direct: Seq<bool>, id: int) -> bool {
    exists|n: nat| reach(rev, direct, id, n)
}

/// The flags mark the units that depend on the new unit, and no others.
pub open spec fn marks_dependents(flags: Seq<bool>, rev: Seq<Seq<usize>>, direct: Seq<bool>) -> bool {
    flags.len() == direct.len() && forall|id: int|
        0 <= id < flags.len() ==> (#[trigger] flags[id] <==> depends(rev, direct, id))
}

/// How many flags are not set.
pub open spec fn count_false(flags: Seq<bool>) -> nat
    decreases flags.len(),
{
    if flags.len() == 0 {
        0
    } else {
        count_false(flags.drop_last()) + if flags.last() {
            0nat
        } else {
            1nat
        }
    }
}

pub proof fn lemma_count_false_set(flags: Seq<bool>, i: int)
    requires
        0 <= i < flags.len(),
        !flags[i],
    ensures
        count_false(flags.update(i, true)) + 1 == count_false(flags),
    decreases flags.len(),
{
    let after = flags.update(i, true);
    if i == flags.len() - 1 {
        assert(after.drop_last() =~= flags.drop_last());
    } else {
        assert(after.drop_last() =~= flags.drop_last().update(i, true));
        lemma_count_false_set(flags.drop_last(), i);
    }
}

/// Flags that hold the direct importers and with each unit those that use
/// it hold every unit that depends on the new unit.
pub proof fn lemma_closed_flags_hold_reach(
    flags: Seq<bool>,
    rev: Seq<Seq<usize>>,
    direct: Seq<bool>,
    id: int,
    n: nat,
)
    requires
        flags.len() == direct.len(),
        rev.len() == direct.len(),
        forall|i: int| 0 <= i < direct.len() && direct[i] ==> flags[i],
        forall|c: int, k: int|
            0 <= c < rev.len() && 0 <= k < rev[c].len() && flags[c] && (#[trigger] rev[c][k])
                < flags.len() ==> flags[rev[c][k] as int],
        reach(rev, direct, id, n),
    ensures
        flags[id],
    decreases n,
{
    if !direct[id] {
        let (c, k) = choose|c: int, k: int|
            0 <= c < rev.len() && 0 <= k < rev[c].len() && #[trigger] rev[c][k] == id && reach(
                rev,
                direct,
                c,
                (n - 1) as nat,
            );
        lemma_closed_flags_hold_reach(flags, rev, direct, c, (n - 1) as nat);
    }
}

/// Marks the units that depend on the new unit: the direct importers and,
/// breadth first, the units that use a marked unit.
pub fn mark_dependents(users: &Vec<Vec<usize>>, importers: &Vec<bool>) -> (r: Vec<bool>)
    requires
        users.len() == importers.len(),
        forall|i: int, j: int|
            0 <= i < users.len() && 0 <= j < users[i].len() ==> (#[trigger] users[i][j])
                < importers.len(),
    ensures
        marks_dependents(r@, users.deep_view(), importers@),
{
    let n = importers.len();
    let ghost rev = users.deep_view();
    let ghost direct = importers@;
    let mut flags: Vec<bool> = Vec::new();
    let mut queue: Vec<usize> = Vec::new();
    let mut id: usize = 0;
    while id < n
        invariant
            id <= n,
            flags.len() == id,
            forall|i: int| 0 <= i < id ==> flags[i] == direct[i],
            forall|q: int| 0 <= q < queue.len() ==> queue[q] < id && flags[queue[q] as int],
            forall|i: int| 0 <= i < id && flags[i] ==> queue@.contains(i as usize),
            count_false(flags@) + queue.len() == id,
        decreases n - id,
    {
        let ghost before = flags@;
        let ghost queued = queue@;
        flags.push(importers[id]);
        assert(flags@.drop_last() =~= before);
        if importers[id] {
            queue.push(id);
            assert(queue@[queued.len() as int] == id);
            assert forall|i: int| 0 <= i < id + 1 && flags[i] implies queue@.contains(i as usize) by {
                if i < id {
                    let q = choose|q: int| 0 <= q < queued.len() && queued[q] == i as usize;
                    assert(queue@[q] == i as usize);
                }
            }
        } else {
            assert forall|i: int| 0 <= i < id + 1 && flags[i] implies queue@.contains(i as usize) by {
                let q = choose|q: int| 0 <= q < queued.len() && queued[q] == i as usize;
                assert(queue@[q] == i as usize);
            }
        }
        id += 1;
    }
    assert forall|i: int| 0 <= i < n && flags[i] implies reach(rev, direct, i, 0) by {}
    let mut head: usize = 0;
    while head < queue.len()
        invariant
            head <= queue.len(),
            flags.len() == n,
            forall|i: int| 0 <= i < n && direct[i] ==> flags[i],
            forall|i: int| 0 <= i < n && flags[i] ==> depends(rev, direct, i),
            forall|q: int| 0 <= q < queue.len() ==> queue[q] < n && flags[queue[q] as int],
            forall|i: int| 0 <= i < n && flags[i] ==> queue@.contains(i as usize),
            forall|q: int, k: int|
                0 <= q < head && 0 <= k < rev[queue[q] as int].len() ==> flags[(
                #[trigger] rev[queue[q] as int][k]) as int],
        decreases count_false(flags@) + queue.len() - head,
    {
        let current = queue[head];
        assert(rev[current as int] =~= users[current as int]@);
        let list = &users[current];
        let mut k: usize = 0;
        let ghost total = count_false(flags@) + queue.len();
        while k < list.len()
            invariant
                k <= list.len(),
                head < queue.len(),
                queue[head as int] == current,
                list@ == rev[current as int],
                flags.len() == n,
                forall|i: int| 0 <= i < n && direct[i] ==> flags[i],
                forall|i: int| 0 <= i < n && flags[i] ==> depends(rev, direct, i),
                forall|q: int| 0 <= q < queue.len() ==> queue[q] < n && flags[queue[q] as int],
                forall|i: int| 0 <= i < n && flags[i] ==> queue@.contains(i as usize),
                forall|q: int, j: int|
                    0 <= q < head && 0 <= j < rev[queue[q] as int].len() ==> flags[(
                    #[trigger] rev[queue[q] as int][j]) as int],
                forall|j: int| 0 <= j < k ==> flags[(#[trigger] list[j]) as int],
                count_false(flags@) + queue.len() == total,
            decreases list.len() - k,
        {
            let next = list[k];
            assert(users[current as int][k as int] < importers.len());
            if !flags[next] {
                let ghost before = flags@;
                let ghost queued = queue@;
                proof {
                    lemma_count_false_set(flags@, next as int);
                    let m = choose|m: nat| reach(rev, direct, current as int, m);
                    assert(rev[current as int][k as int] == next);
                    assert(reach(rev, direct, next as int, m + 1));
                }
                flags.set(next, true);
                queue.push(next);
                proof {
                    assert(queue@[queued.len() as int] == next);
                    assert forall|i: int| 0 <= i < n && flags[i] implies queue@.contains(
                        i as usize,
                    ) by {
                        if i != next {
                            let q = choose|q: int| 0 <= q < queued.len() && queued[q] == i as usize;
                            assert(queue@[q] == i as usize);
                        }
                    }
                }
            }
            k += 1;
        }
        head += 1;
    }
    proof {
        assert forall|c: int, k: int|
            0 <= c < rev.len() && 0 <= k < rev[c].len() && flags[c] && (#[trigger] rev[c][k])
                < flags.len() implies flags[rev[c][k] as int] by {
            let q = choose|q: int| 0 <= q < queue.len() && queue[q] == c as usize;
            assert(flags[(rev[queue[q] as int][k]) as int]);
        }
        assert forall|i: int| 0 <= i < flags.len() implies (#[trigger] flags[i] <==> depends(
            rev,
            direct,
            i,
        )) by {
            if depends(rev, direct, i) {
                let m = choose|m: nat| reach(rev, direct, i, m);
                lemma_closed_flags_hold_reach(flags@, rev, direct, i, m);
            }
        }
    }
    flags
}

/// The units that a project file reaches, each with whether it names the
/// new unit itself and whether it depends on it. A unit is known by its
/// offset in `paths`.
pub struct ProjectDependents {
    pub dependents: Vec<bool>,
    pub direct: Vec<bool>,
    pub paths: Vec<String>,
}

impl ProjectDependents {
    pub open spec fn wf(&self) -> bool {
        self.dependents.len() == self.paths.len() && self.direct.len() == self.paths.len()
    }
}

/// The state in which a walk starts: the declared files as units.
pub open spec fn walk_start(map: MapModel, warnings: Seq<Seq<char>>) -> GraphState {
    seeded(
        map.values,
        0,
        GraphState { paths: Seq::empty(), rev: Seq::empty(), direct: Seq::empty(), warnings },
    )
}

/// Walks through the units that the declared units reach and marks those
/// that depend on the new unit. A unit that cannot be read gives a
/// warning and is taken as using nothing; the result is always `Ok`.
pub fn compute_project_dependents(
    tree: &SourceTree,
    project_cache: &UnitCache,
    delphi_cache: Option<&UnitCache>,
    project_map: &TextMap<String>,
    new_unit: &UnitFileInfo,
    warnings: &mut Vec<String>,
) -> (r: Result<ProjectDependents, ReadError>)
    requires
        tree.wf(),
        project_map.wf(),
        project_cache.wf(),
        option_cache_wf(delphi_cache),
    ensures
        ({
            let end = walk(
                walk_ctx(
                    *tree,
                    *project_cache,
                    delphi_cache,
                    map_model(*project_map),
                    new_unit.name@,
                ),
                0,
                walk_start(map_model(*project_map), old(warnings).deep_view()),
            );
            &&& final(warnings).deep_view() == end.warnings
            &&& r matches Ok(found) && {
                &&& found.wf()
                &&& found.paths.deep_view() == end.paths
                &&& found.direct@ == end.direct
                &&& marks_dependents(found.dependents@, end.rev, end.direct)
            }
        }),
{
    let mut graph = ProjectGraph::new();
    assert(graph.paths.deep_view() =~= Seq::<Seq<char>>::empty());
    assert(graph.rev.deep_view() =~= Seq::<Seq<usize>>::empty());
    assert(graph.direct@ =~= Seq::<bool>::empty());
    let ghost values = project_map.values.deep_view();
    let ghost ctx = walk_ctx(
        *tree,
        *project_cache,
        delphi_cache,
        map_model(*project_map),
        new_unit.name@,
    );
    proof {
        lemma_walk_ctx_knows(
            *tree,
            *project_cache,
            delphi_cache,
            map_model(*project_map),
            new_unit.name@,
        );
    }
    let mut k: usize = 0;
    while k < project_map.values.len()
        invariant
            k <= project_map.values.len(),
            graph.wf(),
            *warnings == *old(warnings),
            units_known(ctx.known, graph.paths.deep_view()),
            seeded(values, k as int, graph_state(graph, *warnings)) == walk_start(
                map_model(*project_map),
                old(warnings).deep_view(),
            ),
        decreases project_map.values.len() - k,
    {
        assert(values[k as int] == project_map.values[k as int]@);
        if !contains_text(&graph.paths, project_map.values[k].as_str()) {
            proof {
                lemma_units_known_push(ctx.known, graph.paths.deep_view(), values[k as int]);
            }
            graph.add_node(project_map.values[k].clone());
        }
        k += 1;
    }
    walk_units(
        tree,
        project_cache,
        delphi_cache,
        project_map,
        new_unit.name.as_str(),
        &mut graph,
        warnings,
    );
    let dependents = mark_dependents(&graph.rev, &graph.direct);
    Ok(ProjectDependents { dependents, direct: graph.direct, paths: graph.paths })
}

/// The unit that stands for the entry `name`: that of the file which the
/// map holds for the name.
pub open spec fn entry_unit(name: Seq<char>, map: MapModel, paths: Seq<Seq<char>>) -> Option<int> {
    match map.lookup(lower_text(name)) {
        Some(path) => first_index(paths, path),
        None => None,
    }
}

/// Whether the unit that stands for the entry `name` is flagged.
pub open spec fn entry_marked(
    name: Seq<char>,
    map: MapModel,
    paths: Seq<Seq<char>>,
    flags: Seq<bool>,
) -> bool {
    match entry_unit(name, map, paths) {
        Some(id) => flags[id],
        None => false,
    }
}

fn is_entry_marked(name: &str, project_map: &TextMap<String>, paths: &Vec<String>, flags: &Vec<bool>) -> (r:
    bool)
    requires
        project_map.wf(),
        flags.len() == paths.len(),
    ensures
        r == entry_marked(name@, map_model(*project_map), paths.deep_view(), flags@),
{
    let key = to_lower(name);
    match project_map.find(key.as_str()) {
        Some(i) => {
            assert(project_map.values.deep_view()[i as int] == project_map.values[i as int]@);
            match find_text(paths, project_map.values[i].as_str()) {
                Some(id) => flags[id],
                None => false,
            }
        },
        None => false,
    }
}

/// Whether the project file needs the new unit: one of the units that it
/// declares depends on it.
pub open spec fn needs_unit(
    entries: Seq<EntryModel>,
    map: MapModel,
    paths: Seq<Seq<char>>,
    dependents: Seq<bool>,
) -> bool {
    exists|k: int|
        0 <= k < entries.len() && entry_marked((#[trigger] entries[k]).name, map, paths, dependents)
}

/// Whether the clause needs the new unit: whether one of its own entries
/// stands for a unit that depends on the new unit.
pub fn needs_new_unit(list: &UsesList, project_map: &TextMap<String>, found: &ProjectDependents) -> (r:
    bool)
    requires
        project_map.wf(),
        found.wf(),
    ensures
        r == needs_unit(
            list.entries.deep_view(),
            map_model(*project_map),
            found.paths.deep_view(),
            found.dependents@,
        ),
{
    let mut k: usize = 0;
    while k < list.entries.len()
        invariant
            k <= list.entries.len(),
            forall|j: int|
                0 <= j < k ==> !entry_marked(
                    (#[trigger] list.entries.deep_view()[j]).name,
                    map_model(*project_map),
                    found.paths.deep_view(),
                    found.dependents@,
                ),
        decreases list.entries.len() - k,
    {
        assert(list.entries.deep_view()[k as int] == list.entries[k as int].deep_view());
        if is_entry_marked(
            list.entries[k].name.as_str(),
            project_map,
            &found.paths,
            &found.dependents,
        ) {
            return true;
        }
        k += 1;
    }
    false
}

/// Whether the new entry can stand behind the entry `entry`: the entry is
/// written in the project file itself, and its unit names the new unit.
pub open spec fn is_introducer(
    entry: EntryModel,
    map: MapModel,
    paths: Seq<Seq<char>>,
    direct: Seq<bool>,
) -> bool {
    !entry.from_include && entry_marked(entry.name, map, paths, direct)
}

/// The first entry at or after `k`, in the order of the file, behind
/// which the new entry can stand.
pub open spec fn introducer_from(
    entries: Seq<EntryModel>,
    k: int,
    map: MapModel,
    paths: Seq<Seq<char>>,
    direct: Seq<bool>,
) -> Option<int>
    decreases entries.len() - k,
{
    if k < 0 || k >= entries.len() {
        None
    } else if is_introducer(entries[k], map, paths, direct) {
        Some(k)
    } else {
        introducer_from(entries, k + 1, map, paths, direct)
    }
}

/// What `introducer_from` finds is the first such entry.
pub proof fn lemma_introducer_is_first(
    entries: Seq<EntryModel>,
    k: int,
    map: MapModel,
    paths: Seq<Seq<char>>,
    direct: Seq<bool>,
)
    requires
        0 <= k,
    ensures
        match introducer_from(entries, k, map, paths, direct) {
            Some(i) => k <= i < entries.len() && is_introducer(entries[i], map, paths, direct)
                && forall|j: int| k <= j < i ==> !is_introducer(entries[j], map, paths, direct),
            None => forall|j: int|
                k <= j < entries.len() ==> !is_introducer(entries[j], map, paths, direct),
        },
    decreases entries.len() - k,
{
    if k < entries.len() && !is_introducer(entries[k], map, paths, direct) {
        lemma_introducer_is_first(entries, k + 1, map, paths, direct);
    }
}

/// The view of an optional offset.
pub open spec fn option_offset(r: Option<usize>) -> Option<int> {
    match r {
        Some(p) => Some(p as int),
        None => None,
    }
}

/// Finds the first entry, in the order of the file, that is written in
/// the project file itself and whose unit names the new unit.
pub fn find_direct_introducer_index(
    list: &UsesList,
    project_map: &TextMap<String>,
    found: &ProjectDependents,
) -> (r: Option<usize>)
    requires
        project_map.wf(),
        found.wf(),
    ensures
        option_offset(r) == introducer_from(
            list.entries.deep_view(),
            0,
            map_model(*project_map),
            found.paths.deep_view(),
            found.direct@,
        ),
        r matches Some(i) ==> i < list.entries.len(),
{
    let mut k: usize = 0;
    while k < list.entries.len()
        invariant
            k <= list.entries.len(),
            introducer_from(
                list.entries.deep_view(),
                k as int,
                map_model(*project_map),
                found.paths.deep_view(),
                found.direct@,
            ) == introducer_from(
                list.entries.deep_view(),
                0,
                map_model(*project_map),
                found.paths.deep_view(),
                found.direct@,
            ),
        decreases list.entries.len() - k,
    {
        assert(list.entries.deep_view()[k as int] == list.entries[k as int].deep_view());
        if !list.entries[k].from_include && is_entry_marked(
            list.entries[k].name.as_str(),
            project_map,
            &found.paths,
            &found.direct,
        ) {
            return Some(k);
        }
        k += 1;
    }
    None
}

/// The flags that mark the units which depend on the new unit.
pub open spec fn dependents_of(rev: Seq<Seq<usize>>, direct: Seq<bool>) -> Seq<bool> {
    Seq::new(direct.len(), |id: int| depends(rev, direct, id))
}

/// Flags that mark the dependents are those flags.
pub proof fn lemma_marks_are_dependents(flags: Seq<bool>, rev: Seq<Seq<usize>>, direct: Seq<bool>)
    requires
        marks_dependents(flags, rev, direct),
    ensures
        flags == dependents_of(rev, direct),
{
    assert(flags =~= dependents_of(rev, direct));
}

} // verus!
