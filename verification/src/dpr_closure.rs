use vstd::prelude::*;

use crate::dpr_parse::{EntryModel, UsesList};
use crate::dpr_resolve::{
    ambiguous_dep_warning, has_unit_path, known_path, known_unit, lookup_unit_info, map_model,
    matches_message, matches_text, option_cache, option_cache_wf, resolve_by_name, resolve_name,
    MapModel, NameResolution, ResolveByName,
};
use crate::dpr_walk::{
    cache_paths, canonical_paths, dep_resolution, lemma_cache_paths_resolve,
    lemma_canonical_paths_hold, lemma_dep_is_known, lemma_units_fit, lemma_units_known_push,
    lemma_walk_ctx_knows, load_unit_uses, option_cache_paths, resolve_dep_path, units_known,
    uses_of, walk_ctx,
};
use crate::source_tree::SourceTree;
use crate::text::{
    concat, concat_all, eq_ignore_case, lower_text, same_ignoring_case, text_eq, to_lower,
};
use crate::text_map::{contains_text, push_text, TextMap};
use crate::unit_cache::{
    failed_read_warning, CacheModel, ReadError, UnitCache, UnitFileInfo, UnitModel,
};

verus! {

/// What a list of units holds.
pub open spec fn units_view(units: Vec<UnitFileInfo>) -> Seq<UnitModel> {
    Seq::new(units.len() as nat, |i: int| units[i]@)
}

/// Appends `unit` to `units`.
pub fn push_unit(units: &mut Vec<UnitFileInfo>, unit: UnitFileInfo)
    ensures
        units_view(*final(units)) == units_view(*old(units)).push(unit@),
{
    units.push(unit);
    assert(units_view(*final(units)) =~= units_view(*old(units)).push(unit@));
}

/// The files seen by a walk, the names found, in lower case, the units
/// found, in the order in which they were found, and the warnings.
pub struct ClosureState {
    pub seen: Seq<Seq<char>>,
    pub names: Seq<Seq<char>>,
    pub found: Seq<UnitModel>,
    pub warnings: Seq<Seq<char>>,
}

/// What the vectors hold, as a state of a walk.
pub open spec fn closure_state(
    seen: Vec<String>,
    names: Vec<String>,
    found: Vec<UnitFileInfo>,
    warnings: Vec<String>,
) -> ClosureState {
    ClosureState {
        seen: seen.deep_view(),
        names: names.deep_view(),
        found: units_view(found),
        warnings: warnings.deep_view(),
    }
}

/// `seen` with `path`, if it does not hold it.
pub open spec fn with_seen(seen: Seq<Seq<char>>, path: Seq<char>) -> Seq<Seq<char>> {
    if seen.contains(path) {
        seen
    } else {
        seen.push(path)
    }
}

/// What the new unit brings with it, as seen from one used name.
pub struct IntroCtx {
    pub tree: SourceTree,
    pub project: CacheModel,
    pub delphi: Option<CacheModel>,
    pub map: MapModel,
    pub new_name: Seq<char>,
    pub root: Seq<char>,
    pub known: Seq<Seq<char>>,
}

/// The known files of a walk hold the canonical path of every file that
/// one of its names can lead to.
pub open spec fn intro_knows(ctx: IntroCtx) -> bool {
    forall|dep: Seq<char>, from: Seq<char>, warnings: Seq<Seq<char>>|
        (#[trigger] dep_resolution(ctx.map, ctx.project, ctx.delphi, dep, from, warnings)).path
            is Some ==> ctx.known.contains(
            ctx.tree.canonical(
                dep_resolution(ctx.map, ctx.project, ctx.delphi, dep, from, warnings).path.unwrap(),
            ),
        )
}

/// The state after the unit in the file `from` was seen to use the name
/// `dep`. The name of the new unit counts for nothing, nor does a name
/// that resolves to no file or to the file of the new unit. The file of
/// any other name is seen, and the first name that is met for a unit is
/// found, with its file.
pub open spec fn intro_dep(ctx: IntroCtx, dep: Seq<char>, from: Seq<char>, st: ClosureState) -> ClosureState {
    if same_ignoring_case(dep, ctx.new_name) {
        st
    } else {
        let resolved = dep_resolution(ctx.map, ctx.project, ctx.delphi, dep, from, st.warnings);
        match resolved.path {
            None => ClosureState {
                seen: st.seen,
                names: st.names,
                found: st.found,
                warnings: resolved.warnings,
            },
            Some(path) => {
                let canonical = ctx.tree.canonical(path);
                let key = lower_text(dep);
                if canonical == ctx.root {
                    ClosureState {
                        seen: st.seen,
                        names: st.names,
                        found: st.found,
                        warnings: resolved.warnings,
                    }
                } else if st.names.contains(key) {
                    ClosureState {
                        seen: with_seen(st.seen, canonical),
                        names: st.names,
                        found: st.found,
                        warnings: resolved.warnings,
                    }
                } else {
                    ClosureState {
                        seen: with_seen(st.seen, canonical),
                        names: st.names.push(key),
                        found: st.found.push(
                            UnitModel { name: dep, path: canonical, uses: Seq::empty() },
                        ),
                        warnings: resolved.warnings,
                    }
                }
            },
        }
    }
}

pub open spec fn intro_deps(
    ctx: IntroCtx,
    uses: Seq<Seq<char>>,
    j: int,
    from: Seq<char>,
    st: ClosureState,
) -> ClosureState
    decreases uses.len() - j,
{
    if j < 0 || j >= uses.len() {
        st
    } else {
        intro_deps(ctx, uses, j + 1, from, intro_dep(ctx, uses[j], from, st))
    }
}

/// Walks breadth first from the file `head` on through the files that the
/// new unit reaches. The walk ends because each file seen is one of the
/// known files, and none is seen twice.
pub open spec fn intro_walk(ctx: IntroCtx, head: int, st: ClosureState) -> ClosureState
    decreases ctx.known.len() - head,
    when units_known(ctx.known, st.seen)
    via intro_walk_decreases
{
    if head < 0 || head >= st.seen.len() {
        st
    } else {
        let path = st.seen[head];
        let load = uses_of(ctx.tree, ctx.project, ctx.delphi, path, st.warnings);
        match load.uses {
            None => intro_walk(
                ctx,
                head + 1,
                ClosureState {
                    seen: st.seen,
                    names: st.names,
                    found: st.found,
                    warnings: load.warnings.push(failed_read_warning(path)),
                },
            ),
            Some(uses) => intro_walk(
                ctx,
                head + 1,
                intro_deps(
                    ctx,
                    uses,
                    0,
                    path,
                    ClosureState {
                        seen: st.seen,
                        names: st.names,
                        found: st.found,
                        warnings: load.warnings,
                    },
                ),
            ),
        }
    }
}

#[via_fn]
proof fn intro_walk_decreases(ctx: IntroCtx, head: int, st: ClosureState) {
    lemma_units_fit(ctx.known, st.seen);
}

/// A known file that is not seen yet can be seen.
pub proof fn lemma_with_seen_keeps(known: Seq<Seq<char>>, seen: Seq<Seq<char>>, path: Seq<char>)
    requires
        units_known(known, seen),
        known.contains(path),
    ensures
        units_known(known, with_seen(seen, path)),
        with_seen(seen, path).len() >= seen.len(),
{
    if !seen.contains(path) {
        lemma_units_known_push(known, seen, path);
    }
}

/// A used name makes no file seen but a known one that was not seen yet.
pub proof fn lemma_intro_dep_keeps(ctx: IntroCtx, dep: Seq<char>, from: Seq<char>, st: ClosureState)
    requires
        intro_knows(ctx),
        units_known(ctx.known, st.seen),
    ensures
        units_known(ctx.known, intro_dep(ctx, dep, from, st).seen),
        intro_dep(ctx, dep, from, st).seen.len() >= st.seen.len(),
{
    if !same_ignoring_case(dep, ctx.new_name) {
        let resolved = dep_resolution(ctx.map, ctx.project, ctx.delphi, dep, from, st.warnings);
        match resolved.path {
            None => {},
            Some(path) => {
                lemma_with_seen_keeps(ctx.known, st.seen, ctx.tree.canonical(path));
            },
        }
    }
}

/// What the walk from the unit `new_unit` works with.
pub open spec fn intro_ctx(
    tree: SourceTree,
    project_cache: UnitCache,
    delphi_cache: Option<&UnitCache>,
    map: MapModel,
    new_unit: UnitModel,
) -> IntroCtx {
    IntroCtx {
        tree,
        project: project_cache@,
        delphi: option_cache(delphi_cache),
        map,
        new_name: new_unit.name,
        root: tree.canonical(new_unit.path),
        known: seq![tree.canonical(new_unit.path)] + canonical_paths(
            tree,
            walk_ctx(tree, project_cache, delphi_cache, map, new_unit.name).known,
        ),
    }
}

/// The known files of a walk from a new unit hold every file that the
/// walk can see.
pub proof fn lemma_intro_ctx_knows(
    tree: SourceTree,
    project_cache: UnitCache,
    delphi_cache: Option<&UnitCache>,
    map: MapModel,
    new_unit: UnitModel,
)
    requires
        project_cache.wf(),
        option_cache_wf(delphi_cache),
        map.keys.len() == map.values.len(),
    ensures
        intro_knows(intro_ctx(tree, project_cache, delphi_cache, map, new_unit)),
        units_known(
            intro_ctx(tree, project_cache, delphi_cache, map, new_unit).known,
            seq![tree.canonical(new_unit.path)],
        ),
{
    let ctx = intro_ctx(tree, project_cache, delphi_cache, map, new_unit);
    let inner = walk_ctx(tree, project_cache, delphi_cache, map, new_unit.name);
    let images = canonical_paths(tree, inner.known);
    lemma_walk_ctx_knows(tree, project_cache, delphi_cache, map, new_unit.name);
    assert(ctx.known[0] == tree.canonical(new_unit.path));
    assert forall|dep: Seq<char>, from: Seq<char>, warnings: Seq<Seq<char>>|
        (#[trigger] dep_resolution(ctx.map, ctx.project, ctx.delphi, dep, from, warnings)).path
            is Some implies ctx.known.contains(
        ctx.tree.canonical(
            dep_resolution(ctx.map, ctx.project, ctx.delphi, dep, from, warnings).path.unwrap(),
        ),
    ) by {
        let path = dep_resolution(ctx.map, ctx.project, ctx.delphi, dep, from, warnings).path.unwrap();
        lemma_dep_is_known(inner, dep, from, warnings);
        lemma_canonical_paths_hold(tree, inner.known, path);
        let k = choose|k: int| 0 <= k < images.len() && images[k] == tree.canonical(path);
        assert(ctx.known[1 + k] == images[k]);
    }
}

/// The units that the new unit brings with it: those that it uses, and
/// those that these use, without the new unit itself; in the order in
/// which a breadth first walk finds them.
pub open spec fn introduced(ctx: IntroCtx, warnings: Seq<Seq<char>>) -> ClosureState {
    intro_walk(
        ctx,
        0,
        ClosureState { seen: seq![ctx.root], names: Seq::empty(), found: Seq::empty(), warnings },
    )
}

fn take_intro_dep(
    tree: &SourceTree,
    project_cache: &UnitCache,
    delphi_cache: Option<&UnitCache>,
    project_map: &TextMap<String>,
    new_unit: &UnitFileInfo,
    root: &str,
    dep: &str,
    from: &str,
    seen: &mut Vec<String>,
    names: &mut Vec<String>,
    found: &mut Vec<UnitFileInfo>,
    warnings: &mut Vec<String>,
)
    requires
        tree.wf(),
        project_map.wf(),
        project_cache.wf(),
        option_cache_wf(delphi_cache),
        root@ == tree.canonical(new_unit.path@),
    ensures
        closure_state(*final(seen), *final(names), *final(found), *final(warnings)) == intro_dep(
            intro_ctx(*tree, *project_cache, delphi_cache, map_model(*project_map), new_unit@),
            dep@,
            from@,
            closure_state(*old(seen), *old(names), *old(found), *old(warnings)),
        ),
{
    if eq_ignore_case(dep, new_unit.name.as_str()) {
        return ;
    }
    let path = match resolve_dep_path(
        project_map,
        project_cache,
        delphi_cache,
        dep,
        from,
        warnings,
    ) {
        Some(path) => path,
        None => {
            return ;
        },
    };
    let canonical = tree.canonicalize(path.as_str());
    if text_eq(canonical.as_str(), root) {
        return ;
    }
    if !contains_text(seen, canonical.as_str()) {
        push_text(seen, canonical.clone());
    }
    let key = to_lower(dep);
    if contains_text(names, key.as_str()) {
        return ;
    }
    push_text(names, key);
    let uses: Vec<String> = Vec::new();
    assert(uses.deep_view() =~= Seq::<Seq<char>>::empty());
    push_unit(found, UnitFileInfo { name: crate::text::copy_text(dep), path: canonical, uses });
}

/// Collects the units that the new unit brings with it. A unit that
/// cannot be read gives a warning and is taken as using nothing; the
/// result is always `Ok`.
pub fn collect_introduced_dependencies(
    tree: &SourceTree,
    project_cache: &UnitCache,
    delphi_cache: Option<&UnitCache>,
    project_map: &TextMap<String>,
    new_unit: &UnitFileInfo,
    warnings: &mut Vec<String>,
) -> (r: Result<Vec<UnitFileInfo>, ReadError>)
    requires
        tree.wf(),
        project_map.wf(),
        project_cache.wf(),
        option_cache_wf(delphi_cache),
    ensures
        ({
            let end = introduced(
                intro_ctx(*tree, *project_cache, delphi_cache, map_model(*project_map), new_unit@),
                old(warnings).deep_view(),
            );
            &&& final(warnings).deep_view() == end.warnings
            &&& r matches Ok(units) && units_view(units) == end.found
        }),
{
    let ghost ctx = intro_ctx(*tree, *project_cache, delphi_cache, map_model(*project_map), new_unit@);
    let root = tree.canonicalize(new_unit.path.as_str());
    let mut seen: Vec<String> = Vec::new();
    push_text(&mut seen, root.clone());
    assert(seen.deep_view() =~= seq![ctx.root]);
    let mut names: Vec<String> = Vec::new();
    assert(names.deep_view() =~= Seq::<Seq<char>>::empty());
    let mut found: Vec<UnitFileInfo> = Vec::new();
    assert(units_view(found) =~= Seq::<UnitModel>::empty());
    proof {
        lemma_intro_ctx_knows(*tree, *project_cache, delphi_cache, map_model(*project_map), new_unit@);
    }
    let ghost goal = introduced(ctx, old(warnings).deep_view());
    let mut head: usize = 0;
    while head < seen.len()
        invariant
            intro_knows(ctx),
            units_known(ctx.known, seen.deep_view()),
            intro_walk(ctx, head as int, closure_state(seen, names, found, *warnings)) == goal,
        decreases ctx.known.len() - head,
    {
        proof {
            lemma_units_fit(ctx.known, seen.deep_view());
        }
        assert(seen.deep_view()[head as int] == seen[head as int]@);
        let unit_path = seen[head].clone();
        match load_unit_uses(tree, project_cache, delphi_cache, unit_path.as_str(), warnings) {
            Err(_) => {},
            Ok(None) => {
                let parts = vec!["warning: failed to read unit at ", unit_path.as_str()];
                assert(parts.deep_view() =~= seq!["warning: failed to read unit at "@, unit_path@]);
                push_text(warnings, concat(&parts));
            },
            Ok(Some(uses)) => {
                let ghost start = closure_state(seen, names, found, *warnings);
                let mut j: usize = 0;
                while j < uses.len()
                    invariant
                        j <= uses.len(),
                        head < seen.len(),
                        units_known(ctx.known, seen.deep_view()),
                        intro_deps(
                            ctx,
                            uses.deep_view(),
                            j as int,
                            unit_path@,
                            closure_state(seen, names, found, *warnings),
                        ) == intro_deps(ctx, uses.deep_view(), 0, unit_path@, start),
                    decreases uses.len() - j,
                {
                    assert(uses.deep_view()[j as int] == uses[j as int]@);
                    proof {
                        lemma_intro_dep_keeps(
                            ctx,
                            uses[j as int]@,
                            unit_path@,
                            closure_state(seen, names, found, *warnings),
                        );
                    }
                    take_intro_dep(
                        tree,
                        project_cache,
                        delphi_cache,
                        project_map,
                        new_unit,
                        root.as_str(),
                        uses[j].as_str(),
                        unit_path.as_str(),
                        &mut seen,
                        &mut names,
                        &mut found,
                        warnings,
                    );
                    j += 1;
                }
            },
        }
        head += 1;
    }
    Ok(found)
}

/// The roots of a repair while they are collected, and the warnings.
pub struct RootsState {
    pub roots: Seq<Seq<char>>,
    pub warnings: Seq<Seq<char>>,
}

pub open spec fn outside_warning(name: Seq<char>, dpr: Seq<char>) -> Seq<char> {
    concat_all(
        seq![
            "warning: unit "@,
            name,
            " in "@,
            dpr,
            " resolved outside known unit caches and will be ignored"@,
        ],
    )
}

/// The state after one entry was looked at: the file that the map holds
/// for it is a root if one of the caches holds its unit; else it gives a
/// warning.
pub open spec fn with_root(
    tree: SourceTree,
    dpr: Seq<char>,
    name: Seq<char>,
    map: MapModel,
    project: CacheModel,
    delphi: Option<CacheModel>,
    st: RootsState,
) -> RootsState {
    match map.lookup(lower_text(name)) {
        None => st,
        Some(path) => {
            let canonical = tree.canonical(path);
            if !known_path(project, delphi, canonical) {
                RootsState {
                    roots: st.roots,
                    warnings: st.warnings.push(outside_warning(name, dpr)),
                }
            } else {
                RootsState { roots: with_seen(st.roots, canonical), warnings: st.warnings }
            }
        },
    }
}

pub open spec fn roots_from(
    tree: SourceTree,
    dpr: Seq<char>,
    entries: Seq<EntryModel>,
    k: int,
    map: MapModel,
    project: CacheModel,
    delphi: Option<CacheModel>,
    st: RootsState,
) -> RootsState
    decreases entries.len() - k,
{
    if k < 0 || k >= entries.len() {
        st
    } else {
        roots_from(
            tree,
            dpr,
            entries,
            k + 1,
            map,
            project,
            delphi,
            with_root(tree, dpr, entries[k].name, map, project, delphi, st),
        )
    }
}

/// Collects the files from which a repair starts: those of the declared
/// units that the caches know, each once, in the order of the clause.
pub fn collect_fix_root_paths(
    tree: &SourceTree,
    dpr_path: &str,
    list: &UsesList,
    project_map: &TextMap<String>,
    project_cache: &UnitCache,
    delphi_cache: Option<&UnitCache>,
    warnings: &mut Vec<String>,
) -> (r: Vec<String>)
    requires
        tree.wf(),
        project_map.wf(),
        project_cache.wf(),
        option_cache_wf(delphi_cache),
    ensures
        (RootsState { roots: r.deep_view(), warnings: final(warnings).deep_view() }) == roots_from(
            *tree,
            dpr_path@,
            list.entries.deep_view(),
            0,
            map_model(*project_map),
            project_cache@,
            option_cache(delphi_cache),
            RootsState { roots: Seq::empty(), warnings: old(warnings).deep_view() },
        ),
{
    let mut roots: Vec<String> = Vec::new();
    assert(roots.deep_view() =~= Seq::<Seq<char>>::empty());
    let ghost goal = roots_from(
        *tree,
        dpr_path@,
        list.entries.deep_view(),
        0,
        map_model(*project_map),
        project_cache@,
        option_cache(delphi_cache),
        RootsState { roots: Seq::empty(), warnings: old(warnings).deep_view() },
    );
    let mut k: usize = 0;
    while k < list.entries.len()
        invariant
            k <= list.entries.len(),
            roots_from(
                *tree,
                dpr_path@,
                list.entries.deep_view(),
                k as int,
                map_model(*project_map),
                project_cache@,
                option_cache(delphi_cache),
                RootsState { roots: roots.deep_view(), warnings: warnings.deep_view() },
            ) == goal,
        decreases list.entries.len() - k,
    {
        assert(list.entries.deep_view()[k as int] == list.entries[k as int].deep_view());
        let entry = &list.entries[k];
        k += 1;
        let key = to_lower(entry.name.as_str());
        let i = match project_map.find(key.as_str()) {
            Some(i) => i,
            None => {
                continue ;
            },
        };
        assert(project_map.values.deep_view()[i as int] == project_map.values[i as int]@);
        let canonical = tree.canonicalize(project_map.values[i].as_str());
        if !has_unit_path(project_cache, delphi_cache, canonical.as_str()) {
            let parts = vec![
                "warning: unit ",
                entry.name.as_str(),
                " in ",
                dpr_path,
                " resolved outside known unit caches and will be ignored",
            ];
            assert(parts.deep_view() =~= seq![
                "warning: unit "@,
                entry.name@,
                " in "@,
                dpr_path@,
                " resolved outside known unit caches and will be ignored"@,
            ]);
            push_text(warnings, concat(&parts));
            continue ;
        }
        if !contains_text(&roots, canonical.as_str()) {
            push_text(&mut roots, canonical);
        }
    }
    roots
}

/// What a repair works with: the tree, the two caches, the names that the
/// clause holds, in lower case, and the files that the walk can meet.
pub struct FixCtx {
    pub tree: SourceTree,
    pub project: CacheModel,
    pub delphi: Option<CacheModel>,
    pub existing: Seq<Seq<char>>,
    pub known: Seq<Seq<char>>,
}

/// The known files of a repair hold the canonical path of every file that
/// a name resolves to.
pub open spec fn fix_knows(ctx: FixCtx) -> bool {
    forall|name: Seq<char>|
        (#[trigger] resolve_name(ctx.project, ctx.delphi, name)) is Unique ==> ctx.known.contains(
            ctx.tree.canonical(resolve_name(ctx.project, ctx.delphi, name)->path),
        )
}

/// The state after the unit in the file `from` was seen to use the name
/// `dep`. A name that resolves to one file whose unit the caches know
/// makes that file seen; the unit is missing if the clause does not hold
/// the name and the name was not met before.
pub open spec fn missing_dep(ctx: FixCtx, dep: Seq<char>, from: Seq<char>, st: ClosureState) -> ClosureState {
    match resolve_name(ctx.project, ctx.delphi, dep) {
        NameResolution::NotFound => st,
        NameResolution::Ambiguous { count, source } => ClosureState {
            seen: st.seen,
            names: st.names,
            found: st.found,
            warnings: st.warnings.push(ambiguous_dep_warning(dep, from, count, source)),
        },
        NameResolution::Unique { path, source } => {
            let canonical = ctx.tree.canonical(path);
            let key = lower_text(dep);
            if !known_path(ctx.project, ctx.delphi, canonical) {
                st
            } else if ctx.existing.contains(key) || st.names.contains(key) {
                ClosureState {
                    seen: with_seen(st.seen, canonical),
                    names: st.names,
                    found: st.found,
                    warnings: st.warnings,
                }
            } else {
                ClosureState {
                    seen: with_seen(st.seen, canonical),
                    names: st.names.push(key),
                    found: match known_unit(ctx.project, ctx.delphi, canonical) {
                        Some(unit) => st.found.push(unit),
                        None => st.found,
                    },
                    warnings: st.warnings,
                }
            }
        },
    }
}

/// A used name that several files declare adds no unit to a repair: it
/// gives a warning.
pub proof fn lemma_ambiguous_name_is_not_missing(
    ctx: FixCtx,
    dep: Seq<char>,
    from: Seq<char>,
    st: ClosureState,
)
    requires
        resolve_name(ctx.project, ctx.delphi, dep) is Ambiguous,
    ensures
        missing_dep(ctx, dep, from, st).found == st.found,
        missing_dep(ctx, dep, from, st).seen == st.seen,
        missing_dep(ctx, dep, from, st).warnings.len() == st.warnings.len() + 1,
{
}

pub open spec fn missing_deps(
    ctx: FixCtx,
    uses: Seq<Seq<char>>,
    j: int,
    from: Seq<char>,
    st: ClosureState,
) -> ClosureState
    decreases uses.len() - j,
{
    if j < 0 || j >= uses.len() {
        st
    } else {
        missing_deps(ctx, uses, j + 1, from, missing_dep(ctx, uses[j], from, st))
    }
}

/// Walks breadth first from the file `head` on through the units that the
/// caches know. The walk ends because each file seen is one of the known
/// files, and none is seen twice.
pub open spec fn missing_walk(ctx: FixCtx, head: int, st: ClosureState) -> ClosureState
    decreases ctx.known.len() - head,
    when units_known(ctx.known, st.seen)
    via missing_walk_decreases
{
    if head < 0 || head >= st.seen.len() {
        st
    } else {
        match known_unit(ctx.project, ctx.delphi, st.seen[head]) {
            None => missing_walk(ctx, head + 1, st),
            Some(unit) => missing_walk(
                ctx,
                head + 1,
                missing_deps(ctx, unit.uses, 0, st.seen[head], st),
            ),
        }
    }
}

#[via_fn]
proof fn missing_walk_decreases(ctx: FixCtx, head: int, st: ClosureState) {
    lemma_units_fit(ctx.known, st.seen);
}

/// A used name makes no file seen but a known one that was not seen yet.
pub proof fn lemma_missing_dep_keeps(ctx: FixCtx, dep: Seq<char>, from: Seq<char>, st: ClosureState)
    requires
        fix_knows(ctx),
        units_known(ctx.known, st.seen),
    ensures
        units_known(ctx.known, missing_dep(ctx, dep, from, st).seen),
        missing_dep(ctx, dep, from, st).seen.len() >= st.seen.len(),
{
    match resolve_name(ctx.project, ctx.delphi, dep) {
        NameResolution::Unique { path, source } => {
            lemma_with_seen_keeps(ctx.known, st.seen, ctx.tree.canonical(path));
        },
        _ => {},
    }
}

/// The paths `roots[k..]` added to `seen`, each once.
pub open spec fn seen_from(roots: Seq<Seq<char>>, k: int, seen: Seq<Seq<char>>) -> Seq<Seq<char>>
    decreases roots.len() - k,
{
    if k < 0 || k >= roots.len() {
        seen
    } else {
        seen_from(roots, k + 1, with_seen(seen, roots[k]))
    }
}

pub open spec fn fix_ctx(
    tree: SourceTree,
    project_cache: UnitCache,
    delphi_cache: Option<&UnitCache>,
    existing: Seq<Seq<char>>,
    roots: Seq<Seq<char>>,
) -> FixCtx {
    FixCtx {
        tree,
        project: project_cache@,
        delphi: option_cache(delphi_cache),
        existing,
        known: roots + canonical_paths(
            tree,
            cache_paths(project_cache) + option_cache_paths(delphi_cache),
        ),
    }
}

/// The known files of a repair hold every file that the walk can see.
pub proof fn lemma_fix_ctx_knows(
    tree: SourceTree,
    project_cache: UnitCache,
    delphi_cache: Option<&UnitCache>,
    existing: Seq<Seq<char>>,
    roots: Seq<Seq<char>>,
)
    requires
        project_cache.wf(),
        option_cache_wf(delphi_cache),
    ensures
        fix_knows(fix_ctx(tree, project_cache, delphi_cache, existing, roots)),
        forall|k: int|
            0 <= k < roots.len() ==> fix_ctx(
                tree,
                project_cache,
                delphi_cache,
                existing,
                roots,
            ).known.contains(#[trigger] roots[k]),
{
    let ctx = fix_ctx(tree, project_cache, delphi_cache, existing, roots);
    let paths = cache_paths(project_cache) + option_cache_paths(delphi_cache);
    let images = canonical_paths(tree, paths);
    lemma_cache_paths_resolve(project_cache, delphi_cache);
    assert forall|k: int| 0 <= k < roots.len() implies ctx.known.contains(#[trigger] roots[k]) by {
        assert(ctx.known[k] == roots[k]);
    }
    assert forall|name: Seq<char>|
        (#[trigger] resolve_name(ctx.project, ctx.delphi, name)) is Unique implies ctx.known.contains(
        ctx.tree.canonical(resolve_name(ctx.project, ctx.delphi, name)->path),
    ) by {
        let path = resolve_name(ctx.project, ctx.delphi, name)->path;
        lemma_canonical_paths_hold(tree, paths, path);
        let k = choose|k: int| 0 <= k < images.len() && images[k] == tree.canonical(path);
        assert(ctx.known[roots.len() + k] == images[k]);
    }
}

/// The roots are seen as known files.
pub proof fn lemma_seen_from_keeps(
    known: Seq<Seq<char>>,
    roots: Seq<Seq<char>>,
    k: int,
    seen: Seq<Seq<char>>,
)
    requires
        0 <= k,
        units_known(known, seen),
        forall|i: int| 0 <= i < roots.len() ==> known.contains(#[trigger] roots[i]),
    ensures
        units_known(known, seen_from(roots, k, seen)),
    decreases roots.len() - k,
{
    if k < roots.len() {
        lemma_with_seen_keeps(known, seen, roots[k]);
        lemma_seen_from_keeps(known, roots, k + 1, with_seen(seen, roots[k]));
    }
}

/// The units that a clause lacks: those that the units of the roots use,
/// and those that these use, as far as the caches know them and the
/// clause does not hold their names; in the order in which a breadth
/// first walk finds them.
pub open spec fn missing_units(ctx: FixCtx, roots: Seq<Seq<char>>, warnings: Seq<Seq<char>>) -> ClosureState {
    missing_walk(
        ctx,
        0,
        ClosureState {
            seen: seen_from(roots, 0, Seq::empty()),
            names: Seq::empty(),
            found: Seq::empty(),
            warnings,
        },
    )
}

/// A repair starts from known files, so that its walk comes to an end.
pub proof fn lemma_repair_starts_known(
    tree: SourceTree,
    project_cache: UnitCache,
    delphi_cache: Option<&UnitCache>,
    existing: Seq<Seq<char>>,
    roots: Seq<Seq<char>>,
)
    requires
        project_cache.wf(),
        option_cache_wf(delphi_cache),
    ensures
        units_known(
            fix_ctx(tree, project_cache, delphi_cache, existing, roots).known,
            seen_from(roots, 0, Seq::empty()),
        ),
{
    let ctx = fix_ctx(tree, project_cache, delphi_cache, existing, roots);
    lemma_fix_ctx_knows(tree, project_cache, delphi_cache, existing, roots);
    lemma_seen_from_keeps(ctx.known, roots, 0, Seq::empty());
}

fn take_missing_dep(
    tree: &SourceTree,
    project_cache: &UnitCache,
    delphi_cache: Option<&UnitCache>,
    existing_names: &Vec<String>,
    dep: &str,
    from: &str,
    seen: &mut Vec<String>,
    names: &mut Vec<String>,
    found: &mut Vec<UnitFileInfo>,
    warnings: &mut Vec<String>,
    Ghost(roots): Ghost<Seq<Seq<char>>>,
)
    requires
        tree.wf(),
        project_cache.wf(),
        option_cache_wf(delphi_cache),
    ensures
        closure_state(*final(seen), *final(names), *final(found), *final(warnings)) == missing_dep(
            fix_ctx(*tree, *project_cache, delphi_cache, existing_names.deep_view(), roots),
            dep@,
            from@,
            closure_state(*old(seen), *old(names), *old(found), *old(warnings)),
        ),
{
    let path = match resolve_by_name(project_cache, delphi_cache, dep) {
        ResolveByName::Unique { path, source } => path,
        ResolveByName::Ambiguous { count, source } => {
            let tail = matches_message(count, source);
            let parts = vec![
                "warning: ambiguous unit ",
                dep,
                " referenced by ",
                from,
                tail.as_str(),
            ];
            assert(parts.deep_view() =~= seq![
                "warning: ambiguous unit "@,
                dep@,
                " referenced by "@,
                from@,
                matches_text(count as int, source),
            ]);
            push_text(warnings, concat(&parts));
            return ;
        },
        ResolveByName::NotFound => {
            return ;
        },
    };
    let canonical = tree.canonicalize(path.as_str());
    if !has_unit_path(project_cache, delphi_cache, canonical.as_str()) {
        return ;
    }
    if !contains_text(seen, canonical.as_str()) {
        push_text(seen, canonical.clone());
    }
    let key = to_lower(dep);
    if contains_text(existing_names, key.as_str()) {
        return ;
    }
    if contains_text(names, key.as_str()) {
        return ;
    }
    push_text(names, key);
    match lookup_unit_info(project_cache, delphi_cache, canonical.as_str()) {
        Some(unit) => {
            push_unit(found, unit.copy());
        },
        None => {},
    }
}

/// Collects the units that a clause lacks.
pub fn collect_missing_dpr_dependencies(
    tree: &SourceTree,
    root_paths: &Vec<String>,
    existing_names: &Vec<String>,
    project_cache: &UnitCache,
    delphi_cache: Option<&UnitCache>,
    warnings: &mut Vec<String>,
) -> (r: Vec<UnitFileInfo>)
    requires
        tree.wf(),
        project_cache.wf(),
        option_cache_wf(delphi_cache),
    ensures
        ({
            let end = missing_units(
                fix_ctx(
                    *tree,
                    *project_cache,
                    delphi_cache,
                    existing_names.deep_view(),
                    root_paths.deep_view(),
                ),
                root_paths.deep_view(),
                old(warnings).deep_view(),
            );
            &&& final(warnings).deep_view() == end.warnings
            &&& units_view(r) == end.found
        }),
{
    let ghost ctx = fix_ctx(
        *tree,
        *project_cache,
        delphi_cache,
        existing_names.deep_view(),
        root_paths.deep_view(),
    );
    proof {
        lemma_fix_ctx_knows(
            *tree,
            *project_cache,
            delphi_cache,
            existing_names.deep_view(),
            root_paths.deep_view(),
        );
    }
    let mut seen: Vec<String> = Vec::new();
    assert(seen.deep_view() =~= Seq::<Seq<char>>::empty());
    let mut k: usize = 0;
    while k < root_paths.len()
        invariant
            k <= root_paths.len(),
            *warnings == *old(warnings),
            units_known(ctx.known, seen.deep_view()),
            seen_from(root_paths.deep_view(), k as int, seen.deep_view()) == seen_from(
                root_paths.deep_view(),
                0,
                Seq::empty(),
            ),
        decreases root_paths.len() - k,
    {
        assert(root_paths.deep_view()[k as int] == root_paths[k as int]@);
        proof {
            lemma_with_seen_keeps(ctx.known, seen.deep_view(), root_paths.deep_view()[k as int]);
        }
        if !contains_text(&seen, root_paths[k].as_str()) {
            push_text(&mut seen, root_paths[k].clone());
        }
        k += 1;
    }
    let mut names: Vec<String> = Vec::new();
    assert(names.deep_view() =~= Seq::<Seq<char>>::empty());
    let mut found: Vec<UnitFileInfo> = Vec::new();
    assert(units_view(found) =~= Seq::<UnitModel>::empty());
    let ghost goal = missing_units(ctx, root_paths.deep_view(), old(warnings).deep_view());
    let mut head: usize = 0;
    while head < seen.len()
        invariant
            fix_knows(ctx),
            units_known(ctx.known, seen.deep_view()),
            missing_walk(ctx, head as int, closure_state(seen, names, found, *warnings)) == goal,
        decreases ctx.known.len() - head,
    {
        proof {
            lemma_units_fit(ctx.known, seen.deep_view());
        }
        assert(seen.deep_view()[head as int] == seen[head as int]@);
        let unit_path = seen[head].clone();
        match lookup_unit_info(project_cache, delphi_cache, unit_path.as_str()) {
            None => {},
            Some(unit) => {
                let ghost start = closure_state(seen, names, found, *warnings);
                let mut j: usize = 0;
                while j < unit.uses.len()
                    invariant
                        j <= unit.uses.len(),
                        head < seen.len(),
                        units_known(ctx.known, seen.deep_view()),
                        missing_deps(
                            ctx,
                            unit.uses.deep_view(),
                            j as int,
                            unit_path@,
                            closure_state(seen, names, found, *warnings),
                        ) == missing_deps(ctx, unit.uses.deep_view(), 0, unit_path@, start),
                    decreases unit.uses.len() - j,
                {
                    assert(unit.uses.deep_view()[j as int] == unit.uses[j as int]@);
                    proof {
                        lemma_missing_dep_keeps(
                            ctx,
                            unit.uses[j as int]@,
                            unit_path@,
                            closure_state(seen, names, found, *warnings),
                        );
                    }
                    take_missing_dep(
                        tree,
                        project_cache,
                        delphi_cache,
                        existing_names,
                        unit.uses[j].as_str(),
                        unit_path.as_str(),
                        &mut seen,
                        &mut names,
                        &mut found,
                        warnings,
                        Ghost(root_paths.deep_view()),
                    );
                    j += 1;
                }
            },
        }
        head += 1;
    }
    found
}

} // verus!
