use vstd::prelude::*;

use crate::dpr_parse::{EntryModel, UsesEntry, UsesList};
use crate::source_tree::SourceTree;
use crate::text::{concat, concat_all, decimal, decimal_text, lower_text, text_eq, to_lower};
use crate::text_map::{first_index, push_text, TextMap};
use crate::unit_cache::{CacheModel, UnitCache, UnitFileInfo, UnitModel};
use crate::uses_include::{include_path, resolve_include_path};

verus! {

/// The cache that resolved a name.
#[derive(Copy, Clone, PartialEq, Eq, Structural)]
pub enum ResolutionSource {
    Project,
    Delphi,
}

/// What a name resolved to.
pub enum ResolveByName {
    NotFound,
    Unique { path: String, source: ResolutionSource },
    Ambiguous { count: usize, source: ResolutionSource },
}

/// What a `ResolveByName` holds.
pub enum NameResolution {
    NotFound,
    Unique { path: Seq<char>, source: ResolutionSource },
    Ambiguous { count: int, source: ResolutionSource },
}

impl View for ResolveByName {
    type V = NameResolution;

    open spec fn view(&self) -> NameResolution {
        match *self {
            ResolveByName::NotFound => NameResolution::NotFound,
            ResolveByName::Unique { path, source } => NameResolution::Unique { path: path@, source },
            ResolveByName::Ambiguous { count, source } => NameResolution::Ambiguous {
                count: count as int,
                source,
            },
        }
    }
}

/// What the paths under one name resolve to: the path if there is one
/// alone, and no path at all if there are several.
pub open spec fn resolve_bucket(paths: Seq<Seq<char>>, source: ResolutionSource) -> NameResolution {
    if paths.len() > 1 {
        NameResolution::Ambiguous { count: paths.len() as int, source }
    } else {
        NameResolution::Unique { path: paths[0], source }
    }
}

/// What the unit name `name` resolves to: what the project cache holds
/// under it, and only where that cache does not know the name, what the
/// fallback cache holds.
pub open spec fn resolve_name(
    project: CacheModel,
    delphi: Option<CacheModel>,
    name: Seq<char>,
) -> NameResolution {
    let key = lower_text(name);
    if project.names.contains_key(key) {
        resolve_bucket(project.names[key], ResolutionSource::Project)
    } else {
        match delphi {
            Some(cache) => if cache.names.contains_key(key) {
                resolve_bucket(cache.names[key], ResolutionSource::Delphi)
            } else {
                NameResolution::NotFound
            },
            None => NameResolution::NotFound,
        }
    }
}

/// The model of an optional cache.
pub open spec fn option_cache(cache: Option<&UnitCache>) -> Option<CacheModel> {
    match cache {
        Some(c) => Some(c@),
        None => None,
    }
}

/// Whether the optional cache is sound.
pub open spec fn option_cache_wf(cache: Option<&UnitCache>) -> bool {
    match cache {
        Some(c) => c.wf(),
        None => true,
    }
}

/// A name that several files of the cache that counts declare resolves
/// to none of them.
pub proof fn lemma_ambiguous_name_has_no_path(
    project: CacheModel,
    delphi: Option<CacheModel>,
    name: Seq<char>,
)
    requires
        project.ambiguous(lower_text(name)) || (!project.names.contains_key(lower_text(name))
            && delphi is Some && delphi.unwrap().ambiguous(lower_text(name))),
    ensures
        resolve_name(project, delphi, name) is Ambiguous,
{
}

fn resolve_in(cache: &UnitCache, key: &str, source: ResolutionSource) -> (r: Option<ResolveByName>)
    requires
        cache.wf(),
    ensures
        r matches Some(found) ==> cache@.names.contains_key(key@) && found@ == resolve_bucket(
            cache@.names[key@],
            source,
        ),
        r is None ==> !cache@.names.contains_key(key@),
{
    match cache.by_name.find(key) {
        Some(i) => {
            let paths = &cache.by_name.values[i];
            assert(paths.deep_view().len() == paths.len());
            if paths.len() > 1 {
                Some(ResolveByName::Ambiguous { count: paths.len(), source })
            } else {
                assert(paths.deep_view()[0] == paths[0]@);
                Some(ResolveByName::Unique { path: paths[0].clone(), source })
            }
        },
        None => None,
    }
}

/// Resolves a unit name: in the project cache first, in the fallback
/// cache only where the project cache does not know the name.
pub fn resolve_by_name(
    project_cache: &UnitCache,
    delphi_cache: Option<&UnitCache>,
    unit_name: &str,
) -> (r: ResolveByName)
    requires
        project_cache.wf(),
        option_cache_wf(delphi_cache),
    ensures
        r@ == resolve_name(project_cache@, option_cache(delphi_cache), unit_name@),
{
    let key = to_lower(unit_name);
    match resolve_in(project_cache, key.as_str(), ResolutionSource::Project) {
        Some(found) => {
            return found;
        },
        None => {},
    }
    match delphi_cache {
        Some(cache) => match resolve_in(cache, key.as_str(), ResolutionSource::Delphi) {
            Some(found) => found,
            None => ResolveByName::NotFound,
        },
        None => ResolveByName::NotFound,
    }
}

pub open spec fn label_text(source: ResolutionSource) -> Seq<char> {
    match source {
        ResolutionSource::Project => "project"@,
        ResolutionSource::Delphi => "--delphi-path"@,
    }
}

/// The name by which a warning calls a cache.
pub fn source_label(source: ResolutionSource) -> (r: &'static str)
    ensures
        r@ == label_text(source),
{
    match source {
        ResolutionSource::Project => "project",
        ResolutionSource::Delphi => "--delphi-path",
    }
}

/// Whether one of the caches holds a unit under `path`.
pub open spec fn known_path(project: CacheModel, delphi: Option<CacheModel>, path: Seq<char>) -> bool {
    project.units.contains_key(path) || (delphi is Some && delphi.unwrap().units.contains_key(
        path,
    ))
}

/// The unit that the caches hold under `path`: that of the project cache
/// before that of the fallback cache.
pub open spec fn known_unit(project: CacheModel, delphi: Option<CacheModel>, path: Seq<char>) -> Option<
    UnitModel,
> {
    if project.units.contains_key(path) {
        Some(project.units[path])
    } else {
        match delphi {
            Some(cache) => if cache.units.contains_key(path) {
                Some(cache.units[path])
            } else {
                None
            },
            None => None,
        }
    }
}

/// Whether one of the caches holds a unit under `path`.
pub fn has_unit_path(project_cache: &UnitCache, delphi_cache: Option<&UnitCache>, path: &str) -> (r:
    bool)
    requires
        project_cache.wf(),
        option_cache_wf(delphi_cache),
    ensures
        r == known_path(project_cache@, option_cache(delphi_cache), path@),
{
    if project_cache.by_path.contains_key(path) {
        return true;
    }
    match delphi_cache {
        Some(cache) => cache.by_path.contains_key(path),
        None => false,
    }
}

/// The unit that the caches hold under `path`: that of the project cache
/// before that of the fallback cache.
pub fn lookup_unit_info<'a>(
    project_cache: &'a UnitCache,
    delphi_cache: Option<&'a UnitCache>,
    path: &str,
) -> (r: Option<&'a UnitFileInfo>)
    requires
        project_cache.wf(),
        option_cache_wf(delphi_cache),
    ensures
        r matches Some(unit) ==> known_unit(project_cache@, option_cache(delphi_cache), path@)
            == Some(unit@),
        r is None ==> known_unit(project_cache@, option_cache(delphi_cache), path@) is None,
{
    match project_cache.by_path.get(path) {
        Some(unit) => {
            return Some(unit);
        },
        None => {},
    }
    match delphi_cache {
        Some(cache) => cache.by_path.get(path),
        None => None,
    }
}

/// The canonical path of the file that an entry of the project file
/// `dpr_path` declares with `in 'raw'`.
pub fn resolve_dpr_unit_path(tree: &SourceTree, dpr_path: &str, raw: &str) -> (r: String)
    requires
        tree.wf(),
    ensures
        r@ == tree.canonical(include_path(dpr_path@, raw@)),
{
    let resolved = resolve_include_path(dpr_path, raw);
    tree.canonicalize(resolved.as_str())
}

/// Keys and the path under each, in the order in which they came.
pub struct MapModel {
    pub keys: Seq<Seq<char>>,
    pub values: Seq<Seq<char>>,
}

impl MapModel {
    pub open spec fn lookup(self, key: Seq<char>) -> Option<Seq<char>> {
        match first_index(self.keys, key) {
            Some(i) => Some(self.values[i]),
            None => None,
        }
    }

    pub open spec fn with(self, key: Seq<char>, value: Seq<char>) -> MapModel {
        MapModel { keys: self.keys.push(key), values: self.values.push(value) }
    }
}

/// What a map from texts to paths holds.
pub open spec fn map_model(map: TextMap<String>) -> MapModel {
    MapModel { keys: map.keys.deep_view(), values: map.values.deep_view() }
}

/// The map of the declared units while it is built, and the warnings.
pub struct MapState {
    pub map: MapModel,
    pub warnings: Seq<Seq<char>>,
}

pub open spec fn duplicate_warning(name: Seq<char>, dpr: Seq<char>) -> Seq<char> {
    concat_all(
        seq!["warning: duplicate unit name "@, name, " in "@, dpr, " with multiple paths"@],
    )
}

pub open spec fn scan_warning(name: Seq<char>, dpr: Seq<char>) -> Seq<char> {
    concat_all(
        seq!["warning: missing in-path for unit "@, name, " in "@, dpr, " (resolved via scan)"@],
    )
}

pub open spec fn matches_text(count: int, source: ResolutionSource) -> Seq<char> {
    concat_all(seq![" ("@, decimal_text(count as nat), " "@, label_text(source), " matches)"@])
}

pub open spec fn missing_path_ambiguous_warning(
    name: Seq<char>,
    dpr: Seq<char>,
    count: int,
    source: ResolutionSource,
) -> Seq<char> {
    concat_all(
        seq![
            "warning: missing in-path for unit "@,
            name,
            " in "@,
            dpr,
            matches_text(count, source),
        ],
    )
}

pub open spec fn path_not_found_warning(name: Seq<char>, dpr: Seq<char>, resolved: Seq<char>) -> Seq<
    char,
> {
    concat_all(
        seq!["warning: dpr uses path not found for unit "@, name, " in "@, dpr, ": "@, resolved],
    )
}

pub open spec fn referenced_ambiguous_warning(
    name: Seq<char>,
    dpr: Seq<char>,
    count: int,
    source: ResolutionSource,
) -> Seq<char> {
    concat_all(
        seq![
            "warning: unit "@,
            name,
            " referenced in "@,
            dpr,
            " is ambiguous"@,
            matches_text(count, source),
        ],
    )
}

pub open spec fn ambiguous_dep_warning(
    dep: Seq<char>,
    from: Seq<char>,
    count: int,
    source: ResolutionSource,
) -> Seq<char> {
    concat_all(
        seq![
            "warning: ambiguous unit "@,
            dep,
            " referenced by "@,
            from,
            matches_text(count, source),
        ],
    )
}

/// The end of the warning about a name that several files declare: how
/// many, and in which cache.
pub fn matches_message(count: usize, source: ResolutionSource) -> (r: String)
    ensures
        r@ == matches_text(count as int, source),
{
    let digits = decimal(count);
    let parts = vec![" (", digits.as_str(), " ", source_label(source), " matches)"];
    assert(parts.deep_view() =~= seq![
        " ("@,
        decimal_text(count as nat),
        " "@,
        label_text(source),
        " matches)"@,
    ]);
    concat(&parts)
}

/// The map with the unit `name` under `resolved`, unless the map holds the
/// name already: then the first path stays, and a second one that differs
/// gives a warning.
pub open spec fn with_project_entry(
    st: MapState,
    name: Seq<char>,
    resolved: Seq<char>,
    dpr: Seq<char>,
) -> MapState {
    let key = lower_text(name);
    match st.map.lookup(key) {
        Some(existing) => MapState {
            map: st.map,
            warnings: if existing != resolved {
                st.warnings.push(duplicate_warning(name, dpr))
            } else {
                st.warnings
            },
        },
        None => MapState { map: st.map.with(key, resolved), warnings: st.warnings },
    }
}

/// What the map and the warnings hold, as a state.
pub open spec fn map_state(map: TextMap<String>, warnings: Vec<String>) -> MapState {
    MapState { map: map_model(map), warnings: warnings.deep_view() }
}

fn insert_project_entry(
    map: &mut TextMap<String>,
    entry: &UsesEntry,
    resolved: String,
    dpr_path: &str,
    warnings: &mut Vec<String>,
)
    requires
        old(map).wf(),
    ensures
        final(map).wf(),
        map_state(*final(map), *final(warnings)) == with_project_entry(
            map_state(*old(map), *old(warnings)),
            entry.name@,
            resolved@,
            dpr_path@,
        ),
{
    let key = to_lower(entry.name.as_str());
    match map.find(key.as_str()) {
        Some(i) => {
            assert(map.values.deep_view()[i as int] == map.values[i as int]@);
            if !text_eq(map.values[i].as_str(), resolved.as_str()) {
                let parts = vec![
                    "warning: duplicate unit name ",
                    entry.name.as_str(),
                    " in ",
                    dpr_path,
                    " with multiple paths",
                ];
                assert(parts.deep_view() =~= seq![
                    "warning: duplicate unit name "@,
                    entry.name@,
                    " in "@,
                    dpr_path@,
                    " with multiple paths"@,
                ]);
                push_text(warnings, concat(&parts));
            }
        },
        None => {
            let ghost before = *map;
            map.insert(key, resolved);
            assert(map.values.deep_view() =~= before.values.deep_view().push(resolved@));
        },
    }
}

/// The state after one entry of the clause was resolved. An entry with a
/// declared path that leads to a file stands under that file; any other
/// entry stands under the path that its name resolves to, if it resolves
/// to one alone.
pub open spec fn with_resolved_entry(
    tree: SourceTree,
    dpr: Seq<char>,
    entry: EntryModel,
    project: CacheModel,
    delphi: Option<CacheModel>,
    st: MapState,
) -> MapState {
    let by_name = resolve_name(project, delphi, entry.name);
    match entry.in_path {
        None => match by_name {
            NameResolution::NotFound => st,
            NameResolution::Unique { path, source } => with_project_entry(
                MapState {
                    map: st.map,
                    warnings: if source == ResolutionSource::Project {
                        st.warnings.push(scan_warning(entry.name, dpr))
                    } else {
                        st.warnings
                    },
                },
                entry.name,
                path,
                dpr,
            ),
            NameResolution::Ambiguous { count, source } => MapState {
                map: st.map,
                warnings: st.warnings.push(
                    missing_path_ambiguous_warning(entry.name, dpr, count, source),
                ),
            },
        },
        Some(raw) => {
            let resolved = tree.canonical(include_path(dpr, raw));
            if tree.has_file(resolved) {
                with_project_entry(st, entry.name, resolved, dpr)
            } else {
                let warned = MapState {
                    map: st.map,
                    warnings: st.warnings.push(path_not_found_warning(entry.name, dpr, resolved)),
                };
                match by_name {
                    NameResolution::NotFound => warned,
                    NameResolution::Unique { path, source } => with_project_entry(
                        warned,
                        entry.name,
                        path,
                        dpr,
                    ),
                    NameResolution::Ambiguous { count, source } => MapState {
                        map: warned.map,
                        warnings: warned.warnings.push(
                            referenced_ambiguous_warning(entry.name, dpr, count, source),
                        ),
                    },
                }
            }
        },
    }
}

/// An entry without a path of its own whose name several files declare
/// is not put into the map: it gives a warning.
pub proof fn lemma_ambiguous_entry_is_not_mapped(
    tree: SourceTree,
    dpr: Seq<char>,
    entry: EntryModel,
    project: CacheModel,
    delphi: Option<CacheModel>,
    st: MapState,
)
    requires
        resolve_name(project, delphi, entry.name) is Ambiguous,
        entry.in_path matches Some(raw) ==> !tree.has_file(
            tree.canonical(include_path(dpr, raw)),
        ),
    ensures
        with_resolved_entry(tree, dpr, entry, project, delphi, st).map == st.map,
        with_resolved_entry(tree, dpr, entry, project, delphi, st).warnings.len()
            > st.warnings.len(),
{
}

/// The map of the declared units: the entries `entries[k..]` resolved one
/// after the other.
pub open spec fn project_map_from(
    tree: SourceTree,
    dpr: Seq<char>,
    entries: Seq<EntryModel>,
    k: int,
    project: CacheModel,
    delphi: Option<CacheModel>,
    st: MapState,
) -> MapState
    decreases entries.len() - k,
{
    if k < 0 || k >= entries.len() {
        st
    } else {
        project_map_from(
            tree,
            dpr,
            entries,
            k + 1,
            project,
            delphi,
            with_resolved_entry(tree, dpr, entries[k], project, delphi, st),
        )
    }
}

/// The map from the names of the clause, in lower case, to the files that
/// declare them.
pub open spec fn project_map_of(
    tree: SourceTree,
    dpr: Seq<char>,
    entries: Seq<EntryModel>,
    project: CacheModel,
    delphi: Option<CacheModel>,
    warnings: Seq<Seq<char>>,
) -> MapState {
    project_map_from(
        tree,
        dpr,
        entries,
        0,
        project,
        delphi,
        MapState { map: MapModel { keys: Seq::empty(), values: Seq::empty() }, warnings },
    )
}

fn resolve_entry(
    tree: &SourceTree,
    dpr_path: &str,
    entry: &UsesEntry,
    project_cache: &UnitCache,
    delphi_cache: Option<&UnitCache>,
    map: &mut TextMap<String>,
    warnings: &mut Vec<String>,
)
    requires
        tree.wf(),
        project_cache.wf(),
        option_cache_wf(delphi_cache),
        old(map).wf(),
    ensures
        final(map).wf(),
        map_state(*final(map), *final(warnings)) == with_resolved_entry(
            *tree,
            dpr_path@,
            entry.deep_view(),
            project_cache@,
            option_cache(delphi_cache),
            map_state(*old(map), *old(warnings)),
        ),
{
    let name = entry.name.as_str();
    match &entry.in_path {
        None => {
            match resolve_by_name(project_cache, delphi_cache, name) {
                ResolveByName::NotFound => {},
                ResolveByName::Unique { path, source } => {
                    if source == ResolutionSource::Project {
                        let parts = vec![
                            "warning: missing in-path for unit ",
                            name,
                            " in ",
                            dpr_path,
                            " (resolved via scan)",
                        ];
                        assert(parts.deep_view() =~= seq![
                            "warning: missing in-path for unit "@,
                            name@,
                            " in "@,
                            dpr_path@,
                            " (resolved via scan)"@,
                        ]);
                        push_text(warnings, concat(&parts));
                    }
                    insert_project_entry(map, entry, path, dpr_path, warnings);
                },
                ResolveByName::Ambiguous { count, source } => {
                    let tail = matches_message(count, source);
                    let parts = vec![
                        "warning: missing in-path for unit ",
                        name,
                        " in ",
                        dpr_path,
                        tail.as_str(),
                    ];
                    assert(parts.deep_view() =~= seq![
                        "warning: missing in-path for unit "@,
                        name@,
                        " in "@,
                        dpr_path@,
                        matches_text(count as int, source),
                    ]);
                    push_text(warnings, concat(&parts));
                },
            }
        },
        Some(raw) => {
            let resolved = resolve_dpr_unit_path(tree, dpr_path, raw.as_str());
            if tree.is_file(resolved.as_str()) {
                insert_project_entry(map, entry, resolved, dpr_path, warnings);
                return ;
            }
            let parts = vec![
                "warning: dpr uses path not found for unit ",
                name,
                " in ",
                dpr_path,
                ": ",
                resolved.as_str(),
            ];
            assert(parts.deep_view() =~= seq![
                "warning: dpr uses path not found for unit "@,
                name@,
                " in "@,
                dpr_path@,
                ": "@,
                resolved@,
            ]);
            push_text(warnings, concat(&parts));
            match resolve_by_name(project_cache, delphi_cache, name) {
                ResolveByName::NotFound => {},
                ResolveByName::Unique { path, source } => {
                    insert_project_entry(map, entry, path, dpr_path, warnings);
                },
                ResolveByName::Ambiguous { count, source } => {
                    let tail = matches_message(count, source);
                    let parts = vec![
                        "warning: unit ",
                        name,
                        " referenced in ",
                        dpr_path,
                        " is ambiguous",
                        tail.as_str(),
                    ];
                    assert(parts.deep_view() =~= seq![
                        "warning: unit "@,
                        name@,
                        " referenced in "@,
                        dpr_path@,
                        " is ambiguous"@,
                        matches_text(count as int, source),
                    ]);
                    push_text(warnings, concat(&parts));
                },
            }
        },
    }
}

/// Builds the map from the names of the clause to the files that declare
/// them.
pub fn build_project_map(
    tree: &SourceTree,
    dpr_path: &str,
    list: &UsesList,
    project_cache: &UnitCache,
    delphi_cache: Option<&UnitCache>,
    warnings: &mut Vec<String>,
) -> (r: TextMap<String>)
    requires
        tree.wf(),
        project_cache.wf(),
        option_cache_wf(delphi_cache),
    ensures
        r.wf(),
        map_state(r, *final(warnings)) == project_map_of(
            *tree,
            dpr_path@,
            list.entries.deep_view(),
            project_cache@,
            option_cache(delphi_cache),
            old(warnings).deep_view(),
        ),
{
    let mut map: TextMap<String> = TextMap::new();
    assert(map.keys.deep_view() =~= Seq::<Seq<char>>::empty());
    assert(map.values.deep_view() =~= Seq::<Seq<char>>::empty());
    let mut k: usize = 0;
    while k < list.entries.len()
        invariant
            k <= list.entries.len(),
            map.wf(),
            project_map_from(
                *tree,
                dpr_path@,
                list.entries.deep_view(),
                k as int,
                project_cache@,
                option_cache(delphi_cache),
                map_state(map, *warnings),
            ) == project_map_of(
                *tree,
                dpr_path@,
                list.entries.deep_view(),
                project_cache@,
                option_cache(delphi_cache),
                old(warnings).deep_view(),
            ),
        decreases list.entries.len() - k,
    {
        assert(list.entries.deep_view()[k as int] == list.entries[k as int].deep_view());
        resolve_entry(
            tree,
            dpr_path,
            &list.entries[k],
            project_cache,
            delphi_cache,
            &mut map,
            warnings,
        );
        k += 1;
    }
    map
}

} // verus!
