use vstd::prelude::*;

use crate::source_tree::SourceTree;
use crate::text::{concat, copy_text, lower_text, option_text, to_lower};
use crate::text_map::{copy_texts, push_text, TextMap};
use crate::unit_cache::{
    fallback_warning, no_name_warning, stem_name, unit_name, unit_name_from_stem, ReadError,
};

verus! {

/// A unit: its name and the file that declares it.
pub struct UnitInfo {
    pub name: String,
    pub path: String,
}

/// What a `UnitInfo` holds.
pub struct InfoModel {
    pub name: Seq<char>,
    pub path: Seq<char>,
}

impl View for UnitInfo {
    type V = InfoModel;

    open spec fn view(&self) -> InfoModel {
        InfoModel { name: self.name@, path: self.path@ }
    }
}

/// The units of a set of files by name, in lower case: under each name
/// the first unit that has it, and for a name that several units have,
/// the files of all of them.
pub struct UnitIndex {
    pub units: TextMap<UnitInfo>,
    pub ambiguous: TextMap<Vec<String>>,
    pub warnings: Vec<String>,
}

/// What a `UnitIndex` holds.
pub struct IndexModel {
    pub units: Map<Seq<char>, InfoModel>,
    pub ambiguous: Map<Seq<char>, Seq<Seq<char>>>,
    pub warnings: Seq<Seq<char>>,
}

impl View for UnitIndex {
    type V = IndexModel;

    open spec fn view(&self) -> IndexModel {
        IndexModel {
            units: Map::new(
                |k: Seq<char>| self.units.contains(k),
                |k: Seq<char>| self.units.value(k)@,
            ),
            ambiguous: Map::new(
                |k: Seq<char>| self.ambiguous.contains(k),
                |k: Seq<char>| self.ambiguous.value(k).deep_view(),
            ),
            warnings: self.warnings.deep_view(),
        }
    }
}

impl IndexModel {
    /// The index with one more unit. The first unit of a name stands
    /// under the name; each further one makes the name ambiguous.
    pub open spec fn with_unit(self, name: Seq<char>, path: Seq<char>) -> IndexModel {
        let key = lower_text(name);
        if self.units.contains_key(key) {
            IndexModel {
                units: self.units,
                ambiguous: self.ambiguous.insert(
                    key,
                    (if self.ambiguous.contains_key(key) {
                        self.ambiguous[key]
                    } else {
                        seq![self.units[key].path]
                    }).push(path),
                ),
                warnings: self.warnings,
            }
        } else {
            IndexModel {
                units: self.units.insert(key, InfoModel { name, path }),
                ambiguous: self.ambiguous,
                warnings: self.warnings,
            }
        }
    }

    pub open spec fn with_warning(self, warning: Seq<char>) -> IndexModel {
        IndexModel {
            units: self.units,
            ambiguous: self.ambiguous,
            warnings: self.warnings.push(warning),
        }
    }

    pub open spec fn empty() -> IndexModel {
        IndexModel { units: Map::empty(), ambiguous: Map::empty(), warnings: Seq::empty() }
    }
}

impl UnitIndex {
    pub open spec fn wf(&self) -> bool {
        self.units.wf() && self.ambiguous.wf()
    }

    /// An index without units.
    pub fn new() -> (r: UnitIndex)
        ensures
            r.wf(),
            r@ == IndexModel::empty(),
    {
        let r = UnitIndex {
            units: TextMap::new(),
            ambiguous: TextMap::new(),
            warnings: Vec::new(),
        };
        assert(r@.units =~= Map::empty());
        assert(r@.ambiguous =~= Map::empty());
        assert(r@.warnings =~= Seq::empty());
        r
    }
}

/// Reads the name of the unit that `bytes` declares.
pub fn parse_unit_name(bytes: &[u8]) -> (r: Option<String>)
    ensures
        option_text(r) == unit_name(bytes@),
{
    crate::unit_cache::parse_unit_name(bytes)
}

fn add_unit(index: &mut UnitIndex, unit_name: String, path: String)
    requires
        old(index).wf(),
    ensures
        final(index).wf(),
        final(index)@ == old(index)@.with_unit(unit_name@, path@),
{
    let key = to_lower(unit_name.as_str());
    let ghost before = *index;
    match index.units.get(key.as_str()) {
        Some(existing) => {
            let mut paths = match index.ambiguous.get(key.as_str()) {
                Some(paths) => copy_texts(paths),
                None => {
                    let mut first: Vec<String> = Vec::new();
                    push_text(&mut first, existing.path.clone());
                    assert(first.deep_view() =~= seq![existing.path@]);
                    first
                },
            };
            push_text(&mut paths, path);
            index.ambiguous.insert(key, paths);
            proof {
                let target = before@.with_unit(unit_name@, path@);
                assert forall|k: Seq<char>|
                    index@.ambiguous.contains_key(k) == target.ambiguous.contains_key(k) && (
                    index@.ambiguous.contains_key(k) ==> index@.ambiguous[k]
                        == target.ambiguous[k]) by {
                    if k != key@ {
                        assert(index.ambiguous.lookup(k) == before.ambiguous.lookup(k));
                    }
                }
                assert(index@.ambiguous =~= target.ambiguous);
            }
        },
        None => {
            index.units.insert(key, UnitInfo { name: unit_name, path });
            proof {
                let target = before@.with_unit(unit_name@, path@);
                assert forall|k: Seq<char>|
                    index@.units.contains_key(k) == target.units.contains_key(k) && (
                    index@.units.contains_key(k) ==> index@.units[k] == target.units[k]) by {
                    if k != key@ {
                        assert(index.units.lookup(k) == before.units.lookup(k));
                    }
                }
                assert(index@.units =~= target.units);
            }
        },
    }
}

/// The name of the unit in the file `path` with the bytes `b`, and
/// whether it is taken from the file name: the name that the unit
/// declares, else the stem of the file name, else nothing.
pub open spec fn derived_name(path: Seq<char>, b: Seq<u8>) -> (Seq<char>, bool) {
    match unit_name(b) {
        Some(name) => (name, false),
        None => match stem_name(path) {
            Some(name) => (name, true),
            None => (Seq::empty(), true),
        },
    }
}

/// The view of a name with a flag.
pub open spec fn name_flag_view(r: (String, bool)) -> (Seq<char>, bool) {
    (r.0@, r.1)
}

/// Reads the name of the unit in the file `path`.
pub fn derive_unit_name_from_file(tree: &SourceTree, path: &str) -> (r: Result<
    (String, bool),
    ReadError,
>)
    requires
        tree.wf(),
    ensures
        r is Ok <==> tree.has_file(path@),
        r matches Ok(found) ==> name_flag_view(found) == derived_name(
            path@,
            tree.contents(path@).unwrap(),
        ),
        r matches Err(e) ==> e.path@ == path@,
{
    let bytes = match tree.read(path) {
        Some(bytes) => bytes,
        None => {
            return Err(ReadError { path: copy_text(path) });
        },
    };
    match parse_unit_name(bytes.as_slice()) {
        Some(name) => Ok((name, false)),
        None => match unit_name_from_stem(path) {
            Some(name) => Ok((name, true)),
            None => Ok((String::new(), true)),
        },
    }
}

/// The index after the unit of one more file was taken in.
pub open spec fn index_with_file(path: Seq<char>, b: Seq<u8>, index: IndexModel) -> IndexModel {
    match unit_name(b) {
        Some(name) => index.with_unit(name, path),
        None => match stem_name(path) {
            Some(name) => index.with_warning(fallback_warning(path)).with_unit(name, path),
            None => index.with_warning(no_name_warning(path)),
        },
    }
}

/// Where the building of an index ended: the index, and the file that
/// could not be read, if the building ended on one.
pub struct IndexEnd {
    pub index: IndexModel,
    pub failed: Option<Seq<char>>,
}

pub open spec fn index_from(tree: SourceTree, paths: Seq<Seq<char>>, k: int, index: IndexModel) -> IndexEnd
    decreases paths.len() - k,
{
    if k < 0 || k >= paths.len() {
        IndexEnd { index, failed: None }
    } else {
        match tree.contents(paths[k]) {
            None => IndexEnd { index, failed: Some(paths[k]) },
            Some(b) => index_from(tree, paths, k + 1, index_with_file(paths[k], b, index)),
        }
    }
}

/// Builds the index of the units in the files `paths`. A file that the
/// tree does not hold ends the building with an error.
pub fn build_unit_index(tree: &SourceTree, paths: &Vec<String>) -> (r: Result<UnitIndex, ReadError>)
    requires
        tree.wf(),
    ensures
        ({
            let end = index_from(*tree, paths.deep_view(), 0, IndexModel::empty());
            match r {
                Ok(index) => end.failed is None && index@ == end.index && index.wf(),
                Err(e) => end.failed == Some(e.path@),
            }
        }),
{
    let mut index = UnitIndex::new();
    let ghost goal = index_from(*tree, paths.deep_view(), 0, IndexModel::empty());
    let mut k: usize = 0;
    while k < paths.len()
        invariant
            k <= paths.len(),
            index.wf(),
            index_from(*tree, paths.deep_view(), k as int, index@) == goal,
        decreases paths.len() - k,
    {
        assert(paths.deep_view()[k as int] == paths[k as int]@);
        let path = paths[k].as_str();
        let bytes = match tree.read(path) {
            Some(bytes) => bytes,
            None => {
                return Err(ReadError { path: copy_text(path) });
            },
        };
        k += 1;
        let name = match parse_unit_name(bytes.as_slice()) {
            Some(name) => name,
            None => match unit_name_from_stem(path) {
                Some(name) => {
                    let parts = vec!["warning: fallback to filename stem for unit name: ", path];
                    assert(parts.deep_view() =~= seq![
                        "warning: fallback to filename stem for unit name: "@,
                        path@,
                    ]);
                    push_text(&mut index.warnings, concat(&parts));
                    name
                },
                None => {
                    let parts = vec!["warning: unable to determine unit name: ", path];
                    assert(parts.deep_view() =~= seq![
                        "warning: unable to determine unit name: "@,
                        path@,
                    ]);
                    push_text(&mut index.warnings, concat(&parts));
                    continue ;
                },
            },
        };
        add_unit(&mut index, name, copy_text(path));
    }
    Ok(index)
}

} // verus!
