use vstd::prelude::*;

use crate::dpr_walk::{mark_dependents, marks_dependents};
use crate::pas_index::{derive_unit_name_from_file, derived_name, UnitIndex, UnitInfo};
use crate::pas_lex::{
    comment_or_string_end, ident_end, ident_start, ident_text, is_ident_start,
    lemma_comment_or_string_end_bounds, lemma_ident_end_bounds, lemma_ws_comments_end_bounds,
    read_ident, scan_ident, skip_comment_or_string, skip_string, skip_ws_and_comments,
    ws_comments_end, COMMA, QUOTE, SEMICOLON,
};
use crate::paths::{absolute, joined, path_is_absolute, path_join};
use crate::source_tree::SourceTree;
use crate::text::{
    chars_of, concat, concat_all, contains_char, copy_text, insert_sorted, is_keyword, lower_text,
    matches_keyword, to_lower, trim, trimmed, with_sorted,
};
use crate::text_map::{contains_text, find_text, first_index, push_text, TextMap};
use crate::unit_cache::{after_unit_in_path, lemma_after_unit_in_path_bounds, peek_ident, ReadError};

verus! {

/// A unit of a graph, known by its number.
#[derive(Copy, Clone, Debug, PartialEq, Eq, Hash, Structural)]
pub struct UnitId(pub usize);

/// The units of an index with what each uses and what uses each.
pub struct UnitGraph {
    pub units: Vec<UnitInfo>,
    pub deps: Vec<Vec<UnitId>>,
    pub rev: Vec<Vec<UnitId>>,
    pub name_to_id: TextMap<UnitId>,
    pub warnings: Vec<String>,
}

/// The numbers that a list of units holds.
pub open spec fn id_numbers(ids: Vec<UnitId>) -> Seq<usize> {
    Seq::new(ids.len() as nat, |j: int| ids[j].0)
}

/// For each unit the numbers of the units in its list.
pub open spec fn id_lists(lists: Vec<Vec<UnitId>>) -> Seq<Seq<usize>> {
    Seq::new(lists.len() as nat, |i: int| id_numbers(lists[i]))
}

impl UnitGraph {
    /// Each unit has its two lists, and the lists and the names hold units.
    pub open spec fn wf(&self) -> bool {
        &&& self.deps.len() == self.units.len()
        &&& self.rev.len() == self.units.len()
        &&& self.name_to_id.wf()
        &&& forall|i: int, j: int|
            0 <= i < self.rev.len() && 0 <= j < self.rev[i].len() ==> (#[trigger] self.rev[i][j]).0
                < self.units.len()
        &&& forall|i: int, j: int|
            0 <= i < self.deps.len() && 0 <= j < self.deps[i].len() ==> (
            #[trigger] self.deps[i][j]).0 < self.units.len()
    }
}

impl UnitGraph {
    /// Whether the graph is well formed.
    pub fn is_sound(&self) -> (r: bool)
        ensures
            r == self.wf(),
    {
        let n = self.units.len();
        if self.deps.len() != n || self.rev.len() != n || !self.name_to_id.is_sound() {
            return false;
        }
        lists_hold_units(&self.rev, n) && lists_hold_units(&self.deps, n)
    }
}

/// Whether each number in the lists is below `n`.
fn lists_hold_units(lists: &Vec<Vec<UnitId>>, n: usize) -> (r: bool)
    ensures
        r == forall|i: int, j: int|
            0 <= i < lists.len() && 0 <= j < lists[i].len() ==> (#[trigger] lists[i][j]).0 < n,
{
    let mut i: usize = 0;
    while i < lists.len()
        invariant
            i <= lists.len(),
            forall|a: int, b: int|
                0 <= a < i && 0 <= b < lists[a].len() ==> (#[trigger] lists[a][b]).0 < n,
        decreases lists.len() - i,
    {
        let mut j: usize = 0;
        while j < lists[i].len()
            invariant
                j <= lists[i as int].len(),
                forall|b: int| 0 <= b < j ==> (#[trigger] lists[i as int][b]).0 < n,
            decreases lists[i as int].len() - j,
        {
            if lists[i][j].0 >= n {
                return false;
            }
            j += 1;
        }
        i += 1;
    }
    true
}

/// Flags for `n` units of which the unit `root` alone is set.
pub open spec fn only(n: int, root: int) -> Seq<bool> {
    Seq::new(n as nat, |i: int| i == root)
}

fn plain_lists(lists: &Vec<Vec<UnitId>>) -> (r: Vec<Vec<usize>>)
    ensures
        r.deep_view() == id_lists(*lists),
        r.len() == lists.len(),
        forall|i: int, j: int|
            0 <= i < r.len() && 0 <= j < r[i].len() ==> (#[trigger] r[i][j]) == lists[i][j].0 && j
                < lists[i].len(),
{
    let mut out: Vec<Vec<usize>> = Vec::new();
    let mut i: usize = 0;
    while i < lists.len()
        invariant
            i <= lists.len(),
            out.len() == i,
            forall|a: int| 0 <= a < i ==> (#[trigger] out[a])@ == id_numbers(lists[a]),
        decreases lists.len() - i,
    {
        let mut row: Vec<usize> = Vec::new();
        let mut j: usize = 0;
        while j < lists[i].len()
            invariant
                j <= lists[i as int].len(),
                row.len() == j,
                forall|b: int| 0 <= b < j ==> (#[trigger] row[b]) == lists[i as int][b].0,
            decreases lists[i as int].len() - j,
        {
            row.push(lists[i][j].0);
            j += 1;
        }
        assert(row@ =~= id_numbers(lists[i as int]));
        out.push(row);
        i += 1;
    }
    proof {
        assert forall|a: int| 0 <= a < out.len() implies out.deep_view()[a] == id_lists(*lists)[a] by {
            assert(out[a].deep_view() =~= out[a]@);
        }
        assert(out.deep_view() =~= id_lists(*lists));
    }
    out
}

/// Marks the units that depend on the unit `root`: the unit itself and,
/// breadth first, each unit that uses a marked unit.
pub fn compute_dependents(graph: &UnitGraph, root: UnitId) -> (r: Vec<bool>)
    requires
        graph.wf(),
        root.0 < graph.units.len(),
    ensures
        marks_dependents(r@, id_lists(graph.rev), only(graph.units.len() as int, root.0 as int)),
{
    let users = plain_lists(&graph.rev);
    let mut start: Vec<bool> = Vec::new();
    let mut i: usize = 0;
    while i < graph.units.len()
        invariant
            i <= graph.units.len(),
            start.len() == i,
            forall|a: int| 0 <= a < i ==> start[a] == (a == root.0),
        decreases graph.units.len() - i,
    {
        start.push(i == root.0);
        i += 1;
    }
    assert(start@ =~= only(graph.units.len() as int, root.0 as int));
    mark_dependents(&users, &start)
}

/// Whether a value is taken as the path of a file rather than as the
/// name of a unit: it holds a separator, or it ends in `.pas`.
pub open spec fn probably_path(value: Seq<char>) -> bool {
    value.contains('/') || value.contains('\\') || ends_with(lower_text(value), ".pas"@)
}

/// Whether `s` ends with `suffix`.
pub open spec fn ends_with(s: Seq<char>, suffix: Seq<char>) -> bool {
    suffix.len() <= s.len() && s.subrange(s.len() - suffix.len(), s.len() as int) == suffix
}

/// Whether `s` ends with `suffix`.
pub fn chars_end_with(s: &Vec<char>, suffix: &Vec<char>) -> (r: bool)
    ensures
        r == ends_with(s@, suffix@),
{
    if suffix.len() > s.len() {
        return false;
    }
    let from = s.len() - suffix.len();
    let mut i: usize = 0;
    while i < suffix.len()
        invariant
            i <= suffix.len(),
            from + suffix.len() == s.len(),
            forall|k: int| 0 <= k < i ==> s@[from + k] == suffix@[k],
        decreases suffix.len() - i,
    {
        if s[from + i] != suffix[i] {
            assert(s@.subrange(from as int, s.len() as int)[i as int] != suffix@[i as int]);
            return false;
        }
        i += 1;
    }
    assert(s@.subrange(from as int, s.len() as int) =~= suffix@);
    true
}

fn is_probably_path(value: &str) -> (r: bool)
    ensures
        r == probably_path(value@),
{
    if contains_char(value, '/') || contains_char(value, '\\') {
        return true;
    }
    let lowered = crate::text::lower_chars(value);
    let suffix = chars_of(".pas");
    chars_end_with(&lowered, &suffix)
}

/// The file that `value` names: `value` itself if it leads to a file,
/// else, for a relative path, the path below `search_root` if that leads
/// to a file.
pub open spec fn candidate_path(tree: SourceTree, value: Seq<char>, search_root: Seq<char>) -> Option<
    Seq<char>,
> {
    if tree.has_file(value) {
        Some(value)
    } else if !absolute(value) && tree.has_file(joined(search_root, value)) {
        Some(joined(search_root, value))
    } else {
        None
    }
}

fn resolve_candidate_path(tree: &SourceTree, value: &str, search_root: &str) -> (r: Option<String>)
    requires
        tree.wf(),
    ensures
        crate::text::option_text(r) == candidate_path(*tree, value@, search_root@),
{
    if tree.is_file(value) {
        return Some(copy_text(value));
    }
    if !path_is_absolute(value) {
        let alt = path_join(search_root, value);
        if tree.is_file(alt.as_str()) {
            return Some(alt);
        }
    }
    None
}

/// What the names of a graph hold, as a map.
pub open spec fn name_ids(graph: UnitGraph) -> Map<Seq<char>, UnitId> {
    Map::new(
        |k: Seq<char>| graph.name_to_id.contains(k),
        |k: Seq<char>| graph.name_to_id.value(k),
    )
}

/// The unit that a value names, or why it names none. A value that
/// looks like a path names the unit of that file; any other value is the
/// name of the unit itself.
pub open spec fn new_unit_id(
    tree: SourceTree,
    value: Seq<char>,
    names: Map<Seq<char>, UnitId>,
    search_root: Seq<char>,
) -> Result<UnitId, Seq<char>> {
    let wanted = trimmed(value);
    if wanted.len() == 0 {
        Err("--new-dependency cannot be empty"@)
    } else if probably_path(wanted) {
        match candidate_path(tree, wanted, search_root) {
            None => Err(concat_all(seq!["--new-dependency path not found: "@, wanted])),
            Some(path) => {
                let name = derived_name(path, tree.contents(path).unwrap()).0;
                if name.len() == 0 {
                    Err(concat_all(seq!["unable to derive unit name from new dependency: "@, path]))
                } else if names.contains_key(lower_text(name)) {
                    Ok(names[lower_text(name)])
                } else {
                    Err(
                        concat_all(
                            seq![
                                "new dependency unit not found in index: "@,
                                name,
                                " (from "@,
                                path,
                                ")"@,
                            ],
                        ),
                    )
                }
            },
        }
    } else if names.contains_key(lower_text(wanted)) {
        Ok(names[lower_text(wanted)])
    } else {
        Err(concat_all(seq!["new dependency unit not found in index: "@, wanted]))
    }
}

/// The view of a unit or a message.
pub open spec fn id_result_view(r: Result<UnitId, String>) -> Result<UnitId, Seq<char>> {
    match r {
        Ok(id) => Ok(id),
        Err(message) => Err(message@),
    }
}

/// Finds the unit that the value of a command line names.
pub fn resolve_new_unit_id(
    tree: &SourceTree,
    new_dependency: &str,
    graph: &UnitGraph,
    search_root: &str,
) -> (r: Result<UnitId, String>)
    requires
        tree.wf(),
        graph.name_to_id.wf(),
    ensures
        id_result_view(r) == new_unit_id(
            *tree,
            new_dependency@,
            name_ids(*graph),
            search_root@,
        ),
{
    let wanted = trim(new_dependency);
    if wanted.as_str().unicode_len() == 0 {
        return Err(copy_text("--new-dependency cannot be empty"));
    }
    if is_probably_path(wanted.as_str()) {
        let path = match resolve_candidate_path(tree, wanted.as_str(), search_root) {
            Some(path) => path,
            None => {
                let parts = vec!["--new-dependency path not found: ", wanted.as_str()];
                assert(parts.deep_view() =~= seq!["--new-dependency path not found: "@, wanted@]);
                return Err(concat(&parts));
            },
        };
        let name = match derive_unit_name_from_file(tree, path.as_str()) {
            Ok(found) => found.0,
            Err(_) => {
                let parts = vec!["failed to read new dependency: ", path.as_str()];
                return Err(concat(&parts));
            },
        };
        if name.as_str().unicode_len() == 0 {
            let parts = vec!["unable to derive unit name from new dependency: ", path.as_str()];
            assert(parts.deep_view() =~= seq![
                "unable to derive unit name from new dependency: "@,
                path@,
            ]);
            return Err(concat(&parts));
        }
        let key = to_lower(name.as_str());
        return match graph.name_to_id.get(key.as_str()) {
            Some(id) => Ok(*id),
            None => {
                let parts = vec![
                    "new dependency unit not found in index: ",
                    name.as_str(),
                    " (from ",
                    path.as_str(),
                    ")",
                ];
                assert(parts.deep_view() =~= seq![
                    "new dependency unit not found in index: "@,
                    name@,
                    " (from "@,
                    path@,
                    ")"@,
                ]);
                Err(concat(&parts))
            },
        };
    }
    let key = to_lower(wanted.as_str());
    match graph.name_to_id.get(key.as_str()) {
        Some(id) => Ok(*id),
        None => {
            let parts = vec!["new dependency unit not found in index: ", wanted.as_str()];
            assert(parts.deep_view() =~= seq![
                "new dependency unit not found in index: "@,
                wanted@,
            ]);
            Err(concat(&parts))
        },
    }
}

/// The offset of the first `,` or `;` at or after `i` that stands outside
/// comments and literals.
pub open spec fn delimiter_from(b: Seq<u8>, i: int) -> Option<int>
    decreases b.len() - i,
{
    if i < 0 || i >= b.len() {
        None
    } else if b[i] == COMMA || b[i] == SEMICOLON {
        Some(i)
    } else {
        match comment_or_string_end(b, i) {
            Some(e) => {
                proof {
                    lemma_comment_or_string_end_bounds(b, i);
                }
                delimiter_from(b, e)
            },
            None => delimiter_from(b, i + 1),
        }
    }
}

pub proof fn lemma_delimiter_from(b: Seq<u8>, i: int)
    requires
        0 <= i,
    ensures
        delimiter_from(b, i) matches Some(p) ==> i <= p < b.len() && (b[p] == COMMA || b[p]
            == SEMICOLON),
    decreases b.len() - i,
{
    if i < b.len() && !(b[i] == COMMA || b[i] == SEMICOLON) {
        lemma_comment_or_string_end_bounds(b, i);
        match comment_or_string_end(b, i) {
            Some(e) => lemma_delimiter_from(b, e),
            None => lemma_delimiter_from(b, i + 1),
        }
    }
}

/// Where the reading of a clause stopped, and the names read.
pub struct PlainEnd {
    pub pos: int,
    pub names: Seq<Seq<char>>,
}

/// Reads the names of a uses clause from `i` on; include directives are
/// comments like any other.
pub open spec fn plain_fragment(b: Seq<u8>, i: int, names: Seq<Seq<char>>) -> PlainEnd
    decreases b.len() - i,
{
    let k = ws_comments_end(b, i);
    if i < 0 || k >= b.len() {
        PlainEnd { pos: k, names }
    } else if b[k] == SEMICOLON {
        PlainEnd { pos: k + 1, names }
    } else if !ident_start(b[k]) {
        proof {
            lemma_ws_comments_end_bounds(b, i);
        }
        plain_fragment(b, k + 1, names)
    } else {
        let next = ident_end(b, k + 1);
        let after = after_unit_in_path(b, next);
        let found = names.push(ident_text(b, k));
        proof {
            lemma_ws_comments_end_bounds(b, i);
            lemma_ident_end_bounds(b, k + 1);
            lemma_after_unit_in_path_bounds(b, next);
            lemma_delimiter_from(b, after);
        }
        match delimiter_from(b, after) {
            Some(p) => if b[p] == COMMA {
                plain_fragment(b, p + 1, found)
            } else {
                PlainEnd { pos: p + 1, names: found }
            },
            None => PlainEnd { pos: b.len() as int, names: found },
        }
    }
}

pub proof fn lemma_plain_fragment_bounds(b: Seq<u8>, i: int, names: Seq<Seq<char>>)
    requires
        0 <= i <= b.len(),
    ensures
        i <= plain_fragment(b, i, names).pos <= b.len(),
    decreases b.len() - i,
{
    lemma_ws_comments_end_bounds(b, i);
    let k = ws_comments_end(b, i);
    if k < b.len() && b[k] != SEMICOLON {
        if !ident_start(b[k]) {
            lemma_plain_fragment_bounds(b, k + 1, names);
        } else {
            let next = ident_end(b, k + 1);
            let after = after_unit_in_path(b, next);
            lemma_ident_end_bounds(b, k + 1);
            lemma_after_unit_in_path_bounds(b, next);
            lemma_delimiter_from(b, after);
            match delimiter_from(b, after) {
                Some(p) => if b[p] == COMMA {
                    lemma_plain_fragment_bounds(b, p + 1, names.push(ident_text(b, k)));
                },
                None => {},
            }
        }
    }
}

/// The names that the uses clauses of a unit give, read from `i` on,
/// without regard to include files.
pub open spec fn plain_uses_from(b: Seq<u8>, i: int, in_section: bool, names: Seq<Seq<char>>) -> Seq<
    Seq<char>,
>
    decreases b.len() - i,
{
    if i < 0 || i >= b.len() {
        names
    } else {
        match comment_or_string_end(b, i) {
            Some(e) => {
                proof {
                    lemma_comment_or_string_end_bounds(b, i);
                }
                plain_uses_from(b, e, in_section, names)
            },
            None => if ident_start(b[i]) {
                let next = ident_end(b, i + 1);
                let token = b.subrange(i, next);
                proof {
                    lemma_ident_end_bounds(b, i + 1);
                    lemma_plain_fragment_bounds(b, next, names);
                }
                if is_keyword(token, "interface"@) || is_keyword(token, "implementation"@) {
                    plain_uses_from(b, next, true, names)
                } else if is_keyword(token, "uses"@) && in_section {
                    let r = plain_fragment(b, next, names);
                    plain_uses_from(b, r.pos, in_section, r.names)
                } else {
                    plain_uses_from(b, next, in_section, names)
                }
            } else {
                plain_uses_from(b, i + 1, in_section, names)
            },
        }
    }
}

/// The names that the unit `b` uses.
pub open spec fn plain_uses(b: Seq<u8>) -> Seq<Seq<char>> {
    plain_uses_from(b, 0, false, Seq::empty())
}

fn skip_to_delimiter(bytes: &[u8], start: usize) -> (r: (usize, Option<u8>))
    requires
        start <= bytes.len(),
    ensures
        start <= r.0,
        match r.1 {
            Some(c) => delimiter_from(bytes@, start as int) == Some(r.0 as int) && r.0
                < bytes.len() && bytes@[r.0 as int] == c,
            None => delimiter_from(bytes@, start as int) is None && r.0 == bytes.len(),
        },
{
    let mut i = start;
    proof {
        lemma_delimiter_from(bytes@, start as int);
    }
    while i < bytes.len()
        invariant
            start <= i <= bytes.len(),
            delimiter_from(bytes@, i as int) == delimiter_from(bytes@, start as int),
        decreases bytes.len() - i,
    {
        if bytes[i] == COMMA || bytes[i] == SEMICOLON {
            return (i, Some(bytes[i]));
        }
        match skip_comment_or_string(bytes, i) {
            Some(e) => {
                i = e;
            },
            None => {
                i += 1;
            },
        }
    }
    (i, None)
}

fn skip_in_path(bytes: &[u8], i: usize) -> (r: usize)
    requires
        i <= bytes.len(),
    ensures
        r == after_unit_in_path(bytes@, i as int),
        i <= r <= bytes.len(),
{
    proof {
        lemma_after_unit_in_path_bounds(bytes@, i as int);
    }
    let j = skip_ws_and_comments(bytes, i);
    match peek_ident(bytes, j) {
        Some(token_end) => {
            if matches_keyword(bytes, j, token_end, "in") {
                let k = skip_ws_and_comments(bytes, token_end);
                if crate::pas_lex::byte_is(bytes, k, QUOTE) {
                    skip_string(bytes, k + 1)
                } else {
                    k
                }
            } else {
                j
            }
        },
        None => j,
    }
}

fn parse_uses_list(bytes: &[u8], start: usize, deps: &mut Vec<String>) -> (r: usize)
    requires
        start <= bytes.len(),
    ensures
        (PlainEnd { pos: r as int, names: final(deps).deep_view() }) == plain_fragment(
            bytes@,
            start as int,
            old(deps).deep_view(),
        ),
        start <= r <= bytes.len(),
{
    let ghost goal = plain_fragment(bytes@, start as int, deps.deep_view());
    proof {
        lemma_plain_fragment_bounds(bytes@, start as int, deps.deep_view());
    }
    let mut i = start;
    loop
        invariant
            start <= i <= bytes.len(),
            plain_fragment(bytes@, i as int, deps.deep_view()) == goal,
        decreases bytes.len() - i,
    {
        let k = skip_ws_and_comments(bytes, i);
        if k >= bytes.len() {
            return k;
        }
        if bytes[k] == SEMICOLON {
            return k + 1;
        }
        if !is_ident_start(bytes[k]) {
            i = k + 1;
            continue ;
        }
        let (name, next) = read_ident(bytes, k);
        push_text(deps, name);
        let after = skip_in_path(bytes, next);
        let (pos, delim) = skip_to_delimiter(bytes, after);
        match delim {
            Some(c) => {
                if c == COMMA {
                    i = pos + 1;
                } else {
                    return pos + 1;
                }
            },
            None => {
                return pos;
            },
        }
    }
}

/// Reads the names that a unit uses: those of each uses clause that
/// follows `interface` or `implementation`.
pub fn parse_unit_uses(bytes: &[u8]) -> (r: Vec<String>)
    ensures
        r.deep_view() == plain_uses(bytes@),
{
    let mut deps: Vec<String> = Vec::new();
    assert(deps.deep_view() =~= Seq::<Seq<char>>::empty());
    let mut in_section = false;
    let mut i: usize = 0;
    while i < bytes.len()
        invariant
            i <= bytes.len(),
            plain_uses_from(bytes@, i as int, in_section, deps.deep_view()) == plain_uses(bytes@),
        decreases bytes.len() - i,
    {
        match skip_comment_or_string(bytes, i) {
            Some(e) => {
                i = e;
            },
            None => {
                if is_ident_start(bytes[i]) {
                    let next = scan_ident(bytes, i);
                    if matches_keyword(bytes, i, next, "interface") || matches_keyword(
                        bytes,
                        i,
                        next,
                        "implementation",
                    ) {
                        in_section = true;
                        i = next;
                    } else if in_section && matches_keyword(bytes, i, next, "uses") {
                        i = parse_uses_list(bytes, next, &mut deps);
                    } else {
                        i = next;
                    }
                } else {
                    i += 1;
                }
            },
        }
    }
    deps
}

/// The keys `keys[k..]` put into `sorted`, each where it belongs and
/// once.
pub open spec fn sorted_keys_from(keys: Seq<Seq<char>>, k: int, sorted: Seq<Seq<char>>) -> Seq<
    Seq<char>,
>
    decreases keys.len() - k,
{
    if k < 0 || k >= keys.len() {
        sorted
    } else {
        sorted_keys_from(
            keys,
            k + 1,
            if sorted.contains(keys[k]) {
                sorted
            } else {
                with_sorted(sorted, keys[k])
            },
        )
    }
}

/// The names of an index in their order: the number of a unit is the
/// place of its name among them.
pub open spec fn graph_keys(index: UnitIndex) -> Seq<Seq<char>> {
    sorted_keys_from(index.units.key_texts(), 0, Seq::empty())
}

/// The numbers that were found for one unit, and the warnings.
pub struct DepsState {
    pub ids: Seq<usize>,
    pub warnings: Seq<Seq<char>>,
}

pub open spec fn ambiguous_reference_warning(dep: Seq<char>, path: Seq<char>) -> Seq<char> {
    concat_all(seq!["warning: ambiguous unit reference '"@, dep, "' in "@, path])
}

/// The state after one used name was taken in: a name that several
/// units have gives a warning; a name of the index gives its number,
/// once.
pub open spec fn with_graph_dep(
    keys: Seq<Seq<char>>,
    index: UnitIndex,
    dep: Seq<char>,
    path: Seq<char>,
    st: DepsState,
) -> DepsState {
    let key = lower_text(dep);
    let warnings = if index.ambiguous.contains(key) {
        st.warnings.push(ambiguous_reference_warning(dep, path))
    } else {
        st.warnings
    };
    match first_index(keys, key) {
        Some(id) => DepsState {
            ids: if st.ids.contains(id as usize) {
                st.ids
            } else {
                st.ids.push(id as usize)
            },
            warnings,
        },
        None => DepsState { ids: st.ids, warnings },
    }
}

pub open spec fn graph_deps_from(
    keys: Seq<Seq<char>>,
    index: UnitIndex,
    names: Seq<Seq<char>>,
    j: int,
    path: Seq<char>,
    st: DepsState,
) -> DepsState
    decreases names.len() - j,
{
    if j < 0 || j >= names.len() {
        st
    } else {
        graph_deps_from(
            keys,
            index,
            names,
            j + 1,
            path,
            with_graph_dep(keys, index, names[j], path, st),
        )
    }
}

/// The lists of a graph while they are built, and the warnings; `failed`
/// holds the file that could not be read, if there was one.
pub struct GraphEnd {
    pub deps: Seq<Seq<usize>>,
    pub warnings: Seq<Seq<char>>,
    pub failed: Option<Seq<char>>,
}

/// For the units from `i` on, the numbers of the units that each uses.
pub open spec fn graph_lists_from(
    tree: SourceTree,
    keys: Seq<Seq<char>>,
    index: UnitIndex,
    i: int,
    deps: Seq<Seq<usize>>,
    warnings: Seq<Seq<char>>,
) -> GraphEnd
    decreases keys.len() - i,
{
    if i < 0 || i >= keys.len() {
        GraphEnd { deps, warnings, failed: None }
    } else {
        let path = index.units.value(keys[i]).path@;
        match tree.contents(path) {
            None => GraphEnd { deps, warnings, failed: Some(path) },
            Some(bytes) => {
                let found = graph_deps_from(
                    keys,
                    index,
                    plain_uses(bytes),
                    0,
                    path,
                    DepsState { ids: Seq::empty(), warnings },
                );
                graph_lists_from(tree, keys, index, i + 1, deps.push(found.ids), found.warnings)
            },
        }
    }
}

/// The lists with the unit `source` among the users of each of the
/// units `targets[j..]`.
pub open spec fn with_users(rev: Seq<Seq<usize>>, targets: Seq<usize>, j: int, source: usize) -> Seq<
    Seq<usize>,
>
    decreases targets.len() - j,
{
    if j < 0 || j >= targets.len() {
        rev
    } else {
        let t = targets[j] as int;
        with_users(rev.update(t, rev[t].push(source)), targets, j + 1, source)
    }
}

/// For each unit the units that use it: the units from `i` on taken in,
/// each with what it uses.
pub open spec fn users_from(deps: Seq<Seq<usize>>, i: int, rev: Seq<Seq<usize>>) -> Seq<Seq<usize>>
    decreases deps.len() - i,
{
    if i < 0 || i >= deps.len() {
        rev
    } else {
        users_from(deps, i + 1, with_users(rev, deps[i], 0, i as usize))
    }
}

/// Lists for `n` units with nothing in them.
pub open spec fn empty_lists(n: int) -> Seq<Seq<usize>> {
    Seq::new(n as nat, |i: int| Seq::<usize>::empty())
}

fn sorted_names(index: &UnitIndex) -> (r: Vec<String>)
    ensures
        r.deep_view() == graph_keys(*index),
{
    let mut sorted: Vec<String> = Vec::new();
    assert(sorted.deep_view() =~= Seq::<Seq<char>>::empty());
    let mut k: usize = 0;
    while k < index.units.keys.len()
        invariant
            k <= index.units.keys.len(),
            sorted_keys_from(index.units.key_texts(), k as int, sorted.deep_view()) == graph_keys(
                *index,
            ),
        decreases index.units.keys.len() - k,
    {
        assert(index.units.key_texts()[k as int] == index.units.keys[k as int]@);
        if !contains_text(&sorted, index.units.keys[k].as_str()) {
            insert_sorted(&mut sorted, index.units.keys[k].clone());
        }
        k += 1;
    }
    sorted
}

fn unit_deps(
    keys: &Vec<String>,
    index: &UnitIndex,
    names: &Vec<String>,
    path: &str,
    warnings: &mut Vec<String>,
) -> (r: Vec<UnitId>)
    requires
        index.ambiguous.wf(),
    ensures
        (DepsState { ids: id_numbers(r), warnings: final(warnings).deep_view() })
            == graph_deps_from(
            keys.deep_view(),
            *index,
            names.deep_view(),
            0,
            path@,
            DepsState { ids: Seq::empty(), warnings: old(warnings).deep_view() },
        ),
        forall|j: int| 0 <= j < r.len() ==> (#[trigger] r[j]).0 < keys.len(),
{
    let mut ids: Vec<UnitId> = Vec::new();
    assert(id_numbers(ids) =~= Seq::<usize>::empty());
    let ghost goal = graph_deps_from(
        keys.deep_view(),
        *index,
        names.deep_view(),
        0,
        path@,
        DepsState { ids: Seq::empty(), warnings: warnings.deep_view() },
    );
    let mut j: usize = 0;
    while j < names.len()
        invariant
            j <= names.len(),
            forall|a: int| 0 <= a < ids.len() ==> (#[trigger] ids[a]).0 < keys.len(),
            graph_deps_from(
                keys.deep_view(),
                *index,
                names.deep_view(),
                j as int,
                path@,
                DepsState { ids: id_numbers(ids), warnings: warnings.deep_view() },
            ) == goal,
        decreases names.len() - j,
    {
        assert(names.deep_view()[j as int] == names[j as int]@);
        let dep = names[j].as_str();
        j += 1;
        let key = to_lower(dep);
        if index.ambiguous.contains_key(key.as_str()) {
            let parts = vec!["warning: ambiguous unit reference '", dep, "' in ", path];
            assert(parts.deep_view() =~= seq![
                "warning: ambiguous unit reference '"@,
                dep@,
                "' in "@,
                path@,
            ]);
            push_text(warnings, concat(&parts));
        }
        match find_text(keys, key.as_str()) {
            Some(id) => {
                let mut seen = false;
                let mut a: usize = 0;
                while a < ids.len()
                    invariant
                        a <= ids.len(),
                        seen == exists|b: int| 0 <= b < a && id_numbers(ids)[b] == id,
                    decreases ids.len() - a,
                {
                    if ids[a].0 == id {
                        seen = true;
                        assert(id_numbers(ids)[a as int] == id);
                    }
                    a += 1;
                }
                assert(seen == id_numbers(ids).contains(id));
                if !seen {
                    let ghost before = ids;
                    ids.push(UnitId(id));
                    assert(id_numbers(ids) =~= id_numbers(before).push(id));
                }
            },
            None => {},
        }
    }
    ids
}

fn add_users(rev: &mut Vec<Vec<UnitId>>, targets: &Vec<UnitId>, source: usize)
    requires
        source < old(rev).len(),
        forall|j: int| 0 <= j < targets.len() ==> (#[trigger] targets[j]).0 < old(rev).len(),
        forall|i: int, j: int|
            0 <= i < old(rev).len() && 0 <= j < old(rev)[i].len() ==> (#[trigger] old(rev)[i][j]).0
                < old(rev).len(),
    ensures
        final(rev).len() == old(rev).len(),
        id_lists(*final(rev)) == with_users(id_lists(*old(rev)), id_numbers(*targets), 0, source),
        forall|i: int, j: int|
            0 <= i < final(rev).len() && 0 <= j < final(rev)[i].len() ==> (
            #[trigger] final(rev)[i][j]).0 < final(rev).len(),
{
    let ghost goal = with_users(id_lists(*rev), id_numbers(*targets), 0, source);
    let n = rev.len();
    let mut j: usize = 0;
    while j < targets.len()
        invariant
            j <= targets.len(),
            rev.len() == n,
            forall|a: int, b: int|
                0 <= a < rev.len() && 0 <= b < rev[a].len() ==> (#[trigger] rev[a][b]).0 < n,
            with_users(id_lists(*rev), id_numbers(*targets), j as int, source) == goal,
        decreases targets.len() - j,
    {
        let t = targets[j].0;
        let ghost before = *rev;
        rev[t].push(UnitId(source));
        proof {
            assert(id_numbers(*targets)[j as int] == t);
            assert(id_numbers(rev[t as int]) =~= id_numbers(before[t as int]).push(source));
            assert(id_lists(*rev) =~= id_lists(before).update(
                t as int,
                id_lists(before)[t as int].push(source),
            ));
            assert forall|a: int, b: int|
                0 <= a < rev.len() && 0 <= b < rev[a].len() implies (#[trigger] rev[a][b]).0
                < n by {
                if a != t {
                    assert(rev[a] == before[a]);
                    assert(before[a][b].0 < n);
                } else if b < before[a].len() {
                    assert(rev[a][b] == before[a][b]);
                    assert(before[a][b].0 < n);
                }
            }
        }
        j += 1;
    }
}

/// What the graph of an index holds, if every file can be read: the
/// units in the order of their names, for each unit the units that it
/// uses and the units that use it, and the warnings.
pub open spec fn graph_of(tree: SourceTree, index: UnitIndex) -> GraphEnd {
    graph_lists_from(tree, graph_keys(index), index, 0, Seq::empty(), Seq::empty())
}

/// Builds the graph of the units of an index. A file that the tree does
/// not hold ends the building with an error.
pub fn build_unit_graph(tree: &SourceTree, index: &UnitIndex) -> (r: Result<UnitGraph, ReadError>)
    requires
        tree.wf(),
        index.wf(),
    ensures
        match r {
            Ok(graph) => {
                let end = graph_of(*tree, *index);
                &&& end.failed is None
                &&& graph.wf()
                &&& graph.name_to_id.key_texts() == graph_keys(*index)
                &&& forall|i: int|
                    0 <= i < graph.units.len() ==> (#[trigger] graph.units[i])@
                        == index.units.value(graph_keys(*index)[i])@ && graph.name_to_id.values[i]
                        == UnitId(i as usize)
                &&& id_lists(graph.deps) == end.deps
                &&& id_lists(graph.rev) == users_from(
                    end.deps,
                    0,
                    empty_lists(graph.units.len() as int),
                )
                &&& graph.warnings.deep_view() == end.warnings
            },
            Err(e) => graph_of(*tree, *index).failed == Some(e.path@),
        },
{
    let keys = sorted_names(index);
    let ghost names = graph_keys(*index);
    let n = keys.len();
    assert(keys.deep_view().len() == n);
    let mut units: Vec<UnitInfo> = Vec::new();
    let mut ids: Vec<UnitId> = Vec::new();
    let mut k: usize = 0;
    while k < n
        invariant
            k <= n,
            n == keys.len(),
            keys.deep_view() == names,
            units.len() == k,
            ids.len() == k,
            forall|i: int|
                0 <= i < k ==> (#[trigger] units[i])@ == index.units.value(names[i])@ && ids[i]
                    == UnitId(i as usize),
        decreases n - k,
    {
        assert(names[k as int] == keys[k as int]@);
        proof {
            lemma_graph_keys_are_index_keys(
                index.units.key_texts(),
                0,
                Seq::empty(),
                names[k as int],
            );
            crate::text_map::lemma_first_from(index.units.key_texts(), names[k as int], 0);
        }
        let info = match index.units.get(keys[k].as_str()) {
            Some(info) => UnitInfo { name: info.name.clone(), path: info.path.clone() },
            None => UnitInfo { name: String::new(), path: String::new() },
        };
        let ghost held = units;
        let ghost numbered = ids;
        units.push(info);
        ids.push(UnitId(k));
        assert forall|i: int| 0 <= i < k + 1 implies (#[trigger] units[i])@ == index.units.value(
            names[i],
        )@ && ids[i] == UnitId(i as usize) by {
            if i < k {
                assert(units[i] == held[i]);
                assert(ids[i] == numbered[i]);
            }
        }
        k += 1;
    }
    let name_to_id = TextMap { keys, values: ids };
    let mut deps: Vec<Vec<UnitId>> = Vec::new();
    let mut warnings: Vec<String> = Vec::new();
    assert(id_lists(deps) =~= Seq::<Seq<usize>>::empty());
    assert(warnings.deep_view() =~= Seq::<Seq<char>>::empty());
    let mut i: usize = 0;
    while i < n
        invariant
            i <= n,
            n == units.len(),
            n == name_to_id.keys.len(),
            name_to_id.keys.deep_view() == names,
            deps.len() == i,
            forall|a: int| 0 <= a < n ==> (#[trigger] units[a])@ == index.units.value(names[a])@,
            forall|a: int, b: int|
                0 <= a < deps.len() && 0 <= b < deps[a].len() ==> (#[trigger] deps[a][b]).0 < n,
            graph_lists_from(*tree, names, *index, i as int, id_lists(deps), warnings.deep_view())
                == graph_of(*tree, *index),
        decreases n - i,
    {
        let path = units[i].path.as_str();
        assert(units[i as int]@ == index.units.value(names[i as int])@);
        let bytes = match tree.read(path) {
            Some(bytes) => bytes,
            None => {
                return Err(ReadError { path: copy_text(path) });
            },
        };
        let parsed = parse_unit_uses(bytes.as_slice());
        let found = unit_deps(&name_to_id.keys, index, &parsed, path, &mut warnings);
        let ghost before = deps;
        deps.push(found);
        assert(id_lists(deps) =~= id_lists(before).push(id_numbers(found)));
        i += 1;
    }
    let mut rev: Vec<Vec<UnitId>> = Vec::new();
    let mut a: usize = 0;
    while a < n
        invariant
            a <= n,
            rev.len() == a,
            forall|b: int| 0 <= b < a ==> (#[trigger] rev[b]).len() == 0,
        decreases n - a,
    {
        rev.push(Vec::new());
        a += 1;
    }
    assert forall|b: int| 0 <= b < n implies id_lists(rev)[b] == empty_lists(n as int)[b] by {
        assert(rev[b].len() == 0);
        assert(id_numbers(rev[b]) =~= Seq::<usize>::empty());
    }
    assert(id_lists(rev) =~= empty_lists(n as int));
    let ghost goal = users_from(id_lists(deps), 0, empty_lists(n as int));
    let mut source: usize = 0;
    while source < n
        invariant
            source <= n,
            rev.len() == n,
            deps.len() == n,
            forall|x: int, y: int|
                0 <= x < deps.len() && 0 <= y < deps[x].len() ==> (#[trigger] deps[x][y]).0 < n,
            forall|x: int, y: int|
                0 <= x < rev.len() && 0 <= y < rev[x].len() ==> (#[trigger] rev[x][y]).0 < n,
            users_from(id_lists(deps), source as int, id_lists(rev)) == goal,
        decreases n - source,
    {
        assert(id_lists(deps)[source as int] == id_numbers(deps[source as int]));
        add_users(&mut rev, &deps[source], source);
        source += 1;
    }
    Ok(UnitGraph { units, deps, rev, name_to_id, warnings })
}

/// Each key of the sorted list is a key of the index or was in the list
/// before.
pub proof fn lemma_graph_keys_are_index_keys(
    keys: Seq<Seq<char>>,
    k: int,
    sorted: Seq<Seq<char>>,
    key: Seq<char>,
)
    requires
        0 <= k,
        sorted_keys_from(keys, k, sorted).contains(key),
    ensures
        sorted.contains(key) || keys.contains(key),
    decreases keys.len() - k,
{
    if k < keys.len() {
        let next = if sorted.contains(keys[k]) {
            sorted
        } else {
            with_sorted(sorted, keys[k])
        };
        lemma_graph_keys_are_index_keys(keys, k + 1, next, key);
        if next.contains(key) && !sorted.contains(key) {
            let at = crate::text::sorted_position(sorted, keys[k], 0);
            crate::text::lemma_sorted_position(sorted, keys[k], 0);
            let j = choose|j: int| 0 <= j < next.len() && next[j] == key;
            if j < at {
                assert(sorted[j] == key);
            } else if j > at {
                assert(sorted[j - 1] == key);
            }
        }
    }
}

} // verus!
