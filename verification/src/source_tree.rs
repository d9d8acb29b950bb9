use vstd::prelude::*;

use crate::text::copy_text;
use crate::text_map::TextMap;

verus! {

/// The files that a run works on, as they were read: each file's bytes under
/// its canonical path, and for each other spelling of a path the canonical
/// path that it leads to. A path that the tree does not hold does not exist.
pub struct SourceTree {
    pub files: TextMap<Vec<u8>>,
    pub links: TextMap<String>,
}

impl SourceTree {
    pub open spec fn wf(&self) -> bool {
        self.files.wf() && self.links.wf()
    }

    /// The canonical path that `path` leads to; `path` itself where the tree
    /// knows no other.
    pub open spec fn canonical(&self, path: Seq<char>) -> Seq<char> {
        if self.links.contains(path) {
            self.links.value(path)@
        } else {
            path
        }
    }

    /// Whether `path` leads to a file.
    pub open spec fn has_file(&self, path: Seq<char>) -> bool {
        self.files.contains(self.canonical(path))
    }

    /// The bytes of the file that `path` leads to.
    pub open spec fn contents(&self, path: Seq<char>) -> Option<Seq<u8>> {
        if self.has_file(path) {
            Some(self.files.value(self.canonical(path))@)
        } else {
            None
        }
    }

    /// The two trees lead every path to the same file, and hold the same
    /// bytes for every file but `own`.
    pub open spec fn agrees_but(&self, other: SourceTree, own: Seq<char>) -> bool {
        &&& forall|p: Seq<char>| #[trigger] self.canonical(p) == other.canonical(p)
        &&& forall|p: Seq<char>|
            self.canonical(p) != own ==> #[trigger] self.contents(p) == other.contents(p)
    }

    /// Whether the tree is well formed.
    pub fn is_sound(&self) -> (r: bool)
        ensures
            r == self.wf(),
    {
        self.files.is_sound() && self.links.is_sound()
    }

    /// A tree without files.
    pub fn new() -> (r: Self)
        ensures
            r.wf(),
            r.files.keys@.len() == 0,
            r.links.keys@.len() == 0,
            forall|p: Seq<char>| r.canonical(p) == p && !r.has_file(p),
    {
        SourceTree { files: TextMap::new(), links: TextMap::new() }
    }

    /// Puts a file under its canonical path: the tree holds the bytes for
    /// every path that leads there, and is otherwise as it was.
    pub fn add_file(&mut self, path: String, bytes: Vec<u8>)
        requires
            old(self).wf(),
        ensures
            final(self).wf(),
            final(self).links == old(self).links,
            final(self).files.contains(path@),
            final(self).files.value(path@) == bytes,
            forall|other: Seq<char>|
                other != path@ ==> final(self).files.index_of(other) == old(self).files.index_of(
                    other,
                ),
            old(self).agrees_but(*final(self), path@),
            forall|p: Seq<char>|
                old(self).canonical(p) == path@ ==> #[trigger] final(self).contents(p) == Some(
                    bytes@,
                ),
    {
        let ghost prior = *self;
        self.files.insert(path, bytes);
        proof {
            assert forall|p: Seq<char>| prior.canonical(p) != path@ implies #[trigger] prior.contents(
                p,
            ) == self.contents(p) by {
                assert(self.files.lookup(prior.canonical(p)) == prior.files.lookup(
                    prior.canonical(p),
                ));
            }
        }
    }

    /// Records that `raw` leads to `canonical`.
    pub fn add_link(&mut self, raw: String, canonical: String)
        requires
            old(self).wf(),
        ensures
            final(self).wf(),
            final(self).files == old(self).files,
            final(self).canonical(raw@) == canonical@,
            forall|other: Seq<char>|
                other != raw@ ==> final(self).links.index_of(other) == old(self).links.index_of(
                    other,
                ),
    {
        self.links.insert(raw, canonical);
    }

    /// The canonical path that `path` leads to.
    pub fn canonicalize(&self, path: &str) -> (r: String)
        requires
            self.wf(),
        ensures
            r@ == self.canonical(path@),
    {
        match self.links.get(path) {
            Some(target) => target.clone(),
            None => copy_text(path),
        }
    }

    /// The offset in `files` of the file that `path` leads to.
    pub fn file_index(&self, path: &str) -> (r: Option<usize>)
        requires
            self.wf(),
        ensures
            r matches Some(i) ==> self.files.index_of(self.canonical(path@)) == Some(i as int)
                && i < self.files.values.len() && self.contents(path@) == Some(
                self.files.values[i as int]@,
            ),
            r is None ==> !self.has_file(path@),
    {
        let canonical = self.canonicalize(path);
        self.files.find(canonical.as_str())
    }

    /// Whether `path` leads to a file.
    pub fn is_file(&self, path: &str) -> (r: bool)
        requires
            self.wf(),
        ensures
            r == self.has_file(path@),
    {
        self.file_index(path).is_some()
    }

    /// The bytes of the file that `path` leads to.
    pub fn read(&self, path: &str) -> (r: Option<&Vec<u8>>)
        requires
            self.wf(),
        ensures
            r matches Some(bytes) ==> self.contents(path@) == Some(bytes@),
            r is None ==> self.contents(path@) is None,
    {
        match self.file_index(path) {
            Some(i) => Some(&self.files.values[i]),
            None => None,
        }
    }
}

} // verus!
