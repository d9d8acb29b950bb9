use vstd::prelude::*;

use crate::text::option_text;

verus! {

/// The directory part of a path, as `std::path` takes it on the platform
/// that the library is built for.
pub uninterp spec fn parent_of(path: Seq<char>) -> Option<Seq<char>>;

/// `tail` joined onto `base` by `std::path`.
pub uninterp spec fn joined(base: Seq<char>, tail: Seq<char>) -> Seq<char>;

/// Whether `std::path` takes `path` as absolute.
pub uninterp spec fn absolute(path: Seq<char>) -> bool;

/// The file name of `path` without its extension.
pub uninterp spec fn stem_of(path: Seq<char>) -> Option<Seq<char>>;

/// The extension of the file name of `path`.
pub uninterp spec fn extension_of(path: Seq<char>) -> Option<Seq<char>>;

/// The relative path that leads from `base` to `target`.
pub uninterp spec fn relative_to(target: Seq<char>, base: Seq<char>) -> Option<Seq<char>>;

/// Whether the path `a` is the path `b` or stands before it in the order
/// of `std::path::Path`, which compares the paths component by component.
pub uninterp spec fn path_not_after(a: Seq<char>, b: Seq<char>) -> bool;

/// Compares two paths by `<=` of `std::path::Path`. The result depends on
/// the two texts alone.
#[verifier::external_body]
pub(crate) fn path_le(a: &str, b: &str) -> (r: bool)
    ensures
        r == path_not_after(a@, b@),
{
    std::path::Path::new(a) <= std::path::Path::new(b)
}

/// Calls `Path::parent`. The result depends on the path's text alone.
#[verifier::external_body]
pub(crate) fn path_parent(path: &str) -> (r: Option<String>)
    ensures
        option_text(r) == parent_of(path@),
{
    match std::path::Path::new(path).parent() {
        Some(p) => Some(p.to_string_lossy().into_owned()),
        None => None,
    }
}

/// Calls `Path::join`. The result depends on the two texts alone.
#[verifier::external_body]
pub(crate) fn path_join(base: &str, tail: &str) -> (r: String)
    ensures
        r@ == joined(base@, tail@),
{
    std::path::Path::new(base).join(tail).to_string_lossy().into_owned()
}

/// Calls `Path::is_absolute`. The result depends on the path's text alone.
#[verifier::external_body]
pub(crate) fn path_is_absolute(path: &str) -> (r: bool)
    ensures
        r == absolute(path@),
{
    std::path::Path::new(path).is_absolute()
}

/// Calls `Path::file_stem`. The result depends on the path's text alone.
#[verifier::external_body]
pub(crate) fn path_file_stem(path: &str) -> (r: Option<String>)
    ensures
        option_text(r) == stem_of(path@),
{
    match std::path::Path::new(path).file_stem() {
        Some(s) => Some(s.to_string_lossy().into_owned()),
        None => None,
    }
}

/// Calls `Path::extension`. The result depends on the path's text alone.
#[verifier::external_body]
pub(crate) fn path_extension(path: &str) -> (r: Option<String>)
    ensures
        option_text(r) == extension_of(path@),
{
    match std::path::Path::new(path).extension() {
        Some(s) => Some(s.to_string_lossy().into_owned()),
        None => None,
    }
}

/// Calls `pathdiff::diff_paths`, which walks the components of both paths
/// and builds the relative path from `base` to `target`; it gives `None`
/// where `base` is absolute and `target` is not, or where `base` holds a
/// `..` that it cannot step over. The result depends on the two texts alone.
#[verifier::external_body]
pub(crate) fn diff_paths(target: &str, base: &str) -> (r: Option<String>)
    ensures
        option_text(r) == relative_to(target@, base@),
{
    match pathdiff::diff_paths(std::path::Path::new(target), std::path::Path::new(base)) {
        Some(p) => Some(p.to_string_lossy().into_owned()),
        None => None,
    }
}

/// One component of a path: its text, and whether it is the name of a
/// file or directory rather than a root, a prefix, `.` or `..`.
pub struct PathPart {
    pub text: String,
    pub normal: bool,
}

/// What a `PathPart` holds.
pub struct PartModel {
    pub text: Seq<char>,
    pub normal: bool,
}

impl DeepView for PathPart {
    type V = PartModel;

    open spec fn deep_view(&self) -> PartModel {
        PartModel { text: self.text@, normal: self.normal }
    }
}

/// The components of a path, as `std::path` takes them.
pub uninterp spec fn parts_of(path: Seq<char>) -> Seq<PartModel>;

/// Calls `Path::components`. The result depends on the path's text alone.
#[verifier::external_body]
pub(crate) fn path_components(path: &str) -> (r: Vec<PathPart>)
    ensures
        r.deep_view() == parts_of(path@),
{
    let mut parts = Vec::new();
    for component in std::path::Path::new(path).components() {
        let text = component.as_os_str().to_string_lossy().into_owned();
        let normal = match component {
            std::path::Component::Normal(_) => true,
            _ => false,
        };
        parts.push(PathPart { text, normal });
    }
    parts
}

} // verus!
