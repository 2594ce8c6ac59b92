use vstd::prelude::*;
use std::path::{Component, Path, PathBuf};

verus! {

/// The kind of a component of a path, as `std::path::Component` tells them apart.
#[derive(Debug, Clone, Copy, PartialEq, Eq, Structural)]
pub enum ComponentKind {
    Prefix,
    RootDir,
    CurDir,
    ParentDir,
    Normal,
}

/// What `Path::components` yields for a path: each component's kind and its text.
pub uninterp spec fn path_components(path: Seq<char>) -> Seq<(ComponentKind, Seq<char>)>;

/// What `PathBuf::push` makes of a base path and a pushed path.
pub uninterp spec fn pushed_path(base: Seq<char>, pushed: Seq<char>) -> Seq<char>;

/// What `Path::is_absolute` says of a path.
pub uninterp spec fn path_is_absolute(path: Seq<char>) -> bool;

/// `Path::components`, each component given by its kind and by the text of
/// `as_os_str` (the input is UTF-8, so the lossy conversion loses nothing).
#[verifier::external_body]
pub fn components(path: &str) -> (r: Vec<(ComponentKind, String)>)
    ensures
        r@.len() == path_components(path@).len(),
        forall|i: int|
            0 <= i < r@.len() ==> (#[trigger] r@[i]).0 == path_components(path@)[i].0 && r@[i].1@
                == path_components(path@)[i].1,
{
    let mut out = Vec::new();
    for c in Path::new(path).components() {
        let kind = match c {
            Component::Prefix(_) => ComponentKind::Prefix,
            Component::RootDir => ComponentKind::RootDir,
            Component::CurDir => ComponentKind::CurDir,
            Component::ParentDir => ComponentKind::ParentDir,
            Component::Normal(_) => ComponentKind::Normal,
        };
        out.push((kind, c.as_os_str().to_string_lossy().into_owned()));
    }
    out
}

/// `PathBuf::push` of `pushed` onto `base`, read back as a string.
#[verifier::external_body]
pub fn push_path(base: &str, pushed: &str) -> (r: String)
    ensures
        r@ == pushed_path(base@, pushed@),
{
    let mut buf = PathBuf::from(base);
    buf.push(pushed);
    buf.to_string_lossy().into_owned()
}

/// `Path::is_absolute`.
#[verifier::external_body]
pub fn is_absolute(path: &str) -> (r: bool)
    ensures
        r == path_is_absolute(path@),
{
    Path::new(path).is_absolute()
}

/// The components of a path without the `.` ones, as strings.
pub open spec fn strip_cur_dir(cs: Seq<(ComponentKind, Seq<char>)>) -> Seq<Seq<char>>
    decreases cs.len(),
{
    if cs.len() == 0 {
        Seq::empty()
    } else {
        let rest = strip_cur_dir(cs.drop_last());
        if cs.last().0 == ComponentKind::CurDir {
            rest
        } else {
            rest.push(cs.last().1)
        }
    }
}

pub open spec fn named_components(path: Seq<char>) -> Seq<Seq<char>> {
    strip_cur_dir(path_components(path))
}

/// The components of `path` other than `.`, as strings, in order.
pub fn non_cur_dir_components(path: &str) -> (r: Vec<String>)
    ensures
        r@.len() == named_components(path@).len(),
        forall|i: int| 0 <= i < r@.len() ==> (#[trigger] r@[i])@ == named_components(path@)[i],
{
    let cs = components(path);
    let ghost pcs = path_components(path@);
    let mut out: Vec<String> = Vec::new();
    let mut i: usize = 0;
    while i < cs.len()
        invariant
            i <= cs.len(),
            cs@.len() == pcs.len(),
            forall|j: int| 0 <= j < cs@.len() ==> (#[trigger] cs@[j]).0 == pcs[j].0 && cs@[j].1@ == pcs[j].1,
            out@.len() == strip_cur_dir(pcs.take(i as int)).len(),
            forall|j: int| 0 <= j < out@.len() ==> (#[trigger] out@[j])@ == strip_cur_dir(pcs.take(i as int))[j],
        decreases cs.len() - i,
    {
        assert(pcs.take(i + 1).drop_last() =~= pcs.take(i as int));
        if cs[i].0 != ComponentKind::CurDir {
            out.push(cs[i].1.clone());
        }
        i += 1;
    }
    assert(pcs.take(cs.len() as int) =~= pcs);
    out
}

} // verus!
