use vstd::prelude::*;
use crate::paths::{
    components, is_absolute, path_components, path_is_absolute, push_path, pushed_path,
};
use crate::text::{compare_names, NameOrder};

verus! {

/// `s` holds `..` somewhere.
pub open spec fn has_parent_ref(s: Seq<char>) -> bool {
    exists|i: int| 0 <= i < s.len() - 1 && s[i] == '.' && #[trigger] s[i + 1] == '.'
}

/// Only paths that could lie outside the repository need a check: absolute ones
/// and those that go up with `..`.
pub fn needs_repo_check(path: &str) -> (r: bool)
    ensures
        r == (path_is_absolute(path@) || has_parent_ref(path@)),
{
    if is_absolute(path) {
        return true;
    }
    let n = path.unicode_len();
    let m = if n > 0 { n - 1 } else { 0 };
    let mut i: usize = 0;
    while i < m
        invariant
            n == path@.len(),
            m == if n > 0 { n - 1 } else { 0 },
            i <= n,
            forall|j: int| 0 <= j < i && j < n - 1 ==> !(path@[j] == '.' && #[trigger] path@[j + 1] == '.'),
        decreases n - i,
    {
        if path.get_char(i) == '.' && path.get_char(i + 1) == '.' {
            return true;
        }
        i += 1;
    }
    false
}

/// A name that starts with a dot, other than `.` and `..`.
pub open spec fn is_hidden_name(name: Seq<char>) -> bool {
    name.len() > 0 && name[0] == '.' && name != seq!['.'] && name != seq!['.', '.']
}

pub fn is_hidden(name: &str) -> (r: bool)
    ensures
        r == is_hidden_name(name@),
{
    let n = name.unicode_len();
    if n == 0 || name.get_char(0) != '.' {
        return false;
    }
    if n == 1 {
        proof {
            assert(name@ =~= seq!['.']);
        }
        return false;
    }
    if n == 2 && name.get_char(1) == '.' {
        proof {
            assert(name@ =~= seq!['.', '.']);
        }
        return false;
    }
    proof {
        if n == 2 {
            assert(name@[1] != '.');
            assert(name@ != seq!['.', '.']);
        }
        assert(name@.len() != 1);
    }
    true
}

/// Whether a walk keeps an entry in its hidden-files-free listing: the root
/// always, anything else unless its name is hidden (a name that is not text is
/// kept).
pub fn should_include(path: Option<&str>, file_name: Option<&str>, root: &str) -> (r: bool)
    ensures
        r == (match path {
            Some(p) => p@ == root@,
            None => false,
        } || match file_name {
            Some(f) => !is_hidden_name(f@),
            None => true,
        }),
{
    if let Some(p) = path {
        if compare_names(p, root) == NameOrder::Same {
            return true;
        }
    }
    match file_name {
        Some(f) => !is_hidden(f),
        None => true,
    }
}

/// Whether a walked entry goes into the listing: not when only directories are
/// wanted and it is none, and never the root itself.
pub fn keep_entry(path: &str, root: &str, is_dir: bool, directories_only: bool) -> (r: bool)
    ensures
        r == (!(directories_only && !is_dir) && path@ != root@),
{
    if directories_only && !is_dir {
        return false;
    }
    compare_names(path, root) != NameOrder::Same
}

/// The arguments to `git` that list the paths of the repository below `root`:
/// the tracked directories, or the tracked and untracked files that are not
/// ignored.
pub fn git_listing_args(root: &str, directories_only: bool) -> (r: Vec<String>)
    ensures
        directories_only ==> r@.len() == 6 && r@[0]@ == "ls-tree"@ && r@[1]@ == "-r"@ && r@[2]@ == "-d"@
            && r@[3]@ == "--name-only"@ && r@[4]@ == "HEAD"@ && r@[5]@ == root@,
        !directories_only ==> r@.len() == 5 && r@[0]@ == "ls-files"@ && r@[1]@ == "-o"@ && r@[2]@ == "-c"@
            && r@[3]@ == "--exclude-standard"@ && r@[4]@ == root@,
{
    let mut args: Vec<String> = Vec::new();
    if directories_only {
        args.push(String::from_str("ls-tree"));
        args.push(String::from_str("-r"));
        args.push(String::from_str("-d"));
        args.push(String::from_str("--name-only"));
        args.push(String::from_str("HEAD"));
    } else {
        args.push(String::from_str("ls-files"));
        args.push(String::from_str("-o"));
        args.push(String::from_str("-c"));
        args.push(String::from_str("--exclude-standard"));
    }
    args.push(String::from_str(root));
    args
}

/// The pieces of `s` between the occurrences of `sep` (as `str::split` yields them:
/// one more piece than separators, empty ones included).
pub open spec fn split_on(s: Seq<char>, sep: char) -> Seq<Seq<char>>
    decreases s.len(),
{
    if s.len() == 0 {
        seq![Seq::empty()]
    } else {
        let rest = split_on(s.drop_last(), sep);
        if s.last() == sep {
            rest.push(Seq::empty())
        } else {
            rest.update(rest.len() - 1, rest.last().push(s.last()))
        }
    }
}

proof fn lemma_split_nonempty(s: Seq<char>, sep: char)
    ensures
        split_on(s, sep).len() >= 1,
    decreases s.len(),
{
    if s.len() > 0 {
        lemma_split_nonempty(s.drop_last(), sep);
    }
}

/// The lines of a text: its pieces between newlines.
pub fn split_lines(text: &str) -> (r: Vec<String>)
    ensures
        r@.len() == split_on(text@, '\n').len(),
        forall|i: int| 0 <= i < r@.len() ==> (#[trigger] r@[i])@ == split_on(text@, '\n')[i],
{
    let n = text.unicode_len();
    let mut lines: Vec<String> = Vec::new();
    let mut current = String::new();
    let mut i: usize = 0;
    proof {
        assert(text@.take(0) =~= Seq::<char>::empty());
    }
    while i < n
        invariant
            n == text@.len(),
            i <= n,
            lines@.len() + 1 == split_on(text@.take(i as int), '\n').len(),
            forall|j: int| 0 <= j < lines@.len() ==> (#[trigger] lines@[j])@ == split_on(text@.take(i as int), '\n')[j],
            current@ == split_on(text@.take(i as int), '\n').last(),
        decreases n - i,
    {
        let c = text.get_char(i);
        proof {
            assert(text@.take(i + 1).drop_last() =~= text@.take(i as int));
            assert(text@.take(i + 1).last() == c);
            lemma_split_nonempty(text@.take(i as int), '\n');
        }
        if c == '\n' {
            lines.push(current);
            current = String::new();
        } else {
            let piece = text.substring_char(i, i + 1);
            current.append(piece);
            proof {
                assert(piece@ =~= seq![c]);
            }
        }
        i += 1;
    }
    lines.push(current);
    proof {
        assert(text@.take(n as int) =~= text@);
        assert(lines@.len() == split_on(text@, '\n').len());
    }
    lines
}

/// The path made of the first components of `path`, at most `max_depth` of them,
/// pushed one after the other onto an empty path.
pub open spec fn depth_limited(path: Seq<char>, max_depth: nat) -> Seq<char> {
    let cs = path_components(path);
    let n = if max_depth < cs.len() { max_depth } else { cs.len() };
    pushed_all(Seq::empty(), cs.take(n as int))
}

pub open spec fn pushed_all(base: Seq<char>, cs: Seq<(crate::paths::ComponentKind, Seq<char>)>) -> Seq<char>
    decreases cs.len(),
{
    if cs.len() == 0 {
        base
    } else {
        pushed_path(pushed_all(base, cs.drop_last()), cs.last().1)
    }
}

/// `path` cut to its first `max_depth` components.
pub fn limit_depth(path: &str, max_depth: usize) -> (r: String)
    ensures
        r@ == depth_limited(path@, max_depth as nat),
{
    let cs = components(path);
    let n = if max_depth < cs.len() { max_depth } else { cs.len() };
    let ghost pcs = path_components(path@);
    let mut out = String::new();
    let mut i: usize = 0;
    while i < n
        invariant
            n <= cs@.len(),
            cs@.len() == pcs.len(),
            forall|j: int| 0 <= j < cs@.len() ==> (#[trigger] cs@[j]).1@ == pcs[j].1,
            i <= n,
            out@ == pushed_all(Seq::empty(), pcs.take(i as int)),
        decreases n - i,
    {
        proof {
            assert(pcs.take(i + 1).drop_last() =~= pcs.take(i as int));
        }
        out = push_path(out.as_str(), cs[i].1.as_str());
        i += 1;
    }
    out
}

/// The paths that `git` listed, each cut to `max_depth` components unless there is
/// no limit (`usize::MAX`).
pub fn git_candidates(output: &str, max_depth: usize) -> (r: Vec<String>)
    ensures
        r@.len() == split_on(output@, '\n').len(),
        forall|i: int| 0 <= i < r@.len() ==> (#[trigger] r@[i])@ == (if max_depth != usize::MAX {
            depth_limited(split_on(output@, '\n')[i], max_depth as nat)
        } else {
            split_on(output@, '\n')[i]
        }),
{
    let lines = split_lines(output);
    let mut out: Vec<String> = Vec::new();
    let mut i: usize = 0;
    while i < lines.len()
        invariant
            lines@.len() == split_on(output@, '\n').len(),
            forall|j: int| 0 <= j < lines@.len() ==> (#[trigger] lines@[j])@ == split_on(output@, '\n')[j],
            i <= lines@.len(),
            out@.len() == i,
            forall|j: int| 0 <= j < i ==> (#[trigger] out@[j])@ == (if max_depth != usize::MAX {
                depth_limited(split_on(output@, '\n')[j], max_depth as nat)
            } else {
                split_on(output@, '\n')[j]
            }),
        decreases lines.len() - i,
    {
        let p = &lines[i];
        if max_depth != usize::MAX {
            out.push(limit_depth(p.as_str(), max_depth));
        } else {
            out.push(p.clone());
        }
        i += 1;
    }
    out
}

} // verus!
