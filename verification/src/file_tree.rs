use vstd::prelude::*;
use indexmap::IndexMap;
use slab::Slab;
use crate::collections::{
    child_entries, child_map_entries, child_map_get, child_map_len, child_map_insert, child_map_new, has_key, insert_entry,
    key_position, keys_distinct, lookup, slab_files, slab_get, slab_get_mut, slab_insert, slab_new,
    slab_vacant_key,
};
use crate::paths::{named_components, non_cur_dir_components, push_path, pushed_path};

verus! {

#[derive(Debug, Clone, Copy, PartialEq, Eq, Structural)]
pub enum FileType {
    File,
    Directory,
    Link,
}

#[derive(Debug, Clone)]
pub enum TypeSpecficData {
    File,
    Directory(IndexMap<String, usize>),
    Link(String),
}

#[derive(Debug, Clone)]
pub struct File {
    pub id: usize,
    pub parent: Option<usize>,
    pub display_name: String,
    pub path: String,
    pub file_type: FileType,
    pub data: TypeSpecficData,
    /// Total count of all descendants (files and directories) below this node.
    pub total_descendants: usize,
    /// Number of direct child directories.
    pub child_dir_count: usize,
    /// Number of direct child files (non-directories).
    pub child_file_count: usize,
}

/// A node of the tree as a mathematical value: what it shows and what it holds.
#[verifier::ext_equal]
pub struct NodeView {
    pub name: Seq<char>,
    pub path: Seq<char>,
    pub file_type: FileType,
    pub link: Option<Seq<char>>,
    pub total_descendants: nat,
    pub child_dir_count: nat,
    pub child_file_count: nat,
    pub children: Seq<NodeView>,
}

impl File {
    /// The child entries of a directory; nothing for any other node.
    pub open spec fn entries(self) -> Seq<(Seq<char>, usize)> {
        match self.data {
            TypeSpecficData::Directory(m) => child_entries(m),
            _ => Seq::empty(),
        }
    }

    pub open spec fn link_view(self) -> Option<Seq<char>> {
        match self.data {
            TypeSpecficData::Link(l) => Some(l@),
            _ => None,
        }
    }

    /// The kind recorded for a node agrees with the data it carries.
    pub open spec fn kind_matches(self) -> bool {
        match self.data {
            TypeSpecficData::File => self.file_type == FileType::File,
            TypeSpecficData::Directory(_) => self.file_type == FileType::Directory,
            TypeSpecficData::Link(_) => self.file_type == FileType::Link,
        }
    }
}

pub struct FileTree {
    pub storage: Slab<Box<File>>,
    pub root_id: usize,
    /// Creation order of the nodes: every node was created after its parent.
    pub rank: Ghost<Map<usize, nat>>,
    /// A bound above every rank.
    pub rank_bound: Ghost<nat>,
}

impl FileTree {
    pub open spec fn files(self) -> Map<usize, Box<File>> {
        slab_files(self.storage)
    }

    /// No stored node has its metadata filled in yet.
    pub open spec fn metadata_unset(self) -> bool {
        forall|m: usize| #[trigger] self.files().dom().contains(m) ==> {
            &&& self.files()[m].total_descendants == 0
            &&& self.files()[m].child_dir_count == 0
            &&& self.files()[m].child_file_count == 0
        }
    }

    pub open spec fn node_wf(self, id: usize) -> bool {
        let fs = self.files();
        let f = fs[id];
        &&& f.id == id
        &&& self.rank@.dom().contains(id)
        &&& self.rank@[id] < self.rank_bound@
        &&& f.kind_matches()
        &&& (f.parent matches Some(p) ==> fs.dom().contains(p) && self.rank@.dom().contains(p) && self.rank@[p] < self.rank@[id])
        &&& keys_distinct(f.entries())
        &&& forall|i: int|
            0 <= i < f.entries().len() ==> {
                let c = #[trigger] f.entries()[i].1;
                &&& fs.dom().contains(c)
                &&& fs[c].parent == Some(id)
                &&& fs[c].display_name@ == f.entries()[i].0
            }
    }

    pub open spec fn wf(self) -> bool {
        &&& self.files().dom().contains(self.root_id)
        &&& self.files()[self.root_id].parent is None
        &&& forall|id: usize| self.files().dom().contains(id) ==> #[trigger] self.node_wf(id)
    }

    pub open spec fn child_ok(self, id: usize, c: usize) -> bool {
        &&& self.rank@.dom().contains(id)
        &&& self.rank@.dom().contains(c)
        &&& self.rank@[id] < self.rank@[c] < self.rank_bound@
    }

    pub open spec fn node_view(self, id: usize) -> NodeView
        decreases self.rank_bound@ - self.rank@[id],
    {
        let f = self.files()[id];
        let es = f.entries();
        NodeView {
            name: f.display_name@,
            path: f.path@,
            file_type: f.file_type,
            link: f.link_view(),
            total_descendants: f.total_descendants as nat,
            child_dir_count: f.child_dir_count as nat,
            child_file_count: f.child_file_count as nat,
            children: Seq::new(
                es.len(),
                |i: int|
                    if self.child_ok(id, es[i].1) {
                        self.node_view(es[i].1)
                    } else {
                        arbitrary()
                    },
            ),
        }
    }

    pub open spec fn view(self) -> NodeView {
        self.node_view(self.root_id)
    }
}


// ---------------------------------------------------------------------------
// The tree as a value, and how entries are added to it.
// ---------------------------------------------------------------------------

pub open spec fn leaf_view(name: Seq<char>, path: Seq<char>, file_type: FileType, link: Option<Seq<char>>) -> NodeView {
    NodeView {
        name,
        path,
        file_type,
        link,
        total_descendants: 0,
        child_dir_count: 0,
        child_file_count: 0,
        children: Seq::empty(),
    }
}

pub open spec fn dir_view(name: Seq<char>, path: Seq<char>) -> NodeView {
    leaf_view(name, path, FileType::Directory, None)
}

pub open spec fn has_child(cs: Seq<NodeView>, name: Seq<char>) -> bool {
    exists|i: int| 0 <= i < cs.len() && #[trigger] cs[i].name == name
}

pub open spec fn child_index(cs: Seq<NodeView>, name: Seq<char>) -> int {
    choose|i: int| 0 <= i < cs.len() && #[trigger] cs[i].name == name
}

/// A directory takes `leaf` under its name: in place of a child of that name,
/// else as its last child.
pub open spec fn set_child(node: NodeView, leaf: NodeView) -> NodeView {
    if has_child(node.children, leaf.name) {
        NodeView { children: node.children.update(child_index(node.children, leaf.name), leaf), ..node }
    } else {
        NodeView { children: node.children.push(leaf), ..node }
    }
}

/// Adds `leaf` below `node` at the end of the directory chain `comps`, creating the
/// missing directories of the chain (the path of each is `acc` with the names so far
/// pushed on it). Below anything but a directory nothing is added.
pub open spec fn tree_insert(node: NodeView, comps: Seq<Seq<char>>, acc: Seq<char>, leaf: NodeView) -> NodeView
    decreases comps.len(),
{
    if node.file_type != FileType::Directory {
        node
    } else if comps.len() == 0 {
        set_child(node, leaf)
    } else {
        let name = comps[0];
        let acc2 = pushed_path(acc, name);
        if has_child(node.children, name) {
            let i = child_index(node.children, name);
            NodeView {
                children: node.children.update(i, tree_insert(node.children[i], comps.drop_first(), acc2, leaf)),
                ..node
            }
        } else {
            NodeView {
                children: node.children.push(tree_insert(dir_view(name, acc2), comps.drop_first(), acc2, leaf)),
                ..node
            }
        }
    }
}

/// The number of nodes stored when a leaf is added below `node` at the end of the
/// chain `comps`: one for each directory of the chain that is not found (below
/// anything but a directory none is found) and one for the leaf.
pub open spec fn stored_by_insert(node: NodeView, comps: Seq<Seq<char>>) -> nat
    decreases comps.len(),
{
    if comps.len() == 0 {
        1
    } else if node.file_type == FileType::Directory && has_child(node.children, comps[0]) {
        stored_by_insert(node.children[child_index(node.children, comps[0])], comps.drop_first())
    } else {
        comps.len() + 1
    }
}

/// What a stored node records of its entry: name, path, kind and link target.
pub open spec fn entry_of(f: File) -> (Seq<char>, Seq<char>, FileType, Option<Seq<char>>) {
    (f.display_name@, f.path@, f.file_type, f.link_view())
}

pub open spec fn entry_of_view(v: NodeView) -> (Seq<char>, Seq<char>, FileType, Option<Seq<char>>) {
    (v.name, v.path, v.file_type, v.link)
}

/// The entries of the directories of `comps` (each path `acc` with the names so far
/// pushed on it) and then of the leaf.
pub open spec fn created_chain(comps: Seq<Seq<char>>, acc: Seq<char>, leaf: NodeView) -> Seq<
    (Seq<char>, Seq<char>, FileType, Option<Seq<char>>),
>
    decreases comps.len(),
{
    if comps.len() == 0 {
        seq![entry_of_view(leaf)]
    } else {
        let acc2 = pushed_path(acc, comps[0]);
        seq![(comps[0], acc2, FileType::Directory, None::<Seq<char>>)] + created_chain(comps.drop_first(), acc2, leaf)
    }
}

/// The entries of the nodes stored, in order, when a leaf is added below `node` at
/// the end of `comps`: the directories of the chain from the first one not found
/// (below anything but a directory none is found), then the leaf.
pub open spec fn created_by_insert(node: NodeView, comps: Seq<Seq<char>>, acc: Seq<char>, leaf: NodeView) -> Seq<
    (Seq<char>, Seq<char>, FileType, Option<Seq<char>>),
>
    decreases comps.len(),
{
    if comps.len() == 0 {
        seq![entry_of_view(leaf)]
    } else if node.file_type == FileType::Directory && has_child(node.children, comps[0]) {
        created_by_insert(
            node.children[child_index(node.children, comps[0])],
            comps.drop_first(),
            pushed_path(acc, comps[0]),
            leaf,
        )
    } else {
        created_chain(comps, acc, leaf)
    }
}

pub open spec fn string_views(v: Seq<String>) -> Seq<Seq<char>> {
    v.map_values(|s: String| s@)
}

pub open spec fn option_view(o: Option<String>) -> Option<Seq<char>> {
    match o {
        Some(s) => Some(s@),
        None => None,
    }
}

/// The link a new node of this kind records.
pub open spec fn link_for(file_type: FileType, target: Option<Seq<char>>) -> Option<Seq<char>> {
    if file_type == FileType::Link { target } else { None }
}

impl File {
    pub open spec fn same_but_entries(self, other: File) -> bool {
        &&& self.id == other.id
        &&& self.parent == other.parent
        &&& self.display_name == other.display_name
        &&& self.path == other.path
        &&& self.file_type == other.file_type
        &&& self.link_view() == other.link_view()
        &&& self.kind_matches() == other.kind_matches()
        &&& self.total_descendants == other.total_descendants
        &&& self.child_dir_count == other.child_dir_count
        &&& self.child_file_count == other.child_file_count
    }

    fn child_key(&self, name: &str) -> (r: Option<usize>)
        ensures
            r == lookup(self.entries(), name@),
    {
        if let TypeSpecficData::Directory(children) = &self.data {
            child_map_get(children, name)
        } else {
            None
        }
    }

    fn add_child(&mut self, name: &str, id: usize)
        ensures
            final(self).same_but_entries(*old(self)),
            final(self).entries() == (if old(self).data is Directory {
                insert_entry(old(self).entries(), name@, id)
            } else {
                old(self).entries()
            }),
            old(self).data is Directory ==> keys_distinct(final(self).entries()),
            !(old(self).data is Directory) ==> *final(self) == *old(self),
    {
        if let TypeSpecficData::Directory(children) = &mut self.data {
            child_map_insert(children, name.to_owned(), id);
        }
    }
}

fn make_data(file_type: FileType, target: &Option<String>) -> (r: TypeSpecficData)
    requires
        file_type == FileType::Link ==> target is Some,
    ensures
        File::data_fits(r, file_type, option_view(*target)),
{
    match file_type {
        FileType::File => TypeSpecficData::File,
        FileType::Directory => TypeSpecficData::Directory(child_map_new()),
        FileType::Link => {
            match target {
                Some(t) => TypeSpecficData::Link(t.clone()),
                None => TypeSpecficData::File,
            }
        }
    }
}

impl File {
    /// Data of a new node of kind `file_type` pointing at `target` if a link.
    pub open spec fn data_fits(data: TypeSpecficData, file_type: FileType, target: Option<Seq<char>>) -> bool {
        match data {
            TypeSpecficData::File => file_type == FileType::File,
            TypeSpecficData::Directory(m) => file_type == FileType::Directory && child_entries(m).len() == 0,
            TypeSpecficData::Link(l) => file_type == FileType::Link && target == Some(l@),
        }
    }
}

impl FileTree {
    /// `a` is `m` or one of the ancestors of `m`, following parent links.
    pub open spec fn anc_or_self(self, a: usize, m: usize) -> bool
        decreases self.rank@[m],
    {
        m == a || (self.files().dom().contains(m) && match self.files()[m].parent {
            Some(p) => self.rank@.dom().contains(p) && self.rank@[p] < self.rank@[m] && self.anc_or_self(a, p),
            None => false,
        })
    }

    /// `self` grew from `old`: nothing removed, parents and creation order kept.
    pub open spec fn extends(self, old: FileTree) -> bool {
        &&& self.root_id == old.root_id
        &&& old.rank_bound@ <= self.rank_bound@
        &&& forall|m: usize| #[trigger] old.files().dom().contains(m) ==> {
            &&& self.files().dom().contains(m)
            &&& self.files()[m].parent == old.files()[m].parent
            &&& old.rank@.dom().contains(m) ==> self.rank@.dom().contains(m) && self.rank@[m] == old.rank@[m]
        }
    }

    pub(crate) proof fn lemma_anc_rank(self, a: usize, m: usize)
        requires
            self.wf(),
            self.files().dom().contains(m),
            self.anc_or_self(a, m),
        ensures
            a == m || (self.files().dom().contains(a) && self.rank@.dom().contains(a) && self.rank@[a] < self.rank@[m]),
        decreases self.rank@[m],
    {
        if m != a {
            assert(self.node_wf(m));
            let p = self.files()[m].parent.unwrap();
            self.lemma_anc_rank(a, p);
        }
    }

    pub(crate) proof fn lemma_anc_parent(self, d: usize, x: usize, m: usize)
        requires
            self.wf(),
            self.files().dom().contains(d),
            self.files().dom().contains(m),
            self.files()[d].parent == Some(x),
            self.anc_or_self(d, m),
        ensures
            self.anc_or_self(x, m),
        decreases self.rank@[m],
    {
        assert(self.node_wf(d));
        if m == d {
            assert(self.anc_or_self(x, x));
        } else {
            assert(self.node_wf(m));
            let p = self.files()[m].parent.unwrap();
            self.lemma_anc_parent(d, x, p);
        }
    }

    pub(crate) proof fn lemma_anc_unique(self, c: usize, d: usize, m: usize)
        requires
            self.wf(),
            self.files().dom().contains(c),
            self.files().dom().contains(d),
            self.files().dom().contains(m),
            self.files()[c].parent is Some,
            self.files()[c].parent == self.files()[d].parent,
            self.anc_or_self(c, m),
            self.anc_or_self(d, m),
        ensures
            c == d,
        decreases self.rank@[m],
    {
        assert(self.node_wf(c));
        assert(self.node_wf(d));
        let p = self.files()[c].parent.unwrap();
        if m == c {
            if c != d {
                self.lemma_anc_rank(d, p);
            }
        } else if m == d {
            self.lemma_anc_rank(c, p);
        } else {
            assert(self.node_wf(m));
            let q = self.files()[m].parent.unwrap();
            self.lemma_anc_unique(c, d, q);
        }
    }

    /// A node's view depends only on the nodes below it.
    pub(crate) proof fn lemma_view_frame(self, other: FileTree, x: usize)
        requires
            self.wf(),
            other.wf(),
            other.extends(self),
            self.files().dom().contains(x),
            forall|m: usize| #[trigger] self.files().dom().contains(m) && self.anc_or_self(x, m)
                ==> other.files()[m] == self.files()[m],
        ensures
            other.node_view(x) == self.node_view(x),
        decreases self.rank_bound@ - self.rank@[x],
    {
        assert(self.node_wf(x));
        assert(self.anc_or_self(x, x));
        let f = self.files()[x];
        assert(other.files()[x] == f);
        let es = f.entries();
        assert forall|i: int| 0 <= i < es.len() implies other.node_view(x).children[i] == self.node_view(x).children[i] by {
            let c = es[i].1;
            assert(self.node_wf(c));
            assert(other.files().dom().contains(c));
            assert(other.node_wf(c));
            assert forall|m: usize| #[trigger] self.files().dom().contains(m) && self.anc_or_self(c, m)
                implies other.files()[m] == self.files()[m] by {
                self.lemma_anc_parent(c, x, m);
            }
            self.lemma_view_frame(other, c);
        }
        assert(other.node_view(x).children =~= self.node_view(x).children);
        assert(other.node_view(x) =~= self.node_view(x));
    }
}


impl FileTree {
    pub(crate) proof fn lemma_anc_transfer(self, other: FileTree, a: usize, m: usize)
        requires
            self.wf(),
            other.extends(self),
            self.files().dom().contains(m),
        ensures
            other.anc_or_self(a, m) == self.anc_or_self(a, m),
        decreases self.rank@[m],
    {
        assert(self.node_wf(m));
        if m != a {
            match self.files()[m].parent {
                Some(p) => {
                    self.lemma_anc_transfer(other, a, p);
                },
                None => {},
            }
        }
    }

    /// The children of a node's view are the views of its entries, named by their keys.
    pub(crate) proof fn lemma_view_children(self, x: usize)
        requires
            self.wf(),
            self.files().dom().contains(x),
        ensures
            self.node_view(x).children.len() == self.files()[x].entries().len(),
            forall|i: int| 0 <= i < self.files()[x].entries().len() ==> {
                &&& #[trigger] self.node_view(x).children[i] == self.node_view(self.files()[x].entries()[i].1)
                &&& self.node_view(x).children[i].name == self.files()[x].entries()[i].0
                &&& self.files().dom().contains(self.files()[x].entries()[i].1)
            },
    {
        assert(self.node_wf(x));
        let es = self.files()[x].entries();
        assert forall|i: int| 0 <= i < es.len() implies {
            &&& #[trigger] self.node_view(x).children[i] == self.node_view(es[i].1)
            &&& self.node_view(x).children[i].name == es[i].0
            &&& self.files().dom().contains(es[i].1)
        } by {
            let c = es[i].1;
            assert(self.node_wf(c));
        }
    }

    /// The ids reachable from `x` through the entries of directories, `x` included.
    pub open spec fn reach(self, x: usize) -> Set<usize>
        decreases self.rank_bound@ - self.rank@[x], 1int, 0nat,
    {
        set![x] + self.reach_prefix(x, self.files()[x].entries().len())
    }

    /// The ids reachable through the first `k` entries of `x`.
    pub open spec fn reach_prefix(self, x: usize, k: nat) -> Set<usize>
        decreases self.rank_bound@ - self.rank@[x], 0int, k,
    {
        let es = self.files()[x].entries();
        if k == 0 || k > es.len() {
            Set::empty()
        } else {
            self.reach_prefix(x, (k - 1) as nat) + if self.child_ok(x, es[k - 1].1) {
                self.reach(es[k - 1].1)
            } else {
                Set::empty()
            }
        }
    }

    /// The nodes of a view are distinct ids below `x`, one per node.
    proof fn lemma_reach(self, x: usize)
        requires
            self.wf(),
            self.files().dom().contains(x),
        ensures
            self.reach(x).finite(),
            self.reach(x).len() == size(self.node_view(x)),
            forall|m: usize| #[trigger] self.reach(x).contains(m) ==> self.files().dom().contains(m) && self.anc_or_self(x, m),
        decreases self.rank_bound@ - self.rank@[x], 1int, 0nat,
    {
        assert(self.node_wf(x));
        let es = self.files()[x].entries();
        self.lemma_reach_prefix(x, es.len());
        self.lemma_view_children(x);
        let cs = self.node_view(x).children;
        assert(cs.take(es.len() as int) =~= cs);
        assert(self.reach(x) =~= self.reach_prefix(x, es.len()).insert(x));
        assert(self.anc_or_self(x, x));
    }

    proof fn lemma_reach_prefix(self, x: usize, k: nat)
        requires
            self.wf(),
            self.files().dom().contains(x),
            k <= self.files()[x].entries().len(),
        ensures
            self.reach_prefix(x, k).finite(),
            self.reach_prefix(x, k).len() == sizes(self.node_view(x).children.take(k as int)),
            forall|m: usize| #[trigger] self.reach_prefix(x, k).contains(m) ==> {
                &&& self.files().dom().contains(m)
                &&& m != x
                &&& self.anc_or_self(x, m)
                &&& exists|i: int| 0 <= i < k && #[trigger] self.anc_or_self(self.files()[x].entries()[i].1, m)
            },
        decreases self.rank_bound@ - self.rank@[x], 0int, k,
    {
        let es = self.files()[x].entries();
        let cs = self.node_view(x).children;
        self.lemma_view_children(x);
        assert(self.node_wf(x));
        if k == 0 {
            assert(cs.take(0) =~= Seq::<NodeView>::empty());
            assert(self.reach_prefix(x, k) =~= Set::<usize>::empty());
        } else {
            let prev = self.reach_prefix(x, (k - 1) as nat);
            self.lemma_reach_prefix(x, (k - 1) as nat);
            let c = es[k - 1].1;
            assert(self.node_wf(c));
            assert(self.child_ok(x, c));
            self.lemma_reach(c);
            let below = self.reach(c);
            assert(self.reach_prefix(x, k) == prev + below);
            assert forall|m: usize| #[trigger] below.contains(m) implies {
                &&& self.files().dom().contains(m)
                &&& m != x
                &&& self.anc_or_self(x, m)
                &&& self.anc_or_self(es[k - 1].1, m)
            } by {
                self.lemma_anc_rank(c, m);
                self.lemma_anc_parent(c, x, m);
            }
            assert(prev.disjoint(below)) by {
                assert forall|m: usize| prev.contains(m) implies !below.contains(m) by {
                    if below.contains(m) {
                        let i = choose|i: int| 0 <= i < k - 1 && #[trigger] self.anc_or_self(es[i].1, m);
                        let d = es[i].1;
                        assert(self.node_wf(d));
                        self.lemma_anc_unique(c, d, m);
                        assert(es[i].0 != es[k - 1].0);
                    }
                }
            }
            vstd::set_lib::lemma_set_disjoint_lens(prev, below);
            assert(cs.take(k as int).drop_last() =~= cs.take(k - 1));
            assert(cs.take(k as int).last() == cs[k - 1]);
        }
    }

    /// The ids reachable from a node do not change when only metadata does.
    proof fn lemma_reach_frame(self, other: FileTree, x: usize)
        requires
            self.wf(),
            other.metadata_only(self),
            self.files().dom().contains(x),
        ensures
            other.reach(x) == self.reach(x),
        decreases self.rank_bound@ - self.rank@[x], 1int, 0nat,
    {
        assert(self.node_wf(x));
        self.lemma_reach_prefix_frame(other, x, self.files()[x].entries().len());
    }

    proof fn lemma_reach_prefix_frame(self, other: FileTree, x: usize, k: nat)
        requires
            self.wf(),
            other.metadata_only(self),
            self.files().dom().contains(x),
            k <= self.files()[x].entries().len(),
        ensures
            other.reach_prefix(x, k) == self.reach_prefix(x, k),
        decreases self.rank_bound@ - self.rank@[x], 0int, k,
    {
        assert(self.node_wf(x));
        assert(other.files()[x].entries() == self.files()[x].entries());
        if k > 0 {
            self.lemma_reach_prefix_frame(other, x, (k - 1) as nat);
            let c = self.files()[x].entries()[k - 1].1;
            assert(self.node_wf(c));
            self.lemma_reach_frame(other, c);
        }
    }

    /// After child `k` of `x` has had its own nodes changed, only the nodes reachable
    /// through the first `k + 1` children differ from the start.
    proof fn lemma_reach_step(t0: FileTree, tk: FileTree, t1: FileTree, x: usize, k: nat)
        requires
            t0.wf(),
            tk.metadata_only(t0),
            t0.files().dom().contains(x),
            k < t0.files()[x].entries().len(),
            forall|m: usize| #[trigger] t0.files().dom().contains(m) && !t0.reach_prefix(x, k).contains(m)
                ==> tk.files()[m] == t0.files()[m],
            forall|m: usize| #[trigger] tk.files().dom().contains(m) && !tk.reach(t0.files()[x].entries()[k as int].1).contains(m)
                ==> t1.files()[m] == tk.files()[m],
        ensures
            forall|m: usize| #[trigger] t0.files().dom().contains(m) && !t0.reach_prefix(x, k + 1).contains(m)
                ==> t1.files()[m] == t0.files()[m],
    {
        let c = t0.files()[x].entries()[k as int].1;
        assert(t0.node_wf(x));
        assert(t0.node_wf(c));
        t0.lemma_reach_frame(tk, c);
        assert(t0.child_ok(x, c));
        assert(t0.reach_prefix(x, k + 1) == t0.reach_prefix(x, k) + t0.reach(c));
    }

    /// The nodes reachable through the first `k` entries include those reachable from
    /// each of them.
    proof fn lemma_prefix_covers(self, x: usize, k: nat, i: int)
        requires
            self.wf(),
            self.files().dom().contains(x),
            k <= self.files()[x].entries().len(),
            0 <= i < k,
        ensures
            self.reach(self.files()[x].entries()[i].1).subset_of(self.reach_prefix(x, k)),
        decreases k,
    {
        assert(self.node_wf(x));
        let c = self.files()[x].entries()[k - 1].1;
        assert(self.node_wf(c));
        assert(self.child_ok(x, c));
        if i < k - 1 {
            self.lemma_prefix_covers(x, (k - 1) as nat, i);
        }
    }

    /// A node reachable through the first `k` entries is reachable from one of them.
    proof fn lemma_prefix_member(self, x: usize, k: nat, m: usize) -> (i: int)
        requires
            self.wf(),
            self.files().dom().contains(x),
            k <= self.files()[x].entries().len(),
            self.reach_prefix(x, k).contains(m),
        ensures
            0 <= i < k,
            self.reach(self.files()[x].entries()[i].1).contains(m),
        decreases k,
    {
        assert(self.node_wf(x));
        let c = self.files()[x].entries()[k - 1].1;
        assert(self.node_wf(c));
        assert(self.child_ok(x, c));
        if self.reach(c).contains(m) {
            k - 1
        } else {
            self.lemma_prefix_member(x, (k - 1) as nat, m)
        }
    }

    /// What is reachable from a reachable node is reachable.
    proof fn lemma_reach_trans(self, c: usize, m: usize)
        requires
            self.wf(),
            self.files().dom().contains(c),
            self.reach(c).contains(m),
        ensures
            self.files().dom().contains(m),
            self.reach(m).subset_of(self.reach(c)),
            m == c || (self.rank@.dom().contains(m) && self.rank@[c] < self.rank@[m]),
        decreases self.rank_bound@ - self.rank@[c],
    {
        self.lemma_reach(c);
        assert(self.node_wf(c));
        let es = self.files()[c].entries();
        if m != c {
            assert(self.reach(c) == set![c] + self.reach_prefix(c, es.len()));
            let i = self.lemma_prefix_member(c, es.len(), m);
            let d = es[i].1;
            assert(self.node_wf(d));
            self.lemma_reach_trans(d, m);
            self.lemma_prefix_covers(c, es.len(), i);
        }
    }

    /// Two entries of a directory reach no node in common.
    proof fn lemma_reach_disjoint(self, x: usize, i: int, j: int)
        requires
            self.wf(),
            self.files().dom().contains(x),
            0 <= i < self.files()[x].entries().len(),
            0 <= j < self.files()[x].entries().len(),
            i != j,
        ensures
            self.reach(self.files()[x].entries()[i].1).disjoint(self.reach(self.files()[x].entries()[j].1)),
    {
        assert(self.node_wf(x));
        let es = self.files()[x].entries();
        let (c, d) = (es[i].1, es[j].1);
        assert(self.node_wf(c));
        assert(self.node_wf(d));
        self.lemma_reach(c);
        self.lemma_reach(d);
        assert forall|m: usize| self.reach(c).contains(m) implies !self.reach(d).contains(m) by {
            if self.reach(d).contains(m) {
                self.lemma_anc_unique(c, d, m);
                assert(es[i].0 != es[j].0);
            }
        }
    }

    /// A node's view depends only on the nodes reachable from it.
    proof fn lemma_view_reach_frame(t0: FileTree, t1: FileTree, x: usize)
        requires
            t0.wf(),
            t1.rank == t0.rank,
            t1.rank_bound == t0.rank_bound,
            t0.files().dom().contains(x),
            forall|m: usize| #[trigger] t0.reach(x).contains(m) ==> t1.files()[m] == t0.files()[m],
        ensures
            t1.node_view(x) == t0.node_view(x),
        decreases t0.rank_bound@ - t0.rank@[x],
    {
        assert(t0.node_wf(x));
        t0.lemma_reach(x);
        assert(t0.reach(x).contains(x)) by {
            assert(t0.reach(x) == set![x] + t0.reach_prefix(x, t0.files()[x].entries().len()));
        }
        let es = t0.files()[x].entries();
        assert(t1.files()[x] == t0.files()[x]);
        assert forall|i: int| 0 <= i < es.len() implies t1.node_view(x).children[i] == t0.node_view(x).children[i] by {
            let c = es[i].1;
            assert(t0.node_wf(c));
            assert(t0.child_ok(x, c));
            t0.lemma_prefix_covers(x, es.len(), i);
            assert(t0.reach(x) == set![x] + t0.reach_prefix(x, es.len()));
            assert forall|m: usize| #[trigger] t0.reach(c).contains(m) implies t1.files()[m] == t0.files()[m] by {
                assert(t0.reach_prefix(x, es.len()).contains(m));
                assert(t0.reach(x).contains(m));
            }
            FileTree::lemma_view_reach_frame(t0, t1, c);
        }
        assert(t1.node_view(x).children =~= t0.node_view(x).children);
    }

    /// After child `k` of `x` has been given its metadata, every node reachable
    /// through the first `k + 1` children has the view of the start with metadata.
    proof fn lemma_views_step(t0: FileTree, tk: FileTree, t1: FileTree, x: usize, k: nat)
        requires
            t0.wf(),
            tk.wf(),
            tk.metadata_only(t0),
            t1.metadata_only(t0),
            t0.files().dom().contains(x),
            k < t0.files()[x].entries().len(),
            forall|m: usize| #[trigger] t0.files().dom().contains(m) && !t0.reach_prefix(x, k).contains(m)
                ==> tk.files()[m] == t0.files()[m],
            forall|m: usize| #[trigger] tk.files().dom().contains(m) && !tk.reach(t0.files()[x].entries()[k as int].1).contains(m)
                ==> t1.files()[m] == tk.files()[m],
            forall|m: usize| #[trigger] t0.reach_prefix(x, k).contains(m) ==> tk.node_view(m) == with_metadata(t0.node_view(m)),
            forall|m: usize| #[trigger] tk.reach(t0.files()[x].entries()[k as int].1).contains(m)
                ==> t1.node_view(m) == with_metadata(tk.node_view(m)),
        ensures
            forall|m: usize| #[trigger] t0.reach_prefix(x, k + 1).contains(m) ==> t1.node_view(m) == with_metadata(t0.node_view(m)),
    {
        let es = t0.files()[x].entries();
        let c = es[k as int].1;
        assert(t0.node_wf(x));
        assert(t0.node_wf(c));
        t0.lemma_reach_frame(tk, c);
        assert(t0.child_ok(x, c));
        assert(t0.reach_prefix(x, k + 1) == t0.reach_prefix(x, k) + t0.reach(c));
        assert forall|m: usize| #[trigger] t0.reach_prefix(x, k + 1).contains(m) implies t1.node_view(m) == with_metadata(
            t0.node_view(m),
        ) by {
            if t0.reach_prefix(x, k).contains(m) {
                let i = t0.lemma_prefix_member(x, k, m);
                t0.lemma_reach_trans(es[i].1, m);
                t0.lemma_reach_disjoint(x, i, k as int);
                t0.lemma_reach_frame(tk, m);
                assert forall|y: usize| #[trigger] tk.reach(m).contains(y) implies t1.files()[y] == tk.files()[y] by {
                    assert(t0.reach(es[i].1).contains(y));
                    assert(!t0.reach(c).contains(y));
                    t0.lemma_reach_trans(m, y);
                }
                FileTree::lemma_view_reach_frame(tk, t1, m);
            } else {
                assert(t0.reach(c).contains(m));
                t0.lemma_reach_trans(c, m);
                assert forall|y: usize| #[trigger] t0.reach(m).contains(y) implies tk.files()[y] == t0.files()[y] by {
                    assert(t0.reach(c).contains(y));
                    t0.lemma_reach_trans(c, y);
                    if t0.reach_prefix(x, k).contains(y) {
                        let i = t0.lemma_prefix_member(x, k, y);
                        t0.lemma_reach_disjoint(x, i, k as int);
                    }
                }
                FileTree::lemma_view_reach_frame(t0, tk, m);
            }
        }
    }

    /// Once `x` itself has its metadata, every node reachable from it has the view of
    /// the start with metadata.
    proof fn lemma_views_finish(t0: FileTree, tn: FileTree, t1: FileTree, x: usize)
        requires
            t0.wf(),
            tn.wf(),
            tn.metadata_only(t0),
            t1.rank == tn.rank,
            t1.rank_bound == tn.rank_bound,
            t0.files().dom().contains(x),
            forall|m: usize| #[trigger] tn.files().dom().contains(m) && m != x ==> t1.files()[m] == tn.files()[m],
            forall|m: usize| #[trigger] t0.reach_prefix(x, t0.files()[x].entries().len()).contains(m)
                ==> tn.node_view(m) == with_metadata(t0.node_view(m)),
            t1.node_view(x) == with_metadata(t0.node_view(x)),
        ensures
            forall|m: usize| #[trigger] t0.reach(x).contains(m) ==> t1.node_view(m) == with_metadata(t0.node_view(m)),
    {
        let es = t0.files()[x].entries();
        assert(t0.node_wf(x));
        assert(t0.reach(x) == set![x] + t0.reach_prefix(x, es.len()));
        assert forall|m: usize| #[trigger] t0.reach(x).contains(m) implies t1.node_view(m) == with_metadata(t0.node_view(m)) by {
            if m != x {
                let i = t0.lemma_prefix_member(x, es.len(), m);
                let c = es[i].1;
                assert(t0.node_wf(c));
                t0.lemma_reach(c);
                t0.lemma_reach_trans(c, m);
                t0.lemma_anc_rank(c, m);
                t0.lemma_reach_frame(tn, m);
                assert forall|y: usize| #[trigger] tn.reach(m).contains(y) implies t1.files()[y] == tn.files()[y] by {
                    t0.lemma_reach_trans(m, y);
                }
                FileTree::lemma_view_reach_frame(tn, t1, m);
            }
        }
    }

    /// Listing the ids of newly stored nodes after the earlier ones lists every stored
    /// node once, the earlier ones with their entries kept.
    proof fn lemma_extend_ids(t0: FileTree, t1: FileTree, ids: Seq<usize>, created: Seq<usize>)
        requires
            ids.no_duplicates(),
            ids.to_set() == t0.files().dom(),
            created.no_duplicates(),
            forall|q: int| 0 <= q < created.len() ==> !t0.files().dom().contains(#[trigger] created[q]),
            t1.files().dom() == t0.files().dom() + created.to_set(),
            forall|m: usize| #[trigger] t0.files().dom().contains(m) ==> entry_of(*t1.files()[m]) == entry_of(*t0.files()[m]),
        ensures
            (ids + created).no_duplicates(),
            (ids + created).to_set() == t1.files().dom(),
            forall|q: int| 0 <= q < ids.len() ==> entry_of(*t1.files()[#[trigger] (ids + created)[q]]) == entry_of(*t0.files()[ids[q]]),
            forall|q: int| 0 <= q < created.len() ==> #[trigger] (ids + created)[ids.len() + q] == created[q],
    {
        let all = ids + created;
        assert forall|a: int, b: int| 0 <= a < b < all.len() implies all[a] != all[b] by {
            if b >= ids.len() && a < ids.len() {
                assert(ids.contains(ids[a]));
                assert(!t0.files().dom().contains(created[b - ids.len()]));
            } else if a >= ids.len() {
                assert(created[a - ids.len()] != created[b - ids.len()]);
            } else {
                assert(ids[a] != ids[b]);
            }
        }
        assert forall|x: usize| #[trigger] all.contains(x) implies ids.contains(x) || created.contains(x) by {
            let q = choose|q: int| 0 <= q < all.len() && all[q] == x;
            if q < ids.len() {
                assert(ids[q] == x);
            } else {
                assert(created[q - ids.len()] == x);
            }
        }
        assert forall|x: usize| ids.contains(x) || created.contains(x) implies #[trigger] all.contains(x) by {
            if ids.contains(x) {
                let q = choose|q: int| 0 <= q < ids.len() && ids[q] == x;
                assert(all[q] == x);
            } else {
                let q = choose|q: int| 0 <= q < created.len() && created[q] == x;
                assert(all[ids.len() + q] == x);
            }
        }
        assert(all.to_set() =~= t1.files().dom());
        assert forall|q: int| 0 <= q < ids.len() implies entry_of(*t1.files()[#[trigger] all[q]]) == entry_of(*t0.files()[ids[q]]) by {
            assert(all[q] == ids[q]);
            assert(ids.contains(ids[q]));
            assert(ids.to_set().contains(ids[q]));
            assert(t0.files().dom().contains(ids[q]));
        }
    }

    /// A well-formed tree has no more nodes than there are `usize` values.
    pub(crate) proof fn lemma_size_bound(self, x: usize)
        requires
            self.wf(),
            self.files().dom().contains(x),
        ensures
            size(self.node_view(x)) <= usize::MAX + 1,
    {
        self.lemma_reach(x);
        let r = self.reach(x);
        let f = |u: usize| u as int;
        let ints = r.map(f);
        vstd::set_lib::lemma_map_size(r, ints, f);
        vstd::set_lib::lemma_int_range(0, usize::MAX + 1);
        assert(ints.subset_of(vstd::set_lib::set_int_range(0, usize::MAX + 1)));
        vstd::set_lib::lemma_len_subset(ints, vstd::set_lib::set_int_range(0, usize::MAX + 1));
    }

    /// Looking a name up among the entries is looking it up among the children.
    pub(crate) proof fn lemma_key_child(self, x: usize, name: Seq<char>)
        requires
            self.wf(),
            self.files().dom().contains(x),
        ensures
            has_key(self.files()[x].entries(), name) == has_child(self.node_view(x).children, name),
            has_key(self.files()[x].entries(), name) ==> key_position(self.files()[x].entries(), name)
                == child_index(self.node_view(x).children, name),
    {
        self.lemma_view_children(x);
        assert(self.node_wf(x));
        let es = self.files()[x].entries();
        let cs = self.node_view(x).children;
        if has_key(es, name) {
            let k = key_position(es, name);
            assert(cs[k].name == name);
            let j = child_index(cs, name);
            assert(es[j].0 == name);
            if j != k {
                if j < k {
                    assert(es[j].0 != es[k].0);
                } else {
                    assert(es[k].0 != es[j].0);
                }
            }
        }
        if has_child(cs, name) {
            let j = child_index(cs, name);
            assert(es[j].0 == name);
        }
    }

    /// Distinct entries of a directory hold distinct nodes.
    pub(crate) proof fn lemma_entries_distinct(self, x: usize, i: int, j: int)
        requires
            self.wf(),
            self.files().dom().contains(x),
            0 <= i < self.files()[x].entries().len(),
            0 <= j < self.files()[x].entries().len(),
            i != j,
        ensures
            self.files()[x].entries()[i].1 != self.files()[x].entries()[j].1,
    {
        assert(self.node_wf(x));
        let es = self.files()[x].entries();
        if i < j {
            assert(es[i].0 != es[j].0);
        } else {
            assert(es[j].0 != es[i].0);
        }
    }

    /// When only the nodes below child `i` of `x` changed, the view of `x` changes
    /// only in that child.
    pub(crate) proof fn lemma_child_update(self, other: FileTree, x: usize, i: int)
        requires
            self.wf(),
            other.wf(),
            other.extends(self),
            self.files().dom().contains(x),
            0 <= i < self.files()[x].entries().len(),
            forall|m: usize| #[trigger] self.files().dom().contains(m) && !self.anc_or_self(self.files()[x].entries()[i].1, m)
                ==> other.files()[m] == self.files()[m],
        ensures
            other.node_view(x) == (NodeView {
                children: self.node_view(x).children.update(i, other.node_view(self.files()[x].entries()[i].1)),
                ..self.node_view(x)
            }),
    {
        let es = self.files()[x].entries();
        let c = es[i].1;
        self.lemma_view_children(x);
        assert(self.node_wf(x));
        assert(self.node_wf(c));
        if self.anc_or_self(c, x) {
            self.lemma_anc_rank(c, x);
        }
        assert(other.files()[x] == self.files()[x]);
        assert(other.files().dom().contains(x));
        other.lemma_view_children(x);
        assert forall|j: int| 0 <= j < es.len() && j != i implies other.node_view(x).children[j] == self.node_view(x).children[j] by {
            let d = es[j].1;
            self.lemma_entries_distinct(x, i, j);
            assert(self.node_wf(d));
            assert forall|m: usize| #[trigger] self.files().dom().contains(m) && self.anc_or_self(d, m)
                implies other.files()[m] == self.files()[m] by {
                if self.anc_or_self(c, m) {
                    self.lemma_anc_unique(c, d, m);
                }
            }
            self.lemma_view_frame(other, d);
        }
        assert(other.node_view(x).children =~= self.node_view(x).children.update(i, other.node_view(c)));
        assert(other.node_view(x) =~= (NodeView {
            children: self.node_view(x).children.update(i, other.node_view(c)),
            ..self.node_view(x)
        }));
    }

    /// Creates a node with no children under `parent` and registers it there
    /// (a directory records it by name; any other node ignores it).
    fn attach(&mut self, parent: usize, name: &String, path: String, file_type: FileType, data: TypeSpecficData) -> (new_id: usize)
        requires
            old(self).wf(),
            old(self).files().dom().contains(parent),
            File::data_fits(data, file_type, data_link(data)),
        ensures
            final(self).wf(),
            final(self).extends(*old(self)),
            !old(self).files().dom().contains(new_id),
            final(self).files().dom().contains(new_id),
            final(self).files()[new_id].parent == Some(parent),
            final(self).node_view(new_id) == leaf_view(name@, path@, file_type, data_link(data)),
            forall|m: usize| #[trigger] old(self).files().dom().contains(m) && m != parent
                ==> final(self).files()[m] == old(self).files()[m],
            old(self).files()[parent].data is Directory ==> final(self).node_view(parent) == set_child(
                old(self).node_view(parent),
                leaf_view(name@, path@, file_type, data_link(data)),
            ),
            !(old(self).files()[parent].data is Directory) ==> final(self).files()[parent] == old(self).files()[parent],
            old(self).files()[parent].data is Directory ==> final(self).files()[parent].entries() == insert_entry(
                old(self).files()[parent].entries(),
                name@,
                new_id,
            ),
            final(self).files().dom() == old(self).files().dom().insert(new_id),
            old(self).metadata_unset() ==> final(self).metadata_unset(),
            forall|m: usize| #[trigger] old(self).files().dom().contains(m)
                ==> entry_of(*final(self).files()[m]) == entry_of(*old(self).files()[m]),
    {
        let ghost t0 = *self;
        let new_id = slab_vacant_key(&self.storage);
        let file = File {
            id: new_id,
            parent: Some(parent),
            display_name: name.clone(),
            path,
            file_type,
            data,
            total_descendants: 0,
            child_dir_count: 0,
            child_file_count: 0,
        };
        let ghost new_file = file;
        slab_insert(&mut self.storage, Box::new(file));
        self.rank = Ghost(self.rank@.insert(new_id, self.rank_bound@));
        self.rank_bound = Ghost(self.rank_bound@ + 1);
        let ghost t1 = *self;
        slab_get_mut(&mut self.storage, parent).add_child(name.as_str(), new_id);
        proof {
            let t2 = *self;
            assert(t0.node_wf(parent));
            assert(t1.files() == t0.files().insert(new_id, Box::new(new_file)));
            assert(t2.files() == t1.files().insert(parent, t2.files()[parent]));
            assert(t2.files()[parent].same_but_entries(*t0.files()[parent]));
            assert(new_file.entries().len() == 0);
            assert forall|id: usize| t2.files().dom().contains(id) implies #[trigger] t2.node_wf(id) by {
                if id == new_id {
                } else if id == parent {
                    let es0 = t0.files()[parent].entries();
                    let es2 = t2.files()[parent].entries();
                    assert forall|i: int| 0 <= i < es2.len() implies {
                        let c = #[trigger] es2[i].1;
                        &&& t2.files().dom().contains(c)
                        &&& t2.files()[c].parent == Some(parent)
                        &&& t2.files()[c].display_name@ == es2[i].0
                    } by {
                        let c = es2[i].1;
                        if c != new_id {
                            // an entry kept from before
                            let j: int = if es2 == es0 || i < es0.len() { i } else { i };
                            assert(0 <= j < es0.len() && es0[j] == es2[i]);
                            assert(t0.files().dom().contains(c));
                            assert(t0.node_wf(c));
                        }
                    }
                } else {
                    assert(t0.node_wf(id));
                    let es = t2.files()[id].entries();
                    assert forall|i: int| 0 <= i < es.len() implies {
                        let c = #[trigger] es[i].1;
                        &&& t2.files().dom().contains(c)
                        &&& t2.files()[c].parent == Some(id)
                        &&& t2.files()[c].display_name@ == es[i].0
                    } by {
                        let c = es[i].1;
                        assert(t0.files().dom().contains(c));
                        if c == parent {
                            assert(t0.node_wf(c));
                        }
                    }
                }
            }
            assert(t2.wf());
            assert(t2.extends(t0));
            assert(t2.files()[new_id] == Box::new(new_file));
            assert(t2.node_view(new_id).children =~= Seq::<NodeView>::empty());
            assert(t2.node_view(new_id) =~= leaf_view(name@, new_file.path@, file_type, data_link(data)));
            assert forall|m: usize| #[trigger] t0.files().dom().contains(m) && m != parent
                implies t2.files()[m] == t0.files()[m] by {}
            assert(t2.files().dom() =~= t0.files().dom().insert(new_id));
            if t0.metadata_unset() {
                assert forall|m: usize| #[trigger] t2.files().dom().contains(m) implies {
                    &&& t2.files()[m].total_descendants == 0
                    &&& t2.files()[m].child_dir_count == 0
                    &&& t2.files()[m].child_file_count == 0
                } by {
                    if m != new_id {
                        assert(t0.files().dom().contains(m));
                    }
                }
            }
            if t0.files()[parent].data is Directory {
                let es0 = t0.files()[parent].entries();
                let es2 = t2.files()[parent].entries();
                t0.lemma_view_children(parent);
                t2.lemma_view_children(parent);
                t0.lemma_key_child(parent, name@);
                let v0 = t0.node_view(parent);
                let v2 = t2.node_view(parent);
                let leaf = leaf_view(name@, new_file.path@, file_type, data_link(data));
                assert forall|i: int| 0 <= i < es0.len() && es2[i].1 != new_id
                    implies #[trigger] t2.node_view(es0[i].1) == t0.node_view(es0[i].1) by {
                    let c = es0[i].1;
                    assert(t0.node_wf(c));
                    assert forall|m: usize| #[trigger] t0.files().dom().contains(m) && t0.anc_or_self(c, m)
                        implies t2.files()[m] == t0.files()[m] by {
                        if m == parent {
                            t0.lemma_anc_rank(c, m);
                        }
                    }
                    t0.lemma_view_frame(t2, c);
                }
                if has_key(es0, name@) {
                    let k = key_position(es0, name@);
                    assert(v2.children =~= v0.children.update(k, leaf));
                } else {
                    assert(v2.children =~= v0.children.push(leaf));
                }
                assert(v2 =~= set_child(v0, leaf));
            }
        }
        new_id
    }
}

/// The link that fresh node data records.
pub open spec fn data_link(data: TypeSpecficData) -> Option<Seq<char>> {
    match data {
        TypeSpecficData::Link(l) => Some(l@),
        _ => None,
    }
}


impl FileTree {
    /// Adds the node described by `leaf_*` below `node_id`, at the end of the chain of
    /// directories `ancestry[k..]`, creating the directories that are missing.
    fn insert_below(
        &mut self,
        node_id: usize,
        ancestry: &Vec<String>,
        k: usize,
        acc: &String,
        leaf_name: &String,
        leaf_path: &String,
        leaf_type: FileType,
        leaf_link: &Option<String>,
    ) -> (created: Ghost<Seq<usize>>)
        requires
            old(self).wf(),
            old(self).files().dom().contains(node_id),
            k <= ancestry.len(),
            leaf_type == FileType::Link ==> leaf_link is Some,
        ensures
            final(self).wf(),
            final(self).extends(*old(self)),
            forall|m: usize| #[trigger] old(self).files().dom().contains(m) && !old(self).anc_or_self(node_id, m)
                ==> final(self).files()[m] == old(self).files()[m],
            final(self).node_view(node_id) == tree_insert(
                old(self).node_view(node_id),
                string_views(ancestry@).subrange(k as int, ancestry@.len() as int),
                acc@,
                leaf_view(leaf_name@, leaf_path@, leaf_type, link_for(leaf_type, option_view(*leaf_link))),
            ),
            old(self).files().dom().finite() ==> final(self).files().dom().finite() && final(self).files().dom().len()
                == old(self).files().dom().len() + stored_by_insert(
                old(self).node_view(node_id),
                string_views(ancestry@).subrange(k as int, ancestry@.len() as int),
            ),
            old(self).metadata_unset() ==> final(self).metadata_unset(),
            created@.len() == created_by_insert(
                old(self).node_view(node_id),
                string_views(ancestry@).subrange(k as int, ancestry@.len() as int),
                acc@,
                leaf_view(leaf_name@, leaf_path@, leaf_type, link_for(leaf_type, option_view(*leaf_link))),
            ).len(),
            created@.no_duplicates(),
            forall|q: int|
                0 <= q < created@.len() ==> {
                    &&& !old(self).files().dom().contains(#[trigger] created@[q])
                    &&& final(self).files().dom().contains(created@[q])
                    &&& entry_of(*final(self).files()[created@[q]]) == created_by_insert(
                        old(self).node_view(node_id),
                        string_views(ancestry@).subrange(k as int, ancestry@.len() as int),
                        acc@,
                        leaf_view(leaf_name@, leaf_path@, leaf_type, link_for(leaf_type, option_view(*leaf_link))),
                    )[q]
                },
            final(self).files().dom() == old(self).files().dom() + created@.to_set(),
            forall|m: usize| #[trigger] old(self).files().dom().contains(m)
                ==> entry_of(*final(self).files()[m]) == entry_of(*old(self).files()[m]),
        decreases ancestry.len() - k,
    {
        let ghost t0 = *self;
        let ghost leaf = leaf_view(leaf_name@, leaf_path@, leaf_type, link_for(leaf_type, option_view(*leaf_link)));
        let ghost comps = string_views(ancestry@).subrange(k as int, ancestry@.len() as int);
        proof {
            assert(t0.node_wf(node_id));
            t0.lemma_view_children(node_id);
        }
        let ghost mut created: Seq<usize> = Seq::empty();
        if k == ancestry.len() {
            let data = make_data(leaf_type, leaf_link);
            let id = self.attach(node_id, leaf_name, leaf_path.clone(), leaf_type, data);
            proof {
                assert(comps.len() == 0);
                if !(t0.files()[node_id].data is Directory) {
                    t0.lemma_view_frame(*self, node_id);
                }
                created = seq![id];
                assert(self.node_view(id) == leaf);
                assert(created[0] == id);
                assert forall|x: usize| created.contains(x) implies x == id by {}
                assert(created.contains(id));
                assert(self.files().dom() =~= t0.files().dom() + created.to_set());
            }
        } else {
            let name = &ancestry[k];
            let acc2 = push_path(acc.as_str(), name.as_str());
            let found = slab_get(&self.storage, node_id).child_key(name.as_str());
            proof {
                assert(comps[0] == name@);
                assert(comps.drop_first() =~= string_views(ancestry@).subrange(k + 1, ancestry@.len() as int));
                t0.lemma_key_child(node_id, name@);
            }
            match found {
                Some(c) => {
                    let ghost i = key_position(t0.files()[node_id].entries(), name@);
                    proof {
                        assert(t0.files()[node_id].entries()[i].1 == c);
                    }
                    let sub = self.insert_below(c, ancestry, k + 1, &acc2, leaf_name, leaf_path, leaf_type, leaf_link);
                    proof {
                        created = sub@;
                        t0.lemma_view_children(node_id);
                        assert(t0.node_view(node_id).children[i] == t0.node_view(c));
                        let t2 = *self;
                        assert(t0.node_wf(c));
                        assert forall|m: usize| #[trigger] t0.files().dom().contains(m) && !t0.anc_or_self(node_id, m)
                            implies t2.files()[m] == t0.files()[m] by {
                            if t0.anc_or_self(c, m) {
                                t0.lemma_anc_parent(c, node_id, m);
                            }
                        }
                        t0.lemma_child_update(t2, node_id, i);
                        assert(t0.files()[node_id].data is Directory);
                    }
                },
                None => {
                    let new_id = self.attach(
                        node_id,
                        name,
                        acc2.clone(),
                        FileType::Directory,
                        TypeSpecficData::Directory(child_map_new()),
                    );
                    let ghost t1 = *self;
                    proof {
                        t0.lemma_view_children(node_id);
                    }
                    let sub = self.insert_below(new_id, ancestry, k + 1, &acc2, leaf_name, leaf_path, leaf_type, leaf_link);
                    proof {
                        let t2 = *self;
                        created = seq![new_id] + sub@;
                        let d = t1.node_view(new_id);
                        assert(d.children.len() == 0);
                        assert(created_by_insert(d, comps.drop_first(), acc2@, leaf) == created_chain(comps.drop_first(), acc2@, leaf));
                        assert(created_by_insert(t0.node_view(node_id), comps, acc@, leaf) == created_chain(comps, acc@, leaf));
                        assert(entry_of(*t2.files()[new_id]) == entry_of(*t1.files()[new_id]));
                        assert forall|x: usize| #[trigger] created.contains(x) implies x == new_id || sub@.contains(x) by {
                            let q = choose|q: int| 0 <= q < created.len() && created[q] == x;
                            if q > 0 {
                                assert(sub@[q - 1] == x);
                            }
                        }
                        assert forall|x: usize| #[trigger] sub@.contains(x) implies created.contains(x) by {
                            let q = choose|q: int| 0 <= q < sub@.len() && sub@[q] == x;
                            assert(created[q + 1] == x);
                        }
                        assert(created[0] == new_id);
                        assert(created.contains(new_id));
                        assert(t2.files().dom() =~= t0.files().dom() + created.to_set());
                        assert forall|q: int| 0 <= q < created.len() implies {
                            &&& !t0.files().dom().contains(#[trigger] created[q])
                            &&& t2.files().dom().contains(created[q])
                            &&& entry_of(*t2.files()[created[q]]) == created_by_insert(t0.node_view(node_id), comps, acc@, leaf)[q]
                        } by {
                            if q > 0 {
                                assert(created[q] == sub@[q - 1]);
                            }
                        }
                        assert(created.no_duplicates()) by {
                            assert forall|a: int, b: int| 0 <= a < b < created.len() implies created[a] != created[b] by {
                                if a > 0 {
                                    assert(sub@[a - 1] != sub@[b - 1]);
                                } else {
                                    assert(!t1.files().dom().contains(sub@[b - 1]));
                                }
                            }
                        }
                        assert(t1.node_wf(new_id));
                        assert forall|m: usize| #[trigger] t0.files().dom().contains(m) && !t0.anc_or_self(node_id, m)
                            implies t2.files()[m] == t0.files()[m] by {
                            assert(t1.files().dom().contains(m));
                            if t1.anc_or_self(new_id, m) {
                                t1.lemma_anc_parent(new_id, node_id, m);
                                t0.lemma_anc_transfer(t1, node_id, m);
                            }
                        }
                        if t0.files()[node_id].data is Directory {
                            t1.lemma_view_children(node_id);
                            let n = t1.files()[node_id].entries().len() - 1;
                            assert(t1.files()[node_id].entries()[n].1 == new_id);
                            assert forall|m: usize| #[trigger] t1.files().dom().contains(m) && !t1.anc_or_self(t1.files()[node_id].entries()[n].1, m)
                                implies t2.files()[m] == t1.files()[m] by {}
                            t1.lemma_child_update(t2, node_id, n);
                            assert(t2.node_view(node_id).children =~= t0.node_view(node_id).children.push(t2.node_view(new_id)));
                            assert(t2.node_view(node_id) =~= tree_insert(t0.node_view(node_id), comps, acc@, leaf));
                        } else {
                            if t1.anc_or_self(new_id, node_id) {
                                t1.lemma_anc_rank(new_id, node_id);
                            }
                            assert(t2.files()[node_id] == t0.files()[node_id]);
                            t0.lemma_view_children(node_id);
                            t2.lemma_view_children(node_id);
                            assert(t2.node_view(node_id).children =~= t0.node_view(node_id).children);
                            assert(t2.node_view(node_id) =~= t0.node_view(node_id));
                        }
                    }
                },
            }
        }
        Ghost(created)
    }
}


/// The components of `path` below the first `prefix_len` ones (none if it has no more).
pub open spec fn relative_components(path: Seq<char>, prefix_len: nat) -> Seq<Seq<char>> {
    let cs = named_components(path);
    if prefix_len <= cs.len() {
        cs.subrange(prefix_len as int, cs.len() as int)
    } else {
        Seq::empty()
    }
}

/// The tree before any entry: a directory named and placed by the root path.
pub open spec fn root_view(root_path: Seq<char>) -> NodeView {
    dir_view(root_path, root_path)
}

/// One listed path added to the tree: it goes below the root along its components
/// past those of the root path; a path with no such component adds nothing.
pub open spec fn add_entry(
    tree: NodeView,
    root_path: Seq<char>,
    path: Seq<char>,
    file_type: FileType,
    target: Option<Seq<char>>,
) -> NodeView {
    let rel = relative_components(path, named_components(root_path).len());
    if rel.len() == 0 {
        tree
    } else {
        tree_insert(
            tree,
            rel.drop_last(),
            pushed_path(Seq::empty(), root_path),
            leaf_view(rel.last(), path, file_type, link_for(file_type, target)),
        )
    }
}

/// The tree built from the root path and the listed entries, added in order.
pub open spec fn built_tree(root_path: Seq<char>, entries: Seq<(Seq<char>, FileType, Option<Seq<char>>)>) -> NodeView
    decreases entries.len(),
{
    if entries.len() == 0 {
        root_view(root_path)
    } else {
        let e = entries.last();
        add_entry(built_tree(root_path, entries.drop_last()), root_path, e.0, e.1, e.2)
    }
}

/// The number of nodes stored for the listed entries, the root included: each entry
/// adds the nodes `stored_by_insert` counts for it, an entry with nothing below the
/// root none.
pub open spec fn stored_count(root_path: Seq<char>, entries: Seq<(Seq<char>, FileType, Option<Seq<char>>)>) -> nat
    decreases entries.len(),
{
    if entries.len() == 0 {
        1
    } else {
        let rel = relative_components(entries.last().0, named_components(root_path).len());
        stored_count(root_path, entries.drop_last()) + if rel.len() == 0 {
            0
        } else {
            stored_by_insert(built_tree(root_path, entries.drop_last()), rel.drop_last())
        }
    }
}

/// The entries of the nodes stored for the listed entries, in the order they are
/// stored: the root, then the nodes each entry adds (`created_by_insert`).
pub open spec fn stored_entries(root_path: Seq<char>, entries: Seq<(Seq<char>, FileType, Option<Seq<char>>)>) -> Seq<
    (Seq<char>, Seq<char>, FileType, Option<Seq<char>>),
>
    decreases entries.len(),
{
    if entries.len() == 0 {
        seq![(root_path, root_path, FileType::Directory, None::<Seq<char>>)]
    } else {
        let e = entries.last();
        let rel = relative_components(e.0, named_components(root_path).len());
        stored_entries(root_path, entries.drop_last()) + if rel.len() == 0 {
            Seq::empty()
        } else {
            created_by_insert(
                built_tree(root_path, entries.drop_last()),
                rel.drop_last(),
                pushed_path(Seq::empty(), root_path),
                leaf_view(rel.last(), e.0, e.1, link_for(e.1, e.2)),
            )
        }
    }
}

pub open spec fn entry_views(children: Seq<(String, FileType, Option<String>)>) -> Seq<(Seq<char>, FileType, Option<Seq<char>>)> {
    children.map_values(|e: (String, FileType, Option<String>)| (e.0@, e.1, option_view(e.2)))
}


impl FileTree {
    /// Builds the tree of the listed paths below `root_path`. Each entry gives a
    /// path, its kind and, for a link, the path the link points to (read by the
    /// caller); an entry for any other kind gives `None` there.
    pub fn new(root_path: &str, children: Vec<(String, FileType, Option<String>)>) -> (r: Option<FileTree>)
        requires
            forall|i: int| 0 <= i < children@.len() && (#[trigger] children@[i]).1 == FileType::Link ==> children@[i].2 is Some,
        ensures
            r is Some,
            r.unwrap().wf(),
            r.unwrap().view() == built_tree(root_path@, entry_views(children@)),
            r.unwrap().metadata_unset(),
            r.unwrap().files().dom().finite(),
            r.unwrap().files().dom().len() == stored_count(root_path@, entry_views(children@)),
            exists|ids: Seq<usize>|
                {
                    &&& ids.no_duplicates()
                    &&& ids.to_set() == r.unwrap().files().dom()
                    &&& ids.len() == stored_entries(root_path@, entry_views(children@)).len()
                    &&& forall|q: int|
                        0 <= q < ids.len() ==> entry_of(*r.unwrap().files()[#[trigger] ids[q]]) == stored_entries(
                            root_path@,
                            entry_views(children@),
                        )[q]
                },
    {
        let mut slab = slab_new();
        let root_id = slab_vacant_key(&slab);
        let root_prefix_len = non_cur_dir_components(root_path).len();
        let root = File {
            id: root_id,
            parent: None,
            display_name: root_path.to_owned(),
            path: root_path.to_owned(),
            file_type: FileType::Directory,
            data: TypeSpecficData::Directory(child_map_new()),
            total_descendants: 0,
            child_dir_count: 0,
            child_file_count: 0,
        };
        let ghost root_file = root;
        slab_insert(&mut slab, Box::new(root));
        let mut tree = FileTree {
            storage: slab,
            root_id,
            rank: Ghost(Map::<usize, nat>::empty().insert(root_id, 0)),
            rank_bound: Ghost(1),
        };
        proof {
            assert(tree.files()[root_id] == Box::new(root_file));
            assert forall|id: usize| tree.files().dom().contains(id) implies #[trigger] tree.node_wf(id) by {}
            assert(tree.view().children =~= Seq::<NodeView>::empty());
            assert(tree.view() =~= root_view(root_path@));
            assert(entry_views(children@).take(0) =~= Seq::<(Seq<char>, FileType, Option<Seq<char>>)>::empty());
            assert(tree.files().dom() =~= Set::<usize>::empty().insert(root_id));
        }
        let ghost mut ids: Seq<usize> = seq![root_id];
        proof {
            assert(ids[0] == root_id);
            assert forall|x: usize| ids.contains(x) implies x == root_id by {}
            assert(ids.contains(root_id));
            assert(ids.to_set() =~= tree.files().dom());
        }
        let mut i: usize = 0;
        while i < children.len()
            invariant
                i <= children.len(),
                tree.wf(),
                tree.root_id == root_id,
                root_prefix_len == named_components(root_path@).len(),
                forall|j: int| 0 <= j < children@.len() && (#[trigger] children@[j]).1 == FileType::Link ==> children@[j].2 is Some,
                tree.view() == built_tree(root_path@, entry_views(children@).take(i as int)),
                tree.metadata_unset(),
                tree.files().dom().finite(),
                tree.files().dom().len() == stored_count(root_path@, entry_views(children@).take(i as int)),
                ids.no_duplicates(),
                ids.to_set() == tree.files().dom(),
                ids.len() == stored_entries(root_path@, entry_views(children@).take(i as int)).len(),
                forall|q: int|
                    0 <= q < ids.len() ==> entry_of(*tree.files()[#[trigger] ids[q]]) == stored_entries(
                        root_path@,
                        entry_views(children@).take(i as int),
                    )[q],
            decreases children.len() - i,
        {
            let ghost before = tree;
            let path = &children[i].0;
            let meta = children[i].1;
            let target = &children[i].2;
            let cs = non_cur_dir_components(path.as_str());
            let mut rel: Vec<String> = Vec::new();
            let mut j = root_prefix_len;
            while j < cs.len()
                invariant
                    root_prefix_len <= j,
                    j <= cs.len() || j == root_prefix_len,
                    rel@.len() == j - root_prefix_len,
                    forall|q: int| 0 <= q < rel@.len() ==> (#[trigger] rel@[q])@ == cs@[root_prefix_len + q]@,
                decreases cs.len() - j,
            {
                rel.push(cs[j].clone());
                j += 1;
            }
            let ghost rel_views = relative_components(path@, root_prefix_len as nat);
            proof {
                if root_prefix_len <= cs.len() {
                    assert(string_views(rel@) =~= rel_views);
                } else {
                    assert(rel_views.len() == 0);
                    assert(string_views(rel@) =~= rel_views);
                }
            }
            let last = rel.pop();
            proof {
                let es = entry_views(children@);
                assert(es.take(i + 1).drop_last() =~= es.take(i as int));
                assert(es.take(i + 1).last() == es[i as int]);
            }
            match last {
                None => {},
                Some(leaf_name) => {
                    proof {
                        assert(string_views(rel@) =~= rel_views.drop_last());
                        assert(leaf_name@ == rel_views.last());
                        assert(string_views(rel@).subrange(0, rel@.len() as int) =~= string_views(rel@));
                    }
                    let base = String::new();
                    let acc = push_path(base.as_str(), root_path);
                    let root = tree.root_id;
                    let created = tree.insert_below(root, &rel, 0, &acc, &leaf_name, path, meta, target);
                    proof {
                        FileTree::lemma_extend_ids(before, tree, ids, created@);
                        ids = ids + created@;
                    }
                },
            }
            i += 1;
        }
        proof {
            assert(entry_views(children@).take(children@.len() as int) =~= entry_views(children@));
        }
        Some(tree)
    }

}


// ---------------------------------------------------------------------------
// Sizes and the metadata that summarizes them.
// ---------------------------------------------------------------------------

/// The number of nodes in a tree, its root included.
pub open spec fn size(v: NodeView) -> nat
    decreases v,
{
    1 + sizes(v.children)
}

/// The total number of nodes in a sequence of trees.
pub open spec fn sizes(cs: Seq<NodeView>) -> nat
    decreases cs,
{
    if cs.len() == 0 {
        0
    } else {
        sizes(cs.drop_last()) + size(cs.last())
    }
}

/// The number of directories among the trees of `cs` (their roots only).
pub open spec fn dir_count(cs: Seq<NodeView>) -> nat
    decreases cs.len(),
{
    if cs.len() == 0 {
        0
    } else {
        dir_count(cs.drop_last()) + if cs.last().file_type == FileType::Directory { 1nat } else { 0nat }
    }
}

/// The tree with every node's metadata filled in: the count of nodes below it and
/// the counts of its directory and non-directory children.
pub open spec fn with_metadata(v: NodeView) -> NodeView
    decreases v,
{
    NodeView {
        total_descendants: sizes(v.children),
        child_dir_count: dir_count(v.children),
        child_file_count: (v.children.len() - dir_count(v.children)) as nat,
        children: Seq::new(
            v.children.len(),
            |i: int|
                if 0 <= i < v.children.len() {
                    with_metadata(v.children[i])
                } else {
                    arbitrary()
                },
        ),
        ..v
    }
}

pub(crate) proof fn lemma_sizes_prefix(cs: Seq<NodeView>, k: int)
    requires
        0 <= k <= cs.len(),
    ensures
        sizes(cs.take(k)) <= sizes(cs),
        k < cs.len() ==> sizes(cs.take(k + 1)) == sizes(cs.take(k)) + size(cs[k]),
    decreases cs.len(),
{
    if k < cs.len() {
        assert(cs.take(k + 1).drop_last() =~= cs.take(k));
    }
    if cs.len() > 0 {
        if k == cs.len() {
            assert(cs.take(k) =~= cs);
        } else {
            assert(cs.drop_last().take(k) =~= cs.take(k));
            lemma_sizes_prefix(cs.drop_last(), k);
        }
    } else {
        assert(cs.take(k) =~= cs);
    }
}

pub(crate) proof fn lemma_dir_count_prefix(cs: Seq<NodeView>, k: int)
    requires
        0 <= k < cs.len(),
    ensures
        dir_count(cs.take(k + 1)) == dir_count(cs.take(k)) + if cs[k].file_type == FileType::Directory { 1nat } else { 0nat },
        dir_count(cs.take(k + 1)) <= k + 1,
{
    assert(cs.take(k + 1).drop_last() =~= cs.take(k));
    lemma_dir_count_le(cs.take(k + 1));
}

pub(crate) proof fn lemma_dir_count_le(cs: Seq<NodeView>)
    ensures
        dir_count(cs) <= cs.len(),
    decreases cs.len(),
{
    if cs.len() > 0 {
        lemma_dir_count_le(cs.drop_last());
    }
}

impl FileTree {
    /// `self` differs from `old` in the metadata fields of its nodes at most.
    pub open spec fn metadata_only(self, old: FileTree) -> bool {
        &&& self.root_id == old.root_id
        &&& self.rank == old.rank
        &&& self.rank_bound == old.rank_bound
        &&& self.files().dom() == old.files().dom()
        &&& forall|m: usize| #[trigger] old.files().dom().contains(m) ==> {
            let (a, b) = (self.files()[m], old.files()[m]);
            &&& a.id == b.id
            &&& a.parent == b.parent
            &&& a.display_name == b.display_name
            &&& a.path == b.path
            &&& a.file_type == b.file_type
            &&& a.data == b.data
        }
    }

    pub(crate) proof fn lemma_metadata_only_wf(self, old: FileTree)
        requires
            old.wf(),
            self.metadata_only(old),
        ensures
            self.wf(),
            self.extends(old),
    {
        assert forall|id: usize| self.files().dom().contains(id) implies #[trigger] self.node_wf(id) by {
            assert(old.node_wf(id));
            let es = self.files()[id].entries();
            assert forall|i: int| 0 <= i < es.len() implies {
                let c = #[trigger] es[i].1;
                &&& self.files().dom().contains(c)
                &&& self.files()[c].parent == Some(id)
                &&& self.files()[c].display_name@ == es[i].0
            } by {
                assert(old.files().dom().contains(es[i].1));
            }
        }
    }

    /// Fills in the metadata of `node_id` and of every node below it; returns the
    /// number of nodes below it.
    #[verifier::spinoff_prover]
    #[verifier::rlimit(30)]
    fn compute_metadata_recursive(&mut self, node_id: usize) -> (total: usize)
        requires
            old(self).wf(),
            old(self).files().dom().contains(node_id),
        ensures
            final(self).metadata_only(*old(self)),
            final(self).wf(),
            forall|m: usize| #[trigger] old(self).files().dom().contains(m) && !old(self).anc_or_self(node_id, m)
                ==> final(self).files()[m] == old(self).files()[m],
            final(self).node_view(node_id) == with_metadata(old(self).node_view(node_id)),
            total == sizes(old(self).node_view(node_id).children),
            forall|m: usize| #[trigger] old(self).files().dom().contains(m) && !old(self).reach(node_id).contains(m)
                ==> final(self).files()[m] == old(self).files()[m],
            forall|m: usize| #[trigger] old(self).reach(node_id).contains(m)
                ==> final(self).node_view(m) == with_metadata(old(self).node_view(m)),
        decreases old(self).rank_bound@ - old(self).rank@[node_id],
    {
        let ghost t0 = *self;
        let ghost v0 = t0.node_view(node_id);
        let ghost es0 = t0.files()[node_id].entries();
        proof {
            assert(t0.node_wf(node_id));
            t0.lemma_view_children(node_id);
            t0.lemma_size_bound(node_id);
        }
        let children: Vec<(String, usize)> = match &slab_get(&self.storage, node_id).data {
            TypeSpecficData::Directory(children_map) => child_map_entries(children_map),
            _ => Vec::new(),
        };
        let mut total_descendants: usize = 0;
        let mut child_dir_count: usize = 0;
        let mut child_file_count: usize = 0;
        let mut k: usize = 0;
        while k < children.len()
            invariant
                t0 == *old(self),
                t0.wf(),
                self.wf(),
                self.metadata_only(t0),
                t0.files().dom().contains(node_id),
                v0 == t0.node_view(node_id),
                es0 == t0.files()[node_id].entries(),
                size(v0) <= usize::MAX + 1,
                children@.len() == es0.len(),
                forall|j: int| 0 <= j < children@.len() ==> (#[trigger] children@[j]).1 == es0[j].1,
                v0.children.len() == es0.len(),
                forall|j: int| 0 <= j < es0.len() ==> #[trigger] v0.children[j] == t0.node_view(es0[j].1),
                forall|j: int| 0 <= j < es0.len() ==> t0.files().dom().contains(#[trigger] es0[j].1),
                k <= children.len(),
                total_descendants == sizes(v0.children.take(k as int)),
                child_dir_count == dir_count(v0.children.take(k as int)),
                child_file_count == k - dir_count(v0.children.take(k as int)),
                forall|m: usize| #[trigger] t0.files().dom().contains(m) && (forall|j: int| 0 <= j < k ==> !t0.anc_or_self(#[trigger] es0[j].1, m))
                    ==> self.files()[m] == t0.files()[m],
                forall|j: int| 0 <= j < k ==> self.node_view(#[trigger] es0[j].1) == with_metadata(t0.node_view(es0[j].1)),
                forall|m: usize| #[trigger] t0.files().dom().contains(m) && !t0.reach_prefix(node_id, k as nat).contains(m)
                    ==> self.files()[m] == t0.files()[m],
                forall|m: usize| #[trigger] t0.reach_prefix(node_id, k as nat).contains(m)
                    ==> self.node_view(m) == with_metadata(t0.node_view(m)),
            decreases children.len() - k,
        {
            let ghost tk = *self;
            let child_id = children[k].1;
            proof {
                assert(t0.node_wf(child_id));
                FileTree::lemma_untouched_child(t0, tk, node_id, k as int);
                lemma_sizes_prefix(v0.children, k as int);
                lemma_sizes_prefix(v0.children, k as int + 1);
                lemma_sizes_le_one(v0.children, k as int);
            }
            let child_descendants = self.compute_metadata_recursive(child_id);
            total_descendants = total_descendants + 1 + child_descendants;
            let child_type = slab_get(&self.storage, child_id).file_type;
            match child_type {
                FileType::Directory => child_dir_count += 1,
                FileType::File | FileType::Link => child_file_count += 1,
            }
            proof {
                lemma_dir_count_prefix(v0.children, k as int);
                FileTree::lemma_step_frame(t0, tk, *self, node_id, k as int);
                FileTree::lemma_reach_step(t0, tk, *self, node_id, k as nat);
                FileTree::lemma_views_step(t0, tk, *self, node_id, k as nat);
            }
            k += 1;
        }
        let ghost tn = *self;
        let node = slab_get_mut(&mut self.storage, node_id);
        node.total_descendants = total_descendants;
        node.child_dir_count = child_dir_count;
        node.child_file_count = child_file_count;
        proof {
            assert(v0.children.take(es0.len() as int) =~= v0.children);
            FileTree::lemma_finish_node(t0, tn, *self, node_id);
            assert(t0.reach(node_id) == set![node_id] + t0.reach_prefix(node_id, es0.len()));
            FileTree::lemma_views_finish(t0, tn, *self, node_id);
        }
        total_descendants
    }

    /// Fills in the metadata of every node of the tree.
    pub fn compute_metadata(&mut self)
        requires
            old(self).wf(),
        ensures
            final(self).wf(),
            final(self).metadata_only(*old(self)),
            final(self).view() == with_metadata(old(self).view()),
            forall|m: usize| #[trigger] old(self).files().dom().contains(m) && !old(self).reach(old(self).root_id).contains(m)
                ==> final(self).files()[m] == old(self).files()[m],
            forall|m: usize| #[trigger] old(self).reach(old(self).root_id).contains(m)
                ==> final(self).node_view(m) == with_metadata(old(self).node_view(m)),
    {
        let root = self.root_id;
        self.compute_metadata_recursive(root);
    }
}

impl FileTree {
    /// Whether the metadata below `node_id` is consistent with the tree, with the
    /// number of nodes below it.
    fn check_metadata(&self, node_id: usize) -> (r: (bool, usize))
        requires
            self.wf(),
            self.files().dom().contains(node_id),
        ensures
            r.0 == metadata_consistent(self.node_view(node_id)),
            r.1 == sizes(self.node_view(node_id).children),
        decreases self.rank_bound@ - self.rank@[node_id],
    {
        let ghost v = self.node_view(node_id);
        let ghost es = self.files()[node_id].entries();
        proof {
            assert(self.node_wf(node_id));
            self.lemma_view_children(node_id);
            self.lemma_size_bound(node_id);
        }
        let node = self.get(node_id);
        let children: Vec<(String, usize)> = match &node.data {
            TypeSpecficData::Directory(children_map) => child_map_entries(children_map),
            _ => Vec::new(),
        };
        let mut total: usize = 0;
        let mut dirs: usize = 0;
        let mut all_ok = true;
        let mut k: usize = 0;
        while k < children.len()
            invariant
                self.wf(),
                self.files().dom().contains(node_id),
                v == self.node_view(node_id),
                es == self.files()[node_id].entries(),
                size(v) <= usize::MAX + 1,
                children@.len() == es.len(),
                v.children.len() == es.len(),
                forall|j: int| 0 <= j < children@.len() ==> (#[trigger] children@[j]).1 == es[j].1,
                forall|j: int| 0 <= j < es.len() ==> #[trigger] v.children[j] == self.node_view(es[j].1),
                forall|j: int| 0 <= j < es.len() ==> self.files().dom().contains(#[trigger] es[j].1),
                k <= children.len(),
                total == sizes(v.children.take(k as int)),
                dirs == dir_count(v.children.take(k as int)),
                all_ok == forall|j: int| 0 <= j < k ==> metadata_consistent(#[trigger] v.children[j]),
            decreases children.len() - k,
        {
            let child_id = children[k].1;
            proof {
                lemma_sizes_prefix(v.children, k as int);
                lemma_sizes_prefix(v.children, k as int + 1);
                lemma_dir_count_prefix(v.children, k as int);
                lemma_sizes_le_one(v.children, k as int);
                assert(self.node_wf(node_id));
                assert(self.node_wf(child_id));
                assert(self.child_ok(node_id, child_id));
            }
            let (ok, below) = self.check_metadata(child_id);
            total = total + 1 + below;
            if self.get(child_id).file_type == FileType::Directory {
                dirs = dirs + 1;
            }
            all_ok = all_ok && ok;
            k += 1;
        }
        proof {
            assert(v.children.take(es.len() as int) =~= v.children);
            lemma_dir_count_le(v.children);
        }
        let r = all_ok && node.total_descendants == total && node.child_dir_count == dirs && node.child_file_count
            == children.len() - dirs;
        (r, total)
    }

    /// Whether the tree's metadata has been filled in (and is not stale) and the
    /// tree is small enough to be drawn within a line budget: what
    /// `format_tree_smart_lines` needs of it.
    pub fn is_ready_for_smart_lines(&self) -> (r: bool)
        requires
            self.wf(),
        ensures
            r == (metadata_consistent(self.view()) && size(self.view()) <= usize::MAX / 8),
    {
        let root = self.root_id;
        let (ok, below) = self.check_metadata(root);
        ok && below < usize::MAX / 8
    }
}

pub(crate) proof fn lemma_sizes_le_one(cs: Seq<NodeView>, k: int)
    requires
        0 <= k < cs.len(),
    ensures
        size(cs[k]) <= sizes(cs),
        size(cs[k]) >= 1,
    decreases cs.len(),
{
    if k < cs.len() - 1 {
        lemma_sizes_le_one(cs.drop_last(), k);
    }
}


impl FileTree {
    pub(crate) proof fn lemma_metadata_only_trans(a: FileTree, b: FileTree, c: FileTree)
        requires
            b.metadata_only(a),
            c.metadata_only(b),
        ensures
            c.metadata_only(a),
    {
    }

    /// Child `k` of `node_id`, below which nothing was touched yet, still has its view.
    pub(crate) proof fn lemma_untouched_child(t0: FileTree, tk: FileTree, node_id: usize, k: int)
        requires
            t0.wf(),
            tk.wf(),
            tk.metadata_only(t0),
            t0.files().dom().contains(node_id),
            0 <= k < t0.files()[node_id].entries().len(),
            forall|m: usize| #[trigger] t0.files().dom().contains(m) && (forall|j: int| 0 <= j < k ==> !t0.anc_or_self(#[trigger] t0.files()[node_id].entries()[j].1, m))
                ==> tk.files()[m] == t0.files()[m],
        ensures
            tk.node_view(t0.files()[node_id].entries()[k].1) == t0.node_view(t0.files()[node_id].entries()[k].1),
            t0.rank@[node_id] < t0.rank@[t0.files()[node_id].entries()[k].1] < t0.rank_bound@,
    {
        let es0 = t0.files()[node_id].entries();
        let c = es0[k].1;
        assert(t0.node_wf(node_id));
        assert(t0.node_wf(c));
        t0.lemma_metadata_only_wf_ext(tk);
        assert forall|m: usize| #[trigger] t0.files().dom().contains(m) && t0.anc_or_self(c, m)
            implies tk.files()[m] == t0.files()[m] by {
            assert forall|j: int| 0 <= j < k implies !t0.anc_or_self(#[trigger] es0[j].1, m) by {
                if t0.anc_or_self(es0[j].1, m) {
                    assert(t0.node_wf(es0[j].1));
                    t0.lemma_anc_unique(es0[j].1, c, m);
                    t0.lemma_entries_distinct(node_id, j, k);
                }
            }
        }
        t0.lemma_view_frame(tk, c);
    }

    pub(crate) proof fn lemma_metadata_only_wf_ext(self, other: FileTree)
        requires
            self.wf(),
            other.metadata_only(self),
        ensures
            other.wf(),
            other.extends(self),
    {
        other.lemma_metadata_only_wf(self);
    }

    /// After child `k` of `node_id` got its metadata, the nodes below no other child
    /// are touched, and the children done before keep their views.
    pub(crate) proof fn lemma_step_frame(t0: FileTree, tk: FileTree, tk1: FileTree, node_id: usize, k: int)
        requires
            t0.wf(),
            tk.wf(),
            tk1.wf(),
            tk.metadata_only(t0),
            tk1.metadata_only(tk),
            t0.files().dom().contains(node_id),
            0 <= k < t0.files()[node_id].entries().len(),
            forall|m: usize| #[trigger] t0.files().dom().contains(m) && (forall|j: int| 0 <= j < k ==> !t0.anc_or_self(#[trigger] t0.files()[node_id].entries()[j].1, m))
                ==> tk.files()[m] == t0.files()[m],
            forall|m: usize| #[trigger] tk.files().dom().contains(m) && !tk.anc_or_self(t0.files()[node_id].entries()[k].1, m)
                ==> tk1.files()[m] == tk.files()[m],
            forall|j: int| 0 <= j < k ==> tk.node_view(#[trigger] t0.files()[node_id].entries()[j].1) == with_metadata(t0.node_view(t0.files()[node_id].entries()[j].1)),
            tk1.node_view(t0.files()[node_id].entries()[k].1) == with_metadata(tk.node_view(t0.files()[node_id].entries()[k].1)),
            tk.node_view(t0.files()[node_id].entries()[k].1) == t0.node_view(t0.files()[node_id].entries()[k].1),
        ensures
            tk1.metadata_only(t0),
            forall|m: usize| #[trigger] t0.files().dom().contains(m) && (forall|j: int| 0 <= j < k + 1 ==> !t0.anc_or_self(#[trigger] t0.files()[node_id].entries()[j].1, m))
                ==> tk1.files()[m] == t0.files()[m],
            forall|j: int| 0 <= j < k + 1 ==> tk1.node_view(#[trigger] t0.files()[node_id].entries()[j].1) == with_metadata(t0.node_view(t0.files()[node_id].entries()[j].1)),
    {
        let es0 = t0.files()[node_id].entries();
        let c = es0[k].1;
        assert(t0.node_wf(node_id));
        FileTree::lemma_metadata_only_trans(t0, tk, tk1);
        t0.lemma_metadata_only_wf_ext(tk);
        tk.lemma_metadata_only_wf_ext(tk1);
        assert forall|m: usize| #[trigger] t0.files().dom().contains(m) && (forall|j: int| 0 <= j < k + 1 ==> !t0.anc_or_self(#[trigger] es0[j].1, m))
            implies tk1.files()[m] == t0.files()[m] by {
            assert(!t0.anc_or_self(es0[k].1, m));
            t0.lemma_anc_transfer(tk, c, m);
        }
        assert forall|j: int| 0 <= j < k + 1 implies tk1.node_view(#[trigger] es0[j].1) == with_metadata(t0.node_view(es0[j].1)) by {
            if j < k {
                let d = es0[j].1;
                assert(t0.node_wf(d));
                t0.lemma_entries_distinct(node_id, j, k);
                assert forall|m: usize| #[trigger] tk.files().dom().contains(m) && tk.anc_or_self(d, m)
                    implies tk1.files()[m] == tk.files()[m] by {
                    t0.lemma_anc_transfer(tk, d, m);
                    t0.lemma_anc_transfer(tk, c, m);
                    if t0.anc_or_self(c, m) {
                        t0.lemma_anc_unique(d, c, m);
                    }
                }
                tk.lemma_view_frame(tk1, d);
            }
        }
    }
}


impl FileTree {
    /// Once every child has its metadata and the node got its own, the node's view
    /// is the tree with its metadata filled in.
    pub(crate) proof fn lemma_finish_node(t0: FileTree, tn: FileTree, t: FileTree, node_id: usize)
        requires
            t0.wf(),
            tn.wf(),
            tn.metadata_only(t0),
            t0.files().dom().contains(node_id),
            t.root_id == tn.root_id,
            t.rank == tn.rank,
            t.rank_bound == tn.rank_bound,
            t.files() == tn.files().insert(node_id, t.files()[node_id]),
            t.files()[node_id].id == tn.files()[node_id].id,
            t.files()[node_id].parent == tn.files()[node_id].parent,
            t.files()[node_id].display_name == tn.files()[node_id].display_name,
            t.files()[node_id].path == tn.files()[node_id].path,
            t.files()[node_id].file_type == tn.files()[node_id].file_type,
            t.files()[node_id].data == tn.files()[node_id].data,
            t.files()[node_id].total_descendants == sizes(t0.node_view(node_id).children),
            t.files()[node_id].child_dir_count == dir_count(t0.node_view(node_id).children),
            t.files()[node_id].child_file_count == t0.node_view(node_id).children.len() - dir_count(t0.node_view(node_id).children),
            forall|m: usize| #[trigger] t0.files().dom().contains(m) && (forall|j: int| 0 <= j < t0.files()[node_id].entries().len() ==> !t0.anc_or_self(#[trigger] t0.files()[node_id].entries()[j].1, m))
                ==> tn.files()[m] == t0.files()[m],
            forall|j: int| 0 <= j < t0.files()[node_id].entries().len() ==> tn.node_view(#[trigger] t0.files()[node_id].entries()[j].1) == with_metadata(t0.node_view(t0.files()[node_id].entries()[j].1)),
        ensures
            t.metadata_only(t0),
            t.wf(),
            forall|m: usize| #[trigger] t0.files().dom().contains(m) && !t0.anc_or_self(node_id, m)
                ==> t.files()[m] == t0.files()[m],
            t.node_view(node_id) == with_metadata(t0.node_view(node_id)),
    {
        assert(t.metadata_only(tn)) by {
            assert(tn.files().dom().contains(node_id));
            assert(t.files().dom() =~= tn.files().dom());
            assert forall|m: usize| #[trigger] tn.files().dom().contains(m) implies {
                let (a, b) = (t.files()[m], tn.files()[m]);
                &&& a.id == b.id
                &&& a.parent == b.parent
                &&& a.display_name == b.display_name
                &&& a.path == b.path
                &&& a.file_type == b.file_type
                &&& a.data == b.data
            } by {}
        }
        FileTree::lemma_metadata_only_trans(t0, tn, t);
        t.lemma_metadata_only_wf(t0);
        tn.lemma_metadata_only_wf(t0);
        FileTree::lemma_finish_frame(t0, tn, t, node_id);
        FileTree::lemma_finish_view(t0, tn, t, node_id);
    }

    pub(crate) proof fn lemma_finish_frame(t0: FileTree, tn: FileTree, t: FileTree, node_id: usize)
        requires
            t0.wf(),
            t0.files().dom().contains(node_id),
            t.files() == tn.files().insert(node_id, t.files()[node_id]),
            forall|m: usize| #[trigger] t0.files().dom().contains(m) && (forall|j: int| 0 <= j < t0.files()[node_id].entries().len() ==> !t0.anc_or_self(#[trigger] t0.files()[node_id].entries()[j].1, m))
                ==> tn.files()[m] == t0.files()[m],
        ensures
            forall|m: usize| #[trigger] t0.files().dom().contains(m) && !t0.anc_or_self(node_id, m)
                ==> t.files()[m] == t0.files()[m],
    {
        let es0 = t0.files()[node_id].entries();
        assert(t0.node_wf(node_id));
        assert forall|m: usize| #[trigger] t0.files().dom().contains(m) && !t0.anc_or_self(node_id, m)
            implies t.files()[m] == t0.files()[m] by {
            assert forall|j: int| 0 <= j < es0.len() implies !t0.anc_or_self(#[trigger] es0[j].1, m) by {
                if t0.anc_or_self(es0[j].1, m) {
                    t0.lemma_anc_parent(es0[j].1, node_id, m);
                }
            }
            assert(t0.anc_or_self(node_id, node_id));
        }
    }

    pub(crate) proof fn lemma_finish_view(t0: FileTree, tn: FileTree, t: FileTree, node_id: usize)
        requires
            t0.wf(),
            tn.wf(),
            t.wf(),
            tn.metadata_only(t0),
            t.metadata_only(tn),
            t0.files().dom().contains(node_id),
            t.files() == tn.files().insert(node_id, t.files()[node_id]),
            t.files()[node_id].total_descendants == sizes(t0.node_view(node_id).children),
            t.files()[node_id].child_dir_count == dir_count(t0.node_view(node_id).children),
            t.files()[node_id].child_file_count == t0.node_view(node_id).children.len() - dir_count(t0.node_view(node_id).children),
            forall|j: int| 0 <= j < t0.files()[node_id].entries().len() ==> tn.node_view(#[trigger] t0.files()[node_id].entries()[j].1) == with_metadata(t0.node_view(t0.files()[node_id].entries()[j].1)),
        ensures
            t.node_view(node_id) == with_metadata(t0.node_view(node_id)),
    {
        let es0 = t0.files()[node_id].entries();
        let v0 = t0.node_view(node_id);
        assert(t0.node_wf(node_id));
        t0.lemma_view_children(node_id);
        t.lemma_view_children(node_id);
        tn.lemma_metadata_only_wf(t0);
        t.lemma_metadata_only_wf(tn);
        assert forall|j: int| 0 <= j < es0.len() implies t.node_view(#[trigger] es0[j].1) == tn.node_view(es0[j].1) by {
            let d = es0[j].1;
            assert(t0.node_wf(d));
            assert(tn.node_wf(d));
            assert forall|m: usize| #[trigger] tn.files().dom().contains(m) && tn.anc_or_self(d, m)
                implies t.files()[m] == tn.files()[m] by {
                if m == node_id {
                    tn.lemma_anc_rank(d, m);
                }
            }
            tn.lemma_view_frame(t, d);
        }
        assert(t.node_view(node_id).children =~= with_metadata(v0).children);
        assert(t.node_view(node_id) =~= with_metadata(v0));
    }
}


impl FileType {
    /// The kind of an entry from what its metadata says: a directory, else a
    /// symbolic link, else a file.
    pub fn new(is_dir: bool, is_symlink: bool) -> (r: FileType)
        ensures
            r == (if is_dir {
                FileType::Directory
            } else if is_symlink {
                FileType::Link
            } else {
                FileType::File
            }),
    {
        if is_dir {
            FileType::Directory
        } else if is_symlink {
            FileType::Link
        } else {
            FileType::File
        }
    }
}

impl File {
    /// True for a node that carries file data.
    pub fn is_file(&self) -> (r: bool)
        ensures
            r == (self.data is File),
    {
        if let TypeSpecficData::File = self.data {
            true
        } else {
            false
        }
    }

    /// True for a node that carries directory data.
    pub fn is_dir(&self) -> (r: bool)
        ensures
            r == (self.data is Directory),
    {
        if let TypeSpecficData::Directory(_) = self.data {
            true
        } else {
            false
        }
    }

    /// The number of children of a directory; 0 for any other node.
    pub fn children_count(&self) -> (n: usize)
        ensures
            n == self.entries().len(),
    {
        if let TypeSpecficData::Directory(children) = &self.data {
            child_map_len(children)
        } else {
            0
        }
    }

    /// The name-to-id map of a directory; `None` for any other node.
    pub fn children(&self) -> (r: Option<&IndexMap<String, usize>>)
        ensures
            match self.data {
                TypeSpecficData::Directory(m) => r == Some(&m),
                _ => r is None,
            },
    {
        if let TypeSpecficData::Directory(children) = &self.data {
            Some(children)
        } else {
            None
        }
    }

    /// The path a link points to; `None` for any other node.
    pub fn link(&self) -> (r: Option<String>)
        ensures
            option_view(r) == self.link_view(),
    {
        if let TypeSpecficData::Link(link) = &self.data {
            Some(link.clone())
        } else {
            None
        }
    }

    /// True if this directory has exactly one child directory and no files: a link
    /// of a chain like `src/main/java/` that can be shown on one line.
    pub fn is_skinny(&self) -> (r: bool)
        ensures
            r == (self.child_dir_count == 1 && self.child_file_count == 0),
    {
        self.child_dir_count == 1 && self.child_file_count == 0
    }
}

impl FileTree {
    /// The node stored under `id`.
    pub fn get(&self, id: usize) -> (r: &File)
        requires
            self.files().dom().contains(id),
        ensures
            *r == *self.files()[id],
    {
        slab_get(&self.storage, id)
    }

    /// The root directory.
    pub fn get_root(&self) -> (r: &File)
        requires
            self.files().dom().contains(self.root_id),
        ensures
            *r == *self.files()[self.root_id],
    {
        self.get(self.root_id)
    }

    /// The node that `file` hangs below, if it has one.
    pub fn get_parent(&self, file: &File) -> (r: Option<&File>)
        requires
            file.parent matches Some(p) ==> self.files().dom().contains(p),
        ensures
            match file.parent {
                Some(p) => r is Some && *r.unwrap() == *self.files()[p],
                None => r is None,
            },
    {
        match file.parent {
            Some(id) => Some(self.get(id)),
            None => None,
        }
    }
}

/// Every node's metadata is what `compute_metadata` gives it.
pub open spec fn metadata_consistent(v: NodeView) -> bool
    decreases v,
{
    &&& v.total_descendants == sizes(v.children)
    &&& v.child_dir_count == dir_count(v.children)
    &&& v.child_file_count == v.children.len() - dir_count(v.children)
    &&& forall|i: int| 0 <= i < v.children.len() ==> metadata_consistent(#[trigger] v.children[i])
}


/// Only directories have children, at every level.
pub open spec fn only_directories_branch(v: NodeView) -> bool
    decreases v,
{
    &&& (v.file_type != FileType::Directory ==> v.children.len() == 0)
    &&& forall|i: int| 0 <= i < v.children.len() ==> only_directories_branch(#[trigger] v.children[i])
}

/// In a well-formed tree only directories have children.
pub proof fn law_only_directories_branch(t: FileTree, x: usize)
    requires
        t.wf(),
        t.files().dom().contains(x),
    ensures
        only_directories_branch(t.node_view(x)),
    decreases t.rank_bound@ - t.rank@[x],
{
    assert(t.node_wf(x));
    t.lemma_view_children(x);
    let es = t.files()[x].entries();
    assert forall|i: int| 0 <= i < t.node_view(x).children.len() implies only_directories_branch(
        #[trigger] t.node_view(x).children[i],
    ) by {
        let c = es[i].1;
        assert(t.node_wf(c));
        assert(t.child_ok(x, c));
        law_only_directories_branch(t, c);
    }
}

/// The children of `cs` with their metadata filled in.
pub open spec fn with_metadata_all(cs: Seq<NodeView>) -> Seq<NodeView> {
    Seq::new(
        cs.len(),
        |i: int|
            if 0 <= i < cs.len() {
                with_metadata(cs[i])
            } else {
                arbitrary()
            },
    )
}

proof fn lemma_with_metadata_sizes(v: NodeView)
    ensures
        size(with_metadata(v)) == size(v),
        with_metadata(v).file_type == v.file_type,
        with_metadata(v).name == v.name,
    decreases v, 1int,
{
    assert(with_metadata(v).children == with_metadata_all(v.children));
    lemma_with_metadata_all_sizes(v.children);
}

proof fn lemma_with_metadata_all_sizes(cs: Seq<NodeView>)
    ensures
        sizes(with_metadata_all(cs)) == sizes(cs),
        dir_count(with_metadata_all(cs)) == dir_count(cs),
        with_metadata_all(cs).len() == cs.len(),
    decreases cs, 0int,
{
    if cs.len() > 0 {
        assert(with_metadata_all(cs).drop_last() =~= with_metadata_all(cs.drop_last()));
        lemma_with_metadata_all_sizes(cs.drop_last());
        lemma_with_metadata_sizes(cs.last());
    }
}

proof fn lemma_with_metadata_consistent(v: NodeView)
    ensures
        metadata_consistent(with_metadata(v)),
    decreases v,
{
    lemma_with_metadata_all_sizes(v.children);
    lemma_dir_count_le(v.children);
    let w = with_metadata(v);
    assert(w.children == with_metadata_all(v.children));
    assert forall|i: int| 0 <= i < w.children.len() implies metadata_consistent(#[trigger] w.children[i]) by {
        lemma_with_metadata_consistent(v.children[i]);
    }
}

proof fn lemma_consistent_fixed(v: NodeView)
    requires
        metadata_consistent(v),
    ensures
        with_metadata(v) == v,
    decreases v,
{
    let w = with_metadata(v);
    assert forall|i: int| 0 <= i < v.children.len() implies #[trigger] w.children[i] == v.children[i] by {
        lemma_consistent_fixed(v.children[i]);
    }
    assert(w.children =~= v.children);
    assert(w =~= v);
}

/// After `compute_metadata` every node's metadata is consistent with the tree, and
/// computing it again changes nothing.
pub proof fn law_metadata_is_consistent_and_stable(v: NodeView)
    ensures
        metadata_consistent(with_metadata(v)),
        with_metadata(with_metadata(v)) == with_metadata(v),
{
    lemma_with_metadata_consistent(v);
    lemma_consistent_fixed(with_metadata(v));
}

/// The total below the root counts every other node, and a skinny directory is one
/// whose only child is a directory.
pub proof fn law_metadata_counts(v: NodeView)
    ensures
        with_metadata(v).total_descendants + 1 == size(v),
        (with_metadata(v).child_dir_count == 1 && with_metadata(v).child_file_count == 0) <==> (v.children.len() == 1
            && v.children[0].file_type == FileType::Directory),
{
    if v.children.len() == 1 {
        assert(v.children.drop_last().len() == 0);
        assert(dir_count(v.children.drop_last()) == 0);
        assert(v.children.last() == v.children[0]);
    }
    lemma_dir_count_le(v.children);
}

// ---------------------------------------------------------------------------
// Finding what was added.
// ---------------------------------------------------------------------------

pub open spec fn names_distinct(cs: Seq<NodeView>) -> bool {
    forall|i: int, j: int| 0 <= i < j < cs.len() ==> #[trigger] cs[i].name != #[trigger] cs[j].name
}

/// The node reached from `v` by following children by name.
pub open spec fn find(v: NodeView, names: Seq<Seq<char>>) -> Option<NodeView>
    decreases names.len(),
{
    if names.len() == 0 {
        Some(v)
    } else if has_child(v.children, names[0]) {
        find(v.children[child_index(v.children, names[0])], names.drop_first())
    } else {
        None
    }
}

/// Along `comps`, the nodes that exist are directories with distinct child names.
pub open spec fn directories_along(v: NodeView, comps: Seq<Seq<char>>) -> bool
    decreases comps.len(),
{
    &&& v.file_type == FileType::Directory
    &&& names_distinct(v.children)
    &&& (comps.len() > 0 && has_child(v.children, comps[0]) ==> directories_along(
        v.children[child_index(v.children, comps[0])],
        comps.drop_first(),
    ))
}

proof fn lemma_unique_index(cs: Seq<NodeView>, name: Seq<char>, k: int)
    requires
        names_distinct(cs),
        0 <= k < cs.len(),
        cs[k].name == name,
    ensures
        has_child(cs, name),
        child_index(cs, name) == k,
{
    let j = child_index(cs, name);
    if j != k {
        if j < k {
            assert(cs[j].name != cs[k].name);
        } else {
            assert(cs[k].name != cs[j].name);
        }
    }
}

proof fn lemma_insert_found(node: NodeView, comps: Seq<Seq<char>>, acc: Seq<char>, leaf: NodeView)
    requires
        directories_along(node, comps),
    ensures
        find(tree_insert(node, comps, acc, leaf), comps.push(leaf.name)) == Some(leaf),
        tree_insert(node, comps, acc, leaf).name == node.name,
    decreases comps.len(),
{
    let r = tree_insert(node, comps, acc, leaf);
    let path = comps.push(leaf.name);
    if comps.len() == 0 {
        let cs = node.children;
        if has_child(cs, leaf.name) {
            let k = child_index(cs, leaf.name);
            assert(names_distinct(r.children)) by {
                assert forall|i: int, j: int| 0 <= i < j < r.children.len() implies #[trigger] r.children[i].name != #[trigger] r.children[j].name by {
                    assert(cs[i].name != cs[j].name);
                }
            }
            lemma_unique_index(r.children, leaf.name, k);
            assert(path.drop_first() =~= Seq::<Seq<char>>::empty());
            assert(find(r.children[k], path.drop_first()) == Some(leaf));
        } else {
            let k = cs.len() as int;
            assert(names_distinct(r.children)) by {
                assert forall|i: int, j: int| 0 <= i < j < r.children.len() implies #[trigger] r.children[i].name != #[trigger] r.children[j].name by {
                    if j == k {
                        assert(cs[i].name != leaf.name);
                    } else {
                        assert(cs[i].name != cs[j].name);
                    }
                }
            }
            lemma_unique_index(r.children, leaf.name, k);
            assert(path.drop_first() =~= Seq::<Seq<char>>::empty());
            assert(find(r.children[k], path.drop_first()) == Some(leaf));
        }
    } else {
        let name = comps[0];
        let acc2 = pushed_path(acc, name);
        let cs = node.children;
        assert(path[0] == name);
        assert(path.drop_first() =~= comps.drop_first().push(leaf.name));
        if has_child(cs, name) {
            let k = child_index(cs, name);
            lemma_insert_found(cs[k], comps.drop_first(), acc2, leaf);
            assert(names_distinct(r.children)) by {
                assert forall|i: int, j: int| 0 <= i < j < r.children.len() implies #[trigger] r.children[i].name != #[trigger] r.children[j].name by {
                    assert(cs[i].name != cs[j].name);
                }
            }
            lemma_unique_index(r.children, name, k);
            assert(find(r.children[k], path.drop_first()) == Some(leaf));
        } else {
            let k = cs.len() as int;
            let d = dir_view(name, acc2);
            assert(names_distinct(d.children));
            lemma_insert_found(d, comps.drop_first(), acc2, leaf);
            assert(names_distinct(r.children)) by {
                assert forall|i: int, j: int| 0 <= i < j < r.children.len() implies #[trigger] r.children[i].name != #[trigger] r.children[j].name by {
                    if j == k {
                        assert(cs[i].name != name);
                    } else {
                        assert(cs[i].name != cs[j].name);
                    }
                }
            }
            lemma_unique_index(r.children, name, k);
            assert(find(r.children[k], path.drop_first()) == Some(leaf));
        }
    }
}

/// A listed path can be found in the tree right after it is added, by the names of
/// its components below the root, provided the directories it goes through are
/// directories.
pub proof fn law_added_entry_is_found(
    tree: NodeView,
    root_path: Seq<char>,
    path: Seq<char>,
    file_type: FileType,
    target: Option<Seq<char>>,
)
    requires
        relative_components(path, named_components(root_path).len()).len() > 0,
        directories_along(tree, relative_components(path, named_components(root_path).len()).drop_last()),
    ensures
        find(add_entry(tree, root_path, path, file_type, target), relative_components(path, named_components(root_path).len()))
            == Some(leaf_view(
            relative_components(path, named_components(root_path).len()).last(),
            path,
            file_type,
            link_for(file_type, target),
        )),
{
    let rel = relative_components(path, named_components(root_path).len());
    let leaf = leaf_view(rel.last(), path, file_type, link_for(file_type, target));
    lemma_insert_found(tree, rel.drop_last(), pushed_path(Seq::empty(), root_path), leaf);
    assert(rel.drop_last().push(leaf.name) =~= rel);
}

/// The children of every node have distinct names.
pub open spec fn names_distinct_everywhere(v: NodeView) -> bool
    decreases v,
{
    &&& names_distinct(v.children)
    &&& forall|i: int| 0 <= i < v.children.len() ==> names_distinct_everywhere(#[trigger] v.children[i])
}

/// Two nodes stand for the same entry: same name, path, kind and link.
pub open spec fn same_entry(a: NodeView, b: NodeView) -> bool {
    &&& a.name == b.name
    &&& a.path == b.path
    &&& a.file_type == b.file_type
    &&& a.link == b.link
}

proof fn lemma_tree_insert_keeps_entry(node: NodeView, comps: Seq<Seq<char>>, acc: Seq<char>, leaf: NodeView)
    ensures
        same_entry(tree_insert(node, comps, acc, leaf), node),
    decreases comps.len(),
{
}

proof fn lemma_set_child_distinct(node: NodeView, leaf: NodeView)
    requires
        names_distinct_everywhere(node),
        names_distinct_everywhere(leaf),
    ensures
        names_distinct_everywhere(set_child(node, leaf)),
        set_child(node, leaf).children.len() >= node.children.len(),
        forall|j: int| 0 <= j < node.children.len() && node.children[j].name != leaf.name
            ==> #[trigger] set_child(node, leaf).children[j] == node.children[j],
        forall|j: int| 0 <= j < set_child(node, leaf).children.len() ==> (#[trigger] set_child(node, leaf).children[j]).name
            == if j < node.children.len() { node.children[j].name } else { leaf.name },
{
    let cs = node.children;
    let r = set_child(node, leaf);
    if has_child(cs, leaf.name) {
        let k = child_index(cs, leaf.name);
        assert forall|j: int| 0 <= j < cs.len() && cs[j].name != leaf.name implies #[trigger] r.children[j] == cs[j] by {}
        assert forall|i: int, j: int| 0 <= i < j < r.children.len() implies #[trigger] r.children[i].name != #[trigger] r.children[j].name by {
            assert(cs[i].name != cs[j].name);
        }
    } else {
        assert forall|i: int, j: int| 0 <= i < j < r.children.len() implies #[trigger] r.children[i].name != #[trigger] r.children[j].name by {
            if j == cs.len() {
                assert(cs[i].name != leaf.name);
            } else {
                assert(cs[i].name != cs[j].name);
            }
        }
    }
    assert forall|i: int| 0 <= i < r.children.len() implies names_distinct_everywhere(#[trigger] r.children[i]) by {
        if i < cs.len() && cs[i].name != leaf.name {
        }
    }
}

/// Adding an entry keeps the children of every node distinctly named.
proof fn lemma_tree_insert_distinct(node: NodeView, comps: Seq<Seq<char>>, acc: Seq<char>, leaf: NodeView)
    requires
        names_distinct_everywhere(node),
        names_distinct_everywhere(leaf),
    ensures
        names_distinct_everywhere(tree_insert(node, comps, acc, leaf)),
    decreases comps.len(),
{
    if node.file_type != FileType::Directory {
    } else if comps.len() == 0 {
        lemma_set_child_distinct(node, leaf);
    } else {
        let name = comps[0];
        let acc2 = pushed_path(acc, name);
        let cs = node.children;
        let r = tree_insert(node, comps, acc, leaf);
        if has_child(cs, name) {
            let i = child_index(cs, name);
            lemma_tree_insert_distinct(cs[i], comps.drop_first(), acc2, leaf);
            lemma_tree_insert_keeps_entry(cs[i], comps.drop_first(), acc2, leaf);
            assert forall|a: int, b: int| 0 <= a < b < r.children.len() implies #[trigger] r.children[a].name != #[trigger] r.children[b].name by {
                assert(cs[a].name != cs[b].name);
            }
            assert forall|a: int| 0 <= a < r.children.len() implies names_distinct_everywhere(#[trigger] r.children[a]) by {
                if a != i {
                    assert(r.children[a] == cs[a]);
                }
            }
        } else {
            let d = dir_view(name, acc2);
            assert(d.children.len() == 0);
            assert(names_distinct_everywhere(d));
            lemma_tree_insert_distinct(d, comps.drop_first(), acc2, leaf);
            lemma_tree_insert_keeps_entry(d, comps.drop_first(), acc2, leaf);
            assert forall|a: int, b: int| 0 <= a < b < r.children.len() implies #[trigger] r.children[a].name != #[trigger] r.children[b].name by {
                if b == cs.len() {
                    assert(cs[a].name != name);
                } else {
                    assert(cs[a].name != cs[b].name);
                }
            }
            assert forall|a: int| 0 <= a < r.children.len() implies names_distinct_everywhere(#[trigger] r.children[a]) by {
                if a < cs.len() {
                    assert(r.children[a] == cs[a]);
                }
            }
        }
    }
}

/// In the built tree the children of every node have distinct names.
pub proof fn law_built_tree_names_distinct(root_path: Seq<char>, entries: Seq<(Seq<char>, FileType, Option<Seq<char>>)>)
    ensures
        names_distinct_everywhere(built_tree(root_path, entries)),
    decreases entries.len(),
{
    if entries.len() == 0 {
        assert(root_view(root_path).children.len() == 0);
    } else {
        let e = entries.last();
        let t = built_tree(root_path, entries.drop_last());
        law_built_tree_names_distinct(root_path, entries.drop_last());
        let rel = relative_components(e.0, named_components(root_path).len());
        if rel.len() > 0 {
            let leaf = leaf_view(rel.last(), e.0, e.1, link_for(e.1, e.2));
            assert(leaf.children.len() == 0);
            assert(names_distinct_everywhere(leaf));
            lemma_tree_insert_distinct(t, rel.drop_last(), pushed_path(Seq::empty(), root_path), leaf);
        }
    }
}

/// An entry already found stays found, as the same entry, when another is added
/// whose path is not a prefix of (or equal to) the path it is found by.
proof fn lemma_insert_keeps_found(
    node: NodeView,
    comps: Seq<Seq<char>>,
    acc: Seq<char>,
    leaf: NodeView,
    names: Seq<Seq<char>>,
)
    requires
        names_distinct_everywhere(node),
        names_distinct_everywhere(leaf),
        find(node, names) is Some,
        !comps.push(leaf.name).is_prefix_of(names),
    ensures
        find(tree_insert(node, comps, acc, leaf), names) is Some,
        same_entry(find(tree_insert(node, comps, acc, leaf), names).unwrap(), find(node, names).unwrap()),
    decreases names.len(),
{
    let r = tree_insert(node, comps, acc, leaf);
    lemma_tree_insert_keeps_entry(node, comps, acc, leaf);
    if names.len() == 0 || node.file_type != FileType::Directory {
        if names.len() > 0 {
            assert(r == node);
        }
    } else {
        let n0 = names[0];
        let cs = node.children;
        let i = child_index(cs, n0);
        assert(has_child(cs, n0));
        let rest = names.drop_first();
        if comps.len() == 0 {
            if leaf.name == n0 {
                assert(comps.push(leaf.name) =~= names.subrange(0, 1));
            }
            lemma_set_child_distinct(node, leaf);
            assert(r.children[i] == cs[i]);
            lemma_unique_index(r.children, n0, i);
        } else {
            let c0 = comps[0];
            let acc2 = pushed_path(acc, c0);
            if c0 != n0 {
                if has_child(cs, c0) {
                    let j = child_index(cs, c0);
                    assert(r.children[i] == cs[i]);
                    lemma_tree_insert_keeps_entry(cs[j], comps.drop_first(), acc2, leaf);
                    assert(r.children.len() == cs.len());
                    assert(r.children[j].name == cs[j].name);
                    assert forall|a: int, b: int| 0 <= a < b < r.children.len() implies #[trigger] r.children[a].name != #[trigger] r.children[b].name by {
                        assert(r.children[a].name == cs[a].name);
                        assert(r.children[b].name == cs[b].name);
                        assert(cs[a].name != cs[b].name);
                    }
                } else {
                    assert(r.children[i] == cs[i]);
                    lemma_tree_insert_keeps_entry(dir_view(c0, acc2), comps.drop_first(), acc2, leaf);
                    assert(r.children.len() == cs.len() + 1);
                    assert(r.children[cs.len() as int].name == c0);
                    assert forall|a: int, b: int| 0 <= a < b < r.children.len() implies #[trigger] r.children[a].name != #[trigger] r.children[b].name by {
                        assert(r.children[a] == cs[a]);
                        if b == cs.len() {
                            assert(cs[a].name != c0);
                        } else {
                            assert(r.children[b] == cs[b]);
                            assert(cs[a].name != cs[b].name);
                        }
                    }
                }
                lemma_unique_index(r.children, n0, i);
            } else {
                assert(!comps.drop_first().push(leaf.name).is_prefix_of(rest)) by {
                    if comps.drop_first().push(leaf.name).is_prefix_of(rest) {
                        let p = comps.push(leaf.name);
                        let q = comps.drop_first().push(leaf.name);
                        assert forall|k: int| 0 <= k < p.len() implies p[k] == names[k] by {
                            if k > 0 {
                                assert(p[k] == q[k - 1]);
                                assert(q[k - 1] == rest[k - 1]);
                            }
                        }
                        assert(p =~= names.subrange(0, p.len() as int));
                    }
                }
                lemma_insert_keeps_found(cs[i], comps.drop_first(), acc2, leaf, rest);
                lemma_tree_insert_keeps_entry(cs[i], comps.drop_first(), acc2, leaf);
                assert forall|a: int, b: int| 0 <= a < b < r.children.len() implies #[trigger] r.children[a].name != #[trigger] r.children[b].name by {
                    assert(cs[a].name != cs[b].name);
                }
                lemma_unique_index(r.children, n0, i);
            }
        }
    }
}

/// Every listed entry is found in the built tree, by the names of its components
/// below the root, as the entry it was listed as: provided the directories its
/// path goes through are directories when it is added, and no later entry lists
/// its path or a path above it.
pub proof fn law_every_entry_is_found(
    root_path: Seq<char>,
    entries: Seq<(Seq<char>, FileType, Option<Seq<char>>)>,
    i: int,
)
    requires
        0 <= i < entries.len(),
        relative_components(entries[i].0, named_components(root_path).len()).len() > 0,
        directories_along(
            built_tree(root_path, entries.take(i)),
            relative_components(entries[i].0, named_components(root_path).len()).drop_last(),
        ),
        forall|j: int|
            i < j < entries.len() ==> !(#[trigger] relative_components(entries[j].0, named_components(root_path).len())).is_prefix_of(
                relative_components(entries[i].0, named_components(root_path).len()),
            ),
    ensures
        ({
            let rel = relative_components(entries[i].0, named_components(root_path).len());
            &&& find(built_tree(root_path, entries), rel) is Some
            &&& same_entry(
                find(built_tree(root_path, entries), rel).unwrap(),
                leaf_view(rel.last(), entries[i].0, entries[i].1, link_for(entries[i].1, entries[i].2)),
            )
        }),
    decreases entries.len(),
{
    let rel = relative_components(entries[i].0, named_components(root_path).len());
    let leaf = leaf_view(rel.last(), entries[i].0, entries[i].1, link_for(entries[i].1, entries[i].2));
    if i == entries.len() - 1 {
        assert(entries.drop_last() =~= entries.take(i));
        law_added_entry_is_found(built_tree(root_path, entries.take(i)), root_path, entries[i].0, entries[i].1, entries[i].2);
    } else {
        let prev = entries.drop_last();
        assert(prev.take(i) =~= entries.take(i));
        assert forall|j: int| i < j < prev.len() implies !(#[trigger] relative_components(prev[j].0, named_components(root_path).len())).is_prefix_of(rel) by {
            assert(prev[j] == entries[j]);
        }
        law_every_entry_is_found(root_path, prev, i);
        let t = built_tree(root_path, prev);
        let e = entries.last();
        let rel_e = relative_components(e.0, named_components(root_path).len());
        if rel_e.len() > 0 {
            law_built_tree_names_distinct(root_path, prev);
            let leaf_e = leaf_view(rel_e.last(), e.0, e.1, link_for(e.1, e.2));
            assert(leaf_e.children.len() == 0);
            assert(names_distinct_everywhere(leaf_e));
            assert(rel_e.drop_last().push(leaf_e.name) =~= rel_e);
            assert(!rel_e.is_prefix_of(rel));
            lemma_insert_keeps_found(t, rel_e.drop_last(), pushed_path(Seq::empty(), root_path), leaf_e, rel);
        }
    }
}

/// Replacing one tree of a sequence changes the total size by the difference.
proof fn lemma_sizes_update(cs: Seq<NodeView>, i: int, x: NodeView)
    requires
        0 <= i < cs.len(),
    ensures
        sizes(cs.update(i, x)) + size(cs[i]) == sizes(cs) + size(x),
    decreases cs.len(),
{
    if i == cs.len() - 1 {
        assert(cs.update(i, x).drop_last() =~= cs.drop_last());
    } else {
        lemma_sizes_update(cs.drop_last(), i, x);
        assert(cs.update(i, x).drop_last() =~= cs.drop_last().update(i, x));
    }
}

/// Adding an entry that is not there yet, below directories only, adds to the tree
/// exactly the nodes that are stored for it.
proof fn lemma_insert_size(node: NodeView, comps: Seq<Seq<char>>, acc: Seq<char>, leaf: NodeView)
    requires
        directories_along(node, comps),
        find(node, comps.push(leaf.name)) is None,
        leaf.children.len() == 0,
    ensures
        size(tree_insert(node, comps, acc, leaf)) == size(node) + stored_by_insert(node, comps),
    decreases comps.len(),
{
    let r = tree_insert(node, comps, acc, leaf);
    let cs = node.children;
    assert(size(leaf) == 1) by {
        assert(sizes(leaf.children) == 0);
    }
    if comps.len() == 0 {
        assert(comps.push(leaf.name) =~= seq![leaf.name]);
        assert(!has_child(cs, leaf.name)) by {
            if has_child(cs, leaf.name) {
                assert(seq![leaf.name].drop_first() =~= Seq::<Seq<char>>::empty());
                assert(seq![leaf.name][0] == leaf.name);
                assert(find(node, seq![leaf.name]) == find(cs[child_index(cs, leaf.name)], Seq::<Seq<char>>::empty()));
            }
        }
        assert(r.children == cs.push(leaf));
        assert(r.children.drop_last() =~= cs);
    } else {
        let n0 = comps[0];
        let acc2 = pushed_path(acc, n0);
        let rest = comps.drop_first();
        assert(comps.push(leaf.name).drop_first() =~= rest.push(leaf.name));
        assert(comps.push(leaf.name)[0] == n0);
        if has_child(cs, n0) {
            let i = child_index(cs, n0);
            lemma_insert_size(cs[i], rest, acc2, leaf);
            lemma_sizes_update(cs, i, tree_insert(cs[i], rest, acc2, leaf));
        } else {
            let d = dir_view(n0, acc2);
            assert(d.children.len() == 0);
            assert(names_distinct(d.children));
            if rest.len() > 0 {
                assert(!has_child(d.children, rest[0]));
            }
            assert(rest.push(leaf.name).len() > 0 && !has_child(d.children, rest.push(leaf.name)[0]));
            lemma_insert_size(d, rest, acc2, leaf);
            assert(size(d) == 1) by {
                assert(sizes(d.children) == 0);
            }
            assert(r.children.drop_last() =~= cs);
        }
    }
}

/// When every entry is new and goes below directories only, the built tree has
/// exactly as many nodes as are stored for the entries.
proof fn lemma_built_size(root_path: Seq<char>, entries: Seq<(Seq<char>, FileType, Option<Seq<char>>)>)
    requires
        forall|i: int|
            0 <= i < entries.len() && (#[trigger] relative_components(entries[i].0, named_components(root_path).len())).len() > 0
                ==> directories_along(
                built_tree(root_path, entries.take(i)),
                relative_components(entries[i].0, named_components(root_path).len()).drop_last(),
            ) && find(
                built_tree(root_path, entries.take(i)),
                relative_components(entries[i].0, named_components(root_path).len()),
            ) is None,
    ensures
        size(built_tree(root_path, entries)) == stored_count(root_path, entries),
    decreases entries.len(),
{
    if entries.len() == 0 {
        assert(sizes(root_view(root_path).children) == 0);
    } else {
        let prev = entries.drop_last();
        assert forall|i: int|
            0 <= i < prev.len() && (#[trigger] relative_components(prev[i].0, named_components(root_path).len())).len() > 0
                implies directories_along(
                built_tree(root_path, prev.take(i)),
                relative_components(prev[i].0, named_components(root_path).len()).drop_last(),
            ) && find(
                built_tree(root_path, prev.take(i)),
                relative_components(prev[i].0, named_components(root_path).len()),
            ) is None by {
            assert(prev[i] == entries[i]);
            assert(prev.take(i) =~= entries.take(i));
        }
        lemma_built_size(root_path, prev);
        let n = entries.len() - 1;
        let e = entries.last();
        assert(entries[n] == e);
        assert(entries.take(n) =~= prev);
        let rel = relative_components(e.0, named_components(root_path).len());
        if rel.len() > 0 {
            let leaf = leaf_view(rel.last(), e.0, e.1, link_for(e.1, e.2));
            assert(rel.drop_last().push(leaf.name) =~= rel);
            lemma_insert_size(built_tree(root_path, prev), rel.drop_last(), pushed_path(Seq::empty(), root_path), leaf);
        }
    }
}

/// Every stored node is reached from the root through the directories' maps when
/// every listed entry is new (no path found in the tree already) and goes below
/// directories only: no node is replaced or left detached.
pub proof fn law_all_stored_nodes_reached(
    t: FileTree,
    root_path: Seq<char>,
    entries: Seq<(Seq<char>, FileType, Option<Seq<char>>)>,
)
    requires
        t.wf(),
        t.view() == built_tree(root_path, entries),
        t.files().dom().finite(),
        t.files().dom().len() == stored_count(root_path, entries),
        forall|i: int|
            0 <= i < entries.len() && (#[trigger] relative_components(entries[i].0, named_components(root_path).len())).len() > 0
                ==> directories_along(
                built_tree(root_path, entries.take(i)),
                relative_components(entries[i].0, named_components(root_path).len()).drop_last(),
            ) && find(
                built_tree(root_path, entries.take(i)),
                relative_components(entries[i].0, named_components(root_path).len()),
            ) is None,
    ensures
        t.reach(t.root_id) == t.files().dom(),
{
    lemma_built_size(root_path, entries);
    t.lemma_reach(t.root_id);
    assert(t.reach(t.root_id).subset_of(t.files().dom()));
    vstd::set_lib::lemma_subset_equality(t.reach(t.root_id), t.files().dom());
}

/// `base` with each of `names` pushed on it in turn.
pub open spec fn pushed_names(base: Seq<char>, names: Seq<Seq<char>>) -> Seq<char>
    decreases names.len(),
{
    if names.len() == 0 {
        base
    } else {
        pushed_names(pushed_path(base, names[0]), names.drop_first())
    }
}

/// A node found after an entry is added was there before, as the same entry, or is
/// a directory created on the way to it, with `acc` and the names down to it
/// pushed as its path.
proof fn lemma_insert_paths(node: NodeView, comps: Seq<Seq<char>>, acc: Seq<char>, leaf: NodeView, names: Seq<Seq<char>>)
    requires
        names.len() > 0,
        names_distinct_everywhere(node),
        leaf.children.len() == 0,
        find(tree_insert(node, comps, acc, leaf), names) is Some,
        names != comps.push(leaf.name),
    ensures
        ({
            let n = find(tree_insert(node, comps, acc, leaf), names).unwrap();
            ||| (find(node, names) is Some && same_entry(find(node, names).unwrap(), n))
            ||| (names.is_prefix_of(comps) && n.path == pushed_names(acc, names) && n.file_type == FileType::Directory
                && n.name == names.last())
        }),
    decreases names.len(),
{
    let r = tree_insert(node, comps, acc, leaf);
    let n0 = names[0];
    let rest = names.drop_first();
    let cs = node.children;
    if node.file_type != FileType::Directory {
        assert(r == node);
    } else if comps.len() == 0 {
        lemma_set_child_distinct(node, leaf);
        assert(has_child(r.children, n0));
        let k = child_index(r.children, n0);
        if r.children[k].name == leaf.name && !(k < cs.len() && cs[k].name != leaf.name) {
            if rest.len() == 0 {
                assert(names =~= comps.push(leaf.name));
            } else {
                if has_child(cs, leaf.name) {
                    assert(r.children[child_index(cs, leaf.name)] == leaf);
                    lemma_unique_index(r.children, leaf.name, child_index(cs, leaf.name));
                } else {
                    assert(r.children[cs.len() as int] == leaf);
                    lemma_unique_index(r.children, leaf.name, cs.len() as int);
                }
                assert(r.children[k] == leaf);
                assert(!has_child(leaf.children, rest[0]));
                assert(find(r, names) == find(leaf, rest));
            }
        } else {
            assert(r.children[k] == cs[k]);
            lemma_unique_index(cs, n0, k);
            assert(find(r, names) == find(cs[k], rest));
            assert(find(node, names) == find(cs[k], rest));
        }
    } else {
        let c0 = comps[0];
        let acc2 = pushed_path(acc, c0);
        let crest = comps.drop_first();
        lemma_tree_insert_distinct(node, comps, acc, leaf);
        assert(names_distinct(r.children));
        let k = child_index(r.children, n0);
        assert(has_child(r.children, n0));
        if has_child(cs, c0) {
            let i = child_index(cs, c0);
            lemma_tree_insert_keeps_entry(cs[i], crest, acc2, leaf);
            if k == i {
                assert(n0 == c0);
                lemma_unique_index(cs, n0, i);
                if rest.len() == 0 {
                    assert(find(r, names) == Some(r.children[k]));
                    assert(find(node, names) == Some(cs[i]));
                } else {
                    assert(rest != crest.push(leaf.name)) by {
                        if rest == crest.push(leaf.name) {
                            assert(names =~= seq![n0] + rest);
                            assert(comps.push(leaf.name) =~= seq![c0] + crest.push(leaf.name));
                        }
                    }
                    lemma_tree_insert_distinct(cs[i], crest, acc2, leaf);
                    lemma_insert_paths(cs[i], crest, acc2, leaf, rest);
                    assert(r.children[k] == tree_insert(cs[i], crest, acc2, leaf));
                    assert(find(r, names) == find(tree_insert(cs[i], crest, acc2, leaf), rest));
                    assert(find(node, names) == find(cs[i], rest));
                    let n = find(r, names).unwrap();
                    if !(find(cs[i], rest) is Some && same_entry(find(cs[i], rest).unwrap(), n)) {
                        assert(rest.is_prefix_of(crest));
                        assert(names =~= seq![c0] + rest);
                        assert(comps =~= seq![c0] + crest);
                        assert(names.len() <= comps.len());
                        assert(names =~= comps.subrange(0, names.len() as int));
                        assert(names.last() == rest.last());
                        assert(pushed_names(acc, names) == pushed_names(acc2, rest));
                    }
                }
            } else {
                assert(r.children[k] == cs[k]);
                lemma_unique_index(cs, n0, k);
                assert(find(r, names) == find(cs[k], rest));
                assert(find(node, names) == find(cs[k], rest));
            }
        } else {
            let d = dir_view(c0, acc2);
            assert(d.children.len() == 0);
            assert(names_distinct_everywhere(d));
            lemma_tree_insert_keeps_entry(d, crest, acc2, leaf);
            if k == cs.len() {
                assert(n0 == c0);
                if rest.len() == 0 {
                    assert(names =~= seq![c0]);
                    assert(pushed_names(acc, names) == pushed_names(acc2, rest));
                    assert(r.children[k] == tree_insert(d, crest, acc2, leaf));
                    assert(find(r, names) == Some(r.children[k]));
                    assert(names =~= comps.subrange(0, 1));
                } else {
                    assert(rest != crest.push(leaf.name)) by {
                        if rest == crest.push(leaf.name) {
                            assert(names =~= seq![n0] + rest);
                            assert(comps.push(leaf.name) =~= seq![c0] + crest.push(leaf.name));
                        }
                    }
                    lemma_insert_paths(d, crest, acc2, leaf, rest);
                    assert(!has_child(d.children, rest[0]));
                    assert(r.children[k] == tree_insert(d, crest, acc2, leaf));
                    assert(find(r, names) == find(tree_insert(d, crest, acc2, leaf), rest));
                    assert(rest.is_prefix_of(crest));
                    assert(names =~= seq![c0] + rest);
                    assert(comps =~= seq![c0] + crest);
                    assert(names.len() <= comps.len());
                    assert(names =~= comps.subrange(0, names.len() as int));
                    assert(names.last() == rest.last());
                    assert(pushed_names(acc, names) == pushed_names(acc2, rest));
                }
            } else {
                assert(r.children[k] == cs[k]);
                lemma_unique_index(cs, n0, k);
                assert(find(r, names) == find(cs[k], rest));
                assert(find(node, names) == find(cs[k], rest));
            }
        }
    }
}

/// A directory that no entry lists, found in the built tree by the names of its
/// components below the root, has as its path the root path with those names
/// pushed on it in turn, whatever order the entries came in.
pub proof fn law_created_directory_paths(
    root_path: Seq<char>,
    entries: Seq<(Seq<char>, FileType, Option<Seq<char>>)>,
    names: Seq<Seq<char>>,
)
    requires
        names.len() > 0,
        find(built_tree(root_path, entries), names) is Some,
        forall|i: int| 0 <= i < entries.len() ==> #[trigger] relative_components(entries[i].0, named_components(root_path).len()) != names,
    ensures
        find(built_tree(root_path, entries), names).unwrap().path == pushed_names(pushed_path(Seq::empty(), root_path), names),
        find(built_tree(root_path, entries), names).unwrap().file_type == FileType::Directory,
        find(built_tree(root_path, entries), names).unwrap().name == names.last(),
    decreases entries.len(),
{
    if entries.len() == 0 {
        assert(root_view(root_path).children.len() == 0);
        assert(!has_child(root_view(root_path).children, names[0]));
    } else {
        let prev = entries.drop_last();
        let e = entries.last();
        let t = built_tree(root_path, prev);
        let rel = relative_components(e.0, named_components(root_path).len());
        assert(entries[entries.len() - 1] == e);
        if rel.len() == 0 {
            assert forall|i: int| 0 <= i < prev.len() implies #[trigger] relative_components(prev[i].0, named_components(root_path).len()) != names by {
                assert(prev[i] == entries[i]);
            }
            law_created_directory_paths(root_path, prev, names);
        } else {
            let leaf = leaf_view(rel.last(), e.0, e.1, link_for(e.1, e.2));
            assert(rel.drop_last().push(leaf.name) =~= rel);
            law_built_tree_names_distinct(root_path, prev);
            lemma_insert_paths(t, rel.drop_last(), pushed_path(Seq::empty(), root_path), leaf, names);
            if find(t, names) is Some {
                assert forall|i: int| 0 <= i < prev.len() implies #[trigger] relative_components(prev[i].0, named_components(root_path).len()) != names by {
                    assert(prev[i] == entries[i]);
                }
                law_created_directory_paths(root_path, prev, names);
            }
        }
    }
}

/// In a well-formed tree, the children of every directory have distinct names.
pub proof fn law_child_names_distinct(t: FileTree, id: usize)
    requires
        t.wf(),
        t.files().dom().contains(id),
    ensures
        names_distinct(t.node_view(id).children),
{
    t.lemma_view_children(id);
    assert(t.node_wf(id));
    let es = t.files()[id].entries();
    assert forall|i: int, j: int| 0 <= i < j < t.node_view(id).children.len() implies #[trigger] t.node_view(id).children[i].name
        != #[trigger] t.node_view(id).children[j].name by {
        assert(es[i].0 != es[j].0);
    }
}

} // verus!
