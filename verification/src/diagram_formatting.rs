use vstd::prelude::*;
use std::collections::HashMap;
use crate::file_tree::{built_tree, entry_views, metadata_consistent, only_directories_branch, option_view, size, sizes, dir_count, File, FileTree, FileType, NodeView, TypeSpecficData};
use crate::text::{
    compare_names, decimal, decimal_spec, lemma_name_lt_asymmetric, lemma_name_lt_irreflexive,
    lemma_name_lt_total, lemma_name_lt_transitive, name_lt, NameOrder,
};
use vstd::relations::{sorted_by, total_ordering};
use std::cmp::Ordering;
use crate::collections::{child_entries, child_map_entries};

verus! {

broadcast use vstd::std_specs::hash::group_hash_axioms;

/// One line of a drawn tree: the drawing in front of the name, the name, the path
/// of the entry and the target of a link.
#[derive(Debug, Clone, PartialEq)]
pub struct FormattedEntry {
    pub name: String,
    pub path: String,
    pub prefix: String,
    pub link: Option<String>,
}

/// A line of a drawn tree as a value.
pub struct EntryView {
    pub name: Seq<char>,
    pub path: Seq<char>,
    pub prefix: Seq<char>,
    pub link: Option<Seq<char>>,
}

impl View for FormattedEntry {
    type V = EntryView;

    open spec fn view(&self) -> EntryView {
        EntryView { name: self.name@, path: self.path@, prefix: self.prefix@, link: option_view(self.link) }
    }
}

pub open spec fn formatted_views(v: Seq<FormattedEntry>) -> Seq<EntryView> {
    v.map_values(|e: FormattedEntry| e@)
}

/// A tree to draw: names, paths and links, in the order to draw them.
#[verifier::ext_equal]
pub struct DisplayView {
    pub name: Seq<char>,
    pub path: Seq<char>,
    pub link: Option<Seq<char>>,
    pub children: Seq<DisplayView>,
}

/// What of a file tree gets drawn.
pub open spec fn plain_display(v: NodeView) -> DisplayView
    decreases v,
{
    DisplayView {
        name: v.name,
        path: v.path,
        link: v.link,
        children: Seq::new(
            v.children.len(),
            |i: int|
                if 0 <= i < v.children.len() {
                    plain_display(v.children[i])
                } else {
                    arbitrary()
                },
        ),
    }
}

/// The drawing for a level above the last one: a rule while the branch goes on.
pub open spec fn pass_segment(is_last: bool) -> Seq<char> {
    if is_last {
        "    "@
    } else {
        "│   "@
    }
}

/// The drawing for the last level: the branch that leads to the entry.
pub open spec fn branch_segment(is_last: bool) -> Seq<char> {
    if is_last {
        "└── "@
    } else {
        "├── "@
    }
}

pub open spec fn passes(stack: Seq<bool>) -> Seq<char>
    decreases stack.len(),
{
    if stack.len() == 0 {
        Seq::empty()
    } else {
        passes(stack.drop_last()) + pass_segment(stack.last())
    }
}

/// The prefix of an entry whose ancestors are, from the top, last among their
/// siblings or not as `stack` says (the entry itself is the last flag).
pub open spec fn prefix_of(stack: Seq<bool>) -> Seq<char> {
    if stack.len() == 0 {
        Seq::empty()
    } else {
        passes(stack.drop_last()) + branch_segment(stack.last())
    }
}

/// The lines of a tree drawn depth-first, the node before its children.
pub open spec fn emit_node(v: DisplayView, stack: Seq<bool>) -> Seq<EntryView>
    decreases v, 0nat,
{
    seq![EntryView { name: v.name, path: v.path, prefix: prefix_of(stack), link: v.link }]
        + emit_children(v.children, v.children.len(), stack)
}

/// The lines of the first `k` of the trees `cs`, siblings below `stack`.
pub open spec fn emit_children(cs: Seq<DisplayView>, k: nat, stack: Seq<bool>) -> Seq<EntryView>
    decreases cs, k,
{
    if k == 0 || k > cs.len() {
        Seq::empty()
    } else {
        emit_children(cs, (k - 1) as nat, stack) + emit_node(cs[k - 1], stack.push(k - 1 == cs.len() - 1))
    }
}

/// The lines of a whole tree.
pub open spec fn drawing(v: DisplayView) -> Seq<EntryView> {
    emit_node(v, Seq::empty())
}

fn make_prefix_from_stack(stack: &[bool]) -> (prefix: String)
    ensures
        prefix@ == prefix_of(stack@),
{
    let mut prefix = String::new();
    if stack.len() == 0 {
        return prefix;
    }
    let n = stack.len() - 1;
    let mut i: usize = 0;
    while i < n
        invariant
            n == stack@.len() - 1,
            i <= n,
            prefix@ == passes(stack@.take(i as int)),
        decreases n - i,
    {
        proof {
            assert(stack@.take(i + 1).drop_last() =~= stack@.take(i as int));
        }
        prefix.append(if stack[i] { "    " } else { "│   " });
        i += 1;
    }
    prefix.append(if stack[n] { "└── " } else { "├── " });
    proof {
        assert(stack@.take(n as int) =~= stack@.drop_last());
    }
    prefix
}


/// A tree laid out for drawing.
struct DisplayNode {
    name: String,
    path: String,
    link: Option<String>,
    children: Vec<DisplayNode>,
}

impl DisplayNode {
    spec fn dview(self) -> DisplayView
        decreases self,
    {
        DisplayView {
            name: self.name@,
            path: self.path@,
            link: option_view(self.link),
            children: Seq::new(
                self.children@.len(),
                |i: int|
                    if 0 <= i < self.children@.len() {
                        self.children@[i].dview()
                    } else {
                        arbitrary()
                    },
            ),
        }
    }
}

fn copy_link(link: &Option<String>) -> (r: Option<String>)
    ensures
        option_view(r) == option_view(*link),
{
    match link {
        Some(l) => Some(l.clone()),
        None => None,
    }
}

fn emit_display_node(node: &DisplayNode, stack: &mut Vec<bool>, result: &mut Vec<FormattedEntry>)
    ensures
        final(stack)@ == old(stack)@,
        formatted_views(final(result)@) == formatted_views(old(result)@) + emit_node(node.dview(), old(stack)@),
    decreases node,
{
    let ghost base = formatted_views(result@);
    let ghost st = stack@;
    let ghost dv = node.dview();
    let prefix = make_prefix_from_stack(stack.as_slice());
    result.push(FormattedEntry {
        name: node.name.clone(),
        path: node.path.clone(),
        prefix,
        link: copy_link(&node.link),
    });
    let ghost head = seq![EntryView { name: dv.name, path: dv.path, prefix: prefix_of(st), link: dv.link }];
    proof {
        assert(formatted_views(result@) =~= base + head);
    }
    let len = node.children.len();
    let mut idx: usize = 0;
    while idx < len
        invariant
            len == node.children@.len(),
            idx <= len,
            stack@ == st,
            dv == node.dview(),
            formatted_views(result@) == base + head + emit_children(dv.children, idx as nat, st),
        decreases len - idx,
    {
        stack.push(idx == len - 1);
        emit_display_node(&node.children[idx], stack, result);
        stack.pop();
        proof {
            assert(dv.children[idx as int] == node.children@[idx as int].dview());
            assert(emit_children(dv.children, (idx + 1) as nat, st) == emit_children(dv.children, idx as nat, st)
                + emit_node(dv.children[idx as int], st.push(idx == len - 1)));
        }
        idx += 1;
    }
    proof {
        assert(base + head + emit_children(dv.children, len as nat, st) =~= base + emit_node(dv, st));
    }
}


#[derive(Debug, Clone, Copy, PartialEq, Eq, Structural)]
enum PrefixSegment {
    ShapeL,
    ShapeT,
    ShapeI,
    Empty,
}

spec fn segment_text(seg: PrefixSegment) -> Seq<char> {
    match seg {
        PrefixSegment::ShapeL => "└── "@,
        PrefixSegment::ShapeT => "├── "@,
        PrefixSegment::ShapeI => "│   "@,
        PrefixSegment::Empty => "    "@,
    }
}

fn segment_str(seg: PrefixSegment) -> (s: &'static str)
    ensures
        s@ == segment_text(seg),
{
    match seg {
        PrefixSegment::ShapeL => "└── ",
        PrefixSegment::ShapeT => "├── ",
        PrefixSegment::ShapeI => "│   ",
        PrefixSegment::Empty => "    ",
    }
}

/// `path` leads from the root of `t` down to a node: each next node is the child at
/// `idx` of the one before.
spec fn tree_path(t: FileTree, path: Seq<usize>, idx: Seq<int>) -> bool {
    &&& path.len() == idx.len() + 1
    &&& path[0] == t.root_id
    &&& forall|j: int| 0 <= j < path.len() ==> t.files().dom().contains(#[trigger] path[j])
    &&& forall|j: int|
        0 <= j < idx.len() ==> 0 <= #[trigger] idx[j] < t.files()[path[j]].entries().len()
            && t.files()[path[j]].entries()[idx[j]].1 == path[j + 1]
}

/// Along `path`, which nodes are the last child of their parent.
spec fn path_stack(t: FileTree, path: Seq<usize>, idx: Seq<int>) -> Seq<bool> {
    Seq::new(idx.len(), |j: int| idx[j] == t.files()[path[j]].entries().len() - 1)
}

/// The count kept for each node of `path` above the last is how many of its
/// children were drawn: all up to the path for the upper ones, those before the
/// path for the parent of the last node.
spec fn history_ok(h: Map<usize, usize>, path: Seq<usize>, idx: Seq<int>) -> bool {
    forall|j: int|
        0 <= j < idx.len() ==> h.contains_key(#[trigger] path[j]) && h[path[j]] == idx[j] + (if j
            < idx.len() - 1 {
            1int
        } else {
            0int
        })
}

proof fn lemma_path_parents(t: FileTree, path: Seq<usize>, idx: Seq<int>, j: int)
    requires
        t.wf(),
        tree_path(t, path, idx),
        0 <= j < path.len(),
    ensures
        j == 0 ==> t.files()[path[j]].parent is None,
        j > 0 ==> t.files()[path[j]].parent == Some(path[j - 1]),
        j > 0 ==> t.rank@[path[j - 1]] < t.rank@[path[j]],
        t.rank@.dom().contains(path[j]),
{
    assert(t.files().dom().contains(path[j]));
    assert(t.node_wf(path[j]));
    if j > 0 {
        assert(t.files().dom().contains(path[j - 1]));
        assert(t.node_wf(path[j - 1]));
        assert(0 <= idx[j - 1] < t.files()[path[j - 1]].entries().len());
    }
}

proof fn lemma_path_ranks(t: FileTree, path: Seq<usize>, idx: Seq<int>, i: int, j: int)
    requires
        t.wf(),
        tree_path(t, path, idx),
        0 <= i < j < path.len(),
    ensures
        t.rank@[path[i]] < t.rank@[path[j]],
    decreases j - i,
{
    lemma_path_parents(t, path, idx, j);
    if i < j - 1 {
        lemma_path_ranks(t, path, idx, i, j - 1);
    }
}

fn make_prefix(
    tree: &FileTree,
    file: &File,
    format_history: &HashMap<usize, usize>,
    Ghost(path): Ghost<Seq<usize>>,
    Ghost(idx): Ghost<Seq<int>>,
) -> (prefix: String)
    requires
        tree.wf(),
        tree_path(*tree, path, idx),
        *file == *tree.files()[path.last()],
        history_ok(format_history@, path, idx),
    ensures
        prefix@ == prefix_of(path_stack(*tree, path, idx)),
{
    let ghost d: int = idx.len() as int;
    let ghost stack = path_stack(*tree, path, idx);
    let mut segments: Vec<PrefixSegment> = Vec::new();
    let mut current = file;
    let ghost mut j: int = d;
    proof {
        lemma_path_parents(*tree, path, idx, d);
    }
    if let Some(ancestor) = tree.get_parent(file) {
        proof {
            assert(ancestor == tree.files()[path[d - 1]]);
            assert(0 <= idx[d - 1] < tree.files()[path[d - 1]].entries().len());
            assert(format_history@.contains_key(path[d - 1]));
            assert(format_history@[path[d - 1]] == idx[d - 1]);
            assert(tree.node_wf(path[d - 1]));
            assert(ancestor.id == path[d - 1]);
        }
        let count = match format_history.get(&ancestor.id) {
            Some(c) => *c,
            None => 0,
        };
        if count >= ancestor.children_count() - 1 {
            segments.push(PrefixSegment::ShapeL);
        } else {
            segments.push(PrefixSegment::ShapeT);
        }
        current = ancestor;
        proof {
            j = d - 1;
            assert(segment_text(segments@[0]) == branch_segment(stack[d - 1]));
        }
    }
    loop
        invariant
            tree.wf(),
            tree_path(*tree, path, idx),
            history_ok(format_history@, path, idx),
            stack == path_stack(*tree, path, idx),
            d == idx.len(),
            0 <= j <= d,
            d > 0 ==> j < d,
            *current == *tree.files()[path[j]],
            d == 0 ==> segments@.len() == 0,
            d > 0 ==> segments@.len() == d - j,
            d > 0 ==> segment_text(segments@[0]) == branch_segment(stack[d - 1]),
            forall|q: int| 1 <= q < segments@.len() ==> segment_text(#[trigger] segments@[q]) == pass_segment(stack[d - 1 - q]),
        ensures
            j == 0,
        decreases j,
    {
        proof {
            lemma_path_parents(*tree, path, idx, j);
        }
        match tree.get_parent(current) {
            Some(ancestor) => {
                proof {
                    assert(ancestor == tree.files()[path[j - 1]]);
                    assert(0 <= idx[j - 1] < tree.files()[path[j - 1]].entries().len());
                    assert(format_history@.contains_key(path[j - 1]));
                    assert(format_history@[path[j - 1]] == idx[j - 1] + 1);
                    assert(tree.node_wf(path[j - 1]));
                    assert(ancestor.id == path[j - 1]);
                }
                let count = match format_history.get(&ancestor.id) {
                    Some(c) => *c,
                    None => 0,
                };
                if count == ancestor.children_count() {
                    segments.push(PrefixSegment::Empty);
                } else {
                    segments.push(PrefixSegment::ShapeI);
                }
                current = ancestor;
                proof {
                    assert(segment_text(segments@[segments@.len() - 1]) == pass_segment(stack[j - 1]));
                    j = j - 1;
                }
            },
            None => {
                break;
            },
        }
    }
    let mut prefix = String::new();
    let mut i = segments.len();
    while i > 0
        invariant
            i <= segments@.len(),
            d == 0 ==> segments@.len() == 0,
            d > 0 ==> segments@.len() == d,
            d > 0 ==> segment_text(segments@[0]) == branch_segment(stack[d - 1]),
            forall|q: int| 1 <= q < segments@.len() ==> segment_text(#[trigger] segments@[q]) == pass_segment(stack[d - 1 - q]),
            stack.len() == d,
            i >= 1 ==> prefix@ == passes(stack.take(d - i)),
            i == 0 ==> prefix@ == prefix_of(stack),
        decreases i,
    {
        i -= 1;
        prefix.append(segment_str(segments[i]));
        proof {
            if i >= 1 {
                assert(stack.take(d - i).drop_last() =~= stack.take(d - i - 1));
                assert(segment_text(segments@[i as int]) == pass_segment(stack[d - 1 - i]));
            } else {
                assert(stack.take(d - 1) =~= stack.drop_last());
            }
        }
    }
    proof {
        if d == 0 {
            assert(stack.len() == 0);
        }
    }
    prefix
}


proof fn lemma_extend_path(t: FileTree, path: Seq<usize>, idx: Seq<int>, k: int)
    requires
        t.wf(),
        tree_path(t, path, idx),
        0 <= k < t.files()[path.last()].entries().len(),
    ensures
        tree_path(t, path.push(t.files()[path.last()].entries()[k].1), idx.push(k)),
        path_stack(t, path.push(t.files()[path.last()].entries()[k].1), idx.push(k)) == path_stack(t, path, idx).push(
            k == t.files()[path.last()].entries().len() - 1,
        ),
{
    let x = path.last();
    let c = t.files()[x].entries()[k].1;
    let path2 = path.push(c);
    let idx2 = idx.push(k);
    assert(t.files().dom().contains(x));
    assert(t.node_wf(x));
    assert forall|j: int| 0 <= j < path2.len() implies t.files().dom().contains(#[trigger] path2[j]) by {
        if j < path.len() {
            assert(path2[j] == path[j]);
        }
    }
    assert forall|j: int| 0 <= j < idx2.len() implies 0 <= #[trigger] idx2[j] < t.files()[path2[j]].entries().len()
        && t.files()[path2[j]].entries()[idx2[j]].1 == path2[j + 1] by {
        if j < idx.len() {
            assert(idx2[j] == idx[j]);
            assert(path2[j] == path[j]);
            assert(path2[j + 1] == path[j + 1]);
        }
    }
    assert(path_stack(t, path2, idx2) =~= path_stack(t, path, idx).push(k == t.files()[x].entries().len() - 1));
}

/// Drawing the subtree at the end of `path` changes no count but those of that
/// subtree and of its parent.
spec fn history_frame(t: FileTree, h0: Map<usize, usize>, h1: Map<usize, usize>, path: Seq<usize>, idx: Seq<int>) -> bool {
    forall|key: usize|
        !(idx.len() > 0 && key == path[idx.len() - 1]) && !t.anc_or_self(path.last(), key)
            ==> (#[trigger] h1.contains_key(key) == h0.contains_key(key))
            && (h0.contains_key(key) ==> h1[key] == h0[key])
}

/// Counts for the nodes of the path above `x` once `x`'s count is in place too.
spec fn counts_above(h: Map<usize, usize>, path: Seq<usize>, idx: Seq<int>) -> bool {
    forall|j: int| 0 <= j < idx.len() ==> h.contains_key(#[trigger] path[j]) && h[path[j]] == idx[j] + 1
}

proof fn lemma_history_extend(t: FileTree, h: Map<usize, usize>, path: Seq<usize>, idx: Seq<int>, k: int)
    requires
        t.wf(),
        tree_path(t, path, idx),
        0 <= k < t.files()[path.last()].entries().len(),
        counts_above(h, path, idx),
        h.contains_key(path.last()),
        h[path.last()] == k,
    ensures
        history_ok(h, path.push(t.files()[path.last()].entries()[k].1), idx.push(k)),
{
    let path2 = path.push(t.files()[path.last()].entries()[k].1);
    let idx2 = idx.push(k);
    assert forall|j: int| 0 <= j < idx2.len() implies h.contains_key(#[trigger] path2[j]) && h[path2[j]] == idx2[j] + (if j < idx2.len() - 1 { 1int } else { 0int }) by {
        if j < idx.len() {
            assert(path2[j] == path[j]);
        }
    }
}

/// What drawing the subtree of child `k` leaves of the counts: those above stay.
#[verifier::spinoff_prover]
proof fn lemma_history_after_child(
    t: FileTree,
    h0: Map<usize, usize>,
    hk: Map<usize, usize>,
    h: Map<usize, usize>,
    path: Seq<usize>,
    idx: Seq<int>,
    k: int,
)
    requires
        t.wf(),
        tree_path(t, path, idx),
        0 <= k < t.files()[path.last()].entries().len(),
        counts_above(hk, path, idx),
        history_frame(t, h0, hk, path, idx),
        forall|key: usize|
            key != path.last() && !t.anc_or_self(t.files()[path.last()].entries()[k].1, key)
                ==> (#[trigger] h.contains_key(key) == hk.contains_key(key))
                && (hk.contains_key(key) ==> h[key] == hk[key]),
    ensures
        counts_above(h, path, idx),
        history_frame(t, h0, h, path, idx),
{
    let x = path.last();
    let d = idx.len() as int;
    let c = t.files()[x].entries()[k].1;
    assert(t.files().dom().contains(x));
    assert(t.node_wf(x));
    assert(t.node_wf(c));
    assert forall|j: int| 0 <= j < d implies h.contains_key(#[trigger] path[j]) && h[path[j]] == idx[j] + 1 by {
        lemma_path_ranks(t, path, idx, j, d);
        if t.anc_or_self(c, path[j]) {
            t.lemma_anc_rank(c, path[j]);
        }
    }
    assert forall|key: usize|
        !(d > 0 && key == path[d - 1]) && !t.anc_or_self(x, key)
            implies (#[trigger] h.contains_key(key) == h0.contains_key(key))
            && (h0.contains_key(key) ==> h[key] == h0[key]) by {
        assert(t.anc_or_self(x, x));
        if t.anc_or_self(c, key) {
            t.lemma_anc_parent(c, x, key);
        }
    }
}

/// The counts right after `x` itself is drawn.
proof fn lemma_history_start(t: FileTree, h0: Map<usize, usize>, h1: Map<usize, usize>, path: Seq<usize>, idx: Seq<int>)
    requires
        t.wf(),
        tree_path(t, path, idx),
        history_ok(h0, path, idx),
        idx.len() > 0 ==> idx.last() < usize::MAX,
        idx.len() > 0 ==> h1 == ({
            let hp = h0.insert(path[idx.len() - 1], (h0[path[idx.len() - 1]] + 1) as usize);
            if t.files()[path.last()].file_type == FileType::Directory {
                hp.insert(path.last(), 0)
            } else {
                hp
            }
        }),
        idx.len() == 0 ==> h1 == (if t.files()[path.last()].file_type == FileType::Directory {
            h0.insert(path.last(), 0)
        } else {
            h0
        }),
    ensures
        counts_above(h1, path, idx),
        t.files()[path.last()].file_type == FileType::Directory ==> h1.contains_key(path.last()) && h1[path.last()] == 0,
        history_frame(t, h0, h1, path, idx),
        idx.len() > 0 ==> h1.contains_key(path[idx.len() - 1]) && h1[path[idx.len() - 1]] == h0[path[idx.len() - 1]] + 1,
{
    let d = idx.len() as int;
    let x = path.last();
    assert(t.anc_or_self(x, x));
    if d > 0 {
        lemma_path_ranks(t, path, idx, d - 1, d);
    }
    assert forall|j: int| 0 <= j < d implies h1.contains_key(#[trigger] path[j]) && h1[path[j]] == idx[j] + 1 by {
        lemma_path_ranks(t, path, idx, j, d);
        if j < d - 1 {
            lemma_path_ranks(t, path, idx, j, d - 1);
        }
    }
}

#[verifier::spinoff_prover]
fn format_file(
    tree: &FileTree,
    file: &File,
    format_history: &mut HashMap<usize, usize>,
    result: &mut Vec<FormattedEntry>,
    Ghost(path): Ghost<Seq<usize>>,
    Ghost(idx): Ghost<Seq<int>>,
)
    requires
        tree.wf(),
        tree_path(*tree, path, idx),
        *file == *tree.files()[path.last()],
        history_ok(old(format_history)@, path, idx),
        idx.len() > 0 ==> idx.last() < usize::MAX,
    ensures
        formatted_views(final(result)@) == formatted_views(old(result)@) + emit_node(
            plain_display(tree.node_view(path.last())),
            path_stack(*tree, path, idx),
        ),
        idx.len() > 0 ==> final(format_history)@.contains_key(path[idx.len() - 1])
            && final(format_history)@[path[idx.len() - 1]] == old(format_history)@[path[idx.len() - 1]] + 1,
        history_frame(*tree, old(format_history)@, final(format_history)@, path, idx),
    decreases tree.rank_bound@ - tree.rank@[path.last()],
{
    let ghost d: int = idx.len() as int;
    let ghost x = path.last();
    let ghost h0 = format_history@;
    let ghost stack = path_stack(*tree, path, idx);
    let ghost base = formatted_views(result@);
    let ghost dv = plain_display(tree.node_view(x));
    proof {
        lemma_path_parents(*tree, path, idx, d);
        assert(tree.files().dom().contains(x));
        assert(tree.node_wf(x));
        tree.lemma_view_children(x);
        assert(h0 == old(format_history)@);
    }
    let prefix = make_prefix(tree, file, format_history, Ghost(path), Ghost(idx));
    result.push(FormattedEntry {
        name: file.display_name.clone(),
        path: file.path.clone(),
        prefix,
        link: file.link(),
    });
    let ghost head = seq![EntryView { name: dv.name, path: dv.path, prefix: prefix_of(stack), link: dv.link }];
    proof {
        assert(formatted_views(result@) =~= base + head);
    }
    if let Some(parent) = tree.get_parent(file) {
        proof {
            assert(tree.node_wf(path[d - 1]));
            assert(parent.id == path[d - 1]);
            assert(format_history@.contains_key(path[d - 1]));
        }
        match format_history.get(&parent.id) {
            Some(n) => {
                let n = *n;
                format_history.insert(parent.id, n + 1);
            },
            None => {},
        }
    }
    if file.file_type == FileType::Directory {
        format_history.insert(file.id, 0);
    }
    let ghost h1 = format_history@;
    proof {
        lemma_history_start(*tree, h0, h1, path, idx);
    }
    if let Some(children) = file.children() {
        let entries = child_map_entries(children);
        let ghost es = tree.files()[x].entries();
        let mut k: usize = 0;
        while k < entries.len()
            invariant
                tree.wf(),
                tree_path(*tree, path, idx),
                d == idx.len(),
                x == path.last(),
                tree.files()[x].entries() == es,
                entries@.len() == es.len(),
                forall|q: int| 0 <= q < entries@.len() ==> (#[trigger] entries@[q]).1 == es[q].1,
                dv == plain_display(tree.node_view(x)),
                dv.children.len() == es.len(),
                forall|q: int| 0 <= q < es.len() ==> #[trigger] dv.children[q] == plain_display(tree.node_view(es[q].1)),
                stack == path_stack(*tree, path, idx),
                k <= entries.len(),
                format_history@.contains_key(x) && format_history@[x] == k,
                counts_above(format_history@, path, idx),
                history_frame(*tree, h0, format_history@, path, idx),
                d > 0 ==> format_history@.contains_key(path[d - 1]) && format_history@[path[d - 1]] == h0[path[d - 1]] + 1,
                formatted_views(result@) == base + head + emit_children(dv.children, k as nat, stack),
            decreases entries.len() - k,
        {
            let child_id = entries[k].1;
            let ghost path2 = path.push(child_id);
            let ghost idx2 = idx.push(k as int);
            let ghost hk = format_history@;
            proof {
                lemma_extend_path(*tree, path, idx, k as int);
                lemma_history_extend(*tree, hk, path, idx, k as int);
                assert(tree.node_wf(x));
                assert(tree.files().dom().contains(child_id));
                assert(tree.node_wf(child_id));
                assert(tree.rank@[x] < tree.rank@[child_id]);
            }
            let child = tree.get(child_id);
            format_file(tree, child, format_history, result, Ghost(path2), Ghost(idx2));
            proof {
                assert(path2.last() == child_id);
                assert(path2[idx2.len() - 1] == x);
                lemma_history_after_child(*tree, h0, hk, format_history@, path, idx, k as int);
                if d > 0 {
                    lemma_path_ranks(*tree, path, idx, d - 1, d);
                    assert(tree.node_wf(child_id));
                    if tree.anc_or_self(child_id, path[d - 1]) {
                        tree.lemma_anc_rank(child_id, path[d - 1]);
                    }
                }
                assert(emit_children(dv.children, (k + 1) as nat, stack) == emit_children(dv.children, k as nat, stack)
                    + emit_node(dv.children[k as int], stack.push(k == dv.children.len() - 1)));
                assert(formatted_views(result@) =~= base + head + emit_children(dv.children, (k + 1) as nat, stack));
            }
            k += 1;
        }
        proof {
            assert(base + head + emit_children(dv.children, es.len() as nat, stack) =~= base + emit_node(dv, stack));
        }
    } else {
        proof {
            assert(dv.children.len() == 0);
            assert(base + head =~= base + emit_node(dv, stack));
            assert(format_history@ == h1);
        }
    }
}

/// The lines that draw a tree: every node once, after its parent and its earlier
/// siblings, in the order of the directories' entries.
pub fn format_tree(tree: &FileTree) -> (r: Vec<FormattedEntry>)
    requires
        tree.wf(),
    ensures
        formatted_views(r@) == drawing(plain_display(tree.view())),
{
    let mut history: HashMap<usize, usize> = HashMap::new();
    let mut result: Vec<FormattedEntry> = Vec::new();
    let root = tree.get_root();
    let ghost path = seq![tree.root_id];
    let ghost idx = Seq::<int>::empty();
    proof {
        assert(tree_path(*tree, path, idx));
        assert(path_stack(*tree, path, idx) =~= Seq::<bool>::empty());
        assert(formatted_views(result@) =~= Seq::<EntryView>::empty());
    }
    format_file(tree, root, &mut history, &mut result, Ghost(path), Ghost(idx));
    proof {
        assert(formatted_views(result@) =~= drawing(plain_display(tree.view())));
    }
    result
}

/// Builds the tree of the listed paths below `root_path` and draws it.
pub fn format_paths(root_path: &str, children: Vec<(String, FileType, Option<String>)>) -> (r: Vec<FormattedEntry>)
    requires
        forall|i: int| 0 <= i < children@.len() && (#[trigger] children@[i]).1 == FileType::Link ==> children@[i].2 is Some,
    ensures
        formatted_views(r@) == drawing(plain_display(built_tree(root_path@, entry_views(children@)))),
{
    match FileTree::new(root_path, children) {
        Some(tree) => format_tree(&tree),
        None => Vec::new(),
    }
}


// ---------------------------------------------------------------------------
// Drawing within a line budget.
// ---------------------------------------------------------------------------

/// A directory whose only child is a directory.
pub open spec fn is_skinny_view(v: NodeView) -> bool {
    v.child_dir_count == 1 && v.child_file_count == 0
}

/// The chain from `v` down through skinny directories, each the only child of the
/// one before; it ends at the first node that is not a skinny directory.
pub open spec fn skinny_chain(v: NodeView) -> Seq<NodeView>
    decreases v,
{
    if v.file_type == FileType::Directory && is_skinny_view(v) && v.children.len() > 0 {
        seq![v] + skinny_chain(v.children[0])
    } else {
        seq![v]
    }
}

pub open spec fn join_names(names: Seq<Seq<char>>) -> Seq<char>
    decreases names.len(),
{
    if names.len() == 0 {
        Seq::empty()
    } else if names.len() == 1 {
        names[0]
    } else {
        join_names(names.drop_last()) + "/"@ + names.last()
    }
}

/// The one-line label of a chain: the name of its only node, or the names joined
/// by `/` with a trailing `/`.
pub open spec fn skinny_label(names: Seq<Seq<char>>) -> Seq<char> {
    if names.len() == 0 {
        Seq::empty()
    } else if names.len() == 1 {
        names[0]
    } else {
        join_names(names) + "/"@
    }
}

pub open spec fn chain_names(chain: Seq<NodeView>) -> Seq<Seq<char>> {
    chain.map_values(|c: NodeView| c.name)
}

/// How much a child is worth showing: directories by their size and number of
/// subdirectories, anything else a little.
pub open spec fn score_of(v: NodeView) -> nat {
    if v.file_type == FileType::Directory {
        v.total_descendants + v.child_dir_count * 4 + 3
    } else {
        1
    }
}

/// The number of lines `v` takes when drawn whole, skinny chains on one line.
pub open spec fn planned(v: NodeView) -> nat
    decreases v, 1int,
{
    if v.file_type == FileType::Directory {
        1 + planned_below(v)
    } else {
        1
    }
}

/// The lines taken by the children of the end of `v`'s skinny chain.
pub open spec fn planned_below(v: NodeView) -> nat
    decreases v, 0int,
{
    if v.file_type == FileType::Directory && is_skinny_view(v) && v.children.len() > 0 {
        planned_below(v.children[0])
    } else {
        planned_sum(v.children)
    }
}

pub open spec fn planned_sum(cs: Seq<NodeView>) -> nat
    decreases cs, 0int,
{
    if cs.len() == 0 {
        0
    } else {
        planned_sum(cs.drop_last()) + planned(cs.last())
    }
}

/// A line that says how many entries are not shown.
pub open spec fn hidden_note(n: nat) -> Seq<char> {
    "… ("@ + decimal_spec(n) + " entries)"@
}

pub open spec fn with_count(label: Seq<char>, n: nat) -> Seq<char> {
    label + " … ("@ + decimal_spec(n) + " entries)"@
}

pub open spec fn summary_view(n: nat) -> DisplayView {
    DisplayView { name: hidden_note(n), path: Seq::empty(), link: None, children: Seq::empty() }
}

/// Sort key of a child: by score, larger first, then by name.
pub open spec fn key_before(a: (nat, Seq<char>), b: (nat, Seq<char>)) -> bool {
    a.0 > b.0 || (a.0 == b.0 && name_lt(a.1, b.1))
}

/// Positions ordered by the keys at them, equal keys in their order (a stable sort).
pub open spec fn position_leq(keys: Seq<(nat, Seq<char>)>) -> spec_fn(usize, usize) -> bool {
    |i: usize, j: usize| key_before(keys[i as int], keys[j as int]) || (keys[i as int] == keys[j as int] && i <= j)
}

pub open spec fn child_keys(cs: Seq<NodeView>) -> Seq<(nat, Seq<char>)> {
    cs.map_values(|c: NodeView| (score_of(c), c.name))
}

pub open spec fn positions(n: nat) -> Seq<usize> {
    Seq::new(n, |i: int| i as usize)
}

/// The children in the order they are offered lines.
pub open spec fn sorted_children(cs: Seq<NodeView>) -> Seq<NodeView> {
    positions(cs.len()).sort_by(position_leq(child_keys(cs))).map_values(|p: usize| cs[p as int])
}

/// The nodes drawn on a directory's line: its skinny chain where chains collapse
/// (everywhere below the root), else the directory alone.
pub open spec fn chain_of(v: NodeView, collapse: bool) -> Seq<NodeView> {
    if collapse {
        skinny_chain(v)
    } else {
        seq![v]
    }
}

/// The lines `v` takes when drawn whole, its own skinny chain collapsed or not.
pub open spec fn planned_from(v: NodeView, collapse: bool) -> nat {
    if collapse {
        planned(v)
    } else if v.file_type == FileType::Directory {
        1 + planned_sum(v.children)
    } else {
        1
    }
}

/// The lines offered to a child when `remaining` are free and `later` siblings come
/// after it: never more than it needs, and never so many that a later sibling is
/// left without a line of its own; once there are no more lines than later
/// siblings, each gets one.
pub open spec fn child_budget(remaining: nat, later: nat, needed: nat) -> nat {
    if remaining > later {
        let spare = (remaining - later) as nat;
        if spare <= needed {
            spare
        } else {
            needed
        }
    } else {
        1
    }
}

/// How `v` is drawn in at most `budget` lines, with the lines used, the number of
/// entries left out and the number of nodes given a line (all the nodes of a
/// collapsed chain share one): a directory shows its name (below the root, its whole skinny
/// chain) on one line, then its children by score while lines remain, each offered
/// the lines of `child_budget`; what does not fit is counted, on a line of its own
/// if one is left, else after the directory's name.
pub open spec fn render(v: NodeView, budget: nat, collapse: bool) -> (DisplayView, nat, nat, nat)
    decreases 2 * size(v) + 1, 0int,
{
    if v.file_type == FileType::Directory {
        let chain = chain_of(v, collapse);
        let t = chain.last();
        let label = skinny_label(chain_names(chain));
        if budget == 1 {
            let hidden = t.total_descendants;
            (
                DisplayView {
                    name: if hidden > 0 { with_count(label, hidden) } else { label },
                    path: t.path,
                    link: t.link,
                    children: Seq::empty(),
                },
                1nat,
                hidden,
                chain.len(),
            )
        } else {
            let cs = sorted_children(t.children);
            let r = render_fold(cs, cs.len(), (budget - 1) as nat, size(v));
            let kids = r.0;
            let remaining = r.1;
            let used = r.2;
            let hidden = r.3;
            let shown = chain.len() + r.4;
            if hidden > 0 && remaining > 0 {
                (
                    DisplayView { name: label, path: t.path, link: t.link, children: kids.push(summary_view(hidden)) },
                    used + 2,
                    hidden,
                    shown,
                )
            } else if hidden > 0 {
                (
                    DisplayView { name: with_count(label, hidden), path: t.path, link: t.link, children: kids },
                    used + 1,
                    hidden,
                    shown,
                )
            } else {
                (DisplayView { name: label, path: t.path, link: t.link, children: kids }, used + 1, hidden, shown)
            }
        }
    } else {
        (DisplayView { name: v.name, path: v.path, link: v.link, children: Seq::empty() }, 1nat, 0nat, 1nat)
    }
}

/// The first `k` children of `cs` offered lines from a budget of `start`: the
/// drawings made, the lines still free, the lines used, the entries left out and
/// the nodes given a line.
pub open spec fn render_fold(cs: Seq<NodeView>, k: nat, start: nat, bound: nat) -> (Seq<DisplayView>, nat, nat, nat, nat)
    decreases 2 * bound, k as int,
{
    if k == 0 || k > cs.len() {
        (Seq::empty(), start, 0nat, 0nat, 0nat)
    } else {
        let prev = render_fold(cs, (k - 1) as nat, start, bound);
        let c = cs[k - 1];
        if prev.1 == 0 {
            (prev.0, prev.1, prev.2, prev.3 + 1 + c.total_descendants, prev.4)
        } else if size(c) < bound {
            let cb = child_budget(prev.1, (cs.len() - k) as nat, planned(c));
            let r = render(c, cb, true);
            (
                prev.0.push(r.0),
                if prev.1 >= r.1 { (prev.1 - r.1) as nat } else { 0nat },
                prev.2 + r.1,
                prev.3 + r.2,
                prev.4 + r.3,
            )
        } else {
            arbitrary()
        }
    }
}

/// The lines drawn for a tree within `max_lines`, the root on a line of its own.
pub open spec fn smart_drawing(v: NodeView, max_lines: nat) -> Seq<EntryView> {
    if max_lines == 0 {
        Seq::empty()
    } else {
        let d = drawing(render(v, max_lines, false).0);
        if d.len() > max_lines {
            d.take(max_lines as int)
        } else {
            d
        }
    }
}


proof fn lemma_consistent_skinny(v: NodeView)
    requires
        metadata_consistent(v),
        is_skinny_view(v),
    ensures
        v.children.len() == 1,
        v.children[0].file_type == FileType::Directory,
{
    crate::file_tree::lemma_dir_count_le(v.children);
    if v.children.len() == 0 {
    }
    lemma_dir_count_one(v.children);
}

proof fn lemma_dir_count_one(cs: Seq<NodeView>)
    requires
        dir_count(cs) == 1,
        cs.len() == 1,
    ensures
        cs[0].file_type == FileType::Directory,
{
    assert(cs.drop_last().len() == 0);
    assert(dir_count(cs.drop_last()) == 0);
    assert(cs.last() == cs[0]);
}

/// Following the skinny chain of a consistent tree.
proof fn lemma_chain_step(v: NodeView)
    requires
        metadata_consistent(v),
    ensures
        skinny_chain(v).len() >= 1,
        skinny_chain(v)[0] == v,
        v.file_type == FileType::Directory && is_skinny_view(v) ==> v.children.len() == 1
            && skinny_chain(v) == seq![v] + skinny_chain(v.children[0]),
        !(v.file_type == FileType::Directory && is_skinny_view(v)) ==> skinny_chain(v) == seq![v],
{
    if v.file_type == FileType::Directory && is_skinny_view(v) {
        lemma_consistent_skinny(v);
    }
}

/// The end of a consistent tree's skinny chain is a consistent tree no larger, and
/// what lies below it is what `planned_below` counts.
proof fn lemma_chain_end(v: NodeView)
    requires
        metadata_consistent(v),
    ensures
        metadata_consistent(skinny_chain(v).last()),
        size(skinny_chain(v).last()) <= size(v),
        planned_below(v) == planned_sum(skinny_chain(v).last().children),
        v.file_type == FileType::Directory ==> skinny_chain(v).last().file_type == FileType::Directory,
    decreases v,
{
    lemma_chain_step(v);
    if v.file_type == FileType::Directory && is_skinny_view(v) {
        let c = v.children[0];
        assert(metadata_consistent(c));
        lemma_chain_end(c);
        assert(skinny_chain(v).last() == skinny_chain(c).last());
        crate::file_tree::lemma_sizes_le_one(v.children, 0);
        lemma_consistent_skinny(v);
    }
}

/// `chain` lists the nodes of the skinny chain of `id`, from `id` itself down, each
/// the only child of the one before.
#[verifier::opaque]
pub open spec fn lists_chain(tree: FileTree, id: usize, chain: Seq<&File>) -> bool {
    &&& chain.len() == skinny_chain(tree.node_view(id)).len()
    &&& chain[0].id == id
    &&& forall|i: int| 0 <= i < chain.len() ==> {
        &&& tree.files().dom().contains((#[trigger] chain[i]).id)
        &&& *chain[i] == *tree.files()[chain[i].id]
        &&& tree.node_view(chain[i].id) == skinny_chain(tree.node_view(id))[i]
    }
    &&& forall|i: int| 0 <= i < chain.len() - 1 ==> (#[trigger] chain[i].entries()).len() == 1
        && chain[i].entries()[0].1 == chain[i + 1].id
}

/// The end of the nodes on a directory's line, whether chains collapse or not.
proof fn lemma_chain_of_end(v: NodeView, collapse: bool)
    requires
        metadata_consistent(v),
    ensures
        chain_of(v, collapse).len() >= 1,
        chain_of(v, collapse)[0] == v,
        metadata_consistent(chain_of(v, collapse).last()),
        size(chain_of(v, collapse).last()) <= size(v),
        v.file_type == FileType::Directory ==> chain_of(v, collapse).last().file_type == FileType::Directory
            && planned_from(v, collapse) == 1 + planned_sum(chain_of(v, collapse).last().children),
        !collapse ==> chain_of(v, collapse).last() == v,
{
    if collapse {
        lemma_chain_step(v);
        lemma_chain_end(v);
    }
}

/// A skinny chain as the nodes that make it up, and where it ends.
fn collapse_skinny_path<'a>(tree: &'a FileTree, id: usize) -> (r: (Vec<&'a File>, usize))
    requires
        tree.wf(),
        tree.files().dom().contains(id),
        metadata_consistent(tree.node_view(id)),
    ensures
        r.0@.len() == skinny_chain(tree.node_view(id)).len(),
        forall|i: int| 0 <= i < r.0@.len() ==> (#[trigger] r.0@[i]).display_name@ == skinny_chain(tree.node_view(id))[i].name,
        lists_chain(*tree, id, r.0@),
        r.1 == r.0@.last().id,
        tree.files().dom().contains(r.1),
        tree.node_view(r.1) == skinny_chain(tree.node_view(id)).last(),
        tree.rank@[id] <= tree.rank@[r.1],
{
    let ghost ch = skinny_chain(tree.node_view(id));
    let mut chain: Vec<&File> = Vec::new();
    let mut current = tree.get(id);
    let ghost mut cur_id = id;
    let ghost mut done: Seq<NodeView> = Seq::empty();
    chain.push(current);
    proof {
        assert(tree.node_wf(id));
        lemma_chain_step(tree.node_view(id));
        assert(ch == done + skinny_chain(tree.node_view(cur_id)));
    }
    while current.file_type == FileType::Directory
        invariant
            tree.wf(),
            tree.files().dom().contains(cur_id),
            *current == *tree.files()[cur_id],
            tree.rank@[id] <= tree.rank@[cur_id],
            tree.rank@.dom().contains(cur_id),
            tree.rank@[cur_id] < tree.rank_bound@,
            metadata_consistent(tree.node_view(cur_id)),
            ch == done + skinny_chain(tree.node_view(cur_id)),
            chain@.len() == done.len() + 1,
            chain@[0].id == id,
            chain@[done.len() as int] == current,
            current.id == cur_id,
            forall|i: int| 0 <= i < chain@.len() ==> {
                &&& tree.files().dom().contains((#[trigger] chain@[i]).id)
                &&& *chain@[i] == *tree.files()[chain@[i].id]
            },
            forall|i: int| 0 <= i < done.len() ==> tree.node_view((#[trigger] chain@[i]).id) == done[i],
            forall|i: int| 0 <= i < done.len() ==> (#[trigger] chain@[i].entries()).len() == 1
                && chain@[i].entries()[0].1 == chain@[i + 1].id,
        ensures
            tree.files().dom().contains(cur_id),
            *current == *tree.files()[cur_id],
            tree.rank@[id] <= tree.rank@[cur_id],
            ch == done + skinny_chain(tree.node_view(cur_id)),
            skinny_chain(tree.node_view(cur_id)) == seq![tree.node_view(cur_id)],
            chain@.len() == done.len() + 1,
            chain@[0].id == id,
            chain@[done.len() as int] == current,
            current.id == cur_id,
            forall|i: int| 0 <= i < chain@.len() ==> {
                &&& tree.files().dom().contains((#[trigger] chain@[i]).id)
                &&& *chain@[i] == *tree.files()[chain@[i].id]
            },
            forall|i: int| 0 <= i < done.len() ==> tree.node_view((#[trigger] chain@[i]).id) == done[i],
            forall|i: int| 0 <= i < done.len() ==> (#[trigger] chain@[i].entries()).len() == 1
                && chain@[i].entries()[0].1 == chain@[i + 1].id,
        decreases tree.rank_bound@ - tree.rank@[cur_id],
    {
        let ghost v = tree.node_view(cur_id);
        proof {
            assert(tree.node_wf(cur_id));
            lemma_chain_step(v);
            tree.lemma_view_children(cur_id);
        }
        if !current.is_skinny() {
            break;
        }
        if let Some(children) = current.children() {
            let entries = child_map_entries(children);
            proof {
                lemma_consistent_skinny(v);
            }
            let next_id = entries[0].1;
            let ghost prev_chain = chain@;
            current = tree.get(next_id);
            chain.push(current);
            proof {
                let c = tree.files()[cur_id].entries()[0].1;
                assert(c == next_id);
                assert(tree.node_wf(c));
                assert(tree.files()[cur_id].entries().len() == 1);
                assert(chain@[done.len() as int] == prev_chain[done.len() as int]);
                assert forall|i: int| 0 <= i < chain@.len() implies {
                    &&& tree.files().dom().contains((#[trigger] chain@[i]).id)
                    &&& *chain@[i] == *tree.files()[chain@[i].id]
                } by {
                    if i < prev_chain.len() {
                        assert(chain@[i] == prev_chain[i]);
                    }
                }
                assert(v.children[0] == tree.node_view(c));
                assert(metadata_consistent(v.children[0]));
                done = done.push(v);
                cur_id = next_id;
                assert(ch =~= done + skinny_chain(tree.node_view(cur_id)));
            }
        } else {
            proof {
                assert(tree.files()[cur_id].kind_matches());
            }
            break;
        }
    }
    proof {
        assert(tree.node_wf(cur_id));
        assert(ch.last() == tree.node_view(cur_id));
        reveal(lists_chain);
        assert forall|i: int| 0 <= i < chain@.len() implies tree.node_view((#[trigger] chain@[i]).id) == ch[i] by {
            if i < done.len() {
                assert(ch[i] == done[i]);
            } else {
                assert(ch[i] == tree.node_view(cur_id));
            }
        }
    }
    (chain, current.id)
}

fn build_skinny_label(chain: &Vec<&File>) -> (label: String)
    ensures
        label@ == skinny_label(chain@.map_values(|f: &File| f.display_name@)),
{
    let ghost names = chain@.map_values(|f: &File| f.display_name@);
    if chain.len() <= 1 {
        if chain.len() == 1 {
            return chain[0].display_name.clone();
        }
        return String::new();
    }
    let mut label = chain[0].display_name.clone();
    let mut i: usize = 1;
    while i < chain.len()
        invariant
            1 <= i <= chain@.len(),
            names == chain@.map_values(|f: &File| f.display_name@),
            label@ == join_names(names.take(i as int)),
        decreases chain.len() - i,
    {
        proof {
            assert(names.take(i + 1).drop_last() =~= names.take(i as int));
            if i == 1 {
                assert(names.take(1) =~= seq![names[0]]);
            }
        }
        label.append("/");
        label.append(chain[i].display_name.as_str());
        i += 1;
    }
    label.append("/");
    proof {
        assert(names.take(chain@.len() as int) =~= names);
    }
    label
}

/// The score of a node from its own metadata.
pub open spec fn file_score(f: File) -> nat {
    if f.file_type == FileType::Directory {
        (f.total_descendants + f.child_dir_count * 4 + 3) as nat
    } else {
        1
    }
}

fn descendant_score(file: &File) -> (score: usize)
    requires
        file_score(*file) <= usize::MAX,
    ensures
        score == file_score(*file),
{
    match file.file_type {
        FileType::Directory => file.total_descendants + (file.child_dir_count * 4) + 3,
        FileType::File | FileType::Link => 1,
    }
}

fn summarize_hidden(descendants: usize) -> (node: DisplayNode)
    ensures
        node.dview() == summary_view(descendants as nat),
{
    let mut name = String::from_str("… (");
    let count = decimal(descendants);
    name.append(count.as_str());
    name.append(" entries)");
    let node = DisplayNode { name, path: String::new(), link: None, children: Vec::new() };
    proof {
        assert(node.dview().children =~= Seq::<DisplayView>::empty());
        assert(node.dview() =~= summary_view(descendants as nat));
    }
    node
}


proof fn lemma_planned_le(v: NodeView)
    ensures
        1 <= planned(v) <= size(v),
    decreases v, 1int,
{
    if v.file_type == FileType::Directory {
        lemma_planned_below_le(v);
    }
}

proof fn lemma_planned_below_le(v: NodeView)
    ensures
        planned_below(v) <= sizes(v.children),
    decreases v, 0int,
{
    if v.file_type == FileType::Directory && is_skinny_view(v) && v.children.len() > 0 {
        let c = v.children[0];
        lemma_planned_below_le(c);
        crate::file_tree::lemma_sizes_le_one(v.children, 0);
    } else {
        lemma_planned_sum_le(v.children);
    }
}

proof fn lemma_planned_sum_le(cs: Seq<NodeView>)
    ensures
        planned_sum(cs) <= sizes(cs),
    decreases cs, 0int,
{
    if cs.len() > 0 {
        lemma_planned_sum_le(cs.drop_last());
        lemma_planned_le(cs.last());
    }
}

fn planned_line_count(tree: &FileTree, id: usize) -> (count: usize)
    requires
        tree.wf(),
        tree.files().dom().contains(id),
        metadata_consistent(tree.node_view(id)),
        size(tree.node_view(id)) <= usize::MAX,
    ensures
        count == planned(tree.node_view(id)),
    decreases tree.rank_bound@ - tree.rank@[id],
{
    let ghost v = tree.node_view(id);
    let file = tree.get(id);
    proof {
        assert(tree.node_wf(id));
    }
    match file.file_type {
        FileType::Directory => {
            let (_, terminal_id) = collapse_skinny_path(tree, id);
            let terminal = tree.get(terminal_id);
            let ghost tv = tree.node_view(terminal_id);
            proof {
                lemma_chain_end(v);
                assert(tree.node_wf(terminal_id));
                tree.lemma_view_children(terminal_id);
            }
            let mut count: usize = 1;
            if let Some(children) = terminal.children() {
                let entries = child_map_entries(children);
                let mut k: usize = 0;
                while k < entries.len()
                    invariant
                        tree.wf(),
                        tree.files().dom().contains(terminal_id),
                        tree.node_wf(terminal_id),
                        tree.rank@[id] <= tree.rank@[terminal_id],
                        tv == tree.node_view(terminal_id),
                        metadata_consistent(tv),
                        size(tv) <= size(v),
                        size(v) <= usize::MAX,
                        entries@.len() == tv.children.len(),
                        tv.children.len() == tree.files()[terminal_id].entries().len(),
                        forall|q: int| 0 <= q < entries@.len() ==> (#[trigger] entries@[q]).1 == tree.files()[terminal_id].entries()[q].1,
                        forall|q: int| 0 <= q < tv.children.len() ==> #[trigger] tv.children[q] == tree.node_view(tree.files()[terminal_id].entries()[q].1),
                        k <= entries.len(),
                        count == 1 + planned_sum(tv.children.take(k as int)),
                    decreases entries.len() - k,
                {
                    let child_id = entries[k].1;
                    proof {
                        assert(tree.files().dom().contains(child_id));
                        assert(tree.node_wf(child_id));
                        assert(metadata_consistent(tv.children[k as int]));
                        crate::file_tree::lemma_sizes_le_one(tv.children, k as int);
                        assert(tv.children.take(k + 1).drop_last() =~= tv.children.take(k as int));
                        lemma_planned_sum_le(tv.children.take(k + 1));
                        crate::file_tree::lemma_sizes_prefix(tv.children, k + 1);
                    }
                    let c = planned_line_count(tree, child_id);
                    count = count + c;
                    k += 1;
                }
                proof {
                    assert(tv.children.take(entries@.len() as int) =~= tv.children);
                }
            } else {
                proof {
                    assert(tv.children.len() == 0);
                    assert(tv.children.take(0) =~= tv.children);
                }
            }
            count
        },
        FileType::File | FileType::Link => 1,
    }
}


proof fn lemma_key_before_strict(a: (nat, Seq<char>), b: (nat, Seq<char>), c: (nat, Seq<char>))
    ensures
        !key_before(a, a),
        !(key_before(a, b) && key_before(b, a)),
        key_before(a, b) && key_before(b, c) ==> key_before(a, c),
        a == b || key_before(a, b) || key_before(b, a),
{
    lemma_name_lt_irreflexive(a.1);
    lemma_name_lt_asymmetric(a.1, b.1);
    if a.0 == b.0 && b.0 == c.0 && name_lt(a.1, b.1) && name_lt(b.1, c.1) {
        lemma_name_lt_transitive(a.1, b.1, c.1);
    }
    lemma_name_lt_total(a.1, b.1);
    if a.0 == b.0 && a.1 == b.1 {
        assert(a == b);
    }
}

proof fn lemma_position_leq_total(keys: Seq<(nat, Seq<char>)>)
    ensures
        total_ordering(position_leq(keys)),
{
    let leq = position_leq(keys);
    assert forall|x: usize| #[trigger] leq(x, x) by {}
    assert forall|x: usize, y: usize| #[trigger] leq(x, y) && #[trigger] leq(y, x) implies x == y by {
        lemma_key_before_strict(keys[x as int], keys[y as int], keys[y as int]);
    }
    assert forall|x: usize, y: usize, z: usize| #[trigger] leq(x, y) && #[trigger] leq(y, z) implies leq(x, z) by {
        lemma_key_before_strict(keys[x as int], keys[y as int], keys[z as int]);
        lemma_key_before_strict(keys[y as int], keys[z as int], keys[x as int]);
        lemma_key_before_strict(keys[z as int], keys[x as int], keys[y as int]);
    }
    assert forall|x: usize, y: usize| #[trigger] leq(x, y) || #[trigger] leq(y, x) by {
        lemma_key_before_strict(keys[x as int], keys[y as int], keys[y as int]);
    }
}

/// The sum of the sizes of the trees of `cs` at the positions `ps`.
pub open spec fn sizes_at(cs: Seq<NodeView>, ps: Seq<usize>) -> nat
    decreases ps.len(),
{
    if ps.len() == 0 {
        0
    } else {
        sizes_at(cs, ps.drop_last()) + size(cs[ps.last() as int])
    }
}

proof fn lemma_sizes_at_remove(cs: Seq<NodeView>, ps: Seq<usize>, j: int)
    requires
        0 <= j < ps.len(),
    ensures
        sizes_at(cs, ps) == sizes_at(cs, ps.remove(j)) + size(cs[ps[j] as int]),
    decreases ps.len(),
{
    if j < ps.len() - 1 {
        assert(ps.remove(j).drop_last() =~= ps.drop_last().remove(j));
        assert(ps.remove(j).last() == ps.last());
        lemma_sizes_at_remove(cs, ps.drop_last(), j);
    } else {
        assert(ps.remove(j) =~= ps.drop_last());
    }
}

proof fn lemma_sizes_at_perm(cs: Seq<NodeView>, ps: Seq<usize>, qs: Seq<usize>)
    requires
        ps.to_multiset() == qs.to_multiset(),
    ensures
        sizes_at(cs, ps) == sizes_at(cs, qs),
    decreases ps.len(),
{
    broadcast use vstd::seq_lib::group_to_multiset_ensures;
    broadcast use vstd::multiset::group_multiset_axioms;
    assert(ps.to_multiset().len() == ps.len());
    assert(qs.to_multiset().len() == qs.len());
    assert(ps.len() == qs.len());
    if ps.len() > 0 {
        let x = ps.last();
        assert(ps.contains(x)) by {
            assert(ps[ps.len() - 1] == x);
        }
        assert(qs.to_multiset().count(x) > 0);
        assert(qs.contains(x));
        let j = choose|j: int| 0 <= j < qs.len() && qs[j] == x;
        lemma_sizes_at_remove(cs, qs, j);
        assert(ps.drop_last() =~= ps.remove(ps.len() - 1));
        assert(ps.drop_last().to_multiset() == qs.remove(j).to_multiset());
        lemma_sizes_at_perm(cs, ps.drop_last(), qs.remove(j));
    }
}

proof fn lemma_sizes_at_all(cs: Seq<NodeView>, n: nat)
    requires
        n <= cs.len(),
        cs.len() <= usize::MAX,
    ensures
        sizes_at(cs, positions(n)) == sizes(cs.take(n as int)),
    decreases n,
{
    if n == 0 {
        assert(cs.take(0) =~= Seq::<NodeView>::empty());
    } else {
        assert(positions(n).last() == (n - 1) as usize);
        assert(positions(n).drop_last() =~= positions((n - 1) as nat));
        assert(cs.take(n as int).drop_last() =~= cs.take(n - 1));
        lemma_sizes_at_all(cs, (n - 1) as nat);
    }
}

proof fn lemma_sizes_map(cs: Seq<NodeView>, ps: Seq<usize>)
    ensures
        sizes(ps.map_values(|p: usize| cs[p as int])) == sizes_at(cs, ps),
    decreases ps.len(),
{
    if ps.len() > 0 {
        assert(ps.map_values(|p: usize| cs[p as int]).drop_last() =~= ps.drop_last().map_values(|p: usize| cs[p as int]));
        lemma_sizes_map(cs, ps.drop_last());
    }
}

/// Sorting the children keeps them all: the order is a permutation of their
/// positions, and their sizes add up as before.
proof fn lemma_sorted_children(cs: Seq<NodeView>)
    requires
        cs.len() <= usize::MAX,
    ensures
        positions(cs.len()).sort_by(position_leq(child_keys(cs))).to_multiset() == positions(cs.len()).to_multiset(),
        sorted_by(positions(cs.len()).sort_by(position_leq(child_keys(cs))), position_leq(child_keys(cs))),
        sorted_children(cs).len() == cs.len(),
        forall|i: int| 0 <= i < cs.len() ==> positions(cs.len()).sort_by(position_leq(child_keys(cs)))[i] < cs.len(),
        forall|i: int| 0 <= i < cs.len() ==> #[trigger] sorted_children(cs)[i] == cs[positions(cs.len()).sort_by(position_leq(child_keys(cs)))[i] as int],
        sizes(sorted_children(cs)) == sizes(cs),
{
    broadcast use vstd::seq_lib::group_to_multiset_ensures;
    let leq = position_leq(child_keys(cs));
    let ps = positions(cs.len());
    let order = ps.sort_by(leq);
    lemma_position_leq_total(child_keys(cs));
    ps.lemma_sort_by_ensures(leq);
    assert(order.to_multiset().len() == order.len());
    assert(ps.to_multiset().len() == ps.len());
    assert(order.len() == ps.len());
    assert forall|i: int| 0 <= i < cs.len() implies order[i] < cs.len() by {
        assert(order.contains(order[i]));
        assert(ps.to_multiset().count(order[i]) > 0);
        assert(ps.contains(order[i]));
    }
    lemma_sizes_map(cs, order);
    lemma_sizes_at_perm(cs, order, ps);
    lemma_sizes_at_all(cs, cs.len());
    assert(cs.take(cs.len() as int) =~= cs);
}


proof fn lemma_sizes_ge_len(cs: Seq<NodeView>)
    ensures
        sizes(cs) >= cs.len(),
    decreases cs.len(),
{
    if cs.len() > 0 {
        lemma_sizes_ge_len(cs.drop_last());
        crate::file_tree::lemma_sizes_le_one(cs, cs.len() - 1);
    }
}

proof fn lemma_render_bounds(v: NodeView, b: nat, collapse: bool)
    requires
        b >= 1,
        metadata_consistent(v),
        size(v) <= usize::MAX,
    ensures
        1 <= render(v, b, collapse).1 <= b,
        render(v, b, collapse).2 < size(v),
    decreases 2 * size(v) + 1, 0int,
{
    if v.file_type == FileType::Directory {
        lemma_chain_of_end(v, collapse);
        let t = chain_of(v, collapse).last();
        if b != 1 {
            lemma_sizes_ge_len(t.children);
            lemma_sorted_children(t.children);
            let cs = sorted_children(t.children);
            assert forall|i: int| 0 <= i < cs.len() implies metadata_consistent(#[trigger] cs[i]) && size(cs[i]) < size(v) by {
                let p = positions(t.children.len()).sort_by(position_leq(child_keys(t.children)))[i] as int;
                assert(metadata_consistent(t.children[p]));
                crate::file_tree::lemma_sizes_le_one(t.children, p);
            }
            lemma_fold_bounds(cs, cs.len(), (b - 1) as nat, size(v));
            assert(cs.take(cs.len() as int) =~= cs);
        }
    }
}

proof fn lemma_fold_bounds(cs: Seq<NodeView>, k: nat, start: nat, bound: nat)
    requires
        k <= cs.len(),
        bound <= usize::MAX,
        forall|i: int| 0 <= i < cs.len() ==> metadata_consistent(#[trigger] cs[i]) && size(cs[i]) < bound,
    ensures
        render_fold(cs, k, start, bound).1 + render_fold(cs, k, start, bound).2 == start,
        render_fold(cs, k, start, bound).3 <= sizes(cs.take(k as int)),
        render_fold(cs, k, start, bound).0.len() <= k,
    decreases 2 * bound, k as int,
{
    if k == 0 {
        assert(cs.take(0) =~= Seq::<NodeView>::empty());
    } else {
        lemma_fold_bounds(cs, (k - 1) as nat, start, bound);
        let prev = render_fold(cs, (k - 1) as nat, start, bound);
        let c = cs[k - 1];
        crate::file_tree::lemma_sizes_prefix(cs, k - 1);
        assert(cs.take(k as int).drop_last() =~= cs.take(k - 1));
        if prev.1 != 0 {
            lemma_planned_le(c);
            let cb = child_budget(prev.1, (cs.len() - k) as nat, planned(c));
            assert(1 <= cb <= prev.1);
            lemma_render_bounds(c, cb, true);
        }
    }
}


/// The sort key of each scored child: its score and its name.
pub open spec fn scored_keys(scored: Seq<(String, usize, usize)>) -> Seq<(nat, Seq<char>)> {
    scored.map_values(|e: (String, usize, usize)| (e.2 as nat, e.0@))
}

pub open spec fn key_at(scored: Seq<(String, usize, usize)>, p: usize) -> (nat, Seq<char>) {
    scored_keys(scored)[p as int]
}

/// Where the child at `a` goes against the one at `b`: larger score first, then by
/// name.
fn scored_order(scored: &Vec<(String, usize, usize)>, a: usize, b: usize) -> (r: Ordering)
    requires
        a < scored@.len(),
        b < scored@.len(),
    ensures
        (r == Ordering::Less) == key_before(key_at(scored@, a), key_at(scored@, b)),
        (r == Ordering::Equal) == (key_at(scored@, a) == key_at(scored@, b)),
        (r == Ordering::Greater) == key_before(key_at(scored@, b), key_at(scored@, a)),
{
    let sa = scored[a].2;
    let sb = scored[b].2;
    if sa > sb {
        Ordering::Less
    } else if sa < sb {
        Ordering::Greater
    } else {
        let named = compare_names(scored[a].0.as_str(), scored[b].0.as_str());
        proof {
            lemma_name_lt_asymmetric(key_at(scored@, a).1, key_at(scored@, b).1);
            lemma_name_lt_irreflexive(key_at(scored@, a).1);
        }
        match named {
            NameOrder::Before => Ordering::Less,
            NameOrder::Same => Ordering::Equal,
            NameOrder::After => Ordering::Greater,
        }
    }
}

/// `slice::sort_by` on positions into `scored`, compared by `scored_order`. The
/// sort is stable, so positions given in increasing order come out ordered by key
/// and, for equal keys, by position.
#[verifier::external_body]
fn sort_positions(positions: &mut Vec<usize>, scored: &Vec<(String, usize, usize)>)
    requires
        forall|i: int| 0 <= i < old(positions)@.len() ==> #[trigger] old(positions)@[i] < scored@.len(),
    ensures
        final(positions)@.to_multiset() == old(positions)@.to_multiset(),
        (forall|i: int, j: int| 0 <= i < j < old(positions)@.len() ==> old(positions)@[i] < old(positions)@[j])
            ==> sorted_by(final(positions)@, position_leq(scored_keys(scored@))),
{
    positions.sort_by(|a, b| scored_order(scored, *a, *b));
}

fn append_count(name: &mut String, n: usize)
    ensures
        final(name)@ == with_count(old(name)@, n as nat),
{
    name.append(" … (");
    let count = decimal(n);
    name.append(count.as_str());
    name.append(" entries)");
}

spec fn display_views(v: Seq<DisplayNode>) -> Seq<DisplayView> {
    v.map_values(|d: DisplayNode| d.dview())
}


/// The children of a directory of the tree, scored, in the order they are offered
/// lines.
proof fn lemma_order_is_sorted(
    tv: NodeView,
    scored: Seq<(String, usize, usize)>,
    init: Seq<usize>,
    order: Seq<usize>,
)
    requires
        tv.children.len() <= usize::MAX,
        scored.len() == tv.children.len(),
        forall|i: int| 0 <= i < scored.len() ==> (#[trigger] scored[i]).0@ == tv.children[i].name
            && scored[i].2 == score_of(tv.children[i]),
        init == positions(tv.children.len()),
        order.to_multiset() == init.to_multiset(),
        sorted_by(order, position_leq(scored_keys(scored))),
    ensures
        order == positions(tv.children.len()).sort_by(position_leq(child_keys(tv.children))),
{
    assert(scored_keys(scored) =~= child_keys(tv.children));
    let leq = position_leq(child_keys(tv.children));
    lemma_position_leq_total(child_keys(tv.children));
    init.lemma_sort_by_ensures(leq);
    vstd::seq_lib::lemma_sorted_unique(order, init.sort_by(leq), leq);
}

fn render_node(tree: &FileTree, node_id: usize, budget: usize, collapse: bool) -> (r: (DisplayNode, usize, usize))
    requires
        tree.wf(),
        tree.files().dom().contains(node_id),
        budget >= 1,
        metadata_consistent(tree.node_view(node_id)),
        size(tree.node_view(node_id)) <= usize::MAX / 8,
    ensures
        r.0.dview() == render(tree.node_view(node_id), budget as nat, collapse).0,
        r.1 == render(tree.node_view(node_id), budget as nat, collapse).1,
        r.2 == render(tree.node_view(node_id), budget as nat, collapse).2,
    decreases tree.rank_bound@ - tree.rank@[node_id],
{
    let ghost v = tree.node_view(node_id);
    let file = tree.get(node_id);
    let mut used_lines: usize = 1;
    let mut hidden_descendants: usize = 0;
    proof {
        assert(tree.node_wf(node_id));
        lemma_render_bounds(v, budget as nat, collapse);
    }
    if file.file_type == FileType::Directory {
        let (skinny_chain_files, terminal_id) = if collapse {
            collapse_skinny_path(tree, node_id)
        } else {
            (vec![file], node_id)
        };
        let terminal = tree.get(terminal_id);
        let display_name = build_skinny_label(&skinny_chain_files);
        let ghost chain = chain_of(v, collapse);
        let ghost tv = tree.node_view(terminal_id);
        let ghost label = skinny_label(chain_names(chain));
        proof {
            lemma_chain_of_end(v, collapse);
            if collapse {
                lemma_chain_end(v);
            }
            assert(skinny_chain_files@.map_values(|f: &File| f.display_name@) =~= chain_names(chain));
            assert(tree.node_wf(terminal_id));
            tree.lemma_view_children(terminal_id);
        }
        let mut node = DisplayNode {
            name: display_name,
            path: terminal.path.clone(),
            link: terminal.link(),
            children: Vec::new(),
        };
        if budget == 1 {
            hidden_descendants = terminal.total_descendants;
            if hidden_descendants > 0 {
                append_count(&mut node.name, hidden_descendants);
            }
            proof {
                assert(node.dview().children =~= Seq::<DisplayView>::empty());
                assert(node.dview() =~= render(v, budget as nat, collapse).0);
            }
            return (node, used_lines, hidden_descendants);
        }
        let mut remaining = budget - 1;
        let ghost start = (budget - 1) as nat;
        let ghost cs = sorted_children(tv.children);
        proof {
            crate::diagram_formatting::lemma_sizes_ge_len(tv.children);
            lemma_sorted_children(tv.children);
            assert(node.dview().children =~= Seq::<DisplayView>::empty());
        }
        if let Some(children) = terminal.children() {
            let entries = child_map_entries(children);
            let ghost es = tree.files()[terminal_id].entries();
            let mut scored: Vec<(String, usize, usize)> = Vec::new();
            let mut k: usize = 0;
            while k < entries.len()
                invariant
                    tree.wf(),
                    tree.files().dom().contains(terminal_id),
                    tree.node_wf(terminal_id),
                    tv == tree.node_view(terminal_id),
                    es == tree.files()[terminal_id].entries(),
                    metadata_consistent(tv),
                    size(tv) <= size(v),
                    size(v) <= usize::MAX / 8,
                    entries@.len() == es.len(),
                    tv.children.len() == es.len(),
                    forall|q: int| 0 <= q < entries@.len() ==> (#[trigger] entries@[q]).1 == es[q].1 && entries@[q].0@ == es[q].0,
                    forall|q: int| 0 <= q < tv.children.len() ==> #[trigger] tv.children[q] == tree.node_view(es[q].1)
                        && tv.children[q].name == es[q].0,
                    k <= entries.len(),
                    scored@.len() == k,
                    forall|q: int| 0 <= q < k ==> (#[trigger] scored@[q]).0@ == tv.children[q].name
                        && scored@[q].2 == score_of(tv.children[q]) && scored@[q].1 == es[q].1,
                decreases entries.len() - k,
            {
                let id = entries[k].1;
                proof {
                    assert(tree.files().dom().contains(id));
                    assert(tree.node_wf(id));
                    assert(metadata_consistent(tv.children[k as int]));
                    crate::file_tree::lemma_sizes_le_one(tv.children, k as int);
                    crate::file_tree::lemma_dir_count_le(tree.node_view(id).children);
                    crate::diagram_formatting::lemma_sizes_ge_len(tree.node_view(id).children);
                }
                let score = descendant_score(tree.get(id));
                scored.push((entries[k].0.clone(), id, score));
                k += 1;
            }
            let mut order: Vec<usize> = Vec::new();
            let mut i: usize = 0;
            while i < scored.len()
                invariant
                    i <= scored@.len(),
                    order@ == positions(i as nat),
                decreases scored.len() - i,
            {
                order.push(i);
                i += 1;
                proof {
                    assert(order@ =~= positions(i as nat));
                }
            }
            let ghost init = order@;
            sort_positions(&mut order, &scored);
            proof {
                lemma_order_is_sorted(tv, scored@, init, order@);
            }
            let ghost ord = order@;
            let mut q: usize = 0;
            while q < order.len()
                invariant
                    tree.wf(),
                    tv == tree.node_view(terminal_id),
                    es == tree.files()[terminal_id].entries(),
                    metadata_consistent(tv),
                    size(tv) <= size(v),
                    size(v) <= usize::MAX / 8,
                    tree.rank@[node_id] <= tree.rank@[terminal_id],
                    tree.node_wf(terminal_id),
                    tree.files().dom().contains(terminal_id),
                    ord == order@,
                    ord == positions(tv.children.len()).sort_by(position_leq(child_keys(tv.children))),
                    cs == sorted_children(tv.children),
                    cs.len() == tv.children.len(),
                    ord.len() == cs.len(),
                    forall|j: int| 0 <= j < cs.len() ==> ord[j] < cs.len(),
                    forall|j: int| 0 <= j < cs.len() ==> #[trigger] cs[j] == tv.children[ord[j] as int],
                    sizes(cs) == sizes(tv.children),
                    scored@.len() == tv.children.len(),
                    forall|j: int| 0 <= j < scored@.len() ==> (#[trigger] scored@[j]).1 == es[j].1,
                    forall|j: int| 0 <= j < tv.children.len() ==> #[trigger] tv.children[j] == tree.node_view(es[j].1),
                    tv.children.len() == es.len(),
                    q <= order.len(),
                    start == budget - 1,
                    display_views(node.children@) == render_fold(cs, q as nat, start, size(v)).0,
                    remaining == render_fold(cs, q as nat, start, size(v)).1,
                    used_lines == 1 + render_fold(cs, q as nat, start, size(v)).2,
                    hidden_descendants == render_fold(cs, q as nat, start, size(v)).3,
                    node.name@ == label,
                    node.path@ == tv.path,
                    option_view(node.link) == tv.link,
                decreases order.len() - q,
            {
                let p = order[q];
                let child_id = scored[p].1;
                let ghost c = cs[q as int];
                proof {
                    assert(c == tree.node_view(child_id));
                    assert(tree.files().dom().contains(child_id));
                    assert(tree.node_wf(child_id));
                    assert(metadata_consistent(c));
                    crate::file_tree::lemma_sizes_le_one(tv.children, p as int);
                    assert forall|j: int| 0 <= j < cs.len() implies metadata_consistent(#[trigger] cs[j]) && size(cs[j]) < size(v) by {
                        crate::file_tree::lemma_sizes_le_one(tv.children, ord[j] as int);
                    }
                    lemma_fold_bounds(cs, q as nat, start, size(v));
                    lemma_fold_bounds(cs, (q + 1) as nat, start, size(v));
                    crate::file_tree::lemma_sizes_prefix(cs, q as int + 1);
                    crate::file_tree::lemma_sizes_prefix(cs, q as int);
                    lemma_planned_le(c);
                }
                if remaining == 0 {
                    hidden_descendants += 1 + tree.get(child_id).total_descendants;
                    q += 1;
                    continue;
                }
                let later = order.len() - q - 1;
                let best_possible = planned_line_count(tree, child_id);
                let child_budget = if remaining > later {
                    let spare = remaining - later;
                    if spare <= best_possible { spare } else { best_possible }
                } else {
                    1
                };
                let (child_node, lines, hidden) = render_node(tree, child_id, child_budget, true);
                remaining = remaining.saturating_sub(lines);
                used_lines += lines;
                hidden_descendants += hidden;
                node.children.push(child_node);
                proof {
                    assert(display_views(node.children@) =~= render_fold(cs, (q + 1) as nat, start, size(v)).0);
                }
                q += 1;
            }
            proof {
                assert forall|j: int| 0 <= j < cs.len() implies metadata_consistent(#[trigger] cs[j]) && size(cs[j]) < size(v) by {
                    crate::file_tree::lemma_sizes_le_one(tv.children, ord[j] as int);
                }
                lemma_fold_bounds(cs, cs.len(), start, size(v));
                assert(cs.take(cs.len() as int) =~= cs);
            }
            if hidden_descendants > 0 {
                if remaining > 0 {
                    let summary = summarize_hidden(hidden_descendants);
                    used_lines += 1;
                    node.children.push(summary);
                    proof {
                        assert(display_views(node.children@) =~= render_fold(cs, cs.len(), start, size(v)).0.push(summary_view(hidden_descendants as nat)));
                    }
                } else {
                    append_count(&mut node.name, hidden_descendants);
                }
            }
        } else {
            proof {
                assert(tv.children.len() == 0);
                assert(cs.len() == 0);
            }
        }
        proof {
            assert(node.dview().children =~= display_views(node.children@));
            assert(node.dview() =~= render(v, budget as nat, collapse).0);
        }
        (node, used_lines, hidden_descendants)
    } else {
        let node = DisplayNode {
            name: file.display_name.clone(),
            path: file.path.clone(),
            link: file.link(),
            children: Vec::new(),
        };
        proof {
            assert(node.dview().children =~= Seq::<DisplayView>::empty());
            assert(node.dview() =~= render(v, budget as nat, collapse).0);
        }
        (node, used_lines, hidden_descendants)
    }
}


/// Draws the tree in at most `max_lines` lines, favouring structure: the root has a
/// line of its own, skinny chains below it take one line, children are offered
/// lines by score while a line is kept back for each later sibling, and what is
/// left out is counted in the drawing.
pub fn format_tree_smart_lines(tree: &FileTree, max_lines: usize) -> (r: Vec<FormattedEntry>)
    requires
        tree.wf(),
        metadata_consistent(tree.view()),
        size(tree.view()) <= usize::MAX / 8,
    ensures
        formatted_views(r@) == smart_drawing(tree.view(), max_lines as nat),
{
    if max_lines == 0 {
        let empty: Vec<FormattedEntry> = Vec::new();
        proof {
            assert(formatted_views(empty@) =~= Seq::<EntryView>::empty());
        }
        return empty;
    }
    let budget = if max_lines >= 1 { max_lines } else { 1 };
    let root = tree.root_id;
    let (plan, _, _) = render_node(tree, root, budget, false);
    let mut result: Vec<FormattedEntry> = Vec::new();
    let mut stack: Vec<bool> = Vec::new();
    proof {
        assert(formatted_views(result@) =~= Seq::<EntryView>::empty());
    }
    emit_display_node(&plan, &mut stack, &mut result);
    proof {
        assert(formatted_views(result@) =~= drawing(render(tree.view(), max_lines as nat, false).0));
    }
    if result.len() > max_lines {
        result.truncate(max_lines);
        proof {
            assert(formatted_views(result@) =~= drawing(render(tree.view(), max_lines as nat, false).0).take(max_lines as int));
        }
    }
    result
}


// ---------------------------------------------------------------------------
// Laws of the drawings.
// ---------------------------------------------------------------------------

/// The number of nodes of a tree to draw.
pub open spec fn display_count(d: DisplayView) -> nat
    decreases d, 0nat,
{
    1 + display_count_prefix(d.children, d.children.len())
}

pub open spec fn display_count_prefix(cs: Seq<DisplayView>, k: nat) -> nat
    decreases cs, k,
{
    if k == 0 || k > cs.len() {
        0
    } else {
        display_count_prefix(cs, (k - 1) as nat) + display_count(cs[k - 1])
    }
}

proof fn lemma_emit_len(d: DisplayView, stack: Seq<bool>)
    ensures
        emit_node(d, stack).len() == display_count(d),
    decreases d, 0nat,
{
    lemma_emit_children_len(d.children, d.children.len(), stack);
}

proof fn lemma_emit_children_len(cs: Seq<DisplayView>, k: nat, stack: Seq<bool>)
    ensures
        emit_children(cs, k, stack).len() == display_count_prefix(cs, k),
    decreases cs, k,
{
    if !(k == 0 || k > cs.len()) {
        lemma_emit_children_len(cs, (k - 1) as nat, stack);
        lemma_emit_len(cs[k - 1], stack.push(k - 1 == cs.len() - 1));
    }
}

proof fn lemma_plain_count(v: NodeView)
    ensures
        display_count(plain_display(v)) == size(v),
    decreases v, 1int,
{
    lemma_plain_count_prefix(v, v.children.len());
    assert(v.children.take(v.children.len() as int) =~= v.children);
}

proof fn lemma_plain_count_prefix(v: NodeView, k: nat)
    requires
        k <= v.children.len(),
    ensures
        display_count_prefix(plain_display(v).children, k) == sizes(v.children.take(k as int)),
    decreases v, 0int, k,
{
    if k == 0 {
        assert(v.children.take(0) =~= Seq::<NodeView>::empty());
    } else {
        lemma_plain_count_prefix(v, (k - 1) as nat);
        lemma_plain_count(v.children[k - 1]);
        assert(v.children.take(k as int).drop_last() =~= v.children.take(k - 1));
    }
}

/// Drawing a tree takes one line per node: `format_tree` lists every node once.
pub proof fn law_drawing_has_one_line_per_node(v: NodeView)
    ensures
        drawing(plain_display(v)).len() == size(v),
{
    lemma_emit_len(plain_display(v), Seq::empty());
    lemma_plain_count(v);
}

proof fn lemma_render_count(v: NodeView, b: nat, collapse: bool)
    requires
        b >= 1,
        metadata_consistent(v),
        size(v) <= usize::MAX,
    ensures
        display_count(render(v, b, collapse).0) == render(v, b, collapse).1,
    decreases 2 * size(v) + 1, 0int,
{
    if v.file_type == FileType::Directory {
        lemma_chain_of_end(v, collapse);
        let t = chain_of(v, collapse).last();
        if b != 1 {
            lemma_sizes_ge_len(t.children);
            lemma_sorted_children(t.children);
            let cs = sorted_children(t.children);
            assert forall|i: int| 0 <= i < cs.len() implies metadata_consistent(#[trigger] cs[i]) && size(cs[i]) < size(v) by {
                let p = positions(t.children.len()).sort_by(position_leq(child_keys(t.children)))[i] as int;
                assert(metadata_consistent(t.children[p]));
                crate::file_tree::lemma_sizes_le_one(t.children, p);
            }
            let f = render_fold(cs, cs.len(), (b - 1) as nat, size(v));
            lemma_fold_count(cs, cs.len(), (b - 1) as nat, size(v));
            if f.3 > 0 && f.1 > 0 {
                let kids = f.0.push(summary_view(f.3));
                assert(display_count(summary_view(f.3)) == 1) by {
                    assert(display_count_prefix(summary_view(f.3).children, 0) == 0);
                }
                assert(display_count_prefix(kids, f.0.len()) == display_count_prefix(f.0, f.0.len())) by {
                    lemma_count_prefix_extend(f.0, summary_view(f.3), f.0.len());
                }
            }
        }
    }
}

proof fn lemma_count_prefix_extend(cs: Seq<DisplayView>, d: DisplayView, k: nat)
    requires
        k <= cs.len(),
    ensures
        display_count_prefix(cs.push(d), k) == display_count_prefix(cs, k),
    decreases k,
{
    if k > 0 {
        lemma_count_prefix_extend(cs, d, (k - 1) as nat);
        assert(cs.push(d)[k - 1] == cs[k - 1]);
    }
}

proof fn lemma_fold_count(cs: Seq<NodeView>, k: nat, start: nat, bound: nat)
    requires
        k <= cs.len(),
        bound <= usize::MAX,
        forall|i: int| 0 <= i < cs.len() ==> metadata_consistent(#[trigger] cs[i]) && size(cs[i]) < bound,
    ensures
        display_count_prefix(render_fold(cs, k, start, bound).0, render_fold(cs, k, start, bound).0.len())
            == render_fold(cs, k, start, bound).2,
    decreases 2 * bound, k as int,
{
    if k > 0 {
        lemma_fold_count(cs, (k - 1) as nat, start, bound);
        let prev = render_fold(cs, (k - 1) as nat, start, bound);
        let c = cs[k - 1];
        if prev.1 != 0 {
            lemma_planned_le(c);
            let cb = child_budget(prev.1, (cs.len() - k) as nat, planned(c));
            lemma_render_count(c, cb, true);
            lemma_count_prefix_extend(prev.0, render(c, cb, true).0, prev.0.len());
            assert(prev.0.push(render(c, cb, true).0)[prev.0.len() as int] == render(c, cb, true).0);
        }
    }
}

/// Within a line budget, the drawing never needs cutting: it takes exactly the
/// lines counted, at least one and at most the budget.
pub proof fn law_smart_drawing_fits(v: NodeView, max_lines: nat)
    requires
        max_lines >= 1,
        metadata_consistent(v),
        size(v) <= usize::MAX,
    ensures
        drawing(render(v, max_lines, false).0).len() == render(v, max_lines, false).1,
        1 <= render(v, max_lines, false).1 <= max_lines,
        smart_drawing(v, max_lines) == drawing(render(v, max_lines, false).0),
{
    lemma_render_count(v, max_lines, false);
    lemma_render_bounds(v, max_lines, false);
    lemma_emit_len(render(v, max_lines, false).0, Seq::empty());
}


/// The nodes on a directory's line and those below the last of them make up the tree.
proof fn lemma_chain_sizes(v: NodeView, collapse: bool)
    requires
        metadata_consistent(v),
        only_directories_branch(v),
        v.file_type == FileType::Directory,
    ensures
        size(v) == chain_of(v, collapse).len() + sizes(chain_of(v, collapse).last().children),
        only_directories_branch(chain_of(v, collapse).last()),
    decreases v,
{
    assert(size(v) == 1 + sizes(v.children));
    if collapse {
        lemma_chain_step(v);
        if is_skinny_view(v) {
            lemma_consistent_skinny(v);
            let c = v.children[0];
            assert(only_directories_branch(c));
            lemma_chain_sizes(c, true);
            assert(v.children.drop_last() =~= Seq::<NodeView>::empty());
            assert(v.children.last() == c);
            assert(sizes(v.children.drop_last()) == 0);
            assert(sizes(v.children) == size(c));
            assert(chain_of(v, true) == seq![v] + chain_of(c, true));
            assert(chain_of(v, true).len() == 1 + chain_of(c, true).len());
            assert(chain_of(v, true).last() == chain_of(c, true).last());
        } else {
            assert(chain_of(v, true) == seq![v]);
        }
    }
}

proof fn lemma_render_accounts(v: NodeView, b: nat, collapse: bool)
    requires
        b >= 1,
        metadata_consistent(v),
        only_directories_branch(v),
        size(v) <= usize::MAX,
    ensures
        render(v, b, collapse).2 + render(v, b, collapse).3 == size(v),
    decreases 2 * size(v) + 1, 0int,
{
    if v.file_type == FileType::Directory {
        lemma_chain_of_end(v, collapse);
        lemma_chain_sizes(v, collapse);
        let t = chain_of(v, collapse).last();
        if b != 1 {
            lemma_sizes_ge_len(t.children);
            lemma_sorted_children(t.children);
            let cs = sorted_children(t.children);
            assert forall|i: int| 0 <= i < cs.len() implies metadata_consistent(#[trigger] cs[i])
                && only_directories_branch(cs[i]) && size(cs[i]) < size(v) by {
                let p = positions(t.children.len()).sort_by(position_leq(child_keys(t.children)))[i] as int;
                assert(metadata_consistent(t.children[p]));
                assert(only_directories_branch(t.children[p]));
                crate::file_tree::lemma_sizes_le_one(t.children, p);
            }
            lemma_fold_accounts(cs, cs.len(), (b - 1) as nat, size(v));
            assert(cs.take(cs.len() as int) =~= cs);
        }
    } else {
        assert(v.children =~= Seq::<NodeView>::empty());
    }
}

proof fn lemma_fold_accounts(cs: Seq<NodeView>, k: nat, start: nat, bound: nat)
    requires
        k <= cs.len(),
        bound <= usize::MAX,
        forall|i: int| 0 <= i < cs.len() ==> metadata_consistent(#[trigger] cs[i]) && only_directories_branch(cs[i])
            && size(cs[i]) < bound,
    ensures
        render_fold(cs, k, start, bound).3 + render_fold(cs, k, start, bound).4 == sizes(cs.take(k as int)),
    decreases 2 * bound, k as int,
{
    if k == 0 {
        assert(cs.take(0) =~= Seq::<NodeView>::empty());
    } else {
        lemma_fold_accounts(cs, (k - 1) as nat, start, bound);
        let prev = render_fold(cs, (k - 1) as nat, start, bound);
        let c = cs[k - 1];
        assert(cs.take(k as int).drop_last() =~= cs.take(k - 1));
        assert(cs.take(k as int).last() == c);
        assert(metadata_consistent(c));
        if prev.1 != 0 {
            lemma_planned_le(c);
            let cb = child_budget(prev.1, (cs.len() - k) as nat, planned(c));
            assert(cb >= 1);
            lemma_render_accounts(c, cb, true);
        }
    }
}

/// Every node is accounted for: it has a line (the nodes of a collapsed chain share
/// one) or it is among the entries whose number the drawing shows.
pub proof fn law_every_node_shown_or_counted(v: NodeView, max_lines: nat)
    requires
        max_lines >= 1,
        metadata_consistent(v),
        only_directories_branch(v),
        size(v) <= usize::MAX,
    ensures
        render(v, max_lines, false).2 + render(v, max_lines, false).3 == size(v),
{
    lemma_render_accounts(v, max_lines, false);
}

/// Every node of the tree has a nonempty path.
pub open spec fn paths_nonempty(v: NodeView) -> bool
    decreases v,
{
    &&& v.path.len() > 0
    &&& forall|i: int| 0 <= i < v.children.len() ==> paths_nonempty(#[trigger] v.children[i])
}

/// The lines below a drawn directory that stand for nodes: its children, without a
/// last line that only counts entries (such a line has no path).
pub open spec fn node_lines(d: DisplayView) -> Seq<DisplayView> {
    if d.children.len() > 0 && d.children.last().path.len() == 0 {
        d.children.drop_last()
    } else {
        d.children
    }
}

/// The number of nodes of `v` that stand on a line of the drawing `d`: a directory's
/// line stands for the nodes collapsed onto it, and the lines below it for nodes of
/// its children in the order they are offered lines.
pub open spec fn drawn_nodes(v: NodeView, d: DisplayView, collapse: bool) -> nat
    decreases 2 * size(v) + 1, 0int,
{
    if v.file_type == FileType::Directory {
        let chain = chain_of(v, collapse);
        let cs = sorted_children(chain.last().children);
        let ds = node_lines(d);
        chain.len() + drawn_nodes_list(cs, ds, ds.len(), size(v))
    } else {
        1
    }
}

pub open spec fn drawn_nodes_list(cs: Seq<NodeView>, ds: Seq<DisplayView>, k: nat, bound: nat) -> nat
    decreases 2 * bound, k as int,
{
    if k == 0 || k > cs.len() || k > ds.len() {
        0
    } else {
        drawn_nodes_list(cs, ds, (k - 1) as nat, bound) + if size(cs[k - 1]) < bound {
            drawn_nodes(cs[k - 1], ds[k - 1], true)
        } else {
            0
        }
    }
}

proof fn lemma_drawn_list_push(cs: Seq<NodeView>, ds: Seq<DisplayView>, x: DisplayView, k: nat, bound: nat)
    requires
        k <= ds.len(),
    ensures
        drawn_nodes_list(cs, ds.push(x), k, bound) == drawn_nodes_list(cs, ds, k, bound),
    decreases k,
{
    if k > 0 {
        lemma_drawn_list_push(cs, ds, x, (k - 1) as nat, bound);
        assert(ds.push(x)[k - 1] == ds[k - 1]);
    }
}

proof fn lemma_chain_end_paths(v: NodeView, collapse: bool)
    requires
        metadata_consistent(v),
        paths_nonempty(v),
    ensures
        paths_nonempty(chain_of(v, collapse).last()),
    decreases v,
{
    if collapse {
        lemma_chain_step(v);
        if v.file_type == FileType::Directory && is_skinny_view(v) {
            lemma_consistent_skinny(v);
            let c = v.children[0];
            lemma_chain_end_paths(c, true);
            assert(chain_of(v, true) == seq![v] + chain_of(c, true));
            assert(chain_of(v, true).last() == chain_of(c, true).last());
        }
    }
}

/// The nodes counted from the drawing are the nodes `render` says it gave a line.
proof fn lemma_drawn_nodes(v: NodeView, b: nat, collapse: bool)
    requires
        b >= 1,
        metadata_consistent(v),
        paths_nonempty(v),
        size(v) <= usize::MAX,
    ensures
        drawn_nodes(v, render(v, b, collapse).0, collapse) == render(v, b, collapse).3,
        render(v, b, collapse).0.path.len() > 0,
    decreases 2 * size(v) + 1, 0int,
{
    lemma_chain_of_end(v, collapse);
    lemma_chain_end_paths(v, collapse);
    law_drawn_line_carries_the_node(v, b, collapse);
    if v.file_type == FileType::Directory {
        let t = chain_of(v, collapse).last();
        let d = render(v, b, collapse).0;
        if b == 1 {
            assert(node_lines(d) =~= Seq::<DisplayView>::empty());
        } else {
            lemma_sizes_ge_len(t.children);
            lemma_sorted_children(t.children);
            let cs = sorted_children(t.children);
            assert forall|i: int| 0 <= i < cs.len() implies metadata_consistent(#[trigger] cs[i])
                && paths_nonempty(cs[i]) && size(cs[i]) < size(v) by {
                let p = positions(t.children.len()).sort_by(position_leq(child_keys(t.children)))[i] as int;
                assert(metadata_consistent(t.children[p]));
                assert(paths_nonempty(t.children[p]));
                crate::file_tree::lemma_sizes_le_one(t.children, p);
            }
            let f = render_fold(cs, cs.len(), (b - 1) as nat, size(v));
            lemma_fold_drawn_nodes(cs, cs.len(), (b - 1) as nat, size(v));
            if f.3 > 0 && f.1 > 0 {
                assert(d.children == f.0.push(summary_view(f.3)));
                assert(summary_view(f.3).path.len() == 0);
                assert(node_lines(d) =~= f.0);
            } else {
                assert(d.children == f.0);
                if f.0.len() > 0 {
                    assert(f.0.last().path.len() > 0);
                }
                assert(node_lines(d) == f.0);
            }
        }
    }
}

proof fn lemma_fold_drawn_nodes(cs: Seq<NodeView>, k: nat, start: nat, bound: nat)
    requires
        k <= cs.len(),
        bound <= usize::MAX,
        forall|i: int| 0 <= i < cs.len() ==> metadata_consistent(#[trigger] cs[i]) && paths_nonempty(cs[i])
            && size(cs[i]) < bound,
    ensures
        render_fold(cs, k, start, bound).0.len() <= k,
        render_fold(cs, k, start, bound).1 > 0 ==> render_fold(cs, k, start, bound).0.len() == k,
        forall|i: int| 0 <= i < render_fold(cs, k, start, bound).0.len() ==> (#[trigger] render_fold(cs, k, start, bound).0[i]).path.len() > 0,
        drawn_nodes_list(cs, render_fold(cs, k, start, bound).0, render_fold(cs, k, start, bound).0.len(), bound)
            == render_fold(cs, k, start, bound).4,
    decreases 2 * bound, k as int,
{
    if k > 0 {
        lemma_fold_drawn_nodes(cs, (k - 1) as nat, start, bound);
        let prev = render_fold(cs, (k - 1) as nat, start, bound);
        let c = cs[k - 1];
        if prev.1 != 0 {
            lemma_planned_le(c);
            let cb = child_budget(prev.1, (cs.len() - k) as nat, planned(c));
            assert(cb >= 1);
            lemma_drawn_nodes(c, cb, true);
            let r = render(c, cb, true);
            let f = render_fold(cs, k, start, bound);
            assert(f.0 == prev.0.push(r.0));
            lemma_drawn_list_push(cs, prev.0, r.0, prev.0.len(), bound);
            assert(f.0[k - 1] == r.0);
            assert forall|i: int| 0 <= i < f.0.len() implies (#[trigger] f.0[i]).path.len() > 0 by {
                if i < k - 1 {
                    assert(f.0[i] == prev.0[i]);
                }
            }
        }
    }
}

/// The number a drawing shows as left out is exactly the number of nodes that
/// stand on none of its lines: the size of the tree less the nodes it draws
/// (counted from the drawing, the nodes of a collapsed chain each counted).
pub proof fn law_hidden_count_is_what_is_not_drawn(v: NodeView, max_lines: nat)
    requires
        max_lines >= 1,
        metadata_consistent(v),
        only_directories_branch(v),
        paths_nonempty(v),
        size(v) <= usize::MAX,
    ensures
        render(v, max_lines, false).2 + drawn_nodes(v, render(v, max_lines, false).0, false) == size(v),
{
    lemma_render_accounts(v, max_lines, false);
    lemma_drawn_nodes(v, max_lines, false);
}

/// The sum of the lines planned for the trees of `cs` at the positions `ps`.
pub open spec fn planned_at(cs: Seq<NodeView>, ps: Seq<usize>) -> nat
    decreases ps.len(),
{
    if ps.len() == 0 {
        0
    } else {
        planned_at(cs, ps.drop_last()) + planned(cs[ps.last() as int])
    }
}

proof fn lemma_planned_at_remove(cs: Seq<NodeView>, ps: Seq<usize>, j: int)
    requires
        0 <= j < ps.len(),
    ensures
        planned_at(cs, ps) == planned_at(cs, ps.remove(j)) + planned(cs[ps[j] as int]),
    decreases ps.len(),
{
    if j < ps.len() - 1 {
        assert(ps.remove(j).drop_last() =~= ps.drop_last().remove(j));
        assert(ps.remove(j).last() == ps.last());
        lemma_planned_at_remove(cs, ps.drop_last(), j);
    } else {
        assert(ps.remove(j) =~= ps.drop_last());
    }
}

proof fn lemma_planned_at_perm(cs: Seq<NodeView>, ps: Seq<usize>, qs: Seq<usize>)
    requires
        ps.to_multiset() == qs.to_multiset(),
    ensures
        planned_at(cs, ps) == planned_at(cs, qs),
    decreases ps.len(),
{
    broadcast use vstd::seq_lib::group_to_multiset_ensures;
    broadcast use vstd::multiset::group_multiset_axioms;
    assert(ps.to_multiset().len() == ps.len());
    assert(qs.to_multiset().len() == qs.len());
    if ps.len() > 0 {
        let x = ps.last();
        assert(ps.contains(x)) by {
            assert(ps[ps.len() - 1] == x);
        }
        assert(qs.to_multiset().count(x) > 0);
        assert(qs.contains(x));
        let j = choose|j: int| 0 <= j < qs.len() && qs[j] == x;
        lemma_planned_at_remove(cs, qs, j);
        assert(ps.drop_last() =~= ps.remove(ps.len() - 1));
        assert(ps.drop_last().to_multiset() == qs.remove(j).to_multiset());
        lemma_planned_at_perm(cs, ps.drop_last(), qs.remove(j));
    }
}

proof fn lemma_planned_at_all(cs: Seq<NodeView>, n: nat)
    requires
        n <= cs.len(),
        cs.len() <= usize::MAX,
    ensures
        planned_at(cs, positions(n)) == planned_sum(cs.take(n as int)),
    decreases n,
{
    if n == 0 {
        assert(cs.take(0) =~= Seq::<NodeView>::empty());
    } else {
        assert(positions(n).last() == (n - 1) as usize);
        assert(positions(n).drop_last() =~= positions((n - 1) as nat));
        assert(cs.take(n as int).drop_last() =~= cs.take(n - 1));
        lemma_planned_at_all(cs, (n - 1) as nat);
    }
}

proof fn lemma_planned_map(cs: Seq<NodeView>, ps: Seq<usize>)
    ensures
        planned_sum(ps.map_values(|p: usize| cs[p as int])) == planned_at(cs, ps),
    decreases ps.len(),
{
    if ps.len() > 0 {
        assert(ps.map_values(|p: usize| cs[p as int]).drop_last() =~= ps.drop_last().map_values(|p: usize| cs[p as int]));
        lemma_planned_map(cs, ps.drop_last());
    }
}

proof fn lemma_planned_sorted(cs: Seq<NodeView>)
    requires
        cs.len() <= usize::MAX,
    ensures
        planned_sum(sorted_children(cs)) == planned_sum(cs),
{
    broadcast use vstd::seq_lib::group_to_multiset_ensures;
    let leq = position_leq(child_keys(cs));
    let ps = positions(cs.len());
    let order = ps.sort_by(leq);
    lemma_position_leq_total(child_keys(cs));
    ps.lemma_sort_by_ensures(leq);
    lemma_planned_map(cs, order);
    lemma_planned_at_perm(cs, order, ps);
    lemma_planned_at_all(cs, cs.len());
    assert(cs.take(cs.len() as int) =~= cs);
}

proof fn lemma_planned_sum_prefix(cs: Seq<NodeView>, k: int)
    requires
        0 <= k <= cs.len(),
    ensures
        planned_sum(cs.take(k)) <= planned_sum(cs),
        k < cs.len() ==> planned_sum(cs.take(k + 1)) == planned_sum(cs.take(k)) + planned(cs[k]),
        planned_sum(cs) >= cs.len(),
    decreases cs.len(),
{
    if k < cs.len() {
        assert(cs.take(k + 1).drop_last() =~= cs.take(k));
    }
    if cs.len() > 0 {
        lemma_planned_le(cs.last());
        if k == cs.len() {
            assert(cs.take(k) =~= cs);
            lemma_planned_sum_prefix(cs.drop_last(), 0);
        } else {
            assert(cs.drop_last().take(k) =~= cs.take(k));
            lemma_planned_sum_prefix(cs.drop_last(), k);
        }
    } else {
        assert(cs.take(k) =~= cs);
    }
}

/// What the children after the first `k` need is at least one line each.
proof fn lemma_planned_sum_rest(cs: Seq<NodeView>, k: int)
    requires
        0 <= k <= cs.len(),
    ensures
        planned_sum(cs) >= planned_sum(cs.take(k)) + (cs.len() - k),
    decreases cs.len(),
{
    if k == cs.len() {
        assert(cs.take(k) =~= cs);
    } else {
        lemma_planned_sum_rest(cs.drop_last(), k);
        assert(cs.drop_last().take(k) =~= cs.take(k));
        lemma_planned_le(cs.last());
    }
}

proof fn lemma_render_whole(v: NodeView, b: nat, collapse: bool)
    requires
        metadata_consistent(v),
        size(v) <= usize::MAX,
        planned_from(v, collapse) <= b,
    ensures
        render(v, b, collapse).1 == planned_from(v, collapse),
        render(v, b, collapse).2 == 0,
    decreases 2 * size(v) + 1, 0int,
{
    lemma_planned_le(v);
    if v.file_type == FileType::Directory {
        lemma_chain_of_end(v, collapse);
        let t = chain_of(v, collapse).last();
        lemma_planned_sum_prefix(t.children, 0);
        if b == 1 {
            assert(t.children.len() == 0);
            assert(sizes(t.children) == 0);
        } else {
            lemma_sizes_ge_len(t.children);
            lemma_sorted_children(t.children);
            lemma_planned_sorted(t.children);
            let cs = sorted_children(t.children);
            assert forall|i: int| 0 <= i < cs.len() implies metadata_consistent(#[trigger] cs[i]) && size(cs[i]) < size(v) by {
                let p = positions(t.children.len()).sort_by(position_leq(child_keys(t.children)))[i] as int;
                assert(metadata_consistent(t.children[p]));
                crate::file_tree::lemma_sizes_le_one(t.children, p);
            }
            lemma_fold_whole(cs, cs.len(), (b - 1) as nat, size(v));
            assert(cs.take(cs.len() as int) =~= cs);
        }
    }
}

proof fn lemma_fold_whole(cs: Seq<NodeView>, k: nat, start: nat, bound: nat)
    requires
        k <= cs.len(),
        bound <= usize::MAX,
        planned_sum(cs) <= start,
        forall|i: int| 0 <= i < cs.len() ==> metadata_consistent(#[trigger] cs[i]) && size(cs[i]) < bound,
    ensures
        render_fold(cs, k, start, bound).3 == 0,
        render_fold(cs, k, start, bound).2 == planned_sum(cs.take(k as int)),
        render_fold(cs, k, start, bound).1 == start - planned_sum(cs.take(k as int)),
    decreases 2 * bound, k as int,
{
    if k == 0 {
        assert(cs.take(0) =~= Seq::<NodeView>::empty());
    } else {
        lemma_fold_whole(cs, (k - 1) as nat, start, bound);
        let c = cs[k - 1];
        lemma_planned_sum_prefix(cs, k - 1);
        lemma_planned_sum_prefix(cs, k as int);
        lemma_planned_sum_rest(cs, k as int);
        lemma_planned_le(c);
        lemma_render_whole(c, planned(c), true);
    }
}

/// A tree whose whole drawing fits the budget is drawn whole: nothing is left out,
/// and it takes the lines planned for it. The lines planned never exceed the
/// number of nodes, so a tree with no more nodes than the budget is always drawn
/// whole.
pub proof fn law_small_tree_drawn_whole(v: NodeView, max_lines: nat)
    requires
        metadata_consistent(v),
        size(v) <= usize::MAX,
        planned_from(v, false) <= max_lines,
    ensures
        render(v, max_lines, false).2 == 0,
        render(v, max_lines, false).1 == planned_from(v, false),
        smart_drawing(v, max_lines).len() == planned_from(v, false),
        1 <= planned_from(v, false) <= size(v),
{
    if v.file_type == FileType::Directory {
        lemma_planned_sum_le(v.children);
    }
    lemma_render_whole(v, max_lines, false);
    law_smart_drawing_fits(v, max_lines);
}

/// Every entry of the root gets a line of its own when the budget has a line for
/// the root and one for each of its entries: the drawing's children begin with
/// the root's children in score order, each drawn with at least one line.
pub proof fn law_top_level_entries_drawn(v: NodeView, max_lines: nat)
    requires
        metadata_consistent(v),
        size(v) <= usize::MAX,
        v.file_type == FileType::Directory,
        max_lines >= 1 + v.children.len(),
    ensures
        render(v, max_lines, false).0.children.len() >= v.children.len(),
        sorted_children(v.children).len() == v.children.len(),
        forall|i: int|
            0 <= i < v.children.len() ==> drawn_in_some_lines(
                #[trigger] render(v, max_lines, false).0.children[i],
                sorted_children(v.children)[i],
            ),
{
    lemma_sizes_ge_len(v.children);
    lemma_sorted_children(v.children);
    if max_lines > 1 {
        let cs = sorted_children(v.children);
        assert forall|i: int| 0 <= i < cs.len() implies metadata_consistent(#[trigger] cs[i]) && size(cs[i]) < size(v) by {
            let p = positions(v.children.len()).sort_by(position_leq(child_keys(v.children)))[i] as int;
            assert(metadata_consistent(v.children[p]));
            crate::file_tree::lemma_sizes_le_one(v.children, p);
        }
        lemma_fold_all_drawn(cs, cs.len(), (max_lines - 1) as nat, size(v));
        let f = render_fold(cs, cs.len(), (max_lines - 1) as nat, size(v));
        if f.3 > 0 && f.1 > 0 {
            assert forall|i: int| 0 <= i < cs.len() implies #[trigger] f.0.push(summary_view(f.3))[i] == f.0[i] by {}
        }
    }
}

/// `d` is how `c` is drawn when offered some number of lines, at least one.
pub open spec fn drawn_in_some_lines(d: DisplayView, c: NodeView) -> bool {
    exists|b: nat| b >= 1 && d == #[trigger] render(c, b, true).0
}

/// With at least one line for each child, every child is offered a line and
/// enough stays free for those after it.
proof fn lemma_fold_all_drawn(cs: Seq<NodeView>, k: nat, start: nat, bound: nat)
    requires
        k <= cs.len(),
        start >= cs.len(),
        bound <= usize::MAX,
        forall|i: int| 0 <= i < cs.len() ==> metadata_consistent(#[trigger] cs[i]) && size(cs[i]) < bound,
    ensures
        render_fold(cs, k, start, bound).1 >= cs.len() - k,
        render_fold(cs, k, start, bound).0.len() == k,
        forall|i: int| 0 <= i < k ==> drawn_in_some_lines(#[trigger] render_fold(cs, k, start, bound).0[i], cs[i]),
    decreases k,
{
    if k > 0 {
        lemma_fold_all_drawn(cs, (k - 1) as nat, start, bound);
        let prev = render_fold(cs, (k - 1) as nat, start, bound);
        let c = cs[k - 1];
        lemma_planned_le(c);
        let cb = child_budget(prev.1, (cs.len() - k) as nat, planned(c));
        assert(1 <= cb <= prev.1 - (cs.len() - k));
        lemma_render_bounds(c, cb, true);
        let cur = render_fold(cs, k, start, bound);
        assert(cur.0 == prev.0.push(render(c, cb, true).0));
        assert forall|i: int| 0 <= i < k implies drawn_in_some_lines(#[trigger] cur.0[i], cs[i]) by {
            if i < k - 1 {
                assert(cur.0[i] == prev.0[i]);
                assert(drawn_in_some_lines(prev.0[i], cs[i]));
            } else {
                assert(cur.0[i] == render(cs[i], cb, true).0);
                assert(drawn_in_some_lines(cur.0[i], cs[i]));
            }
        }
    }
}


proof fn lemma_passes_width(stack: Seq<bool>)
    ensures
        passes(stack).len() == 4 * stack.len(),
    decreases stack.len(),
{
    reveal_strlit("    ");
    reveal_strlit("│   ");
    if stack.len() > 0 {
        lemma_passes_width(stack.drop_last());
    }
}

/// Every level of nesting takes four characters of prefix; the root has none.
pub proof fn law_prefix_width(stack: Seq<bool>)
    ensures
        prefix_of(stack).len() == 4 * stack.len(),
{
    reveal_strlit("└── ");
    reveal_strlit("├── ");
    if stack.len() > 0 {
        lemma_passes_width(stack.drop_last());
    }
}

proof fn lemma_passes_columns(stack: Seq<bool>)
    ensures
        passes(stack).len() == 4 * stack.len(),
        forall|j: int|
            0 <= j < stack.len() ==> #[trigger] passes(stack).subrange(4 * j, 4 * j + 4) == (if stack[j] {
                "    "@
            } else {
                "│   "@
            }),
    decreases stack.len(),
{
    reveal_strlit("    ");
    reveal_strlit("│   ");
    lemma_passes_width(stack);
    if stack.len() > 0 {
        let s0 = stack.drop_last();
        lemma_passes_columns(s0);
        let p0 = passes(s0);
        let seg = pass_segment(stack.last());
        assert(passes(stack) == p0 + seg);
        assert forall|j: int| 0 <= j < stack.len() implies #[trigger] passes(stack).subrange(4 * j, 4 * j + 4) == (if stack[j] {
            "    "@
        } else {
            "│   "@
        }) by {
            if j < stack.len() - 1 {
                assert(passes(stack).subrange(4 * j, 4 * j + 4) =~= p0.subrange(4 * j, 4 * j + 4));
                assert(stack[j] == s0[j]);
            } else {
                assert(passes(stack).subrange(4 * j, 4 * j + 4) =~= seg);
            }
        }
    }
}

/// The prefix of an entry reads from the root down: the four columns of level `j`
/// hold a blank when the ancestor at depth `j + 1` is the last of its siblings and
/// a rule otherwise, and the last four hold the branch to the entry itself, a
/// corner for a last child and a tee otherwise.
pub proof fn law_prefix_columns(stack: Seq<bool>)
    ensures
        prefix_of(stack).len() == 4 * stack.len(),
        forall|j: int|
            0 <= j < stack.len() - 1 ==> #[trigger] prefix_of(stack).subrange(4 * j, 4 * j + 4) == (if stack[j] {
                "    "@
            } else {
                "│   "@
            }),
        stack.len() > 0 ==> prefix_of(stack).subrange(4 * (stack.len() - 1), 4 * stack.len() as int) == (if stack.last() {
            "└── "@
        } else {
            "├── "@
        }),
{
    reveal_strlit("└── ");
    reveal_strlit("├── ");
    law_prefix_width(stack);
    if stack.len() > 0 {
        let s0 = stack.drop_last();
        lemma_passes_columns(s0);
        let p0 = passes(s0);
        let br = branch_segment(stack.last());
        assert(prefix_of(stack) == p0 + br);
        assert forall|j: int| 0 <= j < stack.len() - 1 implies #[trigger] prefix_of(stack).subrange(4 * j, 4 * j + 4) == (if stack[j] {
            "    "@
        } else {
            "│   "@
        }) by {
            assert(prefix_of(stack).subrange(4 * j, 4 * j + 4) =~= p0.subrange(4 * j, 4 * j + 4));
            assert(stack[j] == s0[j]);
        }
        assert(prefix_of(stack).subrange(4 * (stack.len() - 1), 4 * stack.len() as int) =~= br);
    }
}

/// A node that is not a directory is drawn as it is, on one line with nothing
/// counted: its name, path and link. A directory's line carries the path and link
/// of the last node of the chain drawn on it.
pub proof fn law_drawn_line_carries_the_node(v: NodeView, b: nat, collapse: bool)
    requires
        b >= 1,
        metadata_consistent(v),
    ensures
        v.file_type != FileType::Directory ==> {
            &&& render(v, b, collapse).0.name == v.name
            &&& render(v, b, collapse).0.path == v.path
            &&& render(v, b, collapse).0.link == v.link
            &&& render(v, b, collapse).0.children.len() == 0
            &&& render(v, b, collapse).1 == 1
            &&& render(v, b, collapse).2 == 0
        },
        v.file_type == FileType::Directory ==> {
            &&& render(v, b, collapse).0.path == chain_of(v, collapse).last().path
            &&& render(v, b, collapse).0.link == chain_of(v, collapse).last().link
        },
        !collapse ==> render(v, b, collapse).0.path == v.path && render(v, b, collapse).0.link == v.link,
{
    lemma_chain_of_end(v, collapse);
}

/// Children are offered lines in order of weight: a directory weighs the number of
/// nodes below it plus four for each child directory plus three, anything else
/// weighs one; heavier children come first, and of equal weight the one whose name
/// comes first.
pub proof fn law_children_offered_by_weight(cs: Seq<NodeView>)
    requires
        cs.len() <= usize::MAX,
    ensures
        sorted_children(cs).len() == cs.len(),
        forall|i: int, j: int|
            0 <= i < j < cs.len() ==> {
                let a = #[trigger] sorted_children(cs)[i];
                let b = #[trigger] sorted_children(cs)[j];
                let wa: int = if a.file_type == FileType::Directory {
                    (a.total_descendants + 4 * a.child_dir_count + 3) as int
                } else {
                    1int
                };
                let wb: int = if b.file_type == FileType::Directory {
                    (b.total_descendants + 4 * b.child_dir_count + 3) as int
                } else {
                    1int
                };
                &&& wa >= wb
                &&& wa == wb ==> a.name == b.name || name_lt(a.name, b.name)
            },
{
    lemma_sorted_children(cs);
    let ord = positions(cs.len()).sort_by(position_leq(child_keys(cs)));
    let keys = child_keys(cs);
    assert forall|i: int, j: int| 0 <= i < j < cs.len() implies {
        let a = #[trigger] sorted_children(cs)[i];
        let b = #[trigger] sorted_children(cs)[j];
        let wa: int = if a.file_type == FileType::Directory {
            (a.total_descendants + 4 * a.child_dir_count + 3) as int
        } else {
            1int
        };
        let wb: int = if b.file_type == FileType::Directory {
            (b.total_descendants + 4 * b.child_dir_count + 3) as int
        } else {
            1int
        };
        &&& wa >= wb
        &&& wa == wb ==> a.name == b.name || name_lt(a.name, b.name)
    } by {
        let p = ord[i] as int;
        let q = ord[j] as int;
        assert(position_leq(keys)(ord[i], ord[j]));
        assert(keys[p] == (score_of(cs[p]), cs[p].name));
        assert(keys[q] == (score_of(cs[q]), cs[q].name));
    }
}

/// Nothing is left out silently: when entries are hidden, their number is shown,
/// after the directory's name or on a line of its own as the last child.
pub proof fn law_hidden_entries_are_counted(v: NodeView, max_lines: nat, collapse: bool)
    requires
        max_lines >= 1,
        render(v, max_lines, collapse).2 > 0,
    ensures
        ({
            let d = render(v, max_lines, collapse).0;
            let n = render(v, max_lines, collapse).2;
            d.name == with_count(skinny_label(chain_names(chain_of(v, collapse))), n) || (d.children.len() > 0
                && d.children.last() == summary_view(n))
        }),
{
}

} // verus!
