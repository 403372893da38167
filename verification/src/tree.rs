//! Trees: the nested directory structure that a flat list of staged paths
//! stands for, and its serialization into tree objects.
//!
//! The children of a directory are kept in the order of their names, so that
//! the same set of staged paths always gives the same tree objects.
//!
//! Where a staged path asks for a directory at a name that holds a file, or
//! for a file at a name that holds a directory, the later entry wins: it
//! replaces what the name held.
use crate::digest::{digest_of, Digest};
use crate::error::Error;
use crate::object::{storable, stored_form, ObjectKind, ObjectStore, ObjectView};
use crate::index::{entry_views, records, EntryView, StagingIndex};
use crate::names::{
    compare_names, lemma_precedes_irreflexive, lemma_precedes_total, lemma_precedes_transitive,
    precedes, NameOrder,
};
use crate::text::{
    lemma_split_segments, split, split_text, text_bytes, to_bytes, views, Separator,
};
use vstd::prelude::*;

verus! {

/// A node of the snapshot: a file, by the digest of its content, or a directory.
#[derive(Debug, PartialEq, Eq)]
pub enum TreeNode {
    Blob(Digest),
    Tree(Vec<TreeChild>),
}

/// A named child of a directory.
#[derive(Debug, PartialEq, Eq)]
pub struct TreeChild {
    pub name: String,
    pub node: TreeNode,
}

/// A node as the contracts see it.
pub ghost enum NodeView {
    Blob(Seq<char>),
    Tree(Seq<ChildView>),
}

/// A named child as the contracts see it.
pub ghost struct ChildView {
    pub name: Seq<char>,
    pub node: NodeView,
}

impl TreeNode {
    pub open spec fn view(&self) -> NodeView
        decreases self,
    {
        match self {
            TreeNode::Blob(d) => NodeView::Blob(d@),
            TreeNode::Tree(v) => NodeView::Tree(
                Seq::new(
                    v@.len(),
                    |i: int|
                        if 0 <= i < v@.len() {
                            ChildView { name: v@[i].name@, node: v@[i].node.view() }
                        } else {
                            ChildView { name: Seq::empty(), node: NodeView::Blob(Seq::empty()) }
                        },
                ),
            ),
        }
    }
}

impl View for TreeChild {
    type V = ChildView;

    open spec fn view(&self) -> ChildView {
        ChildView { name: self.name@, node: self.node.view() }
    }
}

/// The views of the children of a directory.
pub open spec fn child_views(children: Seq<TreeChild>) -> Seq<ChildView> {
    Seq::new(children.len(), |i: int| children[i]@)
}

/// The view of a directory is the list of the views of its children.
pub proof fn lemma_tree_view(children: Vec<TreeChild>)
    ensures
        TreeNode::Tree(children).view() == NodeView::Tree(child_views(children@)),
{
    let node = TreeNode::Tree(children);
    assert(node.view()->Tree_0 =~= child_views(children@));
}

/// The children are in the strict order of their names, so no name occurs twice.
pub open spec fn sorted(children: Seq<ChildView>) -> bool {
    forall|i: int, j: int|
        0 <= i < j < children.len() ==> precedes(
            (#[trigger] children[i]).name,
            (#[trigger] children[j]).name,
        )
}

/// Every directory below, and this one, has its children in order.
pub open spec fn wf_children(children: Seq<ChildView>) -> bool
    decreases children,
{
    sorted(children) && forall|i: int|
        0 <= i < children.len() ==> wf_node((#[trigger] children[i]).node)
}

/// A file, or a directory that has its children in order at every level.
pub open spec fn wf_node(node: NodeView) -> bool
    decreases node,
{
    match node {
        NodeView::Blob(_) => true,
        NodeView::Tree(children) => wf_children(children),
    }
}

/// The node that a directory holds under a name.
pub open spec fn find_child(children: Seq<ChildView>, name: Seq<char>) -> Option<NodeView>
    decreases children.len(),
{
    if children.len() == 0 {
        None
    } else if children[0].name == name {
        Some(children[0].node)
    } else {
        find_child(children.drop_first(), name)
    }
}

/// The children of the directory held under a name; none where the name is
/// free or holds a file.
pub open spec fn subtree(children: Seq<ChildView>, name: Seq<char>) -> Seq<ChildView> {
    match find_child(children, name) {
        Some(NodeView::Tree(sub)) => sub,
        _ => Seq::empty(),
    }
}

/// The directory with `child` put under its name: in place of the child of
/// that name, or else before the first child whose name comes after.
pub open spec fn upsert(children: Seq<ChildView>, child: ChildView) -> Seq<ChildView>
    decreases children.len(),
{
    if children.len() == 0 {
        seq![child]
    } else if children[0].name == child.name {
        seq![child] + children.drop_first()
    } else if precedes(child.name, children[0].name) {
        seq![child] + children
    } else {
        seq![children[0]] + upsert(children.drop_first(), child)
    }
}

/// The directory after a file with the given digest was put at the path made
/// of the segments from `k` on. Directories on the way are made as needed; a
/// file on the way gives place to a directory.
pub open spec fn insert_path(
    children: Seq<ChildView>,
    segments: Seq<Seq<char>>,
    k: int,
    digest: Seq<char>,
) -> Seq<ChildView>
    decreases segments.len() - k,
{
    if k + 1 >= segments.len() {
        upsert(children, ChildView { name: segments[k], node: NodeView::Blob(digest) })
    } else {
        upsert(
            children,
            ChildView {
                name: segments[k],
                node: NodeView::Tree(
                    insert_path(subtree(children, segments[k]), segments, k + 1, digest),
                ),
            },
        )
    }
}

/// The segments of a path are separated by a slash.
pub open spec fn path_separator() -> Separator {
    Separator::Char('/')
}

/// The root directory after one more staged entry.
pub open spec fn stage(children: Seq<ChildView>, entry: EntryView) -> Seq<ChildView> {
    insert_path(children, split(entry.path, path_separator()), 0, entry.digest)
}

/// The root directory that a list of staged entries stands for: the entries
/// are put in one after the other, starting from an empty directory.
pub open spec fn tree_of(entries: Seq<EntryView>) -> Seq<ChildView>
    decreases entries.len(),
{
    if entries.len() == 0 {
        Seq::empty()
    } else {
        stage(tree_of(entries.drop_last()), entries.last())
    }
}

/// `name` belongs after the child: the child's name is another one that
/// does not come after `name`.
pub open spec fn passes(child: ChildView, name: Seq<char>) -> bool {
    child.name != name && !precedes(name, child.name)
}

/// Where the search for the place of `name` stops at position `p`, the child
/// is put there: in place of the child at `p` if that has the name, else
/// before it.
pub proof fn lemma_upsert_at(children: Seq<ChildView>, child: ChildView, p: int)
    requires
        0 <= p <= children.len(),
        forall|j: int| 0 <= j < p ==> passes(#[trigger] children[j], child.name),
        p == children.len() || children[p].name == child.name || precedes(
            child.name,
            children[p].name,
        ),
    ensures
        upsert(children, child) == if p < children.len() && children[p].name == child.name {
            children.update(p, child)
        } else {
            children.insert(p, child)
        },
    decreases p,
{
    if p == 0 {
        if children.len() == 0 {
            assert(seq![child] =~= children.insert(0, child));
        } else if children[0].name == child.name {
            assert(seq![child] + children.drop_first() =~= children.update(0, child));
        } else {
            assert(seq![child] + children =~= children.insert(0, child));
        }
    } else {
        let rest = children.drop_first();
        assert(passes(children[0], child.name));
        assert forall|j: int| 0 <= j < p - 1 implies passes(#[trigger] rest[j], child.name) by {
            assert(rest[j] == children[j + 1]);
        }
        lemma_upsert_at(rest, child, p - 1);
        if p < children.len() && children[p].name == child.name {
            assert(seq![children[0]] + rest.update(p - 1, child) =~= children.update(p, child));
        } else {
            assert(seq![children[0]] + rest.insert(p - 1, child) =~= children.insert(p, child));
        }
    }
}

/// Putting a child into an ordered directory leaves it ordered.
pub proof fn lemma_upsert_sorted(children: Seq<ChildView>, child: ChildView, p: int)
    requires
        sorted(children),
        0 <= p <= children.len(),
        forall|j: int| 0 <= j < p ==> passes(#[trigger] children[j], child.name),
        p == children.len() || children[p].name == child.name || precedes(
            child.name,
            children[p].name,
        ),
    ensures
        sorted(upsert(children, child)),
{
    lemma_upsert_at(children, child, p);
    let out = upsert(children, child);
    if p < children.len() && children[p].name == child.name {
        assert forall|i: int, j: int| 0 <= i < j < out.len() implies precedes(
            (#[trigger] out[i]).name,
            (#[trigger] out[j]).name,
        ) by {
            assert(out[i].name == children[i].name);
            assert(out[j].name == children[j].name);
        }
    } else {
        assert forall|i: int, j: int| 0 <= i < j < out.len() implies precedes(
            (#[trigger] out[i]).name,
            (#[trigger] out[j]).name,
        ) by {
            if j < p {
                assert(out[i] == children[i] && out[j] == children[j]);
            } else if j == p {
                assert(out[i] == children[i]);
                assert(passes(children[i], child.name));
                lemma_precedes_total(children[i].name, child.name);
            } else if i < p {
                assert(out[i] == children[i] && out[j] == children[j - 1]);
            } else if i == p {
                assert(out[j] == children[j - 1]);
                if j - 1 > p {
                    lemma_precedes_transitive(child.name, children[p].name, children[j - 1].name);
                }
            } else {
                assert(out[i] == children[i - 1] && out[j] == children[j - 1]);
            }
        }
    }
}

/// A directory in which no child has the name holds nothing under it.
pub proof fn lemma_find_absent(children: Seq<ChildView>, name: Seq<char>)
    requires
        forall|j: int| 0 <= j < children.len() ==> (#[trigger] children[j]).name != name,
    ensures
        find_child(children, name) is None,
    decreases children.len(),
{
    if children.len() > 0 {
        let rest = children.drop_first();
        assert(children[0].name != name);
        assert forall|j: int| 0 <= j < rest.len() implies (#[trigger] rest[j]).name != name by {
            assert(rest[j] == children[j + 1]);
        }
        lemma_find_absent(rest, name);
    }
}

/// What an ordered directory holds under a name, given where the search for
/// the name stopped.
pub proof fn lemma_find_at(children: Seq<ChildView>, name: Seq<char>, p: int)
    requires
        sorted(children),
        0 <= p <= children.len(),
        forall|j: int| 0 <= j < p ==> passes(#[trigger] children[j], name),
        p == children.len() || children[p].name == name || precedes(name, children[p].name),
    ensures
        find_child(children, name) == if p < children.len() && children[p].name == name {
            Some(children[p].node)
        } else {
            None
        },
    decreases p,
{
    if p == 0 {
        if children.len() > 0 && children[0].name != name {
            assert forall|j: int| 0 <= j < children.len() implies (#[trigger] children[j]).name
                != name by {
                if j > 0 {
                    lemma_precedes_transitive(name, children[0].name, children[j].name);
                }
                lemma_precedes_irreflexive(name);
            }
            lemma_find_absent(children, name);
        }
    } else {
        let rest = children.drop_first();
        assert(passes(children[0], name));
        assert forall|j: int| 0 <= j < p - 1 implies passes(#[trigger] rest[j], name) by {
            assert(rest[j] == children[j + 1]);
        }
        assert forall|i: int, j: int| 0 <= i < j < rest.len() implies precedes(
            (#[trigger] rest[i]).name,
            (#[trigger] rest[j]).name,
        ) by {
            assert(rest[i] == children[i + 1] && rest[j] == children[j + 1]);
        }
        lemma_find_at(rest, name, p - 1);
    }
}

/// After a child was put under its name, the directory holds the child's node
/// under that name, and under every other name what it held before.
pub proof fn lemma_find_upsert(children: Seq<ChildView>, child: ChildView, name: Seq<char>)
    ensures
        find_child(upsert(children, child), name) == if name == child.name {
            Some(child.node)
        } else {
            find_child(children, name)
        },
    decreases children.len(),
{
    let out = upsert(children, child);
    if children.len() == 0 {
        assert(out.drop_first() =~= children);
    } else if children[0].name == child.name {
        assert(out.drop_first() =~= children.drop_first());
    } else if precedes(child.name, children[0].name) {
        assert(out.drop_first() =~= children);
    } else {
        assert(out.drop_first() =~= upsert(children.drop_first(), child));
        lemma_find_upsert(children.drop_first(), child, name);
    }
}

/// The number of children at the front after which `name` belongs.
pub open spec fn rank(children: Seq<ChildView>, name: Seq<char>) -> int
    decreases children.len(),
{
    if children.len() == 0 || !passes(children[0], name) {
        0
    } else {
        1 + rank(children.drop_first(), name)
    }
}

/// The rank of a name is where the search for its place stops.
pub proof fn lemma_rank(children: Seq<ChildView>, name: Seq<char>)
    ensures
        0 <= rank(children, name) <= children.len(),
        forall|j: int| 0 <= j < rank(children, name) ==> passes(#[trigger] children[j], name),
        rank(children, name) == children.len() || children[rank(children, name)].name == name
            || precedes(name, children[rank(children, name)].name),
    decreases children.len(),
{
    if children.len() > 0 && passes(children[0], name) {
        let rest = children.drop_first();
        lemma_rank(rest, name);
        assert forall|j: int| 0 <= j < rank(children, name) implies passes(
            #[trigger] children[j],
            name,
        ) by {
            if j > 0 {
                assert(children[j] == rest[j - 1]);
            }
        }
        if rank(rest, name) < rest.len() {
            assert(children[rank(children, name)] == rest[rank(rest, name)]);
        }
    }
}

/// What a directory holds under a name is the node of a child of that name.
pub proof fn lemma_find_is_child(children: Seq<ChildView>, name: Seq<char>)
    ensures
        find_child(children, name) matches Some(node) ==> exists|i: int|
            0 <= i < children.len() && (#[trigger] children[i]).node == node && children[i].name
                == name,
    decreases children.len(),
{
    if children.len() > 0 {
        if children[0].name == name {
            assert(children[0].node == find_child(children, name)->0);
        } else {
            let rest = children.drop_first();
            lemma_find_is_child(rest, name);
            if find_child(rest, name) is Some {
                let node = find_child(rest, name)->0;
                let i = choose|i: int|
                    0 <= i < rest.len() && (#[trigger] rest[i]).node == node && rest[i].name
                        == name;
                assert(children[i + 1].node == node && children[i + 1].name == name);
            }
        }
    }
}

/// Putting a file at a path keeps every directory in order.
pub proof fn lemma_insert_path_wf(
    children: Seq<ChildView>,
    segments: Seq<Seq<char>>,
    k: int,
    digest: Seq<char>,
)
    requires
        wf_children(children),
        0 <= k < segments.len(),
    ensures
        wf_children(insert_path(children, segments, k, digest)),
    decreases segments.len() - k,
{
    let name = segments[k];
    let sub = subtree(children, name);
    lemma_subtree_wf(children, name);
    let node = if k + 1 >= segments.len() {
        NodeView::Blob(digest)
    } else {
        lemma_insert_path_wf(sub, segments, k + 1, digest);
        NodeView::Tree(insert_path(sub, segments, k + 1, digest))
    };
    let child = ChildView { name, node };
    let p = rank(children, name);
    lemma_rank(children, name);
    lemma_upsert_at(children, child, p);
    lemma_upsert_sorted(children, child, p);
    let out = upsert(children, child);
    assert(out == insert_path(children, segments, k, digest));
    assert forall|i: int| 0 <= i < out.len() implies wf_node((#[trigger] out[i]).node) by {
        if p < children.len() && children[p].name == name {
            if i != p {
                assert(out[i] == children[i]);
            }
        } else if i < p {
            assert(out[i] == children[i]);
        } else if i > p {
            assert(out[i] == children[i - 1]);
        }
    }
}

/// Putting a child into an ordered directory leaves it ordered.
pub proof fn lemma_upsert_keeps_sorted(children: Seq<ChildView>, child: ChildView)
    requires
        sorted(children),
    ensures
        sorted(upsert(children, child)),
{
    lemma_rank(children, child.name);
    lemma_upsert_sorted(children, child, rank(children, child.name));
}

/// The directory under a name of an ordered tree is ordered too.
pub proof fn lemma_subtree_wf(children: Seq<ChildView>, name: Seq<char>)
    requires
        wf_children(children),
    ensures
        wf_children(subtree(children, name)),
{
    lemma_find_is_child(children, name);
    if find_child(children, name) is Some {
        let node = find_child(children, name)->0;
        let i = choose|i: int|
            0 <= i < children.len() && (#[trigger] children[i]).node == node && children[i].name
                == name;
        assert(wf_node(children[i].node));
    }
}

/// The place of a name in an ordered directory: the position where the search
/// stops, and whether the child there has the name.
fn locate(children: &Vec<TreeChild>, name: &str) -> (r: (usize, bool))
    ensures
        r.0 <= children@.len(),
        forall|j: int| 0 <= j < r.0 ==> passes(#[trigger] child_views(children@)[j], name@),
        r.1 ==> r.0 < children@.len() && children@[r.0 as int].name@ == name@,
        !r.1 ==> r.0 == children@.len() || precedes(name@, children@[r.0 as int].name@),
{
    let mut p: usize = 0;
    while p < children.len()
        invariant
            p <= children.len(),
            forall|j: int| 0 <= j < p ==> passes(#[trigger] child_views(children@)[j], name@),
        decreases children.len() - p,
    {
        match compare_names(name, children[p].name.as_str()) {
            NameOrder::Same => {
                return (p, true);
            },
            NameOrder::Before => {
                return (p, false);
            },
            NameOrder::After => {},
        }
        p = p + 1;
    }
    (p, false)
}

/// Puts a file with the given digest at the path made of the segments from
/// `k` on, below the given directory.
fn insert_at(children: Vec<TreeChild>, segments: &Vec<String>, k: usize, digest: &Digest) -> (out:
    Vec<TreeChild>)
    requires
        k < segments@.len(),
        wf_children(child_views(children@)),
    ensures
        child_views(out@) == insert_path(
            child_views(children@),
            views(segments@),
            k as int,
            digest@,
        ),
        wf_children(child_views(out@)),
    decreases segments@.len() - k,
{
    let mut children = children;
    let ghost before = child_views(children@);
    let ghost name = segments@[k as int]@;
    let (p, found) = locate(&children, segments[k].as_str());
    proof {
        lemma_precedes_irreflexive(name);
        lemma_find_at(before, name, p as int);
        assert(views(segments@)[k as int] == name);
    }
    let sub: Vec<TreeChild> = if found {
        let old = children.remove(p);
        assert(old@ == before[p as int]);
        match old.node {
            TreeNode::Tree(v) => {
                proof {
                    lemma_tree_view(v);
                    assert(before[p as int].node == NodeView::Tree(child_views(v@)));
                    assert(wf_node(before[p as int].node));
                }
                v
            },
            TreeNode::Blob(_) => {
                let v: Vec<TreeChild> = Vec::new();
                assert(child_views(v@) =~= Seq::<ChildView>::empty());
                v
            },
        }
    } else {
        let v: Vec<TreeChild> = Vec::new();
        assert(child_views(v@) =~= Seq::<ChildView>::empty());
        v
    };
    assert(child_views(sub@) == subtree(before, name));
    assert(wf_children(child_views(sub@)));
    let last = segments.len() - 1;
    let node = if k == last {
        TreeNode::Blob(digest.clone())
    } else {
        let below = insert_at(sub, segments, k + 1, digest);
        proof {
            lemma_tree_view(below);
        }
        TreeNode::Tree(below)
    };
    let child = TreeChild { name: segments[k].clone(), node };
    proof {
        lemma_upsert_at(before, child@, p as int);
        lemma_insert_path_wf(before, views(segments@), k as int, digest@);
    }
    children.insert(p, child);
    proof {
        if found {
            assert(child_views(children@) =~= before.update(p as int, child@));
        } else {
            assert(child_views(children@) =~= before.insert(p as int, child@));
        }
    }
    children
}

/// Builds the root directory that the staged entries of the ledger stand for.
pub fn index_tree(index: &StagingIndex) -> (tree: Vec<TreeChild>)
    ensures
        child_views(tree@) == tree_of(records(index@)),
        wf_children(child_views(tree@)),
{
    let entries = index.read_all();
    let mut root: Vec<TreeChild> = Vec::new();
    assert(child_views(root@) =~= Seq::<ChildView>::empty());
    let mut i: usize = 0;
    while i < entries.len()
        invariant
            i <= entries.len(),
            child_views(root@) == tree_of(entry_views(entries@).take(i as int)),
            wf_children(child_views(root@)),
        decreases entries.len() - i,
    {
        let segments = split_text(entries[i].path.as_str(), Separator::Char('/'));
        proof {
            lemma_split_segments(entries@[i as int].path@, path_separator());
            assert(views(segments@).len() == segments@.len());
            let all = entry_views(entries@);
            assert(all.take(i + 1).drop_last() =~= all.take(i as int));
            assert(all.take(i + 1).last() == entries@[i as int]@);
        }
        root = insert_at(root, &segments, 0, &entries[i].digest);
        i = i + 1;
    }
    proof {
        assert(entry_views(entries@).take(entries.len() as int) =~= entry_views(entries@));
    }
    root
}

/// The line that stands for a child in the text of its directory: the word
/// `blob` or `tree`, the digest of the file or of the child directory's own
/// tree object, and the name.
pub open spec fn child_line(child: ChildView) -> Seq<char>
    decreases child, 0int,
{
    match child.node {
        NodeView::Blob(digest) => "blob "@ + digest + " "@ + child.name + "\n"@,
        NodeView::Tree(sub) => "tree "@ + tree_digest(sub) + " "@ + child.name + "\n"@,
    }
}

/// The text of a directory's tree object: one line per child, in order.
pub open spec fn tree_text(children: Seq<ChildView>) -> Seq<char>
    decreases children, 0int,
{
    if children.len() == 0 {
        Seq::empty()
    } else {
        tree_text(children.drop_last()) + child_line(children.last())
    }
}

/// The digest of a directory's tree object: that of its text.
pub open spec fn tree_digest(children: Seq<ChildView>) -> Seq<char>
    decreases children, 1int,
{
    digest_of(text_bytes(tree_text(children)))
}

/// Every directory below can be stored.
pub open spec fn subtrees_storable(children: Seq<ChildView>) -> bool
    decreases children, 0int,
{
    if children.len() == 0 {
        true
    } else {
        subtrees_storable(children.drop_last()) && match children.last().node {
            NodeView::Blob(_) => true,
            NodeView::Tree(sub) => tree_storable(sub),
        }
    }
}

/// The tree object of the directory, and of every directory below, can be stored.
pub open spec fn tree_storable(children: Seq<ChildView>) -> bool
    decreases children, 1int,
{
    subtrees_storable(children) && storable(text_bytes(tree_text(children)))
}

/// The store after the tree objects of the directories below were written,
/// child by child in order, as far as the first that cannot be stored.
pub open spec fn store_subtrees(
    objects: Map<Seq<char>, ObjectView>,
    children: Seq<ChildView>,
) -> Map<Seq<char>, ObjectView>
    decreases children, 0int,
{
    if children.len() == 0 {
        objects
    } else if !subtrees_storable(children.drop_last()) {
        store_subtrees(objects, children.drop_last())
    } else {
        let before = store_subtrees(objects, children.drop_last());
        match children.last().node {
            NodeView::Blob(_) => before,
            NodeView::Tree(sub) => store_tree(before, sub),
        }
    }
}

/// The store after the tree objects of the directories below were written,
/// and then, if all of them and the directory's own can be stored, its own.
pub open spec fn store_tree(
    objects: Map<Seq<char>, ObjectView>,
    children: Seq<ChildView>,
) -> Map<Seq<char>, ObjectView>
    decreases children, 1int,
{
    let below = store_subtrees(objects, children);
    if tree_storable(children) {
        below.insert(
            tree_digest(children),
            stored_form(ObjectKind::Tree, text_bytes(tree_text(children))),
        )
    } else {
        below
    }
}

/// Writing stops at the first directory that cannot be stored: the children
/// after it leave no trace.
pub proof fn lemma_store_subtrees_stops(
    objects: Map<Seq<char>, ObjectView>,
    children: Seq<ChildView>,
    n: int,
)
    requires
        0 <= n <= children.len(),
        !subtrees_storable(children.take(n)),
    ensures
        store_subtrees(objects, children) == store_subtrees(objects, children.take(n)),
        !subtrees_storable(children),
    decreases children.len(),
{
    if n == children.len() {
        assert(children.take(n) =~= children);
    } else {
        let init = children.drop_last();
        assert(init.take(n) =~= children.take(n));
        lemma_store_subtrees_stops(objects, init, n);
    }
}

/// Writes the tree object of a directory, after those of the directories
/// below it, and returns its digest. Writing stops at the first tree object
/// that cannot be stored. Objects that the store held before stay.
pub fn build_tree(tree: &Vec<TreeChild>, store: &mut ObjectStore) -> (r: Result<Digest, Error>)
    ensures
        final(store)@ == store_tree(old(store)@, child_views(tree@)),
        match r {
            Ok(d) => tree_storable(child_views(tree@)) && d@ == tree_digest(child_views(tree@)),
            Err(e) => e == Error::IOFailure && !tree_storable(child_views(tree@)),
        },
        forall|k: Seq<char>| old(store)@.contains_key(k) ==> final(store)@.contains_key(k),
    decreases tree,
{
    let ghost start = store@;
    let ghost all = child_views(tree@);
    let mut text = String::new();
    let mut i: usize = 0;
    while i < tree.len()
        invariant
            i <= tree.len(),
            all == child_views(tree@),
            start == old(store)@,
            text@ == tree_text(all.take(i as int)),
            subtrees_storable(all.take(i as int)),
            store@ == store_subtrees(start, all.take(i as int)),
            forall|k: Seq<char>| start.contains_key(k) ==> store@.contains_key(k),
        decreases tree.len() - i,
    {
        let child = &tree[i];
        proof {
            assert(all.take(i + 1).drop_last() =~= all.take(i as int));
            assert(all.take(i + 1).last() == child@);
        }
        match &child.node {
            TreeNode::Blob(digest) => {
                text.append("blob ");
                text.append(digest.as_str());
            },
            TreeNode::Tree(sub) => {
                proof {
                    lemma_tree_view(*sub);
                }
                let ghost mid = store@;
                let built = build_tree(sub, store);
                assert forall|k: Seq<char>| start.contains_key(k) implies store@.contains_key(
                    k,
                ) by {
                    assert(mid.contains_key(k));
                }
                match built {
                    Ok(digest) => {
                        text.append("tree ");
                        text.append(digest.as_str());
                    },
                    Err(e) => {
                        proof {
                            lemma_store_subtrees_stops(start, all, i + 1);
                        }
                        return Err(e);
                    },
                }
            },
        }
        text.append(" ");
        text.append(child.name.as_str());
        text.append("\n");
        assert(text@ =~= tree_text(all.take(i as int)) + child_line(child@));
        i = i + 1;
    }
    proof {
        assert(all.take(tree.len() as int) =~= all);
    }
    let payload = to_bytes(text.as_str());
    store.put(ObjectKind::Tree, payload.as_slice())
}

} // verus!
