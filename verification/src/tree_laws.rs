//! What holds of the tree that a ledger stands for: every directory is in
//! order, each staged path leads to its file, and entries whose paths part
//! from one another can be staged in any order.
use crate::index::EntryView;
use crate::names::{lemma_precedes_irreflexive, lemma_precedes_transitive, precedes};
use crate::text::{lemma_split_segments, split};
use crate::tree::{
    find_child, insert_path, lemma_find_absent, lemma_find_is_child, lemma_find_upsert,
    lemma_insert_path_wf, lemma_subtree_wf, lemma_upsert_keeps_sorted, path_separator, sorted,
    stage, subtree, tree_of, upsert, wf_children, ChildView, NodeView,
};
use vstd::prelude::*;

verus! {

/// The node at the path made of the segments from `k` on, below a directory.
pub open spec fn node_at(children: Seq<ChildView>, segments: Seq<Seq<char>>, k: int) -> Option<
    NodeView,
>
    decreases segments.len() - k,
{
    if k >= segments.len() {
        None
    } else {
        match find_child(children, segments[k]) {
            None => None,
            Some(node) => if k + 1 == segments.len() {
                Some(node)
            } else {
                match node {
                    NodeView::Tree(sub) => node_at(sub, segments, k + 1),
                    NodeView::Blob(_) => None,
                }
            },
        }
    }
}

/// After a file was put at a path, the path leads to that file.
pub proof fn lemma_insert_then_find(
    children: Seq<ChildView>,
    segments: Seq<Seq<char>>,
    k: int,
    digest: Seq<char>,
)
    requires
        0 <= k < segments.len(),
    ensures
        node_at(insert_path(children, segments, k, digest), segments, k) == Some(
            NodeView::Blob(digest),
        ),
    decreases segments.len() - k,
{
    let name = segments[k];
    if k + 1 >= segments.len() {
        lemma_find_upsert(children, ChildView { name, node: NodeView::Blob(digest) }, name);
    } else {
        let below = insert_path(subtree(children, name), segments, k + 1, digest);
        lemma_find_upsert(children, ChildView { name, node: NodeView::Tree(below) }, name);
        lemma_insert_then_find(subtree(children, name), segments, k + 1, digest);
    }
}

/// Putting a file at a path leaves every path that parts from it as it was:
/// where `other` differs from the path at position `j`, and not before, what
/// `other` leads to is unchanged.
pub proof fn lemma_insert_keeps_other_paths(
    children: Seq<ChildView>,
    segments: Seq<Seq<char>>,
    k: int,
    digest: Seq<char>,
    other: Seq<Seq<char>>,
    j: int,
)
    requires
        0 <= k <= j,
        j < segments.len(),
        j < other.len(),
        other[j] != segments[j],
        forall|i: int| k <= i < j ==> other[i] == segments[i],
    ensures
        node_at(insert_path(children, segments, k, digest), other, k) == node_at(
            children,
            other,
            k,
        ),
    decreases segments.len() - k,
{
    let name = segments[k];
    if k + 1 >= segments.len() {
        lemma_find_upsert(children, ChildView { name, node: NodeView::Blob(digest) }, other[k]);
    } else {
        let sub = subtree(children, name);
        let below = insert_path(sub, segments, k + 1, digest);
        lemma_find_upsert(children, ChildView { name, node: NodeView::Tree(below) }, other[k]);
        if k < j {
            lemma_insert_keeps_other_paths(sub, segments, k + 1, digest, other, j);
            assert(find_child(Seq::<ChildView>::empty(), other[k + 1]) is None);
        }
    }
}

/// The tree of a list of staged entries holds, at the path of the entry staged
/// last, the digest of that entry.
pub proof fn lemma_last_entry_is_in_tree(entries: Seq<EntryView>)
    requires
        entries.len() > 0,
    ensures
        node_at(tree_of(entries), split(entries.last().path, path_separator()), 0) == Some(
            NodeView::Blob(entries.last().digest),
        ),
{
    let last = entries.last();
    lemma_split_segments(last.path, path_separator());
    lemma_insert_then_find(
        tree_of(entries.drop_last()),
        split(last.path, path_separator()),
        0,
        last.digest,
    );
}

/// The segments of the path of a staged entry.
pub open spec fn segments_of(entry: EntryView) -> Seq<Seq<char>> {
    split(entry.path, path_separator())
}

/// Two paths part at position `j`: they agree before it and differ at it.
pub open spec fn part_at(a: Seq<Seq<char>>, b: Seq<Seq<char>>, j: int) -> bool {
    0 <= j < a.len() && j < b.len() && a[j] != b[j] && forall|i: int|
        0 <= i < j ==> a[i] == b[i]
}

/// Two paths part somewhere: they differ, and neither leads through the other.
pub open spec fn part(a: Seq<Seq<char>>, b: Seq<Seq<char>>) -> bool {
    exists|j: int| part_at(a, b, j)
}

/// Where the staged paths part from one another, the tree holds every entry:
/// the path of each leads to a file with its digest.
pub proof fn lemma_tree_holds_every_entry(entries: Seq<EntryView>, i: int)
    requires
        0 <= i < entries.len(),
        forall|a: int, b: int|
            0 <= a < b < entries.len() ==> part(
                segments_of(#[trigger] entries[a]),
                segments_of(#[trigger] entries[b]),
            ),
    ensures
        node_at(tree_of(entries), segments_of(entries[i]), 0) == Some(
            NodeView::Blob(entries[i].digest),
        ),
    decreases entries.len(),
{
    let last = entries.last();
    if i == entries.len() - 1 {
        lemma_last_entry_is_in_tree(entries);
    } else {
        let init = entries.drop_last();
        assert forall|a: int, b: int| 0 <= a < b < init.len() implies part(
            segments_of(#[trigger] init[a]),
            segments_of(#[trigger] init[b]),
        ) by {
            assert(init[a] == entries[a] && init[b] == entries[b]);
        }
        lemma_tree_holds_every_entry(init, i);
        assert(init[i] == entries[i]);
        assert(part(segments_of(entries[i]), segments_of(entries[entries.len() - 1])));
        let j = choose|j: int| part_at(segments_of(entries[i]), segments_of(last), j);
        lemma_insert_keeps_other_paths(
            tree_of(init),
            segments_of(last),
            0,
            last.digest,
            segments_of(entries[i]),
            j,
        );
    }
}

/// The tree of any list of staged entries has every directory in order: at
/// each level the names are in strict order, so no name occurs twice.
pub proof fn lemma_tree_of_wf(entries: Seq<EntryView>)
    ensures
        wf_children(tree_of(entries)),
    decreases entries.len(),
{
    if entries.len() > 0 {
        lemma_tree_of_wf(entries.drop_last());
        lemma_split_segments(entries.last().path, path_separator());
        lemma_insert_path_wf(
            tree_of(entries.drop_last()),
            split(entries.last().path, path_separator()),
            0,
            entries.last().digest,
        );
    }
}

/// In an ordered directory no name occurs twice.
pub proof fn lemma_sorted_names_differ(children: Seq<ChildView>, i: int, j: int)
    requires
        sorted(children),
        0 <= i < j < children.len(),
    ensures
        children[i].name != children[j].name,
{
    lemma_precedes_irreflexive(children[i].name);
}

proof fn lemma_sorted_rest(children: Seq<ChildView>)
    requires
        sorted(children),
        children.len() > 0,
    ensures
        sorted(children.drop_first()),
        find_child(children.drop_first(), children[0].name) is None,
{
    let rest = children.drop_first();
    assert forall|i: int, j: int| 0 <= i < j < rest.len() implies precedes(
        (#[trigger] rest[i]).name,
        (#[trigger] rest[j]).name,
    ) by {
        assert(rest[i] == children[i + 1] && rest[j] == children[j + 1]);
    }
    assert forall|j: int| 0 <= j < rest.len() implies (#[trigger] rest[j]).name
        != children[0].name by {
        assert(rest[j] == children[j + 1]);
        lemma_sorted_names_differ(children, 0, j + 1);
    }
    lemma_find_absent(rest, children[0].name);
}

/// An ordered directory is determined by what it holds under each name: two
/// ordered directories that hold the same under every name are the same.
pub proof fn lemma_sorted_is_canonical(x: Seq<ChildView>, y: Seq<ChildView>)
    requires
        sorted(x),
        sorted(y),
        forall|name: Seq<char>| find_child(x, name) == find_child(y, name),
    ensures
        x == y,
    decreases x.len(),
{
    if x.len() == 0 {
        if y.len() > 0 {
            assert(find_child(y, y[0].name) is Some);
            assert(find_child(x, y[0].name) is None);
        }
        assert(x =~= y);
    } else {
        if y.len() == 0 {
            assert(find_child(x, x[0].name) is Some);
            assert(find_child(y, x[0].name) is None);
        }
        let a = x[0].name;
        let b = y[0].name;
        assert(find_child(x, a) == Some(x[0].node));
        assert(find_child(y, b) == Some(y[0].node));
        if a != b {
            lemma_find_is_child(y, a);
            lemma_find_is_child(x, b);
            let j = choose|j: int|
                0 <= j < y.len() && (#[trigger] y[j]).node == find_child(y, a)->0 && y[j].name
                    == a;
            let i = choose|i: int|
                0 <= i < x.len() && (#[trigger] x[i]).node == find_child(x, b)->0 && x[i].name
                    == b;
            assert(j > 0 && i > 0);
            assert(precedes(y[0].name, y[j].name));
            assert(precedes(x[0].name, x[i].name));
            lemma_precedes_transitive(a, b, a);
            lemma_precedes_irreflexive(a);
        }
        assert(x[0] == y[0]);
        lemma_sorted_rest(x);
        lemma_sorted_rest(y);
        let xr = x.drop_first();
        let yr = y.drop_first();
        assert forall|name: Seq<char>| find_child(xr, name) == find_child(yr, name) by {
            if name != a {
                assert(find_child(x, name) == find_child(xr, name));
                assert(find_child(y, name) == find_child(yr, name));
            }
        }
        lemma_sorted_is_canonical(xr, yr);
        assert(x =~= seq![x[0]] + xr);
        assert(y =~= seq![y[0]] + yr);
    }
}

/// Children of different names can be put into an ordered directory in
/// either order.
pub proof fn lemma_upsert_commutes(children: Seq<ChildView>, a: ChildView, b: ChildView)
    requires
        sorted(children),
        a.name != b.name,
    ensures
        upsert(upsert(children, a), b) == upsert(upsert(children, b), a),
{
    let ab = upsert(upsert(children, a), b);
    let ba = upsert(upsert(children, b), a);
    lemma_upsert_keeps_sorted(children, a);
    lemma_upsert_keeps_sorted(upsert(children, a), b);
    lemma_upsert_keeps_sorted(children, b);
    lemma_upsert_keeps_sorted(upsert(children, b), a);
    assert forall|name: Seq<char>| find_child(ab, name) == find_child(ba, name) by {
        lemma_find_upsert(upsert(children, a), b, name);
        lemma_find_upsert(children, a, name);
        lemma_find_upsert(upsert(children, b), a, name);
        lemma_find_upsert(children, b, name);
    }
    lemma_sorted_is_canonical(ab, ba);
}

/// A child that is put under the name of a child just put takes its place.
pub proof fn lemma_upsert_replaces(children: Seq<ChildView>, a: ChildView, b: ChildView)
    requires
        sorted(children),
        a.name == b.name,
    ensures
        upsert(upsert(children, a), b) == upsert(children, b),
{
    let ab = upsert(upsert(children, a), b);
    let only_b = upsert(children, b);
    lemma_upsert_keeps_sorted(children, a);
    lemma_upsert_keeps_sorted(upsert(children, a), b);
    lemma_upsert_keeps_sorted(children, b);
    assert forall|name: Seq<char>| find_child(ab, name) == find_child(only_b, name) by {
        lemma_find_upsert(upsert(children, a), b, name);
        lemma_find_upsert(children, a, name);
        lemma_find_upsert(children, b, name);
    }
    lemma_sorted_is_canonical(ab, only_b);
}

/// Files can be put at two paths that part from one another in either order:
/// the directory that results is the same.
pub proof fn lemma_insert_path_commutes(
    children: Seq<ChildView>,
    p: Seq<Seq<char>>,
    dp: Seq<char>,
    q: Seq<Seq<char>>,
    dq: Seq<char>,
    k: int,
    j: int,
)
    requires
        wf_children(children),
        0 <= k <= j,
        j < p.len(),
        j < q.len(),
        p[j] != q[j],
        forall|i: int| k <= i < j ==> p[i] == q[i],
    ensures
        insert_path(insert_path(children, p, k, dp), q, k, dq) == insert_path(
            insert_path(children, q, k, dq),
            p,
            k,
            dp,
        ),
    decreases j - k,
{
    let sub_p = subtree(children, p[k]);
    let sub_q = subtree(children, q[k]);
    let node_p = if k + 1 >= p.len() {
        NodeView::Blob(dp)
    } else {
        NodeView::Tree(insert_path(sub_p, p, k + 1, dp))
    };
    let node_q = if k + 1 >= q.len() {
        NodeView::Blob(dq)
    } else {
        NodeView::Tree(insert_path(sub_q, q, k + 1, dq))
    };
    let child_p = ChildView { name: p[k], node: node_p };
    let child_q = ChildView { name: q[k], node: node_q };
    let with_p = upsert(children, child_p);
    let with_q = upsert(children, child_q);
    assert(with_p == insert_path(children, p, k, dp));
    assert(with_q == insert_path(children, q, k, dq));
    lemma_find_upsert(children, child_p, q[k]);
    lemma_find_upsert(children, child_q, p[k]);
    if k == j {
        assert(subtree(with_p, q[k]) == sub_q);
        assert(subtree(with_q, p[k]) == sub_p);
        lemma_upsert_commutes(children, child_p, child_q);
    } else {
        let sub = sub_p;
        assert(sub_q == sub);
        let a = insert_path(sub, p, k + 1, dp);
        let b = insert_path(sub, q, k + 1, dq);
        assert(subtree(with_p, q[k]) == a);
        assert(subtree(with_q, p[k]) == b);
        lemma_subtree_wf(children, p[k]);
        lemma_insert_path_commutes(sub, p, dp, q, dq, k + 1, j);
        let both = ChildView {
            name: p[k],
            node: NodeView::Tree(insert_path(a, q, k + 1, dq)),
        };
        lemma_upsert_replaces(children, child_p, both);
        lemma_upsert_replaces(children, child_q, both);
    }
}

/// Two staged entries whose paths part from one another can be staged in
/// either order: the tree is the same, and so is its digest.
pub proof fn lemma_stage_commutes(children: Seq<ChildView>, first: EntryView, second: EntryView)
    requires
        wf_children(children),
        part(segments_of(first), segments_of(second)),
    ensures
        stage(stage(children, first), second) == stage(stage(children, second), first),
{
    let j = choose|j: int| part_at(segments_of(first), segments_of(second), j);
    lemma_insert_path_commutes(
        children,
        segments_of(first),
        first.digest,
        segments_of(second),
        second.digest,
        0,
        j,
    );
}

} // verus!
