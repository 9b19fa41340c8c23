//! The order of the nodes under one directory, and the sort that respects it.

use vstd::prelude::*;
use vstd::utf8::encode_utf8;
use crate::text::{
    bytes_le, lemma_bytes_le_antisymmetric, lemma_bytes_le_total, lemma_bytes_le_transitive,
};

verus! {

/// A node of the tree as a plain value.
pub enum NodeView {
    File { name: Seq<char>, path: Seq<char> },
    Directory { name: Seq<char>, path: Seq<char>, children: Seq<NodeView>, is_expanded: bool },
}

impl NodeView {
    /// The name under which the node is shown.
    pub open spec fn name(self) -> Seq<char> {
        match self {
            NodeView::File { name, .. } => name,
            NodeView::Directory { name, .. } => name,
        }
    }

    /// The path that the node stands for.
    pub open spec fn path(self) -> Seq<char> {
        match self {
            NodeView::File { path, .. } => path,
            NodeView::Directory { path, .. } => path,
        }
    }

    /// What a directory holds; nothing for a file.
    pub open spec fn children(self) -> Seq<NodeView> {
        match self {
            NodeView::File { .. } => Seq::empty(),
            NodeView::Directory { children, .. } => children,
        }
    }
}

/// `a` may stand before `b` under one directory: a directory stands before a
/// file, and of two nodes of one kind the one whose name comes first in the
/// order of Rust strings, that of their UTF-8 bytes.
pub open spec fn node_le(a: NodeView, b: NodeView) -> bool {
    if (a is Directory) == (b is Directory) {
        bytes_le(encode_utf8(a.name()), encode_utf8(b.name()))
    } else {
        a is Directory
    }
}

/// Each node may stand before every node after it.
pub open spec fn is_sorted(nodes: Seq<NodeView>) -> bool {
    forall|i: int, j: int| 0 <= i < j < nodes.len() ==> node_le(nodes[i], nodes[j])
}

/// `sorted` with `node` put behind the last node that may stand before it.
pub open spec fn insert_sorted(sorted: Seq<NodeView>, node: NodeView) -> Seq<NodeView>
    decreases sorted.len(),
{
    if sorted.len() == 0 {
        seq![node]
    } else if node_le(sorted.last(), node) {
        sorted.push(node)
    } else {
        insert_sorted(sorted.drop_last(), node).push(sorted.last())
    }
}

/// `nodes` in sorted order, nodes that may stand either way round kept in the
/// order in which `nodes` holds them.
pub open spec fn stable_sort(nodes: Seq<NodeView>) -> Seq<NodeView>
    decreases nodes.len(),
{
    if nodes.len() == 0 {
        nodes
    } else {
        insert_sorted(stable_sort(nodes.drop_last()), nodes.last())
    }
}

/// Of two nodes one may stand before the other.
pub proof fn lemma_node_le_total(a: NodeView, b: NodeView)
    ensures
        node_le(a, b) || node_le(b, a),
{
    lemma_bytes_le_total(encode_utf8(a.name()), encode_utf8(b.name()));
}

/// The order of nodes is transitive.
pub proof fn lemma_node_le_transitive(a: NodeView, b: NodeView, c: NodeView)
    requires
        node_le(a, b),
        node_le(b, c),
    ensures
        node_le(a, c),
{
    if (a is Directory) == (b is Directory) && (b is Directory) == (c is Directory) {
        lemma_bytes_le_transitive(
            encode_utf8(a.name()),
            encode_utf8(b.name()),
            encode_utf8(c.name()),
        );
    }
}

/// Two nodes of which each may stand before the other are of one kind and
/// have the same name.
pub proof fn lemma_node_le_both_ways(a: NodeView, b: NodeView)
    requires
        node_le(a, b),
        node_le(b, a),
    ensures
        (a is Directory) == (b is Directory),
        a.name() == b.name(),
{
    lemma_bytes_le_antisymmetric(encode_utf8(a.name()), encode_utf8(b.name()));
    vstd::utf8::encode_utf8_decode_utf8(a.name());
    vstd::utf8::encode_utf8_decode_utf8(b.name());
}

/// Inserting keeps the length, the nodes and their order: the result is
/// `sorted` with `node` at some index.
pub proof fn lemma_insert_sorted_shape(sorted: Seq<NodeView>, node: NodeView) -> (at: int)
    ensures
        0 <= at <= sorted.len(),
        insert_sorted(sorted, node) == sorted.insert(at, node),
        forall|j: int| at <= j < sorted.len() ==> !node_le(sorted[j], node),
        at > 0 ==> node_le(sorted[at - 1], node),
    decreases sorted.len(),
{
    if sorted.len() == 0 {
        assert(seq![node] =~= sorted.insert(0, node));
        0
    } else if node_le(sorted.last(), node) {
        assert(sorted.push(node) =~= sorted.insert(sorted.len() as int, node));
        sorted.len() as int
    } else {
        let front = sorted.drop_last();
        let at = lemma_insert_sorted_shape(front, node);
        assert(front.insert(at, node).push(sorted.last()) =~= sorted.insert(at, node));
        assert forall|j: int| at <= j < sorted.len() implies !node_le(sorted[j], node) by {
            if j < front.len() {
                assert(sorted[j] == front[j]);
            }
        }
        assert(at > 0 ==> sorted[at - 1] == front[at - 1]);
        at
    }
}

/// Inserting into a sorted sequence gives a sorted sequence.
pub proof fn lemma_insert_sorted_is_sorted(sorted: Seq<NodeView>, node: NodeView)
    requires
        is_sorted(sorted),
    ensures
        is_sorted(insert_sorted(sorted, node)),
{
    let at = lemma_insert_sorted_shape(sorted, node);
    let result = sorted.insert(at, node);
    assert forall|i: int, j: int| 0 <= i < j < result.len() implies node_le(
        result[i],
        result[j],
    ) by {
        if j == at {
            // result[i] is sorted[i], which stands before sorted[at - 1]
            if i < at - 1 {
                lemma_node_le_transitive(sorted[i], sorted[at - 1], node);
            }
        } else if i == at {
            lemma_node_le_total(sorted[j - 1], node);
        } else {
            let oi = if i < at { i } else { i - 1 };
            let oj = if j < at { j } else { j - 1 };
            assert(node_le(sorted[oi], sorted[oj]));
        }
    }
}

/// The result of the sort is sorted.
pub proof fn lemma_stable_sort_is_sorted(nodes: Seq<NodeView>)
    ensures
        is_sorted(stable_sort(nodes)),
    decreases nodes.len(),
{
    if nodes.len() > 0 {
        lemma_stable_sort_is_sorted(nodes.drop_last());
        lemma_insert_sorted_is_sorted(stable_sort(nodes.drop_last()), nodes.last());
    }
}

/// The sort keeps every node, each as often as it was there.
pub proof fn lemma_stable_sort_permutes(nodes: Seq<NodeView>)
    ensures
        stable_sort(nodes).len() == nodes.len(),
        stable_sort(nodes).to_multiset() == nodes.to_multiset(),
    decreases nodes.len(),
{
    if nodes.len() > 0 {
        let front = nodes.drop_last();
        lemma_stable_sort_permutes(front);
        let at = lemma_insert_sorted_shape(stable_sort(front), nodes.last());
        assert(nodes =~= front.push(nodes.last()));
        vstd::seq_lib::to_multiset_insert(stable_sort(front), at, nodes.last());
        vstd::seq_lib::to_multiset_build(front, nodes.last());
    }
}

/// The test that a node ranks like `node`: each may stand before the other.
pub open spec fn ranks_like(node: NodeView) -> spec_fn(NodeView) -> bool {
    |other: NodeView| node_le(other, node) && node_le(node, other)
}

/// Among the nodes that rank like `like`, inserting puts `node` last.
pub proof fn lemma_insert_sorted_is_stable(sorted: Seq<NodeView>, node: NodeView, like: NodeView)
    ensures
        insert_sorted(sorted, node).filter(ranks_like(like)) == if ranks_like(like)(node) {
            sorted.filter(ranks_like(like)).push(node)
        } else {
            sorted.filter(ranks_like(like))
        },
    decreases sorted.len(),
{
    let alike = ranks_like(like);
    if sorted.len() == 0 {
        assert(seq![node] =~= sorted.push(node));
        sorted.lemma_filter_push(node, alike);
    } else if node_le(sorted.last(), node) {
        sorted.lemma_filter_push(node, alike);
    } else {
        let front = sorted.drop_last();
        let last = sorted.last();
        lemma_insert_sorted_is_stable(front, node, like);
        insert_sorted(front, node).lemma_filter_push(last, alike);
        front.lemma_filter_push(last, alike);
        assert(sorted =~= front.push(last));
        if alike(node) && alike(last) {
            lemma_node_le_transitive(last, like, node);
        }
    }
}

/// The sort is stable: the nodes that rank alike come out in the order in
/// which they went in.
pub proof fn lemma_stable_sort_is_stable(nodes: Seq<NodeView>, like: NodeView)
    ensures
        stable_sort(nodes).filter(ranks_like(like)) == nodes.filter(ranks_like(like)),
    decreases nodes.len(),
{
    if nodes.len() > 0 {
        let front = nodes.drop_last();
        lemma_stable_sort_is_stable(front, like);
        lemma_insert_sorted_is_stable(stable_sort(front), nodes.last(), like);
        front.lemma_filter_push(nodes.last(), ranks_like(like));
        assert(nodes =~= front.push(nodes.last()));
    }
}

/// Two sorted sequences that hold, for every rank, the same nodes in the same
/// order are one and the same.
pub proof fn lemma_sorted_alike_are_equal(first: Seq<NodeView>, second: Seq<NodeView>)
    requires
        is_sorted(first),
        is_sorted(second),
        forall|like: NodeView|
            #[trigger] first.filter(ranks_like(like)) == second.filter(ranks_like(like)),
    ensures
        first == second,
    decreases first.len(),
{
    if first.len() == 0 || second.len() == 0 {
        let full = if first.len() == 0 {
            second
        } else {
            first
        };
        let empty = if first.len() == 0 {
            first
        } else {
            second
        };
        if full.len() > 0 {
            let x = full[0];
            lemma_node_le_total(x, x);
            full.lemma_filter_contains(ranks_like(x), 0);
            assert(first.filter(ranks_like(x)) == second.filter(ranks_like(x)));
            empty.lemma_filter_len(ranks_like(x));
            assert(full.filter(ranks_like(x)).len() > 0);
        }
        assert(first =~= second);
    } else {
        let a = first.last();
        let b = second.last();
        let front = first.drop_last();
        let back = second.drop_last();
        assert(first =~= front.push(a));
        assert(second =~= back.push(b));
        lemma_last_ranks_highest(first, second);
        lemma_last_ranks_highest(second, first);
        lemma_node_le_total(a, a);
        front.lemma_filter_push(a, ranks_like(a));
        back.lemma_filter_push(b, ranks_like(a));
        assert(first.filter(ranks_like(a)) == second.filter(ranks_like(a)));
        assert(front.filter(ranks_like(a)).push(a).last() == a);
        assert(back.filter(ranks_like(a)).push(b).last() == b);
        assert(a == b);
        assert forall|like: NodeView| #[trigger]
            front.filter(ranks_like(like)) == back.filter(ranks_like(like)) by {
            front.lemma_filter_push(a, ranks_like(like));
            back.lemma_filter_push(a, ranks_like(like));
            assert(first.filter(ranks_like(like)) == second.filter(ranks_like(like)));
            if ranks_like(like)(a) {
                let kept = front.filter(ranks_like(like));
                let other = back.filter(ranks_like(like));
                assert(kept.push(a).drop_last() =~= kept);
                assert(other.push(a).drop_last() =~= other);
            }
        }
        assert forall|i: int, j: int| 0 <= i < j < front.len() implies node_le(
            front[i],
            front[j],
        ) by {
            assert(node_le(first[i], first[j]));
        }
        assert forall|i: int, j: int| 0 <= i < j < back.len() implies node_le(
            back[i],
            back[j],
        ) by {
            assert(node_le(second[i], second[j]));
        }
        lemma_sorted_alike_are_equal(front, back);
    }
}

/// The last node of a sorted sequence ranks no lower than the last node of
/// another that holds nodes of the same ranks.
proof fn lemma_last_ranks_highest(first: Seq<NodeView>, second: Seq<NodeView>)
    requires
        first.len() > 0,
        second.len() > 0,
        is_sorted(first),
        forall|like: NodeView|
            #[trigger] first.filter(ranks_like(like)) == second.filter(ranks_like(like)),
    ensures
        node_le(second.last(), first.last()),
{
    let b = second.last();
    lemma_node_le_total(b, b);
    second.lemma_filter_contains(ranks_like(b), second.len() - 1);
    assert(first.filter(ranks_like(b)) == second.filter(ranks_like(b)));
    let kept = first.filter(ranks_like(b));
    assert(kept.contains(b));
    first.lemma_filter_contains_rev(ranks_like(b), b);
    let i = choose|i: int| 0 <= i < first.len() && first[i] == b;
    if i < first.len() - 1 {
        assert(node_le(first[i], first[first.len() - 1]));
    }
}

/// The sort gives the only sequence that is sorted and holds, for every rank,
/// the nodes of that rank in the order in which they went in.
pub proof fn lemma_stable_sort_is_the_only_one(nodes: Seq<NodeView>, sorted: Seq<NodeView>)
    requires
        is_sorted(sorted),
        forall|like: NodeView|
            #[trigger] sorted.filter(ranks_like(like)) == nodes.filter(ranks_like(like)),
    ensures
        sorted == stable_sort(nodes),
{
    lemma_stable_sort_is_sorted(nodes);
    assert forall|like: NodeView| #[trigger]
        sorted.filter(ranks_like(like)) == stable_sort(nodes).filter(ranks_like(like)) by {
        lemma_stable_sort_is_stable(nodes, like);
    }
    lemma_sorted_alike_are_equal(sorted, stable_sort(nodes));
}

/// Two sorted sequences run into one. Where the last nodes of both may stand
/// either way round, that of `right` comes last, so the nodes of `left` stay
/// before those of `right` that rank like them.
pub open spec fn merged(left: Seq<NodeView>, right: Seq<NodeView>) -> Seq<NodeView>
    decreases left.len() + right.len(),
{
    if left.len() == 0 {
        right
    } else if right.len() == 0 {
        left
    } else if node_le(left.last(), right.last()) {
        merged(left, right.drop_last()).push(right.last())
    } else {
        merged(left.drop_last(), right).push(left.last())
    }
}

/// Inserting into a merge is inserting into its right part.
pub proof fn lemma_insert_into_merged(left: Seq<NodeView>, right: Seq<NodeView>, node: NodeView)
    ensures
        insert_sorted(merged(left, right), node) == merged(left, insert_sorted(right, node)),
    decreases left.len() + right.len(),
{
    let whole = merged(left, right);
    let grown = insert_sorted(right, node);
    if left.len() == 0 {
        assert(insert_sorted(whole, node) == merged(left, grown));
    } else if right.len() == 0 {
        assert(grown =~= seq![node]);
        assert(grown.last() == node);
        assert(grown.drop_last() =~= right);
        if node_le(left.last(), node) {
            assert(merged(left, grown) == merged(left, right).push(node));
        } else {
            lemma_insert_into_merged(left.drop_last(), right, node);
            assert(merged(left.drop_last(), right) =~= left.drop_last());
            assert(merged(left, grown) == merged(left.drop_last(), grown).push(left.last()));
        }
        assert(insert_sorted(whole, node) == merged(left, grown));
    } else {
        let a = left.last();
        let b = right.last();
        if node_le(a, b) {
            let rest = merged(left, right.drop_last());
            assert(whole == rest.push(b));
            assert(whole.drop_last() =~= rest);
            assert(whole.last() == b);
            if node_le(b, node) {
                lemma_node_le_transitive(a, b, node);
                assert(grown == right.push(node));
                assert(grown.drop_last() =~= right);
                assert(grown.last() == node);
                assert(merged(left, grown) == whole.push(node));
            } else {
                lemma_insert_into_merged(left, right.drop_last(), node);
                let inner = insert_sorted(right.drop_last(), node);
                assert(grown == inner.push(b));
                assert(grown.drop_last() =~= inner);
                assert(grown.last() == b);
                assert(merged(left, grown) == merged(left, inner).push(b));
            }
            assert(insert_sorted(whole, node) == merged(left, grown));
        } else {
            let rest = merged(left.drop_last(), right);
            assert(whole == rest.push(a));
            assert(whole.drop_last() =~= rest);
            assert(whole.last() == a);
            if node_le(a, node) {
                lemma_node_le_total(a, b);
                lemma_node_le_transitive(b, a, node);
                assert(grown == right.push(node));
                assert(grown.drop_last() =~= right);
                assert(grown.last() == node);
                assert(merged(left, grown) == whole.push(node));
            } else {
                lemma_insert_into_merged(left.drop_last(), right, node);
                if node_le(b, node) {
                    assert(grown == right.push(node));
                    assert(grown.last() == node);
                } else {
                    assert(grown == insert_sorted(right.drop_last(), node).push(b));
                    assert(grown.last() == b);
                }
                assert(grown.len() > 0);
                assert(!node_le(a, grown.last()));
                assert(merged(left, grown) == merged(left.drop_last(), grown).push(a));
            }
            assert(insert_sorted(whole, node) == merged(left, grown));
        }
    }
}

/// Sorting two parts and merging them is sorting the whole.
pub proof fn lemma_stable_sort_of_parts(left: Seq<NodeView>, right: Seq<NodeView>)
    ensures
        stable_sort(left + right) == merged(stable_sort(left), stable_sort(right)),
    decreases right.len(),
{
    if right.len() == 0 {
        assert(left + right =~= left);
    } else {
        let front = right.drop_last();
        assert((left + right).drop_last() =~= left + front);
        assert((left + right).last() == right.last());
        lemma_stable_sort_of_parts(left, front);
        lemma_insert_into_merged(stable_sort(left), stable_sort(front), right.last());
    }
}

} // verus!
