use crate::minimum_cost_flow::spanning_tree_structure::{Node, SpanningTreeStructure};
use vstd::prelude::*;

verus! {

/// The parent of every node.
pub open spec fn parents_of(nodes: Seq<Node>) -> Seq<usize> {
    Seq::new(nodes.len(), |x: int| nodes[x].parent)
}

/// The sum of the counts of the nodes whose parent is `u` and whose
/// count is complete, among the nodes of `order` from place `from` on and
/// before place `upto`.
pub open spec fn tallied(
    order: Seq<usize>,
    parents: Seq<usize>,
    counts: Seq<usize>,
    complete: Seq<bool>,
    u: int,
    from: int,
    upto: int,
) -> int
    decreases upto - from,
{
    if upto <= from {
        0
    } else {
        let x = order[upto - 1] as int;
        tallied(order, parents, counts, complete, u, from, upto - 1) + (if parents[x] == u && complete[x] {
            counts[x] as int
        } else {
            0
        })
    }
}

/// Node `x` has a complete count and hangs below no node with a complete
/// count.
pub open spec fn tops(parents: Seq<usize>, complete: Seq<bool>, x: int) -> bool {
    complete[x] && !(parents[x] < complete.len() && complete[parents[x] as int])
}

/// The sum of the counts of the nodes among the first `upto` of `order`
/// that have a complete count and hang below no node with a complete
/// count.
pub open spec fn whole(order: Seq<usize>, parents: Seq<usize>, counts: Seq<usize>, complete: Seq<bool>, upto: int) -> int
    decreases upto,
{
    if upto <= 0 {
        0
    } else {
        let x = order[upto - 1] as int;
        whole(order, parents, counts, complete, upto - 1) + (if tops(parents, complete, x) {
            counts[x] as int
        } else {
            0
        })
    }
}

/// The sum over a range leaves out nothing where order, completeness and
/// the complete counts are the same.
pub proof fn lemma_tallied_same(
    order: Seq<usize>,
    parents: Seq<usize>,
    counts: Seq<usize>,
    complete: Seq<bool>,
    other_order: Seq<usize>,
    other_counts: Seq<usize>,
    other_complete: Seq<bool>,
    u: int,
    from: int,
    upto: int,
)
    requires
        0 <= from,
        upto <= order.len(),
        upto <= other_order.len(),
        forall|j: int| from <= j < upto ==> #[trigger] order[j] == other_order[j],
        forall|j: int|
            from <= j < upto ==> complete[(#[trigger] order[j]) as int] == other_complete[order[j] as int] && (
            complete[order[j] as int] ==> counts[order[j] as int] == other_counts[order[j] as int]),
    ensures
        tallied(order, parents, counts, complete, u, from, upto) == tallied(
            other_order,
            parents,
            other_counts,
            other_complete,
            u,
            from,
            upto,
        ),
    decreases upto - from,
{
    if upto > from {
        lemma_tallied_same(order, parents, counts, complete, other_order, other_counts, other_complete, u, from, upto - 1);
        assert(order[upto - 1] == other_order[upto - 1]);
    }
}

/// The whole is the same where order, completeness of the nodes and of
/// their parents and the complete counts are the same.
pub proof fn lemma_whole_same(
    order: Seq<usize>,
    parents: Seq<usize>,
    counts: Seq<usize>,
    complete: Seq<bool>,
    other_order: Seq<usize>,
    other_counts: Seq<usize>,
    other_complete: Seq<bool>,
    upto: int,
)
    requires
        upto <= order.len(),
        upto <= other_order.len(),
        complete.len() == other_complete.len(),
        forall|j: int| 0 <= j < upto ==> #[trigger] order[j] == other_order[j],
        forall|j: int|
            0 <= j < upto ==> tops(parents, complete, (#[trigger] order[j]) as int) == tops(
                parents,
                other_complete,
                order[j] as int,
            ) && (tops(parents, complete, order[j] as int) ==> counts[order[j] as int] == other_counts[order[j] as int]),
    ensures
        whole(order, parents, counts, complete, upto) == whole(other_order, parents, other_counts, other_complete, upto),
    decreases upto,
{
    if upto > 0 {
        lemma_whole_same(order, parents, counts, complete, other_order, other_counts, other_complete, upto - 1);
        assert(order[upto - 1] == other_order[upto - 1]);
    }
}

/// Once the count of node `v` is complete, it counts for the parent of
/// `v` and for no other node.
pub proof fn lemma_tallied_completed(
    order: Seq<usize>,
    parents: Seq<usize>,
    counts: Seq<usize>,
    complete: Seq<bool>,
    v: int,
    u: int,
    upto: int,
)
    requires
        0 <= upto <= order.len(),
        0 <= v < complete.len(),
        !complete[v],
        forall|i: int, j: int| 0 <= i < j < order.len() ==> #[trigger] order[i] != #[trigger] order[j],
        forall|j: int| 0 <= j < order.len() ==> (#[trigger] order[j]) < complete.len(),
    ensures
        tallied(order, parents, counts, complete.update(v, true), u, 0, upto) == tallied(
            order,
            parents,
            counts,
            complete,
            u,
            0,
            upto,
        ) + (if parents[v] == u && exists|j: int| 0 <= j < upto && #[trigger] order[j] == v {
            counts[v] as int
        } else {
            0
        }),
    decreases upto,
{
    if upto > 0 {
        lemma_tallied_completed(order, parents, counts, complete, v, u, upto - 1);
        let x = order[upto - 1] as int;
        if x == v {
            assert forall|j: int| 0 <= j < upto - 1 implies #[trigger] order[j] != v by {
                assert(order[j] != order[upto - 1]);
            }
        } else if exists|j: int| 0 <= j < upto && #[trigger] order[j] == v {
            let j = choose|j: int| 0 <= j < upto && #[trigger] order[j] == v;
            assert(j < upto - 1);
        }
    }
}

/// Once the count of node `v` is complete, whose parent has no complete
/// count, `v` stands in the whole for the nodes below it.
pub proof fn lemma_whole_completed(
    order: Seq<usize>,
    parents: Seq<usize>,
    counts: Seq<usize>,
    complete: Seq<bool>,
    v: int,
    upto: int,
)
    requires
        0 <= upto <= order.len(),
        0 <= v < complete.len(),
        !complete[v],
        parents[v] != v,
        !(parents[v] < complete.len() && complete[parents[v] as int]),
        forall|i: int, j: int| 0 <= i < j < order.len() ==> #[trigger] order[i] != #[trigger] order[j],
        forall|j: int| 0 <= j < order.len() ==> (#[trigger] order[j]) < complete.len(),
    ensures
        whole(order, parents, counts, complete.update(v, true), upto) == whole(order, parents, counts, complete, upto)
            - tallied(order, parents, counts, complete, v, 0, upto) + (if exists|j: int|
            0 <= j < upto && #[trigger] order[j] == v {
            counts[v] as int
        } else {
            0
        }),
    decreases upto,
{
    if upto > 0 {
        lemma_whole_completed(order, parents, counts, complete, v, upto - 1);
        let x = order[upto - 1] as int;
        if x == v {
            assert forall|j: int| 0 <= j < upto - 1 implies #[trigger] order[j] != v by {
                assert(order[j] != order[upto - 1]);
            }
        } else if exists|j: int| 0 <= j < upto && #[trigger] order[j] == v {
            let j = choose|j: int| 0 <= j < upto && #[trigger] order[j] == v;
            assert(j < upto - 1);
        }
    }
}

/// What counts for two nodes without a complete count is part of the
/// whole.
pub proof fn lemma_tallied_in_whole(
    order: Seq<usize>,
    parents: Seq<usize>,
    counts: Seq<usize>,
    complete: Seq<bool>,
    a: int,
    b: int,
    upto: int,
)
    requires
        0 <= upto <= order.len(),
        0 <= a < complete.len(),
        0 <= b < complete.len(),
        a != b,
        !complete[a],
        !complete[b],
    ensures
        0 <= tallied(order, parents, counts, complete, a, 0, upto),
        0 <= tallied(order, parents, counts, complete, b, 0, upto),
        tallied(order, parents, counts, complete, a, 0, upto) + tallied(order, parents, counts, complete, b, 0, upto)
            <= whole(order, parents, counts, complete, upto),
    decreases upto,
{
    if upto > 0 {
        lemma_tallied_in_whole(order, parents, counts, complete, a, b, upto - 1);
    }
}

/// A sum over a range is the sum over its first part and the sum over
/// the rest.
pub proof fn lemma_tallied_split(
    order: Seq<usize>,
    parents: Seq<usize>,
    counts: Seq<usize>,
    complete: Seq<bool>,
    u: int,
    from: int,
    mid: int,
    upto: int,
)
    requires
        from <= mid <= upto,
    ensures
        tallied(order, parents, counts, complete, u, from, upto) == tallied(order, parents, counts, complete, u, from, mid)
            + tallied(order, parents, counts, complete, u, mid, upto),
    decreases upto - mid,
{
    if upto > mid {
        lemma_tallied_split(order, parents, counts, complete, u, from, mid, upto - 1);
    }
}

/// Where every node stands behind its parent, nothing counts for a node
/// among the nodes up to its own place.
pub proof fn lemma_tallied_before(
    order: Seq<usize>,
    parents: Seq<usize>,
    counts: Seq<usize>,
    complete: Seq<bool>,
    k: int,
    upto: int,
)
    requires
        0 <= upto <= k + 1 <= order.len(),
        forall|i: int, j: int| 0 <= i < j < order.len() ==> #[trigger] order[i] != #[trigger] order[j],
        forall|j: int|
            0 <= j < order.len() ==> parents[(#[trigger] order[j]) as int] == usize::MAX || exists|i: int|
                0 <= i < j && #[trigger] order[i] == parents[order[j] as int],
        order[k] < usize::MAX,
    ensures
        tallied(order, parents, counts, complete, order[k] as int, 0, upto) == 0,
    decreases upto,
{
    if upto > 0 {
        lemma_tallied_before(order, parents, counts, complete, k, upto - 1);
        let j = upto - 1;
        if parents[order[j] as int] == order[k] {
            let i = choose|i: int| 0 <= i < j && #[trigger] order[i] == parents[order[j] as int];
            if i < k {
                assert(order[i] != order[k]);
            } else if k < i {
                assert(order[k] != order[i]);
            }
        }
    }
}

/// Where the thread passes the nodes of `order` in turn and every count
/// is complete, what counts for a node from a place on is what the
/// structure counts below it from that place on.
pub proof fn lemma_tallied_is_below(
    st: &SpanningTreeStructure,
    order: Seq<usize>,
    complete: Seq<bool>,
    u: int,
    from: int,
)
    requires
        st.wf(),
        0 <= from <= order.len(),
        forall|j: int| 0 <= j < order.len() ==> (#[trigger] order[j]) < st.num_nodes && complete[order[j] as int],
        forall|j: nat| j < order.len() ==> #[trigger] st.thread_at(order[0], j) == order[j as int],
    ensures
        st.counts_below(order[0], order.len(), u, from as nat) == tallied(
            order,
            parents_of(st.nodes@),
            st.num_successors@,
            complete,
            u,
            from,
            order.len() as int,
        ),
    decreases order.len() - from,
{
    if from < order.len() {
        lemma_tallied_is_below(st, order, complete, u, from + 1);
        lemma_tallied_split(order, parents_of(st.nodes@), st.num_successors@, complete, u, from, from + 1, order.len() as int);
        assert(st.thread_at(order[0], from as nat) == order[from]);
        assert(tallied(order, parents_of(st.nodes@), st.num_successors@, complete, u, from, from) == 0);
    }
}

/// What counts for a node without a complete count is part of the whole.
pub proof fn lemma_tallied_one_in_whole(
    order: Seq<usize>,
    parents: Seq<usize>,
    counts: Seq<usize>,
    complete: Seq<bool>,
    a: int,
    upto: int,
)
    requires
        0 <= upto <= order.len(),
        0 <= a < complete.len(),
        !complete[a],
    ensures
        0 <= tallied(order, parents, counts, complete, a, 0, upto) <= whole(order, parents, counts, complete, upto),
    decreases upto,
{
    if upto > 0 {
        lemma_tallied_one_in_whole(order, parents, counts, complete, a, upto - 1);
    }
}

/// Entry `j` of the stack names a node without a complete count with
/// its parent, which is no node for the root alone and else a node that
/// was visited, has no complete count and stands further down the stack.
pub open spec fn entry_ok(
    stack: Seq<(usize, usize)>,
    parents: Seq<usize>,
    seen: Seq<bool>,
    complete: Seq<bool>,
    root: usize,
    j: int,
) -> bool {
    let x = stack[j].0;
    let p = stack[j].1;
    &&& x < seen.len()
    &&& !complete[x as int]
    &&& parents[x as int] == p
    &&& p == usize::MAX ==> x == root
    &&& p != usize::MAX ==> p < seen.len() && seen[p as int] && !complete[p as int] && exists|i: int|
        0 <= i < j && (#[trigger] stack[i]).0 == p
}

/// Every list of `children` holds, in rising order, nodes other than the
/// root whose parent is the node of the list.
pub open spec fn kids_ok(children: Seq<Vec<usize>>, parents: Seq<usize>, root: usize) -> bool {
    &&& forall|x: int, k: int|
        0 <= x < children.len() && 0 <= k < (#[trigger] children[x])@.len() ==> (#[trigger] children[x]@[k])
            < children.len() && children[x]@[k] != root && children[x]@[k] != x && parents[children[x]@[k] as int] == x
    &&& forall|x: int, k: int, l: int|
        0 <= x < children.len() && 0 <= k < l < children[x]@.len() ==> (#[trigger] children[x]@[k]) < (
        #[trigger] children[x]@[l])
}

/// Two structures with the same thread pass the same nodes.
pub proof fn lemma_thread_same(a: &SpanningTreeStructure, b: &SpanningTreeStructure, root: usize, k: nat)
    requires
        a.next_node_dft@ == b.next_node_dft@,
    ensures
        a.thread_at(root, k) == b.thread_at(root, k),
    decreases k,
{
    if k > 0 {
        lemma_thread_same(a, b, root, (k - 1) as nat);
    }
}

/// Two structures with the same thread, parents and counts count the
/// same below a node.
pub proof fn lemma_below_same(
    a: &SpanningTreeStructure,
    b: &SpanningTreeStructure,
    root: usize,
    len: nat,
    u: int,
    from: nat,
)
    requires
        a.next_node_dft@ == b.next_node_dft@,
        a.num_nodes == b.num_nodes,
        a.num_successors@ == b.num_successors@,
        a.nodes@.len() == b.nodes@.len(),
        forall|x: int| 0 <= x < a.nodes@.len() ==> (#[trigger] a.nodes@[x]).parent == b.nodes@[x].parent,
        a.nodes@.len() == a.num_nodes,
    ensures
        a.counts_below(root, len, u, from) == b.counts_below(root, len, u, from),
    decreases len - from,
{
    if from < len {
        lemma_below_same(a, b, root, len, u, from + 1);
        lemma_thread_same(a, b, root, from);
    }
}

/// Two structures with the same thread, parents and counts agree on
/// whether the thread comes round and the counts agree.
pub proof fn lemma_round_same(a: &SpanningTreeStructure, b: &SpanningTreeStructure, root: usize, len: nat)
    requires
        a.next_node_dft@ == b.next_node_dft@,
        a.num_nodes == b.num_nodes,
        a.num_successors@ == b.num_successors@,
        a.nodes@.len() == b.nodes@.len(),
        forall|x: int| 0 <= x < a.nodes@.len() ==> (#[trigger] a.nodes@[x]).parent == b.nodes@[x].parent,
        a.nodes@.len() == a.num_nodes,
        a.comes_round(root, len),
        a.counts_agree(root, len),
    ensures
        b.comes_round(root, len),
        b.counts_agree(root, len),
{
    lemma_thread_same(a, b, root, len);
    assert forall|k: nat| 0 < k < len implies (#[trigger] b.thread_at(root, k)) < b.num_nodes && b.thread_at(root, k)
        != root by {
        lemma_thread_same(a, b, root, k);
        assert(a.thread_at(root, k) < a.num_nodes);
    }
    assert forall|k: nat| k < len implies b.num_successors@[(#[trigger] b.thread_at(root, k)) as int] == 1
        + b.counts_below(root, len, b.thread_at(root, k) as int, k + 1) by {
        lemma_thread_same(a, b, root, k);
        lemma_below_same(a, b, root, len, a.thread_at(root, k) as int, k + 1);
        assert(a.num_successors@[a.thread_at(root, k) as int] == 1 + a.counts_below(
            root,
            len,
            a.thread_at(root, k) as int,
            k + 1,
        ));
    }
}

} // verus!
