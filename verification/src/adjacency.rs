use vstd::prelude::*;

verus! {

/// Number of times node `u` occurs as an endpoint among the first `k` pairs.
pub open spec fn incidences(ends: Seq<(usize, usize)>, k: int, u: int) -> int
    decreases k,
{
    if k <= 0 {
        0
    } else {
        incidences(ends, k - 1, u) + (if ends[k - 1].0 == u { 1int } else { 0 }) + (if ends[k - 1].1 == u {
            1int
        } else {
            0
        })
    }
}

/// Number of endpoint occurrences of all nodes below `i` among the first `k` pairs.
pub open spec fn incidences_below(ends: Seq<(usize, usize)>, k: int, i: int) -> int
    decreases i,
{
    if i <= 0 {
        0
    } else {
        incidences_below(ends, k, i - 1) + incidences(ends, k, i - 1)
    }
}

pub proof fn lemma_incidences_monotone(ends: Seq<(usize, usize)>, k: int, m: int, u: int)
    requires
        0 <= k <= m,
    ensures
        0 <= incidences(ends, k, u) <= incidences(ends, m, u) <= 2 * m,
    decreases m,
{
    if m > 0 {
        if k < m {
            lemma_incidences_monotone(ends, k, m - 1, u);
        } else {
            lemma_incidences_monotone(ends, k - 1, m - 1, u);
        }
    }
}

proof fn lemma_incidences_below_step(ends: Seq<(usize, usize)>, k: int, i: int)
    requires
        0 < k,
        0 <= i,
    ensures
        incidences_below(ends, k, i) == incidences_below(ends, k - 1, i) + (if ends[k - 1].0 < i {
            1int
        } else {
            0
        }) + (if ends[k - 1].1 < i {
            1int
        } else {
            0
        }),
    decreases i,
{
    if i > 0 {
        lemma_incidences_below_step(ends, k, i - 1);
    }
}

proof fn lemma_incidences_below_zero(ends: Seq<(usize, usize)>, i: int)
    ensures
        incidences_below(ends, 0, i) == 0,
    decreases i,
{
    if i > 0 {
        lemma_incidences_below_zero(ends, i - 1);
    }
}

/// Every pair has two endpoints: all nodes together occur `2 * k` times.
pub proof fn lemma_incidences_total(ends: Seq<(usize, usize)>, k: int, n: int)
    requires
        0 <= k <= ends.len(),
        0 <= n,
        forall|e: int| 0 <= e < ends.len() ==> (#[trigger] ends[e]).0 < n && ends[e].1 < n,
    ensures
        incidences_below(ends, k, n) == 2 * k,
    decreases k,
{
    if k == 0 {
        lemma_incidences_below_zero(ends, n);
    } else {
        lemma_incidences_total(ends, k - 1, n);
        lemma_incidences_below_step(ends, k, n);
    }
}

pub proof fn lemma_incidences_below_monotone(ends: Seq<(usize, usize)>, k: int, i: int, j: int)
    requires
        0 <= k,
        0 <= i <= j,
    ensures
        0 <= incidences_below(ends, k, i) <= incidences_below(ends, k, j),
    decreases j,
{
    if j > 0 {
        lemma_incidences_monotone(ends, k, k, j - 1);
        if i < j {
            lemma_incidences_below_monotone(ends, k, i, j - 1);
        } else {
            lemma_incidences_below_monotone(ends, k, i - 1, j - 1);
        }
    }
}

/// Where the arcs of a paired-arc adjacency structure are stored: every pair
/// of endpoints owns one slot among the arcs of its first endpoint and one
/// among the arcs of its second endpoint.
pub struct Layout {
    /// `start[u]..start[u + 1]` are the slots of node `u`.
    pub start: Vec<usize>,
    /// Slot of pair `e` at its first endpoint.
    pub forward: Vec<usize>,
    /// Slot of pair `e` at its second endpoint.
    pub backward: Vec<usize>,
    /// The pair that each slot belongs to.
    pub owner: Ghost<Seq<int>>,
}

/// The slot boundaries `start` split `0..total` into one range for each of `n` nodes.
pub open spec fn is_partition(start: Seq<usize>, n: int, total: int) -> bool {
    &&& 0 <= n
    &&& start.len() == n + 1
    &&& start[0] == 0
    &&& start[n] == total
    &&& forall|i: int, j: int| 0 <= i <= j <= n ==> #[trigger] start[i] <= #[trigger] start[j]
}

/// Slot `a` lies among the slots of node `u`.
pub open spec fn in_range(start: Seq<usize>, u: int, a: int) -> bool {
    0 <= u < start.len() - 1 && start[u] <= a < start[u + 1]
}

/// A slot lies in the range of one node only.
pub proof fn lemma_range_unique(start: Seq<usize>, n: int, total: int, u: int, w: int, a: int)
    requires
        is_partition(start, n, total),
        in_range(start, u, a),
        in_range(start, w, a),
    ensures
        u == w,
{
    if u < w {
        assert(start[u + 1] <= start[w]);
    } else if w < u {
        assert(start[w + 1] <= start[u]);
    }
}

/// The node whose range holds slot `a`, searched downwards from node `hi - 1`.
pub open spec fn node_of(start: Seq<usize>, hi: int, a: int) -> int
    decreases hi,
{
    if hi <= 0 {
        0
    } else if start[hi - 1] <= a {
        hi - 1
    } else {
        node_of(start, hi - 1, a)
    }
}

proof fn lemma_node_of_search(start: Seq<usize>, n: int, total: int, a: int, hi: int)
    requires
        is_partition(start, n, total),
        0 <= a < total,
        0 <= hi <= n,
        a < start[hi],
    ensures
        in_range(start, node_of(start, hi, a), a),
    decreases hi,
{
    if start[hi - 1] <= a {
    } else {
        lemma_node_of_search(start, n, total, a, hi - 1);
    }
}

/// Every slot lies in the range of the node that `node_of` finds for it.
pub proof fn lemma_node_of(start: Seq<usize>, n: int, total: int, a: int)
    requires
        is_partition(start, n, total),
        0 <= a < total,
    ensures
        in_range(start, node_of(start, n, a), a),
{
    lemma_node_of_search(start, n, total, a, n);
}

/// `node_of` finds the one node in whose range a slot lies.
pub proof fn lemma_node_of_unique(start: Seq<usize>, n: int, total: int, u: int, a: int)
    requires
        is_partition(start, n, total),
        in_range(start, u, a),
    ensures
        node_of(start, n, a) == u,
{
    assert(start[u + 1] <= start[n]);
    lemma_node_of(start, n, total, a);
    lemma_range_unique(start, n, total, u, node_of(start, n, a), a);
}

/// The slots serve the pairs `ends` over `n` nodes: the ranges partition the
/// `2 * ends.len()` slots, and slots and pairs correspond one to one.
pub open spec fn layout_serves(
    start: Seq<usize>,
    forward: Seq<usize>,
    backward: Seq<usize>,
    owner: Seq<int>,
    n: int,
    ends: Seq<(usize, usize)>,
) -> bool {
    let m = ends.len() as int;
    &&& is_partition(start, n, 2 * m)
    &&& forward.len() == m
    &&& backward.len() == m
    &&& owner.len() == 2 * m
    &&& forall|e: int|
        0 <= e < m ==> {
            &&& in_range(start, ends[e].0 as int, (#[trigger] forward[e]) as int)
            &&& owner[forward[e] as int] == e
        }
    &&& forall|e: int|
        0 <= e < m ==> {
            &&& in_range(start, ends[e].1 as int, (#[trigger] backward[e]) as int)
            &&& owner[backward[e] as int] == e
            &&& backward[e] != forward[e]
        }
    &&& forall|a: int|
        0 <= a < 2 * m ==> {
            &&& 0 <= (#[trigger] owner[a]) < m
            &&& (forward[owner[a]] == a || backward[owner[a]] == a)
        }
}

/// The slot of pair `e` at its first node: behind the slots of all nodes
/// below that node and the slots that earlier pairs have at the node.
pub open spec fn slot_from(ends: Seq<(usize, usize)>, e: int) -> int {
    incidences_below(ends, ends.len() as int, ends[e].0 as int) + incidences(ends, e, ends[e].0 as int)
}

/// The slot of pair `e` at its second node: behind the slots of all nodes
/// below that node, the slots that earlier pairs have at the node, and
/// the slot of the pair itself where its two nodes are one.
pub open spec fn slot_to(ends: Seq<(usize, usize)>, e: int) -> int {
    incidences_below(ends, ends.len() as int, ends[e].1 as int) + incidences(ends, e, ends[e].1 as int) + (if ends[e].0
        == ends[e].1 {
        1int
    } else {
        0
    })
}

/// Lays out the arcs of `ends` node by node: counts the endpoint occurrences
/// of every node, turns the counts into range boundaries and hands every pair
/// the next free slot of each of its endpoints.
pub fn arc_layout(num_nodes: usize, ends: &Vec<(usize, usize)>) -> (layout: Layout)
    requires
        num_nodes < usize::MAX,
        2 * ends@.len() <= usize::MAX,
        forall|e: int| 0 <= e < ends@.len() ==> (#[trigger] ends@[e]).0 < num_nodes && ends@[e].1 < num_nodes,
    ensures
        layout_serves(layout.start@, layout.forward@, layout.backward@, layout.owner@, num_nodes as int, ends@),
        forall|j: int| 0 <= j <= num_nodes ==> #[trigger] layout.start@[j] == incidences_below(ends@, ends@.len() as int, j),
        forall|e: int| 0 <= e < ends@.len() ==> #[trigger] layout.forward@[e] == slot_from(ends@, e),
        forall|e: int| 0 <= e < ends@.len() ==> #[trigger] layout.backward@[e] == slot_to(ends@, e),
{
    let m = ends.len();
    let mut degree: Vec<usize> = vec![0usize; num_nodes];
    for k in 0..m
        invariant
            m == ends@.len(),
            2 * m <= usize::MAX,
            degree@.len() == num_nodes,
            forall|e: int| 0 <= e < ends@.len() ==> (#[trigger] ends@[e]).0 < num_nodes && ends@[e].1 < num_nodes,
            forall|u: int| 0 <= u < num_nodes ==> #[trigger] degree@[u] == incidences(ends@, k as int, u),
    {
        let (from, to) = ends[k];
        proof {
            lemma_incidences_monotone(ends@, k as int + 1, m as int, from as int);
            lemma_incidences_monotone(ends@, k as int + 1, m as int, to as int);
        }
        degree[to] += 1;
        degree[from] += 1;
    }

    let mut start: Vec<usize> = vec![0usize; num_nodes + 1];
    for i in 1..(num_nodes + 1)
        invariant
            m == ends@.len(),
            2 * m <= usize::MAX,
            degree@.len() == num_nodes,
            start@.len() == num_nodes + 1,
            forall|e: int| 0 <= e < ends@.len() ==> (#[trigger] ends@[e]).0 < num_nodes && ends@[e].1 < num_nodes,
            forall|u: int| 0 <= u < num_nodes ==> #[trigger] degree@[u] == incidences(ends@, m as int, u),
            forall|j: int| 0 <= j < i ==> #[trigger] start@[j] == incidences_below(ends@, m as int, j),
            forall|u: int| 0 <= u < i - 1 ==> start@[u] + #[trigger] degree@[u] == start@[u + 1],
    {
        proof {
            lemma_incidences_below_monotone(ends@, m as int, i as int, num_nodes as int);
            lemma_incidences_total(ends@, m as int, num_nodes as int);
        }
        start[i] = start[i - 1] + degree[i - 1];
    }
    proof {
        lemma_incidences_total(ends@, m as int, num_nodes as int);
        assert forall|i: int, j: int| 0 <= i <= j <= num_nodes implies #[trigger] start@[i] <= #[trigger] start@[j] by {
            lemma_incidences_below_monotone(ends@, m as int, i, j);
        }
        assert(is_partition(start@, num_nodes as int, 2 * m));
    }

    let mut counter: Vec<usize> = vec![0usize; num_nodes];
    let mut forward: Vec<usize> = Vec::new();
    let mut backward: Vec<usize> = Vec::new();
    let ghost mut owner: Seq<int> = Seq::new((2 * m) as nat, |a: int| -1int);
    proof {
        assert forall|a: int| 0 <= a < 2 * m implies !(a < start@[node_of(start@, num_nodes as int, a)]
            + counter@[node_of(start@, num_nodes as int, a)]) by {
            lemma_node_of(start@, num_nodes as int, 2 * m, a);
        }
    }
    for k in 0..m
        invariant
            m == ends@.len(),
            2 * m <= usize::MAX,
            is_partition(start@, num_nodes as int, 2 * m),
            counter@.len() == num_nodes,
            degree@.len() == num_nodes,
            forward@.len() == k,
            backward@.len() == k,
            owner.len() == 2 * m,
            start@.len() == num_nodes + 1,
            forall|j: int| 0 <= j <= num_nodes ==> #[trigger] start@[j] == incidences_below(ends@, m as int, j),
            forall|e: int| 0 <= e < k ==> #[trigger] forward@[e] == slot_from(ends@, e),
            forall|e: int| 0 <= e < k ==> #[trigger] backward@[e] == slot_to(ends@, e),
            forall|e: int| 0 <= e < ends@.len() ==> (#[trigger] ends@[e]).0 < num_nodes && ends@[e].1 < num_nodes,
            forall|u: int|
                0 <= u < num_nodes ==> #[trigger] degree@[u] == incidences(ends@, m as int, u) && start@[u]
                    + degree@[u] == start@[u + 1],
            forall|u: int| 0 <= u < num_nodes ==> #[trigger] counter@[u] == incidences(ends@, k as int, u),
            forall|e: int|
                0 <= e < k ==> {
                    &&& in_range(start@, ends@[e].0 as int, (#[trigger] forward@[e]) as int)
                    &&& owner[forward@[e] as int] == e
                },
            forall|e: int|
                0 <= e < k ==> {
                    &&& in_range(start@, ends@[e].1 as int, (#[trigger] backward@[e]) as int)
                    &&& owner[backward@[e] as int] == e
                    &&& backward@[e] != forward@[e]
                },
            forall|a: int|
                0 <= a < 2 * m ==> {
                    ||| (#[trigger] owner[a]) == -1
                    ||| (0 <= owner[a] < k && (forward@[owner[a]] == a || backward@[owner[a]] == a))
                },
            forall|a: int|
                0 <= a < 2 * m ==> ((#[trigger] owner[a]) >= 0 <==> a < start@[node_of(start@, num_nodes as int, a)]
                    + counter@[node_of(start@, num_nodes as int, a)]),
    {
        let (from, to) = ends[k];
        let ghost before = counter@;
        let ghost previous = owner;
        proof {
            lemma_incidences_monotone(ends@, k as int + 1, m as int, from as int);
            lemma_incidences_monotone(ends@, k as int + 1, m as int, to as int);
            assert(degree@[from as int] == incidences(ends@, m as int, from as int));
            assert(degree@[to as int] == incidences(ends@, m as int, to as int));
            assert(start@[from as int + 1] <= start@[num_nodes as int]);
            assert(start@[to as int + 1] <= start@[num_nodes as int]);
        }
        let slot_from = start[from] + counter[from];
        counter[from] += 1;
        let slot_to = start[to] + counter[to];
        counter[to] += 1;
        proof {
            lemma_node_of_unique(start@, num_nodes as int, 2 * m, from as int, slot_from as int);
            lemma_node_of_unique(start@, num_nodes as int, 2 * m, to as int, slot_to as int);
            assert(previous[slot_from as int] == -1);
            assert(previous[slot_to as int] == -1);
            assert(slot_from != slot_to);
        }
        forward.push(slot_from);
        backward.push(slot_to);
        proof {
            owner = owner.update(slot_from as int, k as int).update(slot_to as int, k as int);
            assert forall|a: int| 0 <= a < 2 * m implies ((#[trigger] owner[a]) >= 0 <==> a < start@[node_of(
                start@,
                num_nodes as int,
                a,
            )] + counter@[node_of(start@, num_nodes as int, a)]) by {
                lemma_node_of(start@, num_nodes as int, 2 * m, a);
                assert(previous[a] >= 0 <==> a < start@[node_of(start@, num_nodes as int, a)] + before[node_of(
                    start@,
                    num_nodes as int,
                    a,
                )]);
            }
        }
    }
    proof {
        assert forall|a: int| 0 <= a < 2 * m implies {
            &&& 0 <= (#[trigger] owner[a]) < m
            &&& (forward@[owner[a]] == a || backward@[owner[a]] == a)
        } by {
            lemma_node_of(start@, num_nodes as int, 2 * m, a);
            let u = node_of(start@, num_nodes as int, a);
            assert(degree@[u] == counter@[u]);
        }
    }
    Layout { start, forward, backward, owner: Ghost(owner) }
}

} // verus!
