use crate::arith::floor_sqrt;
use crate::minimum_cost_flow::spanning_tree_structure::{InternalEdge, SpanningTreeStructure};
use vstd::prelude::*;

verus! {

/// `calculate_violation` may be asked about every edge of `st`, and gives
/// one answer for each.
pub open spec fn answers<F: Fn(&InternalEdge, &SpanningTreeStructure) -> i64>(
    calculate_violation: F,
    st: &SpanningTreeStructure,
) -> bool {
    &&& forall|e: int| 0 <= e < st.num_edges ==> call_requires(calculate_violation, (&#[trigger] st.edges@[e], st))
    &&& forall|e: int, v: i64, w: i64|
        0 <= e < st.num_edges && #[trigger] call_ensures(calculate_violation, (&st.edges@[e], st), v)
            && #[trigger] call_ensures(calculate_violation, (&st.edges@[e], st), w) ==> v == w
}

/// `calculate_violation` finds a positive violation at edge `e`.
pub open spec fn violates<F: Fn(&InternalEdge, &SpanningTreeStructure) -> i64>(
    calculate_violation: F,
    st: &SpanningTreeStructure,
    e: int,
) -> bool {
    exists|v: i64| v > 0 && #[trigger] call_ensures(calculate_violation, (&st.edges@[e], st), v)
}

/// An edge violates exactly if the answer about it is positive.
pub proof fn lemma_judged<F: Fn(&InternalEdge, &SpanningTreeStructure) -> i64>(
    calculate_violation: F,
    st: &SpanningTreeStructure,
    e: int,
    violation: i64,
)
    requires
        answers(calculate_violation, st),
        0 <= e < st.num_edges,
        call_ensures(calculate_violation, (&st.edges@[e], st), violation),
    ensures
        violates(calculate_violation, st, e) == (violation > 0),
{
    if violates(calculate_violation, st, e) {
        let v = choose|v: i64| v > 0 && #[trigger] call_ensures(calculate_violation, (&st.edges@[e], st), v);
        assert(v == violation);
    }
}

/// No edge has a greater violation than edge `e`, and every edge before it
/// has a smaller one.
pub open spec fn is_greatest<F: Fn(&InternalEdge, &SpanningTreeStructure) -> i64>(
    calculate_violation: F,
    st: &SpanningTreeStructure,
    e: int,
) -> bool {
    forall|other: int, v: i64, w: i64|
        0 <= other < st.num_edges && #[trigger] call_ensures(calculate_violation, (&st.edges@[e], st), v)
            && #[trigger] call_ensures(calculate_violation, (&st.edges@[other], st), w) ==> w <= v && (other < e ==> w
            < v)
}

/// Edge `e` lies among the `k` edges that follow the edge `first`, itself
/// included, where the edge after the last edge is the first one.
pub open spec fn scanned(first: int, k: int, num_edges: int, e: int) -> bool {
    (first <= e && e - first < k) || (e < first && e + num_edges - first < k)
}

/// The edge at which a search goes on that stopped at `cursor`.
pub open spec fn resumes_at(cursor: usize, num_edges: usize) -> int {
    if cursor >= num_edges {
        0
    } else {
        cursor as int
    }
}

/// The number of steps from edge `first` on to edge `e`, where the edge
/// after the last edge is the first one.
pub open spec fn steps_to(first: int, e: int, num_edges: int) -> int {
    if first <= e {
        e - first
    } else {
        e + num_edges - first
    }
}

/// Among the `k` edges that follow the edge `first`, itself included, lies
/// edge `e`, and none of them has a greater violation.
pub open spec fn is_greatest_among<F: Fn(&InternalEdge, &SpanningTreeStructure) -> i64>(
    calculate_violation: F,
    st: &SpanningTreeStructure,
    first: int,
    k: int,
    e: int,
) -> bool {
    &&& scanned(first, k, st.num_edges as int, e)
    &&& forall|other: int, v: i64, w: i64|
        0 <= other < st.num_edges && scanned(first, k, st.num_edges as int, other) && #[trigger] call_ensures(
            calculate_violation,
            (&st.edges@[e], st),
            v,
        ) && #[trigger] call_ensures(calculate_violation, (&st.edges@[other], st), w) ==> w <= v
}

/// Entry `k` is the first among the first `size` entries of `list` whose
/// edge has the greatest violation: no entry has a greater one, and every
/// entry before it has a smaller one.
pub open spec fn is_first_best<F: Fn(&InternalEdge, &SpanningTreeStructure) -> i64>(
    calculate_violation: F,
    st: &SpanningTreeStructure,
    list: Seq<usize>,
    size: int,
    k: int,
) -> bool {
    &&& 0 <= k < size
    &&& forall|j: int, v: i64, w: i64|
        0 <= j < size && #[trigger] call_ensures(calculate_violation, (&st.edges@[list[k] as int], st), v)
            && #[trigger] call_ensures(calculate_violation, (&st.edges@[list[j] as int], st), w) ==> w <= v && (j < k
            ==> w < v)
}

/// `entering` is the edge of the first among the first `size` entries of
/// `list` that has the greatest violation.
pub open spec fn selects<F: Fn(&InternalEdge, &SpanningTreeStructure) -> i64>(
    calculate_violation: F,
    st: &SpanningTreeStructure,
    list: Seq<usize>,
    size: int,
    entering: Option<usize>,
) -> bool {
    entering.is_some() && exists|k: int| #[trigger]
        is_first_best(calculate_violation, st, list, size, k) && list[k] == entering.unwrap()
}

/// The list and its size after every entry from entry `i` on that names
/// no edge with a positive violation has been taken out, each by putting
/// the last entry in its place.
pub open spec fn sifted<F: Fn(&InternalEdge, &SpanningTreeStructure) -> i64>(
    calculate_violation: F,
    st: &SpanningTreeStructure,
    list: Seq<usize>,
    size: int,
    i: int,
) -> (Seq<usize>, int)
    decreases size - i,
{
    if i >= size || i < 0 {
        (list, size)
    } else if list[i] < st.num_edges && violates(calculate_violation, st, list[i] as int) {
        sifted(calculate_violation, st, list, size, i + 1)
    } else {
        sifted(calculate_violation, st, list.update(i, list[size - 1]), size - 1, i)
    }
}

/// The edge `k` steps behind edge `first`, where the edge after the last
/// edge is the first one.
pub open spec fn turn_to(first: int, k: int, num_edges: int) -> int {
    if first + k < num_edges {
        first + k
    } else {
        first + k - num_edges
    }
}

/// The edges with a positive violation among the `k` edges from edge
/// `first` on, in their order, as long as they are fewer than `limit`;
/// and the number of edges looked at until then.
pub open spec fn listed_from<F: Fn(&InternalEdge, &SpanningTreeStructure) -> i64>(
    calculate_violation: F,
    st: &SpanningTreeStructure,
    first: int,
    k: nat,
    limit: int,
) -> (Seq<usize>, nat)
    decreases k,
{
    if k == 0 {
        (Seq::empty(), 0)
    } else {
        let before = listed_from(calculate_violation, st, first, (k - 1) as nat, limit);
        let e = turn_to(first, k - 1, st.num_edges as int);
        if before.0.len() >= limit {
            before
        } else if violates(calculate_violation, st, e) {
            (before.0.push(e as usize), k)
        } else {
            (before.0, k)
        }
    }
}

/// Once the list is full, looking at more edges adds nothing.
pub proof fn lemma_listed_stops<F: Fn(&InternalEdge, &SpanningTreeStructure) -> i64>(
    calculate_violation: F,
    st: &SpanningTreeStructure,
    first: int,
    k: nat,
    more: nat,
    limit: int,
)
    requires
        k <= more,
        listed_from(calculate_violation, st, first, k, limit).0.len() >= limit || k == more,
    ensures
        listed_from(calculate_violation, st, first, more, limit) == listed_from(calculate_violation, st, first, k, limit),
    decreases more - k,
{
    if k < more {
        lemma_listed_stops(calculate_violation, st, first, k, (more - 1) as nat, limit);
    }
}

/// The first `size` entries of `candidates` are edges with their
/// violations, which are positive, and none is greater than that of
/// edge `e`.
pub open spec fn is_best_kept<F: Fn(&InternalEdge, &SpanningTreeStructure) -> i64>(
    calculate_violation: F,
    st: &SpanningTreeStructure,
    candidates: Seq<(usize, i64)>,
    size: int,
    e: int,
) -> bool {
    forall|j: int, v: i64|
        0 <= j < size && #[trigger] call_ensures(calculate_violation, (&st.edges@[e], st), v) ==> {
            &&& (#[trigger] candidates[j]).0 < st.num_edges
            &&& 0 < candidates[j].1 <= v
            &&& call_ensures(calculate_violation, (&st.edges@[candidates[j].0 as int], st), candidates[j].1)
        }
}

/// `root` is the whole part of the square root of `n`.
pub open spec fn is_root(root: int, n: int) -> bool {
    0 <= root && root * root <= n < (root + 1) * (root + 1)
}

/// `size` is the whole part of the square root of `n`, or `least` where
/// that is greater.
pub open spec fn is_root_or(size: int, n: int, least: int) -> bool {
    exists|root: int| #[trigger]
        is_root(root, n) && size == (if root > least {
            root
        } else {
            least
        })
}

/// What `calculate_violation` answers about edge `e`.
pub open spec fn judged<F: Fn(&InternalEdge, &SpanningTreeStructure) -> i64>(
    calculate_violation: F,
    st: &SpanningTreeStructure,
    e: int,
) -> i64 {
    choose|v: i64| call_ensures(calculate_violation, (&st.edges@[e], st), v)
}

/// An answer about an edge is the answer about it.
pub proof fn lemma_judged_value<F: Fn(&InternalEdge, &SpanningTreeStructure) -> i64>(
    calculate_violation: F,
    st: &SpanningTreeStructure,
    e: int,
    violation: i64,
)
    requires
        answers(calculate_violation, st),
        0 <= e < st.num_edges,
        call_ensures(calculate_violation, (&st.edges@[e], st), violation),
    ensures
        judged(calculate_violation, st, e) == violation,
{
}

/// The edges that the entries of `list` name.
pub open spec fn cand_ids(list: Seq<(usize, i64)>) -> Seq<usize> {
    Seq::new(list.len(), |i: int| list[i].0)
}

/// The edges of `ids`, each with its violation.
pub open spec fn paired<F: Fn(&InternalEdge, &SpanningTreeStructure) -> i64>(
    calculate_violation: F,
    st: &SpanningTreeStructure,
    ids: Seq<usize>,
) -> Seq<(usize, i64)> {
    Seq::new(ids.len(), |i: int| (ids[i], judged(calculate_violation, st, ids[i] as int)))
}

/// What a search block by block over at most `k` edges from edge `first`
/// on gathers beside `base` edges that are at hand: the edges with a
/// positive violation in their order, what is left of the block, how
/// many edges have to be at hand for the search to end with the block,
/// whether it has ended, and the number of edges looked at. The search
/// ends with the first block after which more than `head_length` edges
/// are at hand, or with any later block after which one is.
pub open spec fn blocks_from<F: Fn(&InternalEdge, &SpanningTreeStructure) -> i64>(
    calculate_violation: F,
    st: &SpanningTreeStructure,
    first: int,
    k: nat,
    base: int,
    block_size: int,
    head_length: int,
) -> (Seq<usize>, int, int, bool, nat)
    decreases k,
{
    if k == 0 {
        (Seq::empty(), block_size, head_length, false, 0)
    } else {
        let before = blocks_from(calculate_violation, st, first, (k - 1) as nat, base, block_size, head_length);
        let e = turn_to(first, k - 1, st.num_edges as int);
        let list = if violates(calculate_violation, st, e) {
            before.0.push(e as usize)
        } else {
            before.0
        };
        if before.3 {
            before
        } else if before.1 - 1 != 0 {
            (list, before.1 - 1, before.2, false, k)
        } else if base + list.len() > before.2 {
            (list, 0, before.2, true, k)
        } else {
            (list, block_size, 0, false, k)
        }
    }
}

/// Once the search has ended, looking at more edges adds nothing.
pub proof fn lemma_blocks_stop<F: Fn(&InternalEdge, &SpanningTreeStructure) -> i64>(
    calculate_violation: F,
    st: &SpanningTreeStructure,
    first: int,
    k: nat,
    more: nat,
    base: int,
    block_size: int,
    head_length: int,
)
    requires
        k <= more,
        blocks_from(calculate_violation, st, first, k, base, block_size, head_length).3 || k == more,
    ensures
        blocks_from(calculate_violation, st, first, more, base, block_size, head_length) == blocks_from(
            calculate_violation,
            st,
            first,
            k,
            base,
            block_size,
            head_length,
        ),
    decreases more - k,
{
    if k < more {
        lemma_blocks_stop(calculate_violation, st, first, k, (more - 1) as nat, base, block_size, head_length);
    }
}

/// The first entry with the greatest violation among the entries of
/// `list` from `from` on and before `to`.
pub open spec fn first_max(list: Seq<(usize, i64)>, from: int, to: int) -> int
    decreases to - from,
{
    if to <= from + 1 {
        from
    } else {
        let before = first_max(list, from, to - 1);
        if list[to - 1].1 > list[before].1 {
            to - 1
        } else {
            before
        }
    }
}

/// The entry that `first_max` names lies in the range, no entry of the
/// range has a greater violation, and every entry of the range before it
/// has a smaller one.
pub proof fn lemma_first_max(list: Seq<(usize, i64)>, from: int, to: int)
    requires
        0 <= from < to <= list.len(),
    ensures
        from <= first_max(list, from, to) < to,
        forall|j: int| from <= j < to ==> (#[trigger] list[j]).1 <= list[first_max(list, from, to)].1,
        forall|j: int| from <= j < first_max(list, from, to) ==> (#[trigger] list[j]).1 < list[first_max(list, from, to)].1,
    decreases to - from,
{
    if to > from + 1 {
        lemma_first_max(list, from, to - 1);
    }
}

/// `list` with entries `i` and `j` exchanged.
pub open spec fn swapped(list: Seq<(usize, i64)>, i: int, j: int) -> Seq<(usize, i64)> {
    list.update(i, list[j]).update(j, list[i])
}

/// `list` after the first entry with the greatest violation among its
/// first `size` entries has been brought to the front, the first with the
/// greatest among the others behind it, and so on for `upto` entries.
pub open spec fn selected(list: Seq<(usize, i64)>, size: int, upto: nat) -> Seq<(usize, i64)>
    decreases upto,
{
    if upto == 0 {
        list
    } else {
        let before = selected(list, size, (upto - 1) as nat);
        swapped(before, upto - 1, first_max(before, upto - 1, size))
    }
}

/// The selection keeps the number of entries; its first entry is the
/// first entry of `list` with the greatest violation; the entries brought
/// to the front stand in falling order, and none behind them is greater.
pub proof fn lemma_selected_head(list: Seq<(usize, i64)>, size: int, upto: nat)
    requires
        0 < upto <= size == list.len(),
    ensures
        selected(list, size, upto).len() == size,
        selected(list, size, upto)[0] == list[first_max(list, 0, size)],
        forall|i: int, j: int|
            0 <= i < upto && i <= j < size ==> (#[trigger] selected(list, size, upto)[j]).1 <= (#[trigger] selected(
                list,
                size,
                upto,
            )[i]).1,
    decreases upto,
{
    let before = selected(list, size, (upto - 1) as nat);
    if upto > 1 {
        lemma_selected_head(list, size, (upto - 1) as nat);
    }
    lemma_first_max(before, upto - 1, size);
    let best = first_max(before, upto - 1, size);
    let after = swapped(before, upto - 1, best);
    assert forall|i: int, j: int| 0 <= i < upto && i <= j < size implies (#[trigger] after[j]).1 <= (#[trigger] after[i]).1 by {
        let from_j = if j == upto - 1 {
            best
        } else if j == best {
            upto - 1
        } else {
            j
        };
        assert(after[j] == before[from_j]);
        if i < upto - 1 {
            assert(after[i] == before[i]);
            assert(before[from_j].1 <= before[i].1);
        } else {
            assert(after[i] == before[best]);
        }
    }
}

/// The `n` edges from edge `first` on, where the edge after the last edge
/// is the first one.
pub open spec fn ring_from(first: int, n: int) -> Seq<usize> {
    Seq::new(n as nat, |i: int| turn_to(first, i, n) as usize)
}

/// What a search block by block over at most `k` edges from edge `first`
/// on comes to: what is left of the block, whether an edge with a
/// positive violation was seen, whether the search has ended, which it
/// does with the first block in or before which such an edge was seen,
/// and the number of edges looked at.
pub open spec fn block_scan<F: Fn(&InternalEdge, &SpanningTreeStructure) -> i64>(
    calculate_violation: F,
    st: &SpanningTreeStructure,
    first: int,
    k: nat,
    block_size: int,
) -> (int, bool, bool, nat)
    decreases k,
{
    if k == 0 {
        (block_size, false, false, 0)
    } else {
        let before = block_scan(calculate_violation, st, first, (k - 1) as nat, block_size);
        let seen = before.1 || violates(calculate_violation, st, turn_to(first, k - 1, st.num_edges as int));
        if before.2 {
            before
        } else if before.0 - 1 != 0 {
            (before.0 - 1, seen, false, k)
        } else if seen {
            (0, true, true, k)
        } else {
            (block_size, false, false, k)
        }
    }
}

/// Once the search has ended, looking at more edges changes nothing.
pub proof fn lemma_block_scan_stops<F: Fn(&InternalEdge, &SpanningTreeStructure) -> i64>(
    calculate_violation: F,
    st: &SpanningTreeStructure,
    first: int,
    k: nat,
    more: nat,
    block_size: int,
)
    requires
        k <= more,
        block_scan(calculate_violation, st, first, k, block_size).2 || k == more,
    ensures
        block_scan(calculate_violation, st, first, more, block_size) == block_scan(
            calculate_violation,
            st,
            first,
            k,
            block_size,
        ),
    decreases more - k,
{
    if k < more {
        lemma_block_scan_stops(calculate_violation, st, first, k, (more - 1) as nat, block_size);
    }
}

/// A strategy to select the edge that enters the basis.
pub trait PivotRule: Sized {
    /// The state of the rule is consistent.
    spec fn wf(&self) -> bool;

    /// A rule with the usual parameters for a graph of `num_edges` edges.
    fn new(num_edges: usize) -> (rule: Self)
        ensures
            rule.wf(),
    ;

    /// Selects an edge with a positive violation, or finds that there is none.
    fn find_entering_edge<F: Fn(&InternalEdge, &SpanningTreeStructure) -> i64>(
        &mut self,
        st: &SpanningTreeStructure,
        calculate_violation: F,
    ) -> (entering: Option<usize>)
        requires
            old(self).wf(),
            st.wf(),
            answers(calculate_violation, st),
        ensures
            final(self).wf(),
            entering matches Some(e) ==> e < st.num_edges && violates(calculate_violation, st, e as int),
            entering.is_none() ==> forall|e: int| 0 <= e < st.num_edges ==> !violates(calculate_violation, st, e),
    ;
}

/// Selects the edge with the greatest violation.
pub struct BestEligibleArcPivotRule {}

impl PivotRule for BestEligibleArcPivotRule {
    open spec fn wf(&self) -> bool {
        true
    }

    fn new(_num_edges: usize) -> (rule: Self) {
        BestEligibleArcPivotRule {}
    }

    fn find_entering_edge<F: Fn(&InternalEdge, &SpanningTreeStructure) -> i64>(
        &mut self,
        st: &SpanningTreeStructure,
        calculate_violation: F,
    ) -> (entering: Option<usize>)
        ensures
            entering matches Some(e) ==> is_greatest(calculate_violation, st, e as int),
    {
        let mut maxi_violation: i64 = 0;
        let mut entering_edge_id: Option<usize> = None;

        for edge_id in 0..st.num_edges
            invariant
                st.wf(),
                answers(calculate_violation, st),
                0 <= maxi_violation,
                entering_edge_id.is_none() ==> maxi_violation == 0,
                entering_edge_id matches Some(e) ==> e < edge_id && violates(calculate_violation, st, e as int)
                    && call_ensures(calculate_violation, (&st.edges@[e as int], st), maxi_violation),
                entering_edge_id.is_none() ==> forall|e: int| 0 <= e < edge_id ==> !violates(calculate_violation, st, e),
                forall|other: int, w: i64|
                    0 <= other < edge_id && #[trigger] call_ensures(calculate_violation, (&st.edges@[other], st), w)
                        ==> w <= maxi_violation && (entering_edge_id matches Some(e) && other < e ==> w < maxi_violation),
        {
            let edge = &st.edges[edge_id];
            let violation = calculate_violation(edge, st);
            proof {
                lemma_judged(calculate_violation, st, edge_id as int, violation);
            }
            if violation > maxi_violation {
                maxi_violation = violation;
                entering_edge_id = Some(edge_id);
            }
        }
        entering_edge_id
    }
}

/// Selects the first edge with a positive violation, going on from where
/// the search stopped last.
pub struct FirstEligibleArcPivotRule {
    pub current_edge_id: usize,
}

impl PivotRule for FirstEligibleArcPivotRule {
    open spec fn wf(&self) -> bool {
        true
    }

    fn new(_num_edges: usize) -> (rule: Self)
        ensures
            rule.current_edge_id == 0,
    {
        FirstEligibleArcPivotRule { current_edge_id: 0 }
    }

    fn find_entering_edge<F: Fn(&InternalEdge, &SpanningTreeStructure) -> i64>(
        &mut self,
        st: &SpanningTreeStructure,
        calculate_violation: F,
    ) -> (entering: Option<usize>)
        ensures
            entering matches Some(e) ==> final(self).current_edge_id == e && forall|other: int|
                0 <= other < st.num_edges && scanned(
                    resumes_at(old(self).current_edge_id, st.num_edges),
                    steps_to(resumes_at(old(self).current_edge_id, st.num_edges), e as int, st.num_edges as int),
                    st.num_edges as int,
                    other,
                ) ==> !violates(calculate_violation, st, other),
    {
        if self.current_edge_id >= st.num_edges {
            self.current_edge_id = 0;
        }
        let ghost first = self.current_edge_id as int;
        for k in 0..st.num_edges
            invariant
                st.wf(),
                answers(calculate_violation, st),
                first == resumes_at(old(self).current_edge_id, st.num_edges),
                0 <= first < st.num_edges || st.num_edges == 0,
                self.current_edge_id == (if first + k < st.num_edges {
                    first + k
                } else {
                    first + k - st.num_edges
                }),
                forall|e: int|
                    0 <= e < st.num_edges && scanned(first, k as int, st.num_edges as int, e) ==> !violates(
                        calculate_violation,
                        st,
                        e,
                    ),
        {
            let edge = &st.edges[self.current_edge_id];
            let violation = calculate_violation(edge, st);
            proof {
                lemma_judged(calculate_violation, st, self.current_edge_id as int, violation);
            }

            if violation > 0 {
                return Some(self.current_edge_id);
            }
            self.current_edge_id += 1;
            if self.current_edge_id == st.num_edges {
                self.current_edge_id = 0;
            }
        }
        None
    }
}

/// Searches block by block and selects the edge with the greatest
/// violation of the first block that holds one.
pub struct BlockSearchPivotRule {
    pub current_edge_id: usize,
    pub block_size: usize,
}

impl BlockSearchPivotRule {
    /// A rule that searches in blocks of `block_size` edges.
    pub fn with_block_size(block_size: usize) -> (rule: Self)
        requires
            block_size > 0,
        ensures
            rule.wf(),
            rule.block_size == block_size,
            rule.current_edge_id == 0,
    {
        BlockSearchPivotRule { current_edge_id: 0, block_size }
    }
}

impl PivotRule for BlockSearchPivotRule {
    open spec fn wf(&self) -> bool {
        self.block_size > 0
    }

    fn new(num_edges: usize) -> (rule: Self)
        ensures
            is_root_or(rule.block_size as int, num_edges as int, 10),
            rule.current_edge_id == 0,
    {
        let min_block_size: usize = 10;
        let root = floor_sqrt(num_edges);
        proof {
            assert(is_root(root as int, num_edges as int));
        }
        BlockSearchPivotRule::with_block_size(if root > min_block_size { root } else { min_block_size })
    }

    fn find_entering_edge<F: Fn(&InternalEdge, &SpanningTreeStructure) -> i64>(
        &mut self,
        st: &SpanningTreeStructure,
        calculate_violation: F,
    ) -> (entering: Option<usize>)
        ensures
            final(self).block_size == old(self).block_size,
            entering matches Some(e) ==> exists|k: int|
                0 < k <= st.num_edges && (steps_to(
                    resumes_at(old(self).current_edge_id, st.num_edges),
                    final(self).current_edge_id as int,
                    st.num_edges as int,
                ) == k - 1 || (k == st.num_edges && final(self).current_edge_id == resumes_at(
                    old(self).current_edge_id,
                    st.num_edges,
                ))) && #[trigger] is_greatest_among(
                    calculate_violation,
                    st,
                    resumes_at(old(self).current_edge_id, st.num_edges),
                    k,
                    e as int,
                ),
            ({
                let first = resumes_at(old(self).current_edge_id, st.num_edges);
                let search = block_scan(calculate_violation, st, first, st.num_edges as nat, old(self).block_size as int);
                let ring = paired(calculate_violation, st, ring_from(first, st.num_edges as int));
                &&& entering.is_some() == search.1
                &&& search.1 ==> entering == Some(ring[first_max(ring, 0, search.3 as int)].0)
                &&& final(self).current_edge_id == (if st.num_edges == 0 {
                    0
                } else if search.2 {
                    turn_to(first, search.3 - 1, st.num_edges as int)
                } else {
                    first
                })
            }),
    {
        let mut maxi_violation: i64 = 0;
        let mut entering_edge_id: Option<usize> = None;
        let mut count = self.block_size;

        if self.current_edge_id >= st.num_edges {
            self.current_edge_id = 0;
        }
        let ghost first = self.current_edge_id as int;
        let ghost ring = paired(calculate_violation, st, ring_from(first, st.num_edges as int));
        for k in 0..st.num_edges
            invariant
                ring == paired(calculate_violation, st, ring_from(first, st.num_edges as int)),
                st.num_edges == 0 ==> self.current_edge_id == 0,
                block_scan(calculate_violation, st, first, k as nat, self.block_size as int) == (
                    count as int,
                    entering_edge_id.is_some(),
                    false,
                    k as nat,
                ),
                entering_edge_id matches Some(e) ==> k > 0 && e == ring[first_max(ring, 0, k as int)].0 && maxi_violation
                    == ring[first_max(ring, 0, k as int)].1,
                forall|i: int| 0 <= i < k ==> (#[trigger] ring[i]).1 <= maxi_violation,
                self.wf(),
                st.wf(),
                answers(calculate_violation, st),
                self.block_size == old(self).block_size,
                first == resumes_at(old(self).current_edge_id, st.num_edges),
                0 <= first < st.num_edges || st.num_edges == 0,
                0 < count <= self.block_size,
                0 <= maxi_violation,
                entering_edge_id.is_none() ==> maxi_violation == 0,
                self.current_edge_id == (if first + k < st.num_edges {
                    first + k
                } else {
                    first + k - st.num_edges
                }),
                entering_edge_id matches Some(e) ==> e < st.num_edges && violates(calculate_violation, st, e as int)
                    && scanned(first, k as int, st.num_edges as int, e as int) && call_ensures(
                    calculate_violation,
                    (&st.edges@[e as int], st),
                    maxi_violation,
                ),
                forall|other: int, w: i64|
                    0 <= other < st.num_edges && scanned(first, k as int, st.num_edges as int, other)
                        && #[trigger] call_ensures(calculate_violation, (&st.edges@[other], st), w) ==> w
                        <= maxi_violation,
                entering_edge_id.is_none() ==> forall|e: int|
                    0 <= e < st.num_edges && scanned(first, k as int, st.num_edges as int, e) ==> !violates(
                        calculate_violation,
                        st,
                        e,
                    ),
        {
            let edge = &st.edges[self.current_edge_id];
            let violation = calculate_violation(edge, st);
            proof {
                lemma_judged(calculate_violation, st, self.current_edge_id as int, violation);
                lemma_judged_value(calculate_violation, st, self.current_edge_id as int, violation);
                assert(ring[k as int] == (self.current_edge_id, violation));
                assert(turn_to(first, k as int, st.num_edges as int) == self.current_edge_id);
                if k > 0 {
                    lemma_first_max(ring, 0, k as int);
                }
            }

            if violation > maxi_violation {
                maxi_violation = violation;
                entering_edge_id = Some(self.current_edge_id);
            }
            count -= 1;
            if count == 0 {
                if entering_edge_id.is_some() {
                    proof {
                        assert(is_greatest_among(
                            calculate_violation,
                            st,
                            first,
                            k + 1,
                            entering_edge_id.unwrap() as int,
                        ));
                        lemma_block_scan_stops(
                            calculate_violation,
                            st,
                            first,
                            (k + 1) as nat,
                            st.num_edges as nat,
                            self.block_size as int,
                        );
                    }
                    return entering_edge_id;
                }
                count = self.block_size;
            }
            self.current_edge_id += 1;
            if self.current_edge_id == st.num_edges {
                self.current_edge_id = 0;
            }
        }
        proof {
            if entering_edge_id.is_some() {
                assert(is_greatest_among(
                    calculate_violation,
                    st,
                    first,
                    st.num_edges as int,
                    entering_edge_id.unwrap() as int,
                ));
            }
        }
        entering_edge_id
    }
}

/// Keeps a list of edges with a positive violation. Minor iterations
/// select from the list and drop from it what has no violation any more;
/// after a number of them the list is built anew from where the last
/// search stopped.
pub struct CandidateListPivotRule {
    pub current_edge_id: usize,
    pub candidates: Vec<usize>,
    pub candidate_list_size: usize,
    pub minor_count_limit: usize,
    pub minor_count: usize,
    pub current_size: usize,
}

impl CandidateListPivotRule {
    /// A rule with a list of `candidate_list_size` edges that is built
    /// anew after `minor_limit` selections from it.
    pub fn with_sizes(candidate_list_size: usize, minor_limit: usize) -> (rule: Self)
        requires
            candidate_list_size > 0,
            minor_limit > 0,
        ensures
            rule.wf(),
            rule.candidate_list_size == candidate_list_size,
            rule.minor_count_limit == minor_limit,
            rule.current_size == 0,
    {
        CandidateListPivotRule {
            current_edge_id: 0,
            candidates: vec![usize::MAX; candidate_list_size],
            candidate_list_size,
            current_size: 0,
            minor_count_limit: minor_limit,
            minor_count: 0,
        }
    }
}

impl PivotRule for CandidateListPivotRule {
    open spec fn wf(&self) -> bool {
        &&& self.candidate_list_size > 0
        &&& self.candidates@.len() == self.candidate_list_size
        &&& self.current_size <= self.candidate_list_size
    }

    fn new(num_edges: usize) -> (rule: Self)
        ensures
            is_root_or(rule.candidate_list_size as int, num_edges as int / 16, 10),
            rule.minor_count_limit == (if rule.candidate_list_size / 10 > 3 {
                rule.candidate_list_size as int / 10
            } else {
                3
            }),
            rule.current_size == 0,
    {
        let min_candidate_list_size: usize = 10;
        let min_minor_limit: usize = 3;
        // a quarter of the root of the number of edges
        let quarter_root = floor_sqrt(num_edges / 16);
        proof {
            assert(is_root(quarter_root as int, num_edges as int / 16));
        }
        let candidate_list_size = if quarter_root > min_candidate_list_size {
            quarter_root
        } else {
            min_candidate_list_size
        };
        // a tenth of the size of the list
        let tenth = candidate_list_size / 10;
        let minor_limit = if tenth > min_minor_limit { tenth } else { min_minor_limit };
        CandidateListPivotRule::with_sizes(candidate_list_size, minor_limit)
    }

    fn find_entering_edge<F: Fn(&InternalEdge, &SpanningTreeStructure) -> i64>(
        &mut self,
        st: &SpanningTreeStructure,
        calculate_violation: F,
    ) -> (entering: Option<usize>)
        ensures
            final(self).candidate_list_size == old(self).candidate_list_size,
            final(self).minor_count_limit == old(self).minor_count_limit,
            ({
                let left = sifted(calculate_violation, st, old(self).candidates@, old(self).current_size as int, 0);
                let first = resumes_at(old(self).current_edge_id, st.num_edges);
                let built = listed_from(
                    calculate_violation,
                    st,
                    first,
                    st.num_edges as nat,
                    old(self).candidate_list_size as int,
                );
                if old(self).current_size > 0 && old(self).minor_count < old(self).minor_count_limit && left.1 > 0 {
                    &&& final(self).candidates@ == left.0
                    &&& final(self).current_size == left.1
                    &&& final(self).minor_count == old(self).minor_count + 1
                    &&& final(self).current_edge_id == old(self).current_edge_id
                    &&& selects(calculate_violation, st, left.0, left.1, entering)
                } else {
                    &&& final(self).candidates@.take(final(self).current_size as int) == built.0
                    &&& final(self).minor_count == 1
                    &&& final(self).current_edge_id == (if st.num_edges == 0 {
                        0
                    } else if built.0.len() == old(self).candidate_list_size {
                        turn_to(first, built.1 - 1, st.num_edges as int)
                    } else {
                        first
                    })
                    &&& built.0.len() == 0 ==> entering.is_none()
                    &&& built.0.len() > 0 ==> selects(calculate_violation, st, built.0, built.0.len() as int, entering)
                }
            }),
    {
        let mut maxi_violation: i64 = 0;
        let mut entering_edge_id: Option<usize> = None;
        let ghost left = sifted(calculate_violation, st, self.candidates@, self.current_size as int, 0);
        let ghost mut at: int = 0;

        // minor iteration
        if self.current_size > 0 && self.minor_count < self.minor_count_limit {
            self.minor_count += 1;

            // search in candidate list
            let mut i: usize = 0;
            while i < self.current_size
                invariant
                    self.wf(),
                    st.wf(),
                    answers(calculate_violation, st),
                    i <= self.current_size,
                    0 <= maxi_violation,
                    self.candidate_list_size == old(self).candidate_list_size,
                    self.minor_count_limit == old(self).minor_count_limit,
                    self.minor_count == old(self).minor_count + 1,
                    self.current_edge_id == old(self).current_edge_id,
                    sifted(calculate_violation, st, self.candidates@, self.current_size as int, i as int) == left,
                    entering_edge_id.is_none() ==> maxi_violation == 0 && i == 0,
                    entering_edge_id matches Some(e) ==> e < st.num_edges && violates(calculate_violation, st, e as int)
                        && call_ensures(calculate_violation, (&st.edges@[e as int], st), maxi_violation) && 0 <= at < i
                        && self.candidates@[at] == e,
                    forall|j: int|
                        0 <= j < i ==> (#[trigger] self.candidates@[j]) < st.num_edges && violates(
                            calculate_violation,
                            st,
                            self.candidates@[j] as int,
                        ),
                    forall|j: int, w: i64|
                        0 <= j < i && #[trigger] call_ensures(
                            calculate_violation,
                            (&st.edges@[self.candidates@[j] as int], st),
                            w,
                        ) ==> w <= maxi_violation && (j < at ==> w < maxi_violation),
                decreases self.current_size - i,
            {
                let edge_id = self.candidates[i];
                let violation = if edge_id < st.num_edges {
                    let violation = calculate_violation(&st.edges[edge_id], st);
                    proof {
                        lemma_judged(calculate_violation, st, edge_id as int, violation);
                    }
                    violation
                } else {
                    0
                };
                let ghost listed = self.candidates@;
                if violation <= 0 {
                    // remove ineligible arc from the candidates
                    self.current_size -= 1;
                    self.candidates[i] = self.candidates[self.current_size];
                    proof {
                        assert forall|j: int| 0 <= j < i implies #[trigger] self.candidates@[j] == listed[j] by {}
                    }
                } else {
                    if violation > maxi_violation {
                        maxi_violation = violation;
                        entering_edge_id = Some(edge_id);
                        proof {
                            at = i as int;
                        }
                    }
                    i += 1;
                }
            }
            if entering_edge_id.is_some() {
                proof {
                    assert(left == (self.candidates@, self.current_size as int));
                    assert(is_first_best(calculate_violation, st, left.0, left.1, at));
                }
                return entering_edge_id;
            }
            proof {
                assert(left.1 == 0);
            }
        }

        // build a candidate list
        self.current_size = 0;
        if self.current_edge_id >= st.num_edges {
            self.current_edge_id = 0;
        }
        let ghost first = self.current_edge_id as int;
        let ghost limit = self.candidate_list_size as int;
        let ghost minor = old(self).current_size > 0 && old(self).minor_count < old(self).minor_count_limit && left.1
            > 0;
        let mut k: usize = 0;
        let mut full = false;
        proof {
            assert(self.candidates@.take(0) =~= Seq::<usize>::empty());
        }
        while k < st.num_edges && !full
            invariant
                !minor,
                minor == (old(self).current_size > 0 && old(self).minor_count < old(self).minor_count_limit && left.1
                    > 0),
                left == sifted(calculate_violation, st, old(self).candidates@, old(self).current_size as int, 0),
                st.num_edges == 0 ==> self.current_edge_id == 0,
                self.wf(),
                st.wf(),
                answers(calculate_violation, st),
                first == resumes_at(old(self).current_edge_id, st.num_edges),
                limit == self.candidate_list_size,
                0 <= first < st.num_edges || st.num_edges == 0,
                k <= st.num_edges,
                0 <= maxi_violation,
                self.candidate_list_size == old(self).candidate_list_size,
                self.minor_count_limit == old(self).minor_count_limit,
                entering_edge_id.is_none() ==> maxi_violation == 0 && self.current_size == 0,
                entering_edge_id matches Some(e) ==> e < st.num_edges && call_ensures(
                    calculate_violation,
                    (&st.edges@[e as int], st),
                    maxi_violation,
                ) && 0 <= at < self.current_size && self.candidates@[at] == e,
                forall|j: int|
                    0 <= j < self.current_size ==> (#[trigger] self.candidates@[j]) < st.num_edges && violates(
                        calculate_violation,
                        st,
                        self.candidates@[j] as int,
                    ),
                forall|j: int, w: i64|
                    0 <= j < self.current_size && #[trigger] call_ensures(
                        calculate_violation,
                        (&st.edges@[self.candidates@[j] as int], st),
                        w,
                    ) ==> w <= maxi_violation && (j < at ==> w < maxi_violation),
                full ==> entering_edge_id.is_some() && self.current_size == limit && k < st.num_edges,
                !full ==> self.current_size < self.candidate_list_size,
                entering_edge_id matches Some(e) ==> violates(calculate_violation, st, e as int),
                entering_edge_id.is_none() ==> forall|e: int|
                    0 <= e < st.num_edges && scanned(first, k as int, st.num_edges as int, e) ==> !violates(
                        calculate_violation,
                        st,
                        e,
                    ),
                self.current_edge_id < st.num_edges || st.num_edges == 0,
                self.current_edge_id == turn_to(first, k as int, st.num_edges as int) || st.num_edges == 0,
                (self.candidates@.take(self.current_size as int), if full {
                    (k + 1) as nat
                } else {
                    k as nat
                }) == listed_from(calculate_violation, st, first, if full {
                    (k + 1) as nat
                } else {
                    k as nat
                }, limit),
            decreases st.num_edges - k, !full as int,
        {
            let edge = &st.edges[self.current_edge_id];
            let violation = calculate_violation(edge, st);
            proof {
                lemma_judged(calculate_violation, st, self.current_edge_id as int, violation);
            }
            let ghost listed = self.candidates@;
            let ghost size = self.current_size as int;

            if violation > 0 {
                self.candidates[self.current_size] = self.current_edge_id;
                self.current_size += 1;
                proof {
                    assert forall|j: int| 0 <= j < size implies #[trigger] self.candidates@[j] == listed[j] by {}
                    assert(self.candidates@.take(size + 1) =~= listed.take(size).push(self.current_edge_id));
                }

                if violation > maxi_violation {
                    maxi_violation = violation;
                    entering_edge_id = Some(self.current_edge_id);
                    proof {
                        at = size;
                    }
                }
            }
            if self.current_size == self.candidate_list_size {
                full = true;
            } else {
                self.current_edge_id += 1;
                if self.current_edge_id == st.num_edges {
                    self.current_edge_id = 0;
                }
                k += 1;
            }
        }

        self.minor_count = 1;
        proof {
            let scanned = if full {
                (k + 1) as nat
            } else {
                k as nat
            };
            lemma_listed_stops(calculate_violation, st, first, scanned, st.num_edges as nat, limit);
            if entering_edge_id.is_some() {
                assert(is_first_best(
                    calculate_violation,
                    st,
                    self.candidates@.take(self.current_size as int),
                    self.current_size as int,
                    at,
                ));
            }
        }
        entering_edge_id
    }
}

/// Keeps the edges with the greatest violations that the last searches
/// found: searches block by block until enough edges with a positive
/// violation are at hand, selects the one with the greatest violation
/// and keeps the next best for the selections to come.
pub struct AlteringCandidateListPivotRule {
    pub current_edge_id: usize,
    pub block_size: usize,
    pub head_length: usize,
    pub candidates: Vec<(usize, i64)>,
    pub current_size: usize,
}

impl AlteringCandidateListPivotRule {
    /// A rule that searches in blocks of `block_size` edges and keeps up
    /// to `head_length` edges from one selection to the next.
    pub fn with_sizes(block_size: usize, head_length: usize) -> (rule: Self)
        requires
            block_size > 0,
            head_length > 0,
            block_size + head_length <= usize::MAX,
        ensures
            rule.wf(),
            rule.block_size == block_size,
            rule.head_length == head_length,
            rule.current_size == 0,
    {
        let mut candidates: Vec<(usize, i64)> = Vec::new();
        let length = head_length + block_size;
        for i in 0..length
            invariant
                candidates@.len() == i,
        {
            candidates.push((usize::MAX, 0));
        }
        AlteringCandidateListPivotRule { current_edge_id: 0, block_size, head_length, candidates, current_size: 0 }
    }
}

impl PivotRule for AlteringCandidateListPivotRule {
    open spec fn wf(&self) -> bool {
        &&& self.block_size > 0
        &&& self.head_length > 0
        &&& self.head_length + self.block_size <= usize::MAX
        &&& self.candidates@.len() == self.head_length + self.block_size
        &&& self.current_size <= self.head_length
    }

    fn new(num_edges: usize) -> (rule: Self)
        ensures
            is_root_or(rule.block_size as int, num_edges as int, 10),
            rule.head_length == (if rule.block_size / 100 > 3 {
                rule.block_size as int / 100
            } else {
                3
            }),
            rule.current_size == 0,
    {
        let min_block_size: usize = 10;
        let min_head_length: usize = 3;
        let root = floor_sqrt(num_edges);
        let block_size = if root > min_block_size { root } else { min_block_size };
        // a hundredth of the size of a block
        let hundredth = block_size / 100;
        let head_length = if hundredth > min_head_length { hundredth } else { min_head_length };
        proof {
            assert(is_root(root as int, num_edges as int));
            assert(root > 10 ==> 2 * root <= root * root) by (nonlinear_arith);
            assert(block_size + head_length <= usize::MAX);
        }
        AlteringCandidateListPivotRule::with_sizes(block_size, head_length)
    }

    fn find_entering_edge<F: Fn(&InternalEdge, &SpanningTreeStructure) -> i64>(
        &mut self,
        st: &SpanningTreeStructure,
        calculate_violation: F,
    ) -> (entering: Option<usize>)
        ensures
            final(self).block_size == old(self).block_size,
            final(self).head_length == old(self).head_length,
            entering matches Some(e) ==> is_best_kept(
                calculate_violation,
                st,
                final(self).candidates@,
                final(self).current_size as int,
                e as int,
            ),
            ({
                let first = resumes_at(old(self).current_edge_id, st.num_edges);
                let left = sifted(
                    calculate_violation,
                    st,
                    cand_ids(old(self).candidates@),
                    old(self).current_size as int,
                    0,
                );
                let more = blocks_from(
                    calculate_violation,
                    st,
                    first,
                    st.num_edges as nat,
                    left.1,
                    old(self).block_size as int,
                    old(self).head_length as int,
                );
                let all = paired(calculate_violation, st, left.0.take(left.1) + more.0);
                let length = if all.len() < old(self).head_length + 1 {
                    all.len() as int
                } else {
                    old(self).head_length + 1
                };
                let sorted = selected(all, all.len() as int, length as nat);
                &&& final(self).current_edge_id == (if st.num_edges == 0 {
                    0
                } else if more.3 {
                    turn_to(first, more.4 - 1, st.num_edges as int)
                } else {
                    first
                })
                &&& all.len() == 0 ==> entering.is_none() && final(self).current_size == 0
                &&& all.len() > 0 ==> {
                    &&& entering == Some(all[first_max(all, 0, all.len() as int)].0)
                    &&& final(self).current_size == length - 1
                    &&& final(self).candidates@.take(length - 1) == sorted.update(0, sorted[length - 1]).take(length - 1)
                }
            }),
    {
        // update candidate cost
        let ghost left = sifted(calculate_violation, st, cand_ids(self.candidates@), self.current_size as int, 0);
        let mut i: usize = 0;
        while i < self.current_size
            invariant
                sifted(calculate_violation, st, cand_ids(self.candidates@), self.current_size as int, i as int) == left,
                forall|j: int| 0 <= j < i ==> (#[trigger] self.candidates@[j]).1 == judged(
                    calculate_violation,
                    st,
                    self.candidates@[j].0 as int,
                ),
                self.current_edge_id == old(self).current_edge_id,
                self.wf(),
                st.wf(),
                answers(calculate_violation, st),
                i <= self.current_size,
                self.block_size == old(self).block_size,
                self.head_length == old(self).head_length,
                forall|j: int|
                    0 <= j < i ==> (#[trigger] self.candidates@[j]).0 < st.num_edges && self.candidates@[j].1 > 0
                        && call_ensures(
                        calculate_violation,
                        (&st.edges@[self.candidates@[j].0 as int], st),
                        self.candidates@[j].1,
                    ),
            decreases self.current_size - i,
        {
            let (edge_id, _) = self.candidates[i];
            let violation = if edge_id < st.num_edges {
                let violation = calculate_violation(&st.edges[edge_id], st);
                proof {
                    lemma_judged(calculate_violation, st, edge_id as int, violation);
                    lemma_judged_value(calculate_violation, st, edge_id as int, violation);
                }
                violation
            } else {
                0
            };
            let ghost listed = self.candidates@;
            proof {
                assert(cand_ids(listed)[i as int] == edge_id);
            }
            if violation <= 0 {
                // remove ineligible arc from the candidates
                self.current_size -= 1;
                self.candidates[i] = self.candidates[self.current_size];
                proof {
                    assert(cand_ids(self.candidates@) =~= cand_ids(listed).update(
                        i as int,
                        cand_ids(listed)[self.current_size as int],
                    ));
                }
            } else {
                self.candidates[i] = (edge_id, violation);
                proof {
                    assert(cand_ids(self.candidates@) =~= cand_ids(listed));
                }
                i += 1;
            }
        }

        // extend the candidate list
        let mut block_count = self.block_size;
        let mut limit = self.head_length;
        if self.current_edge_id >= st.num_edges {
            self.current_edge_id = 0;
        }
        let ghost first = self.current_edge_id as int;
        let ghost base = self.current_size as int;
        let ghost kept = cand_ids(self.candidates@).take(base);
        let mut k: usize = 0;
        let mut enough = false;
        proof {
            assert(left == (cand_ids(self.candidates@), base));
            assert(cand_ids(self.candidates@).subrange(base, base) =~= Seq::<usize>::empty());
        }
        while k < st.num_edges && !enough
            invariant
                first == resumes_at(old(self).current_edge_id, st.num_edges),
                left == sifted(
                    calculate_violation,
                    st,
                    cand_ids(old(self).candidates@),
                    old(self).current_size as int,
                    0,
                ),
                base == left.1,
                0 <= base <= self.current_size,
                kept == left.0.take(left.1),
                cand_ids(self.candidates@).take(base) == kept,
                forall|j: int| 0 <= j < self.current_size ==> (#[trigger] self.candidates@[j]).1 == judged(
                    calculate_violation,
                    st,
                    self.candidates@[j].0 as int,
                ),
                enough ==> k < st.num_edges,
                st.num_edges == 0 ==> self.current_edge_id == 0,
                self.current_edge_id == turn_to(first, k as int, st.num_edges as int) || st.num_edges == 0,
                blocks_from(
                    calculate_violation,
                    st,
                    first,
                    if enough {
                        (k + 1) as nat
                    } else {
                        k as nat
                    },
                    base,
                    self.block_size as int,
                    self.head_length as int,
                ) == (
                    cand_ids(self.candidates@).subrange(base, self.current_size as int),
                    block_count as int,
                    limit as int,
                    enough,
                    if enough {
                        (k + 1) as nat
                    } else {
                        k as nat
                    },
                ),
                self.block_size > 0,
                self.head_length > 0,
                self.head_length + self.block_size <= usize::MAX,
                self.candidates@.len() == self.head_length + self.block_size,
                self.block_size == old(self).block_size,
                self.head_length == old(self).head_length,
                st.wf(),
                answers(calculate_violation, st),
                0 <= first < st.num_edges || st.num_edges == 0,
                k <= st.num_edges,
                block_count <= self.block_size,
                enough || 0 < block_count,
                limit <= self.head_length,
                self.current_size + block_count <= self.head_length + self.block_size,
                enough ==> self.current_size > 0,
                self.current_edge_id < st.num_edges || st.num_edges == 0,
                !enough ==> self.current_edge_id == (if first + k < st.num_edges {
                    first + k
                } else {
                    first + k - st.num_edges
                }),
                forall|j: int|
                    0 <= j < self.current_size ==> (#[trigger] self.candidates@[j]).0 < st.num_edges
                        && self.candidates@[j].1 > 0 && call_ensures(
                        calculate_violation,
                        (&st.edges@[self.candidates@[j].0 as int], st),
                        self.candidates@[j].1,
                    ),
                self.current_size == 0 ==> forall|e: int|
                    0 <= e < st.num_edges && scanned(first, k as int, st.num_edges as int, e) ==> !violates(
                        calculate_violation,
                        st,
                        e,
                    ),
            decreases st.num_edges - k, !enough as int,
        {
            let edge = &st.edges[self.current_edge_id];
            let violation = calculate_violation(edge, st);
            proof {
                lemma_judged(calculate_violation, st, self.current_edge_id as int, violation);
                lemma_judged_value(calculate_violation, st, self.current_edge_id as int, violation);
            }
            let ghost listed = self.candidates@;
            let ghost size = self.current_size as int;

            // add eligible arc to the candidates
            if violation > 0 {
                self.candidates[self.current_size] = (self.current_edge_id, violation);
                self.current_size += 1;
                proof {
                    assert(cand_ids(self.candidates@).take(base) =~= cand_ids(listed).take(base));
                    assert(cand_ids(self.candidates@).subrange(base, size + 1) =~= cand_ids(listed).subrange(
                        base,
                        size,
                    ).push(self.current_edge_id));
                }
            }
            block_count -= 1;

            if block_count == 0 {
                if self.current_size > limit {
                    enough = true;
                } else {
                    limit = 0;
                    block_count = self.block_size;
                }
            }
            if !enough {
                self.current_edge_id += 1;
                if self.current_edge_id == st.num_edges {
                    self.current_edge_id = 0;
                }
                k += 1;
            }
        }

        let ghost all = self.candidates@.take(self.current_size as int);
        proof {
            let scanned = if enough {
                (k + 1) as nat
            } else {
                k as nat
            };
            lemma_blocks_stop(
                calculate_violation,
                st,
                first,
                scanned,
                st.num_edges as nat,
                base,
                self.block_size as int,
                self.head_length as int,
            );
            let more = cand_ids(self.candidates@).subrange(base, self.current_size as int);
            assert(cand_ids(self.candidates@).take(self.current_size as int) =~= kept + more);
            assert(all =~= paired(calculate_violation, st, kept + more));
        }
        if self.current_size == 0 {
            return None;
        }

        // bring the greatest violations to the front, in falling order
        let new_length = if self.current_size < self.head_length + 1 {
            self.current_size
        } else {
            self.head_length + 1
        };
        let ghost total = self.current_size as int;
        let ghost cursor = self.current_edge_id;
        let ghost more = blocks_from(
            calculate_violation,
            st,
            first,
            st.num_edges as nat,
            base,
            self.block_size as int,
            self.head_length as int,
        );
        for front in 0..new_length
            invariant
                total == self.current_size,
                all.len() == total,
                self.candidates@.take(total) == selected(all, total, front as nat),
                first == resumes_at(old(self).current_edge_id, st.num_edges),
                left == sifted(
                    calculate_violation,
                    st,
                    cand_ids(old(self).candidates@),
                    old(self).current_size as int,
                    0,
                ),
                base == left.1,
                more == blocks_from(
                    calculate_violation,
                    st,
                    first,
                    st.num_edges as nat,
                    base,
                    old(self).block_size as int,
                    old(self).head_length as int,
                ),
                all == paired(calculate_violation, st, left.0.take(left.1) + more.0),
                self.current_edge_id == cursor,
                cursor == (if st.num_edges == 0 {
                    0
                } else if more.3 {
                    turn_to(first, more.4 - 1, st.num_edges as int)
                } else {
                    first
                }),
                self.block_size > 0,
                self.head_length > 0,
                self.head_length + self.block_size <= usize::MAX,
                self.candidates@.len() == self.head_length + self.block_size,
                0 < self.current_size <= self.candidates@.len(),
                new_length <= self.current_size,
                new_length <= self.head_length + 1,
                self.block_size == old(self).block_size,
                self.head_length == old(self).head_length,
                st.wf(),
                front >= 1 ==> forall|j: int|
                    0 <= j < self.current_size ==> (#[trigger] self.candidates@[j]).1 <= self.candidates@[0].1,
                forall|j: int|
                    0 <= j < self.current_size ==> (#[trigger] self.candidates@[j]).0 < st.num_edges
                        && self.candidates@[j].1 > 0 && call_ensures(
                        calculate_violation,
                        (&st.edges@[self.candidates@[j].0 as int], st),
                        self.candidates@[j].1,
                    ),
        {
            let mut best = front;
            let size = self.current_size;
            for j in (front + 1)..size
                invariant
                    front <= best < self.current_size,
                    size == self.current_size,
                    self.current_size <= self.candidates@.len(),
                    best == first_max(self.candidates@.take(size as int), front as int, j as int),
                    forall|x: int| front <= x < j ==> (#[trigger] self.candidates@[x]).1 <= self.candidates@[best as int].1,
            {
                if self.candidates[j].1 > self.candidates[best].1 {
                    best = j;
                }
            }
            let ghost listed = self.candidates@;
            let ahead = self.candidates[front];
            self.candidates[front] = self.candidates[best];
            self.candidates[best] = ahead;
            proof {
                assert(self.candidates@.take(total) =~= swapped(listed.take(total), front as int, best as int));
            }
            proof {
                assert forall|j: int| 0 <= j < self.current_size implies (#[trigger] self.candidates@[j]).1
                    <= self.candidates@[0].1 by {
                    let from = if j == front {
                        best as int
                    } else if j == best {
                        front as int
                    } else {
                        j
                    };
                    assert(self.candidates@[j] == listed[from]);
                }
            }
        }

        let ghost sorted = self.candidates@;
        let entering_edge_id = Some(self.candidates[0].0);
        self.candidates[0] = self.candidates[new_length - 1];
        self.current_size = new_length - 1;
        proof {
            let ranked = selected(all, total, new_length as nat);
            assert(sorted.take(total) == ranked);
            lemma_selected_head(all, total, new_length as nat);
            assert(self.candidates@.take(new_length - 1) =~= ranked.update(0, ranked[new_length - 1]).take(
                new_length - 1,
            ));
        }
        proof {
            assert forall|j: int| 0 <= j < self.current_size implies (#[trigger] self.candidates@[j]).0 < st.num_edges
                && 0 < self.candidates@[j].1 <= sorted[0].1 && call_ensures(
                calculate_violation,
                (&st.edges@[self.candidates@[j].0 as int], st),
                self.candidates@[j].1,
            ) by {
                let from = if j == 0 {
                    new_length - 1
                } else {
                    j
                };
                assert(self.candidates@[j] == sorted[from]);
            }
            assert(call_ensures(calculate_violation, (&st.edges@[sorted[0].0 as int], st), sorted[0].1));
        }

        entering_edge_id
    }
}

} // verus!
