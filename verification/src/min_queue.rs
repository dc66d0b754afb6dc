use vstd::prelude::*;

verus! {

/// `a` leaves the queue no later than `b`: it has the smaller key, or the
/// same key and a node that is not smaller.
pub open spec fn comes_first(a: (i64, usize), b: (i64, usize)) -> bool {
    a.0 < b.0 || (a.0 == b.0 && a.1 >= b.1)
}

/// Some entry for node `x` waits in `queue`.
pub open spec fn waits(queue: Seq<(i64, usize)>, x: usize) -> bool {
    exists|i: int| 0 <= i < queue.len() && (#[trigger] queue[i]).1 == x
}

/// Taking out an entry for another node keeps `x` waiting.
pub proof fn lemma_waits_after_remove(queue: Seq<(i64, usize)>, i: int, x: usize)
    requires
        0 <= i < queue.len(),
        waits(queue, x),
        queue[i].1 != x,
    ensures
        waits(queue.remove(i), x),
{
    let j = choose|j: int| 0 <= j < queue.len() && (#[trigger] queue[j]).1 == x;
    if j < i {
        assert(queue.remove(i)[j] == queue[j]);
    } else {
        assert(queue.remove(i)[j - 1] == queue[j]);
    }
}

/// A node still waits after another entry was added, and the node of the
/// new entry waits too.
pub proof fn lemma_waits_after_push(queue: Seq<(i64, usize)>, item: (i64, usize), x: usize)
    requires
        waits(queue, x) || item.1 == x,
    ensures
        waits(queue.push(item), x),
{
    if item.1 == x {
        assert(queue.push(item)[queue.len() as int] == item);
    } else {
        let j = choose|j: int| 0 <= j < queue.len() && (#[trigger] queue[j]).1 == x;
        assert(queue.push(item)[j] == queue[j]);
    }
}

/// Priority queue of nodes with keys: the entry with the least key leaves
/// first, and among entries with the same key the one with the greatest node.
pub struct MinQueue {
    pub items: Vec<(i64, usize)>,
}

impl MinQueue {
    /// The entries that wait in the queue.
    pub open spec fn view(&self) -> Seq<(i64, usize)> {
        self.items@
    }

    /// An empty queue.
    pub fn new() -> (queue: Self)
        ensures
            queue@ == Seq::<(i64, usize)>::empty(),
    {
        MinQueue { items: Vec::new() }
    }

    /// Number of entries that wait.
    pub fn len(&self) -> (n: usize)
        ensures
            n == self@.len(),
    {
        self.items.len()
    }

    /// Adds the entry `(key, node)`.
    pub fn push(&mut self, key: i64, node: usize)
        ensures
            final(self)@ == old(self)@.push((key, node)),
    {
        self.items.push((key, node));
    }

    /// Takes out the entry that comes first, if any entry waits.
    pub fn pop(&mut self) -> (entry: Option<(i64, usize)>)
        ensures
            match entry {
                Some(item) => exists|i: int|
                    0 <= i < old(self)@.len() && #[trigger] old(self)@[i] == item && final(self)@ == old(self)@.remove(i),
                None => old(self)@.len() == 0 && final(self)@ == old(self)@,
            },
            entry matches Some(item) ==> forall|j: int|
                0 <= j < old(self)@.len() ==> comes_first(item, #[trigger] old(self)@[j]),
    {
        if self.items.len() == 0 {
            return None;
        }
        let mut best: usize = 0;
        for j in 1..self.items.len()
            invariant
                best < self.items@.len(),
                forall|k: int| 0 <= k < j ==> comes_first(self.items@[best as int], #[trigger] self.items@[k]),
        {
            let candidate = self.items[j];
            let leader = self.items[best];
            if candidate.0 < leader.0 || (candidate.0 == leader.0 && candidate.1 >= leader.1) {
                best = j;
            }
        }
        let item = self.items.remove(best);
        proof {
            assert(old(self)@[best as int] == item);
        }
        Some(item)
    }
}

} // verus!
