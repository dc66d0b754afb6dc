use vstd::prelude::*;

verus! {

/// How often `x` occurs in `s`.
pub open spec fn occurrences<T>(s: Seq<T>, x: T) -> nat
    decreases s.len(),
{
    if s.len() == 0 {
        0
    } else {
        occurrences(s.drop_last(), x) + (if s.last() == x { 1nat } else { 0nat })
    }
}

/// An element cannot occur more often than the sequence is long.
pub proof fn lemma_occurrences_bounded<T>(s: Seq<T>, x: T)
    ensures
        occurrences(s, x) <= s.len(),
    decreases s.len(),
{
    if s.len() > 0 {
        lemma_occurrences_bounded(s.drop_last(), x);
    }
}

/// Overwriting one occurrence of `x` by something else leaves one occurrence less.
pub proof fn lemma_occurrences_overwrite<T>(s: Seq<T>, i: int, x: T, y: T)
    requires
        0 <= i < s.len(),
        s[i] == x,
        y != x,
    ensures
        occurrences(s.update(i, y), x) + 1 == occurrences(s, x),
    decreases s.len(),
{
    if i == s.len() - 1 {
        assert(s.update(i, y).drop_last() =~= s.drop_last());
    } else {
        assert(s.update(i, y).drop_last() =~= s.drop_last().update(i, y));
        lemma_occurrences_overwrite(s.drop_last(), i, x, y);
    }
}

/// Overwriting one element changes the count of `x` by what goes and what comes.
pub proof fn lemma_occurrences_update<T>(s: Seq<T>, i: int, y: T, x: T)
    requires
        0 <= i < s.len(),
    ensures
        occurrences(s.update(i, y), x) == occurrences(s, x) - (if s[i] == x { 1int } else { 0 }) + (if y == x {
            1int
        } else {
            0
        }),
    decreases s.len(),
{
    if i == s.len() - 1 {
        assert(s.update(i, y).drop_last() =~= s.drop_last());
    } else {
        assert(s.update(i, y).drop_last() =~= s.drop_last().update(i, y));
        lemma_occurrences_update(s.drop_last(), i, y, x);
    }
}

/// A sequence that holds `x` everywhere has as many occurrences as elements.
pub proof fn lemma_occurrences_all<T>(s: Seq<T>, x: T)
    requires
        forall|i: int| 0 <= i < s.len() ==> s[i] == x,
    ensures
        occurrences(s, x) == s.len(),
    decreases s.len(),
{
    if s.len() > 0 {
        lemma_occurrences_all(s.drop_last(), x);
    }
}

/// A sequence that holds `x` as often as it is long holds it everywhere.
pub proof fn lemma_occurrences_full<T>(s: Seq<T>, x: T)
    requires
        occurrences(s, x) == s.len(),
    ensures
        forall|i: int| 0 <= i < s.len() ==> #[trigger] s[i] == x,
    decreases s.len(),
{
    if s.len() > 0 {
        lemma_occurrences_bounded(s.drop_last(), x);
        lemma_occurrences_full(s.drop_last(), x);
        assert forall|i: int| 0 <= i < s.len() implies #[trigger] s[i] == x by {
            if i < s.len() - 1 {
                assert(s.drop_last()[i] == x);
            }
        }
    }
}

/// Turning one flag on leaves one more flag on.
pub proof fn lemma_occurrences_flip(s: Seq<bool>, i: int)
    requires
        0 <= i < s.len(),
        !s[i],
    ensures
        occurrences(s.update(i, true), true) == occurrences(s, true) + 1,
{
    lemma_occurrences_update(s, i, true, true);
}

/// A sequence that holds `x` nowhere has no occurrence of it.
pub proof fn lemma_occurrences_none<T>(s: Seq<T>, x: T)
    requires
        forall|i: int| 0 <= i < s.len() ==> s[i] != x,
    ensures
        occurrences(s, x) == 0,
    decreases s.len(),
{
    if s.len() > 0 {
        lemma_occurrences_none(s.drop_last(), x);
    }
}

/// Where `x` occurs it occurs at least once.
pub proof fn lemma_occurrences_positive<T>(s: Seq<T>, i: int, x: T)
    requires
        0 <= i < s.len(),
        s[i] == x,
    ensures
        occurrences(s, x) >= 1,
    decreases s.len(),
{
    if i < s.len() - 1 {
        lemma_occurrences_positive(s.drop_last(), i, x);
    }
}

/// Turning entries of a flag sequence on, one of them at `i` for certain,
/// leaves fewer entries off.
pub proof fn lemma_fewer_unset(before: Seq<bool>, after: Seq<bool>, i: int)
    requires
        before.len() == after.len(),
        forall|j: int| 0 <= j < before.len() && before[j] ==> after[j],
        0 <= i < before.len(),
        !before[i],
        after[i],
    ensures
        occurrences(after, false) < occurrences(before, false),
    decreases before.len(),
{
    if i == before.len() - 1 {
        lemma_no_more_unset(before.drop_last(), after.drop_last());
    } else {
        lemma_fewer_unset(before.drop_last(), after.drop_last(), i);
    }
}

/// Turning entries of a flag sequence on leaves no more entries off.
pub proof fn lemma_no_more_unset(before: Seq<bool>, after: Seq<bool>)
    requires
        before.len() == after.len(),
        forall|j: int| 0 <= j < before.len() && before[j] ==> after[j],
    ensures
        occurrences(after, false) <= occurrences(before, false),
    decreases before.len(),
{
    if before.len() > 0 {
        lemma_no_more_unset(before.drop_last(), after.drop_last());
    }
}

/// Dropping the first element of a sequence keeps every element but that one.
pub proof fn lemma_contains_after_pop_front<T>(s: Seq<T>, x: T)
    requires
        s.len() > 0,
        s.contains(x),
        s[0] != x,
    ensures
        s.subrange(1, s.len() as int).contains(x),
{
    let i = choose|i: int| 0 <= i < s.len() && s[i] == x;
    assert(s.subrange(1, s.len() as int)[i - 1] == x);
}

/// Taking out one element keeps every element that differs from it.
pub proof fn lemma_contains_after_remove<T>(s: Seq<T>, i: int, x: T)
    requires
        0 <= i < s.len(),
        s.contains(x),
        s[i] != x,
    ensures
        s.remove(i).contains(x),
{
    let j = choose|j: int| 0 <= j < s.len() && s[j] == x;
    if j < i {
        assert(s.remove(i)[j] == x);
    } else {
        assert(s.remove(i)[j - 1] == x);
    }
}

/// Appending an element keeps every element and adds the new one.
pub proof fn lemma_contains_after_push<T>(s: Seq<T>, y: T, x: T)
    requires
        s.contains(x) || x == y,
    ensures
        s.push(y).contains(x),
{
    if x == y {
        assert(s.push(y)[s.len() as int] == x);
    } else {
        let i = choose|i: int| 0 <= i < s.len() && s[i] == x;
        assert(s.push(y)[i] == x);
    }
}

} // verus!
