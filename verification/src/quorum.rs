//! The highest index that a quorum of members holds.

use vstd::prelude::*;

verus! {

/// How many of `values` are `n` or more.
pub open spec fn count_at_least(values: Seq<u64>, n: u64) -> nat
    decreases values.len(),
{
    if values.len() == 0 {
        0
    } else {
        count_at_least(values.drop_last(), n) + if values.last() >= n {
            1nat
        } else {
            0nat
        }
    }
}

/// `n` is the highest index that at least `quorum` of `values` reach.
pub open spec fn is_quorum_index(values: Seq<u64>, quorum: nat, n: u64) -> bool {
    &&& count_at_least(values, n) >= quorum
    &&& forall|m: u64| m > n ==> count_at_least(values, m) < quorum
}

/// The highest index that at least `quorum` of `values` reach.
pub open spec fn spec_quorum_index(values: Seq<u64>, quorum: nat) -> u64 {
    choose|n: u64| is_quorum_index(values, quorum, n)
}

/// Every value reaches 0, and no more values reach an index than there are.
pub proof fn lemma_count_bounds(values: Seq<u64>, n: u64)
    ensures
        count_at_least(values, n) <= values.len(),
        count_at_least(values, 0) == values.len(),
    decreases values.len(),
{
    if values.len() > 0 {
        lemma_count_bounds(values.drop_last(), n);
    }
}

/// Fewer values reach a higher index.
pub proof fn lemma_count_monotone(values: Seq<u64>, low: u64, high: u64)
    requires
        low <= high,
    ensures
        count_at_least(values, high) <= count_at_least(values, low),
    decreases values.len(),
{
    if values.len() > 0 {
        lemma_count_monotone(values.drop_last(), low, high);
    }
}

/// Where no value lies between `low` and `high`, as many reach the one as
/// the other.
proof fn lemma_count_gap(values: Seq<u64>, low: u64, high: u64)
    requires
        low <= high,
        forall|k: int| 0 <= k < values.len() && values[k] >= low ==> values[k] >= high,
    ensures
        count_at_least(values, high) == count_at_least(values, low),
    decreases values.len(),
{
    if values.len() > 0 {
        let rest = values.drop_last();
        assert forall|k: int| 0 <= k < rest.len() && rest[k] >= low implies rest[k] >= high by {
            assert(rest[k] == values[k]);
        }
        lemma_count_gap(rest, low, high);
        assert(values.last() == values[values.len() - 1]);
    }
}

/// Where some value reaches `low`, the position of the least one that does.
proof fn lemma_least_reaching(values: Seq<u64>, low: u64) -> (at: int)
    requires
        count_at_least(values, low) >= 1,
    ensures
        0 <= at < values.len(),
        values[at] >= low,
        forall|k: int| 0 <= k < values.len() && values[k] >= low ==> values[k] >= values[at],
    decreases values.len(),
{
    let rest = values.drop_last();
    let last = values.len() - 1;
    if count_at_least(rest, low) >= 1 {
        let inner = lemma_least_reaching(rest, low);
        assert(rest[inner] == values[inner]);
        let pick = if values[last] >= low && values[last] < values[inner] { last } else { inner };
        assert forall|k: int| 0 <= k < values.len() && values[k] >= low implies values[k]
            >= values[pick] by {
            if k < last {
                assert(rest[k] == values[k]);
            }
        }
        pick
    } else {
        assert forall|k: int| 0 <= k < values.len() && values[k] >= low implies values[k]
            >= values[last] by {
            if k < last {
                assert(rest[k] == values[k]);
                lemma_count_witness(rest, low, k);
            }
        }
        last
    }
}

/// A value that reaches `low` is counted.
proof fn lemma_count_witness(values: Seq<u64>, low: u64, at: int)
    requires
        0 <= at < values.len(),
        values[at] >= low,
    ensures
        count_at_least(values, low) >= 1,
    decreases values.len(),
{
    if at < values.len() - 1 {
        assert(values.drop_last()[at] == values[at]);
        lemma_count_witness(values.drop_last(), low, at);
    }
}

/// There is one quorum index and no other.
pub proof fn lemma_quorum_index_unique(values: Seq<u64>, quorum: nat, a: u64, b: u64)
    requires
        is_quorum_index(values, quorum, a),
        is_quorum_index(values, quorum, b),
    ensures
        a == b,
{
}

/// How many of `values` are `n` or more.
pub fn count_reaching(values: &Vec<u64>, n: u64) -> (count: usize)
    ensures
        count == count_at_least(values@, n),
{
    let mut count: usize = 0;
    let mut i: usize = 0;
    assert(values@.take(0) =~= Seq::<u64>::empty());
    while i < values.len()
        invariant
            i <= values@.len(),
            count <= i,
            count == count_at_least(values@.take(i as int), n),
        decreases values@.len() - i,
    {
        assert(values@.take(i + 1).drop_last() =~= values@.take(i as int));
        if values[i] >= n {
            count += 1;
        }
        i += 1;
    }
    assert(values@.take(i as int) =~= values@);
    count
}

/// The highest index that at least `quorum` of `values` reach.
pub fn quorum_index(values: &Vec<u64>, quorum: usize) -> (best: u64)
    requires
        1 <= quorum <= values@.len(),
    ensures
        is_quorum_index(values@, quorum as nat, best),
        best == spec_quorum_index(values@, quorum as nat),
{
    let mut best: u64 = 0;
    let mut i: usize = 0;
    proof {
        lemma_count_bounds(values@, 0);
    }
    while i < values.len()
        invariant
            i <= values@.len(),
            1 <= quorum <= values@.len(),
            count_at_least(values@, best) >= quorum,
            forall|j: int|
                0 <= j < i && count_at_least(values@, #[trigger] values@[j]) >= quorum
                    ==> values@[j] <= best,
        decreases values@.len() - i,
    {
        let v = values[i];
        if v > best && count_reaching(values, v) >= quorum {
            best = v;
        }
        i += 1;
    }
    proof {
        assert forall|m: u64| m > best implies count_at_least(values@, m) < quorum by {
            if count_at_least(values@, m) >= quorum {
                let at = lemma_least_reaching(values@, m);
                lemma_count_gap(values@, m, values@[at]);
            }
        }
        let chosen = spec_quorum_index(values@, quorum as nat);
        lemma_quorum_index_unique(values@, quorum as nat, best, chosen);
    }
    best
}

} // verus!
