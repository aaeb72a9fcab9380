//! Partition of the position space into contiguous ranges, one per worker.
use vstd::arithmetic::div_mod::lemma_fundamental_div_mod;
use vstd::prelude::*;

verus! {

/// First position of worker `t` when `total` positions are shared among
/// `count` workers: each gets `total / count` positions, and the first
/// `total % count` workers one more.
pub open spec fn range_start(total: nat, count: nat, t: nat) -> nat
    recommends
        count > 0,
{
    t * (total / count) + if t < total % count {
        t
    } else {
        total % count
    }
}

proof fn lemma_range_step(total: nat, count: nat, t: nat)
    requires
        count > 0,
    ensures
        range_start(total, count, t + 1) == range_start(total, count, t) + total / count + (if t
            < total % count {
            1int
        } else {
            0int
        }),
{
    let b = total / count;
    assert((t + 1) * b == t * b + b) by (nonlinear_arith);
}

proof fn lemma_range_monotone(total: nat, count: nat, earlier: nat, later: nat)
    requires
        count > 0,
        earlier <= later,
    ensures
        range_start(total, count, earlier) <= range_start(total, count, later),
    decreases later - earlier,
{
    if earlier < later {
        lemma_range_monotone(total, count, earlier, (later - 1) as nat);
        lemma_range_step(total, count, (later - 1) as nat);
    }
}

proof fn lemma_range_ends(total: nat, count: nat)
    requires
        count > 0,
    ensures
        range_start(total, count, 0) == 0,
        range_start(total, count, count) == total,
{
    lemma_fundamental_div_mod(total as int, count as int);
    assert(count * (total / count) == (total / count) * count) by (nonlinear_arith);
}

proof fn lemma_cover_from(total: nat, count: nat, p: nat, t: nat)
    requires
        count > 0,
        t < count,
        range_start(total, count, t) <= p < total,
    ensures
        exists|w: nat|
            t <= w < count && #[trigger] range_start(total, count, w) <= p < range_start(
                total,
                count,
                w + 1,
            ),
    decreases count - t,
{
    lemma_range_ends(total, count);
    if p < range_start(total, count, t + 1) {
        assert(t <= t < count && range_start(total, count, t) <= p < range_start(total, count, t + 1));
    } else {
        lemma_cover_from(total, count, p, t + 1);
    }
}

/// The ranges of `count` workers start at 0, end at `total`, never end
/// before they start, and follow one another in worker order, so that no two
/// of them share a position.
pub proof fn lemma_partition_exact(total: nat, count: nat)
    requires
        count > 0,
    ensures
        range_start(total, count, 0) == 0,
        range_start(total, count, count) == total,
        forall|t: nat|
            #![trigger range_start(total, count, t)]
            range_start(total, count, t) <= range_start(total, count, t + 1),
        forall|earlier: nat, later: nat|
            #![trigger range_start(total, count, earlier + 1), range_start(total, count, later)]
            earlier < later ==> range_start(total, count, earlier + 1) <= range_start(total, count, later),
{
    lemma_range_ends(total, count);
    assert forall|t: nat| #![trigger range_start(total, count, t)]
        range_start(total, count, t) <= range_start(total, count, t + 1) by {
        lemma_range_step(total, count, t);
    }
    assert forall|earlier: nat, later: nat|
        #![trigger range_start(total, count, earlier + 1), range_start(total, count, later)]
        earlier < later implies range_start(total, count, earlier + 1) <= range_start(total, count, later) by {
        lemma_range_monotone(total, count, earlier + 1, later);
    }
}

/// Every position below `total` lies in the range of one of the `count`
/// workers.
pub proof fn lemma_position_covered(total: nat, count: nat, p: nat)
    requires
        count > 0,
        p < total,
    ensures
        exists|t: nat|
            t < count && #[trigger] range_start(total, count, t) <= p < range_start(
                total,
                count,
                t + 1,
            ),
{
    lemma_range_ends(total, count);
    lemma_cover_from(total, count, p, 0);
}

/// The positions `start..end` of worker `t` out of `count`.
pub fn worker_range(total: usize, count: usize, t: usize) -> (r: (usize, usize))
    requires
        count > 0,
        t < count,
    ensures
        r.0 == range_start(total as nat, count as nat, t as nat),
        r.1 == range_start(total as nat, count as nat, t as nat + 1),
        r.0 <= r.1 <= total,
{
    proof {
        lemma_range_ends(total as nat, count as nat);
        lemma_range_monotone(total as nat, count as nat, t as nat + 1, count as nat);
        lemma_range_step(total as nat, count as nat, t as nat);
        lemma_range_monotone(total as nat, count as nat, t as nat, t as nat + 1);
    }
    let base: usize = total / count;
    let rem: usize = total % count;
    let start_extra: usize = if t < rem { t } else { rem };
    let end_extra: usize = if t + 1 < rem { t + 1 } else { rem };
    assert(t * base <= range_start(total as nat, count as nat, t as nat));
    assert((t + 1) * base <= range_start(total as nat, count as nat, t as nat + 1));
    let start: usize = t * base + start_extra;
    let end: usize = (t + 1) * base + end_extra;
    (start, end)
}

} // verus!
