use vstd::prelude::*;

verus! {

/// Weight of rank 0, the fixed-point unit of every weight.
pub const WEIGHT_ONE: u64 = 1_000_000_000;

/// Each rank weighs `DECAY_NUM / DECAY_DEN` of the rank above it.
pub const DECAY_NUM: u64 = 95;

pub const DECAY_DEN: u64 = 100;

/// Largest value of one score times one weight.
pub open spec fn max_term() -> int {
    u32::MAX as int * WEIGHT_ONE as int
}

/// Weight of a zero-based rank: `WEIGHT_ONE * (95/100)^rank`, rounded up at each
/// step, so that every rank keeps a positive weight.
pub open spec fn weight(rank: nat) -> int
    decreases rank,
{
    if rank == 0 {
        WEIGHT_ONE as int
    } else {
        (weight((rank - 1) as nat) * DECAY_NUM as int + DECAY_DEN as int - 1) / DECAY_DEN as int
    }
}

/// Sum of `s[k] * weight(start + k)`: the scores of `s` placed from rank `start` down.
pub open spec fn weighted_sum(s: Seq<u32>, start: nat) -> int
    decreases s.len(),
{
    if s.len() == 0 {
        0
    } else {
        weighted_sum(s.drop_last(), start) + s.last() as int * weight((start + s.len() - 1) as nat)
    }
}

/// Decay-weighted total of a score list, ranked from 0.
pub open spec fn weighted_total(s: Seq<u32>) -> int {
    weighted_sum(s, 0)
}

/// Weights lie between 1 and `WEIGHT_ONE` and never grow with the rank.
pub proof fn lemma_weight_bounds(rank: nat)
    ensures
        0 < weight(rank + 1) <= weight(rank) <= WEIGHT_ONE,
    decreases rank,
{
    if rank > 0 {
        lemma_weight_bounds((rank - 1) as nat);
    }
    let w = weight(rank);
    assert(0 < (w * 95 + 99) / 100 <= w) by (nonlinear_arith)
        requires
            0 < w,
    ;
}

/// Weights never grow from a higher rank to a lower one.
pub proof fn lemma_weight_antitone(a: nat, b: nat)
    requires
        a <= b,
    ensures
        0 < weight(b) <= weight(a) <= WEIGHT_ONE,
    decreases b - a,
{
    lemma_weight_bounds(b);
    if a < b {
        lemma_weight_antitone(a, (b - 1) as nat);
        lemma_weight_bounds((b - 1) as nat);
    }
}

/// A weighted sum is non-negative and at most one full term per score.
pub proof fn lemma_weighted_sum_bounds(s: Seq<u32>, start: nat)
    ensures
        0 <= weighted_sum(s, start) <= s.len() * max_term(),
    decreases s.len(),
{
    if s.len() > 0 {
        lemma_weighted_sum_bounds(s.drop_last(), start);
        let k = (start + s.len() - 1) as nat;
        lemma_weight_antitone(0, k);
        let x = s.last() as int;
        let w = weight(k);
        assert(0 <= x * w <= u32::MAX as int * WEIGHT_ONE as int) by (nonlinear_arith)
            requires
                0 <= x <= u32::MAX as int,
                0 <= w <= WEIGHT_ONE as int,
        ;
        assert((s.len() - 1) * max_term() + max_term() == s.len() * max_term()) by (nonlinear_arith);
    }
}

/// The weighted sum of a concatenation: `b` continues at the rank where `a` stops.
pub proof fn lemma_weighted_sum_concat(a: Seq<u32>, b: Seq<u32>, start: nat)
    ensures
        weighted_sum(a + b, start) == weighted_sum(a, start) + weighted_sum(b, start + a.len()),
    decreases b.len(),
{
    if b.len() == 0 {
        assert(a + b =~= a);
    } else {
        lemma_weighted_sum_concat(a, b.drop_last(), start);
        assert((a + b).drop_last() =~= a + b.drop_last());
    }
}

/// One score placed at rank `start`.
pub proof fn lemma_weighted_sum_single(x: u32, start: nat)
    ensures
        weighted_sum(seq![x], start) == x as int * weight(start),
{
    assert(seq![x].drop_last() =~= Seq::<u32>::empty());
    assert(weighted_sum(seq![x].drop_last(), start) == 0);
}

/// Raising one score by one unit raises the weighted sum by that rank's weight.
pub proof fn lemma_weighted_sum_bump(a: Seq<u32>, p: int, start: nat)
    requires
        0 <= p < a.len(),
        a[p] < u32::MAX,
    ensures
        weighted_sum(a.update(p, (a[p] + 1) as u32), start) == weighted_sum(a, start) + weight(
            (start + p) as nat,
        ),
    decreases a.len(),
{
    let b = a.update(p, (a[p] + 1) as u32);
    if p < a.len() - 1 {
        lemma_weighted_sum_bump(a.drop_last(), p, start);
        assert(b.drop_last() =~= a.drop_last().update(p, (a[p] + 1) as u32));
        assert(b.last() == a.last());
    } else {
        assert(b.drop_last() =~= a.drop_last());
        let v = a[p] as int;
        let w = weight((start + p) as nat);
        assert((v + 1) * w == v * w + w) by (nonlinear_arith);
    }
}

/// Pointwise larger scores give a larger weighted sum.
pub proof fn lemma_weighted_sum_pointwise(a: Seq<u32>, b: Seq<u32>, start: nat)
    requires
        a.len() == b.len(),
        forall|k: int| 0 <= k < a.len() ==> a[k] <= b[k],
    ensures
        weighted_sum(a, start) <= weighted_sum(b, start),
    decreases a.len(),
{
    if a.len() > 0 {
        lemma_weighted_sum_pointwise(a.drop_last(), b.drop_last(), start);
        let k = (start + a.len() - 1) as nat;
        lemma_weight_antitone(0, k);
        let w = weight(k);
        let x = a.last() as int;
        let y = b.last() as int;
        assert(x * w <= y * w) by (nonlinear_arith)
            requires
                x <= y,
                0 <= w,
        ;
    }
}

/// Weights of ranks `0..=n`, in order.
pub fn rank_weights(n: usize) -> (r: Vec<u64>)
    ensures
        r@.len() == n + 1,
        forall|k: int| 0 <= k <= n ==> r@[k] as int == weight(k as nat),
{
    let mut r: Vec<u64> = Vec::new();
    let mut w: u64 = WEIGHT_ONE;
    let mut k: usize = 0;
    r.push(w);
    while k < n
        invariant
            k <= n,
            r@.len() == k + 1,
            w as int == weight(k as nat),
            forall|j: int| 0 <= j <= k ==> r@[j] as int == weight(j as nat),
        decreases n - k,
    {
        proof {
            lemma_weight_bounds(k as nat);
        }
        w = (w * DECAY_NUM + DECAY_DEN - 1) / DECAY_DEN;
        k = k + 1;
        r.push(w);
    }
    r
}

/// Decay-weighted total of the first `n` scores.
pub fn weighted_prefix(scores: &Vec<u32>, n: usize) -> (r: u128)
    requires
        n <= scores@.len(),
    ensures
        r as int == weighted_sum(scores@.take(n as int), 0),
{
    let mut total: u128 = 0;
    let mut w: u64 = WEIGHT_ONE;
    let mut k: usize = 0;
    while k < n
        invariant
            k <= n <= scores@.len(),
            w as int == weight(k as nat),
            total as int == weighted_sum(scores@.take(k as int), 0),
        decreases n - k,
    {
        proof {
            lemma_weight_bounds(k as nat);
            lemma_weighted_sum_bounds(scores@.take(k as int + 1), 0);
            assert(scores@.take(k as int + 1).drop_last() =~= scores@.take(k as int));
            assert(k + 1 <= usize::MAX);
            assert((k + 1) * max_term() <= u128::MAX) by (nonlinear_arith)
                requires
                    k + 1 <= usize::MAX,
                    usize::MAX <= u64::MAX,
            ;
        }
        total = total + scores[k] as u128 * w as u128;
        w = (w * DECAY_NUM + DECAY_DEN - 1) / DECAY_DEN;
        k = k + 1;
    }
    total
}

/// Decay-weighted total of a score list: `sum of scores[k] * weight(k)`; 0 when empty.
pub fn weighted_total_of(scores: &Vec<u32>) -> (r: u128)
    ensures
        r as int == weighted_total(scores@),
{
    assert(scores@.take(scores@.len() as int) =~= scores@);
    weighted_prefix(scores, scores.len())
}

} // verus!
