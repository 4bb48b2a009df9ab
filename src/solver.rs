use vstd::prelude::*;
use vstd::arithmetic::div_mod::lemma_fundamental_div_mod;
use crate::weights::{
    WEIGHT_ONE,
    lemma_weight_antitone, lemma_weighted_sum_bounds, lemma_weighted_sum_concat,
    lemma_weighted_sum_single, max_term, rank_weights, weight, weighted_prefix, weighted_sum,
    weighted_total, weighted_total_of,
};
use crate::roster::{
    floor_score, gain, insert_rank, lemma_below_minimum_no_gain, lemma_gain_monotone,
    lemma_gain_nonneg, lemma_gain_step, lemma_gain_strict, lemma_insert_rank_at, lemma_zero_gain,
    roster_after, valid_roster, Roster,
};

verus! {

/// Number of scores that stay in place when a new one joins: all of them below
/// the cap, all but the lowest at the cap.
pub open spec fn kept_len(s: Seq<u32>, cap: nat) -> nat {
    if s.len() < cap {
        s.len()
    } else {
        (s.len() - 1) as nat
    }
}

/// A score `x` that enters at rank `i` (its neighbours there are `s[i - 1]` above
/// and `s[i]` below) raises the total to: the scores above at their old ranks,
/// `x` at rank `i`, and the kept scores below one rank lower than before.
pub proof fn lemma_gain_at_rank(s: Seq<u32>, cap: nat, i: nat, x: u32)
    requires
        valid_roster(s, cap),
        i <= kept_len(s, cap),
        i == 0 || s[i - 1] >= x,
        i == s.len() || s[i as int] < x,
    ensures
        gain(s, cap, x) == weighted_sum(s.take(i as int), 0) + x as int * weight(i)
            + weighted_sum(s.subrange(i as int, kept_len(s, cap) as int), i + 1)
            - weighted_total(s),
{
    let m = kept_len(s, cap) as int;
    lemma_insert_rank_at(s, x, i);
    let above = s.take(i as int);
    let below = s.subrange(i as int, m);
    assert(roster_after(s, cap, x) =~= above + seq![x] + below);
    lemma_weighted_sum_concat(above + seq![x], below, 0);
    lemma_weighted_sum_concat(above, seq![x], 0);
    lemma_weighted_sum_single(x, i);
}

/// Rounding a quotient up: `y * w` reaches `need` exactly when `y` reaches the
/// rounded-up quotient.
proof fn lemma_ceil_div(need: int, w: int, q: int, y: int)
    requires
        need > 0,
        w > 0,
        q == need / w + (if need % w == 0 { 0int } else { 1int }),
    ensures
        y * w >= need <==> y >= q,
{
    lemma_fundamental_div_mod(need, w);
    let d = need / w;
    let r = need % w;
    assert(0 <= r < w);
    if y >= q {
        assert(y * w >= q * w) by (nonlinear_arith)
            requires
                y >= q,
                w > 0,
        ;
        assert(q * w >= need) by (nonlinear_arith)
            requires
                need == w * d + r,
                q == d + (if r == 0 { 0int } else { 1int }),
                0 <= r < w,
        ;
    } else {
        assert(y * w <= (q - 1) * w) by (nonlinear_arith)
            requires
                y <= q - 1,
                w > 0,
        ;
        assert((q - 1) * w < need) by (nonlinear_arith)
            requires
                need == w * d + r,
                q == d + (if r == 0 { 0int } else { 1int }),
                0 <= r < w,
        ;
    }
}

/// Whether a score `y` at weight `w` on top of `base` reaches `goal`.
pub open spec fn reaches(base: int, w: int, goal: int, y: int) -> bool {
    base + y * w >= goal
}

/// Least `y` from `lo` up with `base + y * w >= goal`, or `None` when no `y` reaches it.
fn least_reaching(base: u128, w: u128, goal: u128, lo: u128) -> (r: Option<u128>)
    ensures
        match r {
            Some(c) => c >= lo && forall|y: int|
                y >= lo ==> (#[trigger] reaches(base as int, w as int, goal as int, y) <==> y >= c),
            None => forall|y: int| y >= 0 ==> !#[trigger] reaches(base as int, w as int, goal as int, y),
        },
{
    if goal <= base {
        assert forall|y: int| y >= lo implies (#[trigger] reaches(base as int, w as int, goal as int, y)
            <==> y >= lo) by {
            assert(y * w >= 0) by (nonlinear_arith)
                requires
                    y >= 0,
                    w >= 0,
            ;
        }
        return Some(lo);
    }
    if w == 0 {
        assert forall|y: int| y >= 0 implies !#[trigger] reaches(base as int, w as int, goal as int, y) by {
            assert(y * w == 0) by (nonlinear_arith)
                requires
                    w == 0,
            ;
        }
        return None;
    }
    let need = goal - base;
    let q = if need % w == 0 {
        need / w
    } else {
        proof {
            lemma_fundamental_div_mod(need as int, w as int);
            assert(need / w < need) by (nonlinear_arith)
                requires
                    need as int == w as int * (need as int / w as int) + need as int % w as int,
                    w >= 2,
                    need > 0,
                    need as int / w as int >= 0,
            ;
        }
        need / w + 1
    };
    let c = if q > lo {
        q
    } else {
        lo
    };
    assert forall|y: int| y >= lo implies (#[trigger] reaches(base as int, w as int, goal as int, y)
        <==> y >= c) by {
        lemma_ceil_div(need as int, w as int, q as int, y);
    }
    Some(c)
}

/// Moving up one rank: the score at `i - 1` leaves the sum above and joins, one
/// rank lower, the sum below; every term and sum stays within `u128`.
proof fn lemma_rank_step(s: Seq<u32>, i: nat, m: nat)
    requires
        0 < i <= m <= s.len(),
        s.len() <= usize::MAX,
    ensures
        weighted_sum(s.take(i - 1), 0) >= 0,
        weighted_sum(s.take(i as int), 0) == weighted_sum(s.take(i - 1), 0) + s[i - 1] as int
            * weight((i - 1) as nat),
        weighted_sum(s.subrange(i - 1, m as int), i) == s[i - 1] as int * weight(i)
            + weighted_sum(s.subrange(i as int, m as int), i + 1),
        0 <= s[i - 1] as int * weight((i - 1) as nat) <= max_term(),
        0 <= s[i - 1] as int * weight(i) <= max_term(),
        weighted_sum(s.subrange(i - 1, m as int), i) <= u128::MAX / 2,
{
    assert(s.take(i as int).drop_last() =~= s.take(i - 1));
    lemma_weight_antitone(0, (i - 1) as nat);
    lemma_weight_antitone((i - 1) as nat, i);
    let v = s[i - 1] as int;
    let wa = weight((i - 1) as nat);
    let wb = weight(i);
    assert(0 <= v * wa <= max_term() && 0 <= v * wb <= max_term()) by (nonlinear_arith)
        requires
            0 <= v <= u32::MAX,
            0 <= wb <= wa <= WEIGHT_ONE,
    ;
    assert(s.subrange(i - 1, m as int) =~= seq![s[i - 1]] + s.subrange(i as int, m as int));
    lemma_weighted_sum_concat(seq![s[i - 1]], s.subrange(i as int, m as int), i);
    lemma_weighted_sum_single(s[i - 1], i);
    lemma_weighted_sum_bounds(s.subrange(i - 1, m as int), i);
    assert((m - i + 1) * max_term() <= u128::MAX / 2) by (nonlinear_arith)
        requires
            m - i + 1 <= s.len(),
            s.len() <= usize::MAX,
            usize::MAX <= u64::MAX,
    ;
    lemma_weighted_sum_bounds(s.take(i - 1), 0);
}

impl Roster {
    /// Least score from the roster's floor up (its lowest score when full, 0
    /// otherwise) that, joining the roster, raises its weighted total by at
    /// least `target`; `None` exactly when no score does.
    ///
    /// Every score from the result up reaches the target and every score from
    /// the floor to below it falls short, and the result overshoots the target
    /// by less than one full weight. No other score from the floor up gains
    /// exactly as much as the result. When even a score equal to the current top
    /// one falls short, the result lies above the top score and enters at
    /// rank 0, where the new total is the result at full weight plus the kept
    /// scores one rank lower.
    pub fn needed_score(&self, target: u128) -> (r: Option<u32>)
        requires
            self.wf(),
        ensures
            r is None <==> gain(self.scores@, self.cap as nat, u32::MAX) < target,
            match r {
                Some(x) => x >= floor_score(self.scores@, self.cap as nat) && (forall|y: u32|
                    y >= floor_score(self.scores@, self.cap as nat) ==> (#[trigger] gain(
                        self.scores@,
                        self.cap as nat,
                        y,
                    ) >= target <==> y >= x)) && (forall|y: u32|
                    y >= floor_score(self.scores@, self.cap as nat) && #[trigger] gain(
                        self.scores@,
                        self.cap as nat,
                        y,
                    ) == gain(self.scores@, self.cap as nat, x) ==> y == x) && gain(
                    self.scores@,
                    self.cap as nat,
                    x,
                ) < target
                    + WEIGHT_ONE && (self.scores@.len() > 0 && gain(
                    self.scores@,
                    self.cap as nat,
                    self.scores@[0],
                ) < target ==> x > self.scores@[0] && insert_rank(self.scores@, x) == 0 && gain(
                    self.scores@,
                    self.cap as nat,
                    x,
                ) == x as int * WEIGHT_ONE as int + weighted_sum(
                    self.scores@.subrange(0, kept_len(self.scores@, self.cap as nat) as int),
                    1,
                ) - weighted_total(self.scores@)),
                None => forall|y: u32| #[trigger] gain(self.scores@, self.cap as nat, y) < target,
            },
    {
        let ghost s = self.scores@;
        let ghost cap = self.cap as nat;
        let scores = &self.scores;
        let n = scores.len();
        if target == 0 {
            let floor: u32 = if n == self.cap {
                scores[n - 1]
            } else {
                0
            };
            proof {
                assert forall|y: u32|
                    y >= floor_score(s, cap) && #[trigger] gain(s, cap, y) == gain(s, cap, floor)
                        implies y == floor by {
                    if y > floor {
                        lemma_gain_strict(s, cap, floor, y);
                    }
                }
                if n == self.cap {
                    lemma_below_minimum_no_gain(s, cap, floor);
                } else {
                    lemma_zero_gain(s, cap);
                }
                assert forall|y: u32| #[trigger] gain(s, cap, y) >= target by {
                    lemma_gain_nonneg(s, cap, y);
                }
            }
            return Some(floor);
        }
        let before = weighted_total_of(scores);
        let goal = match target.checked_add(before) {
            Some(g) => g,
            None => {
                assert forall|y: u32| #[trigger] gain(s, cap, y) < target by {
                    lemma_gain_nonneg(s, cap, y);
                    lemma_weighted_sum_bounds(roster_after(s, cap, y), 0);
                    assert(roster_after(s, cap, y).len() * max_term() <= u128::MAX)
                        by (nonlinear_arith)
                        requires
                            roster_after(s, cap, y).len() <= cap,
                            cap <= usize::MAX,
                            usize::MAX <= u64::MAX,
                    ;
                }
                return None;
            },
        };
        let m: usize = if n == self.cap {
            n - 1
        } else {
            n
        };
        assert(m == kept_len(s, cap));
        proof {
            if m < n {
                assert forall|y: u32| y <= s[m as int] implies #[trigger] gain(s, cap, y) < target by {
                    lemma_below_minimum_no_gain(s, cap, y);
                }
            }
        }
        // Ranks are tried from the lowest up. A score enters at rank `i` exactly when
        // it lies in `lo..=hi` below, and there the new total is linear in it:
        // `pre` (the scores above, at their ranks) + score * weight(i) + `suf`
        // (the kept scores below, one rank lower). Every score under `lo` has
        // already been found to fall short.
        let weights = rank_weights(m);
        let mut pre = weighted_prefix(scores, m);
        let mut suf: u128 = 0;
        let mut i: usize = m;
        assert(weighted_sum(s.subrange(m as int, m as int), m as nat + 1) == 0) by {
            assert(s.subrange(m as int, m as int) =~= Seq::<u32>::empty());
        }
        loop
            invariant
                valid_roster(s, cap),
                s == scores@,
                s == self.scores@,
                cap == self.cap as nat,
                n == s.len(),
                m == kept_len(s, cap),
                i <= m,
                weights@.len() == m + 1,
                forall|k: int| 0 <= k <= m ==> weights@[k] as int == weight(k as nat),
                target > 0,
                goal == target + weighted_total(s),
                pre as int == weighted_sum(s.take(i as int), 0),
                suf as int == weighted_sum(s.subrange(i as int, m as int), i as nat + 1),
                forall|y: u32| i < n && y <= s[i as int] ==> #[trigger] gain(s, cap, y) < target,
            decreases i,
        {
            let lo: u64 = if i < n {
                scores[i] as u64 + 1
            } else {
                0
            };
            let hi: u64 = if i == 0 {
                u32::MAX as u64
            } else {
                scores[i - 1] as u64
            };
            proof {
                lemma_weighted_sum_bounds(s.take(i as int), 0);
                lemma_weighted_sum_bounds(s.subrange(i as int, m as int), i as nat + 1);
                assert(n * max_term() <= u128::MAX / 2) by (nonlinear_arith)
                    requires
                        n <= usize::MAX,
                        usize::MAX <= u64::MAX,
                ;
                assert(i * max_term() <= n * max_term()) by (nonlinear_arith)
                    requires
                        i <= n,
                ;
                assert((m - i) * max_term() <= n * max_term()) by (nonlinear_arith)
                    requires
                        m - i <= n,
                ;
                lemma_weight_antitone(0, i as nat);
                if i > 0 && i < n {
                    assert(s[i - 1] >= s[i as int]);
                }
            }
            let w = weights[i] as u128;
            let base = pre + suf;
            let found = least_reaching(base, w, goal, lo as u128);
            assert forall|y: u32| lo <= y <= hi implies (#[trigger] gain(s, cap, y) >= target
                <==> reaches(base as int, w as int, goal as int, y as int)) by {
                lemma_gain_at_rank(s, cap, i as nat, y);
            }
            if let Some(c) = found {
                if c <= hi as u128 {
                    let x = c as u32;
                    proof {
                        assert(gain(s, cap, x) >= target);
                        assert forall|y: u32| #[trigger] gain(s, cap, y) >= target <==> y >= x by {
                            if y >= x {
                                lemma_gain_monotone(s, cap, x, y);
                            } else if i < n && y <= s[i as int] {
                            } else {
                                assert(!reaches(base as int, w as int, goal as int, y as int));
                            }
                        }
                        assert(gain(s, cap, u32::MAX) >= target);
                        assert(x >= floor_score(s, cap)) by {
                            if i < n {
                                assert(s[i as int] >= s[n - 1]);
                            }
                        }
                        assert forall|y: u32|
                            y >= floor_score(s, cap) && #[trigger] gain(s, cap, y) == gain(s, cap, x)
                                implies y == x by {
                            if y > x {
                                lemma_gain_strict(s, cap, x, y);
                            } else if y < x {
                                lemma_gain_strict(s, cap, y, x);
                            }
                        }
                        if i < n {
                            assert(s[i as int] >= s[n - 1]);
                        }
                        if x > 0 {
                            lemma_gain_step(s, cap, x);
                            assert(gain(s, cap, (x - 1) as u32) < target);
                        } else {
                            lemma_zero_gain(s, cap);
                        }
                        if s.len() > 0 && gain(s, cap, s[0]) < target {
                            assert(gain(s, cap, s[0]) >= target <==> s[0] >= x);
                            lemma_insert_rank_at(s, x, 0);
                            lemma_gain_at_rank(s, cap, 0, x);
                            assert(weighted_sum(s.take(0), 0) == 0);
                            assert(weight(0) == WEIGHT_ONE);
                        }
                    }
                    return Some(x);
                }
            }
            assert forall|y: u32| y <= hi implies #[trigger] gain(s, cap, y) < target by {
                if i < n && y <= s[i as int] {
                } else {
                    assert(!reaches(base as int, w as int, goal as int, y as int));
                }
            }
            if i == 0 {
                return None;
            }
            proof {
                lemma_rank_step(s, i as nat, m as nat);
            }
            pre = pre - scores[i - 1] as u128 * weights[i - 1] as u128;
            suf = suf + scores[i - 1] as u128 * weights[i] as u128;
            i = i - 1;
        }
    }
}

} // verus!
