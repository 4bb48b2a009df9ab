use vstd::prelude::*;
use crate::weights::{
    WEIGHT_ONE,
    lemma_weight_antitone, lemma_weighted_sum_bump, lemma_weighted_sum_pointwise,
    lemma_weighted_sum_single, weight, weighted_sum, weighted_total, weighted_total_of,
};

verus! {

/// Scores in descending order: an earlier score is never below a later one.
pub open spec fn sorted_desc(s: Seq<u32>) -> bool {
    forall|i: int, j: int| 0 <= i < j < s.len() ==> s[i] >= s[j]
}

/// A roster that holds at most `cap` scores, sorted descending, with room for at least one.
pub open spec fn valid_roster(s: Seq<u32>, cap: nat) -> bool {
    cap > 0 && s.len() <= cap && sorted_desc(s)
}

/// Where a new score `c` enters the list: before the first score strictly below it.
pub open spec fn insert_rank(s: Seq<u32>, c: u32) -> nat
    decreases s.len(),
{
    if s.len() == 0 {
        0
    } else if s[0] < c {
        0
    } else {
        1 + insert_rank(s.drop_first(), c)
    }
}

/// The list with `c` put in its sorted place.
pub open spec fn with_candidate(s: Seq<u32>, c: u32) -> Seq<u32> {
    s.insert(insert_rank(s, c) as int, c)
}

/// The roster after `c` joins it: below the cap nothing leaves, at the cap the lowest score leaves.
pub open spec fn roster_after(s: Seq<u32>, cap: nat, c: u32) -> Seq<u32> {
    if s.len() < cap {
        with_candidate(s, c)
    } else {
        with_candidate(s, c).drop_last()
    }
}

/// Change of the weighted total when `c` joins the roster.
pub open spec fn gain(s: Seq<u32>, cap: nat, c: u32) -> int {
    weighted_total(roster_after(s, cap, c)) - weighted_total(s)
}

/// Why a list of scores cannot form a roster.
#[derive(Debug, Clone, Copy, PartialEq, Eq, Structural)]
pub enum RosterError {
    /// The cap is zero.
    ZeroCap,
    /// More scores than the cap allows.
    OverCap,
    /// A score is above the one before it.
    Unsorted,
}

/// A player's best scores, sorted descending, with the number of scores that count.
pub struct Roster {
    pub scores: Vec<u32>,
    pub cap: usize,
}

/// Every score before `i` is at least `c`, and the one at `i`, if any, is below it.
pub proof fn lemma_insert_rank_first(s: Seq<u32>, c: u32, i: nat)
    requires
        i <= s.len(),
        forall|j: int| 0 <= j < i ==> s[j] >= c,
        i == s.len() || s[i as int] < c,
    ensures
        insert_rank(s, c) == i,
    decreases s.len(),
{
    if s.len() > 0 && i > 0 {
        let t = s.drop_first();
        assert forall|j: int| 0 <= j < i - 1 implies t[j] >= c by {
            assert(s[j + 1] >= c);
        }
        lemma_insert_rank_first(t, c, (i - 1) as nat);
    }
}

/// The rank where `c` enters: no further than the end, after every score at least `c`.
pub proof fn lemma_insert_rank_props(s: Seq<u32>, c: u32)
    ensures
        insert_rank(s, c) <= s.len(),
        forall|j: int| 0 <= j < insert_rank(s, c) ==> s[j] >= c,
        insert_rank(s, c) == s.len() || s[insert_rank(s, c) as int] < c,
    decreases s.len(),
{
    if s.len() > 0 && s[0] >= c {
        let t = s.drop_first();
        lemma_insert_rank_props(t, c);
        assert forall|j: int| 0 <= j < insert_rank(s, c) implies s[j] >= c by {
            if j > 0 {
                assert(s[j] == t[j - 1]);
            }
        }
    }
}

/// In a sorted list, `c` enters at `i` when it lies between the neighbours of that place.
pub proof fn lemma_insert_rank_at(s: Seq<u32>, c: u32, i: nat)
    requires
        sorted_desc(s),
        i <= s.len(),
        i == 0 || s[i - 1] >= c,
        i == s.len() || s[i as int] < c,
    ensures
        insert_rank(s, c) == i,
{
    assert forall|j: int| 0 <= j < i implies s[j] >= c by {
        if j < i - 1 {
            assert(s[j] >= s[i - 1]);
        }
    }
    lemma_insert_rank_first(s, c, i);
}

/// Putting `c` in its place never lowers the score at any rank of the old list.
proof fn lemma_with_candidate_dominates(s: Seq<u32>, c: u32)
    requires
        sorted_desc(s),
    ensures
        with_candidate(s, c).len() == s.len() + 1,
        forall|k: int| 0 <= k < s.len() ==> with_candidate(s, c)[k] >= s[k],
{
    let p = insert_rank(s, c) as int;
    lemma_insert_rank_props(s, c);
    s.insert_ensures(p, c);
    assert forall|k: int| 0 <= k < s.len() implies with_candidate(s, c)[k] >= s[k] by {
        if k > p {
            assert(with_candidate(s, c)[(k - 1) + 1] == s[k - 1]);
            assert(s[k - 1] >= s[k]);
        }
    }
}

/// A larger candidate gives, rank by rank, scores at least as large.
proof fn lemma_with_candidate_monotone(s: Seq<u32>, c1: u32, c2: u32)
    requires
        sorted_desc(s),
        c1 <= c2,
    ensures
        with_candidate(s, c1).len() == s.len() + 1,
        with_candidate(s, c2).len() == s.len() + 1,
        forall|k: int|
            0 <= k <= s.len() ==> with_candidate(s, c1)[k] <= with_candidate(s, c2)[k],
{
    let p1 = insert_rank(s, c1) as int;
    let p2 = insert_rank(s, c2) as int;
    lemma_insert_rank_props(s, c1);
    lemma_insert_rank_props(s, c2);
    s.insert_ensures(p1, c1);
    s.insert_ensures(p2, c2);
    let t1 = with_candidate(s, c1);
    let t2 = with_candidate(s, c2);
    if p1 < p2 {
        assert(s[p1] < c1 && s[p1] >= c2);
    }
    assert forall|k: int| 0 <= k <= s.len() implies t1[k] <= t2[k] by {
        if k < p2 {
        } else if k == p2 {
            if k < p1 {
                assert(s[k] < c2);
            }
        } else {
            assert(t2[(k - 1) + 1] == s[k - 1]);
            if k < p1 {
                assert(s[k - 1] >= s[k]);
            } else if k == p1 {
                assert(s[k - 1] >= c1);
            } else {
                assert(t1[(k - 1) + 1] == s[k - 1]);
            }
        }
    }
}

/// Adding a score to a valid roster never lowers its weighted total.
pub proof fn lemma_gain_nonneg(s: Seq<u32>, cap: nat, c: u32)
    requires
        valid_roster(s, cap),
    ensures
        gain(s, cap, c) >= 0,
        roster_after(s, cap, c).len() <= cap,
{
    lemma_with_candidate_dominates(s, c);
    let t = with_candidate(s, c);
    let u = t.drop_last();
    assert forall|k: int| 0 <= k < s.len() implies u[k] >= s[k] by {
        assert(u[k] == t[k]);
    }
    lemma_weighted_sum_pointwise(s, u, 0);
    if s.len() < cap {
        lemma_weight_antitone(0, s.len());
        assert(weighted_total(t) == weighted_sum(u, 0) + t.last() as int * weight(s.len())) by {
            assert(t.drop_last() == u);
        }
        assert(t.last() as int * weight(s.len()) >= 0) by (nonlinear_arith)
            requires
                weight(s.len()) >= 0,
        ;
    }
}

/// A roster at its cap keeps its total when the new score is not above its lowest score.
pub proof fn lemma_below_minimum_no_gain(s: Seq<u32>, cap: nat, c: u32)
    requires
        valid_roster(s, cap),
        s.len() == cap,
        c <= s.last(),
    ensures
        gain(s, cap, c) == 0,
{
    assert forall|j: int| 0 <= j < s.len() implies s[j] >= c by {
        assert(s[j] >= s.last());
    }
    lemma_insert_rank_first(s, c, s.len());
    assert(roster_after(s, cap, c) =~= s);
}

/// The gain never shrinks as the new score grows.
pub proof fn lemma_gain_monotone(s: Seq<u32>, cap: nat, c1: u32, c2: u32)
    requires
        valid_roster(s, cap),
        c1 <= c2,
    ensures
        gain(s, cap, c1) <= gain(s, cap, c2),
{
    lemma_with_candidate_monotone(s, c1, c2);
    let a = roster_after(s, cap, c1);
    let b = roster_after(s, cap, c2);
    assert forall|k: int| 0 <= k < a.len() implies a[k] <= b[k] by {
        assert(a[k] == with_candidate(s, c1)[k]);
        assert(b[k] == with_candidate(s, c2)[k]);
    }
    lemma_weighted_sum_pointwise(a, b, 0);
}

/// A new score of 0 changes nothing.
pub proof fn lemma_zero_gain(s: Seq<u32>, cap: nat)
    requires
        valid_roster(s, cap),
    ensures
        gain(s, cap, 0) == 0,
{
    lemma_insert_rank_first(s, 0, s.len());
    assert(with_candidate(s, 0) =~= s.push(0));
    assert(s.push(0).drop_last() =~= s);
    lemma_weight_antitone(0, s.len());
    assert(0 * weight(s.len()) == 0);
}

/// Raising the new score by one unit raises the gain by at most one full weight:
/// by the weight of the rank where the raised score enters, whenever it stays
/// in the roster.
pub proof fn lemma_gain_step(s: Seq<u32>, cap: nat, x: u32)
    requires
        valid_roster(s, cap),
        x > 0,
    ensures
        gain(s, cap, (x - 1) as u32) <= gain(s, cap, x) <= gain(s, cap, (x - 1) as u32)
            + WEIGHT_ONE,
        s.len() < cap || insert_rank(s, x) < s.len() ==> gain(s, cap, x) == gain(
            s,
            cap,
            (x - 1) as u32,
        ) + weight(insert_rank(s, x)),
{
    let c = (x - 1) as u32;
    lemma_gain_monotone(s, cap, c, x);
    let p1 = insert_rank(s, c) as int;
    let p2 = insert_rank(s, x) as int;
    lemma_insert_rank_props(s, c);
    lemma_insert_rank_props(s, x);
    s.insert_ensures(p1, c);
    s.insert_ensures(p2, x);
    let a = with_candidate(s, c);
    let b = with_candidate(s, x);
    if p1 < p2 {
        assert(s[p1] < c && s[p1] >= x);
    }
    assert(a[p2] == c) by {
        if p2 < p1 {
            assert(s[p2] < x && s[p2] >= c);
        }
    }
    assert forall|k: int| 0 <= k < b.len() implies #[trigger] b[k] == a.update(p2, x)[k] by {
        if p2 < k <= p1 {
            assert(b[(k - 1) + 1] == s[k - 1]);
            assert(s[k - 1] < x) by {
                assert(s[p2] >= s[k - 1]);
            }
            assert(s[k - 1] >= c);
            if k < p1 {
                assert(s[k] < x) by {
                    assert(s[p2] >= s[k]);
                }
            }
        } else if k > p1 {
            assert(b[(k - 1) + 1] == s[k - 1]);
            assert(a[(k - 1) + 1] == s[k - 1]);
        }
    }
    assert(b =~= a.update(p2, x));
    lemma_weight_antitone(0, p2 as nat);
    if s.len() < cap {
        lemma_weighted_sum_bump(a, p2, 0);
    } else if p2 < s.len() {
        assert(b.drop_last() =~= a.drop_last().update(p2, x));
        lemma_weighted_sum_bump(a.drop_last(), p2, 0);
    } else {
        assert(b.drop_last() =~= a.drop_last());
    }
}

/// Lowest score that can still change the roster: the current lowest score when
/// the roster is full, 0 otherwise.
pub open spec fn floor_score(s: Seq<u32>, cap: nat) -> u32 {
    if s.len() == cap && s.len() > 0 {
        s.last()
    } else {
        0
    }
}

/// From the roster's floor up, the gain rises strictly with the new score.
pub proof fn lemma_gain_strict(s: Seq<u32>, cap: nat, c1: u32, c2: u32)
    requires
        valid_roster(s, cap),
        floor_score(s, cap) <= c1 < c2,
    ensures
        gain(s, cap, c1) < gain(s, cap, c2),
{
    let x = (c1 + 1) as u32;
    lemma_insert_rank_props(s, x);
    if s.len() == cap && insert_rank(s, x) == s.len() {
        assert(s[s.len() - 1] >= x);
    }
    lemma_gain_step(s, cap, x);
    lemma_weight_antitone(0, insert_rank(s, x));
    lemma_gain_monotone(s, cap, x, c2);
}

/// The empty roster totals 0, and a new score enters it at full weight.
pub proof fn lemma_empty_roster(cap: nat, c: u32)
    requires
        cap > 0,
    ensures
        weighted_total(Seq::<u32>::empty()) == 0,
        gain(Seq::<u32>::empty(), cap, c) == c as int * WEIGHT_ONE as int,
{
    let e = Seq::<u32>::empty();
    assert(roster_after(e, cap, c) =~= seq![c]);
    lemma_weighted_sum_single(c, 0);
}

/// Place where `c` enters the sorted list: the first index whose score is below `c`.
pub fn insert_position(scores: &Vec<u32>, c: u32) -> (r: usize)
    ensures
        r as nat == insert_rank(scores@, c),
{
    let n = scores.len();
    let mut k: usize = 0;
    while k < n && scores[k] >= c
        invariant
            k <= n == scores@.len(),
            forall|j: int| 0 <= j < k ==> scores@[j] >= c,
        decreases n - k,
    {
        k = k + 1;
    }
    proof {
        lemma_insert_rank_first(scores@, c, k as nat);
    }
    k
}

/// Whether the scores are in descending order.
pub fn is_sorted_desc(scores: &Vec<u32>) -> (r: bool)
    ensures
        r == sorted_desc(scores@),
{
    let n = scores.len();
    let mut k: usize = 1;
    if n == 0 {
        return true;
    }
    while k < n
        invariant
            1 <= k <= n == scores@.len(),
            sorted_desc(scores@.take(k as int)),
        decreases n - k,
    {
        if scores[k - 1] < scores[k] {
            assert(!sorted_desc(scores@)) by {
                assert(scores@[k - 1] < scores@[k as int]);
            }
            return false;
        }
        let ghost next = scores@.take(k + 1);
        assert forall|i: int, j: int| 0 <= i < j < k + 1 implies #[trigger] next[i] >= #[trigger] next[j] by {
            if j < k {
                assert(scores@.take(k as int)[i] >= scores@.take(k as int)[j]);
            } else if i < k - 1 {
                assert(scores@.take(k as int)[i] >= scores@.take(k as int)[k - 1]);
            }
        }
        k = k + 1;
    }
    assert(scores@.take(n as int) =~= scores@);
    true
}

impl Roster {
    /// The scores form a roster of this cap.
    pub open spec fn wf(&self) -> bool {
        valid_roster(self.scores@, self.cap as nat)
    }

    /// A roster of these scores and this cap, or why they cannot form one.
    pub fn new(scores: Vec<u32>, cap: usize) -> (r: Result<Roster, RosterError>)
        ensures
            match r {
                Ok(ro) => ro.scores@ == scores@ && ro.cap == cap && ro.wf(),
                Err(e) => e == (if cap == 0 {
                    RosterError::ZeroCap
                } else if scores@.len() > cap {
                    RosterError::OverCap
                } else {
                    RosterError::Unsorted
                }),
            },
            r is Ok <==> valid_roster(scores@, cap as nat),
    {
        if cap == 0 {
            Err(RosterError::ZeroCap)
        } else if scores.len() > cap {
            Err(RosterError::OverCap)
        } else if !is_sorted_desc(&scores) {
            Err(RosterError::Unsorted)
        } else {
            Ok(Roster { scores, cap })
        }
    }

    /// Decay-weighted total of the roster.
    pub fn weighted_total(&self) -> (r: u128)
        ensures
            r as int == weighted_total(self.scores@),
    {
        weighted_total_of(&self.scores)
    }

    /// Gain in weighted total when `candidate` joins the roster; 0 when a full
    /// roster drops it again.
    pub fn marginal_gain(&self, candidate: u32) -> (r: u128)
        requires
            self.wf(),
        ensures
            r as int == gain(self.scores@, self.cap as nat, candidate),
    {
        let n = self.scores.len();
        if n > 0 && n == self.cap && candidate < self.scores[n - 1] {
            proof {
                lemma_below_minimum_no_gain(self.scores@, self.cap as nat, candidate);
            }
            return 0;
        }
        let before = weighted_total_of(&self.scores);
        let p = insert_position(&self.scores, candidate);
        proof {
            lemma_insert_rank_props(self.scores@, candidate);
        }
        let mut after_scores = self.scores.clone();
        assert(after_scores@ == self.scores@);
        after_scores.insert(p, candidate);
        if after_scores.len() > self.cap {
            after_scores.pop();
        }
        assert(after_scores@ == roster_after(self.scores@, self.cap as nat, candidate));
        let after = weighted_total_of(&after_scores);
        proof {
            lemma_gain_nonneg(self.scores@, self.cap as nat, candidate);
        }
        after - before
    }
}

} // verus!
