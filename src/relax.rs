use vstd::prelude::*;

verus! {

/// An item in decision order: its position in the caller's slice, its profit
/// and its weight.
pub type Entry = (usize, u64, u64);

/// The profit (`wt == false`) or the weight (`wt == true`) of an entry.
pub open spec fn val(e: Entry, wt: bool) -> int {
    if wt {
        e.2 as int
    } else {
        e.1 as int
    }
}

/// Sum of the profits or weights of the entries at positions `[lo, hi)` of `s`
/// whose original index lies in `a`.
pub open spec fn sel_sum(s: Seq<Entry>, a: Set<usize>, lo: int, hi: int, wt: bool) -> int
    decreases hi - lo,
{
    if hi <= lo {
        0
    } else {
        sel_sum(s, a, lo, hi - 1, wt) + if a.contains(s[hi - 1].0) {
            val(s[hi - 1], wt)
        } else {
            0
        }
    }
}

/// Entries are ordered by non-increasing profit/weight ratio, compared without
/// division (an entry of weight zero has an infinite ratio).
pub open spec fn ratio_sorted(s: Seq<Entry>) -> bool {
    forall|i: int, j: int|
        #![trigger s[i], s[j]]
        0 <= i < j < s.len() ==> (s[i].1 as int) * (s[j].2 as int) >= (s[j].1 as int) * (
        s[i].2 as int)
}

/// Where the greedy fill of the suffix starting at `k` with capacity `c` stops:
/// the first entry that does not fit in what is left, or the end.
pub open spec fn stop(s: Seq<Entry>, k: int, c: int) -> int
    decreases s.len() - k,
{
    if k >= s.len() {
        s.len() as int
    } else if s[k].2 <= c {
        stop(s, k + 1, c - s[k].2)
    } else {
        k
    }
}

/// Denominator of the fractional relaxation bound of the suffix at `k`.
pub open spec fn lp_den(s: Seq<Entry>, k: int, c: int) -> int {
    let t = stop(s, k, c);
    if t < s.len() {
        s[t].2 as int
    } else {
        1
    }
}

/// Numerator of the fractional relaxation bound of the suffix at `k`: the
/// bound is `lp_num / lp_den`. The entries before the stop are taken whole,
/// the one at the stop only for the capacity left.
pub open spec fn lp_num(s: Seq<Entry>, k: int, c: int) -> int {
    let t = stop(s, k, c);
    let p = sel_sum(s, Set::full(), k, t, false);
    let w = sel_sum(s, Set::full(), k, t, true);
    if t < s.len() {
        p * (s[t].2 as int) + (c - w) * (s[t].1 as int)
    } else {
        p
    }
}

/// A sum over a range is the sum over its two parts.
pub proof fn lemma_sum_split(s: Seq<Entry>, a: Set<usize>, lo: int, mid: int, hi: int, wt: bool)
    requires
        lo <= mid <= hi,
    ensures
        sel_sum(s, a, lo, hi, wt) == sel_sum(s, a, lo, mid, wt) + sel_sum(s, a, mid, hi, wt),
    decreases hi - mid,
{
    if hi > mid {
        lemma_sum_split(s, a, lo, mid, hi - 1, wt);
    }
}

/// A sum lies between zero and the sum over every entry.
pub proof fn lemma_sum_bounds(s: Seq<Entry>, a: Set<usize>, lo: int, hi: int, wt: bool)
    ensures
        0 <= sel_sum(s, a, lo, hi, wt) <= sel_sum(s, Set::full(), lo, hi, wt),
    decreases hi - lo,
{
    if hi > lo {
        lemma_sum_bounds(s, a, lo, hi - 1, wt);
    }
}

/// Nothing chosen sums to zero.
pub proof fn lemma_sum_empty(s: Seq<Entry>, lo: int, hi: int, wt: bool)
    ensures
        sel_sum(s, Set::empty(), lo, hi, wt) == 0,
    decreases hi - lo,
{
    if hi > lo {
        lemma_sum_empty(s, lo, hi - 1, wt);
    }
}

/// Two choices that agree on a range have equal sums over it.
pub proof fn lemma_sum_congruent(
    s: Seq<Entry>,
    a: Set<usize>,
    b: Set<usize>,
    lo: int,
    hi: int,
    wt: bool,
)
    requires
        forall|j: int| lo <= j < hi ==> a.contains(#[trigger] s[j].0) == b.contains(s[j].0),
    ensures
        sel_sum(s, a, lo, hi, wt) == sel_sum(s, b, lo, hi, wt),
    decreases hi - lo,
{
    if hi > lo {
        lemma_sum_congruent(s, a, b, lo, hi - 1, wt);
    }
}

/// The greedy fill takes whole entries up to the stop, within the capacity,
/// and the entry at the stop does not fit in what is left.
pub proof fn lemma_stop(s: Seq<Entry>, k: int, c: int)
    requires
        0 <= k <= s.len(),
        0 <= c,
    ensures
        k <= stop(s, k, c) <= s.len(),
        sel_sum(s, Set::full(), k, stop(s, k, c), true) <= c,
        stop(s, k, c) < s.len() ==> s[stop(s, k, c)].2 > c - sel_sum(
            s,
            Set::full(),
            k,
            stop(s, k, c),
            true,
        ),
    decreases s.len() - k,
{
    if k < s.len() && s[k].2 <= c {
        let t = stop(s, k + 1, c - s[k].2);
        lemma_stop(s, k + 1, c - s[k].2);
        lemma_sum_split(s, Set::full(), k, k + 1, t, true);
        assert(Set::<usize>::full().contains(s[k].0));
        assert(sel_sum(s, Set::full(), k, k, true) == 0);
        assert(sel_sum(s, Set::full(), k, k + 1, true) == s[k].2);
    }
}

/// The exchange step behind the relaxation bound: against the ratio of the
/// entry at `t`, the entries before `t` gain and the entries from `t` on lose.
proof fn lemma_exchange(s: Seq<Entry>, a: Set<usize>, k: int, t: int, hi: int)
    requires
        ratio_sorted(s),
        0 <= k <= t < s.len(),
        k <= hi <= s.len(),
    ensures
        ({
            let pt = s[t].1 as int;
            let wt = s[t].2 as int;
            let m = if hi < t {
                hi
            } else {
                t
            };
            wt * sel_sum(s, a, k, hi, false) - pt * sel_sum(s, a, k, hi, true) <= wt * sel_sum(
                s,
                Set::full(),
                k,
                m,
                false,
            ) - pt * sel_sum(s, Set::full(), k, m, true)
        }),
    decreases hi - k,
{
    if hi > k {
        let j = hi - 1;
        lemma_exchange(s, a, k, t, j);
        let pt = s[t].1 as int;
        let wt = s[t].2 as int;
        let pj = s[j].1 as int;
        let wj = s[j].2 as int;
        let pa = sel_sum(s, a, k, j, false);
        let wa = sel_sum(s, a, k, j, true);
        let inn = a.contains(s[j].0);
        if j < t {
            assert(pj * wt >= pt * wj) by {
                assert(s[j] == s[j] && s[t] == s[t]);
            }
            let pf = sel_sum(s, Set::full(), k, j, false);
            let wf = sel_sum(s, Set::full(), k, j, true);
            if inn {
                assert(wt * (pa + pj) - pt * (wa + wj) == (wt * pa - pt * wa) + (wt * pj - pt * wj))
                    by (nonlinear_arith);
            }
            assert(wt * (pf + pj) - pt * (wf + wj) == (wt * pf - pt * wf) + (wt * pj - pt * wj))
                by (nonlinear_arith);
        } else {
            assert(pt * wj >= pj * wt) by {
                if j > t {
                    assert(s[t] == s[t] && s[j] == s[j]);
                } else {
                    assert(pt * wj == pj * wt);
                }
            }
            if inn {
                assert(wt * (pa + pj) - pt * (wa + wj) == (wt * pa - pt * wa) + (wt * pj - pt * wj))
                    by (nonlinear_arith);
            }
        }
    }
}

/// The fractional relaxation bound is admissible: no choice among the entries
/// from `k` on that fits in capacity `c` has more profit.
pub proof fn lemma_relaxation_admissible(s: Seq<Entry>, a: Set<usize>, k: int, c: int)
    requires
        ratio_sorted(s),
        0 <= k <= s.len(),
        0 <= c,
        sel_sum(s, a, k, s.len() as int, true) <= c,
    ensures
        lp_den(s, k, c) > 0,
        sel_sum(s, a, k, s.len() as int, false) * lp_den(s, k, c) <= lp_num(s, k, c),
{
    let n = s.len() as int;
    let t = stop(s, k, c);
    lemma_stop(s, k, c);
    let p = sel_sum(s, Set::full(), k, t, false);
    let w = sel_sum(s, Set::full(), k, t, true);
    let pa = sel_sum(s, a, k, n, false);
    let wa = sel_sum(s, a, k, n, true);
    if t < n {
        let pt = s[t].1 as int;
        let wt = s[t].2 as int;
        lemma_exchange(s, a, k, t, n);
        assert(wt * pa - pt * wa <= wt * p - pt * w);
        assert(pt * wa <= pt * c) by (nonlinear_arith)
            requires
                wa <= c,
                pt >= 0,
        ;
        assert(pa * wt <= p * wt + (c - w) * pt) by (nonlinear_arith)
            requires
                wt * pa - pt * wa <= wt * p - pt * w,
                pt * wa <= pt * c,
        ;
    } else {
        lemma_sum_bounds(s, a, k, n, false);
    }
}

} // verus!
