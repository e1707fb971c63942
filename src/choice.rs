use vstd::prelude::*;
use crate::relax::{Entry, sel_sum};

verus! {

/// Sum of the profits (`wt == false`) or weights (`wt == true`) of the items
/// of `m` at indices below `k` that `a` holds.
pub open spec fn item_sum(m: Seq<(u64, u64)>, a: Set<usize>, k: int, wt: bool) -> int
    decreases k,
{
    if k <= 0 {
        0
    } else {
        item_sum(m, a, k - 1, wt) + if a.contains((k - 1) as usize) {
            if wt {
                m[k - 1].1 as int
            } else {
                m[k - 1].0 as int
            }
        } else {
            0
        }
    }
}

/// Total profit of the items of `m` whose indices `a` holds.
pub open spec fn profit_of(m: Seq<(u64, u64)>, a: Set<usize>) -> int {
    item_sum(m, a, m.len() as int, false)
}

/// Total weight of the items of `m` whose indices `a` holds.
pub open spec fn weight_of(m: Seq<(u64, u64)>, a: Set<usize>) -> int {
    item_sum(m, a, m.len() as int, true)
}

proof fn lemma_item_sum_congruent(m: Seq<(u64, u64)>, a: Set<usize>, b: Set<usize>, k: int, wt: bool)
    requires
        k <= usize::MAX + 1,
        forall|x: usize| (x as int) < k ==> a.contains(x) == b.contains(x),
    ensures
        item_sum(m, a, k, wt) == item_sum(m, b, k, wt),
    decreases k,
{
    if k > 0 {
        lemma_item_sum_congruent(m, a, b, k - 1, wt);
        assert(a.contains((k - 1) as usize) == b.contains((k - 1) as usize));
    }
}

proof fn lemma_item_sum_insert(m: Seq<(u64, u64)>, a: Set<usize>, x: usize, k: int, wt: bool)
    requires
        !a.contains(x),
        (x as int) < k <= usize::MAX + 1,
    ensures
        item_sum(m, a.insert(x), k, wt) == item_sum(m, a, k, wt) + (if wt {
            m[x as int].1 as int
        } else {
            m[x as int].0 as int
        }),
    decreases k,
{
    if k - 1 > x {
        lemma_item_sum_insert(m, a, x, k - 1, wt);
        assert(a.insert(x).contains((k - 1) as usize) == a.contains((k - 1) as usize));
    } else {
        lemma_item_sum_congruent(m, a.insert(x), a, k - 1, wt);
    }
}

/// `s` lists the items of `m` in another order: entry `j` is item `s[j].0`,
/// at position `pos[s[j].0]`.
pub open spec fn lists(s: Seq<Entry>, m: Seq<(u64, u64)>, pos: Seq<int>) -> bool {
    &&& m.len() == s.len()
    &&& pos.len() == s.len()
    &&& s.len() <= usize::MAX
    &&& forall|j: int|
        0 <= j < s.len() ==> (#[trigger] s[j].0 as int) < s.len() && pos[s[j].0 as int] == j
            && s[j].1 == m[s[j].0 as int].0 && s[j].2 == m[s[j].0 as int].1
    &&& forall|i: int| 0 <= i < s.len() ==> 0 <= #[trigger] pos[i] < s.len() && s[pos[i]].0 == i
}

/// The entries at positions below `hi`, as a set of item indices.
spec fn window(s: Seq<Entry>, pos: Seq<int>, hi: int) -> Set<usize> {
    Set::new(|x: usize| (x as int) < s.len() && pos[x as int] < hi)
}

proof fn lemma_reindex_prefix(
    s: Seq<Entry>,
    m: Seq<(u64, u64)>,
    pos: Seq<int>,
    a: Set<usize>,
    hi: int,
    wt: bool,
)
    requires
        lists(s, m, pos),
        0 <= hi <= s.len(),
    ensures
        sel_sum(s, a, 0, hi, wt) == item_sum(m, a.intersect(window(s, pos, hi)), m.len() as int, wt),
    decreases hi,
{
    let n = s.len() as int;
    if hi == 0 {
        let e = a.intersect(window(s, pos, 0));
        lemma_item_sum_congruent(m, e, Set::empty(), n, wt);
        lemma_item_sum_empty(m, n, wt);
    } else {
        lemma_reindex_prefix(s, m, pos, a, hi - 1, wt);
        let x = s[hi - 1].0;
        let b0 = a.intersect(window(s, pos, hi - 1));
        let b1 = a.intersect(window(s, pos, hi));
        assert(pos[x as int] == hi - 1);
        if a.contains(x) {
            assert(b1 =~= b0.insert(x));
            lemma_item_sum_insert(m, b0, x, n, wt);
        } else {
            assert forall|y: usize| (y as int) < n implies b1.contains(y) == b0.contains(y) by {
                if b1.contains(y) && !b0.contains(y) {
                    assert(s[pos[y as int]].0 == y);
                }
            }
            lemma_item_sum_congruent(m, b1, b0, n, wt);
        }
    }
}

proof fn lemma_item_sum_empty(m: Seq<(u64, u64)>, k: int, wt: bool)
    ensures
        item_sum(m, Set::empty(), k, wt) == 0,
    decreases k,
{
    if k > 0 {
        lemma_item_sum_empty(m, k - 1, wt);
    }
}

/// Summing in decision order or in the caller's order gives the same total.
pub proof fn lemma_reindex(s: Seq<Entry>, m: Seq<(u64, u64)>, pos: Seq<int>, a: Set<usize>, wt: bool)
    requires
        lists(s, m, pos),
    ensures
        sel_sum(s, a, 0, s.len() as int, wt) == item_sum(m, a, m.len() as int, wt),
{
    let n = s.len() as int;
    lemma_reindex_prefix(s, m, pos, a, n, wt);
    assert forall|y: usize| (y as int) < n implies a.intersect(window(s, pos, n)).contains(y)
        == a.contains(y) by {}
    lemma_item_sum_congruent(m, a.intersect(window(s, pos, n)), a, n, wt);
}

} // verus!
