use vstd::prelude::*;
use crate::bound::lemma_u64_product;
use crate::choice::lists;
use crate::item::{KnapsackItem, pairs_of};
use crate::relax::{Entry, ratio_sorted};

verus! {

/// `x` may come before `y` in decision order: its profit/weight ratio is at
/// least `y`'s, where an item of weight zero has an infinite ratio.
pub open spec fn ranks_before(x: Entry, y: Entry) -> bool {
    x.2 == 0 || (y.2 != 0 && (x.1 as int) * (y.2 as int) >= (y.1 as int) * (x.2 as int))
}

/// Entries in decision order.
pub open spec fn ranked(s: Seq<Entry>) -> bool {
    forall|i: int, j: int| #![trigger s[i], s[j]] 0 <= i < j < s.len() ==> ranks_before(s[i], s[j])
}

proof fn lemma_ranks_total(x: Entry, y: Entry)
    ensures
        ranks_before(x, y) || ranks_before(y, x),
{
}

proof fn lemma_ranks_transitive(x: Entry, y: Entry, z: Entry)
    requires
        ranks_before(x, y),
        ranks_before(y, z),
    ensures
        ranks_before(x, z),
{
    if x.2 != 0 {
        let (px, wx, py, wy, pz, wz) = (
            x.1 as int,
            x.2 as int,
            y.1 as int,
            y.2 as int,
            z.1 as int,
            z.2 as int,
        );
        assert(px * wz >= pz * wx) by (nonlinear_arith)
            requires
                px * wy >= py * wx,
                py * wz >= pz * wy,
                wx > 0,
                wy > 0,
                wz >= 0,
                px >= 0,
                pz >= 0,
        ;
    }
}

/// Decision order is ordered by ratio, as the relaxation bound needs.
pub proof fn lemma_ranked_ratio_sorted(s: Seq<Entry>)
    requires
        ranked(s),
    ensures
        ratio_sorted(s),
{
    assert forall|i: int, j: int| #![trigger s[i], s[j]] 0 <= i < j < s.len() implies (
    s[i].1 as int) * (s[j].2 as int) >= (s[j].1 as int) * (s[i].2 as int) by {
        assert(ranks_before(s[i], s[j]));
        if s[i].2 == 0 {
            assert((s[i].1 as int) * (s[j].2 as int) >= 0) by (nonlinear_arith);
        }
    }
}

fn ranks_before_exec(x: &Entry, y: &Entry) -> (r: bool)
    ensures
        r == ranks_before(*x, *y),
{
    if x.2 == 0 {
        true
    } else if y.2 == 0 {
        false
    } else {
        proof {
            lemma_u64_product(x.1 as u128, y.2 as u128);
            lemma_u64_product(y.1 as u128, x.2 as u128);
        }
        (x.1 as u128) * (y.2 as u128) >= (y.1 as u128) * (x.2 as u128)
    }
}

/// The items paired with their indices, in decision order: by non-increasing
/// profit/weight ratio. The ghost result gives each index's position.
pub fn sort_by_ratio<T: KnapsackItem>(items: &[T]) -> (r: (Vec<Entry>, Ghost<Seq<int>>))
    ensures
        lists(r.0@, pairs_of(items@), r.1@),
        ranked(r.0@),
{
    let ghost m = pairs_of(items@);
    let mut sorted: Vec<Entry> = Vec::new();
    let ghost mut pos: Seq<int> = Seq::empty();
    let mut i: usize = 0;
    while i < items.len()
        invariant
            m == pairs_of(items@),
            m.len() == items@.len(),
            i <= items@.len(),
            sorted@.len() == i,
            pos.len() == i,
            forall|j: int|
                0 <= j < i ==> (#[trigger] sorted@[j].0 as int) < i && pos[sorted@[j].0 as int]
                    == j && sorted@[j].1 == m[sorted@[j].0 as int].0 && sorted@[j].2 == m[sorted@[j].0 as int].1,
            forall|x: int| 0 <= x < i ==> 0 <= #[trigger] pos[x] < i && sorted@[pos[x]].0 == x,
            ranked(sorted@),
        decreases items@.len() - i,
    {
        let e: Entry = (i, items[i].profit(), items[i].weight());
        let mut p: usize = 0;
        while p < sorted.len() && ranks_before_exec(&sorted[p], &e)
            invariant
                p <= sorted@.len(),
                forall|j: int| 0 <= j < p ==> ranks_before(#[trigger] sorted@[j], e),
            decreases sorted@.len() - p,
        {
            p = p + 1;
        }
        let ghost old_s = sorted@;
        let ghost old_pos = pos;
        sorted.insert(p, e);
        proof {
            old_s.insert_ensures(p as int, e);
            let ns = sorted@;
            assert(ns == old_s.insert(p as int, e));
            pos = old_pos.map_values(|v: int| if v >= p { v + 1 } else { v }).push(p as int);
            assert forall|j: int| 0 <= j < i + 1 implies (#[trigger] ns[j].0 as int) < i + 1
                && pos[ns[j].0 as int] == j && ns[j].1 == m[ns[j].0 as int].0 && ns[j].2 == m[ns[j].0 as int].1 by {
                if j < p {
                    assert(ns[j] == old_s[j]);
                } else if j > p {
                    assert(ns[j] == old_s[j - 1]);
                }
            }
            assert forall|x: int| 0 <= x < i + 1 implies 0 <= #[trigger] pos[x] < i + 1 && ns[pos[x]].0 == x by {
                if x < i {
                    let v = old_pos[x];
                    assert(old_s[v].0 == x);
                    if v >= p {
                        assert(ns[v + 1] == old_s[v]);
                    } else {
                        assert(ns[v] == old_s[v]);
                    }
                }
            }
            assert forall|a: int, b: int| #![trigger ns[a], ns[b]] 0 <= a < b < ns.len() implies ranks_before(ns[a], ns[b]) by {
                if b < p {
                    assert(ns[a] == old_s[a] && ns[b] == old_s[b]);
                } else if b == p {
                    assert(ns[a] == old_s[a]);
                } else if a > p {
                    assert(ns[a] == old_s[a - 1] && ns[b] == old_s[b - 1]);
                } else if a == p {
                    assert(ns[b] == old_s[b - 1]);
                    lemma_ranks_total(old_s[p as int], e);
                    if b - 1 > p {
                        assert(ranks_before(old_s[p as int], old_s[b - 1]));
                        lemma_ranks_transitive(e, old_s[p as int], old_s[b - 1]);
                    }
                } else {
                    assert(ns[a] == old_s[a] && ns[b] == old_s[b - 1]);
                }
            }
        }
        i = i + 1;
    }
    (sorted, Ghost(pos))
}

} // verus!
