use vstd::prelude::*;
use crate::bound::{UpperBound, bound};
use crate::relax::{
    Entry,
    sel_sum,
    lp_num,
    lp_den,
    ratio_sorted,
    lemma_sum_split,
    lemma_sum_bounds,
    lemma_sum_empty,
    lemma_sum_congruent,
    lemma_relaxation_admissible,
};

verus! {

/// A partial assignment: the first `branch` entries in decision order are
/// decided, each either packed or skipped.
#[derive(Clone, Debug)]
pub struct KnapsackNode {
    /// How many entries, in decision order, are decided.
    pub branch: usize,
    /// Upper bound on the profit of any completion of this assignment.
    pub bound: UpperBound,
    /// Profit of the packed items.
    pub profit: u64,
    /// Capacity left after the packed items.
    pub capacity: u64,
    /// Original indices of the packed items.
    pub packed: Vec<usize>,
    /// Original indices of the skipped items.
    pub skipped: Vec<usize>,
}

/// `s` lists each index of `0..s.len()` once, and `pos` gives each index's
/// position in `s`.
pub open spec fn order_wf(s: Seq<Entry>, pos: Seq<int>) -> bool {
    &&& pos.len() == s.len()
    &&& s.len() <= usize::MAX
    &&& forall|j: int|
        0 <= j < s.len() ==> (#[trigger] s[j].0 as int) < s.len() && pos[s[j].0 as int] == j
    &&& forall|i: int| 0 <= i < s.len() ==> 0 <= #[trigger] pos[i] < s.len() && s[pos[i]].0 == i
}

/// Total profit of the entries, which every profit in the search stays under.
pub open spec fn total_profit(s: Seq<Entry>) -> int {
    sel_sum(s, Set::full(), 0, s.len() as int, false)
}

impl KnapsackNode {
    /// The node is a partial assignment of `s` (in decision order, with
    /// positions `pos`) under starting capacity `cap0`, with its profit,
    /// capacity left, and the exact relaxation bound of what is undecided.
    pub open spec fn wf(&self, s: Seq<Entry>, pos: Seq<int>, cap0: int) -> bool {
        let b = self.branch as int;
        let a = self.packed@.to_set();
        &&& b <= s.len()
        &&& self.packed@.no_duplicates()
        &&& self.skipped@.no_duplicates()
        &&& forall|x: usize|
            #[trigger] self.packed@.contains(x) ==> (x as int) < s.len() && pos[x as int] < b
        &&& forall|x: usize|
            #[trigger] self.skipped@.contains(x) ==> (x as int) < s.len() && pos[x as int] < b
        &&& forall|j: int|
            0 <= j < b ==> self.packed@.contains(#[trigger] s[j].0) != self.skipped@.contains(
                s[j].0,
            )
        &&& self.profit == sel_sum(s, a, 0, b, false)
        &&& self.capacity + sel_sum(s, a, 0, b, true) == cap0
        &&& self.bound.wf()
        &&& self.bound.den == lp_den(s, b, self.capacity as int)
        &&& self.bound.num() == lp_num(s, b, self.capacity as int) + self.profit * self.bound.den
    }

    /// `a` decides the entries before `branch` as this node does.
    pub open spec fn agrees(&self, s: Seq<Entry>, a: Set<usize>) -> bool {
        forall|j: int|
            0 <= j < self.branch ==> a.contains(#[trigger] s[j].0) == self.packed@.contains(s[j].0)
    }
}

/// Every node's bound is at least its own profit, and at least the profit of
/// every choice that agrees with it and fits in the starting capacity.
pub proof fn lemma_node_admissible(
    nd: KnapsackNode,
    s: Seq<Entry>,
    pos: Seq<int>,
    cap0: int,
    a: Set<usize>,
)
    requires
        order_wf(s, pos),
        ratio_sorted(s),
        nd.wf(s, pos, cap0),
        nd.agrees(s, a),
        sel_sum(s, a, 0, s.len() as int, true) <= cap0,
    ensures
        nd.bound.spec_at_least(nd.profit as int),
        nd.bound.spec_at_least(sel_sum(s, a, 0, s.len() as int, false)),
{
    let n = s.len() as int;
    let b = nd.branch as int;
    let pa = nd.packed@.to_set();
    lemma_sum_congruent(s, a, pa, 0, b, false);
    lemma_sum_congruent(s, a, pa, 0, b, true);
    lemma_sum_split(s, a, 0, b, n, false);
    lemma_sum_split(s, a, 0, b, n, true);
    lemma_relaxation_admissible(s, a, b, nd.capacity as int);
    lemma_sum_empty(s, b, n, true);
    lemma_relaxation_admissible(s, Set::empty(), b, nd.capacity as int);
    lemma_sum_empty(s, b, n, true);
    lemma_sum_empty(s, b, n, false);
    let d = nd.bound.den as int;
    let rest = sel_sum(s, a, b, n, false);
    assert(nd.profit * d + rest * d == (nd.profit + rest) * d) by (nonlinear_arith);
}

/// Every node's bound is at least its own profit.
pub proof fn lemma_bound_covers_profit(nd: KnapsackNode, s: Seq<Entry>, pos: Seq<int>, cap0: int)
    requires
        order_wf(s, pos),
        nd.wf(s, pos, cap0),
    ensures
        nd.bound.spec_at_least(nd.profit as int),
{
    let n = s.len() as int;
    let b = nd.branch as int;
    lemma_sum_empty(s, b, n, true);
    lemma_sum_empty(s, b, n, false);
    crate::relax::lemma_stop(s, b, nd.capacity as int);
    let t = crate::relax::stop(s, b, nd.capacity as int);
    let p = sel_sum(s, Set::full(), b, t, false);
    let w = sel_sum(s, Set::full(), b, t, true);
    lemma_sum_bounds(s, Set::empty(), b, t, false);
    if t < n {
        let pt = s[t].1 as int;
        let wt = s[t].2 as int;
        let c = nd.capacity as int;
        assert(p * wt + (c - w) * pt >= 0) by (nonlinear_arith)
            requires
                p >= 0,
                wt >= 0,
                c - w >= 0,
                pt >= 0,
        ;
    }
}

proof fn lemma_new_index_fresh(nd: KnapsackNode, s: Seq<Entry>, pos: Seq<int>, cap0: int)
    requires
        order_wf(s, pos),
        nd.wf(s, pos, cap0),
        nd.branch < s.len(),
    ensures
        !nd.packed@.contains(s[nd.branch as int].0),
        !nd.skipped@.contains(s[nd.branch as int].0),
        forall|j: int| 0 <= j < nd.branch ==> #[trigger] s[j].0 != s[nd.branch as int].0,
{
    let b = nd.branch as int;
    assert(pos[s[b].0 as int] == b);
    assert forall|j: int| 0 <= j < nd.branch implies #[trigger] s[j].0 != s[b].0 by {
        assert(pos[s[j].0 as int] == j);
    }
}

/// The root: nothing decided, the whole capacity left.
pub fn zero_node(sorted: &Vec<Entry>, max_weight: u64, Ghost(pos): Ghost<Seq<int>>) -> (r:
    KnapsackNode)
    requires
        order_wf(sorted@, pos),
        total_profit(sorted@) <= u64::MAX,
    ensures
        r.wf(sorted@, pos, max_weight as int),
        r.branch == 0,
        r.profit == 0,
        r.capacity == max_weight,
        r.packed@.len() == 0,
        r.skipped@.len() == 0,
{
    let r = KnapsackNode {
        branch: 0,
        packed: Vec::new(),
        skipped: Vec::new(),
        profit: 0,
        capacity: max_weight,
        bound: bound(sorted, 0, max_weight),
    };
    proof {
        assert(sel_sum(sorted@, r.packed@.to_set(), 0, 0, false) == 0);
        assert(sel_sum(sorted@, r.packed@.to_set(), 0, 0, true) == 0);
        assert(r.profit * r.bound.den == 0) by (nonlinear_arith)
            requires
                r.profit == 0,
        ;
        assert(r.bound.num() == lp_num(sorted@, 0, r.capacity as int) + r.profit * r.bound.den);
        assert(r.packed@.no_duplicates() && r.skipped@.no_duplicates());
    }
    r
}

/// The child that packs the next undecided entry, when there is one and it
/// fits in the capacity left.
pub fn pack_item(node: &KnapsackNode, sorted: &Vec<Entry>, Ghost(pos): Ghost<Seq<int>>, Ghost(
    cap0,
): Ghost<int>) -> (r: Option<KnapsackNode>)
    requires
        order_wf(sorted@, pos),
        total_profit(sorted@) <= u64::MAX,
        node.wf(sorted@, pos, cap0),
    ensures
        r.is_some() == (node.branch < sorted@.len() && sorted@[node.branch as int].2
            <= node.capacity),
        r matches Some(c) ==> {
            &&& c.wf(sorted@, pos, cap0)
            &&& c.branch == node.branch + 1
            &&& c.packed@ == node.packed@.push(sorted@[node.branch as int].0)
            &&& c.skipped@ == node.skipped@
            &&& c.profit == node.profit + sorted@[node.branch as int].1
            &&& c.capacity == node.capacity - sorted@[node.branch as int].2
        },
{
    if node.branch < sorted.len() && sorted[node.branch].2 <= node.capacity {
        let ghost s = sorted@;
        let ghost n = s.len() as int;
        let ghost b = node.branch as int;
        let ghost full = Set::<usize>::full();
        let (index, p, w) = sorted[node.branch];
        let mut next_packed = node.packed.clone();
        assert(next_packed@ == node.packed@);
        next_packed.push(index);
        let ghost a = node.packed@.to_set();
        let ghost a2 = next_packed@.to_set();
        proof {
            lemma_new_index_fresh(*node, s, pos, cap0);
            assert forall|j: int| 0 <= j < b implies a.contains(#[trigger] s[j].0) == a2.contains(
                s[j].0,
            ) by {
                assert(next_packed@.contains(s[j].0) ==> node.packed@.contains(s[j].0) || s[j].0
                    == index) by {
                    if next_packed@.contains(s[j].0) {
                        let k = choose|k: int|
                            0 <= k < next_packed@.len() && next_packed@[k] == s[j].0;
                        if k < node.packed@.len() {
                            assert(node.packed@[k] == s[j].0);
                        }
                    }
                }
                if node.packed@.contains(s[j].0) {
                    let k = choose|k: int| 0 <= k < node.packed@.len() && node.packed@[k] == s[j].0;
                    assert(next_packed@[k] == s[j].0);
                }
            }
            lemma_sum_congruent(s, a, a2, 0, b, false);
            lemma_sum_congruent(s, a, a2, 0, b, true);
            assert(next_packed@[node.packed@.len() as int] == index);
            assert(a2.contains(index));
            assert(sel_sum(s, a2, 0, b + 1, false) == sel_sum(s, a2, 0, b, false) + p);
            assert(sel_sum(s, a2, 0, b + 1, true) == sel_sum(s, a2, 0, b, true) + w);
            lemma_sum_bounds(s, a, 0, b, false);
            assert(full.contains(s[b].0));
            assert(sel_sum(s, full, 0, b + 1, false) == sel_sum(s, full, 0, b, false) + p);
            lemma_sum_split(s, full, 0, b + 1, n, false);
            lemma_sum_bounds(s, full, b + 1, n, false);
        }
        let next_profit = node.profit + p;
        let next_capacity = node.capacity - w;
        let next_branch = node.branch + 1;
        let next_bound = bound(sorted, next_branch, next_capacity).plus(next_profit);
        let c = KnapsackNode {
            packed: next_packed,
            skipped: node.skipped.clone(),
            profit: next_profit,
            branch: next_branch,
            capacity: next_capacity,
            bound: next_bound,
        };
        proof {
            assert(c.skipped@ == node.skipped@);
            assert forall|x: usize| #[trigger] c.packed@.contains(x) implies (x as int) < n && pos[x as int] < b + 1 by {
                let k = choose|k: int| 0 <= k < c.packed@.len() && c.packed@[k] == x;
                if k < node.packed@.len() {
                    assert(node.packed@[k] == x);
                    assert(node.packed@.contains(x));
                } else {
                    assert(pos[s[b].0 as int] == b);
                }
            }
            assert forall|j: int| 0 <= j < b + 1 implies c.packed@.contains(#[trigger] s[j].0) != c.skipped@.contains(s[j].0) by {
                if j < b {
                    assert(a.contains(s[j].0) == a2.contains(s[j].0));
                }
            }
        }
        Some(c)
    } else {
        None
    }
}

/// The child that skips the next undecided entry, when there is one.
pub fn skip_item(node: &KnapsackNode, sorted: &Vec<Entry>, Ghost(pos): Ghost<Seq<int>>, Ghost(
    cap0,
): Ghost<int>) -> (r: Option<KnapsackNode>)
    requires
        order_wf(sorted@, pos),
        total_profit(sorted@) <= u64::MAX,
        node.wf(sorted@, pos, cap0),
    ensures
        r.is_some() == (node.branch < sorted@.len()),
        r matches Some(c) ==> {
            &&& c.wf(sorted@, pos, cap0)
            &&& c.branch == node.branch + 1
            &&& c.packed@ == node.packed@
            &&& c.skipped@ == node.skipped@.push(sorted@[node.branch as int].0)
            &&& c.profit == node.profit
            &&& c.capacity == node.capacity
        },
{
    if node.branch < sorted.len() {
        let ghost s = sorted@;
        let ghost n = s.len() as int;
        let ghost b = node.branch as int;
        let ghost full = Set::<usize>::full();
        let index = sorted[node.branch].0;
        let mut next_skipped = node.skipped.clone();
        assert(next_skipped@ == node.skipped@);
        next_skipped.push(index);
        let next_branch = node.branch + 1;
        let packed = node.packed.clone();
        assert(packed@ == node.packed@);
        let ghost a = node.packed@.to_set();
        proof {
            lemma_new_index_fresh(*node, s, pos, cap0);
            assert(!a.contains(index));
            assert(sel_sum(s, a, 0, b + 1, false) == sel_sum(s, a, 0, b, false));
            assert(sel_sum(s, a, 0, b + 1, true) == sel_sum(s, a, 0, b, true));
            lemma_sum_bounds(s, a, 0, b, false);
            lemma_sum_split(s, full, 0, b + 1, n, false);
            lemma_sum_bounds(s, full, b + 1, n, false);
            lemma_sum_bounds(s, full, 0, b + 1, false);
            lemma_sum_split(s, full, 0, b, b + 1, false);
            lemma_sum_bounds(s, full, b, b + 1, false);
        }
        let next_bound = bound(sorted, next_branch, node.capacity).plus(node.profit);
        let c = KnapsackNode {
            packed,
            skipped: next_skipped,
            profit: node.profit,
            branch: next_branch,
            capacity: node.capacity,
            bound: next_bound,
        };
        proof {
            assert forall|x: usize| #[trigger] c.skipped@.contains(x) implies (x as int) < n
                && pos[x as int] < b + 1 by {
                let k = choose|k: int| 0 <= k < c.skipped@.len() && c.skipped@[k] == x;
                if k < node.skipped@.len() {
                    assert(node.skipped@[k] == x);
                    assert(node.skipped@.contains(x));
                } else {
                    assert(pos[s[b].0 as int] == b);
                }
            }
            assert forall|j: int| 0 <= j < b + 1 implies c.packed@.contains(#[trigger] s[j].0)
                != c.skipped@.contains(s[j].0) by {
                if j < b {
                    if c.skipped@.contains(s[j].0) {
                        let k = choose|k: int| 0 <= k < c.skipped@.len() && c.skipped@[k] == s[j].0;
                        if k < node.skipped@.len() {
                            assert(node.skipped@[k] == s[j].0);
                        }
                    }
                    if node.skipped@.contains(s[j].0) {
                        let k = choose|k: int| 0 <= k < node.skipped@.len() && node.skipped@[k]
                            == s[j].0;
                        assert(c.skipped@[k] == s[j].0);
                    }
                } else {
                    assert(c.skipped@[node.skipped@.len() as int] == index);
                }
            }
        }
        Some(c)
    } else {
        None
    }
}

impl KnapsackNode {
    /// A copy of this node.
    pub fn duplicate(&self) -> (r: KnapsackNode)
        ensures
            r.branch == self.branch,
            r.bound == self.bound,
            r.profit == self.profit,
            r.capacity == self.capacity,
            r.packed@ == self.packed@,
            r.skipped@ == self.skipped@,
    {
        let packed = self.packed.clone();
        let skipped = self.skipped.clone();
        assert(packed@ == self.packed@);
        assert(skipped@ == self.skipped@);
        KnapsackNode {
            branch: self.branch,
            bound: self.bound,
            profit: self.profit,
            capacity: self.capacity,
            packed,
            skipped,
        }
    }
}

} // verus!
