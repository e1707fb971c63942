use vstd::prelude::*;
use crate::choice::{profit_of, weight_of, item_sum, lemma_reindex};
use crate::item::{KnapsackItem, pairs_of};
use crate::order::{sort_by_ratio, lemma_ranked_ratio_sorted};
use crate::relax::{lp_num, lp_den, lemma_sum_empty, Entry, sel_sum, ratio_sorted, lemma_sum_congruent, lemma_sum_split, lemma_sum_bounds};
use crate::node::{
    KnapsackNode,
    order_wf,
    total_profit,
    pack_item,
    skip_item,
    zero_node,
    lemma_node_admissible,
    lemma_bound_covers_profit,
};

verus! {

/// Number of nodes in a complete decision tree over `d` undecided entries.
pub open spec fn tree_size(d: nat) -> nat
    decreases d,
{
    if d == 0 {
        1
    } else {
        1 + 2 * tree_size((d - 1) as nat)
    }
}

/// How many nodes the pending nodes of a stack may still generate.
pub open spec fn stack_measure(st: Seq<KnapsackNode>, n: int) -> nat
    decreases st.len(),
{
    if st.len() == 0 {
        0
    } else {
        stack_measure(st.drop_last(), n) + tree_size((n - st.last().branch) as nat)
    }
}

/// `a` chooses among the entries of `s` within capacity `cap0`.
pub open spec fn fits(s: Seq<Entry>, a: Set<usize>, cap0: int) -> bool {
    sel_sum(s, a, 0, s.len() as int, true) <= cap0
}

/// Some node of the stack agrees with `a`.
pub open spec fn pending(st: Seq<KnapsackNode>, s: Seq<Entry>, a: Set<usize>) -> bool {
    exists|k: int| 0 <= k < st.len() && #[trigger] st[k].agrees(s, a)
}

/// Every choice that fits and agrees with `root` is either no better than
/// `best` or still reachable from a pending node.
pub open spec fn covered(
    st: Seq<KnapsackNode>,
    best: KnapsackNode,
    s: Seq<Entry>,
    cap0: int,
    root: KnapsackNode,
) -> bool {
    forall|a: Set<usize>|
        #[trigger] fits(s, a, cap0) && root.agrees(s, a) ==> sel_sum(s, a, 0, s.len() as int, false)
            <= best.profit || pending(st, s, a)
}

/// `x` and `y` hold the same values.
pub open spec fn same_node(x: KnapsackNode, y: KnapsackNode) -> bool {
    &&& x.branch == y.branch
    &&& x.bound == y.bound
    &&& x.profit == y.profit
    &&& x.capacity == y.capacity
    &&& x.packed@ == y.packed@
    &&& x.skipped@ == y.skipped@
}

/// `c` keeps every decision of `root`.
pub open spec fn extends(root: KnapsackNode, c: KnapsackNode) -> bool {
    &&& forall|x: usize| #[trigger] root.packed@.contains(x) ==> c.packed@.contains(x)
    &&& forall|x: usize| #[trigger] root.skipped@.contains(x) ==> c.skipped@.contains(x)
}

/// The best node is the start node, untouched, or a complete assignment of
/// strictly higher profit.
pub open spec fn best_shape(best: KnapsackNode, root: KnapsackNode, n: int) -> bool {
    same_node(best, root) || (best.branch == n && best.profit > root.profit)
}

/// The search invariant shared by every step from the start node `root`.
pub open spec fn search_wf(
    st: Seq<KnapsackNode>,
    best: KnapsackNode,
    s: Seq<Entry>,
    pos: Seq<int>,
    cap0: int,
    root: KnapsackNode,
) -> bool {
    &&& forall|k: int|
        0 <= k < st.len() ==> (#[trigger] st[k]).wf(s, pos, cap0) && extends(root, st[k])
    &&& best.wf(s, pos, cap0)
    &&& extends(root, best)
    &&& best_shape(best, root, s.len() as int)
}

/// `c` is the child of `nd` that packs entry `nd.branch`.
pub open spec fn is_pack_child(
    nd: KnapsackNode,
    c: KnapsackNode,
    s: Seq<Entry>,
    pos: Seq<int>,
    cap0: int,
) -> bool {
    &&& c.wf(s, pos, cap0)
    &&& c.branch == nd.branch + 1
    &&& c.packed@ == nd.packed@.push(s[nd.branch as int].0)
    &&& c.skipped@ == nd.skipped@
    &&& c.profit == nd.profit + s[nd.branch as int].1
    &&& c.capacity == nd.capacity - s[nd.branch as int].2
}

/// `c` is the child of `nd` that skips entry `nd.branch`.
pub open spec fn is_skip_child(
    nd: KnapsackNode,
    c: KnapsackNode,
    s: Seq<Entry>,
    pos: Seq<int>,
    cap0: int,
) -> bool {
    &&& c.wf(s, pos, cap0)
    &&& c.branch == nd.branch + 1
    &&& c.packed@ == nd.packed@
    &&& c.skipped@ == nd.skipped@.push(s[nd.branch as int].0)
    &&& c.profit == nd.profit
    &&& c.capacity == nd.capacity
}

/// Denominator of the bound of the packing child of `nd`.
pub open spec fn pack_den(nd: KnapsackNode, s: Seq<Entry>) -> int {
    lp_den(s, nd.branch + 1, nd.capacity - s[nd.branch as int].2)
}

/// Numerator of the bound of the packing child of `nd`.
pub open spec fn pack_num(nd: KnapsackNode, s: Seq<Entry>) -> int {
    lp_num(s, nd.branch + 1, nd.capacity - s[nd.branch as int].2) + (nd.profit + s[
        nd.branch as int
    ].1) * pack_den(nd, s)
}

/// Denominator of the bound of the skipping child of `nd`.
pub open spec fn skip_den(nd: KnapsackNode, s: Seq<Entry>) -> int {
    lp_den(s, nd.branch + 1, nd.capacity as int)
}

/// Numerator of the bound of the skipping child of `nd`.
pub open spec fn skip_num(nd: KnapsackNode, s: Seq<Entry>) -> int {
    lp_num(s, nd.branch + 1, nd.capacity as int) + nd.profit * skip_den(nd, s)
}

/// The packing child of `nd` exists and its bound reaches `bp`.
pub open spec fn pack_kept(nd: KnapsackNode, s: Seq<Entry>, bp: int) -> bool {
    nd.branch < s.len() && s[nd.branch as int].2 <= nd.capacity && pack_num(nd, s) >= bp
        * pack_den(nd, s)
}

/// The skipping child of `nd` exists and its bound reaches `bp`.
pub open spec fn skip_kept(nd: KnapsackNode, s: Seq<Entry>, bp: int) -> bool {
    nd.branch < s.len() && skip_num(nd, s) >= bp * skip_den(nd, s)
}

/// The packing child's bound is at least the skipping child's.
pub open spec fn pack_on_top(nd: KnapsackNode, s: Seq<Entry>) -> bool {
    pack_num(nd, s) * skip_den(nd, s) >= skip_num(nd, s) * pack_den(nd, s)
}

proof fn lemma_push_keeps(v: Seq<usize>, e: usize)
    ensures
        forall|x: usize| #[trigger] v.contains(x) ==> v.push(e).contains(x),
{
    assert forall|x: usize| #[trigger] v.contains(x) implies v.push(e).contains(x) by {
        let k = choose|k: int| 0 <= k < v.len() && v[k] == x;
        assert(v.push(e)[k] == x);
    }
}

proof fn lemma_measure_push(st: Seq<KnapsackNode>, x: KnapsackNode, n: int)
    ensures
        stack_measure(st.push(x), n) == stack_measure(st, n) + tree_size((n - x.branch) as nat),
{
    assert(st.push(x).drop_last() == st);
}

/// The child that decides entry `b` as `a` does agrees with `a`.
proof fn lemma_child_agrees(
    nd: KnapsackNode,
    c: KnapsackNode,
    s: Seq<Entry>,
    pos: Seq<int>,
    a: Set<usize>,
)
    requires
        order_wf(s, pos),
        nd.branch < s.len(),
        nd.agrees(s, a),
        c.branch == nd.branch + 1,
        c.packed@ == nd.packed@ || c.packed@ == nd.packed@.push(s[nd.branch as int].0),
        c.packed@.contains(s[nd.branch as int].0) == a.contains(s[nd.branch as int].0),
    ensures
        c.agrees(s, a),
{
    let b = nd.branch as int;
    assert forall|j: int| 0 <= j < c.branch implies a.contains(#[trigger] s[j].0)
        == c.packed@.contains(s[j].0) by {
        if j < b {
            assert(pos[s[j].0 as int] == j);
            assert(pos[s[b].0 as int] == b);
            if c.packed@ != nd.packed@ {
                if c.packed@.contains(s[j].0) {
                    let k = choose|k: int| 0 <= k < c.packed@.len() && c.packed@[k] == s[j].0;
                    if k < nd.packed@.len() {
                        assert(nd.packed@[k] == s[j].0);
                    }
                }
                if nd.packed@.contains(s[j].0) {
                    let k = choose|k: int| 0 <= k < nd.packed@.len() && nd.packed@[k] == s[j].0;
                    assert(c.packed@[k] == s[j].0);
                }
            }
        }
    }
}

/// One step of the search on a popped node: its children that may still beat
/// `best` are pushed, the more promising one last; a node with no such child
/// replaces `best` when its profit is strictly higher.
pub fn expand(
    node: KnapsackNode,
    stack: &mut Vec<KnapsackNode>,
    best: &mut KnapsackNode,
    sorted: &Vec<Entry>,
    Ghost(pos): Ghost<Seq<int>>,
    Ghost(cap0): Ghost<int>,
    Ghost(root): Ghost<KnapsackNode>,
)
    requires
        order_wf(sorted@, pos),
        ratio_sorted(sorted@),
        total_profit(sorted@) <= u64::MAX,
        search_wf(old(stack)@.push(node), *old(best), sorted@, pos, cap0, root),
        covered(old(stack)@.push(node), *old(best), sorted@, cap0, root),
    ensures
        ({
            let s = sorted@;
            let st0 = old(stack)@;
            let st1 = final(stack)@;
            let k0 = st0.len() as int;
            let pk = pack_kept(node, s, old(best).profit as int);
            let sk = skip_kept(node, s, old(best).profit as int);
            &&& st1.len() == k0 + (if pk {
                1int
            } else {
                0int
            }) + (if sk {
                1int
            } else {
                0int
            })
            &&& st1.subrange(0, k0) == st0
            &&& pk && sk && pack_on_top(node, s) ==> is_skip_child(node, st1[k0], s, pos, cap0)
                && is_pack_child(node, st1[k0 + 1], s, pos, cap0)
            &&& pk && sk && !pack_on_top(node, s) ==> is_pack_child(node, st1[k0], s, pos, cap0)
                && is_skip_child(node, st1[k0 + 1], s, pos, cap0)
            &&& pk && !sk ==> is_pack_child(node, st1[k0], s, pos, cap0)
            &&& !pk && sk ==> is_skip_child(node, st1[k0], s, pos, cap0)
            &&& if !pk && !sk && node.profit > old(best).profit {
                *final(best) == node
            } else {
                *final(best) == *old(best)
            }
        }),
        search_wf(final(stack)@, *final(best), sorted@, pos, cap0, root),
        covered(final(stack)@, *final(best), sorted@, cap0, root),
        final(best).profit >= old(best).profit,
        stack_measure(final(stack)@, sorted@.len() as int) < stack_measure(
            old(stack)@.push(node),
            sorted@.len() as int,
        ),
{
    let ghost s = sorted@;
    let ghost n = s.len() as int;
    let ghost b = node.branch as int;
    let ghost st0 = stack@;
    let ghost best0 = *best;
    let ghost nd = node;
    proof {
        assert(st0.push(node)[st0.len() as int] == node);
        assert forall|k: int| 0 <= k < st0.len() implies (#[trigger] st0[k]).wf(s, pos, cap0)
            && extends(root, st0[k]) by {
            assert(st0.push(node)[k] == st0[k]);
        }
        lemma_measure_push(st0, node, n);
        if b < n {
            lemma_push_keeps(node.packed@, s[b].0);
            lemma_push_keeps(node.skipped@, s[b].0);
        }
    }
    let l_node = pack_item(&node, sorted, Ghost(pos), Ghost(cap0));
    let r_node = skip_item(&node, sorted, Ghost(pos), Ghost(cap0));
    let ghost lo = l_node;
    let ghost ro = r_node;
    let l_node = match l_node {
        Some(l) => if l.bound.at_least(best.profit) {
            Some(l)
        } else {
            None
        },
        None => None,
    };
    let r_node = match r_node {
        Some(r) => if r.bound.at_least(best.profit) {
            Some(r)
        } else {
            None
        },
        None => None,
    };
    let ghost lf = l_node;
    let ghost rf = r_node;
    match (l_node, r_node) {
        (Some(l), Some(r)) => {
            if l.bound.ge(&r.bound) {
                stack.push(r);
                stack.push(l);
                proof {
                    lemma_measure_push(st0, r, n);
                    lemma_measure_push(st0.push(r), l, n);
                    assert(stack@[st0.len() as int + 1] == l);
                    assert(stack@[st0.len() as int] == r);
                }
            } else {
                stack.push(l);
                stack.push(r);
                proof {
                    lemma_measure_push(st0, l, n);
                    lemma_measure_push(st0.push(l), r, n);
                    assert(stack@[st0.len() as int] == l);
                    assert(stack@[st0.len() as int + 1] == r);
                }
            }
        },
        (Some(l), None) => {
            stack.push(l);
            proof {
                lemma_measure_push(st0, l, n);
                assert(stack@[st0.len() as int] == l);
            }
        },
        (None, Some(r)) => {
            stack.push(r);
            proof {
                lemma_measure_push(st0, r, n);
                assert(stack@[st0.len() as int] == r);
            }
        },
        (None, None) => {
            if node.profit > best.profit {
                *best = node;
            }
        },
    }
    proof {
        let st1 = stack@;
        let best1 = *best;
        assert(forall|k: int| 0 <= k < st0.len() ==> st1[k] == st0[k]);
        assert(lf matches Some(l) ==> exists|k: int| 0 <= k < st1.len() && st1[k] == l);
        assert(rf matches Some(r) ==> exists|k: int| 0 <= k < st1.len() && st1[k] == r);
        assert(forall|k: int|
            st0.len() <= k < st1.len() ==> (lf matches Some(l) && #[trigger] st1[k] == l) || (
            rf matches Some(r) && st1[k] == r));
        assert(best1 == best0 || (best1 == nd && lf is None && rf is None && nd.profit
            > best0.profit));
        assert(lf is None && rf is None ==> best1.profit >= nd.profit);
        assert(lf matches Some(l) ==> lo == Some(l));
        assert(rf matches Some(r) ==> ro == Some(r));
        assert(lo is Some && lf is None ==> !lo.unwrap().bound.spec_at_least(best0.profit as int));
        assert(ro is Some && rf is None ==> !ro.unwrap().bound.spec_at_least(best0.profit as int));
        // A skipped child always survives a nd that could improve on `best`.
        if b < n && nd.profit > best0.profit {
            let r = ro.unwrap();
            lemma_bound_covers_profit(r, s, pos, cap0);
            let d = r.bound.den as int;
            assert(r.profit * d >= best0.profit * d) by (nonlinear_arith)
                requires
                    r.profit >= best0.profit,
                    d > 0,
            ;
        }
        assert(st1.subrange(0, st0.len() as int) =~= st0);
        assert forall|k: int| 0 <= k < st1.len() implies (#[trigger] st1[k]).wf(s, pos, cap0)
            && extends(root, st1[k]) by {
            if k < st0.len() {
                assert(st1[k] == st0[k]);
            }
        }
        assert forall|a: Set<usize>| #[trigger] fits(s, a, cap0) && root.agrees(s, a) implies sel_sum(s, a, 0, n, false)
            <= best1.profit || pending(st1, s, a) by {
            if sel_sum(s, a, 0, n, false) > best0.profit {
                let st = st0.push(nd);
                assert(pending(st, s, a));
                let k = choose|k: int| 0 <= k < st.len() && #[trigger] st[k].agrees(s, a);
                if k < st0.len() {
                    assert(st[k] == st0[k]);
                    assert(st1[k] == st0[k]);
                    assert(pending(st1, s, a));
                } else {
                    assert(st[k] == nd);
                    let pa = nd.packed@.to_set();
                    if b == n {
                        lemma_sum_congruent(s, a, pa, 0, n, false);
                    } else {
                        let e = s[b].0;
                        lemma_sum_split(s, a, 0, b, n, true);
                        lemma_sum_split(s, a, b, b + 1, n, true);
                        lemma_sum_bounds(s, a, b + 1, n, true);
                        lemma_sum_congruent(s, a, pa, 0, b, true);
                        if a.contains(e) {
                            assert(sel_sum(s, a, b, b, true) == 0);
                            assert(sel_sum(s, a, b, b + 1, true) == s[b].2);
                            let l = lo.unwrap();
                            lemma_child_agrees(nd, l, s, pos, a);
                            if lf is None {
                                lemma_node_admissible(l, s, pos, cap0, a);
                                let d = l.bound.den as int;
                                let x = sel_sum(s, a, 0, n, false);
                                assert(x < best0.profit) by (nonlinear_arith)
                                    requires
                                        l.bound.num() >= x * d,
                                        l.bound.num() < best0.profit * d,
                                        d > 0,
                                ;
                            }
                            let j = choose|j: int| 0 <= j < st1.len() && st1[j] == l;
                            assert(st1[j].agrees(s, a));
                        } else {
                            let r = ro.unwrap();
                            assert(r.packed@ == nd.packed@);
                            lemma_child_agrees(nd, r, s, pos, a);
                            if rf is None {
                                lemma_node_admissible(r, s, pos, cap0, a);
                                let d = r.bound.den as int;
                                let x = sel_sum(s, a, 0, n, false);
                                assert(x < best0.profit) by (nonlinear_arith)
                                    requires
                                        r.bound.num() >= x * d,
                                        r.bound.num() < best0.profit * d,
                                        d > 0,
                                ;
                            }
                            let j = choose|j: int| 0 <= j < st1.len() && st1[j] == r;
                            assert(st1[j].agrees(s, a));
                        }
                    }
                }
            }
        }
    }
}

/// Runs the search from `node` until no node is pending, and returns the
/// best node found: `node` itself when no completion of it has strictly more
/// profit, else a complete assignment that keeps `node`'s decisions and whose
/// profit no completion of `node` within the starting capacity exceeds.
pub fn solve_node(
    node: &KnapsackNode,
    sorted: &Vec<Entry>,
    Ghost(pos): Ghost<Seq<int>>,
    Ghost(cap0): Ghost<int>,
) -> (r: KnapsackNode)
    requires
        order_wf(sorted@, pos),
        ratio_sorted(sorted@),
        total_profit(sorted@) <= u64::MAX,
        node.wf(sorted@, pos, cap0),
    ensures
        r.wf(sorted@, pos, cap0),
        r.profit >= node.profit,
        extends(*node, r),
        same_node(r, *node) || r.branch == sorted@.len(),
        r.profit == node.profit ==> same_node(r, *node),
        forall|a: Set<usize>|
            #[trigger] fits(sorted@, a, cap0) && node.agrees(sorted@, a) ==> sel_sum(
                sorted@,
                a,
                0,
                sorted@.len() as int,
                false,
            ) <= r.profit,
{
    let ghost s = sorted@;
    let ghost n = s.len() as int;
    let ghost root = *node;
    let mut stack: Vec<KnapsackNode> = Vec::new();
    let mut best = node.duplicate();
    stack.push(node.duplicate());
    proof {
        assert(stack@[0].wf(s, pos, cap0) && extends(root, stack@[0]));
        assert forall|a: Set<usize>| #[trigger] fits(s, a, cap0) && root.agrees(s, a) implies sel_sum(
            s,
            a,
            0,
            n,
            false,
        ) <= best.profit || pending(stack@, s, a) by {
            assert(stack@[0].agrees(s, a));
        }
    }
    while stack.len() > 0
        invariant
            order_wf(sorted@, pos),
            ratio_sorted(sorted@),
            total_profit(sorted@) <= u64::MAX,
            s == sorted@,
            n == s.len(),
            search_wf(stack@, best, s, pos, cap0, root),
            covered(stack@, best, s, cap0, root),
        decreases stack_measure(stack@, n),
    {
        let ghost st = stack@;
        let nd = stack.pop().unwrap();
        proof {
            assert(st == stack@.push(nd));
        }
        expand(nd, &mut stack, &mut best, sorted, Ghost(pos), Ghost(cap0), Ghost(root));
    }
    proof {
        assert forall|a: Set<usize>| #[trigger] fits(s, a, cap0) && root.agrees(s, a) implies sel_sum(
            s,
            a,
            0,
            n,
            false,
        ) <= best.profit by {
            if pending(stack@, s, a) {
                let k = choose|k: int| 0 <= k < stack@.len() && #[trigger] stack@[k].agrees(s, a);
            }
        }
    }
    best
}

/// `r` solves the knapsack instance `m` (profit, weight pairs) with capacity
/// `cap`: `packed` and `skipped` are disjoint sets of item indices, `packed`
/// fits in `cap` with `capacity` the room left, `profit` is the profit of
/// `packed`, and no choice of items that fits has more profit. Either every
/// item is decided, or nothing is and the profit is zero; a profit of zero
/// comes with nothing decided.
pub open spec fn is_solution(m: Seq<(u64, u64)>, cap: int, r: KnapsackNode) -> bool {
    let a = r.packed@.to_set();
    &&& r.packed@.no_duplicates()
    &&& r.skipped@.no_duplicates()
    &&& forall|x: usize| #[trigger] r.packed@.contains(x) ==> (x as int) < m.len()
    &&& forall|x: usize| #[trigger] r.skipped@.contains(x) ==> (x as int) < m.len()
    &&& forall|x: usize| !(#[trigger] r.packed@.contains(x) && r.skipped@.contains(x))
    &&& (forall|x: usize|
        (x as int) < m.len() ==> #[trigger] r.packed@.contains(x) || r.skipped@.contains(x)) || (
    r.packed@.len() == 0 && r.skipped@.len() == 0 && r.profit == 0)
    &&& r.profit == 0 ==> r.packed@.len() == 0 && r.skipped@.len() == 0
    &&& r.profit == profit_of(m, a)
    &&& r.capacity + weight_of(m, a) == cap
    &&& forall|b: Set<usize>| #[trigger] weight_of(m, b) <= cap ==> profit_of(m, b) <= r.profit
}

/// Positions from the node's branch on hold nothing it packed.
proof fn lemma_packed_prefix(nd: KnapsackNode, s: Seq<Entry>, pos: Seq<int>, cap0: int, wt: bool)
    requires
        order_wf(s, pos),
        nd.wf(s, pos, cap0),
    ensures
        sel_sum(s, nd.packed@.to_set(), 0, s.len() as int, wt) == sel_sum(
            s,
            nd.packed@.to_set(),
            0,
            nd.branch as int,
            wt,
        ),
{
    let n = s.len() as int;
    let b = nd.branch as int;
    let a = nd.packed@.to_set();
    lemma_sum_split(s, a, 0, b, n, wt);
    assert forall|j: int| b <= j < n implies a.contains(#[trigger] s[j].0) == Set::<usize>::empty().contains(s[j].0) by {
        assert(pos[s[j].0 as int] == j);
    }
    lemma_sum_congruent(s, a, Set::empty(), b, n, wt);
    lemma_sum_empty(s, b, n, wt);
}

/// Solves the 0/1 knapsack instance given by `items` and the capacity
/// `max_weight`: returns a choice of items of greatest total profit among
/// those whose total weight is at most `max_weight`.
pub fn solve<T: KnapsackItem>(items: &[T], max_weight: u64) -> (r: KnapsackNode)
    requires
        profit_of(pairs_of(items@), Set::full()) <= u64::MAX,
    ensures
        is_solution(pairs_of(items@), max_weight as int, r),
{
    let ghost m = pairs_of(items@);
    let ghost cap0 = max_weight as int;
    let (sorted, Ghost(pos)) = sort_by_ratio(items);
    let ghost s = sorted@;
    let ghost n = s.len() as int;
    proof {
        lemma_ranked_ratio_sorted(s);
        lemma_reindex(s, m, pos, Set::full(), false);
    }
    let root = zero_node(&sorted, max_weight, Ghost(pos));
    let r = solve_node(&root, &sorted, Ghost(pos), Ghost(cap0));
    proof {
        let a = r.packed@.to_set();
        let b = r.branch as int;
        lemma_packed_prefix(r, s, pos, cap0, false);
        lemma_packed_prefix(r, s, pos, cap0, true);
        lemma_reindex(s, m, pos, a, false);
        lemma_reindex(s, m, pos, a, true);
        assert forall|c: Set<usize>| #[trigger] weight_of(m, c) <= cap0 implies profit_of(m, c) <= r.profit by {
            lemma_reindex(s, m, pos, c, false);
            lemma_reindex(s, m, pos, c, true);
            assert(fits(s, c, cap0));
        }
        assert forall|x: usize| !(#[trigger] r.packed@.contains(x) && r.skipped@.contains(x)) by {
            if r.packed@.contains(x) {
                let j = pos[x as int];
                assert(s[j].0 == x);
            }
        }
        if b == n {
            assert forall|x: usize| (x as int) < m.len() implies #[trigger] r.packed@.contains(x) || r.skipped@.contains(x) by {
                let j = pos[x as int];
                assert(s[j].0 == x);
            }
        }
    }
    r
}

/// A solution of an instance with no items packs nothing and has profit zero,
/// whatever the capacity.
pub proof fn lemma_no_items(cap: int, r: KnapsackNode)
    requires
        is_solution(Seq::empty(), cap, r),
    ensures
        r.profit == 0,
        r.packed@.len() == 0,
{
    if r.packed@.len() > 0 {
        assert(r.packed@.contains(r.packed@[0]));
    }
}

proof fn lemma_weightless_choice(m: Seq<(u64, u64)>, a: Set<usize>, k: int)
    requires
        0 <= k <= m.len(),
        forall|i: int| 0 <= i < m.len() ==> #[trigger] m[i].1 > 0,
        item_sum(m, a, k, true) <= 0,
    ensures
        item_sum(m, a, k, false) == 0,
        item_sum(m, a, k, true) == 0,
    decreases k,
{
    if k > 0 {
        assert(m[k - 1].1 > 0);
        if a.contains((k - 1) as usize) {
            assert(item_sum(m, a, k - 1, true) >= 0) by {
                lemma_item_sum_nonneg(m, a, k - 1, true);
            }
        }
        lemma_weightless_choice(m, a, k - 1);
    }
}

proof fn lemma_item_sum_nonneg(m: Seq<(u64, u64)>, a: Set<usize>, k: int, wt: bool)
    ensures
        item_sum(m, a, k, wt) >= 0,
    decreases k,
{
    if k > 0 {
        lemma_item_sum_nonneg(m, a, k - 1, wt);
    }
}

/// With capacity zero and every weight positive, a solution has profit zero.
pub proof fn lemma_zero_capacity(m: Seq<(u64, u64)>, r: KnapsackNode)
    requires
        is_solution(m, 0, r),
        forall|i: int| 0 <= i < m.len() ==> #[trigger] m[i].1 > 0,
    ensures
        r.profit == 0,
{
    lemma_weightless_choice(m, r.packed@.to_set(), m.len() as int);
}

} // verus!
