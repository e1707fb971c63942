use knapsack::bound::{bound, UpperBound};
use knapsack::order::sort_by_ratio;
use knapsack::{solve, KnapsackNode, UserItem};

fn best_by_enumeration(pairs: &[(u32, u32)], cap: u64) -> u64 {
    let n = pairs.len();
    let mut best: u64 = 0;
    for mask in 0u32..(1u32 << n) {
        let mut p: u64 = 0;
        let mut w: u64 = 0;
        for (i, (pi, wi)) in pairs.iter().enumerate() {
            if mask & (1 << i) != 0 {
                p += *pi as u64;
                w += *wi as u64;
            }
        }
        if w <= cap && p > best {
            best = p;
        }
    }
    best
}

fn check_solution(pairs: &[(u32, u32)], cap: u64, r: &KnapsackNode) {
    let n = pairs.len();
    let mut p: u64 = 0;
    let mut w: u64 = 0;
    let mut seen = vec![false; n];
    for &i in &r.packed {
        assert!(i < n);
        assert!(!seen[i]);
        seen[i] = true;
        p += pairs[i].0 as u64;
        w += pairs[i].1 as u64;
    }
    for &i in &r.skipped {
        assert!(i < n);
        assert!(!seen[i]);
        seen[i] = true;
    }
    assert_eq!(p, r.profit);
    assert!(w <= cap);
    assert_eq!(r.capacity, cap - w);
    let all_decided = seen.iter().all(|s| *s);
    assert!(all_decided || (r.packed.is_empty() && r.skipped.is_empty() && r.profit == 0));
}

#[test]
fn test_simple_task() {
    let items = UserItem::items(&[(10, 2), (10, 4), (12, 6), (18, 9)]);
    let max_weight = 15;

    let solution = solve(&items, max_weight);

    assert_eq!(solution.profit, 38);
}

#[test]
fn test_simple_task_1() {
    let items = UserItem::items(&[(20, 13), (22, 8), (4, 4), (25, 16), (23, 15)]);
    let max_weight = 20;

    let solution = solve(&items, max_weight);

    assert_eq!(solution.profit, 29);
}

#[test]
fn first_scenario_packing_fits() {
    let pairs = [(10, 2), (10, 4), (12, 6), (18, 9)];
    let r = solve(&UserItem::items(&pairs), 15);
    check_solution(&pairs, 15, &r);
    let mut packed = r.packed.clone();
    packed.sort();
    assert_eq!(packed, vec![0, 1, 3]);
    assert_eq!(r.capacity, 0);
}

#[test]
fn empty_input_gives_nothing() {
    for cap in [0u64, 1, 17, u64::MAX] {
        let r = solve(&UserItem::items(&[]), cap);
        assert_eq!(r.profit, 0);
        assert!(r.packed.is_empty());
        assert!(r.skipped.is_empty());
        assert_eq!(r.capacity, cap);
    }
}

#[test]
fn zero_capacity_gives_zero_profit() {
    let pairs = [(5, 1), (7, 3), (1, 1)];
    let r = solve(&UserItem::items(&pairs), 0);
    assert_eq!(r.profit, 0);
    assert!(r.packed.is_empty());
}

#[test]
fn all_items_too_heavy() {
    let pairs = [(5, 10), (7, 30)];
    let r = solve(&UserItem::items(&pairs), 9);
    assert_eq!(r.profit, 0);
    check_solution(&pairs, 9, &r);
}

#[test]
fn weightless_items_are_packed() {
    let pairs = [(3, 0), (4, 5), (0, 0), (6, 5)];
    let r = solve(&UserItem::items(&pairs), 5);
    assert_eq!(r.profit, 9);
    check_solution(&pairs, 5, &r);
    assert!(r.packed.contains(&0));
}

#[test]
fn equal_ratios_and_equal_items() {
    let pairs = [(4, 2), (4, 2), (2, 1), (6, 3)];
    let r = solve(&UserItem::items(&pairs), 5);
    assert_eq!(r.profit, 10);
    check_solution(&pairs, 5, &r);
}

#[test]
fn matches_enumeration_on_small_instances() {
    let mut state: u64 = 0x2545_f491_4f6c_dd1d;
    let mut next = || {
        state ^= state << 13;
        state ^= state >> 7;
        state ^= state << 17;
        state
    };
    for round in 0..200 {
        let n = (next() % 11) as usize;
        let pairs: Vec<(u32, u32)> = (0..n)
            .map(|_| ((next() % 50) as u32, (next() % 30) as u32))
            .collect();
        let cap = next() % 80;
        let r = solve(&UserItem::items(&pairs), cap);
        assert_eq!(r.profit, best_by_enumeration(&pairs, cap), "round {}", round);
        check_solution(&pairs, cap, &r);
    }
}

#[test]
fn large_values_do_not_overflow() {
    let pairs = [(u32::MAX, u32::MAX), (u32::MAX, 1), (1, u32::MAX)];
    let cap = u32::MAX as u64 + 1;
    let r = solve(&UserItem::items(&pairs), cap);
    assert_eq!(r.profit, 2 * u32::MAX as u64);
    check_solution(&pairs, cap, &r);
    assert_eq!(r.capacity, 0);
}

#[test]
fn sort_puts_higher_ratios_first() {
    let items = UserItem::items(&[(1, 2), (5, 0), (9, 3), (4, 2), (3, 1)]);
    let (sorted, _) = sort_by_ratio(&items);
    let order: Vec<usize> = sorted.iter().map(|e| e.0).collect();
    assert_eq!(order, vec![1, 2, 4, 3, 0]);
    assert_eq!(sorted[0], (1, 5, 0));
}

#[test]
fn relaxation_bound_is_exact() {
    // Entries (index, profit, weight) in ratio order.
    let sorted = vec![(0usize, 10u64, 2u64), (1, 10, 4), (2, 12, 6), (3, 18, 9)];
    // 10 + 10 + 12 fill 12 of 15; a third of the last item adds 6.
    let b = bound(&sorted, 0, 15);
    assert_eq!((b.whole, b.rem, b.den), (38, 0, 9));
    // From entry 1 with capacity 5: 10, then 1/6 of 12.
    let b = bound(&sorted, 1, 5);
    assert_eq!((b.whole, b.rem, b.den), (12, 0, 6));
    // Capacity 3 from entry 1: 3/4 of 10 = 7.5.
    let b = bound(&sorted, 1, 3);
    assert_eq!((b.whole, b.rem, b.den), (7, 2, 4));
    let b = bound(&sorted, 4, 3);
    assert_eq!((b.whole, b.rem, b.den), (0, 0, 1));
}

#[test]
fn bound_comparisons() {
    let a = UpperBound { whole: 7, rem: 2, den: 4 };
    let b = UpperBound { whole: 7, rem: 1, den: 2 };
    let c = UpperBound { whole: 7, rem: 2, den: 3 };
    assert!(a.ge(&b) && b.ge(&a));
    assert!(c.ge(&a) && !a.ge(&c));
    assert!(a.at_least(7) && !a.at_least(8));
    let d = a.plus(3);
    assert_eq!((d.whole, d.rem, d.den), (10, 2, 4));
}

#[test]
fn equal_profit_keeps_the_start_node() {
    // Packing the weightless, profitless item ties with the root; the root stays.
    let pairs = [(0, 0), (0, 2), (5, 9)];
    let r = solve(&UserItem::items(&pairs), 4);
    assert_eq!(r.profit, 0);
    assert!(r.packed.is_empty());
    assert!(r.skipped.is_empty());
    assert_eq!(r.capacity, 4);
}
