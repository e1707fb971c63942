use vstd::prelude::*;

verus! {

/// What the solver needs to know of an item: its profit and its weight.
pub trait KnapsackItem {
    /// The item's profit.
    spec fn spec_profit(&self) -> u64;

    /// The item's weight.
    spec fn spec_weight(&self) -> u64;

    fn profit(&self) -> (r: u64)
        ensures
            r == self.spec_profit(),
    ;

    fn weight(&self) -> (r: u64)
        ensures
            r == self.spec_weight(),
    ;
}

/// The (profit, weight) pairs of a sequence of items, in their order.
pub open spec fn pairs_of<T: KnapsackItem>(items: Seq<T>) -> Seq<(u64, u64)> {
    items.map_values(|t: T| (t.spec_profit(), t.spec_weight()))
}

/// A plain item with integer profit and weight.
#[derive(Clone, Copy, Debug)]
pub struct UserItem {
    pub profit: u32,
    pub weight: u32,
}

impl KnapsackItem for UserItem {
    open spec fn spec_profit(&self) -> u64 {
        self.profit as u64
    }

    open spec fn spec_weight(&self) -> u64 {
        self.weight as u64
    }

    fn profit(&self) -> (r: u64) {
        self.profit as u64
    }

    fn weight(&self) -> (r: u64) {
        self.weight as u64
    }
}

impl UserItem {
    /// Builds one item from each (profit, weight) pair, in order.
    pub fn items(pairs: &[(u32, u32)]) -> (r: Vec<UserItem>)
        ensures
            r@.len() == pairs@.len(),
            forall|i: int|
                0 <= i < pairs@.len() ==> r@[i].profit == pairs@[i].0 && r@[i].weight
                    == pairs@[i].1,
    {
        let mut r: Vec<UserItem> = Vec::new();
        let mut i: usize = 0;
        while i < pairs.len()
            invariant
                i <= pairs@.len(),
                r@.len() == i,
                forall|k: int|
                    0 <= k < i ==> r@[k].profit == pairs@[k].0 && r@[k].weight == pairs@[k].1,
            decreases pairs@.len() - i,
        {
            let (p, w) = pairs[i];
            r.push(UserItem { profit: p, weight: w });
            i = i + 1;
        }
        r
    }
}

} // verus!
