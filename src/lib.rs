//! Exact 0/1 knapsack solving by depth-first branch and bound, pruned with
//! the fractional (Dantzig) relaxation bound.
//!
//! Items are ordered by non-increasing profit/weight ratio (items of weight
//! zero first), and the search decides them in that order, packing or
//! skipping each. Bounds are exact rationals, so pruning never discards a
//! better choice.
pub mod bound;
pub mod choice;
pub mod item;
pub mod node;
pub mod order;
pub mod relax;
pub mod solver;

pub use item::{KnapsackItem, UserItem};
pub use node::KnapsackNode;
pub use solver::solve;
