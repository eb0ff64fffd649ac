pub mod arith;
pub mod error;
pub mod key;
pub mod measure;
pub mod mdp;
pub mod pathmdp;
pub mod products;
mod random;
pub mod q_learning;
pub mod table;

use vstd::prelude::*;

verus! {

/// Reward values are fixed-point numbers: this many units stand for 1.0.
pub const REWARD_UNIT: i64 = 1_000_000;

/// Reward for a step that leaves the state unchanged (out-of-bounds move).
pub const NO_OP_TRANSITION_REWARD: i64 = -1_000_000;

/// Bonus collected on entering the terminal state of a chain world.
pub const END_TRANSITION_REWARD: i64 = 10_000_000;

} // verus!
