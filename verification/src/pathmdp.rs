use vstd::prelude::*;

use crate::error::Error;
use crate::key::Key;
use crate::mdp::MDP;
use crate::measure::{det_dist, lemma_det_dist, Measure, Probability};
use crate::{END_TRANSITION_REWARD, NO_OP_TRANSITION_REWARD};

verus! {

/// Reward for one forward step along the chain.
pub const NEXT_STEP_REWARD: i64 = 100_000;

/// Reward (a penalty) for one backward step along the chain.
pub const PREV_STEP_REWARD: i64 = -500_000;

/// A move along a chain world: forward or backward.
#[derive(PartialEq, Eq, Hash, Debug, Clone, Copy)]
pub enum PathAction {
    Next,
    Prev,
}

impl Key for PathAction {
    fn key_eq(&self, other: &Self) -> (r: bool)
        ensures
            r <==> self == other,
    {
        match (self, other) {
            (PathAction::Next, PathAction::Next) => true,
            (PathAction::Prev, PathAction::Prev) => true,
            _ => false,
        }
    }
}

/// A position on a chain world, counted from the start.
#[derive(PartialEq, Eq, Hash, Debug, Clone, Copy)]
pub struct PathState(pub usize);

impl PathState {
    pub fn new(idx: usize) -> (r: Self)
        ensures
            r.0 == idx,
    {
        PathState(idx)
    }
}

impl Key for PathState {
    fn key_eq(&self, other: &Self) -> (r: bool)
        ensures
            r <==> self == other,
    {
        self.0 == other.0
    }
}

/// A linear chain world: states in a row, the last one terminal; moving
/// forward earns a small reward plus a bonus on reaching the end, moving
/// backward a penalty, and stepping out of bounds a no-op penalty.
pub struct PathWorld {
    pub states: Vec<PathState>,
    pub actions: Vec<PathAction>,
}

impl PathWorld {
    pub fn new(states: Vec<PathState>, actions: Vec<PathAction>) -> (r: Self)
        ensures
            r.states == states,
            r.actions == actions,
    {
        PathWorld { states, actions }
    }

    /// The number of states on the chain.
    pub fn length(&self) -> (r: usize)
        ensures
            r == self.states@.len(),
    {
        self.states.len()
    }
}

impl MDP for PathWorld {
    type State = PathState;

    type Action = PathAction;

    open spec fn wf(&self) -> bool {
        self.states@.len() >= 1
    }

    open spec fn states(&self) -> Seq<PathState> {
        self.states@
    }

    open spec fn acts_at(&self, s: PathState) -> Seq<PathAction> {
        self.actions@
    }

    open spec fn final_at(&self, s: PathState) -> bool {
        s.0 == self.states@.len() - 1
    }

    open spec fn goal_at(&self, s: PathState) -> bool {
        self.final_at(s)
    }

    open spec fn reward_bound(&self) -> int {
        11_000_000
    }

    open spec fn trans(&self, s: PathState, a: PathAction) -> Result<
        (Seq<(PathState, Probability)>, i64),
        Error,
    > {
        let len = self.states@.len() as int;
        let cur = s.0 as int;
        let next = match a {
            PathAction::Next => cur + 1,
            PathAction::Prev => if cur == 0 {
                0int
            } else {
                cur - 1
            },
        };
        if next >= len || next == cur {
            Ok((det_dist(s), NO_OP_TRANSITION_REWARD))
        } else {
            let step = match a {
                PathAction::Next => NEXT_STEP_REWARD,
                PathAction::Prev => PREV_STEP_REWARD,
            };
            let reward = if next == len - 1 {
                (END_TRANSITION_REWARD + step) as i64
            } else {
                step
            };
            Ok((det_dist(PathState(next as usize)), reward))
        }
    }

    proof fn lemma_reward_bound(&self) {
    }

    fn all_states(&self) -> (r: &Vec<PathState>) {
        &self.states
    }

    fn actions_at(&self, state: &PathState) -> (r: Vec<PathAction>) {
        let mut out: Vec<PathAction> = Vec::new();
        let n = self.actions.len();
        let mut i: usize = 0;
        while i < n
            invariant
                n == self.actions.len(),
                0 <= i <= n,
                out@ == self.actions@.take(i as int),
            decreases n - i,
        {
            proof {
                assert(self.actions@.take(i + 1) =~= self.actions@.take(i as int).push(
                    self.actions@[i as int],
                ));
            }
            out.push(self.actions[i]);
            i += 1;
        }
        proof {
            assert(self.actions@.take(n as int) =~= self.actions@);
        }
        out
    }

    fn is_final_state(&self, st: &PathState) -> (r: bool) {
        st.0 == self.states.len() - 1
    }

    fn is_goal(&self, st: &PathState) -> (r: bool) {
        self.is_final_state(st)
    }

    fn stochastic_transition(&self, state: &PathState, action: &PathAction) -> (r: Result<
        (Measure<PathState>, i64),
        Error,
    >) {
        let current = state.0;
        let length = self.states.len();
        match action {
            PathAction::Next => {
                if current >= length - 1 {
                    Ok((Measure::deterministic(*state), NO_OP_TRANSITION_REWARD))
                } else {
                    let next = current + 1;
                    let measure = Measure::deterministic(PathState(next));
                    if next == length - 1 {
                        Ok((measure, END_TRANSITION_REWARD + NEXT_STEP_REWARD))
                    } else {
                        Ok((measure, NEXT_STEP_REWARD))
                    }
                }
            },
            PathAction::Prev => {
                if current == 0 || current - 1 >= length {
                    Ok((Measure::deterministic(*state), NO_OP_TRANSITION_REWARD))
                } else {
                    let next = current - 1;
                    let measure = Measure::deterministic(PathState(next));
                    if next == length - 1 {
                        Ok((measure, END_TRANSITION_REWARD + PREV_STEP_REWARD))
                    } else {
                        Ok((measure, PREV_STEP_REWARD))
                    }
                }
            },
        }
    }
}

} // verus!
