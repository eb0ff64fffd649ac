use vstd::prelude::*;

use crate::error::Error;
use crate::key::Key;
use crate::measure::{Measure, Probability};

verus! {

/// The contract every environment satisfies: a finite state universe,
/// per-state actions, a terminality test, and a stochastic transition
/// function returning a next-state distribution and an immediate reward.
/// Rewards are fixed-point numbers (see `REWARD_UNIT`).
pub trait MDP: Sized {
    type State: Key;

    type Action: Key;

    /// Whether the instance is well formed; every operation requires it.
    spec fn wf(&self) -> bool;

    /// The state universe.
    spec fn states(&self) -> Seq<Self::State>;

    /// The legal actions at a state.
    spec fn acts_at(&self, s: Self::State) -> Seq<Self::Action>;

    /// Whether a state ends an episode.
    spec fn final_at(&self, s: Self::State) -> bool;

    /// Whether a state counts as a goal.
    spec fn goal_at(&self, s: Self::State) -> bool;

    /// A bound on the magnitude of every reward the instance can return.
    spec fn reward_bound(&self) -> int;

    /// The transition function: the distribution over next states
    /// (as a weighted list) and the immediate reward, or an error.
    spec fn trans(&self, s: Self::State, a: Self::Action) -> Result<
        (Seq<(Self::State, Probability)>, i64),
        Error,
    >;

    /// Every reward a well-formed instance returns stays within its
    /// stated bound, and the bound itself is a machine-representable,
    /// non-negative number.
    proof fn lemma_reward_bound(&self)
        requires
            self.wf(),
        ensures
            0 <= self.reward_bound() <= i64::MAX as int,
            forall|s: Self::State, a: Self::Action|
                (#[trigger] self.trans(s, a)) matches Ok(p) ==> -self.reward_bound() <= p.1
                    <= self.reward_bound(),
    ;

    /// The finite, enumerable universe of states.
    fn all_states(&self) -> (r: &Vec<Self::State>)
        requires
            self.wf(),
        ensures
            r@ == self.states(),
    ;

    /// The ordered list of legal actions at a state; empty means a
    /// dead end.
    fn actions_at(&self, state: &Self::State) -> (r: Vec<Self::Action>)
        requires
            self.wf(),
        ensures
            r@ == self.acts_at(*state),
    ;

    /// Whether the state ends an episode.
    fn is_final_state(&self, st: &Self::State) -> (r: bool)
        requires
            self.wf(),
        ensures
            r == self.final_at(*st),
    ;

    /// Whether the state counts as a goal; for most models this is the
    /// same as being final.
    fn is_goal(&self, st: &Self::State) -> (r: bool)
        requires
            self.wf(),
        ensures
            r == self.goal_at(*st),
    ;

    /// Performs one transition: a validated distribution over next
    /// states together with the immediate reward, or the error the
    /// model raised while building the distribution.
    fn stochastic_transition(&self, state: &Self::State, action: &Self::Action) -> (r: Result<
        (Measure<Self::State>, i64),
        Error,
    >)
        requires
            self.wf(),
        ensures
            r.is_ok() <==> self.trans(*state, *action).is_ok(),
            r matches Ok(p) ==> (self.trans(*state, *action) matches Ok(q) && p.0@ == q.0 && p.1
                == q.1),
            r matches Err(e) ==> (self.trans(*state, *action) matches Err(e2) && e == e2),
    ;

    /// Flattens the universe into state-action pairs, one per legal
    /// action per state, for value-table initialization.
    fn all_state_action_pairs(&self) -> (r: Vec<(Self::State, Self::Action)>)
        requires
            self.wf(),
        ensures
            forall|i: int|
                0 <= i < r@.len() ==> self.states().contains((#[trigger] r@[i]).0)
                    && self.acts_at(r@[i].0).contains(r@[i].1),
            forall|k: int, j: int|
                0 <= k < self.states().len() && 0 <= j < self.acts_at(self.states()[k]).len()
                    ==> r@.contains(
                    (self.states()[k], #[trigger] self.acts_at(self.states()[k])[j]),
                ),
    {
        let states = self.all_states();
        let n = states.len();
        let mut out: Vec<(Self::State, Self::Action)> = Vec::new();
        let mut k: usize = 0;
        while k < n
            invariant
                self.wf(),
                n == states.len(),
                states@ == self.states(),
                0 <= k <= n,
                forall|i: int|
                    0 <= i < out@.len() ==> self.states().contains((#[trigger] out@[i]).0)
                        && self.acts_at(out@[i].0).contains(out@[i].1),
                forall|k2: int, j: int|
                    0 <= k2 < k && 0 <= j < self.acts_at(self.states()[k2]).len() ==> out@.contains(
                        (self.states()[k2], #[trigger] self.acts_at(self.states()[k2])[j]),
                    ),
            decreases n - k,
        {
            let s = states[k];
            let acts = self.actions_at(&s);
            let m = acts.len();
            let mut j: usize = 0;
            while j < m
                invariant
                    self.wf(),
                    n == states.len(),
                    states@ == self.states(),
                    0 <= k < n,
                    s == self.states()[k as int],
                    m == acts.len(),
                    acts@ == self.acts_at(s),
                    0 <= j <= m,
                    forall|i: int|
                        0 <= i < out@.len() ==> self.states().contains((#[trigger] out@[i]).0)
                            && self.acts_at(out@[i].0).contains(out@[i].1),
                    forall|k2: int, j2: int|
                        0 <= k2 < k && 0 <= j2 < self.acts_at(self.states()[k2]).len()
                            ==> out@.contains(
                            (self.states()[k2], #[trigger] self.acts_at(self.states()[k2])[j2]),
                        ),
                    forall|j2: int|
                        0 <= j2 < j ==> out@.contains(
                            (self.states()[k as int], self.acts_at(self.states()[k as int])[j2]),
                        ),
                decreases m - j,
            {
                let a = acts[j];
                let ghost prev = out@;
                out.push((s, a));
                proof {
                    assert(out@ == prev.push((s, a)));
                    assert(out@[out@.len() - 1] == (s, a));
                    assert(self.states().contains(s)) by {
                        assert(self.states()[k as int] == s);
                    }
                    assert(self.acts_at(s).contains(a)) by {
                        assert(self.acts_at(s)[j as int] == a);
                    }
                    assert(forall|i: int|
                        0 <= i < prev.len() ==> out@[i] == prev[i]);
                    assert forall|j2: int| 0 <= j2 < j + 1 implies out@.contains(
                        (self.states()[k as int], self.acts_at(self.states()[k as int])[j2]),
                    ) by {
                        if j2 < j {
                            let w = choose|w: int|
                                0 <= w < prev.len() && prev[w] == (
                                self.states()[k as int],
                                self.acts_at(self.states()[k as int])[j2],
                                );
                            assert(out@[w] == prev[w]);
                        } else {
                            assert(out@[out@.len() - 1] == (
                                self.states()[k as int],
                                self.acts_at(self.states()[k as int])[j2],
                            ));
                        }
                    }
                    assert forall|k2: int, j2: int|
                        0 <= k2 < k && 0 <= j2 < self.acts_at(self.states()[k2]).len()
                            implies out@.contains(
                        (self.states()[k2], #[trigger] self.acts_at(self.states()[k2])[j2]),
                    ) by {
                        let w = choose|w: int|
                            0 <= w < prev.len() && prev[w] == (
                            self.states()[k2],
                            self.acts_at(self.states()[k2])[j2],
                            );
                        assert(out@[w] == prev[w]);
                    }
                }
                j += 1;
            }
            k += 1;
        }
        out
    }
}

} // verus!
