use vstd::prelude::*;

use crate::error::Error;
use crate::key::Key;
use crate::mdp::MDP;
use crate::measure::Probability;
use crate::random::random_below;
use crate::table::{table_has_state, ActionValue};

verus! {

/// The configuration of a training run: the learning rate, discount
/// factor and exploration rate are exact probabilities, the episode and
/// step counts plain numbers.
pub struct Config {
    pub discount_factor: Probability,
    pub max_num_steps: u32,
    pub num_episodes: u32,
    pub learning_rate: Probability,
    pub exploration_rate: Probability,
}

impl Config {
    /// The stock configuration: discount 97/100, up to 1000 steps over
    /// 500 episodes, learning rate 3/10, exploration rate 1/10.
    pub fn new() -> (r: Self)
        ensures
            r.discount_factor@ == (97u64, 100u64),
            r.max_num_steps == 1000u32,
            r.num_episodes == 500u32,
            r.learning_rate@ == (3u64, 10u64),
            r.exploration_rate@ == (1u64, 10u64),
    {
        let discount = Probability::new(97, 100);
        let learning = Probability::new(3, 10);
        let exploration = Probability::new(1, 10);
        Config {
            discount_factor: discount.unwrap(),
            max_num_steps: 1000,
            num_episodes: 500,
            learning_rate: learning.unwrap(),
            exploration_rate: exploration.unwrap(),
        }
    }
}

impl Default for Config {
    fn default() -> (r: Self)
        ensures
            r.discount_factor@ == (97u64, 100u64),
            r.max_num_steps == 1000u32,
            r.num_episodes == 500u32,
            r.learning_rate@ == (3u64, 10u64),
            r.exploration_rate@ == (1u64, 10u64),
    {
        Config::new()
    }
}

/// A value scaled by a fraction, rounded toward zero.
pub open spec fn scale_frac(x: int, num: int, den: int) -> int
    recommends
        den >= 1,
{
    if x >= 0 {
        (x * num) / den
    } else {
        -(((-x) * num) / den)
    }
}

/// A value forced into the range of the table's entries.
pub open spec fn clamp_value(x: int) -> int {
    if x < i64::MIN as int {
        i64::MIN as int
    } else if x > i64::MAX as int {
        i64::MAX as int
    } else {
        x
    }
}

/// The temporal-difference update: the estimate moves by a fraction
/// `alpha` of the difference between the bootstrap target
/// `reward + gamma * next_q` and the current estimate; each scaling
/// rounds toward zero and each sum is clamped to the representable
/// range.
pub open spec fn bellman_spec(
    q: int,
    reward: int,
    next_q: int,
    alpha: (u64, u64),
    gamma: (u64, u64),
) -> int {
    let target = clamp_value(reward + scale_frac(next_q, gamma.0 as int, gamma.1 as int));
    clamp_value(q + scale_frac(target - q, alpha.0 as int, alpha.1 as int))
}

/// Scales a value by a probability, rounding toward zero; the result
/// never grows in magnitude.
fn scale_i128(x: i128, p: &Probability) -> (r: i128)
    requires
        -0x1_0000_0000_0000_0000 <= x <= 0x1_0000_0000_0000_0000,
    ensures
        r == scale_frac(x as int, p@.0 as int, p@.1 as int),
        x >= 0 ==> 0 <= r <= x,
        x < 0 ==> x <= r <= 0,
{
    let (num, den) = p.value();
    if x >= 0 {
        proof {
            vstd::arithmetic::mul::lemma_mul_upper_bound(
                x as int,
                0x1_0000_0000_0000_0000,
                num as int,
                u64::MAX as int,
            );
            vstd::arithmetic::mul::lemma_mul_nonnegative(x as int, num as int);
        }
        let mag = (x as u128) * (num as u128);
        proof {
            vstd::arithmetic::mul::lemma_mul_inequality(num as int, den as int, x as int);
            vstd::arithmetic::mul::lemma_mul_is_commutative(num as int, x as int);
            vstd::arithmetic::mul::lemma_mul_is_commutative(den as int, x as int);
            vstd::arithmetic::div_mod::lemma_div_is_ordered(
                (x as int) * (num as int),
                (x as int) * (den as int),
                den as int,
            );
            vstd::arithmetic::div_mod::lemma_div_by_multiple(x as int, den as int);
            vstd::arithmetic::div_mod::lemma_div_pos_is_pos((x as int) * (num as int), den as int);
            vstd::arithmetic::mul::lemma_mul_nonnegative(x as int, num as int);
        }
        let d = mag / (den as u128);
        d as i128
    } else {
        let neg = -x;
        proof {
            vstd::arithmetic::mul::lemma_mul_upper_bound(
                neg as int,
                0x1_0000_0000_0000_0000,
                num as int,
                u64::MAX as int,
            );
            vstd::arithmetic::mul::lemma_mul_nonnegative(neg as int, num as int);
        }
        let mag = (neg as u128) * (num as u128);
        proof {
            vstd::arithmetic::mul::lemma_mul_inequality(num as int, den as int, neg as int);
            vstd::arithmetic::mul::lemma_mul_is_commutative(num as int, neg as int);
            vstd::arithmetic::mul::lemma_mul_is_commutative(den as int, neg as int);
            vstd::arithmetic::div_mod::lemma_div_is_ordered(
                (neg as int) * (num as int),
                (neg as int) * (den as int),
                den as int,
            );
            vstd::arithmetic::div_mod::lemma_div_by_multiple(neg as int, den as int);
            vstd::arithmetic::div_mod::lemma_div_pos_is_pos(
                (neg as int) * (num as int),
                den as int,
            );
            vstd::arithmetic::mul::lemma_mul_nonnegative(neg as int, num as int);
        }
        let d = mag / (den as u128);
        -(d as i128)
    }
}

/// Clamps a wide intermediate into the table's value range.
fn clamp_i128(x: i128) -> (r: i64)
    ensures
        r as int == clamp_value(x as int),
{
    if x < i64::MIN as i128 {
        i64::MIN
    } else if x > i64::MAX as i128 {
        i64::MAX
    } else {
        x as i64
    }
}

/// One Bellman update, computed exactly as the specification states it.
pub fn bellman_update(
    q: i64,
    reward: i64,
    next_q: i64,
    alpha: &Probability,
    gamma: &Probability,
) -> (r: i64)
    ensures
        r as int == bellman_spec(q as int, reward as int, next_q as int, alpha@, gamma@),
{
    let scaled_next = scale_i128(next_q as i128, gamma);
    let target = clamp_i128((reward as i128) + scaled_next);
    let diff = (target as i128) - (q as i128);
    let inc = scale_i128(diff, alpha);
    clamp_i128((q as i128) + inc)
}

/// The single temporal-difference learner behind both entry points. The
/// flag selects the bootstrap action: the greedy action for Q-learning
/// (off-policy), a fresh epsilon-greedy draw for SARSA (on-policy).
#[verifier::loop_isolation(false)]
fn sarsa_q_learning<M: MDP>(mdp: &M, config: &Config, q_learning: bool) -> (r: Result<
    ActionValue<M::State, M::Action>,
    Error,
>)
    requires
        mdp.wf(),
        mdp.states().len() >= 1,
    ensures
        (forall|s: M::State, a: M::Action| (#[trigger] mdp.trans(s, a)).is_ok()) ==> r.is_ok(),
        r matches Err(e) ==> exists|s: M::State, a: M::Action|
            (#[trigger] mdp.trans(s, a)) matches Err(e2) && e == e2,
        r matches Ok(t) ==> ((exists|k: int|
            0 <= k < mdp.states().len() && (#[trigger] mdp.acts_at(mdp.states()[k])).len() > 0)
            ==> (forall|i: int|
            0 <= i < mdp.states().len() ==> table_has_state(t@, #[trigger] mdp.states()[i]))),
{
    let states = mdp.all_states();
    let pairs = mdp.all_state_action_pairs();

    // Every action reachable from any state, each kept once.
    let mut actions: Vec<M::Action> = Vec::new();
    let np = pairs.len();
    let mut pi: usize = 0;
    while pi < np
        invariant
            0 <= pi <= np,
            forall|x: int| 0 <= x < pi ==> actions@.contains((#[trigger] pairs@[x]).1),
        decreases np - pi,
    {
        let a = pairs[pi].1;
        let mut found = false;
        let na = actions.len();
        let mut ai: usize = 0;
        while ai < na
            invariant
                0 <= ai <= na,
                na == actions.len(),
                found ==> actions@.contains(a),
            decreases na - ai,
        {
            if actions[ai].key_eq(&a) {
                proof {
                    assert(actions@[ai as int] == a);
                }
                found = true;
            }
            ai += 1;
        }
        if !found {
            let ghost prev = actions@;
            actions.push(a);
            proof {
                assert(actions@[prev.len() as int] == a);
                assert forall|x: int| 0 <= x < pi + 1 implies actions@.contains(
                    (#[trigger] pairs@[x]).1,
                ) by {
                    if x < pi {
                        let w = choose|w: int|
                            0 <= w < prev.len() && prev[w] == pairs@[x].1;
                        assert(actions@[w] == prev[w]);
                    }
                }
            }
        }
        pi += 1;
    }

    let mut table = ActionValue::<M::State, M::Action>::new(states, &actions);
    proof {
        assert forall|i: int|
            actions@.len() > 0 && 0 <= i < states@.len() implies table_has_state(
            table@,
            #[trigger] states@[i],
        ) by {
            let w = choose|w: int|
                0 <= w < table@.len() && (#[trigger] table@[w]).0 == states@[i] && table@[w].1
                    == actions@[0];
        }
    }

    let mut ep: u32 = 0;
    while ep < config.num_episodes
        invariant
            actions@.len() > 0 ==> forall|i: int|
                0 <= i < states@.len() ==> table_has_state(table@, #[trigger] states@[i]),
        decreases config.num_episodes - ep,
    {
        let si = random_below(states.len());
        let start = states[si];
        let avail = mdp.actions_at(&start);
        if avail.len() > 0 && actions.len() > 0 {
            let mut state = start;
            let mut action = table.epsilon_greedy(&actions, &state, &config.exploration_rate);
            let mut step: u32 = 0;
            let mut done = false;
            while step < config.max_num_steps && !done
                invariant
                    actions@.len() > 0,
                    forall|i: int|
                        0 <= i < states@.len() ==> table_has_state(table@, #[trigger] states@[i]),
                decreases config.max_num_steps - step,
            {
                match mdp.stochastic_transition(&state, &action) {
                    Err(e) => {
                        proof {
                            assert(mdp.trans(state, action) matches Err(e2) && e == e2);
                        }
                        return Err(e);
                    },
                    Ok((measure, reward)) => {
                        let next_state = match measure.sample() {
                            Some(s2) => s2,
                            None => state,
                        };
                        let next_avail = mdp.actions_at(&next_state);
                        if next_avail.len() == 0 {
                            done = true;
                        } else {
                            let next_action = if q_learning {
                                match table.greedy(&next_state) {
                                    Some(a) => a,
                                    None => {
                                        let k = random_below(actions.len());
                                        actions[k]
                                    },
                                }
                            } else {
                                table.epsilon_greedy(
                                    &actions,
                                    &next_state,
                                    &config.exploration_rate,
                                )
                            };
                            let current_q = table.get(&state, &action);
                            let next_q = table.get(&next_state, &next_action);
                            let new_q = bellman_update(
                                current_q,
                                reward,
                                next_q,
                                &config.learning_rate,
                                &config.discount_factor,
                            );
                            table.insert(&state, &action, new_q);
                            state = next_state;
                            action = next_action;
                            if mdp.is_final_state(&state) {
                                done = true;
                            }
                        }
                    },
                }
                step += 1;
            }
        }
        ep += 1;
    }
    proof {
        if exists|k: int|
            0 <= k < mdp.states().len() && (#[trigger] mdp.acts_at(mdp.states()[k])).len() > 0 {
            let k = choose|k: int|
                0 <= k < mdp.states().len() && (#[trigger] mdp.acts_at(mdp.states()[k])).len() > 0;
            assert(pairs@.contains((mdp.states()[k], mdp.acts_at(mdp.states()[k])[0])));
            let x = choose|x: int|
                0 <= x < pairs@.len() && pairs@[x] == (
                mdp.states()[k],
                mdp.acts_at(mdp.states()[k])[0],
                );
            assert(actions@.contains(pairs@[x].1));
        }
    }
    Ok(table)
}

/// SARSA: on-policy temporal-difference learning. Each step's bootstrap
/// action is a fresh epsilon-greedy draw, which is also the action
/// executed next. Training draws a random start state per episode and
/// runs until the episode budget is spent; a transition failure aborts
/// the whole run with that error.
pub fn sarsa<M: MDP>(mdp: &M, config: &Config) -> (r: Result<
    ActionValue<M::State, M::Action>,
    Error,
>)
    requires
        mdp.wf(),
        mdp.states().len() >= 1,
    ensures
        (forall|s: M::State, a: M::Action| (#[trigger] mdp.trans(s, a)).is_ok()) ==> r.is_ok(),
        r matches Err(e) ==> exists|s: M::State, a: M::Action|
            (#[trigger] mdp.trans(s, a)) matches Err(e2) && e == e2,
        r matches Ok(t) ==> ((exists|k: int|
            0 <= k < mdp.states().len() && (#[trigger] mdp.acts_at(mdp.states()[k])).len() > 0)
            ==> (forall|i: int|
            0 <= i < mdp.states().len() ==> table_has_state(t@, #[trigger] mdp.states()[i]))),
{
    sarsa_q_learning(mdp, config, false)
}

/// Q-learning: off-policy temporal-difference learning. Each step's
/// bootstrap target uses the greedy action at the next state. Training
/// draws a random start state per episode and runs until the episode
/// budget is spent; a transition failure aborts the whole run with that
/// error.
pub fn q_learning<M: MDP>(mdp: &M, config: &Config) -> (r: Result<
    ActionValue<M::State, M::Action>,
    Error,
>)
    requires
        mdp.wf(),
        mdp.states().len() >= 1,
    ensures
        (forall|s: M::State, a: M::Action| (#[trigger] mdp.trans(s, a)).is_ok()) ==> r.is_ok(),
        r matches Err(e) ==> exists|s: M::State, a: M::Action|
            (#[trigger] mdp.trans(s, a)) matches Err(e2) && e == e2,
        r matches Ok(t) ==> ((exists|k: int|
            0 <= k < mdp.states().len() && (#[trigger] mdp.acts_at(mdp.states()[k])).len() > 0)
            ==> (forall|i: int|
            0 <= i < mdp.states().len() ==> table_has_state(t@, #[trigger] mdp.states()[i]))),
{
    sarsa_q_learning(mdp, config, true)
}

} // verus!
