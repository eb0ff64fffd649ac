use ctmdp::measure::Probability;
use ctmdp::mdp::MDP;
use ctmdp::pathmdp::{PathAction, PathState, PathWorld};
use ctmdp::products::{BoxProduct, CartesianProduct};
use ctmdp::q_learning::{bellman_update, q_learning, sarsa, Config};
use ctmdp::table::ActionValue;

fn prob(num: u64, den: u64) -> Probability {
    Probability::new(num, den).unwrap()
}

fn chain(len: usize) -> PathWorld {
    let states: Vec<PathState> = (0..len).map(PathState::new).collect();
    PathWorld::new(states, vec![PathAction::Next, PathAction::Prev])
}

fn training_config(episodes: u32) -> Config {
    let mut c = Config::new();
    c.num_episodes = episodes;
    c.max_num_steps = 50;
    c.learning_rate = prob(1, 10);
    c.discount_factor = prob(9, 10);
    c.exploration_rate = prob(1, 10);
    c
}

#[test]
fn config_defaults_match_the_stock_values() {
    let c = Config::default();
    assert_eq!(c.discount_factor.value(), (97, 100));
    assert_eq!(c.max_num_steps, 1000);
    assert_eq!(c.num_episodes, 500);
    assert_eq!(c.learning_rate.value(), (3, 10));
    assert_eq!(c.exploration_rate.value(), (1, 10));
}

#[test]
fn table_get_defaults_to_zero() {
    let t: ActionValue<PathState, PathAction> =
        ActionValue::new(&vec![PathState::new(0)], &vec![PathAction::Next]);
    assert_eq!(t.get(&PathState::new(0), &PathAction::Next), 0);
    assert_eq!(t.get(&PathState::new(9), &PathAction::Prev), 0);
}

#[test]
fn table_insert_then_get() {
    let mut t: ActionValue<PathState, PathAction> =
        ActionValue::new(&vec![PathState::new(0)], &vec![PathAction::Next, PathAction::Prev]);
    t.insert(&PathState::new(0), &PathAction::Next, 17);
    assert_eq!(t.get(&PathState::new(0), &PathAction::Next), 17);
    assert_eq!(t.get(&PathState::new(0), &PathAction::Prev), 0);
    t.insert(&PathState::new(0), &PathAction::Next, -4);
    assert_eq!(t.get(&PathState::new(0), &PathAction::Next), -4);
}

#[test]
fn table_insert_handles_unseen_pairs() {
    let mut t: ActionValue<PathState, PathAction> =
        ActionValue::new(&vec![PathState::new(0)], &vec![PathAction::Next]);
    t.insert(&PathState::new(5), &PathAction::Prev, 3);
    assert_eq!(t.get(&PathState::new(5), &PathAction::Prev), 3);
}

#[test]
fn greedy_picks_the_highest_value() {
    let mut t: ActionValue<PathState, PathAction> =
        ActionValue::new(&vec![PathState::new(0)], &vec![PathAction::Next, PathAction::Prev]);
    t.insert(&PathState::new(0), &PathAction::Prev, 5);
    assert_eq!(t.greedy(&PathState::new(0)), Some(PathAction::Prev));
    t.insert(&PathState::new(0), &PathAction::Next, 9);
    assert_eq!(t.greedy(&PathState::new(0)), Some(PathAction::Next));
    assert_eq!(t.greedy(&PathState::new(7)), None);
}

#[test]
fn epsilon_greedy_returns_a_known_action() {
    let t: ActionValue<PathState, PathAction> =
        ActionValue::new(&vec![PathState::new(0)], &vec![PathAction::Next, PathAction::Prev]);
    let universe = vec![PathAction::Next, PathAction::Prev];
    for _ in 0..50 {
        let a = t.epsilon_greedy(&universe, &PathState::new(0), &prob(1, 1));
        assert!(universe.contains(&a));
    }
}

#[test]
fn epsilon_greedy_with_zero_rate_is_greedy() {
    let mut t: ActionValue<PathState, PathAction> =
        ActionValue::new(&vec![PathState::new(0)], &vec![PathAction::Next, PathAction::Prev]);
    t.insert(&PathState::new(0), &PathAction::Prev, 11);
    for _ in 0..20 {
        let a = t.epsilon_greedy(
            &vec![PathAction::Next, PathAction::Prev],
            &PathState::new(0),
            &prob(0, 1),
        );
        assert_eq!(a, PathAction::Prev);
    }
}

#[test]
fn bellman_update_computes_the_exact_fixed_point_step() {
    // target = 100_000 + 0; increment = (100_000 - 0) / 10
    assert_eq!(bellman_update(0, 100_000, 0, &prob(1, 10), &prob(9, 10)), 10_000);
    // target = -500_000; increment truncates toward zero
    assert_eq!(bellman_update(0, -500_000, 0, &prob(1, 10), &prob(9, 10)), -50_000);
    // discounting the bootstrap: target = 0 + 9/10 * 100 = 90
    assert_eq!(bellman_update(0, 0, 100, &prob(1, 1), &prob(9, 10)), 90);
    // truncation toward zero on the increment
    assert_eq!(bellman_update(0, 10, 0, &prob(1, 3), &prob(1, 2)), 3);
    assert_eq!(bellman_update(0, -10, 0, &prob(1, 3), &prob(1, 2)), -3);
}

#[test]
fn q_learning_learns_to_advance_on_a_chain() {
    let w = chain(5);
    let table = q_learning(&w, &training_config(3000)).unwrap();
    for i in 0..4 {
        assert_eq!(table.greedy(&PathState::new(i)), Some(PathAction::Next));
    }
}

#[test]
fn sarsa_learns_to_advance_on_a_chain() {
    let w = chain(4);
    let table = sarsa(&w, &training_config(3000)).unwrap();
    assert_eq!(table.greedy(&PathState::new(0)), Some(PathAction::Next));
    assert_eq!(table.greedy(&PathState::new(1)), Some(PathAction::Next));
}

#[test]
fn four_state_chain_end_to_end() {
    // 4 states, 1500 episodes, learning rate 0.1, discount 0.9,
    // exploration 0.1: the greedy policy must advance on at least 90%
    // of the non-terminal states.
    let w = chain(4);
    let table = q_learning(&w, &training_config(1500)).unwrap();
    let mut matches = 0;
    let mut total = 0;
    for s in w.all_states() {
        if !w.is_final_state(s) {
            total += 1;
            if table.greedy(s) == Some(PathAction::Next) {
                matches += 1;
            }
        }
    }
    assert_eq!(total, 3);
    assert!(matches * 10 >= total * 9);
}

#[test]
fn q_learning_trains_on_a_box_product() {
    let bp = BoxProduct::new(chain(4), chain(4));
    let table = q_learning(&bp, &training_config(500)).unwrap();
    let s = bp.all_states()[0];
    assert!(table.greedy(&s).is_some());
}

#[test]
fn q_learning_trains_on_a_cartesian_product() {
    let cp = CartesianProduct::new(chain(3), chain(3));
    let table = q_learning(&cp, &training_config(500)).unwrap();
    let s = cp.all_states()[0];
    assert!(table.greedy(&s).is_some());
}
