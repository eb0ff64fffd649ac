use ctmdp::mdp::MDP;
use ctmdp::pathmdp::{PathAction, PathState, PathWorld, NEXT_STEP_REWARD, PREV_STEP_REWARD};
use ctmdp::products::{BoxAction, BoxProduct, CartesianProduct, Product};
use ctmdp::{END_TRANSITION_REWARD, NO_OP_TRANSITION_REWARD};

fn chain(len: usize) -> PathWorld {
    let states: Vec<PathState> = (0..len).map(PathState::new).collect();
    PathWorld::new(states, vec![PathAction::Next, PathAction::Prev])
}

#[test]
fn pathworld_length_and_universe() {
    let w = chain(4);
    assert_eq!(w.length(), 4);
    assert_eq!(w.all_states().len(), 4);
    assert_eq!(w.actions_at(&PathState::new(0)), vec![PathAction::Next, PathAction::Prev]);
}

#[test]
fn pathworld_terminality() {
    let w = chain(4);
    assert!(!w.is_final_state(&PathState::new(0)));
    assert!(!w.is_final_state(&PathState::new(2)));
    assert!(w.is_final_state(&PathState::new(3)));
    assert!(w.is_goal(&PathState::new(3)));
}

#[test]
fn pathworld_forward_step() {
    let w = chain(4);
    let (m, r) = w.stochastic_transition(&PathState::new(0), &PathAction::Next).unwrap();
    assert_eq!(m.sample(), Some(PathState::new(1)));
    assert_eq!(r, NEXT_STEP_REWARD);
}

#[test]
fn pathworld_forward_step_into_terminal_adds_bonus() {
    let w = chain(4);
    let (m, r) = w.stochastic_transition(&PathState::new(2), &PathAction::Next).unwrap();
    assert_eq!(m.sample(), Some(PathState::new(3)));
    assert_eq!(r, END_TRANSITION_REWARD + NEXT_STEP_REWARD);
}

#[test]
fn pathworld_backward_step() {
    let w = chain(4);
    let (m, r) = w.stochastic_transition(&PathState::new(2), &PathAction::Prev).unwrap();
    assert_eq!(m.sample(), Some(PathState::new(1)));
    assert_eq!(r, PREV_STEP_REWARD);
}

#[test]
fn pathworld_out_of_bounds_moves_are_penalized_no_ops() {
    let w = chain(4);
    let (m, r) = w.stochastic_transition(&PathState::new(0), &PathAction::Prev).unwrap();
    assert_eq!(m.sample(), Some(PathState::new(0)));
    assert_eq!(r, NO_OP_TRANSITION_REWARD);
    let (m2, r2) = w.stochastic_transition(&PathState::new(3), &PathAction::Next).unwrap();
    assert_eq!(m2.sample(), Some(PathState::new(3)));
    assert_eq!(r2, NO_OP_TRANSITION_REWARD);
}

#[test]
fn all_state_action_pairs_flattens_the_universe() {
    let w = chain(3);
    let pairs = w.all_state_action_pairs();
    assert_eq!(pairs.len(), 6);
    assert!(pairs.contains(&(PathState::new(0), PathAction::Next)));
    assert!(pairs.contains(&(PathState::new(2), PathAction::Prev)));
}

#[test]
fn box_product_pairs_states_positionally() {
    let bp = BoxProduct::new(chain(4), chain(4));
    // min(4, 4) states, not 16
    assert_eq!(bp.all_states().len(), 4);
    for (i, s) in bp.all_states().iter().enumerate() {
        assert_eq!(s.fst, PathState::new(i));
        assert_eq!(s.snd, PathState::new(i));
    }
}

#[test]
fn box_product_action_count_is_the_sum() {
    let bp = BoxProduct::new(chain(4), chain(4));
    let s = Product::new(PathState::new(0), PathState::new(0));
    let acts = bp.actions_at(&s);
    assert_eq!(acts.len(), 4);
    assert_eq!(acts[0], BoxAction::Left(PathAction::Next));
    assert_eq!(acts[1], BoxAction::Left(PathAction::Prev));
    assert_eq!(acts[2], BoxAction::Right(PathAction::Next));
    assert_eq!(acts[3], BoxAction::Right(PathAction::Prev));
}

#[test]
fn box_left_action_advances_only_the_first_component() {
    let bp = BoxProduct::new(chain(4), chain(4));
    let s = Product::new(PathState::new(1), PathState::new(1));
    let (m, r) = bp.stochastic_transition(&s, &BoxAction::Left(PathAction::Next)).unwrap();
    assert_eq!(m.sample(), Some(Product::new(PathState::new(2), PathState::new(1))));
    assert_eq!(r, NEXT_STEP_REWARD);
}

#[test]
fn box_right_action_advances_only_the_second_component() {
    let bp = BoxProduct::new(chain(4), chain(4));
    let s = Product::new(PathState::new(1), PathState::new(1));
    let (m, r) = bp.stochastic_transition(&s, &BoxAction::Right(PathAction::Prev)).unwrap();
    assert_eq!(m.sample(), Some(Product::new(PathState::new(1), PathState::new(0))));
    assert_eq!(r, PREV_STEP_REWARD);
}

#[test]
fn box_terminality_needs_both_components() {
    let bp = BoxProduct::new(chain(4), chain(4));
    assert!(!bp.is_final_state(&Product::new(PathState::new(3), PathState::new(0))));
    assert!(bp.is_final_state(&Product::new(PathState::new(3), PathState::new(3))));
}

#[test]
fn cartesian_product_states_are_the_full_cross_product() {
    let cp = CartesianProduct::new(chain(4), chain(4));
    assert_eq!(cp.all_states().len(), 16);
    assert_eq!(cp.all_states()[0], Product::new(PathState::new(0), PathState::new(0)));
    assert_eq!(cp.all_states()[5], Product::new(PathState::new(1), PathState::new(1)));
}

#[test]
fn cartesian_action_count_is_the_product() {
    let cp = CartesianProduct::new(chain(4), chain(4));
    let s = Product::new(PathState::new(0), PathState::new(0));
    let acts = cp.actions_at(&s);
    assert_eq!(acts.len(), 4);
    assert!(acts.contains(&Product::new(PathAction::Next, PathAction::Next)));
    assert!(acts.contains(&Product::new(PathAction::Prev, PathAction::Next)));
}

#[test]
fn cartesian_reward_is_the_exact_sum_of_component_rewards() {
    let cp = CartesianProduct::new(chain(4), chain(4));
    let s = Product::new(PathState::new(0), PathState::new(1));
    let a = Product::new(PathAction::Next, PathAction::Prev);
    let (m, r) = cp.stochastic_transition(&s, &a).unwrap();
    assert_eq!(m.sample(), Some(Product::new(PathState::new(1), PathState::new(0))));
    assert_eq!(r, NEXT_STEP_REWARD + PREV_STEP_REWARD);

    let s2 = Product::new(PathState::new(2), PathState::new(2));
    let a2 = Product::new(PathAction::Next, PathAction::Next);
    let (_, r2) = cp.stochastic_transition(&s2, &a2).unwrap();
    assert_eq!(r2, 2 * (END_TRANSITION_REWARD + NEXT_STEP_REWARD));
}

#[test]
fn cartesian_transition_advances_both_components() {
    let cp = CartesianProduct::new(chain(4), chain(4));
    let s = Product::new(PathState::new(1), PathState::new(2));
    let a = Product::new(PathAction::Prev, PathAction::Next);
    let (m, _) = cp.stochastic_transition(&s, &a).unwrap();
    assert_eq!(m.sample(), Some(Product::new(PathState::new(0), PathState::new(3))));
}
