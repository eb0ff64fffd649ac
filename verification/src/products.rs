use vstd::prelude::*;

use crate::error::Error;
use crate::key::Key;
use crate::mdp::MDP;
use crate::measure::{
    all_pairs_fit, det_dist, lemma_det_dist, mul_fits, pairs_to_product_states, product_dist,
    product_state_dist, Measure, Probability,
};

verus! {

/// An ordered pair of component states (or actions): the joint state of
/// both composition operators.
#[derive(PartialEq, Eq, Hash, Debug, Clone, Copy)]
pub struct Product<S1, S2> {
    pub fst: S1,
    pub snd: S2,
}

impl<S1, S2> Product<S1, S2> {
    pub fn new(s1: S1, s2: S2) -> (r: Self)
        ensures
            r.fst == s1,
            r.snd == s2,
    {
        Product { fst: s1, snd: s2 }
    }
}

impl<S1: Key, S2: Key> Key for Product<S1, S2> {
    fn key_eq(&self, other: &Self) -> (r: bool)
        ensures
            r <==> self == other,
    {
        self.fst.key_eq(&other.fst) && self.snd.key_eq(&other.snd)
    }
}

/// An interleaved-composition action: advance the first component with
/// one of its actions, or the second with one of its actions.
#[derive(PartialEq, Eq, Hash, Debug, Clone, Copy)]
pub enum BoxAction<A1, A2> {
    Left(A1),
    Right(A2),
}

impl<A1: Key, A2: Key> Key for BoxAction<A1, A2> {
    fn key_eq(&self, other: &Self) -> (r: bool)
        ensures
            r <==> self == other,
    {
        match (self, other) {
            (BoxAction::Left(a), BoxAction::Left(b)) => a.key_eq(b),
            (BoxAction::Right(a), BoxAction::Right(b)) => a.key_eq(b),
            _ => false,
        }
    }
}

/// A synchronous-composition action holding one action per component.
#[derive(PartialEq, Eq, Hash, Debug, Clone, Copy)]
pub struct CartesianAction<A1, A2> {
    pub action1: A1,
    pub action2: A2,
}

impl<A1: Key, A2: Key> Key for CartesianAction<A1, A2> {
    fn key_eq(&self, other: &Self) -> (r: bool)
        ensures
            r <==> self == other,
    {
        self.action1.key_eq(&other.action1) && self.action2.key_eq(&other.action2)
    }
}

/// The positional pairing of two sequences: the i-th element of each,
/// cut off at the shorter one.
pub open spec fn zip_seq<A, B>(s1: Seq<A>, s2: Seq<B>) -> Seq<Product<A, B>> {
    let n = if s1.len() <= s2.len() {
        s1.len() as int
    } else {
        s2.len() as int
    };
    Seq::new(n as nat, |i: int| Product { fst: s1[i], snd: s2[i] })
}

/// The full cross pairing of two sequences, row by row: the pair for
/// indices `(i, j)` sits at `i * |s2| + j`.
pub open spec fn cross_seq<A, B>(s1: Seq<A>, s2: Seq<B>) -> Seq<Product<A, B>> {
    Seq::new(
        (s1.len() * s2.len()) as nat,
        |k: int| Product { fst: s1[k / s2.len() as int], snd: s2[k % s2.len() as int] },
    )
}

/// Pairs the two lists positionally.
fn zip_vec<A: Key, B: Key>(xs: &Vec<A>, ys: &Vec<B>) -> (r: Vec<Product<A, B>>)
    ensures
        r@ == zip_seq(xs@, ys@),
{
    let n = if xs.len() <= ys.len() {
        xs.len()
    } else {
        ys.len()
    };
    let mut out: Vec<Product<A, B>> = Vec::new();
    let mut i: usize = 0;
    while i < n
        invariant
            n <= xs.len(),
            n <= ys.len(),
            n == zip_seq(xs@, ys@).len(),
            0 <= i <= n,
            out@.len() == i,
            forall|k: int| 0 <= k < i ==> (#[trigger] out@[k]) == zip_seq(xs@, ys@)[k],
        decreases n - i,
    {
        out.push(Product { fst: xs[i], snd: ys[i] });
        i += 1;
    }
    proof {
        assert(out@ =~= zip_seq(xs@, ys@));
    }
    out
}

/// Builds the full cross pairing of the two lists.
fn cross_vec<A: Key, B: Key>(xs: &Vec<A>, ys: &Vec<B>) -> (r: Vec<Product<A, B>>)
    ensures
        r@ == cross_seq(xs@, ys@),
{
    let n1 = xs.len();
    let n2 = ys.len();
    let mut out: Vec<Product<A, B>> = Vec::new();
    let mut i: usize = 0;
    proof {
        vstd::arithmetic::mul::lemma_mul_basics(n2 as int);
    }
    while i < n1
        invariant
            n1 == xs.len(),
            n2 == ys.len(),
            0 <= i <= n1,
            out@.len() == (i as int) * (n2 as int),
            forall|k: int| 0 <= k < out@.len() ==> (#[trigger] out@[k]) == cross_seq(xs@, ys@)[k],
        decreases n1 - i,
    {
        let mut j: usize = 0;
        while j < n2
            invariant
                n1 == xs.len(),
                n2 == ys.len(),
                0 <= i < n1,
                0 <= j <= n2,
                out@.len() == (i as int) * (n2 as int) + (j as int),
                forall|k: int|
                    0 <= k < out@.len() ==> (#[trigger] out@[k]) == cross_seq(xs@, ys@)[k],
            decreases n2 - j,
        {
            proof {
                let k0 = (i as int) * (n2 as int) + (j as int);
                vstd::arithmetic::div_mod::lemma_fundamental_div_mod_converse(
                    k0,
                    n2 as int,
                    i as int,
                    j as int,
                );
                assert(k0 / (n2 as int) == i as int && k0 % (n2 as int) == j as int);
                assert(0 <= k0 < (n1 as int) * (n2 as int)) by (nonlinear_arith)
                    requires
                        0 <= i < n1,
                        0 <= j < n2,
                        k0 == (i as int) * (n2 as int) + (j as int),
                ;
                assert(cross_seq(xs@, ys@)[k0] == Product {
                    fst: xs@[i as int],
                    snd: ys@[j as int],
                });
            }
            out.push(Product { fst: xs[i], snd: ys[j] });
            j += 1;
        }
        proof {
            assert((i as int) * (n2 as int) + (n2 as int) == ((i + 1) as int) * (n2 as int))
                by (nonlinear_arith);
        }
        i += 1;
    }
    proof {
        assert(out@ =~= cross_seq(xs@, ys@));
    }
    out
}

/// Every weight fits beside the one-point distribution on the right.
proof fn lemma_fit_det_right<T, U>(s: Seq<(T, Probability)>, v: U)
    ensures
        all_pairs_fit(s, det_dist(v)),
{
    lemma_det_dist(v);
    assert forall|i: int, j: int|
        0 <= i < s.len() && 0 <= j < det_dist(v).len() implies mul_fits(
        (#[trigger] s[i]).1@,
        (#[trigger] det_dist(v)[j]).1@,
    ) by {
        vstd::arithmetic::mul::lemma_mul_basics(s[i].1@.0 as int);
        vstd::arithmetic::mul::lemma_mul_basics(s[i].1@.1 as int);
    }
}

/// Every weight fits beside the one-point distribution on the left.
proof fn lemma_fit_det_left<T, U>(v: T, s: Seq<(U, Probability)>)
    ensures
        all_pairs_fit(det_dist(v), s),
{
    lemma_det_dist(v);
    assert forall|i: int, j: int|
        0 <= i < det_dist(v).len() && 0 <= j < s.len() implies mul_fits(
        (#[trigger] det_dist(v)[i]).1@,
        (#[trigger] s[j]).1@,
    ) by {
        vstd::arithmetic::mul::lemma_mul_basics(s[j].1@.0 as int);
        vstd::arithmetic::mul::lemma_mul_basics(s[j].1@.1 as int);
    }
}

/// The interleaved ("box") composition: one joint step advances exactly
/// one component, chosen by the action's tag; the other component keeps
/// its state. The joint state universe pairs the two components'
/// universes positionally, so it is as large as the smaller one.
pub struct BoxProduct<M1: MDP, M2: MDP> {
    pub mdp1: M1,
    pub mdp2: M2,
    pub states: Vec<Product<M1::State, M2::State>>,
}

impl<M1: MDP, M2: MDP> BoxProduct<M1, M2> {
    pub fn new(mdp1: M1, mdp2: M2) -> (r: Self)
        requires
            mdp1.wf(),
            mdp2.wf(),
        ensures
            r.mdp1 == mdp1,
            r.mdp2 == mdp2,
            r.wf(),
    {
        let states = zip_vec(mdp1.all_states(), mdp2.all_states());
        BoxProduct { mdp1, mdp2, states }
    }
}

impl<M1: MDP, M2: MDP> MDP for BoxProduct<M1, M2> {
    type State = Product<M1::State, M2::State>;

    type Action = BoxAction<M1::Action, M2::Action>;

    open spec fn wf(&self) -> bool {
        &&& self.mdp1.wf()
        &&& self.mdp2.wf()
        &&& self.states@ == zip_seq(self.mdp1.states(), self.mdp2.states())
    }

    open spec fn states(&self) -> Seq<Product<M1::State, M2::State>> {
        self.states@
    }

    open spec fn acts_at(&self, s: Product<M1::State, M2::State>) -> Seq<
        BoxAction<M1::Action, M2::Action>,
    > {
        self.mdp1.acts_at(s.fst).map(
            |i: int, a: M1::Action| BoxAction::<M1::Action, M2::Action>::Left(a),
        ) + self.mdp2.acts_at(s.snd).map(
            |i: int, a: M2::Action| BoxAction::<M1::Action, M2::Action>::Right(a),
        )
    }

    open spec fn final_at(&self, s: Product<M1::State, M2::State>) -> bool {
        self.mdp1.final_at(s.fst) && self.mdp2.final_at(s.snd)
    }

    open spec fn goal_at(&self, s: Product<M1::State, M2::State>) -> bool {
        self.final_at(s)
    }

    open spec fn reward_bound(&self) -> int {
        if self.mdp1.reward_bound() >= self.mdp2.reward_bound() {
            self.mdp1.reward_bound()
        } else {
            self.mdp2.reward_bound()
        }
    }

    open spec fn trans(&self, s: Product<M1::State, M2::State>, a: BoxAction<M1::Action, M2::Action>) -> Result<
        (Seq<(Product<M1::State, M2::State>, Probability)>, i64),
        Error,
    > {
        match a {
            BoxAction::Left(a1) => match self.mdp1.trans(s.fst, a1) {
                Ok(p) => Ok(
                    (product_state_dist(product_dist(p.0, det_dist(s.snd))), p.1),
                ),
                Err(e) => Err(e),
            },
            BoxAction::Right(a2) => match self.mdp2.trans(s.snd, a2) {
                Ok(p) => Ok(
                    (product_state_dist(product_dist(det_dist(s.fst), p.0)), p.1),
                ),
                Err(e) => Err(e),
            },
        }
    }

    proof fn lemma_reward_bound(&self) {
        self.mdp1.lemma_reward_bound();
        self.mdp2.lemma_reward_bound();
        assert forall|s: Product<M1::State, M2::State>, a: BoxAction<M1::Action, M2::Action>|
            #![trigger self.trans(s, a)]
            (self.trans(s, a) matches Ok(p) ==> -self.reward_bound() <= p.1
                <= self.reward_bound()) by {
            match a {
                BoxAction::Left(a1) => {
                    assert(self.mdp1.trans(s.fst, a1) == self.mdp1.trans(s.fst, a1));
                },
                BoxAction::Right(a2) => {
                    assert(self.mdp2.trans(s.snd, a2) == self.mdp2.trans(s.snd, a2));
                },
            }
        }
    }

    fn all_states(&self) -> (r: &Vec<Product<M1::State, M2::State>>) {
        &self.states
    }

    fn actions_at(&self, state: &Product<M1::State, M2::State>) -> (r: Vec<
        BoxAction<M1::Action, M2::Action>,
    >) {
        let lefts = self.mdp1.actions_at(&state.fst);
        let rights = self.mdp2.actions_at(&state.snd);
        let ghost lmap = self.mdp1.acts_at(state.fst).map(
            |i: int, a: M1::Action| BoxAction::<M1::Action, M2::Action>::Left(a),
        );
        let ghost rmap = self.mdp2.acts_at(state.snd).map(
            |i: int, a: M2::Action| BoxAction::<M1::Action, M2::Action>::Right(a),
        );
        let mut out: Vec<BoxAction<M1::Action, M2::Action>> = Vec::new();
        let n1 = lefts.len();
        let mut i: usize = 0;
        while i < n1
            invariant
                n1 == lefts.len(),
                lefts@ == self.mdp1.acts_at(state.fst),
                lmap == lefts@.map(
                    |i: int, a: M1::Action| BoxAction::<M1::Action, M2::Action>::Left(a),
                ),
                0 <= i <= n1,
                out@.len() == i,
                forall|k: int| 0 <= k < i ==> (#[trigger] out@[k]) == lmap[k],
            decreases n1 - i,
        {
            out.push(BoxAction::Left(lefts[i]));
            i += 1;
        }
        let n2 = rights.len();
        let mut j: usize = 0;
        while j < n2
            invariant
                n1 == lefts.len(),
                n2 == rights.len(),
                rights@ == self.mdp2.acts_at(state.snd),
                rmap == rights@.map(
                    |i: int, a: M2::Action| BoxAction::<M1::Action, M2::Action>::Right(a),
                ),
                lmap.len() == n1,
                0 <= j <= n2,
                out@.len() == n1 + j,
                forall|k: int| 0 <= k < n1 ==> (#[trigger] out@[k]) == lmap[k],
                forall|k: int| n1 <= k < n1 + j ==> (#[trigger] out@[k]) == rmap[k - n1],
            decreases n2 - j,
        {
            out.push(BoxAction::Right(rights[j]));
            j += 1;
        }
        proof {
            assert(out@ =~= lmap + rmap);
        }
        out
    }

    fn is_final_state(&self, state: &Product<M1::State, M2::State>) -> (r: bool) {
        self.mdp1.is_final_state(&state.fst) && self.mdp2.is_final_state(&state.snd)
    }

    fn is_goal(&self, st: &Product<M1::State, M2::State>) -> (r: bool) {
        self.is_final_state(st)
    }

    fn stochastic_transition(
        &self,
        state: &Product<M1::State, M2::State>,
        action: &BoxAction<M1::Action, M2::Action>,
    ) -> (r: Result<(Measure<Product<M1::State, M2::State>>, i64), Error>) {
        match action {
            BoxAction::Left(a1) => match self.mdp1.stochastic_transition(&state.fst, a1) {
                Ok((measure1, reward1)) => {
                    let measure2 = Measure::deterministic(state.snd);
                    proof {
                        lemma_fit_det_right(measure1@, state.snd);
                    }
                    match measure1.product(&measure2) {
                        Ok(joint) => Ok((pairs_to_product_states(joint), reward1)),
                        Err(e) => {
                            proof {
                                assert(false);
                            }
                            Err(e)
                        },
                    }
                },
                Err(e) => Err(e),
            },
            BoxAction::Right(a2) => match self.mdp2.stochastic_transition(&state.snd, a2) {
                Ok((measure2, reward2)) => {
                    let measure1 = Measure::deterministic(state.fst);
                    proof {
                        lemma_fit_det_left(state.fst, measure2@);
                    }
                    match measure1.product(&measure2) {
                        Ok(joint) => Ok((pairs_to_product_states(joint), reward2)),
                        Err(e) => {
                            proof {
                                assert(false);
                            }
                            Err(e)
                        },
                    }
                },
                Err(e) => Err(e),
            },
        }
    }
}

/// The synchronous ("cartesian") composition: one joint step advances
/// both components at once, using one action per component; the joint
/// reward is the sum of the two component rewards. The joint state
/// universe is the full cross product of the two components' universes.
pub struct CartesianProduct<M1: MDP, M2: MDP> {
    pub mdp1: M1,
    pub mdp2: M2,
    pub states: Vec<Product<M1::State, M2::State>>,
}

impl<M1: MDP, M2: MDP> CartesianProduct<M1, M2> {
    pub fn new(mdp1: M1, mdp2: M2) -> (r: Self)
        requires
            mdp1.wf(),
            mdp2.wf(),
            mdp1.reward_bound() + mdp2.reward_bound() <= i64::MAX as int,
        ensures
            r.mdp1 == mdp1,
            r.mdp2 == mdp2,
            r.wf(),
    {
        let states = cross_vec(mdp1.all_states(), mdp2.all_states());
        CartesianProduct { mdp1, mdp2, states }
    }
}

impl<M1: MDP, M2: MDP> MDP for CartesianProduct<M1, M2> {
    type State = Product<M1::State, M2::State>;

    type Action = Product<M1::Action, M2::Action>;

    open spec fn wf(&self) -> bool {
        &&& self.mdp1.wf()
        &&& self.mdp2.wf()
        &&& self.states@ == cross_seq(self.mdp1.states(), self.mdp2.states())
        &&& self.mdp1.reward_bound() + self.mdp2.reward_bound() <= i64::MAX as int
    }

    open spec fn states(&self) -> Seq<Product<M1::State, M2::State>> {
        self.states@
    }

    open spec fn acts_at(&self, s: Product<M1::State, M2::State>) -> Seq<
        Product<M1::Action, M2::Action>,
    > {
        cross_seq(self.mdp1.acts_at(s.fst), self.mdp2.acts_at(s.snd))
    }

    open spec fn final_at(&self, s: Product<M1::State, M2::State>) -> bool {
        self.mdp1.final_at(s.fst) && self.mdp2.final_at(s.snd)
    }

    open spec fn goal_at(&self, s: Product<M1::State, M2::State>) -> bool {
        self.final_at(s)
    }

    open spec fn reward_bound(&self) -> int {
        self.mdp1.reward_bound() + self.mdp2.reward_bound()
    }

    open spec fn trans(&self, s: Product<M1::State, M2::State>, a: Product<M1::Action, M2::Action>) -> Result<
        (Seq<(Product<M1::State, M2::State>, Probability)>, i64),
        Error,
    > {
        match self.mdp1.trans(s.fst, a.fst) {
            Ok(p1) => match self.mdp2.trans(s.snd, a.snd) {
                Ok(p2) => if all_pairs_fit(p1.0, p2.0) {
                    Ok(
                        (
                            product_state_dist(product_dist(p1.0, p2.0)),
                            (p1.1 + p2.1) as i64,
                        ),
                    )
                } else {
                    Err(Error::ProbabilityOutOfRange)
                },
                Err(e) => Err(e),
            },
            Err(e) => Err(e),
        }
    }

    proof fn lemma_reward_bound(&self) {
        self.mdp1.lemma_reward_bound();
        self.mdp2.lemma_reward_bound();
        assert forall|s: Product<M1::State, M2::State>, a: Product<M1::Action, M2::Action>|
            #![trigger self.trans(s, a)]
            (self.trans(s, a) matches Ok(p) ==> -self.reward_bound() <= p.1
                <= self.reward_bound()) by {
            assert(self.mdp1.trans(s.fst, a.fst) == self.mdp1.trans(s.fst, a.fst));
            assert(self.mdp2.trans(s.snd, a.snd) == self.mdp2.trans(s.snd, a.snd));
        }
    }

    fn all_states(&self) -> (r: &Vec<Product<M1::State, M2::State>>) {
        &self.states
    }

    fn actions_at(&self, state: &Product<M1::State, M2::State>) -> (r: Vec<
        Product<M1::Action, M2::Action>,
    >) {
        let acts1 = self.mdp1.actions_at(&state.fst);
        let acts2 = self.mdp2.actions_at(&state.snd);
        cross_vec(&acts1, &acts2)
    }

    fn is_final_state(&self, state: &Product<M1::State, M2::State>) -> (r: bool) {
        self.mdp1.is_final_state(&state.fst) && self.mdp2.is_final_state(&state.snd)
    }

    fn is_goal(&self, st: &Product<M1::State, M2::State>) -> (r: bool) {
        self.is_final_state(st)
    }

    fn stochastic_transition(
        &self,
        state: &Product<M1::State, M2::State>,
        action: &Product<M1::Action, M2::Action>,
    ) -> (r: Result<(Measure<Product<M1::State, M2::State>>, i64), Error>) {
        match self.mdp1.stochastic_transition(&state.fst, &action.fst) {
            Ok((measure1, reward1)) => match self.mdp2.stochastic_transition(
                &state.snd,
                &action.snd,
            ) {
                Ok((measure2, reward2)) => match measure1.product(&measure2) {
                    Ok(joint) => {
                        proof {
                            self.mdp1.lemma_reward_bound();
                            self.mdp2.lemma_reward_bound();
                            assert(self.mdp1.trans(state.fst, action.fst) == self.mdp1.trans(
                                state.fst,
                                action.fst,
                            ));
                            assert(self.mdp2.trans(state.snd, action.snd) == self.mdp2.trans(
                                state.snd,
                                action.snd,
                            ));
                        }
                        Ok((pairs_to_product_states(joint), reward1 + reward2))
                    },
                    Err(e) => Err(e),
                },
                Err(e) => Err(e),
            },
            Err(e) => Err(e),
        }
    }
}

/// Law: the box composition pairs the two state universes positionally,
/// so its state count is the smaller of the two components' counts, not
/// their product.
pub proof fn lemma_box_state_count<M1: MDP, M2: MDP>(p: &BoxProduct<M1, M2>)
    requires
        p.wf(),
    ensures
        p.states().len() == if p.mdp1.states().len() <= p.mdp2.states().len() {
            p.mdp1.states().len()
        } else {
            p.mdp2.states().len()
        },
{
}

/// Law: at any joint state, the box composition offers the actions of
/// both components side by side, so their counts add.
pub proof fn lemma_box_action_count<M1: MDP, M2: MDP>(
    p: &BoxProduct<M1, M2>,
    s: Product<M1::State, M2::State>,
)
    requires
        p.wf(),
    ensures
        p.acts_at(s).len() == p.mdp1.acts_at(s.fst).len() + p.mdp2.acts_at(s.snd).len(),
{
}

/// Law: the cartesian composition takes the full cross product of the
/// two state universes, so its state count is the product of the two
/// components' counts.
pub proof fn lemma_cartesian_state_count<M1: MDP, M2: MDP>(p: &CartesianProduct<M1, M2>)
    requires
        p.wf(),
    ensures
        p.states().len() == p.mdp1.states().len() * p.mdp2.states().len(),
{
}

/// Law: at any joint state, the cartesian composition pairs every action
/// of one component with every action of the other, so their counts
/// multiply.
pub proof fn lemma_cartesian_action_count<M1: MDP, M2: MDP>(
    p: &CartesianProduct<M1, M2>,
    s: Product<M1::State, M2::State>,
)
    requires
        p.wf(),
    ensures
        p.acts_at(s).len() == p.mdp1.acts_at(s.fst).len() * p.mdp2.acts_at(s.snd).len(),
{
}

/// Law: when both component transitions succeed and the joint weights
/// are representable, the cartesian composition's reward is exactly the
/// sum of the two component rewards.
pub proof fn lemma_cartesian_reward_sum<M1: MDP, M2: MDP>(
    p: &CartesianProduct<M1, M2>,
    s: Product<M1::State, M2::State>,
    a: Product<M1::Action, M2::Action>,
)
    requires
        p.wf(),
        p.mdp1.trans(s.fst, a.fst).is_ok(),
        p.mdp2.trans(s.snd, a.snd).is_ok(),
        all_pairs_fit(p.mdp1.trans(s.fst, a.fst)->Ok_0.0, p.mdp2.trans(s.snd, a.snd)->Ok_0.0),
    ensures
        p.trans(s, a).is_ok(),
        p.trans(s, a)->Ok_0.1 == p.mdp1.trans(s.fst, a.fst)->Ok_0.1 + p.mdp2.trans(
            s.snd,
            a.snd,
        )->Ok_0.1,
{
    p.mdp1.lemma_reward_bound();
    p.mdp2.lemma_reward_bound();
    assert(p.mdp1.trans(s.fst, a.fst) == p.mdp1.trans(s.fst, a.fst));
    assert(p.mdp2.trans(s.snd, a.snd) == p.mdp2.trans(s.snd, a.snd));
}

/// Law: a transition of the box composition advances exactly one
/// component and keeps the other fixed: for a left action, every joint
/// next state keeps the second component's value, the distribution over
/// first components is the first component's own, and the reward is the
/// first component's alone.
pub proof fn lemma_box_left_step<M1: MDP, M2: MDP>(
    p: &BoxProduct<M1, M2>,
    s: Product<M1::State, M2::State>,
    a1: M1::Action,
)
    requires
        p.wf(),
        p.mdp1.trans(s.fst, a1).is_ok(),
    ensures
        ({
            let joint = p.trans(s, BoxAction::Left(a1));
            let part = p.mdp1.trans(s.fst, a1);
            &&& joint.is_ok()
            &&& joint->Ok_0.1 == part->Ok_0.1
            &&& joint->Ok_0.0.len() == part->Ok_0.0.len()
            &&& forall|k: int|
                0 <= k < joint->Ok_0.0.len() ==> (#[trigger] joint->Ok_0.0[k]).0.snd == s.snd
                    && joint->Ok_0.0[k].0.fst == part->Ok_0.0[k].0 && joint->Ok_0.0[k].1@
                    == part->Ok_0.0[k].1@
        }),
{
    let d1 = p.mdp1.trans(s.fst, a1)->Ok_0.0;
    lemma_det_dist::<M2::State>(s.snd);
    crate::measure::lemma_product_dist_len(d1, det_dist(s.snd));
    let joint = product_dist(d1, det_dist(s.snd));
    assert(d1.len() * 1 == d1.len()) by {
        vstd::arithmetic::mul::lemma_mul_basics(d1.len() as int);
    }
    assert forall|k: int| 0 <= k < joint.len() implies (#[trigger] joint[k]).0 == (d1[k].0, s.snd)
        && joint[k].1@ == d1[k].1@ by {
        crate::measure::lemma_product_dist_at(d1, det_dist(s.snd), k, 0);
        assert(k * 1 + 0 == k) by {
            vstd::arithmetic::mul::lemma_mul_basics(k);
        }
        assert(mul_fits(d1[k].1@, det_dist::<M2::State>(s.snd)[0].1@)) by {
            vstd::arithmetic::mul::lemma_mul_basics(d1[k].1@.0 as int);
            vstd::arithmetic::mul::lemma_mul_basics(d1[k].1@.1 as int);
        }
        assert(joint[k].1@.0 == d1[k].1@.0 * 1 && joint[k].1@.1 == d1[k].1@.1 * 1);
        assert(d1[k].1@.0 * 1 == d1[k].1@.0 && d1[k].1@.1 * 1 == d1[k].1@.1) by {
            vstd::arithmetic::mul::lemma_mul_basics(d1[k].1@.0 as int);
            vstd::arithmetic::mul::lemma_mul_basics(d1[k].1@.1 as int);
        }
    }
}

/// Law: the mirror of the left step: for a right action, every joint
/// next state keeps the first component's value, the distribution over
/// second components is the second component's own, and the reward is
/// the second component's alone.
pub proof fn lemma_box_right_step<M1: MDP, M2: MDP>(
    p: &BoxProduct<M1, M2>,
    s: Product<M1::State, M2::State>,
    a2: M2::Action,
)
    requires
        p.wf(),
        p.mdp2.trans(s.snd, a2).is_ok(),
    ensures
        ({
            let joint = p.trans(s, BoxAction::Right(a2));
            let part = p.mdp2.trans(s.snd, a2);
            &&& joint.is_ok()
            &&& joint->Ok_0.1 == part->Ok_0.1
            &&& joint->Ok_0.0.len() == part->Ok_0.0.len()
            &&& forall|k: int|
                0 <= k < joint->Ok_0.0.len() ==> (#[trigger] joint->Ok_0.0[k]).0.fst == s.fst
                    && joint->Ok_0.0[k].0.snd == part->Ok_0.0[k].0 && joint->Ok_0.0[k].1@
                    == part->Ok_0.0[k].1@
        }),
{
    let d2 = p.mdp2.trans(s.snd, a2)->Ok_0.0;
    lemma_det_dist::<M1::State>(s.fst);
    crate::measure::lemma_product_dist_len(det_dist(s.fst), d2);
    let joint = product_dist(det_dist(s.fst), d2);
    assert(1 * d2.len() == d2.len()) by {
        vstd::arithmetic::mul::lemma_mul_basics(d2.len() as int);
    }
    assert forall|k: int| 0 <= k < joint.len() implies (#[trigger] joint[k]).0 == (s.fst, d2[k].0)
        && joint[k].1@ == d2[k].1@ by {
        crate::measure::lemma_product_dist_at(det_dist(s.fst), d2, 0, k);
        assert(0 * d2.len() + k == k) by {
            vstd::arithmetic::mul::lemma_mul_basics(d2.len() as int);
        }
        assert(mul_fits(det_dist::<M1::State>(s.fst)[0].1@, d2[k].1@)) by {
            vstd::arithmetic::mul::lemma_mul_basics(d2[k].1@.0 as int);
            vstd::arithmetic::mul::lemma_mul_basics(d2[k].1@.1 as int);
        }
        assert(joint[k].1@.0 == 1 * d2[k].1@.0 && joint[k].1@.1 == 1 * d2[k].1@.1);
        assert(1 * d2[k].1@.0 == d2[k].1@.0 && 1 * d2[k].1@.1 == d2[k].1@.1) by {
            vstd::arithmetic::mul::lemma_mul_basics(d2[k].1@.0 as int);
            vstd::arithmetic::mul::lemma_mul_basics(d2[k].1@.1 as int);
        }
    }
}

} // verus!
