use vstd::prelude::*;

use crate::key::Key;
use crate::measure::{mul_u64_wide, Probability};
use crate::random::{random_below, random_word};

verus! {

/// The value recorded for a state-action pair: the first entry with that
/// pair decides, and an absent pair counts as zero.
pub open spec fn table_lookup<S, A>(t: Seq<(S, A, i64)>, s: S, a: A) -> int
    decreases t.len(),
{
    if t.len() == 0 {
        0int
    } else if t[0].0 == s && t[0].1 == a {
        t[0].2 as int
    } else {
        table_lookup(t.drop_first(), s, a)
    }
}

/// Whether some entry records the given state.
pub open spec fn table_has_state<S, A>(t: Seq<(S, A, i64)>, s: S) -> bool {
    exists|i: int| 0 <= i < t.len() && (#[trigger] t[i]).0 == s
}

/// Whether some entry records the given state-action pair.
pub open spec fn table_has_pair<S, A>(t: Seq<(S, A, i64)>, s: S, a: A) -> bool {
    exists|i: int| 0 <= i < t.len() && (#[trigger] t[i]).0 == s && t[i].1 == a
}

/// The greedy choice at a state: the action of the entry with the
/// highest value among the entries for that state, the earliest entry
/// winning ties; nothing if the state has no entry.
pub open spec fn greedy_spec<S, A>(t: Seq<(S, A, i64)>, s: S) -> Option<(A, i64)>
    decreases t.len(),
{
    if t.len() == 0 {
        None
    } else {
        let prev = greedy_spec(t.drop_last(), s);
        let e = t.last();
        if e.0 != s {
            prev
        } else {
            match prev {
                None => Some((e.1, e.2)),
                Some(b) => if e.2 > b.1 {
                    Some((e.1, e.2))
                } else {
                    prev
                },
            }
        }
    }
}

/// Updating an entry in place changes the recorded value of exactly that
/// entry's pair, provided the entry is the first one with that pair.
proof fn lemma_lookup_update_hit<S, A>(t: Seq<(S, A, i64)>, k: int, s: S, a: A, v: i64)
    requires
        0 <= k < t.len(),
        t[k].0 == s && t[k].1 == a,
        forall|j: int| 0 <= j < k ==> !((#[trigger] t[j]).0 == s && t[j].1 == a),
    ensures
        table_lookup(t.update(k, (s, a, v)), s, a) == v,
    decreases t.len(),
{
    let u = t.update(k, (s, a, v));
    if k == 0 {
        assert(u[0] == (s, a, v));
    } else {
        assert(u[0] == t[0]);
        assert(!(t[0].0 == s && t[0].1 == a));
        assert(u.drop_first() =~= t.drop_first().update(k - 1, (s, a, v)));
        assert(forall|j: int|
            0 <= j < t.len() - 1 ==> (#[trigger] t.drop_first()[j]) == t[j + 1]);
        lemma_lookup_update_hit(t.drop_first(), k - 1, s, a, v);
    }
}

/// Updating an entry in place leaves the recorded value of every other
/// pair unchanged, provided the new entry keeps the old entry's pair.
proof fn lemma_lookup_update_miss<S, A>(
    t: Seq<(S, A, i64)>,
    k: int,
    s: S,
    a: A,
    v: i64,
    s2: S,
    a2: A,
)
    requires
        0 <= k < t.len(),
        t[k].0 == s && t[k].1 == a,
        !(s2 == s && a2 == a),
    ensures
        table_lookup(t.update(k, (s, a, v)), s2, a2) == table_lookup(t, s2, a2),
    decreases t.len(),
{
    let u = t.update(k, (s, a, v));
    if k == 0 {
        assert(u[0] == (s, a, v));
        assert(!(u[0].0 == s2 && u[0].1 == a2));
        assert(!(t[0].0 == s2 && t[0].1 == a2));
        assert(u.drop_first() =~= t.drop_first());
    } else {
        assert(u[0] == t[0]);
        if t[0].0 == s2 && t[0].1 == a2 {
        } else {
            assert(u.drop_first() =~= t.drop_first().update(k - 1, (s, a, v)));
            lemma_lookup_update_miss(t.drop_first(), k - 1, s, a, v, s2, a2);
        }
    }
}

/// Appending a pair that the table does not hold yet records its value.
proof fn lemma_lookup_push_hit<S, A>(t: Seq<(S, A, i64)>, s: S, a: A, v: i64)
    requires
        !table_has_pair(t, s, a),
    ensures
        table_lookup(t.push((s, a, v)), s, a) == v,
    decreases t.len(),
{
    let u = t.push((s, a, v));
    if t.len() == 0 {
        assert(u[0] == (s, a, v));
    } else {
        assert(u[0] == t[0]);
        assert(!(t[0].0 == s && t[0].1 == a));
        assert(u.drop_first() =~= t.drop_first().push((s, a, v)));
        assert(!table_has_pair(t.drop_first(), s, a)) by {
            assert(forall|j: int|
                0 <= j < t.len() - 1 ==> (#[trigger] t.drop_first()[j]) == t[j + 1]);
        }
        lemma_lookup_push_hit(t.drop_first(), s, a, v);
    }
}

/// Appending an entry leaves the recorded value of every other pair
/// unchanged.
proof fn lemma_lookup_push_miss<S, A>(t: Seq<(S, A, i64)>, s: S, a: A, v: i64, s2: S, a2: A)
    requires
        !(s2 == s && a2 == a),
    ensures
        table_lookup(t.push((s, a, v)), s2, a2) == table_lookup(t, s2, a2),
    decreases t.len(),
{
    let u = t.push((s, a, v));
    if t.len() == 0 {
        assert(u[0] == (s, a, v));
        assert(!(u[0].0 == s2 && u[0].1 == a2));
        assert(u.drop_first() =~= Seq::<(S, A, i64)>::empty());
        assert(table_lookup(u.drop_first(), s2, a2) == 0);
        assert(table_lookup(u, s2, a2) == 0);
        assert(table_lookup(t, s2, a2) == 0);
    } else {
        assert(u[0] == t[0]);
        if t[0].0 == s2 && t[0].1 == a2 {
            assert(table_lookup(u, s2, a2) == u[0].2 as int);
            assert(table_lookup(t, s2, a2) == t[0].2 as int);
        } else {
            assert(u.drop_first() =~= t.drop_first().push((s, a, v)));
            lemma_lookup_push_miss(t.drop_first(), s, a, v, s2, a2);
            assert(table_lookup(u, s2, a2) == table_lookup(u.drop_first(), s2, a2));
            assert(table_lookup(t, s2, a2) == table_lookup(t.drop_first(), s2, a2));
        }
    }
}

/// The tabular action-value estimate: a list of state-action pairs with
/// their current values. Pairs never recorded count as zero.
#[derive(Debug)]
pub struct ActionValue<S, A> {
    entries: Vec<(S, A, i64)>,
}

impl<S, A> View for ActionValue<S, A> {
    type V = Seq<(S, A, i64)>;

    closed spec fn view(&self) -> Seq<(S, A, i64)> {
        self.entries@
    }
}

impl<S: Key, A: Key> ActionValue<S, A> {
    /// A table holding every pair of a listed state and a listed action,
    /// all at value zero.
    pub fn new(states: &Vec<S>, actions: &Vec<A>) -> (r: Self)
        ensures
            forall|i: int, j: int|
                0 <= i < states@.len() && 0 <= j < actions@.len() ==> table_has_pair(
                    r@,
                    #[trigger] states@[i],
                    #[trigger] actions@[j],
                ),
            forall|k: int| 0 <= k < r@.len() ==> (#[trigger] r@[k]).2 == 0,
            forall|k: int| 0 <= k < r@.len() ==> table_has_state(r@, (#[trigger] r@[k]).0),
    {
        let n = states.len();
        let m = actions.len();
        let mut entries: Vec<(S, A, i64)> = Vec::new();
        let mut i: usize = 0;
        while i < n
            invariant
                n == states.len(),
                m == actions.len(),
                0 <= i <= n,
                forall|i2: int, j2: int|
                    0 <= i2 < i && 0 <= j2 < m ==> table_has_pair(
                        entries@,
                        #[trigger] states@[i2],
                        #[trigger] actions@[j2],
                    ),
                forall|k: int| 0 <= k < entries@.len() ==> (#[trigger] entries@[k]).2 == 0,
            decreases n - i,
        {
            let mut j: usize = 0;
            while j < m
                invariant
                    n == states.len(),
                    m == actions.len(),
                    0 <= i < n,
                    0 <= j <= m,
                    forall|i2: int, j2: int|
                        0 <= i2 < i && 0 <= j2 < m ==> table_has_pair(
                            entries@,
                            #[trigger] states@[i2],
                            #[trigger] actions@[j2],
                        ),
                    forall|j2: int|
                        0 <= j2 < j ==> table_has_pair(
                            entries@,
                            states@[i as int],
                            #[trigger] actions@[j2],
                        ),
                    forall|k: int| 0 <= k < entries@.len() ==> (#[trigger] entries@[k]).2 == 0,
                decreases m - j,
            {
                let ghost prev = entries@;
                entries.push((states[i], actions[j], 0i64));
                proof {
                    assert(entries@[prev.len() as int] == (
                        states@[i as int],
                        actions@[j as int],
                        0i64,
                    ));
                    assert(forall|k: int| 0 <= k < prev.len() ==> entries@[k] == prev[k]);
                    assert forall|i2: int, j2: int|
                        0 <= i2 < i && 0 <= j2 < m implies table_has_pair(
                        entries@,
                        #[trigger] states@[i2],
                        #[trigger] actions@[j2],
                    ) by {
                        let w = choose|w: int|
                            0 <= w < prev.len() && (#[trigger] prev[w]).0 == states@[i2]
                                && prev[w].1 == actions@[j2];
                        assert(entries@[w] == prev[w]);
                    }
                    assert forall|j2: int| 0 <= j2 < j + 1 implies table_has_pair(
                        entries@,
                        states@[i as int],
                        #[trigger] actions@[j2],
                    ) by {
                        if j2 < j {
                            let w = choose|w: int|
                                0 <= w < prev.len() && (#[trigger] prev[w]).0 == states@[i as int]
                                    && prev[w].1 == actions@[j2];
                            assert(entries@[w] == prev[w]);
                        } else {
                            assert(entries@[prev.len() as int].0 == states@[i as int]
                                && entries@[prev.len() as int].1 == actions@[j2]);
                        }
                    }
                }
                j += 1;
            }
            i += 1;
        }
        ActionValue { entries }
    }

    /// The current estimate for a pair; zero when the pair was never
    /// recorded.
    pub fn get(&self, state: &S, action: &A) -> (r: i64)
        ensures
            r == table_lookup(self@, *state, *action),
    {
        let n = self.entries.len();
        let mut i: usize = 0;
        proof {
            assert(self@.skip(0) =~= self@);
        }
        while i < n
            invariant
                n == self.entries.len(),
                0 <= i <= n,
                table_lookup(self@, *state, *action) == table_lookup(
                    self@.skip(i as int),
                    *state,
                    *action,
                ),
            decreases n - i,
        {
            let e = &self.entries[i];
            proof {
                assert(self@.skip(i as int)[0] == self@[i as int]);
                assert(self@.skip(i as int).drop_first() =~= self@.skip(i + 1));
            }
            if e.0.key_eq(state) && e.1.key_eq(action) {
                return e.2;
            }
            i += 1;
        }
        proof {
            assert(self@.skip(n as int).len() == 0);
        }
        0
    }

    /// Records a value for a pair: the pair's first entry is overwritten,
    /// or a new entry is appended when the pair is new. Every other
    /// pair's value is unchanged, and the recorded states only grow.
    pub fn insert(&mut self, state: &S, action: &A, value: i64)
        ensures
            table_lookup(final(self)@, *state, *action) == value,
            forall|s2: S, a2: A|
                !(s2 == *state && a2 == *action) ==> table_lookup(final(self)@, s2, a2)
                    == table_lookup(old(self)@, s2, a2),
            forall|s2: S| table_has_state(final(self)@, s2) <==> (table_has_state(old(self)@, s2)
                || s2 == *state),
    {
        let ghost orig = self.entries@;
        let n = self.entries.len();
        let mut i: usize = 0;
        while i < n
            invariant
                n == self.entries.len(),
                self.entries@ == orig,
                orig == old(self)@,
                0 <= i <= n,
                forall|j: int|
                    0 <= j < i ==> !((#[trigger] orig[j]).0 == *state && orig[j].1 == *action),
            decreases n - i,
        {
            let e = &self.entries[i];
            if e.0.key_eq(state) && e.1.key_eq(action) {
                proof {
                    lemma_lookup_update_hit(orig, i as int, *state, *action, value);
                    assert forall|s2: S, a2: A| !(s2 == *state && a2 == *action) implies
                        table_lookup(orig.update(i as int, (*state, *action, value)), s2, a2)
                        == table_lookup(orig, s2, a2) by {
                        lemma_lookup_update_miss(orig, i as int, *state, *action, value, s2, a2);
                    }
                }
                self.entries.set(i, (*state, *action, value));
                proof {
                    assert forall|s2: S|
                        table_has_state(self.entries@, s2) <==> (table_has_state(orig, s2) || s2
                            == *state) by {
                        if table_has_state(orig, s2) {
                            let w = choose|w: int|
                                0 <= w < orig.len() && (#[trigger] orig[w]).0 == s2;
                            if w == i {
                                assert(self.entries@[w].0 == s2);
                            } else {
                                assert(self.entries@[w] == orig[w]);
                            }
                        }
                        if table_has_state(self.entries@, s2) {
                            let w = choose|w: int|
                                0 <= w < self.entries@.len() && (#[trigger] self.entries@[w]).0
                                    == s2;
                            if w == i {
                                assert(orig[w].0 == s2 || s2 == *state);
                            } else {
                                assert(orig[w] == self.entries@[w]);
                            }
                        }
                    }
                }
                return ;
            }
            i += 1;
        }
        proof {
            assert(!table_has_pair(orig, *state, *action));
            lemma_lookup_push_hit(orig, *state, *action, value);
            assert forall|s2: S, a2: A| !(s2 == *state && a2 == *action) implies table_lookup(
                orig.push((*state, *action, value)),
                s2,
                a2,
            ) == table_lookup(orig, s2, a2) by {
                lemma_lookup_push_miss(orig, *state, *action, value, s2, a2);
            }
        }
        self.entries.push((*state, *action, value));
        proof {
            assert forall|s2: S|
                table_has_state(self.entries@, s2) <==> (table_has_state(orig, s2) || s2
                    == *state) by {
                if table_has_state(orig, s2) {
                    let w = choose|w: int| 0 <= w < orig.len() && (#[trigger] orig[w]).0 == s2;
                    assert(self.entries@[w] == orig[w]);
                }
                assert(self.entries@[orig.len() as int].0 == *state);
                if table_has_state(self.entries@, s2) {
                    let w = choose|w: int|
                        0 <= w < self.entries@.len() && (#[trigger] self.entries@[w]).0 == s2;
                    if w < orig.len() {
                        assert(orig[w] == self.entries@[w]);
                    }
                }
            }
        }
    }

    /// The greedy action at a state: the recorded action with the
    /// highest value there, or nothing when the state was never
    /// recorded.
    pub fn greedy(&self, state: &S) -> (r: Option<A>)
        ensures
            r.is_some() <==> table_has_state(self@, *state),
            r matches Some(a) ==> (greedy_spec(self@, *state) matches Some(b) && a == b.0),
    {
        let n = self.entries.len();
        let mut best: Option<(A, i64)> = None;
        let mut i: usize = 0;
        while i < n
            invariant
                n == self.entries.len(),
                0 <= i <= n,
                best == greedy_spec(self@.take(i as int), *state),
                best.is_some() <==> exists|j: int|
                    0 <= j < i && (#[trigger] self@[j]).0 == *state,
            decreases n - i,
        {
            let e = &self.entries[i];
            proof {
                assert(self@.take(i + 1).drop_last() =~= self@.take(i as int));
                assert(self@.take(i + 1).last() == self@[i as int]);
            }
            if e.0.key_eq(state) {
                match best {
                    None => {
                        best = Some((e.1, e.2));
                    },
                    Some((ba, bv)) => {
                        if e.2 > bv {
                            best = Some((e.1, e.2));
                        }
                    },
                }
                proof {
                    assert(self@[i as int].0 == *state);
                }
            }
            i += 1;
        }
        proof {
            assert(self@.take(n as int) =~= self@);
        }
        match best {
            Some((a, _)) => Some(a),
            None => None,
        }
    }

    /// With probability close to epsilon, a uniformly random action from
    /// the given universe; otherwise the greedy action at the state. The
    /// result is always either from the universe or the greedy choice.
    pub fn epsilon_greedy(&self, actions: &Vec<A>, state: &S, epsilon: &Probability) -> (r: A)
        requires
            actions@.len() > 0,
        ensures
            actions@.contains(r) || (greedy_spec(self@, *state) matches Some(b) && r == b.0),
    {
        if explore(epsilon) {
            let k = random_below(actions.len());
            let r = actions[k];
            proof {
                assert(actions@[k as int] == r);
            }
            r
        } else {
            match self.greedy(state) {
                Some(a) => a,
                None => {
                    let k = random_below(actions.len());
                    let r = actions[k];
                    proof {
                        assert(actions@[k as int] == r);
                    }
                    r
                },
            }
        }
    }
}

/// Draws 64 random bits and compares them, as a binary fraction, against
/// the exploration rate exactly; a rate of zero never explores and a
/// rate of one always does.
fn explore(epsilon: &Probability) -> (r: bool)
    ensures
        epsilon@.0 == 0 ==> !r,
        epsilon@.0 == epsilon@.1 ==> r,
{
    let (num, den) = epsilon.value();
    let draw = random_word();
    let lhs = mul_u64_wide(draw, den);
    proof {
        vstd::arithmetic::mul::lemma_mul_upper_bound(
            num as int,
            u64::MAX as int,
            0x1_0000_0000_0000_0000,
            0x1_0000_0000_0000_0000,
        );
        if num == den {
            vstd::arithmetic::mul::lemma_mul_strict_inequality(
                draw as int,
                0x1_0000_0000_0000_0000,
                den as int,
            );
            vstd::arithmetic::mul::lemma_mul_is_commutative(draw as int, den as int);
            vstd::arithmetic::mul::lemma_mul_is_commutative(
                0x1_0000_0000_0000_0000,
                den as int,
            );
        }
    }
    let rhs = (num as u128) * 0x1_0000_0000_0000_0000u128;
    lhs < rhs
}

} // verus!
