use vstd::prelude::*;

use core::marker::PhantomData;

use crate::error::{Dist, HmmError};
use crate::frac::{
    csum, csum_fits, rat_near_one, seq_rats, spec_tolerance, sum_fracs, tolerance, Frac, Rat,
};

verus! {

/// A start distribution over hidden states.
pub trait Starter<S: Copy> {
    /// The probability that state `s` begins a sequence, or `None` when `s`
    /// is outside this distribution's domain.
    spec fn start_spec(&self, s: S) -> Option<Rat>;

    /// The error reported for a query outside the domain.
    spec fn start_err(&self, s: S) -> HmmError;

    fn startp(&self, s: S) -> (r: Result<Frac, HmmError>)
        ensures
            match r {
                Ok(p) => self.start_spec(s) == Some(p@),
                Err(e) => self.start_spec(s) is None && e == self.start_err(s),
            },
    ;
}

/// An emission distribution: per hidden state, a distribution over
/// observations.
pub trait Emitter<S: Copy, O: Copy> {
    /// The probability of `state` emitting `observation`, or `None` when the
    /// query is outside this distribution's domain.
    spec fn emit_spec(&self, state: S, observation: O) -> Option<Rat>;

    /// The error reported for a query outside the domain.
    spec fn emit_err(&self, state: S, observation: O) -> HmmError;

    fn emitp(&self, state: S, observation: O) -> (r: Result<Frac, HmmError>)
        ensures
            match r {
                Ok(p) => self.emit_spec(state, observation) == Some(p@),
                Err(e) => self.emit_spec(state, observation) is None && e == self.emit_err(
                    state,
                    observation,
                ),
            },
    ;
}

/// A transition distribution between hidden states, which also enumerates
/// the full state set. Algorithms index states only through that list.
pub trait Transor<S: Copy> {
    /// The probability of `a` transitioning to `b`, or `None` when the query
    /// is outside this distribution's domain.
    spec fn trans_spec(&self, a: S, b: S) -> Option<Rat>;

    /// The enumeration of all hidden states, in the order this distribution
    /// presents them.
    spec fn states_spec(&self) -> Seq<S>;

    /// The error reported for a query outside the domain.
    spec fn trans_err(&self, a: S, b: S) -> HmmError;

    fn transp(&self, a: S, b: S) -> (r: Result<Frac, HmmError>)
        ensures
            match r {
                Ok(p) => self.trans_spec(a, b) == Some(p@),
                Err(e) => self.trans_spec(a, b) is None && e == self.trans_err(a, b),
            },
    ;

    fn states(&self) -> (r: Vec<S>)
        ensures
            r@ == self.states_spec(),
    ;
}

/// The start probabilities of the enumerated states, as rational values.
pub open spec fn start_row_rats<S: Copy, St: Starter<S>>(start: St, states: Seq<S>) -> Seq<Rat> {
    Seq::new(states.len(), |i: int| start.start_spec(states[i]).unwrap())
}

/// Every enumerated state has a start probability.
pub open spec fn starts_known<S: Copy, St: Starter<S>>(start: St, states: Seq<S>) -> bool {
    forall|i: int| 0 <= i < states.len() ==> (#[trigger] start.start_spec(states[i])) is Some
}

/// Row `a` of the transition distribution over the enumerated states.
pub open spec fn trans_row_rats<S: Copy, T: Transor<S>>(trans: T, states: Seq<S>, a: int) -> Seq<
    Rat,
> {
    Seq::new(states.len(), |j: int| trans.trans_spec(states[a], states[j]).unwrap())
}

/// Every transition between enumerated states has a probability.
pub open spec fn trans_known<S: Copy, T: Transor<S>>(trans: T, states: Seq<S>) -> bool {
    forall|a: int, j: int|
        0 <= a < states.len() && 0 <= j < states.len() ==> (#[trigger] trans.trans_spec(
            states[a],
            states[j],
        )) is Some
}

/// Exactly when `Model::from` accepts these components: more than one state,
/// all start and transition probabilities defined, their row sums computable
/// in 64-bit form, and each row sum within `tol` of one.
pub open spec fn from_ok<S: Copy, St: Starter<S>, T: Transor<S>>(
    start: St,
    trans: T,
    tol: Rat,
) -> bool {
    let states = trans.states_spec();
    &&& states.len() > 1
    &&& starts_known(start, states)
    &&& csum_fits(start_row_rats(start, states))
    &&& rat_near_one(csum(start_row_rats(start, states)), tol)
    &&& trans_known(trans, states)
    &&& forall|a: int|
        0 <= a < states.len() ==> csum_fits(#[trigger] trans_row_rats(trans, states, a))
            && rat_near_one(csum(trans_row_rats(trans, states, a)), tol)
}

/// The validated part of a model: more than one hidden state, and start and
/// transition rows that each sum to one within `tol`.
pub open spec fn stochastic_model<
    S: Copy,
    O: Copy,
    St: Starter<S>,
    E: Emitter<S, O>,
    T: Transor<S>,
>(m: Model<S, O, St, E, T>, tol: Rat) -> bool {
    let states = m.trans.states_spec();
    &&& states.len() > 1
    &&& starts_known(m.start, states)
    &&& rat_near_one(csum(start_row_rats(m.start, states)), tol)
    &&& trans_known(m.trans, states)
    &&& forall|a: int|
        0 <= a < states.len() ==> rat_near_one(csum(#[trigger] trans_row_rats(m.trans, states, a)), tol)
}

/// An immutable hidden Markov model: one start distribution, one emission
/// distribution and one transition distribution, generic over the state and
/// observation types.
pub struct Model<S: Copy, O: Copy, St: Starter<S>, E: Emitter<S, O>, T: Transor<S>> {
    pub start: St,
    pub emitter: E,
    pub trans: T,
    pub state_marker: PhantomData<S>,
    pub observation_marker: PhantomData<O>,
}

impl<S: Copy, O: Copy, St: Starter<S>, E: Emitter<S, O>, T: Transor<S>> Model<S, O, St, E, T> {
    /// Compose a model after validating it: the state set must hold more
    /// than one state, and the start distribution and every transition row
    /// must sum to one within the library tolerance. Construction fails as a
    /// whole when any check fails.
    pub fn from(start: St, emitter: E, trans: T) -> (r: Result<Self, HmmError>)
        ensures
            r is Ok <==> from_ok(start, trans, spec_tolerance()),
            match r {
                Ok(m) => m.start == start && m.emitter == emitter && m.trans == trans
                    && stochastic_model(m, spec_tolerance()),
                Err(_) => true,
            },
            ({
                let states = trans.states_spec();
                let tol = spec_tolerance();
                let srow = start_row_rats(start, states);
                &&& states.len() <= 1 ==> r is Err && r->Err_0 == (HmmError::TooFewStates {
                    got: states.len() as usize,
                })
                &&& states.len() > 1 && !starts_known(start, states) ==> r is Err && exists|i: int|
                    0 <= i < states.len() && start.start_spec(#[trigger] states[i]) is None
                        && r->Err_0 == start.start_err(states[i])
                &&& states.len() > 1 && starts_known(start, states) && !csum_fits(srow) ==> r is Err
                    && r->Err_0 == HmmError::Overflow
                &&& states.len() > 1 && starts_known(start, states) && csum_fits(srow)
                    && !rat_near_one(csum(srow), tol) ==> r is Err && r->Err_0 == (
                HmmError::NotRowStochastic { which: Dist::Start })
                &&& states.len() > 1 && starts_known(start, states) && csum_fits(srow)
                    && rat_near_one(csum(srow), tol) && trans_known(trans, states) && (forall|a: int|
                    0 <= a < states.len() ==> csum_fits(
                        #[trigger] trans_row_rats(trans, states, a),
                    )) && !(forall|a: int|
                    0 <= a < states.len() ==> rat_near_one(
                        csum(#[trigger] trans_row_rats(trans, states, a)),
                        tol,
                    )) ==> r is Err && r->Err_0 == (HmmError::NotRowStochastic {
                    which: Dist::Transition,
                })
            }),
    {
        let states = trans.states();
        let n = states.len();
        if n <= 1 {
            return Err(HmmError::TooFewStates { got: n });
        }
        let tol = tolerance();
        let mut row: Vec<Frac> = Vec::new();
        let mut i: usize = 0;
        while i < n
            invariant
                0 <= i <= n,
                n == states@.len(),
                n > 1,
                states@ == trans.states_spec(),
                row@.len() == i,
                forall|k: int|
                    0 <= k < i ==> (#[trigger] start.start_spec(states@[k])) is Some,
                forall|k: int|
                    0 <= k < i ==> (#[trigger] row@[k])@ == start.start_spec(states@[k]).unwrap(),
            decreases n - i,
        {
            match start.startp(states[i]) {
                Ok(p) => row.push(p),
                Err(e) => {
                    proof {
                        assert(0 <= i < states@.len() && start.start_spec(states@[i as int])
                            is None && e == start.start_err(states@[i as int]));
                    }
                    return Err(e);
                },
            }
            i = i + 1;
        }
        proof {
            assert(seq_rats(row@) =~= start_row_rats(start, states@));
        }
        let total = match sum_fracs(&row) {
            Ok(t) => t,
            Err(e) => return Err(e),
        };
        if !total.near_one(tol) {
            return Err(HmmError::NotRowStochastic { which: Dist::Start });
        }
        let mut a: usize = 0;
        while a < n
            invariant
                0 <= a <= n,
                n == states@.len(),
                n > 1,
                states@ == trans.states_spec(),
                starts_known(start, states@),
                csum_fits(start_row_rats(start, states@)),
                rat_near_one(csum(start_row_rats(start, states@)), spec_tolerance()),
                forall|x: int, j: int|
                    0 <= x < a && 0 <= j < n ==> (#[trigger] trans.trans_spec(
                        states@[x],
                        states@[j],
                    )) is Some,
                forall|x: int|
                    0 <= x < a ==> csum_fits(#[trigger] trans_row_rats(trans, states@, x))
                        && rat_near_one(csum(trans_row_rats(trans, states@, x)), spec_tolerance()),
                tol@ == spec_tolerance(),
            decreases n - a,
        {
            let mut trow: Vec<Frac> = Vec::new();
            let mut b: usize = 0;
            while b < n
                invariant
                    0 <= b <= n,
                    a < n,
                    n == states@.len(),
                    n > 1,
                    states@ == trans.states_spec(),
                    starts_known(start, states@),
                    csum_fits(start_row_rats(start, states@)),
                    rat_near_one(csum(start_row_rats(start, states@)), spec_tolerance()),
                    trow@.len() == b,
                    forall|j: int|
                        0 <= j < b ==> (#[trigger] trans.trans_spec(states@[a as int], states@[j]))
                            is Some,
                    forall|j: int|
                        0 <= j < b ==> (#[trigger] trow@[j])@ == trans.trans_spec(
                            states@[a as int],
                            states@[j],
                        ).unwrap(),
                decreases n - b,
            {
                match trans.transp(states[a], states[b]) {
                    Ok(p) => trow.push(p),
                    Err(e) => return Err(e),
                }
                b = b + 1;
            }
            proof {
                assert(seq_rats(trow@) =~= trans_row_rats(trans, states@, a as int));
            }
            let t = match sum_fracs(&trow) {
                Ok(t) => t,
                Err(e) => return Err(e),
            };
            if !t.near_one(tol) {
                return Err(HmmError::NotRowStochastic { which: Dist::Transition });
            }
            a = a + 1;
        }
        Ok(
            Model {
                start,
                emitter,
                trans,
                state_marker: PhantomData,
                observation_marker: PhantomData,
            },
        )
    }
}

} // verus!
