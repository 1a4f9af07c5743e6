use vstd::prelude::*;

use crate::error::HmmError;
use crate::frac::{csum, csum_fits, rat_near_one, seq_rats, sum_fracs, Frac, Rat};
use crate::model::{Emitter, Starter, Transor};

verus! {

/// The dimensions of a dense table: `(0, 0)` when empty, else the row count
/// and the length of the first row.
pub open spec fn spec_dimensions(rows: Seq<Seq<Rat>>) -> (nat, nat) {
    if rows.len() == 0 {
        (0 as nat, 0 as nat)
    } else {
        (rows.len(), rows[0].len())
    }
}

/// Every row of the table sums to one, within `tol`.
pub open spec fn spec_row_stochastic(rows: Seq<Seq<Rat>>, tol: Rat) -> bool {
    forall|i: int| 0 <= i < rows.len() ==> rat_near_one(csum(#[trigger] rows[i]), tol)
}

/// Every row sum of the table is computable in 64-bit form.
pub open spec fn rows_fit(rows: Seq<Seq<Rat>>) -> bool {
    forall|i: int| 0 <= i < rows.len() ==> csum_fits(#[trigger] rows[i])
}

/// A dense probability table: rows of exact rationals.
pub trait Matrix {
    /// The rational values the table holds, row by row.
    spec fn rows_spec(&self) -> Seq<Seq<Rat>>;

    fn dimensions(&self) -> (r: (usize, usize))
        ensures
            r.0 == spec_dimensions(self.rows_spec()).0,
            r.1 == spec_dimensions(self.rows_spec()).1,
    ;

    /// Whether every row sums to one within `tol`; fails only when a row sum
    /// leaves 64-bit range.
    fn row_stochastic(&self, tol: Frac) -> (r: Result<bool, HmmError>)
        ensures
            r is Ok <==> rows_fit(self.rows_spec()),
            match r {
                Ok(b) => b == spec_row_stochastic(self.rows_spec(), tol@),
                Err(e) => e == HmmError::Overflow,
            },
    ;
}

/// The rational values of a dense table of probabilities.
pub open spec fn table_rats(rows: Seq<Vec<Frac>>) -> Seq<Seq<Rat>> {
    rows.map_values(|row: Vec<Frac>| seq_rats(row@))
}

impl Matrix for Vec<Vec<Frac>> {
    open spec fn rows_spec(&self) -> Seq<Seq<Rat>> {
        table_rats(self@)
    }

    fn dimensions(&self) -> (r: (usize, usize)) {
        if self.len() == 0 {
            (0, 0)
        } else {
            (self.len(), self[0].len())
        }
    }

    fn row_stochastic(&self, tol: Frac) -> (r: Result<bool, HmmError>) {
        let mut ok = true;
        let mut i: usize = 0;
        let n = self.len();
        while i < n
            invariant
                0 <= i <= n,
                n == self@.len(),
                ok == (forall|k: int|
                    0 <= k < i ==> rat_near_one(csum(#[trigger] self.rows_spec()[k]), tol@)),
                forall|k: int| 0 <= k < i ==> csum_fits(#[trigger] self.rows_spec()[k]),
            decreases n - i,
        {
            proof {
                assert(self.rows_spec()[i as int] == seq_rats(self@[i as int]@));
            }
            match sum_fracs(&self[i]) {
                Ok(total) => {
                    if !total.near_one(tol) {
                        ok = false;
                    }
                },
                Err(e) => {
                    proof {
                        assert(!csum_fits(self.rows_spec()[i as int]));
                    }
                    return Err(e);
                },
            }
            i = i + 1;
        }
        Ok(ok)
    }
}

/// The `Starter` reading of a dense vector: entry `i` is the probability
/// that state `i` begins a sequence.
impl Starter<usize> for Vec<Frac> {
    open spec fn start_spec(&self, s: usize) -> Option<Rat> {
        if s < self@.len() {
            Some(self@[s as int]@)
        } else {
            None
        }
    }

    open spec fn start_err(&self, s: usize) -> HmmError {
        HmmError::NoStartEntry { state: s, entries: self@.len() as usize }
    }

    fn startp(&self, s: usize) -> (r: Result<Frac, HmmError>) {
        if s < self.len() {
            Ok(self[s])
        } else {
            Err(HmmError::NoStartEntry { state: s, entries: self.len() })
        }
    }
}

/// The `Emitter` reading of a dense table: row `i` is the emission
/// distribution of state `i` over observation classes `0..columns`.
/// A query into a ragged row is refused rather than read out of bounds.
impl Emitter<usize, usize> for Vec<Vec<Frac>> {
    open spec fn emit_spec(&self, state: usize, observation: usize) -> Option<Rat> {
        if state < self@.len() && observation < spec_dimensions(self.rows_spec()).1 && observation
            < self@[state as int]@.len() {
            Some(self@[state as int]@[observation as int]@)
        } else {
            None
        }
    }

    open spec fn emit_err(&self, state: usize, observation: usize) -> HmmError {
        HmmError::NoEmissionEntry {
            state,
            observation,
            states: spec_dimensions(self.rows_spec()).0 as usize,
            emissions: spec_dimensions(self.rows_spec()).1 as usize,
        }
    }

    fn emitp(&self, state: usize, observation: usize) -> (r: Result<Frac, HmmError>) {
        let (states, emissions) = self.dimensions();
        if state < states && observation < emissions && observation < self[state].len() {
            Ok(self[state][observation])
        } else {
            Err(
                HmmError::NoEmissionEntry {
                    state,
                    observation,
                    states,
                    emissions,
                },
            )
        }
    }
}

/// The `Transor` reading of a dense table: entry `[a][b]` is the probability
/// of state `a` transitioning to state `b`; the states are `0..rows`.
/// A query into a ragged row is refused rather than read out of bounds.
impl Transor<usize> for Vec<Vec<Frac>> {
    open spec fn trans_spec(&self, a: usize, b: usize) -> Option<Rat> {
        if a < self@.len() && b < self@.len() && b < self@[a as int]@.len() {
            Some(self@[a as int]@[b as int]@)
        } else {
            None
        }
    }

    open spec fn states_spec(&self) -> Seq<usize> {
        Seq::new(self@.len(), |i: int| i as usize)
    }

    open spec fn trans_err(&self, a: usize, b: usize) -> HmmError {
        HmmError::NoTransitionEntry { from: a, to: b, states: self@.len() as usize }
    }

    fn transp(&self, a: usize, b: usize) -> (r: Result<Frac, HmmError>) {
        let states = self.len();
        if a < states && b < states && b < self[a].len() {
            Ok(self[a][b])
        } else {
            Err(HmmError::NoTransitionEntry { from: a, to: b, states })
        }
    }

    fn states(&self) -> (r: Vec<usize>) {
        let n = self.len();
        let mut v: Vec<usize> = Vec::new();
        let mut i: usize = 0;
        while i < n
            invariant
                0 <= i <= n,
                n == self@.len(),
                v@.len() == i,
                forall|k: int| 0 <= k < i ==> v@[k] == k as usize,
            decreases n - i,
        {
            v.push(i);
            i = i + 1;
        }
        proof {
            assert(v@ =~= self.states_spec());
        }
        v
    }
}

} // verus!
