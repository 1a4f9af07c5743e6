use vstd::prelude::*;

use crate::error::{Dist, HmmError};
use crate::frac::{spec_tolerance, tolerance, Frac, Rat};
use crate::matrix::{rows_fit, spec_dimensions, spec_row_stochastic, table_rats, Matrix};

verus! {

/// A dense discrete model: the initial distribution `init` (one row of `n`
/// entries), the `n * n` transition table `trans`, and the `n * m` emission
/// table `emit` (traditionally pi, a and b). Validated as a whole at
/// construction.
#[derive(Debug, PartialEq)]
pub struct Params {
    pub n: usize,
    pub m: usize,
    pub init: Vec<Vec<Frac>>,
    pub trans: Vec<Vec<Frac>>,
    pub emit: Vec<Vec<Frac>>,
}

/// Exactly when `Params::from` accepts the three tables: each is
/// row-stochastic within `tol`, there is more than one hidden state, the
/// transition table is square over the hidden states, the emission table
/// has one row per hidden state, and there is more than one possible
/// emission.
pub open spec fn params_ok(
    init: Seq<Seq<Rat>>,
    trans: Seq<Seq<Rat>>,
    emit: Seq<Seq<Rat>>,
    tol: Rat,
) -> bool {
    let ic = spec_dimensions(init).1;
    &&& spec_row_stochastic(init, tol)
    &&& spec_row_stochastic(trans, tol)
    &&& spec_row_stochastic(emit, tol)
    &&& ic > 1
    &&& spec_dimensions(trans).0 == ic
    &&& spec_dimensions(trans).1 == ic
    &&& spec_dimensions(emit).0 == ic
    &&& spec_dimensions(emit).1 > 1
}

impl Params {
    /// Compose a dense model from the initial distribution of the hidden
    /// states, the transition table, and the per-state emission
    /// distributions, validating shape and stochasticity; construction
    /// fails as a whole when any check does.
    pub fn from(init: Vec<Vec<Frac>>, trans: Vec<Vec<Frac>>, emit: Vec<Vec<Frac>>) -> (r: Result<
        Params,
        HmmError,
    >)
        ensures
            rows_fit(table_rats(init@)) && rows_fit(table_rats(trans@)) && rows_fit(
                table_rats(emit@),
            ) ==> (r is Ok <==> params_ok(
                table_rats(init@),
                table_rats(trans@),
                table_rats(emit@),
                spec_tolerance(),
            )),
            match r {
                Ok(p) => p.init@ == init@ && p.trans@ == trans@ && p.emit@ == emit@ && params_ok(
                    table_rats(init@),
                    table_rats(trans@),
                    table_rats(emit@),
                    spec_tolerance(),
                ) && p.n == spec_dimensions(table_rats(emit@)).0 && p.m == spec_dimensions(
                    table_rats(emit@),
                ).1,
                Err(_) => true,
            },
            r is Ok ==> rows_fit(table_rats(init@)) && rows_fit(table_rats(trans@)) && rows_fit(
                table_rats(emit@),
            ),
            ({
                let iv = table_rats(init@);
                let tv = table_rats(trans@);
                let ev = table_rats(emit@);
                let tol = spec_tolerance();
                let ic = spec_dimensions(iv).1 as usize;
                let tr = spec_dimensions(tv).0 as usize;
                let tc = spec_dimensions(tv).1 as usize;
                let er = spec_dimensions(ev).0 as usize;
                let ec = spec_dimensions(ev).1 as usize;
                let shaped = rows_fit(iv) && spec_row_stochastic(iv, tol) && rows_fit(tv)
                    && spec_row_stochastic(tv, tol) && rows_fit(ev) && spec_row_stochastic(ev, tol);
                &&& !rows_fit(iv) ==> r is Err && r->Err_0 == HmmError::Overflow
                &&& rows_fit(iv) && !spec_row_stochastic(iv, tol) ==> r is Err && r->Err_0 == (
                HmmError::NotRowStochastic { which: Dist::Start })
                &&& rows_fit(iv) && spec_row_stochastic(iv, tol) && !rows_fit(tv) ==> r is Err
                    && r->Err_0 == HmmError::Overflow
                &&& rows_fit(iv) && spec_row_stochastic(iv, tol) && rows_fit(tv)
                    && !spec_row_stochastic(tv, tol) ==> r is Err && r->Err_0 == (
                HmmError::NotRowStochastic { which: Dist::Transition })
                &&& rows_fit(iv) && spec_row_stochastic(iv, tol) && rows_fit(tv)
                    && spec_row_stochastic(tv, tol) && !rows_fit(ev) ==> r is Err && r->Err_0
                    == HmmError::Overflow
                &&& rows_fit(iv) && spec_row_stochastic(iv, tol) && rows_fit(tv)
                    && spec_row_stochastic(tv, tol) && rows_fit(ev) && !spec_row_stochastic(ev, tol)
                    ==> r is Err && r->Err_0 == (HmmError::NotRowStochastic {
                    which: Dist::Emission,
                })
                &&& shaped && ic <= 1 ==> r is Err && r->Err_0 == (HmmError::TooFewStates {
                    got: ic,
                })
                &&& shaped && ic > 1 && !(tr == ic && tc == ic) ==> r is Err && r->Err_0 == (
                HmmError::BadDimensions { rows: tr, cols: tc, need_rows: ic, need_cols: ic })
                &&& shaped && ic > 1 && tr == ic && tc == ic && er != ic ==> r is Err && r->Err_0
                    == (HmmError::BadDimensions { rows: er, cols: ec, need_rows: ic, need_cols: ec })
                &&& shaped && ic > 1 && tr == ic && tc == ic && er == ic && ec <= 1 ==> r is Err
                    && r->Err_0 == (HmmError::TooFewEmissions { got: ec })
            }),
    {
        let tol = tolerance();
        let (n, m) = emit.dimensions();
        let (_ir, ic) = init.dimensions();
        let (tr, tc) = trans.dimensions();
        let (er, ec) = emit.dimensions();
        match init.row_stochastic(tol) {
            Ok(true) => {},
            Ok(false) => return Err(HmmError::NotRowStochastic { which: Dist::Start }),
            Err(e) => return Err(e),
        }
        match trans.row_stochastic(tol) {
            Ok(true) => {},
            Ok(false) => return Err(HmmError::NotRowStochastic { which: Dist::Transition }),
            Err(e) => return Err(e),
        }
        match emit.row_stochastic(tol) {
            Ok(true) => {},
            Ok(false) => return Err(HmmError::NotRowStochastic { which: Dist::Emission }),
            Err(e) => return Err(e),
        }
        if !(ic > 1) {
            return Err(HmmError::TooFewStates { got: ic });
        }
        if !(tr == ic && tc == ic) {
            return Err(
                HmmError::BadDimensions { rows: tr, cols: tc, need_rows: ic, need_cols: ic },
            );
        }
        if !(er == ic) {
            return Err(
                HmmError::BadDimensions { rows: er, cols: ec, need_rows: ic, need_cols: ec },
            );
        }
        if !(ec > 1) {
            return Err(HmmError::TooFewEmissions { got: ec });
        }
        Ok(Params { n, m, init, trans, emit })
    }
}

} // verus!
