use vstd::prelude::*;

use crate::error::HmmError;
use crate::frac::{
    cdiv, cmul, csum, csum_fits, div_fits, mul_fits, rat_near_one, seq_rats, sum_fracs, Frac, Rat,
};
use crate::model::{Emitter, Model, Starter, Transor};

verus! {

/// The summands of the scaled backward value at time `t`, state index `i`:
/// `trans(i, j) * emit(j, obs[t+1]) * beta[t+1][j]` for each successor `j`.
pub open spec fn beta_terms<S: Copy, O: Copy, St: Starter<S>, E: Emitter<S, O>, T: Transor<S>>(
    m: Model<S, O, St, E, T>,
    obs: Seq<O>,
    coefs: Seq<Rat>,
    t: int,
    i: int,
) -> Seq<Rat>
    decreases obs.len() - t, 0int,
{
    let states = m.trans.states_spec();
    if t + 1 >= obs.len() {
        Seq::empty()
    } else {
        Seq::new(
            states.len(),
            |j: int|
                cmul(
                    cmul(
                        m.trans.trans_spec(states[i], states[j]).unwrap(),
                        m.emitter.emit_spec(states[j], obs[t + 1]).unwrap(),
                    ),
                    beta_val(m, obs, coefs, t + 1, j),
                ),
        )
    }
}

/// The scaled backward value at time `t`, state index `i`: the last row
/// holds that row's scaling coefficient for every state, and each earlier
/// row is its own coefficient times the sum of its successor terms. The
/// coefficients are the ones the forward pass recorded, so both passes
/// share one scale per time step.
pub open spec fn beta_val<S: Copy, O: Copy, St: Starter<S>, E: Emitter<S, O>, T: Transor<S>>(
    m: Model<S, O, St, E, T>,
    obs: Seq<O>,
    coefs: Seq<Rat>,
    t: int,
    i: int,
) -> Rat
    decreases obs.len() - t, 1int,
{
    if t >= obs.len() - 1 {
        coefs[t]
    } else {
        cmul(coefs[t], csum(beta_terms(m, obs, coefs, t, i)))
    }
}

/// Every probability the backward pass reads is defined.
pub open spec fn beta_covers<S: Copy, O: Copy, St: Starter<S>, E: Emitter<S, O>, T: Transor<S>>(
    m: Model<S, O, St, E, T>,
    obs: Seq<O>,
) -> bool {
    let states = m.trans.states_spec();
    &&& obs.len() >= 2 ==> crate::model::trans_known(m.trans, states)
    &&& forall|t: int, j: int|
        1 <= t < obs.len() && 0 <= j < states.len() ==> (#[trigger] m.emitter.emit_spec(
            states[j],
            obs[t],
        )) is Some
}

/// Every arithmetic step of backward row `t` stays within 64-bit form.
pub open spec fn beta_row_fits<S: Copy, O: Copy, St: Starter<S>, E: Emitter<S, O>, T: Transor<S>>(
    m: Model<S, O, St, E, T>,
    obs: Seq<O>,
    coefs: Seq<Rat>,
    t: int,
) -> bool {
    let states = m.trans.states_spec();
    forall|i: int|
        0 <= i < states.len() ==> (forall|j: int|
            0 <= j < states.len() ==> mul_fits(
                m.trans.trans_spec(#[trigger] states[i], #[trigger] states[j]).unwrap(),
                m.emitter.emit_spec(states[j], obs[t + 1]).unwrap(),
            ) && mul_fits(
                cmul(
                    m.trans.trans_spec(states[i], states[j]).unwrap(),
                    m.emitter.emit_spec(states[j], obs[t + 1]).unwrap(),
                ),
                beta_val(m, obs, coefs, t + 1, j),
            )) && csum_fits(#[trigger] beta_terms(m, obs, coefs, t, i)) && mul_fits(
            coefs[t],
            csum(beta_terms(m, obs, coefs, t, i)),
        )
}

pub open spec fn beta_fits<S: Copy, O: Copy, St: Starter<S>, E: Emitter<S, O>, T: Transor<S>>(
    m: Model<S, O, St, E, T>,
    obs: Seq<O>,
    coefs: Seq<Rat>,
) -> bool {
    forall|t: int| 0 <= t < obs.len() - 1 ==> #[trigger] beta_row_fits(m, obs, coefs, t)
}

/// The scaled backward pass, reusing the forward pass's per-step scaling
/// coefficients: `beta[T-1][i] = coef[T-1]` and, for `t` descending,
/// `beta[t][i] = coef[t] * sum_j trans(i,j)*emit(j,obs[t+1])*beta[t+1][j]`.
/// Succeeds exactly when every queried probability is defined and every
/// exact product fits 64-bit form.
pub fn backward<S: Copy, O: Copy, St: Starter<S>, E: Emitter<S, O>, T: Transor<S>>(
    obs: &Vec<O>,
    model: &Model<S, O, St, E, T>,
    coefs: &Vec<Frac>,
) -> (r: Result<Vec<Vec<Frac>>, HmmError>)
    requires
        obs@.len() >= 1,
        coefs@.len() == obs@.len(),
    ensures
        r is Ok <==> beta_covers(*model, obs@) && beta_fits(*model, obs@, seq_rats(coefs@)),
        match r {
            Ok(beta) => {
                let states = model.trans.states_spec();
                &&& beta@.len() == obs@.len()
                &&& forall|t: int|
                    0 <= t < obs@.len() ==> (#[trigger] beta@[t])@.len() == states.len()
                &&& forall|t: int, i: int|
                    0 <= t < obs@.len() && 0 <= i < states.len() ==> (#[trigger] beta@[t]@[i])@
                        == beta_val(*model, obs@, seq_rats(coefs@), t, i)
            },
            Err(e) => e == HmmError::Overflow || !beta_covers(*model, obs@),
        },
{
    let ghost m = *model;
    let ghost o = obs@;
    let ghost cv = seq_rats(coefs@);
    let states = model.trans.states();
    let n = states.len();
    let tlen = obs.len();

    // rows from the last time step down, most recent first
    let mut rev: Vec<Vec<Frac>> = Vec::new();
    let last = coefs[tlen - 1];
    let mut row0: Vec<Frac> = Vec::new();
    let mut i0: usize = 0;
    while i0 < n
        invariant
            0 <= i0 <= n,
            last@ == cv[o.len() - 1],
            row0@.len() == i0,
            forall|x: int| 0 <= x < i0 ==> (#[trigger] row0@[x])@ == cv[o.len() - 1],
        decreases n - i0,
    {
        row0.push(last);
        i0 = i0 + 1;
    }
    rev.push(row0);
    let mut t: usize = tlen - 1;
    while t > 0
        invariant
            0 <= t <= tlen - 1,
            tlen == o.len(),
            tlen >= 1,
            n == states@.len(),
            states@ == m.trans.states_spec(),
            m == *model,
            o == obs@,
            cv == seq_rats(coefs@),
            cv.len() == tlen,
            rev@.len() == tlen - t,
            forall|k: int| 0 <= k < rev@.len() ==> (#[trigger] rev@[k])@.len() == n,
            forall|k: int, x: int|
                0 <= k < rev@.len() && 0 <= x < n ==> (#[trigger] rev@[k]@[x])@ == beta_val(
                    m,
                    o,
                    cv,
                    tlen - 1 - k,
                    x,
                ),
            forall|r2: int| t <= r2 < tlen - 1 ==> #[trigger] beta_row_fits(m, o, cv, r2),
            forall|r2: int, j2: int|
                t < r2 < tlen && 0 <= j2 < n ==> (#[trigger] m.emitter.emit_spec(
                    states@[j2],
                    o[r2],
                )) is Some,
            t < tlen - 1 ==> crate::model::trans_known(m.trans, states@),
        decreases t,
    {
        let cur = t - 1;
        let mut row: Vec<Frac> = Vec::new();
        let mut i: usize = 0;
        while i < n
            invariant
                0 <= i <= n,
                0 <= cur < tlen - 1,
                cur + 1 == t,
                tlen == o.len(),
                n == states@.len(),
                states@ == m.trans.states_spec(),
                m == *model,
                o == obs@,
                cv == seq_rats(coefs@),
                cv.len() == tlen,
                rev@.len() == tlen - t,
                forall|k: int| 0 <= k < rev@.len() ==> (#[trigger] rev@[k])@.len() == n,
                forall|k: int, x: int|
                    0 <= k < rev@.len() && 0 <= x < n ==> (#[trigger] rev@[k]@[x])@ == beta_val(
                        m,
                        o,
                        cv,
                        tlen - 1 - k,
                        x,
                    ),
                row@.len() == i,
                forall|x: int|
                    0 <= x < i ==> (#[trigger] row@[x])@ == beta_val(m, o, cv, cur as int, x),
                forall|x: int, j2: int|
                    0 <= x < i && 0 <= j2 < n ==> (#[trigger] m.trans.trans_spec(
                        states@[x],
                        states@[j2],
                    )) is Some,
                forall|j2: int|
                    i > 0 && 0 <= j2 < n ==> (#[trigger] m.emitter.emit_spec(
                        states@[j2],
                        o[cur + 1],
                    )) is Some,
                forall|x: int, j2: int|
                    0 <= x < i && 0 <= j2 < n ==> mul_fits(
                        m.trans.trans_spec(#[trigger] states@[x], #[trigger] states@[j2]).unwrap(),
                        m.emitter.emit_spec(states@[j2], o[cur + 1]).unwrap(),
                    ) && mul_fits(
                        cmul(
                            m.trans.trans_spec(states@[x], states@[j2]).unwrap(),
                            m.emitter.emit_spec(states@[j2], o[cur + 1]).unwrap(),
                        ),
                        beta_val(m, o, cv, cur + 1, j2),
                    ),
                forall|x: int|
                    0 <= x < i ==> csum_fits(#[trigger] beta_terms(m, o, cv, cur as int, x))
                        && mul_fits(cv[cur as int], csum(beta_terms(m, o, cv, cur as int, x))),
            decreases n - i,
        {
            let prev_idx = rev.len() - 1;
            let mut terms: Vec<Frac> = Vec::new();
            let mut j: usize = 0;
            while j < n
                invariant
                    0 <= j <= n,
                    0 <= i < n,
                    0 <= cur < tlen - 1,
                    cur + 1 == t,
                    tlen == o.len(),
                    n == states@.len(),
                    states@ == m.trans.states_spec(),
                    m == *model,
                    o == obs@,
                    cv == seq_rats(coefs@),
                    cv.len() == tlen,
                    prev_idx == rev@.len() - 1,
                    rev@.len() == tlen - t,
                    forall|k: int| 0 <= k < rev@.len() ==> (#[trigger] rev@[k])@.len() == n,
                    forall|k: int, x: int|
                        0 <= k < rev@.len() && 0 <= x < n ==> (#[trigger] rev@[k]@[x])@ == beta_val(
                            m,
                            o,
                            cv,
                            tlen - 1 - k,
                            x,
                        ),
                    terms@.len() == j,
                    forall|j2: int|
                        0 <= j2 < j ==> (#[trigger] terms@[j2])@ == beta_terms(
                            m,
                            o,
                            cv,
                            cur as int,
                            i as int,
                        )[j2],
                    forall|j2: int|
                        0 <= j2 < j ==> (#[trigger] m.trans.trans_spec(
                            states@[i as int],
                            states@[j2],
                        )) is Some,
                    forall|j2: int|
                        0 <= j2 < j ==> (#[trigger] m.emitter.emit_spec(states@[j2], o[cur + 1]))
                            is Some,
                    forall|j2: int|
                        0 <= j2 < j ==> mul_fits(
                            m.trans.trans_spec(states@[i as int], #[trigger] states@[j2]).unwrap(),
                            m.emitter.emit_spec(states@[j2], o[cur + 1]).unwrap(),
                        ) && mul_fits(
                            cmul(
                                m.trans.trans_spec(states@[i as int], states@[j2]).unwrap(),
                                m.emitter.emit_spec(states@[j2], o[cur + 1]).unwrap(),
                            ),
                            beta_val(m, o, cv, cur + 1, j2),
                        ),
                decreases n - j,
            {
                let src = states[i];
                let dst = states[j];
                let tp = match model.trans.transp(src, dst) {
                    Ok(p) => p,
                    Err(e) => return Err(e),
                };
                let em = match model.emitter.emitp(dst, obs[cur + 1]) {
                    Ok(p) => p,
                    Err(e) => return Err(e),
                };
                let te = match tp.try_mul(em) {
                    Ok(v) => v,
                    Err(e) => {
                        proof {
                            assert(beta_terms(m, o, cv, cur as int, i as int).len() == n);
                            assert(!beta_row_fits(m, o, cv, cur as int));
                        }
                        return Err(e);
                    },
                };
                let ghost prev_val = beta_val(m, o, cv, cur + 1, j as int);
                proof {
                    assert(rev@[prev_idx as int]@[j as int]@ == prev_val);
                }
                let term = match te.try_mul(rev[prev_idx][j]) {
                    Ok(v) => v,
                    Err(e) => {
                        proof {
                            assert(beta_terms(m, o, cv, cur as int, i as int).len() == n);
                            assert(!beta_row_fits(m, o, cv, cur as int));
                        }
                        return Err(e);
                    },
                };
                terms.push(term);
                j = j + 1;
            }
            proof {
                assert(seq_rats(terms@) =~= beta_terms(m, o, cv, cur as int, i as int));
            }
            let total = match sum_fracs(&terms) {
                Ok(s) => s,
                Err(e) => {
                    proof {
                        assert(seq_rats(terms@) == beta_terms(m, o, cv, cur as int, i as int));
                        assert(!csum_fits(seq_rats(terms@)));
                        assert(!csum_fits(beta_terms(m, o, cv, cur as int, i as int)));
                        assert(!beta_row_fits(m, o, cv, cur as int)) by {
                            if beta_row_fits(m, o, cv, cur as int) {
                                assert(csum_fits(beta_terms(m, o, cv, cur as int, i as int)));
                            }
                        }
                    }
                    return Err(e);
                },
            };
            let v = match coefs[cur].try_mul(total) {
                Ok(v) => v,
                Err(e) => {
                    proof {
                        assert(!beta_row_fits(m, o, cv, cur as int)) by {
                            if beta_row_fits(m, o, cv, cur as int) {
                                assert(mul_fits(
                                    cv[cur as int],
                                    csum(beta_terms(m, o, cv, cur as int, i as int)),
                                ));
                            }
                        }
                    }
                    return Err(e);
                },
            };
            row.push(v);
            i = i + 1;
        }
        rev.push(row);
        t = cur;
    }
    // flip into time order
    let mut out: Vec<Vec<Frac>> = Vec::new();
    let mut t2: usize = 0;
    while t2 < tlen
        invariant
            0 <= t2 <= tlen,
            tlen == o.len(),
            n == states@.len(),
            m == *model,
            o == obs@,
            cv == seq_rats(coefs@),
            rev@.len() == tlen,
            forall|k: int| 0 <= k < tlen ==> (#[trigger] rev@[k])@.len() == n,
            forall|k: int, x: int|
                0 <= k < tlen && 0 <= x < n ==> (#[trigger] rev@[k]@[x])@ == beta_val(
                    m,
                    o,
                    cv,
                    tlen - 1 - k,
                    x,
                ),
            out@.len() == t2,
            forall|k: int| 0 <= k < t2 ==> (#[trigger] out@[k])@.len() == n,
            forall|k: int, x: int|
                0 <= k < t2 && 0 <= x < n ==> (#[trigger] out@[k]@[x])@ == beta_val(m, o, cv, k, x),
        decreases tlen - t2,
    {
        let srcrow = &rev[tlen - 1 - t2];
        let mut row: Vec<Frac> = Vec::new();
        let mut x: usize = 0;
        while x < n
            invariant
                0 <= x <= n,
                srcrow@.len() == n,
                row@.len() == x,
                forall|y: int| 0 <= y < x ==> (#[trigger] row@[y]) == srcrow@[y],
            decreases n - x,
        {
            let v = srcrow[x];
            row.push(v);
            x = x + 1;
        }
        out.push(row);
        t2 = t2 + 1;
    }
    Ok(out)
}

/// One summand of a pairwise-occupation denominator:
/// `alpha[t][i] * trans(i,j) * emit(j, obs[t+1]) * beta[t+1][j]`.
pub open spec fn occ_term<S: Copy, O: Copy, St: Starter<S>, E: Emitter<S, O>, T: Transor<S>>(
    m: Model<S, O, St, E, T>,
    obs: Seq<O>,
    av: Seq<Seq<Rat>>,
    bv: Seq<Seq<Rat>>,
    t: int,
    i: int,
    j: int,
) -> Rat {
    let states = m.trans.states_spec();
    cmul(
        cmul(
            cmul(av[t][i], m.trans.trans_spec(states[i], states[j]).unwrap()),
            m.emitter.emit_spec(states[j], obs[t + 1]).unwrap(),
        ),
        bv[t + 1][j],
    )
}

/// All pairwise summands of step `t`, row by row.
pub open spec fn occ_flat<S: Copy, O: Copy, St: Starter<S>, E: Emitter<S, O>, T: Transor<S>>(
    m: Model<S, O, St, E, T>,
    obs: Seq<O>,
    av: Seq<Seq<Rat>>,
    bv: Seq<Seq<Rat>>,
    t: int,
) -> Seq<Rat> {
    let n = m.trans.states_spec().len() as int;
    Seq::new((n * n) as nat, |k: int| occ_term(m, obs, av, bv, t, k / n, k % n))
}

/// The normalizer of step `t`: the sum of all pairwise summands.
pub open spec fn occ_denom<S: Copy, O: Copy, St: Starter<S>, E: Emitter<S, O>, T: Transor<S>>(
    m: Model<S, O, St, E, T>,
    obs: Seq<O>,
    av: Seq<Seq<Rat>>,
    bv: Seq<Seq<Rat>>,
    t: int,
) -> Rat {
    csum(occ_flat(m, obs, av, bv, t))
}

/// The pairwise state-occupation value: the probability of being in state
/// `i` at `t` and state `j` at `t+1`, given the observations.
pub open spec fn gap_val<S: Copy, O: Copy, St: Starter<S>, E: Emitter<S, O>, T: Transor<S>>(
    m: Model<S, O, St, E, T>,
    obs: Seq<O>,
    av: Seq<Seq<Rat>>,
    bv: Seq<Seq<Rat>>,
    t: int,
    i: int,
    j: int,
) -> Rat {
    cdiv(occ_term(m, obs, av, bv, t, i, j), occ_denom(m, obs, av, bv, t))
}

pub open spec fn gap_row<S: Copy, O: Copy, St: Starter<S>, E: Emitter<S, O>, T: Transor<S>>(
    m: Model<S, O, St, E, T>,
    obs: Seq<O>,
    av: Seq<Seq<Rat>>,
    bv: Seq<Seq<Rat>>,
    t: int,
    i: int,
) -> Seq<Rat> {
    Seq::new(m.trans.states_spec().len(), |j: int| gap_val(m, obs, av, bv, t, i, j))
}

/// The state-occupation value: for every step but the last, the sum of
/// that state's pairwise row; for the last step, the state's share of the
/// final forward row.
pub open spec fn gamma_val<S: Copy, O: Copy, St: Starter<S>, E: Emitter<S, O>, T: Transor<S>>(
    m: Model<S, O, St, E, T>,
    obs: Seq<O>,
    av: Seq<Seq<Rat>>,
    bv: Seq<Seq<Rat>>,
    t: int,
    i: int,
) -> Rat {
    if t == obs.len() - 1 {
        cdiv(av[t][i], csum(av[t]))
    } else {
        csum(gap_row(m, obs, av, bv, t, i))
    }
}

/// No normalizer of the statistics is zero: every step's pairwise
/// denominator and the final forward row sum are positive.
pub open spec fn occ_positive<S: Copy, O: Copy, St: Starter<S>, E: Emitter<S, O>, T: Transor<S>>(
    m: Model<S, O, St, E, T>,
    obs: Seq<O>,
    av: Seq<Seq<Rat>>,
    bv: Seq<Seq<Rat>>,
) -> bool {
    &&& forall|t: int| 0 <= t < obs.len() - 1 ==> (#[trigger] occ_denom(m, obs, av, bv, t)).n > 0
    &&& csum(av[obs.len() - 1]).n > 0
}

/// Every arithmetic step of the statistics at step `t` stays within
/// 64-bit lowest-terms form.
pub open spec fn occ_step_fits<S: Copy, O: Copy, St: Starter<S>, E: Emitter<S, O>, T: Transor<S>>(
    m: Model<S, O, St, E, T>,
    obs: Seq<O>,
    av: Seq<Seq<Rat>>,
    bv: Seq<Seq<Rat>>,
    t: int,
) -> bool {
    let states = m.trans.states_spec();
    &&& forall|i: int, j: int|
        0 <= i < states.len() && 0 <= j < states.len() ==> mul_fits(
            av[t][i],
            m.trans.trans_spec(states[i], states[j]).unwrap(),
        ) && mul_fits(
            cmul(av[t][i], m.trans.trans_spec(states[i], states[j]).unwrap()),
            m.emitter.emit_spec(states[j], obs[t + 1]).unwrap(),
        ) && mul_fits(
            cmul(
                cmul(av[t][i], m.trans.trans_spec(states[i], states[j]).unwrap()),
                m.emitter.emit_spec(states[j], obs[t + 1]).unwrap(),
            ),
            bv[t + 1][j],
        ) && div_fits(#[trigger] occ_term(m, obs, av, bv, t, i, j), occ_denom(m, obs, av, bv, t))
    &&& csum_fits(occ_flat(m, obs, av, bv, t))
    &&& forall|i: int| 0 <= i < states.len() ==> csum_fits(#[trigger] gap_row(m, obs, av, bv, t, i))
}

/// The final-step share computations stay within 64-bit form.
pub open spec fn occ_last_fits<S: Copy, O: Copy, St: Starter<S>, E: Emitter<S, O>, T: Transor<S>>(
    m: Model<S, O, St, E, T>,
    obs: Seq<O>,
    av: Seq<Seq<Rat>>,
) -> bool {
    let states = m.trans.states_spec();
    &&& csum_fits(av[obs.len() - 1])
    &&& forall|i: int|
        0 <= i < states.len() ==> div_fits(#[trigger] av[obs.len() - 1][i], csum(av[obs.len() - 1]))
}

/// Every arithmetic step of the whole statistics stays within 64-bit form.
pub open spec fn occ_fits<S: Copy, O: Copy, St: Starter<S>, E: Emitter<S, O>, T: Transor<S>>(
    m: Model<S, O, St, E, T>,
    obs: Seq<O>,
    av: Seq<Seq<Rat>>,
    bv: Seq<Seq<Rat>>,
) -> bool {
    &&& forall|t: int| 0 <= t < obs.len() - 1 ==> #[trigger] occ_step_fits(m, obs, av, bv, t)
    &&& occ_last_fits(m, obs, av)
}

/// The pairwise (gap) and per-state state-occupation statistics from the
/// forward and backward passes: `gap[t][i][j]` is the probability of state
/// `i` at `t` and state `j` at `t+1`; `gamma[t][i]` the probability of
/// state `i` at `t`. Succeeds exactly when every queried probability is
/// defined, no normalizer is zero (some state sequence is consistent with
/// the observations), and every exact product and quotient fits 64-bit
/// lowest-terms form.
#[verifier::rlimit(60)]
pub fn occupation_stats<S: Copy, O: Copy, St: Starter<S>, E: Emitter<S, O>, T: Transor<S>>(
    obs: &Vec<O>,
    model: &Model<S, O, St, E, T>,
    alpha: &Vec<Vec<Frac>>,
    beta: &Vec<Vec<Frac>>,
) -> (r: Result<(crate::cube::Cube<Frac>, Vec<Vec<Frac>>), HmmError>)
    requires
        obs@.len() >= 1,
        alpha@.len() == obs@.len(),
        beta@.len() == obs@.len(),
        forall|t: int|
            0 <= t < obs@.len() ==> (#[trigger] alpha@[t])@.len()
                == model.trans.states_spec().len(),
        forall|t: int|
            0 <= t < obs@.len() ==> (#[trigger] beta@[t])@.len() == model.trans.states_spec().len(),
    ensures
        ({
            let av = crate::matrix::table_rats(alpha@);
            let bv = crate::matrix::table_rats(beta@);
            let states = model.trans.states_spec();
            &&& (r is Ok <==> beta_covers(*model, obs@) && occ_positive(*model, obs@, av, bv)
                && occ_fits(*model, obs@, av, bv))
            &&& match r {
                Ok((gap, gamma)) => {
                    &&& gap@.len() == obs@.len() - 1
                    &&& forall|t: int| 0 <= t < obs@.len() - 1 ==> (#[trigger] gap@[t]).len()
                        == states.len()
                    &&& forall|t: int, i: int|
                        0 <= t < obs@.len() - 1 && 0 <= i < states.len() ==> (
                        #[trigger] gap@[t][i]).len() == states.len()
                    &&& forall|t: int, i: int, j: int|
                        0 <= t < obs@.len() - 1 && 0 <= i < states.len() && 0 <= j < states.len()
                            ==> (#[trigger] gap@[t][i][j])@ == gap_val(*model, obs@, av, bv, t, i, j)
                    &&& gamma@.len() == obs@.len()
                    &&& forall|t: int|
                        0 <= t < obs@.len() ==> (#[trigger] gamma@[t])@.len() == states.len()
                    &&& forall|t: int, i: int|
                        0 <= t < obs@.len() && 0 <= i < states.len() ==> (#[trigger] gamma@[t]@[i])@
                            == gamma_val(*model, obs@, av, bv, t, i)
                },
                Err(e) => e == HmmError::Overflow || e == HmmError::ZeroProbability
                    || !beta_covers(*model, obs@),
            }
        }),
{
    let ghost m = *model;
    let ghost o = obs@;
    let ghost av = crate::matrix::table_rats(alpha@);
    let ghost bv = crate::matrix::table_rats(beta@);
    let states = model.trans.states();
    let n = states.len();
    let tlen = obs.len();

    let mut gap_stack: Vec<Vec<Vec<Frac>>> = Vec::new();
    let mut gamma: Vec<Vec<Frac>> = Vec::new();
    let mut t: usize = 0;
    while t < tlen - 1
        invariant
            0 <= t <= tlen - 1,
            tlen == o.len(),
            tlen >= 1,
            n == states@.len(),
            states@ == m.trans.states_spec(),
            m == *model,
            o == obs@,
            av == crate::matrix::table_rats(alpha@),
            bv == crate::matrix::table_rats(beta@),
            alpha@.len() == tlen,
            beta@.len() == tlen,
            forall|r2: int| 0 <= r2 < tlen ==> (#[trigger] alpha@[r2])@.len() == n,
            forall|r2: int| 0 <= r2 < tlen ==> (#[trigger] beta@[r2])@.len() == n,
            gap_stack@.len() == t,
            gamma@.len() == t,
            forall|r2: int| 0 <= r2 < t ==> (#[trigger] gap_stack@[r2])@.len() == n,
            forall|r2: int, i2: int|
                0 <= r2 < t && 0 <= i2 < n ==> (#[trigger] gap_stack@[r2]@[i2])@.len() == n,
            forall|r2: int, i2: int, j2: int|
                0 <= r2 < t && 0 <= i2 < n && 0 <= j2 < n ==> (#[trigger] gap_stack@[r2]@[i2]@[j2])@
                    == gap_val(m, o, av, bv, r2, i2, j2),
            forall|r2: int| 0 <= r2 < t ==> (#[trigger] gamma@[r2])@.len() == n,
            forall|r2: int, i2: int|
                0 <= r2 < t && 0 <= i2 < n ==> (#[trigger] gamma@[r2]@[i2])@ == gamma_val(
                    m,
                    o,
                    av,
                    bv,
                    r2,
                    i2,
                ),
            forall|r2: int| 0 <= r2 < t ==> #[trigger] occ_step_fits(m, o, av, bv, r2),
            forall|r2: int| 0 <= r2 < t ==> (#[trigger] occ_denom(m, o, av, bv, r2)).n > 0,
            forall|r2: int, j2: int|
                0 <= r2 < t && 0 <= j2 < n ==> (#[trigger] m.emitter.emit_spec(
                    states@[j2],
                    o[r2 + 1],
                )) is Some,
            t >= 1 ==> crate::model::trans_known(m.trans, states@),
        decreases tlen - 1 - t,
    {
        let mut grid: Vec<Vec<Frac>> = Vec::new();
        let mut flat: Vec<Frac> = Vec::new();
        let mut i: usize = 0;
        while i < n
            invariant
                0 <= i <= n,
                0 <= t < tlen - 1,
                tlen == o.len(),
                n == states@.len(),
                states@ == m.trans.states_spec(),
                m == *model,
                o == obs@,
                av == crate::matrix::table_rats(alpha@),
                bv == crate::matrix::table_rats(beta@),
                alpha@.len() == tlen,
                beta@.len() == tlen,
                forall|r2: int| 0 <= r2 < tlen ==> (#[trigger] alpha@[r2])@.len() == n,
                forall|r2: int| 0 <= r2 < tlen ==> (#[trigger] beta@[r2])@.len() == n,
                grid@.len() == i,
                flat@.len() == i * n,
                forall|i2: int| 0 <= i2 < i ==> (#[trigger] grid@[i2])@.len() == n,
                forall|i2: int, j2: int|
                    0 <= i2 < i && 0 <= j2 < n ==> (#[trigger] grid@[i2]@[j2])@ == occ_term(
                        m,
                        o,
                        av,
                        bv,
                        t as int,
                        i2,
                        j2,
                    ),
                forall|k: int|
                    0 <= k < i * n ==> (#[trigger] flat@[k])@ == occ_term(
                        m,
                        o,
                        av,
                        bv,
                        t as int,
                        k / (n as int),
                        k % (n as int),
                    ),
                forall|i2: int, j2: int|
                    0 <= i2 < i && 0 <= j2 < n ==> (#[trigger] m.trans.trans_spec(
                        states@[i2],
                        states@[j2],
                    )) is Some,
                forall|j2: int|
                    i > 0 && 0 <= j2 < n ==> (#[trigger] m.emitter.emit_spec(
                        states@[j2],
                        o[t + 1],
                    )) is Some,
                forall|i2: int, j2: int|
                    0 <= i2 < i && 0 <= j2 < n ==> mul_fits(
                        av[t as int][i2],
                        m.trans.trans_spec(#[trigger] states@[i2], #[trigger] states@[j2]).unwrap(),
                    ) && mul_fits(
                        cmul(
                            av[t as int][i2],
                            m.trans.trans_spec(states@[i2], states@[j2]).unwrap(),
                        ),
                        m.emitter.emit_spec(states@[j2], o[t + 1]).unwrap(),
                    ) && mul_fits(
                        cmul(
                            cmul(
                                av[t as int][i2],
                                m.trans.trans_spec(states@[i2], states@[j2]).unwrap(),
                            ),
                            m.emitter.emit_spec(states@[j2], o[t + 1]).unwrap(),
                        ),
                        bv[t + 1][j2],
                    ),
            decreases n - i,
        {
            let mut row: Vec<Frac> = Vec::new();
            let mut j: usize = 0;
            while j < n
                invariant
                    0 <= j <= n,
                    0 <= i < n,
                    0 <= t < tlen - 1,
                    tlen == o.len(),
                    n == states@.len(),
                    states@ == m.trans.states_spec(),
                    m == *model,
                    o == obs@,
                    av == crate::matrix::table_rats(alpha@),
                    bv == crate::matrix::table_rats(beta@),
                    alpha@.len() == tlen,
                    beta@.len() == tlen,
                    forall|r2: int| 0 <= r2 < tlen ==> (#[trigger] alpha@[r2])@.len() == n,
                    forall|r2: int| 0 <= r2 < tlen ==> (#[trigger] beta@[r2])@.len() == n,
                    row@.len() == j,
                    flat@.len() == i * n + j,
                    forall|j2: int|
                        0 <= j2 < j ==> (#[trigger] row@[j2])@ == occ_term(
                            m,
                            o,
                            av,
                            bv,
                            t as int,
                            i as int,
                            j2,
                        ),
                    forall|k: int|
                        0 <= k < i * n + j ==> (#[trigger] flat@[k])@ == occ_term(
                            m,
                            o,
                            av,
                            bv,
                            t as int,
                            k / (n as int),
                            k % (n as int),
                        ),
                    forall|j2: int|
                        0 <= j2 < j ==> (#[trigger] m.trans.trans_spec(
                            states@[i as int],
                            states@[j2],
                        )) is Some && (#[trigger] m.emitter.emit_spec(states@[j2], o[t + 1]))
                            is Some,
                    forall|j2: int|
                        0 <= j2 < j ==> mul_fits(
                            av[t as int][i as int],
                            m.trans.trans_spec(states@[i as int], #[trigger] states@[j2]).unwrap(),
                        ) && mul_fits(
                            cmul(
                                av[t as int][i as int],
                                m.trans.trans_spec(states@[i as int], states@[j2]).unwrap(),
                            ),
                            m.emitter.emit_spec(states@[j2], o[t + 1]).unwrap(),
                        ) && mul_fits(
                            cmul(
                                cmul(
                                    av[t as int][i as int],
                                    m.trans.trans_spec(states@[i as int], states@[j2]).unwrap(),
                                ),
                                m.emitter.emit_spec(states@[j2], o[t + 1]).unwrap(),
                            ),
                            bv[t + 1][j2],
                        ),
                decreases n - j,
            {
                let src = states[i];
                let dst = states[j];
                let tp = match model.trans.transp(src, dst) {
                    Ok(p) => p,
                    Err(e) => {
                        proof {
                            assert(!crate::model::trans_known(m.trans, states@));
                        }
                        return Err(e);
                    },
                };
                let em = match model.emitter.emitp(dst, obs[t + 1]) {
                    Ok(p) => p,
                    Err(e) => {
                        proof {
                            assert(!beta_covers(m, o));
                        }
                        return Err(e);
                    },
                };
                proof {
                    assert(alpha@[t as int]@[i as int]@ == av[t as int][i as int]);
                    assert(beta@[t + 1]@[j as int]@ == bv[t + 1][j as int]);
                }
                let x1 = match alpha[t][i].try_mul(tp) {
                    Ok(v) => v,
                    Err(e) => {
                        proof {
                            assert(!occ_step_fits(m, o, av, bv, t as int)) by {
                                if occ_step_fits(m, o, av, bv, t as int) {
                                    assert(div_fits(
                                        occ_term(m, o, av, bv, t as int, i as int, j as int),
                                        occ_denom(m, o, av, bv, t as int),
                                    ));
                                }
                            }
                        }
                        return Err(e);
                    },
                };
                let x2 = match x1.try_mul(em) {
                    Ok(v) => v,
                    Err(e) => {
                        proof {
                            assert(!occ_step_fits(m, o, av, bv, t as int)) by {
                                if occ_step_fits(m, o, av, bv, t as int) {
                                    assert(div_fits(
                                        occ_term(m, o, av, bv, t as int, i as int, j as int),
                                        occ_denom(m, o, av, bv, t as int),
                                    ));
                                }
                            }
                        }
                        return Err(e);
                    },
                };
                let x3 = match x2.try_mul(beta[t + 1][j]) {
                    Ok(v) => v,
                    Err(e) => {
                        proof {
                            assert(!occ_step_fits(m, o, av, bv, t as int)) by {
                                if occ_step_fits(m, o, av, bv, t as int) {
                                    assert(div_fits(
                                        occ_term(m, o, av, bv, t as int, i as int, j as int),
                                        occ_denom(m, o, av, bv, t as int),
                                    ));
                                }
                            }
                        }
                        return Err(e);
                    },
                };
                row.push(x3);
                flat.push(x3);
                proof {
                    assert((i * n + j) / (n as int) == i as int && (i * n + j) % (n as int)
                        == j as int) by (nonlinear_arith)
                        requires
                            0 <= j < n,
                            0 <= i,
                            n > 0,
                    ;
                }
                j = j + 1;
            }
            grid.push(row);
            i = i + 1;
            proof {
                assert(flat@.len() == i * n) by (nonlinear_arith)
                    requires
                        flat@.len() == (i - 1) * n + n,
                ;
            }
        }
        proof {
            assert(seq_rats(flat@) =~= occ_flat(m, o, av, bv, t as int));
        }
        let denom = match sum_fracs(&flat) {
            Ok(s) => s,
            Err(e) => {
                proof {
                    assert(!occ_step_fits(m, o, av, bv, t as int));
                }
                return Err(e);
            },
        };
        if denom.is_zero() {
            proof {
                assert(occ_denom(m, o, av, bv, t as int).n == 0);
            }
            return Err(HmmError::ZeroProbability);
        }
        proof {
            use_type_invariant(denom);
        }
        let mut gap_layer: Vec<Vec<Frac>> = Vec::new();
        let mut gamma_row: Vec<Frac> = Vec::new();
        let mut i3: usize = 0;
        while i3 < n
            invariant
                0 <= i3 <= n,
                0 <= t < tlen - 1,
                tlen == o.len(),
                n == states@.len(),
                states@ == m.trans.states_spec(),
                m == *model,
                o == obs@,
                av == crate::matrix::table_rats(alpha@),
                bv == crate::matrix::table_rats(beta@),
                denom@ == occ_denom(m, o, av, bv, t as int),
                denom@.n > 0,
                grid@.len() == n,
                forall|i2: int| 0 <= i2 < n ==> (#[trigger] grid@[i2])@.len() == n,
                forall|i2: int, j2: int|
                    0 <= i2 < n && 0 <= j2 < n ==> (#[trigger] grid@[i2]@[j2])@ == occ_term(
                        m,
                        o,
                        av,
                        bv,
                        t as int,
                        i2,
                        j2,
                    ),
                gap_layer@.len() == i3,
                gamma_row@.len() == i3,
                forall|i2: int| 0 <= i2 < i3 ==> (#[trigger] gap_layer@[i2])@.len() == n,
                forall|i2: int, j2: int|
                    0 <= i2 < i3 && 0 <= j2 < n ==> (#[trigger] gap_layer@[i2]@[j2])@ == gap_val(
                        m,
                        o,
                        av,
                        bv,
                        t as int,
                        i2,
                        j2,
                    ),
                forall|i2: int|
                    0 <= i2 < i3 ==> (#[trigger] gamma_row@[i2])@ == gamma_val(
                        m,
                        o,
                        av,
                        bv,
                        t as int,
                        i2,
                    ),
                forall|i2: int, j2: int|
                    0 <= i2 < i3 && 0 <= j2 < n ==> div_fits(
                        #[trigger] occ_term(m, o, av, bv, t as int, i2, j2),
                        occ_denom(m, o, av, bv, t as int),
                    ),
                forall|i2: int|
                    0 <= i2 < i3 ==> csum_fits(#[trigger] gap_row(m, o, av, bv, t as int, i2)),
            decreases n - i3,
        {
            let mut gr: Vec<Frac> = Vec::new();
            let mut j3: usize = 0;
            while j3 < n
                invariant
                    0 <= j3 <= n,
                    0 <= i3 < n,
                    0 <= t < tlen - 1,
                    tlen == o.len(),
                    n == states@.len(),
                    states@ == m.trans.states_spec(),
                    m == *model,
                    o == obs@,
                    av == crate::matrix::table_rats(alpha@),
                    bv == crate::matrix::table_rats(beta@),
                    denom@ == occ_denom(m, o, av, bv, t as int),
                    denom@.n > 0,
                    grid@.len() == n,
                    forall|i2: int| 0 <= i2 < n ==> (#[trigger] grid@[i2])@.len() == n,
                    forall|i2: int, j2: int|
                        0 <= i2 < n && 0 <= j2 < n ==> (#[trigger] grid@[i2]@[j2])@ == occ_term(
                            m,
                            o,
                            av,
                            bv,
                            t as int,
                            i2,
                            j2,
                        ),
                    gr@.len() == j3,
                    forall|j2: int|
                        0 <= j2 < j3 ==> (#[trigger] gr@[j2])@ == gap_val(
                            m,
                            o,
                            av,
                            bv,
                            t as int,
                            i3 as int,
                            j2,
                        ),
                    forall|j2: int|
                        0 <= j2 < j3 ==> div_fits(
                            #[trigger] occ_term(m, o, av, bv, t as int, i3 as int, j2),
                            occ_denom(m, o, av, bv, t as int),
                        ),
                decreases n - j3,
            {
                let v = match grid[i3][j3].try_div(denom) {
                    Ok(v) => v,
                    Err(e) => {
                        proof {
                            assert(!div_fits(
                                occ_term(m, o, av, bv, t as int, i3 as int, j3 as int),
                                occ_denom(m, o, av, bv, t as int),
                            ));
                            assert(!occ_step_fits(m, o, av, bv, t as int));
                        }
                        return Err(e);
                    },
                };
                gr.push(v);
                j3 = j3 + 1;
            }
            proof {
                assert(seq_rats(gr@) =~= gap_row(m, o, av, bv, t as int, i3 as int));
            }
            let gsum = match sum_fracs(&gr) {
                Ok(s) => s,
                Err(e) => {
                    proof {
                        assert(!csum_fits(gap_row(m, o, av, bv, t as int, i3 as int)));
                        assert(!occ_step_fits(m, o, av, bv, t as int));
                    }
                    return Err(e);
                },
            };
            gamma_row.push(gsum);
            gap_layer.push(gr);
            i3 = i3 + 1;
        }
        proof {
            assert(occ_step_fits(m, o, av, bv, t as int)) by {
                assert forall|i2: int, j2: int|
                    0 <= i2 < n && 0 <= j2 < n implies mul_fits(
                    av[t as int][i2],
                    m.trans.trans_spec(states@[i2], states@[j2]).unwrap(),
                ) && mul_fits(
                    cmul(av[t as int][i2], m.trans.trans_spec(states@[i2], states@[j2]).unwrap()),
                    m.emitter.emit_spec(states@[j2], o[t + 1]).unwrap(),
                ) && mul_fits(
                    cmul(
                        cmul(
                            av[t as int][i2],
                            m.trans.trans_spec(states@[i2], states@[j2]).unwrap(),
                        ),
                        m.emitter.emit_spec(states@[j2], o[t + 1]).unwrap(),
                    ),
                    bv[t + 1][j2],
                ) && div_fits(
                    #[trigger] occ_term(m, o, av, bv, t as int, i2, j2),
                    occ_denom(m, o, av, bv, t as int),
                ) by {
                    assert(m.trans.trans_spec(states@[i2], states@[j2]) is Some);
                }
            }
        }
        gap_stack.push(gap_layer);
        gamma.push(gamma_row);
        t = t + 1;
    }
    // final step: each state's share of the last forward row
    let mut last_row: Vec<Frac> = Vec::new();
    let mut i4: usize = 0;
    while i4 < n
        invariant
            0 <= i4 <= n,
            tlen == o.len(),
            tlen >= 1,
            n == states@.len(),
            alpha@.len() == tlen,
            av == crate::matrix::table_rats(alpha@),
            forall|r2: int| 0 <= r2 < tlen ==> (#[trigger] alpha@[r2])@.len() == n,
            last_row@.len() == i4,
            forall|x: int| 0 <= x < i4 ==> (#[trigger] last_row@[x])@ == av[tlen - 1][x],
        decreases n - i4,
    {
        let v = alpha[tlen - 1][i4];
        proof {
            assert(alpha@[tlen - 1]@[i4 as int]@ == av[tlen - 1][i4 as int]);
        }
        last_row.push(v);
        i4 = i4 + 1;
    }
    proof {
        assert(seq_rats(last_row@) =~= av[tlen - 1]);
    }
    let last_sum = match sum_fracs(&last_row) {
        Ok(s) => s,
        Err(e) => {
            proof {
                assert(!csum_fits(av[tlen - 1]));
            }
            return Err(e);
        },
    };
    if last_sum.is_zero() {
        proof {
            assert(csum(av[tlen - 1]).n == 0);
        }
        return Err(HmmError::ZeroProbability);
    }
    proof {
        use_type_invariant(last_sum);
    }
    let mut final_gamma: Vec<Frac> = Vec::new();
    let mut i5: usize = 0;
    while i5 < n
        invariant
            0 <= i5 <= n,
            tlen == o.len(),
            tlen >= 1,
            n == states@.len(),
            states@ == m.trans.states_spec(),
            m == *model,
            o == obs@,
            av == crate::matrix::table_rats(alpha@),
            bv == crate::matrix::table_rats(beta@),
            last_row@.len() == n,
            forall|x: int| 0 <= x < n ==> (#[trigger] last_row@[x])@ == av[tlen - 1][x],
            last_sum@ == csum(av[tlen - 1]),
            last_sum@.n > 0,
            final_gamma@.len() == i5,
            forall|x: int|
                0 <= x < i5 ==> (#[trigger] final_gamma@[x])@ == gamma_val(
                    m,
                    o,
                    av,
                    bv,
                    tlen - 1,
                    x,
                ),
            forall|x: int|
                0 <= x < i5 ==> div_fits(#[trigger] av[tlen - 1][x], csum(av[tlen - 1])),
        decreases n - i5,
    {
        let v = match last_row[i5].try_div(last_sum) {
            Ok(v) => v,
            Err(e) => {
                proof {
                    assert(!div_fits(av[tlen - 1][i5 as int], csum(av[tlen - 1])));
                    assert(!occ_last_fits(m, o, av));
                }
                return Err(e);
            },
        };
        final_gamma.push(v);
        i5 = i5 + 1;
    }
    gamma.push(final_gamma);
    let gap = crate::cube::Cube::from_stack(gap_stack);
    proof {
        assert(beta_covers(m, o)) by {
            assert forall|t2: int, j2: int|
                1 <= t2 < o.len() && 0 <= j2 < n implies (#[trigger] m.emitter.emit_spec(
                states@[j2],
                o[t2],
            )) is Some by {
                assert(m.emitter.emit_spec(states@[j2], o[(t2 - 1) + 1]) is Some);
            }
        }
        assert(occ_last_fits(m, o, av));
        assert(occ_fits(m, o, av, bv));
        assert(occ_positive(m, o, av, bv));
    }
    Ok((gap, gamma))
}

/// The summed pairwise occupation of the cell `(i, j)` over all steps.
/// The pairwise occupation of the cell `(i, j)` at each step, in order.
pub open spec fn gap_cell_col(gv: Seq<Seq<Seq<Rat>>>, i: int, j: int) -> Seq<Rat> {
    Seq::new(gv.len(), |t: int| gv[t][i][j])
}

pub open spec fn gap_cell_sum(gv: Seq<Seq<Seq<Rat>>>, i: int, j: int) -> Rat {
    csum(gap_cell_col(gv, i, j))
}

/// The summed occupation of state `i` over the first `upto` steps.
/// The occupation of state `i` at each of the first `upto` steps.
pub open spec fn gamma_col(gm: Seq<Seq<Rat>>, i: int, upto: int) -> Seq<Rat> {
    Seq::new(upto as nat, |t: int| gm[t][i])
}

pub open spec fn gamma_col_sum(gm: Seq<Seq<Rat>>, i: int, upto: int) -> Rat {
    csum(gamma_col(gm, i, upto))
}

/// The occupation values of state `i` at the steps whose observation is
/// `o`, over the first `t` steps, in step order.
pub open spec fn gamma_sel(gm: Seq<Seq<Rat>>, obs: Seq<usize>, i: int, o: int, t: int) -> Seq<Rat>
    decreases t,
{
    if t <= 0 {
        Seq::empty()
    } else {
        gamma_sel(gm, obs, i, o, t - 1) + (if obs[t - 1] == o {
            seq![gm[t - 1][i]]
        } else {
            Seq::empty()
        })
    }
}

/// The largest observation class named in the sequence.
pub open spec fn obs_max(obs: Seq<usize>) -> int
    decreases obs.len(),
{
    if obs.len() == 0 {
        0
    } else if obs.last() as int > obs_max(obs.drop_last()) {
        obs.last() as int
    } else {
        obs_max(obs.drop_last())
    }
}

/// No state's occupation total is zero, with or without the last step.
pub open spec fn reest_positive(gm: Seq<Seq<Rat>>, n: int, tl: int) -> bool {
    forall|i: int|
        0 <= i < n ==> (#[trigger] gamma_col_sum(gm, i, tl - 1)).n > 0 && gamma_col_sum(
            gm,
            i,
            tl,
        ).n > 0
}

/// Every sum and quotient of state `i`'s re-estimated rows stays within
/// 64-bit lowest-terms form.
pub open spec fn reest_row_fits(
    gv: Seq<Seq<Seq<Rat>>>,
    gm: Seq<Seq<Rat>>,
    obs: Seq<usize>,
    n: int,
    i: int,
) -> bool {
    let tl = gm.len() as int;
    let cols = obs_max(obs) + 1;
    &&& csum_fits(gamma_col(gm, i, tl - 1))
    &&& csum_fits(gamma_col(gm, i, tl))
    &&& forall|j: int|
        0 <= j < n ==> csum_fits(#[trigger] gap_cell_col(gv, i, j)) && div_fits(
            gap_cell_sum(gv, i, j),
            gamma_col_sum(gm, i, tl - 1),
        )
    &&& forall|o2: int|
        0 <= o2 < cols ==> csum_fits(#[trigger] gamma_sel(gm, obs, i, o2, tl)) && div_fits(
            csum(gamma_sel(gm, obs, i, o2, tl)),
            gamma_col_sum(gm, i, tl),
        )
}

pub open spec fn reest_fits(
    gv: Seq<Seq<Seq<Rat>>>,
    gm: Seq<Seq<Rat>>,
    obs: Seq<usize>,
    n: int,
) -> bool {
    forall|i: int| 0 <= i < n ==> #[trigger] reest_row_fits(gv, gm, obs, n, i)
}

/// The re-estimated transition table, cell by cell.
pub open spec fn reest_trans_table(
    gv: Seq<Seq<Seq<Rat>>>,
    gm: Seq<Seq<Rat>>,
    n: int,
    tl: int,
) -> Seq<Seq<Rat>> {
    Seq::new(
        n as nat,
        |i: int| Seq::new(n as nat, |j: int| cdiv(gap_cell_sum(gv, i, j), gamma_col_sum(gm, i, tl - 1))),
    )
}

/// What `Model::from` checks, read off a dense start row and square
/// transition table: more than one state and every row summing to one
/// within `tol`.
pub open spec fn dense_from_ok(sv: Seq<Rat>, tv: Seq<Seq<Rat>>, tol: Rat) -> bool {
    let n = tv.len() as int;
    &&& n > 1
    &&& sv.len() == n
    &&& forall|a: int| 0 <= a < n ==> (#[trigger] tv[a]).len() == n
    &&& csum_fits(sv)
    &&& rat_near_one(csum(sv), tol)
    &&& forall|a: int|
        0 <= a < n ==> csum_fits(#[trigger] tv[a]) && rat_near_one(csum(tv[a]), tol)
}

/// For the dense distributions, `Model::from`'s acceptance condition is
/// exactly `dense_from_ok` of their contents.
proof fn lemma_dense_from_ok(start: Vec<Frac>, trans: Vec<Vec<Frac>>, sv: Seq<Rat>, tv: Seq<Seq<Rat>>)
    requires
        sv == seq_rats(start@),
        tv == crate::matrix::table_rats(trans@),
        start@.len() == trans@.len(),
        forall|a: int| 0 <= a < trans@.len() ==> (#[trigger] trans@[a])@.len() == trans@.len(),
    ensures
        crate::model::from_ok(start, trans, crate::frac::spec_tolerance()) == dense_from_ok(
            sv,
            tv,
            crate::frac::spec_tolerance(),
        ),
{
    let tol = crate::frac::spec_tolerance();
    let states = crate::model::Transor::states_spec(&trans);
    let n = trans@.len() as int;
    assert(start@.len() <= usize::MAX) by {
        assert(start.len() == start@.len());
    }
    assert(trans@.len() <= usize::MAX) by {
        assert(trans.len() == trans@.len());
    }
    assert(states =~= Seq::new(trans@.len(), |i: int| i as usize));
    assert(tv.len() == n);
    assert forall|a: int| 0 <= a < n implies (#[trigger] tv[a]).len() == n by {
        assert(tv[a] == seq_rats(trans@[a]@));
    }
    assert(crate::model::starts_known(start, states));
    assert forall|a: int|
        0 <= a < n implies crate::model::start_row_rats(start, states)[a] == sv[a] by {
        assert(states[a] == a as usize);
        assert(start.start_spec(a as usize) == Some(seq_rats(start@)[a]));
    }
    assert(crate::model::start_row_rats(start, states) =~= sv);
    assert(crate::model::trans_known(trans, states));
    assert forall|a: int| 0 <= a < n implies crate::model::trans_row_rats(trans, states, a) =~= tv[a] by {
        assert(tv[a] == seq_rats(trans@[a]@));
        assert forall|b: int|
            0 <= b < n implies crate::model::trans_row_rats(trans, states, a)[b] == tv[a][b] by {
            assert(states[a] == a as usize);
            assert(states[b] == b as usize);
            assert(trans.trans_spec(a as usize, b as usize) == Some(seq_rats(trans@[a]@)[b]));
        }
    }
    if crate::model::from_ok(start, trans, tol) {
        assert forall|a: int|
            0 <= a < n implies csum_fits(#[trigger] tv[a]) && rat_near_one(csum(tv[a]), tol) by {
            assert(crate::model::trans_row_rats(trans, states, a) == tv[a]);
        }
    }
    if dense_from_ok(sv, tv, tol) {
        assert forall|a: int|
            0 <= a < n implies csum_fits(#[trigger] crate::model::trans_row_rats(trans, states, a))
            && rat_near_one(csum(crate::model::trans_row_rats(trans, states, a)), tol) by {
            assert(crate::model::trans_row_rats(trans, states, a) == tv[a]);
        }
    }
}

/// One Baum-Welch re-estimation step over already-computed statistics:
/// the new start distribution is the first occupation row; the new
/// transition probability `i -> j` is the summed pairwise occupation of
/// `(i, j)` over the summed occupation of `i` before the last step; the
/// new emission probability of class `o` from `i` is the occupation of
/// `i` at the steps observing `o` over its total occupation. The three
/// are composed into a validated dense model, so the result satisfies
/// the stochasticity invariants again. A zero occupation total is
/// reported as `ZeroProbability`.
#[verifier::rlimit(60)]
pub fn reestimate(
    gap: &crate::cube::Cube<Frac>,
    gamma: &Vec<Vec<Frac>>,
    obs: &Vec<usize>,
) -> (r: Result<
    Model<usize, usize, Vec<Frac>, Vec<Vec<Frac>>, Vec<Vec<Frac>>>,
    HmmError,
>)
    requires
        gamma@.len() == obs@.len(),
        obs@.len() >= 1,
        gap@.len() == obs@.len() - 1,
        forall|t: int|
            0 <= t < gamma@.len() ==> (#[trigger] gamma@[t])@.len() == gamma@[0]@.len(),
        forall|t: int|
            0 <= t < gap@.len() ==> (#[trigger] gap@[t]).len() == gamma@[0]@.len(),
        forall|t: int, i: int|
            0 <= t < gap@.len() && 0 <= i < gamma@[0]@.len() ==> (#[trigger] gap@[t][i]).len()
                == gamma@[0]@.len(),
    ensures
        ({
            let n = gamma@[0]@.len() as int;
            let tl = obs@.len() as int;
            let gm = crate::matrix::table_rats(gamma@);
            let gv = gap@.map_values(
                |layer: Seq<Seq<Frac>>| layer.map_values(|row: Seq<Frac>| seq_rats(row)),
            );
            let cols = obs_max(obs@) + 1;
            &&& (r is Ok <==> obs_max(obs@) < usize::MAX && reest_positive(gm, n, tl)
                && reest_fits(gv, gm, obs@, n) && dense_from_ok(
                gm[0],
                reest_trans_table(gv, gm, n, tl),
                crate::frac::spec_tolerance(),
            ))
            &&& match r {
                Ok(m) => {
                    &&& m.start@.len() == n
                    &&& forall|i: int| 0 <= i < n ==> (#[trigger] m.start@[i])@ == gm[0][i]
                    &&& m.trans@.len() == n
                    &&& forall|i: int| 0 <= i < n ==> (#[trigger] m.trans@[i])@.len() == n
                    &&& forall|i: int, j: int|
                        0 <= i < n && 0 <= j < n ==> (#[trigger] m.trans@[i]@[j])@ == cdiv(
                            gap_cell_sum(gv, i, j),
                            gamma_col_sum(gm, i, tl - 1),
                        )
                    &&& m.emitter@.len() == n
                    &&& forall|i: int| 0 <= i < n ==> (#[trigger] m.emitter@[i])@.len() == cols
                    &&& forall|i: int, o: int|
                        0 <= i < n && 0 <= o < cols ==> (#[trigger] m.emitter@[i]@[o])@ == cdiv(
                            csum(gamma_sel(gm, obs@, i, o, tl)),
                            gamma_col_sum(gm, i, tl),
                        )
                    &&& crate::model::stochastic_model(m, crate::frac::spec_tolerance())
                },
                Err(_) => true,
            }
        }),
{
    let ghost gm = crate::matrix::table_rats(gamma@);
    let ghost gv = gap@.map_values(
        |layer: Seq<Seq<Frac>>| layer.map_values(|row: Seq<Frac>| seq_rats(row)),
    );
    let tl = obs.len();
    let n = gamma[0].len();

    let mut mx: usize = 0;
    let mut t0: usize = 0;
    while t0 < tl
        invariant
            0 <= t0 <= tl,
            tl == obs@.len(),
            mx as int == obs_max(obs@.take(t0 as int)),
        decreases tl - t0,
    {
        let v = obs[t0];
        proof {
            assert(obs@.take(t0 + 1).drop_last() =~= obs@.take(t0 as int));
            assert(obs@.take(t0 + 1).last() == obs@[t0 as int]);
        }
        if v > mx {
            mx = v;
        }
        t0 = t0 + 1;
    }
    proof {
        assert(obs@.take(tl as int) =~= obs@);
    }
    if mx == usize::MAX {
        proof {
            assert(obs_max(obs@) == usize::MAX);
        }
        return Err(HmmError::Overflow);
    }
    let cols = mx + 1;

    // new start distribution: the first occupation row
    let mut start: Vec<Frac> = Vec::new();
    let mut i0: usize = 0;
    while i0 < n
        invariant
            0 <= i0 <= n,
            n == gamma@[0]@.len(),
            gamma@.len() >= 1,
            gm == crate::matrix::table_rats(gamma@),
            start@.len() == i0,
            forall|x: int| 0 <= x < i0 ==> (#[trigger] start@[x])@ == gm[0][x],
        decreases n - i0,
    {
        let v = gamma[0][i0];
        proof {
            assert(gamma@[0]@[i0 as int]@ == gm[0][i0 as int]);
        }
        start.push(v);
        i0 = i0 + 1;
    }

    let mut trans: Vec<Vec<Frac>> = Vec::new();
    let mut emit: Vec<Vec<Frac>> = Vec::new();
    let mut i: usize = 0;
    while i < n
        invariant
            0 <= i <= n,
            n == gamma@[0]@.len(),
            tl == obs@.len(),
            tl >= 1,
            gamma@.len() == tl,
            gap@.len() == tl - 1,
            cols == obs_max(obs@) + 1,
            gm == crate::matrix::table_rats(gamma@),
            gv == gap@.map_values(
                |layer: Seq<Seq<Frac>>| layer.map_values(|row: Seq<Frac>| seq_rats(row)),
            ),
            forall|t: int| 0 <= t < tl ==> (#[trigger] gamma@[t])@.len() == n,
            forall|t: int| 0 <= t < tl - 1 ==> (#[trigger] gap@[t]).len() == n,
            forall|t: int, i2: int|
                0 <= t < tl - 1 && 0 <= i2 < n ==> (#[trigger] gap@[t][i2]).len() == n,
            trans@.len() == i,
            emit@.len() == i,
            forall|i2: int| 0 <= i2 < i ==> (#[trigger] trans@[i2])@.len() == n,
            forall|i2: int, j2: int|
                0 <= i2 < i && 0 <= j2 < n ==> (#[trigger] trans@[i2]@[j2])@ == cdiv(
                    gap_cell_sum(gv, i2, j2),
                    gamma_col_sum(gm, i2, tl - 1),
                ),
            forall|i2: int| 0 <= i2 < i ==> (#[trigger] emit@[i2])@.len() == cols,
            forall|i2: int, o2: int|
                0 <= i2 < i && 0 <= o2 < cols ==> (#[trigger] emit@[i2]@[o2])@ == cdiv(
                    csum(gamma_sel(gm, obs@, i2, o2, tl as int)),
                    gamma_col_sum(gm, i2, tl as int),
                ),
            forall|i2: int| 0 <= i2 < i ==> #[trigger] reest_row_fits(gv, gm, obs@, n as int, i2),
            forall|i2: int|
                0 <= i2 < i ==> (#[trigger] gamma_col_sum(gm, i2, tl - 1)).n > 0 && gamma_col_sum(
                    gm,
                    i2,
                    tl as int,
                ).n > 0,
        decreases n - i,
    {
        // occupation totals of state i, without and with the last step
        let mut colv: Vec<Frac> = Vec::new();
        let mut t: usize = 0;
        while t < tl - 1
            invariant
                0 <= t <= tl - 1,
                tl == obs@.len(),
                tl >= 1,
                gamma@.len() == tl,
                0 <= i < n,
                n == gamma@[0]@.len(),
                gm == crate::matrix::table_rats(gamma@),
                forall|t2: int| 0 <= t2 < tl ==> (#[trigger] gamma@[t2])@.len() == n,
                colv@.len() == t,
                forall|t2: int| 0 <= t2 < t ==> (#[trigger] colv@[t2])@ == gm[t2][i as int],
            decreases tl - 1 - t,
        {
            let v = gamma[t][i];
            proof {
                assert(gamma@[t as int]@[i as int]@ == gm[t as int][i as int]);
            }
            colv.push(v);
            t = t + 1;
        }
        proof {
            assert(seq_rats(colv@) =~= gamma_col(gm, i as int, tl - 1));
        }
        let dt = match sum_fracs(&colv) {
            Ok(v) => v,
            Err(e) => {
                proof {
                    assert(!reest_row_fits(gv, gm, obs@, n as int, i as int));
                }
                return Err(e);
            },
        };
        let mut colall: Vec<Frac> = Vec::new();
        let mut t2: usize = 0;
        while t2 < tl
            invariant
                0 <= t2 <= tl,
                tl == obs@.len(),
                gamma@.len() == tl,
                0 <= i < n,
                n == gamma@[0]@.len(),
                gm == crate::matrix::table_rats(gamma@),
                forall|t3: int| 0 <= t3 < tl ==> (#[trigger] gamma@[t3])@.len() == n,
                colall@.len() == t2,
                forall|t3: int| 0 <= t3 < t2 ==> (#[trigger] colall@[t3])@ == gm[t3][i as int],
            decreases tl - t2,
        {
            let v = gamma[t2][i];
            proof {
                assert(gamma@[t2 as int]@[i as int]@ == gm[t2 as int][i as int]);
            }
            colall.push(v);
            t2 = t2 + 1;
        }
        proof {
            assert(seq_rats(colall@) =~= gamma_col(gm, i as int, tl as int));
        }
        let de = match sum_fracs(&colall) {
            Ok(v) => v,
            Err(e) => {
                proof {
                    assert(!reest_row_fits(gv, gm, obs@, n as int, i as int));
                }
                return Err(e);
            },
        };
        if dt.is_zero() || de.is_zero() {
            proof {
                assert(gamma_col_sum(gm, i as int, tl - 1).n == 0 || gamma_col_sum(
                    gm,
                    i as int,
                    tl as int,
                ).n == 0);
                assert(!reest_positive(gm, n as int, tl as int)) by {
                    if reest_positive(gm, n as int, tl as int) {
                        assert(gamma_col_sum(gm, i as int, tl - 1).n > 0 && gamma_col_sum(
                            gm,
                            i as int,
                            tl as int,
                        ).n > 0);
                    }
                }
            }
            return Err(HmmError::ZeroProbability);
        }
        proof {
            use_type_invariant(dt);
            use_type_invariant(de);
        }
        // transition row
        let mut trow: Vec<Frac> = Vec::new();
        let mut j: usize = 0;
        while j < n
            invariant
                0 <= j <= n,
                0 <= i < n,
                tl == obs@.len(),
                tl >= 1,
                gamma@.len() == tl,
                gap@.len() == tl - 1,
                n == gamma@[0]@.len(),
                gv == gap@.map_values(
                    |layer: Seq<Seq<Frac>>| layer.map_values(|row: Seq<Frac>| seq_rats(row)),
                ),
                gm == crate::matrix::table_rats(gamma@),
                forall|t3: int| 0 <= t3 < tl - 1 ==> (#[trigger] gap@[t3]).len() == n,
                forall|t3: int, i2: int|
                    0 <= t3 < tl - 1 && 0 <= i2 < n ==> (#[trigger] gap@[t3][i2]).len() == n,
                dt@ == gamma_col_sum(gm, i as int, tl - 1),
                dt@.n > 0,
                trow@.len() == j,
                forall|j2: int|
                    0 <= j2 < j ==> (#[trigger] trow@[j2])@ == cdiv(
                        gap_cell_sum(gv, i as int, j2),
                        gamma_col_sum(gm, i as int, tl - 1),
                    ),
                forall|j2: int|
                    0 <= j2 < j ==> csum_fits(#[trigger] gap_cell_col(gv, i as int, j2))
                        && div_fits(
                        gap_cell_sum(gv, i as int, j2),
                        gamma_col_sum(gm, i as int, tl - 1),
                    ),
            decreases n - j,
        {
            let mut cell: Vec<Frac> = Vec::new();
            let mut t3: usize = 0;
            while t3 < tl - 1
                invariant
                    0 <= t3 <= tl - 1,
                    0 <= i < n,
                    0 <= j < n,
                    tl >= 1,
                    gap@.len() == tl - 1,
                    gv == gap@.map_values(
                        |layer: Seq<Seq<Frac>>| layer.map_values(|row: Seq<Frac>| seq_rats(row)),
                    ),
                    forall|t4: int| 0 <= t4 < tl - 1 ==> (#[trigger] gap@[t4]).len() == n,
                    forall|t4: int, i2: int|
                        0 <= t4 < tl - 1 && 0 <= i2 < n ==> (#[trigger] gap@[t4][i2]).len() == n,
                    cell@.len() == t3,
                    forall|t4: int|
                        0 <= t4 < t3 ==> (#[trigger] cell@[t4])@ == gv[t4][i as int][j as int],
                decreases tl - 1 - t3,
            {
                let v = gap.get(t3, i, j);
                proof {
                    assert(gv[t3 as int][i as int][j as int] == gap@[t3 as int][i as int][j as int]@);
                }
                cell.push(v);
                t3 = t3 + 1;
            }
            proof {
                assert(gv.len() == tl - 1);
                assert(seq_rats(cell@) =~= gap_cell_col(gv, i as int, j as int));
            }
            let num = match sum_fracs(&cell) {
                Ok(v) => v,
                Err(e) => {
                    proof {
                        assert(!reest_row_fits(gv, gm, obs@, n as int, i as int));
                    }
                    return Err(e);
                },
            };
            let cellv = match num.try_div(dt) {
                Ok(v) => v,
                Err(e) => {
                    proof {
                        assert(!div_fits(
                            gap_cell_sum(gv, i as int, j as int),
                            gamma_col_sum(gm, i as int, tl - 1),
                        ));
                        assert(!reest_row_fits(gv, gm, obs@, n as int, i as int));
                    }
                    return Err(e);
                },
            };
            trow.push(cellv);
            j = j + 1;
        }
        trans.push(trow);
        // emission row over the observation classes
        let mut erow: Vec<Frac> = Vec::new();
        let mut o: usize = 0;
        while o < cols
            invariant
                0 <= o <= cols,
                0 <= i < n,
                tl == obs@.len(),
                gamma@.len() == tl,
                cols == obs_max(obs@) + 1,
                n == gamma@[0]@.len(),
                gv == gap@.map_values(
                    |layer: Seq<Seq<Frac>>| layer.map_values(|row: Seq<Frac>| seq_rats(row)),
                ),
                gm == crate::matrix::table_rats(gamma@),
                forall|t3: int| 0 <= t3 < tl ==> (#[trigger] gamma@[t3])@.len() == n,
                de@ == gamma_col_sum(gm, i as int, tl as int),
                de@.n > 0,
                erow@.len() == o,
                forall|o2: int|
                    0 <= o2 < o ==> (#[trigger] erow@[o2])@ == cdiv(
                        csum(gamma_sel(gm, obs@, i as int, o2, tl as int)),
                        gamma_col_sum(gm, i as int, tl as int),
                    ),
                forall|o2: int|
                    0 <= o2 < o ==> csum_fits(#[trigger] gamma_sel(gm, obs@, i as int, o2, tl as int))
                        && div_fits(
                        csum(gamma_sel(gm, obs@, i as int, o2, tl as int)),
                        gamma_col_sum(gm, i as int, tl as int),
                    ),
            decreases cols - o,
        {
            let mut sel: Vec<Frac> = Vec::new();
            let mut t4: usize = 0;
            while t4 < tl
                invariant
                    0 <= t4 <= tl,
                    0 <= i < n,
                    tl == obs@.len(),
                    gamma@.len() == tl,
                    n == gamma@[0]@.len(),
                    gm == crate::matrix::table_rats(gamma@),
                    forall|t5: int| 0 <= t5 < tl ==> (#[trigger] gamma@[t5])@.len() == n,
                    seq_rats(sel@) == gamma_sel(gm, obs@, i as int, o as int, t4 as int),
                decreases tl - t4,
            {
                let ghost pre = seq_rats(sel@);
                if obs[t4] == o {
                    let v = gamma[t4][i];
                    proof {
                        assert(gamma@[t4 as int]@[i as int]@ == gm[t4 as int][i as int]);
                    }
                    sel.push(v);
                    proof {
                        assert(seq_rats(sel@) =~= pre + seq![gm[t4 as int][i as int]]);
                    }
                } else {
                    proof {
                        assert(pre + Seq::<Rat>::empty() =~= pre);
                    }
                }
                t4 = t4 + 1;
            }
            let num = match sum_fracs(&sel) {
                Ok(v) => v,
                Err(e) => {
                    proof {
                        assert(!csum_fits(gamma_sel(gm, obs@, i as int, o as int, tl as int)));
                        assert(!reest_row_fits(gv, gm, obs@, n as int, i as int));
                    }
                    return Err(e);
                },
            };
            let cellv = match num.try_div(de) {
                Ok(v) => v,
                Err(e) => {
                    proof {
                        assert(!div_fits(
                            csum(gamma_sel(gm, obs@, i as int, o as int, tl as int)),
                            gamma_col_sum(gm, i as int, tl as int),
                        ));
                        assert(!reest_row_fits(gv, gm, obs@, n as int, i as int));
                    }
                    return Err(e);
                },
            };
            erow.push(cellv);
            o = o + 1;
        }
        emit.push(erow);
        proof {
            assert(reest_row_fits(gv, gm, obs@, n as int, i as int));
        }
        i = i + 1;
    }
    proof {
        assert(seq_rats(start@) =~= gm[0]);
        assert(crate::matrix::table_rats(trans@) =~~= reest_trans_table(
            gv,
            gm,
            n as int,
            tl as int,
        ));
        lemma_dense_from_ok(
            start,
            trans,
            seq_rats(start@),
            crate::matrix::table_rats(trans@),
        );
        assert(reest_positive(gm, n as int, tl as int));
        assert(reest_fits(gv, gm, obs@, n as int));
        assert(obs_max(obs@) < usize::MAX);
    }
    match Model::from(start, emit, trans) {
        Ok(m) => Ok(m),
        Err(e) => Err(e),
    }
}

} // verus!
