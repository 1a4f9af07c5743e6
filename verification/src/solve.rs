use vstd::prelude::*;

use crate::error::HmmError;
use crate::frac::{
    cmul, csum, csum_fits, mul_fits, rat_lt, rat_recip, rat_zero, seq_rats, Frac, Rat,
};
use crate::model::{starts_known, trans_known, Emitter, Model, Starter, Transor};

verus! {

/// The unscaled forward value at time `t` for the state at index `i`, using
/// the already-rescaled previous row, exactly as the executable pass
/// computes it: `start(i)*emit(i,obs[0])` at `t = 0`, and
/// `(sum over j of alpha[t-1][j]*trans(j,i))*emit(i,obs[t])` after that.
pub open spec fn alpha_raw<S: Copy, O: Copy, St: Starter<S>, E: Emitter<S, O>, T: Transor<S>>(
    m: Model<S, O, St, E, T>,
    obs: Seq<O>,
    t: int,
    i: int,
) -> Rat
    decreases t, 1int,
{
    let states = m.trans.states_spec();
    if t <= 0 {
        cmul(
            m.start.start_spec(states[i]).unwrap(),
            m.emitter.emit_spec(states[i], obs[0]).unwrap(),
        )
    } else {
        cmul(
            csum(alpha_terms(m, obs, t, i)),
            m.emitter.emit_spec(states[i], obs[t]).unwrap(),
        )
    }
}

/// The per-source-state contributions summed inside `alpha_raw` at `t >= 1`.
pub open spec fn alpha_terms<S: Copy, O: Copy, St: Starter<S>, E: Emitter<S, O>, T: Transor<S>>(
    m: Model<S, O, St, E, T>,
    obs: Seq<O>,
    t: int,
    i: int,
) -> Seq<Rat>
    decreases t, 0int,
{
    let states = m.trans.states_spec();
    if t <= 0 {
        Seq::empty()
    } else {
        Seq::new(
            states.len(),
            |j: int|
                cmul(
                    alpha_norm(m, obs, t - 1, j),
                    m.trans.trans_spec(states[j], states[i]).unwrap(),
                ),
        )
    }
}

/// Row `t` of the unscaled forward values.
pub open spec fn alpha_row<S: Copy, O: Copy, St: Starter<S>, E: Emitter<S, O>, T: Transor<S>>(
    m: Model<S, O, St, E, T>,
    obs: Seq<O>,
    t: int,
) -> Seq<Rat>
    decreases t, 2int,
{
    Seq::new(m.trans.states_spec().len(), |i: int| alpha_raw(m, obs, t, i))
}

/// The sum of row `t` before rescaling.
pub open spec fn alpha_rowsum<S: Copy, O: Copy, St: Starter<S>, E: Emitter<S, O>, T: Transor<S>>(
    m: Model<S, O, St, E, T>,
    obs: Seq<O>,
    t: int,
) -> Rat
    decreases t, 3int,
{
    csum(alpha_row(m, obs, t))
}

/// The scaling coefficient recorded for time `t`: the reciprocal of the raw
/// row sum.
pub open spec fn alpha_coef<S: Copy, O: Copy, St: Starter<S>, E: Emitter<S, O>, T: Transor<S>>(
    m: Model<S, O, St, E, T>,
    obs: Seq<O>,
    t: int,
) -> Rat
    decreases t, 4int,
{
    rat_recip(alpha_rowsum(m, obs, t))
}

/// The rescaled forward value at time `t`, state index `i`: each row is
/// normalized by its own sum.
pub open spec fn alpha_norm<S: Copy, O: Copy, St: Starter<S>, E: Emitter<S, O>, T: Transor<S>>(
    m: Model<S, O, St, E, T>,
    obs: Seq<O>,
    t: int,
    i: int,
) -> Rat
    decreases t, 5int,
{
    cmul(alpha_raw(m, obs, t, i), alpha_coef(m, obs, t))
}

/// Every probability the forward pass reads is defined: all start entries,
/// every emission along the observations, and (as soon as there is a second
/// step) every transition.
pub open spec fn alpha_covers<S: Copy, O: Copy, St: Starter<S>, E: Emitter<S, O>, T: Transor<S>>(
    m: Model<S, O, St, E, T>,
    obs: Seq<O>,
) -> bool {
    let states = m.trans.states_spec();
    &&& starts_known(m.start, states)
    &&& forall|t: int, i: int|
        0 <= t < obs.len() && 0 <= i < states.len() ==> (#[trigger] m.emitter.emit_spec(
            states[i],
            obs[t],
        )) is Some
    &&& obs.len() >= 2 ==> trans_known(m.trans, states)
}

/// No raw row sums to zero: some state sequence is consistent with every
/// prefix of the observations.
pub open spec fn alpha_positive<S: Copy, O: Copy, St: Starter<S>, E: Emitter<S, O>, T: Transor<S>>(
    m: Model<S, O, St, E, T>,
    obs: Seq<O>,
) -> bool {
    forall|t: int| 0 <= t < obs.len() ==> (#[trigger] alpha_rowsum(m, obs, t)).n > 0
}

/// Every arithmetic step of row `t` stays within 64-bit lowest-terms form.
pub open spec fn alpha_row_fits<S: Copy, O: Copy, St: Starter<S>, E: Emitter<S, O>, T: Transor<S>>(
    m: Model<S, O, St, E, T>,
    obs: Seq<O>,
    t: int,
) -> bool {
    let states = m.trans.states_spec();
    &&& if t == 0 {
        forall|i: int|
            0 <= i < states.len() ==> mul_fits(
                m.start.start_spec(#[trigger] states[i]).unwrap(),
                m.emitter.emit_spec(states[i], obs[0]).unwrap(),
            )
    } else {
        forall|i: int|
            0 <= i < states.len() ==> (forall|j: int|
                0 <= j < states.len() ==> mul_fits(
                    alpha_norm(m, obs, t - 1, j),
                    m.trans.trans_spec(#[trigger] states[j], #[trigger] states[i]).unwrap(),
                )) && csum_fits(#[trigger] alpha_terms(m, obs, t, i)) && mul_fits(
                csum(alpha_terms(m, obs, t, i)),
                m.emitter.emit_spec(states[i], obs[t]).unwrap(),
            )
    }
    &&& csum_fits(alpha_row(m, obs, t))
    &&& forall|i: int|
        0 <= i < states.len() ==> mul_fits(
            #[trigger] alpha_raw(m, obs, t, i),
            alpha_coef(m, obs, t),
        )
}

/// Every arithmetic step of the whole pass stays within 64-bit form.
pub open spec fn alpha_fits<S: Copy, O: Copy, St: Starter<S>, E: Emitter<S, O>, T: Transor<S>>(
    m: Model<S, O, St, E, T>,
    obs: Seq<O>,
) -> bool {
    forall|t: int| 0 <= t < obs.len() ==> #[trigger] alpha_row_fits(m, obs, t)
}

/// The index of the winning entry of a score list, scanning left to right
/// and letting a later entry win only with a strictly greater value: the
/// first state encountered with the greatest score.
pub open spec fn best_idx(s: Seq<Rat>) -> int
    decreases s.len(),
{
    if s.len() <= 1 {
        0
    } else {
        let b = best_idx(s.drop_last());
        if rat_lt(s[b], s.last()) {
            s.len() - 1
        } else {
            b
        }
    }
}

pub proof fn lemma_best_idx_range(s: Seq<Rat>)
    ensures
        0 <= best_idx(s),
        s.len() >= 1 ==> best_idx(s) < s.len(),
        s.len() < 1 ==> best_idx(s) == 0,
    decreases s.len(),
{
    if s.len() > 1 {
        lemma_best_idx_range(s.drop_last());
    }
}

/// The Viterbi score of the best partial path ending in the state at index
/// `i` after step `t`: at `t = 0`, `emit(i, obs[0])*start(i)`; afterwards
/// the winning candidate over all predecessors, except that a state whose
/// emission probability for `obs[t]` is exactly zero is disqualified at
/// this step (score zero, history extended with itself).
pub open spec fn vit_score<S: Copy, O: Copy, St: Starter<S>, E: Emitter<S, O>, T: Transor<S>>(
    m: Model<S, O, St, E, T>,
    obs: Seq<O>,
    t: int,
    i: int,
) -> Rat
    decreases t, 1int,
{
    let states = m.trans.states_spec();
    if t <= 0 {
        cmul(
            m.emitter.emit_spec(states[i], obs[0]).unwrap(),
            m.start.start_spec(states[i]).unwrap(),
        )
    } else if m.emitter.emit_spec(states[i], obs[t]).unwrap().n == 0 {
        rat_zero()
    } else {
        let c = vit_cands(m, obs, t, i);
        c[best_idx(c)]
    }
}

/// The candidate scores for reaching state index `i` at step `t` from each
/// predecessor `j`: `score(t-1, j) * trans(j, i) * emit(i, obs[t])`.
pub open spec fn vit_cands<S: Copy, O: Copy, St: Starter<S>, E: Emitter<S, O>, T: Transor<S>>(
    m: Model<S, O, St, E, T>,
    obs: Seq<O>,
    t: int,
    i: int,
) -> Seq<Rat>
    decreases t, 0int,
{
    let states = m.trans.states_spec();
    if t <= 0 {
        Seq::empty()
    } else {
        Seq::new(
            states.len(),
            |j: int|
                cmul(
                    cmul(
                        vit_score(m, obs, t - 1, j),
                        m.trans.trans_spec(states[j], states[i]).unwrap(),
                    ),
                    m.emitter.emit_spec(states[i], obs[t]).unwrap(),
                ),
        )
    }
}

/// The predecessor chosen for state index `i` at step `t`: itself when its
/// emission is exactly zero, else the winning candidate index.
pub open spec fn vit_prev<S: Copy, O: Copy, St: Starter<S>, E: Emitter<S, O>, T: Transor<S>>(
    m: Model<S, O, St, E, T>,
    obs: Seq<O>,
    t: int,
    i: int,
) -> int {
    let states = m.trans.states_spec();
    if m.emitter.emit_spec(states[i], obs[t]).unwrap().n == 0 {
        i
    } else {
        best_idx(vit_cands(m, obs, t, i))
    }
}

/// The history of state indices of the best partial path ending in state
/// index `i` after step `t`: the chosen predecessor's history, extended
/// with that predecessor.
pub open spec fn vit_hist<S: Copy, O: Copy, St: Starter<S>, E: Emitter<S, O>, T: Transor<S>>(
    m: Model<S, O, St, E, T>,
    obs: Seq<O>,
    t: int,
    i: int,
) -> Seq<int>
    decreases t,
{
    if t <= 0 {
        Seq::empty()
    } else {
        let b = vit_prev(m, obs, t, i);
        vit_hist(m, obs, t - 1, b).push(b)
    }
}

pub proof fn lemma_vit_hist_len<S: Copy, O: Copy, St: Starter<S>, E: Emitter<S, O>, T: Transor<S>>(
    m: Model<S, O, St, E, T>,
    obs: Seq<O>,
    t: int,
    i: int,
)
    ensures
        vit_hist(m, obs, t, i).len() == if t <= 0 { 0int } else { t },
    decreases t,
{
    if t > 0 {
        lemma_vit_hist_len(m, obs, t - 1, vit_prev(m, obs, t, i));
    }
}

/// The final scores after the last observation.
pub open spec fn vit_final_scores<S: Copy, O: Copy, St: Starter<S>, E: Emitter<S, O>, T: Transor<
    S,
>>(m: Model<S, O, St, E, T>, obs: Seq<O>) -> Seq<Rat> {
    Seq::new(m.trans.states_spec().len(), |i: int| vit_score(m, obs, obs.len() - 1, i))
}

/// The most probable hidden-state path: the winning final path's history,
/// closed with its own final state, mapped to state values. Its length
/// equals the observation count.
pub open spec fn viterbi_path<S: Copy, O: Copy, St: Starter<S>, E: Emitter<S, O>, T: Transor<S>>(
    m: Model<S, O, St, E, T>,
    obs: Seq<O>,
) -> Seq<S> {
    let states = m.trans.states_spec();
    let b = best_idx(vit_final_scores(m, obs));
    vit_hist(m, obs, obs.len() - 1, b).push(b).map_values(|k: int| states[k])
}

/// Every probability the decoder reads is defined: all start entries, every
/// emission along the observations, and every transition into a state whose
/// emission at that step is nonzero.
pub open spec fn vit_covers<S: Copy, O: Copy, St: Starter<S>, E: Emitter<S, O>, T: Transor<S>>(
    m: Model<S, O, St, E, T>,
    obs: Seq<O>,
) -> bool {
    let states = m.trans.states_spec();
    &&& starts_known(m.start, states)
    &&& forall|t: int, i: int|
        0 <= t < obs.len() && 0 <= i < states.len() ==> (#[trigger] m.emitter.emit_spec(
            states[i],
            obs[t],
        )) is Some
    &&& forall|t: int, i: int, j: int|
        1 <= t < obs.len() && 0 <= i < states.len() && 0 <= j < states.len()
            && (#[trigger] m.emitter.emit_spec(states[i], obs[t])).unwrap().n != 0 ==> (
        #[trigger] m.trans.trans_spec(states[j], states[i])) is Some
}

/// Every product of one decoding step stays within 64-bit form.
pub open spec fn vit_step_fits<S: Copy, O: Copy, St: Starter<S>, E: Emitter<S, O>, T: Transor<S>>(
    m: Model<S, O, St, E, T>,
    obs: Seq<O>,
    t: int,
    i: int,
) -> bool {
    let states = m.trans.states_spec();
    let em = m.emitter.emit_spec(states[i], obs[t]).unwrap();
    em.n == 0 || forall|j: int|
        0 <= j < states.len() ==> mul_fits(
            #[trigger] vit_score(m, obs, t - 1, j),
            m.trans.trans_spec(states[j], states[i]).unwrap(),
        ) && mul_fits(
            cmul(vit_score(m, obs, t - 1, j), m.trans.trans_spec(states[j], states[i]).unwrap()),
            em,
        )
}

/// Every product of the whole decoding stays within 64-bit form.
pub open spec fn vit_fits<S: Copy, O: Copy, St: Starter<S>, E: Emitter<S, O>, T: Transor<S>>(
    m: Model<S, O, St, E, T>,
    obs: Seq<O>,
) -> bool {
    let states = m.trans.states_spec();
    &&& forall|i: int|
        0 <= i < states.len() ==> mul_fits(
            m.emitter.emit_spec(#[trigger] states[i], obs[0]).unwrap(),
            m.start.start_spec(states[i]).unwrap(),
        )
    &&& forall|t: int, i: int|
        1 <= t < obs.len() && 0 <= i < states.len() ==> #[trigger] vit_step_fits(m, obs, t, i)
}

/// The integer readings of a vector of state indices.
pub open spec fn idxs(s: Seq<usize>) -> Seq<int> {
    s.map_values(|x: usize| x as int)
}

/// The likelihood recovered from the scaling coefficients: the product of
/// their reciprocals.
pub open spec fn likelihood_spec(coefs: Seq<Rat>) -> Rat
    decreases coefs.len(),
{
    if coefs.len() == 0 {
        crate::frac::rat_one()
    } else {
        cmul(likelihood_spec(coefs.drop_last()), rat_recip(coefs.last()))
    }
}

/// Every step of the likelihood product stays within 64-bit form.
pub open spec fn likelihood_fits(coefs: Seq<Rat>) -> bool
    decreases coefs.len(),
{
    if coefs.len() == 0 {
        true
    } else {
        likelihood_fits(coefs.drop_last()) && mul_fits(
            likelihood_spec(coefs.drop_last()),
            rat_recip(coefs.last()),
        )
    }
}

pub proof fn lemma_likelihood_fits_prefix(s: Seq<Rat>, i: int)
    requires
        likelihood_fits(s),
        0 <= i < s.len(),
    ensures
        likelihood_fits(s.take(i)),
        mul_fits(likelihood_spec(s.take(i)), rat_recip(s[i])),
    decreases s.len(),
{
    if i == s.len() - 1 {
        assert(s.take(i) =~= s.drop_last());
    } else {
        lemma_likelihood_fits_prefix(s.drop_last(), i);
        assert(s.drop_last().take(i) =~= s.take(i));
        assert(s.drop_last()[i] == s[i]);
    }
}

/// The inference engine: Viterbi decoding, the scaled forward pass, and
/// likelihood recovery from scaling coefficients.
pub struct Solve;


/// An exact copy of a history of state indices.
fn clone_indices(v: &Vec<usize>) -> (r: Vec<usize>)
    ensures
        r@ == v@,
{
    let mut r: Vec<usize> = Vec::new();
    let mut i: usize = 0;
    while i < v.len()
        invariant
            0 <= i <= v@.len(),
            r@ == v@.take(i as int),
        decreases v@.len() - i,
    {
        let x = v[i];
        r.push(x);
        proof {
            assert(r@ =~= v@.take(i + 1));
        }
        i = i + 1;
    }
    proof {
        assert(v@.take(v@.len() as int) =~= v@);
    }
    r
}

/// One best partial path: the state indices of its history and its score.
struct Path {
    states: Vec<usize>,
    p: Frac,
}

impl Solve {
    /// The index of the winning score, scanning left to right; a later
    /// entry wins only with a strictly greater score.
    fn best_path(cands: &Vec<Frac>) -> (r: usize)
        requires
            cands@.len() >= 1,
        ensures
            r < cands@.len(),
            r as int == best_idx(seq_rats(cands@)),
    {
        let ghost s = seq_rats(cands@);
        let mut b: usize = 0;
        let mut k: usize = 1;
        assert(s.take(1).len() == 1);
        while k < cands.len()
            invariant
                1 <= k <= cands@.len(),
                s == seq_rats(cands@),
                b < k,
                b as int == best_idx(s.take(k as int)),
            decreases cands@.len() - k,
        {
            proof {
                assert(s.take(k + 1).drop_last() =~= s.take(k as int));
                assert(s.take(k + 1).last() == s[k as int]);
                assert(s.take(k + 1)[b as int] == s[b as int]);
            }
            if cands[b].lt(cands[k]) {
                b = k;
            }
            k = k + 1;
        }
        proof {
            assert(s.take(cands@.len() as int) =~= s);
        }
        b
    }

    /// Viterbi decoding: the most probable hidden-state sequence for the
    /// observations, as `viterbi_path` states it: a log-free exact dynamic
    /// program whose tie-break lets the first state encountered with a
    /// strictly greater score win, and which disqualifies a state at a step
    /// where its emission probability is exactly zero. Succeeds exactly
    /// when every queried probability is defined and every exact product
    /// fits 64-bit form.
    pub fn most_probable_sequence<S: Copy, O: Copy, St: Starter<S>, E: Emitter<S, O>, T: Transor<S>>(
        obs: &Vec<O>,
        model: &Model<S, O, St, E, T>,
    ) -> (r: Result<Vec<S>, HmmError>)
        requires
            obs@.len() >= 1,
            model.trans.states_spec().len() >= 1,
        ensures
            r is Ok <==> vit_covers(*model, obs@) && vit_fits(*model, obs@),
            match r {
                Ok(path) => path@ == viterbi_path(*model, obs@) && path@.len() == obs@.len(),
                Err(e) => e == HmmError::Overflow || !vit_covers(*model, obs@),
            },
    {
        let ghost m = *model;
        let ghost o = obs@;
        let states = model.trans.states();
        let n = states.len();
        let tlen = obs.len();

        let mut paths: Vec<Path> = Vec::new();
        let mut i: usize = 0;
        while i < n
            invariant
                0 <= i <= n,
                n == states@.len(),
                states@ == m.trans.states_spec(),
                m == *model,
                o == obs@,
                o.len() >= 1,
                paths@.len() == i,
                forall|k: int|
                    0 <= k < i ==> (#[trigger] m.start.start_spec(states@[k])) is Some,
                forall|k: int|
                    0 <= k < i ==> (#[trigger] m.emitter.emit_spec(states@[k], o[0])) is Some,
                forall|k: int|
                    0 <= k < i ==> mul_fits(
                        m.emitter.emit_spec(#[trigger] states@[k], o[0]).unwrap(),
                        m.start.start_spec(states@[k]).unwrap(),
                    ),
                forall|k: int|
                    0 <= k < i ==> (#[trigger] paths@[k]).p@ == vit_score(m, o, 0, k),
                forall|k: int| 0 <= k < i ==> (#[trigger] paths@[k]).states@.len() == 0,
            decreases n - i,
        {
            let st = states[i];
            let pi = match model.start.startp(st) {
                Ok(p) => p,
                Err(e) => return Err(e),
            };
            let em = match model.emitter.emitp(st, obs[0]) {
                Ok(p) => p,
                Err(e) => return Err(e),
            };
            let sc = match em.try_mul(pi) {
                Ok(v) => v,
                Err(e) => return Err(e),
            };
            paths.push(Path { states: Vec::new(), p: sc });
            i = i + 1;
        }

        let mut t: usize = 1;
        while t < tlen
            invariant
                1 <= t <= tlen,
                tlen == o.len(),
                n == states@.len(),
                n >= 1,
                states@ == m.trans.states_spec(),
                m == *model,
                o == obs@,
                paths@.len() == n,
                forall|k: int|
                    0 <= k < n ==> (#[trigger] paths@[k]).p@ == vit_score(m, o, t - 1, k),
                forall|k: int|
                    0 <= k < n ==> idxs((#[trigger] paths@[k]).states@) == vit_hist(m, o, t - 1, k),
                forall|k: int, x: int|
                    0 <= k < n && 0 <= x < paths@[k].states@.len() ==> (#[trigger] paths@[k].states@[x])
                        < n,
                starts_known(m.start, states@),
                forall|r2: int, k: int|
                    0 <= r2 < t && 0 <= k < n ==> (#[trigger] m.emitter.emit_spec(
                        states@[k],
                        o[r2],
                    )) is Some,
                forall|k: int|
                    0 <= k < n ==> mul_fits(
                        m.emitter.emit_spec(#[trigger] states@[k], o[0]).unwrap(),
                        m.start.start_spec(states@[k]).unwrap(),
                    ),
                forall|r2: int, k: int, j2: int|
                    1 <= r2 < t && 0 <= k < n && 0 <= j2 < n && (#[trigger] m.emitter.emit_spec(
                        states@[k],
                        o[r2],
                    )).unwrap().n != 0 ==> (#[trigger] m.trans.trans_spec(states@[j2], states@[k]))
                        is Some,
                forall|r2: int, k: int|
                    1 <= r2 < t && 0 <= k < n ==> #[trigger] vit_step_fits(m, o, r2, k),
            decreases tlen - t,
        {
            // compute phase: choose each state's predecessor and new score
            // against the unchanged previous paths
            let mut prevs: Vec<usize> = Vec::new();
            let mut new_scores: Vec<Frac> = Vec::new();
            let mut i2: usize = 0;
            while i2 < n
                invariant
                    0 <= i2 <= n,
                    1 <= t < tlen,
                    tlen == o.len(),
                    n == states@.len(),
                    n >= 1,
                    states@ == m.trans.states_spec(),
                    m == *model,
                    o == obs@,
                    paths@.len() == n,
                    forall|k: int|
                        0 <= k < n ==> (#[trigger] paths@[k]).p@ == vit_score(m, o, t - 1, k),
                    prevs@.len() == i2,
                    new_scores@.len() == i2,
                    forall|k: int|
                        0 <= k < i2 ==> (#[trigger] m.emitter.emit_spec(states@[k], o[t as int]))
                            is Some,
                    forall|k: int, j2: int|
                        0 <= k < i2 && 0 <= j2 < n && m.emitter.emit_spec(
                            #[trigger] states@[k],
                            o[t as int],
                        ).unwrap().n != 0 ==> (#[trigger] m.trans.trans_spec(
                            states@[j2],
                            states@[k],
                        )) is Some,
                    forall|k: int| 0 <= k < i2 ==> #[trigger] vit_step_fits(m, o, t as int, k),
                    forall|k: int|
                        0 <= k < i2 ==> (#[trigger] prevs@[k]) as int == vit_prev(m, o, t as int, k)
                            && prevs@[k] < n,
                    forall|k: int|
                        0 <= k < i2 ==> (#[trigger] new_scores@[k])@ == vit_score(m, o, t as int, k),
                decreases n - i2,
            {
                let dest = states[i2];
                let em = match model.emitter.emitp(dest, obs[t]) {
                    Ok(p) => p,
                    Err(e) => return Err(e),
                };
                if em.is_zero() {
                    prevs.push(i2);
                    new_scores.push(Frac::zero());
                    proof {
                        assert(vit_step_fits(m, o, t as int, i2 as int));
                    }
                } else {
                    let mut cands: Vec<Frac> = Vec::new();
                    let mut j: usize = 0;
                    while j < n
                        invariant
                            0 <= j <= n,
                            0 <= i2 < n,
                            1 <= t < tlen,
                            tlen == o.len(),
                            n == states@.len(),
                            states@ == m.trans.states_spec(),
                            m == *model,
                            o == obs@,
                            paths@.len() == n,
                            forall|k: int|
                                0 <= k < n ==> (#[trigger] paths@[k]).p@ == vit_score(m, o, t - 1, k),
                            dest == states@[i2 as int],
                            em@ == m.emitter.emit_spec(states@[i2 as int], o[t as int]).unwrap(),
                            m.emitter.emit_spec(states@[i2 as int], o[t as int]) is Some,
                            em@.n != 0,
                            cands@.len() == j,
                            forall|k: int|
                                0 <= k < j ==> (#[trigger] m.trans.trans_spec(
                                    states@[k],
                                    states@[i2 as int],
                                )) is Some,
                            forall|k: int|
                                0 <= k < j ==> mul_fits(
                                    #[trigger] vit_score(m, o, t - 1, k),
                                    m.trans.trans_spec(states@[k], states@[i2 as int]).unwrap(),
                                ) && mul_fits(
                                    cmul(
                                        vit_score(m, o, t - 1, k),
                                        m.trans.trans_spec(states@[k], states@[i2 as int]).unwrap(),
                                    ),
                                    em@,
                                ),
                            forall|k: int|
                                0 <= k < j ==> (#[trigger] cands@[k])@ == vit_cands(
                                    m,
                                    o,
                                    t as int,
                                    i2 as int,
                                )[k],
                        decreases n - j,
                    {
                        let src = states[j];
                        let tp = match model.trans.transp(src, dest) {
                            Ok(p) => p,
                            Err(e) => return Err(e),
                        };
                        let c1 = match paths[j].p.try_mul(tp) {
                            Ok(v) => v,
                            Err(e) => {
                                proof {
                                    assert(!vit_step_fits(m, o, t as int, i2 as int));
                                }
                                return Err(e);
                            },
                        };
                        let c = match c1.try_mul(em) {
                            Ok(v) => v,
                            Err(e) => {
                                proof {
                                    assert(!vit_step_fits(m, o, t as int, i2 as int));
                                }
                                return Err(e);
                            },
                        };
                        cands.push(c);
                        j = j + 1;
                    }
                    proof {
                        assert(seq_rats(cands@) =~= vit_cands(m, o, t as int, i2 as int));
                        lemma_best_idx_range(seq_rats(cands@));
                    }
                    let b = Solve::best_path(&cands);
                    prevs.push(b);
                    new_scores.push(cands[b]);
                    proof {
                        assert(vit_step_fits(m, o, t as int, i2 as int));
                    }
                }
                i2 = i2 + 1;
            }
            // apply phase: rebuild each path from its chosen predecessor
            let mut new_paths: Vec<Path> = Vec::new();
            let mut i3: usize = 0;
            while i3 < n
                invariant
                    0 <= i3 <= n,
                    1 <= t < tlen,
                    n == states@.len(),
                    m == *model,
                    o == obs@,
                    tlen == o.len(),
                    paths@.len() == n,
                    prevs@.len() == n,
                    new_scores@.len() == n,
                    forall|k: int|
                        0 <= k < n ==> idxs((#[trigger] paths@[k]).states@) == vit_hist(m, o, t - 1, k),
                    forall|k: int, x: int|
                        0 <= k < n && 0 <= x < paths@[k].states@.len() ==> (
                        #[trigger] paths@[k].states@[x]) < n,
                    forall|k: int|
                        0 <= k < n ==> (#[trigger] prevs@[k]) as int == vit_prev(m, o, t as int, k)
                            && prevs@[k] < n,
                    forall|k: int|
                        0 <= k < n ==> (#[trigger] new_scores@[k])@ == vit_score(m, o, t as int, k),
                    new_paths@.len() == i3,
                    forall|k: int|
                        0 <= k < i3 ==> (#[trigger] new_paths@[k]).p@ == vit_score(m, o, t as int, k),
                    forall|k: int|
                        0 <= k < i3 ==> idxs((#[trigger] new_paths@[k]).states@) == vit_hist(
                            m,
                            o,
                            t as int,
                            k,
                        ),
                    forall|k: int, x: int|
                        0 <= k < i3 && 0 <= x < new_paths@[k].states@.len() ==> (
                        #[trigger] new_paths@[k].states@[x]) < n,
                decreases n - i3,
            {
                let b = prevs[i3];
                let mut h = clone_indices(&paths[b].states);
                h.push(b);
                proof {
                    assert(idxs(h@) =~= vit_hist(m, o, t as int, i3 as int));
                }
                new_paths.push(Path { states: h, p: new_scores[i3] });
                i3 = i3 + 1;
            }
            paths = new_paths;
            t = t + 1;
        }

        // terminal step: the best-scoring path overall, closed with its own
        // final state
        let mut final_scores: Vec<Frac> = Vec::new();
        let mut i4: usize = 0;
        while i4 < n
            invariant
                0 <= i4 <= n,
                n == states@.len(),
                m == *model,
                o == obs@,
                tlen == o.len(),
                paths@.len() == n,
                forall|k: int|
                    0 <= k < n ==> (#[trigger] paths@[k]).p@ == vit_score(m, o, tlen - 1, k),
                final_scores@.len() == i4,
                forall|k: int|
                    0 <= k < i4 ==> (#[trigger] final_scores@[k])@ == vit_score(m, o, tlen - 1, k),
            decreases n - i4,
        {
            final_scores.push(paths[i4].p);
            i4 = i4 + 1;
        }
        proof {
            assert(seq_rats(final_scores@) =~= vit_final_scores(m, o));
            lemma_best_idx_range(seq_rats(final_scores@));
        }
        let b = Solve::best_path(&final_scores);
        let mut h = clone_indices(&paths[b].states);
        h.push(b);
        let mut out: Vec<S> = Vec::new();
        let mut k: usize = 0;
        while k < h.len()
            invariant
                0 <= k <= h@.len(),
                n == states@.len(),
                forall|x: int| 0 <= x < h@.len() ==> (#[trigger] h@[x]) < n,
                out@.len() == k,
                forall|x: int| 0 <= x < k ==> (#[trigger] out@[x]) == states@[h@[x] as int],
            decreases h@.len() - k,
        {
            let idx = h[k];
            out.push(states[idx]);
            k = k + 1;
        }
        proof {
            assert(idxs(h@) =~= vit_hist(m, o, tlen - 1, b as int).push(b as int));
            assert(out@ =~= viterbi_path(m, o));
            lemma_vit_hist_len(m, o, tlen - 1, b as int);
        }
        Ok(out)
    }

    /// The scaled forward pass. For `t = 0`,
    /// `alpha[0][i] = start(i)*emit(i, obs[0])`; for `t > 0`,
    /// `alpha[t][i] = emit(i, obs[t]) * sum_j alpha[t-1][j]*trans(j, i)`.
    /// Each row is normalized by its sum and the reciprocal of that sum is
    /// recorded as the row's coefficient. Succeeds exactly when every
    /// queried probability is defined, no row sums to zero, and every exact
    /// intermediate fits 64-bit form.
    pub fn alpha<S: Copy, O: Copy, St: Starter<S>, E: Emitter<S, O>, T: Transor<S>>(
        obs: &Vec<O>,
        model: &Model<S, O, St, E, T>,
    ) -> (r: Result<(Vec<Vec<Frac>>, Vec<Frac>), HmmError>)
        requires
            obs@.len() >= 1,
        ensures
            r is Ok <==> alpha_covers(*model, obs@) && alpha_positive(*model, obs@) && alpha_fits(
                *model,
                obs@,
            ),
            match r {
                Ok((normal, coefs)) => {
                    let states = model.trans.states_spec();
                    &&& normal@.len() == obs@.len()
                    &&& coefs@.len() == obs@.len()
                    &&& forall|t: int|
                        0 <= t < obs@.len() ==> (#[trigger] normal@[t])@.len() == states.len()
                    &&& forall|t: int, i: int|
                        0 <= t < obs@.len() && 0 <= i < states.len() ==> (#[trigger] normal@[t]@[i])@
                            == alpha_norm(*model, obs@, t, i)
                    &&& forall|t: int|
                        0 <= t < obs@.len() ==> (#[trigger] coefs@[t])@ == alpha_coef(
                            *model,
                            obs@,
                            t,
                        )
                },
                Err(e) => e == HmmError::Overflow || e == HmmError::ZeroProbability
                    || !alpha_covers(*model, obs@),
            },
    {
        let ghost m = *model;
        let ghost o = obs@;
        let states = model.trans.states();
        let n = states.len();
        let tlen = obs.len();
        let mut normal: Vec<Vec<Frac>> = Vec::new();
        let mut coefs: Vec<Frac> = Vec::new();

        // row 0
        let mut raw: Vec<Frac> = Vec::new();
        let mut i: usize = 0;
        while i < n
            invariant
                0 <= i <= n,
                n == states@.len(),
                states@ == m.trans.states_spec(),
                m == *model,
                o == obs@,
                o.len() >= 1,
                raw@.len() == i,
                forall|k: int|
                    0 <= k < i ==> (#[trigger] m.start.start_spec(states@[k])) is Some,
                forall|k: int|
                    0 <= k < i ==> (#[trigger] m.emitter.emit_spec(states@[k], o[0])) is Some,
                forall|k: int|
                    0 <= k < i ==> mul_fits(
                        m.start.start_spec(#[trigger] states@[k]).unwrap(),
                        m.emitter.emit_spec(states@[k], o[0]).unwrap(),
                    ),
                forall|k: int| 0 <= k < i ==> (#[trigger] raw@[k])@ == alpha_raw(m, o, 0, k),
            decreases n - i,
        {
            let st = states[i];
            let pi = match model.start.startp(st) {
                Ok(p) => p,
                Err(e) => return Err(e),
            };
            let em = match model.emitter.emitp(st, obs[0]) {
                Ok(p) => p,
                Err(e) => return Err(e),
            };
            let v = match pi.try_mul(em) {
                Ok(v) => v,
                Err(e) => {
                    proof {
                        assert(!alpha_row_fits(m, o, 0));
                    }
                    return Err(e);
                },
            };
            raw.push(v);
            i = i + 1;
        }
        proof {
            assert(seq_rats(raw@) =~= alpha_row(m, o, 0));
        }
        let rowsum = match crate::frac::sum_fracs(&raw) {
            Ok(s) => s,
            Err(e) => {
                proof {
                    assert(!alpha_row_fits(m, o, 0));
                }
                return Err(e);
            },
        };
        if rowsum.is_zero() {
            proof {
                assert(alpha_rowsum(m, o, 0).n == 0);
            }
            return Err(HmmError::ZeroProbability);
        }
        let coef = rowsum.recip();
        let mut norm_row: Vec<Frac> = Vec::new();
        i = 0;
        while i < n
            invariant
                0 <= i <= n,
                n == states@.len(),
                states@ == m.trans.states_spec(),
                m == *model,
                o == obs@,
                o.len() >= 1,
                raw@.len() == n,
                forall|k: int| 0 <= k < n ==> (#[trigger] raw@[k])@ == alpha_raw(m, o, 0, k),
                coef@ == alpha_coef(m, o, 0),
                norm_row@.len() == i,
                forall|k: int|
                    0 <= k < i ==> mul_fits(#[trigger] alpha_raw(m, o, 0, k), alpha_coef(m, o, 0)),
                forall|k: int|
                    0 <= k < i ==> (#[trigger] norm_row@[k])@ == alpha_norm(m, o, 0, k),
            decreases n - i,
        {
            let v = match raw[i].try_mul(coef) {
                Ok(v) => v,
                Err(e) => {
                    proof {
                        assert(!mul_fits(alpha_raw(m, o, 0, i as int), alpha_coef(m, o, 0)));
                        assert(!alpha_row_fits(m, o, 0));
                    }
                    return Err(e);
                },
            };
            norm_row.push(v);
            i = i + 1;
        }
        normal.push(norm_row);
        coefs.push(coef);

        // rows 1..tlen
        let mut t: usize = 1;
        while t < tlen
            invariant
                1 <= t <= tlen,
                tlen == o.len(),
                n == states@.len(),
                states@ == m.trans.states_spec(),
                m == *model,
                o == obs@,
                normal@.len() == t,
                coefs@.len() == t,
                forall|r: int| 0 <= r < t ==> (#[trigger] normal@[r])@.len() == n,
                forall|r: int, k: int|
                    0 <= r < t && 0 <= k < n ==> (#[trigger] normal@[r]@[k])@ == alpha_norm(
                        m,
                        o,
                        r,
                        k,
                    ),
                forall|r: int| 0 <= r < t ==> (#[trigger] coefs@[r])@ == alpha_coef(m, o, r),
                forall|r: int| 0 <= r < t ==> (#[trigger] alpha_rowsum(m, o, r)).n > 0,
                forall|r: int| 0 <= r < t ==> #[trigger] alpha_row_fits(m, o, r),
                starts_known(m.start, states@),
                forall|r: int, k: int|
                    0 <= r < t && 0 <= k < n ==> (#[trigger] m.emitter.emit_spec(
                        states@[k],
                        o[r],
                    )) is Some,
                t >= 2 ==> trans_known(m.trans, states@),
            decreases tlen - t,
        {
            let prev = &normal[t - 1];
            let mut raw_t: Vec<Frac> = Vec::new();
            let mut i2: usize = 0;
            while i2 < n
                invariant
                    0 <= i2 <= n,
                    1 <= t < tlen,
                    tlen == o.len(),
                    n == states@.len(),
                    states@ == m.trans.states_spec(),
                    m == *model,
                    o == obs@,
                    normal@.len() == t,
                    prev == &normal@[t - 1],
                    prev@.len() == n,
                    forall|k: int|
                        0 <= k < n ==> (#[trigger] prev@[k])@ == alpha_norm(m, o, t - 1, k),
                    raw_t@.len() == i2,
                    forall|k: int|
                        0 <= k < i2 ==> (#[trigger] raw_t@[k])@ == alpha_raw(m, o, t as int, k),
                    forall|k: int, j: int|
                        0 <= k < i2 && 0 <= j < n ==> (#[trigger] m.trans.trans_spec(
                            states@[j],
                            states@[k],
                        )) is Some,
                    forall|k: int|
                        0 <= k < i2 ==> (#[trigger] m.emitter.emit_spec(states@[k], o[t as int]))
                            is Some,
                    forall|k: int, j: int|
                        0 <= k < i2 && 0 <= j < n ==> mul_fits(
                            alpha_norm(m, o, t - 1, j),
                            m.trans.trans_spec(#[trigger] states@[j], #[trigger] states@[k]).unwrap(),
                        ),
                    forall|k: int|
                        0 <= k < i2 ==> csum_fits(#[trigger] alpha_terms(m, o, t as int, k))
                            && mul_fits(
                            csum(alpha_terms(m, o, t as int, k)),
                            m.emitter.emit_spec(states@[k], o[t as int]).unwrap(),
                        ),
                decreases n - i2,
            {
                let dest = states[i2];
                let mut acc_vec: Vec<Frac> = Vec::new();
                let mut j: usize = 0;
                while j < n
                    invariant
                        0 <= j <= n,
                        0 <= i2 < n,
                        1 <= t < tlen,
                        tlen == o.len(),
                        n == states@.len(),
                        states@ == m.trans.states_spec(),
                        m == *model,
                        o == obs@,
                        dest == states@[i2 as int],
                        prev@.len() == n,
                        forall|k: int|
                            0 <= k < n ==> (#[trigger] prev@[k])@ == alpha_norm(m, o, t - 1, k),
                        acc_vec@.len() == j,
                        forall|k: int|
                            0 <= k < j ==> (#[trigger] m.trans.trans_spec(
                                states@[k],
                                states@[i2 as int],
                            )) is Some,
                        forall|k: int|
                            0 <= k < j ==> mul_fits(
                                alpha_norm(m, o, t - 1, k),
                                m.trans.trans_spec(#[trigger] states@[k], states@[i2 as int]).unwrap(),
                            ),
                        forall|k: int|
                            0 <= k < j ==> (#[trigger] acc_vec@[k])@ == alpha_terms(
                                m,
                                o,
                                t as int,
                                i2 as int,
                            )[k],
                    decreases n - j,
                {
                    let src = states[j];
                    let tp = match model.trans.transp(src, dest) {
                        Ok(p) => p,
                        Err(e) => return Err(e),
                    };
                    let term = match prev[j].try_mul(tp) {
                        Ok(v) => v,
                        Err(e) => {
                            proof {
                                assert(!mul_fits(
                                    alpha_norm(m, o, t - 1, j as int),
                                    m.trans.trans_spec(
                                        states@[j as int],
                                        states@[i2 as int],
                                    ).unwrap(),
                                ));
                                assert(alpha_terms(m, o, t as int, i2 as int).len() == n);
                                assert(!alpha_row_fits(m, o, t as int));
                            }
                            return Err(e);
                        },
                    };
                    acc_vec.push(term);
                    j = j + 1;
                }
                proof {
                    assert(seq_rats(acc_vec@) =~= alpha_terms(m, o, t as int, i2 as int));
                }
                let acc = match crate::frac::sum_fracs(&acc_vec) {
                    Ok(s) => s,
                    Err(e) => {
                        proof {
                            assert(!alpha_row_fits(m, o, t as int));
                        }
                        return Err(e);
                    },
                };
                let em = match model.emitter.emitp(dest, obs[t]) {
                    Ok(p) => p,
                    Err(e) => return Err(e),
                };
                let v = match acc.try_mul(em) {
                    Ok(v) => v,
                    Err(e) => {
                        proof {
                            assert(!alpha_row_fits(m, o, t as int));
                        }
                        return Err(e);
                    },
                };
                raw_t.push(v);
                i2 = i2 + 1;
            }
            proof {
                assert(seq_rats(raw_t@) =~= alpha_row(m, o, t as int));
            }
            let rowsum_t = match crate::frac::sum_fracs(&raw_t) {
                Ok(s) => s,
                Err(e) => {
                    proof {
                        assert(!alpha_row_fits(m, o, t as int));
                    }
                    return Err(e);
                },
            };
            if rowsum_t.is_zero() {
                proof {
                    assert(alpha_rowsum(m, o, t as int).n == 0);
                }
                return Err(HmmError::ZeroProbability);
            }
            let coef_t = rowsum_t.recip();
            let mut norm_t: Vec<Frac> = Vec::new();
            let mut i3: usize = 0;
            while i3 < n
                invariant
                    0 <= i3 <= n,
                    1 <= t < tlen,
                    tlen == o.len(),
                    n == states@.len(),
                    states@ == m.trans.states_spec(),
                    m == *model,
                    o == obs@,
                    raw_t@.len() == n,
                    forall|k: int|
                        0 <= k < n ==> (#[trigger] raw_t@[k])@ == alpha_raw(m, o, t as int, k),
                    coef_t@ == alpha_coef(m, o, t as int),
                    norm_t@.len() == i3,
                    forall|k: int|
                        0 <= k < i3 ==> mul_fits(
                            #[trigger] alpha_raw(m, o, t as int, k),
                            alpha_coef(m, o, t as int),
                        ),
                    forall|k: int|
                        0 <= k < i3 ==> (#[trigger] norm_t@[k])@ == alpha_norm(m, o, t as int, k),
                decreases n - i3,
            {
                let v = match raw_t[i3].try_mul(coef_t) {
                    Ok(v) => v,
                    Err(e) => {
                        proof {
                            assert(!mul_fits(
                                alpha_raw(m, o, t as int, i3 as int),
                                alpha_coef(m, o, t as int),
                            ));
                            assert(!alpha_row_fits(m, o, t as int));
                        }
                        return Err(e);
                    },
                };
                norm_t.push(v);
                i3 = i3 + 1;
            }
            normal.push(norm_t);
            coefs.push(coef_t);
            t = t + 1;
        }
        Ok((normal, coefs))
    }

    /// The likelihood of the observation sequence whose forward pass
    /// produced `coefs`: the product of the reciprocals of the per-step
    /// scaling coefficients.
    pub fn probability_of_sequence(coefs: &Vec<Frac>) -> (r: Result<Frac, HmmError>)
        ensures
            r is Ok <==> (forall|i: int| 0 <= i < coefs@.len() ==> (#[trigger] coefs@[i])@.n > 0)
                && likelihood_fits(seq_rats(coefs@)),
            match r {
                Ok(p) => p@ == likelihood_spec(seq_rats(coefs@)),
                Err(e) => e == HmmError::Overflow || e == HmmError::ZeroProbability,
            },
    {
        let ghost s = seq_rats(coefs@);
        let mut acc = Frac::one();
        let mut i: usize = 0;
        assert(s.take(0) =~= Seq::<Rat>::empty());
        while i < coefs.len()
            invariant
                0 <= i <= coefs@.len(),
                s == seq_rats(coefs@),
                acc@ == likelihood_spec(s.take(i as int)),
                likelihood_fits(s.take(i as int)),
                forall|k: int| 0 <= k < i ==> (#[trigger] coefs@[k])@.n > 0,
            decreases coefs@.len() - i,
        {
            let c = coefs[i];
            if c.is_zero() {
                return Err(HmmError::ZeroProbability);
            }
            proof {
                use_type_invariant(c);
            }
            match acc.try_mul(c.recip()) {
                Ok(next) => {
                    proof {
                        assert(s.take(i + 1).drop_last() =~= s.take(i as int));
                        assert(s.take(i + 1).last() == s[i as int]);
                    }
                    acc = next;
                },
                Err(e) => {
                    proof {
                        if likelihood_fits(s) {
                            lemma_likelihood_fits_prefix(s, i as int);
                        }
                    }
                    return Err(e);
                },
            }
            i = i + 1;
        }
        assert(s.take(coefs@.len() as int) =~= s);
        Ok(acc)
    }
}

} // verus!
