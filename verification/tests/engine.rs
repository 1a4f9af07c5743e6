use float_cmp::ApproxEqUlps;

use hmm::error::{Dist, HmmError};
use hmm::estimate::{backward, occupation_stats, reestimate};
use hmm::frac::Frac;
use hmm::model::Model;
use hmm::params::Params;
use hmm::solve::Solve;

const FLOAT_TOLERANCE: i64 = 2;

fn fr(n: u64, d: u64) -> Frac {
    Frac::new(n, d)
}

fn frac_f64(f: Frac) -> f64 {
    f.num() as f64 / f.den() as f64
}

type DenseModel = Model<usize, usize, Vec<Frac>, Vec<Vec<Frac>>, Vec<Vec<Frac>>>;

/// The discrete test model from Mark Stamp's HMM exposition: two hidden
/// states, three observation classes.
fn test_model() -> DenseModel {
    Model::from(
        vec![fr(6, 10), fr(4, 10)],
        vec![
            vec![fr(1, 10), fr(4, 10), fr(5, 10)],
            vec![fr(7, 10), fr(2, 10), fr(1, 10)],
        ],
        vec![vec![fr(7, 10), fr(3, 10)], vec![fr(4, 10), fr(6, 10)]],
    )
    .expect("test model is valid")
}

#[test]
fn delta() {
    let (model, obs) = (test_model(), vec![0, 1, 0, 2]);
    match Solve::most_probable_sequence(&obs, &model) {
        Ok(seq) => assert_eq!(seq, vec![1, 1, 1, 0]),
        Err(e) => panic!("{:?}", e),
    }
}

struct AlphaTest {
    obs: Vec<usize>,
    p: f64,
}

#[test]
fn alpha() {
    let model = test_model();
    // These test values were created by hand using the test model.
    let tests = vec![
        AlphaTest { obs: vec![0, 0], p: 0.1456 },
        AlphaTest { obs: vec![1, 0], p: 0.104 },
    ];
    for t in tests.iter() {
        let (_, coefs) = Solve::alpha(&t.obs, &model).expect("failed to create alpha");
        let p = frac_f64(Solve::probability_of_sequence(&coefs).expect("likelihood"));
        assert!(
            p.approx_eq_ulps(&t.p, FLOAT_TOLERANCE),
            "got {}; expected {}",
            p,
            t.p
        );
    }
}

#[test]
fn alpha_likelihood_exact() {
    let model = test_model();
    let (_, coefs) = Solve::alpha(&vec![0, 0], &model).expect("alpha");
    let p = Solve::probability_of_sequence(&coefs).expect("likelihood");
    // 0.1456 exactly
    assert!(p.eq_value(fr(1456, 10000)));
    let (_, coefs) = Solve::alpha(&vec![1, 0], &model).expect("alpha");
    let p = Solve::probability_of_sequence(&coefs).expect("likelihood");
    assert!(p.eq_value(fr(104, 1000)));
}

#[test]
fn alpha_rows_are_normalized() {
    let model = test_model();
    let (normal, coefs) = Solve::alpha(&vec![0, 1, 0, 2], &model).expect("alpha");
    assert_eq!(normal.len(), 4);
    assert_eq!(coefs.len(), 4);
    for row in normal.iter() {
        let mut total = Frac::zero();
        for v in row.iter() {
            total = total.try_add(*v).expect("sum");
        }
        assert!(total.eq_value(Frac::one()));
    }
}

#[test]
fn params_from() {
    let init = vec![vec![fr(4, 10), fr(6, 10)]];
    let trans = vec![vec![fr(7, 10), fr(3, 10)], vec![fr(4, 10), fr(6, 10)]];
    let emit = vec![
        vec![fr(1, 10), fr(4, 10), fr(5, 10)],
        vec![fr(7, 10), fr(2, 10), fr(1, 10)],
    ];
    assert_eq!(
        Params::from(init.clone(), trans.clone(), emit.clone()),
        Ok(Params { n: 2, m: 3, init, trans, emit })
    );
}

#[test]
fn params_from_rejects_unbalanced_rows() {
    let init = vec![vec![fr(4, 10), fr(5, 10)]];
    let trans = vec![vec![fr(7, 10), fr(3, 10)], vec![fr(4, 10), fr(6, 10)]];
    let emit = vec![
        vec![fr(1, 10), fr(4, 10), fr(5, 10)],
        vec![fr(7, 10), fr(2, 10), fr(1, 10)],
    ];
    assert_eq!(
        Params::from(init, trans, emit),
        Err(HmmError::NotRowStochastic { which: Dist::Start })
    );
}

#[test]
fn params_from_rejects_bad_shapes() {
    let one = vec![vec![fr(1, 1)]];
    // a single hidden state carries no information
    assert_eq!(
        Params::from(one.clone(), one.clone(), one.clone()),
        Err(HmmError::TooFewStates { got: 1 })
    );
    let init = vec![vec![fr(4, 10), fr(6, 10)]];
    let trans3 = vec![
        vec![fr(1, 3), fr(1, 3), fr(1, 3)],
        vec![fr(1, 3), fr(1, 3), fr(1, 3)],
        vec![fr(1, 3), fr(1, 3), fr(1, 3)],
    ];
    let emit = vec![
        vec![fr(1, 10), fr(4, 10), fr(5, 10)],
        vec![fr(7, 10), fr(2, 10), fr(1, 10)],
    ];
    assert_eq!(
        Params::from(init, trans3, emit),
        Err(HmmError::BadDimensions { rows: 3, cols: 3, need_rows: 2, need_cols: 2 })
    );
}

// A model whose start distribution leaves tolerance is refused whole.
#[test]
fn model_from_validates() {
    let r: Result<DenseModel, HmmError> = Model::from(
        vec![fr(6, 10), fr(5, 10)],
        vec![
            vec![fr(1, 10), fr(4, 10), fr(5, 10)],
            vec![fr(7, 10), fr(2, 10), fr(1, 10)],
        ],
        vec![vec![fr(7, 10), fr(3, 10)], vec![fr(4, 10), fr(6, 10)]],
    );
    assert!(matches!(r, Err(HmmError::NotRowStochastic { which: Dist::Start })));
}

// Decoding skips a state whose emission probability is exactly zero.
#[test]
fn viterbi_zero_emission_disqualifies() {
    let model: DenseModel = Model::from(
        vec![fr(1, 2), fr(1, 2)],
        vec![vec![fr(0, 1), fr(1, 1)], vec![fr(1, 2), fr(1, 2)]],
        vec![vec![fr(1, 2), fr(1, 2)], vec![fr(1, 2), fr(1, 2)]],
    )
    .expect("model");
    // observation class 0 can only come from state 1
    let path = Solve::most_probable_sequence(&vec![0, 0], &model).expect("path");
    assert_eq!(path, vec![1, 1]);
}

#[test]
fn alpha_impossible_sequence_is_zero_probability() {
    let model: DenseModel = Model::from(
        vec![fr(1, 1), fr(0, 1)],
        vec![vec![fr(0, 1), fr(1, 1)], vec![fr(0, 1), fr(1, 1)]],
        vec![vec![fr(1, 2), fr(1, 2)], vec![fr(1, 2), fr(1, 2)]],
    )
    .expect("model");
    // no state can emit class 0 at all
    assert_eq!(
        Solve::alpha(&vec![0], &model),
        Err(HmmError::ZeroProbability)
    );
}

#[test]
fn probability_of_sequence_rejects_zero_coefficient() {
    assert_eq!(
        Solve::probability_of_sequence(&vec![fr(0, 1)]),
        Err(HmmError::ZeroProbability)
    );
}

/// A small model whose exact re-estimated values stay within 64-bit
/// lowest-terms form.
fn small_model() -> DenseModel {
    Model::from(
        vec![fr(1, 2), fr(1, 2)],
        vec![vec![fr(1, 4), fr(3, 4)], vec![fr(3, 4), fr(1, 4)]],
        vec![vec![fr(1, 2), fr(1, 2)], vec![fr(1, 2), fr(1, 2)]],
    )
    .expect("model")
}

// Re-estimating from a model's own statistics must not decrease the
// likelihood of the sequence they came from.
#[test]
fn reestimation_does_not_decrease_likelihood() {
    let model = small_model();
    let obs = vec![0, 1];
    let (alphas, coefs) = Solve::alpha(&obs, &model).expect("alpha");
    let p_before = Solve::probability_of_sequence(&coefs).expect("likelihood");
    let betas = backward(&obs, &model, &coefs).expect("backward");
    let (gap, gamma) = occupation_stats(&obs, &model, &alphas, &betas).expect("stats");
    let better = reestimate(&gap, &gamma, &obs).expect("reestimate");
    let (_, coefs2) = Solve::alpha(&obs, &better).expect("alpha after");
    let p_after = Solve::probability_of_sequence(&coefs2).expect("likelihood after");
    assert!(
        p_before.le(p_after),
        "got {} before and {} after",
        frac_f64(p_before),
        frac_f64(p_after)
    );
}

// The re-estimated model is row stochastic again: its construction
// revalidated it, and here its start row sums to one exactly.
#[test]
fn reestimated_model_is_stochastic() {
    let model = small_model();
    let obs = vec![0, 1];
    let (alphas, coefs) = Solve::alpha(&obs, &model).expect("alpha");
    let betas = backward(&obs, &model, &coefs).expect("backward");
    let (gap, gamma) = occupation_stats(&obs, &model, &alphas, &betas).expect("stats");
    let better = reestimate(&gap, &gamma, &obs).expect("reestimate");
    let mut total = Frac::zero();
    for v in better.start.iter() {
        total = total.try_add(*v).expect("sum");
    }
    assert!(total.eq_value(Frac::one()));
}

#[test]
fn backward_last_row_holds_coefficient() {
    let model = test_model();
    let obs = vec![0, 1, 0, 2];
    let (_, coefs) = Solve::alpha(&obs, &model).expect("alpha");
    let betas = backward(&obs, &model, &coefs).expect("backward");
    assert_eq!(betas.len(), 4);
    for v in betas[3].iter() {
        assert!(v.eq_value(coefs[3]));
    }
}
