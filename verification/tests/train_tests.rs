use float_cmp::ApproxEqUlps;

use hmm::error::HmmError;
use hmm::frac::Frac;
use hmm::genome;
use hmm::model::{Emitter, Starter, Transor};
use hmm::solve::Solve;
use hmm::train::discrete;

const FLOAT_TOLERANCE: i64 = 2;

fn frac_f64(f: Frac) -> f64 {
    f.num() as f64 / f.den() as f64
}

#[test]
fn basic_train() {
    let dna = String::from("actgcctggctgtctg");
    let tset = vec![(0, 4), (4, 8), (8, 12), (12, 16)];
    let model = genome::model(&dna, &tset).expect("training succeeds");
    let (_, coefs) = Solve::alpha(&vec!['a'], &model).expect("alpha");
    let p = frac_f64(Solve::probability_of_sequence(&coefs).expect("likelihood"));
    assert!(
        p.approx_eq_ulps(&0.25, FLOAT_TOLERANCE),
        "got {}; expected 0.25",
        p
    );
}

// Supervised counting on a single labeled path: the start distribution
// puts everything on the first state, and each single-occurrence
// transition row normalizes to probability one.
#[test]
fn supervised_single_path() {
    let s0 = 'x';
    let s1 = 'y';
    let o0 = 'a';
    let o1 = 'b';
    let paths = vec![vec![(s0, o0), (s1, o1), (s0, o0)]];
    let model = discrete(&paths, None).expect("training succeeds");
    assert!(model.start.startp(s0).unwrap().eq_value(Frac::one()));
    assert!(model.start.startp(s1).unwrap().eq_value(Frac::zero()));
    assert!(model.trans.transp(s0, s1).unwrap().eq_value(Frac::one()));
    assert!(model.trans.transp(s1, s0).unwrap().eq_value(Frac::one()));
    assert!(model.emitter.emitp(s0, o0).unwrap().eq_value(Frac::one()));
    assert!(model.emitter.emitp(s1, o1).unwrap().eq_value(Frac::one()));
}

// A known source state with an unseen target or observation has
// probability zero; a wholly unknown source state is an error.
#[test]
fn sparse_queries() {
    let paths = vec![vec![('x', 'a'), ('y', 'b'), ('x', 'a')]];
    let model = discrete(&paths, None).expect("training succeeds");
    assert!(model.trans.transp('x', 'x').unwrap().eq_value(Frac::zero()));
    assert!(model.emitter.emitp('x', 'z').unwrap().eq_value(Frac::zero()));
    assert_eq!(model.trans.transp('q', 'x'), Err(HmmError::UnknownState));
    assert_eq!(model.emitter.emitp('q', 'a'), Err(HmmError::UnknownState));
    // an unknown state still has start probability zero, not an error
    assert!(model.start.startp('q').unwrap().eq_value(Frac::zero()));
}

#[test]
fn states_come_from_the_transition_map() {
    let paths = vec![vec![('x', 'a'), ('y', 'b'), ('x', 'a')]];
    let model = discrete(&paths, None).expect("training succeeds");
    let states = model.trans.states();
    assert_eq!(states, vec!['x', 'y']);
}

// A manual transition override that unbalances a row makes the model
// fail validation as a whole.
#[test]
fn unbalancing_tuning_is_refused() {
    let paths = vec![vec![('x', 'a'), ('y', 'b'), ('x', 'a')]];
    let tunings = vec![(('x', 'y'), Frac::new(1, 2))];
    assert!(discrete(&paths, Some(tunings)).is_err());
}

// A tuning that keeps every row balanced is applied to its cell alone.
#[test]
fn balanced_tuning_is_applied() {
    let paths = vec![
        vec![('x', 'a'), ('y', 'b'), ('x', 'a'), ('x', 'a')],
    ];
    // learned row for x: x->y and x->x each 1/2; force both cells
    let tunings = vec![
        (('x', 'y'), Frac::new(1, 4)),
        (('x', 'x'), Frac::new(3, 4)),
    ];
    let model = discrete(&paths, Some(tunings)).expect("training succeeds");
    assert!(model.trans.transp('x', 'y').unwrap().eq_value(Frac::new(1, 4)));
    assert!(model.trans.transp('x', 'x').unwrap().eq_value(Frac::new(3, 4)));
}

// Training with no transitions at all cannot make a model: the state set
// would be empty.
#[test]
fn single_point_paths_cannot_make_a_model() {
    let paths = vec![vec![('x', 'a')]];
    assert!(matches!(
        discrete(&paths, None),
        Err(HmmError::TooFewStates { got: 0 })
    ));
}
