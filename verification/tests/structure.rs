use hmm::cube::Cube;
use hmm::frac::{tolerance, Frac};
use hmm::matrix::Matrix;

fn fr(n: u64, d: u64) -> Frac {
    Frac::new(n, d)
}

#[test]
fn with_dims() {
    let mut c: Cube<u64> = Cube::with_dims(2, 3, 4, 7);
    assert_eq!(c.get(0, 0, 0), 7);
    assert_eq!(c.get(3, 1, 2), 7);
    c.set(2, 1, 0, 9);
    assert_eq!(c.get(2, 1, 0), 9);
    assert_eq!(c.get(2, 1, 1), 7);
    assert_eq!(c.get(1, 1, 0), 7);
}

#[test]
fn dimensions() {
    let empty: Vec<Vec<Frac>> = vec![];
    assert_eq!(empty.dimensions(), (0, 0));
    let m = vec![vec![fr(1, 2), fr(1, 2)], vec![fr(1, 4), fr(3, 4)]];
    assert_eq!(m.dimensions(), (2, 2));
}

// Row sums beyond tolerance are refused; a deviation within one
// tolerance-scale epsilon passes.
#[test]
fn row_stochastic_tolerance() {
    let tol = tolerance();
    let short = vec![vec![fr(9999999, 10000000)]];
    assert_eq!(short.row_stochastic(tol), Ok(false));
    let exact = vec![vec![fr(1, 2), fr(1, 2)]];
    assert_eq!(exact.row_stochastic(tol), Ok(true));
    // off by half the tolerance: 1/2 + (1/2 + 2^-41) = 1 + 2^-41
    let nudged = vec![vec![fr(1, 2), Frac::new(1099511627777, 2199023255552)]];
    assert_eq!(nudged.row_stochastic(tol), Ok(true));
}

#[test]
fn exact_arithmetic_reduces() {
    let a = fr(2, 4);
    let b = fr(1, 2);
    assert!(a.eq_value(b));
    let s = a.try_add(b).expect("sum");
    assert!(s.eq_value(Frac::one()));
    assert_eq!(s.num(), 1);
    assert_eq!(s.den(), 1);
    let p = fr(3, 10).try_mul(fr(5, 9)).expect("product");
    assert!(p.eq_value(fr(1, 6)));
    let q = fr(3, 10).try_div(fr(9, 10)).expect("quotient");
    assert!(q.eq_value(fr(1, 3)));
    assert!(fr(1, 3).lt(fr(1, 2)));
    assert!(fr(1, 2).le(fr(1, 2)));
    assert!(fr(3, 7).recip().eq_value(fr(7, 3)));
}
