use vstd::prelude::*;

use vstd::arithmetic::div_mod::{
    lemma_add_mod_noop, lemma_fundamental_div_mod, lemma_mod_self_0, lemma_mul_mod_noop_right,
    lemma_small_mod,
};
use vstd::arithmetic::mul::{lemma_mul_nonnegative, lemma_mul_strictly_positive};

use crate::error::HmmError;

verus! {

/// A mathematical (unbounded) rational, used only in specifications.
/// The value denoted is `n / d`; every meaningful `Rat` has `d > 0`.
pub ghost struct Rat {
    pub n: int,
    pub d: int,
}

/// A well-formed specification rational: positive denominator, non-negative
/// numerator. Probabilities and their sums and products never leave this set.
pub open spec fn rat_wf(a: Rat) -> bool {
    a.d > 0 && a.n >= 0
}

/// Value equality of two rationals by cross-multiplication.
pub open spec fn rat_eq(a: Rat, b: Rat) -> bool {
    a.n * b.d == b.n * a.d
}

/// `a <= b` as rational values (valid when both denominators are positive).
pub open spec fn rat_le(a: Rat, b: Rat) -> bool {
    a.n * b.d <= b.n * a.d
}

/// `a < b` as rational values (valid when both denominators are positive).
pub open spec fn rat_lt(a: Rat, b: Rat) -> bool {
    a.n * b.d < b.n * a.d
}

pub open spec fn rat_zero() -> Rat {
    Rat { n: 0, d: 1 }
}

pub open spec fn rat_one() -> Rat {
    Rat { n: 1, d: 1 }
}

pub open spec fn rat_add(a: Rat, b: Rat) -> Rat {
    Rat { n: a.n * b.d + b.n * a.d, d: a.d * b.d }
}

pub open spec fn rat_mul(a: Rat, b: Rat) -> Rat {
    Rat { n: a.n * b.n, d: a.d * b.d }
}

pub open spec fn rat_div(a: Rat, b: Rat) -> Rat {
    Rat { n: a.n * b.d, d: a.d * b.n }
}

pub open spec fn rat_recip(a: Rat) -> Rat {
    Rat { n: a.d, d: a.n }
}

/// The value of `a` lies within `tol` of one: `|a - 1| <= tol`.
pub open spec fn rat_near_one(a: Rat, tol: Rat) -> bool {
    (a.n - a.d) * tol.d <= tol.n * a.d && (a.d - a.n) * tol.d <= tol.n * a.d
}

/// The tolerance used by the stochasticity checks of model construction.
pub open spec fn spec_tolerance() -> Rat {
    Rat { n: 1, d: 0x100_0000_0000 }
}

/// Greatest common divisor by Euclid's recursion.
pub open spec fn gcd(a: nat, b: nat) -> nat
    decreases b,
{
    if b == 0 {
        a
    } else {
        gcd(b, a % b)
    }
}

/// The canonical (lowest-terms) representative of a rational value.
pub open spec fn canon(a: Rat) -> Rat {
    let g = gcd(a.n as nat, a.d as nat) as int;
    Rat { n: a.n / g, d: a.d / g }
}

/// Both parts of the rational fit in a 64-bit word.
pub open spec fn fits_u64(a: Rat) -> bool {
    a.n <= u64::MAX && a.d <= u64::MAX
}

/// Canonical sum, product and quotient: what the executable arithmetic
/// computes, written as total specification functions.
pub open spec fn cadd(a: Rat, b: Rat) -> Rat {
    canon(rat_add(a, b))
}

pub open spec fn cmul(a: Rat, b: Rat) -> Rat {
    canon(rat_mul(a, b))
}

pub open spec fn cdiv(a: Rat, b: Rat) -> Rat {
    canon(rat_div(a, b))
}

/// Exactly when the executable product of `a` and `b` succeeds.
pub open spec fn mul_fits(a: Rat, b: Rat) -> bool {
    fits_u64(cmul(a, b))
}

/// Exactly when the executable sum of `a` and `b` succeeds: the cross
/// products may not overflow the 128-bit intermediate, and the reduced
/// result must fit back in 64-bit form.
pub open spec fn add_fits(a: Rat, b: Rat) -> bool {
    a.n * b.d + b.n * a.d <= u128::MAX && fits_u64(cadd(a, b))
}

/// Exactly when the executable quotient of `a` by `b` succeeds.
pub open spec fn div_fits(a: Rat, b: Rat) -> bool {
    fits_u64(cdiv(a, b))
}

pub proof fn lemma_gcd_pos(a: nat, b: nat)
    requires
        a > 0 || b > 0,
    ensures
        gcd(a, b) > 0,
    decreases b,
{
    if b != 0 {
        lemma_gcd_pos(b, a % b);
    }
}

pub proof fn lemma_gcd_divides(a: nat, b: nat)
    requires
        a > 0 || b > 0,
    ensures
        gcd(a, b) > 0,
        (a as int) % (gcd(a, b) as int) == 0,
        (b as int) % (gcd(a, b) as int) == 0,
    decreases b,
{
    if b == 0 {
        lemma_mod_self_0(a as int);
    } else {
        lemma_gcd_divides(b, a % b);
        let g = gcd(b, a % b) as int;
        let ai = a as int;
        let bi = b as int;
        lemma_fundamental_div_mod(ai, bi);
        let q = ai / bi;
        let rm = ai % bi;
        assert(ai == q * bi + rm);
        assert(bi % g == 0);
        assert(rm % g == 0);
        lemma_mul_mod_noop_right(q, bi, g);
        assert((q * bi) % g == (q * (bi % g)) % g);
        assert(q * (bi % g) == 0);
        lemma_small_mod(0nat, g as nat);
        assert((q * bi) % g == 0);
        lemma_add_mod_noop(q * bi, rm, g);
        assert(ai % g == 0);
    }
}

/// Reduction to lowest terms keeps the value, keeps well-formedness, and
/// never grows either part.
pub proof fn lemma_canon(a: Rat)
    requires
        rat_wf(a),
    ensures
        rat_wf(canon(a)),
        rat_eq(canon(a), a),
        canon(a).n <= a.n,
        canon(a).d <= a.d,
{
    let g = gcd(a.n as nat, a.d as nat) as int;
    lemma_gcd_divides(a.n as nat, a.d as nat);
    lemma_fundamental_div_mod(a.n, g);
    lemma_fundamental_div_mod(a.d, g);
    let nn = a.n / g;
    let dd = a.d / g;
    assert(a.n == g * nn);
    assert(a.d == g * dd);
    assert(dd > 0) by (nonlinear_arith)
        requires
            a.d == g * dd,
            a.d > 0,
            g > 0,
    ;
    assert(nn >= 0) by (nonlinear_arith)
        requires
            a.n == g * nn,
            a.n >= 0,
            g > 0,
    ;
    assert(nn * a.d == a.n * dd) by (nonlinear_arith)
        requires
            a.n == g * nn,
            a.d == g * dd,
    ;
    assert(nn <= a.n) by (nonlinear_arith)
        requires
            a.n == g * nn,
            g > 0,
            nn >= 0,
    ;
    assert(dd <= a.d) by (nonlinear_arith)
        requires
            a.d == g * dd,
            g > 0,
            dd > 0,
    ;
}

/// Division distributes over a sum with one divisor: `a/c + b/c` has the
/// value of `(a + b)/c`.
pub proof fn lemma_div_add(a: Rat, b: Rat, c: Rat)
    requires
        rat_wf(a),
        rat_wf(b),
        rat_wf(c),
        c.n > 0,
    ensures
        rat_wf(rat_div(a, c)),
        rat_wf(rat_div(b, c)),
        rat_wf(rat_add(a, b)),
        rat_eq(rat_add(rat_div(a, c), rat_div(b, c)), rat_div(rat_add(a, b), c)),
{
    broadcast use vstd::arithmetic::mul::group_mul_properties;

    lemma_mul_strictly_positive(a.d, c.n);
    lemma_mul_strictly_positive(b.d, c.n);
    lemma_mul_strictly_positive(a.d, b.d);
    lemma_mul_nonnegative(a.n, c.d);
    lemma_mul_nonnegative(b.n, c.d);
    lemma_mul_nonnegative(a.n, b.d);
    lemma_mul_nonnegative(b.n, a.d);
    let l = rat_add(rat_div(a, c), rat_div(b, c));
    let r = rat_div(rat_add(a, b), c);
    assert(l.n * r.d == ((a.n * c.d) * (b.d * c.n)) * ((a.d * b.d) * c.n) + ((b.n * c.d) * (a.d
        * c.n)) * ((a.d * b.d) * c.n));
    assert(((a.n * c.d) * (b.d * c.n)) * ((a.d * b.d) * c.n) == (a.n * b.d) * (c.d * ((c.n * c.n)
        * (a.d * b.d))));
    assert(((b.n * c.d) * (a.d * c.n)) * ((a.d * b.d) * c.n) == (b.n * a.d) * (c.d * ((c.n * c.n)
        * (a.d * b.d))));
    assert(r.n * l.d == ((a.n * b.d) + (b.n * a.d)) * (c.d * ((c.n * c.n) * (a.d * b.d))));
}

/// Value equality is a congruence for addition.
pub proof fn lemma_radd_cong(a: Rat, a2: Rat, b: Rat, b2: Rat)
    requires
        rat_wf(a),
        rat_wf(a2),
        rat_wf(b),
        rat_wf(b2),
        rat_eq(a, a2),
        rat_eq(b, b2),
    ensures
        rat_wf(rat_add(a, b)),
        rat_wf(rat_add(a2, b2)),
        rat_eq(rat_add(a, b), rat_add(a2, b2)),
{
    broadcast use vstd::arithmetic::mul::group_mul_properties;

    lemma_mul_strictly_positive(a.d, b.d);
    lemma_mul_strictly_positive(a2.d, b2.d);
    lemma_mul_nonnegative(a.n, b.d);
    lemma_mul_nonnegative(b.n, a.d);
    lemma_mul_nonnegative(a2.n, b2.d);
    lemma_mul_nonnegative(b2.n, a2.d);
    let l = rat_add(a, b);
    let r = rat_add(a2, b2);
    assert(l.n * r.d == (a.n * b.d) * (a2.d * b2.d) + (b.n * a.d) * (a2.d * b2.d));
    assert((a.n * b.d) * (a2.d * b2.d) == (a.n * a2.d) * (b.d * b2.d));
    assert((a.n * a2.d) * (b.d * b2.d) == (a2.n * a.d) * (b.d * b2.d));
    assert((a2.n * a.d) * (b.d * b2.d) == (a2.n * b2.d) * (a.d * b.d));
    assert((b.n * a.d) * (a2.d * b2.d) == (b.n * b2.d) * (a.d * a2.d));
    assert((b.n * b2.d) * (a.d * a2.d) == (b2.n * b.d) * (a.d * a2.d));
    assert((b2.n * b.d) * (a.d * a2.d) == (b2.n * a2.d) * (a.d * b.d));
    assert(r.n * l.d == (a2.n * b2.d) * (a.d * b.d) + (b2.n * a2.d) * (a.d * b.d));
}

/// A value equal to one lies within any tolerance of one.
pub proof fn lemma_eq_one_near_one(x: Rat, tol: Rat)
    requires
        rat_wf(x),
        rat_wf(tol),
        rat_eq(x, rat_one()),
    ensures
        rat_near_one(x, tol),
{
    assert(x.n * 1 == 1 * x.d);
    assert(x.n == x.d) by (nonlinear_arith)
        requires
            x.n * 1 == 1 * x.d,
    ;
    lemma_mul_nonnegative(tol.n, x.d);
    assert((x.n - x.d) * tol.d == 0) by (nonlinear_arith)
        requires
            x.n == x.d,
    ;
}

/// Value equality is transitive over well-formed rationals.
pub proof fn lemma_rat_eq_trans(a: Rat, b: Rat, c: Rat)
    requires
        rat_wf(a),
        rat_wf(b),
        rat_wf(c),
        rat_eq(a, b),
        rat_eq(b, c),
    ensures
        rat_eq(a, c),
{
    assert(a.n * c.d == c.n * a.d) by (nonlinear_arith)
        requires
            a.n * b.d == b.n * a.d,
            b.n * c.d == c.n * b.d,
            b.d > 0,
    ;
}

/// A sum of well-formed rationals is well-formed and its canonical form
/// keeps the value of the plain sum.
pub proof fn lemma_cadd(a: Rat, b: Rat)
    requires
        rat_wf(a),
        rat_wf(b),
    ensures
        rat_wf(rat_add(a, b)),
        rat_wf(cadd(a, b)),
        rat_eq(cadd(a, b), rat_add(a, b)),
{
    lemma_mul_strictly_positive(a.d, b.d);
    lemma_mul_nonnegative(a.n, b.d);
    lemma_mul_nonnegative(b.n, a.d);
    lemma_canon(rat_add(a, b));
}

/// A product of well-formed rationals is well-formed and its canonical
/// form keeps the value of the plain product.
pub proof fn lemma_cmul(a: Rat, b: Rat)
    requires
        rat_wf(a),
        rat_wf(b),
    ensures
        rat_wf(rat_mul(a, b)),
        rat_wf(cmul(a, b)),
        rat_eq(cmul(a, b), rat_mul(a, b)),
{
    lemma_mul_strictly_positive(a.d, b.d);
    lemma_mul_nonnegative(a.n, b.n);
    lemma_canon(rat_mul(a, b));
}

/// A quotient by a positive rational is well-formed and its canonical
/// form keeps the value of the plain quotient.
pub proof fn lemma_cdiv(a: Rat, b: Rat)
    requires
        rat_wf(a),
        rat_wf(b),
        b.n > 0,
    ensures
        rat_wf(rat_div(a, b)),
        rat_wf(cdiv(a, b)),
        rat_eq(cdiv(a, b), rat_div(a, b)),
{
    lemma_mul_strictly_positive(a.d, b.n);
    lemma_mul_nonnegative(a.n, b.d);
    lemma_canon(rat_div(a, b));
}

/// An exact probability: numerator over denominator, both machine words.
/// Arithmetic is exact; an operation whose lowest-terms result does not fit
/// reports `HmmError::Overflow` instead of rounding.
#[derive(Copy, Clone, Debug, PartialEq)]
pub struct Frac {
    num: u64,
    den: u64,
}

impl View for Frac {
    type V = Rat;

    closed spec fn view(&self) -> Rat {
        Rat { n: self.num as int, d: self.den as int }
    }
}

/// Full-width product of two machine words; never overflows its result type.
fn wmul(x: u64, y: u64) -> (r: u128)
    ensures
        r == (x as int) * (y as int),
{
    proof {
        assert((x as int) * (y as int) <= u128::MAX) by (nonlinear_arith)
            requires
                0 <= x <= u64::MAX,
                0 <= y <= u64::MAX,
        ;
    }
    x as u128 * y as u128
}

/// Euclid's algorithm on machine words.
fn gcd_u128(a: u128, b: u128) -> (g: u128)
    ensures
        g as nat == gcd(a as nat, b as nat),
{
    let mut x = a;
    let mut y = b;
    while y != 0
        invariant
            gcd(x as nat, y as nat) == gcd(a as nat, b as nat),
        decreases y,
    {
        let t = x % y;
        x = y;
        y = t;
    }
    x
}

impl Frac {
    /// Positive denominator; numerators are non-negative by construction.
    /// Every `Frac` that can be built satisfies this.
    #[verifier::type_invariant]
    pub open spec fn wf(self) -> bool {
        rat_wf(self@)
    }

    pub fn new(num: u64, den: u64) -> (r: Frac)
        requires
            den > 0,
        ensures
            r.wf(),
            r@ == (Rat { n: num as int, d: den as int }),
    {
        Frac { num, den }
    }

    pub fn zero() -> (r: Frac)
        ensures
            r.wf(),
            r@ == rat_zero(),
    {
        Frac { num: 0, den: 1 }
    }

    pub fn one() -> (r: Frac)
        ensures
            r.wf(),
            r@ == rat_one(),
    {
        Frac { num: 1, den: 1 }
    }

    pub fn num(self) -> (r: u64)
        ensures
            r as int == self@.n,
    {
        self.num
    }

    pub fn den(self) -> (r: u64)
        ensures
            r as int == self@.d,
    {
        self.den
    }

    /// Reduce `n / d` to lowest terms and pack it into machine words.
    fn make(n: u128, d: u128) -> (r: Result<Frac, HmmError>)
        requires
            d > 0,
        ensures
            ({
                let v = Rat { n: n as int, d: d as int };
                match r {
                    Ok(f) => f.wf() && f@ == canon(v) && fits_u64(canon(v)),
                    Err(e) => e == HmmError::Overflow && !fits_u64(canon(v)),
                }
            }),
    {
        let ghost v = Rat { n: n as int, d: d as int };
        proof {
            lemma_canon(v);
            lemma_gcd_pos(n as nat, d as nat);
        }
        let g = gcd_u128(n, d);
        let rn = n / g;
        let rd = d / g;
        if rn <= u64::MAX as u128 && rd <= u64::MAX as u128 {
            Ok(Frac { num: rn as u64, den: rd as u64 })
        } else {
            Err(HmmError::Overflow)
        }
    }

    /// Exact product; `Err(Overflow)` exactly when the reduced result does
    /// not fit in 64-bit form.
    pub fn try_mul(self, other: Frac) -> (r: Result<Frac, HmmError>)
        ensures
            match r {
                Ok(f) => f.wf() && f@ == cmul(self@, other@) && mul_fits(self@, other@),
                Err(e) => e == HmmError::Overflow && !mul_fits(self@, other@),
            },
    {
        proof {
            use_type_invariant(self);
            use_type_invariant(other);
            lemma_mul_strictly_positive(self@.d, other@.d);
        }
        let n = wmul(self.num, other.num);
        let d = wmul(self.den, other.den);
        Frac::make(n, d)
    }

    /// Exact sum; `Err(Overflow)` exactly when an intermediate cross product
    /// exceeds 128 bits or the reduced result does not fit in 64-bit form.
    pub fn try_add(self, other: Frac) -> (r: Result<Frac, HmmError>)
        ensures
            match r {
                Ok(f) => f.wf() && f@ == cadd(self@, other@) && add_fits(self@, other@),
                Err(e) => e == HmmError::Overflow && !add_fits(self@, other@),
            },
    {
        proof {
            use_type_invariant(self);
            use_type_invariant(other);
            lemma_mul_strictly_positive(self@.d, other@.d);
        }
        let p1 = wmul(self.num, other.den);
        let p2 = wmul(other.num, self.den);
        match p1.checked_add(p2) {
            Some(n) => {
                let d = wmul(self.den, other.den);
                Frac::make(n, d)
            },
            None => Err(HmmError::Overflow),
        }
    }

    /// Exact quotient by a nonzero value; `Err(Overflow)` exactly when the
    /// reduced result does not fit in 64-bit form.
    pub fn try_div(self, other: Frac) -> (r: Result<Frac, HmmError>)
        requires
            other@.n > 0,
        ensures
            match r {
                Ok(f) => f.wf() && f@ == cdiv(self@, other@) && div_fits(self@, other@),
                Err(e) => e == HmmError::Overflow && !div_fits(self@, other@),
            },
    {
        proof {
            use_type_invariant(self);
            use_type_invariant(other);
            lemma_mul_strictly_positive(self@.d, other@.n);
        }
        let n = wmul(self.num, other.den);
        let d = wmul(self.den, other.num);
        Frac::make(n, d)
    }

    /// Exact reciprocal of a positive value.
    pub fn recip(self) -> (r: Frac)
        requires
            self@.n > 0,
        ensures
            r.wf(),
            r@ == rat_recip(self@),
    {
        proof {
            use_type_invariant(self);
        }
        Frac { num: self.den, den: self.num }
    }

    pub fn le(self, other: Frac) -> (r: bool)
        ensures
            r == rat_le(self@, other@),
    {
        wmul(self.num, other.den) <= wmul(other.num, self.den)
    }

    pub fn lt(self, other: Frac) -> (r: bool)
        ensures
            r == rat_lt(self@, other@),
    {
        wmul(self.num, other.den) < wmul(other.num, self.den)
    }

    pub fn eq_value(self, other: Frac) -> (r: bool)
        ensures
            r == rat_eq(self@, other@),
    {
        wmul(self.num, other.den) == wmul(other.num, self.den)
    }

    /// Whether this value lies within `tol` of one.
    pub fn near_one(self, tol: Frac) -> (r: bool)
        ensures
            r == rat_near_one(self@, tol@),
    {
        proof {
            use_type_invariant(self);
            use_type_invariant(tol);
        }
        if self.num >= self.den {
            let diff = self.num - self.den;
            let r = wmul(diff, tol.den) <= wmul(tol.num, self.den);
            proof {
                assert((self@.d - self@.n) * tol@.d <= 0) by (nonlinear_arith)
                    requires
                        self@.d - self@.n <= 0,
                        tol@.d > 0,
                ;
                lemma_mul_nonnegative(tol@.n, self@.d);
            }
            r
        } else {
            let diff = self.den - self.num;
            let r = wmul(diff, tol.den) <= wmul(tol.num, self.den);
            proof {
                assert((self@.n - self@.d) * tol@.d <= 0) by (nonlinear_arith)
                    requires
                        self@.n - self@.d <= 0,
                        tol@.d > 0,
                ;
                lemma_mul_nonnegative(tol@.n, self@.d);
            }
            r
        }
    }

    pub fn is_zero(self) -> (r: bool)
        ensures
            r == (self@.n == 0),
    {
        self.num == 0
    }
}

/// The tolerance used by the stochasticity checks of model construction:
/// one part in 2^40.
pub fn tolerance() -> (r: Frac)
    ensures
        r@ == spec_tolerance(),
{
    Frac::new(1, 0x100_0000_0000)
}

/// The rational values held by a sequence of probabilities.
pub open spec fn seq_rats(s: Seq<Frac>) -> Seq<Rat> {
    s.map_values(|f: Frac| f@)
}

pub open spec fn all_wf(s: Seq<Rat>) -> bool {
    forall|i: int| 0 <= i < s.len() ==> rat_wf(#[trigger] s[i])
}

/// The canonical left-to-right sum of a sequence of rationals: exactly what
/// the executable summation computes.
pub open spec fn csum(s: Seq<Rat>) -> Rat
    decreases s.len(),
{
    if s.len() == 0 {
        rat_zero()
    } else {
        cadd(csum(s.drop_last()), s.last())
    }
}

/// Exactly when every step of the executable summation succeeds.
pub open spec fn csum_fits(s: Seq<Rat>) -> bool
    decreases s.len(),
{
    if s.len() == 0 {
        true
    } else {
        csum_fits(s.drop_last()) && add_fits(csum(s.drop_last()), s.last())
    }
}

/// The plain (unreduced) sum of a sequence of rationals.
pub open spec fn rsum(s: Seq<Rat>) -> Rat
    decreases s.len(),
{
    if s.len() == 0 {
        rat_zero()
    } else {
        rat_add(rsum(s.drop_last()), s.last())
    }
}

pub proof fn lemma_csum_wf(s: Seq<Rat>)
    requires
        all_wf(s),
    ensures
        rat_wf(csum(s)),
    decreases s.len(),
{
    if s.len() > 0 {
        lemma_csum_wf(s.drop_last());
        lemma_cadd(csum(s.drop_last()), s.last());
    }
}

/// The canonical sum denotes the same value as the plain sum.
pub proof fn lemma_csum_value(s: Seq<Rat>)
    requires
        all_wf(s),
    ensures
        rat_wf(csum(s)),
        rat_wf(rsum(s)),
        rat_eq(csum(s), rsum(s)),
    decreases s.len(),
{
    if s.len() == 0 {
    } else {
        lemma_csum_value(s.drop_last());
        let c = csum(s.drop_last());
        let p = rsum(s.drop_last());
        let x = s.last();
        lemma_cadd(c, x);
        lemma_cadd(p, x);
        assert(rat_eq(rat_add(c, x), rat_add(p, x))) by (nonlinear_arith)
            requires
                rat_eq(c, p),
                rat_wf(c),
                rat_wf(p),
                rat_wf(x),
        ;
        lemma_rat_eq_trans(cadd(c, x), rat_add(c, x), rat_add(p, x));
    }
}

/// If the whole summation fits, so does every step along the way.
pub proof fn lemma_csum_fits_prefix(s: Seq<Rat>, i: int)
    requires
        csum_fits(s),
        0 <= i < s.len(),
    ensures
        csum_fits(s.take(i)),
        add_fits(csum(s.take(i)), s[i]),
    decreases s.len(),
{
    if i == s.len() - 1 {
        assert(s.take(i) =~= s.drop_last());
    } else {
        lemma_csum_fits_prefix(s.drop_last(), i);
        assert(s.drop_last().take(i) =~= s.take(i));
        assert(s.drop_last()[i] == s[i]);
    }
}

/// Exact summation of a vector of probabilities; fails exactly when some
/// running total leaves 64-bit range.
pub fn sum_fracs(v: &Vec<Frac>) -> (r: Result<Frac, HmmError>)
    ensures
        match r {
            Ok(f) => f.wf() && f@ == csum(seq_rats(v@)) && csum_fits(seq_rats(v@)),
            Err(e) => e == HmmError::Overflow && !csum_fits(seq_rats(v@)),
        },
{
    let ghost s = seq_rats(v@);
    let mut acc = Frac::zero();
    let mut i: usize = 0;
    assert(s.take(0) =~= Seq::<Rat>::empty());
    while i < v.len()
        invariant
            0 <= i <= v@.len(),
            s == seq_rats(v@),
            acc@ == csum(s.take(i as int)),
            csum_fits(s.take(i as int)),
        decreases v@.len() - i,
    {
        let x = v[i];
        match acc.try_add(x) {
            Ok(next) => {
                proof {
                    assert(s.take(i + 1).drop_last() =~= s.take(i as int));
                    assert(s.take(i + 1).last() == s[i as int]);
                }
                acc = next;
            },
            Err(e) => {
                proof {
                    if csum_fits(s) {
                        lemma_csum_fits_prefix(s, i as int);
                    }
                }
                return Err(e);
            },
        }
        i = i + 1;
    }
    assert(s.take(v@.len() as int) =~= s);
    proof {
        use_type_invariant(acc);
    }
    Ok(acc)
}

} // verus!
