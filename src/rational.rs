//! Exact rational numbers for physical values.
//!
//! A value is kept as a numerator and a positive denominator, both in the
//! symmetric range of `i128` (the minimum is excluded so that negation never
//! overflows). The arithmetic does not reduce fractions: each result is the
//! textbook pair, and an operation whose pair leaves the range is refused.
use vstd::prelude::*;

verus! {

/// The largest magnitude a numerator or denominator may have.
pub const MAX_MAGNITUDE: i128 = 0x7fff_ffff_ffff_ffff_ffff_ffff_ffff_ffff;

/// A pair (numerator, denominator) in spec code.
pub type Frac = (int, int);

/// `v` fits the symmetric range of `i128`.
pub open spec fn rep(v: int) -> bool {
    -(MAX_MAGNITUDE as int) <= v <= MAX_MAGNITUDE as int
}

/// A pair that a `Rational` can hold.
pub open spec fn is_frac(q: Frac) -> bool {
    rep(q.0) && 0 < q.1 && rep(q.1)
}

/// The two pairs denote the same number.
pub open spec fn same_value(a: Frac, b: Frac) -> bool {
    a.0 * b.1 == b.0 * a.1
}

pub open spec fn frac_of_int(i: int) -> Frac {
    (i, 1)
}

pub open spec fn q_neg(a: Frac) -> Frac {
    (-a.0, a.1)
}

pub open spec fn q_abs(a: Frac) -> Frac {
    if a.0 < 0 {
        q_neg(a)
    } else {
        a
    }
}

/// Sum; pairs over one denominator keep it.
pub open spec fn q_add(a: Frac, b: Frac) -> Frac {
    if a.1 == b.1 {
        (a.0 + b.0, a.1)
    } else {
        (a.0 * b.1 + b.0 * a.1, a.1 * b.1)
    }
}

pub open spec fn add_fits(a: Frac, b: Frac) -> bool {
    if a.1 == b.1 {
        rep(a.0 + b.0)
    } else {
        rep(a.0 * b.1) && rep(b.0 * a.1) && rep(a.0 * b.1 + b.0 * a.1) && rep(a.1 * b.1)
    }
}

pub open spec fn q_sub(a: Frac, b: Frac) -> Frac {
    q_add(a, q_neg(b))
}

pub open spec fn sub_fits(a: Frac, b: Frac) -> bool {
    add_fits(a, q_neg(b))
}

pub open spec fn q_mul(a: Frac, b: Frac) -> Frac {
    (a.0 * b.0, a.1 * b.1)
}

pub open spec fn mul_fits(a: Frac, b: Frac) -> bool {
    rep(a.0 * b.0) && rep(a.1 * b.1)
}

/// Quotient for `b.0 != 0`; the sign moves to the numerator.
pub open spec fn q_div(a: Frac, b: Frac) -> Frac {
    if b.0 > 0 {
        (a.0 * b.1, a.1 * b.0)
    } else {
        (-(a.0 * b.1), -(a.1 * b.0))
    }
}

pub open spec fn div_fits(a: Frac, b: Frac) -> bool {
    rep(a.0 * b.1) && rep(a.1 * b.0)
}

/// Rounds `n / d` (with `d > 0`) to the nearest integer, halves away from zero.
pub open spec fn round_half_away(q: Frac) -> int {
    if q.0 >= 0 {
        if (q.0 % q.1) * 2 >= q.1 {
            q.0 / q.1 + 1
        } else {
            q.0 / q.1
        }
    } else {
        if ((-q.0) % q.1) * 2 >= q.1 {
            -((-q.0) / q.1 + 1)
        } else {
            -((-q.0) / q.1)
        }
    }
}

pub proof fn lemma_same_value_trans(a: Frac, b: Frac, c: Frac)
    requires
        b.1 != 0,
        same_value(a, b),
        same_value(b, c),
    ensures
        same_value(a, c),
{
    assert(b.1 * (a.0 * c.1 - c.0 * a.1) == 0) by (nonlinear_arith)
        requires a.0 * b.1 == b.0 * a.1, b.0 * c.1 == c.0 * b.1;
    assert(a.0 * c.1 - c.0 * a.1 == 0) by (nonlinear_arith)
        requires b.1 * (a.0 * c.1 - c.0 * a.1) == 0, b.1 != 0;
}

/// The sum, whichever form it took, denotes the textbook sum.
pub proof fn lemma_add_canon(a: Frac, b: Frac)
    requires
        a.1 > 0,
        b.1 > 0,
    ensures
        same_value(q_add(a, b), (a.0 * b.1 + b.0 * a.1, a.1 * b.1)),
        q_add(a, b).1 > 0,
{
    assert(a.1 * b.1 > 0) by (nonlinear_arith)
        requires a.1 > 0, b.1 > 0;
    if a.1 == b.1 {
        assert((a.0 + b.0) * (a.1 * b.1) == (a.0 * b.1 + b.0 * a.1) * a.1) by (nonlinear_arith)
            requires a.1 == b.1;
    }
}

pub proof fn lemma_mul_den(a: Frac, b: Frac)
    requires
        a.1 > 0,
        b.1 > 0,
    ensures
        q_mul(a, b).1 > 0,
{
    assert(a.1 * b.1 > 0) by (nonlinear_arith)
        requires a.1 > 0, b.1 > 0;
}

/// The quotient denotes `(a.0 * b.1) / (a.1 * b.0)` and keeps a positive denominator.
pub proof fn lemma_div_canon(a: Frac, b: Frac)
    requires
        a.1 > 0,
        b.0 != 0,
    ensures
        same_value(q_div(a, b), (a.0 * b.1, a.1 * b.0)),
        q_div(a, b).1 > 0,
{
    if b.0 > 0 {
        assert(a.1 * b.0 > 0) by (nonlinear_arith)
            requires a.1 > 0, b.0 > 0;
    } else {
        assert(a.1 * b.0 < 0) by (nonlinear_arith)
            requires a.1 > 0, b.0 < 0;
        assert((-(a.0 * b.1)) * (a.1 * b.0) == (a.0 * b.1) * (-(a.1 * b.0))) by (nonlinear_arith);
    }
}

/// A fraction equal to the integer `x` rounds to `x`.
pub proof fn lemma_round_exact(r: Frac, x: int)
    requires
        r.1 > 0,
        same_value(r, frac_of_int(x)),
    ensures
        round_half_away(r) == x,
{
    assert(r.0 == x * r.1);
    if x >= 0 {
        vstd::arithmetic::div_mod::lemma_mod_multiples_basic(x, r.1);
        vstd::arithmetic::div_mod::lemma_div_by_multiple(x, r.1);
        assert(r.0 >= 0) by (nonlinear_arith)
            requires r.0 == x * r.1, x >= 0, r.1 > 0;
    } else {
        assert(-r.0 == (-x) * r.1) by (nonlinear_arith)
            requires r.0 == x * r.1;
        vstd::arithmetic::div_mod::lemma_mod_multiples_basic(-x, r.1);
        vstd::arithmetic::div_mod::lemma_div_by_multiple(-x, r.1);
        assert(r.0 < 0) by (nonlinear_arith)
            requires r.0 == x * r.1, x < 0, r.1 > 0;
    }
}

/// `a * b` when it stays in range.
fn mul_in_range(a: i128, b: i128) -> (r: Option<i128>)
    requires
        rep(a as int),
        rep(b as int),
    ensures
        r is Some <==> rep(a * b),
        r is Some ==> r->0 == a * b,
{
    match a.checked_mul(b) {
        Some(p) => {
            if p == i128::MIN {
                None
            } else {
                Some(p)
            }
        },
        None => None,
    }
}

/// `a + b` when it stays in range.
fn add_in_range(a: i128, b: i128) -> (r: Option<i128>)
    requires
        rep(a as int),
        rep(b as int),
    ensures
        r is Some <==> rep(a + b),
        r is Some ==> r->0 == a + b,
{
    match a.checked_add(b) {
        Some(p) => {
            if p == i128::MIN {
                None
            } else {
                Some(p)
            }
        },
        None => None,
    }
}

/// An exact rational number with a positive denominator.
#[derive(Clone, Copy, Debug)]
pub struct Rational {
    num: i128,
    den: i128,
}

impl View for Rational {
    type V = Frac;

    closed spec fn view(&self) -> Frac {
        (self.num as int, self.den as int)
    }
}

impl Rational {
    #[verifier::type_invariant]
    spec fn inv(self) -> bool {
        is_frac((self.num as int, self.den as int))
    }

    /// The pair as given, when it is a valid fraction.
    pub fn new(num: i128, den: i128) -> (r: Option<Rational>)
        ensures
            r is Some <==> is_frac((num as int, den as int)),
            r is Some ==> r->0@ == (num as int, den as int),
    {
        if num == i128::MIN || den <= 0 {
            None
        } else {
            Some(Rational { num, den })
        }
    }

    pub fn from_int(i: i64) -> (r: Rational)
        ensures
            r@ == frac_of_int(i as int),
    {
        Rational { num: i as i128, den: 1 }
    }

    pub fn from_u32(i: u32) -> (r: Rational)
        ensures
            r@ == frac_of_int(i as int),
    {
        Rational { num: i as i128, den: 1 }
    }

    pub fn numer(&self) -> (r: i128)
        ensures
            r == self@.0,
            is_frac(self@),
    {
        proof {
            use_type_invariant(self);
        }
        self.num
    }

    pub fn denom(&self) -> (r: i128)
        ensures
            r == self@.1,
            is_frac(self@),
    {
        proof {
            use_type_invariant(self);
        }
        self.den
    }

    pub fn is_zero(&self) -> (r: bool)
        ensures
            r == (self@.0 == 0),
    {
        self.num == 0
    }

    pub fn neg(&self) -> (r: Rational)
        ensures
            r@ == q_neg(self@),
    {
        proof {
            use_type_invariant(self);
        }
        Rational { num: -self.num, den: self.den }
    }

    pub fn abs(&self) -> (r: Rational)
        ensures
            r@ == q_abs(self@),
    {
        proof {
            use_type_invariant(self);
        }
        if self.num < 0 {
            self.neg()
        } else {
            *self
        }
    }

    pub fn checked_add(&self, o: &Rational) -> (r: Option<Rational>)
        ensures
            r is Some <==> add_fits(self@, o@),
            r is Some ==> r->0@ == q_add(self@, o@),
    {
        proof {
            use_type_invariant(self);
            use_type_invariant(o);
        }
        if self.den == o.den {
            match add_in_range(self.num, o.num) {
                Some(n) => Some(Rational { num: n, den: self.den }),
                None => None,
            }
        } else {
            let p = mul_in_range(self.num, o.den);
            let q = mul_in_range(o.num, self.den);
            let d = mul_in_range(self.den, o.den);
            match (p, q, d) {
                (Some(p), Some(q), Some(d)) => {
                    assert(d > 0) by (nonlinear_arith)
                        requires d == self.den * o.den, self.den > 0, o.den > 0;
                    match add_in_range(p, q) {
                        Some(n) => Some(Rational { num: n, den: d }),
                        None => None,
                    }
                },
                _ => None,
            }
        }
    }

    pub fn checked_sub(&self, o: &Rational) -> (r: Option<Rational>)
        ensures
            r is Some <==> sub_fits(self@, o@),
            r is Some ==> r->0@ == q_sub(self@, o@),
    {
        let n = o.neg();
        self.checked_add(&n)
    }

    pub fn checked_mul(&self, o: &Rational) -> (r: Option<Rational>)
        ensures
            r is Some <==> mul_fits(self@, o@),
            r is Some ==> r->0@ == q_mul(self@, o@),
    {
        proof {
            use_type_invariant(self);
            use_type_invariant(o);
        }
        let n = mul_in_range(self.num, o.num);
        let d = mul_in_range(self.den, o.den);
        match (n, d) {
            (Some(n), Some(d)) => {
                assert(d > 0) by (nonlinear_arith)
                    requires d == self.den * o.den, self.den > 0, o.den > 0;
                Some(Rational { num: n, den: d })
            },
            _ => None,
        }
    }

    /// Quotient; the divisor must not be zero.
    pub fn checked_div(&self, o: &Rational) -> (r: Option<Rational>)
        requires
            o@.0 != 0,
        ensures
            r is Some <==> div_fits(self@, o@),
            r is Some ==> r->0@ == q_div(self@, o@),
    {
        proof {
            use_type_invariant(self);
            use_type_invariant(o);
        }
        let n = mul_in_range(self.num, o.den);
        let d = mul_in_range(self.den, o.num);
        match (n, d) {
            (Some(n), Some(d)) => {
                if o.num > 0 {
                    assert(d > 0) by (nonlinear_arith)
                        requires d == self.den * o.num, self.den > 0, o.num > 0;
                    Some(Rational { num: n, den: d })
                } else {
                    assert(d < 0) by (nonlinear_arith)
                        requires d == self.den * o.num, self.den > 0, o.num < 0;
                    Some(Rational { num: -n, den: -d })
                }
            },
            _ => None,
        }
    }

    /// The nearest integer, halves rounded away from zero.
    pub fn round(&self) -> (r: i128)
        ensures
            r == round_half_away(self@),
    {
        proof {
            use_type_invariant(self);
        }
        let neg = self.num < 0;
        let m: i128 = if neg { -self.num } else { self.num };
        let q: i128 = m / self.den;
        let rem: i128 = m % self.den;
        assert(0 <= q <= m) by {
            vstd::arithmetic::div_mod::lemma_div_pos_is_pos(m as int, self.den as int);
            vstd::arithmetic::div_mod::lemma_div_is_ordered_by_denominator(
                m as int,
                1,
                self.den as int,
            );
        }
        let up = rem >= self.den - rem;
        if up {
            assert(0 <= rem < self.den);
            assert(self.den >= 2);
            assert(q < MAX_MAGNITUDE) by {
                vstd::arithmetic::div_mod::lemma_div_is_ordered_by_denominator(
                    m as int,
                    2,
                    self.den as int,
                );
            }
        }
        let mag: i128 = if up { q + 1 } else { q };
        if neg {
            -mag
        } else {
            mag
        }
    }
}

} // verus!
