use vstd::prelude::*;
use fraction::{BigFraction, BigUint, Sign};

verus! {

/// A rational value as a pair of mathematical integers. It is well formed
/// when the denominator is positive; two pairs stand for the same number
/// when they are equivalent (cross products agree).
pub struct RatVal {
    pub num: int,
    pub den: int,
}

impl RatVal {
    pub open spec fn wf(self) -> bool {
        self.den > 0
    }

    pub open spec fn eqv(self, o: RatVal) -> bool {
        self.num * o.den == o.num * self.den
    }

    pub open spec fn plus(self, o: RatVal) -> RatVal {
        RatVal { num: self.num * o.den + o.num * self.den, den: self.den * o.den }
    }

    pub open spec fn minus(self, o: RatVal) -> RatVal {
        RatVal { num: self.num * o.den - o.num * self.den, den: self.den * o.den }
    }

    pub open spec fn times(self, o: RatVal) -> RatVal {
        RatVal { num: self.num * o.num, den: self.den * o.den }
    }

    pub open spec fn negated(self) -> RatVal {
        RatVal { num: -self.num, den: self.den }
    }
}

pub open spec fn rat_zero() -> RatVal {
    RatVal { num: 0, den: 1 }
}

pub open spec fn rat_one() -> RatVal {
    RatVal { num: 1, den: 1 }
}

/// The pair `n / d`.
pub open spec fn ratio(n: int, d: int) -> RatVal {
    RatVal { num: n, den: d }
}

/// The rational number `n / 1`.
pub open spec fn rat_int(n: int) -> RatVal {
    RatVal { num: n, den: 1 }
}

pub proof fn lemma_eqv_trans(a: RatVal, b: RatVal, c: RatVal)
    requires
        b.wf(),
        a.eqv(b),
        b.eqv(c),
    ensures
        a.eqv(c),
{
    assert(a.num * c.den * b.den == c.num * a.den * b.den) by (nonlinear_arith)
        requires
            a.num * b.den == b.num * a.den,
            b.num * c.den == c.num * b.den,
    {
        assert(a.num * c.den * b.den == (a.num * b.den) * c.den);
        assert((b.num * a.den) * c.den == (b.num * c.den) * a.den);
        assert((c.num * b.den) * a.den == c.num * a.den * b.den);
    }
    assert(a.num * c.den == c.num * a.den) by (nonlinear_arith)
        requires
            a.num * c.den * b.den == c.num * a.den * b.den,
            b.den > 0,
    ;
}

pub proof fn lemma_plus_wf(a: RatVal, b: RatVal)
    requires
        a.wf(),
        b.wf(),
    ensures
        a.plus(b).wf(),
        a.minus(b).wf(),
        a.times(b).wf(),
{
    assert(a.den * b.den > 0) by (nonlinear_arith)
        requires
            a.den > 0,
            b.den > 0,
    ;
}

/// Addition and subtraction respect equivalence in both operands.
pub proof fn lemma_plus_congruent(a: RatVal, a2: RatVal, b: RatVal, b2: RatVal)
    requires
        a.eqv(a2),
        b.eqv(b2),
    ensures
        a.plus(b).eqv(a2.plus(b2)),
        a.minus(b).eqv(a2.minus(b2)),
{
    lemma_sum_congruent(a, a2, b, b2);
    let (nb, nb2) = (b.negated(), b2.negated());
    assert(nb.eqv(nb2)) by (nonlinear_arith)
        requires
            b.num * b2.den == b2.num * b.den,
            nb.num == -b.num,
            nb2.num == -b2.num,
            nb.den == b.den,
            nb2.den == b2.den,
    ;
    lemma_sum_congruent(a, a2, nb, nb2);
    assert(a.minus(b) == a.plus(nb)) by {
        assert(-b.num * a.den == -(b.num * a.den)) by (nonlinear_arith);
    }
    assert(a2.minus(b2) == a2.plus(nb2)) by {
        assert(-b2.num * a2.den == -(b2.num * a2.den)) by (nonlinear_arith);
    }
}

proof fn lemma_sum_congruent(a: RatVal, a2: RatVal, b: RatVal, b2: RatVal)
    requires
        a.eqv(a2),
        b.eqv(b2),
    ensures
        a.plus(b).eqv(a2.plus(b2)),
{
    lemma_cross_sum(a.num, b.den, b.num, a.den, a2.den, b2.den);
    lemma_cross_sum(a2.num, b2.den, b2.num, a2.den, a.den, b.den);
    assert(a.num * a2.den * (b.den * b2.den) == a2.num * a.den * (b2.den * b.den)) by {
        lemma_mul_comm_eq(a.num * a2.den, a2.num * a.den, b.den, b2.den);
    }
    assert(b.num * b2.den * (a.den * a2.den) == b2.num * b.den * (a2.den * a.den)) by {
        lemma_mul_comm_eq(b.num * b2.den, b2.num * b.den, a.den, a2.den);
    }
}

/// `(p q + r s)(t w) == (p t)(q w) + (r w)(s t)`.
proof fn lemma_cross_sum(p: int, q: int, r: int, s: int, t: int, w: int)
    ensures
        (p * q + r * s) * (t * w) == (p * t) * (q * w) + (r * w) * (s * t),
{
    let tw = t * w;
    assert((p * q + r * s) * tw == (p * q) * tw + (r * s) * tw) by (nonlinear_arith);
    assert((p * q) * (t * w) == (p * t) * (q * w)) by (nonlinear_arith);
    assert((r * s) * (t * w) == (r * w) * (s * t)) by (nonlinear_arith);
}

proof fn lemma_mul_comm_eq(x: int, y: int, q: int, w: int)
    requires
        x == y,
    ensures
        x * (q * w) == y * (w * q),
{
    assert(q * w == w * q) by (nonlinear_arith);
}

/// Negation respects equivalence.
pub proof fn lemma_negated_congruent(a: RatVal, b: RatVal)
    requires
        a.eqv(b),
    ensures
        a.negated().eqv(b.negated()),
{
    assert((-a.num) * b.den == (-b.num) * a.den) by (nonlinear_arith)
        requires
            a.num * b.den == b.num * a.den,
    ;
}

/// Multiplication respects equivalence in both operands.
pub proof fn lemma_times_congruent(a: RatVal, a2: RatVal, b: RatVal, b2: RatVal)
    requires
        a.eqv(a2),
        b.eqv(b2),
    ensures
        a.times(b).eqv(a2.times(b2)),
{
    assert((a.num * b.num) * (a2.den * b2.den) == (a2.num * b2.num) * (a.den * b.den))
        by (nonlinear_arith)
        requires
            a.num * a2.den == a2.num * a.den,
            b.num * b2.den == b2.num * b.den,
    ;
}

/// The number written by little-endian base-`2^32` digits.
pub open spec fn digits_value(d: Seq<u32>) -> nat
    decreases d.len(),
{
    if d.len() == 0 {
        0
    } else {
        d[0] as nat + 4294967296 * digits_value(d.subrange(1, d.len() as int))
    }
}

/// An exact rational number of any size: a sign, and a numerator and a
/// denominator as little-endian base-`2^32` digits, as
/// `fraction::BigFraction` holds them.
#[derive(Debug)]
pub struct Rational {
    pub negative: bool,
    pub numer: Vec<u32>,
    pub denom: Vec<u32>,
}

impl View for Rational {
    type V = RatVal;

    open spec fn view(&self) -> RatVal {
        RatVal {
            num: if self.negative {
                -(digits_value(self.numer@) as int)
            } else {
                digits_value(self.numer@) as int
            },
            den: digits_value(self.denom@) as int,
        }
    }
}

proof fn lemma_digits_zero(d: Seq<u32>)
    ensures
        digits_value(d) == 0 <==> forall|k: int| 0 <= k < d.len() ==> d[k] == 0,
    decreases d.len(),
{
    if d.len() > 0 {
        let t = d.subrange(1, d.len() as int);
        lemma_digits_zero(t);
        if digits_value(d) == 0 {
            assert forall|k: int| 0 <= k < d.len() implies d[k] == 0 by {
                if k > 0 {
                    assert(t[k - 1] == d[k]);
                }
            }
        }
        if forall|k: int| 0 <= k < d.len() ==> d[k] == 0 {
            assert forall|k: int| 0 <= k < t.len() implies t[k] == 0 by {
                assert(t[k] == d[k + 1]);
            }
        }
    }
}

proof fn lemma_single_digit(d: u32)
    ensures
        digits_value(seq![d]) == d as nat,
        digits_value(Seq::<u32>::empty()) == 0,
{
    let s = seq![d];
    assert(s.subrange(1, 1) =~= Seq::<u32>::empty());
    assert(digits_value(Seq::<u32>::empty()) == 0);
    assert(digits_value(s) == s[0] as nat + 4294967296 * digits_value(s.subrange(1, 1)));
}

impl Rational {
    pub open spec fn wf(&self) -> bool {
        self@.den > 0
    }

    /// Whether the denominator is positive (has a nonzero digit).
    pub fn has_positive_denom(&self) -> (r: bool)
        ensures
            r == self.wf(),
    {
        proof {
            lemma_digits_zero(self.denom@);
        }
        let mut i: usize = 0;
        while i < self.denom.len()
            invariant
                i <= self.denom@.len(),
                forall|k: int| 0 <= k < i ==> self.denom@[k] == 0,
            decreases self.denom@.len() - i,
        {
            if self.denom[i] != 0 {
                proof {
                    lemma_digits_zero(self.denom@);
                    if digits_value(self.denom@) == 0 {
                        assert(self.denom@[i as int] == 0);
                    }
                }
                return true;
            }
            i += 1;
        }
        false
    }

    /// The canonical zero, `0 / 1`.
    pub fn zero() -> (r: Rational)
        ensures
            r.wf(),
            r@ == rat_zero(),
    {
        proof {
            lemma_single_digit(1);
        }
        let r = Rational { negative: false, numer: Vec::new(), denom: vec![1] };
        assert(r.denom@ =~= seq![1u32]);
        assert(r.numer@ =~= Seq::<u32>::empty());
        r
    }

    /// The canonical one, `1 / 1`.
    pub fn one() -> (r: Rational)
        ensures
            r.wf(),
            r@ == rat_one(),
    {
        proof {
            lemma_single_digit(1);
        }
        let r = Rational { negative: false, numer: vec![1], denom: vec![1] };
        assert(r.denom@ =~= seq![1u32]);
        assert(r.numer@ =~= seq![1u32]);
        r
    }

    /// A copy of the number.
    pub fn duplicate(&self) -> (r: Rational)
        ensures
            r@ == self@,
    {
        let numer = self.numer.clone();
        let denom = self.denom.clone();
        assert(numer@ =~= self.numer@);
        assert(denom@ =~= self.denom@);
        Rational { negative: self.negative, numer, denom }
    }

    /// `numer / denom`, reduced; a zero denominator is refused.
    pub fn new(numer: u64, denom: u64) -> (r: Option<Rational>)
        ensures
            r is None <==> denom == 0,
            r matches Some(v) ==> v.wf() && v@.eqv(ratio(numer as int, denom as int)),
    {
        if denom == 0 {
            None
        } else {
            Some(fraction_new(numer, denom))
        }
    }

    /// The negated number.
    pub fn neg(&self) -> (r: Rational)
        requires
            self.wf(),
        ensures
            r.wf(),
            r@ == self@.negated(),
    {
        fraction_neg(self)
    }

    /// Exact equality of the numbers represented.
    pub fn equals(&self, other: &Rational) -> (r: bool)
        requires
            self.wf(),
            other.wf(),
        ensures
            r == self@.eqv(other@),
    {
        fraction_eq(self, other)
    }
}

/// Relies on `fraction::BigFraction::new`: with a nonzero denominator it
/// builds the finite fraction `numer / denom`, reduced by `Ratio::new`.
#[verifier::external_body]
fn fraction_new(numer: u64, denom: u64) -> (r: Rational)
    requires
        denom > 0,
    ensures
        r.wf(),
        r@.eqv(ratio(numer as int, denom as int)),
{
    let f = BigFraction::new(numer, denom);
    let (n, d) = (f.numer().unwrap().to_u32_digits(), f.denom().unwrap().to_u32_digits());
    Rational { negative: f.sign().unwrap().is_negative(), numer: n, denom: d }
}

/// Relies on `Neg` for `fraction::BigFraction`: flips the sign and keeps the
/// numerator and denominator (zero stays positive).
#[verifier::external_body]
fn fraction_neg(a: &Rational) -> (r: Rational)
    requires
        a.wf(),
    ensures
        r.wf(),
        r@ == a@.negated(),
{
    let s = if a.negative { Sign::Minus } else { Sign::Plus };
    let f = -BigFraction::new_raw_signed(s, BigUint::new(a.numer.clone()), BigUint::new(a.denom.clone()));
    let (n, d) = (f.numer().unwrap().to_u32_digits(), f.denom().unwrap().to_u32_digits());
    Rational { negative: f.sign().unwrap().is_negative(), numer: n, denom: d }
}

/// Relies on `PartialEq` for `fraction::BigFraction`: finite fractions
/// compare equal exactly when they stand for the same number.
#[verifier::external_body]
fn fraction_eq(a: &Rational, b: &Rational) -> (r: bool)
    requires
        a.wf(),
        b.wf(),
    ensures
        r == a@.eqv(b@),
{
    let sa = if a.negative { Sign::Minus } else { Sign::Plus };
    let sb = if b.negative { Sign::Minus } else { Sign::Plus };
    let x = BigFraction::new_raw_signed(sa, BigUint::new(a.numer.clone()), BigUint::new(a.denom.clone()));
    x == BigFraction::new_raw_signed(sb, BigUint::new(b.numer.clone()), BigUint::new(b.denom.clone()))
}

/// Relies on `Add` for `fraction::BigFraction`: the exact sum, reduced.
#[verifier::external_body]
pub(crate) fn fraction_add(a: &Rational, b: &Rational) -> (r: Rational)
    requires
        a.wf(),
        b.wf(),
    ensures
        r.wf(),
        r@.eqv(a@.plus(b@)),
{
    let sa = if a.negative { Sign::Minus } else { Sign::Plus };
    let sb = if b.negative { Sign::Minus } else { Sign::Plus };
    let x = BigFraction::new_raw_signed(sa, BigUint::new(a.numer.clone()), BigUint::new(a.denom.clone()));
    let f = x + BigFraction::new_raw_signed(sb, BigUint::new(b.numer.clone()), BigUint::new(b.denom.clone()));
    let (n, d) = (f.numer().unwrap().to_u32_digits(), f.denom().unwrap().to_u32_digits());
    Rational { negative: f.sign().unwrap().is_negative(), numer: n, denom: d }
}

/// Relies on `Sub` for `fraction::BigFraction`: the exact difference, reduced.
#[verifier::external_body]
pub(crate) fn fraction_sub(a: &Rational, b: &Rational) -> (r: Rational)
    requires
        a.wf(),
        b.wf(),
    ensures
        r.wf(),
        r@.eqv(a@.minus(b@)),
{
    let sa = if a.negative { Sign::Minus } else { Sign::Plus };
    let sb = if b.negative { Sign::Minus } else { Sign::Plus };
    let x = BigFraction::new_raw_signed(sa, BigUint::new(a.numer.clone()), BigUint::new(a.denom.clone()));
    let f = x - BigFraction::new_raw_signed(sb, BigUint::new(b.numer.clone()), BigUint::new(b.denom.clone()));
    let (n, d) = (f.numer().unwrap().to_u32_digits(), f.denom().unwrap().to_u32_digits());
    Rational { negative: f.sign().unwrap().is_negative(), numer: n, denom: d }
}

/// Relies on `Mul` for `fraction::BigFraction`: the exact product, reduced.
#[verifier::external_body]
pub(crate) fn fraction_mul(a: &Rational, b: &Rational) -> (r: Rational)
    requires
        a.wf(),
        b.wf(),
    ensures
        r.wf(),
        r@.eqv(a@.times(b@)),
{
    let sa = if a.negative { Sign::Minus } else { Sign::Plus };
    let sb = if b.negative { Sign::Minus } else { Sign::Plus };
    let x = BigFraction::new_raw_signed(sa, BigUint::new(a.numer.clone()), BigUint::new(a.denom.clone()));
    let f = x * BigFraction::new_raw_signed(sb, BigUint::new(b.numer.clone()), BigUint::new(b.denom.clone()));
    let (n, d) = (f.numer().unwrap().to_u32_digits(), f.denom().unwrap().to_u32_digits());
    Rational { negative: f.sign().unwrap().is_negative(), numer: n, denom: d }
}

} // verus!
