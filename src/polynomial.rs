use vstd::prelude::*;
use crate::rational::{
    fraction_add, fraction_mul, fraction_sub, lemma_eqv_trans, lemma_plus_congruent, lemma_plus_wf,
    lemma_times_congruent, rat_one, rat_zero, RatVal, Rational,
};

verus! {

/// The values of a vector of coefficients.
pub open spec fn values(v: Seq<Rational>) -> Seq<RatVal> {
    v.map_values(|c: Rational| c@)
}

/// Every coefficient has a positive denominator.
pub open spec fn all_wf(p: Seq<RatVal>) -> bool {
    forall|i: int| 0 <= i < p.len() ==> #[trigger] p[i].wf()
}

/// Same length, and the same number at every position.
pub open spec fn poly_eqv(p: Seq<RatVal>, q: Seq<RatVal>) -> bool {
    &&& p.len() == q.len()
    &&& forall|i: int| 0 <= i < p.len() ==> #[trigger] p[i].eqv(q[i])
}

pub open spec fn max_len(p: Seq<RatVal>, q: Seq<RatVal>) -> nat {
    if p.len() >= q.len() {
        p.len()
    } else {
        q.len()
    }
}

/// Position-wise sum; past the shorter operand the longer one is copied.
pub open spec fn poly_add(p: Seq<RatVal>, q: Seq<RatVal>) -> Seq<RatVal> {
    Seq::new(
        max_len(p, q),
        |i: int|
            if i < p.len() && i < q.len() {
                p[i].plus(q[i])
            } else if i < p.len() {
                p[i]
            } else {
                q[i]
            },
    )
}

/// Position-wise difference; past the shorter operand the tail of `p` is
/// copied and the tail of `q` is negated.
pub open spec fn poly_sub(p: Seq<RatVal>, q: Seq<RatVal>) -> Seq<RatVal> {
    Seq::new(
        max_len(p, q),
        |i: int|
            if i < p.len() && i < q.len() {
                p[i].minus(q[i])
            } else if i < p.len() {
                p[i]
            } else {
                q[i].negated()
            },
    )
}

/// `sum of p[i] * q[k - i]` over the indices `i < n` for which `k - i` is a
/// position of `q`, added in increasing order of `i`.
pub open spec fn conv(p: Seq<RatVal>, q: Seq<RatVal>, k: int, n: nat) -> RatVal
    decreases n,
{
    if n == 0 {
        rat_zero()
    } else {
        let i = n - 1;
        if 0 <= k - i < q.len() {
            conv(p, q, k, (n - 1) as nat).plus(p[i].times(q[k - i]))
        } else {
            conv(p, q, k, (n - 1) as nat)
        }
    }
}

/// The product: `len(p) + len(q) - 1` coefficients, coefficient `k` being
/// the convolution sum.
pub open spec fn poly_mul(p: Seq<RatVal>, q: Seq<RatVal>) -> Seq<RatVal> {
    Seq::new((p.len() + q.len() - 1) as nat, |k: int| conv(p, q, k, p.len()))
}

pub proof fn lemma_conv_wf(p: Seq<RatVal>, q: Seq<RatVal>, k: int, n: nat)
    requires
        all_wf(p),
        all_wf(q),
        n <= p.len(),
    ensures
        conv(p, q, k, n).wf(),
    decreases n,
{
    if n > 0 {
        let i = n - 1;
        lemma_conv_wf(p, q, k, (n - 1) as nat);
        if 0 <= k - i < q.len() {
            lemma_plus_wf(p[i], q[k - i]);
            lemma_plus_wf(conv(p, q, k, (n - 1) as nat), p[i].times(q[k - i]));
        }
    }
}

pub proof fn lemma_poly_ops_wf(p: Seq<RatVal>, q: Seq<RatVal>)
    requires
        all_wf(p),
        all_wf(q),
    ensures
        all_wf(poly_add(p, q)),
        all_wf(poly_sub(p, q)),
        all_wf(poly_mul(p, q)),
{
    assert forall|i: int| 0 <= i < poly_add(p, q).len() implies #[trigger] poly_add(p, q)[i].wf() by {
        if i < p.len() && i < q.len() {
            lemma_plus_wf(p[i], q[i]);
        }
    }
    assert forall|i: int| 0 <= i < poly_sub(p, q).len() implies #[trigger] poly_sub(p, q)[i].wf() by {
        if i < p.len() && i < q.len() {
            lemma_plus_wf(p[i], q[i]);
        } else if i >= p.len() {
            assert(q[i].wf());
        }
    }
    assert forall|i: int| 0 <= i < poly_mul(p, q).len() implies #[trigger] poly_mul(p, q)[i].wf() by {
        lemma_conv_wf(p, q, i, p.len());
    }
}

pub proof fn lemma_poly_eqv_trans(p: Seq<RatVal>, q: Seq<RatVal>, r: Seq<RatVal>)
    requires
        all_wf(q),
        poly_eqv(p, q),
        poly_eqv(q, r),
    ensures
        poly_eqv(p, r),
{
    assert forall|i: int| 0 <= i < p.len() implies #[trigger] p[i].eqv(r[i]) by {
        lemma_eqv_trans(p[i], q[i], r[i]);
    }
}

/// Addition of polynomials respects equivalence.
pub proof fn lemma_poly_add_congruent(p: Seq<RatVal>, p2: Seq<RatVal>, q: Seq<RatVal>, q2: Seq<RatVal>)
    requires
        poly_eqv(p, p2),
        poly_eqv(q, q2),
    ensures
        poly_eqv(poly_add(p, q), poly_add(p2, q2)),
{
    assert forall|i: int| 0 <= i < poly_add(p, q).len() implies #[trigger] poly_add(p, q)[i].eqv(
        poly_add(p2, q2)[i],
    ) by {
        if i < p.len() && i < q.len() {
            lemma_plus_congruent(p[i], p2[i], q[i], q2[i]);
        }
    }
}

pub proof fn lemma_conv_congruent(
    p: Seq<RatVal>,
    p2: Seq<RatVal>,
    q: Seq<RatVal>,
    q2: Seq<RatVal>,
    k: int,
    n: nat,
)
    requires
        poly_eqv(p, p2),
        poly_eqv(q, q2),
        n <= p.len(),
    ensures
        conv(p, q, k, n).eqv(conv(p2, q2, k, n)),
    decreases n,
{
    if n > 0 {
        let i = n - 1;
        lemma_conv_congruent(p, p2, q, q2, k, (n - 1) as nat);
        if 0 <= k - i < q.len() {
            lemma_times_congruent(p[i], p2[i], q[k - i], q2[k - i]);
            lemma_plus_congruent(
                conv(p, q, k, (n - 1) as nat),
                conv(p2, q2, k, (n - 1) as nat),
                p[i].times(q[k - i]),
                p2[i].times(q2[k - i]),
            );
        }
    }
}

/// Multiplication of polynomials respects equivalence.
pub proof fn lemma_poly_mul_congruent(p: Seq<RatVal>, p2: Seq<RatVal>, q: Seq<RatVal>, q2: Seq<RatVal>)
    requires
        poly_eqv(p, p2),
        poly_eqv(q, q2),
    ensures
        poly_eqv(poly_mul(p, q), poly_mul(p2, q2)),
{
    assert forall|k: int| 0 <= k < poly_mul(p, q).len() implies #[trigger] poly_mul(p, q)[k].eqv(
        poly_mul(p2, q2)[k],
    ) by {
        lemma_conv_congruent(p, p2, q, q2, k, p.len());
    }
}

/// A polynomial over exact rationals: `coeffs[i]` is the coefficient of
/// `x^i`. The zero polynomial is `[0]`; the degree is the length minus one.
#[derive(Debug)]
pub struct Polynomial {
    pub coeffs: Vec<Rational>,
}

impl View for Polynomial {
    type V = Seq<RatVal>;

    open spec fn view(&self) -> Seq<RatVal> {
        values(self.coeffs@)
    }
}

impl Polynomial {
    /// Never empty, and every coefficient has a positive denominator.
    pub open spec fn wf(&self) -> bool {
        &&& self.coeffs@.len() >= 1
        &&& forall|i: int| 0 <= i < self.coeffs@.len() ==> #[trigger] self.coeffs@[i].wf()
    }

    pub proof fn lemma_view_wf(&self)
        requires
            self.wf(),
        ensures
            self@.len() == self.coeffs@.len(),
            self@.len() >= 1,
            all_wf(self@),
    {
        assert forall|t: int| 0 <= t < self@.len() implies #[trigger] self@[t].wf() by {
            assert(self.coeffs@[t].wf());
        }
    }

    /// Whether the polynomial is non-empty with positive denominators.
    pub fn is_well_formed(&self) -> (r: bool)
        ensures
            r == self.wf(),
    {
        if self.coeffs.len() == 0 {
            return false;
        }
        let mut i: usize = 0;
        while i < self.coeffs.len()
            invariant
                i <= self.coeffs@.len(),
                forall|k: int| 0 <= k < i ==> (#[trigger] self.coeffs@[k]).wf(),
            decreases self.coeffs@.len() - i,
        {
            if !self.coeffs[i].has_positive_denom() {
                assert(!self.coeffs@[i as int].wf());
                return false;
            }
            i += 1;
        }
        true
    }

    /// The zero polynomial `[0]`.
    pub fn zero() -> (r: Polynomial)
        ensures
            r.wf(),
            r@ == seq![rat_zero()],
    {
        let r = Polynomial { coeffs: vec![Rational::zero()] };
        assert(r@ =~= seq![rat_zero()]);
        r
    }

    /// The constant polynomial `[1]`.
    pub fn one() -> (r: Polynomial)
        ensures
            r.wf(),
            r@ == seq![rat_one()],
    {
        let r = Polynomial { coeffs: vec![Rational::one()] };
        assert(r@ =~= seq![rat_one()]);
        r
    }

    /// `len(coeffs) - 1`.
    pub fn degree(&self) -> (r: usize)
        requires
            self.wf(),
        ensures
            r == self@.len() - 1,
    {
        self.coeffs.len() - 1
    }

    /// The sum.
    pub fn add(&self, other: &Polynomial) -> (r: Polynomial)
        requires
            self.wf(),
            other.wf(),
        ensures
            r.wf(),
            poly_eqv(r@, poly_add(self@, other@)),
    {
        let n1 = self.coeffs.len();
        let n2 = other.coeffs.len();
        let n = if n1 >= n2 {
            n1
        } else {
            n2
        };
        let ghost spec_r = poly_add(self@, other@);
        let mut out: Vec<Rational> = Vec::new();
        let mut i: usize = 0;
        while i < n
            invariant
                self.wf(),
                other.wf(),
                n1 == self.coeffs@.len(),
                n2 == other.coeffs@.len(),
                n == spec_r.len(),
                spec_r == poly_add(self@, other@),
                i <= n,
                out@.len() == i,
                forall|k: int|
                    0 <= k < i ==> (#[trigger] out@[k]).wf() && out@[k]@.eqv(spec_r[k]),
            decreases n - i,
        {
            if i < n1 && i < n2 {
                out.push(fraction_add(&self.coeffs[i], &other.coeffs[i]));
            } else if i < n1 {
                assert(self@[i as int] == self.coeffs@[i as int]@);
                let c = self.coeffs[i].duplicate();
                assert(self.coeffs@[i as int].wf());
                assert(c.wf());
                out.push(c);
            } else {
                assert(other@[i as int] == other.coeffs@[i as int]@);
                let c = other.coeffs[i].duplicate();
                assert(other.coeffs@[i as int].wf());
                assert(c.wf());
                out.push(c);
            }
            i += 1;
        }
        let r = Polynomial { coeffs: out };
        assert(poly_eqv(r@, spec_r));
        r
    }

    /// The difference.
    pub fn sub(&self, other: &Polynomial) -> (r: Polynomial)
        requires
            self.wf(),
            other.wf(),
        ensures
            r.wf(),
            poly_eqv(r@, poly_sub(self@, other@)),
    {
        let n1 = self.coeffs.len();
        let n2 = other.coeffs.len();
        let n = if n1 >= n2 {
            n1
        } else {
            n2
        };
        let ghost spec_r = poly_sub(self@, other@);
        let mut out: Vec<Rational> = Vec::new();
        let mut i: usize = 0;
        while i < n
            invariant
                self.wf(),
                other.wf(),
                n1 == self.coeffs@.len(),
                n2 == other.coeffs@.len(),
                n == spec_r.len(),
                spec_r == poly_sub(self@, other@),
                i <= n,
                out@.len() == i,
                forall|k: int|
                    0 <= k < i ==> (#[trigger] out@[k]).wf() && out@[k]@.eqv(spec_r[k]),
            decreases n - i,
        {
            if i < n1 && i < n2 {
                out.push(fraction_sub(&self.coeffs[i], &other.coeffs[i]));
            } else if i < n1 {
                assert(self@[i as int] == self.coeffs@[i as int]@);
                let c = self.coeffs[i].duplicate();
                assert(self.coeffs@[i as int].wf());
                assert(c.wf());
                out.push(c);
            } else {
                out.push(other.coeffs[i].neg());
            }
            i += 1;
        }
        let r = Polynomial { coeffs: out };
        assert(poly_eqv(r@, spec_r));
        r
    }

    /// The product by convolution.
    pub fn mul(&self, other: &Polynomial) -> (r: Polynomial)
        requires
            self.wf(),
            other.wf(),
            self@.len() + other@.len() - 1 <= usize::MAX,
        ensures
            r.wf(),
            poly_eqv(r@, poly_mul(self@, other@)),
    {
        let n1 = self.coeffs.len();
        let n2 = other.coeffs.len();
        let len = n1 - 1 + n2;
        let ghost p = self@;
        let ghost q = other@;
        proof {
            self.lemma_view_wf();
            other.lemma_view_wf();
        }
        let mut res: Vec<Rational> = Vec::new();
        let mut k: usize = 0;
        while k < len
            invariant
                k <= len,
                res@.len() == k,
                forall|t: int| 0 <= t < k ==> (#[trigger] res@[t]).wf() && res@[t]@ == rat_zero(),
            decreases len - k,
        {
            res.push(Rational::zero());
            k += 1;
        }
        let mut i: usize = 0;
        while i < n1
            invariant
                self.wf(),
                other.wf(),
                p == self@,
                q == other@,
                all_wf(p),
                all_wf(q),
                n1 == p.len(),
                n2 == q.len(),
                len == n1 + n2 - 1,
                i <= n1,
                res@.len() == len,
                forall|t: int|
                    0 <= t < len ==> (#[trigger] res@[t]).wf() && res@[t]@.eqv(
                        conv(p, q, t, i as nat),
                    ),
            decreases n1 - i,
        {
            let mut j: usize = 0;
            while j < n2
                invariant
                    self.wf(),
                    other.wf(),
                    p == self@,
                    q == other@,
                    all_wf(p),
                    all_wf(q),
                    n1 == p.len(),
                    n2 == q.len(),
                    len == n1 + n2 - 1,
                    i < n1,
                    j <= n2,
                    res@.len() == len,
                    forall|t: int|
                        0 <= t < len ==> (#[trigger] res@[t]).wf() && res@[t]@.eqv(
                            if i <= t < i + j {
                                conv(p, q, t, (i + 1) as nat)
                            } else {
                                conv(p, q, t, i as nat)
                            },
                        ),
                decreases n2 - j,
            {
                let prod = fraction_mul(&self.coeffs[i], &other.coeffs[j]);
                let sum = fraction_add(&res[i + j], &prod);
                proof {
                    let t = i + j;
                    let old_v = res@[t]@;
                    let c = conv(p, q, t, i as nat);
                    let term = p[i as int].times(q[j as int]);
                    assert(conv(p, q, t, (i + 1) as nat) == c.plus(term));
                    lemma_conv_wf(p, q, t, i as nat);
                    lemma_plus_wf(p[i as int], q[j as int]);
                    lemma_plus_congruent(old_v, c, prod@, term);
                    lemma_plus_wf(old_v, prod@);
                    lemma_eqv_trans(sum@, old_v.plus(prod@), c.plus(term));
                }
                res.set(i + j, sum);
                j += 1;
            }
            proof {
                assert forall|t: int| 0 <= t < len implies (#[trigger] res@[t]).wf() && res@[t]@.eqv(
                    conv(p, q, t, (i + 1) as nat),
                ) by {
                    if !(i <= t < i + n2) {
                        assert(conv(p, q, t, (i + 1) as nat) == conv(p, q, t, i as nat));
                    }
                }
            }
            i += 1;
        }
        let r = Polynomial { coeffs: res };
        assert(poly_eqv(r@, poly_mul(p, q)));
        r
    }

    /// Position-wise exact comparison of the coefficients; polynomials of
    /// different lengths differ (trailing zeros are not trimmed).
    pub fn equals(&self, other: &Polynomial) -> (r: bool)
        requires
            self.wf(),
            other.wf(),
        ensures
            r == poly_eqv(self@, other@),
    {
        if self.coeffs.len() != other.coeffs.len() {
            return false;
        }
        let mut i: usize = 0;
        while i < self.coeffs.len()
            invariant
                self.wf(),
                other.wf(),
                self.coeffs@.len() == other.coeffs@.len(),
                i <= self.coeffs@.len(),
                forall|k: int| 0 <= k < i ==> #[trigger] self@[k].eqv(other@[k]),
            decreases self.coeffs@.len() - i,
        {
            if !self.coeffs[i].equals(&other.coeffs[i]) {
                assert(!self@[i as int].eqv(other@[i as int]));
                return false;
            }
            i += 1;
        }
        true
    }
}

impl PartialEq for Polynomial {
    /// Equal when both are well formed and `equals` holds.
    fn eq(&self, other: &Polynomial) -> (r: bool) {
        if self.is_well_formed() && other.is_well_formed() {
            self.equals(other)
        } else {
            false
        }
    }
}

impl vstd::std_specs::cmp::PartialEqSpecImpl for Polynomial {
    open spec fn obeys_eq_spec() -> bool {
        true
    }

    open spec fn eq_spec(&self, other: &Polynomial) -> bool {
        self.wf() && other.wf() && poly_eqv(self@, other@)
    }
}

} // verus!
