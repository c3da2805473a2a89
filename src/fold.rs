use vstd::prelude::*;
use crate::polynomial::{
    lemma_poly_add_congruent, lemma_poly_eqv_trans, lemma_poly_mul_congruent,
    lemma_poly_ops_wf, poly_add, poly_eqv, poly_mul, Polynomial,
};
use crate::rational::{rat_one, rat_zero, RatVal};

verus! {

pub open spec fn views(ps: Seq<Polynomial>) -> Seq<Seq<RatVal>> {
    ps.map_values(|p: Polynomial| p@)
}

/// `[0] + ps[0] + ... + ps[n - 1]`, added from the left.
pub open spec fn sum_of(ps: Seq<Seq<RatVal>>, n: nat) -> Seq<RatVal>
    decreases n,
{
    if n == 0 {
        seq![rat_zero()]
    } else {
        poly_add(sum_of(ps, (n - 1) as nat), ps[n - 1])
    }
}

/// `[1] * ps[0] * ... * ps[n - 1]`, multiplied from the left.
pub open spec fn product_of(ps: Seq<Seq<RatVal>>, n: nat) -> Seq<RatVal>
    decreases n,
{
    if n == 0 {
        seq![rat_one()]
    } else {
        poly_mul(product_of(ps, (n - 1) as nat), ps[n - 1])
    }
}

pub open spec fn all_polys_wf(ps: Seq<Polynomial>) -> bool {
    forall|i: int| 0 <= i < ps.len() ==> (#[trigger] ps[i]).wf()
}

/// The sum of all the polynomials, `[0]` for none.
pub fn add_polynomials(polynomials: &Vec<Polynomial>) -> (r: Polynomial)
    requires
        all_polys_wf(polynomials@),
    ensures
        polynomials@.len() == 0 ==> r@ == seq![rat_zero()],
        r.wf(),
        poly_eqv(r@, sum_of(views(polynomials@), polynomials@.len())),
{
    let ghost ps = views(polynomials@);
    let mut result = Polynomial::zero();
    proof {
        assert(poly_eqv(result@, sum_of(ps, 0)));
    }
    let mut i: usize = 0;
    while i < polynomials.len()
        invariant
            all_polys_wf(polynomials@),
            ps == views(polynomials@),
            i <= polynomials@.len(),
            result.wf(),
            poly_eqv(result@, sum_of(ps, i as nat)),
            i == 0 ==> result@ == seq![rat_zero()],
        decreases polynomials@.len() - i,
    {
        let p = &polynomials[i];
        let next = result.add(p);
        proof {
            result.lemma_view_wf();
            p.lemma_view_wf();
            lemma_poly_ops_wf(result@, p@);
            lemma_poly_add_congruent(result@, sum_of(ps, i as nat), p@, ps[i as int]);
            lemma_poly_eqv_trans(next@, poly_add(result@, p@), sum_of(ps, (i + 1) as nat));
        }
        result = next;
        i += 1;
    }
    result
}

/// The product of all the polynomials, `[1]` for none. Every partial
/// product must have at most `usize::MAX` coefficients.
pub fn multiply_polynomials(polynomials: &Vec<Polynomial>) -> (r: Polynomial)
    requires
        all_polys_wf(polynomials@),
        forall|i: int|
            0 <= i <= polynomials@.len() ==> #[trigger] product_of(
                views(polynomials@),
                i as nat,
            ).len() <= usize::MAX,
    ensures
        polynomials@.len() == 0 ==> r@ == seq![rat_one()],
        r.wf(),
        poly_eqv(r@, product_of(views(polynomials@), polynomials@.len())),
{
    let ghost ps = views(polynomials@);
    let mut result = Polynomial::one();
    proof {
        assert(poly_eqv(result@, product_of(ps, 0)));
    }
    let mut i: usize = 0;
    while i < polynomials.len()
        invariant
            all_polys_wf(polynomials@),
            forall|t: int|
                0 <= t <= polynomials@.len() ==> #[trigger] product_of(
                    views(polynomials@),
                    t as nat,
                ).len() <= usize::MAX,
            ps == views(polynomials@),
            i <= polynomials@.len(),
            result.wf(),
            poly_eqv(result@, product_of(ps, i as nat)),
            i == 0 ==> result@ == seq![rat_one()],
        decreases polynomials@.len() - i,
    {
        let p = &polynomials[i];
        proof {
            assert(product_of(ps, (i + 1) as nat).len() <= usize::MAX);
        }
        let next = result.mul(p);
        proof {
            result.lemma_view_wf();
            p.lemma_view_wf();
            lemma_poly_ops_wf(result@, p@);
            lemma_poly_mul_congruent(result@, product_of(ps, i as nat), p@, ps[i as int]);
            lemma_poly_eqv_trans(next@, poly_mul(result@, p@), product_of(ps, (i + 1) as nat));
        }
        result = next;
        i += 1;
    }
    result
}

} // verus!
