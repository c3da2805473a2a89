use vstd::prelude::*;
use crate::polynomial::{all_wf, conv, lemma_conv_wf, poly_add, poly_eqv, poly_mul, poly_sub};
use crate::rational::{
    lemma_eqv_trans, lemma_plus_congruent, lemma_plus_wf, rat_one, rat_zero, RatVal,
};

verus! {

/// Addition of polynomials is commutative: `p + q` equals `q + p`.
pub proof fn lemma_add_commutative(p: Seq<RatVal>, q: Seq<RatVal>)
    ensures
        poly_eqv(poly_add(p, q), poly_add(q, p)),
{
    assert forall|i: int| 0 <= i < poly_add(p, q).len() implies #[trigger] poly_add(p, q)[i].eqv(
        poly_add(q, p)[i],
    ) by {
        if i < p.len() && i < q.len() {
            let (a, b) = (p[i], q[i]);
            assert((a.num * b.den + b.num * a.den) * (b.den * a.den) == (b.num * a.den + a.num
                * b.den) * (a.den * b.den)) by (nonlinear_arith);
        }
    }
}

/// Addition of polynomials is associative: `(p + q) + r` equals `p + (q + r)`.
pub proof fn lemma_add_associative(p: Seq<RatVal>, q: Seq<RatVal>, r: Seq<RatVal>)
    ensures
        poly_eqv(poly_add(poly_add(p, q), r), poly_add(p, poly_add(q, r))),
{
    let lhs = poly_add(poly_add(p, q), r);
    let rhs = poly_add(p, poly_add(q, r));
    assert forall|i: int| 0 <= i < lhs.len() implies #[trigger] lhs[i].eqv(rhs[i]) by {
        if i < p.len() && i < q.len() && i < r.len() {
            let (a, b, c) = (p[i], q[i], r[i]);
            lemma_three_terms(a.num, a.den, b.num, b.den, c.num, c.den);
            assert(a.den * b.den * c.den == a.den * (b.den * c.den)) by (nonlinear_arith);
        }
    }
}

proof fn lemma_three_terms(an: int, ad: int, bn: int, bd: int, cn: int, cd: int)
    ensures
        (an * bd + bn * ad) * cd + cn * (ad * bd) == an * (bd * cd) + (bn * cd + cn * bd) * ad,
{
    assert((an * bd + bn * ad) * cd == (an * bd) * cd + (bn * ad) * cd) by (nonlinear_arith);
    assert((bn * cd + cn * bd) * ad == (bn * cd) * ad + (cn * bd) * ad) by (nonlinear_arith);
    assert((an * bd) * cd == an * (bd * cd)) by (nonlinear_arith);
    assert((bn * ad) * cd == (bn * cd) * ad) by (nonlinear_arith);
    assert(cn * (ad * bd) == (cn * bd) * ad) by (nonlinear_arith);
}

/// The zero polynomial is a right identity of addition: `p + [0]` equals `p`.
pub proof fn lemma_add_zero(p: Seq<RatVal>)
    requires
        p.len() >= 1,
    ensures
        poly_eqv(poly_add(p, seq![rat_zero()]), p),
{
    let a = p[0];
    assert((a.num * 1 + 0 * a.den) * a.den == a.num * (a.den * 1)) by (nonlinear_arith);
    assert(poly_add(p, seq![rat_zero()])[0].eqv(p[0]));
}

proof fn lemma_conv_one(p: Seq<RatVal>, k: int, n: nat)
    requires
        0 <= k < n,
        n <= p.len(),
    ensures
        conv(p, seq![rat_one()], k, n) == rat_zero().plus(p[k].times(rat_one())),
    decreases n,
{
    if n - 1 > k {
        lemma_conv_one(p, k, (n - 1) as nat);
    } else {
        lemma_conv_zero_below(p, k, (n - 1) as nat);
    }
}

proof fn lemma_conv_zero_below(p: Seq<RatVal>, k: int, n: nat)
    requires
        n <= k,
    ensures
        conv(p, seq![rat_one()], k, n) == rat_zero(),
    decreases n,
{
    if n > 0 {
        lemma_conv_zero_below(p, k, (n - 1) as nat);
    }
}

/// The constant one is a right identity of multiplication: `p * [1]` equals `p`.
pub proof fn lemma_mul_one(p: Seq<RatVal>)
    requires
        p.len() >= 1,
    ensures
        poly_eqv(poly_mul(p, seq![rat_one()]), p),
{
    assert forall|k: int| 0 <= k < p.len() implies #[trigger] poly_mul(p, seq![rat_one()])[k].eqv(
        p[k],
    ) by {
        lemma_conv_one(p, k, p.len());
        let a = p[k];
        assert((0 * (a.den * 1) + (a.num * 1) * 1) * a.den == a.num * (1 * (a.den * 1)))
            by (nonlinear_arith);
    }
}

/// The degree of a product is the sum of the degrees.
pub proof fn lemma_degree_mul(p: Seq<RatVal>, q: Seq<RatVal>)
    requires
        p.len() >= 1,
        q.len() >= 1,
    ensures
        poly_mul(p, q).len() - 1 == (p.len() - 1) + (q.len() - 1),
{
}

/// Subtracting the zero polynomial changes nothing: `p - [0]` equals `p`.
pub proof fn lemma_sub_zero(p: Seq<RatVal>)
    requires
        p.len() >= 1,
    ensures
        poly_eqv(poly_sub(p, seq![rat_zero()]), p),
{
    let a = p[0];
    assert((a.num * 1 - 0 * a.den) * a.den == a.num * (a.den * 1)) by (nonlinear_arith);
    assert(poly_sub(p, seq![rat_zero()])[0].eqv(p[0]));
}

/// Subtracting from the zero polynomial negates every coefficient:
/// `[0] - p` equals `-p`.
pub proof fn lemma_sub_from_zero(p: Seq<RatVal>)
    requires
        p.len() >= 1,
    ensures
        poly_eqv(poly_sub(seq![rat_zero()], p), p.map_values(|c: RatVal| c.negated())),
{
    let a = p[0];
    assert((0 * a.den - a.num * 1) * a.den == (-a.num) * (1 * a.den)) by (nonlinear_arith);
    let lhs = poly_sub(seq![rat_zero()], p);
    let rhs = p.map_values(|c: RatVal| c.negated());
    assert(lhs[0].eqv(rhs[0]));
    assert forall|i: int| 0 <= i < lhs.len() implies #[trigger] lhs[i].eqv(rhs[i]) by {
        if i > 0 {
            assert(lhs[i] == rhs[i]);
        }
    }
}

/// The term `p[i] * q[k - i]` of the convolution, or zero off the ranges.
spec fn term(p: Seq<RatVal>, q: Seq<RatVal>, k: int, i: int) -> RatVal {
    if 0 <= i < p.len() && 0 <= k - i < q.len() {
        p[i].times(q[k - i])
    } else {
        rat_zero()
    }
}

spec fn terms(p: Seq<RatVal>, q: Seq<RatVal>, k: int, n: nat) -> Seq<RatVal> {
    Seq::new(n, |i: int| term(p, q, k, i))
}

/// The sum of the elements, added from the left.
spec fn ssum(s: Seq<RatVal>) -> RatVal
    decreases s.len(),
{
    if s.len() == 0 {
        rat_zero()
    } else {
        ssum(s.drop_last()).plus(s.last())
    }
}

spec fn reversed(s: Seq<RatVal>) -> Seq<RatVal> {
    Seq::new(s.len(), |i: int| s[s.len() - 1 - i])
}

proof fn lemma_zero_sides(x: RatVal)
    ensures
        x.plus(rat_zero()).eqv(x),
        rat_zero().plus(x).eqv(x),
{
    assert((x.num * 1 + 0 * x.den) * x.den == x.num * (x.den * 1)) by (nonlinear_arith);
    assert((0 * x.den + x.num * 1) * x.den == x.num * (1 * x.den)) by (nonlinear_arith);
}

proof fn lemma_plus_comm(x: RatVal, y: RatVal)
    ensures
        x.plus(y).eqv(y.plus(x)),
{
    assert((x.num * y.den + y.num * x.den) * (y.den * x.den) == (y.num * x.den + x.num * y.den) * (
    x.den * y.den)) by (nonlinear_arith);
}

proof fn lemma_plus_assoc(x: RatVal, y: RatVal, z: RatVal)
    ensures
        x.plus(y).plus(z).eqv(x.plus(y.plus(z))),
{
    lemma_three_terms(x.num, x.den, y.num, y.den, z.num, z.den);
    assert(x.den * y.den * z.den == x.den * (y.den * z.den)) by (nonlinear_arith);
}

proof fn lemma_ssum_wf(s: Seq<RatVal>)
    requires
        all_wf(s),
    ensures
        ssum(s).wf(),
    decreases s.len(),
{
    if s.len() > 0 {
        lemma_ssum_wf(s.drop_last());
        lemma_plus_wf(ssum(s.drop_last()), s.last());
    }
}

proof fn lemma_ssum_congruent(s: Seq<RatVal>, t: Seq<RatVal>)
    requires
        poly_eqv(s, t),
    ensures
        ssum(s).eqv(ssum(t)),
    decreases s.len(),
{
    if s.len() > 0 {
        lemma_ssum_congruent(s.drop_last(), t.drop_last());
        lemma_plus_congruent(ssum(s.drop_last()), ssum(t.drop_last()), s.last(), t.last());
    }
}

/// `ssum(s) == s[0] + ssum(s[1..])`, up to equivalence.
proof fn lemma_ssum_peel(s: Seq<RatVal>)
    requires
        s.len() >= 1,
        all_wf(s),
    ensures
        ssum(s).eqv(s[0].plus(ssum(s.subrange(1, s.len() as int)))),
    decreases s.len(),
{
    let n = s.len() as int;
    let tail = s.subrange(1, n);
    if n == 1 {
        assert(s.drop_last() =~= Seq::<RatVal>::empty());
        assert(tail =~= Seq::<RatVal>::empty());
        lemma_zero_sides(s[0]);
        lemma_plus_wf(s[0], rat_zero());
        lemma_eqv_trans(rat_zero().plus(s[0]), s[0], s[0].plus(rat_zero()));
    } else {
        let init = s.drop_last();
        let mid = init.subrange(1, n - 1);
        assert(tail.drop_last() =~= mid);
        assert(tail.last() == s.last());
        lemma_ssum_peel(init);
        lemma_ssum_wf(init);
        lemma_ssum_wf(mid);
        // ssum(s) = ssum(init) + last ~ (s0 + ssum(mid)) + last ~ s0 + (ssum(mid) + last)
        lemma_plus_congruent(ssum(init), s[0].plus(ssum(mid)), s.last(), s.last());
        lemma_plus_assoc(s[0], ssum(mid), s.last());
        lemma_plus_wf(s[0], ssum(mid));
        lemma_plus_wf(s[0].plus(ssum(mid)), s.last());
        lemma_eqv_trans(
            ssum(s),
            s[0].plus(ssum(mid)).plus(s.last()),
            s[0].plus(ssum(mid).plus(s.last())),
        );
    }
}

proof fn lemma_ssum_reverse(s: Seq<RatVal>)
    requires
        all_wf(s),
    ensures
        ssum(s).eqv(ssum(reversed(s))),
    decreases s.len(),
{
    let n = s.len() as int;
    if n > 0 {
        let init = s.drop_last();
        let r = reversed(s);
        lemma_ssum_reverse(init);
        assert(r.subrange(1, n) =~= reversed(init));
        assert(r[0] == s.last());
        assert(all_wf(r));
        lemma_ssum_peel(r);
        lemma_ssum_wf(init);
        lemma_ssum_wf(reversed(init));
        // ssum(s) = ssum(init) + last ~ ssum(rev init) + last ~ last + ssum(rev init) ~ ssum(r)
        lemma_plus_congruent(ssum(init), ssum(reversed(init)), s.last(), s.last());
        lemma_plus_comm(ssum(reversed(init)), s.last());
        lemma_plus_wf(ssum(reversed(init)), s.last());
        lemma_eqv_trans(
            ssum(s),
            ssum(reversed(init)).plus(s.last()),
            s.last().plus(ssum(reversed(init))),
        );
        lemma_plus_wf(s.last(), ssum(reversed(init)));
        lemma_ssum_wf(r);
        lemma_eqv_trans(ssum(s), s.last().plus(ssum(reversed(init))), ssum(r));
    }
}

proof fn lemma_terms_wf(p: Seq<RatVal>, q: Seq<RatVal>, k: int, n: nat)
    requires
        all_wf(p),
        all_wf(q),
    ensures
        all_wf(terms(p, q, k, n)),
{
    assert forall|i: int| 0 <= i < n implies #[trigger] terms(p, q, k, n)[i].wf() by {
        if 0 <= i < p.len() && 0 <= k - i < q.len() {
            lemma_plus_wf(p[i], q[k - i]);
        }
    }
}

/// The convolution sum equals the sum of its terms over `0..n`.
proof fn lemma_conv_terms(p: Seq<RatVal>, q: Seq<RatVal>, k: int, n: nat)
    requires
        all_wf(p),
        all_wf(q),
        n <= p.len(),
    ensures
        conv(p, q, k, n).eqv(ssum(terms(p, q, k, n))),
    decreases n,
{
    if n > 0 {
        let m = (n - 1) as nat;
        let i = n - 1;
        lemma_conv_terms(p, q, k, m);
        assert(terms(p, q, k, n).drop_last() =~= terms(p, q, k, m));
        let prev = ssum(terms(p, q, k, m));
        let t = term(p, q, k, i);
        lemma_plus_congruent(conv(p, q, k, m), prev, t, t);
        if !(0 <= k - i < q.len()) {
            lemma_conv_wf(p, q, k, m);
            lemma_zero_sides(conv(p, q, k, m));
            lemma_plus_wf(conv(p, q, k, m), rat_zero());
            lemma_eqv_trans(conv(p, q, k, n), conv(p, q, k, m).plus(rat_zero()), prev.plus(t));
        }
    }
}

/// Zero terms past `n` change the sum of terms by nothing.
proof fn lemma_terms_extend(p: Seq<RatVal>, q: Seq<RatVal>, k: int, n: nat, n2: nat)
    requires
        all_wf(p),
        all_wf(q),
        n <= n2,
        forall|i: int| n <= i < n2 ==> term(p, q, k, i) == rat_zero(),
    ensures
        ssum(terms(p, q, k, n)).eqv(ssum(terms(p, q, k, n2))),
    decreases n2 - n,
{
    if n < n2 {
        let m = (n2 - 1) as nat;
        lemma_terms_extend(p, q, k, n, m);
        assert(terms(p, q, k, n2).drop_last() =~= terms(p, q, k, m));
        lemma_terms_wf(p, q, k, m);
        lemma_ssum_wf(terms(p, q, k, m));
        lemma_zero_sides(ssum(terms(p, q, k, m)));
        lemma_terms_wf(p, q, k, n);
        lemma_ssum_wf(terms(p, q, k, n));
        lemma_eqv_trans(
            ssum(terms(p, q, k, n2)),
            ssum(terms(p, q, k, m)),
            ssum(terms(p, q, k, n)),
        );
    }
}

/// Coefficient `k` of `p * q` is equivalent to the sum of the terms over `0..=k`.
proof fn lemma_coeff_as_terms(p: Seq<RatVal>, q: Seq<RatVal>, k: int)
    requires
        all_wf(p),
        all_wf(q),
        0 <= k,
    ensures
        conv(p, q, k, p.len()).eqv(ssum(terms(p, q, k, (k + 1) as nat))),
{
    lemma_conv_terms(p, q, k, p.len());
    lemma_terms_wf(p, q, k, p.len());
    lemma_ssum_wf(terms(p, q, k, p.len()));
    lemma_terms_wf(p, q, k, (k + 1) as nat);
    lemma_ssum_wf(terms(p, q, k, (k + 1) as nat));
    if p.len() <= k + 1 {
        lemma_terms_extend(p, q, k, p.len(), (k + 1) as nat);
    } else {
        lemma_terms_extend(p, q, k, (k + 1) as nat, p.len());
    }
    lemma_eqv_trans(
        conv(p, q, k, p.len()),
        ssum(terms(p, q, k, p.len())),
        ssum(terms(p, q, k, (k + 1) as nat)),
    );
}

/// Multiplication of polynomials is commutative: `p * q` equals `q * p`.
pub proof fn lemma_mul_commutative(p: Seq<RatVal>, q: Seq<RatVal>)
    requires
        all_wf(p),
        all_wf(q),
    ensures
        poly_eqv(poly_mul(p, q), poly_mul(q, p)),
{
    assert forall|k: int| 0 <= k < poly_mul(p, q).len() implies #[trigger] poly_mul(p, q)[k].eqv(
        poly_mul(q, p)[k],
    ) by {
        let n = (k + 1) as nat;
        let tp = terms(p, q, k, n);
        let tq = terms(q, p, k, n);
        lemma_coeff_as_terms(p, q, k);
        lemma_coeff_as_terms(q, p, k);
        lemma_terms_wf(p, q, k, n);
        lemma_terms_wf(q, p, k, n);
        assert forall|j: int| 0 <= j < n implies #[trigger] reversed(tp)[j].eqv(tq[j]) by {
            if 0 <= j < q.len() && 0 <= k - j < p.len() {
                let (a, b) = (p[k - j], q[j]);
                assert((a.num * b.num) * (b.den * a.den) == (b.num * a.num) * (a.den * b.den))
                    by (nonlinear_arith);
            }
        }
        lemma_ssum_reverse(tp);
        lemma_ssum_congruent(reversed(tp), tq);
        lemma_ssum_wf(tp);
        lemma_ssum_wf(reversed(tp));
        lemma_ssum_wf(tq);
        lemma_eqv_trans(ssum(tp), ssum(reversed(tp)), ssum(tq));
        lemma_eqv_trans(conv(p, q, k, p.len()), ssum(tp), ssum(tq));
        lemma_conv_wf(q, p, k, q.len());
        lemma_eqv_trans(conv(p, q, k, p.len()), ssum(tq), conv(q, p, k, q.len()));
    }
}

} // verus!
