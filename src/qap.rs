use vstd::prelude::*;
use crate::polynomial::{
    lemma_poly_add_congruent, lemma_poly_eqv_trans, lemma_poly_mul_congruent,
    lemma_poly_ops_wf, poly_add, poly_eqv, poly_mul, Polynomial,
};
use crate::rational::{
    fraction_mul, lemma_eqv_trans, lemma_negated_congruent, lemma_plus_wf, lemma_times_congruent, rat_int, rat_one, rat_zero, ratio, RatVal, Rational,
};

verus! {

/// Why an R1CS could not be turned into a QAP.
#[derive(Clone, Copy, Debug, PartialEq, Eq, Structural)]
pub enum ConversionError {
    /// The three matrices are not rectangular with one common shape.
    ShapeMismatch,
    /// The matrices have no rows.
    EmptyCircuit,
    /// There are `usize::MAX` constraints, more points than can be counted.
    IntegerOverflow,
}

/// A rank-1 constraint system: three matrices with one row per constraint
/// and one column per wire.
pub struct R1CS {
    pub a: Vec<Vec<i32>>,
    pub b: Vec<Vec<i32>>,
    pub c: Vec<Vec<i32>>,
}

/// A quadratic arithmetic program: one polynomial per wire for each of the
/// three matrices.
pub struct QAP {
    pub a: Vec<Polynomial>,
    pub b: Vec<Polynomial>,
    pub c: Vec<Polynomial>,
}

pub open spec fn rows_of(m: Seq<Vec<i32>>) -> Seq<Seq<i32>> {
    m.map_values(|r: Vec<i32>| r@)
}

/// `rows` rows, each of `cols` entries.
pub open spec fn rectangular(mat: Seq<Seq<i32>>, rows: int, cols: int) -> bool {
    &&& mat.len() == rows
    &&& forall|r: int| 0 <= r < rows ==> (#[trigger] mat[r]).len() == cols
}

/// The three matrices are rectangular and share one shape.
pub open spec fn same_shape(a: Seq<Seq<i32>>, b: Seq<Seq<i32>>, c: Seq<Seq<i32>>) -> bool {
    &&& a.len() == b.len()
    &&& a.len() == c.len()
    &&& a.len() > 0 ==> {
        &&& rectangular(a, a.len() as int, a[0].len() as int)
        &&& rectangular(b, a.len() as int, a[0].len() as int)
        &&& rectangular(c, a.len() as int, a[0].len() as int)
    }
}

/// The polynomial `x - j`.
pub open spec fn linear_factor(j: int) -> Seq<RatVal> {
    seq![rat_int(-j), rat_one()]
}

/// The product of `x - x0` over the points `x0` in `1..=upto` other than `i + 1`.
pub open spec fn lagrange_numer(i: int, upto: nat) -> Seq<RatVal>
    decreases upto,
{
    if upto == 0 {
        seq![rat_one()]
    } else if upto as int != i + 1 {
        poly_mul(lagrange_numer(i, (upto - 1) as nat), linear_factor(upto as int))
    } else {
        lagrange_numer(i, (upto - 1) as nat)
    }
}

/// `1 / d` with a positive denominator.
pub open spec fn reciprocal(d: int) -> RatVal {
    if d < 0 {
        ratio(-1, -d)
    } else {
        ratio(1, d)
    }
}

/// The product of `1 / ((i + 1) - x0)` over the points `x0` in `1..=upto`
/// other than `i + 1`.
pub open spec fn lagrange_scale(i: int, upto: nat) -> RatVal
    decreases upto,
{
    if upto == 0 {
        rat_one()
    } else if upto as int != i + 1 {
        lagrange_scale(i, (upto - 1) as nat).times(reciprocal(i + 1 - upto))
    } else {
        lagrange_scale(i, (upto - 1) as nat)
    }
}

/// The Lagrange basis polynomial of the point `i + 1` among `1..=m`.
pub open spec fn lagrange_basis(m: nat, i: int) -> Seq<RatVal> {
    poly_mul(lagrange_numer(i, m), seq![lagrange_scale(i, m)])
}

pub open spec fn lagrange_bases(m: nat) -> Seq<Seq<RatVal>> {
    Seq::new(m, |i: int| lagrange_basis(m, i))
}

/// `[0] + sum over the rows r < rows of bases[r] * [mat[r][k]]`, added in
/// row order.
pub open spec fn column_poly(mat: Seq<Seq<i32>>, bases: Seq<Seq<RatVal>>, k: int, rows: nat) -> Seq<
    RatVal,
>
    decreases rows,
{
    if rows == 0 {
        seq![rat_zero()]
    } else {
        let r = rows - 1;
        poly_add(
            column_poly(mat, bases, k, (rows - 1) as nat),
            poly_mul(bases[r], seq![rat_int(mat[r][k] as int)]),
        )
    }
}

/// The QAP polynomial of column `k` of `mat`.
pub open spec fn qap_column(mat: Seq<Seq<i32>>, k: int) -> Seq<RatVal> {
    column_poly(mat, lagrange_bases(mat.len()), k, mat.len())
}

/// `polys` holds, for each column `k` of `mat`, a polynomial equivalent to
/// its QAP polynomial.
pub open spec fn projects(polys: Seq<Polynomial>, mat: Seq<Seq<i32>>) -> bool {
    &&& polys.len() == mat[0].len()
    &&& forall|k: int|
        0 <= k < polys.len() ==> (#[trigger] polys[k]).wf() && poly_eqv(
            polys[k]@,
            qap_column(mat, k),
        )
}

/// `n / d`, negated when `negative`.
fn signed_ratio(negative: bool, n: u64, d: u64) -> (r: Rational)
    requires
        d > 0,
    ensures
        r.wf(),
        r@.eqv(ratio(if negative { -(n as int) } else { n as int }, d as int)),
{
    match Rational::new(n, d) {
        Some(v) => {
            if negative {
                proof {
                    lemma_negated_congruent(v@, ratio(n as int, d as int));
                }
                v.neg()
            } else {
                v
            }
        },
        None => {
            proof {
                assert(false);
            }
            Rational::zero()
        },
    }
}

/// An entry of a matrix as a rational.
fn entry_value(e: i32) -> (r: Rational)
    ensures
        r.wf(),
        r@.eqv(rat_int(e as int)),
{
    if e < 0 {
        signed_ratio(true, (0i64 - e as i64) as u64, 1)
    } else {
        signed_ratio(false, e as u64, 1)
    }
}

/// Whether every row of `mat` has `cols` entries.
fn has_columns(mat: &Vec<Vec<i32>>, cols: usize) -> (r: bool)
    ensures
        r == rectangular(rows_of(mat@), mat@.len() as int, cols as int),
{
    let mut i: usize = 0;
    while i < mat.len()
        invariant
            i <= mat@.len(),
            forall|r: int| 0 <= r < i ==> (#[trigger] rows_of(mat@)[r]).len() == cols,
        decreases mat@.len() - i,
    {
        if mat[i].len() != cols {
            assert(rows_of(mat@)[i as int].len() != cols);
            return false;
        }
        i += 1;
    }
    true
}

/// The Lagrange basis polynomial of the point `i + 1` among `1..=m`: the
/// product of the factors `x - x0` scaled by the product of the reciprocals
/// of `(i + 1) - x0`.
pub fn lagrange_basis_poly(m: usize, i: usize) -> (r: Polynomial)
    requires
        i < m < usize::MAX,
    ensures
        r.wf(),
        poly_eqv(r@, lagrange_basis(m as nat, i as int)),
{
    let mut numer = Polynomial::one();
    let mut scale = Rational::one();
    let mut x: usize = 0;
    proof {
        assert(poly_eqv(numer@, lagrange_numer(i as int, 0)));
    }
    while x < m
        invariant
            i < m < usize::MAX,
            x <= m,
            numer.wf(),
            numer@.len() <= x + 1,
            poly_eqv(numer@, lagrange_numer(i as int, x as nat)),
            scale.wf(),
            scale@.eqv(lagrange_scale(i as int, x as nat)),
        decreases m - x,
    {
        let point = x + 1;
        if point != i + 1 {
            let factor = Polynomial { coeffs: vec![signed_ratio(true, point as u64, 1), Rational::one()] };
            proof {
                numer.lemma_view_wf();
            }
            let next = numer.mul(&factor);
            let recip = if point < i + 1 {
                signed_ratio(false, 1, (i + 1 - point) as u64)
            } else {
                signed_ratio(true, 1, (point - i - 1) as u64)
            };
            let next_scale = fraction_mul(&scale, &recip);
            proof {
                let lf = linear_factor(point as int);
                let rd = reciprocal(i + 1 - point);
                assert(poly_eqv(factor@, lf));
                factor.lemma_view_wf();
                lemma_poly_ops_wf(numer@, factor@);
                lemma_poly_mul_congruent(numer@, lagrange_numer(i as int, x as nat), factor@, lf);
                lemma_poly_eqv_trans(
                    next@,
                    poly_mul(numer@, factor@),
                    lagrange_numer(i as int, point as nat),
                );
                lemma_times_congruent(scale@, lagrange_scale(i as int, x as nat), recip@, rd);
                lemma_plus_wf(scale@, recip@);
                lemma_eqv_trans(
                    next_scale@,
                    scale@.times(recip@),
                    lagrange_scale(i as int, point as nat),
                );
            }
            numer = next;
            scale = next_scale;
        }
        x += 1;
    }
    let ghost sc = scale@;
    let sp = Polynomial { coeffs: vec![scale] };
    let nl = numer.coeffs.len();
    proof {
        assert(sp@.len() == 1 && sp@[0] == sc);
        assert(poly_eqv(sp@, seq![lagrange_scale(i as int, m as nat)]));
        numer.lemma_view_wf();
        sp.lemma_view_wf();
        lemma_poly_ops_wf(numer@, sp@);
        lemma_poly_mul_congruent(
            numer@,
            lagrange_numer(i as int, m as nat),
            sp@,
            seq![lagrange_scale(i as int, m as nat)],
        );
    }
    let p = numer.mul(&sp);
    proof {
        lemma_poly_eqv_trans(p@, poly_mul(numer@, sp@), lagrange_basis(m as nat, i as int));
    }
    p
}

/// For each column `k < n`, the sum over the rows `r` of
/// `bases[r] * [matrix[r][k]]`, starting from the zero polynomial.
fn single_matrix_to_qap(
    matrix: &Vec<Vec<i32>>,
    n: usize,
    bases: &Vec<Polynomial>,
    Ghost(sb): Ghost<Seq<Seq<RatVal>>>,
) -> (r: Vec<Polynomial>)
    requires
        rectangular(rows_of(matrix@), matrix@.len() as int, n as int),
        bases@.len() == matrix@.len(),
        sb.len() == matrix@.len(),
        forall|i: int|
            0 <= i < bases@.len() ==> (#[trigger] bases@[i]).wf() && poly_eqv(bases@[i]@, sb[i]),
    ensures
        r@.len() == n,
        forall|k: int|
            0 <= k < n ==> (#[trigger] r@[k]).wf() && poly_eqv(
                r@[k]@,
                column_poly(rows_of(matrix@), sb, k, matrix@.len()),
            ),
{
    let ghost mat = rows_of(matrix@);
    let m = matrix.len();
    let mut out: Vec<Polynomial> = Vec::new();
    let mut k: usize = 0;
    while k < n
        invariant
            mat == rows_of(matrix@),
            m == matrix@.len(),
            rectangular(mat, m as int, n as int),
            bases@.len() == m,
            sb.len() == m,
            forall|i: int|
                0 <= i < bases@.len() ==> (#[trigger] bases@[i]).wf() && poly_eqv(
                    bases@[i]@,
                    sb[i],
                ),
            k <= n,
            out@.len() == k,
            forall|t: int|
                0 <= t < k ==> (#[trigger] out@[t]).wf() && poly_eqv(
                    out@[t]@,
                    column_poly(mat, sb, t, m as nat),
                ),
        decreases n - k,
    {
        let mut acc = Polynomial::zero();
        let mut row: usize = 0;
        while row < m
            invariant
                mat == rows_of(matrix@),
                m == matrix@.len(),
                rectangular(mat, m as int, n as int),
                bases@.len() == m,
                sb.len() == m,
                forall|i: int|
                    0 <= i < bases@.len() ==> (#[trigger] bases@[i]).wf() && poly_eqv(
                        bases@[i]@,
                        sb[i],
                    ),
                k < n,
                row <= m,
                acc.wf(),
                poly_eqv(acc@, column_poly(mat, sb, k as int, row as nat)),
            decreases m - row,
        {
            assert(mat[row as int].len() == n);
            let e = matrix[row][k];
            let scalar = Polynomial { coeffs: vec![entry_value(e)] };
            let bl = bases[row].coeffs.len();
            proof {
                bases@[row as int].lemma_view_wf();
            }
            let term = bases[row].mul(&scalar);
            let next = acc.add(&term);
            proof {
                let b = bases@[row as int];
                let lifted = seq![rat_int(mat[row as int][k as int] as int)];
                assert(scalar@.len() == 1 && scalar@[0] == scalar.coeffs@[0]@);
                assert(poly_eqv(scalar@, lifted));
                scalar.lemma_view_wf();
                lemma_poly_ops_wf(b@, scalar@);
                lemma_poly_mul_congruent(b@, sb[row as int], scalar@, lifted);
                lemma_poly_eqv_trans(term@, poly_mul(b@, scalar@), poly_mul(sb[row as int], lifted));
                acc.lemma_view_wf();
                term.lemma_view_wf();
                lemma_poly_ops_wf(acc@, term@);
                lemma_poly_add_congruent(
                    acc@,
                    column_poly(mat, sb, k as int, row as nat),
                    term@,
                    poly_mul(sb[row as int], lifted),
                );
                lemma_poly_eqv_trans(
                    next@,
                    poly_add(acc@, term@),
                    column_poly(mat, sb, k as int, (row + 1) as nat),
                );
            }
            acc = next;
            row += 1;
        }
        out.push(acc);
        k += 1;
    }
    out
}

impl R1CS {
    pub open spec fn view_a(&self) -> Seq<Seq<i32>> {
        rows_of(self.a@)
    }

    pub open spec fn view_b(&self) -> Seq<Seq<i32>> {
        rows_of(self.b@)
    }

    pub open spec fn view_c(&self) -> Seq<Seq<i32>> {
        rows_of(self.c@)
    }

    /// Whether the three matrices are rectangular and share one shape.
    pub fn has_consistent_shape(&self) -> (r: bool)
        ensures
            r == same_shape(self.view_a(), self.view_b(), self.view_c()),
    {
        let m = self.a.len();
        if self.b.len() != m || self.c.len() != m {
            return false;
        }
        if m == 0 {
            return true;
        }
        let n = self.a[0].len();
        has_columns(&self.a, n) && has_columns(&self.b, n) && has_columns(&self.c, n)
    }

    /// The QAP of the system: the Lagrange basis of the points `1..=m` (one
    /// per constraint), then for each matrix and each column the sum of the
    /// basis polynomials weighted by the column's entries.
    pub fn to_qap(&self) -> (r: Result<QAP, ConversionError>)
        ensures
            (r matches Err(e) && e is ShapeMismatch) <==> !same_shape(
                self.view_a(),
                self.view_b(),
                self.view_c(),
            ),
            (r matches Err(e) && e is EmptyCircuit) <==> same_shape(
                self.view_a(),
                self.view_b(),
                self.view_c(),
            ) && self.a@.len() == 0,
            r is Ok <==> same_shape(self.view_a(), self.view_b(), self.view_c()) && 0
                < self.a@.len() < usize::MAX,
            r matches Ok(q) ==> {
                &&& projects(q.a@, self.view_a())
                &&& projects(q.b@, self.view_b())
                &&& projects(q.c@, self.view_c())
            },
    {
        if !self.has_consistent_shape() {
            return Err(ConversionError::ShapeMismatch);
        }
        let m = self.a.len();
        if m == 0 {
            return Err(ConversionError::EmptyCircuit);
        }
        if m == usize::MAX {
            return Err(ConversionError::IntegerOverflow);
        }
        let n = self.a[0].len();
        let ghost sb = lagrange_bases(m as nat);
        let mut bases: Vec<Polynomial> = Vec::new();
        let mut i: usize = 0;
        while i < m
            invariant
                0 < m < usize::MAX,
                m == self.a@.len(),
                same_shape(self.view_a(), self.view_b(), self.view_c()),
                sb == lagrange_bases(m as nat),
                i <= m,
                bases@.len() == i,
                forall|j: int|
                    0 <= j < i ==> (#[trigger] bases@[j]).wf() && poly_eqv(bases@[j]@, sb[j]),
            decreases m - i,
        {
            let basis = lagrange_basis_poly(m, i);
            bases.push(basis);
            i += 1;
        }
        let ghost (va, vb, vc) = (self.view_a(), self.view_b(), self.view_c());
        assert(va[0].len() == n);
        let qa = single_matrix_to_qap(&self.a, n, &bases, Ghost(sb));
        let qb = single_matrix_to_qap(&self.b, n, &bases, Ghost(sb));
        let qc = single_matrix_to_qap(&self.c, n, &bases, Ghost(sb));
        Ok(QAP { a: qa, b: qb, c: qc })
    }
}

} // verus!
