use zkpoly::fold::{add_polynomials, multiply_polynomials};
use zkpoly::polynomial::Polynomial;
use zkpoly::rational::Rational;

fn frac(n: u64, d: u64) -> Rational {
    Rational::new(n, d).unwrap()
}

fn poly(coeffs: Vec<Rational>) -> Polynomial {
    Polynomial { coeffs }
}

#[test]
fn can_add_polynomials() {
    let poly_1 = poly(vec![frac(1, 2), frac(2, 3), frac(1, 2)]);
    let poly_2 = poly(vec![frac(1, 2), frac(1, 3), frac(1, 2)]);
    let result_poly = poly(vec![frac(1, 1), frac(1, 1), frac(1, 1)]);
    assert_eq!(poly_1.add(&poly_2), result_poly);
}

#[test]
fn can_sub_polynomials() {
    let poly_1 = poly(vec![frac(1, 2), frac(2, 3)]);
    let poly_2 = poly(vec![frac(1, 4), frac(1, 3), frac(1, 2)]);
    let result_poly = poly(vec![frac(1, 4), frac(1, 3), frac(1, 2).neg()]);
    assert_eq!(poly_1.sub(&poly_2), result_poly);
}

#[test]
fn can_mul_polynomials() {
    let poly_1 = poly(vec![frac(1, 2), frac(2, 3)]);
    let poly_2 = poly(vec![frac(1, 4), frac(1, 3), frac(1, 2)]);
    let result_poly = poly(vec![frac(1, 8), frac(1, 3), frac(17, 36), frac(1, 3)]);
    assert_eq!(poly_1.mul(&poly_2), result_poly);
}

#[test]
fn sub_keeps_tail_of_longer_minuend() {
    let p = poly(vec![frac(1, 2), frac(2, 3), frac(1, 2)]);
    let q = poly(vec![frac(1, 2), frac(1, 3)]);
    let expected = poly(vec![frac(0, 1), frac(1, 3), frac(1, 2)]);
    assert_eq!(p.sub(&q), expected);
}

#[test]
fn sub_zero_and_from_zero() {
    let p = poly(vec![frac(3, 4), frac(5, 1), frac(1, 7).neg()]);
    assert_eq!(p.sub(&Polynomial::zero()), poly(vec![frac(3, 4), frac(5, 1), frac(1, 7).neg()]));
    let negated = poly(vec![frac(3, 4).neg(), frac(5, 1).neg(), frac(1, 7)]);
    assert_eq!(Polynomial::zero().sub(&p), negated);
}

#[test]
fn add_is_commutative_and_associative() {
    let p = poly(vec![frac(1, 2), frac(2, 3)]);
    let q = poly(vec![frac(1, 5), frac(1, 3).neg(), frac(4, 1)]);
    let r = poly(vec![frac(7, 2)]);
    assert_eq!(p.add(&q), q.add(&p));
    let left = p.add(&q).add(&r);
    let right = p.add(&q.add(&r));
    assert_eq!(left, right);
    assert_eq!(left, poly(vec![frac(42, 10), frac(1, 3), frac(4, 1)]));
}

#[test]
fn identities_of_add_and_mul() {
    let p = poly(vec![frac(1, 2), frac(2, 3).neg(), frac(9, 4)]);
    assert_eq!(p.add(&Polynomial::zero()), poly(vec![frac(1, 2), frac(2, 3).neg(), frac(9, 4)]));
    assert_eq!(p.mul(&Polynomial::one()), poly(vec![frac(1, 2), frac(2, 3).neg(), frac(9, 4)]));
}

#[test]
fn mul_is_commutative_on_example() {
    let p = poly(vec![frac(1, 2), frac(2, 3)]);
    let q = poly(vec![frac(1, 4), frac(1, 3), frac(1, 2).neg()]);
    assert_eq!(p.mul(&q), q.mul(&p));
}

#[test]
fn degree_of_product_is_sum_of_degrees() {
    let p = poly(vec![frac(1, 1), frac(2, 1), frac(3, 1)]);
    let q = poly(vec![frac(1, 1), frac(1, 1)]);
    let r = p.mul(&q);
    assert_eq!(p.degree(), 2);
    assert_eq!(q.degree(), 1);
    assert_eq!(r.degree(), 3);
    assert_eq!(r, poly(vec![frac(1, 1), frac(3, 1), frac(5, 1), frac(3, 1)]));
}

#[test]
fn trailing_zeros_make_polynomials_unequal() {
    let p = poly(vec![frac(1, 1), frac(0, 1)]);
    let q = poly(vec![frac(1, 1)]);
    assert_ne!(p, q);
    assert!(!p.equals(&q));
}

#[test]
fn equal_values_with_other_representation_compare_equal() {
    let p = poly(vec![Rational { negative: false, numer: vec![2], denom: vec![4] }]);
    let q = poly(vec![frac(1, 2)]);
    assert_eq!(p, q);
}

#[test]
fn rational_zero_denominator_is_refused() {
    assert!(Rational::new(1, 0).is_none());
    assert!(Rational::new(0, 0).is_none());
    let r = Rational::new(6, 8).unwrap();
    assert_eq!((r.negative, r.numer.clone(), r.denom.clone()), (false, vec![3], vec![4]));
    assert!(r.equals(&frac(3, 4)));
    assert!(!r.equals(&frac(3, 4).neg()));
}

#[test]
fn rational_neg_flips_sign() {
    let r = frac(2, 3).neg();
    assert_eq!((r.negative, r.numer.clone(), r.denom.clone()), (true, vec![2], vec![3]));
    let z = frac(0, 1).neg();
    assert!(z.equals(&Rational::zero()));
}

#[test]
fn large_numbers_stay_exact() {
    let big = poly(vec![frac(u64::MAX, 1)]);
    let square = Rational { negative: false, numer: vec![1, 0, 0xFFFF_FFFE, 0xFFFF_FFFF], denom: vec![1] };
    assert_eq!(big.mul(&big), poly(vec![square]));
    let double = Rational { negative: false, numer: vec![0xFFFF_FFFE, 0xFFFF_FFFF, 1], denom: vec![1] };
    assert_eq!(big.add(&big), poly(vec![double]));
    let tiny = poly(vec![frac(1, u64::MAX)]);
    let tiny_square = Rational { negative: false, numer: vec![1], denom: vec![1, 0, 0xFFFF_FFFE, 0xFFFF_FFFF] };
    assert_eq!(tiny.mul(&tiny), poly(vec![tiny_square]));
    assert_eq!(big.mul(&tiny), poly(vec![frac(1, 1)]));
}

#[test]
fn folds_of_empty_collections() {
    assert_eq!(add_polynomials(&vec![]), poly(vec![frac(0, 1)]));
    assert_eq!(multiply_polynomials(&vec![]), poly(vec![frac(1, 1)]));
}

#[test]
fn folds_of_several_polynomials() {
    let ps = vec![
        poly(vec![frac(1, 1).neg(), frac(1, 1)]),
        poly(vec![frac(2, 1).neg(), frac(1, 1)]),
        poly(vec![frac(1, 2)]),
    ];
    assert_eq!(add_polynomials(&ps), poly(vec![frac(5, 2).neg(), frac(2, 1)]));
    assert_eq!(multiply_polynomials(&ps), poly(vec![frac(1, 1), frac(3, 2).neg(), frac(1, 2)]));
}
