use zkpoly::polynomial::Polynomial;
use zkpoly::qap::{lagrange_basis_poly, ConversionError, R1CS};
use zkpoly::rational::Rational;

fn frac(n: u64, d: u64) -> Rational {
    Rational::new(n, d).unwrap()
}

fn whole(v: i64) -> Rational {
    if v < 0 {
        frac(v.unsigned_abs(), 1).neg()
    } else {
        frac(v as u64, 1)
    }
}

fn sample() -> R1CS {
    let a = vec![
        vec![0, 1, 0, 0, 0, 0],
        vec![0, 1, 0, 0, 0, 0],
        vec![0, 0, 1, 1, 0, 0],
        vec![-42, 0, 0, 0, 1, 0],
    ];
    let b = vec![
        vec![0, 1, 0, 0, 0, 0],
        vec![-1, 0, 0, 0, 0, 0],
        vec![1, 0, 0, 0, 0, 0],
        vec![1, 0, 0, 0, 0, 0],
    ];
    let c = vec![
        vec![0, 0, 1, 0, 0, 0],
        vec![0, 0, 0, 1, 0, 0],
        vec![0, 0, 0, 0, 1, 0],
        vec![0, 0, 0, 0, 0, 1],
    ];
    R1CS { a, b, c }
}

/// The value of `p` at `x`, computed with polynomial arithmetic on constants.
fn evaluate(p: &Polynomial, x: i64) -> Polynomial {
    let point = Polynomial { coeffs: vec![whole(x)] };
    let mut acc = Polynomial::zero();
    for c in p.coeffs.iter().rev() {
        acc = acc.mul(&point).add(&Polynomial { coeffs: vec![c.duplicate()] });
    }
    acc
}

#[test]
fn can_calculate_qap() {
    let r1cs = sample();
    let test = r1cs.to_qap().unwrap();
    let expected_poly = Polynomial {
        coeffs: vec![frac(42, 1), frac(77, 1).neg(), frac(42, 1), frac(7, 1).neg()],
    };
    assert_eq!(test.a[0], expected_poly);
}

#[test]
fn qap_interpolates_every_entry() {
    let r1cs = sample();
    let q = r1cs.to_qap().unwrap();
    let pairs = [(&r1cs.a, &q.a), (&r1cs.b, &q.b), (&r1cs.c, &q.c)];
    for (matrix, polys) in pairs.iter() {
        assert_eq!(polys.len(), 6);
        for k in 0..6 {
            assert_eq!(polys[k].degree(), 3);
            for i in 1..=4usize {
                let value = evaluate(&polys[k], i as i64);
                let entry = Polynomial { coeffs: vec![whole(matrix[i - 1][k] as i64)] };
                assert_eq!(value, entry);
            }
        }
    }
}

#[test]
fn lagrange_basis_of_three_points() {
    let l0 = lagrange_basis_poly(3, 0);
    let expected = Polynomial { coeffs: vec![frac(3, 1), frac(5, 2).neg(), frac(1, 2)] };
    assert_eq!(l0, expected);
    let l1 = lagrange_basis_poly(3, 1);
    let expected = Polynomial { coeffs: vec![frac(3, 1).neg(), frac(4, 1), frac(1, 1).neg()] };
    assert_eq!(l1, expected);
}

#[test]
fn single_constraint_gives_constants() {
    let r1cs = R1CS { a: vec![vec![3, -5]], b: vec![vec![0, 1]], c: vec![vec![7, 0]] };
    let q = r1cs.to_qap().unwrap();
    assert_eq!(q.a[0], Polynomial { coeffs: vec![whole(3)] });
    assert_eq!(q.a[1], Polynomial { coeffs: vec![whole(-5)] });
    assert_eq!(q.c[0], Polynomial { coeffs: vec![whole(7)] });
}

#[test]
fn extreme_entries_are_lifted() {
    let r1cs = R1CS { a: vec![vec![i32::MIN, i32::MAX]], b: vec![vec![0, 0]], c: vec![vec![0, 0]] };
    let q = r1cs.to_qap().unwrap();
    assert_eq!(q.a[0], Polynomial { coeffs: vec![whole(i32::MIN as i64)] });
    assert_eq!(q.a[1], Polynomial { coeffs: vec![whole(i32::MAX as i64)] });
}

#[test]
fn mismatched_row_counts_are_refused() {
    let r1cs = R1CS { a: vec![vec![1, 0], vec![0, 1]], b: vec![vec![1, 0]], c: vec![vec![1, 0], vec![0, 1]] };
    assert!(matches!(r1cs.to_qap(), Err(ConversionError::ShapeMismatch)));
}

#[test]
fn mismatched_column_counts_are_refused() {
    let r1cs = R1CS { a: vec![vec![1, 0]], b: vec![vec![1, 0, 0]], c: vec![vec![1, 0]] };
    assert!(matches!(r1cs.to_qap(), Err(ConversionError::ShapeMismatch)));
    let ragged = R1CS { a: vec![vec![1, 0], vec![1]], b: vec![vec![1, 0], vec![1, 0]], c: vec![vec![1, 0], vec![1, 0]] };
    assert!(matches!(ragged.to_qap(), Err(ConversionError::ShapeMismatch)));
    assert!(!ragged.has_consistent_shape());
    assert!(sample().has_consistent_shape());
}

#[test]
fn empty_circuit_is_refused() {
    let r1cs = R1CS { a: vec![], b: vec![], c: vec![] };
    assert!(matches!(r1cs.to_qap(), Err(ConversionError::EmptyCircuit)));
    let lopsided = R1CS { a: vec![], b: vec![vec![1]], c: vec![] };
    assert!(matches!(lopsided.to_qap(), Err(ConversionError::ShapeMismatch)));
}

#[test]
fn many_constraints_interpolate() {
    let rows: Vec<Vec<i32>> = (0..20).map(|i| vec![i * 7 - 50, 1]).collect();
    let r1cs = R1CS { a: rows.clone(), b: rows.clone(), c: rows };
    let q = r1cs.to_qap().unwrap();
    assert_eq!(q.a[0].degree(), 19);
    for i in [1usize, 2, 10, 19, 20] {
        assert_eq!(evaluate(&q.a[0], i as i64), Polynomial { coeffs: vec![whole(r1cs.a[i - 1][0] as i64)] });
        assert_eq!(evaluate(&q.c[1], i as i64), Polynomial { coeffs: vec![whole(1)] });
    }
}
