use solver_core::exact::BigNat;
use solver_core::problem::Rate;
use solver_core::scc::RationalMatrix;

fn digits(value: u32) -> BigNat {
    BigNat { digits: if value == 0 { Vec::new() } else { vec![value] } }
}

fn rate(negative: bool, numerator: u32, denominator: u32) -> Rate {
    Rate { negative, numerator: digits(numerator), denominator: digits(denominator) }
}

fn matrix() -> RationalMatrix {
    RationalMatrix::from_rows(
        vec![vec![rate(false, 1, 2), rate(true, 1, 3)], vec![rate(false, 2, 1), rate(false, 0, 1)]],
        2,
    )
}

#[test]
fn matrix_shape_and_rows_follow_the_given_rows() {
    let m = matrix();
    assert_eq!((m.row_count(), m.column_count()), (2, 2));
    assert_eq!(m.row(1).unwrap(), &[rate(false, 2, 1), rate(false, 0, 1)][..]);
    assert!(m.row(2).is_none());
}

#[test]
fn multiplying_by_a_vector_gives_exact_reduced_dot_products() {
    let m = matrix();
    // [1/2, -1/3] . [3, 3/2] = 3/2 - 1/2 = 1; [2, 0] . [3, 3/2] = 6.
    let product = m.multiply(&[rate(false, 3, 1), rate(false, 3, 2)]).unwrap();
    assert_eq!(product, vec![rate(false, 1, 1), rate(false, 6, 1)]);
    // [1/2, -1/3] . [1, 3] = 1/2 - 1 = -1/2.
    let product = m.multiply(&[rate(false, 1, 1), rate(false, 3, 1)]).unwrap();
    assert_eq!(product[0], rate(true, 1, 2));
    assert!(m.multiply(&[rate(false, 1, 1)]).is_none());
}
