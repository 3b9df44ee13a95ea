use lumatrix::scalar::{NEG_ZERO, ONE, ZERO};
use lumatrix::Matrix;

fn bits(rows: &[&[f64]]) -> Vec<Vec<u64>> {
    rows.iter()
        .map(|row| row.iter().map(|x| x.to_bits()).collect())
        .collect()
}

fn matrix(rows: &[&[f64]]) -> Matrix {
    Matrix::new(bits(rows)).unwrap()
}

fn patterns(m: &Matrix) -> Vec<Vec<u64>> {
    (0..m.rows())
        .map(|i| (0..m.cols()).map(|j| m.get(i, j)).collect())
        .collect()
}

fn values(m: &Matrix) -> Vec<Vec<f64>> {
    patterns(m)
        .iter()
        .map(|row| row.iter().map(|x| f64::from_bits(*x)).collect())
        .collect()
}

fn close(a: &Matrix, b: &Matrix) -> bool {
    a.rows() == b.rows()
        && a.cols() == b.cols()
        && values(a)
            .iter()
            .flatten()
            .zip(values(b).iter().flatten())
            .all(|(x, y)| (x - y).abs() <= 1e-9)
}

/// Elimination as the machine's own arithmetic carries it out.
fn machine_lu(rows: &[&[f64]]) -> Option<(Vec<Vec<f64>>, Vec<Vec<f64>>)> {
    let n = rows.len();
    let mut upper: Vec<Vec<f64>> = rows.iter().map(|r| r.to_vec()).collect();
    let mut lower = vec![vec![0.0; n]; n];
    for (i, row) in lower.iter_mut().enumerate() {
        row[i] = 1.0;
    }
    for r in 0..n {
        let pivot = upper[r][r];
        if pivot == 0.0 {
            return None;
        }
        for k in 0..n {
            upper[r][k] /= pivot;
        }
        lower[r][r] = pivot;
        for below in r + 1..n {
            let m = upper[below][r];
            if m == 0.0 {
                continue;
            }
            for k in 0..n {
                upper[below][k] = if k <= r {
                    0.0
                } else {
                    upper[below][k] - m * upper[r][k]
                };
            }
            lower[below][r] = m;
        }
    }
    Some((lower, upper))
}

#[test]
fn lu_of_two_by_two() {
    let m = matrix(&[&[4.0, 3.0], &[6.0, 3.0]]);
    let (lower, upper) = m.lu_decompose().unwrap();
    assert_eq!(patterns(&lower), bits(&[&[4.0, 0.0], &[6.0, -1.5]]));
    assert_eq!(patterns(&upper), bits(&[&[1.0, 0.75], &[-0.0, 1.0]]));
}

#[test]
fn lu_first_step_of_two_by_two() {
    let m = matrix(&[&[4.0, 3.0], &[6.0, 3.0]]);
    let (lower, upper) = m.lu_decompose().unwrap();
    assert_eq!(f64::from_bits(lower.get(0, 0)), 4.0);
    assert_eq!(f64::from_bits(lower.get(0, 1)), 0.0);
    assert_eq!(f64::from_bits(lower.get(1, 0)), 6.0);
    assert_eq!(f64::from_bits(upper.get(0, 0)), 1.0);
    assert_eq!(f64::from_bits(upper.get(0, 1)), 0.75);
    assert_eq!(f64::from_bits(upper.get(1, 0)), 0.0);
    assert_eq!(
        f64::from_bits(lower.get(1, 1)) * f64::from_bits(upper.get(1, 1)),
        -1.5
    );
}

#[test]
fn lu_factors_multiply_back() {
    let m = matrix(&[&[4.0, 3.0], &[6.0, 3.0]]);
    let (lower, upper) = m.lu_decompose().unwrap();
    assert!(close(&lower.multiply(&upper), &m));
}

#[test]
fn lu_factors_of_three_by_three_multiply_back() {
    let m = matrix(&[&[2.0, -1.0, 3.0], &[4.0, 2.0, 1.0], &[-6.0, -1.0, 2.0]]);
    let (lower, upper) = m.lu_decompose().unwrap();
    assert!(close(&lower.multiply(&upper), &m));
    for i in 0..3 {
        for j in 0..3 {
            if j > i {
                assert_eq!(lower.get(i, j), ZERO);
            }
            if j < i {
                assert_eq!(f64::from_bits(upper.get(i, j)), 0.0);
            }
        }
        assert_eq!(upper.get(i, i), ONE);
        assert_ne!(f64::from_bits(lower.get(i, i)), 0.0);
    }
}

#[test]
fn lu_can_lose_the_matrix_to_rounding() {
    let m = matrix(&[&[1e-20, 1.0], &[1.0, 1.0]]);
    let (lower, upper) = m.lu_decompose().unwrap();
    let back = lower.multiply(&upper);
    assert_eq!(f64::from_bits(back.get(1, 1)), 0.0);
}

#[test]
fn lu_agrees_with_the_machine() {
    let samples: [&[&[f64]]; 5] = [
        &[&[4.0, 3.0], &[6.0, 3.0]],
        &[&[2.0, -1.0, 3.0], &[4.0, 2.0, 1.0], &[-6.0, -1.0, 2.0]],
        &[&[0.1, 0.2, 0.3], &[0.4, 0.5, 0.7], &[0.7, 0.8, 0.9]],
        &[&[1e-20, 1.0], &[1.0, 1.0]],
        &[
            &[3.0, 1.0, 4.0, 1.0],
            &[5.0, 9.0, 2.0, 6.0],
            &[5.0, 3.0, 5.0, 8.0],
            &[9.0, 7.0, 9.0, 3.0],
        ],
    ];
    for rows in samples {
        let (lower, upper) = matrix(rows).lu_decompose().unwrap();
        let (l, u) = machine_lu(rows).unwrap();
        let l: Vec<&[f64]> = l.iter().map(|r| r.as_slice()).collect();
        let u: Vec<&[f64]> = u.iter().map(|r| r.as_slice()).collect();
        assert_eq!(patterns(&lower), bits(&l));
        assert_eq!(patterns(&upper), bits(&u));
    }
}

#[test]
fn lu_of_a_single_entry() {
    let m = matrix(&[&[5.0]]);
    let (lower, upper) = m.lu_decompose().unwrap();
    assert_eq!(values(&lower), vec![vec![5.0]]);
    assert_eq!(values(&upper), vec![vec![1.0]]);
}

#[test]
fn lu_of_the_empty_matrix_is_empty() {
    let m = Matrix::new(Vec::new()).unwrap();
    let (lower, upper) = m.lu_decompose().unwrap();
    assert_eq!(lower.rows(), 0);
    assert_eq!(lower.cols(), 0);
    assert_eq!(upper.rows(), 0);
    assert_eq!(upper.cols(), 0);
}

#[test]
fn lu_of_the_identity_is_the_identity_twice() {
    let m = Matrix::identity(4);
    let (lower, upper) = m.lu_decompose().unwrap();
    assert_eq!(patterns(&lower), patterns(&m));
    assert_eq!(patterns(&upper), patterns(&m));
}

#[test]
fn lu_skips_a_row_that_already_has_its_zero() {
    let m = matrix(&[&[2.0, 1.0], &[0.0, 3.0]]);
    let (lower, upper) = m.lu_decompose().unwrap();
    assert_eq!(values(&lower), vec![vec![2.0, 0.0], vec![0.0, 3.0]]);
    assert_eq!(values(&upper), vec![vec![1.0, 0.5], vec![0.0, 1.0]]);
}

#[test]
fn lu_skips_a_row_with_a_negative_zero() {
    let m = matrix(&[&[2.0, 1.0], &[-0.0, 3.0]]);
    let (lower, upper) = m.lu_decompose().unwrap();
    assert_eq!(lower.get(1, 0), ZERO);
    assert_eq!(upper.get(1, 0), NEG_ZERO);
}

#[test]
fn lu_rejects_a_wide_matrix() {
    assert!(matrix(&[&[1.0, 2.0, 3.0], &[4.0, 5.0, 6.0]])
        .lu_decompose()
        .is_none());
}

#[test]
fn lu_rejects_a_tall_matrix() {
    assert!(matrix(&[&[1.0], &[2.0]]).lu_decompose().is_none());
}

#[test]
fn lu_rejects_a_matrix_without_rows_but_with_columns() {
    assert!(Matrix::blank(0, 3).lu_decompose().is_none());
}

#[test]
fn lu_rejects_a_zero_first_pivot() {
    assert!(matrix(&[&[0.0, 1.0], &[1.0, 0.0]]).lu_decompose().is_none());
}

#[test]
fn lu_rejects_a_negative_zero_pivot() {
    assert!(matrix(&[&[-0.0, 1.0], &[1.0, 0.0]])
        .lu_decompose()
        .is_none());
}

#[test]
fn lu_rejects_a_zero_pivot_that_elimination_makes() {
    assert!(matrix(&[&[1.0, 1.0], &[1.0, 1.0]]).lu_decompose().is_none());
}

#[test]
fn lu_rejects_a_zero_last_pivot() {
    assert!(matrix(&[&[1.0, 2.0], &[0.0, 0.0]]).lu_decompose().is_none());
}

#[test]
fn lu_takes_a_tiny_pivot_as_it_is() {
    let m = matrix(&[&[5e-324, 1.0], &[1.0, 1.0]]);
    assert!(m.lu_decompose().is_some());
}

#[test]
fn lu_with_a_nan_pivot_loses_the_triangle() {
    let m = matrix(&[&[1.0, 0.0], &[0.0, f64::NAN]]);
    let (lower, upper) = m.lu_decompose().unwrap();
    assert!(f64::from_bits(lower.get(1, 1)).is_nan());
    assert!(f64::from_bits(upper.get(1, 0)).is_nan());
    assert!(f64::from_bits(upper.get(1, 1)).is_nan());
}

#[test]
fn lu_with_an_infinite_pivot_has_no_unit_diagonal() {
    let m = matrix(&[&[f64::INFINITY]]);
    let (lower, upper) = m.lu_decompose().unwrap();
    assert_eq!(f64::from_bits(lower.get(0, 0)), f64::INFINITY);
    assert!(f64::from_bits(upper.get(0, 0)).is_nan());
}

#[test]
fn plu_keeps_the_identity_when_lu_succeeds() {
    let m = matrix(&[&[4.0, 3.0], &[6.0, 3.0]]);
    let (lower, upper, permutation) = m.plu_decomposition().unwrap();
    let (l, u) = m.lu_decompose().unwrap();
    assert_eq!(patterns(&lower), patterns(&l));
    assert_eq!(patterns(&upper), patterns(&u));
    assert_eq!(patterns(&permutation), patterns(&Matrix::identity(2)));
}

#[test]
fn plu_swaps_the_two_rows() {
    let m = matrix(&[&[0.0, 1.0], &[1.0, 0.0]]);
    assert!(m.lu_decompose().is_none());
    let (lower, upper, permutation) = m.plu_decomposition().unwrap();
    assert_eq!(patterns(&lower), patterns(&Matrix::identity(2)));
    assert_eq!(patterns(&upper), patterns(&Matrix::identity(2)));
    assert_eq!(values(&permutation), vec![vec![0.0, 1.0], vec![1.0, 0.0]]);
    assert_eq!(
        patterns(&lower.multiply(&upper)),
        patterns(&permutation.multiply(&m))
    );
}

#[test]
fn plu_factors_multiply_back_to_the_permuted_matrix() {
    let m = matrix(&[&[0.0, 2.0, 1.0], &[1.0, 1.0, 1.0], &[2.0, 1.0, 5.0]]);
    let (lower, upper, permutation) = m.plu_decomposition().unwrap();
    assert!(close(&lower.multiply(&upper), &permutation.multiply(&m)));
}

#[test]
fn plu_returns_the_first_pair_that_works() {
    let m = matrix(&[&[0.0, 1.0, 2.0], &[1.0, 1.0, 1.0], &[2.0, 1.0, 5.0]]);
    let (lower, upper, permutation) = m.plu_decomposition().unwrap();
    assert_eq!(
        values(&permutation),
        vec![
            vec![0.0, 1.0, 0.0],
            vec![1.0, 0.0, 0.0],
            vec![0.0, 0.0, 1.0]
        ]
    );
    let swapped = matrix(&[&[1.0, 1.0, 1.0], &[0.0, 1.0, 2.0], &[2.0, 1.0, 5.0]]);
    let (l, u) = swapped.lu_decompose().unwrap();
    assert_eq!(patterns(&lower), patterns(&l));
    assert_eq!(patterns(&upper), patterns(&u));
}

#[test]
fn plu_passes_over_a_pair_that_does_not_help() {
    let m = matrix(&[&[0.0, 0.0, 1.0], &[0.0, 1.0, 0.0], &[1.0, 0.0, 0.0]]);
    let (lower, upper, permutation) = m.plu_decomposition().unwrap();
    assert_eq!(
        values(&permutation),
        vec![
            vec![0.0, 0.0, 1.0],
            vec![0.0, 1.0, 0.0],
            vec![1.0, 0.0, 0.0]
        ]
    );
    assert_eq!(patterns(&lower), patterns(&Matrix::identity(3)));
    assert_eq!(patterns(&upper), patterns(&Matrix::identity(3)));
}

#[test]
fn plu_reaches_the_last_pair() {
    let m = matrix(&[&[1.0, 0.0, 0.0], &[0.0, 0.0, 1.0], &[0.0, 1.0, 0.0]]);
    let (_, _, permutation) = m.plu_decomposition().unwrap();
    assert_eq!(
        values(&permutation),
        vec![
            vec![1.0, 0.0, 0.0],
            vec![0.0, 0.0, 1.0],
            vec![0.0, 1.0, 0.0]
        ]
    );
}

#[test]
fn plu_does_not_find_a_three_cycle() {
    let m = matrix(&[&[0.0, 1.0, 0.0], &[0.0, 0.0, 1.0], &[1.0, 0.0, 0.0]]);
    assert!(m.plu_decomposition().is_none());
    let cycled = matrix(&[&[1.0, 0.0, 0.0], &[0.0, 1.0, 0.0], &[0.0, 0.0, 1.0]]);
    assert!(cycled.lu_decompose().is_some());
}

#[test]
fn plu_tries_each_pair_on_the_matrix_as_given() {
    let m = matrix(&[
        &[0.0, 1.0, 0.0, 0.0],
        &[0.0, 0.0, 1.0, 0.0],
        &[1.0, 0.0, 0.0, 0.0],
        &[0.0, 0.0, 0.0, 1.0],
    ]);
    assert!(m.plu_decomposition().is_none());
}

#[test]
fn plu_rejects_a_matrix_that_is_not_square() {
    assert!(matrix(&[&[1.0, 2.0, 3.0], &[4.0, 5.0, 6.0]])
        .plu_decomposition()
        .is_none());
}

#[test]
fn plu_rejects_the_zero_matrix() {
    assert!(Matrix::blank(3, 3).plu_decomposition().is_none());
}

#[test]
fn plu_rejects_a_single_zero() {
    assert!(Matrix::blank(1, 1).plu_decomposition().is_none());
}

#[test]
fn plu_of_the_empty_matrix_is_empty() {
    let m = Matrix::new(Vec::new()).unwrap();
    let (lower, upper, permutation) = m.plu_decomposition().unwrap();
    assert_eq!(lower.rows(), 0);
    assert_eq!(upper.rows(), 0);
    assert_eq!(permutation.rows(), 0);
}

#[test]
fn plu_searches_a_larger_matrix() {
    let n = 12;
    let mut rows = vec![vec![0.0f64; n]; n];
    for (i, row) in rows.iter_mut().enumerate() {
        row[i] = (i + 2) as f64;
    }
    rows.swap(7, 10);
    let m = Matrix::new(
        rows.iter()
            .map(|r| r.iter().map(|x| x.to_bits()).collect())
            .collect(),
    )
    .unwrap();
    assert!(m.lu_decompose().is_none());
    let (lower, upper, permutation) = m.plu_decomposition().unwrap();
    for i in 0..n {
        for j in 0..n {
            let expected = if (i, j) == (7, 10) || (i, j) == (10, 7) {
                1.0
            } else if i == j && i != 7 && i != 10 {
                1.0
            } else {
                0.0
            };
            assert_eq!(f64::from_bits(permutation.get(i, j)), expected);
        }
    }
    assert!(close(&lower.multiply(&upper), &permutation.multiply(&m)));
}
