use gf2_linalg::matrix::{Matrix, MatrixError, MatrixTrait};
use gf2_linalg::GF2Matrix;

fn gf2(rows: Vec<Vec<u8>>) -> GF2Matrix {
    GF2Matrix::new(rows).unwrap()
}

fn xor_dot(a: &[u8], b: &[u8]) -> u8 {
    a.iter().zip(b.iter()).fold(0u8, |acc, (x, y)| acc ^ (x * y))
}

#[test]
fn instantiate_matrix() {
    let mat = gf2(vec![vec![1, 0], vec![1, 1]]);
    let el = mat.elements;
    assert_eq!(el, vec![vec![1, 0], vec![1, 1]]);
}

#[test]
fn echelon_form_matrix() {
    let mat = gf2(vec![vec![1, 0], vec![1, 1]]);
    let (ech_form, _) = mat.echelon_form();
    assert_eq!(ech_form.elements, vec![vec![1, 0], vec![0, 1]]);
    let mat = gf2(vec![vec![1, 0, 0, 0], vec![0, 1, 0, 1], vec![0, 1, 0, 1]]);
    let (ech_form, _) = mat.echelon_form();
    assert_eq!(ech_form.elements, vec![vec![1, 0, 0, 0], vec![0, 1, 0, 1], vec![0, 0, 0, 0]]);
}

#[test]
fn echelon_form_ops() {
    let mat = gf2(vec![vec![1, 0], vec![1, 1]]);
    let (_, ops) = mat.echelon_form();
    assert_eq!(ops, vec![(1, 0)])
}

#[test]
fn ncols_nrows() {
    let mat = gf2(vec![vec![1, 0, 1], vec![1, 1, 0]]);
    assert_eq!(mat.nrows(), 2);
    assert_eq!(mat.ncols(), 3)
}

#[test]
fn get_pivot() {
    assert_eq!(GF2Matrix::get_pivot(&vec![1, 0, 0, 1]).unwrap(), 0);
    assert_eq!(GF2Matrix::get_pivot(&vec![0, 1, 1, 0]).unwrap(), 1);
    assert_eq!(GF2Matrix::get_pivot(&vec![0, 0, 1, 1]).unwrap(), 2);
    assert_eq!(GF2Matrix::get_pivot(&vec![0, 0, 0, 1]).unwrap(), 3);
    assert!(GF2Matrix::get_pivot(&vec![0, 0, 0, 0]).is_none());
}

#[test]
fn is_reduced_echelon() {
    assert_eq!(gf2(vec![vec![1, 0, 0, 0], vec![1, 1, 0, 1]]).is_reduced_echelon(), false);
    assert_eq!(gf2(vec![vec![1, 0, 0, 0], vec![1, 1, 0, 1]]).is_reduced_echelon(), false);
    assert_eq!(gf2(vec![vec![1, 1, 0, 1], vec![0, 1, 0, 1]]).is_reduced_echelon(), false);
    assert_eq!(gf2(vec![vec![1, 0, 0, 1], vec![0, 1, 0, 1]]).is_reduced_echelon(), true);
    assert_eq!(gf2(vec![vec![1, 0, 0, 0], vec![1, 1, 0, 1], vec![0, 0, 1, 1]]).is_reduced_echelon(), false);
    assert_eq!(gf2(vec![vec![1, 0, 0, 0], vec![0, 1, 0, 0], vec![0, 0, 1, 1]]).is_reduced_echelon(), true);
    assert_eq!(gf2(vec![vec![1, 0, 0, 0], vec![0, 1, 0, 1], vec![0, 1, 0, 1]]).is_reduced_echelon(), false);
    assert_eq!(gf2(vec![vec![1, 0, 0, 0], vec![0, 0, 0, 0], vec![0, 1, 0, 1]]).is_reduced_echelon(), false);
}

#[test]
fn is_reduced_echelon_zero_row() {
    assert_eq!(gf2(vec![vec![0, 0, 0, 0], vec![1, 0, 0, 0], vec![0, 1, 0, 1]]).is_reduced_echelon(), false);
    assert_eq!(gf2(vec![vec![1, 0, 0, 0], vec![0, 0, 0, 0], vec![0, 1, 0, 1]]).is_reduced_echelon(), false);
    assert_eq!(gf2(vec![vec![1, 0, 1, 0], vec![0, 0, 0, 0]]).is_reduced_echelon(), true);
}

#[test]
fn rank() {
    assert_eq!(gf2(vec![vec![1, 0, 0, 0], vec![0, 1, 0, 1]]).rank(), 2);
    assert_eq!(gf2(vec![vec![1, 0, 0, 0], vec![1, 0, 0, 0]]).rank(), 1);
}

#[test]
fn image() {
    let mat_1 = gf2(vec![vec![1, 0, 0, 0], vec![0, 1, 0, 1]]);
    assert_eq!(mat_1.image(), mat_1.elements);
    let mat_2 = gf2(vec![vec![1, 0, 0, 0], vec![0, 1, 0, 1], vec![0, 1, 0, 1]]);
    assert_eq!(mat_2.image(), mat_1.elements);
    let mat = gf2(vec![vec![1, 0, 0, 0], vec![0, 0, 0, 0]]);
    assert_eq!(mat.image(), vec![vec![1, 0, 0, 0]]);
}

#[test]
fn kernel() {
    let mat = gf2(vec![vec![1, 0, 0, 0], vec![0, 1, 0, 1]]);
    assert_eq!(mat.kernel(), vec![vec![0, 0, 1, 0], vec![0, 1, 0, 1]]);
    let mat = gf2(vec![vec![1, 0, 0, 0], vec![0, 0, 0, 0], vec![0, 1, 0, 1]]);
    assert_eq!(mat.kernel(), vec![vec![0, 0, 1, 0], vec![0, 1, 0, 1]])
}

#[test]
fn ragged_rows_are_refused() {
    let r: Result<GF2Matrix, MatrixError> = Matrix::new(vec![vec![1, 0], vec![1]]);
    assert_eq!(r.err(), Some(MatrixError::RaggedRows));
    assert!(GF2Matrix::new(vec![vec![1, 0], vec![0, 1]]).is_ok());
}

#[test]
fn echelon_form_second_example_log() {
    let mat = gf2(vec![vec![1, 0, 0, 0], vec![0, 1, 0, 1], vec![0, 1, 0, 1]]);
    let (_, ops) = mat.echelon_form();
    assert_eq!(ops, vec![(2, 1)]);
}

#[test]
fn echelon_form_records_swap_as_three_additions() {
    let mat = gf2(vec![vec![0, 1], vec![1, 0]]);
    let (ech, ops) = mat.echelon_form();
    assert_eq!(ech.elements, vec![vec![1, 0], vec![0, 1]]);
    assert_eq!(ops, vec![(0, 1), (1, 0), (0, 1)]);
}

#[test]
fn echelon_form_log_replays() {
    let rows = vec![vec![0, 1, 1], vec![1, 1, 0], vec![1, 0, 1]];
    let (ech, ops) = gf2(rows.clone()).echelon_form();
    let mut replay = rows;
    for (t, s) in ops {
        let src = replay[s].clone();
        for j in 0..src.len() {
            replay[t][j] ^= src[j];
        }
    }
    assert_eq!(replay, ech.elements);
    assert_eq!(ech.elements, vec![vec![1, 0, 1], vec![0, 1, 1], vec![0, 0, 0]]);
}

#[test]
fn echelon_form_twice_is_unchanged() {
    let mat = gf2(vec![vec![0, 1, 1, 0], vec![1, 1, 0, 1], vec![1, 0, 1, 1]]);
    let (once, _) = mat.echelon_form();
    let (twice, ops) = once.echelon_form();
    assert_eq!(twice.elements, once.elements);
    assert!(ops.is_empty());
    assert!(once.is_reduced_echelon());
}

#[test]
fn rank_plus_kernel_size_is_column_count() {
    let mat = gf2(vec![vec![1, 1, 0, 1, 0], vec![0, 1, 1, 0, 1], vec![1, 0, 1, 1, 1]]);
    assert_eq!(mat.rank(), 2);
    assert_eq!(mat.rank() + mat.kernel().len(), mat.ncols());
}

#[test]
fn kernel_vectors_are_annihilated() {
    let mat = gf2(vec![vec![1, 1, 0, 1, 0], vec![0, 1, 1, 0, 1], vec![1, 0, 1, 1, 1]]);
    let (ech, _) = mat.echelon_form();
    let kernel = mat.kernel();
    assert_eq!(kernel.len(), 3);
    for v in &kernel {
        for row in &ech.elements {
            assert_eq!(xor_dot(row, v), 0);
        }
        for row in &mat.elements {
            assert_eq!(xor_dot(row, v), 0);
        }
    }
}

#[test]
fn image_is_nonzero_rows_of_reduced_form() {
    let mat = gf2(vec![vec![1, 1, 0], vec![1, 1, 0], vec![0, 1, 1]]);
    let (ech, _) = mat.echelon_form();
    assert_eq!(ech.elements, vec![vec![1, 0, 1], vec![0, 1, 1], vec![0, 0, 0]]);
    assert_eq!(mat.image(), vec![vec![1, 0, 1], vec![0, 1, 1]]);
}

#[test]
fn empty_matrix() {
    let mat = gf2(vec![]);
    assert_eq!(mat.nrows(), 0);
    assert_eq!(mat.ncols(), 0);
    assert_eq!(mat.rank(), 0);
    assert!(mat.kernel().is_empty());
    assert!(mat.image().is_empty());
    assert!(mat.is_reduced_echelon());
    let (ech, ops) = mat.echelon_form();
    assert!(ech.elements.is_empty());
    assert!(ops.is_empty());
}

#[test]
fn zero_column_matrix() {
    let mat = gf2(vec![vec![], vec![]]);
    assert_eq!(mat.ncols(), 0);
    assert_eq!(mat.rank(), 0);
    assert!(mat.kernel().is_empty());
    assert!(mat.image().is_empty());
}

#[test]
fn zero_matrix_kernel_is_every_column() {
    let mat = gf2(vec![vec![0, 0, 0], vec![0, 0, 0]]);
    assert_eq!(mat.rank(), 0);
    assert_eq!(mat.kernel(), vec![vec![1, 0, 0], vec![0, 1, 0], vec![0, 0, 1]]);
    assert!(mat.image().is_empty());
}

#[test]
fn columns_run_out_before_rows() {
    let mat = gf2(vec![vec![0, 1], vec![0, 1], vec![1, 1], vec![0, 0]]);
    let (ech, ops) = mat.echelon_form();
    assert_eq!(ech.elements, vec![vec![1, 0], vec![0, 1], vec![0, 0], vec![0, 0]]);
    assert_eq!(ops, vec![(0, 2), (2, 0), (0, 2), (0, 1), (2, 1)]);
    assert_eq!(mat.rank(), 2);
}
