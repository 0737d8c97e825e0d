use poly_commit::error::Error;
use poly_commit::field::Fr;
use poly_commit::layout::{layout_matrix, power, power_sequence, LabeledPolynomial};
use poly_commit::linalg::{inner_product, Matrix};
use poly_commit::opening::{column_coefficients, row_coefficients};
use poly_commit::transcript::{
    contains, copy_elements, copy_indices, index_from_bytes, Action, Messages, Phase, Reply, Session,
};

fn numbers(xs: &[u64]) -> Vec<Fr> {
    xs.iter().map(|x| Fr::from_u64(*x)).collect()
}

fn messages() -> Messages {
    Messages {
        root: vec![9, 9],
        point: Fr::from_u64(3),
        value: Fr::from_u64(4),
        row: numbers(&[5, 6]),
    }
}

#[test]
fn inner_product_runs_over_the_shorter_vector() {
    assert_eq!(inner_product(&numbers(&[1, 2, 3]), &numbers(&[4, 5, 6])), Fr::from_u64(32));
    assert_eq!(inner_product(&numbers(&[1, 2, 3]), &numbers(&[4, 5])), Fr::from_u64(14));
    assert_eq!(inner_product(&numbers(&[]), &numbers(&[4, 5])), Fr::zero());
}

#[test]
fn matrix_from_rows_and_from_flat_entries() {
    let m = Matrix::new_from_rows(vec![numbers(&[1, 2, 3]), numbers(&[4, 5, 6])]).unwrap();
    assert_eq!((m.n_rows(), m.n_cols()), (2, 3));
    assert_eq!(m.entry(1, 2), Fr::from_u64(6));
    assert_eq!(m.row(0), &numbers(&[1, 2, 3]));
    assert_eq!(m.col(1), numbers(&[2, 5]));
    assert_eq!(m.cols(), vec![numbers(&[1, 4]), numbers(&[2, 5]), numbers(&[3, 6])]);
    let f = Matrix::new_from_flat(2, 3, &numbers(&[1, 2, 3, 4, 5, 6])).unwrap();
    assert_eq!(f.cols(), m.cols());
    assert_eq!(f.entry(0, 1), Fr::from_u64(2));
    assert!(Matrix::new_from_flat(2, 3, &numbers(&[1, 2, 3, 4, 5])).is_none());
    assert!(Matrix::new_from_flat(usize::MAX, 2, &numbers(&[1, 2])).is_none());
    assert!(Matrix::new_from_rows(vec![numbers(&[1, 2]), numbers(&[3])]).is_none());
    let empty = Matrix::new_from_rows(Vec::new()).unwrap();
    assert_eq!((empty.n_rows(), empty.n_cols()), (0, 0));
}

#[test]
fn row_vector_times_matrix() {
    let m = Matrix::new_from_rows(vec![numbers(&[1, 2, 3]), numbers(&[4, 5, 6])]).unwrap();
    assert_eq!(m.row_mul(&numbers(&[10, 100])), numbers(&[410, 520, 630]));
    assert_eq!(m.row_mul(&numbers(&[0, 1])), numbers(&[4, 5, 6]));
}

#[test]
fn powers_of_an_element() {
    let three = Fr::from_u64(3);
    assert_eq!(power(&three, 0), Fr::one());
    assert_eq!(power(&three, 5), Fr::from_u64(243));
    assert_eq!(power(&Fr::zero(), 0), Fr::one());
    assert_eq!(power_sequence(&three, 4), numbers(&[1, 3, 9, 27]));
    assert_eq!(power_sequence(&three, 0), Vec::new());
    assert_eq!(column_coefficients(&three, 3), numbers(&[1, 3, 9]));
}

#[test]
fn row_coefficients_are_powers_within_the_block_of_the_polynomial() {
    let two = Fr::from_u64(2);
    // Three polynomials, two rows each, four columns: the rows of the
    // second polynomial get 1 and 2^4.
    assert_eq!(row_coefficients(&two, 3, 2, 4, 1), numbers(&[0, 0, 1, 16, 0, 0]));
    assert_eq!(row_coefficients(&two, 1, 3, 2, 0), numbers(&[1, 4, 16]));
    assert_eq!(row_coefficients(&two, 2, 1, 8, 0), numbers(&[1, 0]));
}

#[test]
fn polynomials_fill_their_blocks_row_after_row() {
    let p = LabeledPolynomial::new("p".to_string(), numbers(&[1, 2, 3, 4, 5]), None, None);
    let q = LabeledPolynomial::new("q".to_string(), numbers(&[7]), Some(3), None);
    let m = layout_matrix(&vec![p, q], 2, 3);
    assert_eq!((m.n_rows(), m.n_cols()), (4, 3));
    assert_eq!(m.row(0), &numbers(&[1, 2, 3]));
    assert_eq!(m.row(1), &numbers(&[4, 5, 0]));
    assert_eq!(m.row(2), &numbers(&[7, 0, 0]));
    assert_eq!(m.row(3), &numbers(&[0, 0, 0]));
}

#[test]
fn degree_bounds_count_set_coefficients_only() {
    let within = LabeledPolynomial::new("a".to_string(), numbers(&[1, 2, 0, 0]), Some(1), None);
    assert!(within.check_bound());
    let above = LabeledPolynomial::new("b".to_string(), numbers(&[1, 2, 0, 3]), Some(2), None);
    assert!(!above.check_bound());
    let exact = LabeledPolynomial::new("c".to_string(), numbers(&[1, 2, 3]), Some(2), None);
    assert!(exact.check_bound());
    let free = LabeledPolynomial::new("d".to_string(), numbers(&[1, 2, 3]), None, Some(5));
    assert!(free.check_bound());
    assert_eq!(free.label, "d");
    assert_eq!(free.degree_bound, None);
    let large = LabeledPolynomial::new("e".to_string(), numbers(&[1]), Some(usize::MAX), None);
    assert!(large.check_bound());
    assert_eq!(above.evaluate(&Fr::from_u64(2)), Fr::from_u64(1 + 4 + 24));
    assert_eq!(
        LabeledPolynomial::new("z".to_string(), Vec::new(), None, None).evaluate(&Fr::from_u64(2)),
        Fr::zero()
    );
}

#[test]
fn indices_are_made_of_four_bytes() {
    assert_eq!(index_from_bytes(&vec![1, 0, 0, 0], 16), Some(1));
    assert_eq!(index_from_bytes(&vec![0x12, 0x34, 0x56, 0x78], 1 << 30), Some(0x3856_3412));
    assert_eq!(index_from_bytes(&vec![0x12, 0x34, 0x56, 0x78], 1 << 8), Some(0x12));
    assert_eq!(index_from_bytes(&vec![255, 255, 255, 255], 7), Some(0xffff_ffff % 7));
    assert_eq!(index_from_bytes(&vec![1, 2, 3], 16), None);
    assert_eq!(index_from_bytes(&vec![1, 2, 3, 4, 5], 16), None);
    assert!(contains(&vec![3, 1, 4], 4));
    assert!(!contains(&vec![3, 1, 4], 5));
    assert!(!contains(&Vec::new(), 0));
    assert_eq!(copy_indices(&vec![3, 1, 4]), vec![3, 1, 4]);
    assert_eq!(copy_elements(&numbers(&[3, 1])), numbers(&[3, 1]));
}

#[test]
fn a_session_needs_at_least_one_and_at_most_all_columns() {
    assert!(Session::new(0, 2, 4, true).is_none());
    assert!(Session::new(5, 2, 4, true).is_none());
    assert!(Session::new(4, 2, 4, true).is_some());
    assert!(Session::new(1, 0, 1, false).is_some());
}

#[test]
fn a_session_without_well_formedness_test_draws_distinct_columns_and_finishes() {
    let m = messages();
    let s = Session::new(2, 2, 4, false).unwrap();
    assert!(s.challenges().is_none());
    let (s, a) = s.step(Reply::Done, &m, None);
    match a.unwrap() {
        Action::Absorb { bytes, fields } => {
            assert_eq!(bytes, vec![9, 9]);
            assert_eq!(fields, numbers(&[3, 4]));
        }
        other => panic!("unexpected {:?}", other),
    }
    let (s, a) = s.step(Reply::Done, &m, None);
    match a.unwrap() {
        Action::Absorb { bytes, fields } => {
            assert!(bytes.is_empty());
            assert_eq!(fields, numbers(&[5, 6]));
        }
        other => panic!("unexpected {:?}", other),
    }
    let (s, a) = s.step(Reply::Done, &m, None);
    assert!(matches!(a, Ok(Action::SqueezeBytes(4))));
    let (s, a) = s.step(Reply::Bytes(vec![7, 0, 0, 0]), &m, None);
    assert!(matches!(a, Ok(Action::SqueezeBytes(4))));
    let (s, a) = s.step(Reply::Bytes(vec![3, 1, 0, 0]), &m, None);
    assert!(matches!(a, Ok(Action::SqueezeBytes(4))));
    assert_eq!(s.current_phase(), Phase::ColumnChallengeIssued);
    let (s, a) = s.step(Reply::Fields(numbers(&[1, 2])), &m, None);
    assert_eq!(a.err(), Some(Error::TranscriptDesync));
    let (s, a) = s.step(Reply::Bytes(vec![2, 0, 0, 1]), &m, None);
    assert!(matches!(a, Ok(Action::Finish)));
    assert_eq!(s.current_phase(), Phase::Finished);
    let ch = s.challenges().unwrap();
    assert_eq!(ch.indices, vec![3, 2]);
    assert!(ch.well_formedness.is_none());
    let (s, a) = s.step(Reply::Done, &m, None);
    assert_eq!(a.err(), Some(Error::TranscriptDesync));
    assert_eq!(s.current_phase(), Phase::Finished);
}

#[test]
fn a_session_with_well_formedness_test_draws_coefficients_and_more_columns() {
    let m = messages();
    let wf_row = numbers(&[8, 9]);
    let s = Session::new(1, 2, 4, true).unwrap();
    let (s, _) = s.step(Reply::Done, &m, None);
    let (s, _) = s.step(Reply::Done, &m, None);
    let (s, _) = s.step(Reply::Done, &m, None);
    let (s, a) = s.step(Reply::Bytes(vec![5, 0, 0, 0]), &m, None);
    assert!(matches!(a, Ok(Action::SqueezeFields(2))));
    assert_eq!(s.current_phase(), Phase::ColumnsOpened);
    let (s, a) = s.step(Reply::Fields(numbers(&[1, 2, 3])), &m, Some(&wf_row));
    assert_eq!(a.err(), Some(Error::TranscriptDesync));
    let (s, a) = s.step(Reply::Fields(numbers(&[1, 2])), &m, None);
    assert_eq!(a.err(), Some(Error::InvalidInputLength));
    assert_eq!(s.current_phase(), Phase::ColumnsOpened);
    let (s, a) = s.step(Reply::Fields(numbers(&[11, 12])), &m, Some(&wf_row));
    match a.unwrap() {
        Action::Absorb { bytes, fields } => {
            assert!(bytes.is_empty());
            assert_eq!(fields, wf_row);
        }
        other => panic!("unexpected {:?}", other),
    }
    assert_eq!(s.current_phase(), Phase::WellFormednessChallengeIssued);
    let (s, a) = s.step(Reply::Done, &m, None);
    assert!(matches!(a, Ok(Action::SqueezeBytes(4))));
    assert_eq!(s.current_phase(), Phase::WellFormednessOpened);
    let (s, a) = s.step(Reply::Bytes(vec![6, 0, 0, 0]), &m, None);
    assert!(matches!(a, Ok(Action::Finish)));
    let ch = s.challenges().unwrap();
    assert_eq!(ch.indices, vec![1]);
    assert_eq!(ch.well_formedness, Some((numbers(&[11, 12]), vec![2])));
}
