use ark_bls12_381::Fr as ArkFr;
use ark_ff::{BigInt, PrimeField};
use ark_poly::univariate::DensePolynomial;
use ark_poly::{DenseUVPolynomial, EvaluationDomain, GeneralEvaluationDomain, Polynomial};
use poly_commit::code::ReedSolomon;
use poly_commit::commit::commit;
use poly_commit::error::Error;
use poly_commit::field::Fr;
use poly_commit::layout::LabeledPolynomial;
use poly_commit::opening::{
    check_all, check_with_challenges, code_for, open_all, open_with_challenges, Challenges,
};
use poly_commit::params::{query_count, LigeroPCParams};

fn ark_of(x: &Fr) -> ArkFr {
    ArkFr::from_bigint(BigInt::new(x.to_limbs())).unwrap()
}

fn fr_of(x: ArkFr) -> Fr {
    Fr::from_limbs(x.into_bigint().0).unwrap()
}

fn numbers(xs: &[u64]) -> Vec<Fr> {
    xs.iter().map(|x| Fr::from_u64(*x)).collect()
}

fn all_columns(n: usize) -> Vec<usize> {
    (0..n).collect()
}

#[test]
fn codeword_holds_the_values_on_the_domain() {
    let code = ReedSolomon::new(4, 4).unwrap();
    assert_eq!(code.message_len(), 4);
    assert_eq!(code.codeword_len(), 16);
    let row = numbers(&[3, 1, 4, 1]);
    let cw = code.encode(&row).unwrap();
    assert_eq!(cw.len(), 16);
    let poly = DensePolynomial::from_coefficients_vec(row.iter().map(ark_of).collect());
    let domain = GeneralEvaluationDomain::<ArkFr>::new(16).unwrap();
    for j in 0..16 {
        assert_eq!(ark_of(&cw[j]), poly.evaluate(&domain.element(j)));
    }
    assert_eq!(cw[0], Fr::from_u64(9));
}

#[test]
fn codeword_length_is_rounded_up_to_a_power_of_two() {
    let code = ReedSolomon::new(3, 3).unwrap();
    assert_eq!(code.codeword_len(), 16);
    assert_eq!(code.encode(&numbers(&[1, 2, 3])).unwrap().len(), 16);
}

#[test]
fn rows_of_another_length_are_not_encoded() {
    let code = ReedSolomon::new(4, 2).unwrap();
    assert_eq!(code.encode(&numbers(&[1, 2, 3])), Err(Error::InvalidInputLength));
    assert_eq!(code.encode(&numbers(&[1, 2, 3, 4, 5])), Err(Error::InvalidInputLength));
    assert_eq!(code.encode(&Vec::new()), Err(Error::InvalidInputLength));
    assert!(code.encode(&numbers(&[1, 2, 3, 4])).is_ok());
}

#[test]
fn codes_without_redundancy_are_refused() {
    assert_eq!(ReedSolomon::new(4, 1), Err(Error::InvalidParameters));
    assert_eq!(ReedSolomon::new(0, 4), Err(Error::InvalidParameters));
    assert_eq!(ReedSolomon::new(1 << 20, 1 << 20), Err(Error::InvalidParameters));
    assert!(ReedSolomon::new(1 << 15, 1 << 15).is_ok());
}

#[test]
fn encoding_is_deterministic_and_linear() {
    let code = ReedSolomon::new(4, 2).unwrap();
    let a = numbers(&[5, 0, 7, 11]);
    let b = numbers(&[1, 2, 3, 4]);
    let sum: Vec<Fr> = a.iter().zip(b.iter()).map(|(x, y)| x.add(y)).collect();
    let ca = code.encode(&a).unwrap();
    let cb = code.encode(&b).unwrap();
    assert_eq!(code.encode(&a).unwrap(), ca);
    let cs = code.encode(&sum).unwrap();
    for j in 0..8 {
        assert_eq!(cs[j], ca[j].add(&cb[j]));
    }
}

#[test]
fn distinct_rows_differ_in_most_positions() {
    let code = ReedSolomon::new(4, 4).unwrap();
    let rows = [
        numbers(&[0, 0, 0, 0]),
        numbers(&[1, 0, 0, 0]),
        numbers(&[0, 1, 0, 0]),
        numbers(&[1, 1, 1, 1]),
        numbers(&[9, 8, 7, 6]),
        numbers(&[9, 8, 7, 5]),
    ];
    for (i, a) in rows.iter().enumerate() {
        for b in rows.iter().skip(i + 1) {
            let ca = code.encode(a).unwrap();
            let cb = code.encode(b).unwrap();
            let distance = ca.iter().zip(cb.iter()).filter(|(x, y)| x != y).count();
            assert!(distance >= 16 - 4 + 1);
        }
    }
}

#[test]
fn a_single_polynomial_is_proved_and_checked() {
    let pp = LigeroPCParams::new(128, 4, true, (), (), ());
    let coeffs = numbers(&[3, 0, 2, 5, 1]);
    let poly = LabeledPolynomial::new("p".to_string(), coeffs.clone(), None, None);
    let (c, st) = commit(&pp, &vec![poly.clone()]).unwrap();
    assert_eq!((c.n_rows, c.n_cols, c.n_ext_cols, c.n_polys), (2, 4, 16, 1));
    assert_eq!(c.root.len(), 32);
    let sec = pp.security();
    assert_eq!((sec.distance_num, sec.distance_den), (3, 4));
    let t = query_count(sec.sec_param, (sec.distance_num, sec.distance_den), c.n_ext_cols).unwrap();
    assert_eq!(t, 16);
    let z = Fr::from_u64(7);
    let value = poly.evaluate(&z);
    assert_eq!(value, Fr::from_u64(3 + 2 * 49 + 5 * 343 + 2401));
    let ark_poly = DensePolynomial::from_coefficients_vec(coeffs.iter().map(ark_of).collect());
    assert_eq!(value, fr_of(ark_poly.evaluate(&ArkFr::from(7u64))));
    let ch = Challenges {
        indices: all_columns(16),
        well_formedness: Some((numbers(&[11, 13]), all_columns(16))),
    };
    let proof = open_with_challenges(&pp.security(), &c, &st, 0, &z, &ch).unwrap();
    assert_eq!(proof.opening.v.len(), 4);
    assert_eq!(proof.opening.columns.len(), 16);
    assert_eq!(check_with_challenges(&pp, &c, 0, &z, &value, &proof, &ch), Ok(true));
    let wrong = value.add(&Fr::one());
    assert_eq!(check_with_challenges(&pp, &c, 0, &z, &wrong, &proof, &ch), Ok(false));
}

fn committed_pair() -> (
    LigeroPCParams,
    poly_commit::commit::Commitment,
    poly_commit::commit::CommitmentState,
    LabeledPolynomial,
) {
    let pp = LigeroPCParams::new(128, 2, true, (), (), ());
    let poly = LabeledPolynomial::new("p".to_string(), numbers(&[3, 0, 2, 5]), None, None);
    let (c, st) = commit(&pp, &vec![poly.clone()]).unwrap();
    (pp, c, st, poly)
}

#[test]
fn every_check_fails_with_its_own_error() {
    let (pp, c, st, poly) = committed_pair();
    assert_eq!((c.n_rows, c.n_cols, c.n_ext_cols), (2, 2, 4));
    let z = Fr::from_u64(5);
    let value = poly.evaluate(&z);
    let ch = Challenges {
        indices: vec![2, 0, 3, 1],
        well_formedness: Some((numbers(&[6, 8]), vec![0, 1, 2, 3])),
    };
    let proof = open_with_challenges(&pp.security(), &c, &st, 0, &z, &ch).unwrap();
    let check = |p: &poly_commit::opening::Proof, ch: &Challenges| {
        check_with_challenges(&pp, &c, 0, &z, &value, p, ch)
    };
    assert_eq!(check(&proof, &ch), Ok(true));

    let mut short = proof.clone();
    short.opening.v.pop();
    assert_eq!(check(&short, &ch), Err(Error::InvalidInputLength));
    let mut fewer = proof.clone();
    fewer.opening.columns.pop();
    assert_eq!(check(&fewer, &ch), Err(Error::InvalidInputLength));
    let mut ragged = proof.clone();
    ragged.opening.columns[1].push(Fr::zero());
    assert_eq!(check(&ragged, &ch), Err(Error::InvalidInputLength));

    let other = Challenges { indices: vec![2, 0, 1, 3], well_formedness: ch.well_formedness.clone() };
    assert_eq!(check(&proof, &other), Err(Error::TranscriptDesync));
    let beyond = Challenges { indices: vec![2, 0, 3, 4], well_formedness: ch.well_formedness.clone() };
    assert_eq!(check(&proof, &beyond), Err(Error::TranscriptDesync));
    let missing = Challenges { indices: ch.indices.clone(), well_formedness: None };
    assert_eq!(check(&proof, &missing), Err(Error::TranscriptDesync));

    let mut swapped = proof.clone();
    swapped.opening.columns.swap(0, 1);
    assert_eq!(check(&swapped, &ch), Err(Error::MerkleMismatch));

    let mut row = proof.clone();
    row.opening.v[0] = row.opening.v[0].add(&Fr::one());
    assert_eq!(check(&row, &ch), Err(Error::CodewordInconsistency));

    let mut wf = proof.clone();
    let mut second = wf.well_formedness.clone().unwrap();
    second.v[1] = second.v[1].add(&Fr::one());
    wf.well_formedness = Some(second);
    assert_eq!(check(&wf, &ch), Err(Error::ProximityFailure));
    let mut none = proof.clone();
    none.well_formedness = None;
    assert_eq!(check(&none, &ch), Err(Error::InvalidInputLength));

    let mut shape = c.clone();
    shape.n_ext_cols = 8;
    assert_eq!(
        check_with_challenges(&pp, &shape, 0, &z, &value, &proof, &ch),
        Err(Error::InvalidParameters)
    );
    assert_eq!(
        check_with_challenges(&pp, &c, 1, &z, &value, &proof, &ch),
        Err(Error::InvalidParameters)
    );
    let weak = LigeroPCParams::new(300, 2, true, (), (), ());
    assert_eq!(
        check_with_challenges(&weak, &c, 0, &z, &value, &proof, &ch),
        Err(Error::InvalidParameters)
    );
    assert_eq!(check_with_challenges(&pp, &c, 0, &z, &Fr::zero(), &proof, &ch), Ok(false));
}

#[test]
fn openings_are_refused_for_wrong_challenges() {
    let (pp, c, st, _) = committed_pair();
    let sec = pp.security();
    let z = Fr::from_u64(5);
    let good = Challenges { indices: vec![1], well_formedness: Some((numbers(&[6, 8]), vec![0])) };
    assert!(open_with_challenges(&sec, &c, &st, 0, &z, &good).is_ok());
    assert_eq!(
        open_with_challenges(&sec, &c, &st, 1, &z, &good).err(),
        Some(Error::InvalidParameters)
    );
    let beyond = Challenges { indices: vec![4], well_formedness: good.well_formedness.clone() };
    assert_eq!(
        open_with_challenges(&sec, &c, &st, 0, &z, &beyond).err(),
        Some(Error::TranscriptDesync)
    );
    let missing = Challenges { indices: vec![1], well_formedness: None };
    assert_eq!(
        open_with_challenges(&sec, &c, &st, 0, &z, &missing).err(),
        Some(Error::TranscriptDesync)
    );
    let long = Challenges { indices: vec![1], well_formedness: Some((numbers(&[6, 8, 1]), vec![0])) };
    assert_eq!(
        open_with_challenges(&sec, &c, &st, 0, &z, &long).err(),
        Some(Error::InvalidInputLength)
    );
    let mut shape = c.clone();
    shape.n_rows = 4;
    assert_eq!(
        open_with_challenges(&sec, &shape, &st, 0, &z, &good).err(),
        Some(Error::InvalidParameters)
    );
    assert_eq!(st.combine(&numbers(&[1])).err(), Some(Error::InvalidInputLength));
    assert_eq!(st.combine(&numbers(&[1, 10])), Ok(numbers(&[23, 50])));
    assert_eq!((st.row_count(), st.col_count(), st.codeword_len()), (2, 2, 4));
}

#[test]
fn commitments_are_refused_for_bad_polynomials_and_keys() {
    let pp = LigeroPCParams::new(128, 4, true, (), (), ());
    assert_eq!(commit(&pp, &Vec::new()).err(), Some(Error::InvalidInputLength));
    let mut x5 = numbers(&[0, 0, 0, 0, 0, 1]);
    let bad = LabeledPolynomial::new("x^5".to_string(), x5.clone(), Some(2), None);
    assert_eq!(commit(&pp, &vec![bad]).err(), Some(Error::InvalidInputLength));
    x5[5] = Fr::zero();
    let fine = LabeledPolynomial::new("0".to_string(), x5, Some(2), None);
    let (c, _) = commit(&pp, &vec![fine.clone()]).unwrap();
    assert_eq!((c.n_rows, c.n_cols), (2, 2));
    let no_rate = LigeroPCParams::new(128, 1, true, (), (), ());
    assert_eq!(commit(&no_rate, &vec![fine.clone()]).err(), Some(Error::InvalidParameters));
    let huge = LabeledPolynomial::new("h".to_string(), numbers(&[1]), Some(1 << 30), None);
    assert_eq!(commit(&pp, &vec![huge]).err(), Some(Error::InvalidParameters));
}

#[test]
fn all_polynomials_of_a_commitment_are_proved_and_checked_together() {
    let pp = LigeroPCParams::new(128, 2, false, (), (), ());
    let sec = pp.security();
    let p = LabeledPolynomial::new("p".to_string(), numbers(&[3, 0, 2, 5]), None, None);
    let q = LabeledPolynomial::new("q".to_string(), numbers(&[1, 1]), Some(3), None);
    let (c, st) = commit(&pp, &vec![p.clone(), q.clone()]).unwrap();
    assert_eq!((c.n_polys, c.n_rows, c.n_cols, c.n_ext_cols), (2, 4, 2, 4));
    let code = code_for(&pp, &c).unwrap();
    let z = Fr::from_u64(10);
    let values = vec![p.evaluate(&z), q.evaluate(&z)];
    assert_eq!(values, numbers(&[5203, 11]));
    let chs = vec![
        Challenges { indices: vec![0, 1, 2, 3], well_formedness: None },
        Challenges { indices: vec![3, 2, 1, 0], well_formedness: None },
    ];
    let proofs = open_all(&sec, &c, &st, &z, &chs).unwrap();
    assert_eq!(proofs.len(), 2);
    assert_eq!(check_all(&code, &sec, &c, &z, &values, &proofs, &chs), Ok(true));

    let wrong_second = vec![values[0], Fr::zero()];
    assert_eq!(check_all(&code, &sec, &c, &z, &wrong_second, &proofs, &chs), Ok(false));
    let mut broken = proofs.clone();
    broken[1].opening.v[0] = Fr::zero();
    assert_eq!(
        check_all(&code, &sec, &c, &z, &values, &broken, &chs),
        Err(Error::CodewordInconsistency)
    );
    let wrong_first = vec![Fr::zero(), values[1]];
    assert_eq!(check_all(&code, &sec, &c, &z, &wrong_first, &broken, &chs), Ok(false));
    assert_eq!(
        check_all(&code, &sec, &c, &z, &values[..1].to_vec(), &proofs, &chs),
        Err(Error::InvalidInputLength)
    );
    assert_eq!(open_all(&sec, &c, &st, &z, &chs[..1].to_vec()).err(), Some(Error::InvalidInputLength));
    let beyond = vec![chs[0].clone(), Challenges { indices: vec![9], well_formedness: None }];
    assert_eq!(open_all(&sec, &c, &st, &z, &beyond).err(), Some(Error::TranscriptDesync));
}
