use ark_bls12_381::Fr as ArkFr;
use ark_crypto_primitives::sponge::poseidon::{PoseidonConfig, PoseidonSponge};
use ark_crypto_primitives::sponge::CryptographicSponge;
use ark_ff::{AdditiveGroup, BigInt, Field, PrimeField, UniformRand};
use ark_poly::univariate::DensePolynomial;
use ark_poly::{DenseUVPolynomial, Polynomial};
use ark_std::rand::distributions::{Distribution, Uniform};
use ark_std::test_rng;
use poly_commit::commit::{commit, Commitment, CommitmentState};
use poly_commit::error::Error;
use poly_commit::field::Fr;
use poly_commit::layout::LabeledPolynomial;
use poly_commit::opening::{code_for, Proof};
use poly_commit::params::{setup, trim, LigeroPCParams};
use poly_commit::protocol::{outcome, Outcome, Prover, Verifier};
use poly_commit::transcript::{Action, Phase, Reply};
use rand_chacha::rand_core::SeedableRng;
use rand_chacha::ChaCha20Rng;

fn ark_of(x: &Fr) -> ArkFr {
    ArkFr::from_bigint(BigInt::new(x.to_limbs())).unwrap()
}

fn fr_of(x: ArkFr) -> Fr {
    Fr::from_limbs(x.into_bigint().0).unwrap()
}

fn test_sponge() -> PoseidonSponge<ArkFr> {
    let full_rounds = 8;
    let partial_rounds = 31;
    let alpha = 17;
    let mds = vec![
        vec![ArkFr::ONE, ArkFr::ZERO, ArkFr::ONE],
        vec![ArkFr::ONE, ArkFr::ONE, ArkFr::ZERO],
        vec![ArkFr::ZERO, ArkFr::ONE, ArkFr::ONE],
    ];
    let mut ark = Vec::new();
    let mut rng = ChaCha20Rng::seed_from_u64(0x5eed);
    for _ in 0..(full_rounds + partial_rounds) {
        let mut row = Vec::new();
        for _ in 0..3 {
            row.push(ArkFr::rand(&mut rng));
        }
        ark.push(row);
    }
    let config = PoseidonConfig::new(full_rounds, partial_rounds, alpha, mds, ark, 2, 1);
    PoseidonSponge::new(&config)
}

fn perform(sponge: &mut PoseidonSponge<ArkFr>, action: Action) -> Option<Reply> {
    match action {
        Action::Absorb { bytes, fields } => {
            if !bytes.is_empty() {
                sponge.absorb(&bytes);
            }
            let fields: Vec<ArkFr> = fields.iter().map(ark_of).collect();
            sponge.absorb(&fields);
            Some(Reply::Done)
        }
        Action::SqueezeBytes(n) => Some(Reply::Bytes(sponge.squeeze_bytes(n))),
        Action::SqueezeFields(n) => Some(Reply::Fields(
            sponge.squeeze_field_elements::<ArkFr>(n).into_iter().map(fr_of).collect(),
        )),
        Action::Finish => None,
    }
}

fn open(
    ck: &LigeroPCParams,
    c: &Commitment,
    st: &CommitmentState,
    which: usize,
    z: &Fr,
    value: &Fr,
    sponge: &mut PoseidonSponge<ArkFr>,
) -> Result<Proof, Error> {
    let sec = ck.security();
    let mut prover = Prover::start(&sec, c, st, which, z, value)?;
    let mut reply = Reply::Done;
    loop {
        let (next, action) = prover.step(st, reply);
        prover = next;
        match perform(sponge, action?) {
            Some(r) => reply = r,
            None => break,
        }
    }
    prover.finish(&sec, c, st)
}

fn check(
    vk: &LigeroPCParams,
    c: &Commitment,
    which: usize,
    z: &Fr,
    value: &Fr,
    proof: &Proof,
    sponge: &mut PoseidonSponge<ArkFr>,
) -> Result<bool, Error> {
    let sec = vk.security();
    let code = code_for(vk, c)?;
    let mut verifier = Verifier::start(&sec, c, which, z, value, proof.clone())?;
    let mut reply = Reply::Done;
    loop {
        let (next, action) = verifier.step(reply);
        verifier = next;
        match perform(sponge, action?) {
            Some(r) => reply = r,
            None => break,
        }
    }
    verifier.finish(&code, &sec, c)
}

fn rand_poly(degree: usize, _: Option<usize>, rng: &mut ChaCha20Rng) -> Vec<Fr> {
    DensePolynomial::<ArkFr>::rand(degree, rng).coeffs().iter().map(|x| fr_of(*x)).collect()
}

fn constant_poly(_: usize, _: Option<usize>, rng: &mut ChaCha20Rng) -> Vec<Fr> {
    vec![fr_of(ArkFr::rand(rng))]
}

fn rand_point(_: Option<usize>, rng: &mut ChaCha20Rng) -> Fr {
    fr_of(ArkFr::rand(rng))
}

struct TestInfo {
    num_iters: usize,
    max_degree: Option<usize>,
    supported_degree: Option<usize>,
    num_polynomials: usize,
    enforce_degree_bounds: bool,
    max_num_queries: usize,
    num_equations: Option<usize>,
}

fn test_template(
    info: TestInfo,
    make_poly: fn(usize, Option<usize>, &mut ChaCha20Rng) -> Vec<Fr>,
    make_point: fn(Option<usize>, &mut ChaCha20Rng) -> Fr,
) -> Result<(), Error> {
    let rng = &mut ChaCha20Rng::from_rng(test_rng()).unwrap();
    let sponge = test_sponge();
    for _ in 0..info.num_iters {
        let max_degree =
            info.max_degree.unwrap_or_else(|| Uniform::from(8..=64).sample(rng));
        let pp = setup(128);
        let supported_degree =
            info.supported_degree.unwrap_or_else(|| Uniform::from(1..=max_degree).sample(rng));
        assert!(max_degree >= supported_degree, "max_degree < supported_degree");
        let mut polynomials = Vec::new();
        for i in 0..info.num_polynomials {
            let degree = Uniform::from(1..=supported_degree).sample(rng);
            let coeffs = make_poly(degree, None, rng);
            let degree_bound = if info.enforce_degree_bounds {
                Some(Uniform::from(degree..=supported_degree).sample(rng))
            } else {
                None
            };
            polynomials.push(LabeledPolynomial::new(format!("Test{}", i), coeffs, degree_bound, None));
        }
        let (ck, vk) = trim(&pp, supported_degree);
        let (c, st) = commit(&ck, &polynomials)?;
        let num_points = Uniform::from(1..=info.max_num_queries).sample(rng);
        for _ in 0..num_points {
            let point = make_point(None, rng);
            let mut values = Vec::new();
            for (which, p) in polynomials.iter().enumerate() {
                let value = p.evaluate(&point);
                let proof = open(&ck, &c, &st, which, &point, &value, &mut sponge.clone())?;
                let ok = check(&vk, &c, which, &point, &value, &proof, &mut sponge.clone())?;
                assert!(ok, "proof of {} was rejected", p.label);
                values.push(value);
            }
            if let Some(num_equations) = info.num_equations {
                for _ in 0..num_equations {
                    let mut combined: Vec<Fr> = Vec::new();
                    let mut claimed = Fr::zero();
                    for (which, p) in polynomials.iter().enumerate() {
                        let coeff = fr_of(ArkFr::rand(rng));
                        claimed = claimed.add(&coeff.mul(&values[which]));
                        for (k, x) in p.coeffs.iter().enumerate() {
                            if combined.len() <= k {
                                combined.push(Fr::zero());
                            }
                            combined[k] = combined[k].add(&coeff.mul(x));
                        }
                    }
                    let lc = LabeledPolynomial::new("lc".to_string(), combined, None, None);
                    assert_eq!(lc.evaluate(&point), claimed);
                }
            }
        }
    }
    Ok(())
}

#[test]
fn test_construction() {
    let degree = 4;
    let check_well_formedness = true;
    let pp = LigeroPCParams::new(128, 4, check_well_formedness, (), (), ());
    let (ck, vk) = trim(&pp, 0);
    let rand_chacha = &mut ChaCha20Rng::from_rng(test_rng()).unwrap();
    let labeled_poly =
        LabeledPolynomial::new("test".to_string(), rand_poly(degree, None, rand_chacha), None, None);
    let mut test_sponge = test_sponge();
    let (c, rands) = commit(&ck, &vec![labeled_poly.clone()]).unwrap();
    let point = fr_of(ArkFr::rand(rand_chacha));
    let value = labeled_poly.evaluate(&point);
    let proof =
        open(&ck, &c, &rands, 0, &point, &value, &mut (test_sponge.clone())).unwrap();
    assert!(check(&vk, &c, 0, &point, &value, &proof, &mut test_sponge).unwrap());
}

#[test]
fn single_poly_test() {
    let info = TestInfo {
        num_iters: 100,
        max_degree: None,
        supported_degree: None,
        num_polynomials: 1,
        enforce_degree_bounds: false,
        max_num_queries: 1,
        num_equations: None,
    };
    test_template(info, rand_poly, rand_point).expect("test failed for bls12-381");
}

#[test]
fn constant_poly_test() {
    let info = TestInfo {
        num_iters: 100,
        max_degree: None,
        supported_degree: None,
        num_polynomials: 1,
        enforce_degree_bounds: false,
        max_num_queries: 1,
        num_equations: None,
    };
    test_template(info, constant_poly, rand_point).expect("test failed for bls12-381");
}

#[test]
fn quadratic_poly_degree_bound_multiple_queries_test() {
    let info = TestInfo {
        num_iters: 100,
        max_degree: None,
        supported_degree: Some(3),
        num_polynomials: 1,
        enforce_degree_bounds: true,
        max_num_queries: 2,
        num_equations: None,
    };
    test_template(info, rand_poly, rand_point).expect("test failed for bls12-381");
}

#[test]
fn linear_poly_degree_bound_test() {
    let info = TestInfo {
        num_iters: 100,
        max_degree: None,
        supported_degree: Some(2),
        num_polynomials: 1,
        enforce_degree_bounds: true,
        max_num_queries: 1,
        num_equations: None,
    };
    test_template(info, rand_poly, rand_point).expect("test failed for bls12-381");
}

#[test]
fn single_poly_degree_bound_test() {
    let info = TestInfo {
        num_iters: 100,
        max_degree: None,
        supported_degree: None,
        num_polynomials: 1,
        enforce_degree_bounds: true,
        max_num_queries: 1,
        num_equations: None,
    };
    test_template(info, rand_poly, rand_point).expect("test failed for bls12-381");
}

#[test]
fn single_poly_degree_bound_multiple_queries_test() {
    let info = TestInfo {
        num_iters: 100,
        max_degree: None,
        supported_degree: None,
        num_polynomials: 1,
        enforce_degree_bounds: true,
        max_num_queries: 2,
        num_equations: None,
    };
    test_template(info, rand_poly, rand_point).expect("test failed for bls12-381");
}

#[test]
fn two_polys_degree_bound_single_query_test() {
    let info = TestInfo {
        num_iters: 100,
        max_degree: None,
        supported_degree: None,
        num_polynomials: 2,
        enforce_degree_bounds: true,
        max_num_queries: 1,
        num_equations: None,
    };
    test_template(info, rand_poly, rand_point).expect("test failed for bls12-381");
}

#[test]
fn full_end_to_end_test() {
    let info = TestInfo {
        num_iters: 15,
        max_degree: None,
        supported_degree: None,
        num_polynomials: 10,
        enforce_degree_bounds: true,
        max_num_queries: 5,
        num_equations: None,
    };
    test_template(info, rand_poly, rand_point).expect("test failed for bls12-381");
    println!("Finished bls12-381");
}

#[test]
fn single_equation_test() {
    let info = TestInfo {
        num_iters: 100,
        max_degree: None,
        supported_degree: None,
        num_polynomials: 1,
        enforce_degree_bounds: false,
        max_num_queries: 1,
        num_equations: Some(1),
    };
    test_template(info, rand_poly, rand_point).expect("test failed for bls12-381");
    println!("Finished bls12-381");
}

#[test]
fn two_equation_test() {
    let info = TestInfo {
        num_iters: 100,
        max_degree: None,
        supported_degree: None,
        num_polynomials: 2,
        enforce_degree_bounds: false,
        max_num_queries: 1,
        num_equations: Some(2),
    };
    test_template(info, rand_poly, rand_point).expect("test failed for bls12-381");
    println!("Finished bls12-381");
}

#[test]
fn two_equation_degree_bound_test() {
    let info = TestInfo {
        num_iters: 100,
        max_degree: None,
        supported_degree: None,
        num_polynomials: 2,
        enforce_degree_bounds: true,
        max_num_queries: 1,
        num_equations: Some(2),
    };
    test_template(info, rand_poly, rand_point).expect("test failed for bls12-381");
    println!("Finished bls12-381");
}

#[test]
fn full_end_to_end_equation_test() {
    let info = TestInfo {
        num_iters: 15,
        max_degree: None,
        supported_degree: None,
        num_polynomials: 10,
        enforce_degree_bounds: true,
        max_num_queries: 5,
        num_equations: Some(10),
    };
    test_template(info, rand_poly, rand_point).expect("test failed for bls12-381");
    println!("Finished bls12-381");
}

#[test]
#[should_panic]
fn bad_degree_bound_test() {
    let rng = &mut ChaCha20Rng::from_rng(test_rng()).unwrap();
    let pp = setup(128);
    let (ck, _) = trim(&pp, 2);
    let mut coeffs = vec![Fr::zero(); 6];
    coeffs[5] = Fr::one();
    let _ = rand_point(None, rng);
    let poly = LabeledPolynomial::new("x^5".to_string(), coeffs, Some(2), None);
    commit(&ck, &vec![poly]).expect("test failed for bls12-381");
    println!("Finished bls12-381");
}

#[test]
fn zero_polynomial_opens_to_zero_at_seven() {
    let pp = setup(128);
    let poly = LabeledPolynomial::new("zero".to_string(), Vec::new(), None, None);
    let (c, st) = commit(&pp, &vec![poly.clone()]).unwrap();
    assert_eq!((c.n_rows, c.n_cols, c.n_ext_cols, c.n_polys), (1, 1, 4, 1));
    let z = Fr::from_u64(7);
    let value = poly.evaluate(&z);
    assert_eq!(value, Fr::zero());
    let sponge = test_sponge();
    let proof = open(&pp, &c, &st, 0, &z, &value, &mut sponge.clone()).unwrap();
    assert_eq!(check(&pp, &c, 0, &z, &Fr::zero(), &proof, &mut sponge.clone()), Ok(true));
    assert!(check(&pp, &c, 0, &z, &Fr::one(), &proof, &mut sponge.clone()) != Ok(true));
}

#[test]
fn corrupted_column_data_is_rejected() {
    let rng = &mut ChaCha20Rng::seed_from_u64(42);
    let pp = LigeroPCParams::new(128, 4, true, (), (), ());
    let poly = LabeledPolynomial::new("p".to_string(), rand_poly(4, None, rng), None, None);
    let (c, st) = commit(&pp, &vec![poly.clone()]).unwrap();
    let z = rand_point(None, rng);
    let value = poly.evaluate(&z);
    let sponge = test_sponge();
    let proof = open(&pp, &c, &st, 0, &z, &value, &mut sponge.clone()).unwrap();
    assert_eq!(check(&pp, &c, 0, &z, &value, &proof, &mut sponge.clone()), Ok(true));
    for j in 0..proof.opening.columns.len() {
        let mut bad = proof.clone();
        let mut limbs = bad.opening.columns[j][0].to_limbs();
        limbs[0] ^= 1;
        bad.opening.columns[j][0] = Fr::from_limbs(limbs).unwrap();
        let verdict = check(&pp, &c, 0, &z, &value, &bad, &mut sponge.clone());
        assert_eq!(verdict, Err(Error::MerkleMismatch));
    }
    let mut bad = proof.clone();
    bad.opening.paths[0].auth_path[0][0] ^= 1;
    assert_eq!(
        check(&pp, &c, 0, &z, &value, &bad, &mut sponge.clone()),
        Err(Error::MerkleMismatch)
    );
}

#[test]
fn a_changed_combined_row_is_rejected() {
    let rng = &mut ChaCha20Rng::seed_from_u64(43);
    let pp = LigeroPCParams::new(128, 4, false, (), (), ());
    let poly = LabeledPolynomial::new("p".to_string(), rand_poly(9, None, rng), None, None);
    let (c, st) = commit(&pp, &vec![poly.clone()]).unwrap();
    let z = rand_point(None, rng);
    let value = poly.evaluate(&z);
    let sponge = test_sponge();
    let proof = open(&pp, &c, &st, 0, &z, &value, &mut sponge.clone()).unwrap();
    assert!(proof.well_formedness.is_none());
    let mut bad = proof.clone();
    bad.opening.v[1] = bad.opening.v[1].add(&Fr::one());
    let verdict = check(&pp, &c, 0, &z, &value, &bad, &mut sponge.clone());
    assert!(matches!(
        verdict,
        Err(Error::CodewordInconsistency) | Err(Error::TranscriptDesync)
    ));
}

#[test]
fn a_changed_well_formedness_row_is_a_proximity_failure() {
    let rng = &mut ChaCha20Rng::seed_from_u64(44);
    let pp = LigeroPCParams::new(128, 2, true, (), (), ());
    let poly = LabeledPolynomial::new("p".to_string(), rand_poly(3, None, rng), None, None);
    let (c, st) = commit(&pp, &vec![poly.clone()]).unwrap();
    assert_eq!((c.n_rows, c.n_cols, c.n_ext_cols), (2, 2, 4));
    let z = rand_point(None, rng);
    let value = poly.evaluate(&z);
    let sponge = test_sponge();
    let proof = open(&pp, &c, &st, 0, &z, &value, &mut sponge.clone()).unwrap();
    let mut bad = proof.clone();
    let mut wf = bad.well_formedness.unwrap();
    wf.v[0] = wf.v[0].add(&Fr::one());
    bad.well_formedness = Some(wf);
    let verdict = check(&pp, &c, 0, &z, &value, &bad, &mut sponge.clone());
    assert!(matches!(verdict, Err(Error::ProximityFailure) | Err(Error::TranscriptDesync)));
    let mut none = proof.clone();
    none.well_formedness = None;
    assert_eq!(
        check(&pp, &c, 0, &z, &value, &none, &mut sponge.clone()),
        Err(Error::InvalidInputLength)
    );
}

#[test]
fn a_proof_for_another_commitment_is_rejected() {
    let rng = &mut ChaCha20Rng::seed_from_u64(45);
    let pp = setup(128);
    let p = LabeledPolynomial::new("p".to_string(), rand_poly(5, None, rng), None, None);
    let q = LabeledPolynomial::new("q".to_string(), rand_poly(5, None, rng), None, None);
    let (cp, stp) = commit(&pp, &vec![p.clone()]).unwrap();
    let (cq, _) = commit(&pp, &vec![q]).unwrap();
    assert_ne!(cp.root, cq.root);
    let z = rand_point(None, rng);
    let value = p.evaluate(&z);
    let sponge = test_sponge();
    let proof = open(&pp, &cp, &stp, 0, &z, &value, &mut sponge.clone()).unwrap();
    assert!(check(&pp, &cq, 0, &z, &value, &proof, &mut sponge.clone()) != Ok(true));
}

#[test]
fn two_polynomials_share_one_matrix() {
    let rng = &mut ChaCha20Rng::seed_from_u64(46);
    let pp = setup(128);
    let p = LabeledPolynomial::new("p".to_string(), rand_poly(6, None, rng), None, None);
    let q = LabeledPolynomial::new("q".to_string(), rand_poly(2, None, rng), None, None);
    let (c, st) = commit(&pp, &vec![p.clone(), q.clone()]).unwrap();
    assert_eq!((c.n_polys, c.n_cols, c.n_rows, c.n_ext_cols), (2, 4, 4, 16));
    let z1 = rand_point(None, rng);
    let z2 = rand_point(None, rng);
    let v1 = p.evaluate(&z1);
    let v2 = q.evaluate(&z2);
    let mut prover_sponge = test_sponge();
    let proof1 = open(&pp, &c, &st, 0, &z1, &v1, &mut prover_sponge).unwrap();
    let proof2 = open(&pp, &c, &st, 1, &z2, &v2, &mut prover_sponge).unwrap();
    let mut verifier_sponge = test_sponge();
    assert_eq!(check(&pp, &c, 0, &z1, &v1, &proof1, &mut verifier_sponge), Ok(true));
    assert_eq!(check(&pp, &c, 1, &z2, &v2, &proof2, &mut verifier_sponge), Ok(true));
    let mut fresh = test_sponge();
    assert!(check(&pp, &c, 1, &z2, &v2, &proof2, &mut fresh) != Ok(true));
    assert!(check(&pp, &c, 1, &z2, &v1, &proof2, &mut test_sponge()) != Ok(true));
    let mut again = test_sponge();
    assert!(check(&pp, &c, 0, &z1, &v2, &proof1, &mut again) != Ok(true));
}

#[test]
fn values_agree_with_ark_poly() {
    let rng = &mut ChaCha20Rng::seed_from_u64(47);
    let coeffs = rand_poly(17, None, rng);
    let z = rand_point(None, rng);
    let poly = LabeledPolynomial::new("p".to_string(), coeffs.clone(), None, None);
    let ark = DensePolynomial::from_coefficients_vec(coeffs.iter().map(ark_of).collect());
    assert_eq!(poly.evaluate(&z), fr_of(ark.evaluate(&ark_of(&z))));
}

#[test]
fn steps_out_of_turn_are_refused() {
    let pp = setup(128);
    let poly =
        LabeledPolynomial::new("p".to_string(), vec![Fr::from_u64(1), Fr::from_u64(2)], None, None);
    let (c, st) = commit(&pp, &vec![poly.clone()]).unwrap();
    let z = Fr::from_u64(3);
    let value = poly.evaluate(&z);
    assert_eq!(value, Fr::from_u64(7));
    let sec = pp.security();
    let prover = Prover::start(&sec, &c, &st, 0, &z, &value).unwrap();
    assert_eq!(prover.session.current_phase(), Phase::Committed);
    assert_eq!(prover.finish(&sec, &c, &st).err(), Some(Error::TranscriptDesync));
    let (prover, action) = prover.step(&st, Reply::Bytes(vec![0, 0, 0, 0]));
    assert_eq!(action.err(), Some(Error::TranscriptDesync));
    assert_eq!(prover.session.current_phase(), Phase::Committed);
    let (prover, action) = prover.step(&st, Reply::Done);
    assert!(matches!(action, Ok(Action::Absorb { .. })));
    assert_eq!(prover.session.current_phase(), Phase::RowChallengeIssued);
    let (prover, _) = prover.step(&st, Reply::Done);
    assert_eq!(prover.session.current_phase(), Phase::RowCombined);
    let (prover, action) = prover.step(&st, Reply::Done);
    assert!(matches!(action, Ok(Action::SqueezeBytes(4))));
    assert_eq!(prover.session.current_phase(), Phase::ColumnChallengeIssued);
    let (prover, action) = prover.step(&st, Reply::Bytes(vec![1, 2, 3]));
    assert_eq!(action.err(), Some(Error::TranscriptDesync));
    let (prover, action) = prover.step(&st, Reply::Bytes(vec![5, 0, 0, 0]));
    assert!(matches!(action, Ok(Action::SqueezeBytes(4))));
    let (prover, action) = prover.step(&st, Reply::Bytes(vec![5, 0, 0, 0]));
    assert!(matches!(action, Ok(Action::SqueezeBytes(4))));
    assert_eq!(prover.session.current_phase(), Phase::ColumnChallengeIssued);
    assert!(prover.session.challenges().is_none());
    assert!(Prover::start(&sec, &c, &st, 1, &z, &value).is_err());
}

#[test]
fn a_changed_coefficient_behind_a_published_root_is_detected() {
    let rng = &mut ChaCha20Rng::seed_from_u64(48);
    let pp = LigeroPCParams::new(128, 4, true, (), (), ());
    let coeffs = rand_poly(7, None, rng);
    let honest = LabeledPolynomial::new("p".to_string(), coeffs.clone(), None, None);
    let (c, _) = commit(&pp, &vec![honest]).unwrap();
    for k in 0..coeffs.len() {
        let mut changed = coeffs.clone();
        changed[k] = changed[k].add(&Fr::one());
        let forged = LabeledPolynomial::new("p".to_string(), changed, None, None);
        let (other, st) = commit(&pp, &vec![forged.clone()]).unwrap();
        assert_ne!(other.root, c.root);
        let z = rand_point(None, rng);
        let value = forged.evaluate(&z);
        let sponge = test_sponge();
        let proof = open(&pp, &c, &st, 0, &z, &value, &mut sponge.clone()).unwrap();
        assert_eq!(
            check(&pp, &c, 0, &z, &value, &proof, &mut sponge.clone()),
            Err(Error::MerkleMismatch)
        );
        assert_eq!(check(&pp, &other, 0, &z, &value, &proof, &mut sponge.clone()).is_ok(), false);
    }
}

#[test]
fn everything_but_an_accepted_proof_is_a_rejection() {
    assert_eq!(outcome(&Ok(true)), Outcome::Verified);
    assert_eq!(outcome(&Ok(false)), Outcome::Rejected);
    assert_eq!(outcome(&Err(Error::MerkleMismatch)), Outcome::Rejected);
    assert_eq!(outcome(&Err(Error::InvalidInputLength)), Outcome::Rejected);
    let pp = setup(128);
    let poly =
        LabeledPolynomial::new("p".to_string(), vec![Fr::from_u64(1), Fr::from_u64(2)], None, None);
    let (c, st) = commit(&pp, &vec![poly.clone()]).unwrap();
    let z = Fr::from_u64(3);
    let value = poly.evaluate(&z);
    let sponge = test_sponge();
    let proof = open(&pp, &c, &st, 0, &z, &value, &mut sponge.clone()).unwrap();
    let sec = pp.security();
    let code = code_for(&pp, &c).unwrap();
    let mut verifier = Verifier::start(&sec, &c, 0, &z, &value, proof).unwrap();
    assert_eq!(verifier.conclude(&code, &sec, &c), Outcome::Rejected);
    let mut replay = sponge.clone();
    let mut reply = Reply::Done;
    loop {
        let (next, action) = verifier.step(reply);
        verifier = next;
        match perform(&mut replay, action.unwrap()) {
            Some(r) => reply = r,
            None => break,
        }
    }
    assert_eq!(verifier.conclude(&code, &sec, &c), Outcome::Verified);
    verifier.proof.opening.v[0] = Fr::from_u64(999);
    assert_eq!(verifier.conclude(&code, &sec, &c), Outcome::Rejected);
}
