use sumcheck::field::Fp;
use sumcheck::multilinear::MultilinearEvalForm;
use sumcheck::sumcheck::{prove, verify, Proof};
use sumcheck::transcript::Transcript;
use sumcheck::Error;

fn fp_vec(values: &[u64]) -> Vec<Fp> {
    let mut out: Vec<Fp> = Vec::new();
    for v in values {
        out.push(Fp::from_u64(*v));
    }
    out
}

fn example_form() -> MultilinearEvalForm {
    // Two variables, corners 00 = 0, 01 = 0, 10 = 5, 11 = 7; true sum 12.
    MultilinearEvalForm::new(&fp_vec(&[0, 0, 5, 7])).unwrap()
}

#[test]
fn test_prove_then_verify_accepts() {
    let mel = example_form();
    let claimed = Fp::from_u64(12);
    let proof = prove(&mel, claimed).unwrap();
    assert_eq!(proof.claimed_sum(), claimed);
    assert_eq!(proof.round_count(), 2);
    assert_eq!(verify(&proof, &mel, claimed), Ok(()));
}

#[test]
fn test_verify_rejects_wrong_claim_at_round_zero() {
    let mel = example_form();
    let proof = prove(&mel, Fp::from_u64(12)).unwrap();
    // g_0(0) + g_0(1) is the true sum 12, which is not 13.
    assert_eq!(
        verify(&proof, &mel, Fp::from_u64(13)),
        Err(Error::RoundConsistencyFailure(0))
    );
}

#[test]
fn test_prove_rejects_inconsistent_claim() {
    let mel = example_form();
    assert_eq!(prove(&mel, Fp::from_u64(13)), Err(Error::InconsistentClaim));
}

#[test]
fn test_forged_sums_rejected() {
    // Statistical soundness, exercised over a sweep of forged sums: a proof
    // honestly built for the true sum never convinces the verifier of any
    // other sum.
    let mel = example_form();
    let proof = prove(&mel, Fp::from_u64(12)).unwrap();
    let mut k: u64 = 1;
    while k <= 40 {
        let forged = Fp::from_u64(12 + k);
        assert_eq!(
            verify(&proof, &mel, forged),
            Err(Error::RoundConsistencyFailure(0))
        );
        k += 1;
    }
}

#[test]
fn test_forged_round_polynomials_fail_oracle_check() {
    // A cheating prover can keep every round consistent with a forged sum by
    // replaying the verifier's transcript, but the final query against the
    // real polynomial exposes it.
    let mel = example_form();
    let forged = Fp::from_u64(13);
    let mut transcript = Transcript::init();
    transcript.append(mel.convert_to_bytes().as_slice());
    transcript.append(forged.to_be_bytes().as_slice());

    let g0 = MultilinearEvalForm::from_pair(Fp::zero(), forged);
    transcript.append(g0.convert_to_bytes().as_slice());
    let r0 = transcript.hash();
    // The claim after round zero: g_0(r0) = 0 + r0 * (forged - 0).
    let expected1 = r0.mul(forged);

    let g1 = MultilinearEvalForm::from_pair(Fp::zero(), expected1);
    transcript.append(g1.convert_to_bytes().as_slice());

    let proof = Proof::new(forged, vec![g0, g1]);
    assert_eq!(verify(&proof, &mel, forged), Err(Error::OracleMismatch));
}

#[test]
fn test_verify_rejects_malformed_round_polynomial() {
    let mel = example_form();
    let wide = MultilinearEvalForm::new(&fp_vec(&[1, 2, 3, 4])).unwrap();
    let pair = MultilinearEvalForm::from_pair(Fp::zero(), Fp::from_u64(12));
    let proof = Proof::new(Fp::from_u64(12), vec![pair, wide]);
    assert_eq!(
        verify(&proof, &mel, Fp::from_u64(12)),
        Err(Error::InvalidLength)
    );
}

#[test]
fn test_verify_rejects_wrong_round_count() {
    let mel = example_form();
    let pair = MultilinearEvalForm::from_pair(Fp::zero(), Fp::from_u64(12));
    let proof = Proof::new(Fp::from_u64(12), vec![pair]);
    assert_eq!(
        verify(&proof, &mel, Fp::from_u64(12)),
        Err(Error::DimensionMismatch)
    );
}

#[test]
fn test_zero_variable_polynomial() {
    // One value means zero variables: the proof has no rounds and the claim
    // is checked directly against the value.
    let mel = MultilinearEvalForm::new(&fp_vec(&[5])).unwrap();
    let proof = prove(&mel, Fp::from_u64(5)).unwrap();
    assert_eq!(proof.round_count(), 0);
    assert_eq!(verify(&proof, &mel, Fp::from_u64(5)), Ok(()));
    assert_eq!(
        verify(&proof, &mel, Fp::from_u64(6)),
        Err(Error::OracleMismatch)
    );
}

#[test]
fn test_three_variable_round_trip() {
    let mel = MultilinearEvalForm::new(&fp_vec(&[1, 2, 3, 4, 5, 6, 7, 8])).unwrap();
    let claimed = mel.hypercube_sum();
    assert_eq!(claimed, Fp::from_u64(36));
    let proof = prove(&mel, claimed).unwrap();
    assert_eq!(proof.round_count(), 3);
    assert_eq!(verify(&proof, &mel, claimed), Ok(()));
    assert!(verify(&proof, &mel, Fp::from_u64(35)).is_err());
}
