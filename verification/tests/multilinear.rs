use sumcheck::field::Fp;
use sumcheck::multilinear::{partial_evaluate, MultilinearEvalForm};
use sumcheck::Error;

fn fp_vec(values: &[u64]) -> Vec<Fp> {
    let mut out: Vec<Fp> = Vec::new();
    for v in values {
        out.push(Fp::from_u64(*v));
    }
    out
}

#[test]
fn test_partial_evaluate() {
    let polynomial = fp_vec(&[0, 0, 5, 7]);
    let mel = MultilinearEvalForm::new(&polynomial).unwrap();

    // Partial evaluation for the first variable.
    let result = partial_evaluate(&polynomial, 0, Fp::from_u64(1));
    assert_eq!(result.len(), 2);

    // Partial evaluation for the second variable.
    let result = partial_evaluate(&polynomial, 1, Fp::from_u64(1));
    assert_eq!(result.len(), 2);

    // Full evaluation.
    let eval_point = fp_vec(&[1, 1]);
    let result = mel.evaluate(&eval_point);
    assert_eq!(result, Ok(Fp::from_u64(7)));
}

#[test]
fn test_evaluate_wrong_number_of_variables() {
    let polynomial = fp_vec(&[0, 0, 5, 7]);
    let mel = MultilinearEvalForm::new(&polynomial).unwrap();
    let eval_point = fp_vec(&[1]); // Only one value when two are needed.
    assert_eq!(mel.evaluate(&eval_point), Err(Error::DimensionMismatch));
}

#[test]
fn test_invalid_polynomial_size() {
    let polynomial = fp_vec(&[0, 0, 5]); // Size 3 is not a power of 2.
    assert_eq!(
        MultilinearEvalForm::new(&polynomial),
        Err(Error::InvalidLength)
    );
}

#[test]
fn test_single_value_form() {
    let polynomial = fp_vec(&[9]);
    let mel = MultilinearEvalForm::new(&polynomial).unwrap();
    assert_eq!(mel.number_of_variables(), 0);
    let empty: Vec<Fp> = Vec::new();
    assert_eq!(mel.evaluate(&empty), Ok(Fp::from_u64(9)));
    assert_eq!(mel.hypercube_sum(), Fp::from_u64(9));
}

#[test]
fn test_number_of_variables() {
    let mel = MultilinearEvalForm::new(&fp_vec(&[0, 0, 5, 7])).unwrap();
    assert_eq!(mel.number_of_variables(), 2);
    let mel8 = MultilinearEvalForm::new(&fp_vec(&[1, 2, 3, 4, 5, 6, 7, 8])).unwrap();
    assert_eq!(mel8.number_of_variables(), 3);
}

#[test]
fn test_hypercube_sum() {
    let mel = MultilinearEvalForm::new(&fp_vec(&[0, 0, 5, 7])).unwrap();
    assert_eq!(mel.hypercube_sum(), Fp::from_u64(12));
}

#[test]
fn test_partial_evaluate_first_variable_values() {
    // Corners [a, b, c, d]: fixing the leading variable to r interpolates
    // each pair into [a + r(c - a), b + r(d - b)].
    let polynomial = fp_vec(&[1, 2, 3, 4]);
    let r = Fp::from_u64(5);
    let result = partial_evaluate(&polynomial, 0, r);
    assert_eq!(result, fp_vec(&[11, 12]));
}

#[test]
fn test_partial_evaluate_second_variable_values() {
    let polynomial = fp_vec(&[0, 0, 5, 7]);
    let result = partial_evaluate(&polynomial, 1, Fp::from_u64(1));
    assert_eq!(result, fp_vec(&[0, 7]));
}

#[test]
fn test_partial_then_full_evaluation_agree() {
    // Evaluating [r, s] coordinate by coordinate matches one evaluate call.
    let polynomial = fp_vec(&[1, 2, 3, 4]);
    let mel = MultilinearEvalForm::new(&polynomial).unwrap();
    let r = Fp::from_u64(5);
    let s = Fp::from_u64(7);
    let restricted = mel.partial_evaluate(0, r);
    let via_two_steps = restricted.evaluate(&vec![s]).unwrap();
    let direct = mel.evaluate(&vec![r, s]).unwrap();
    assert_eq!(via_two_steps, direct);
    assert_eq!(direct, Fp::from_u64(18));
}

#[test]
fn test_partial_evaluate_does_not_mutate_parent() {
    let polynomial = fp_vec(&[1, 2, 3, 4]);
    let mel = MultilinearEvalForm::new(&polynomial).unwrap();
    let _child = mel.partial_evaluate(0, Fp::from_u64(9));
    assert_eq!(mel.len(), 4);
    assert_eq!(mel.hypercube_sum(), Fp::from_u64(10));
}

#[test]
fn test_convert_to_bytes_layout() {
    let mel = MultilinearEvalForm::new(&fp_vec(&[1, 0x0203])).unwrap();
    let bytes = mel.convert_to_bytes();
    assert_eq!(
        bytes,
        vec![0, 0, 0, 0, 0, 0, 0, 1, 0, 0, 0, 0, 0, 0, 2, 3]
    );
}
