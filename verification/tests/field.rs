use sumcheck::field::{Fp, P};

#[test]
fn test_field_add_wraps_modulus() {
    let a = Fp::from_u64(P - 1);
    let b = Fp::from_u64(2);
    assert_eq!(a.add(b), Fp::from_u64(1));
}

#[test]
fn test_field_sub_wraps_modulus() {
    let a = Fp::from_u64(0);
    let b = Fp::from_u64(1);
    assert_eq!(a.sub(b), Fp::from_u64(P - 1));
    assert_eq!(Fp::from_u64(10).sub(Fp::from_u64(3)), Fp::from_u64(7));
}

#[test]
fn test_field_mul_wraps_modulus() {
    // 2^16 * 2^16 = 2^32 = 2 * (P + 1), so the product reduces to 2.
    let a = Fp::from_u64(1 << 16);
    assert_eq!(a.mul(a), Fp::from_u64(2));
    assert_eq!(Fp::from_u64(6).mul(Fp::from_u64(7)), Fp::from_u64(42));
}

#[test]
fn test_field_neg() {
    assert_eq!(Fp::from_u64(1).neg(), Fp::from_u64(P - 1));
    assert_eq!(Fp::zero().neg(), Fp::zero());
}

#[test]
fn test_from_u64_reduces() {
    assert_eq!(Fp::from_u64(P), Fp::zero());
    assert_eq!(Fp::from_u64(P + 5), Fp::from_u64(5));
}

#[test]
fn test_to_be_bytes_is_big_endian() {
    let bytes = Fp::from_u64(0x0102).to_be_bytes();
    assert_eq!(bytes, vec![0, 0, 0, 0, 0, 0, 1, 2]);
}

#[test]
fn test_be_bytes_round_trip() {
    let x = Fp::from_u64(123_456_789);
    let bytes = x.to_be_bytes();
    assert_eq!(Fp::from_be_bytes_mod_order(bytes.as_slice()), x);
}

#[test]
fn test_from_be_bytes_mod_order_reduces() {
    // A 5-byte string reading 2^32 = 2 * (P + 1) reduces to 2.
    let bytes = vec![1u8, 0, 0, 0, 0];
    assert_eq!(Fp::from_be_bytes_mod_order(bytes.as_slice()), Fp::from_u64(2));
    let empty: Vec<u8> = Vec::new();
    assert_eq!(Fp::from_be_bytes_mod_order(empty.as_slice()), Fp::zero());
}
