//! A prime-field element type with canonical big-endian byte serialization.
//!
//! The protocol only needs a field closed under addition, subtraction and
//! multiplication together with a unique byte encoding per value and a
//! mod-order reduction of hash digests, so the field is realized directly
//! over machine integers with the Mersenne prime `2^31 - 1` as modulus and
//! every operation is verified against its mathematical definition.

use vstd::prelude::*;
use vstd::arithmetic::div_mod::{
    lemma_add_mod_noop_right, lemma_mod_add_multiples_vanish, lemma_mod_bound, lemma_mod_twice,
    lemma_mul_mod_noop_right, lemma_small_mod, lemma_sub_mod_noop, lemma_sub_mod_noop_right,
};

verus! {

/// The field modulus, the Mersenne prime `2^31 - 1`.
pub const P: u64 = 0x7fff_ffff;

/// Addition in the field, on mathematical integers.
pub open spec fn fadd(a: int, b: int) -> int {
    (a + b) % (P as int)
}

/// Subtraction in the field, on mathematical integers.
pub open spec fn fsub(a: int, b: int) -> int {
    (a - b) % (P as int)
}

/// Multiplication in the field, on mathematical integers.
pub open spec fn fmul(a: int, b: int) -> int {
    (a * b) % (P as int)
}

/// Negation in the field, on mathematical integers.
pub open spec fn fneg(a: int) -> int {
    (0 - a) % (P as int)
}

/// A field element. Its view is the canonical representative in `[0, P)`.
#[derive(Clone, Copy, Debug, PartialEq, Eq, Structural)]
pub struct Fp {
    value: u64,
}

impl View for Fp {
    type V = int;

    closed spec fn view(&self) -> int {
        (self.value as int) % (P as int)
    }
}

/// The view of a field element always lies in `[0, P)`.
pub broadcast proof fn lemma_fp_bound(x: Fp)
    ensures
        0 <= #[trigger] x@ < (P as int),
{
    lemma_mod_bound(x.value as int, P as int);
}

/// The views of a sequence of field elements.
pub open spec fn seq_view(s: Seq<Fp>) -> Seq<int> {
    s.map_values(|x: Fp| x@)
}

impl Fp {
    #[verifier::type_invariant]
    spec fn inv(self) -> bool {
        self.value < P
    }

    /// The element with representative `x % P`.
    pub fn from_u64(x: u64) -> (r: Fp)
        ensures
            r@ == (x as int) % (P as int),
    {
        let r = Fp { value: x % P };
        proof {
            lemma_mod_twice(x as int, P as int);
        }
        r
    }

    /// The additive identity.
    pub fn zero() -> (r: Fp)
        ensures
            r@ == 0,
    {
        Fp { value: 0 }
    }

    /// Field addition.
    pub fn add(self, other: Fp) -> (r: Fp)
        ensures
            r@ == fadd(self@, other@),
    {
        proof {
            use_type_invariant(self);
            use_type_invariant(other);
        }
        let r = Fp { value: (self.value + other.value) % P };
        proof {
            lemma_mod_twice(self.value + other.value, P as int);
            lemma_small_mod(self.value as nat, P as nat);
            lemma_small_mod(other.value as nat, P as nat);
        }
        r
    }

    /// Field subtraction.
    pub fn sub(self, other: Fp) -> (r: Fp)
        ensures
            r@ == fsub(self@, other@),
    {
        proof {
            use_type_invariant(self);
            use_type_invariant(other);
        }
        let r = Fp { value: (self.value + P - other.value) % P };
        proof {
            lemma_mod_twice(self.value + P - other.value, P as int);
            lemma_mod_add_multiples_vanish(self.value - other.value, P as int);
            lemma_small_mod(self.value as nat, P as nat);
            lemma_small_mod(other.value as nat, P as nat);
        }
        r
    }

    /// Field multiplication.
    pub fn mul(self, other: Fp) -> (r: Fp)
        ensures
            r@ == fmul(self@, other@),
    {
        proof {
            use_type_invariant(self);
            use_type_invariant(other);
            assert((self.value as int) * (other.value as int) < 0x4000_0000_0000_0000) by (nonlinear_arith)
                requires
                    self.value < 0x8000_0000,
                    other.value < 0x8000_0000,
            ;
        }
        let r = Fp { value: (self.value * other.value) % P };
        proof {
            lemma_mod_twice(self.value * other.value, P as int);
            lemma_small_mod(self.value as nat, P as nat);
            lemma_small_mod(other.value as nat, P as nat);
        }
        r
    }

    /// Field negation.
    pub fn neg(self) -> (r: Fp)
        ensures
            r@ == fneg(self@),
    {
        proof {
            use_type_invariant(self);
        }
        let r = Fp { value: (P - self.value) % P };
        proof {
            lemma_mod_twice(P - self.value, P as int);
            lemma_mod_add_multiples_vanish(0 - self.value, P as int);
            lemma_small_mod(self.value as nat, P as nat);
        }
        r
    }

    /// Whether two elements are the same field value.
    pub fn equals(&self, other: &Fp) -> (r: bool)
        ensures
            r <==> self@ == other@,
    {
        proof {
            use_type_invariant(*self);
            use_type_invariant(*other);
            lemma_small_mod(self.value as nat, P as nat);
            lemma_small_mod(other.value as nat, P as nat);
        }
        self.value == other.value
    }

    /// The canonical 8-byte big-endian encoding of the element.
    pub fn to_be_bytes(&self) -> (r: Vec<u8>)
        ensures
            r@ == be8_spec(self@),
    {
        proof {
            use_type_invariant(*self);
            lemma_small_mod(self.value as nat, P as nat);
        }
        let v = self.value;
        let mut r: Vec<u8> = Vec::new();
        r.push((v / 0x100000000000000 % 256) as u8);
        r.push((v / 0x1000000000000 % 256) as u8);
        r.push((v / 0x10000000000 % 256) as u8);
        r.push((v / 0x100000000 % 256) as u8);
        r.push((v / 0x1000000 % 256) as u8);
        r.push((v / 0x10000 % 256) as u8);
        r.push((v / 0x100 % 256) as u8);
        r.push((v % 256) as u8);
        proof {
            assert(r@ =~= be8_spec(self@));
        }
        r
    }

    /// The element given by a big-endian byte string reduced modulo `P`.
    pub fn from_be_bytes_mod_order(bytes: &[u8]) -> (r: Fp)
        ensures
            r@ == be_mod_spec(bytes@),
    {
        let mut acc: u64 = 0;
        let mut i: usize = 0;
        while i < bytes.len()
            invariant
                i <= bytes@.len(),
                acc < P,
                acc as int == be_mod_spec(bytes@.take(i as int)),
            decreases bytes@.len() - i,
        {
            let b = bytes[i];
            proof {
                assert(bytes@.take(i + 1).drop_last() =~= bytes@.take(i as int));
                assert(bytes@.take(i + 1).last() == bytes@[i as int]);
            }
            acc = (acc * 256 + b as u64) % P;
            i = i + 1;
        }
        proof {
            assert(bytes@.take(bytes@.len() as int) =~= bytes@);
            lemma_small_mod(acc as nat, P as nat);
        }
        Fp { value: acc }
    }
}

/// The 8-byte big-endian encoding of an integer in `[0, 2^64)`.
pub open spec fn be8_spec(v: int) -> Seq<u8> {
    seq![
        ((v / 0x100000000000000) % 256) as u8,
        ((v / 0x1000000000000) % 256) as u8,
        ((v / 0x10000000000) % 256) as u8,
        ((v / 0x100000000) % 256) as u8,
        ((v / 0x1000000) % 256) as u8,
        ((v / 0x10000) % 256) as u8,
        ((v / 0x100) % 256) as u8,
        (v % 256) as u8,
    ]
}

/// A big-endian byte string read as an integer and reduced modulo `P`.
pub open spec fn be_mod_spec(s: Seq<u8>) -> int
    decreases s.len(),
{
    if s.len() == 0 {
        0
    } else {
        (be_mod_spec(s.drop_last()) * 256 + s.last()) % (P as int)
    }
}

/// Replacing either addend with its representative leaves a field sum unchanged.
pub proof fn lemma_fadd_noop(x: int, y: int)
    ensures
        fadd(x % (P as int), y) == fadd(x, y),
        fadd(x, y % (P as int)) == fadd(x, y),
{
    lemma_add_mod_noop_right(x, y, P as int);
    lemma_add_mod_noop_right(y, x, P as int);
}

/// Replacing either operand with its representative leaves a field difference unchanged.
pub proof fn lemma_fsub_noop(x: int, y: int)
    ensures
        fsub(x % (P as int), y) == fsub(x, y),
        fsub(x, y % (P as int)) == fsub(x, y),
{
    lemma_sub_mod_noop_right(x, y, P as int);
    lemma_sub_mod_noop(x, y, P as int);
    lemma_sub_mod_noop_right(x % (P as int), y, P as int);
}

/// Replacing either factor with its representative leaves a field product unchanged.
pub proof fn lemma_fmul_noop(x: int, y: int)
    ensures
        fmul(x % (P as int), y) == fmul(x, y),
        fmul(x, y % (P as int)) == fmul(x, y),
{
    lemma_mul_mod_noop_right(x, y, P as int);
    lemma_mul_mod_noop_right(y, x, P as int);
}

/// Field addition is associative.
pub proof fn lemma_fadd_assoc(x: int, y: int, z: int)
    ensures
        fadd(fadd(x, y), z) == fadd(x, fadd(y, z)),
{
    lemma_fadd_noop(x + y, z);
    lemma_fadd_noop(x, y + z);
}

/// Combining one interpolated pair with an interpolated partial sum gives
/// the interpolation of the combined sums: the algebraic step behind summing
/// `low + v * (high - low)` over a whole form.
pub proof fn lemma_interp_combine(a0: int, b0: int, sa: int, sb: int, v: int)
    ensures
        fadd(fadd(a0, fmul(v, fsub(b0, a0))), fadd(sa, fmul(v, fsub(sb, sa)))) == fadd(
            fadd(a0, sa),
            fmul(v, fsub(fadd(b0, sb), fadd(a0, sa))),
        ),
{
    let pi = P as int;
    let lhs1 = a0 + v * (b0 - a0);
    let lhs2 = sa + v * (sb - sa);
    lemma_fmul_noop(v, b0 - a0);
    lemma_fadd_noop(a0, v * (b0 - a0));
    assert(fadd(a0, fmul(v, fsub(b0, a0))) == lhs1 % pi);
    lemma_fmul_noop(v, sb - sa);
    lemma_fadd_noop(sa, v * (sb - sa));
    assert(fadd(sa, fmul(v, fsub(sb, sa))) == lhs2 % pi);
    lemma_fadd_noop(lhs1, lhs2 % pi);
    lemma_fadd_noop(lhs1, lhs2);
    assert(fadd(fadd(a0, fmul(v, fsub(b0, a0))), fadd(sa, fmul(v, fsub(sb, sa)))) == (lhs1 + lhs2)
        % pi);
    let diff = (b0 + sb) - (a0 + sa);
    lemma_fsub_noop(b0 + sb, (a0 + sa) % pi);
    lemma_fsub_noop(b0 + sb, a0 + sa);
    assert(fsub(fadd(b0, sb), fadd(a0, sa)) == diff % pi);
    lemma_fmul_noop(v, diff);
    assert(fmul(v, fsub(fadd(b0, sb), fadd(a0, sa))) == (v * diff) % pi);
    lemma_fadd_noop(a0 + sa, (v * diff) % pi);
    lemma_fadd_noop(a0 + sa, v * diff);
    assert(fadd(fadd(a0, sa), fmul(v, fsub(fadd(b0, sb), fadd(a0, sa)))) == ((a0 + sa) + v * diff)
        % pi);
    assert(lhs1 + lhs2 == (a0 + sa) + v * diff) by (nonlinear_arith)
        requires
            lhs1 == a0 + v * (b0 - a0),
            lhs2 == sa + v * (sb - sa),
            diff == (b0 + sb) - (a0 + sa),
    ;
}

/// A value already in `[0, P)` is its own representative.
pub proof fn lemma_freduce_small(x: int)
    requires
        0 <= x < (P as int),
    ensures
        x % (P as int) == x,
{
    lemma_small_mod(x as nat, P as nat);
}

} // verus!
