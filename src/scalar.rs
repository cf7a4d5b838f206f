//! Scalars of the BLS12-381 scalar field, held as canonical little-endian bytes.
use ark_ff::{BigInteger, PrimeField};
use vstd::prelude::*;

verus! {

/// The order of the BLS12-381 scalar field,
/// 0x73eda753299d7d483339d80809a1d80553bda402fffe5bfeffffffff00000001,
/// written as its high and low 128 bits.
pub open spec fn fr_modulus() -> nat {
    0x73eda753299d7d483339d80809a1d805 * 0x1_0000_0000_0000_0000 * 0x1_0000_0000_0000_0000
        + 0x53bda402fffe5bfeffffffff00000001
}

/// The unsigned integer whose little-endian bytes are `s`.
pub open spec fn le_nat(s: Seq<u8>) -> nat
    decreases s.len(),
{
    if s.len() == 0 {
        0
    } else {
        s[0] as nat + 256 * le_nat(s.drop_first())
    }
}

/// The field element that a hash stands for: its little-endian value modulo
/// the field's order.
pub open spec fn hash_scalar(hash: Seq<u8>) -> nat {
    le_nat(hash) % fr_modulus()
}

/// An element of the BLS12-381 scalar field, kept as the 32 little-endian
/// bytes of its canonical representative.
#[derive(Clone, Debug, PartialEq, Eq)]
pub struct Scalar {
    le_bytes: Vec<u8>,
}

impl Scalar {
    /// The canonical representative of the element.
    pub closed spec fn value(&self) -> nat {
        le_nat(self.le_bytes@)
    }

    pub closed spec fn wf(&self) -> bool {
        &&& self.le_bytes@.len() == 32
        &&& self.value() < fr_modulus()
    }

    /// The 32 little-endian bytes of the canonical representative.
    pub fn to_le_bytes(&self) -> (r: Vec<u8>)
        requires
            self.wf(),
        ensures
            r@.len() == 32,
            le_nat(r@) == self.value(),
    {
        let mut r: Vec<u8> = Vec::new();
        let mut i: usize = 0;
        while i < self.le_bytes.len()
            invariant
                i <= self.le_bytes@.len(),
                r@ == self.le_bytes@.subrange(0, i as int),
            decreases self.le_bytes@.len() - i,
        {
            r.push(self.le_bytes[i]);
            i += 1;
        }
        assert(r@ == self.le_bytes@);
        r
    }
}

/// Relies on ark_ff's `PrimeField::from_le_bytes_mod_order` for the BLS12-381
/// scalar field: the bytes are read as a little-endian integer and reduced
/// modulo the field's order. The element is then handed back through
/// `into_bigint` (its representative below the modulus) and
/// `BigInteger::to_bytes_le` (the 8 bytes of each of its 4 limbs, lowest first).
#[verifier::external_body]
fn reduce_le_bytes(bytes: &[u8]) -> (r: Vec<u8>)
    ensures
        r@.len() == 32,
        le_nat(r@) == le_nat(bytes@) % fr_modulus(),
{
    ark_bls12_381::Fr::from_le_bytes_mod_order(bytes).into_bigint().to_bytes_le()
}

/// Reduces a 32-byte little-endian hash into the scalar field.
pub fn hash_bytes_to_scalar(hash: &[u8]) -> (r: Scalar)
    requires
        hash@.len() == 32,
    ensures
        r.wf(),
        r.value() == hash_scalar(hash@),
{
    let le_bytes = reduce_le_bytes(hash);
    let r = Scalar { le_bytes };
    proof {
        assert(fr_modulus() > 0);
    }
    r
}

} // verus!
