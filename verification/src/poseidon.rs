//! Leaf and node hashing: the Poseidon digest over the BN254 scalar field,
//! and the two fixed compositions the tree uses.

use vstd::prelude::*;
use ark_ff::BigInteger;
use ark_ff::PrimeField;
use light_poseidon::PoseidonHasher;
use crate::field::FieldValue;
use crate::field::value_of;

verus! {

/// The integer that the Poseidon digest assigns to a tuple of input values.
pub uninterp spec fn poseidon_of(inputs: Seq<nat>) -> nat;

/// The integers denoted by a sequence of field values.
pub open spec fn values_of(s: Seq<FieldValue>) -> Seq<nat> {
    s.map_values(|f: FieldValue| f@)
}

/// Relies on light_poseidon's circom-compatible Poseidon hash over the BN254
/// scalar field (Poseidon::new_circom and PoseidonHasher::hash): the digest
/// depends on the input values alone, and the resulting field element is
/// returned as exactly 32 little-endian bytes.
#[verifier::external_body]
fn poseidon_hash(inputs: &Vec<FieldValue>) -> (r: Vec<u8>)
    requires
        1 <= inputs@.len() <= 12,
    ensures
        r@.len() == 32,
        value_of(r@) == poseidon_of(values_of(inputs@)),
{
    let mut hasher = light_poseidon::Poseidon::<ark_bn254::Fr>::new_circom(inputs.len()).unwrap();
    let elems: Vec<ark_bn254::Fr> = inputs
        .iter()
        .map(|f| ark_bn254::Fr::from_le_bytes_mod_order(&f.to_bytes_le()))
        .collect();
    let out = hasher.hash(&elems).unwrap();
    out.into_bigint().to_bytes_le()
}

/// Hash of an end leaf: the digest of (key, value, 1).
pub fn end_leaf_hash(k: &FieldValue, v: &FieldValue) -> (r: FieldValue)
    ensures
        r@ == poseidon_of(seq![k@, v@, 1nat]),
{
    let mut inputs: Vec<FieldValue> = Vec::new();
    inputs.push(k.clone());
    inputs.push(v.clone());
    inputs.push(FieldValue::one());
    proof {
        assert(values_of(inputs@) =~= seq![k@, v@, 1nat]);
    }
    let bytes = poseidon_hash(&inputs);
    FieldValue::from_bytes_le(bytes.as_slice())
}

/// Hash of an intermediate node: the digest of (left, right).
pub fn intermediate_leaf_hash(l: &FieldValue, r: &FieldValue) -> (h: FieldValue)
    ensures
        h@ == poseidon_of(seq![l@, r@]),
{
    let mut inputs: Vec<FieldValue> = Vec::new();
    inputs.push(l.clone());
    inputs.push(r.clone());
    proof {
        assert(values_of(inputs@) =~= seq![l@, r@]);
    }
    let bytes = poseidon_hash(&inputs);
    FieldValue::from_bytes_le(bytes.as_slice())
}

} // verus!
