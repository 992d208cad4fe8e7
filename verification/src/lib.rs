//! Verification of sparse Merkle tree (SMT) inclusion and exclusion proofs.
//!
//! A proof consists of a claimed root, a key/value pair and a sibling path.
//! The verifier reconstructs the root bottom-up from the leaf hashes and the
//! siblings and accepts the proof only when the reconstruction matches the
//! claimed root and the proof's internal invariants hold.

pub mod field;
pub mod poseidon;
pub mod smtverifier;

use vstd::prelude::*;
use crate::field::FieldValue;
use crate::poseidon::values_of;
use crate::smtverifier::VerifyError;
use crate::smtverifier::spec_verify_extended;

verus! {

/// A sparse-Merkle-tree proof: a claimed root, the key/value pair it speaks
/// of, and the sibling hash at each tree level from the leaf upward.
pub struct MerkleProof {
    pub root: FieldValue,
    pub key: FieldValue,
    pub value: FieldValue,
    pub siblings: Vec<FieldValue>,
}

/// Checks an inclusion proof: accepts exactly when `siblings` shows that
/// `key` maps to `value` under `expected_root`.
pub fn verify(
    expected_root: &FieldValue,
    key: &FieldValue,
    value: &FieldValue,
    siblings: Vec<FieldValue>,
) -> (res: Result<(), VerifyError>)
    ensures
        res == spec_verify_extended(
            true,
            expected_root@,
            0,
            0,
            false,
            key@,
            value@,
            false,
            values_of(siblings@),
        ),
{
    let zero_key = FieldValue::zero();
    let zero_value = FieldValue::zero();
    crate::smtverifier::verify_extended(
        true,
        expected_root,
        &zero_key,
        &zero_value,
        false,
        key,
        value,
        false,
        siblings,
    )
}

} // verus!
