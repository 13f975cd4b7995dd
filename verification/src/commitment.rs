//! Submission commitments.
//!
//! A commitment is the SHA-256 digest of the submission's canonical
//! little-endian encoding. The protocol's safety rests on this being a
//! collision-resistant one-way binding: a participant cannot change a
//! committed submission without the change showing in the digest.

use vstd::bytes::spec_u64_to_le_bytes;
use vstd::bytes::u64_to_le_bytes;
use vstd::prelude::*;

use sha2::Digest;

verus! {

/// The SHA-256 digest of a byte sequence. The digest is a function of the
/// input bytes alone; nothing further is stated of its value.
pub uninterp spec fn sha256_of(input: Seq<u8>) -> Seq<u8>;

/// Relies on sha2::Sha256 (through sha2::Digest::digest): the digest is
/// determined by the input bytes alone and is always 32 bytes long.
#[verifier::external_body]
fn sha256_digest(input: &Vec<u8>) -> (r: Vec<u8>)
    ensures
        r@ == sha256_of(input@),
        r@.len() == 32,
{
    sha2::Sha256::digest(input.as_slice()).to_vec()
}

/// The commitment bound to a submission: the SHA-256 digest of its
/// canonical eight-byte little-endian encoding.
pub open spec fn commitment_of(submission: u64) -> Seq<u8> {
    sha256_of(spec_u64_to_le_bytes(submission))
}

/// Computes the commitment for a submission.
pub fn commitment_of_submission(submission: u64) -> (r: Vec<u8>)
    ensures
        r@ == commitment_of(submission),
        r@.len() == 32,
{
    let encoded = u64_to_le_bytes(submission);
    sha256_digest(&encoded)
}

} // verus!
