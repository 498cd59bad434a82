//! Proof-of-work engine: difficulty-target search and verification over an
//! opaque byte preimage, built on the blake3 content digest.

use vstd::prelude::*;
use crate::bytes::u64_le;
use crate::bytes::push_u64_le;

verus! {

/// The blake3 digest of a byte string: a fixed function of the input alone.
pub uninterp spec fn blake3_of(data: Seq<u8>) -> Seq<u8>;

/// Relies on blake3::hash: the 32-byte digest is a function of the input bytes alone.
#[verifier::external_body]
pub fn blake3_hash(data: &Vec<u8>) -> (r: Vec<u8>)
    ensures
        r@ == blake3_of(data@),
        r@.len() == 32,
{
    blake3::hash(data.as_slice()).as_bytes().to_vec()
}

/// The 64-bit word a proof-of-work digest is judged by: the first eight bytes
/// of the digest of `preimage ‖ nonce`, read little-endian.
pub open spec fn pow_word(preimage: Seq<u8>, nonce: u64) -> u64 {
    le64_of(blake3_of(preimage + u64_le(nonce)))
}

/// The 64-bit integer held little-endian in the first eight bytes of `d`.
pub open spec fn le64_of(d: Seq<u8>) -> u64
    recommends
        d.len() >= 8,
{
    (d[0] as u64
        | (d[1] as u64) << 8
        | (d[2] as u64) << 16
        | (d[3] as u64) << 24
        | (d[4] as u64) << 32
        | (d[5] as u64) << 40
        | (d[6] as u64) << 48
        | (d[7] as u64) << 56) as u64
}

/// Reads the 64-bit integer held little-endian in the first eight bytes of `d`.
pub fn read_le64(d: &Vec<u8>) -> (r: u64)
    requires
        d@.len() >= 8,
    ensures
        r == le64_of(d@),
{
    let r: u64 = d[0] as u64
        | (d[1] as u64) << 8u64
        | (d[2] as u64) << 16u64
        | (d[3] as u64) << 24u64
        | (d[4] as u64) << 32u64
        | (d[5] as u64) << 40u64
        | (d[6] as u64) << 48u64
        | (d[7] as u64) << 56u64;
    r
}

/// Computes the proof-of-work word for `preimage` and `nonce`.
pub fn pow_word_exec(preimage: &Vec<u8>, nonce: u64) -> (r: u64)
    ensures
        r == pow_word(preimage@, nonce),
{
    let mut buf: Vec<u8> = Vec::new();
    let mut i: usize = 0;
    while i < preimage.len()
        invariant
            i <= preimage.len(),
            buf@ == preimage@.take(i as int),
        decreases preimage.len() - i,
    {
        buf.push(preimage[i]);
        i = i + 1;
        proof {
            assert(buf@ =~= preimage@.take(i as int));
        }
    }
    proof {
        assert(buf@ =~= preimage@);
    }
    push_u64_le(&mut buf, nonce);
    let digest = blake3_hash(&buf);
    read_le64(&digest)
}

/// Whether `nonce` solves the proof of work for `preimage` at `target`:
/// the digest word must lie strictly below the target.
pub open spec fn pow_accepts(preimage: Seq<u8>, nonce: u64, target: u64) -> bool {
    pow_word(preimage, nonce) < target
}

/// Verifies a proof-of-work solution: recomputes the digest word of
/// `preimage ‖ nonce` and compares it against `target`. Pure: agrees with
/// `solve_pow`'s acceptance rule on every input.
pub fn verify_pow(preimage: &Vec<u8>, nonce: u64, target: u64) -> (r: bool)
    ensures
        r == pow_accepts(preimage@, nonce, target),
{
    let w = pow_word_exec(preimage, nonce);
    w < target
}

/// Searches nonces `0, 1, ...` below `target` (the bounded search space) and
/// returns the first one whose digest word lies strictly below `target`;
/// `None` when the bounded search space is exhausted without a solution.
pub fn solve_pow(preimage: &Vec<u8>, target: u64) -> (r: Option<u64>)
    ensures
        match r {
            Some(n) => n < target && pow_accepts(preimage@, n, target) && forall|m: u64|
                m < n ==> !pow_accepts(preimage@, m, target),
            None => forall|m: u64| m < target ==> !pow_accepts(preimage@, m, target),
        },
{
    let mut nonce: u64 = 0;
    while nonce < target
        invariant
            forall|m: u64| m < nonce ==> !pow_accepts(preimage@, m, target),
        decreases target - nonce,
    {
        if verify_pow(preimage, nonce, target) {
            return Some(nonce);
        }
        nonce = nonce + 1;
    }
    None
}

} // verus!
