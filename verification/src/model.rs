//! The block model: headers, transactions, blocks, and the wire encoding the
//! header digest is computed over. The field order of the encoding is
//! load-bearing: the block hash is the digest of exactly this serialization.

use vstd::prelude::*;
use crate::bytes::{u64_le, len_prefixed, push_u64_le, push_len_prefixed};
use crate::crypto::blake3_of;
use crate::crypto::blake3_hash;

verus! {

/// A 32-byte content digest of a block header, immutable once computed.
pub type BlockHash = Vec<u8>;

/// Parameters of the ordering rule carried by every header: the anticone
/// width bound `k`, the proof-of-work target, and the cap on parent count.
#[derive(Clone, Copy, PartialEq, Eq, Structural, Debug)]
pub struct KnightParams {
    pub k: u64,
    pub pow_target: u64,
    pub max_parents: u64,
}

/// A transaction: a version tag, an opaque payload, a signature over the
/// payload, and an optional auxiliary succinct proof.
#[derive(Clone, Debug)]
pub struct Transaction {
    pub version: u8,
    pub data: Vec<u8>,
    pub signature: Vec<u8>,
    pub zk_proof: Option<Vec<u8>>,
}

/// A block header. `parents` holds the 32-byte hashes of the parent blocks;
/// `signer` is the verifying key the `pow_signature` is checked against;
/// `snark_proof` attests the state transition declared by `state_root`.
#[derive(Clone, Debug)]
pub struct BlockHeader {
    pub parents: Vec<BlockHash>,
    pub nonce: u64,
    pub timestamp: u64,
    pub state_root: Vec<u8>,
    pub tx_root: Vec<u8>,
    pub knight_params: KnightParams,
    pub signer: Vec<u8>,
    pub pow_signature: Vec<u8>,
    pub snark_proof: Vec<u8>,
}

/// A block: a header plus the ordered transaction sequence the header's
/// `tx_root` commits to.
#[derive(Clone, Debug)]
pub struct Block {
    pub header: BlockHeader,
    pub transactions: Vec<Transaction>,
}

/// Encoding of an optional proof field: a presence byte, then the bytes.
pub open spec fn opt_bytes(p: Option<Vec<u8>>) -> Seq<u8> {
    match p {
        Option::None => seq![0u8],
        Option::Some(b) => seq![1u8] + len_prefixed(b@),
    }
}

/// The wire encoding of one transaction.
pub open spec fn tx_bytes(t: Transaction) -> Seq<u8> {
    seq![t.version] + len_prefixed(t.data@) + len_prefixed(t.signature@) + opt_bytes(t.zk_proof)
}

/// The concatenated encodings of a transaction sequence.
pub open spec fn txs_bytes_rec(ts: Seq<Transaction>) -> Seq<u8>
    decreases ts.len(),
{
    if ts.len() == 0 {
        Seq::<u8>::empty()
    } else {
        txs_bytes_rec(ts.drop_last()) + tx_bytes(ts.last())
    }
}

/// The wire encoding of a transaction sequence: a count, then each transaction.
pub open spec fn txs_bytes(ts: Seq<Transaction>) -> Seq<u8> {
    u64_le(ts.len() as u64) + txs_bytes_rec(ts)
}

/// The transaction root a block must declare: the digest of the encoded
/// transaction sequence.
pub open spec fn tx_root_of(ts: Seq<Transaction>) -> Seq<u8> {
    blake3_of(txs_bytes(ts))
}

/// The concatenated length-prefixed parent hashes.
pub open spec fn parents_bytes(ps: Seq<Seq<u8>>) -> Seq<u8>
    decreases ps.len(),
{
    if ps.len() == 0 {
        Seq::<u8>::empty()
    } else {
        parents_bytes(ps.drop_last()) + len_prefixed(ps.last())
    }
}

/// The views of a sequence of byte vectors.
pub open spec fn hash_views(ps: Seq<Vec<u8>>) -> Seq<Seq<u8>> {
    ps.map_values(|v: Vec<u8>| v@)
}

/// The header fields fixed before the proof-of-work search: everything except
/// the nonce and the two attestations. This is the proof-of-work preimage.
pub open spec fn signing_bytes(h: BlockHeader) -> Seq<u8> {
    u64_le(h.parents@.len() as u64) + parents_bytes(hash_views(h.parents@)) + u64_le(h.timestamp)
        + len_prefixed(h.state_root@) + len_prefixed(h.tx_root@) + u64_le(h.knight_params.k)
        + u64_le(h.knight_params.pow_target) + u64_le(h.knight_params.max_parents)
        + len_prefixed(h.signer@)
}

/// The message the header's signature covers: the preimage plus the solved nonce.
pub open spec fn sig_message_of(h: BlockHeader) -> Seq<u8> {
    signing_bytes(h) + u64_le(h.nonce)
}

/// The full header serialization, in the fixed field order.
pub open spec fn header_bytes(h: BlockHeader) -> Seq<u8> {
    signing_bytes(h) + u64_le(h.nonce) + len_prefixed(h.pow_signature@)
        + len_prefixed(h.snark_proof@)
}

/// The block hash: the digest of the full header serialization.
pub open spec fn block_hash_of(h: BlockHeader) -> Seq<u8> {
    blake3_of(header_bytes(h))
}

/// The well-defined initial state root a genesis block must declare.
pub open spec fn initial_root() -> Seq<u8> {
    Seq::<u8>::new(32, |i: int| 0u8)
}

/// Returns the initial state root: 32 zero bytes.
pub fn genesis_root() -> (r: Vec<u8>)
    ensures
        r@ == initial_root(),
{
    let mut r: Vec<u8> = Vec::new();
    let mut i: usize = 0;
    while i < 32
        invariant
            i <= 32,
            r@ =~= initial_root().take(i as int),
        decreases 32 - i,
    {
        r.push(0u8);
        i = i + 1;
        proof {
            assert(r@ =~= initial_root().take(i as int));
        }
    }
    proof {
        assert(r@ =~= initial_root());
    }
    r
}

/// Appends the wire encoding of `t` to `out`.
fn push_tx(out: &mut Vec<u8>, t: &Transaction)
    ensures
        final(out)@ == old(out)@ + tx_bytes(*t),
{
    out.push(t.version);
    push_len_prefixed(out, &t.data);
    push_len_prefixed(out, &t.signature);
    match &t.zk_proof {
        Option::None => {
            out.push(0u8);
        },
        Option::Some(p) => {
            out.push(1u8);
            push_len_prefixed(out, p);
        },
    }
    proof {
        assert(out@ =~= old(out)@ + tx_bytes(*t));
    }
}

/// Computes the wire encoding of a transaction sequence.
pub fn encode_txs(ts: &Vec<Transaction>) -> (r: Vec<u8>)
    ensures
        r@ == txs_bytes(ts@),
{
    let mut r: Vec<u8> = Vec::new();
    push_u64_le(&mut r, ts.len() as u64);
    let mut i: usize = 0;
    while i < ts.len()
        invariant
            i <= ts.len(),
            r@ == u64_le(ts@.len() as u64) + txs_bytes_rec(ts@.take(i as int)),
        decreases ts.len() - i,
    {
        push_tx(&mut r, &ts[i]);
        i = i + 1;
        proof {
            let pre = ts@.take(i as int);
            assert(pre.drop_last() =~= ts@.take(i as int - 1));
            assert(pre.last() == ts@[i as int - 1]);
            assert(r@ =~= u64_le(ts@.len() as u64) + txs_bytes_rec(pre));
        }
    }
    proof {
        assert(ts@.take(ts@.len() as int) =~= ts@);
    }
    r
}

/// Computes the transaction root: the digest of the encoded sequence.
pub fn compute_tx_root(ts: &Vec<Transaction>) -> (r: Vec<u8>)
    ensures
        r@ == tx_root_of(ts@),
        r@.len() == 32,
{
    let enc = encode_txs(ts);
    blake3_hash(&enc)
}

/// Computes the proof-of-work preimage of a header.
pub fn compute_signing_bytes(h: &BlockHeader) -> (r: Vec<u8>)
    ensures
        r@ == signing_bytes(*h),
{
    let mut r: Vec<u8> = Vec::new();
    push_u64_le(&mut r, h.parents.len() as u64);
    let mut i: usize = 0;
    while i < h.parents.len()
        invariant
            i <= h.parents.len(),
            r@ == u64_le(h.parents@.len() as u64) + parents_bytes(
                hash_views(h.parents@).take(i as int),
            ),
        decreases h.parents.len() - i,
    {
        push_len_prefixed(&mut r, &h.parents[i]);
        i = i + 1;
        proof {
            let pre = hash_views(h.parents@).take(i as int);
            assert(pre.drop_last() =~= hash_views(h.parents@).take(i as int - 1));
            assert(pre.last() == h.parents@[i as int - 1]@);
            assert(r@ =~= u64_le(h.parents@.len() as u64) + parents_bytes(pre));
        }
    }
    proof {
        assert(hash_views(h.parents@).take(h.parents@.len() as int) =~= hash_views(h.parents@));
    }
    push_u64_le(&mut r, h.timestamp);
    push_len_prefixed(&mut r, &h.state_root);
    push_len_prefixed(&mut r, &h.tx_root);
    push_u64_le(&mut r, h.knight_params.k);
    push_u64_le(&mut r, h.knight_params.pow_target);
    push_u64_le(&mut r, h.knight_params.max_parents);
    push_len_prefixed(&mut r, &h.signer);
    proof {
        assert(r@ =~= signing_bytes(*h));
    }
    r
}

/// Computes the message the header's signature covers.
pub fn compute_sig_message(h: &BlockHeader) -> (r: Vec<u8>)
    ensures
        r@ == sig_message_of(*h),
{
    let mut r = compute_signing_bytes(h);
    push_u64_le(&mut r, h.nonce);
    r
}

/// Computes the block hash: the digest of the full header serialization.
pub fn compute_block_hash(h: &BlockHeader) -> (r: Vec<u8>)
    ensures
        r@ == block_hash_of(*h),
        r@.len() == 32,
{
    let mut enc = compute_signing_bytes(h);
    push_u64_le(&mut enc, h.nonce);
    push_len_prefixed(&mut enc, &h.pow_signature);
    push_len_prefixed(&mut enc, &h.snark_proof);
    proof {
        assert(enc@ =~= header_bytes(*h));
    }
    blake3_hash(&enc)
}

} // verus!
