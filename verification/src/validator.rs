//! Block validator: structural, proof-of-work, signature and succinct-proof
//! checks a block must pass before it may enter the store. Pure: the verdict
//! is a function of the block, the DAG it arrives at, and the external
//! prover's verdict on the succinct proof.

use vstd::prelude::*;
use crate::bytes::bytes_eq;
use crate::model::{Block, tx_root_of, sig_message_of, signing_bytes, initial_root};
use crate::model::{compute_tx_root, compute_sig_message, compute_signing_bytes, genesis_root};
use crate::crypto::{pow_accepts, verify_pow};
use crate::sig::{sig_verifies, Keypair};
use crate::dag::{DagStore, views};

verus! {

/// Validation failures, in the order the checks run.
#[derive(Clone, Copy, PartialEq, Eq, Structural, Debug)]
pub enum ValidationError {
    /// A non-genesis block declares no parents.
    MissingParents,
    /// More parents than the header's own `max_parents` bound allows.
    TooManyParents,
    /// The parent list repeats a hash.
    DuplicateParents,
    /// A declared parent is not in the store.
    UnknownParentBlock,
    /// `tx_root` is not the digest of the transaction sequence.
    TxRootMismatch,
    /// A genesis block must declare the well-defined initial state root.
    BadGenesisRoot,
    /// The header's nonce does not satisfy the declared proof-of-work target.
    BadPow,
    /// The header's signature does not verify under the declared signer.
    BadHeaderSignature,
    /// A transaction's signature does not verify under the declared signer.
    BadTransactionSignature,
    /// The external prover rejected the succinct state-transition proof.
    BadProof,
}

/// Whether every transaction's signature verifies under the block signer.
pub open spec fn txs_signed(b: Block) -> bool {
    forall|t: int|
        0 <= t < b.transactions@.len() ==> sig_verifies(
            (#[trigger] b.transactions@[t]).data@,
            b.transactions@[t].signature@,
            b.header.signer@,
        )
}

/// The validator's verdict as a function of its inputs: the checks run in
/// this order and stop at the first failure.
pub open spec fn validate_spec(b: Block, s: DagStore, proof_valid: bool) -> Result<
    (),
    ValidationError,
> {
    let pv = views(b.header.parents@);
    if pv.len() == 0 && s.n() != 0 {
        Err(ValidationError::MissingParents)
    } else if pv.len() > b.header.knight_params.max_parents {
        Err(ValidationError::TooManyParents)
    } else if !pv.no_duplicates() {
        Err(ValidationError::DuplicateParents)
    } else if exists|m: int| 0 <= m < pv.len() && !s.contains_hash_spec(#[trigger] pv[m]) {
        Err(ValidationError::UnknownParentBlock)
    } else if b.header.tx_root@ != tx_root_of(b.transactions@) {
        Err(ValidationError::TxRootMismatch)
    } else if pv.len() == 0 && b.header.state_root@ != initial_root() {
        Err(ValidationError::BadGenesisRoot)
    } else if !pow_accepts(signing_bytes(b.header), b.header.nonce, b.header.knight_params.pow_target) {
        Err(ValidationError::BadPow)
    } else if !sig_verifies(sig_message_of(b.header), b.header.pow_signature@, b.header.signer@) {
        Err(ValidationError::BadHeaderSignature)
    } else if !txs_signed(b) {
        Err(ValidationError::BadTransactionSignature)
    } else if !proof_valid {
        Err(ValidationError::BadProof)
    } else {
        Ok(())
    }
}

/// Validates a block against the DAG it arrives at. `proof_valid` is the
/// external prover collaborator's verdict on the block's succinct proof;
/// everything else is recomputed here. Pure: equal inputs give the equal
/// verdict, so re-validating an already-valid block accepts it again.
#[verifier::loop_isolation(false)]
pub fn validate(b: &Block, s: &DagStore, proof_valid: bool) -> (r: Result<(), ValidationError>)
    requires
        s.wf(),
    ensures
        r == validate_spec(*b, *s, proof_valid),
{
    let ghost pv = views(b.header.parents@);
    let n_parents = b.header.parents.len();
    if n_parents == 0 && s.len() != 0 {
        return Err(ValidationError::MissingParents);
    }
    if n_parents as u64 > b.header.knight_params.max_parents {
        return Err(ValidationError::TooManyParents);
    }
    let mut i: usize = 0;
    while i < n_parents
        invariant
            pv == views(b.header.parents@),
            n_parents == pv.len(),
            i <= n_parents,
            forall|x: int, y: int| 0 <= x < y < n_parents && x < i ==> pv[x] != pv[y],
        decreases n_parents - i,
    {
        let mut j: usize = i + 1;
        while j < n_parents
            invariant
                pv == views(b.header.parents@),
                n_parents == pv.len(),
                i < j <= n_parents,
                forall|y: int| i < y < j ==> pv[i as int] != pv[y],
            decreases n_parents - j,
        {
            if bytes_eq(&b.header.parents[i], &b.header.parents[j]) {
                proof {
                    assert(pv[i as int] == pv[j as int]);
                    assert(!pv.no_duplicates());
                }
                return Err(ValidationError::DuplicateParents);
            }
            j = j + 1;
        }
        i = i + 1;
    }
    proof {
        assert(pv.no_duplicates());
    }
    let mut m: usize = 0;
    while m < n_parents
        invariant
            s.wf(),
            pv == views(b.header.parents@),
            n_parents == pv.len(),
            m <= n_parents,
            forall|t: int| 0 <= t < m ==> s.contains_hash_spec(#[trigger] pv[t]),
        decreases n_parents - m,
    {
        match s.get(&b.header.parents[m]) {
            None => {
                proof {
                    assert(0 <= m < pv.len() && !s.contains_hash_spec(pv[m as int]));
                    assert(exists|t: int|
                        0 <= t < pv.len() && !s.contains_hash_spec(#[trigger] pv[t]));
                }
                return Err(ValidationError::UnknownParentBlock);
            },
            Some(_) => {},
        }
        m = m + 1;
    }
    let want_root = compute_tx_root(&b.transactions);
    if !bytes_eq(&b.header.tx_root, &want_root) {
        return Err(ValidationError::TxRootMismatch);
    }
    if n_parents == 0 {
        let init = genesis_root();
        if !bytes_eq(&b.header.state_root, &init) {
            return Err(ValidationError::BadGenesisRoot);
        }
    }
    let preimage = compute_signing_bytes(&b.header);
    if !verify_pow(&preimage, b.header.nonce, b.header.knight_params.pow_target) {
        return Err(ValidationError::BadPow);
    }
    let msg = compute_sig_message(&b.header);
    if !Keypair::verify(&msg, &b.header.pow_signature, &b.header.signer) {
        return Err(ValidationError::BadHeaderSignature);
    }
    let mut t: usize = 0;
    while t < b.transactions.len()
        invariant
            t <= b.transactions@.len(),
            forall|t2: int|
                0 <= t2 < t ==> sig_verifies(
                    (#[trigger] b.transactions@[t2]).data@,
                    b.transactions@[t2].signature@,
                    b.header.signer@,
                ),
        decreases b.transactions@.len() - t,
    {
        let tx = &b.transactions[t];
        if !Keypair::verify(&tx.data, &tx.signature, &b.header.signer) {
            proof {
                assert(!txs_signed(*b));
            }
            return Err(ValidationError::BadTransactionSignature);
        }
        t = t + 1;
    }
    if !proof_valid {
        return Err(ValidationError::BadProof);
    }
    Ok(())
}

} // verus!
