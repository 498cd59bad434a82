//! The DAGKnight consensus engine: holds the DAG store and the configured
//! ordering parameters, assembles and mines candidate blocks over the
//! current tip set, and judges incoming blocks.

use vstd::prelude::*;
use crate::bytes::{u64_le, len_prefixed};
use crate::model::{Block, BlockHeader, Transaction, KnightParams};
use crate::model::{signing_bytes, sig_message_of, tx_root_of, initial_root, parents_bytes};
use crate::model::{compute_tx_root, compute_signing_bytes, genesis_root};
use crate::crypto::{pow_accepts, solve_pow, blake3_hash};
use crate::sig::{Keypair, sig_verifies};
use crate::state::{transition_root_of, cache_key_of};
use crate::dag::{DagStore, views, clone_bytes};
use crate::validator::{validate, validate_spec, txs_signed};

verus! {

/// The consensus engine: the store of admitted blocks plus the ordering
/// parameters every locally mined block will carry.
pub struct DagKnightConsensus {
    /// The DAG of admitted blocks.
    pub store: DagStore,
    /// The parameters stamped into locally mined headers.
    pub params: KnightParams,
}

/// The parent list a locally mined block carries: the current tips in arena
/// order, truncated to the parent-count bound.
pub open spec fn mined_parents(s: DagStore, max_parents: u64) -> Seq<Seq<u8>> {
    if s.tips_seq().len() <= max_parents {
        s.tips_seq()
    } else {
        s.tips_seq().take(max_parents as int)
    }
}

/// The state root a candidate block declares: the well-defined initial root
/// for a genesis candidate, else the transition from `pre_root`.
pub open spec fn candidate_state_root(
    s: DagStore,
    max_parents: u64,
    txs: Seq<Transaction>,
    pre_root: Seq<u8>,
) -> Seq<u8> {
    if mined_parents(s, max_parents).len() == 0 {
        initial_root()
    } else {
        transition_root_of(pre_root, tx_root_of(txs))
    }
}

/// The proof-of-work preimage of the candidate header the miner assembles:
/// a function of the store and the mining inputs alone, so the contract can
/// say when the bounded search was exhausted.
pub open spec fn candidate_preimage(
    s: DagStore,
    params: KnightParams,
    txs: Seq<Transaction>,
    timestamp: u64,
    pre_root: Seq<u8>,
    signer: Seq<u8>,
) -> Seq<u8> {
    let ps = mined_parents(s, params.max_parents);
    u64_le(ps.len() as u64) + parents_bytes(ps) + u64_le(timestamp) + len_prefixed(
        candidate_state_root(s, params.max_parents, txs, pre_root),
    ) + len_prefixed(tx_root_of(txs)) + u64_le(params.k) + u64_le(params.pow_target) + u64_le(
        params.max_parents,
    ) + len_prefixed(signer)
}

impl DagKnightConsensus {
    /// An engine over an empty DAG.
    pub fn new(params: KnightParams) -> (r: DagKnightConsensus)
        ensures
            r.store.wf(),
            r.store.n() == 0,
            r.params == params,
    {
        DagKnightConsensus { store: DagStore::new(), params }
    }

    /// Assembles a candidate block over the current tips and mines it:
    /// fills the header, searches the bounded nonce space, and signs the
    /// result. `pre_root` is the state root the new block builds on and
    /// `snark_proof` the externally generated succinct proof for the
    /// speculative transition. Returns `None` exactly when the bounded
    /// proof-of-work search is exhausted.
    #[verifier::rlimit(100)]
    pub fn mine_block(
        &self,
        txs: Vec<Transaction>,
        timestamp: u64,
        pre_root: &Vec<u8>,
        keypair: &Keypair,
        snark_proof: Vec<u8>,
    ) -> (r: Option<Block>)
        requires
            self.store.wf(),
            keypair.wf(),
        ensures
            match r {
                Some(b) => {
                    &&& b.transactions == txs
                    &&& views(b.header.parents@) == mined_parents(
                        self.store,
                        self.params.max_parents,
                    )
                    &&& views(b.header.parents@).no_duplicates()
                    &&& b.header.parents@.len() <= self.params.max_parents
                    &&& (self.store.n() > 0 && self.params.max_parents >= 1
                        ==> b.header.parents@.len() > 0)
                    &&& pow_accepts(
                        signing_bytes(b.header),
                        b.header.nonce,
                        self.params.pow_target,
                    )
                    &&& sig_verifies(
                        sig_message_of(b.header),
                        b.header.pow_signature@,
                        keypair.public_view(),
                    )
                    &&& b.header.signer@ == keypair.public_view()
                    &&& b.header.tx_root@ == tx_root_of(txs@)
                    &&& b.header.knight_params == self.params
                    &&& b.header.timestamp == timestamp
                    &&& b.header.state_root@ == candidate_state_root(
                        self.store,
                        self.params.max_parents,
                        txs@,
                        pre_root@,
                    )
                    &&& forall|m: int|
                        0 <= m < b.header.parents@.len() ==> self.store.contains_hash_spec(
                            views(b.header.parents@)[m],
                        ) && self.store.is_tip(self.store.idx_of(views(b.header.parents@)[m]))
                    &&& ((self.params.max_parents >= 1 && (forall|t: int|
                        0 <= t < txs@.len() ==> sig_verifies(
                            (#[trigger] txs@[t]).data@,
                            txs@[t].signature@,
                            keypair.public_view(),
                        ))) ==> validate_spec(b, self.store, true) is Ok)
                },
                None => forall|m: u64|
                    m < self.params.pow_target ==> !pow_accepts(
                        candidate_preimage(
                            self.store,
                            self.params,
                            txs@,
                            timestamp,
                            pre_root@,
                            keypair.public_view(),
                        ),
                        m,
                        self.params.pow_target,
                    ),
            },
    {
        let ghost tseq = self.store.tips_seq();
        let ghost mp = mined_parents(self.store, self.params.max_parents);
        let mut parents = self.store.tips();
        proof {
            assert(views(parents@) =~= tseq.take(parents@.len() as int));
        }
        while parents.len() as u64 > self.params.max_parents
            invariant
                self.store.wf(),
                tseq == self.store.tips_seq(),
                parents@.len() <= tseq.len(),
                parents@.len() as u64 >= self.params.max_parents || parents@.len() == tseq.len(),
                views(parents@) == tseq.take(parents@.len() as int),
                tseq.no_duplicates(),
                forall|i: int|
                    0 <= i < self.store.n() ==> (self.store.is_tip(i) <==> tseq.contains(
                        #[trigger] self.store.hash_at(i),
                    )),
                forall|h: Seq<u8>|
                    tseq.contains(h) ==> self.store.contains_hash_spec(h) && self.store.is_tip(
                        self.store.idx_of(h),
                    ),
            decreases parents@.len(),
        {
            let ghost before = views(parents@);
            parents.pop();
            proof {
                assert(views(parents@) =~= before.drop_last());
                assert(views(parents@) =~= tseq.take(parents@.len() as int));
            }
        }
        proof {
            if tseq.len() <= self.params.max_parents {
                assert(views(parents@) =~= tseq);
            }
            assert(views(parents@) == mp);
            assert(views(parents@).no_duplicates()) by {
                assert(forall|x: int, y: int|
                    0 <= x < y < views(parents@).len() ==> tseq[x] != tseq[y]);
            };
            if self.store.n() > 0 && self.params.max_parents >= 1 {
                self.store.lemma_last_is_tip();
                assert(tseq.contains(self.store.hash_at(self.store.n() - 1)));
                assert(tseq.len() > 0);
                assert(parents@.len() > 0);
            }
            assert forall|m: int| 0 <= m < parents@.len() implies self.store.contains_hash_spec(
                #[trigger] views(parents@)[m],
            ) && self.store.is_tip(self.store.idx_of(views(parents@)[m])) by {
                assert(tseq.contains(views(parents@)[m]));
            };
        }
        let tx_root = compute_tx_root(&txs);
        let state_root: Vec<u8> = if parents.len() == 0 {
            genesis_root()
        } else {
            let mut key = clone_bytes(pre_root);
            let mut t: usize = 0;
            while t < tx_root.len()
                invariant
                    t <= tx_root@.len(),
                    tx_root@ == tx_root_of(txs@),
                    key@ == pre_root@ + tx_root@.take(t as int),
                decreases tx_root@.len() - t,
            {
                key.push(tx_root[t]);
                t = t + 1;
                proof {
                    assert(key@ =~= pre_root@ + tx_root@.take(t as int));
                }
            }
            proof {
                assert(key@ =~= cache_key_of(pre_root@, tx_root_of(txs@)));
            }
            blake3_hash(&key)
        };
        proof {
            assert(state_root@ == candidate_state_root(
                self.store,
                self.params.max_parents,
                txs@,
                pre_root@,
            ));
        }
        let mut header = BlockHeader {
            parents,
            nonce: 0,
            timestamp,
            state_root,
            tx_root,
            knight_params: self.params,
            signer: clone_bytes(keypair.public_key()),
            pow_signature: Vec::new(),
            snark_proof,
        };
        let preimage = compute_signing_bytes(&header);
        proof {
            assert(preimage@ =~= candidate_preimage(
                self.store,
                self.params,
                txs@,
                timestamp,
                pre_root@,
                keypair.public_view(),
            ));
        }
        let nonce = match solve_pow(&preimage, self.params.pow_target) {
            None => {
                return None;
            },
            Some(nonce) => nonce,
        };
        header.nonce = nonce;
        proof {
            assert(signing_bytes(header) =~= preimage@);
        }
        let msg = crate::model::compute_sig_message(&header);
        let signature = keypair.sign(&msg);
        header.pow_signature = signature;
        proof {
            assert(signing_bytes(header) =~= preimage@);
            assert(sig_message_of(header) =~= msg@);
        }
        let block = Block { header, transactions: txs };
        proof {
            let pv = views(block.header.parents@);
            assert(pv == mp);
            if self.params.max_parents >= 1 && (forall|t: int|
                0 <= t < txs@.len() ==> sig_verifies(
                    (#[trigger] txs@[t]).data@,
                    txs@[t].signature@,
                    keypair.public_view(),
                )) {
                if self.store.n() > 0 {
                    self.store.lemma_last_is_tip();
                    assert(tseq.contains(self.store.hash_at(self.store.n() - 1)));
                    assert(tseq.len() > 0);
                    if tseq.len() > self.params.max_parents {
                        assert(mp.len() == self.params.max_parents);
                    }
                    assert(mp.len() > 0);
                }
                self.store.lemma_n_nonneg();
                assert(!(pv.len() == 0 && self.store.n() != 0));
                assert(!(pv.len() > block.header.knight_params.max_parents));
                assert(!(exists|m: int|
                    0 <= m < pv.len() && !self.store.contains_hash_spec(#[trigger] pv[m])));
                assert(pv.len() == 0 ==> block.header.state_root@ == initial_root());
                assert(txs_signed(block)) by {
                    assert forall|t: int| 0 <= t < block.transactions@.len() implies sig_verifies(
                        (#[trigger] block.transactions@[t]).data@,
                        block.transactions@[t].signature@,
                        block.header.signer@,
                    ) by {
                        assert(block.transactions@[t] == txs@[t]);
                    };
                };
                assert(validate_spec(block, self.store, true) is Ok);
            }
        }
        Some(block)
    }

    /// Judges an incoming block: true exactly when the validator accepts it
    /// against the current DAG. `proof_valid` is the external prover
    /// collaborator's verdict on the block's succinct proof.
    pub fn verify_block(&self, block: &Block, proof_valid: bool) -> (r: bool)
        requires
            self.store.wf(),
        ensures
            r == (validate_spec(*block, self.store, proof_valid) is Ok),
    {
        match validate(block, &self.store, proof_valid) {
            Ok(()) => true,
            Err(_) => false,
        }
    }
}

} // verus!
