use chronos_core::model::{Block, BlockHeader, KnightParams, compute_block_hash, compute_tx_root};
use chronos_core::model::{Transaction, genesis_root};
use chronos_core::dag::DagStore;
use chronos_core::validator::{validate, ValidationError};
use chronos_core::state::{CompressedState, StateError};
use chronos_core::consensus::DagKnightConsensus;
use chronos_core::prover::ProverService;
use chronos_core::sig::Keypair;
use chronos_core::crypto::blake3_hash;

fn params() -> KnightParams {
    KnightParams { k: 16, pow_target: u64::MAX, max_parents: 16 }
}

fn plain_block(parents: Vec<Vec<u8>>, timestamp: u64, txs: Vec<Transaction>) -> Block {
    let tx_root = compute_tx_root(&txs);
    let state_root = if parents.is_empty() { genesis_root() } else { vec![7u8; 32] };
    Block {
        header: BlockHeader {
            parents,
            nonce: 0,
            timestamp,
            state_root,
            tx_root,
            knight_params: params(),
            signer: Vec::new(),
            pow_signature: Vec::new(),
            snark_proof: vec![0u8; 32],
        },
        transactions: txs,
    }
}

#[test]
fn validator_rejects_structural_faults() {
    let mut store = DagStore::new();
    let genesis = plain_block(Vec::new(), 0, Vec::new());
    let gh = compute_block_hash(&genesis.header);
    store.insert(genesis).unwrap();

    // a non-genesis block with no parents
    let orphanless = plain_block(Vec::new(), 1, Vec::new());
    assert_eq!(validate(&orphanless, &store, true), Err(ValidationError::MissingParents));

    // repeated parents
    let doubled = plain_block(vec![gh.clone(), gh.clone()], 1, Vec::new());
    assert_eq!(validate(&doubled, &store, true), Err(ValidationError::DuplicateParents));

    // an unknown parent
    let orphan = plain_block(vec![vec![9u8; 32]], 1, Vec::new());
    assert_eq!(validate(&orphan, &store, true), Err(ValidationError::UnknownParentBlock));

    // more parents than the header's own bound
    let mut narrow = plain_block(vec![gh.clone()], 1, Vec::new());
    narrow.header.knight_params.max_parents = 0;
    assert_eq!(validate(&narrow, &store, true), Err(ValidationError::TooManyParents));

    // a genesis block whose state root is not the initial root
    let mut bad_genesis = plain_block(Vec::new(), 1, Vec::new());
    bad_genesis.header.state_root = vec![1u8; 32];
    let empty = DagStore::new();
    assert_eq!(validate(&bad_genesis, &empty, true), Err(ValidationError::BadGenesisRoot));
}

#[test]
fn tampered_payload_never_passes_silently() {
    let mut store = DagStore::new();
    let genesis = plain_block(Vec::new(), 0, Vec::new());
    let gh = compute_block_hash(&genesis.header);
    store.insert(genesis).unwrap();

    let tx = Transaction {
        version: 1,
        data: b"pay 10 to m".to_vec(),
        signature: vec![0u8; 4],
        zk_proof: None,
    };
    let mut block = plain_block(vec![gh], 1, vec![tx]);
    // flip one bit of the payload without refreshing tx_root
    block.transactions[0].data[0] ^= 1;
    assert_eq!(validate(&block, &store, true), Err(ValidationError::TxRootMismatch));
}

#[test]
fn unsigned_or_unworked_headers_are_rejected() {
    let store = DagStore::new();
    // an all-accepting target lets the structural and proof-of-work checks
    // pass, so the missing signature is what fails
    let genesis = plain_block(Vec::new(), 0, Vec::new());
    assert_eq!(validate(&genesis, &store, true), Err(ValidationError::BadHeaderSignature));
    // an unsatisfiable target fails earlier, at the proof-of-work check
    let mut unworked = plain_block(Vec::new(), 0, Vec::new());
    unworked.header.knight_params.pow_target = 0;
    assert_eq!(validate(&unworked, &store, true), Err(ValidationError::BadPow));
    let _ = ProverService::new();
}

#[test]
fn apply_block_walks_the_virtual_order() {
    let mut store = DagStore::new();
    let genesis = plain_block(Vec::new(), 0, Vec::new());
    let gh = compute_block_hash(&genesis.header);
    store.insert(genesis.clone()).unwrap();
    let mut child = plain_block(vec![gh.clone()], 1, Vec::new());
    // declare the root the transition actually reaches: blake3(pre ++ tx_root)
    let mut key = genesis_root();
    key.extend_from_slice(&child.header.tx_root);
    child.header.state_root = blake3_hash(&key);
    let ch = compute_block_hash(&child.header);
    store.insert(child.clone()).unwrap();
    let order = store.virtual_order();
    assert_eq!(order, vec![gh.clone(), ch.clone()]);

    let mut state = CompressedState::new();
    // the child is not first in the order
    assert_eq!(state.apply_block(&child, &order), Err(StateError::OutOfOrder));
    // genesis applies and sets the initial root
    assert_eq!(state.apply_block(&genesis, &order), Ok(genesis_root()));
    assert_eq!(state.current_root(), &genesis_root());
    assert_eq!(state.position(), 1);
    // applying genesis twice is out of order
    assert_eq!(state.apply_block(&genesis, &order), Err(StateError::OutOfOrder));
    // the child applies next and advances the root
    let new_root = state.apply_block(&child, &order).expect("child is next");
    assert_eq!(state.current_root(), &new_root);
    assert_eq!(new_root, child.header.state_root);
    assert_eq!(state.position(), 2);
}

#[test]
fn mismatched_state_root_is_fatal_for_the_block() {
    let mut store = DagStore::new();
    let genesis = plain_block(Vec::new(), 0, Vec::new());
    let gh = compute_block_hash(&genesis.header);
    store.insert(genesis.clone()).unwrap();
    let child = plain_block(vec![gh.clone()], 1, Vec::new());
    store.insert(child.clone()).unwrap();
    let order = store.virtual_order();
    let mut state = CompressedState::new();
    state.apply_block(&genesis, &order).unwrap();
    // the child declared vec![7; 32], which no transition reaches
    assert_eq!(state.apply_block(&child, &order), Err(StateError::RootMismatch));
    assert_eq!(state.position(), 1);
    assert_eq!(state.current_root(), &genesis_root());
}

#[test]
fn mined_genesis_passes_validation_and_applies() {
    let keypair = Keypair::new();
    let engine = DagKnightConsensus::new(KnightParams {
        k: 16,
        pow_target: u64::MAX / 2,
        max_parents: 16,
    });
    let pre_root = genesis_root();
    let block = engine
        .mine_block(Vec::new(), 42, &pre_root, &keypair, vec![0u8; 32])
        .expect("an easy target is solved");
    assert!(engine.verify_block(&block, true));
    // a rejected succinct proof is fatal and is the only remaining gate
    assert!(!engine.verify_block(&block, false));
    assert_eq!(validate(&block, &engine.store, false), Err(ValidationError::BadProof));

    let mut engine = engine;
    engine.store.insert(block.clone()).unwrap();
    let order = engine.store.virtual_order();
    let mut state = CompressedState::new();
    assert_eq!(state.apply_block(&block, &order), Ok(genesis_root()));

    // a second mined block builds on the tip set and advances the root
    let child = engine
        .mine_block(Vec::new(), 43, state.current_root(), &keypair, vec![0u8; 32])
        .expect("an easy target is solved");
    assert_eq!(child.header.parents, vec![compute_block_hash(&block.header)]);
    assert!(engine.verify_block(&child, true));
    engine.store.insert(child.clone()).unwrap();
    let order = engine.store.virtual_order();
    let root = state.apply_block(&child, &order).expect("child is next in order");
    assert_eq!(root, child.header.state_root);
    assert_eq!(state.position(), 2);
}

#[test]
fn signatures_verify_only_untampered() {
    let keypair = Keypair::new();
    let msg = b"header commitment".to_vec();
    let sig = keypair.sign(&msg);
    assert!(Keypair::verify(&msg, &sig, keypair.public_key()));
    let mut bad = sig.clone();
    bad[0] ^= 1;
    assert!(!Keypair::verify(&msg, &bad, keypair.public_key()));
    let mut other = msg.clone();
    other[0] ^= 1;
    assert!(!Keypair::verify(&other, &sig, keypair.public_key()));
}
