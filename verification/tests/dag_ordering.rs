use chronos_core::model::{Block, BlockHeader, KnightParams, compute_block_hash, compute_tx_root};
use chronos_core::model::genesis_root;
use chronos_core::dag::{DagStore, ConsensusError};

fn params(k: u64) -> KnightParams {
    KnightParams { k, pow_target: u64::MAX, max_parents: 16 }
}

fn make_block(parents: Vec<Vec<u8>>, timestamp: u64, k: u64) -> Block {
    let txs = Vec::new();
    let tx_root = compute_tx_root(&txs);
    let state_root = if parents.is_empty() { genesis_root() } else { vec![7u8; 32] };
    Block {
        header: BlockHeader {
            parents,
            nonce: 0,
            timestamp,
            state_root,
            tx_root,
            knight_params: params(k),
            signer: Vec::new(),
            pow_signature: Vec::new(),
            snark_proof: vec![0u8; 32],
        },
        transactions: txs,
    }
}

#[test]
fn insert_reports_each_admission_error() {
    let mut store = DagStore::new();
    let genesis = make_block(Vec::new(), 0, 16);
    let gh = compute_block_hash(&genesis.header);
    assert_eq!(store.insert(genesis.clone()), Ok(()));
    // the same block again is a duplicate
    assert_eq!(store.insert(genesis.clone()), Err(ConsensusError::Duplicate));
    // a parent nobody has seen
    let orphan = make_block(vec![vec![9u8; 32]], 1, 16);
    assert_eq!(store.insert(orphan), Err(ConsensusError::UnknownParent));
    assert_eq!(store.len(), 1);
    // a proper child is admitted
    let child = make_block(vec![gh.clone()], 2, 16);
    assert_eq!(store.insert(child), Ok(()));
    assert_eq!(store.len(), 2);
}

#[test]
fn tips_are_blocks_without_children() {
    let mut store = DagStore::new();
    let genesis = make_block(Vec::new(), 0, 16);
    let gh = compute_block_hash(&genesis.header);
    store.insert(genesis).unwrap();
    assert_eq!(store.tips(), vec![gh.clone()]);
    let a = make_block(vec![gh.clone()], 1, 16);
    let ah = compute_block_hash(&a.header);
    let b = make_block(vec![gh.clone()], 2, 16);
    let bh = compute_block_hash(&b.header);
    store.insert(a).unwrap();
    store.insert(b).unwrap();
    let tips = store.tips();
    assert_eq!(tips.len(), 2);
    assert!(tips.contains(&ah));
    assert!(tips.contains(&bh));
    assert!(!tips.contains(&gh));
}

#[test]
fn diamond_order_is_insertion_order_independent() {
    // A and B both parent genesis; C parents both: the virtual order puts
    // genesis first, C last, and A/B in a fixed relative order, identically
    // for both insertion histories.
    let genesis = make_block(Vec::new(), 0, 16);
    let gh = compute_block_hash(&genesis.header);
    let a = make_block(vec![gh.clone()], 1, 16);
    let ah = compute_block_hash(&a.header);
    let b = make_block(vec![gh.clone()], 2, 16);
    let bh = compute_block_hash(&b.header);
    let c = make_block(vec![ah.clone(), bh.clone()], 3, 16);
    let ch = compute_block_hash(&c.header);

    let mut s1 = DagStore::new();
    s1.insert(genesis.clone()).unwrap();
    s1.insert(a.clone()).unwrap();
    s1.insert(b.clone()).unwrap();
    s1.insert(c.clone()).unwrap();

    let mut s2 = DagStore::new();
    s2.insert(genesis.clone()).unwrap();
    s2.insert(b.clone()).unwrap();
    s2.insert(a.clone()).unwrap();
    s2.insert(c.clone()).unwrap();

    let o1 = s1.virtual_order();
    let o2 = s2.virtual_order();
    assert_eq!(o1, o2);
    assert_eq!(o1.len(), 4);
    assert_eq!(o1[0], gh);
    assert_eq!(o1[3], ch);
    // A and B sit between, in lexicographic hash order
    let (lo, hi) = if ah <= bh { (ah, bh) } else { (bh, ah) };
    assert_eq!(o1[1], lo);
    assert_eq!(o1[2], hi);
}

#[test]
fn order_is_a_linear_extension() {
    let genesis = make_block(Vec::new(), 0, 16);
    let gh = compute_block_hash(&genesis.header);
    let a = make_block(vec![gh.clone()], 1, 16);
    let ah = compute_block_hash(&a.header);
    let c = make_block(vec![ah.clone()], 2, 16);
    let ch = compute_block_hash(&c.header);
    let mut store = DagStore::new();
    store.insert(genesis).unwrap();
    store.insert(a).unwrap();
    store.insert(c).unwrap();
    let order = store.virtual_order();
    let pos =
        |h: &Vec<u8>| order.iter().position(|x| x == h).expect("every block is ordered");
    assert!(pos(&gh) < pos(&ah));
    assert!(pos(&ah) < pos(&ch));
}

#[test]
fn wide_anticone_is_rejected_and_dag_unchanged() {
    // Three concurrent blocks are admitted under a wide bound; a fourth
    // carrying k = 0 sees an anticone of two blocks and is turned away.
    let genesis = make_block(Vec::new(), 0, 16);
    let gh = compute_block_hash(&genesis.header);
    let a = make_block(vec![gh.clone()], 1, 16);
    let b = make_block(vec![gh.clone()], 2, 16);
    let mut store = DagStore::new();
    store.insert(genesis).unwrap();
    store.insert(a).unwrap();
    store.insert(b).unwrap();
    let order_before = store.virtual_order();
    let narrow = make_block(vec![gh.clone()], 3, 0);
    assert_eq!(store.insert(narrow), Err(ConsensusError::SecurityBoundExceeded));
    assert_eq!(store.len(), 3);
    assert_eq!(store.virtual_order(), order_before);
    // the same block under a wide enough bound is admitted
    let wide = make_block(vec![gh.clone()], 3, 2);
    assert_eq!(store.insert(wide), Ok(()));
    assert_eq!(store.len(), 4);
}

#[test]
fn get_returns_admitted_blocks() {
    let mut store = DagStore::new();
    let genesis = make_block(Vec::new(), 0, 16);
    let gh = compute_block_hash(&genesis.header);
    store.insert(genesis.clone()).unwrap();
    let got = store.get(&gh).expect("genesis is stored");
    assert_eq!(got.header.timestamp, 0);
    assert!(store.get(&vec![1u8; 32]).is_none());
}
