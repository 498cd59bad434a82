use chronos_core::model::{Transaction, encode_txs, compute_tx_root, genesis_root};
use chronos_core::crypto::blake3_hash;

#[test]
fn tx_wire_layout_is_fixed() {
    // count (u64 le) ++ version ++ len-prefixed payload ++ len-prefixed
    // signature ++ presence byte of the optional proof
    let txs = vec![Transaction {
        version: 3,
        data: vec![0xAA, 0xBB],
        signature: vec![0xCC],
        zk_proof: None,
    }];
    let enc = encode_txs(&txs);
    let expected: Vec<u8> = vec![
        1, 0, 0, 0, 0, 0, 0, 0, // one transaction
        3, // version
        2, 0, 0, 0, 0, 0, 0, 0, 0xAA, 0xBB, // payload
        1, 0, 0, 0, 0, 0, 0, 0, 0xCC, // signature
        0, // no auxiliary proof
    ];
    assert_eq!(enc, expected);
}

#[test]
fn optional_proof_is_length_prefixed() {
    let txs = vec![Transaction {
        version: 1,
        data: Vec::new(),
        signature: Vec::new(),
        zk_proof: Some(vec![0xEE]),
    }];
    let enc = encode_txs(&txs);
    let expected: Vec<u8> = vec![
        1, 0, 0, 0, 0, 0, 0, 0, // one transaction
        1, // version
        0, 0, 0, 0, 0, 0, 0, 0, // empty payload
        0, 0, 0, 0, 0, 0, 0, 0, // empty signature
        1, 1, 0, 0, 0, 0, 0, 0, 0, 0xEE, // present proof
    ];
    assert_eq!(enc, expected);
}

#[test]
fn tx_root_is_digest_of_encoding() {
    let txs = vec![Transaction {
        version: 2,
        data: b"x".to_vec(),
        signature: b"y".to_vec(),
        zk_proof: None,
    }];
    assert_eq!(compute_tx_root(&txs), blake3_hash(&encode_txs(&txs)));
    // flipping one payload bit changes the root
    let mut other = txs.clone();
    other[0].data[0] ^= 1;
    assert_ne!(compute_tx_root(&other), compute_tx_root(&txs));
}

#[test]
fn initial_root_is_all_zeroes() {
    assert_eq!(genesis_root(), vec![0u8; 32]);
}
