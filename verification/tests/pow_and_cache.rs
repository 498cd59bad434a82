use chronos_core::crypto::{solve_pow, verify_pow};
use chronos_core::state::{ProofCache, DEFAULT_CACHE_CAPACITY, CompressedState};

#[test]
fn pow_solve_then_verify_round_trip() {
    let preimage: Vec<u8> = b"block header preimage".to_vec();
    let target: u64 = 1u64 << 62;
    let nonce = solve_pow(&preimage, target).expect("a solution exists below an easy target");
    assert!(verify_pow(&preimage, nonce, target));
    // the solution is the first accepted nonce
    for m in 0..nonce {
        assert!(!verify_pow(&preimage, m, target));
    }
}

#[test]
fn pow_impossible_target_exhausts() {
    let preimage: Vec<u8> = b"p".to_vec();
    assert_eq!(solve_pow(&preimage, 0), None);
    assert!(!verify_pow(&preimage, 0, 0));
}

fn key_of(i: u32) -> Vec<u8> {
    let mut k = vec![0u8; 28];
    k.extend_from_slice(&i.to_le_bytes());
    k
}

#[test]
fn cache_holds_exactly_capacity_after_overflow() {
    let mut c = ProofCache::with_capacity(100);
    for i in 0..150u32 {
        c.put(&key_of(i), &key_of(i));
    }
    assert_eq!(c.len(), 100);
    // the 50 oldest keys were evicted, the 100 newest are present
    for i in 0..50u32 {
        assert_eq!(c.get(&key_of(i)), None);
    }
    for i in 50..150u32 {
        assert_eq!(c.get(&key_of(i)), Some(key_of(i)));
    }
}

#[test]
fn cache_evicts_least_recently_used() {
    let mut c = ProofCache::with_capacity(3);
    c.put(&key_of(1), &key_of(1));
    c.put(&key_of(2), &key_of(2));
    c.put(&key_of(3), &key_of(3));
    // touch key 1 so that key 2 is now the least recently used
    assert_eq!(c.get(&key_of(1)), Some(key_of(1)));
    c.put(&key_of(4), &key_of(4));
    assert_eq!(c.len(), 3);
    assert_eq!(c.get(&key_of(2)), None);
    assert_eq!(c.get(&key_of(1)), Some(key_of(1)));
    assert_eq!(c.get(&key_of(4)), Some(key_of(4)));
}

#[test]
fn default_capacity_is_one_hundred() {
    assert_eq!(DEFAULT_CACHE_CAPACITY, 100);
    let s = CompressedState::new();
    assert_eq!(s.cache_len(), 0);
    assert_eq!(s.position(), 0);
    assert_eq!(s.current_root(), &vec![0u8; 32]);
}
