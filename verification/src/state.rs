//! State transition engine and proof cache: applies a totally ordered block
//! to the compressed state root, memoizing transition witnesses in a
//! capacity-bounded cache with least-recently-used eviction.

use vstd::prelude::*;
use crate::bytes::bytes_eq;
use crate::model::{Block, block_hash_of, initial_root};
use crate::model::{compute_block_hash, genesis_root};
use crate::crypto::{blake3_of, blake3_hash};
use crate::dag::{views, clone_bytes};

verus! {

#[verifier::external_type_specification]
#[verifier::external_body]
#[verifier::reject_recursive_types(K)]
#[verifier::reject_recursive_types(V)]
#[verifier::reject_recursive_types(S)]
pub struct ExLruCache<K, V, S>(lru::LruCache<K, V, S>);

/// The entries of an LRU cache, most recently used first, as pairs of key
/// and value bytes.
pub uninterp spec fn cache_view(c: lru::LruCache<Vec<u8>, Vec<u8>, std::collections::hash_map::RandomState>) -> Seq<(Seq<u8>, Seq<u8>)>;

/// The capacity an LRU cache was constructed with.
pub uninterp spec fn cache_cap(c: lru::LruCache<Vec<u8>, Vec<u8>, std::collections::hash_map::RandomState>) -> nat;

/// The entries of `view` whose key is not `k`, in unchanged recency order.
pub open spec fn remove_key(view: Seq<(Seq<u8>, Seq<u8>)>, k: Seq<u8>) -> Seq<(Seq<u8>, Seq<u8>)> {
    view.filter(|e: (Seq<u8>, Seq<u8>)| e.0 != k)
}

/// The value stored under `k`, if any.
pub open spec fn assoc_lookup(view: Seq<(Seq<u8>, Seq<u8>)>, k: Seq<u8>) -> Option<Seq<u8>>
    decreases view.len(),
{
    if view.len() == 0 {
        Option::None
    } else if view[0].0 == k {
        Option::Some(view[0].1)
    } else {
        assoc_lookup(view.drop_first(), k)
    }
}

/// A sequence truncated to at most `cap` entries.
pub open spec fn capped(s: Seq<(Seq<u8>, Seq<u8>)>, cap: nat) -> Seq<(Seq<u8>, Seq<u8>)> {
    if s.len() <= cap {
        s
    } else {
        s.take(cap as int)
    }
}

/// Relies on lru::LruCache::with_hasher: an empty cache with the given capacity.
#[verifier::external_body]
fn lru_new(cap: usize) -> (r: lru::LruCache<Vec<u8>, Vec<u8>, std::collections::hash_map::RandomState>)
    requires
        cap >= 1,
    ensures
        cache_view(r) == Seq::<(Seq<u8>, Seq<u8>)>::empty(),
        cache_cap(r) == cap,
{
    lru::LruCache::with_hasher(
        core::num::NonZeroUsize::new(cap).unwrap(),
        std::collections::hash_map::RandomState::new(),
    )
}

/// Relies on lru::LruCache::put: stores the pair and promotes the key to
/// most recently used; if a fresh key would exceed the capacity, the least
/// recently used entry is evicted first.
#[verifier::external_body]
fn lru_put(c: &mut lru::LruCache<Vec<u8>, Vec<u8>, std::collections::hash_map::RandomState>, k: &Vec<u8>, v: &Vec<u8>)
    ensures
        cache_cap(*final(c)) == cache_cap(*old(c)),
        cache_view(*final(c)) == capped(
            seq![(k@, v@)] + remove_key(cache_view(*old(c)), k@),
            cache_cap(*old(c)),
        ),
{
    c.put(k.clone(), v.clone());
}

/// Relies on lru::LruCache::get: returns the stored value and promotes the
/// entry to most recently used; an absent key leaves the cache unchanged.
#[verifier::external_body]
fn lru_get(c: &mut lru::LruCache<Vec<u8>, Vec<u8>, std::collections::hash_map::RandomState>, k: &Vec<u8>) -> (r: Option<Vec<u8>>)
    ensures
        cache_cap(*final(c)) == cache_cap(*old(c)),
        cache_view(*final(c)).len() == cache_view(*old(c)).len(),
        match assoc_lookup(cache_view(*old(c)), k@) {
            Option::Some(v) => (match r {
                Option::Some(rv) => rv@ == v,
                Option::None => false,
            }) && cache_view(*final(c)) == seq![(k@, v)] + remove_key(cache_view(*old(c)), k@),
            Option::None => r is None && cache_view(*final(c)) == cache_view(*old(c)),
        },
{
    c.get(k).cloned()
}

/// Relies on lru::LruCache::len: the number of stored entries.
#[verifier::external_body]
fn lru_len(c: &lru::LruCache<Vec<u8>, Vec<u8>, std::collections::hash_map::RandomState>) -> (r: usize)
    ensures
        r as int == cache_view(*c).len(),
{
    c.len()
}

/// The capacity-bounded transition-witness cache with least-recently-used
/// eviction. Keys derive from the pre-state root and the block's transaction
/// commitment; the value is the resulting state root.
pub struct ProofCache {
    inner: lru::LruCache<Vec<u8>, Vec<u8>, std::collections::hash_map::RandomState>,
}

impl ProofCache {
    /// The entries, most recently used first.
    pub closed spec fn entries(self) -> Seq<(Seq<u8>, Seq<u8>)> {
        cache_view(self.inner)
    }

    /// The configured capacity.
    pub closed spec fn cap(self) -> nat {
        cache_cap(self.inner)
    }

    /// The cache never exceeds its configured capacity.
    pub closed spec fn wf(self) -> bool {
        self.cap() >= 1 && self.entries().len() <= self.cap()
    }

    /// An empty cache with the given capacity.
    pub fn with_capacity(cap: usize) -> (r: ProofCache)
        requires
            cap >= 1,
        ensures
            r.wf(),
            r.cap() == cap,
            r.entries() == Seq::<(Seq<u8>, Seq<u8>)>::empty(),
    {
        ProofCache { inner: lru_new(cap) }
    }

    /// Stores `v` under `k`, promoting `k` to most recently used and
    /// evicting the least recently used entry if a fresh key would exceed
    /// the capacity. The bound on the entry count is preserved.
    pub fn put(&mut self, k: &Vec<u8>, v: &Vec<u8>)
        requires
            old(self).wf(),
        ensures
            final(self).wf(),
            final(self).cap() == old(self).cap(),
            final(self).entries() == capped(
                seq![(k@, v@)] + remove_key(old(self).entries(), k@),
                old(self).cap(),
            ),
    {
        lru_put(&mut self.inner, k, v);
        proof {
            let pushed = seq![(k@, v@)] + remove_key(cache_view(old(self).inner), k@);
            if pushed.len() > cache_cap(old(self).inner) {
                assert(capped(pushed, cache_cap(old(self).inner)).len() == cache_cap(
                    old(self).inner,
                ));
            }
        }
    }

    /// Looks `k` up, promoting the entry to most recently used on a hit.
    pub fn get(&mut self, k: &Vec<u8>) -> (r: Option<Vec<u8>>)
        requires
            old(self).wf(),
        ensures
            final(self).wf(),
            final(self).cap() == old(self).cap(),
            match assoc_lookup(old(self).entries(), k@) {
                Option::Some(v) => (match r {
                    Option::Some(rv) => rv@ == v,
                    Option::None => false,
                }) && final(self).entries() == seq![(k@, v)] + remove_key(
                    old(self).entries(),
                    k@,
                ),
                Option::None => r is None && final(self).entries() == old(self).entries(),
            },
    {
        lru_get(&mut self.inner, k)
    }

    /// The number of stored entries.
    pub fn len(&self) -> (r: usize)
        ensures
            r as int == self.entries().len(),
    {
        lru_len(&self.inner)
    }
}

/// Every memoized witness is the digest its key determines.
pub open spec fn digest_ok(s: Seq<(Seq<u8>, Seq<u8>)>) -> bool {
    forall|i: int| 0 <= i < s.len() ==> (#[trigger] s[i]).1 == blake3_of(s[i].0)
}

/// An element of `remove_key(view, k)` is an element of `view`.
proof fn lemma_remove_key_subset(view: Seq<(Seq<u8>, Seq<u8>)>, k: Seq<u8>, i: int)
    requires
        0 <= i < remove_key(view, k).len(),
    ensures
        view.contains(remove_key(view, k)[i]),
    decreases view.len(),
{
    reveal(Seq::filter);
    let out = remove_key(view, k);
    let rest = remove_key(view.drop_last(), k);
    assert(view.len() > 0);
    if view.last().0 != k && i == out.len() - 1 {
        assert(view[view.len() - 1] == out[i]);
    } else {
        assert(out[i] == rest[i]);
        lemma_remove_key_subset(view.drop_last(), k, i);
        let w = choose|w: int|
            0 <= w < view.drop_last().len() && #[trigger] view.drop_last()[w] == rest[i];
        assert(view[w] == out[i]);
    }
}

/// Pushing a digest entry onto a digest-consistent view, minus its key,
/// stays digest-consistent.
proof fn lemma_push_digest(older: Seq<(Seq<u8>, Seq<u8>)>, k: Seq<u8>, v: Seq<u8>)
    requires
        v == blake3_of(k),
        digest_ok(older),
    ensures
        digest_ok(seq![(k, v)] + remove_key(older, k)),
{
    let pushed = seq![(k, v)] + remove_key(older, k);
    assert forall|i: int| 0 <= i < pushed.len() implies (#[trigger] pushed[i]).1 == blake3_of(
        pushed[i].0,
    ) by {
        if i > 0 {
            assert(pushed[i] == remove_key(older, k)[i - 1]);
            lemma_remove_key_subset(older, k, i - 1);
            let w = choose|w: int| 0 <= w < older.len() && #[trigger] older[w] == pushed[i];
        }
    };
}

/// Truncation keeps digest consistency.
proof fn lemma_capped_digest(s: Seq<(Seq<u8>, Seq<u8>)>, cap: nat)
    requires
        digest_ok(s),
    ensures
        digest_ok(capped(s, cap)),
{
    assert forall|i: int| 0 <= i < capped(s, cap).len() implies (#[trigger] capped(s, cap)[i]).1
        == blake3_of(capped(s, cap)[i].0) by {
        assert(capped(s, cap)[i] == s[i]);
    };
}

/// Failures of state application.
#[derive(Clone, Copy, PartialEq, Eq, Structural, Debug)]
pub enum StateError {
    /// The block is not the one the virtual order places immediately after
    /// the engine's current position; it may apply once its predecessors do.
    OutOfOrder,
    /// The recomputed root disagrees with the block's declared `state_root`:
    /// an integrity failure, fatal for this block.
    RootMismatch,
}

/// The default proof-cache capacity.
pub const DEFAULT_CACHE_CAPACITY: usize = 100;

/// The root reached by applying a block with transaction commitment `txr`
/// to the state rooted at `pre`.
pub open spec fn transition_root_of(pre: Seq<u8>, txr: Seq<u8>) -> Seq<u8> {
    blake3_of(pre + txr)
}

/// The memoization key of a transition: the pre-state root joined with the
/// block's transaction commitment.
pub open spec fn cache_key_of(pre: Seq<u8>, txr: Seq<u8>) -> Seq<u8> {
    pre + txr
}

/// The compressed state: the current root, how far along the virtual order
/// application has advanced, and the memoized transition witnesses.
pub struct CompressedState {
    current_root: Vec<u8>,
    position: usize,
    proof_cache: ProofCache,
}

/// The block the virtual order `order` places at position `pos`.
pub open spec fn accepts_at(pos: int, order: Seq<Seq<u8>>, b: Block) -> bool {
    0 <= pos < order.len() && order[pos] == block_hash_of(b.header)
}

/// The root a block must reach from the state `st`: the well-defined initial
/// root for a genesis block, else the transition from the current root.
pub open spec fn expected_root(st: CompressedState, b: Block) -> Seq<u8> {
    if b.header.parents@.len() == 0 {
        initial_root()
    } else {
        transition_root_of(st.root_view(), b.header.tx_root@)
    }
}

/// How the memoized entries evolve when a transition under `key` is looked
/// up and, on a miss, stored: a hit promotes the entry to most recently
/// used; a miss inserts `(key, exp)` in front and truncates to the
/// capacity, dropping the least recently used entry.
pub open spec fn cache_after(
    entries: Seq<(Seq<u8>, Seq<u8>)>,
    cap: nat,
    key: Seq<u8>,
    exp: Seq<u8>,
) -> Seq<(Seq<u8>, Seq<u8>)> {
    match assoc_lookup(entries, key) {
        Option::Some(v) => seq![(key, v)] + remove_key(entries, key),
        Option::None => capped(seq![(key, exp)] + remove_key(entries, key), cap),
    }
}

impl CompressedState {
    /// The current state root.
    pub closed spec fn root_view(self) -> Seq<u8> {
        self.current_root@
    }

    /// How many blocks of the virtual order have been applied.
    pub closed spec fn pos(self) -> int {
        self.position as int
    }

    /// The memoized entries.
    pub closed spec fn cache_entries(self) -> Seq<(Seq<u8>, Seq<u8>)> {
        self.proof_cache.entries()
    }

    /// The proof cache's configured capacity.
    pub closed spec fn cache_capacity(self) -> nat {
        self.proof_cache.cap()
    }

    /// Well-formed: the cache is within its capacity bound and every
    /// memoized witness is the digest its key determines.
    pub closed spec fn wf(self) -> bool {
        self.proof_cache.wf() && digest_ok(self.proof_cache.entries())
    }

    /// A fresh state: the zero position with the default cache capacity.
    /// The current root starts at the well-defined initial root.
    pub fn new() -> (r: CompressedState)
        ensures
            r.wf(),
            r.root_view() == initial_root(),
            r.pos() == 0,
            r.cache_entries() == Seq::<(Seq<u8>, Seq<u8>)>::empty(),
            r.cache_capacity() == DEFAULT_CACHE_CAPACITY as nat,
    {
        CompressedState {
            current_root: genesis_root(),
            position: 0,
            proof_cache: ProofCache::with_capacity(DEFAULT_CACHE_CAPACITY),
        }
    }

    /// The current state root.
    pub fn current_root(&self) -> (r: &Vec<u8>)
        ensures
            r@ == self.root_view(),
    {
        &self.current_root
    }

    /// How many blocks have been applied.
    pub fn position(&self) -> (r: usize)
        ensures
            r as int == self.pos(),
    {
        self.position
    }

    /// How many transitions are memoized right now.
    pub fn cache_len(&self) -> (r: usize)
        ensures
            r as int == self.cache_entries().len(),
    {
        self.proof_cache.len()
    }

    /// Applies a block. Fails with `OutOfOrder` unless `order` places the
    /// block immediately after the current position, and with `RootMismatch`
    /// if the declared `state_root` is not the root the transition reaches.
    /// On success the current root advances to that declared root and the
    /// transition is memoized; on failure root and position are unchanged.
    pub fn apply_block(&mut self, block: &Block, order: &Vec<Vec<u8>>) -> (r: Result<
        Vec<u8>,
        StateError,
    >)
        requires
            old(self).wf(),
        ensures
            final(self).wf(),
            final(self).cache_capacity() == old(self).cache_capacity(),
            final(self).cache_entries().len() <= final(self).cache_capacity(),
            ({
                let ov = views(order@);
                let key = cache_key_of(old(self).root_view(), block.header.tx_root@);
                let exp = expected_root(*old(self), *block);
                if accepts_at(old(self).pos(), ov, *block) && block.header.parents@.len() != 0 {
                    final(self).cache_entries() == cache_after(
                        old(self).cache_entries(),
                        old(self).cache_capacity(),
                        key,
                        exp,
                    )
                } else {
                    final(self).cache_entries() == old(self).cache_entries()
                }
            }),
            ({
                let h = block_hash_of(block.header);
                let ov = views(order@);
                let exp = expected_root(*old(self), *block);
                match r {
                    Ok(root) => {
                        &&& accepts_at(old(self).pos(), ov, *block)
                        &&& block.header.state_root@ == exp
                        &&& root@ == exp
                        &&& final(self).root_view() == exp
                        &&& final(self).pos() == old(self).pos() + 1
                    },
                    Err(StateError::OutOfOrder) => {
                        &&& *final(self) == *old(self)
                        &&& !accepts_at(old(self).pos(), ov, *block)
                    },
                    Err(StateError::RootMismatch) => {
                        &&& final(self).root_view() == old(self).root_view()
                        &&& final(self).pos() == old(self).pos()
                        &&& accepts_at(old(self).pos(), ov, *block)
                        &&& block.header.state_root@ != exp
                    },
                }
            }),
    {
        let ghost ov = views(order@);
        let h = compute_block_hash(&block.header);
        if self.position >= order.len() {
            return Err(StateError::OutOfOrder);
        }
        if !bytes_eq(&order[self.position], &h) {
            assert(ov[old(self).pos()] != h@);
            return Err(StateError::OutOfOrder);
        }
        let root: Vec<u8> = if block.header.parents.len() == 0 {
            genesis_root()
        } else {
            let mut key = clone_bytes(&self.current_root);
            let mut t: usize = 0;
            while t < block.header.tx_root.len()
                invariant
                    t <= block.header.tx_root@.len(),
                    key@ == old(self).root_view() + block.header.tx_root@.take(t as int),
                    self == old(self),
                decreases block.header.tx_root@.len() - t,
            {
                key.push(block.header.tx_root[t]);
                t = t + 1;
                proof {
                    assert(key@ =~= old(self).root_view() + block.header.tx_root@.take(
                        t as int,
                    ));
                }
            }
            proof {
                assert(key@ =~= cache_key_of(old(self).root_view(), block.header.tx_root@));
            }
            match self.proof_cache.get(&key) {
                Some(v) => {
                    proof {
                        lemma_assoc_in(old(self).proof_cache.entries(), key@);
                        lemma_push_digest(old(self).proof_cache.entries(), key@, v@);
                    }
                    v
                },
                None => {
                    let dig = blake3_hash(&key);
                    self.proof_cache.put(&key, &dig);
                    proof {
                        lemma_push_digest(old(self).proof_cache.entries(), key@, dig@);
                        lemma_capped_digest(
                            seq![(key@, dig@)] + remove_key(
                                old(self).proof_cache.entries(),
                                key@,
                            ),
                            old(self).proof_cache.cap(),
                        );
                    }
                    dig
                },
            }
        };
        if !bytes_eq(&block.header.state_root, &root) {
            return Err(StateError::RootMismatch);
        }
        self.current_root = clone_bytes(&root);
        self.position = self.position + 1;
        Ok(root)
    }
}

/// A value found by `assoc_lookup` is the value of some entry.
proof fn lemma_assoc_in(view: Seq<(Seq<u8>, Seq<u8>)>, k: Seq<u8>)
    requires
        assoc_lookup(view, k) is Some,
    ensures
        exists|i: int|
            0 <= i < view.len() && (#[trigger] view[i]).0 == k && view[i].1 == assoc_lookup(
                view,
                k,
            ).unwrap(),
    decreases view.len(),
{
    if view[0].0 == k {
        assert(view[0].0 == k && view[0].1 == assoc_lookup(view, k).unwrap());
    } else {
        lemma_assoc_in(view.drop_first(), k);
        let i = choose|i: int|
            0 <= i < view.drop_first().len() && (#[trigger] view.drop_first()[i]).0 == k
                && view.drop_first()[i].1 == assoc_lookup(view.drop_first(), k).unwrap();
        assert(view[i + 1].0 == k && view[i + 1].1 == assoc_lookup(view, k).unwrap());
    }
}

/// A block is applied at most once: a successful application moves the
/// position past the block, and an order without duplicates never lists the
/// same block again, so a second application is rejected as out of order.
pub proof fn lemma_apply_once(pos: int, order: Seq<Seq<u8>>, b: Block)
    requires
        order.no_duplicates(),
        accepts_at(pos, order, b),
    ensures
        !accepts_at(pos + 1, order, b),
{
    if accepts_at(pos + 1, order, b) {
        assert(order[pos] == order[pos + 1]);
    }
}

} // verus!
