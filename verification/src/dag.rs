//! The block/DAG store and the consensus ordering engine.
//!
//! Blocks live in an append-only arena; parent/child adjacency is kept as
//! index sets. The virtual order is the canonical topological order of the
//! DAG: at every step the hash-least block whose parents are all ordered
//! comes next. That order is a linear extension of the parent partial order
//! and depends only on the set of admitted blocks, never on arrival order.

use vstd::prelude::*;
use crate::bytes::{lex_le, lemma_lex_total, lemma_lex_antisym, lex_le_exec, bytes_eq};
use crate::model::{Block, block_hash_of, hash_views};
use crate::model::compute_block_hash;

verus! {

/// Admission failures of the store and the ordering rule.
#[derive(Clone, Copy, PartialEq, Eq, Structural, Debug)]
pub enum ConsensusError {
    /// A parent hash is not in the store yet; the caller may retry later.
    UnknownParent,
    /// The block hash is already in the store.
    Duplicate,
    /// The block names itself as a parent.
    CyclicOrSelfParent,
    /// The block's anticone is wider than the bound `k` it declares.
    SecurityBoundExceeded,
}

/// Append-only storage of validated blocks plus derived adjacency.
pub struct DagStore {
    blocks: Vec<Block>,
    hashes: Vec<Vec<u8>>,
    parent_idx: Vec<Vec<usize>>,
}

/// The views of a sequence of byte vectors.
pub open spec fn views(r: Seq<Vec<u8>>) -> Seq<Seq<u8>> {
    hash_views(r)
}

/// A block is ready under `done`: it belongs to the DAG, is not ordered yet,
/// and all of its parents are ordered.
pub open spec fn ready(d: Map<Seq<u8>, Set<Seq<u8>>>, done: Set<Seq<u8>>, h: Seq<u8>) -> bool {
    d.dom().contains(h) && !done.contains(h) && d[h] <= done
}

/// `r` is a linear extension of the parent/child partial order of `d`:
/// it lists every block exactly once, and no block appears before a parent.
pub open spec fn is_linear_extension(r: Seq<Seq<u8>>, d: Map<Seq<u8>, Set<Seq<u8>>>) -> bool {
    &&& r.to_set() == d.dom()
    &&& r.no_duplicates()
    &&& forall|k: int| 0 <= k < r.len() ==> d[#[trigger] r[k]] <= r.take(k).to_set()
}

/// `r` is canonical: at every position it holds the lexicographically least
/// hash among the blocks that are ready there. This pins the order down
/// uniquely, which is what makes it deterministic across nodes.
pub open spec fn is_canonical(r: Seq<Seq<u8>>, d: Map<Seq<u8>, Set<Seq<u8>>>) -> bool {
    forall|k: int, h: Seq<u8>|
        0 <= k < r.len() && #[trigger] ready(d, r.take(k).to_set(), h) ==> lex_le(r[k], h)
}

impl DagStore {
    /// Number of admitted blocks.
    pub closed spec fn n(self) -> int {
        self.blocks@.len() as int
    }

    /// The hash of the block at arena index `i`.
    pub closed spec fn hash_at(self, i: int) -> Seq<u8> {
        self.hashes@[i]@
    }

    /// The block at arena index `i`.
    pub closed spec fn block_at(self, i: int) -> Block {
        self.blocks@[i]
    }

    /// The parent indices of the block at arena index `i`.
    pub closed spec fn pidx(self, i: int) -> Seq<usize> {
        self.parent_idx@[i]@
    }

    /// The set of parent hashes of the block at arena index `i`.
    pub closed spec fn parent_set_idx(self, i: int) -> Set<Seq<u8>> {
        Set::new(
            |p: Seq<u8>|
                exists|k: int|
                    0 <= k < self.pidx(i).len() && self.hash_at(self.pidx(i)[k] as int) == p,
        )
    }

    /// Whether some admitted block has hash `h`.
    pub closed spec fn contains_hash_spec(self, h: Seq<u8>) -> bool {
        exists|i: int| 0 <= i < self.n() && self.hash_at(i) == h
    }

    /// The arena index of the block with hash `h`.
    pub closed spec fn idx_of(self, h: Seq<u8>) -> int {
        choose|i: int| 0 <= i < self.n() && self.hash_at(i) == h
    }

    /// The DAG as a pure value: each admitted hash mapped to the set of its
    /// parent hashes. The virtual order is a function of this map alone.
    pub closed spec fn dag_view(self) -> Map<Seq<u8>, Set<Seq<u8>>> {
        Map::new(
            |h: Seq<u8>| self.contains_hash_spec(h),
            |h: Seq<u8>| self.parent_set_idx(self.idx_of(h)),
        )
    }

    /// Arena bookkeeping is coherent: one hash, one parent list and one child
    /// list per block, every hash is the block's header digest, and hashes
    /// are pairwise distinct.
    pub closed spec fn arena_ok(self) -> bool {
        &&& self.hashes@.len() == self.n()
        &&& self.parent_idx@.len() == self.n()
        &&& forall|i: int|
            0 <= i < self.n() ==> #[trigger] self.hash_at(i) == block_hash_of(
                self.block_at(i).header,
            )
        &&& forall|i: int| 0 <= i < self.n() ==> (#[trigger] self.hash_at(i)).len() == 32
        &&& forall|i: int, j: int|
            0 <= i < self.n() && 0 <= j < self.n() && i != j ==> self.hash_at(i) != self.hash_at(j)
    }

    /// Every parent edge points strictly backwards in the arena and matches
    /// the parent hash the header declares.
    pub closed spec fn parents_ok(self) -> bool {
        &&& forall|i: int|
            0 <= i < self.n() ==> (#[trigger] self.pidx(i)).len() == self.block_at(
                i,
            ).header.parents@.len()
        &&& forall|i: int, k: int|
            0 <= i < self.n() && 0 <= k < self.pidx(i).len() ==> (#[trigger] self.pidx(i)[k]) < i
                && self.hash_at(self.pidx(i)[k] as int) == self.block_at(
                i,
            ).header.parents@[k]@
    }

    /// Store well-formedness: established by `new`, preserved by `insert`.
    pub closed spec fn wf(self) -> bool {
        self.arena_ok() && self.parents_ok()
    }

    /// An empty store.
    pub fn new() -> (r: DagStore)
        ensures
            r.wf(),
            r.n() == 0,
    {
        DagStore { blocks: Vec::new(), hashes: Vec::new(), parent_idx: Vec::new() }
    }

    /// Number of admitted blocks.
    pub fn len(&self) -> (r: usize)
        ensures
            r as int == self.n(),
    {
        self.blocks.len()
    }

    /// The index holding hash `h`, if any.
    fn find_index(&self, h: &Vec<u8>) -> (r: Option<usize>)
        requires
            self.wf(),
        ensures
            match r {
                Some(i) => 0 <= i < self.n() && self.hash_at(i as int) == h@,
                None => !self.contains_hash_spec(h@),
            },
    {
        let mut i: usize = 0;
        while i < self.hashes.len()
            invariant
                self.wf(),
                i <= self.n(),
                forall|j: int| 0 <= j < i ==> self.hash_at(j) != h@,
            decreases self.n() - i,
        {
            if bytes_eq(&self.hashes[i], h) {
                return Some(i);
            }
            i = i + 1;
        }
        None
    }

    /// Read-only lookup of an admitted block by hash.
    pub fn get(&self, h: &Vec<u8>) -> (r: Option<&Block>)
        requires
            self.wf(),
        ensures
            match r {
                Some(b) => self.contains_hash_spec(h@) && *b == self.block_at(self.idx_of(h@))
                    && block_hash_of(b.header) == h@,
                None => !self.contains_hash_spec(h@),
            },
    {
        match self.find_index(h) {
            Some(i) => {
                proof {
                    self.lemma_idx_of(i as int);
                }
                Some(&self.blocks[i])
            },
            None => None,
        }
    }

    /// With distinct hashes, `idx_of` inverts `hash_at`.
    pub proof fn lemma_idx_of(self, i: int)
        requires
            self.wf(),
            0 <= i < self.n(),
        ensures
            self.idx_of(self.hash_at(i)) == i,
            self.contains_hash_spec(self.hash_at(i)),
    {
        assert(self.contains_hash_spec(self.hash_at(i)));
        let j = self.idx_of(self.hash_at(i));
        assert(0 <= j < self.n() && self.hash_at(j) == self.hash_at(i));
    }

    /// What `dag_view` says at an admitted index.
    pub proof fn lemma_dag_view_at(self, i: int)
        requires
            self.wf(),
            0 <= i < self.n(),
        ensures
            self.dag_view().dom().contains(self.hash_at(i)),
            self.dag_view()[self.hash_at(i)] == self.parent_set_idx(i),
    {
        self.lemma_idx_of(i);
    }

    /// Every hash of the view's domain is the hash of an admitted block.
    pub proof fn lemma_dag_view_dom(self, h: Seq<u8>)
        requires
            self.wf(),
            self.dag_view().dom().contains(h),
        ensures
            0 <= self.idx_of(h) < self.n(),
            self.hash_at(self.idx_of(h)) == h,
    {
        assert(self.contains_hash_spec(h));
    }

    /// Whether every parent of block `i` is marked in `done`.
    pub closed spec fn parents_done(self, done: Seq<bool>, i: int) -> bool {
        forall|m: int| 0 <= m < self.pidx(i).len() ==> done[#[trigger] self.pidx(i)[m] as int]
    }

    /// Decides `parents_done` for block `i`.
    fn parents_done_exec(&self, done: &Vec<bool>, i: usize) -> (r: bool)
        requires
            self.wf(),
            0 <= i < self.n(),
            done@.len() == self.n(),
        ensures
            r == self.parents_done(done@, i as int),
    {
        let ps = &self.parent_idx[i];
        let mut m: usize = 0;
        while m < ps.len()
            invariant
                self.wf(),
                0 <= i < self.n(),
                done@.len() == self.n(),
                ps@ == self.pidx(i as int),
                m <= ps@.len(),
                forall|t: int| 0 <= t < m ==> done@[#[trigger] self.pidx(i as int)[t] as int],
            decreases ps@.len() - m,
        {
            if !done[ps[m]] {
                return false;
            }
            m = m + 1;
        }
        true
    }

    /// Among the unordered blocks there is always one whose parents are all
    /// ordered: walking to an unordered parent strictly decreases the index.
    proof fn lemma_ready_index_exists(self, done: Seq<bool>, u: int)
        requires
            self.wf(),
            done.len() == self.n(),
            0 <= u < self.n(),
            !done[u],
        ensures
            exists|j: int|
                0 <= j < self.n() && !done[j] && #[trigger] self.parents_done(done, j),
        decreases u,
    {
        if self.parents_done(done, u) {
            assert(0 <= u < self.n() && !done[u] && self.parents_done(done, u));
        } else {
            let m = choose|m: int|
                0 <= m < self.pidx(u).len() && !done[#[trigger] self.pidx(u)[m] as int];
            let p = self.pidx(u)[m] as int;
            assert(0 <= p < u);
            self.lemma_ready_index_exists(done, p);
        }
    }
}

/// How many entries of a boolean sequence are set.
pub open spec fn count_true(s: Seq<bool>) -> nat
    decreases s.len(),
{
    if s.len() == 0 {
        0
    } else {
        count_true(s.drop_last()) + if s.last() {
            1nat
        } else {
            0nat
        }
    }
}

/// Setting one unset entry raises the count by one.
proof fn lemma_count_true_update(s: Seq<bool>, j: int)
    requires
        0 <= j < s.len(),
        !s[j],
    ensures
        count_true(s.update(j, true)) == count_true(s) + 1,
    decreases s.len(),
{
    let t = s.update(j, true);
    if j == s.len() - 1 {
        assert(t.drop_last() =~= s.drop_last());
    } else {
        assert(t.drop_last() =~= s.drop_last().update(j, true));
        assert(t.last() == s.last());
        lemma_count_true_update(s.drop_last(), j);
    }
}

/// A full count means every entry is set.
proof fn lemma_count_true_full(s: Seq<bool>)
    requires
        count_true(s) == s.len(),
    ensures
        forall|i: int| 0 <= i < s.len() ==> s[i],
    decreases s.len(),
{
    lemma_count_true_le(s);
    if s.len() > 0 {
        lemma_count_true_le(s.drop_last());
        lemma_count_true_full(s.drop_last());
        assert(forall|i: int|
            0 <= i < s.len() - 1 ==> s[i] == s.drop_last()[i]);
    }
}

/// The count never exceeds the length.
proof fn lemma_count_true_le(s: Seq<bool>)
    ensures
        count_true(s) <= s.len(),
    decreases s.len(),
{
    if s.len() > 0 {
        lemma_count_true_le(s.drop_last());
    }
}

impl DagStore {
    /// What holds of the hash-least ready block `b` right before it is
    /// appended to a partial order `ov` whose marks are `done`.
    proof fn lemma_stage_ok(self, done: Seq<bool>, ov: Seq<Seq<u8>>, b: int)
        requires
            self.wf(),
            done.len() == self.n(),
            0 <= b < self.n(),
            !done[b],
            self.parents_done(done, b),
            forall|j: int|
                0 <= j < self.n() && !done[j] && #[trigger] self.parents_done(done, j) ==> lex_le(
                    self.hash_at(b),
                    self.hash_at(j),
                ),
            forall|i: int|
                0 <= i < self.n() ==> (done[i] <==> ov.contains(#[trigger] self.hash_at(i))),
        ensures
            self.dag_view().dom().contains(self.hash_at(b)),
            !ov.contains(self.hash_at(b)),
            self.dag_view()[self.hash_at(b)] <= ov.to_set(),
            forall|h: Seq<u8>|
                ready(self.dag_view(), ov.to_set(), h) ==> lex_le(self.hash_at(b), h),
    {
        let d = self.dag_view();
        self.lemma_dag_view_at(b);
        assert forall|p: Seq<u8>| d[self.hash_at(b)].contains(p) implies ov.to_set().contains(
            p,
        ) by {
            let m = choose|m: int|
                0 <= m < self.pidx(b).len() && self.hash_at(#[trigger] self.pidx(b)[m] as int)
                    == p;
            assert(done[self.pidx(b)[m] as int]);
            assert(ov.contains(p));
        };
        assert forall|h: Seq<u8>| ready(d, ov.to_set(), h) implies lex_le(
            self.hash_at(b),
            h,
        ) by {
            self.lemma_dag_view_dom(h);
            let i = self.idx_of(h);
            assert(!ov.to_set().contains(h));
            assert(!done[i]);
            self.lemma_dag_view_at(i);
            assert forall|m: int| 0 <= m < self.pidx(i).len() implies done[#[trigger] self.pidx(
                i,
            )[m] as int] by {
                let p = self.hash_at(self.pidx(i)[m] as int);
                assert(d[h].contains(p));
                assert(ov.to_set().contains(p));
                assert(ov.contains(p));
                let w = choose|w: int| 0 <= w < ov.len() && ov[w] == p;
                let pi = self.pidx(i)[m] as int;
                assert(0 <= pi < self.n());
                assert(ov.contains(self.hash_at(pi)));
            };
            assert(self.parents_done(done, i));
        };
    }

    /// Computes the virtual order: the canonical linear extension of the
    /// parent partial order, hash-least ready block first at every step.
    pub fn virtual_order(&self) -> (r: Vec<Vec<u8>>)
        requires
            self.wf(),
        ensures
            is_linear_extension(views(r@), self.dag_view()),
            is_canonical(views(r@), self.dag_view()),
    {
        let n = self.blocks.len();
        let mut done: Vec<bool> = Vec::new();
        let mut t: usize = 0;
        while t < n
            invariant
                t <= n,
                done@.len() == t,
                forall|i: int| 0 <= i < t ==> !done@[i],
            decreases n - t,
        {
            done.push(false);
            t = t + 1;
        }
        proof {
            lemma_count_zero(done@);
        }
        let mut order: Vec<Vec<u8>> = Vec::new();
        let mut cnt: usize = 0;
        while cnt < n
            invariant
                self.wf(),
                n as int == self.n(),
                done@.len() == self.n(),
                cnt == order@.len(),
                cnt <= n,
                count_true(done@) == cnt,
                views(order@).no_duplicates(),
                forall|i: int|
                    0 <= i < self.n() ==> (done@[i] <==> views(order@).contains(
                        #[trigger] self.hash_at(i),
                    )),
                forall|h: Seq<u8>| views(order@).contains(h) ==> self.contains_hash_spec(h),
                forall|k: int|
                    0 <= k < cnt ==> self.dag_view()[#[trigger] views(order@)[k]] <= views(
                        order@,
                    ).take(k).to_set(),
                forall|k: int, h: Seq<u8>|
                    0 <= k < cnt && #[trigger] ready(
                        self.dag_view(),
                        views(order@).take(k).to_set(),
                        h,
                    ) ==> lex_le(views(order@)[k], h),
            decreases n - cnt,
        {
            let mut best: usize = 0;
            let mut found: bool = false;
            let mut i: usize = 0;
            while i < n
                invariant
                    self.wf(),
                    n as int == self.n(),
                    done@.len() == self.n(),
                    i <= n,
                    found ==> 0 <= (best as int) < self.n() && !done@[best as int]
                        && self.parents_done(done@, best as int),
                    found ==> forall|j: int|
                        0 <= j < i && !done@[j] && #[trigger] self.parents_done(done@, j)
                            ==> lex_le(self.hash_at(best as int), self.hash_at(j)),
                    !found ==> forall|j: int|
                        0 <= j < i ==> !(!done@[j] && #[trigger] self.parents_done(done@, j)),
                decreases n - i,
            {
                if !done[i] && self.parents_done_exec(&done, i) {
                    if !found {
                        best = i;
                        found = true;
                        proof {
                            lemma_lex_total(self.hash_at(i as int), self.hash_at(i as int));
                        }
                    } else if lex_le_exec(&self.hashes[i], &self.hashes[best]) {
                        proof {
                            let ghost hi = self.hash_at(i as int);
                            let ghost hb = self.hash_at(best as int);
                            assert forall|j: int|
                                0 <= j < i + 1 && !done@[j] && #[trigger] self.parents_done(
                                    done@,
                                    j,
                                ) implies lex_le(hi, self.hash_at(j)) by {
                                if j < i {
                                    lemma_lex_trans(hi, hb, self.hash_at(j));
                                } else {
                                    lemma_lex_total(hi, hi);
                                }
                            };
                        }
                        best = i;
                    } else {
                        proof {
                            lemma_lex_total(self.hash_at(i as int), self.hash_at(best as int));
                        }
                    }
                }
                i = i + 1;
            }
            proof {
                if !found {
                    lemma_count_true_le(done@);
                    let u = lemma_exists_unset(done@);
                    self.lemma_ready_index_exists(done@, u);
                    assert(false);
                }
            }
            let b = best;
            let h = clone_bytes(&self.hashes[b]);
            let ghost d = self.dag_view();
            let ghost ov_old = views(order@);
            proof {
                self.lemma_stage_ok(done@, ov_old, b as int);
                lemma_count_true_update(done@, b as int);
            }
            done.set(b, true);
            order.push(h);
            cnt = cnt + 1;
            proof {
                let ghost hb = self.hash_at(b as int);
                let ov = views(order@);
                assert(ov =~= ov_old.push(hb));
                assert(ov.no_duplicates()) by {
                    assert(forall|k: int| 0 <= k < ov_old.len() ==> ov[k] == ov_old[k]);
                    assert(ov[ov.len() - 1] == hb);
                    assert(!ov_old.contains(hb));
                };
                assert forall|i2: int| 0 <= i2 < self.n() implies (done@[i2] <==> ov.contains(
                    #[trigger] self.hash_at(i2),
                )) by {
                    if i2 == b as int {
                        assert(ov[ov.len() - 1] == self.hash_at(i2));
                    } else {
                        if ov.contains(self.hash_at(i2)) {
                            let w = choose|w: int|
                                0 <= w < ov.len() && ov[w] == self.hash_at(i2);
                            if w == ov.len() - 1 {
                                assert(self.hash_at(i2) == hb);
                                assert(false);
                            } else {
                                assert(ov_old[w] == self.hash_at(i2));
                                assert(ov_old.contains(self.hash_at(i2)));
                            }
                        }
                        if ov_old.contains(self.hash_at(i2)) {
                            let w = choose|w: int|
                                0 <= w < ov_old.len() && ov_old[w] == self.hash_at(i2);
                            assert(ov[w] == self.hash_at(i2));
                        }
                    }
                };
                assert forall|h2: Seq<u8>| ov.contains(h2) implies self.contains_hash_spec(
                    h2,
                ) by {
                    let w = choose|w: int| 0 <= w < ov.len() && ov[w] == h2;
                    if w == ov.len() - 1 {
                        self.lemma_idx_of(b as int);
                    } else {
                        assert(ov_old.contains(h2));
                    }
                };
                assert(ov.take(cnt as int - 1) =~= ov_old);
                assert forall|k: int| 0 <= k < cnt implies d[#[trigger] ov[k]] <= ov.take(
                    k,
                ).to_set() by {
                    if k < cnt - 1 {
                        assert(ov.take(k) =~= ov_old.take(k));
                        assert(ov[k] == ov_old[k]);
                    } else {
                        assert(ov[k] == hb);
                    }
                };
                assert forall|k: int, h2: Seq<u8>|
                    0 <= k < cnt && #[trigger] ready(d, ov.take(k).to_set(), h2) implies lex_le(
                    ov[k],
                    h2,
                ) by {
                    if k < cnt - 1 {
                        assert(ov.take(k) =~= ov_old.take(k));
                        assert(ov[k] == ov_old[k]);
                    } else {
                        assert(ov[k] == hb);
                    }
                };
            }
        }
        proof {
            lemma_count_true_full(done@);
            let ov = views(order@);
            assert forall|h: Seq<u8>| self.dag_view().dom().contains(h) implies ov.to_set().contains(
                h,
            ) by {
                self.lemma_dag_view_dom(h);
                let i = self.idx_of(h);
                assert(done@[i]);
            };
            assert(ov.to_set() =~= self.dag_view().dom());
        }
        order
    }
}

/// An all-false sequence counts zero.
proof fn lemma_count_zero(s: Seq<bool>)
    requires
        forall|i: int| 0 <= i < s.len() ==> !s[i],
    ensures
        count_true(s) == 0,
    decreases s.len(),
{
    if s.len() > 0 {
        lemma_count_zero(s.drop_last());
    }
}

/// A count short of the length leaves some entry unset.
proof fn lemma_exists_unset(s: Seq<bool>) -> (u: int)
    requires
        count_true(s) < s.len(),
    ensures
        0 <= u < s.len(),
        !s[u],
    decreases s.len(),
{
    if s.last() {
        let v = lemma_exists_unset(s.drop_last());
        v
    } else {
        s.len() - 1
    }
}

/// Equal canonical prefixes stay equal one step further: both orders pick
/// the unique lexicographically least ready block.
proof fn lemma_prefix_eq(r1: Seq<Seq<u8>>, r2: Seq<Seq<u8>>, d: Map<Seq<u8>, Set<Seq<u8>>>, k: int)
    requires
        is_linear_extension(r1, d),
        is_canonical(r1, d),
        is_linear_extension(r2, d),
        is_canonical(r2, d),
        0 <= k <= r1.len(),
        k <= r2.len(),
    ensures
        r1.take(k) == r2.take(k),
    decreases k,
{
    if k == 0 {
        assert(r1.take(0) =~= r2.take(0));
    } else {
        lemma_prefix_eq(r1, r2, d, k - 1);
        let done = r1.take(k - 1).to_set();
        assert(r2.take(k - 1).to_set() == done);
        let a = r1[k - 1];
        let b = r2[k - 1];
        assert(r1.to_set().contains(a));
        assert(d.dom().contains(a));
        assert(r2.to_set().contains(b));
        assert(d.dom().contains(b));
        assert(!done.contains(a)) by {
            if done.contains(a) {
                let w = choose|w: int| 0 <= w < k - 1 && #[trigger] r1.take(k - 1)[w] == a;
                assert(r1[w] == r1[k - 1]);
            }
        };
        assert(!r2.take(k - 1).to_set().contains(b)) by {
            if r2.take(k - 1).to_set().contains(b) {
                let w = choose|w: int| 0 <= w < k - 1 && #[trigger] r2.take(k - 1)[w] == b;
                assert(r2[w] == r2[k - 1]);
            }
        };
        assert(ready(d, done, a));
        assert(ready(d, done, b));
        assert(lex_le(a, b));
        assert(lex_le(b, a));
        lemma_lex_antisym(a, b);
        assert(r1.take(k) =~= r1.take(k - 1).push(a));
        assert(r2.take(k) =~= r2.take(k - 1).push(b));
    }
}

/// Determinism of the virtual order: any two sequences that are linear
/// extensions of the same DAG and canonical for it are equal. Two nodes that
/// admit the same set of blocks therefore compute the identical order,
/// whatever the insertion histories were.
pub proof fn lemma_virtual_order_unique(
    r1: Seq<Seq<u8>>,
    r2: Seq<Seq<u8>>,
    d: Map<Seq<u8>, Set<Seq<u8>>>,
)
    requires
        is_linear_extension(r1, d),
        is_canonical(r1, d),
        is_linear_extension(r2, d),
        is_canonical(r2, d),
    ensures
        r1 == r2,
{
    if r1.len() < r2.len() {
        lemma_prefix_eq(r1, r2, d, r1.len() as int);
        let x = r2[r1.len() as int];
        assert(r2.to_set().contains(x));
        assert(d.dom().contains(x));
        assert(r1.to_set().contains(x));
        let w = choose|w: int| 0 <= w < r1.len() && r1[w] == x;
        assert(r2.take(r1.len() as int)[w] == r1.take(r1.len() as int)[w]);
        assert(r2[w] == x);
        assert(false);
    } else if r2.len() < r1.len() {
        lemma_prefix_eq(r1, r2, d, r2.len() as int);
        let x = r1[r2.len() as int];
        assert(r1.to_set().contains(x));
        assert(d.dom().contains(x));
        assert(r2.to_set().contains(x));
        let w = choose|w: int| 0 <= w < r2.len() && r2[w] == x;
        assert(r1.take(r2.len() as int)[w] == r2.take(r2.len() as int)[w]);
        assert(r1[w] == x);
        assert(false);
    } else {
        lemma_prefix_eq(r1, r2, d, r1.len() as int);
        assert(r1.take(r1.len() as int) =~= r1);
        assert(r2.take(r2.len() as int) =~= r2);
    }
}

/// The diamond law: over a DAG of exactly four blocks — a genesis `g`, two
/// blocks `a` and `b` whose only parent is `g`, and `c` whose parents are
/// `a` and `b`, with `a` the lexicographically smaller of the pair — every
/// canonical linear extension is exactly `[g, a, b, c]`. The admitted set
/// alone fixes the order, so insertion history cannot matter.
pub proof fn lemma_diamond_order(
    r: Seq<Seq<u8>>,
    d: Map<Seq<u8>, Set<Seq<u8>>>,
    g: Seq<u8>,
    a: Seq<u8>,
    b: Seq<u8>,
    c: Seq<u8>,
)
    requires
        is_linear_extension(r, d),
        is_canonical(r, d),
        d.dom() == set![g, a, b, c],
        g != a && g != b && g != c && a != b && a != c && b != c,
        d[g] == Set::<Seq<u8>>::empty(),
        d[a] == set![g],
        d[b] == set![g],
        d[c] == set![a, b],
        lex_le(a, b),
    ensures
        r == seq![g, a, b, c],
{
    let s = seq![g, a, b, c];
    assert(s.to_set() =~= d.dom()) by {
        assert(s[0] == g && s[1] == a && s[2] == b && s[3] == c);
        assert(s.contains(g) && s.contains(a) && s.contains(b) && s.contains(c));
    };
    assert(s.no_duplicates());
    let t0 = s.take(0).to_set();
    let t1 = s.take(1).to_set();
    let t2 = s.take(2).to_set();
    let t3 = s.take(3).to_set();
    assert(t0 =~= Set::<Seq<u8>>::empty());
    assert(t1 =~= set![g]) by {
        assert(s.take(1)[0] == g);
        assert(s.take(1).contains(g));
    };
    assert(t2 =~= set![g, a]) by {
        assert(s.take(2)[0] == g && s.take(2)[1] == a);
        assert(s.take(2).contains(g) && s.take(2).contains(a));
    };
    assert(t3 =~= set![g, a, b]) by {
        assert(s.take(3)[0] == g && s.take(3)[1] == a && s.take(3)[2] == b);
        assert(s.take(3).contains(g) && s.take(3).contains(a) && s.take(3).contains(b));
    };
    assert(is_linear_extension(s, d)) by {
        assert forall|k: int| 0 <= k < s.len() implies d[#[trigger] s[k]] <= s.take(k).to_set() by {
            if k == 0 {
                assert(d[g] <= t0);
            } else if k == 1 {
                assert(d[a].contains(g));
                assert(d[a] <= t1);
            } else if k == 2 {
                assert(d[b] <= t2);
            } else {
                assert(d[c] <= t3);
            }
        };
    };
    assert(is_canonical(s, d)) by {
        assert forall|k: int, h: Seq<u8>|
            0 <= k < s.len() && #[trigger] ready(d, s.take(k).to_set(), h) implies lex_le(
            s[k],
            h,
        ) by {
            assert(d.dom().contains(h));
            assert(h == g || h == a || h == b || h == c);
            lemma_lex_total(s[k], s[k]);
            if k == 0 {
                if h == a || h == b {
                    assert(d[h].contains(g));
                    assert(false);
                }
                if h == c {
                    assert(d[c].contains(a));
                    assert(false);
                }
            } else if k == 1 {
                if h == g {
                    assert(t1.contains(h));
                    assert(false);
                }
                if h == c {
                    assert(d[c].contains(a));
                    assert(!t1.contains(a));
                    assert(false);
                }
            } else if k == 2 {
                if h == g || h == a {
                    assert(t2.contains(h));
                    assert(false);
                }
                if h == c {
                    assert(d[c].contains(b));
                    assert(!t2.contains(b));
                    assert(false);
                }
            } else {
                if h != c {
                    assert(t3.contains(h));
                    assert(false);
                }
            }
        };
    };
    lemma_virtual_order_unique(r, s, d);
}

/// `lex_le` is transitive.
pub proof fn lemma_lex_trans(a: Seq<u8>, b: Seq<u8>, c: Seq<u8>)
    requires
        lex_le(a, b),
        lex_le(b, c),
    ensures
        lex_le(a, c),
    decreases a.len(),
{
    if a.len() != 0 && b.len() != 0 && c.len() != 0 && a[0] == b[0] && b[0] == c[0] {
        lemma_lex_trans(a.drop_first(), b.drop_first(), c.drop_first());
    }
}

impl DagStore {
    /// The tip hashes among the first `i` blocks, in arena order.
    pub closed spec fn tips_prefix(self, i: int) -> Seq<Seq<u8>>
        decreases i,
    {
        if i <= 0 {
            Seq::<Seq<u8>>::empty()
        } else {
            self.tips_prefix(i - 1) + if self.is_tip(i - 1) {
                seq![self.hash_at(i - 1)]
            } else {
                Seq::<Seq<u8>>::empty()
            }
        }
    }

    /// The tip set as a sequence: the tip hashes in arena order. `tips`
    /// returns exactly this sequence.
    pub closed spec fn tips_seq(self) -> Seq<Seq<u8>> {
        self.tips_prefix(self.n())
    }

    /// The block count is never negative.
    pub proof fn lemma_n_nonneg(self)
        ensures
            self.n() >= 0,
    {
    }

    /// The newest block is always a tip: parent edges point strictly
    /// backwards in the arena, so nothing names the last block.
    pub proof fn lemma_last_is_tip(self)
        requires
            self.wf(),
            self.n() > 0,
        ensures
            self.is_tip(self.n() - 1),
    {
        assert forall|j: int, m: int|
            0 <= j < self.n() && 0 <= m < self.pidx(j).len() implies (#[trigger] self.pidx(
            j,
        )[m]) as int != self.n() - 1 by {
            assert((self.pidx(j)[m] as int) < j);
        };
    }

    /// A tip: a block no admitted block names as a parent, hence with empty
    /// child adjacency; eligible as a parent of the next candidate block.
    pub closed spec fn is_tip(self, i: int) -> bool {
        forall|j: int, m: int|
            0 <= j < self.n() && 0 <= m < self.pidx(j).len() ==> (#[trigger] self.pidx(j)[m]) as int
                != i
    }

    /// Whether any admitted block names block `i` as a parent.
    fn has_child(&self, i: usize) -> (r: bool)
        requires
            self.wf(),
            (i as int) < self.n(),
        ensures
            r == !self.is_tip(i as int),
    {
        let n = self.blocks.len();
        let mut j: usize = 0;
        while j < n
            invariant
                self.wf(),
                n as int == self.n(),
                i < n,
                j <= n,
                forall|j2: int, m: int|
                    0 <= j2 < j && 0 <= m < self.pidx(j2).len() ==> (#[trigger] self.pidx(
                        j2,
                    )[m]) as int != i as int,
            decreases n - j,
        {
            let ps = &self.parent_idx[j];
            let mut m: usize = 0;
            while m < ps.len()
                invariant
                    self.wf(),
                    n as int == self.n(),
                    i < n,
                    j < n,
                    m <= ps@.len(),
                    ps@ == self.pidx(j as int),
                    forall|t: int| 0 <= t < m ==> (#[trigger] self.pidx(j as int)[t]) as int
                        != i as int,
                decreases ps@.len() - m,
            {
                if ps[m] == i {
                    return true;
                }
                m = m + 1;
            }
            j = j + 1;
        }
        false
    }

    /// The current tip set: the hashes of exactly those blocks that have no
    /// known child. A read-only snapshot.
    pub fn tips(&self) -> (r: Vec<Vec<u8>>)
        requires
            self.wf(),
        ensures
            views(r@) == self.tips_seq(),
            views(r@).no_duplicates(),
            forall|i: int|
                0 <= i < self.n() ==> (self.is_tip(i) <==> views(r@).contains(
                    #[trigger] self.hash_at(i),
                )),
            forall|h: Seq<u8>|
                views(r@).contains(h) ==> self.contains_hash_spec(h) && self.is_tip(
                    self.idx_of(h),
                ),
    {
        let n = self.blocks.len();
        let mut r: Vec<Vec<u8>> = Vec::new();
        let mut i: usize = 0;
        while i < n
            invariant
                self.wf(),
                n as int == self.n(),
                i <= n,
                views(r@) == self.tips_prefix(i as int),
                views(r@).no_duplicates(),
                forall|i2: int|
                    0 <= i2 < i ==> (self.is_tip(i2) <==> views(r@).contains(
                        #[trigger] self.hash_at(i2),
                    )),
                forall|h: Seq<u8>|
                    views(r@).contains(h) ==> exists|i2: int|
                        0 <= i2 < i && #[trigger] self.hash_at(i2) == h && self.is_tip(i2),
            decreases n - i,
        {
            let ghost rv_old = views(r@);
            if !self.has_child(i) {
                let h = clone_bytes(&self.hashes[i]);
                proof {
                    if rv_old.contains(self.hash_at(i as int)) {
                        let i2 = choose|i2: int|
                            0 <= i2 < i && #[trigger] self.hash_at(i2) == self.hash_at(i as int)
                                && self.is_tip(i2);
                        assert(false);
                    }
                }
                r.push(h);
                proof {
                    let rv = views(r@);
                    assert(rv =~= rv_old.push(self.hash_at(i as int)));
                    assert(rv =~= self.tips_prefix(i as int) + seq![self.hash_at(i as int)]);
                    assert(rv =~= self.tips_prefix(i as int + 1));
                    assert(rv.no_duplicates());
                    assert forall|h2: Seq<u8>| rv.contains(h2) implies exists|i2: int|
                        0 <= i2 < i + 1 && #[trigger] self.hash_at(i2) == h2 && self.is_tip(
                            i2,
                        ) by {
                        let w = choose|w: int| 0 <= w < rv.len() && rv[w] == h2;
                        if w < rv.len() - 1 {
                            assert(rv_old.contains(h2));
                        } else {
                            assert(self.hash_at(i as int) == h2);
                        }
                    };
                    assert forall|i2: int| 0 <= i2 < i + 1 implies (self.is_tip(i2) <==> rv.contains(
                        #[trigger] self.hash_at(i2),
                    )) by {
                        if i2 < i {
                            if rv.contains(self.hash_at(i2)) && !rv_old.contains(self.hash_at(i2)) {
                                let w = choose|w: int|
                                    0 <= w < rv.len() && rv[w] == self.hash_at(i2);
                                assert(w == rv.len() - 1);
                                assert(self.hash_at(i2) == self.hash_at(i as int));
                                assert(false);
                            }
                            if rv_old.contains(self.hash_at(i2)) {
                                let w = choose|w: int|
                                    0 <= w < rv_old.len() && rv_old[w] == self.hash_at(i2);
                                assert(rv[w] == self.hash_at(i2));
                            }
                        } else {
                            assert(rv[rv.len() - 1] == self.hash_at(i2));
                        }
                    };
                }
            } else {
                proof {
                    assert(self.tips_prefix(i as int + 1) =~= self.tips_prefix(i as int));
                    assert forall|i2: int| 0 <= i2 < i + 1 implies (self.is_tip(i2)
                        <==> views(r@).contains(#[trigger] self.hash_at(i2))) by {
                        if i2 == i as int {
                            if views(r@).contains(self.hash_at(i2)) {
                                let j2 = choose|j2: int|
                                    0 <= j2 < i && #[trigger] self.hash_at(j2) == self.hash_at(i2)
                                        && self.is_tip(j2);
                                assert(false);
                            }
                        }
                    };
                }
            }
            i = i + 1;
        }
        proof {
            assert forall|h: Seq<u8>| views(r@).contains(h) implies self.contains_hash_spec(h)
                && self.is_tip(self.idx_of(h)) by {
                let i2 = choose|i2: int|
                    0 <= i2 < n && #[trigger] self.hash_at(i2) == h && self.is_tip(i2);
                self.lemma_idx_of(i2);
            };
        }
        r
    }

    /// Block `a` is a strict ancestor of block `b`: a parent, or an ancestor
    /// of a parent. Parent indices precede their children in the arena, which
    /// bounds the recursion.
    pub closed spec fn is_anc_idx(self, a: int, b: int) -> bool
        decreases b,
        when 0 <= b < self.n() && self.wf()
        via Self::is_anc_idx_decreases
    {
        exists|m: int|
            0 <= m < self.pidx(b).len() && ((#[trigger] self.pidx(b)[m]) as int == a
                || self.is_anc_idx(a, self.pidx(b)[m] as int))
    }

    #[via_fn]
    proof fn is_anc_idx_decreases(self, a: int, b: int) {
        assert forall|m: int| 0 <= m < self.pidx(b).len() implies 0 <= (#[trigger] self.pidx(
            b,
        )[m] as int) < b by {};
    }

    /// Block `a` is an ancestor of a prospective block whose resolved parent
    /// indices are `ps`: one of the parents, or an ancestor of one.
    pub closed spec fn is_anc_of_new(self, ps: Seq<int>, a: int) -> bool {
        exists|m: int|
            0 <= m < ps.len() && (#[trigger] ps[m] == a || self.is_anc_idx(a, ps[m]))
    }

    /// How many of the first `i` blocks are ancestors of the prospective block.
    pub closed spec fn anc_count(self, ps: Seq<int>, i: int) -> int
        decreases i,
    {
        if i <= 0 {
            0
        } else {
            self.anc_count(ps, i - 1) + if self.is_anc_of_new(ps, i - 1) {
                1int
            } else {
                0int
            }
        }
    }

    /// The anticone width of a prospective block with resolved parent indices
    /// `ps`: admitted blocks that are neither its ancestors nor (as it is not
    /// yet admitted) its descendants.
    pub closed spec fn anticone_of_new(self, ps: Seq<int>) -> int {
        self.n() - self.anc_count(ps, self.n())
    }

    /// Ancestry extends backwards across one parent edge.
    proof fn lemma_anc_step(self, q: int, i: int, b: int)
        requires
            self.wf(),
            0 <= b < self.n(),
            self.is_anc_idx(i, b),
            0 <= i < self.n(),
            exists|m: int| 0 <= m < self.pidx(i).len() && (#[trigger] self.pidx(i)[m]) as int == q,
        ensures
            self.is_anc_idx(q, b),
        decreases b,
    {
        let m = choose|m: int|
            0 <= m < self.pidx(b).len() && ((#[trigger] self.pidx(b)[m]) as int == i
                || self.is_anc_idx(i, self.pidx(b)[m] as int));
        let p = self.pidx(b)[m] as int;
        if p == i {
            assert(self.is_anc_idx(q, p));
        } else {
            self.lemma_anc_step(q, i, p);
        }
    }
}

impl DagStore {
    /// The arena indices of a prospective block's parents.
    pub closed spec fn resolve(self, pv: Seq<Seq<u8>>) -> Seq<int> {
        pv.map_values(|p: Seq<u8>| self.idx_of(p))
    }

    /// An ancestor of a prospective block reached through one more parent
    /// edge is itself an ancestor.
    proof fn lemma_anc_of_step(self, ps: Seq<int>, i: int, q: int)
        requires
            self.wf(),
            forall|m: int| 0 <= m < ps.len() ==> 0 <= #[trigger] ps[m] < self.n(),
            0 <= i < self.n(),
            self.is_anc_of_new(ps, i),
            exists|m: int| 0 <= m < self.pidx(i).len() && (#[trigger] self.pidx(i)[m]) as int == q,
        ensures
            self.is_anc_of_new(ps, q),
    {
        let m = choose|m: int|
            0 <= m < ps.len() && (#[trigger] ps[m] == i || self.is_anc_idx(i, ps[m]));
        if ps[m] == i {
            assert(self.is_anc_idx(q, ps[m]));
        } else {
            self.lemma_anc_step(q, i, ps[m]);
        }
    }

    /// A marked set that contains the parents and is closed under parent
    /// edges contains every ancestor of the prospective block.
    proof fn lemma_anc_idx_marked(self, marks: Seq<bool>, a: int, b: int)
        requires
            self.wf(),
            marks.len() == self.n(),
            forall|j: int, m: int|
                0 <= j < self.n() && marks[j] && 0 <= m < self.pidx(j).len() ==> marks[(
                #[trigger] self.pidx(j)[m]) as int],
            0 <= b < self.n(),
            marks[b],
            self.is_anc_idx(a, b),
        ensures
            0 <= a < self.n() && marks[a],
        decreases b,
    {
        let m = choose|m: int|
            0 <= m < self.pidx(b).len() && ((#[trigger] self.pidx(b)[m]) as int == a
                || self.is_anc_idx(a, self.pidx(b)[m] as int));
        let p = self.pidx(b)[m] as int;
        assert(marks[p]);
        if p != a {
            self.lemma_anc_idx_marked(marks, a, p);
        }
    }

    /// Computes the anticone width of a prospective block whose resolved
    /// parent indices are `pidxs`: a backwards closure pass marks every
    /// ancestor, and the unmarked blocks are counted.
    fn anticone_width(&self, pidxs: &Vec<usize>) -> (r: usize)
        requires
            self.wf(),
            forall|m: int| 0 <= m < pidxs@.len() ==> (#[trigger] pidxs@[m]) < self.n(),
        ensures
            r as int == self.anticone_of_new(pidxs@.map_values(|u: usize| u as int)),
    {
        let ghost ps = pidxs@.map_values(|u: usize| u as int);
        let n = self.blocks.len();
        let mut marks: Vec<bool> = Vec::new();
        let mut t: usize = 0;
        while t < n
            invariant
                t <= n,
                marks@.len() == t,
                forall|i: int| 0 <= i < t ==> !marks@[i],
            decreases n - t,
        {
            marks.push(false);
            t = t + 1;
        }
        let mut s: usize = 0;
        while s < pidxs.len()
            invariant
                self.wf(),
                n as int == self.n(),
                marks@.len() == n,
                s <= pidxs@.len(),
                forall|m: int| 0 <= m < pidxs@.len() ==> (#[trigger] pidxs@[m]) < n,
                ps == pidxs@.map_values(|u: usize| u as int),
                forall|i: int| 0 <= i < n && marks@[i] ==> self.is_anc_of_new(ps, i),
                forall|m: int| 0 <= m < s ==> marks@[#[trigger] pidxs@[m] as int],
            decreases pidxs@.len() - s,
        {
            let p = pidxs[s];
            proof {
                assert(ps[s as int] == p as int);
                assert(self.is_anc_of_new(ps, p as int));
            }
            marks.set(p, true);
            s = s + 1;
        }
        let mut i: usize = n;
        while i > 0
            invariant
                self.wf(),
                n as int == self.n(),
                marks@.len() == n,
                i <= n,
                forall|m: int| 0 <= m < pidxs@.len() ==> (#[trigger] pidxs@[m]) < n,
                ps == pidxs@.map_values(|u: usize| u as int),
                forall|m: int| 0 <= m < ps.len() ==> 0 <= #[trigger] ps[m] < self.n(),
                forall|i2: int| 0 <= i2 < n && marks@[i2] ==> self.is_anc_of_new(ps, i2),
                forall|m: int| 0 <= m < pidxs@.len() ==> marks@[#[trigger] pidxs@[m] as int],
                forall|j: int, m: int|
                    i <= j < n && marks@[j] && 0 <= m < self.pidx(j).len() ==> marks@[(
                    #[trigger] self.pidx(j)[m]) as int],
            decreases i,
        {
            i = i - 1;
            if marks[i] {
                let row = &self.parent_idx[i];
                let mut m: usize = 0;
                while m < row.len()
                    invariant
                        self.wf(),
                        n as int == self.n(),
                        marks@.len() == n,
                        i < n,
                        m <= row@.len(),
                        row@ == self.pidx(i as int),
                        marks@[i as int],
                        forall|m2: int| 0 <= m2 < pidxs@.len() ==> (#[trigger] pidxs@[m2]) < n,
                        ps == pidxs@.map_values(|u: usize| u as int),
                        forall|m2: int| 0 <= m2 < ps.len() ==> 0 <= #[trigger] ps[m2] < self.n(),
                        forall|i2: int| 0 <= i2 < n && marks@[i2] ==> self.is_anc_of_new(ps, i2),
                        forall|m2: int|
                            0 <= m2 < pidxs@.len() ==> marks@[#[trigger] pidxs@[m2] as int],
                        forall|j: int, m2: int|
                            i + 1 <= j < n && marks@[j] && 0 <= m2 < self.pidx(j).len() ==> marks@[(
                            #[trigger] self.pidx(j)[m2]) as int],
                        forall|t2: int| 0 <= t2 < m ==> marks@[(#[trigger] self.pidx(
                            i as int,
                        )[t2]) as int],
                    decreases row@.len() - m,
                {
                    let q = row[m];
                    proof {
                        self.lemma_anc_of_step(ps, i as int, q as int);
                    }
                    marks.set(q, true);
                    m = m + 1;
                }
            }
        }
        proof {
            assert forall|i2: int| 0 <= i2 < n implies (marks@[i2] <==> self.is_anc_of_new(
                ps,
                i2,
            )) by {
                if self.is_anc_of_new(ps, i2) {
                    let m = choose|m: int|
                        0 <= m < ps.len() && (#[trigger] ps[m] == i2 || self.is_anc_idx(
                            i2,
                            ps[m],
                        ));
                    assert(marks@[pidxs@[m] as int]);
                    if ps[m] != i2 {
                        self.lemma_anc_idx_marked(marks@, i2, ps[m]);
                    }
                }
            };
        }
        let mut cnt: usize = 0;
        let mut w: usize = 0;
        while w < n
            invariant
                self.wf(),
                n as int == self.n(),
                marks@.len() == n,
                w <= n,
                cnt <= w,
                forall|i2: int| 0 <= i2 < n ==> (marks@[i2] <==> self.is_anc_of_new(ps, i2)),
                cnt as int == w as int - self.anc_count(ps, w as int),
            decreases n - w,
        {
            if !marks[w] {
                cnt = cnt + 1;
            }
            w = w + 1;
        }
        cnt
    }

    /// Admits a block. Fails with `CyclicOrSelfParent` if the block names
    /// itself as a parent, `Duplicate` if its hash is already stored,
    /// `UnknownParent` if a parent hash is not stored, and
    /// `SecurityBoundExceeded` if the block's anticone is wider than the
    /// bound `k` its header declares. On failure the store is unchanged; on
    /// success the block is appended and the DAG view is extended by exactly
    /// this block, which keeps the DAG acyclic by construction.
    #[verifier::rlimit(100)]
    pub fn insert(&mut self, block: Block) -> (r: Result<(), ConsensusError>)
        requires
            old(self).wf(),
        ensures
            final(self).wf(),
            ({
                let h = block_hash_of(block.header);
                let pv = views(block.header.parents@);
                let os = *old(self);
                let fs = *final(self);
                match r {
                    Ok(()) => {
                        &&& !pv.contains(h)
                        &&& !os.contains_hash_spec(h)
                        &&& forall|m: int|
                            0 <= m < pv.len() ==> os.contains_hash_spec(#[trigger] pv[m])
                        &&& os.anticone_of_new(os.resolve(pv)) <= block.header.knight_params.k
                        &&& fs.n() == os.n() + 1
                        &&& fs.hash_at(os.n()) == h
                        &&& fs.block_at(os.n()) == block
                        &&& forall|i: int|
                            0 <= i < os.n() ==> #[trigger] fs.hash_at(i) == os.hash_at(i)
                                && fs.block_at(i) == os.block_at(i)
                        &&& fs.dag_view() == os.dag_view().insert(h, pv.to_set())
                    },
                    Err(e) => {
                        &&& fs == os
                        &&& ((e == ConsensusError::CyclicOrSelfParent) <==> pv.contains(h))
                        &&& ((e == ConsensusError::Duplicate) <==> (!pv.contains(h)
                            && os.contains_hash_spec(h)))
                        &&& ((e == ConsensusError::UnknownParent) <==> (!pv.contains(h)
                            && !os.contains_hash_spec(h) && exists|m: int|
                            0 <= m < pv.len() && !os.contains_hash_spec(#[trigger] pv[m])))
                        &&& ((e == ConsensusError::SecurityBoundExceeded) <==> (!pv.contains(h)
                            && !os.contains_hash_spec(h) && (forall|m: int|
                            0 <= m < pv.len() ==> os.contains_hash_spec(#[trigger] pv[m]))
                            && os.anticone_of_new(os.resolve(pv))
                                > block.header.knight_params.k))
                    },
                }
            }),
    {
        let ghost pv = views(block.header.parents@);
        let h = compute_block_hash(&block.header);
        let mut m: usize = 0;
        while m < block.header.parents.len()
            invariant
                self.wf(),
                *self == *old(self),
                m <= pv.len(),
                pv == views(block.header.parents@),
                h@ == block_hash_of(block.header),
                forall|t: int| 0 <= t < m ==> #[trigger] pv[t] != h@,
            decreases pv.len() - m,
        {
            if bytes_eq(&block.header.parents[m], &h) {
                assert(pv[m as int] == h@);
                return Err(ConsensusError::CyclicOrSelfParent);
            }
            m = m + 1;
        }
        assert(!pv.contains(h@));
        match self.find_index(&h) {
            Some(_) => {
                return Err(ConsensusError::Duplicate);
            },
            None => {},
        }
        let mut pidxs: Vec<usize> = Vec::new();
        let mut m2: usize = 0;
        while m2 < block.header.parents.len()
            invariant
                self.wf(),
                m2 <= pv.len(),
                pv == views(block.header.parents@),
                pidxs@.len() == m2,
                forall|t: int|
                    0 <= t < m2 ==> old(self).contains_hash_spec(#[trigger] pv[t]),
                forall|t: int|
                    0 <= t < m2 ==> (#[trigger] pidxs@[t]) < self.n() && pidxs@[t] as int
                        == self.idx_of(pv[t]) && self.hash_at(pidxs@[t] as int) == pv[t],
                *self == *old(self),
                !pv.contains(block_hash_of(block.header)),
                !self.contains_hash_spec(block_hash_of(block.header)),
            decreases pv.len() - m2,
        {
            match self.find_index(&block.header.parents[m2]) {
                None => {
                    assert(!old(self).contains_hash_spec(pv[m2 as int]));
                    return Err(ConsensusError::UnknownParent);
                },
                Some(i) => {
                    proof {
                        self.lemma_idx_of(i as int);
                    }
                    pidxs.push(i);
                },
            }
            m2 = m2 + 1;
        }
        proof {
            assert(pidxs@.map_values(|u: usize| u as int) =~= self.resolve(pv));
        }
        let width = self.anticone_width(&pidxs);
        if width as u64 > block.header.knight_params.k {
            return Err(ConsensusError::SecurityBoundExceeded);
        }
        let ghost oldself = *self;
        let ghost n0 = self.n();
        self.hashes.push(h);
        self.parent_idx.push(pidxs);
        self.blocks.push(block);
        proof {
            assert forall|i: int| 0 <= i < n0 + 1 implies (#[trigger] self.hash_at(i))
                == if i < n0 {
                oldself.hash_at(i)
            } else {
                block_hash_of(block.header)
            } by {};
            assert forall|i: int| 0 <= i < n0 implies #[trigger] self.pidx(i) == oldself.pidx(
                i,
            ) by {};
            assert(self.wf()) by {
                assert forall|i: int, j: int|
                    0 <= i < self.n() && 0 <= j < self.n() && i != j implies self.hash_at(i)
                        != self.hash_at(j) by {
                    if i == n0 && j < n0 {
                        if self.hash_at(i) == self.hash_at(j) {
                            assert(oldself.contains_hash_spec(self.hash_at(i)));
                        }
                    }
                    if j == n0 && i < n0 {
                        if self.hash_at(i) == self.hash_at(j) {
                            assert(oldself.contains_hash_spec(self.hash_at(j)));
                        }
                    }
                };
            };
            self.lemma_idx_of(n0);
            assert forall|i: int| 0 <= i < n0 implies #[trigger] self.idx_of(oldself.hash_at(i))
                == i && oldself.idx_of(oldself.hash_at(i)) == i by {
                self.lemma_idx_of(i);
                oldself.lemma_idx_of(i);
            };
            assert forall|i: int| 0 <= i < n0 implies #[trigger] self.parent_set_idx(i)
                == oldself.parent_set_idx(i) by {
                assert(self.parent_set_idx(i) =~= oldself.parent_set_idx(i));
            };
            assert(self.parent_set_idx(n0) =~= pv.to_set()) by {
                assert forall|p: Seq<u8>| self.parent_set_idx(n0).contains(p) implies pv.to_set()
                    .contains(p) by {
                    let k2 = choose|k2: int|
                        0 <= k2 < self.pidx(n0).len() && self.hash_at(
                            #[trigger] self.pidx(n0)[k2] as int,
                        ) == p;
                    assert(pv[k2] == p);
                };
                assert forall|p: Seq<u8>| pv.to_set().contains(p) implies self.parent_set_idx(
                    n0,
                ).contains(p) by {
                    let k2 = choose|k2: int| 0 <= k2 < pv.len() && pv[k2] == p;
                    assert(self.hash_at(self.pidx(n0)[k2] as int) == p);
                };
            };
            assert(self.dag_view() =~= oldself.dag_view().insert(
                block_hash_of(block.header),
                pv.to_set(),
            )) by {
                let h2 = block_hash_of(block.header);
                assert forall|x: Seq<u8>| #[trigger] self.contains_hash_spec(x) <==> (
                    oldself.contains_hash_spec(x) || x == h2) by {
                    if self.contains_hash_spec(x) {
                        let i = choose|i: int| 0 <= i < self.n() && self.hash_at(i) == x;
                        if i < n0 {
                            assert(oldself.contains_hash_spec(x));
                        } else {
                            assert(x == h2);
                        }
                    }
                    if oldself.contains_hash_spec(x) {
                        let i = choose|i: int| 0 <= i < oldself.n() && oldself.hash_at(i) == x;
                        assert(self.hash_at(i) == x);
                    }
                    if x == h2 {
                        assert(self.hash_at(n0) == x);
                    }
                };
                assert forall|x: Seq<u8>| self.contains_hash_spec(x) && x != h2 implies
                    #[trigger] self.parent_set_idx(self.idx_of(x)) == oldself.parent_set_idx(
                    oldself.idx_of(x),
                ) by {
                    let i = choose|i: int| 0 <= i < oldself.n() && oldself.hash_at(i) == x;
                    assert(self.idx_of(x) == i);
                    assert(oldself.idx_of(x) == i);
                };
            };
        }
        Ok(())
    }
}

/// Copies a byte vector.
pub fn clone_bytes(v: &Vec<u8>) -> (r: Vec<u8>)
    ensures
        r@ == v@,
{
    let mut r: Vec<u8> = Vec::new();
    let mut i: usize = 0;
    while i < v.len()
        invariant
            i <= v.len(),
            r@ == v@.take(i as int),
        decreases v.len() - i,
    {
        r.push(v[i]);
        i = i + 1;
        proof {
            assert(r@ =~= v@.take(i as int));
        }
    }
    proof {
        assert(v@.take(v@.len() as int) =~= v@);
    }
    r
}

} // verus!
