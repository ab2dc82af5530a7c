//! Hash-keyed accumulator mapping a key (by exact byte-sequence identity)
//! to its running [`Stats`].
//!
//! Buckets hold `(hash, Stats)` entries; the stored `Stats` carries the full
//! key bytes, so two distinct keys whose hashes collide are always tracked
//! as separate entries: the hash is only a bucket-selection shortcut.
//! The table's abstract value is a map from key bytes to [`AggModel`].

use vstd::prelude::*;
use crate::agg::{AggModel, Stats, agg_wf, upd_agg, unit_agg, combine_agg, MAX_COUNT};

verus! {

/// Initial number of buckets; a tunable power of two, large enough that
/// typical key cardinalities never force a resize.
pub const INITIAL_BUCKET_COUNT: usize = 0x10000;

/// 64-bit rolling polynomial hash with multiplier 31 over the key's bytes,
/// with wraparound on overflow.
pub open spec fn poly_hash(s: Seq<u8>) -> u64
    decreases s.len(),
{
    if s.len() == 0 {
        0u64
    } else {
        vstd::wrapping::u64_specs::wrapping_add(
            vstd::wrapping::u64_specs::wrapping_mul(poly_hash(s.drop_last()), 31u64),
            s.last() as u64,
        )
    }
}

/// Anything that can serve as a table key: it exposes a 64-bit hash.
pub trait Hash {
    spec fn spec_hash(&self) -> u64;

    fn hash(&self) -> (r: u64)
        ensures
            r == self.spec_hash(),
    ;
}

impl Hash for u64 {
    open spec fn spec_hash(&self) -> u64 {
        *self
    }

    fn hash(&self) -> (r: u64) {
        *self
    }
}

impl<'a> Hash for &'a [u8] {
    open spec fn spec_hash(&self) -> u64 {
        poly_hash(self@)
    }

    fn hash(&self) -> (r: u64) {
        let mut h: u64 = 0;
        let mut i: usize = 0;
        while i < self.len()
            invariant
                i <= self@.len(),
                h == poly_hash(self@.subrange(0, i as int)),
            decreases self@.len() - i,
        {
            proof {
                let sub = self@.subrange(0, i + 1);
                assert(sub.drop_last() =~= self@.subrange(0, i as int));
                assert(sub.last() == self@[i as int]);
            }
            h = h.wrapping_mul(31).wrapping_add(self[i] as u64);
            i = i + 1;
        }
        proof {
            assert(self@.subrange(0, self@.len() as int) =~= self@);
        }
        h
    }
}

/// True when some entry in some bucket carries key `k`.
pub open spec fn bs_contains(bs: Seq<Vec<(u64, Stats)>>, k: Seq<u8>) -> bool {
    exists|b: int, i: int|
        0 <= b < bs.len() && 0 <= i < bs[b]@.len() && bs[b]@[i].1.name@ == k
}

/// The aggregate stored for key `k` (meaningful when the key is present
/// and entries are unique per key).
pub open spec fn bs_at(bs: Seq<Vec<(u64, Stats)>>, k: Seq<u8>) -> AggModel {
    let (b, i) = choose|b: int, i: int|
        0 <= b < bs.len() && 0 <= i < bs[b]@.len() && bs[b]@[i].1.name@ == k;
    bs[b]@[i].1.stats()
}

/// Every entry is a well-formed, non-empty aggregate whose stored hash is
/// the hash of its key, and no key appears in two entries.
pub open spec fn bs_wf(bs: Seq<Vec<(u64, Stats)>>) -> bool {
    &&& forall|b: int, i: int|
        0 <= b < bs.len() && 0 <= i < bs[b]@.len() ==> {
            &&& (#[trigger] bs[b]@[i]).1.wf()
            &&& bs[b]@[i].1.count > 0
            &&& bs[b]@[i].0 == poly_hash(bs[b]@[i].1.name@)
        }
    &&& forall|b1: int, i1: int, b2: int, i2: int|
        0 <= b1 < bs.len() && 0 <= i1 < bs[b1]@.len() && 0 <= b2 < bs.len() && 0 <= i2
            < bs[b2]@.len() && !(b1 == b2 && i1 == i2) ==> (#[trigger] bs[b1]@[i1]).1.name@ != (
        #[trigger] bs[b2]@[i2]).1.name@
}

/// Every entry sits in the bucket selected by its hash modulo the bucket
/// count.
pub open spec fn bs_placed(bs: Seq<Vec<(u64, Stats)>>) -> bool {
    forall|b: int, i: int|
        0 <= b < bs.len() && 0 <= i < bs[b]@.len() ==> ((#[trigger] bs[b]@[i]).0 as int) % (
        bs.len() as int) == b
}

/// A key present at `(b, i)` is the only occurrence of that key, so the
/// table's lookup yields exactly that entry's aggregate.
proof fn lemma_located(bs: Seq<Vec<(u64, Stats)>>, k: Seq<u8>, b: int, i: int)
    requires
        bs_wf(bs),
        0 <= b < bs.len(),
        0 <= i < bs[b]@.len(),
        bs[b]@[i].1.name@ == k,
    ensures
        bs_contains(bs, k),
        bs_at(bs, k) == bs[b]@[i].1.stats(),
{
    assert(bs_contains(bs, k));
    let (b2, i2) = choose|b2: int, i2: int|
        0 <= b2 < bs.len() && 0 <= i2 < bs[b2]@.len() && bs[b2]@[i2].1.name@ == k;
    if !(b2 == b && i2 == i) {
        assert(bs[b2]@[i2].1.name@ != bs[b]@[i].1.name@);
    }
}

/// If the bucket a key hashes to does not carry it, no bucket does.
proof fn lemma_absent(bs: Seq<Vec<(u64, Stats)>>, k: Seq<u8>, hb: int)
    requires
        bs_wf(bs),
        bs_placed(bs),
        bs.len() >= 1,
        hb == (poly_hash(k) as int) % (bs.len() as int),
        forall|j: int| 0 <= j < bs[hb]@.len() ==> (#[trigger] bs[hb]@[j]).1.name@ != k,
    ensures
        !bs_contains(bs, k),
{
    if bs_contains(bs, k) {
        let (b, i) = choose|b: int, i: int|
            0 <= b < bs.len() && 0 <= i < bs[b]@.len() && bs[b]@[i].1.name@ == k;
        assert(bs[b]@[i].0 == poly_hash(k));
        assert(b == hb);
    }
}

/// Appending an entry with a fresh key to bucket `idx` extends the
/// abstract map by that key and leaves everything else unchanged.
proof fn lemma_bs_push(
    pre: Seq<Vec<(u64, Stats)>>,
    post: Seq<Vec<(u64, Stats)>>,
    idx: int,
    e: (u64, Stats),
)
    requires
        bs_wf(pre),
        0 <= idx < pre.len(),
        post.len() == pre.len(),
        post[idx]@ == pre[idx]@.push(e),
        forall|b: int| 0 <= b < pre.len() && b != idx ==> post[b] == #[trigger] pre[b],
        e.1.wf(),
        e.1.count > 0,
        e.0 == poly_hash(e.1.name@),
        !bs_contains(pre, e.1.name@),
    ensures
        bs_wf(post),
        bs_placed(pre) && (e.0 as int) % (pre.len() as int) == idx ==> bs_placed(post),
        forall|k: Seq<u8>| bs_contains(post, k) <==> bs_contains(pre, k) || k == e.1.name@,
        bs_at(post, e.1.name@) == e.1.stats(),
        forall|k: Seq<u8>| k != e.1.name@ && bs_contains(pre, k) ==> bs_at(post, k) == bs_at(
            pre, k),
{
    let n = pre[idx]@.len() as int;
    assert forall|b: int, i: int| 0 <= b < post.len() && 0 <= i < post[b]@.len() implies (
    #[trigger] post[b]@[i]) == (if b == idx && i == n {
        e
    } else {
        pre[b]@[i]
    }) by {
        if b == idx {
            assert(post[b]@ == pre[idx]@.push(e));
        }
    }
    assert(bs_wf(post));
    assert forall|k: Seq<u8>| bs_contains(post, k) implies bs_contains(pre, k) || k
        == e.1.name@ by {
        let (b, i) = choose|b: int, i: int|
            0 <= b < post.len() && 0 <= i < post[b]@.len() && post[b]@[i].1.name@ == k;
        if !(b == idx && i == n) {
            assert(pre[b]@[i].1.name@ == k);
        }
    }
    assert forall|k: Seq<u8>| bs_contains(pre, k) implies bs_contains(post, k) by {
        let (b, i) = choose|b: int, i: int|
            0 <= b < pre.len() && 0 <= i < pre[b]@.len() && pre[b]@[i].1.name@ == k;
        assert(post[b]@[i].1.name@ == k);
    }
    lemma_located(post, e.1.name@, idx, n);
    assert forall|k: Seq<u8>| k != e.1.name@ && bs_contains(pre, k) implies bs_at(post, k)
        == bs_at(pre, k) by {
        let (b, i) = choose|b: int, i: int|
            0 <= b < pre.len() && 0 <= i < pre[b]@.len() && pre[b]@[i].1.name@ == k;
        lemma_located(pre, k, b, i);
        lemma_located(post, k, b, i);
    }
    if bs_placed(pre) && (e.0 as int) % (pre.len() as int) == idx {
        assert(bs_placed(post));
    }
}

/// Replacing the aggregate stored at `(b, i)` by one with the same key and
/// hash rewrites that key's abstract value and leaves the rest unchanged.
proof fn lemma_bs_set(
    pre: Seq<Vec<(u64, Stats)>>,
    post: Seq<Vec<(u64, Stats)>>,
    bi: int,
    ii: int,
    e2: (u64, Stats),
)
    requires
        bs_wf(pre),
        0 <= bi < pre.len(),
        0 <= ii < pre[bi]@.len(),
        post.len() == pre.len(),
        post[bi]@ == pre[bi]@.update(ii, e2),
        forall|b: int| 0 <= b < pre.len() && b != bi ==> post[b] == #[trigger] pre[b],
        e2.1.name@ == pre[bi]@[ii].1.name@,
        e2.0 == pre[bi]@[ii].0,
        e2.1.wf(),
        e2.1.count > 0,
    ensures
        bs_wf(post),
        bs_placed(pre) ==> bs_placed(post),
        forall|k: Seq<u8>| bs_contains(post, k) <==> bs_contains(pre, k),
        bs_at(post, e2.1.name@) == e2.1.stats(),
        forall|k: Seq<u8>| k != e2.1.name@ && bs_contains(pre, k) ==> bs_at(post, k) == bs_at(
            pre, k),
{
    assert forall|b: int, i: int| 0 <= b < post.len() && 0 <= i < post[b]@.len() implies (
    #[trigger] post[b]@[i]) == (if b == bi && i == ii {
        e2
    } else {
        pre[b]@[i]
    }) by {
        if b == bi {
            assert(post[b]@ == pre[bi]@.update(ii, e2));
        }
    }
    assert(bs_wf(post));
    assert forall|k: Seq<u8>| bs_contains(post, k) implies bs_contains(pre, k) by {
        let (b, i) = choose|b: int, i: int|
            0 <= b < post.len() && 0 <= i < post[b]@.len() && post[b]@[i].1.name@ == k;
        assert(pre[b]@[i].1.name@ == k);
    }
    assert forall|k: Seq<u8>| bs_contains(pre, k) implies bs_contains(post, k) by {
        let (b, i) = choose|b: int, i: int|
            0 <= b < pre.len() && 0 <= i < pre[b]@.len() && pre[b]@[i].1.name@ == k;
        assert(post[b]@[i].1.name@ == k);
    }
    lemma_located(post, e2.1.name@, bi, ii);
    assert forall|k: Seq<u8>| k != e2.1.name@ && bs_contains(pre, k) implies bs_at(post, k)
        == bs_at(pre, k) by {
        let (b, i) = choose|b: int, i: int|
            0 <= b < pre.len() && 0 <= i < pre[b]@.len() && pre[b]@[i].1.name@ == k;
        lemma_located(pre, k, b, i);
        lemma_located(post, k, b, i);
    }
    if bs_placed(pre) {
        assert(bs_placed(post));
    }
}

/// Membership of a key in one bucket sequence.
pub open spec fn bucket_has(bucket: Seq<(u64, Stats)>, k: Seq<u8>) -> bool {
    exists|j: int| 0 <= j < bucket.len() && bucket[j].1.name@ == k
}

/// A bucket-wise prefix of a well-formed bucket array is well formed.
proof fn lemma_prefix_wf(orig: Seq<Vec<(u64, Stats)>>, p: Seq<Vec<(u64, Stats)>>)
    requires
        bs_wf(orig),
        p.len() <= orig.len(),
        forall|b: int| 0 <= b < p.len() ==> #[trigger] p[b] == orig[b],
    ensures
        bs_wf(p),
{
    assert forall|b: int, i: int| 0 <= b < p.len() && 0 <= i < p[b]@.len() implies {
        &&& (#[trigger] p[b]@[i]).1.wf()
        &&& p[b]@[i].1.count > 0
        &&& p[b]@[i].0 == poly_hash(p[b]@[i].1.name@)
    } by {
        assert(p[b]@[i] == orig[b]@[i]);
    }
    assert forall|b1: int, i1: int, b2: int, i2: int|
        0 <= b1 < p.len() && 0 <= i1 < p[b1]@.len() && 0 <= b2 < p.len() && 0 <= i2
            < p[b2]@.len() && !(b1 == b2 && i1 == i2) implies (#[trigger] p[b1]@[i1]).1.name@ != (
    #[trigger] p[b2]@[i2]).1.name@ by {
        assert(p[b1]@[i1] == orig[b1]@[i1]);
        assert(p[b2]@[i2] == orig[b2]@[i2]);
    }
}

/// Compares two byte strings for exact equality.
fn bytes_eq(a: &[u8], b: &[u8]) -> (r: bool)
    ensures
        r == (a@ == b@),
{
    if a.len() != b.len() {
        return false;
    }
    let mut i: usize = 0;
    while i < a.len()
        invariant
            a@.len() == b@.len(),
            i <= a@.len(),
            forall|j: int| 0 <= j < i ==> a@[j] == b@[j],
        decreases a@.len() - i,
    {
        if a[i] != b[i] {
            return false;
        }
        i = i + 1;
    }
    proof {
        assert(a@ =~= b@);
    }
    true
}

/// Finds the index of the entry carrying `key` in one bucket, comparing
/// the stored key bytes (never the hash alone).
fn find_in_bucket(bucket: &Vec<(u64, Stats)>, key: &[u8]) -> (r: Option<usize>)
    ensures
        match r {
            Some(i) => i < bucket@.len() && bucket@[i as int].1.name@ == key@,
            None => forall|j: int|
                0 <= j < bucket@.len() ==> (#[trigger] bucket@[j]).1.name@ != key@,
        },
{
    let mut i: usize = 0;
    while i < bucket.len()
        invariant
            i <= bucket@.len(),
            forall|j: int| 0 <= j < i ==> (#[trigger] bucket@[j]).1.name@ != key@,
        decreases bucket@.len() - i,
    {
        if bytes_eq(bucket[i].1.name.as_slice(), key) {
            return Some(i);
        }
        i = i + 1;
    }
    None
}

/// The hash-keyed accumulator.
#[derive(Debug)]
pub struct HashTable {
    buckets: Vec<Vec<(u64, Stats)>>,
    size: usize,
}

impl View for HashTable {
    type V = Map<Seq<u8>, AggModel>;

    /// The map from each stored key to its aggregate.
    closed spec fn view(&self) -> Map<Seq<u8>, AggModel> {
        Map::new(
            |k: Seq<u8>| bs_contains(self.buckets@, k),
            |k: Seq<u8>| bs_at(self.buckets@, k),
        )
    }
}

impl HashTable {
    pub closed spec fn wf(&self) -> bool {
        &&& self.buckets@.len() >= 1
        &&& bs_wf(self.buckets@)
        &&& bs_placed(self.buckets@)
    }

    pub closed spec fn bucket_count(&self) -> int {
        self.buckets@.len() as int
    }

    /// Every stored aggregate is well formed and holds at least one
    /// observation.
    pub proof fn lemma_values_wf(&self)
        requires
            self.wf(),
        ensures
            forall|k: Seq<u8>|
                self@.contains_key(k) ==> agg_wf(#[trigger] self@[k]) && self@[k].count > 0,
    {
        assert forall|k: Seq<u8>| self@.contains_key(k) implies agg_wf(#[trigger] self@[k])
            && self@[k].count > 0 by {
            let (b, i) = choose|b: int, i: int|
                0 <= b < self.buckets@.len() && 0 <= i < self.buckets@[b]@.len()
                    && self.buckets@[b]@[i].1.name@ == k;
            lemma_located(self.buckets@, k, b, i);
        }
    }

    /// An empty table with `n` buckets. The bucket count is a tunable
    /// constant, so it is a constructor parameter here.
    pub fn with_bucket_count(n: usize) -> (r: HashTable)
        requires
            n >= 1,
        ensures
            r.wf(),
            r@ == Map::<Seq<u8>, AggModel>::empty(),
            r.bucket_count() == n as int,
    {
        let mut buckets: Vec<Vec<(u64, Stats)>> = Vec::new();
        let mut i: usize = 0;
        while i < n
            invariant
                i <= n,
                buckets@.len() == i,
                forall|b: int| 0 <= b < i ==> (#[trigger] buckets@[b])@.len() == 0,
            decreases n - i,
        {
            buckets.push(Vec::new());
            i = i + 1;
        }
        let r = HashTable { buckets, size: 0 };
        proof {
            assert(r@ =~= Map::<Seq<u8>, AggModel>::empty());
        }
        r
    }

    /// An empty table with the default bucket count.
    pub fn new() -> (r: HashTable)
        ensures
            r.wf(),
            r@ == Map::<Seq<u8>, AggModel>::empty(),
            r.bucket_count() == INITIAL_BUCKET_COUNT as int,
    {
        Self::with_bucket_count(INITIAL_BUCKET_COUNT)
    }

    fn bucket_index(&self, h: u64) -> (r: usize)
        requires
            self.buckets@.len() >= 1,
        ensures
            r as int == (h as int) % (self.buckets@.len() as int),
            r < self.buckets@.len(),
    {
        (h % (self.buckets.len() as u64)) as usize
    }

    /// Looks the key up; the returned aggregate, if any, is exactly the
    /// abstract map's value for it.
    pub fn get(&self, key: &[u8]) -> (r: Option<&Stats>)
        requires
            self.wf(),
        ensures
            match r {
                Some(s) => self@.contains_key(key@) && s.name@ == key@ && s.stats()
                    == self@[key@] && s.wf() && s.count > 0,
                None => !self@.contains_key(key@),
            },
    {
        let h = key.hash();
        let b = self.bucket_index(h);
        match find_in_bucket(&self.buckets[b], key) {
            Some(i) => {
                proof {
                    lemma_located(self.buckets@, key@, b as int, i as int);
                }
                Some(&self.buckets[b][i].1)
            },
            None => {
                proof {
                    lemma_absent(self.buckets@, key@, b as int);
                }
                None
            },
        }
    }

    /// Folds one observation for `key` into the table: the existing
    /// aggregate is updated, or a fresh one-observation entry is added.
    pub fn insert_or_update(&mut self, key: &[u8], value: i32)
        requires
            old(self).wf(),
            old(self)@.contains_key(key@) ==> old(self)@[key@].count < MAX_COUNT as int,
        ensures
            final(self).wf(),
            final(self)@ == if old(self)@.contains_key(key@) {
                old(self)@.insert(key@, upd_agg(old(self)@[key@], value as int))
            } else {
                old(self)@.insert(key@, unit_agg(value as int))
            },
    {
        if self.size >= self.buckets.len() / 4 * 3 {
            self.resize();
        }
        let h = key.hash();
        let b = self.bucket_index(h);
        let ghost pre = self.buckets@;
        match find_in_bucket(&self.buckets[b], key) {
            Some(i) => {
                proof {
                    lemma_located(pre, key@, b as int, i as int);
                }
                self.buckets[b][i].1.update(value);
                proof {
                    let post = self.buckets@;
                    let e2 = post[b as int]@[i as int];
                    assert(post[b as int]@ =~= pre[b as int]@.update(i as int, e2));
                    lemma_bs_set(pre, post, b as int, i as int, e2);
                    assert(final(self)@ =~= old(self)@.insert(
                        key@,
                        upd_agg(old(self)@[key@], value as int),
                    ));
                }
            },
            None => {
                proof {
                    lemma_absent(pre, key@, b as int);
                }
                let mut s = Stats::new(key);
                s.update(value);
                self.buckets[b].push((h, s));
                // The entry counter only drives the resize heuristic; it
                // saturates rather than wrap.
                if self.size < usize::MAX {
                    self.size = self.size + 1;
                }
                proof {
                    let post = self.buckets@;
                    let e = post[b as int]@[post[b as int]@.len() - 1];
                    assert(post[b as int]@ =~= pre[b as int]@.push(e));
                    lemma_bs_push(pre, post, b as int, e);
                    assert(final(self)@ =~= old(self)@.insert(key@, unit_agg(value as int)));
                }
            },
        }
    }

    /// Doubles the bucket count and rehashes every entry; the abstract map
    /// is unchanged. When doubling would overflow the address space, the
    /// table is left as it is.
    fn resize(&mut self)
        requires
            old(self).wf(),
        ensures
            final(self).wf(),
            final(self)@ == old(self)@,
            final(self).bucket_count() == (if old(self).bucket_count() <= usize::MAX as int / 2 {
                2 * old(self).bucket_count()
            } else {
                old(self).bucket_count()
            }),
            final(self).size == old(self).size,
    {
        let old_count = self.buckets.len();
        if old_count > usize::MAX / 2 {
            return ;
        }
        let new_count = old_count * 2;
        let mut taken: Vec<Vec<(u64, Stats)>> = Vec::new();
        let mut i: usize = 0;
        while i < new_count
            invariant
                i <= new_count,
                taken@.len() == i,
                forall|b: int| 0 <= b < i ==> (#[trigger] taken@[b])@.len() == 0,
            decreases new_count - i,
        {
            taken.push(Vec::new());
            i = i + 1;
        }
        core::mem::swap(&mut self.buckets, &mut taken);
        // `self.buckets` is now the doubled, empty array; `taken` holds the
        // previous buckets and is drained entry by entry.
        let ghost orig = taken@;
        proof {
            assert(bs_wf(self.buckets@));
            assert(bs_placed(self.buckets@));
            assert forall|k: Seq<u8>| !bs_contains(self.buckets@, k) by {}
        }
        while taken.len() > 0
            invariant
                self.size == old(self).size,
                self.buckets@.len() == new_count,
                new_count >= 1,
                bs_wf(self.buckets@),
                bs_placed(self.buckets@),
                bs_wf(orig),
                taken@.len() <= orig.len(),
                taken@ =~= orig.subrange(0, taken@.len() as int),
                forall|k: Seq<u8>| !(bs_contains(self.buckets@, k) && bs_contains(taken@, k)),
                forall|k: Seq<u8>|
                    bs_contains(self.buckets@, k) || bs_contains(taken@, k) <==> bs_contains(
                        orig,
                        k,
                    ),
                forall|k: Seq<u8>|
                    bs_contains(self.buckets@, k) ==> bs_at(self.buckets@, k) == bs_at(orig, k),
                forall|k: Seq<u8>|
                    bs_contains(taken@, k) ==> bs_at(taken@, k) == bs_at(orig, k),
            decreases taken@.len(),
        {
            let ghost pre_taken = taken@;
            let mut bucket = taken.pop().unwrap();
            let ghost b0 = taken@.len() as int;
            proof {
                assert(bucket@ == orig[b0]@);
                assert forall|k: Seq<u8>|
                    !(bs_contains(self.buckets@, k) && (bs_contains(taken@, k) || bucket_has(
                        bucket@,
                        k,
                    ))) by {
                    if bs_contains(taken@, k) {
                        let (b, i) = choose|b: int, i: int|
                            0 <= b < taken@.len() && 0 <= i < taken@[b]@.len()
                                && taken@[b]@[i].1.name@ == k;
                        assert(pre_taken[b]@[i].1.name@ == k);
                        assert(bs_contains(pre_taken, k));
                    }
                    if bucket_has(bucket@, k) {
                        let j = choose|j: int| 0 <= j < bucket@.len() && bucket@[j].1.name@ == k;
                        assert(pre_taken[b0]@[j].1.name@ == k);
                        assert(bs_contains(pre_taken, k));
                    }
                }
                assert forall|k: Seq<u8>|
                    bs_contains(self.buckets@, k) || bs_contains(taken@, k) || bucket_has(
                        bucket@,
                        k,
                    ) <==> bs_contains(orig, k) by {
                    if bs_contains(taken@, k) {
                        let (b, i) = choose|b: int, i: int|
                            0 <= b < taken@.len() && 0 <= i < taken@[b]@.len()
                                && taken@[b]@[i].1.name@ == k;
                        assert(pre_taken[b]@[i].1.name@ == k);
                        assert(bs_contains(pre_taken, k));
                    }
                    if bucket_has(bucket@, k) {
                        let j = choose|j: int| 0 <= j < bucket@.len() && bucket@[j].1.name@ == k;
                        assert(pre_taken[b0]@[j].1.name@ == k);
                        assert(bs_contains(pre_taken, k));
                    }
                    if bs_contains(orig, k) {
                        assert(bs_contains(self.buckets@, k) || bs_contains(pre_taken, k));
                        if bs_contains(pre_taken, k) {
                            let (b, i) = choose|b: int, i: int|
                                0 <= b < pre_taken.len() && 0 <= i < pre_taken[b]@.len()
                                    && pre_taken[b]@[i].1.name@ == k;
                            if b < b0 {
                                assert(taken@[b]@[i].1.name@ == k);
                                assert(bs_contains(taken@, k));
                            } else {
                                assert(bucket@[i].1.name@ == k);
                                assert(bucket_has(bucket@, k));
                            }
                        }
                    }
                }
                lemma_prefix_wf(orig, taken@);
                lemma_prefix_wf(orig, pre_taken);
                assert forall|k: Seq<u8>| bs_contains(taken@, k) implies bs_at(taken@, k)
                    == bs_at(orig, k) by {
                    let (b, i) = choose|b: int, i: int|
                        0 <= b < taken@.len() && 0 <= i < taken@[b]@.len()
                            && taken@[b]@[i].1.name@ == k;
                    assert(pre_taken[b]@[i].1.name@ == k);
                    assert(bs_contains(pre_taken, k));
                    assert(bs_at(taken@, k) == bs_at(pre_taken, k)) by {
                        lemma_located(taken@, k, b, i);
                        lemma_located(pre_taken, k, b, i);
                    }
                }
            }
            while bucket.len() > 0
                invariant
                    self.size == old(self).size,
                    self.buckets@.len() == new_count,
                    new_count >= 1,
                    bs_wf(self.buckets@),
                    bs_placed(self.buckets@),
                    bs_wf(orig),
                    0 <= b0 < orig.len(),
                    taken@ =~= orig.subrange(0, b0),
                    bucket@.len() <= orig[b0]@.len(),
                    forall|j: int| 0 <= j < bucket@.len() ==> #[trigger] bucket@[j]
                        == orig[b0]@[j],
                    forall|k: Seq<u8>|
                        !(bs_contains(self.buckets@, k) && (bs_contains(taken@, k) || bucket_has(
                            bucket@,
                            k,
                        ))),
                    forall|k: Seq<u8>|
                        bs_contains(self.buckets@, k) || bs_contains(taken@, k) || bucket_has(
                            bucket@,
                            k,
                        ) <==> bs_contains(orig, k),
                    forall|k: Seq<u8>|
                        bs_contains(self.buckets@, k) ==> bs_at(self.buckets@, k) == bs_at(
                            orig,
                            k,
                        ),
                    forall|k: Seq<u8>|
                        bs_contains(taken@, k) ==> bs_at(taken@, k) == bs_at(orig, k),
                decreases bucket@.len(),
            {
                let ghost pre_new = self.buckets@;
                let ghost pre_bucket = bucket@;
                let e = bucket.pop().unwrap();
                let ghost j0 = bucket@.len() as int;
                let ghost k = e.1.name@;
                proof {
                    assert(e == orig[b0]@[j0]);
                    lemma_located(orig, k, b0, j0);
                    assert(bucket_has(pre_bucket, k));
                    assert(!bs_contains(pre_new, k));
                }
                let idx = self.bucket_index(e.0);
                self.buckets[idx].push(e);
                proof {
                    let post = self.buckets@;
                    assert(post[idx as int]@ =~= pre_new[idx as int]@.push(e));
                    lemma_bs_push(pre_new, post, idx as int, e);
                    assert forall|k2: Seq<u8>|
                        bucket_has(pre_bucket, k2) <==> bucket_has(bucket@, k2) || k2 == k by {
                        if bucket_has(pre_bucket, k2) {
                            let j = choose|j: int|
                                0 <= j < pre_bucket.len() && pre_bucket[j].1.name@ == k2;
                            if j < j0 {
                                assert(bucket@[j].1.name@ == k2);
                            }
                        }
                        if bucket_has(bucket@, k2) {
                            let j = choose|j: int|
                                0 <= j < bucket@.len() && bucket@[j].1.name@ == k2;
                            assert(pre_bucket[j].1.name@ == k2);
                        }
                    }
                    // the moved key cannot still be in `taken` or in the
                    // remainder of this bucket (it would be a duplicate in
                    // `orig`)
                    assert(!bucket_has(bucket@, k)) by {
                        if bucket_has(bucket@, k) {
                            let j = choose|j: int|
                                0 <= j < bucket@.len() && bucket@[j].1.name@ == k;
                            assert(orig[b0]@[j].1.name@ == orig[b0]@[j0].1.name@);
                        }
                    }
                    assert(!bs_contains(taken@, k)) by {
                        if bs_contains(taken@, k) {
                            let (b, i) = choose|b: int, i: int|
                                0 <= b < taken@.len() && 0 <= i < taken@[b]@.len()
                                    && taken@[b]@[i].1.name@ == k;
                            assert(orig[b]@[i].1.name@ == orig[b0]@[j0].1.name@);
                        }
                    }
                    assert forall|k2: Seq<u8>|
                        !(bs_contains(post, k2) && (bs_contains(taken@, k2) || bucket_has(
                            bucket@,
                            k2,
                        ))) by {
                        assert(bs_contains(post, k2) <==> bs_contains(pre_new, k2) || k2 == k);
                        assert(bucket_has(pre_bucket, k2) <==> bucket_has(bucket@, k2) || k2
                            == k);
                    }
                    assert forall|k2: Seq<u8>|
                        bs_contains(post, k2) || bs_contains(taken@, k2) || bucket_has(
                            bucket@,
                            k2,
                        ) <==> bs_contains(orig, k2) by {
                        assert(bs_contains(post, k2) <==> bs_contains(pre_new, k2) || k2 == k);
                        assert(bucket_has(pre_bucket, k2) <==> bucket_has(bucket@, k2) || k2
                            == k);
                        assert(bs_contains(pre_new, k2) || bs_contains(taken@, k2) || bucket_has(
                            pre_bucket,
                            k2,
                        ) <==> bs_contains(orig, k2));
                    }
                    assert forall|k2: Seq<u8>| bs_contains(post, k2) implies bs_at(post, k2)
                        == bs_at(orig, k2) by {
                        if k2 == k {
                            assert(bs_at(post, k) == e.1.stats());
                            assert(bs_at(orig, k) == e.1.stats());
                        } else {
                            assert(bs_contains(pre_new, k2));
                            assert(bs_at(post, k2) == bs_at(pre_new, k2));
                        }
                    }
                }
            }
        }
        proof {
            assert(final(self)@ =~= old(self)@);
        }
    }

    /// Folds one foreign aggregate into the table: combined elementwise
    /// with the existing entry for its key, or inserted as it is.
    fn absorb(&mut self, src: &Stats)
        requires
            old(self).wf(),
            src.wf(),
            src.count > 0,
            old(self)@.contains_key(src.name@) ==> old(self)@[src.name@].count
                + src.stats().count <= MAX_COUNT as int,
        ensures
            final(self).wf(),
            final(self)@ == if old(self)@.contains_key(src.name@) {
                old(self)@.insert(
                    src.name@,
                    combine_agg(old(self)@[src.name@], src.stats()),
                )
            } else {
                old(self)@.insert(src.name@, src.stats())
            },
    {
        if self.size >= self.buckets.len() / 4 * 3 {
            self.resize();
        }
        let h = src.name.as_slice().hash();
        let b = self.bucket_index(h);
        let ghost pre = self.buckets@;
        match find_in_bucket(&self.buckets[b], src.name.as_slice()) {
            Some(i) => {
                proof {
                    lemma_located(pre, src.name@, b as int, i as int);
                }
                self.buckets[b][i].1.merge(src);
                proof {
                    let post = self.buckets@;
                    let e2 = post[b as int]@[i as int];
                    assert(post[b as int]@ =~= pre[b as int]@.update(i as int, e2));
                    lemma_bs_set(pre, post, b as int, i as int, e2);
                    assert(final(self)@ =~= old(self)@.insert(
                        src.name@,
                        combine_agg(old(self)@[src.name@], src.stats()),
                    ));
                }
            },
            None => {
                proof {
                    lemma_absent(pre, src.name@, b as int);
                }
                let s = src.duplicate();
                self.buckets[b].push((h, s));
                if self.size < usize::MAX {
                    self.size = self.size + 1;
                }
                proof {
                    let post = self.buckets@;
                    let e = post[b as int]@[post[b as int]@.len() - 1];
                    assert(post[b as int]@ =~= pre[b as int]@.push(e));
                    lemma_bs_push(pre, post, b as int, e);
                    assert(final(self)@ =~= old(self)@.insert(src.name@, src.stats()));
                }
            },
        }
    }

    /// Merges every entry of `other` into this table, per key. Returns
    /// `false` (leaving the table unchanged) when some shared key's
    /// combined count would exceed `MAX_COUNT`.
    pub fn merge(&mut self, other: &HashTable) -> (ok: bool)
        requires
            old(self).wf(),
            other.wf(),
        ensures
            final(self).wf(),
            ok == mergeable(old(self)@, other@),
            ok ==> final(self)@ == combine_tables(old(self)@, other@),
            !ok ==> final(self)@ == old(self)@,
    {
        let entries = other.key_set();
        let ghost es = entries@;
        // First pass: check that every shared key stays within `MAX_COUNT`.
        let mut j: usize = 0;
        while j < entries.len()
            invariant
                self == old(self),
                self.wf(),
                other.wf(),
                es == entries@,
                j <= es.len(),
                forall|j2: int|
                    0 <= j2 < es.len() ==> {
                        let e = #[trigger] es[j2];
                        &&& other@.contains_key(e.1.name@)
                        &&& e.1.stats() == other@[e.1.name@]
                        &&& e.1.wf()
                        &&& e.1.count > 0
                    },
                forall|j2: int| #![auto]
                    0 <= j2 < j && old(self)@.contains_key(es[j2].1.name@) ==> old(
                        self,
                    )@[es[j2].1.name@].count + es[j2].1.stats().count <= MAX_COUNT as int,
            decreases es.len() - j,
        {
            let e = &entries[j];
            match self.get(e.1.name.as_slice()) {
                Some(s) => {
                    if s.count > MAX_COUNT - e.1.count {
                        proof {
                            let k = e.1.name@;
                            assert(self@ == old(self)@);
                            assert(!mergeable(old(self)@, other@)) by {
                                assert(old(self)@[k].count + other@[k].count > MAX_COUNT as int);
                            }
                        }
                        return false;
                    }
                },
                None => {},
            }
            j = j + 1;
        }
        proof {
            assert forall|k: Seq<u8>| #![auto]
                old(self)@.contains_key(k) && other@.contains_key(k) implies old(self)@[k].count
                + other@[k].count <= MAX_COUNT as int by {
                let j2 = choose|j2: int| 0 <= j2 < es.len() && (#[trigger] es[j2]).1.name@ == k;
                assert(es[j2].1.stats() == other@[k]);
            }
            assert(mergeable(old(self)@, other@));
            assert forall|k: Seq<u8>| !seq_prefix_has(es, 0, k) by {
                if seq_prefix_has(es, 0, k) {
                    let j2 = choose|j2: int| 0 <= j2 < 0 && es[j2].1.name@ == k;
                }
            }
        }
        // Second pass: fold the entries in.
        let mut j: usize = 0;
        while j < entries.len()
            invariant
                self.wf(),
                other.wf(),
                es == entries@,
                j <= es.len(),
                mergeable(old(self)@, other@),
                forall|j2: int|
                    0 <= j2 < es.len() ==> {
                        let e = #[trigger] es[j2];
                        &&& other@.contains_key(e.1.name@)
                        &&& e.1.stats() == other@[e.1.name@]
                        &&& e.1.wf()
                        &&& e.1.count > 0
                    },
                forall|j1: int, j2: int|
                    0 <= j1 < es.len() && 0 <= j2 < es.len() && j1 != j2 ==> (
                    #[trigger] es[j1]).1.name@ != (#[trigger] es[j2]).1.name@,
                forall|k: Seq<u8>|
                    other@.contains_key(k) ==> exists|j2: int|
                        0 <= j2 < es.len() && (#[trigger] es[j2]).1.name@ == k,
                self@ == combine_tables(old(self)@, prefix_map(es, j as int, other@)),
            decreases es.len() - j,
        {
            let ghost pre_m = self@;
            let ghost ke = es[j as int].1.name@;
            proof {
                assert(!seq_prefix_has(es, j as int, ke)) by {
                    if seq_prefix_has(es, j as int, ke) {
                        let j2 = choose|j2: int| 0 <= j2 < j && es[j2].1.name@ == ke;
                        assert(es[j2].1.name@ != es[j as int].1.name@);
                    }
                }
                assert(other@.contains_key(ke));
                if pre_m.contains_key(ke) {
                    assert(old(self)@.contains_key(ke));
                    assert(pre_m[ke] == old(self)@[ke]);
                    assert(old(self)@[ke].count + other@[ke].count <= MAX_COUNT as int);
                }
            }
            self.absorb(&entries[j].1);
            proof {
                assert forall|k: Seq<u8>|
                    seq_prefix_has(es, j + 1, k) <==> seq_prefix_has(es, j as int, k) || k
                        == ke by {
                    if seq_prefix_has(es, j + 1, k) {
                        let j2 = choose|j2: int| 0 <= j2 < j + 1 && es[j2].1.name@ == k;
                        if j2 != j as int {
                            assert(seq_prefix_has(es, j as int, k));
                        }
                    }
                    if seq_prefix_has(es, j as int, k) {
                        let j2 = choose|j2: int| 0 <= j2 < j && es[j2].1.name@ == k;
                        assert(seq_prefix_has(es, j + 1, k));
                    }
                    if k == ke {
                        assert(es[j as int].1.name@ == k);
                        assert(seq_prefix_has(es, j + 1, k));
                    }
                }
                assert(self@ =~= combine_tables(old(self)@, prefix_map(es, j + 1, other@)));
            }
            j = j + 1;
        }
        proof {
            assert forall|k: Seq<u8>|
                seq_prefix_has(es, es.len() as int, k) <==> other@.contains_key(k) by {
                if seq_prefix_has(es, es.len() as int, k) {
                    let j2 = choose|j2: int| 0 <= j2 < es.len() && es[j2].1.name@ == k;
                    assert(other@.contains_key(es[j2].1.name@));
                }
                if other@.contains_key(k) {
                    let j2 = choose|j2: int|
                        0 <= j2 < es.len() && (#[trigger] es[j2]).1.name@ == k;
                    assert(seq_prefix_has(es, es.len() as int, k));
                }
            }
            assert(final(self)@ =~= combine_tables(old(self)@, other@));
        }
        true
    }

    /// Every `(hash, Stats)` entry of the table, in unspecified order;
    /// each stored key appears exactly once.
    pub fn key_set(&self) -> (r: Vec<(u64, Stats)>)
        requires
            self.wf(),
        ensures
            forall|j: int|
                0 <= j < r@.len() ==> {
                    let e = #[trigger] r@[j];
                    &&& self@.contains_key(e.1.name@)
                    &&& e.1.stats() == self@[e.1.name@]
                    &&& e.0 == poly_hash(e.1.name@)
                    &&& e.1.wf()
                    &&& e.1.count > 0
                },
            forall|k: Seq<u8>|
                self@.contains_key(k) ==> exists|j: int|
                    0 <= j < r@.len() && (#[trigger] r@[j]).1.name@ == k,
            forall|j1: int, j2: int|
                0 <= j1 < r@.len() && 0 <= j2 < r@.len() && j1 != j2 ==> (
                #[trigger] r@[j1]).1.name@ != (#[trigger] r@[j2]).1.name@,
    {
        let ghost ob = self.buckets@;
        let mut r: Vec<(u64, Stats)> = Vec::new();
        let mut b: usize = 0;
        while b < self.buckets.len()
            invariant
                self.wf(),
                ob == self.buckets@,
                b <= ob.len(),
                forall|j: int|
                    0 <= j < r@.len() ==> {
                        let e = #[trigger] r@[j];
                        &&& self@.contains_key(e.1.name@)
                        &&& e.1.stats() == self@[e.1.name@]
                        &&& e.0 == poly_hash(e.1.name@)
                        &&& e.1.wf()
                        &&& e.1.count > 0
                        &&& bs_prefix_contains(ob, b as int, 0, e.1.name@)
                    },
                forall|k: Seq<u8>|
                    bs_prefix_contains(ob, b as int, 0, k) ==> exists|j: int|
                        0 <= j < r@.len() && (#[trigger] r@[j]).1.name@ == k,
                forall|j1: int, j2: int|
                    0 <= j1 < r@.len() && 0 <= j2 < r@.len() && j1 != j2 ==> (
                    #[trigger] r@[j1]).1.name@ != (#[trigger] r@[j2]).1.name@,
            decreases ob.len() - b,
        {
            let mut i: usize = 0;
            while i < self.buckets[b].len()
                invariant
                    self.wf(),
                    ob == self.buckets@,
                    0 <= b < ob.len(),
                    i <= ob[b as int]@.len(),
                    forall|j: int|
                        0 <= j < r@.len() ==> {
                            let e = #[trigger] r@[j];
                            &&& self@.contains_key(e.1.name@)
                            &&& e.1.stats() == self@[e.1.name@]
                            &&& e.0 == poly_hash(e.1.name@)
                            &&& e.1.wf()
                            &&& e.1.count > 0
                            &&& bs_prefix_contains(ob, b as int, i as int, e.1.name@)
                        },
                    forall|k: Seq<u8>|
                        bs_prefix_contains(ob, b as int, i as int, k) ==> exists|j: int|
                            0 <= j < r@.len() && (#[trigger] r@[j]).1.name@ == k,
                    forall|j1: int, j2: int|
                        0 <= j1 < r@.len() && 0 <= j2 < r@.len() && j1 != j2 ==> (
                        #[trigger] r@[j1]).1.name@ != (#[trigger] r@[j2]).1.name@,
                decreases ob[b as int]@.len() - i,
            {
                let e = &self.buckets[b][i];
                let ghost ke = e.1.name@;
                proof {
                    lemma_located(ob, ke, b as int, i as int);
                    assert(!bs_prefix_contains(ob, b as int, i as int, ke)) by {
                        if bs_prefix_contains(ob, b as int, i as int, ke) {
                            let (b2, i2) = choose|b2: int, i2: int|
                                0 <= b2 < ob.len() && 0 <= i2 < ob[b2]@.len() && (b2 < b as int
                                    || (b2 == b as int && i2 < i as int)) && ob[b2]@[i2].1.name@
                                    == ke;
                            assert(ob[b2]@[i2].1.name@ != ob[b as int]@[i as int].1.name@);
                        }
                    }
                }
                let ghost pre_r = r@;
                r.push((e.0, e.1.duplicate()));
                proof {
                    assert forall|k: Seq<u8>|
                        bs_prefix_contains(ob, b as int, i + 1, k) <==> bs_prefix_contains(
                            ob,
                            b as int,
                            i as int,
                            k,
                        ) || k == ke by {
                        if bs_prefix_contains(ob, b as int, i + 1, k) {
                            let (b2, i2) = choose|b2: int, i2: int|
                                0 <= b2 < ob.len() && 0 <= i2 < ob[b2]@.len() && (b2 < b as int
                                    || (b2 == b as int && i2 < i + 1)) && ob[b2]@[i2].1.name@
                                    == k;
                            if !(b2 == b as int && i2 == i as int) {
                                assert(bs_prefix_contains(ob, b as int, i as int, k));
                            }
                        }
                        if bs_prefix_contains(ob, b as int, i as int, k) {
                            let (b2, i2) = choose|b2: int, i2: int|
                                0 <= b2 < ob.len() && 0 <= i2 < ob[b2]@.len() && (b2 < b as int
                                    || (b2 == b as int && i2 < i as int)) && ob[b2]@[i2].1.name@
                                    == k;
                            assert(bs_prefix_contains(ob, b as int, i + 1, k));
                        }
                        if k == ke {
                            assert(ob[b as int]@[i as int].1.name@ == k);
                            assert(bs_prefix_contains(ob, b as int, i + 1, k));
                        }
                    }
                    assert forall|k: Seq<u8>| #![trigger bs_prefix_contains(ob, b as int, i + 1, k)]
                        bs_prefix_contains(ob, b as int, i + 1, k) implies exists|j: int|
                        0 <= j < r@.len() && (#[trigger] r@[j]).1.name@ == k by {
                        if k == ke {
                            assert(r@[r@.len() - 1].1.name@ == ke);
                        } else {
                            assert(bs_prefix_contains(ob, b as int, i as int, k));
                            let j = choose|j: int|
                                0 <= j < pre_r.len() && (#[trigger] pre_r[j]).1.name@ == k;
                            assert(r@[j].1.name@ == k);
                        }
                    }
                }
                i = i + 1;
            }
            proof {
                assert forall|k: Seq<u8>|
                    bs_prefix_contains(ob, b as int, ob[b as int]@.len() as int, k)
                        <==> bs_prefix_contains(ob, b + 1, 0, k) by {
                    if bs_prefix_contains(ob, b as int, ob[b as int]@.len() as int, k) {
                        let (b2, i2) = choose|b2: int, i2: int|
                            0 <= b2 < ob.len() && 0 <= i2 < ob[b2]@.len() && (b2 < b as int || (
                            b2 == b as int && i2 < ob[b as int]@.len())) && ob[b2]@[i2].1.name@
                                == k;
                        assert(bs_prefix_contains(ob, b + 1, 0, k));
                    }
                    if bs_prefix_contains(ob, b + 1, 0, k) {
                        let (b2, i2) = choose|b2: int, i2: int|
                            0 <= b2 < ob.len() && 0 <= i2 < ob[b2]@.len() && (b2 < b + 1 || (b2
                                == b + 1 && i2 < 0)) && ob[b2]@[i2].1.name@ == k;
                        assert(bs_prefix_contains(ob, b as int, ob[b as int]@.len() as int, k));
                    }
                }
                assert forall|k: Seq<u8>| #![trigger bs_prefix_contains(ob, b + 1, 0, k)]
                    bs_prefix_contains(ob, b + 1, 0, k) implies exists|j: int|
                    0 <= j < r@.len() && (#[trigger] r@[j]).1.name@ == k by {
                    assert(bs_prefix_contains(ob, b as int, ob[b as int]@.len() as int, k));
                }
            }
            b = b + 1;
        }
        proof {
            assert forall|k: Seq<u8>| self@.contains_key(k) implies exists|j: int|
                0 <= j < r@.len() && (#[trigger] r@[j]).1.name@ == k by {
                let (b2, i2) = choose|b2: int, i2: int|
                    0 <= b2 < ob.len() && 0 <= i2 < ob[b2]@.len() && ob[b2]@[i2].1.name@ == k;
                assert(bs_prefix_contains(ob, ob.len() as int, 0, k));
            }
        }
        r
    }
}

/// No shared key's combined observation count exceeds `MAX_COUNT`, so two
/// tables can be merged without overflowing any accumulator.
pub open spec fn mergeable(m1: Map<Seq<u8>, AggModel>, m2: Map<Seq<u8>, AggModel>) -> bool {
    forall|k: Seq<u8>| #![auto]
        m1.contains_key(k) && m2.contains_key(k) ==> m1[k].count + m2[k].count <= MAX_COUNT as int
}

/// The per-key combination of two aggregate maps: the union of their
/// domains, with shared keys combined elementwise.
pub open spec fn combine_tables(
    m1: Map<Seq<u8>, AggModel>,
    m2: Map<Seq<u8>, AggModel>,
) -> Map<Seq<u8>, AggModel> {
    Map::new(
        |k: Seq<u8>| m1.contains_key(k) || m2.contains_key(k),
        |k: Seq<u8>|
            if m1.contains_key(k) && m2.contains_key(k) {
                combine_agg(m1[k], m2[k])
            } else if m2.contains_key(k) {
                m2[k]
            } else {
                m1[k]
            },
    )
}

/// Membership of a key among the entries strictly before position
/// `(b0, i0)` in bucket-then-insertion order.
spec fn bs_prefix_contains(bs: Seq<Vec<(u64, Stats)>>, b0: int, i0: int, k: Seq<u8>) -> bool {
    exists|b: int, i: int|
        0 <= b < bs.len() && 0 <= i < bs[b]@.len() && (b < b0 || (b == b0 && i < i0))
            && bs[b]@[i].1.name@ == k
}

/// Combining aggregate maps is commutative: two partial results can be
/// folded in either order.
pub proof fn lemma_combine_tables_commutative(
    m1: Map<Seq<u8>, AggModel>,
    m2: Map<Seq<u8>, AggModel>,
)
    ensures
        combine_tables(m1, m2) == combine_tables(m2, m1),
{
    assert(combine_tables(m1, m2) =~= combine_tables(m2, m1));
}

/// Combining aggregate maps is associative: a fold over any grouping of
/// partial results yields the same per-key statistics.
pub proof fn lemma_combine_tables_associative(
    m1: Map<Seq<u8>, AggModel>,
    m2: Map<Seq<u8>, AggModel>,
    m3: Map<Seq<u8>, AggModel>,
)
    ensures
        combine_tables(combine_tables(m1, m2), m3) == combine_tables(m1, combine_tables(m2, m3)),
{
    assert(combine_tables(combine_tables(m1, m2), m3) =~= combine_tables(
        m1,
        combine_tables(m2, m3),
    ));
}

/// Membership of a key among the first `n` entries of a flat entry list.
spec fn seq_prefix_has(es: Seq<(u64, Stats)>, n: int, k: Seq<u8>) -> bool {
    exists|j: int| 0 <= j < n && es[j].1.name@ == k
}

/// The restriction of `m` to the keys of the first `n` entries.
spec fn prefix_map(es: Seq<(u64, Stats)>, n: int, m: Map<Seq<u8>, AggModel>) -> Map<
    Seq<u8>,
    AggModel,
> {
    Map::new(|k: Seq<u8>| seq_prefix_has(es, n, k), |k: Seq<u8>| m[k])
}

} // verus!
