//! The set itself: construction, and the membership query with its content
//! check against the decompressed key bytes.
use std::collections::BTreeMap;
use vstd::prelude::*;

use crate::codec::{compress, decompress, draw_seed, keyed_hash, lz4_compressed, wyhash_value, DecodeError};
use crate::model::{
    concat, first_vacant, hit_in, initial_layout, layout_inv, layout_of, lemma_built_key_held, lemma_concat_prefix_len, lemma_layout_inv,
    lemma_no_false_positive, place, slice_of, Layout, INITIAL_STATE,
};

verus! {

broadcast use vstd::std_specs::btree::group_btree_axioms, vstd::laws_cmp::group_laws_cmp;

/// The bytes of each key.
pub open spec fn key_bytes(keys: Seq<&[u8]>) -> Seq<Seq<u8>> {
    keys.map_values(|k: &[u8]| k@)
}

/// The ranges that buckets `0..n` hold for `key`, in bucket order.
pub open spec fn candidates(
    seeds: Seq<u64>,
    buckets: Seq<Map<u64, (usize, usize)>>,
    key: Seq<u8>,
    n: int,
) -> Seq<(usize, usize)>
    decreases n,
{
    if n <= 0 {
        Seq::empty()
    } else {
        let prev = candidates(seeds, buckets, key, n - 1);
        let h = wyhash_value(key, seeds[n - 1]);
        if buckets[n - 1].contains_key(h) {
            prev.push(buckets[n - 1][h])
        } else {
            prev
        }
    }
}

/// The range lies within `bytes` and covers exactly `key`.
pub open spec fn range_matches(bytes: Seq<u8>, range: (usize, usize), key: Seq<u8>) -> bool {
    &&& range.0 <= range.1 <= bytes.len()
    &&& slice_of(bytes, range) == key
}

/// Some range of `ranges` matches `key` within `bytes`.
pub open spec fn any_range_matches(bytes: Seq<u8>, ranges: Seq<(usize, usize)>, key: Seq<u8>) -> bool {
    exists|j: int| 0 <= j < ranges.len() && range_matches(bytes, #[trigger] ranges[j], key)
}

/// On a well-formed layout, a range among the candidates for `key` matches it
/// exactly when one of the buckets holds `key`.
proof fn lemma_candidates_hit(l: Layout, keys: Seq<Seq<u8>>, key: Seq<u8>, n: int)
    requires
        layout_inv(l, keys),
        0 <= n <= l.buckets.len(),
    ensures
        any_range_matches(l.raw, candidates(l.seeds, l.buckets, key, n), key) <==> exists|i: int|
            0 <= i < n && #[trigger] hit_in(l, key, i),
    decreases n,
{
    if n > 0 {
        lemma_candidates_hit(l, keys, key, n - 1);
        let prev = candidates(l.seeds, l.buckets, key, n - 1);
        let cur = candidates(l.seeds, l.buckets, key, n);
        let h = wyhash_value(key, l.seeds[n - 1]);
        if any_range_matches(l.raw, cur, key) {
            let j = choose|j: int| 0 <= j < cur.len() && range_matches(l.raw, #[trigger] cur[j], key);
            if j < prev.len() {
                assert(cur[j] == prev[j]);
                assert(any_range_matches(l.raw, prev, key));
            } else {
                assert(hit_in(l, key, n - 1));
            }
        }
        if exists|i: int| 0 <= i < n && #[trigger] hit_in(l, key, i) {
            let i = choose|i: int| 0 <= i < n && #[trigger] hit_in(l, key, i);
            if i < n - 1 {
                let j = choose|j: int| 0 <= j < prev.len() && range_matches(l.raw, #[trigger] prev[j], key);
                assert(cur[j] == prev[j]);
            } else {
                assert(cur[prev.len() as int] == l.buckets[n - 1][h]);
                assert(range_matches(l.raw, cur[prev.len() as int], key));
            }
        }
    }
}

/// An exact-membership set over byte-string keys, built once.
pub struct SmallSet {
    seeds: Vec<u64>,
    buckets: Vec<BTreeMap<u64, (usize, usize)>>,
    data: Vec<u8>,
    raw_len: usize,
    keys: Ghost<Seq<Seq<u8>>>,
}

/// Whether `range` lies within `bytes` and covers exactly `key`.
fn range_equals(bytes: &[u8], range: (usize, usize), key: &[u8]) -> (r: bool)
    ensures
        r == range_matches(bytes@, range, key@),
{
    let (start, end) = range;
    if start > end || end > bytes.len() || end - start != key.len() {
        return false;
    }
    let mut i: usize = 0;
    while i < key.len()
        invariant
            range == (start, end),
            start <= end <= bytes@.len(),
            end - start == key@.len(),
            i <= key@.len(),
            forall|k: int| 0 <= k < i ==> bytes@[start + k] == key@[k],
        decreases key@.len() - i,
    {
        if bytes[start + i] != key[i] {
            assert(slice_of(bytes@, range).len() == key@.len());
            assert(slice_of(bytes@, range)[i as int] == bytes@[start + i]);
            return false;
        }
        i += 1;
    }
    assert(slice_of(bytes@, range) =~= key@);
    true
}

/// Whether some range of `ranges` covers exactly `key` within `bytes`.
fn any_range_equals(bytes: &[u8], ranges: &[(usize, usize)], key: &[u8]) -> (r: bool)
    ensures
        r == any_range_matches(bytes@, ranges@, key@),
{
    let mut j: usize = 0;
    while j < ranges.len()
        invariant
            j <= ranges@.len(),
            forall|k: int| 0 <= k < j ==> !range_matches(bytes@, #[trigger] ranges@[k], key@),
        decreases ranges@.len() - j,
    {
        if range_equals(bytes, ranges[j], key) {
            return true;
        }
        j += 1;
    }
    false
}

/// The layout that construction's working state stands for.
pub open spec fn working_layout(
    state: u64,
    seeds: Seq<u64>,
    buckets: Seq<BTreeMap<u64, (usize, usize)>>,
    buf: Seq<u8>,
) -> Layout {
    Layout {
        state,
        seeds,
        buckets: buckets.map_values(|b: BTreeMap<u64, (usize, usize)>| b@),
        raw: buf,
    }
}

/// Appends `key` to the buffer and records its range in the first bucket
/// whose slot for it is vacant, or in a new bucket with a freshly drawn seed.
fn place_key(
    state: &mut u64,
    seeds: &mut Vec<u64>,
    buckets: &mut Vec<BTreeMap<u64, (usize, usize)>>,
    buf: &mut Vec<u8>,
    key: &[u8],
)
    requires
        old(seeds)@.len() == old(buckets)@.len(),
        old(buf)@.len() + key@.len() <= usize::MAX,
    ensures
        final(seeds)@.len() == final(buckets)@.len(),
        working_layout(*final(state), final(seeds)@, final(buckets)@, final(buf)@) == place(
            working_layout(*old(state), old(seeds)@, old(buckets)@, old(buf)@),
            key@,
        ),
{
    let ghost l = working_layout(*state, seeds@, buckets@, buf@);
    let mut i: usize = 0;
    while i < seeds.len()
        invariant
            seeds@.len() == buckets@.len(),
            l == working_layout(*state, seeds@, buckets@, buf@),
            l == working_layout(*old(state), old(seeds)@, old(buckets)@, old(buf)@),
            i <= seeds@.len(),
            first_vacant(l, key@, 0) == first_vacant(l, key@, i as nat),
            buf@.len() + key@.len() <= usize::MAX,
        decreases seeds@.len() - i,
    {
        let h = keyed_hash(key, seeds[i]);
        assert(l.buckets[i as int] == buckets@[i as int]@);
        if !buckets[i].contains_key(&h) {
            let offset = buf.len();
            buf.extend_from_slice(key);
            let mut bucket: BTreeMap<u64, (usize, usize)> = BTreeMap::new();
            buckets.set_and_swap(i, &mut bucket);
            bucket.insert(h, (offset, offset + key.len()));
            buckets.set_and_swap(i, &mut bucket);
            proof {
                assert(!l.buckets[i as int].contains_key(h));
                assert(first_vacant(l, key@, i as nat) == i);
                let p = place(l, key@);
                assert(buf@ =~= p.raw);
                assert(buckets@.map_values(|b: BTreeMap<u64, (usize, usize)>| b@) =~= p.buckets);
            }
            return;
        }
        i += 1;
    }
    let seed = draw_seed(state);
    let h = keyed_hash(key, seed);
    let offset = buf.len();
    buf.extend_from_slice(key);
    let mut bucket: BTreeMap<u64, (usize, usize)> = BTreeMap::new();
    bucket.insert(h, (offset, offset + key.len()));
    buckets.push(bucket);
    seeds.push(seed);
    proof {
        let p = place(l, key@);
        assert(buf@ =~= p.raw);
        assert(seeds@ =~= p.seeds);
        assert(buckets@.map_values(|b: BTreeMap<u64, (usize, usize)>| b@) =~= p.buckets);
    }
}

impl SmallSet {
    /// Builds the set from the keys, in order. Each key's bytes are appended
    /// once to a buffer, its range is recorded in exactly one bucket slot, and
    /// the buffer is compressed at the end. Equal key sequences give equal
    /// seeds, buckets and store. The keys may total at most `usize::MAX / 110`
    /// bytes, the most that the compressor can size its output for.
    pub fn new(keys: &[&[u8]]) -> (s: Self)
        requires
            concat(key_bytes(keys@)).len() <= usize::MAX / 110,
        ensures
            s.keys() == key_bytes(keys@),
            s.wf(),
    {
        let ghost ks = key_bytes(keys@);
        let mut state: u64 = INITIAL_STATE;
        let mut buf: Vec<u8> = Vec::new();
        let mut buckets: Vec<BTreeMap<u64, (usize, usize)>> = Vec::new();
        buckets.push(BTreeMap::new());
        let mut seeds: Vec<u64> = Vec::new();
        seeds.push(draw_seed(&mut state));
        proof {
            let w = working_layout(state, seeds@, buckets@, buf@);
            assert(w.buckets =~= initial_layout().buckets);
            assert(w.seeds =~= initial_layout().seeds);
            assert(w.raw =~= initial_layout().raw);
            assert(ks.take(0) =~= Seq::<Seq<u8>>::empty());
        }
        let mut n: usize = 0;
        while n < keys.len()
            invariant
                n <= keys@.len(),
                ks == key_bytes(keys@),
                concat(ks).len() <= usize::MAX / 110,
                seeds@.len() == buckets@.len(),
                working_layout(state, seeds@, buckets@, buf@) == layout_of(ks.take(n as int)),
            decreases keys@.len() - n,
        {
            proof {
                lemma_concat_prefix_len(ks, n as int);
                lemma_layout_inv(ks.take(n as int));
                lemma_concat_prefix_len(ks, n + 1);
                let next = ks.take(n + 1);
                assert(next.drop_last() =~= ks.take(n as int));
                assert(next.last() == keys@[n as int]@);
            }
            place_key(&mut state, &mut seeds, &mut buckets, &mut buf, keys[n]);
            n += 1;
        }
        proof {
            assert(ks.take(n as int) =~= ks);
            lemma_layout_inv(ks);
        }
        let raw_len = buf.len();
        let data = compress(buf.as_slice());
        let s = SmallSet { seeds, buckets, data, raw_len, keys: Ghost(ks) };
        proof {
            assert(s.bucket_maps() == layout_of(ks).buckets);
        }
        s
    }

    /// The keys the set was built from, in order.
    pub closed spec fn keys(&self) -> Seq<Seq<u8>> {
        self.keys@
    }

    /// The seed of each bucket.
    pub closed spec fn seeds(&self) -> Seq<u64> {
        self.seeds@
    }

    /// Each bucket's map from hash to byte range.
    pub closed spec fn bucket_maps(&self) -> Seq<Map<u64, (usize, usize)>> {
        self.buckets@.map_values(|b: BTreeMap<u64, (usize, usize)>| b@)
    }

    /// The compressed key store.
    pub closed spec fn data(&self) -> Seq<u8> {
        self.data@
    }

    /// The length of the uncompressed key bytes, as recorded at construction.
    pub closed spec fn stored_len(&self) -> nat {
        self.raw_len as nat
    }

    /// The seeds and buckets are those that construction lays out for the
    /// keys, and the store is the compressed concatenation of the keys.
    pub open spec fn wf(&self) -> bool {
        let l = layout_of(self.keys());
        &&& concat(self.keys()).len() <= usize::MAX
        &&& self.seeds() == l.seeds
        &&& self.bucket_maps() == l.buckets
        &&& self.data() == lz4_compressed(l.raw)
        &&& self.stored_len() == l.raw.len()
    }

    /// The ranges that the buckets hold for `key`.
    pub open spec fn candidates_for(&self, key: Seq<u8>) -> Seq<(usize, usize)> {
        candidates(self.seeds(), self.bucket_maps(), key, self.seeds().len() as int)
    }

    fn candidate_ranges(&self, key: &[u8]) -> (r: Vec<(usize, usize)>)
        requires
            self.seeds@.len() == self.buckets@.len(),
        ensures
            r@ == self.candidates_for(key@),
    {
        let mut out: Vec<(usize, usize)> = Vec::new();
        let mut i: usize = 0;
        while i < self.seeds.len()
            invariant
                i <= self.seeds@.len(),
                self.seeds@.len() == self.buckets@.len(),
                out@ == candidates(self.seeds(), self.bucket_maps(), key@, i as int),
            decreases self.seeds@.len() - i,
        {
            let h = keyed_hash(key, self.seeds[i]);
            assert(self.bucket_maps()[i as int] == self.buckets@[i as int]@);
            match self.buckets[i].get(&h) {
                Some(range) => {
                    out.push(*range);
                },
                None => {},
            }
            i += 1;
        }
        out
    }
    /// Decodes the key store: every key's bytes concatenated in the order the
    /// keys were given. The store's four-byte length header cannot describe
    /// more than `u32::MAX` bytes; for a larger store the result is an error.
    pub fn stored_bytes(&self) -> (r: Result<Vec<u8>, DecodeError>)
        requires
            self.wf(),
        ensures
            concat(self.keys()).len() <= u32::MAX ==> r is Ok && r->Ok_0@ == concat(self.keys()),
            concat(self.keys()).len() > u32::MAX ==> r == Err::<Vec<u8>, DecodeError>(DecodeError),
    {
        proof {
            lemma_layout_inv(self.keys());
        }
        if self.raw_len > u32::MAX as usize {
            return Err(DecodeError);
        }
        proof {
            let raw = concat(self.keys());
            assert(raw.len() <= u32::MAX && self.data@ == lz4_compressed(raw));
        }
        match decompress(&self.data) {
            Ok(v) => Ok(v),
            Err(_) => Err(DecodeError),
        }
    }

    /// Answers a query against key bytes already decoded from the store:
    /// true exactly when a range that the buckets hold for `key` covers `key`
    /// within `decoded`. On the set's own stored bytes that is membership.
    pub fn contains_decoded(&self, decoded: &[u8], key: &[u8]) -> (r: bool)
        requires
            self.wf(),
        ensures
            r == any_range_matches(decoded@, self.candidates_for(key@), key@),
            decoded@ == concat(self.keys()) ==> r == self.keys().contains(key@),
    {
        proof {
            self.lemma_wf_lengths();
        }
        let ranges = self.candidate_ranges(key);
        let r = any_range_equals(decoded, ranges.as_slice(), key);
        proof {
            self.lemma_member_iff_match(key@);
        }
        r
    }

    /// Whether `key` was among the keys the set was built from. When no
    /// bucket holds a slot for `key` the answer is `false` without decoding
    /// the store; otherwise the store is decoded once, and a store too large
    /// for its length header is reported as an error.
    pub fn contains(&self, key: &[u8]) -> (r: Result<bool, DecodeError>)
        requires
            self.wf(),
        ensures
            self.candidates_for(key@).len() == 0 ==> r == Ok::<bool, DecodeError>(false),
            concat(self.keys()).len() <= u32::MAX ==> r == Ok::<bool, DecodeError>(
                self.keys().contains(key@),
            ),
            r is Err <==> self.candidates_for(key@).len() != 0 && concat(self.keys()).len()
                > u32::MAX,
    {
        proof {
            self.lemma_wf_lengths();
        }
        let ranges = self.candidate_ranges(key);
        proof {
            self.lemma_member_iff_match(key@);
        }
        if ranges.len() == 0 {
            return Ok(false);
        }
        match self.stored_bytes() {
            Ok(data) => Ok(any_range_equals(data.as_slice(), ranges.as_slice(), key)),
            Err(e) => Err(e),
        }
    }

    proof fn lemma_wf_lengths(&self)
        requires
            self.wf(),
        ensures
            self.seeds@.len() == self.buckets@.len(),
    {
        lemma_layout_inv(self.keys());
        assert(self.bucket_maps().len() == self.buckets@.len());
    }

    /// The query decides membership exactly: on the set's stored bytes, a
    /// range that the buckets hold for `key` covers `key` if and only if `key`
    /// was among the keys the set was built from.
    pub proof fn lemma_member_iff_match(&self, key: Seq<u8>)
        requires
            self.wf(),
        ensures
            any_range_matches(concat(self.keys()), self.candidates_for(key), key)
                == self.keys().contains(key),
    {
        let l = layout_of(self.keys());
        lemma_layout_inv(self.keys());
        lemma_candidates_hit(l, self.keys(), key, l.buckets.len() as int);
        if self.keys().contains(key) {
            lemma_built_key_held(self.keys(), key);
        } else {
            lemma_no_false_positive(self.keys(), key);
        }
    }
    /// Construction is deterministic: two sets built from the same key
    /// sequence have the same seeds, the same buckets and the same store.
    pub proof fn lemma_build_deterministic(a: &SmallSet, b: &SmallSet)
        requires
            a.wf(),
            b.wf(),
            a.keys() == b.keys(),
        ensures
            a.seeds() == b.seeds(),
            a.bucket_maps() == b.bucket_maps(),
            a.data() == b.data(),
    {
    }

    /// The store is the compressed concatenation of the keys, in the order
    /// they were given.
    pub proof fn lemma_store_holds_keys(&self)
        requires
            self.wf(),
        ensures
            self.data() == lz4_compressed(concat(self.keys())),
    {
        lemma_layout_inv(self.keys());
    }
}

} // verus!
