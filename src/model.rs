//! The mathematical model of a built set: the layout that construction
//! produces from an ordered key sequence, and what membership means on it.
use vstd::prelude::*;

use crate::codec::{next_state, wyhash_value, wyrng_value};

verus! {

/// The generator state that construction starts from.
pub const INITIAL_STATE: u64 = 3;

/// Everything construction tracks: the generator state, one seed and one map
/// from hash to byte range per bucket, and the uncompressed key bytes.
pub struct Layout {
    pub state: u64,
    pub seeds: Seq<u64>,
    pub buckets: Seq<Map<u64, (usize, usize)>>,
    pub raw: Seq<u8>,
}

/// All keys' bytes, concatenated in order.
pub open spec fn concat(keys: Seq<Seq<u8>>) -> Seq<u8>
    decreases keys.len(),
{
    if keys.len() == 0 {
        Seq::empty()
    } else {
        concat(keys.drop_last()) + keys.last()
    }
}

/// The bytes that a half-open range covers.
pub open spec fn slice_of(raw: Seq<u8>, range: (usize, usize)) -> Seq<u8> {
    raw.subrange(range.0 as int, range.1 as int)
}

/// One empty bucket, seeded by the generator's first draw.
pub open spec fn initial_layout() -> Layout {
    Layout {
        state: next_state(INITIAL_STATE),
        seeds: seq![wyrng_value(INITIAL_STATE)],
        buckets: seq![Map::empty()],
        raw: Seq::empty(),
    }
}

/// The first bucket from `i` on whose slot for `key` is vacant, or the bucket
/// count when every one is taken.
pub open spec fn first_vacant(l: Layout, key: Seq<u8>, i: nat) -> nat
    decreases l.buckets.len() - i,
{
    if i >= l.buckets.len() {
        i
    } else if !l.buckets[i as int].contains_key(wyhash_value(key, l.seeds[i as int])) {
        i
    } else {
        first_vacant(l, key, i + 1)
    }
}

/// The layout after one more key: its bytes are appended, and their range is
/// recorded in the first bucket with a vacant slot, or in a new bucket.
pub open spec fn place(l: Layout, key: Seq<u8>) -> Layout {
    let i = first_vacant(l, key, 0);
    let range = (l.raw.len() as usize, (l.raw.len() + key.len()) as usize);
    if i < l.buckets.len() {
        let h = wyhash_value(key, l.seeds[i as int]);
        Layout {
            state: l.state,
            seeds: l.seeds,
            buckets: l.buckets.update(i as int, l.buckets[i as int].insert(h, range)),
            raw: l.raw + key,
        }
    } else {
        let seed = wyrng_value(l.state);
        Layout {
            state: next_state(l.state),
            seeds: l.seeds.push(seed),
            buckets: l.buckets.push(Map::empty().insert(wyhash_value(key, seed), range)),
            raw: l.raw + key,
        }
    }
}

/// The layout built from a key sequence, key by key in order.
pub open spec fn layout_of(keys: Seq<Seq<u8>>) -> Layout
    decreases keys.len(),
{
    if keys.len() == 0 {
        initial_layout()
    } else {
        place(layout_of(keys.drop_last()), keys.last())
    }
}

/// Bucket `i` has a slot for `key` whose bytes are `key` itself.
pub open spec fn hit_in(l: Layout, key: Seq<u8>, i: int) -> bool {
    let h = wyhash_value(key, l.seeds[i]);
    &&& l.buckets[i].contains_key(h)
    &&& slice_of(l.raw, l.buckets[i][h]) == key
}

/// Some bucket holds `key`, confirmed against the stored bytes.
pub open spec fn holds(l: Layout, key: Seq<u8>) -> bool {
    exists|i: int| 0 <= i < l.buckets.len() && #[trigger] hit_in(l, key, i)
}

/// What construction keeps true of the layout built from `keys`.
pub open spec fn layout_inv(l: Layout, keys: Seq<Seq<u8>>) -> bool {
    &&& l.seeds.len() == l.buckets.len()
    &&& l.buckets.len() >= 1
    &&& l.raw == concat(keys)
    &&& forall|i: int, h: u64|
        0 <= i < l.buckets.len() && #[trigger] l.buckets[i].contains_key(h) ==> {
            let r = l.buckets[i][h];
            &&& r.0 <= r.1 <= l.raw.len()
            &&& h == wyhash_value(slice_of(l.raw, r), l.seeds[i])
            &&& keys.contains(slice_of(l.raw, r))
        }
    &&& forall|j: int| 0 <= j < keys.len() ==> holds(l, #[trigger] keys[j])
}

proof fn lemma_first_vacant_bounds(l: Layout, key: Seq<u8>, i: nat)
    requires
        i <= l.buckets.len(),
    ensures
        i <= first_vacant(l, key, i) <= l.buckets.len(),
        forall|t: int|
            i <= t < first_vacant(l, key, i) ==> #[trigger] l.buckets[t].contains_key(
                wyhash_value(key, l.seeds[t]),
            ),
        first_vacant(l, key, i) < l.buckets.len() ==> !l.buckets[first_vacant(
            l,
            key,
            i,
        ) as int].contains_key(wyhash_value(key, l.seeds[first_vacant(l, key, i) as int])),
    decreases l.buckets.len() - i,
{
    if i < l.buckets.len() && l.buckets[i as int].contains_key(wyhash_value(key, l.seeds[i as int])) {
        lemma_first_vacant_bounds(l, key, i + 1);
    }
}

/// Placing one more key keeps the invariant.
proof fn lemma_place_inv(l: Layout, keys: Seq<Seq<u8>>, key: Seq<u8>)
    requires
        layout_inv(l, keys),
        l.raw.len() + key.len() <= usize::MAX,
    ensures
        layout_inv(place(l, key), keys.push(key)),
{
    let nk = keys.push(key);
    let p = place(l, key);
    lemma_first_vacant_bounds(l, key, 0);
    let fv = first_vacant(l, key, 0) as int;
    assert(nk.drop_last() =~= keys);
    assert(p.raw == concat(nk));
    assert(nk[keys.len() as int] == key);
    let range = (l.raw.len() as usize, (l.raw.len() + key.len()) as usize);
    assert(slice_of(p.raw, range) =~= key);
    assert forall|r: (usize, usize)| r.0 <= r.1 <= l.raw.len() implies slice_of(p.raw, r)
        == slice_of(l.raw, r) by {
        assert(slice_of(p.raw, r) =~= slice_of(l.raw, r));
    }
    assert forall|x: Seq<u8>| keys.contains(x) implies nk.contains(x) by {
        let j = choose|j: int| 0 <= j < keys.len() && keys[j] == x;
        assert(nk[j] == x);
    }
    assert forall|i: int, h: u64|
        0 <= i < p.buckets.len() && #[trigger] p.buckets[i].contains_key(h) implies {
        let r = p.buckets[i][h];
        &&& r.0 <= r.1 <= p.raw.len()
        &&& h == wyhash_value(slice_of(p.raw, r), p.seeds[i])
        &&& nk.contains(slice_of(p.raw, r))
    } by {
        if i < l.buckets.len() && l.buckets[i].contains_key(h) && !(i == fv && h
            == wyhash_value(key, l.seeds[i])) {
            assert(p.buckets[i][h] == l.buckets[i][h]);
            assert(p.seeds[i] == l.seeds[i]);
        } else {
            assert(p.buckets[i][h] == range);
            assert(nk[keys.len() as int] == key);
        }
    }
    assert forall|j: int| 0 <= j < nk.len() implies holds(p, #[trigger] nk[j]) by {
        if j < keys.len() {
            assert(nk[j] == keys[j]);
            assert(holds(l, keys[j]));
            let i = choose|i: int| 0 <= i < l.buckets.len() && #[trigger] hit_in(l, keys[j], i);
            let h = wyhash_value(keys[j], l.seeds[i]);
            assert(p.seeds[i] == l.seeds[i]);
            assert(p.buckets[i].contains_key(h));
            assert(p.buckets[i][h] == l.buckets[i][h]);
            assert(hit_in(p, keys[j], i));
        } else {
            assert(hit_in(p, key, fv));
        }
    }
}

/// The layout built from `keys` meets the invariant.
pub proof fn lemma_layout_inv(keys: Seq<Seq<u8>>)
    requires
        concat(keys).len() <= usize::MAX,
    ensures
        layout_inv(layout_of(keys), keys),
    decreases keys.len(),
{
    if keys.len() == 0 {
        assert(initial_layout().buckets[0] == Map::<u64, (usize, usize)>::empty());
    } else {
        let prev = keys.drop_last();
        assert(concat(keys) == concat(prev) + keys.last());
        lemma_layout_inv(prev);
        lemma_place_inv(layout_of(prev), prev, keys.last());
        assert(prev.push(keys.last()) =~= keys);
    }
}

/// Every key that a layout was built from is held by it.
pub proof fn lemma_built_key_held(keys: Seq<Seq<u8>>, key: Seq<u8>)
    requires
        concat(keys).len() <= usize::MAX,
        keys.contains(key),
    ensures
        holds(layout_of(keys), key),
{
    lemma_layout_inv(keys);
    let j = choose|j: int| 0 <= j < keys.len() && keys[j] == key;
    assert(holds(layout_of(keys), keys[j]));
}

/// A layout holds no key but those it was built from: every hash hit is
/// confirmed against the stored bytes.
pub proof fn lemma_no_false_positive(keys: Seq<Seq<u8>>, key: Seq<u8>)
    requires
        concat(keys).len() <= usize::MAX,
        !keys.contains(key),
    ensures
        !holds(layout_of(keys), key),
{
    let l = layout_of(keys);
    lemma_layout_inv(keys);
    if holds(l, key) {
        let i = choose|i: int| 0 <= i < l.buckets.len() && #[trigger] hit_in(l, key, i);
        let h = wyhash_value(key, l.seeds[i]);
        assert(l.buckets[i].contains_key(h));
    }
}

/// A prefix of the keys holds no more bytes than all of them.
pub(crate) proof fn lemma_concat_prefix_len(keys: Seq<Seq<u8>>, n: int)
    requires
        0 <= n <= keys.len(),
    ensures
        concat(keys.take(n)).len() <= concat(keys).len(),
    decreases keys.len(),
{
    if n < keys.len() {
        lemma_concat_prefix_len(keys.drop_last(), n);
        assert(keys.drop_last().take(n) =~= keys.take(n));
    } else {
        assert(keys.take(n) =~= keys);
    }
}

/// Repeating keys changes no answer: two key sequences that hold the same
/// keys, however often each occurs, build layouts that hold the same keys.
pub proof fn lemma_repeats_change_nothing(a: Seq<Seq<u8>>, b: Seq<Seq<u8>>, key: Seq<u8>)
    requires
        concat(a).len() <= usize::MAX,
        concat(b).len() <= usize::MAX,
        forall|x: Seq<u8>| a.contains(x) <==> b.contains(x),
    ensures
        holds(layout_of(a), key) == holds(layout_of(b), key),
        layout_inv(layout_of(a), a),
        layout_inv(layout_of(b), b),
{
    lemma_layout_inv(a);
    lemma_layout_inv(b);
    if a.contains(key) {
        lemma_built_key_held(a, key);
        lemma_built_key_held(b, key);
    } else {
        lemma_no_false_positive(a, key);
        lemma_no_false_positive(b, key);
    }
}

/// `l2` keeps every seed of `l1` and every hash slot that `l1` fills.
pub open spec fn extends(l2: Layout, l1: Layout) -> bool {
    &&& l1.seeds.len() <= l2.seeds.len()
    &&& l1.buckets.len() <= l2.buckets.len()
    &&& forall|t: int| 0 <= t < l1.seeds.len() ==> l2.seeds[t] == #[trigger] l1.seeds[t]
    &&& forall|t: int, h: u64|
        0 <= t < l1.buckets.len() && #[trigger] l1.buckets[t].contains_key(h)
            ==> l2.buckets[t].contains_key(h)
}

/// The bucket that construction places the key at position `j` into.
pub open spec fn home_bucket(keys: Seq<Seq<u8>>, j: int) -> nat {
    first_vacant(layout_of(keys.take(j)), keys[j], 0)
}

proof fn lemma_layout_lens(keys: Seq<Seq<u8>>)
    ensures
        layout_of(keys).seeds.len() == layout_of(keys).buckets.len(),
    decreases keys.len(),
{
    if keys.len() > 0 {
        lemma_layout_lens(keys.drop_last());
    }
}

proof fn lemma_place_extends(l: Layout, key: Seq<u8>)
    ensures
        extends(place(l, key), l),
{
    lemma_first_vacant_bounds(l, key, 0);
}

proof fn lemma_layout_extends(keys: Seq<Seq<u8>>, n1: int, n2: int)
    requires
        0 <= n1 <= n2 <= keys.len(),
    ensures
        extends(layout_of(keys.take(n2)), layout_of(keys.take(n1))),
    decreases n2 - n1,
{
    if n1 < n2 {
        lemma_layout_extends(keys, n1, n2 - 1);
        let prefix = keys.take(n2);
        assert(prefix.drop_last() =~= keys.take(n2 - 1));
        lemma_place_extends(layout_of(keys.take(n2 - 1)), keys[n2 - 1]);
    }
}

/// A repeated key never shares a bucket with its earlier occurrence: each
/// occurrence is placed in a strictly later bucket than the one before it,
/// so the bucket count is at least the number of times a key occurs.
pub proof fn lemma_repeat_lands_higher(keys: Seq<Seq<u8>>, i: int, j: int)
    requires
        0 <= i < j < keys.len(),
        keys[i] == keys[j],
    ensures
        home_bucket(keys, i) < home_bucket(keys, j),
        home_bucket(keys, j) < layout_of(keys.take(j + 1)).buckets.len(),
{
    let key = keys[i];
    let li = layout_of(keys.take(i));
    let b = home_bucket(keys, i) as int;
    lemma_layout_lens(keys.take(i));
    lemma_layout_lens(keys.take(i + 1));
    lemma_layout_lens(keys.take(j));
    lemma_first_vacant_bounds(li, key, 0);
    assert(keys.take(i + 1).drop_last() =~= keys.take(i));
    let lp = layout_of(keys.take(i + 1));
    assert(lp == place(li, key));
    // After its placement, every bucket up to the key's home holds its slot.
    assert forall|t: int| 0 <= t <= b implies #[trigger] lp.buckets[t].contains_key(
        wyhash_value(key, lp.seeds[t]),
    ) && t < lp.buckets.len() by {
        lemma_place_extends(li, key);
        if t < b {
            assert(li.buckets[t].contains_key(wyhash_value(key, li.seeds[t])));
        } else if b < li.buckets.len() {
            assert(lp.seeds[t] == li.seeds[t]);
        } else {
            assert(lp.seeds[t] == wyrng_value(li.state));
        }
    }
    lemma_layout_extends(keys, i + 1, j);
    let lj = layout_of(keys.take(j));
    lemma_first_vacant_bounds(lj, key, 0);
    let fj = first_vacant(lj, key, 0) as int;
    if fj <= b {
        assert(lp.buckets[fj].contains_key(wyhash_value(key, lp.seeds[fj])));
        assert(lj.seeds[fj] == lp.seeds[fj]);
        assert(lj.buckets[fj].contains_key(wyhash_value(key, lj.seeds[fj])));
    }
    assert(keys.take(j + 1).drop_last() =~= keys.take(j));
    lemma_place_extends(lj, key);
}

} // verus!
