//! Bounded caches with least-recently-used eviction by stamp.
//!
//! Every entry carries the stamp of its last use, taken from a monotonic
//! clock. When a cache is full, the next insertion first evicts the older
//! half: the stamps are sorted and every entry whose stamp lies below the
//! middle stamp is dropped. If that frees nothing (all stamps tie), the entries
//! holding the oldest remaining stamp are dropped as well.

use vstd::prelude::*;
use std::collections::HashMap;
use vstd::std_specs::iter::IteratorSpec;
use vstd::relations::sorted_by;
use crate::counting::{
    lemma_filter_set_len,
    lemma_filter_map_len,
    lemma_filter_len_permutation,
    lemma_filter_all_len,
    lemma_filter_none_len,
};

verus! {

broadcast use vstd::std_specs::hash::group_hash_axioms;

/// Monotonic use counter shared by the caches of one canvas.
pub struct LruClock {
    stamp: u64,
}

impl LruClock {
    /// The last stamp handed out (0 before the first tick).
    pub closed spec fn current(&self) -> u64 {
        self.stamp
    }

    pub fn new() -> (clock: Self)
        ensures
            clock.current() == 0,
    {
        LruClock { stamp: 0 }
    }

    /// Advances the clock by one (wrapping) and returns the new stamp.
    pub fn tick(&mut self) -> (stamp: u64)
        ensures
            final(self).current() == vstd::wrapping::u64_specs::wrapping_add(old(self).current(), 1),
            stamp == final(self).current(),
    {
        self.stamp = self.stamp.wrapping_add(1);
        self.stamp
    }
}

/// A cached value with the stamp of its last use.
pub struct CacheEntry<T> {
    pub value: T,
    pub stamp: u64,
}

/// Ascending order on stamps.
pub open spec fn stamp_le() -> spec_fn(u64, u64) -> bool {
    |a: u64, b: u64| a <= b
}

pub open spec fn below_pred<K, T>(m: Map<K, CacheEntry<T>>, t: u64) -> spec_fn(K) -> bool {
    |k: K| m[k].stamp < t
}

pub open spec fn at_most_pred<K, T>(m: Map<K, CacheEntry<T>>, t: u64) -> spec_fn(K) -> bool {
    |k: K| m[k].stamp <= t
}

/// Keys whose stamp is older than `t`.
pub open spec fn stamp_below<K, T>(m: Map<K, CacheEntry<T>>, t: u64) -> Set<K> {
    m.dom().filter(below_pred(m, t))
}

/// Keys whose stamp is `t` or older.
pub open spec fn stamp_at_most<K, T>(m: Map<K, CacheEntry<T>>, t: u64) -> Set<K> {
    m.dom().filter(at_most_pred(m, t))
}

/// `t` is the stamp at position `len / 2` of the sorted stamps of `m`.
pub open spec fn is_median_stamp<K, T>(m: Map<K, CacheEntry<T>>, t: u64) -> bool {
    stamp_below(m, t).len() <= m.len() / 2 < stamp_at_most(m, t).len()
}

pub open spec fn median_stamp<K, T>(m: Map<K, CacheEntry<T>>) -> u64 {
    choose|t: u64| is_median_stamp(m, t)
}

/// The entries of `m` whose stamp is `t` or newer.
pub open spec fn newer_than<K, T>(m: Map<K, CacheEntry<T>>, t: u64) -> Map<K, CacheEntry<T>> {
    m.restrict(m.dom().filter(|k: K| m[k].stamp >= t))
}

/// `s` is the smallest stamp held by `m`.
pub open spec fn is_oldest_stamp<K, T>(m: Map<K, CacheEntry<T>>, s: u64) -> bool {
    &&& exists|k: K| m.contains_key(k) && m[k].stamp == s
    &&& forall|k: K| m.contains_key(k) ==> s <= #[trigger] m[k].stamp
}

pub open spec fn oldest_stamp<K, T>(m: Map<K, CacheEntry<T>>) -> u64 {
    choose|s: u64| is_oldest_stamp(m, s)
}

/// The entries of `m` whose stamp differs from `s`.
pub open spec fn without_stamp<K, T>(m: Map<K, CacheEntry<T>>, s: u64) -> Map<K, CacheEntry<T>> {
    m.restrict(m.dom().filter(|k: K| m[k].stamp != s))
}

/// What remains of `m` after making room in a cache bounded by `limit`.
pub open spec fn evicted<K, T>(m: Map<K, CacheEntry<T>>, limit: nat) -> Map<K, CacheEntry<T>> {
    if m.len() < limit {
        m
    } else {
        let kept = newer_than(m, median_stamp(m));
        if kept.len() >= limit {
            without_stamp(kept, oldest_stamp(kept))
        } else {
            kept
        }
    }
}

/// The middle stamp of a finite set of entries is unique.
pub proof fn lemma_median_stamp_unique<K, T>(m: Map<K, CacheEntry<T>>, t1: u64, t2: u64)
    requires
        m.dom().finite(),
        is_median_stamp(m, t1),
        is_median_stamp(m, t2),
    ensures
        t1 == t2,
{
    if t1 < t2 {
        assert(stamp_at_most(m, t1).subset_of(stamp_below(m, t2)));
        vstd::set_lib::lemma_len_subset(stamp_at_most(m, t1), stamp_below(m, t2));
    } else if t2 < t1 {
        assert(stamp_at_most(m, t2).subset_of(stamp_below(m, t1)));
        vstd::set_lib::lemma_len_subset(stamp_at_most(m, t2), stamp_below(m, t1));
    }
}

proof fn lemma_oldest_stamp_unique<K, T>(m: Map<K, CacheEntry<T>>, s1: u64, s2: u64)
    requires
        is_oldest_stamp(m, s1),
        is_oldest_stamp(m, s2),
    ensures
        s1 == s2,
{
    let k1 = choose|k: K| m.contains_key(k) && m[k].stamp == s1;
    let k2 = choose|k: K| m.contains_key(k) && m[k].stamp == s2;
    assert(s1 <= m[k2].stamp);
    assert(s2 <= m[k1].stamp);
}

/// The stamp at index `len / 2` of the sorted stamps of an enumeration of `m`
/// is the middle stamp of `m`.
pub(crate) proof fn lemma_median_from_sorted<K, T>(
    m: Map<K, CacheEntry<T>>,
    ks: Seq<K>,
    unsorted: Seq<u64>,
    sorted: Seq<u64>,
    t: u64,
)
    requires
        ks.no_duplicates(),
        ks.to_set() == m.dom(),
        ks.len() == m.dom().len(),
        ks.len() > 0,
        unsorted.len() == ks.len(),
        forall|j: int| 0 <= j < ks.len() ==> #[trigger] unsorted[j] == m[ks[j]].stamp,
        sorted.to_multiset() == unsorted.to_multiset(),
        sorted_by(sorted, stamp_le()),
        sorted.len() == ks.len(),
        t == sorted[ks.len() as int / 2],
    ensures
        is_median_stamp(m, t),
{
    let n = ks.len();
    let h = n / 2;
    let stamp_fn = |k: K| m[k].stamp;
    let lt = |s: u64| s < t;
    let le = |s: u64| s <= t;
    assert(unsorted =~= ks.map_values(stamp_fn));

    lemma_filter_set_len(ks, below_pred(m, t));
    lemma_filter_map_len(ks, stamp_fn, lt);
    assert((|a: K| lt(stamp_fn(a))) =~= below_pred(m, t));
    lemma_filter_len_permutation(unsorted, sorted, lt);

    lemma_filter_set_len(ks, at_most_pred(m, t));
    lemma_filter_map_len(ks, stamp_fn, le);
    assert((|a: K| le(stamp_fn(a))) =~= at_most_pred(m, t));
    lemma_filter_len_permutation(unsorted, sorted, le);

    let lo = sorted.take(h as int);
    let hi = sorted.skip(h as int);
    assert(sorted =~= lo + hi);
    Seq::filter_distributes_over_add(lo, hi, lt);
    lo.lemma_filter_len(lt);
    assert forall|i: int| 0 <= i < hi.len() implies !lt(#[trigger] hi[i]) by {
        assert(hi[i] == sorted[h + i]);
        if i > 0 {
            assert(stamp_le()(sorted[h as int], sorted[h + i]));
        }
    }
    lemma_filter_none_len(hi, lt);

    let lo2 = sorted.take(h as int + 1);
    let hi2 = sorted.skip(h as int + 1);
    assert(sorted =~= lo2 + hi2);
    Seq::filter_distributes_over_add(lo2, hi2, le);
    assert forall|i: int| 0 <= i < lo2.len() implies le(#[trigger] lo2[i]) by {
        assert(lo2[i] == sorted[i]);
        if i < h {
            assert(stamp_le()(sorted[i], sorted[h as int]));
        }
    }
    lemma_filter_all_len(lo2, le);
    assert(stamp_below(m, t) == ks.to_set().filter(below_pred(m, t)));
    assert(stamp_at_most(m, t) == ks.to_set().filter(at_most_pred(m, t)));
}

proof fn lemma_to_seq_enumerates<K>(s: Set<K>)
    requires
        s.finite(),
    ensures
        s.to_seq().len() == s.len(),
        s.to_seq().to_set() == s,
        s.to_seq().no_duplicates(),
    decreases s.len(),
{
    broadcast use vstd::set::group_set_axioms;
    s.lemma_to_seq_to_set_id();
    if s.len() > 0 {
        let x = s.choose();
        lemma_to_seq_enumerates(s.remove(x));
    }
    s.to_seq().lemma_no_dup_set_cardinality();
}

proof fn lemma_stamp_le_total()
    ensures
        vstd::relations::total_ordering(stamp_le()),
{
}

/// Every non-empty finite set of entries has a middle stamp.
pub proof fn lemma_median_stamp_exists<K, T>(m: Map<K, CacheEntry<T>>)
    requires
        m.dom().finite(),
        m.len() > 0,
    ensures
        is_median_stamp(m, median_stamp(m)),
{
    let ks = m.dom().to_seq();
    lemma_to_seq_enumerates(m.dom());
    let unsorted = ks.map_values(|k: K| m[k].stamp);
    lemma_stamp_le_total();
    unsorted.lemma_sort_by_ensures(stamp_le());
    let sorted = unsorted.sort_by(stamp_le());
    broadcast use vstd::seq_lib::group_to_multiset_ensures;
    assert(sorted.len() == unsorted.len()) by {
        vstd::seq_lib::to_multiset_len(sorted);
        vstd::seq_lib::to_multiset_len(unsorted);
    }
    lemma_median_from_sorted(m, ks, unsorted, sorted, sorted[ks.len() as int / 2]);
}

/// With pairwise distinct stamps, keeping the entries at or above the middle
/// stamp keeps exactly the newer half of them, rounded up: `len - len / 2`.
pub proof fn lemma_newer_half_size<K, T>(m: Map<K, CacheEntry<T>>)
    requires
        m.dom().finite(),
        m.len() > 0,
        forall|a: K, b: K|
            m.contains_key(a) && m.contains_key(b) && a != b ==> #[trigger] m[a].stamp
                != #[trigger] m[b].stamp,
    ensures
        newer_than(m, median_stamp(m)).len() == m.len() - m.len() / 2,
        newer_than(m, median_stamp(m)).dom().finite(),
{
    broadcast use vstd::set::group_set_axioms;
    lemma_median_stamp_exists(m);
    let t = median_stamp(m);
    let below = stamp_below(m, t);
    let at_most = stamp_at_most(m, t);
    vstd::set_lib::lemma_len_subset(below, m.dom());
    vstd::set_lib::lemma_len_subset(at_most, m.dom());
    if !(exists|kt: K| at_most.contains(kt) && !below.contains(kt)) {
        assert(at_most.subset_of(below));
        vstd::set_lib::lemma_len_subset(at_most, below);
    }
    let kt = choose|kt: K| at_most.contains(kt) && !below.contains(kt);
    assert(at_most.subset_of(below.insert(kt)));
    vstd::set_lib::lemma_len_subset(at_most, below.insert(kt));
    let kept = newer_than(m, t);
    assert(m.dom() =~= below + kept.dom());
    assert(below.disjoint(kept.dom()));
    vstd::set_lib::lemma_len_subset(kept.dom(), m.dom());
    vstd::set_lib::lemma_set_disjoint_lens(below, kept.dom());
}

/// When the stamps of a full cache are pairwise distinct and its capacity is
/// at least two, making room keeps every entry whose stamp is at least the
/// middle stamp, unchanged: recently used entries survive eviction.
pub proof fn lemma_recent_entries_survive<K, T>(m: Map<K, CacheEntry<T>>, limit: nat, k: K)
    requires
        m.dom().finite(),
        m.len() == limit,
        limit >= 2,
        forall|a: K, b: K|
            m.contains_key(a) && m.contains_key(b) && a != b ==> #[trigger] m[a].stamp
                != #[trigger] m[b].stamp,
        m.contains_key(k),
        m[k].stamp >= median_stamp(m),
    ensures
        evicted(m, limit).contains_key(k),
        evicted(m, limit)[k] == m[k],
{
    lemma_newer_half_size(m);
}

/// Making room only drops entries: every entry that remains is one the cache
/// held before, with the same value and stamp.
pub proof fn lemma_eviction_only_drops<K, T>(m: Map<K, CacheEntry<T>>, limit: nat, k: K)
    requires
        evicted(m, limit).contains_key(k),
    ensures
        m.contains_key(k),
        evicted(m, limit)[k] == m[k],
{
}

/// A value stored under a key is what the cache then holds under that key.
pub proof fn lemma_lookup_after_insert<K, T>(m: Map<K, CacheEntry<T>>, limit: nat, key: K, value: T, stamp: u64)
    ensures
        evicted(m, limit).insert(key, CacheEntry { value, stamp }).contains_key(key),
        evicted(m, limit).insert(key, CacheEntry { value, stamp })[key] == (CacheEntry { value, stamp }),
{
}

/// Sorts stamps in ascending order.
///
/// Wraps `slice::sort_unstable` of the standard library, whose documentation
/// states that it sorts the slice in ascending order. The contract claims the
/// result is sorted and holds the same stamps with the same multiplicities.
#[verifier::external_body]
pub(crate) fn sort_stamps(v: &mut Vec<u64>)
    ensures
        final(v)@.to_multiset() == old(v)@.to_multiset(),
        sorted_by(final(v)@, stamp_le()),
        final(v)@.len() == old(v)@.len(),
{
    v.sort_unstable();
}

fn collect_keys<T>(m: &HashMap<u128, CacheEntry<T>>) -> (ks: Vec<u128>)
    ensures
        ks@.no_duplicates(),
        ks@.to_set() == m@.dom(),
        ks@.len() == m@.dom().len(),
{
    let ghost full = vstd::std_specs::hash::spec_keys_iter(m).remaining();
    let mut ks: Vec<u128> = Vec::new();
    for k in it: m.keys()
        invariant
            it.seq() == full,
            ks@ == it.seq().take(it.index()).map_values(|r: &u128| *r),
    {
        ks.push(*k);
    }
    proof {
        assert(full.take(full.len() as int) =~= full);
        assert(full.map_values(|r: &u128| *r) =~= full.unref());
    }
    ks
}

fn stamp_of<T>(m: &HashMap<u128, CacheEntry<T>>, k: u128) -> (s: u64)
    requires
        m@.contains_key(k),
    ensures
        s == m@[k].stamp,
{
    match m.get(&k) {
        Some(e) => e.stamp,
        None => 0,
    }
}

proof fn lemma_take_push_contains(ks: Seq<u128>, i: int, x: u128)
    requires
        0 <= i < ks.len(),
    ensures
        ks.take(i + 1).contains(x) <==> (ks.take(i).contains(x) || x == ks[i]),
{
    let a = ks.take(i + 1);
    let b = ks.take(i);
    assert(a =~= b.push(ks[i]));
    if a.contains(x) {
        let j = choose|j: int| 0 <= j < a.len() && a[j] == x;
        if j < i {
            assert(b[j] == x);
        }
    }
    if b.contains(x) {
        let j = choose|j: int| 0 <= j < b.len() && b[j] == x;
        assert(a[j] == x);
    }
    if x == ks[i] {
        assert(ks.take(i + 1)[i] == x);
    }
}

proof fn lemma_no_dup_not_in_prefix(ks: Seq<u128>, i: int)
    requires
        0 <= i < ks.len(),
        ks.no_duplicates(),
    ensures
        !ks.take(i).contains(ks[i]),
{
    if ks.take(i).contains(ks[i]) {
        let j = choose|j: int| 0 <= j < i && ks.take(i)[j] == ks[i];
        assert(ks[j] == ks[i]);
    }
}

/// Drops from `map` every entry whose stamp is below `t` (when `below`) or
/// equal to `t` (otherwise), given an enumeration `ks` of its keys.
fn drop_entries<T>(map: &mut HashMap<u128, CacheEntry<T>>, ks: &Vec<u128>, t: u64, below: bool)
    requires
        ks@.no_duplicates(),
        ks@.to_set() == old(map)@.dom(),
    ensures
        below ==> final(map)@ == old(map)@.restrict(old(map)@.dom().filter(|k: u128| old(map)@[k].stamp >= t)),
        !below ==> final(map)@ == old(map)@.restrict(old(map)@.dom().filter(|k: u128| old(map)@[k].stamp != t)),
{
    let ghost m0 = map@;
    let ghost keep = |k: u128| if below { m0[k].stamp >= t } else { m0[k].stamp != t };
    let n = ks.len();
    let mut i: usize = 0;
    while i < n
        invariant
            0 <= i <= n,
            n == ks@.len(),
            ks@.no_duplicates(),
            ks@.to_set() == m0.dom(),
            keep == (|k: u128| if below { m0[k].stamp >= t } else { m0[k].stamp != t }),
            map@ == m0.restrict(m0.dom().filter(|k: u128| keep(k) || !ks@.take(i as int).contains(k))),
        decreases n - i,
    {
        let k = ks[i];
        proof {
            assert(ks@.to_set().contains(k));
            lemma_no_dup_not_in_prefix(ks@, i as int);
            assert(map@.contains_key(k));
        }
        let s = stamp_of(map, k);
        let drop = if below { s < t } else { s == t };
        if drop {
            map.remove(&k);
        }
        proof {
            assert forall|x: u128| true implies (ks@.take(i + 1).contains(x) <==> (ks@.take(i as int).contains(x) || x == ks@[i as int])) by {
                lemma_take_push_contains(ks@, i as int, x);
            }
            assert(map@ =~= m0.restrict(m0.dom().filter(|k: u128| keep(k) || !ks@.take(i + 1).contains(k))));
        }
        i = i + 1;
    }
    proof {
        assert(ks@.take(n as int) =~= ks@);
        assert forall|x: u128| m0.dom().contains(x) implies ks@.contains(x) by {
            assert(ks@.to_set().contains(x));
        }
        if below {
            assert(map@ =~= m0.restrict(m0.dom().filter(|k: u128| m0[k].stamp >= t)));
        } else {
            assert(map@ =~= m0.restrict(m0.dom().filter(|k: u128| m0[k].stamp != t)));
        }
    }
}

/// The smallest stamp held by a non-empty map.
fn find_oldest<T>(map: &HashMap<u128, CacheEntry<T>>, ks: &Vec<u128>) -> (s: u64)
    requires
        ks@.to_set() == map@.dom(),
        ks@.len() > 0,
    ensures
        is_oldest_stamp(map@, s),
{
    proof {
        assert(ks@.to_set().contains(ks@[0]));
    }
    let mut oldest = stamp_of(map, ks[0]);
    let n = ks.len();
    let mut j: usize = 1;
    while j < n
        invariant
            1 <= j <= n,
            n == ks@.len(),
            ks@.to_set() == map@.dom(),
            exists|i: int| 0 <= i < j && map@[ks@[i]].stamp == oldest,
            forall|i: int| 0 <= i < j ==> oldest <= #[trigger] map@[ks@[i]].stamp,
        decreases n - j,
    {
        proof {
            assert(ks@.to_set().contains(ks@[j as int]));
        }
        let s = stamp_of(map, ks[j]);
        if s < oldest {
            oldest = s;
        }
        j = j + 1;
    }
    proof {
        let i = choose|i: int| 0 <= i < n && map@[ks@[i]].stamp == oldest;
        assert(ks@.to_set().contains(ks@[i]));
        assert forall|k: u128| map@.contains_key(k) implies oldest <= #[trigger] map@[k].stamp by {
            assert(ks@.to_set().contains(k));
            let i2 = choose|i2: int| 0 <= i2 < n && ks@[i2] == k;
            assert(oldest <= map@[ks@[i2]].stamp);
        }
    }
    oldest
}

/// Makes room in a full map: keeps the newer half by stamp, and drops the
/// entries with the oldest remaining stamp if that did not free anything.
fn evict_older_half<T>(map: &mut HashMap<u128, CacheEntry<T>>, limit: usize)
    requires
        0 < limit,
        old(map)@.len() == limit,
    ensures
        final(map)@ == evicted(old(map)@, limit as nat),
        final(map)@.len() < limit,
{
    let ghost m0 = map@;
    let ks = collect_keys(map);
    let n = ks.len();
    let mut stamps: Vec<u64> = Vec::new();
    let mut i: usize = 0;
    while i < n
        invariant
            0 <= i <= n,
            n == ks@.len(),
            map@ == m0,
            ks@.to_set() == m0.dom(),
            stamps@.len() == i,
            forall|j: int| 0 <= j < i ==> #[trigger] stamps@[j] == m0[ks@[j]].stamp,
        decreases n - i,
    {
        proof {
            assert(ks@.to_set().contains(ks@[i as int]));
        }
        stamps.push(stamp_of(map, ks[i]));
        i = i + 1;
    }
    let ghost unsorted = stamps@;
    sort_stamps(&mut stamps);
    let t = stamps[n / 2];
    proof {
        lemma_median_from_sorted(m0, ks@, unsorted, stamps@, t);
        lemma_median_stamp_unique(m0, t, median_stamp(m0));
    }
    drop_entries(map, &ks, t, true);
    let ghost kept = map@;
    proof {
        assert(kept =~= newer_than(m0, t));
        assert(kept.dom().subset_of(m0.dom()));
        vstd::set_lib::lemma_len_subset(kept.dom(), m0.dom());
    }
    if map.len() >= limit {
        let ks1 = collect_keys(map);
        let oldest = find_oldest(map, &ks1);
        proof {
            lemma_oldest_stamp_unique(kept, oldest, oldest_stamp(kept));
            let k = choose|k: u128| kept.contains_key(k) && kept[k].stamp == oldest;
            let rest = kept.dom().filter(|x: u128| kept[x].stamp != oldest);
            assert(rest.subset_of(kept.dom().remove(k)));
            assert(kept.dom().finite());
            vstd::set_lib::lemma_len_subset(rest, kept.dom().remove(k));
            assert(kept.dom().remove(k).len() == kept.dom().len() - 1);
        }
        drop_entries(map, &ks1, oldest, false);
        proof {
            assert(map@ =~= without_stamp(kept, oldest));
            assert(map@.dom() =~= kept.dom().filter(|x: u128| kept[x].stamp != oldest));
        }
    }
}

/// A bounded map from 128-bit keys to values, each stamped with its last use.
pub struct LruCache<T> {
    map: HashMap<u128, CacheEntry<T>>,
    limit: usize,
}

impl<T> View for LruCache<T> {
    type V = Map<u128, CacheEntry<T>>;

    closed spec fn view(&self) -> Map<u128, CacheEntry<T>> {
        self.map@
    }
}

impl<T> LruCache<T> {
    /// The most entries the cache holds.
    pub closed spec fn capacity(&self) -> nat {
        self.limit as nat
    }

    #[verifier::type_invariant]
    closed spec fn bounded(&self) -> bool {
        &&& 0 < self.limit
        &&& self.map@.len() <= self.limit
    }

    /// An empty cache holding at most `limit` entries.
    pub fn new(limit: usize) -> (cache: Self)
        requires
            limit > 0,
        ensures
            cache@ == Map::<u128, CacheEntry<T>>::empty(),
            cache.capacity() == limit,
            cache.capacity() > 0,
    {
        LruCache { map: HashMap::new(), limit }
    }

    /// The number of cached entries, never more than the capacity.
    pub fn len(&self) -> (n: usize)
        ensures
            n == self@.len(),
            n <= self.capacity(),
    {
        proof {
            use_type_invariant(self);
        }
        self.map.len()
    }

    pub fn capacity_limit(&self) -> (n: usize)
        ensures
            n == self.capacity(),
    {
        self.limit
    }

    /// The value cached under `key`, without marking it used.
    pub fn get(&self, key: u128) -> (res: Option<&T>)
        ensures
            match res {
                Some(v) => self@.contains_key(key) && *v == self@[key].value,
                None => !self@.contains_key(key),
            },
    {
        match self.map.get(&key) {
            Some(e) => Some(&e.value),
            None => None,
        }
    }

    /// Marks the entry under `key` as used now: on a hit the clock ticks and
    /// the entry takes the new stamp; on a miss neither cache nor clock
    /// changes. Reports whether the key was present.
    pub fn touch(&mut self, key: u128, clock: &mut LruClock) -> (hit: bool)
        ensures
            hit == old(self)@.contains_key(key),
            hit ==> final(clock).current() == vstd::wrapping::u64_specs::wrapping_add(
                old(clock).current(),
                1,
            ),
            hit ==> final(self)@ == old(self)@.insert(
                key,
                CacheEntry { value: old(self)@[key].value, stamp: final(clock).current() },
            ),
            !hit ==> final(self)@ == old(self)@ && final(clock).current() == old(clock).current(),
            final(self).capacity() == old(self).capacity(),
    {
        proof {
            use_type_invariant(&*self);
        }
        let mut map: HashMap<u128, CacheEntry<T>> = HashMap::new();
        std::mem::swap(&mut map, &mut self.map);
        let hit = match map.remove(&key) {
            Some(e) => {
                let stamp = clock.tick();
                map.insert(key, CacheEntry { value: e.value, stamp });
                true
            },
            None => false,
        };
        proof {
            if hit {
                assert(map@.dom() =~= old(self)@.dom());
            }
        }
        self.map = map;
        hit
    }

    /// Stores `value` under `key`. A full cache first makes room as
    /// `evicted` describes; then the clock ticks and the new entry takes the
    /// new stamp.
    pub fn insert(&mut self, key: u128, value: T, clock: &mut LruClock)
        ensures
            final(clock).current() == vstd::wrapping::u64_specs::wrapping_add(old(clock).current(), 1),
            final(self)@ == evicted(old(self)@, old(self).capacity()).insert(
                key,
                CacheEntry { value, stamp: final(clock).current() },
            ),
            final(self).capacity() == old(self).capacity(),
            final(self)@.len() <= final(self).capacity(),
            final(self)@.dom().finite(),
    {
        proof {
            use_type_invariant(&*self);
        }
        let mut map: HashMap<u128, CacheEntry<T>> = HashMap::new();
        std::mem::swap(&mut map, &mut self.map);
        if map.len() >= self.limit {
            evict_older_half(&mut map, self.limit);
        }
        let stamp = clock.tick();
        map.insert(key, CacheEntry { value, stamp });
        proof {
            vstd::set_lib::lemma_len_subset(map@.dom(), map@.dom());
        }
        self.map = map;
    }
}

} // verus!
