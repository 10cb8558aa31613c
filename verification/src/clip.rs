//! Memo of clip coverage masks.
//!
//! Building a clip mask rasterises a path over the whole surface, so masks are
//! remembered by the shape that produced them (its kind, its parameters and
//! the current transform, all as exact `f32` bit patterns). A remembered mask
//! is reused only when the clip it was built on top of is still the active
//! one: a mask built with no clip active is reused while no clip is active,
//! and any mask is reused while it is itself the active clip.
//!
//! Masks are identified by the id handed out when they are remembered; the
//! memo keeps at most a handful of masks and evicts the older half by stamp.

use vstd::prelude::*;
use vstd::relations::sorted_by;
use crate::cache::{
    CacheEntry,
    LruClock,
    is_median_stamp,
    median_stamp,
    newer_than,
    lemma_newer_half_size,
    lemma_median_stamp_unique,
    lemma_median_from_sorted,
    sort_stamps,
};

verus! {

/// Number of masks at which the memo makes room before remembering another.
pub const CLIP_MEMO_LIMIT: usize = 8;

/// The shape and transform a clip mask was built from, as exact bit patterns.
pub struct ClipKey {
    pub kind: u8,
    pub params: [u32; 5],
    pub transform: [u32; 6],
}

impl View for ClipKey {
    type V = (u8, Seq<u32>, Seq<u32>);

    open spec fn view(&self) -> (u8, Seq<u32>, Seq<u32>) {
        (self.kind, self.params@, self.transform@)
    }
}

impl ClipKey {
    /// Whether two keys describe the same shape under the same transform.
    pub fn same_as(&self, other: &ClipKey) -> (res: bool)
        ensures
            res == (self@ == other@),
    {
        if self.kind != other.kind {
            return false;
        }
        let mut j: usize = 0;
        while j < 5
            invariant
                0 <= j <= 5,
                forall|q: int| 0 <= q < j ==> self.params@[q] == other.params@[q],
            decreases 5 - j,
        {
            if self.params[j] != other.params[j] {
                return false;
            }
            j = j + 1;
        }
        let mut q: usize = 0;
        while q < 6
            invariant
                0 <= q <= 6,
                forall|r: int| 0 <= r < q ==> self.transform@[r] == other.transform@[r],
            decreases 6 - q,
        {
            if self.transform[q] != other.transform[q] {
                return false;
            }
            q = q + 1;
        }
        assert(self.params@ =~= other.params@);
        assert(self.transform@ =~= other.transform@);
        true
    }
}

/// A remembered mask: the mask itself, its id, and whether a clip was active
/// when it was built (it then holds the intersection with that clip).
pub struct ClipRecord<M> {
    pub mask: M,
    pub id: u64,
    pub had_previous: bool,
}

/// Whether a remembered mask may stand for a new clip of the same shape when
/// the active clip is `current` (its id, or `None` when no clip is active).
pub open spec fn clip_state_matches<M>(current: Option<u64>, rec: ClipRecord<M>) -> bool {
    match current {
        None => !rec.had_previous,
        Some(id) => id == rec.id,
    }
}

/// While a clip is active, a remembered mask fits only if it is that very
/// clip; with no clip active, only a mask built without a previous clip fits.
/// So a mask built on top of another clip is never taken for a different one.
pub proof fn lemma_fitting_mask_is_active_clip<M>(current: Option<u64>, rec: ClipRecord<M>)
    ensures
        current matches Some(c) ==> (clip_state_matches(current, rec) ==> rec.id == c),
        clip_state_matches(current, rec) && current is None ==> !rec.had_previous,
        current == Some(rec.id) ==> clip_state_matches(current, rec),
        current is None && !rec.had_previous ==> clip_state_matches(current, rec),
{
}

/// The memo after making room for one more mask.
pub open spec fn memo_evicted<M>(
    m: Map<(u8, Seq<u32>, Seq<u32>), CacheEntry<ClipRecord<M>>>,
) -> Map<(u8, Seq<u32>, Seq<u32>), CacheEntry<ClipRecord<M>>> {
    if m.len() >= CLIP_MEMO_LIMIT {
        newer_than(m, median_stamp(m))
    } else {
        m
    }
}

/// With pairwise distinct stamps, a memo of at most `CLIP_MEMO_LIMIT` masks
/// stays within that bound after remembering one more mask.
pub proof fn lemma_memo_stays_bounded<M>(
    m: Map<(u8, Seq<u32>, Seq<u32>), CacheEntry<ClipRecord<M>>>,
    key: (u8, Seq<u32>, Seq<u32>),
    entry: CacheEntry<ClipRecord<M>>,
)
    requires
        m.dom().finite(),
        m.len() <= CLIP_MEMO_LIMIT,
        forall|a: (u8, Seq<u32>, Seq<u32>), b: (u8, Seq<u32>, Seq<u32>)|
            m.contains_key(a) && m.contains_key(b) && a != b ==> #[trigger] m[a].stamp
                != #[trigger] m[b].stamp,
    ensures
        memo_evicted(m).insert(key, entry).len() <= CLIP_MEMO_LIMIT,
{
    broadcast use vstd::set::group_set_axioms;
    if m.len() >= CLIP_MEMO_LIMIT {
        lemma_newer_half_size(m);
    }
}

struct MemoSlot<M> {
    key: ClipKey,
    record: ClipRecord<M>,
    stamp: u64,
}

spec fn slot_entry<M>(s: MemoSlot<M>) -> CacheEntry<ClipRecord<M>> {
    CacheEntry { value: s.record, stamp: s.stamp }
}

spec fn keys_of<M>(s: Seq<MemoSlot<M>>) -> Seq<(u8, Seq<u32>, Seq<u32>)> {
    s.map_values(|x: MemoSlot<M>| x.key@)
}

spec fn slot_index_of<M>(s: Seq<MemoSlot<M>>, k: (u8, Seq<u32>, Seq<u32>)) -> int {
    choose|i: int| 0 <= i < s.len() && s[i].key@ == k
}

spec fn slots_map<M>(s: Seq<MemoSlot<M>>) -> Map<(u8, Seq<u32>, Seq<u32>), CacheEntry<ClipRecord<M>>> {
    Map::new(
        |k: (u8, Seq<u32>, Seq<u32>)| keys_of(s).contains(k),
        |k: (u8, Seq<u32>, Seq<u32>)| slot_entry(s[slot_index_of(s, k)]),
    )
}

proof fn lemma_slots_map_at<M>(s: Seq<MemoSlot<M>>, i: int)
    requires
        keys_of(s).no_duplicates(),
        0 <= i < s.len(),
    ensures
        slots_map(s).contains_key(s[i].key@),
        slots_map(s)[s[i].key@] == slot_entry(s[i]),
{
    assert(keys_of(s)[i] == s[i].key@);
    let j = slot_index_of(s, s[i].key@);
    assert(keys_of(s)[j] == s[j].key@);
}

proof fn lemma_slots_map_dom<M>(s: Seq<MemoSlot<M>>)
    ensures
        slots_map(s).dom() == keys_of(s).to_set(),
{
    assert(slots_map(s).dom() =~= keys_of(s).to_set());
}

proof fn lemma_slots_map_update<M>(s: Seq<MemoSlot<M>>, i: int, x: MemoSlot<M>)
    requires
        keys_of(s).no_duplicates(),
        0 <= i < s.len(),
        x.key@ == s[i].key@,
    ensures
        keys_of(s.update(i, x)).no_duplicates(),
        slots_map(s.update(i, x)) == slots_map(s).insert(x.key@, slot_entry(x)),
{
    let t = s.update(i, x);
    assert(keys_of(t) =~= keys_of(s));
    assert forall|k| #[trigger] slots_map(t).contains_key(k) implies slots_map(t)[k] == slots_map(
        s,
    ).insert(x.key@, slot_entry(x))[k] by {
        let j = choose|j: int| 0 <= j < keys_of(t).len() && keys_of(t)[j] == k;
        assert(keys_of(t)[j] == t[j].key@);
        lemma_slots_map_at(t, j);
        if j != i {
            assert(t[j] == s[j]);
            lemma_slots_map_at(s, j);
            assert(keys_of(s)[j] != keys_of(s)[i]);
            assert(keys_of(s)[i] == s[i].key@);
            assert(keys_of(s)[j] == s[j].key@);
        } else {
            assert(t[j] == x);
        }
    }
    assert(slots_map(t).dom() =~= slots_map(s).insert(x.key@, slot_entry(x)).dom()) by {
        assert(keys_of(s)[i] == x.key@);
    }
    assert(slots_map(t) =~= slots_map(s).insert(x.key@, slot_entry(x)));
}

proof fn lemma_slots_map_push<M>(s: Seq<MemoSlot<M>>, x: MemoSlot<M>)
    requires
        keys_of(s).no_duplicates(),
        !keys_of(s).contains(x.key@),
    ensures
        keys_of(s.push(x)).no_duplicates(),
        slots_map(s.push(x)) == slots_map(s).insert(x.key@, slot_entry(x)),
{
    let t = s.push(x);
    assert(keys_of(t) =~= keys_of(s).push(x.key@));
    assert(keys_of(t).no_duplicates()) by {
        assert forall|a: int, b: int| 0 <= a < keys_of(t).len() && 0 <= b < keys_of(t).len() && a != b implies keys_of(t)[a] != keys_of(t)[b] by {
            if a < s.len() && b < s.len() {
            } else if a == s.len() {
                assert(keys_of(s)[b] == keys_of(t)[b]);
            } else {
                assert(keys_of(s)[a] == keys_of(t)[a]);
            }
        }
    }
    assert forall|k| #[trigger] slots_map(t).contains_key(k) implies slots_map(t)[k] == slots_map(
        s,
    ).insert(x.key@, slot_entry(x))[k] by {
        let j = choose|j: int| 0 <= j < keys_of(t).len() && keys_of(t)[j] == k;
        lemma_slots_map_at(t, j);
        if j < s.len() {
            lemma_slots_map_at(s, j);
        }
    }
    assert(slots_map(t).dom() =~= slots_map(s).insert(x.key@, slot_entry(x)).dom()) by {
        assert forall|k| slots_map(s).contains_key(k) implies keys_of(t).contains(k) by {
            let j = choose|j: int| 0 <= j < keys_of(s).len() && keys_of(s)[j] == k;
            assert(keys_of(t)[j] == k);
        }
        assert(keys_of(t)[s.len() as int] == x.key@);
    }
    assert(slots_map(t) =~= slots_map(s).insert(x.key@, slot_entry(x)));
}

proof fn lemma_slots_map_remove<M>(s: Seq<MemoSlot<M>>, i: int)
    requires
        keys_of(s).no_duplicates(),
        0 <= i < s.len(),
    ensures
        keys_of(s.remove(i)).no_duplicates(),
        slots_map(s.remove(i)) == slots_map(s).remove(s[i].key@),
{
    let t = s.remove(i);
    assert(keys_of(t) =~= keys_of(s).remove(i));
    assert(keys_of(t).no_duplicates()) by {
        assert forall|a: int, b: int| 0 <= a < keys_of(t).len() && 0 <= b < keys_of(t).len() && a != b implies keys_of(t)[a] != keys_of(t)[b] by {
            let a2 = if a < i { a } else { a + 1 };
            let b2 = if b < i { b } else { b + 1 };
            assert(keys_of(t)[a] == keys_of(s)[a2]);
            assert(keys_of(t)[b] == keys_of(s)[b2]);
        }
    }
    assert forall|k| #[trigger] slots_map(t).contains_key(k) implies slots_map(t)[k] == slots_map(
        s,
    )[k] && k != s[i].key@ by {
        let j = choose|j: int| 0 <= j < keys_of(t).len() && keys_of(t)[j] == k;
        lemma_slots_map_at(t, j);
        let j2 = if j < i { j } else { j + 1 };
        assert(t[j] == s[j2]);
        lemma_slots_map_at(s, j2);
        assert(keys_of(s)[j2] == k);
        assert(keys_of(s)[i] == s[i].key@);
    }
    assert forall|k| slots_map(s).contains_key(k) && k != s[i].key@ implies #[trigger] keys_of(t).contains(k) by {
        let j = choose|j: int| 0 <= j < keys_of(s).len() && keys_of(s)[j] == k;
        assert(j != i);
        let j2 = if j < i { j } else { j - 1 };
        assert(keys_of(t)[j2] == k);
    }
    assert(slots_map(t) =~= slots_map(s).remove(s[i].key@));
}

proof fn lemma_keys_skip<M>(s: Seq<MemoSlot<M>>, i: int, k: (u8, Seq<u32>, Seq<u32>))
    requires
        0 <= i < s.len(),
    ensures
        keys_of(s.skip(i)).contains(k) <==> (s[i].key@ == k || keys_of(s.skip(i + 1)).contains(k)),
{
    let a = keys_of(s.skip(i));
    let b = keys_of(s.skip(i + 1));
    assert(a =~= seq![s[i].key@] + b);
    if a.contains(k) {
        let j = choose|j: int| 0 <= j < a.len() && a[j] == k;
        if j > 0 {
            assert(b[j - 1] == k);
        }
    }
    if b.contains(k) {
        let j = choose|j: int| 0 <= j < b.len() && b[j] == k;
        assert(a[j + 1] == k);
    }
    if s[i].key@ == k {
        assert(a[0] == k);
    }
}

proof fn lemma_enumeration<M>(s: Seq<MemoSlot<M>>)
    requires
        keys_of(s).no_duplicates(),
    ensures
        keys_of(s).to_set() == slots_map(s).dom(),
        keys_of(s).len() == slots_map(s).dom().len(),
        slots_map(s).dom().finite(),
{
    lemma_slots_map_dom(s);
    keys_of(s).unique_seq_to_set();
}

/// Drops the older half of the slots by stamp.
fn evict_half<M>(slots: &mut Vec<MemoSlot<M>>)
    requires
        keys_of(old(slots)@).no_duplicates(),
        old(slots)@.len() > 0,
    ensures
        keys_of(final(slots)@).no_duplicates(),
        slots_map(final(slots)@) == newer_than(
            slots_map(old(slots)@),
            median_stamp(slots_map(old(slots)@)),
        ),
{
    let ghost s0 = slots@;
    let ghost m0 = slots_map(s0);
    let n = slots.len();
    let mut stamps: Vec<u64> = Vec::new();
    let mut i: usize = 0;
    while i < n
        invariant
            0 <= i <= n,
            n == slots@.len(),
            slots@ == s0,
            stamps@.len() == i,
            forall|j: int| 0 <= j < i ==> #[trigger] stamps@[j] == s0[j].stamp,
        decreases n - i,
    {
        stamps.push(slots[i].stamp);
        i = i + 1;
    }
    let ghost unsorted = stamps@;
    sort_stamps(&mut stamps);
    let t = stamps[n / 2];
    proof {
        lemma_enumeration(s0);
        assert forall|j: int| 0 <= j < n implies #[trigger] unsorted[j] == m0[keys_of(s0)[j]].stamp by {
            lemma_slots_map_at(s0, j);
        }
        lemma_median_from_sorted(m0, keys_of(s0), unsorted, stamps@, t);
        lemma_median_stamp_unique(m0, t, median_stamp(m0));
    }
    proof {
        assert(slots@.skip(0) =~= slots@);
        assert(slots_map(slots@) =~= m0.restrict(
            m0.dom().filter(
                |k: (u8, Seq<u32>, Seq<u32>)|
                    m0[k].stamp >= t || keys_of(slots@.skip(0)).contains(k),
            ),
        ));
    }
    let mut i: usize = 0;
    while i < slots.len()
        invariant
            0 <= i <= slots@.len(),
            keys_of(slots@).no_duplicates(),
            m0 == slots_map(s0),
            slots_map(slots@) == m0.restrict(
                m0.dom().filter(
                    |k: (u8, Seq<u32>, Seq<u32>)|
                        m0[k].stamp >= t || keys_of(slots@.skip(i as int)).contains(k),
                ),
            ),
        decreases slots@.len() - i,
    {
        let ghost before = slots@;
        let ghost key_i = before[i as int].key@;
        proof {
            lemma_slots_map_at(before, i as int);
            assert(keys_of(before.skip(i as int))[0] == key_i);
            assert(m0[key_i] == slots_map(before)[key_i]);
            assert forall|k: (u8, Seq<u32>, Seq<u32>)| true implies (keys_of(before.skip(i as int)).contains(k) <==> (key_i == k || keys_of(before.skip(i + 1)).contains(k))) by {
                lemma_keys_skip(before, i as int, k);
            }
            assert(!keys_of(before.skip(i + 1)).contains(key_i)) by {
                let rest = keys_of(before.skip(i + 1));
                if rest.contains(key_i) {
                    let j = choose|j: int| 0 <= j < rest.len() && rest[j] == key_i;
                    assert(keys_of(before)[i + 1 + j] == key_i);
                    assert(keys_of(before)[i as int] == key_i);
                }
            }
        }
        if slots[i].stamp < t {
            slots.remove(i);
            proof {
                lemma_slots_map_remove(before, i as int);
                assert(before.remove(i as int).skip(i as int) =~= before.skip(i + 1));
                assert(slots_map(slots@) =~= m0.restrict(
                    m0.dom().filter(
                        |k: (u8, Seq<u32>, Seq<u32>)|
                            m0[k].stamp >= t || keys_of(slots@.skip(i as int)).contains(k),
                    ),
                ));
            }
        } else {
            i = i + 1;
            proof {
                assert(slots_map(slots@) =~= m0.restrict(
                    m0.dom().filter(
                        |k: (u8, Seq<u32>, Seq<u32>)|
                            m0[k].stamp >= t || keys_of(slots@.skip(i as int)).contains(k),
                    ),
                ));
            }
        }
    }
    proof {
        assert(keys_of(slots@.skip(i as int)) =~= Seq::<(u8, Seq<u32>, Seq<u32>)>::empty());
        assert(slots_map(slots@) =~= newer_than(m0, t));
    }
}

fn find_slot<M>(slots: &Vec<MemoSlot<M>>, key: &ClipKey) -> (res: Option<usize>)
    ensures
        match res {
            Some(i) => i < slots@.len() && slots@[i as int].key@ == key@,
            None => !keys_of(slots@).contains(key@),
        },
{
    let n = slots.len();
    let mut i: usize = 0;
    while i < n
        invariant
            0 <= i <= n,
            n == slots@.len(),
            forall|j: int| 0 <= j < i ==> slots@[j].key@ != key@,
        decreases n - i,
    {
        if slots[i].key.same_as(key) {
            return Some(i);
        }
        i = i + 1;
    }
    proof {
        if keys_of(slots@).contains(key@) {
            let j = choose|j: int| 0 <= j < n && keys_of(slots@)[j] == key@;
            assert(slots@[j].key@ == key@);
        }
    }
    None
}

/// Memo of clip masks built by a canvas, with the id counter for new masks.
///
/// The entries live in a vector of slots whose keys are pairwise distinct,
/// not in a `HashMap<ClipKey, _>`: vstd proves what a `HashMap` lookup
/// returns only for keys that satisfy `obeys_key_model`, which it establishes
/// for integers, `bool` and boxes of them, and for a struct key such as
/// `ClipKey` it could only be assumed. The memo holds at most eight entries,
/// so a linear search costs nothing.
pub struct ClipMemo<M> {
    slots: Vec<MemoSlot<M>>,
    next_id: u64,
}

impl<M> View for ClipMemo<M> {
    type V = Map<(u8, Seq<u32>, Seq<u32>), CacheEntry<ClipRecord<M>>>;

    closed spec fn view(&self) -> Map<(u8, Seq<u32>, Seq<u32>), CacheEntry<ClipRecord<M>>> {
        slots_map(self.slots@)
    }
}

impl<M> ClipMemo<M> {
    /// The id the next remembered mask will get.
    pub closed spec fn next_mask_id(&self) -> u64 {
        self.next_id
    }

    #[verifier::type_invariant]
    closed spec fn keys_unique(&self) -> bool {
        keys_of(self.slots@).no_duplicates()
    }

    pub fn new() -> (memo: Self)
        ensures
            memo@ == Map::<(u8, Seq<u32>, Seq<u32>), CacheEntry<ClipRecord<M>>>::empty(),
            memo.next_mask_id() == 0,
    {
        let memo = ClipMemo { slots: Vec::new(), next_id: 0 };
        assert(memo@ =~= Map::<(u8, Seq<u32>, Seq<u32>), CacheEntry<ClipRecord<M>>>::empty());
        memo
    }

    /// Number of remembered masks.
    pub fn len(&self) -> (n: usize)
        ensures
            n == self@.len(),
            self@.dom().finite(),
    {
        proof {
            use_type_invariant(self);
            lemma_enumeration(self.slots@);
        }
        self.slots.len()
    }

    /// The mask remembered for `key`, if any.
    pub fn mask(&self, key: &ClipKey) -> (res: Option<&M>)
        ensures
            match res {
                Some(m) => self@.contains_key(key@) && *m == self@[key@].value.mask,
                None => !self@.contains_key(key@),
            },
    {
        proof {
            use_type_invariant(self);
        }
        match find_slot(&self.slots, key) {
            Some(i) => {
                proof {
                    lemma_slots_map_at(self.slots@, i as int);
                }
                Some(&self.slots[i].record.mask)
            },
            None => None,
        }
    }

    /// Reuses the mask remembered for `key` when it fits the active clip
    /// `current`: the clock ticks, the entry takes the new stamp and its id is
    /// returned. Otherwise nothing changes.
    pub fn reuse(&mut self, key: &ClipKey, current: Option<u64>, clock: &mut LruClock) -> (res:
        Option<u64>)
        ensures
            final(self).next_mask_id() == old(self).next_mask_id(),
            res matches Some(id) ==> (current matches Some(c) ==> id == c),
            res is Some && current is None ==> old(self)@.contains_key(key@) && !old(
                self,
            )@[key@].value.had_previous,
            old(self)@.contains_key(key@) && current == Some(old(self)@[key@].value.id) ==> res
                == Some(old(self)@[key@].value.id),
            old(self)@.contains_key(key@) && current is None && !old(self)@[key@].value.had_previous
                ==> res == Some(old(self)@[key@].value.id),
            match res {
                Some(id) => {
                    &&& old(self)@.contains_key(key@)
                    &&& clip_state_matches(current, old(self)@[key@].value)
                    &&& id == old(self)@[key@].value.id
                    &&& final(clock).current() == vstd::wrapping::u64_specs::wrapping_add(
                        old(clock).current(),
                        1,
                    )
                    &&& final(self)@ == old(self)@.insert(
                        key@,
                        CacheEntry { value: old(self)@[key@].value, stamp: final(clock).current() },
                    )
                },
                None => {
                    &&& !(old(self)@.contains_key(key@) && clip_state_matches(
                        current,
                        old(self)@[key@].value,
                    ))
                    &&& final(self)@ == old(self)@
                    &&& final(clock).current() == old(clock).current()
                },
            },
    {
        proof {
            use_type_invariant(&*self);
        }
        let found = find_slot(&self.slots, key);
        match found {
            None => {
                proof {
                    lemma_slots_map_dom(self.slots@);
                }
                None
            },
            Some(i) => {
                proof {
                    lemma_slots_map_at(self.slots@, i as int);
                }
                let same_state = match current {
                    None => !self.slots[i].record.had_previous,
                    Some(id) => id == self.slots[i].record.id,
                };
                if !same_state {
                    return None;
                }
                let mut slots: Vec<MemoSlot<M>> = Vec::new();
                std::mem::swap(&mut slots, &mut self.slots);
                let ghost before = slots@;
                let stamp = clock.tick();
                let slot = slots.remove(i);
                let id = slot.record.id;
                let ghost removed = slots@;
                slots.insert(i, MemoSlot { key: slot.key, record: slot.record, stamp });
                proof {
                    let x = slots@[i as int];
                    assert(slots@ =~= before.update(i as int, x));
                    lemma_slots_map_update(before, i as int, x);
                }
                self.slots = slots;
                Some(id)
            },
        }
    }

    /// Remembers `mask`, built for `key` on top of the active clip when
    /// `had_previous`, under a fresh id which is returned. A memo holding
    /// `CLIP_MEMO_LIMIT` masks or more first drops its older half; then the
    /// clock ticks and the mask takes the new stamp, replacing any mask kept
    /// under the same key.
    pub fn remember(&mut self, key: ClipKey, mask: M, had_previous: bool, clock: &mut LruClock) -> (id:
        u64)
        ensures
            id == old(self).next_mask_id(),
            final(self).next_mask_id() == vstd::wrapping::u64_specs::wrapping_add(
                old(self).next_mask_id(),
                1,
            ),
            final(clock).current() == vstd::wrapping::u64_specs::wrapping_add(old(clock).current(), 1),
            final(self)@ == memo_evicted(old(self)@).insert(
                key@,
                CacheEntry { value: ClipRecord { mask, id, had_previous }, stamp: final(clock).current() },
            ),
    {
        proof {
            use_type_invariant(&*self);
            lemma_enumeration(self.slots@);
        }
        let stamp = clock.tick();
        let id = self.next_id;
        let mut slots: Vec<MemoSlot<M>> = Vec::new();
        std::mem::swap(&mut slots, &mut self.slots);
        if slots.len() >= CLIP_MEMO_LIMIT {
            evict_half(&mut slots);
        }
        let ghost kept = slots@;
        let ghost key_view = key@;
        let slot = MemoSlot { key, record: ClipRecord { mask, id, had_previous }, stamp };
        let ghost x = slot;
        match find_slot(&slots, &slot.key) {
            Some(pos) => {
                slots.set(pos, slot);
                proof {
                    lemma_slots_map_update(kept, pos as int, x);
                }
            },
            None => {
                slots.push(slot);
                proof {
                    lemma_slots_map_push(kept, x);
                }
            },
        }
        self.slots = slots;
        self.next_id = self.next_id.wrapping_add(1);
        id
    }
}

} // verus!
