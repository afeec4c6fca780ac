//! The index: for each key, the offset of the record that was written for it
//! last. It is rebuilt from a scan of the log and can be kept as a snapshot
//! in the log itself.
//!
//! The keys are byte strings of any length. They are held in a vector in
//! which no key occurs twice. To find a key without walking that vector, a
//! hash map leads from the checksum of a key to the places in the vector of
//! the keys that have this checksum.

use crate::codec::{checksum, crc32_cksum};
use crate::log::{entries_of, LogEntry, ScannedRecord};
use std::collections::HashMap;
use vstd::prelude::*;
use vstd::slice::slice_to_vec;

verus! {

broadcast use vstd::std_specs::hash::group_hash_axioms;

/// A key of the index with the offset of its latest record.
#[derive(Debug)]
struct Slot {
    key: Vec<u8>,
    offset: u64,
}

/// The mapping from keys to offsets.
#[derive(Debug)]
pub struct Index {
    slots: Vec<Slot>,
    places: HashMap<u32, Vec<usize>>,
}

/// Whether `places` leads to the first `n` of `slots` and to nothing else:
/// under a checksum stand only places in front of `n` whose keys have that
/// checksum, and each of the first `n` places stands under the checksum of
/// its key.
spec fn leads_to(places: Map<u32, Vec<usize>>, slots: Seq<Slot>, n: int) -> bool {
    &&& forall|sum: u32, j: int|
        places.contains_key(sum) && 0 <= j < places[sum]@.len() ==> {
            &&& (#[trigger] places[sum]@[j]) < n
            &&& crc32_cksum(slots[places[sum]@[j] as int].key@) == sum
        }
    &&& forall|i: int|
        0 <= i < n ==> {
            &&& places.contains_key(crc32_cksum((#[trigger] slots[i]).key@))
            &&& places[crc32_cksum(slots[i].key@)]@.contains(i as usize)
        }
}

/// No key occurs in two slots.
spec fn distinct_keys(slots: Seq<Slot>) -> bool {
    forall|i: int, j: int| 0 <= i < j < slots.len() ==> slots[i].key@ != slots[j].key@
}

/// Some slot holds `key`.
spec fn holds(slots: Seq<Slot>, key: Seq<u8>) -> bool {
    exists|i: int| 0 <= i < slots.len() && #[trigger] slots[i].key@ == key
}

/// A slot that holds `key`, if there is one.
spec fn slot_of(slots: Seq<Slot>, key: Seq<u8>) -> int {
    choose|i: int| 0 <= i < slots.len() && #[trigger] slots[i].key@ == key
}

/// The mapping that the slots stand for.
spec fn map_of(slots: Seq<Slot>) -> Map<Seq<u8>, u64> {
    Map::new(|key: Seq<u8>| holds(slots, key), |key: Seq<u8>| slots[slot_of(slots, key)].offset)
}

/// The index after the records of a scan have been entered into `base` in
/// file order: each record sets the offset of its key, so that the record
/// written last for a key is the one that stays.
pub open spec fn indexed(base: Map<Seq<u8>, u64>, entries: Seq<LogEntry>) -> Map<Seq<u8>, u64>
    decreases entries.len(),
{
    if entries.len() == 0 {
        base
    } else {
        indexed(base, entries.drop_last()).insert(
            entries.last().record.key,
            entries.last().offset as u64,
        )
    }
}

/// The last of `entries` whose key is `key`.
pub open spec fn last_match(entries: Seq<LogEntry>, key: Seq<u8>) -> Option<LogEntry>
    decreases entries.len(),
{
    if entries.len() == 0 {
        None
    } else if entries.last().record.key == key {
        Some(entries.last())
    } else {
        last_match(entries.drop_last(), key)
    }
}

/// The slot at `i` is what the mapping has for its key.
proof fn lemma_slot_is_mapped(slots: Seq<Slot>, i: int)
    requires
        distinct_keys(slots),
        0 <= i < slots.len(),
    ensures
        map_of(slots).contains_key(slots[i].key@),
        map_of(slots)[slots[i].key@] == slots[i].offset,
{
    let key = slots[i].key@;
    assert(holds(slots, key));
    let j = slot_of(slots, key);
    assert(i == j);
}

/// A key that no slot holds is not mapped.
proof fn lemma_absent_is_unmapped(slots: Seq<Slot>, key: Seq<u8>)
    requires
        forall|i: int| 0 <= i < slots.len() ==> slots[i].key@ != key,
    ensures
        !map_of(slots).contains_key(key),
{
}

/// A mapped key is held by a slot, which has its offset.
proof fn lemma_mapped_has_slot(slots: Seq<Slot>, key: Seq<u8>) -> (i: int)
    requires
        map_of(slots).contains_key(key),
    ensures
        0 <= i < slots.len(),
        slots[i].key@ == key,
        map_of(slots)[key] == slots[i].offset,
{
    slot_of(slots, key)
}

/// The mapping that `bincode::deserialize` reads from `bytes` as a
/// `HashMap<Vec<u8>, u64>`, or `None` where it reports an error.
pub uninterp spec fn snapshot_map(bytes: Seq<u8>) -> Option<Map<Seq<u8>, u64>>;

/// Calls `bincode::serialize` on the slots as a `HashMap<Vec<u8>, u64>`.
/// The order of the entries in the bytes is the map's own and is left open.
/// Two things are claimed. The call succeeds: it writes into a vector,
/// without a limit on the number of bytes, a map and byte strings whose
/// lengths are known, so that none of its errors can come. And
/// `bincode::deserialize` reads the same mapping back from the bytes.
#[verifier::external_body]
fn to_snapshot(slots: &Vec<Slot>) -> (snapshot: Option<Vec<u8>>)
    requires
        distinct_keys(slots@),
    ensures
        snapshot is Some,
        snapshot matches Some(bytes) ==> snapshot_map(bytes@) == Some(map_of(slots@)),
{
    let mut map: HashMap<Vec<u8>, u64> = HashMap::new();
    for slot in slots.iter() {
        map.insert(slot.key.clone(), slot.offset);
    }
    bincode::serialize(&map).ok()
}

/// Calls `bincode::deserialize` for a `HashMap<Vec<u8>, u64>` and hands its
/// entries out as slots, in the map's own order; no key occurs twice in a
/// map. An error of the call comes out as `None`.
#[verifier::external_body]
fn from_snapshot(bytes: &[u8]) -> (slots: Option<Vec<Slot>>)
    ensures
        match slots {
            Some(slots) => distinct_keys(slots@) && snapshot_map(bytes@) == Some(map_of(slots@)),
            None => snapshot_map(bytes@) is None,
        },
{
    let map: HashMap<Vec<u8>, u64> = bincode::deserialize(bytes).ok()?;
    let mut slots: Vec<Slot> = Vec::new();
    for (key, offset) in map {
        slots.push(Slot { key, offset });
    }
    Some(slots)
}

/// Whether two byte strings are equal.
pub(crate) fn bytes_eq(a: &[u8], b: &[u8]) -> (eq: bool)
    ensures
        eq == (a@ == b@),
{
    if a.len() != b.len() {
        return false;
    }
    let mut i: usize = 0;
    while i < a.len()
        invariant
            a@.len() == b@.len(),
            i <= a@.len(),
            forall|j: int| 0 <= j < i ==> a@[j] == b@[j],
        decreases a@.len() - i,
    {
        if a[i] != b[i] {
            return false;
        }
        i += 1;
    }
    assert(a@ =~= b@);
    true
}

/// Enters the place `n` under the checksum `sum` of the key that it holds.
fn add_place(
    places: &mut HashMap<u32, Vec<usize>>,
    sum: u32,
    n: usize,
    Ghost(slots): Ghost<Seq<Slot>>,
)
    requires
        leads_to(old(places)@, slots, n as int),
        n < slots.len(),
        crc32_cksum(slots[n as int].key@) == sum,
    ensures
        leads_to(final(places)@, slots, n + 1),
{
    let ghost before = places@;
    let mut bucket = match places.remove(&sum) {
        Some(bucket) => bucket,
        None => Vec::new(),
    };
    let ghost shorter = bucket@;
    bucket.push(n);
    places.insert(sum, bucket);
    proof {
        let after = places@;
        assert forall|other: u32, j: int|
            after.contains_key(other) && 0 <= j < after[other]@.len() implies (
            #[trigger] after[other]@[j]) < n + 1 && crc32_cksum(
            slots[after[other]@[j] as int].key@,
        ) == other by {
            if other == sum {
                if j < shorter.len() {
                    assert(before.contains_key(sum));
                    assert(before[sum]@[j] == after[sum]@[j]);
                }
            } else {
                assert(before.contains_key(other));
                assert(before[other]@[j] == after[other]@[j]);
            }
        }
        assert forall|i: int| 0 <= i < n + 1 implies after.contains_key(
            crc32_cksum((#[trigger] slots[i]).key@),
        ) && after[crc32_cksum(slots[i].key@)]@.contains(i as usize) by {
            let other = crc32_cksum(slots[i].key@);
            if i == n {
                assert(after[sum]@[shorter.len() as int] == n);
            } else if other == sum {
                assert(before[sum]@.contains(i as usize));
                let j = choose|j: int| 0 <= j < shorter.len() && shorter[j] == i as usize;
                assert(after[sum]@[j] == i as usize);
            } else {
                assert(before[other]@.contains(i as usize));
            }
        }
    }
}

/// The places of all of `slots`.
fn places_of(slots: &Vec<Slot>) -> (places: HashMap<u32, Vec<usize>>)
    ensures
        leads_to(places@, slots@, slots@.len() as int),
{
    let mut places: HashMap<u32, Vec<usize>> = HashMap::new();
    let mut i: usize = 0;
    while i < slots.len()
        invariant
            i <= slots@.len(),
            leads_to(places@, slots@, i as int),
        decreases slots@.len() - i,
    {
        let sum = checksum(slots[i].key.as_slice());
        add_place(&mut places, sum, i, Ghost(slots@));
        i += 1;
    }
    places
}

/// Places lead to slots whatever offsets the slots hold: only the keys
/// count.
proof fn lemma_leads_to_same_keys(
    places: Map<u32, Vec<usize>>,
    a: Seq<Slot>,
    b: Seq<Slot>,
    n: int,
)
    requires
        leads_to(places, a, n),
        n <= a.len(),
        n <= b.len(),
        forall|i: int| 0 <= i < n ==> a[i].key@ == b[i].key@,
    ensures
        leads_to(places, b, n),
{
    assert forall|sum: u32, j: int|
        places.contains_key(sum) && 0 <= j < places[sum]@.len() implies (
        #[trigger] places[sum]@[j]) < n && crc32_cksum(b[places[sum]@[j] as int].key@)
        == sum by {
        let i = places[sum]@[j] as int;
        assert(a[i].key@ == b[i].key@);
    }
    assert forall|i: int| 0 <= i < n implies places.contains_key(
        crc32_cksum((#[trigger] b[i]).key@),
    ) && places[crc32_cksum(b[i].key@)]@.contains(i as usize) by {
        assert(a[i].key@ == b[i].key@);
    }
}

impl View for Index {
    type V = Map<Seq<u8>, u64>;

    closed spec fn view(&self) -> Map<Seq<u8>, u64> {
        map_of(self.slots@)
    }
}

impl Index {
    #[verifier::type_invariant]
    spec fn well_formed(&self) -> bool {
        &&& distinct_keys(self.slots@)
        &&& leads_to(self.places@, self.slots@, self.slots@.len() as int)
    }

    /// The index without any key.
    pub fn new() -> (index: Index)
        ensures
            index@ == Map::<Seq<u8>, u64>::empty(),
    {
        let index = Index { slots: Vec::new(), places: HashMap::new() };
        assert(index@ =~= Map::<Seq<u8>, u64>::empty());
        index
    }

    /// The slot that holds `key`, if there is one. It is looked for among the
    /// places that stand under the checksum of `key`.
    fn position(&self, key: &[u8]) -> (found: Option<usize>)
        ensures
            match found {
                Some(i) => i < self.slots@.len() && self.slots@[i as int].key@ == key@,
                None => forall|i: int| 0 <= i < self.slots@.len() ==> self.slots@[i].key@ != key@,
            },
    {
        proof {
            use_type_invariant(self);
        }
        let sum = checksum(key);
        let len = self.slots.len();
        match self.places.get(&sum) {
            None => {
                assert forall|i: int| 0 <= i < self.slots@.len() implies self.slots@[i].key@
                    != key@ by {
                    if self.slots@[i].key@ == key@ {
                        assert(self.places@.contains_key(crc32_cksum(self.slots@[i].key@)));
                    }
                }
                None
            },
            Some(bucket) => {
                let mut j: usize = 0;
                while j < bucket.len()
                    invariant
                        j <= bucket@.len(),
                        self.places@.contains_key(sum),
                        bucket@ == self.places@[sum]@,
                        leads_to(self.places@, self.slots@, self.slots@.len() as int),
                        forall|k: int| 0 <= k < j ==> self.slots@[bucket@[k] as int].key@ != key@,
                    decreases bucket@.len() - j,
                {
                    let place = bucket[j];
                    assert(place == self.places@[sum]@[j as int]);
                    if bytes_eq(self.slots[place].key.as_slice(), key) {
                        return Some(place);
                    }
                    j += 1;
                }
                assert forall|i: int| 0 <= i < len implies self.slots@[i].key@ != key@ by {
                    if self.slots@[i].key@ == key@ {
                        assert(self.places@[crc32_cksum(self.slots@[i].key@)]@.contains(
                            i as usize,
                        ));
                        let k = choose|k: int| 0 <= k < bucket@.len() && bucket@[k] == i as usize;
                        assert(self.slots@[bucket@[k] as int].key@ != key@);
                    }
                }
                None
            },
        }
    }

    /// The offset of the latest record of `key`, if the index has the key.
    pub fn lookup(&self, key: &[u8]) -> (offset: Option<u64>)
        ensures
            offset == if self@.contains_key(key@) {
                Some(self@[key@])
            } else {
                None
            },
    {
        proof {
            use_type_invariant(self);
        }
        match self.position(key) {
            Some(i) => {
                proof {
                    lemma_slot_is_mapped(self.slots@, i as int);
                }
                Some(self.slots[i].offset)
            },
            None => {
                proof {
                    lemma_absent_is_unmapped(self.slots@, key@);
                }
                None
            },
        }
    }

    /// Whether the index has `key`.
    pub fn contains_key(&self, key: &[u8]) -> (present: bool)
        ensures
            present == self@.contains_key(key@),
    {
        self.lookup(key).is_some()
    }

    /// Sets the offset of `key`, whether or not the index had the key.
    pub fn set(&mut self, key: &[u8], offset: u64)
        ensures
            final(self)@ == old(self)@.insert(key@, offset),
    {
        proof {
            use_type_invariant(&*self);
        }
        let ghost before = self.slots@;
        let slot = Slot { key: slice_to_vec(key), offset };
        let found = self.position(key);
        let mut taken = Index::new();
        core::mem::swap(self, &mut taken);
        let mut slots = taken.slots;
        let mut places = taken.places;
        match found {
            Some(i) => {
                slots.set(i, slot);
                proof {
                    lemma_leads_to_same_keys(places@, before, slots@, before.len() as int);
                }
            },
            None => {
                let n = slots.len();
                slots.push(slot);
                proof {
                    lemma_leads_to_same_keys(places@, before, slots@, n as int);
                }
                add_place(&mut places, checksum(key), n, Ghost(slots@));
            },
        }
        proof {
            let after = slots@;
            assert(distinct_keys(after));
            assert forall|k: Seq<u8>| #[trigger]
                map_of(after).contains_key(k) <==> map_of(before).insert(
                    key@,
                    offset,
                ).contains_key(k) by {
                if map_of(after).contains_key(k) {
                    let j = lemma_mapped_has_slot(after, k);
                    if k != key@ {
                        assert(before[j].key@ == k);
                    }
                }
                if map_of(before).contains_key(k) {
                    let j = lemma_mapped_has_slot(before, k);
                    assert(after[j].key@ == k);
                }
                if k == key@ {
                    assert(exists|j: int| 0 <= j < after.len() && after[j].key@ == key@) by {
                        if before.len() == after.len() {
                            let j = choose|j: int| 0 <= j < before.len() && before[j].key@ == key@;
                            assert(after[j].key@ == key@);
                        } else {
                            assert(after[after.len() - 1].key@ == key@);
                        }
                    }
                }
            }
            assert forall|k: Seq<u8>| #[trigger]
                map_of(after).contains_key(k) implies map_of(after)[k] == map_of(before).insert(
                key@,
                offset,
            )[k] by {
                let j = lemma_mapped_has_slot(after, k);
                if k != key@ {
                    assert(before[j] == after[j]);
                    lemma_slot_is_mapped(before, j);
                }
            }
            assert(map_of(after) =~= map_of(before).insert(key@, offset));
        }
        *self = Index { slots, places };
    }

    /// Takes `key` out of the index and returns the offset that it had.
    /// Where the index had the key, the places of all keys are made anew.
    pub fn remove(&mut self, key: &[u8]) -> (offset: Option<u64>)
        ensures
            final(self)@ == old(self)@.remove(key@),
            offset == if old(self)@.contains_key(key@) {
                Some(old(self)@[key@])
            } else {
                None
            },
    {
        proof {
            use_type_invariant(&*self);
        }
        let ghost before = self.slots@;
        match self.position(key) {
            Some(i) => {
                let mut taken = Index::new();
                core::mem::swap(self, &mut taken);
                let mut slots = taken.slots;
                let slot = slots.swap_remove(i);
                let places = places_of(&slots);
                proof {
                    let after = slots@;
                    let last = before.len() - 1;
                    lemma_slot_is_mapped(before, i as int);
                    assert(distinct_keys(after));
                    assert forall|k: Seq<u8>| #[trigger]
                        map_of(after).contains_key(k) <==> map_of(before).remove(
                            key@,
                        ).contains_key(k) by {
                        if map_of(after).contains_key(k) {
                            let j = lemma_mapped_has_slot(after, k);
                            if j == i {
                                assert(before[last].key@ == k);
                            } else {
                                assert(before[j].key@ == k);
                            }
                        }
                        if map_of(before).contains_key(k) && k != key@ {
                            let j = lemma_mapped_has_slot(before, k);
                            if j == last {
                                assert(after[i as int].key@ == k);
                            } else {
                                assert(after[j].key@ == k);
                            }
                        }
                    }
                    assert forall|k: Seq<u8>| #[trigger]
                        map_of(after).contains_key(k) implies map_of(after)[k] == map_of(
                        before,
                    ).remove(key@)[k] by {
                        let j = lemma_mapped_has_slot(after, k);
                        if j == i {
                            lemma_slot_is_mapped(before, last);
                        } else {
                            lemma_slot_is_mapped(before, j);
                        }
                    }
                    assert(map_of(after) =~= map_of(before).remove(key@));
                }
                *self = Index { slots, places };
                Some(slot.offset)
            },
            None => {
                proof {
                    lemma_absent_is_unmapped(before, key@);
                    assert(map_of(before) =~= map_of(before).remove(key@));
                }
                None
            },
        }
    }

    /// The index as bytes from which [`Index::deserialize`] reads it back.
    /// There always are such bytes; which they are depends on the order in
    /// which the keys happen to be written.
    pub fn serialize(&self) -> (snapshot: Option<Vec<u8>>)
        ensures
            snapshot is Some,
            snapshot matches Some(bytes) ==> snapshot_map(bytes@) == Some(self@),
    {
        proof {
            use_type_invariant(self);
        }
        to_snapshot(&self.slots)
    }

    /// The index that `bytes` hold, or `None` if they hold none.
    pub fn deserialize(bytes: &[u8]) -> (index: Option<Index>)
        ensures
            match index {
                Some(index) => snapshot_map(bytes@) == Some(index@),
                None => snapshot_map(bytes@) is None,
            },
    {
        match from_snapshot(bytes) {
            Some(slots) => {
                let places = places_of(&slots);
                Some(Index { slots, places })
            },
            None => None,
        }
    }

    /// Enters the records of a scan in file order: each sets the offset of
    /// its key, and overwrites what the index had for that key.
    pub fn rebuild_from(&mut self, records: &Vec<ScannedRecord>)
        ensures
            final(self)@ == indexed(old(self)@, entries_of(records@)),
    {
        let mut i: usize = 0;
        while i < records.len()
            invariant
                i <= records@.len(),
                self@ == indexed(old(self)@, entries_of(records@).take(i as int)),
            decreases records@.len() - i,
        {
            proof {
                let entries = entries_of(records@);
                assert(entries.take(i + 1).drop_last() == entries.take(i as int));
            }
            self.set(records[i].pair.key.as_slice(), records[i].offset);
            i += 1;
        }
        assert(entries_of(records@).take(i as int) == entries_of(records@));
    }
}

} // verus!
