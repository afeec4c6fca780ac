//! The store: an append log and an index over it.
//!
//! A store is opened over the contents of its log, loaded once, and then
//! asked for keys. Every write adds a record at the end of the log and points
//! the index at it; nothing is ever rewritten. A deleted key is a key whose
//! latest record has an empty value.

use crate::codec::{encode, encoded, encoded_len, Decoded, Frame, KeyValuePair, Record};
use crate::index::{bytes_eq, indexed, last_match, snapshot_map, Index};
use crate::log::{entries_of, lemma_record_at_end, lemma_record_at_ignores_appended,
    lemma_scan_after_append, lemma_scanned_entry_decodes, record_at, scanned, AppendLog, LogEntry,
    Scanned};
use vstd::prelude::*;
use vstd::slice::slice_to_vec;

verus! {

/// Why an operation of the store failed.
#[derive(Debug, Clone, Copy, PartialEq, Eq, Structural)]
pub enum StoreError {
    /// No record starts at the offset: it is at or behind the end of the log.
    EndOfLog,
    /// A record ends before its time or does not have its checksum.
    Corruption,
    /// The key or the value is longer than a record can say, or the log would
    /// outgrow what can be addressed.
    RecordTooLarge,
    /// There is no snapshot of the index where one was looked for.
    Snapshot,
}

/// The state of a store, mathematically: the bytes of its log and the
/// mapping of its index.
pub struct StoreState {
    pub log: Seq<u8>,
    pub index: Map<Seq<u8>, u64>,
}

/// Whether a record of a key of `key_len` bytes and a value of `value_len`
/// bytes can be added to a log of `log_len` bytes: both lengths must fit the
/// 32 bits that the header has for them, and the log must stay addressable.
pub open spec fn record_fits(log_len: nat, key_len: nat, value_len: nat) -> bool {
    &&& key_len <= u32::MAX
    &&& value_len <= u32::MAX
    &&& log_len + encoded_len(key_len, value_len) <= usize::MAX
}

/// Whether a record of a key of `key_len` bytes and a value of `value_len`
/// bytes can be added to a log of `log_len` bytes.
pub fn can_hold(log_len: u64, key_len: usize, value_len: usize) -> (fits: bool)
    ensures
        fits == record_fits(log_len as nat, key_len as nat, value_len as nat),
{
    if key_len as u64 > u32::MAX as u64 || value_len as u64 > u32::MAX as u64 {
        return false;
    }
    let needed: u128 = log_len as u128 + 12 + key_len as u128 + value_len as u128;
    needed <= usize::MAX as u128
}

impl StoreState {
    /// The state after a load: the records of the log are entered into the
    /// index in file order, up to the end or to the first corrupt record.
    pub open spec fn loaded(self) -> StoreState {
        StoreState { log: self.log, index: indexed(self.index, scanned(self.log).entries) }
    }

    /// The state after the record of `key` and `value` was added to the log
    /// and the index left alone.
    pub open spec fn appended(self, key: Seq<u8>, value: Seq<u8>) -> StoreState {
        StoreState { log: self.log + encoded(key, value), index: self.index }
    }

    /// The state after `key` was given `value`: the record is added at the
    /// end of the log and the index points at it.
    pub open spec fn inserted(self, key: Seq<u8>, value: Seq<u8>) -> StoreState {
        StoreState {
            log: self.log + encoded(key, value),
            index: self.index.insert(key, self.log.len() as u64),
        }
    }

    /// The state after `key` was deleted: it was given the empty value.
    pub open spec fn deleted(self, key: Seq<u8>) -> StoreState {
        self.inserted(key, Seq::empty())
    }

    /// The state after `snapshot` was stored under `index_key`: the index
    /// holds nothing but the place of the snapshot.
    pub open spec fn with_snapshot(self, index_key: Seq<u8>, snapshot: Seq<u8>) -> StoreState {
        StoreState {
            log: self.log + encoded(index_key, snapshot),
            index: Map::<Seq<u8>, u64>::empty().insert(index_key, self.log.len() as u64),
        }
    }

    /// The record at `position`.
    pub open spec fn get_at(self, position: u64) -> Result<Record, StoreError> {
        match record_at(self.log, position as nat) {
            Frame::Record { record, len } => Ok(record),
            Frame::EndOfLog => Err(StoreError::EndOfLog),
            Frame::Corruption => Err(StoreError::Corruption),
        }
    }

    /// The value of `key`: that of the record at which the index points.
    pub open spec fn get(self, key: Seq<u8>) -> Result<Option<Seq<u8>>, StoreError> {
        if self.index.contains_key(key) {
            match self.get_at(self.index[key]) {
                Ok(record) => Ok(Some(record.value)),
                Err(error) => Err(error),
            }
        } else {
            Ok(None)
        }
    }

    /// The last record of `key` in the log, found without the index.
    pub open spec fn find(self, key: Seq<u8>) -> Result<Option<(u64, Seq<u8>)>, StoreError> {
        if scanned(self.log).clean {
            match last_match(scanned(self.log).entries, key) {
                Some(entry) => Ok(Some((entry.offset as u64, entry.record.value))),
                None => Ok(None),
            }
        } else {
            Err(StoreError::Corruption)
        }
    }

    /// The value of `key` by the snapshot of the index that is stored under
    /// `index_key`.
    pub open spec fn get_by_snapshot(self, index_key: Seq<u8>, key: Seq<u8>) -> Result<
        Option<Seq<u8>>,
        StoreError,
    > {
        match self.get(index_key) {
            Ok(Some(snapshot)) => match snapshot_map(snapshot) {
                Some(index) => StoreState { log: self.log, index }.get(key),
                None => Err(StoreError::Snapshot),
            },
            Ok(None) => Err(StoreError::Snapshot),
            Err(error) => Err(error),
        }
    }

    /// Every key of the index points at a record of that key.
    pub open spec fn consistent(self) -> bool {
        forall|key: Seq<u8>| #[trigger]
            self.index.contains_key(key) ==> (record_at(self.log, self.index[key] as nat) is Record
                && record_at(self.log, self.index[key] as nat)->record.key == key)
    }
}

/// What a result with a value in it stands for.
pub open spec fn value_view(result: Result<Option<Vec<u8>>, StoreError>) -> Result<
    Option<Seq<u8>>,
    StoreError,
> {
    match result {
        Ok(Some(value)) => Ok(Some(value@)),
        Ok(None) => Ok(None),
        Err(error) => Err(error),
    }
}

/// What a result with an offset and a value in it stands for.
pub open spec fn found_view(result: Result<Option<(u64, Vec<u8>)>, StoreError>) -> Result<
    Option<(u64, Seq<u8>)>,
    StoreError,
> {
    match result {
        Ok(Some((offset, value))) => Ok(Some((offset, value@))),
        Ok(None) => Ok(None),
        Err(error) => Err(error),
    }
}

/// What a result with a record in it stands for.
pub open spec fn pair_view(result: Result<KeyValuePair, StoreError>) -> Result<
    Record,
    StoreError,
> {
    match result {
        Ok(pair) => Ok(pair@),
        Err(error) => Err(error),
    }
}

/// A key-value store: the image of its log and its index.
#[derive(Debug)]
pub struct ActionKV {
    pub log: AppendLog,
    pub index_map: Index,
}

impl View for ActionKV {
    type V = StoreState;

    open spec fn view(&self) -> StoreState {
        StoreState { log: self.log@, index: self.index_map@ }
    }
}

impl ActionKV {
    /// Opens a store over the contents of its log, which are not looked at:
    /// the index is empty until [`ActionKV::load`] fills it.
    pub fn open(contents: Vec<u8>) -> (store: ActionKV)
        ensures
            store@ == (StoreState { log: contents@, index: Map::empty() }),
    {
        ActionKV { log: AppendLog::from_bytes(contents), index_map: Index::new() }
    }

    /// The end of the log: the offset at which the next record will start.
    pub fn seek_to_end(&self) -> (end: u64)
        ensures
            end == self@.log.len(),
    {
        self.log.len()
    }

    /// Scans the log from its start and enters every record into the index.
    ///
    /// The scan stops at the first record that does not decode. What was
    /// scanned up to there is in the index all the same, records behind it
    /// are not, and the result is `Corruption`.
    pub fn load(&mut self) -> (result: Result<(), StoreError>)
        ensures
            final(self)@ == old(self)@.loaded(),
            result == if scanned(old(self)@.log).clean {
                Ok::<(), StoreError>(())
            } else {
                Err::<(), StoreError>(StoreError::Corruption)
            },
    {
        let scan = self.log.scan();
        self.index_map.rebuild_from(&scan.records);
        if scan.clean {
            Ok(())
        } else {
            Err(StoreError::Corruption)
        }
    }

    /// The value of `key`, or `None` if the index does not have the key.
    ///
    /// The value is read from the record at which the index points. It is
    /// returned only if that record decodes, checksum included.
    pub fn get(&self, key: &[u8]) -> (result: Result<Option<Vec<u8>>, StoreError>)
        ensures
            value_view(result) == self@.get(key@),
    {
        let position = match self.index_map.lookup(key) {
            None => return Ok(None),
            Some(position) => position,
        };
        match self.get_at(position) {
            Ok(pair) => Ok(Some(pair.value)),
            Err(error) => Err(error),
        }
    }

    /// The record that starts at `position`.
    pub fn get_at(&self, position: u64) -> (result: Result<KeyValuePair, StoreError>)
        ensures
            pair_view(result) == self@.get_at(position),
    {
        match self.log.read_at(position) {
            Decoded::Record { pair, len } => Ok(pair),
            Decoded::EndOfLog => Err(StoreError::EndOfLog),
            Decoded::Corruption => Err(StoreError::Corruption),
        }
    }

    /// Looks for `target` in the log itself, without the index: the offset
    /// and the value of the last record whose key is `target`, or `None` if
    /// there is none. A log that does not scan to its end is corrupt.
    pub fn find(&self, target: &[u8]) -> (result: Result<Option<(u64, Vec<u8>)>, StoreError>)
        ensures
            found_view(result) == self@.find(target@),
    {
        let scan = self.log.scan();
        if !scan.clean {
            return Err(StoreError::Corruption);
        }
        let ghost entries = entries_of(scan.records@);
        let mut i: usize = scan.records.len();
        assert(entries.take(i as int) == entries);
        while i > 0
            invariant
                i <= scan.records@.len(),
                entries == entries_of(scan.records@),
                scanned(self@.log) == (Scanned { entries, clean: true }),
                last_match(entries, target@) == last_match(entries.take(i as int), target@),
            decreases i,
        {
            i -= 1;
            proof {
                assert(entries.take(i + 1).drop_last() == entries.take(i as int));
                assert(entries.take(i + 1).last() == entries[i as int]);
            }
            let record = &scan.records[i];
            if bytes_eq(record.pair.key.as_slice(), target) {
                return Ok(Some((record.offset, slice_to_vec(record.pair.value.as_slice()))));
            }
        }
        Ok(None)
    }

    /// Gives `key` the value `value`: adds the record at the end of the log
    /// and points the index at it.
    pub fn insert(&mut self, key: &[u8], value: &[u8]) -> (result: Result<(), StoreError>)
        ensures
            match result {
                Ok(()) => {
                    &&& record_fits(old(self)@.log.len(), key@.len(), value@.len())
                    &&& final(self)@ == old(self)@.inserted(key@, value@)
                },
                Err(error) => {
                    &&& !record_fits(old(self)@.log.len(), key@.len(), value@.len())
                    &&& error == StoreError::RecordTooLarge
                    &&& final(self)@ == old(self)@
                },
            },
    {
        match self.insert_but_ignore_index(key, value) {
            Ok(position) => {
                self.index_map.set(key, position);
                Ok(())
            },
            Err(error) => Err(error),
        }
    }

    /// Adds the record of `key` and `value` at the end of the log and
    /// returns the offset at which it starts. The index is left alone.
    pub fn insert_but_ignore_index(&mut self, key: &[u8], value: &[u8]) -> (result: Result<
        u64,
        StoreError,
    >)
        ensures
            match result {
                Ok(position) => {
                    &&& record_fits(old(self)@.log.len(), key@.len(), value@.len())
                    &&& position == old(self)@.log.len()
                    &&& final(self)@ == old(self)@.appended(key@, value@)
                },
                Err(error) => {
                    &&& !record_fits(old(self)@.log.len(), key@.len(), value@.len())
                    &&& error == StoreError::RecordTooLarge
                    &&& final(self)@ == old(self)@
                },
            },
    {
        if !can_hold(self.log.len(), key.len(), value.len()) {
            return Err(StoreError::RecordTooLarge);
        }
        let record = encode(key, value);
        let position = self.log.append(record.as_slice());
        Ok(position)
    }

    /// Gives `key` the value `value`, whether or not it had one: the same as
    /// [`ActionKV::insert`].
    #[inline]
    pub fn update(&mut self, key: &[u8], value: &[u8]) -> (result: Result<(), StoreError>)
        ensures
            match result {
                Ok(()) => {
                    &&& record_fits(old(self)@.log.len(), key@.len(), value@.len())
                    &&& final(self)@ == old(self)@.inserted(key@, value@)
                },
                Err(error) => {
                    &&& !record_fits(old(self)@.log.len(), key@.len(), value@.len())
                    &&& error == StoreError::RecordTooLarge
                    &&& final(self)@ == old(self)@
                },
            },
    {
        self.insert(key, value)
    }

    /// Deletes `key`: gives it the empty value. The key stays in the index,
    /// and its value is empty from now on.
    #[inline]
    pub fn delete(&mut self, key: &[u8]) -> (result: Result<(), StoreError>)
        ensures
            match result {
                Ok(()) => {
                    &&& record_fits(old(self)@.log.len(), key@.len(), 0)
                    &&& final(self)@ == old(self)@.deleted(key@)
                },
                Err(error) => {
                    &&& !record_fits(old(self)@.log.len(), key@.len(), 0)
                    &&& error == StoreError::RecordTooLarge
                    &&& final(self)@ == old(self)@
                },
            },
    {
        let empty: Vec<u8> = Vec::new();
        self.insert(key, empty.as_slice())
    }
    /// Stores `snapshot` under `index_key` as an ordinary record, and leaves
    /// in the index nothing but the place of that record.
    pub fn store_snapshot(&mut self, index_key: &[u8], snapshot: &[u8]) -> (result: Result<
        (),
        StoreError,
    >)
        ensures
            match result {
                Ok(()) => {
                    &&& record_fits(old(self)@.log.len(), index_key@.len(), snapshot@.len())
                    &&& final(self)@ == old(self)@.with_snapshot(index_key@, snapshot@)
                },
                Err(error) => {
                    &&& !record_fits(old(self)@.log.len(), index_key@.len(), snapshot@.len())
                    &&& error == StoreError::RecordTooLarge
                    &&& final(self)@ == old(self)@
                },
            },
    {
        match self.insert_but_ignore_index(index_key, snapshot) {
            Ok(position) => {
                self.index_map = Index::new();
                self.index_map.set(index_key, position);
                Ok(())
            },
            Err(error) => Err(error),
        }
    }

    /// The value of `key` by the snapshot of the index that is stored under
    /// `index_key`: the snapshot is read through the index in memory, the
    /// key is looked up in the snapshot, and the value is read from the
    /// record at which the snapshot points.
    pub fn get_by_snapshot(&self, index_key: &[u8], key: &[u8]) -> (result: Result<
        Option<Vec<u8>>,
        StoreError,
    >)
        ensures
            value_view(result) == self@.get_by_snapshot(index_key@, key@),
    {
        let snapshot = match self.get(index_key) {
            Ok(Some(snapshot)) => snapshot,
            Ok(None) => return Err(StoreError::Snapshot),
            Err(error) => return Err(error),
        };
        let index = match Index::deserialize(snapshot.as_slice()) {
            Some(index) => index,
            None => return Err(StoreError::Snapshot),
        };
        let position = match index.lookup(key) {
            None => return Ok(None),
            Some(position) => position,
        };
        match self.get_at(position) {
            Ok(pair) => Ok(Some(pair.value)),
            Err(error) => Err(error),
        }
    }
}

/// Keeps the index in the log: takes `index_key` out of the index, stores
/// what is left as a snapshot under `index_key`, and leaves in the index
/// nothing but the place of the snapshot. That fails only where the record
/// of the snapshot does not fit, and then the store is as it was.
pub fn store_index_on_disk(store: &mut ActionKV, index_key: &[u8]) -> (result: Result<
    (),
    StoreError,
>)
    ensures
        match result {
            Ok(()) => exists|snapshot: Seq<u8>|
                {
                    &&& snapshot_map(snapshot) == Some(old(store)@.index.remove(index_key@))
                    &&& record_fits(old(store)@.log.len(), index_key@.len(), snapshot.len())
                    &&& final(store)@ == #[trigger] old(store)@.with_snapshot(index_key@, snapshot)
                },
            Err(error) => {
                &&& error == StoreError::RecordTooLarge
                &&& final(store)@ == old(store)@
                &&& exists|snapshot: Seq<u8>|
                    {
                        &&& #[trigger] snapshot_map(snapshot) == Some(
                            old(store)@.index.remove(index_key@),
                        )
                        &&& !record_fits(
                            old(store)@.log.len(),
                            index_key@.len(),
                            snapshot.len(),
                        )
                    }
            },
        },
{
    let removed = store.index_map.remove(index_key);
    let stored = match store.index_map.serialize() {
        Some(snapshot) => {
            let stored = store.store_snapshot(index_key, snapshot.as_slice());
            assert(stored is Ok ==> store@ == old(store)@.with_snapshot(index_key@, snapshot@));
            assert(snapshot_map(snapshot@) == Some(old(store)@.index.remove(index_key@)));
            stored
        },
        None => Err(StoreError::Snapshot),
    };
    if stored.is_err() {
        match removed {
            Some(position) => {
                store.index_map.set(index_key, position);
                assert(store.index_map@ =~= old(store).index_map@);
            },
            None => {
                assert(store.index_map@ =~= old(store).index_map@);
            },
        }
    }
    stored
}

/// What the index has for a key after the entries of a scan were entered:
/// the offset of the last entry of that key, and what it had before if there
/// is no such entry.
pub proof fn lemma_indexed_points_at_last(
    base: Map<Seq<u8>, u64>,
    entries: Seq<LogEntry>,
    key: Seq<u8>,
)
    ensures
        match last_match(entries, key) {
            Some(entry) => {
                &&& indexed(base, entries).contains_key(key)
                &&& indexed(base, entries)[key] == entry.offset as u64
                &&& entry.record.key == key
                &&& exists|i: int| 0 <= i < entries.len() && entries[i] == entry
            },
            None => {
                &&& indexed(base, entries).contains_key(key) == base.contains_key(key)
                &&& base.contains_key(key) ==> indexed(base, entries)[key] == base[key]
            },
        },
    decreases entries.len(),
{
    if entries.len() > 0 {
        lemma_indexed_points_at_last(base, entries.drop_last(), key);
        if entries.last().record.key == key {
            assert(entries[entries.len() - 1] == entries.last());
        } else if last_match(entries, key) is Some {
            let entry = last_match(entries, key)->0;
            let i = choose|i: int|
                0 <= i < entries.drop_last().len() && entries.drop_last()[i] == entry;
            assert(entries[i] == entry);
        }
    }
}

/// After a load into an empty index, the index agrees with the log: where
/// the log scans to its end, asking the index for a key gives what a search
/// of the log gives, the value of the last record of that key or nothing,
/// and the index points at that very record.
pub proof fn lemma_loaded_index_agrees_with_log(state: StoreState, key: Seq<u8>)
    requires
        state.index == Map::<Seq<u8>, u64>::empty(),
        scanned(state.log).clean,
        state.log.len() <= u64::MAX,
    ensures
        state.loaded().consistent(),
        match state.find(key) {
            Ok(Some((offset, value))) => {
                &&& state.loaded().index.contains_key(key)
                &&& state.loaded().index[key] == offset
                &&& state.loaded().get(key) == Ok::<Option<Seq<u8>>, StoreError>(Some(value))
            },
            Ok(None) => {
                &&& !state.loaded().index.contains_key(key)
                &&& state.loaded().get(key) == Ok::<Option<Seq<u8>>, StoreError>(None)
            },
            Err(error) => false,
        },
{
    let entries = scanned(state.log).entries;
    assert forall|k: Seq<u8>| #[trigger] state.loaded().index.contains_key(k) implies (record_at(
        state.log,
        state.loaded().index[k] as nat,
    ) is Record && record_at(state.log, state.loaded().index[k] as nat)->record.key == k) by {
        lemma_indexed_points_at_last(state.index, entries, k);
        let entry = last_match(entries, k)->0;
        let i = choose|i: int| 0 <= i < entries.len() && entries[i] == entry;
        lemma_scanned_entry_decodes(state.log, 0, i);
    }
    lemma_indexed_points_at_last(state.index, entries, key);
    if last_match(entries, key) is Some {
        let entry = last_match(entries, key)->0;
        let i = choose|i: int| 0 <= i < entries.len() && entries[i] == entry;
        lemma_scanned_entry_decodes(state.log, 0, i);
    }
}

/// A key that was given a value has that value, whatever the store held
/// before.
pub proof fn lemma_get_after_insert(state: StoreState, key: Seq<u8>, value: Seq<u8>)
    requires
        state.log.len() <= u64::MAX,
        key.len() <= u32::MAX,
        value.len() <= u32::MAX,
    ensures
        state.inserted(key, value).index.contains_key(key),
        state.inserted(key, value).get(key) == Ok::<Option<Seq<u8>>, StoreError>(Some(value)),
{
    lemma_record_at_end(state.log, key, value);
}

/// Giving one key a value leaves every other key with the record it had:
/// a key whose record decoded before has the same value afterwards.
pub proof fn lemma_get_other_after_insert(
    state: StoreState,
    key: Seq<u8>,
    value: Seq<u8>,
    other: Seq<u8>,
)
    requires
        other != key,
        state.get(other) is Ok,
    ensures
        state.inserted(key, value).get(other) == state.get(other),
{
    if state.index.contains_key(other) {
        lemma_record_at_ignores_appended(
            state.log,
            state.index[other] as nat,
            encoded(key, value),
        );
    }
}

/// An index that agrees with its log still does after an insert.
pub proof fn lemma_insert_keeps_consistent(state: StoreState, key: Seq<u8>, value: Seq<u8>)
    requires
        state.consistent(),
        state.log.len() <= u64::MAX,
        key.len() <= u32::MAX,
        value.len() <= u32::MAX,
    ensures
        state.inserted(key, value).consistent(),
{
    let after = state.inserted(key, value);
    lemma_record_at_end(state.log, key, value);
    assert forall|k: Seq<u8>| #[trigger] after.index.contains_key(k) implies (record_at(
        after.log,
        after.index[k] as nat,
    ) is Record && record_at(after.log, after.index[k] as nat)->record.key == k) by {
        if k != key {
            assert(state.index.contains_key(k));
            lemma_record_at_ignores_appended(
                state.log,
                state.index[k] as nat,
                encoded(key, value),
            );
        }
    }
}

/// Last write wins: after `key` was given `first` and then `second`, a load
/// from scratch finds `second` for it. The index points at the second
/// record; the first is still in the log, where it was written, and the
/// index does not lead to it.
pub proof fn lemma_last_write_wins(
    state: StoreState,
    key: Seq<u8>,
    first: Seq<u8>,
    second: Seq<u8>,
)
    requires
        scanned(state.log).clean,
        key.len() <= u32::MAX,
        first.len() <= u32::MAX,
        second.len() <= u32::MAX,
        state.log.len() + encoded_len(key.len(), first.len()) + encoded_len(
            key.len(),
            second.len(),
        ) <= u64::MAX,
    ensures
        ({
            let written = state.inserted(key, first).inserted(key, second);
            let fresh = StoreState { log: written.log, index: Map::empty() }.loaded();
            let first_at = state.log.len();
            let second_at = state.log.len() + encoded_len(key.len(), first.len());
            &&& fresh.get(key) == Ok::<Option<Seq<u8>>, StoreError>(Some(second))
            &&& fresh.index[key] == second_at
            &&& fresh.index[key] != first_at
            &&& record_at(fresh.log, first_at) is Record
            &&& record_at(fresh.log, first_at)->record == (Record { key, value: first })
        }),
{
    let once = state.log + encoded(key, first);
    let twice = once + encoded(key, second);
    lemma_scan_after_append(state.log, key, first);
    lemma_scan_after_append(once, key, second);
    lemma_record_at_end(state.log, key, first);
    lemma_record_at_end(once, key, second);
    lemma_record_at_ignores_appended(once, state.log.len(), encoded(key, second));
    let entries = scanned(twice).entries;
    assert(entries.last().record.key == key);
    lemma_loaded_index_agrees_with_log(StoreState { log: twice, index: Map::empty() }, key);
}

/// Delete semantics: a deleted key is not absent. The index has it, and its
/// value is empty.
pub proof fn lemma_deleted_key_has_empty_value(state: StoreState, key: Seq<u8>)
    requires
        state.log.len() <= u64::MAX,
        key.len() <= u32::MAX,
    ensures
        state.deleted(key).index.contains_key(key),
        state.deleted(key).get(key) == Ok::<Option<Seq<u8>>, StoreError>(
            Some(Seq::<u8>::empty()),
        ),
{
    lemma_get_after_insert(state, key, Seq::empty());
}

/// Entering the same entries a second time changes nothing.
proof fn lemma_indexed_twice(base: Map<Seq<u8>, u64>, entries: Seq<LogEntry>)
    ensures
        indexed(indexed(base, entries), entries) == indexed(base, entries),
{
    let once = indexed(base, entries);
    let twice = indexed(once, entries);
    assert forall|key: Seq<u8>|
        #![trigger once.contains_key(key)]
        #![trigger twice.contains_key(key)]
        once.contains_key(key) == twice.contains_key(key) && (once.contains_key(key)
            ==> once[key] == twice[key]) by {
        lemma_indexed_points_at_last(base, entries, key);
        lemma_indexed_points_at_last(once, entries, key);
    }
    assert(once =~= twice);
}

/// Idempotent reload: a second load, with no write in between, leaves the
/// store as the first load left it.
pub proof fn lemma_reload_changes_nothing(state: StoreState)
    ensures
        state.loaded().loaded() == state.loaded(),
{
    lemma_indexed_twice(state.index, scanned(state.log).entries);
}

} // verus!
