//! The append log: records packed end to end from offset 0, with no header,
//! no footer and no padding. Bytes are only ever added at the end.
//!
//! [`AppendLog`] holds the image of the log in memory. Whoever owns the
//! backing file reads it into an image with [`AppendLog::from_bytes`] and
//! writes what [`AppendLog::tail`] returns behind what the file already has.

use crate::codec::{decode, encoded, encoded_len, frame, lemma_decoded_is_stored,
    lemma_frame_ignores_rest, lemma_round_trip, Decoded, Frame, KeyValuePair, Record};
use vstd::prelude::*;
use vstd::slice::slice_subrange;

verus! {

/// A record together with the offset at which it starts in the log.
pub struct LogEntry {
    pub offset: nat,
    pub record: Record,
}

/// What a scan of a log yields, mathematically: the records in file order up
/// to the end of the log or to the first one that does not decode, and
/// whether the end was reached.
pub struct Scanned {
    pub entries: Seq<LogEntry>,
    pub clean: bool,
}

/// Decoding of the record that starts at `offset` in `log`. At the end of the
/// log, and behind it, there is none.
pub open spec fn record_at(log: Seq<u8>, offset: nat) -> Frame {
    if offset <= log.len() {
        frame(log.subrange(offset as int, log.len() as int))
    } else {
        Frame::EndOfLog
    }
}

/// The scan of `log` from `offset` on: one record after the other, each
/// starting where the one before it ended, until the log ends or a record
/// does not decode.
pub open spec fn scanned_from(log: Seq<u8>, offset: nat) -> Scanned
    decreases log.len() - offset,
{
    match record_at(log, offset) {
        Frame::Record { record, len } => {
            let rest = scanned_from(log, offset + len);
            Scanned { entries: seq![LogEntry { offset, record }] + rest.entries, clean: rest.clean }
        },
        Frame::EndOfLog => Scanned { entries: Seq::empty(), clean: true },
        Frame::Corruption => Scanned { entries: Seq::empty(), clean: false },
    }
}

/// The scan of the whole of `log`.
pub open spec fn scanned(log: Seq<u8>) -> Scanned {
    scanned_from(log, 0)
}

/// The log that holds the given records and nothing else.
pub open spec fn log_of(records: Seq<Record>) -> Seq<u8>
    decreases records.len(),
{
    if records.len() == 0 {
        Seq::empty()
    } else {
        log_of(records.drop_last()) + encoded(records.last().key, records.last().value)
    }
}

/// Whether every one of `records` can be framed: its key and its value are
/// each at most `u32::MAX` bytes long.
pub open spec fn can_be_framed(records: Seq<Record>) -> bool {
    forall|i: int|
        0 <= i < records.len() ==> (#[trigger] records[i]).key.len() <= u32::MAX
            && records[i].value.len() <= u32::MAX
}

/// Bytes added at the end of a log do not change the records in front of
/// them.
pub proof fn lemma_record_at_ignores_appended(log: Seq<u8>, offset: nat, more: Seq<u8>)
    requires
        record_at(log, offset) is Record,
    ensures
        record_at(log + more, offset) == record_at(log, offset),
{
    let source = log.subrange(offset as int, log.len() as int);
    let long = log + more;
    assert(long.subrange(offset as int, long.len() as int) == source + more);
    lemma_frame_ignores_rest(source, more);
}

/// The record that was added last to a log decodes at the offset that was
/// the end of the log before.
pub proof fn lemma_record_at_end(log: Seq<u8>, key: Seq<u8>, value: Seq<u8>)
    requires
        key.len() <= u32::MAX,
        value.len() <= u32::MAX,
    ensures
        record_at(log + encoded(key, value), log.len()) == (Frame::Record {
            record: Record { key, value },
            len: encoded_len(key.len(), value.len()),
        }),
        (log + encoded(key, value)).len() == log.len() + encoded_len(key.len(), value.len()),
{
    let long = log + encoded(key, value);
    assert(long.subrange(log.len() as int, long.len() as int) == encoded(key, value));
    lemma_round_trip(key, value, Seq::empty());
}

/// Every entry of a scan is the record that decodes at the entry's offset,
/// which lies in the log at or behind the offset from which the scan began.
pub proof fn lemma_scanned_entry_decodes(log: Seq<u8>, offset: nat, i: int)
    requires
        0 <= i < scanned_from(log, offset).entries.len(),
    ensures
        ({
            let entry = scanned_from(log, offset).entries[i];
            &&& offset <= entry.offset < log.len()
            &&& record_at(log, entry.offset) is Record
            &&& record_at(log, entry.offset)->record == entry.record
        }),
    decreases log.len() - offset,
{
    let frame = record_at(log, offset);
    if i > 0 {
        lemma_scanned_entry_decodes(log, offset + frame->len, i - 1);
    }
}

/// A scan that began at `offset` and reached the end of the log reaches it
/// again after one more record was added, with that record as its last.
proof fn lemma_scan_from_after_append(log: Seq<u8>, offset: nat, key: Seq<u8>, value: Seq<u8>)
    requires
        offset <= log.len(),
        scanned_from(log, offset).clean,
        key.len() <= u32::MAX,
        value.len() <= u32::MAX,
    ensures
        scanned_from(log + encoded(key, value), offset) == (Scanned {
            entries: scanned_from(log, offset).entries.push(
                LogEntry { offset: log.len(), record: Record { key, value } },
            ),
            clean: true,
        }),
    decreases log.len() - offset,
{
    let long = log + encoded(key, value);
    let added = LogEntry { offset: log.len(), record: Record { key, value } };
    match record_at(log, offset) {
        Frame::Record { record, len } => {
            lemma_record_at_ignores_appended(log, offset, encoded(key, value));
            lemma_scan_from_after_append(log, offset + len, key, value);
            let head = seq![LogEntry { offset, record }];
            let rest = scanned_from(log, offset + len).entries;
            assert(head + rest.push(added) == (head + rest).push(added));
        },
        Frame::EndOfLog => {
            lemma_record_at_end(log, key, value);
            assert(record_at(long, long.len()) is EndOfLog);
            assert(scanned_from(long, long.len()).entries == Seq::<LogEntry>::empty());
            assert(seq![added] + Seq::<LogEntry>::empty() == Seq::<LogEntry>::empty().push(
                added,
            ));
        },
        Frame::Corruption => {},
    }
}

/// The empty log scans to its end and holds no record.
pub proof fn lemma_scan_of_empty()
    ensures
        scanned(Seq::<u8>::empty()) == (Scanned { entries: Seq::empty(), clean: true }),
{
}

/// A log that scans to its end still does so after a record was added to
/// it, and the scan yields what it yielded before and then the new record,
/// at the offset that was the end of the log.
pub proof fn lemma_scan_after_append(log: Seq<u8>, key: Seq<u8>, value: Seq<u8>)
    requires
        scanned(log).clean,
        key.len() <= u32::MAX,
        value.len() <= u32::MAX,
    ensures
        scanned(log + encoded(key, value)) == (Scanned {
            entries: scanned(log).entries.push(
                LogEntry { offset: log.len(), record: Record { key, value } },
            ),
            clean: true,
        }),
{
    lemma_scan_from_after_append(log, 0, key, value);
}

/// Scan completeness: the log that was made by adding the given records one
/// after the other scans to its end, and the scan yields as many entries as
/// records were added: each record itself, in the order of the additions,
/// at the offset that was the end of the log when it was added.
pub proof fn lemma_scan_of_records(records: Seq<Record>)
    requires
        can_be_framed(records),
    ensures
        scanned(log_of(records)).clean,
        scanned(log_of(records)).entries.len() == records.len(),
        forall|i: int|
            0 <= i < records.len() ==> (#[trigger] scanned(log_of(records)).entries[i])
                == (LogEntry { offset: log_of(records.take(i)).len(), record: records[i] }),
    decreases records.len(),
{
    if records.len() == 0 {
        lemma_scan_of_empty();
    } else {
        let front = records.drop_last();
        let last = records.last();
        lemma_scan_of_records(front);
        lemma_scan_after_append(log_of(front), last.key, last.value);
        assert(records.take(records.len() - 1) == front);
        let entries = scanned(log_of(records)).entries;
        assert forall|i: int| 0 <= i < records.len() implies (#[trigger] entries[i]) == (LogEntry {
            offset: log_of(records.take(i)).len(),
            record: records[i],
        }) by {
            if i < front.len() {
                assert(front.take(i) == records.take(i));
            }
        }
    }
}

/// A record of a scan, with the offset at which it starts.
#[derive(Debug)]
pub struct ScannedRecord {
    pub offset: u64,
    pub pair: KeyValuePair,
}

impl View for ScannedRecord {
    type V = LogEntry;

    open spec fn view(&self) -> LogEntry {
        LogEntry { offset: self.offset as nat, record: self.pair@ }
    }
}

/// What [`AppendLog::scan`] returns.
#[derive(Debug)]
pub struct Scan {
    /// The records in file order.
    pub records: Vec<ScannedRecord>,
    /// Whether the scan reached the end of the log. If not, the record behind
    /// the last of `records` is corrupt.
    pub clean: bool,
}

/// The entries that a vector of scanned records stands for.
pub open spec fn entries_of(records: Seq<ScannedRecord>) -> Seq<LogEntry> {
    Seq::new(records.len(), |i: int| records[i]@)
}

impl View for Scan {
    type V = Scanned;

    open spec fn view(&self) -> Scanned {
        Scanned { entries: entries_of(self.records@), clean: self.clean }
    }
}

/// The image of an append-only log.
#[derive(Debug)]
pub struct AppendLog {
    bytes: Vec<u8>,
}

impl View for AppendLog {
    type V = Seq<u8>;

    closed spec fn view(&self) -> Seq<u8> {
        self.bytes@
    }
}

impl AppendLog {
    /// The log without any record.
    pub fn new() -> (log: AppendLog)
        ensures
            log@ == Seq::<u8>::empty(),
    {
        AppendLog { bytes: Vec::new() }
    }

    /// The log whose contents are `bytes`, which are taken as they are.
    pub fn from_bytes(bytes: Vec<u8>) -> (log: AppendLog)
        ensures
            log@ == bytes@,
    {
        AppendLog { bytes }
    }

    /// The length of the log, which is the offset at which the next record
    /// will start.
    pub fn len(&self) -> (len: u64)
        ensures
            len == self@.len(),
    {
        self.bytes.len() as u64
    }

    /// The whole contents of the log.
    pub fn as_bytes(&self) -> (bytes: &[u8])
        ensures
            bytes@ == self@,
    {
        self.bytes.as_slice()
    }

    /// The contents of the log from `offset` on; nothing, if `offset` is at
    /// or behind the end.
    pub fn tail(&self, offset: u64) -> (bytes: &[u8])
        ensures
            bytes@ == if offset <= self@.len() {
                self@.subrange(offset as int, self@.len() as int)
            } else {
                Seq::<u8>::empty()
            },
    {
        let len = self.bytes.len();
        if offset <= len as u64 {
            slice_subrange(self.bytes.as_slice(), offset as usize, len)
        } else {
            slice_subrange(self.bytes.as_slice(), len, len)
        }
    }

    /// Appends `bytes` at the end of the log and returns the offset at which
    /// they start.
    pub fn append(&mut self, bytes: &[u8]) -> (offset: u64)
        ensures
            final(self)@ == old(self)@ + bytes@,
            offset == old(self)@.len(),
    {
        let offset = self.bytes.len() as u64;
        self.bytes.extend_from_slice(bytes);
        assert(self.bytes@ =~= old(self).bytes@ + bytes@);
        offset
    }

    /// Decodes the record that starts at `offset`.
    pub fn read_at(&self, offset: u64) -> (outcome: Decoded)
        ensures
            outcome@ == record_at(self@, offset as nat),
    {
        decode(self.tail(offset))
    }

    /// Scans the log from offset 0: decodes record after record until the
    /// log ends or a record does not decode, where the scan stops.
    pub fn scan(&self) -> (scan: Scan)
        ensures
            scan@ == scanned(self@),
    {
        let total = self.len();
        let mut records: Vec<ScannedRecord> = Vec::new();
        let mut offset: u64 = 0;
        let mut clean = false;
        let mut done = false;
        while !done
            invariant
                total == self@.len(),
                offset <= total,
                !done ==> !clean,
                !done ==> scanned(self@) == (Scanned {
                    entries: entries_of(records@) + scanned_from(self@, offset as nat).entries,
                    clean: scanned_from(self@, offset as nat).clean,
                }),
                done ==> scanned(self@) == (Scanned { entries: entries_of(records@), clean }),
            decreases self@.len() - offset + if done { 0int } else { 1int },
        {
            match self.read_at(offset) {
                Decoded::Record { pair, len } => {
                    proof {
                        lemma_decoded_is_stored(self@.subrange(offset as int, self@.len() as int));
                        let rest = scanned_from(self@, (offset + len) as nat);
                        let entry = LogEntry { offset: offset as nat, record: pair@ };
                        assert(entries_of(records@.push(ScannedRecord { offset, pair }))
                            + rest.entries == entries_of(records@) + (seq![entry] + rest.entries));
                    }
                    records.push(ScannedRecord { offset, pair });
                    offset = offset + len as u64;
                },
                Decoded::EndOfLog => {
                    assert(entries_of(records@) + Seq::<LogEntry>::empty() == entries_of(
                        records@,
                    ));
                    clean = true;
                    done = true;
                },
                Decoded::Corruption => {
                    assert(entries_of(records@) + Seq::<LogEntry>::empty() == entries_of(
                        records@,
                    ));
                    done = true;
                },
            }
        }
        Scan { records, clean }
    }
}

} // verus!
