//! The record codec: one key-value pair framed as
//! `[checksum:4][key_length:4][value_length:4][key][value]`, every integer
//! little-endian, the checksum CRC-32/CKSUM over `key ++ value`.

use byteorder::{ByteOrder, LittleEndian};
use crc::{Crc, CRC_32_CKSUM};
use vstd::prelude::*;
use vstd::slice::{slice_subrange, slice_to_vec};

verus! {

/// Number of bytes in front of every record's key: checksum, key length and
/// value length, four bytes each.
pub const HEADER_LEN: usize = 12;

/// A key with its value, as stored in one record of the log.
#[derive(Debug)]
pub struct KeyValuePair {
    pub key: Vec<u8>,
    pub value: Vec<u8>,
}

/// The mathematical content of a record.
pub struct Record {
    pub key: Seq<u8>,
    pub value: Seq<u8>,
}

impl View for KeyValuePair {
    type V = Record;

    open spec fn view(&self) -> Record {
        Record { key: self.key@, value: self.value@ }
    }
}

/// What decoding the front of a byte sequence yields, mathematically.
pub enum Frame {
    /// A whole record with a matching checksum; `len` bytes were consumed.
    Record { record: Record, len: nat },
    /// The source is empty: the log ends cleanly here.
    EndOfLog,
    /// The source ends inside a record, or the stored checksum differs from
    /// the checksum of the payload.
    Corruption,
}

/// What [`decode`] returns.
#[derive(Debug)]
pub enum Decoded {
    /// A whole record with a matching checksum; it occupied `len` bytes.
    Record { pair: KeyValuePair, len: usize },
    /// The source is empty: the log ends cleanly here.
    EndOfLog,
    /// The source ends inside a record, or the stored checksum differs from
    /// the checksum of the payload.
    Corruption,
}

impl View for Decoded {
    type V = Frame;

    open spec fn view(&self) -> Frame {
        match self {
            Decoded::Record { pair, len } => Frame::Record { record: pair@, len: *len as nat },
            Decoded::EndOfLog => Frame::EndOfLog,
            Decoded::Corruption => Frame::Corruption,
        }
    }
}

/// The CRC-32/CKSUM checksum of `data`, as the `crc` crate computes it.
pub uninterp spec fn crc32_cksum(data: Seq<u8>) -> u32;

/// The four bytes of `n`, least significant first.
pub open spec fn le_bytes(n: u32) -> Seq<u8> {
    seq![
        (n % 256) as u8,
        ((n / 256) % 256) as u8,
        ((n / 65536) % 256) as u8,
        (n / 16777216) as u8,
    ]
}

/// The number whose little-endian representation is the first four bytes of
/// `bytes`.
pub open spec fn le_value(bytes: Seq<u8>) -> nat
    recommends
        bytes.len() >= 4,
{
    (bytes[0] + 256 * bytes[1] + 65536 * bytes[2] + 16777216 * bytes[3]) as nat
}

/// The bytes of the record that holds `key` and `value`.
pub open spec fn encoded(key: Seq<u8>, value: Seq<u8>) -> Seq<u8>
    recommends
        key.len() <= u32::MAX,
        value.len() <= u32::MAX,
{
    le_bytes(crc32_cksum(key + value)) + le_bytes(key.len() as u32) + le_bytes(value.len() as u32)
        + key + value
}

/// Number of bytes that the record of a key of `key_len` bytes and a value of
/// `value_len` bytes occupies.
pub open spec fn encoded_len(key_len: nat, value_len: nat) -> nat {
    HEADER_LEN as nat + key_len + value_len
}

/// The checksum that the header at the front of `source` stores.
pub open spec fn stored_checksum(source: Seq<u8>) -> nat
    recommends
        source.len() >= HEADER_LEN,
{
    le_value(source.subrange(0, 4))
}

/// The key length that the header at the front of `source` stores.
pub open spec fn stored_key_len(source: Seq<u8>) -> nat
    recommends
        source.len() >= HEADER_LEN,
{
    le_value(source.subrange(4, 8))
}

/// The value length that the header at the front of `source` stores.
pub open spec fn stored_value_len(source: Seq<u8>) -> nat
    recommends
        source.len() >= HEADER_LEN,
{
    le_value(source.subrange(8, 12))
}

/// Decoding of the record at the front of `source`.
pub open spec fn frame(source: Seq<u8>) -> Frame {
    if source.len() == 0 {
        Frame::EndOfLog
    } else if source.len() < HEADER_LEN {
        Frame::Corruption
    } else {
        let key_end = HEADER_LEN + stored_key_len(source);
        let end = key_end + stored_value_len(source);
        if source.len() < end {
            Frame::Corruption
        } else {
            let key = source.subrange(HEADER_LEN as int, key_end);
            let value = source.subrange(key_end, end);
            if crc32_cksum(key + value) == stored_checksum(source) {
                Frame::Record { record: Record { key, value }, len: end as nat }
            } else {
                Frame::Corruption
            }
        }
    }
}

/// Calls `checksum` of `crc::Crc::<u32>` for the algorithm `CRC_32_CKSUM`,
/// and names what it returns: the checksum is a function of the bytes alone.
#[verifier::external_body]
pub(crate) fn checksum(data: &[u8]) -> (sum: u32)
    ensures
        sum == crc32_cksum(data@),
{
    Crc::<u32>::new(&CRC_32_CKSUM).checksum(data)
}

/// Calls `byteorder::LittleEndian::read_u32`, which reads the first four
/// bytes of the buffer as a little-endian number and panics on a shorter one.
#[verifier::external_body]
fn read_u32_le(buf: &[u8]) -> (n: u32)
    requires
        buf@.len() >= 4,
    ensures
        n == le_value(buf@),
{
    LittleEndian::read_u32(buf)
}

/// Calls `byteorder::LittleEndian::write_u32` on a buffer of four bytes,
/// which it fills with the little-endian representation of `n`.
#[verifier::external_body]
fn write_u32_le(n: u32) -> (buf: [u8; 4])
    ensures
        buf@ == le_bytes(n),
{
    let mut buf = [0u8; 4];
    LittleEndian::write_u32(&mut buf, n);
    buf
}

/// Little-endian encoding loses nothing: four bytes are written, and reading
/// them gives the number back.
pub proof fn lemma_le_round_trip(n: u32)
    ensures
        le_bytes(n).len() == 4,
        le_value(le_bytes(n)) == n,
{
    assert((n % 256) + 256 * ((n / 256) % 256) + 65536 * ((n / 65536) % 256) + 16777216 * (n
        / 16777216) == n) by (bit_vector);
    assert(n / 16777216 < 256) by (bit_vector);
}

/// The three header fields of the record of `key` and `value` read back as
/// they were written.
proof fn lemma_header_of_encoded(key: Seq<u8>, value: Seq<u8>, rest: Seq<u8>)
    requires
        key.len() <= u32::MAX,
        value.len() <= u32::MAX,
    ensures
        stored_checksum(encoded(key, value) + rest) == crc32_cksum(key + value),
        stored_key_len(encoded(key, value) + rest) == key.len(),
        stored_value_len(encoded(key, value) + rest) == value.len(),
        (encoded(key, value) + rest).len() == encoded_len(key.len(), value.len()) + rest.len(),
{
    let source = encoded(key, value) + rest;
    lemma_le_round_trip(crc32_cksum(key + value));
    lemma_le_round_trip(key.len() as u32);
    lemma_le_round_trip(value.len() as u32);
    assert(source.subrange(0, 4) == le_bytes(crc32_cksum(key + value)));
    assert(source.subrange(4, 8) == le_bytes(key.len() as u32));
    assert(source.subrange(8, 12) == le_bytes(value.len() as u32));
}

/// Round trip: decoding the record of `key` and `value` gives back `key`
/// and `value` and consumes exactly the record, whatever follows it.
pub proof fn lemma_round_trip(key: Seq<u8>, value: Seq<u8>, rest: Seq<u8>)
    requires
        key.len() <= u32::MAX,
        value.len() <= u32::MAX,
    ensures
        frame(encoded(key, value) + rest) == (Frame::Record {
            record: Record { key, value },
            len: encoded_len(key.len(), value.len()),
        }),
        frame(encoded(key, value)) == frame(encoded(key, value) + rest),
{
    lemma_header_of_encoded(key, value, rest);
    lemma_header_of_encoded(key, value, Seq::empty());
    let key_end = HEADER_LEN + key.len();
    let end = key_end + value.len();
    let long = encoded(key, value) + rest;
    assert(long.subrange(HEADER_LEN as int, key_end as int) == key);
    assert(long.subrange(key_end as int, end as int) == value);
    let short = encoded(key, value) + Seq::<u8>::empty();
    assert(short == encoded(key, value));
    assert(short.subrange(HEADER_LEN as int, key_end as int) == key);
    assert(short.subrange(key_end as int, end as int) == value);
}

/// A decoded record is what the source holds: the bytes that were consumed
/// are the encoding of the record that came out, so its checksum is the
/// stored one and nothing but the stored key and value is returned.
pub proof fn lemma_decoded_is_stored(source: Seq<u8>)
    requires
        frame(source) is Record,
    ensures
        ({
            let record = frame(source)->record;
            let len = frame(source)->len;
            &&& len == encoded_len(record.key.len(), record.value.len())
            &&& len <= source.len()
            &&& record.key.len() <= u32::MAX
            &&& record.value.len() <= u32::MAX
            &&& source.subrange(0, len as int) == encoded(record.key, record.value)
        }),
{
    let record = frame(source)->record;
    let len = frame(source)->len;
    lemma_le_bytes_of_value(source.subrange(0, 4));
    lemma_le_bytes_of_value(source.subrange(4, 8));
    lemma_le_bytes_of_value(source.subrange(8, 12));
    assert(source.subrange(0, len as int) == encoded(record.key, record.value));
}

/// Four bytes are the little-endian representation of the number that they
/// are read as.
proof fn lemma_le_bytes_of_value(bytes: Seq<u8>)
    requires
        bytes.len() == 4,
    ensures
        le_value(bytes) <= u32::MAX,
        le_bytes(le_value(bytes) as u32) == bytes,
{
    let (b0, b1, b2, b3) = (bytes[0], bytes[1], bytes[2], bytes[3]);
    let n = (b0 + 256 * b1 + 65536 * b2 + 16777216 * b3) as u32;
    assert(n == b0 + 256 * b1 + 65536 * b2 + 16777216 * b3);
    assert(n % 256 == b0 && (n / 256) % 256 == b1 && (n / 65536) % 256 == b2 && n / 16777216
        == b3) by (bit_vector)
        requires
            n == b0 + 256 * b1 + 65536 * b2 + 16777216 * b3,
    ;
    assert(le_bytes(n) =~= bytes);
}

/// Bytes behind a whole record do not change how it decodes.
pub proof fn lemma_frame_ignores_rest(source: Seq<u8>, rest: Seq<u8>)
    requires
        frame(source) is Record,
    ensures
        frame(source + rest) == frame(source),
{
    let long = source + rest;
    assert(long.subrange(0, 4) == source.subrange(0, 4));
    assert(long.subrange(4, 8) == source.subrange(4, 8));
    assert(long.subrange(8, 12) == source.subrange(8, 12));
    let key_end = HEADER_LEN + stored_key_len(source);
    let end = key_end + stored_value_len(source);
    assert(long.subrange(HEADER_LEN as int, key_end as int) == source.subrange(
        HEADER_LEN as int,
        key_end as int,
    ));
    assert(long.subrange(key_end as int, end as int) == source.subrange(
        key_end as int,
        end as int,
    ));
}

/// Corruption detection: where the payload behind the header of the record
/// of `key` and `value` is replaced by `payload` of the same length, decoding
/// reports corruption exactly if the checksum of `payload` differs from the
/// stored one; otherwise the record that comes out holds `payload` itself.
pub proof fn lemma_altered_payload(key: Seq<u8>, value: Seq<u8>, payload: Seq<u8>)
    requires
        key.len() <= u32::MAX,
        value.len() <= u32::MAX,
        payload.len() == key.len() + value.len(),
    ensures
        ({
            let altered = encoded(key, value).subrange(0, HEADER_LEN as int) + payload;
            if crc32_cksum(payload) == crc32_cksum(key + value) {
                &&& frame(altered) is Record
                &&& frame(altered)->record.key + frame(altered)->record.value == payload
            } else {
                frame(altered) is Corruption
            }
        }),
{
    lemma_header_of_encoded(key, value, Seq::empty());
    let whole = encoded(key, value) + Seq::<u8>::empty();
    assert(whole == encoded(key, value));
    let altered = encoded(key, value).subrange(0, HEADER_LEN as int) + payload;
    assert(altered.subrange(0, 4) == whole.subrange(0, 4));
    assert(altered.subrange(4, 8) == whole.subrange(4, 8));
    assert(altered.subrange(8, 12) == whole.subrange(8, 12));
    let key_end = HEADER_LEN + key.len();
    let end = key_end + value.len();
    assert(altered.subrange(HEADER_LEN as int, key_end as int) + altered.subrange(
        key_end as int,
        end as int,
    ) == payload);
}

/// Appends the bytes of `tail` to `out`.
fn extend(out: &mut Vec<u8>, tail: &[u8])
    ensures
        final(out)@ == old(out)@ + tail@,
{
    out.extend_from_slice(tail);
    assert(out@ =~= old(out)@ + tail@);
}

/// Encodes one record: the checksum of `key ++ value`, the two lengths, the
/// key and the value.
pub fn encode(key: &[u8], value: &[u8]) -> (bytes: Vec<u8>)
    requires
        key@.len() <= u32::MAX,
        value@.len() <= u32::MAX,
        encoded_len(key@.len(), value@.len()) <= usize::MAX,
    ensures
        bytes@ == encoded(key@, value@),
        bytes@.len() == encoded_len(key@.len(), value@.len()),
{
    let mut data: Vec<u8> = Vec::new();
    extend(&mut data, key);
    extend(&mut data, value);
    let sum = checksum(data.as_slice());

    let mut bytes: Vec<u8> = Vec::new();
    extend(&mut bytes, &write_u32_le(sum));
    extend(&mut bytes, &write_u32_le(key.len() as u32));
    extend(&mut bytes, &write_u32_le(value.len() as u32));
    extend(&mut bytes, data.as_slice());
    assert(bytes@ == encoded(key@, value@));
    bytes
}

/// Decodes the record at the front of `source`.
///
/// An empty source is the clean end of the log. A source that ends inside
/// the header or inside the payload, or whose payload does not have the
/// stored checksum, is corrupt. Bytes behind the record are not looked at.
pub fn decode(source: &[u8]) -> (outcome: Decoded)
    ensures
        outcome@ == frame(source@),
{
    let n = source.len();
    if n == 0 {
        return Decoded::EndOfLog;
    }
    if n < HEADER_LEN {
        return Decoded::Corruption;
    }
    let saved_checksum = read_u32_le(slice_subrange(source, 0, 4));
    let key_len = read_u32_le(slice_subrange(source, 4, 8));
    let value_len = read_u32_le(slice_subrange(source, 8, 12));
    let data_len: u64 = key_len as u64 + value_len as u64;
    if ((n - HEADER_LEN) as u64) < data_len {
        return Decoded::Corruption;
    }
    let key_end: usize = HEADER_LEN + key_len as usize;
    let end: usize = key_end + value_len as usize;
    let data = slice_subrange(source, HEADER_LEN, end);
    proof {
        let key = source@.subrange(HEADER_LEN as int, key_end as int);
        let value = source@.subrange(key_end as int, end as int);
        assert(data@ == key + value);
    }
    if checksum(data) != saved_checksum {
        return Decoded::Corruption;
    }
    let mut key = slice_to_vec(data);
    let value = key.split_off(key_len as usize);
    assert(key@ == source@.subrange(HEADER_LEN as int, key_end as int));
    assert(value@ == source@.subrange(key_end as int, end as int));
    Decoded::Record { pair: KeyValuePair { key, value }, len: end }
}

} // verus!
