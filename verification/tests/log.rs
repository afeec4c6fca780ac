use actionkv::codec::{encode, Decoded};
use actionkv::log::AppendLog;

#[test]
fn new_log_is_empty() {
    let log = AppendLog::new();
    assert_eq!(log.len(), 0);
    assert_eq!(log.as_bytes(), b"");
    let scan = log.scan();
    assert!(scan.clean);
    assert!(scan.records.is_empty());
}

#[test]
fn append_returns_the_offset_at_which_the_bytes_start() {
    let mut log = AppendLog::new();
    assert_eq!(log.append(&encode(b"a", b"1")), 0);
    assert_eq!(log.append(&encode(b"b", b"22")), 14);
    assert_eq!(log.append(&encode(b"a", b"111")), 29);
    assert_eq!(log.len(), 45);
}

#[test]
fn append_leaves_what_the_log_held() {
    let mut log = AppendLog::from_bytes(vec![1, 2, 3]);
    assert_eq!(log.append(&[4, 5]), 3);
    assert_eq!(log.as_bytes(), &[1, 2, 3, 4, 5]);
    assert_eq!(log.append(&[]), 5);
    assert_eq!(log.as_bytes(), &[1, 2, 3, 4, 5]);
}

#[test]
fn tail_is_what_lies_behind_an_offset() {
    let log = AppendLog::from_bytes(vec![1, 2, 3, 4]);
    assert_eq!(log.tail(0), &[1, 2, 3, 4]);
    assert_eq!(log.tail(3), &[4]);
    assert_eq!(log.tail(4), &[] as &[u8]);
    assert_eq!(log.tail(5), &[] as &[u8]);
    assert_eq!(log.tail(u64::MAX), &[] as &[u8]);
}

#[test]
fn read_at_decodes_the_record_at_the_offset() {
    let mut log = AppendLog::new();
    log.append(&encode(b"a", b"1"));
    let second = log.append(&encode(b"b", b"22"));
    match log.read_at(second) {
        Decoded::Record { pair, len } => {
            assert_eq!(pair.key, b"b");
            assert_eq!(pair.value, b"22");
            assert_eq!(len, 15);
        }
        other => panic!("{:?}", other),
    }
    assert!(matches!(log.read_at(log.len()), Decoded::EndOfLog));
    assert!(matches!(log.read_at(log.len() + 1), Decoded::EndOfLog));
    assert!(matches!(log.read_at(1), Decoded::Corruption));
}

#[test]
fn scan_yields_one_entry_for_each_append() {
    let mut log = AppendLog::new();
    let mut offsets = Vec::new();
    for i in 0..50u8 {
        let key = vec![i % 7];
        let value = vec![i; i as usize];
        offsets.push(log.append(&encode(&key, &value)));
        let scan = log.scan();
        assert!(scan.clean);
        assert_eq!(scan.records.len(), i as usize + 1);
    }
    let scan = log.scan();
    for (i, record) in scan.records.iter().enumerate() {
        assert_eq!(record.offset, offsets[i]);
        assert_eq!(record.pair.key, vec![i as u8 % 7]);
        assert_eq!(record.pair.value, vec![i as u8; i]);
    }
}

#[test]
fn scan_stops_at_the_first_corrupt_record() {
    let mut log = AppendLog::new();
    log.append(&encode(b"a", b"1"));
    let second = log.append(&encode(b"b", b"22"));
    log.append(&encode(b"c", b"333"));
    let mut bytes = log.as_bytes().to_vec();
    bytes[second as usize + 13] ^= 0x10;
    let scan = AppendLog::from_bytes(bytes).scan();
    assert!(!scan.clean);
    assert_eq!(scan.records.len(), 1);
    assert_eq!(scan.records[0].offset, 0);
    assert_eq!(scan.records[0].pair.key, b"a");
}

#[test]
fn scan_of_a_truncated_log_is_not_clean() {
    let mut log = AppendLog::new();
    log.append(&encode(b"a", b"1"));
    log.append(&encode(b"b", b"22"));
    let whole = log.as_bytes().to_vec();
    for cut in 15..whole.len() {
        let scan = AppendLog::from_bytes(whole[..cut].to_vec()).scan();
        assert!(!scan.clean, "cut at {}", cut);
        assert_eq!(scan.records.len(), 1);
    }
    let scan = AppendLog::from_bytes(whole[..14].to_vec()).scan();
    assert!(scan.clean);
    assert_eq!(scan.records.len(), 1);
}
