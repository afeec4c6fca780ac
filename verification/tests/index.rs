use actionkv::codec::KeyValuePair;
use actionkv::index::Index;
use actionkv::log::ScannedRecord;

fn scanned(offset: u64, key: &[u8], value: &[u8]) -> ScannedRecord {
    ScannedRecord { offset, pair: KeyValuePair { key: key.to_vec(), value: value.to_vec() } }
}

#[test]
fn new_index_has_no_key() {
    let index = Index::new();
    assert_eq!(index.lookup(b"a"), None);
    assert_eq!(index.lookup(b""), None);
    assert!(!index.contains_key(b"a"));
}

#[test]
fn set_then_lookup() {
    let mut index = Index::new();
    index.set(b"a", 0);
    index.set(b"b", 14);
    index.set(b"", 29);
    assert_eq!(index.lookup(b"a"), Some(0));
    assert_eq!(index.lookup(b"b"), Some(14));
    assert_eq!(index.lookup(b""), Some(29));
    assert_eq!(index.lookup(b"ab"), None);
    assert!(index.contains_key(b"b"));
}

#[test]
fn set_overwrites_the_offset_of_a_key() {
    let mut index = Index::new();
    index.set(b"a", 0);
    index.set(b"b", 14);
    index.set(b"a", 29);
    assert_eq!(index.lookup(b"a"), Some(29));
    assert_eq!(index.lookup(b"b"), Some(14));
}

#[test]
fn remove_takes_the_key_out() {
    let mut index = Index::new();
    index.set(b"a", 1);
    index.set(b"b", 2);
    index.set(b"c", 3);
    assert_eq!(index.remove(b"a"), Some(1));
    assert_eq!(index.remove(b"a"), None);
    assert_eq!(index.remove(b"x"), None);
    assert_eq!(index.lookup(b"a"), None);
    assert_eq!(index.lookup(b"b"), Some(2));
    assert_eq!(index.lookup(b"c"), Some(3));
    assert_eq!(index.remove(b"c"), Some(3));
    assert_eq!(index.lookup(b"b"), Some(2));
}

#[test]
fn rebuild_from_keeps_the_last_offset_of_each_key() {
    let records = vec![
        scanned(0, b"a", b"1"),
        scanned(14, b"b", b"22"),
        scanned(29, b"a", b"111"),
    ];
    let mut index = Index::new();
    index.set(b"z", 7);
    index.set(b"b", 8);
    index.rebuild_from(&records);
    assert_eq!(index.lookup(b"a"), Some(29));
    assert_eq!(index.lookup(b"b"), Some(14));
    assert_eq!(index.lookup(b"z"), Some(7));
    index.rebuild_from(&records);
    assert_eq!(index.lookup(b"a"), Some(29));
    assert_eq!(index.lookup(b"b"), Some(14));
    assert_eq!(index.lookup(b"z"), Some(7));
}

#[test]
fn serialize_of_one_key_is_count_key_and_offset() {
    let mut index = Index::new();
    index.set(b"a", 7);
    let bytes = index.serialize().unwrap();
    let mut expected = vec![1, 0, 0, 0, 0, 0, 0, 0];
    expected.extend_from_slice(&[1, 0, 0, 0, 0, 0, 0, 0]);
    expected.push(b'a');
    expected.extend_from_slice(&[7, 0, 0, 0, 0, 0, 0, 0]);
    assert_eq!(bytes, expected);
}

#[test]
fn serialize_agrees_with_bincode_on_a_hash_map() {
    let mut index = Index::new();
    index.set(b"only", 0x0102030405060708);
    let mut map = std::collections::HashMap::new();
    map.insert(b"only".to_vec(), 0x0102030405060708u64);
    assert_eq!(index.serialize().unwrap(), bincode::serialize(&map).unwrap());
}

#[test]
fn deserialize_reads_back_what_serialize_wrote() {
    let mut index = Index::new();
    for i in 0..100u64 {
        index.set(&i.to_le_bytes()[..(i as usize % 8) + 1], i * 3);
    }
    index.set(b"", 1000);
    let bytes = index.serialize().unwrap();
    let back = Index::deserialize(&bytes).unwrap();
    for i in 0..100u64 {
        let key = &i.to_le_bytes()[..(i as usize % 8) + 1];
        assert_eq!(back.lookup(key), index.lookup(key));
        assert!(back.lookup(key).is_some());
    }
    assert_eq!(back.lookup(b""), Some(1000));
    assert_eq!(back.lookup(b"not there"), None);
}

#[test]
fn deserialize_of_an_empty_index() {
    let bytes = Index::new().serialize().unwrap();
    assert_eq!(bytes, vec![0; 8]);
    let back = Index::deserialize(&bytes).unwrap();
    assert_eq!(back.lookup(b"a"), None);
}

#[test]
fn deserialize_of_what_is_no_index_is_none() {
    assert!(Index::deserialize(b"").is_none());
    assert!(Index::deserialize(&[1, 0, 0, 0, 0, 0, 0, 0]).is_none());
    assert!(Index::deserialize(&[0xff; 16]).is_none());
}
