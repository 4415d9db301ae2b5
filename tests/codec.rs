use lethe::codec::{decode_words, encode_words};
use lethe::KeyTable;

#[test]
fn words_are_little_endian() {
    let bytes = encode_words(&vec![1, 0x0102_0304_0506_0708]);
    assert_eq!(
        bytes,
        vec![1, 0, 0, 0, 0, 0, 0, 0, 8, 7, 6, 5, 4, 3, 2, 1]
    );
    assert_eq!(decode_words(&bytes), Some(vec![1, 0x0102_0304_0506_0708]));
    assert_eq!(decode_words(&bytes[..15]), None);
}

#[test]
fn key_table_round_trip() {
    let mut t = KeyTable::new();
    let k3 = t.update(3);
    let k9 = t.update(9);
    let bytes = t.encode();
    assert_eq!(bytes.len(), 80);
    let back = KeyTable::decode(&bytes).unwrap();
    assert_eq!(back.derive(3), Some(k3));
    assert_eq!(back.derive(9), Some(k9));
    assert_eq!(back.derive(4), None);
    assert!(KeyTable::decode(&bytes[..79]).is_none());
    let mut twice = bytes.clone();
    twice.extend_from_slice(&bytes[..40]);
    assert!(KeyTable::decode(&twice).is_none());
}

#[test]
fn commit_twice_returns_nothing() {
    let mut t = KeyTable::new();
    t.update(1);
    t.update(2);
    t.update(1);
    let mut first = t.commit();
    first.sort();
    assert_eq!(first, vec![1, 2]);
    assert_eq!(t.commit(), Vec::<u64>::new());
    assert!(t.derive(1).is_some());
}

#[test]
fn truncate_drops_keys_past_count() {
    let mut t = KeyTable::new();
    for id in 0..5 {
        t.update(id);
    }
    t.truncate(2);
    assert!(t.derive(0).is_some());
    assert!(t.derive(1).is_some());
    assert!(t.derive(2).is_none());
    assert!(t.derive(4).is_none());
}
