use parity_codec::Encode;
use perml::collections::CodecBTreeMap;
use std::collections::BTreeMap;

#[test]
fn price_map_bytes() {
    let mut m: BTreeMap<u64, ()> = BTreeMap::new();
    m.insert(2, ());
    m.insert(1, ());
    let c = CodecBTreeMap(m);
    assert_eq!(
        c.encode(),
        vec![2, 0, 0, 0, 1, 0, 0, 0, 0, 0, 0, 0, 2, 0, 0, 0, 0, 0, 0, 0]
    );
}

#[test]
fn empty_map_bytes() {
    let c: CodecBTreeMap<u64, ()> = CodecBTreeMap::new();
    assert_eq!(c.encode(), vec![0, 0, 0, 0]);
    let (d, left) = CodecBTreeMap::<u64, ()>::decode(&[0, 0, 0, 0, 9]).unwrap();
    assert!(d.0.is_empty());
    assert_eq!(left, 1);
}

#[test]
fn order_id_map_bytes_match_the_codec_of_a_btree_map() {
    let mut m: BTreeMap<u64, Vec<u64>> = BTreeMap::new();
    m.insert(7, vec![1, 2]);
    m.insert(3, vec![]);
    m.insert(0x1_0000_0000, (0..70u64).collect());
    let ours = CodecBTreeMap(m.clone()).encode();
    assert_eq!(ours, m.encode());
    assert_eq!(&ours[..4], &[3, 0, 0, 0]);
    assert_eq!(&ours[4..12], &[3, 0, 0, 0, 0, 0, 0, 0]);
    assert_eq!(ours[12], 0);
}

#[test]
fn decode_of_encode_gives_the_map_back() {
    let mut m: BTreeMap<u64, Vec<u64>> = BTreeMap::new();
    m.insert(5, vec![10, 11, 12]);
    m.insert(1, (0..100u64).collect());
    m.insert(u64::MAX, vec![u64::MAX]);
    let mut bytes = CodecBTreeMap(m.clone()).encode();
    bytes.extend_from_slice(&[1, 2, 3]);
    let (d, left) = CodecBTreeMap::<u64, Vec<u64>>::decode(&bytes).unwrap();
    assert_eq!(d.0, m);
    assert_eq!(left, 3);
}

#[test]
fn decode_keeps_the_last_value_of_a_repeated_key() {
    let mut bytes = vec![2, 0, 0, 0];
    bytes.extend_from_slice(&[4, 0, 0, 0, 0, 0, 0, 0]);
    bytes.extend_from_slice(&[4, 0, 0, 0, 0, 0, 0, 0]);
    let (d, left) = CodecBTreeMap::<u64, ()>::decode(&bytes).unwrap();
    assert_eq!(d.0.len(), 1);
    assert!(d.0.contains_key(&4));
    assert_eq!(left, 0);
}

#[test]
fn decode_of_short_input_fails() {
    assert!(CodecBTreeMap::<u64, ()>::decode(&[1, 0, 0]).is_none());
    assert!(CodecBTreeMap::<u64, ()>::decode(&[1, 0, 0, 0, 4, 0, 0]).is_none());
    // one entry announced, its value (a vector of one number) cut short
    let bytes = vec![1, 0, 0, 0, 4, 0, 0, 0, 0, 0, 0, 0, 4, 1, 0];
    assert!(CodecBTreeMap::<u64, Vec<u64>>::decode(&bytes).is_none());
}

#[test]
fn decode_reads_a_two_byte_compact_length() {
    let v: Vec<u64> = (0..64u64).collect();
    let mut m: BTreeMap<u64, Vec<u64>> = BTreeMap::new();
    m.insert(9, v.clone());
    let bytes = CodecBTreeMap(m.clone()).encode();
    assert_eq!(&bytes[12..14], &[0x01, 0x01]);
    let (d, left) = CodecBTreeMap::<u64, Vec<u64>>::decode(&bytes).unwrap();
    assert_eq!(d.0.get(&9), Some(&v));
    assert_eq!(left, 0);
}

#[test]
fn map_with_four_byte_keys_bytes() {
    let mut m: BTreeMap<u32, u32> = BTreeMap::new();
    m.insert(2, 9);
    m.insert(1, 8);
    let ours = CodecBTreeMap(m.clone()).encode();
    assert_eq!(
        ours,
        vec![2, 0, 0, 0, 1, 0, 0, 0, 8, 0, 0, 0, 2, 0, 0, 0, 9, 0, 0, 0]
    );
    assert_eq!(ours, m.encode());
}

#[test]
fn decode_of_a_map_with_four_byte_keys() {
    let bytes = [1, 0, 0, 0, 3, 0, 0, 0, 7, 0, 0, 0];
    let (d, left) = CodecBTreeMap::<u32, u32>::decode(&bytes).unwrap();
    assert_eq!(d.0.len(), 1);
    assert_eq!(d.0.get(&3), Some(&7));
    assert_eq!(left, 0);
}

#[test]
fn decode_with_four_byte_keys_keeps_the_last_value_of_a_repeated_key() {
    let bytes = [2, 0, 0, 0, 1, 0, 0, 0, 5, 0, 0, 0, 1, 0, 0, 0, 6, 0, 0, 0];
    let (d, left) = CodecBTreeMap::<u32, u32>::decode(&bytes).unwrap();
    assert_eq!(d.0.len(), 1);
    assert_eq!(d.0.get(&1), Some(&6));
    assert_eq!(left, 0);
}

#[test]
fn map_with_four_byte_keys_and_vector_values_round_trips() {
    let mut m: BTreeMap<u32, Vec<u64>> = BTreeMap::new();
    m.insert(u32::MAX, vec![1, 2, 3]);
    m.insert(0, vec![]);
    let mut bytes = CodecBTreeMap(m.clone()).encode();
    assert_eq!(bytes, m.encode());
    bytes.push(42);
    let (d, left) = CodecBTreeMap::<u32, Vec<u64>>::decode(&bytes).unwrap();
    assert_eq!(d.0, m);
    assert_eq!(left, 1);
    assert!(CodecBTreeMap::<u32, ()>::decode(&[1, 0, 0, 0, 3, 0, 0]).is_none());
}
