use kvstore::codec::Entry;
use kvstore::codec::decode;
use kvstore::codec::encode;

#[test]
fn encode_writes_prefix_key_and_little_endian_value() {
    let entries = vec![Entry { key: b"ab".to_vec(), value: 0x0807060504030201 }];
    let bytes = encode(&entries);
    assert_eq!(bytes, vec![2, b'a', b'b', 0x01, 0x02, 0x03, 0x04, 0x05, 0x06, 0x07, 0x08]);
}

#[test]
fn encode_concatenates_entries_in_order() {
    let entries = vec![
        Entry { key: Vec::new(), value: 1 },
        Entry { key: b"z".to_vec(), value: 0 },
    ];
    let bytes = encode(&entries);
    let mut expected = vec![0, 1, 0, 0, 0, 0, 0, 0, 0];
    expected.extend_from_slice(&[1, b'z', 0, 0, 0, 0, 0, 0, 0, 0]);
    assert_eq!(bytes, expected);
}

#[test]
fn decode_inverts_encode() {
    let entries = vec![
        Entry { key: b"one".to_vec(), value: 1 },
        Entry { key: vec![0x00, 0xff], value: u64::MAX },
        Entry { key: vec![b'm'; 255], value: 3 },
    ];
    let bytes = encode(&entries);
    let decoded = decode(&bytes).expect("encoded entries should decode");
    assert_eq!(decoded.len(), entries.len());
    for (d, e) in decoded.iter().zip(entries.iter()) {
        assert_eq!(d.key, e.key);
        assert_eq!(d.value, e.value);
    }
}

#[test]
fn decode_of_empty_buffer_is_no_entries() {
    let decoded = decode(&Vec::new()).expect("an empty buffer is valid");
    assert_eq!(decoded.len(), 0);
}

#[test]
fn decode_keeps_duplicate_entries_in_buffer_order() {
    let mut buf = vec![1, b'k', 1, 0, 0, 0, 0, 0, 0, 0];
    buf.extend_from_slice(&[1, b'k', 2, 0, 0, 0, 0, 0, 0, 0]);
    let decoded = decode(&buf).expect("both entries are complete");
    assert_eq!(decoded.len(), 2);
    assert_eq!(decoded[0].value, 1);
    assert_eq!(decoded[1].value, 2);
}

#[test]
fn decode_rejects_buffer_cut_mid_entry() {
    assert!(decode(&vec![5, b'a', b'b']).is_none());
    assert!(decode(&vec![0]).is_none());
    assert!(decode(&vec![0, 1, 2, 3, 4, 5, 6, 7]).is_none());
}
