use daba::database::Database;
use daba::header::{DabaHeader, FormatError, IndexHeader};

fn keys3() -> Vec<Vec<u8>> {
    vec![
        b"key0000000000001".to_vec(),
        b"key0000000000002".to_vec(),
        b"key0000000000003".to_vec(),
    ]
}

fn values3() -> Vec<Vec<u8>> {
    vec![b"hello".to_vec(), b"world".to_vec(), b"rustlang".to_vec()]
}

#[test]
fn test_write_and_read_database() {
    let keys = keys3();
    let values = values3();
    let (data, index) = Database::write_database(&keys, &values, 1);
    let db = Database::open(data, index).expect("open should succeed");
    for (key, value) in keys.iter().zip(values.iter()) {
        let retrieved = db.get(key.as_slice()).expect("Value should exist");
        assert_eq!(retrieved, value.as_slice());
    }
    let missing_key = b"missing000000001";
    assert!(db.get(&missing_key[..]).is_none());
}

#[test]
fn test_single_pair_uses_file_end_as_last_offset() {
    let keys = vec![b"onlykey000000001".to_vec()];
    let values = vec![b"single_value".to_vec()];
    let (data, index) = Database::write_database(&keys, &values, 7);
    let db = Database::open(data, index).expect("open should succeed");
    assert_eq!(db.get(&b"onlykey000000001"[..]).unwrap(), b"single_value");
    assert!(db.get(&b"otherkey00000001"[..]).is_none());
}

#[test]
fn test_empty_database() {
    let keys: Vec<Vec<u8>> = Vec::new();
    let values: Vec<Vec<u8>> = Vec::new();
    let (data, index) = Database::write_database(&keys, &values, 1);
    // the data file is exactly the 32-byte header; the index file is exactly
    // the 40-byte header with empty sections
    assert_eq!(data.len(), 32);
    assert_eq!(index.len(), 40);
    let db = Database::open(data, index).expect("open should succeed");
    assert!(db.get(&b"key0000000000001"[..]).is_none());
    assert!(db.get(&b""[..]).is_none());
}

#[test]
fn test_empty_and_duplicate_content_values() {
    let keys = vec![
        b"aaaaaaaaaaaaaaaa".to_vec(),
        b"bbbbbbbbbbbbbbbb".to_vec(),
        b"cccccccccccccccc".to_vec(),
    ];
    let values = vec![Vec::new(), b"same".to_vec(), b"same".to_vec()];
    let (data, index) = Database::write_database(&keys, &values, 2);
    let db = Database::open(data, index).expect("open should succeed");
    assert_eq!(db.get(&b"aaaaaaaaaaaaaaaa"[..]).unwrap(), b"");
    assert_eq!(db.get(&b"bbbbbbbbbbbbbbbb"[..]).unwrap(), b"same");
    assert_eq!(db.get(&b"cccccccccccccccc"[..]).unwrap(), b"same");
}

#[test]
fn test_daba_header_round_trip() {
    let h = DabaHeader { version: 3, num_keys: 9, key_size: 16, values_start: 32 };
    let bytes = h.to_bytes();
    assert_eq!(bytes.len(), 32);
    assert_eq!(&bytes[0..4], b"DABA");
    let h2 = DabaHeader::from_bytes(bytes.as_slice()).expect("decode should succeed");
    assert_eq!(h2, h);
}

#[test]
fn test_index_header_round_trip() {
    let h = IndexHeader {
        version: 1,
        num_keys: 2,
        mphf_size: 32,
        keys_offset: 72,
        offsets_offset: 104,
    };
    let bytes = h.to_bytes();
    assert_eq!(bytes.len(), 40);
    assert_eq!(&bytes[0..4], b"KIDX");
    let h2 = IndexHeader::from_bytes(bytes.as_slice()).expect("decode should succeed");
    assert_eq!(h2, h);
}

#[test]
fn test_header_truncated() {
    let short = vec![0u8; 10];
    assert_eq!(DabaHeader::from_bytes(short.as_slice()), Err(FormatError::Truncated));
    assert_eq!(IndexHeader::from_bytes(short.as_slice()), Err(FormatError::Truncated));
}

#[test]
fn test_header_bad_magic() {
    let mut bytes = DabaHeader { version: 1, num_keys: 0, key_size: 16, values_start: 32 }
        .to_bytes();
    bytes[0] = b'X';
    assert_eq!(DabaHeader::from_bytes(bytes.as_slice()), Err(FormatError::BadMagic));
}

#[test]
fn test_open_count_mismatch() {
    let (data, _) = Database::write_database(&keys3(), &values3(), 1);
    let keys1 = vec![b"onlykey000000001".to_vec()];
    let values1 = vec![b"v".to_vec()];
    let (_, index1) = Database::write_database(&keys1, &values1, 1);
    match Database::open(data, index1) {
        Err(e) => assert_eq!(e, FormatError::CountMismatch),
        Ok(_) => panic!("expected a count mismatch"),
    }
}

#[test]
fn test_open_malformed_index() {
    let (data, mut index) = Database::write_database(&keys3(), &values3(), 1);
    // corrupt the recorded structure size
    index[16] = index[16].wrapping_add(1);
    match Database::open(data, index) {
        Err(e) => assert_eq!(e, FormatError::Malformed),
        Ok(_) => panic!("expected a malformed index"),
    }
}

#[test]
fn test_open_rejects_out_of_range_offsets() {
    let (data, mut index) = Database::write_database(&keys3(), &values3(), 1);
    // overwrite the last offset with a value past the data file's end
    let n = index.len();
    for b in &mut index[n - 8..] {
        *b = 0xFF;
    }
    match Database::open(data, index) {
        Err(e) => assert_eq!(e, FormatError::Malformed),
        Ok(_) => panic!("expected a malformed index"),
    }
}

#[test]
fn test_build_is_deterministic() {
    let (data1, index1) = Database::write_database(&keys3(), &values3(), 5);
    let (data2, index2) = Database::write_database(&keys3(), &values3(), 5);
    assert_eq!(data1, data2);
    assert_eq!(index1, index2);
}
