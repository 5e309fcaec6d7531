use node_controller::codec::{decode_header, encode_header, HeaderError, TransferHeader};

fn sample() -> TransferHeader {
    TransferHeader {
        file_id: "abc".to_string(),
        file_name: "x.bin".to_string(),
        file_size: 10,
        range_start: 0,
        range_end: 10,
        file_hash: "deadbeef".repeat(8),
    }
}

#[test]
fn header_round_trip_keeps_every_field() {
    let h = sample();
    let bytes = encode_header(&h).unwrap();
    assert_eq!(bytes.len(), 4 + 3 + 4 + 5 + 8 + 8 + 8 + 4 + 64);
    let (d, n) = decode_header(&bytes).unwrap();
    assert_eq!(n, bytes.len());
    assert_eq!(d.file_id, "abc");
    assert_eq!(d.file_name, "x.bin");
    assert_eq!(d.file_size, 10);
    assert_eq!(d.range_start, 0);
    assert_eq!(d.range_end, 10);
    assert_eq!(d.file_hash, "deadbeef".repeat(8));
}

#[test]
fn header_layout_is_big_endian() {
    let h = TransferHeader {
        file_id: "i".to_string(),
        file_name: "".to_string(),
        file_size: 0x0102030405060708,
        range_start: 1,
        range_end: 256,
        file_hash: "h".to_string(),
    };
    let b = encode_header(&h).unwrap();
    assert_eq!(&b[0..5], &[0, 0, 0, 1, b'i']);
    assert_eq!(&b[5..9], &[0, 0, 0, 0]);
    assert_eq!(&b[9..17], &[1, 2, 3, 4, 5, 6, 7, 8]);
    assert_eq!(&b[17..25], &[0, 0, 0, 0, 0, 0, 0, 1]);
    assert_eq!(&b[25..33], &[0, 0, 0, 0, 0, 0, 1, 0]);
    assert_eq!(&b[33..38], &[0, 0, 0, 1, b'h']);
}

#[test]
fn every_truncation_is_incomplete() {
    let bytes = encode_header(&sample()).unwrap();
    for k in 0..bytes.len() {
        match decode_header(&bytes[..k]) {
            Err(HeaderError::IncompleteHeader) => {}
            _ => panic!("prefix of {} bytes did not give IncompleteHeader", k),
        }
    }
}

#[test]
fn payload_after_header_is_left_alone() {
    let mut bytes = encode_header(&sample()).unwrap();
    let len = bytes.len();
    bytes.extend_from_slice(&[9, 9, 9]);
    let (d, n) = decode_header(&bytes).unwrap();
    assert_eq!(n, len);
    assert_eq!(d.file_name, "x.bin");
}

#[test]
fn invalid_text_is_rejected() {
    let bytes = vec![0, 0, 0, 2, 0xff, 0xfe];
    match decode_header(&bytes) {
        Err(HeaderError::InvalidText) => {}
        _ => panic!("expected InvalidText"),
    }
}

#[test]
fn unicode_names_round_trip() {
    let mut h = sample();
    h.file_name = "données-é.bin".to_string();
    let bytes = encode_header(&h).unwrap();
    let (d, _) = decode_header(&bytes).unwrap();
    assert_eq!(d.file_name, "données-é.bin");
}
