use terax_index::persist::{decode_frame, encode_frame, CURRENT_VERSION, HEADER_LEN, MAGIC};

#[test]
fn frame_layout_is_magic_version_crc_body() {
    let body = b"hello body".to_vec();
    let framed = encode_frame(&body);
    assert_eq!(&framed[0..8], b"KENIDX01");
    assert_eq!(&framed[0..8], &MAGIC);
    assert_eq!(u32::from_le_bytes(framed[8..12].try_into().unwrap()), CURRENT_VERSION);
    assert_eq!(u32::from_le_bytes(framed[12..16].try_into().unwrap()), crc32fast::hash(&body));
    assert_eq!(&framed[HEADER_LEN..], &body[..]);
}

#[test]
fn encoded_frame_decodes_to_its_body() {
    let body: Vec<u8> = (0..=255u8).collect();
    let framed = encode_frame(&body);
    assert_eq!(decode_frame(&framed), Some(&body[..]));
    let empty = encode_frame(&[]);
    assert_eq!(empty.len(), HEADER_LEN);
    assert_eq!(decode_frame(&empty), Some(&[][..]));
}

#[test]
fn version_mismatch_is_rejected() {
    let mut bytes = encode_frame(b"abc");
    bytes[8] = bytes[8].wrapping_add(1);
    assert_eq!(decode_frame(&bytes), None);
}

#[test]
fn corrupted_body_is_rejected() {
    let mut bytes = encode_frame(b"some body bytes");
    let last = bytes.len() - 1;
    bytes[last] = bytes[last].wrapping_add(1);
    assert_eq!(decode_frame(&bytes), None);
}

#[test]
fn truncated_header_is_rejected() {
    assert_eq!(decode_frame(&MAGIC), None);
    assert_eq!(decode_frame(&[]), None);
}

#[test]
fn wrong_magic_is_rejected() {
    let mut bytes = encode_frame(b"abc");
    bytes[0] = b'X';
    assert_eq!(decode_frame(&bytes), None);
}
