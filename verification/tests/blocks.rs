use gengis_mimi::binary::{
    copy_vector, decode, decode_vector, encode, encode_vector, push_le, read_u16, read_u32,
};
use gengis_mimi::error::Error;

fn bits(vector: &[f32]) -> Vec<u32> {
    vector.iter().map(|v| v.to_bits()).collect()
}

fn sealed(mut body: Vec<u8>) -> Vec<u8> {
    let sum = crc32fast::hash(&body);
    body.extend_from_slice(&sum.to_le_bytes());
    body
}

#[test]
fn binary_blocks_reject_corruption_nonfinite_values_and_trailing_data() {
    let rows = vec![
        ("one".to_string(), bits(&[1.0, -2.5])),
        ("two".to_string(), bits(&[0.25, 42.0])),
    ];
    let bytes = encode(&rows);
    assert_eq!(decode(&bytes).unwrap(), rows);
    let mut broken = bytes.clone();
    broken[20] ^= 1;
    assert!(decode(&broken).is_err());
    assert!(decode(&bytes[..bytes.len() - 1]).is_err());
    assert!(decode(&encode(&vec![("bad".to_string(), bits(&[f32::NAN]))])).is_err());
    let mut extra = bytes[..bytes.len() - 4].to_vec();
    extra.push(0);
    let sum = crc32fast::hash(&extra);
    extra.extend_from_slice(&sum.to_le_bytes());
    assert!(decode(&extra).is_err());
}

#[test]
fn a_block_has_its_documented_bytes() {
    let bytes = encode(&vec![("ab".to_string(), bits(&[1.0]))]);
    let body = [
        b'G', b'M', b'V', b'B', 1, 1, 0, 0, 0, 1, 0, 0, 0, 2, 0, b'a', b'b', 0, 0, 0x80, 0x3f,
    ];
    assert_eq!(bytes, sealed(body.to_vec()));
    assert_eq!(encode(&Vec::new()), sealed(b"GMVB\x01\0\0\0\0\0\0\0\0".to_vec()));
    assert!(decode(&encode(&Vec::new())).unwrap().is_empty());
}

#[test]
fn malformed_blocks_are_refused() {
    let refused = |body: &[u8]| {
        let result = decode(&sealed(body.to_vec()));
        assert!(matches!(result, Err(Error::Corrupt(m)) if m == "invalid vector block or checksum"));
    };
    assert!(decode(&[]).is_err());
    refused(b"GMVB\x02\0\0\0\0\0\0\0\0");
    // A row without components.
    refused(b"GMVB\x01\0\0\0\0\x01\0\0\0\x01\0a");
    // More dimensions than any vector has.
    refused(b"GMVB\x01\x01\x10\0\0\0\0\0\0");
    // More rows than bytes.
    refused(b"GMVB\x01\x01\0\0\0\xff\xff\xff\xff");
    // An ID with a slash, and one that is no text.
    refused(b"GMVB\x01\x01\0\0\0\x01\0\0\0\x01\0/\0\0\x80\x3f");
    refused(b"GMVB\x01\x01\0\0\0\x01\0\0\0\x01\0\xff\0\0\x80\x3f");
    // An infinite component.
    refused(b"GMVB\x01\x01\0\0\0\x01\0\0\0\x01\0a\0\0\x80\x7f");
}

#[test]
fn one_vector_round_trips_and_two_are_refused() {
    let vector = bits(&[0.5, -0.0, f32::MAX]);
    assert_eq!(decode_vector(&encode_vector(&vector)).unwrap(), vector);
    assert_eq!(copy_vector(&vector), vector);
    let two = encode(&vec![
        ("a".to_string(), vector.clone()),
        ("b".to_string(), vector),
    ]);
    assert!(matches!(decode_vector(&two), Err(Error::Corrupt(m)) if m == "expected one vector"));
}

#[test]
fn little_endian_numbers() {
    let mut out = vec![9];
    push_le(&mut out, 0x0102_0304, 4);
    assert_eq!(out, [9, 4, 3, 2, 1]);
    assert_eq!(read_u16(&out, 1), 0x0304);
    assert_eq!(read_u32(&out, 1), 0x0102_0304);
}
