use wasm_str::header::{decode_header, encode_header, HEADER_SIZE};

#[test]
fn header_is_big_endian() {
    assert_eq!(encode_header(0), vec![0, 0, 0, 0, 0, 0, 0, 0]);
    assert_eq!(encode_header(1), vec![0, 0, 0, 0, 0, 0, 0, 1]);
    assert_eq!(encode_header(0x0102), vec![0, 0, 0, 0, 0, 0, 1, 2]);
    assert_eq!(
        encode_header(0x0102_0304_0506_0708),
        vec![1, 2, 3, 4, 5, 6, 7, 8]
    );
}

#[test]
fn header_round_trips() {
    for size in [0u64, 1, 7, 8, 9, 255, 256, 65_535, 1 << 40, u64::MAX] {
        let bytes = encode_header(size);
        assert_eq!(bytes.len(), HEADER_SIZE);
        assert_eq!(decode_header(&bytes), Some(size));
    }
}

#[test]
fn header_of_wrong_width_is_refused() {
    assert_eq!(decode_header(&[]), None);
    assert_eq!(decode_header(&[0, 0, 0, 5]), None);
    assert_eq!(decode_header(&[0, 0, 0, 0, 0, 0, 0, 0, 5]), None);
    assert_eq!(decode_header(&[0xff; 8]), Some(u64::MAX));
}
