use ic_cert_time::varint::{decode_unsigned, encode_unsigned, MAX_BYTES};

#[test]
fn decode_single_byte() {
    assert_eq!(decode_unsigned(&[0]), Some((0, 1)));
    assert_eq!(decode_unsigned(&[2]), Some((2, 1)));
    assert_eq!(decode_unsigned(&[127]), Some((127, 1)));
}

#[test]
fn decode_two_bytes() {
    assert_eq!(decode_unsigned(&[0x80, 1]), Some((128, 2)));
    assert_eq!(decode_unsigned(&[0x81, 1]), Some((129, 2)));
    assert_eq!(decode_unsigned(&[0xe5, 0x8e, 0x26]), Some((624485, 3)));
}

#[test]
fn encode_known_values() {
    assert_eq!(encode_unsigned(0), vec![0]);
    assert_eq!(encode_unsigned(127), vec![0x7f]);
    assert_eq!(encode_unsigned(128), vec![0x80, 0x01]);
    assert_eq!(encode_unsigned(624485), vec![0xe5, 0x8e, 0x26]);
    assert_eq!(encode_unsigned(u64::MAX).len(), MAX_BYTES);
}

#[test]
fn encode_then_decode_gives_the_number_back() {
    for n in [0u64, 1, 127, 128, 300, 16383, 16384, 1_000_000_000, 1 << 63, u64::MAX - 1, u64::MAX] {
        let bytes = encode_unsigned(n);
        assert_eq!(decode_unsigned(&bytes), Some((n, bytes.len())));
    }
}

#[test]
fn trailing_bytes_are_not_read() {
    assert_eq!(decode_unsigned(&[0x05, 0xff, 0xff]), Some((5, 1)));
    let mut bytes = encode_unsigned(1_620_328_630_192_205_000);
    let len = bytes.len();
    bytes.extend_from_slice(&[0x80, 0x80]);
    assert_eq!(decode_unsigned(&bytes), Some((1_620_328_630_192_205_000, len)));
}

#[test]
fn a_cut_encoding_is_refused() {
    assert_eq!(decode_unsigned(&[]), None);
    assert_eq!(decode_unsigned(&[0x80]), None);
    assert_eq!(decode_unsigned(&[0xff, 0xff]), None);
    let bytes = encode_unsigned(u64::MAX);
    for keep in 0..bytes.len() {
        assert_eq!(decode_unsigned(&bytes[..keep]), None);
    }
}

#[test]
fn a_number_that_does_not_fit_is_refused() {
    // 2^64: nine continuation bytes and a tenth byte of 2.
    let mut bytes = vec![0x80; 9];
    bytes.push(0x02);
    assert_eq!(decode_unsigned(&bytes), None);
    // 2^64 - 1 fits.
    let mut most = vec![0xff; 9];
    most.push(0x01);
    assert_eq!(decode_unsigned(&most), Some((u64::MAX, 10)));
    // 2^63 fits.
    let mut high = vec![0x80; 9];
    high.push(0x01);
    assert_eq!(decode_unsigned(&high), Some((1 << 63, 10)));
}

#[test]
fn more_than_ten_bytes_are_refused_whatever_the_value() {
    let mut bytes = vec![0x80; 10];
    bytes.push(0x00);
    assert_eq!(decode_unsigned(&bytes), None);
    let mut ten = vec![0x80; 9];
    ten.push(0x00);
    assert_eq!(decode_unsigned(&ten), Some((0, 10)));
}

#[test]
fn longer_forms_of_small_numbers_are_read() {
    assert_eq!(decode_unsigned(&[0x80, 0x00]), Some((0, 2)));
    assert_eq!(decode_unsigned(&[0x81, 0x80, 0x00]), Some((1, 3)));
}

#[test]
fn decoding_agrees_with_the_leb128_crate() {
    let samples: Vec<Vec<u8>> = vec![
        vec![],
        vec![0x00],
        vec![0x7f],
        vec![0x80],
        vec![0x80, 0x01],
        vec![0x80, 0x00],
        vec![0xff, 0xff, 0xff, 0xff, 0xff, 0xff, 0xff, 0xff, 0xff, 0x01],
        vec![0xff, 0xff, 0xff, 0xff, 0xff, 0xff, 0xff, 0xff, 0xff, 0x02],
        vec![0x80, 0x80, 0x80, 0x80, 0x80, 0x80, 0x80, 0x80, 0x80, 0x7f],
        vec![0x80, 0x80, 0x80, 0x80, 0x80, 0x80, 0x80, 0x80, 0x80, 0x80, 0x00],
        vec![0x80, 0x80, 0x80, 0x80, 0x80, 0x80, 0x80, 0x80, 0x80, 0x80],
        vec![0xe5, 0x8e, 0x26, 0x99],
    ];
    for bytes in samples {
        let mut readable = &bytes[..];
        let expected = leb128::read::unsigned(&mut readable).ok();
        assert_eq!(decode_unsigned(&bytes).map(|r| r.0), expected);
    }
}

#[test]
fn encoding_agrees_with_the_leb128_crate() {
    for n in [0u64, 1, 127, 128, 255, 256, 1_000_000_000, u64::MAX / 3, u64::MAX] {
        let mut expected = Vec::new();
        leb128::write::unsigned(&mut expected, n).unwrap();
        assert_eq!(encode_unsigned(n), expected);
    }
}
