use ksuid::base62::{b62_to_bin, change_base, conversion_len_bound, decode_raw, encode_raw};
use ksuid::Error;

#[test]
fn tables() {
    assert_eq!(b62_to_bin(b'0'), 0);
    assert_eq!(b62_to_bin(b'A'), 10);
    assert_eq!(b62_to_bin(b'a'), 36);
}

#[test]
fn test_change_base() {
    let suite = vec![(256usize, 62usize, vec![255u8, 254, 253, 252])];

    for (in_base, out_base, input) in suite {
        let mut intermediate = vec![0; conversion_len_bound(input.len(), in_base, out_base)];
        let mut output = vec![0; input.len()];

        let mut scratch = input.clone();
        change_base(&mut scratch, &mut intermediate, in_base, out_base).unwrap();

        let mut scratch = intermediate.clone();
        change_base(&mut scratch, &mut output, out_base, in_base).unwrap();

        let first_nonzero = output.iter().position(|&b| b != 0).unwrap();
        assert_eq!(input, output.split_at(first_nonzero).1);
    }
}

#[test]
fn invalid_base62_characters() {
    assert_eq!(b62_to_bin(b'!'), -1);
    assert_eq!(b62_to_bin(b'/'), -1);
    assert_eq!(b62_to_bin(b':'), -1);
    assert_eq!(b62_to_bin(b'@'), -1);
    assert_eq!(b62_to_bin(b'['), -1);
    assert_eq!(b62_to_bin(b'`'), -1);
    assert_eq!(b62_to_bin(b'{'), -1);
    assert_eq!(b62_to_bin(0x80), -1);
    assert_eq!(b62_to_bin(0xff), -1);
}

#[test]
fn alphabet_boundaries() {
    assert_eq!(b62_to_bin(b'9'), 9);
    assert_eq!(b62_to_bin(b'Z'), 35);
    assert_eq!(b62_to_bin(b'z'), 61);
}

#[test]
fn change_base_buffer_too_small() {
    // 255 needs two base-62 digits; one is not enough.
    let mut num = vec![255u8];
    let mut out = vec![0u8; 1];
    assert_eq!(change_base(&mut num, &mut out, 256, 62), Err(Error::BufferTooSmall));
}

#[test]
fn change_base_zero_value() {
    let mut num = vec![0u8, 0, 0];
    let mut out = vec![0u8; 2];
    change_base(&mut num, &mut out, 256, 62).unwrap();
    assert_eq!(out, vec![0, 0]);
}

#[test]
fn change_base_empty_input() {
    let mut num: Vec<u8> = Vec::new();
    let mut out = vec![0u8; 3];
    change_base(&mut num, &mut out, 256, 62).unwrap();
    assert_eq!(out, vec![0, 0, 0]);
}

#[test]
fn conversion_len_bound_is_sufficient() {
    // 62^5 < 2^32 <= 62^6, so four bytes need six base-62 digits,
    // and twenty bytes need exactly the 27 digits of the fixed encoding.
    assert_eq!(conversion_len_bound(4, 256, 62), 6);
    assert_eq!(conversion_len_bound(20, 256, 62), 27);
    assert_eq!(conversion_len_bound(1, 256, 62), 2);
    assert_eq!(conversion_len_bound(20, 256, 16), 40);
    assert_eq!(conversion_len_bound(40, 16, 256), 20);
    assert_eq!(conversion_len_bound(20, 256, 256), 20);
}

#[test]
fn encode_decode_raw_round_trip() {
    let bytes: Vec<u8> = (1..=20u8).collect();
    let mut scratch = bytes.clone();
    let mut encoded = vec![0u8; 27];
    encode_raw(&mut scratch, &mut encoded).unwrap();
    assert!(encoded.iter().all(|c| c.is_ascii_alphanumeric()));

    let mut scratch = encoded.clone();
    let mut decoded = vec![0u8; 20];
    decode_raw(&mut scratch, &mut decoded).unwrap();
    assert_eq!(decoded, bytes);
}

#[test]
fn decode_raw_rejects_bad_byte() {
    let mut input = vec![b'0', b'!', b'1'];
    let mut out = vec![0u8; 3];
    assert_eq!(decode_raw(&mut input, &mut out), Err(Error::InvalidCharacter));
    // the output buffer is untouched on an invalid-character error
    assert_eq!(out, vec![0, 0, 0]);

    let mut input = vec![b'0', 0x80, b'1'];
    let mut out = vec![0u8; 3];
    assert_eq!(decode_raw(&mut input, &mut out), Err(Error::InvalidCharacter));
    assert_eq!(out, vec![0, 0, 0]);
}

#[test]
fn change_base_consumes_input() {
    let mut num = vec![255u8, 254, 253, 252];
    let mut out = vec![0u8; 6];
    change_base(&mut num, &mut out, 256, 62).unwrap();
    assert!(num.is_empty());
}
