use ksuid::{Error, Ksuid, EPOCH};

const MAX_BASE62: &str = "aWgEPTl1tmebfsQzFP4bxwgy80V";

#[test]
fn new_sets_fields_independently() {
    let id = Ksuid::new(1000, [0; 16]);
    assert_eq!(id.timestamp(), 1000);
    assert_eq!(id.payload(), &[0u8; 16][..]);
}

#[test]
fn set_payload_leaves_timestamp_alone() {
    let mut id = Ksuid::new(1000, [0; 16]);
    id.set_payload([0xAB; 16]);
    assert_eq!(id.timestamp(), 1000);
    assert_eq!(id.payload(), &[0xAB; 16][..]);
    assert_eq!(&id.as_bytes()[0..4], &[0, 0, 0x03, 0xE8]);
}

#[test]
fn set_timestamp_leaves_payload_alone() {
    let mut id = Ksuid::new(7, [0x11; 16]);
    id.set_timestamp(0xDEADBEEF);
    assert_eq!(id.timestamp(), 0xDEADBEEF);
    assert_eq!(id.payload(), &[0x11; 16][..]);
    assert_eq!(&id.as_bytes()[0..4], &[0xDE, 0xAD, 0xBE, 0xEF]);
}

#[test]
fn time_is_epoch_plus_timestamp() {
    let id = Ksuid::new(1000, [0; 16]);
    assert_eq!(id.time(), EPOCH + 1000);

    let mut id2 = Ksuid::new(0, [3; 16]);
    id2.set_time(EPOCH + 123_456);
    assert_eq!(id2.timestamp(), 123_456);
    assert_eq!(id2.time(), EPOCH + 123_456);
    assert_eq!(id2.payload(), &[3u8; 16][..]);
}

#[test]
fn from_bytes_round_trip() {
    let raw: Vec<u8> = (100..120u8).collect();
    let id = Ksuid::from_bytes(&raw).unwrap();
    assert_eq!(id.as_bytes(), &raw[..]);
}

#[test]
fn from_bytes_rejects_wrong_length() {
    assert_eq!(Ksuid::from_bytes(&[0u8; 19]).unwrap_err(), Error::InvalidLength);
    assert_eq!(Ksuid::from_bytes(&[0u8; 21]).unwrap_err(), Error::InvalidLength);
    assert_eq!(Ksuid::from_bytes(&[]).unwrap_err(), Error::InvalidLength);
}

#[test]
fn maximum_identifier_encodes_to_known_string() {
    let id = Ksuid::from_bytes(&[0xFF; 20]).unwrap();
    assert_eq!(id.to_base62(), MAX_BASE62);
}

#[test]
fn maximum_string_decodes_to_all_ff() {
    let id = Ksuid::from_base62(MAX_BASE62).unwrap();
    assert_eq!(id.as_bytes(), &[0xFF; 20][..]);
}

#[test]
fn base62_round_trip() {
    let raw: Vec<u8> = (0..20u8).map(|i| i.wrapping_mul(13).wrapping_add(7)).collect();
    let id = Ksuid::from_bytes(&raw).unwrap();
    let encoded = id.to_base62();
    assert_eq!(encoded.len(), 27);
    let back = Ksuid::from_base62(&encoded).unwrap();
    assert_eq!(back.as_bytes(), &raw[..]);
    assert_eq!(back, id);
}

#[test]
fn hex_round_trip() {
    let raw: Vec<u8> = (0..20u8).map(|i| i.wrapping_mul(31).wrapping_add(5)).collect();
    let id = Ksuid::from_bytes(&raw).unwrap();
    let encoded = id.to_hex();
    assert_eq!(encoded.len(), 40);
    assert!(encoded.chars().all(|c| c.is_ascii_digit() || c.is_ascii_uppercase()));
    let back = Ksuid::from_hex(&encoded).unwrap();
    assert_eq!(back.as_bytes(), &raw[..]);
    assert_eq!(back, id);
}

#[test]
fn codecs_are_idempotent() {
    let id = Ksuid::new(94_985_761, [0x42; 16]);

    let s1 = id.to_base62();
    let s2 = Ksuid::from_base62(&s1).unwrap().to_base62();
    assert_eq!(s1, s2);

    let h1 = id.to_hex();
    let h2 = Ksuid::from_hex(&h1).unwrap().to_hex();
    assert_eq!(h1, h2);
}

#[test]
fn known_vector_hex() {
    let id = Ksuid::from_hex("05A95E21D7B6FE8CD7CFF211704D8E7B9421210B").unwrap();
    assert_eq!(id.timestamp(), 94985761);
}

#[test]
fn known_vector_hex_mixed_case() {
    let id = Ksuid::from_hex("05a95e21D7B6Fe8CD7Cff211704d8E7B9421210B").unwrap();
    assert_eq!(id.timestamp(), 94985761);
    // output is canonical uppercase regardless of input case
    assert_eq!(id.to_hex(), "05A95E21D7B6FE8CD7CFF211704D8E7B9421210B");
}

#[test]
fn known_vector_base62() {
    let id = Ksuid::from_base62("0o5Fs0EELR0fUjHjbCnEtdUwQe3").unwrap();
    assert_eq!(id.timestamp(), 94985761);
    assert_eq!(id.to_hex(), "05A95E21D7B6FE8CD7CFF211704D8E7B9421210B");
}

#[test]
fn base62_rejects_too_large() {
    // one above the maximal rendering in its last character
    let above = "aWgEPTl1tmebfsQzFP4bxwgy80W";
    assert_eq!(Ksuid::from_base62(above).unwrap_err(), Error::ValueTooLarge);
    // larger in the first character
    let above_first = "zWgEPTl1tmebfsQzFP4bxwgy80V";
    assert_eq!(Ksuid::from_base62(above_first).unwrap_err(), Error::ValueTooLarge);
}

#[test]
fn base62_rejects_wrong_length() {
    assert_eq!(Ksuid::from_base62("0o5Fs0EELR0fUjHjbCnEtdUwQe").unwrap_err(), Error::InvalidLength);
    assert_eq!(
        Ksuid::from_base62("0o5Fs0EELR0fUjHjbCnEtdUwQe33").unwrap_err(),
        Error::InvalidLength
    );
    assert_eq!(Ksuid::from_base62("").unwrap_err(), Error::InvalidLength);
}

#[test]
fn base62_rejects_invalid_character() {
    assert_eq!(Ksuid::from_base62("0o5Fs0EELR0fUjHjbCnEtdUwQe!").unwrap_err(), Error::InvalidCharacter);
    assert_eq!(Ksuid::from_base62("!o5Fs0EELR0fUjHjbCnEtdUwQe3").unwrap_err(), Error::InvalidCharacter);
}

#[test]
fn base62_rejects_non_ascii() {
    // 25 ASCII zeros and one two-byte character: 27 bytes in all
    let s = format!("{}\u{e9}", "0".repeat(25));
    assert_eq!(s.len(), 27);
    assert_eq!(Ksuid::from_base62(&s).unwrap_err(), Error::InvalidCharacter);
}

#[test]
fn maximum_identifier_timestamp() {
    let id = Ksuid::from_bytes(&[0xFF; 20]).unwrap();
    assert_eq!(id.timestamp(), u32::MAX);
    assert_eq!(id.payload(), &[0xFF; 16][..]);
}

#[test]
fn hex_rejects_wrong_length() {
    assert_eq!(Ksuid::from_hex("05A95E21").unwrap_err(), Error::InvalidLength);
    assert_eq!(
        Ksuid::from_hex("05A95E21D7B6FE8CD7CFF211704D8E7B9421210B00").unwrap_err(),
        Error::InvalidLength
    );
}

#[test]
fn hex_rejects_invalid_character() {
    assert_eq!(
        Ksuid::from_hex("G5A95E21D7B6FE8CD7CFF211704D8E7B9421210B").unwrap_err(),
        Error::InvalidCharacter
    );
    assert_eq!(
        Ksuid::from_hex("05A95E21D7B6FE8CD7CFF211704D8E7B942121!B").unwrap_err(),
        Error::InvalidCharacter
    );
}

#[test]
fn ordering_preserved_by_encodings() {
    let pairs = [
        (Ksuid::new(1, [0; 16]), Ksuid::new(2, [0; 16])),
        (Ksuid::new(5, [0; 16]), Ksuid::new(5, [1; 16])),
        (Ksuid::new(0, [0; 16]), Ksuid::new(0xFFFF_FFFF, [0xFF; 16])),
        (
            Ksuid::from_bytes(&[0x00; 20]).unwrap(),
            Ksuid::from_bytes(&[0xFF; 20]).unwrap(),
        ),
    ];
    for (x, y) in pairs {
        assert!(x.as_bytes() < y.as_bytes());
        assert!(x.to_base62() < y.to_base62());
        assert!(x.to_hex() < y.to_hex());
    }
}

#[test]
fn zero_identifier_encodings() {
    let id = Ksuid::from_bytes(&[0u8; 20]).unwrap();
    assert_eq!(id.to_base62(), "000000000000000000000000000");
    assert_eq!(id.to_hex(), "0000000000000000000000000000000000000000");
    assert_eq!(Ksuid::from_base62("000000000000000000000000000").unwrap(), id);
}

#[test]
fn from_unix_time_stores_clock_offset() {
    let id = Ksuid::from_unix_time(EPOCH + 1000, [4; 16]).unwrap();
    assert_eq!(id.timestamp(), 1000);
    assert_eq!(id.payload(), &[4u8; 16][..]);

    let start = Ksuid::from_unix_time(EPOCH, [0; 16]).unwrap();
    assert_eq!(start.timestamp(), 0);

    let top = Ksuid::from_unix_time(EPOCH + 0xFFFF_FFFF, [0; 16]).unwrap();
    assert_eq!(top.timestamp(), u32::MAX);
}

#[test]
fn from_unix_time_rejects_out_of_window() {
    assert_eq!(Ksuid::from_unix_time(EPOCH - 1, [0; 16]).unwrap_err(), Error::TimestampOutOfRange);
    assert_eq!(Ksuid::from_unix_time(0, [0; 16]).unwrap_err(), Error::TimestampOutOfRange);
    assert_eq!(
        Ksuid::from_unix_time(EPOCH + 0x1_0000_0000, [0; 16]).unwrap_err(),
        Error::TimestampOutOfRange
    );
    assert_eq!(Ksuid::from_unix_time(i64::MIN, [0; 16]).unwrap_err(), Error::TimestampOutOfRange);
    assert_eq!(Ksuid::from_unix_time(i64::MAX, [0; 16]).unwrap_err(), Error::TimestampOutOfRange);
}

#[test]
fn with_payload_uses_current_time() {
    let id = Ksuid::with_payload([9; 16]).unwrap();
    assert_eq!(id.payload(), &[9u8; 16][..]);
    // the clock is well past the custom epoch by now
    assert!(id.timestamp() > 0);
}

#[test]
fn generate_produces_well_formed_ids() {
    let a = Ksuid::generate().unwrap();
    let b = Ksuid::generate().unwrap();
    assert_eq!(a.as_bytes().len(), 20);
    assert_eq!(b.as_bytes().len(), 20);
    // round trip still holds for generated identifiers
    assert_eq!(Ksuid::from_base62(&a.to_base62()).unwrap(), a);
}

#[test]
fn clone_preserves_value() {
    let id = Ksuid::new(42, [7; 16]);
    let copy = id.clone();
    assert_eq!(copy, id);
    assert_eq!(copy.as_bytes(), id.as_bytes());
    // identifiers are plain copyable values
    let copy2 = id;
    assert_eq!(copy2, id);
}
