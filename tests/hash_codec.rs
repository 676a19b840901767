use ksud::hash_codec::{encode_hash_text, parse_hash};

fn sample_hash() -> [u8; 64] {
    let mut h = [0u8; 64];
    for (i, b) in h.iter_mut().enumerate() {
        *b = (i as u8).wrapping_mul(37).wrapping_add(200);
    }
    h
}

#[test]
fn encode_gives_two_lowercase_digits_per_byte() {
    let mut h = [0u8; 64];
    h[0] = 0xab;
    h[1] = 0x0f;
    h[63] = 0xff;
    let text = encode_hash_text(&h);
    assert_eq!(text.len(), 128);
    assert!(text.starts_with("ab0f0000"));
    assert!(text.ends_with("00ff"));
}

#[test]
fn encode_of_all_zero_hash() {
    assert_eq!(encode_hash_text(&[0u8; 64]), "0".repeat(128));
}

#[test]
fn round_trip_keeps_bytes_that_are_not_text() {
    let h = sample_hash();
    assert!(h.iter().any(|b| *b >= 0x80));
    let text = encode_hash_text(&h);
    assert_eq!(parse_hash(&text), Ok(h));
}

#[test]
fn round_trip_of_every_byte_value() {
    for start in 0..4u32 {
        let mut h = [0u8; 64];
        for (i, b) in h.iter_mut().enumerate() {
            *b = (start * 64 + i as u32) as u8;
        }
        assert_eq!(parse_hash(&encode_hash_text(&h)), Ok(h));
    }
}

#[test]
fn parse_accepts_uppercase_digits() {
    let text = "AB".repeat(64);
    assert_eq!(parse_hash(&text), Ok([0xab; 64]));
}

#[test]
fn parse_rejects_wrong_length() {
    assert_eq!(parse_hash(&"00".repeat(63)), Err("Incorrect hash".to_string()));
    assert_eq!(parse_hash(&"0".repeat(129)), Err("Incorrect hash".to_string()));
    assert_eq!(parse_hash(""), Err("Incorrect hash".to_string()));
}

#[test]
fn parse_rejects_raw_64_byte_text() {
    assert!(parse_hash(&"a".repeat(64)).is_err());
}

#[test]
fn parse_rejects_non_hex_character() {
    let mut text = "00".repeat(64);
    text.replace_range(5..6, "g");
    assert!(parse_hash(&text).is_err());
    let mut text = "00".repeat(64);
    text.replace_range(127..128, " ");
    assert!(parse_hash(&text).is_err());
}
