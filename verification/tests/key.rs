use rehash::key::CacheKey;
use rehash::Error;

fn corrupt_text(r: Result<CacheKey, Error>) -> String {
    match r {
        Err(Error::Corrupt(d)) => d,
        _ => panic!("expected a corrupt-key error"),
    }
}

#[test]
fn hex_is_lowercase_high_nibble_first() {
    let mut bytes = [0u8; 32];
    for (i, b) in bytes.iter_mut().enumerate() {
        *b = (i as u8) * 8 + 1;
    }
    bytes[0] = 0x00;
    bytes[31] = 0xff;
    let hex = CacheKey::new(bytes).to_hex();
    let expected: String = bytes.iter().map(|b| format!("{:02x}", b)).collect();
    assert_eq!(hex, expected);
    assert!(hex.starts_with("00"));
    assert!(hex.ends_with("ff"));
}

#[test]
fn hex_round_trip_of_many_keys() {
    for seed in 0..=255u8 {
        let mut bytes = [0u8; 32];
        for (i, b) in bytes.iter_mut().enumerate() {
            *b = seed.wrapping_mul(31).wrapping_add(i as u8 * 7);
        }
        let key = CacheKey::new(bytes);
        assert_eq!(CacheKey::from_hex(&key.to_hex()).unwrap(), key);
        assert_eq!(key.as_bytes(), &bytes);
    }
}

#[test]
fn from_hex_accepts_upper_case_and_plus_sign() {
    let upper = "AB".repeat(32);
    assert_eq!(CacheKey::from_hex(&upper).unwrap(), CacheKey::new([0xab; 32]));
    let plus = format!("+f{}", "00".repeat(31));
    let mut bytes = [0u8; 32];
    bytes[0] = 15;
    assert_eq!(CacheKey::from_hex(&plus).unwrap(), CacheKey::new(bytes));
}

#[test]
fn from_hex_rejects_wrong_length() {
    assert_eq!(corrupt_text(CacheKey::from_hex("abc")), "hex string must be 64 chars, got 3");
    assert_eq!(corrupt_text(CacheKey::from_hex("")), "hex string must be 64 chars, got 0");
    assert_eq!(corrupt_text(CacheKey::from_hex(&"a".repeat(130))), "hex string must be 64 chars, got 130");
    // Length counts bytes: 32 two-byte characters are 64 bytes.
    let wide = "\u{e9}".repeat(32);
    assert_eq!(wide.len(), 64);
    assert_eq!(corrupt_text(CacheKey::from_hex(&wide)), "invalid hex: invalid digit found in string");
}

#[test]
fn from_hex_rejects_bad_digits() {
    let bad = format!("{}zz", "00".repeat(31));
    assert_eq!(corrupt_text(CacheKey::from_hex(&bad)), "invalid hex: invalid digit found in string");
    let minus = format!("-1{}", "00".repeat(31));
    assert_eq!(corrupt_text(CacheKey::from_hex(&minus)), "invalid hex: invalid digit found in string");
    let plus_plus = format!("++{}", "00".repeat(31));
    assert!(CacheKey::from_hex(&plus_plus).is_err());
}

#[test]
fn hex_slicing_check() {
    assert!(CacheKey::hex_slices_cleanly(&"ab".repeat(32)));
    assert!(CacheKey::hex_slices_cleanly("short"));
    // A three-byte character at the start of a field cannot be sliced as two bytes.
    let s = format!("\u{20ac}{}", "0".repeat(61));
    assert_eq!(s.len(), 64);
    assert!(!CacheKey::hex_slices_cleanly(&s));
    // A two-byte character filling a field slices cleanly (and is an invalid digit).
    let t = format!("\u{e9}{}", "0".repeat(62));
    assert!(CacheKey::hex_slices_cleanly(&t));
    assert!(CacheKey::from_hex(&t).is_err());
}

#[test]
fn keys_compare_by_bytes() {
    let a = CacheKey::new([1; 32]);
    let mut bytes = [1u8; 32];
    assert!(a.same(&CacheKey::new(bytes)));
    bytes[17] = 2;
    assert!(!a.same(&CacheKey::new(bytes)));
    assert_ne!(a, CacheKey::new(bytes));
}

#[test]
fn hex_reads_back_in_lower_case() {
    let text = "00FFaB9cDEadBEef0123456789ABCDEFabcdef0123456789aBcDeF0011223344";
    assert_eq!(text.len(), 64);
    let key = CacheKey::from_hex(text).unwrap();
    assert_eq!(key.to_hex(), text.to_ascii_lowercase());
}
