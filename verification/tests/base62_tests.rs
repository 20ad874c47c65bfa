use make_short_url::base62::{decode, encode, ALPHABET, BASE};

#[test]
fn encode_zero_is_single_zero() {
    assert_eq!(encode(0), "0");
}

#[test]
fn encode_single_digits() {
    assert_eq!(encode(9), "9");
    assert_eq!(encode(10), "A");
    assert_eq!(encode(35), "Z");
    assert_eq!(encode(36), "a");
    assert_eq!(encode(61), "z");
}

#[test]
fn encode_carries_into_next_digit() {
    assert_eq!(encode(62), "10");
    assert_eq!(encode(3843), "zz");
    assert_eq!(encode(3844), "100");
    assert_eq!(encode(123456789), "8M0kX");
}

#[test]
fn encode_largest_values() {
    assert_eq!(encode(u64::MAX), "LygHa16AHYF");
    assert_eq!(encode(u64::MAX - 5), "LygHa16AHYA");
}

#[test]
fn decode_known_codes() {
    assert_eq!(decode("0"), 0);
    assert_eq!(decode("z"), 61);
    assert_eq!(decode("10"), 62);
    assert_eq!(decode("8M0kX"), 123456789);
    assert_eq!(decode("LygHa16AHYF"), u64::MAX);
    assert_eq!(decode("i0"), 44 * 62);
}

#[test]
fn decode_accepts_leading_zeros() {
    assert_eq!(decode("000z"), 61);
    assert_eq!(decode(""), 0);
}

#[test]
fn decode_inverts_encode() {
    for n in [0u64, 1, 61, 62, 63, 1000, 3843, 3844, 987654321, u64::MAX / 62, u64::MAX] {
        assert_eq!(decode(&encode(n)), n);
    }
}

#[test]
fn encode_inverts_decode_on_canonical_codes() {
    for s in ["0", "1", "z", "10", "Zz9", "abcXYZ", "LygHa16AHYF"] {
        assert_eq!(encode(decode(s)), s);
    }
}

#[test]
fn distinct_numbers_distinct_codes() {
    let codes: Vec<String> = (0u64..500).map(encode).collect();
    for i in 0..codes.len() {
        for j in (i + 1)..codes.len() {
            assert_ne!(codes[i], codes[j]);
        }
    }
}

#[test]
fn alphabet_has_base_symbols() {
    assert_eq!(ALPHABET.chars().count() as u64, BASE);
    for (i, c) in ALPHABET.chars().enumerate() {
        assert_eq!(encode(i as u64), c.to_string());
    }
}

fn shortlex_less(a: &str, b: &str) -> bool {
    a.len() < b.len() || (a.len() == b.len() && a < b)
}

#[test]
fn encode_is_increasing_in_shortlex_order() {
    let mut prev = encode(0);
    for n in 1u64..5000 {
        let cur = encode(n);
        assert!(shortlex_less(&prev, &cur), "{} {}", prev, cur);
        prev = cur;
    }
    assert!(shortlex_less(&encode(u64::MAX - 1), &encode(u64::MAX)));
    assert!(shortlex_less(&encode(61), &encode(62)));
}
