use std::collections::hash_map::DefaultHasher;
use std::hash::{Hash, Hasher};

use url_shortener::keygen::{calculate_hash, generate_key, push_decimal};

#[test]
fn decimal_text_of_numbers() {
    let cases: Vec<(u32, &str)> = vec![
        (0, "0"),
        (7, "7"),
        (10, "10"),
        (1234, "1234"),
        (1000000, "1000000"),
        (u32::MAX, "4294967295"),
    ];
    for (n, text) in cases {
        let mut s = String::from("x");
        push_decimal(&mut s, n);
        assert_eq!(s, format!("x{}", text));
    }
}

#[test]
fn hash_matches_hashing_a_string() {
    for t in ["", "abc", "https://example.com/a1", "\u{e9}t\u{e9}"] {
        let mut h = DefaultHasher::new();
        t.to_string().hash(&mut h);
        assert_eq!(calculate_hash(t), h.finish());
    }
}

#[test]
fn hash_separates_texts() {
    assert_ne!(calculate_hash("https://example.com/a1"), calculate_hash("https://example.com/a2"));
    assert_ne!(calculate_hash(""), calculate_hash("0"));
}

#[test]
fn key_is_base62_of_hash_bytes() {
    let url = "https://example.com/a";
    let key = generate_key(url, 1);
    let hash = calculate_hash("https://example.com/a1");
    assert_eq!(key, base_62::encode(&hash.to_le_bytes()));
    assert_ne!(key, url);
}

#[test]
fn key_is_short_and_alphanumeric() {
    for n in [1u32, 2, 99, u32::MAX] {
        let key = generate_key("https://example.com/a", n);
        assert!(!key.is_empty());
        assert!(key.len() <= 13);
        assert!(key.chars().all(|c| c.is_ascii_alphanumeric()));
    }
}

#[test]
fn key_depends_on_sequence_number() {
    assert_ne!(generate_key("https://example.com/a", 1), generate_key("https://example.com/a", 2));
    assert_eq!(generate_key("https://example.com/a", 5), generate_key("https://example.com/a", 5));
}
