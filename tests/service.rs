use url_shortener::pages::{index, missing};
use url_shortener::service::{redirect_target, shortener, store_checked, ShortenError};
use url_shortener::store::Mapping;

#[test]
fn shorten_stores_a_valid_url() {
    let mut m = Mapping::new();
    let (url, key) = shortener(&mut m, "https://example.com/a").unwrap();
    assert_eq!(url, "https://example.com/a");
    assert_eq!(m.count(), 1);
    assert_eq!(m.get(key), Some(&url));
}

#[test]
fn shorten_decodes_percent_escapes() {
    let mut m = Mapping::new();
    let (url, key) = shortener(&mut m, "https%3A%2F%2Fexample.com%2Fa%20b").unwrap();
    assert_eq!(url, "https://example.com/a b");
    assert_eq!(m.get(key), Some(&"https://example.com/a b".to_string()));
}

#[test]
fn shorten_rejects_invalid_url() {
    let mut m = Mapping::new();
    assert_eq!(shortener(&mut m, "http"), Err(ShortenError::InvalidUrl));
    assert_eq!(shortener(&mut m, "not a url"), Err(ShortenError::InvalidUrl));
    assert_eq!(m.count(), 0);
}

#[test]
fn shorten_rejects_bad_encoding() {
    let mut m = Mapping::new();
    assert_eq!(shortener(&mut m, "https://example.com/%FF"), Err(ShortenError::InvalidUrl));
    assert_eq!(m.count(), 0);
}

#[test]
fn redirect_to_stored_url_or_missing() {
    let mut m = Mapping::new();
    let key = m.put("https://example.com/a");
    assert_eq!(redirect_target(&m, &format!("/{}", key)), "https://example.com/a");
    assert_eq!(redirect_target(&m, "/nonexistent-key"), "/missing");
    assert_eq!(redirect_target(&m, "/"), "/missing");
}

#[test]
fn page_texts() {
    assert_eq!(index(), "welcome to my url shortener \u{1f44b}");
    assert_eq!(missing(), "this mapping doesn't exist \u{1f632}");
}

#[test]
fn store_checked_follows_the_verdict() {
    let mut m = Mapping::new();
    assert_eq!(
        store_checked(&mut m, "https://example.com/a".to_string(), false),
        Err(ShortenError::InvalidUrl)
    );
    assert_eq!(m.count(), 0);
    let (url, key) = store_checked(&mut m, "https://example.com/a".to_string(), true).unwrap();
    assert_eq!(url, "https://example.com/a");
    assert_eq!(m.count(), 1);
    assert_eq!(m.get(key), Some(&url));
}
