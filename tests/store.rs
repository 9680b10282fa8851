use url_shortener::keygen::generate_key;
use url_shortener::store::Mapping;

#[test]
fn same_url_twice_gives_two_keys() {
    let mut m = Mapping::new();
    let k1 = m.put("https://example.com/a");
    assert_eq!(m.get(k1.clone()), Some(&"https://example.com/a".to_string()));
    let k2 = m.put("https://example.com/a");
    assert_ne!(k1, k2);
    assert_eq!(m.get(k2.clone()), Some(&"https://example.com/a".to_string()));
    assert_eq!(m.get(k1), Some(&"https://example.com/a".to_string()));
    assert_eq!(m.get("nonexistent-key".to_string()), None);
}

#[test]
fn fresh_store_is_empty() {
    let m = Mapping::new();
    assert_eq!(m.count(), 0);
    assert_eq!(m.get(String::new()), None);
    assert_eq!(m.get("abc".to_string()), None);
}

#[test]
fn counter_counts_every_put() {
    let mut m = Mapping::new();
    for i in 0..50u32 {
        assert_eq!(m.count(), i);
        m.put("https://example.com/same");
    }
    assert_eq!(m.count(), 50);
}

#[test]
fn many_puts_of_one_url_give_distinct_keys() {
    let mut m = Mapping::new();
    let mut keys: Vec<String> = Vec::new();
    for _ in 0..200 {
        keys.push(m.put("https://example.com/x"));
    }
    for i in 0..keys.len() {
        for j in (i + 1)..keys.len() {
            assert_ne!(keys[i], keys[j]);
        }
    }
}

#[test]
fn every_put_round_trips() {
    let mut m = Mapping::new();
    let mut pairs: Vec<(String, String)> = Vec::new();
    for i in 0..100 {
        let url = format!("https://example.com/page/{}", i);
        let key = m.put(&url);
        assert_eq!(m.get(key.clone()), Some(&url));
        pairs.push((key, url));
    }
    for (key, url) in pairs {
        assert_eq!(m.get(key), Some(&url));
    }
}

#[test]
fn keys_of_another_store_run_are_absent() {
    let mut m = Mapping::new();
    m.put("https://example.com/a");
    let foreign = generate_key("https://example.com/b", 1);
    assert_eq!(m.get(foreign), None);
    let later = generate_key("https://example.com/a", 2);
    assert_eq!(m.get(later), None);
}

#[test]
fn put_returns_the_generated_key() {
    let mut m = Mapping::new();
    let k1 = m.put("https://example.com/a");
    assert_eq!(k1, generate_key("https://example.com/a", 1));
    let k2 = m.put("https://rust-lang.org");
    assert_eq!(k2, generate_key("https://rust-lang.org", 2));
}

#[test]
fn interleaved_puts_from_several_callers() {
    let store = std::sync::Mutex::new(Mapping::new());
    let mut keys: Vec<(String, String)> = Vec::new();
    for round in 0..20 {
        for caller in 0..5 {
            let url = format!("https://caller{}.example/{}", caller, round);
            let key = store.lock().unwrap().put(&url);
            keys.push((key, url));
        }
    }
    let m = store.lock().unwrap();
    assert_eq!(m.count(), 100);
    for i in 0..keys.len() {
        assert_eq!(m.get(keys[i].0.clone()), Some(&keys[i].1));
        for j in (i + 1)..keys.len() {
            assert_ne!(keys[i].0, keys[j].0);
        }
    }
}
