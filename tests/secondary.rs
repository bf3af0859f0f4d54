use exthash::hash_alt1::{HashAlt1, IndexError};
use exthash::hash_alt2::HashAlt2;
use exthash::random_util::{rand_hash_values, random_string, unique_random_numbers};
use exthash::record::Record;

fn key(t: &str, k: i32) -> (String, i32) {
    (t.to_string(), k)
}

#[test]
fn secondary_insert_search_remove() {
    let mut h = HashAlt2::new(1, 2);
    assert_eq!(h.insert((0, 1), key("alpha", 4)), Ok(()));
    assert_eq!(h.insert((2, 0), key("beta", 4)), Ok(()));
    assert_eq!(h.insert((1, 1), key("gamma", 6)), Ok(()));
    assert_eq!(h.insert((3, 3), key("alpha", 4)), Err(IndexError::DuplicateKey));
    assert_eq!(h.search(&key("alpha", 4)), Some((0, 1)));
    assert_eq!(h.search(&key("beta", 4)), Some((2, 0)));
    assert_eq!(h.search(&key("alpha", 5)), None);
    assert!(h.remove(key("alpha", 4)));
    assert!(!h.remove(key("alpha", 4)));
    assert_eq!(h.search(&key("alpha", 4)), None);
    assert_eq!(h.search(&key("gamma", 6)), Some((1, 1)));
}

#[test]
fn secondary_splits_on_the_integer_key() {
    let mut h = HashAlt2::new(1, 2);
    for k in 0..20 {
        assert_eq!(h.insert((k as usize, 0), key("t", k)), Ok(()));
    }
    assert_eq!(h.directory_len(), 1 << h.global_depth());
    for k in 0..20 {
        assert_eq!(h.search(&key("t", k)), Some((k as usize, 0)));
    }
}

#[test]
fn secondary_encode_decode() {
    let mut h = HashAlt2::new(2, 4);
    for k in 0..12 {
        assert_eq!(h.insert((k as usize, 7), key(&format!("n{k}"), k * 3)), Ok(()));
    }
    let bytes = h.serialize();
    let d = HashAlt2::deserialize(&bytes).unwrap();
    for k in 0..12 {
        assert_eq!(d.search(&key(&format!("n{k}"), k * 3)), Some((k as usize, 7)));
    }
    assert_eq!(d.serialize(), bytes);
}

#[test]
fn shuffled_keys_are_a_permutation() {
    let mut v = unique_random_numbers(-3, 10);
    assert_eq!(v.len(), 14);
    v.sort();
    assert_eq!(v, (-3..=10).collect::<Vec<i32>>());
}

#[test]
fn random_strings_are_letters() {
    let s = random_string(95);
    assert_eq!(s.len(), 95);
    assert!(s.chars().all(|c| c.is_ascii_alphabetic()));
}

#[test]
fn random_load_links_both_indexes() {
    let mut h1 = HashAlt1::new(2, 4);
    let mut h2 = HashAlt2::new(2, 4);
    let drawn = rand_hash_values(&mut h1, &mut h2, 50);
    assert_eq!(drawn.len(), 50);
    for k in &drawn {
        assert!(h1.search(*k).is_some());
    }
    let mut found = 0;
    for k in 0..=50 {
        if let Some((b, s)) = h1.search(k) {
            found += 1;
            let r: &Record = &h1.buckets[b].data[s];
            let text = r.text.trim_end_matches('\0').to_string();
            // a location is only current until a later split moves the record
            assert!(h2.search(&(text, k)).is_some());
        }
    }
    assert_eq!(found, 50);
}
