use exthash::bucket::Bucket;
use exthash::bucket_alt1::BucketAlt1;
use exthash::bucket_alt2::BucketAlt2;
use exthash::codec::DecodeError;
use exthash::hash_alt1::{HashAlt1, IndexError};
use exthash::naming::next_string;
use exthash::record::Record;

const TEXT: &str = "Lorem ipsum dolor sit amet, consectetur adipiscing elit. Duis quis fringilla diam. Duis in est.";

fn rec(k: i32, t: &str) -> Record {
    Record { nseq: k, text: t.to_string() }
}

fn padded(t: &str) -> String {
    let mut s = t.to_string();
    while s.len() < 96 {
        s.push('\0');
    }
    s
}

#[test]
fn directory_length_tracks_global_depth() {
    let mut h = HashAlt1::new(2, 4);
    assert_eq!(h.directory_len(), 1 << h.global_depth());
    for k in [2, 10, 102, 98, 118, 6, 14, 22, 30, 38, -2, -6] {
        let _ = h.insert(rec(k, TEXT));
        assert_eq!(h.directory_len(), 1 << h.global_depth());
    }
    let _ = h.remove(10);
    assert_eq!(h.directory_len(), 1 << h.global_depth());
    h.double_directory();
    assert_eq!(h.directory_len(), 1 << h.global_depth());
}

#[test]
fn insert_then_search_returns_the_record() {
    let mut h = HashAlt1::new(2, 4);
    assert_eq!(h.insert(rec(42, "hello")), Ok(()));
    let (b, s) = h.search(42).unwrap();
    let r = &h.buckets[b].data[s];
    assert_eq!(r.nseq, 42);
    assert_eq!(r.text, padded("hello"));
    assert_eq!(r.text.trim_end_matches('\0'), "hello");
}

#[test]
fn inserting_a_key_twice_keeps_one_record() {
    let mut h = HashAlt1::new(2, 4);
    assert_eq!(h.insert(rec(7, "first")), Ok(()));
    assert_eq!(h.insert(rec(7, "second")), Err(IndexError::DuplicateKey));
    let (b, s) = h.search(7).unwrap();
    assert_eq!(h.buckets[b].data[s].text, padded("first"));
    let count: usize = h.buckets.iter().map(|bk| bk.data.iter().filter(|r| r.nseq == 7).count()).sum();
    assert_eq!(count, 1);
}

#[test]
fn encode_decode_keeps_every_search() {
    let mut h = HashAlt1::new(2, 4);
    let keys = [0, 1, 2, 3, 4, 8, 12, 16, 20, 24, -1, -5, 1000];
    for k in keys {
        assert_eq!(h.insert(rec(k, &format!("text {k}"))), Ok(()));
    }
    let bytes = h.serialize();
    let d = HashAlt1::deserialize(&bytes).unwrap();
    assert_eq!(d.global_depth(), h.global_depth());
    assert_eq!(d.directory_len(), h.directory_len());
    for k in keys {
        let (b, s) = h.search(k).unwrap();
        assert_eq!(d.search(k), Some((b, s)));
        assert_eq!(d.buckets[b].data[s].text, format!("text {k}"));
    }
    assert_eq!(d.search(5), None);
    assert_eq!(d.serialize(), bytes);
}

#[test]
fn split_adds_exactly_one_bucket() {
    let mut h = HashAlt1::new(2, 4);
    let before = h.buckets.len();
    for k in [2, 10, 102, 98, 118] {
        assert_eq!(h.insert(rec(k, TEXT)), Ok(()));
    }
    assert_eq!(h.buckets.len(), before + 1);
    for k in [2, 10, 102, 98, 118] {
        assert!(h.search(k).is_some());
    }
}

#[test]
fn directory_grows_when_a_full_bucket_is_as_deep_as_it() {
    let mut h = HashAlt1::new(2, 4);
    for k in [2, 10, 102, 98] {
        assert_eq!(h.insert(rec(k, TEXT)), Ok(()));
    }
    assert_eq!(h.global_depth(), 2);
    assert_eq!(h.insert(rec(118, TEXT)), Ok(()));
    assert_eq!(h.global_depth(), 3);
    assert_eq!(h.directory_len(), 8);
    for k in [2, 10, 102, 98, 118] {
        assert!(h.search(k).is_some());
    }
}

#[test]
fn hash_uses_the_low_bits() {
    assert_eq!(HashAlt1::new(2, 4).hash_fun(343), 3);
    assert_eq!(HashAlt1::new(3, 4).hash_fun(343), 7);
    assert_eq!(HashAlt1::new(3, 4).hash_fun(-1), 7);
    assert_eq!(HashAlt1::new(2, 4).hash_fun(-6), 2);
}

#[test]
fn negative_keys_are_found() {
    let mut h = HashAlt1::new(1, 2);
    for k in [-1, -2, -3, -4, -5, i32::MIN, i32::MAX] {
        assert_eq!(h.insert(rec(k, "n")), Ok(()));
    }
    for k in [-1, -2, -3, -4, -5, i32::MIN, i32::MAX] {
        assert!(h.search(k).is_some());
    }
}

#[test]
fn zero_capacity_overflows_depth() {
    let mut h = HashAlt1::new(0, 0);
    assert_eq!(h.insert(rec(1, "x")), Err(IndexError::OverflowDepth));
    assert_eq!(h.global_depth(), 15);
    assert_eq!(h.search(1), None);
}

#[test]
fn remove_returns_the_record_and_keeps_the_shape() {
    let mut h = HashAlt1::new(2, 4);
    let _ = h.insert(rec(5, "five"));
    let nb = h.buckets.len();
    let r = h.remove(5).unwrap();
    assert_eq!(r, Record { nseq: 5, text: padded("five") });
    assert_eq!(h.remove(5), None);
    assert_eq!(h.search(5), None);
    assert_eq!(h.buckets.len(), nb);
    assert_eq!(h.directory_len(), 4);
}

#[test]
fn decoding_short_input_fails() {
    assert_eq!(HashAlt1::deserialize(&vec![2, 0]).err(), Some(DecodeError::MalformedPersistedState));
    let h = HashAlt1::new(1, 2);
    let mut bytes = h.serialize();
    bytes.pop();
    assert_eq!(HashAlt1::deserialize(&bytes).err(), Some(DecodeError::MalformedPersistedState));
}

#[test]
fn decoding_an_inconsistent_directory_fails() {
    let h = HashAlt1::new(1, 2);
    let mut bytes = h.serialize();
    let n = bytes.len();
    bytes[n - 1] = 9;
    assert_eq!(HashAlt1::deserialize(&bytes).err(), Some(DecodeError::MalformedPersistedState));
}

#[test]
fn bucket_encoding_layout() {
    let mut b = BucketAlt1::new("AB".to_string(), 2, 2);
    assert!(b.insert(rec(258, "hi")));
    let e = b.serialize();
    assert_eq!(e.len(), 5 + 200);
    assert_eq!(&e[0..5], &[b'A', b'B', 0, 2, 2]);
    assert_eq!(&e[5..11], &[0, 0, 1, 2, b'h', b'i']);
    assert!(e[11..].iter().all(|x| *x == 0));
    let (d, end) = BucketAlt1::deserialize(&e, 0).unwrap();
    assert_eq!(end, e.len());
    assert_eq!(d.name, "AB");
    assert_eq!(d.data, vec![rec(258, "hi")]);
}

#[test]
fn bucket_rejects_when_full() {
    let mut b = BucketAlt1::new("A".to_string(), 1, 1);
    assert!(b.insert(rec(1, "a")));
    assert!(!b.insert(rec(2, "b")));
    assert_eq!(b.search(1), Some(0));
    assert_eq!(b.search(2), None);
    assert_eq!(b.remove(1), Some(rec(1, "a")));
    assert_eq!(b.remove(1), None);
}

#[test]
fn pair_bucket_operations() {
    let mut b = Bucket::new("A".to_string(), 2, 2);
    assert!(b.insert((1, "one".to_string())));
    assert!(b.insert((2, "two".to_string())));
    assert!(!b.insert((3, "three".to_string())));
    assert_eq!(b.search(2), Some((2, "two".to_string())));
    assert!(b.remove(1));
    assert!(!b.remove(1));
    assert_eq!(b.search(1), None);
    let e = b.serialize();
    let (d, _) = Bucket::deserialize(&e, 0).unwrap();
    assert_eq!(d.data, vec![(2, "two".to_string())]);
}

#[test]
fn secondary_bucket_round_trip() {
    let mut b = BucketAlt2::new("C".to_string(), 1, 3);
    assert!(b.insert((("abc".to_string(), -7), (3, 1))));
    assert!(b.insert((("xyz".to_string(), 9), (0, 2))));
    let e = b.serialize();
    assert_eq!(e.len(), 5 + 3 * 104);
    assert_eq!(&e[5 + 96..5 + 104], &[255, 255, 255, 249, 0, 3, 0, 1]);
    let (d, end) = BucketAlt2::deserialize(&e, 0).unwrap();
    assert_eq!(end, e.len());
    assert_eq!(d.data, b.data);
    assert!(b.remove(("abc".to_string(), -7)));
    assert!(!b.remove(("abc".to_string(), -7)));
    assert_eq!(b.data.len(), 1);
}

#[test]
fn label_sequence() {
    assert_eq!(next_string(&"ZZ".to_string()), "A");
    assert_eq!(next_string(&"A".to_string()), "B");
    assert_eq!(next_string(&"Z".to_string()), "AA");
    assert_eq!(next_string(&"AZ".to_string()), "BA");
    assert_eq!(next_string(&"AB".to_string()), "AC");
    assert_eq!(next_string(&"".to_string()), "A");
}

#[test]
fn bucket_drawing() {
    let mut b = BucketAlt1::new("A".to_string(), 2, 4);
    let _ = b.insert(rec(5, "x"));
    let _ = b.insert(rec(-12, "y"));
    let _ = b.insert(rec(1234, "z"));
    assert_eq!(
        b.render(),
        "+---+\n| 2 |\n+---+---+---+---+\n| 5 |-12|1234|   | A\n+---+---+---+---+"
    );
}

#[test]
fn largest_bucket_capacity_encodes() {
    let mut b = BucketAlt1::new("ZZ".to_string(), 8, 255);
    for k in 0..255 {
        assert!(b.insert(rec(k, "t")));
    }
    assert!(!b.insert(rec(255, "t")));
    let e = b.serialize();
    assert_eq!(e.len(), 5 + 255 * 100);
    let (d, end) = BucketAlt1::deserialize(&e, 0).unwrap();
    assert_eq!(end, e.len());
    assert_eq!(d.data.len(), 255);
    assert_eq!(d.data[254], rec(254, "t"));
}

#[test]
fn empty_index_finds_nothing() {
    let h = HashAlt1::new(3, 2);
    assert_eq!(h.search(0), None);
    assert_eq!(h.buckets.len(), 8);
    let d = HashAlt1::deserialize(&h.serialize()).unwrap();
    assert_eq!(d.search(0), None);
    assert_eq!(d.buckets.len(), 8);
}

#[test]
fn pair_and_secondary_bucket_drawings() {
    let mut b = Bucket::new("B".to_string(), 1, 2);
    assert!(b.insert((7, "seven".to_string())));
    assert_eq!(b.render(), "+---+\n| 1 |\n+---+---+\n| 7 |   | B\n+---+---+");
    let mut s = BucketAlt2::new("C".to_string(), 3, 1);
    assert!(s.insert((("x".to_string(), 42), (0, 0))));
    assert_eq!(s.render(), "+---+\n| 3 |\n+---+\n|42 | C\n+---+");
}

#[test]
fn too_long_text_is_refused() {
    let mut h = HashAlt1::new(2, 4);
    let long = "x".repeat(97);
    assert_eq!(h.insert(rec(1, &long)), Err(IndexError::TextTooLong));
    assert_eq!(h.search(1), None);
    assert_eq!(h.insert(rec(1, &"x".repeat(96))), Ok(()));
}

#[test]
fn fresh_index_labels() {
    let h = HashAlt1::new(2, 4);
    let names: Vec<&str> = h.buckets.iter().map(|b| b.name.as_str()).collect();
    assert_eq!(names, vec!["A", "B", "C", "D"]);
    assert_eq!(&h.serialize()[3..6], &[b'A', 0, 0]);
}

#[test]
fn split_double_test_shape() {
    let mut h = HashAlt1::new(2, 4);
    for k in [0, 8, 24, 56, 120] {
        assert_eq!(h.insert(rec(k, TEXT)), Ok(()));
    }
    assert_eq!(h.global_depth(), 4);
    assert_eq!(h.directory_len(), 16);
    assert_eq!(h.buckets.len(), 6);
    assert_eq!(h.buckets[4].name, "E");
    assert_eq!(h.buckets[5].name, "F");
    for k in [0, 8, 24, 56, 120] {
        assert!(h.search(k).is_some());
    }
}
