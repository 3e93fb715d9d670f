use lmqueue::{Consumer, Entry, Producer, QueueError};
use lmqueue::codec::{decode_key, encode_key};
use lmqueue::trim::{derived_cutoff, min_offset};

fn lookup(offsets: &[(String, u64)], name: &str) -> Option<u64> {
    offsets.iter().find(|p| p.0 == name).map(|p| p.1)
}

#[test]
fn encode_is_big_endian_fixed_width() {
    assert_eq!(encode_key(0), vec![0, 0, 0, 0, 0, 0, 0, 0]);
    assert_eq!(encode_key(1), vec![0, 0, 0, 0, 0, 0, 0, 1]);
    assert_eq!(
        encode_key(0x0102_0304_0506_0708),
        vec![0x01, 0x02, 0x03, 0x04, 0x05, 0x06, 0x07, 0x08]
    );
    assert_eq!(encode_key(u64::MAX), vec![0xff; 8]);
}

#[test]
fn encode_preserves_order_bytewise() {
    // numeric order equals byte-lexicographic order of the encodings
    let samples: [u64; 6] = [0, 1, 255, 256, 0x1_0000_0000, u64::MAX];
    for &a in &samples {
        for &b in &samples {
            assert_eq!(a <= b, encode_key(a) <= encode_key(b));
        }
    }
}

#[test]
fn decode_round_trips() {
    for v in [0u64, 7, 256, 65_535, u64::MAX] {
        let k = encode_key(v);
        assert_eq!(decode_key(&k).expect("decode"), v);
    }
}

#[test]
fn decode_rejects_wrong_width() {
    assert!(matches!(decode_key(b""), Err(QueueError::Codec)));
    assert!(matches!(decode_key(b"1234567"), Err(QueueError::Codec)));
    assert!(matches!(decode_key(b"123456789"), Err(QueueError::Codec)));
}

#[test]
fn produce_allocates_dense_offsets() {
    let dir = tempfile::tempdir().expect("store-dir");
    let mut prod = Producer::new(dir.path().to_str().expect("path string")).expect("producer");
    assert_eq!(prod.produce(b"a").expect("produce"), 0);
    assert_eq!(prod.produce(b"b").expect("produce"), 1);
    assert_eq!(prod.produce(b"c").expect("produce"), 2);
}

#[test]
fn session_offsets_strictly_increase() {
    let dir = tempfile::tempdir().expect("store-dir");
    let mut prod = Producer::new(dir.path().to_str().expect("path string")).expect("producer");
    for p in [b"0", b"1", b"2", b"3"] {
        prod.produce(p).expect("produce");
    }
    let mut cons = Consumer::new(dir.path().to_str().expect("path string"), "default").expect(
        "consumer",
    );
    let mut seen: Vec<u64> = Vec::new();
    while let Some(e) = cons.poll().expect("poll") {
        seen.push(e.offset);
    }
    assert_eq!(seen, vec![0, 1, 2, 3]);
}

#[test]
fn discard_skips_to_next_surviving_entry() {
    let dir = tempfile::tempdir().expect("store-dir");
    let mut prod = Producer::new(dir.path().to_str().expect("path string")).expect("producer");
    for p in [b"0", b"1", b"2", b"3", b"4"] {
        prod.produce(p).expect("produce");
    }
    {
        let cons = Consumer::new(dir.path().to_str().expect("path string"), "cleaner").expect(
            "consumer",
        );
        cons.discard_upto(2).expect("discard");
    }
    let mut cons = Consumer::new(dir.path().to_str().expect("path string"), "reader").expect(
        "consumer",
    );
    let entry = cons.poll().expect("poll").expect("some entry");
    assert_eq!(entry.offset, 3);
    assert_eq!(entry.data, b"3".to_vec());
}

#[test]
fn discard_below_surviving_offsets_is_noop() {
    let dir = tempfile::tempdir().expect("store-dir");
    let mut prod = Producer::new(dir.path().to_str().expect("path string")).expect("producer");
    for p in [b"0", b"1", b"2", b"3"] {
        prod.produce(p).expect("produce");
    }
    let cons = Consumer::new(dir.path().to_str().expect("path string"), "cleaner").expect(
        "consumer",
    );
    cons.discard_upto(2).expect("discard");
    // everything left is above this cutoff: nothing changes
    cons.discard_upto(1).expect("discard");
    let mut reader = Consumer::new(dir.path().to_str().expect("path string"), "reader").expect(
        "consumer",
    );
    assert_eq!(reader.poll().expect("poll").map(|e| e.offset), Some(3));
}

#[test]
fn polled_but_uncommitted_consumer_is_not_listed() {
    let dir = tempfile::tempdir().expect("store-dir");
    let mut prod = Producer::new(dir.path().to_str().expect("path string")).expect("producer");
    prod.produce(b"0").expect("produce");
    let mut cons = Consumer::new(dir.path().to_str().expect("path string"), "one").expect(
        "consumer",
    );
    let entry = cons.poll().expect("poll").expect("some entry");
    assert_eq!(lookup(&cons.consumers().expect("consumers"), "one"), None);
    cons.commit_upto(&entry).expect("commit");
    assert_eq!(lookup(&cons.consumers().expect("consumers"), "one"), Some(entry.offset + 1));
}

#[test]
fn cleared_consumer_resumes_from_start() {
    let dir = tempfile::tempdir().expect("store-dir");
    let mut prod = Producer::new(dir.path().to_str().expect("path string")).expect("producer");
    prod.produce(b"0").expect("produce");
    prod.produce(b"1").expect("produce");
    {
        let mut cons = Consumer::new(dir.path().to_str().expect("path string"), "one").expect(
            "consumer",
        );
        let entry = cons.poll().expect("poll").expect("some entry");
        cons.commit_upto(&entry).expect("commit");
        cons.clear_offset().expect("clear");
    }
    let mut fresh = Consumer::new(dir.path().to_str().expect("path string"), "one").expect(
        "consumer",
    );
    assert_eq!(fresh.poll().expect("poll").map(|e| e.offset), Some(0));
}

#[test]
fn committed_reader_and_cleaner_scenario() {
    let dir = tempfile::tempdir().expect("store-dir");
    let mut prod = Producer::new(dir.path().to_str().expect("path string")).expect("producer");
    prod.produce(b"0").expect("produce");
    prod.produce(b"1").expect("produce");
    prod.produce(b"2").expect("produce");

    {
        let mut one = Consumer::new(dir.path().to_str().expect("path string"), "one").expect(
            "consumer",
        );
        let entry = one.poll().expect("poll").expect("some entry");
        assert_eq!(entry.data, b"0".to_vec());
        one.commit_upto(&entry).expect("commit");
    }
    {
        let cleaner = Consumer::new(dir.path().to_str().expect("path string"), "cleaner").expect(
            "consumer",
        );
        let one_next = lookup(&cleaner.consumers().expect("consumers"), "one").expect("one");
        assert_eq!(one_next, 1);
        cleaner.discard_upto(0).expect("discard");
    }
    {
        let mut two = Consumer::new(dir.path().to_str().expect("path string"), "two").expect(
            "consumer",
        );
        let entry = two.poll().expect("poll").expect("some entry");
        assert_eq!(entry.offset, 1);
        assert_eq!(entry.data, b"1".to_vec());
    }
}

#[test]
fn consumers_are_listed_in_name_order() {
    let dir = tempfile::tempdir().expect("store-dir");
    let mut prod = Producer::new(dir.path().to_str().expect("path string")).expect("producer");
    prod.produce(b"0").expect("produce");
    for name in ["bravo", "alpha", "charlie"] {
        let mut cons = Consumer::new(dir.path().to_str().expect("path string"), name).expect(
            "consumer",
        );
        let entry = cons.poll().expect("poll").expect("some entry");
        cons.commit_upto(&entry).expect("commit");
    }
    let cons = Consumer::new(dir.path().to_str().expect("path string"), "reader").expect(
        "consumer",
    );
    let names: Vec<String> = cons.consumers().expect("consumers").into_iter().map(|p| p.0).collect();
    assert_eq!(names, vec!["alpha".to_string(), "bravo".to_string(), "charlie".to_string()]);
}

#[test]
fn min_offset_of_empty_is_none() {
    assert_eq!(min_offset(&Vec::new()), None);
}

#[test]
fn min_offset_finds_smallest() {
    let items = vec![
        ("one".to_string(), 4u64),
        ("two".to_string(), 2u64),
        ("three".to_string(), 9u64),
    ];
    assert_eq!(min_offset(&items), Some(2));
}

#[test]
fn process_trim_uses_explicit_cutoff() {
    let dir = tempfile::tempdir().expect("store-dir");
    let mut prod = Producer::new(dir.path().to_str().expect("path string")).expect("producer");
    prod.produce(b"0").expect("produce");
    prod.produce(b"1").expect("produce");
    let used = lmqueue::process_trim(dir.path().to_str().expect("path string"), Some(0)).expect(
        "trim",
    );
    assert_eq!(used, Some(0));
    let mut cons = Consumer::new(dir.path().to_str().expect("path string"), "reader").expect(
        "consumer",
    );
    assert_eq!(cons.poll().expect("poll").map(|e| e.offset), Some(1));
}

#[test]
fn process_trim_skips_without_cutoff_or_commits() {
    let dir = tempfile::tempdir().expect("store-dir");
    let mut prod = Producer::new(dir.path().to_str().expect("path string")).expect("producer");
    prod.produce(b"0").expect("produce");
    let used = lmqueue::process_trim(dir.path().to_str().expect("path string"), None).expect(
        "trim",
    );
    assert_eq!(used, None);
    let mut cons = Consumer::new(dir.path().to_str().expect("path string"), "reader").expect(
        "consumer",
    );
    assert_eq!(cons.poll().expect("poll").map(|e| e.offset), Some(0));
}

#[test]
fn process_trim_keeps_the_slowest_consumer_unread_entry() {
    let dir = tempfile::tempdir().expect("store-dir");
    let mut prod = Producer::new(dir.path().to_str().expect("path string")).expect("producer");
    for p in [b"0", b"1", b"2"] {
        prod.produce(p).expect("produce");
    }
    for (name, polls) in [("slow", 1usize), ("fast", 3usize)] {
        let mut cons = Consumer::new(dir.path().to_str().expect("path string"), name).expect(
            "consumer",
        );
        let mut last = None;
        for _ in 0..polls {
            last = cons.poll().expect("poll");
        }
        cons.commit_upto(last.as_ref().expect("entry")).expect("commit");
    }
    // the slow group's committed offset is 1 (its next to read), so only the
    // fully-consumed prefix — entry 0 — may go
    let used = lmqueue::process_trim(dir.path().to_str().expect("path string"), None).expect(
        "trim",
    );
    assert_eq!(used, Some(0));
    let mut slow = Consumer::new(dir.path().to_str().expect("path string"), "slow").expect(
        "consumer",
    );
    let next = slow.poll().expect("poll").expect("some entry");
    assert_eq!(next.offset, 1);
    assert_eq!(next.data, b"1".to_vec());
}

#[test]
fn derived_cutoff_is_one_below_the_minimum() {
    assert_eq!(derived_cutoff(&Vec::new()), None);
    assert_eq!(derived_cutoff(&vec![("one".to_string(), 0u64)]), None);
    assert_eq!(derived_cutoff(&vec![("one".to_string(), 1u64)]), Some(0));
    assert_eq!(
        derived_cutoff(&vec![
            ("one".to_string(), 4u64),
            ("two".to_string(), 2u64),
            ("three".to_string(), 9u64),
        ]),
        Some(1)
    );
}

#[test]
fn entries_compare_by_offset_and_payload() {
    let a = Entry { offset: 3, data: b"abc".to_vec() };
    let b = Entry { offset: 3, data: b"abc".to_vec() };
    let c = Entry { offset: 3, data: b"abd".to_vec() };
    let d = Entry { offset: 4, data: b"abc".to_vec() };
    assert_eq!(a, b);
    assert_ne!(a, c);
    assert_ne!(a, d);
    assert_eq!(a.clone(), b);
}

#[test]
fn default_config_reserves_a_gigabyte() {
    let cfg = lmqueue::Config::default();
    assert_eq!(cfg.map_size, 0x4000_0000);
    assert_eq!(cfg.max_namespaces, 3);
}

#[test]
fn queue_works_under_a_custom_config() {
    let dir = tempfile::tempdir().expect("store-dir");
    let cfg = lmqueue::Config { map_size: 1 << 26, max_namespaces: 3 };
    let mut prod =
        Producer::with_config(dir.path().to_str().expect("path string"), &cfg).expect("producer");
    assert_eq!(prod.produce(b"x").expect("produce"), 0);
    let mut cons =
        Consumer::with_config(dir.path().to_str().expect("path string"), "default", &cfg)
            .expect("consumer");
    assert_eq!(cons.poll().expect("poll").map(|e| e.data), Some(b"x".to_vec()));
}

#[test]
fn recommitting_keeps_one_record_per_name() {
    let dir = tempfile::tempdir().expect("store-dir");
    let mut prod = Producer::new(dir.path().to_str().expect("path string")).expect("producer");
    prod.produce(b"0").expect("produce");
    prod.produce(b"1").expect("produce");
    let mut cons = Consumer::new(dir.path().to_str().expect("path string"), "one").expect(
        "consumer",
    );
    let first = cons.poll().expect("poll").expect("some entry");
    cons.commit_upto(&first).expect("commit");
    let second = cons.poll().expect("poll").expect("some entry");
    cons.commit_upto(&second).expect("commit");
    let offsets = cons.consumers().expect("consumers");
    assert_eq!(offsets.len(), 1);
    assert_eq!(lookup(&offsets, "one"), Some(second.offset + 1));
}
