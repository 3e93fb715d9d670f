use lmqueue::{Consumer, Producer};

fn lookup(offsets: &[(String, u64)], name: &str) -> Option<u64> {
    offsets.iter().find(|p| p.0 == name).map(|p| p.1)
}

#[test]
fn can_produce_none() {
    let dir = tempfile::tempdir().expect("store-dir");
    let mut cons = Consumer::new(dir.path().to_str().expect("path string"), "default").expect(
        "consumer",
    );
    assert_eq!(cons.poll().expect("poll").map(|e| e.data), None)
}

#[test]
fn can_produce_one() {
    let dir = tempfile::tempdir().expect("store-dir");
    let mut prod = Producer::new(dir.path().to_str().expect("path string")).expect("producer");
    let mut cons = Consumer::new(dir.path().to_str().expect("path string"), "default").expect(
        "consumer",
    );
    prod.produce(b"42").expect("produce");

    assert_eq!(cons.poll().expect("poll").map(|e| e.data), Some(b"42".to_vec()));
    assert_eq!(cons.poll().expect("poll").map(|e| e.data), None)
}

#[test]
fn can_produce_several() {
    let dir = tempfile::tempdir().expect("store-dir");
    let mut prod = Producer::new(dir.path().to_str().expect("path string")).expect("producer");
    let mut cons = Consumer::new(dir.path().to_str().expect("path string"), "default").expect(
        "consumer",
    );
    prod.produce(b"0").expect("produce");
    prod.produce(b"1").expect("produce");
    prod.produce(b"2").expect("produce");

    assert_eq!(cons.poll().expect("poll").map(|e| e.data), Some(b"0".to_vec()));
    assert_eq!(cons.poll().expect("poll").map(|e| e.data), Some(b"1".to_vec()));
    assert_eq!(cons.poll().expect("poll").map(|e| e.data), Some(b"2".to_vec()));
    assert_eq!(cons.poll().expect("poll").map(|e| e.data), None)
}

#[test]
fn can_produce_incrementally() {
    let dir = tempfile::tempdir().expect("store-dir");
    Producer::new(dir.path().to_str().expect("path string"))
        .expect("producer")
        .produce(b"0")
        .expect("produce");
    Producer::new(dir.path().to_str().expect("path string"))
        .expect("producer")
        .produce(b"1")
        .expect("produce");
    Producer::new(dir.path().to_str().expect("path string"))
        .expect("producer")
        .produce(b"2")
        .expect("produce");

    let mut cons = Consumer::new(dir.path().to_str().expect("path string"), "default").expect(
        "consumer",
    );
    assert_eq!(cons.poll().expect("poll").map(|e| e.data), Some(b"0".to_vec()));
    assert_eq!(cons.poll().expect("poll").map(|e| e.data), Some(b"1".to_vec()));
    assert_eq!(cons.poll().expect("poll").map(|e| e.data), Some(b"2".to_vec()));
    assert_eq!(cons.poll().expect("poll").map(|e| e.data), None)
}

#[test]
fn can_consume_incrementally() {
    let dir = tempfile::tempdir().expect("store-dir");
    let mut prod = Producer::new(dir.path().to_str().expect("path string")).expect("producer");
    prod.produce(b"0").expect("produce");
    prod.produce(b"1").expect("produce");
    prod.produce(b"2").expect("produce");

    for expected in &[Some(b"0"), Some(b"1"), Some(b"2"), None] {
        let mut cons = Consumer::new(dir.path().to_str().expect("path string"), "default").expect(
            "consumer",
        );
        let entry = cons.poll().expect("poll");
        if let Some(ref e) = entry {
            cons.commit_upto(e).expect("commit");
        }
        assert_eq!(entry.map(|e| e.data), expected.map(|v| v.to_vec()));
    }
}

#[test]
fn can_restart_consume_at_commit_point() {
    let dir = tempfile::tempdir().expect("store-dir");
    let mut prod = Producer::new(dir.path().to_str().expect("path string")).expect("producer");
    prod.produce(b"0").expect("produce");
    prod.produce(b"1").expect("produce");
    prod.produce(b"2").expect("produce");

    {
        let mut cons = Consumer::new(dir.path().to_str().expect("path string"), "default").expect(
            "consumer",
        );
        let entry = cons.poll().expect("poll");
        cons.commit_upto(entry.as_ref().unwrap()).expect("commit");
        assert_eq!(entry.map(|e| e.data), Some(b"0".to_vec()));
    }

    {
        let mut cons = Consumer::new(dir.path().to_str().expect("path string"), "default").expect(
            "consumer",
        );
        let entry = cons.poll().expect("poll");
        assert_eq!(entry.map(|e| e.data), Some(b"1".to_vec()));
    }
    {
        let mut cons = Consumer::new(dir.path().to_str().expect("path string"), "default").expect(
            "consumer",
        );
        let entry = cons.poll().expect("poll");
        assert_eq!(entry.map(|e| e.data), Some(b"1".to_vec()));
    }
}

#[test]
fn can_progress_without_commit() {
    let dir = tempfile::tempdir().expect("store-dir");
    let mut prod = Producer::new(dir.path().to_str().expect("path string")).expect("producer");
    prod.produce(b"0").expect("produce");
    prod.produce(b"1").expect("produce");
    prod.produce(b"2").expect("produce");

    {
        let mut cons = Consumer::new(dir.path().to_str().expect("path string"), "default").expect(
            "consumer",
        );
        let entry = cons.poll().expect("poll");
        assert_eq!(entry.map(|e| e.data), Some(b"0".to_vec()));
        let entry = cons.poll().expect("poll");
        assert_eq!(entry.map(|e| e.data), Some(b"1".to_vec()));
    }
}

#[test]
fn can_consume_multiply() {
    let dir = tempfile::tempdir().expect("store-dir");
    let mut prod = Producer::new(dir.path().to_str().expect("path string")).expect("producer");
    prod.produce(b"0").expect("produce");
    prod.produce(b"1").expect("produce");

    {
        let mut cons = Consumer::new(dir.path().to_str().expect("path string"), "one").expect(
            "consumer",
        );
        let entry = cons.poll().expect("poll");
        if let Some(ref e) = entry {
            cons.commit_upto(e).expect("commit");
        }
        assert_eq!(entry.map(|e| e.data), Some(b"0".to_vec()));
    }
    {
        let mut cons = Consumer::new(dir.path().to_str().expect("path string"), "one").expect(
            "consumer",
        );
        let entry = cons.poll().expect("poll");
        assert_eq!(entry.map(|e| e.data), Some(b"1".to_vec()));
    }
    {
        let mut cons = Consumer::new(dir.path().to_str().expect("path string"), "two").expect(
            "consumer",
        );
        let entry = cons.poll().expect("poll");
        if let Some(ref e) = entry {
            cons.commit_upto(e).expect("commit");
        }
        assert_eq!(entry.map(|e| e.data), Some(b"0".to_vec()));
    }
    {
        let mut cons = Consumer::new(dir.path().to_str().expect("path string"), "two").expect(
            "consumer",
        );
        let entry = cons.poll().expect("poll");
        assert_eq!(entry.map(|e| e.data), Some(b"1".to_vec()));
    }
}

#[test]
fn can_list_zero_consumer_offsets() {
    let dir = tempfile::tempdir().expect("store-dir");
    let mut prod = Producer::new(dir.path().to_str().expect("path string")).expect("producer");
    prod.produce(b"0").expect("produce");
    prod.produce(b"1").expect("produce");
    let cons = Consumer::new(dir.path().to_str().expect("path string"), "one").expect("consumer");
    let offsets = cons.consumers().expect("iter");
    assert!(offsets.is_empty());
}

#[test]
fn can_list_consumer_offset() {
    let dir = tempfile::tempdir().expect("store-dir");
    let mut prod = Producer::new(dir.path().to_str().expect("path string")).expect("producer");
    prod.produce(b"0").expect("produce");
    prod.produce(b"1").expect("produce");

    let entry;
    {
        let mut cons = Consumer::new(dir.path().to_str().expect("path string"), "one").expect(
            "consumer",
        );
        entry = cons.poll().expect("poll").expect("some entry");
        cons.commit_upto(&entry).expect("commit");
    }

    let cons = Consumer::new(dir.path().to_str().expect("path string"), "one").expect("consumer");
    let offsets = cons.consumers().expect("iter");
    assert_eq!(offsets.len(), 1);
    // the committed offset is the next one to read: one past the entry
    assert_eq!(lookup(&offsets, "one"), Some(entry.offset + 1));
}

#[test]
fn can_list_consumer_offsets() {
    let dir = tempfile::tempdir().expect("store-dir");
    let mut prod = Producer::new(dir.path().to_str().expect("path string")).expect("producer");
    prod.produce(b"0").expect("produce");
    prod.produce(b"1").expect("produce");

    let one;
    let two;
    {
        let mut cons = Consumer::new(dir.path().to_str().expect("path string"), "one").expect(
            "consumer",
        );
        let entry = cons.poll().expect("poll").expect("some entry");
        cons.commit_upto(&entry).expect("commit");
    }
    {
        let mut cons = Consumer::new(dir.path().to_str().expect("path string"), "one").expect(
            "consumer",
        );
        let entry = cons.poll().expect("poll").expect("some entry");
        cons.commit_upto(&entry).expect("commit");
        one = entry;
    }

    {
        let mut cons = Consumer::new(dir.path().to_str().expect("path string"), "two").expect(
            "consumer",
        );
        let entry = cons.poll().expect("poll").expect("some entry");
        cons.commit_upto(&entry).expect("commit");
        two = entry;
    }

    let cons = Consumer::new(dir.path().to_str().expect("path string"), "two").expect("consumer");
    let offsets = cons.consumers().expect("iter");
    assert_eq!(offsets.len(), 2);
    assert_eq!(lookup(&offsets, "one"), Some(one.offset + 1));
    assert_eq!(lookup(&offsets, "two"), Some(two.offset + 1));
}

#[test]
fn can_discard_queue() {
    let dir = tempfile::tempdir().expect("store-dir");
    let mut prod = Producer::new(dir.path().to_str().expect("path string")).expect("producer");
    prod.produce(b"0").expect("produce");
    prod.produce(b"1").expect("produce");

    {
        let mut cons = Consumer::new(dir.path().to_str().expect("path string"), "one").expect(
            "consumer",
        );
        let entry = cons.poll().expect("poll").expect("some entry");
        cons.commit_upto(&entry).expect("commit");
    }

    {
        let cons = Consumer::new(dir.path().to_str().expect("path string"), "cleaner").expect(
            "consumer",
        );
        // the committed offset is the next to read; everything before it is done
        let one_off = lookup(&cons.consumers().expect("consumers"), "one").expect("one");
        cons.discard_upto(one_off - 1).expect("discard");
    }

    {
        let mut cons = Consumer::new(dir.path().to_str().expect("path string"), "two").expect(
            "consumer",
        );
        let entry = cons.poll().expect("poll").expect("some entry");
        assert_eq!(&entry.data, b"1");
    }
}

#[test]
fn can_discard_on_empty() {
    let dir = tempfile::tempdir().expect("store-dir");
    {
        let cons = Consumer::new(dir.path().to_str().expect("path string"), "cleaner").expect(
            "consumer",
        );
        cons.discard_upto(42).expect("discard");
    }
}

#[test]
fn can_discard_after_written() {
    let dir = tempfile::tempdir().expect("store-dir");
    let mut prod = Producer::new(dir.path().to_str().expect("path string")).expect("producer");
    prod.produce(b"0").expect("produce");

    {
        let cons = Consumer::new(dir.path().to_str().expect("path string"), "cleaner").expect(
            "consumer",
        );
        cons.discard_upto(42).expect("discard");
    }
}

#[test]
fn can_remove_consumer_offset() {
    let dir = tempfile::tempdir().expect("store-dir");
    let mut prod = Producer::new(dir.path().to_str().expect("path string")).expect("producer");
    prod.produce(b"0").expect("produce");
    prod.produce(b"1").expect("produce");
    prod.produce(b"2").expect("produce");

    {
        let mut cons = Consumer::new(dir.path().to_str().expect("path string"), "default").expect(
            "consumer",
        );
        let entry = cons.poll().expect("poll");
        cons.commit_upto(entry.as_ref().unwrap()).expect("commit");
    }

    {
        let cons = Consumer::new(dir.path().to_str().expect("path string"), "default").expect(
            "consumer",
        );
        cons.clear_offset().expect("clear_offset");
    }
    {
        let cons = Consumer::new(dir.path().to_str().expect("path string"), "default").expect(
            "consumer",
        );
        let consumers = cons.consumers().expect("consumers");
        assert_eq!(lookup(&consumers, "default"), None);
    }
}

#[test]
fn removing_non_consumer_is_noop() {
    let dir = tempfile::tempdir().expect("store-dir");
    let mut prod = Producer::new(dir.path().to_str().expect("path string")).expect("producer");
    prod.produce(b"0").expect("produce");
    prod.produce(b"1").expect("produce");
    prod.produce(b"2").expect("produce");

    {
        let mut cons = Consumer::new(dir.path().to_str().expect("path string"), "default").expect(
            "consumer",
        );
        let _entry = cons.poll().expect("poll");
    }

    {
        let cons = Consumer::new(dir.path().to_str().expect("path string"), "default").expect(
            "consumer",
        );
        cons.clear_offset().expect("clear_offset");
    }
    {
        let cons = Consumer::new(dir.path().to_str().expect("path string"), "default").expect(
            "consumer",
        );
        let consumers = cons.consumers().expect("consumers");
        assert_eq!(lookup(&consumers, "default"), None);
    }
}
