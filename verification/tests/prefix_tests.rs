use heed::types::{ByteSlice, Str};
use heed::{EnvOpenOptions, Registry};

#[test]
fn prefix_iteration_yields_only_prefixed_keys() {
    let mut reg = Registry::new();
    let env = EnvOpenOptions::new().open(&mut reg, "/data/prefix").unwrap();
    let mut wtxn = env.write_txn(&reg).unwrap();
    let db = env
        .create_poly_database(&mut reg, &mut wtxn, Some("names"))
        .unwrap();

    db.put::<(), Str, Str>(&mut wtxn, "i-am-twenty-seven", "27").unwrap();
    db.put::<(), Str, Str>(&mut wtxn, "i-am-twenty-eight", "28").unwrap();
    db.put::<(), Str, Str>(&mut wtxn, "i-am-twenty-nine", "29").unwrap();
    db.put::<(), Str, Str>(&mut wtxn, "i-am-forty-one", "41").unwrap();
    db.put::<(), Str, Str>(&mut wtxn, "i-am-forty-two", "42").unwrap();
    let txn = wtxn.ro();

    let mut it = db.prefix_iter::<(), Str, Str>(txn, "i-am-twenty").unwrap();
    let mut seen: Vec<String> = Vec::new();
    while let Some((k, _v)) = it.next(txn).unwrap() {
        seen.push(k);
    }
    assert_eq!(
        seen,
        vec![
            String::from("i-am-twenty-eight"),
            String::from("i-am-twenty-nine"),
            String::from("i-am-twenty-seven"),
        ]
    );

    // The backward prefix iterator yields the same keys, reversed.
    let mut rev = db.rev_prefix_iter::<(), Str, Str>(txn, "i-am-twenty").unwrap();
    let mut seen_rev: Vec<String> = Vec::new();
    while let Some((k, _v)) = rev.next(txn).unwrap() {
        seen_rev.push(k);
    }
    seen.reverse();
    assert_eq!(seen_rev, seen);
}

#[test]
fn prefix_of_all_high_bytes_runs_to_the_end_of_the_keyspace() {
    let mut reg = Registry::new();
    let env = EnvOpenOptions::new().open(&mut reg, "/data/ff").unwrap();
    let mut wtxn = env.write_txn(&reg).unwrap();
    let db = env
        .create_poly_database(&mut reg, &mut wtxn, Some("raw"))
        .unwrap();

    db.put::<(), ByteSlice, ByteSlice>(&mut wtxn, &[0xFF, 0x00], b"a").unwrap();
    db.put::<(), ByteSlice, ByteSlice>(&mut wtxn, &[0xFF, 0xFF], b"b").unwrap();
    db.put::<(), ByteSlice, ByteSlice>(&mut wtxn, &[0xFF, 0xFF, 0x01], b"c").unwrap();
    db.put::<(), ByteSlice, ByteSlice>(&mut wtxn, &[0x01], b"d").unwrap();
    let txn = wtxn.ro();

    // A prefix of nothing but 0xFF bytes has no finite upper endpoint: the
    // iteration runs to the end of the keyspace.
    let mut it = db.prefix_iter::<(), ByteSlice, ByteSlice>(txn, &[0xFF, 0xFF]).unwrap();
    let mut count = 0;
    while let Some((k, _v)) = it.next(txn).unwrap() {
        assert!(k.starts_with(&[0xFF, 0xFF]));
        count += 1;
    }
    assert_eq!(count, 2);

    // An ordinary prefix stops before its advanced form.
    let mut it = db.prefix_iter::<(), ByteSlice, ByteSlice>(txn, &[0xFF, 0x00]).unwrap();
    assert_eq!(
        it.next(txn).unwrap(),
        Some((vec![0xFF, 0x00], b"a".to_vec()))
    );
    assert_eq!(it.next(txn).unwrap(), None);
}

#[test]
fn advance_and_retreat_key() {
    let mut k = vec![0x01, 0xFF];
    heed::bytes::advance_key(&mut k);
    assert_eq!(k, vec![0x02]);

    let mut k = vec![0xFF, 0xFF];
    heed::bytes::advance_key(&mut k);
    assert_eq!(k, Vec::<u8>::new());

    let mut k = vec![0x01, 0x05];
    heed::bytes::advance_key(&mut k);
    assert_eq!(k, vec![0x01, 0x06]);

    let mut k = vec![0x01, 0x00];
    heed::bytes::retreat_key(&mut k);
    assert_eq!(k, vec![0x00]);

    let mut k = vec![0x01, 0x05];
    heed::bytes::retreat_key(&mut k);
    assert_eq!(k, vec![0x01, 0x04]);

    assert!(heed::bytes::has_prefix(b"i-am-twenty-nine", b"i-am-twenty"));
    assert!(!heed::bytes::has_prefix(b"i-am-forty-one", b"i-am-twenty"));
    assert!(!heed::bytes::has_prefix(b"i-am", b"i-am-twenty"));
}
