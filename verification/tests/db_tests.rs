use heed::types::{FixedSlice, Str};
use heed::{EnvOpenOptions, Error, PolyDatabase, Registry, RwTxn, TypedBound};

type Key = FixedSlice<4>;

fn be4(n: u32) -> [u8; 4] {
    n.to_be_bytes()
}

fn setup(reg: &mut Registry, path: &str) -> (heed::Env, PolyDatabase, RwTxn<()>) {
    let env = EnvOpenOptions::new()
        .map_size(10 * 1024 * 1024)
        .max_dbs(30)
        .open(reg, path)
        .unwrap();
    let mut wtxn = env.write_txn(reg).unwrap();
    let db = env.create_poly_database(reg, &mut wtxn, Some("numbers")).unwrap();
    (env, db, wtxn)
}

#[test]
fn point_operations_scenario() {
    let mut reg = Registry::new();
    let (env, db, mut wtxn) = setup(&mut reg, "/data/points");

    db.put::<(), Key, Str>(&mut wtxn, &be4(13), "i-am-thirteen").unwrap();
    db.put::<(), Key, Str>(&mut wtxn, &be4(27), "i-am-twenty-seven").unwrap();
    db.put::<(), Key, Str>(&mut wtxn, &be4(42), "i-am-forty-two").unwrap();
    db.put::<(), Key, Str>(&mut wtxn, &be4(521), "i-am-five-hundred-and-twenty-one").unwrap();

    assert_eq!(db.len(wtxn.ro()).unwrap(), 4);

    let below = db.get_lower_than::<(), Key, Str>(wtxn.ro(), &be4(44)).unwrap();
    assert_eq!(below, Some((be4(42), String::from("i-am-forty-two"))));

    assert_eq!(db.delete::<(), Key>(&mut wtxn, &be4(27)).unwrap(), true);
    assert_eq!(db.get::<(), Key, Str>(wtxn.ro(), &be4(27)).unwrap(), None);

    assert_eq!(db.is_empty(wtxn.ro()).unwrap(), false);
    db.clear(&mut wtxn).unwrap();
    assert_eq!(db.is_empty(wtxn.ro()).unwrap(), true);

    wtxn.commit(&mut reg).unwrap();
    let rtxn = env.read_txn(&reg).unwrap();
    assert_eq!(db.len(&rtxn).unwrap(), 0);
}

#[test]
fn delete_is_idempotent() {
    let mut reg = Registry::new();
    let (_env, db, mut wtxn) = setup(&mut reg, "/data/idem");

    db.put::<(), Key, Str>(&mut wtxn, &be4(7), "seven").unwrap();
    assert_eq!(db.delete::<(), Key>(&mut wtxn, &be4(7)).unwrap(), true);
    // A lookup right after the delete is absent.
    assert_eq!(db.get::<(), Key, Str>(wtxn.ro(), &be4(7)).unwrap(), None);
    // Deleting the absent key again is a no-op, not an error.
    assert_eq!(db.delete::<(), Key>(&mut wtxn, &be4(7)).unwrap(), false);
    assert_eq!(db.delete::<(), Key>(&mut wtxn, &be4(99)).unwrap(), false);
}

#[test]
fn seek_getters() {
    let mut reg = Registry::new();
    let (_env, db, mut wtxn) = setup(&mut reg, "/data/seek");

    db.put::<(), Key, Str>(&mut wtxn, &be4(27), "a").unwrap();
    db.put::<(), Key, Str>(&mut wtxn, &be4(42), "b").unwrap();
    db.put::<(), Key, Str>(&mut wtxn, &be4(43), "c").unwrap();
    let txn = wtxn.ro();

    let r = db.get_lower_than::<(), Key, Str>(txn, &be4(4404)).unwrap();
    assert_eq!(r, Some((be4(43), String::from("c"))));
    let r = db.get_lower_than::<(), Key, Str>(txn, &be4(43)).unwrap();
    assert_eq!(r, Some((be4(42), String::from("b"))));
    let r = db.get_lower_than::<(), Key, Str>(txn, &be4(27)).unwrap();
    assert_eq!(r, None);

    let r = db.get_lower_than_or_equal_to::<(), Key, Str>(txn, &be4(4404)).unwrap();
    assert_eq!(r, Some((be4(43), String::from("c"))));
    let r = db.get_lower_than_or_equal_to::<(), Key, Str>(txn, &be4(43)).unwrap();
    assert_eq!(r, Some((be4(43), String::from("c"))));
    let r = db.get_lower_than_or_equal_to::<(), Key, Str>(txn, &be4(26)).unwrap();
    assert_eq!(r, None);

    let r = db.get_greater_than::<(), Key, Str>(txn, &be4(0)).unwrap();
    assert_eq!(r, Some((be4(27), String::from("a"))));
    let r = db.get_greater_than::<(), Key, Str>(txn, &be4(42)).unwrap();
    assert_eq!(r, Some((be4(43), String::from("c"))));
    let r = db.get_greater_than::<(), Key, Str>(txn, &be4(43)).unwrap();
    assert_eq!(r, None);

    let r = db.get_greater_than_or_equal_to::<(), Key, Str>(txn, &be4(0)).unwrap();
    assert_eq!(r, Some((be4(27), String::from("a"))));
    let r = db.get_greater_than_or_equal_to::<(), Key, Str>(txn, &be4(42)).unwrap();
    assert_eq!(r, Some((be4(42), String::from("b"))));
    let r = db.get_greater_than_or_equal_to::<(), Key, Str>(txn, &be4(44)).unwrap();
    assert_eq!(r, None);

    let r = db.first::<(), Key, Str>(txn).unwrap();
    assert_eq!(r, Some((be4(27), String::from("a"))));
    let r = db.last::<(), Key, Str>(txn).unwrap();
    assert_eq!(r, Some((be4(43), String::from("c"))));
}

#[test]
fn iteration_is_ordered_and_reversible() {
    let mut reg = Registry::new();
    let (_env, db, mut wtxn) = setup(&mut reg, "/data/order");

    // Inserted out of order; iterated in ascending byte order.
    db.put::<(), Key, Str>(&mut wtxn, &be4(42), "forty-two").unwrap();
    db.put::<(), Key, Str>(&mut wtxn, &be4(13), "thirteen").unwrap();
    db.put::<(), Key, Str>(&mut wtxn, &be4(27), "twenty-seven").unwrap();
    let txn = wtxn.ro();

    let mut it = db.iter::<(), Key, Str>(txn).unwrap();
    assert_eq!(it.next(txn).unwrap(), Some((be4(13), String::from("thirteen"))));
    assert_eq!(it.next(txn).unwrap(), Some((be4(27), String::from("twenty-seven"))));
    assert_eq!(it.next(txn).unwrap(), Some((be4(42), String::from("forty-two"))));
    assert_eq!(it.next(txn).unwrap(), None);
    assert_eq!(it.next(txn).unwrap(), None);

    let mut rev = db.rev_iter::<(), Key, Str>(txn).unwrap();
    assert_eq!(rev.next(txn).unwrap(), Some((be4(42), String::from("forty-two"))));
    assert_eq!(rev.next(txn).unwrap(), Some((be4(27), String::from("twenty-seven"))));
    assert_eq!(rev.next(txn).unwrap(), Some((be4(13), String::from("thirteen"))));
    assert_eq!(rev.next(txn).unwrap(), None);

    // The materialized reverse range is the exact reverse of the forward one.
    let fwd = db
        .range::<(), Key, Str>(txn, &TypedBound::Unbounded, &TypedBound::Unbounded)
        .unwrap()
        .collect(txn)
        .unwrap();
    let bwd = db
        .rev_range::<(), Key, Str>(txn, &TypedBound::Unbounded, &TypedBound::Unbounded)
        .unwrap()
        .collect(txn)
        .unwrap();
    assert_eq!(fwd.len(), 3);
    assert_eq!(bwd.len(), 3);
    for i in 0..3 {
        assert_eq!(fwd[i], bwd[2 - i]);
    }
}

#[test]
fn bounded_ranges_yield_exactly_the_bounded_keys() {
    let mut reg = Registry::new();
    let (_env, db, mut wtxn) = setup(&mut reg, "/data/ranges");

    for n in [10u32, 20, 30, 40, 50] {
        db.put::<(), Key, Str>(&mut wtxn, &be4(n), "x").unwrap();
    }
    let txn = wtxn.ro();

    let keys = |pairs: Vec<([u8; 4], String)>| -> Vec<u32> {
        pairs.iter().map(|p| u32::from_be_bytes(p.0)).collect()
    };

    // [20, 40)
    let got = db
        .range::<(), Key, Str>(txn, &TypedBound::Included(&be4(20)), &TypedBound::Excluded(&be4(40)))
        .unwrap()
        .collect(txn)
        .unwrap();
    assert_eq!(keys(got), vec![20, 30]);

    // [20, 40]
    let got = db
        .range::<(), Key, Str>(txn, &TypedBound::Included(&be4(20)), &TypedBound::Included(&be4(40)))
        .unwrap()
        .collect(txn)
        .unwrap();
    assert_eq!(keys(got), vec![20, 30, 40]);

    // (20, 40)
    let got = db
        .range::<(), Key, Str>(txn, &TypedBound::Excluded(&be4(20)), &TypedBound::Excluded(&be4(40)))
        .unwrap()
        .collect(txn)
        .unwrap();
    assert_eq!(keys(got), vec![30]);

    // (20, 40]
    let got = db
        .range::<(), Key, Str>(txn, &TypedBound::Excluded(&be4(20)), &TypedBound::Included(&be4(40)))
        .unwrap()
        .collect(txn)
        .unwrap();
    assert_eq!(keys(got), vec![30, 40]);

    // The reverse range yields the same set backwards.
    let got = db
        .rev_range::<(), Key, Str>(
            txn,
            &TypedBound::Included(&be4(20)),
            &TypedBound::Included(&be4(40)),
        )
        .unwrap()
        .collect(txn)
        .unwrap();
    assert_eq!(keys(got), vec![40, 30, 20]);
}

#[test]
fn delete_range_removes_exactly_the_bounded_keys() {
    let mut reg = Registry::new();
    let (_env, db, mut wtxn) = setup(&mut reg, "/data/delrange");

    for n in [10u32, 20, 30, 40, 50] {
        db.put::<(), Key, Str>(&mut wtxn, &be4(n), "x").unwrap();
    }

    let deleted = db
        .delete_range::<(), Key>(
            &mut wtxn,
            &TypedBound::Included(&be4(20)),
            &TypedBound::Included(&be4(40)),
        )
        .unwrap();
    assert_eq!(deleted, 3);
    assert_eq!(db.len(wtxn.ro()).unwrap(), 2);
    assert_eq!(db.get::<(), Key, Str>(wtxn.ro(), &be4(10)).unwrap().is_some(), true);
    assert_eq!(db.get::<(), Key, Str>(wtxn.ro(), &be4(30)).unwrap(), None);
    assert_eq!(db.get::<(), Key, Str>(wtxn.ro(), &be4(50)).unwrap().is_some(), true);
}

#[test]
fn mutable_iteration_deletes_and_replaces_in_place() {
    let mut reg = Registry::new();
    let (_env, db, mut wtxn) = setup(&mut reg, "/data/mutiter");

    db.put::<(), Key, Str>(&mut wtxn, &be4(13), "i-am-thirteen").unwrap();
    db.put::<(), Key, Str>(&mut wtxn, &be4(27), "i-am-twenty-seven").unwrap();
    db.put::<(), Key, Str>(&mut wtxn, &be4(42), "i-am-forty-two").unwrap();

    let mut it = db.iter_mut::<(), Key, Str>(&mut wtxn).unwrap();
    assert_eq!(it.next(&wtxn).unwrap(), Some((be4(13), String::from("i-am-thirteen"))));
    assert_eq!(it.del_current(&mut wtxn).unwrap(), true);
    // Without a fresh entry under the cursor, deleting again is a no-op.
    assert_eq!(it.del_current(&mut wtxn).unwrap(), false);

    assert_eq!(it.next(&wtxn).unwrap(), Some((be4(27), String::from("i-am-twenty-seven"))));
    assert_eq!(it.next(&wtxn).unwrap(), Some((be4(42), String::from("i-am-forty-two"))));
    assert_eq!(
        it.put_current(&mut wtxn, &be4(42), "i-am-the-new-forty-two").unwrap(),
        true
    );
    // A key that is not the current one leaves the table alone.
    assert_eq!(it.put_current(&mut wtxn, &be4(41), "nope").unwrap(), false);
    assert_eq!(it.next(&wtxn).unwrap(), None);

    assert_eq!(db.get::<(), Key, Str>(wtxn.ro(), &be4(13)).unwrap(), None);
    assert_eq!(
        db.get::<(), Key, Str>(wtxn.ro(), &be4(42)).unwrap(),
        Some(String::from("i-am-the-new-forty-two"))
    );
}

#[test]
fn sequence_counter_across_transactions() {
    let mut reg = Registry::new();
    let (env, db, wtxn) = setup(&mut reg, "/data/sequence");
    wtxn.commit(&mut reg).unwrap();

    let rtxn = env.read_txn(&reg).unwrap();
    assert_eq!(db.sequence(&rtxn).unwrap(), 0);

    let mut wtxn = env.write_txn(&reg).unwrap();
    assert_eq!(db.increase_sequence(&mut wtxn, 32).unwrap(), Some(0));
    wtxn.commit(&mut reg).unwrap();

    let mut wtxn = env.write_txn(&reg).unwrap();
    assert_eq!(db.increase_sequence(&mut wtxn, 28).unwrap(), Some(32));
    wtxn.commit(&mut reg).unwrap();

    let rtxn = env.read_txn(&reg).unwrap();
    assert_eq!(db.sequence(&rtxn).unwrap(), 60);

    // An overflowing increase reports no value and leaves the counter alone.
    let mut wtxn = env.write_txn(&reg).unwrap();
    assert_eq!(db.increase_sequence(&mut wtxn, u64::MAX).unwrap(), None);
    assert_eq!(db.sequence(wtxn.ro()).unwrap(), 60);
    wtxn.commit(&mut reg).unwrap();

    // Changes made in an aborted transaction are discarded.
    let mut wtxn = env.write_txn(&reg).unwrap();
    assert_eq!(db.increase_sequence(&mut wtxn, 5).unwrap(), Some(60));
    wtxn.abort().unwrap();
    let rtxn = env.read_txn(&reg).unwrap();
    assert_eq!(db.sequence(&rtxn).unwrap(), 60);
}

#[test]
fn append_requires_ascending_keys() {
    let mut reg = Registry::new();
    let (_env, db, mut wtxn) = setup(&mut reg, "/data/append");

    db.append::<(), Key, Str>(&mut wtxn, &be4(1), "one").unwrap();
    db.append::<(), Key, Str>(&mut wtxn, &be4(2), "two").unwrap();
    let out_of_order = db.append::<(), Key, Str>(&mut wtxn, &be4(2), "again");
    assert_eq!(out_of_order.err(), Some(Error::Engine));
    assert_eq!(db.len(wtxn.ro()).unwrap(), 2);
}

#[test]
fn as_uniform_shares_the_table() {
    let mut reg = Registry::new();
    let (_env, db, mut wtxn) = setup(&mut reg, "/data/uniform");

    let typed = db.as_uniform::<Key, Str>();
    typed.put(&mut wtxn, &be4(5), "five").unwrap();
    assert_eq!(typed.get(wtxn.ro(), &be4(5)).unwrap(), Some(String::from("five")));
    assert_eq!(typed.len(wtxn.ro()).unwrap(), 1);
    assert_eq!(typed.delete(&mut wtxn, &be4(5)).unwrap(), true);
    assert_eq!(typed.is_empty(wtxn.ro()).unwrap(), true);
}
