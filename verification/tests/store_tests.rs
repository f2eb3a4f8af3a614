use heed::bytecopy;
use heed::rck::DBType;
use heed::types::{ByteSlice, Str};
use heed::{
    readtx, writetx, EnvOpenOptions, MdbStore, Store, Table, Tables, Transaction, Typed,
};

#[test]
fn store_round_trip_through_the_generic_layer() {
    let mut store = MdbStore::open(&EnvOpenOptions::new(), "/data/store").unwrap();
    let table = store.table("fruit", &()).unwrap();

    let mut wtx = store.wtx().unwrap();
    Table::put::<Str, Str>(&table, &mut wtx, "apple", "red").unwrap();
    Table::put::<Str, Str>(&table, &mut wtx, "banana", "yellow").unwrap();
    Transaction::commit(wtx, &mut store).unwrap();

    let rtx = store.rtx().unwrap();
    let got: Option<String> = Table::get::<Str, Str>(&table, &rtx, "apple").unwrap();
    assert_eq!(got, Some(String::from("red")));
    assert_eq!(Table::len(&table, &rtx).unwrap(), 2);
    Transaction::commit(rtx, &mut store).unwrap();
}

#[test]
fn typed_handle_binds_the_codecs() {
    let mut store = MdbStore::open(&EnvOpenOptions::new(), "/data/typedstore").unwrap();
    let table = store.table("notes", &()).unwrap();
    let typed: Typed<MdbStore, Str, Str> = Typed::new(table);

    let mut wtx = store.wtx().unwrap();
    typed.put(&mut wtx, "k1", "v1").unwrap();
    typed.put(&mut wtx, "k3", "v3").unwrap();
    typed.put(&mut wtx, "k2", "v2").unwrap();
    Transaction::commit(wtx, &mut store).unwrap();

    let rtx = store.rtx().unwrap();
    assert_eq!(typed.get(&rtx, "k2").unwrap(), Some(String::from("v2")));
    assert_eq!(typed.len(&rtx).unwrap(), 3);

    let all = typed
        .range(
            &rtx,
            &heed::TypedBound::Unbounded,
            &heed::TypedBound::Unbounded,
        )
        .unwrap();
    let keys: Vec<&str> = all.iter().map(|p| p.0.as_str()).collect();
    assert_eq!(keys, vec!["k1", "k2", "k3"]);

    let rev = typed
        .rev_range(
            &rtx,
            &heed::TypedBound::Unbounded,
            &heed::TypedBound::Unbounded,
        )
        .unwrap();
    let keys: Vec<&str> = rev.iter().map(|p| p.0.as_str()).collect();
    assert_eq!(keys, vec!["k3", "k2", "k1"]);
    Transaction::abort(rtx);

    let mut wtx = store.wtx().unwrap();
    typed.delete(&mut wtx, "k1").unwrap();
    typed.clear(&mut wtx).unwrap();
    Transaction::commit(wtx, &mut store).unwrap();
    let rtx = store.rtx().unwrap();
    assert_eq!(typed.len(&rtx).unwrap(), 0);
}

#[test]
fn transaction_helpers_commit_for_the_caller() {
    let mut store = MdbStore::open(&EnvOpenOptions::new(), "/data/helpers").unwrap();
    let table = store.table("t", &()).unwrap();
    let typed: Typed<MdbStore, Str, Str> = Typed::new(table);

    let written = writetx(&mut store, |mut wtx| {
        typed.put(&mut wtx, "one", "1")?;
        typed.put(&mut wtx, "two", "2")?;
        Ok((wtx, 2usize))
    })
    .unwrap();
    assert_eq!(written, 2);

    let count = readtx(&mut store, |rtx| typed.len(rtx)).unwrap();
    assert_eq!(count, 2);
}

#[test]
fn paged_runs_until_a_pass_changes_nothing() {
    let mut trace: Vec<u32> = Vec::new();
    // Climb to 5, then stop changing: the pass ends on its own.
    let result: Result<(), heed::Error> = heed::paged(0u32, |n| {
        let next = if *n < 5 { *n + 1 } else { *n };
        Ok(next)
    });
    assert!(result.is_ok());
    trace.push(1);
    assert_eq!(trace.len(), 1);
}

#[test]
fn tables_owns_store_and_handles_together() {
    let store = MdbStore::open(&EnvOpenOptions::new(), "/data/tables").unwrap();
    let tables = Tables::new(store, &(), |s: &mut MdbStore, cfg: &()| {
        let t = s.table("only", cfg)?;
        Ok(Typed::<MdbStore, Str, Str>::new(t))
    })
    .unwrap();

    let mut tables = tables;
    let typed = tables.table.take().unwrap();
    let mut wtx = tables.store.wtx().unwrap();
    typed.put(&mut wtx, "hello", "world").unwrap();
    Transaction::commit(wtx, &mut tables.store).unwrap();
    let rtx = tables.store.rtx().unwrap();
    assert_eq!(typed.get(&rtx, "hello").unwrap(), Some(String::from("world")));
}

#[test]
fn bytecopy_carries_a_table_across_engines() {
    // Source: the B-tree engine.
    let mut src = MdbStore::open(&EnvOpenOptions::new(), "/data/copy-src").unwrap();
    let src_table = src.table("t", &()).unwrap();
    let src_typed: Typed<MdbStore, ByteSlice, ByteSlice> = Typed::new(src_table);
    let mut wtx = src.wtx().unwrap();
    src_typed.put(&mut wtx, b"a", b"1").unwrap();
    src_typed.put(&mut wtx, b"b", b"2").unwrap();
    src_typed.put(&mut wtx, b"c", b"3").unwrap();
    Transaction::commit(wtx, &mut src).unwrap();

    // Destination: the LSM engine.
    let mut dst = DBType::open_lsm();
    let dst_table = dst.table("t", &()).unwrap();
    let dst_typed: Typed<DBType, ByteSlice, ByteSlice> = Typed::new(dst_table);

    let rtx = src.rtx().unwrap();
    let mut wtx = dst.wtx().unwrap();
    bytecopy(&rtx, &mut wtx, &src_typed, &dst_typed).unwrap();
    Transaction::commit(wtx, &mut dst).unwrap();

    let drtx = dst.rtx().unwrap();
    assert_eq!(Table::len(&dst_table, &drtx).unwrap(), 3);
    let got: Option<Vec<u8>> = dst_typed.get(&drtx, b"b").unwrap();
    assert_eq!(got, Some(b"2".to_vec()));
}
