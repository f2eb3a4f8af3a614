use heed::rck::{DBType, RockTable};
use heed::types::{ByteSlice, Str};
use heed::{Store, Table, Transaction, TypedBound};

#[test]
fn lsm_round_trip_and_ranges() {
    let mut store = DBType::open_lsm();
    let table: RockTable = store.table("fruit", &()).unwrap();

    let mut wtx = store.wtx().unwrap();
    Table::put::<Str, Str>(&table, &mut wtx, "apple", "red").unwrap();
    Table::put::<Str, Str>(&table, &mut wtx, "cherry", "red").unwrap();
    Table::put::<Str, Str>(&table, &mut wtx, "banana", "yellow").unwrap();
    Transaction::commit(wtx, &mut store).unwrap();

    let rtx = store.rtx().unwrap();
    let got: Option<String> = Table::get::<Str, Str>(&table, &rtx, "banana").unwrap();
    assert_eq!(got, Some(String::from("yellow")));
    assert_eq!(Table::len(&table, &rtx).unwrap(), 3);

    // The engine takes an inclusive start and an exclusive upper bound; an
    // included end is advanced past its last byte.
    let got = Table::range::<Str, Str>(
        &table,
        &rtx,
        &TypedBound::Included("apple"),
        &TypedBound::Included("banana"),
    )
    .unwrap();
    let keys: Vec<&str> = got.iter().map(|p| p.0.as_str()).collect();
    assert_eq!(keys, vec!["apple", "banana"]);

    let got = Table::rev_range::<Str, Str>(
        &table,
        &rtx,
        &TypedBound::Unbounded,
        &TypedBound::Unbounded,
    )
    .unwrap();
    let keys: Vec<&str> = got.iter().map(|p| p.0.as_str()).collect();
    assert_eq!(keys, vec!["cherry", "banana", "apple"]);

    // The engine's reverse iterator takes no excluded start key.
    let refused = Table::rev_range::<Str, Str>(
        &table,
        &rtx,
        &TypedBound::Excluded("apple"),
        &TypedBound::Unbounded,
    );
    assert!(refused.is_err());
}

#[test]
fn lsm_excluded_start_advances_past_prefixed_keys() {
    let mut store = DBType::open_lsm();
    let table = store.table("raw", &()).unwrap();

    let mut wtx = store.wtx().unwrap();
    Table::put::<ByteSlice, ByteSlice>(&table, &mut wtx, &[1, 1], b"a").unwrap();
    Table::put::<ByteSlice, ByteSlice>(&table, &mut wtx, &[1, 1, 9], b"b").unwrap();
    Table::put::<ByteSlice, ByteSlice>(&table, &mut wtx, &[1, 2], b"c").unwrap();
    Transaction::commit(wtx, &mut store).unwrap();

    // An excluded start is advanced in its last byte, so the key [1,1,9],
    // though strictly above [1,1], is skipped: the engine's translation is
    // kept as it is.
    let rtx = store.rtx().unwrap();
    let got = Table::range::<ByteSlice, ByteSlice>(
        &table,
        &rtx,
        &TypedBound::Excluded(&[1u8, 1][..]),
        &TypedBound::Unbounded,
    )
    .unwrap();
    let keys: Vec<Vec<u8>> = got.iter().map(|p| p.0.clone()).collect();
    assert_eq!(keys, vec![vec![1u8, 2]]);
}

#[test]
fn lsm_clear_stops_at_the_sentinel() {
    let mut store = DBType::open_lsm();
    let table = store.table("t", &()).unwrap();

    let huge_key = vec![0xFFu8; 512];
    let mut wtx = store.wtx().unwrap();
    Table::put::<ByteSlice, ByteSlice>(&table, &mut wtx, b"small", b"1").unwrap();
    Table::put::<ByteSlice, ByteSlice>(&table, &mut wtx, b"other", b"2").unwrap();
    Table::put::<ByteSlice, ByteSlice>(&table, &mut wtx, &huge_key, b"3").unwrap();
    Table::clear(&table, &mut wtx).unwrap();
    Transaction::commit(wtx, &mut store).unwrap();

    // Clearing deletes the byte range below a sentinel of 512 0xFF bytes:
    // a key at the sentinel survives, as the engine leaves it.
    let rtx = store.rtx().unwrap();
    assert_eq!(Table::len(&table, &rtx).unwrap(), 1);
    let survivor: Option<Vec<u8>> =
        Table::get::<ByteSlice, ByteSlice>(&table, &rtx, &huge_key).unwrap();
    assert_eq!(survivor, Some(b"3".to_vec()));
}

#[test]
fn lsm_tables_are_independent_column_families() {
    let mut store = DBType::open_lsm();
    let one = store.table("one", &()).unwrap();
    let two = store.table("two", &()).unwrap();
    let again = store.table("one", &()).unwrap();
    assert_eq!(one.cf, again.cf);
    assert!(one.cf != two.cf);

    let mut wtx = store.wtx().unwrap();
    Table::put::<Str, Str>(&one, &mut wtx, "k", "in-one").unwrap();
    Transaction::commit(wtx, &mut store).unwrap();

    let rtx = store.rtx().unwrap();
    let got: Option<String> = Table::get::<Str, Str>(&two, &rtx, "k").unwrap();
    assert_eq!(got, None);
}
