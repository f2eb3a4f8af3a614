use heed::env::EnvState;
use heed::types::{ByteSlice, Str};
use heed::{env_closing_event, EnvOpenOptions, Error, Registry};

#[test]
fn reopen_env_with_different_options_is_err() {
    let mut reg = Registry::new();
    let path = "/data/env";
    let _env = EnvOpenOptions::new()
        .map_size(10 * 1024 * 1024) // 10MB
        .open(&mut reg, path)
        .unwrap();

    let env = EnvOpenOptions::new()
        .map_size(12 * 1024 * 1024)
        .open(&mut reg, path);

    assert!(env.is_err());
    assert_eq!(env.err(), Some(Error::BadOpenOptions));
}

#[test]
fn test_geometry() {
    let mut reg = Registry::new();
    let path = "/data/geometry";
    let _env = EnvOpenOptions::new()
        .map_size(10 * 1024 * 1024) // 10MB
        .open(&mut reg, path)
        .unwrap();
}

#[test]
fn open_twice_shares_one_environment() {
    let mut reg = Registry::new();
    let path = "/data/shared";
    let env1 = EnvOpenOptions::new()
        .map_size(1024 * 1024)
        .max_dbs(30)
        .open(&mut reg, path)
        .unwrap();
    let env2 = EnvOpenOptions::new()
        .map_size(1024 * 1024)
        .max_dbs(30)
        .open(&mut reg, path)
        .unwrap();
    assert_eq!(env1.env_id, env2.env_id);
    assert_eq!(reg.envs[env1.env_id].refs, 2);

    // Writes made through one handle are visible through the other.
    let mut wtxn = env1.write_txn(&reg).unwrap();
    let db = env1
        .create_poly_database(&mut reg, &mut wtxn, Some("shared-table"))
        .unwrap();
    db.put::<(), Str, Str>(&mut wtxn, "hello", "world").unwrap();
    wtxn.commit(&mut reg).unwrap();

    let rtxn = env2.read_txn(&reg).unwrap();
    let got = db.get::<(), Str, Str>(&rtxn, "hello").unwrap();
    assert_eq!(got, Some(String::from("world")));
}

#[test]
fn close_env_in_two_phases() {
    let mut reg = Registry::new();
    let path = "/data/closing";
    let env1 = EnvOpenOptions::new().open(&mut reg, path).unwrap();
    let env2 = env1.clone_handle(&mut reg).unwrap();
    assert_eq!(reg.envs[env2.env_id].refs, 2);

    let id = env1.env_id;
    let event = env1.prepare_for_closing(&mut reg);
    // The second handle keeps the environment alive: not yet released.
    assert!(!event.has_completed(&reg));
    assert!(matches!(reg.envs[id].state, EnvState::Closing));

    // A new open of the same path is rejected distinctly while closing.
    let reopened = EnvOpenOptions::new().open(&mut reg, path);
    assert_eq!(reopened.err(), Some(Error::DatabaseClosing));

    // Giving the last handle back releases the environment.
    env2.drop_handle(&mut reg);
    assert!(event.has_completed(&reg));
    assert!(env_closing_event(&reg, path).is_none());

    // The path can now be opened afresh, as an independent environment.
    let env3 = EnvOpenOptions::new().open(&mut reg, path).unwrap();
    assert!(env3.env_id != id);
}

#[test]
fn typing_conflict_on_second_open() {
    let mut reg = Registry::new();
    let env = EnvOpenOptions::new().open(&mut reg, "/data/typing").unwrap();

    let mut wtxn = env.write_txn(&reg).unwrap();
    let db = env
        .create_database::<Str, Str>(&mut reg, &mut wtxn, Some("typed"))
        .unwrap();
    db.put::<()>(&mut wtxn, "k", "v").unwrap();
    wtxn.commit(&mut reg).unwrap();

    // The same codec pair opens fine.
    let rtxn = env.read_txn(&reg).unwrap();
    let same = env.open_database::<Str, Str>(&mut reg, &rtxn, Some("typed"));
    assert!(matches!(same, Ok(Some(_))));

    // A different codec pair is a typing conflict.
    let other = env.open_database::<Str, ByteSlice>(&mut reg, &rtxn, Some("typed"));
    assert_eq!(other.err(), Some(Error::InvalidDatabaseTyping));

    // A polymorphic open of the same table is a conflict too: the registry
    // recorded a concrete pair.
    let poly = env.open_poly_database(&mut reg, &rtxn, Some("typed"));
    assert_eq!(poly.err(), Some(Error::InvalidDatabaseTyping));

    // An unknown name is absent rather than an error.
    let missing = env.open_poly_database(&mut reg, &rtxn, Some("missing"));
    assert!(matches!(missing, Ok(None)));
}

#[test]
fn flags_and_map_size_are_read_back() {
    let mut reg = Registry::new();
    let env = EnvOpenOptions::new()
        .map_size(4096)
        .flag(0x4000)
        .open(&mut reg, "/data/flags")
        .unwrap();
    assert_eq!(env.map_size(&reg), Ok(4096));
    assert_eq!(env.contains_flag(&reg, 0x4000), Ok(true));
    assert_eq!(env.contains_flag(&reg, 0x0001), Ok(false));
    assert_eq!(env.path(&reg), String::from("/data/flags"));
}

#[test]
fn nested_write_txn_commits_into_parent() {
    let mut reg = Registry::new();
    let env = EnvOpenOptions::new().open(&mut reg, "/data/nested").unwrap();

    let mut parent = env.write_txn(&reg).unwrap();
    let db = env
        .create_poly_database(&mut reg, &mut parent, Some("nested-table"))
        .unwrap();
    db.put::<(), Str, Str>(&mut parent, "a", "1").unwrap();

    // A child that is committed publishes into the parent.
    let mut child = env.nested_write_txn(&mut parent).unwrap();
    db.put::<(), Str, Str>(&mut child, "b", "2").unwrap();
    child.commit_nested(&mut parent).unwrap();
    assert_eq!(
        db.get::<(), Str, Str>(parent.ro(), "b").unwrap(),
        Some(String::from("2"))
    );

    // A child that is aborted leaves the parent alone.
    let mut child = env.nested_write_txn(&mut parent).unwrap();
    db.put::<(), Str, Str>(&mut child, "c", "3").unwrap();
    child.abort().unwrap();
    assert_eq!(db.get::<(), Str, Str>(parent.ro(), "c").unwrap(), None);

    parent.commit(&mut reg).unwrap();
    let rtxn = env.read_txn(&reg).unwrap();
    assert_eq!(
        db.get::<(), Str, Str>(&rtxn, "a").unwrap(),
        Some(String::from("1"))
    );
    assert_eq!(
        db.get::<(), Str, Str>(&rtxn, "b").unwrap(),
        Some(String::from("2"))
    );
}

#[test]
fn abort_discards_buffered_mutations() {
    let mut reg = Registry::new();
    let env = EnvOpenOptions::new().open(&mut reg, "/data/abort").unwrap();

    let mut wtxn = env.write_txn(&reg).unwrap();
    let db = env
        .create_poly_database(&mut reg, &mut wtxn, Some("t"))
        .unwrap();
    wtxn.commit(&mut reg).unwrap();

    let mut wtxn = env.write_txn(&reg).unwrap();
    db.put::<(), Str, Str>(&mut wtxn, "gone", "soon").unwrap();
    wtxn.abort().unwrap();

    let rtxn = env.read_txn(&reg).unwrap();
    assert_eq!(db.get::<(), Str, Str>(&rtxn, "gone").unwrap(), None);
}
