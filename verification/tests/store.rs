use stash::data::DataManager;
use stash::data::Entry;
use stash::data::EntryOrder;
use stash::data::SqliteFilename;
use stash::data::User;
use stash::error::Error;

fn fresh_store() -> (DataManager, User) {
    let mut dm = DataManager::new(SqliteFilename::InMemory);
    dm.connect().unwrap();
    dm.init().unwrap();
    let user = dm.createUser(User::new(0, "alice".to_string())).unwrap();
    (dm, user)
}

fn entry(uri: &str, title: &str, time_add: i64) -> Entry {
    Entry { uri: uri.to_string(), title: title.to_string(), time_add }
}

#[test]
fn upsert_twice_keeps_one_row_with_second_values() {
    let (mut dm, user) = fresh_store();
    dm.addEntry(&user, entry("https://example.com/a", "first", 10)).unwrap();
    dm.addEntry(&user, entry("https://example.com/a", "second", 20)).unwrap();
    let rows = dm.getEntries(&user, 0, 50, EntryOrder::NewFirst).unwrap();
    assert_eq!(rows.len(), 1);
    assert_eq!(rows[0].uri, "https://example.com/a");
    assert_eq!(rows[0].title, "second");
    assert_eq!(rows[0].time_add, 20);
    let found = dm.findEntryByURI(&user, "https://example.com/a").unwrap().unwrap();
    assert_eq!(found.title, "second");
    assert_eq!(found.time_add, 20);
}

#[test]
fn list_orders_and_paginates() {
    let (mut dm, user) = fresh_store();
    dm.addEntry(&user, entry("u1", "t1", 100)).unwrap();
    dm.addEntry(&user, entry("u2", "t2", 300)).unwrap();
    dm.addEntry(&user, entry("u3", "t3", 200)).unwrap();

    let newest = dm.getEntries(&user, 0, 50, EntryOrder::NewFirst).unwrap();
    let times: Vec<i64> = newest.iter().map(|e| e.time_add).collect();
    assert_eq!(times, vec![300, 200, 100]);

    let oldest = dm.getEntries(&user, 0, 50, EntryOrder::OldFirst).unwrap();
    let times: Vec<i64> = oldest.iter().map(|e| e.time_add).collect();
    assert_eq!(times, vec![100, 200, 300]);

    let page = dm.getEntries(&user, 1, 1, EntryOrder::NewFirst).unwrap();
    assert_eq!(page.len(), 1);
    assert_eq!(page[0].time_add, 200);

    let beyond = dm.getEntries(&user, 5, 10, EntryOrder::NewFirst).unwrap();
    assert!(beyond.is_empty());

    let none = dm.getEntries(&user, 0, 0, EntryOrder::NewFirst).unwrap();
    assert!(none.is_empty());
}

#[test]
fn move_to_archive_is_idempotent() {
    let (mut dm, user) = fresh_store();
    let e = entry("https://example.com/read-me", "a title", 50);
    dm.addEntry(&user, e.clone()).unwrap();
    dm.readEntryAt(&user, &e, 60).unwrap();
    assert!(dm.findEntryByURI(&user, "https://example.com/read-me").unwrap().is_none());
    // A second move is harmless and leaves the entry archived.
    dm.readEntryAt(&user, &e, 70).unwrap();
    assert!(dm.findEntryByURI(&user, "https://example.com/read-me").unwrap().is_none());
    let listed = dm.getEntries(&user, 0, 50, EntryOrder::NewFirst).unwrap();
    assert!(listed.is_empty());
}

#[test]
fn partitions_are_isolated_between_users() {
    let (mut dm, alice) = fresh_store();
    let bob = dm.createUser(User::new(0, "bob".to_string())).unwrap();
    assert_ne!(alice.id, bob.id);
    dm.addEntry(&alice, entry("https://example.com/a", "alices", 10)).unwrap();
    assert!(dm.findEntryByURI(&bob, "https://example.com/a").unwrap().is_none());
    assert!(dm.getEntries(&bob, 0, 50, EntryOrder::NewFirst).unwrap().is_empty());
    dm.addEntry(&bob, entry("https://example.com/a", "bobs", 20)).unwrap();
    let for_alice = dm.findEntryByURI(&alice, "https://example.com/a").unwrap().unwrap();
    assert_eq!(for_alice.title, "alices");
    assert_eq!(dm.getEntries(&alice, 0, 50, EntryOrder::NewFirst).unwrap().len(), 1);
}

#[test]
fn equal_timestamps_are_all_listed() {
    let (mut dm, user) = fresh_store();
    dm.addEntry(&user, entry("u1", "t1", 100)).unwrap();
    dm.addEntry(&user, entry("u2", "t2", 100)).unwrap();
    let rows = dm.getEntries(&user, 0, 50, EntryOrder::NewFirst).unwrap();
    assert_eq!(rows.len(), 2);
    let mut uris: Vec<String> = rows.iter().map(|e| e.uri.clone()).collect();
    uris.sort();
    assert_eq!(uris, vec!["u1".to_string(), "u2".to_string()]);
}

#[test]
fn operations_before_connect_report_pool_unavailable() {
    let mut dm = DataManager::new(SqliteFilename::InMemory);
    let ghost_user = User::new(1, "nobody".to_string());
    assert!(matches!(dm.init(), Err(Error::PoolUnavailable)));
    assert!(matches!(dm.findUser("nobody"), Err(Error::PoolUnavailable)));
    assert!(matches!(
        dm.addEntry(&ghost_user, entry("u", "t", 1)),
        Err(Error::PoolUnavailable)
    ));
    assert!(matches!(
        dm.getEntries(&ghost_user, 0, 10, EntryOrder::NewFirst),
        Err(Error::PoolUnavailable)
    ));
}

#[test]
fn unknown_user_is_a_storage_error() {
    let (mut dm, _user) = fresh_store();
    let stranger = User::new(999, "stranger".to_string());
    assert!(matches!(
        dm.addEntry(&stranger, entry("u", "t", 1)),
        Err(Error::Storage(_))
    ));
    assert!(matches!(
        dm.findEntryByURI(&stranger, "u"),
        Err(Error::Storage(_))
    ));
    assert!(matches!(
        dm.getEntries(&stranger, 0, 10, EntryOrder::NewFirst),
        Err(Error::Storage(_))
    ));
}

#[test]
fn create_and_find_users() {
    let (mut dm, alice) = fresh_store();
    assert_eq!(alice.id, 1);
    assert_eq!(alice.name, "alice");
    let found = dm.findUser("alice").unwrap().unwrap();
    assert_eq!(found.id, 1);
    assert_eq!(found.name, "alice");
    assert!(dm.findUser("nobody").unwrap().is_none());
    // A duplicate name is refused.
    assert!(matches!(
        dm.createUser(User::new(0, "alice".to_string())),
        Err(Error::Storage(_))
    ));
    let bob = dm.createUser(User::new(0, "bob".to_string())).unwrap();
    assert_eq!(bob.id, 2);
}

#[test]
fn read_entry_stamps_the_clock() {
    let (mut dm, user) = fresh_store();
    let e = entry("https://example.com/clock", "tick", 5);
    dm.addEntry(&user, e.clone()).unwrap();
    dm.readEntry(&user, &e).unwrap();
    assert!(dm.findEntryByURI(&user, "https://example.com/clock").unwrap().is_none());
}
