use stash::config::defaultOldFirst;
use stash::config::findConfig;
use stash::config::ConfigSource;
use stash::config::Configuration;
use stash::data::DataManager;
use stash::data::EntryOrder;
use stash::data::SqliteFilename;
use stash::data::User;
use stash::error::Error;
use stash::pipeline::addURL;
use stash::pipeline::oembedQueryURL;
use stash::pipeline::placeholderTitle;
use stash::pipeline::readURL;
use stash::pipeline::statusIsSuccess;
use stash::pipeline::userAgent;

fn fresh_store() -> (DataManager, User) {
    let mut dm = DataManager::new(SqliteFilename::InMemory);
    dm.connect().unwrap();
    dm.init().unwrap();
    let user = dm.createUser(User::new(0, "user1".to_string())).unwrap();
    (dm, user)
}

#[test]
fn add_read_round_trip() {
    let (mut dm, user1) = fresh_store();
    let body = "<html><head><title>Hello</title></head></html>".to_string();
    let added = addURL(
        &mut dm,
        &user1,
        "https://example.com/a".to_string(),
        Ok(body),
        None,
        1000,
    )
    .unwrap();
    assert_eq!(added.title, "Hello");
    assert_eq!(added.uri, "https://example.com/a");
    assert_eq!(added.time_add, 1000);

    let listed = dm.getEntries(&user1, 0, 50, EntryOrder::NewFirst).unwrap();
    assert_eq!(listed[0].uri, "https://example.com/a");
    assert_eq!(listed[0].title, "Hello");

    let moved = readURL(&mut dm, &user1, "https://example.com/a", 2000).unwrap();
    assert_eq!(moved.title, "Hello");
    let listed = dm.getEntries(&user1, 0, 50, EntryOrder::NewFirst).unwrap();
    assert!(listed.iter().all(|e| e.uri != "https://example.com/a"));
    assert!(dm.findEntryByURI(&user1, "https://example.com/a").unwrap().is_none());
}

#[test]
fn add_newest_entry_lists_first() {
    let (mut dm, user1) = fresh_store();
    addURL(
        &mut dm,
        &user1,
        "https://example.com/old".to_string(),
        Ok("<title>Old</title>".to_string()),
        None,
        10,
    )
    .unwrap();
    addURL(
        &mut dm,
        &user1,
        "https://example.com/new".to_string(),
        Ok("<title>New</title>".to_string()),
        None,
        20,
    )
    .unwrap();
    let listed = dm.getEntries(&user1, 0, 50, EntryOrder::NewFirst).unwrap();
    assert_eq!(listed[0].title, "New");
}

#[test]
fn titleless_body_gets_the_placeholder() {
    let (mut dm, user1) = fresh_store();
    let added = addURL(
        &mut dm,
        &user1,
        "https://example.com/untitled".to_string(),
        Ok("<html><body>nothing here</body></html>".to_string()),
        None,
        5,
    )
    .unwrap();
    assert_eq!(added.title, "(No title)");
    assert_eq!(placeholderTitle(), "(No title)");
}

#[test]
fn fetch_failure_aborts_the_add() {
    let (mut dm, user1) = fresh_store();
    let r = addURL(
        &mut dm,
        &user1,
        "https://gone.example.com/".to_string(),
        Err("connection refused".to_string()),
        None,
        5,
    );
    assert!(matches!(r, Err(Error::Fetch(_))));
    assert!(dm.getEntries(&user1, 0, 50, EntryOrder::NewFirst).unwrap().is_empty());
}

#[test]
fn tweet_add_takes_the_embed_title_or_placeholder() {
    let (mut dm, user1) = fresh_store();
    let oembed = "{\"html\":\"<blockquote><p>Tweet text!</p><a>x</a></blockquote>\"}";
    let added = addURL(
        &mut dm,
        &user1,
        "https://twitter.com/u/status/1".to_string(),
        Ok("irrelevant page body".to_string()),
        Some(oembed.to_string()),
        7,
    )
    .unwrap();
    assert_eq!(added.title, "Tweet text!");

    let degraded = addURL(
        &mut dm,
        &user1,
        "https://twitter.com/u/status/2".to_string(),
        Ok("irrelevant page body".to_string()),
        None,
        8,
    )
    .unwrap();
    assert_eq!(degraded.title, "(No title)");
}

#[test]
fn reading_an_unstashed_uri_is_an_error() {
    let (mut dm, user1) = fresh_store();
    let r = readURL(&mut dm, &user1, "https://example.com/never-added", 1);
    assert!(matches!(r, Err(Error::Storage(_))));
}

#[test]
fn fetch_helpers_are_fixed() {
    assert!(statusIsSuccess(200));
    assert!(!statusIsSuccess(404));
    assert!(!statusIsSuccess(301));
    assert_eq!(
        userAgent(),
        "Mozilla/5.0 (X11; Linux i686; rv:98.0) Gecko/20100101 Firefox/98.0"
    );
    assert_eq!(
        oembedQueryURL("https://twitter.com/u/status/1"),
        "https://publish.twitter.com/oembed?url=https://twitter.com/u/status/1"
    );
}

#[test]
fn configuration_defaults_and_source_choice() {
    let c = Configuration::default();
    assert_eq!(c.data_dir, "/var/lib/stash");
    assert_eq!(c.db_path, "/var/lib/stash/stash.db");
    assert_eq!(c.listen_address, "127.0.0.1");
    assert_eq!(c.listen_port, 8080);
    assert!(!c.log_timestamp);
    assert!(!c.old_first);
    assert!(!defaultOldFirst());
    assert!(matches!(findConfig(true, true), ConfigSource::LocalFile));
    assert!(matches!(findConfig(true, false), ConfigSource::LocalFile));
    assert!(matches!(findConfig(false, true), ConfigSource::SystemFile));
    assert!(matches!(findConfig(false, false), ConfigSource::BuiltIn));
}
