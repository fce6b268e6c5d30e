//! Record cleanup, field weighting, and the loaded collection.

use karkinos::models::is_whitespace;
use karkinos::models::User;
use karkinos::models::Users;
use karkinos::update::Updater;

fn user_named(name: &str) -> User {
    User {
        name: Some(name.to_string()),
        irc: None,
        irc_channels: Vec::new(),
        show_avatar: false,
        email: None,
        discourse: None,
        reddit: None,
        twitter: None,
        blog: None,
        website: None,
        notes: None,
    }
}

#[test]
fn whitespace_detection() {
    assert!(is_whitespace(""));
    assert!(is_whitespace(" \t\n"));
    assert!(is_whitespace("\u{a0}"));
    assert!(!is_whitespace(" x "));
}

#[test]
fn blank_fields_become_absent() {
    let mut u = user_named("Bors");
    u.irc = Some("   ".to_string());
    u.email = Some("\t".to_string());
    u.notes = Some("keeps".to_string());
    u.remove_empty_strings();
    assert_eq!(u.name, Some("Bors".to_string()));
    assert_eq!(u.irc, None);
    assert_eq!(u.email, None);
    assert_eq!(u.notes, Some("keeps".to_string()));
}

#[test]
fn channel_markers_are_stripped() {
    let mut u = user_named("Bors");
    u.irc_channels = vec![
        "#rust".to_string(),
        "##rust-bots".to_string(),
        "plain".to_string(),
        "#".to_string(),
    ];
    u.strip_channel_prefixes();
    assert_eq!(
        u.irc_channels,
        vec![
            "rust".to_string(),
            "rust-bots".to_string(),
            "plain".to_string(),
            "".to_string(),
        ]
    );
}

#[test]
fn searchable_fields_carry_weights() {
    let mut u = user_named("Bors");
    u.irc = Some("bors".to_string());
    u.website = Some("https://example.org".to_string());
    u.irc_channels = vec!["rust".to_string(), "rust-bots".to_string()];
    let fields = u.with_str_fields();
    assert_eq!(
        fields,
        vec![
            ("Bors".to_string(), 20u64),
            ("bors".to_string(), 10u64),
            ("https://example.org".to_string(), 1u64),
            ("rust".to_string(), 1u64),
            ("rust-bots".to_string(), 1u64),
        ]
    );
}

#[test]
fn loaded_records_are_searchable() {
    let data = vec![
        ("alice".to_string(), Ok(user_named("Alice Smith"))),
        ("bob".to_string(), Err("entry did not parse".to_string())),
    ];
    let users = Users::load(data);
    let (by_name, _) = users.search("smith");
    assert_eq!(by_name, vec![("alice".to_string(), 20u64)]);
    let (by_id, _) = users.search("bob");
    assert_eq!(by_id, vec![("bob".to_string(), 10u64)]);
}

#[test]
fn ids_outweigh_field_text() {
    let data = vec![
        ("carol".to_string(), Ok(user_named("dave"))),
        ("dave".to_string(), Ok(user_named("someone"))),
    ];
    let users = Users::load(data);
    let (results, _) = users.search("dave");
    assert_eq!(
        results,
        vec![("carol".to_string(), 20u64), ("dave".to_string(), 10u64)]
    );
}

#[test]
fn lookup_by_identifier() {
    let data = vec![
        ("alice".to_string(), Ok(user_named("Alice"))),
        ("bob".to_string(), Err("broken".to_string())),
    ];
    let users = Users::load(data);
    match users.get(&"alice".to_string()) {
        Some(Ok(u)) => assert_eq!(u.name, Some("Alice".to_string())),
        _ => panic!("alice should be present and parsed"),
    }
    match users.get(&"bob".to_string()) {
        Some(Err(e)) => assert_eq!(e, "broken"),
        _ => panic!("bob should be present with an error"),
    }
    assert!(users.get(&"carol".to_string()).is_none());
}

#[test]
fn random_identifier_comes_from_the_data() {
    let data = vec![
        ("alice".to_string(), Ok(user_named("Alice"))),
        ("bob".to_string(), Ok(user_named("Bob"))),
    ];
    let users = Users::load(data);
    for _ in 0..20 {
        let id = users.random_id().expect("data is nonempty");
        assert!(id.as_str() == "alice" || id.as_str() == "bob");
    }
    let empty = Users::load(Vec::new());
    assert!(empty.random_id().is_none());
}

#[test]
fn updater_keeps_its_directory() {
    let u = Updater::new("data/records".to_string());
    assert_eq!(u.data_dir().as_str(), "data/records");
}
