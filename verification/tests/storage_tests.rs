use inbox_cleanup::gmail::GmailEmail;
use inbox_cleanup::mail::{FilterField, FilterPattern};
use inbox_cleanup::storage::{migrate_filters_to_integer_ids, LegacyFilter, MemStorage, Storage};

fn make_email(uid: u32, subject: &str, sender: &str) -> GmailEmail {
    GmailEmail {
        uid,
        message_id: format!("msg-{}", uid),
        subject: subject.to_string(),
        sender: sender.to_string(),
        date: "2024-01-02T12:00:00Z".to_string(),
        date_epoch: 1704196800,
        is_read: false,
    }
}

#[test]
fn upsert_and_mark_read_roundtrip() {
    let mut storage = MemStorage::new();
    let emails = vec![
        GmailEmail {
            uid: 101,
            message_id: "msg-101".to_string(),
            subject: "Hello".to_string(),
            sender: "Alice <alice@example.com>".to_string(),
            date: "2024-01-01T10:00:00Z".to_string(),
            date_epoch: 1704103200,
            is_read: false,
        },
        GmailEmail {
            uid: 102,
            message_id: "msg-102".to_string(),
            subject: "Update".to_string(),
            sender: "Bob <bob@example.com>".to_string(),
            date: "2024-01-02T12:00:00Z".to_string(),
            date_epoch: 1704196800,
            is_read: true,
        },
    ];

    storage
        .upsert_emails("test@example.com", "INBOX", &emails)
        .unwrap();

    let unread = storage.list_emails("test@example.com", true, 50, 0).unwrap();
    assert_eq!(unread.len(), 1);
    assert_eq!(unread[0].account, "test@example.com");
    assert!(!unread[0].is_read);

    let updated = storage
        .mark_emails_read("test@example.com", &vec![101])
        .unwrap();
    assert_eq!(updated, 1);

    let unread_after = storage.list_emails("test@example.com", true, 50, 0).unwrap();
    assert_eq!(unread_after.len(), 0);
}

#[test]
fn save_and_load_filters() {
    let mut storage = MemStorage::new();
    let patterns = vec![
        FilterPattern {
            id: 0,
            name: "Subject contains".to_string(),
            pattern: "Hello".to_string(),
            field: FilterField::Subject,
            is_regex: false,
            enabled: true,
        },
        FilterPattern {
            id: 0,
            name: "Sender regex".to_string(),
            pattern: "example.com$".to_string(),
            field: FilterField::Sender,
            is_regex: true,
            enabled: false,
        },
    ];

    storage.save_filters(&patterns).unwrap();
    let loaded = storage.get_filters().unwrap();
    assert_eq!(loaded.len(), 2);
    assert!(loaded[0].id > 0);
    assert!(loaded[1].id > 0);
}

fn count_for(counts: &[(i64, u64)], id: i64) -> Option<u64> {
    counts.iter().find(|c| c.0 == id).map(|c| c.1)
}

#[test]
fn filter_refresh_matches_old_and_new_emails_in_batches() {
    let mut storage = MemStorage::new();
    let patterns = vec![
        FilterPattern {
            id: 0,
            name: "Subject contains invoice".to_string(),
            pattern: "invoice".to_string(),
            field: FilterField::Subject,
            is_regex: false,
            enabled: true,
        },
        FilterPattern {
            id: 0,
            name: "Sender regex".to_string(),
            pattern: "@vip\\.example\\.com$".to_string(),
            field: FilterField::Sender,
            is_regex: true,
            enabled: true,
        },
    ];
    let saved = storage.save_filters(&patterns).unwrap();
    let subject_id = saved[0].id;
    let sender_id = saved[1].id;

    let account = "old-new@example.com";
    let old_emails = vec![
        make_email(10, "Invoice March", "billing@corp.com"),
        make_email(11, "Hello", "ceo@vip.example.com"),
    ];
    storage.upsert_emails(account, "INBOX", &old_emails).unwrap();

    let processed_first = storage.refresh_filtered_emails(account, 1, true).unwrap();
    assert_eq!(processed_first, 1);
    let processed_second = storage.refresh_filtered_emails(account, 1, false).unwrap();
    assert_eq!(processed_second, 1);
    let processed_third = storage.refresh_filtered_emails(account, 1, false).unwrap();
    assert_eq!(processed_third, 0);

    let counts = storage.filter_match_counts(account, false).unwrap();
    assert_eq!(count_for(&counts, subject_id), Some(1));
    assert_eq!(count_for(&counts, sender_id), Some(1));

    let new_emails = vec![make_email(12, "Invoice April", "billing@corp.com")];
    storage.upsert_emails(account, "INBOX", &new_emails).unwrap();

    let processed_new = storage.refresh_filtered_emails(account, 10, false).unwrap();
    assert_eq!(processed_new, 1);

    let counts_after = storage.filter_match_counts(account, false).unwrap();
    assert_eq!(count_for(&counts_after, subject_id), Some(2));
    assert_eq!(count_for(&counts_after, sender_id), Some(1));
}

#[test]
fn filter_refresh_rewinds_when_filtered_empty_but_last_id_set() {
    let mut storage = MemStorage::new();
    let patterns = vec![FilterPattern {
        id: 0,
        name: "Subject contains".to_string(),
        pattern: "Hello".to_string(),
        field: FilterField::Subject,
        is_regex: false,
        enabled: true,
    }];
    let saved = storage.save_filters(&patterns).unwrap();
    let filter_id = saved[0].id;

    let account = "rematch@example.com";
    let emails = vec![
        make_email(20, "Hello World", "alice@example.com"),
        make_email(21, "Hello Again", "bob@example.com"),
    ];
    storage.upsert_emails(account, "INBOX", &emails).unwrap();

    storage.set_filter_last_email_id(account, 999);

    let processed = storage.refresh_filtered_emails(account, 50, false).unwrap();
    assert_eq!(processed, 2);

    let counts = storage.filter_match_counts(account, false).unwrap();
    assert_eq!(count_for(&counts, filter_id), Some(2));

    let last_id = storage.get_filter_last_email_id(account);
    assert_eq!(last_id, 2);
}

#[test]
fn legacy_text_identities_migrate_with_associations() {
    let legacy = vec![
        LegacyFilter {
            id: "uuid-a".to_string(),
            name: "first".to_string(),
            pattern: "alpha".to_string(),
            field: FilterField::Subject,
            is_regex: false,
            enabled: true,
        },
        LegacyFilter {
            id: "uuid-b".to_string(),
            name: "second".to_string(),
            pattern: "beta$".to_string(),
            field: FilterField::Sender,
            is_regex: true,
            enabled: false,
        },
    ];
    let associations = vec![
        (11, "uuid-b".to_string()),
        (12, "uuid-a".to_string()),
        (13, "uuid-gone".to_string()),
    ];
    let (filters, matches) = migrate_filters_to_integer_ids(&legacy, &associations);
    assert_eq!(filters.len(), 2);
    assert_eq!(filters[0].id, 1);
    assert_eq!(filters[0].name, "first");
    assert_eq!(filters[1].id, 2);
    assert!(filters[1].is_regex);
    // associations keep their order, rekeyed; the dangling one drops out
    assert_eq!(matches, vec![(11, 2), (12, 1)]);
}

#[test]
fn missing_date_epochs_backfill_from_date_strings() {
    let mut storage = MemStorage::new();
    let account = "epochs@example.com";
    let mut parsable = make_email(1, "dated", "s@x.com");
    parsable.date = "Wed, 18 Feb 2015 23:16:09 GMT".to_string();
    parsable.date_epoch = 0;
    let mut hopeless = make_email(2, "undated", "s@x.com");
    hopeless.date = "not a date".to_string();
    hopeless.date_epoch = 0;
    let mut settled = make_email(3, "already dated", "s@x.com");
    settled.date_epoch = 42;
    storage
        .upsert_emails(account, "INBOX", &vec![parsable, hopeless, settled])
        .unwrap();

    storage.backfill_date_epoch().unwrap();

    let all = storage.list_emails(account, false, 10, 0).unwrap();
    let epoch_of = |uid: u32| all.iter().find(|e| e.uid == uid).unwrap().date_epoch;
    assert_eq!(epoch_of(1), 1424301369);
    assert_eq!(epoch_of(2), 0);
    assert_eq!(epoch_of(3), 42);
}

#[test]
fn db_file_path_is_under_the_app_config_dir() {
    match inbox_cleanup::storage::get_db_file_path() {
        Ok(path) => assert!(path.ends_with("/InboxCleanup/inboxcleanup.sqlite3")),
        Err(e) => assert_eq!(e, "Could not find config directory"),
    }
}

#[test]
fn id_allocators_start_at_one_and_advance() {
    let mut storage = MemStorage::new();
    assert_eq!(storage.next_id(), 1);
    assert_eq!(storage.next_rule_id(), 1);
    storage
        .upsert_emails("a@x.com", "INBOX", &vec![make_email(1, "s", "f@x.com")])
        .unwrap();
    assert_eq!(storage.next_id(), 2);
    // redelivering the same identity allocates nothing
    storage
        .upsert_emails("a@x.com", "INBOX", &vec![make_email(1, "t", "f@x.com")])
        .unwrap();
    assert_eq!(storage.next_id(), 2);
    let saved = storage
        .save_filters(&vec![FilterPattern {
            id: 0,
            name: "n".to_string(),
            pattern: "x".to_string(),
            field: FilterField::Subject,
            is_regex: false,
            enabled: true,
        }])
        .unwrap();
    assert_eq!(saved.len(), 1);
    assert_eq!(storage.next_rule_id(), 2);
}
