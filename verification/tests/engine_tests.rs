use inbox_cleanup::filters::{apply_filters, email_matches_pattern, test_pattern};
use inbox_cleanup::mail::{extract_mailbox_name, parse_email_output};
use inbox_cleanup::gmail::GmailEmail;
use inbox_cleanup::mail::{Email, FilterField, FilterPattern};
use inbox_cleanup::storage::{MemStorage, Storage};

fn make_email(uid: u32, subject: &str, sender: &str) -> GmailEmail {
    GmailEmail {
        uid,
        message_id: format!("msg-{}", uid),
        subject: subject.to_string(),
        sender: sender.to_string(),
        date: "2024-01-02T12:00:00Z".to_string(),
        date_epoch: 1704196800,
        is_read: false,
    }
}

fn plain_email(subject: &str, sender: &str) -> Email {
    Email {
        id: "1".to_string(),
        message_id: "m1".to_string(),
        subject: subject.to_string(),
        sender: sender.to_string(),
        date_received: "today".to_string(),
        mailbox: "INBOX".to_string(),
        account: "a@x.com".to_string(),
    }
}

fn count_for(counts: &[(i64, u64)], id: i64) -> Option<u64> {
    counts.iter().find(|c| c.0 == id).map(|c| c.1)
}

/// Upserting the same identity twice keeps one row with the later
/// fields.
#[test]
fn upsert_twice_is_idempotent() {
    let mut storage = MemStorage::new();
    let account = "idem@example.com";
    let first = vec![make_email(7, "Old subject", "old@example.com")];
    storage.upsert_emails(account, "INBOX", &first).unwrap();
    let second = vec![make_email(7, "New subject", "new@example.com")];
    storage.upsert_emails(account, "INBOX", &second).unwrap();

    assert_eq!(storage.count_emails(account, false).unwrap(), 1);
    let listed = storage.list_emails(account, false, 10, 0).unwrap();
    assert_eq!(listed.len(), 1);
    assert_eq!(listed[0].subject, "New subject");
    assert_eq!(listed[0].sender, "new@example.com");
}

/// Listing is newest-first by date epoch, zero epochs last, and the
/// window honours limit and offset.
#[test]
fn listing_is_newest_first_with_zero_epochs_last() {
    let mut storage = MemStorage::new();
    let account = "order@example.com";
    let mut e1 = make_email(1, "oldest", "s@x.com");
    e1.date_epoch = 100;
    let mut e2 = make_email(2, "newest", "s@x.com");
    e2.date_epoch = 300;
    let mut e3 = make_email(3, "middle", "s@x.com");
    e3.date_epoch = 200;
    let mut e4 = make_email(4, "undated", "s@x.com");
    e4.date_epoch = 0;
    storage
        .upsert_emails(account, "INBOX", &vec![e1, e2, e3, e4])
        .unwrap();

    let all = storage.list_emails(account, false, 10, 0).unwrap();
    let subjects: Vec<&str> = all.iter().map(|e| e.subject.as_str()).collect();
    assert_eq!(subjects, vec!["newest", "middle", "oldest", "undated"]);

    let windowed = storage.list_emails(account, false, 2, 1).unwrap();
    let ws: Vec<&str> = windowed.iter().map(|e| e.subject.as_str()).collect();
    assert_eq!(ws, vec!["middle", "oldest"]);
}

/// Marking UIDs read removes them from the unread listing and lowers
/// the unread count by exactly the number previously unread.
#[test]
fn mark_read_adjusts_unread_count_exactly() {
    let mut storage = MemStorage::new();
    let account = "marks@example.com";
    let mut read_one = make_email(32, "c", "s@x.com");
    read_one.is_read = true;
    storage
        .upsert_emails(
            account,
            "INBOX",
            &vec![
                make_email(30, "a", "s@x.com"),
                make_email(31, "b", "s@x.com"),
                read_one,
                make_email(33, "d", "s@x.com"),
            ],
        )
        .unwrap();
    assert_eq!(storage.count_emails(account, true).unwrap(), 3);

    // 31 is unread, 32 was already read, 99 is unknown
    let changed = storage
        .mark_emails_read(account, &vec![31, 32, 99])
        .unwrap();
    assert_eq!(changed, 2); // rows 31 and 32 were touched

    assert_eq!(storage.count_emails(account, true).unwrap(), 2);
    let unread = storage.list_emails(account, true, 10, 0).unwrap();
    assert!(unread.iter().all(|e| e.uid != 31 && e.uid != 32));

    let back = storage.mark_emails_unread(account, &vec![31]).unwrap();
    assert_eq!(back, 1);
    assert_eq!(storage.count_emails(account, true).unwrap(), 3);
}

/// The worked example: two rules, two messages, one later arrival.
#[test]
fn example_scenario_incremental_counts() {
    let mut storage = MemStorage::new();
    let account = "a@x.com";
    let saved = storage
        .save_filters(&vec![
            FilterPattern {
                id: 0,
                name: "subject contains invoice".to_string(),
                pattern: "invoice".to_string(),
                field: FilterField::Subject,
                is_regex: false,
                enabled: true,
            },
            FilterPattern {
                id: 0,
                name: "sender regex".to_string(),
                pattern: "@vip\\.x\\.com$".to_string(),
                field: FilterField::Sender,
                is_regex: true,
                enabled: true,
            },
        ])
        .unwrap();
    let f1 = saved[0].id;
    let f2 = saved[1].id;

    storage
        .upsert_emails(
            account,
            "INBOX",
            &vec![
                make_email(10, "Invoice March", "billing@x.com"),
                make_email(11, "Hello", "ceo@vip.x.com"),
            ],
        )
        .unwrap();
    while storage.refresh_filtered_emails(account, 100, false).unwrap() > 0 {}

    let counts = storage.filter_match_counts(account, false).unwrap();
    assert_eq!(count_for(&counts, f1), Some(1));
    assert_eq!(count_for(&counts, f2), Some(1));

    storage
        .upsert_emails(
            account,
            "INBOX",
            &vec![make_email(12, "Invoice April", "billing@x.com")],
        )
        .unwrap();
    while storage.refresh_filtered_emails(account, 100, false).unwrap() > 0 {}

    let counts = storage.filter_match_counts(account, false).unwrap();
    assert_eq!(count_for(&counts, f1), Some(2));
    assert_eq!(count_for(&counts, f2), Some(1));
}

/// A small chunk size converges to the same matches as one unbounded
/// pass, and one more call reports zero.
#[test]
fn chunked_backfill_matches_unbounded_pass() {
    let account = "chunks@example.com";
    let rules = vec![FilterPattern {
        id: 0,
        name: "has e".to_string(),
        pattern: "e".to_string(),
        field: FilterField::Subject,
        is_regex: false,
        enabled: true,
    }];
    let emails = vec![
        make_email(1, "alpha", "s@x.com"),
        make_email(2, "beta", "s@x.com"),
        make_email(3, "gamma", "s@x.com"),
        make_email(4, "delta", "s@x.com"),
        make_email(5, "omega", "s@x.com"),
    ];

    let mut small = MemStorage::new();
    let fid_small = small.save_filters(&rules).unwrap()[0].id;
    small.upsert_emails(account, "INBOX", &emails).unwrap();
    let mut rounds = 0;
    while small.refresh_filtered_emails(account, 2, false).unwrap() > 0 {
        rounds += 1;
    }
    assert_eq!(rounds, 3); // 2 + 2 + 1 messages
    assert_eq!(small.refresh_filtered_emails(account, 2, false).unwrap(), 0);

    let mut big = MemStorage::new();
    let fid_big = big.save_filters(&rules).unwrap()[0].id;
    big.upsert_emails(account, "INBOX", &emails).unwrap();
    assert_eq!(big.refresh_filtered_emails(account, 1000, false).unwrap(), 5);

    let cs = small.filter_match_counts(account, false).unwrap();
    let cb = big.filter_match_counts(account, false).unwrap();
    assert_eq!(count_for(&cs, fid_small), count_for(&cb, fid_big));
    assert_eq!(count_for(&cs, fid_small), Some(3)); // beta, delta, omega
}

/// Updating a rule's pattern invalidates its matches; touching only
/// the name does not.
#[test]
fn rule_update_recomputes_only_changed_rules() {
    let mut storage = MemStorage::new();
    let account = "rules@example.com";
    let saved = storage
        .save_filters(&vec![FilterPattern {
            id: 0,
            name: "first".to_string(),
            pattern: "aaa".to_string(),
            field: FilterField::Subject,
            is_regex: false,
            enabled: true,
        }])
        .unwrap();
    let fid = saved[0].id;
    storage
        .upsert_emails(
            account,
            "INBOX",
            &vec![
                make_email(1, "aaa news", "s@x.com"),
                make_email(2, "bbb news", "s@x.com"),
            ],
        )
        .unwrap();
    while storage.refresh_filtered_emails(account, 100, false).unwrap() > 0 {}
    let counts = storage.filter_match_counts(account, false).unwrap();
    assert_eq!(count_for(&counts, fid), Some(1));

    // rename only: matches survive
    let renamed = storage
        .save_filters(&vec![FilterPattern {
            id: fid,
            name: "renamed".to_string(),
            pattern: "aaa".to_string(),
            field: FilterField::Subject,
            is_regex: false,
            enabled: true,
        }])
        .unwrap();
    assert_eq!(renamed[0].id, fid);
    let counts = storage.filter_match_counts(account, false).unwrap();
    assert_eq!(count_for(&counts, fid), Some(1));

    // pattern change: matches are recomputed synchronously
    storage
        .save_filters(&vec![FilterPattern {
            id: fid,
            name: "renamed".to_string(),
            pattern: "bbb".to_string(),
            field: FilterField::Subject,
            is_regex: false,
            enabled: true,
        }])
        .unwrap();
    let counts = storage.filter_match_counts(account, false).unwrap();
    assert_eq!(count_for(&counts, fid), Some(1));
    let hits = storage
        .list_filtered_emails(account, &vec![fid], false, 10, 0)
        .unwrap();
    assert_eq!(hits.len(), 1);
    assert_eq!(hits[0].uid, 2);
}

/// Deleted rules cascade their matches away.
#[test]
fn deleting_rule_removes_matches() {
    let mut storage = MemStorage::new();
    let account = "cascade@example.com";
    let saved = storage
        .save_filters(&vec![FilterPattern {
            id: 0,
            name: "any".to_string(),
            pattern: "news".to_string(),
            field: FilterField::Any,
            is_regex: false,
            enabled: true,
        }])
        .unwrap();
    let fid = saved[0].id;
    storage
        .upsert_emails(account, "INBOX", &vec![make_email(1, "news", "s@x.com")])
        .unwrap();
    while storage.refresh_filtered_emails(account, 100, false).unwrap() > 0 {}
    assert_eq!(storage.count_filtered_emails(account, &vec![fid], false).unwrap(), 1);

    let left = storage.save_filters(&vec![]).unwrap();
    assert!(left.is_empty());
    assert_eq!(storage.count_filtered_emails(account, &vec![fid], false).unwrap(), 0);
}

/// Per-message overrides replace the recorded matches of one message.
#[test]
fn set_email_filters_overrides_one_message() {
    let mut storage = MemStorage::new();
    let account = "override@example.com";
    let saved = storage
        .save_filters(&vec![FilterPattern {
            id: 0,
            name: "none".to_string(),
            pattern: "zzz".to_string(),
            field: FilterField::Subject,
            is_regex: false,
            enabled: true,
        }])
        .unwrap();
    let fid = saved[0].id;
    storage
        .upsert_emails(account, "INBOX", &vec![make_email(1, "plain", "s@x.com")])
        .unwrap();
    assert_eq!(storage.count_filtered_emails(account, &vec![fid], false).unwrap(), 0);

    storage.set_email_filters(account, 1, &vec![fid]).unwrap();
    assert_eq!(storage.count_filtered_emails(account, &vec![fid], false).unwrap(), 1);

    // an unknown filter id is a constraint violation and changes nothing
    assert!(storage.set_email_filters(account, 1, &vec![fid, 424242]).is_err());
    assert_eq!(storage.count_filtered_emails(account, &vec![fid], false).unwrap(), 1);

    // an unknown message is a silent no-op
    storage.set_email_filters(account, 999, &vec![fid]).unwrap();
}

/// Substring rules fold case; regex rules compile case-insensitively
/// in the storage engine.
#[test]
fn matching_is_case_insensitive() {
    let mut storage = MemStorage::new();
    let account = "case@example.com";
    let saved = storage
        .save_filters(&vec![
            FilterPattern {
                id: 0,
                name: "upper pattern".to_string(),
                pattern: "INVOICE".to_string(),
                field: FilterField::Subject,
                is_regex: false,
                enabled: true,
            },
            FilterPattern {
                id: 0,
                name: "upper regex".to_string(),
                pattern: "^BILLING@".to_string(),
                field: FilterField::Sender,
                is_regex: true,
                enabled: true,
            },
        ])
        .unwrap();
    storage
        .upsert_emails(
            account,
            "INBOX",
            &vec![make_email(1, "invoice attached", "billing@corp.com")],
        )
        .unwrap();
    while storage.refresh_filtered_emails(account, 100, false).unwrap() > 0 {}
    let counts = storage.filter_match_counts(account, false).unwrap();
    assert_eq!(count_for(&counts, saved[0].id), Some(1));
    assert_eq!(count_for(&counts, saved[1].id), Some(1));
}

/// The preview path: a valid expression filters, a malformed one is
/// rejected synchronously.
#[test]
fn test_pattern_accepts_and_rejects() {
    let emails = vec![
        plain_email("weekly report", "boss@corp.com"),
        plain_email("hello", "friend@home.net"),
    ];
    let hits = test_pattern(&emails, "report$", &FilterField::Subject).unwrap();
    assert_eq!(hits.len(), 1);
    assert_eq!(hits[0].subject, "weekly report");

    assert!(test_pattern(&emails, "(unclosed", &FilterField::Any).is_err());
}

/// The in-memory filter path keeps exactly the matching mail, and an
/// empty enabled set keeps nothing.
#[test]
fn apply_filters_keeps_only_matches() {
    let emails = vec![
        plain_email("Invoice march", "billing@corp.com"),
        plain_email("minutes", "team@corp.com"),
    ];
    let patterns = vec![
        FilterPattern {
            id: 1,
            name: "inv".to_string(),
            pattern: "INVOICE".to_string(),
            field: FilterField::Subject,
            is_regex: false,
            enabled: true,
        },
        FilterPattern {
            id: 2,
            name: "disabled".to_string(),
            pattern: "minutes".to_string(),
            field: FilterField::Subject,
            is_regex: false,
            enabled: false,
        },
    ];
    let kept = apply_filters(&emails, &patterns);
    assert_eq!(kept.len(), 1);
    assert_eq!(kept[0].subject, "Invoice march");

    let none = apply_filters(&emails, &vec![]);
    assert!(none.is_empty());

    assert!(email_matches_pattern(&emails[0], &patterns[0]));
    assert!(!email_matches_pattern(&emails[1], &patterns[0]));
}

/// Sync cursors are per account and overwrite in place.
#[test]
fn sync_cursor_bookkeeping() {
    let mut storage = MemStorage::new();
    assert_eq!(storage.get_last_uid("a@x.com").unwrap(), 0);
    storage.set_last_uid("a@x.com", 40).unwrap();
    storage.set_last_uid("b@x.com", 7).unwrap();
    storage.set_last_uid("a@x.com", 55).unwrap();
    assert_eq!(storage.get_last_uid("a@x.com").unwrap(), 55);
    assert_eq!(storage.get_last_uid("b@x.com").unwrap(), 7);
    assert_eq!(storage.get_max_uid("a@x.com").unwrap(), None);
}

/// Bodies are cached per message, both parts independently optional.
#[test]
fn body_cache_roundtrip() {
    let mut storage = MemStorage::new();
    let account = "bodies@example.com";
    storage
        .upsert_emails(account, "INBOX", &vec![make_email(5, "hi", "s@x.com")])
        .unwrap();
    assert!(storage.get_email_body(account, 5).unwrap().is_none());

    storage
        .set_email_bodies(
            account,
            &vec![inbox_cleanup::gmail::GmailEmailBody {
                uid: 5,
                body: inbox_cleanup::gmail::EmailBody {
                    html: Some("<p>hi</p>".to_string()),
                    text: Some("hi".to_string()),
                },
            }],
        )
        .unwrap();
    let body = storage.get_email_body(account, 5).unwrap().unwrap();
    assert_eq!(body.html.as_deref(), Some("<p>hi</p>"));
    assert_eq!(body.text.as_deref(), Some("hi"));

    // an upsert of the same UID must not clear the cached body
    storage
        .upsert_emails(account, "INBOX", &vec![make_email(5, "hi again", "s@x.com")])
        .unwrap();
    let body = storage.get_email_body(account, 5).unwrap().unwrap();
    assert_eq!(body.text.as_deref(), Some("hi"));
}

/// The adapter-output parser keeps well-formed lines and drops the
/// rest.
#[test]
fn adapter_output_parsing() {
    let raw = "12||Hi there||Alice <a@x.com>||Mon 1 Jan||INBOX||work@x.com\n\
               short||line\n\
               \n\
               13||Re: hi||Bob <b@x.com>||Tue 2 Jan||Archive||home@x.com\n";
    let parsed = parse_email_output(raw);
    assert_eq!(parsed.len(), 2);
    assert_eq!(parsed[0].id, "12");
    assert_eq!(parsed[0].message_id, "12");
    assert_eq!(parsed[0].subject, "Hi there");
    assert_eq!(parsed[0].sender, "Alice <a@x.com>");
    assert_eq!(parsed[0].date_received, "Mon 1 Jan");
    assert_eq!(parsed[0].mailbox, "INBOX");
    assert_eq!(parsed[0].account, "work@x.com");
    assert_eq!(parsed[1].id, "13");

    assert_eq!(extract_mailbox_name("imap://user@host/INBOX"), "INBOX");
    assert_eq!(extract_mailbox_name("Inbox"), "Inbox");
    assert_eq!(extract_mailbox_name("a/b/"), "");
}
