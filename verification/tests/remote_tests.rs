use inbox_cleanup::gmail::{
    fetch_email_body, fetch_emails_since, fetch_unread_emails, mark_emails_as_read,
    parse_email_body, test_connection, RemoteMailbox, RemoteMessage,
};
use inbox_cleanup::storage::{MemStorage, Storage};
use inbox_cleanup::sync::{run_sync, run_unread_sync, start_background_sync, SyncCoordinator};

fn msg(uid: u32, subject: &str, from_mailbox: &str, from_host: &str, seen: bool) -> RemoteMessage {
    RemoteMessage {
        uid,
        subject: Some(subject.as_bytes().to_vec()),
        from_name: None,
        from_mailbox: Some(from_mailbox.as_bytes().to_vec()),
        from_host: Some(from_host.as_bytes().to_vec()),
        date: Some(b"Wed, 18 Feb 2015 23:16:09 GMT".to_vec()),
        message_id: Some(format!("<{}@id>", uid).into_bytes()),
        seen,
        body: None,
    }
}

const RAW_MAIL: &[u8] = b"From: a@b.c\r\nSubject: x\r\n\r\nhello body";

#[test]
fn unread_fetch_converts_envelopes() {
    let mbox = RemoteMailbox {
        msgs: vec![
            msg(1, "first", "alice", "example.com", true),
            msg(2, "second", "bob", "example.com", false),
        ],
    };
    let unread = fetch_unread_emails(&mbox).unwrap();
    assert_eq!(unread.len(), 1);
    assert_eq!(unread[0].uid, 2);
    assert_eq!(unread[0].subject, "second");
    assert_eq!(unread[0].sender, "bob@example.com");
    assert_eq!(unread[0].date_epoch, 1424301369);
    assert!(!unread[0].is_read);
}

#[test]
fn unread_fetch_decodes_and_falls_back() {
    let mut m = msg(9, "x", "a", "b.c", false);
    m.subject = Some(b"=?utf-8?q?caf=C3=A9_time?=".to_vec());
    m.from_name = Some(b"Carol".to_vec());
    let mut bare = msg(10, "y", "", "", false);
    bare.subject = None;
    bare.from_mailbox = None;
    bare.from_host = None;
    bare.date = None;
    let mut odd_date = msg(11, "z", "c", "d.e", false);
    odd_date.date = Some(b"not a date".to_vec());
    let mbox = RemoteMailbox { msgs: vec![m, bare, odd_date] };
    let unread = fetch_unread_emails(&mbox).unwrap();
    assert_eq!(unread[0].subject, "caf\u{e9} time");
    assert_eq!(unread[0].sender, "Carol <a@b.c>");
    assert_eq!(unread[1].subject, "(No Subject)");
    assert_eq!(unread[1].sender, "Unknown");
    assert_eq!(unread[1].date_epoch, 0);
    assert_eq!(unread[1].date, "");
    // an unparsable date keeps its text but gets no epoch
    assert_eq!(unread[2].date, "not a date");
    assert_eq!(unread[2].date_epoch, 0);
}

#[test]
fn chunked_fetch_partitions_and_prefetches() {
    let mut m5 = msg(5, "newest", "e", "x.com", false);
    m5.body = Some(RAW_MAIL.to_vec());
    let mut m4 = msg(4, "older", "d", "x.com", true);
    m4.body = Some(RAW_MAIL.to_vec());
    let mbox = RemoteMailbox {
        msgs: vec![
            msg(1, "a", "a", "x.com", true),
            msg(2, "b", "b", "x.com", false),
            msg(3, "c", "c", "x.com", false),
            m4,
            m5,
        ],
    };
    let (chunks, total, max_uid) = fetch_emails_since(&mbox, 2, 2, 1).unwrap();
    assert_eq!(total, 3);
    assert_eq!(max_uid, Some(5));
    assert_eq!(chunks.len(), 2);
    assert_eq!(chunks[0].emails.len(), 2);
    assert_eq!(chunks[0].emails[0].uid, 3);
    assert_eq!(chunks[0].emails[1].uid, 4);
    assert!(chunks[0].emails[1].is_read);
    assert_eq!(chunks[0].processed, 2);
    assert_eq!(chunks[0].total, 3);
    assert_eq!(chunks[1].emails.len(), 1);
    assert_eq!(chunks[1].emails[0].uid, 5);
    assert_eq!(chunks[1].processed, 3);
    // only the single most recent message gets its body prefetched
    assert!(chunks[0].bodies.is_empty());
    assert_eq!(chunks[1].bodies.len(), 1);
    assert_eq!(chunks[1].bodies[0].uid, 5);
    let text = chunks[1].bodies[0].body.text.as_deref().unwrap();
    assert!(text.contains("hello body"));

    // a zero cursor selects everything
    let (_, all_total, all_max) = fetch_emails_since(&mbox, 0, 10, 0).unwrap();
    assert_eq!(all_total, 5);
    assert_eq!(all_max, Some(5));
}

#[test]
fn marking_read_flags_only_given_uids() {
    let mut mbox = RemoteMailbox {
        msgs: vec![
            msg(1, "a", "a", "x.com", false),
            msg(2, "b", "b", "x.com", false),
        ],
    };
    let n = mark_emails_as_read(&mut mbox, &vec![2, 77]).unwrap();
    assert_eq!(n, 2);
    assert!(!mbox.msgs[0].seen);
    assert!(mbox.msgs[1].seen);
}

#[test]
fn connection_report_counts_messages() {
    let mbox = RemoteMailbox {
        msgs: vec![
            msg(1, "a", "a", "x.com", false),
            msg(2, "b", "b", "x.com", false),
        ],
    };
    let report = test_connection(&mbox).unwrap();
    assert_eq!(report, "Connection successful! Inbox has 2 messages.");
}

#[test]
fn body_fetch_finds_and_parses() {
    let mut m = msg(3, "with body", "a", "x.com", false);
    m.body = Some(RAW_MAIL.to_vec());
    let mbox = RemoteMailbox {
        msgs: vec![msg(1, "no body", "a", "x.com", false), m],
    };
    let body = fetch_email_body(&mbox, 3).unwrap();
    assert!(body.text.as_deref().unwrap().contains("hello body"));
    assert!(fetch_email_body(&mbox, 1).is_err());
    assert!(fetch_email_body(&mbox, 42).is_err());

    assert!(parse_email_body(&RAW_MAIL.to_vec()).is_ok());
}

#[test]
fn background_sync_streams_stages_and_advances_cursor() {
    let mut store = MemStorage::new();
    let mbox = RemoteMailbox {
        msgs: vec![
            msg(1, "a", "a", "x.com", true),
            msg(2, "b", "b", "x.com", false),
            msg(3, "c", "c", "x.com", false),
        ],
    };
    let events = run_sync(&mut store, &mbox, "acct@x.com", 2, 0);
    assert_eq!(events[0].stage, "start");
    assert_eq!(events.last().unwrap().stage, "complete");
    let progress: Vec<(usize, usize)> = events[1..events.len() - 1]
        .iter()
        .map(|e| (e.processed, e.total))
        .collect();
    assert_eq!(progress, vec![(2, 3), (3, 3)]);
    assert_eq!(store.get_last_uid("acct@x.com").unwrap(), 3);
    assert_eq!(store.count_emails("acct@x.com", false).unwrap(), 3);
    assert_eq!(store.count_emails("acct@x.com", true).unwrap(), 2);

    // a second run has nothing newer: start then complete
    let events = run_sync(&mut store, &mbox, "acct@x.com", 2, 0);
    assert_eq!(events.len(), 2);
    assert_eq!(events.last().unwrap().stage, "complete");
}

#[test]
fn unread_sync_mirrors_unseen_and_keeps_cursor() {
    let mut store = MemStorage::new();
    let mbox = RemoteMailbox {
        msgs: vec![
            msg(1, "a", "a", "x.com", true),
            msg(2, "b", "b", "x.com", false),
            msg(3, "c", "c", "x.com", false),
        ],
    };
    let events = run_unread_sync(&mut store, &mbox, "acct@x.com");
    assert_eq!(events.len(), 2);
    assert_eq!(events[0].stage, "start");
    assert_eq!(events[1].stage, "complete");
    assert_eq!(events[1].processed, 2);
    assert_eq!(events[1].total, 2);
    assert!(events[1].message.is_none());
    assert_eq!(store.count_emails("acct@x.com", false).unwrap(), 2);
    assert_eq!(store.count_emails("acct@x.com", true).unwrap(), 2);
    // the incremental sync cursor is not advanced by the unread path
    assert_eq!(store.get_last_uid("acct@x.com").unwrap(), 0);

    // redelivery is idempotent: the same unseen set leaves two rows
    let events = run_unread_sync(&mut store, &mbox, "acct@x.com");
    assert_eq!(events[1].stage, "complete");
    assert_eq!(store.count_emails("acct@x.com", false).unwrap(), 2);
}

#[test]
fn coordinator_runs_one_sync_per_account() {
    let mut coord = SyncCoordinator::new();
    assert!(coord.begin_sync("a@x.com"));
    assert!(!coord.begin_sync("a@x.com"));
    assert!(coord.begin_sync("b@x.com"));
    assert!(coord.is_syncing("a@x.com"));
    coord.finish_sync("a@x.com");
    assert!(!coord.is_syncing("a@x.com"));
    assert!(coord.is_syncing("b@x.com"));
    assert!(coord.begin_sync("a@x.com"));

    let mut store = MemStorage::new();
    let mbox = RemoteMailbox {
        msgs: vec![msg(1, "a", "a", "x.com", false)],
    };
    // a@x.com is marked in flight: the start is a silent no-op
    assert!(start_background_sync(&mut coord, &mut store, &mbox, "a@x.com", 5, 0).is_none());
    assert_eq!(store.count_emails("a@x.com", false).unwrap(), 0);
    coord.finish_sync("a@x.com");
    let events = start_background_sync(&mut coord, &mut store, &mbox, "a@x.com", 5, 0).unwrap();
    assert_eq!(events.last().unwrap().stage, "complete");
    assert_eq!(store.count_emails("a@x.com", false).unwrap(), 1);
    // the marker is cleared on completion
    assert!(!coord.is_syncing("a@x.com"));
}
