//! The remote-mailbox side of the engine: plain-data snapshots of what
//! an IMAP-style client reports, and the verified fetch planning and
//! conversion logic that runs over them.
//!
//! The network client itself is an outside collaborator; the
//! surrounding application converts its fetch results into the types
//! here and hands them to these functions.

use vstd::prelude::*;
use vstd::string::StringExecFns;

use crate::folds::{lemma_filter_take_step, lemma_take_full};
use crate::mime::{decode_mime_header, decode_words_from, utf8_lossy, utf8_lossy_of};

verus! {

/// One mirrored mail header, as delivered by the remote mailbox.
#[derive(Debug, Clone)]
pub struct GmailEmail {
    pub uid: u32,
    pub message_id: String,
    pub subject: String,
    pub sender: String,
    pub date: String,
    pub date_epoch: i64,
    pub is_read: bool,
}

/// Ghost record of a mirrored header.
pub ghost struct GmailEmailV {
    pub uid: u32,
    pub message_id: Seq<char>,
    pub subject: Seq<char>,
    pub sender: Seq<char>,
    pub date: Seq<char>,
    pub date_epoch: i64,
    pub is_read: bool,
}

impl View for GmailEmail {
    type V = GmailEmailV;

    open spec fn view(&self) -> GmailEmailV {
        GmailEmailV {
            uid: self.uid,
            message_id: self.message_id@,
            subject: self.subject@,
            sender: self.sender@,
            date: self.date@,
            date_epoch: self.date_epoch,
            is_read: self.is_read,
        }
    }
}

/// A message body, with HTML and plain-text parts independently
/// optional.
#[derive(Debug, Clone)]
pub struct EmailBody {
    pub html: Option<String>,
    pub text: Option<String>,
}

/// The view of an optional string.
pub open spec fn opt_view(o: Option<String>) -> Option<Seq<char>> {
    match o {
        Some(s) => Some(s@),
        None => None,
    }
}

/// Ghost record of a body.
pub ghost struct EmailBodyV {
    pub html: Option<Seq<char>>,
    pub text: Option<Seq<char>>,
}

impl View for EmailBody {
    type V = EmailBodyV;

    open spec fn view(&self) -> EmailBodyV {
        EmailBodyV { html: opt_view(self.html), text: opt_view(self.text) }
    }
}

/// A body paired with the remote identifier it belongs to.
pub struct GmailEmailBody {
    pub uid: u32,
    pub body: EmailBody,
}

/// Ghost record of a delivered body.
pub ghost struct GmailEmailBodyV {
    pub uid: u32,
    pub body: EmailBodyV,
}

impl View for GmailEmailBody {
    type V = GmailEmailBodyV;

    open spec fn view(&self) -> GmailEmailBodyV {
        GmailEmailBodyV { uid: self.uid, body: self.body@ }
    }
}

/// One bounded batch of a chunked fetch: the headers of the batch, any
/// prefetched bodies for identifiers in the batch, and the cumulative
/// progress so far.
pub struct GmailFetchChunk {
    pub emails: Vec<GmailEmail>,
    pub bodies: Vec<GmailEmailBody>,
    pub processed: usize,
    pub total: usize,
}

/// Copies an optional string.
pub fn clone_opt_string(o: &Option<String>) -> (r: Option<String>)
    ensures
        r == *o,
{
    match o {
        Some(s) => Some(s.clone()),
        None => None,
    }
}

/// Copies a mirrored header.  (The derived `Clone` carries no
/// specification.)
pub fn clone_gmail_email(e: &GmailEmail) -> (r: GmailEmail)
    ensures
        r == *e,
{
    GmailEmail {
        uid: e.uid,
        message_id: e.message_id.clone(),
        subject: e.subject.clone(),
        sender: e.sender.clone(),
        date: e.date.clone(),
        date_epoch: e.date_epoch,
        is_read: e.is_read,
    }
}

/// Copies a body.
pub fn clone_email_body(b: &EmailBody) -> (r: EmailBody)
    ensures
        r == *b,
{
    EmailBody { html: clone_opt_string(&b.html), text: clone_opt_string(&b.text) }
}


/// What `chrono`'s RFC 2822 parser makes of a date string: a Unix
/// epoch, or nothing for an unparsable date.
pub uninterp spec fn rfc2822_epoch_of(s: Seq<char>) -> Option<i64>;

/// Relies on `chrono::DateTime::parse_from_rfc2822` and `timestamp`:
/// the epoch of a date string depends on the string alone.
#[verifier::external_body]
pub(crate) fn parse_imap_date_epoch(date_str: &str) -> (r: Option<i64>)
    ensures
        r == rfc2822_epoch_of(date_str@),
{
    chrono::DateTime::parse_from_rfc2822(date_str).map(|dt| dt.timestamp()).ok()
}

/// Whether `mail_parser` accepts these bytes as a message.
pub uninterp spec fn parses_of(raw: Seq<u8>) -> bool;

/// The HTML part `mail_parser` extracts from a message, if any.
pub uninterp spec fn parsed_html_of(raw: Seq<u8>) -> Option<Seq<char>>;

/// The plain-text part `mail_parser` extracts from a message, if any.
pub uninterp spec fn parsed_text_of(raw: Seq<u8>) -> Option<Seq<char>>;

/// Relies on `mail_parser::MessageParser::parse`, `Message::body_html`
/// and `Message::body_text`: what a raw message parses to depends on
/// its bytes alone.
#[verifier::external_body]
fn parse_message_parts(raw: &Vec<u8>) -> (r: Option<EmailBody>)
    ensures
        r is Some <==> parses_of(raw@),
        r matches Some(b) ==> opt_view(b.html) == parsed_html_of(raw@) && opt_view(b.text)
            == parsed_text_of(raw@),
{
    let parser = mail_parser::MessageParser::default();
    match parser.parse(raw.as_slice()) {
        Some(m) => Some(
            EmailBody {
                html: m.body_html(0).map(|s| s.to_string()),
                text: m.body_text(0).map(|s| s.to_string()),
            },
        ),
        None => None,
    }
}

/// Parses a raw message into its cached body parts.
pub fn parse_email_body(raw: &Vec<u8>) -> (r: Result<EmailBody, String>)
    ensures
        r is Ok <==> parses_of(raw@),
        r matches Ok(b) ==> b@.html == parsed_html_of(raw@) && b@.text == parsed_text_of(raw@),
{
    match parse_message_parts(raw) {
        Some(b) => Ok(b),
        None => Err("Failed to parse email".to_owned()),
    }
}

/// The decimal digits of a number, most significant first.
pub open spec fn dec_str_of(n: nat) -> Seq<char>
    decreases n,
{
    if n < 10 {
        seq![digit_of(n)]
    } else {
        dec_str_of(n / 10).push(digit_of(n % 10))
    }
}

/// The character of one decimal digit.
pub open spec fn digit_of(d: nat) -> char {
    ((48 + d) as u8) as char
}

/// Relies on `u32`'s `Display` implementation: a `u32` formats as its
/// decimal digits, most significant first, with no sign or padding.
#[verifier::external_body]
fn u32_to_string(n: u32) -> (r: String)
    ensures
        r@ == dec_str_of(n as nat),
{
    n.to_string()
}

/// One message as the remote mailbox reports it: the remote
/// identifier, the raw envelope fields, the seen flag, and the raw
/// full message where the remote can deliver one.
pub struct RemoteMessage {
    pub uid: u32,
    pub subject: Option<Vec<u8>>,
    pub from_name: Option<Vec<u8>>,
    pub from_mailbox: Option<Vec<u8>>,
    pub from_host: Option<Vec<u8>>,
    pub date: Option<Vec<u8>>,
    pub message_id: Option<Vec<u8>>,
    pub seen: bool,
    pub body: Option<Vec<u8>>,
}

/// Ghost record of a remote message.
pub ghost struct RemoteMessageV {
    pub uid: u32,
    pub subject: Option<Seq<u8>>,
    pub from_name: Option<Seq<u8>>,
    pub from_mailbox: Option<Seq<u8>>,
    pub from_host: Option<Seq<u8>>,
    pub date: Option<Seq<u8>>,
    pub message_id: Option<Seq<u8>>,
    pub seen: bool,
    pub body: Option<Seq<u8>>,
}

/// The view of optional raw bytes.
pub open spec fn opt_bytes_view(o: Option<Vec<u8>>) -> Option<Seq<u8>> {
    match o {
        Some(v) => Some(v@),
        None => None,
    }
}

impl View for RemoteMessage {
    type V = RemoteMessageV;

    open spec fn view(&self) -> RemoteMessageV {
        RemoteMessageV {
            uid: self.uid,
            subject: opt_bytes_view(self.subject),
            from_name: opt_bytes_view(self.from_name),
            from_mailbox: opt_bytes_view(self.from_mailbox),
            from_host: opt_bytes_view(self.from_host),
            date: opt_bytes_view(self.date),
            message_id: opt_bytes_view(self.message_id),
            seen: self.seen,
            body: opt_bytes_view(self.body),
        }
    }
}

/// A snapshot of the remote mailbox, messages in ascending UID order.
pub struct RemoteMailbox {
    pub msgs: Vec<RemoteMessage>,
}

/// The views of the mailbox's messages.
pub open spec fn msgs_view(s: Seq<RemoteMessage>) -> Seq<RemoteMessageV> {
    s.map_values(|m: RemoteMessage| m@)
}

/// Remote UIDs are strictly ascending, hence unique.
pub open spec fn wf_mailbox(msgs: Seq<RemoteMessageV>) -> bool {
    forall|i: int, j: int|
        #![trigger msgs[i], msgs[j]]
        0 <= i < j < msgs.len() ==> msgs[i].uid < msgs[j].uid
}

impl RemoteMailbox {
    /// The abstract content of the snapshot.
    pub open spec fn msgs_v(&self) -> Seq<RemoteMessageV> {
        msgs_view(self.msgs@)
    }

    /// Whether the snapshot is well-formed.
    pub open spec fn wf(&self) -> bool {
        wf_mailbox(self.msgs_v())
    }
}

/// The subject a header converts to: the decoded subject header, or a
/// placeholder when the envelope has none.
pub open spec fn spec_subject(m: RemoteMessageV) -> Seq<char> {
    match m.subject {
        Some(b) => utf8_lossy_of(decode_words_from(b, 0)),
        None => "(No Subject)"@,
    }
}

/// The sender display string a header converts to: `name <addr>` when
/// both parts exist, the bare address when only it does, and a
/// placeholder otherwise.
pub open spec fn spec_sender(m: RemoteMessageV) -> Seq<char> {
    let mbx = match m.from_mailbox {
        Some(b) => utf8_lossy_of(b),
        None => Seq::empty(),
    };
    let host = match m.from_host {
        Some(b) => utf8_lossy_of(b),
        None => Seq::empty(),
    };
    let addr = if mbx.len() == 0 || host.len() == 0 {
        Seq::<char>::empty()
    } else {
        mbx + "@"@ + host
    };
    let name = match m.from_name {
        Some(b) => utf8_lossy_of(decode_words_from(b, 0)),
        None => Seq::empty(),
    };
    if name.len() > 0 && addr.len() > 0 {
        name + " <"@ + addr + ">"@
    } else if addr.len() > 0 {
        addr
    } else {
        "Unknown"@
    }
}

/// The date string a header converts to.
pub open spec fn spec_date(m: RemoteMessageV) -> Seq<char> {
    match m.date {
        Some(b) => utf8_lossy_of(b),
        None => Seq::empty(),
    }
}

/// The date epoch a header converts to: zero when the date is absent
/// or unparsable.
pub open spec fn spec_epoch(m: RemoteMessageV) -> i64 {
    match m.date {
        Some(b) => match rfc2822_epoch_of(utf8_lossy_of(b)) {
            Some(t) => t,
            None => 0,
        },
        None => 0,
    }
}

/// The message id a header converts to.
pub open spec fn spec_message_id(m: RemoteMessageV) -> Seq<char> {
    match m.message_id {
        Some(b) => utf8_lossy_of(b),
        None => Seq::empty(),
    }
}

/// The mirrored header a remote message converts to.
pub open spec fn convert_msg(m: RemoteMessageV, is_read: bool) -> GmailEmailV {
    GmailEmailV {
        uid: m.uid,
        message_id: spec_message_id(m),
        subject: spec_subject(m),
        sender: spec_sender(m),
        date: spec_date(m),
        date_epoch: spec_epoch(m),
        is_read: is_read,
    }
}

fn convert_message(m: &RemoteMessage, is_read: bool) -> (r: GmailEmail)
    ensures
        r@ == convert_msg(m@, is_read),
{
    let subject = match &m.subject {
        Some(b) => decode_mime_header(b),
        None => "(No Subject)".to_owned(),
    };
    let mbx = match &m.from_mailbox {
        Some(b) => utf8_lossy(b),
        None => String::new(),
    };
    let host = match &m.from_host {
        Some(b) => utf8_lossy(b),
        None => String::new(),
    };
    let addr = if mbx.as_str().is_empty() || host.as_str().is_empty() {
        String::new()
    } else {
        let mut a = mbx;
        a.append("@");
        a.append(host.as_str());
        a
    };
    let name = match &m.from_name {
        Some(b) => decode_mime_header(b),
        None => String::new(),
    };
    let sender = if !name.as_str().is_empty() && !addr.as_str().is_empty() {
        let mut t = name;
        t.append(" <");
        t.append(addr.as_str());
        t.append(">");
        t
    } else if !addr.as_str().is_empty() {
        addr
    } else {
        "Unknown".to_owned()
    };
    let date = match &m.date {
        Some(b) => utf8_lossy(b),
        None => String::new(),
    };
    let date_epoch = match parse_imap_date_epoch(date.as_str()) {
        Some(t) => t,
        None => 0,
    };
    let message_id = match &m.message_id {
        Some(b) => utf8_lossy(b),
        None => String::new(),
    };
    proof {
        if m@.date is None {
            assert(date@.len() == 0);
        }
    }
    let epoch_final = if m.date.is_none() {
        0
    } else {
        date_epoch
    };
    GmailEmail {
        uid: m.uid,
        message_id,
        subject,
        sender,
        date,
        date_epoch: epoch_final,
        is_read,
    }
}

/// The unseen messages of a snapshot, as a predicate.
pub open spec fn unseen_pred() -> spec_fn(RemoteMessageV) -> bool {
    |m: RemoteMessageV| !m.seen
}

/// What an unread fetch returns: every unseen message, converted, in
/// mailbox order, all marked unread.
pub open spec fn spec_unread(msgs: Seq<RemoteMessageV>) -> Seq<GmailEmailV> {
    msgs.filter(unseen_pred()).map_values(|m: RemoteMessageV| convert_msg(m, false))
}

/// Fetches the headers of every unseen message of the snapshot.
pub fn fetch_unread_emails(mbox: &RemoteMailbox) -> (r: Result<Vec<GmailEmail>, String>)
    ensures
        r is Ok,
        r matches Ok(v) ==> crate::storage::gmail_views(v@) == spec_unread(mbox.msgs_v()),
{
    let ghost msgs = mbox.msgs_v();
    let ghost pred = unseen_pred();
    let mut out: Vec<GmailEmail> = Vec::new();
    let mut i: usize = 0;
    proof {
        assert(msgs.take(0).filter(pred) =~= Seq::<RemoteMessageV>::empty());
        assert(crate::storage::gmail_views(out@) =~= msgs.take(0).filter(pred).map_values(
            |m: RemoteMessageV| convert_msg(m, false),
        ));
    }
    while i < mbox.msgs.len()
        invariant
            i <= msgs.len(),
            msgs.len() == mbox.msgs@.len(),
            msgs == mbox.msgs_v(),
            pred == unseen_pred(),
            crate::storage::gmail_views(out@) == msgs.take(i as int).filter(pred).map_values(
                |m: RemoteMessageV| convert_msg(m, false),
            ),
        decreases msgs.len() - i,
    {
        proof {
            lemma_filter_take_step(msgs, pred, i as int);
            assert(msgs[i as int] == mbox.msgs@[i as int]@);
        }
        let msg = &mbox.msgs[i];
        if !msg.seen {
            out.push(convert_message(msg, false));
            proof {
                assert(crate::storage::gmail_views(out@) =~= msgs.take(i as int).filter(
                    pred,
                ).map_values(|m: RemoteMessageV| convert_msg(m, false)).push(
                    convert_msg(msgs[i as int], false),
                ));
                assert(msgs.take(i as int).filter(pred).push(msgs[i as int]).map_values(
                    |m: RemoteMessageV| convert_msg(m, false),
                ) =~= msgs.take(i as int).filter(pred).map_values(
                    |m: RemoteMessageV| convert_msg(m, false),
                ).push(convert_msg(msgs[i as int], false)));
            }
        }
        i = i + 1;
    }
    proof {
        lemma_take_full(msgs);
    }
    Ok(out)
}

/// Marks the given remote UIDs seen and reports how many were asked
/// for, as the remote store command does.
pub fn mark_emails_as_read(mbox: &mut RemoteMailbox, uids: &Vec<u32>) -> (r: Result<usize, String>)
    ensures
        r is Ok,
        r matches Ok(n) ==> n == uids@.len(),
        final(mbox).msgs_v().len() == old(mbox).msgs_v().len(),
        forall|k: int|
            0 <= k < final(mbox).msgs_v().len() ==> #[trigger] final(mbox).msgs_v()[k] == (
            if uids@.contains(old(mbox).msgs_v()[k].uid) {
                RemoteMessageV { seen: true, ..old(mbox).msgs_v()[k] }
            } else {
                old(mbox).msgs_v()[k]
            }),
        old(mbox).wf() ==> final(mbox).wf(),
{
    let ghost msgs0 = old(mbox).msgs_v();
    let mut i: usize = 0;
    while i < mbox.msgs.len()
        invariant
            i <= msgs0.len(),
            msgs0.len() == mbox.msgs@.len(),
            msgs0 == old(mbox).msgs_v(),
            forall|k: int|
                0 <= k < i ==> #[trigger] mbox.msgs_v()[k] == (if uids@.contains(msgs0[k].uid) {
                    RemoteMessageV { seen: true, ..msgs0[k] }
                } else {
                    msgs0[k]
                }),
            forall|k: int| i <= k < msgs0.len() ==> #[trigger] mbox.msgs_v()[k] == msgs0[k],
        decreases msgs0.len() - i,
    {
        proof {
            assert(mbox.msgs_v()[i as int] == mbox.msgs@[i as int]@);
        }
        let uid = mbox.msgs[i].uid;
        let mut hit = false;
        let mut j: usize = 0;
        while j < uids.len()
            invariant
                j <= uids@.len(),
                hit ==> uids@.contains(uid),
                !hit ==> forall|t: int| 0 <= t < j ==> uids@[t] != uid,
            decreases uids@.len() - j,
        {
            if uids[j] == uid {
                hit = true;
            }
            j = j + 1;
        }
        let ghost prev = mbox.msgs_v();
        if hit {
            let m = mbox.msgs.remove(i);
            let updated = RemoteMessage {
                uid: m.uid,
                subject: m.subject,
                from_name: m.from_name,
                from_mailbox: m.from_mailbox,
                from_host: m.from_host,
                date: m.date,
                message_id: m.message_id,
                seen: true,
                body: m.body,
            };
            mbox.msgs.insert(i, updated);
            proof {
                assert(mbox.msgs_v() =~= prev.update(
                    i as int,
                    RemoteMessageV { seen: true, ..msgs0[i as int] },
                ));
            }
        } else {
            proof {
                assert(!uids@.contains(msgs0[i as int].uid));
            }
        }
        i = i + 1;
    }
    proof {
        assert forall|x: int, y: int|
            0 <= x < y < final(mbox).msgs_v().len() && old(mbox).wf() implies (
        #[trigger] final(mbox).msgs_v()[x]).uid < (#[trigger] final(mbox).msgs_v()[y]).uid by {
            assert(msgs0[x].uid < msgs0[y].uid);
        }
    }
    Ok(uids.len())
}

/// Reports the snapshot's message count in a human-readable sentence.
pub fn test_connection(mbox: &RemoteMailbox) -> (r: Result<String, String>)
    requires
        mbox.msgs@.len() <= u32::MAX,
    ensures
        r is Ok,
        r matches Ok(s) ==> s@ == "Connection successful! Inbox has "@ + dec_str_of(
            mbox.msgs@.len() as nat,
        ) + " messages."@,
{
    let count = mbox.msgs.len() as u32;
    let digits = u32_to_string(count);
    let mut msg = "Connection successful! Inbox has ".to_owned();
    msg.append(digits.as_str());
    msg.append(" messages.");
    Ok(msg)
}

/// Whether some remote message carries this UID.
pub open spec fn has_uid(msgs: Seq<RemoteMessageV>, uid: u32) -> bool {
    exists|i: int| 0 <= i < msgs.len() && (#[trigger] msgs[i]).uid == uid
}

/// The index of the remote message carrying this UID (unique in a
/// well-formed snapshot).
pub open spec fn msg_idx(msgs: Seq<RemoteMessageV>, uid: u32) -> int {
    choose|i: int| 0 <= i < msgs.len() && (#[trigger] msgs[i]).uid == uid
}

/// Fetches and parses the full body of one message.  Succeeds exactly
/// when the message exists, the remote delivers its raw form, and the
/// raw form parses.
pub fn fetch_email_body(mbox: &RemoteMailbox, uid: u32) -> (r: Result<EmailBody, String>)
    requires
        mbox.wf(),
    ensures
        r is Ok <==> (has_uid(mbox.msgs_v(), uid) && mbox.msgs_v()[msg_idx(mbox.msgs_v(), uid)].body
            is Some && parses_of(mbox.msgs_v()[msg_idx(mbox.msgs_v(), uid)].body.unwrap())),
        r matches Ok(b) ==> ({
            let raw = mbox.msgs_v()[msg_idx(mbox.msgs_v(), uid)].body.unwrap();
            b@.html == parsed_html_of(raw) && b@.text == parsed_text_of(raw)
        }),
{
    let ghost msgs = mbox.msgs_v();
    let mut i: usize = 0;
    while i < mbox.msgs.len()
        invariant
            i <= msgs.len(),
            msgs.len() == mbox.msgs@.len(),
            msgs == mbox.msgs_v(),
            mbox.wf(),
            forall|k: int| 0 <= k < i ==> (#[trigger] msgs[k]).uid != uid,
        decreases msgs.len() - i,
    {
        proof {
            assert(msgs[i as int] == mbox.msgs@[i as int]@);
        }
        if mbox.msgs[i].uid == uid {
            proof {
                assert(has_uid(msgs, uid));
                let k = msg_idx(msgs, uid);
                if k < i as int {
                    assert(msgs[k].uid < msgs[i as int].uid);
                } else if k > i as int {
                    assert(msgs[i as int].uid < msgs[k].uid);
                }
                assert(k == i as int);
            }
            match &mbox.msgs[i].body {
                Some(raw) => {
                    return parse_email_body(raw);
                },
                None => {
                    return Err("Could not retrieve email body".to_owned());
                },
            }
        }
        i = i + 1;
    }
    Err("Could not retrieve email body".to_owned())
}


/// The messages newer than the sync cursor.
pub open spec fn since_pred(since_uid: u32) -> spec_fn(RemoteMessageV) -> bool {
    |m: RemoteMessageV| m.uid > since_uid
}

/// The messages one incremental fetch covers, in ascending UID order:
/// everything when the cursor is zero, else strictly newer UIDs.
pub open spec fn spec_selected(msgs: Seq<RemoteMessageV>, since_uid: u32) -> Seq<RemoteMessageV> {
    msgs.filter(since_pred(since_uid))
}

/// Whether every body-prefetch target parses: the targets are the most
/// recent selected messages, from position `cutoff` on, that the
/// remote delivers raw.
pub open spec fn prefetch_ok(sel: Seq<RemoteMessageV>, cutoff: int) -> bool {
    forall|k: int|
        cutoff <= k < sel.len() ==> ((#[trigger] sel[k]).body matches Some(raw) ==> parses_of(
            raw,
        ))
}

/// The prefetched bodies delivered with the selected range
/// `[lo, hi)`: one entry per target message whose raw form exists.
pub open spec fn chunk_bodies(
    sel: Seq<RemoteMessageV>,
    lo: int,
    hi: int,
    cutoff: int,
) -> Seq<GmailEmailBodyV>
    decreases hi - lo,
{
    if lo >= hi {
        Seq::empty()
    } else {
        let rest = chunk_bodies(sel, lo + 1, hi, cutoff);
        if lo >= cutoff && sel[lo].body is Some {
            seq![
                GmailEmailBodyV {
                    uid: sel[lo].uid,
                    body: EmailBodyV {
                        html: parsed_html_of(sel[lo].body.unwrap()),
                        text: parsed_text_of(sel[lo].body.unwrap()),
                    },
                },
            ] + rest
        } else {
            rest
        }
    }
}

/// The converted headers of the selected range `[lo, hi)`, read flags
/// taken from the remote seen flags.
pub open spec fn chunk_emails(sel: Seq<RemoteMessageV>, lo: int, hi: int) -> Seq<GmailEmailV> {
    sel.subrange(lo, hi).map_values(|m: RemoteMessageV| convert_msg(m, m.seen))
}

/// How many bounded chunks a fetch of `n` messages yields with batch
/// size `b`.
pub open spec fn spec_chunk_count(n: int, b: int) -> int {
    if n == 0 {
        0
    } else {
        (n + b - 1) / b
    }
}

fn clone_bytes(v: &Vec<u8>) -> (r: Vec<u8>)
    ensures
        r@ == v@,
{
    let mut out: Vec<u8> = Vec::new();
    let mut i: usize = 0;
    while i < v.len()
        invariant
            i <= v@.len(),
            out@ == v@.take(i as int),
        decreases v@.len() - i,
    {
        out.push(v[i]);
        proof {
            assert(out@ =~= v@.take(i + 1));
        }
        i = i + 1;
    }
    proof {
        assert(v@.take(v@.len() as int) =~= v@);
    }
    out
}

fn clone_opt_bytes(o: &Option<Vec<u8>>) -> (r: Option<Vec<u8>>)
    ensures
        opt_bytes_view(r) == opt_bytes_view(*o),
{
    match o {
        Some(v) => Some(clone_bytes(v)),
        None => None,
    }
}

fn clone_remote_message(m: &RemoteMessage) -> (r: RemoteMessage)
    ensures
        r@ == m@,
{
    RemoteMessage {
        uid: m.uid,
        subject: clone_opt_bytes(&m.subject),
        from_name: clone_opt_bytes(&m.from_name),
        from_mailbox: clone_opt_bytes(&m.from_mailbox),
        from_host: clone_opt_bytes(&m.from_host),
        date: clone_opt_bytes(&m.date),
        message_id: clone_opt_bytes(&m.message_id),
        seen: m.seen,
        body: clone_opt_bytes(&m.body),
    }
}

/// Partitions everything newer than `since_uid` into ordered chunks of
/// at most `batch_size` headers, prefetching raw bodies for only the
/// most recent `body_prefetch_limit` messages overall.  Each chunk
/// reports the cumulative processed count and the total; the returned
/// triple carries the chunks, the total, and the highest UID covered,
/// from which the caller advances its sync cursor.  Fails exactly when
/// a prefetched raw body does not parse.
pub fn fetch_emails_since(
    mbox: &RemoteMailbox,
    since_uid: u32,
    batch_size: usize,
    body_prefetch_limit: usize,
) -> (r: Result<(Vec<GmailFetchChunk>, usize, Option<u32>), String>)
    requires
        mbox.wf(),
        batch_size > 0,
    ensures
        ({
            let sel = spec_selected(mbox.msgs_v(), since_uid);
            let blim = if body_prefetch_limit as int <= sel.len() {
                body_prefetch_limit as int
            } else {
                sel.len() as int
            };
            let cutoff = sel.len() - blim;
            &&& (r is Ok <==> prefetch_ok(sel, cutoff))
            &&& (r matches Ok(t) ==> {
                &&& t.1 == sel.len()
                &&& t.2 == (if sel.len() == 0 {
                    Option::<u32>::None
                } else {
                    Some(sel.last().uid)
                })
                &&& t.0@.len() == spec_chunk_count(sel.len() as int, batch_size as int)
                &&& forall|ci: int|
                    0 <= ci < t.0@.len() ==> {
                        let lo = ci * (batch_size as int);
                        let hi = if lo + batch_size <= sel.len() {
                            lo + batch_size
                        } else {
                            sel.len() as int
                        };
                        &&& crate::storage::gmail_views((#[trigger] t.0@[ci]).emails@)
                            == chunk_emails(sel, lo, hi)
                        &&& crate::storage::body_views(t.0@[ci].bodies@) == chunk_bodies(
                            sel,
                            lo,
                            hi,
                            cutoff,
                        )
                        &&& t.0@[ci].processed == hi
                        &&& t.0@[ci].total == sel.len()
                    }
            })
        }),
{
    let ghost msgs = mbox.msgs_v();
    let ghost pred = since_pred(since_uid);
    let mut sel: Vec<RemoteMessage> = Vec::new();
    let mut i: usize = 0;
    proof {
        assert(msgs.take(0).filter(pred) =~= Seq::<RemoteMessageV>::empty());
        assert(msgs_view(sel@) =~= Seq::<RemoteMessageV>::empty());
    }
    while i < mbox.msgs.len()
        invariant
            i <= msgs.len(),
            msgs.len() == mbox.msgs@.len(),
            msgs == mbox.msgs_v(),
            pred == since_pred(since_uid),
            msgs_view(sel@) == msgs.take(i as int).filter(pred),
        decreases msgs.len() - i,
    {
        proof {
            lemma_filter_take_step(msgs, pred, i as int);
            assert(msgs[i as int] == mbox.msgs@[i as int]@);
        }
        if mbox.msgs[i].uid > since_uid {
            sel.push(clone_remote_message(&mbox.msgs[i]));
            proof {
                assert(msgs_view(sel@) =~= msgs.take(i as int).filter(pred).push(
                    msgs[i as int],
                ));
            }
        }
        i = i + 1;
    }
    proof {
        lemma_take_full(msgs);
    }
    let ghost selv = spec_selected(msgs, since_uid);
    proof {
        assert(msgs_view(sel@) == selv);
    }
    let total = sel.len();
    let blim = if body_prefetch_limit < total {
        body_prefetch_limit
    } else {
        total
    };
    let cutoff = total - blim;
    let max_uid: Option<u32> = if total == 0 {
        None
    } else {
        proof {
            assert(selv[total - 1] == sel@[total - 1]@);
        }
        Some(sel[total - 1].uid)
    };
    let mut chunks: Vec<GmailFetchChunk> = Vec::new();
    let mut start: usize = 0;
    proof {
        assert(0int * (batch_size as int) == 0) by (nonlinear_arith);
    }
    while start < total
        invariant
            start <= total,
            total == sel@.len(),
            msgs_view(sel@) == selv,
            msgs == mbox.msgs_v(),
            selv == spec_selected(msgs, since_uid),
            batch_size > 0,
            cutoff == total - (if body_prefetch_limit < total {
                body_prefetch_limit as int
            } else {
                total as int
            }),
            start as int == (if chunks@.len() * batch_size <= total {
                chunks@.len() * (batch_size as int)
            } else {
                total as int
            }),
            chunks@.len() == 0 || (chunks@.len() - 1) * (batch_size as int) < total,
            forall|k: int|
                cutoff <= k < start ==> ((#[trigger] selv[k]).body matches Some(raw)
                    ==> parses_of(raw)),
            forall|ci: int|
                0 <= ci < chunks@.len() ==> {
                    let lo = ci * (batch_size as int);
                    let hi = if lo + batch_size <= selv.len() {
                        lo + batch_size
                    } else {
                        selv.len() as int
                    };
                    &&& crate::storage::gmail_views((#[trigger] chunks@[ci]).emails@)
                        == chunk_emails(selv, lo, hi)
                    &&& crate::storage::body_views(chunks@[ci].bodies@) == chunk_bodies(
                        selv,
                        lo,
                        hi,
                        cutoff as int,
                    )
                    &&& chunks@[ci].processed == hi
                    &&& chunks@[ci].total == selv.len()
                },
        decreases total - start,
    {
        let end = if total - start > batch_size {
            start + batch_size
        } else {
            total
        };
        let mut emails: Vec<GmailEmail> = Vec::new();
        let mut j: usize = start;
        proof {
            assert(selv.subrange(start as int, start as int) =~= Seq::<RemoteMessageV>::empty());
            assert(crate::storage::gmail_views(emails@) =~= chunk_emails(
                selv,
                start as int,
                start as int,
            ));
        }
        while j < end
            invariant
                start <= j <= end,
                end <= total,
                total == sel@.len(),
                msgs_view(sel@) == selv,
                crate::storage::gmail_views(emails@) == chunk_emails(selv, start as int, j as int),
            decreases end - j,
        {
            proof {
                assert(selv[j as int] == sel@[j as int]@);
            }
            let m = &sel[j];
            emails.push(convert_message(m, m.seen));
            proof {
                assert(selv.subrange(start as int, j + 1) =~= selv.subrange(
                    start as int,
                    j as int,
                ).push(selv[j as int]));
                assert(selv.subrange(start as int, j + 1).map_values(
                    |mm: RemoteMessageV| convert_msg(mm, mm.seen),
                ) =~= selv.subrange(start as int, j as int).map_values(
                    |mm: RemoteMessageV| convert_msg(mm, mm.seen),
                ).push(convert_msg(selv[j as int], selv[j as int].seen)));
                assert(crate::storage::gmail_views(emails@) =~= chunk_emails(
                    selv,
                    start as int,
                    j + 1,
                ));
            }
            j = j + 1;
        }
        let mut bodies: Vec<GmailEmailBody> = Vec::new();
        let mut t: usize = start;
        proof {
            assert(crate::storage::body_views(bodies@) =~= Seq::<GmailEmailBodyV>::empty());
        }
        while t < end
            invariant
                start <= t <= end,
                end <= total,
                total == sel@.len(),
                msgs_view(sel@) == selv,
                selv == spec_selected(mbox.msgs_v(), since_uid),
                cutoff <= total,
                cutoff as int == selv.len() - (if body_prefetch_limit as int <= selv.len() {
                    body_prefetch_limit as int
                } else {
                    selv.len() as int
                }),
                chunk_bodies(selv, start as int, end as int, cutoff as int)
                    == crate::storage::body_views(bodies@) + chunk_bodies(
                    selv,
                    t as int,
                    end as int,
                    cutoff as int,
                ),
                forall|k: int|
                    cutoff <= k < t && start <= k ==> ((#[trigger] selv[k]).body matches Some(raw)
                        ==> parses_of(raw)),
            decreases end - t,
        {
            proof {
                assert(selv[t as int] == sel@[t as int]@);
            }
            if t >= cutoff {
                match &sel[t].body {
                    Some(raw) => {
                        match parse_email_body(raw) {
                            Ok(b) => {
                                bodies.push(GmailEmailBody { uid: sel[t].uid, body: b });
                                proof {
                                    assert(crate::storage::body_views(bodies@)
                                        =~= crate::storage::body_views(bodies@).take(
                                        crate::storage::body_views(bodies@).len() - 1,
                                    ).push(bodies@.last()@));
                                }
                            },
                            Err(e) => {
                                proof {
                                    assert(!prefetch_ok(selv, cutoff as int));
                                }
                                return Err(e);
                            },
                        }
                    },
                    None => {
                    },
                }
            }
            proof {
                assert(chunk_bodies(selv, t as int, end as int, cutoff as int) == (if t
                    >= cutoff && selv[t as int].body is Some {
                    seq![
                        GmailEmailBodyV {
                            uid: selv[t as int].uid,
                            body: EmailBodyV {
                                html: parsed_html_of(selv[t as int].body.unwrap()),
                                text: parsed_text_of(selv[t as int].body.unwrap()),
                            },
                        },
                    ] + chunk_bodies(selv, t + 1, end as int, cutoff as int)
                } else {
                    chunk_bodies(selv, t + 1, end as int, cutoff as int)
                }));
                assert(chunk_bodies(selv, start as int, end as int, cutoff as int)
                    =~= crate::storage::body_views(bodies@) + chunk_bodies(
                    selv,
                    t + 1,
                    end as int,
                    cutoff as int,
                ));
            }
            t = t + 1;
        }
        proof {
            assert(chunk_bodies(selv, end as int, end as int, cutoff as int) =~= Seq::<
                GmailEmailBodyV,
            >::empty());
            assert(crate::storage::body_views(bodies@) =~= chunk_bodies(
                selv,
                start as int,
                end as int,
                cutoff as int,
            ));
        }
        let ghost nchunks = chunks@.len() as int;
        chunks.push(GmailFetchChunk { emails, bodies, processed: end, total });
        proof {
            assert(chunks@[nchunks].processed == end);
            assert((nchunks + 1) * (batch_size as int) == nchunks * (batch_size as int)
                + batch_size) by (nonlinear_arith);
            assert(start as int == nchunks * (batch_size as int));
            assert forall|ci: int| 0 <= ci < chunks@.len() implies {
                let lo = ci * (batch_size as int);
                let hi = if lo + batch_size <= selv.len() {
                    lo + batch_size
                } else {
                    selv.len() as int
                };
                &&& crate::storage::gmail_views((#[trigger] chunks@[ci]).emails@)
                    == chunk_emails(selv, lo, hi)
                &&& crate::storage::body_views(chunks@[ci].bodies@) == chunk_bodies(
                    selv,
                    lo,
                    hi,
                    cutoff as int,
                )
                &&& chunks@[ci].processed == hi
                &&& chunks@[ci].total == selv.len()
            } by {
                if ci < nchunks {
                    assert(chunks@[ci] == chunks@.subrange(0, nchunks)[ci]);
                } else {
                    assert(ci == nchunks);
                    assert(chunks@[ci].emails@ == emails@);
                }
            }
        }
        start = end;
    }
    proof {
        let n = selv.len() as int;
        let b = batch_size as int;
        let cl = chunks@.len() as int;
        if n == 0 {
            assert(cl == 0);
        } else {
            assert(cl * b >= n);
            assert((cl - 1) * b < n);
            assert(cl == (n + b - 1) / b) by (nonlinear_arith)
                requires
                    b > 0,
                    n > 0,
                    cl * b >= n,
                    (cl - 1) * b < n,
            ;
        }
    }
    Ok((chunks, total, max_uid))
}

} // verus!
