//! The local store: durable mirror of messages, filter rules, derived
//! filter matches, and the resumable cursors of the sync and filter
//! engines.
//!
//! The `Storage` trait is the store's contract; `MemStorage` is the
//! verified in-memory implementation.  A relational on-disk backend can
//! sit behind the same interface in the surrounding application.

use vstd::prelude::*;

use crate::folds::{lemma_filter_take_step, lemma_take_full};
use crate::gmail::GmailEmail;
use crate::gmail::GmailEmailV;
use crate::mail::str_eq;
use vstd::string::StringExecFns;
use vstd::string::StrSliceExecFns;
use crate::mail::{FilterField, FilterPattern, FilterPatternV};

verus! {

/// One stored message as handed out by listing operations (bodies are
/// fetched separately).
#[derive(Debug, Clone)]
pub struct StoredEmail {
    pub uid: u32,
    pub message_id: String,
    pub subject: String,
    pub sender: String,
    pub date: String,
    pub date_epoch: i64,
    pub mailbox: String,
    pub account: String,
    pub is_read: bool,
}

/// Ghost record of a listed message.
pub ghost struct StoredEmailV {
    pub uid: u32,
    pub message_id: Seq<char>,
    pub subject: Seq<char>,
    pub sender: Seq<char>,
    pub date: Seq<char>,
    pub date_epoch: i64,
    pub mailbox: Seq<char>,
    pub account: Seq<char>,
    pub is_read: bool,
}

impl View for StoredEmail {
    type V = StoredEmailV;

    open spec fn view(&self) -> StoredEmailV {
        StoredEmailV {
            uid: self.uid,
            message_id: self.message_id@,
            subject: self.subject@,
            sender: self.sender@,
            date: self.date@,
            date_epoch: self.date_epoch,
            mailbox: self.mailbox@,
            account: self.account@,
            is_read: self.is_read,
        }
    }
}

/// One stored row, including the optionally cached bodies and the local
/// identifier that joins it to filter matches.
struct EmailRow {
    id: i64,
    uid: u32,
    message_id: String,
    subject: String,
    sender: String,
    date: String,
    date_epoch: i64,
    mailbox: String,
    account: String,
    is_read: bool,
    body_html: Option<String>,
    body_text: Option<String>,
}

/// Ghost record of a stored row.
pub ghost struct EmailRowV {
    pub id: i64,
    pub uid: u32,
    pub message_id: Seq<char>,
    pub subject: Seq<char>,
    pub sender: Seq<char>,
    pub date: Seq<char>,
    pub date_epoch: i64,
    pub mailbox: Seq<char>,
    pub account: Seq<char>,
    pub is_read: bool,
    pub body_html: Option<Seq<char>>,
    pub body_text: Option<Seq<char>>,
}

impl View for EmailRow {
    type V = EmailRowV;

    closed spec fn view(&self) -> EmailRowV {
        EmailRowV {
            id: self.id,
            uid: self.uid,
            message_id: self.message_id@,
            subject: self.subject@,
            sender: self.sender@,
            date: self.date@,
            date_epoch: self.date_epoch,
            mailbox: self.mailbox@,
            account: self.account@,
            is_read: self.is_read,
            body_html: crate::gmail::opt_view(self.body_html),
            body_text: crate::gmail::opt_view(self.body_text),
        }
    }
}

/// The abstract state of a store: message rows in ascending local-id
/// order, rules in creation order, the derived match pairs
/// `(local message id, filter id)`, and the two cursor tables.
pub ghost struct StoreModel {
    pub emails: Seq<EmailRowV>,
    pub filters: Seq<FilterPatternV>,
    pub matched: Seq<(i64, i64)>,
    pub sync_uids: Seq<(Seq<char>, u32)>,
    pub filter_cursors: Seq<(Seq<char>, i64)>,
    pub next_email_id: i64,
    pub next_filter_id: i64,
}

/// Well-formedness of a store model: local ids strictly ascending and
/// below the allocator, `(account, uid)` unique, rule ids unique and
/// below their allocator, match pairs unique, cursor keys unique.
pub open spec fn wf_model(m: StoreModel) -> bool {
    &&& forall|i: int, j: int|
        #![trigger m.emails[i], m.emails[j]]
        0 <= i < j < m.emails.len() ==> m.emails[i].id < m.emails[j].id
    &&& forall|i: int| 0 <= i < m.emails.len() ==> 0 < (#[trigger] m.emails[i]).id < m.next_email_id
    &&& forall|i: int, j: int|
        #![trigger m.emails[i], m.emails[j]]
        0 <= i < j < m.emails.len() ==> !(m.emails[i].account == m.emails[j].account
            && m.emails[i].uid == m.emails[j].uid)
    &&& forall|i: int, j: int|
        #![trigger m.filters[i], m.filters[j]]
        0 <= i < j < m.filters.len() ==> m.filters[i].id < m.filters[j].id
    &&& forall|i: int|
        0 <= i < m.filters.len() ==> 0 < (#[trigger] m.filters[i]).id < m.next_filter_id
    &&& forall|i: int, j: int|
        #![trigger m.matched[i], m.matched[j]]
        0 <= i < j < m.matched.len() ==> m.matched[i] != m.matched[j]
    &&& forall|i: int, j: int|
        #![trigger m.sync_uids[i], m.sync_uids[j]]
        0 <= i < j < m.sync_uids.len() ==> m.sync_uids[i].0 != m.sync_uids[j].0
    &&& forall|i: int, j: int|
        #![trigger m.filter_cursors[i], m.filter_cursors[j]]
        0 <= i < j < m.filter_cursors.len() ==> m.filter_cursors[i].0 != m.filter_cursors[j].0
    &&& 0 < m.next_email_id
    &&& 0 < m.next_filter_id
}

/// First-match association lookup with a default, the shape of both
/// cursor tables.
pub open spec fn assoc_of<V>(s: Seq<(Seq<char>, V)>, key: Seq<char>, dflt: V) -> V
    decreases s.len(),
{
    if s.len() == 0 {
        dflt
    } else if s[0].0 == key {
        s[0].1
    } else {
        assoc_of(s.drop_first(), key, dflt)
    }
}

/// The sync cursor of an account: highest remote UID known fetched,
/// zero when the account was never synced.
pub open spec fn sync_uid_of(m: StoreModel, account: Seq<char>) -> u32 {
    assoc_of(m.sync_uids, account, 0u32)
}

/// The filter-backfill cursor of an account: highest local id already
/// scanned, zero when backfill never ran.
pub open spec fn filter_cursor_of(m: StoreModel, account: Seq<char>) -> i64 {
    assoc_of(m.filter_cursors, account, 0i64)
}

proof fn lemma_assoc_found<V>(s: Seq<(Seq<char>, V)>, key: Seq<char>, dflt: V, i: int)
    requires
        0 <= i < s.len(),
        s[i].0 == key,
        forall|j: int| 0 <= j < i ==> (#[trigger] s[j]).0 != key,
    ensures
        assoc_of(s, key, dflt) == s[i].1,
    decreases i,
{
    if i == 0 {
    } else {
        assert(s[0].0 != key);
        assert(s.drop_first()[i - 1] == s[i]);
        assert(forall|j: int| 0 <= j < i - 1 ==> (#[trigger] s.drop_first()[j]).0 != key);
        lemma_assoc_found(s.drop_first(), key, dflt, i - 1);
    }
}

proof fn lemma_assoc_missing<V>(s: Seq<(Seq<char>, V)>, key: Seq<char>, dflt: V)
    requires
        forall|j: int| 0 <= j < s.len() ==> (#[trigger] s[j]).0 != key,
    ensures
        assoc_of(s, key, dflt) == dflt,
    decreases s.len(),
{
    if s.len() == 0 {
    } else {
        assert(forall|j: int|
            0 <= j < s.drop_first().len() ==> (#[trigger] s.drop_first()[j]).0 != key);
        lemma_assoc_missing(s.drop_first(), key, dflt);
    }
}

proof fn lemma_assoc_update_other<V>(s: Seq<(Seq<char>, V)>, i: int, v: V, a: Seq<char>, dflt: V)
    requires
        0 <= i < s.len(),
        s[i].0 != a,
    ensures
        assoc_of(s.update(i, (s[i].0, v)), a, dflt) == assoc_of(s, a, dflt),
    decreases s.len(),
{
    let t = s.update(i, (s[i].0, v));
    if i == 0 {
        assert(t.drop_first() =~= s.drop_first());
        assert(t[0].0 == s[0].0);
    } else {
        assert(t[0] == s[0]);
        if s[0].0 == a {
        } else {
            assert(t.drop_first() =~= s.drop_first().update(i - 1, (s.drop_first()[i - 1].0, v)));
            lemma_assoc_update_other(s.drop_first(), i - 1, v, a, dflt);
        }
    }
}

proof fn lemma_assoc_push_other<V>(s: Seq<(Seq<char>, V)>, p: (Seq<char>, V), a: Seq<char>, dflt: V)
    requires
        p.0 != a,
    ensures
        assoc_of(s.push(p), a, dflt) == assoc_of(s, a, dflt),
    decreases s.len(),
{
    if s.len() == 0 {
        assert(s.push(p)[0] == p);
        assert(s.push(p).drop_first() =~= Seq::<(Seq<char>, V)>::empty());
        assert(assoc_of(s.push(p), a, dflt) == assoc_of(s.push(p).drop_first(), a, dflt));
    } else {
        assert(s.push(p)[0] == s[0]);
        if s[0].0 == a {
        } else {
            assert(s.push(p).drop_first() =~= s.drop_first().push(p));
            lemma_assoc_push_other(s.drop_first(), p, a, dflt);
        }
    }
}

proof fn lemma_sync_keys_distinct(m: StoreModel, x: int, y: int)
    requires
        wf_model(m),
        0 <= x < y < m.sync_uids.len(),
    ensures
        m.sync_uids[x].0 != m.sync_uids[y].0,
{
}

proof fn lemma_email_ids_sorted(m: StoreModel, x: int, y: int)
    requires
        wf_model(m),
        0 <= x < y < m.emails.len(),
    ensures
        m.emails[x].id < m.emails[y].id,
        !(m.emails[x].account == m.emails[y].account && m.emails[x].uid == m.emails[y].uid),
{
}

proof fn lemma_email_id_bounds(m: StoreModel, x: int)
    requires
        wf_model(m),
        0 <= x < m.emails.len(),
    ensures
        0 < m.emails[x].id < m.next_email_id,
{
}

/// Local ids of a well-formed store are positive and below the
/// allocator.
pub proof fn lemma_email_id_bounds_pub(m: StoreModel, x: int)
    requires
        wf_model(m),
        0 <= x < m.emails.len(),
    ensures
        0 < m.emails[x].id < m.next_email_id,
{
}

proof fn lemma_filter_ids_distinct(m: StoreModel, x: int, y: int)
    requires
        wf_model(m),
        0 <= x < y < m.filters.len(),
    ensures
        m.filters[x].id < m.filters[y].id,
{
}

proof fn lemma_filter_id_bounds(m: StoreModel, x: int)
    requires
        wf_model(m),
        0 <= x < m.filters.len(),
    ensures
        0 < m.filters[x].id < m.next_filter_id,
{
}

proof fn lemma_matched_distinct(m: StoreModel, x: int, y: int)
    requires
        wf_model(m),
        0 <= x < y < m.matched.len(),
    ensures
        m.matched[x] != m.matched[y],
{
}

proof fn lemma_cursor_keys_distinct(m: StoreModel, x: int, y: int)
    requires
        wf_model(m),
        0 <= x < y < m.filter_cursors.len(),
    ensures
        m.filter_cursors[x].0 != m.filter_cursors[y].0,
{
}

/// An edit that touches only non-identity fields of rows keeps the
/// store well-formed.
proof fn lemma_wf_after_row_edit(om: StoreModel, fm: StoreModel)
    requires
        wf_model(om),
        fm.emails.len() == om.emails.len(),
        forall|k: int|
            0 <= k < fm.emails.len() ==> ((#[trigger] fm.emails[k]).id == om.emails[k].id
                && fm.emails[k].account == om.emails[k].account && fm.emails[k].uid
                == om.emails[k].uid),
        fm.filters == om.filters,
        fm.matched == om.matched,
        fm.sync_uids == om.sync_uids,
        fm.filter_cursors == om.filter_cursors,
        fm.next_email_id == om.next_email_id,
        fm.next_filter_id == om.next_filter_id,
    ensures
        wf_model(fm),
{
    assert forall|x: int, y: int|
        #![trigger fm.emails[x], fm.emails[y]]
        0 <= x < y < fm.emails.len() implies fm.emails[x].id < fm.emails[y].id && !(fm.emails[x].account
        == fm.emails[y].account && fm.emails[x].uid == fm.emails[y].uid) by {
        lemma_email_ids_sorted(om, x, y);
    }
    assert forall|x: int| 0 <= x < fm.emails.len() implies 0 < (#[trigger] fm.emails[x]).id
        < fm.next_email_id by {
        lemma_email_id_bounds(om, x);
    }
    assert forall|x: int, y: int|
        #![trigger fm.filters[x], fm.filters[y]]
        0 <= x < y < fm.filters.len() implies fm.filters[x].id < fm.filters[y].id by {
        lemma_filter_ids_distinct(om, x, y);
    }
    assert forall|x: int| 0 <= x < fm.filters.len() implies 0 < (#[trigger] fm.filters[x]).id
        < fm.next_filter_id by {
        lemma_filter_id_bounds(om, x);
    }
    assert forall|x: int, y: int|
        #![trigger fm.matched[x], fm.matched[y]]
        0 <= x < y < fm.matched.len() implies fm.matched[x] != fm.matched[y] by {
        lemma_matched_distinct(om, x, y);
    }
    assert forall|x: int, y: int|
        #![trigger fm.sync_uids[x], fm.sync_uids[y]]
        0 <= x < y < fm.sync_uids.len() implies fm.sync_uids[x].0 != fm.sync_uids[y].0 by {
        lemma_sync_keys_distinct(om, x, y);
    }
    assert forall|x: int, y: int|
        #![trigger fm.filter_cursors[x], fm.filter_cursors[y]]
        0 <= x < y < fm.filter_cursors.len() implies fm.filter_cursors[x].0
        != fm.filter_cursors[y].0 by {
        lemma_cursor_keys_distinct(om, x, y);
    }
}

/// In a well-formed store the row of an `(account, uid)` identity is
/// unique, so the chosen index is the found one.
proof fn lemma_email_idx_unique(m: StoreModel, account: Seq<char>, uid: u32, idx: int)
    requires
        wf_model(m),
        0 <= idx < m.emails.len(),
        m.emails[idx].account == account,
        m.emails[idx].uid == uid,
    ensures
        has_email(m.emails, account, uid),
        email_idx(m.emails, account, uid) == idx,
{
    assert(has_email(m.emails, account, uid));
    let k = email_idx(m.emails, account, uid);
    assert(0 <= k < m.emails.len() && m.emails[k].account == account && m.emails[k].uid == uid);
    if k < idx {
        lemma_email_ids_sorted(m, k, idx);
    } else if idx < k {
        lemma_email_ids_sorted(m, idx, k);
    }
}

/// The rows a mark operation touches: right account, UID among the
/// given ones.
pub open spec fn mark_pred(account: Seq<char>, uids: Seq<u32>) -> spec_fn(EmailRowV) -> bool {
    |r: EmailRowV| r.account == account && uids.contains(r.uid)
}

/// What a mark operation does to one row.
pub open spec fn mark_row_fn(account: Seq<char>, uids: Seq<u32>, read: bool) -> spec_fn(
    EmailRowV,
) -> EmailRowV {
    |r: EmailRowV|
        if r.account == account && uids.contains(r.uid) {
            EmailRowV { is_read: read, ..r }
        } else {
            r
        }
}

/// What recomputing a missing date epoch does to one row: a row with
/// a zero epoch whose date string parses gets the parsed epoch;
/// everything else is untouched.
pub open spec fn backfill_row_fn() -> spec_fn(EmailRowV) -> EmailRowV {
    |r: EmailRowV|
        if r.date_epoch == 0 {
            match crate::gmail::rfc2822_epoch_of(r.date) {
                Some(t) => EmailRowV { date_epoch: t, ..r },
                None => r,
            }
        } else {
            r
        }
}

/// The cached body of the `(account, uid)` row: nothing when the row
/// is absent or neither part is cached.
pub open spec fn body_of(rows: Seq<EmailRowV>, account: Seq<char>, uid: u32) -> Option<
    crate::gmail::EmailBodyV,
> {
    if !has_email(rows, account, uid) {
        None
    } else {
        let r = rows[email_idx(rows, account, uid)];
        if r.body_html is None && r.body_text is None {
            None
        } else {
            Some(crate::gmail::EmailBodyV { html: r.body_html, text: r.body_text })
        }
    }
}

/// The view of an optional body.
pub open spec fn body_opt_view(o: Option<crate::gmail::EmailBody>) -> Option<
    crate::gmail::EmailBodyV,
> {
    match o {
        Some(b) => Some(b@),
        None => None,
    }
}

/// The views of a batch of delivered bodies.
pub open spec fn body_views(s: Seq<crate::gmail::GmailEmailBody>) -> Seq<
    crate::gmail::GmailEmailBodyV,
> {
    s.map_values(|b: crate::gmail::GmailEmailBody| b@)
}

/// Storing one delivered body overwrites both cached parts of its row;
/// an unknown UID changes nothing.
pub open spec fn set_body_one(
    rows: Seq<EmailRowV>,
    account: Seq<char>,
    b: crate::gmail::GmailEmailBodyV,
) -> Seq<EmailRowV> {
    if has_email(rows, account, b.uid) {
        let i = email_idx(rows, account, b.uid);
        rows.update(i, EmailRowV { body_html: b.body.html, body_text: b.body.text, ..rows[i] })
    } else {
        rows
    }
}

/// The body-store step as a fold function.
pub open spec fn set_body_step(account: Seq<char>) -> spec_fn(
    Seq<EmailRowV>,
    crate::gmail::GmailEmailBodyV,
) -> Seq<EmailRowV> {
    |rows: Seq<EmailRowV>, b: crate::gmail::GmailEmailBodyV| set_body_one(rows, account, b)
}

/// Storing a batch of bodies, in delivery order.
pub open spec fn set_body_seq(
    rows: Seq<EmailRowV>,
    account: Seq<char>,
    bs: Seq<crate::gmail::GmailEmailBodyV>,
) -> Seq<EmailRowV> {
    bs.fold_left(rows, set_body_step(account))
}

/// Listing order: newest date epoch first, rows with unknown (zero or
/// negative) epochs after all dated ones; ties broken by ascending
/// local id, which makes the order total.
pub open spec fn row_le(a: EmailRowV, b: EmailRowV) -> bool {
    a.date_epoch > b.date_epoch || (a.date_epoch == b.date_epoch && a.id <= b.id)
}

/// Inserting one row into a listing-ordered sequence.
pub open spec fn insert_desc(s: Seq<EmailRowV>, x: EmailRowV) -> Seq<EmailRowV>
    decreases s.len(),
{
    if s.len() == 0 {
        seq![x]
    } else if row_le(x, s[0]) {
        seq![x] + s
    } else {
        seq![s[0]] + insert_desc(s.drop_first(), x)
    }
}

/// Sorting into listing order by repeated insertion.
pub open spec fn sort_desc(s: Seq<EmailRowV>) -> Seq<EmailRowV>
    decreases s.len(),
{
    if s.len() == 0 {
        Seq::empty()
    } else {
        insert_desc(sort_desc(s.drop_last()), s.last())
    }
}

/// The window `[offset, offset + limit)` of a sequence, clipped to its
/// length.
pub open spec fn page(s: Seq<EmailRowV>, limit: u32, offset: u32) -> Seq<EmailRowV> {
    let start = if offset as int <= s.len() {
        offset as int
    } else {
        s.len() as int
    };
    let end = if offset + limit <= s.len() {
        offset + limit
    } else {
        s.len() as int
    };
    s.subrange(start, end)
}

/// A listed message is its stored row without the cached bodies.
pub open spec fn stored_of(r: EmailRowV) -> StoredEmailV {
    StoredEmailV {
        uid: r.uid,
        message_id: r.message_id,
        subject: r.subject,
        sender: r.sender,
        date: r.date,
        date_epoch: r.date_epoch,
        mailbox: r.mailbox,
        account: r.account,
        is_read: r.is_read,
    }
}

/// What a paginated listing returns: the clipped window of the sorted
/// in-scope rows, stripped to their listed form.
pub open spec fn listed(
    m: StoreModel,
    account: Seq<char>,
    unread_only: bool,
    limit: u32,
    offset: u32,
) -> Seq<StoredEmailV> {
    page(sort_desc(scope_rows(m.emails, account, unread_only)), limit, offset).map_values(
        |r: EmailRowV| stored_of(r),
    )
}

/// The views of a listing result.
pub open spec fn stored_views(s: Seq<StoredEmail>) -> Seq<StoredEmailV> {
    s.map_values(|e: StoredEmail| e@)
}

/// The views of a row vector.
pub open spec fn row_views(s: Seq<EmailRow>) -> Seq<EmailRowV> {
    s.map_values(|r: EmailRow| r@)
}

proof fn lemma_insert_desc_at(s: Seq<EmailRowV>, x: EmailRowV, j: int)
    requires
        0 <= j <= s.len(),
        forall|k: int| 0 <= k < j ==> !row_le(x, #[trigger] s[k]),
        j == s.len() || row_le(x, s[j]),
    ensures
        insert_desc(s, x) == s.take(j) + seq![x] + s.skip(j),
    decreases j,
{
    if j == 0 {
        if s.len() == 0 {
            assert(insert_desc(s, x) =~= s.take(0) + seq![x] + s.skip(0));
        } else {
            assert(insert_desc(s, x) =~= s.take(0) + seq![x] + s.skip(0));
        }
    } else {
        assert(!row_le(x, s[0]));
        let t = s.drop_first();
        assert(forall|k: int| 0 <= k < j - 1 ==> !row_le(x, #[trigger] t[k]));
        assert(j - 1 == t.len() || row_le(x, t[j - 1]));
        lemma_insert_desc_at(t, x, j - 1);
        assert(insert_desc(s, x) == seq![s[0]] + (t.take(j - 1) + seq![x] + t.skip(j - 1)));
        assert(seq![s[0]] + (t.take(j - 1) + seq![x] + t.skip(j - 1)) =~= s.take(j) + seq![x]
            + s.skip(j));
    }
}

/// Listing order holds between every earlier and later element.
pub open spec fn sorted_desc(s: Seq<EmailRowV>) -> bool {
    forall|i: int, j: int| 0 <= i < j < s.len() ==> row_le(#[trigger] s[i], #[trigger] s[j])
}

proof fn lemma_insert_desc_sorted(s: Seq<EmailRowV>, x: EmailRowV)
    requires
        sorted_desc(s),
    ensures
        sorted_desc(insert_desc(s, x)),
        insert_desc(s, x).to_multiset() == s.to_multiset().insert(x),
        insert_desc(s, x).len() == s.len() + 1,
    decreases s.len(),
{
    broadcast use vstd::seq_lib::group_to_multiset_ensures;

    if s.len() == 0 {
        assert(seq![x].to_multiset() =~= s.to_multiset().insert(x)) by {
            assert(seq![x] =~= Seq::<EmailRowV>::empty().push(x));
            assert(s =~= Seq::<EmailRowV>::empty());
        }
    } else if row_le(x, s[0]) {
        let r = seq![x] + s;
        assert forall|i: int, j: int| 0 <= i < j < r.len() implies row_le(
            #[trigger] r[i],
            #[trigger] r[j],
        ) by {
            if i == 0 {
                assert(row_le(x, s[0]));
                if j > 1 {
                    assert(row_le(s[0], s[j - 1]));
                }
            } else {
                assert(row_le(s[i - 1], s[j - 1]));
            }
        }
        assert(r =~= s.insert(0, x));
        assert(r.to_multiset() == s.to_multiset().insert(x));
    } else {
        let t = s.drop_first();
        assert(forall|i: int, j: int|
            0 <= i < j < t.len() ==> row_le(#[trigger] t[i], #[trigger] t[j]));
        lemma_insert_desc_sorted(t, x);
        let u = insert_desc(t, x);
        let r = seq![s[0]] + u;
        assert(insert_desc(s, x) == r);
        assert(row_le(s[0], x));
        assert forall|i: int, j: int| 0 <= i < j < r.len() implies row_le(
            #[trigger] r[i],
            #[trigger] r[j],
        ) by {
            if i == 0 {
                assert(u.to_multiset().contains(u[j - 1]));
                assert(u.to_multiset() == t.to_multiset().insert(x));
                if u[j - 1] == x {
                    assert(row_le(s[0], x));
                } else {
                    assert(t.to_multiset().contains(u[j - 1]));
                    assert(t.contains(u[j - 1]));
                    let w = choose|w: int| 0 <= w < t.len() && t[w] == u[j - 1];
                    assert(row_le(s[0], s[w + 1]));
                }
            } else {
                assert(row_le(u[i - 1], u[j - 1]));
            }
        }
        assert(r =~= u.insert(0, s[0]));
        assert(r.to_multiset() == u.to_multiset().insert(s[0]));
        assert(s =~= t.insert(0, s[0]));
        assert(s.to_multiset() == t.to_multiset().insert(s[0]));
        assert(r.to_multiset() =~= s.to_multiset().insert(x));
    }
}

/// Sorting yields a listing-ordered permutation.
pub proof fn lemma_sort_desc_sorted(s: Seq<EmailRowV>)
    ensures
        sorted_desc(sort_desc(s)),
        sort_desc(s).to_multiset() == s.to_multiset(),
        sort_desc(s).len() == s.len(),
    decreases s.len(),
{
    broadcast use vstd::seq_lib::group_to_multiset_ensures;

    if s.len() == 0 {
    } else {
        lemma_sort_desc_sorted(s.drop_last());
        lemma_insert_desc_sorted(sort_desc(s.drop_last()), s.last());
        assert(s =~= s.drop_last().push(s.last()));
        assert(s.to_multiset() == s.drop_last().to_multiset().insert(s.last()));
    }
}

/// Whether a row is in listing scope: right account, and unread when
/// only unread rows are asked for.
pub open spec fn in_scope(r: EmailRowV, account: Seq<char>, unread_only: bool) -> bool {
    r.account == account && (!unread_only || !r.is_read)
}

/// The scope predicate as a value.
pub open spec fn scope_pred(account: Seq<char>, unread_only: bool) -> spec_fn(EmailRowV) -> bool {
    |r: EmailRowV| in_scope(r, account, unread_only)
}

/// The rows of an account, optionally restricted to unread ones, in
/// stored (ascending local id) order.
pub open spec fn scope_rows(rows: Seq<EmailRowV>, account: Seq<char>, unread_only: bool) -> Seq<
    EmailRowV,
> {
    rows.filter(scope_pred(account, unread_only))
}

/// Whether the row with local id `id` currently matches any of the
/// given filter ids.
pub open spec fn matches_any_fid(matched: Seq<(i64, i64)>, id: i64, fids: Seq<i64>) -> bool {
    exists|j: int| 0 <= j < fids.len() && matched.contains((id, #[trigger] fids[j]))
}

/// The scope of a filtered listing: in listing scope and matching at
/// least one of the given filters.
pub open spec fn fscope_pred(
    account: Seq<char>,
    unread_only: bool,
    fids: Seq<i64>,
    matched: Seq<(i64, i64)>,
) -> spec_fn(EmailRowV) -> bool {
    |r: EmailRowV| in_scope(r, account, unread_only) && matches_any_fid(matched, r.id, fids)
}

/// The rows of a filtered listing, in stored order.
pub open spec fn fscope_rows(
    m: StoreModel,
    account: Seq<char>,
    unread_only: bool,
    fids: Seq<i64>,
) -> Seq<EmailRowV> {
    m.emails.filter(fscope_pred(account, unread_only, fids, m.matched))
}

/// What a paginated filtered listing returns.
pub open spec fn flisted(
    m: StoreModel,
    account: Seq<char>,
    unread_only: bool,
    fids: Seq<i64>,
    limit: u32,
    offset: u32,
) -> Seq<StoredEmailV> {
    page(sort_desc(fscope_rows(m, account, unread_only, fids)), limit, offset).map_values(
        |r: EmailRowV| stored_of(r),
    )
}

/// The rows counted for one filter: in scope and currently matching
/// the filter with id `fid`.
pub open spec fn count_pred(
    m: StoreModel,
    account: Seq<char>,
    unread_only: bool,
    fid: i64,
) -> spec_fn(EmailRowV) -> bool {
    |r: EmailRowV| in_scope(r, account, unread_only) && m.matched.contains((r.id, fid))
}

/// How many in-scope messages of the account currently match the
/// filter with id `fid`.
pub open spec fn match_count_of(
    m: StoreModel,
    account: Seq<char>,
    unread_only: bool,
    fid: i64,
) -> int {
    m.emails.filter(count_pred(m, account, unread_only, fid)).len() as int
}

/// Whether some row carries this `(account, uid)` identity.
pub open spec fn has_email(rows: Seq<EmailRowV>, account: Seq<char>, uid: u32) -> bool {
    exists|i: int|
        0 <= i < rows.len() && (#[trigger] rows[i]).account == account && rows[i].uid == uid
}

/// The index of the row carrying this identity (unique in a
/// well-formed store).
pub open spec fn email_idx(rows: Seq<EmailRowV>, account: Seq<char>, uid: u32) -> int {
    choose|i: int|
        0 <= i < rows.len() && (#[trigger] rows[i]).account == account && rows[i].uid == uid
}

/// A redelivered header overwrites the mutable fields of its row and
/// leaves identity and cached bodies alone.
pub open spec fn upsert_row_v(
    r: EmailRowV,
    e: GmailEmailV,
    mailbox: Seq<char>,
    account: Seq<char>,
) -> EmailRowV {
    EmailRowV {
        id: r.id,
        uid: r.uid,
        message_id: e.message_id,
        subject: e.subject,
        sender: e.sender,
        date: e.date,
        date_epoch: e.date_epoch,
        mailbox: mailbox,
        account: account,
        is_read: e.is_read,
        body_html: r.body_html,
        body_text: r.body_text,
    }
}

/// A first-seen header becomes a fresh row with no cached bodies.
pub open spec fn new_row_v(id: i64, e: GmailEmailV, mailbox: Seq<char>, account: Seq<char>) -> EmailRowV {
    EmailRowV {
        id: id,
        uid: e.uid,
        message_id: e.message_id,
        subject: e.subject,
        sender: e.sender,
        date: e.date,
        date_epoch: e.date_epoch,
        mailbox: mailbox,
        account: account,
        is_read: e.is_read,
        body_html: None,
        body_text: None,
    }
}

/// One step of the idempotent upsert, keyed by `(account, uid)`.
pub open spec fn upsert_one(
    rows: Seq<EmailRowV>,
    next_id: i64,
    account: Seq<char>,
    mailbox: Seq<char>,
    e: GmailEmailV,
) -> (Seq<EmailRowV>, i64) {
    if has_email(rows, account, e.uid) {
        let i = email_idx(rows, account, e.uid);
        (rows.update(i, upsert_row_v(rows[i], e, mailbox, account)), next_id)
    } else {
        (rows.push(new_row_v(next_id, e, mailbox, account)), (next_id + 1) as i64)
    }
}

/// The upsert step as a fold function.
pub open spec fn upsert_step(account: Seq<char>, mailbox: Seq<char>) -> spec_fn(
    (Seq<EmailRowV>, i64),
    GmailEmailV,
) -> (Seq<EmailRowV>, i64) {
    |acc: (Seq<EmailRowV>, i64), e: GmailEmailV| upsert_one(acc.0, acc.1, account, mailbox, e)
}

/// Upserting a batch, in delivery order.
pub open spec fn upsert_seq(
    rows: Seq<EmailRowV>,
    next_id: i64,
    account: Seq<char>,
    mailbox: Seq<char>,
    es: Seq<GmailEmailV>,
) -> (Seq<EmailRowV>, i64) {
    es.fold_left((rows, next_id), upsert_step(account, mailbox))
}

/// The views of a batch of headers.
pub open spec fn gmail_views(s: Seq<GmailEmail>) -> Seq<GmailEmailV> {
    s.map_values(|e: GmailEmail| e@)
}

/// Upserting a batch allocates at most one fresh local id per
/// delivered header.
pub proof fn lemma_upsert_seq_next_bound(
    rows: Seq<EmailRowV>,
    next_id: i64,
    account: Seq<char>,
    mailbox: Seq<char>,
    es: Seq<GmailEmailV>,
)
    requires
        next_id + es.len() <= i64::MAX,
    ensures
        next_id <= upsert_seq(rows, next_id, account, mailbox, es).1 <= next_id + es.len(),
    decreases es.len(),
{
    if es.len() == 0 {
    } else {
        lemma_upsert_seq_next_bound(rows, next_id, account, mailbox, es.drop_last());
        let prev = upsert_seq(rows, next_id, account, mailbox, es.drop_last());
        assert(upsert_seq(rows, next_id, account, mailbox, es) == upsert_step(account, mailbox)(
            prev,
            es.last(),
        ));
    }
}

/// The store's contract.  All operations are total on well-formed
/// stores; multi-row mutations are atomic, and the listing, counting
/// and cursor operations are pure reads.
pub trait Storage: Sized {
    /// The abstract state the contracts speak about.
    spec fn model(&self) -> StoreModel;

    /// The implementation's internal invariant.
    spec fn inv(&self) -> bool;

    /// The invariant bounds the abstract state: every implementation
    /// must show that an invariant-holding store exposes a well-formed
    /// model, so clients of the trait can rely on row and match-pair
    /// uniqueness without seeing the invariant's definition.
    proof fn lemma_inv_wf(&self)
        requires
            self.inv(),
        ensures
            wf_model(self.model()),
    ;

    /// Highest remote UID known fetched for the account; zero before
    /// the first sync.
    fn get_last_uid(&self, account: &str) -> (r: Result<u32, String>)
        requires
            self.inv(),
        ensures
            r is Ok,
            r matches Ok(u) ==> u == sync_uid_of(self.model(), account@),
    ;

    /// Records the sync cursor of the account, leaving every other
    /// account's cursor and all message, rule and match state alone.
    fn set_last_uid(&mut self, account: &str, last_uid: u32) -> (r: Result<(), String>)
        requires
            old(self).inv(),
        ensures
            r is Ok,
            final(self).inv(),
            sync_uid_of(final(self).model(), account@) == last_uid,
            forall|a: Seq<char>|
                a != account@ ==> #[trigger] sync_uid_of(final(self).model(), a) == sync_uid_of(
                    old(self).model(),
                    a,
                ),
            final(self).model().emails == old(self).model().emails,
            final(self).model().filters == old(self).model().filters,
            final(self).model().matched == old(self).model().matched,
            final(self).model().filter_cursors == old(self).model().filter_cursors,
            final(self).model().next_email_id == old(self).model().next_email_id,
            final(self).model().next_filter_id == old(self).model().next_filter_id,
    ;

    /// The highest remote UID actually stored for the account, if any.
    fn get_max_uid(&self, account: &str) -> (r: Result<Option<u32>, String>)
        requires
            self.inv(),
        ensures
            r is Ok,
            r matches Ok(o) ==> (o is None <==> forall|i: int|
                0 <= i < self.model().emails.len() ==> (#[trigger] self.model().emails[i]).account
                    != account@),
            r matches Ok(o) ==> (o matches Some(mx) ==> has_uid_max(
                self.model().emails,
                account@,
                mx,
            )),
    ;

    /// How many stored messages the account has, optionally counting
    /// only unread ones.
    fn count_emails(&self, account: &str, unread_only: bool) -> (r: Result<u64, String>)
        requires
            self.inv(),
        ensures
            r is Ok,
            r matches Ok(c) ==> c == scope_rows(self.model().emails, account@, unread_only).len(),
    ;

    /// Paginated listing, newest date epoch first (unknown epochs
    /// last), of the account's messages, optionally unread only.
    fn list_emails(&self, account: &str, unread_only: bool, limit: u32, offset: u32) -> (r: Result<
        Vec<StoredEmail>,
        String,
    >)
        requires
            self.inv(),
        ensures
            r is Ok,
            r matches Ok(v) ==> stored_views(v@) == listed(
                self.model(),
                account@,
                unread_only,
                limit,
                offset,
            ),
    ;

    /// Paginated listing restricted to messages matching at least one
    /// of the given filter ids (logical OR); with no ids, nothing.
    fn list_filtered_emails(
        &self,
        account: &str,
        filter_ids: &Vec<i64>,
        unread_only: bool,
        limit: u32,
        offset: u32,
    ) -> (r: Result<Vec<StoredEmail>, String>)
        requires
            self.inv(),
        ensures
            r is Ok,
            r matches Ok(v) ==> stored_views(v@) == flisted(
                self.model(),
                account@,
                unread_only,
                filter_ids@,
                limit,
                offset,
            ),
    ;

    /// How many messages a filtered listing would cover in all.
    fn count_filtered_emails(&self, account: &str, filter_ids: &Vec<i64>, unread_only: bool) -> (r:
        Result<u64, String>)
        requires
            self.inv(),
        ensures
            r is Ok,
            r matches Ok(c) ==> c == fscope_rows(
                self.model(),
                account@,
                unread_only,
                filter_ids@,
            ).len(),
    ;

    /// For every filter, in creation order, the count of its currently
    /// matching stored messages in the account (zero if none).
    fn filter_match_counts(&self, account: &str, unread_only: bool) -> (r: Result<
        Vec<(i64, u64)>,
        String,
    >)
        requires
            self.inv(),
        ensures
            r is Ok,
            r matches Ok(v) ==> v@.len() == self.model().filters.len(),
            r matches Ok(v) ==> forall|i: int|
                0 <= i < v@.len() ==> (#[trigger] v@[i]).0 == self.model().filters[i].id && v@[i].1
                    == match_count_of(
                    self.model(),
                    account@,
                    unread_only,
                    self.model().filters[i].id,
                ),
    ;

    /// The full rule set, in creation order.
    fn get_filters(&self) -> (r: Result<Vec<FilterPattern>, String>)
        requires
            self.inv(),
        ensures
            r is Ok,
            r matches Ok(v) ==> crate::mail::filters_view(v@) == self.model().filters,
    ;

    /// Batch update of the read flag to `true`, returning how many
    /// stored rows of the account carried one of the given UIDs.
    fn mark_emails_read(&mut self, account: &str, uids: &Vec<u32>) -> (r: Result<usize, String>)
        requires
            old(self).inv(),
        ensures
            r is Ok,
            final(self).inv(),
            r matches Ok(n) ==> n == old(self).model().emails.filter(
                mark_pred(account@, uids@),
            ).len(),
            final(self).model().emails == old(self).model().emails.map_values(
                mark_row_fn(account@, uids@, true),
            ),
            final(self).model().filters == old(self).model().filters,
            final(self).model().matched == old(self).model().matched,
            final(self).model().sync_uids == old(self).model().sync_uids,
            final(self).model().filter_cursors == old(self).model().filter_cursors,
            final(self).model().next_email_id == old(self).model().next_email_id,
            final(self).model().next_filter_id == old(self).model().next_filter_id,
    ;

    /// Batch update of the read flag to `false`; otherwise as
    /// `mark_emails_read`.
    fn mark_emails_unread(&mut self, account: &str, uids: &Vec<u32>) -> (r: Result<usize, String>)
        requires
            old(self).inv(),
        ensures
            r is Ok,
            final(self).inv(),
            r matches Ok(n) ==> n == old(self).model().emails.filter(
                mark_pred(account@, uids@),
            ).len(),
            final(self).model().emails == old(self).model().emails.map_values(
                mark_row_fn(account@, uids@, false),
            ),
            final(self).model().filters == old(self).model().filters,
            final(self).model().matched == old(self).model().matched,
            final(self).model().sync_uids == old(self).model().sync_uids,
            final(self).model().filter_cursors == old(self).model().filter_cursors,
            final(self).model().next_email_id == old(self).model().next_email_id,
            final(self).model().next_filter_id == old(self).model().next_filter_id,
    ;

    /// The cached body of a stored message: nothing when the message is
    /// unknown or neither part is cached.
    fn get_email_body(&self, account: &str, uid: u32) -> (r: Result<
        Option<crate::gmail::EmailBody>,
        String,
    >)
        requires
            self.inv(),
        ensures
            r is Ok,
            r matches Ok(o) ==> body_opt_view(o) == body_of(self.model().emails, account@, uid),
    ;

    /// Overwrites the cached bodies of the named messages, in delivery
    /// order; unknown UIDs are ignored.
    fn set_email_bodies(&mut self, account: &str, bodies: &Vec<crate::gmail::GmailEmailBody>) -> (r:
        Result<(), String>)
        requires
            old(self).inv(),
        ensures
            r is Ok,
            final(self).inv(),
            final(self).model().emails == set_body_seq(
                old(self).model().emails,
                account@,
                body_views(bodies@),
            ),
            final(self).model().filters == old(self).model().filters,
            final(self).model().matched == old(self).model().matched,
            final(self).model().sync_uids == old(self).model().sync_uids,
            final(self).model().filter_cursors == old(self).model().filter_cursors,
            final(self).model().next_email_id == old(self).model().next_email_id,
            final(self).model().next_filter_id == old(self).model().next_filter_id,
    ;

    /// One incremental unit of filter backfill for the account: resolve
    /// the start cursor (zero on a forced full pass, which also drops
    /// the account's recorded matches, or on the inconsistency rewind),
    /// scan at most `chunk_size` rows past it in ascending id order,
    /// record the matches of enabled rules, and advance the cursor to
    /// the last scanned id.  Returns how many rows were scanned; zero
    /// means caught up.
    fn refresh_filtered_emails(&mut self, account: &str, chunk_size: u32, force_full: bool) -> (r:
        Result<usize, String>)
        requires
            old(self).inv(),
        ensures
            r is Ok,
            final(self).inv(),
            final(self).model().emails == old(self).model().emails,
            final(self).model().filters == old(self).model().filters,
            final(self).model().sync_uids == old(self).model().sync_uids,
            final(self).model().next_email_id == old(self).model().next_email_id,
            final(self).model().next_filter_id == old(self).model().next_filter_id,
            forall|a: Seq<char>|
                a != account@ ==> #[trigger] filter_cursor_of(final(self).model(), a)
                    == filter_cursor_of(old(self).model(), a),
            ({
                let m0 = old(self).model();
                let c = refresh_start_cursor(m0, account@, force_full);
                let kept = refresh_kept_matched(m0, account@, force_full);
                let batch = refresh_batch(m0.emails, account@, c, chunk_size);
                &&& (r matches Ok(n) ==> n == batch.len())
                &&& (batch.len() == 0 ==> (forall|p: (i64, i64)|
                    #[trigger] final(self).model().matched.contains(p) <==> kept.contains(p))
                    && filter_cursor_of(final(self).model(), account@) == c)
                &&& (batch.len() > 0 ==> (forall|p: (i64, i64)|
                    #[trigger] final(self).model().matched.contains(p) <==> kept.contains(p)
                        || added_pair(batch, m0.filters, p)) && filter_cursor_of(
                    final(self).model(),
                    account@,
                ) == batch.last().id)
            }),
    ;

    /// Replaces the rule set by reconciliation: rules present in both
    /// with identical match-affecting fields are untouched; changed
    /// ones are updated and their recorded matches recomputed; new
    /// ones are inserted with fresh ids and computed; missing ones are
    /// deleted together with their matches.  Recomputation covers all
    /// stored messages synchronously.  Returns the persisted set.
    fn save_filters(&mut self, patterns: &Vec<FilterPattern>) -> (r: Result<
        Vec<FilterPattern>,
        String,
    >)
        requires
            old(self).inv(),
            old(self).model().next_filter_id + patterns@.len() <= i64::MAX,
        ensures
            r is Ok,
            final(self).inv(),
            final(self).model().emails == old(self).model().emails,
            final(self).model().sync_uids == old(self).model().sync_uids,
            final(self).model().filter_cursors == old(self).model().filter_cursors,
            final(self).model().next_email_id == old(self).model().next_email_id,
            ({
                let ex = old(self).model().filters;
                let ps = crate::mail::filters_view(patterns@);
                let next0 = old(self).model().next_filter_id;
                let newf = saved_filters(ex, ps, next0);
                &&& final(self).model().filters == newf
                &&& final(self).model().next_filter_id == next0 + inserted_upto(
                    ex,
                    ps,
                    next0,
                    ps.len() as int,
                ).len()
                &&& (forall|p: (i64, i64)|
                    #[trigger] final(self).model().matched.contains(p) <==> (old(
                        self,
                    ).model().matched.contains(p) && match_kept_fid(ex, ps, p.1)) || added_pair(
                        old(self).model().emails,
                        saved_refresh_filters(ex, ps, next0),
                        p,
                    ))
                &&& (r matches Ok(v) ==> crate::mail::filters_view(v@) == newf)
            }),
    ;

    /// Overrides the recorded matches of one message with exactly the
    /// given filter ids.  An unknown message is a silent no-op; an
    /// unknown filter id is a constraint violation that leaves the
    /// store unchanged.
    fn set_email_filters(&mut self, account: &str, uid: u32, filter_ids: &Vec<i64>) -> (r: Result<
        (),
        String,
    >)
        requires
            old(self).inv(),
        ensures
            final(self).inv(),
            r is Ok <==> (!has_email(old(self).model().emails, account@, uid) || forall|j: int|
                0 <= j < filter_ids@.len() ==> has_filter_id(
                    old(self).model().filters,
                    #[trigger] filter_ids@[j],
                )),
            final(self).model().emails == old(self).model().emails,
            final(self).model().filters == old(self).model().filters,
            final(self).model().sync_uids == old(self).model().sync_uids,
            final(self).model().filter_cursors == old(self).model().filter_cursors,
            final(self).model().next_email_id == old(self).model().next_email_id,
            final(self).model().next_filter_id == old(self).model().next_filter_id,
            r is Err ==> final(self).model().matched == old(self).model().matched,
            !has_email(old(self).model().emails, account@, uid) ==> final(self).model().matched
                == old(self).model().matched,
            (r is Ok && has_email(old(self).model().emails, account@, uid)) ==> ({
                let id = old(self).model().emails[email_idx(
                    old(self).model().emails,
                    account@,
                    uid,
                )].id;
                forall|p: (i64, i64)|
                    #[trigger] final(self).model().matched.contains(p) <==> (old(
                        self,
                    ).model().matched.contains(p) && p.0 != id) || (p.0 == id
                        && filter_ids@.contains(p.1))
            }),
    ;

    /// Idempotent batch insert-or-update keyed by `(account, uid)`:
    /// redelivering a UID overwrites the mutable header fields of its
    /// row without creating a duplicate and without touching cached
    /// bodies; unseen UIDs get fresh, ascending local ids.
    fn upsert_emails(&mut self, account: &str, mailbox: &str, emails: &Vec<GmailEmail>) -> (r:
        Result<(), String>)
        requires
            old(self).inv(),
            old(self).model().next_email_id + emails@.len() <= i64::MAX,
        ensures
            r is Ok,
            final(self).inv(),
            ({
                let res = upsert_seq(
                    old(self).model().emails,
                    old(self).model().next_email_id,
                    account@,
                    mailbox@,
                    gmail_views(emails@),
                );
                final(self).model().emails == res.0 && final(self).model().next_email_id == res.1
            }),
            final(self).model().filters == old(self).model().filters,
            final(self).model().matched == old(self).model().matched,
            final(self).model().sync_uids == old(self).model().sync_uids,
            final(self).model().filter_cursors == old(self).model().filter_cursors,
            final(self).model().next_filter_id == old(self).model().next_filter_id,
    ;
}

/// How the filter engine matches one header text: case-insensitive
/// compiled regular expression, or case-insensitive substring.
pub open spec fn storage_text_match(pattern: Seq<char>, is_regex: bool, text: Seq<char>) -> bool {
    if is_regex {
        crate::filters::ci_regex_match_of(pattern, text)
    } else {
        crate::filters::spec_contains(
            crate::filters::lower_of(text),
            crate::filters::lower_of(pattern),
        )
    }
}

/// Whether a stored row matches a rule on the rule's targeted field.
pub open spec fn row_matches_filter(r: EmailRowV, f: FilterPatternV) -> bool {
    match f.field {
        crate::mail::FilterField::Subject => storage_text_match(f.pattern, f.is_regex, r.subject),
        crate::mail::FilterField::Sender => storage_text_match(f.pattern, f.is_regex, r.sender),
        crate::mail::FilterField::Any => storage_text_match(f.pattern, f.is_regex, r.subject)
            || storage_text_match(f.pattern, f.is_regex, r.sender),
    }
}

/// Whether a match pair's message belongs to the account.
pub open spec fn pair_in_account(
    rows: Seq<EmailRowV>,
    account: Seq<char>,
    p: (i64, i64),
) -> bool {
    exists|k: int|
        0 <= k < rows.len() && (#[trigger] rows[k]).id == p.0 && rows[k].account == account
}

/// The pairs whose message belongs to the account, as a predicate.
pub open spec fn account_pair_pred(rows: Seq<EmailRowV>, account: Seq<char>) -> spec_fn(
    (i64, i64),
) -> bool {
    |p: (i64, i64)| pair_in_account(rows, account, p)
}

/// The pairs whose message does not belong to the account.
pub open spec fn keep_pair_pred(rows: Seq<EmailRowV>, account: Seq<char>) -> spec_fn(
    (i64, i64),
) -> bool {
    |p: (i64, i64)| !pair_in_account(rows, account, p)
}

/// How many recorded match pairs belong to the account.
pub open spec fn account_pair_count(m: StoreModel, account: Seq<char>) -> int {
    m.matched.filter(account_pair_pred(m.emails, account)).len() as int
}

/// Where one backfill invocation starts: zero after a forced full
/// pass, zero after the inconsistency rewind (no recorded matches but
/// a nonzero cursor), else the stored cursor.
pub open spec fn refresh_start_cursor(m: StoreModel, account: Seq<char>, force_full: bool) -> i64 {
    if force_full {
        0
    } else {
        let c = filter_cursor_of(m, account);
        if account_pair_count(m, account) == 0 && c > 0 {
            0
        } else {
            c
        }
    }
}

/// The match pairs surviving the start of one backfill invocation: a
/// forced full pass drops the account's pairs.
pub open spec fn refresh_kept_matched(m: StoreModel, account: Seq<char>, force_full: bool) -> Seq<
    (i64, i64),
> {
    if force_full {
        m.matched.filter(keep_pair_pred(m.emails, account))
    } else {
        m.matched
    }
}

/// The rows one backfill invocation scans: account rows past the
/// cursor, in ascending id order, at most `chunk` of them.
pub open spec fn batch_pred(account: Seq<char>, cur: i64) -> spec_fn(EmailRowV) -> bool {
    |r: EmailRowV| r.account == account && r.id > cur
}

/// The batch of one backfill invocation.
pub open spec fn refresh_batch(
    rows: Seq<EmailRowV>,
    account: Seq<char>,
    cur: i64,
    chunk: u32,
) -> Seq<EmailRowV> {
    let all = rows.filter(batch_pred(account, cur));
    if all.len() <= chunk {
        all
    } else {
        all.take(chunk as int)
    }
}

/// Whether a match-recomputation pass over `rows` with `rules` yields
/// the pair `p`: some scanned row carries `p.0`, some enabled rule
/// carries `p.1`, and the row matches the rule.
pub open spec fn added_pair(
    rows: Seq<EmailRowV>,
    rules: Seq<FilterPatternV>,
    p: (i64, i64),
) -> bool {
    exists|bi: int, fj: int|
        0 <= bi < rows.len() && 0 <= fj < rules.len() && (#[trigger] rows[bi]).id == p.0 && (
        #[trigger] rules[fj]).id == p.1 && rules[fj].enabled && row_matches_filter(
            rows[bi],
            rules[fj],
        )
}

/// Whether some rule carries this id.
pub open spec fn has_filter_id(filters: Seq<FilterPatternV>, fid: i64) -> bool {
    exists|k: int| 0 <= k < filters.len() && (#[trigger] filters[k]).id == fid
}

/// The first index of a desired rule carrying `fid` (the length when
/// none does).
pub open spec fn first_pattern_idx(ps: Seq<FilterPatternV>, fid: i64) -> int
    decreases ps.len(),
{
    if ps.len() == 0 {
        0
    } else if ps[0].id == fid {
        0
    } else {
        1 + first_pattern_idx(ps.drop_first(), fid)
    }
}

/// Whether the two rules agree on the fields that decide matches.
pub open spec fn match_affecting_eq(a: FilterPatternV, b: FilterPatternV) -> bool {
    a.pattern == b.pattern && a.is_regex == b.is_regex && a.field == b.field
}

/// A stored rule is claimed when some desired rule carries its id; the
/// first such desired rule supplies its new fields.
pub open spec fn claimed_pred(ps: Seq<FilterPatternV>) -> spec_fn(FilterPatternV) -> bool {
    |f: FilterPatternV| has_filter_id(ps, f.id)
}

/// The new record of a claimed stored rule: the first desired rule
/// with its id, keeping the stored identity.
pub open spec fn claim_fn(ps: Seq<FilterPatternV>) -> spec_fn(FilterPatternV) -> FilterPatternV {
    |f: FilterPatternV|
        {
            let p = ps[first_pattern_idx(ps, f.id)];
            FilterPatternV {
                id: f.id,
                name: p.name,
                pattern: p.pattern,
                field: p.field,
                is_regex: p.is_regex,
                enabled: p.enabled,
            }
        }
}

/// The stored rules that survive a rule-set save, with their new
/// fields, in stored order.
pub open spec fn saved_kept_filters(
    existing: Seq<FilterPatternV>,
    ps: Seq<FilterPatternV>,
) -> Seq<FilterPatternV> {
    existing.filter(claimed_pred(ps)).map_values(claim_fn(ps))
}

/// A claimed stored rule whose match-affecting fields changed: its
/// recorded matches are invalid and must be recomputed.
pub open spec fn updated_pred(ps: Seq<FilterPatternV>) -> spec_fn(FilterPatternV) -> bool {
    |f: FilterPatternV| has_filter_id(ps, f.id) && !match_affecting_eq(
        f,
        ps[first_pattern_idx(ps, f.id)],
    )
}

/// The desired rule at `i` is an insertion: no stored rule carries its
/// id, or an earlier desired rule already claimed that id.
pub open spec fn is_insert(
    existing: Seq<FilterPatternV>,
    ps: Seq<FilterPatternV>,
    i: int,
) -> bool {
    !has_filter_id(existing, ps[i].id) || exists|j: int| 0 <= j < i && (#[trigger] ps[j]).id
        == ps[i].id
}

/// The inserted rules among the first `i` desired rules, with fresh
/// ids assigned in order starting at `next0`.
pub open spec fn inserted_upto(
    existing: Seq<FilterPatternV>,
    ps: Seq<FilterPatternV>,
    next0: i64,
    i: int,
) -> Seq<FilterPatternV>
    decreases i,
{
    if i <= 0 {
        Seq::empty()
    } else {
        let rest = inserted_upto(existing, ps, next0, i - 1);
        if is_insert(existing, ps, i - 1) {
            rest.push(
                FilterPatternV {
                    id: (next0 + rest.len()) as i64,
                    name: ps[i - 1].name,
                    pattern: ps[i - 1].pattern,
                    field: ps[i - 1].field,
                    is_regex: ps[i - 1].is_regex,
                    enabled: ps[i - 1].enabled,
                },
            )
        } else {
            rest
        }
    }
}

/// The full rule set after a save: survivors with their new fields,
/// then the insertions.
pub open spec fn saved_filters(
    existing: Seq<FilterPatternV>,
    ps: Seq<FilterPatternV>,
    next0: i64,
) -> Seq<FilterPatternV> {
    saved_kept_filters(existing, ps) + inserted_upto(existing, ps, next0, ps.len() as int)
}

/// The rules whose matches are recomputed by a save: the updated
/// survivors and the insertions.
pub open spec fn saved_refresh_filters(
    existing: Seq<FilterPatternV>,
    ps: Seq<FilterPatternV>,
    next0: i64,
) -> Seq<FilterPatternV> {
    existing.filter(updated_pred(ps)).map_values(claim_fn(ps)) + inserted_upto(
        existing,
        ps,
        next0,
        ps.len() as int,
    )
}

/// A recorded match survives a save exactly when its rule survives
/// with unchanged match-affecting fields.
pub open spec fn match_kept_fid(
    existing: Seq<FilterPatternV>,
    ps: Seq<FilterPatternV>,
    fid: i64,
) -> bool {
    exists|k: int|
        0 <= k < existing.len() && (#[trigger] existing[k]).id == fid && has_filter_id(ps, fid)
            && match_affecting_eq(existing[k], ps[first_pattern_idx(ps, fid)])
}

/// `mx` is the maximum stored UID of the account.
pub open spec fn has_uid_max(rows: Seq<EmailRowV>, account: Seq<char>, mx: u32) -> bool {
    &&& exists|i: int|
        0 <= i < rows.len() && (#[trigger] rows[i]).account == account && rows[i].uid == mx
    &&& forall|i: int|
        0 <= i < rows.len() && (#[trigger] rows[i]).account == account ==> rows[i].uid <= mx
}

fn row_le_exec(a: &EmailRow, b: &EmailRow) -> (r: bool)
    ensures
        r == row_le(a@, b@),
{
    a.date_epoch > b.date_epoch || (a.date_epoch == b.date_epoch && a.id <= b.id)
}

fn uids_contains(uids: &Vec<u32>, u: u32) -> (r: bool)
    ensures
        r == uids@.contains(u),
{
    let mut i: usize = 0;
    while i < uids.len()
        invariant
            i <= uids@.len(),
            forall|j: int| 0 <= j < i ==> uids@[j] != u,
        decreases uids@.len() - i,
    {
        if uids[i] == u {
            return true;
        }
        i = i + 1;
    }
    false
}

fn clone_row(r: &EmailRow) -> (c: EmailRow)
    ensures
        c == *r,
{
    EmailRow {
        id: r.id,
        uid: r.uid,
        message_id: r.message_id.clone(),
        subject: r.subject.clone(),
        sender: r.sender.clone(),
        date: r.date.clone(),
        date_epoch: r.date_epoch,
        mailbox: r.mailbox.clone(),
        account: r.account.clone(),
        is_read: r.is_read,
        body_html: crate::gmail::clone_opt_string(&r.body_html),
        body_text: crate::gmail::clone_opt_string(&r.body_text),
    }
}

fn stored_of_row(r: &EmailRow) -> (s: StoredEmail)
    ensures
        s@ == stored_of(r@),
{
    StoredEmail {
        uid: r.uid,
        message_id: r.message_id.clone(),
        subject: r.subject.clone(),
        sender: r.sender.clone(),
        date: r.date.clone(),
        date_epoch: r.date_epoch,
        mailbox: r.mailbox.clone(),
        account: r.account.clone(),
        is_read: r.is_read,
    }
}

fn find_insert_pos(v: &Vec<EmailRow>, x: &EmailRow) -> (p: usize)
    ensures
        p <= v@.len(),
        forall|q: int| 0 <= q < p ==> !row_le(x@, row_views(v@)[q]),
        p == v@.len() || row_le(x@, row_views(v@)[p as int]),
{
    let mut j: usize = 0;
    while j < v.len()
        invariant
            j <= v@.len(),
            forall|q: int| 0 <= q < j ==> !row_le(x@, row_views(v@)[q]),
        decreases v@.len() - j,
    {
        proof {
            assert(row_views(v@)[j as int] == v@[j as int]@);
        }
        if row_le_exec(x, &v[j]) {
            return j;
        }
        j = j + 1;
    }
    j
}

/// Whether one scanned row and one rule yield the pair `p`.
pub open spec fn row_add_pair(
    row: EmailRowV,
    rules: Seq<FilterPatternV>,
    p: (i64, i64),
) -> bool {
    exists|fj: int|
        0 <= fj < rules.len() && (#[trigger] rules[fj]).id == p.1 && rules[fj].enabled
            && row_matches_filter(row, rules[fj]) && row.id == p.0
}

proof fn lemma_added_pair_step(
    rows: Seq<EmailRowV>,
    rules: Seq<FilterPatternV>,
    bi: int,
    p: (i64, i64),
)
    requires
        0 <= bi < rows.len(),
    ensures
        added_pair(rows.take(bi + 1), rules, p) <==> (added_pair(rows.take(bi), rules, p)
            || row_add_pair(rows[bi], rules, p)),
{
    let t1 = rows.take(bi + 1);
    let t0 = rows.take(bi);
    if added_pair(t1, rules, p) {
        let (x, y): (int, int) = choose|x: int, y: int|
            0 <= x < t1.len() && 0 <= y < rules.len() && (#[trigger] t1[x]).id == p.0 && (
            #[trigger] rules[y]).id == p.1 && rules[y].enabled && row_matches_filter(
                t1[x],
                rules[y],
            );
        if x < bi {
            assert(t0[x] == t1[x]);
            assert(added_pair(t0, rules, p));
        } else {
            assert(t1[x] == rows[bi]);
            assert(row_add_pair(rows[bi], rules, p));
        }
    }
    if added_pair(t0, rules, p) {
        let (x, y): (int, int) = choose|x: int, y: int|
            0 <= x < t0.len() && 0 <= y < rules.len() && (#[trigger] t0[x]).id == p.0 && (
            #[trigger] rules[y]).id == p.1 && rules[y].enabled && row_matches_filter(
                t0[x],
                rules[y],
            );
        assert(t1[x] == t0[x]);
        assert(added_pair(t1, rules, p));
    }
    if row_add_pair(rows[bi], rules, p) {
        let y = choose|y: int|
            0 <= y < rules.len() && (#[trigger] rules[y]).id == p.1 && rules[y].enabled
                && row_matches_filter(rows[bi], rules[y]) && rows[bi].id == p.0;
        assert(t1[bi] == rows[bi]);
        assert(added_pair(t1, rules, p));
    }
}

proof fn lemma_row_add_step(row: EmailRowV, rules: Seq<FilterPatternV>, fj: int, p: (i64, i64))
    requires
        0 <= fj < rules.len(),
    ensures
        row_add_pair(row, rules.take(fj + 1), p) <==> (row_add_pair(row, rules.take(fj), p) || (
        rules[fj].id == p.1 && rules[fj].enabled && row_matches_filter(row, rules[fj]) && row.id
            == p.0)),
{
    let t1 = rules.take(fj + 1);
    let t0 = rules.take(fj);
    if row_add_pair(row, t1, p) {
        let y = choose|y: int|
            0 <= y < t1.len() && (#[trigger] t1[y]).id == p.1 && t1[y].enabled
                && row_matches_filter(row, t1[y]) && row.id == p.0;
        if y < fj {
            assert(t0[y] == t1[y]);
            assert(row_add_pair(row, t0, p));
        } else {
            assert(t1[y] == rules[fj]);
        }
    }
    if row_add_pair(row, t0, p) {
        let y = choose|y: int|
            0 <= y < t0.len() && (#[trigger] t0[y]).id == p.1 && t0[y].enabled
                && row_matches_filter(row, t0[y]) && row.id == p.0;
        assert(t1[y] == t0[y]);
        assert(row_add_pair(row, t1, p));
    }
    if rules[fj].id == p.1 && rules[fj].enabled && row_matches_filter(row, rules[fj]) && row.id
        == p.0 {
        assert(t1[fj] == rules[fj]);
        assert(row_add_pair(row, t1, p));
    }
}

/// The match pairs that survive a rule-set save.
pub open spec fn pair_kept_pred(ex: Seq<FilterPatternV>, ps: Seq<FilterPatternV>) -> spec_fn(
    (i64, i64),
) -> bool {
    |p: (i64, i64)| match_kept_fid(ex, ps, p.1)
}

/// The match pairs of other messages, kept by a per-message override.
pub open spec fn other_email_pred(id: i64) -> spec_fn((i64, i64)) -> bool {
    |p: (i64, i64)| p.0 != id
}

proof fn lemma_first_pattern_found(ps: Seq<FilterPatternV>, fid: i64, i: int)
    requires
        0 <= i < ps.len(),
        ps[i].id == fid,
        forall|j: int| 0 <= j < i ==> (#[trigger] ps[j]).id != fid,
    ensures
        first_pattern_idx(ps, fid) == i,
        has_filter_id(ps, fid),
    decreases i,
{
    if i == 0 {
    } else {
        assert(ps[0].id != fid);
        assert(ps.drop_first()[i - 1] == ps[i]);
        assert(forall|j: int| 0 <= j < i - 1 ==> (#[trigger] ps.drop_first()[j]).id != fid);
        lemma_first_pattern_found(ps.drop_first(), fid, i - 1);
    }
}

proof fn lemma_first_pattern_missing(ps: Seq<FilterPatternV>, fid: i64)
    requires
        forall|j: int| 0 <= j < ps.len() ==> (#[trigger] ps[j]).id != fid,
    ensures
        !has_filter_id(ps, fid),
        first_pattern_idx(ps, fid) == ps.len(),
    decreases ps.len(),
{
    if ps.len() == 0 {
    } else {
        assert(forall|j: int|
            0 <= j < ps.drop_first().len() ==> (#[trigger] ps.drop_first()[j]).id != fid);
        lemma_first_pattern_missing(ps.drop_first(), fid);
    }
}

proof fn lemma_match_kept_step(ex: Seq<FilterPatternV>, ps: Seq<FilterPatternV>, k: int, fid: i64)
    requires
        0 <= k < ex.len(),
    ensures
        match_kept_fid(ex.take(k + 1), ps, fid) <==> (match_kept_fid(ex.take(k), ps, fid) || (
        ex[k].id == fid && has_filter_id(ps, fid) && match_affecting_eq(
            ex[k],
            ps[first_pattern_idx(ps, fid)],
        ))),
{
    let t1 = ex.take(k + 1);
    let t0 = ex.take(k);
    if match_kept_fid(t1, ps, fid) {
        let w = choose|w: int|
            0 <= w < t1.len() && (#[trigger] t1[w]).id == fid && has_filter_id(ps, fid)
                && match_affecting_eq(t1[w], ps[first_pattern_idx(ps, fid)]);
        if w < k {
            assert(t0[w] == t1[w]);
            assert(match_kept_fid(t0, ps, fid));
        } else {
            assert(t1[w] == ex[k]);
        }
    }
    if match_kept_fid(t0, ps, fid) {
        let w = choose|w: int|
            0 <= w < t0.len() && (#[trigger] t0[w]).id == fid && has_filter_id(ps, fid)
                && match_affecting_eq(t0[w], ps[first_pattern_idx(ps, fid)]);
        assert(t1[w] == t0[w]);
        assert(match_kept_fid(t1, ps, fid));
    }
    if ex[k].id == fid && has_filter_id(ps, fid) && match_affecting_eq(
        ex[k],
        ps[first_pattern_idx(ps, fid)],
    ) {
        assert(t1[k] == ex[k]);
        assert(match_kept_fid(t1, ps, fid));
    }
}

fn ids_contains(v: &Vec<i64>, x: i64) -> (r: bool)
    ensures
        r == v@.contains(x),
{
    let mut i: usize = 0;
    while i < v.len()
        invariant
            i <= v@.len(),
            forall|j: int| 0 <= j < i ==> v@[j] != x,
        decreases v@.len() - i,
    {
        if v[i] == x {
            return true;
        }
        i = i + 1;
    }
    false
}

fn pair_vec_contains(v: &Vec<(i64, i64)>, x: (i64, i64)) -> (r: bool)
    ensures
        r == v@.contains(x),
{
    let mut i: usize = 0;
    while i < v.len()
        invariant
            i <= v@.len(),
            forall|j: int| 0 <= j < i ==> v@[j] != x,
        decreases v@.len() - i,
    {
        let p = v[i];
        if p.0 == x.0 && p.1 == x.1 {
            proof {
                assert(v@[i as int] == x);
            }
            return true;
        }
        i = i + 1;
    }
    false
}

fn first_pattern_pos(patterns: &Vec<FilterPattern>, fid: i64) -> (pos: usize)
    ensures
        pos <= patterns@.len(),
        pos < patterns@.len() ==> {
            let ps = crate::mail::filters_view(patterns@);
            ps[pos as int].id == fid && first_pattern_idx(ps, fid) == pos && has_filter_id(ps, fid)
        },
        pos == patterns@.len() ==> {
            let ps = crate::mail::filters_view(patterns@);
            !has_filter_id(ps, fid) && first_pattern_idx(ps, fid) == ps.len()
        },
{
    let ghost ps = crate::mail::filters_view(patterns@);
    let mut i: usize = 0;
    while i < patterns.len()
        invariant
            i <= ps.len(),
            ps.len() == patterns@.len(),
            ps == crate::mail::filters_view(patterns@),
            forall|j: int| 0 <= j < i ==> (#[trigger] ps[j]).id != fid,
        decreases ps.len() - i,
    {
        proof {
            assert(ps[i as int] == patterns@[i as int]@);
        }
        if patterns[i].id == fid {
            proof {
                lemma_first_pattern_found(ps, fid, i as int);
            }
            return i;
        }
        i = i + 1;
    }
    proof {
        lemma_first_pattern_missing(ps, fid);
    }
    i
}

fn has_dup_before(patterns: &Vec<FilterPattern>, i: usize, fid: i64) -> (r: bool)
    requires
        i <= patterns@.len(),
    ensures
        r == exists|j: int|
            0 <= j < i && (#[trigger] crate::mail::filters_view(patterns@)[j]).id == fid,
{
    let ghost ps = crate::mail::filters_view(patterns@);
    let mut j: usize = 0;
    while j < i
        invariant
            j <= i,
            i <= ps.len(),
            ps.len() == patterns@.len(),
            ps == crate::mail::filters_view(patterns@),
            forall|t: int| 0 <= t < j ==> (#[trigger] ps[t]).id != fid,
        decreases i - j,
    {
        proof {
            assert(ps[j as int] == patterns@[j as int]@);
        }
        if patterns[j].id == fid {
            return true;
        }
        j = j + 1;
    }
    false
}

fn match_affecting_eq_exec(a: &FilterPattern, b: &FilterPattern) -> (r: bool)
    ensures
        r == match_affecting_eq(a@, b@),
{
    a.pattern == b.pattern && a.is_regex == b.is_regex && a.field == b.field
}

fn storage_text_match_exec(pattern: &String, is_regex: bool, text: &str) -> (r: bool)
    ensures
        r == storage_text_match(pattern@, is_regex, text@),
{
    if is_regex {
        crate::filters::ci_regex_is_match(pattern.as_str(), text)
    } else {
        let hay = crate::filters::to_lowercase(text);
        let needle = crate::filters::to_lowercase(pattern.as_str());
        crate::filters::str_contains(hay.as_str(), needle.as_str())
    }
}

fn row_matches_filter_exec(row: &EmailRow, f: &FilterPattern) -> (r: bool)
    ensures
        r == row_matches_filter(row@, f@),
{
    match f.field {
        crate::mail::FilterField::Subject => storage_text_match_exec(
            &f.pattern,
            f.is_regex,
            row.subject.as_str(),
        ),
        crate::mail::FilterField::Sender => storage_text_match_exec(
            &f.pattern,
            f.is_regex,
            row.sender.as_str(),
        ),
        crate::mail::FilterField::Any => {
            storage_text_match_exec(&f.pattern, f.is_regex, row.subject.as_str())
                || storage_text_match_exec(&f.pattern, f.is_regex, row.sender.as_str())
        },
    }
}

fn sort_and_page(filtered: &Vec<EmailRow>, limit: u32, offset: u32) -> (out: Vec<StoredEmail>)
    ensures
        stored_views(out@) == page(sort_desc(row_views(filtered@)), limit, offset).map_values(
            |r: EmailRowV| stored_of(r),
        ),
{
    let ghost fviews = row_views(filtered@);
    let mut sorted: Vec<EmailRow> = Vec::new();
    let mut k: usize = 0;
    proof {
        assert(fviews.take(0) =~= Seq::<EmailRowV>::empty());
        assert(sort_desc(fviews.take(0)) =~= Seq::<EmailRowV>::empty());
        assert(row_views(sorted@) =~= Seq::<EmailRowV>::empty());
    }
    while k < filtered.len()
        invariant
            k <= filtered@.len(),
            row_views(filtered@) == fviews,
            fviews.len() == filtered@.len(),
            row_views(sorted@) == sort_desc(fviews.take(k as int)),
            sorted@.len() == k,
        decreases filtered@.len() - k,
    {
        let x = clone_row(&filtered[k]);
        proof {
            assert(x@ == row_views(filtered@)[k as int]);
            assert(x@ == fviews[k as int]);
        }
        let pos = find_insert_pos(&sorted, &x);
        let ghost before = row_views(sorted@);
        sorted.insert(pos, x);
        proof {
            lemma_insert_desc_at(before, fviews[k as int], pos as int);
            assert(row_views(sorted@) =~= before.take(pos as int) + seq![fviews[k as int]]
                + before.skip(pos as int));
            assert(fviews.take(k + 1).drop_last() =~= fviews.take(k as int));
            assert(fviews.take(k + 1).last() == fviews[k as int]);
            assert(row_views(sorted@) == insert_desc(
                sort_desc(fviews.take(k as int)),
                fviews[k as int],
            ));
        }
        k = k + 1;
    }
    proof {
        lemma_take_full(fviews);
    }
    let ghost svs = sort_desc(fviews);
    let total = sorted.len();
    let start = if (offset as usize) <= total {
        offset as usize
    } else {
        total
    };
    let rem = total - start;
    let take_n = if (limit as usize) < rem {
        limit as usize
    } else {
        rem
    };
    let end = start + take_n;
    let ghost stored_fn = (|r: EmailRowV| stored_of(r));
    let mut out: Vec<StoredEmail> = Vec::new();
    let mut j: usize = start;
    proof {
        assert(svs.subrange(start as int, start as int) =~= Seq::<EmailRowV>::empty());
        assert(stored_views(out@) =~= Seq::<EmailRowV>::empty().map_values(stored_fn));
    }
    while j < end
        invariant
            start <= j <= end,
            end == start + take_n,
            end <= sorted@.len(),
            row_views(sorted@) == svs,
            svs.len() == sorted@.len(),
            stored_fn == (|r: EmailRowV| stored_of(r)),
            stored_views(out@) == svs.subrange(start as int, j as int).map_values(stored_fn),
        decreases end - j,
    {
        proof {
            assert(svs[j as int] == sorted@[j as int]@);
        }
        out.push(stored_of_row(&sorted[j]));
        proof {
            assert(svs.subrange(start as int, j + 1) =~= svs.subrange(start as int, j as int).push(
                svs[j as int],
            ));
            assert(svs.subrange(start as int, j + 1).map_values(stored_fn) =~= svs.subrange(
                start as int,
                j as int,
            ).map_values(stored_fn).push(stored_of(svs[j as int])));
            assert(stored_views(out@) =~= svs.subrange(start as int, j as int).map_values(
                stored_fn,
            ).push(stored_of(svs[j as int])));
        }
        j = j + 1;
    }
    proof {
        assert(page(svs, limit, offset) =~= svs.subrange(start as int, (start + take_n) as int));
    }
    out
}

/// The verified in-memory store.
pub struct MemStorage {
    emails: Vec<EmailRow>,
    filters: Vec<FilterPattern>,
    matched: Vec<(i64, i64)>,
    sync_uids: Vec<(String, u32)>,
    filter_cursors: Vec<(String, i64)>,
    next_email_id: i64,
    next_filter_id: i64,
}

impl MemStorage {
    /// An empty store.
    pub fn new() -> (r: Self)
        ensures
            r.inv(),
            r.model().emails.len() == 0,
            r.model().filters.len() == 0,
            r.model().matched.len() == 0,
            r.model().sync_uids.len() == 0,
            r.model().filter_cursors.len() == 0,
            r.model().next_email_id == 1,
            r.model().next_filter_id == 1,
    {
        MemStorage {
            emails: Vec::new(),
            filters: Vec::new(),
            matched: Vec::new(),
            sync_uids: Vec::new(),
            filter_cursors: Vec::new(),
            next_email_id: 1,
            next_filter_id: 1,
        }
    }

    /// The next local id the allocator would hand out.  Its distance
    /// to the id-space ceiling bounds how many messages the caller may
    /// still deliver to `upsert_emails`.
    pub fn next_id(&self) -> (r: i64)
        ensures
            r == self.model_of().next_email_id,
    {
        self.next_email_id
    }

    /// The next rule id the allocator would hand out.  Its distance to
    /// the id-space ceiling bounds how many rules one `save_filters`
    /// call may insert.
    pub fn next_rule_id(&self) -> (r: i64)
        ensures
            r == self.model_of().next_filter_id,
    {
        self.next_filter_id
    }

    /// The whole abstract state.
    pub closed spec fn model_of(&self) -> StoreModel {
        StoreModel {
            emails: self.emails@.map_values(|r: EmailRow| r@),
            filters: self.filters@.map_values(|f: FilterPattern| f@),
            matched: self.matched@,
            sync_uids: self.sync_uids@.map_values(|p: (String, u32)| (p.0@, p.1)),
            filter_cursors: self.filter_cursors@.map_values(|p: (String, i64)| (p.0@, p.1)),
            next_email_id: self.next_email_id,
            next_filter_id: self.next_filter_id,
        }
    }

    fn find_email_idx(&self, account: &str, uid: u32) -> (r: Option<usize>)
        ensures
            r matches Some(i) ==> i < self.model_of().emails.len() && self.model_of().emails[
                i as int
            ].account == account@ && self.model_of().emails[i as int].uid == uid,
            r is None ==> !has_email(self.model_of().emails, account@, uid),
    {
        let ghost rows = self.model_of().emails;
        let mut i: usize = 0;
        while i < self.emails.len()
            invariant
                i <= rows.len(),
                rows.len() == self.emails@.len(),
                rows == self.model_of().emails,
                forall|j: int|
                    0 <= j < i ==> !((#[trigger] rows[j]).account == account@ && rows[j].uid
                        == uid),
            decreases rows.len() - i,
        {
            let row = &self.emails[i];
            if row.uid == uid && str_eq(row.account.as_str(), account) {
                return Some(i);
            }
            i = i + 1;
        }
        None
    }

    fn matched_contains(&self, id: i64, fid: i64) -> (r: bool)
        ensures
            r == self.model_of().matched.contains((id, fid)),
    {
        let mut i: usize = 0;
        while i < self.matched.len()
            invariant
                i <= self.matched@.len(),
                forall|j: int| 0 <= j < i ==> self.model_of().matched[j] != (id, fid),
            decreases self.matched@.len() - i,
        {
            let p = self.matched[i];
            if p.0 == id && p.1 == fid {
                proof {
                    assert(self.model_of().matched[i as int] == (id, fid));
                }
                return true;
            }
            i = i + 1;
        }
        proof {
            assert forall|j: int|
                0 <= j < self.model_of().matched.len() implies self.model_of().matched[j] != (
                id,
                fid,
            ) by {}
        }
        false
    }

    fn matched_any_fid(&self, id: i64, fids: &Vec<i64>) -> (r: bool)
        ensures
            r == matches_any_fid(self.model_of().matched, id, fids@),
    {
        let mut i: usize = 0;
        while i < fids.len()
            invariant
                i <= fids@.len(),
                forall|j: int|
                    0 <= j < i ==> !self.model_of().matched.contains((id, #[trigger] fids@[j])),
            decreases fids@.len() - i,
        {
            if self.matched_contains(id, fids[i]) {
                return true;
            }
            i = i + 1;
        }
        false
    }

    fn set_read_flags(&mut self, account: &str, uids: &Vec<u32>, read: bool) -> (n: usize)
        requires
            old(self).inv(),
        ensures
            final(self).inv(),
            n == old(self).model_of().emails.filter(mark_pred(account@, uids@)).len(),
            final(self).model_of().emails == old(self).model_of().emails.map_values(
                mark_row_fn(account@, uids@, read),
            ),
            final(self).model_of().filters == old(self).model_of().filters,
            final(self).model_of().matched == old(self).model_of().matched,
            final(self).model_of().sync_uids == old(self).model_of().sync_uids,
            final(self).model_of().filter_cursors == old(self).model_of().filter_cursors,
            final(self).model_of().next_email_id == old(self).model_of().next_email_id,
            final(self).model_of().next_filter_id == old(self).model_of().next_filter_id,
    {
        let ghost rows0 = old(self).model_of().emails;
        let ghost mpred = mark_pred(account@, uids@);
        let ghost mfn = mark_row_fn(account@, uids@, read);
        let mut count: usize = 0;
        let mut i: usize = 0;
        proof {
            assert(rows0.take(0).filter(mpred) =~= Seq::<EmailRowV>::empty());
        }
        while i < self.emails.len()
            invariant
                i <= rows0.len(),
                rows0.len() == self.emails@.len(),
                rows0 == old(self).model_of().emails,
                old(self).inv(),
                mpred == mark_pred(account@, uids@),
                mfn == mark_row_fn(account@, uids@, read),
                forall|k: int| 0 <= k < i ==> self.model_of().emails[k] == mfn(rows0[k]),
                forall|k: int| i <= k < rows0.len() ==> self.model_of().emails[k] == rows0[k],
                count == rows0.take(i as int).filter(mpred).len(),
                count <= i,
                self.model_of().filters == old(self).model_of().filters,
                self.model_of().matched == old(self).model_of().matched,
                self.model_of().sync_uids == old(self).model_of().sync_uids,
                self.model_of().filter_cursors == old(self).model_of().filter_cursors,
                self.model_of().next_email_id == old(self).model_of().next_email_id,
                self.model_of().next_filter_id == old(self).model_of().next_filter_id,
            decreases rows0.len() - i,
        {
            proof {
                lemma_filter_take_step(rows0, mpred, i as int);
                assert(self.model_of().emails[i as int] == self.emails@[i as int]@);
            }
            let ghost prev = self.model_of().emails;
            let row_uid = self.emails[i].uid;
            let hit = uids_contains(uids, row_uid) && str_eq(
                self.emails[i].account.as_str(),
                account,
            );
            if hit {
                let row = self.emails.remove(i);
                let updated = EmailRow {
                    id: row.id,
                    uid: row.uid,
                    message_id: row.message_id,
                    subject: row.subject,
                    sender: row.sender,
                    date: row.date,
                    date_epoch: row.date_epoch,
                    mailbox: row.mailbox,
                    account: row.account,
                    is_read: read,
                    body_html: row.body_html,
                    body_text: row.body_text,
                };
                self.emails.insert(i, updated);
                count = count + 1;
                proof {
                    assert(self.model_of().emails =~= prev.update(i as int, mfn(rows0[i as int])));
                    assert(self.model_of().filters =~= old(self).model_of().filters);
                    assert(self.model_of().matched =~= old(self).model_of().matched);
                    assert(self.model_of().sync_uids =~= old(self).model_of().sync_uids);
                    assert(self.model_of().filter_cursors =~= old(
                        self,
                    ).model_of().filter_cursors);
                }
            } else {
                proof {
                    assert(!mpred(rows0[i as int]));
                    assert(mfn(rows0[i as int]) == rows0[i as int]);
                }
            }
            i = i + 1;
        }
        proof {
            lemma_take_full(rows0);
            assert(self.model_of().emails =~= rows0.map_values(mfn));
            lemma_wf_after_row_edit(old(self).model_of(), self.model_of());
        }
        count
    }

    /// The filter-backfill cursor of the account: highest local id
    /// already scanned, zero before the first backfill.
    pub fn get_filter_last_email_id(&self, account: &str) -> (r: i64)
        ensures
            r == filter_cursor_of(self.model_of(), account@),
    {
        let ghost tbl = self.model_of().filter_cursors;
        let mut i: usize = 0;
        while i < self.filter_cursors.len()
            invariant
                i <= tbl.len(),
                tbl.len() == self.filter_cursors@.len(),
                tbl == self.model_of().filter_cursors,
                forall|j: int| 0 <= j < i ==> (#[trigger] tbl[j]).0 != account@,
            decreases tbl.len() - i,
        {
            let entry = &self.filter_cursors[i];
            if str_eq(entry.0.as_str(), account) {
                proof {
                    lemma_assoc_found(tbl, account@, 0i64, i as int);
                }
                return entry.1;
            }
            i = i + 1;
        }
        proof {
            lemma_assoc_missing(tbl, account@, 0i64);
        }
        0
    }

    /// Records the filter-backfill cursor of the account.
    pub fn set_filter_last_email_id(&mut self, account: &str, last_id: i64)
        requires
            old(self).inv(),
        ensures
            final(self).inv(),
            filter_cursor_of(final(self).model_of(), account@) == last_id,
            forall|a: Seq<char>|
                a != account@ ==> #[trigger] assoc_of(
                    final(self).model_of().filter_cursors,
                    a,
                    0i64,
                ) == assoc_of(old(self).model_of().filter_cursors, a, 0i64),
            final(self).model_of().emails == old(self).model_of().emails,
            final(self).model_of().filters == old(self).model_of().filters,
            final(self).model_of().matched == old(self).model_of().matched,
            final(self).model_of().sync_uids == old(self).model_of().sync_uids,
            final(self).model_of().next_email_id == old(self).model_of().next_email_id,
            final(self).model_of().next_filter_id == old(self).model_of().next_filter_id,
    {
        let ghost tbl = self.model_of().filter_cursors;
        let mut i: usize = 0;
        while i < self.filter_cursors.len()
            invariant
                i <= tbl.len(),
                tbl.len() == self.filter_cursors@.len(),
                tbl == self.model_of().filter_cursors,
                *self == *old(self),
                old(self).inv(),
                forall|j: int| 0 <= j < i ==> (#[trigger] tbl[j]).0 != account@,
            decreases tbl.len() - i,
        {
            let hit = str_eq(self.filter_cursors[i].0.as_str(), account);
            if hit {
                self.filter_cursors[i] = (account.to_owned(), last_id);
                proof {
                    let t2 = self.model_of().filter_cursors;
                    assert(t2 =~= tbl.update(i as int, (account@, last_id)));
                    assert(t2 =~= tbl.update(i as int, (tbl[i as int].0, last_id)));
                    lemma_assoc_found(t2, account@, 0i64, i as int);
                    assert forall|a: Seq<char>| a != account@ implies #[trigger] assoc_of(
                        t2,
                        a,
                        0i64,
                    ) == assoc_of(tbl, a, 0i64) by {
                        lemma_assoc_update_other(tbl, i as int, last_id, a, 0i64);
                    }
                    assert(forall|x: int|
                        0 <= x < t2.len() ==> (#[trigger] t2[x]).0 == tbl[x].0);
                    assert forall|x: int, y: int| 0 <= x < y < t2.len() implies (
                    #[trigger] t2[x]).0 != (#[trigger] t2[y]).0 by {
                        assert(t2[x].0 == tbl[x].0);
                        assert(t2[y].0 == tbl[y].0);
                        lemma_cursor_keys_distinct(old(self).model_of(), x, y);
                    }
                    assert(self.model_of().emails =~= old(self).model_of().emails);
                    assert(self.model_of().filters =~= old(self).model_of().filters);
                    assert(self.model_of().sync_uids =~= old(self).model_of().sync_uids);
                    assert(self.model_of().matched =~= old(self).model_of().matched);
                }
                return ;
            }
            i = i + 1;
        }
        self.filter_cursors.push((account.to_owned(), last_id));
        proof {
            let t2 = self.model_of().filter_cursors;
            assert(t2 =~= tbl.push((account@, last_id)));
            lemma_assoc_found(t2, account@, 0i64, tbl.len() as int);
            assert forall|a: Seq<char>| a != account@ implies #[trigger] assoc_of(t2, a, 0i64)
                == assoc_of(tbl, a, 0i64) by {
                lemma_assoc_push_other(tbl, (account@, last_id), a, 0i64);
            }
            assert(forall|x: int| 0 <= x < tbl.len() ==> #[trigger] t2[x] == tbl[x]);
            assert(t2[tbl.len() as int].0 == account@);
            assert forall|x: int, y: int| 0 <= x < y < t2.len() implies (#[trigger] t2[x]).0 != (
            #[trigger] t2[y]).0 by {
                if y < tbl.len() {
                    lemma_cursor_keys_distinct(old(self).model_of(), x, y);
                } else {
                    assert(t2[x].0 == tbl[x].0);
                    assert(tbl[x].0 != account@);
                }
            }
            assert(self.model_of().emails =~= old(self).model_of().emails);
            assert(self.model_of().filters =~= old(self).model_of().filters);
            assert(self.model_of().sync_uids =~= old(self).model_of().sync_uids);
            assert(self.model_of().matched =~= old(self).model_of().matched);
        }
    }

    /// Recomputes the date epoch of every stored row that lacks one,
    /// from its stored date string.
    pub fn backfill_date_epoch(&mut self) -> (r: Result<(), String>)
        requires
            old(self).inv(),
        ensures
            r is Ok,
            final(self).inv(),
            final(self).model_of().emails == old(self).model_of().emails.map_values(
                backfill_row_fn(),
            ),
            final(self).model_of().filters == old(self).model_of().filters,
            final(self).model_of().matched == old(self).model_of().matched,
            final(self).model_of().sync_uids == old(self).model_of().sync_uids,
            final(self).model_of().filter_cursors == old(self).model_of().filter_cursors,
            final(self).model_of().next_email_id == old(self).model_of().next_email_id,
            final(self).model_of().next_filter_id == old(self).model_of().next_filter_id,
    {
        let ghost rows0 = old(self).model_of().emails;
        let ghost bfn = backfill_row_fn();
        let mut i: usize = 0;
        while i < self.emails.len()
            invariant
                i <= rows0.len(),
                rows0.len() == self.emails@.len(),
                rows0 == old(self).model_of().emails,
                old(self).inv(),
                bfn == backfill_row_fn(),
                forall|k: int| 0 <= k < i ==> self.model_of().emails[k] == bfn(rows0[k]),
                forall|k: int| i <= k < rows0.len() ==> self.model_of().emails[k] == rows0[k],
                self.model_of().filters == old(self).model_of().filters,
                self.model_of().matched == old(self).model_of().matched,
                self.model_of().sync_uids == old(self).model_of().sync_uids,
                self.model_of().filter_cursors == old(self).model_of().filter_cursors,
                self.model_of().next_email_id == old(self).model_of().next_email_id,
                self.model_of().next_filter_id == old(self).model_of().next_filter_id,
            decreases rows0.len() - i,
        {
            proof {
                assert(self.model_of().emails[i as int] == self.emails@[i as int]@);
            }
            let ghost prev = self.model_of().emails;
            if self.emails[i].date_epoch == 0 {
                let parsed = crate::gmail::parse_imap_date_epoch(self.emails[i].date.as_str());
                match parsed {
                    Some(t) => {
                        let row = self.emails.remove(i);
                        let updated = EmailRow {
                            id: row.id,
                            uid: row.uid,
                            message_id: row.message_id,
                            subject: row.subject,
                            sender: row.sender,
                            date: row.date,
                            date_epoch: t,
                            mailbox: row.mailbox,
                            account: row.account,
                            is_read: row.is_read,
                            body_html: row.body_html,
                            body_text: row.body_text,
                        };
                        self.emails.insert(i, updated);
                        proof {
                            assert(self.model_of().emails =~= prev.update(
                                i as int,
                                bfn(rows0[i as int]),
                            ));
                            assert(self.model_of().filters =~= old(self).model_of().filters);
                            assert(self.model_of().matched =~= old(self).model_of().matched);
                            assert(self.model_of().sync_uids =~= old(self).model_of().sync_uids);
                            assert(self.model_of().filter_cursors =~= old(
                                self,
                            ).model_of().filter_cursors);
                        }
                    },
                    None => {
                        proof {
                            assert(bfn(rows0[i as int]) == rows0[i as int]);
                        }
                    },
                }
            } else {
                proof {
                    assert(bfn(rows0[i as int]) == rows0[i as int]);
                }
            }
            i = i + 1;
        }
        proof {
            assert(self.model_of().emails =~= rows0.map_values(bfn));
            lemma_wf_after_row_edit(old(self).model_of(), self.model_of());
        }
        Ok(())
    }

    fn pair_in_account_exec(&self, p: (i64, i64), account: &str) -> (r: bool)
        requires
            self.inv(),
        ensures
            r == pair_in_account(self.model_of().emails, account@, p),
    {
        let ghost rows = self.model_of().emails;
        let mut i: usize = 0;
        while i < self.emails.len()
            invariant
                i <= rows.len(),
                rows.len() == self.emails@.len(),
                rows == self.model_of().emails,
                self.inv(),
                forall|j: int| 0 <= j < i ==> (#[trigger] rows[j]).id != p.0,
            decreases rows.len() - i,
        {
            proof {
                assert(rows[i as int] == self.emails@[i as int]@);
            }
            let row = &self.emails[i];
            if row.id == p.0 {
                let same = str_eq(row.account.as_str(), account);
                proof {
                    if !same {
                        assert forall|k: int|
                            0 <= k < rows.len() && (#[trigger] rows[k]).id == p.0 implies k
                            == i as int by {
                            if k < i as int {
                                lemma_email_ids_sorted(self.model_of(), k, i as int);
                            } else if k > i as int {
                                lemma_email_ids_sorted(self.model_of(), i as int, k);
                            }
                        }
                    }
                }
                return same;
            }
            i = i + 1;
        }
        false
    }

    fn count_account_pairs(&self, account: &str) -> (n: usize)
        requires
            self.inv(),
        ensures
            n == account_pair_count(self.model_of(), account@),
    {
        let ghost m = self.model_of();
        let ghost pred = account_pair_pred(m.emails, account@);
        let mut count: usize = 0;
        let mut i: usize = 0;
        proof {
            assert(m.matched.take(0).filter(pred) =~= Seq::<(i64, i64)>::empty());
        }
        while i < self.matched.len()
            invariant
                i <= m.matched.len(),
                m == self.model_of(),
                m.matched.len() == self.matched@.len(),
                self.inv(),
                pred == account_pair_pred(m.emails, account@),
                count == m.matched.take(i as int).filter(pred).len(),
                count <= i,
            decreases m.matched.len() - i,
        {
            proof {
                lemma_filter_take_step(m.matched, pred, i as int);
            }
            let p = self.matched[i];
            if self.pair_in_account_exec(p, account) {
                count = count + 1;
            }
            i = i + 1;
        }
        proof {
            lemma_take_full(m.matched);
        }
        count
    }

    fn has_filter_id_exec(&self, fid: i64) -> (r: bool)
        ensures
            r == has_filter_id(self.model_of().filters, fid),
    {
        let ghost fs = self.model_of().filters;
        let mut i: usize = 0;
        while i < self.filters.len()
            invariant
                i <= fs.len(),
                fs.len() == self.filters@.len(),
                fs == self.model_of().filters,
                forall|j: int| 0 <= j < i ==> (#[trigger] fs[j]).id != fid,
            decreases fs.len() - i,
        {
            proof {
                assert(fs[i as int] == self.filters@[i as int]@);
            }
            if self.filters[i].id == fid {
                return true;
            }
            i = i + 1;
        }
        false
    }

    fn insert_matches(&mut self, batch: &Vec<EmailRow>, rules: &Vec<FilterPattern>)
        requires
            old(self).inv(),
        ensures
            final(self).inv(),
            forall|p: (i64, i64)|
                #[trigger] final(self).model_of().matched.contains(p) <==> old(
                    self,
                ).model_of().matched.contains(p) || added_pair(
                    row_views(batch@),
                    crate::mail::filters_view(rules@),
                    p,
                ),
            final(self).model_of().emails == old(self).model_of().emails,
            final(self).model_of().filters == old(self).model_of().filters,
            final(self).model_of().sync_uids == old(self).model_of().sync_uids,
            final(self).model_of().filter_cursors == old(self).model_of().filter_cursors,
            final(self).model_of().next_email_id == old(self).model_of().next_email_id,
            final(self).model_of().next_filter_id == old(self).model_of().next_filter_id,
    {
        let ghost bviews = row_views(batch@);
        let ghost rviews = crate::mail::filters_view(rules@);
        let ghost base = old(self).model_of().matched;
        let mut bi: usize = 0;
        proof {
            assert(bviews.take(0) =~= Seq::<EmailRowV>::empty());
        }
        while bi < batch.len()
            invariant
                bi <= bviews.len(),
                bviews.len() == batch@.len(),
                bviews == row_views(batch@),
                rviews == crate::mail::filters_view(rules@),
                base == old(self).model_of().matched,
                old(self).inv(),
                wf_model(self.model_of()),
                forall|p: (i64, i64)|
                    #[trigger] self.model_of().matched.contains(p) <==> base.contains(p)
                        || added_pair(bviews.take(bi as int), rviews, p),
                self.model_of().emails == old(self).model_of().emails,
                self.model_of().filters == old(self).model_of().filters,
                self.model_of().sync_uids == old(self).model_of().sync_uids,
                self.model_of().filter_cursors == old(self).model_of().filter_cursors,
                self.model_of().next_email_id == old(self).model_of().next_email_id,
                self.model_of().next_filter_id == old(self).model_of().next_filter_id,
            decreases bviews.len() - bi,
        {
            let ghost row = bviews[bi as int];
            let rid = batch[bi].id;
            proof {
                assert(bviews[bi as int] == batch@[bi as int]@);
                assert(rid == row.id);
            }
            let mut fj: usize = 0;
            proof {
                assert(rviews.take(0) =~= Seq::<FilterPatternV>::empty());
                assert(forall|p: (i64, i64)| !row_add_pair(row, rviews.take(0), p));
            }
            while fj < rules.len()
                invariant
                    fj <= rviews.len(),
                    rviews.len() == rules@.len(),
                    rviews == crate::mail::filters_view(rules@),
                    bviews == row_views(batch@),
                    bi < bviews.len(),
                    bviews.len() == batch@.len(),
                    row == bviews[bi as int],
                    rid == row.id,
                    base == old(self).model_of().matched,
                    old(self).inv(),
                    wf_model(self.model_of()),
                    forall|p: (i64, i64)|
                        #[trigger] self.model_of().matched.contains(p) <==> base.contains(p)
                            || added_pair(bviews.take(bi as int), rviews, p) || row_add_pair(
                            row,
                            rviews.take(fj as int),
                            p,
                        ),
                    self.model_of().emails == old(self).model_of().emails,
                    self.model_of().filters == old(self).model_of().filters,
                    self.model_of().sync_uids == old(self).model_of().sync_uids,
                    self.model_of().filter_cursors == old(self).model_of().filter_cursors,
                    self.model_of().next_email_id == old(self).model_of().next_email_id,
                    self.model_of().next_filter_id == old(self).model_of().next_filter_id,
                decreases rviews.len() - fj,
            {
                proof {
                    assert(rviews[fj as int] == rules@[fj as int]@);
                }
                let fid = rules[fj].id;
                let hit = rules[fj].enabled && row_matches_filter_exec(&batch[bi], &rules[fj]);
                let ghost prev = self.model_of().matched;
                if hit {
                    if !self.matched_contains(rid, fid) {
                        self.matched.push((rid, fid));
                        proof {
                            let now = self.model_of().matched;
                            assert(now =~= prev.push((rid, fid)));
                            assert forall|p: (i64, i64)| #[trigger] now.contains(p) implies
                                prev.contains(p) || p == (rid, fid) by {
                                let w = choose|w: int| 0 <= w < now.len() && now[w] == p;
                                if w < prev.len() {
                                    assert(prev[w] == p);
                                }
                            }
                            assert forall|p: (i64, i64)|
                                prev.contains(p) || p == (rid, fid) implies #[trigger] now.contains(
                                p,
                            ) by {
                                if prev.contains(p) {
                                    let w = choose|w: int| 0 <= w < prev.len() && prev[w] == p;
                                    assert(now[w] == p);
                                } else {
                                    assert(now[prev.len() as int] == p);
                                }
                            }
                            assert forall|x: int, y: int| 0 <= x < y < now.len() implies (
                            #[trigger] now[x]) != (#[trigger] now[y]) by {
                                if y < prev.len() {
                                    assert(prev[x] == now[x] && prev[y] == now[y]);
                                } else {
                                    assert(now[y] == (rid, fid));
                                    assert(prev[x] == now[x]);
                                    assert(prev.contains(prev[x]));
                                }
                            }
                            assert(self.model_of().emails =~= old(self).model_of().emails);
                            assert(self.model_of().filters =~= old(self).model_of().filters);
                            assert(self.model_of().sync_uids =~= old(self).model_of().sync_uids);
                            assert(self.model_of().filter_cursors =~= old(
                                self,
                            ).model_of().filter_cursors);
                        }
                    }
                }
                proof {
                    assert forall|p: (i64, i64)|
                        #[trigger] self.model_of().matched.contains(p) <==> (base.contains(p)
                            || added_pair(bviews.take(bi as int), rviews, p) || row_add_pair(
                            row,
                            rviews.take(fj + 1),
                            p,
                        )) by {
                        lemma_row_add_step(row, rviews, fj as int, p);
                    }
                }
                fj = fj + 1;
            }
            proof {
                lemma_take_full(rviews);
                assert forall|p: (i64, i64)|
                    #[trigger] self.model_of().matched.contains(p) <==> (base.contains(p)
                        || added_pair(bviews.take(bi + 1), rviews, p)) by {
                    lemma_added_pair_step(bviews, rviews, bi as int, p);
                }
            }
            bi = bi + 1;
        }
        proof {
            lemma_take_full(bviews);
        }
    }
}

impl Storage for MemStorage {
    closed spec fn model(&self) -> StoreModel {
        self.model_of()
    }

    closed spec fn inv(&self) -> bool {
        wf_model(self.model_of())
    }

    proof fn lemma_inv_wf(&self) {
    }

    fn get_last_uid(&self, account: &str) -> (r: Result<u32, String>) {
        let ghost tbl = self.model_of().sync_uids;
        let mut i: usize = 0;
        while i < self.sync_uids.len()
            invariant
                i <= tbl.len(),
                tbl.len() == self.sync_uids@.len(),
                tbl == self.model_of().sync_uids,
                forall|j: int| 0 <= j < i ==> (#[trigger] tbl[j]).0 != account@,
            decreases tbl.len() - i,
        {
            let entry = &self.sync_uids[i];
            if str_eq(entry.0.as_str(), account) {
                proof {
                    lemma_assoc_found(tbl, account@, 0u32, i as int);
                }
                return Ok(entry.1);
            }
            i = i + 1;
        }
        proof {
            lemma_assoc_missing(tbl, account@, 0u32);
        }
        Ok(0)
    }

    fn set_last_uid(&mut self, account: &str, last_uid: u32) -> (r: Result<(), String>) {
        let ghost tbl = self.model_of().sync_uids;
        let mut i: usize = 0;
        while i < self.sync_uids.len()
            invariant
                i <= tbl.len(),
                tbl.len() == self.sync_uids@.len(),
                tbl == self.model_of().sync_uids,
                *self == *old(self),
                old(self).inv(),
                forall|j: int| 0 <= j < i ==> (#[trigger] tbl[j]).0 != account@,
            decreases tbl.len() - i,
        {
            let hit = str_eq(self.sync_uids[i].0.as_str(), account);
            if hit {
                self.sync_uids[i] = (account.to_owned(), last_uid);
                proof {
                    let t2 = self.model_of().sync_uids;
                    assert(t2 =~= tbl.update(i as int, (account@, last_uid)));
                    assert(t2 =~= tbl.update(i as int, (tbl[i as int].0, last_uid)));
                    lemma_assoc_found(t2, account@, 0u32, i as int);
                    assert forall|a: Seq<char>| a != account@ implies #[trigger] assoc_of(
                        t2,
                        a,
                        0u32,
                    ) == assoc_of(tbl, a, 0u32) by {
                        lemma_assoc_update_other(tbl, i as int, last_uid, a, 0u32);
                    }
                    assert(forall|x: int|
                        0 <= x < t2.len() ==> (#[trigger] t2[x]).0 == tbl[x].0);
                    assert(t2.len() == old(self).model_of().sync_uids.len());
                    assert forall|x: int, y: int| 0 <= x < y < t2.len() implies (
                    #[trigger] t2[x]).0 != (#[trigger] t2[y]).0 by {
                        assert(t2[x].0 == tbl[x].0);
                        assert(t2[y].0 == tbl[y].0);
                        lemma_sync_keys_distinct(old(self).model_of(), x, y);
                    }
                    assert(self.model_of().emails =~= old(self).model_of().emails);
                    assert(self.model_of().filters =~= old(self).model_of().filters);
                    assert(self.model_of().filter_cursors =~= old(self).model_of().filter_cursors);
                    assert(self.model_of().matched =~= old(self).model_of().matched);
                }
                return Ok(());
            }
            i = i + 1;
        }
        self.sync_uids.push((account.to_owned(), last_uid));
        proof {
            let t2 = self.model_of().sync_uids;
            assert(t2 =~= tbl.push((account@, last_uid)));
            lemma_assoc_found(t2, account@, 0u32, tbl.len() as int);
            assert forall|a: Seq<char>| a != account@ implies #[trigger] assoc_of(t2, a, 0u32)
                == assoc_of(tbl, a, 0u32) by {
                lemma_assoc_push_other(tbl, (account@, last_uid), a, 0u32);
            }
            assert(forall|x: int| 0 <= x < tbl.len() ==> #[trigger] t2[x] == tbl[x]);
            assert(t2[tbl.len() as int].0 == account@);
            assert forall|x: int, y: int| 0 <= x < y < t2.len() implies (#[trigger] t2[x]).0 != (
            #[trigger] t2[y]).0 by {
                if y < tbl.len() {
                } else {
                    assert(t2[x].0 == tbl[x].0);
                    assert(tbl[x].0 != account@);
                }
            }
            assert(self.model_of().emails =~= old(self).model_of().emails);
            assert(self.model_of().filters =~= old(self).model_of().filters);
            assert(self.model_of().filter_cursors =~= old(self).model_of().filter_cursors);
            assert(self.model_of().matched =~= old(self).model_of().matched);
        }
        Ok(())
    }

    fn get_max_uid(&self, account: &str) -> (r: Result<Option<u32>, String>) {
        let ghost rows = self.model_of().emails;
        let mut best: Option<u32> = None;
        let mut i: usize = 0;
        while i < self.emails.len()
            invariant
                i <= rows.len(),
                rows.len() == self.emails@.len(),
                rows == self.model_of().emails,
                best is None <==> forall|j: int|
                    0 <= j < i ==> (#[trigger] rows[j]).account != account@,
                best matches Some(mx) ==> exists|j: int|
                    0 <= j < i && (#[trigger] rows[j]).account == account@ && rows[j].uid == mx,
                best matches Some(mx) ==> forall|j: int|
                    0 <= j < i && (#[trigger] rows[j]).account == account@ ==> rows[j].uid <= mx,
            decreases rows.len() - i,
        {
            proof {
                assert(rows[i as int] == self.emails@[i as int]@);
            }
            let row = &self.emails[i];
            if str_eq(row.account.as_str(), account) {
                match best {
                    None => {
                        best = Some(row.uid);
                    },
                    Some(mx) => {
                        if row.uid > mx {
                            best = Some(row.uid);
                        }
                    },
                }
            }
            i = i + 1;
        }
        Ok(best)
    }

    fn count_emails(&self, account: &str, unread_only: bool) -> (r: Result<u64, String>) {
        let ghost rows = self.model_of().emails;
        let ghost pred = scope_pred(account@, unread_only);
        let mut count: usize = 0;
        let mut i: usize = 0;
        proof {
            assert(rows.take(0).filter(pred) =~= Seq::<EmailRowV>::empty());
        }
        while i < self.emails.len()
            invariant
                i <= rows.len(),
                rows.len() == self.emails@.len(),
                rows == self.model_of().emails,
                pred == scope_pred(account@, unread_only),
                count == rows.take(i as int).filter(pred).len(),
                count <= i,
            decreases rows.len() - i,
        {
            proof {
                lemma_filter_take_step(rows, pred, i as int);
            }
            let row = &self.emails[i];
            if (!unread_only || !row.is_read) && str_eq(row.account.as_str(), account) {
                count = count + 1;
            }
            i = i + 1;
        }
        proof {
            lemma_take_full(rows);
        }
        Ok(count as u64)
    }

    fn list_emails(&self, account: &str, unread_only: bool, limit: u32, offset: u32) -> (r: Result<
        Vec<StoredEmail>,
        String,
    >) {
        let ghost rows = self.model_of().emails;
        let ghost pred = scope_pred(account@, unread_only);
        let mut filtered: Vec<EmailRow> = Vec::new();
        let mut i: usize = 0;
        proof {
            assert(rows.take(0).filter(pred) =~= Seq::<EmailRowV>::empty());
            assert(row_views(filtered@) =~= Seq::<EmailRowV>::empty());
        }
        while i < self.emails.len()
            invariant
                i <= rows.len(),
                rows.len() == self.emails@.len(),
                rows == self.model_of().emails,
                pred == scope_pred(account@, unread_only),
                row_views(filtered@) == rows.take(i as int).filter(pred),
            decreases rows.len() - i,
        {
            proof {
                lemma_filter_take_step(rows, pred, i as int);
                assert(rows[i as int] == self.emails@[i as int]@);
            }
            let row = &self.emails[i];
            if (!unread_only || !row.is_read) && str_eq(row.account.as_str(), account) {
                filtered.push(clone_row(row));
                proof {
                    assert(row_views(filtered@) =~= rows.take(i as int).filter(pred).push(
                        rows[i as int],
                    ));
                }
            }
            i = i + 1;
        }
        proof {
            lemma_take_full(rows);
            assert(row_views(filtered@) == scope_rows(rows, account@, unread_only));
        }
        let out = sort_and_page(&filtered, limit, offset);
        Ok(out)
    }

    fn list_filtered_emails(
        &self,
        account: &str,
        filter_ids: &Vec<i64>,
        unread_only: bool,
        limit: u32,
        offset: u32,
    ) -> (r: Result<Vec<StoredEmail>, String>) {
        let ghost m = self.model_of();
        let ghost rows = m.emails;
        let ghost pred = fscope_pred(account@, unread_only, filter_ids@, m.matched);
        let mut filtered: Vec<EmailRow> = Vec::new();
        let mut i: usize = 0;
        proof {
            assert(rows.take(0).filter(pred) =~= Seq::<EmailRowV>::empty());
            assert(row_views(filtered@) =~= Seq::<EmailRowV>::empty());
        }
        while i < self.emails.len()
            invariant
                i <= rows.len(),
                rows.len() == self.emails@.len(),
                m == self.model_of(),
                rows == m.emails,
                pred == fscope_pred(account@, unread_only, filter_ids@, m.matched),
                row_views(filtered@) == rows.take(i as int).filter(pred),
            decreases rows.len() - i,
        {
            proof {
                lemma_filter_take_step(rows, pred, i as int);
                assert(rows[i as int] == self.emails@[i as int]@);
            }
            let rid = self.emails[i].id;
            let in_sc = {
                let row = &self.emails[i];
                (!unread_only || !row.is_read) && str_eq(row.account.as_str(), account)
            };
            if in_sc && self.matched_any_fid(rid, filter_ids) {
                filtered.push(clone_row(&self.emails[i]));
                proof {
                    assert(row_views(filtered@) =~= rows.take(i as int).filter(pred).push(
                        rows[i as int],
                    ));
                }
            }
            i = i + 1;
        }
        proof {
            lemma_take_full(rows);
            assert(row_views(filtered@) == fscope_rows(m, account@, unread_only, filter_ids@));
        }
        let out = sort_and_page(&filtered, limit, offset);
        Ok(out)
    }

    fn count_filtered_emails(&self, account: &str, filter_ids: &Vec<i64>, unread_only: bool) -> (r:
        Result<u64, String>) {
        let ghost m = self.model_of();
        let ghost rows = m.emails;
        let ghost pred = fscope_pred(account@, unread_only, filter_ids@, m.matched);
        let mut count: usize = 0;
        let mut i: usize = 0;
        proof {
            assert(rows.take(0).filter(pred) =~= Seq::<EmailRowV>::empty());
        }
        while i < self.emails.len()
            invariant
                i <= rows.len(),
                rows.len() == self.emails@.len(),
                m == self.model_of(),
                rows == m.emails,
                pred == fscope_pred(account@, unread_only, filter_ids@, m.matched),
                count == rows.take(i as int).filter(pred).len(),
                count <= i,
            decreases rows.len() - i,
        {
            proof {
                lemma_filter_take_step(rows, pred, i as int);
                assert(rows[i as int] == self.emails@[i as int]@);
            }
            let rid = self.emails[i].id;
            let in_sc = {
                let row = &self.emails[i];
                (!unread_only || !row.is_read) && str_eq(row.account.as_str(), account)
            };
            if in_sc && self.matched_any_fid(rid, filter_ids) {
                count = count + 1;
            }
            i = i + 1;
        }
        proof {
            lemma_take_full(rows);
        }
        Ok(count as u64)
    }

    fn filter_match_counts(&self, account: &str, unread_only: bool) -> (r: Result<
        Vec<(i64, u64)>,
        String,
    >) {
        let ghost m = self.model_of();
        let mut out: Vec<(i64, u64)> = Vec::new();
        let mut f: usize = 0;
        while f < self.filters.len()
            invariant
                f <= m.filters.len(),
                m == self.model_of(),
                m.filters.len() == self.filters@.len(),
                out@.len() == f,
                forall|t: int|
                    0 <= t < f ==> (#[trigger] out@[t]).0 == m.filters[t].id && out@[t].1
                        == match_count_of(m, account@, unread_only, m.filters[t].id),
            decreases m.filters.len() - f,
        {
            proof {
                assert(m.filters[f as int] == self.filters@[f as int]@);
            }
            let fid = self.filters[f].id;
            let ghost cpred = count_pred(m, account@, unread_only, fid);
            let mut count: usize = 0;
            let mut i: usize = 0;
            proof {
                assert(m.emails.take(0).filter(cpred) =~= Seq::<EmailRowV>::empty());
            }
            while i < self.emails.len()
                invariant
                    i <= m.emails.len(),
                    m == self.model_of(),
                    m.emails.len() == self.emails@.len(),
                    cpred == count_pred(m, account@, unread_only, fid),
                    count == m.emails.take(i as int).filter(cpred).len(),
                    count <= i,
                decreases m.emails.len() - i,
            {
                proof {
                    lemma_filter_take_step(m.emails, cpred, i as int);
                    assert(m.emails[i as int] == self.emails@[i as int]@);
                }
                let rid = self.emails[i].id;
                let in_sc = {
                    let row = &self.emails[i];
                    (!unread_only || !row.is_read) && str_eq(row.account.as_str(), account)
                };
                if in_sc && self.matched_contains(rid, fid) {
                    count = count + 1;
                }
                i = i + 1;
            }
            proof {
                lemma_take_full(m.emails);
            }
            out.push((fid, count as u64));
            f = f + 1;
        }
        Ok(out)
    }

    fn get_filters(&self) -> (r: Result<Vec<FilterPattern>, String>) {
        let ghost fs = self.model_of().filters;
        let mut out: Vec<FilterPattern> = Vec::new();
        let mut i: usize = 0;
        proof {
            assert(crate::mail::filters_view(out@) =~= fs.take(0));
        }
        while i < self.filters.len()
            invariant
                i <= fs.len(),
                fs.len() == self.filters@.len(),
                fs == self.model_of().filters,
                crate::mail::filters_view(out@) == fs.take(i as int),
            decreases fs.len() - i,
        {
            proof {
                assert(fs[i as int] == self.filters@[i as int]@);
            }
            out.push(crate::mail::clone_filter(&self.filters[i]));
            proof {
                assert(crate::mail::filters_view(out@) =~= fs.take(i as int).push(fs[i as int]));
                assert(fs.take(i + 1) =~= fs.take(i as int).push(fs[i as int]));
            }
            i = i + 1;
        }
        proof {
            lemma_take_full(fs);
        }
        Ok(out)
    }

    fn mark_emails_read(&mut self, account: &str, uids: &Vec<u32>) -> (r: Result<usize, String>) {
        let n = self.set_read_flags(account, uids, true);
        Ok(n)
    }

    fn mark_emails_unread(&mut self, account: &str, uids: &Vec<u32>) -> (r: Result<usize, String>) {
        let n = self.set_read_flags(account, uids, false);
        Ok(n)
    }

    fn get_email_body(&self, account: &str, uid: u32) -> (r: Result<
        Option<crate::gmail::EmailBody>,
        String,
    >) {
        let ghost rows = self.model_of().emails;
        match self.find_email_idx(account, uid) {
            None => Ok(None),
            Some(idx) => {
                proof {
                    lemma_email_idx_unique(self.model_of(), account@, uid, idx as int);
                }
                let row = &self.emails[idx];
                proof {
                    assert(rows[idx as int] == self.emails@[idx as int]@);
                }
                if row.body_html.is_none() && row.body_text.is_none() {
                    Ok(None)
                } else {
                    Ok(
                        Some(
                            crate::gmail::EmailBody {
                                html: crate::gmail::clone_opt_string(&row.body_html),
                                text: crate::gmail::clone_opt_string(&row.body_text),
                            },
                        ),
                    )
                }
            },
        }
    }

    fn set_email_bodies(&mut self, account: &str, bodies: &Vec<crate::gmail::GmailEmailBody>) -> (r:
        Result<(), String>) {
        let ghost bvs = body_views(bodies@);
        let ghost rows0 = old(self).model_of().emails;
        let ghost stepf = set_body_step(account@);
        let mut i: usize = 0;
        proof {
            assert(bvs.take(0) =~= Seq::<crate::gmail::GmailEmailBodyV>::empty());
        }
        while i < bodies.len()
            invariant
                i <= bvs.len(),
                bvs.len() == bodies@.len(),
                bvs == body_views(bodies@),
                stepf == set_body_step(account@),
                wf_model(self.model_of()),
                self.model_of().emails == set_body_seq(rows0, account@, bvs.take(i as int)),
                self.model_of().filters == old(self).model_of().filters,
                self.model_of().matched == old(self).model_of().matched,
                self.model_of().sync_uids == old(self).model_of().sync_uids,
                self.model_of().filter_cursors == old(self).model_of().filter_cursors,
                self.model_of().next_email_id == old(self).model_of().next_email_id,
                self.model_of().next_filter_id == old(self).model_of().next_filter_id,
            decreases bvs.len() - i,
        {
            let ghost prev = self.model_of().emails;
            let ghost pm = self.model_of();
            let b = &bodies[i];
            match self.find_email_idx(account, b.uid) {
                Some(idx) => {
                    proof {
                        lemma_email_idx_unique(pm, account@, b@.uid, idx as int);
                    }
                    let row = self.emails.remove(idx);
                    let updated = EmailRow {
                        id: row.id,
                        uid: row.uid,
                        message_id: row.message_id,
                        subject: row.subject,
                        sender: row.sender,
                        date: row.date,
                        date_epoch: row.date_epoch,
                        mailbox: row.mailbox,
                        account: row.account,
                        is_read: row.is_read,
                        body_html: crate::gmail::clone_opt_string(&b.body.html),
                        body_text: crate::gmail::clone_opt_string(&b.body.text),
                    };
                    self.emails.insert(idx, updated);
                    proof {
                        assert(self.model_of().emails =~= prev.update(
                            idx as int,
                            EmailRowV {
                                body_html: b@.body.html,
                                body_text: b@.body.text,
                                ..prev[idx as int]
                            },
                        ));
                        assert(self.model_of().emails == set_body_one(prev, account@, b@));
                        assert(self.model_of().filters =~= old(self).model_of().filters);
                        assert(self.model_of().matched =~= old(self).model_of().matched);
                        assert(self.model_of().sync_uids =~= old(self).model_of().sync_uids);
                        assert(self.model_of().filter_cursors =~= old(
                            self,
                        ).model_of().filter_cursors);
                        lemma_wf_after_row_edit(pm, self.model_of());
                    }
                },
                None => {
                    proof {
                        assert(self.model_of().emails == set_body_one(prev, account@, b@));
                    }
                },
            }
            proof {
                assert(bvs.take(i + 1).drop_last() =~= bvs.take(i as int));
                assert(bvs.take(i + 1).last() == bvs[i as int]);
                assert(bvs[i as int] == b@);
                assert(set_body_seq(rows0, account@, bvs.take(i + 1)) == stepf(
                    set_body_seq(rows0, account@, bvs.take(i as int)),
                    bvs[i as int],
                ));
            }
            i = i + 1;
        }
        proof {
            lemma_take_full(bvs);
        }
        Ok(())
    }

    fn refresh_filtered_emails(&mut self, account: &str, chunk_size: u32, force_full: bool) -> (r:
        Result<usize, String>) {
        let ghost m0 = old(self).model_of();
        let ghost keepp = keep_pair_pred(m0.emails, account@);
        if force_full {
            let mut keptp: Vec<(i64, i64)> = Vec::new();
            let mut i: usize = 0;
            proof {
                assert(m0.matched.take(0).filter(keepp) =~= Seq::<(i64, i64)>::empty());
            }
            while i < self.matched.len()
                invariant
                    i <= m0.matched.len(),
                    m0 == old(self).model_of(),
                    *self == *old(self),
                    old(self).inv(),
                    m0.matched.len() == self.matched@.len(),
                    keepp == keep_pair_pred(m0.emails, account@),
                    keptp@ == m0.matched.take(i as int).filter(keepp),
                decreases m0.matched.len() - i,
            {
                proof {
                    lemma_filter_take_step(m0.matched, keepp, i as int);
                }
                let p = self.matched[i];
                if !self.pair_in_account_exec(p, account) {
                    keptp.push(p);
                }
                i = i + 1;
            }
            proof {
                lemma_take_full(m0.matched);
            }
            self.matched = keptp;
            proof {
                assert forall|x: int, y: int| 0 <= x < y < m0.matched.len() implies #[trigger] m0.matched[x]
                    != #[trigger] m0.matched[y] by {
                    lemma_matched_distinct(m0, x, y);
                }
                crate::folds::lemma_filter_distinct(m0.matched, keepp);
                assert(self.model_of().emails =~= old(self).model_of().emails);
                assert(self.model_of().filters =~= old(self).model_of().filters);
                assert(self.model_of().sync_uids =~= old(self).model_of().sync_uids);
                assert(self.model_of().filter_cursors =~= old(self).model_of().filter_cursors);
                assert(wf_model(self.model_of()));
            }
            self.set_filter_last_email_id(account, 0);
            proof {
                assert forall|a: Seq<char>| a != account@ implies #[trigger] filter_cursor_of(
                    self.model_of(),
                    a,
                ) == filter_cursor_of(m0, a) by {}
            }
        }
        let mut cur = self.get_filter_last_email_id(account);
        let cnt = self.count_account_pairs(account);
        if cnt == 0 && cur > 0 {
            cur = 0;
            self.set_filter_last_email_id(account, 0);
            proof {
                assert forall|a: Seq<char>| a != account@ implies #[trigger] filter_cursor_of(
                    self.model_of(),
                    a,
                ) == filter_cursor_of(m0, a) by {}
            }
        }
        let ghost kept = refresh_kept_matched(m0, account@, force_full);
        proof {
            assert(self.model_of().matched == kept);
            assert(cur == refresh_start_cursor(m0, account@, force_full));
            assert(self.model_of().emails == m0.emails);
        }
        let ghost bp = batch_pred(account@, cur);
        let mut batch: Vec<EmailRow> = Vec::new();
        let mut i: usize = 0;
        proof {
            assert(m0.emails.take(0).filter(bp) =~= Seq::<EmailRowV>::empty());
            assert(row_views(batch@) =~= Seq::<EmailRowV>::empty());
        }
        while i < self.emails.len()
            invariant
                i <= m0.emails.len(),
                m0.emails.len() == self.emails@.len(),
                m0.emails == self.model_of().emails,
                bp == batch_pred(account@, cur),
                row_views(batch@) == m0.emails.take(i as int).filter(bp),
                wf_model(self.model_of()),
                self.model_of().matched == kept,
                self.model_of().filters == m0.filters,
                self.model_of().sync_uids == m0.sync_uids,
                self.model_of().next_email_id == m0.next_email_id,
                self.model_of().next_filter_id == m0.next_filter_id,
                filter_cursor_of(self.model_of(), account@) == cur,
                forall|a: Seq<char>|
                    a != account@ ==> #[trigger] filter_cursor_of(self.model_of(), a)
                        == filter_cursor_of(m0, a),
            decreases m0.emails.len() - i,
        {
            proof {
                lemma_filter_take_step(m0.emails, bp, i as int);
                assert(m0.emails[i as int] == self.emails@[i as int]@);
            }
            let row = &self.emails[i];
            if row.id > cur && str_eq(row.account.as_str(), account) {
                batch.push(clone_row(row));
                proof {
                    assert(row_views(batch@) =~= m0.emails.take(i as int).filter(bp).push(
                        m0.emails[i as int],
                    ));
                }
            }
            i = i + 1;
        }
        proof {
            lemma_take_full(m0.emails);
        }
        if batch.len() > chunk_size as usize {
            batch.truncate(chunk_size as usize);
        }
        proof {
            assert(row_views(batch@) =~= refresh_batch(m0.emails, account@, cur, chunk_size));
        }
        if batch.len() == 0 {
            return Ok(0);
        }
        let rules = match self.get_filters() {
            Ok(v) => v,
            Err(e) => {
                return Err(e);
            },
        };
        let last_id = batch[batch.len() - 1].id;
        proof {
            assert(row_views(batch@).last() == batch@[batch@.len() - 1]@);
        }
        self.insert_matches(&batch, &rules);
        self.set_filter_last_email_id(account, last_id);
        proof {
            assert forall|a: Seq<char>| a != account@ implies #[trigger] filter_cursor_of(
                self.model_of(),
                a,
            ) == filter_cursor_of(m0, a) by {}
            assert forall|p: (i64, i64)|
                #[trigger] self.model_of().matched.contains(p) <==> kept.contains(p) || added_pair(
                    refresh_batch(m0.emails, account@, cur, chunk_size),
                    m0.filters,
                    p,
                ) by {}
            assert(filter_cursor_of(self.model_of(), account@) == last_id);
        }
        Ok(batch.len())
    }

    fn save_filters(&mut self, patterns: &Vec<FilterPattern>) -> (r: Result<
        Vec<FilterPattern>,
        String,
    >) {
        let ghost m0 = old(self).model_of();
        let ghost ex = m0.filters;
        let ghost ps = crate::mail::filters_view(patterns@);
        let ghost next0 = m0.next_filter_id;
        let ghost cp = claimed_pred(ps);
        let ghost cf = claim_fn(ps);
        let ghost up = updated_pred(ps);
        let mut keptf: Vec<FilterPattern> = Vec::new();
        let mut refresh_all: Vec<FilterPattern> = Vec::new();
        let mut survivor_ids: Vec<i64> = Vec::new();
        let mut k: usize = 0;
        proof {
            assert(ex.take(0).filter(cp) =~= Seq::<FilterPatternV>::empty());
            assert(ex.take(0).filter(up) =~= Seq::<FilterPatternV>::empty());
            assert(crate::mail::filters_view(keptf@) =~= ex.take(0).filter(cp).map_values(cf));
            assert(crate::mail::filters_view(refresh_all@) =~= ex.take(0).filter(up).map_values(
                cf,
            ));
        }
        while k < self.filters.len()
            invariant
                k <= ex.len(),
                ex.len() == self.filters@.len(),
                m0 == old(self).model_of(),
                ex == m0.filters,
                ps == crate::mail::filters_view(patterns@),
                *self == *old(self),
                old(self).inv(),
                cp == claimed_pred(ps),
                cf == claim_fn(ps),
                up == updated_pred(ps),
                crate::mail::filters_view(keptf@) == ex.take(k as int).filter(cp).map_values(cf),
                crate::mail::filters_view(refresh_all@) == ex.take(k as int).filter(up).map_values(
                    cf,
                ),
                forall|fid: i64|
                    survivor_ids@.contains(fid) <==> match_kept_fid(ex.take(k as int), ps, fid),
                forall|x: int|
                    0 <= x < keptf@.len() ==> exists|w: int|
                        0 <= w < k && (#[trigger] crate::mail::filters_view(keptf@)[x]).id == (
                        #[trigger] ex[w]).id,
                forall|x: int, y: int|
                    0 <= x < y < keptf@.len() ==> #[trigger] crate::mail::filters_view(
                        keptf@,
                    )[x].id < #[trigger] crate::mail::filters_view(keptf@)[y].id,
            decreases ex.len() - k,
        {
            proof {
                lemma_filter_take_step(ex, cp, k as int);
                lemma_filter_take_step(ex, up, k as int);
                assert(ex[k as int] == self.filters@[k as int]@);
            }
            let fid = self.filters[k].id;
            let pos = first_pattern_pos(patterns, fid);
            let ghost keptf_before = crate::mail::filters_view(keptf@);
            if pos < patterns.len() {
                proof {
                    assert(ps[pos as int] == patterns@[pos as int]@);
                    assert(cp(ex[k as int]));
                    assert(cf(ex[k as int]) == FilterPatternV {
                        id: fid,
                        name: ps[pos as int].name,
                        pattern: ps[pos as int].pattern,
                        field: ps[pos as int].field,
                        is_regex: ps[pos as int].is_regex,
                        enabled: ps[pos as int].enabled,
                    });
                }
                let p = &patterns[pos];
                keptf.push(
                    FilterPattern {
                        id: fid,
                        name: p.name.clone(),
                        pattern: p.pattern.clone(),
                        field: p.field,
                        is_regex: p.is_regex,
                        enabled: p.enabled,
                    },
                );
                proof {
                    assert(crate::mail::filters_view(keptf@) =~= keptf_before.push(
                        cf(ex[k as int]),
                    ));
                    assert forall|x: int, y: int|
                        0 <= x < y < keptf@.len() implies #[trigger] crate::mail::filters_view(
                        keptf@,
                    )[x].id < #[trigger] crate::mail::filters_view(keptf@)[y].id by {
                        let kv = crate::mail::filters_view(keptf@);
                        if y == kv.len() - 1 {
                            assert(kv[x] == keptf_before[x]);
                            let w = choose|w: int|
                                0 <= w < k && (#[trigger] keptf_before[x]).id == (
                                #[trigger] ex[w]).id;
                            if w < k as int {
                                lemma_filter_ids_distinct(m0, w, k as int);
                            }
                        } else {
                            assert(kv[x] == keptf_before[x] && kv[y] == keptf_before[y]);
                        }
                    }
                }
                let ghost sv_before = survivor_ids@;
                let changed = !match_affecting_eq_exec(&self.filters[k], &patterns[pos]);
                if changed {
                    proof {
                        assert(up(ex[k as int]));
                    }
                    refresh_all.push(
                        FilterPattern {
                            id: fid,
                            name: p.name.clone(),
                            pattern: p.pattern.clone(),
                            field: p.field,
                            is_regex: p.is_regex,
                            enabled: p.enabled,
                        },
                    );
                    proof {
                        assert(crate::mail::filters_view(refresh_all@) =~= ex.take(
                            k as int,
                        ).filter(up).map_values(cf).push(cf(ex[k as int])));
                    }
                } else {
                    proof {
                        assert(!up(ex[k as int]));
                    }
                    survivor_ids.push(fid);
                }
                proof {
                    let sv_now = survivor_ids@;
                    assert forall|f2: i64| sv_now.contains(f2) <==> match_kept_fid(
                        ex.take(k + 1),
                        ps,
                        f2,
                    ) by {
                        lemma_match_kept_step(ex, ps, k as int, f2);
                        if changed {
                            assert(sv_now == sv_before);
                            assert(!match_affecting_eq(ex[k as int], ps[pos as int]));
                        } else {
                            assert(sv_now =~= sv_before.push(ex[k as int].id));
                            if sv_now.contains(f2) {
                                let w = choose|w: int| 0 <= w < sv_now.len() && sv_now[w] == f2;
                                if w < sv_before.len() {
                                    assert(sv_before[w] == f2);
                                    assert(sv_before.contains(f2));
                                } else {
                                    assert(f2 == ex[k as int].id);
                                }
                            }
                            if match_kept_fid(ex.take(k as int), ps, f2) {
                                assert(sv_before.contains(f2));
                                let w = choose|w: int|
                                    0 <= w < sv_before.len() && sv_before[w] == f2;
                                assert(sv_now[w] == f2);
                            }
                            if ex[k as int].id == f2 && has_filter_id(ps, f2)
                                && match_affecting_eq(ex[k as int], ps[first_pattern_idx(ps, f2)]) {
                                assert(sv_now[sv_before.len() as int] == f2);
                            }
                        }
                    }
                }
            } else {
                proof {
                    assert(!cp(ex[k as int]));
                    assert(!up(ex[k as int]));
                    assert forall|f2: i64| survivor_ids@.contains(f2) <==> match_kept_fid(
                        ex.take(k + 1),
                        ps,
                        f2,
                    ) by {
                        lemma_match_kept_step(ex, ps, k as int, f2);
                    }
                }
            }
            k = k + 1;
        }
        proof {
            lemma_take_full(ex);
        }
        let mut inserted: Vec<FilterPattern> = Vec::new();
        let mut i: usize = 0;
        proof {
            assert(crate::mail::filters_view(inserted@) =~= inserted_upto(ex, ps, next0, 0));
        }
        while i < patterns.len()
            invariant
                i <= ps.len(),
                ps.len() == patterns@.len(),
                ps == crate::mail::filters_view(patterns@),
                m0 == old(self).model_of(),
                ex == m0.filters,
                next0 == m0.next_filter_id,
                *self == *old(self),
                old(self).inv(),
                next0 + ps.len() <= i64::MAX,
                crate::mail::filters_view(inserted@) == inserted_upto(ex, ps, next0, i as int),
                inserted@.len() <= i,
                forall|x: int|
                    0 <= x < inserted@.len() ==> (#[trigger] crate::mail::filters_view(
                        inserted@,
                    )[x]).id == next0 + x,
            decreases ps.len() - i,
        {
            proof {
                assert(ps[i as int] == patterns@[i as int]@);
            }
            let fid = patterns[i].id;
            let known = self.has_filter_id_exec(fid);
            let dup = has_dup_before(patterns, i, fid);
            let ghost ins_before = crate::mail::filters_view(inserted@);
            if !known || dup {
                proof {
                    assert(is_insert(ex, ps, i as int));
                }
                let nid = self.next_filter_id + (inserted.len() as i64);
                let p = &patterns[i];
                inserted.push(
                    FilterPattern {
                        id: nid,
                        name: p.name.clone(),
                        pattern: p.pattern.clone(),
                        field: p.field,
                        is_regex: p.is_regex,
                        enabled: p.enabled,
                    },
                );
                proof {
                    assert(crate::mail::filters_view(inserted@) =~= ins_before.push(
                        FilterPatternV {
                            id: (next0 + ins_before.len()) as i64,
                            name: ps[i as int].name,
                            pattern: ps[i as int].pattern,
                            field: ps[i as int].field,
                            is_regex: ps[i as int].is_regex,
                            enabled: ps[i as int].enabled,
                        },
                    ));
                }
            } else {
                proof {
                    assert(!is_insert(ex, ps, i as int));
                }
            }
            i = i + 1;
        }
        let ins_len = inserted.len();
        let ghost insv = inserted_upto(ex, ps, next0, ps.len() as int);
        let mut t: usize = 0;
        let ghost refresh_upd = ex.filter(up).map_values(cf);
        while t < inserted.len()
            invariant
                t <= inserted@.len(),
                crate::mail::filters_view(inserted@) == insv,
                insv.len() == inserted@.len(),
                crate::mail::filters_view(refresh_all@) == refresh_upd + insv.take(t as int),
            decreases inserted@.len() - t,
        {
            proof {
                assert(insv[t as int] == inserted@[t as int]@);
            }
            refresh_all.push(crate::mail::clone_filter(&inserted[t]));
            proof {
                assert(insv.take(t + 1) =~= insv.take(t as int).push(insv[t as int]));
                assert(crate::mail::filters_view(refresh_all@) =~= (refresh_upd + insv.take(
                    t as int,
                )).push(insv[t as int]));
                assert(crate::mail::filters_view(refresh_all@) =~= refresh_upd + insv.take(t + 1));
            }
            t = t + 1;
        }
        proof {
            lemma_take_full(insv);
            assert(crate::mail::filters_view(refresh_all@) == saved_refresh_filters(
                ex,
                ps,
                next0,
            ));
        }
        let ghost keptv = saved_kept_filters(ex, ps);
        keptf.append(&mut inserted);
        proof {
            assert(crate::mail::filters_view(keptf@) =~= keptv + insv);
        }
        let ghost survp = pair_kept_pred(ex, ps);
        let mut newm: Vec<(i64, i64)> = Vec::new();
        let mut q: usize = 0;
        proof {
            assert(m0.matched.take(0).filter(survp) =~= Seq::<(i64, i64)>::empty());
        }
        while q < self.matched.len()
            invariant
                q <= m0.matched.len(),
                m0 == old(self).model_of(),
                m0.matched.len() == self.matched@.len(),
                m0.matched == self.model_of().matched,
                *self == *old(self),
                old(self).inv(),
                survp == pair_kept_pred(ex, ps),
                ex == m0.filters,
                ps == crate::mail::filters_view(patterns@),
                forall|fid: i64| survivor_ids@.contains(fid) <==> match_kept_fid(ex, ps, fid),
                newm@ == m0.matched.take(q as int).filter(survp),
            decreases m0.matched.len() - q,
        {
            proof {
                lemma_filter_take_step(m0.matched, survp, q as int);
            }
            let p = self.matched[q];
            if ids_contains(&survivor_ids, p.1) {
                newm.push(p);
            }
            q = q + 1;
        }
        proof {
            lemma_take_full(m0.matched);
        }
        self.matched = newm;
        self.filters = keptf;
        self.next_filter_id = self.next_filter_id + (ins_len as i64);
        proof {
            broadcast use vstd::seq_lib::group_filter_ensures;

            let fm = self.model_of();
            assert(fm.filters =~= saved_filters(ex, ps, next0));
            assert(fm.matched =~= m0.matched.filter(survp));
            assert(fm.emails =~= m0.emails);
            assert(fm.sync_uids =~= m0.sync_uids);
            assert(fm.filter_cursors =~= m0.filter_cursors);
            assert(fm.next_filter_id == next0 + insv.len());
            assert forall|x: int, y: int| 0 <= x < y < m0.matched.len() implies #[trigger] m0.matched[x]
                != #[trigger] m0.matched[y] by {
                lemma_matched_distinct(m0, x, y);
            }
            crate::folds::lemma_filter_distinct(m0.matched, survp);
            assert forall|p: (i64, i64)| #[trigger] fm.matched.contains(p) <==> (
            m0.matched.contains(p) && match_kept_fid(ex, ps, p.1)) by {
                if fm.matched.contains(p) {
                    let w = choose|w: int| 0 <= w < fm.matched.len() && fm.matched[w] == p;
                    crate::folds::lemma_filter_sub(m0.matched, survp, w);
                }
                if m0.matched.contains(p) && match_kept_fid(ex, ps, p.1) {
                    let w = choose|w: int| 0 <= w < m0.matched.len() && m0.matched[w] == p;
                    m0.matched.lemma_filter_contains(survp, w);
                }
            }
            assert forall|x: int, y: int|
                0 <= x < y < fm.filters.len() implies (#[trigger] fm.filters[x]).id < (
            #[trigger] fm.filters[y]).id by {
                if y < keptv.len() {
                } else if x >= keptv.len() {
                    assert(fm.filters[x].id == next0 + (x - keptv.len()));
                    assert(fm.filters[y].id == next0 + (y - keptv.len()));
                } else {
                    assert(fm.filters[x] == keptv[x]);
                    assert(fm.filters[y].id == next0 + (y - keptv.len()));
                    let w = choose|w: int|
                        0 <= w < ex.len() && (#[trigger] keptv[x]).id == (#[trigger] ex[w]).id;
                    lemma_filter_id_bounds(m0, w);
                }
            }
            assert forall|x: int| 0 <= x < fm.filters.len() implies 0 < (
            #[trigger] fm.filters[x]).id < fm.next_filter_id by {
                if x < keptv.len() {
                    let w = choose|w: int|
                        0 <= w < ex.len() && (#[trigger] keptv[x]).id == (#[trigger] ex[w]).id;
                    lemma_filter_id_bounds(m0, w);
                } else {
                    assert(fm.filters[x].id == next0 + (x - keptv.len()));
                }
            }
            assert forall|x: int, y: int|
                0 <= x < y < fm.emails.len() implies (#[trigger] fm.emails[x]).id < (
            #[trigger] fm.emails[y]).id && !(fm.emails[x].account == fm.emails[y].account
                && fm.emails[x].uid == fm.emails[y].uid) by {
                lemma_email_ids_sorted(m0, x, y);
            }
            assert forall|x: int| 0 <= x < fm.emails.len() implies 0 < (
            #[trigger] fm.emails[x]).id < fm.next_email_id by {
                lemma_email_id_bounds(m0, x);
            }
            assert forall|x: int, y: int|
                0 <= x < y < fm.sync_uids.len() implies (#[trigger] fm.sync_uids[x]).0 != (
            #[trigger] fm.sync_uids[y]).0 by {
                lemma_sync_keys_distinct(m0, x, y);
            }
            assert forall|x: int, y: int|
                0 <= x < y < fm.filter_cursors.len() implies (#[trigger] fm.filter_cursors[x]).0
                != (#[trigger] fm.filter_cursors[y]).0 by {
                lemma_cursor_keys_distinct(m0, x, y);
            }
            assert(wf_model(fm));
        }
        let mut all_rows: Vec<EmailRow> = Vec::new();
        let mut e: usize = 0;
        proof {
            assert(row_views(all_rows@) =~= m0.emails.take(0));
        }
        while e < self.emails.len()
            invariant
                e <= m0.emails.len(),
                m0.emails.len() == self.emails@.len(),
                m0.emails == self.model_of().emails,
                row_views(all_rows@) == m0.emails.take(e as int),
            decreases m0.emails.len() - e,
        {
            proof {
                assert(m0.emails[e as int] == self.emails@[e as int]@);
            }
            all_rows.push(clone_row(&self.emails[e]));
            proof {
                assert(row_views(all_rows@) =~= m0.emails.take(e as int).push(
                    m0.emails[e as int],
                ));
                assert(m0.emails.take(e + 1) =~= m0.emails.take(e as int).push(
                    m0.emails[e as int],
                ));
            }
            e = e + 1;
        }
        proof {
            lemma_take_full(m0.emails);
        }
        self.insert_matches(&all_rows, &refresh_all);
        let out = match self.get_filters() {
            Ok(v) => v,
            Err(err) => {
                return Err(err);
            },
        };
        Ok(out)
    }

    fn set_email_filters(&mut self, account: &str, uid: u32, filter_ids: &Vec<i64>) -> (r: Result<
        (),
        String,
    >) {
        let ghost m0 = old(self).model_of();
        match self.find_email_idx(account, uid) {
            None => Ok(()),
            Some(idx) => {
                proof {
                    lemma_email_idx_unique(m0, account@, uid, idx as int);
                }
                let id = self.emails[idx].id;
                proof {
                    assert(m0.emails[idx as int] == self.emails@[idx as int]@);
                    assert(id == m0.emails[email_idx(m0.emails, account@, uid)].id);
                }
                let mut j: usize = 0;
                while j < filter_ids.len()
                    invariant
                        j <= filter_ids@.len(),
                        *self == *old(self),
                        old(self).inv(),
                        m0 == old(self).model_of(),
                        has_email(m0.emails, account@, uid),
                        forall|t: int|
                            0 <= t < j ==> has_filter_id(m0.filters, #[trigger] filter_ids@[t]),
                    decreases filter_ids@.len() - j,
                {
                    if !self.has_filter_id_exec(filter_ids[j]) {
                        proof {
                            assert(has_email(m0.emails, account@, uid));
                            assert(!has_filter_id(m0.filters, filter_ids@[j as int]));
                        }
                        return Err("Failed to insert mapping: unknown filter id".to_owned());
                    }
                    j = j + 1;
                }
                let ghost op = other_email_pred(id);
                let mut newm: Vec<(i64, i64)> = Vec::new();
                let mut q: usize = 0;
                proof {
                    assert(m0.matched.take(0).filter(op) =~= Seq::<(i64, i64)>::empty());
                }
                while q < self.matched.len()
                    invariant
                        q <= m0.matched.len(),
                        m0 == old(self).model_of(),
                        m0.matched.len() == self.matched@.len(),
                        m0.matched == self.model_of().matched,
                        *self == *old(self),
                        old(self).inv(),
                        op == other_email_pred(id),
                        newm@ == m0.matched.take(q as int).filter(op),
                    decreases m0.matched.len() - q,
                {
                    proof {
                        lemma_filter_take_step(m0.matched, op, q as int);
                    }
                    let p = self.matched[q];
                    if p.0 != id {
                        newm.push(p);
                    }
                    q = q + 1;
                }
                proof {
                    lemma_take_full(m0.matched);
                    assert forall|x: int, y: int| 0 <= x < y < m0.matched.len() implies #[trigger] m0.matched[x]
                        != #[trigger] m0.matched[y] by {
                        lemma_matched_distinct(m0, x, y);
                    }
                    crate::folds::lemma_filter_distinct(m0.matched, op);
                }
                let ghost pruned = m0.matched.filter(op);
                let mut w: usize = 0;
                while w < filter_ids.len()
                    invariant
                        w <= filter_ids@.len(),
                        *self == *old(self),
                        old(self).inv(),
                        m0 == old(self).model_of(),
                        op == other_email_pred(id),
                        pruned == m0.matched.filter(op),
                        forall|x: int, y: int|
                            0 <= x < y < newm@.len() ==> #[trigger] newm@[x] != #[trigger] newm@[y],
                        forall|x: int| 0 <= x < newm@.len() ==> ((#[trigger] newm@[x]).0 == id
                            ==> filter_ids@.take(w as int).contains(newm@[x].1)),
                        forall|p: (i64, i64)|
                            #[trigger] newm@.contains(p) <==> (pruned.contains(p) || (p.0 == id
                                && filter_ids@.take(w as int).contains(p.1))),
                    decreases filter_ids@.len() - w,
                {
                    let fid = filter_ids[w];
                    let ghost before = newm@;
                    if !pair_vec_contains(&newm, (id, fid)) {
                        newm.push((id, fid));
                        proof {
                            broadcast use vstd::seq_lib::group_seq_properties;

                            assert(newm@ =~= before.push((id, fid)));
                        }
                    }
                    proof {
                        assert(filter_ids@.take(w + 1) =~= filter_ids@.take(w as int).push(
                            filter_ids@[w as int],
                        ));
                        assert forall|p: (i64, i64)| #[trigger] newm@.contains(p) implies (
                        pruned.contains(p) || (p.0 == id && filter_ids@.take(w + 1).contains(
                            p.1,
                        ))) by {
                            let z = choose|z: int| 0 <= z < newm@.len() && newm@[z] == p;
                            if z < before.len() {
                                assert(before[z] == p);
                                assert(before.contains(p));
                            }
                            if p.0 == id && filter_ids@.take(w as int).contains(p.1) {
                                let y = choose|y: int|
                                    0 <= y < w && #[trigger] filter_ids@.take(w as int)[y]
                                        == p.1;
                                assert(filter_ids@.take(w + 1)[y] == p.1);
                            }
                        }
                        assert forall|p: (i64, i64)|
                            (pruned.contains(p) || (p.0 == id && filter_ids@.take(w + 1).contains(
                                p.1,
                            ))) implies #[trigger] newm@.contains(p) by {
                            if pruned.contains(p) || (p.0 == id && filter_ids@.take(
                                w as int,
                            ).contains(p.1)) {
                                assert(before.contains(p));
                                let z = choose|z: int| 0 <= z < before.len() && before[z] == p;
                                assert(newm@[z] == p);
                            } else {
                                assert(p.0 == id && filter_ids@.take(w + 1).contains(p.1));
                                let y = choose|y: int|
                                    0 <= y < w + 1 && #[trigger] filter_ids@.take(w + 1)[y]
                                        == p.1;
                                assert(y == w as int);
                                assert(p.1 == fid);
                                assert(newm@.contains((id, fid)));
                            }
                        }
                        assert forall|x: int, y: int| 0 <= x < y < newm@.len() implies #[trigger] newm@[x]
                            != #[trigger] newm@[y] by {
                            if y < before.len() {
                                assert(newm@[x] == before[x] && newm@[y] == before[y]);
                            } else if newm@.len() > before.len() {
                                assert(newm@[y] == (id, fid));
                                assert(newm@[x] == before[x]);
                                assert(before.contains(before[x]));
                            }
                        }
                        assert forall|x: int| 0 <= x < newm@.len() implies ((
                        #[trigger] newm@[x]).0 == id ==> filter_ids@.take(w + 1).contains(
                            newm@[x].1,
                        )) by {
                            if x < before.len() {
                                if before[x].0 == id {
                                    let y = choose|y: int|
                                        0 <= y < w && #[trigger] filter_ids@.take(w as int)[y]
                                            == before[x].1;
                                    assert(filter_ids@.take(w + 1)[y] == before[x].1);
                                }
                            } else {
                                assert(newm@[x] == (id, fid));
                                assert(filter_ids@.take(w + 1)[w as int] == fid);
                            }
                        }
                    }
                    w = w + 1;
                }
                proof {
                    lemma_take_full(filter_ids@);
                }
                self.matched = newm;
                proof {
                    let fm = self.model_of();
                    assert(fm.emails =~= m0.emails);
                    assert(fm.filters =~= m0.filters);
                    assert(fm.sync_uids =~= m0.sync_uids);
                    assert(fm.filter_cursors =~= m0.filter_cursors);
                    broadcast use vstd::seq_lib::group_filter_ensures;

                    assert forall|p: (i64, i64)| #[trigger] pruned.contains(p) <==> (
                    m0.matched.contains(p) && p.0 != id) by {
                        if pruned.contains(p) {
                            let z = choose|z: int| 0 <= z < pruned.len() && pruned[z] == p;
                            crate::folds::lemma_filter_sub(m0.matched, op, z);
                        }
                        if m0.matched.contains(p) && p.0 != id {
                            let z = choose|z: int|
                                0 <= z < m0.matched.len() && m0.matched[z] == p;
                            m0.matched.lemma_filter_contains(op, z);
                        }
                    }
                    assert forall|x: int, y: int|
                        0 <= x < y < fm.emails.len() implies (#[trigger] fm.emails[x]).id < (
                    #[trigger] fm.emails[y]).id && !(fm.emails[x].account == fm.emails[y].account
                        && fm.emails[x].uid == fm.emails[y].uid) by {
                        lemma_email_ids_sorted(m0, x, y);
                    }
                    assert forall|x: int| 0 <= x < fm.emails.len() implies 0 < (
                    #[trigger] fm.emails[x]).id < fm.next_email_id by {
                        lemma_email_id_bounds(m0, x);
                    }
                    assert forall|x: int, y: int|
                        0 <= x < y < fm.filters.len() implies (#[trigger] fm.filters[x]).id < (
                    #[trigger] fm.filters[y]).id by {
                        lemma_filter_ids_distinct(m0, x, y);
                    }
                    assert forall|x: int| 0 <= x < fm.filters.len() implies 0 < (
                    #[trigger] fm.filters[x]).id < fm.next_filter_id by {
                        lemma_filter_id_bounds(m0, x);
                    }
                    assert forall|x: int, y: int|
                        0 <= x < y < fm.sync_uids.len() implies (#[trigger] fm.sync_uids[x]).0
                        != (#[trigger] fm.sync_uids[y]).0 by {
                        lemma_sync_keys_distinct(m0, x, y);
                    }
                    assert forall|x: int, y: int|
                        0 <= x < y < fm.filter_cursors.len() implies (
                    #[trigger] fm.filter_cursors[x]).0 != (#[trigger] fm.filter_cursors[y]).0 by {
                        lemma_cursor_keys_distinct(m0, x, y);
                    }
                    assert(wf_model(fm));
                }
                Ok(())
            },
        }
    }

    fn upsert_emails(&mut self, account: &str, mailbox: &str, emails: &Vec<GmailEmail>) -> (r:
        Result<(), String>) {
        let ghost es = gmail_views(emails@);
        let ghost rows0 = old(self).model_of().emails;
        let ghost n0 = old(self).model_of().next_email_id;
        let ghost stepf = upsert_step(account@, mailbox@);
        let mut i: usize = 0;
        proof {
            assert(es.take(0) =~= Seq::<GmailEmailV>::empty());
        }
        while i < emails.len()
            invariant
                i <= es.len(),
                es.len() == emails@.len(),
                es == gmail_views(emails@),
                stepf == upsert_step(account@, mailbox@),
                wf_model(self.model_of()),
                (self.model_of().emails, self.model_of().next_email_id) == upsert_seq(
                    rows0,
                    n0,
                    account@,
                    mailbox@,
                    es.take(i as int),
                ),
                self.model_of().next_email_id + (es.len() - i) <= i64::MAX,
                self.model_of().filters == old(self).model_of().filters,
                self.model_of().matched == old(self).model_of().matched,
                self.model_of().sync_uids == old(self).model_of().sync_uids,
                self.model_of().filter_cursors == old(self).model_of().filter_cursors,
                self.model_of().next_filter_id == old(self).model_of().next_filter_id,
            decreases es.len() - i,
        {
            let ghost prev_rows = self.model_of().emails;
            let ghost prev_n = self.model_of().next_email_id;
            let e = &emails[i];
            match self.find_email_idx(account, e.uid) {
                Some(idx) => {
                    let row = self.emails.remove(idx);
                    let updated = EmailRow {
                        id: row.id,
                        uid: row.uid,
                        message_id: e.message_id.clone(),
                        subject: e.subject.clone(),
                        sender: e.sender.clone(),
                        date: e.date.clone(),
                        date_epoch: e.date_epoch,
                        mailbox: mailbox.to_owned(),
                        account: account.to_owned(),
                        is_read: e.is_read,
                        body_html: row.body_html,
                        body_text: row.body_text,
                    };
                    self.emails.insert(idx, updated);
                    proof {
                        assert(has_email(prev_rows, account@, e@.uid));
                        let k = email_idx(prev_rows, account@, e@.uid);
                        assert(0 <= k < prev_rows.len() && prev_rows[k].account == account@
                            && prev_rows[k].uid == e@.uid);
                        assert(k == idx);
                        assert(self.model_of().emails =~= prev_rows.update(
                            idx as int,
                            upsert_row_v(prev_rows[idx as int], e@, mailbox@, account@),
                        ));
                        assert((self.model_of().emails, self.model_of().next_email_id) == upsert_one(
                            prev_rows,
                            prev_n,
                            account@,
                            mailbox@,
                            e@,
                        ));
                    }
                },
                None => {
                    let id = self.next_email_id;
                    self.emails.push(EmailRow {
                        id: id,
                        uid: e.uid,
                        message_id: e.message_id.clone(),
                        subject: e.subject.clone(),
                        sender: e.sender.clone(),
                        date: e.date.clone(),
                        date_epoch: e.date_epoch,
                        mailbox: mailbox.to_owned(),
                        account: account.to_owned(),
                        is_read: e.is_read,
                        body_html: None,
                        body_text: None,
                    });
                    self.next_email_id = self.next_email_id + 1;
                    proof {
                        assert(self.model_of().emails =~= prev_rows.push(
                            new_row_v(id, e@, mailbox@, account@),
                        ));
                        assert((self.model_of().emails, self.model_of().next_email_id) == upsert_one(
                            prev_rows,
                            prev_n,
                            account@,
                            mailbox@,
                            e@,
                        ));
                    }
                },
            }
            proof {
                assert(es.take(i + 1).drop_last() =~= es.take(i as int));
                assert(es.take(i + 1).last() == es[i as int]);
                assert(es[i as int] == e@);
                assert(upsert_seq(rows0, n0, account@, mailbox@, es.take(i + 1)) == stepf(
                    upsert_seq(rows0, n0, account@, mailbox@, es.take(i as int)),
                    es[i as int],
                ));
            }
            i = i + 1;
        }
        proof {
            lemma_take_full(es);
        }
        Ok(())
    }
}


/// Relies on `dirs::config_dir`: the platform's per-user
/// configuration directory, when the environment defines one.
#[verifier::external_body]
fn config_dir_string() -> (r: Option<String>) {
    dirs::config_dir().map(|p| p.to_string_lossy().to_string())
}

fn get_db_path() -> (r: Result<String, String>)
    ensures
        r matches Ok(p) ==> p@.len() > "/InboxCleanup/inboxcleanup.sqlite3"@.len() && p@.skip(
            p@.len() - "/InboxCleanup/inboxcleanup.sqlite3"@.len(),
        ) == "/InboxCleanup/inboxcleanup.sqlite3"@,
{
    match config_dir_string() {
        None => Err("Could not find config directory".to_owned()),
        Some(dir) => {
            if dir.as_str().unicode_len() == 0 {
                return Err("Could not find config directory".to_owned());
            }
            let mut p = dir;
            p.append("/InboxCleanup/inboxcleanup.sqlite3");
            proof {
                assert(p@.skip(p@.len() - "/InboxCleanup/inboxcleanup.sqlite3"@.len())
                    =~= "/InboxCleanup/inboxcleanup.sqlite3"@);
            }
            Ok(p)
        },
    }
}

/// The fixed location of the store's database file, under the
/// platform's per-application configuration directory.
pub fn get_db_file_path() -> (r: Result<String, String>)
    ensures
        r matches Ok(p) ==> p@.len() > "/InboxCleanup/inboxcleanup.sqlite3"@.len() && p@.skip(
            p@.len() - "/InboxCleanup/inboxcleanup.sqlite3"@.len(),
        ) == "/InboxCleanup/inboxcleanup.sqlite3"@,
{
    get_db_path()
}

/// How a rule's target field is stored.
pub open spec fn spec_field_name(field: FilterField) -> Seq<char> {
    match field {
        FilterField::Subject => "subject"@,
        FilterField::Sender => "sender"@,
        FilterField::Any => "any"@,
    }
}

/// Reads a stored field name back; anything unrecognised falls back
/// to matching either field.
pub fn parse_filter_field(value: &str) -> (r: FilterField)
    ensures
        value@ == "subject"@ ==> r == FilterField::Subject,
        value@ == "sender"@ ==> r == FilterField::Sender,
        value@ != "subject"@ && value@ != "sender"@ ==> r == FilterField::Any,
{
    proof {
        broadcast use vstd::string::group_string_axioms;

        reveal_strlit("subject");
        reveal_strlit("sender");
        assert("subject"@.len() == 7);
        assert("sender"@.len() == 6);
    }
    if crate::mail::str_eq(value, "subject") {
        FilterField::Subject
    } else if crate::mail::str_eq(value, "sender") {
        FilterField::Sender
    } else {
        FilterField::Any
    }
}

/// The stored name of a rule's target field.
pub fn filter_field_to_string(field: &FilterField) -> (r: &'static str)
    ensures
        r@ == spec_field_name(*field),
{
    match field {
        FilterField::Subject => "subject",
        FilterField::Sender => "sender",
        FilterField::Any => "any",
    }
}


/// A rule as an older on-disk layout stored it, under a text
/// identity.
pub struct LegacyFilter {
    pub id: String,
    pub name: String,
    pub pattern: String,
    pub field: FilterField,
    pub is_regex: bool,
    pub enabled: bool,
}

/// Ghost record of a legacy rule.
pub ghost struct LegacyFilterV {
    pub id: Seq<char>,
    pub name: Seq<char>,
    pub pattern: Seq<char>,
    pub field: FilterField,
    pub is_regex: bool,
    pub enabled: bool,
}

impl View for LegacyFilter {
    type V = LegacyFilterV;

    open spec fn view(&self) -> LegacyFilterV {
        LegacyFilterV {
            id: self.id@,
            name: self.name@,
            pattern: self.pattern@,
            field: self.field,
            is_regex: self.is_regex,
            enabled: self.enabled,
        }
    }
}

/// The views of a legacy rule table.
pub open spec fn legacy_views(s: Seq<LegacyFilter>) -> Seq<LegacyFilterV> {
    s.map_values(|f: LegacyFilter| f@)
}

/// The views of a legacy association table.
pub open spec fn legacy_pairs_view(s: Seq<(i64, String)>) -> Seq<(i64, Seq<char>)> {
    s.map_values(|p: (i64, String)| (p.0, p.1@))
}

/// Whether some legacy rule carries this text identity.
pub open spec fn has_legacy_id(fs: Seq<LegacyFilterV>, old: Seq<char>) -> bool {
    exists|k: int| 0 <= k < fs.len() && (#[trigger] fs[k]).id == old
}

/// The position of the legacy rule carrying this identity (unique
/// when the table's identities are distinct).
pub open spec fn legacy_idx(fs: Seq<LegacyFilterV>, old: Seq<char>) -> int {
    choose|k: int| 0 <= k < fs.len() && (#[trigger] fs[k]).id == old
}

/// The rewritten rule table: same rules in stored order, under fresh
/// integer identities assigned from one.
pub open spec fn migrated_filters(fs: Seq<LegacyFilterV>) -> Seq<FilterPatternV> {
    Seq::new(
        fs.len(),
        |k: int|
            FilterPatternV {
                id: (1 + k) as i64,
                name: fs[k].name,
                pattern: fs[k].pattern,
                field: fs[k].field,
                is_regex: fs[k].is_regex,
                enabled: fs[k].enabled,
            },
    )
}

/// The associations that survive the rewrite: pairs naming a known
/// rule, as a predicate.
pub open spec fn known_legacy_pred(fs: Seq<LegacyFilterV>) -> spec_fn((i64, Seq<char>)) -> bool {
    |p: (i64, Seq<char>)| has_legacy_id(fs, p.1)
}

/// A surviving association, rekeyed to the rule's fresh identity.
pub open spec fn rekey_pair_fn(fs: Seq<LegacyFilterV>) -> spec_fn((i64, Seq<char>)) -> (
    i64,
    i64,
) {
    |p: (i64, Seq<char>)| (p.0, (1 + legacy_idx(fs, p.1)) as i64)
}

/// The rewritten association table: pairs naming unknown rules drop
/// out, the rest are rekeyed in stored order.
pub open spec fn migrated_matches(
    fs: Seq<LegacyFilterV>,
    pairs: Seq<(i64, Seq<char>)>,
) -> Seq<(i64, i64)> {
    pairs.filter(known_legacy_pred(fs)).map_values(rekey_pair_fn(fs))
}

proof fn lemma_legacy_idx(fs: Seq<LegacyFilterV>, old: Seq<char>, k: int)
    requires
        forall|x: int, y: int|
            #![trigger fs[x], fs[y]]
            0 <= x < y < fs.len() ==> fs[x].id != fs[y].id,
        0 <= k < fs.len(),
        fs[k].id == old,
    ensures
        has_legacy_id(fs, old),
        legacy_idx(fs, old) == k,
{
    assert(has_legacy_id(fs, old));
    let w = legacy_idx(fs, old);
    assert(0 <= w < fs.len() && fs[w].id == old);
    if w < k {
        assert(fs[w].id != fs[k].id);
    } else if k < w {
        assert(fs[k].id != fs[w].id);
    }
}

fn find_legacy_pos(filters: &Vec<LegacyFilter>, old: &String) -> (r: Option<usize>)
    ensures
        r matches Some(k) ==> k < filters@.len() && legacy_views(filters@)[k as int].id == old@,
        r is None ==> !has_legacy_id(legacy_views(filters@), old@),
{
    let ghost fs = legacy_views(filters@);
    let mut k: usize = 0;
    while k < filters.len()
        invariant
            k <= fs.len(),
            fs.len() == filters@.len(),
            fs == legacy_views(filters@),
            forall|j: int| 0 <= j < k ==> (#[trigger] fs[j]).id != old@,
        decreases fs.len() - k,
    {
        proof {
            assert(fs[k as int] == filters@[k as int]@);
        }
        if str_eq(filters[k].id.as_str(), old.as_str()) {
            return Some(k);
        }
        k = k + 1;
    }
    None
}

/// Rewrites a rule table keyed by text identities to integer
/// identities, assigned in stored order from one, and rekeys every
/// recorded association; associations naming unknown rules drop out.
/// Rules and surviving associations are otherwise preserved exactly.
pub fn migrate_filters_to_integer_ids(
    filters: &Vec<LegacyFilter>,
    matches: &Vec<(i64, String)>,
) -> (r: (Vec<FilterPattern>, Vec<(i64, i64)>))
    requires
        forall|x: int, y: int|
            #![trigger legacy_views(filters@)[x], legacy_views(filters@)[y]]
            0 <= x < y < legacy_views(filters@).len() ==> legacy_views(filters@)[x].id
                != legacy_views(filters@)[y].id,
        filters@.len() < i64::MAX,
    ensures
        crate::mail::filters_view(r.0@) == migrated_filters(legacy_views(filters@)),
        r.1@ == migrated_matches(legacy_views(filters@), legacy_pairs_view(matches@)),
{
    let ghost fs = legacy_views(filters@);
    let mut out_filters: Vec<FilterPattern> = Vec::new();
    let mut k: usize = 0;
    while k < filters.len()
        invariant
            k <= fs.len(),
            fs.len() == filters@.len(),
            fs == legacy_views(filters@),
            filters@.len() < i64::MAX,
            out_filters@.len() == k,
            forall|t: int|
                0 <= t < k ==> #[trigger] crate::mail::filters_view(out_filters@)[t]
                    == migrated_filters(fs)[t],
        decreases fs.len() - k,
    {
        proof {
            assert(fs[k as int] == filters@[k as int]@);
        }
        let ghost prev = out_filters@;
        let f = &filters[k];
        out_filters.push(
            FilterPattern {
                id: (k as i64) + 1,
                name: f.name.clone(),
                pattern: f.pattern.clone(),
                field: f.field,
                is_regex: f.is_regex,
                enabled: f.enabled,
            },
        );
        proof {
            assert forall|t: int| 0 <= t < k + 1 implies #[trigger] crate::mail::filters_view(
                out_filters@,
            )[t] == migrated_filters(fs)[t] by {
                assert(crate::mail::filters_view(out_filters@)[t] == out_filters@[t]@);
                if t < k {
                    assert(out_filters@[t] == prev[t]);
                    assert(crate::mail::filters_view(prev)[t] == prev[t]@);
                }
            }
        }
        k = k + 1;
    }
    proof {
        assert(crate::mail::filters_view(out_filters@) =~= migrated_filters(fs));
    }
    let ghost pairs = legacy_pairs_view(matches@);
    let ghost keep = known_legacy_pred(fs);
    let ghost rekey = rekey_pair_fn(fs);
    let mut out_matches: Vec<(i64, i64)> = Vec::new();
    let mut q: usize = 0;
    proof {
        assert(pairs.take(0).filter(keep) =~= Seq::<(i64, Seq<char>)>::empty());
        assert(out_matches@ =~= pairs.take(0).filter(keep).map_values(rekey));
    }
    while q < matches.len()
        invariant
            q <= pairs.len(),
            pairs.len() == matches@.len(),
            pairs == legacy_pairs_view(matches@),
            fs == legacy_views(filters@),
            keep == known_legacy_pred(fs),
            rekey == rekey_pair_fn(fs),
            fs.len() < i64::MAX,
            forall|x: int, y: int|
                #![trigger fs[x], fs[y]]
                0 <= x < y < fs.len() ==> fs[x].id != fs[y].id,
            out_matches@ == pairs.take(q as int).filter(keep).map_values(rekey),
        decreases pairs.len() - q,
    {
        proof {
            lemma_filter_take_step(pairs, keep, q as int);
            assert(pairs[q as int] == (matches@[q as int].0, matches@[q as int].1@));
        }
        let pair = &matches[q];
        match find_legacy_pos(filters, &pair.1) {
            Some(pos) => {
                proof {
                    lemma_legacy_idx(fs, pair.1@, pos as int);
                    assert(keep(pairs[q as int]));
                    assert(rekey(pairs[q as int]) == (pair.0, ((pos as i64) + 1) as i64));
                }
                out_matches.push((pair.0, (pos as i64) + 1));
                proof {
                    assert(out_matches@ =~= pairs.take(q as int).filter(keep).map_values(
                        rekey,
                    ).push(rekey(pairs[q as int])));
                    assert(pairs.take(q as int).filter(keep).push(pairs[q as int]).map_values(
                        rekey,
                    ) =~= pairs.take(q as int).filter(keep).map_values(rekey).push(
                        rekey(pairs[q as int]),
                    ));
                }
            },
            None => {
                proof {
                    assert(!keep(pairs[q as int]));
                }
            },
        }
        q = q + 1;
    }
    proof {
        lemma_take_full(pairs);
    }
    (out_filters, out_matches)
}


/// Upserting never removes a stored identity, and every delivered
/// identity is stored afterwards.
pub proof fn lemma_upsert_seq_identities(
    rows: Seq<EmailRowV>,
    next_id: i64,
    account: Seq<char>,
    mailbox: Seq<char>,
    es: Seq<GmailEmailV>,
)
    ensures
        forall|a: Seq<char>, u: u32|
            has_email(rows, a, u) ==> #[trigger] has_email(
                upsert_seq(rows, next_id, account, mailbox, es).0,
                a,
                u,
            ),
        forall|k: int|
            0 <= k < es.len() ==> has_email(
                upsert_seq(rows, next_id, account, mailbox, es).0,
                account,
                (#[trigger] es[k]).uid,
            ),
    decreases es.len(),
{
    if es.len() == 0 {
    } else {
        let t = es.drop_last();
        lemma_upsert_seq_identities(rows, next_id, account, mailbox, t);
        let prev = upsert_seq(rows, next_id, account, mailbox, t);
        assert(upsert_seq(rows, next_id, account, mailbox, es) == upsert_step(account, mailbox)(
            prev,
            es.last(),
        ));
        let fin = upsert_one(prev.0, prev.1, account, mailbox, es.last()).0;
        assert forall|a: Seq<char>, u: u32| has_email(prev.0, a, u) implies #[trigger] has_email(
            fin,
            a,
            u,
        ) by {
            let w = choose|w: int|
                0 <= w < prev.0.len() && (#[trigger] prev.0[w]).account == a && prev.0[w].uid
                    == u;
            if has_email(prev.0, account, es.last().uid) {
                let i = email_idx(prev.0, account, es.last().uid);
                if w == i {
                    assert(fin[w].account == a && fin[w].uid == u);
                } else {
                    assert(fin[w] == prev.0[w]);
                }
            } else {
                assert(fin[w] == prev.0[w]);
            }
        }
        assert forall|k: int| 0 <= k < es.len() implies has_email(
            fin,
            account,
            (#[trigger] es[k]).uid,
        ) by {
            if k < es.len() - 1 {
                assert(t[k] == es[k]);
                assert(has_email(prev.0, account, es[k].uid));
            } else {
                if has_email(prev.0, account, es.last().uid) {
                    let i = email_idx(prev.0, account, es.last().uid);
                    assert(fin[i].account == account && fin[i].uid == es.last().uid);
                } else {
                    assert(fin[prev.0.len() as int].account == account
                        && fin[prev.0.len() as int].uid == es.last().uid);
                }
            }
        }
    }
}

/// Storing bodies never removes a stored identity.
pub proof fn lemma_set_body_seq_identities(
    rows: Seq<EmailRowV>,
    account: Seq<char>,
    bs: Seq<crate::gmail::GmailEmailBodyV>,
)
    ensures
        forall|a: Seq<char>, u: u32|
            has_email(rows, a, u) ==> #[trigger] has_email(
                set_body_seq(rows, account, bs),
                a,
                u,
            ),
    decreases bs.len(),
{
    if bs.len() == 0 {
    } else {
        let t = bs.drop_last();
        lemma_set_body_seq_identities(rows, account, t);
        let prev = set_body_seq(rows, account, t);
        assert(set_body_seq(rows, account, bs) == set_body_step(account)(prev, bs.last()));
        let fin = set_body_one(prev, account, bs.last());
        assert forall|a: Seq<char>, u: u32| has_email(prev, a, u) implies #[trigger] has_email(
            fin,
            a,
            u,
        ) by {
            let w = choose|w: int|
                0 <= w < prev.len() && (#[trigger] prev[w]).account == a && prev[w].uid == u;
            if has_email(prev, account, bs.last().uid) {
                let i = email_idx(prev, account, bs.last().uid);
                if w == i {
                    assert(fin[w].account == a && fin[w].uid == u);
                } else {
                    assert(fin[w] == prev[w]);
                }
            } else {
                assert(fin[w] == prev[w]);
            }
        }
    }
}

} // verus!
