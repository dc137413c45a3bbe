//! Laws of the storage engine: properties that relate several
//! operations, stated over the store model and proved once for every
//! input.

use vstd::prelude::*;

use crate::folds::lemma_filter_congruent;
use crate::folds::lemma_filter_monotone;
use crate::folds::lemma_filter_sub;
use crate::gmail::GmailEmailV;
use crate::storage::{
    account_pair_count, added_pair, count_pred, email_idx, filter_cursor_of, has_email, in_scope,
    listed, mark_row_fn, match_count_of, pair_in_account, refresh_batch, refresh_kept_matched,
    refresh_start_cursor, row_matches_filter, scope_pred, scope_rows, sort_desc, stored_of,
    upsert_one, wf_model, EmailRowV, StoreModel,
};

verus! {

/// The rows of one account, in stored order.
pub open spec fn account_row_pred(account: Seq<char>) -> spec_fn(EmailRowV) -> bool {
    |r: EmailRowV| r.account == account
}

/// The rows of one account, in stored order.
pub open spec fn account_rows(rows: Seq<EmailRowV>, account: Seq<char>) -> Seq<EmailRowV> {
    rows.filter(account_row_pred(account))
}

/// Every recorded match pair of the account is a true match of some
/// stored row against some enabled rule.
pub open spec fn matches_sound(m: StoreModel, account: Seq<char>) -> bool {
    forall|p: (i64, i64)|
        #[trigger] m.matched.contains(p) && pair_in_account(m.emails, account, p) ==> added_pair(
            account_rows(m.emails, account),
            m.filters,
            p,
        )
}

/// Every true match of an account row at or below the backfill cursor
/// is recorded.
pub open spec fn matches_complete_up_to(m: StoreModel, account: Seq<char>) -> bool {
    forall|bi: int, fj: int|
        #![trigger m.emails[bi], m.filters[fj]]
        0 <= bi < m.emails.len() && 0 <= fj < m.filters.len() && m.emails[bi].account == account
            && m.emails[bi].id <= filter_cursor_of(m, account) && m.filters[fj].enabled
            && row_matches_filter(m.emails[bi], m.filters[fj]) ==> m.matched.contains(
            (m.emails[bi].id, m.filters[fj].id),
        )
}

proof fn lemma_identity_idx(rows: Seq<EmailRowV>, account: Seq<char>, uid: u32, i: int)
    requires
        forall|x: int, y: int|
            #![trigger rows[x], rows[y]]
            0 <= x < y < rows.len() ==> !(rows[x].account == rows[y].account && rows[x].uid
                == rows[y].uid),
        0 <= i < rows.len(),
        rows[i].account == account,
        rows[i].uid == uid,
    ensures
        has_email(rows, account, uid),
        email_idx(rows, account, uid) == i,
{
    assert(has_email(rows, account, uid));
    let k = email_idx(rows, account, uid);
    assert(0 <= k < rows.len() && rows[k].account == account && rows[k].uid == uid);
    if k < i {
        assert(!(rows[k].account == rows[i].account && rows[k].uid == rows[i].uid));
    } else if i < k {
        assert(!(rows[i].account == rows[k].account && rows[i].uid == rows[k].uid));
    }
}

/// Idempotence of the upsert: delivering the same remote identity
/// twice (with possibly different other fields) leaves exactly one row
/// for it, and that row carries the fields of the later delivery.
pub proof fn lemma_upsert_idempotent(
    rows: Seq<EmailRowV>,
    next: i64,
    account: Seq<char>,
    mailbox: Seq<char>,
    e1: GmailEmailV,
    e2: GmailEmailV,
)
    requires
        forall|x: int, y: int|
            #![trigger rows[x], rows[y]]
            0 <= x < y < rows.len() ==> !(rows[x].account == rows[y].account && rows[x].uid
                == rows[y].uid),
        e1.uid == e2.uid,
    ensures
        ({
            let s1 = upsert_one(rows, next, account, mailbox, e1);
            let s2 = upsert_one(s1.0, s1.1, account, mailbox, e2);
            &&& s2.0.len() == if has_email(rows, account, e1.uid) {
                rows.len() as int
            } else {
                rows.len() + 1int
            }
            &&& has_email(s2.0, account, e2.uid)
            &&& ({
                let i = email_idx(s2.0, account, e2.uid);
                &&& s2.0[i].message_id == e2.message_id
                &&& s2.0[i].subject == e2.subject
                &&& s2.0[i].sender == e2.sender
                &&& s2.0[i].date == e2.date
                &&& s2.0[i].date_epoch == e2.date_epoch
                &&& s2.0[i].is_read == e2.is_read
            })
        }),
{
    let u = e1.uid;
    if has_email(rows, account, u) {
        let i0 = email_idx(rows, account, u);
        assert(0 <= i0 < rows.len() && rows[i0].account == account && rows[i0].uid == u);
        let r1 = upsert_one(rows, next, account, mailbox, e1).0;
        assert(forall|x: int|
            0 <= x < r1.len() ==> (#[trigger] r1[x]).account == rows[x].account && r1[x].uid
                == rows[x].uid);
        assert(forall|x: int, y: int|
            #![trigger r1[x], r1[y]]
            0 <= x < y < r1.len() ==> !(r1[x].account == r1[y].account && r1[x].uid
                == r1[y].uid));
        lemma_identity_idx(r1, account, u, i0);
        let r2 = upsert_one(r1, next, account, mailbox, e2).0;
        assert(forall|x: int|
            0 <= x < r2.len() ==> (#[trigger] r2[x]).account == r1[x].account && r2[x].uid
                == r1[x].uid);
        assert(forall|x: int, y: int|
            #![trigger r2[x], r2[y]]
            0 <= x < y < r2.len() ==> !(r2[x].account == r2[y].account && r2[x].uid
                == r2[y].uid));
        lemma_identity_idx(r2, account, u, i0);
    } else {
        let r1 = upsert_one(rows, next, account, mailbox, e1).0;
        let w = rows.len() as int;
        assert(r1[w].account == account && r1[w].uid == u);
        assert(forall|x: int| 0 <= x < w ==> r1[x] == rows[x]);
        assert(forall|x: int|
            0 <= x < w ==> !((#[trigger] rows[x]).account == account && rows[x].uid == u));
        assert(forall|x: int, y: int|
            #![trigger r1[x], r1[y]]
            0 <= x < y < r1.len() ==> !(r1[x].account == r1[y].account && r1[x].uid
                == r1[y].uid));
        lemma_identity_idx(r1, account, u, w);
        let r2 = upsert_one(r1, next, account, mailbox, e2).0;
        assert(forall|x: int|
            0 <= x < r2.len() ==> (#[trigger] r2[x]).account == r1[x].account && r2[x].uid
                == r1[x].uid);
        assert(forall|x: int, y: int|
            #![trigger r2[x], r2[y]]
            0 <= x < y < r2.len() ==> !(r2[x].account == r2[y].account && r2[x].uid
                == r2[y].uid));
        lemma_identity_idx(r2, account, u, w);
    }
}

/// Listing order: a paginated listing never places an older date epoch
/// before a newer one, so for rows with pairwise distinct epochs the
/// listing is strictly newest-first, and unknown (zero) epochs come
/// after all dated rows.
pub proof fn lemma_listing_ordered(
    m: StoreModel,
    account: Seq<char>,
    unread_only: bool,
    limit: u32,
    offset: u32,
)
    ensures
        ({
            let l = listed(m, account, unread_only, limit, offset);
            forall|i: int, j: int|
                0 <= i < j < l.len() ==> (#[trigger] l[i]).date_epoch >= (
                #[trigger] l[j]).date_epoch
        }),
{
    let rows = scope_rows(m.emails, account, unread_only);
    crate::storage::lemma_sort_desc_sorted(rows);
    let sorted = sort_desc(rows);
    let l = listed(m, account, unread_only, limit, offset);
    assert forall|i: int, j: int| 0 <= i < j < l.len() implies (#[trigger] l[i]).date_epoch >= (
    #[trigger] l[j]).date_epoch by {
        let pg = crate::storage::page(sorted, limit, offset);
        assert(l[i] == stored_of(pg[i]));
        assert(l[j] == stored_of(pg[j]));
        let start = if offset as int <= sorted.len() {
            offset as int
        } else {
            sorted.len() as int
        };
        assert(pg[i] == sorted[start + i]);
        assert(pg[j] == sorted[start + j]);
        assert(crate::storage::row_le(sorted[start + i], sorted[start + j]));
    }
}

/// The rows a read-marking touches while they are still unread.
pub open spec fn unread_marked_pred(account: Seq<char>, uids: Seq<u32>) -> spec_fn(
    EmailRowV,
) -> bool {
    |r: EmailRowV| in_scope(r, account, true) && uids.contains(r.uid)
}

proof fn lemma_mark_unread_counts(s: Seq<EmailRowV>, account: Seq<char>, uids: Seq<u32>)
    ensures
        scope_rows(s.map_values(mark_row_fn(account, uids, true)), account, true).len() + s.filter(
            unread_marked_pred(account, uids),
        ).len() == scope_rows(s, account, true).len(),
    decreases s.len(),
{
    reveal_with_fuel(Seq::filter, 2);
    let f = mark_row_fn(account, uids, true);
    let s2 = s.map_values(f);
    if s.len() == 0 {
        assert(s2 =~= Seq::<EmailRowV>::empty());
        assert(scope_rows(s2, account, true) =~= Seq::<EmailRowV>::empty());
        assert(s.filter(unread_marked_pred(account, uids)) =~= Seq::<EmailRowV>::empty());
        assert(scope_rows(s, account, true) =~= Seq::<EmailRowV>::empty());
    } else {
        let t = s.drop_last();
        lemma_mark_unread_counts(t, account, uids);
        assert(s2.drop_last() =~= t.map_values(f));
        assert(s2.last() == f(s.last()));
        assert(s2.len() == s.len());
        assert(scope_rows(s2, account, true) == if scope_pred(account, true)(s2.last()) {
            scope_rows(s2.drop_last(), account, true).push(s2.last())
        } else {
            scope_rows(s2.drop_last(), account, true)
        });
        assert(scope_rows(s2.drop_last(), account, true) == scope_rows(
            t.map_values(f),
            account,
            true,
        ));
    }
}

/// Mark-read round trip: marking a set of UIDs read removes them from
/// the unread-only listing scope and decreases the unread count by
/// exactly the number of rows that were previously unread and carried
/// one of the UIDs.
pub proof fn lemma_mark_read_roundtrip(m: StoreModel, account: Seq<char>, uids: Seq<u32>)
    ensures
        ({
            let rows2 = m.emails.map_values(mark_row_fn(account, uids, true));
            &&& scope_rows(rows2, account, true).len() + m.emails.filter(
                unread_marked_pred(account, uids),
            ).len() == scope_rows(m.emails, account, true).len()
            &&& forall|i: int|
                0 <= i < scope_rows(rows2, account, true).len() ==> !uids.contains(
                    (#[trigger] scope_rows(rows2, account, true)[i]).uid,
                )
        }),
{
    lemma_mark_unread_counts(m.emails, account, uids);
    let f = mark_row_fn(account, uids, true);
    let rows2 = m.emails.map_values(f);
    let kept = scope_rows(rows2, account, true);
    assert forall|i: int| 0 <= i < kept.len() implies !uids.contains(
        (#[trigger] kept[i]).uid,
    ) by {
        lemma_filter_sub(rows2, scope_pred(account, true), i);
        let e = kept[i];
        let w = choose|w: int| 0 <= w < rows2.len() && rows2[w] == e;
        assert(rows2[w] == f(m.emails[w]));
        assert(in_scope(e, account, true));
        if uids.contains(e.uid) {
            assert(m.emails[w].uid == e.uid && m.emails[w].account == e.account);
            assert(f(m.emails[w]).is_read);
        }
    }
}

proof fn lemma_filter_id_ascending(s: Seq<EmailRowV>, pred: spec_fn(EmailRowV) -> bool)
    requires
        forall|i: int, j: int|
            #![trigger s[i], s[j]]
            0 <= i < j < s.len() ==> s[i].id < s[j].id,
    ensures
        forall|i: int, j: int|
            0 <= i < j < s.filter(pred).len() ==> (#[trigger] s.filter(pred)[i]).id < (
            #[trigger] s.filter(pred)[j]).id,
    decreases s.len(),
{
    reveal_with_fuel(Seq::filter, 2);
    if s.len() == 0 {
    } else {
        let t = s.drop_last();
        assert(forall|i: int, j: int|
            #![trigger t[i], t[j]]
            0 <= i < j < t.len() ==> t[i].id < t[j].id);
        lemma_filter_id_ascending(t, pred);
        let ft = t.filter(pred);
        let fs = s.filter(pred);
        assert forall|i: int, j: int| 0 <= i < j < fs.len() implies (#[trigger] fs[i]).id < (
        #[trigger] fs[j]).id by {
            if pred(s.last()) {
                assert(fs == ft.push(s.last()));
                if j < fs.len() - 1 {
                    assert(fs[i] == ft[i] && fs[j] == ft[j]);
                } else {
                    assert(fs[j] == s.last());
                    assert(fs[i] == ft[i]);
                    lemma_filter_sub(t, pred, i);
                    let w = choose|w: int| 0 <= w < t.len() && t[w] == ft[i];
                    assert(s[w] == t[w]);
                    assert(s[w].id < s.last().id);
                }
            } else {
                assert(fs == ft);
            }
        }
    }
}

/// One backfill invocation that scans a nonempty batch keeps the match
/// index sound and complete up to the advanced cursor.
pub proof fn lemma_backfill_step(
    m0: StoreModel,
    m1: StoreModel,
    account: Seq<char>,
    chunk_size: u32,
    force_full: bool,
    n: usize,
)
    requires
        wf_model(m0),
        !force_full ==> matches_sound(m0, account),
        !force_full ==> matches_complete_up_to(m0, account),
        n > 0,
        m1.emails == m0.emails,
        m1.filters == m0.filters,
        n == refresh_batch(
            m0.emails,
            account,
            refresh_start_cursor(m0, account, force_full),
            chunk_size,
        ).len(),
        forall|p: (i64, i64)|
            #[trigger] m1.matched.contains(p) <==> refresh_kept_matched(
                m0,
                account,
                force_full,
            ).contains(p) || added_pair(
                refresh_batch(
                    m0.emails,
                    account,
                    refresh_start_cursor(m0, account, force_full),
                    chunk_size,
                ),
                m0.filters,
                p,
            ),
        filter_cursor_of(m1, account) == refresh_batch(
            m0.emails,
            account,
            refresh_start_cursor(m0, account, force_full),
            chunk_size,
        ).last().id,
    ensures
        matches_sound(m1, account),
        matches_complete_up_to(m1, account),
{
    let c = refresh_start_cursor(m0, account, force_full);
    let bp = crate::storage::batch_pred(account, c);
    let all = m0.emails.filter(bp);
    let batch = refresh_batch(m0.emails, account, c, chunk_size);
    let kept = refresh_kept_matched(m0, account, force_full);
    assert(batch.len() == n);
    assert(forall|i: int| 0 <= i < batch.len() ==> batch[i] == all[i]);
    lemma_filter_id_ascending(m0.emails, bp);
    // Soundness of the new state.
    assert forall|p: (i64, i64)|
        #[trigger] m1.matched.contains(p) && pair_in_account(m1.emails, account, p) implies
        added_pair(account_rows(m1.emails, account), m1.filters, p) by {
        if kept.contains(p) {
            if force_full {
                let w = choose|w: int| 0 <= w < kept.len() && kept[w] == p;
                lemma_filter_sub(
                    m0.matched,
                    crate::storage::keep_pair_pred(m0.emails, account),
                    w,
                );
            } else {
                assert(m0.matched.contains(p));
            }
        } else {
            assert(added_pair(batch, m0.filters, p));
            let (bi, fj): (int, int) = choose|bi: int, fj: int|
                0 <= bi < batch.len() && 0 <= fj < m0.filters.len() && (#[trigger] batch[bi]).id
                    == p.0 && (#[trigger] m0.filters[fj]).id == p.1 && m0.filters[fj].enabled
                    && row_matches_filter(batch[bi], m0.filters[fj]);
            let row = batch[bi];
            lemma_filter_sub(m0.emails, bp, bi);
            assert(m0.emails.contains(row));
            let w = choose|w: int| 0 <= w < m0.emails.len() && m0.emails[w] == row;
            m0.emails.lemma_filter_contains(account_row_pred(account), w);
            assert(account_rows(m0.emails, account).contains(row));
            let ai = choose|ai: int|
                0 <= ai < account_rows(m0.emails, account).len() && account_rows(
                    m0.emails,
                    account,
                )[ai] == row;
            assert(added_pair(account_rows(m0.emails, account), m0.filters, p));
        }
    }
    // Completeness up to the advanced cursor.
    let last_id = batch.last().id;
    assert forall|bi: int, fj: int|
        0 <= bi < m1.emails.len() && 0 <= fj < m1.filters.len() && (
        #[trigger] m1.emails[bi]).account == account && m1.emails[bi].id <= filter_cursor_of(
            m1,
            account,
        ) && (#[trigger] m1.filters[fj]).enabled && row_matches_filter(
            m1.emails[bi],
            m1.filters[fj],
        ) implies m1.matched.contains((m1.emails[bi].id, m1.filters[fj].id)) by {
        let row = m0.emails[bi];
        if row.id <= c {
            assert(!force_full);
            if account_pair_count(m0, account) == 0 && filter_cursor_of(m0, account) > 0 {
                crate::storage::lemma_email_id_bounds_pub(m0, bi);
                assert(false);
            } else {
                assert(c == filter_cursor_of(m0, account));
                assert(m0.matched.contains((row.id, m0.filters[fj].id)));
                assert(kept.contains((row.id, m0.filters[fj].id)));
            }
        } else {
            // the row lies in the scanned batch
            m0.emails.lemma_filter_contains(bp, bi);
            assert(all.contains(row));
            let ai = choose|ai: int| 0 <= ai < all.len() && all[ai] == row;
            assert(all[n - 1] == batch[n - 1]);
            assert(batch[n - 1] == batch.last());
            if ai >= n {
                assert(all[n - 1].id < all[ai].id);
                assert(false);
            }
            assert(batch[ai] == row);
            assert(added_pair(batch, m0.filters, (row.id, m0.filters[fj].id)));
        }
    }
}

/// A backfill invocation that reports zero scanned rows certifies that
/// the match index of the account equals what a single unbounded pass
/// over all its messages would produce: recorded pairs and true
/// matches of enabled rules coincide.
pub proof fn lemma_backfill_caught_up(
    m0: StoreModel,
    m1: StoreModel,
    account: Seq<char>,
    chunk_size: u32,
    force_full: bool,
)
    requires
        wf_model(m0),
        chunk_size > 0,
        !force_full ==> matches_sound(m0, account),
        !force_full ==> matches_complete_up_to(m0, account),
        m1.emails == m0.emails,
        m1.filters == m0.filters,
        refresh_batch(
            m0.emails,
            account,
            refresh_start_cursor(m0, account, force_full),
            chunk_size,
        ).len() == 0,
        forall|p: (i64, i64)|
            #[trigger] m1.matched.contains(p) <==> refresh_kept_matched(
                m0,
                account,
                force_full,
            ).contains(p),
    ensures
        matches_sound(m1, account),
        forall|bi: int, fj: int|
            #![trigger m1.emails[bi], m1.filters[fj]]
            0 <= bi < m1.emails.len() && 0 <= fj < m1.filters.len() && m1.emails[bi].account
                == account && m1.filters[fj].enabled && row_matches_filter(
                m1.emails[bi],
                m1.filters[fj],
            ) ==> m1.matched.contains((m1.emails[bi].id, m1.filters[fj].id)),
{
    let c = refresh_start_cursor(m0, account, force_full);
    let bp = crate::storage::batch_pred(account, c);
    let all = m0.emails.filter(bp);
    let kept = refresh_kept_matched(m0, account, force_full);
    assert(all.len() == 0);
    assert forall|p: (i64, i64)|
        #[trigger] m1.matched.contains(p) && pair_in_account(m1.emails, account, p) implies
        added_pair(account_rows(m1.emails, account), m1.filters, p) by {
        if force_full {
            let w = choose|w: int| 0 <= w < kept.len() && kept[w] == p;
            lemma_filter_sub(m0.matched, crate::storage::keep_pair_pred(m0.emails, account), w);
            assert(false);
        } else {
            assert(m0.matched.contains(p));
        }
    }
    assert forall|bi: int, fj: int|
        #![trigger m1.emails[bi], m1.filters[fj]]
        0 <= bi < m1.emails.len() && 0 <= fj < m1.filters.len() && m1.emails[bi].account
            == account && m1.filters[fj].enabled && row_matches_filter(
            m1.emails[bi],
            m1.filters[fj],
        ) implies m1.matched.contains((m1.emails[bi].id, m1.filters[fj].id)) by {
        let row = m0.emails[bi];
        if row.id > c {
            m0.emails.lemma_filter_contains(bp, bi);
            assert(all.contains(row));
            assert(false);
        }
        if force_full {
            crate::storage::lemma_email_id_bounds_pub(m0, bi);
            assert(false);
        } else {
            if account_pair_count(m0, account) == 0 && filter_cursor_of(m0, account) > 0 {
                crate::storage::lemma_email_id_bounds_pub(m0, bi);
                assert(false);
            } else {
                assert(m0.matched.contains((row.id, m0.filters[fj].id)));
            }
        }
    }
}

/// Backfill progress: an invocation that scans a nonempty batch
/// strictly shrinks the account's set of rows past the cursor — from
/// the rows past the start cursor to the rows past the advanced
/// cursor.  While no rewind fires between invocations, each one starts
/// from the previously advanced cursor, so a loop that re-invokes the
/// backfill until it reports zero scanned rows ends after at most as
/// many invocations as the account has stored rows.  (An account with
/// rows but no recorded match ever keeps rewinding instead and never
/// reports zero.)
pub proof fn lemma_backfill_progress(
    rows: Seq<EmailRowV>,
    account: Seq<char>,
    cur: i64,
    chunk_size: u32,
)
    ensures
        ({
            let batch = refresh_batch(rows, account, cur, chunk_size);
            batch.len() > 0 ==> rows.filter(
                crate::storage::batch_pred(account, batch.last().id),
            ).len() < rows.filter(crate::storage::batch_pred(account, cur)).len()
        }),
{
    let batch = refresh_batch(rows, account, cur, chunk_size);
    if batch.len() > 0 {
        let bp = crate::storage::batch_pred(account, cur);
        let all = rows.filter(bp);
        let k = batch.len() - 1;
        assert(batch.last() == all[k]);
        lemma_filter_sub(rows, bp, k);
        let tail_row = all[k];
        assert(bp(tail_row));
        let bp2 = crate::storage::batch_pred(account, tail_row.id);
        assert(forall|i: int| 0 <= i < rows.len() ==> (bp2(#[trigger] rows[i]) ==> bp(rows[i])));
        lemma_filter_monotone(rows, bp, bp2);
        let w = choose|w: int| 0 <= w < rows.len() && rows[w] == tail_row;
        assert(bp(rows[w]) && !bp2(rows[w]));
    }
}

/// Rewind correctness: with no recorded matches for the account but a
/// nonzero backfill cursor, the next invocation starts over from the
/// beginning, and with a chunk large enough it rescans every row of
/// the account.
pub proof fn lemma_refresh_rewinds(m: StoreModel, account: Seq<char>, chunk_size: u32)
    requires
        wf_model(m),
        account_pair_count(m, account) == 0,
        filter_cursor_of(m, account) > 0,
    ensures
        refresh_start_cursor(m, account, false) == 0,
        account_rows(m.emails, account).len() <= chunk_size ==> refresh_batch(
            m.emails,
            account,
            refresh_start_cursor(m, account, false),
            chunk_size,
        ) == account_rows(m.emails, account),
{
    assert forall|i: int|
        0 <= i < m.emails.len() implies crate::storage::batch_pred(account, 0)(
        #[trigger] m.emails[i],
    ) == account_row_pred(account)(m.emails[i]) by {
        crate::storage::lemma_email_id_bounds_pub(m, i);
    }
    lemma_filter_congruent(m.emails, crate::storage::batch_pred(account, 0), account_row_pred(account));
}


/// An account that has no recorded matches and a zero backfill cursor
/// satisfies the backfill invariants outright: a fresh store, or one
/// whose account state was just reset, can enter the incremental loop.
pub proof fn lemma_initial_backfill_invariants(m: StoreModel, account: Seq<char>)
    requires
        wf_model(m),
        account_pair_count(m, account) == 0,
        filter_cursor_of(m, account) == 0,
    ensures
        matches_sound(m, account),
        matches_complete_up_to(m, account),
{
    assert forall|p: (i64, i64)|
        #[trigger] m.matched.contains(p) && pair_in_account(m.emails, account, p) implies
        added_pair(account_rows(m.emails, account), m.filters, p) by {
        let z = choose|z: int| 0 <= z < m.matched.len() && m.matched[z] == p;
        m.matched.lemma_filter_contains(
            crate::storage::account_pair_pred(m.emails, account),
            z,
        );
        let f = m.matched.filter(crate::storage::account_pair_pred(m.emails, account));
        assert(f.contains(p));
        let w = choose|w: int| 0 <= w < f.len() && f[w] == p;
        assert(false);
    }
    assert forall|bi: int, fj: int|
        0 <= bi < m.emails.len() && 0 <= fj < m.filters.len() && (
        #[trigger] m.emails[bi]).account == account && m.emails[bi].id <= filter_cursor_of(
            m,
            account,
        ) && (#[trigger] m.filters[fj]).enabled && row_matches_filter(
            m.emails[bi],
            m.filters[fj],
        ) implies m.matched.contains((m.emails[bi].id, m.filters[fj].id)) by {
        crate::storage::lemma_email_id_bounds_pub(m, bi);
    }
}

/// The rows that truly match one rule, within listing scope.
pub open spec fn rule_match_pred(
    m: StoreModel,
    account: Seq<char>,
    unread_only: bool,
    fj: int,
) -> spec_fn(EmailRowV) -> bool {
    |r: EmailRowV| in_scope(r, account, unread_only) && row_matches_filter(r, m.filters[fj])
}

/// Filter match correctness: once the match index of an account is
/// sound and complete (as a backfill run that reports zero certifies),
/// the reported count of every enabled rule equals the number of
/// in-scope messages whose targeted field satisfies that rule.
pub proof fn lemma_match_counts_after_backfill(
    m: StoreModel,
    account: Seq<char>,
    unread_only: bool,
    fj: int,
)
    requires
        wf_model(m),
        matches_sound(m, account),
        forall|bi: int, fk: int|
            #![trigger m.emails[bi], m.filters[fk]]
            0 <= bi < m.emails.len() && 0 <= fk < m.filters.len() && m.emails[bi].account
                == account && m.filters[fk].enabled && row_matches_filter(
                m.emails[bi],
                m.filters[fk],
            ) ==> m.matched.contains((m.emails[bi].id, m.filters[fk].id)),
        0 <= fj < m.filters.len(),
        m.filters[fj].enabled,
    ensures
        match_count_of(
            m,
            account,
            unread_only,
            m.filters[fj].id,
        ) == scope_rows(m.emails, account, unread_only).filter(
            |r: EmailRowV| row_matches_filter(r, m.filters[fj]),
        ).len(),
{
    let fid = m.filters[fj].id;
    let cp = count_pred(m, account, unread_only, fid);
    let rp = rule_match_pred(m, account, unread_only, fj);
    assert forall|i: int| 0 <= i < m.emails.len() implies cp(#[trigger] m.emails[i]) == rp(
        m.emails[i],
    ) by {
        let r = m.emails[i];
        if in_scope(r, account, unread_only) {
            if m.matched.contains((r.id, fid)) {
                assert(pair_in_account(m.emails, account, (r.id, fid)));
                assert(added_pair(account_rows(m.emails, account), m.filters, (r.id, fid)));
                let (bi, fk): (int, int) = choose|bi: int, fk: int|
                    0 <= bi < account_rows(m.emails, account).len() && 0 <= fk < m.filters.len()
                        && (#[trigger] account_rows(m.emails, account)[bi]).id == r.id && (
                    #[trigger] m.filters[fk]).id == fid && m.filters[fk].enabled
                        && row_matches_filter(account_rows(m.emails, account)[bi], m.filters[fk]);
                lemma_filter_sub(m.emails, account_row_pred(account), bi);
                let row = account_rows(m.emails, account)[bi];
                let w = choose|w: int| 0 <= w < m.emails.len() && m.emails[w] == row;
                assert(m.emails[w].id == m.emails[i].id);
                assert(w == i);
                assert(m.filters[fk].id == m.filters[fj].id);
                assert(fk == fj);
                assert(row_matches_filter(r, m.filters[fj]));
            }
            if row_matches_filter(r, m.filters[fj]) {
                assert(m.matched.contains((m.emails[i].id, m.filters[fj].id)));
            }
        }
    }
    lemma_filter_congruent(m.emails, cp, rp);
    let inner = m.emails.filter(rp);
    let two_step = scope_rows(m.emails, account, unread_only).filter(
        |r: EmailRowV| row_matches_filter(r, m.filters[fj]),
    );
    lemma_filter_compose(
        m.emails,
        scope_pred(account, unread_only),
        (|r: EmailRowV| row_matches_filter(r, m.filters[fj])),
        rp,
    );
}

/// Filtering by a conjunction equals filtering in two stages.
proof fn lemma_filter_compose<A>(
    s: Seq<A>,
    p1: spec_fn(A) -> bool,
    p2: spec_fn(A) -> bool,
    both: spec_fn(A) -> bool,
)
    requires
        forall|x: A| #[trigger] both(x) == (p1(x) && p2(x)),
    ensures
        s.filter(both) == s.filter(p1).filter(p2),
    decreases s.len(),
{
    reveal_with_fuel(Seq::filter, 2);
    if s.len() == 0 {
    } else {
        let t = s.drop_last();
        lemma_filter_compose(t, p1, p2, both);
        if p1(s.last()) {
            assert(s.filter(p1) == t.filter(p1).push(s.last()));
            assert(s.filter(p1).drop_last() =~= t.filter(p1));
            assert(s.filter(p1).last() == s.last());
        } else {
            assert(s.filter(p1) == t.filter(p1));
        }
    }
}

} // verus!
