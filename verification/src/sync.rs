//! The sync coordinator: at most one sync per account in flight, and
//! the background session that pulls a bounded-chunk fetch through the
//! store while streaming progress stages.

use vstd::prelude::*;

use crate::gmail::{
    fetch_emails_since, fetch_unread_emails, prefetch_ok, spec_selected, spec_unread, unseen_pred,
    RemoteMailbox,
};
use crate::mail::str_eq;
use crate::storage::{
    gmail_views, has_email, has_uid_max, lemma_set_body_seq_identities, lemma_upsert_seq_identities,
    lemma_upsert_seq_next_bound, sync_uid_of, upsert_seq, Storage, StoreModel,
};

verus! {

/// One progress report of a background sync: the stage name, the
/// cumulative processed count, the total, and an error message on the
/// terminal error stage.
pub struct SyncProgress {
    pub stage: String,
    pub processed: usize,
    pub total: usize,
    pub message: Option<String>,
}

/// What starting a sync does to the set of in-flight accounts: a
/// silent refusal while the account is already in flight, else the
/// account joins the set.
pub open spec fn begin_result(s: Seq<Seq<char>>, a: Seq<char>) -> (bool, Seq<Seq<char>>) {
    if s.contains(a) {
        (false, s)
    } else {
        (true, s.push(a))
    }
}

/// The set of accounts with a sync in flight, guarded by its own lock
/// in the surrounding application and checked-and-set atomically.
pub struct SyncCoordinator {
    syncing: Vec<String>,
}

impl SyncCoordinator {
    /// The accounts currently in flight.
    pub closed spec fn accounts(&self) -> Seq<Seq<char>> {
        self.syncing@.map_values(|x: String| x@)
    }

    /// No account appears twice.
    pub closed spec fn wf(&self) -> bool {
        forall|i: int, j: int|
            #![trigger self.accounts()[i], self.accounts()[j]]
            0 <= i < j < self.accounts().len() ==> self.accounts()[i] != self.accounts()[j]
    }

    /// An empty coordinator.
    pub fn new() -> (r: Self)
        ensures
            r.wf(),
            r.accounts().len() == 0,
    {
        let r = SyncCoordinator { syncing: Vec::new() };
        proof {
            assert(r.accounts() =~= Seq::<Seq<char>>::empty());
        }
        r
    }

    /// Whether a sync for the account is in flight.
    pub fn is_syncing(&self, account: &str) -> (r: bool)
        ensures
            r == self.accounts().contains(account@),
    {
        let mut i: usize = 0;
        while i < self.syncing.len()
            invariant
                i <= self.accounts().len(),
                self.accounts().len() == self.syncing@.len(),
                forall|j: int| 0 <= j < i ==> #[trigger] self.accounts()[j] != account@,
            decreases self.accounts().len() - i,
        {
            proof {
                assert(self.accounts()[i as int] == self.syncing@[i as int]@);
            }
            if str_eq(self.syncing[i].as_str(), account) {
                return true;
            }
            i = i + 1;
        }
        proof {
            if self.accounts().contains(account@) {
                let w = choose|w: int|
                    0 <= w < self.accounts().len() && self.accounts()[w] == account@;
            }
        }
        false
    }

    /// Marks the account as syncing unless a sync is already in
    /// flight; reports whether this call started one.
    pub fn begin_sync(&mut self, account: &str) -> (started: bool)
        requires
            old(self).wf(),
        ensures
            final(self).wf(),
            (started, final(self).accounts()) == begin_result(old(self).accounts(), account@),
    {
        if self.is_syncing(account) {
            return false;
        }
        let ghost before = self.accounts();
        self.syncing.push(account.to_owned());
        proof {
            assert(self.accounts() =~= before.push(account@));
            assert forall|i: int, j: int|
                0 <= i < j < self.accounts().len() implies #[trigger] self.accounts()[i]
                != #[trigger] self.accounts()[j] by {
                if j == self.accounts().len() - 1 {
                    assert(self.accounts()[i] == before[i]);
                    assert(before.contains(before[i]));
                }
            }
        }
        true
    }

    /// Clears the account's syncing marker, if set.
    pub fn finish_sync(&mut self, account: &str)
        requires
            old(self).wf(),
        ensures
            final(self).wf(),
            forall|a: Seq<char>|
                #[trigger] final(self).accounts().contains(a) <==> (old(
                    self,
                ).accounts().contains(a) && a != account@),
    {
        let ghost before = self.accounts();
        let mut i: usize = 0;
        while i < self.syncing.len()
            invariant
                i <= before.len(),
                before.len() == self.syncing@.len(),
                before == self.accounts(),
                *self == *old(self),
                old(self).wf(),
                forall|j: int| 0 <= j < i ==> #[trigger] before[j] != account@,
            decreases before.len() - i,
        {
            proof {
                assert(before[i as int] == self.syncing@[i as int]@);
            }
            if str_eq(self.syncing[i].as_str(), account) {
                self.syncing.remove(i);
                proof {
                    let now = self.accounts();
                    assert(now =~= before.remove(i as int));
                    assert forall|a: Seq<char>| #[trigger] now.contains(a) implies (
                    before.contains(a) && a != account@) by {
                        let w = choose|w: int| 0 <= w < now.len() && now[w] == a;
                        if w < i as int {
                            assert(before[w] == a);
                        } else {
                            assert(before[w + 1] == a);
                        }
                        if a == account@ {
                            if w < i as int {
                            } else {
                                assert(before[w + 1] == before[i as int]);
                            }
                            assert(false);
                        }
                    }
                    assert forall|a: Seq<char>|
                        before.contains(a) && a != account@ implies #[trigger] now.contains(
                        a,
                    ) by {
                        let w = choose|w: int| 0 <= w < before.len() && before[w] == a;
                        if w < i as int {
                            assert(now[w] == a);
                        } else if w > i as int {
                            assert(now[w - 1] == a);
                        }
                    }
                    assert forall|x: int, y: int|
                        0 <= x < y < now.len() implies #[trigger] now[x] != #[trigger] now[y] by {
                        if y < i as int {
                            assert(now[x] == before[x] && now[y] == before[y]);
                        } else if x < i as int {
                            assert(now[x] == before[x] && now[y] == before[y + 1]);
                        } else {
                            assert(now[x] == before[x + 1] && now[y] == before[y + 1]);
                        }
                    }
                }
                return ;
            }
            i = i + 1;
        }
        proof {
            assert forall|a: Seq<char>| #[trigger] self.accounts().contains(a) implies (
            before.contains(a) && a != account@) by {
                let w = choose|w: int|
                    0 <= w < self.accounts().len() && self.accounts()[w] == a;
            }
        }
    }
}

/// While a sync for an account is in flight, a second start is
/// refused and changes nothing: of two concurrent start requests,
/// exactly one runs.
pub proof fn lemma_single_sync_per_account(s: Seq<Seq<char>>, a: Seq<char>)
    ensures
        ({
            let r1 = begin_result(s, a);
            let r2 = begin_result(r1.1, a);
            !r2.0 && r2.1 == r1.1
        }),
{
    if s.contains(a) {
    } else {
        assert(s.push(a)[s.len() as int] == a);
        assert(s.push(a).contains(a));
    }
}


/// Where an incremental sync resumes: the stored cursor, or, before
/// any cursor exists, the highest already-stored UID of the account.
pub open spec fn resolved_since(m: StoreModel, account: Seq<char>) -> u32 {
    let c = sync_uid_of(m, account);
    if c != 0 {
        c
    } else if exists|i: int|
        0 <= i < m.emails.len() && (#[trigger] m.emails[i]).account == account {
        choose|mx: u32| has_uid_max(m.emails, account, mx)
    } else {
        0u32
    }
}

/// Runs one background sync session against a snapshot of the remote
/// mailbox: resolves the resume cursor, fetches everything newer in
/// bounded chunks, persists each chunk and advances the cursor as it
/// lands, and reports the stages start, progress (per chunk), and
/// complete or error.  The filter engine's state is untouched.
pub fn run_sync<S: Storage>(
    store: &mut S,
    mbox: &RemoteMailbox,
    account: &str,
    batch_size: usize,
    body_prefetch_limit: usize,
) -> (events: Vec<SyncProgress>)
    requires
        old(store).inv(),
        mbox.wf(),
        batch_size > 0,
        old(store).model().next_email_id + mbox.msgs@.len() <= i64::MAX,
    ensures
        final(store).inv(),
        final(store).model().filters == old(store).model().filters,
        final(store).model().matched == old(store).model().matched,
        final(store).model().filter_cursors == old(store).model().filter_cursors,
        events@.len() >= 2,
        events@[0].stage@ == "start"@,
        events@[events@.len() - 1].stage@ == "complete"@ || events@[events@.len() - 1].stage@
            == "error"@,
        forall|i: int| 0 < i < events@.len() - 1 ==> (#[trigger] events@[i]).stage@ == "progress"@,
        ({
            let sel = spec_selected(mbox.msgs_v(), resolved_since(old(store).model(), account@));
            events@[events@.len() - 1].stage@ == "complete"@ && sel.len() > 0 ==> sync_uid_of(
                final(store).model(),
                account@,
            ) == sel.last().uid
        }),
        ({
            let sel = spec_selected(mbox.msgs_v(), resolved_since(old(store).model(), account@));
            events@[events@.len() - 1].stage@ == "complete"@ ==> forall|k: int|
                0 <= k < sel.len() ==> has_email(
                    final(store).model().emails,
                    account@,
                    (#[trigger] sel[k]).uid,
                )
        }),
        ({
            let sel = spec_selected(mbox.msgs_v(), resolved_since(old(store).model(), account@));
            let blim = if body_prefetch_limit as int <= sel.len() {
                body_prefetch_limit as int
            } else {
                sel.len() as int
            };
            prefetch_ok(sel, sel.len() - blim) ==> events@[events@.len() - 1].stage@
                == "complete"@
        }),
        ({
            let sel = spec_selected(mbox.msgs_v(), resolved_since(old(store).model(), account@));
            forall|i: int|
                0 < i < events@.len() - 1 ==> ((#[trigger] events@[i]).processed == (if i * (
                batch_size as int) <= sel.len() {
                    i * (batch_size as int)
                } else {
                    sel.len() as int
                }) && events@[i].total == sel.len())
        }),
        ({
            let sel = spec_selected(mbox.msgs_v(), resolved_since(old(store).model(), account@));
            events@[events@.len() - 1].stage@ == "complete"@ ==> (events@[events@.len()
                - 1].processed == sel.len() && events@[events@.len() - 1].total == sel.len())
        }),
        events@[events@.len() - 1].stage@ == "error"@ ==> events@[events@.len() - 1].message
            is Some,
{
    let ghost m0 = old(store).model();
    let mut events: Vec<SyncProgress> = Vec::new();
    events.push(
        SyncProgress { stage: "start".to_owned(), processed: 0, total: 0, message: None },
    );
    let mut last_uid = match store.get_last_uid(account) {
        Ok(u) => u,
        Err(e) => {
            events.push(
                SyncProgress { stage: "error".to_owned(), processed: 0, total: 0, message: Some(e) },
            );
            return events;
        },
    };
    if last_uid == 0 {
        match store.get_max_uid(account) {
            Ok(Some(mx)) => {
                proof {
                    assert(has_uid_max(m0.emails, account@, mx));
                    let mx2 = choose|m: u32| has_uid_max(m0.emails, account@, m);
                    assert(has_uid_max(m0.emails, account@, mx2));
                    assert(mx2 <= mx && mx <= mx2);
                }
                match store.set_last_uid(account, mx) {
                    Ok(_) => {},
                    Err(e) => {
                        events.push(
                            SyncProgress {
                                stage: "error".to_owned(),
                                processed: 0,
                                total: 0,
                                message: Some(e),
                            },
                        );
                        return events;
                    },
                }
                last_uid = mx;
            },
            Ok(None) => {},
            Err(e) => {
                events.push(
                    SyncProgress {
                        stage: "error".to_owned(),
                        processed: 0,
                        total: 0,
                        message: Some(e),
                    },
                );
                return events;
            },
        }
    }
    proof {
        assert(last_uid == resolved_since(m0, account@));
    }
    let ghost sel = spec_selected(mbox.msgs_v(), last_uid);
    match fetch_emails_since(mbox, last_uid, batch_size, body_prefetch_limit) {
        Err(e) => {
            events.push(
                SyncProgress { stage: "error".to_owned(), processed: 0, total: 0, message: Some(e) },
            );
            proof {
                broadcast use vstd::string::group_string_axioms;

                reveal_strlit("error");
                reveal_strlit("complete");
                assert("error"@.len() == 5);
                assert("complete"@.len() == 8);
                assert("error"@ != "complete"@);
            }
            events
        },
        Ok((chunks, total, max_uid)) => {
            proof {
                mbox.msgs_v().lemma_filter_len(crate::gmail::since_pred(last_uid));
            }
            let mut ci: usize = 0;
            while ci < chunks.len()
                invariant
                    ci <= chunks@.len(),
                    store.inv(),
                    mbox.wf(),
                    batch_size > 0,
                    sel == spec_selected(mbox.msgs_v(), last_uid),
                    sel.len() <= mbox.msgs@.len(),
                    total == sel.len(),
                    chunks@.len() == crate::gmail::spec_chunk_count(
                        sel.len() as int,
                        batch_size as int,
                    ),
                    store.model().filters == m0.filters,
                    store.model().matched == m0.matched,
                    store.model().filter_cursors == m0.filter_cursors,
                    store.model().next_email_id + (sel.len() - (if ci * batch_size <= sel.len() {
                        ci * (batch_size as int)
                    } else {
                        sel.len() as int
                    })) <= i64::MAX,
                    forall|cj: int|
                        0 <= cj < chunks@.len() ==> {
                            let lo = cj * (batch_size as int);
                            let hi = if lo + batch_size <= sel.len() {
                                lo + batch_size
                            } else {
                                sel.len() as int
                            };
                            gmail_views((#[trigger] chunks@[cj]).emails@) == crate::gmail::chunk_emails(
                                sel,
                                lo,
                                hi,
                            )
                        },
                    forall|cj: int|
                        0 <= cj < chunks@.len() ==> {
                            let lo = cj * (batch_size as int);
                            let hi = if lo + batch_size <= sel.len() {
                                lo + batch_size
                            } else {
                                sel.len() as int
                            };
                            (#[trigger] chunks@[cj]).processed == hi && chunks@[cj].total
                                == sel.len()
                        },
                    events@.len() == ci + 1,
                    events@[0].stage@ == "start"@,
                    forall|i: int|
                        0 < i < events@.len() ==> (#[trigger] events@[i]).stage@ == "progress"@,
                    forall|i: int|
                        0 < i < events@.len() ==> ((#[trigger] events@[i]).processed == (if i * (
                        batch_size as int) <= sel.len() {
                            i * (batch_size as int)
                        } else {
                            sel.len() as int
                        }) && events@[i].total == sel.len()),
                    forall|k: int|
                        0 <= k < (if ci * batch_size <= sel.len() {
                            ci * (batch_size as int)
                        } else {
                            sel.len() as int
                        }) ==> has_email(store.model().emails, account@, (#[trigger] sel[k]).uid),
                decreases chunks@.len() - ci,
            {
                let chunk = &chunks[ci];
                proof {
                    let lo = ci * (batch_size as int);
                    let hi = if lo + batch_size <= sel.len() {
                        lo + (batch_size as int)
                    } else {
                        sel.len() as int
                    };
                    let n = sel.len() as int;
                    let b = batch_size as int;
                    let cnt = chunks@.len() as int;
                    assert(n > 0);
                    assert(cnt == (n + b - 1) / b);
                    assert((cnt - 1) * b < n) by (nonlinear_arith)
                        requires
                            b > 0,
                            n > 0,
                            cnt == (n + b - 1) / b,
                    ;
                    assert(lo <= (cnt - 1) * b) by (nonlinear_arith)
                        requires
                            b > 0,
                            0 <= ci < cnt,
                            lo == ci * b,
                    ;
                    assert(lo < n);
                    assert(gmail_views(chunk.emails@) == crate::gmail::chunk_emails(sel, lo, hi));
                    assert(chunk.emails@.len() == hi - lo);
                    assert((ci + 1) * (batch_size as int) == ci * (batch_size as int)
                        + batch_size) by (nonlinear_arith);
                    if ci > 0 {
                        assert(ci * (batch_size as int) >= 1 * (batch_size as int))
                            by (nonlinear_arith)
                            requires ci >= 1, batch_size >= 1,
                        ;
                    }
                    lemma_upsert_seq_next_bound(
                        store.model().emails,
                        store.model().next_email_id,
                        account@,
                        "INBOX"@,
                        gmail_views(chunk.emails@),
                    );
                }
                let ghost pre_emails = store.model().emails;
                let ghost pre_next = store.model().next_email_id;
                match store.upsert_emails(account, "INBOX", &chunk.emails) {
                    Ok(_) => {},
                    Err(e) => {
                        events.push(
                            SyncProgress {
                                stage: "error".to_owned(),
                                processed: 0,
                                total: 0,
                                message: Some(e),
                            },
                        );
                        return events;
                    },
                }
                let ghost mid_emails = store.model().emails;
                match store.set_email_bodies(account, &chunk.bodies) {
                    Ok(_) => {},
                    Err(e) => {
                        events.push(
                            SyncProgress {
                                stage: "error".to_owned(),
                                processed: 0,
                                total: 0,
                                message: Some(e),
                            },
                        );
                        return events;
                    },
                }
                proof {
                    let lo = ci * (batch_size as int);
                    let hi = if lo + batch_size <= sel.len() {
                        lo + (batch_size as int)
                    } else {
                        sel.len() as int
                    };
                    lemma_upsert_seq_identities(
                        pre_emails,
                        pre_next,
                        account@,
                        "INBOX"@,
                        gmail_views(chunk.emails@),
                    );
                    lemma_set_body_seq_identities(
                        mid_emails,
                        account@,
                        crate::storage::body_views(chunk.bodies@),
                    );
                    assert forall|k: int| 0 <= k < hi implies has_email(
                        store.model().emails,
                        account@,
                        (#[trigger] sel[k]).uid,
                    ) by {
                        if k >= lo {
                            assert(gmail_views(chunk.emails@)[k - lo] == crate::gmail::convert_msg(
                                sel[k],
                                sel[k].seen,
                            ));
                            assert(gmail_views(chunk.emails@)[k - lo].uid == sel[k].uid);
                            assert(has_email(mid_emails, account@, sel[k].uid));
                        } else {
                            assert(has_email(pre_emails, account@, sel[k].uid));
                            assert(has_email(mid_emails, account@, sel[k].uid));
                        }
                    }
                }
                let mut chunk_max: Option<u32> = None;
                let mut k: usize = 0;
                while k < chunk.emails.len()
                    invariant
                        k <= chunk.emails@.len(),
                    decreases chunk.emails@.len() - k,
                {
                    let u = chunk.emails[k].uid;
                    chunk_max = match chunk_max {
                        None => Some(u),
                        Some(c) => if u > c {
                            Some(u)
                        } else {
                            Some(c)
                        },
                    };
                    k = k + 1;
                }
                if let Some(cm) = chunk_max {
                    match store.set_last_uid(account, cm) {
                        Ok(_) => {},
                        Err(e) => {
                            events.push(
                                SyncProgress {
                                    stage: "error".to_owned(),
                                    processed: 0,
                                    total: 0,
                                    message: Some(e),
                                },
                            );
                            return events;
                        },
                    }
                }
                events.push(
                    SyncProgress {
                        stage: "progress".to_owned(),
                        processed: chunk.processed,
                        total: chunk.total,
                        message: None,
                    },
                );
                ci = ci + 1;
            }
            proof {
                let n = sel.len() as int;
                let b = batch_size as int;
                let cnt = chunks@.len() as int;
                if n > 0 {
                    assert(cnt == (n + b - 1) / b);
                    assert(cnt * b >= n) by (nonlinear_arith)
                        requires
                            b > 0,
                            n > 0,
                            cnt == (n + b - 1) / b,
                    ;
                }
                assert(forall|k: int|
                    0 <= k < sel.len() ==> has_email(
                        store.model().emails,
                        account@,
                        (#[trigger] sel[k]).uid,
                    ));
            }
            match max_uid {
                Some(mx) => {
                    match store.set_last_uid(account, mx) {
                        Ok(_) => {},
                        Err(e) => {
                            events.push(
                                SyncProgress {
                                    stage: "error".to_owned(),
                                    processed: 0,
                                    total: 0,
                                    message: Some(e),
                                },
                            );
                            return events;
                        },
                    }
                },
                None => {
                    match store.get_max_uid(account) {
                        Ok(Some(mx)) => {
                            match store.set_last_uid(account, mx) {
                                Ok(_) => {},
                                Err(e) => {
                                    events.push(
                                        SyncProgress {
                                            stage: "error".to_owned(),
                                            processed: 0,
                                            total: 0,
                                            message: Some(e),
                                        },
                                    );
                                    return events;
                                },
                            }
                        },
                        Ok(None) => {},
                        Err(e) => {
                            events.push(
                                SyncProgress {
                                    stage: "error".to_owned(),
                                    processed: 0,
                                    total: 0,
                                    message: Some(e),
                                },
                            );
                            return events;
                        },
                    }
                },
            }
            proof {
                assert(forall|k: int|
                    0 <= k < sel.len() ==> has_email(
                        store.model().emails,
                        account@,
                        (#[trigger] sel[k]).uid,
                    ));
            }
            events.push(
                SyncProgress {
                    stage: "complete".to_owned(),
                    processed: total,
                    total: total,
                    message: None,
                },
            );
            proof {
                broadcast use vstd::string::group_string_axioms;

                reveal_strlit("error");
                reveal_strlit("complete");
                assert("error"@.len() == 5);
                assert("complete"@.len() == 8);
                assert("error"@ != "complete"@);
            }
            events
        },
    }
}

/// Runs one unread-only background session against a snapshot of the
/// remote mailbox: fetches every unseen header, mirrors the batch into
/// the store as unread rows of the inbox, and reports the stages start
/// and complete, the latter carrying the fetched count as both
/// processed and total.  The sync cursor and the filter engine's state
/// are untouched.
pub fn run_unread_sync<S: Storage>(store: &mut S, mbox: &RemoteMailbox, account: &str) -> (events:
    Vec<SyncProgress>)
    requires
        old(store).inv(),
        old(store).model().next_email_id + mbox.msgs@.len() <= i64::MAX,
    ensures
        final(store).inv(),
        ({
            let res = upsert_seq(
                old(store).model().emails,
                old(store).model().next_email_id,
                account@,
                "INBOX"@,
                spec_unread(mbox.msgs_v()),
            );
            final(store).model().emails == res.0 && final(store).model().next_email_id == res.1
        }),
        final(store).model().filters == old(store).model().filters,
        final(store).model().matched == old(store).model().matched,
        final(store).model().sync_uids == old(store).model().sync_uids,
        final(store).model().filter_cursors == old(store).model().filter_cursors,
        final(store).model().next_filter_id == old(store).model().next_filter_id,
        events@.len() == 2,
        events@[0].stage@ == "start"@,
        events@[1].stage@ == "complete"@,
        events@[1].processed == spec_unread(mbox.msgs_v()).len(),
        events@[1].total == spec_unread(mbox.msgs_v()).len(),
        events@[1].message is None,
{
    let mut events: Vec<SyncProgress> = Vec::new();
    events.push(
        SyncProgress { stage: "start".to_owned(), processed: 0, total: 0, message: None },
    );
    let emails = match fetch_unread_emails(mbox) {
        Ok(v) => v,
        Err(e) => {
            events.push(
                SyncProgress { stage: "error".to_owned(), processed: 0, total: 0, message: Some(e) },
            );
            return events;
        },
    };
    proof {
        mbox.msgs_v().lemma_filter_len(unseen_pred());
        assert(gmail_views(emails@).len() == emails@.len());
    }
    match store.upsert_emails(account, "INBOX", &emails) {
        Ok(_) => {},
        Err(e) => {
            events.push(
                SyncProgress { stage: "error".to_owned(), processed: 0, total: 0, message: Some(e) },
            );
            return events;
        },
    }
    let count = emails.len();
    events.push(
        SyncProgress { stage: "complete".to_owned(), processed: count, total: count, message: None },
    );
    events
}

/// Starts a background sync for the account unless one is already in
/// flight (then a silent no-op), and clears the in-flight marker on
/// completion, successful or not.
pub fn start_background_sync<S: Storage>(
    coord: &mut SyncCoordinator,
    store: &mut S,
    mbox: &RemoteMailbox,
    account: &str,
    batch_size: usize,
    body_prefetch_limit: usize,
) -> (r: Option<Vec<SyncProgress>>)
    requires
        old(coord).wf(),
        old(store).inv(),
        mbox.wf(),
        batch_size > 0,
        old(store).model().next_email_id + mbox.msgs@.len() <= i64::MAX,
    ensures
        final(coord).wf(),
        forall|a: Seq<char>|
            #[trigger] final(coord).accounts().contains(a) <==> old(coord).accounts().contains(a),
        r is None <==> old(coord).accounts().contains(account@),
        r is None ==> *final(store) == *old(store),
        final(store).inv(),
        r matches Some(ev) ==> (ev@.len() >= 2 && ev@[0].stage@ == "start"@ && (ev@[ev@.len()
            - 1].stage@ == "complete"@ || ev@[ev@.len() - 1].stage@ == "error"@)),
        r matches Some(ev) ==> ({
            let sel = spec_selected(mbox.msgs_v(), resolved_since(old(store).model(), account@));
            let blim = if body_prefetch_limit as int <= sel.len() {
                body_prefetch_limit as int
            } else {
                sel.len() as int
            };
            &&& (forall|i: int|
                0 < i < ev@.len() - 1 ==> ((#[trigger] ev@[i]).stage@ == "progress"@ && ev@[
                    i
                ].processed == (if i * (batch_size as int) <= sel.len() {
                    i * (batch_size as int)
                } else {
                    sel.len() as int
                }) && ev@[i].total == sel.len()))
            &&& (prefetch_ok(sel, sel.len() - blim) ==> ev@[ev@.len() - 1].stage@ == "complete"@)
            &&& (ev@[ev@.len() - 1].stage@ == "complete"@ ==> (ev@[ev@.len() - 1].processed
                == sel.len() && ev@[ev@.len() - 1].total == sel.len()))
            &&& (ev@[ev@.len() - 1].stage@ == "error"@ ==> ev@[ev@.len() - 1].message is Some)
        }),
{
    if !coord.begin_sync(account) {
        return None;
    }
    let events = run_sync(store, mbox, account, batch_size, body_prefetch_limit);
    coord.finish_sync(account);
    proof {
        assert forall|a: Seq<char>| #[trigger] final(coord).accounts().contains(a) <==> old(
            coord,
        ).accounts().contains(a) by {
            if a != account@ {
                if old(coord).accounts().contains(a) {
                    let w = choose|w: int|
                        0 <= w < old(coord).accounts().len() && old(coord).accounts()[w] == a;
                    assert(old(coord).accounts().push(account@)[w] == a);
                    assert(old(coord).accounts().push(account@).contains(a));
                }
                if old(coord).accounts().push(account@).contains(a) {
                    let w = choose|w: int|
                        0 <= w < old(coord).accounts().push(account@).len() && old(
                            coord,
                        ).accounts().push(account@)[w] == a;
                    if w < old(coord).accounts().len() {
                        assert(old(coord).accounts()[w] == a);
                    }
                }
            }
        }
    }
    Some(events)
}

} // verus!
