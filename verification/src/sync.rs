//! Decision logic of the synchronizers: resume-point verification and
//! repair, the per-batch step of the ledger syncer (gap correction, empty
//! responses, retry exhaustion, status-update cadence), index assignment
//! after a decode, and idempotent upsert into the transaction log.
//!
//! All remote fetching and persistence I/O lives outside the library; these
//! functions take the fetched values and decide from them alone.

use vstd::prelude::*;
use crate::models::Transaction;
use crate::balance::{sort_by_index, sort_transactions_by_index};
use crate::{BATCH_SIZE, ARCHIVE_BATCH_SIZE, MAX_RETRIES, MAX_CONSECUTIVE_EMPTY, STATUS_UPDATE_FREQUENCY};
use crate::engine::{wf_accounts, account_has_index, fully_indexed, link_transaction};
use crate::models::AccountRecord;

verus! {

/// First position of a `false` in a window; `w.len()` if all are present.
pub open spec fn first_missing(w: Seq<bool>) -> int
    decreases w.len(),
{
    if w.len() == 0 {
        0
    } else if !w[0] {
        0
    } else {
        1 + first_missing(w.skip(1))
    }
}

/// If everything before `k` is present and `k` is missing or the end, then
/// `k` is the first hole.
pub proof fn lemma_first_missing_found(w: Seq<bool>, k: int)
    requires
        0 <= k <= w.len(),
        forall|j: int| 0 <= j < k ==> w[j],
        k < w.len() ==> !w[k],
    ensures
        first_missing(w) == k,
    decreases w.len(),
{
    if w.len() != 0 && w[0] {
        assert forall|j: int| 0 <= j < k - 1 implies w.skip(1)[j] by {
            assert(w.skip(1)[j] == w[j + 1]);
        }
        lemma_first_missing_found(w.skip(1), k - 1);
    }
}

/// Verifies and repairs a resume point. `present[k]` says whether the
/// transaction at index `last_synced - present.len() + 1 + k` is persisted,
/// so the window covers `(last_synced - present.len(), last_synced]` and its
/// final entry is `last_synced` itself; the window must start above index
/// zero. If the whole window is present the
/// resume point is confirmed; otherwise it is rolled back to the largest
/// index below the first hole, so that every window index at or below the
/// repaired point is present.
#[verifier::spinoff_prover]
pub fn repair_resume_point(last_synced: u64, present: &Vec<bool>) -> (r: (bool, u64))
    requires
        present@.len() >= 1,
        present@.len() <= last_synced as int,
    ensures
        r.0 <==> (forall|k: int| 0 <= k < present@.len() ==> present@[k]),
        r.0 ==> r.1 == last_synced,
        !r.0 ==> r.1 < last_synced,
        !r.0 ==> r.1 as int == last_synced - present@.len() + first_missing(present@),
        forall|k: int| 0 <= k < first_missing(present@) ==> present@[k],
{
    let n = present.len();
    let mut k: usize = 0;
    while k < n && present[k]
        invariant
            n == present@.len(),
            0 <= k <= n,
            forall|j: int| 0 <= j < k ==> present@[j],
        decreases n - k,
    {
        k += 1;
    }
    proof {
        lemma_first_missing_found(present@, k as int);
    }
    if k == n {
        (true, last_synced)
    } else {
        proof {
            assert(!present@[k as int]);
        }
        (false, last_synced - ((n - k) as u64))
    }
}

/// The state of the ledger syncer between batches.
pub struct LedgerState {
    /// Next index to request.
    pub cursor: u64,
    /// Consecutive transport failures for the current batch.
    pub retry_count: u64,
    /// Consecutive empty responses.
    pub consecutive_empty: u64,
    /// Highest transaction index persisted so far.
    pub latest_index: u64,
    /// Timestamp of the transaction at `latest_index`.
    pub latest_timestamp: u64,
    /// Index at which the sync status was last persisted.
    pub last_status_update_index: u64,
}

/// One fetch against the live ledger, as decoded: `ok` is false on a
/// transport failure, in which case the other fields are meaningless.
pub struct FetchOutcome {
    pub ok: bool,
    pub transactions: Vec<Transaction>,
    pub first_index: u64,
    pub log_length: u64,
}

/// What the caller must do after one step.
pub enum LedgerAction {
    /// Request the batch starting at the new cursor.
    Fetch { start: u64, length: u64 },
    /// Persist the sorted batch, then request the next one; persist the
    /// sync status too when `update_status` is set.
    PersistBatch { sorted: Vec<Transaction>, update_status: bool },
    /// Wait before the next request (transport failure or empty response).
    Backoff { seconds: u64 },
    /// Three consecutive empty responses: the head has been reached.
    CaughtUp,
}

impl LedgerState {
    /// The status-update mark never runs ahead of the high-water mark, and
    /// the retry and empty counters stay within their limits.
    pub open spec fn wf(&self) -> bool {
        &&& self.last_status_update_index <= self.latest_index
        &&& self.retry_count < MAX_RETRIES
        &&& self.consecutive_empty <= MAX_CONSECUTIVE_EMPTY
    }

    /// The starting state: resume one past `start_index`.
    pub fn begin(start_index: u64) -> (r: LedgerState)
        requires
            start_index < u64::MAX,
        ensures
            r.wf(),
            r.cursor == start_index + 1,
            r.latest_index == start_index,
            r.retry_count == 0 && r.consecutive_empty == 0,
            r.last_status_update_index == start_index,
    {
        LedgerState {
            cursor: start_index + 1,
            retry_count: 0,
            consecutive_empty: 0,
            latest_index: start_index,
            latest_timestamp: 0,
            last_status_update_index: start_index,
        }
    }
}

fn saturating_add_u64(a: u64, b: u64) -> (r: u64)
    ensures
        r >= a,
        r as int == if a + b <= u64::MAX { a + b } else { u64::MAX as int },
{
    if a > u64::MAX - b {
        u64::MAX
    } else {
        a + b
    }
}

/// One step of the ledger syncer (4.5): decides from the fetch outcome alone
/// how the cursor, the retry and empty counters, and the high-water mark
/// move, and what the caller does next. The cursor never moves backwards; a
/// reported `first_index` beyond the cursor jumps the cursor exactly there
/// (gap correction) and persists nothing; the high-water mark (from which
/// the sync status is written) never decreases.
#[verifier::spinoff_prover]
pub fn ledger_step(st: &LedgerState, ev: FetchOutcome) -> (r: (LedgerState, LedgerAction))
    requires
        st.wf(),
    ensures
        r.0.wf(),
        r.0.cursor >= st.cursor,
        r.0.latest_index >= st.latest_index,
        r.0.last_status_update_index >= st.last_status_update_index,
        ev.ok && ev.first_index > st.cursor ==> r.0.cursor == ev.first_index && (
        r.1 matches LedgerAction::Fetch { start, length } && start == ev.first_index && length
            == BATCH_SIZE),
        ev.ok && ev.first_index <= st.cursor && ev.transactions@.len() > 0 ==> (
        r.1 matches LedgerAction::PersistBatch { sorted, .. } && sorted@ == sort_by_index(
            ev.transactions@,
        )),
        ev.ok && ev.first_index <= st.cursor && ev.transactions@.len() == 0
            && st.consecutive_empty + 1 >= MAX_CONSECUTIVE_EMPTY ==> (
        r.1 matches LedgerAction::CaughtUp),
        !ev.ok ==> r.0.retry_count == if st.retry_count + 1 < MAX_RETRIES {
            (st.retry_count + 1) as int
        } else {
            0
        },
{
    if !ev.ok {
        if st.retry_count + 1 >= MAX_RETRIES {
            // give up on this batch: persist progress, skip a quarter batch
            let cursor = saturating_add_u64(st.cursor, BATCH_SIZE / 4);
            let next = LedgerState {
                cursor,
                retry_count: 0,
                consecutive_empty: 0,
                latest_index: st.latest_index,
                latest_timestamp: st.latest_timestamp,
                last_status_update_index: st.last_status_update_index,
            };
            return (next, LedgerAction::Backoff { seconds: 5 });
        }
        let rc = st.retry_count + 1;
        let next = LedgerState {
            cursor: st.cursor,
            retry_count: rc,
            consecutive_empty: st.consecutive_empty,
            latest_index: st.latest_index,
            latest_timestamp: st.latest_timestamp,
            last_status_update_index: st.last_status_update_index,
        };
        let wait: u64 = if rc == 1 {
            2
        } else if rc == 2 {
            4
        } else if rc == 3 {
            8
        } else {
            16
        };
        return (next, LedgerAction::Backoff { seconds: wait });
    }
    if ev.first_index > st.cursor {
        // gap correction: the range below first_index has been archived
        let next = LedgerState {
            cursor: ev.first_index,
            retry_count: st.retry_count,
            consecutive_empty: st.consecutive_empty,
            latest_index: st.latest_index,
            latest_timestamp: st.latest_timestamp,
            last_status_update_index: st.last_status_update_index,
        };
        return (next, LedgerAction::Fetch { start: ev.first_index, length: BATCH_SIZE });
    }
    if ev.transactions.len() == 0 {
        let empties = st.consecutive_empty + 1;
        if empties >= MAX_CONSECUTIVE_EMPTY {
            let next = LedgerState {
                cursor: st.cursor,
                retry_count: st.retry_count,
                consecutive_empty: MAX_CONSECUTIVE_EMPTY,
                latest_index: st.latest_index,
                latest_timestamp: st.latest_timestamp,
                last_status_update_index: st.last_status_update_index,
            };
            return (next, LedgerAction::CaughtUp);
        }
        let cursor = if ev.log_length > st.cursor {
            ev.log_length
        } else {
            saturating_add_u64(st.cursor, BATCH_SIZE / 10)
        };
        let next = LedgerState {
            cursor,
            retry_count: st.retry_count,
            consecutive_empty: empties,
            latest_index: st.latest_index,
            latest_timestamp: st.latest_timestamp,
            last_status_update_index: st.last_status_update_index,
        };
        return (next, LedgerAction::Backoff { seconds: 2 });
    }
    let sorted = sort_transactions_by_index(&ev.transactions);
    proof {
        crate::balance::lemma_sort_by_index_props(ev.transactions@);
    }
    let batch_max = sorted[sorted.len() - 1].index;
    let last = &sorted[sorted.len() - 1];
    let (latest_index, latest_timestamp) = if batch_max > st.latest_index {
        (batch_max, last.timestamp)
    } else {
        (st.latest_index, st.latest_timestamp)
    };
    let cursor = saturating_add_u64(st.cursor, sorted.len() as u64);
    let update_status = latest_index >= st.last_status_update_index && latest_index
        - st.last_status_update_index >= STATUS_UPDATE_FREQUENCY;
    let next = LedgerState {
        cursor,
        retry_count: 0,
        consecutive_empty: 0,
        latest_index,
        latest_timestamp,
        last_status_update_index: if update_status {
            latest_index
        } else {
            st.last_status_update_index
        },
    };
    (next, LedgerAction::PersistBatch { sorted, update_status })
}

/// Fills in the log position of each transaction of a decoded batch:
/// the one at offset `i` sits at index `start + i`.
#[verifier::spinoff_prover]
pub fn assign_indices(txs: Vec<Transaction>, start: u64) -> (r: Vec<Transaction>)
    requires
        start + txs@.len() <= u64::MAX,
    ensures
        r@.len() == txs@.len(),
        forall|i: int|
            0 <= i < r@.len() ==> #[trigger] r@[i] == (Transaction {
                index: (start + i) as u64,
                ..txs@[i]
            }),
{
    let ghost orig = txs@;
    let mut out = txs;
    let mut i: usize = 0;
    while i < out.len()
        invariant
            out@.len() == orig.len(),
            orig.len() <= u64::MAX - start,
            0 <= i <= out@.len(),
            forall|j: int| i <= j < out@.len() ==> #[trigger] out@[j] == orig[j],
            forall|j: int|
                0 <= j < i ==> #[trigger] out@[j] == (Transaction {
                    index: (start + j) as u64,
                    ..orig[j]
                }),
        decreases out@.len() - i,
    {
        let mut t = out.remove(i);
        t.index = start + i as u64;
        out.insert(i, t);
        i += 1;
    }
    out
}

/// Whether the log holds a transaction with this index.
pub open spec fn has_tx_index(txs: Seq<Transaction>, idx: u64) -> bool {
    exists|i: int| 0 <= i < txs.len() && txs[i].index == idx
}

/// In a strictly index-sorted log, indices are unique: no two entries share
/// one. This is immediate from strict sortedness.
pub open spec fn strictly_sorted(txs: Seq<Transaction>) -> bool {
    forall|i: int, j: int| 0 <= i < j < txs.len() ==> txs[i].index < txs[j].index
}

/// Indices are unique in a strictly sorted log.
pub proof fn lemma_unique_indices(txs: Seq<Transaction>)
    requires
        strictly_sorted(txs),
    ensures
        forall|i: int, j: int|
            0 <= i < txs.len() && 0 <= j < txs.len() && i != j ==> txs[i].index != txs[j].index,
{
}

/// First position whose index is not below `idx`; `txs.len()` if none.
pub open spec fn insert_pos(txs: Seq<Transaction>, idx: u64) -> int
    decreases txs.len(),
{
    if txs.len() == 0 {
        0
    } else if txs[0].index >= idx {
        0
    } else {
        1 + insert_pos(txs.skip(1), idx)
    }
}

/// Upsert of a transaction into a strictly sorted log: replace the entry
/// with the same index, or insert at the sorted position.
pub open spec fn upsert_tx(txs: Seq<Transaction>, tx: Transaction) -> Seq<Transaction> {
    let p = insert_pos(txs, tx.index);
    if p < txs.len() && txs[p].index == tx.index {
        txs.update(p, tx)
    } else {
        txs.insert(p, tx)
    }
}

pub proof fn lemma_insert_pos_bounds(txs: Seq<Transaction>, idx: u64)
    ensures
        0 <= insert_pos(txs, idx) <= txs.len(),
        insert_pos(txs, idx) < txs.len() ==> txs[insert_pos(txs, idx)].index >= idx,
        forall|j: int| 0 <= j < insert_pos(txs, idx) ==> txs[j].index < idx,
    decreases txs.len(),
{
    if txs.len() != 0 && txs[0].index < idx {
        lemma_insert_pos_bounds(txs.skip(1), idx);
        assert forall|j: int| 0 <= j < insert_pos(txs, idx) implies txs[j].index < idx by {
            if j >= 1 {
                assert(txs.skip(1)[j - 1] == txs[j]);
            }
        }
    }
}

pub proof fn lemma_insert_pos_found(txs: Seq<Transaction>, idx: u64, p: int)
    requires
        0 <= p <= txs.len(),
        forall|j: int| 0 <= j < p ==> txs[j].index < idx,
        p < txs.len() ==> txs[p].index >= idx,
    ensures
        insert_pos(txs, idx) == p,
    decreases txs.len(),
{
    if txs.len() != 0 && txs[0].index < idx {
        assert forall|j: int| 0 <= j < p - 1 implies txs.skip(1)[j].index < idx by {
            assert(txs.skip(1)[j] == txs[j + 1]);
        }
        assert(p - 1 < txs.skip(1).len() ==> txs.skip(1)[p - 1].index >= idx);
        lemma_insert_pos_found(txs.skip(1), idx, p - 1);
    }
}

/// Saving is idempotent: upserting the same transaction twice leaves the
/// log exactly as one upsert does.
pub proof fn lemma_upsert_idempotent(txs: Seq<Transaction>, tx: Transaction)
    requires
        strictly_sorted(txs),
    ensures
        upsert_tx(upsert_tx(txs, tx), tx) == upsert_tx(txs, tx),
{
    lemma_insert_pos_bounds(txs, tx.index);
    let p = insert_pos(txs, tx.index);
    let s1 = upsert_tx(txs, tx);
    if p < txs.len() && txs[p].index == tx.index {
        assert(s1 == txs.update(p, tx));
        lemma_insert_pos_found(s1, tx.index, p);
        assert(upsert_tx(s1, tx) =~= s1);
    } else {
        assert(s1 == txs.insert(p, tx));
        assert forall|j: int| 0 <= j < p implies s1[j].index < tx.index by {
            assert(s1[j] == txs[j]);
        }
        assert(s1[p].index == tx.index);
        lemma_insert_pos_found(s1, tx.index, p);
        assert(upsert_tx(s1, tx) =~= s1);
    }
}

/// Upserts a transaction into a strictly sorted in-memory log, keeping it
/// strictly sorted; the log afterwards holds the transaction at its index.
#[verifier::spinoff_prover]
pub fn save_transaction_log(log: &mut Vec<Transaction>, tx: &Transaction)
    requires
        strictly_sorted(old(log)@),
    ensures
        strictly_sorted(final(log)@),
        final(log)@ == upsert_tx(old(log)@, *tx),
        has_tx_index(final(log)@, tx.index),
{
    let n = log.len();
    let mut p: usize = 0;
    while p < n && log[p].index < tx.index
        invariant
            n == log@.len(),
            0 <= p <= n,
            forall|j: int| 0 <= j < p ==> log@[j].index < tx.index,
        decreases n - p,
    {
        p += 1;
    }
    proof {
        lemma_insert_pos_found(log@, tx.index, p as int);
    }
    if p < n && log[p].index == tx.index {
        log.remove(p);
        log.insert(p, tx.clone());
        proof {
            assert(log@ =~= old(log)@.update(p as int, *tx));
            assert(strictly_sorted(log@));
            assert(log@[p as int].index == tx.index);
        }
    } else {
        log.insert(p, tx.clone());
        proof {
            let txs = old(log)@;
            let new = log@;
            assert(new == txs.insert(p as int, *tx));
            lemma_insert_pos_bounds(txs, tx.index);
            assert forall|i: int, j: int| 0 <= i < j < new.len() implies new[i].index < new[
                j
            ].index by {
                if i < p && j == p {
                    assert(new[i] == txs[i]);
                } else if i == p && j > p {
                    assert(new[j] == txs[j - 1]);
                } else if i < p && j > p {
                    assert(new[i] == txs[i] && new[j] == txs[j - 1]);
                } else if i > p && j > p {
                    assert(new[i] == txs[i - 1] && new[j] == txs[j - 1]);
                }
            }
            assert(new[p as int].index == tx.index);
        }
    }
}


/// Persists one transaction and links it to the accounts it touches.
/// This maintains the store-wide invariant that every persisted transaction
/// has its index in the set of every nonempty account it touches.
#[verifier::spinoff_prover]
pub fn persist_and_link(
    log: &mut Vec<Transaction>,
    records: &mut Vec<AccountRecord>,
    tx: &Transaction,
)
    requires
        strictly_sorted(old(log)@),
        wf_accounts(old(records)@),
    ensures
        strictly_sorted(final(log)@),
        wf_accounts(final(records)@),
        final(log)@ == upsert_tx(old(log)@, *tx),
        has_tx_index(final(log)@, tx.index),
        fully_indexed(old(log)@, old(records)@) ==> fully_indexed(
            final(log)@,
            final(records)@,
        ),
{
    save_transaction_log(log, tx);
    link_transaction(records, tx);
    proof {
        if fully_indexed(old(log)@, old(records)@) {
            let txs0 = old(log)@;
            let txs1 = log@;
            let p = insert_pos(txs0, tx.index);
            lemma_insert_pos_bounds(txs0, tx.index);
            assert forall|i: int, a: Seq<char>|
                0 <= i < txs1.len() && #[trigger] crate::balance::touches(txs1[i], a) && a.len()
                > 0 implies account_has_index(records@, a, txs1[i].index) by {
                if p < txs0.len() && txs0[p].index == tx.index {
                    if i != p {
                        assert(txs1[i] == txs0[i]);
                    } else {
                        assert(txs1[i] == *tx);
                    }
                } else {
                    if i < p {
                        assert(txs1[i] == txs0[i]);
                    } else if i > p {
                        assert(txs1[i] == txs0[i - 1]);
                    } else {
                        assert(txs1[i] == *tx);
                    }
                }
            }
        }
    }
}


/// The state of one archive pull.
pub struct ArchiveState {
    /// Next index to request from this archive.
    pub cursor: u64,
    /// Last index this archive hosts.
    pub range_end: u64,
    /// Consecutive fetch failures.
    pub error_count: u64,
}

/// What the caller does next with an archive.
pub enum ArchiveAction {
    /// Request the batch at `start` of `length` transactions.
    Fetch { start: u64, length: u64 },
    /// The archive's range has been walked.
    Done,
    /// Three consecutive failures: give this archive up.
    Abandoned,
}

/// The batch length requested at `cursor` within a range ending at
/// `range_end`: a full batch, clipped to the range.
pub open spec fn spec_batch_length(cursor: u64, range_end: u64) -> int {
    if cursor > range_end {
        0
    } else if range_end - cursor + 1 < ARCHIVE_BATCH_SIZE {
        range_end - cursor + 1
    } else {
        ARCHIVE_BATCH_SIZE as int
    }
}

impl ArchiveState {
    pub open spec fn wf(&self) -> bool {
        self.error_count < 3
    }

    /// Starts a pull over `[range_start, range_end]`.
    pub fn begin(range_start: u64, range_end: u64) -> (r: ArchiveState)
        ensures
            r.wf(),
            r.cursor == range_start,
            r.range_end == range_end,
            r.error_count == 0,
    {
        ArchiveState { cursor: range_start, range_end, error_count: 0 }
    }

    /// The batch length to request at the current cursor: a full batch,
    /// clipped to the end of the archive's range.
    pub fn batch_length(&self) -> (r: u64)
        ensures
            r as int == spec_batch_length(self.cursor, self.range_end),
    {
        if self.cursor > self.range_end {
            0
        } else if self.range_end - self.cursor < ARCHIVE_BATCH_SIZE - 1 {
            self.range_end - self.cursor + 1
        } else {
            ARCHIVE_BATCH_SIZE
        }
    }
}

/// One step of an archive pull (4.4): on a successful fetch the cursor
/// advances by the number of transactions actually received (by the
/// requested length if none came back) and the failure count resets; on a
/// failure the cursor skips half a batch, and the third consecutive failure
/// abandons the archive. The cursor never moves backwards.
pub fn archive_step(st: &ArchiveState, fetched: Option<u64>) -> (r: (ArchiveState, ArchiveAction))
    requires
        st.wf(),
        st.cursor <= st.range_end,
    ensures
        r.0.wf(),
        r.0.cursor >= st.cursor,
        r.0.range_end == st.range_end,
        fetched matches Some(n) ==> r.0.error_count == 0 && r.0.cursor as int == (if st.cursor
            + (if n > 0 { n as int } else { spec_batch_length(st.cursor, st.range_end) })
            <= u64::MAX {
            st.cursor + (if n > 0 { n as int } else { spec_batch_length(st.cursor, st.range_end) })
        } else {
            u64::MAX as int
        }),
        fetched is None && st.error_count + 1 >= 3 ==> (r.1 matches ArchiveAction::Abandoned),
        fetched is None && st.error_count + 1 < 3 ==> r.0.error_count == st.error_count + 1,
        r.1 matches ArchiveAction::Fetch { start, length } ==> start == r.0.cursor && length as int
            == spec_batch_length(r.0.cursor, r.0.range_end) && r.0.cursor <= r.0.range_end,
        !(r.1 matches ArchiveAction::Fetch { .. }) ==> r.0.cursor > r.0.range_end || (
        r.1 matches ArchiveAction::Abandoned),
{
    let length = st.batch_length();
    match fetched {
        Some(n) => {
            let advance = if n > 0 {
                n
            } else {
                length
            };
            let cursor = saturating_add_u64(st.cursor, advance);
            let next = ArchiveState { cursor, range_end: st.range_end, error_count: 0 };
            if cursor > st.range_end {
                (next, ArchiveAction::Done)
            } else {
                let fetch_len = next.batch_length();
                (ArchiveState { cursor, range_end: st.range_end, error_count: 0 },
                ArchiveAction::Fetch { start: cursor, length: fetch_len })
            }
        },
        None => {
            if st.error_count + 1 >= 3 {
                let next = ArchiveState {
                    cursor: st.cursor,
                    range_end: st.range_end,
                    error_count: 0,
                };
                return (next, ArchiveAction::Abandoned);
            }
            let cursor = saturating_add_u64(st.cursor, length / 2);
            let next = ArchiveState {
                cursor,
                range_end: st.range_end,
                error_count: st.error_count + 1,
            };
            if cursor > st.range_end {
                (next, ArchiveAction::Done)
            } else {
                let fetch_len = next.batch_length();
                (ArchiveState { cursor, range_end: st.range_end, error_count: st.error_count + 1 },
                ArchiveAction::Fetch { start: cursor, length: fetch_len })
            }
        },
    }
}

} // verus!
