//! The balance pass over loaded data: one balance row per touched account,
//! keyed by the account's normal form, valued at the replay of that
//! account's index-sorted transactions; and the total supply as the sum of
//! the balance column. The pass result is pinned as a function of its
//! inputs, so running it twice yields identical balances and total supply.

use vstd::prelude::*;
use crate::models::{Transaction, AccountRecord, BalanceRecord, BalanceAnomaly};
use crate::account::{spec_normalize, normalize_account_id};
use crate::balance::{
    replay, replay_anoms, sort_by_index, anoms_match, AnomalyView, anomaly_matches,
    calculate_account_balance, accounts_of, touches, lemma_accounts_of_normalized,
};
use crate::strutil::str_eq;
use crate::numeric::{
    dec_value, is_dec_string, all_dec_digits, lemma_dec_of_props, dec_to_digits,
    digits_to_decimal, add_digits, val_lsf,
};

verus! {

/// The transactions whose index appears in `indices`, in log order.
pub open spec fn select_txs(txs: Seq<Transaction>, indices: Seq<u64>) -> Seq<Transaction>
    decreases txs.len(),
{
    if txs.len() == 0 {
        Seq::empty()
    } else {
        select_txs(txs.drop_last(), indices) + (if indices.contains(txs.last().index) {
            seq![txs.last()]
        } else {
            Seq::<Transaction>::empty()
        })
    }
}

/// Picks out the transactions whose index appears in `indices`.
#[verifier::spinoff_prover]
pub fn select_transactions(txs: &Vec<Transaction>, indices: &Vec<u64>) -> (r: Vec<Transaction>)
    ensures
        r@ == select_txs(txs@, indices@),
{
    let ghost ind = indices@;
    let mut out: Vec<Transaction> = Vec::new();
    let mut i: usize = 0;
    proof {
        assert(txs@.take(0) =~= Seq::<Transaction>::empty());
    }
    while i < txs.len()
        invariant
            0 <= i <= txs@.len(),
            ind == indices@,
            out@ == select_txs(txs@.take(i as int), ind),
        decreases txs@.len() - i,
    {
        proof {
            assert(txs@.take(i as int + 1).drop_last() =~= txs@.take(i as int));
            assert(txs@.take(i as int + 1).last() == txs@[i as int]);
        }
        let t = &txs[i];
        let mut found = false;
        let mut k: usize = 0;
        while k < indices.len()
            invariant
                0 <= k <= indices@.len(),
                ind == indices@,
                found <==> exists|j: int| 0 <= j < k && ind[j] == t.index,
            decreases indices@.len() - k,
        {
            if indices[k] == t.index {
                found = true;
            }
            k += 1;
        }
        if found {
            out.push(t.clone());
            proof {
                assert(out@ =~= select_txs(txs@.take(i as int), ind) + seq![txs@[i as int]]);
            }
        } else {
            proof {
                assert(select_txs(txs@.take(i as int + 1), ind) =~= select_txs(
                    txs@.take(i as int),
                    ind,
                ) + Seq::<Transaction>::empty());
            }
        }
        i += 1;
    }
    proof {
        assert(txs@.take(txs@.len() as int) =~= txs@);
    }
    out
}

/// One row of a balance pass: the normal form of the account and its
/// replayed balance.
pub ghost struct BalanceRow {
    pub account: Seq<char>,
    pub value: nat,
}

/// The replayed balance of one account record against a transaction log.
pub open spec fn account_row(rec: AccountRecord, txs: Seq<Transaction>) -> BalanceRow {
    BalanceRow {
        account: spec_normalize(rec.account@),
        value: replay(
            sort_by_index(select_txs(txs, rec.transaction_indices@)),
            spec_normalize(rec.account@),
        ),
    }
}

/// The rows a full pass produces: one per account with a nonempty index
/// set, in account order.
pub open spec fn pass_rows(accounts: Seq<AccountRecord>, txs: Seq<Transaction>) -> Seq<BalanceRow>
    decreases accounts.len(),
{
    if accounts.len() == 0 {
        Seq::empty()
    } else {
        let rest = pass_rows(accounts.drop_last(), txs);
        if accounts.last().transaction_indices@.len() == 0 {
            rest
        } else {
            rest.push(account_row(accounts.last(), txs))
        }
    }
}

/// The anomalies a full pass records, in account order.
pub open spec fn pass_anoms(accounts: Seq<AccountRecord>, txs: Seq<Transaction>) -> Seq<
    AnomalyView,
>
    decreases accounts.len(),
{
    if accounts.len() == 0 {
        Seq::empty()
    } else {
        let rest = pass_anoms(accounts.drop_last(), txs);
        let rec = accounts.last();
        if rec.transaction_indices@.len() == 0 {
            rest
        } else {
            rest + replay_anoms(
                sort_by_index(select_txs(txs, rec.transaction_indices@)),
                spec_normalize(rec.account@),
            )
        }
    }
}

/// A full balance pass over loaded account records and transactions:
/// one balance row per account with transactions, keyed by the account's
/// normal form, valued at the replay of that account's transactions in
/// ascending index order, stamped with `now`. Since the result is a
/// function of the inputs alone, running the pass twice yields identical
/// balances (and hence an identical total supply).
#[verifier::spinoff_prover]
pub fn balances_from_accounts(
    accounts: &Vec<AccountRecord>,
    txs: &Vec<Transaction>,
    now: u64,
) -> (r: (Vec<BalanceRecord>, Vec<BalanceAnomaly>))
    requires
        now <= i64::MAX as u64,
    ensures
        r.0@.len() == pass_rows(accounts@, txs@).len(),
        forall|k: int|
            0 <= k < r.0@.len() ==> {
                let row = pass_rows(accounts@, txs@)[k];
                #[trigger] r.0@[k].account@ == row.account && is_dec_string(r.0@[k].balance@)
                    && dec_value(r.0@[k].balance@) == row.value && r.0@[k].last_updated == now
            },
        anoms_match(r.1@, pass_anoms(accounts@, txs@), now as i64),
{
    let mut balances: Vec<BalanceRecord> = Vec::new();
    let mut anomalies: Vec<BalanceAnomaly> = Vec::new();
    let mut i: usize = 0;
    proof {
        assert(accounts@.take(0) =~= Seq::<AccountRecord>::empty());
    }
    while i < accounts.len()
        invariant
            0 <= i <= accounts@.len(),
            now <= i64::MAX as u64,
            balances@.len() == pass_rows(accounts@.take(i as int), txs@).len(),
            forall|k: int|
                0 <= k < balances@.len() ==> {
                    let row = pass_rows(accounts@.take(i as int), txs@)[k];
                    #[trigger] balances@[k].account@ == row.account && is_dec_string(
                        balances@[k].balance@,
                    ) && dec_value(balances@[k].balance@) == row.value && balances@[
                        k
                    ].last_updated == now
                },
            anoms_match(anomalies@, pass_anoms(accounts@.take(i as int), txs@), now as i64),
        decreases accounts@.len() - i,
    {
        proof {
            assert(accounts@.take(i as int + 1).drop_last() =~= accounts@.take(i as int));
            assert(accounts@.take(i as int + 1).last() == accounts@[i as int]);
        }
        let rec = &accounts[i];
        let ghost rows_before = pass_rows(accounts@.take(i as int), txs@);
        let ghost anoms_before = pass_anoms(accounts@.take(i as int), txs@);
        if rec.transaction_indices.len() > 0 {
            let selected = select_transactions(txs, &rec.transaction_indices);
            let (value, mut anoms) = calculate_account_balance(
                rec.account.as_str(),
                &selected,
                now as i64,
            );
            let balance_str = crate::numeric::u128_to_decimal(value);
            proof {
                lemma_dec_of_props(value as nat);
            }
            let record = BalanceRecord {
                account: normalize_account_id(rec.account.as_str()),
                balance: balance_str,
                last_updated: now,
                last_tx_index: 0,
            };
            let ghost av = replay_anoms(
                sort_by_index(select_txs(txs@, rec.transaction_indices@)),
                spec_normalize(rec.account@),
            );
            let ghost anomalies_old = anomalies@;
            balances.push(record);
            anomalies.append(&mut anoms);
            proof {
                let rows = pass_rows(accounts@.take(i as int + 1), txs@);
                assert(rows == rows_before.push(account_row(accounts@[i as int], txs@)));
                assert forall|k: int|
                    0 <= k < balances@.len() implies {
                    let row = rows[k];
                    #[trigger] balances@[k].account@ == row.account && is_dec_string(
                        balances@[k].balance@,
                    ) && dec_value(balances@[k].balance@) == row.value && balances@[
                        k
                    ].last_updated == now
                } by {
                    if k < rows_before.len() {
                        assert(rows[k] == rows_before[k]);
                    }
                }
                let pa = pass_anoms(accounts@.take(i as int + 1), txs@);
                assert(pa == anoms_before + av);
                assert forall|k: int|
                    0 <= k < anomalies@.len() implies anomaly_matches(
                    #[trigger] anomalies@[k],
                    pa[k],
                    now as i64,
                ) by {
                    if k < anomalies_old.len() {
                        assert(anomalies@[k] == anomalies_old[k]);
                        assert(pa[k] == anoms_before[k]);
                    } else {
                        assert(pa[k] == av[k - anomalies_old.len()]);
                    }
                }
            }
        } else {
            proof {
                assert(pass_rows(accounts@.take(i as int + 1), txs@) == rows_before);
                assert(pass_anoms(accounts@.take(i as int + 1), txs@) == anoms_before);
            }
        }
        i += 1;
    }
    proof {
        assert(accounts@.take(accounts@.len() as int) =~= accounts@);
    }
    (balances, anomalies)
}

/// The sum of the balance column; an entry that is not a nonempty digit
/// string contributes nothing.
pub open spec fn spec_total_supply(bals: Seq<BalanceRecord>) -> nat
    decreases bals.len(),
{
    if bals.len() == 0 {
        0
    } else {
        spec_total_supply(bals.drop_last()) + (if bals.last().balance@.len() > 0
            && all_dec_digits(bals.last().balance@) {
            dec_value(bals.last().balance@)
        } else {
            0
        })
    }
}

/// Total supply: the exact sum of every parseable balance, as a decimal
/// string. The sum is computed on digit strings, so it cannot overflow.
#[verifier::spinoff_prover]
pub fn total_supply_of(balances: &Vec<BalanceRecord>) -> (r: String)
    ensures
        is_dec_string(r@),
        dec_value(r@) == spec_total_supply(balances@),
{
    let mut sum: Vec<u8> = Vec::new();
    let mut i: usize = 0;
    proof {
        assert(balances@.take(0) =~= Seq::<BalanceRecord>::empty());
        assert(sum@ =~= Seq::<u8>::empty());
    }
    while i < balances.len()
        invariant
            0 <= i <= balances@.len(),
            forall|k: int| 0 <= k < sum@.len() ==> #[trigger] sum@[k] < 10,
            val_lsf(sum@) == spec_total_supply(balances@.take(i as int)),
        decreases balances@.len() - i,
    {
        proof {
            assert(balances@.take(i as int + 1).drop_last() =~= balances@.take(i as int));
            assert(balances@.take(i as int + 1).last() == balances@[i as int]);
        }
        match dec_to_digits(balances[i].balance.as_str()) {
            Some(d) => {
                sum = add_digits(&sum, &d);
            },
            None => {},
        }
        i += 1;
    }
    proof {
        assert(balances@.take(balances@.len() as int) =~= balances@);
    }
    digits_to_decimal(&sum)
}

/// Recomputing one account alone gives the same value the full pass puts in
/// that account's row: the incremental pass agrees with the full one.
pub proof fn lemma_incremental_agrees_with_full(
    accounts: Seq<AccountRecord>,
    txs: Seq<Transaction>,
    k: int,
)
    requires
        0 <= k < accounts.len(),
        accounts[k].transaction_indices@.len() > 0,
    ensures
        exists|j: int|
            0 <= j < pass_rows(accounts, txs).len() && pass_rows(accounts, txs)[j] == account_row(
                accounts[k],
                txs,
            ),
    decreases accounts.len(),
{
    let rows = pass_rows(accounts, txs);
    if k == accounts.len() - 1 {
        assert(accounts.last() == accounts[k]);
        assert(rows.last() == account_row(accounts[k], txs));
    } else {
        assert(accounts.drop_last()[k] == accounts[k]);
        lemma_incremental_agrees_with_full(accounts.drop_last(), txs, k);
        let rest = pass_rows(accounts.drop_last(), txs);
        let j = choose|j: int| 0 <= j < rest.len() && rest[j] == account_row(accounts[k], txs);
        assert(rows[j] == account_row(accounts[k], txs)) by {
            if accounts.last().transaction_indices@.len() == 0 {
            } else {
                assert(rows == rest.push(account_row(accounts.last(), txs)));
            }
        }
    }
}


/// Loading an account's transactions goes by index membership alone: two
/// index lists with the same members select the same transactions from the
/// log, in the log's order. Hence a replayed balance does not depend on the
/// order or multiplicity of the account's index set.
pub proof fn lemma_select_by_membership(txs: Seq<Transaction>, ind1: Seq<u64>, ind2: Seq<u64>)
    requires
        forall|x: u64| ind1.contains(x) <==> ind2.contains(x),
    ensures
        select_txs(txs, ind1) == select_txs(txs, ind2),
    decreases txs.len(),
{
    if txs.len() > 0 {
        lemma_select_by_membership(txs.drop_last(), ind1, ind2);
        assert(ind1.contains(txs.last().index) <==> ind2.contains(txs.last().index));
    }
}


/// Account keys are unique and already normalized.
pub open spec fn wf_accounts(recs: Seq<AccountRecord>) -> bool {
    &&& forall|i: int, j: int|
        0 <= i < j < recs.len() ==> recs[i].account@ != recs[j].account@
    &&& forall|i: int|
        0 <= i < recs.len() ==> #[trigger] recs[i].account@ == spec_normalize(recs[i].account@)
}

/// Whether account `a` has `idx` in its index set.
pub open spec fn account_has_index(recs: Seq<AccountRecord>, a: Seq<char>, idx: u64) -> bool {
    exists|i: int|
        0 <= i < recs.len() && recs[i].account@ == a && recs[i].transaction_indices@.contains(idx)
}

/// Every transaction of a log is indexed under every nonempty account it
/// touches.
pub open spec fn fully_indexed(txs: Seq<Transaction>, recs: Seq<AccountRecord>) -> bool {
    forall|i: int, a: Seq<char>|
        0 <= i < txs.len() && #[trigger] touches(txs[i], a) && a.len() > 0 ==> account_has_index(
            recs,
            a,
            txs[i].index,
        )
}

/// Adds a transaction index to an account's set, creating the record on
/// first mention; the account key is stored normalized and an empty account
/// is skipped. Set semantics: membership grows by exactly this pair.
#[verifier::spinoff_prover]
pub fn add_account_index(records: &mut Vec<AccountRecord>, account: &str, tx_index: u64)
    requires
        wf_accounts(old(records)@),
    ensures
        wf_accounts(final(records)@),
        account@.len() > 0 ==> account_has_index(
            final(records)@,
            spec_normalize(account@),
            tx_index,
        ),
        forall|a: Seq<char>, x: u64|
            #[trigger] account_has_index(final(records)@, a, x) <==> account_has_index(
                old(records)@,
                a,
                x,
            ) || (account@.len() > 0 && a == spec_normalize(account@) && x == tx_index),
{
    if account.unicode_len() == 0 {
        return;
    }
    let norm = crate::account::normalize_account_id(account);
    let ghost a = spec_normalize(account@);
    proof {
        crate::account::lemma_normalize_idempotent(account@);
    }
    let n = records.len();
    let mut i: usize = 0;
    while i < n && !str_eq(records[i].account.as_str(), norm.as_str())
        invariant
            n == records@.len(),
            0 <= i <= n,
            norm@ == a,
            forall|j: int| 0 <= j < i ==> records@[j].account@ != a,
        decreases n - i,
    {
        i += 1;
    }
    let ghost recs0 = records@;
    if i < n {
        let mut contains = false;
        let rec = &records[i];
        let mut k: usize = 0;
        while k < rec.transaction_indices.len()
            invariant
                0 <= k <= rec.transaction_indices@.len(),
                contains <==> exists|j: int|
                    0 <= j < k && rec.transaction_indices@[j] == tx_index,
            decreases rec.transaction_indices@.len() - k,
        {
            if rec.transaction_indices[k] == tx_index {
                contains = true;
            }
            k += 1;
        }
        if !contains {
            let mut rec2 = records[i].clone();
            rec2.transaction_indices.push(tx_index);
            let ghost rec2v = rec2;
            records.remove(i);
            records.insert(i, rec2);
            proof {
                let recs1 = records@;
                assert(recs1 =~= recs0.update(i as int, rec2v));
                assert(rec2v.account@ == a);
                assert(rec2v.transaction_indices@ == recs0[
                    i as int
                ].transaction_indices@.push(tx_index));
                assert(rec2v.transaction_indices@.last() == tx_index);
                assert(rec2v.transaction_indices@.contains(tx_index));
                assert forall|a2: Seq<char>, x: u64|
                    #[trigger] account_has_index(recs1, a2, x) implies account_has_index(
                    recs0,
                    a2,
                    x,
                ) || (a2 == a && x == tx_index) by {
                    let w = choose|w: int|
                        0 <= w < recs1.len() && recs1[w].account@ == a2 && recs1[
                            w
                        ].transaction_indices@.contains(x);
                    if w != i {
                        assert(recs0[w] == recs1[w]);
                    } else {
                        if x != tx_index {
                            let q = choose|q: int|
                                0 <= q < recs1[w].transaction_indices@.len() && recs1[
                                    w
                                ].transaction_indices@[q] == x;
                            assert(q < recs0[w].transaction_indices@.len());
                            assert(recs0[w].transaction_indices@[q] == x);
                            assert(recs0[w].transaction_indices@.contains(x));
                        }
                    }
                }
                assert forall|a2: Seq<char>, x: u64|
                    account_has_index(recs0, a2, x) || (a2 == a && x == tx_index)
                    implies #[trigger] account_has_index(recs1, a2, x) by {
                    if account_has_index(recs0, a2, x) {
                        let w = choose|w: int|
                            0 <= w < recs0.len() && recs0[w].account@ == a2 && recs0[
                                w
                            ].transaction_indices@.contains(x);
                        if w != i {
                            assert(recs1[w] == recs0[w]);
                        } else {
                            let q = choose|q: int|
                                0 <= q < recs0[w].transaction_indices@.len() && recs0[
                                    w
                                ].transaction_indices@[q] == x;
                            assert(recs1[w].transaction_indices@[q] == x);
                            assert(recs1[w].transaction_indices@.contains(x));
                        }
                    } else {
                        assert(recs1[i as int].account@ == a);
                        assert(recs1[i as int].transaction_indices@.contains(tx_index));
                    }
                }
            }
        } else {
            proof {
                let q = choose|q: int|
                    0 <= q < recs0[i as int].transaction_indices@.len() && recs0[
                        i as int
                    ].transaction_indices@[q] == tx_index;
                assert(recs0[i as int].transaction_indices@.contains(tx_index));
                assert(account_has_index(recs0, a, tx_index));
            }
        }
    } else {
        let mut indices: Vec<u64> = Vec::new();
        indices.push(tx_index);
        let rec = AccountRecord { account: norm, transaction_indices: indices };
        let ghost recv = rec;
        records.push(rec);
        proof {
            let recs1 = records@;
            assert(recs1 =~= recs0.push(recv));
            assert(recs1[recs0.len() as int].account@ == a);
            assert(recs1[recs0.len() as int].transaction_indices@[0] == tx_index);
            assert(recs1[recs0.len() as int].transaction_indices@.contains(tx_index));
            assert forall|a2: Seq<char>, x: u64|
                #[trigger] account_has_index(recs1, a2, x) implies account_has_index(
                recs0,
                a2,
                x,
            ) || (a2 == a && x == tx_index) by {
                let w = choose|w: int|
                    0 <= w < recs1.len() && recs1[w].account@ == a2 && recs1[
                        w
                    ].transaction_indices@.contains(x);
                if w < recs0.len() {
                    assert(recs0[w] == recs1[w]);
                } else {
                    assert(recs1[w].transaction_indices@.len() == 1);
                    let q = choose|q: int|
                        0 <= q < recs1[w].transaction_indices@.len() && recs1[
                            w
                        ].transaction_indices@[q] == x;
                    assert(q == 0);
                }
            }
            assert forall|a2: Seq<char>, x: u64|
                account_has_index(recs0, a2, x) || (a2 == a && x == tx_index)
                implies #[trigger] account_has_index(recs1, a2, x) by {
                if account_has_index(recs0, a2, x) {
                    let w = choose|w: int|
                        0 <= w < recs0.len() && recs0[w].account@ == a2 && recs0[
                            w
                        ].transaction_indices@.contains(x);
                    assert(recs1[w] == recs0[w]);
                } else {
                    assert(recs1[recs0.len() as int].account@ == a);
                }
            }
        }
    }
}

/// Links a transaction to every account it touches: afterwards every
/// nonempty touched account holds the transaction's index, and no account
/// loses an index. Linking every saved transaction this way maintains the
/// store-wide invariant that each persisted transaction is indexed under
/// each account it touches.
#[verifier::spinoff_prover]
pub fn link_transaction(records: &mut Vec<AccountRecord>, tx: &Transaction)
    requires
        wf_accounts(old(records)@),
    ensures
        wf_accounts(final(records)@),
        forall|a: Seq<char>|
            #[trigger] touches(*tx, a) && a.len() > 0 ==> account_has_index(
                final(records)@,
                a,
                tx.index,
            ),
        forall|a: Seq<char>, x: u64|
            account_has_index(old(records)@, a, x) ==> #[trigger] account_has_index(
                final(records)@,
                a,
                x,
            ),
{
    let accounts = accounts_of(tx);
    let ghost recs0 = records@;
    let mut i: usize = 0;
    while i < accounts.len()
        invariant
            wf_accounts(records@),
            0 <= i <= accounts@.len(),
            forall|a: Seq<char>| #[trigger]
                touches(*tx, a) <==> exists|k: int|
                    0 <= k < accounts@.len() && accounts@[k]@ == a,
            forall|k: int|
                0 <= k < i && accounts@[k]@.len() > 0 ==> account_has_index(
                    records@,
                    accounts@[k]@,
                    tx.index,
                ),
            forall|a: Seq<char>, x: u64|
                account_has_index(recs0, a, x) ==> #[trigger] account_has_index(records@, a, x),
        decreases accounts@.len() - i,
    {
        let acc = &accounts[i];
        proof {
            if acc@.len() > 0 {
                assert(accounts@[i as int]@ == acc@);
                assert(touches(*tx, acc@));
                lemma_accounts_of_normalized(*tx, acc@);
            }
        }
        add_account_index(records, acc.as_str(), tx.index);
        i += 1;
    }
    proof {
        assert forall|a: Seq<char>| #[trigger]
            touches(*tx, a) && a.len() > 0 implies account_has_index(records@, a, tx.index) by {
            let k = choose|k: int| 0 <= k < accounts@.len() && accounts@[k]@ == a;
            assert(accounts@[k]@.len() > 0);
        }
    }
}


/// Whether any transaction of a batch touches account `a`.
pub open spec fn batch_touches(txs: Seq<Transaction>, a: Seq<char>) -> bool {
    exists|m: int| 0 <= m < txs.len() && touches(txs[m], a)
}

/// Whether some entry of `v` reads `a`.
pub open spec fn contains_view(v: Seq<String>, a: Seq<char>) -> bool {
    exists|k: int| 0 <= k < v.len() && v[k]@ == a
}

spec fn prefix_touches(txs: Seq<Transaction>, i: int, a: Seq<char>) -> bool {
    exists|m: int| 0 <= m < i && touches(txs[m], a)
}

spec fn list_prefix_has(l: Seq<String>, j: int, a: Seq<char>) -> bool {
    exists|k: int| 0 <= k < j && l[k]@ == a
}

/// The accounts touched by a batch of new transactions, normalized and
/// without repetitions: the incremental pass recomputes exactly these.
#[verifier::spinoff_prover]
pub fn affected_accounts(new_txs: &Vec<Transaction>) -> (r: Vec<String>)
    ensures
        forall|a: Seq<char>| #[trigger] batch_touches(new_txs@, a) <==> contains_view(r@, a),
        forall|k1: int, k2: int| 0 <= k1 < k2 < r@.len() ==> r@[k1]@ != r@[k2]@,
{
    let mut out: Vec<String> = Vec::new();
    let mut i: usize = 0;
    while i < new_txs.len()
        invariant
            0 <= i <= new_txs@.len(),
            forall|a: Seq<char>| #[trigger]
                prefix_touches(new_txs@, i as int, a) <==> contains_view(out@, a),
            forall|k1: int, k2: int| 0 <= k1 < k2 < out@.len() ==> out@[k1]@ != out@[k2]@,
        decreases new_txs@.len() - i,
    {
        let accs = accounts_of(&new_txs[i]);
        let mut j: usize = 0;
        while j < accs.len()
            invariant
                0 <= j <= accs@.len(),
                0 <= i < new_txs@.len(),
                forall|a: Seq<char>| #[trigger]
                    touches(new_txs@[i as int], a) <==> exists|k: int|
                        0 <= k < accs@.len() && accs@[k]@ == a,
                forall|a: Seq<char>| #[trigger]
                    contains_view(out@, a) <==> prefix_touches(new_txs@, i as int, a)
                        || list_prefix_has(accs@, j as int, a),
                forall|k1: int, k2: int| 0 <= k1 < k2 < out@.len() ==> out@[k1]@ != out@[k2]@,
            decreases accs@.len() - j,
        {
            let ghost out_before = out@;
            let mut seen = false;
            let mut k: usize = 0;
            while k < out.len()
                invariant
                    0 <= k <= out@.len(),
                    out@ == out_before,
                    j < accs@.len(),
                    seen <==> exists|w: int| 0 <= w < k && out@[w]@ == accs@[j as int]@,
                decreases out@.len() - k,
            {
                if str_eq(out[k].as_str(), accs[j].as_str()) {
                    seen = true;
                }
                k += 1;
            }
            if !seen {
                out.push(accs[j].clone());
            }
            proof {
                let x = accs@[j as int]@;
                assert(contains_view(out@, x)) by {
                    if seen {
                        let w = choose|w: int|
                            0 <= w < out_before.len() && out_before[w]@ == x;
                        assert(out@[w]@ == x);
                    } else {
                        assert(out@[out@.len() - 1]@ == x);
                    }
                }
                assert forall|a: Seq<char>| #[trigger]
                    contains_view(out@, a) implies prefix_touches(new_txs@, i as int, a)
                    || list_prefix_has(accs@, j as int + 1, a) by {
                    let w = choose|w: int| 0 <= w < out@.len() && out@[w]@ == a;
                    if w < out_before.len() {
                        assert(contains_view(out_before, a)) by {
                            assert(out_before[w]@ == a);
                        }
                        if list_prefix_has(accs@, j as int, a) {
                            let k2 = choose|k2: int| 0 <= k2 < j && accs@[k2]@ == a;
                            assert(list_prefix_has(accs@, j as int + 1, a)) by {
                                assert(accs@[k2]@ == a);
                            }
                        }
                    } else {
                        assert(a == x);
                        assert(list_prefix_has(accs@, j as int + 1, a)) by {
                            assert(accs@[j as int]@ == a);
                        }
                    }
                }
                assert forall|a: Seq<char>|
                    prefix_touches(new_txs@, i as int, a) || list_prefix_has(
                        accs@,
                        j as int + 1,
                        a,
                    ) implies #[trigger] contains_view(out@, a) by {
                    if prefix_touches(new_txs@, i as int, a) {
                        assert(contains_view(out_before, a));
                        let w = choose|w: int|
                            0 <= w < out_before.len() && out_before[w]@ == a;
                        assert(out@[w]@ == a);
                    } else {
                        let k2 = choose|k2: int| 0 <= k2 < j + 1 && accs@[k2]@ == a;
                        if k2 < j {
                            assert(list_prefix_has(accs@, j as int, a)) by {
                                assert(accs@[k2]@ == a);
                            }
                            assert(contains_view(out_before, a));
                            let w = choose|w: int|
                                0 <= w < out_before.len() && out_before[w]@ == a;
                            assert(out@[w]@ == a);
                        } else {
                            assert(a == x);
                        }
                    }
                }
            }
            j += 1;
        }
        proof {
            assert forall|a: Seq<char>| #[trigger]
                prefix_touches(new_txs@, i as int + 1, a) implies contains_view(out@, a) by {
                let m = choose|m: int| 0 <= m < i + 1 && touches(new_txs@[m], a);
                if m == i {
                    let k = choose|k: int| 0 <= k < accs@.len() && accs@[k]@ == a;
                    assert(list_prefix_has(accs@, accs@.len() as int, a)) by {
                        assert(accs@[k]@ == a);
                    }
                } else {
                    assert(prefix_touches(new_txs@, i as int, a)) by {
                        assert(touches(new_txs@[m], a));
                    }
                }
            }
            assert forall|a: Seq<char>| #[trigger]
                contains_view(out@, a) implies prefix_touches(new_txs@, i as int + 1, a) by {
                if prefix_touches(new_txs@, i as int, a) {
                    let m = choose|m: int| 0 <= m < i && touches(new_txs@[m], a);
                    assert(touches(new_txs@[m], a));
                } else {
                    assert(list_prefix_has(accs@, accs@.len() as int, a));
                    let k = choose|k: int| 0 <= k < accs@.len() && accs@[k]@ == a;
                    assert(touches(new_txs@[i as int], a));
                }
            }
        }
        i += 1;
    }
    proof {
        assert forall|a: Seq<char>| #[trigger]
            batch_touches(new_txs@, a) implies contains_view(out@, a) by {
            let m = choose|m: int| 0 <= m < new_txs@.len() && touches(new_txs@[m], a);
            assert(prefix_touches(new_txs@, new_txs@.len() as int, a)) by {
                assert(touches(new_txs@[m], a));
            }
        }
        assert forall|a: Seq<char>| #[trigger]
            contains_view(out@, a) implies batch_touches(new_txs@, a) by {
            assert(prefix_touches(new_txs@, new_txs@.len() as int, a));
            let m = choose|m: int| 0 <= m < new_txs@.len() as int && touches(new_txs@[m], a);
            assert(touches(new_txs@[m], a));
        }
    }
    out
}

} // verus!
