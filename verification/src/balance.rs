//! Replay-based balance computation.
//!
//! A balance is reconstructed by folding an account's transactions in index
//! order: transfers debit the sender (amount, then fee) and credit the
//! receiver, mints credit, burns debit, approvals debit only their fee, and
//! notifications have no effect. A debit that would drive the balance
//! negative clamps it to zero and records an anomaly.

use vstd::prelude::*;
use crate::models::{Transaction, Transfer, Mint, Burn, Approve, BalanceAnomaly};
use crate::account::{spec_account_match, spec_normalize, account_match, normalize_account_id};
use crate::numeric::{dec_value, is_dec_string, u128_to_decimal, lemma_dec_of_props};
use crate::strutil::str_eq;

verus! {

/// Whether a transaction counts for balance replay: no status, or a
/// completed or successful one.
pub open spec fn status_counted(status: Option<String>) -> bool {
    match status {
        Option::None => true,
        Option::Some(s) => s@ == "COMPLETED"@ || s@ == "SUCCESS"@,
    }
}

/// Checks whether a transaction counts for balance replay.
pub fn is_status_counted(tx: &Transaction) -> (r: bool)
    ensures
        r == status_counted(tx.status),
{
    match &tx.status {
        None => true,
        Some(s) => str_eq(s.as_str(), "COMPLETED") || str_eq(s.as_str(), "SUCCESS"),
    }
}

/// A debit clamped at zero.
pub open spec fn sub_result(b: nat, x: nat) -> nat {
    if b >= x {
        (b - x) as nat
    } else {
        0
    }
}

/// The abstract content of a recorded anomaly.
pub ghost struct AnomalyView {
    pub account: Seq<char>,
    pub tx_index: u64,
    pub tx_type: Seq<char>,
    pub balance_before: nat,
    pub amount: nat,
}

/// Anomalies produced by one clamped debit: one entry exactly when the
/// balance was insufficient.
pub open spec fn sub_anoms(b: nat, x: nat, a: Seq<char>, idx: u64, ty: Seq<char>) -> Seq<
    AnomalyView,
> {
    if b >= x {
        Seq::empty()
    } else {
        seq![AnomalyView { account: a, tx_index: idx, tx_type: ty, balance_before: b, amount: x }]
    }
}

/// Balance of `a` after a transfer payload, starting from `b`.
pub open spec fn transfer_effect(b: nat, t: Transfer, a: Seq<char>) -> nat {
    let b1 = if spec_account_match(t.from@, a) {
        let ba = sub_result(b, t.amount as nat);
        match t.fee {
            Option::None => ba,
            Option::Some(f) => if f != 0 {
                sub_result(ba, f as nat)
            } else {
                ba
            },
        }
    } else {
        b
    };
    if spec_account_match(t.to@, a) {
        b1 + t.amount as nat
    } else {
        b1
    }
}

pub open spec fn transfer_anoms(b: nat, t: Transfer, a: Seq<char>, idx: u64) -> Seq<AnomalyView> {
    if spec_account_match(t.from@, a) {
        let a1 = sub_anoms(b, t.amount as nat, a, idx, "transfer"@);
        let ba = sub_result(b, t.amount as nat);
        let a2 = match t.fee {
            Option::None => Seq::<AnomalyView>::empty(),
            Option::Some(f) => if f != 0 {
                sub_anoms(ba, f as nat, a, idx, "transfer_fee"@)
            } else {
                Seq::<AnomalyView>::empty()
            },
        };
        a1 + a2
    } else {
        Seq::empty()
    }
}

/// Balance of `a` after one transaction, starting from `b`.
#[verifier::opaque]
pub open spec fn apply_tx(b: nat, tx: Transaction, a: Seq<char>) -> nat {
    if !status_counted(tx.status) {
        b
    } else if tx.kind@ == "transfer"@ {
        match tx.transfer {
            Option::Some(t) => transfer_effect(b, t, a),
            Option::None => b,
        }
    } else if tx.kind@ == "mint"@ {
        match tx.mint {
            Option::Some(m) => if spec_account_match(m.to@, a) {
                b + m.amount as nat
            } else {
                b
            },
            Option::None => b,
        }
    } else if tx.kind@ == "burn"@ {
        match tx.burn {
            Option::Some(bu) => if spec_account_match(bu.from@, a) {
                sub_result(b, bu.amount as nat)
            } else {
                b
            },
            Option::None => b,
        }
    } else if tx.kind@ == "approve"@ {
        match tx.approve {
            Option::Some(ap) => if spec_account_match(ap.from@, a) {
                match ap.fee {
                    Option::Some(f) => if f != 0 {
                        sub_result(b, f as nat)
                    } else {
                        b
                    },
                    Option::None => b,
                }
            } else {
                b
            },
            Option::None => b,
        }
    } else {
        b
    }
}

/// Anomalies recorded by one transaction for `a`, starting from balance `b`.
#[verifier::opaque]
pub open spec fn tx_anoms(b: nat, tx: Transaction, a: Seq<char>) -> Seq<AnomalyView> {
    if !status_counted(tx.status) {
        Seq::empty()
    } else if tx.kind@ == "transfer"@ {
        match tx.transfer {
            Option::Some(t) => transfer_anoms(b, t, a, tx.index),
            Option::None => Seq::empty(),
        }
    } else if tx.kind@ == "burn"@ {
        match tx.burn {
            Option::Some(bu) => if spec_account_match(bu.from@, a) {
                sub_anoms(b, bu.amount as nat, a, tx.index, "burn"@)
            } else {
                Seq::empty()
            },
            Option::None => Seq::empty(),
        }
    } else if tx.kind@ == "approve"@ {
        match tx.approve {
            Option::Some(ap) => if spec_account_match(ap.from@, a) {
                match ap.fee {
                    Option::Some(f) => if f != 0 {
                        sub_anoms(b, f as nat, a, tx.index, "approve_fee"@)
                    } else {
                        Seq::empty()
                    },
                    Option::None => Seq::empty(),
                }
            } else {
                Seq::empty()
            },
            Option::None => Seq::empty(),
        }
    } else {
        Seq::empty()
    }
}

/// Balance of `a` after replaying `txs` from zero, in the given order.
pub open spec fn replay(txs: Seq<Transaction>, a: Seq<char>) -> nat
    decreases txs.len(),
{
    if txs.len() == 0 {
        0
    } else {
        apply_tx(replay(txs.drop_last(), a), txs.last(), a)
    }
}

/// Anomalies recorded while replaying `txs` for `a`.
pub open spec fn replay_anoms(txs: Seq<Transaction>, a: Seq<char>) -> Seq<AnomalyView>
    decreases txs.len(),
{
    if txs.len() == 0 {
        Seq::empty()
    } else {
        replay_anoms(txs.drop_last(), a) + tx_anoms(replay(txs.drop_last(), a), txs.last(), a)
    }
}

/// One transaction credits at most one amount.
pub proof fn lemma_apply_tx_bound(b: nat, tx: Transaction, a: Seq<char>)
    ensures
        apply_tx(b, tx, a) <= b + u64::MAX as nat,
{
    reveal(apply_tx);
}

/// Distinctness of the kind discriminators.
proof fn lemma_kind_literals()
    ensures
        "transfer"@ != "mint"@ && "transfer"@ != "burn"@ && "transfer"@ != "approve"@,
        "mint"@ != "burn"@ && "mint"@ != "approve"@,
        "burn"@ != "approve"@,
{
    reveal_strlit("transfer");
    reveal_strlit("mint");
    reveal_strlit("burn");
    reveal_strlit("approve");
    assert("transfer"@.len() == 8 && "mint"@.len() == 4 && "burn"@.len() == 4 && "approve"@.len()
        == 7);
    assert("mint"@[0] == 'm' && "burn"@[0] == 'b');
    assert("mint"@ != "burn"@) by {
        if "mint"@ == "burn"@ {
            assert("mint"@[0] == "burn"@[0]);
        }
    }
}

/// A transaction that does not count, or carries no payload for its kind,
/// has no effect and records nothing.
#[verifier::spinoff_prover]
proof fn lemma_apply_tx_noop(b: nat, tx: Transaction, a: Seq<char>)
    requires
        !status_counted(tx.status) || (tx.kind@ == "transfer"@ && tx.transfer is None) || (tx.kind@
            == "mint"@ && tx.mint is None) || (tx.kind@ == "burn"@ && tx.burn is None) || (tx.kind@
            == "approve"@ && tx.approve is None) || (tx.kind@ != "transfer"@ && tx.kind@ != "mint"@
            && tx.kind@ != "burn"@ && tx.kind@ != "approve"@),
    ensures
        apply_tx(b, tx, a) == b,
        tx_anoms(b, tx, a) == Seq::<AnomalyView>::empty(),
{
    reveal(apply_tx);
    reveal(tx_anoms);
    lemma_kind_literals();
}

#[verifier::spinoff_prover]
proof fn lemma_apply_tx_transfer(b: nat, tx: Transaction, a: Seq<char>)
    requires
        status_counted(tx.status),
        tx.kind@ == "transfer"@,
        tx.transfer is Some,
    ensures
        apply_tx(b, tx, a) == transfer_effect(b, tx.transfer->0, a),
        tx_anoms(b, tx, a) == transfer_anoms(b, tx.transfer->0, a, tx.index),
{
    reveal(apply_tx);
    reveal(tx_anoms);
}

#[verifier::spinoff_prover]
proof fn lemma_apply_tx_mint(b: nat, tx: Transaction, a: Seq<char>)
    requires
        status_counted(tx.status),
        tx.kind@ == "mint"@,
        tx.mint is Some,
    ensures
        apply_tx(b, tx, a) == (if spec_account_match(tx.mint->0.to@, a) {
            b + tx.mint->0.amount as nat
        } else {
            b
        }),
        tx_anoms(b, tx, a) == Seq::<AnomalyView>::empty(),
{
    reveal(apply_tx);
    reveal(tx_anoms);
    lemma_kind_literals();
}

#[verifier::spinoff_prover]
proof fn lemma_apply_tx_burn(b: nat, tx: Transaction, a: Seq<char>)
    requires
        status_counted(tx.status),
        tx.kind@ == "burn"@,
        tx.burn is Some,
    ensures
        apply_tx(b, tx, a) == (if spec_account_match(tx.burn->0.from@, a) {
            sub_result(b, tx.burn->0.amount as nat)
        } else {
            b
        }),
        tx_anoms(b, tx, a) == (if spec_account_match(tx.burn->0.from@, a) {
            sub_anoms(b, tx.burn->0.amount as nat, a, tx.index, "burn"@)
        } else {
            Seq::<AnomalyView>::empty()
        }),
{
    reveal(apply_tx);
    reveal(tx_anoms);
    lemma_kind_literals();
}

#[verifier::spinoff_prover]
proof fn lemma_apply_tx_approve(b: nat, tx: Transaction, a: Seq<char>)
    requires
        status_counted(tx.status),
        tx.kind@ == "approve"@,
        tx.approve is Some,
    ensures
        apply_tx(b, tx, a) == (if spec_account_match(tx.approve->0.from@, a) && tx.approve->0.fee
            is Some && tx.approve->0.fee->0 != 0 {
            sub_result(b, tx.approve->0.fee->0 as nat)
        } else {
            b
        }),
        tx_anoms(b, tx, a) == (if spec_account_match(tx.approve->0.from@, a)
            && tx.approve->0.fee is Some && tx.approve->0.fee->0 != 0 {
            sub_anoms(b, tx.approve->0.fee->0 as nat, a, tx.index, "approve_fee"@)
        } else {
            Seq::<AnomalyView>::empty()
        }),
{
    reveal(apply_tx);
    reveal(tx_anoms);
    lemma_kind_literals();
}

/// A replayed balance is bounded by one maximal credit per transaction.
pub proof fn lemma_replay_bound(txs: Seq<Transaction>, a: Seq<char>)
    ensures
        replay(txs, a) <= txs.len() * (u64::MAX as nat),
    decreases txs.len(),
{
    if txs.len() > 0 {
        lemma_replay_bound(txs.drop_last(), a);
        lemma_apply_tx_bound(replay(txs.drop_last(), a), txs.last(), a);
        assert((txs.len() - 1) * (u64::MAX as nat) + (u64::MAX as nat) == txs.len() * (
        u64::MAX as nat)) by (nonlinear_arith);
    }
}

/// An executable anomaly record carries exactly an abstract anomaly.
pub open spec fn anomaly_matches(e: BalanceAnomaly, v: AnomalyView, now: i64) -> bool {
    &&& e.account@ == v.account
    &&& e.tx_index == v.tx_index
    &&& e.tx_type@ == v.tx_type
    &&& e.anomaly_type@ == "insufficient_balance"@
    &&& is_dec_string(e.balance@) && dec_value(e.balance@) == v.balance_before
    &&& is_dec_string(e.amount@) && dec_value(e.amount@) == v.amount
    &&& e.timestamp == now
}

/// A sequence of executable anomaly records carries exactly a sequence of
/// abstract ones.
pub open spec fn anoms_match(e: Seq<BalanceAnomaly>, v: Seq<AnomalyView>, now: i64) -> bool {
    e.len() == v.len() && forall|k: int|
        0 <= k < e.len() ==> anomaly_matches(#[trigger] e[k], v[k], now)
}

/// `e2` extends `e1` by records carrying exactly `v`.
pub open spec fn anoms_extended(
    e1: Seq<BalanceAnomaly>,
    e2: Seq<BalanceAnomaly>,
    v: Seq<AnomalyView>,
    now: i64,
) -> bool {
    &&& e2.len() == e1.len() + v.len()
    &&& e2.take(e1.len() as int) == e1
    &&& forall|k: int|
        0 <= k < v.len() ==> anomaly_matches(#[trigger] e2[e1.len() + k], v[k], now)
}

pub proof fn lemma_anoms_extended_trans(
    e1: Seq<BalanceAnomaly>,
    e2: Seq<BalanceAnomaly>,
    e3: Seq<BalanceAnomaly>,
    v1: Seq<AnomalyView>,
    v2: Seq<AnomalyView>,
    now: i64,
)
    requires
        anoms_extended(e1, e2, v1, now),
        anoms_extended(e2, e3, v2, now),
    ensures
        anoms_extended(e1, e3, v1 + v2, now),
{
    assert(e3.take(e1.len() as int) =~= e2.take(e1.len() as int));
    assert forall|k: int| 0 <= k < (v1 + v2).len() implies anomaly_matches(
        #[trigger] e3[e1.len() + k],
        (v1 + v2)[k],
        now,
    ) by {
        if k < v1.len() {
            assert(e3[e1.len() + k] == e3.take(e2.len() as int)[e1.len() + k]);
            assert(e3.take(e2.len() as int) == e2);
            assert(e2[e1.len() + k] == e3[e1.len() + k]);
        } else {
            assert(e3[e2.len() + (k - v1.len())] == e3[e1.len() + k]);
        }
    }
}

pub proof fn lemma_anoms_extended_refl(e: Seq<BalanceAnomaly>, now: i64)
    ensures
        anoms_extended(e, e, Seq::empty(), now),
{
    assert(e.take(e.len() as int) =~= e);
}

/// Debits `amount` from `balance`, clamping at zero; an insufficient balance
/// is recorded as an anomaly and is not fatal.
#[verifier::spinoff_prover]
fn safe_subtract_balance_with_logging(
    balance: u128,
    amount: u64,
    account: &str,
    tx_index: u64,
    tx_type: &str,
    now: i64,
    anoms: &mut Vec<BalanceAnomaly>,
) -> (nb: u128)
    ensures
        nb as nat == sub_result(balance as nat, amount as nat),
        anoms_extended(
            old(anoms)@,
            final(anoms)@,
            sub_anoms(balance as nat, amount as nat, account@, tx_index, tx_type@),
            now,
        ),
{
    if balance >= amount as u128 {
        proof {
            lemma_anoms_extended_refl(anoms@, now);
        }
        balance - amount as u128
    } else {
        let balance_str = u128_to_decimal(balance);
        let amount_str = u128_to_decimal(amount as u128);
        proof {
            lemma_dec_of_props(balance as nat);
            lemma_dec_of_props(amount as nat);
        }
        let description = account.to_owned().concat(": insufficient balance");
        let record = BalanceAnomaly {
            account: account.to_owned(),
            tx_index,
            tx_type: tx_type.to_owned(),
            anomaly_type: "insufficient_balance".to_owned(),
            balance: balance_str,
            amount: amount_str,
            description,
            timestamp: now,
        };
        anoms.push(record);
        proof {
            assert(final(anoms)@.take(old(anoms)@.len() as int) =~= old(anoms)@);
        }
        0
    }
}

/// Applies a transfer payload to a running balance.
fn apply_transfer_exec(
    balance: u128,
    t: &Transfer,
    idx: u64,
    account: &str,
    now: i64,
    anoms: &mut Vec<BalanceAnomaly>,
) -> (nb: u128)
    requires
        balance as nat + u64::MAX as nat <= u128::MAX as nat,
    ensures
        nb as nat == transfer_effect(balance as nat, *t, account@),
        anoms_extended(
            old(anoms)@,
            final(anoms)@,
            transfer_anoms(balance as nat, *t, account@, idx),
            now,
        ),
{
    let mut b = balance;
    let is_from = account_match(t.from.as_str(), account);
    if is_from {
        let ghost anoms0 = anoms@;
        let ghost v1 = sub_anoms(balance as nat, t.amount as nat, account@, idx, "transfer"@);
        b = safe_subtract_balance_with_logging(b, t.amount, account, idx, "transfer", now, anoms);
        match &t.fee {
            Some(f) => {
                if *f != 0 {
                    let ghost anoms1 = anoms@;
                    let ghost bafter = sub_result(balance as nat, t.amount as nat);
                    b = safe_subtract_balance_with_logging(
                        b,
                        *f,
                        account,
                        idx,
                        "transfer_fee",
                        now,
                        anoms,
                    );
                    proof {
                        lemma_anoms_extended_trans(
                            anoms0,
                            anoms1,
                            anoms@,
                            v1,
                            sub_anoms(bafter, *f as nat, account@, idx, "transfer_fee"@),
                            now,
                        );
                    }
                } else {
                    proof {
                        assert(transfer_anoms(balance as nat, *t, account@, idx) =~= v1
                            + Seq::<AnomalyView>::empty());
                        assert(v1 + Seq::<AnomalyView>::empty() =~= v1);
                    }
                }
            },
            None => {
                proof {
                    assert(transfer_anoms(balance as nat, *t, account@, idx) =~= v1
                        + Seq::<AnomalyView>::empty());
                    assert(v1 + Seq::<AnomalyView>::empty() =~= v1);
                }
            },
        }
    } else {
        proof {
            lemma_anoms_extended_refl(anoms@, now);
        }
    }
    let is_to = account_match(t.to.as_str(), account);
    if is_to {
        b = b + t.amount as u128;
    }
    b
}

/// Applies a mint payload to a running balance.
#[verifier::spinoff_prover]
fn apply_mint_exec(balance: u128, m: &Mint, account: &str) -> (nb: u128)
    requires
        balance as nat + u64::MAX as nat <= u128::MAX as nat,
    ensures
        nb as nat == (if spec_account_match(m.to@, account@) {
            balance as nat + m.amount as nat
        } else {
            balance as nat
        }),
{
    if account_match(m.to.as_str(), account) {
        balance + m.amount as u128
    } else {
        balance
    }
}

/// Applies a burn payload to a running balance.
#[verifier::spinoff_prover]
fn apply_burn_exec(
    balance: u128,
    bu: &Burn,
    idx: u64,
    account: &str,
    now: i64,
    anoms: &mut Vec<BalanceAnomaly>,
) -> (nb: u128)
    ensures
        nb as nat == (if spec_account_match(bu.from@, account@) {
            sub_result(balance as nat, bu.amount as nat)
        } else {
            balance as nat
        }),
        anoms_extended(
            old(anoms)@,
            final(anoms)@,
            if spec_account_match(bu.from@, account@) {
                sub_anoms(balance as nat, bu.amount as nat, account@, idx, "burn"@)
            } else {
                Seq::empty()
            },
            now,
        ),
{
    if account_match(bu.from.as_str(), account) {
        safe_subtract_balance_with_logging(balance, bu.amount, account, idx, "burn", now, anoms)
    } else {
        proof {
            lemma_anoms_extended_refl(anoms@, now);
        }
        balance
    }
}

/// Applies an approve payload to a running balance: only its fee is debited.
#[verifier::spinoff_prover]
fn apply_approve_exec(
    balance: u128,
    ap: &Approve,
    idx: u64,
    account: &str,
    now: i64,
    anoms: &mut Vec<BalanceAnomaly>,
) -> (nb: u128)
    ensures
        nb as nat == (if spec_account_match(ap.from@, account@) && ap.fee is Some && ap.fee->0
            != 0 {
            sub_result(balance as nat, ap.fee->0 as nat)
        } else {
            balance as nat
        }),
        anoms_extended(
            old(anoms)@,
            final(anoms)@,
            if spec_account_match(ap.from@, account@) && ap.fee is Some && ap.fee->0 != 0 {
                sub_anoms(balance as nat, ap.fee->0 as nat, account@, idx, "approve_fee"@)
            } else {
                Seq::empty()
            },
            now,
        ),
{
    if account_match(ap.from.as_str(), account) {
        match &ap.fee {
            Some(f) => {
                if *f != 0 {
                    return safe_subtract_balance_with_logging(
                        balance,
                        *f,
                        account,
                        idx,
                        "approve_fee",
                        now,
                        anoms,
                    );
                }
            },
            None => {},
        }
    }
    proof {
        lemma_anoms_extended_refl(anoms@, now);
    }
    balance
}

/// Applies one transaction to a running balance for `account`, recording
/// anomalies for clamped debits.
#[verifier::spinoff_prover]
fn apply_tx_exec(
    balance: u128,
    tx: &Transaction,
    account: &str,
    now: i64,
    anoms: &mut Vec<BalanceAnomaly>,
) -> (nb: u128)
    requires
        balance as nat + u64::MAX as nat <= u128::MAX as nat,
    ensures
        nb as nat == apply_tx(balance as nat, *tx, account@),
        anoms_extended(
            old(anoms)@,
            final(anoms)@,
            tx_anoms(balance as nat, *tx, account@),
            now,
        ),
{
    if !is_status_counted(tx) {
        proof {
            lemma_apply_tx_noop(balance as nat, *tx, account@);
            lemma_anoms_extended_refl(anoms@, now);
        }
        return balance;
    }
    if str_eq(tx.kind.as_str(), "transfer") {
        match &tx.transfer {
            Some(t) => {
                proof {
                    lemma_apply_tx_transfer(balance as nat, *tx, account@);
                }
                apply_transfer_exec(balance, t, tx.index, account, now, anoms)
            },
            None => {
                proof {
                    lemma_apply_tx_noop(balance as nat, *tx, account@);
                    lemma_anoms_extended_refl(anoms@, now);
                }
                balance
            },
        }
    } else if str_eq(tx.kind.as_str(), "mint") {
        proof {
            lemma_anoms_extended_refl(anoms@, now);
        }
        match &tx.mint {
            Some(m) => {
                proof {
                    lemma_apply_tx_mint(balance as nat, *tx, account@);
                }
                apply_mint_exec(balance, m, account)
            },
            None => {
                proof {
                    lemma_apply_tx_noop(balance as nat, *tx, account@);
                }
                balance
            },
        }
    } else if str_eq(tx.kind.as_str(), "burn") {
        match &tx.burn {
            Some(bu) => {
                proof {
                    lemma_apply_tx_burn(balance as nat, *tx, account@);
                }
                apply_burn_exec(balance, bu, tx.index, account, now, anoms)
            },
            None => {
                proof {
                    lemma_apply_tx_noop(balance as nat, *tx, account@);
                    lemma_anoms_extended_refl(anoms@, now);
                }
                balance
            },
        }
    } else if str_eq(tx.kind.as_str(), "approve") {
        match &tx.approve {
            Some(ap) => {
                proof {
                    lemma_apply_tx_approve(balance as nat, *tx, account@);
                }
                apply_approve_exec(balance, ap, tx.index, account, now, anoms)
            },
            None => {
                proof {
                    lemma_apply_tx_noop(balance as nat, *tx, account@);
                    lemma_anoms_extended_refl(anoms@, now);
                }
                balance
            },
        }
    } else {
        proof {
            lemma_apply_tx_noop(balance as nat, *tx, account@);
            lemma_anoms_extended_refl(anoms@, now);
        }
        balance
    }
}

/// Non-decreasing index order.
pub open spec fn sorted_by_index(txs: Seq<Transaction>) -> bool {
    forall|i: int, j: int| 0 <= i < j < txs.len() ==> txs[i].index <= txs[j].index
}

/// Insertion of one transaction into an index-sorted sequence, after any
/// entries with the same index.
pub open spec fn insert_sorted(s: Seq<Transaction>, t: Transaction) -> Seq<Transaction>
    decreases s.len(),
{
    if s.len() == 0 {
        seq![t]
    } else if s.last().index <= t.index {
        s.push(t)
    } else {
        insert_sorted(s.drop_last(), t).push(s.last())
    }
}

/// The index-sorted permutation of a transaction sequence (insertion sort).
pub open spec fn sort_by_index(s: Seq<Transaction>) -> Seq<Transaction>
    decreases s.len(),
{
    if s.len() == 0 {
        Seq::empty()
    } else {
        insert_sorted(sort_by_index(s.drop_last()), s.last())
    }
}

/// Where `insert_sorted` puts its element.
proof fn lemma_insert_sorted_at(s: Seq<Transaction>, t: Transaction, p: int)
    requires
        0 <= p <= s.len(),
        forall|j: int| 0 <= j < p ==> s[j].index <= t.index,
        forall|j: int| p <= j < s.len() ==> s[j].index > t.index,
    ensures
        insert_sorted(s, t) == s.insert(p, t),
    decreases s.len(),
{
    if s.len() == 0 {
        assert(insert_sorted(s, t) =~= s.insert(0, t));
    } else if s.last().index <= t.index {
        assert(p == s.len());
        assert(insert_sorted(s, t) =~= s.insert(p, t));
    } else {
        assert(p < s.len());
        assert forall|j: int| 0 <= j < p implies s.drop_last()[j].index <= t.index by {
            assert(s.drop_last()[j] == s[j]);
        }
        assert forall|j: int| p <= j < s.drop_last().len() implies s.drop_last()[j].index
            > t.index by {
            assert(s.drop_last()[j] == s[j]);
        }
        lemma_insert_sorted_at(s.drop_last(), t, p);
        assert(insert_sorted(s.drop_last(), t).push(s.last()) =~= s.insert(p, t));
    }
}

/// Inserting preserves sortedness; the result holds the old entries and `t`.
proof fn lemma_insert_sorted_props(s: Seq<Transaction>, t: Transaction)
    requires
        sorted_by_index(s),
    ensures
        sorted_by_index(insert_sorted(s, t)),
        insert_sorted(s, t).len() == s.len() + 1,
        forall|k: int|
            0 <= k < insert_sorted(s, t).len() ==> (#[trigger] insert_sorted(s, t)[k] == t
                || s.contains(insert_sorted(s, t)[k])),
    decreases s.len(),
{
    let res = insert_sorted(s, t);
    if s.len() == 0 {
    } else if s.last().index <= t.index {
        assert forall|i: int, j: int| 0 <= i < j < res.len() implies res[i].index
            <= res[j].index by {
            if j == res.len() - 1 {
                if i < s.len() - 1 {
                    assert(s[i].index <= s[s.len() - 1].index);
                }
            }
        }
        assert forall|k: int|
            0 <= k < res.len() implies (#[trigger] res[k] == t || s.contains(res[k])) by {
            if k < s.len() {
                assert(res[k] == s[k]);
            }
        }
    } else {
        assert(sorted_by_index(s.drop_last())) by {
            assert forall|i: int, j: int|
                0 <= i < j < s.drop_last().len() implies s.drop_last()[i].index <= s.drop_last()[
                j
            ].index by {
                assert(s.drop_last()[i] == s[i] && s.drop_last()[j] == s[j]);
            }
        }
        lemma_insert_sorted_props(s.drop_last(), t);
        let inner = insert_sorted(s.drop_last(), t);
        assert forall|i: int, j: int| 0 <= i < j < res.len() implies res[i].index
            <= res[j].index by {
            if j == res.len() - 1 {
                assert(res[j] == s.last());
                assert(res[i] == inner[i]);
                if inner[i] == t {
                    assert(t.index <= s.last().index);
                } else {
                    assert(s.drop_last().contains(inner[i]));
                    let w = choose|w: int|
                        0 <= w < s.drop_last().len() && s.drop_last()[w] == inner[i];
                    assert(s[w] == inner[i]);
                    if w < s.len() - 1 {
                        assert(s[w].index <= s[s.len() - 1].index);
                    }
                }
            } else {
                assert(res[i] == inner[i] && res[j] == inner[j]);
            }
        }
        assert forall|k: int|
            0 <= k < res.len() implies (#[trigger] res[k] == t || s.contains(res[k])) by {
            if k == res.len() - 1 {
                assert(res[k] == s.last());
                assert(s.contains(s[s.len() - 1]));
            } else {
                assert(res[k] == inner[k]);
                if inner[k] != t {
                    assert(s.drop_last().contains(inner[k]));
                    let w = choose|w: int|
                        0 <= w < s.drop_last().len() && s.drop_last()[w] == inner[k];
                    assert(s[w] == inner[k]);
                    assert(s.contains(s[w]));
                }
            }
        }
    }
}

/// The sorted permutation is index-sorted and has the same length.
pub proof fn lemma_sort_by_index_props(s: Seq<Transaction>)
    ensures
        sorted_by_index(sort_by_index(s)),
        sort_by_index(s).len() == s.len(),
    decreases s.len(),
{
    if s.len() > 0 {
        lemma_sort_by_index_props(s.drop_last());
        lemma_insert_sorted_props(sort_by_index(s.drop_last()), s.last());
    }
}

/// Sorts transactions by index, ascending.
#[verifier::spinoff_prover]
pub fn sort_transactions_by_index(txs: &Vec<Transaction>) -> (r: Vec<Transaction>)
    ensures
        r@ == sort_by_index(txs@),
        sorted_by_index(r@),
{
    let mut out: Vec<Transaction> = Vec::new();
    let mut i: usize = 0;
    proof {
        assert(txs@.take(0) =~= Seq::<Transaction>::empty());
        lemma_sort_by_index_props(txs@.take(0));
    }
    while i < txs.len()
        invariant
            0 <= i <= txs@.len(),
            out@ == sort_by_index(txs@.take(i as int)),
            sorted_by_index(out@),
        decreases txs@.len() - i,
    {
        let t = &txs[i];
        let mut p: usize = out.len();
        while p > 0 && out[p - 1].index > t.index
            invariant
                0 <= p <= out@.len(),
                forall|j: int| p <= j < out@.len() ==> out@[j].index > t.index,
            decreases p,
        {
            p -= 1;
        }
        proof {
            assert forall|j: int| 0 <= j < p implies out@[j].index <= t.index by {
                assert(out@[p - 1].index <= t.index);
                if j < p - 1 {
                    assert(out@[j].index <= out@[p - 1].index);
                }
            }
            lemma_insert_sorted_at(out@, *t, p as int);
            lemma_insert_sorted_props(out@, *t);
            assert(txs@.take(i as int + 1).drop_last() =~= txs@.take(i as int));
            assert(txs@.take(i as int + 1).last() == txs@[i as int]);
        }
        out.insert(p, t.clone());
        i += 1;
    }
    proof {
        assert(txs@.take(txs@.len() as int) =~= txs@);
    }
    out
}

/// Pairwise distinct transaction indices.
pub open spec fn distinct_indices(s: Seq<Transaction>) -> bool {
    forall|i: int, j: int|
        0 <= i < s.len() && 0 <= j < s.len() && i != j ==> s[i].index != s[j].index
}

proof fn lemma_insert_sorted_multiset(s: Seq<Transaction>, t: Transaction)
    ensures
        insert_sorted(s, t).to_multiset() == s.to_multiset().insert(t),
    decreases s.len(),
{
    broadcast use vstd::seq_lib::group_to_multiset_ensures;

    if s.len() == 0 {
        assert(insert_sorted(s, t) =~= s.push(t));
    } else if s.last().index <= t.index {
    } else {
        lemma_insert_sorted_multiset(s.drop_last(), t);
        assert(s.drop_last().push(s.last()) =~= s);
        assert(insert_sorted(s, t).to_multiset() =~= s.drop_last().to_multiset().insert(t).insert(
            s.last(),
        ));
        assert(s.drop_last().to_multiset().insert(t).insert(s.last())
            =~= s.drop_last().to_multiset().insert(s.last()).insert(t));
    }
}

/// Sorting permutes: the multiset of transactions is unchanged.
pub proof fn lemma_sort_by_index_multiset(s: Seq<Transaction>)
    ensures
        sort_by_index(s).to_multiset() == s.to_multiset(),
    decreases s.len(),
{
    broadcast use vstd::seq_lib::group_to_multiset_ensures;

    if s.len() > 0 {
        lemma_sort_by_index_multiset(s.drop_last());
        lemma_insert_sorted_multiset(sort_by_index(s.drop_last()), s.last());
        assert(s.drop_last().push(s.last()) =~= s);
    }
}

/// Two index-sorted sequences holding the same transactions, with distinct
/// indices in the first, are equal.
proof fn lemma_sorted_multiset_unique(s1: Seq<Transaction>, s2: Seq<Transaction>)
    requires
        sorted_by_index(s1),
        sorted_by_index(s2),
        s1.to_multiset() == s2.to_multiset(),
        distinct_indices(s1),
    ensures
        s1 == s2,
    decreases s1.len(),
{
    broadcast use vstd::seq_lib::group_to_multiset_ensures;

    if s1.len() == 0 {
        assert(s1.to_multiset().len() == 0);
        assert(s2.len() == 0);
        assert(s1 =~= s2);
    } else {
        assert(s1.to_multiset().len() == s1.len());
        assert(s2.to_multiset().len() == s2.len());
        let h1 = s1[0];
        let h2 = s2[0];
        assert(s2.contains(h2));
        assert(s1.to_multiset().count(h2) > 0);
        assert(s1.contains(h2));
        let i = choose|i: int| 0 <= i < s1.len() && s1[i] == h2;
        assert(h1.index <= h2.index) by {
            if i > 0 {
                assert(s1[0].index <= s1[i].index);
            }
        }
        assert(s1.contains(h1));
        assert(s2.to_multiset().count(h1) > 0);
        assert(s2.contains(h1));
        let j = choose|j: int| 0 <= j < s2.len() && s2[j] == h1;
        assert(h2.index <= h1.index) by {
            if j > 0 {
                assert(s2[0].index <= s2[j].index);
            }
        }
        assert(h1.index == h2.index);
        assert(h1 == h2) by {
            if i != 0 {
                assert(s1[i].index != s1[0].index);
            }
        }
        let t1 = s1.remove(0);
        let t2 = s2.remove(0);
        assert(t1.to_multiset() =~= s1.to_multiset().remove(h1));
        assert(t2.to_multiset() =~= s2.to_multiset().remove(h2));
        assert(t1.to_multiset() == t2.to_multiset());
        assert(sorted_by_index(t1)) by {
            assert forall|a: int, b: int| 0 <= a < b < t1.len() implies t1[a].index <= t1[
            b
            ].index by {
                assert(t1[a] == s1[a + 1] && t1[b] == s1[b + 1]);
            }
        }
        assert(sorted_by_index(t2)) by {
            assert forall|a: int, b: int| 0 <= a < b < t2.len() implies t2[a].index <= t2[
            b
            ].index by {
                assert(t2[a] == s2[a + 1] && t2[b] == s2[b + 1]);
            }
        }
        assert(distinct_indices(t1)) by {
            assert forall|a: int, b: int|
                0 <= a < t1.len() && 0 <= b < t1.len() && a != b implies t1[a].index != t1[
            b
            ].index by {
                assert(t1[a] == s1[a + 1] && t1[b] == s1[b + 1]);
            }
        }
        lemma_sorted_multiset_unique(t1, t2);
        assert(s1 =~= s2) by {
            assert forall|k: int| 0 <= k < s1.len() implies s1[k] == s2[k] by {
                if k > 0 {
                    assert(s1[k] == t1[k - 1] && s2[k] == t2[k - 1]);
                }
            }
        }
    }
}

/// Replay is order-independent: two sequences holding the same transactions
/// (in any order), with pairwise distinct indices, sort to the same
/// index-ordered sequence, so they replay to the same balance and the same
/// anomalies for every account.
pub proof fn lemma_replay_order_independent(s1: Seq<Transaction>, s2: Seq<Transaction>)
    requires
        s1.to_multiset() == s2.to_multiset(),
        distinct_indices(s1),
    ensures
        sort_by_index(s1) == sort_by_index(s2),
{
    broadcast use vstd::seq_lib::group_to_multiset_ensures;

    lemma_sort_by_index_props(s1);
    lemma_sort_by_index_props(s2);
    lemma_sort_by_index_multiset(s1);
    lemma_sort_by_index_multiset(s2);
    let o1 = sort_by_index(s1);
    // the sorted copy keeps the indices distinct: its elements are the same
    // and each occurs once
    assert(s1.no_duplicates()) by {
        assert forall|a: int, b: int|
            0 <= a < s1.len() && 0 <= b < s1.len() && a != b implies s1[a] != s1[b] by {
            assert(s1[a].index != s1[b].index);
        }
    }
    s1.lemma_multiset_has_no_duplicates();
    o1.lemma_multiset_has_no_duplicates_conv();
    assert(distinct_indices(o1)) by {
        assert forall|a: int, b: int|
            0 <= a < o1.len() && 0 <= b < o1.len() && a != b implies o1[a].index != o1[
        b
        ].index by {
            if o1[a].index == o1[b].index {
                assert(o1.contains(o1[a]));
                assert(s1.to_multiset().count(o1[a]) > 0);
                assert(s1.contains(o1[a]));
                assert(o1.contains(o1[b]));
                assert(s1.to_multiset().count(o1[b]) > 0);
                assert(s1.contains(o1[b]));
                if o1[a] != o1[b] {
                    let x = choose|x: int| 0 <= x < s1.len() && s1[x] == o1[a];
                    let y = choose|y: int| 0 <= y < s1.len() && s1[y] == o1[b];
                    assert(x != y);
                    assert(s1[x].index != s1[y].index);
                } else {
                    assert(!o1.no_duplicates());
                }
            }
        }
    }
    lemma_sorted_multiset_unique(o1, sort_by_index(s2));
}

/// Replays an account's transactions from a zero balance, in ascending
/// index order: the transactions are sorted by index internally, so the
/// result does not depend on the order in which they were handed in.
/// Returns the final balance together with the anomalies recorded along the
/// way; the result is a function of the inputs alone.
#[verifier::spinoff_prover]
pub fn calculate_account_balance(account: &str, unsorted: &Vec<Transaction>, now: i64) -> (r: (
    u128,
    Vec<BalanceAnomaly>,
))
    ensures
        r.0 as nat == replay(sort_by_index(unsorted@), spec_normalize(account@)),
        anoms_match(r.1@, replay_anoms(sort_by_index(unsorted@), spec_normalize(account@)), now),
{
    let txs = sort_transactions_by_index(unsorted);
    let txs = &txs;
    let normalized = normalize_account_id(account);
    let ghost a = spec_normalize(account@);
    let mut balance: u128 = 0;
    let mut anoms: Vec<BalanceAnomaly> = Vec::new();
    let mut i: usize = 0;
    proof {
        assert(txs@.take(0) =~= Seq::<Transaction>::empty());
        assert(anoms@ =~= Seq::<BalanceAnomaly>::empty());
        lemma_anoms_extended_refl(Seq::empty(), now);
        assert(anoms_extended(Seq::empty(), anoms@, replay_anoms(txs@.take(0), a), now));
    }
    while i < txs.len()
        invariant
            0 <= i <= txs@.len(),
            normalized@ == a,
            balance as nat == replay(txs@.take(i as int), a),
            anoms_extended(Seq::empty(), anoms@, replay_anoms(txs@.take(i as int), a), now),
        decreases txs@.len() - i,
    {
        proof {
            lemma_replay_bound(txs@.take(i as int), a);
            assert(txs@.take(i as int).len() * (u64::MAX as nat) + (u64::MAX as nat) <= (
            u128::MAX as nat)) by (nonlinear_arith)
                requires txs@.take(i as int).len() < 0x1_0000_0000_0000_0000;
        }
        let ghost anoms_before = anoms@;
        let tx = &txs[i];
        balance = apply_tx_exec(balance, tx, normalized.as_str(), now, &mut anoms);
        proof {
            assert(txs@.take(i as int + 1).drop_last() =~= txs@.take(i as int));
            assert(txs@.take(i as int + 1).last() == txs@[i as int]);
            lemma_anoms_extended_trans(
                Seq::empty(),
                anoms_before,
                anoms@,
                replay_anoms(txs@.take(i as int), a),
                tx_anoms(replay(txs@.take(i as int), a), txs@[i as int], a),
                now,
            );
        }
        i += 1;
    }
    proof {
        assert(txs@.take(txs@.len() as int) =~= txs@);
        let v = replay_anoms(txs@, a);
        assert forall|k: int| 0 <= k < anoms@.len() implies anomaly_matches(
            #[trigger] anoms@[k],
            v[k],
            now,
        ) by {
            assert(anomaly_matches(anoms@[0 + k], v[k], now));
        }
    }
    (balance, anoms)
}

/// The accounts touched by a transaction, normalized, in field order and
/// possibly with repetitions.
pub open spec fn accounts_of_list(tx: Transaction) -> Seq<Seq<char>> {
    if tx.kind@ == "transfer"@ {
        match tx.transfer {
            Option::Some(t) => seq![spec_normalize(t.from@), spec_normalize(t.to@)] + (
            match t.spender {
                Option::Some(sp) => seq![spec_normalize(sp@)],
                Option::None => Seq::<Seq<char>>::empty(),
            }),
            Option::None => Seq::empty(),
        }
    } else if tx.kind@ == "mint"@ {
        match tx.mint {
            Option::Some(m) => seq![spec_normalize(m.to@)],
            Option::None => Seq::empty(),
        }
    } else if tx.kind@ == "burn"@ {
        match tx.burn {
            Option::Some(bu) => seq![spec_normalize(bu.from@)] + (match bu.spender {
                Option::Some(sp) => seq![spec_normalize(sp@)],
                Option::None => Seq::<Seq<char>>::empty(),
            }),
            Option::None => Seq::empty(),
        }
    } else if tx.kind@ == "approve"@ {
        match tx.approve {
            Option::Some(ap) => seq![spec_normalize(ap.from@), spec_normalize(ap.spender@)],
            Option::None => Seq::empty(),
        }
    } else {
        Seq::empty()
    }
}

/// Whether a normalized account is touched by a transaction.
pub open spec fn touches(tx: Transaction, a: Seq<char>) -> bool {
    accounts_of_list(tx).contains(a)
}

fn contains_str(v: &Vec<String>, s: &str) -> (r: bool)
    ensures
        r <==> exists|k: int| 0 <= k < v@.len() && v@[k]@ == s@,
{
    let mut i: usize = 0;
    while i < v.len()
        invariant
            0 <= i <= v@.len(),
            forall|k: int| 0 <= k < i ==> v@[k]@ != s@,
        decreases v@.len() - i,
    {
        if str_eq(v[i].as_str(), s) {
            return true;
        }
        i += 1;
    }
    false
}

/// The normalized accounts a transaction touches, without repetitions.
#[verifier::rlimit(60)]
#[verifier::spinoff_prover]
pub fn accounts_of(tx: &Transaction) -> (r: Vec<String>)
    ensures
        forall|a: Seq<char>| #[trigger]
            touches(*tx, a) <==> exists|k: int| 0 <= k < r@.len() && r@[k]@ == a,
        forall|k1: int, k2: int| 0 <= k1 < k2 < r@.len() ==> r@[k1]@ != r@[k2]@,
{
    let mut raw: Vec<String> = Vec::new();
    if str_eq(tx.kind.as_str(), "transfer") {
        match &tx.transfer {
            Some(t) => {
                raw.push(normalize_account_id(t.from.as_str()));
                raw.push(normalize_account_id(t.to.as_str()));
                match &t.spender {
                    Some(sp) => {
                        raw.push(normalize_account_id(sp.as_str()));
                    },
                    None => {},
                }
            },
            None => {},
        }
    } else if str_eq(tx.kind.as_str(), "mint") {
        match &tx.mint {
            Some(m) => {
                raw.push(normalize_account_id(m.to.as_str()));
            },
            None => {},
        }
    } else if str_eq(tx.kind.as_str(), "burn") {
        match &tx.burn {
            Some(bu) => {
                raw.push(normalize_account_id(bu.from.as_str()));
                match &bu.spender {
                    Some(sp) => {
                        raw.push(normalize_account_id(sp.as_str()));
                    },
                    None => {},
                }
            },
            None => {},
        }
    } else if str_eq(tx.kind.as_str(), "approve") {
        match &tx.approve {
            Some(ap) => {
                raw.push(normalize_account_id(ap.from.as_str()));
                raw.push(normalize_account_id(ap.spender.as_str()));
            },
            None => {},
        }
    }
    proof {
        assert(raw@.len() == accounts_of_list(*tx).len());
        assert(forall|k: int| 0 <= k < raw@.len() ==> raw@[k]@ == accounts_of_list(*tx)[k]);
    }
    let mut out: Vec<String> = Vec::new();
    let mut i: usize = 0;
    while i < raw.len()
        invariant
            0 <= i <= raw@.len(),
            raw@.len() == accounts_of_list(*tx).len(),
            forall|k: int| 0 <= k < raw@.len() ==> raw@[k]@ == accounts_of_list(*tx)[k],
            forall|k: int|
                0 <= k < out@.len() ==> exists|j: int| 0 <= j < i && raw@[j]@ == #[trigger] out@[
                    k
                ]@,
            forall|j: int|
                0 <= j < i ==> exists|k: int| 0 <= k < out@.len() && #[trigger] raw@[j]@ == out@[
                    k
                ]@,
            forall|k1: int, k2: int| 0 <= k1 < k2 < out@.len() ==> out@[k1]@ != out@[k2]@,
        decreases raw@.len() - i,
    {
        let had = contains_str(&out, raw[i].as_str());
        let ghost out_before = out@;
        if !had {
            out.push(raw[i].clone());
        }
        proof {
            assert forall|j: int|
                0 <= j < i + 1 implies exists|k: int|
                0 <= k < out@.len() && #[trigger] raw@[j]@ == out@[k]@ by {
                if j < i {
                    let k = choose|k: int|
                        0 <= k < out_before.len() && raw@[j]@ == out_before[k]@;
                    assert(out@[k]@ == raw@[j]@);
                } else {
                    if had {
                        let k = choose|k: int|
                            0 <= k < out_before.len() && out_before[k]@ == raw@[i as int]@;
                        assert(out@[k]@ == raw@[j]@);
                    } else {
                        assert(out@[out@.len() - 1]@ == raw@[j]@);
                    }
                }
            }
        }
        i += 1;
    }
    proof {
        assert forall|a: Seq<char>| #[trigger]
            touches(*tx, a) implies exists|k: int| 0 <= k < out@.len() && out@[k]@ == a by {
            let j = choose|j: int| 0 <= j < accounts_of_list(*tx).len() && accounts_of_list(*tx)[j]
                == a;
            assert(raw@[j]@ == a);
        }
        assert forall|a: Seq<char>|
            (exists|k: int| 0 <= k < out@.len() && out@[k]@ == a) implies touches(*tx, a) by {
            let k = choose|k: int| 0 <= k < out@.len() && out@[k]@ == a;
            let j = choose|j: int| 0 <= j < raw@.len() && raw@[j]@ == out@[k]@;
            assert(accounts_of_list(*tx)[j] == a);
        }
    }
    out
}

/// Every account a transaction touches is already in normal form.
pub proof fn lemma_accounts_of_normalized(tx: Transaction, a: Seq<char>)
    requires
        touches(tx, a),
    ensures
        a == spec_normalize(a),
{
    let l = accounts_of_list(tx);
    let j = choose|j: int| 0 <= j < l.len() && l[j] == a;
    if tx.kind@ == "transfer"@ {
        match tx.transfer {
            Option::Some(t) => {
                crate::account::lemma_normalize_idempotent(t.from@);
                crate::account::lemma_normalize_idempotent(t.to@);
                match t.spender {
                    Option::Some(sp) => {
                        crate::account::lemma_normalize_idempotent(sp@);
                    },
                    Option::None => {},
                }
            },
            Option::None => {},
        }
    } else if tx.kind@ == "mint"@ {
        match tx.mint {
            Option::Some(m) => {
                crate::account::lemma_normalize_idempotent(m.to@);
            },
            Option::None => {},
        }
    } else if tx.kind@ == "burn"@ {
        match tx.burn {
            Option::Some(bu) => {
                crate::account::lemma_normalize_idempotent(bu.from@);
                match bu.spender {
                    Option::Some(sp) => {
                        crate::account::lemma_normalize_idempotent(sp@);
                    },
                    Option::None => {},
                }
            },
            Option::None => {},
        }
    } else if tx.kind@ == "approve"@ {
        match tx.approve {
            Option::Some(ap) => {
                crate::account::lemma_normalize_idempotent(ap.from@);
                crate::account::lemma_normalize_idempotent(ap.spender@);
            },
            Option::None => {},
        }
    }
}

} // verus!
