use ledger_indexer::account::{normalize_account_id, account_match, is_default_subaccount, Account};
use ledger_indexer::numeric::{u128_to_decimal, parse_decimal, format_token_amount};
use ledger_indexer::balance::{calculate_account_balance, accounts_of};
use ledger_indexer::models::{Transaction, Transfer, Mint, Approve, ApiResponse};
use ledger_indexer::error::{create_error, map_error, map_db_error, ApiError};

fn zeros64() -> String {
    "0".repeat(64)
}

fn mk_mint(index: u64, to: &str, amount: u64) -> Transaction {
    Transaction {
        kind: "mint".to_string(),
        timestamp: 1,
        transfer: None,
        mint: Some(Mint { to: to.to_string(), amount, created_at_time: None }),
        burn: None,
        approve: None,
        index,
        status: None,
    }
}

fn mk_transfer(index: u64, from: &str, to: &str, amount: u64, fee: Option<u64>) -> Transaction {
    Transaction {
        kind: "transfer".to_string(),
        timestamp: 2,
        transfer: Some(Transfer {
            to: to.to_string(),
            from: from.to_string(),
            amount,
            fee,
            created_at_time: None,
            spender: None,
        }),
        mint: None,
        burn: None,
        approve: None,
        index,
        status: None,
    }
}

#[test]
fn normalization_drops_default_subaccount() {
    let with_zero = format!("X:0x{}", zeros64());
    assert_eq!(normalize_account_id(&with_zero), "X");
    assert_eq!(normalize_account_id("X"), "X");
    let nonzero = format!("X:0x{}1", "0".repeat(63));
    assert_eq!(normalize_account_id(&nonzero), nonzero);
}

#[test]
fn normalization_idempotent_examples() {
    let with_zero = format!("owner:0x{}", zeros64());
    let once = normalize_account_id(&with_zero);
    let twice = normalize_account_id(&once);
    assert_eq!(once, twice);
}

#[test]
fn account_match_subaccount_canonicalization() {
    let a = format!("X:0x{}", zeros64());
    assert!(account_match("X", &a));
    assert!(account_match(&a, "X"));
    assert!(!account_match("X", "Y"));
    assert!(account_match("X", "X"));
}

#[test]
fn default_subaccount_checks() {
    assert!(is_default_subaccount(&format!("0x{}", zeros64())));
    assert!(is_default_subaccount(&zeros64()));
    assert!(!is_default_subaccount("0x00"));
    assert!(!is_default_subaccount(&format!("0x{}1", "0".repeat(63))));
}

#[test]
fn account_text_forms() {
    let acc = Account { owner: "own".to_string(), subaccount: Some(vec![0u8; 32]) };
    assert_eq!(acc.to_text(), "own");
    let acc2 = Account { owner: "own".to_string(), subaccount: Some(vec![1u8, 2u8]) };
    assert_eq!(acc2.to_text(), "own:0x0102");
    let acc3 = Account { owner: "own".to_string(), subaccount: None };
    assert_eq!(acc3.to_text(), "own");
}

#[test]
fn decimal_round_trip() {
    assert_eq!(u128_to_decimal(0), "0");
    assert_eq!(u128_to_decimal(10500), "10500");
    assert_eq!(parse_decimal("10500"), Some(10500));
    assert_eq!(parse_decimal(""), None);
    assert_eq!(parse_decimal("12a"), None);
    let s = u128_to_decimal(u128::MAX);
    assert_eq!(parse_decimal(&s), Some(u128::MAX));
}

#[test]
fn token_amount_formatting() {
    assert_eq!(format_token_amount(10500, 0), "10500");
    assert_eq!(format_token_amount(10500, 2), "105.00");
    assert_eq!(format_token_amount(5, 2), "0.05");
    assert_eq!(format_token_amount(5, 8), "0.00000005");
}

#[test]
fn mint_then_transfer_with_fee() {
    let txs = vec![mk_mint(1, "A", 1000), mk_transfer(2, "A", "B", 300, Some(1))];
    let (bal_a, anoms_a) = calculate_account_balance("A", &txs, 7);
    assert_eq!(bal_a, 699);
    assert!(anoms_a.is_empty());
    let (bal_b, anoms_b) = calculate_account_balance("B", &txs, 7);
    assert_eq!(bal_b, 300);
    assert!(anoms_b.is_empty());
}

#[test]
fn insufficient_balance_records_anomaly() {
    let txs = vec![mk_transfer(1, "A", "B", 50, None)];
    let (bal_a, anoms_a) = calculate_account_balance("A", &txs, 9);
    assert_eq!(bal_a, 0);
    assert_eq!(anoms_a.len(), 1);
    assert_eq!(anoms_a[0].account, "A");
    assert_eq!(anoms_a[0].tx_index, 1);
    assert_eq!(anoms_a[0].tx_type, "transfer");
    assert_eq!(anoms_a[0].anomaly_type, "insufficient_balance");
    assert_eq!(anoms_a[0].balance, "0");
    assert_eq!(anoms_a[0].amount, "50");
    assert_eq!(anoms_a[0].timestamp, 9);
    let (bal_b, anoms_b) = calculate_account_balance("B", &txs, 9);
    assert_eq!(bal_b, 50);
    assert!(anoms_b.is_empty());
}

#[test]
fn approve_debits_only_fee() {
    let mut txs = vec![mk_mint(1, "A", 100)];
    txs.push(Transaction {
        kind: "approve".to_string(),
        timestamp: 3,
        transfer: None,
        mint: None,
        burn: None,
        approve: Some(Approve {
            from: "A".to_string(),
            spender: "S".to_string(),
            amount: 50,
            fee: Some(1),
            expected_allowance: None,
            expires_at: None,
            created_at_time: None,
        }),
        index: 2,
        status: None,
    });
    let (bal_a, _) = calculate_account_balance("A", &txs, 0);
    assert_eq!(bal_a, 99);
    let (bal_s, _) = calculate_account_balance("S", &txs, 0);
    assert_eq!(bal_s, 0);
}

#[test]
fn replay_twice_same_balance() {
    let txs = vec![mk_mint(1, "A", 10), mk_transfer(2, "A", "B", 4, None)];
    let (b1, _) = calculate_account_balance("A", &txs, 0);
    let (b2, _) = calculate_account_balance("A", &txs, 0);
    assert_eq!(b1, b2);
    assert_eq!(b1, 6);
}

#[test]
fn skipped_status_has_no_effect() {
    let mut tx = mk_mint(1, "A", 100);
    tx.status = Some("PENDING".to_string());
    let (bal, anoms) = calculate_account_balance("A", &vec![tx], 0);
    assert_eq!(bal, 0);
    assert!(anoms.is_empty());
    let mut tx2 = mk_mint(1, "A", 100);
    tx2.status = Some("COMPLETED".to_string());
    let (bal2, _) = calculate_account_balance("A", &vec![tx2], 0);
    assert_eq!(bal2, 100);
}

#[test]
fn mint_to_default_subaccount_counts_for_owner() {
    let to = format!("X:0x{}", zeros64());
    let txs = vec![mk_mint(1, &to, 100)];
    let (bal, _) = calculate_account_balance("X", &txs, 0);
    assert_eq!(bal, 100);
}

#[test]
fn accounts_of_normalizes_and_dedups() {
    let zero_sub = format!("A:0x{}", zeros64());
    let tx = mk_transfer(1, &zero_sub, "A", 5, None);
    let accs = accounts_of(&tx);
    assert_eq!(accs.len(), 1);
    assert_eq!(accs[0], "A");
    let tx2 = mk_transfer(2, "A", "B", 5, None);
    let accs2 = accounts_of(&tx2);
    assert_eq!(accs2.len(), 2);
}

#[test]
fn api_response_shapes() {
    let ok: ApiResponse<u64> = ApiResponse::success(5);
    assert_eq!(ok.code, 200);
    assert_eq!(ok.data, Some(5));
    assert!(ok.error.is_none());
    let err: ApiResponse<u64> = ApiResponse::error("bad");
    assert_eq!(err.code, 400);
    assert_eq!(err.error.as_deref(), Some("bad"));
    let err2: ApiResponse<u64> = ApiResponse::error_with_code(404, "missing");
    assert_eq!(err2.code, 404);
}

#[test]
fn error_mapping() {
    assert!(matches!(map_error("x"), ApiError::Internal(m) if m == "x"));
    assert!(matches!(map_db_error("y"), ApiError::Database(m) if m == "y"));
    assert_eq!(create_error("boom").message, "boom");
}

use ledger_indexer::sync::{
    repair_resume_point, ledger_step, assign_indices, save_transaction_log, LedgerState,
    FetchOutcome, LedgerAction,
};
use ledger_indexer::engine::{balances_from_accounts, total_supply_of, select_transactions};
use ledger_indexer::models::{AccountRecord, BalanceRecord};

#[test]
fn replay_is_order_independent() {
    let txs = vec![mk_mint(1, "A", 100), mk_transfer(2, "A", "B", 50, None)];
    let reversed = vec![txs[1].clone(), txs[0].clone()];
    let (b1, _) = calculate_account_balance("A", &txs, 0);
    let (b2, _) = calculate_account_balance("A", &reversed, 0);
    assert_eq!(b1, 50);
    assert_eq!(b2, 50);
}

#[test]
fn resume_verification_repair() {
    // Sync status says 100, but transactions 95..100 were deleted: the
    // window (80, 100] reports 81..94 present, 95..99 missing, 100 present.
    let last: u64 = 100;
    let mut present = Vec::new();
    for idx in 81..=100u64 {
        present.push(!(95..=99).contains(&idx));
    }
    let (ok, point) = repair_resume_point(last, &present);
    assert!(!ok);
    assert_eq!(point, 94);
    let all = vec![true; 20];
    let (ok2, point2) = repair_resume_point(last, &all);
    assert!(ok2);
    assert_eq!(point2, 100);
}

#[test]
fn gap_correction_jumps_cursor_forward() {
    // Synced to 10; the remote reports first_index 25 (11..24 archived):
    // the cursor must jump to 25, not re-request 11.
    let st = LedgerState::begin(10);
    assert_eq!(st.cursor, 11);
    let ev = FetchOutcome { ok: true, transactions: vec![], first_index: 25, log_length: 30 };
    let (next, action) = ledger_step(&st, ev);
    assert_eq!(next.cursor, 25);
    assert!(matches!(action, LedgerAction::Fetch { start: 25, .. }));
    assert!(next.latest_index >= st.latest_index);
}

#[test]
fn ledger_step_persists_sorted_batches() {
    let st = LedgerState::begin(0);
    let batch = vec![mk_mint(3, "A", 5), mk_mint(2, "A", 5)];
    let ev = FetchOutcome { ok: true, transactions: batch, first_index: 1, log_length: 4 };
    let (next, action) = ledger_step(&st, ev);
    match action {
        LedgerAction::PersistBatch { sorted, .. } => {
            assert_eq!(sorted[0].index, 2);
            assert_eq!(sorted[1].index, 3);
        },
        _ => panic!("expected a persist action"),
    }
    assert_eq!(next.latest_index, 3);
    assert_eq!(next.cursor, 3);
}

#[test]
fn ledger_step_caught_up_after_empties() {
    let mut st = LedgerState::begin(5);
    let mut caught_up = false;
    let mut last_synced = st.latest_index;
    for _ in 0..3 {
        let ev = FetchOutcome { ok: true, transactions: vec![], first_index: 0, log_length: 0 };
        let (next, action) = ledger_step(&st, ev);
        assert!(next.latest_index >= last_synced); // the resume point never regresses
        last_synced = next.latest_index;
        if matches!(action, LedgerAction::CaughtUp) {
            caught_up = true;
        }
        st = next;
    }
    assert!(caught_up);
}

#[test]
fn assign_indices_fills_positions() {
    let batch = vec![mk_mint(0, "A", 1), mk_mint(0, "B", 2), mk_mint(0, "C", 3)];
    let indexed = assign_indices(batch, 40);
    assert_eq!(indexed[0].index, 40);
    assert_eq!(indexed[1].index, 41);
    assert_eq!(indexed[2].index, 42);
    assert_eq!(indexed[2].mint.as_ref().unwrap().to, "C");
}

#[test]
fn save_transaction_is_idempotent() {
    let mut log = Vec::new();
    save_transaction_log(&mut log, &mk_mint(2, "A", 10));
    save_transaction_log(&mut log, &mk_mint(1, "B", 20));
    assert_eq!(log.len(), 2);
    assert_eq!(log[0].index, 1);
    assert_eq!(log[1].index, 2);
    // saving the same transaction again leaves the log unchanged
    save_transaction_log(&mut log, &mk_mint(1, "B", 20));
    assert_eq!(log.len(), 2);
    assert_eq!(log[0].index, 1);
    assert_eq!(log[0].mint.as_ref().unwrap().amount, 20);
    assert_eq!(log[1].index, 2);
}

fn record(account: &str, indices: Vec<u64>) -> AccountRecord {
    AccountRecord { account: account.to_string(), transaction_indices: indices }
}

#[test]
fn full_pass_mint_then_transfer_with_fee() {
    let txs = vec![mk_mint(1, "A", 1000), mk_transfer(2, "A", "B", 300, Some(1))];
    let accounts = vec![record("A", vec![1, 2]), record("B", vec![2])];
    let (balances, anomalies) = balances_from_accounts(&accounts, &txs, 77);
    assert_eq!(balances.len(), 2);
    assert_eq!(balances[0].account, "A");
    assert_eq!(balances[0].balance, "699");
    assert_eq!(balances[0].last_updated, 77);
    assert_eq!(balances[1].account, "B");
    assert_eq!(balances[1].balance, "300");
    assert!(anomalies.is_empty());
    let supply = total_supply_of(&balances);
    assert_eq!(supply, "999");
}

#[test]
fn full_pass_deterministic() {
    let txs = vec![mk_mint(1, "A", 10), mk_transfer(2, "A", "B", 3, None)];
    let accounts = vec![record("A", vec![1, 2]), record("B", vec![2])];
    let (b1, a1) = balances_from_accounts(&accounts, &txs, 5);
    let (b2, a2) = balances_from_accounts(&accounts, &txs, 5);
    assert_eq!(b1.len(), b2.len());
    for (x, y) in b1.iter().zip(b2.iter()) {
        assert_eq!(x.account, y.account);
        assert_eq!(x.balance, y.balance);
    }
    assert_eq!(a1.len(), a2.len());
    assert_eq!(total_supply_of(&b1), total_supply_of(&b2));
}

#[test]
fn incremental_recompute_matches_full_pass() {
    let txs = vec![mk_mint(1, "A", 10), mk_transfer(2, "A", "B", 3, None)];
    let accounts = vec![record("A", vec![1, 2]), record("B", vec![2])];
    let (balances, _) = balances_from_accounts(&accounts, &txs, 5);
    // recompute account A alone, as the incremental pass does
    let selected = select_transactions(&txs, &accounts[0].transaction_indices);
    let (value, _) = calculate_account_balance("A", &selected, 5);
    assert_eq!(balances[0].balance, value.to_string());
}

#[test]
fn total_supply_sums_the_balance_column() {
    let balances = vec![
        BalanceRecord {
            account: "A".to_string(),
            balance: "340282366920938463463374607431768211455".to_string(), // u128::MAX
            last_updated: 0,
            last_tx_index: 0,
        },
        BalanceRecord {
            account: "B".to_string(),
            balance: "5".to_string(),
            last_updated: 0,
            last_tx_index: 0,
        },
        BalanceRecord {
            account: "C".to_string(),
            balance: "not a number".to_string(),
            last_updated: 0,
            last_tx_index: 0,
        },
    ];
    let supply = total_supply_of(&balances);
    assert_eq!(supply, "340282366920938463463374607431768211460");
    assert_eq!(total_supply_of(&Vec::new()), "0");
}

#[test]
fn insufficient_balance_pass_scenario() {
    let txs = vec![mk_transfer(1, "A", "B", 50, None)];
    let accounts = vec![record("A", vec![1]), record("B", vec![1])];
    let (balances, anomalies) = balances_from_accounts(&accounts, &txs, 9);
    assert_eq!(balances[0].balance, "0");
    assert_eq!(balances[1].balance, "50");
    assert_eq!(anomalies.len(), 1);
    assert_eq!(anomalies[0].account, "A");
    assert_eq!(total_supply_of(&balances), "50");
}

use ledger_indexer::sync::persist_and_link;
use ledger_indexer::engine::link_transaction;

#[test]
fn persisted_transactions_are_indexed_under_their_accounts() {
    let mut log = Vec::new();
    let mut records: Vec<AccountRecord> = Vec::new();
    let tx = mk_transfer(7, "A", "B", 5, None);
    persist_and_link(&mut log, &mut records, &tx);
    assert_eq!(log.len(), 1);
    assert_eq!(records.len(), 2);
    for rec in &records {
        assert!(rec.transaction_indices.contains(&7));
    }
    // persisting the same transaction again changes nothing
    persist_and_link(&mut log, &mut records, &tx);
    assert_eq!(log.len(), 1);
    assert_eq!(records.len(), 2);
    for rec in &records {
        assert_eq!(rec.transaction_indices.len(), 1);
    }
}

#[test]
fn linking_normalizes_account_keys() {
    let zero_sub = format!("X:0x{}", zeros64());
    let mut records: Vec<AccountRecord> = Vec::new();
    link_transaction(&mut records, &mk_mint(1, &zero_sub, 100));
    link_transaction(&mut records, &mk_mint(2, "X", 50));
    // both mints land under the one normalized key
    assert_eq!(records.len(), 1);
    assert_eq!(records[0].account, "X");
    assert!(records[0].transaction_indices.contains(&1));
    assert!(records[0].transaction_indices.contains(&2));
    // and the balance pass keys its single row by the normal form
    let txs = vec![mk_mint(1, &zero_sub, 100), mk_mint(2, "X", 50)];
    let (balances, _) = balances_from_accounts(&records, &txs, 3);
    assert_eq!(balances.len(), 1);
    assert_eq!(balances[0].account, "X");
    assert_eq!(balances[0].balance, "150");
}

use ledger_indexer::sync::{archive_step, ArchiveState, ArchiveAction};

#[test]
fn archive_cursor_advances_by_received_count() {
    // an archive hosting 0..=4999: the first batch returns fewer than asked
    let st = ArchiveState::begin(0, 4999);
    assert_eq!(st.batch_length(), 2000);
    let (st2, action) = archive_step(&st, Some(1500));
    assert_eq!(st2.cursor, 1500);
    assert!(matches!(action, ArchiveAction::Fetch { start: 1500, length: 2000 }));
    // a tail batch clips the requested length
    let st3 = ArchiveState::begin(4000, 4999);
    assert_eq!(st3.batch_length(), 1000);
    let (st4, action4) = archive_step(&st3, Some(1000));
    assert_eq!(st4.cursor, 5000);
    assert!(matches!(action4, ArchiveAction::Done));
}

#[test]
fn archive_abandoned_after_three_errors() {
    let mut st = ArchiveState::begin(0, 100000);
    let mut last = None;
    for _ in 0..3 {
        let (next, action) = archive_step(&st, None);
        assert!(next.cursor >= st.cursor);
        st = next;
        last = Some(action);
    }
    assert!(matches!(last, Some(ArchiveAction::Abandoned)));
}

use ledger_indexer::engine::affected_accounts;

#[test]
fn affected_accounts_union_over_batch() {
    let zero_sub = format!("A:0x{}", zeros64());
    let batch = vec![
        mk_transfer(1, &zero_sub, "B", 5, None),
        mk_mint(2, "A", 10),
        mk_mint(3, "C", 10),
    ];
    let mut affected = affected_accounts(&batch);
    affected.sort();
    assert_eq!(affected, vec!["A".to_string(), "B".to_string(), "C".to_string()]);
}
