//! Data model of the indexer: transactions with their kind-specific payloads,
//! per-account records, balances, anomalies, sync progress, configuration.
//!
//! Account fields hold the canonical account text; amounts are plain
//! integers and balances are decimal strings.

use vstd::prelude::*;

verus! {

/// A transfer payload. `spender` is set when a delegate moved the funds.
pub struct Transfer {
    pub to: String,
    pub from: String,
    pub amount: u64,
    pub fee: Option<u64>,
    pub created_at_time: Option<u64>,
    pub spender: Option<String>,
}

/// A mint payload: new supply credited to `to`.
pub struct Mint {
    pub to: String,
    pub amount: u64,
    pub created_at_time: Option<u64>,
}

/// A burn payload: supply destroyed from `from`.
pub struct Burn {
    pub from: String,
    pub amount: u64,
    pub created_at_time: Option<u64>,
    pub spender: Option<String>,
}

/// An approval payload: no balance effect beyond an optional fee.
pub struct Approve {
    pub from: String,
    pub spender: String,
    pub amount: u64,
    pub fee: Option<u64>,
    pub expected_allowance: Option<u64>,
    pub expires_at: Option<u64>,
    pub created_at_time: Option<u64>,
}

/// A ledger transaction. `kind` discriminates which payload applies;
/// `index` is its unique position in the global log. A transaction whose
/// `status` is present and neither `COMPLETED` nor `SUCCESS` is skipped by
/// balance replay.
pub struct Transaction {
    pub kind: String,
    pub timestamp: u64,
    pub transfer: Option<Transfer>,
    pub mint: Option<Mint>,
    pub burn: Option<Burn>,
    pub approve: Option<Approve>,
    pub index: u64,
    pub status: Option<String>,
}

fn clone_opt_string(s: &Option<String>) -> (r: Option<String>)
    ensures
        r == *s,
{
    match s {
        None => None,
        Some(x) => Some(x.clone()),
    }
}

impl Clone for Transfer {
    fn clone(&self) -> (r: Self)
        ensures
            r == *self,
    {
        Transfer {
            to: self.to.clone(),
            from: self.from.clone(),
            amount: self.amount,
            fee: self.fee,
            created_at_time: self.created_at_time,
            spender: clone_opt_string(&self.spender),
        }
    }
}

impl Clone for Mint {
    fn clone(&self) -> (r: Self)
        ensures
            r == *self,
    {
        Mint { to: self.to.clone(), amount: self.amount, created_at_time: self.created_at_time }
    }
}

impl Clone for Burn {
    fn clone(&self) -> (r: Self)
        ensures
            r == *self,
    {
        Burn {
            from: self.from.clone(),
            amount: self.amount,
            created_at_time: self.created_at_time,
            spender: clone_opt_string(&self.spender),
        }
    }
}

impl Clone for Approve {
    fn clone(&self) -> (r: Self)
        ensures
            r == *self,
    {
        Approve {
            from: self.from.clone(),
            spender: self.spender.clone(),
            amount: self.amount,
            fee: self.fee,
            expected_allowance: self.expected_allowance,
            expires_at: self.expires_at,
            created_at_time: self.created_at_time,
        }
    }
}

impl Clone for Transaction {
    fn clone(&self) -> (r: Self)
        ensures
            r == *self,
    {
        Transaction {
            kind: self.kind.clone(),
            timestamp: self.timestamp,
            transfer: match &self.transfer {
                None => None,
                Some(t) => Some(t.clone()),
            },
            mint: match &self.mint {
                None => None,
                Some(m) => Some(m.clone()),
            },
            burn: match &self.burn {
                None => None,
                Some(b) => Some(b.clone()),
            },
            approve: match &self.approve {
                None => None,
                Some(a) => Some(a.clone()),
            },
            index: self.index,
            status: clone_opt_string(&self.status),
        }
    }
}

/// The set of transaction indices that touch one account.
pub struct AccountRecord {
    pub account: String,
    pub transaction_indices: Vec<u64>,
}

impl Clone for AccountRecord {
    fn clone(&self) -> (r: Self)
        ensures
            r.account == self.account,
            r.transaction_indices@ == self.transaction_indices@,
    {
        let mut indices: Vec<u64> = Vec::new();
        let mut i: usize = 0;
        while i < self.transaction_indices.len()
            invariant
                0 <= i <= self.transaction_indices@.len(),
                indices@ == self.transaction_indices@.take(i as int),
            decreases self.transaction_indices@.len() - i,
        {
            indices.push(self.transaction_indices[i]);
            proof {
                assert(indices@ =~= self.transaction_indices@.take(i as int + 1));
            }
            i += 1;
        }
        proof {
            assert(self.transaction_indices@.take(i as int) =~= self.transaction_indices@);
        }
        AccountRecord { account: self.account.clone(), transaction_indices: indices }
    }
}

/// A derived balance row: the balance is a decimal string.
pub struct BalanceRecord {
    pub account: String,
    pub balance: String,
    pub last_updated: u64,
    pub last_tx_index: u64,
}

impl Clone for BalanceRecord {
    fn clone(&self) -> (r: Self)
        ensures
            r == *self,
    {
        BalanceRecord {
            account: self.account.clone(),
            balance: self.balance.clone(),
            last_updated: self.last_updated,
            last_tx_index: self.last_tx_index,
        }
    }
}

/// A recorded balance anomaly: a replay step that would have driven a
/// balance negative.
pub struct BalanceAnomaly {
    pub account: String,
    pub tx_index: u64,
    pub tx_type: String,
    pub anomaly_type: String,
    pub balance: String,
    pub amount: String,
    pub description: String,
    pub timestamp: i64,
}

impl Clone for BalanceAnomaly {
    fn clone(&self) -> (r: Self)
        ensures
            r == *self,
    {
        BalanceAnomaly {
            account: self.account.clone(),
            tx_index: self.tx_index,
            tx_type: self.tx_type.clone(),
            anomaly_type: self.anomaly_type.clone(),
            balance: self.balance.clone(),
            amount: self.amount.clone(),
            description: self.description.clone(),
            timestamp: self.timestamp,
        }
    }
}

/// Per-token sync progress. `sync_mode` is `full` or `incremental`.
pub struct SyncStatus {
    pub token: String,
    pub last_synced_index: u64,
    pub last_synced_timestamp: u64,
    pub last_balance_calculated_index: u64,
    pub updated_at: i64,
    pub sync_mode: String,
}

impl Clone for SyncStatus {
    fn clone(&self) -> (r: Self)
        ensures
            r == *self,
    {
        SyncStatus {
            token: self.token.clone(),
            last_synced_index: self.last_synced_index,
            last_synced_timestamp: self.last_synced_timestamp,
            last_balance_calculated_index: self.last_balance_calculated_index,
            updated_at: self.updated_at,
            sync_mode: self.sync_mode.clone(),
        }
    }
}

/// One configured token.
pub struct TokenConfig {
    pub symbol: String,
    pub name: String,
    pub canister_id: String,
    pub decimals: Option<u8>,
}

impl Clone for TokenConfig {
    fn clone(&self) -> (r: Self)
        ensures
            r == *self,
    {
        TokenConfig {
            symbol: self.symbol.clone(),
            name: self.name.clone(),
            canister_id: self.canister_id.clone(),
            decimals: self.decimals,
        }
    }
}

/// Logging configuration.
pub struct LogConfig {
    pub level: String,
    pub file: String,
    pub console_level: String,
    pub file_enabled: bool,
    pub max_size: u64,
    pub max_files: u32,
}

/// Read-only HTTP surface configuration.
pub struct ApiServerConfig {
    pub enabled: bool,
    pub port: u16,
    pub cors_enabled: bool,
}

/// Application configuration.
pub struct Config {
    pub mongodb_url: String,
    pub database: String,
    pub ic_url: String,
    pub tokens: Vec<TokenConfig>,
    pub log: Option<LogConfig>,
    pub api_server: Option<ApiServerConfig>,
}

/// Command-line arguments.
pub struct AppArgs {
    pub reset: bool,
}

/// Pagination and token-selection parameters of a query.
pub struct QueryParams {
    pub limit: Option<i64>,
    pub skip: Option<i64>,
    pub token: Option<String>,
}

/// Uniform query response envelope.
pub struct ApiResponse<T> {
    pub code: u16,
    pub data: Option<T>,
    pub error: Option<String>,
}

impl<T> ApiResponse<T> {
    /// A successful response carrying `data`.
    pub fn success(data: T) -> (r: Self)
        ensures
            r.code == 200,
            r.data == Some(data),
            r.error is None,
    {
        ApiResponse { code: 200, data: Some(data), error: None }
    }

    /// A failed response with a message.
    pub fn error(msg: &str) -> (r: Self)
        ensures
            r.code == 400,
            r.data is None,
            r.error matches Some(e) && e@ == msg@,
    {
        ApiResponse { code: 400, data: None, error: Some(msg.to_owned()) }
    }

    /// A failed response with a caller-chosen status code.
    pub fn error_with_code(code: u16, msg: &str) -> (r: Self)
        ensures
            r.code == code,
            r.data is None,
            r.error matches Some(e) && e@ == msg@,
    {
        ApiResponse { code, data: None, error: Some(msg.to_owned()) }
    }
}

} // verus!
