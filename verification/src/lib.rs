//! Paginated listing of token holders and of an owner's allowances, read from
//! a CosmWasm key-value store in ascending key order.
//!
//! The store and the address codec belong to the host; this crate bounds the
//! scan, walks it, and projects each entry, and states what every page holds.

pub mod codec;
pub mod enumerable;
pub mod host;
pub mod laws;
pub mod model;
pub mod order;
pub mod prefix;
pub mod types;

pub use codec::{decode, encode};
pub use enumerable::{
    calc_range_start_human, clamp_limit, exclusive_start, query_all_accounts,
    query_all_allowances,
};
pub use model::{ALLOWANCES, BALANCES, DEFAULT_LIMIT, MAX_LIMIT, MAX_OWNER_KEY};
pub use prefix::prefix_scans_cleanly;
pub use types::{
    allowance_info, AllAccountsResponse, AllAllowancesResponse, AllowanceInfo, ErrorKind,
    Expiration, Grant, QueryError,
};
