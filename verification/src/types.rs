//! The values that the listings hand out, and the one error type.

use cosmwasm_std::StdError;
use vstd::prelude::*;

verus! {

/// The kinds of failure of a listing.
#[derive(Debug, Clone, Copy, PartialEq, Eq)]
pub enum ErrorKind {
    /// An identifier supplied by the caller has no canonical form (or, for an
    /// owner, one too long to prefix a key), or a stored key has no human
    /// form.
    InvalidIdentifier,
    /// The store cannot be scanned under the owner's prefix, or a stored
    /// entry could not be read back as the value it should hold.
    StoreRead,
}

/// Why a listing could not be produced: the kind of failure, and the host's
/// own error where the failure came from the host.
#[derive(Debug, PartialEq)]
pub struct QueryError {
    pub kind: ErrorKind,
    pub cause: Option<StdError>,
}

/// The point at which an allowance lapses.
#[derive(Debug, Clone, Copy, PartialEq, Eq)]
pub enum Expiration {
    /// Lapses once the chain reaches this block height.
    AtHeight(u64),
    /// Lapses once the block time reaches this many nanoseconds since the
    /// epoch.
    AtTime(u64),
    /// Never lapses.
    Never,
}

/// What the store holds for one (owner, spender) pair.
#[derive(Debug, Clone, Copy, PartialEq, Eq)]
pub struct Grant {
    pub allowance: u128,
    pub expires: Expiration,
}

/// One allowance of an owner, with the spender in human-readable form.
#[derive(Debug, Clone, PartialEq, Eq)]
pub struct AllowanceInfo {
    pub spender: String,
    pub allowance: u128,
    pub expires: Expiration,
}

/// Mathematical value of an [`AllowanceInfo`].
pub struct AllowanceView {
    pub spender: Seq<char>,
    pub allowance: u128,
    pub expires: Expiration,
}

impl View for AllowanceInfo {
    type V = AllowanceView;

    open spec fn view(&self) -> AllowanceView {
        AllowanceView { spender: self.spender@, allowance: self.allowance, expires: self.expires }
    }
}

/// Mathematical value of a run of allowances.
pub open spec fn allowance_views(infos: Seq<AllowanceInfo>) -> Seq<AllowanceView> {
    infos.map_values(|info: AllowanceInfo| info@)
}

/// Mathematical value of a run of names.
pub open spec fn name_views(names: Seq<String>) -> Seq<Seq<char>> {
    names.map_values(|name: String| name@)
}

/// One page of an owner's allowances, in ascending order of spender key.
#[derive(Debug, Clone, PartialEq, Eq)]
pub struct AllAllowancesResponse {
    pub allowances: Vec<AllowanceInfo>,
}

impl View for AllAllowancesResponse {
    type V = Seq<AllowanceView>;

    open spec fn view(&self) -> Seq<AllowanceView> {
        allowance_views(self.allowances@)
    }
}

/// One page of account holders, in ascending order of account key.
#[derive(Debug, Clone, PartialEq, Eq)]
pub struct AllAccountsResponse {
    pub accounts: Vec<String>,
}

impl View for AllAccountsResponse {
    type V = Seq<Seq<char>>;

    open spec fn view(&self) -> Seq<Seq<char>> {
        name_views(self.accounts@)
    }
}

/// Builds the listed form of a stored grant once the spender's key has been
/// turned back into its human-readable form.
pub fn allowance_info(spender: String, grant: Grant) -> (info: AllowanceInfo)
    ensures
        info@ == (AllowanceView {
            spender: spender@,
            allowance: grant.allowance,
            expires: grant.expires,
        }),
{
    AllowanceInfo { spender, allowance: grant.allowance, expires: grant.expires }
}

} // verus!
