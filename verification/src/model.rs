//! What a page is: the mathematical description that the listing functions
//! are verified against.

use crate::codec::{decoding, encoding};
use crate::host::{raw_keys, spenders, stored_grants, stored_keys};
use crate::order::listing;
use crate::prefix::{owner_prefix, prefix_is_sound};
use crate::types::{AllowanceView, Grant, ErrorKind};
use cosmwasm_std::Deps;
use vstd::prelude::*;

verus! {

/// Page size served when the caller names none.
pub const DEFAULT_LIMIT: u32 = 10;

/// Largest page size ever served; a larger request is cut down to it.
pub const MAX_LIMIT: u32 = 30;

/// Namespace of the map from account key to balance.
pub const BALANCES: &'static str = "balance";

/// Namespace of the map from (owner key, spender key) to allowance.
pub const ALLOWANCES: &'static str = "allowance";

/// The page size that a request is served with: the requested one, or the
/// default where none is given, cut down to the maximum. A request for zero
/// entries is served as asked, with an empty page.
pub open spec fn effective_limit(limit: Option<u32>) -> nat {
    let asked = match limit {
        Some(n) => n,
        None => DEFAULT_LIMIT,
    };
    if asked <= MAX_LIMIT {
        asked as nat
    } else {
        MAX_LIMIT as nat
    }
}

/// The exclusive lower bound that resumes a scan after the entry with the
/// canonical key `encoded`: that key with one zero byte appended. `None`, a
/// scan from the first key on, where there is no cursor.
pub open spec fn range_start(encoded: Option<Seq<u8>>) -> Option<Seq<u8>> {
    match encoded {
        Some(key) => Some(key.push(0u8)),
        None => None,
    }
}

/// The bound for the cursor `start_after` given in human-readable form, or
/// the error where the codec behind `deps` rejects it.
pub open spec fn start_bound(deps: Deps, start_after: Option<Seq<char>>) -> Result<
    Option<Seq<u8>>,
    ErrorKind,
> {
    match start_after {
        None => Ok(None),
        Some(human) => match encoding(deps, human) {
            Ok(key) => Ok(range_start(Some(key))),
            Err(e) => Err(e),
        },
    }
}

/// The keys of one page: the first `limit` members of `keys` beyond `start`
/// in ascending order, or all of them where fewer are left.
pub open spec fn page_keys(keys: Set<Seq<u8>>, start: Option<Seq<u8>>, limit: nat) -> Seq<
    Seq<u8>,
> {
    let rest = listing(keys, start);
    if limit <= rest.len() {
        rest.take(limit as int)
    } else {
        rest
    }
}

/// All values where every outcome is a value; else the first error.
pub open spec fn gather<T>(outcomes: Seq<Result<T, ErrorKind>>) -> Result<Seq<T>, ErrorKind>
    decreases outcomes.len(),
{
    if outcomes.len() == 0 {
        Ok(Seq::empty())
    } else {
        match gather(outcomes.drop_last()) {
            Err(e) => Err(e),
            Ok(values) => match outcomes.last() {
                Ok(value) => Ok(values.push(value)),
                Err(e) => Err(e),
            },
        }
    }
}

/// What listing the account with key `key` comes to: its human-readable
/// form, or the error where the codec has none for it.
pub open spec fn account_outcome(deps: Deps, key: Seq<u8>) -> Result<Seq<char>, ErrorKind> {
    decoding(deps, key)
}

/// What listing the allowance stored under the spender key `key` comes to.
/// An unreadable grant fails before the key is looked at.
pub open spec fn allowance_outcome(deps: Deps, key: Seq<u8>, grant: Option<Grant>) -> Result<
    AllowanceView,
    ErrorKind,
> {
    match grant {
        None => Err(ErrorKind::StoreRead),
        Some(g) => match decoding(deps, key) {
            Ok(human) => Ok(
                AllowanceView { spender: human, allowance: g.allowance, expires: g.expires },
            ),
            Err(e) => Err(e),
        },
    }
}

/// What listing each of the accounts with the keys `keys` comes to.
pub open spec fn account_outcomes(deps: Deps, keys: Seq<Seq<u8>>) -> Seq<
    Result<Seq<char>, ErrorKind>,
> {
    keys.map_values(|key: Seq<u8>| account_outcome(deps, key))
}

/// What listing each of the allowances that `grants` holds for `owner` under
/// the spender keys `keys` comes to.
pub open spec fn allowance_outcomes(
    deps: Deps,
    grants: Map<(Seq<u8>, Seq<u8>), Option<Grant>>,
    owner: Seq<u8>,
    keys: Seq<Seq<u8>>,
) -> Seq<Result<AllowanceView, ErrorKind>> {
    keys.map_values(|key: Seq<u8>| allowance_outcome(deps, key, grants[(owner, key)]))
}

/// The page of account holders that follows the cursor `start_after`.
pub open spec fn accounts_page(deps: Deps, start_after: Option<Seq<char>>, limit: Option<u32>)
    -> Result<Seq<Seq<char>>, ErrorKind> {
    match start_bound(deps, start_after) {
        Err(e) => Err(e),
        Ok(start) => gather(
            account_outcomes(
                deps,
                page_keys(stored_keys(deps, BALANCES@), start, effective_limit(limit)),
            ),
        ),
    }
}

/// The page of the allowances that `grants` holds for the owner with key
/// `owner`, from the bound `start` on.
pub open spec fn allowances_under(
    deps: Deps,
    grants: Map<(Seq<u8>, Seq<u8>), Option<Grant>>,
    owner: Seq<u8>,
    start: Option<Seq<u8>>,
    limit: nat,
) -> Result<Seq<AllowanceView>, ErrorKind> {
    let keys = page_keys(spenders(grants, owner), start, limit);
    gather(allowance_outcomes(deps, grants, owner, keys))
}

/// Longest owner key that can prefix a composite key: the length has to fit
/// two bytes.
pub const MAX_OWNER_KEY: usize = 0xFFFF;

/// The page of the allowances of `owner`, given in human-readable form, that
/// follows the cursor `start_after`. An owner whose key is too long to prefix
/// a key is an invalid identifier; a store with a raw key that strays into
/// the range of the owner's prefix cannot be read.
pub open spec fn allowances_page(
    deps: Deps,
    owner: Seq<char>,
    start_after: Option<Seq<char>>,
    limit: Option<u32>,
) -> Result<Seq<AllowanceView>, ErrorKind> {
    match encoding(deps, owner) {
        Err(e) => Err(e),
        Ok(owner_key) => match start_bound(deps, start_after) {
            Err(e) => Err(e),
            Ok(start) => if owner_key.len() > MAX_OWNER_KEY {
                Err(ErrorKind::InvalidIdentifier)
            } else if !prefix_is_sound(raw_keys(deps), owner_prefix(ALLOWANCES@, owner_key)) {
                Err(ErrorKind::StoreRead)
            } else {
                allowances_under(
                    deps,
                    stored_grants(deps, ALLOWANCES@),
                    owner_key,
                    start,
                    effective_limit(limit),
                )
            },
        },
    }
}

/// Folding one more outcome into a gathered run.
pub proof fn lemma_gather_push<T>(outcomes: Seq<Result<T, ErrorKind>>, next: Result<T, ErrorKind>)
    ensures
        gather(outcomes.push(next)) == match gather(outcomes) {
            Err(e) => Err(e),
            Ok(values) => match next {
                Ok(value) => Ok(values.push(value)),
                Err(e) => Err(e),
            },
        },
{
    assert(outcomes.push(next).drop_last() =~= outcomes);
}

/// Once a run of outcomes has failed, what follows does not change the
/// error: the first failure decides.
pub proof fn lemma_gather_first_error<T>(outcomes: Seq<Result<T, ErrorKind>>, n: int)
    requires
        0 <= n <= outcomes.len(),
        gather(outcomes.take(n)) is Err,
    ensures
        gather(outcomes) == gather(outcomes.take(n)),
    decreases outcomes.len(),
{
    if n == outcomes.len() {
        assert(outcomes.take(n) =~= outcomes);
    } else {
        assert(outcomes.drop_last().take(n) =~= outcomes.take(n));
        lemma_gather_first_error(outcomes.drop_last(), n);
    }
}

/// Taking one more outcome into a page that has gathered well so far: a
/// value joins those gathered, an error is what the whole page comes to.
pub proof fn lemma_gather_next<T>(
    outcomes: Seq<Result<T, ErrorKind>>,
    page: Seq<Result<T, ErrorKind>>,
    taken: int,
)
    requires
        0 <= taken < page.len() <= outcomes.len(),
        page == outcomes.take(page.len() as int),
        gather(outcomes.take(taken)) is Ok,
    ensures
        match outcomes[taken] {
            Ok(value) => gather(outcomes.take(taken + 1)) == Ok::<Seq<T>, ErrorKind>(
                gather(outcomes.take(taken))->Ok_0.push(value),
            ),
            Err(e) => gather(page) == Err::<Seq<T>, ErrorKind>(e),
        },
{
    assert(outcomes.take(taken + 1) =~= outcomes.take(taken).push(outcomes[taken]));
    lemma_gather_push(outcomes.take(taken), outcomes[taken]);
    assert(page.take(taken + 1) =~= outcomes.take(taken + 1));
    if outcomes[taken] is Err {
        lemma_gather_first_error(page, taken + 1);
    }
}

/// A run gathers to values exactly where every outcome is a value, and then
/// to those values in the same order.
pub proof fn lemma_gather_ok<T>(outcomes: Seq<Result<T, ErrorKind>>)
    ensures
        gather(outcomes) matches Ok(values) ==> {
            &&& values.len() == outcomes.len()
            &&& forall|i: int|
                0 <= i < outcomes.len() ==> outcomes[i] == Ok::<T, ErrorKind>(values[i])
        },
        (forall|i: int| 0 <= i < outcomes.len() ==> (#[trigger] outcomes[i]) is Ok) ==> gather(
            outcomes,
        ) is Ok,
    decreases outcomes.len(),
{
    if outcomes.len() > 0 {
        let head = outcomes.drop_last();
        lemma_gather_ok(head);
        if let Ok(values) = gather(outcomes) {
            let earlier = gather(head)->Ok_0;
            assert forall|i: int| 0 <= i < outcomes.len() implies outcomes[i] == Ok::<
                T,
                ErrorKind,
            >(values[i]) by {
                if i < head.len() {
                    assert(head[i] == outcomes[i]);
                    assert(values[i] == earlier[i]);
                }
            }
        }
        if forall|i: int| 0 <= i < outcomes.len() ==> (#[trigger] outcomes[i]) is Ok {
            assert forall|i: int| 0 <= i < outcomes.drop_last().len() implies (
            #[trigger] outcomes.drop_last()[i]) is Ok by {
                assert(outcomes[i] is Ok);
            }
            assert(outcomes.last() is Ok);
        }
    }
}

} // verus!
