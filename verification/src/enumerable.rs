//! The paginated listings: accounts, and the allowances of one owner.

use crate::codec::{decode, encode};
use crate::host::{
    bound_view, canonical_form, entry_keys, grant_prefix, next_grant, next_key, open_grants,
    open_keys, raw_keys, spenders, stored_grants, stored_keys, upcoming_grants, upcoming_keys,
};
use crate::model::{
    account_outcomes, accounts_page, allowance_outcome, allowance_outcomes, allowances_page,
    effective_limit, gather, lemma_gather_next, page_keys, range_start, start_bound, ALLOWANCES,
    BALANCES, DEFAULT_LIMIT, MAX_LIMIT, MAX_OWNER_KEY,
};
use crate::order::{has_listing, lemma_listing_is_unique};
use crate::prefix::{owner_prefix, prefix_is_sound, prefix_scans_cleanly};
use crate::types::{
    allowance_info, allowance_views, name_views, AllAccountsResponse, AllAllowancesResponse,
    AllowanceInfo, AllowanceView, ErrorKind, QueryError,
};
use cosmwasm_std::Deps;
use vstd::prelude::*;

verus! {

/// Mathematical value of an optional text.
pub open spec fn text_view(text: Option<String>) -> Option<Seq<char>> {
    match text {
        Some(s) => Some(s@),
        None => None,
    }
}

/// The page size to serve a request with.
pub fn clamp_limit(limit: Option<u32>) -> (n: usize)
    ensures
        n == effective_limit(limit),
{
    let asked: u32 = match limit {
        Some(n) => n,
        None => DEFAULT_LIMIT,
    };
    if asked <= MAX_LIMIT {
        asked as usize
    } else {
        MAX_LIMIT as usize
    }
}

/// Turns the canonical key of a cursor into the exclusive lower bound of the
/// scan that resumes after it.
pub fn exclusive_start(encoded: Option<Vec<u8>>) -> (start: Option<Vec<u8>>)
    ensures
        bound_view(start) == range_start(bound_view(encoded)),
{
    match encoded {
        Some(key) => {
            let mut bound = key;
            bound.push(0u8);
            Some(bound)
        },
        None => None,
    }
}

/// The exclusive lower bound for a scan that resumes after the cursor
/// `start_after`; no bound where there is no cursor. Fails where the host's
/// codec rejects the cursor.
pub fn calc_range_start_human(deps: Deps, start_after: Option<String>) -> (r: Result<
    Option<Vec<u8>>,
    QueryError,
>)
    ensures
        match start_bound(deps, text_view(start_after)) {
            Ok(start) => r matches Ok(bound) && bound_view(bound) == start,
            Err(e) => r matches Err(err) && err.kind == e,
        },
{
    match start_after {
        Some(human) => match encode(deps, human.as_str()) {
            Ok(key) => Ok(exclusive_start(Some(key))),
            Err(e) => Err(e),
        },
        None => Ok(None),
    }
}

/// Lists the allowances that `owner` has granted, in ascending order of the
/// spender's key, from the entry after the cursor `start_after` on, up to the
/// effective limit.
///
/// Fails with `InvalidIdentifier` where the codec rejects the owner or the
/// cursor, where the owner's key is too long to prefix a key, or where the
/// first entry of the page that cannot be listed has a spender key without a
/// human form; with `StoreRead` where a raw key of the store strays into the
/// range of the owner's prefix, or where that entry's stored value does not
/// parse. Entries past the page are never read.
pub fn query_all_allowances(
    deps: Deps,
    owner: String,
    start_after: Option<String>,
    limit: Option<u32>,
) -> (r: Result<AllAllowancesResponse, QueryError>)
    ensures
        match allowances_page(deps, owner@, text_view(start_after), limit) {
            Ok(entries) => r matches Ok(page) && page@ == entries,
            Err(e) => r matches Err(err) && err.kind == e,
        },
        canonical_form(deps, owner@) matches Some(owner_key) ==> (start_bound(
            deps,
            text_view(start_after),
        ) matches Ok(start) ==> (owner_key.len() <= MAX_OWNER_KEY && prefix_is_sound(
            raw_keys(deps),
            owner_prefix(ALLOWANCES@, owner_key),
        ) ==> has_listing(spenders(stored_grants(deps, ALLOWANCES@), owner_key), start))),
{
    let owner_key = match encode(deps, owner.as_str()) {
        Ok(key) => key,
        Err(e) => {
            return Err(e);
        },
    };
    let page_size = clamp_limit(limit);
    let start = match calc_range_start_human(deps, start_after) {
        Ok(bound) => bound,
        Err(e) => {
            return Err(e);
        },
    };
    if owner_key.len() > MAX_OWNER_KEY {
        return Err(QueryError { kind: ErrorKind::InvalidIdentifier, cause: None });
    }
    proof {
        reveal_strlit("allowance");
    }
    let prefix = grant_prefix(ALLOWANCES, &owner_key);
    if !prefix_scans_cleanly(deps, &prefix) {
        return Err(QueryError { kind: ErrorKind::StoreRead, cause: None });
    }
    let ghost grants = stored_grants(deps, ALLOWANCES@);
    let ghost bound = bound_view(start);
    let mut scan = open_grants(deps, ALLOWANCES, &owner_key, start);
    let ghost rest = upcoming_grants(scan);
    let ghost outcomes = allowance_outcomes(deps, grants, owner_key@, entry_keys(rest));
    let ghost wanted = allowance_outcomes(
        deps,
        grants,
        owner_key@,
        page_keys(spenders(grants, owner_key@), bound, page_size as nat),
    );
    proof {
        lemma_listing_is_unique(entry_keys(rest), spenders(grants, owner_key@), bound);
        let n = if page_size <= rest.len() {
            page_size as int
        } else {
            rest.len() as int
        };
        assert(wanted =~= outcomes.take(n));
        assert(outcomes.take(0) =~= Seq::empty());
        assert(allowance_views(Seq::<AllowanceInfo>::empty()) =~= Seq::empty());
    }
    let ghost goal = allowances_page(deps, owner@, text_view(start_after), limit);
    assert(goal == gather(wanted));
    let mut allowances: Vec<AllowanceInfo> = Vec::new();
    let mut taken: usize = 0;
    loop
        invariant_except_break
            upcoming_grants(scan) == rest.skip(taken as int),
        invariant
            goal == allowances_page(deps, owner@, text_view(start_after), limit),
            canonical_form(deps, owner@) == Some(owner_key@),
            start_bound(deps, text_view(start_after)) == Ok::<Option<Seq<u8>>, ErrorKind>(bound),
            has_listing(spenders(stored_grants(deps, ALLOWANCES@), owner_key@), bound),
            goal == gather(wanted),
            taken <= page_size,
            taken <= rest.len(),
            outcomes.len() == rest.len(),
            forall|i: int|
                0 <= i < rest.len() ==> outcomes[i] == allowance_outcome(
                    deps,
                    (#[trigger] rest[i]).0,
                    rest[i].1,
                ),
            wanted == outcomes.take(
                if page_size <= rest.len() {
                    page_size as int
                } else {
                    rest.len() as int
                },
            ),
            gather(outcomes.take(taken as int)) == Ok::<Seq<AllowanceView>, ErrorKind>(
                allowance_views(allowances@),
            ),
        ensures
            taken == page_size || taken == rest.len(),
        decreases page_size - taken,
    {
        if taken >= page_size {
            break ;
        }
        let entry = match next_grant(&mut scan) {
            Some(entry) => entry,
            None => {
                break ;
            },
        };
        proof {
            assert(rest.skip(taken as int)[0] == rest[taken as int]);
            assert(rest.skip(taken as int).drop_first() =~= rest.skip(taken as int + 1));
            lemma_gather_next(outcomes, wanted, taken as int);
        }
        let (key, grant) = match entry {
            Ok(pair) => pair,
            Err(cause) => {
                return Err(QueryError { kind: ErrorKind::StoreRead, cause: Some(cause) });
            },
        };
        let spender = match decode(deps, key) {
            Ok(human) => human,
            Err(e) => {
                return Err(e);
            },
        };
        let ghost before = allowance_views(allowances@);
        let info = allowance_info(spender, grant);
        allowances.push(info);
        taken += 1;
        proof {
            assert(allowance_views(allowances@) =~= before.push(info@));
        }
    }
    proof {
        assert(wanted =~= outcomes.take(taken as int));
    }
    Ok(AllAllowancesResponse { allowances })
}

/// Lists the account holders in ascending order of their key, from the entry
/// after the cursor `start_after` on, up to the effective limit.
///
/// Fails with `InvalidIdentifier` where the codec rejects the cursor, or
/// where a key of the page has no human form. Keys past the page are never
/// read.
pub fn query_all_accounts(deps: Deps, start_after: Option<String>, limit: Option<u32>) -> (r:
    Result<AllAccountsResponse, QueryError>)
    ensures
        match accounts_page(deps, text_view(start_after), limit) {
            Ok(names) => r matches Ok(page) && page@ == names,
            Err(e) => r matches Err(err) && err.kind == e,
        },
        start_bound(deps, text_view(start_after)) matches Ok(start) ==> has_listing(
            stored_keys(deps, BALANCES@),
            start,
        ),
{
    let page_size = clamp_limit(limit);
    let start = match calc_range_start_human(deps, start_after) {
        Ok(bound) => bound,
        Err(e) => {
            return Err(e);
        },
    };
    proof {
        reveal_strlit("balance");
    }
    let ghost keys = stored_keys(deps, BALANCES@);
    let ghost bound = bound_view(start);
    let mut scan = open_keys(deps, BALANCES, start);
    let ghost rest = upcoming_keys(scan);
    let ghost outcomes = account_outcomes(deps, rest);
    let ghost wanted = account_outcomes(deps, page_keys(keys, bound, page_size as nat));
    proof {
        lemma_listing_is_unique(rest, keys, bound);
        let n = if page_size <= rest.len() {
            page_size as int
        } else {
            rest.len() as int
        };
        assert(wanted =~= outcomes.take(n));
        assert(outcomes.take(0) =~= Seq::empty());
        assert(name_views(Seq::<String>::empty()) =~= Seq::empty());
    }
    let ghost goal = accounts_page(deps, text_view(start_after), limit);
    assert(goal == gather(wanted));
    let mut accounts: Vec<String> = Vec::new();
    let mut taken: usize = 0;
    loop
        invariant_except_break
            upcoming_keys(scan) == rest.skip(taken as int),
        invariant
            goal == accounts_page(deps, text_view(start_after), limit),
            start_bound(deps, text_view(start_after)) == Ok::<Option<Seq<u8>>, ErrorKind>(bound),
            has_listing(stored_keys(deps, BALANCES@), bound),
            goal == gather(wanted),
            taken <= page_size,
            taken <= rest.len(),
            outcomes == account_outcomes(deps, rest),
            wanted == outcomes.take(
                if page_size <= rest.len() {
                    page_size as int
                } else {
                    rest.len() as int
                },
            ),
            gather(outcomes.take(taken as int)) == Ok::<Seq<Seq<char>>, ErrorKind>(
                name_views(accounts@),
            ),
        ensures
            taken == page_size || taken == rest.len(),
        decreases page_size - taken,
    {
        if taken >= page_size {
            break ;
        }
        let key = match next_key(&mut scan) {
            Some(key) => key,
            None => {
                break ;
            },
        };
        proof {
            assert(rest.skip(taken as int)[0] == rest[taken as int]);
            assert(rest.skip(taken as int).drop_first() =~= rest.skip(taken as int + 1));
            lemma_gather_next(outcomes, wanted, taken as int);
        }
        let name = match decode(deps, key) {
            Ok(human) => human,
            Err(e) => {
                return Err(e);
            },
        };
        let ghost before = name_views(accounts@);
        let ghost added = name@;
        accounts.push(name);
        taken += 1;
        proof {
            assert(name_views(accounts@) =~= before.push(added));
        }
    }
    proof {
        assert(wanted =~= outcomes.take(taken as int));
    }
    Ok(AllAccountsResponse { accounts })
}

} // verus!
