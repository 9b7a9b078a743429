//! What holds of every page and of every walk through the pages, proved from
//! the description of a page in `model` and the order in `order`.

use crate::codec::encoding;
use crate::host::{
    canonical_form, human_form, raw_keys, spenders, stored_grants, stored_keys,
};
use crate::model::{
    account_outcomes, accounts_page, allowance_outcome, allowance_outcomes, allowances_page,
    allowances_under, effective_limit, gather, lemma_gather_ok, page_keys, range_start,
    start_bound, ALLOWANCES, BALANCES, MAX_LIMIT, MAX_OWNER_KEY,
};
use crate::order::{
    ascending, beyond, has_listing, lemma_ascending_is_duplicate_free,
    lemma_key_not_beyond_its_extension, lemma_listing_is_unique, lemma_precedes_asymmetric,
    lemma_precedes_irreflexive, lemma_precedes_transitive, lemma_precedes_zero_extension,
    lemma_zero_extension_is_next, listing, lists, precedes,
};
use crate::prefix::{owner_prefix, prefix_is_sound};
use crate::types::{AllowanceView, ErrorKind, Grant};
use cosmwasm_std::Deps;
use vstd::prelude::*;

verus! {

/// No key is another key with a zero byte appended. Keys of one fixed length
/// are such a set.
pub open spec fn zero_extension_free(keys: Set<Seq<u8>>) -> bool {
    forall|k: Seq<u8>| keys.contains(k) ==> !keys.contains(#[trigger] k.push(0u8))
}

/// Keys that all have the same length never extend one another.
pub proof fn law_fixed_length_keys_are_zero_extension_free(keys: Set<Seq<u8>>, length: nat)
    requires
        forall|k: Seq<u8>| keys.contains(k) ==> k.len() == length,
    ensures
        zero_extension_free(keys),
{
    assert forall|k: Seq<u8>| keys.contains(k) implies !keys.contains(#[trigger] k.push(0u8)) by {
        assert(k.push(0u8).len() == k.len() + 1);
    }
}

/// The size of a page: the limit, or what is left where that is less.
pub proof fn law_page_length(keys: Set<Seq<u8>>, start: Option<Seq<u8>>, limit: nat)
    ensures
        page_keys(keys, start, limit).len() == if limit <= listing(keys, start).len() {
            limit
        } else {
            listing(keys, start).len()
        },
        page_keys(keys, start, limit).len() <= limit,
{
}

/// Within a page, keys stand in byte order: of two keys of the page, the one
/// that precedes the other comes first.
pub proof fn law_page_follows_key_order(
    keys: Set<Seq<u8>>,
    start: Option<Seq<u8>>,
    limit: nat,
    i: int,
    j: int,
)
    requires
        has_listing(keys, start),
        0 <= i < page_keys(keys, start, limit).len(),
        0 <= j < page_keys(keys, start, limit).len(),
        precedes(page_keys(keys, start, limit)[i], page_keys(keys, start, limit)[j]),
    ensures
        i < j,
{
    let rest = listing(keys, start);
    let page = page_keys(keys, start, limit);
    assert(page[i] == rest[i] && page[j] == rest[j]);
    if j < i {
        assert(precedes(rest[j], rest[i]));
        lemma_precedes_asymmetric(rest[j], rest[i]);
    } else if i == j {
        lemma_precedes_irreflexive(rest[i]);
    }
}

/// Every key of a page is a stored key beyond the bound, and no key occurs
/// twice.
pub proof fn law_page_members(keys: Set<Seq<u8>>, start: Option<Seq<u8>>, limit: nat)
    requires
        has_listing(keys, start),
    ensures
        page_keys(keys, start, limit).no_duplicates(),
        ascending(page_keys(keys, start, limit)),
        forall|i: int|
            0 <= i < page_keys(keys, start, limit).len() ==> {
                &&& keys.contains(#[trigger] page_keys(keys, start, limit)[i])
                &&& beyond(start, page_keys(keys, start, limit)[i])
            },
{
    let rest = listing(keys, start);
    let page = page_keys(keys, start, limit);
    assert forall|i: int, j: int| 0 <= i < j < page.len() implies precedes(
        #[trigger] page[i],
        #[trigger] page[j],
    ) by {
        assert(precedes(rest[i], rest[j]));
    }
    lemma_ascending_is_duplicate_free(page);
    assert forall|i: int| 0 <= i < page.len() implies keys.contains(#[trigger] page[i]) && beyond(
        start,
        page[i],
    ) by {
        assert(page[i] == rest[i]);
        assert(rest.contains(rest[i]));
    }
}

/// A page that resumes after a cursor never holds the cursor's own key.
pub proof fn law_page_excludes_cursor(keys: Set<Seq<u8>>, cursor: Seq<u8>, limit: nat)
    requires
        has_listing(keys, range_start(Some(cursor))),
    ensures
        !page_keys(keys, range_start(Some(cursor)), limit).contains(cursor),
{
    let start = range_start(Some(cursor));
    let page = page_keys(keys, start, limit);
    law_page_members(keys, start, limit);
    lemma_key_not_beyond_its_extension(cursor);
    if page.contains(cursor) {
        let i = choose|i: int| 0 <= i < page.len() && page[i] == cursor;
        assert(beyond(start, page[i]));
    }
}

/// Where `all` lists the whole key set, what follows its entry `p` is the
/// listing beyond that entry's cursor bound, provided no key is the zero
/// extension of another.
pub proof fn lemma_listing_resumes(all: Seq<Seq<u8>>, keys: Set<Seq<u8>>, p: int)
    requires
        lists(all, keys, None),
        zero_extension_free(keys),
        0 <= p < all.len(),
    ensures
        lists(all.skip(p + 1), keys, range_start(Some(all[p]))),
        listing(keys, range_start(Some(all[p]))) == all.skip(p + 1),
{
    let cursor = all[p];
    let bound = cursor.push(0u8);
    let rest = all.skip(p + 1);
    assert(all.contains(cursor));
    assert forall|i: int, j: int| 0 <= i < j < rest.len() implies precedes(
        #[trigger] rest[i],
        #[trigger] rest[j],
    ) by {
        assert(precedes(all[p + 1 + i], all[p + 1 + j]));
    }
    assert forall|k: Seq<u8>| #[trigger] rest.contains(k) <==> keys.contains(k) && precedes(
        bound,
        k,
    ) by {
        if rest.contains(k) {
            let i = choose|i: int| 0 <= i < rest.len() && rest[i] == k;
            assert(all[p + 1 + i] == k);
            assert(all.contains(k));
            assert(precedes(all[p], all[p + 1 + i]));
            lemma_zero_extension_is_next(cursor, k);
        }
        if keys.contains(k) && precedes(bound, k) {
            assert(all.contains(k));
            let j = choose|j: int| 0 <= j < all.len() && all[j] == k;
            lemma_precedes_zero_extension(cursor);
            if j == p {
                lemma_key_not_beyond_its_extension(cursor);
            } else if j < p {
                assert(precedes(all[j], all[p]));
                lemma_precedes_transitive(cursor, bound, k);
                lemma_precedes_asymmetric(cursor, k);
            } else {
                assert(rest[j - p - 1] == k);
            }
        }
    }
    lemma_listing_is_unique(rest, keys, range_start(Some(cursor)));
}

/// The keys gathered by asking for page after page, each time with the last
/// key of the page before as the cursor, until a page comes back short of the
/// limit or `rounds` further pages have been asked for.
pub open spec fn walk_keys(keys: Set<Seq<u8>>, cursor: Option<Seq<u8>>, limit: nat, rounds: nat)
    -> Seq<Seq<u8>>
    decreases rounds,
{
    let page = page_keys(keys, range_start(cursor), limit);
    if page.len() < limit || rounds == 0 {
        page
    } else {
        page + walk_keys(keys, Some(page.last()), limit, (rounds - 1) as nat)
    }
}

/// A walk that has consumed the first `p` keys of the listing `all` gathers
/// all the others.
proof fn lemma_walk_keys_from(
    all: Seq<Seq<u8>>,
    keys: Set<Seq<u8>>,
    p: int,
    limit: nat,
    rounds: nat,
)
    requires
        lists(all, keys, None),
        zero_extension_free(keys),
        limit >= 1,
        0 <= p <= all.len(),
        rounds >= all.len() - p,
    ensures
        walk_keys(
            keys,
            if p == 0 {
                None
            } else {
                Some(all[p - 1])
            },
            limit,
            rounds,
        ) == all.skip(p),
    decreases rounds,
{
    let cursor = if p == 0 {
        None
    } else {
        Some(all[p - 1])
    };
    if p == 0 {
        lemma_listing_is_unique(all, keys, None);
        assert(all.skip(0) =~= all);
    } else {
        lemma_listing_resumes(all, keys, p - 1);
    }
    let rest = all.skip(p);
    assert(listing(keys, range_start(cursor)) == rest);
    let page = page_keys(keys, range_start(cursor), limit);
    if page.len() < limit || rounds == 0 {
        assert(page =~= rest);
    } else {
        let q = p + limit;
        assert(page.last() == all[q - 1]);
        lemma_walk_keys_from(all, keys, q, limit, (rounds - 1) as nat);
        assert(page + all.skip(q) =~= rest);
    }
}

/// Pagination is complete: walking the pages from the start, with any limit
/// of at least one and enough rounds, gathers every stored key exactly once,
/// in ascending order. It fails of a store in which one key is another with a
/// zero byte appended, since the bound after the shorter key skips the longer
/// one; and with a limit of zero no page is ever short of the limit.
pub proof fn law_walk_keys_is_complete(keys: Set<Seq<u8>>, limit: nat, rounds: nat)
    requires
        has_listing(keys, None),
        zero_extension_free(keys),
        limit >= 1,
        rounds >= listing(keys, None).len(),
    ensures
        walk_keys(keys, None, limit, rounds) == listing(keys, None),
        walk_keys(keys, None, limit, rounds).no_duplicates(),
        ascending(walk_keys(keys, None, limit, rounds)),
        forall|k: Seq<u8>| walk_keys(keys, None, limit, rounds).contains(k) <==> keys.contains(k),
{
    let all = listing(keys, None);
    lemma_walk_keys_from(all, keys, 0, limit, rounds);
    assert(all.skip(0) =~= all);
    lemma_ascending_is_duplicate_free(all);
}

/// Every key of `keys` has a human form, and is the canonical form of it:
/// the store was filled with canonical forms of identifiers that the codec
/// turns back into the same identifiers.
pub open spec fn keys_are_canonical(deps: Deps, keys: Set<Seq<u8>>) -> bool {
    forall|k: Seq<u8>|
        keys.contains(k) ==> {
            &&& (#[trigger] human_form(deps, k)) is Some
            &&& canonical_form(deps, human_form(deps, k)->Some_0) == Some(k)
        }
}

/// The human forms of a run of keys.
pub open spec fn names_of(deps: Deps, keys: Seq<Seq<u8>>) -> Seq<Seq<char>> {
    keys.map_values(|key: Seq<u8>| human_form(deps, key)->Some_0)
}

/// A page of accounts that was produced holds, in the order of the page's
/// keys, the human form of each.
pub proof fn lemma_accounts_page_names(
    deps: Deps,
    start_after: Option<Seq<char>>,
    limit: Option<u32>,
)
    requires
        accounts_page(deps, start_after, limit) is Ok,
    ensures
        start_bound(deps, start_after) is Ok,
        accounts_page(deps, start_after, limit)->Ok_0 == names_of(
            deps,
            page_keys(
                stored_keys(deps, BALANCES@),
                start_bound(deps, start_after)->Ok_0,
                effective_limit(limit),
            ),
        ),
        forall|i: int|
            0 <= i < accounts_page(deps, start_after, limit)->Ok_0.len() ==> human_form(
                deps,
                #[trigger] page_keys(
                    stored_keys(deps, BALANCES@),
                    start_bound(deps, start_after)->Ok_0,
                    effective_limit(limit),
                )[i],
            ) is Some,
{
    let start = start_bound(deps, start_after)->Ok_0;
    let page = page_keys(stored_keys(deps, BALANCES@), start, effective_limit(limit));
    let outcomes = account_outcomes(deps, page);
    lemma_gather_ok(outcomes);
    let names = accounts_page(deps, start_after, limit)->Ok_0;
    assert forall|i: int| 0 <= i < names.len() implies human_form(deps, #[trigger] page[i])
        == Some(names[i]) by {
        assert(outcomes[i] == Ok::<Seq<char>, ErrorKind>(names[i]));
    }
    assert(names =~= names_of(deps, page));
}

/// The limit is kept: a page of accounts holds as many names as the
/// effective limit says, or all that are left where that is fewer, and never
/// more than the maximum.
pub proof fn law_accounts_limit(deps: Deps, start_after: Option<Seq<char>>, limit: Option<u32>)
    requires
        accounts_page(deps, start_after, limit) is Ok,
    ensures
        start_bound(deps, start_after) is Ok,
        accounts_page(deps, start_after, limit)->Ok_0.len() == if effective_limit(limit)
            <= listing(stored_keys(deps, BALANCES@), start_bound(deps, start_after)->Ok_0).len() {
            effective_limit(limit)
        } else {
            listing(stored_keys(deps, BALANCES@), start_bound(deps, start_after)->Ok_0).len()
        },
        accounts_page(deps, start_after, limit)->Ok_0.len() <= effective_limit(limit) <= MAX_LIMIT,
{
    lemma_accounts_page_names(deps, start_after, limit);
}

/// Exclusive start: over a store whose keys are canonical, the page that
/// follows a cursor never lists the cursor itself.
pub proof fn law_accounts_exclude_cursor(deps: Deps, cursor: Seq<char>, limit: Option<u32>)
    requires
        accounts_page(deps, Some(cursor), limit) is Ok,
        has_listing(stored_keys(deps, BALANCES@), start_bound(deps, Some(cursor))->Ok_0),
        keys_are_canonical(deps, stored_keys(deps, BALANCES@)),
    ensures
        !accounts_page(deps, Some(cursor), limit)->Ok_0.contains(cursor),
{
    let keys = stored_keys(deps, BALANCES@);
    let names = accounts_page(deps, Some(cursor), limit)->Ok_0;
    lemma_accounts_page_names(deps, Some(cursor), limit);
    let cursor_key = canonical_form(deps, cursor)->Some_0;
    let page = page_keys(keys, range_start(Some(cursor_key)), effective_limit(limit));
    law_page_members(keys, range_start(Some(cursor_key)), effective_limit(limit));
    law_page_excludes_cursor(keys, cursor_key, effective_limit(limit));
    if names.contains(cursor) {
        let i = choose|i: int| 0 <= i < names.len() && names[i] == cursor;
        assert(keys.contains(page[i]));
        assert(human_form(deps, page[i]) == Some(cursor));
        assert(page[i] == cursor_key);
        assert(page.contains(cursor_key));
    }
}

/// Over a store whose keys are canonical, no name is listed twice in a page.
pub proof fn law_accounts_are_distinct(
    deps: Deps,
    start_after: Option<Seq<char>>,
    limit: Option<u32>,
)
    requires
        accounts_page(deps, start_after, limit) is Ok,
        has_listing(stored_keys(deps, BALANCES@), start_bound(deps, start_after)->Ok_0),
        keys_are_canonical(deps, stored_keys(deps, BALANCES@)),
    ensures
        accounts_page(deps, start_after, limit)->Ok_0.no_duplicates(),
{
    let keys = stored_keys(deps, BALANCES@);
    let start = start_bound(deps, start_after)->Ok_0;
    let page = page_keys(keys, start, effective_limit(limit));
    let names = accounts_page(deps, start_after, limit)->Ok_0;
    lemma_accounts_page_names(deps, start_after, limit);
    law_page_members(keys, start, effective_limit(limit));
    assert forall|i: int, j: int|
        0 <= i < names.len() && 0 <= j < names.len() && i != j implies names[i] != names[j] by {
        assert(keys.contains(page[i]) && keys.contains(page[j]));
        assert(human_form(deps, page[i]) == Some(names[i]));
        assert(human_form(deps, page[j]) == Some(names[j]));
    }
}

/// Order preservation: over a store whose keys are canonical, of two names of
/// a page the one whose canonical form precedes the other's is listed first.
pub proof fn law_accounts_follow_key_order(
    deps: Deps,
    start_after: Option<Seq<char>>,
    limit: Option<u32>,
    i: int,
    j: int,
)
    requires
        accounts_page(deps, start_after, limit) matches Ok(names) && {
            &&& 0 <= i < names.len()
            &&& 0 <= j < names.len()
            &&& canonical_form(deps, names[i]) is Some
            &&& canonical_form(deps, names[j]) is Some
            &&& precedes(
                canonical_form(deps, names[i])->Some_0,
                canonical_form(deps, names[j])->Some_0,
            )
        },
        has_listing(stored_keys(deps, BALANCES@), start_bound(deps, start_after)->Ok_0),
        keys_are_canonical(deps, stored_keys(deps, BALANCES@)),
    ensures
        i < j,
{
    let keys = stored_keys(deps, BALANCES@);
    let start = start_bound(deps, start_after)->Ok_0;
    let page = page_keys(keys, start, effective_limit(limit));
    lemma_accounts_page_names(deps, start_after, limit);
    law_page_members(keys, start, effective_limit(limit));
    assert(keys.contains(page[i]) && keys.contains(page[j]));
    let names = accounts_page(deps, start_after, limit)->Ok_0;
    assert(human_form(deps, page[i]) == Some(names[i]));
    assert(human_form(deps, page[j]) == Some(names[j]));
    law_page_follows_key_order(keys, start, effective_limit(limit), i, j);
}

/// The names gathered by asking for page after page of accounts, each time
/// with the last name of the page before as `start_after`, until a page comes
/// back short of the limit or `rounds` further pages have been asked for.
pub open spec fn walk_accounts(
    deps: Deps,
    start_after: Option<Seq<char>>,
    limit: Option<u32>,
    rounds: nat,
) -> Result<Seq<Seq<char>>, ErrorKind>
    decreases rounds,
{
    match accounts_page(deps, start_after, limit) {
        Err(e) => Err(e),
        Ok(page) => if page.len() < effective_limit(limit) || rounds == 0 {
            Ok(page)
        } else {
            match walk_accounts(deps, Some(page.last()), limit, (rounds - 1) as nat) {
                Err(e) => Err(e),
                Ok(rest) => Ok(page + rest),
            }
        },
    }
}

/// The page of accounts asked for after the first `p` names of the whole
/// listing holds the names that follow, up to the limit.
proof fn lemma_accounts_page_at(deps: Deps, all: Seq<Seq<u8>>, p: int, limit: Option<u32>)
    requires
        lists(all, stored_keys(deps, BALANCES@), None),
        zero_extension_free(stored_keys(deps, BALANCES@)),
        keys_are_canonical(deps, stored_keys(deps, BALANCES@)),
        0 <= p <= all.len(),
    ensures
        accounts_page(
            deps,
            if p == 0 {
                None
            } else {
                Some(names_of(deps, all)[p - 1])
            },
            limit,
        ) == Ok::<Seq<Seq<char>>, ErrorKind>(
            names_of(deps, all).subrange(
                p,
                if p + effective_limit(limit) <= all.len() {
                    p + effective_limit(limit)
                } else {
                    all.len() as int
                },
            ),
        ),
{
    let keys = stored_keys(deps, BALANCES@);
    let names = names_of(deps, all);
    let cursor = if p == 0 {
        None
    } else {
        Some(names[p - 1])
    };
    let key_cursor = if p == 0 {
        None
    } else {
        Some(all[p - 1])
    };
    if p == 0 {
        lemma_listing_is_unique(all, keys, None);
        assert(all.skip(0) =~= all);
    } else {
        assert(all.contains(all[p - 1]));
        lemma_listing_resumes(all, keys, p - 1);
    }
    assert(start_bound(deps, cursor) == Ok::<Option<Seq<u8>>, ErrorKind>(range_start(key_cursor)));
    let rest = all.skip(p);
    assert(listing(keys, range_start(key_cursor)) == rest);
    let page = page_keys(keys, range_start(key_cursor), effective_limit(limit));
    let end = if p + effective_limit(limit) <= all.len() {
        p + effective_limit(limit)
    } else {
        all.len() as int
    };
    assert(page =~= all.subrange(p, end));
    let outcomes = account_outcomes(deps, page);
    assert forall|i: int| 0 <= i < outcomes.len() implies (#[trigger] outcomes[i]) is Ok by {
        assert(all.contains(all[p + i]));
        assert(human_form(deps, page[i]) is Some);
    }
    lemma_gather_ok(outcomes);
    let listed = gather(outcomes)->Ok_0;
    assert forall|i: int| 0 <= i < listed.len() implies listed[i] == names.subrange(p, end)[i] by {
        assert(outcomes[i] == Ok::<Seq<char>, ErrorKind>(listed[i]));
    }
    assert(listed =~= names.subrange(p, end));
}

/// A walk that has consumed the first `p` names of the whole listing gathers
/// all the others.
proof fn lemma_walk_accounts_from(
    deps: Deps,
    all: Seq<Seq<u8>>,
    p: int,
    limit: Option<u32>,
    rounds: nat,
)
    requires
        lists(all, stored_keys(deps, BALANCES@), None),
        zero_extension_free(stored_keys(deps, BALANCES@)),
        keys_are_canonical(deps, stored_keys(deps, BALANCES@)),
        effective_limit(limit) >= 1,
        0 <= p <= all.len(),
        rounds >= all.len() - p,
    ensures
        walk_accounts(
            deps,
            if p == 0 {
                None
            } else {
                Some(names_of(deps, all)[p - 1])
            },
            limit,
            rounds,
        ) == Ok::<Seq<Seq<char>>, ErrorKind>(names_of(deps, all).skip(p)),
    decreases rounds,
{
    let names = names_of(deps, all);
    lemma_accounts_page_at(deps, all, p, limit);
    let end = if p + effective_limit(limit) <= all.len() {
        p + effective_limit(limit)
    } else {
        all.len() as int
    };
    let page = names.subrange(p, end);
    if page.len() < effective_limit(limit) || rounds == 0 {
        assert(page =~= names.skip(p));
    } else {
        assert(page.last() == names[end - 1]);
        lemma_walk_accounts_from(deps, all, end, limit, (rounds - 1) as nat);
        assert(page + names.skip(end) =~= names.skip(p));
    }
}

/// Pagination is complete: over a store whose keys are canonical and never
/// extend one another by a zero byte, walking the pages of accounts from the
/// start, with an effective limit of at least one and enough rounds, gathers
/// the name of every stored account exactly once, in ascending order of the
/// keys.
pub proof fn law_walk_accounts_is_complete(deps: Deps, limit: Option<u32>, rounds: nat)
    requires
        has_listing(stored_keys(deps, BALANCES@), None),
        zero_extension_free(stored_keys(deps, BALANCES@)),
        keys_are_canonical(deps, stored_keys(deps, BALANCES@)),
        effective_limit(limit) >= 1,
        rounds >= listing(stored_keys(deps, BALANCES@), None).len(),
    ensures
        walk_accounts(deps, None, limit, rounds) == Ok::<Seq<Seq<char>>, ErrorKind>(
            names_of(deps, listing(stored_keys(deps, BALANCES@), None)),
        ),
        names_of(deps, listing(stored_keys(deps, BALANCES@), None)).no_duplicates(),
{
    let keys = stored_keys(deps, BALANCES@);
    let all = listing(keys, None);
    let names = names_of(deps, all);
    lemma_walk_accounts_from(deps, all, 0, limit, rounds);
    assert(names.skip(0) =~= names);
    lemma_ascending_is_duplicate_free(all);
    assert forall|i: int, j: int|
        0 <= i < names.len() && 0 <= j < names.len() && i != j implies names[i] != names[j] by {
        assert(all.contains(all[i]) && all.contains(all[j]));
        assert(canonical_form(deps, names[i]) == Some(all[i]));
        assert(canonical_form(deps, names[j]) == Some(all[j]));
    }
}

/// A page of allowances that was produced holds, in the order of the page's
/// spender keys, what each of the owner's entries under those keys comes to.
pub proof fn law_allowances_belong_to_owner(
    deps: Deps,
    grants: Map<(Seq<u8>, Seq<u8>), Option<Grant>>,
    owner: Seq<u8>,
    start: Option<Seq<u8>>,
    limit: nat,
)
    requires
        allowances_under(deps, grants, owner, start, limit) is Ok,
        has_listing(spenders(grants, owner), start),
    ensures
        allowances_under(deps, grants, owner, start, limit)->Ok_0.len() == page_keys(
            spenders(grants, owner),
            start,
            limit,
        ).len(),
        allowances_under(deps, grants, owner, start, limit)->Ok_0.len() <= limit,
        forall|i: int|
            0 <= i < allowances_under(deps, grants, owner, start, limit)->Ok_0.len() ==> {
                let key = #[trigger] page_keys(spenders(grants, owner), start, limit)[i];
                &&& grants.contains_key((owner, key))
                &&& allowance_outcome(deps, key, grants[(owner, key)]) == Ok::<
                    AllowanceView,
                    ErrorKind,
                >(allowances_under(deps, grants, owner, start, limit)->Ok_0[i])
            },
{
    let page = page_keys(spenders(grants, owner), start, limit);
    let outcomes = allowance_outcomes(deps, grants, owner, page);
    lemma_gather_ok(outcomes);
    law_page_members(spenders(grants, owner), start, limit);
    let entries = allowances_under(deps, grants, owner, start, limit)->Ok_0;
    assert forall|i: int| 0 <= i < entries.len() implies {
        let key = #[trigger] page[i];
        &&& grants.contains_key((owner, key))
        &&& allowance_outcome(deps, key, grants[(owner, key)]) == Ok::<AllowanceView, ErrorKind>(
            entries[i],
        )
    } by {
        assert(spenders(grants, owner).contains(page[i]));
        assert(outcomes[i] == Ok::<AllowanceView, ErrorKind>(entries[i]));
    }
}

/// Prefix isolation: the page of an owner's allowances depends on that
/// owner's entries alone. Two stores that hold the same entries for `owner`
/// give the same page, whatever else they hold for other owners.
pub proof fn law_allowances_are_isolated(
    deps: Deps,
    grants: Map<(Seq<u8>, Seq<u8>), Option<Grant>>,
    other: Map<(Seq<u8>, Seq<u8>), Option<Grant>>,
    owner: Seq<u8>,
    start: Option<Seq<u8>>,
    limit: nat,
)
    requires
        has_listing(spenders(grants, owner), start),
        forall|spender: Seq<u8>|
            grants.contains_key((owner, spender)) == other.contains_key((owner, spender)),
        forall|spender: Seq<u8>|
            grants.contains_key((owner, spender)) ==> grants[(owner, spender)] == other[(
                owner,
                spender,
            )],
    ensures
        allowances_under(deps, grants, owner, start, limit) == allowances_under(
            deps,
            other,
            owner,
            start,
            limit,
        ),
{
    assert(spenders(grants, owner) =~= spenders(other, owner));
    let page = page_keys(spenders(grants, owner), start, limit);
    law_page_members(spenders(grants, owner), start, limit);
    assert forall|i: int| 0 <= i < page.len() implies allowance_outcomes(
        deps,
        grants,
        owner,
        page,
    )[i] == allowance_outcomes(deps, other, owner, page)[i] by {
        assert(spenders(grants, owner).contains(page[i]));
    }
    assert(allowance_outcomes(deps, grants, owner, page) =~= allowance_outcomes(
        deps,
        other,
        owner,
        page,
    ));
}

/// Every entry that `grants` holds for `owner` can be read.
pub open spec fn grants_are_readable(
    grants: Map<(Seq<u8>, Seq<u8>), Option<Grant>>,
    owner: Seq<u8>,
) -> bool {
    forall|spender: Seq<u8>|
        grants.contains_key((owner, spender)) ==> (#[trigger] grants[(owner, spender)]) is Some
}

/// The allowances that `grants` holds for `owner` under the spender keys
/// `keys`, in the listed form.
pub open spec fn entries_of(
    deps: Deps,
    grants: Map<(Seq<u8>, Seq<u8>), Option<Grant>>,
    owner: Seq<u8>,
    keys: Seq<Seq<u8>>,
) -> Seq<AllowanceView> {
    keys.map_values(
        |key: Seq<u8>|
            AllowanceView {
                spender: human_form(deps, key)->Some_0,
                allowance: grants[(owner, key)]->Some_0.allowance,
                expires: grants[(owner, key)]->Some_0.expires,
            },
    )
}

/// The store behind `deps` holds the allowances of `owner`, whose key is
/// `owner_key`, in good order: the key can prefix a composite key, nothing
/// strays into the range of its prefix, the owner's entries can be listed and
/// read, and the spender keys are canonical and never extend one another by a
/// zero byte.
pub open spec fn allowances_in_order(deps: Deps, owner: Seq<char>, owner_key: Seq<u8>) -> bool {
    let grants = stored_grants(deps, ALLOWANCES@);
    &&& encoding(deps, owner) == Ok::<Seq<u8>, ErrorKind>(owner_key)
    &&& owner_key.len() <= MAX_OWNER_KEY
    &&& prefix_is_sound(raw_keys(deps), owner_prefix(ALLOWANCES@, owner_key))
    &&& has_listing(spenders(grants, owner_key), None)
    &&& zero_extension_free(spenders(grants, owner_key))
    &&& keys_are_canonical(deps, spenders(grants, owner_key))
    &&& grants_are_readable(grants, owner_key)
}

/// The allowances gathered by asking for page after page of an owner's
/// allowances, each time with the spender of the last entry of the page
/// before as `start_after`, until a page comes back short of the limit or
/// `rounds` further pages have been asked for.
pub open spec fn walk_allowances(
    deps: Deps,
    owner: Seq<char>,
    start_after: Option<Seq<char>>,
    limit: Option<u32>,
    rounds: nat,
) -> Result<Seq<AllowanceView>, ErrorKind>
    decreases rounds,
{
    match allowances_page(deps, owner, start_after, limit) {
        Err(e) => Err(e),
        Ok(page) => if page.len() < effective_limit(limit) || rounds == 0 {
            Ok(page)
        } else {
            let cursor = Some(page.last().spender);
            match walk_allowances(deps, owner, cursor, limit, (rounds - 1) as nat) {
                Err(e) => Err(e),
                Ok(rest) => Ok(page + rest),
            }
        },
    }
}

/// The page of allowances asked for after the first `p` entries of the
/// owner's whole listing holds the entries that follow, up to the limit.
proof fn lemma_allowances_page_at(
    deps: Deps,
    owner: Seq<char>,
    owner_key: Seq<u8>,
    all: Seq<Seq<u8>>,
    p: int,
    limit: Option<u32>,
)
    requires
        allowances_in_order(deps, owner, owner_key),
        lists(all, spenders(stored_grants(deps, ALLOWANCES@), owner_key), None),
        0 <= p <= all.len(),
    ensures
        allowances_page(
            deps,
            owner,
            if p == 0 {
                None
            } else {
                Some(
                    entries_of(deps, stored_grants(deps, ALLOWANCES@), owner_key, all)[p
                        - 1].spender,
                )
            },
            limit,
        ) == Ok::<Seq<AllowanceView>, ErrorKind>(
            entries_of(deps, stored_grants(deps, ALLOWANCES@), owner_key, all).subrange(
                p,
                if p + effective_limit(limit) <= all.len() {
                    p + effective_limit(limit)
                } else {
                    all.len() as int
                },
            ),
        ),
{
    let grants = stored_grants(deps, ALLOWANCES@);
    let keys = spenders(grants, owner_key);
    let entries = entries_of(deps, grants, owner_key, all);
    let cursor = if p == 0 {
        None
    } else {
        Some(entries[p - 1].spender)
    };
    let key_cursor = if p == 0 {
        None
    } else {
        Some(all[p - 1])
    };
    if p == 0 {
        lemma_listing_is_unique(all, keys, None);
        assert(all.skip(0) =~= all);
    } else {
        assert(all.contains(all[p - 1]));
        lemma_listing_resumes(all, keys, p - 1);
    }
    assert(start_bound(deps, cursor) == Ok::<Option<Seq<u8>>, ErrorKind>(range_start(key_cursor)));
    let rest = all.skip(p);
    assert(listing(keys, range_start(key_cursor)) == rest);
    let page = page_keys(keys, range_start(key_cursor), effective_limit(limit));
    let end = if p + effective_limit(limit) <= all.len() {
        p + effective_limit(limit)
    } else {
        all.len() as int
    };
    assert(page =~= all.subrange(p, end));
    let outcomes = allowance_outcomes(deps, grants, owner_key, page);
    assert forall|i: int| 0 <= i < outcomes.len() implies (#[trigger] outcomes[i]) is Ok by {
        assert(all.contains(all[p + i]));
        assert(grants.contains_key((owner_key, page[i])));
        assert(grants[(owner_key, page[i])] is Some);
        assert(human_form(deps, page[i]) is Some);
    }
    lemma_gather_ok(outcomes);
    let listed = gather(outcomes)->Ok_0;
    assert forall|i: int| 0 <= i < listed.len() implies listed[i] == entries.subrange(
        p,
        end,
    )[i] by {
        assert(outcomes[i] == Ok::<AllowanceView, ErrorKind>(listed[i]));
    }
    assert(listed =~= entries.subrange(p, end));
}

/// A walk that has consumed the first `p` entries of the owner's whole
/// listing gathers all the others.
proof fn lemma_walk_allowances_from(
    deps: Deps,
    owner: Seq<char>,
    owner_key: Seq<u8>,
    all: Seq<Seq<u8>>,
    p: int,
    limit: Option<u32>,
    rounds: nat,
)
    requires
        allowances_in_order(deps, owner, owner_key),
        lists(all, spenders(stored_grants(deps, ALLOWANCES@), owner_key), None),
        effective_limit(limit) >= 1,
        0 <= p <= all.len(),
        rounds >= all.len() - p,
    ensures
        walk_allowances(
            deps,
            owner,
            if p == 0 {
                None
            } else {
                Some(
                    entries_of(deps, stored_grants(deps, ALLOWANCES@), owner_key, all)[p
                        - 1].spender,
                )
            },
            limit,
            rounds,
        ) == Ok::<Seq<AllowanceView>, ErrorKind>(
            entries_of(deps, stored_grants(deps, ALLOWANCES@), owner_key, all).skip(p),
        ),
    decreases rounds,
{
    let entries = entries_of(deps, stored_grants(deps, ALLOWANCES@), owner_key, all);
    lemma_allowances_page_at(deps, owner, owner_key, all, p, limit);
    let end = if p + effective_limit(limit) <= all.len() {
        p + effective_limit(limit)
    } else {
        all.len() as int
    };
    let page = entries.subrange(p, end);
    if page.len() < effective_limit(limit) || rounds == 0 {
        assert(page =~= entries.skip(p));
    } else {
        assert(page.last() == entries[end - 1]);
        lemma_walk_allowances_from(deps, owner, owner_key, all, end, limit, (rounds - 1) as nat);
        assert(page + entries.skip(end) =~= entries.skip(p));
    }
}

/// Pagination of allowances is complete: over a store that holds the owner's
/// allowances in good order, walking the pages from the start, with an
/// effective limit of at least one and enough rounds, gathers every entry
/// stored for the owner exactly once, in ascending order of the spender
/// keys, each with its stored allowance and expiration, and nothing else.
pub proof fn law_walk_allowances_is_complete(
    deps: Deps,
    owner: Seq<char>,
    owner_key: Seq<u8>,
    limit: Option<u32>,
    rounds: nat,
)
    requires
        allowances_in_order(deps, owner, owner_key),
        effective_limit(limit) >= 1,
        rounds >= listing(spenders(stored_grants(deps, ALLOWANCES@), owner_key), None).len(),
    ensures
        walk_allowances(deps, owner, None, limit, rounds) == Ok::<Seq<AllowanceView>, ErrorKind>(
            entries_of(
                deps,
                stored_grants(deps, ALLOWANCES@),
                owner_key,
                listing(spenders(stored_grants(deps, ALLOWANCES@), owner_key), None),
            ),
        ),
        lists(
            listing(spenders(stored_grants(deps, ALLOWANCES@), owner_key), None),
            spenders(stored_grants(deps, ALLOWANCES@), owner_key),
            None,
        ),
        listing(spenders(stored_grants(deps, ALLOWANCES@), owner_key), None).no_duplicates(),
{
    let grants = stored_grants(deps, ALLOWANCES@);
    let all = listing(spenders(grants, owner_key), None);
    let entries = entries_of(deps, grants, owner_key, all);
    lemma_walk_allowances_from(deps, owner, owner_key, all, 0, limit, rounds);
    assert(entries.skip(0) =~= entries);
    lemma_ascending_is_duplicate_free(all);
}

} // verus!
