//! The host side: the store and the address codec that a contract reaches
//! through `cosmwasm_std::Deps`, and the typed maps of `cw_storage_plus` laid
//! over that store.
//!
//! Nothing in this file is proved. Each item states what the outside code is
//! relied on to do; the rest of the crate is verified against these
//! statements.

use crate::order::{lists, lists_between};
use crate::prefix::{owner_prefix, prefix_is_sound};
use crate::types::{Expiration, Grant};
use cosmwasm_std::{CanonicalAddr, Deps, Order, StdError, Uint128};
use cw20::AllowanceResponse;
use cw_storage_plus::Bound;
use vstd::prelude::*;

verus! {

/// `cosmwasm_std::Deps`: the read-only handle on the host's store and address
/// codec. Opaque here.
#[verifier::external_type_specification]
#[verifier::external_body]
pub struct ExDeps<'a>(Deps<'a>);

/// `cosmwasm_std::StdError`: what the host's calls fail with. Opaque here.
#[verifier::external_type_specification]
#[verifier::external_body]
pub struct ExStdError(StdError);

/// The canonical form that `Api::addr_canonicalize` of the codec behind
/// `deps` gives the human-readable address `human`; `None` where it rejects
/// the address.
pub uninterp spec fn canonical_form(deps: Deps, human: Seq<char>) -> Option<Seq<u8>>;

/// The human-readable address that `Api::addr_humanize` of the codec behind
/// `deps` gives the canonical form `canonical`; `None` where it rejects the
/// bytes.
pub uninterp spec fn human_form(deps: Deps, canonical: Seq<u8>) -> Option<Seq<char>>;

/// The raw keys that the store behind `deps` holds, as `Storage::range`
/// yields them.
pub uninterp spec fn raw_keys(deps: Deps) -> Set<Seq<u8>>;

/// The keys under which the store behind `deps` holds an entry of the
/// single-key map `cw_storage_plus::Map::new(namespace)`.
pub uninterp spec fn stored_keys(deps: Deps, namespace: Seq<char>) -> Set<Seq<u8>>;

/// The entries that the store behind `deps` holds of the two-key map
/// `cw_storage_plus::Map::new(namespace)`, by (owner key, spender key); `None`
/// stands for stored bytes that do not parse as an allowance.
pub uninterp spec fn stored_grants(deps: Deps, namespace: Seq<char>) -> Map<
    (Seq<u8>, Seq<u8>),
    Option<Grant>,
>;

/// The keys that a key scan has yet to yield, in the order in which it will
/// yield them.
pub uninterp spec fn upcoming_keys(scan: KeyScan) -> Seq<Seq<u8>>;

/// The entries that an allowance scan has yet to yield, in the order in which
/// it will yield them, each as the spender key and the stored grant (`None`
/// where the stored bytes do not parse).
pub uninterp spec fn upcoming_grants(scan: GrantScan) -> Seq<(Seq<u8>, Option<Grant>)>;

/// A running ascending scan over keys: the iterator that
/// `cw_storage_plus::Map::keys` returns, or the keys of the pairs that
/// `Storage::range` yields.
#[verifier::external_body]
pub struct KeyScan<'a> {
    iter: Box<dyn Iterator<Item = Vec<u8>> + 'a>,
}

/// A running ascending scan over one owner's entries of the two-key allowance
/// map: the iterator that `cw_storage_plus::Prefix::range` returns.
#[verifier::external_body]
pub struct GrantScan<'a> {
    iter: Box<dyn Iterator<Item = Result<(Vec<u8>, AllowanceResponse), StdError>> + 'a>,
}

/// Mathematical value of an optional byte bound.
pub open spec fn bound_view(bound: Option<Vec<u8>>) -> Option<Seq<u8>> {
    match bound {
        Some(bytes) => Some(bytes@),
        None => None,
    }
}

/// The spender keys under which `grants` holds an entry for `owner`.
pub open spec fn spenders(grants: Map<(Seq<u8>, Seq<u8>), Option<Grant>>, owner: Seq<u8>) -> Set<
    Seq<u8>,
> {
    Set::new(|spender: Seq<u8>| grants.contains_key((owner, spender)))
}

/// The spender keys of a run of allowance entries, in the same order.
pub open spec fn entry_keys(entries: Seq<(Seq<u8>, Option<Grant>)>) -> Seq<Seq<u8>> {
    entries.map_values(|entry: (Seq<u8>, Option<Grant>)| entry.0)
}

/// Calls `Api::addr_canonicalize` of `cosmwasm_std` on the codec behind
/// `deps`. The trait's documentation requires an implementation to return the
/// same value for the same arguments; the contract relies on that and on
/// nothing else: the outcome is `canonical_form`. This is a claim on a host
/// that keeps to the trait's documentation; that its implementation returns
/// is assumed here, the documentation does not say it.
#[verifier::external_body]
pub(crate) fn canonicalize(deps: Deps, human: &str) -> (r: Result<Vec<u8>, StdError>)
    ensures
        match r {
            Ok(bytes) => canonical_form(deps, human@) == Some(bytes@),
            Err(_) => canonical_form(deps, human@) is None,
        },
{
    deps.api.addr_canonicalize(human).map(|canonical| canonical.0.into())
}

/// Calls `Api::addr_humanize` of `cosmwasm_std` on the codec behind `deps`.
/// As for `canonicalize`, the contract only says that the outcome is a
/// function of the codec and the bytes: it is `human_form`.
#[verifier::external_body]
pub(crate) fn humanize(deps: Deps, canonical: Vec<u8>) -> (r: Result<String, StdError>)
    ensures
        match r {
            Ok(human) => human_form(deps, canonical@) == Some(human@),
            Err(_) => human_form(deps, canonical@) is None,
        },
{
    deps.api.addr_humanize(&CanonicalAddr::from(canonical)).map(|addr| addr.into())
}

/// Calls `Map::keys` of `cw_storage_plus` on the single-key map at
/// `namespace`, in ascending order, with `start` as an exclusive lower bound.
/// The scan will yield, in ascending byte order, exactly the stored keys that
/// are greater than `start` (all of them where `start` is `None`).
/// The namespace must fit the two-byte length prefix of the key layout, which
/// panics otherwise; the bound on its characters keeps its UTF-8 form under
/// that limit.
#[verifier::external_body]
pub(crate) fn open_keys<'a>(deps: Deps<'a>, namespace: &str, start: Option<Vec<u8>>) -> (scan:
    KeyScan<'a>)
    requires
        namespace@.len() <= 0x3FFF,
    ensures
        lists(upcoming_keys(scan), stored_keys(deps, namespace@), bound_view(start)),
{
    let map = cw_storage_plus::Map::<&[u8], Uint128>::new(namespace);
    KeyScan { iter: map.keys(deps.storage, start.map(Bound::exclusive), None, Order::Ascending) }
}

/// Calls `Iterator::next` on the iterator of a key scan: hands out the first
/// of the keys yet to come and leaves the rest, or `None` when none is left.
#[verifier::external_body]
pub(crate) fn next_key(scan: &mut KeyScan) -> (r: Option<Vec<u8>>)
    ensures
        match r {
            Some(key) => {
                &&& upcoming_keys(*old(scan)).len() > 0
                &&& key@ == upcoming_keys(*old(scan))[0]
                &&& upcoming_keys(*final(scan)) == upcoming_keys(*old(scan)).drop_first()
            },
            None => upcoming_keys(*old(scan)).len() == 0,
        },
{
    scan.iter.next()
}

/// Calls `Storage::range` of `cosmwasm_std` on the store behind `deps`, in
/// ascending order, and keeps the key of each pair. As the trait documents
/// it, the start is inclusive and the end exclusive: the scan will yield, in
/// ascending byte order, exactly the raw keys from `from` on that lie before
/// `before`.
#[verifier::external_body]
pub(crate) fn open_raw_keys<'a>(deps: Deps<'a>, from: &Vec<u8>, before: &Vec<u8>) -> (scan:
    KeyScan<'a>)
    ensures
        lists_between(upcoming_keys(scan), raw_keys(deps), from@, before@),
{
    let (start, end) = (Some(from.as_slice()), Some(before.as_slice()));
    let pairs = deps.storage.range(start, end, Order::Ascending);
    KeyScan { iter: Box::new(pairs.map(|pair| pair.0)) }
}

/// Calls `Map::prefix` of `cw_storage_plus` on the two-key map at `namespace`
/// and copies the bytes that the `Prefix` dereferences to: the raw-key prefix
/// of the entries of `owner`, made of the namespace and the owner key, each
/// behind its length in two bytes. The layout panics on a part longer than
/// two bytes can count.
#[verifier::external_body]
pub(crate) fn grant_prefix(namespace: &str, owner: &Vec<u8>) -> (prefix: Vec<u8>)
    requires
        namespace@.len() <= 0x3FFF,
        owner@.len() <= 0xFFFF,
    ensures
        prefix@ == owner_prefix(namespace@, owner@),
{
    let map = cw_storage_plus::Map::<(&[u8], &[u8]), AllowanceResponse>::new(namespace);
    map.prefix(owner.as_slice()).to_vec()
}

/// Calls `Map::prefix` and `Prefix::range` of `cw_storage_plus` on the two-key
/// map at `namespace`, for the entries of `owner`, in ascending order, with
/// `start` as an exclusive lower bound on the spender key. The scan will
/// yield, in ascending byte order of the spender key, exactly the entries
/// stored for `owner` whose spender key is greater than `start`, each with
/// the grant stored for that pair. The key layout prefixes the namespace and
/// the owner key with their length in two bytes and panics on a longer one.
/// The scan cuts the prefix off each raw key of its range without looking at
/// it, and panics on a key shorter than the prefix: the store must hold no
/// key that strays into the range.
#[verifier::external_body]
pub(crate) fn open_grants<'a>(
    deps: Deps<'a>,
    namespace: &str,
    owner: &Vec<u8>,
    start: Option<Vec<u8>>,
) -> (scan: GrantScan<'a>)
    requires
        namespace@.len() <= 0x3FFF,
        owner@.len() <= 0xFFFF,
        prefix_is_sound(raw_keys(deps), owner_prefix(namespace@, owner@)),
    ensures
        lists(
            entry_keys(upcoming_grants(scan)),
            spenders(stored_grants(deps, namespace@), owner@),
            bound_view(start),
        ),
        forall|i: int|
            0 <= i < upcoming_grants(scan).len() ==> (#[trigger] upcoming_grants(scan)[i]).1
                == stored_grants(deps, namespace@)[(owner@, upcoming_grants(scan)[i].0)],
{
    let map = cw_storage_plus::Map::<(&[u8], &[u8]), AllowanceResponse>::new(namespace);
    let under_owner = map.prefix(owner.as_slice());
    GrantScan {
        iter: under_owner.range(deps.storage, start.map(Bound::exclusive), None, Order::Ascending),
    }
}

/// Calls `Iterator::next` on the iterator of an allowance scan and moves the
/// fields of the `cw20::AllowanceResponse` it yields into a `Grant`: hands out
/// the first of the entries yet to come and leaves the rest, or `None` when
/// none is left. An entry whose stored bytes do not parse comes out as the
/// error of `cw_storage_plus`, without its key.
#[verifier::external_body]
pub(crate) fn next_grant(scan: &mut GrantScan) -> (r: Option<Result<(Vec<u8>, Grant), StdError>>)
    ensures
        match r {
            Some(entry) => {
                &&& upcoming_grants(*old(scan)).len() > 0
                &&& upcoming_grants(*final(scan)) == upcoming_grants(*old(scan)).drop_first()
                &&& match entry {
                    Ok((key, grant)) => upcoming_grants(*old(scan))[0] == (key@, Some(grant)),
                    Err(_) => upcoming_grants(*old(scan))[0].1 is None,
                }
            },
            None => upcoming_grants(*old(scan)).len() == 0,
        },
{
    let (key, found) = match scan.iter.next()? {
        Ok(pair) => pair,
        Err(e) => return Some(Err(e)),
    };
    let expires = match found.expires {
        cw20::Expiration::AtHeight(height) => Expiration::AtHeight(height),
        cw20::Expiration::AtTime(time) => Expiration::AtTime(time.nanos()),
        cw20::Expiration::Never {} => Expiration::Never,
    };
    Some(Ok((key, Grant { allowance: found.allowance.u128(), expires })))
}

} // verus!
