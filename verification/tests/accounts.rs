use cosmwasm_std::testing::{mock_dependencies, MockApi, MockQuerier, MockStorage};
use cosmwasm_std::{
    Addr, Api, CanonicalAddr, Deps, QuerierWrapper, RecoverPubkeyError, StdError, StdResult,
    Storage, Uint128, VerificationError,
};
use cw20_enumerable::{
    calc_range_start_human, clamp_limit, decode, encode, exclusive_start, query_all_accounts,
    ErrorKind, BALANCES, DEFAULT_LIMIT, MAX_LIMIT,
};

const WIDTH: usize = 16;

/// A codec whose canonical form is the name padded with zero bytes to a
/// fixed width, so that canonical order is the order of the names.
struct PaddingApi;

impl Api for PaddingApi {
    fn addr_validate(&self, human: &str) -> StdResult<Addr> {
        self.addr_canonicalize(human)?;
        Ok(Addr::unchecked(human))
    }

    fn addr_canonicalize(&self, human: &str) -> StdResult<CanonicalAddr> {
        if human.is_empty() || human.len() > WIDTH || human.contains('\0') {
            return Err(StdError::generic_err("not an address"));
        }
        let mut out = human.as_bytes().to_vec();
        out.resize(WIDTH, 0);
        Ok(out.into())
    }

    fn addr_humanize(&self, canonical: &CanonicalAddr) -> StdResult<Addr> {
        let mut bytes = canonical.as_slice().to_vec();
        while bytes.last() == Some(&0) {
            bytes.pop();
        }
        let text = String::from_utf8(bytes).map_err(|_| StdError::generic_err("not UTF-8"))?;
        Ok(Addr::unchecked(text))
    }

    fn secp256k1_verify(&self, _: &[u8], _: &[u8], _: &[u8]) -> Result<bool, VerificationError> {
        Ok(false)
    }

    fn secp256k1_recover_pubkey(
        &self,
        _: &[u8],
        _: &[u8],
        _: u8,
    ) -> Result<Vec<u8>, RecoverPubkeyError> {
        Ok(Vec::new())
    }

    fn ed25519_verify(&self, _: &[u8], _: &[u8], _: &[u8]) -> Result<bool, VerificationError> {
        Ok(false)
    }

    fn ed25519_batch_verify(
        &self,
        _: &[&[u8]],
        _: &[&[u8]],
        _: &[&[u8]],
    ) -> Result<bool, VerificationError> {
        Ok(false)
    }

    fn debug(&self, _: &str) {}
}

fn put_key(storage: &mut dyn Storage, key: &[u8]) {
    let balances: cw_storage_plus::Map<&[u8], Uint128> = cw_storage_plus::Map::new(BALANCES);
    balances.save(storage, key, &Uint128::new(1)).unwrap();
}

fn put_account(storage: &mut dyn Storage, api: &dyn Api, name: &str) {
    let key: Vec<u8> = api.addr_canonicalize(name).unwrap().into();
    put_key(storage, &key);
}

fn padded_store(names: &[&str]) -> MockStorage {
    let mut storage = MockStorage::new();
    for name in names {
        put_account(&mut storage, &PaddingApi, name);
    }
    storage
}

fn list(
    storage: &MockStorage,
    api: &dyn Api,
    start_after: Option<&str>,
    limit: Option<u32>,
) -> Result<Vec<String>, ErrorKind> {
    let querier: MockQuerier = MockQuerier::new(&[]);
    let deps = Deps { storage, api, querier: QuerierWrapper::new(&querier) };
    query_all_accounts(deps, start_after.map(|s| s.to_string()), limit)
        .map(|page| page.accounts)
        .map_err(|error| error.kind)
}

fn strings(names: &[&str]) -> Vec<String> {
    names.iter().map(|name| name.to_string()).collect()
}

fn numbered(count: usize) -> Vec<String> {
    (0..count).map(|i| format!("holder{:03}", i)).collect()
}

#[test]
fn empty_store_gives_empty_page() {
    let deps = mock_dependencies(&[]);
    let page = query_all_accounts(deps.as_ref(), None, None).unwrap();
    assert!(page.accounts.is_empty());
}

#[test]
fn accounts_come_in_key_order() {
    let mut deps = mock_dependencies(&[]);
    let names = ["carol", "alice", "bob", "dave", "erin"];
    let mut keyed: Vec<(Vec<u8>, String)> = Vec::new();
    for name in names.iter() {
        let key: Vec<u8> = deps.api.addr_canonicalize(name).unwrap().into();
        put_key(&mut deps.storage, &key);
        keyed.push((key, name.to_string()));
    }
    keyed.sort();
    let expected: Vec<String> = keyed.into_iter().map(|(_, name)| name).collect();
    let page = query_all_accounts(deps.as_ref(), None, None).unwrap();
    assert_eq!(page.accounts, expected);
}

#[test]
fn first_page_then_the_rest() {
    let storage = padded_store(&["addr3", "addr1", "addr2"]);
    assert_eq!(list(&storage, &PaddingApi, None, Some(2)), Ok(strings(&["addr1", "addr2"])));
    assert_eq!(list(&storage, &PaddingApi, Some("addr2"), Some(2)), Ok(strings(&["addr3"])));
}

#[test]
fn cursor_is_never_listed() {
    let storage = padded_store(&["addr1", "addr2", "addr3"]);
    for cursor in ["addr1", "addr2", "addr3"] {
        let page = list(&storage, &PaddingApi, Some(cursor), None).unwrap();
        assert!(!page.contains(&cursor.to_string()));
    }
    assert_eq!(list(&storage, &PaddingApi, Some("addr1"), None), Ok(strings(&["addr2", "addr3"])));
    assert_eq!(list(&storage, &PaddingApi, Some("addr3"), None), Ok(Vec::new()));
}

#[test]
fn cursor_absent_from_store_resumes_at_next_key() {
    let storage = padded_store(&["addr1", "addr2", "addr3"]);
    assert_eq!(list(&storage, &PaddingApi, Some("addr15"), None), Ok(strings(&["addr2", "addr3"])));
    assert_eq!(
        list(&storage, &PaddingApi, Some("addr0"), None),
        Ok(strings(&["addr1", "addr2", "addr3"]))
    );
}

#[test]
fn absent_limit_is_the_default() {
    let names = numbered(12);
    let refs: Vec<&str> = names.iter().map(|s| s.as_str()).collect();
    let storage = padded_store(&refs);
    let page = list(&storage, &PaddingApi, None, None).unwrap();
    assert_eq!(page.len(), DEFAULT_LIMIT as usize);
    assert_eq!(page, names[..10].to_vec());
}

#[test]
fn limit_is_cut_to_the_maximum() {
    let names = numbered(35);
    let refs: Vec<&str> = names.iter().map(|s| s.as_str()).collect();
    let storage = padded_store(&refs);
    assert_eq!(list(&storage, &PaddingApi, None, Some(100)).unwrap(), names[..30].to_vec());
    assert_eq!(list(&storage, &PaddingApi, None, Some(31)).unwrap().len(), MAX_LIMIT as usize);
    assert_eq!(list(&storage, &PaddingApi, None, Some(30)).unwrap().len(), 30);
    assert_eq!(list(&storage, &PaddingApi, None, Some(29)).unwrap().len(), 29);
    assert_eq!(list(&storage, &PaddingApi, None, Some(u32::MAX)).unwrap().len(), 30);
}

#[test]
fn short_store_gives_short_page() {
    let storage = padded_store(&["addr1", "addr2", "addr3"]);
    assert_eq!(list(&storage, &PaddingApi, None, Some(30)).unwrap().len(), 3);
    assert_eq!(list(&storage, &PaddingApi, Some("addr1"), Some(5)).unwrap().len(), 2);
}

#[test]
fn limit_zero_gives_empty_page() {
    let storage = padded_store(&["addr1", "addr2", "addr3"]);
    assert_eq!(list(&storage, &PaddingApi, None, Some(0)), Ok(Vec::new()));
}

#[test]
fn rejected_cursor_is_an_invalid_identifier() {
    let storage = padded_store(&["addr1"]);
    assert_eq!(list(&storage, &PaddingApi, Some(""), None), Err(ErrorKind::InvalidIdentifier));
    let mock = MockApi::default();
    assert_eq!(list(&storage, &mock, Some("ab"), None), Err(ErrorKind::InvalidIdentifier));
}

#[test]
fn stored_key_without_human_form_is_an_invalid_identifier() {
    let mut storage = MockStorage::new();
    put_key(&mut storage, &[1, 2, 3]);
    let mock = MockApi::default();
    assert_eq!(list(&storage, &mock, None, None), Err(ErrorKind::InvalidIdentifier));
}

#[test]
fn keys_past_the_page_are_not_read() {
    let mock = MockApi::default();
    let mut storage = MockStorage::new();
    let good: Vec<u8> = mock.addr_canonicalize("alice").unwrap().into();
    put_key(&mut storage, &good);
    // Longer than any canonical form, and above it in byte order.
    let mut bad = good.clone();
    bad.push(7);
    put_key(&mut storage, &bad);
    assert_eq!(list(&storage, &mock, None, Some(1)), Ok(strings(&["alice"])));
    assert_eq!(list(&storage, &mock, None, Some(2)), Err(ErrorKind::InvalidIdentifier));
}

#[test]
fn walking_the_pages_lists_every_account_once() {
    let names = numbered(7);
    let refs: Vec<&str> = names.iter().map(|s| s.as_str()).collect();
    let storage = padded_store(&refs);
    let limit: u32 = 3;
    let mut seen: Vec<String> = Vec::new();
    let mut sizes: Vec<usize> = Vec::new();
    let mut cursor: Option<String> = None;
    loop {
        let page = list(&storage, &PaddingApi, cursor.as_deref(), Some(limit)).unwrap();
        sizes.push(page.len());
        seen.extend(page.iter().cloned());
        if page.len() < limit as usize {
            break;
        }
        cursor = page.last().cloned();
    }
    assert_eq!(sizes, vec![3, 3, 1]);
    assert_eq!(seen, names);
}

#[test]
fn walking_ends_with_an_empty_page_when_the_count_divides() {
    let names = numbered(6);
    let refs: Vec<&str> = names.iter().map(|s| s.as_str()).collect();
    let storage = padded_store(&refs);
    assert_eq!(list(&storage, &PaddingApi, None, Some(3)).unwrap(), names[..3].to_vec());
    assert_eq!(
        list(&storage, &PaddingApi, Some("holder002"), Some(3)).unwrap(),
        names[3..].to_vec()
    );
    assert_eq!(list(&storage, &PaddingApi, Some("holder005"), Some(3)), Ok(Vec::new()));
}

#[test]
fn key_that_extends_the_cursor_key_by_a_zero_byte_is_skipped() {
    let mut storage = padded_store(&["addr1", "addr2"]);
    let mut extended: Vec<u8> = PaddingApi.addr_canonicalize("addr1").unwrap().into();
    extended.push(0);
    put_key(&mut storage, &extended);
    assert_eq!(
        list(&storage, &PaddingApi, None, None),
        Ok(strings(&["addr1", "addr1", "addr2"]))
    );
    assert_eq!(list(&storage, &PaddingApi, Some("addr1"), None), Ok(strings(&["addr2"])));
}

#[test]
fn range_start_of_no_cursor_is_unbounded() {
    let deps = mock_dependencies(&[]);
    assert_eq!(calc_range_start_human(deps.as_ref(), None), Ok(None));
}

#[test]
fn range_start_is_the_canonical_key_and_a_zero_byte() {
    let deps = mock_dependencies(&[]);
    let mut expected: Vec<u8> = deps.api.addr_canonicalize("alice").unwrap().into();
    assert_ne!(expected, b"alice".to_vec());
    expected.push(0);
    assert_eq!(
        calc_range_start_human(deps.as_ref(), Some("alice".to_string())),
        Ok(Some(expected))
    );

    let storage = MockStorage::new();
    let querier: MockQuerier = MockQuerier::new(&[]);
    let padded =
        Deps { storage: &storage, api: &PaddingApi, querier: QuerierWrapper::new(&querier) };
    let mut bound = b"addr1".to_vec();
    bound.resize(WIDTH, 0);
    bound.push(0);
    assert_eq!(bound.len(), 17);
    assert_eq!(calc_range_start_human(padded, Some("addr1".to_string())), Ok(Some(bound)));
}

#[test]
fn range_start_of_rejected_cursor_fails() {
    let deps = mock_dependencies(&[]);
    let error = calc_range_start_human(deps.as_ref(), Some("ab".to_string())).unwrap_err();
    assert_eq!(error.kind, ErrorKind::InvalidIdentifier);
    assert_eq!(
        error.cause,
        Some(StdError::generic_err("Invalid input: human address too short"))
    );
}

#[test]
fn exclusive_start_appends_one_zero_byte() {
    assert_eq!(exclusive_start(None), None);
    assert_eq!(exclusive_start(Some(vec![])), Some(vec![0]));
    assert_eq!(exclusive_start(Some(vec![7, 0, 255])), Some(vec![7, 0, 255, 0]));
}

#[test]
fn clamp_limit_values() {
    assert_eq!(DEFAULT_LIMIT, 10);
    assert_eq!(MAX_LIMIT, 30);
    assert_eq!(clamp_limit(None), 10);
    assert_eq!(clamp_limit(Some(0)), 0);
    assert_eq!(clamp_limit(Some(1)), 1);
    assert_eq!(clamp_limit(Some(10)), 10);
    assert_eq!(clamp_limit(Some(30)), 30);
    assert_eq!(clamp_limit(Some(31)), 30);
    assert_eq!(clamp_limit(Some(u32::MAX)), 30);
}

#[test]
fn encode_gives_the_canonical_form_of_the_host() {
    let deps = mock_dependencies(&[]);
    let expected: Vec<u8> = deps.api.addr_canonicalize("alice").unwrap().into();
    assert_eq!(expected.len(), 24);
    assert_ne!(expected, b"alice".to_vec());
    assert_eq!(encode(deps.as_ref(), "alice"), Ok(expected));
    let short = encode(deps.as_ref(), "ab").unwrap_err();
    assert_eq!(short.kind, ErrorKind::InvalidIdentifier);
    assert_eq!(short.cause, Some(StdError::generic_err("Invalid input: human address too short")));
    let long = encode(deps.as_ref(), "an address of more than twenty-four bytes").unwrap_err();
    assert_eq!(long.kind, ErrorKind::InvalidIdentifier);
    assert_eq!(long.cause, Some(StdError::generic_err("Invalid input: human address too long")));
}

#[test]
fn decode_gives_the_human_form_of_the_host() {
    let deps = mock_dependencies(&[]);
    let key: Vec<u8> = deps.api.addr_canonicalize("alice").unwrap().into();
    assert_eq!(decode(deps.as_ref(), key), Ok("alice".to_string()));
    let short = decode(deps.as_ref(), vec![1, 2, 3]).unwrap_err();
    assert_eq!(short.kind, ErrorKind::InvalidIdentifier);
    assert_eq!(
        short.cause,
        Some(StdError::generic_err("Invalid input: canonical address length not correct"))
    );
    let not_text = decode(deps.as_ref(), vec![0xFF; 24]).unwrap_err();
    assert_eq!(not_text.kind, ErrorKind::InvalidIdentifier);
    assert!(not_text.cause.is_some());
}

#[test]
fn decode_undoes_encode() {
    let deps = mock_dependencies(&[]);
    for name in ["alice", "bob", "cosmos2contract", "a name with spaces", "ünïcödé"] {
        let key = encode(deps.as_ref(), name).unwrap();
        assert_eq!(decode(deps.as_ref(), key), Ok(name.to_string()));
    }
    let storage = MockStorage::new();
    let querier: MockQuerier = MockQuerier::new(&[]);
    let padded =
        Deps { storage: &storage, api: &PaddingApi, querier: QuerierWrapper::new(&querier) };
    for name in ["a", "addr1", "sixteen bytes ok"] {
        let key = encode(padded, name).unwrap();
        assert_eq!(key.len(), WIDTH);
        assert_eq!(decode(padded, key), Ok(name.to_string()));
    }
}

#[test]
fn mock_codec_loses_nul_bytes_of_a_name() {
    let deps = mock_dependencies(&[]);
    let key = encode(deps.as_ref(), "ab\0c").unwrap();
    assert_ne!(key, encode(deps.as_ref(), "abc").unwrap());
    assert_eq!(decode(deps.as_ref(), key), Ok("abc".to_string()));
}

#[test]
fn failed_listing_carries_the_error_of_the_host() {
    let mut storage = MockStorage::new();
    put_key(&mut storage, &[1, 2, 3]);
    let mock = MockApi::default();
    let querier: MockQuerier = MockQuerier::new(&[]);
    let deps = Deps { storage: &storage, api: &mock, querier: QuerierWrapper::new(&querier) };
    let error = query_all_accounts(deps, None, None).unwrap_err();
    assert_eq!(error.kind, ErrorKind::InvalidIdentifier);
    assert_eq!(
        error.cause,
        Some(StdError::generic_err("Invalid input: canonical address length not correct"))
    );
}
