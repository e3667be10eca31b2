//! Ancestor headers, flat-witness checks and state-root checks of stateless validation.

use alloy_consensus::Header;
use alloy_primitives::{keccak256, B256};
use alloy_rlp::Encodable;
use stateless_witness::state::{AccountInfo, AccountState, Cache, DbAccount};
use stateless_witness::validation::{
    check_ancestor_headers, check_flat_witness, check_post_state_root, compute_ancestor_hashes,
    decode_ancestor_headers, get_witness_components, get_witness_components_checked, SealedHeader,
    StatelessValidationError, BLOCKHASH_ANCESTOR_LIMIT,
};

fn encode(number: u64, parent_hash: [u8; 32], state_root: [u8; 32]) -> Vec<u8> {
    let header = Header {
        number,
        parent_hash: B256::from(parent_hash),
        state_root: B256::from(state_root),
        ..Default::default()
    };
    let mut buf = Vec::new();
    header.encode(&mut buf);
    buf
}

/// RLP headers of blocks `first..first+count`, each linked to the previous one; returns the
/// encodings and the hash of the last one.
fn chain(first: u64, count: u64) -> (Vec<Vec<u8>>, [u8; 32]) {
    let mut parent = [0u8; 32];
    let mut out = Vec::new();
    for n in first..first + count {
        let bytes = encode(n, parent, [n as u8; 32]);
        parent = keccak256(&bytes).0;
        out.push(bytes);
    }
    (out, parent)
}

fn current(number: u64, parent_hash: [u8; 32]) -> SealedHeader {
    SealedHeader { number, hash: [0xee; 32], parent_hash, state_root: [0; 32] }
}

#[test]
fn witness_components_of_a_chain() {
    let (mut headers, last) = chain(10, 3);
    headers.reverse();
    let (parent, map) = get_witness_components(&current(13, last), &headers).unwrap();
    assert_eq!(parent.number, 12);
    assert_eq!(parent.hash, last);
    assert_eq!(parent.state_root, [12u8; 32]);
    assert_eq!(map.len(), 3);
    assert_eq!(map[&12], last);
    assert_eq!(map[&10], keccak256(&headers[2]).0);
}

#[test]
fn broken_chain_is_rejected() {
    let (headers, _) = chain(10, 3);
    let r = get_witness_components(&current(13, [7; 32]), &headers);
    assert!(matches!(r, Err(StatelessValidationError::InvalidAncestorChain)));
}

#[test]
fn gap_in_numbers_is_rejected() {
    let (headers, last) = chain(10, 3);
    let r = get_witness_components(&current(14, last), &headers);
    assert!(matches!(r, Err(StatelessValidationError::InvalidAncestorChain)));
}

#[test]
fn no_headers_means_missing_parent() {
    let r = get_witness_components(&current(1, [0; 32]), &Vec::new());
    assert!(matches!(r, Err(StatelessValidationError::MissingAncestorHeader)));
}

#[test]
fn undecodable_header_is_rejected() {
    let (mut headers, last) = chain(10, 2);
    headers[0].push(0x00);
    let r = get_witness_components(&current(12, last), &headers);
    assert!(matches!(r, Err(StatelessValidationError::HeaderDeserializationFailed)));
    assert!(decode_ancestor_headers(&vec![vec![0xff, 0x01]]).is_err());
}

#[test]
fn too_many_headers_are_rejected() {
    let (headers, last) = chain(1, 257);
    let r = get_witness_components(&current(258, last), &headers);
    match r {
        Err(StatelessValidationError::AncestorHeaderLimitExceeded { count, limit }) => {
            assert_eq!(count, 257);
            assert_eq!(limit, BLOCKHASH_ANCESTOR_LIMIT);
        }
        other => panic!("unexpected result {:?}", other),
    }
    let (headers, last) = chain(1, 256);
    assert!(get_witness_components(&current(257, last), &headers).is_ok());
}

#[test]
fn checked_components_answer_for_ordinary_input() {
    let (headers, last) = chain(5, 2);
    let r = get_witness_components_checked(&current(7, last), &headers);
    assert!(matches!(r, Some(Ok(_))));
}

#[test]
fn ancestor_hashes_map_numbers_to_hashes() {
    let a = SealedHeader { number: 4, hash: [4; 32], parent_hash: [3; 32], state_root: [0; 32] };
    let b = SealedHeader { number: 5, hash: [5; 32], parent_hash: [4; 32], state_root: [0; 32] };
    let m = compute_ancestor_hashes(&current(6, [5; 32]), &vec![a, b]).unwrap();
    assert_eq!(m.len(), 2);
    assert_eq!(m[&4], [4; 32]);
    assert_eq!(m[&5], [5; 32]);
    let r = compute_ancestor_hashes(&current(6, [9; 32]), &vec![a, b]);
    assert!(matches!(r, Err(StatelessValidationError::InvalidAncestorChain)));
    assert!(compute_ancestor_hashes(&current(6, [5; 32]), &Vec::new()).unwrap().is_empty());
}

#[test]
fn check_ancestor_headers_sorts_before_linking() {
    let a = SealedHeader { number: 4, hash: [4; 32], parent_hash: [3; 32], state_root: [1; 32] };
    let b = SealedHeader { number: 5, hash: [5; 32], parent_hash: [4; 32], state_root: [2; 32] };
    let (parent, _) = check_ancestor_headers(&current(6, [5; 32]), &vec![b, a]).unwrap();
    assert_eq!(parent.number, 5);
    assert_eq!(parent.state_root, [2; 32]);
}

#[test]
fn post_state_root_mismatch_reports_both_roots() {
    assert!(check_post_state_root(&[1; 32], &[1; 32]).is_ok());
    match check_post_state_root(&[1; 32], &[2; 32]) {
        Err(StatelessValidationError::PostStateRootMismatch { got, expected }) => {
            assert_eq!(got, [1; 32]);
            assert_eq!(expected, [2; 32]);
        }
        other => panic!("unexpected result {:?}", other),
    }
}

fn info(balance: u8, nonce: u64) -> AccountInfo {
    AccountInfo { balance: [balance; 32], nonce, code_hash: keccak256([]).0 }
}

#[test]
fn flat_witness_checked_against_trie() {
    let code = vec![0x60, 0x00];
    let cache = Cache {
        accounts: vec![
            ([1; 20], DbAccount { info: info(1, 1), account_state: AccountState::Touched, storage: vec![] }),
            ([2; 20], DbAccount { info: info(0, 0), account_state: AccountState::NotExisting, storage: vec![] }),
        ],
        contracts: vec![(keccak256(&code).0, code.clone())],
        block_hashes: vec![],
    };
    assert!(check_flat_witness(&cache, &vec![Some(info(1, 1)), None]).is_ok());
    let r = check_flat_witness(&cache, &vec![Some(info(1, 2)), None]);
    assert!(matches!(r, Err(StatelessValidationError::FlatdbSparseTrieMismatch)));
    let r = check_flat_witness(&cache, &vec![Some(info(1, 1)), Some(info(0, 0))]);
    assert!(matches!(r, Err(StatelessValidationError::FlatdbSparseTrieMismatch)));
    let bad = Cache { accounts: vec![], contracts: vec![([0; 32], code)], block_hashes: vec![] };
    assert!(matches!(check_flat_witness(&bad, &vec![]), Err(StatelessValidationError::FlatdbSparseTrieMismatch)));
}
