//! Tracing a block from its witness: ancestor headers and the pre-state its keys name.

use alloy_consensus::Header;
use alloy_primitives::{keccak256, B256};
use alloy_rlp::Encodable;
use stateless_witness::state::AccountInfo;
use stateless_witness::trace::{first_trace, trace_ancestors, trace_pre_state, Error, TraceReads};
use stateless_witness::validation::SealedHeader;

fn reads() -> TraceReads {
    TraceReads {
        accounts: vec![
            ([1; 20], Some(AccountInfo { balance: [1; 32], nonce: 1, code_hash: [0xcc; 32] })),
            ([2; 20], None),
            ([3; 20], Some(AccountInfo { balance: [3; 32], nonce: 3, code_hash: keccak256([]).0 })),
        ],
        codes: vec![],
        storage: vec![([1; 20], vec![([7; 32], [70; 32])])],
    }
}

#[test]
fn pre_state_groups_addresses_with_their_slots() {
    let keys = vec![vec![1; 20], vec![7; 32], vec![2; 20], vec![8; 32], vec![3; 20]];
    let pre = trace_pre_state(&keys, &reads()).unwrap();
    assert_eq!(pre.len(), 2);
    let one = &pre.iter().find(|(a, _)| *a == [1; 20]).unwrap().1;
    assert_eq!(one.storage, vec![([7; 32], [70; 32])]);
    assert_eq!(one.code, Some(vec![0x00]));
    assert_eq!(one.nonce, 1);
    let three = &pre.iter().find(|(a, _)| *a == [3; 20]).unwrap().1;
    assert_eq!(three.code, None);
    assert!(three.storage.is_empty());
}

#[test]
fn missing_reads_are_reported() {
    let keys = vec![vec![4; 20]];
    assert!(matches!(trace_pre_state(&keys, &reads()), Err(Error::MissingAccountInTrie { addr }) if addr == [4; 20]));
    let keys = vec![vec![1; 20], vec![9; 32]];
    match trace_pre_state(&keys, &reads()) {
        Err(Error::MissingStorage { addr, storage_key }) => {
            assert_eq!(addr, [1; 20]);
            assert_eq!(storage_key, [9; 32]);
        }
        other => panic!("unexpected result {:?}", other),
    }
    assert!(trace_pre_state(&vec![], &reads()).unwrap().is_empty());
}

fn encode(number: u64, parent_hash: [u8; 32], state_root: [u8; 32]) -> Vec<u8> {
    let header = Header { number, parent_hash: B256::from(parent_hash), state_root: B256::from(state_root), ..Default::default() };
    let mut buf = Vec::new();
    header.encode(&mut buf);
    buf
}

#[test]
fn ancestors_give_pre_state_root() {
    let a = encode(8, [0; 32], [1; 32]);
    let b = encode(9, keccak256(&a).0, [2; 32]);
    let mut b_with_tail = b.clone();
    b_with_tail.extend_from_slice(&[0xde, 0xad]);
    let current = SealedHeader { number: 10, hash: [0; 32], parent_hash: keccak256(&b).0, state_root: [0; 32] };
    let (root, hashes) = trace_ancestors(&current, &vec![b_with_tail, a.clone()]).unwrap();
    assert_eq!(root, [2; 32]);
    assert_eq!(hashes.len(), 2);
    assert_eq!(hashes[&8], keccak256(&a).0);
    let wrong = SealedHeader { number: 11, ..current };
    assert!(matches!(trace_ancestors(&wrong, &vec![b.clone(), a.clone()]), Err(Error::ComputeAncestorHashes)));
    assert!(matches!(trace_ancestors(&current, &vec![vec![0xff]]), Err(Error::DecodingHeaders)));
}

#[test]
fn ancestor_order_does_not_matter() {
    let a = encode(7, [0; 32], [1; 32]);
    let b = encode(8, keccak256(&a).0, [2; 32]);
    let c = encode(9, keccak256(&b).0, [3; 32]);
    let current = SealedHeader { number: 10, hash: [0; 32], parent_hash: keccak256(&c).0, state_root: [0; 32] };
    let ascending = trace_ancestors(&current, &vec![a.clone(), b.clone(), c.clone()]).unwrap();
    let shuffled = trace_ancestors(&current, &vec![c.clone(), a.clone(), b.clone()]).unwrap();
    assert_eq!(ascending, shuffled);
    assert_eq!(shuffled.0, [3; 32]);
    assert_eq!(shuffled.1.len(), 3);
    let gap = SealedHeader { number: 11, ..current };
    assert!(matches!(trace_ancestors(&gap, &vec![b.clone(), c.clone(), a.clone()]), Err(Error::ComputeAncestorHashes)));
    assert!(matches!(trace_ancestors(&gap, &vec![a, c, b]), Err(Error::ComputeAncestorHashes)));
}

#[test]
fn first_trace_or_missing() {
    assert_eq!(first_trace(vec![5, 6]).unwrap(), 5);
    assert!(matches!(first_trace::<u8>(vec![]), Err(Error::MissingTrace)));
}

#[test]
fn missing_account_reported_before_a_malformed_key() {
    let keys = vec![vec![4; 20], vec![1; 7]];
    assert!(matches!(trace_pre_state(&keys, &reads()), Err(Error::MissingAccountInTrie { addr }) if addr == [4; 20]));
}
