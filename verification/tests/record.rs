//! Recording what block execution touched, for execution witnesses and flat witnesses.

use alloy_primitives::keccak256;
use stateless_witness::record::{
    account_from_info, AccessedAccount, AccountStatus, CacheAccount, ExecutedState, ExecutionWitnessRecord,
    FlatWitnessRecord, PlainAccount,
};
use stateless_witness::state::AccountInfo;

fn empty_code_hash() -> [u8; 32] {
    keccak256([]).0
}

fn state() -> ExecutedState {
    ExecutedState {
        cache_accounts: vec![
            (
                [1; 20],
                CacheAccount {
                    account: Some(PlainAccount {
                        info: AccountInfo { balance: [0; 32], nonce: 3, code_hash: empty_code_hash() },
                        storage: vec![([7; 32], [70; 32])],
                    }),
                    status: AccountStatus::Changed,
                },
            ),
            ([2; 20], CacheAccount { account: None, status: AccountStatus::Destroyed }),
        ],
        cache_contracts: vec![vec![0x60, 0x01]],
        bundle_contracts: vec![vec![0x60, 0x02]],
        block_hash_numbers: vec![40, 12, 33],
    }
}

#[test]
fn execution_witness_record_collects_keys_codes_and_lowest_number() {
    let r = ExecutionWitnessRecord::from_executed_state(&state());
    assert_eq!(r.lowest_block_number, Some(12));
    assert!(r.codes.contains(&vec![0x60, 0x01]));
    assert!(r.codes.contains(&vec![0x60, 0x02]));
    assert!(r.keys.contains(&vec![1u8; 20]));
    assert!(!r.keys.contains(&vec![2u8; 20]));
    assert!(r.keys.contains(&vec![7u8; 32]));
    let hashed_one = keccak256([1u8; 20]).0;
    let acct = r.hashed_state.accounts.iter().find(|(h, _)| *h == hashed_one).unwrap();
    let a = acct.1.unwrap();
    assert_eq!(a.nonce, 3);
    assert_eq!(a.bytecode_hash, None);
    let hashed_two = keccak256([2u8; 20]).0;
    let destroyed = r.hashed_state.accounts.iter().find(|(h, _)| *h == hashed_two).unwrap();
    assert!(destroyed.1.is_none());
}

#[test]
fn record_without_blockhash_has_no_lowest_number() {
    let mut s = state();
    s.block_hash_numbers = vec![];
    let r = ExecutionWitnessRecord::from_executed_state(&s);
    assert_eq!(r.lowest_block_number, None);
    let empty = ExecutionWitnessRecord::new();
    assert!(empty.codes.is_empty() && empty.keys.is_empty());
}

#[test]
fn trie_account_drops_empty_code_hash() {
    let a = account_from_info(&AccountInfo { balance: [1; 32], nonce: 2, code_hash: empty_code_hash() });
    assert_eq!(a.bytecode_hash, None);
    let b = account_from_info(&AccountInfo { balance: [1; 32], nonce: 2, code_hash: [5; 32] });
    assert_eq!(b.bytecode_hash, Some([5; 32]));
}

#[test]
fn flat_record_marks_destroyed_and_lists_slots() {
    let mut rec = FlatWitnessRecord::new();
    rec.record_executed_state(&state());
    assert_eq!(rec.contracts.len(), 1);
    assert_eq!(rec.contracts[0].0, keccak256([0x60u8, 0x01]).0);
    assert_eq!(rec.contracts[0].1, Some(vec![0x60, 0x01]));
    let one = rec.accounts.iter().find(|(a, _)| *a == [1; 20]).unwrap();
    assert!(matches!(&one.1, AccessedAccount::StorageKeys(k) if k == &vec![[7u8; 32]]));
    let two = rec.accounts.iter().find(|(a, _)| *a == [2; 20]).unwrap();
    assert!(matches!(two.1, AccessedAccount::Destroyed));
}

#[test]
fn destroyed_status_family() {
    assert!(AccountStatus::Destroyed.was_destroyed());
    assert!(AccountStatus::DestroyedAgain.was_destroyed());
    assert!(AccountStatus::DestroyedChanged.was_destroyed());
    assert!(!AccountStatus::Changed.was_destroyed());
}

#[test]
fn flat_record_marks_every_destroyed_status() {
    for status in [AccountStatus::Destroyed, AccountStatus::DestroyedChanged, AccountStatus::DestroyedAgain] {
        let state = ExecutedState {
            cache_accounts: vec![(
                [5; 20],
                CacheAccount {
                    account: Some(PlainAccount {
                        info: AccountInfo { balance: [0; 32], nonce: 1, code_hash: empty_code_hash() },
                        storage: vec![([1; 32], [2; 32])],
                    }),
                    status,
                },
            )],
            cache_contracts: vec![],
            bundle_contracts: vec![],
            block_hash_numbers: vec![],
        };
        let mut rec = FlatWitnessRecord::new();
        rec.record_executed_state(&state);
        assert!(matches!(rec.accounts[0].1, AccessedAccount::Destroyed));
    }
}
