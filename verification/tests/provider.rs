//! The flat pre-state of a block, assembled from the latest state's answers.

use alloy_primitives::keccak256;
use stateless_witness::provider::{DbProvider, FlatPreState, LatestStateProvider, LatestStateProviderRef, RecordFlatWitness, StateReads};
use stateless_witness::record::{AccessedAccount, AccountStatus, CacheAccount, ExecutedState, FlatWitnessRecord, PlainAccount};
use stateless_witness::state::AccountInfo;
use stateless_witness::state::{Account, AccountState};

struct Db {
    tx: u32,
}

impl DbProvider for Db {
    type Tx = u32;
    fn tx_ref(&self) -> &u32 {
        &self.tx
    }
}

fn reads() -> StateReads {
    StateReads {
        accounts: vec![
            ([1; 20], Account { nonce: 5, balance: [1; 32], bytecode_hash: Some([0xcc; 32]) }),
            ([2; 20], Account { nonce: 0, balance: [2; 32], bytecode_hash: None }),
        ],
        bytecodes: vec![([0xcc; 32], vec![0x60, 0x00])],
        storage: vec![([1; 20], vec![([3; 32], [33; 32])]), ([2; 20], vec![([4; 32], [44; 32]), ([5; 32], [55; 32])])],
    }
}

fn record() -> FlatWitnessRecord {
    FlatWitnessRecord {
        accounts: vec![
            ([1; 20], AccessedAccount::StorageKeys(vec![[3; 32], [9; 32]])),
            ([2; 20], AccessedAccount::Destroyed),
            ([7; 20], AccessedAccount::StorageKeys(vec![])),
        ],
        contracts: vec![([0xcc; 32], None), ([0xdd; 32], Some(vec![1, 2])), ([0xee; 32], None)],
    }
}

#[test]
fn pre_state_of_accessed_accounts() {
    let db = Db { tx: 42 };
    let provider = LatestStateProviderRef::new(&db);
    assert_eq!(*provider.tx(), 42);
    let pre: FlatPreState = provider.flat_witness(&record(), &reads());

    let one = &pre.accounts.iter().find(|(a, _)| *a == [1; 20]).unwrap().1;
    assert_eq!(one.info.nonce, 5);
    assert_eq!(one.info.code_hash, [0xcc; 32]);
    assert_eq!(one.account_state, AccountState::Untouched);
    let mut slots = one.storage.clone();
    slots.sort();
    assert_eq!(slots, vec![([3; 32], [33; 32]), ([9; 32], [0; 32])]);

    let two = &pre.accounts.iter().find(|(a, _)| *a == [2; 20]).unwrap().1;
    assert_eq!(two.info.code_hash, keccak256([]).0);
    assert_eq!(two.storage.len(), 2);

    let seven = &pre.accounts.iter().find(|(a, _)| *a == [7; 20]).unwrap().1;
    assert_eq!(seven.account_state, AccountState::NotExisting);
    assert_eq!(seven.info.nonce, 0);
    assert_eq!(seven.info.balance, [0; 32]);
    assert!(seven.storage.is_empty());

    assert_eq!(pre.destructed_addresses, vec![[2; 20]]);
    assert_eq!(pre.contracts.len(), 2);
    assert!(pre.contracts.contains(&([0xcc; 32], vec![0x60, 0x00])));
    assert!(pre.contracts.contains(&([0xdd; 32], vec![1, 2])));
}

#[test]
fn storage_entry_must_be_the_slot_itself() {
    let db = Db { tx: 1 };
    let provider = LatestStateProviderRef::new(&db);
    assert_eq!(provider.storage(Some(([3; 32], [9; 32])), &[3; 32]), Some([9; 32]));
    assert_eq!(provider.storage(Some(([4; 32], [9; 32])), &[3; 32]), None);
    assert_eq!(provider.storage(None, &[3; 32]), None);
}

#[test]
fn owned_provider_lends_a_reference_provider() {
    let provider = LatestStateProvider::new(Db { tx: 7 });
    assert_eq!(*provider.as_ref().tx(), 7);
    let empty = FlatPreState::new();
    assert!(empty.accounts.is_empty() && empty.contracts.is_empty() && empty.destructed_addresses.is_empty());
}

#[test]
fn pre_state_of_an_execution_holds_the_cached_accounts() {
    let state = ExecutedState {
        cache_accounts: vec![
            ([1; 20], CacheAccount {
                account: Some(PlainAccount {
                    info: AccountInfo { balance: [0; 32], nonce: 0, code_hash: [0; 32] },
                    storage: vec![([3; 32], [0; 32])],
                }),
                status: AccountStatus::Changed,
            }),
            ([2; 20], CacheAccount { account: None, status: AccountStatus::Destroyed }),
        ],
        cache_contracts: vec![],
        bundle_contracts: vec![],
        block_hash_numbers: vec![],
    };
    let mut record = FlatWitnessRecord::new();
    record.record_executed_state(&state);
    let db = Db { tx: 0 };
    let pre = LatestStateProviderRef::new(&db).flat_witness(&record, &reads());
    let mut addresses: Vec<[u8; 20]> = pre.accounts.iter().map(|(a, _)| *a).collect();
    addresses.sort();
    assert_eq!(addresses, vec![[1; 20], [2; 20]]);
    assert_eq!(pre.destructed_addresses, vec![[2; 20]]);
    let one = &pre.accounts.iter().find(|(a, _)| *a == [1; 20]).unwrap().1;
    assert_eq!(one.storage, vec![([3; 32], [33; 32])]);
}

#[test]
fn accounts_destroyed_then_changed_are_destructed() {
    for status in [AccountStatus::DestroyedChanged, AccountStatus::DestroyedAgain] {
        let state = ExecutedState {
            cache_accounts: vec![(
                [2; 20],
                CacheAccount {
                    account: Some(PlainAccount {
                        info: AccountInfo { balance: [0; 32], nonce: 0, code_hash: [0; 32] },
                        storage: vec![([3; 32], [0; 32])],
                    }),
                    status,
                },
            )],
            cache_contracts: vec![],
            bundle_contracts: vec![],
            block_hash_numbers: vec![],
        };
        let mut record = FlatWitnessRecord::new();
        record.record_executed_state(&state);
        let db = Db { tx: 0 };
        let pre = LatestStateProviderRef::new(&db).flat_witness(&record, &reads());
        assert_eq!(pre.destructed_addresses, vec![[2; 20]]);
    }
}

#[test]
fn recording_through_the_trait_gives_the_same_pre_state() {
    let db = Db { tx: 0 };
    let provider = LatestStateProviderRef::new(&db);
    let by_trait = RecordFlatWitness::flat_witness(&provider, &record(), &reads());
    let direct = provider.flat_witness(&record(), &reads());
    assert_eq!(by_trait.destructed_addresses, direct.destructed_addresses);
    assert_eq!(by_trait.accounts.len(), direct.accounts.len());
    assert_eq!(by_trait.contracts, direct.contracts);
    assert_eq!(by_trait.destructed_addresses, vec![[2; 20]]);
}
