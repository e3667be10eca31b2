//! Canonical encodings of flat-witness state: sorted on encoding, collected on decoding.

use stateless_witness::bincode::{CacheBincode, DbAccountBincode, HashedPostStateBincode, HashedStorageBincode};
use stateless_witness::state::{Account, AccountInfo, AccountState, Cache, DbAccount, HashedPostState, HashedStorage};

fn info(n: u8) -> AccountInfo {
    AccountInfo { balance: [n; 32], nonce: n as u64, code_hash: [n; 32] }
}

fn account(n: u8, storage: Vec<([u8; 32], [u8; 32])>) -> DbAccount {
    DbAccount { info: info(n), account_state: AccountState::Touched, storage }
}

#[test]
fn account_encoding_sorts_slots() {
    let a = account(1, vec![([3; 32], [30; 32]), ([1; 32], [10; 32]), ([2; 32], [20; 32])]);
    let enc = DbAccountBincode::from_account(a);
    let keys: Vec<u8> = enc.storage.iter().map(|(k, _)| k[0]).collect();
    assert_eq!(keys, vec![1, 2, 3]);
    assert_eq!(enc.info.nonce, 1);
    let back = DbAccount::from_bincode(enc);
    assert_eq!(back.storage.len(), 3);
}

#[test]
fn account_decoding_keeps_last_duplicate() {
    let enc = DbAccountBincode {
        info: info(2),
        account_state: AccountState::Untouched,
        storage: vec![([1; 32], [1; 32]), ([1; 32], [9; 32])],
    };
    let dec = DbAccount::from_bincode(enc);
    assert_eq!(dec.storage, vec![([1; 32], [9; 32])]);
    assert_eq!(dec.account_state, AccountState::Untouched);
}

#[test]
fn cache_roundtrip_keeps_contents() {
    let cache = Cache {
        accounts: vec![([9; 20], account(9, vec![([5; 32], [6; 32])])), ([1; 20], account(1, vec![]))],
        contracts: vec![([8; 32], vec![1, 2, 3]), ([2; 32], vec![4])],
        block_hashes: vec![([0; 32], [7; 32])],
    };
    let enc = CacheBincode::from_cache(&cache);
    assert_eq!(enc.accounts[0].0, [1; 20]);
    assert_eq!(enc.accounts[1].0, [9; 20]);
    assert_eq!(enc.contracts[0], ([2; 32], vec![4]));
    let dec = enc.into_cache();
    assert_eq!(dec.accounts.len(), 2);
    assert_eq!(dec.contracts.len(), 2);
    assert_eq!(dec.block_hashes, vec![([0; 32], [7; 32])]);
    let nine = dec.accounts.iter().find(|(a, _)| *a == [9; 20]).unwrap();
    assert_eq!(nine.1.storage, vec![([5; 32], [6; 32])]);
}

#[test]
fn hashed_state_encoding_sorts_everything() {
    let st = HashedPostState {
        accounts: vec![([3; 32], None), ([1; 32], Some(Account { nonce: 1, balance: [0; 32], bytecode_hash: None }))],
        storages: vec![([2; 32], HashedStorage { wiped: true, storage: vec![([9; 32], [1; 32]), ([4; 32], [2; 32])] })],
    };
    let enc = HashedPostStateBincode::from_state(st);
    assert_eq!(enc.accounts[0].0, [1; 32]);
    assert_eq!(enc.accounts[1].0, [3; 32]);
    assert!(enc.storages[0].1.wiped);
    assert_eq!(enc.storages[0].1.storage[0].0, [4; 32]);
    let s = HashedStorageBincode::from_storage(HashedStorage { wiped: false, storage: vec![([2; 32], [0; 32]), ([1; 32], [0; 32])] });
    assert_eq!(s.storage[0].0, [1; 32]);
    assert!(!s.wiped);
}
