//! Flat execution witnesses and the databases that stand behind their caches.

use stateless_witness::flat_execution_witness::{AlwaysFailError, FailingDB, FlatExecutionWitness as PlainFlatWitness};
use stateless_witness::flat_witness::{FlatExecutionWitness, NonCapturedStateError, SelfDestructCompatibleFailingDB};
use stateless_witness::provider::FlatPreState;
use stateless_witness::state::{AccountInfo, AccountState, DbAccount};

fn account() -> DbAccount {
    DbAccount {
        info: AccountInfo { balance: [1; 32], nonce: 1, code_hash: [2; 32] },
        account_state: AccountState::Touched,
        storage: vec![([1; 32], [2; 32])],
    }
}

#[test]
fn self_destructed_storage_reads_zero() {
    let db = SelfDestructCompatibleFailingDB::new(vec![[5; 20]]);
    assert_eq!(db.storage_ref([5; 20], [1; 32]).unwrap(), [0; 32]);
    assert!(db.storage_ref([6; 20], [1; 32]).is_err());
    assert!(db.basic_ref([5; 20]).is_err());
    assert!(db.code_by_hash_ref([0; 32]).is_err());
    assert!(db.block_hash_ref(1).is_err());
}

#[test]
fn witness_from_pre_state_builds_its_database() {
    let pre = FlatPreState {
        accounts: vec![([1; 20], account())],
        contracts: vec![([3; 32], vec![0x00])],
        destructed_addresses: vec![[9; 20]],
    };
    let w = FlatExecutionWitness::new(pre, vec![([0; 32], [4; 32])], alloy_consensus::Header::default());
    assert_eq!(w.state.accounts.len(), 1);
    assert_eq!(w.state.block_hashes, vec![([0; 32], [4; 32])]);
    assert_eq!(w.destructed_addresses, vec![[9; 20]]);
    let db = w.create_db();
    assert_eq!(db.cache.contracts, vec![([3; 32], vec![0x00])]);
    assert_eq!(db.db.storage_ref([9; 20], [7; 32]).unwrap(), [0; 32]);
    assert!(db.db.storage_ref([1; 20], [7; 32]).is_err());
}

#[test]
fn failing_database_fails_everything() {
    let mut db = FailingDB;
    assert!(db.basic([1; 20]).is_err());
    assert!(db.code_by_hash([1; 32]).is_err());
    assert!(db.storage([1; 20], [1; 32]).is_err());
    assert!(db.block_hash(3).is_err());
}

#[test]
fn plain_witness_database_copies_the_cache() {
    let w = PlainFlatWitness::new(vec![([1; 20], account())], vec![], vec![], alloy_consensus::Header::default());
    let db = w.create_db();
    assert_eq!(db.cache.accounts.len(), 1);
    assert_eq!(db.cache.accounts[0].1.storage, vec![([1; 32], [2; 32])]);
    assert_eq!(w.state.accounts.len(), 1);
}

#[test]
fn error_messages() {
    let msg = "Database access not allowed in stateless execution context";
    assert_eq!(NonCapturedStateError.to_string(), msg);
    assert_eq!(AlwaysFailError.to_string(), msg);
}
