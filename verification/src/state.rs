//! The execution state that witnesses carry: accounts, their storage, contract
//! code and block hashes, held as plain values.

use vstd::prelude::*;
use crate::bytes::{copy_bytes, Address, B256, Word};
use crate::entries::{distinct_keys, entries_map, map_entry_values};

verus! {

/// Basic account information, compared (as the EVM compares it) by balance, nonce and code hash.
#[derive(Clone, Copy, Debug)]
pub struct AccountInfo {
    /// Account balance, a big-endian 256-bit word.
    pub balance: Word,
    /// Account nonce.
    pub nonce: u64,
    /// Hash of the account's code.
    pub code_hash: B256,
}

/// How the EVM has touched a cached account.
#[derive(Clone, Copy, Debug, PartialEq, Eq, Structural)]
pub enum AccountState {
    /// The account does not exist (a distinction kept for forks before Spurious Dragon).
    NotExisting,
    /// The EVM touched the account.
    Touched,
    /// The EVM cleared the account's storage, mostly by self-destruct.
    StorageCleared,
    /// The EVM did not interact with the account.
    Untouched,
}

/// A cached account: its information, state and storage slots.
#[derive(Debug)]
pub struct DbAccount {
    /// Basic account information.
    pub info: AccountInfo,
    /// How the EVM touched the account.
    pub account_state: AccountState,
    /// Storage slots, as pairs of big-endian slot key and value.
    pub storage: Vec<(Word, Word)>,
}

/// What a cached account stands for: its storage taken as a map.
pub struct DbAccountModel {
    /// Basic account information.
    pub info: AccountInfo,
    /// How the EVM touched the account.
    pub account_state: AccountState,
    /// Storage slots by key.
    pub storage: Map<Word, Word>,
}

impl DbAccount {
    /// What the account stands for.
    pub open spec fn model(self) -> DbAccountModel {
        DbAccountModel {
            info: self.info,
            account_state: self.account_state,
            storage: entries_map(self.storage@),
        }
    }

    /// No storage slot is listed twice.
    pub open spec fn wf(self) -> bool {
        distinct_keys(self.storage@)
    }

    /// A copy of the account.
    pub fn clone_account(&self) -> (r: DbAccount)
        ensures
            r.info == self.info,
            r.account_state == self.account_state,
            r.storage@ == self.storage@,
    {
        let mut storage: Vec<(Word, Word)> = Vec::new();
        let mut i: usize = 0;
        while i < self.storage.len()
            invariant
                i <= self.storage@.len(),
                storage@ == self.storage@.subrange(0, i as int),
            decreases self.storage@.len() - i,
        {
            storage.push(self.storage[i]);
            i = i + 1;
            assert(storage@ =~= self.storage@.subrange(0, i as int));
        }
        assert(self.storage@.subrange(0, self.storage@.len() as int) =~= self.storage@);
        DbAccount { info: self.info, account_state: self.account_state, storage }
    }
}

/// The state cache of an in-memory database: accounts, contract code by hash and block hashes.
#[derive(Debug)]
pub struct Cache {
    /// Accounts by address.
    pub accounts: Vec<(Address, DbAccount)>,
    /// Contract code (its original bytes) by code hash.
    pub contracts: Vec<(B256, Vec<u8>)>,
    /// Block hashes by block number, the number as a big-endian 256-bit word.
    pub block_hashes: Vec<(Word, B256)>,
}

/// What a state cache stands for.
pub struct CacheModel {
    /// Accounts by address.
    pub accounts: Map<Address, DbAccountModel>,
    /// Contract code by code hash.
    pub contracts: Map<B256, Seq<u8>>,
    /// Block hashes by block number.
    pub block_hashes: Map<Word, B256>,
}

/// The model of an account, as a function.
pub open spec fn account_model() -> spec_fn(DbAccount) -> DbAccountModel {
    |a: DbAccount| a.model()
}

/// The bytes a code vector holds, as a function.
pub open spec fn code_view() -> spec_fn(Vec<u8>) -> Seq<u8> {
    |c: Vec<u8>| c@
}

impl Cache {
    /// What the cache stands for.
    pub open spec fn model(self) -> CacheModel {
        CacheModel {
            accounts: entries_map(map_entry_values(self.accounts@, account_model())),
            contracts: entries_map(map_entry_values(self.contracts@, code_view())),
            block_hashes: entries_map(self.block_hashes@),
        }
    }

    /// Every map of the cache lists each key once, and so does each account's storage.
    pub open spec fn wf(self) -> bool {
        &&& distinct_keys(self.accounts@)
        &&& distinct_keys(self.contracts@)
        &&& distinct_keys(self.block_hashes@)
        &&& forall|i: int| 0 <= i < self.accounts@.len() ==> (#[trigger] self.accounts@[i]).1.wf()
    }
}

impl Cache {
    /// A copy of the cache: the same accounts, code and block hashes, listed in the same order.
    pub fn duplicate(&self) -> (r: Cache)
        ensures
            r.accounts@.len() == self.accounts@.len(),
            forall|i: int| #![trigger r.accounts@[i]] 0 <= i < r.accounts@.len() ==> {
                &&& r.accounts@[i].0 == self.accounts@[i].0
                &&& r.accounts@[i].1.info == self.accounts@[i].1.info
                &&& r.accounts@[i].1.account_state == self.accounts@[i].1.account_state
                &&& r.accounts@[i].1.storage@ == self.accounts@[i].1.storage@
            },
            map_entry_values(r.contracts@, code_view()) == map_entry_values(self.contracts@, code_view()),
            r.block_hashes@ == self.block_hashes@,
            r.model() == self.model(),
            r.wf() == self.wf(),
    {
        let mut accounts: Vec<(Address, DbAccount)> = Vec::new();
        let mut i: usize = 0;
        while i < self.accounts.len()
            invariant
                i <= self.accounts@.len(),
                accounts@.len() == i,
                forall|j: int| #![trigger accounts@[j]] 0 <= j < i ==> {
                    &&& accounts@[j].0 == self.accounts@[j].0
                    &&& accounts@[j].1.info == self.accounts@[j].1.info
                    &&& accounts@[j].1.account_state == self.accounts@[j].1.account_state
                    &&& accounts@[j].1.storage@ == self.accounts@[j].1.storage@
                },
            decreases self.accounts@.len() - i,
        {
            let a = self.accounts[i].1.clone_account();
            accounts.push((self.accounts[i].0, a));
            i = i + 1;
        }
        let mut contracts: Vec<(B256, Vec<u8>)> = Vec::new();
        let mut i: usize = 0;
        while i < self.contracts.len()
            invariant
                i <= self.contracts@.len(),
                contracts@.len() == i,
                forall|j: int| #![trigger contracts@[j]] 0 <= j < i ==> contracts@[j].0 == self.contracts@[j].0
                    && contracts@[j].1@ == self.contracts@[j].1@,
            decreases self.contracts@.len() - i,
        {
            let c = copy_bytes(self.contracts[i].1.as_slice());
            contracts.push((self.contracts[i].0, c));
            i = i + 1;
        }
        let mut block_hashes: Vec<(Word, B256)> = Vec::new();
        let mut i: usize = 0;
        while i < self.block_hashes.len()
            invariant
                i <= self.block_hashes@.len(),
                block_hashes@ == self.block_hashes@.take(i as int),
            decreases self.block_hashes@.len() - i,
        {
            block_hashes.push(self.block_hashes[i]);
            i = i + 1;
            assert(block_hashes@ =~= self.block_hashes@.take(i as int));
        }
        assert(self.block_hashes@.take(self.block_hashes@.len() as int) =~= self.block_hashes@);
        let r = Cache { accounts, contracts, block_hashes };
        proof {
            assert(map_entry_values(r.accounts@, account_model()) =~= map_entry_values(self.accounts@, account_model()));
            assert(map_entry_values(r.contracts@, code_view()) =~= map_entry_values(self.contracts@, code_view()));
            assert(r.model() =~= self.model()) by {
                assert(r.model().accounts == self.model().accounts);
                assert(r.model().contracts == self.model().contracts);
            }
            assert(distinct_keys(r.accounts@) == distinct_keys(self.accounts@)) by {
                if distinct_keys(self.accounts@) {
                    assert forall|i: int, j: int| #![trigger r.accounts@[i], r.accounts@[j]] 0 <= i < j < r.accounts@.len() implies r.accounts@[i].0 != r.accounts@[j].0 by {
                        assert(self.accounts@[i].0 != self.accounts@[j].0);
                    }
                }
                if distinct_keys(r.accounts@) {
                    assert forall|i: int, j: int| #![trigger self.accounts@[i], self.accounts@[j]] 0 <= i < j < self.accounts@.len() implies self.accounts@[i].0 != self.accounts@[j].0 by {
                        assert(r.accounts@[i].0 != r.accounts@[j].0);
                    }
                }
            }
            assert(distinct_keys(r.contracts@) == distinct_keys(self.contracts@)) by {
                if distinct_keys(self.contracts@) {
                    assert forall|i: int, j: int| #![trigger r.contracts@[i], r.contracts@[j]] 0 <= i < j < r.contracts@.len() implies r.contracts@[i].0 != r.contracts@[j].0 by {
                        assert(self.contracts@[i].0 != self.contracts@[j].0);
                    }
                }
                if distinct_keys(r.contracts@) {
                    assert forall|i: int, j: int| #![trigger self.contracts@[i], self.contracts@[j]] 0 <= i < j < self.contracts@.len() implies self.contracts@[i].0 != self.contracts@[j].0 by {
                        assert(r.contracts@[i].0 != r.contracts@[j].0);
                    }
                }
            }
            if forall|i: int| 0 <= i < self.accounts@.len() ==> (#[trigger] self.accounts@[i]).1.wf() {
                assert forall|i: int| 0 <= i < r.accounts@.len() implies (#[trigger] r.accounts@[i]).1.wf() by {
                    assert(self.accounts@[i].1.wf());
                }
            }
            if forall|i: int| 0 <= i < r.accounts@.len() ==> (#[trigger] r.accounts@[i]).1.wf() {
                assert forall|i: int| 0 <= i < self.accounts@.len() implies (#[trigger] self.accounts@[i]).1.wf() by {
                    assert(r.accounts@[i].1.wf());
                }
            }
        }
        r
    }
}

/// An account as the state trie records it.
#[derive(Clone, Copy, Debug)]
pub struct Account {
    /// Account nonce.
    pub nonce: u64,
    /// Account balance, a big-endian 256-bit word.
    pub balance: Word,
    /// Hash of the account's code; absent when the account has no code.
    pub bytecode_hash: Option<B256>,
}

/// The storage of one account after execution, under hashed slot keys.
#[derive(Debug)]
pub struct HashedStorage {
    /// Whether the storage was wiped (the account was destroyed).
    pub wiped: bool,
    /// Storage values by hashed slot.
    pub storage: Vec<(B256, Word)>,
}

/// The state after execution under hashed keys: accounts and storages by hashed address.
#[derive(Debug)]
pub struct HashedPostState {
    /// Accounts by hashed address; `None` marks a destroyed or absent account.
    pub accounts: Vec<(B256, Option<Account>)>,
    /// Storages by hashed address.
    pub storages: Vec<(B256, HashedStorage)>,
}

/// What a hashed storage stands for.
pub struct HashedStorageModel {
    /// Whether the storage was wiped.
    pub wiped: bool,
    /// Storage values by hashed slot.
    pub storage: Map<B256, Word>,
}

/// What a hashed post-state stands for.
pub struct HashedPostStateModel {
    /// Accounts by hashed address.
    pub accounts: Map<B256, Option<Account>>,
    /// Storages by hashed address.
    pub storages: Map<B256, HashedStorageModel>,
}

/// The model of a hashed storage, as a function.
pub open spec fn hashed_storage_model() -> spec_fn(HashedStorage) -> HashedStorageModel {
    |h: HashedStorage| h.model()
}

impl HashedStorage {
    /// No hashed slot is listed twice.
    pub open spec fn wf(self) -> bool {
        distinct_keys(self.storage@)
    }

    /// What the hashed storage stands for.
    pub open spec fn model(self) -> HashedStorageModel {
        HashedStorageModel { wiped: self.wiped, storage: entries_map(self.storage@) }
    }
}

impl HashedPostState {
    /// No hashed address is listed twice in either map, nor any slot twice in a storage.
    pub open spec fn wf(self) -> bool {
        &&& distinct_keys(self.accounts@)
        &&& distinct_keys(self.storages@)
        &&& forall|i: int| 0 <= i < self.storages@.len() ==> (#[trigger] self.storages@[i]).1.wf()
    }

    /// What the hashed post-state stands for.
    pub open spec fn model(self) -> HashedPostStateModel {
        HashedPostStateModel {
            accounts: entries_map(self.accounts@),
            storages: entries_map(map_entry_values(self.storages@, hashed_storage_model())),
        }
    }
}

} // verus!
