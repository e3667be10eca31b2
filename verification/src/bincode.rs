//! The canonical binary-friendly form of the state cache and of a hashed post-state.
//!
//! Hash maps have no fixed iteration order, so each map is written as the list
//! of its pairs sorted by key. Equal maps thus always give equal encodings, and
//! reading an encoding back gives the maps it was made from.

use vstd::prelude::*;
use crate::bytes::{Address, B256, Word};
use crate::entries::{
    canonical_entries, collect_entries, entries_map, lemma_entries_map_values,
    lemma_entries_map_values_hold, lemma_listing_denotes, lemma_listing_unique, lemma_lists_map_values,
    lemma_sorted_lists_own_map, lists_map, map_entry_values, sorted_keys,
};
use crate::state::{
    account_model, code_view, hashed_storage_model, Account, AccountInfo, AccountState, Cache,
    CacheModel, DbAccount, DbAccountModel, HashedPostState, HashedPostStateModel, HashedStorage,
    HashedStorageModel,
};

verus! {

/// An account in canonical form: its storage slots sorted by key.
#[derive(Debug)]
pub struct DbAccountBincode {
    /// Basic account information.
    pub info: AccountInfo,
    /// How the EVM touched the account.
    pub account_state: AccountState,
    /// Storage slots, sorted by key.
    pub storage: Vec<(Word, Word)>,
}

/// The listing an encoded account holds.
pub struct DbAccountListing {
    /// Basic account information.
    pub info: AccountInfo,
    /// How the EVM touched the account.
    pub account_state: AccountState,
    /// Storage slots in the order written.
    pub storage: Seq<(Word, Word)>,
}

/// The model of an encoded account, as a function.
pub open spec fn bincode_account_model() -> spec_fn(DbAccountBincode) -> DbAccountModel {
    |a: DbAccountBincode| a.model()
}

/// The listing of an encoded account, as a function.
pub open spec fn bincode_account_listing() -> spec_fn(DbAccountBincode) -> DbAccountListing {
    |a: DbAccountBincode| a.listing()
}

/// Whether an encoded account is in canonical form, as a function.
pub open spec fn bincode_account_canonical() -> spec_fn(DbAccountBincode) -> bool {
    |a: DbAccountBincode| a.is_canonical()
}

impl DbAccountBincode {
    /// The account this encoding stands for.
    pub open spec fn model(self) -> DbAccountModel {
        DbAccountModel {
            info: self.info,
            account_state: self.account_state,
            storage: entries_map(self.storage@),
        }
    }

    /// What the encoding holds, in order.
    pub open spec fn listing(self) -> DbAccountListing {
        DbAccountListing { info: self.info, account_state: self.account_state, storage: self.storage@ }
    }

    /// The storage slots are sorted by key.
    pub open spec fn is_canonical(self) -> bool {
        sorted_keys(self.storage@)
    }

    /// Encodes an account: its storage slots are sorted by key.
    pub fn from_account(account: DbAccount) -> (r: DbAccountBincode)
        ensures
            r.info == account.info,
            r.account_state == account.account_state,
            lists_map(r.storage@, entries_map(account.storage@)),
    {
        let storage = canonical_entries(account.storage);
        DbAccountBincode { info: account.info, account_state: account.account_state, storage }
    }
}

impl DbAccount {
    /// Decodes an account: its storage slots are collected into a map.
    pub fn from_bincode(val: DbAccountBincode) -> (r: DbAccount)
        ensures
            r.wf(),
            r.model() == val.model(),
    {
        let storage = collect_entries(val.storage);
        DbAccount { info: val.info, account_state: val.account_state, storage }
    }
}

/// The state cache in canonical form: every map sorted by key.
#[derive(Debug)]
pub struct CacheBincode {
    /// Accounts, sorted by address.
    pub accounts: Vec<(Address, DbAccountBincode)>,
    /// Contract code by code hash, sorted by code hash.
    pub contracts: Vec<(B256, Vec<u8>)>,
    /// Block hashes by block number, sorted by block number.
    pub block_hashes: Vec<(Word, B256)>,
}

/// What an encoded state cache holds, in order.
pub struct CacheListing {
    /// Accounts in the order written.
    pub accounts: Seq<(Address, DbAccountListing)>,
    /// Contract code in the order written.
    pub contracts: Seq<(B256, Seq<u8>)>,
    /// Block hashes in the order written.
    pub block_hashes: Seq<(Word, B256)>,
}

impl CacheBincode {
    /// What the encoding holds, in order.
    pub open spec fn listing(self) -> CacheListing {
        CacheListing {
            accounts: map_entry_values(self.accounts@, bincode_account_listing()),
            contracts: map_entry_values(self.contracts@, code_view()),
            block_hashes: self.block_hashes@,
        }
    }

    /// The state cache the encoding stands for when read back.
    pub open spec fn denotes(self) -> CacheModel {
        CacheModel {
            accounts: entries_map(map_entry_values(self.accounts@, bincode_account_model())),
            contracts: entries_map(map_entry_values(self.contracts@, code_view())),
            block_hashes: entries_map(self.block_hashes@),
        }
    }

    /// The encoding is the canonical listing of `m`: each map sorted by key, with each
    /// account's storage sorted by key too.
    pub open spec fn lists(self, m: CacheModel) -> bool {
        &&& lists_map(map_entry_values(self.accounts@, bincode_account_model()), m.accounts)
        &&& forall|i: int| 0 <= i < self.accounts@.len() ==> (#[trigger] self.accounts@[i]).1.is_canonical()
        &&& lists_map(map_entry_values(self.contracts@, code_view()), m.contracts)
        &&& lists_map(self.block_hashes@, m.block_hashes)
    }

    /// Encodes a state cache; the logs it may hold are not part of the encoding.
    pub fn from_cache(cache: &Cache) -> (r: CacheBincode)
        ensures
            r.lists(cache.model()),
    {
        // accounts
        let mut accounts: Vec<(Address, DbAccountBincode)> = Vec::new();
        let mut i: usize = 0;
        while i < cache.accounts.len()
            invariant
                i <= cache.accounts@.len(),
                accounts@.len() == i,
                forall|j: int| 0 <= j < i ==> (#[trigger] accounts@[j]).0 == cache.accounts@[j].0
                    && accounts@[j].1.model() == cache.accounts@[j].1.model()
                    && accounts@[j].1.is_canonical(),
            decreases cache.accounts@.len() - i,
        {
            let key = cache.accounts[i].0;
            let acct = DbAccountBincode::from_account(cache.accounts[i].1.clone_account());
            proof {
                lemma_listing_denotes(acct.storage@, entries_map(cache.accounts@[i as int].1.storage@));
            }
            accounts.push((key, acct));
            i = i + 1;
        }
        let ghost conv = accounts@;
        assert(map_entry_values(conv, bincode_account_model()) =~= map_entry_values(cache.accounts@, account_model()));
        let accounts = canonical_entries(accounts);
        proof {
            lemma_lists_map_values(accounts@, entries_map(conv), bincode_account_model());
            lemma_entries_map_values(conv, bincode_account_model());
            assert(forall|j: int| 0 <= j < conv.len() ==> bincode_account_canonical()(#[trigger] conv[j].1));
            lemma_entries_map_values_hold(conv, bincode_account_canonical());
            assert forall|j: int| 0 <= j < accounts@.len() implies (#[trigger] accounts@[j]).1.is_canonical() by {
                assert(entries_map(conv).contains_key(accounts@[j].0));
                assert(bincode_account_canonical()(entries_map(conv)[accounts@[j].0]));
            }
        }
        // contracts
        let mut contracts: Vec<(B256, Vec<u8>)> = Vec::new();
        let mut i: usize = 0;
        while i < cache.contracts.len()
            invariant
                i <= cache.contracts@.len(),
                contracts@.len() == i,
                forall|j: int| 0 <= j < i ==> (#[trigger] contracts@[j]).0 == cache.contracts@[j].0
                    && contracts@[j].1@ == cache.contracts@[j].1@,
            decreases cache.contracts@.len() - i,
        {
            let key = cache.contracts[i].0;
            let code = crate::bytes::copy_bytes(cache.contracts[i].1.as_slice());
            contracts.push((key, code));
            i = i + 1;
        }
        let ghost cconv = contracts@;
        assert(map_entry_values(cconv, code_view()) =~= map_entry_values(cache.contracts@, code_view()));
        let contracts = canonical_entries(contracts);
        proof {
            lemma_lists_map_values(contracts@, entries_map(cconv), code_view());
            lemma_entries_map_values(cconv, code_view());
        }
        // block hashes
        let mut block_hashes: Vec<(Word, B256)> = Vec::new();
        let mut i: usize = 0;
        while i < cache.block_hashes.len()
            invariant
                i <= cache.block_hashes@.len(),
                block_hashes@ == cache.block_hashes@.subrange(0, i as int),
            decreases cache.block_hashes@.len() - i,
        {
            block_hashes.push(cache.block_hashes[i]);
            i = i + 1;
            assert(block_hashes@ =~= cache.block_hashes@.subrange(0, i as int));
        }
        assert(cache.block_hashes@.subrange(0, cache.block_hashes@.len() as int) =~= cache.block_hashes@);
        let block_hashes = canonical_entries(block_hashes);
        CacheBincode { accounts, contracts, block_hashes }
    }

    /// Decodes a state cache: every list is collected into a map, a later pair
    /// overriding an earlier one with the same key.
    pub fn into_cache(self) -> (r: Cache)
        ensures
            r.wf(),
            r.model() == self.denotes(),
    {
        let ghost orig = self.accounts@;
        let mut src = self.accounts;
        let mut accounts: Vec<(Address, DbAccount)> = Vec::new();
        while src.len() > 0
            invariant
                src@.len() + accounts@.len() == orig.len(),
                src@ == orig.subrange(accounts@.len() as int, orig.len() as int),
                forall|j: int| 0 <= j < accounts@.len() ==> (#[trigger] accounts@[j]).1.wf()
                    && accounts@[j].0 == orig[j].0
                    && accounts@[j].1.model() == orig[j].1.model(),
            decreases src@.len(),
        {
            let ghost n = accounts@.len();
            let (key, val) = src.remove(0);
            assert(orig[n as int] == (key, val));
            let acct = DbAccount::from_bincode(val);
            accounts.push((key, acct));
            assert(src@ =~= orig.subrange(accounts@.len() as int, orig.len() as int));
        }
        let ghost conv = accounts@;
        assert(map_entry_values(conv, account_model()) =~= map_entry_values(orig, bincode_account_model()));
        let accounts = collect_entries(accounts);
        let ghost collected = accounts@;
        proof {
            lemma_entries_map_values(conv, account_model());
            lemma_entries_map_values(collected, account_model());
            assert(forall|j: int| 0 <= j < conv.len() ==> account_wf()(#[trigger] conv[j].1));
            lemma_entries_map_values_hold(conv, account_wf());
            crate::entries::lemma_entries_map_distinct(collected);
            assert forall|j: int| 0 <= j < collected.len() implies (#[trigger] collected[j]).1.wf() by {
                assert(entries_map(conv).contains_key(collected[j].0));
                assert(account_wf()(entries_map(conv)[collected[j].0]));
            }
        }
        let contracts = collect_entries(self.contracts);
        let block_hashes = collect_entries(self.block_hashes);
        proof {
            lemma_entries_map_values(contracts@, code_view());
            lemma_entries_map_values(self.contracts@, code_view());
        }
        Cache { accounts, contracts, block_hashes }
    }
}

/// Whether an account lists each storage slot once, as a function.
pub open spec fn account_wf() -> spec_fn(DbAccount) -> bool {
    |a: DbAccount| a.wf()
}

/// Law: decoding the canonical encoding of a state cache gives back the cache:
/// whatever lists a cache model denotes that model.
pub proof fn lemma_cache_roundtrip(b: CacheBincode, m: CacheModel)
    requires
        b.lists(m),
    ensures
        b.denotes() == m,
{
    lemma_listing_denotes(map_entry_values(b.accounts@, bincode_account_model()), m.accounts);
    lemma_listing_denotes(map_entry_values(b.contracts@, code_view()), m.contracts);
    lemma_listing_denotes(b.block_hashes@, m.block_hashes);
}

/// Law: the canonical encoding of a state cache depends on the cache alone (not on the
/// order in which its maps happen to be walked): two encodings of one model hold the same listing.
pub proof fn lemma_cache_encoding_unique(b1: CacheBincode, b2: CacheBincode, m: CacheModel)
    requires
        b1.lists(m),
        b2.lists(m),
    ensures
        b1.listing() == b2.listing(),
{
    let s1 = map_entry_values(b1.accounts@, bincode_account_model());
    let s2 = map_entry_values(b2.accounts@, bincode_account_model());
    lemma_listing_unique(s1, s2, m.accounts);
    let l1 = map_entry_values(b1.accounts@, bincode_account_listing());
    let l2 = map_entry_values(b2.accounts@, bincode_account_listing());
    assert(l1.len() == l2.len());
    assert forall|i: int| 0 <= i < l1.len() implies #[trigger] l1[i] == l2[i] by {
        assert(s1[i] == s2[i]);
        let a1 = b1.accounts@[i].1;
        let a2 = b2.accounts@[i].1;
        assert(a1.is_canonical() && a2.is_canonical());
        lemma_sorted_lists_own_map(a1.storage@);
        lemma_sorted_lists_own_map(a2.storage@);
        assert(a1.model().storage == a2.model().storage);
        lemma_listing_unique(a1.storage@, a2.storage@, entries_map(a1.storage@));
    }
    assert(l1 =~= l2);
    lemma_listing_unique(
        map_entry_values(b1.contracts@, code_view()),
        map_entry_values(b2.contracts@, code_view()),
        m.contracts,
    );
    lemma_listing_unique(b1.block_hashes@, b2.block_hashes@, m.block_hashes);
}

/// Law: decoding the canonical encoding of an account gives back the account, and the
/// encoding of an account depends on the account alone.
pub proof fn lemma_account_roundtrip(a: DbAccountBincode, b: DbAccountBincode, m: DbAccountModel)
    requires
        a.is_canonical(),
        b.is_canonical(),
        a.model() == m,
        b.model() == m,
    ensures
        a.listing() == b.listing(),
{
    lemma_sorted_lists_own_map(a.storage@);
    lemma_sorted_lists_own_map(b.storage@);
    lemma_listing_unique(a.storage@, b.storage@, m.storage);
}

/// A hashed storage in canonical form: slots sorted by hashed key.
#[derive(Debug)]
pub struct HashedStorageBincode {
    /// Whether the storage was wiped.
    pub wiped: bool,
    /// Storage values, sorted by hashed slot.
    pub storage: Vec<(B256, Word)>,
}

/// The listing an encoded hashed storage holds.
pub struct HashedStorageListing {
    /// Whether the storage was wiped.
    pub wiped: bool,
    /// Storage values in the order written.
    pub storage: Seq<(B256, Word)>,
}

/// The model of an encoded hashed storage, as a function.
pub open spec fn bincode_storage_model() -> spec_fn(HashedStorageBincode) -> HashedStorageModel {
    |h: HashedStorageBincode| h.model()
}

/// The listing of an encoded hashed storage, as a function.
pub open spec fn bincode_storage_listing() -> spec_fn(HashedStorageBincode) -> HashedStorageListing {
    |h: HashedStorageBincode| HashedStorageListing { wiped: h.wiped, storage: h.storage@ }
}

/// Whether an encoded hashed storage is in canonical form, as a function.
pub open spec fn bincode_storage_canonical() -> spec_fn(HashedStorageBincode) -> bool {
    |h: HashedStorageBincode| sorted_keys(h.storage@)
}

impl HashedStorageBincode {
    /// The hashed storage this encoding stands for.
    pub open spec fn model(self) -> HashedStorageModel {
        HashedStorageModel { wiped: self.wiped, storage: entries_map(self.storage@) }
    }

    /// Encodes a hashed storage: its slots are sorted by hashed key.
    pub fn from_storage(storage: HashedStorage) -> (r: HashedStorageBincode)
        ensures
            r.wiped == storage.wiped,
            lists_map(r.storage@, entries_map(storage.storage@)),
    {
        let sorted = canonical_entries(storage.storage);
        HashedStorageBincode { wiped: storage.wiped, storage: sorted }
    }
}

/// A hashed post-state in canonical form: accounts and storages sorted by hashed address.
#[derive(Debug)]
pub struct HashedPostStateBincode {
    /// Accounts, sorted by hashed address.
    pub accounts: Vec<(B256, Option<Account>)>,
    /// Storages, sorted by hashed address.
    pub storages: Vec<(B256, HashedStorageBincode)>,
}

/// What an encoded hashed post-state holds, in order.
pub struct HashedPostStateListing {
    /// Accounts in the order written.
    pub accounts: Seq<(B256, Option<Account>)>,
    /// Storages in the order written.
    pub storages: Seq<(B256, HashedStorageListing)>,
}

impl HashedPostStateBincode {
    /// What the encoding holds, in order.
    pub open spec fn listing(self) -> HashedPostStateListing {
        HashedPostStateListing {
            accounts: self.accounts@,
            storages: map_entry_values(self.storages@, bincode_storage_listing()),
        }
    }

    /// The encoding is the canonical listing of `m`.
    pub open spec fn lists(self, m: HashedPostStateModel) -> bool {
        &&& lists_map(self.accounts@, m.accounts)
        &&& lists_map(map_entry_values(self.storages@, bincode_storage_model()), m.storages)
        &&& forall|i: int| 0 <= i < self.storages@.len() ==> sorted_keys((#[trigger] self.storages@[i]).1.storage@)
    }

    /// Encodes a hashed post-state: accounts and storages sorted by hashed address,
    /// each storage's slots sorted by hashed key.
    pub fn from_state(state: HashedPostState) -> (r: HashedPostStateBincode)
        ensures
            r.lists(state.model()),
    {
        let accounts = canonical_entries(state.accounts);
        let ghost orig = state.storages@;
        let mut src = state.storages;
        let mut storages: Vec<(B256, HashedStorageBincode)> = Vec::new();
        while src.len() > 0
            invariant
                src@.len() + storages@.len() == orig.len(),
                src@ == orig.subrange(storages@.len() as int, orig.len() as int),
                forall|j: int| 0 <= j < storages@.len() ==> (#[trigger] storages@[j]).0 == orig[j].0
                    && storages@[j].1.model() == orig[j].1.model()
                    && sorted_keys(storages@[j].1.storage@),
            decreases src@.len(),
        {
            let ghost n = storages@.len();
            let (key, val) = src.remove(0);
            assert(orig[n as int] == (key, val));
            let enc = HashedStorageBincode::from_storage(val);
            proof {
                lemma_listing_denotes(enc.storage@, entries_map(orig[n as int].1.storage@));
            }
            storages.push((key, enc));
            assert(src@ =~= orig.subrange(storages@.len() as int, orig.len() as int));
        }
        let ghost conv = storages@;
        assert(map_entry_values(conv, bincode_storage_model()) =~= map_entry_values(orig, hashed_storage_model()));
        let storages = canonical_entries(storages);
        proof {
            lemma_lists_map_values(storages@, entries_map(conv), bincode_storage_model());
            lemma_entries_map_values(conv, bincode_storage_model());
            assert(forall|j: int| 0 <= j < conv.len() ==> bincode_storage_canonical()(#[trigger] conv[j].1));
            lemma_entries_map_values_hold(conv, bincode_storage_canonical());
            assert forall|j: int| 0 <= j < storages@.len() implies sorted_keys((#[trigger] storages@[j]).1.storage@) by {
                assert(entries_map(conv).contains_key(storages@[j].0));
                assert(bincode_storage_canonical()(entries_map(conv)[storages@[j].0]));
            }
        }
        HashedPostStateBincode { accounts, storages }
    }
}

/// Law: the canonical encoding of a hashed post-state depends on the state alone:
/// two encodings of one model hold the same listing.
pub proof fn lemma_post_state_encoding_unique(b1: HashedPostStateBincode, b2: HashedPostStateBincode, m: HashedPostStateModel)
    requires
        b1.lists(m),
        b2.lists(m),
    ensures
        b1.listing() == b2.listing(),
{
    lemma_listing_unique(b1.accounts@, b2.accounts@, m.accounts);
    let s1 = map_entry_values(b1.storages@, bincode_storage_model());
    let s2 = map_entry_values(b2.storages@, bincode_storage_model());
    lemma_listing_unique(s1, s2, m.storages);
    let l1 = map_entry_values(b1.storages@, bincode_storage_listing());
    let l2 = map_entry_values(b2.storages@, bincode_storage_listing());
    assert forall|i: int| 0 <= i < l1.len() implies #[trigger] l1[i] == l2[i] by {
        assert(s1[i] == s2[i]);
        let a1 = b1.storages@[i].1;
        let a2 = b2.storages@[i].1;
        lemma_sorted_lists_own_map(a1.storage@);
        lemma_sorted_lists_own_map(a2.storage@);
        assert(a1.model().storage == a2.model().storage);
        lemma_listing_unique(a1.storage@, a2.storage@, entries_map(a1.storage@));
    }
    assert(l1 =~= l2);
}

} // verus!
