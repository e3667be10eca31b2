//! Recording what block execution touched: the hashed post-state, the code and the
//! key preimages for an execution witness, and the accessed accounts, storage slots
//! and code for a flat witness.

use vstd::prelude::*;
use crate::bytes::{bytes_eq, copy_bytes, empty_code_hash, keccak, keccak256, keccak_empty_hash, Address, B256, Word};
use crate::entries::{
    collect_entries, distinct_keys, entries_insert, entries_map, find_key, lemma_entries_map_update,
    lemma_entries_map_values, lemma_map_values_distinct, lemma_view_keys_distinct,
    lemma_view_keys_same_map, map_entry_values, view_keys,
};
use crate::state::{Account, AccountInfo, HashedPostState, HashedStorage};

verus! {

broadcast use vstd::array::group_array_axioms;

/// Account status flags of the state cache.
#[derive(Clone, Copy, Debug, PartialEq, Eq, Structural)]
pub enum AccountStatus {
    /// Loaded, but the account does not exist.
    LoadedNotExisting,
    /// Loaded, and the account exists.
    Loaded,
    /// Loaded and empty, as per EIP-161.
    LoadedEmptyEIP161,
    /// Changed in memory only.
    InMemoryChange,
    /// Changed.
    Changed,
    /// Destroyed.
    Destroyed,
    /// Destroyed and then changed.
    DestroyedChanged,
    /// Destroyed again.
    DestroyedAgain,
}

impl AccountStatus {
    /// The account was destroyed by SELFDESTRUCT.
    pub open spec fn spec_was_destroyed(self) -> bool {
        self == AccountStatus::Destroyed || self == AccountStatus::DestroyedChanged
            || self == AccountStatus::DestroyedAgain
    }

    /// Returns whether the account was destroyed by SELFDESTRUCT.
    pub fn was_destroyed(&self) -> (r: bool)
        ensures
            r == self.spec_was_destroyed(),
    {
        match self {
            AccountStatus::Destroyed | AccountStatus::DestroyedChanged | AccountStatus::DestroyedAgain => true,
            _ => false,
        }
    }
}

/// An existing account of the state cache: its information and the storage slots it holds.
#[derive(Debug)]
pub struct PlainAccount {
    /// Account information.
    pub info: AccountInfo,
    /// Storage slots, as pairs of big-endian slot key and value.
    pub storage: Vec<(Word, Word)>,
}

/// An account of the state cache.
#[derive(Debug)]
pub struct CacheAccount {
    /// The account, if it exists.
    pub account: Option<PlainAccount>,
    /// Status flags.
    pub status: AccountStatus,
}

/// The state left by executing a block, as witness recording reads it.
#[derive(Debug)]
pub struct ExecutedState {
    /// Accounts of the state cache.
    pub cache_accounts: Vec<(Address, CacheAccount)>,
    /// Code (original bytes) of the contracts in the state cache.
    pub cache_contracts: Vec<Vec<u8>>,
    /// Code (original bytes) of the contracts in the bundle state, such as contracts
    /// created within the block.
    pub bundle_contracts: Vec<Vec<u8>>,
    /// Block numbers whose hashes the `BLOCKHASH` opcode looked up.
    pub block_hash_numbers: Vec<u64>,
}

/// Tracks state changes during execution, for building an execution witness.
#[derive(Debug)]
pub struct ExecutionWitnessRecord {
    /// Records all state changes.
    pub hashed_state: HashedPostState,
    /// Code of every contract created or accessed.
    pub codes: Vec<Vec<u8>>,
    /// Preimages of the hashed account and storage keys: addresses and storage slots.
    pub keys: Vec<Vec<u8>>,
    /// The lowest block number referenced by the `BLOCKHASH` opcode, if any.
    pub lowest_block_number: Option<u64>,
}

/// The bytes of each byte vector.
pub open spec fn bytes_view(v: Seq<Vec<u8>>) -> Seq<Seq<u8>> {
    v.map_values(|c: Vec<u8>| c@)
}

/// The trie account of an account record: the code hash is dropped when it is the hash of empty code.
pub open spec fn info_to_account(info: AccountInfo) -> Account {
    Account {
        nonce: info.nonce,
        balance: info.balance,
        bytecode_hash: if info.code_hash == empty_code_hash() { None } else { Some(info.code_hash) },
    }
}

/// Returns the trie account of an account record.
pub fn account_from_info(info: &AccountInfo) -> (r: Account)
    ensures
        r == info_to_account(*info),
{
    let empty = keccak_empty_hash();
    let is_empty = bytes_eq(info.code_hash.as_slice(), empty.as_slice());
    assert(is_empty <==> info.code_hash == empty) by {
        if is_empty {
            assert(info.code_hash =~= empty);
        }
    }
    Account {
        nonce: info.nonce,
        balance: info.balance,
        bytecode_hash: if is_empty { None } else { Some(info.code_hash) },
    }
}

/// A hashed storage taken by its bytes.
pub open spec fn hashed_storage_bytes() -> spec_fn(HashedStorage) -> (bool, Map<Seq<u8>, Word>) {
    |h: HashedStorage| (h.wiped, entries_map(view_keys(h.storage@)))
}

/// Hashed accounts by the bytes of their hashed address.
pub open spec fn hashed_accounts_view(s: HashedPostState) -> Map<Seq<u8>, Option<Account>> {
    entries_map(view_keys(s.accounts@))
}

/// Hashed storages by the bytes of their hashed address.
pub open spec fn hashed_storages_view(s: HashedPostState) -> Map<Seq<u8>, (bool, Map<Seq<u8>, Word>)> {
    entries_map(view_keys(map_entry_values(s.storages@, hashed_storage_bytes())))
}

/// The trie account recorded for a cache account.
pub open spec fn recorded_account(a: CacheAccount) -> Option<Account> {
    match a.account {
        Some(p) => Some(info_to_account(p.info)),
        None => None,
    }
}

/// Hashed accounts after recording `accts` in order on top of `m`.
pub open spec fn recorded_accounts(m: Map<Seq<u8>, Option<Account>>, accts: Seq<(Address, CacheAccount)>) -> Map<Seq<u8>, Option<Account>>
    decreases accts.len(),
{
    if accts.len() == 0 {
        m
    } else {
        let last = accts.last();
        recorded_accounts(m, accts.drop_last()).insert(keccak(last.0@), recorded_account(last.1))
    }
}

/// Storage slots under their hashed keys.
pub open spec fn hashed_slots(storage: Seq<(Word, Word)>) -> Seq<(Seq<u8>, Word)> {
    storage.map_values(|e: (Word, Word)| (keccak(e.0@), e.1))
}

/// The hashed storage recorded for an account, on top of `prev`.
pub open spec fn recorded_storage(prev: Map<Seq<u8>, (bool, Map<Seq<u8>, Word>)>, a: (Address, CacheAccount)) -> (bool, Map<Seq<u8>, Word>) {
    let h = keccak(a.0@);
    let base = if prev.contains_key(h) { prev[h] } else { (a.1.status.spec_was_destroyed(), Map::empty()) };
    match a.1.account {
        Some(p) => (base.0, base.1.union_prefer_right(entries_map(hashed_slots(p.storage@)))),
        None => base,
    }
}

/// Hashed storages after recording `accts` in order on top of `m`: an account's storage
/// entry is created (wiped when the account was destroyed) if missing, and its slots
/// are written under their hashed keys.
pub open spec fn recorded_storages(m: Map<Seq<u8>, (bool, Map<Seq<u8>, Word>)>, accts: Seq<(Address, CacheAccount)>) -> Map<Seq<u8>, (bool, Map<Seq<u8>, Word>)>
    decreases accts.len(),
{
    if accts.len() == 0 {
        m
    } else {
        let prev = recorded_storages(m, accts.drop_last());
        prev.insert(keccak(accts.last().0@), recorded_storage(prev, accts.last()))
    }
}

/// The hashed account recorded under an address's hash is that of the last account recorded
/// under that hash: none for an account the cache holds as absent, else its nonce and
/// balance, with its code hash unless that is the hash of empty code.
pub proof fn lemma_recorded_accounts_last(m: Map<Seq<u8>, Option<Account>>, accts: Seq<(Address, CacheAccount)>, i: int)
    requires
        0 <= i < accts.len(),
        forall|j: int| i < j < accts.len() ==> keccak((#[trigger] accts[j]).0@) != keccak(accts[i].0@),
    ensures
        recorded_accounts(m, accts).contains_key(keccak(accts[i].0@)),
        match accts[i].1.account {
            None => recorded_accounts(m, accts)[keccak(accts[i].0@)] is None,
            Some(p) => recorded_accounts(m, accts)[keccak(accts[i].0@)] matches Some(acc) && {
                &&& acc.nonce == p.info.nonce
                &&& acc.balance == p.info.balance
                &&& p.info.code_hash == empty_code_hash() ==> acc.bytecode_hash is None
                &&& p.info.code_hash != empty_code_hash() ==> acc.bytecode_hash == Some(p.info.code_hash)
            },
        },
    decreases accts.len(),
{
    if i < accts.len() - 1 {
        let init = accts.drop_last();
        assert(init[i] == accts[i]);
        assert forall|j: int| i < j < init.len() implies keccak((#[trigger] init[j]).0@) != keccak(init[i].0@) by {
            assert(init[j] == accts[j]);
        }
        lemma_recorded_accounts_last(m, init, i);
        assert(keccak(accts[accts.len() - 1].0@) != keccak(accts[i].0@));
    }
}

/// Recording accounts whose hashed addresses differ from `h` adds no storage entry under `h`.
proof fn lemma_recorded_storages_absent(m: Map<Seq<u8>, (bool, Map<Seq<u8>, Word>)>, accts: Seq<(Address, CacheAccount)>, h: Seq<u8>)
    requires
        !m.contains_key(h),
        forall|j: int| 0 <= j < accts.len() ==> keccak((#[trigger] accts[j]).0@) != h,
    ensures
        !recorded_storages(m, accts).contains_key(h),
    decreases accts.len(),
{
    if accts.len() > 0 {
        let init = accts.drop_last();
        assert forall|j: int| 0 <= j < init.len() implies keccak((#[trigger] init[j]).0@) != h by {
            assert(init[j] == accts[j]);
        }
        lemma_recorded_storages_absent(m, init, h);
        assert(keccak(accts[accts.len() - 1].0@) != h);
    }
}

/// The storage entry recorded for a destroyed account is wiped: when an account is the first
/// recorded under its hashed address and the starting entries hold none there, its entry
/// in the hashed post-state is wiped exactly when its status is `Destroyed`,
/// `DestroyedChanged` or `DestroyedAgain`, whatever accounts are recorded after it.
pub proof fn lemma_recorded_storages_wiped(m: Map<Seq<u8>, (bool, Map<Seq<u8>, Word>)>, accts: Seq<(Address, CacheAccount)>, i: int)
    requires
        0 <= i < accts.len(),
        !m.contains_key(keccak(accts[i].0@)),
        forall|j: int| 0 <= j < i ==> keccak((#[trigger] accts[j]).0@) != keccak(accts[i].0@),
    ensures
        recorded_storages(m, accts).contains_key(keccak(accts[i].0@)),
        recorded_storages(m, accts)[keccak(accts[i].0@)].0 == (accts[i].1.status == AccountStatus::Destroyed
            || accts[i].1.status == AccountStatus::DestroyedChanged || accts[i].1.status == AccountStatus::DestroyedAgain),
    decreases accts.len(),
{
    let h = keccak(accts[i].0@);
    let init = accts.drop_last();
    let prev = recorded_storages(m, init);
    if i == accts.len() - 1 {
        assert forall|j: int| 0 <= j < init.len() implies keccak((#[trigger] init[j]).0@) != h by {
            assert(init[j] == accts[j]);
        }
        lemma_recorded_storages_absent(m, init, h);
        assert(!prev.contains_key(h));
    } else {
        assert(init[i] == accts[i]);
        assert forall|j: int| 0 <= j < i implies keccak((#[trigger] init[j]).0@) != keccak(init[i].0@) by {
            assert(init[j] == accts[j]);
        }
        lemma_recorded_storages_wiped(m, init, i);
        assert(prev.contains_key(h));
    }
}

/// The key preimages recorded for an account: its address, then its storage slots.
pub open spec fn keys_of(a: (Address, CacheAccount)) -> Seq<Seq<u8>> {
    match a.1.account {
        Some(p) => seq![a.0@] + p.storage@.map_values(|e: (Word, Word)| e.0@),
        None => Seq::empty(),
    }
}

/// The key preimages recorded for `accts` in order.
pub open spec fn recorded_keys(accts: Seq<(Address, CacheAccount)>) -> Seq<Seq<u8>>
    decreases accts.len(),
{
    if accts.len() == 0 {
        Seq::empty()
    } else {
        recorded_keys(accts.drop_last()) + keys_of(accts.last())
    }
}

/// The smallest of the numbers, if any.
pub open spec fn lowest_number(ns: Seq<u64>) -> Option<u64>
    decreases ns.len(),
{
    if ns.len() == 0 {
        None
    } else {
        match lowest_number(ns.drop_last()) {
            None => Some(ns.last()),
            Some(m) => Some(if ns.last() < m { ns.last() } else { m }),
        }
    }
}

/// `lowest_number` is the minimum.
pub proof fn lemma_lowest_number(ns: Seq<u64>)
    ensures
        lowest_number(ns) is None <==> ns.len() == 0,
        lowest_number(ns) matches Some(m) ==> ns.contains(m) && forall|i: int| 0 <= i < ns.len() ==> m <= #[trigger] ns[i],
    decreases ns.len(),
{
    if ns.len() > 0 {
        lemma_lowest_number(ns.drop_last());
        let m = lowest_number(ns).unwrap();
        assert forall|i: int| 0 <= i < ns.len() implies m <= #[trigger] ns[i] by {
            if i < ns.len() - 1 {
                assert(ns.drop_last()[i] == ns[i]);
            }
        }
        if lowest_number(ns.drop_last()) is Some {
            let m0 = lowest_number(ns.drop_last()).unwrap();
            if m == m0 {
                let j = choose|j: int| 0 <= j < ns.drop_last().len() && ns.drop_last()[j] == m0;
                assert(ns[j] == m0);
            } else {
                assert(ns[ns.len() - 1] == m);
            }
        } else {
            assert(ns[ns.len() - 1] == m);
        }
    }
}

/// Returns the smallest of the numbers, if any.
fn lowest_of(ns: &Vec<u64>) -> (r: Option<u64>)
    ensures
        r == lowest_number(ns@),
{
    let mut r: Option<u64> = None;
    let mut i: usize = 0;
    while i < ns.len()
        invariant
            i <= ns@.len(),
            r == lowest_number(ns@.take(i as int)),
        decreases ns@.len() - i,
    {
        let x = ns[i];
        proof {
            assert(ns@.take(i + 1).drop_last() =~= ns@.take(i as int));
        }
        r = match r {
            None => Some(x),
            Some(m) => Some(if x < m { x } else { m }),
        };
        i = i + 1;
    }
    assert(ns@.take(ns@.len() as int) =~= ns@);
    r
}

/// Copies a list of code vectors.
fn copy_codes(v: &Vec<Vec<u8>>, out: &mut Vec<Vec<u8>>)
    ensures
        bytes_view(final(out)@) == bytes_view(old(out)@) + bytes_view(v@),
{
    let ghost o = out@;
    let mut i: usize = 0;
    while i < v.len()
        invariant
            i <= v@.len(),
            bytes_view(out@) == bytes_view(o) + bytes_view(v@.take(i as int)),
        decreases v@.len() - i,
    {
        let c = copy_bytes(v[i].as_slice());
        let ghost before = out@;
        out.push(c);
        proof {
            assert(bytes_view(out@) =~= bytes_view(before).push(v@[i as int]@));
            assert(bytes_view(v@.take(i + 1)) =~= bytes_view(v@.take(i as int)).push(v@[i as int]@));
        }
        i = i + 1;
        assert(bytes_view(out@) =~= bytes_view(o) + bytes_view(v@.take(i as int)));
    }
    assert(v@.take(v@.len() as int) =~= v@);
}

impl ExecutionWitnessRecord {
    /// An empty record.
    pub fn new() -> (r: ExecutionWitnessRecord)
        ensures
            r.wf(),
            r.hashed_state.accounts@.len() == 0,
            r.hashed_state.storages@.len() == 0,
            r.codes@.len() == 0,
            r.keys@.len() == 0,
            r.lowest_block_number is None,
    {
        ExecutionWitnessRecord {
            hashed_state: HashedPostState { accounts: Vec::new(), storages: Vec::new() },
            codes: Vec::new(),
            keys: Vec::new(),
            lowest_block_number: None,
        }
    }

    /// The hashed post-state lists each hashed address and slot once.
    pub open spec fn wf(self) -> bool {
        self.hashed_state.wf()
    }

    /// Records one account of the state cache.
    fn record_account(&mut self, address: &Address, account: &CacheAccount)
        requires
            old(self).wf(),
        ensures
            final(self).wf(),
            final(self).codes == old(self).codes,
            final(self).lowest_block_number == old(self).lowest_block_number,
            bytes_view(final(self).keys@) == bytes_view(old(self).keys@) + keys_of((*address, *account)),
            hashed_accounts_view(final(self).hashed_state) == hashed_accounts_view(old(self).hashed_state).insert(
                keccak(address@),
                recorded_account(*account),
            ),
            hashed_storages_view(final(self).hashed_state) == hashed_storages_view(old(self).hashed_state).insert(
                keccak(address@),
                recorded_storage(hashed_storages_view(old(self).hashed_state), (*address, *account)),
            ),
    {
        let ghost f = hashed_storage_bytes();
        let ghost prev = hashed_storages_view(self.hashed_state);
        let ghost s0 = self.hashed_state.storages@;
        let hashed_address = keccak256(address.as_slice());
        let acct = match &account.account {
            Some(p) => Some(account_from_info(&p.info)),
            None => None,
        };
        entries_insert(&mut self.hashed_state.accounts, hashed_address, acct);
        proof {
            lemma_map_values_distinct(s0, f);
            lemma_view_keys_distinct(map_entry_values(s0, f));
            crate::entries::lemma_entries_map_dom(view_keys(map_entry_values(s0, f)));
            crate::entries::lemma_entries_map_distinct(view_keys(map_entry_values(s0, f)));
        }
        let found = find_key(&self.hashed_state.storages, &hashed_address);
        let idx: usize = match found {
            Some(j) => {
                proof {
                    assert(view_keys(map_entry_values(s0, f))[j as int].0 == hashed_address@);
                }
                j
            },
            None => {
                proof {
                    if prev.contains_key(hashed_address@) {
                        let i = choose|i: int| 0 <= i < view_keys(map_entry_values(s0, f)).len() && #[trigger] view_keys(map_entry_values(s0, f))[i].0 == hashed_address@;
                        assert(s0[i].0 =~= hashed_address);
                    }
                }
                self.hashed_state.storages.push((hashed_address, HashedStorage { wiped: account.status.was_destroyed(), storage: Vec::new() }));
                proof {
                    let s1 = self.hashed_state.storages@;
                    assert(s1.drop_last() =~= s0);
                    assert(view_keys(map_entry_values(s1, f)).drop_last() =~= view_keys(map_entry_values(s0, f)));
                    assert(entries_map(view_keys(s1.last().1.storage@)) =~= Map::<Seq<u8>, Word>::empty());
                    assert forall|a: int, b: int| #![trigger s1[a], s1[b]] 0 <= a < b < s1.len() implies s1[a].0 != s1[b].0 by {
                        if b == s1.len() - 1 {
                            assert(s1[a] == s0[a]);
                        } else {
                            assert(s1[a] == s0[a] && s1[b] == s0[b]);
                        }
                    }
                    assert forall|i: int| 0 <= i < s1.len() implies (#[trigger] s1[i]).1.wf() by {
                        if i < s1.len() - 1 {
                            assert(s1[i] == s0[i]);
                        }
                    }
                }
                self.hashed_state.storages.len() - 1
            },
        };
        let ghost s1 = self.hashed_state.storages@;
        let ghost mid = hashed_storages_view(self.hashed_state);
        let ghost base = recorded_storage(prev, (*address, CacheAccount { account: None, status: account.status }));
        proof {
            assert(s1[idx as int].0 == hashed_address);
            assert(mid == prev.insert(hashed_address@, base));
            assert(f(s1[idx as int].1) == base);
        }
        match &account.account {
            None => {
                proof {
                    assert(recorded_storage(prev, (*address, *account)) == base);
                    assert(keys_of((*address, *account)) =~= Seq::<Seq<u8>>::empty());
                    assert(bytes_view(self.keys@) =~= bytes_view(self.keys@) + Seq::<Seq<u8>>::empty());
                }
            },
            Some(p) => {
                let key = copy_bytes(address.as_slice());
                self.keys.push(key);
                let (k, mut st) = self.hashed_state.storages.remove(idx);
                proof {
                    assert(st == s1[idx as int].1);
                    assert(st.wf());
                }
                record_slots(&mut st, &mut self.keys, &p.storage);
                self.hashed_state.storages.insert(idx, (k, st));
                proof {
                    let s2 = self.hashed_state.storages@;
                    assert(s2 =~= s1.update(idx as int, (s1[idx as int].0, st)));
                    lemma_map_values_distinct(s1, f);
                    lemma_view_keys_distinct(map_entry_values(s1, f));
                    assert(view_keys(map_entry_values(s2, f)) =~= view_keys(map_entry_values(s1, f)).update(
                        idx as int,
                        (view_keys(map_entry_values(s1, f))[idx as int].0, f(st)),
                    ));
                    lemma_entries_map_update(view_keys(map_entry_values(s1, f)), idx as int, f(st));
                    lemma_entries_map_update(s1, idx as int, st);
                    assert forall|i: int| 0 <= i < s2.len() implies (#[trigger] s2[i]).1.wf() by {
                        if i != idx {
                            assert(s2[i] == s1[i]);
                        }
                    }
                    assert(keys_of((*address, *account)) =~= seq![address@] + p.storage@.map_values(|e: (Word, Word)| e.0@));
                }
            },
        }
        proof {
            assert(hashed_storages_view(self.hashed_state) =~= prev.insert(
                hashed_address@,
                recorded_storage(prev, (*address, *account)),
            ));
        }
    }

    /// Records the state left by executing a block: the code of every cached and newly
    /// created contract (replacing the recorded code), every cached account under its
    /// hashed address with its storage under hashed slots, the preimages of those keys,
    /// and the lowest block number the `BLOCKHASH` opcode looked up.
    pub fn record_executed_state(&mut self, state: &ExecutedState)
        requires
            old(self).wf(),
        ensures
            final(self).wf(),
            bytes_view(final(self).codes@) == bytes_view(state.cache_contracts@) + bytes_view(state.bundle_contracts@),
            bytes_view(final(self).keys@) == bytes_view(old(self).keys@) + recorded_keys(state.cache_accounts@),
            hashed_accounts_view(final(self).hashed_state) == recorded_accounts(
                hashed_accounts_view(old(self).hashed_state),
                state.cache_accounts@,
            ),
            hashed_storages_view(final(self).hashed_state) == recorded_storages(
                hashed_storages_view(old(self).hashed_state),
                state.cache_accounts@,
            ),
            final(self).lowest_block_number == lowest_number(state.block_hash_numbers@),
    {
        let mut codes: Vec<Vec<u8>> = Vec::new();
        copy_codes(&state.cache_contracts, &mut codes);
        copy_codes(&state.bundle_contracts, &mut codes);
        assert(bytes_view(Seq::<Vec<u8>>::empty()) =~= Seq::<Seq<u8>>::empty());
        self.codes = codes;
        let ghost a0 = hashed_accounts_view(self.hashed_state);
        let ghost st0 = hashed_storages_view(self.hashed_state);
        let ghost k0 = bytes_view(self.keys@);
        let accts = &state.cache_accounts;
        let mut i: usize = 0;
        proof {
            assert(accts@.take(0) =~= Seq::<(Address, CacheAccount)>::empty());
            assert(k0 + recorded_keys(accts@.take(0)) =~= k0);
        }
        while i < accts.len()
            invariant
                i <= accts@.len(),
                self.wf(),
                bytes_view(self.codes@) == bytes_view(state.cache_contracts@) + bytes_view(state.bundle_contracts@),
                bytes_view(self.keys@) == k0 + recorded_keys(accts@.take(i as int)),
                hashed_accounts_view(self.hashed_state) == recorded_accounts(a0, accts@.take(i as int)),
                hashed_storages_view(self.hashed_state) == recorded_storages(st0, accts@.take(i as int)),
            decreases accts@.len() - i,
        {
            self.record_account(&accts[i].0, &accts[i].1);
            proof {
                let t = accts@.take(i + 1);
                assert(t.drop_last() =~= accts@.take(i as int));
                assert(t.last() == accts@[i as int]);
                assert(bytes_view(self.keys@) =~= k0 + recorded_keys(t));
            }
            i = i + 1;
        }
        assert(accts@.take(accts@.len() as int) =~= accts@);
        self.lowest_block_number = lowest_of(&state.block_hash_numbers);
    }

    /// Creates a record from the state left by executing a block.
    pub fn from_executed_state(state: &ExecutedState) -> (r: ExecutionWitnessRecord)
        ensures
            r.wf(),
            bytes_view(r.codes@) == bytes_view(state.cache_contracts@) + bytes_view(state.bundle_contracts@),
            bytes_view(r.keys@) == recorded_keys(state.cache_accounts@),
            hashed_accounts_view(r.hashed_state) == recorded_accounts(Map::empty(), state.cache_accounts@),
            hashed_storages_view(r.hashed_state) == recorded_storages(Map::empty(), state.cache_accounts@),
            r.lowest_block_number == lowest_number(state.block_hash_numbers@),
    {
        let mut record = ExecutionWitnessRecord::new();
        proof {
            assert(bytes_view(record.keys@) =~= Seq::<Seq<u8>>::empty());
            assert(hashed_accounts_view(record.hashed_state) =~= Map::<Seq<u8>, Option<Account>>::empty());
            assert(hashed_storages_view(record.hashed_state) =~= Map::<Seq<u8>, (bool, Map<Seq<u8>, Word>)>::empty());
        }
        record.record_executed_state(state);
        assert(Seq::<Seq<u8>>::empty() + recorded_keys(state.cache_accounts@) =~= recorded_keys(state.cache_accounts@));
        record
    }
}

/// Writes storage slots under their hashed keys, recording each slot as a key preimage.
fn record_slots(st: &mut HashedStorage, keys: &mut Vec<Vec<u8>>, storage: &Vec<(Word, Word)>)
    requires
        old(st).wf(),
    ensures
        final(st).wf(),
        final(st).wiped == old(st).wiped,
        entries_map(view_keys(final(st).storage@)) == entries_map(view_keys(old(st).storage@)).union_prefer_right(
            entries_map(hashed_slots(storage@)),
        ),
        bytes_view(final(keys)@) == bytes_view(old(keys)@) + storage@.map_values(|e: (Word, Word)| e.0@),
{
    let ghost m0 = entries_map(view_keys(st.storage@));
    let ghost k0 = bytes_view(keys@);
    let mut j: usize = 0;
    proof {
        assert(hashed_slots(storage@.take(0)) =~= Seq::<(Seq<u8>, Word)>::empty());
        assert(m0.union_prefer_right(entries_map(hashed_slots(storage@.take(0)))) =~= m0);
        assert(k0 + storage@.take(0).map_values(|e: (Word, Word)| e.0@) =~= k0);
    }
    while j < storage.len()
        invariant
            j <= storage@.len(),
            st.wf(),
            st.wiped == old(st).wiped,
            entries_map(view_keys(st.storage@)) == m0.union_prefer_right(entries_map(hashed_slots(storage@.take(j as int)))),
            bytes_view(keys@) == k0 + storage@.take(j as int).map_values(|e: (Word, Word)| e.0@),
        decreases storage@.len() - j,
    {
        let (slot, value) = storage[j];
        let hashed_slot = keccak256(slot.as_slice());
        entries_insert(&mut st.storage, hashed_slot, value);
        let pre = copy_bytes(slot.as_slice());
        let ghost before = keys@;
        keys.push(pre);
        proof {
            let t = storage@.take(j + 1);
            assert(hashed_slots(t).drop_last() =~= hashed_slots(storage@.take(j as int)));
            assert(hashed_slots(t).last() == (keccak(slot@), value));
            assert(entries_map(view_keys(st.storage@)) =~= m0.union_prefer_right(entries_map(hashed_slots(t))));
            assert(bytes_view(keys@) =~= bytes_view(before).push(slot@));
            assert(t.map_values(|e: (Word, Word)| e.0@) =~= storage@.take(j as int).map_values(|e: (Word, Word)| e.0@).push(slot@));
            assert(bytes_view(keys@) =~= k0 + t.map_values(|e: (Word, Word)| e.0@));
        }
        j = j + 1;
    }
    assert(storage@.take(storage@.len() as int) =~= storage@);
}

/// How an account was accessed during execution.
#[derive(Debug)]
pub enum AccessedAccount {
    /// The account was destroyed during execution.
    Destroyed,
    /// The storage slots accessed during execution.
    StorageKeys(Vec<Word>),
}

/// What an accessed-account record stands for.
pub enum AccessedModel {
    /// The account was destroyed.
    Destroyed,
    /// The set of storage slots accessed.
    StorageKeys(Set<Word>),
}

/// The model of an accessed-account record, as a function.
pub open spec fn accessed_model() -> spec_fn(AccessedAccount) -> AccessedModel {
    |a: AccessedAccount| match a {
        AccessedAccount::Destroyed => AccessedModel::Destroyed,
        AccessedAccount::StorageKeys(keys) => AccessedModel::StorageKeys(keys@.to_set()),
    }
}

/// The bytes of optional code, as a function.
pub open spec fn optional_code_view() -> spec_fn(Option<Vec<u8>>) -> Option<Seq<u8>> {
    |c: Option<Vec<u8>>| match c {
        Some(v) => Some(v@),
        None => None,
    }
}

/// Records the pre-state accesses that occurred during execution.
#[derive(Debug)]
pub struct FlatWitnessRecord {
    /// Accessed accounts by address.
    pub accounts: Vec<(Address, AccessedAccount)>,
    /// Code by code hash; `None` when the code is to be fetched.
    pub contracts: Vec<(B256, Option<Vec<u8>>)>,
}

/// How a cache account was accessed: destroyed when it was destroyed during execution
/// (destroyed, destroyed and then changed, or destroyed again), otherwise the slots its
/// storage holds.
pub open spec fn access_of(a: CacheAccount) -> AccessedModel {
    if a.status.spec_was_destroyed() {
        AccessedModel::Destroyed
    } else {
        match a.account {
            Some(p) => AccessedModel::StorageKeys(p.storage@.map_values(|e: (Word, Word)| e.0).to_set()),
            None => AccessedModel::StorageKeys(Set::empty()),
        }
    }
}

/// Accessed accounts after recording `accts` in order on top of `m`.
pub open spec fn recorded_accesses(m: Map<Address, AccessedModel>, accts: Seq<(Address, CacheAccount)>) -> Map<Address, AccessedModel>
    decreases accts.len(),
{
    if accts.len() == 0 {
        m
    } else {
        recorded_accesses(m, accts.drop_last()).insert(accts.last().0, access_of(accts.last().1))
    }
}

/// The code recorded for contract code: filed under its hash.
pub open spec fn recorded_contracts(codes: Seq<Vec<u8>>) -> Map<Seq<u8>, Option<Seq<u8>>> {
    entries_map(codes.map_values(|c: Vec<u8>| (keccak(c@), Some(c@))))
}

impl FlatWitnessRecord {
    /// An empty record.
    pub fn new() -> (r: FlatWitnessRecord)
        ensures
            r.wf(),
            r.accounts@.len() == 0,
            r.contracts@.len() == 0,
    {
        FlatWitnessRecord { accounts: Vec::new(), contracts: Vec::new() }
    }

    /// Each address and code hash is listed once.
    pub open spec fn wf(self) -> bool {
        distinct_keys(self.accounts@) && distinct_keys(self.contracts@)
    }

    /// Accessed accounts by address.
    pub open spec fn accesses(self) -> Map<Address, AccessedModel> {
        entries_map(map_entry_values(self.accounts@, accessed_model()))
    }

    /// Code by code hash; `None` when the code is to be fetched.
    pub open spec fn code_entries(self) -> Map<B256, Option<Seq<u8>>> {
        entries_map(map_entry_values(self.contracts@, optional_code_view()))
    }

    /// Code by the bytes of its code hash.
    pub open spec fn code_by_hash(self) -> Map<Seq<u8>, Option<Seq<u8>>> {
        entries_map(view_keys(map_entry_values(self.contracts@, optional_code_view())))
    }

    /// Records the accessed state after execution: the code of the cached contracts under
    /// their hashes (replacing the recorded code), and for every cached account whether it
    /// was destroyed or which storage slots it holds.
    pub fn record_executed_state(&mut self, state: &ExecutedState)
        requires
            old(self).wf(),
        ensures
            final(self).wf(),
            final(self).code_by_hash() == recorded_contracts(state.cache_contracts@),
            final(self).accesses() == recorded_accesses(old(self).accesses(), state.cache_accounts@),
    {
        let ghost f = optional_code_view();
        let ghost codes = state.cache_contracts@;
        let mut raw: Vec<(B256, Option<Vec<u8>>)> = Vec::new();
        let mut i: usize = 0;
        while i < state.cache_contracts.len()
            invariant
                i <= codes.len(),
                codes == state.cache_contracts@,
                f == optional_code_view(),
                view_keys(map_entry_values(raw@, f)) == codes.take(i as int).map_values(|c: Vec<u8>| (keccak(c@), Some(c@))),
            decreases codes.len() - i,
        {
            let code = copy_bytes(state.cache_contracts[i].as_slice());
            let h = keccak256(code.as_slice());
            let ghost before = raw@;
            let ghost c = code@;
            let ghost entry = (h, Some(code));
            raw.push((h, Some(code)));
            proof {
                assert(raw@ == before.push(entry));
                assert(f(entry.1) == Some(c));
                assert(map_entry_values(raw@, f) =~= map_entry_values(before, f).push((h, Some(c))));
                assert(view_keys(map_entry_values(raw@, f)) =~= view_keys(map_entry_values(before, f)).push((h@, Some(c))));
                assert(codes.take(i + 1).map_values(|c: Vec<u8>| (keccak(c@), Some(c@))) =~= codes.take(i as int).map_values(
                    |c: Vec<u8>| (keccak(c@), Some(c@)),
                ).push((keccak(codes[i as int]@), Some(codes[i as int]@))));
            }
            i = i + 1;
        }
        assert(codes.take(codes.len() as int) =~= codes);
        let ghost raw_seq = raw@;
        let contracts = collect_entries(raw);
        proof {
            lemma_entries_map_values(contracts@, f);
            lemma_entries_map_values(raw_seq, f);
            lemma_view_keys_same_map(map_entry_values(contracts@, f), map_entry_values(raw_seq, f));
        }
        self.contracts = contracts;
        let ghost a0 = self.accesses();
        let accts = &state.cache_accounts;
        let mut i: usize = 0;
        proof {
            assert(accts@.take(0) =~= Seq::<(Address, CacheAccount)>::empty());
        }
        while i < accts.len()
            invariant
                i <= accts@.len(),
                self.wf(),
                self.code_by_hash() == recorded_contracts(state.cache_contracts@),
                self.accesses() == recorded_accesses(a0, accts@.take(i as int)),
            decreases accts@.len() - i,
        {
            let address = accts[i].0;
            let ca = &accts[i].1;
            let accessed = if ca.status.was_destroyed() {
                AccessedAccount::Destroyed
            } else {
                match &ca.account {
                    Some(p) => {
                        let mut keys: Vec<Word> = Vec::new();
                        let mut j: usize = 0;
                        while j < p.storage.len()
                            invariant
                                j <= p.storage@.len(),
                                keys@ == p.storage@.take(j as int).map_values(|e: (Word, Word)| e.0),
                            decreases p.storage@.len() - j,
                        {
                            keys.push(p.storage[j].0);
                            j = j + 1;
                            assert(keys@ =~= p.storage@.take(j as int).map_values(|e: (Word, Word)| e.0));
                        }
                        assert(p.storage@.take(p.storage@.len() as int) =~= p.storage@);
                        AccessedAccount::StorageKeys(keys)
                    },
                    None => {
                        let keys: Vec<Word> = Vec::new();
                        assert(keys@.to_set() =~= Set::<Word>::empty());
                        AccessedAccount::StorageKeys(keys)
                    },
                }
            };
            let ghost acc = accessed;
            let ghost before = self.accounts@;
            entries_insert(&mut self.accounts, address, accessed);
            proof {
                assert(accessed_model()(acc) == access_of(*ca));
                lemma_entries_map_values(before, accessed_model());
                lemma_entries_map_values(self.accounts@, accessed_model());
                assert(self.accesses() =~= entries_map(map_entry_values(before, accessed_model())).insert(address, access_of(*ca)));
                let t = accts@.take(i + 1);
                assert(t.drop_last() =~= accts@.take(i as int));
                assert(t.last() == accts@[i as int]);
            }
            i = i + 1;
        }
        assert(accts@.take(accts@.len() as int) =~= accts@);
    }
}

} // verus!
