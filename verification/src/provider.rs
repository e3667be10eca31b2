//! The flat pre-state of a block: the accounts, storage slots and code that its
//! execution accessed, as the latest state held them before the block.

use vstd::prelude::*;
use crate::bytes::{bytes_eq, copy_bytes, empty_code_hash, keccak_empty_hash, zero, zero_word, Address, B256, Word};
use crate::entries::{
    distinct_keys, entries_insert, entries_map, lemma_entries_map_dom, lemma_entries_map_values,
    lemma_entries_map_values_hold, lemma_map_values_distinct, lookup, map_entry_values,
};
use crate::record::{
    access_of, accessed_model, optional_code_view, recorded_accesses, AccessedAccount, AccessedModel,
    CacheAccount, FlatWitnessRecord,
};
use crate::state::{account_model, code_view, Account, AccountInfo, AccountState, DbAccount, DbAccountModel};

verus! {

broadcast use vstd::array::group_array_axioms;

/// The pre-state a flat witness carries: the accessed accounts with their storage,
/// the accessed code, and the addresses that were self-destructed.
#[derive(Debug)]
pub struct FlatPreState {
    /// Accounts accessed during execution.
    pub accounts: Vec<(Address, DbAccount)>,
    /// Code accessed during execution, by code hash.
    pub contracts: Vec<(B256, Vec<u8>)>,
    /// The addresses that were self-destructed during execution.
    pub destructed_addresses: Vec<Address>,
}

/// What a flat pre-state stands for.
pub struct FlatPreStateModel {
    /// Accounts by address.
    pub accounts: Map<Address, DbAccountModel>,
    /// Code by code hash.
    pub contracts: Map<B256, Seq<u8>>,
    /// The self-destructed addresses.
    pub destructed_addresses: Set<Address>,
}

impl FlatPreState {
    /// An empty pre-state.
    pub fn new() -> (r: FlatPreState)
        ensures
            r.wf(),
            r.model().accounts == Map::<Address, DbAccountModel>::empty(),
            r.model().contracts == Map::<B256, Seq<u8>>::empty(),
            r.model().destructed_addresses == Set::<Address>::empty(),
    {
        let r = FlatPreState { accounts: Vec::new(), contracts: Vec::new(), destructed_addresses: Vec::new() };
        assert(r.destructed_addresses@.to_set() =~= Set::<Address>::empty());
        r
    }

    /// Each address and code hash is listed once, and so is each slot of an account.
    pub open spec fn wf(self) -> bool {
        &&& distinct_keys(self.accounts@)
        &&& forall|i: int| 0 <= i < self.accounts@.len() ==> (#[trigger] self.accounts@[i]).1.wf()
        &&& distinct_keys(self.contracts@)
        &&& self.destructed_addresses@.no_duplicates()
    }

    /// What the pre-state stands for.
    pub open spec fn model(self) -> FlatPreStateModel {
        FlatPreStateModel {
            accounts: entries_map(map_entry_values(self.accounts@, account_model())),
            contracts: entries_map(map_entry_values(self.contracts@, code_view())),
            destructed_addresses: self.destructed_addresses@.to_set(),
        }
    }
}

/// What was read from the latest state for the accesses of a record: the accounts, code
/// and storage slots the state holds among those the record lists. What is absent here
/// is absent from the state. For a destroyed account every slot the state holds is read.
#[derive(Debug)]
pub struct StateReads {
    /// Accounts the state holds, by address.
    pub accounts: Vec<(Address, Account)>,
    /// Code the state holds, by code hash.
    pub bytecodes: Vec<(B256, Vec<u8>)>,
    /// Storage slots the state holds, by address.
    pub storage: Vec<(Address, Vec<(Word, Word)>)>,
}

/// What the reads stand for.
pub struct StateReadsModel {
    /// Accounts by address.
    pub accounts: Map<Address, Account>,
    /// Code by code hash.
    pub bytecodes: Map<B256, Seq<u8>>,
    /// Storage slots by address.
    pub storage: Map<Address, Map<Word, Word>>,
}

/// Errors of recording a flat witness from a state provider.
#[derive(Debug)]
pub enum FlatWitnessRecordError {
    /// Reading an account from the state provider failed.
    GetAccountError(String),
    /// Opening a database cursor failed.
    DatabaseCursorError(String),
}

/// The slots a storage list denotes, as a function.
pub open spec fn slots_view() -> spec_fn(Vec<(Word, Word)>) -> Map<Word, Word> {
    |v: Vec<(Word, Word)>| entries_map(v@)
}

impl StateReads {
    /// Each address, code hash and slot is listed once.
    pub open spec fn wf(self) -> bool {
        &&& distinct_keys(self.accounts@)
        &&& distinct_keys(self.bytecodes@)
        &&& distinct_keys(self.storage@)
        &&& forall|i: int| 0 <= i < self.storage@.len() ==> distinct_keys((#[trigger] self.storage@[i]).1@)
    }

    /// What the reads stand for.
    pub open spec fn model(self) -> StateReadsModel {
        StateReadsModel {
            accounts: entries_map(self.accounts@),
            bytecodes: entries_map(map_entry_values(self.bytecodes@, code_view())),
            storage: entries_map(map_entry_values(self.storage@, slots_view())),
        }
    }
}

/// The account information of a trie account: an absent code hash means empty code.
pub open spec fn account_info(acc: Account) -> AccountInfo {
    AccountInfo {
        balance: acc.balance,
        nonce: acc.nonce,
        code_hash: match acc.bytecode_hash {
            Some(h) => h,
            None => empty_code_hash(),
        },
    }
}

/// The information of an account that does not exist: no balance, no nonce, empty code.
pub open spec fn default_info() -> AccountInfo {
    AccountInfo { balance: zero_word(), nonce: 0, code_hash: empty_code_hash() }
}

/// Returns the account information of a trie account.
pub fn info_from_account(acc: &Account) -> (r: AccountInfo)
    ensures
        r == account_info(*acc),
{
    let code_hash = match acc.bytecode_hash {
        Some(h) => h,
        None => keccak_empty_hash(),
    };
    AccountInfo { balance: acc.balance, nonce: acc.nonce, code_hash }
}

/// The slots the state holds for an address.
pub open spec fn held_slots(reads: StateReadsModel, address: Address) -> Map<Word, Word> {
    if reads.storage.contains_key(address) {
        reads.storage[address]
    } else {
        Map::empty()
    }
}

/// The value of a slot: zero when the state holds none.
pub open spec fn slot_value(slots: Map<Word, Word>, key: Word) -> Word {
    if slots.contains_key(key) {
        slots[key]
    } else {
        zero_word()
    }
}

/// The pre-state of an accessed account: its information as the state holds it (or that of
/// a non-existing account), and every slot the state holds for a destroyed account, or else
/// the accessed slots with their values (zero where the state holds none).
pub open spec fn pre_account(reads: StateReadsModel, address: Address, access: AccessedModel) -> DbAccountModel {
    let slots = held_slots(reads, address);
    DbAccountModel {
        info: if reads.accounts.contains_key(address) {
            account_info(reads.accounts[address])
        } else {
            default_info()
        },
        account_state: if reads.accounts.contains_key(address) {
            AccountState::Untouched
        } else {
            AccountState::NotExisting
        },
        storage: match access {
            AccessedModel::Destroyed => slots,
            AccessedModel::StorageKeys(keys) => Map::new(|k: Word| keys.contains(k), |k: Word| slot_value(slots, k)),
        },
    }
}

/// The code of the pre-state: the recorded code, or else the code the state holds for the
/// hash; a hash with neither is left out.
pub open spec fn pre_contracts(recorded: Map<B256, Option<Seq<u8>>>, reads: StateReadsModel) -> Map<B256, Seq<u8>> {
    Map::new(
        |h: B256| recorded.contains_key(h) && (recorded[h] is Some || reads.bytecodes.contains_key(h)),
        |h: B256|
            match recorded[h] {
                Some(c) => c,
                None => reads.bytecodes[h],
            },
    )
}

/// The addresses recorded as destroyed.
pub open spec fn destroyed_addresses(accesses: Map<Address, AccessedModel>) -> Set<Address> {
    accesses.dom().filter(|a: Address| accesses[a] is Destroyed)
}

/// Collects the code of the pre-state.
fn collect_pre_contracts(record: &FlatWitnessRecord, reads: &StateReads) -> (r: Vec<(B256, Vec<u8>)>)
    requires
        record.wf(),
        reads.wf(),
    ensures
        distinct_keys(r@),
        entries_map(map_entry_values(r@, code_view())) == pre_contracts(record.code_entries(), reads.model()),
{
    let ghost rm = reads.model();
    let ghost cs = map_entry_values(record.contracts@, optional_code_view());
    let mut r: Vec<(B256, Vec<u8>)> = Vec::new();
    let mut i: usize = 0;
    proof {
        lemma_entries_map_values(reads.bytecodes@, code_view());
        lemma_map_values_distinct(record.contracts@, optional_code_view());
        assert(cs.take(0) =~= Seq::<(B256, Option<Seq<u8>>)>::empty());
        assert(pre_contracts(entries_map(cs.take(0)), rm) =~= Map::<B256, Seq<u8>>::empty());
        assert(entries_map(map_entry_values(r@, code_view())) =~= Map::<B256, Seq<u8>>::empty());
    }
    while i < record.contracts.len()
        invariant
            i <= record.contracts@.len(),
            record.wf(),
            reads.wf(),
            rm == reads.model(),
            rm.bytecodes == entries_map(reads.bytecodes@).map_values(code_view()),
            cs == map_entry_values(record.contracts@, optional_code_view()),
            distinct_keys(cs),
            distinct_keys(r@),
            entries_map(map_entry_values(r@, code_view())) == pre_contracts(entries_map(cs.take(i as int)), rm),
        decreases record.contracts@.len() - i,
    {
        let h = record.contracts[i].0;
        let ghost before = r@;
        let ghost p = entries_map(cs.take(i as int));
        proof {
            lemma_entries_map_dom(cs.take(i as int));
            assert(!p.contains_key(h)) by {
                if p.contains_key(h) {
                    let j = choose|j: int| 0 <= j < cs.take(i as int).len() && #[trigger] cs.take(i as int)[j].0 == h;
                    assert(cs[j].0 == cs[i as int].0);
                }
            }
            assert(cs.take(i + 1).drop_last() =~= cs.take(i as int));
            lemma_entries_map_values(before, code_view());
        }
        match &record.contracts[i].1 {
            Some(code) => {
                let c = copy_bytes(code.as_slice());
                entries_insert(&mut r, h, c);
                proof {
                    lemma_entries_map_values(r@, code_view());
                    assert(entries_map(map_entry_values(r@, code_view())) =~= pre_contracts(p, rm).insert(h, code@));
                    assert(pre_contracts(entries_map(cs.take(i + 1)), rm) =~= pre_contracts(p, rm).insert(h, code@));
                }
            },
            None => {
                match lookup(&reads.bytecodes, &h) {
                    Some(code) => {
                        let c = copy_bytes(code.as_slice());
                        entries_insert(&mut r, h, c);
                        proof {
                            lemma_entries_map_values(r@, code_view());
                            assert(rm.bytecodes[h] == code@);
                            assert(entries_map(map_entry_values(r@, code_view())) =~= pre_contracts(p, rm).insert(h, code@));
                            assert(pre_contracts(entries_map(cs.take(i + 1)), rm) =~= pre_contracts(p, rm).insert(h, code@));
                        }
                    },
                    None => {
                        proof {
                            assert(!rm.bytecodes.contains_key(h));
                            assert(pre_contracts(entries_map(cs.take(i + 1)), rm) =~= pre_contracts(p, rm));
                        }
                    },
                }
            },
        }
        i = i + 1;
    }
    assert(cs.take(cs.len() as int) =~= cs);
    r
}

/// A copy of a storage list.
fn copy_slots(v: &Vec<(Word, Word)>) -> (r: Vec<(Word, Word)>)
    ensures
        r@ == v@,
{
    let mut r: Vec<(Word, Word)> = Vec::new();
    let mut i: usize = 0;
    while i < v.len()
        invariant
            i <= v@.len(),
            r@ == v@.take(i as int),
        decreases v@.len() - i,
    {
        r.push(v[i]);
        i = i + 1;
        assert(r@ =~= v@.take(i as int));
    }
    assert(v@.take(v@.len() as int) =~= v@);
    r
}

/// The value of a slot in the slots the state holds for an account, zero when absent.
fn read_slot(held: Option<&Vec<(Word, Word)>>, key: &Word) -> (r: Word)
    requires
        held matches Some(v) ==> distinct_keys(v@),
    ensures
        r == slot_value(
            match held {
                Some(v) => entries_map(v@),
                None => Map::empty(),
            },
            *key,
        ),
{
    match held {
        Some(v) => match lookup(v, key) {
            Some(x) => *x,
            None => zero(),
        },
        None => zero(),
    }
}

/// Builds the pre-state of one accessed account.
fn pre_db_account(reads: &StateReads, address: &Address, access: &AccessedAccount) -> (r: DbAccount)
    requires
        reads.wf(),
    ensures
        r.wf(),
        r.model() == pre_account(reads.model(), *address, accessed_model()(*access)),
{
    let ghost rm = reads.model();
    proof {
        lemma_entries_map_values(reads.storage@, slots_view());
        lemma_entries_map_values_hold(reads.storage@, |v: Vec<(Word, Word)>| distinct_keys(v@));
    }
    let (info, account_state) = match lookup(&reads.accounts, address) {
        Some(acc) => (info_from_account(acc), AccountState::Untouched),
        None => (AccountInfo { balance: zero(), nonce: 0, code_hash: keccak_empty_hash() }, AccountState::NotExisting),
    };
    let held = lookup(&reads.storage, address);
    let ghost slots = held_slots(rm, *address);
    assert(slots == match held {
        Some(v) => entries_map(v@),
        None => Map::<Word, Word>::empty(),
    });
    let storage = match access {
        AccessedAccount::Destroyed => match held {
            Some(v) => copy_slots(v),
            None => Vec::new(),
        },
        AccessedAccount::StorageKeys(keys) => {
            let mut st: Vec<(Word, Word)> = Vec::new();
            let mut j: usize = 0;
            proof {
                assert(entries_map(st@) =~= Map::new(|k: Word| keys@.take(0).contains(k), |k: Word| slot_value(slots, k)));
            }
            while j < keys.len()
                invariant
                    j <= keys@.len(),
                    held matches Some(v) ==> distinct_keys(v@),
                    slots == match held {
                        Some(v) => entries_map(v@),
                        None => Map::<Word, Word>::empty(),
                    },
                    distinct_keys(st@),
                    entries_map(st@) == Map::new(|k: Word| keys@.take(j as int).contains(k), |k: Word| slot_value(slots, k)),
                decreases keys@.len() - j,
            {
                let key = keys[j];
                let value = read_slot(held, &key);
                entries_insert(&mut st, key, value);
                proof {
                    assert(keys@.take(j + 1) =~= keys@.take(j as int).push(key));
                    assert forall|k: Word| #[trigger] keys@.take(j + 1).contains(k) <==> (keys@.take(j as int).contains(k) || k == key) by {
                        if k == key {
                            assert(keys@.take(j + 1)[j as int] == key);
                        }
                        if keys@.take(j as int).contains(k) {
                            let x = choose|x: int| 0 <= x < keys@.take(j as int).len() && #[trigger] keys@.take(j as int)[x] == k;
                            assert(keys@.take(j + 1)[x] == k);
                        }
                        if keys@.take(j + 1).contains(k) && k != key {
                            let x = choose|x: int| 0 <= x < keys@.take(j + 1).len() && #[trigger] keys@.take(j + 1)[x] == k;
                            assert(keys@.take(j as int)[x] == k);
                        }
                    }
                    assert(entries_map(st@) =~= Map::new(|k: Word| keys@.take(j + 1).contains(k), |k: Word| slot_value(slots, k)));
                }
                j = j + 1;
            }
            proof {
                assert(keys@.take(keys@.len() as int) =~= keys@);
                assert(entries_map(st@) =~= Map::new(|k: Word| keys@.to_set().contains(k), |k: Word| slot_value(slots, k)));
            }
            st
        },
    };
    DbAccount { info, account_state, storage }
}

/// The pre-state of every accessed account, as a function of address and access.
pub open spec fn pre_accounts(reads: StateReadsModel) -> spec_fn(Address, AccessedModel) -> DbAccountModel {
    |a: Address, acc: AccessedModel| pre_account(reads, a, acc)
}

/// The flat pre-state of accessed accounts, account by account: an address the state holds
/// gets that account's balance and nonce, its code hash (the empty-code hash when it has
/// none) and is untouched; an address the state does not hold is marked not existing, with
/// zero balance and nonce and the empty-code hash. A destroyed account gets every slot the
/// state holds for it; otherwise exactly the accessed slots, each with the value the state
/// holds, zero where it holds none.
pub proof fn lemma_pre_accounts_fieldwise(accesses: Map<Address, AccessedModel>, reads: StateReadsModel)
    ensures
        accesses.map_entries(pre_accounts(reads)).dom() == accesses.dom(),
        forall|a: Address| #[trigger] accesses.map_entries(pre_accounts(reads)).contains_key(a) ==> {
            let pre = accesses.map_entries(pre_accounts(reads))[a];
            &&& reads.accounts.contains_key(a) ==> {
                &&& pre.info.balance == reads.accounts[a].balance
                &&& pre.info.nonce == reads.accounts[a].nonce
                &&& (reads.accounts[a].bytecode_hash matches Some(h) ==> pre.info.code_hash == h)
                &&& (reads.accounts[a].bytecode_hash is None ==> pre.info.code_hash == empty_code_hash())
                &&& pre.account_state == AccountState::Untouched
            }
            &&& !reads.accounts.contains_key(a) ==> {
                &&& pre.info.balance == zero_word()
                &&& pre.info.nonce == 0
                &&& pre.info.code_hash == empty_code_hash()
                &&& pre.account_state == AccountState::NotExisting
            }
            &&& accesses[a] == AccessedModel::Destroyed ==> pre.storage == (if reads.storage.contains_key(a) {
                reads.storage[a]
            } else {
                Map::<Word, Word>::empty()
            })
            &&& (accesses[a] matches AccessedModel::StorageKeys(keys) ==> {
                &&& pre.storage.dom() == keys
                &&& forall|k: Word| #[trigger] keys.contains(k) ==> pre.storage[k] == (if reads.storage.contains_key(a)
                    && reads.storage[a].contains_key(k) {
                    reads.storage[a][k]
                } else {
                    zero_word()
                })
            })
        },
{
    assert(accesses.map_entries(pre_accounts(reads)).dom() =~= accesses.dom());
    assert forall|a: Address| #[trigger] accesses.map_entries(pre_accounts(reads)).contains_key(a) implies
        (accesses[a] matches AccessedModel::StorageKeys(keys) ==> accesses.map_entries(pre_accounts(reads))[a].storage.dom() == keys) by {
        if let AccessedModel::StorageKeys(keys) = accesses[a] {
            assert(accesses.map_entries(pre_accounts(reads))[a].storage.dom() =~= keys);
        }
    }
}

/// The addresses of cached accounts, as a function.
pub open spec fn cached_address() -> spec_fn((Address, CacheAccount)) -> Address {
    |e: (Address, CacheAccount)| e.0
}

/// The flat pre-state built from the record of an execution holds exactly the accounts
/// the execution cached, and marks as self-destructed exactly those it destroyed.
pub proof fn lemma_pre_state_of_execution(accts: Seq<(Address, CacheAccount)>, reads: StateReadsModel)
    requires
        distinct_keys(accts),
    ensures
        recorded_accesses(Map::empty(), accts).map_entries(pre_accounts(reads)).dom() == accts.map_values(cached_address()).to_set(),
        forall|a: Address|
            #[trigger] destroyed_addresses(recorded_accesses(Map::empty(), accts)).contains(a) <==> exists|i: int|
                0 <= i < accts.len() && accts[i].0 == a && accts[i].1.status.spec_was_destroyed(),
    decreases accts.len(),
{
    let m = recorded_accesses(Map::empty(), accts);
    if accts.len() == 0 {
        assert(m.map_entries(pre_accounts(reads)).dom() =~= accts.map_values(cached_address()).to_set());
        assert forall|a: Address| #[trigger] destroyed_addresses(m).contains(a) <==> exists|i: int|
            0 <= i < accts.len() && accts[i].0 == a && accts[i].1.status.spec_was_destroyed() by {}
    } else {
        let t = accts.drop_last();
        let last = accts.last();
        assert(distinct_keys(t)) by {
            assert forall|i: int, j: int| #![trigger t[i], t[j]] 0 <= i < j < t.len() implies t[i].0 != t[j].0 by {
                assert(t[i] == accts[i] && t[j] == accts[j]);
            }
        }
        lemma_pre_state_of_execution(t, reads);
        let mt = recorded_accesses(Map::empty(), t);
        assert(m == mt.insert(last.0, access_of(last.1)));
        assert(accts.map_values(cached_address()) =~= t.map_values(cached_address()).push(last.0));
        t.map_values(cached_address()).lemma_push_to_set_commute(last.0);
        assert(m.map_entries(pre_accounts(reads)).dom() =~= accts.map_values(cached_address()).to_set());
        assert forall|a: Address| #[trigger] destroyed_addresses(m).contains(a) <==> exists|i: int|
            0 <= i < accts.len() && accts[i].0 == a && accts[i].1.status.spec_was_destroyed() by {
            if a == last.0 {
                if last.1.status.spec_was_destroyed() {
                    assert(accts[accts.len() - 1] == last);
                } else {
                    if exists|i: int| 0 <= i < accts.len() && accts[i].0 == a && accts[i].1.status.spec_was_destroyed() {
                        let i = choose|i: int| 0 <= i < accts.len() && accts[i].0 == a && accts[i].1.status.spec_was_destroyed();
                        if i < accts.len() - 1 {
                            assert(accts[i].0 != accts[accts.len() - 1].0);
                        }
                    }
                }
            } else {
                assert(destroyed_addresses(m).contains(a) == destroyed_addresses(mt).contains(a));
                if exists|i: int| 0 <= i < accts.len() && accts[i].0 == a && accts[i].1.status.spec_was_destroyed() {
                    let i = choose|i: int| 0 <= i < accts.len() && accts[i].0 == a && accts[i].1.status.spec_was_destroyed();
                    assert(i < accts.len() - 1);
                    assert(t[i] == accts[i]);
                }
                if exists|i: int| 0 <= i < t.len() && t[i].0 == a && t[i].1.status.spec_was_destroyed() {
                    let i = choose|i: int| 0 <= i < t.len() && t[i].0 == a && t[i].1.status.spec_was_destroyed();
                    assert(accts[i] == t[i]);
                }
            }
        }
    }
}

/// A database provider: a state provider reads the latest state through its transaction.
pub trait DbProvider {
    /// The read transaction.
    type Tx;

    /// The provider's read transaction.
    fn tx_ref(&self) -> &Self::Tx;
}

/// State provider over the latest state that takes a reference to its database provider.
#[derive(Debug)]
pub struct LatestStateProviderRef<'b, Provider>(pub &'b Provider);

impl<'b, Provider: DbProvider> LatestStateProviderRef<'b, Provider> {
    /// Creates a state provider over `provider`.
    pub fn new(provider: &'b Provider) -> (r: Self)
        ensures
            r.0 == provider,
    {
        LatestStateProviderRef(provider)
    }

    /// The read transaction of the underlying provider: what the provider's `tx_ref`
    /// answers for it.
    pub fn tx(&self) -> (r: &Provider::Tx)
        ensures
            call_ensures(Provider::tx_ref, (self.0,), r),
    {
        self.0.tx_ref()
    }
}

impl<'b, Provider> LatestStateProviderRef<'b, Provider> {
    /// The value of a storage slot, from the entry that a seek for the slot among the
    /// account's slots landed on: the entry's value when it is the slot itself, else none.
    pub fn storage(&self, seek: Option<(Word, Word)>, storage_key: &Word) -> (r: Option<Word>)
        ensures
            r == (match seek {
                Some(entry) => if entry.0 == *storage_key { Some(entry.1) } else { None },
                None => None,
            }),
    {
        match seek {
            Some(entry) => {
                let same = bytes_eq(entry.0.as_slice(), storage_key.as_slice());
                if same {
                    assert(entry.0 =~= *storage_key);
                    Some(entry.1)
                } else {
                    None
                }
            },
            None => None,
        }
    }

    /// The pre-state of the accesses a record lists, from what was read of the latest
    /// state: the recorded code, or else the code the state holds; for each accessed
    /// account its information as the state holds it, and every slot the state holds when
    /// it was destroyed (its address is then marked self-destructed), or else the accessed
    /// slots with their values, zero where the state holds none.
    pub fn flat_witness(&self, record: &FlatWitnessRecord, reads: &StateReads) -> (r: FlatPreState)
        requires
            record.wf(),
            reads.wf(),
        ensures
            r.wf(),
            r.model().contracts == pre_contracts(record.code_entries(), reads.model()),
            r.model().accounts == record.accesses().map_entries(pre_accounts(reads.model())),
            r.model().destructed_addresses == destroyed_addresses(record.accesses()),
    {
        let mut pre = FlatPreState::new();
        pre.contracts = collect_pre_contracts(record, reads);
        let ghost rm = reads.model();
        let ghost g = pre_accounts(rm);
        let ghost am = map_entry_values(record.accounts@, accessed_model());
        let mut i: usize = 0;
        proof {
            lemma_map_values_distinct(record.accounts@, accessed_model());
            assert(am.take(0) =~= Seq::<(Address, AccessedModel)>::empty());
            assert(pre.model().accounts =~= entries_map(am.take(0)).map_entries(g));
            assert(destroyed_addresses(entries_map(am.take(0))) =~= Set::<Address>::empty());
        }
        while i < record.accounts.len()
            invariant
                i <= record.accounts@.len(),
                record.wf(),
                reads.wf(),
                rm == reads.model(),
                g == pre_accounts(rm),
                am == map_entry_values(record.accounts@, accessed_model()),
                distinct_keys(am),
                pre.wf(),
                pre.model().contracts == pre_contracts(record.code_entries(), rm),
                pre.model().accounts == entries_map(am.take(i as int)).map_entries(g),
                pre.model().destructed_addresses == destroyed_addresses(entries_map(am.take(i as int))),
            decreases record.accounts@.len() - i,
        {
            let address = record.accounts[i].0;
            let access = &record.accounts[i].1;
            let ghost p = entries_map(am.take(i as int));
            let ghost acc_model = accessed_model()(*access);
            proof {
                lemma_entries_map_dom(am.take(i as int));
                assert(!p.contains_key(address)) by {
                    if p.contains_key(address) {
                        let j = choose|j: int| 0 <= j < am.take(i as int).len() && #[trigger] am.take(i as int)[j].0 == address;
                        assert(am[j].0 == am[i as int].0);
                    }
                }
                assert(am.take(i + 1).drop_last() =~= am.take(i as int));
                assert(am[i as int] == (address, acc_model));
            }
            let account = pre_db_account(reads, &address, access);
            match access {
                AccessedAccount::Destroyed => {
                    let ghost d0 = pre.destructed_addresses@;
                    pre.destructed_addresses.push(address);
                    proof {
                        assert(!destroyed_addresses(p).contains(address));
                        assert(!d0.to_set().contains(address));
                        assert(!d0.contains(address));
                        d0.lemma_push_to_set_commute(address);
                        assert(pre.destructed_addresses@.to_set() =~= d0.to_set().insert(address));
                        assert(destroyed_addresses(entries_map(am.take(i + 1))) =~= destroyed_addresses(p).insert(address));
                    }
                },
                AccessedAccount::StorageKeys(_) => {
                    proof {
                        assert(destroyed_addresses(entries_map(am.take(i + 1))) =~= destroyed_addresses(p));
                    }
                },
            }
            let ghost before = pre.accounts@;
            let ghost acct = account;
            entries_insert(&mut pre.accounts, address, account);
            proof {
                lemma_entries_map_values(before, account_model());
                lemma_entries_map_values(pre.accounts@, account_model());
                assert forall|k: int| 0 <= k < pre.accounts@.len() implies (#[trigger] pre.accounts@[k]).1.wf() by {
                    if pre.accounts@[k] != (address, acct) {
                        let x = choose|x: int| 0 <= x < before.len() && before[x] == pre.accounts@[k];
                        assert(before[x].1.wf());
                    }
                }
                assert(account_model()(acct) == acct.model());
                assert(g(address, acc_model) == pre_account(rm, address, acc_model));
                assert(entries_map(am.take(i + 1)) == p.insert(address, acc_model));
                assert(pre.model().accounts == entries_map(before).map_values(account_model()).insert(address, acct.model())) by {
                    assert(entries_map(before).insert(address, acct).map_values(account_model()) =~= entries_map(before).map_values(account_model()).insert(address, acct.model()));
                }
                assert(pre.model().accounts =~= entries_map(am.take(i + 1)).map_entries(g));
            }
            i = i + 1;
        }
        assert(am.take(am.len() as int) =~= am);
        pre
    }
}

/// Recording flat witness data from a state provider: the pre-state of every account,
/// storage slot and code that execution touched.
pub trait RecordFlatWitness {
    /// The pre-state of the accesses a record lists, from what was read of the state: the
    /// recorded code, or else the code the state holds; for each accessed account its
    /// information as the state holds it, and every slot the state holds when it was
    /// destroyed (its address is then marked self-destructed), or else the accessed slots
    /// with their values, zero where the state holds none.
    fn flat_witness(&self, record: &FlatWitnessRecord, reads: &StateReads) -> (r: FlatPreState)
        requires
            record.wf(),
            reads.wf(),
        ensures
            r.wf(),
            r.model().contracts == pre_contracts(record.code_entries(), reads.model()),
            r.model().accounts == record.accesses().map_entries(pre_accounts(reads.model())),
            r.model().destructed_addresses == destroyed_addresses(record.accesses()),
    ;
}

impl<'b, Provider> RecordFlatWitness for LatestStateProviderRef<'b, Provider> {
    fn flat_witness(&self, record: &FlatWitnessRecord, reads: &StateReads) -> (r: FlatPreState) {
        LatestStateProviderRef::flat_witness(self, record, reads)
    }
}

/// State provider over the latest state that owns its database provider.
#[derive(Debug)]
pub struct LatestStateProvider<Provider>(pub Provider);

impl<Provider: DbProvider> LatestStateProvider<Provider> {
    /// Creates a state provider over `db`.
    pub fn new(db: Provider) -> (r: Self)
        ensures
            r.0 == db,
    {
        LatestStateProvider(db)
    }

    /// A state provider that reads through a reference to this one's database provider.
    pub fn as_ref(&self) -> (r: LatestStateProviderRef<'_, Provider>)
        ensures
            r.0 == &self.0,
    {
        LatestStateProviderRef::new(&self.0)
    }
}

} // verus!
