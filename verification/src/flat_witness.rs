//! The flat execution witness: the state a block's execution needs, held directly
//! in a cache rather than as a Merkle proof, and the database that serves it.

use vstd::prelude::*;
use crate::bytes::{bytes_eq, zero, zero_word, Address, B256, Word};
use crate::entries::{distinct_keys, entries_map};
use crate::provider::FlatPreState;
use crate::state::{AccountInfo, Cache};

verus! {

broadcast use vstd::array::group_array_axioms;

/// The type of a block header, carried through unread.
#[verifier::external_type_specification]
#[verifier::external_body]
pub struct ExHeader(alloy_consensus::Header);

/// A flat execution witness: the state and context needed for stateless block execution.
#[derive(Debug)]
pub struct FlatExecutionWitness {
    /// The state required for executing the block.
    pub state: Cache,
    /// The parent block header required for pre-execution validations.
    pub parent_header: alloy_consensus::Header,
    /// The addresses that were self-destructed during execution.
    pub destructed_addresses: Vec<Address>,
}

/// An in-memory database: a state cache in front of a backing database.
#[derive(Debug)]
pub struct CacheDB<ExtDB> {
    /// The cached state.
    pub cache: Cache,
    /// The database that serves what the cache lacks.
    pub db: ExtDB,
}

impl FlatExecutionWitness {
    /// Creates a witness from the pre-state, the block hashes by number and the parent
    /// header: the cache holds the pre-state's accounts and code and the block hashes.
    pub fn new(pre_state: FlatPreState, block_hashes: Vec<(Word, B256)>, parent_header: alloy_consensus::Header) -> (r: FlatExecutionWitness)
        requires
            pre_state.wf(),
            distinct_keys(block_hashes@),
        ensures
            r.state.wf(),
            r.state.model().accounts == pre_state.model().accounts,
            r.state.model().contracts == pre_state.model().contracts,
            r.state.model().block_hashes == entries_map(block_hashes@),
            r.destructed_addresses@ == pre_state.destructed_addresses@,
            r.parent_header == parent_header,
    {
        FlatExecutionWitness {
            state: Cache { accounts: pre_state.accounts, contracts: pre_state.contracts, block_hashes },
            parent_header,
            destructed_addresses: pre_state.destructed_addresses,
        }
    }

    /// The database for stateless execution: the witness state in front of a database
    /// that fails every access but storage reads of self-destructed accounts.
    pub fn create_db(self) -> (r: CacheDB<SelfDestructCompatibleFailingDB>)
        ensures
            r.cache == self.state,
            r.db.destructed() == self.destructed_addresses@.to_set(),
    {
        CacheDB { cache: self.state, db: SelfDestructCompatibleFailingDB::new(self.destructed_addresses) }
    }
}

/// The message of a database access outside the captured state.
pub open spec fn non_captured_message() -> Seq<char> {
    "Database access not allowed in stateless execution context"@
}

/// A database access was attempted outside the captured state.
#[derive(Debug)]
pub struct NonCapturedStateError;

impl NonCapturedStateError {
    /// The error's message.
    pub fn to_string(&self) -> (s: String)
        ensures
            s@ == non_captured_message(),
    {
        "Database access not allowed in stateless execution context".to_owned()
    }
}

/// A database that fails every access, but serves zero for any storage slot of a
/// self-destructed account: all state must come from the witness cache, while the
/// storage of a destroyed account is known to be empty.
#[derive(Debug)]
pub struct SelfDestructCompatibleFailingDB {
    destructed_addresses: Vec<Address>,
}

/// Whether an address is in the list.
fn contains_address(v: &Vec<Address>, a: &Address) -> (r: bool)
    ensures
        r == v@.contains(*a),
{
    let mut i: usize = 0;
    while i < v.len()
        invariant
            i <= v@.len(),
            forall|j: int| 0 <= j < i ==> v@[j] != *a,
        decreases v@.len() - i,
    {
        if bytes_eq(v[i].as_slice(), a.as_slice()) {
            assert(v@[i as int] =~= *a);
            return true;
        }
        i = i + 1;
    }
    false
}

impl SelfDestructCompatibleFailingDB {
    /// The self-destructed addresses.
    pub closed spec fn destructed(self) -> Set<Address> {
        self.destructed_addresses@.to_set()
    }

    /// A database for the given self-destructed addresses.
    pub fn new(destructed_addresses: Vec<Address>) -> (r: Self)
        ensures
            r.destructed() == destructed_addresses@.to_set(),
    {
        SelfDestructCompatibleFailingDB { destructed_addresses }
    }

    /// Account lookups always fail.
    pub fn basic_ref(&self, address: Address) -> (r: Result<Option<AccountInfo>, NonCapturedStateError>)
        ensures
            r is Err,
    {
        Err(NonCapturedStateError)
    }

    /// Code lookups always fail.
    pub fn code_by_hash_ref(&self, code_hash: B256) -> (r: Result<Vec<u8>, NonCapturedStateError>)
        ensures
            r is Err,
    {
        Err(NonCapturedStateError)
    }

    /// A storage slot of a self-destructed account is zero; any other storage read fails.
    pub fn storage_ref(&self, address: Address, index: Word) -> (r: Result<Word, NonCapturedStateError>)
        ensures
            self.destructed().contains(address) ==> r == Ok::<Word, NonCapturedStateError>(zero_word()),
            !self.destructed().contains(address) ==> r is Err,
    {
        if contains_address(&self.destructed_addresses, &address) {
            return Ok(zero());
        }
        Err(NonCapturedStateError)
    }

    /// Block hash lookups always fail.
    pub fn block_hash_ref(&self, number: u64) -> (r: Result<B256, NonCapturedStateError>)
        ensures
            r is Err,
    {
        Err(NonCapturedStateError)
    }
}

} // verus!
