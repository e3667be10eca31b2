//! The flat execution witness without self-destruct tracking, and the database
//! behind it that fails every access.

use vstd::prelude::*;
use crate::bytes::{Address, B256, Word};
use crate::entries::{entries_map, map_entry_values};
use crate::flat_witness::CacheDB;
use crate::state::{account_model, code_view, AccountInfo, Cache, DbAccount};

verus! {

/// A flat execution witness: the state and context needed for stateless block execution.
#[derive(Debug)]
pub struct FlatExecutionWitness {
    /// The state required for executing the block.
    pub state: Cache,
    /// The parent block header required for pre-execution validations.
    pub parent_header: alloy_consensus::Header,
}

impl FlatExecutionWitness {
    /// Creates a witness whose cache holds the given accounts, code and block hashes.
    pub fn new(
        accounts: Vec<(Address, DbAccount)>,
        contracts: Vec<(B256, Vec<u8>)>,
        block_hashes: Vec<(Word, B256)>,
        parent_header: alloy_consensus::Header,
    ) -> (r: FlatExecutionWitness)
        ensures
            r.state.accounts@ == accounts@,
            r.state.contracts@ == contracts@,
            r.state.block_hashes@ == block_hashes@,
            r.state.model().accounts == entries_map(map_entry_values(accounts@, account_model())),
            r.state.model().contracts == entries_map(map_entry_values(contracts@, code_view())),
            r.state.model().block_hashes == entries_map(block_hashes@),
            r.parent_header == parent_header,
    {
        FlatExecutionWitness { state: Cache { accounts, contracts, block_hashes }, parent_header }
    }

    /// The database for stateless execution: a copy of the witness state in front of a
    /// database that fails every access.
    pub fn create_db(&self) -> (r: CacheDB<FailingDB>)
        ensures
            r.cache.model() == self.state.model(),
            r.cache.wf() == self.state.wf(),
    {
        CacheDB { cache: self.state.duplicate(), db: FailingDB }
    }
}

/// The message of a database access in a stateless execution context.
pub open spec fn always_fail_message() -> Seq<char> {
    "Database access not allowed in stateless execution context"@
}

/// A database operation failed: state access reached beyond the witness cache.
#[derive(Debug)]
pub struct AlwaysFailError;

impl AlwaysFailError {
    /// The error's message.
    pub fn to_string(&self) -> (s: String)
        ensures
            s@ == always_fail_message(),
    {
        "Database access not allowed in stateless execution context".to_owned()
    }
}

/// A database that fails every operation.
#[derive(Debug)]
pub struct FailingDB;

impl FailingDB {
    /// Account lookups fail.
    pub fn basic(&mut self, address: Address) -> (r: Result<Option<AccountInfo>, AlwaysFailError>)
        ensures
            r is Err,
    {
        Err(AlwaysFailError)
    }

    /// Code lookups fail.
    pub fn code_by_hash(&mut self, code_hash: B256) -> (r: Result<Vec<u8>, AlwaysFailError>)
        ensures
            r is Err,
    {
        Err(AlwaysFailError)
    }

    /// Storage reads fail.
    pub fn storage(&mut self, address: Address, index: Word) -> (r: Result<Word, AlwaysFailError>)
        ensures
            r is Err,
    {
        Err(AlwaysFailError)
    }

    /// Block hash lookups fail.
    pub fn block_hash(&mut self, number: u64) -> (r: Result<B256, AlwaysFailError>)
        ensures
            r is Err,
    {
        Err(AlwaysFailError)
    }
}

} // verus!
