//! The decisions of a ress protocol provider: which source a block is taken from, how
//! far back a witness may be served, which executed ancestors a witness is built on,
//! and which ancestor headers the BLOCKHASH opcode is served from.
//!
//! The lookups themselves (the database, the pending state) are made by the caller: each
//! decision here takes what the last lookup answered and says what to look up next.

use vstd::prelude::*;
use crate::bytes::{bytes_eq, zero, zero_word, B256};
use crate::record::bytes_view;
use crate::state::HashedPostState;
use crate::validation::{decode_header_exact, rlp_header};

verus! {

broadcast use vstd::array::group_array_axioms;

/// The most headers served for the BLOCKHASH opcode.
pub const MAX_BLOCKHASH_HEADERS: u64 = 256;

/// Errors of a state provider.
#[derive(Debug)]
pub enum ProviderError {
    /// No block hash is known for the hash or number.
    BlockHashNotFound(B256),
    /// No state is available for the block hash.
    StateForHashNotFound(B256),
    /// Building a trie witness failed.
    TrieWitnessError(String),
}

/// Where a block is looked up.
#[derive(Clone, Copy, Debug, PartialEq, Eq, Structural)]
pub enum BlockSource {
    /// The locally tracked pending (valid, non-canonical) blocks.
    Pending,
    /// The database, canonical or not.
    Provider,
    /// The locally tracked invalid blocks.
    Invalid,
}

/// What to do after a lookup.
#[derive(Debug)]
pub enum Lookup<B> {
    /// Look up in this source next.
    Ask(BlockSource),
    /// The lookup is over, with this result.
    Found(Option<B>),
}

/// A ress protocol provider: the provider it reads through, the EVM it executes with, and
/// how many blocks behind the canonical tip it serves witnesses for.
#[derive(Debug)]
pub struct RethRessProtocolProvider<P, E> {
    /// The provider of blocks and state.
    pub provider: P,
    /// The EVM configuration.
    pub evm_config: E,
    /// How many blocks behind the canonical tip a witness may be served for.
    pub max_witness_window: u64,
}

/// The parent hash of the header that `rlp` encodes; `None` when it is not one header's
/// encoding.
pub open spec fn header_parent(rlp: Seq<u8>) -> Option<Seq<u8>> {
    match rlp_header(rlp) {
        Some(d) => Some(d.1),
        None => None,
    }
}

/// The parent hash of the header that `rlp` encodes, read by decoding it.
fn parent_of(rlp: &Vec<u8>) -> (r: Option<B256>)
    ensures
        match r {
            Some(h) => header_parent(rlp@) == Some(h@),
            None => header_parent(rlp@) is None,
        },
{
    match decode_header_exact(rlp.as_slice()) {
        Some((_, parent_hash, _)) => Some(parent_hash),
        None => None,
    }
}

/// How many headers the BLOCKHASH opcode may need: from the lowest block number that
/// execution looked up (at most 256 of them), or just the parent when it looked up none.
pub open spec fn headers_needed_spec(lowest: Option<u64>, block_number: u64) -> u64 {
    match lowest {
        Some(smallest) => if block_number - smallest <= 256 { (block_number - smallest) as u64 } else { 256 },
        None => 1,
    }
}

impl<P, E> RethRessProtocolProvider<P, E> {
    /// Creates a provider.
    pub fn new(provider: P, evm_config: E, max_witness_window: u64) -> (r: Self)
        ensures
            r.provider == provider,
            r.evm_config == evm_config,
            r.max_witness_window == max_witness_window,
    {
        RethRessProtocolProvider { provider, evm_config, max_witness_window }
    }

    /// The first source a block is looked up in: the pending blocks.
    pub fn block_lookup_start() -> (r: BlockSource)
        ensures
            r == BlockSource::Pending,
    {
        BlockSource::Pending
    }

    /// A block by hash, valid or invalid: from the pending blocks, else the database, else
    /// the invalid blocks; what one source answers is what the next is asked after.
    pub fn block_by_hash<B>(asked: BlockSource, answer: Option<B>) -> (r: Lookup<B>)
        ensures
            match answer {
                Some(b) => r == Lookup::Found(Some(b)),
                None => match asked {
                    BlockSource::Pending => r == Lookup::<B>::Ask(BlockSource::Provider),
                    BlockSource::Provider => r == Lookup::<B>::Ask(BlockSource::Invalid),
                    BlockSource::Invalid => r == Lookup::<B>::Found(None),
                },
            },
    {
        match answer {
            Some(b) => Lookup::Found(Some(b)),
            None => match asked {
                BlockSource::Pending => Lookup::Ask(BlockSource::Provider),
                BlockSource::Provider => Lookup::Ask(BlockSource::Invalid),
                BlockSource::Invalid => Lookup::Found(None),
            },
        }
    }

    /// Code by hash: from the pending state, else the latest state.
    pub fn bytecode<B>(asked: BlockSource, answer: Option<B>) -> (r: Lookup<B>)
        ensures
            match answer {
                Some(b) => r == Lookup::Found(Some(b)),
                None => match asked {
                    BlockSource::Pending => r == Lookup::<B>::Ask(BlockSource::Provider),
                    _ => r == Lookup::<B>::Found(None),
                },
            },
    {
        match answer {
            Some(b) => Lookup::Found(Some(b)),
            None => match asked {
                BlockSource::Pending => Lookup::Ask(BlockSource::Provider),
                _ => Lookup::Found(None),
            },
        }
    }

    /// A witness is served only for blocks at most `max_witness_window` behind the tip.
    pub fn check_witness_window(&self, canonical_tip: u64, target_number: u64) -> (r: Result<(), ProviderError>)
        ensures
            r is Ok <==> canonical_tip - target_number <= self.max_witness_window,
            r matches Err(e) ==> (e matches ProviderError::TrieWitnessError(m) && m@
                == "witness target block exceeds maximum witness window"@),
    {
        if canonical_tip.saturating_sub(target_number) > self.max_witness_window {
            return Err(ProviderError::TrieWitnessError("witness target block exceeds maximum witness window".to_owned()));
        }
        Ok(())
    }

    /// The canonical tip's hash as the database answered it: a missing hash is reported as
    /// not found, with the zero hash standing for it.
    pub fn tip_hash(answer: Option<B256>) -> (r: Result<B256, ProviderError>)
        ensures
            answer matches Some(h) ==> r == Ok::<B256, ProviderError>(h),
            answer is None ==> (r matches Err(ProviderError::BlockHashNotFound(h)) && h == zero_word()),
    {
        match answer {
            Some(h) => Ok(h),
            None => Err(ProviderError::BlockHashNotFound(zero())),
        }
    }

    /// The witness target block as looked up by its hash: a missing block is reported as not
    /// found, with its hash.
    pub fn target_block<B>(block_hash: B256, answer: Option<B>) -> (r: Result<B, ProviderError>)
        ensures
            answer matches Some(b) ==> r == Ok::<B, ProviderError>(b),
            answer is None ==> (r matches Err(ProviderError::BlockHashNotFound(h)) && h == block_hash),
    {
        match answer {
            Some(b) => Ok(b),
            None => Err(ProviderError::BlockHashNotFound(block_hash)),
        }
    }

    /// The canonical tip is unchanged since the snapshot: same number and same hash.
    pub fn validate_snapshot_consistency(
        snapshot_tip: u64,
        snapshot_tip_hash: &B256,
        current_tip: u64,
        current_tip_hash: &B256,
    ) -> (r: Result<(), ProviderError>)
        ensures
            r is Ok <==> current_tip == snapshot_tip && current_tip_hash == snapshot_tip_hash,
            r matches Err(e) ==> (e matches ProviderError::TrieWitnessError(m) && m@
                == "Chain reorganization detected during witness generation"@),
    {
        let same_hash = bytes_eq(current_tip_hash.as_slice(), snapshot_tip_hash.as_slice());
        proof {
            if same_hash {
                assert(*current_tip_hash =~= *snapshot_tip_hash);
            }
        }
        if current_tip != snapshot_tip || !same_hash {
            return Err(ProviderError::TrieWitnessError("Chain reorganization detected during witness generation".to_owned()));
        }
        Ok(())
    }

    /// How many ancestor headers the BLOCKHASH opcode may need.
    pub fn headers_needed(lowest_block_number: Option<u64>, block_number: u64) -> (r: u64)
        requires
            lowest_block_number matches Some(s) ==> s <= block_number,
        ensures
            r == headers_needed_spec(lowest_block_number, block_number),
    {
        match lowest_block_number {
            Some(smallest) => {
                let d = block_number - smallest;
                if d <= MAX_BLOCKHASH_HEADERS {
                    d
                } else {
                    MAX_BLOCKHASH_HEADERS
                }
            },
            None => 1,
        }
    }
}

/// What is asked about an ancestor of the witness target.
#[derive(Clone, Copy, Debug, PartialEq, Eq, Structural)]
pub enum AncestorQuery {
    /// Whether the database holds the state after the block.
    State,
    /// The block, among the locally executed blocks.
    Executed,
    /// The block, among the locally tracked invalid blocks.
    Invalid,
}

/// What to do next in a walk back over the ancestors of a witness target.
#[derive(Debug)]
pub enum WalkStep {
    /// Ask this about the ancestor with the walk's current hash.
    Ask(AncestorQuery),
    /// The database holds the state after the block with this hash: the walk is over.
    Done(B256),
    /// The walk cannot go on.
    Fail(ProviderError),
}

/// Each passed ancestor's hash is the parent hash of the one passed before it, starting
/// from `start`, and `hash` is the parent hash of the last one passed.
pub open spec fn links_from(start: B256, links: Seq<(B256, B256)>, hash: B256) -> bool {
    &&& links.len() == 0 ==> hash == start
    &&& links.len() > 0 ==> links[0].0 == start && hash == links.last().1
    &&& forall|i: int| 0 <= i < links.len() - 1 ==> #[trigger] links[i + 1].0 == links[i].1
}

/// The walk from a witness target's parent back to the first ancestor whose state the
/// database holds, passing the ancestors that were executed locally.
#[derive(Debug)]
pub struct AncestorWalk<B> {
    /// The passed ancestors, newest first.
    pub chain: Vec<B>,
    /// The hash of each passed ancestor and of its parent.
    pub links: Vec<(B256, B256)>,
    /// The target's parent hash, where the walk starts.
    pub start: B256,
    /// The hash of the ancestor being asked about.
    pub hash: B256,
}

impl<B> AncestorWalk<B> {
    /// One link per passed ancestor, and the links lead from the start to the current hash.
    pub open spec fn wf(self) -> bool {
        &&& self.chain@.len() == self.links@.len()
        &&& links_from(self.start, self.links@, self.hash)
    }

    /// Starts the walk at the target's parent: whether its state is held is asked first.
    pub fn new(parent_hash: B256) -> (r: (AncestorWalk<B>, WalkStep))
        ensures
            r.0.wf(),
            r.0.chain@.len() == 0,
            r.0.start == parent_hash,
            r.0.hash == parent_hash,
            r.1 == WalkStep::Ask(AncestorQuery::State),
    {
        (AncestorWalk { chain: Vec::new(), links: Vec::new(), start: parent_hash, hash: parent_hash }, WalkStep::Ask(AncestorQuery::State))
    }

    /// Whether the database holds the state after the current ancestor: if so the walk is
    /// over there, else the ancestor is looked for among the executed blocks.
    pub fn on_state(&self, available: bool) -> (r: WalkStep)
        ensures
            available ==> r == WalkStep::Done(self.hash),
            !available ==> r == WalkStep::Ask(AncestorQuery::Executed),
    {
        if available {
            WalkStep::Done(self.hash)
        } else {
            WalkStep::Ask(AncestorQuery::Executed)
        }
    }

    /// The current ancestor as a block and its parent hash, if the source asked has it:
    /// the walk passes it and asks about its parent; if the executed blocks lack it the
    /// invalid blocks are asked, and if they lack it too the walk fails.
    pub fn on_block(&mut self, asked: AncestorQuery, found: Option<(B, B256)>) -> (r: WalkStep)
        requires
            old(self).wf(),
        ensures
            final(self).wf(),
            final(self).start == old(self).start,
            match found {
                Some((b, parent)) => {
                    &&& final(self).chain@ == old(self).chain@.push(b)
                    &&& final(self).links@ == old(self).links@.push((old(self).hash, parent))
                    &&& final(self).hash == parent
                    &&& r == WalkStep::Ask(AncestorQuery::State)
                },
                None => {
                    &&& final(self).chain@ == old(self).chain@
                    &&& final(self).links@ == old(self).links@
                    &&& final(self).hash == old(self).hash
                    &&& asked == AncestorQuery::Executed ==> r == WalkStep::Ask(AncestorQuery::Invalid)
                    &&& asked != AncestorQuery::Executed ==> (r matches WalkStep::Fail(ProviderError::StateForHashNotFound(h))
                        && h == old(self).hash)
                },
            },
    {
        match found {
            Some((b, parent)) => {
                let ghost l0 = self.links@;
                self.chain.push(b);
                self.links.push((self.hash, parent));
                self.hash = parent;
                proof {
                    assert forall|i: int| 0 <= i < self.links@.len() - 1 implies #[trigger] self.links@[i + 1].0 == self.links@[i].1 by {
                        if i + 1 < l0.len() {
                            assert(self.links@[i + 1] == l0[i + 1] && self.links@[i] == l0[i]);
                        } else {
                            assert(self.links@[i] == l0[i]);
                        }
                    }
                }
                WalkStep::Ask(AncestorQuery::State)
            },
            None => {
                if asked == AncestorQuery::Executed {
                    WalkStep::Ask(AncestorQuery::Invalid)
                } else {
                    WalkStep::Fail(ProviderError::StateForHashNotFound(self.hash))
                }
            },
        }
    }
}

/// What to do next when collecting ancestor headers from the database.
#[derive(Debug)]
pub enum HeaderStep {
    /// Look up the header with this hash in this source.
    Ask(BlockSource, B256),
    /// The collection is over.
    Done,
}

/// Ancestor headers collected for the BLOCKHASH opcode, newest first, walking back from
/// the witness target's parent.
#[derive(Debug)]
pub struct HeaderCollection {
    /// The RLP encodings of the collected headers, newest first.
    pub headers: Vec<Vec<u8>>,
    /// The hash of the next header to collect: the parent hash of the last one collected.
    pub current_hash: B256,
    /// How many headers are needed.
    pub needed: u64,
    /// An encoding met on the walk was not a header's: the walk cannot go on.
    pub ended: bool,
}

impl HeaderCollection {
    /// Never more headers than needed.
    pub open spec fn wf(self) -> bool {
        self.headers@.len() <= self.needed
    }

    /// Starts from the encodings of the executed ancestors, newest first, which are known to
    /// be consistent: as many of them as are needed, walking on from the parent of the last
    /// one taken. An encoding that does not decode as a header is not taken and ends the walk.
    pub fn from_ancestors(ancestors: &Vec<Vec<u8>>, parent_hash: &B256, needed: u64) -> (r: HeaderCollection)
        ensures
            r.wf(),
            r.needed == needed,
            ({
                let taken = if ancestors@.len() < needed { ancestors@.len() as int } else { needed as int };
                let k = r.headers@.len() as int;
                &&& k <= taken
                &&& bytes_view(r.headers@) == bytes_view(ancestors@).take(k)
                &&& forall|i: int| 0 <= i < k ==> header_parent(#[trigger] ancestors@[i]@) is Some
                &&& r.ended <==> k < taken
                &&& k < taken ==> header_parent(ancestors@[k]@) is None
                &&& k == 0 ==> r.current_hash == *parent_hash
                &&& k > 0 ==> header_parent(ancestors@[k - 1]@) == Some(r.current_hash@)
            }),
    {
        let mut headers: Vec<Vec<u8>> = Vec::new();
        let mut current_hash = *parent_hash;
        let mut i: usize = 0;
        let mut ended = false;
        while i < ancestors.len()
            invariant_except_break
                !ended,
            invariant
                i <= ancestors@.len(),
                i <= needed,
                headers@.len() == i,
                bytes_view(headers@) == bytes_view(ancestors@).take(i as int),
                forall|j: int| 0 <= j < i ==> header_parent(#[trigger] ancestors@[j]@) is Some,
                i == 0 ==> current_hash == *parent_hash,
                i > 0 ==> header_parent(ancestors@[i - 1]@) == Some(current_hash@),
            ensures
                i <= ancestors@.len(),
                i <= needed,
                headers@.len() == i,
                bytes_view(headers@) == bytes_view(ancestors@).take(i as int),
                forall|j: int| 0 <= j < i ==> header_parent(#[trigger] ancestors@[j]@) is Some,
                i == 0 ==> current_hash == *parent_hash,
                i > 0 ==> header_parent(ancestors@[i - 1]@) == Some(current_hash@),
                ended ==> i < ancestors@.len() && i < needed && header_parent(ancestors@[i as int]@) is None,
                !ended ==> i == ancestors@.len() || i == needed,
            decreases ancestors@.len() - i,
        {
            if i as u64 >= needed {
                break;
            }
            match parent_of(&ancestors[i]) {
                Some(parent) => {
                    let rlp = crate::bytes::copy_bytes(ancestors[i].as_slice());
                    let ghost before = headers@;
                    headers.push(rlp);
                    proof {
                        assert(headers@ == before.push(rlp));
                        assert(rlp@ == ancestors@[i as int]@);
                        assert(bytes_view(headers@) =~= bytes_view(before).push(rlp@));
                        assert(bytes_view(headers@) =~= bytes_view(ancestors@).take(i + 1));
                    }
                    current_hash = parent;
                    i = i + 1;
                },
                None => {
                    ended = true;
                    break;
                },
            }
        }
        HeaderCollection { headers, current_hash, needed, ended }
    }

    /// The first lookup in the database: the next header from the pending blocks, if more
    /// are needed and the walk can go on.
    pub fn first_step(&self) -> (r: HeaderStep)
        ensures
            !self.ended && self.headers@.len() < self.needed ==> r == HeaderStep::Ask(BlockSource::Pending, self.current_hash),
            self.ended || self.headers@.len() >= self.needed ==> r == HeaderStep::Done,
    {
        if !self.ended && (self.headers.len() as u64) < self.needed {
            HeaderStep::Ask(BlockSource::Pending, self.current_hash)
        } else {
            HeaderStep::Done
        }
    }

    /// The encoding of the header the source asked has for the current hash, if any: a found
    /// header is collected and the walk goes on to its parent, read from the header itself,
    /// while more are needed; a header the pending blocks lack is looked up in the database,
    /// and one the database lacks too ends the collection (invalid blocks are never
    /// collected). An encoding that does not decode as a header is not collected and ends
    /// the walk.
    pub fn on_header(&mut self, asked: BlockSource, found: Option<Vec<u8>>) -> (r: HeaderStep)
        requires
            old(self).wf(),
            !old(self).ended,
            old(self).headers@.len() < old(self).needed,
        ensures
            final(self).wf(),
            final(self).needed == old(self).needed,
            match found {
                Some(rlp) => match header_parent(rlp@) {
                    Some(p) => {
                        &&& bytes_view(final(self).headers@) == bytes_view(old(self).headers@).push(rlp@)
                        &&& final(self).current_hash@ == p
                        &&& !final(self).ended
                        &&& final(self).headers@.len() < final(self).needed ==> r == HeaderStep::Ask(BlockSource::Pending, final(self).current_hash)
                        &&& final(self).headers@.len() >= final(self).needed ==> r == HeaderStep::Done
                    },
                    None => {
                        &&& final(self).headers@ == old(self).headers@
                        &&& final(self).current_hash == old(self).current_hash
                        &&& final(self).ended
                        &&& r == HeaderStep::Done
                    },
                },
                None => {
                    &&& final(self).headers@ == old(self).headers@
                    &&& final(self).current_hash == old(self).current_hash
                    &&& !final(self).ended
                    &&& asked == BlockSource::Pending ==> r == HeaderStep::Ask(BlockSource::Provider, old(self).current_hash)
                    &&& asked != BlockSource::Pending ==> r == HeaderStep::Done
                },
            },
    {
        match found {
            Some(rlp) => match parent_of(&rlp) {
                Some(parent) => {
                    let ghost before = self.headers@;
                    let ghost bytes = rlp;
                    self.headers.push(rlp);
                    self.current_hash = parent;
                    proof {
                        assert(self.headers@ == before.push(bytes));
                        assert(bytes_view(self.headers@) =~= bytes_view(before).push(bytes@));
                    }
                    if (self.headers.len() as u64) < self.needed {
                        HeaderStep::Ask(BlockSource::Pending, self.current_hash)
                    } else {
                        HeaderStep::Done
                    }
                },
                None => {
                    self.ended = true;
                    HeaderStep::Done
                },
            },
            None => {
                if asked == BlockSource::Pending {
                    HeaderStep::Ask(BlockSource::Provider, self.current_hash)
                } else {
                    HeaderStep::Done
                }
            },
        }
    }

    /// The collected headers in chronological order, oldest first.
    pub fn finish(self) -> (r: Vec<Vec<u8>>)
        ensures
            bytes_view(r@) == bytes_view(self.headers@).reverse(),
    {
        let mut headers = self.headers;
        let ghost h0 = headers@;
        let mut out: Vec<Vec<u8>> = Vec::new();
        while headers.len() > 0
            invariant
                h0.len() == headers@.len() + out@.len(),
                headers@ == h0.take(headers@.len() as int),
                bytes_view(out@) == bytes_view(h0).reverse().take(out@.len() as int),
            decreases headers@.len(),
        {
            let ghost before = out@;
            let x = headers.pop().unwrap();
            proof {
                assert(x == h0[headers@.len() as int]);
            }
            out.push(x);
            proof {
                assert(out@ == before.push(x));
                assert(headers@ =~= h0.take(headers@.len() as int));
                assert(bytes_view(out@) =~= bytes_view(h0).reverse().take(out@.len() as int));
            }
        }
        assert(bytes_view(h0).reverse().take(h0.len() as int) =~= bytes_view(h0).reverse());
        out
    }
}

/// A collection of headers for the BLOCKHASH opcode never holds more than 256 headers.
pub proof fn lemma_headers_at_most_window(c: HeaderCollection, lowest: Option<u64>, block_number: u64)
    requires
        c.wf(),
        lowest matches Some(s) ==> s <= block_number,
        c.needed == headers_needed_spec(lowest, block_number),
    ensures
        c.headers@.len() <= MAX_BLOCKHASH_HEADERS,
{
}

/// Whether the hashed state is empty: no account and no storage.
pub fn hashed_state_is_empty(state: &HashedPostState) -> (r: bool)
    ensures
        r <==> state.accounts@.len() == 0 && state.storages@.len() == 0,
{
    state.accounts.len() == 0 && state.storages.len() == 0
}

/// The state of a witness when no state was accessed: just the root node of the state
/// trie, when the proof has one.
pub fn root_node_state(root_node: Option<Vec<u8>>) -> (r: Vec<Vec<u8>>)
    ensures
        match root_node {
            Some(n) => r@ == seq![n],
            None => r@.len() == 0,
        },
{
    let mut state: Vec<Vec<u8>> = Vec::new();
    if let Some(n) = root_node {
        state.push(n);
    }
    state
}

/// The result of a witness task: the witness or the task's error, or that the task was
/// dropped before answering.
pub fn witness_task_result<W>(answer: Option<Result<W, ProviderError>>) -> (r: Result<W, ProviderError>)
    ensures
        match answer {
            Some(res) => r == res,
            None => r matches Err(ProviderError::TrieWitnessError(m)) && m@ == "dropped"@,
        },
{
    match answer {
        Some(res) => res,
        None => Err(ProviderError::TrieWitnessError("dropped".to_owned())),
    }
}

} // verus!
