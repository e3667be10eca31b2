//! Ancestor-header checks of stateless validation: the headers handed in with a
//! block must form a contiguous chain back from the block's parent, and give the
//! block hashes that the `BLOCKHASH` opcode may ask for.

use vstd::prelude::*;
use std::collections::BTreeMap;
use crate::bytes::{bytes_eq, keccak, keccak256, Address, B256};
use crate::state::{AccountInfo, AccountState, Cache, DbAccount};

verus! {

broadcast use {vstd::array::group_array_axioms, vstd::seq_lib::group_to_multiset_ensures};

/// How many of the most recent ancestors the `BLOCKHASH` opcode can reach.
pub const BLOCKHASH_ANCESTOR_LIMIT: usize = 256;

/// The fields of a block header that stateless validation reads, with the hash it was sealed with.
#[derive(Clone, Copy, Debug)]
pub struct SealedHeader {
    /// Block number.
    pub number: u64,
    /// Hash of the header.
    pub hash: B256,
    /// Hash of the parent block's header.
    pub parent_hash: B256,
    /// State root after the block.
    pub state_root: B256,
}

/// Errors that can occur during stateless validation.
#[derive(Debug)]
pub enum StatelessValidationError {
    /// The number of ancestor headers exceeds the limit.
    AncestorHeaderLimitExceeded {
        /// The number of headers provided.
        count: usize,
        /// The limit.
        limit: usize,
    },
    /// The ancestor headers do not form a contiguous chain.
    InvalidAncestorChain,
    /// Revealing the witness data failed.
    WitnessRevealFailed {
        /// The pre-state root used for verification.
        pre_state_root: B256,
    },
    /// Stateless block execution failed.
    StatelessExecutionFailed(String),
    /// Consensus validation of the block failed.
    ConsensusValidationFailed(String),
    /// Stateless state root calculation failed.
    StatelessStateRootCalculationFailed,
    /// Calculating the pre-state root from the witness data failed.
    StatelessPreStateRootCalculationFailed,
    /// A required ancestor header (such as the parent header) is missing.
    MissingAncestorHeader,
    /// Ancestor headers could not be decoded.
    HeaderDeserializationFailed,
    /// The computed post-state root differs from the one in the block header.
    PostStateRootMismatch {
        /// The computed post-state root.
        got: B256,
        /// The expected post-state root, from the block header.
        expected: B256,
    },
    /// The computed pre-state root differs from the expected one.
    PreStateRootMismatch {
        /// The computed pre-state root.
        got: B256,
        /// The expected pre-state root, from the previous block.
        expected: B256,
    },
    /// Signer recovery failed.
    SignerRecovery,
    /// A signature has a non-normalized s value in a homestead block.
    HomesteadSignatureNotNormalized,
    /// A custom error.
    Custom(&'static str),
    /// The flat state and the sparse trie disagree.
    FlatdbSparseTrieMismatch,
}

/// `parent` is the block right before `child`: hashes and numbers link up.
pub open spec fn links(child: SealedHeader, parent: SealedHeader) -> bool {
    child.parent_hash == parent.hash && parent.number + 1 == child.number
}

/// The header that follows `a[i]`: the next ancestor, or the current block after the last one.
pub open spec fn child_of(current: SealedHeader, a: Seq<SealedHeader>, i: int) -> SealedHeader {
    if i + 1 < a.len() {
        a[i + 1]
    } else {
        current
    }
}

/// Every ancestor from position `i` on links to the header that follows it.
pub open spec fn linked_from(current: SealedHeader, a: Seq<SealedHeader>, i: int) -> bool {
    forall|j: int| i <= j < a.len() ==> links(child_of(current, a, j), #[trigger] a[j])
}

/// Walking the ancestors back from the current block reaches, with its hash matching,
/// a header whose number cannot be incremented.
pub open spec fn walk_overflows(current: SealedHeader, a: Seq<SealedHeader>) -> bool {
    exists|i: int|
        0 <= i < a.len() && linked_from(current, a, i + 1) && child_of(current, a, i).parent_hash
            == (#[trigger] a[i]).hash && a[i].number == u64::MAX
}

/// The headers, in any order, are exactly the ancestors right before `current`, each once,
/// each hash-linked to the block that follows it.
pub open spec fn forms_chain(current: SealedHeader, s: Seq<SealedHeader>) -> bool {
    &&& s.no_duplicates()
    &&& forall|x: SealedHeader, y: SealedHeader|
        #[trigger] s.contains(x) && #[trigger] s.contains(y) && x.number == y.number ==> x == y
    &&& forall|x: SealedHeader|
        #[trigger] s.contains(x) ==> x.number < current.number && current.number <= x.number + s.len()
    &&& forall|x: SealedHeader|
        #[trigger] s.contains(x) && x.number + 1 == current.number ==> x.hash == current.parent_hash
    &&& forall|x: SealedHeader, y: SealedHeader|
        #[trigger] s.contains(x) && #[trigger] s.contains(y) && y.number == x.number + 1 ==> x.hash == y.parent_hash
}

/// Block numbers never decrease along the sequence.
pub open spec fn sorted_by_number(s: Seq<SealedHeader>) -> bool {
    forall|i: int, j: int| 0 <= i < j < s.len() ==> #[trigger] s[i].number <= #[trigger] s[j].number
}

/// Some header has the largest block number and is the current block's parent by hash.
pub open spec fn has_overflowing_parent(current: SealedHeader, s: Seq<SealedHeader>) -> bool {
    exists|x: SealedHeader| #[trigger] s.contains(x) && x.number == u64::MAX && x.hash == current.parent_hash
}

/// The map from each header's block number to its hash.
pub open spec fn hash_map_of(m: Map<u64, B256>, s: Seq<SealedHeader>) -> bool {
    &&& forall|i: int| 0 <= i < s.len() ==> m.contains_key(#[trigger] s[i].number) && m[s[i].number] == s[i].hash
    &&& forall|n: u64| #[trigger] m.contains_key(n) ==> exists|i: int| 0 <= i < s.len() && #[trigger] s[i].number == n
}

/// Checks that the ancestor headers (assumed ascending) form an unbroken chain back from
/// `current`, and maps each ancestor's number to its hash.
pub fn compute_ancestor_hashes(current: &SealedHeader, ancestors: &Vec<SealedHeader>) -> (r: Result<BTreeMap<u64, B256>, StatelessValidationError>)
    requires
        !walk_overflows(*current, ancestors@),
    ensures
        r is Ok <==> linked_from(*current, ancestors@, 0),
        r is Err ==> r matches Err(StatelessValidationError::InvalidAncestorChain),
        r matches Ok(m) ==> hash_map_of(m@, ancestors@),
{
    let ghost a = ancestors@;
    let n = ancestors.len();
    let mut map: BTreeMap<u64, B256> = BTreeMap::new();
    let mut child: SealedHeader = *current;
    let mut i = n;
    while i > 0
        invariant
            n == a.len(),
            a == ancestors@,
            i <= n,
            child == child_of(*current, a, i - 1),
            linked_from(*current, a, i as int),
            !walk_overflows(*current, a),
            forall|j: int| i <= j < n ==> (#[trigger] a[j]).number >= child.number,
            forall|j: int| i <= j < n ==> map@.contains_key(#[trigger] a[j].number) && map@[a[j].number] == a[j].hash,
            forall|k: u64| #[trigger] map@.contains_key(k) ==> exists|j: int| i <= j < n && #[trigger] a[j].number == k,
        decreases i,
    {
        let p = ancestors[i - 1];
        let parent_hash = child.parent_hash;
        map.insert(p.number, parent_hash);
        if !bytes_eq(parent_hash.as_slice(), p.hash.as_slice()) {
            assert(!links(child_of(*current, a, i - 1), a[i - 1]));
            return Err(StatelessValidationError::InvalidAncestorChain);
        }
        assert(parent_hash =~= p.hash);
        assert(p.number < u64::MAX) by {
            if p.number == u64::MAX {
                assert(a[i - 1] == p);
                assert(walk_overflows(*current, a));
            }
        }
        if p.number + 1 != child.number {
            assert(!links(child_of(*current, a, i - 1), a[i - 1]));
            return Err(StatelessValidationError::InvalidAncestorChain);
        }
        proof {
            assert(links(child, p));
            assert forall|j: int| i - 1 <= j < n implies links(child_of(*current, a, j), #[trigger] a[j]) by {
                if j == i - 1 {
                    assert(a[j] == p);
                }
            }
            assert forall|j: int| i - 1 <= j < n implies map@.contains_key(#[trigger] a[j].number) && map@[a[j].number] == a[j].hash by {
                if j > i - 1 {
                    assert(a[j].number >= child.number);
                    assert(a[j].number != p.number);
                }
            }
            assert forall|k: u64| #[trigger] map@.contains_key(k) implies exists|j: int| i - 1 <= j < n && #[trigger] a[j].number == k by {
                if k == p.number {
                    assert(a[i - 1].number == k);
                } else {
                    let j = choose|j: int| i <= j < n && #[trigger] a[j].number == k;
                    assert(a[j].number == k);
                }
            }
        }
        child = p;
        i = i - 1;
    }
    Ok(map)
}

/// Along a linked walk, the ancestor at position `j` is `len - j` blocks before the current one.
proof fn lemma_linked_numbers(current: SealedHeader, r: Seq<SealedHeader>, i: int)
    requires
        linked_from(current, r, 0),
        0 <= i <= r.len(),
    ensures
        forall|j: int| i <= j < r.len() ==> (#[trigger] r[j]).number + (r.len() - j) == current.number,
    decreases r.len() - i,
{
    if i < r.len() {
        lemma_linked_numbers(current, r, i + 1);
        assert(links(child_of(current, r, i), r[i]));
        if i + 1 < r.len() {
            assert(r[i + 1].number + (r.len() - (i + 1)) == current.number);
        }
    }
}

/// A linked walk of ancestors forms a chain.
pub proof fn lemma_linked_forms_chain(current: SealedHeader, r: Seq<SealedHeader>)
    requires
        linked_from(current, r, 0),
    ensures
        forms_chain(current, r),
{
    lemma_linked_numbers(current, r, 0);
    let n = r.len();
    assert forall|x: SealedHeader, y: SealedHeader|
        #[trigger] r.contains(x) && #[trigger] r.contains(y) && x.number == y.number implies x == y by {
        let i = choose|i: int| 0 <= i < n && r[i] == x;
        let j = choose|j: int| 0 <= j < n && r[j] == y;
        assert(r[i].number + (n - i) == current.number);
        assert(r[j].number + (n - j) == current.number);
    }
    assert(r.no_duplicates()) by {
        assert forall|i: int, j: int| 0 <= i < n && 0 <= j < n && i != j implies r[i] != r[j] by {
            assert(r[i].number + (n - i) == current.number);
            assert(r[j].number + (n - j) == current.number);
        }
    }
    assert forall|x: SealedHeader| #[trigger] r.contains(x) implies x.number < current.number && current.number <= x.number + n by {
        let i = choose|i: int| 0 <= i < n && r[i] == x;
        assert(r[i].number + (n - i) == current.number);
    }
    assert forall|x: SealedHeader| #[trigger] r.contains(x) && x.number + 1 == current.number implies x.hash == current.parent_hash by {
        let i = choose|i: int| 0 <= i < n && r[i] == x;
        assert(r[i].number + (n - i) == current.number);
        assert(links(child_of(current, r, i), r[i]));
    }
    assert forall|x: SealedHeader, y: SealedHeader|
        #[trigger] r.contains(x) && #[trigger] r.contains(y) && y.number == x.number + 1 implies x.hash == y.parent_hash by {
        let i = choose|i: int| 0 <= i < n && r[i] == x;
        let j = choose|j: int| 0 <= j < n && r[j] == y;
        assert(r[i].number + (n - i) == current.number);
        assert(r[j].number + (n - j) == current.number);
        assert(j == i + 1);
        assert(links(child_of(current, r, i), r[i]));
    }
}

/// In a chain sorted by number, each header's number is one more than the one before.
proof fn lemma_sorted_chain_gaps(current: SealedHeader, r: Seq<SealedHeader>, i: int, j: int)
    requires
        sorted_by_number(r),
        forms_chain(current, r),
        0 <= i <= j < r.len(),
    ensures
        r[j].number >= r[i].number + (j - i),
    decreases j - i,
{
    if i < j {
        lemma_sorted_chain_gaps(current, r, i, j - 1);
        assert(r[j - 1].number <= r[j].number);
        assert(r.contains(r[j - 1]) && r.contains(r[j]));
        if r[j - 1].number == r[j].number {
            assert(r[j - 1] == r[j]);
        }
    }
}

/// A chain, sorted by number, is a linked walk back from the current block.
pub proof fn lemma_sorted_chain_linked(current: SealedHeader, r: Seq<SealedHeader>)
    requires
        sorted_by_number(r),
        forms_chain(current, r),
    ensures
        linked_from(current, r, 0),
{
    let n = r.len();
    if n > 0 {
        assert forall|i: int| 0 <= i < n implies (#[trigger] r[i]).number + (n - i) == current.number by {
            lemma_sorted_chain_gaps(current, r, 0, i);
            lemma_sorted_chain_gaps(current, r, i, n - 1);
            assert(r.contains(r[0]) && r.contains(r[n - 1]));
        }
        assert forall|j: int| 0 <= j < n implies links(child_of(current, r, j), #[trigger] r[j]) by {
            assert(r.contains(r[j]));
            if j + 1 < n {
                assert(r.contains(r[j + 1]));
                assert(r[j + 1].number + (n - (j + 1)) == current.number);
            }
        }
    }
}

/// A chain stays a chain when its headers are listed anew, each as often.
proof fn lemma_chain_transfer(current: SealedHeader, s1: Seq<SealedHeader>, s2: Seq<SealedHeader>)
    requires
        forall|x: SealedHeader| #[trigger] s1.contains(x) <==> s2.contains(x),
        s1.len() == s2.len(),
        s2.no_duplicates(),
        forms_chain(current, s1),
    ensures
        forms_chain(current, s2),
{
    assert forall|x: SealedHeader, y: SealedHeader|
        #[trigger] s2.contains(x) && #[trigger] s2.contains(y) && x.number == y.number implies x == y by {
        assert(s1.contains(x) && s1.contains(y));
    }
    assert forall|x: SealedHeader| #[trigger] s2.contains(x) implies x.number < current.number && current.number <= x.number + s2.len() by {
        assert(s1.contains(x));
    }
    assert forall|x: SealedHeader| #[trigger] s2.contains(x) && x.number + 1 == current.number implies x.hash == current.parent_hash by {
        assert(s1.contains(x));
    }
    assert forall|x: SealedHeader, y: SealedHeader|
        #[trigger] s2.contains(x) && #[trigger] s2.contains(y) && y.number == x.number + 1 implies x.hash == y.parent_hash by {
        assert(s1.contains(x) && s1.contains(y));
    }
}

/// Whether headers form a chain depends only on which headers they are, not on their order.
pub proof fn lemma_chain_same_multiset(current: SealedHeader, s1: Seq<SealedHeader>, s2: Seq<SealedHeader>)
    requires
        s1.to_multiset() == s2.to_multiset(),
    ensures
        forms_chain(current, s1) == forms_chain(current, s2),
        has_overflowing_parent(current, s1) == has_overflowing_parent(current, s2),
        s1.len() == s2.len(),
{
    assert forall|x: SealedHeader| #[trigger] s1.contains(x) <==> s2.contains(x) by {
        assert(s1.contains(x) <==> s1.to_multiset().count(x) > 0);
        assert(s2.contains(x) <==> s2.to_multiset().count(x) > 0);
    }
    assert(s1.len() == s1.to_multiset().len());
    assert(s2.len() == s2.to_multiset().len());
    if s1.no_duplicates() {
        s1.lemma_multiset_has_no_duplicates();
        s2.lemma_multiset_has_no_duplicates_conv();
    }
    if s2.no_duplicates() {
        s2.lemma_multiset_has_no_duplicates();
        s1.lemma_multiset_has_no_duplicates_conv();
    }
    if forms_chain(current, s1) {
        lemma_chain_transfer(current, s1, s2);
    }
    if forms_chain(current, s2) {
        lemma_chain_transfer(current, s2, s1);
    }
    if has_overflowing_parent(current, s1) {
        let x = choose|x: SealedHeader| #[trigger] s1.contains(x) && x.number == u64::MAX && x.hash == current.parent_hash;
        assert(s2.contains(x));
    }
    if has_overflowing_parent(current, s2) {
        let x = choose|x: SealedHeader| #[trigger] s2.contains(x) && x.number == u64::MAX && x.hash == current.parent_hash;
        assert(s1.contains(x));
    }
}

/// In a sorted sequence, only the last header can make the walk overflow.
proof fn lemma_sorted_walk_overflow(current: SealedHeader, r: Seq<SealedHeader>)
    requires
        sorted_by_number(r),
        !has_overflowing_parent(current, r),
    ensures
        !walk_overflows(current, r),
{
    if walk_overflows(current, r) {
        let i = choose|i: int|
            0 <= i < r.len() && linked_from(current, r, i + 1) && child_of(current, r, i).parent_hash
                == (#[trigger] r[i]).hash && r[i].number == u64::MAX;
        if i + 1 < r.len() {
            assert(r[i].number <= r[i + 1].number);
            assert(links(child_of(current, r, i + 1), r[i + 1]));
        } else {
            assert(r.contains(r[i]));
        }
    }
}

/// Sorts headers by block number.
fn sort_by_number(hs: &Vec<SealedHeader>) -> (r: Vec<SealedHeader>)
    ensures
        sorted_by_number(r@),
        r@.to_multiset() == hs@.to_multiset(),
{
    let mut r: Vec<SealedHeader> = Vec::new();
    let mut i: usize = 0;
    while i < hs.len()
        invariant
            i <= hs@.len(),
            sorted_by_number(r@),
            r@.to_multiset() == hs@.take(i as int).to_multiset(),
        decreases hs@.len() - i,
    {
        let x = hs[i];
        let mut p: usize = 0;
        while p < r.len()
            invariant
                p <= r@.len(),
                forall|q: int| 0 <= q < p ==> (#[trigger] r@[q]).number <= x.number,
            ensures
                p <= r@.len(),
                forall|q: int| 0 <= q < p ==> (#[trigger] r@[q]).number <= x.number,
                p < r@.len() ==> r@[p as int].number > x.number,
            decreases r@.len() - p,
        {
            if r[p].number > x.number {
                break;
            }
            p = p + 1;
        }
        let ghost r0 = r@;
        r.insert(p, x);
        proof {
            assert(r@ == r0.insert(p as int, x));
            assert forall|a: int, b: int| 0 <= a < b < r@.len() implies #[trigger] r@[a].number <= #[trigger] r@[b].number by {
                if b < p {
                    assert(r@[a] == r0[a] && r@[b] == r0[b]);
                } else if b == p {
                    assert(r@[a] == r0[a]);
                } else if a < p {
                    assert(r@[a] == r0[a] && r@[b] == r0[b - 1]);
                    assert(r0[p as int].number <= r0[b - 1].number);
                } else if a == p {
                    assert(r@[b] == r0[b - 1]);
                    assert(r0[p as int].number <= r0[b - 1].number);
                } else {
                    assert(r@[a] == r0[a - 1] && r@[b] == r0[b - 1]);
                }
            }
            vstd::seq_lib::to_multiset_insert(r0, p as int, x);
            assert(hs@.take(i + 1) =~= hs@.take(i as int).push(x));
        }
        i = i + 1;
    }
    assert(hs@.take(hs@.len() as int) =~= hs@);
    r
}

/// The header that `bytes` (an RLP-encoded header) decodes to, as
/// `(number, parent hash, state root)`; `None` when decoding fails or leaves bytes over.
pub uninterp spec fn rlp_header(bytes: Seq<u8>) -> Option<(u64, Seq<u8>, Seq<u8>)>;

/// Calls `alloy_rlp::decode_exact::<alloy_consensus::Header>`, which decodes one RLP header
/// and fails when bytes are left over. Claimed: the result is `rlp_header` of the bytes,
/// a function of the bytes alone, with the number, parent hash and state root of the header.
#[verifier::external_body]
pub(crate) fn decode_header_exact(bytes: &[u8]) -> (r: Option<(u64, B256, B256)>)
    ensures
        match r {
            Some(h) => rlp_header(bytes@) == Some((h.0, h.1@, h.2@)),
            None => rlp_header(bytes@) is None,
        },
{
    match alloy_rlp::decode_exact::<alloy_consensus::Header>(bytes) {
        Ok(h) => Some((h.number, h.parent_hash.0, h.state_root.0)),
        Err(_) => None,
    }
}

/// `hs` are the headers the encodings decode to, each sealed with the hash of its encoding.
pub open spec fn decodes_to(headers: Seq<Vec<u8>>, hs: Seq<SealedHeader>) -> bool {
    &&& hs.len() == headers.len()
    &&& forall|i: int| 0 <= i < hs.len() ==> rlp_header(#[trigger] headers[i]@) == Some(
        (hs[i].number, hs[i].parent_hash@, hs[i].state_root@),
    ) && hs[i].hash@ == keccak(headers[i]@)
}

/// Every encoding decodes.
pub open spec fn all_decode(headers: Seq<Vec<u8>>) -> bool {
    forall|i: int| 0 <= i < headers.len() ==> rlp_header(#[trigger] headers[i]@) is Some
}

/// Decodes RLP-encoded ancestor headers, sealing each with the hash of its encoding.
pub fn decode_ancestor_headers(headers: &Vec<Vec<u8>>) -> (r: Result<Vec<SealedHeader>, StatelessValidationError>)
    ensures
        r is Ok <==> all_decode(headers@),
        r is Err ==> r matches Err(StatelessValidationError::HeaderDeserializationFailed),
        r matches Ok(hs) ==> decodes_to(headers@, hs@),
{
    let mut hs: Vec<SealedHeader> = Vec::new();
    let mut i: usize = 0;
    while i < headers.len()
        invariant
            i <= headers@.len(),
            hs@.len() == i,
            forall|j: int| 0 <= j < i ==> rlp_header(#[trigger] headers@[j]@) == Some(
                (hs@[j].number, hs@[j].parent_hash@, hs@[j].state_root@),
            ) && hs@[j].hash@ == keccak(headers@[j]@),
        decreases headers@.len() - i,
    {
        let hash = keccak256(headers[i].as_slice());
        match decode_header_exact(headers[i].as_slice()) {
            Some((number, parent_hash, state_root)) => {
                hs.push(SealedHeader { number, hash, parent_hash, state_root });
            },
            None => {
                return Err(StatelessValidationError::HeaderDeserializationFailed);
            },
        }
        i = i + 1;
    }
    Ok(hs)
}

/// Checks that headers, in any order, form a chain back from the current block's parent,
/// and finds the parent. Returns the parent header and the map from each ancestor's
/// number to its hash.
pub fn ancestor_chain(current: &SealedHeader, hs: &Vec<SealedHeader>) -> (r: Result<(SealedHeader, BTreeMap<u64, B256>), StatelessValidationError>)
    requires
        !has_overflowing_parent(*current, hs@),
    ensures
        !forms_chain(*current, hs@) ==> r matches Err(StatelessValidationError::InvalidAncestorChain),
        hs@.len() == 0 ==> r matches Err(StatelessValidationError::MissingAncestorHeader),
        r is Ok <==> 0 < hs@.len() && forms_chain(*current, hs@),
        r matches Ok((parent, m)) ==> hs@.contains(parent) && parent.number + 1 == current.number
            && hash_map_of(m@, hs@),
{
    let sorted = sort_by_number(hs);
    let count = sorted.len();
    proof {
        lemma_chain_same_multiset(*current, sorted@, hs@);
    }
    proof {
        lemma_sorted_walk_overflow(*current, sorted@);
    }
    let hashes = compute_ancestor_hashes(current, &sorted);
    proof {
        if linked_from(*current, sorted@, 0) {
            lemma_linked_forms_chain(*current, sorted@);
        }
        if forms_chain(*current, sorted@) {
            lemma_sorted_chain_linked(*current, sorted@);
        }
    }
    match hashes {
        Err(e) => Err(e),
        Ok(m) => {
            if count == 0 {
                return Err(StatelessValidationError::MissingAncestorHeader);
            }
            let parent = sorted[count - 1];
            proof {
                lemma_linked_numbers(*current, sorted@, 0);
                assert(sorted@.contains(parent));
                assert(sorted@.to_multiset().count(parent) > 0);
                assert(hs@.contains(parent));
                assert forall|i: int| 0 <= i < hs@.len() implies m@.contains_key(#[trigger] hs@[i].number) && m@[hs@[i].number] == hs@[i].hash by {
                    assert(hs@.contains(hs@[i]));
                    assert(hs@.to_multiset().count(hs@[i]) > 0);
                    assert(sorted@.contains(hs@[i]));
                    let j = choose|j: int| 0 <= j < sorted@.len() && sorted@[j] == hs@[i];
                    assert(m@.contains_key(sorted@[j].number));
                }
                assert forall|k: u64| #[trigger] m@.contains_key(k) implies exists|i: int| 0 <= i < hs@.len() && #[trigger] hs@[i].number == k by {
                    let j = choose|j: int| 0 <= j < sorted@.len() && #[trigger] sorted@[j].number == k;
                    assert(sorted@.contains(sorted@[j]));
                    assert(sorted@.to_multiset().count(sorted@[j]) > 0);
                    assert(hs@.contains(sorted@[j]));
                    let i = choose|i: int| 0 <= i < hs@.len() && hs@[i] == sorted@[j];
                    assert(hs@[i].number == k);
                }
            }
            Ok((parent, m))
        },
    }
}

/// Checks decoded ancestor headers against the current block: at most
/// `BLOCKHASH_ANCESTOR_LIMIT` of them, forming a chain back from the block's parent.
/// Returns the parent header and the map from each ancestor's number to its hash.
pub fn check_ancestor_headers(current: &SealedHeader, hs: &Vec<SealedHeader>) -> (r: Result<(SealedHeader, BTreeMap<u64, B256>), StatelessValidationError>)
    requires
        hs@.len() <= BLOCKHASH_ANCESTOR_LIMIT ==> !has_overflowing_parent(*current, hs@),
    ensures
        hs@.len() > BLOCKHASH_ANCESTOR_LIMIT ==> (r matches Err(StatelessValidationError::AncestorHeaderLimitExceeded { count, limit })
            && count == hs@.len() && limit == BLOCKHASH_ANCESTOR_LIMIT),
        hs@.len() <= BLOCKHASH_ANCESTOR_LIMIT && !forms_chain(*current, hs@) ==> r matches Err(StatelessValidationError::InvalidAncestorChain),
        hs@.len() == 0 ==> r matches Err(StatelessValidationError::MissingAncestorHeader),
        r is Ok <==> 0 < hs@.len() <= BLOCKHASH_ANCESTOR_LIMIT && forms_chain(*current, hs@),
        r matches Ok((parent, m)) ==> hs@.contains(parent) && parent.number + 1 == current.number
            && hash_map_of(m@, hs@),
{
    let count = hs.len();
    if count > BLOCKHASH_ANCESTOR_LIMIT {
        return Err(StatelessValidationError::AncestorHeaderLimitExceeded { count, limit: BLOCKHASH_ANCESTOR_LIMIT });
    }
    ancestor_chain(current, hs)
}

/// The decoded headers would make the ancestor walk overflow: they all decode, stay within
/// the limit, and one with the largest block number is the current block's parent by hash.
pub open spec fn ancestor_walk_overflows(current: SealedHeader, headers: Seq<Vec<u8>>) -> bool {
    exists|hs: Seq<SealedHeader>| #[trigger] decodes_to(headers, hs) && hs.len() <= BLOCKHASH_ANCESTOR_LIMIT
        && has_overflowing_parent(current, hs)
}

/// Decodes and checks the ancestor headers of the current block: they must decode, be at
/// most `BLOCKHASH_ANCESTOR_LIMIT`, and form a chain back from the block's parent.
/// Returns the parent header and the map from each ancestor's number to its hash.
pub fn get_witness_components(current: &SealedHeader, headers: &Vec<Vec<u8>>) -> (r: Result<(SealedHeader, BTreeMap<u64, B256>), StatelessValidationError>)
    requires
        !ancestor_walk_overflows(*current, headers@),
    ensures
        !all_decode(headers@) ==> r matches Err(StatelessValidationError::HeaderDeserializationFailed),
        all_decode(headers@) && headers@.len() > BLOCKHASH_ANCESTOR_LIMIT ==> (r matches Err(
            StatelessValidationError::AncestorHeaderLimitExceeded { count, limit },
        ) && count == headers@.len() && limit == BLOCKHASH_ANCESTOR_LIMIT),
        all_decode(headers@) && headers@.len() == 0 ==> r matches Err(StatelessValidationError::MissingAncestorHeader),
        all_decode(headers@) ==> exists|hs: Seq<SealedHeader>| #[trigger] decodes_to(headers@, hs),
        forall|hs: Seq<SealedHeader>| #[trigger] decodes_to(headers@, hs) && hs.len() <= BLOCKHASH_ANCESTOR_LIMIT ==> {
            &&& !forms_chain(*current, hs) ==> (r matches Err(StatelessValidationError::InvalidAncestorChain))
            &&& (r is Ok <==> hs.len() > 0 && forms_chain(*current, hs))
            &&& (r matches Ok((parent, m)) ==> hs.contains(parent) && parent.number + 1 == current.number
                && hash_map_of(m@, hs))
        },
{
    let hs = decode_ancestor_headers(headers)?;
    proof {
        lemma_decoding_unique(headers@, hs@);
        assert(decodes_to(headers@, hs@));
    }
    check_ancestor_headers(current, &hs)
}

/// Like `get_witness_components`, but answers `None` on the inputs where the ancestor walk
/// would overflow a block number, and `Some` of its result on every other input.
pub fn get_witness_components_checked(current: &SealedHeader, headers: &Vec<Vec<u8>>) -> (r: Option<Result<(SealedHeader, BTreeMap<u64, B256>), StatelessValidationError>>)
    ensures
        r is None <==> ancestor_walk_overflows(*current, headers@),
        r matches Some(res) ==> {
            &&& !all_decode(headers@) ==> (res matches Err(StatelessValidationError::HeaderDeserializationFailed))
            &&& all_decode(headers@) && headers@.len() > BLOCKHASH_ANCESTOR_LIMIT ==> (res matches Err(
                StatelessValidationError::AncestorHeaderLimitExceeded { count, limit },
            ) && count == headers@.len() && limit == BLOCKHASH_ANCESTOR_LIMIT)
            &&& all_decode(headers@) && headers@.len() == 0 ==> (res matches Err(StatelessValidationError::MissingAncestorHeader))
            &&& all_decode(headers@) ==> exists|hs: Seq<SealedHeader>| #[trigger] decodes_to(headers@, hs)
            &&& forall|hs: Seq<SealedHeader>| #[trigger] decodes_to(headers@, hs) && hs.len() <= BLOCKHASH_ANCESTOR_LIMIT ==> {
                &&& !forms_chain(*current, hs) ==> (res matches Err(StatelessValidationError::InvalidAncestorChain))
                &&& (res is Ok <==> hs.len() > 0 && forms_chain(*current, hs))
                &&& (res matches Ok((parent, m)) ==> hs.contains(parent) && parent.number + 1 == current.number
                    && hash_map_of(m@, hs))
            }
        },
{
    match decode_ancestor_headers(headers) {
        Err(e) => {
            proof {
                if ancestor_walk_overflows(*current, headers@) {
                    let hs = choose|hs: Seq<SealedHeader>| #[trigger] decodes_to(headers@, hs) && hs.len() <= BLOCKHASH_ANCESTOR_LIMIT
                        && has_overflowing_parent(*current, hs);
                    assert forall|i: int| 0 <= i < headers@.len() implies rlp_header(#[trigger] headers@[i]@) is Some by {
                        assert(rlp_header(headers@[i]@) == Some((hs[i].number, hs[i].parent_hash@, hs[i].state_root@)));
                    }
                }
            }
            Some(Err(e))
        },
        Ok(hs) => {
            proof {
                lemma_decoding_unique(headers@, hs@);
                assert(decodes_to(headers@, hs@));
            }
            if hs.len() <= BLOCKHASH_ANCESTOR_LIMIT && overflowing_parent(current, &hs) {
                return None;
            }
            Some(get_witness_components(current, headers))
        },
    }
}

/// Whether some header has the largest block number and is the current block's parent by hash.
pub fn overflowing_parent(current: &SealedHeader, hs: &Vec<SealedHeader>) -> (r: bool)
    ensures
        r == has_overflowing_parent(*current, hs@),
{
    let mut i: usize = 0;
    while i < hs.len()
        invariant
            i <= hs@.len(),
            forall|j: int| 0 <= j < i ==> !((#[trigger] hs@[j]).number == u64::MAX && hs@[j].hash == current.parent_hash),
        decreases hs@.len() - i,
    {
        if hs[i].number == u64::MAX && bytes_eq(hs[i].hash.as_slice(), current.parent_hash.as_slice()) {
            proof {
                assert(hs@[i as int].hash =~= current.parent_hash);
                assert(hs@.contains(hs@[i as int]));
            }
            return true;
        }
        i = i + 1;
    }
    proof {
        if has_overflowing_parent(*current, hs@) {
            let x = choose|x: SealedHeader| #[trigger] hs@.contains(x) && x.number == u64::MAX && x.hash == current.parent_hash;
            let j = choose|j: int| 0 <= j < hs@.len() && hs@[j] == x;
            assert(!((hs@[j]).number == u64::MAX && hs@[j].hash == current.parent_hash));
        }
    }
    false
}

/// Header encodings decode to one sequence of headers at most.
pub proof fn lemma_decoding_unique(headers: Seq<Vec<u8>>, hs: Seq<SealedHeader>)
    requires
        decodes_to(headers, hs),
    ensures
        forall|gs: Seq<SealedHeader>| #[trigger] decodes_to(headers, gs) ==> gs == hs,
{
    assert forall|gs: Seq<SealedHeader>| #[trigger] decodes_to(headers, gs) implies gs == hs by {
        assert forall|i: int| 0 <= i < gs.len() implies gs[i] == hs[i] by {
            assert(rlp_header(headers[i]@) == Some((hs[i].number, hs[i].parent_hash@, hs[i].state_root@)));
            assert(gs[i].parent_hash =~= hs[i].parent_hash);
            assert(gs[i].state_root =~= hs[i].state_root);
            assert(gs[i].hash =~= hs[i].hash);
        }
        assert(gs =~= hs);
    }
}

/// Two account records agree as the EVM compares them: balance, nonce and code hash.
pub open spec fn same_account_info(a: AccountInfo, b: AccountInfo) -> bool {
    a.balance == b.balance && a.nonce == b.nonce && a.code_hash == b.code_hash
}

/// The account a flat-state entry claims: none when it is marked as not existing.
pub open spec fn claimed_account(flat: DbAccount) -> Option<AccountInfo> {
    if flat.account_state == AccountState::NotExisting {
        None
    } else {
        Some(flat.info)
    }
}

/// The account the trie gives and the account the flat state claims agree.
pub open spec fn accounts_agree(trie: Option<AccountInfo>, flat: DbAccount) -> bool {
    match (trie, claimed_account(flat)) {
        (None, None) => true,
        (Some(a), Some(b)) => same_account_info(a, b),
        _ => false,
    }
}

/// Compares two account records as the EVM does: by balance, nonce and code hash.
pub fn account_info_eq(a: &AccountInfo, b: &AccountInfo) -> (r: bool)
    ensures
        r == same_account_info(*a, *b),
{
    let r = bytes_eq(a.balance.as_slice(), b.balance.as_slice()) && a.nonce == b.nonce
        && bytes_eq(a.code_hash.as_slice(), b.code_hash.as_slice());
    proof {
        if a.balance@ == b.balance@ {
            assert(a.balance =~= b.balance);
        }
        if a.code_hash@ == b.code_hash@ {
            assert(a.code_hash =~= b.code_hash);
        }
    }
    r
}

/// Checks every account of a flat witness against the account the sparse trie gives for
/// its address (`trie_accounts[i]` for `flat[i]`).
pub fn check_flat_accounts(flat: &Vec<(Address, DbAccount)>, trie_accounts: &Vec<Option<AccountInfo>>) -> (r: Result<(), StatelessValidationError>)
    requires
        trie_accounts@.len() == flat@.len(),
    ensures
        r is Ok <==> forall|i: int| 0 <= i < flat@.len() ==> accounts_agree(#[trigger] trie_accounts@[i], flat@[i].1),
        r is Err ==> r matches Err(StatelessValidationError::FlatdbSparseTrieMismatch),
{
    let mut i: usize = 0;
    while i < flat.len()
        invariant
            i <= flat@.len(),
            trie_accounts@.len() == flat@.len(),
            forall|j: int| 0 <= j < i ==> accounts_agree(#[trigger] trie_accounts@[j], flat@[j].1),
        decreases flat@.len() - i,
    {
        let flat_account = &flat[i].1;
        let claimed = match flat_account.account_state {
            AccountState::NotExisting => None,
            _ => Some(flat_account.info),
        };
        let agree = match (&trie_accounts[i], &claimed) {
            (None, None) => true,
            (Some(a), Some(b)) => account_info_eq(a, b),
            _ => false,
        };
        if !agree {
            return Err(StatelessValidationError::FlatdbSparseTrieMismatch);
        }
        i = i + 1;
    }
    Ok(())
}

/// Every contract of a flat witness is filed under the hash of its code.
pub open spec fn codes_match_hashes(contracts: Seq<(B256, Vec<u8>)>) -> bool {
    forall|i: int| 0 <= i < contracts.len() ==> keccak((#[trigger] contracts[i]).1@) == contracts[i].0@
}

/// Checks that every contract of a flat witness is filed under the hash of its code.
pub fn check_flat_contracts(contracts: &Vec<(B256, Vec<u8>)>) -> (r: Result<(), StatelessValidationError>)
    ensures
        r is Ok <==> codes_match_hashes(contracts@),
        r is Err ==> r matches Err(StatelessValidationError::FlatdbSparseTrieMismatch),
{
    let mut i: usize = 0;
    while i < contracts.len()
        invariant
            i <= contracts@.len(),
            forall|j: int| 0 <= j < i ==> keccak((#[trigger] contracts@[j]).1@) == contracts@[j].0@,
        decreases contracts@.len() - i,
    {
        let got = keccak256(contracts[i].1.as_slice());
        if !bytes_eq(got.as_slice(), contracts[i].0.as_slice()) {
            return Err(StatelessValidationError::FlatdbSparseTrieMismatch);
        }
        i = i + 1;
    }
    Ok(())
}

/// Checks a flat witness against the sparse trie: first its accounts (against
/// `trie_accounts`, one per flat account), then its contract code hashes.
pub fn check_flat_witness(cache: &Cache, trie_accounts: &Vec<Option<AccountInfo>>) -> (r: Result<(), StatelessValidationError>)
    requires
        trie_accounts@.len() == cache.accounts@.len(),
    ensures
        r is Ok <==> (forall|i: int| 0 <= i < cache.accounts@.len() ==> accounts_agree(#[trigger] trie_accounts@[i], cache.accounts@[i].1))
            && codes_match_hashes(cache.contracts@),
        r is Err ==> r matches Err(StatelessValidationError::FlatdbSparseTrieMismatch),
        r is Ok ==> forall|i: int| 0 <= i < cache.accounts@.len()
            && cache.accounts@[i].1.account_state != AccountState::NotExisting ==> {
                &&& (#[trigger] trie_accounts@[i]) is Some
                &&& trie_accounts@[i]->0.balance == cache.accounts@[i].1.info.balance
                &&& trie_accounts@[i]->0.nonce == cache.accounts@[i].1.info.nonce
                &&& trie_accounts@[i]->0.code_hash == cache.accounts@[i].1.info.code_hash
            },
{
    proof {
        lemma_flat_accounts_agree_fieldwise(cache.accounts@, trie_accounts@);
    }
    check_flat_accounts(&cache.accounts, trie_accounts)?;
    check_flat_contracts(&cache.contracts)
}

/// What a passing flat-witness check means for the accounts: the flat accounts agree with
/// the trie exactly when every account the flat state claims exists in the trie with the
/// same balance, the same nonce and the same code hash, and every account it marks as not
/// existing is absent from the trie.
pub proof fn lemma_flat_accounts_agree_fieldwise(flat: Seq<(Address, DbAccount)>, trie: Seq<Option<AccountInfo>>)
    requires
        trie.len() == flat.len(),
    ensures
        (forall|i: int| 0 <= i < flat.len() ==> accounts_agree(#[trigger] trie[i], flat[i].1)) <==> (forall|i: int|
            0 <= i < flat.len() ==> {
                &&& flat[i].1.account_state != AccountState::NotExisting ==> {
                    &&& (#[trigger] trie[i]) is Some
                    &&& trie[i]->0.balance == flat[i].1.info.balance
                    &&& trie[i]->0.nonce == flat[i].1.info.nonce
                    &&& trie[i]->0.code_hash == flat[i].1.info.code_hash
                }
                &&& flat[i].1.account_state == AccountState::NotExisting ==> trie[i] is None
            }),
{
}

/// A flat witness passes the check exactly when each of its accounts matches the trie field
/// by field (balance, nonce and code hash of every claimed account; absence of every account
/// marked as not existing) and each contract's code hashes to the hash it is filed under.
pub proof fn lemma_flat_witness_check_fieldwise(cache: Cache, trie: Seq<Option<AccountInfo>>, r: Result<(), StatelessValidationError>)
    requires
        trie.len() == cache.accounts@.len(),
        r is Ok <==> (forall|i: int| 0 <= i < cache.accounts@.len() ==> accounts_agree(#[trigger] trie[i], cache.accounts@[i].1))
            && codes_match_hashes(cache.contracts@),
    ensures
        r is Ok <==> {
            &&& forall|i: int| 0 <= i < cache.accounts@.len() ==> {
                &&& cache.accounts@[i].1.account_state != AccountState::NotExisting ==> {
                    &&& (#[trigger] trie[i]) is Some
                    &&& trie[i]->0.balance == cache.accounts@[i].1.info.balance
                    &&& trie[i]->0.nonce == cache.accounts@[i].1.info.nonce
                    &&& trie[i]->0.code_hash == cache.accounts@[i].1.info.code_hash
                }
                &&& cache.accounts@[i].1.account_state == AccountState::NotExisting ==> trie[i] is None
            }
            &&& forall|i: int| 0 <= i < cache.contracts@.len() ==> keccak((#[trigger] cache.contracts@[i]).1@) == cache.contracts@[i].0@
        },
{
    lemma_flat_accounts_agree_fieldwise(cache.accounts@, trie);
}

/// Checks a computed state root against the one in the block header.
pub fn check_post_state_root(got: &B256, expected: &B256) -> (r: Result<(), StatelessValidationError>)
    ensures
        r is Ok <==> got == expected,
        r is Err ==> (r matches Err(StatelessValidationError::PostStateRootMismatch { got: g, expected: e }) && g == *got && e == *expected),
{
    if bytes_eq(got.as_slice(), expected.as_slice()) {
        assert(got =~= expected);
        Ok(())
    } else {
        Err(StatelessValidationError::PostStateRootMismatch { got: *got, expected: *expected })
    }
}

} // verus!
