//! Tracing a block from its execution witness: the ancestor headers the witness
//! carries, and the pre-state its key preimages name, read from the witness state.

use vstd::prelude::*;
use std::collections::BTreeMap;
use crate::bytes::{address_from_slice, b256_from_slice, bytes_eq, copy_bytes, copy_prefix, empty_code_hash, keccak, keccak256, keccak_empty_hash, Address, B256, Word};
use crate::entries::{
    distinct_keys, entries_insert, entries_map, lemma_entries_map_values, lemma_entries_map_values_hold, lookup,
    map_entry_values,
};
use crate::record::bytes_view;
use crate::state::AccountInfo;
use crate::validation::{ancestor_chain, forms_chain, lemma_chain_same_multiset, has_overflowing_parent, hash_map_of, overflowing_parent, SealedHeader};

verus! {

broadcast use vstd::array::group_array_axioms;

/// Errors of tracing a block from its witness.
#[derive(Debug)]
pub enum Error {
    /// An ancestor header is missing.
    MissingAncestor,
    /// Decoding the ancestor headers failed.
    DecodingHeaders,
    /// The ancestor headers do not form a chain back from the block.
    ComputeAncestorHashes,
    /// Building the sparse trie from the witness failed.
    GenerateSparseTrie,
    /// The witness state has no account data for an address.
    MissingAccountInTrie {
        /// The address.
        addr: Address,
    },
    /// The witness state has no data for a storage slot.
    MissingStorage {
        /// The address.
        addr: Address,
        /// The storage slot, a big-endian 256-bit word.
        storage_key: Word,
    },
    /// Tracing produced no trace for the block.
    MissingTrace,
    /// Setting up the execution environment failed.
    CreatingExecutionEnvironment(String),
}

/// The header that `bytes` start with, as `(number, parent hash, state root, bytes left
/// over)`; `None` when no header can be decoded from their start.
pub uninterp spec fn rlp_header_prefix(bytes: Seq<u8>) -> Option<(u64, Seq<u8>, Seq<u8>, nat)>;

/// Calls `alloy_rlp::Decodable::decode` for `alloy_consensus::Header`, which decodes an RLP
/// header from the start of the bytes and advances past it. Claimed: the result is
/// `rlp_header_prefix` of the bytes, a function of the bytes alone, with the number,
/// parent hash and state root of the header and the number of bytes left over, which is
/// at most the number of bytes given.
#[verifier::external_body]
fn decode_header_prefix(bytes: &[u8]) -> (r: Option<(u64, B256, B256, usize)>)
    ensures
        match r {
            Some(h) => rlp_header_prefix(bytes@) == Some((h.0, h.1@, h.2@, h.3 as nat)) && h.3 <= bytes@.len(),
            None => rlp_header_prefix(bytes@) is None,
        },
{
    let mut buf = bytes;
    let decoded: Result<alloy_consensus::Header, alloy_rlp::Error> = alloy_rlp::Decodable::decode(&mut buf);
    match decoded {
        Ok(h) => Some((h.number, h.parent_hash.0, h.state_root.0, buf.len())),
        Err(_) => None,
    }
}

/// `hs` are the headers the byte strings start with, each sealed with the hash of its
/// own encoding (the bytes it was decoded from).
pub open spec fn decodes_prefix_to(headers: Seq<Vec<u8>>, hs: Seq<SealedHeader>) -> bool {
    &&& hs.len() == headers.len()
    &&& forall|i: int|
        #![trigger headers[i]]
        0 <= i < hs.len() ==> {
            &&& rlp_header_prefix(headers[i]@) matches Some(d)
            &&& d.0 == hs[i].number && d.1 == hs[i].parent_hash@ && d.2 == hs[i].state_root@
            &&& hs[i].hash@ == keccak(headers[i]@.take(headers[i]@.len() - d.3))
        }
}

/// Every byte string starts with a header.
pub open spec fn all_decode_prefix(headers: Seq<Vec<u8>>) -> bool {
    forall|i: int| 0 <= i < headers.len() ==> rlp_header_prefix(#[trigger] headers[i]@) is Some
}

/// The headers would make the ancestor walk overflow a block number: they decode, and
/// one with the largest block number is the block's parent by hash.
pub open spec fn trace_walk_overflows(current: SealedHeader, headers: Seq<Vec<u8>>) -> bool {
    exists|hs: Seq<SealedHeader>| #[trigger] decodes_prefix_to(headers, hs) && has_overflowing_parent(current, hs)
}

/// Decoded headers are determined by their encodings.
pub proof fn lemma_prefix_decoding_unique(headers: Seq<Vec<u8>>, hs1: Seq<SealedHeader>, hs2: Seq<SealedHeader>)
    requires
        decodes_prefix_to(headers, hs1),
        decodes_prefix_to(headers, hs2),
    ensures
        hs1 == hs2,
{
    assert forall|i: int| 0 <= i < hs1.len() implies hs1[i] == hs2[i] by {
        let d = rlp_header_prefix(headers[i]@)->0;
        assert(hs1[i].parent_hash =~= hs2[i].parent_hash);
        assert(hs1[i].state_root =~= hs2[i].state_root);
        assert(hs1[i].hash =~= hs2[i].hash);
    }
    assert(hs1 =~= hs2);
}

/// Decodes the header each byte string starts with, sealed with the hash of its encoding.
fn decode_witness_headers(headers: &Vec<Vec<u8>>) -> (r: Result<Vec<SealedHeader>, Error>)
    ensures
        r is Ok <==> all_decode_prefix(headers@),
        r is Err ==> r matches Err(Error::DecodingHeaders),
        r matches Ok(hs) ==> decodes_prefix_to(headers@, hs@),
{
    let mut hs: Vec<SealedHeader> = Vec::new();
    let mut i: usize = 0;
    while i < headers.len()
        invariant
            i <= headers@.len(),
            decodes_prefix_to(headers@.take(i as int), hs@),
            all_decode_prefix(headers@.take(i as int)),
        decreases headers@.len() - i,
    {
        let bytes = headers[i].as_slice();
        match decode_header_prefix(bytes) {
            Some((number, parent_hash, state_root, left)) => {
                let used = bytes.len() - left;
                let encoding = copy_prefix(bytes, used);
                let hash = keccak256(encoding.as_slice());
                let ghost prev = hs@;
                hs.push(SealedHeader { number, hash, parent_hash, state_root });
                proof {
                    assert(encoding@ =~= bytes@.take(bytes@.len() - left));
                    let t = headers@.take(i + 1);
                    assert forall|j: int| #![trigger t[j]] 0 <= j < hs@.len() implies {
                        &&& rlp_header_prefix(t[j]@) matches Some(d)
                        &&& d.0 == hs@[j].number && d.1 == hs@[j].parent_hash@ && d.2 == hs@[j].state_root@
                        &&& hs@[j].hash@ == keccak(t[j]@.take(t[j]@.len() - d.3))
                    } by {
                        if j < i {
                            assert(t[j] == headers@.take(i as int)[j]);
                            assert(hs@[j] == prev[j]);
                        }
                    }
                    assert forall|j: int| 0 <= j < t.len() implies rlp_header_prefix(#[trigger] t[j]@) is Some by {
                        if j < i {
                            assert(t[j] == headers@.take(i as int)[j]);
                        }
                    }
                }
            },
            None => {
                proof {
                    assert(headers@[i as int]@ == bytes@);
                    assert(!all_decode_prefix(headers@));
                }
                return Err(Error::DecodingHeaders);
            },
        }
        i = i + 1;
    }
    assert(headers@.take(headers@.len() as int) =~= headers@);
    Ok(hs)
}

/// `root` and `m` answer the ancestor step for `current` over the headers `hs`: `root` is
/// the state root of the header right before `current`, and `m` maps each header's number
/// to its hash.
pub open spec fn ancestors_answer(current: SealedHeader, hs: Seq<SealedHeader>, root: B256, m: Map<u64, B256>) -> bool {
    &&& exists|parent: SealedHeader| #[trigger] hs.contains(parent)
        && parent.number + 1 == current.number && root == parent.state_root
    &&& hash_map_of(m, hs)
}

/// What the ancestor step of tracing answers for `current` and the witness headers: a
/// decoding error when some header does not decode; otherwise, over the headers they decode
/// to, the pre-state root and the ancestor hashes when they form a chain back from the
/// block's parent, and a chain error when they do not.
pub open spec fn ancestors_outcome(
    current: SealedHeader,
    headers: Seq<Vec<u8>>,
    r: Result<(B256, BTreeMap<u64, B256>), Error>,
) -> bool {
    &&& !all_decode_prefix(headers) ==> (r matches Err(Error::DecodingHeaders))
    &&& all_decode_prefix(headers) ==> exists|hs: Seq<SealedHeader>| #[trigger] decodes_prefix_to(headers, hs)
    &&& forall|hs: Seq<SealedHeader>| #[trigger] decodes_prefix_to(headers, hs) ==> {
        &&& !forms_chain(current, hs) ==> (r matches Err(Error::ComputeAncestorHashes))
        &&& (r is Ok <==> forms_chain(current, hs))
        &&& (r matches Ok((root, m)) ==> ancestors_answer(current, hs, root, m@))
    }
}

/// The result of the ancestor step with the hash map taken by its contents.
pub open spec fn outcome_view(r: Result<(B256, BTreeMap<u64, B256>), Error>) -> Result<(B256, Map<u64, B256>), Error> {
    match r {
        Ok((root, m)) => Ok((root, m@)),
        Err(e) => Err(e),
    }
}

/// The pre-state root and the ancestor hashes for tracing a block: the witness headers
/// must decode and form a chain back from the block's parent; the pre-state root is the
/// parent's state root, and each ancestor's number maps to its hash.
pub fn trace_ancestors(current: &SealedHeader, headers: &Vec<Vec<u8>>) -> (r: Result<(B256, BTreeMap<u64, B256>), Error>)
    requires
        headers@.len() > 0,
        !trace_walk_overflows(*current, headers@),
    ensures
        ancestors_outcome(*current, headers@, r),
{
    let hs = decode_witness_headers(headers)?;
    proof {
        assert(decodes_prefix_to(headers@, hs@));
        assert forall|hs2: Seq<SealedHeader>| #[trigger] decodes_prefix_to(headers@, hs2) implies hs2 == hs@ by {
            lemma_prefix_decoding_unique(headers@, hs2, hs@);
        }
        assert(!has_overflowing_parent(*current, hs@));
    }
    match ancestor_chain(current, &hs) {
        Ok((parent, m)) => Ok((parent.state_root, m)),
        Err(_) => Err(Error::ComputeAncestorHashes),
    }
}

/// Like `trace_ancestors`, but answers `None` on the inputs where the ancestor walk would
/// overflow a block number, and `Some` of its result on every other input.
pub fn trace_ancestors_checked(current: &SealedHeader, headers: &Vec<Vec<u8>>) -> (r: Option<Result<(B256, BTreeMap<u64, B256>), Error>>)
    requires
        headers@.len() > 0,
    ensures
        r is None <==> trace_walk_overflows(*current, headers@),
        r matches Some(res) ==> ancestors_outcome(*current, headers@, res),
{
    match decode_witness_headers(headers) {
        Err(e) => {
            proof {
                if trace_walk_overflows(*current, headers@) {
                    let hs = choose|hs: Seq<SealedHeader>| #[trigger] decodes_prefix_to(headers@, hs) && has_overflowing_parent(*current, hs);
                    assert forall|i: int| 0 <= i < headers@.len() implies rlp_header_prefix(#[trigger] headers@[i]@) is Some by {
                        assert(decodes_prefix_to(headers@, hs));
                    }
                }
            }
            Some(Err(e))
        },
        Ok(hs) => {
            proof {
                assert(decodes_prefix_to(headers@, hs@));
                assert forall|hs2: Seq<SealedHeader>| #[trigger] decodes_prefix_to(headers@, hs2) implies hs2 == hs@ by {
                    lemma_prefix_decoding_unique(headers@, hs2, hs@);
                }
            }
            if overflowing_parent(current, &hs) {
                return None;
            }
            Some(trace_ancestors(current, headers))
        },
    }
}

/// `h` is the header that `bytes` start with, sealed with the hash of its own encoding.
pub open spec fn prefix_seals(bytes: Seq<u8>, h: SealedHeader) -> bool {
    &&& rlp_header_prefix(bytes) matches Some(d)
    &&& d.0 == h.number && d.1 == h.parent_hash@ && d.2 == h.state_root@
    &&& h.hash@ == keccak(bytes.take(bytes.len() - d.3))
}

/// The sealed header that `bytes` start with.
pub open spec fn sealed_prefix(bytes: Seq<u8>) -> SealedHeader {
    choose|h: SealedHeader| prefix_seals(bytes, h)
}

/// Maps the bytes of each header to the sealed header they start with.
pub open spec fn sealed_prefix_fn() -> spec_fn(Seq<u8>) -> SealedHeader {
    |b: Seq<u8>| sealed_prefix(b)
}

/// Decoded headers are the sealed headers their byte strings start with, in the same order.
proof fn lemma_decoded_are_sealed_prefixes(headers: Seq<Vec<u8>>, hs: Seq<SealedHeader>)
    requires
        decodes_prefix_to(headers, hs),
    ensures
        hs == bytes_view(headers).map_values(sealed_prefix_fn()),
{
    assert forall|i: int| 0 <= i < hs.len() implies hs[i] == #[trigger] sealed_prefix(headers[i]@) by {
        let b = headers[i]@;
        assert(prefix_seals(b, hs[i]));
        let c = sealed_prefix(b);
        assert(prefix_seals(b, c));
        assert(hs[i].parent_hash =~= c.parent_hash);
        assert(hs[i].state_root =~= c.state_root);
        assert(hs[i].hash =~= c.hash);
    }
    assert(hs =~= bytes_view(headers).map_values(sealed_prefix_fn()));
}

/// Mapping two sequences with the same items, each as often, gives two sequences with the
/// same items, each as often.
proof fn lemma_map_same_multiset<A, B>(s1: Seq<A>, s2: Seq<A>, f: spec_fn(A) -> B)
    requires
        s1.to_multiset() == s2.to_multiset(),
    ensures
        s1.map_values(f).to_multiset() == s2.map_values(f).to_multiset(),
    decreases s1.len(),
{
    broadcast use vstd::seq_lib::group_to_multiset_ensures;
    assert(s1.len() == s1.to_multiset().len());
    assert(s2.len() == s2.to_multiset().len());
    if s1.len() == 0 {
        assert(s1.map_values(f) =~= Seq::<B>::empty());
        assert(s2.map_values(f) =~= Seq::<B>::empty());
    } else {
        let x = s1.last();
        let t1 = s1.drop_last();
        assert(t1.push(x) =~= s1);
        assert(s2.to_multiset().count(x) > 0);
        assert(s2.contains(x));
        let i = choose|i: int| 0 <= i < s2.len() && s2[i] == x;
        let t2 = s2.remove(i);
        assert(t1.to_multiset() =~= s1.to_multiset().remove(x));
        assert(t2.to_multiset() =~= s2.to_multiset().remove(x));
        lemma_map_same_multiset(t1, t2, f);
        assert(s1.map_values(f) =~= t1.map_values(f).push(f(x)));
        let m2 = s2.map_values(f);
        assert(m2.remove(i) =~= t2.map_values(f));
        assert(m2[i] == f(x));
        assert(m2.remove(i).to_multiset() =~= m2.to_multiset().remove(f(x)));
        assert(m2.to_multiset().count(f(x)) > 0) by {
            assert(m2.contains(f(x)));
        }
        assert(m2.to_multiset() =~= m2.to_multiset().remove(f(x)).insert(f(x)));
    }
}

/// The header each byte string of a permutation starts with: reordering the byte strings
/// reorders the decoded headers the same way.
proof fn lemma_decoded_same_multiset(h1: Seq<Vec<u8>>, h2: Seq<Vec<u8>>, hs1: Seq<SealedHeader>, hs2: Seq<SealedHeader>)
    requires
        bytes_view(h1).to_multiset() == bytes_view(h2).to_multiset(),
        decodes_prefix_to(h1, hs1),
        decodes_prefix_to(h2, hs2),
    ensures
        hs1.to_multiset() == hs2.to_multiset(),
{
    lemma_decoded_are_sealed_prefixes(h1, hs1);
    lemma_decoded_are_sealed_prefixes(h2, hs2);
    lemma_map_same_multiset(bytes_view(h1), bytes_view(h2), sealed_prefix_fn());
}

/// Over headers that form a chain back from `current`, the ancestor step has one answer.
proof fn lemma_ancestors_answer_unique(
    current: SealedHeader,
    hs1: Seq<SealedHeader>,
    hs2: Seq<SealedHeader>,
    root1: B256,
    m1: Map<u64, B256>,
    root2: B256,
    m2: Map<u64, B256>,
)
    requires
        hs1.to_multiset() == hs2.to_multiset(),
        forms_chain(current, hs1),
        ancestors_answer(current, hs1, root1, m1),
        ancestors_answer(current, hs2, root2, m2),
    ensures
        root1 == root2,
        m1 == m2,
{
    broadcast use vstd::seq_lib::group_to_multiset_ensures;
    assert forall|x: SealedHeader| #[trigger] hs1.contains(x) <==> hs2.contains(x) by {
        assert(hs1.contains(x) <==> hs1.to_multiset().count(x) > 0);
        assert(hs2.contains(x) <==> hs2.to_multiset().count(x) > 0);
    }
    let p1 = choose|parent: SealedHeader| #[trigger] hs1.contains(parent)
        && parent.number + 1 == current.number && root1 == parent.state_root;
    let p2 = choose|parent: SealedHeader| #[trigger] hs2.contains(parent)
        && parent.number + 1 == current.number && root2 == parent.state_root;
    assert(hs1.contains(p2));
    assert(p1 == p2);
    assert forall|n: u64| #[trigger] m1.contains_key(n) implies m2.contains_key(n) && m1[n] == m2[n] by {
        let i = choose|i: int| 0 <= i < hs1.len() && #[trigger] hs1[i].number == n;
        assert(hs1.contains(hs1[i]));
        assert(hs2.contains(hs1[i]));
        let j = choose|j: int| 0 <= j < hs2.len() && hs2[j] == hs1[i];
        assert(hs2[j].number == n);
    }
    assert forall|n: u64| #[trigger] m2.contains_key(n) implies m1.contains_key(n) by {
        let j = choose|j: int| 0 <= j < hs2.len() && #[trigger] hs2[j].number == n;
        assert(hs2.contains(hs2[j]));
        assert(hs1.contains(hs2[j]));
        let i = choose|i: int| 0 <= i < hs1.len() && hs1[i] == hs2[j];
        assert(hs1[i].number == n);
    }
    assert(m1 =~= m2);
}

/// The order of the witness headers does not matter to the ancestor step of tracing: when
/// the header byte strings of two witnesses are the same, each as often, in any order, they
/// decode alike, the decoded headers are the same, each as often, they form a chain back from
/// the block alike, the walk overflows alike, and where they form a chain the pre-state root
/// and the ancestor hashes are the same.
pub proof fn lemma_trace_ancestors_order_free(current: SealedHeader, h1: Seq<Vec<u8>>, h2: Seq<Vec<u8>>)
    requires
        bytes_view(h1).to_multiset() == bytes_view(h2).to_multiset(),
    ensures
        h1.len() == h2.len(),
        all_decode_prefix(h1) == all_decode_prefix(h2),
        forall|hs1: Seq<SealedHeader>, hs2: Seq<SealedHeader>|
            #[trigger] decodes_prefix_to(h1, hs1) && #[trigger] decodes_prefix_to(h2, hs2) ==> {
                &&& hs1.to_multiset() == hs2.to_multiset()
                &&& forms_chain(current, hs1) == forms_chain(current, hs2)
                &&& trace_walk_overflows(current, h1) == trace_walk_overflows(current, h2)
                &&& forall|root1: B256, m1: Map<u64, B256>, root2: B256, m2: Map<u64, B256>|
                    #[trigger] ancestors_answer(current, hs1, root1, m1) && #[trigger] ancestors_answer(current, hs2, root2, m2)
                        && forms_chain(current, hs1) ==> root1 == root2 && m1 == m2
            },
{
    broadcast use vstd::seq_lib::group_to_multiset_ensures;
    let b1 = bytes_view(h1);
    let b2 = bytes_view(h2);
    assert(b1.len() == b1.to_multiset().len());
    assert(b2.len() == b2.to_multiset().len());
    assert forall|b: Seq<u8>| #[trigger] b1.contains(b) <==> b2.contains(b) by {
        assert(b1.contains(b) <==> b1.to_multiset().count(b) > 0);
        assert(b2.contains(b) <==> b2.to_multiset().count(b) > 0);
    }
    if all_decode_prefix(h1) {
        assert forall|j: int| 0 <= j < h2.len() implies rlp_header_prefix(#[trigger] h2[j]@) is Some by {
            assert(b2[j] == h2[j]@);
            assert(b1.contains(b2[j]));
            let i = choose|i: int| 0 <= i < b1.len() && b1[i] == b2[j];
            assert(b1[i] == h1[i]@);
        }
    }
    if all_decode_prefix(h2) {
        assert forall|i: int| 0 <= i < h1.len() implies rlp_header_prefix(#[trigger] h1[i]@) is Some by {
            assert(b1[i] == h1[i]@);
            assert(b1.contains(b1[i]));
            assert(b2.contains(b1[i]));
            let j = choose|j: int| 0 <= j < b2.len() && b2[j] == b1[i];
            assert(b2[j] == h2[j]@);
        }
    }
    assert forall|hs1: Seq<SealedHeader>, hs2: Seq<SealedHeader>|
        #[trigger] decodes_prefix_to(h1, hs1) && #[trigger] decodes_prefix_to(h2, hs2) implies {
            &&& hs1.to_multiset() == hs2.to_multiset()
            &&& forms_chain(current, hs1) == forms_chain(current, hs2)
            &&& trace_walk_overflows(current, h1) == trace_walk_overflows(current, h2)
            &&& forall|root1: B256, m1: Map<u64, B256>, root2: B256, m2: Map<u64, B256>|
                #[trigger] ancestors_answer(current, hs1, root1, m1) && #[trigger] ancestors_answer(current, hs2, root2, m2)
                    && forms_chain(current, hs1) ==> root1 == root2 && m1 == m2
        } by {
        lemma_decoded_same_multiset(h1, h2, hs1, hs2);
        lemma_chain_same_multiset(current, hs1, hs2);
        if trace_walk_overflows(current, h1) {
            let hs = choose|hs: Seq<SealedHeader>| #[trigger] decodes_prefix_to(h1, hs) && has_overflowing_parent(current, hs);
            lemma_prefix_decoding_unique(h1, hs, hs1);
        }
        if trace_walk_overflows(current, h2) {
            let hs = choose|hs: Seq<SealedHeader>| #[trigger] decodes_prefix_to(h2, hs) && has_overflowing_parent(current, hs);
            lemma_prefix_decoding_unique(h2, hs, hs2);
        }
        assert forall|root1: B256, m1: Map<u64, B256>, root2: B256, m2: Map<u64, B256>|
            #[trigger] ancestors_answer(current, hs1, root1, m1) && #[trigger] ancestors_answer(current, hs2, root2, m2)
                && forms_chain(current, hs1) implies root1 == root2 && m1 == m2 by {
            lemma_ancestors_answer_unique(current, hs1, hs2, root1, m1, root2, m2);
        }
    }
}

/// Tracing's ancestor step answers the same for any order of the witness headers: when the
/// header byte strings of two witnesses are the same, each as often, results that meet the
/// step's contract for each of them are equal, with the ancestor hashes taken by contents.
pub proof fn lemma_trace_ancestors_permutation(
    current: SealedHeader,
    h1: Seq<Vec<u8>>,
    h2: Seq<Vec<u8>>,
    r1: Result<(B256, BTreeMap<u64, B256>), Error>,
    r2: Result<(B256, BTreeMap<u64, B256>), Error>,
)
    requires
        bytes_view(h1).to_multiset() == bytes_view(h2).to_multiset(),
        ancestors_outcome(current, h1, r1),
        ancestors_outcome(current, h2, r2),
    ensures
        outcome_view(r1) == outcome_view(r2),
{
    lemma_trace_ancestors_order_free(current, h1, h2);
    if all_decode_prefix(h1) {
        let hs1 = choose|hs: Seq<SealedHeader>| #[trigger] decodes_prefix_to(h1, hs);
        let hs2 = choose|hs: Seq<SealedHeader>| #[trigger] decodes_prefix_to(h2, hs);
        assert(decodes_prefix_to(h1, hs1) && decodes_prefix_to(h2, hs2));
        if forms_chain(current, hs1) {
            let (root1, m1) = r1->Ok_0;
            let (root2, m2) = r2->Ok_0;
            assert(ancestors_answer(current, hs1, root1, m1@));
            assert(ancestors_answer(current, hs2, root2, m2@));
            assert(m1@ == m2@);
        }
    }
}

/// The end of the run of 32-byte keys (storage slots) that starts at `j`.
pub open spec fn slots_end(keys: Seq<Seq<u8>>, j: int) -> int
    decreases keys.len() - j,
{
    if j < 0 || j >= keys.len() || keys[j].len() != 32 {
        j
    } else {
        slots_end(keys, j + 1)
    }
}

/// A run of slots ends at or after its start, and no later than the end of the keys.
pub proof fn lemma_slots_end(keys: Seq<Seq<u8>>, j: int)
    requires
        0 <= j <= keys.len(),
    ensures
        j <= slots_end(keys, j) <= keys.len(),
        forall|k: int| j <= k < slots_end(keys, j) ==> (#[trigger] keys[k]).len() == 32,
        slots_end(keys, j) < keys.len() ==> keys[slots_end(keys, j)].len() != 32,
    decreases keys.len() - j,
{
    if j < keys.len() && keys[j].len() == 32 {
        lemma_slots_end(keys, j + 1);
    }
}

/// The groups of the witness keys from position `p` on: each an address key with the
/// storage-slot keys that follow it.
pub open spec fn key_groups(keys: Seq<Seq<u8>>, p: int) -> Seq<(Seq<u8>, Seq<Seq<u8>>)>
    decreases keys.len() - p,
{
    if p < 0 || p >= keys.len() {
        Seq::empty()
    } else {
        let e = slots_end(keys, p + 1);
        proof {
            lemma_slots_end(keys, p + 1);
        }
        seq![(keys[p], keys.subrange(p + 1, e))] + key_groups(keys, e)
    }
}

/// The witness keys are a list of groups: each key is an address (20 bytes) or a storage
/// slot (32 bytes), and the list starts with an address.
pub open spec fn keys_grouped(keys: Seq<Seq<u8>>) -> bool {
    &&& forall|i: int| 0 <= i < keys.len() ==> (#[trigger] keys[i]).len() == 20 || keys[i].len() == 32
    &&& keys.len() > 0 ==> keys[0].len() == 20
}

/// The keys of groups laid end to end: each address key followed by its slot keys.
pub open spec fn flatten_groups(groups: Seq<(Seq<u8>, Seq<Seq<u8>>)>) -> Seq<Seq<u8>>
    decreases groups.len(),
{
    if groups.len() == 0 {
        Seq::empty()
    } else {
        seq![groups[0].0] + groups[0].1 + flatten_groups(groups.drop_first())
    }
}

/// The groups of the keys from position `p` on lay out exactly those keys again; each
/// group's slot keys are 32 bytes long, and, when the keys are grouped, each group's
/// address key is 20 bytes long.
pub proof fn lemma_key_groups_cover(keys: Seq<Seq<u8>>, p: int)
    requires
        0 <= p <= keys.len(),
        p < keys.len() ==> keys[p].len() != 32,
    ensures
        flatten_groups(key_groups(keys, p)) == keys.subrange(p, keys.len() as int),
        forall|i: int| 0 <= i < key_groups(keys, p).len() ==> {
            &&& (#[trigger] key_groups(keys, p)[i]).0.len() != 32
            &&& (keys_grouped(keys) ==> key_groups(keys, p)[i].0.len() == 20)
            &&& forall|j: int| 0 <= j < key_groups(keys, p)[i].1.len() ==> (#[trigger] key_groups(keys, p)[i].1[j]).len() == 32
        },
    decreases keys.len() - p,
{
    if p == keys.len() {
        assert(keys.subrange(p, keys.len() as int) =~= Seq::<Seq<u8>>::empty());
    } else {
        let e = slots_end(keys, p + 1);
        lemma_slots_end(keys, p + 1);
        let g = (keys[p], keys.subrange(p + 1, e));
        let gs = key_groups(keys, p);
        assert(gs == seq![g] + key_groups(keys, e));
        lemma_key_groups_cover(keys, e);
        assert(gs.drop_first() =~= key_groups(keys, e));
        assert(gs[0] == g);
        assert(flatten_groups(gs) == seq![g.0] + g.1 + flatten_groups(key_groups(keys, e)));
        assert(flatten_groups(gs) =~= keys.subrange(p, keys.len() as int));
        assert forall|i: int| 0 <= i < gs.len() implies {
            &&& (#[trigger] gs[i]).0.len() != 32
            &&& (keys_grouped(keys) ==> gs[i].0.len() == 20)
            &&& forall|j: int| 0 <= j < gs[i].1.len() ==> (#[trigger] gs[i].1[j]).len() == 32
        } by {
            if i > 0 {
                assert(gs[i] == key_groups(keys, e)[i - 1]);
            } else {
                assert forall|j: int| 0 <= j < gs[0].1.len() implies (#[trigger] gs[0].1[j]).len() == 32 by {
                    assert(gs[0].1[j] == keys[p + 1 + j]);
                }
            }
        }
    }
}

/// The address whose bytes are `key`.
pub open spec fn address_of(key: Seq<u8>) -> Address {
    choose|a: Address| a@ == key
}

/// The word whose bytes are `key`.
pub open spec fn word_of(key: Seq<u8>) -> Word {
    choose|w: Word| w@ == key
}

/// An address is the address of its bytes.
pub proof fn lemma_address_of(a: Address)
    ensures
        address_of(a@) == a,
{
    assert(exists|b: Address| b@ == a@) by {
        assert(a@ == a@);
    }
    let c = address_of(a@);
    assert(c =~= a);
}

/// A word is the word of its bytes.
pub proof fn lemma_word_of(w: Word)
    ensures
        word_of(w@) == w,
{
    assert(exists|b: Word| b@ == w@) by {
        assert(w@ == w@);
    }
    let c = word_of(w@);
    assert(c =~= w);
}

/// An account of the pre-state a block is traced on.
#[derive(Debug)]
pub struct PreStateAccount {
    /// Balance, a big-endian 256-bit word.
    pub balance: Word,
    /// Nonce.
    pub nonce: u64,
    /// Code, absent when the account has none.
    pub code: Option<Vec<u8>>,
    /// Storage values by slot.
    pub storage: Vec<(Word, Word)>,
}

/// What a pre-state account stands for.
pub struct PreStateAccountModel {
    /// Balance.
    pub balance: Word,
    /// Nonce.
    pub nonce: u64,
    /// Code.
    pub code: Option<Seq<u8>>,
    /// Storage values by slot.
    pub storage: Map<Word, Word>,
}

impl PreStateAccount {
    /// What the account stands for.
    pub open spec fn model(self) -> PreStateAccountModel {
        PreStateAccountModel {
            balance: self.balance,
            nonce: self.nonce,
            code: match self.code {
                Some(c) => Some(c@),
                None => None,
            },
            storage: entries_map(self.storage@),
        }
    }
}

/// The model of a pre-state account, as a function.
pub open spec fn pre_state_account_model() -> spec_fn(PreStateAccount) -> PreStateAccountModel {
    |a: PreStateAccount| a.model()
}

/// What was read from the witness state for the keys of a witness: the answers to the
/// reads that succeeded. An address, code hash or slot absent here is one whose read failed.
#[derive(Debug)]
pub struct TraceReads {
    /// Account reads by address: the account, or `None` when it provably does not exist.
    pub accounts: Vec<(Address, Option<AccountInfo>)>,
    /// Code by code hash.
    pub codes: Vec<(B256, Vec<u8>)>,
    /// Storage values by address and slot.
    pub storage: Vec<(Address, Vec<(Word, Word)>)>,
}

/// What the reads stand for.
pub struct TraceReadsModel {
    /// Account reads by address.
    pub accounts: Map<Address, Option<AccountInfo>>,
    /// Code by code hash.
    pub codes: Map<B256, Seq<u8>>,
    /// Storage values by address and slot.
    pub storage: Map<Address, Map<Word, Word>>,
}

impl TraceReads {
    /// Each address, code hash and slot is listed once.
    pub open spec fn wf(self) -> bool {
        &&& distinct_keys(self.accounts@)
        &&& distinct_keys(self.codes@)
        &&& distinct_keys(self.storage@)
        &&& forall|i: int| 0 <= i < self.storage@.len() ==> distinct_keys((#[trigger] self.storage@[i]).1@)
    }

    /// What the reads stand for.
    pub open spec fn model(self) -> TraceReadsModel {
        TraceReadsModel {
            accounts: entries_map(self.accounts@),
            codes: entries_map(map_entry_values(self.codes@, crate::state::code_view())),
            storage: entries_map(map_entry_values(self.storage@, crate::provider::slots_view())),
        }
    }
}

/// Why the pre-state of a witness cannot be read.
pub enum TraceFailure {
    /// No account data for the address.
    MissingAccount(Address),
    /// No data for the slot of the address.
    MissingStorage(Address, Word),
    /// Some other failure.
    Other,
}

/// The failure an error stands for.
pub open spec fn failure_of(e: Error) -> TraceFailure {
    match e {
        Error::MissingAccountInTrie { addr } => TraceFailure::MissingAccount(addr),
        Error::MissingStorage { addr, storage_key } => TraceFailure::MissingStorage(addr, storage_key),
        _ => TraceFailure::Other,
    }
}

/// The value read for a slot of an address, if that read succeeded.
pub open spec fn storage_read(reads: TraceReadsModel, addr: Address, slot: Word) -> Option<Word> {
    if reads.storage.contains_key(addr) && reads.storage[addr].contains_key(slot) {
        Some(reads.storage[addr][slot])
    } else {
        None
    }
}

/// The code read for a hash: the code the state holds, or else the default code, a
/// single STOP instruction.
pub open spec fn code_read(reads: TraceReadsModel, hash: B256) -> Seq<u8> {
    if reads.codes.contains_key(hash) {
        reads.codes[hash]
    } else {
        seq![0u8]
    }
}

/// The storage read for the slot keys of an address, in order: the first slot whose read
/// failed, or the values by slot.
pub open spec fn slots_read(reads: TraceReadsModel, addr: Address, slots: Seq<Seq<u8>>) -> Result<Map<Word, Word>, TraceFailure>
    decreases slots.len(),
{
    if slots.len() == 0 {
        Ok(Map::empty())
    } else {
        match slots_read(reads, addr, slots.drop_last()) {
            Err(f) => Err(f),
            Ok(m) => match storage_read(reads, addr, word_of(slots.last())) {
                Some(v) => Ok(m.insert(word_of(slots.last()), v)),
                None => Err(TraceFailure::MissingStorage(addr, word_of(slots.last()))),
            },
        }
    }
}

/// The pre-state account of a group of keys: a failed account read fails, an account
/// that does not exist is left out, and an existing one has its balance, nonce, code
/// (none for the empty code hash) and the storage of the group's slots.
pub open spec fn group_account(reads: TraceReadsModel, g: (Seq<u8>, Seq<Seq<u8>>)) -> Result<Option<PreStateAccountModel>, TraceFailure> {
    let addr = address_of(g.0);
    if !reads.accounts.contains_key(addr) {
        Err(TraceFailure::MissingAccount(addr))
    } else {
        match reads.accounts[addr] {
            None => Ok(None),
            Some(info) => match slots_read(reads, addr, g.1) {
                Err(f) => Err(f),
                Ok(storage) => Ok(
                    Some(
                        PreStateAccountModel {
                            balance: info.balance,
                            nonce: info.nonce,
                            code: if info.code_hash == empty_code_hash() {
                                None
                            } else {
                                Some(code_read(reads, info.code_hash))
                            },
                            storage,
                        },
                    ),
                ),
            },
        }
    }
}

/// The pre-state of groups of keys, in order: the first failure, or the accounts by address.
pub open spec fn pre_state_of(reads: TraceReadsModel, groups: Seq<(Seq<u8>, Seq<Seq<u8>>)>) -> Result<Map<Address, PreStateAccountModel>, TraceFailure>
    decreases groups.len(),
{
    if groups.len() == 0 {
        Ok(Map::empty())
    } else {
        match pre_state_of(reads, groups.drop_last()) {
            Err(f) => Err(f),
            Ok(m) => match group_account(reads, groups.last()) {
                Err(f) => Err(f),
                Ok(None) => Ok(m),
                Ok(Some(a)) => Ok(m.insert(address_of(groups.last().0), a)),
            },
        }
    }
}

/// Every slot a successful storage read returns holds the value the witness state holds
/// for it.
proof fn lemma_slots_read_values(reads: TraceReadsModel, addr: Address, slots: Seq<Seq<u8>>)
    ensures
        slots_read(reads, addr, slots) matches Ok(m) ==> forall|k: Word| #[trigger] m.contains_key(k)
            ==> reads.storage.contains_key(addr) && reads.storage[addr].contains_key(k) && m[k] == reads.storage[addr][k],
    decreases slots.len(),
{
    if slots.len() > 0 {
        lemma_slots_read_values(reads, addr, slots.drop_last());
    }
}

/// What a read pre-state holds: every account in it is one the witness state holds as
/// existing, with that account's balance and nonce; its code is none for the empty-code
/// hash, else the code the witness holds under its code hash, and a lone STOP only when the
/// witness holds no code under that hash. Every address key whose account exists has an
/// account in it.
pub proof fn lemma_pre_state_accounts(reads: TraceReadsModel, groups: Seq<(Seq<u8>, Seq<Seq<u8>>)>)
    requires
        pre_state_of(reads, groups) is Ok,
    ensures
        forall|a: Address| #[trigger] pre_state_of(reads, groups)->Ok_0.contains_key(a) ==> {
            let acct = pre_state_of(reads, groups)->Ok_0[a];
            &&& reads.accounts.contains_key(a)
            &&& match reads.accounts[a] {
                Some(info) => {
                    &&& acct.balance == info.balance
                    &&& acct.nonce == info.nonce
                    &&& info.code_hash == empty_code_hash() ==> acct.code is None
                    &&& (info.code_hash != empty_code_hash() && reads.codes.contains_key(info.code_hash))
                        ==> acct.code == Some(reads.codes[info.code_hash])
                    &&& (info.code_hash != empty_code_hash() && !reads.codes.contains_key(info.code_hash))
                        ==> acct.code == Some(seq![0u8])
                },
                None => false,
            }
            &&& forall|k: Word| #[trigger] acct.storage.contains_key(k) ==> reads.storage.contains_key(a)
                && reads.storage[a].contains_key(k) && acct.storage[k] == reads.storage[a][k]
        },
        forall|i: int| 0 <= i < groups.len() && reads.accounts.contains_key(address_of(#[trigger] groups[i].0))
            && reads.accounts[address_of(groups[i].0)] is Some
            ==> pre_state_of(reads, groups)->Ok_0.contains_key(address_of(groups[i].0)),
    decreases groups.len(),
{
    if groups.len() > 0 {
        let init = groups.drop_last();
        lemma_pre_state_accounts(reads, init);
        lemma_slots_read_values(reads, address_of(groups.last().0), groups.last().1);
        let m0 = pre_state_of(reads, init)->Ok_0;
        let m = pre_state_of(reads, groups)->Ok_0;
        let last = groups.last();
        let addr = address_of(last.0);
        assert forall|i: int| 0 <= i < groups.len() && reads.accounts.contains_key(address_of(#[trigger] groups[i].0))
            && reads.accounts[address_of(groups[i].0)] is Some implies m.contains_key(address_of(groups[i].0)) by {
            if i < groups.len() - 1 {
                assert(init[i] == groups[i]);
                assert(m0.contains_key(address_of(init[i].0)));
            }
        }
    }
}

/// A failed storage read stays the first failure whatever slots follow.
pub proof fn lemma_slots_read_failed(reads: TraceReadsModel, addr: Address, a: Seq<Seq<u8>>, b: Seq<Seq<u8>>)
    requires
        slots_read(reads, addr, a) is Err,
    ensures
        slots_read(reads, addr, a + b) == slots_read(reads, addr, a),
    decreases b.len(),
{
    if b.len() == 0 {
        assert(a + b =~= a);
    } else {
        lemma_slots_read_failed(reads, addr, a, b.drop_last());
        assert((a + b).drop_last() =~= a + b.drop_last());
    }
}

/// A failure stays the first failure whatever groups follow.
pub proof fn lemma_pre_state_failed(reads: TraceReadsModel, a: Seq<(Seq<u8>, Seq<Seq<u8>>)>, b: Seq<(Seq<u8>, Seq<Seq<u8>>)>)
    requires
        pre_state_of(reads, a) is Err,
    ensures
        pre_state_of(reads, a + b) == pre_state_of(reads, a),
    decreases b.len(),
{
    if b.len() == 0 {
        assert(a + b =~= a);
    } else {
        lemma_pre_state_failed(reads, a, b.drop_last());
        assert((a + b).drop_last() =~= a + b.drop_last());
    }
}

/// The value read for a slot of an address, if that read succeeded.
fn read_storage(reads: &TraceReads, addr: &Address, slot: &Word) -> (r: Option<Word>)
    requires
        reads.wf(),
    ensures
        r == storage_read(reads.model(), *addr, *slot),
{
    proof {
        lemma_entries_map_values(reads.storage@, crate::provider::slots_view());
        lemma_entries_map_values_hold(reads.storage@, |v: Vec<(Word, Word)>| distinct_keys(v@));
    }
    match lookup(&reads.storage, addr) {
        Some(slots) => match lookup(slots, slot) {
            Some(v) => Some(*v),
            None => None,
        },
        None => None,
    }
}

/// The code read for a hash, or the default code.
fn read_code(reads: &TraceReads, hash: &B256) -> (r: Vec<u8>)
    requires
        reads.wf(),
    ensures
        r@ == code_read(reads.model(), *hash),
{
    proof {
        lemma_entries_map_values(reads.codes@, crate::state::code_view());
    }
    match lookup(&reads.codes, hash) {
        Some(c) => copy_bytes(c.as_slice()),
        None => {
            let r = vec![0u8];
            assert(r@ =~= seq![0u8]);
            r
        },
    }
}

/// Reads the pre-state account of one group of keys: the address and the slot keys
/// `keys[start..end]`.
fn read_group(reads: &TraceReads, addr: Address, keys: &Vec<Vec<u8>>, start: usize, end: usize) -> (r: Result<Option<PreStateAccount>, Error>)
    requires
        reads.wf(),
        start <= end <= keys@.len(),
        forall|k: int| start <= k < end ==> (#[trigger] keys@[k])@.len() == 32,
    ensures
        match r {
            Ok(None) => group_account(reads.model(), (addr@, bytes_view(keys@).subrange(start as int, end as int))) == Ok::<Option<PreStateAccountModel>, TraceFailure>(None),
            Ok(Some(a)) => distinct_keys(a.storage@) && group_account(reads.model(), (addr@, bytes_view(keys@).subrange(start as int, end as int)))
                == Ok::<Option<PreStateAccountModel>, TraceFailure>(Some(a.model())),
            Err(e) => group_account(reads.model(), (addr@, bytes_view(keys@).subrange(start as int, end as int))) == Err::<Option<PreStateAccountModel>, TraceFailure>(failure_of(e)),
        },
{
    let ghost rm = reads.model();
    let ghost kv = bytes_view(keys@);
    let ghost slots = kv.subrange(start as int, end as int);
    proof {
        lemma_address_of(addr);
    }
    let info = match lookup(&reads.accounts, &addr) {
        None => {
            return Err(Error::MissingAccountInTrie { addr });
        },
        Some(None) => {
            return Ok(None);
        },
        Some(Some(info)) => *info,
    };
    let empty = keccak_empty_hash();
    let no_code = bytes_eq(info.code_hash.as_slice(), empty.as_slice());
    proof {
        if no_code {
            assert(info.code_hash =~= empty);
        }
    }
    let code = if no_code {
        None
    } else {
        Some(read_code(reads, &info.code_hash))
    };
    let mut storage: Vec<(Word, Word)> = Vec::new();
    let mut j: usize = start;
    proof {
        assert(kv.subrange(start as int, start as int) =~= Seq::<Seq<u8>>::empty());
        assert(entries_map(storage@) =~= Map::<Word, Word>::empty());
    }
    while j < end
        invariant
            reads.wf(),
            rm == reads.model(),
            kv == bytes_view(keys@),
            slots == kv.subrange(start as int, end as int),
            start <= j <= end <= keys@.len(),
            forall|k: int| start <= k < end ==> (#[trigger] keys@[k])@.len() == 32,
            distinct_keys(storage@),
            address_of(addr@) == addr,
            rm.accounts.contains_key(addr) && rm.accounts[addr] == Some(info),
            slots_read(rm, addr, kv.subrange(start as int, j as int)) == Ok::<Map<Word, Word>, TraceFailure>(entries_map(storage@)),
        decreases end - j,
    {
        let slot = b256_from_slice(keys[j].as_slice());
        let ghost prefix = kv.subrange(start as int, j + 1);
        proof {
            lemma_word_of(slot);
            assert(kv[j as int] == keys@[j as int]@);
            assert(prefix.drop_last() =~= kv.subrange(start as int, j as int));
            assert(prefix.last() == slot@);
        }
        match read_storage(reads, &addr, &slot) {
            Some(value) => {
                entries_insert(&mut storage, slot, value);
            },
            None => {
                proof {
                    assert(slots_read(rm, addr, prefix) == Err::<Map<Word, Word>, TraceFailure>(TraceFailure::MissingStorage(addr, slot)));
                    lemma_slots_read_failed(rm, addr, prefix, kv.subrange(j + 1, end as int));
                    assert(prefix + kv.subrange(j + 1, end as int) =~= slots);
                }
                return Err(Error::MissingStorage { addr, storage_key: slot });
            },
        }
        j = j + 1;
    }
    let account = PreStateAccount { balance: info.balance, nonce: info.nonce, code, storage };
    Ok(Some(account))
}

/// Reading the groups in order reaches a group whose address key is not 20 bytes long:
/// every group before it was read without failure.
pub open spec fn reaches_malformed_address(reads: TraceReadsModel, groups: Seq<(Seq<u8>, Seq<Seq<u8>>)>) -> bool {
    exists|j: int| 0 <= j < groups.len() && (#[trigger] groups[j]).0.len() != 20 && pre_state_of(reads, groups.take(j)) is Ok
}

/// Keys that are grouped never reach a malformed address key, whatever was read.
pub proof fn lemma_grouped_keys_reach_no_malformed_address(keys: Seq<Seq<u8>>, reads: TraceReadsModel)
    requires
        keys_grouped(keys),
    ensures
        !reaches_malformed_address(reads, key_groups(keys, 0)),
{
    lemma_key_groups_cover(keys, 0);
}

/// The pre-state a witness's keys name, read from the witness state: for each group of an
/// address key and the slot keys that follow it, in order, the account's balance, nonce,
/// code and the values of the group's slots; an account that does not exist is left out,
/// and the first failed read fails.
pub fn trace_pre_state(keys: &Vec<Vec<u8>>, reads: &TraceReads) -> (r: Result<Vec<(Address, PreStateAccount)>, Error>)
    requires
        !reaches_malformed_address(reads.model(), key_groups(bytes_view(keys@), 0)),
        reads.wf(),
    ensures
        pre_state_of(reads.model(), key_groups(bytes_view(keys@), 0)) == match r {
            Ok(v) => Ok::<Map<Address, PreStateAccountModel>, TraceFailure>(entries_map(map_entry_values(v@, pre_state_account_model()))),
            Err(e) => Err::<Map<Address, PreStateAccountModel>, TraceFailure>(failure_of(e)),
        },
        r matches Ok(v) ==> distinct_keys(v@),
{
    let ghost rm = reads.model();
    let ghost kv = bytes_view(keys@);
    let ghost mut done: Seq<(Seq<u8>, Seq<Seq<u8>>)> = Seq::empty();
    let mut pre: Vec<(Address, PreStateAccount)> = Vec::new();
    let len = keys.len();
    let mut i: usize = 0;
    proof {
        assert(key_groups(kv, 0) =~= done + key_groups(kv, 0));
        assert(entries_map(map_entry_values(pre@, pre_state_account_model())) =~= Map::<Address, PreStateAccountModel>::empty());
    }
    while i < len
        invariant
            len == keys@.len(),
            kv == bytes_view(keys@),
            !reaches_malformed_address(rm, key_groups(kv, 0)),
            reads.wf(),
            rm == reads.model(),
            i <= len,
            key_groups(kv, 0) == done + key_groups(kv, i as int),
            distinct_keys(pre@),
            pre_state_of(rm, done) == Ok::<Map<Address, PreStateAccountModel>, TraceFailure>(entries_map(map_entry_values(pre@, pre_state_account_model()))),
        decreases len - i,
    {
        proof {
            assert(kv[i as int] == keys@[i as int]@);
            let gs = key_groups(kv, 0);
            let j = done.len() as int;
            assert(key_groups(kv, i as int)[0].0 == kv[i as int]);
            assert(gs[j] == key_groups(kv, i as int)[0]);
            assert(gs.take(j) =~= done);
            if kv[i as int].len() != 20 {
                assert(gs[j].0.len() != 20 && pre_state_of(rm, gs.take(j)) is Ok);
                assert(reaches_malformed_address(rm, gs));
            }
        }
        let addr = address_from_slice(keys[i].as_slice());
        let mut e: usize = i + 1;
        proof {
            lemma_slots_end(kv, i + 1);
        }
        while e < len && keys[e].len() == 32
            invariant
                len == keys@.len(),
                kv == bytes_view(keys@),
                i + 1 <= e <= len,
                slots_end(kv, i + 1) == slots_end(kv, e as int),
                forall|k: int| i + 1 <= k < e ==> (#[trigger] keys@[k])@.len() == 32,
            decreases len - e,
        {
            proof {
                assert(kv[e as int] == keys@[e as int]@);
            }
            e = e + 1;
        }
        proof {
            if e < len {
                assert(kv[e as int] == keys@[e as int]@);
            }
            assert(slots_end(kv, e as int) == e);
            assert(key_groups(kv, i as int) =~= seq![(kv[i as int], kv.subrange(i + 1, e as int))] + key_groups(kv, e as int));
        }
        let ghost g = (kv[i as int], kv.subrange(i + 1, e as int));
        let ghost next = done.push(g);
        proof {
            lemma_address_of(addr);
            assert(g.0 == addr@);
            assert(next.drop_last() =~= done);
            assert(key_groups(kv, 0) =~= next + key_groups(kv, e as int));
        }
        match read_group(reads, addr, keys, i + 1, e) {
            Err(err) => {
                proof {
                    assert(pre_state_of(rm, next) == Err::<Map<Address, PreStateAccountModel>, TraceFailure>(failure_of(err)));
                    lemma_pre_state_failed(rm, next, key_groups(kv, e as int));
                }
                return Err(err);
            },
            Ok(None) => {},
            Ok(Some(account)) => {
                let ghost before = pre@;
                let ghost am = account.model();
                entries_insert(&mut pre, addr, account);
                proof {
                    lemma_entries_map_values(before, pre_state_account_model());
                    lemma_entries_map_values(pre@, pre_state_account_model());
                    assert(pre_state_account_model()(account) == am);
                    assert(entries_map(map_entry_values(pre@, pre_state_account_model())) =~= entries_map(
                        map_entry_values(before, pre_state_account_model()),
                    ).insert(addr, am));
                }
            },
        }
        proof {
            done = next;
        }
        i = e;
    }
    proof {
        assert(key_groups(kv, len as int) =~= Seq::<(Seq<u8>, Seq<Seq<u8>>)>::empty());
        assert(done + key_groups(kv, len as int) =~= done);
    }
    Ok(pre)
}

/// The traces of the first traced block, or that tracing produced none.
pub fn first_trace<T>(traces: Vec<T>) -> (r: Result<T, Error>)
    ensures
        traces@.len() > 0 ==> r == Ok::<T, Error>(traces@[0]),
        traces@.len() == 0 ==> r matches Err(Error::MissingTrace),
{
    let mut traces = traces;
    if traces.len() == 0 {
        return Err(Error::MissingTrace);
    }
    Ok(traces.remove(0))
}

} // verus!
