//! Mock execution witnesses of configurable size, for comparing the sizes and speeds
//! of the JSON and protobuf encodings of a witness.

use vstd::prelude::*;
use crate::bytes::copy_bytes;
use crate::grpc::{ExecutionWitness, ExecutionWitnessResponse};
use crate::record::bytes_view;

verus! {

/// A byte string of `size` copies of `byte`.
pub open spec fn filled(byte: u8, size: nat) -> Seq<u8> {
    Seq::new(size, |_j: int| byte)
}

/// The `i`-th mock state node: 32 to 499 bytes, each `7 i mod 256`.
pub open spec fn mock_state_node(i: int) -> Seq<u8> {
    filled(((i * 7) % 256) as u8, (32 + i % 468) as nat)
}

/// The `i`-th mock contract code: 100 bytes up to about 24 KB, each `13 i mod 256`.
pub open spec fn mock_code(i: int) -> Seq<u8> {
    filled(((i * 13) % 256) as u8, (100 + (i * 1000) % 24000) as nat)
}

/// The `i`-th mock key: an address (20 bytes) at even positions, a storage slot (32 bytes)
/// at odd ones, each byte `11 i mod 256`.
pub open spec fn mock_key(i: int) -> Seq<u8> {
    filled(((i * 11) % 256) as u8, if i % 2 == 0 { 20 } else { 32 })
}

/// The `i`-th mock header: 550 bytes, each `17 i mod 256`.
pub open spec fn mock_header(i: int) -> Seq<u8> {
    filled(((i * 17) % 256) as u8, 550)
}

/// A vector of `size` copies of `byte`.
fn filled_vec(byte: u8, size: usize) -> (r: Vec<u8>)
    ensures
        r@ == filled(byte, size as nat),
{
    let mut r: Vec<u8> = Vec::new();
    let mut j: usize = 0;
    while j < size
        invariant
            j <= size,
            r@ == filled(byte, j as nat),
        decreases size - j,
    {
        r.push(byte);
        j = j + 1;
        assert(r@ =~= filled(byte, j as nat));
    }
    r
}

/// A mock execution witness with the given numbers of state nodes, codes, keys and
/// headers, each item as `mock_state_node`, `mock_code`, `mock_key` and `mock_header` give.
pub fn generate_mock_witness(num_state_nodes: usize, num_codes: usize, num_keys: usize, num_headers: usize) -> (r:
    ExecutionWitness)
    requires
        num_state_nodes == 0 || (num_state_nodes - 1) * 7 <= usize::MAX,
        num_codes == 0 || (num_codes - 1) * 1000 <= usize::MAX,
        num_keys == 0 || (num_keys - 1) * 11 <= usize::MAX,
        num_headers == 0 || (num_headers - 1) * 17 <= usize::MAX,
    ensures
        bytes_view(r.state@) == Seq::new(num_state_nodes as nat, |i: int| mock_state_node(i)),
        bytes_view(r.codes@) == Seq::new(num_codes as nat, |i: int| mock_code(i)),
        bytes_view(r.keys@) == Seq::new(num_keys as nat, |i: int| mock_key(i)),
        bytes_view(r.headers@) == Seq::new(num_headers as nat, |i: int| mock_header(i)),
{
    let mut state: Vec<Vec<u8>> = Vec::new();
    let mut i: usize = 0;
    while i < num_state_nodes
        invariant
            i <= num_state_nodes,
            num_state_nodes == 0 || (num_state_nodes - 1) * 7 <= usize::MAX,
            bytes_view(state@) == Seq::new(i as nat, |k: int| mock_state_node(k)),
        decreases num_state_nodes - i,
    {
        let size = 32 + (i % 468);
        let byte = ((i * 7) % 256) as u8;
        let item = filled_vec(byte, size);
        let ghost before = state@;
        state.push(item);
        proof {
            assert(state@ == before.push(item));
            assert(item@ == mock_state_node(i as int));
            assert(bytes_view(state@) =~= bytes_view(before).push(item@));
        }
        i = i + 1;
        assert(bytes_view(state@) =~= Seq::new(i as nat, |k: int| mock_state_node(k)));
    }
    let mut codes: Vec<Vec<u8>> = Vec::new();
    let mut i: usize = 0;
    while i < num_codes
        invariant
            i <= num_codes,
            num_codes == 0 || (num_codes - 1) * 1000 <= usize::MAX,
            bytes_view(codes@) == Seq::new(i as nat, |k: int| mock_code(k)),
        decreases num_codes - i,
    {
        let size = 100 + (i * 1000) % 24000;
        let byte = ((i * 13) % 256) as u8;
        let item = filled_vec(byte, size);
        let ghost before = codes@;
        codes.push(item);
        proof {
            assert(codes@ == before.push(item));
            assert(item@ == mock_code(i as int));
            assert(bytes_view(codes@) =~= bytes_view(before).push(item@));
        }
        i = i + 1;
        assert(bytes_view(codes@) =~= Seq::new(i as nat, |k: int| mock_code(k)));
    }
    let mut keys: Vec<Vec<u8>> = Vec::new();
    let mut i: usize = 0;
    while i < num_keys
        invariant
            i <= num_keys,
            num_keys == 0 || (num_keys - 1) * 11 <= usize::MAX,
            bytes_view(keys@) == Seq::new(i as nat, |k: int| mock_key(k)),
        decreases num_keys - i,
    {
        let size: usize = if i % 2 == 0 { 20 } else { 32 };
        let byte = ((i * 11) % 256) as u8;
        let item = filled_vec(byte, size);
        let ghost before = keys@;
        keys.push(item);
        proof {
            assert(keys@ == before.push(item));
            assert(item@ == mock_key(i as int));
            assert(bytes_view(keys@) =~= bytes_view(before).push(item@));
        }
        i = i + 1;
        assert(bytes_view(keys@) =~= Seq::new(i as nat, |k: int| mock_key(k)));
    }
    let mut headers: Vec<Vec<u8>> = Vec::new();
    let mut i: usize = 0;
    while i < num_headers
        invariant
            i <= num_headers,
            num_headers == 0 || (num_headers - 1) * 17 <= usize::MAX,
            bytes_view(headers@) == Seq::new(i as nat, |k: int| mock_header(k)),
        decreases num_headers - i,
    {
        let byte = ((i * 17) % 256) as u8;
        let item = filled_vec(byte, 550);
        let ghost before = headers@;
        headers.push(item);
        proof {
            assert(headers@ == before.push(item));
            assert(item@ == mock_header(i as int));
            assert(bytes_view(headers@) =~= bytes_view(before).push(item@));
        }
        i = i + 1;
        assert(bytes_view(headers@) =~= Seq::new(i as nat, |k: int| mock_header(k)));
    }
    ExecutionWitness { state, codes, keys, headers }
}

/// A copy of each byte string.
fn copy_all(v: &Vec<Vec<u8>>) -> (r: Vec<Vec<u8>>)
    ensures
        bytes_view(r@) == bytes_view(v@),
{
    let mut r: Vec<Vec<u8>> = Vec::new();
    let mut i: usize = 0;
    while i < v.len()
        invariant
            i <= v@.len(),
            bytes_view(r@) == bytes_view(v@.take(i as int)),
        decreases v@.len() - i,
    {
        let item = copy_bytes(v[i].as_slice());
        let ghost before = r@;
        r.push(item);
        proof {
            assert(r@ == before.push(item));
            assert(bytes_view(r@) =~= bytes_view(before).push(item@));
            assert(v@.take(i + 1) =~= v@.take(i as int).push(v@[i as int]));
            assert(bytes_view(v@.take(i + 1)) =~= bytes_view(v@.take(i as int)).push(v@[i as int]@));
        }
        i = i + 1;
        assert(bytes_view(r@) =~= bytes_view(v@.take(i as int)));
    }
    assert(v@.take(v@.len() as int) =~= v@);
    r
}

/// The response message that carries a witness: its four lists, copied.
pub fn to_proto(witness: &ExecutionWitness) -> (r: ExecutionWitnessResponse)
    ensures
        bytes_view(r.state@) == bytes_view(witness.state@),
        bytes_view(r.codes@) == bytes_view(witness.codes@),
        bytes_view(r.keys@) == bytes_view(witness.keys@),
        bytes_view(r.headers@) == bytes_view(witness.headers@),
{
    ExecutionWitnessResponse {
        state: copy_all(&witness.state),
        codes: copy_all(&witness.codes),
        keys: copy_all(&witness.keys),
        headers: copy_all(&witness.headers),
    }
}

} // verus!
