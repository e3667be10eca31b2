//! The gRPC witness service: execution witnesses as binary messages, requests by
//! block number or hash, and the witness streamed field by field in chunks.

use vstd::prelude::*;
use crate::bytes::{b256_from_slice, copy_bytes, B256};
use crate::record::{ExecutionWitnessRecord, bytes_view, lemma_lowest_number, lowest_number};

verus! {

/// An execution witness: state trie nodes, contract code, key preimages, and the
/// RLP-encoded ancestor headers the BLOCKHASH opcode may need.
#[derive(Debug)]
pub struct ExecutionWitness {
    /// State trie nodes.
    pub state: Vec<Vec<u8>>,
    /// Contract code.
    pub codes: Vec<Vec<u8>>,
    /// Preimages of the hashed keys: addresses and storage slots.
    pub keys: Vec<Vec<u8>>,
    /// RLP-encoded ancestor headers, oldest first.
    pub headers: Vec<Vec<u8>>,
}

/// The response message of a witness request: the witness's four lists of byte strings.
#[derive(Debug)]
pub struct ExecutionWitnessResponse {
    /// State trie nodes.
    pub state: Vec<Vec<u8>>,
    /// Contract code.
    pub codes: Vec<Vec<u8>>,
    /// Key preimages.
    pub keys: Vec<Vec<u8>>,
    /// RLP-encoded ancestor headers.
    pub headers: Vec<Vec<u8>>,
}

/// The field of the witness that a streamed chunk belongs to.
#[derive(Clone, Copy, Debug, PartialEq, Eq, Structural)]
pub enum WitnessField {
    /// State trie nodes.
    State,
    /// Contract code.
    Codes,
    /// Key preimages.
    Keys,
    /// Ancestor headers.
    Headers,
}

/// One item of one field of a streamed witness.
#[derive(Debug)]
pub struct ExecutionWitnessChunk {
    /// The field the item belongs to.
    pub field: WitnessField,
    /// The item's position in its field, truncated to 32 bits.
    pub index: u32,
    /// The item.
    pub data: Vec<u8>,
    /// Whether the item is the last of its field.
    pub is_last_for_field: bool,
}

/// A block number or tag.
#[derive(Clone, Copy, Debug, PartialEq, Eq, Structural)]
pub enum BlockNumberOrTag {
    /// The latest block.
    Latest,
    /// The pending block.
    Pending,
    /// The latest safe block.
    Safe,
    /// The latest finalized block.
    Finalized,
    /// The earliest block.
    Earliest,
    /// The block with this number.
    Number(u64),
}

/// The kind of a failed request.
#[derive(Clone, Copy, Debug, PartialEq, Eq, Structural)]
pub enum StatusCode {
    /// The request was malformed.
    InvalidArgument,
    /// The requested block does not exist.
    NotFound,
    /// Serving the request failed.
    Internal,
}

/// A failed request: its kind and a message.
#[derive(Debug)]
pub struct Status {
    /// The kind of failure.
    pub code: StatusCode,
    /// The message.
    pub message: String,
}

impl Status {
    /// A malformed request.
    pub fn invalid_argument(message: &str) -> (s: Status)
        ensures
            s.code == StatusCode::InvalidArgument,
            s.message@ == message@,
    {
        Status { code: StatusCode::InvalidArgument, message: message.to_owned() }
    }

    /// A request for something that does not exist.
    pub fn not_found(message: &str) -> (s: Status)
        ensures
            s.code == StatusCode::NotFound,
            s.message@ == message@,
    {
        Status { code: StatusCode::NotFound, message: message.to_owned() }
    }

    /// A request whose serving failed.
    pub fn internal(message: String) -> (s: Status)
        ensures
            s.code == StatusCode::Internal,
            s.message@ == message@,
    {
        Status { code: StatusCode::Internal, message }
    }
}

/// The block a request's signed block number names: a number from zero up, and the tags
/// latest, pending, safe, finalized and earliest at minus one to minus five.
pub open spec fn requested_block(block_number: i64) -> Option<BlockNumberOrTag> {
    if block_number >= 0 {
        Some(BlockNumberOrTag::Number(block_number as u64))
    } else if block_number == -1 {
        Some(BlockNumberOrTag::Latest)
    } else if block_number == -2 {
        Some(BlockNumberOrTag::Pending)
    } else if block_number == -3 {
        Some(BlockNumberOrTag::Safe)
    } else if block_number == -4 {
        Some(BlockNumberOrTag::Finalized)
    } else if block_number == -5 {
        Some(BlockNumberOrTag::Earliest)
    } else {
        None
    }
}

/// The first block number whose header is served: the lowest block number execution
/// looked up, else the parent's (zero for the first block).
pub open spec fn header_range_start(lowest_block_number: Option<u64>, block_number: u64) -> int {
    match lowest_block_number {
        Some(n) => n as int,
        None => if block_number == 0 { 0 } else { block_number - 1 },
    }
}

/// The headers served with a witness cover every block number below the block that its
/// execution looked up with the BLOCKHASH opcode, and the parent's when it looked up none.
pub proof fn lemma_header_range_covers_lookups(looked_up: Seq<u64>, block_number: u64)
    requires
        block_number > 0,
        forall|i: int| 0 <= i < looked_up.len() ==> #[trigger] looked_up[i] < block_number,
    ensures
        forall|i: int|
            0 <= i < looked_up.len() ==> header_range_start(lowest_number(looked_up), block_number) <= #[trigger] looked_up[i]
                < block_number,
        header_range_start(lowest_number(looked_up), block_number) <= block_number - 1,
{
    lemma_lowest_number(looked_up);
    if looked_up.len() > 0 {
        assert(looked_up[0] < block_number);
    }
}

/// The chunks of one field: each item with its position, the last one marked.
pub open spec fn field_chunks(field: WitnessField, items: Seq<Seq<u8>>) -> Seq<(WitnessField, u32, Seq<u8>, bool)> {
    Seq::new(items.len(), |i: int| (field, i as u32, items[i], i == items.len() - 1))
}

/// What a chunk holds.
pub open spec fn chunk_view() -> spec_fn(ExecutionWitnessChunk) -> (WitnessField, u32, Seq<u8>, bool) {
    |c: ExecutionWitnessChunk| (c.field, c.index, c.data@, c.is_last_for_field)
}

/// The chunks of a whole witness: the state, then the code, the keys and the headers.
pub open spec fn witness_chunks_of(w: ExecutionWitness) -> Seq<(WitnessField, u32, Seq<u8>, bool)> {
    field_chunks(WitnessField::State, bytes_view(w.state@)) + field_chunks(WitnessField::Codes, bytes_view(w.codes@))
        + field_chunks(WitnessField::Keys, bytes_view(w.keys@)) + field_chunks(WitnessField::Headers, bytes_view(w.headers@))
}

/// Whether a chunk belongs to a field, as a function.
pub open spec fn in_field(field: WitnessField) -> spec_fn((WitnessField, u32, Seq<u8>, bool)) -> bool {
    |c: (WitnessField, u32, Seq<u8>, bool)| c.0 == field
}

/// The item a chunk carries, as a function.
pub open spec fn chunk_data() -> spec_fn((WitnessField, u32, Seq<u8>, bool)) -> Seq<u8> {
    |c: (WitnessField, u32, Seq<u8>, bool)| c.2
}

/// The items of one field in a stream of chunks, in the order they come.
pub open spec fn field_items(chunks: Seq<(WitnessField, u32, Seq<u8>, bool)>, field: WitnessField) -> Seq<Seq<u8>> {
    chunks.filter(in_field(field)).map_values(chunk_data())
}

/// One field of a witness.
pub open spec fn witness_field(w: ExecutionWitness, field: WitnessField) -> Seq<Seq<u8>> {
    match field {
        WitnessField::State => bytes_view(w.state@),
        WitnessField::Codes => bytes_view(w.codes@),
        WitnessField::Keys => bytes_view(w.keys@),
        WitnessField::Headers => bytes_view(w.headers@),
    }
}

/// Filtering keeps a sequence whole when every item passes.
proof fn lemma_filter_all<A>(s: Seq<A>, p: spec_fn(A) -> bool)
    requires
        forall|i: int| 0 <= i < s.len() ==> p(#[trigger] s[i]),
    ensures
        s.filter(p) == s,
    decreases s.len(),
{
    reveal(Seq::filter);
    if s.len() > 0 {
        lemma_filter_all(s.drop_last(), p);
        assert(s.drop_last().push(s.last()) =~= s);
    }
}

/// Filtering empties a sequence when no item passes.
proof fn lemma_filter_none<A>(s: Seq<A>, p: spec_fn(A) -> bool)
    requires
        forall|i: int| 0 <= i < s.len() ==> !p(#[trigger] s[i]),
    ensures
        s.filter(p) == Seq::<A>::empty(),
    decreases s.len(),
{
    reveal(Seq::filter);
    if s.len() > 0 {
        lemma_filter_none(s.drop_last(), p);
    }
}

/// The chunks of one field belong to that field and to no other.
proof fn lemma_field_chunks_filter(field: WitnessField, items: Seq<Seq<u8>>, asked: WitnessField)
    ensures
        field_chunks(field, items).filter(in_field(asked)) == if field == asked {
            field_chunks(field, items)
        } else {
            Seq::empty()
        },
{
    let cs = field_chunks(field, items);
    if field == asked {
        lemma_filter_all(cs, in_field(asked));
    } else {
        lemma_filter_none(cs, in_field(asked));
    }
}

/// The items of one field of a witness's chunks are that field of the witness.
proof fn lemma_items_of_field(w: ExecutionWitness, f: WitnessField)
    ensures
        field_items(witness_chunks_of(w), f) == witness_field(w, f),
{
    let p = in_field(f);
    let g = chunk_data();
    let a = field_chunks(WitnessField::State, bytes_view(w.state@));
    let b = field_chunks(WitnessField::Codes, bytes_view(w.codes@));
    let c = field_chunks(WitnessField::Keys, bytes_view(w.keys@));
    let d = field_chunks(WitnessField::Headers, bytes_view(w.headers@));
    Seq::filter_distributes_over_add(a + b + c, d, p);
    Seq::filter_distributes_over_add(a + b, c, p);
    Seq::filter_distributes_over_add(a, b, p);
    lemma_field_chunks_filter(WitnessField::State, bytes_view(w.state@), f);
    lemma_field_chunks_filter(WitnessField::Codes, bytes_view(w.codes@), f);
    lemma_field_chunks_filter(WitnessField::Keys, bytes_view(w.keys@), f);
    lemma_field_chunks_filter(WitnessField::Headers, bytes_view(w.headers@), f);
    let kept = witness_chunks_of(w).filter(p);
    assert(kept == a.filter(p) + b.filter(p) + c.filter(p) + d.filter(p));
    match f {
        WitnessField::State => assert(kept =~= a),
        WitnessField::Codes => assert(kept =~= b),
        WitnessField::Keys => assert(kept =~= c),
        WitnessField::Headers => assert(kept =~= d),
    }
    assert(kept.map_values(g) =~= witness_field(w, f));
}

/// The streamed chunks carry the witness exactly: the items of each field, taken in the
/// order they come, are that field of the witness.
pub proof fn lemma_chunks_carry_witness(w: ExecutionWitness)
    ensures
        field_items(witness_chunks_of(w), WitnessField::State) == bytes_view(w.state@),
        field_items(witness_chunks_of(w), WitnessField::Codes) == bytes_view(w.codes@),
        field_items(witness_chunks_of(w), WitnessField::Keys) == bytes_view(w.keys@),
        field_items(witness_chunks_of(w), WitnessField::Headers) == bytes_view(w.headers@),
{
    lemma_items_of_field(w, WitnessField::State);
    lemma_items_of_field(w, WitnessField::Codes);
    lemma_items_of_field(w, WitnessField::Keys);
    lemma_items_of_field(w, WitnessField::Headers);
}

/// Appends the chunks of one field.
fn push_field_chunks(out: &mut Vec<ExecutionWitnessChunk>, field: WitnessField, items: &Vec<Vec<u8>>)
    ensures
        final(out)@.map_values(chunk_view()) == old(out)@.map_values(chunk_view()) + field_chunks(field, bytes_view(items@)),
{
    let ghost start = out@.map_values(chunk_view());
    let ghost target = field_chunks(field, bytes_view(items@));
    let len = items.len();
    let mut i: usize = 0;
    while i < len
        invariant
            len == items@.len(),
            i <= len,
            target == field_chunks(field, bytes_view(items@)),
            out@.map_values(chunk_view()) == start + target.take(i as int),
        decreases len - i,
    {
        let data = copy_bytes(items[i].as_slice());
        let index: u32 = #[verifier::truncate] (i as u32);
        let chunk = ExecutionWitnessChunk { field, index, data, is_last_for_field: i == len - 1 };
        let ghost c = chunk;
        let ghost before = out@;
        out.push(chunk);
        proof {
            assert(chunk_view()(c) == target[i as int]);
            assert(out@ == before.push(c));
            assert(out@.map_values(chunk_view()) =~= before.map_values(chunk_view()).push(chunk_view()(c)));
            assert(out@.map_values(chunk_view()) =~= start + target.take(i + 1));
        }
        i = i + 1;
    }
    proof {
        assert(target.take(len as int) =~= target);
    }
}

/// The server of execution witnesses over gRPC.
#[derive(Debug)]
pub struct WitnessServer<Eth> {
    eth_api: Eth,
}

impl<Eth> WitnessServer<Eth> {
    /// The Eth API the server reads blocks and state through.
    pub closed spec fn api(self) -> Eth {
        self.eth_api
    }

    /// Creates a server over the given Eth API.
    pub fn new(eth_api: Eth) -> (r: Self)
        ensures
            r.api() == eth_api,
    {
        WitnessServer { eth_api }
    }

    /// The Eth API the server reads blocks and state through.
    pub fn eth_api(&self) -> (r: &Eth)
        ensures
            *r == self.api(),
    {
        &self.eth_api
    }

    /// The block a request names by its signed block number; any other negative number
    /// is an invalid argument.
    pub fn block_id(block_number: i64) -> (r: Result<BlockNumberOrTag, Status>)
        ensures
            match requested_block(block_number) {
                Some(id) => r == Ok::<BlockNumberOrTag, Status>(id),
                None => r matches Err(s) && s.code == StatusCode::InvalidArgument && s.message@ == "invalid block number"@,
            },
    {
        if block_number < 0 {
            if block_number == -1 {
                Ok(BlockNumberOrTag::Latest)
            } else if block_number == -2 {
                Ok(BlockNumberOrTag::Pending)
            } else if block_number == -3 {
                Ok(BlockNumberOrTag::Safe)
            } else if block_number == -4 {
                Ok(BlockNumberOrTag::Finalized)
            } else if block_number == -5 {
                Ok(BlockNumberOrTag::Earliest)
            } else {
                Err(Status::invalid_argument("invalid block number"))
            }
        } else {
            Ok(BlockNumberOrTag::Number(block_number as u64))
        }
    }

    /// The block hash a request names: exactly 32 bytes, else an invalid argument.
    pub fn block_hash(hash_bytes: &Vec<u8>) -> (r: Result<B256, Status>)
        ensures
            hash_bytes@.len() == 32 ==> (r matches Ok(h) && h@ == hash_bytes@),
            hash_bytes@.len() != 32 ==> (r matches Err(s) && s.code == StatusCode::InvalidArgument
                && s.message@ == "block_hash must be 32 bytes"@),
    {
        if hash_bytes.len() != 32 {
            return Err(Status::invalid_argument("block_hash must be 32 bytes"));
        }
        Ok(b256_from_slice(hash_bytes.as_slice()))
    }

    /// The block a lookup found, or that it was not found.
    pub fn found_block<B>(block: Option<B>) -> (r: Result<B, Status>)
        ensures
            match block {
                Some(b) => r == Ok::<B, Status>(b),
                None => r matches Err(s) && s.code == StatusCode::NotFound && s.message@ == "block not found"@,
            },
    {
        match block {
            Some(b) => Ok(b),
            None => Err(Status::not_found("block not found")),
        }
    }

    /// The range of block numbers whose headers the BLOCKHASH opcode may need: from the
    /// lowest block number execution looked up (else the parent), up to but excluding
    /// the block itself.
    pub fn header_range(lowest_block_number: Option<u64>, block_number: u64) -> (r: (u64, u64))
        ensures
            r.1 == block_number,
            r.0 == header_range_start(lowest_block_number, block_number),
    {
        let smallest = match lowest_block_number {
            Some(n) => n,
            None => block_number.saturating_sub(1),
        };
        (smallest, block_number)
    }

    /// The witness of a block from what its execution recorded: the state trie nodes
    /// that prove the recorded state, the recorded code and key preimages, and the
    /// encoded headers; with the lowest block number the execution looked up.
    pub fn witness_from_record(record: ExecutionWitnessRecord, state: Vec<Vec<u8>>, headers: Vec<Vec<u8>>) -> (r: (
        ExecutionWitness,
        Option<u64>,
    ))
        ensures
            r.0.state@ == state@,
            r.0.codes@ == record.codes@,
            r.0.keys@ == record.keys@,
            r.0.headers@ == headers@,
            r.1 == record.lowest_block_number,
    {
        let ExecutionWitnessRecord { hashed_state, codes, keys, lowest_block_number } = record;
        (ExecutionWitness { state, codes, keys, headers }, lowest_block_number)
    }

    /// The response message of a witness: its four lists, unchanged.
    pub fn to_proto_response(witness: ExecutionWitness) -> (r: ExecutionWitnessResponse)
        ensures
            r.state@ == witness.state@,
            r.codes@ == witness.codes@,
            r.keys@ == witness.keys@,
            r.headers@ == witness.headers@,
    {
        ExecutionWitnessResponse { state: witness.state, codes: witness.codes, keys: witness.keys, headers: witness.headers }
    }

    /// The chunks a witness is streamed in: the state, then the code, the keys and the
    /// headers; each item with its position in its field, the last of a field marked.
    pub fn witness_chunks(witness: &ExecutionWitness) -> (r: Vec<ExecutionWitnessChunk>)
        ensures
            r@.map_values(chunk_view()) == witness_chunks_of(*witness),
    {
        let mut out: Vec<ExecutionWitnessChunk> = Vec::new();
        push_field_chunks(&mut out, WitnessField::State, &witness.state);
        push_field_chunks(&mut out, WitnessField::Codes, &witness.codes);
        push_field_chunks(&mut out, WitnessField::Keys, &witness.keys);
        push_field_chunks(&mut out, WitnessField::Headers, &witness.headers);
        assert(out@.map_values(chunk_view()) =~= witness_chunks_of(*witness));
        out
    }
}

/// The base-128 varint encoding of a number: seven bits a byte, least significant first,
/// the high bit set on every byte but the last.
pub open spec fn varint(n: nat) -> Seq<u8>
    decreases n,
{
    if n < 128 {
        seq![n as u8]
    } else {
        seq![(n % 128 + 128) as u8] + varint(n / 128)
    }
}

/// The encoding of one length-delimited field: the key (field number times eight, plus
/// wire type two), the length and the bytes.
pub open spec fn bytes_field(tag: nat, value: Seq<u8>) -> Seq<u8> {
    varint(tag * 8 + 2) + varint(value.len()) + value
}

/// The encoding of a repeated bytes field: each value as a field, in order.
pub open spec fn repeated_bytes_field(tag: nat, values: Seq<Seq<u8>>) -> Seq<u8>
    decreases values.len(),
{
    if values.len() == 0 {
        Seq::empty()
    } else {
        repeated_bytes_field(tag, values.drop_last()) + bytes_field(tag, values.last())
    }
}

/// The protobuf encoding of a response: state, code, keys and headers as fields one to four.
pub open spec fn response_encoding(r: ExecutionWitnessResponse) -> Seq<u8> {
    repeated_bytes_field(1, bytes_view(r.state@)) + repeated_bytes_field(2, bytes_view(r.codes@))
        + repeated_bytes_field(3, bytes_view(r.keys@)) + repeated_bytes_field(4, bytes_view(r.headers@))
}

/// Calls `prost::encoding::bytes::encode`, which appends one length-delimited field to
/// the buffer. Claimed: it appends exactly `bytes_field(tag, value)`, the key and the
/// length as base-128 varints followed by the bytes.
#[verifier::external_body]
fn encode_bytes_field(tag: u32, value: &Vec<u8>, buf: &mut Vec<u8>)
    requires
        1 <= tag < 0x2000_0000,
    ensures
        final(buf)@ == old(buf)@ + bytes_field(tag as nat, value@),
{
    prost::encoding::bytes::encode(tag, value, buf)
}

/// Appends a repeated bytes field.
fn encode_repeated_field(tag: u32, values: &Vec<Vec<u8>>, buf: &mut Vec<u8>)
    requires
        1 <= tag < 0x2000_0000,
    ensures
        final(buf)@ == old(buf)@ + repeated_bytes_field(tag as nat, bytes_view(values@)),
{
    let ghost start = buf@;
    let mut i: usize = 0;
    while i < values.len()
        invariant
            1 <= tag < 0x2000_0000,
            i <= values@.len(),
            buf@ == start + repeated_bytes_field(tag as nat, bytes_view(values@.take(i as int))),
        decreases values@.len() - i,
    {
        encode_bytes_field(tag, &values[i], buf);
        proof {
            assert(bytes_view(values@.take(i + 1)).drop_last() =~= bytes_view(values@.take(i as int)));
            assert(bytes_view(values@.take(i + 1)).last() == values@[i as int]@);
            assert(buf@ =~= start + repeated_bytes_field(tag as nat, bytes_view(values@.take(i + 1))));
        }
        i = i + 1;
    }
    assert(values@.take(values@.len() as int) =~= values@);
}

impl ExecutionWitnessResponse {
    /// The protobuf encoding of the response.
    pub fn encode_to_vec(&self) -> (r: Vec<u8>)
        ensures
            r@ == response_encoding(*self),
    {
        let mut buf: Vec<u8> = Vec::new();
        encode_repeated_field(1, &self.state, &mut buf);
        encode_repeated_field(2, &self.codes, &mut buf);
        encode_repeated_field(3, &self.keys, &mut buf);
        encode_repeated_field(4, &self.headers, &mut buf);
        assert(buf@ =~= response_encoding(*self));
        buf
    }
}

} // verus!
