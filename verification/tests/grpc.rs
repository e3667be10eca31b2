//! Witness requests, responses and streamed chunks of the gRPC witness service.

use stateless_witness::grpc::{BlockNumberOrTag, ExecutionWitness, StatusCode, WitnessField, WitnessServer};
use stateless_witness::record::{ExecutedState, ExecutionWitnessRecord};

type Server = WitnessServer<()>;

#[test]
fn block_numbers_and_tags() {
    assert_eq!(Server::block_id(1000).unwrap(), BlockNumberOrTag::Number(1000));
    assert_eq!(Server::block_id(0).unwrap(), BlockNumberOrTag::Number(0));
    assert_eq!(Server::block_id(-1).unwrap(), BlockNumberOrTag::Latest);
    assert_eq!(Server::block_id(-2).unwrap(), BlockNumberOrTag::Pending);
    assert_eq!(Server::block_id(-3).unwrap(), BlockNumberOrTag::Safe);
    assert_eq!(Server::block_id(-4).unwrap(), BlockNumberOrTag::Finalized);
    assert_eq!(Server::block_id(-5).unwrap(), BlockNumberOrTag::Earliest);
    let err = Server::block_id(-6).unwrap_err();
    assert_eq!(err.code, StatusCode::InvalidArgument);
    assert_eq!(err.message, "invalid block number");
}

#[test]
fn block_hash_must_be_32_bytes() {
    assert_eq!(Server::block_hash(&vec![7; 32]).unwrap(), [7; 32]);
    let err = Server::block_hash(&vec![7; 31]).unwrap_err();
    assert_eq!(err.code, StatusCode::InvalidArgument);
    assert_eq!(err.message, "block_hash must be 32 bytes");
    let missing = Server::found_block::<u8>(None).unwrap_err();
    assert_eq!(missing.code, StatusCode::NotFound);
    assert_eq!(missing.message, "block not found");
    assert_eq!(Server::found_block(Some(3u8)).unwrap(), 3);
}

#[test]
fn header_range_starts_at_lowest_lookup_or_parent() {
    assert_eq!(Server::header_range(Some(90), 100), (90, 100));
    assert_eq!(Server::header_range(None, 100), (99, 100));
    assert_eq!(Server::header_range(None, 0), (0, 0));
}

fn witness() -> ExecutionWitness {
    ExecutionWitness {
        state: vec![vec![1], vec![2], vec![3]],
        codes: vec![],
        keys: vec![vec![9; 20]],
        headers: vec![vec![5], vec![6]],
    }
}

#[test]
fn chunks_stream_fields_in_order_marking_the_last() {
    let chunks = Server::witness_chunks(&witness());
    assert_eq!(chunks.len(), 6);
    let fields: Vec<WitnessField> = chunks.iter().map(|c| c.field).collect();
    assert_eq!(
        fields,
        vec![
            WitnessField::State,
            WitnessField::State,
            WitnessField::State,
            WitnessField::Keys,
            WitnessField::Headers,
            WitnessField::Headers
        ]
    );
    let indexes: Vec<u32> = chunks.iter().map(|c| c.index).collect();
    assert_eq!(indexes, vec![0, 1, 2, 0, 0, 1]);
    let last: Vec<bool> = chunks.iter().map(|c| c.is_last_for_field).collect();
    assert_eq!(last, vec![false, false, true, true, false, true]);
    assert_eq!(chunks[4].data, vec![5]);
}

#[test]
fn response_and_witness_from_record() {
    let mut record = ExecutionWitnessRecord::new();
    record.codes = vec![vec![0xaa]];
    record.keys = vec![vec![0xbb]];
    record.lowest_block_number = Some(4);
    let (w, lowest) = Server::witness_from_record(record, vec![vec![1]], vec![vec![2]]);
    assert_eq!(lowest, Some(4));
    assert_eq!(w.codes, vec![vec![0xaa]]);
    let resp = Server::to_proto_response(w);
    assert_eq!(resp.state, vec![vec![1]]);
    assert_eq!(resp.keys, vec![vec![0xbb]]);
    assert_eq!(resp.headers, vec![vec![2]]);
    let server = WitnessServer::new(17u32);
    assert_eq!(*server.eth_api(), 17);
}

#[test]
fn header_range_covers_every_blockhash_lookup() {
    let state = ExecutedState {
        cache_accounts: vec![],
        cache_contracts: vec![],
        bundle_contracts: vec![],
        block_hash_numbers: vec![40, 12, 33],
    };
    let record = ExecutionWitnessRecord::from_executed_state(&state);
    let (start, end) = Server::header_range(record.lowest_block_number, 50);
    for n in [40u64, 12, 33] {
        assert!(start <= n && n < end);
    }
    assert_eq!((start, end), (12, 50));
}
