//! The decisions of the ress protocol provider.

use stateless_witness::ress::{hashed_state_is_empty, root_node_state, witness_task_result};
use stateless_witness::state::HashedPostState;
use alloy_consensus::Header;
use alloy_primitives::B256;
use alloy_rlp::Encodable;
use stateless_witness::ress::{
    AncestorQuery, AncestorWalk, BlockSource, HeaderCollection, HeaderStep, Lookup, ProviderError,
    RethRessProtocolProvider, WalkStep,
};

type Provider = RethRessProtocolProvider<(), ()>;

#[test]
fn blocks_are_looked_up_pending_then_database_then_invalid() {
    assert_eq!(Provider::block_lookup_start(), BlockSource::Pending);
    assert!(matches!(Provider::block_by_hash::<u8>(BlockSource::Pending, None), Lookup::Ask(BlockSource::Provider)));
    assert!(matches!(Provider::block_by_hash::<u8>(BlockSource::Provider, None), Lookup::Ask(BlockSource::Invalid)));
    assert!(matches!(Provider::block_by_hash::<u8>(BlockSource::Invalid, None), Lookup::Found(None)));
    assert!(matches!(Provider::block_by_hash(BlockSource::Provider, Some(4u8)), Lookup::Found(Some(4))));
    assert!(matches!(Provider::bytecode::<u8>(BlockSource::Pending, None), Lookup::Ask(BlockSource::Provider)));
    assert!(matches!(Provider::bytecode::<u8>(BlockSource::Provider, None), Lookup::Found(None)));
}

#[test]
fn witness_window_and_snapshot_consistency() {
    let p = RethRessProtocolProvider::new((), (), 128);
    assert!(p.check_witness_window(1000, 872).is_ok());
    assert!(p.check_witness_window(1000, 871).is_err());
    assert!(p.check_witness_window(10, 20).is_ok());
    match p.check_witness_window(1000, 0) {
        Err(ProviderError::TrieWitnessError(m)) => assert_eq!(m, "witness target block exceeds maximum witness window"),
        other => panic!("unexpected {:?}", other),
    }
    assert!(Provider::validate_snapshot_consistency(5, &[1; 32], 5, &[1; 32]).is_ok());
    assert!(Provider::validate_snapshot_consistency(5, &[1; 32], 6, &[1; 32]).is_err());
    assert!(Provider::validate_snapshot_consistency(5, &[1; 32], 5, &[2; 32]).is_err());
}

#[test]
fn headers_needed_is_capped() {
    assert_eq!(Provider::headers_needed(Some(90), 100), 10);
    assert_eq!(Provider::headers_needed(Some(0), 1000), 256);
    assert_eq!(Provider::headers_needed(None, 1000), 1);
    assert_eq!(Provider::headers_needed(Some(100), 100), 0);
}

#[test]
fn ancestor_walk_passes_executed_blocks() {
    let (mut walk, step) = AncestorWalk::<&str>::new([1; 32]);
    assert!(matches!(step, WalkStep::Ask(AncestorQuery::State)));
    assert!(matches!(walk.on_state(false), WalkStep::Ask(AncestorQuery::Executed)));
    assert!(matches!(walk.on_block(AncestorQuery::Executed, Some(("b1", [2; 32]))), WalkStep::Ask(AncestorQuery::State)));
    assert!(matches!(walk.on_block(AncestorQuery::Executed, None), WalkStep::Ask(AncestorQuery::Invalid)));
    assert!(matches!(walk.on_block(AncestorQuery::Invalid, Some(("b2", [3; 32]))), WalkStep::Ask(AncestorQuery::State)));
    assert!(matches!(walk.on_state(true), WalkStep::Done(h) if h == [3; 32]));
    assert_eq!(walk.chain, vec!["b1", "b2"]);
    assert_eq!(walk.links, vec![([1; 32], [2; 32]), ([2; 32], [3; 32])]);
    match walk.on_block(AncestorQuery::Invalid, None) {
        WalkStep::Fail(ProviderError::StateForHashNotFound(h)) => assert_eq!(h, [3; 32]),
        other => panic!("unexpected {:?}", other),
    }
}

fn header_with_parent(number: u64, parent_hash: [u8; 32]) -> Vec<u8> {
    let header = Header { number, parent_hash: B256::from(parent_hash), ..Default::default() };
    let mut buf = Vec::new();
    header.encode(&mut buf);
    buf
}

#[test]
fn headers_collected_from_ancestors_then_database() {
    let h9 = header_with_parent(9, [8; 32]);
    let h8 = header_with_parent(8, [7; 32]);
    let ancestors = vec![h9.clone()];
    let mut c = HeaderCollection::from_ancestors(&ancestors, &[9; 32], 3);
    assert_eq!(c.headers, vec![h9.clone()]);
    assert_eq!(c.current_hash, [8; 32]);
    assert!(!c.ended);
    assert!(matches!(c.first_step(), HeaderStep::Ask(BlockSource::Pending, h) if h == [8; 32]));
    let step = c.on_header(BlockSource::Pending, Some(h8.clone()));
    assert!(matches!(step, HeaderStep::Ask(BlockSource::Pending, h) if h == [7; 32]));
    assert!(matches!(c.on_header(BlockSource::Pending, None), HeaderStep::Ask(BlockSource::Provider, h) if h == [7; 32]));
    assert!(matches!(c.on_header(BlockSource::Provider, None), HeaderStep::Done));
    assert_eq!(c.finish(), vec![h8, h9]);

    let few = HeaderCollection::from_ancestors(&ancestors, &[9; 32], 1);
    assert!(matches!(few.first_step(), HeaderStep::Done));
    let none = HeaderCollection::from_ancestors(&vec![], &[9; 32], 1);
    assert_eq!(none.current_hash, [9; 32]);
}

#[test]
fn headers_that_do_not_decode_end_the_walk() {
    let h9 = header_with_parent(9, [8; 32]);
    let c = HeaderCollection::from_ancestors(&vec![h9.clone(), vec![0xff]], &[9; 32], 5);
    assert_eq!(c.headers, vec![h9]);
    assert_eq!(c.current_hash, [8; 32]);
    assert!(c.ended);
    assert!(matches!(c.first_step(), HeaderStep::Done));

    let mut d = HeaderCollection::from_ancestors(&vec![], &[9; 32], 5);
    assert!(matches!(d.on_header(BlockSource::Provider, Some(vec![0x01, 0x02])), HeaderStep::Done));
    assert!(d.ended);
    assert!(d.headers.is_empty());
    assert_eq!(d.current_hash, [9; 32]);
}

#[test]
fn missing_tip_and_target_are_not_found() {
    assert_eq!(Provider::tip_hash(Some([3; 32])).unwrap(), [3; 32]);
    assert!(matches!(Provider::tip_hash(None), Err(ProviderError::BlockHashNotFound(h)) if h == [0; 32]));
    assert_eq!(Provider::target_block([4; 32], Some("block")).unwrap(), "block");
    assert!(matches!(Provider::target_block::<u8>([4; 32], None), Err(ProviderError::BlockHashNotFound(h)) if h == [4; 32]));
}

#[test]
fn witness_state_and_task_results() {
    let empty = HashedPostState { accounts: vec![], storages: vec![] };
    assert!(hashed_state_is_empty(&empty));
    let one = HashedPostState { accounts: vec![([1; 32], None)], storages: vec![] };
    assert!(!hashed_state_is_empty(&one));
    assert_eq!(root_node_state(Some(vec![0x80])), vec![vec![0x80]]);
    assert!(root_node_state(None).is_empty());
    assert_eq!(witness_task_result::<u8>(Some(Ok(3))).unwrap(), 3);
    match witness_task_result::<u8>(None) {
        Err(ProviderError::TrieWitnessError(m)) => assert_eq!(m, "dropped"),
        other => panic!("unexpected {:?}", other),
    }
    assert!(matches!(
        witness_task_result::<u8>(Some(Err(ProviderError::BlockHashNotFound([0; 32])))),
        Err(ProviderError::BlockHashNotFound(_))
    ));
}
