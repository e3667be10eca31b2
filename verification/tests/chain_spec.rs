//! Hardfork activation and blob parameters of a chain specification.

use stateless_witness::chain_spec::{BlobParams, BlobScheduleBlobParams, ChainSpec, EthereumHardfork, ForkCondition};

fn params(n: u64) -> BlobParams {
    BlobParams {
        target_blob_count: n,
        max_blob_count: 2 * n,
        update_fraction: 1,
        min_blob_fee: 1,
        max_blobs_per_tx: n,
        blob_base_cost: 0,
    }
}

fn spec(scheduled: Vec<(u64, BlobParams)>) -> ChainSpec {
    let mut td = [0u8; 32];
    td[31] = 7;
    ChainSpec::new(
        1,
        vec![
            (EthereumHardfork::Prague, ForkCondition::Timestamp(200)),
            (EthereumHardfork::Cancun, ForkCondition::Timestamp(100)),
            (EthereumHardfork::Paris, ForkCondition::TTD { activation_block_number: 5, fork_block: None, total_difficulty: td }),
            (EthereumHardfork::Cancun, ForkCondition::Timestamp(150)),
        ],
        Some([4; 20]),
        BlobScheduleBlobParams { cancun: params(3), prague: params(6), osaka: params(9), scheduled },
    )
}

#[test]
fn forks_are_kept_in_order_later_wins() {
    let s = spec(vec![]);
    let order: Vec<EthereumHardfork> = s.forks_iter().into_iter().map(|(f, _)| f).collect();
    assert_eq!(order, vec![EthereumHardfork::Paris, EthereumHardfork::Cancun, EthereumHardfork::Prague]);
    assert!(matches!(s.ethereum_fork_activation(EthereumHardfork::Cancun), ForkCondition::Timestamp(150)));
    assert!(matches!(s.ethereum_fork_activation(EthereumHardfork::Osaka), ForkCondition::Never));
    assert!(matches!(s.fork(None), ForkCondition::Never));
    assert!(matches!(s.fork(Some(EthereumHardfork::Prague)), ForkCondition::Timestamp(200)));
    assert_eq!(s.chain(), 1);
    assert_eq!(s.deposit_contract_address(), Some([4; 20]));
    let td = s.final_paris_total_difficulty().unwrap();
    assert_eq!(td[31], 7);
}

#[test]
fn blob_params_by_timestamp() {
    let s = spec(vec![]);
    assert_eq!(s.blob_params_at_timestamp(149), None);
    assert_eq!(s.blob_params_at_timestamp(150), Some(params(3)));
    assert_eq!(s.blob_params_at_timestamp(250), Some(params(6)));
    let s = spec(vec![(300, params(12)), (400, params(15))]);
    assert_eq!(s.blob_params_at_timestamp(299), Some(params(6)));
    assert_eq!(s.blob_params_at_timestamp(300), Some(params(12)));
    assert_eq!(s.blob_params_at_timestamp(500), Some(params(15)));
    assert_eq!(s.blob_params.active_scheduled_params_at_timestamp(350), Some(params(12)));
}

#[test]
fn fork_condition_activation_by_timestamp() {
    assert!(ForkCondition::Timestamp(10).active_at_timestamp(10));
    assert!(!ForkCondition::Timestamp(10).active_at_timestamp(9));
    assert!(!ForkCondition::Block(0).active_at_timestamp(100));
    assert!(ForkCondition::Timestamp(10).active_at_timestamp(u64::MAX));
    assert!(!ForkCondition::Never.active_at_timestamp(u64::MAX));
    assert!(matches!(ForkCondition::default(), ForkCondition::Never));
    assert_eq!(EthereumHardfork::Frontier.index(), 0);
    assert_eq!(EthereumHardfork::Bogota.index(), 25);
}
