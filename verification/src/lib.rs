//! Verified core logic for stateless block witnesses: ancestor-header checks, canonical
//! witness encodings, witness recording, flat pre-states and the databases behind them,
//! witness messages and streams, tracing inputs, the decisions of a witness provider,
//! and chain-spec rules.

pub mod bytes;
pub mod entries;
pub mod state;
pub mod bincode;
pub mod validation;
pub mod record;
pub mod provider;
pub mod flat_witness;
pub mod flat_execution_witness;
pub mod grpc;
pub mod bench;
pub mod trace;
pub mod ress;
pub mod chain_spec;
pub mod util;
