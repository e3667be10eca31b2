//! Compares the JSON and protobuf encodings of mock execution witnesses: sizes and
//! serialization speeds. Run with `--nocapture` to see the figures.

use alloy_primitives::Bytes;
use alloy_rpc_types_debug::ExecutionWitness as RpcExecutionWitness;
use prost::bytes::{Buf, BufMut};
use prost::encoding::{DecodeContext, WireType};
use prost::{DecodeError, Message};
use stateless_witness::bench::{generate_mock_witness, to_proto};
use stateless_witness::grpc::ExecutionWitness;
use std::io::Write;
use std::time::Instant;

/// The response message as a protobuf message, for decoding.
#[derive(Debug, Default, Clone, PartialEq)]
struct ProtoWitness {
    state: Vec<Vec<u8>>,
    codes: Vec<Vec<u8>>,
    keys: Vec<Vec<u8>>,
    headers: Vec<Vec<u8>>,
}

impl Message for ProtoWitness {
    fn encode_raw(&self, buf: &mut impl BufMut) {
        prost::encoding::bytes::encode_repeated(1, &self.state, buf);
        prost::encoding::bytes::encode_repeated(2, &self.codes, buf);
        prost::encoding::bytes::encode_repeated(3, &self.keys, buf);
        prost::encoding::bytes::encode_repeated(4, &self.headers, buf);
    }

    fn merge_field(
        &mut self,
        tag: u32,
        wire_type: WireType,
        buf: &mut impl Buf,
        ctx: DecodeContext,
    ) -> Result<(), DecodeError> {
        match tag {
            1 => prost::encoding::bytes::merge_repeated(wire_type, &mut self.state, buf, ctx),
            2 => prost::encoding::bytes::merge_repeated(wire_type, &mut self.codes, buf, ctx),
            3 => prost::encoding::bytes::merge_repeated(wire_type, &mut self.keys, buf, ctx),
            4 => prost::encoding::bytes::merge_repeated(wire_type, &mut self.headers, buf, ctx),
            _ => prost::encoding::skip_field(wire_type, tag, buf, ctx),
        }
    }

    fn encoded_len(&self) -> usize {
        prost::encoding::bytes::encoded_len_repeated(1, &self.state)
            + prost::encoding::bytes::encoded_len_repeated(2, &self.codes)
            + prost::encoding::bytes::encoded_len_repeated(3, &self.keys)
            + prost::encoding::bytes::encoded_len_repeated(4, &self.headers)
    }

    fn clear(&mut self) {
        self.state.clear();
        self.codes.clear();
        self.keys.clear();
        self.headers.clear();
    }
}

fn to_rpc(witness: &ExecutionWitness) -> RpcExecutionWitness {
    let conv = |v: &Vec<Vec<u8>>| v.iter().map(|b| Bytes::from(b.clone())).collect::<Vec<_>>();
    RpcExecutionWitness {
        state: conv(&witness.state),
        codes: conv(&witness.codes),
        keys: conv(&witness.keys),
        headers: conv(&witness.headers),
    }
}

/// Benchmark result
#[derive(Debug)]
struct BenchResult {
    json_size: usize,
    proto_size: usize,
    json_serialize_us: u128,
    proto_serialize_us: u128,
    json_deserialize_us: u128,
    proto_deserialize_us: u128,
    size_reduction_percent: f64,
    serialize_speedup: f64,
    deserialize_speedup: f64,
}

/// Run benchmark comparing JSON vs Protobuf serialization
fn run_benchmark(
    num_state_nodes: usize,
    num_codes: usize,
    num_keys: usize,
    num_headers: usize,
    iterations: usize,
) -> BenchResult {
    let witness = generate_mock_witness(num_state_nodes, num_codes, num_keys, num_headers);
    let proto_witness = to_proto(&witness);
    let rpc_witness = to_rpc(&witness);

    // Warm up
    let _ = serde_json::to_vec(&rpc_witness);
    let _ = proto_witness.encode_to_vec();

    let start = Instant::now();
    let mut json_bytes = Vec::new();
    for _ in 0..iterations {
        json_bytes = serde_json::to_vec(&rpc_witness).unwrap();
    }
    let json_serialize_us = start.elapsed().as_micros() / iterations as u128;

    let start = Instant::now();
    let mut proto_bytes = Vec::new();
    for _ in 0..iterations {
        proto_bytes = proto_witness.encode_to_vec();
    }
    let proto_serialize_us = start.elapsed().as_micros() / iterations as u128;

    let start = Instant::now();
    for _ in 0..iterations {
        let _: RpcExecutionWitness = serde_json::from_slice(&json_bytes).unwrap();
    }
    let json_deserialize_us = start.elapsed().as_micros() / iterations as u128;

    let start = Instant::now();
    for _ in 0..iterations {
        let _ = ProtoWitness::decode(proto_bytes.as_slice()).unwrap();
    }
    let proto_deserialize_us = start.elapsed().as_micros() / iterations as u128;

    let json_size = json_bytes.len();
    let proto_size = proto_bytes.len();

    BenchResult {
        json_size,
        proto_size,
        json_serialize_us,
        proto_serialize_us,
        json_deserialize_us,
        proto_deserialize_us,
        size_reduction_percent: (1.0 - (proto_size as f64 / json_size as f64)) * 100.0,
        serialize_speedup: json_serialize_us as f64 / proto_serialize_us as f64,
        deserialize_speedup: json_deserialize_us as f64 / proto_deserialize_us as f64,
    }
}

fn format_size(bytes: usize) -> String {
    if bytes >= 1_000_000 {
        format!("{:.2} MB", bytes as f64 / 1_000_000.0)
    } else if bytes >= 1_000 {
        format!("{:.2} KB", bytes as f64 / 1_000.0)
    } else {
        format!("{} B", bytes)
    }
}

fn print_result(result: &BenchResult, iterations: usize) {
    println!("  Size:");
    println!("    JSON:     {}", format_size(result.json_size));
    println!("    Protobuf: {}", format_size(result.proto_size));
    println!("    Reduction: {:.1}%", result.size_reduction_percent);
    println!();
    println!("  Serialization (avg over {} iterations):", iterations);
    println!("    JSON:     {} µs", result.json_serialize_us);
    println!("    Protobuf: {} µs", result.proto_serialize_us);
    println!("    Speedup:  {:.1}x", result.serialize_speedup);
    println!();
    println!("  Deserialization (avg over {} iterations):", iterations);
    println!("    JSON:     {} µs", result.json_deserialize_us);
    println!("    Protobuf: {} µs", result.proto_deserialize_us);
    println!("    Speedup:  {:.1}x", result.deserialize_speedup);
}

#[test]
fn bench_small_witness() {
    println!("\n=== Small Witness (simple transaction) ===");
    println!("  50 state nodes, 2 contracts, 20 keys, 1 header\n");
    let result = run_benchmark(50, 2, 20, 1, 100);
    print_result(&result, 100);
}

#[test]
fn bench_medium_witness() {
    println!("\n=== Medium Witness (contract interaction) ===");
    println!("  500 state nodes, 10 contracts, 200 keys, 5 headers\n");
    let result = run_benchmark(500, 10, 200, 5, 50);
    print_result(&result, 50);
}

#[test]
fn bench_large_witness() {
    println!("\n=== Large Witness (complex DeFi transaction) ===");
    println!("  2000 state nodes, 50 contracts, 1000 keys, 10 headers\n");
    let result = run_benchmark(2000, 50, 1000, 10, 20);
    print_result(&result, 20);
}

#[test]
fn bench_summary_table() {
    println!("\n");
    println!("╔══════════════════════════════════════════════════════════════════════════════╗");
    println!("║            JSON-RPC vs gRPC Execution Witness Benchmark                      ║");
    println!("╠══════════════════════════════════════════════════════════════════════════════╣");
    println!("║ Scenario          │ JSON Size  │ Proto Size │ Reduction │ Ser. Speed │ Deser ║");
    println!("╠══════════════════════════════════════════════════════════════════════════════╣");

    let scenarios = [
        ("Small (simple tx)", 50, 2, 20, 1),
        ("Medium (contract)", 500, 10, 200, 5),
        ("Large (DeFi)", 2000, 50, 1000, 10),
        ("XL (batch)", 5000, 100, 3000, 50),
    ];

    for (name, nodes, codes, keys, headers) in scenarios {
        let r = run_benchmark(nodes, codes, keys, headers, 20);
        println!(
            "║ {:17} │ {:>10} │ {:>10} │ {:>8.1}% │ {:>9.1}x │ {:>4.1}x ║",
            name,
            format_size(r.json_size),
            format_size(r.proto_size),
            r.size_reduction_percent,
            r.serialize_speedup,
            r.deserialize_speedup
        );
    }

    println!("╚══════════════════════════════════════════════════════════════════════════════╝");
    println!();
}

#[test]
fn bench_with_compression() {
    println!("\n=== Compression Comparison (Large Witness) ===\n");

    let witness = generate_mock_witness(2000, 50, 1000, 10);
    let proto_witness = to_proto(&witness);

    let json_bytes = serde_json::to_vec(&to_rpc(&witness)).unwrap();
    let proto_bytes = proto_witness.encode_to_vec();

    let mut json_gzip = flate2::write::GzEncoder::new(Vec::new(), flate2::Compression::default());
    json_gzip.write_all(&json_bytes).unwrap();
    let json_gzip_bytes = json_gzip.finish().unwrap();

    let mut proto_gzip = flate2::write::GzEncoder::new(Vec::new(), flate2::Compression::default());
    proto_gzip.write_all(&proto_bytes).unwrap();
    let proto_gzip_bytes = proto_gzip.finish().unwrap();

    println!("  Format          │ Uncompressed │   Gzip     │ Gzip Ratio");
    println!("  ────────────────┼──────────────┼────────────┼───────────");
    println!(
        "  JSON            │ {:>12} │ {:>10} │ {:>8.1}%",
        format_size(json_bytes.len()),
        format_size(json_gzip_bytes.len()),
        (1.0 - json_gzip_bytes.len() as f64 / json_bytes.len() as f64) * 100.0
    );
    println!(
        "  Protobuf        │ {:>12} │ {:>10} │ {:>8.1}%",
        format_size(proto_bytes.len()),
        format_size(proto_gzip_bytes.len()),
        (1.0 - proto_gzip_bytes.len() as f64 / proto_bytes.len() as f64) * 100.0
    );
    println!();
    println!(
        "  Proto vs JSON (uncompressed): {:.1}% smaller",
        (1.0 - proto_bytes.len() as f64 / json_bytes.len() as f64) * 100.0
    );
    println!(
        "  Proto+gzip vs JSON+gzip:      {:.1}% smaller",
        (1.0 - proto_gzip_bytes.len() as f64 / json_gzip_bytes.len() as f64) * 100.0
    );
    println!(
        "  Proto+gzip vs JSON (raw):     {:.1}% smaller",
        (1.0 - proto_gzip_bytes.len() as f64 / json_bytes.len() as f64) * 100.0
    );
}

#[test]
fn mock_witness_items_follow_their_formulas() {
    let w = generate_mock_witness(3, 2, 3, 2);
    assert_eq!(w.state.len(), 3);
    assert_eq!(w.state[2], vec![14u8; 34]);
    assert_eq!(w.codes[1], vec![13u8; 1100]);
    assert_eq!(w.keys[0], vec![0u8; 20]);
    assert_eq!(w.keys[1], vec![11u8; 32]);
    assert_eq!(w.headers[1], vec![17u8; 550]);
}

#[test]
fn proto_encoding_matches_prost_message() {
    let w = generate_mock_witness(40, 3, 9, 2);
    let ours = to_proto(&w).encode_to_vec();
    let reference = ProtoWitness {
        state: w.state.clone(),
        codes: w.codes.clone(),
        keys: w.keys.clone(),
        headers: w.headers.clone(),
    };
    assert_eq!(ours, reference.encode_to_vec());
    let decoded = ProtoWitness::decode(ours.as_slice()).unwrap();
    assert_eq!(decoded, reference);
}

#[test]
fn proto_encoding_of_one_item() {
    let w = ExecutionWitness { state: vec![vec![0xab, 0xcd]], codes: vec![], keys: vec![vec![1]], headers: vec![] };
    let bytes = to_proto(&w).encode_to_vec();
    assert_eq!(bytes, vec![0x0a, 0x02, 0xab, 0xcd, 0x1a, 0x01, 0x01]);
}
