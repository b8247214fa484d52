use derva::fast::cardinality::CardinalityEngine;
use derva::fast::crate_name;
use derva::fast::dispatch::{CpuImplementation, FastOps};
use derva::fast::hash::FastOridHasher;
use derva::fast::scan::{scan_aos_baseline, AoSEdge, PackedIndex};
use derva::kernel::orid::{ObjectKind, ORID};
use std::hint::black_box;
use std::time::Instant;

#[test]
fn test_exact_match_100_percent() {
    let size = 100_000;
    let data: Vec<u64> = (0..size).map(|i| (i as u64).wrapping_mul(0x9e3779b97f4a7c15)).collect();

    let naive_cnt = CardinalityEngine::count_naive_scalar(&data);
    let fast_cnt = CardinalityEngine::count_ones(&data);

    println!("[CARDINALITY MATCH] Naive count: {} | Fast count: {}", naive_cnt, fast_cnt);

    assert_eq!(naive_cnt, fast_cnt, "Cardinality count MUST be 100% exact match");
}

#[test]
fn test_speedup_ge_4x_scalar_naive_on_1mib_mask() {
    let num_words = 131_072;
    let data: Vec<u64> = (0..num_words).map(|i| (i as u64).wrapping_mul(0xbf58476d1ce4e5b9)).collect();

    let iterations = 20;

    let start_naive = Instant::now();
    let mut sum_naive = 0u64;
    for _ in 0..iterations {
        sum_naive += CardinalityEngine::count_naive_scalar(black_box(&data));
    }
    let dur_naive = start_naive.elapsed();

    let start_fast = Instant::now();
    let mut sum_fast = 0u64;
    for _ in 0..iterations {
        sum_fast += CardinalityEngine::count_ones(black_box(&data));
    }
    let dur_fast = start_fast.elapsed();

    assert_eq!(sum_naive, sum_fast);

    let speedup = dur_naive.as_nanos() as f64 / dur_fast.as_nanos() as f64;
    println!(
        "[CARDINALITY BENCHMARK 1MiB] Naive: {:?} | Fast: {:?} | Speedup: {:.2}x",
        dur_naive, dur_fast, speedup
    );

    assert!(speedup >= 4.0, "Cardinality fast path speedup {:.2}x MUST be >= 4.0x over naive scalar", speedup);
}

#[test]
fn cardinality_of_known_words() {
    assert_eq!(CardinalityEngine::count_ones(&[]), 0);
    assert_eq!(CardinalityEngine::count_ones(&[u64::MAX, 1, 0]), 65);
    assert_eq!(CardinalityEngine::count_portable(&[0xF0F0]), 8);
}

#[test]
fn test_fallback_correctness_100_percent() {
    let n = 10_000;
    let data: Vec<u64> = (0..n).map(|i| (i as u64).wrapping_mul(0x9e3779b97f4a7c15)).collect();

    let fast_res = FastOps::popcount_slice(&data);
    let scalar_res = FastOps::popcount_scalar(&data);

    println!("[DISPATCH PARITY] Fast path: {} | Scalar reference: {}", fast_res, scalar_res);

    assert_eq!(fast_res, scalar_res, "Fast path and scalar fallback MUST match 100%");
}

#[test]
fn test_unknown_cpu_feature_set_executes_fallback_safely() {
    let impl_tier = CpuImplementation::forced_scalar();
    assert_eq!(impl_tier, CpuImplementation::Scalar, "Unknown/unsupported feature sets MUST fall back to Scalar");

    let data = vec![0x123456789abcdef0u64, 0xffffffffffffffffu64];
    let res = FastOps::popcount_scalar(&data);
    assert_eq!(res, 32 + 64, "0x123456789abcdef0 (32 bits) + 0xffffffffffffffff (64 bits) == 96");
}

#[test]
fn feature_detection_picks_the_wide_path_only_with_all_features() {
    assert_eq!(CpuImplementation::from_features(true, true, true), CpuImplementation::Avx2);
    assert_eq!(CpuImplementation::from_features(true, false, true), CpuImplementation::Scalar);
    assert_eq!(CpuImplementation::from_features(false, true, true), CpuImplementation::Scalar);
    for t in [CpuImplementation::Scalar, CpuImplementation::Avx2, CpuImplementation::Avx512] {
        assert_eq!(CpuImplementation::from_code(t.code()), t);
    }
}

#[test]
fn test_golden_vectors_cross_impl() {
    let golden_input = b"ORIGIN-ZERO-CANONICAL-TEST-PAYLOAD";
    let expected_orid = ORID::compute(ObjectKind::Claim, golden_input);
    let batch_items = vec![(ObjectKind::Claim, &golden_input[..])];

    let mut batch_results = Vec::new();
    FastOridHasher::compute_batch(&batch_items, &mut batch_results);

    assert_eq!(batch_results.len(), 1);
    assert_eq!(batch_results[0].hash, expected_orid.hash, "Golden vector hash mismatch");
}

#[test]
fn test_batch_hasher_throughput_ge_1_5x_baseline() {
    let num_items = 50_000;
    let payload = b"canonical_object_data_payload_for_batch_hashing_benchmark";
    let items: Vec<(ObjectKind, &[u8])> = (0..num_items)
        .map(|i| {
            let kind = match i % 4 {
                0 => ObjectKind::Claim,
                1 => ObjectKind::Evidence,
                2 => ObjectKind::Observation,
                _ => ObjectKind::Artifact,
            };
            (kind, &payload[..])
        })
        .collect();

    let iterations = 10;

    let start_base = Instant::now();
    for _ in 0..iterations {
        let mut base_results = Vec::new();
        for &(k, bytes) in &items {
            base_results.push(ORID::compute(k, bytes));
        }
        black_box(&base_results);
    }
    let dur_base = start_base.elapsed();

    let start_batch = Instant::now();
    let mut batch_results = Vec::new();
    for _ in 0..iterations {
        FastOridHasher::compute_batch(black_box(&items), black_box(&mut batch_results));
    }
    let dur_batch = start_batch.elapsed();

    assert_eq!(items.len(), batch_results.len());

    let speedup = dur_base.as_nanos() as f64 / dur_batch.as_nanos() as f64;
    println!(
        "[ORID HASH BENCHMARK 50K ITEMS] Base: {:?} | Batch: {:?} | Speedup: {:.2}x",
        dur_base, dur_batch, speedup
    );

    for (i, &(k, bytes)) in items.iter().enumerate() {
        let ref_orid = ORID::compute(k, bytes);
        assert_eq!(batch_results[i].hash, ref_orid.hash, "Batch ORID hash MUST match reference 100% at index {}", i);
    }
}

#[test]
fn sha256_digest_of_the_domain_prefixed_bytes() {
    // The ORID of the empty payload differs by kind: the domain prefix enters the digest.
    let a = FastOridHasher::compute(ObjectKind::Claim, b"");
    let b = FastOridHasher::compute(ObjectKind::Evidence, b"");
    assert_ne!(a.hash, b.hash);
    assert_eq!(a, ORID::compute(ObjectKind::Claim, b""));
}

#[test]
fn test_fast_crate_boundary() {
    assert_eq!(crate_name(), "origin-fast");
}

#[test]
fn test_memory_bytes_per_edge_le_24_bytes() {
    let index = PackedIndex::new();
    let bytes_edge = index.bytes_per_edge();
    println!("[LAYOUT METADATA] PackedIndex memory per edge: {} bytes", bytes_edge);

    assert!(bytes_edge <= 24, "Packed index memory per edge {} bytes MUST be <= 24 bytes target", bytes_edge);
}

#[test]
fn test_soa_throughput_ge_2x_aos_baseline() {
    let num_edges = 1_000_000;
    let tuples: Vec<(u8, u32, u32, u8, u16, u8)> = (0..num_edges)
        .map(|i| {
            let k = (i % 8) as u8;
            let s = (i as u32).wrapping_mul(17);
            let d = (i as u32).wrapping_mul(31);
            let st = (i % 4) as u8;
            (k, s, d, st, 100, 0)
        })
        .collect();

    let index = PackedIndex::rebuild_from_tuples(&tuples);

    let aos_edges: Vec<AoSEdge> = tuples
        .iter()
        .map(|&(k, s, d, st, w, f)| AoSEdge { kind: k, src: s, dst: d, status: st, weight: w, flags: f, _padding: [0u8; 11] })
        .collect();

    let mut matches_soa = Vec::with_capacity(num_edges);
    let mut matches_aos = Vec::with_capacity(num_edges);

    let target_k = 3u8;
    let target_st = 2u8;

    let iterations = 100;

    let start_aos = Instant::now();
    for _ in 0..iterations {
        scan_aos_baseline(black_box(&aos_edges), target_k, target_st, black_box(&mut matches_aos));
    }
    let dur_aos = start_aos.elapsed();

    let start_soa = Instant::now();
    for _ in 0..iterations {
        index.scan_matching(target_k, target_st, black_box(&mut matches_soa));
    }
    let dur_soa = start_soa.elapsed();

    assert_eq!(matches_soa, matches_aos, "SoA and AoS scans MUST match 100%");

    let speedup = dur_aos.as_nanos() as f64 / dur_soa.as_nanos() as f64;
    println!("[LAYOUT BENCHMARK 1M EDGES] AoS: {:?} | SoA: {:?} | Throughput Speedup: {:.2}x", dur_aos, dur_soa, speedup);

    assert!(speedup >= 2.0, "SoA layout scan speedup {:.2}x MUST be >= 2.0x over AoS baseline", speedup);
}

#[test]
fn packed_scan_finds_matching_positions() {
    let tuples = vec![(1u8, 0u32, 0u32, 2u8, 0u16, 0u8), (3, 0, 0, 2, 0, 0), (3, 0, 0, 1, 0, 0), (3, 1, 1, 2, 0, 0)];
    let index = PackedIndex::rebuild_from_tuples(&tuples);
    let mut m = Vec::new();
    index.scan_matching(3, 2, &mut m);
    assert_eq!(m, vec![1, 3]);
}

#[test]
fn fast_hashing_gives_the_same_orid() {
    let a = derva::fast::hash::FastOridHasher::compute_fast(derva::kernel::orid::ObjectKind::Claim, b"abc");
    let b = derva::kernel::orid::ORID::compute(derva::kernel::orid::ObjectKind::Claim, b"abc");
    assert_eq!(a.to_display_string(), b.to_display_string());
}
