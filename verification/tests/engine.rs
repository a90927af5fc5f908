use steadcopy::engine::hasher::{hash_bytes, HashAlgorithm, HashValue};
use steadcopy::engine::pipeline::{CopyResult, DestinationOutcome, PipelineOptions, DEFAULT_CHUNK_SIZE, QUEUE_DEPTH};
use steadcopy::engine::stream::Hasher;
use steadcopy::engine::verify::{destination_hasher, judge, VerifyOutcome};

/// Reads `data` back the way the application does: in chunks, through the hasher
/// chosen by the expected value, then judged.
fn verify_bytes(data: &[u8], expected: &HashValue) -> VerifyOutcome {
    let mut h = destination_hasher(expected);
    for chunk in data.chunks(1000) {
        h.update(chunk);
    }
    judge(h.finish(), expected)
}

#[test]
fn scenario_copy_engine_algorithm_is_selectable() {
    let data = b"steadcopy";
    assert_eq!(hash_bytes(HashAlgorithm::Xxh64, data).algorithm(), HashAlgorithm::Xxh64);
    assert_eq!(hash_bytes(HashAlgorithm::Md5, data).algorithm(), HashAlgorithm::Md5);
    assert_eq!(HashAlgorithm::default(), HashAlgorithm::Xxh64);
}

#[test]
fn scenario_copy_engine_md5_matches_known_vector() {
    let h = hash_bytes(HashAlgorithm::Md5, b"abc");
    assert_eq!(h.to_hex(), "900150983cd24fb0d6963f7d28e17f72");
}

#[test]
fn scenario_copy_engine_xxh64_matches_known_vector() {
    let h = hash_bytes(HashAlgorithm::Xxh64, b"abc");
    assert_eq!(h.to_hex(), "44bc2cf5ad770999");
}

#[test]
fn scenario_copy_engine_streaming_equals_oneshot() {
    let data: Vec<u8> = (0..100_000u32).map(|i| (i % 251) as u8).collect();
    for algo in [HashAlgorithm::Xxh64, HashAlgorithm::Md5] {
        let oneshot = hash_bytes(algo, &data);
        let mut h = Hasher::new(algo);
        for chunk in data.chunks(4096) {
            h.update(chunk);
        }
        assert!(h.finish().matches(&oneshot), "{} 分块与一次性结果不一致", algo.id());
    }
}

#[test]
fn scenario_copy_engine_empty_input_has_a_hash() {
    for algo in [HashAlgorithm::Xxh64, HashAlgorithm::Md5] {
        let h = hash_bytes(algo, b"");
        assert!(!h.to_hex().is_empty());
        assert!(h.matches(&hash_bytes(algo, b"")));
    }
}

#[test]
fn scenario_copy_engine_no_empty_hash_value_exists() {
    let a = hash_bytes(HashAlgorithm::Xxh64, b"A");
    let b = hash_bytes(HashAlgorithm::Xxh64, b"B");
    assert!(!a.matches(&b));
    let md5_a = hash_bytes(HashAlgorithm::Md5, b"A");
    assert!(!a.matches(&md5_a), "不同算法之间 MUST NOT 判定为相等");
}

#[test]
fn scenario_copy_engine_hash_hex_is_lowercase_and_fixed_length() {
    let x = hash_bytes(HashAlgorithm::Xxh64, b"x");
    assert_eq!(x.to_hex().len(), 16);
    let m = hash_bytes(HashAlgorithm::Md5, b"x");
    assert_eq!(m.to_hex().len(), 32);
    for h in [x, m] {
        let hex = h.to_hex();
        assert!(hex.chars().all(|c| c.is_ascii_hexdigit() && !c.is_ascii_uppercase()));
    }
}

#[test]
fn scenario_copy_engine_verify_detects_tampered_destination() {
    let original = "steadcopy 原始内容".as_bytes().repeat(500);
    let expected = hash_bytes(HashAlgorithm::Xxh64, &original);
    assert_eq!(verify_bytes(&original, &expected), VerifyOutcome::Match);
    let mut tampered = original.clone();
    let mid = tampered.len() / 2;
    tampered[mid] ^= 0xFF;
    match verify_bytes(&tampered, &expected) {
        VerifyOutcome::Mismatch { actual } => {
            assert!(!actual.matches(&expected));
            assert!(actual.matches(&hash_bytes(HashAlgorithm::Xxh64, &tampered)));
        }
        VerifyOutcome::Match => panic!("被篡改的文件 MUST NOT 判定为通过"),
    }
}

#[test]
fn scenario_copy_engine_verify_detects_truncation() {
    let original = b"0123456789".repeat(1000);
    let expected = hash_bytes(HashAlgorithm::Xxh64, &original);
    assert!(!verify_bytes(&original[..original.len() / 2], &expected).is_match(), "被截断的文件 MUST NOT 判定为通过");
}

#[test]
fn scenario_copy_engine_verify_empty_file_has_definite_result() {
    let expected = hash_bytes(HashAlgorithm::Xxh64, b"");
    assert_eq!(verify_bytes(b"", &expected), VerifyOutcome::Match);
    let non_empty = hash_bytes(HashAlgorithm::Xxh64, b"x");
    assert!(!verify_bytes(b"", &non_empty).is_match());
}

#[test]
fn scenario_copy_engine_verify_algorithm_follows_expected() {
    let data = b"algo follows expected";
    for algo in [HashAlgorithm::Xxh64, HashAlgorithm::Md5] {
        let expected = hash_bytes(algo, data);
        assert_eq!(verify_bytes(data, &expected), VerifyOutcome::Match, "{} 应通过", algo.id());
    }
}

#[test]
fn scenario_copy_engine_verify_cross_algorithm_never_matches() {
    let data = b"cross algo";
    let md5_expected = hash_bytes(HashAlgorithm::Md5, data);
    let xxh_of_same = hash_bytes(HashAlgorithm::Xxh64, data);
    assert!(!md5_expected.matches(&xxh_of_same));
    assert!(verify_bytes(data, &md5_expected).is_match());
    assert_eq!(judge(xxh_of_same, &md5_expected), VerifyOutcome::Mismatch { actual: xxh_of_same });
}

fn outcome(path: &str, error: Option<&str>) -> DestinationOutcome {
    DestinationOutcome { path: path.into(), bytes_written: 10, error: error.map(|e| e.to_string()) }
}

#[test]
fn copy_result_reports_failed_destinations_in_order() {
    let r = CopyResult {
        source_hash: hash_bytes(HashAlgorithm::Xxh64, b"x"),
        source_bytes_read: 10,
        destinations: vec![outcome("D", None), outcome("E", Some("盘满")), outcome("F", Some("拔出"))],
        cancelled: false,
    };
    assert!(!r.all_succeeded());
    let failed = r.failed_destinations();
    assert_eq!(failed.len(), 2);
    assert_eq!(failed[0].path, "E");
    assert_eq!(failed[1].error.as_deref(), Some("拔出"));
    assert!(r.destinations[0].succeeded());
}

#[test]
fn copy_result_cancelled_is_never_all_succeeded() {
    let mut r = CopyResult {
        source_hash: hash_bytes(HashAlgorithm::Md5, b"x"),
        source_bytes_read: 10,
        destinations: vec![outcome("D", None)],
        cancelled: false,
    };
    assert!(r.all_succeeded());
    r.cancelled = true;
    assert!(!r.all_succeeded());
}

#[test]
fn pipeline_defaults() {
    let o = PipelineOptions::default();
    assert_eq!(o.algorithm, HashAlgorithm::Xxh64);
    assert_eq!(o.chunk_size, DEFAULT_CHUNK_SIZE);
    assert_eq!(DEFAULT_CHUNK_SIZE, 4 * 1024 * 1024);
    assert_eq!(o.queue_depth, QUEUE_DEPTH);
}
