use raftmetrics::api::control::{normalize_worker_url, worker_for};
use raftmetrics::api::worker::replica_ids;
use raftmetrics::error::RaftMetricsError;
use raftmetrics::metrics::{
    order_key_of, ApplyOutcome, MetricOperation, MetricSeries, MetricValue, MetricsRegistry,
};
use raftmetrics::models::MetricQuery;
use raftmetrics::partitioning::{get_partition, hash_key, jump_hash};
use raftmetrics::partitioning::modulo::modulo_hash;
use raftmetrics::raft::entry::{Entry, EntryType};
use raftmetrics::raft::node::RaftError;
use raftmetrics::raft::storage::StorageError;
use std::hash::{Hash, Hasher};

fn entry(index: u64, data: &[u8]) -> Entry {
    Entry { entry_type: EntryType::EntryNormal, term: 1, index, data: data.to_vec() }
}

fn record(name: &str, value: f64) -> Option<MetricOperation> {
    Some(MetricOperation::Record { name: name.to_string(), value: value.to_bits() })
}

#[test]
fn record_and_read_back() {
    let mut registry = MetricsRegistry::new();
    assert_eq!(registry.get_metric("cpu"), None);
    assert!(registry.get_metric_aggregate("cpu").is_none());
    assert!(registry.values("cpu").is_none());
    registry.record_metric("cpu", 42.0f64.to_bits());
    registry.record_metric_with_timestamp("cpu", 58.0f64.to_bits(), 17);
    registry.record_metric("mem", 1.5f64.to_bits());
    assert_eq!(registry.get_metric("cpu").map(f64::from_bits), Some(58.0));
    assert_eq!(registry.get_metric("mem").map(f64::from_bits), Some(1.5));
    assert_eq!(
        registry.values("cpu").unwrap(),
        vec![
            MetricValue { value: 42.0f64.to_bits(), _timestamp: 0 },
            MetricValue { value: 58.0f64.to_bits(), _timestamp: 17 },
        ]
    );
    let mut all = registry.get_all_metrics();
    all.sort();
    assert_eq!(
        all,
        vec![("cpu".to_string(), 58.0f64.to_bits()), ("mem".to_string(), 1.5f64.to_bits())]
    );
}

#[test]
fn aggregate_orders_values_as_numbers() {
    let mut registry = MetricsRegistry::new();
    for value in [3.5, -2.0, 10.0, -7.25, 0.0] {
        registry.record_metric("t", f64::to_bits(value));
    }
    let aggregate = registry.get_metric_aggregate("t").unwrap();
    assert_eq!(aggregate.count, 5);
    assert_eq!(f64::from_bits(aggregate.min), -7.25);
    assert_eq!(f64::from_bits(aggregate.max), 10.0);
    assert_eq!(f64::from_bits(aggregate.latest), 0.0);
}

#[test]
fn order_key_follows_the_numbers() {
    let ordered = [f64::NEG_INFINITY, -1.0e9, -1.0, -0.0, 0.0, 1.0e-9, 1.0, 2.5, f64::INFINITY];
    for pair in ordered.windows(2) {
        assert!(order_key_of(pair[0].to_bits()) < order_key_of(pair[1].to_bits()));
    }
    assert_eq!(order_key_of(0), 0x8000_0000_0000_0000);
    assert_eq!(order_key_of(0x8000_0000_0000_0000), 0x7fff_ffff_ffff_ffff);
    assert_eq!(order_key_of(u64::MAX), 0);
}

#[test]
fn delete_forgets_a_metric() {
    let mut registry = MetricsRegistry::new();
    registry.record_metric("a", 1);
    registry.record_metric("b", 2);
    registry.record_metric("c", 3);
    registry.delete_metric("b");
    registry.delete_metric("missing");
    assert_eq!(registry.get_metric("a"), Some(1));
    assert_eq!(registry.get_metric("b"), None);
    assert_eq!(registry.get_metric("c"), Some(3));
    assert_eq!(registry.get_all_metrics().len(), 2);
    registry.record_metric("b", 9);
    assert_eq!(registry.values("b").unwrap().len(), 1);
}

#[test]
fn apply_takes_only_the_next_entry() {
    let mut registry = MetricsRegistry::new();
    let first = entry(1, b"payload");
    assert_eq!(registry.apply_raft_entry(&entry(2, b"p"), record("x", 1.0)), ApplyOutcome::OutOfOrder);
    assert_eq!(registry.last_applied(), 0);
    assert_eq!(registry.get_metric("x"), None);
    assert_eq!(registry.apply_raft_entry(&first, record("x", 1.0)), ApplyOutcome::Applied);
    assert_eq!(registry.last_applied(), 1);
    assert_eq!(registry.apply_raft_entry(&first, record("x", 1.0)), ApplyOutcome::AlreadyApplied);
    assert_eq!(registry.values("x").unwrap().len(), 1);
    assert_eq!(registry.apply_raft_entry(&entry(0, b"p"), record("x", 5.0)), ApplyOutcome::AlreadyApplied);
    assert_eq!(registry.last_applied(), 1);
}

#[test]
fn apply_skips_what_it_cannot_read_and_moves_on() {
    let mut registry = MetricsRegistry::new();
    assert_eq!(registry.apply_raft_entry(&entry(1, b""), None), ApplyOutcome::Empty);
    assert_eq!(registry.apply_raft_entry(&entry(2, b"garbage"), None), ApplyOutcome::Unreadable);
    let change = Entry { entry_type: EntryType::EntryConfChange, term: 1, index: 3, data: vec![1] };
    assert_eq!(registry.apply_raft_entry(&change, record("x", 1.0)), ApplyOutcome::Empty);
    assert_eq!(registry.last_applied(), 3);
    assert_eq!(registry.get_all_metrics().len(), 0);
    assert_eq!(registry.apply_raft_entry(&entry(4, b"p"), record("x", 2.0)), ApplyOutcome::Applied);
    let delete = Some(MetricOperation::Delete { name: "x".to_string() });
    assert_eq!(registry.apply_raft_entry(&entry(5, b"p"), delete), ApplyOutcome::Applied);
    assert_eq!(registry.get_metric("x"), None);
    assert_eq!(registry.last_applied(), 5);
}

#[test]
fn resume_takes_up_after_the_recorded_index() {
    let mut registry = MetricsRegistry::resume(10);
    assert_eq!(registry.last_applied(), 10);
    assert_eq!(registry.apply_raft_entry(&entry(10, b"p"), record("x", 1.0)), ApplyOutcome::AlreadyApplied);
    assert_eq!(registry.apply_raft_entry(&entry(11, b"p"), record("x", 1.0)), ApplyOutcome::Applied);
}

#[test]
fn error_status_and_message() {
    let cases = vec![
        (RaftMetricsError::Database("d".to_string()), 500, "Database error: d"),
        (RaftMetricsError::Raft("r".to_string()), 500, "Raft error: r"),
        (RaftMetricsError::Serialization("s".to_string()), 400, "Serialization error: s"),
        (RaftMetricsError::NotFound("cpu".to_string()), 404, "Not found: cpu"),
        (RaftMetricsError::Internal("".to_string()), 500, "Internal error: "),
    ];
    for (error, status, message) in cases {
        assert_eq!(error.status_code(), status);
        assert_eq!(error.message(), message);
    }
}

#[test]
fn raft_errors_map_to_raft_messages() {
    let mapped = RaftMetricsError::from_raft_error(RaftError::NotLeader);
    assert_eq!(mapped.message(), "Raft error: not leader");
    assert_eq!(mapped.status_code(), 500);
    let mapped = RaftMetricsError::from_raft_error(RaftError::Store(StorageError::Compacted));
    assert_eq!(mapped.message(), "Raft error: log compacted");
    let mapped = RaftMetricsError::from_storage_error(StorageError::SnapshotTemporarilyUnavailable);
    assert_eq!(mapped.message(), "Raft error: snapshot temporarily unavailable");
    let mapped = RaftMetricsError::from_raft_error(RaftError::ProposalDropped);
    assert_eq!(mapped.message(), "Raft error: proposal dropped");
    let mapped = RaftMetricsError::from_raft_error(RaftError::ConfigInvalid);
    assert_eq!(mapped.message(), "Raft error: invalid configuration");
}

#[test]
fn worker_routing() {
    let none: Vec<String> = vec![];
    assert_eq!(worker_for("cpu", &none), None);
    let one = vec!["http://a".to_string()];
    assert_eq!(worker_for("cpu", &one), Some(0));
    let three = vec!["a".to_string(), "b".to_string(), "c".to_string()];
    assert_eq!(worker_for("cpu", &three), Some(get_partition("cpu", 3)));
    assert_eq!(replica_ids(0), Vec::<u64>::new());
    assert_eq!(replica_ids(3), vec![1, 2, 3]);
}

#[test]
fn query_order() {
    let query = MetricQuery {
        metric_name: "cpu".to_string(),
        start_time: 5,
        end_time: 5,
        aggregation: "avg".to_string(),
    };
    assert!(query.is_ordered());
    let query = MetricQuery { start_time: 6, ..query };
    assert!(!query.is_ordered());
}

#[test]
fn jump_hash_known_values() {
    // With one bucket everything lands on it; with none the answer is zero.
    for digest in [0u64, 1, 42, u64::MAX] {
        assert_eq!(jump_hash(digest, 0), 0);
        assert_eq!(jump_hash(digest, 1), 0);
    }
    // Digest 0: the generator moves to 1, the first jump goes to 2^31.
    assert_eq!(jump_hash(0, 2), 0);
    assert_eq!(jump_hash(0, 1_000_000), 0);
    assert_eq!(jump_hash(1, 10), 6);
    assert_eq!(jump_hash(0xdead_beef, 100), 87);
    assert_eq!(jump_hash(12_345_678_901_234_567_890, 1000), 294);
    assert_eq!(jump_hash(u64::MAX, 7), 2);
    assert_eq!(jump_hash(42, 3), 2);
    assert_eq!(jump_hash(42, 4), 2);
    assert_eq!(jump_hash(42, 1_000_000), 153_897);
}

#[test]
fn jump_hash_is_in_range_and_remap_stable() {
    let mut moved = 0;
    let mut total = 0;
    for key in 0..2000u64 {
        let digest = hash_key(&format!("metric-{}", key));
        for buckets in 1..12usize {
            let before = jump_hash(digest, buckets);
            let after = jump_hash(digest, buckets + 1);
            assert!(before < buckets);
            assert!(after < buckets + 1);
            assert!(after == before || after == buckets);
            if buckets == 8 {
                total += 1;
                if after != before {
                    moved += 1;
                }
            }
        }
    }
    // About one key in nine moves when a ninth shard is added.
    assert!(moved * 9 < total * 2, "moved {} of {}", moved, total);
    assert!(moved > 0);
}

#[test]
fn modulo_placement_remaps_most_keys() {
    let mut moved = 0;
    let mut total = 0;
    for key in 0..2000u64 {
        let digest = hash_key(&format!("metric-{}", key));
        let before = modulo_hash(digest, 8);
        let after = modulo_hash(digest, 9);
        assert!(before < 8 && after < 9);
        assert_eq!(before as u64, (digest & 0xffff_ffff) % 8);
        total += 1;
        if before != after {
            moved += 1;
        }
    }
    assert!(moved * 10 > total * 8, "moved {} of {}", moved, total);
    assert_eq!(modulo_hash(12345, 0), 0);
    assert_eq!(modulo_hash(0x1_0000_0005, 4), 1);
}

#[test]
fn hash_key_is_the_default_hasher_digest() {
    for key in ["", "cpu", "memory_usage", "héllo"] {
        let mut hasher = std::collections::hash_map::DefaultHasher::new();
        key.hash(&mut hasher);
        assert_eq!(hash_key(key), hasher.finish());
        assert_eq!(hash_key(key), hash_key(key));
    }
    assert_ne!(hash_key("a"), hash_key("b"));
}

#[test]
fn export_and_restore_round_trip() {
    let mut registry = MetricsRegistry::resume(4);
    registry.record_metric("a", 1);
    registry.record_metric_with_timestamp("a", 2, 9);
    registry.record_metric("b", 3);
    let series = registry.export();
    assert_eq!(series.len(), 2);
    let restored = MetricsRegistry::restore(4, series).unwrap();
    assert_eq!(restored.last_applied(), 4);
    assert_eq!(restored.values("a"), registry.values("a"));
    assert_eq!(restored.values("b"), registry.values("b"));
    assert_eq!(restored.get_all_metrics().len(), 2);
}

#[test]
fn restore_refuses_malformed_series() {
    let value = MetricValue { value: 1, _timestamp: 0 };
    let twice = vec![
        MetricSeries { name: "a".to_string(), values: vec![value] },
        MetricSeries { name: "b".to_string(), values: vec![value] },
        MetricSeries { name: "a".to_string(), values: vec![value] },
    ];
    assert!(MetricsRegistry::restore(0, twice).is_none());
    let empty = vec![MetricSeries { name: "a".to_string(), values: vec![] }];
    assert!(MetricsRegistry::restore(0, empty).is_none());
    assert!(MetricsRegistry::restore(0, vec![]).is_some());
}

#[test]
fn all_aggregates_cover_every_metric() {
    let mut registry = MetricsRegistry::new();
    registry.record_metric("a", 2.0f64.to_bits());
    registry.record_metric("a", (-1.0f64).to_bits());
    registry.record_metric("b", 5.0f64.to_bits());
    let mut all = registry.get_all_aggregates();
    all.sort_by(|x, y| x.0.cmp(&y.0));
    assert_eq!(all.len(), 2);
    assert_eq!(all[0].0, "a");
    assert_eq!(all[0].1.count, 2);
    assert_eq!(f64::from_bits(all[0].1.min), -1.0);
    assert_eq!(f64::from_bits(all[0].1.max), 2.0);
    assert_eq!(f64::from_bits(all[0].1.latest), -1.0);
    assert_eq!(all[1].0, "b");
    assert_eq!(Some(all[1].1), registry.get_metric_aggregate("b"));
}

#[test]
fn worker_urls_get_a_scheme() {
    assert_eq!(normalize_worker_url("worker-1:8081"), "http://worker-1:8081");
    assert_eq!(normalize_worker_url("http://worker-1:8081"), "http://worker-1:8081");
    assert_eq!(normalize_worker_url("https://w"), "http://https://w");
    assert_eq!(normalize_worker_url("http:/"), "http://http:/");
    assert_eq!(normalize_worker_url(""), "http://");
}
