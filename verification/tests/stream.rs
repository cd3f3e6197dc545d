//! Streams: sizing, sources, offsets and epochs.
use blitz::meta::client::{MetaClient, PutResult};
use blitz::stream::epoch::{check_open, run_epoch, run_until_caught_up, Epoch};
use blitz::stream::offsets::{MemoryOffsetStore, MetaOffsetStore, OffsetStore};
use blitz::stream::sizer::{size_workers, SizerConfig};
use blitz::stream::source::{InMemorySource, Record, StreamSource, WorkUnit};

#[test]
fn scales_with_lag() {
    let cfg = SizerConfig {
        records_per_worker: 100,
        max_workers: 8,
        min_workers: 1,
        max_records_per_unit: 50,
    };
    assert_eq!(size_workers(0, &cfg), 0);
    assert_eq!(size_workers(50, &cfg), 1);
    assert_eq!(size_workers(250, &cfg), 3);
    assert_eq!(size_workers(10_000, &cfg), 8);
}

#[test]
fn default_sizes() {
    let cfg = SizerConfig::default();
    assert_eq!(cfg.records_per_worker, 10_000);
    assert_eq!(size_workers(10_001, &cfg), 2);
    assert_eq!(size_workers(10_000_000, &cfg), 64);
}

#[test]
fn no_records_per_worker_counts_as_one() {
    let cfg = SizerConfig {
        records_per_worker: 0,
        max_workers: 5,
        min_workers: 2,
        max_records_per_unit: 1,
    };
    assert_eq!(size_workers(1, &cfg), 2);
    assert_eq!(size_workers(4, &cfg), 4);
    assert_eq!(size_workers(9, &cfg), 5);
}

fn filled(n: u64) -> InMemorySource {
    let mut src = InMemorySource::new(4);
    for i in 0..n {
        src.push(
            (i % 4) as u32,
            Record {
                offset: 0, // assigned by push
                key: i,
                value: i * 10,
            },
        );
    }
    src
}

fn small_sizer() -> SizerConfig {
    SizerConfig {
        records_per_worker: 100,
        max_workers: 8,
        min_workers: 1,
        max_records_per_unit: 50,
    }
}

#[test]
fn epoch_drains_and_commits_offsets() {
    let src = filled(1000);
    let mut offsets = MemoryOffsetStore::new();
    let sizer = small_sizer();
    let process = |u: &WorkUnit| u.records.len() as u64;
    let reports =
        run_until_caught_up(&src, &mut offsets, "demo", &sizer, 1, 20, &process).unwrap();
    assert!(reports.len() >= 1);
    let total: u64 = reports.iter().map(|r| r.records_processed).sum();
    assert_eq!(total, 1000);
    for p in 0..4u32 {
        assert_eq!(offsets.get("demo", p).unwrap(), src.high_watermark(p));
    }
}

#[test]
fn second_epoch_finds_nothing() {
    let src = filled(1000);
    let mut offsets = MemoryOffsetStore::default();
    let process = |u: &WorkUnit| u.records.len() as u64;
    let reports =
        run_until_caught_up(&src, &mut offsets, "demo", &small_sizer(), 1, 20, &process).unwrap();
    assert_eq!(reports.len(), 2);
    assert_eq!(reports[0].lag_before, 1000);
    assert_eq!(reports[0].workers, 8);
    assert_eq!(reports[0].units_total, 20);
    assert_eq!(reports[1].units_total, 0);
    assert_eq!(reports[1].workers, 1);
    assert_eq!(
        reports[1].offsets_committed,
        vec![(0, 250), (1, 250), (2, 250), (3, 250)]
    );
}

#[test]
fn epochs_resume_from_what_was_committed() {
    let mut src = filled(600);
    let mut offsets = MemoryOffsetStore::new();
    let process = |u: &WorkUnit| u.records.len() as u64;
    let first = run_epoch(1, &src, &mut offsets, "s", &small_sizer(), 1, &process).unwrap();
    assert_eq!(first.records_processed, 600);
    src.push_batch(2, &vec![7, 8]);
    let next = run_epoch(2, &src, &mut offsets, "s", &small_sizer(), 1, &process).unwrap();
    assert_eq!(next.lag_before, 2);
    assert_eq!(next.records_processed, 2);
    assert_eq!(offsets.get("s", 2), Some(152));
    assert_eq!(offsets.get("other", 2), None);
}

#[test]
fn units_cover_what_is_behind() {
    let src = filled(440);
    let units = src.plan_work(&vec![100, 110, 0, 200], 50);
    let spans: Vec<(u32, u64, u64)> = units
        .iter()
        .map(|u| (u.partition, u.start_offset, u.end_offset))
        .collect();
    assert_eq!(
        spans,
        vec![(0, 100, 110), (2, 0, 50), (2, 50, 100), (2, 100, 110)]
    );
    assert_eq!(units[0].records[0].offset, 100);
    assert_eq!(units[0].records.len(), 10);
}

#[test]
fn batches_are_pushed_with_offsets() {
    let mut src = InMemorySource::new(1);
    src.push_batch(0, &vec![5, 6]);
    let units = src.plan_work(&vec![0], 10);
    assert_eq!(
        units[0].records,
        vec![
            Record { offset: 0, key: 5, value: 15 },
            Record { offset: 1, key: 6, value: 19 },
        ]
    );
    assert_eq!(src.partition_count(), 1);
}

#[test]
fn any_order_of_units_drains() {
    let src = filled(400);
    let committed = vec![0, 0, 0, 0];
    let mut e = Epoch::open(9, &src, &committed, &small_sizer(), 2);
    assert_eq!(e.workers, 4);
    let mut units = Vec::new();
    while let Some(u) = e.take() {
        units.push(u);
    }
    units.rotate_left(3);
    for u in &units {
        e.finish(u, u.records.len() as u64);
    }
    assert_eq!(e.records, 400);
    assert_eq!(e.progress, vec![100, 100, 100, 100]);
    assert_eq!(e.due(0, 99), Some(100));
    assert_eq!(e.due(0, 100), None);
}

#[test]
fn durable_offsets_go_through_the_quorum() {
    let s = MetaOffsetStore::new("127.0.0.1:7401");
    let c = MetaClient::new("x");
    assert_eq!(
        s.get("orders", 3),
        c.get("stream.orders.partition.3.offset")
    );
    assert_eq!(
        s.put("orders", 3, 42),
        c.put("stream.orders.partition.3.offset", "42")
    );
    let mut reply = vec![1u8];
    reply.extend_from_slice(&2u32.to_le_bytes());
    reply.extend_from_slice(b"42");
    assert_eq!(MetaOffsetStore::got(&reply), Some(42));
    assert_eq!(MetaOffsetStore::got(&[0]), None);
    assert!(MetaOffsetStore::stored(PutResult::Committed(4)).is_ok());
    assert_eq!(
        MetaOffsetStore::stored(PutResult::Fenced).unwrap_err(),
        "offset commit failed: Fenced"
    );
}

#[test]
fn the_largest_backlog_is_sized() {
    let cfg = SizerConfig {
        records_per_worker: 1 << 60,
        max_workers: 64,
        min_workers: 1,
        max_records_per_unit: 1,
    };
    assert_eq!(size_workers(u64::MAX, &cfg), 16);
    assert_eq!(size_workers(1 << 60, &cfg), 1);
    assert_eq!(size_workers((1 << 60) + 1, &cfg), 2);
    let all = SizerConfig { records_per_worker: u64::MAX, ..cfg };
    assert_eq!(size_workers(u64::MAX, &all), 1);
}

#[test]
fn epochs_are_tested_before_they_open() {
    let src = filled(10);
    let sizer = small_sizer();
    assert!(check_open(&src, &vec![0, 0, 0, 0], &sizer));
    let none = SizerConfig { min_workers: 9, max_workers: 8, ..small_sizer() };
    assert!(!check_open(&src, &vec![0, 0, 0, 0], &none));
    assert!(check_open(&src, &vec![3, 3, 3, 3], &none));
}
