//! The archive's tables: what is written reads back, and what is live.

use dendro::db::{CallerRow, Db, PageStats, SegmentMeta, SourceMeta, WalRow};
use dendro::error::{Error, ReadOnly};
use dendro::text_map::TextMap;

fn map(key: &str, value: &str) -> TextMap {
    let mut m = TextMap::new();
    m.insert(key.to_string(), value.to_string());
    m
}

#[test]
fn schema_round_trips_a_source() {
    let mut db = Db::create_in_memory();
    let id = db
        .insert_source(&SourceMeta {
            labels: map("host", "h1"),
            metadata: map("source", "weather"),
            clock_anchor_wall_ns: 1_700_000_000_000_000_000,
        })
        .unwrap();
    let got = db.read_sources();
    assert_eq!(got.len(), 1);
    assert_eq!(got[0].id, id);
    assert_eq!(got[0].meta.labels.get("host").unwrap(), "h1");
    assert_eq!(got[0].meta.metadata.get("source").unwrap(), "weather");
    assert_eq!(got[0].meta.clock_anchor_wall_ns, 1_700_000_000_000_000_000);
    assert!(!got[0].complete, "a fresh source is not complete");
}

#[test]
fn segments_read_back_in_seq_order_not_insertion_order() {
    let mut db = Db::create_in_memory();
    let rid = db
        .insert_source(&SourceMeta {
            labels: TextMap::new(),
            metadata: TextMap::new(),
            clock_anchor_wall_ns: 0,
        })
        .unwrap();
    db.insert_segment(
        rid,
        "cpu_usage",
        1,
        &SegmentMeta {
            rows: 10,
            first_ts: 90,
            last_ts: 99,
        },
        b"seq-one-bytes",
    )
    .unwrap();
    db.insert_segment(
        rid,
        "cpu_usage",
        0,
        &SegmentMeta {
            rows: 5,
            first_ts: 100,
            last_ts: 200,
        },
        b"seq-zero-bytes",
    )
    .unwrap();

    let got = db.read_segments(rid, "cpu_usage");
    assert_eq!(got.len(), 2);
    assert_eq!(
        got[0].seq, 0,
        "seq 0 must come first despite being inserted second"
    );
    assert_eq!(got[0].bytes, b"seq-zero-bytes");
    assert_eq!(got[1].seq, 1);
    assert_eq!(got[1].bytes, b"seq-one-bytes");
}

#[test]
fn total_rows_sums_across_segments() {
    let mut db = Db::create_in_memory();
    let rid = db
        .insert_source(&SourceMeta {
            labels: TextMap::new(),
            metadata: TextMap::new(),
            clock_anchor_wall_ns: 0,
        })
        .unwrap();
    db.insert_segment(
        rid,
        "cpu_usage",
        0,
        &SegmentMeta {
            rows: 3,
            first_ts: 0,
            last_ts: 29,
        },
        b"a",
    )
    .unwrap();
    db.insert_segment(
        rid,
        "cpu_usage",
        1,
        &SegmentMeta {
            rows: 2,
            first_ts: 30,
            last_ts: 49,
        },
        b"b",
    )
    .unwrap();

    assert_eq!(db.total_rows(rid, "cpu_usage").unwrap(), 5);
}

#[test]
fn streams_lists_each_stream_once() {
    let mut db = Db::create_in_memory();
    let rid = db
        .insert_source(&SourceMeta {
            labels: TextMap::new(),
            metadata: TextMap::new(),
            clock_anchor_wall_ns: 0,
        })
        .unwrap();
    let meta = SegmentMeta {
        rows: 1,
        first_ts: 0,
        last_ts: 9,
    };
    db.insert_segment(rid, "cpu_usage", 0, &meta, b"a").unwrap();
    db.insert_segment(rid, "cpu_usage", 1, &meta, b"b").unwrap();
    db.insert_segment(rid, "blockio", 0, &meta, b"c").unwrap();

    assert_eq!(db.streams(rid), vec!["blockio", "cpu_usage"]);
}

#[test]
fn all_streams_includes_a_stream_that_has_never_sealed() {
    let mut db = Db::create_in_memory();
    let rid = db
        .insert_source(&SourceMeta {
            labels: TextMap::new(),
            metadata: TextMap::new(),
            clock_anchor_wall_ns: 0,
        })
        .unwrap();
    db.insert_segment(
        rid,
        "cpu_usage",
        0,
        &SegmentMeta {
            rows: 1,
            first_ts: 0,
            last_ts: 9,
        },
        b"a",
    )
    .unwrap();
    db.insert_wal_rows(rid, &[wal_row("drivehealth", 5)])
        .unwrap();

    assert_eq!(
        db.streams(rid),
        vec!["cpu_usage"],
        "streams() legitimately does not see the WAL-only stream"
    );
    assert_eq!(
        db.all_streams(rid),
        vec!["cpu_usage", "drivehealth"],
        "all_streams() must see it — this is the whole point of the accessor"
    );
}

#[test]
fn an_unbounded_cutoff_evicts_everything_rather_than_nothing() {
    let mut db = Db::create_in_memory();
    let id = db
        .insert_source(&SourceMeta {
            labels: TextMap::new(),
            metadata: TextMap::new(),
            clock_anchor_wall_ns: 0,
        })
        .unwrap();
    db.insert_segment(
        id,
        "s",
        0,
        &SegmentMeta {
            rows: 1,
            first_ts: 10,
            last_ts: 20,
        },
        b"x",
    )
    .unwrap();
    db.insert_wal_rows(
        id,
        &[WalRow {
            stream: "s".to_string(),
            ts: 30,
            wall_offset: 0,
            row: vec![1],
        }],
    )
    .unwrap();

    let evicted = db.evict_before(id, i64::MAX).unwrap();
    assert_eq!(evicted.segments, 1);
    assert_eq!(evicted.wal_rows, 1);
    assert!(db.all_streams(id).is_empty());
}

#[test]
fn timestamps_span_the_whole_signed_range() {
    let mut db = Db::create_in_memory();
    let id = db
        .insert_source(&SourceMeta {
            labels: TextMap::new(),
            metadata: TextMap::new(),
            clock_anchor_wall_ns: i64::MIN,
        })
        .unwrap();

    let extremes = [i64::MIN, -1_000_000_000, 0, 1, i64::MAX];
    for ts in extremes {
        db.insert_wal_rows(
            id,
            &[WalRow {
                stream: "s".to_string(),
                ts,
                wall_offset: 0,
                row: vec![1],
            }],
        )
        .unwrap();
    }

    let back: Vec<i64> = db.live_wal(id, "s").iter().map(|r| r.ts).collect();
    assert_eq!(back, extremes, "every one round-trips, in order");
    assert_eq!(
        db.read_sources()[0].meta.clock_anchor_wall_ns,
        i64::MIN
    );

    db.insert_segment(
        id,
        "s",
        0,
        &SegmentMeta {
            rows: 3,
            first_ts: i64::MIN,
            last_ts: 0,
        },
        b"x",
    )
    .unwrap();
    let live: Vec<i64> = db.live_wal(id, "s").iter().map(|r| r.ts).collect();
    assert_eq!(live, vec![1, i64::MAX]);
}

#[test]
fn a_row_at_timestamp_zero_is_live() {
    let mut db = Db::create_in_memory();
    let id = db
        .insert_source(&SourceMeta {
            labels: TextMap::new(),
            metadata: TextMap::new(),
            clock_anchor_wall_ns: 0,
        })
        .unwrap();
    for ts in [0i64, 1, 2] {
        db.insert_wal_rows(
            id,
            &[WalRow {
                stream: "s".to_string(),
                ts,
                wall_offset: 0,
                row: vec![1],
            }],
        )
        .unwrap();
    }

    let live: Vec<i64> = db.live_wal(id, "s").iter().map(|r| r.ts).collect();
    assert_eq!(live, vec![0, 1, 2], "ts=0 is a timestamp like any other");
    assert_eq!(db.live_wal_span(id, "s").rows, 3);

    db.insert_segment(
        id,
        "s",
        0,
        &SegmentMeta {
            rows: 2,
            first_ts: 0,
            last_ts: 1,
        },
        b"x",
    )
    .unwrap();
    let live: Vec<i64> = db.live_wal(id, "s").iter().map(|r| r.ts).collect();
    assert_eq!(live, vec![2]);
}

#[test]
fn a_read_only_handle_reads_but_will_not_write() {
    let mut db = Db::create_in_memory();
    let id = db
        .insert_source(&SourceMeta {
            labels: map("host", "web-01"),
            metadata: TextMap::new(),
            clock_anchor_wall_ns: 7,
        })
        .unwrap();
    db.insert_segment(
        id,
        "s",
        0,
        &SegmentMeta {
            rows: 2,
            first_ts: 10,
            last_ts: 20,
        },
        b"sealed",
    )
    .unwrap();
    db.insert_wal_rows(
        id,
        &[WalRow {
            stream: "s".to_string(),
            ts: 30,
            wall_offset: 0,
            row: vec![1],
        }],
    )
    .unwrap();

    let pages = db.page_stats();
    let mut db = db.opened_as(true, false, pages);
    let sources = db.read_sources();
    assert_eq!(sources.len(), 1);
    assert_eq!(sources[0].meta.labels.get("host").unwrap(), "web-01");
    assert_eq!(db.all_streams(sources[0].id), vec!["s"]);
    assert_eq!(db.read_segments(sources[0].id, "s").len(), 1);
    assert_eq!(db.live_wal(sources[0].id, "s").len(), 1);

    let err = db
        .insert_wal_rows(
            sources[0].id,
            &[WalRow {
                stream: "s".to_string(),
                ts: 40,
                wall_offset: 0,
                row: vec![1],
            }],
        )
        .expect_err("a read-only handle must refuse a write");
    assert!(
        matches!(err, Error::ReadOnly(ReadOnly::Handle)),
        "got: {err:?}"
    );
    assert!(
        db.evict_before(sources[0].id, 100).is_err(),
        "retention is a write too"
    );
}

#[test]
fn per_stream_eviction_leaves_the_streams_it_was_not_given() {
    let mut db = Db::create_in_memory();
    let id = db
        .insert_source(&SourceMeta {
            labels: TextMap::new(),
            metadata: TextMap::new(),
            clock_anchor_wall_ns: 0,
        })
        .unwrap();
    let sm = |first_ts, last_ts| SegmentMeta {
        rows: 1,
        first_ts,
        last_ts,
    };
    for stream in ["debug/a", "debug/b", "metric/c"] {
        db.insert_segment(id, stream, 0, &sm(0, 9), b"old").unwrap();
        db.insert_segment(id, stream, 1, &sm(100, 109), b"new")
            .unwrap();
    }

    let evicted = db
        .evict_streams_before(id, 50, |s: &str| s.starts_with("debug/"))
        .unwrap();
    assert_eq!(
        evicted.segments, 2,
        "one old segment from each debug stream"
    );

    for stream in ["debug/a", "debug/b"] {
        let got = db.read_segments(id, stream);
        assert_eq!(got.len(), 1, "{stream} keeps only its newer segment");
        assert_eq!(got[0].bytes, b"new");
    }
    assert_eq!(
        db.read_segments(id, "metric/c").len(),
        2,
        "a stream the predicate rejected must be untouched"
    );
}

#[test]
fn per_stream_eviction_takes_the_wal_rows_its_segments_shadowed() {
    let mut db = Db::create_in_memory();
    let id = db
        .insert_source(&SourceMeta {
            labels: TextMap::new(),
            metadata: TextMap::new(),
            clock_anchor_wall_ns: 0,
        })
        .unwrap();
    db.insert_segment(
        id,
        "s",
        0,
        &SegmentMeta {
            rows: 2,
            first_ts: 0,
            last_ts: 20,
        },
        b"sealed",
    )
    .unwrap();
    for ts in [10i64, 20, 30] {
        db.insert_wal_rows(
            id,
            &[WalRow {
                stream: "s".to_string(),
                ts,
                wall_offset: 0,
                row: vec![1],
            }],
        )
        .unwrap();
    }
    assert_eq!(db.live_wal(id, "s").len(), 1, "only ts=30 is live");

    db.evict_streams_before(id, 25, |_: &str| true).unwrap();

    assert!(db.read_segments(id, "s").is_empty());
    let live = db.live_wal(id, "s");
    assert_eq!(
        live.len(),
        1,
        "the shadowed rows went with the segment; only ts=30 remains, \
         and it was live before"
    );
    assert_eq!(live[0].ts, 30);
}

#[test]
fn segment_sizes_are_oldest_first_and_measure_the_payload() {
    let mut db = Db::create_in_memory();
    let id = db
        .insert_source(&SourceMeta {
            labels: TextMap::new(),
            metadata: TextMap::new(),
            clock_anchor_wall_ns: 0,
        })
        .unwrap();
    db.insert_segment(
        id,
        "b",
        0,
        &SegmentMeta {
            rows: 1,
            first_ts: 90,
            last_ts: 99,
        },
        &[0u8; 300],
    )
    .unwrap();
    db.insert_segment(
        id,
        "a",
        0,
        &SegmentMeta {
            rows: 1,
            first_ts: 0,
            last_ts: 9,
        },
        &[0u8; 100],
    )
    .unwrap();

    assert_eq!(db.segment_sizes(id), vec![(9, 100), (99, 300)]);
}

#[test]
fn segments_are_scoped_per_source() {
    let mut db = Db::create_in_memory();
    let meta = |labels: &str| SourceMeta {
        labels: map("host", labels),
        metadata: TextMap::new(),
        clock_anchor_wall_ns: 0,
    };
    let r1 = db.insert_source(&meta("h1")).unwrap();
    let r2 = db.insert_source(&meta("h2")).unwrap();

    let sm = SegmentMeta {
        rows: 1,
        first_ts: 0,
        last_ts: 9,
    };
    db.insert_segment(r1, "cpu_usage", 0, &sm, b"r1-bytes")
        .unwrap();
    db.insert_segment(r2, "cpu_usage", 0, &sm, b"r2-bytes")
        .unwrap();

    let got1 = db.read_segments(r1, "cpu_usage");
    assert_eq!(got1.len(), 1);
    assert_eq!(got1[0].bytes, b"r1-bytes");

    let got2 = db.read_segments(r2, "cpu_usage");
    assert_eq!(got2.len(), 1);
    assert_eq!(got2[0].bytes, b"r2-bytes");

    assert_eq!(db.total_rows(r1, "cpu_usage").unwrap(), 1);
    assert_eq!(db.streams(r1), vec!["cpu_usage"]);
}

fn wal_test_db() -> (Db, i64) {
    let mut db = Db::create_in_memory();
    let rid = db
        .insert_source(&SourceMeta {
            labels: TextMap::new(),
            metadata: TextMap::new(),
            clock_anchor_wall_ns: 0,
        })
        .unwrap();
    (db, rid)
}

fn wal_row(stream: &str, ts: i64) -> WalRow {
    WalRow {
        stream: stream.to_string(),
        ts,
        wall_offset: ts,
        row: format!("row@{ts}").into_bytes(),
    }
}

#[test]
fn live_wal_excludes_rows_already_covered_by_a_sealed_segment() {
    let (mut db, rid) = wal_test_db();
    db.insert_segment(
        rid,
        "cpu_usage",
        0,
        &SegmentMeta {
            rows: 3,
            first_ts: 10,
            last_ts: 30,
        },
        b"sealed-bytes",
    )
    .unwrap();
    db.insert_wal_rows(
        rid,
        &[
            wal_row("cpu_usage", 10),
            wal_row("cpu_usage", 20),
            wal_row("cpu_usage", 30),
            wal_row("cpu_usage", 40),
        ],
    )
    .unwrap();

    let live = db.live_wal(rid, "cpu_usage");
    assert_eq!(live.len(), 1, "only ts=40 is past the sealed watermark");
    assert_eq!(live[0].ts, 40);

    let all = db.read_wal(rid, "cpu_usage");
    assert_eq!(all.len(), 4, "the raw WAL table is untouched by sealing");
}

#[test]
fn live_wal_returns_everything_when_nothing_has_sealed() {
    let (mut db, rid) = wal_test_db();
    db.insert_wal_rows(
        rid,
        &[wal_row("drivehealth", 5), wal_row("drivehealth", 15)],
    )
    .unwrap();

    let live = db.live_wal(rid, "drivehealth");
    assert_eq!(
        live.len(),
        2,
        "no segments sealed yet, so every row is live"
    );
    assert_eq!(live[0].ts, 5);
    assert_eq!(live[1].ts, 15);
}

#[test]
fn live_wal_watermark_is_scoped_to_its_own_stream_and_source() {
    let mut db = Db::create_in_memory();
    let meta = |host: &str| SourceMeta {
        labels: map("host", host),
        metadata: TextMap::new(),
        clock_anchor_wall_ns: 0,
    };
    let r1 = db.insert_source(&meta("h1")).unwrap();
    let r2 = db.insert_source(&meta("h2")).unwrap();

    db.insert_segment(
        r1,
        "cpu_usage",
        0,
        &SegmentMeta {
            rows: 3,
            first_ts: 10,
            last_ts: 30,
        },
        b"r1-cpu_usage-sealed",
    )
    .unwrap();

    db.insert_wal_rows(r1, &[wal_row("cpu_usage", 40), wal_row("blockio", 5)])
        .unwrap();
    db.insert_wal_rows(r2, &[wal_row("cpu_usage", 5)]).unwrap();

    let r1_blockio = db.live_wal(r1, "blockio");
    assert_eq!(
        r1_blockio.len(),
        1,
        "blockio in r1 must not inherit cpu_usage's sealed watermark"
    );
    assert_eq!(r1_blockio[0].ts, 5);

    let r2_cpu_usage = db.live_wal(r2, "cpu_usage");
    assert_eq!(
        r2_cpu_usage.len(),
        1,
        "cpu_usage in r2 must not inherit r1's sealed watermark"
    );
    assert_eq!(r2_cpu_usage[0].ts, 5);

    let r1_cpu_usage = db.live_wal(r1, "cpu_usage");
    assert_eq!(r1_cpu_usage.len(), 1);
    assert_eq!(r1_cpu_usage[0].ts, 40);
}

#[test]
fn segment_span_summarizes_the_catalog_without_reading_a_blob() {
    let (mut db, rid) = wal_test_db();
    db.insert_segment(
        rid,
        "cpu_usage",
        0,
        &SegmentMeta {
            rows: 3,
            first_ts: 10,
            last_ts: 29,
        },
        b"not-parquet",
    )
    .unwrap();
    db.insert_segment(
        rid,
        "cpu_usage",
        1,
        &SegmentMeta {
            rows: 2,
            first_ts: 30,
            last_ts: 49,
        },
        b"not-parquet-either",
    )
    .unwrap();
    db.insert_segment(
        rid,
        "blockio",
        0,
        &SegmentMeta {
            rows: 99,
            first_ts: 0,
            last_ts: 99,
        },
        b"nor-this",
    )
    .unwrap();

    let (segments, span) = db.segment_span(rid, "cpu_usage").unwrap();
    assert_eq!(segments, 2);
    assert_eq!(span.rows, 5, "the SUM of the catalog's row counts");
    assert_eq!((span.first_ts, span.last_ts), (Some(10), Some(49)));

    let (segments, span) = db.segment_span(rid, "drivehealth").unwrap();
    assert_eq!(segments, 0);
    assert_eq!(span.rows, 0);
    assert_eq!((span.first_ts, span.last_ts), (None, None));
}

#[test]
fn live_wal_span_counts_the_same_rows_live_wal_returns() {
    let (mut db, rid) = wal_test_db();
    db.insert_segment(
        rid,
        "cpu_usage",
        0,
        &SegmentMeta {
            rows: 3,
            first_ts: 10,
            last_ts: 30,
        },
        b"not-parquet",
    )
    .unwrap();
    db.insert_wal_rows(
        rid,
        &[
            wal_row("cpu_usage", 10),
            wal_row("cpu_usage", 20),
            wal_row("cpu_usage", 30),
            wal_row("cpu_usage", 40),
            wal_row("cpu_usage", 50),
        ],
    )
    .unwrap();

    let span = db.live_wal_span(rid, "cpu_usage");
    assert_eq!(
        span.rows,
        db.live_wal(rid, "cpu_usage").len() as u64,
        "the depth must agree with the rows the reader will replay"
    );
    assert_eq!(span.rows, 2, "ts=40 and ts=50 are past the watermark");
    assert_eq!((span.first_ts, span.last_ts), (Some(40), Some(50)));

    db.insert_wal_rows(rid, &[wal_row("drivehealth", 5)])
        .unwrap();
    let span = db.live_wal_span(rid, "drivehealth");
    assert_eq!(span.rows, 1);
    assert_eq!((span.first_ts, span.last_ts), (Some(5), Some(5)));
}

#[test]
fn prune_is_idempotent_and_bounded_to_one_stream() {
    let (mut db, rid) = wal_test_db();
    db.insert_wal_rows(
        rid,
        &[
            wal_row("cpu_usage", 10),
            wal_row("cpu_usage", 20),
            wal_row("blockio", 10),
            wal_row("blockio", 20),
        ],
    )
    .unwrap();

    let deleted = db.prune_wal(rid, "cpu_usage", 10).unwrap();
    assert_eq!(deleted, 1, "only cpu_usage's ts<=10 row");

    let deleted_again = db.prune_wal(rid, "cpu_usage", 10).unwrap();
    assert_eq!(deleted_again, 0);

    let blockio = db.read_wal(rid, "blockio");
    assert_eq!(blockio.len(), 2, "blockio untouched by cpu_usage's prune");

    let cpu_usage = db.read_wal(rid, "cpu_usage");
    assert_eq!(cpu_usage.len(), 1, "cpu_usage's ts=10 row is gone");
    assert_eq!(cpu_usage[0].ts, 20);
}

#[test]
fn insert_wal_rows_inserts_every_row_in_the_batch() {
    let (mut db, rid) = wal_test_db();
    let streams: Vec<WalRow> = (0..26)
        .map(|i| wal_row(&format!("stream_{i}"), 100))
        .collect();
    db.insert_wal_rows(rid, &streams).unwrap();

    for i in 0..26 {
        let stream = format!("stream_{i}");
        let rows = db.read_wal(rid, &stream);
        assert_eq!(rows.len(), 1, "{stream} should have its tick's row");
    }
}

#[test]
fn insert_wal_rows_is_one_transaction_for_the_whole_tick() {
    let (mut db, rid) = wal_test_db();
    let err = db
        .insert_wal_rows(
            rid,
            &[
                wal_row("cpu_usage", 10),
                wal_row("blockio", 10),
                wal_row("cpu_usage", 10),
            ],
        )
        .expect_err("a PRIMARY KEY collision must fail the whole call");
    assert!(
        {
            let text = err.to_string().to_lowercase();
            text.contains("unique") || text.contains("constraint")
        },
        "{err:?} should name the PK collision, not some other failure"
    );

    assert_eq!(
        db.read_wal(rid, "cpu_usage").len(),
        0,
        "a failed tick must leave NO rows, not the one that would have committed alone"
    );
    assert_eq!(
        db.read_wal(rid, "blockio").len(),
        0,
        "blockio's collision-free row must also be rolled back"
    );
}

#[test]
fn a_transaction_commits_the_whole_batch_or_none_of_it() {
    let (mut db, rid) = wal_test_db();
    let meta = |first_ts, last_ts| SegmentMeta {
        rows: 1,
        first_ts,
        last_ts,
    };

    db.transaction(|mut tx| {
        let r = tx
            .insert_segment(rid, "cpu_usage", 0, &meta(10, 19), b"cpu-0")
            .and_then(|_| tx.insert_segment(rid, "blockio", 0, &meta(10, 19), b"blk-0"))
            .and_then(|_| tx.insert_wal_rows(rid, &[wal_row("cpu_usage", 20)]));
        (tx, r)
    })
    .unwrap();
    assert_eq!(db.read_segments(rid, "cpu_usage").len(), 1);
    assert_eq!(db.read_segments(rid, "blockio").len(), 1);
    assert_eq!(db.read_wal(rid, "cpu_usage").len(), 1);

    let err = db
        .transaction(|mut tx| {
            let r = tx
                .insert_segment(rid, "cpu_usage", 1, &meta(20, 29), b"cpu-1")
                .and_then(|_| tx.insert_segment(rid, "blockio", 1, &meta(20, 29), b"blk-1"))
                .and_then(|_| tx.insert_segment(rid, "cpu_usage", 1, &meta(20, 29), b"dup"));
            (tx, r)
        })
        .expect_err("a PRIMARY KEY collision must fail the whole batch");
    assert!(
        {
            let text = err.to_string().to_lowercase();
            text.contains("unique") || text.contains("constraint")
        },
        "{err:?} should name the PK collision, not some other failure"
    );
    assert_eq!(
        db.read_segments(rid, "cpu_usage").len(),
        1,
        "seq 1 must be rolled back, leaving only the committed seq 0"
    );
    assert_eq!(
        db.read_segments(rid, "blockio").len(),
        1,
        "blockio's collision-free insert must be rolled back too"
    );
}

#[test]
fn wal_rows_are_scoped_per_source() {
    let mut db = Db::create_in_memory();
    let meta = |host: &str| SourceMeta {
        labels: map("host", host),
        metadata: TextMap::new(),
        clock_anchor_wall_ns: 0,
    };
    let r1 = db.insert_source(&meta("h1")).unwrap();
    let r2 = db.insert_source(&meta("h2")).unwrap();

    db.insert_wal_rows(r1, &[wal_row("cpu_usage", 10)]).unwrap();
    db.insert_wal_rows(r2, &[wal_row("cpu_usage", 20)]).unwrap();

    let got1 = db.read_wal(r1, "cpu_usage");
    assert_eq!(got1.len(), 1);
    assert_eq!(got1[0].ts, 10);

    let got2 = db.read_wal(r2, "cpu_usage");
    assert_eq!(got2.len(), 1);
    assert_eq!(got2[0].ts, 20);

    let live1 = db.live_wal(r1, "cpu_usage");
    assert_eq!(live1.len(), 1);
    assert_eq!(live1[0].ts, 10);
}

/// The size is that of the file: pages that eviction freed stay counted until they
/// are handed back.
#[test]
fn archive_bytes_counts_the_file_including_pages_not_yet_reclaimed() {
    let stats = |pages: u32, free: u32| PageStats { pages, free, page_size: 4096 };
    let mut db = Db::create_in_memory().opened_as(false, false, stats(14, 0));
    let id = db
        .insert_source(&SourceMeta {
            labels: TextMap::new(),
            metadata: TextMap::new(),
            clock_anchor_wall_ns: 0,
        })
        .unwrap();
    let empty = db.archive_bytes();
    for seq in 0..40i64 {
        db.insert_segment(
            id,
            "s",
            seq as u64,
            &SegmentMeta {
                rows: 1,
                first_ts: seq * 10,
                last_ts: seq * 10 + 9,
            },
            &[7u8; 4096],
        )
        .unwrap();
    }
    let mut db = db.opened_as(false, false, stats(94, 0));
    let full = db.archive_bytes();
    assert!(full > empty, "{empty} -> {full}: writing must grow the file");

    assert_eq!(db.evict_before(id, i64::MAX).unwrap().segments, 40);
    assert_eq!(
        db.archive_bytes(),
        full,
        "eviction frees pages for reuse but does not return them - that is \
         what `incremental_vacuum` is for, and a size cap has to know it"
    );
    let mut db = db.opened_as(false, false, stats(94, 80));
    assert_eq!(db.archive_bytes(), full, "free pages are counted");
    db.incremental_vacuum(80).unwrap();
    assert_eq!(db.archive_bytes(), empty);
}

fn retained() -> (Db, i64) {
    let (mut db, id) = wal_test_db();
    for stream in ["a", "b"] {
        db.insert_segment(id, stream, 0, &SegmentMeta { rows: 1, first_ts: 0, last_ts: 9 }, b"old")
            .unwrap();
        db.insert_wal_rows(id, &[wal_row(stream, 5), wal_row(stream, 12), wal_row(stream, 40)])
            .unwrap();
    }
    db.transaction(|mut tx| {
        let r = tx
            .insert_clock_offset(id, 9, 1)
            .and_then(|_| tx.insert_clock_offset(id, 40, 2))
            .and_then(|_| tx.insert_caller_row(id, "only", &CallerRow { ts: 3, blob: vec![1] }))
            .and_then(|_| tx.insert_caller_row(id, "a", &CallerRow { ts: 30, blob: vec![2] }));
        (tx, r)
    })
    .unwrap();
    (db, id)
}

/// A predicate that accepts every stream restricts nothing.
#[test]
fn evicting_every_stream_is_evicting_the_source() {
    let (mut all, id) = retained();
    let (mut each, _) = retained();
    let evicted = all.evict_before(id, 25).unwrap();
    assert_eq!((evicted.segments, evicted.wal_rows, evicted.live_rows), (2, 4, 2));
    assert_eq!(each.evict_streams_before(id, 25, |_: &str| true).unwrap(), evicted);
    for stream in ["a", "b", "only"] {
        assert_eq!(each.read_segments(id, stream), all.read_segments(id, stream));
        assert_eq!(each.read_wal(id, stream), all.read_wal(id, stream));
        assert_eq!(
            each.read_caller_rows(id, stream, i64::MIN, i64::MAX),
            all.read_caller_rows(id, stream, i64::MIN, i64::MAX)
        );
    }
    assert_eq!(each.read_clock_offsets(id), vec![(40, 2)]);
    assert_eq!(all.read_clock_offsets(id), vec![(40, 2)]);
}

/// The clock observations are the source's: they are cut whichever streams go.
#[test]
fn every_retention_cuts_the_clock_observations() {
    let (mut db, id) = retained();
    let evicted = db.evict_streams_before(id, 25, |_: &str| false).unwrap();
    assert_eq!((evicted.segments, evicted.wal_rows, evicted.live_rows), (0, 0, 0));
    assert_eq!(db.read_clock_offsets(id), vec![(40, 2)]);
    assert_eq!(db.read_wal(id, "a").len(), 3);
    assert_eq!(db.read_caller_rows(id, "only", i64::MIN, i64::MAX).len(), 1);
}
