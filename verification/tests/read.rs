//! Reading an archive.

use std::sync::Arc;

use dendro::db::{Db, PageStats, SegmentMeta, SourceMeta, WalRow};
use dendro::error::Error;
use dendro::read::{
    catalog, describe, probe, read_archive, stream_indexes, stream_range, stream_segments,
    SegmentBytes,
};
use dendro::segment::{Segment, SegmentEncoder};
use dendro::text_map::TextMap;

struct Bytes;

impl SegmentEncoder for Bytes {
    fn encode(&self, stream: &str, rows: &[WalRow]) -> Result<Option<Segment>, String> {
        if stream == "quiet" {
            return Ok(None);
        }
        Ok(Some(Segment {
            bytes: rows.iter().flat_map(|r| r.row.clone()).collect(),
            rows: rows.len() as u64,
            first_ts: rows[0].ts,
            last_ts: rows[rows.len() - 1].ts,
            index: Some(vec![9]),
        }))
    }

    fn version(&self) -> Option<&str> {
        Some("bytes/1")
    }
}

fn row(stream: &str, ts: i64) -> WalRow {
    WalRow {
        stream: stream.to_string(),
        ts,
        wall_offset: 0,
        row: vec![ts as u8],
    }
}

/// Two segments and a tail of one stream, and rows of two others.
fn archive() -> (Db, i64) {
    let mut db = Db::create_in_memory();
    let mut labels = TextMap::new();
    labels.insert("host".to_string(), "a".to_string());
    let id = db
        .insert_source(&SourceMeta {
            labels,
            metadata: TextMap::new(),
            clock_anchor_wall_ns: 1,
        })
        .unwrap();
    db.transaction(|mut tx| {
        let one = SegmentMeta { rows: 2, first_ts: 1, last_ts: 2 };
        let two = SegmentMeta { rows: 3, first_ts: 3, last_ts: 9 };
        let r = tx
            .insert_segment(id, "s", 0, &one, b"one")
            .and_then(|_| tx.insert_segment_with_index(id, "s", 1, &two, b"two", &Some(vec![7])));
        (tx, r)
    })
    .unwrap();
    db.insert_wal_rows(id, &[row("s", 9), row("s", 10), row("s", 12), row("t", 4)]).unwrap();
    db.insert_wal_rows(id, &[row("quiet", 4)]).unwrap();
    (db, id)
}

#[test]
fn a_stream_reads_as_its_segments_and_its_tail() {
    let (db, id) = archive();
    assert_eq!(
        stream_segments(&db, id, "s", &Bytes).unwrap(),
        vec![b"one".to_vec(), b"two".to_vec(), vec![10, 12]]
    );
    assert_eq!(stream_segments(&db, id, "t", &Bytes).unwrap(), vec![vec![4]]);
    assert!(stream_segments(&db, id, "quiet", &Bytes).unwrap().is_empty());
    assert!(stream_segments(&db, id, "none", &Bytes).unwrap().is_empty());
    assert_eq!(
        stream_indexes(&db, id, "s", &Bytes).unwrap(),
        vec![None, Some(vec![7]), Some(vec![9])]
    );
}

#[test]
fn a_range_reads_what_overlaps_it() {
    let (db, id) = archive();
    let range = |start, end| stream_range(&db, id, "s", start, end, &Bytes).unwrap();
    assert_eq!(range(2, 2), vec![b"one".to_vec()]);
    assert_eq!(range(4, 5), vec![b"two".to_vec()]);
    assert_eq!(range(9, 11), vec![b"two".to_vec(), vec![10]]);
    assert_eq!(range(13, 20), Vec::<Vec<u8>>::new());
}

#[test]
fn a_probe_gives_one_segment() {
    let (db, id) = archive();
    assert!(probe(&db, id, "s", &Bytes).unwrap().is_some());
    assert_eq!(probe(&db, id, "t", &Bytes).unwrap(), Some(vec![4]));
    assert_eq!(probe(&db, id, "none", &Bytes).unwrap(), None);
}

#[test]
fn a_catalog_counts_sealed_and_live() {
    let (db, id) = archive();
    let listed = catalog(&db).unwrap();
    assert_eq!(listed.len(), 1);
    assert_eq!(listed[0].id, id);
    assert_eq!(listed[0].labels.get("host").unwrap(), "a");
    assert_eq!(listed[0].span(), Some((1, 12)));
    let s = listed[0].streams.iter().find(|s| s.name == "s").unwrap();
    assert_eq!((s.segments, s.sealed.rows, s.live.rows), (2, 5, 2));
    assert_eq!(s.rows(), 7);
    assert_eq!(s.span(), Some((1, 12)));
}

#[test]
fn an_overview_adds_up() {
    let (db, _) = archive();
    let stats = PageStats { pages: 10, free: 3, page_size: 4096 };
    let o = describe(&db.opened_as(false, false, stats)).unwrap();
    assert_eq!((o.bytes, o.free_bytes()), (40_960, 12_288));
    assert_eq!((o.segments(), o.rows()), (2, 9));
    assert_eq!(o.span(), Some((1, 12)));
}

#[test]
fn an_archive_reads_whole() {
    let (db, _) = archive();
    let all = read_archive(&db, &Bytes).unwrap();
    assert_eq!(all.len(), 1);
    let s = all[0].streams.iter().find(|(name, _)| name == "s").unwrap();
    assert_eq!(s.1.len(), 3);
    assert!(!all[0].complete);
}

#[test]
fn a_source_of_another_encoder_is_not_read() {
    let (mut db, id) = archive();
    let mut patch = TextMap::new();
    patch.insert("encoder".to_string(), "bytes/0".to_string());
    db.patch_source_metadata(id, &patch).unwrap();
    assert!(matches!(
        stream_segments(&db, id, "s", &Bytes),
        Err(Error::EncoderMismatch { .. })
    ));
    assert!(matches!(read_archive(&db, &Bytes), Err(Error::EncoderMismatch { .. })));
}

#[test]
fn bytes_are_had_from_memory_a_handle_or_a_path() {
    let never = |_: &str| -> Result<Db, Error> { Err(Error::Message("opened".to_string())) };
    let held = SegmentBytes::Bytes(vec![vec![1]]);
    assert_eq!(held.all(&Bytes, never).unwrap(), vec![vec![1]]);

    let (db, id) = archive();
    let shared = SegmentBytes::shared(Arc::new(db), id, "t".to_string());
    assert_eq!(shared.all(&Bytes, never).unwrap(), vec![vec![4]]);

    let (db, id) = archive();
    let there = SegmentBytes::at_path("a.dendro".to_string(), id, "t".to_string());
    let opened = there.all(&Bytes, |path: &str| {
        assert_eq!(path, "a.dendro");
        Ok(db)
    });
    assert_eq!(opened.unwrap(), vec![vec![4]]);
    assert!(there.all(&Bytes, never).is_err());
}
