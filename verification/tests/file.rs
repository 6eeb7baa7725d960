//! The archive's file, and the columns of its tables.

use dendro::db::columns::{metadata_column, read_source, source_columns};
use dendro::db::file::{
    adopt_schema, autocheckpoint_pages, check_catalog, check_journal_mode, memory_image,
    setting_as_count, sidecar, LEGACY_SCHEMA_VERSION, READER_CACHE_SIZE_KIB, SCHEMA_VERSION,
    WAL_AUTOCHECKPOINT_BYTES, WRITER_CACHE_SIZE_KIB,
};
use dendro::db::{Db, PageStats, SegmentMeta, SourceMeta, WalRow, PAGE_SIZE};
use dendro::error::Error;
use dendro::text_map::TextMap;

fn header(format: [u8; 2]) -> Vec<u8> {
    let mut image = b"SQLite format 3\0".to_vec();
    image.extend([0x10, 0x00]);
    image.extend(format);
    image.resize(200, 7);
    image
}

#[test]
fn an_image_loses_its_journal_and_nothing_else() {
    let wal = header([2, 2]);
    let image = memory_image(wal.clone()).unwrap();
    assert_eq!(&image[18..20], &[1, 1]);
    assert_eq!(&image[..18], &wal[..18]);
    assert_eq!(&image[20..], &wal[20..]);

    // One that is not in WAL mode is left as it is.
    let plain = header([1, 1]);
    assert_eq!(memory_image(plain.clone()).unwrap(), plain);
}

#[test]
fn what_is_no_image_is_refused() {
    for bytes in [Vec::new(), b"PAR1".to_vec(), b"SQLite format 3\0".to_vec()] {
        assert!(matches!(memory_image(bytes), Err(Error::Message(_))));
    }
}

#[test]
fn a_file_without_the_catalog_is_refused() {
    let e = check_catalog(0).unwrap_err().to_string();
    assert!(e.contains("not a dendro archive"), "{e}");
    assert!(check_catalog(1).is_ok());
}

#[test]
fn only_two_schema_versions_are_read() {
    assert!(!adopt_schema(SCHEMA_VERSION).unwrap());
    assert!(adopt_schema(LEGACY_SCHEMA_VERSION).unwrap());
    for version in [0, 2, 5, -1] {
        match adopt_schema(version) {
            Err(Error::UnsupportedSchema { found, writes, reads }) => {
                assert_eq!((found, writes, reads), (version, 4, 3));
            }
            other => panic!("version {version}: {other:?}"),
        }
    }
}

/// The journal's cap is bytes, so the page count follows the page size.
#[test]
fn the_journal_cap_is_in_bytes() {
    assert_eq!(WAL_AUTOCHECKPOINT_BYTES, 4 << 20);
    assert_eq!(autocheckpoint_pages(PAGE_SIZE), 1024);
    assert_eq!(autocheckpoint_pages(65_536), 64);
    assert_eq!(autocheckpoint_pages(512), 8192);
    assert_eq!(autocheckpoint_pages(8 << 20), 0);
    assert_eq!(autocheckpoint_pages(0), 4 << 20);
}

#[test]
fn a_writer_has_the_smaller_cache() {
    // Negative is KiB: 256 MiB and 16 MiB.
    assert_eq!(READER_CACHE_SIZE_KIB, -256 * 1024);
    assert_eq!(WRITER_CACHE_SIZE_KIB, -16 * 1024);
    assert!(WRITER_CACHE_SIZE_KIB > READER_CACHE_SIZE_KIB);
}

#[test]
fn a_setting_is_a_count() {
    assert_eq!(setting_as_count("page_count", 17).unwrap(), 17);
    assert_eq!(setting_as_count("page_count", u32::MAX as i64).unwrap(), u32::MAX);
    for value in [-1, u32::MAX as i64 + 1] {
        let e = setting_as_count("page_count", value).unwrap_err().to_string();
        assert!(e.contains("page_count") && e.contains(&value.to_string()), "{e}");
    }
}

#[test]
fn another_journal_mode_is_refused() {
    assert!(check_journal_mode("wal").is_ok());
    let e = check_journal_mode("delete").unwrap_err().to_string();
    assert!(e.contains("delete"), "{e}");
}

#[test]
fn a_sidecar_stands_beside_its_archive() {
    assert_eq!(sidecar("/data/host.dendro", "-wal"), "/data/host.dendro-wal");
    assert_eq!(sidecar("a", ""), "a");
}

fn map(entries: &[(&str, &str)]) -> TextMap {
    let mut m = TextMap::new();
    for (k, v) in entries {
        m.insert(k.to_string(), v.to_string());
    }
    m
}

/// The columns are JSON, with keys in order and what needs escaping escaped.
#[test]
fn a_source_is_written_and_read_back() {
    let meta = SourceMeta {
        labels: map(&[("zone", "b"), ("host", "web \"01\"")]),
        metadata: map(&[]),
        clock_anchor_wall_ns: -3,
    };
    let (labels, metadata) = source_columns(&meta).unwrap();
    assert_eq!(labels, r#"{"host":"web \"01\"","zone":"b"}"#);
    assert_eq!(metadata, "{}");
    assert_eq!(metadata_column(&meta.metadata).unwrap(), "{}");

    let row = read_source(7, Some("u".to_string()), &labels, &metadata, 1, -3).unwrap();
    assert_eq!(row.id, 7);
    assert_eq!(row.uuid.as_deref(), Some("u"));
    assert!(row.complete);
    assert_eq!(row.meta, meta);
    assert!(!read_source(7, None, "{}", "{}", 0, 0).unwrap().complete);
}

#[test]
fn a_column_that_is_no_map_of_texts_is_an_error() {
    for (labels, metadata) in [("[]", "{}"), ("{}", "{\"a\":1}"), ("", "{}"), ("{}", "nope")] {
        assert!(read_source(1, None, labels, metadata, 0, 0).is_err());
    }
}

#[test]
fn a_map_reads_in_key_order_and_takes_the_last_value() {
    let mut m = map(&[("b", "2"), ("a", "1"), ("c", "3")]);
    m.insert("b".to_string(), "4".to_string());
    m.merge(&map(&[("c", "5"), ("d", "6")]));
    let read: Vec<(&str, &str)> = m
        .entries()
        .iter()
        .map(|(k, v)| (k.as_str(), v.as_str()))
        .collect();
    assert_eq!(read, vec![("a", "1"), ("b", "4"), ("c", "5"), ("d", "6")]);
    assert_eq!(m.get("d").unwrap(), "6");
    assert!(m.get("e").is_none());
}

fn seed() -> SourceMeta {
    SourceMeta {
        labels: map(&[("host", "a")]),
        metadata: TextMap::new(),
        clock_anchor_wall_ns: 0,
    }
}

fn row(stream: &str, ts: i64) -> WalRow {
    WalRow {
        stream: stream.to_string(),
        ts,
        wall_offset: 0,
        row: vec![ts as u8],
    }
}

/// What a snapshot loads is what its reads give, whatever order it came in.
#[test]
fn a_loaded_snapshot_reads_in_order() {
    let mut written = Db::create_in_memory();
    let id = written.insert_source(&seed()).unwrap();
    written
        .insert_segment(id, "s", 0, &SegmentMeta { rows: 2, first_ts: 1, last_ts: 2 }, b"x")
        .unwrap();

    let mut db = Db::create_in_memory();
    assert!(db.load_source(written.read_source(id).unwrap()));
    assert!(!db.load_source(written.read_source(id).unwrap()), "twice");
    for segment in written.read_segments(id, "s") {
        assert!(db.load_segment(id, "s".to_string(), segment));
    }
    for ts in [9, 2, 5] {
        assert!(db.load_wal(id, row("s", ts)));
    }
    assert!(!db.load_wal(id, row("s", 5)), "a key stands once");
    assert!(db.load_clock_offset(id, 2, 40));
    let stats = PageStats { pages: 30, free: 4, page_size: 4096 };
    let db = db.opened_as(true, false, stats);

    let ts: Vec<i64> = db.read_wal(id, "s").iter().map(|r| r.ts).collect();
    assert_eq!(ts, vec![2, 5, 9]);
    let live: Vec<i64> = db.live_wal(id, "s").iter().map(|r| r.ts).collect();
    assert_eq!(live, vec![5, 9]);
    assert_eq!(db.read_clock_offsets(id), vec![(2, 40)]);
    assert_eq!(db.page_stats(), stats);
    assert_eq!(db.archive_bytes(), 30 * 4096);
    assert!(matches!(db.writable(), Err(Error::ReadOnly(_))));
}

#[test]
fn a_missing_source_is_a_constraint_error() {
    let mut db = Db::create_in_memory();
    let e = db.insert_wal_rows(9, &[row("s", 1)]).unwrap_err();
    assert!(e.is_constraint() && !e.is_retryable(), "{e:?}");
    let e = db
        .insert_segment(9, "s", 0, &SegmentMeta { rows: 1, first_ts: 1, last_ts: 1 }, b"x")
        .unwrap_err();
    assert!(e.is_constraint(), "{e:?}");
}

#[test]
fn a_prune_twice_is_a_prune_once() {
    let mut db = Db::create_in_memory();
    let id = db.insert_source(&seed()).unwrap();
    let other = db.insert_source(&seed()).unwrap();
    for source in [id, other] {
        db.insert_wal_rows(source, &[row("a", 1), row("a", 2), row("a", 3), row("b", 1)])
            .unwrap();
    }
    assert_eq!(db.prune_wal(id, "a", 2).unwrap(), 2);
    assert_eq!(db.prune_wal(id, "a", 2).unwrap(), 0);
    assert_eq!(db.read_wal(id, "a").len(), 1);
    assert_eq!(db.read_wal(id, "b").len(), 1);
    assert_eq!(db.read_wal(other, "a").len(), 3);
}
