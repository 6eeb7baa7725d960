//! Replication: from one archive, through bytes, into another.

use dendro::db::{CallerRow, Db, SegmentMeta, SourceMeta, WalRow};
use dendro::replicate::little_endian::{
    bytes_of_i64, bytes_of_u16, bytes_of_u32, bytes_of_u64, signed_of, u16_of, u32_of, u64_of,
};
use dendro::replicate::publisher::fold_index_state;
use dendro::replicate::wire::{encode, encode_frame, write_preamble, FrameReader, LENGTH_PREFIX_BYTES};
use dendro::replicate::{
    ArchivePublisher, Frame, IndexKind, Replica, Step, Subscriber, NO_INDEX_STATE,
};
use dendro::segment::{Segment, SegmentEncoder};
use dendro::text_map::TextMap;

fn map(entries: &[(&str, &str)]) -> TextMap {
    let mut m = TextMap::new();
    for (k, v) in entries {
        m.insert(k.to_string(), v.to_string());
    }
    m
}

fn seed() -> SourceMeta {
    SourceMeta {
        labels: map(&[("host", "a")]),
        metadata: map(&[("k", "v")]),
        clock_anchor_wall_ns: 5,
    }
}

fn row(stream: &str, ts: i64) -> WalRow {
    WalRow {
        stream: stream.to_string(),
        ts,
        wall_offset: ts * 2,
        row: vec![ts as u8],
    }
}

fn meta(first_ts: i64, last_ts: i64) -> SegmentMeta {
    SegmentMeta { rows: 2, first_ts, last_ts }
}

/// Segments, a tail, observations and an index.
fn archive() -> (Db, i64) {
    let mut db = Db::create_in_memory();
    let id = db.insert_source(&seed()).unwrap();
    db.transaction(|mut tx| {
        let r = tx
            .insert_segment(id, "s", 0, &meta(1, 2), b"one")
            .and_then(|_| {
                tx.insert_segment_with_index(id, "s", 4, &meta(3, 4), b"two", &Some(vec![8]))
            })
            .and_then(|_| tx.insert_clock_offset(id, 2, 20))
            .and_then(|_| tx.insert_clock_offset(id, 4, 40))
            .and_then(|_| tx.insert_caller_row(id, "s", &CallerRow { ts: 1, blob: vec![1] }))
            .and_then(|_| tx.insert_caller_row(id, "s", &CallerRow { ts: 3, blob: vec![2] }));
        (tx, r)
    })
    .unwrap();
    db.insert_wal_rows(id, &[row("s", 4), row("s", 5), row("t", 1)]).unwrap();
    (db, id)
}

/// Through bytes and back.
fn carried(frames: &[Frame]) -> Vec<Frame> {
    let mut bytes = Vec::new();
    write_preamble(&mut bytes).unwrap();
    for f in frames {
        encode_frame(f, &mut bytes).unwrap();
    }
    let mut reader = FrameReader::new(bytes).unwrap();
    let mut out = Vec::new();
    while let Some(f) = reader.next_frame().unwrap() {
        out.push(f);
    }
    assert_eq!(reader.skipped(), 0);
    out
}

#[test]
fn a_replica_reads_the_same() {
    let (db, id) = archive();
    let (mut publisher, opening) = ArchivePublisher::catching_up(&db, i64::MIN).unwrap();
    assert_eq!(publisher.ordinals(), vec![(0, id)]);
    let polled = publisher.next(&db).unwrap();
    assert!(matches!(polled.last(), Some(Frame::Rows { .. })), "{polled:?}");

    let mut replica = Replica::new(Db::create_in_memory(), "fresh".to_string());
    let opened = replica.apply_all(carried(&opening)).unwrap();
    assert_eq!((opened.sources, opened.segments, opened.segments_held), (1, 2, 0));
    let applied = replica.apply_all(carried(&polled)).unwrap();
    assert_eq!((applied.rows, applied.rows_skipped, applied.gap), (2, 0, false));

    let copy = replica.source_id(0).unwrap();
    let to = replica.archive();
    assert_eq!(to.read_source(copy).unwrap().meta, seed());
    let segments = to.read_segments(copy, "s");
    assert_eq!(segments.len(), 2);
    for (n, s) in db.read_segments(id, "s").iter().enumerate() {
        assert_eq!(segments[n].seq, n as u64);
        assert_eq!(segments[n].bytes, s.bytes);
        assert_eq!(segments[n].caller_index, s.caller_index);
    }
    assert_eq!(to.live_wal(copy, "s"), db.live_wal(id, "s"));
    assert_eq!(to.live_wal(copy, "t"), db.live_wal(id, "t"));
    assert_eq!(to.read_clock_offsets(copy), vec![(2, 20), (4, 40)]);
    assert_eq!(
        to.read_caller_rows(copy, "s", i64::MIN, i64::MAX),
        db.read_caller_rows(id, "s", i64::MIN, i64::MAX)
    );
    // The publisher's source was not finalized, so neither is the copy.
    let (to, outcome) = replica.finish();
    outcome.unwrap();
    assert!(!to.read_source(copy).unwrap().complete);
}

#[test]
fn a_quiet_poll_is_a_keepalive() {
    let (db, _) = archive();
    let (mut publisher, _) = ArchivePublisher::tailing(&db).unwrap();
    publisher.next(&db).unwrap();
    let quiet = publisher.next(&db).unwrap();
    match &quiet[..] {
        [Frame::Rows { source: 0, rows, .. }] => assert!(rows.is_empty()),
        other => panic!("{other:?}"),
    }
}

#[test]
fn a_poll_ships_what_came_since() {
    let (mut db, id) = archive();
    let (mut publisher, _) = ArchivePublisher::tailing(&db).unwrap();
    publisher.next(&db).unwrap();
    db.insert_wal_rows(id, &[row("s", 6), row("t", 2)]).unwrap();
    let polled = publisher.next(&db).unwrap();
    match polled.last() {
        Some(Frame::Rows { rows, .. }) => {
            let ts: Vec<(&str, i64)> = rows.iter().map(|r| (r.stream.as_str(), r.ts)).collect();
            assert_eq!(ts, vec![("t", 2), ("s", 6)]);
        }
        other => panic!("{other:?}"),
    }
}

/// Only the first entry of a source's index is the whole set.
#[test]
fn an_index_is_declared_once_and_then_changed() {
    let (db, _) = archive();
    let (_, opening) = ArchivePublisher::catching_up(&db, i64::MIN).unwrap();
    let entries: Vec<(i64, IndexKind, (u64, u64))> = opening
        .iter()
        .filter_map(|f| match f {
            Frame::Index { ts, kind, state, .. } => Some((*ts, *kind, *state)),
            _ => None,
        })
        .collect();
    assert_eq!(entries.len(), 2);
    assert_eq!((entries[0].0, entries[0].1), (1, IndexKind::Full));
    assert_eq!((entries[1].0, entries[1].1), (3, IndexKind::Delta));
    let first = fold_index_state(NO_INDEX_STATE, 1, &[1]);
    assert_eq!(entries[0].2, first);
    assert_eq!(entries[1].2, fold_index_state(first, 3, &[2]));
    assert_ne!(first, NO_INDEX_STATE);
}

fn handshake(complete: bool) -> Frame {
    Frame::Handshake {
        source: 0,
        uuid: Some("u".to_string()),
        labels: map(&[("host", "a")]),
        metadata: TextMap::new(),
        clock_anchor_wall_ns: 1,
        complete,
    }
}

fn rows(seq: u64, index_state: (u64, u64), rows: Vec<WalRow>) -> Frame {
    Frame::Rows { source: 0, seq, index_state, rows }
}

fn index(kind: IndexKind, state: (u64, u64), ts: i64) -> Frame {
    Frame::Index {
        source: 0,
        stream: "s".to_string(),
        ts,
        kind,
        state,
        blob: vec![1],
    }
}

#[test]
fn rows_of_an_index_that_was_missed_are_skipped() {
    let mut replica = Replica::new(Db::create_in_memory(), "fresh".to_string());
    replica.apply(handshake(false)).unwrap();
    // Before the whole index is known.
    let a = replica.apply(rows(0, (1, 1), vec![row("s", 1)])).unwrap();
    assert_eq!((a.rows, a.rows_skipped), (0, 1));
    let a = replica.apply(index(IndexKind::Delta, (1, 1), 1)).unwrap();
    assert_eq!(a.index_entries, 1);
    assert_eq!(replica.apply(rows(1, (1, 1), vec![row("s", 1)])).unwrap().rows_skipped, 1);
    replica.apply(index(IndexKind::Full, (2, 2), 2)).unwrap();
    assert_eq!(replica.apply(rows(2, (2, 2), vec![row("s", 1)])).unwrap().rows, 1);
    // Under another state than the one accumulated.
    assert_eq!(replica.apply(rows(3, (3, 3), vec![row("s", 2)])).unwrap().rows_skipped, 1);
}

#[test]
fn a_lost_frame_is_a_gap() {
    let mut replica = Replica::new(Db::create_in_memory(), "fresh".to_string());
    replica.apply(handshake(false)).unwrap();
    assert!(!replica.apply(rows(4, NO_INDEX_STATE, vec![])).unwrap().gap);
    assert!(!replica.apply(rows(5, NO_INDEX_STATE, vec![])).unwrap().gap);
    let a = replica.apply(rows(7, NO_INDEX_STATE, vec![row("s", 1)])).unwrap();
    assert!(a.gap);
    assert_eq!(a.rows, 1, "what arrived is still good");
    assert!(!replica.apply(rows(8, NO_INDEX_STATE, vec![])).unwrap().gap);
}

#[test]
fn a_segment_that_is_held_is_not_adopted_again() {
    let segment = |first_ts: i64, last_ts: i64| Frame::Segment {
        source: 0,
        stream: "s".to_string(),
        meta: meta(first_ts, last_ts),
        bytes: vec![1],
        caller_index: None,
    };
    let mut replica = Replica::new(Db::create_in_memory(), "fresh".to_string());
    replica.apply(handshake(true)).unwrap();
    assert_eq!(replica.apply(segment(1, 2)).unwrap().segments, 1);
    let again = replica.apply(segment(1, 2)).unwrap();
    assert_eq!((again.segments, again.segments_held), (0, 1));
    assert_eq!(replica.apply(segment(3, 4)).unwrap().segments, 1);
    let a = replica
        .apply(Frame::ClockOffset { source: 0, ts: 4, offset_ns: 44 })
        .unwrap();
    assert_eq!(a.clock_offsets, 1);
    let a = replica
        .apply(Frame::StreamSummary {
            source: 0,
            stream: "s".to_string(),
            as_of_ts: 4,
            blob: vec![3],
        })
        .unwrap();
    assert_eq!(a.stream_summaries, 1);
    assert_eq!(replica.summaries()[0].blob, vec![3]);

    // The publisher's source was finalized, so the copy is.
    let id = replica.source_id(0).unwrap();
    let (db, outcome) = replica.finish();
    outcome.unwrap();
    assert!(db.read_source(id).unwrap().complete);
    assert_eq!(db.read_clock_offsets(id).last(), Some(&(4, 44)));
    assert_eq!(db.read_segments(id, "s").len(), 2);
}

#[test]
fn a_batch_sums_what_each_frame_did() {
    let mut replica = Replica::new(Db::create_in_memory(), "fresh".to_string());
    let total = replica
        .apply_all(vec![
            handshake(false),
            rows(0, NO_INDEX_STATE, vec![row("s", 1), row("s", 2)]),
            rows(2, NO_INDEX_STATE, vec![row("s", 3)]),
            index(IndexKind::Full, (1, 1), 3),
            rows(3, (9, 9), vec![row("s", 4)]),
        ])
        .unwrap();
    assert_eq!((total.sources, total.rows, total.rows_skipped), (1, 3, 1));
    assert_eq!((total.index_entries, total.gap), (1, true));
}

#[test]
fn a_frame_for_a_source_nobody_introduced_is_refused() {
    let mut subscriber = Subscriber::new();
    let e = subscriber.apply(rows(0, NO_INDEX_STATE, vec![])).unwrap_err().to_string();
    assert!(e.contains("replication frame for source 0"), "{e}");
    match subscriber.apply(handshake(true)).unwrap() {
        Step::Open { ordinal, seed, uuid, complete } => {
            assert_eq!((ordinal, uuid.as_deref(), complete), (0, Some("u"), true));
            assert_eq!(seed.clock_anchor_wall_ns, 1);
        }
        other => panic!("{other:?}"),
    }
    assert_eq!(subscriber.opened(0, 7, true).sources, 1);
    assert_eq!(subscriber.source_id(0).unwrap(), 7);
    match subscriber.apply(rows(0, NO_INDEX_STATE, vec![row("s", 1)])).unwrap() {
        Step::Write { source_id, rows, applied } => {
            assert_eq!((source_id, rows.len(), applied.rows), (7, 1, 1));
        }
        other => panic!("{other:?}"),
    }
    subscriber.observed(0, 5, 55);
    assert_eq!(subscriber.finish(), vec![(7, (5, 55))]);
}

#[test]
fn bytes_arrive_in_pieces() {
    let frame = rows(1, NO_INDEX_STATE, vec![row("s", 1)]);
    let bytes = encode(&frame).unwrap();
    let mut preamble = Vec::new();
    write_preamble(&mut preamble).unwrap();
    let mut reader = FrameReader::new(preamble).unwrap();
    assert!(reader.next_frame().unwrap().is_none());
    assert_eq!(reader.missing().unwrap(), LENGTH_PREFIX_BYTES);
    reader.push(&bytes[..LENGTH_PREFIX_BYTES]);
    let missing = reader.missing().unwrap();
    assert_eq!(missing, bytes.len() - LENGTH_PREFIX_BYTES);
    reader.push(&bytes[LENGTH_PREFIX_BYTES..]);
    assert_eq!(reader.missing().unwrap(), 0);
    assert_eq!(reader.next_frame().unwrap(), Some(frame));
}

/// Both halves of a state tell two entries apart, each by its own stream.
#[test]
fn both_halves_of_a_state_follow_the_entry() {
    let one = fold_index_state(NO_INDEX_STATE, 0, &[1, 0, 0, 0]);
    let two = fold_index_state(NO_INDEX_STATE, 0, &[2, 0, 0, 0]);
    assert_eq!(one, (0xb46d_04d1_c6da_a804, 0x4f90_fac0_3254_a5f4));
    assert_eq!(two, (0x945d_08ea_c97b_ddb7, 0x2f80_fed9_34f5_dba7));
    assert_ne!(one.0, two.0);
    assert_ne!(one.1, two.1);
}

/// A stream that appears and is sealed between two polls is not skipped over.
#[test]
fn a_stream_sealed_before_its_first_poll_is_refused() {
    let mut db = Db::create_in_memory();
    let id = db.insert_source(&seed()).unwrap();
    let (mut publisher, _) = ArchivePublisher::tailing(&db).unwrap();
    db.insert_wal_rows(id, &[row("late", 7)]).unwrap();
    db.insert_segment(id, "late", 0, &meta(7, 7), b"x").unwrap();
    db.prune_wal(id, "late", 7).unwrap();
    let e = publisher.next(&db).unwrap_err().to_string();
    assert!(e.contains("stream `late` sealed past this publisher's cursor"), "{e}");
    assert!(e.contains("watermark 7, no row shipped"), "{e}");
}

/// The same after catching up, for a stream that was only live at the opening.
#[test]
fn a_live_stream_sealed_before_the_first_poll_is_refused() {
    let mut db = Db::create_in_memory();
    let id = db.insert_source(&seed()).unwrap();
    db.insert_wal_rows(id, &[row("tail", 3)]).unwrap();
    let (mut publisher, _) = ArchivePublisher::catching_up(&db, i64::MIN).unwrap();
    db.insert_segment(id, "tail", 0, &meta(3, 3), b"x").unwrap();
    let e = publisher.next(&db).unwrap_err().to_string();
    assert!(e.contains("`tail`"), "{e}");
}

/// What is older than the timestamp it caught up from stays unsent by every poll.
#[test]
fn nothing_older_than_the_catch_up_is_ever_sent() {
    let mut db = Db::create_in_memory();
    let id = db.insert_source(&seed()).unwrap();
    db.transaction(|mut tx| {
        let r = tx
            .insert_caller_row(id, "s", &CallerRow { ts: 5, blob: vec![1] })
            .and_then(|_| tx.insert_clock_offset(id, 5, 7));
        (tx, r)
    })
    .unwrap();
    let (mut publisher, opening) = ArchivePublisher::catching_up(&db, 10).unwrap();
    assert_eq!(opening.len(), 1);
    assert!(matches!(opening[0], Frame::Handshake { .. }), "{opening:?}");
    assert!(publisher.has_numbers());
    assert_eq!(publisher.next(&db).unwrap(), vec![rows(0, NO_INDEX_STATE, vec![])]);
}

#[test]
fn opening_at_the_present_sends_no_row_and_then_a_keepalive() {
    let (db, _) = archive();
    let (mut publisher, opening) = ArchivePublisher::tailing(&db).unwrap();
    let hellos = opening.iter().filter(|f| matches!(f, Frame::Handshake { .. })).count();
    let entries = opening.iter().filter(|f| matches!(f, Frame::Index { .. })).count();
    assert_eq!((hellos, entries, opening.len()), (1, 2, 3));
    let declared = match opening.last() {
        Some(Frame::Index { state, .. }) => *state,
        other => panic!("{other:?}"),
    };
    assert_eq!(publisher.next(&db).unwrap(), vec![rows(0, declared, vec![])]);
}

/// Poll after poll: numbers that follow each other, each row once and in order, and
/// each entry once, whatever is sealed of what was shipped.
#[test]
fn poll_after_poll_ships_each_row_and_each_entry_once() {
    let (mut db, id) = archive();
    let (mut publisher, opening) = ArchivePublisher::tailing(&db).unwrap();
    let mut state = match opening.last() {
        Some(Frame::Index { state, .. }) => *state,
        other => panic!("{other:?}"),
    };
    let mut shipped = Vec::new();
    let mut blobs = Vec::new();
    for n in 0..4i64 {
        let (a, b) = (10 + 2 * n, 11 + 2 * n);
        db.insert_wal_rows(id, &[row("s", b), row("s", a), row("t", a)]).unwrap();
        db.transaction(|mut tx| {
            let r = tx
                .insert_caller_row(id, "s", &CallerRow { ts: 3 + n / 2, blob: vec![n as u8] })
                .and_then(|_| tx.insert_clock_offset(id, a, n));
            (tx, r)
        })
        .unwrap();
        let frames = publisher.next(&db).unwrap();
        assert_eq!(frames.len(), 3);
        match &frames[0] {
            Frame::Index { kind, state: declared, ts, blob, .. } => {
                assert_eq!(*kind, IndexKind::Delta);
                state = fold_index_state(state, *ts, blob);
                assert_eq!(*declared, state);
                blobs.extend(blob.clone());
            }
            other => panic!("{other:?}"),
        }
        assert!(matches!(frames[1], Frame::ClockOffset { .. }), "{frames:?}");
        match &frames[2] {
            Frame::Rows { seq, index_state, rows, .. } => {
                assert_eq!((*seq, *index_state), (n as u64, state));
                let order: Vec<(i64, &str)> =
                    rows.iter().map(|r| (r.ts, r.stream.as_str())).collect();
                assert_eq!(order, vec![(a, "s"), (a, "t"), (b, "s")]);
                shipped.extend(rows.iter().filter(|r| r.stream == "s").map(|r| r.ts));
            }
            other => panic!("{other:?}"),
        }
        // What has been shipped may be sealed and pruned.
        db.insert_segment(id, "s", 10 + n as u64, &meta(a, b), b"x").unwrap();
        db.prune_wal(id, "s", b).unwrap();
    }
    assert_eq!(shipped, (10..18).collect::<Vec<i64>>());
    assert_eq!(blobs, vec![0, 1, 2, 3]);
}

/// Call after call, every source is polled: its rows and entries are each sent once,
/// under its own number and in its own count.
#[test]
fn calls_poll_every_source() {
    let mut db = Db::create_in_memory();
    let ids: Vec<i64> = (0..2).map(|_| db.insert_source(&seed()).unwrap()).collect();
    let entry = |db: &mut Db, id: i64, ts: i64, x: u8| {
        db.transaction(|mut tx| {
            let r = tx.insert_caller_row(id, "s", &CallerRow { ts, blob: vec![x] });
            (tx, r)
        })
        .unwrap();
    };
    entry(&mut db, ids[0], 1, 100);
    let (mut publisher, opening) = ArchivePublisher::tailing(&db).unwrap();
    let mut blobs = vec![Vec::new(), Vec::new()];
    let mut stamps = vec![Vec::new(), Vec::new()];
    let mut numbers = vec![Vec::new(), Vec::new()];
    let mut take = |frames: Vec<Frame>| {
        for f in frames {
            match f {
                Frame::Index { source, blob, .. } => blobs[source as usize].extend(blob),
                Frame::Rows { source, seq, rows, .. } => {
                    numbers[source as usize].push(seq);
                    stamps[source as usize].extend(rows.iter().map(|r| r.ts));
                }
                _ => {}
            }
        }
    };
    take(opening);
    for n in 0..3i64 {
        for (k, id) in ids.iter().enumerate() {
            db.insert_wal_rows(*id, &[row("s", 10 * n + k as i64)]).unwrap();
            if n as usize >= k {
                entry(&mut db, *id, 5, (10 * n) as u8 + k as u8);
            }
        }
        take(publisher.next(&db).unwrap());
    }
    take(publisher.next(&db).unwrap());
    assert_eq!(blobs, vec![vec![100, 0, 10, 20], vec![11, 21]]);
    assert_eq!(stamps, vec![vec![0, 10, 20], vec![1, 11, 21]]);
    assert_eq!(numbers, vec![vec![0, 1, 2, 3], vec![0, 1, 2, 3]]);
}

/// A source that comes without an identity gets one, and no two the same.
#[test]
fn a_source_without_an_identity_gets_one() {
    let nameless = |source: u32| Frame::Handshake {
        source,
        uuid: None,
        labels: TextMap::new(),
        metadata: TextMap::new(),
        clock_anchor_wall_ns: 1,
        complete: false,
    };
    let mut replica = Replica::new(Db::create_in_memory(), "mine".to_string());
    replica.apply_all(vec![nameless(1), nameless(2), handshake(false)]).unwrap();
    let uuid = |ordinal: u32| {
        let id = replica.source_id(ordinal).unwrap();
        replica.archive().read_source(id).unwrap().uuid
    };
    assert_eq!(uuid(1), Some("mine-1".to_string()));
    assert_eq!(uuid(2), Some("mine-2".to_string()));
    assert_eq!(uuid(0), Some("u".to_string()), "its own is kept");
}

struct Bytes;

impl SegmentEncoder for Bytes {
    fn encode(&self, stream: &str, rows: &[WalRow]) -> Result<Option<Segment>, String> {
        if stream == "bad" {
            return Err("no anchor".to_string());
        }
        Ok(Some(Segment {
            bytes: rows.iter().flat_map(|r| r.row.clone()).collect(),
            rows: rows.len() as u64,
            first_ts: rows[0].ts,
            last_ts: rows[rows.len() - 1].ts,
            index: None,
        }))
    }

    fn version(&self) -> Option<&str> {
        None
    }
}

#[test]
fn a_replica_seals_what_it_is_told_to() {
    let mut replica = Replica::new(Db::create_in_memory(), "fresh".to_string());
    let streams = vec!["s".to_string(), "none".to_string()];
    let e = replica.seal(0, &streams, &Bytes).unwrap_err().to_string();
    assert!(e.contains("replication frame for source 0"), "{e}");

    replica
        .apply_all(vec![
            handshake(false),
            Frame::Segment {
                source: 0,
                stream: "s".to_string(),
                meta: meta(1, 2),
                bytes: vec![9],
                caller_index: None,
            },
            rows(0, NO_INDEX_STATE, vec![row("s", 3), row("s", 4), row("bad", 4)]),
        ])
        .unwrap();
    replica.seal(0, &Vec::new(), &Bytes).unwrap();
    replica.seal(0, &streams, &&Bytes).unwrap();
    let id = replica.source_id(0).unwrap();
    let segments = replica.archive().read_segments(id, "s");
    assert_eq!(segments.len(), 2);
    assert_eq!((segments[1].seq, &segments[1].bytes), (1, &vec![3, 4]));
    assert!(replica.archive().read_wal(id, "s").is_empty());
    assert_eq!(replica.archive().read_clock_offsets(id), vec![(4, 8)]);

    let e = replica.seal(0, &vec!["bad".to_string()], &Bytes).unwrap_err().to_string();
    assert!(e.contains("no anchor"), "{e}");
    assert_eq!(replica.archive().live_wal(id, "bad").len(), 1);
}

#[test]
fn integers_are_least_significant_byte_first() {
    assert_eq!(bytes_of_u16(0x0102), vec![2, 1]);
    assert_eq!(bytes_of_u32(0x0102_0304), vec![4, 3, 2, 1]);
    assert_eq!(bytes_of_u64(0x0102_0304_0506_0708), vec![8, 7, 6, 5, 4, 3, 2, 1]);
    assert_eq!(bytes_of_i64(-2), vec![254, 255, 255, 255, 255, 255, 255, 255]);
    assert_eq!(u16_of(&[2, 1]), 0x0102);
    for v in [0, 1, 255, 256, 65_535, u32::MAX] {
        assert_eq!(bytes_of_u32(v), v.to_le_bytes().to_vec());
        assert_eq!(u32_of(&v.to_le_bytes()), v);
    }
    for v in [i64::MIN, -1, 0, 1, i64::MAX] {
        assert_eq!(bytes_of_i64(v), v.to_le_bytes().to_vec());
        assert_eq!(signed_of(u64_of(&v.to_le_bytes())), v);
    }
    let frame = Frame::ClockOffset { source: 1, ts: -2, offset_ns: 3 };
    let mut expected = vec![21, 0, 0, 0, 5, 1, 0, 0, 0];
    expected.extend([254, 255, 255, 255, 255, 255, 255, 255, 3, 0, 0, 0, 0, 0, 0, 0]);
    assert_eq!(encode(&frame).unwrap(), expected);
}
