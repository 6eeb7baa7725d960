//! The writer: ticks, seals, sessions and what it gives back.

use dendro::db::{Db, PageStats, SegmentMeta, SourceMeta, WalRow};
use dendro::error::{Error, ReadOnly};
use dendro::segment::{check_encoder, materialize, Segment, SegmentEncoder};
use dendro::slots::Slots;
use dendro::text_map::TextMap;
use dendro::writer::handle::{
    check_alive, checkpoint_due, take_writer_error, wait_for_checkpoint, wal_tick,
    CHECKPOINT_INTERVAL_MS,
};
use dendro::writer::reclaim::{drains_on, reclaim_all, reclaim_if_fragmented, should_reclaim};
use dendro::writer::run::{answer, answer_seal, stops_cleanly, Reply, Request, Writer};
use dendro::writer::seal::{encode_rows, newer_observation};
use dendro::writer::session::{session_patch, VERSION};
use dendro::writer::tick::{
    commit_tick, plan_tick, retry_after, Move, Note, TickRun, WriterHealth,
    MAX_CONSECUTIVE_DROPPED_TICKS,
};
use dendro::writer::SourceWriter;

/// A segment is its rows' bytes, one after the other.
struct Bytes;

impl SegmentEncoder for Bytes {
    fn encode(&self, _stream: &str, rows: &[WalRow]) -> Result<Option<Segment>, String> {
        Ok(Some(Segment {
            bytes: rows.iter().flat_map(|r| r.row.clone()).collect(),
            rows: rows.len() as u64,
            first_ts: rows[0].ts,
            last_ts: rows[rows.len() - 1].ts,
            index: Some(vec![rows.len() as u8]),
        }))
    }

    fn version(&self) -> Option<&str> {
        Some("bytes/1")
    }
}

/// Encodes all but the last row, and nothing of a stream named `empty`.
struct Lagging;

impl SegmentEncoder for Lagging {
    fn encode(&self, stream: &str, rows: &[WalRow]) -> Result<Option<Segment>, String> {
        if stream == "empty" || rows.len() < 2 {
            return Ok(None);
        }
        Bytes.encode(stream, &rows[..rows.len() - 1])
    }

    fn version(&self) -> Option<&str> {
        None
    }
}

struct Broken;

impl SegmentEncoder for Broken {
    fn encode(&self, stream: &str, rows: &[WalRow]) -> Result<Option<Segment>, String> {
        match stream {
            "lies" => Ok(Some(Segment {
                bytes: Vec::new(),
                rows: rows.len() as u64 + 1,
                first_ts: rows[0].ts,
                last_ts: rows[rows.len() - 1].ts,
                index: None,
            })),
            "between" => Ok(Some(Segment {
                bytes: Vec::new(),
                rows: 1,
                first_ts: rows[0].ts,
                last_ts: rows[0].ts + 1,
                index: None,
            })),
            _ => Err("no anchor".to_string()),
        }
    }

    fn version(&self) -> Option<&str> {
        None
    }
}

fn map(entries: &[(&str, &str)]) -> TextMap {
    let mut m = TextMap::new();
    for (k, v) in entries {
        m.insert(k.to_string(), v.to_string());
    }
    m
}

fn seed(host: &str) -> SourceMeta {
    SourceMeta {
        labels: map(&[("host", host)]),
        metadata: TextMap::new(),
        clock_anchor_wall_ns: 1_000,
    }
}

fn row(stream: &str, ts: i64) -> WalRow {
    WalRow {
        stream: stream.to_string(),
        ts,
        wall_offset: ts * 10,
        row: vec![ts as u8],
    }
}

fn add<E: SegmentEncoder>(w: &mut Writer<E>, host: &str) -> i64 {
    let request = Request::AddSource { seed: seed(host), session: "s1".to_string() };
    match w.handle(request) {
        Reply::Added(Ok(id)) => id,
        other => panic!("{other:?}"),
    }
}

fn tick<E: SegmentEncoder>(w: &mut Writer<E>, id: i64, rows: Vec<WalRow>) {
    match w.handle(Request::Wal { ticks: vec![(id, rows)] }) {
        Reply::Done => {}
        other => panic!("{other:?}"),
    }
}

fn seal<E: SegmentEncoder>(w: &mut Writer<E>, id: i64, streams: &[&str]) -> Reply {
    w.handle(Request::Seal {
        source_id: id,
        batch: streams.iter().map(|s| s.to_string()).collect(),
    })
}

fn live(db: &Db, id: i64, stream: &str) -> Vec<i64> {
    db.live_wal(id, stream).iter().map(|r| r.ts).collect()
}

#[test]
fn a_seal_moves_rows_into_a_segment() {
    let mut w = Writer::open(Db::create_in_memory(), Bytes);
    let id = add(&mut w, "a");
    tick(&mut w, id, vec![row("cpu", 1), row("cpu", 2), row("net", 1)]);
    assert!(matches!(seal(&mut w, id, &["cpu"]), Reply::Done));

    let db = w.archive();
    let segments = db.read_segments(id, "cpu");
    assert_eq!(segments.len(), 1);
    assert_eq!(segments[0].seq, 0);
    assert_eq!(segments[0].meta, SegmentMeta { rows: 2, first_ts: 1, last_ts: 2 });
    assert_eq!(segments[0].bytes, vec![1, 2]);
    assert_eq!(segments[0].caller_index, Some(vec![2]));
    assert!(db.read_wal(id, "cpu").is_empty(), "the rows moved");
    assert_eq!(live(db, id, "net"), vec![1], "another stream is left alone");
    // The observation of the newest row that was sealed.
    assert_eq!(db.read_clock_offsets(id), vec![(2, 20)]);
}

#[test]
fn rows_that_were_not_encoded_stay_in_the_tail() {
    let mut w = Writer::open(Db::create_in_memory(), Lagging);
    let id = add(&mut w, "a");
    tick(&mut w, id, vec![row("cpu", 1), row("cpu", 2), row("cpu", 3), row("empty", 1)]);
    assert!(matches!(seal(&mut w, id, &["cpu", "empty"]), Reply::Done));
    assert_eq!(live(w.archive(), id, "cpu"), vec![3]);
    assert_eq!(live(w.archive(), id, "empty"), vec![1]);
    assert!(w.archive().read_segments(id, "empty").is_empty());

    tick(&mut w, id, vec![row("cpu", 4)]);
    assert!(matches!(seal(&mut w, id, &["cpu"]), Reply::Done));
    let numbers: Vec<(u64, i64, i64)> = w
        .archive()
        .read_segment_meta(id, "cpu")
        .iter()
        .map(|(n, m)| (*n, m.first_ts, m.last_ts))
        .collect();
    assert_eq!(numbers, vec![(0, 1, 2), (1, 3, 3)]);
}

#[test]
fn an_encoder_failure_stops_the_writer_and_writes_nothing() {
    let mut w = Writer::open(Db::create_in_memory(), Broken);
    let id = add(&mut w, "a");
    tick(&mut w, id, vec![row("x", 1), row("lies", 1), row("between", 1), row("between", 5)]);
    match seal(&mut w, id, &["x"]) {
        Reply::Failed(Error::Encoder { stream, source }) => {
            assert_eq!((stream.as_str(), source.as_str()), ("x", "no anchor"));
        }
        other => panic!("{other:?}"),
    }
    match seal(&mut w, id, &["lies"]) {
        Reply::Failed(Error::EncoderContract { stream, detail }) => {
            assert_eq!(stream, "lies");
            assert_eq!(
                detail,
                "it claims 2 row(s) over [1, 1]; that span holds 1 of the 1 row(s) it was given over [1, 1]"
            );
        }
        other => panic!("{other:?}"),
    }
    assert!(matches!(
        seal(&mut w, id, &["between"]),
        Reply::Failed(Error::EncoderContract { .. })
    ));
    assert_eq!(live(w.archive(), id, "lies"), vec![1]);
    assert!(w.archive().streams(id).is_empty());
}

/// A row at or before what is sealed would never be read, so it is counted
/// instead of written.
#[test]
fn a_row_behind_the_watermark_is_dropped_and_counted() {
    let mut w = Writer::open(Db::create_in_memory(), Bytes);
    let id = add(&mut w, "a");
    tick(&mut w, id, vec![row("cpu", 5)]);
    seal(&mut w, id, &["cpu"]);
    tick(&mut w, id, vec![row("cpu", 5), row("cpu", 4), row("cpu", 6), row("net", 1)]);
    assert_eq!(live(w.archive(), id, "cpu"), vec![6]);
    assert_eq!(live(w.archive(), id, "net"), vec![1]);
    assert_eq!(w.dropped_out_of_order(id), 2);
    assert_eq!(w.dropped_out_of_order(id + 1), 0);
}

/// Two rows of one key fail their own source's tick and no other's.
#[test]
fn a_collision_costs_only_its_source() {
    let mut w = Writer::open(Db::create_in_memory(), Bytes);
    let a = add(&mut w, "a");
    let b = add(&mut w, "b");
    tick(&mut w, a, vec![row("cpu", 1)]);
    let ticks = vec![(a, vec![row("cpu", 1)]), (b, vec![row("cpu", 1)])];
    assert!(matches!(w.handle(Request::Wal { ticks }), Reply::Done));
    assert_eq!(live(w.archive(), a, "cpu"), vec![1]);
    assert_eq!(live(w.archive(), b, "cpu"), vec![1]);
}

#[test]
fn a_writer_continues_an_archive() {
    let mut w = Writer::open(Db::create_in_memory(), Bytes);
    let id = add(&mut w, "a");
    tick(&mut w, id, vec![row("cpu", 5)]);
    seal(&mut w, id, &["cpu"]);
    let mut copy = Db::create_in_memory();
    for s in w.archive().read_sources() {
        assert!(copy.load_source(s));
    }
    for s in w.archive().read_segments(id, "cpu") {
        assert!(copy.load_segment(id, "cpu".to_string(), s));
    }

    let mut w = Writer::open(copy, Bytes);
    let reply = w.handle(Request::ResumeSource {
        source_id: id,
        clock_anchor_wall_ns: 2_000,
        session: "s2".to_string(),
    });
    match reply {
        Reply::Resumed(Ok(r)) => {
            assert_eq!(r.last_ts, Some(5));
            assert_eq!(r.labels.get("host").unwrap(), "a");
        }
        other => panic!("{other:?}"),
    }
    // A tick that reaches back before the resume is dropped whole.
    tick(&mut w, id, vec![row("net", 5), row("cpu", 6)]);
    assert!(live(w.archive(), id, "cpu").is_empty());
    tick(&mut w, id, vec![row("cpu", 6), row("net", 7)]);
    assert_eq!(live(w.archive(), id, "cpu"), vec![6]);
    assert_eq!(live(w.archive(), id, "net"), vec![7]);
    assert!(matches!(seal(&mut w, id, &["cpu"]), Reply::Done));
    assert_eq!(w.archive().read_segments(id, "cpu")[1].seq, 1);
    let metadata = w.archive().source_metadata(id).unwrap();
    let sessions = metadata.get("writer_sessions").unwrap();
    assert!(sessions.contains("\"s1\"") && sessions.contains("\"s2\""), "{sessions}");
}

#[test]
fn resuming_what_is_not_there_is_an_error() {
    let mut w = Writer::open(Db::create_in_memory(), Bytes);
    match w.handle(Request::ResumeSource {
        source_id: 3,
        clock_anchor_wall_ns: 0,
        session: "s".to_string(),
    }) {
        Reply::Resumed(Err(e)) => assert_eq!(e.to_string(), "no source with id 3 to resume"),
        other => panic!("{other:?}"),
    }
}

#[test]
fn another_encoder_version_is_refused() {
    let written = map(&[("encoder", "bytes/0")]);
    match check_encoder(4, &written, &Bytes) {
        Err(Error::EncoderMismatch { source_id, wrote, reading }) => {
            assert_eq!(
                (source_id, wrote.as_str(), reading.as_str()),
                (4, "bytes/0", "bytes/1")
            );
        }
        other => panic!("{other:?}"),
    }
    // A side without a version is not checked.
    assert!(check_encoder(4, &written, &Lagging).is_ok());
    assert!(check_encoder(4, &TextMap::new(), &Bytes).is_ok());
    assert!(check_encoder(4, &map(&[("encoder", "bytes/1")]), &Bytes).is_ok());
}

#[test]
fn an_added_source_records_its_encoder() {
    let mut w = Writer::open(Db::create_in_memory(), Bytes);
    let id = add(&mut w, "a");
    let metadata = w.archive().source_metadata(id).unwrap();
    assert_eq!(metadata.get("encoder").unwrap(), "bytes/1");
}

#[test]
fn a_session_is_appended_to_those_before() {
    let first = session_patch(1, &TextMap::new(), "a \"b\"", 7, None).unwrap();
    assert_eq!(
        first.get("writer_sessions").unwrap(),
        &format!(
            "[{{\"clock_anchor_wall_ns\":7,\"dendro\":\"{VERSION}\",\"session\":\"a \\\"b\\\"\"}}]"
        )
    );
    assert!(first.get("events").is_none(), "a new source has nothing to say");

    let second = session_patch(1, &first, "s2", 8, Some(Some(-4))).unwrap();
    assert_eq!(
        second.get("writer_sessions").unwrap(),
        &format!(
            "[{{\"clock_anchor_wall_ns\":7,\"dendro\":\"{VERSION}\",\"session\":\"a \\\"b\\\"\"}},{{\"clock_anchor_wall_ns\":8,\"dendro\":\"{VERSION}\",\"resumed_after_ts\":-4,\"session\":\"s2\"}}]"
        )
    );
    assert_eq!(
        second.get("events").unwrap(),
        "{\"events\":[{\"description\":\"source resumed by a new writer session\",\"details\":\"previous session's last row at -4\",\"id\":\"writer_session:s2\",\"kind\":\"writer_session\",\"timestamp\":8}]}"
    );
    let third = session_patch(1, &first, "s3", 8, Some(None)).unwrap();
    assert!(third.get("writer_sessions").unwrap().contains("\"resumed_after_ts\":null"));
    assert!(third.get("events").unwrap().contains("previous session left no rows"));
}

/// The events are shared with the caller, so an entry is appended to them.
#[test]
fn the_callers_events_are_kept() {
    let events = r#"{"events":[{"kind":"mine"}],"other":1}"#;
    let patch = session_patch(1, &map(&[("events", events)]), "s", 8, Some(None)).unwrap();
    let text = patch.get("events").unwrap();
    assert!(text.starts_with(r#"{"events":[{"kind":"mine"},{"description":"#), "{text}");
    assert!(text.ends_with(r#"],"other":1}"#), "{text}");

    // What is no JSON holds no events; what is JSON and holds none has no place
    // for one.
    let patch = session_patch(1, &map(&[("events", "not json")]), "s", 8, Some(None)).unwrap();
    assert!(patch.get("events").unwrap().starts_with(r#"{"events":[{"description":"#));
    assert!(session_patch(1, &map(&[("events", "[1]")]), "s", 8, Some(None)).is_err());
}

#[test]
fn metadata_is_patched_by_key() {
    let mut w = Writer::open(Db::create_in_memory(), Bytes);
    let id = add(&mut w, "a");
    let patch = map(&[("k", "v")]);
    assert!(matches!(
        w.handle(Request::UpdateMetadata { source_id: id, patch }),
        Reply::Done
    ));
    let metadata = w.archive().source_metadata(id).unwrap();
    assert_eq!(metadata.get("k").unwrap(), "v");
    assert_eq!(metadata.get("encoder").unwrap(), "bytes/1");
}

#[test]
fn finalizing_marks_a_source_with_its_last_observation() {
    let mut w = Writer::open(Db::create_in_memory(), Bytes);
    let id = add(&mut w, "a");
    tick(&mut w, id, vec![row("cpu", 1), row("net", 2)]);
    assert!(matches!(
        w.handle(Request::Finalize { source_id: id, clock_offset: (9, 99) }),
        Reply::Done
    ));
    let db = w.archive();
    assert!(db.read_source(id).unwrap().complete);
    assert_eq!(db.read_clock_offsets(id).last(), Some(&(9, 99)));
    assert!(matches!(w.handle(Request::Sync), Reply::Done));
    assert!(matches!(w.handle(Request::Shutdown), Reply::Stopped(true)));
}

#[test]
fn a_shutdown_with_a_source_left_open_is_not_clean() {
    let mut w = Writer::open(Db::create_in_memory(), Bytes);
    add(&mut w, "a");
    assert!(matches!(w.handle(Request::Shutdown), Reply::Stopped(false)));
}

#[test]
fn retention_evicts_and_says_what_went() {
    let mut w = Writer::open(Db::create_in_memory(), Bytes);
    let id = add(&mut w, "a");
    tick(&mut w, id, vec![row("cpu", 1), row("cpu", 2)]);
    seal(&mut w, id, &["cpu"]);
    tick(&mut w, id, vec![row("cpu", 3), row("cpu", 9)]);
    match w.handle(Request::Evict { source_id: id, cutoff_ts: 5 }) {
        Reply::Evicted(Ok(e)) => {
            assert_eq!((e.segments, e.wal_rows, e.live_rows), (1, 1, 1));
        }
        other => panic!("{other:?}"),
    }
    assert_eq!(live(w.archive(), id, "cpu"), vec![9]);

    tick(&mut w, id, vec![row("net", 1)]);
    let e = w.evict_streams_before(id, 100, |s| s == "net").unwrap();
    assert_eq!(e.wal_rows, 1);
    assert_eq!(live(w.archive(), id, "cpu"), vec![9]);
}

#[test]
fn a_retry_waits_longer_each_time_and_then_gives_up() {
    let busy = Error::sqlite(String::new(), Some(rusqlite::ffi::SQLITE_BUSY), "busy".to_string());
    let mut waits = Vec::new();
    let mut attempt = 0;
    while let Some(ms) = retry_after(attempt, &busy) {
        waits.push(ms);
        attempt += 1;
    }
    assert!(!waits.is_empty());
    assert!(waits.windows(2).all(|w| w[0] < w[1]), "{waits:?}");
    assert_eq!(retry_after(0, &Error::Message("no".to_string())), None);
}

#[test]
fn a_run_of_dropped_ticks_stops_the_writer() {
    let mut health = WriterHealth::new();
    let e = Error::sqlite(String::new(), Some(rusqlite::ffi::SQLITE_FULL), "full".to_string());
    for _ in 1..MAX_CONSECUTIVE_DROPPED_TICKS {
        assert!(health.dropped(&e).is_ok());
    }
    assert!(health.dropped(&e).is_err());
    health.committed();
    assert!(health.dropped(&e).is_ok(), "a commit ends the run");
}

#[test]
fn a_warning_is_given_once() {
    let mut health = WriterHealth::new();
    health.warn_collision(1, Error::WriterGone);
    health.warn_collision(1, Error::WriterGone);
    health.warn_collision(2, Error::WriterGone);
    health.warn_floor(1, 3, 4);
    health.warn_floor(1, 2, 4);
    health.warn_shadowed(1, "cpu", 5, 6);
    health.warn_shadowed(1, "net", 5, 6);
    health.warn_shadowed(1, "cpu", 4, 6);
    assert_eq!(
        said(health.take_notes()),
        ["collision 1", "collision 2", "floor 1 3 4", "late 1 cpu 5 6", "late 1 net 5 6"]
    );
    health.warn_collision(1, Error::WriterGone);
    health.warn_floor(1, 1, 4);
    health.warn_shadowed(1, "net", 4, 6);
    assert!(health.take_notes().is_empty(), "what was taken is not noted again");
}

fn said(notes: Vec<Note>) -> Vec<String> {
    notes
        .into_iter()
        .map(|n| match n {
            Note::BelowFloor { source_id, ts, floor } => format!("floor {source_id} {ts} {floor}"),
            Note::Late { source_id, stream, ts, watermark } => {
                format!("late {source_id} {stream} {ts} {watermark}")
            }
            Note::Collision { source_id, .. } => format!("collision {source_id}"),
        })
        .collect()
}

#[test]
fn a_tick_is_planned_against_floors_and_watermarks() {
    let mut floors: Slots<i64, i64> = Slots::new();
    floors.set(1, 10);
    let mut marks: Slots<(i64, String), i64> = Slots::new();
    marks.set((2, "cpu".to_string()), 5);
    let mut health = WriterHealth::new();
    let ticks = vec![
        (1, vec![row("cpu", 10), row("cpu", 11)]),
        (2, vec![row("cpu", 5), row("cpu", 6), row("net", 1)]),
        (3, vec![]),
    ];
    let planned: Vec<(i64, Vec<(String, i64)>)> = plan_tick(&ticks, &floors, &marks, &mut health)
        .into_iter()
        .map(|(id, rows)| (id, rows.into_iter().map(|r| (r.stream, r.ts)).collect()))
        .collect();
    let two = vec![("cpu".to_string(), 6), ("net".to_string(), 1)];
    assert!(planned.contains(&(2, two)), "{planned:?}");
    assert!(
        planned.iter().all(|(id, rows)| *id != 1 || rows.iter().all(|(_, ts)| *ts > 10)),
        "{planned:?}"
    );
    assert_eq!(health.dropped_out_of_order(2), 1);
    assert_eq!(said(health.take_notes()), ["floor 1 10 10", "late 2 cpu 5 5"]);

    let again = plan_tick(&ticks, &floors, &marks, &mut health);
    assert_eq!(again.len(), planned.len());
    assert_eq!(health.dropped_out_of_order(2), 2, "every late row counts");
    assert!(health.take_notes().is_empty(), "and only the first is noted");
}

/// Each source's first collision is noted, with what the archive said.
#[test]
fn a_tick_notes_what_it_drops() {
    let mut db = Db::create_in_memory();
    for _ in 0..2 {
        db.insert_source(&seed("a")).unwrap();
    }
    let (floors, marks) = (Slots::new(), Slots::new());
    let mut health = WriterHealth::new();
    let tick = vec![(1, vec![row("cpu", 1)]), (2, vec![row("cpu", 1)])];
    commit_tick(&mut db, &tick, &floors, &marks, &mut health).unwrap();
    assert!(health.take_notes().is_empty());

    let half = vec![(1, vec![row("cpu", 1)]), (2, vec![row("cpu", 2)])];
    commit_tick(&mut db, &half, &floors, &marks, &mut health).unwrap();
    assert_eq!(said(health.take_notes()), ["collision 1"]);
    commit_tick(&mut db, &half, &floors, &marks, &mut health).unwrap();
    assert_eq!(said(health.take_notes()), ["collision 2"]);
    assert_eq!(db.read_wal(2, "cpu").len(), 2);
}

/// A tick that is dropped whole commits nothing, and does not end a run of
/// dropped ticks.
#[test]
fn a_tick_of_nothing_is_no_commit() {
    let mut db = Db::create_in_memory();
    db.insert_source(&seed("a")).unwrap();
    let mut floors: Slots<i64, i64> = Slots::new();
    floors.set(1, 10);
    let marks = Slots::new();
    let mut health = WriterHealth::new();
    let e = Error::sqlite(String::new(), Some(rusqlite::ffi::SQLITE_FULL), "full".to_string());
    for _ in 1..MAX_CONSECUTIVE_DROPPED_TICKS {
        assert!(health.dropped(&e).is_ok());
    }
    commit_tick(&mut db, &vec![(1, vec![row("cpu", 9)])], &floors, &marks, &mut health).unwrap();
    assert!(db.read_wal(1, "cpu").is_empty());
    assert!(health.dropped(&e).is_err());
}

/// The whole tick first; source by source only where that collided.
#[test]
fn a_tick_that_collides_is_tried_source_by_source() {
    let collision = || {
        Error::sqlite(
            String::new(),
            Some(rusqlite::ffi::SQLITE_CONSTRAINT_PRIMARYKEY),
            "UNIQUE".to_string(),
        )
    };
    let busy = || Error::sqlite(String::new(), Some(rusqlite::ffi::SQLITE_BUSY), "b".to_string());
    let mut health = WriterHealth::new();

    let mut run = TickRun::new(vec![7, 8]);
    assert_eq!(run.due(), None);
    assert!(matches!(run.settle(&mut health, Ok(())), Ok(Move::Done)));

    let mut run = TickRun::new(vec![7, 8]);
    assert!(matches!(run.settle(&mut health, Err(busy())), Ok(Move::Wait(_))));
    assert!(matches!(run.settle(&mut health, Err(collision())), Ok(Move::Commit)));
    assert_eq!(run.due(), Some(0));
    assert!(matches!(run.settle(&mut health, Err(collision())), Ok(Move::Commit)));
    assert_eq!(run.due(), Some(1));
    assert!(matches!(run.settle(&mut health, Ok(())), Ok(Move::Done)));

    assert_eq!(said(health.take_notes()), ["collision 7"]);

    let mut run = TickRun::new(vec![7]);
    assert!(run.settle(&mut health, Err(Error::ReadOnly(ReadOnly::Handle))).is_err());
}

#[test]
fn the_newer_observation_is_kept() {
    assert_eq!(newer_observation(None, (3, 30)), Some((3, 30)));
    assert_eq!(newer_observation(Some((5, 50)), (3, 30)), Some((5, 50)));
    assert_eq!(newer_observation(Some((1, 10)), (3, 30)), Some((3, 30)));
}

#[test]
fn a_source_handle_says_what_it_asks_for() {
    let handle = SourceWriter::new(3, Some(10));
    assert_eq!((handle.source_id(), handle.floor_ts()), (3, Some(10)));
    assert!(handle.wal(vec![]).unwrap().is_none());
    match handle.wal(vec![row("cpu", 11)]).unwrap() {
        Some(Request::Wal { ticks }) => assert_eq!(ticks, vec![(3, vec![row("cpu", 11)])]),
        other => panic!("{other:?}"),
    }
    match handle.wal(vec![row("cpu", 10)]) {
        Err(Error::TimelineBackwards { source_id, ts, floor }) => {
            assert_eq!((source_id, ts, floor), (3, 10, 10));
        }
        other => panic!("{other:?}"),
    }
    assert!(handle.seal(vec![]).is_none());
    assert!(handle.update_metadata(TextMap::new()).is_none());
    assert!(matches!(
        handle.evict_before(4),
        Request::Evict { source_id: 3, cutoff_ts: 4 }
    ));
    assert!(matches!(
        handle.finalize((1, 2)),
        Request::Finalize { source_id: 3, clock_offset: (1, 2) }
    ));
    assert!(wal_tick(&vec![(1, vec![])]).is_none());
    assert!(wal_tick(&vec![(1, vec![row("cpu", 1)])]).is_some());
}

#[test]
fn a_dead_writer_says_why() {
    assert!(check_alive(&None).is_ok());
    let why = Some(Error::Message("disk gone".to_string()));
    assert!(check_alive(&why).unwrap_err().to_string().contains("disk gone"));
    assert!(matches!(take_writer_error(&why), Error::Writer(_)));
    assert!(matches!(take_writer_error(&None), Error::WriterGone));
}

#[test]
fn a_checkpoint_comes_due() {
    assert_eq!(CHECKPOINT_INTERVAL_MS, 10_000);
    assert_eq!(wait_for_checkpoint(10_000, 2_500), 7_500);
    assert_eq!(wait_for_checkpoint(10_000, 20_000), 0);
    assert!(!checkpoint_due(10_000, 9_999));
    assert!(checkpoint_due(10_000, 10_000));
}

#[test]
fn free_pages_are_given_back_once_there_are_enough() {
    assert!(!should_reclaim(0, 0));
    assert!(!should_reclaim(9, 100));
    assert!(should_reclaim(11, 100));
    assert!(should_reclaim(u32::MAX, u32::MAX), "the whole file is free");
    assert!(should_reclaim(429_496_730, u32::MAX));
    assert!(!should_reclaim(429_496_729, u32::MAX));

    let stats = PageStats { pages: 1_000, free: 300, page_size: 4096 };
    let mut db = Db::create_in_memory().opened_as(false, false, stats);
    reclaim_if_fragmented(&mut db).unwrap();
    assert_eq!(db.page_stats(), PageStats { pages: 900, free: 200, page_size: 4096 });
    reclaim_all(&mut db, || false).unwrap();
    assert_eq!(db.page_stats(), PageStats { pages: 700, free: 0, page_size: 4096 });
}

#[test]
fn an_encoder_may_decline() {
    let rows = [row("empty", 1)];
    assert_eq!(materialize(&Lagging, "empty", &rows).unwrap(), None);
    let both = [row("cpu", 1), row("cpu", 2)];
    assert_eq!(materialize(&Bytes, "cpu", &both).unwrap().unwrap().bytes, vec![1, 2]);
    assert_eq!(materialize(&Bytes, "cpu", &[]).unwrap(), None);
}

/// A resume that cannot be recorded leaves the archive as it was.
#[test]
fn a_refused_resume_changes_nothing() {
    let mut w = Writer::open(Db::create_in_memory(), Bytes);
    let id = add(&mut w, "a");
    let patch = map(&[("events", "[1]")]);
    assert!(matches!(w.handle(Request::UpdateMetadata { source_id: id, patch }), Reply::Done));
    assert!(matches!(
        w.handle(Request::Finalize { source_id: id, clock_offset: (1, 1) }),
        Reply::Done
    ));
    let before = w.archive().read_source(id).unwrap();
    assert!(before.complete);
    match w.handle(Request::ResumeSource {
        source_id: id,
        clock_anchor_wall_ns: 2_000,
        session: "s2".to_string(),
    }) {
        Reply::Resumed(Err(e)) => assert!(e.to_string().contains("`events`"), "{e:?}"),
        other => panic!("{other:?}"),
    }
    assert_eq!(w.archive().read_source(id).unwrap(), before);
}

/// A reference to an encoder writes as the encoder does.
#[test]
fn an_encoder_can_be_borrowed() {
    let encoder = Bytes;
    let mut w = Writer::open(Db::create_in_memory(), &encoder);
    let id = add(&mut w, "a");
    tick(&mut w, id, vec![row("cpu", 1)]);
    assert!(matches!(seal(&mut w, id, &["cpu"]), Reply::Done));
    assert_eq!(w.archive().read_segments(id, "cpu")[0].bytes, vec![1]);
    assert_eq!(w.archive().source_metadata(id).unwrap().get("encoder").unwrap(), "bytes/1");
}

#[test]
fn only_what_cannot_clear_stops_a_seal() {
    let busy = || Error::sqlite("locked".to_string(), Some(5), "busy".to_string());
    assert!(busy().is_retryable());
    assert!(matches!(answer_seal(Ok(())), Reply::Done));
    assert!(matches!(answer_seal(Err(busy())), Reply::Done));
    assert!(matches!(answer(Err(busy())), Reply::Failed(_)));
    assert!(matches!(answer_seal(Err(Error::WriterGone)), Reply::Failed(Error::WriterGone)));
    assert!(matches!(answer(Ok(())), Reply::Done));
    assert!(stops_cleanly(2, 2) && !stops_cleanly(2, 1) && !stops_cleanly(0, 0));
    assert!(drains_on(1, false) && !drains_on(1, true) && !drains_on(0, false));
}

#[test]
fn a_batch_is_encoded_in_the_order_it_is_given() {
    let mut next = Slots::new();
    next.set((1, "b".to_string()), 7);
    let batch = vec![
        ("b".to_string(), vec![row("b", 3), row("b", 9)]),
        ("empty".to_string(), vec![row("empty", 30)]),
        ("a".to_string(), vec![row("a", 5), row("a", 6), row("a", 8)]),
    ];
    let (encoded, observation) = encode_rows(1, &next, &batch, &Lagging).unwrap();
    let seen: Vec<(&str, u64, i64)> =
        encoded.iter().map(|e| (e.stream.as_str(), e.seq, e.meta.last_ts)).collect();
    assert_eq!(seen, vec![("b", 7, 3), ("a", 0, 6)]);
    assert_eq!(observation, Some((6, 60)));
    let e = encode_rows(1, &next, &batch, &Broken).unwrap_err().to_string();
    assert!(e.contains("no anchor"), "{e}");
}
