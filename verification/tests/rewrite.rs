//! Rewriting an archive: compaction, projection and copying.

use std::sync::Arc;

use arrow::array::{Array, Int64Array, StringArray};
use arrow::datatypes::{DataType, Field, TimeUnit, UnionFields, UnionMode};
use arrow::record_batch::RecordBatch;
use bytes::Bytes;
use parquet::arrow::arrow_reader::ParquetRecordBatchReaderBuilder;

use dendro::db::{CallerRow, Db, SegmentMeta, SourceMeta, WalRow};
use dendro::rewrite::merge::concat_parquet;
use dendro::rewrite::parquet_file::{Batch, Column, SegmentSchema};
use dendro::rewrite::{
    accepted_streams, compact, compact_stream, copy_sources_into, project_segment_columns,
    shared_sources, ColumnFilter, CompactSpec, CopySpec, SchemaPolicy,
};
use dendro::segment::{encode_batch, writer_props, Segment, SegmentEncoder};
use dendro::text_map::TextMap;

fn column(name: &str, kind: DataType, nullable: bool) -> Column {
    Column {
        name: name.to_string(),
        field: Field::new(name, kind, nullable),
    }
}

/// A segment of a timestamp column and whichever value columns are named.
fn segment(ts: &[i64], values: &[&str]) -> Vec<u8> {
    let mut columns = vec![column("ts", DataType::Int64, false)];
    let mut data = vec![Int64Array::from(ts.to_vec()).to_data()];
    for name in values {
        columns.push(column(name, DataType::Utf8, false));
        let texts: Vec<String> = ts.iter().map(|t| format!("{name}{t}")).collect();
        data.push(StringArray::from(texts).to_data());
    }
    let schema = SegmentSchema {
        columns,
        metadata: vec![("kind".to_string(), "test".to_string())],
    };
    encode_batch(&schema, &Batch { columns: data, rows: ts.len() }).unwrap()
}

fn read(file: &[u8]) -> Vec<RecordBatch> {
    ParquetRecordBatchReaderBuilder::try_new(Bytes::from(file.to_vec()))
        .unwrap()
        .build()
        .unwrap()
        .map(|b| b.unwrap())
        .collect()
}

fn timestamps(file: &[u8]) -> Vec<i64> {
    read(file)
        .iter()
        .flat_map(|b| {
            let ts = b.column_by_name("ts").unwrap();
            ts.as_any().downcast_ref::<Int64Array>().unwrap().values().to_vec()
        })
        .collect()
}

fn names(file: &[u8]) -> Vec<String> {
    read(file)[0].schema().fields().iter().map(|f| f.name().clone()).collect()
}

fn texts(file: &[u8], name: &str) -> Vec<Option<String>> {
    read(file)
        .iter()
        .flat_map(|b| {
            let c = b.column_by_name(name).unwrap();
            let c = c.as_any().downcast_ref::<StringArray>().unwrap();
            c.iter().map(|v| v.map(|s| s.to_string())).collect::<Vec<_>>()
        })
        .collect()
}

struct Plain;

impl SegmentEncoder for Plain {
    fn encode(&self, _stream: &str, rows: &[WalRow]) -> Result<Option<Segment>, String> {
        let ts: Vec<i64> = rows.iter().map(|r| r.ts).collect();
        Ok(Some(Segment {
            bytes: segment(&ts, &["a"]),
            rows: rows.len() as u64,
            first_ts: ts[0],
            last_ts: ts[ts.len() - 1],
            index: None,
        }))
    }

    fn version(&self) -> Option<&str> {
        None
    }
}

/// Keeps the timestamps and one value column.
struct Only(&'static str);

impl ColumnFilter for Only {
    fn keep(&self, field: &Field) -> bool {
        field.name() == "ts" || field.name() == self.0
    }

    fn is_data(&self, field: &Field) -> bool {
        field.name() != "ts"
    }
}

fn map(entries: &[(&str, &str)]) -> TextMap {
    let mut m = TextMap::new();
    for (k, v) in entries {
        m.insert(k.to_string(), v.to_string());
    }
    m
}

fn seed() -> SourceMeta {
    SourceMeta {
        labels: map(&[("host", "a")]),
        metadata: map(&[("k", "old"), ("z", "1")]),
        clock_anchor_wall_ns: 5,
    }
}

fn row(stream: &str, ts: i64) -> WalRow {
    WalRow {
        stream: stream.to_string(),
        ts,
        wall_offset: 0,
        row: vec![ts as u8],
    }
}

fn put(db: &mut Db, id: i64, seq: u64, ts: &[i64], values: &[&str]) {
    let meta = SegmentMeta {
        rows: ts.len() as u64,
        first_ts: ts[0],
        last_ts: ts[ts.len() - 1],
    };
    db.insert_segment(id, "s", seq, &meta, &segment(ts, values)).unwrap();
}

/// Three segments of one schema, one of another, and a row not yet sealed.
fn archive() -> (Db, i64) {
    let mut db = Db::create_in_memory();
    let id = db.insert_source(&seed()).unwrap();
    put(&mut db, id, 0, &[1, 2], &["a"]);
    put(&mut db, id, 1, &[3], &["a"]);
    put(&mut db, id, 2, &[4, 5], &["a"]);
    put(&mut db, id, 3, &[6], &["a", "b"]);
    db.insert_wal_rows(id, &[row("s", 7)]).unwrap();
    (db, id)
}

#[test]
fn a_segment_is_a_parquet_file_without_dictionaries() {
    let file = segment(&[1, 2], &["a"]);
    assert_eq!(timestamps(&file), vec![1, 2]);
    assert_eq!(texts(&file, "a"), vec![Some("a1".to_string()), Some("a2".to_string())]);
    let reader = ParquetRecordBatchReaderBuilder::try_new(Bytes::from(file)).unwrap();
    assert_eq!(reader.schema().metadata().get("kind").unwrap(), "test");
    let chunk = reader.metadata().row_group(0).column(0);
    assert_eq!(chunk.compression(), parquet::basic::Compression::LZ4_RAW);
    assert!(chunk.dictionary_page_offset().is_none());
}

#[test]
fn columns_that_make_no_rows_are_refused() {
    let schema = SegmentSchema {
        columns: vec![column("ts", DataType::Int64, false)],
        metadata: vec![],
    };
    let texts = StringArray::from(vec!["x"]).to_data();
    let e = encode_batch(&schema, &Batch { columns: vec![texts], rows: 1 }).unwrap_err();
    assert!(e.to_string().starts_with("failed to write a segment: "), "{e:?}");
}

#[test]
fn a_type_that_no_segment_can_store_is_refused() {
    let values = Int64Array::from(vec![9]).to_data();
    for kind in [
        DataType::Union(UnionFields::empty(), UnionMode::Sparse),
        DataType::Time32(TimeUnit::Nanosecond),
        DataType::List(Arc::new(Field::new("item", DataType::FixedSizeBinary(-1), true))),
        DataType::Dictionary(Box::new(DataType::Utf8), Box::new(DataType::Utf8)),
    ] {
        let schema = SegmentSchema { columns: vec![column("x", kind, true)], metadata: vec![] };
        let e = encode_batch(&schema, &Batch { columns: vec![values.clone()], rows: 1 });
        let e = e.unwrap_err().to_string();
        assert_eq!(
            e,
            "failed to open a segment writer: a column has a type that a segment cannot store"
        );
    }
}

#[test]
fn a_merge_holds_every_row_in_order() {
    let blobs = vec![segment(&[1, 2], &["a"]), segment(&[3], &["a"])];
    let (file, rows, taken) =
        concat_parquet(&blobs, &writer_props(), SchemaPolicy::StopAtChange, "s").unwrap();
    assert_eq!((rows, taken), (3, 2));
    assert_eq!(timestamps(&file), vec![1, 2, 3]);
    assert_eq!(names(&file), vec!["ts", "a"]);
}

#[test]
fn a_merge_stops_at_a_change_of_schema() {
    let blobs = vec![segment(&[1], &["a"]), segment(&[2], &["b"]), segment(&[3], &["a"])];
    let (file, rows, taken) =
        concat_parquet(&blobs, &writer_props(), SchemaPolicy::StopAtChange, "s").unwrap();
    assert_eq!((rows, taken), (1, 1));
    assert_eq!(timestamps(&file), vec![1]);
}

#[test]
fn a_union_is_null_where_a_column_was_missing() {
    let blobs = vec![segment(&[1, 2], &["a"]), segment(&[3], &["b"])];
    let (file, rows, taken) =
        concat_parquet(&blobs, &writer_props(), SchemaPolicy::UnionFields, "s").unwrap();
    assert_eq!((rows, taken), (3, 2));
    assert_eq!(names(&file), vec!["ts", "a", "b"]);
    let text = |s: &str| Some(s.to_string());
    assert_eq!(texts(&file, "a"), vec![text("a1"), text("a2"), None]);
    assert_eq!(texts(&file, "b"), vec![None, None, text("b3")]);
    let schema = read(&file)[0].schema();
    assert!(!schema.field(0).is_nullable(), "every segment has it");
    assert!(schema.field(1).is_nullable() && schema.field(2).is_nullable());
}

#[test]
fn a_union_never_fuses_columns_that_differ() {
    let schema = SegmentSchema {
        columns: vec![column("ts", DataType::Int64, false), column("a", DataType::Int64, false)],
        metadata: vec![],
    };
    let values = Int64Array::from(vec![9]).to_data();
    let batch = Batch { columns: vec![values.clone(), values], rows: 1 };
    let other = encode_batch(&schema, &batch).unwrap();
    let blobs = vec![segment(&[1], &["a"]), other];
    let (_, rows, taken) =
        concat_parquet(&blobs, &writer_props(), SchemaPolicy::UnionFields, "s").unwrap();
    assert_eq!((rows, taken), (1, 1));
}

#[test]
fn what_is_no_parquet_cannot_be_merged() {
    let blobs = vec![b"nothing of the kind".to_vec()];
    let e = concat_parquet(&blobs, &writer_props(), SchemaPolicy::StopAtChange, "cpu").unwrap_err();
    assert!(e.to_string().starts_with("failed to open a cpu segment to merge: "), "{e:?}");
}

#[test]
fn compaction_merges_up_to_the_rows_asked_for() {
    let (mut db, id) = archive();
    let done = compact(&mut db, &CompactSpec::to_rows(100)).unwrap();
    assert_eq!((done.before, done.after, done.merges), (4, 2, 1));
    let segments = db.read_segments(id, "s");
    assert_eq!(segments.len(), 2);
    assert_eq!(timestamps(&segments[0].bytes), vec![1, 2, 3, 4, 5]);
    assert_eq!(segments[0].meta, SegmentMeta { rows: 5, first_ts: 1, last_ts: 5 });
    assert_eq!(timestamps(&segments[1].bytes), vec![6]);
    let live: Vec<i64> = db.live_wal(id, "s").iter().map(|r| r.ts).collect();
    assert_eq!(live, vec![7], "the tail is not a segment's");
}

#[test]
fn compaction_on_the_union_reaches_further() {
    let (mut db, id) = archive();
    let done = compact_stream(&mut db, id, "s", &CompactSpec::to_rows(100).unioning_fields()).unwrap();
    assert_eq!((done.before, done.after, done.merges), (4, 1, 1));
    let segments = db.read_segments(id, "s");
    assert_eq!(timestamps(&segments[0].bytes), vec![1, 2, 3, 4, 5, 6]);
}

#[test]
fn a_small_target_merges_less() {
    let (mut db, id) = archive();
    let done = compact_stream(&mut db, id, "s", &CompactSpec::to_rows(3)).unwrap();
    let rows: Vec<u64> = db.read_segment_meta(id, "s").iter().map(|(_, m)| m.rows).collect();
    assert_eq!(rows.iter().sum::<u64>(), 6);
    assert!(rows.iter().all(|n| *n <= 3), "{rows:?}");
    assert_eq!(done.after, rows.len());
}

#[test]
fn a_projection_keeps_what_the_filter_keeps() {
    let file = segment(&[1, 2], &["a", "b"]);
    let kept = project_segment_columns(&file, &Only("b"), &writer_props()).unwrap().unwrap();
    assert_eq!(names(&kept), vec!["ts", "b"]);
    assert_eq!(timestamps(&kept), vec![1, 2]);
    assert_eq!(texts(&kept, "b"), vec![Some("b1".to_string()), Some("b2".to_string())]);
    // Nothing but structural columns is no segment.
    assert!(project_segment_columns(&file, &Only("c"), &writer_props()).unwrap().is_none());
}

#[test]
fn a_copy_passes_segments_through() {
    let (db, id) = archive();
    let mut to = Db::create_in_memory();
    let mut tx = to.begin().unwrap();
    let copied = copy_sources_into(&db, &mut tx, &CopySpec::<Only>::everything(), &Plain).unwrap();
    to.commit(tx);
    assert_eq!(copied, 1);
    let source = &to.read_sources()[0];
    assert_eq!(source.meta, seed());
    assert_eq!(source.uuid, db.read_source(id).unwrap().uuid);
    let segments = to.read_segments(source.id, "s");
    assert_eq!(segments.len(), 5, "the tail became a segment");
    for (i, s) in db.read_segments(id, "s").iter().enumerate() {
        assert_eq!(segments[i].bytes, s.bytes);
    }
    assert_eq!(timestamps(&segments[4].bytes), vec![7]);
    assert!(to.live_wal(source.id, "s").is_empty());
}

#[test]
fn a_copy_is_bounded_trimmed_and_projected() {
    let (mut db, id) = archive();
    db.insert_wal_rows(id, &[row("t", 4)]).unwrap();
    db.transaction(|mut tx| {
        let r = tx
            .insert_caller_row(id, "s", &CallerRow { ts: 4, blob: vec![1] })
            .and_then(|_| tx.insert_caller_row(id, "s", &CallerRow { ts: 9, blob: vec![2] }))
            .and_then(|_| tx.insert_clock_offset(id, 4, 44));
        (tx, r)
    })
    .unwrap();
    let filter = Only("b");
    let spec = CopySpec {
        start: 3,
        end: 6,
        keep_streams: Some(accepted_streams(&db, |s: &str| s == "s")),
        metadata_extra: Some(map(&[("k", "new")])),
        keep_columns: Some(&filter),
        writer_props: None,
    };
    let mut to = Db::create_in_memory();
    let mut tx = to.begin().unwrap();
    copy_sources_into(&db, &mut tx, &spec, &Plain).unwrap();
    to.commit(tx);
    let source = &to.read_sources()[0];
    assert_eq!(source.meta.metadata, map(&[("k", "new"), ("z", "1")]));
    assert_eq!(to.all_streams(source.id), vec!["s"]);
    let segments = to.read_segments(source.id, "s");
    assert_eq!(segments.len(), 1, "those without the column carry no data");
    assert_eq!(timestamps(&segments[0].bytes), vec![6]);
    assert_eq!(names(&segments[0].bytes), vec!["ts", "b"]);
    // A caller's rows and the observations are the source's, not a window's.
    assert_eq!(to.read_caller_rows(source.id, "s", i64::MIN, i64::MAX).len(), 2);
    assert_eq!(to.read_clock_offsets(source.id), vec![(4, 44)]);
}

#[test]
fn a_source_that_both_hold_is_named() {
    let (db, _) = archive();
    let mut to = Db::create_in_memory();
    assert!(shared_sources(&db, &to).is_empty());
    let mut tx = to.begin().unwrap();
    tx.insert_source_with_uuid(&seed(), Some("elsewhere".to_string())).unwrap();
    to.commit(tx);
    assert!(shared_sources(&db, &to).is_empty());

    let mut held = Db::create_in_memory();
    let mut tx = held.begin().unwrap();
    tx.insert_source_with_uuid(&seed(), Some("elsewhere".to_string())).unwrap();
    held.commit(tx);
    assert_eq!(shared_sources(&held, &to), vec!["elsewhere"]);
}

fn field(kind: DataType) -> Arc<Field> {
    Arc::new(Field::new("item", kind, true))
}

fn dictionary(of: DataType) -> DataType {
    DataType::Dictionary(Box::new(DataType::Int32), Box::new(of))
}

fn pairs(fields: Vec<Arc<Field>>) -> DataType {
    DataType::Map(field(DataType::Struct(fields.into())), false)
}

fn opens(kind: DataType) -> Result<Vec<u8>, String> {
    let schema = SegmentSchema { columns: vec![column("x", kind.clone(), true)], metadata: vec![] };
    let values = Int64Array::from(Vec::<i64>::new()).to_data();
    encode_batch(&schema, &Batch { columns: vec![values], rows: 0 }).map_err(|e| e.to_string())
}

/// What a type holds inside is looked into, however deep.
#[test]
fn a_type_is_refused_for_what_it_holds_inside() {
    let union = DataType::Union(UnionFields::empty(), UnionMode::Sparse);
    let key = Arc::new(Field::new("key", DataType::Utf8, false));
    let runs = |end: DataType| {
        DataType::RunEndEncoded(Arc::new(Field::new("ends", end, false)), field(DataType::Int8))
    };
    let mut deep = DataType::Int8;
    for _ in 0..300 {
        deep = DataType::List(field(deep));
    }
    for kind in [
        dictionary(DataType::Time32(TimeUnit::Microsecond)),
        dictionary(dictionary(DataType::Time64(TimeUnit::Second))),
        dictionary(union.clone()),
        DataType::Struct(vec![field(union)].into()),
        pairs(vec![]),
        pairs(vec![key.clone()]),
        pairs(vec![key.clone(), field(DataType::Int8), field(DataType::Int16)]),
        DataType::Map(field(DataType::Int8), false),
        DataType::FixedSizeBinary(0),
        DataType::FixedSizeList(field(DataType::Int8), -1),
        DataType::Decimal32(19, 0),
        DataType::Decimal64(19, 0),
        DataType::Decimal128(39, 0),
        DataType::Decimal256(77, 0),
        runs(DataType::Int8),
        DataType::FixedSizeList(field(runs(DataType::Int16)), 100),
        deep,
    ] {
        assert_eq!(
            opens(kind.clone()).unwrap_err(),
            "failed to open a segment writer: a column has a type that a segment cannot store",
            "{kind}"
        );
    }
    for kind in [
        dictionary(dictionary(DataType::Utf8)),
        dictionary(DataType::Time32(TimeUnit::Second)),
        pairs(vec![key, field(DataType::Int8)]),
        DataType::FixedSizeBinary(1),
        DataType::Decimal128(38, 0),
        runs(DataType::Int16),
        DataType::FixedSizeList(field(runs(DataType::Int64)), 100),
        DataType::LargeListView(field(DataType::BinaryView)),
    ] {
        let e = opens(kind.clone()).unwrap_err();
        assert!(e.starts_with("failed to write a segment: "), "{kind}: {e}");
    }
}

/// A pass says that it merged nothing exactly where nothing changed.
#[test]
fn a_pass_that_merges_nothing_changes_nothing() {
    let (mut db, id) = archive();
    let before = db.read_segments(id, "s");
    let done = compact_stream(&mut db, id, "s", &CompactSpec::to_rows(0)).unwrap();
    assert_eq!((done.before, done.after, done.merges), (4, 4, 0));
    assert_eq!(db.read_segments(id, "s"), before);

    let done = compact_stream(&mut db, id, "s", &CompactSpec::to_rows(100)).unwrap();
    assert!(done.merges > 0 && done.after < done.before);
    let after = db.read_segments(id, "s");
    assert_eq!(after[0].meta.first_ts, before[0].meta.first_ts);
    assert_eq!(after[after.len() - 1].meta.last_ts, before[3].meta.last_ts);
    assert_eq!(after[0].caller_index, None);
    let rows = |segments: &[dendro::db::SegmentRow]| -> Vec<i64> {
        segments.iter().flat_map(|s| timestamps(&s.bytes)).collect()
    };
    assert_eq!(rows(&after), rows(&before));
}
