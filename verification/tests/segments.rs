//! Which segments are read, and what is said of those that are not.

use std::sync::Arc;

use arrow::array::{
    make_array, Array, ArrayRef, BinaryArray, BooleanArray, Decimal128Array, DictionaryArray,
    FixedSizeBinaryArray, FixedSizeListBuilder, Float64Array, Int32Array, Int32Builder, Int64Array,
    LargeStringArray, ListBuilder, MapBuilder, StringArray, StringBuilder, StringViewArray, StructArray,
    TimestampNanosecondArray, UInt16Array, UInt64Array,
};
use arrow::datatypes::{DataType, Field, Int16Type, Int32Type, Schema};
use arrow::record_batch::RecordBatch;
use parquet::arrow::ArrowWriter;
use parquet::basic::{Compression, Encoding, Repetition, Type as PhysicalType};
use parquet::file::properties::{EnabledStatistics, WriterProperties, WriterVersion};
use parquet::file::writer::SerializedFileWriter;
use parquet::schema::types::{ColumnPath, Type};

use dendro::rewrite::footer::is_bounded;
use dendro::rewrite::headers::is_headed;
use dendro::rewrite::merge::concat_parquet;
use dendro::rewrite::pages::{can_decode, count_texts, is_laid_out, Chunk, Group, Page};
use dendro::rewrite::parquet_file::ReadFault;
use dendro::rewrite::readable::{read_schema, read_segment};
use dendro::rewrite::SchemaPolicy;
use dendro::segment::writer_props;

const NOT_WALKED: &str = "its schema is nested too deep, or is not written as a schema is";
const NOT_READ: &str = "its rows are not in a form that is read";

fn table(columns: Vec<(&str, ArrayRef)>) -> RecordBatch {
    let fields: Vec<Field> = columns
        .iter()
        .map(|(name, a)| Field::new(*name, a.data_type().clone(), a.null_count() > 0))
        .collect();
    let arrays = columns.into_iter().map(|(_, a)| a).collect();
    RecordBatch::try_new(Arc::new(Schema::new(fields)), arrays).unwrap()
}

fn write(batch: &RecordBatch, props: WriterProperties) -> Vec<u8> {
    let mut out = Vec::new();
    let mut writer = ArrowWriter::try_new(&mut out, batch.schema(), Some(props)).unwrap();
    writer.write(batch).unwrap();
    writer.close().unwrap();
    out
}

fn some(n: usize) -> impl Iterator<Item = usize> {
    0..n
}

fn gap(i: usize) -> bool {
    i % 3 == 1
}

/// A column of every kind that is read, with gaps in most of them.
fn everything(n: usize) -> RecordBatch {
    let mut lists = ListBuilder::new(Int32Builder::new());
    let mut texts = ListBuilder::new(ListBuilder::new(StringBuilder::new()));
    let mut pairs = FixedSizeListBuilder::new(Int32Builder::new(), 2);
    let mut maps = MapBuilder::new(None, StringBuilder::new(), Int32Builder::new());
    let mut stacks =
        ListBuilder::new(MapBuilder::new(None, Int32Builder::new(), StringBuilder::new()));
    for i in some(n) {
        for k in 0..i % 4 {
            if k == 2 {
                lists.values().append_null();
            } else {
                lists.values().append_value(k as i32);
            }
            texts.values().values().append_value(format!("{i}.{k}"));
            texts.values().append(k != 1);
            maps.keys().append_value(format!("k{k}"));
            if k == 1 {
                maps.values().append_null();
            } else {
                maps.values().append_value(i as i32);
            }
            for x in 0..k {
                stacks.values().keys().append_value(x as i32);
                stacks.values().values().append_value("v");
            }
            stacks.values().append(k != 2).unwrap();
        }
        maps.append(!gap(i)).unwrap();
        stacks.append(true);
        lists.append(!gap(i));
        texts.append(true);
        pairs.values().append_value(i as i32);
        pairs.values().append_null();
        pairs.append(!gap(i));
    }
    let a: ArrayRef = Arc::new(Int64Array::from_iter(some(n).map(|i| (!gap(i)).then_some(i as i64))));
    let b: ArrayRef = Arc::new(StringArray::from_iter(some(n).map(|i| Some(format!("b{}", i % 2)))));
    let record = StructArray::from(vec![
        (Arc::new(Field::new("a", DataType::Int64, true)), a),
        (Arc::new(Field::new("b", DataType::Utf8, true)), b),
    ]);
    let bytes: Vec<Option<Vec<u8>>> = some(n).map(|i| (!gap(i)).then(|| vec![i as u8; i % 5])).collect();
    let fixed: Vec<Option<Vec<u8>>> = some(n).map(|i| (!gap(i)).then(|| vec![i as u8; 3])).collect();
    let words: Vec<Option<String>> = some(n).map(|i| (!gap(i)).then(|| format!("w{i}"))).collect();
    let tens: Vec<Option<i128>> = some(n).map(|i| (!gap(i)).then_some(i as i128 * 10)).collect();
    let kinds: DictionaryArray<Int32Type> = some(n).map(|i| if i % 2 == 0 { "even" } else { "odd" }).collect();
    let few: DictionaryArray<Int16Type> = some(n).map(|i| (!gap(i)).then_some("x")).collect();
    table(vec![
        ("ts", Arc::new(TimestampNanosecondArray::from_iter_values(some(n).map(|i| 7 * i as i64)))),
        ("whole", Arc::new(Int64Array::from_iter_values(some(n).map(|i| (i as i64 - 3) * i64::from(i32::MAX))))),
        ("small", Arc::new(Int32Array::from_iter(some(n).map(|i| (!gap(i)).then_some(-(i as i32)))))),
        ("tiny", Arc::new(UInt16Array::from_iter_values(some(n).map(|i| i as u16)))),
        ("big", Arc::new(UInt64Array::from_iter_values(some(n).map(|i| u64::MAX - i as u64)))),
        ("real", Arc::new(Float64Array::from_iter(some(n).map(|i| (!gap(i)).then_some(i as f64 / 4.0))))),
        ("yes", Arc::new(BooleanArray::from_iter(some(n).map(|i| (!gap(i)).then_some(i % 2 == 0))))),
        ("word", Arc::new(StringArray::from_iter(words.clone()))),
        ("long", Arc::new(LargeStringArray::from_iter(words.clone()))),
        ("seen", Arc::new(StringViewArray::from_iter(words))),
        ("bytes", Arc::new(BinaryArray::from_iter(bytes))),
        (
            "fixed",
            Arc::new(FixedSizeBinaryArray::try_from_sparse_iter_with_size(fixed.into_iter(), 3).unwrap()),
        ),
        (
            "tens",
            Arc::new(Decimal128Array::from_iter(tens).with_precision_and_scale(30, 2).unwrap()),
        ),
        ("kinds", Arc::new(kinds)),
        ("few", Arc::new(few)),
        ("lists", Arc::new(lists.finish())),
        ("texts", Arc::new(texts.finish())),
        ("pairs", Arc::new(pairs.finish())),
        ("maps", Arc::new(maps.finish())),
        ("stacks", Arc::new(stacks.finish())),
        ("record", Arc::new(record)),
    ])
}

fn forms() -> Vec<(String, WriterProperties)> {
    let mut out = Vec::new();
    for version in [WriterVersion::PARQUET_1_0, WriterVersion::PARQUET_2_0] {
        for dictionary in [false, true] {
            for codec in [Compression::UNCOMPRESSED, Compression::LZ4_RAW] {
                let props = WriterProperties::builder()
                    .set_writer_version(version)
                    .set_dictionary_enabled(dictionary)
                    .set_compression(codec)
                    .set_write_batch_size(8)
                    .set_data_page_row_count_limit(40)
                    .set_dictionary_page_size_limit(60)
                    .build();
                out.push((format!("{version:?} {dictionary} {codec}"), props));
            }
        }
    }
    out.push(("as segments are".to_string(), writer_props()));
    out
}

fn same_rows(file: &Vec<u8>, batch: &RecordBatch, what: &str) {
    let read = read_segment(file).unwrap_or_else(|e| panic!("{what}: {e:?}"));
    assert_eq!(read.failed, None, "{what}");
    assert_eq!(read.batches.iter().map(|b| b.rows).sum::<usize>(), batch.num_rows(), "{what}");
    let mut from = 0;
    for b in &read.batches {
        for (i, data) in b.columns.iter().enumerate() {
            let name = batch.schema().field(i).name().clone();
            let here = make_array(data.clone());
            assert_eq!(*here, *batch.column(i).slice(from, b.rows), "{what}, {name}");
        }
        from += b.rows;
    }
}

/// Every form that the writer has by itself is read: both versions of pages, with and
/// without dictionaries, compressed or not.
#[test]
fn a_segment_is_read_whichever_way_it_was_written() {
    for n in [1, 100] {
        let batch = everything(n);
        for (what, props) in forms() {
            let file = write(&batch, props);
            assert!(is_bounded(&file), "{what}");
            assert_eq!(read_schema(&file).unwrap().columns.len(), batch.num_columns(), "{what}");
            same_rows(&file, &batch, &what);
        }
    }
}

/// Columns of one name, in a file of their own each, so that one is not refused for
/// another.
#[test]
fn each_kind_of_column_is_read_alone() {
    let batch = everything(30);
    for i in 0..batch.num_columns() {
        let one = batch.project(&[i]).unwrap();
        for (what, props) in forms() {
            let what = format!("{} {what}", one.schema().field(0).name());
            same_rows(&write(&one, props), &one, &what);
        }
    }
}

#[test]
fn a_column_of_nothing_but_gaps_is_read() {
    let gaps = table(vec![
        ("whole", Arc::new(Int64Array::from(vec![None; 50]))),
        ("word", Arc::new(StringArray::from(vec![None::<&str>; 50]))),
        ("real", Arc::new(Float64Array::from(vec![None; 50]))),
    ]);
    for (what, props) in forms() {
        same_rows(&write(&gaps, props), &gaps, &what);
    }
}

fn refused(file: &Vec<u8>) -> String {
    match read_segment(file) {
        Err(ReadFault::Read(t)) => t,
        other => panic!("{other:?}"),
    }
}

#[test]
fn an_encoding_that_is_not_read_is_refused() {
    let batch = everything(20);
    for (name, encoding) in [
        ("real", Encoding::BYTE_STREAM_SPLIT),
        ("word", Encoding::DELTA_LENGTH_BYTE_ARRAY),
    ] {
        let i = batch.schema().index_of(name).unwrap();
        let one = batch.project(&[i]).unwrap();
        let props = WriterProperties::builder()
            .set_dictionary_enabled(false)
            .set_column_encoding(ColumnPath::from(name), encoding)
            .build();
        let file = write(&one, props);
        assert_eq!(read_schema(&file).unwrap().columns.len(), 1);
        assert_eq!(refused(&file), NOT_READ);
        let e = concat_parquet(&vec![file], &writer_props(), SchemaPolicy::StopAtChange, "s")
            .unwrap_err();
        assert!(e.to_string().ends_with(NOT_READ), "{e:?}");
    }
}

#[test]
fn a_map_of_lists_is_refused() {
    let mut lists =
        MapBuilder::new(None, StringBuilder::new(), ListBuilder::new(Int32Builder::new()));
    lists.keys().append_value("k");
    lists.values().values().append_value(1);
    lists.values().append(true);
    lists.append(true).unwrap();
    let file = write(&table(vec![("lists", Arc::new(lists.finish()))]), writer_props());
    assert_eq!(read_schema(&file).unwrap().columns.len(), 1);
    assert_eq!(refused(&file), NOT_READ);
}

/// A map merges with another, as any column does.
#[test]
fn maps_are_merged() {
    let batch = everything(9);
    let one = batch.project(&[batch.schema().index_of("maps").unwrap()]).unwrap();
    let blobs = vec![write(&one, writer_props()), write(&one.slice(2, 5), writer_props())];
    let (merged, rows, taken) =
        concat_parquet(&blobs, &writer_props(), SchemaPolicy::StopAtChange, "s").unwrap();
    assert_eq!((rows, taken), (14, 2));
    let read = read_segment(&merged).unwrap();
    let both = make_array(read.batches[0].columns[0].clone());
    assert_eq!(*both.slice(0, 9), *one.column(0).slice(0, 9));
    assert_eq!(*both.slice(9, 5), *one.column(0).slice(2, 5));
}

/// A file with so many groups one inside the other, and a column in the innermost.
fn nested(depth: usize) -> Vec<u8> {
    let mut t = Arc::new(
        Type::primitive_type_builder("x", PhysicalType::INT32)
            .with_repetition(Repetition::REQUIRED)
            .build()
            .unwrap(),
    );
    for _ in 0..depth {
        t = Arc::new(
            Type::group_type_builder("g")
                .with_repetition(Repetition::REQUIRED)
                .with_fields(vec![t])
                .build()
                .unwrap(),
        );
    }
    let mut out = Vec::new();
    let props = Arc::new(WriterProperties::builder().build());
    SerializedFileWriter::new(&mut out, t, props).unwrap().close().unwrap();
    out
}

#[test]
fn a_schema_is_walked_only_so_deep() {
    for depth in [1, 100] {
        assert!(is_bounded(&nested(depth)), "{depth}");
        assert_eq!(read_schema(&nested(depth)).unwrap().columns.len(), 1);
    }
    for depth in [257, 300] {
        let file = nested(depth);
        assert!(!is_bounded(&file), "{depth}");
        assert_eq!(read_schema(&file).unwrap_err(), NOT_WALKED);
        match read_segment(&file) {
            Err(ReadFault::Open(t)) => assert_eq!(t, NOT_WALKED),
            other => panic!("{other:?}"),
        }
    }
}

/// What has no footer is left to the reader to name.
#[test]
fn what_has_no_footer_is_refused_as_no_file() {
    for file in [vec![], b"PAR1".to_vec(), b"nothing of the kind".to_vec()] {
        assert!(is_bounded(&file));
        let t = read_schema(&file).unwrap_err();
        assert!(t != NOT_WALKED && !t.is_empty());
    }
}

/// A file with any byte of it changed is read, or refused with a reason.
#[test]
fn a_file_with_a_byte_changed_is_answered() {
    let small = |version| {
        WriterProperties::builder()
            .set_writer_version(version)
            .set_statistics_enabled(EnabledStatistics::None)
            .set_write_page_header_statistics(false)
            .set_compression(Compression::UNCOMPRESSED)
            .build()
    };
    let batch = everything(7);
    let picks = [
        ["small", "word"],
        ["yes", "lists"],
        ["fixed", "kinds"],
        ["texts", "record"],
        ["maps", "tiny"],
        ["stacks", "pairs"],
    ];
    for version in [WriterVersion::PARQUET_1_0, WriterVersion::PARQUET_2_0] {
        for names in picks {
            let schema = batch.schema();
            let which: Vec<usize> = names.iter().map(|n| schema.index_of(n).unwrap()).collect();
            let file = write(&batch.project(&which).unwrap(), small(version));
            for at in 4..file.len() {
                for x in [0x00, 0x01, 0x7f, 0x80, 0xff] {
                    let mut changed = file.clone();
                    changed[at] = x;
                    match read_segment(&changed) {
                        Ok(_) => {}
                        Err(ReadFault::Open(t) | ReadFault::Read(t)) => assert!(!t.is_empty()),
                    }
                }
            }
        }
    }
}

// ------------------------------------------------------------ pages by themselves

fn chunk(physical: i32, def: i16) -> Chunk {
    Chunk {
        physical,
        width: 0,
        converted: -1,
        optional: def > 0,
        def,
        rep: 0,
        dictionary_at: None,
        data_at: 4,
        size: 10,
    }
}

fn data(coding: i32, body: &[u8]) -> Page {
    Page::Data { values: 8, coding, defs: 3, reps: 3, body: body.to_vec() }
}

fn words(values: &[&str]) -> Page {
    let mut body = Vec::new();
    for v in values {
        body.extend_from_slice(&(v.len() as u32).to_le_bytes());
        body.extend_from_slice(v.as_bytes());
    }
    Page::Dictionary { values: values.len() as u32, coding: 0, body }
}

#[test]
fn levels_are_runs_behind_their_length() {
    let c = chunk(1, 1);
    // Eight ones as one run; then eight packed side by side.
    assert!(can_decode(&c, &vec![data(0, &[2, 0, 0, 0, 16, 1])]));
    assert!(can_decode(&c, &vec![data(0, &[2, 0, 0, 0, 3, 0xff])]));
    assert!(can_decode(&c, &vec![data(0, &[0, 0, 0, 0])]));
    // Longer than the page; cut short; a run that never says how long it is.
    assert!(!can_decode(&c, &vec![data(0, &[3, 0, 0, 0, 16, 1])]));
    assert!(!can_decode(&c, &vec![data(0, &[2, 0, 0])]));
    assert!(!can_decode(&c, &vec![data(0, &[1, 0, 0, 0, 16])]));
    // A run of no number at all.
    assert!(!can_decode(&c, &vec![data(0, &[2, 0, 0, 0, 0, 1])]));
    let endless = [&[12, 0, 0, 0][..], &[0x80; 12]].concat();
    assert!(!can_decode(&c, &vec![data(0, &endless)]));
    // Without levels there is nothing to look at.
    assert!(can_decode(&chunk(1, 0), &vec![data(0, &[0x80; 12])]));
}

#[test]
fn pointers_stay_within_their_dictionary() {
    let c = chunk(6, 0);
    let two = || words(&["a", "bc"]);
    assert!(can_decode(&c, &vec![two(), data(8, &[1, 16, 1])]));
    assert!(can_decode(&c, &vec![two(), data(2, &[1, 16, 1])]));
    assert!(!can_decode(&c, &vec![two(), data(8, &[2, 16, 2])]));
    assert!(!can_decode(&c, &vec![two(), data(8, &[2, 3, 0, 0xff])]));
    assert!(!can_decode(&c, &vec![two(), data(8, &[33, 16, 1])]));
    assert!(!can_decode(&c, &vec![data(8, &[1, 16, 1])]), "there is no dictionary");
    assert!(!can_decode(&c, &vec![two(), two()]), "there are two");
    let cut = Page::Dictionary { values: 1, coding: 0, body: vec![9, 0, 0, 0, 1] };
    assert!(!can_decode(&c, &vec![cut]));
}

#[test]
fn numbers_are_read_as_differences() {
    let c = chunk(2, 0);
    // Blocks of 128 in four parts; two numbers, 5 and 6; the first part a bit wide.
    let mut body = vec![0x80, 1, 4, 2, 10, 2, 1, 0, 0, 0];
    body.extend_from_slice(&[0; 4]);
    assert!(can_decode(&c, &vec![data(5, &body)]));
    assert!(!can_decode(&c, &vec![data(5, &body[..body.len() - 1])]), "a part is cut short");
    assert!(!can_decode(&c, &vec![data(5, &[0x80, 1, 4, 0, 0])]), "there is no number");
    assert!(!can_decode(&c, &vec![data(5, &[0, 4, 2, 10, 2])]), "a block holds nothing");
    assert!(!can_decode(&c, &vec![data(5, &[0x80; 12])]));
    assert!(!can_decode(&chunk(5, 0), &vec![data(5, &body)]), "no whole numbers");
    // Where every value is absent there may be none.
    let absent = [&[2, 0, 0, 0, 16, 0, 0x80, 1, 4, 0, 0][..]].concat();
    assert!(can_decode(&chunk(2, 1), &vec![data(5, &absent)]));
    let present = [&[2, 0, 0, 0, 16, 1, 0x80, 1, 4, 0, 0][..]].concat();
    assert!(!can_decode(&chunk(2, 1), &vec![data(5, &present)]));
}

#[test]
fn shared_bytes_have_lengths_that_are_lengths() {
    let c = chunk(6, 0);
    let one = |first: u8| vec![0x80, 1, 4, 1, first];
    let page = |rest: u8| data(7, &[one(0), one(rest), b"a".to_vec()].concat());
    assert!(can_decode(&c, &vec![page(2)]));
    assert!(!can_decode(&c, &vec![page(1)]), "a length of less than nothing");
    assert!(!can_decode(&c, &vec![data(7, &one(0))]), "the rest is missing");
    assert!(!can_decode(&chunk(1, 0), &vec![page(2)]));
}

#[test]
fn yes_and_no_come_in_runs() {
    let c = chunk(0, 0);
    assert!(can_decode(&c, &vec![data(3, &[2, 0, 0, 0, 3, 0x55])]));
    assert!(!can_decode(&c, &vec![data(3, &[3, 0, 0, 0, 3, 0x55])]));
    assert!(!can_decode(&c, &vec![data(3, &[2, 0])]));
    assert!(!can_decode(&chunk(1, 0), &vec![data(3, &[2, 0, 0, 0, 3, 0x55])]));
}

#[test]
fn the_second_form_says_how_long_its_levels_are() {
    let c = chunk(1, 1);
    let page = |def_len, nulls, coding, body: &[u8]| Page::DataV2 {
        values: 8,
        nulls,
        coding,
        def_len,
        rep_len: 0,
        body: body.to_vec(),
    };
    assert!(can_decode(&c, &vec![page(2, 0, 0, &[16, 1])]));
    assert!(!can_decode(&c, &vec![page(3, 0, 0, &[16, 1])]));
    assert!(!can_decode(&c, &vec![page(2, 9, 0, &[16, 1])]));
    let text = chunk(6, 1);
    assert!(can_decode(&text, &vec![page(2, 7, 0, &[16, 1, 1, 0, 0, 0, 9])]));
    assert!(!can_decode(&text, &vec![page(2, 6, 0, &[16, 1, 1, 0, 0, 0, 9])]), "one is missing");
}

#[test]
fn a_group_of_rows_has_its_columns_in_place() {
    let group = |rows, chunks| Group { rows, chunks };
    assert!(is_laid_out(&group(0, vec![])));
    assert!(!is_laid_out(&group(1, vec![])), "rows of nothing");
    assert!(!is_laid_out(&group(-1, vec![chunk(1, 0)])));
    assert!(is_laid_out(&group(9, vec![chunk(1, 0), chunk(6, 1)])));
    assert!(!is_laid_out(&group(9, vec![Chunk { data_at: -1, ..chunk(1, 0) }])));
    assert!(!is_laid_out(&group(9, vec![Chunk { size: -1, ..chunk(1, 0) }])));
    assert!(!is_laid_out(&group(9, vec![Chunk { dictionary_at: Some(-4), ..chunk(1, 0) }])));
    assert!(!is_laid_out(&group(9, vec![chunk(3, 0)])), "twelve bytes");
    assert!(!is_laid_out(&group(9, vec![chunk(7, 0)])), "no length");
    let wide = Chunk { width: 0x10_0000, ..chunk(7, 0) };
    assert!(is_laid_out(&group(9, vec![wide])));
    assert!(!is_laid_out(&group(9, vec![Chunk { rep: 1, ..wide }])));
    assert!(!is_laid_out(&group(9, vec![Chunk { converted: 5, ..chunk(6, 0) }])));

    let text = Chunk { converted: 0, ..chunk(6, 0) };
    assert_eq!(count_texts(&group(9, vec![text, chunk(6, 0), chunk(1, 0), text])), 2);
}

/// A page of the second form, of two bytes, with the lengths of its levels as they are
/// written.
fn second(defs: &[u8], reps: &[u8]) -> Vec<u8> {
    let head = [0x15, 6, 0x15, 4, 0x15, 4, 0x5c, 0x15, 2, 0x15, 0, 0x15, 2, 0x15, 0, 0x15];
    [&head[..], defs, &[0x15], reps, &[0x12, 0, 0, 7, 7]].concat()
}

#[test]
fn the_lengths_in_a_header_come_to_a_length() {
    let headed = |body: &[u8], size: i64| {
        let c = Chunk { data_at: 1, size, ..chunk(1, 0) };
        let file = [&[9], body].concat();
        is_headed(&file, &Group { rows: 1, chunks: vec![c] })
    };
    let page = second(&[2], &[2]);
    let long = page.len() as i64;
    assert!(headed(&page, long));
    assert!(headed(&[page.clone(), page.clone()].concat(), 2 * long));
    assert!(headed(&page, 0), "a column may have no page");
    assert!(!headed(&page, long - 1), "a page is cut short");
    assert!(!headed(&page, long + 1), "the file ends before the column");
    // The most that a length can be, and then one more.
    let most = [0xfe, 0xff, 0xff, 0xff, 0x0f];
    let wide = second(&most, &[0]);
    assert!(headed(&wide, wide.len() as i64));
    let wider = second(&most, &[2]);
    assert!(!headed(&wider, wider.len() as i64));
    let less = second(&[1], &[2]);
    assert!(!headed(&less, less.len() as i64), "less than nothing");
    assert!(!headed(&[0x15, 0, 0x15, 4], 4), "a header is cut short");
}
