//! Segments as parquet files: what is asked of the `parquet` and `arrow`
//! crates, and the segments that are written with them.

use std::sync::Arc;

use arrow::array::{make_array, new_null_array, Array, ArrayData};
use arrow::datatypes::{DataType, Field, Schema, TimeUnit};
use arrow::record_batch::{RecordBatch, RecordBatchOptions};
use bytes::Bytes;
use parquet::arrow::arrow_reader::ParquetRecordBatchReaderBuilder;
use parquet::arrow::ArrowWriter;
use parquet::basic::Compression;
use parquet::column::page::Page as ParquetPage;
use parquet::errors::ParquetError;
use parquet::file::properties::WriterProperties;
use parquet::file::reader::FileReader;
use parquet::file::serialized_reader::SerializedFileReader;
use vstd::prelude::*;
use vstd::string::*;

use super::footer;
use super::pages::{Chunk, Group, GroupView, Page, PageView};
use super::readable;
use crate::error::{Error, ErrorView};
use crate::seqs;
use crate::text::same_text;
use crate::text_map::Entry;

verus! {

broadcast use crate::seqs::group_views;

// ------------------------------------------------------------ the values

/// A column's description: `arrow::datatypes::Field`, which is carried through
/// whole and compared.
#[verifier::external_type_specification]
#[verifier::external_body]
pub struct ExField(Field);

/// A column's values: `arrow::array::ArrayData`, which is carried through whole.
#[verifier::external_type_specification]
#[verifier::external_body]
pub struct ExArrayData(ArrayData);

/// What a segment is written with:
/// `parquet::file::properties::WriterProperties`, which is carried through
/// whole.
#[verifier::external_type_specification]
#[verifier::external_body]
pub struct ExWriterProperties(WriterProperties);

/// A column's type: `arrow::datatypes::DataType`, which is looked into a level at
/// a time.
#[verifier::external_type_specification]
#[verifier::external_body]
pub struct ExDataType(DataType);

/// A unit of time: `arrow::datatypes::TimeUnit`.
#[verifier::external_type_specification]
#[verifier::external_body]
pub struct ExTimeUnit(TimeUnit);

/// A page of a column: `parquet::column::page::Page`, which is turned into plain values.
#[verifier::external_type_specification]
#[verifier::external_body]
pub struct ExParquetPage(ParquetPage);

/// `Clone` for `arrow::datatypes::Field` gives the same field.
pub assume_specification[ <Field as Clone>::clone ](f: &Field) -> (r: Field)
    ensures
        r == *f,
;

/// `Clone` for `arrow::array::ArrayData` gives the same values.
pub assume_specification[ <ArrayData as Clone>::clone ](a: &ArrayData) -> (r: ArrayData)
    ensures
        r == *a,
;

/// A column of a segment.
#[derive(Debug)]
pub struct Column {
    /// Its name, which its description carries too.
    pub name: String,
    /// Its description: type, nullability and metadata.
    pub field: Field,
}

/// A column of a segment, as mathematics.
pub struct ColumnView {
    pub name: Seq<char>,
    pub field: Field,
}

impl View for Column {
    type V = ColumnView;

    open spec fn view(&self) -> ColumnView {
        ColumnView { name: self.name@, field: self.field }
    }
}

impl Clone for Column {
    fn clone(&self) -> (r: Column)
        ensures
            r@ == self@,
    {
        Column { name: self.name.clone(), field: self.field.clone() }
    }
}

/// What a segment's file says of its columns, and of itself.
#[derive(Debug)]
pub struct SegmentSchema {
    /// The columns, in order.
    pub columns: Vec<Column>,
    /// The file's own metadata, by key.
    pub metadata: Vec<(String, String)>,
}

/// What a segment's file says, as mathematics.
#[verifier::ext_equal]
pub struct SchemaView {
    pub columns: Seq<ColumnView>,
    pub metadata: Seq<Entry>,
}

impl View for SegmentSchema {
    type V = SchemaView;

    open spec fn view(&self) -> SchemaView {
        SchemaView {
            columns: seqs::views(self.columns@),
            metadata: seqs::views(self.metadata@),
        }
    }
}

/// Some rows of a segment: the values of each column, in order.
#[derive(Debug)]
pub struct Batch {
    /// The columns' values.
    pub columns: Vec<ArrayData>,
    /// How many rows there are.
    pub rows: usize,
}

/// Some rows of a segment, as mathematics.
pub struct BatchView {
    pub columns: Seq<ArrayData>,
    pub rows: usize,
}

impl View for Batch {
    type V = BatchView;

    open spec fn view(&self) -> BatchView {
        BatchView { columns: self.columns@, rows: self.rows }
    }
}

/// What reading a segment's rows gave: the batches, up to one that failed.
#[derive(Debug)]
pub struct Read {
    /// The batches.
    pub batches: Vec<Batch>,
    /// Why the next one could not be read, where one could not.
    pub failed: Option<String>,
}

/// What reading a segment's rows gave, as mathematics.
pub struct ReadView {
    pub batches: Seq<BatchView>,
    pub failed: Option<Seq<char>>,
}

impl View for Read {
    type V = ReadView;

    open spec fn view(&self) -> ReadView {
        ReadView { batches: seqs::views(self.batches@), failed: seqs::opt_view(self.failed) }
    }
}

/// Why a segment's rows could not be read at all.
#[derive(Debug)]
pub enum ReadFault {
    /// It could not be opened.
    Open(String),
    /// It was opened, and its rows could not be read.
    Read(String),
}

/// Why a segment's rows could not be read at all, as mathematics.
pub enum ReadFaultView {
    Open(Seq<char>),
    Read(Seq<char>),
}

impl View for ReadFault {
    type V = ReadFaultView;

    open spec fn view(&self) -> ReadFaultView {
        match *self {
            ReadFault::Open(t) => ReadFaultView::Open(t@),
            ReadFault::Read(t) => ReadFaultView::Read(t@),
        }
    }
}

/// Why rows could not be written.
#[derive(Debug)]
pub enum WriteFault {
    /// Their columns do not make rows of the segment's schema.
    Shape(String),
    /// They do, and could not be written.
    Write(String),
}

/// Why rows could not be written, as mathematics.
pub enum WriteFaultView {
    Shape(Seq<char>),
    Write(Seq<char>),
}

impl View for WriteFault {
    type V = WriteFaultView;

    open spec fn view(&self) -> WriteFaultView {
        match *self {
            WriteFault::Shape(t) => WriteFaultView::Shape(t@),
            WriteFault::Write(t) => WriteFaultView::Write(t@),
        }
    }
}

/// What a type is made of, one level down.
#[derive(Debug)]
pub enum Kind {
    /// Nothing: it is a leaf.
    Leaf,
    /// Lists of a type.
    List(DataType),
    /// Lists of a type, all of one length.
    FixedList(DataType, i32),
    /// A record of types.
    Record(Vec<DataType>),
    /// Lists of entries, by key.
    Entries(DataType),
    /// One type or another.
    Union,
    /// Keys of one type into values of another.
    Dictionary(DataType, DataType),
    /// Runs of values of a type, with their ends in another.
    Runs(DataType, DataType),
}

/// What a type is made of, as mathematics.
pub enum KindView {
    Leaf,
    List(DataType),
    FixedList(DataType, i32),
    Record(Seq<DataType>),
    Entries(DataType),
    Union,
    Dictionary(DataType, DataType),
    Runs(DataType, DataType),
}

impl View for Kind {
    type V = KindView;

    open spec fn view(&self) -> KindView {
        match *self {
            Kind::Leaf => KindView::Leaf,
            Kind::List(t) => KindView::List(t),
            Kind::FixedList(t, n) => KindView::FixedList(t, n),
            Kind::Record(ts) => KindView::Record(ts@),
            Kind::Entries(t) => KindView::Entries(t),
            Kind::Union => KindView::Union,
            Kind::Dictionary(k, v) => KindView::Dictionary(k, v),
            Kind::Runs(r, v) => KindView::Runs(r, v),
        }
    }
}

/// A leaf whose type carries a measure of its own.
#[derive(Debug)]
pub enum Leaf {
    /// Any other.
    Plain,
    /// Bytes, all of one length.
    Bytes(i32),
    /// A time of day in four bytes.
    Time32(TimeUnit),
    /// A time of day in eight bytes.
    Time64(TimeUnit),
    /// A decimal of so many digits in four bytes.
    Decimal32(u8),
    /// A decimal of so many digits in eight bytes.
    Decimal64(u8),
    /// A decimal of so many digits in sixteen bytes.
    Decimal128(u8),
    /// A decimal of so many digits in thirty-two bytes.
    Decimal256(u8),
}

/// A signed integer that the ends of runs are held in.
#[derive(Clone, Copy, Debug, PartialEq, Eq, Structural)]
pub enum Ends {
    /// No such integer.
    Other,
    /// One of two bytes.
    Int16,
    /// One of four bytes.
    Int32,
    /// One of eight bytes.
    Int64,
}

/// A unit of time.
#[derive(Clone, Copy, Debug, PartialEq, Eq, Structural)]
pub enum Unit {
    Second,
    Millisecond,
    Microsecond,
    Nanosecond,
}

/// How a segment's pages are compressed.
#[derive(Clone, Copy, Debug, PartialEq, Eq, Structural)]
pub enum Codec {
    /// Not at all.
    Plain,
    /// With raw LZ4 blocks.
    Lz4Raw,
}

// ------------------------------------------------------------ what parquet answers

/// What `parquet` reads of a file's schema: a function of the file's bytes.
pub uninterp spec fn segment_schema(file: Seq<u8>) -> Result<SchemaView, Seq<char>>;

/// What `parquet` reads of a file's rows: a function of the file's bytes.
pub uninterp spec fn segment_rows(file: Seq<u8>) -> Result<ReadView, ReadFaultView>;

/// What `parquet` reads of a file's groups of rows: a function of the file's bytes.
pub uninterp spec fn segment_groups(file: Seq<u8>) -> Result<Seq<GroupView>, Seq<char>>;

/// What `parquet` reads of a file's pages, by group and by column: a function of the
/// file's bytes.
pub uninterp spec fn segment_pages(file: Seq<u8>) -> Result<
    Seq<Seq<Seq<ParquetPage>>>,
    Seq<char>,
>;

/// What a page of `parquet` holds, as plain values.
pub uninterp spec fn page_in(p: ParquetPage) -> PageView;

/// What `==` of `arrow` answers for two fields: it looks at name, type,
/// nullability and metadata.
pub uninterp spec fn fields_equal(a: Field, b: Field) -> bool;

/// The type of a field.
pub uninterp spec fn field_type(f: Field) -> DataType;

/// The type of some values.
pub uninterp spec fn values_type(a: ArrayData) -> DataType;

/// What a type is made of.
pub uninterp spec fn kind_of(t: DataType) -> KindView;

/// What measure a leaf's type carries.
pub uninterp spec fn leaf_of(t: DataType) -> Leaf;

/// Which integer a type is, of those that the ends of runs are held in.
pub uninterp spec fn ends_of(t: DataType) -> Ends;

/// Whether `arrow` takes a type for the keys of a dictionary: any integer of at
/// most eight bytes.
pub uninterp spec fn key_type(t: DataType) -> bool;

/// Whether `arrow` takes a type for text.
pub uninterp spec fn text_type(t: DataType) -> bool;

/// Whether `arrow` takes a type for bytes.
pub uninterp spec fn bytes_type(t: DataType) -> bool;

/// How many bytes `arrow` has for a value of a type, where all take as many.
pub uninterp spec fn width_of(t: DataType) -> Option<usize>;

/// Which unit of time one of `arrow` is.
pub uninterp spec fn unit_of(u: TimeUnit) -> Unit;

/// What `arrow` makes of a field when it is rebuilt as nullable.
pub uninterp spec fn nullable_field(f: Field) -> Field;

/// What `arrow` makes of so many nulls of a field's type.
pub uninterp spec fn null_values(f: Field, n: nat) -> ArrayData;

/// The properties that `parquet` builds for a codec, with or without
/// dictionaries.
pub uninterp spec fn properties_of(codec: Codec, dictionary: bool) -> WriterProperties;

/// Why `parquet` opens no writer for a schema and properties.
pub uninterp spec fn writer_refusal(schema: SchemaView, props: WriterProperties) -> Option<
    Seq<char>,
>;

/// Why a writer that was given batches does not take one more.
pub uninterp spec fn batch_refusal(
    schema: SchemaView,
    props: WriterProperties,
    given: Seq<BatchView>,
    batch: BatchView,
) -> Option<WriteFaultView>;

/// The file that a writer leaves once it was given batches, or why it leaves
/// none.
pub uninterp spec fn file_of(
    schema: SchemaView,
    props: WriterProperties,
    given: Seq<BatchView>,
) -> Result<Seq<u8>, Seq<char>>;

/// A segment being written: the batches that a `parquet::arrow::ArrowWriter` onto
/// memory has collected, and the schema it was made with. The writer's own type is
/// bounded by `std::io::Write`, of which Verus knows nothing, so it stands in here.
#[verifier::external_body]
pub struct SegmentWriter {
    schema: Arc<Schema>,
    writer: ArrowWriter<Vec<u8>>,
}

/// The most rows that `parquet` puts in one batch when it reads.
pub const BATCH_ROWS: usize = 1024;

/// What a writer was made with.
pub uninterp spec fn writer_made(w: SegmentWriter) -> (SchemaView, WriterProperties);

/// What a writer was given.
pub uninterp spec fn writer_given(w: SegmentWriter) -> Seq<BatchView>;

/// The pages of columns.
pub open spec fn page_lists(of: Seq<Vec<ParquetPage>>) -> Seq<Seq<ParquetPage>> {
    of.map_values(|c: Vec<ParquetPage>| c@)
}

/// The pages of columns, by group.
pub open spec fn page_tables(of: Seq<Vec<Vec<ParquetPage>>>) -> Seq<Seq<Seq<ParquetPage>>> {
    of.map_values(|g: Vec<Vec<ParquetPage>>| page_lists(g@))
}

/// What pages hold, as plain values.
pub open spec fn pages_in(ps: Seq<ParquetPage>) -> Seq<PageView> {
    ps.map_values(|p: ParquetPage| page_in(p))
}

/// `parquet`'s `ParquetRecordBatchReaderBuilder::try_new`, and the `schema` of
/// what it opens: each field under its name, and the file's metadata in the order
/// of its keys. It walks the schema by recursion, so the file's schema is bounded.
#[verifier::external_body]
pub(crate) fn open_schema(file: &Vec<u8>) -> (r: Result<SegmentSchema, String>)
    requires
        footer::bounded(file@),
    ensures
        match segment_schema(file@) {
            Ok(s) => r matches Ok(x) && x@ == s,
            Err(t) => r matches Err(x) && x@ == t,
        },
{
    let input = Bytes::from(file.clone());
    let builder = ParquetRecordBatchReaderBuilder::try_new(input).map_err(|e| e.to_string())?;
    let schema = builder.schema();
    Ok(SegmentSchema {
        columns: schema.fields().iter().map(|f| Column {
            name: f.name().clone(),
            field: f.as_ref().clone(),
        }).collect(),
        metadata: schema.metadata().iter().map(|(k, v)| (k.clone(), v.clone())).collect(),
    })
}

/// `parquet`'s `SerializedFileReader::new`, and what its metadata says of the groups of
/// rows and of their columns.
#[verifier::external_body]
pub(crate) fn read_groups(file: &Vec<u8>) -> (r: Result<Vec<Group>, String>)
    requires
        footer::bounded(file@),
    ensures
        match segment_groups(file@) {
            Ok(gs) => r matches Ok(x) && seqs::views(x@) == gs,
            Err(t) => r matches Err(x) && x@ == t,
        },
{
    let reader = SerializedFileReader::new(Bytes::from(file.clone())).map_err(|e| e.to_string())?;
    let groups = reader.metadata().row_groups().iter();
    Ok(groups.map(|g| Group { rows: g.num_rows(), chunks: g.columns().iter().map(|c| {
        let d = c.column_descr();
        Chunk {
            physical: c.column_type() as i32,
            width: d.type_length(),
            converted: d.converted_type() as i32,
            optional: d.self_type().is_optional(),
            def: d.max_def_level(), rep: d.max_rep_level(),
            dictionary_at: c.dictionary_page_offset(), data_at: c.data_page_offset(),
            size: c.compressed_size(),
        }
    }).collect() }).collect())
}

/// `parquet`'s `SerializedFileReader::new`, and every page that its page readers give,
/// uncompressed. A page reader takes the place of its column for granted, and adds up
/// the lengths in the pages' headers.
#[verifier::external_body]
pub(crate) fn read_pages(file: &Vec<u8>) -> (r: Result<Vec<Vec<Vec<ParquetPage>>>, String>)
    requires
        footer::bounded(file@),
        segment_groups(file@) matches Ok(gs) ==> readable::all_laid_out(gs) && readable::all_headed(
            file@,
            gs,
        ),
    ensures
        match segment_pages(file@) {
            Ok(of) => r matches Ok(x) && page_tables(x@) == of,
            Err(t) => r matches Err(x) && x@ == t,
        },
{
    let reader = SerializedFileReader::new(Bytes::from(file.clone())).map_err(|e| e.to_string())?;
    let groups: Result<_, ParquetError> = (0..reader.num_row_groups()).map(|g| {
        let rows = reader.get_row_group(g)?;
        (0..rows.num_columns()).map(|c| rows.get_column_page_reader(c)?.collect()).collect()
    }).collect();
    groups.map_err(|e| e.to_string())
}

/// The variants of `parquet::column::page::Page`, each with what it holds; encodings by
/// the numbers that `parquet` gives them, which are the format's.
#[verifier::external_body]
pub(crate) fn plain_page(p: &ParquetPage) -> (r: Page)
    ensures
        r@ == page_in(*p),
{
    let body = p.buffer().to_vec();
    match *p {
        ParquetPage::DictionaryPage { num_values: values, encoding: e, .. } =>
            Page::Dictionary { values, coding: e as i32, body },
        ParquetPage::DataPage { num_values: values, encoding: e, def_level_encoding: d, rep_level_encoding: r, .. } =>
            Page::Data { values, coding: e as i32, defs: d as i32, reps: r as i32, body },
        ParquetPage::DataPageV2 { num_values: values, encoding: e, num_nulls: nulls, def_levels_byte_len: def_len, rep_levels_byte_len: rep_len, .. } =>
            Page::DataV2 { values, nulls, coding: e as i32, def_len, rep_len, body },
    }
}

/// `parquet`'s `ParquetRecordBatchReaderBuilder::try_new` and `build`, and the
/// batches of the reader that gives, up to the first that fails. No batch has more
/// rows than the builder's batch size, which is left as it comes. The reader takes
/// some things of a file for granted, and panics where they do not hold, so the file
/// is one that can be read. That there is memory for its rows is left to the machine.
#[verifier::external_body]
pub(crate) fn read_rows(file: &Vec<u8>) -> (r: Result<Read, ReadFault>)
    requires
        readable::readable(file@),
    ensures
        r matches Ok(y) ==> forall|i: int|
            0 <= i < y.batches@.len() ==> (#[trigger] y.batches@[i]).rows <= BATCH_ROWS,
        match segment_rows(file@) {
            Ok(x) => r matches Ok(y) && y@ == x,
            Err(e) => r matches Err(y) && y@ == e,
        },
{
    let input = Bytes::from(file.clone());
    let builder = ParquetRecordBatchReaderBuilder::try_new(input)
        .map_err(|e| ReadFault::Open(e.to_string()))?;
    let reader = builder.build().map_err(|e| ReadFault::Read(e.to_string()))?;
    let mut failed = None;
    let batches = reader
        .map_while(|b| b.map_err(|e| failed = Some(e.to_string())).ok())
        .map(|b| Batch { rows: b.num_rows(), columns: b.columns().iter().map(|c| c.to_data()).collect() })
        .collect();
    Ok(Read { batches, failed })
}

/// `==` of `arrow::datatypes::Field`, under which a field equals itself. It looks
/// at name, type, nullability and metadata and passes over what a field says of
/// its dictionary, so fields that it takes for equal may still differ.
#[verifier::external_body]
pub(crate) fn same_field(a: &Field, b: &Field) -> (r: bool)
    ensures
        r == (*a == *b || fields_equal(*a, *b)),
{
    a == b
}

/// `arrow::datatypes::Field::new`, nullable, with the name, type and metadata of
/// another field.
#[verifier::external_body]
pub(crate) fn as_nullable(f: &Field) -> (r: Field)
    ensures
        r == nullable_field(*f),
{
    Field::new(f.name(), f.data_type().clone(), true).with_metadata(f.metadata().clone())
}

/// `arrow`'s `Field::data_type`.
#[verifier::external_body]
pub(crate) fn type_of_field(f: &Field) -> (r: DataType)
    ensures
        r == field_type(*f),
{
    f.data_type().clone()
}

/// `arrow`'s `ArrayData::data_type`.
#[verifier::external_body]
fn type_of_values(a: &ArrayData) -> (r: DataType)
    ensures
        r == values_type(*a),
{
    a.data_type().clone()
}

/// The variants of `arrow::datatypes::DataType` that have types inside them, each
/// with those types; the four kinds of list with lengths of their own are one.
#[verifier::external_body]
pub(crate) fn kind(t: &DataType) -> (r: Kind)
    ensures
        r@ == kind_of(*t),
{
    let of = |f: &Arc<Field>| f.data_type().clone();
    match t {
        DataType::List(f)
        | DataType::LargeList(f)
        | DataType::ListView(f)
        | DataType::LargeListView(f) => Kind::List(of(f)),
        DataType::FixedSizeList(f, n) => Kind::FixedList(of(f), *n),
        DataType::Struct(fs) => Kind::Record(fs.iter().map(of).collect()),
        DataType::Map(f, _) => Kind::Entries(of(f)),
        DataType::Union(..) => Kind::Union,
        DataType::Dictionary(k, v) => Kind::Dictionary(*k.clone(), *v.clone()),
        DataType::RunEndEncoded(r, v) => Kind::Runs(of(r), of(v)),
        _ => Kind::Leaf
    }
}

/// The variants of `arrow::datatypes::DataType` that carry a length, a unit or a
/// number of digits, and have no types inside them.
#[verifier::external_body]
pub(crate) fn leaf(t: &DataType) -> (r: Leaf)
    ensures
        r == leaf_of(*t),
{
    match t {
        DataType::FixedSizeBinary(n) => Leaf::Bytes(*n),
        DataType::Time32(u) => Leaf::Time32(*u),
        DataType::Time64(u) => Leaf::Time64(*u),
        DataType::Decimal32(p, _) => Leaf::Decimal32(*p),
        DataType::Decimal64(p, _) => Leaf::Decimal64(*p),
        DataType::Decimal128(p, _) => Leaf::Decimal128(*p),
        DataType::Decimal256(p, _) => Leaf::Decimal256(*p),
        _ => Leaf::Plain,
    }
}

/// The variants of `arrow::datatypes::DataType` that are signed integers of two,
/// four and eight bytes.
#[verifier::external_body]
fn ends(t: &DataType) -> (r: Ends)
    ensures
        r == ends_of(*t),
{
    match t {
        DataType::Int16 => Ends::Int16,
        DataType::Int32 => Ends::Int32,
        DataType::Int64 => Ends::Int64,
        _ => Ends::Other,
    }
}

/// `arrow`'s `DataType::is_dictionary_key_type`.
#[verifier::external_body]
fn is_key_type(t: &DataType) -> (r: bool)
    ensures
        r == key_type(*t),
{
    t.is_dictionary_key_type()
}

/// `arrow`'s `DataType::is_string`.
#[verifier::external_body]
pub(crate) fn is_text_type(t: &DataType) -> (r: bool)
    ensures
        r == text_type(*t),
{
    t.is_string()
}

/// `arrow`'s `DataType::is_binary`.
#[verifier::external_body]
pub(crate) fn is_bytes_type(t: &DataType) -> (r: bool)
    ensures
        r == bytes_type(*t),
{
    t.is_binary()
}

/// `arrow`'s `DataType::primitive_width`.
#[verifier::external_body]
pub(crate) fn width_of_type(t: &DataType) -> (r: Option<usize>)
    ensures
        r == width_of(*t),
{
    t.primitive_width()
}

/// The variants of `arrow::datatypes::TimeUnit`.
#[verifier::external_body]
fn unit(u: &TimeUnit) -> (r: Unit)
    ensures
        r == unit_of(*u),
{
    match u {
        TimeUnit::Second => Unit::Second,
        TimeUnit::Millisecond => Unit::Millisecond,
        TimeUnit::Microsecond => Unit::Microsecond,
        TimeUnit::Nanosecond => Unit::Nanosecond,
    }
}

/// `arrow::array::new_null_array` of a field's type, for as many rows as one batch
/// has. That there is memory for them is left to the machine.
#[verifier::external_body]
pub(crate) fn nulls(f: &Field, n: usize) -> (r: ArrayData)
    requires
        storable(*f),
        n <= BATCH_ROWS,
    ensures
        r == null_values(*f, n as nat),
{
    new_null_array(f.data_type(), n).to_data()
}

/// `parquet`'s `WriterProperties::builder`, with a codec and dictionaries on or
/// off, everything else as it comes.
#[verifier::external_body]
fn build_properties(codec: Codec, dictionary: bool) -> (r: WriterProperties)
    ensures
        r == properties_of(codec, dictionary),
{
    let compression = match codec {
        Codec::Plain => Compression::UNCOMPRESSED,
        Codec::Lz4Raw => Compression::LZ4_RAW,
    };
    WriterProperties::builder()
        .set_compression(compression)
        .set_dictionary_enabled(dictionary)
        .build()
}

/// `parquet`'s `ArrowWriter::try_new` onto memory, for a schema of these columns
/// and this metadata.
#[verifier::external_body]
fn open_writer(schema: &SegmentSchema, props: &WriterProperties) -> (r: Result<
    SegmentWriter,
    String,
>)
    requires
        all_storable(schema@.columns),
    ensures
        match writer_refusal(schema@, *props) {
            None => r matches Ok(w) && writer_made(w) == (schema@, *props) && writer_given(w)
                == Seq::<BatchView>::empty(),
            Some(t) => r matches Err(x) && x@ == t,
        },
{
    let fields: Vec<Field> = schema.columns.iter().map(|c| c.field.clone()).collect();
    let metadata: std::collections::HashMap<String, String> = schema.metadata.iter().cloned().collect();
    let schema = Arc::new(Schema::new_with_metadata(fields, metadata));
    ArrowWriter::try_new(Vec::new(), schema.clone(), Some(props.clone()))
        .map(|writer| SegmentWriter { schema, writer })
        .map_err(|e| e.to_string())
}

/// `arrow`'s `RecordBatch::try_new_with_options` over the writer's schema, and
/// `parquet`'s `ArrowWriter::write` of what that gives.
#[verifier::external_body]
fn write_batch(w: &mut SegmentWriter, batch: &Batch) -> (r: Result<(), WriteFault>)
    requires
        all_values_storable(batch@.columns),
    ensures
        writer_made(*final(w)) == writer_made(*old(w)),
        match batch_refusal(
            writer_made(*old(w)).0,
            writer_made(*old(w)).1,
            writer_given(*old(w)),
            batch@,
        ) {
            None => r is Ok && writer_given(*final(w)) == writer_given(*old(w)).push(batch@),
            Some(e) => r matches Err(x) && x@ == e,
        },
{
    let columns = batch.columns.iter().map(|c| make_array(c.clone())).collect();
    let options = RecordBatchOptions::new().with_row_count(Some(batch.rows));
    let rows = RecordBatch::try_new_with_options(w.schema.clone(), columns, &options)
        .map_err(|e| WriteFault::Shape(e.to_string()))?;
    w.writer.write(&rows).map_err(|e| WriteFault::Write(e.to_string()))
}

/// `parquet`'s `ArrowWriter::into_inner`, which finishes the file.
#[verifier::external_body]
pub(crate) fn close_writer(w: SegmentWriter) -> (r: Result<Vec<u8>, String>)
    ensures
        match file_of(writer_made(w).0, writer_made(w).1, writer_given(w)) {
            Ok(b) => r matches Ok(x) && x@ == b,
            Err(t) => r matches Err(x) && x@ == t,
        },
{
    w.writer.into_inner().map_err(|e| e.to_string())
}

// ------------------------------------------------------------ writing what can be stored

/// How many levels of types inside types a column may have. `arrow` and `parquet`
/// walk a type by recursion, so one without a bound would exhaust the stack.
pub const NESTING: u16 = 256;

/// So many rows, each of so many values.
pub open spec fn scaled(rows: u64, n: i32) -> u64 {
    if n < 0 {
        0
    } else if rows * n <= u64::MAX {
        (rows * n) as u64
    } else {
        u64::MAX
    }
}

/// Whether the ends of runs over so many rows can be held in an integer.
pub open spec fn ends_hold(e: Ends, rows: u64) -> bool {
    match e {
        Ends::Other => false,
        Ends::Int16 => rows <= i16::MAX,
        Ends::Int32 => rows <= i32::MAX,
        Ends::Int64 => rows <= i64::MAX,
    }
}

/// Whether a leaf is one that `arrow` lays out and `parquet` has a column for: no
/// bytes without a length, no time of day in a unit that its width does not come
/// in, and no decimal of more digits than its width holds.
pub open spec fn leaf_fits(l: Leaf) -> bool {
    match l {
        Leaf::Plain => true,
        Leaf::Bytes(n) => n > 0,
        Leaf::Time32(u) => unit_of(u) == Unit::Second || unit_of(u) == Unit::Millisecond,
        Leaf::Time64(u) => unit_of(u) == Unit::Microsecond || unit_of(u) == Unit::Nanosecond,
        Leaf::Decimal32(digits) => digits <= 9,
        Leaf::Decimal64(digits) => digits <= 18,
        Leaf::Decimal128(digits) => digits <= 38,
        Leaf::Decimal256(digits) => digits <= 76,
    }
}

/// Whether `arrow` lays out so many values of a type and `parquet` has a column for
/// it: its own form is sound, and so is that of every type inside it, down to a
/// number of levels.
pub open spec fn lays_out(t: DataType, rows: u64, levels: u16) -> bool
    decreases levels, 0nat,
{
    &&& levels > 0
    &&& match kind_of(t) {
        KindView::Leaf => leaf_fits(leaf_of(t)),
        KindView::List(item) => lays_out(item, 0, (levels - 1) as u16),
        KindView::FixedList(item, n) => n >= 0 && lays_out(
            item,
            scaled(rows, n),
            (levels - 1) as u16,
        ),
        KindView::Record(types) => all_lay_out(types, rows, (levels - 1) as u16),
        KindView::Entries(entry) => {
            &&& kind_of(entry) matches KindView::Record(types) && types.len() == 2
            &&& lays_out(entry, 0, (levels - 1) as u16)
        },
        KindView::Union => false,
        KindView::Dictionary(key, value) => key_type(key) && lays_out(
            value,
            0,
            (levels - 1) as u16,
        ),
        KindView::Runs(end, value) => ends_hold(ends_of(end), rows) && lays_out(
            value,
            if rows > 0 {
                1
            } else {
                0
            },
            (levels - 1) as u16,
        ),
    }
}

/// Whether so many values of each of some types are laid out.
pub open spec fn all_lay_out(types: Seq<DataType>, rows: u64, levels: u16) -> bool
    decreases levels, 1nat,
{
    forall|i: int| 0 <= i < types.len() ==> lays_out(#[trigger] types[i], rows, levels)
}

/// Whether a column of a type can be stored, and a batch of nulls be made for it.
pub open spec fn type_storable(t: DataType) -> bool {
    lays_out(t, BATCH_ROWS as u64, NESTING)
}

/// Whether a field's column can be stored.
pub open spec fn storable(f: Field) -> bool {
    type_storable(field_type(f))
}

/// Whether every column has a type that a segment can store.
pub open spec fn all_storable(columns: Seq<ColumnView>) -> bool {
    forall|i: int| 0 <= i < columns.len() ==> storable((#[trigger] columns[i]).field)
}

/// Whether all values have a type that a segment can store.
pub open spec fn all_values_storable(columns: Seq<ArrayData>) -> bool {
    forall|i: int| 0 <= i < columns.len() ==> type_storable(values_type(#[trigger] columns[i]))
}

fn leaf_is_sound(l: &Leaf) -> (r: bool)
    ensures
        r == leaf_fits(*l),
{
    match l {
        Leaf::Plain => true,
        Leaf::Bytes(n) => *n > 0,
        Leaf::Time32(u) => {
            let u = unit(u);
            u == Unit::Second || u == Unit::Millisecond
        },
        Leaf::Time64(u) => {
            let u = unit(u);
            u == Unit::Microsecond || u == Unit::Nanosecond
        },
        Leaf::Decimal32(digits) => *digits <= 9,
        Leaf::Decimal64(digits) => *digits <= 18,
        Leaf::Decimal128(digits) => *digits <= 38,
        Leaf::Decimal256(digits) => *digits <= 76,
    }
}

fn scale(rows: u64, n: i32) -> (r: u64)
    requires
        n >= 0,
    ensures
        r == scaled(rows, n),
{
    match rows.checked_mul(n as u64) {
        Some(x) => x,
        None => u64::MAX,
    }
}

fn ends_are_held(e: Ends, rows: u64) -> (r: bool)
    ensures
        r == ends_hold(e, rows),
{
    match e {
        Ends::Other => false,
        Ends::Int16 => rows <= i16::MAX as u64,
        Ends::Int32 => rows <= i32::MAX as u64,
        Ends::Int64 => rows <= i64::MAX as u64,
    }
}

fn is_laid_out(t: &DataType, rows: u64, levels: u16) -> (r: bool)
    ensures
        r == lays_out(*t, rows, levels),
    decreases levels, 0nat,
{
    if levels == 0 {
        return false;
    }
    let below: u16 = levels - 1;
    match kind(t) {
        Kind::Leaf => leaf_is_sound(&leaf(t)),
        Kind::List(item) => is_laid_out(&item, 0, below),
        Kind::FixedList(item, n) => n >= 0 && is_laid_out(&item, scale(rows, n), below),
        Kind::Record(types) => are_laid_out(&types, rows, below),
        Kind::Entries(entry) => {
            let two = match kind(&entry) {
                Kind::Record(types) => types.len() == 2,
                _ => false,
            };
            two && is_laid_out(&entry, 0, below)
        },
        Kind::Union => false,
        Kind::Dictionary(key, value) => is_key_type(&key) && is_laid_out(&value, 0, below),
        Kind::Runs(end, value) => {
            let each: u64 = if rows > 0 {
                1
            } else {
                0
            };
            ends_are_held(ends(&end), rows) && is_laid_out(&value, each, below)
        },
    }
}

fn are_laid_out(types: &Vec<DataType>, rows: u64, levels: u16) -> (r: bool)
    ensures
        r == all_lay_out(types@, rows, levels),
    decreases levels, 1nat,
{
    let mut i: usize = 0;
    while i < types.len()
        invariant
            i <= types@.len(),
            forall|k: int| 0 <= k < i ==> lays_out(#[trigger] types@[k], rows, levels),
        decreases types@.len() - i,
    {
        if !is_laid_out(&types[i], rows, levels) {
            return false;
        }
        i += 1;
    }
    true
}

fn is_storable(t: &DataType) -> (r: bool)
    ensures
        r == type_storable(*t),
{
    is_laid_out(t, BATCH_ROWS as u64, NESTING)
}

/// What is said of a type that no segment can store.
pub open spec fn no_form() -> Seq<char> {
    "a column has a type that a segment cannot store"@
}

/// Why no segment is started for a schema and properties.
pub open spec fn start_refusal(schema: SchemaView, props: WriterProperties) -> Option<Seq<char>> {
    if all_storable(schema.columns) {
        writer_refusal(schema, props)
    } else {
        Some(no_form())
    }
}

/// Why a segment that was given batches does not take one more.
pub open spec fn give_refusal(
    schema: SchemaView,
    props: WriterProperties,
    given: Seq<BatchView>,
    batch: BatchView,
) -> Option<WriteFaultView> {
    if all_values_storable(batch.columns) {
        batch_refusal(schema, props, given, batch)
    } else {
        Some(WriteFaultView::Shape(no_form()))
    }
}

/// Start a segment of these columns and this metadata.
pub(crate) fn start_writer(schema: &SegmentSchema, props: &WriterProperties) -> (r: Result<
    SegmentWriter,
    String,
>)
    ensures
        match start_refusal(schema@, *props) {
            None => r matches Ok(w) && writer_made(w) == (schema@, *props) && writer_given(w)
                == Seq::<BatchView>::empty(),
            Some(t) => r matches Err(x) && x@ == t,
        },
{
    let ghost all = schema@.columns;
    let mut i: usize = 0;
    while i < schema.columns.len()
        invariant
            i <= schema.columns@.len(),
            all == seqs::views(schema.columns@),
            all == schema@.columns,
            forall|k: int| 0 <= k < i ==> storable((#[trigger] all[k]).field),
        decreases schema.columns@.len() - i,
    {
        assert(all[i as int] == schema.columns@[i as int]@);
        if !is_storable(&type_of_field(&schema.columns[i].field)) {
            return Err(String::from_str("a column has a type that a segment cannot store"));
        }
        i += 1;
    }
    open_writer(schema, props)
}

/// Give a segment a batch of rows.
pub(crate) fn give_batch(w: &mut SegmentWriter, batch: &Batch) -> (r: Result<(), WriteFault>)
    ensures
        match give_refusal(
            writer_made(*old(w)).0,
            writer_made(*old(w)).1,
            writer_given(*old(w)),
            batch@,
        ) {
            None => {
                &&& r is Ok
                &&& writer_made(*final(w)) == writer_made(*old(w))
                &&& writer_given(*final(w)) == writer_given(*old(w)).push(batch@)
            },
            Some(e) => r matches Err(x) && x@ == e,
        },
{
    let mut i: usize = 0;
    while i < batch.columns.len()
        invariant
            i <= batch.columns@.len(),
            *w == *old(w),
            forall|k: int|
                0 <= k < i ==> type_storable(values_type(#[trigger] batch.columns@[k])),
        decreases batch.columns@.len() - i,
    {
        if !is_storable(&type_of_values(&batch.columns[i])) {
            return Err(
                WriteFault::Shape(
                    String::from_str("a column has a type that a segment cannot store"),
                ),
            );
        }
        i += 1;
    }
    write_batch(w, batch)
}

// ------------------------------------------------------------ segments of one batch

/// The properties every segment in an archive is written with: raw LZ4, and no
/// dictionaries.
pub fn writer_props() -> (r: WriterProperties)
    ensures
        r == properties_of(Codec::Lz4Raw, false),
{
    build_properties(Codec::Lz4Raw, false)
}

/// A message, with what a crate said behind it.
pub open spec fn said(what: Seq<char>, text: Seq<char>) -> ErrorView {
    ErrorView::Message(what + ": "@ + text)
}

/// A message, with what a crate said behind it.
pub(crate) fn say(what: &str, text: &str) -> (r: Error)
    ensures
        r@ == said(what@, text@),
{
    let mut s = String::from_str(what);
    s.append(": ");
    s.append(text);
    Error::Message(s)
}

/// What a fault in writing says.
pub open spec fn fault_text(e: WriteFaultView) -> Seq<char> {
    match e {
        WriteFaultView::Shape(t) => t,
        WriteFaultView::Write(t) => t,
    }
}

/// One batch as a segment's file, with the archive's properties.
pub open spec fn batch_encoded(schema: SchemaView, batch: BatchView) -> Result<
    Seq<u8>,
    ErrorView,
> {
    let props = properties_of(Codec::Lz4Raw, false);
    let none: Seq<BatchView> = Seq::empty();
    match start_refusal(schema, props) {
        Some(t) => Err(said("failed to open a segment writer"@, t)),
        None => match give_refusal(schema, props, none, batch) {
            Some(e) => Err(said("failed to write a segment"@, fault_text(e))),
            None => match file_of(schema, props, none.push(batch)) {
                Err(t) => Err(said("failed to finish a segment"@, t)),
                Ok(b) => Ok(b),
            },
        },
    }
}

/// Encode one batch as a segment's parquet bytes, with the archive's writer
/// properties. The usual last step of an encoder.
pub fn encode_batch(schema: &SegmentSchema, batch: &Batch) -> (r: Result<Vec<u8>, Error>)
    ensures
        match batch_encoded(schema@, batch@) {
            Ok(b) => r matches Ok(x) && x@ == b,
            Err(e) => r matches Err(x) && x@ == e,
        },
{
    let mut writer = match start_writer(schema, &writer_props()) {
        Err(t) => {
            return Err(say("failed to open a segment writer", t.as_str()));
        },
        Ok(w) => w,
    };
    match give_batch(&mut writer, batch) {
        Err(WriteFault::Shape(t)) => {
            return Err(say("failed to write a segment", t.as_str()));
        },
        Err(WriteFault::Write(t)) => {
            return Err(say("failed to write a segment", t.as_str()));
        },
        Ok(_) => {},
    }
    match close_writer(writer) {
        Err(t) => Err(say("failed to finish a segment", t.as_str())),
        Ok(b) => Ok(b),
    }
}

// ------------------------------------------------------------ comparing schemas

/// Whether `arrow` takes two fields for equal.
pub open spec fn alike(a: Field, b: Field) -> bool {
    a == b || fields_equal(a, b)
}

/// Whether two lists of columns are alike: the same names in the same order, over
/// fields that are alike.
pub open spec fn columns_alike(a: Seq<ColumnView>, b: Seq<ColumnView>) -> bool {
    &&& a.len() == b.len()
    &&& forall|i: int|
        0 <= i < a.len() ==> (#[trigger] a[i]).name == b[i].name && alike(a[i].field, b[i].field)
}

/// Whether two schemas are alike: columns that are, and the same metadata.
pub open spec fn schemas_alike(a: SchemaView, b: SchemaView) -> bool {
    columns_alike(a.columns, b.columns) && a.metadata == b.metadata
}

/// Whether two schemas are alike.
pub(crate) fn same_schema(a: &SegmentSchema, b: &SegmentSchema) -> (r: bool)
    ensures
        r == schemas_alike(a@, b@),
{
    if !same_columns(&a.columns, &b.columns) || a.metadata.len() != b.metadata.len() {
        proof {
            assert(a@.metadata.len() == a.metadata@.len());
            assert(b@.metadata.len() == b.metadata@.len());
        }
        return false;
    }
    let mut i: usize = 0;
    while i < a.metadata.len()
        invariant
            i <= a.metadata@.len(),
            a.metadata@.len() == b.metadata@.len(),
            forall|k: int| 0 <= k < i ==> a@.metadata[k] == b@.metadata[k],
        decreases a.metadata@.len() - i,
    {
        assert(a@.metadata[i as int] == (a.metadata@[i as int].0@, a.metadata@[i as int].1@));
        assert(b@.metadata[i as int] == (b.metadata@[i as int].0@, b.metadata@[i as int].1@));
        if !same_text(a.metadata[i].0.as_str(), b.metadata[i].0.as_str()) || !same_text(
            a.metadata[i].1.as_str(),
            b.metadata[i].1.as_str(),
        ) {
            return false;
        }
        i += 1;
    }
    assert(a@.metadata =~= b@.metadata);
    true
}

/// Whether two lists of columns are alike.
pub(crate) fn same_columns(a: &Vec<Column>, b: &Vec<Column>) -> (r: bool)
    ensures
        r == columns_alike(seqs::views(a@), seqs::views(b@)),
{
    if a.len() != b.len() {
        assert(seqs::views(a@).len() != seqs::views(b@).len());
        return false;
    }
    let mut i: usize = 0;
    while i < a.len()
        invariant
            i <= a@.len(),
            a@.len() == b@.len(),
            forall|k: int|
                0 <= k < i ==> (#[trigger] seqs::views(a@)[k]).name == seqs::views(b@)[k].name
                    && alike(seqs::views(a@)[k].field, seqs::views(b@)[k].field),
        decreases a@.len() - i,
    {
        assert(seqs::views(a@)[i as int] == a@[i as int]@);
        assert(seqs::views(b@)[i as int] == b@[i as int]@);
        if !same_text(a[i].name.as_str(), b[i].name.as_str()) || !same_field(
            &a[i].field,
            &b[i].field,
        ) {
            return false;
        }
        i += 1;
    }
    true
}

} // verus!
