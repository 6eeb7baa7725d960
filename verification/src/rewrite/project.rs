//! Projection: a segment with only some of its columns.

use arrow::array::ArrayData;
use arrow::datatypes::Field;
use parquet::file::properties::WriterProperties;
use vstd::prelude::*;

use super::parquet_file;
use super::parquet_file::{
    close_writer, give_batch, say, start_writer, Batch, BatchView, Column,
    ColumnView, ReadFault, ReadFaultView, ReadView, SchemaView, SegmentSchema, SegmentWriter,
    WriteFault, WriteFaultView,
};
use super::readable;
use super::readable::{read_schema, read_segment};
use crate::error::{Error, ErrorView};
use crate::seqs;

verus! {

broadcast use crate::seqs::group_views;

/// Which columns of a segment survive a projection.
///
/// Both halves are the caller's: a segment keeps its structural columns
/// unconditionally, but one left holding only those carries no data and is
/// dropped rather than written empty.
pub trait ColumnFilter {
    /// Whether a column is kept. A filter written outside Verus leaves it as it
    /// stands here, where nothing is known of it.
    open spec fn keeps(&self, field: Field) -> bool {
        arbitrary()
    }

    /// Whether a column carries data.
    open spec fn carries_data(&self, field: Field) -> bool {
        arbitrary()
    }

    /// Keep this column in the projected segment?
    fn keep(&self, field: &Field) -> (r: bool)
        ensures
            r == self.keeps(*field),
    ;

    /// Does this column carry data, as opposed to being structural?
    fn is_data(&self, field: &Field) -> (r: bool)
        ensures
            r == self.carries_data(*field),
    ;
}

/// The places of the columns that are kept.
pub open spec fn kept<C: ColumnFilter>(columns: Seq<ColumnView>, filter: C) -> Seq<usize>
    decreases columns.len(),
{
    if columns.len() == 0 {
        Seq::empty()
    } else {
        let head = kept(columns.drop_last(), filter);
        if filter.keeps(columns.last().field) {
            head.push((columns.len() - 1) as usize)
        } else {
            head
        }
    }
}

/// Whether any column that is kept carries data.
pub open spec fn has_data<C: ColumnFilter>(columns: Seq<ColumnView>, filter: C) -> bool {
    exists|i: int|
        0 <= i < columns.len() && filter.keeps((#[trigger] columns[i]).field)
            && filter.carries_data(columns[i].field)
}

/// The columns at places.
pub open spec fn picked_columns(columns: Seq<ColumnView>, places: Seq<usize>) -> Seq<ColumnView>
    decreases places.len(),
{
    if places.len() == 0 {
        Seq::empty()
    } else {
        let head = picked_columns(columns, places.drop_last());
        if places.last() < columns.len() {
            head.push(columns[places.last() as int])
        } else {
            head
        }
    }
}

/// The values at places.
pub open spec fn picked_values(values: Seq<ArrayData>, places: Seq<usize>) -> Seq<ArrayData>
    decreases places.len(),
{
    if places.len() == 0 {
        Seq::empty()
    } else {
        let head = picked_values(values, places.drop_last());
        if places.last() < values.len() {
            head.push(values[places.last() as int])
        } else {
            head
        }
    }
}

/// A batch with the values at places.
pub open spec fn picked_batch(b: BatchView, places: Seq<usize>) -> BatchView {
    BatchView { columns: picked_values(b.columns, places), rows: b.rows }
}

/// What a batch that was not taken says.
pub open spec fn batch_said(e: WriteFaultView) -> ErrorView {
    match e {
        WriteFaultView::Shape(t) => parquet_file::said("failed to project a segment batch"@, t),
        WriteFaultView::Write(t) => parquet_file::said(
            "failed to write a projected segment batch"@,
            t,
        ),
    }
}

/// Writing batches with the values at places, until one is not taken: the
/// batches given, and what stopped it.
pub open spec fn batches_run(
    schema: SchemaView,
    props: WriterProperties,
    places: Seq<usize>,
    batches: Seq<BatchView>,
) -> (Seq<BatchView>, Option<ErrorView>)
    decreases batches.len(),
{
    if batches.len() == 0 {
        (Seq::empty(), None)
    } else {
        let (given, e) = batches_run(schema, props, places, batches.drop_last());
        let batch = picked_batch(batches.last(), places);
        match e {
            Some(_) => (given, e),
            None => match parquet_file::give_refusal(schema, props, given, batch) {
                Some(x) => (given, Some(batch_said(x))),
                None => (given.push(batch), None),
            },
        }
    }
}

/// What a segment whose rows cannot be read at all says.
pub open spec fn read_said(e: ReadFaultView) -> ErrorView {
    match e {
        ReadFaultView::Open(t) => parquet_file::said(
            "failed to open a segment for projection"@,
            t,
        ),
        ReadFaultView::Read(t) => parquet_file::said(
            "failed to read a segment for projection"@,
            t,
        ),
    }
}

/// Writing what was read with the columns at places.
pub open spec fn written(
    schema: SchemaView,
    props: WriterProperties,
    places: Seq<usize>,
    read: ReadView,
) -> Result<Seq<u8>, ErrorView> {
    match parquet_file::start_refusal(schema, props) {
        Some(t) => Err(parquet_file::said("failed to open a projected segment writer"@, t)),
        None => {
            let (given, e) = batches_run(schema, props, places, read.batches);
            match (e, read.failed) {
                (Some(x), _) => Err(x),
                (None, Some(t)) => Err(parquet_file::said("failed to read a segment batch"@, t)),
                (None, None) => match parquet_file::file_of(schema, props, given) {
                    Err(t) => Err(
                        parquet_file::said("failed to finalize a projected segment"@, t),
                    ),
                    Ok(b) => Ok(b),
                },
            }
        },
    }
}

/// A segment with only the columns that are kept, or nothing where none of them
/// carries data.
pub open spec fn projected<C: ColumnFilter>(
    file: Seq<u8>,
    filter: C,
    props: WriterProperties,
) -> Result<Option<Seq<u8>>, ErrorView> {
    match readable::schema_in(file) {
        Err(t) => Err(parquet_file::said("failed to open a segment for projection"@, t)),
        Ok(s) => if !has_data(s.columns, filter) {
            Ok(None)
        } else {
            match readable::rows_in(file) {
                Err(e) => Err(read_said(e)),
                Ok(read) => {
                    let places = kept(s.columns, filter);
                    match written(
                        SchemaView {
                            columns: picked_columns(s.columns, places),
                            metadata: s.metadata,
                        },
                        props,
                        places,
                        read,
                    ) {
                        Ok(b) => Ok(Some(b)),
                        Err(e) => Err(e),
                    }
                },
            }
        },
    }
}

fn keep_places<C: ColumnFilter>(columns: &Vec<Column>, filter: &C) -> (r: (Vec<usize>, bool))
    ensures
        r.0@ == kept(seqs::views(columns@), *filter),
        r.1 == has_data(seqs::views(columns@), *filter),
{
    let ghost all = seqs::views(columns@);
    let mut places: Vec<usize> = Vec::new();
    let mut data: bool = false;
    let mut i: usize = 0;
    while i < columns.len()
        invariant
            i <= columns@.len(),
            all == seqs::views(columns@),
            places@ == kept(all.take(i as int), *filter),
            data == has_data(all.take(i as int), *filter),
        decreases columns@.len() - i,
    {
        proof {
            assert(all.take(i + 1).drop_last() =~= all.take(i as int));
            assert(all.take(i + 1).last() == columns@[i as int]@);
            lemma_has_data(all, *filter, i as int);
        }
        if filter.keep(&columns[i].field) {
            places.push(i);
            if filter.is_data(&columns[i].field) {
                data = true;
            }
        }
        i += 1;
    }
    proof {
        assert(all.take(i as int) =~= all);
    }
    (places, data)
}

proof fn lemma_has_data<C: ColumnFilter>(columns: Seq<ColumnView>, filter: C, n: int)
    requires
        0 <= n < columns.len(),
    ensures
        has_data(columns.take(n + 1), filter) == (has_data(columns.take(n), filter) || (
        filter.keeps(columns[n].field) && filter.carries_data(columns[n].field))),
{
    let a = columns.take(n);
    let b = columns.take(n + 1);
    if has_data(a, filter) {
        let i = choose|i: int|
            0 <= i < a.len() && filter.keeps((#[trigger] a[i]).field) && filter.carries_data(
                a[i].field,
            );
        assert(b[i] == a[i]);
    }
    assert(b[n] == columns[n]);
    if has_data(b, filter) {
        let i = choose|i: int|
            0 <= i < b.len() && filter.keeps((#[trigger] b[i]).field) && filter.carries_data(
                b[i].field,
            );
        if i < n {
            assert(a[i] == b[i]);
        }
    }
}

fn pick_columns(columns: &Vec<Column>, places: &Vec<usize>) -> (r: Vec<Column>)
    ensures
        seqs::views(r@) == picked_columns(seqs::views(columns@), places@),
{
    let ghost all = seqs::views(columns@);
    let mut out: Vec<Column> = Vec::new();
    let mut i: usize = 0;
    proof {
        seqs::lemma_views_empty::<Column>();
    }
    while i < places.len()
        invariant
            i <= places@.len(),
            all == seqs::views(columns@),
            seqs::views(out@) == picked_columns(all, places@.take(i as int)),
        decreases places@.len() - i,
    {
        proof {
            assert(places@.take(i + 1).drop_last() =~= places@.take(i as int));
        }
        let k: usize = places[i];
        if k < columns.len() {
            assert(all[k as int] == columns@[k as int]@);
            out.push(columns[k].clone());
        }
        i += 1;
    }
    proof {
        assert(places@.take(i as int) =~= places@);
    }
    out
}

fn pick_values(values: &Vec<ArrayData>, places: &Vec<usize>) -> (r: Vec<ArrayData>)
    ensures
        r@ == picked_values(values@, places@),
{
    let mut out: Vec<ArrayData> = Vec::new();
    let mut i: usize = 0;
    while i < places.len()
        invariant
            i <= places@.len(),
            out@ == picked_values(values@, places@.take(i as int)),
        decreases places@.len() - i,
    {
        proof {
            assert(places@.take(i + 1).drop_last() =~= places@.take(i as int));
        }
        let k: usize = places[i];
        if k < values.len() {
            out.push(values[k].clone());
        }
        i += 1;
    }
    proof {
        assert(places@.take(i as int) =~= places@);
    }
    out
}

proof fn lemma_batches_stop(
    schema: SchemaView,
    props: WriterProperties,
    places: Seq<usize>,
    batches: Seq<BatchView>,
    n: int,
)
    requires
        0 <= n <= batches.len(),
        batches_run(schema, props, places, batches.take(n)).1 is Some,
    ensures
        batches_run(schema, props, places, batches) == batches_run(
            schema,
            props,
            places,
            batches.take(n),
        ),
    decreases batches.len() - n,
{
    if n == batches.len() {
        assert(batches.take(n) =~= batches);
    } else {
        assert(batches.take(n + 1).drop_last() =~= batches.take(n));
        lemma_batches_stop(schema, props, places, batches, n + 1);
    }
}

fn write_picked(
    schema: &SegmentSchema,
    props: &WriterProperties,
    places: &Vec<usize>,
    read: &parquet_file::Read,
) -> (r: Result<Vec<u8>, Error>)
    ensures
        match written(schema@, *props, places@, read@) {
            Ok(b) => r matches Ok(x) && x@ == b,
            Err(e) => r matches Err(x) && x@ == e,
        },
{
    let mut writer: SegmentWriter = match start_writer(schema, props) {
        Err(t) => {
            return Err(say("failed to open a projected segment writer", t.as_str()));
        },
        Ok(w) => w,
    };
    let ghost all = seqs::views(read.batches@);
    let mut i: usize = 0;
    while i < read.batches.len()
        invariant
            i <= read.batches@.len(),
            all == seqs::views(read.batches@),
            parquet_file::start_refusal(schema@, *props) is None,
            parquet_file::writer_made(writer) == (schema@, *props),
            batches_run(schema@, *props, places@, all.take(i as int)) == (
                parquet_file::writer_given(writer),
                None::<ErrorView>,
            ),
        decreases read.batches@.len() - i,
    {
        proof {
            assert(all.take(i + 1).drop_last() =~= all.take(i as int));
            assert(all.take(i + 1).last() == read.batches@[i as int]@);
        }
        let batch = Batch {
            columns: pick_values(&read.batches[i].columns, places),
            rows: read.batches[i].rows,
        };
        assert(batch@ == picked_batch(read.batches@[i as int]@, places@));
        match give_batch(&mut writer, &batch) {
            Err(e) => {
                proof {
                    lemma_batches_stop(schema@, *props, places@, all, i + 1);
                }
                return Err(
                    match e {
                        WriteFault::Shape(t) => say(
                            "failed to project a segment batch",
                            t.as_str(),
                        ),
                        WriteFault::Write(t) => say(
                            "failed to write a projected segment batch",
                            t.as_str(),
                        ),
                    },
                );
            },
            Ok(_) => {},
        }
        i += 1;
    }
    proof {
        assert(all.take(i as int) =~= all);
    }
    match &read.failed {
        Some(t) => {
            return Err(say("failed to read a segment batch", t.as_str()));
        },
        None => {},
    }
    match close_writer(writer) {
        Err(t) => Err(say("failed to finalize a projected segment", t.as_str())),
        Ok(b) => Ok(b),
    }
}

/// Re-encode one segment with only the columns `keep` accepts, or `None` when
/// nothing but structural columns survive.
///
/// Rows, their timestamps and values are unchanged, so a projected segment
/// reuses its source's catalog entry as it is.
pub fn project_segment_columns<C: ColumnFilter>(
    file: &Vec<u8>,
    keep: &C,
    props: &WriterProperties,
) -> (r: Result<Option<Vec<u8>>, Error>)
    ensures
        match projected(file@, *keep, *props) {
            Ok(b) => r matches Ok(x) && seqs::opt_view(x) == b,
            Err(e) => r matches Err(x) && x@ == e,
        },
{
    let schema = match read_schema(file) {
        Err(t) => {
            return Err(say("failed to open a segment for projection", t.as_str()));
        },
        Ok(s) => s,
    };
    let (places, data) = keep_places(&schema.columns, keep);
    if !data {
        return Ok(None);
    }
    let read = match read_segment(file) {
        Err(ReadFault::Open(t)) => {
            return Err(say("failed to open a segment for projection", t.as_str()));
        },
        Err(ReadFault::Read(t)) => {
            return Err(say("failed to read a segment for projection", t.as_str()));
        },
        Ok(x) => x,
    };
    let columns = pick_columns(&schema.columns, &places);
    let narrowed = SegmentSchema { columns, metadata: schema.metadata };
    match write_picked(&narrowed, props, &places, &read) {
        Err(e) => Err(e),
        Ok(b) => Ok(Some(b)),
    }
}

} // verus!
