//! Merging segments: how far a run of them reaches, what columns the merged
//! segment has, and its rows.

use arrow::array::ArrayData;
use parquet::file::properties::WriterProperties;
use vstd::prelude::*;
use vstd::string::*;

use super::parquet_file;
use super::parquet_file::{
    as_nullable, close_writer, give_batch, nulls, same_columns, same_field,
    same_schema, say, start_writer, Batch, BatchView, Column, ColumnView, ReadFault, ReadFaultView,
    ReadView, SchemaView, SegmentSchema, SegmentWriter, WriteFault, WriteFaultView,
};
use super::readable;
use super::readable::{read_schema, read_segment};
use crate::error::{Error, ErrorView};
use crate::seqs;
use crate::text::same_text;
use crate::text_map::Entry;

verus! {

broadcast use crate::seqs::group_views;

/// What a merge does when two segments of one stream do not have the same
/// schema.
#[derive(Clone, Copy, Debug, PartialEq, Eq, Structural)]
pub enum SchemaPolicy {
    /// Stop the run at the change: the only choice that is safe without knowing
    /// what a column means.
    StopAtChange,
    /// Merge on the union of the columns: one present in only some of the
    /// segments is null for the rows of those that lacked it. A name that
    /// appears in two segments with any difference still stops the run.
    UnionFields,
}

impl Default for SchemaPolicy {
    fn default() -> (r: SchemaPolicy)
        ensures
            r == SchemaPolicy::StopAtChange,
    {
        SchemaPolicy::StopAtChange
    }
}

// ------------------------------------------------------------ how far a run reaches

/// What is said of a segment that cannot be opened to merge.
pub open spec fn open_refusal(stream: Seq<char>, t: Seq<char>) -> ErrorView {
    parquet_file::said("failed to open a "@ + stream + " segment to merge"@, t)
}

/// The schema of a segment to merge.
pub open spec fn schema_of(file: Seq<u8>, stream: Seq<char>) -> Result<SchemaView, ErrorView> {
    match readable::schema_in(file) {
        Ok(s) => Ok(s),
        Err(t) => Err(open_refusal(stream, t)),
    }
}

/// How far a run of one schema reaches, from where it is known to.
pub open spec fn same_run(
    blobs: Seq<Seq<u8>>,
    first: SchemaView,
    stream: Seq<char>,
    n: nat,
) -> Result<nat, ErrorView>
    decreases blobs.len() - n,
{
    if n >= blobs.len() {
        Ok(n)
    } else {
        match schema_of(blobs[n as int], stream) {
            Err(e) => Err(e),
            Ok(s) => if parquet_file::schemas_alike(s, first) {
                same_run(blobs, first, stream, n + 1)
            } else {
                Ok(n)
            },
        }
    }
}

/// The column of a name.
pub open spec fn column_named(columns: Seq<ColumnView>, name: Seq<char>) -> Option<nat>
    decreases columns.len(),
{
    if columns.len() == 0 {
        None
    } else {
        match column_named(columns.drop_last(), name) {
            Some(i) => Some(i),
            None => if columns.last().name == name {
                Some((columns.len() - 1) as nat)
            } else {
                None
            },
        }
    }
}

/// Whether a column stands under its name with any difference.
pub open spec fn differs(union: Seq<ColumnView>, c: ColumnView) -> bool {
    column_named(union, c.name) matches Some(i) && !parquet_file::alike(
        union[i as int].field,
        c.field,
    )
}

/// Whether any column of a segment stands under its name with a difference.
pub open spec fn conflicts(union: Seq<ColumnView>, columns: Seq<ColumnView>) -> bool {
    exists|i: int| 0 <= i < columns.len() && differs(union, #[trigger] columns[i])
}

/// The columns so far, and those of a segment whose names are new.
pub open spec fn extended(union: Seq<ColumnView>, columns: Seq<ColumnView>) -> Seq<ColumnView>
    decreases columns.len(),
{
    if columns.len() == 0 {
        union
    } else {
        let was = extended(union, columns.drop_last());
        if column_named(was, columns.last().name) is Some {
            was
        } else {
            was.push(columns.last())
        }
    }
}

/// How far a run without a conflict reaches, and the columns it has together,
/// from where it is known to.
pub open spec fn union_run(
    blobs: Seq<Seq<u8>>,
    union: Seq<ColumnView>,
    stream: Seq<char>,
    n: nat,
) -> Result<(nat, Seq<ColumnView>), ErrorView>
    decreases blobs.len() - n,
{
    if n >= blobs.len() {
        Ok((n, union))
    } else {
        match schema_of(blobs[n as int], stream) {
            Err(e) => Err(e),
            Ok(s) => if conflicts(union, s.columns) {
                Ok((n, union))
            } else {
                union_run(blobs, extended(union, s.columns), stream, n + 1)
            },
        }
    }
}

/// How many columns of a list have a name.
pub open spec fn occurrences(columns: Seq<ColumnView>, name: Seq<char>) -> nat {
    columns.filter(|c: ColumnView| c.name == name).len()
}

/// The columns of a segment, where it can be opened.
pub open spec fn columns_of(file: Seq<u8>) -> Seq<ColumnView> {
    match readable::schema_in(file) {
        Ok(s) => s.columns,
        Err(_) => Seq::empty(),
    }
}

/// How many columns of segments have a name.
pub open spec fn seen_in(blobs: Seq<Seq<u8>>, name: Seq<char>) -> nat
    decreases blobs.len(),
{
    if blobs.len() == 0 {
        0
    } else {
        seen_in(blobs.drop_last(), name) + occurrences(columns_of(blobs.last()), name)
    }
}

/// A column of the union: as it is where every segment has it, and nullable
/// where some contribute nulls for it.
pub open spec fn union_column(c: ColumnView, run: Seq<Seq<u8>>) -> ColumnView {
    if seen_in(run, c.name) == run.len() {
        c
    } else {
        ColumnView { field: parquet_file::nullable_field(c.field), ..c }
    }
}

/// The columns of the union of a run.
pub open spec fn union_columns(union: Seq<ColumnView>, run: Seq<Seq<u8>>) -> Seq<ColumnView> {
    union.map_values(|c: ColumnView| union_column(c, run))
}

/// How many of the segments a merge takes, and the schema of what it makes.
pub open spec fn merge_plan(blobs: Seq<Seq<u8>>, policy: SchemaPolicy, stream: Seq<char>) -> Result<
    (nat, SchemaView),
    ErrorView,
> {
    match policy {
        SchemaPolicy::StopAtChange => match schema_of(blobs[0], stream) {
            Err(e) => Err(e),
            Ok(first) => match same_run(blobs, first, stream, 1) {
                Err(e) => Err(e),
                Ok(n) => Ok((n, first)),
            },
        },
        SchemaPolicy::UnionFields => match union_run(blobs, Seq::empty(), stream, 0) {
            Err(e) => Err(e),
            Ok((n, union)) => Ok(
                (
                    n,
                    SchemaView {
                        columns: union_columns(union, blobs.take(n as int)),
                        metadata: Seq::empty(),
                    },
                ),
            ),
        },
    }
}

fn find_column(columns: &Vec<Column>, name: &str) -> (r: Option<usize>)
    ensures
        match r {
            Some(i) => column_named(seqs::views(columns@), name@) == Some(i as nat) && i
                < columns@.len(),
            None => column_named(seqs::views(columns@), name@) is None,
        },
{
    let ghost all = seqs::views(columns@);
    let mut i: usize = 0;
    while i < columns.len()
        invariant
            i <= columns@.len(),
            all == seqs::views(columns@),
            column_named(all.take(i as int), name@) is None,
        decreases columns@.len() - i,
    {
        proof {
            assert(all.take(i + 1).drop_last() =~= all.take(i as int));
            assert(all.take(i + 1).last() == columns@[i as int]@);
        }
        if same_text(columns[i].name.as_str(), name) {
            proof {
                lemma_first_named(all, name@, i as nat);
            }
            return Some(i);
        }
        i += 1;
    }
    proof {
        assert(all.take(i as int) =~= all);
    }
    None
}

proof fn lemma_first_named(columns: Seq<ColumnView>, name: Seq<char>, i: nat)
    requires
        i < columns.len(),
        column_named(columns.take(i as int + 1), name) == Some(i),
    ensures
        column_named(columns, name) == Some(i),
    decreases columns.len() - i,
{
    lemma_named_from(columns, name, i, i + 1);
}

proof fn lemma_named_from(columns: Seq<ColumnView>, name: Seq<char>, i: nat, n: nat)
    requires
        n <= columns.len(),
        column_named(columns.take(n as int), name) == Some(i),
    ensures
        column_named(columns, name) == Some(i),
    decreases columns.len() - n,
{
    if n == columns.len() {
        assert(columns.take(n as int) =~= columns);
    } else {
        assert(columns.take(n as int + 1).drop_last() =~= columns.take(n as int));
        lemma_named_from(columns, name, i, n + 1);
    }
}

/// A found column's place is in the list.
pub proof fn lemma_named_in(columns: Seq<ColumnView>, name: Seq<char>)
    ensures
        column_named(columns, name) matches Some(i) ==> i < columns.len() && columns[i as int].name
            == name,
    decreases columns.len(),
{
    if columns.len() > 0 {
        lemma_named_in(columns.drop_last(), name);
    }
}

fn open_to_merge(file: &Vec<u8>, stream: &str) -> (r: Result<SegmentSchema, Error>)
    ensures
        match schema_of(file@, stream@) {
            Ok(s) => r matches Ok(x) && x@ == s,
            Err(e) => r matches Err(x) && x@ == e,
        },
{
    match read_schema(file) {
        Ok(s) => Ok(s),
        Err(t) => {
            let mut what = String::from_str("failed to open a ");
            what.append(stream);
            what.append(" segment to merge");
            Err(say(what.as_str(), t.as_str()))
        },
    }
}

fn plan_same(blobs: &Vec<Vec<u8>>, stream: &str) -> (r: Result<(usize, SegmentSchema), Error>)
    requires
        blobs@.len() > 0,
    ensures
        match merge_plan(seqs::views(blobs@), SchemaPolicy::StopAtChange, stream@) {
            Err(e) => r matches Err(x) && x@ == e,
            Ok((n, s)) => r matches Ok(p) && p.0 == n && p.1@ == s && 1 <= n <= blobs@.len(),
        },
{
    let ghost all = seqs::views(blobs@);
    assert(all[0] == blobs@[0]@);
    let first = match open_to_merge(&blobs[0], stream) {
        Err(e) => {
            return Err(e);
        },
        Ok(s) => s,
    };
    let mut n: usize = 1;
    while n < blobs.len()
        invariant
            1 <= n <= blobs@.len(),
            all == seqs::views(blobs@),
            same_run(all, first@, stream@, 1) == same_run(all, first@, stream@, n as nat),
            schema_of(all[0], stream@) == Ok::<SchemaView, ErrorView>(first@),
        decreases blobs@.len() - n,
    {
        assert(all[n as int] == blobs@[n as int]@);
        match open_to_merge(&blobs[n], stream) {
            Err(e) => {
                return Err(e);
            },
            Ok(s) => {
                if !same_schema(&s, &first) {
                    return Ok((n, first));
                }
            },
        }
        n += 1;
    }
    Ok((n, first))
}

fn has_conflict(union: &Vec<Column>, columns: &Vec<Column>) -> (r: bool)
    ensures
        r == conflicts(seqs::views(union@), seqs::views(columns@)),
{
    let ghost all = seqs::views(columns@);
    let mut i: usize = 0;
    while i < columns.len()
        invariant
            i <= columns@.len(),
            all == seqs::views(columns@),
            forall|k: int| 0 <= k < i ==> !differs(seqs::views(union@), #[trigger] all[k]),
        decreases columns@.len() - i,
    {
        assert(all[i as int] == columns@[i as int]@);
        match find_column(union, columns[i].name.as_str()) {
            Some(k) => {
                assert(seqs::views(union@)[k as int] == union@[k as int]@);
                if !same_field(&union[k].field, &columns[i].field) {
                    assert(differs(seqs::views(union@), all[i as int]));
                    return true;
                }
            },
            None => {},
        }
        i += 1;
    }
    false
}

fn extend(union: &mut Vec<Column>, columns: &Vec<Column>)
    ensures
        seqs::views(final(union)@) == extended(seqs::views(old(union)@), seqs::views(columns@)),
{
    let ghost was = seqs::views(union@);
    let ghost all = seqs::views(columns@);
    let mut i: usize = 0;
    while i < columns.len()
        invariant
            i <= columns@.len(),
            all == seqs::views(columns@),
            seqs::views(union@) == extended(was, all.take(i as int)),
        decreases columns@.len() - i,
    {
        proof {
            assert(all.take(i + 1).drop_last() =~= all.take(i as int));
            assert(all.take(i + 1).last() == columns@[i as int]@);
        }
        if find_column(union, columns[i].name.as_str()).is_none() {
            union.push(columns[i].clone());
        }
        i += 1;
    }
    proof {
        assert(all.take(i as int) =~= all);
    }
}

/// The schemas of segments, where they can be opened.
pub open spec fn opened(schemas: Seq<SchemaView>, blobs: Seq<Seq<u8>>) -> bool {
    &&& schemas.len() == blobs.len()
    &&& forall|i: int|
        0 <= i < blobs.len() ==> readable::schema_in(blobs[i]) == Ok::<
            SchemaView,
            Seq<char>,
        >(#[trigger] schemas[i])
}

fn count_named(columns: &Vec<Column>, name: &str) -> (r: usize)
    ensures
        r == occurrences(seqs::views(columns@), name@),
{
    let ghost all = seqs::views(columns@);
    let ghost keep = |c: ColumnView| c.name == name@;
    let mut n: usize = 0;
    let mut i: usize = 0;
    proof {
        seqs::lemma_filter_full(all, keep);
    }
    while i < columns.len()
        invariant
            i <= columns@.len(),
            n <= i,
            all == seqs::views(columns@),
            keep == |c: ColumnView| c.name == name@,
            n == all.take(i as int).filter(keep).len(),
        decreases columns@.len() - i,
    {
        proof {
            seqs::lemma_filter_take(all, i as int, keep);
            assert(all[i as int] == columns@[i as int]@);
        }
        if same_text(columns[i].name.as_str(), name) {
            n += 1;
        }
        i += 1;
    }
    n
}

/// Whether a column's name occurs once for every segment of a run.
fn in_every(schemas: &Vec<SegmentSchema>, name: &str, Ghost(run): Ghost<Seq<Seq<u8>>>) -> (r: bool)
    requires
        opened(seqs::views(schemas@), run),
    ensures
        r == (seen_in(run, name@) == run.len()),
{
    let ghost all = seqs::views(schemas@);
    let mut total: usize = 0;
    let mut i: usize = 0;
    while i < schemas.len()
        invariant
            i <= schemas@.len(),
            all == seqs::views(schemas@),
            opened(all, run),
            total <= schemas@.len(),
            total == seen_in(run.take(i as int), name@),
        decreases schemas@.len() - i,
    {
        proof {
            assert(run.take(i + 1).drop_last() =~= run.take(i as int));
            assert(run.take(i + 1).last() == run[i as int]);
            assert(all[i as int] == schemas@[i as int]@);
        }
        let n: usize = count_named(&schemas[i].columns, name);
        if n > schemas.len() - total {
            proof {
                lemma_seen_grows(run, name@, i + 1);
            }
            return false;
        }
        total += n;
        i += 1;
    }
    proof {
        assert(run.take(i as int) =~= run);
    }
    total == schemas.len()
}

proof fn lemma_seen_grows(run: Seq<Seq<u8>>, name: Seq<char>, n: int)
    requires
        0 <= n <= run.len(),
    ensures
        seen_in(run.take(n), name) <= seen_in(run, name),
    decreases run.len() - n,
{
    if n == run.len() {
        assert(run.take(n) =~= run);
    } else {
        assert(run.take(n + 1).drop_last() =~= run.take(n));
        lemma_seen_grows(run, name, n + 1);
    }
}

fn plan_union(blobs: &Vec<Vec<u8>>, stream: &str) -> (r: Result<(usize, SegmentSchema), Error>)
    requires
        blobs@.len() > 0,
    ensures
        match merge_plan(seqs::views(blobs@), SchemaPolicy::UnionFields, stream@) {
            Err(e) => r matches Err(x) && x@ == e,
            Ok((n, s)) => r matches Ok(p) && p.0 == n && p.1@ == s && 1 <= n <= blobs@.len(),
        },
{
    let ghost all = seqs::views(blobs@);
    let mut union: Vec<Column> = Vec::new();
    let mut schemas: Vec<SegmentSchema> = Vec::new();
    let mut stopped: bool = false;
    proof {
        seqs::lemma_views_empty::<Column>();
        seqs::lemma_views_empty::<SegmentSchema>();
    }
    while schemas.len() < blobs.len() && !stopped
        invariant
            schemas@.len() <= blobs@.len(),
            all == seqs::views(blobs@),
            blobs@.len() > 0,
            opened(seqs::views(schemas@), all.take(schemas@.len() as int)),
            schemas@.len() == 0 ==> seqs::views(union@) == Seq::<ColumnView>::empty(),
            stopped ==> schemas@.len() > 0,
            if stopped {
                union_run(all, Seq::empty(), stream@, 0) == Ok::<
                    (nat, Seq<ColumnView>),
                    ErrorView,
                >((schemas@.len(), seqs::views(union@)))
            } else {
                union_run(all, Seq::empty(), stream@, 0) == union_run(
                    all,
                    seqs::views(union@),
                    stream@,
                    schemas@.len(),
                )
            },
        decreases blobs@.len() - schemas@.len(), (if stopped {
            0int
        } else {
            1int
        }),
    {
        let n: usize = schemas.len();
        let ghost before = seqs::views(schemas@);
        assert(all[n as int] == blobs@[n as int]@);
        let s = match open_to_merge(&blobs[n], stream) {
            Err(e) => {
                return Err(e);
            },
            Ok(s) => s,
        };
        if has_conflict(&union, &s.columns) {
            stopped = true;
        } else {
            extend(&mut union, &s.columns);
            let ghost sv = s@;
            schemas.push(s);
            proof {
                let now = seqs::views(schemas@);
                let run = all.take(n + 1);
                assert(now =~= before.push(sv));
                assert forall|i: int| 0 <= i < run.len() implies readable::schema_in(
                    run[i],
                ) == Ok::<SchemaView, Seq<char>>(#[trigger] now[i]) by {
                    if i < n {
                        assert(now[i] == before[i]);
                        assert(all.take(n as int)[i] == run[i]);
                    }
                }
            }
        }
    }
    let n: usize = schemas.len();
    let ghost run = all.take(n as int);
    let ghost found = seqs::views(union@);
    let mut columns: Vec<Column> = Vec::new();
    let mut i: usize = 0;
    proof {
        seqs::lemma_views_empty::<Column>();
        assert(union_columns(found.take(0), run) =~= Seq::empty());
    }
    while i < union.len()
        invariant
            i <= union@.len(),
            found == seqs::views(union@),
            opened(seqs::views(schemas@), run),
            seqs::views(columns@) == union_columns(found.take(i as int), run),
        decreases union@.len() - i,
    {
        let ghost was = seqs::views(columns@);
        let every: bool = in_every(&schemas, union[i].name.as_str(), Ghost(run));
        let c = if every {
            union[i].clone()
        } else {
            Column { name: union[i].name.clone(), field: as_nullable(&union[i].field) }
        };
        proof {
            assert(found[i as int] == union@[i as int]@);
            assert(union_columns(found.take(i + 1), run) =~= was.push(c@));
        }
        columns.push(c);
        i += 1;
    }
    proof {
        assert(found.take(i as int) =~= found);
    }
    let schema = SegmentSchema { columns, metadata: Vec::new() };
    proof {
        seqs::lemma_views_empty::<(String, String)>();
        assert(schema@.metadata =~= Seq::<Entry>::empty());
    }
    Ok((n, schema))
}

// ------------------------------------------------------------ the rows

/// The values of a batch in the order of other columns, nulls for those it
/// lacks.
pub open spec fn widened(
    values: Seq<ArrayData>,
    from: Seq<ColumnView>,
    to: Seq<ColumnView>,
    rows: usize,
) -> Seq<ArrayData> {
    if parquet_file::columns_alike(from, to) {
        values
    } else {
        to.map_values(|c: ColumnView| value_for(values, from, c, rows))
    }
}

/// The values of a column of a batch, or nulls where it lacks it.
pub open spec fn value_for(
    values: Seq<ArrayData>,
    from: Seq<ColumnView>,
    c: ColumnView,
    rows: usize,
) -> ArrayData {
    match column_named(from, c.name) {
        Some(i) if i < values.len() => values[i as int],
        _ => parquet_file::null_values(c.field, rows as nat),
    }
}

/// A batch in the order of other columns.
pub open spec fn widened_batch(
    b: BatchView,
    from: Seq<ColumnView>,
    to: Seq<ColumnView>,
) -> BatchView {
    BatchView { columns: widened(b.columns, from, to, b.rows), rows: b.rows }
}

/// How far the writing of a merged segment has come: the batches it was given,
/// their rows, and what stopped it.
pub struct MergeRun {
    pub given: Seq<BatchView>,
    pub rows: u64,
    pub refusal: Option<ErrorView>,
}

/// Two counts together, as far as they go.
pub open spec fn summed(a: u64, b: usize) -> u64 {
    if a + b <= u64::MAX {
        (a + b) as u64
    } else {
        u64::MAX
    }
}

/// What a batch that was not taken says.
pub open spec fn batch_said(stream: Seq<char>, e: WriteFaultView) -> ErrorView {
    match e {
        WriteFaultView::Shape(t) => parquet_file::said(
            "failed to widen a "@ + stream + " batch"@,
            t,
        ),
        WriteFaultView::Write(t) => parquet_file::said(
            "failed to write a merged "@ + stream + " batch"@,
            t,
        ),
    }
}

/// Writing batches of a segment, until one is not taken.
pub open spec fn batches_run(
    schema: SchemaView,
    props: WriterProperties,
    start: MergeRun,
    from: Seq<ColumnView>,
    batches: Seq<BatchView>,
    stream: Seq<char>,
) -> MergeRun
    decreases batches.len(),
{
    if batches.len() == 0 {
        start
    } else {
        let was = batches_run(schema, props, start, from, batches.drop_last(), stream);
        let batch = widened_batch(batches.last(), from, schema.columns);
        if was.refusal is Some {
            was
        } else {
            match parquet_file::give_refusal(schema, props, was.given, batch) {
                Some(e) => MergeRun { refusal: Some(batch_said(stream, e)), ..was },
                None => MergeRun {
                    given: was.given.push(batch),
                    rows: summed(was.rows, batch.rows),
                    refusal: None,
                },
            }
        }
    }
}

/// What a segment whose rows cannot be read at all says.
pub open spec fn read_said(stream: Seq<char>, e: ReadFaultView) -> ErrorView {
    match e {
        ReadFaultView::Open(t) => open_refusal(stream, t),
        ReadFaultView::Read(t) => parquet_file::said(
            "failed to read a "@ + stream + " segment to merge"@,
            t,
        ),
    }
}

/// Writing the rows of a segment.
pub open spec fn segment_run(
    schema: SchemaView,
    props: WriterProperties,
    start: MergeRun,
    file: Seq<u8>,
    stream: Seq<char>,
) -> MergeRun {
    match readable::rows_in(file) {
        Err(e) => MergeRun { refusal: Some(read_said(stream, e)), ..start },
        Ok(read) => {
            let after = batches_run(
                schema,
                props,
                start,
                columns_of(file),
                read.batches,
                stream,
            );
            match (after.refusal, read.failed) {
                (None, Some(t)) => MergeRun {
                    refusal: Some(
                        parquet_file::said("failed to read a "@ + stream + " batch to merge"@, t),
                    ),
                    ..after
                },
                _ => after,
            }
        },
    }
}

/// Writing the rows of segments, until one cannot be.
pub open spec fn segments_run(
    schema: SchemaView,
    props: WriterProperties,
    files: Seq<Seq<u8>>,
    stream: Seq<char>,
) -> MergeRun
    decreases files.len(),
{
    if files.len() == 0 {
        MergeRun { given: Seq::empty(), rows: 0, refusal: None }
    } else {
        let was = segments_run(schema, props, files.drop_last(), stream);
        if was.refusal is Some {
            was
        } else {
            segment_run(schema, props, was, files.last(), stream)
        }
    }
}

/// Merging the leading run of segments: the merged file, how many rows were
/// written to it, and how many segments they came from.
pub open spec fn merged(
    blobs: Seq<Seq<u8>>,
    props: WriterProperties,
    policy: SchemaPolicy,
    stream: Seq<char>,
) -> Result<(Seq<u8>, u64, nat), ErrorView> {
    match merge_plan(blobs, policy, stream) {
        Err(e) => Err(e),
        Ok((n, schema)) => match parquet_file::start_refusal(schema, props) {
            Some(t) => Err(
                parquet_file::said("failed to open a merged "@ + stream + " writer"@, t),
            ),
            None => {
                let run = segments_run(schema, props, blobs.take(n as int), stream);
                match run.refusal {
                    Some(e) => Err(e),
                    None => match parquet_file::file_of(schema, props, run.given) {
                        Err(t) => Err(
                            parquet_file::said(
                                "failed to finish a merged "@ + stream + " segment"@,
                                t,
                            ),
                        ),
                        Ok(b) => Ok((b, run.rows, n)),
                    },
                }
            },
        },
    }
}

fn phrase(head: &str, stream: &str, tail: &str) -> (r: String)
    ensures
        r@ == head@ + stream@ + tail@,
{
    let mut s = String::from_str(head);
    s.append(stream);
    s.append(tail);
    s
}

fn widen(values: &Vec<ArrayData>, from: &Vec<Column>, to: &Vec<Column>, rows: usize) -> (r: Vec<
    ArrayData,
>)
    requires
        parquet_file::all_storable(seqs::views(to@)),
        rows <= parquet_file::BATCH_ROWS,
    ensures
        r@ == widened(values@, seqs::views(from@), seqs::views(to@), rows),
{
    let ghost source = seqs::views(from@);
    let ghost target = seqs::views(to@);
    let mut out: Vec<ArrayData> = Vec::new();
    let mut i: usize = 0;
    if same_columns(from, to) {
        while i < values.len()
            invariant
                i <= values@.len(),
                out@ == values@.take(i as int),
            decreases values@.len() - i,
        {
            out.push(values[i].clone());
            proof {
                assert(values@.take(i + 1) =~= values@.take(i as int).push(values@[i as int]));
            }
            i += 1;
        }
        proof {
            assert(values@.take(i as int) =~= values@);
        }
        return out;
    }
    let ghost f = |c: ColumnView| value_for(values@, source, c, rows);
    while i < to.len()
        invariant
            i <= to@.len(),
            source == seqs::views(from@),
            target == seqs::views(to@),
            f == |c: ColumnView| value_for(values@, source, c, rows),
            parquet_file::all_storable(target),
            rows <= parquet_file::BATCH_ROWS,
            out@ == target.take(i as int).map_values(f),
        decreases to@.len() - i,
    {
        let ghost was = out@;
        assert(target[i as int] == to@[i as int]@);
        let v = match find_column(from, to[i].name.as_str()) {
            Some(k) => if k < values.len() {
                values[k].clone()
            } else {
                nulls(&to[i].field, rows)
            },
            None => nulls(&to[i].field, rows),
        };
        proof {
            assert(target.take(i + 1).map_values(f) =~= was.push(v));
        }
        out.push(v);
        i += 1;
    }
    proof {
        assert(target.take(i as int) =~= target);
    }
    out
}

fn batch_fault(stream: &str, e: &WriteFault) -> (r: Error)
    ensures
        r@ == batch_said(stream@, e@),
{
    match e {
        WriteFault::Shape(t) => say(phrase("failed to widen a ", stream, " batch").as_str(), t.as_str()),
        WriteFault::Write(t) => say(
            phrase("failed to write a merged ", stream, " batch").as_str(),
            t.as_str(),
        ),
    }
}

fn read_fault(stream: &str, e: &ReadFault) -> (r: Error)
    ensures
        r@ == read_said(stream@, e@),
{
    match e {
        ReadFault::Open(t) => say(
            phrase("failed to open a ", stream, " segment to merge").as_str(),
            t.as_str(),
        ),
        ReadFault::Read(t) => say(
            phrase("failed to read a ", stream, " segment to merge").as_str(),
            t.as_str(),
        ),
    }
}

proof fn lemma_batches_stop(
    schema: SchemaView,
    props: WriterProperties,
    start: MergeRun,
    from: Seq<ColumnView>,
    batches: Seq<BatchView>,
    stream: Seq<char>,
    n: int,
)
    requires
        0 <= n <= batches.len(),
        batches_run(schema, props, start, from, batches.take(n), stream).refusal is Some,
    ensures
        batches_run(schema, props, start, from, batches, stream) == batches_run(
            schema,
            props,
            start,
            from,
            batches.take(n),
            stream,
        ),
    decreases batches.len() - n,
{
    if n == batches.len() {
        assert(batches.take(n) =~= batches);
    } else {
        assert(batches.take(n + 1).drop_last() =~= batches.take(n));
        lemma_batches_stop(schema, props, start, from, batches, stream, n + 1);
    }
}

proof fn lemma_segments_stop(
    schema: SchemaView,
    props: WriterProperties,
    files: Seq<Seq<u8>>,
    stream: Seq<char>,
    n: int,
)
    requires
        0 <= n <= files.len(),
        segments_run(schema, props, files.take(n), stream).refusal is Some,
    ensures
        segments_run(schema, props, files, stream) == segments_run(
            schema,
            props,
            files.take(n),
            stream,
        ),
    decreases files.len() - n,
{
    if n == files.len() {
        assert(files.take(n) =~= files);
    } else {
        assert(files.take(n + 1).drop_last() =~= files.take(n));
        lemma_segments_stop(schema, props, files, stream, n + 1);
    }
}

/// Write the rows of one segment to a merged one.
fn merge_segment(
    writer: &mut SegmentWriter,
    rows: u64,
    schema: &SegmentSchema,
    file: &Vec<u8>,
    stream: &str,
) -> (r: Result<u64, Error>)
    requires
        parquet_file::writer_made(*old(writer)).0 == schema@,
        parquet_file::all_storable(schema@.columns),
    ensures
        ({
            let start = MergeRun {
                given: parquet_file::writer_given(*old(writer)),
                rows,
                refusal: None,
            };
            let props = parquet_file::writer_made(*old(writer)).1;
            let after = segment_run(schema@, props, start, file@, stream@);
            match after.refusal {
                Some(e) => r matches Err(x) && x@ == e,
                None => {
                    &&& r == Ok::<u64, Error>(after.rows)
                    &&& parquet_file::writer_given(*final(writer)) == after.given
                    &&& parquet_file::writer_made(*final(writer))
                        == parquet_file::writer_made(*old(writer))
                },
            }
        }),
{
    let ghost props = parquet_file::writer_made(*writer).1;
    let ghost made = parquet_file::writer_made(*writer);
    let ghost start = MergeRun {
        given: parquet_file::writer_given(*writer),
        rows,
        refusal: None,
    };
    let read = match read_segment(file) {
        Err(e) => {
            return Err(read_fault(stream, &e));
        },
        Ok(x) => x,
    };
    let from: Vec<Column> = match read_schema(file) {
        Ok(s) => s.columns,
        Err(_) => Vec::new(),
    };
    proof {
        seqs::lemma_views_empty::<Column>();
    }
    let ghost source = columns_of(file@);
    let ghost all = seqs::views(read.batches@);
    let mut total: u64 = rows;
    let mut i: usize = 0;
    while i < read.batches.len()
        invariant
            i <= read.batches@.len(),
            all == seqs::views(read.batches@),
            source == seqs::views(from@),
            source == columns_of(file@),
            made == (schema@, props),
            parquet_file::all_storable(schema@.columns),
            forall|k: int|
                0 <= k < read.batches@.len() ==> (#[trigger] read.batches@[k]).rows
                    <= parquet_file::BATCH_ROWS,
            made == parquet_file::writer_made(*writer),
            made == parquet_file::writer_made(*old(writer)),
            start.given == parquet_file::writer_given(*old(writer)),
            start.refusal is None,
            start.rows == rows,
            readable::rows_in(file@) == Ok::<ReadView, ReadFaultView>(read@),
            segment_run(schema@, props, start, file@, stream@) == segment_run(
                schema@,
                parquet_file::writer_made(*old(writer)).1,
                start,
                file@,
                stream@,
            ),
            batches_run(schema@, props, start, source, all.take(i as int), stream@) == (MergeRun {
                given: parquet_file::writer_given(*writer),
                rows: total,
                refusal: None,
            }),
        decreases read.batches@.len() - i,
    {
        proof {
            assert(all.take(i + 1).drop_last() =~= all.take(i as int));
            assert(all.take(i + 1).last() == read.batches@[i as int]@);
        }
        let n: usize = read.batches[i].rows;
        let batch = Batch {
            columns: widen(&read.batches[i].columns, &from, &schema.columns, n),
            rows: n,
        };
        assert(batch@ == widened_batch(read.batches@[i as int]@, source, schema@.columns));
        match give_batch(writer, &batch) {
            Err(e) => {
                proof {
                    lemma_batches_stop(schema@, props, start, source, all, stream@, i + 1);
                }
                return Err(batch_fault(stream, &e));
            },
            Ok(_) => {},
        }
        total =
        match total.checked_add(n as u64) {
            Some(x) => x,
            None => u64::MAX,
        };
        i += 1;
    }
    proof {
        assert(all.take(i as int) =~= all);
    }
    match &read.failed {
        Some(t) => Err(
            say(phrase("failed to read a ", stream, " batch to merge").as_str(), t.as_str()),
        ),
        None => Ok(total),
    }
}

/// Concatenate the leading run of segments that share a schema, or have one
/// together, into one parquet file. Returns its bytes, the rows in it, and how
/// many segments it was made from: fewer than all where the schema changes
/// partway.
pub fn concat_parquet(
    blobs: &Vec<Vec<u8>>,
    props: &WriterProperties,
    policy: SchemaPolicy,
    stream: &str,
) -> (r: Result<(Vec<u8>, u64, usize), Error>)
    requires
        blobs@.len() > 0,
    ensures
        match merged(seqs::views(blobs@), *props, policy, stream@) {
            Err(e) => r matches Err(x) && x@ == e,
            Ok((b, rows, n)) => r matches Ok(x) && x.0@ == b && x.1 == rows && x.2 == n && 1 <= n
                <= blobs@.len(),
        },
{
    let ghost all = seqs::views(blobs@);
    let plan = match policy {
        SchemaPolicy::StopAtChange => plan_same(blobs, stream),
        SchemaPolicy::UnionFields => plan_union(blobs, stream),
    };
    let (n, schema) = match plan {
        Err(e) => {
            return Err(e);
        },
        Ok(p) => p,
    };
    let mut writer = match start_writer(&schema, props) {
        Err(t) => {
            return Err(
                say(phrase("failed to open a merged ", stream, " writer").as_str(), t.as_str()),
            );
        },
        Ok(w) => w,
    };
    let ghost run = all.take(n as int);
    let mut rows: u64 = 0;
    let mut i: usize = 0;
    while i < n
        invariant
            i <= n <= blobs@.len(),
            all == seqs::views(blobs@),
            run == all.take(n as int),
            n >= 1,
            merge_plan(all, policy, stream@) == Ok::<(nat, SchemaView), ErrorView>(
                (n as nat, schema@),
            ),
            parquet_file::start_refusal(schema@, *props) is None,
            parquet_file::writer_made(writer) == (schema@, *props),
            segments_run(schema@, *props, run.take(i as int), stream@) == (MergeRun {
                given: parquet_file::writer_given(writer),
                rows,
                refusal: None,
            }),
        decreases n - i,
    {
        proof {
            assert(run.take(i + 1).drop_last() =~= run.take(i as int));
            assert(run.take(i + 1).last() == blobs@[i as int]@);
        }
        match merge_segment(&mut writer, rows, &schema, &blobs[i], stream) {
            Err(e) => {
                proof {
                    lemma_segments_stop(schema@, *props, run, stream@, i + 1);
                }
                return Err(e);
            },
            Ok(x) => {
                rows = x;
            },
        }
        i += 1;
    }
    proof {
        assert(run.take(i as int) =~= run);
    }
    match close_writer(writer) {
        Err(t) => Err(
            say(phrase("failed to finish a merged ", stream, " segment").as_str(), t.as_str()),
        ),
        Ok(b) => Ok((b, rows, n)),
    }
}

} // verus!
