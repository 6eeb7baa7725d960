//! When segments can be merged, and when a segment can be projected.

use parquet::file::properties::WriterProperties;
use vstd::prelude::*;

use super::laws;
use super::merge;
use super::merge::{MergeRun, SchemaPolicy};
use super::parquet_file;
use super::parquet_file::{BatchView, ColumnView, SchemaView};
use super::project;
use super::project::ColumnFilter;
use super::readable;

verus! {

// ------------------------------------------------------------ a merge

/// Whether a batch, brought to the columns of a schema, is taken behind whatever was
/// written before it.
pub open spec fn always_taken(
    schema: SchemaView,
    props: WriterProperties,
    from: Seq<ColumnView>,
    b: BatchView,
) -> bool {
    forall|given: Seq<BatchView>| #[trigger]
        parquet_file::give_refusal(
            schema,
            props,
            given,
            merge::widened_batch(b, from, schema.columns),
        ) is None
}

/// Whether a segment reads to its end, and each of its batches is taken.
pub open spec fn taken_whole(schema: SchemaView, props: WriterProperties, file: Seq<u8>) -> bool {
    readable::rows_in(file) matches Ok(read) && read.failed is None && forall|j: int|
        0 <= j < read.batches.len() ==> always_taken(
            schema,
            props,
            merge::columns_of(file),
            #[trigger] read.batches[j],
        )
}

proof fn lemma_batches_taken(
    schema: SchemaView,
    props: WriterProperties,
    start: MergeRun,
    from: Seq<ColumnView>,
    batches: Seq<BatchView>,
    stream: Seq<char>,
)
    requires
        start.refusal is None,
        forall|j: int|
            0 <= j < batches.len() ==> always_taken(schema, props, from, #[trigger] batches[j]),
    ensures
        merge::batches_run(schema, props, start, from, batches, stream).refusal is None,
    decreases batches.len(),
{
    if batches.len() > 0 {
        let head = batches.drop_last();
        assert forall|j: int| 0 <= j < head.len() implies always_taken(
            schema,
            props,
            from,
            #[trigger] head[j],
        ) by {
            assert(head[j] == batches[j]);
        }
        lemma_batches_taken(schema, props, start, from, head, stream);
        assert(always_taken(schema, props, from, batches[batches.len() - 1]));
    }
}

proof fn lemma_segments_taken(
    schema: SchemaView,
    props: WriterProperties,
    files: Seq<Seq<u8>>,
    stream: Seq<char>,
)
    requires
        forall|k: int|
            0 <= k < files.len() ==> taken_whole(schema, props, #[trigger] files[k]),
    ensures
        merge::segments_run(schema, props, files, stream).refusal is None,
    decreases files.len(),
{
    if files.len() > 0 {
        let head = files.drop_last();
        assert forall|k: int| 0 <= k < head.len() implies taken_whole(
            schema,
            props,
            #[trigger] head[k],
        ) by {
            assert(head[k] == files[k]);
        }
        lemma_segments_taken(schema, props, head, stream);
        let file = files[files.len() - 1];
        assert(taken_whole(schema, props, file));
        lemma_batches_taken(
            schema,
            props,
            merge::segments_run(schema, props, head, stream),
            merge::columns_of(file),
            (readable::rows_in(file)->Ok_0).batches,
            stream,
        );
    }
}

proof fn lemma_same_run_reaches(
    blobs: Seq<Seq<u8>>,
    first: SchemaView,
    stream: Seq<char>,
    n: nat,
)
    requires
        n <= blobs.len(),
        forall|k: int|
            0 <= k < blobs.len() ==> readable::schema_in(#[trigger] blobs[k]) is Ok,
    ensures
        merge::same_run(blobs, first, stream, n) matches Ok(m) && n <= m <= blobs.len(),
    decreases blobs.len() - n,
{
    if n < blobs.len() {
        lemma_same_run_reaches(blobs, first, stream, n + 1);
        assert(readable::schema_in(blobs[n as int]) is Ok);
    }
}

proof fn lemma_union_run_reaches(
    blobs: Seq<Seq<u8>>,
    union: Seq<ColumnView>,
    stream: Seq<char>,
    n: nat,
)
    requires
        n <= blobs.len(),
        forall|k: int|
            0 <= k < blobs.len() ==> readable::schema_in(#[trigger] blobs[k]) is Ok,
    ensures
        merge::union_run(blobs, union, stream, n) matches Ok(m) && n <= m.0 <= blobs.len(),
    decreases blobs.len() - n,
{
    if n < blobs.len() {
        let s = readable::schema_in(blobs[n as int])->Ok_0;
        lemma_union_run_reaches(blobs, merge::extended(union, s.columns), stream, n + 1);
        assert(readable::schema_in(blobs[n as int]) is Ok);
    }
}

/// Segments whose schemas can be read can be planned together, whatever their schemas
/// are: a schema that does not fit only ends the run.
pub proof fn law_a_merge_can_be_planned(
    blobs: Seq<Seq<u8>>,
    policy: SchemaPolicy,
    stream: Seq<char>,
)
    requires
        blobs.len() > 0,
        forall|k: int|
            0 <= k < blobs.len() ==> readable::schema_in(#[trigger] blobs[k]) is Ok,
    ensures
        merge::merge_plan(blobs, policy, stream) matches Ok(p) && p.0 <= blobs.len(),
{
    assert(readable::schema_in(blobs[0]) is Ok);
    match policy {
        SchemaPolicy::StopAtChange => {
            lemma_same_run_reaches(blobs, readable::schema_in(blobs[0])->Ok_0, stream, 1);
        },
        SchemaPolicy::UnionFields => {
            lemma_union_run_reaches(blobs, Seq::empty(), stream, 0);
        },
    }
}

/// A merge goes through wherever its segments read to their ends, a writer of the merged
/// schema starts, each batch is taken, and the file can be finished. Nothing else stops
/// it: neither how many segments there are nor how many rows they hold.
pub proof fn law_a_merge_goes_through(
    blobs: Seq<Seq<u8>>,
    props: WriterProperties,
    policy: SchemaPolicy,
    stream: Seq<char>,
    n: nat,
    schema: SchemaView,
)
    requires
        merge::merge_plan(blobs, policy, stream) == Ok::<
            (nat, SchemaView),
            crate::error::ErrorView,
        >((n, schema)),
        n <= blobs.len(),
        parquet_file::start_refusal(schema, props) is None,
        forall|k: int|
            0 <= k < blobs.len() ==> taken_whole(schema, props, #[trigger] blobs[k]),
        forall|given: Seq<BatchView>|
            (#[trigger] parquet_file::file_of(schema, props, given)) is Ok,
    ensures
        merge::merged(blobs, props, policy, stream) matches Ok(m) && m.2 == n,
{
    let run = blobs.take(n as int);
    assert forall|k: int| 0 <= k < run.len() implies taken_whole(
        schema,
        props,
        #[trigger] run[k],
    ) by {
        assert(run[k] == blobs[k]);
    }
    lemma_segments_taken(schema, props, run, stream);
    let given = merge::segments_run(schema, props, run, stream).given;
    assert(parquet_file::file_of(schema, props, given) is Ok);
}

/// A merge does not pass over rows that it cannot read: where a segment of the run does
/// not read to its end, nothing is made.
pub proof fn law_a_merge_needs_every_segment(
    blobs: Seq<Seq<u8>>,
    props: WriterProperties,
    policy: SchemaPolicy,
    stream: Seq<char>,
    k: int,
)
    requires
        merge::merge_plan(blobs, policy, stream) matches Ok(p) && 0 <= k < p.0 <= blobs.len(),
        !(readable::rows_in(blobs[k]) matches Ok(read) && read.failed is None),
    ensures
        merge::merged(blobs, props, policy, stream) is Err,
{
    if merge::merged(blobs, props, policy, stream) is Ok {
        laws::law_a_merge_holds_every_row(blobs, props, policy, stream);
        let n = (merge::merge_plan(blobs, policy, stream)->Ok_0).0;
        assert(laws::reads_whole(blobs.take(n as int)[k]));
    }
}

// ------------------------------------------------------------ a projection

proof fn lemma_picks_taken(
    schema: SchemaView,
    props: WriterProperties,
    places: Seq<usize>,
    batches: Seq<BatchView>,
)
    requires
        forall|given: Seq<BatchView>, j: int|
            0 <= j < batches.len() ==> (#[trigger] parquet_file::give_refusal(
                schema,
                props,
                given,
                project::picked_batch(batches[j], places),
            )) is None,
    ensures
        project::batches_run(schema, props, places, batches).1 is None,
    decreases batches.len(),
{
    if batches.len() > 0 {
        let head = batches.drop_last();
        assert forall|given: Seq<BatchView>, j: int| 0 <= j < head.len() implies (
        #[trigger] parquet_file::give_refusal(
            schema,
            props,
            given,
            project::picked_batch(head[j], places),
        )) is None by {
            assert(head[j] == batches[j]);
        }
        lemma_picks_taken(schema, props, places, head);
        let given = project::batches_run(schema, props, places, head).0;
        let last = batches[batches.len() - 1];
        assert(parquet_file::give_refusal(
            schema,
            props,
            given,
            project::picked_batch(last, places),
        ) is None);
    }
}

/// A projection of a segment with data goes through wherever the segment reads to its
/// end, a writer of the columns kept starts, each batch is taken, and the file can be
/// finished. Nothing else stops it, neither how many columns there are nor how many rows.
pub proof fn law_a_projection_goes_through<C: ColumnFilter>(
    file: Seq<u8>,
    filter: C,
    props: WriterProperties,
    i: int,
)
    requires
        readable::schema_in(file) is Ok,
        0 <= i < (readable::schema_in(file)->Ok_0).columns.len(),
        filter.keeps((readable::schema_in(file)->Ok_0).columns[i].field),
        filter.carries_data((readable::schema_in(file)->Ok_0).columns[i].field),
        laws::reads_whole(file),
        ({
            let s = readable::schema_in(file)->Ok_0;
            let batches = (readable::rows_in(file)->Ok_0).batches;
            let places = project::kept(s.columns, filter);
            let schema = SchemaView {
                columns: project::picked_columns(s.columns, places),
                metadata: s.metadata,
            };
            &&& parquet_file::start_refusal(schema, props) is None
            &&& forall|given: Seq<BatchView>, j: int|
                0 <= j < batches.len() ==> (#[trigger] parquet_file::give_refusal(
                    schema,
                    props,
                    given,
                    project::picked_batch(batches[j], places),
                )) is None
            &&& forall|given: Seq<BatchView>|
                (#[trigger] parquet_file::file_of(schema, props, given)) is Ok
        }),
    ensures
        project::projected(file, filter, props) matches Ok(r) && r is Some,
{
    let s = readable::schema_in(file)->Ok_0;
    let batches = (readable::rows_in(file)->Ok_0).batches;
    let places = project::kept(s.columns, filter);
    let schema = SchemaView {
        columns: project::picked_columns(s.columns, places),
        metadata: s.metadata,
    };
    lemma_picks_taken(schema, props, places, batches);
    let given = project::batches_run(schema, props, places, batches).0;
    assert(parquet_file::file_of(schema, props, given) is Ok);
    assert(project::has_data(s.columns, filter));
}

} // verus!
