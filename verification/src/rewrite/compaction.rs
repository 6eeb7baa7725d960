//! What a compaction leaves of a stream: every segment as it was, or one in the
//! place of a run of them.

use parquet::file::properties::WriterProperties;
use vstd::prelude::*;

use super::compact;
use super::compact::{CompactSpec, Compacted};
use super::laws;
use super::merge;
use super::merge::SchemaPolicy;
use super::parquet_file;
use super::readable;
use super::parquet_file::{BatchView, ColumnView, SchemaView};
use crate::db;
use crate::db::model;
use crate::db::model::DbView;
use crate::db::store;
use crate::db::table::Keyed;
use crate::db::{SegmentView, SourceRow, SourceView};
use crate::error::ErrorView;
use crate::seqs;
use crate::text;

verus! {

// ------------------------------------------------------------ what stands for what

/// The files of segments.
pub open spec fn bytes_of(run: Seq<SegmentView>) -> Seq<Seq<u8>> {
    run.map_values(|v: SegmentView| v.bytes)
}

/// Whether a segment was written of a run's rows: its file of every row of every
/// segment, one segment after the other, in the order of a schema's columns, and
/// its count of those.
pub open spec fn written_of(
    v: SegmentView,
    run: Seq<SegmentView>,
    schema: SchemaView,
    props: WriterProperties,
) -> bool {
    let given = laws::rows_of_segments(bytes_of(run), schema.columns);
    &&& parquet_file::file_of(schema, props, given) == Ok::<Seq<u8>, Seq<char>>(v.bytes)
    &&& v.meta.rows == laws::counted(laws::row_count(given))
    &&& forall|i: int| 0 <= i < run.len() ==> laws::reads_whole((#[trigger] run[i]).bytes)
}

/// Whether a segment stands for a run of them: it is the run's only one, or it is
/// written of two or more that fit the target together, under the first's number,
/// over their span and without an index.
pub open spec fn stands_for(v: SegmentView, run: Seq<SegmentView>, spec: CompactSpec) -> bool {
    if run.len() == 1 {
        v == run[0]
    } else {
        &&& run.len() >= 2
        &&& v.seq == run[0].seq
        &&& v.meta.first_ts == run[0].meta.first_ts
        &&& v.meta.last_ts == run.last().meta.last_ts
        &&& v.caller_index is None
        &&& model::sealed_rows(run) <= vstd::math::max(spec.target_rows as int, 1)
        &&& exists|schema: SchemaView| #[trigger] written_of(v, run, schema, spec.properties())
    }
}

/// Whether a segment stands for the run between two cuts.
pub open spec fn stands_at(
    now: Seq<SegmentView>,
    was: Seq<SegmentView>,
    cuts: Seq<int>,
    spec: CompactSpec,
    g: int,
) -> bool {
    &&& 0 <= cuts[g] < cuts[g + 1] <= was.len()
    &&& stands_for(now[g], was.subrange(cuts[g], cuts[g + 1]), spec)
}

/// Whether segments stand for others, cut into runs: each for its run, and no run
/// left out.
pub open spec fn grouped(
    now: Seq<SegmentView>,
    was: Seq<SegmentView>,
    cuts: Seq<int>,
    spec: CompactSpec,
) -> bool {
    &&& cuts.len() == now.len() + 1
    &&& cuts[0] == 0
    &&& cuts.last() == was.len()
    &&& forall|g: int| 0 <= g < now.len() ==> #[trigger] stands_at(now, was, cuts, spec, g)
}

/// Whether two files have schemas that are one: the same columns in the same order,
/// of the same names and kinds, over the same metadata.
pub open spec fn one_schema(a: Seq<u8>, b: Seq<u8>) -> bool {
    readable::schema_in(a) matches Ok(s) && readable::schema_in(b) matches Ok(t) && {
        &&& s.metadata == t.metadata
        &&& s.columns.len() == t.columns.len()
        &&& forall|i: int|
            0 <= i < s.columns.len() ==> {
                &&& (#[trigger] s.columns[i]).name == t.columns[i].name
                &&& s.columns[i].field == t.columns[i].field || parquet_file::fields_equal(
                    s.columns[i].field,
                    t.columns[i].field,
                )
            }
    }
}

/// Whether a column of one file and a column of another have one name and differ
/// otherwise.
pub open spec fn clash(a: Seq<u8>, i: int, b: Seq<u8>, j: int) -> bool {
    readable::schema_in(a) matches Ok(s) && readable::schema_in(b) matches Ok(t) && {
        &&& 0 <= i < s.columns.len()
        &&& 0 <= j < t.columns.len()
        &&& s.columns[i].name == t.columns[j].name
        &&& s.columns[i].field != t.columns[j].field
        &&& !parquet_file::fields_equal(s.columns[i].field, t.columns[j].field)
    }
}

/// Whether the schema changes between segments of a run and the next: the next has
/// another than the first, or, where columns are united, one column of its own that
/// clashes with one of theirs.
pub open spec fn schema_changes(
    run: Seq<SegmentView>,
    next: SegmentView,
    policy: SchemaPolicy,
) -> bool {
    match policy {
        SchemaPolicy::StopAtChange => !one_schema(next.bytes, run[0].bytes),
        SchemaPolicy::UnionFields => exists|k: int, i: int, j: int|
            0 <= k < run.len() && #[trigger] clash(run[k].bytes, i, next.bytes, j),
    }
}

/// Whether a run of segments ends where it has to: at the end of the stream, where
/// the next segment would take it past the target, or where the schema changes.
pub open spec fn run_is_full(
    was: Seq<SegmentView>,
    from: int,
    to: int,
    spec: CompactSpec,
) -> bool {
    ||| to == was.len()
    ||| model::sealed_rows(was.subrange(from, to)) + was[to].meta.rows > vstd::math::max(
        spec.target_rows as int,
        1,
    )
    ||| schema_changes(was.subrange(from, to), was[to], spec.schema)
}

/// Whether every run between two cuts ends where it has to.
pub open spec fn packed(was: Seq<SegmentView>, cuts: Seq<int>, spec: CompactSpec) -> bool {
    forall|g: int|
        0 <= g < cuts.len() - 1 ==> run_is_full(was, #[trigger] cuts[g], cuts[g + 1], spec)
}

/// Whether segments of a stream that follow each other cannot be merged at all.
pub open spec fn merge_refused(
    was: Seq<SegmentView>,
    from: int,
    to: int,
    spec: CompactSpec,
    stream: Seq<char>,
) -> bool {
    &&& 0 <= from < to <= was.len()
    &&& merge::merged(
        bytes_of(was.subrange(from, to)),
        spec.properties(),
        spec.schema,
        stream,
    ) is Err
}

/// Whether there is something to stop a pass: an archive that is not to be written, a
/// source that is not there, or segments that cannot be merged.
pub open spec fn pass_stopped(
    d: DbView,
    source: i64,
    stream: Seq<char>,
    was: Seq<SegmentView>,
    spec: CompactSpec,
) -> bool {
    ||| !d.writable()
    ||| !d.has_source(source)
    ||| exists|from: int, to: int| #[trigger] merge_refused(was, from, to, spec, stream)
}

proof fn lemma_grouped_more(
    now: Seq<SegmentView>,
    was: Seq<SegmentView>,
    cuts: Seq<int>,
    v: SegmentView,
    more: Seq<SegmentView>,
    spec: CompactSpec,
)
    requires
        grouped(now, was, cuts, spec),
        more.len() > 0,
        stands_for(v, more, spec),
    ensures
        grouped(now.push(v), was + more, cuts.push((was.len() + more.len()) as int), spec),
{
    let all = was + more;
    let ends = cuts.push((was.len() + more.len()) as int);
    let segments = now.push(v);
    assert forall|g: int| 0 <= g < segments.len() implies #[trigger] stands_at(
        segments,
        all,
        ends,
        spec,
        g,
    ) by {
        if g < now.len() {
            assert(stands_at(now, was, cuts, spec, g));
            assert(all.subrange(ends[g], ends[g + 1]) =~= was.subrange(cuts[g], cuts[g + 1]));
        } else {
            assert(ends[g] == was.len());
            assert(all.subrange(ends[g], ends[g + 1]) =~= more);
        }
    }
}

/// Segments that were left alone stand for themselves.
proof fn lemma_grouped_rest(
    now: Seq<SegmentView>,
    was: Seq<SegmentView>,
    cuts: Seq<int>,
    rest: Seq<SegmentView>,
    spec: CompactSpec,
)
    requires
        grouped(now, was, cuts, spec),
    ensures
        exists|ends: Seq<int>| grouped(now + rest, was + rest, ends, spec),
    decreases rest.len(),
{
    if rest.len() == 0 {
        assert(now + rest =~= now);
        assert(was + rest =~= was);
        assert(grouped(now + rest, was + rest, cuts, spec));
    } else {
        let one = seq![rest[0]];
        lemma_grouped_more(now, was, cuts, rest[0], one, spec);
        lemma_grouped_rest(
            now.push(rest[0]),
            was + one,
            cuts.push((was.len() + 1) as int),
            rest.skip(1),
            spec,
        );
        assert(now.push(rest[0]) + rest.skip(1) =~= now + rest);
        assert((was + one) + rest.skip(1) =~= was + rest);
    }
}

// ------------------------------------------------------------ one run replaced

proof fn lemma_bytes_at(s: Seq<SegmentView>, k: int)
    requires
        laws::numbered(s),
        0 <= k < s.len(),
    ensures
        store::bytes_at(s, s[k].seq) == Some(s[k].bytes),
    decreases s.len(),
{
    if k > 0 {
        assert(s[0].seq < s[k].seq);
        let t = s.skip(1);
        assert forall|i: int, j: int| 0 <= i < j < t.len() implies (#[trigger] t[i]).seq < (
        #[trigger] t[j]).seq by {
            assert(s[i + 1].seq < s[j + 1].seq);
        }
        lemma_bytes_at(t, k - 1);
        assert(t[k - 1] == s[k]);
    }
}

/// The files of listed segments that are there are theirs.
proof fn lemma_files(s: Seq<SegmentView>, from: int, to: int, run: Seq<SegmentView>)
    requires
        laws::numbered(s),
        0 <= from <= to <= s.len(),
        run == s.subrange(from, to),
    ensures
        compact::files_of(s, store::metas_of(run)) == bytes_of(run),
    decreases to - from,
{
    let metas = store::metas_of(run);
    if from < to {
        assert(metas[0].0 == s[from].seq);
        lemma_bytes_at(s, from);
        let tail = s.subrange(from + 1, to);
        lemma_files(s, from + 1, to, tail);
        assert(metas.skip(1) =~= store::metas_of(tail));
        assert(bytes_of(run) =~= seq![s[from].bytes] + bytes_of(tail));
    } else {
        assert(bytes_of(run) =~= Seq::empty());
    }
}

/// How many rows a run has, as listed.
proof fn lemma_run_rows(was: Seq<SegmentView>, at: nat, end: nat, rows: int, most: int)
    requires
        at <= end <= was.len(),
        rows == model::sealed_rows(was.subrange(at as int, end as int)),
        rows <= most,
    ensures
        ({
            let to = compact::run_end(store::metas_of(was), end, rows, most);
            &&& end <= to <= was.len()
            &&& model::sealed_rows(was.subrange(at as int, to as int)) <= most
            &&& to < was.len() ==> model::sealed_rows(was.subrange(at as int, to as int))
                + was[to as int].meta.rows > most
        }),
    decreases was.len() - end,
{
    let metas = store::metas_of(was);
    if end < was.len() && rows + metas[end as int].1.rows <= most {
        let longer = was.subrange(at as int, (end + 1) as int);
        assert(longer.drop_last() =~= was.subrange(at as int, end as int));
        assert(longer.last() == was[end as int]);
        lemma_run_rows(was, at, end + 1, rows + metas[end as int].1.rows, most);
    }
}

proof fn lemma_fewer_rows(run: Seq<SegmentView>, n: int)
    requires
        0 <= n <= run.len(),
    ensures
        model::sealed_rows(run.take(n)) <= model::sealed_rows(run),
    decreases run.len() - n,
{
    if n < run.len() {
        lemma_fewer_rows(run, n + 1);
        assert(run.take(n + 1).drop_last() =~= run.take(n));
    } else {
        assert(run.take(n) =~= run);
    }
}

/// Taking a run out of the middle of segments in number order leaves those before
/// it and those behind it.
proof fn lemma_run_out(head: Seq<SegmentView>, run: Seq<SegmentView>, tail: Seq<SegmentView>)
    requires
        laws::numbered(head + run + tail),
    ensures
        (head + run + tail).filter(|v: SegmentView| laws::outside(store::metas_of(run), v)) == head
            + tail,
{
    let all = head + run + tail;
    let metas = store::metas_of(run);
    let keep = |v: SegmentView| laws::outside(metas, v);
    let (a, b) = (head.len() as int, run.len() as int);
    assert forall|i: int| 0 <= i < head.len() implies keep(#[trigger] head[i]) by {
        assert forall|k: int| 0 <= k < metas.len() implies head[i].seq != (#[trigger] metas[k]).0 by {
            assert(all[i] == head[i] && all[a + k] == run[k]);
            assert(all[i].seq < all[a + k].seq);
        }
    }
    assert forall|i: int| 0 <= i < tail.len() implies keep(#[trigger] tail[i]) by {
        assert forall|k: int| 0 <= k < metas.len() implies tail[i].seq != (#[trigger] metas[k]).0 by {
            assert(all[a + b + i] == tail[i] && all[a + k] == run[k]);
            assert(all[a + k].seq < all[a + b + i].seq);
        }
    }
    seqs::lemma_filter_concat(head + run, tail, keep);
    seqs::lemma_filter_concat(head, run, keep);
    seqs::lemma_filter_all(head, keep);
    seqs::lemma_filter_all(tail, keep);
    if run.filter(keep).len() > 0 {
        seqs::lemma_filter_member(run, keep, 0);
        let k = choose|k: int| 0 <= k < run.len() && run[k] == run.filter(keep)[0];
        assert(metas[k].0 == run[k].seq);
    }
    assert(head + run.filter(keep) + tail =~= head + tail);
}

/// Replacing a run puts one segment in its place.
#[verifier::spinoff_prover]
#[verifier::rlimit(60)]
proof fn lemma_replaced(
    d: DbView,
    source: i64,
    stream: Seq<char>,
    head: Seq<SegmentView>,
    run: Seq<SegmentView>,
    tail: Seq<SegmentView>,
    file: Seq<u8>,
    rows: u64,
)
    requires
        d.wf(),
        run.len() > 0,
        d.segments_of(source, stream) == head + run + tail,
        compact::run_replaced(d, source, stream, store::metas_of(run), file, rows) is Ok,
    ensures
        ({
            let metas = store::metas_of(run);
            let next = compact::run_replaced(d, source, stream, metas, file, rows)->Ok_0;
            let v = compact::run_segment(source, stream, metas, file, rows).row;
            &&& laws::same_but_for(d, next, source, stream)
            &&& next.segments_of(source, stream) == head.push(v) + tail
        }),
{
    let metas = store::metas_of(run);
    let merged = compact::run_segment(source, stream, metas, file, rows);
    let without = compact::without_run(d, source, stream, metas);
    let next = compact::run_replaced(d, source, stream, metas, file, rows)->Ok_0;
    let all = head + run + tail;
    let left = head + tail;
    db::laws::law_segments_are_in_order(d, source, stream);
    laws::lemma_without_run(d, source, stream, metas);
    lemma_run_out(head, run, tail);
    assert(without.segments_of(source, stream) == left);
    db::laws::lemma_segments_inserted(without, merged, source, stream);
    db::laws::law_segments_are_in_order(next, source, stream);
    let now = next.segments_of(source, stream);
    let p = choose|p: int|
        0 <= p <= left.len() && now == #[trigger] left.take(p) + seq![merged.row] + left.skip(p);
    let a = head.len() as int;
    assert(merged.row.seq == all[a].seq) by {
        assert(all[a] == run[0]);
        assert(metas[0].0 == run[0].seq);
    }
    assert(now[p] == merged.row);
    if p < a {
        assert(now[p + 1] == left[p]);
        assert(left[p] == all[p]);
        assert(all[p].seq < all[a].seq);
        assert(now[p].seq < now[p + 1].seq);
    }
    if p > a {
        assert(now[p - 1] == left[p - 1]);
        assert(left[p - 1] == all[p - 1 + run.len()]);
        assert(all[a].seq < all[p - 1 + run.len()].seq);
        assert(now[p - 1].seq < now[p].seq);
    }
    assert(now =~= head.push(merged.row) + tail);
    assert forall|s: i64, st: Seq<char>|
        !(s == source && st == stream) implies #[trigger] next.segments_of(s, st)
        == d.segments_of(s, st) by {
        db::laws::lemma_segments_inserted(without, merged, s, st);
        assert(without.segments_of(s, st) == d.segments_of(s, st));
    }
}

/// Taking segments out changes nothing but the segments.
proof fn lemma_only_segments_out(
    d: DbView,
    source: i64,
    stream: Seq<char>,
    run: Seq<compact::Listed>,
)
    ensures
        ({
            let without = compact::without_run(d, source, stream, run);
            without == DbView { segments: without.segments, ..d }
        }),
    decreases run.len(),
{
    if run.len() > 0 {
        lemma_only_segments_out(d, source, stream, run.drop_last());
    }
}

/// A run of a stream can be replaced wherever the archive can be written and the source
/// is there.
proof fn lemma_run_is_replaced(
    d: DbView,
    source: i64,
    stream: Seq<char>,
    was: Seq<SegmentView>,
    head: Seq<SegmentView>,
    at: nat,
    n: nat,
    file: Seq<u8>,
    rows: u64,
)
    requires
        d.wf(),
        0 < n,
        at + n <= was.len(),
        d.segments_of(source, stream) == head + was.skip(at as int),
    ensures
        ({
            let listed = store::metas_of(was).subrange(at as int, (at + n) as int);
            let r = compact::run_replaced(d, source, stream, listed, file, rows);
            &&& d.writable() && d.has_source(source) ==> r is Ok
            &&& r matches Ok(next) ==> next.read_only == d.read_only && next.legacy == d.legacy
        }),
{
    let run = was.subrange(at as int, (at + n) as int);
    let tail = was.skip((at + n) as int);
    let listed = store::metas_of(run);
    assert(store::metas_of(was).subrange(at as int, (at + n) as int) =~= listed);
    assert(head + was.skip(at as int) =~= head + run + tail);
    let all = head + run + tail;
    let left = head + tail;
    let without = compact::without_run(d, source, stream, listed);
    let merged = compact::run_segment(source, stream, listed, file, rows);
    db::laws::law_segments_are_in_order(d, source, stream);
    laws::lemma_without_run(d, source, stream, listed);
    lemma_only_segments_out(d, source, stream, listed);
    lemma_run_out(head, run, tail);
    let a = head.len() as int;
    assert(all[a] == run[0]);
    assert(listed[0].0 == run[0].seq);
    assert forall|k: int| 0 <= k < left.len() implies (#[trigger] left[k]).seq
        != merged.row.seq by {
        if k < a {
            assert(left[k] == all[k]);
            assert(all[k].seq < all[a].seq);
        } else {
            assert(left[k] == all[k + n]);
            assert(all[a].seq < all[k + n].seq);
        }
    }
    db::facts::law_a_segment_is_taken_where_its_number_is_free(without, merged);
}

// ------------------------------------------------------------ the whole pass

/// What a pass has come to: so many segments before it, so many after, and merges
/// only where there are fewer.
pub open spec fn fewer_by_merges(from: Compacted, to: Compacted) -> bool {
    &&& to.before == from.before
    &&& to.after <= from.after
    &&& to.merges >= from.merges
    &&& to.merges == from.merges <==> to.after == from.after
}

/// What a pass leaves: segments that stand for those before it, nothing else
/// touched, and a count of it.
pub open spec fn passed(
    d: DbView,
    source: i64,
    stream: Seq<char>,
    was: Seq<SegmentView>,
    done: Compacted,
    spec: CompactSpec,
    outcome: (DbView, Result<Compacted, ErrorView>),
) -> bool {
    &&& laws::same_but_for(d, outcome.0, source, stream)
    &&& exists|cuts: Seq<int>| grouped(outcome.0.segments_of(source, stream), was, cuts, spec)
    &&& outcome.1 is Err ==> pass_stopped(d, source, stream, was, spec)
    &&& outcome.1 matches Ok(c) ==> {
        &&& fewer_by_merges(done, c)
        &&& c.merges == done.merges ==> outcome.0 == d
        &&& exists|cuts: Seq<int>|
            grouped(outcome.0.segments_of(source, stream), was, cuts, spec) && packed(
                was,
                cuts,
                spec,
            )
    }
}

/// How far a pass has come: the segments up to a place are grouped, and the rest
/// are as they were.
pub open spec fn passing(
    d: DbView,
    source: i64,
    stream: Seq<char>,
    was: Seq<SegmentView>,
    head: Seq<SegmentView>,
    cuts: Seq<int>,
    at: nat,
    done: Compacted,
    spec: CompactSpec,
) -> bool {
    &&& d.wf()
    &&& at <= was.len() <= usize::MAX
    &&& d.segments_of(source, stream) == head + was.skip(at as int)
    &&& grouped(head, was.take(at as int), cuts, spec)
    &&& packed(was, cuts, spec)
    &&& done.after >= was.len() - at
    &&& done.merges <= at
}

proof fn lemma_pass(
    d: DbView,
    source: i64,
    stream: Seq<char>,
    was: Seq<SegmentView>,
    head: Seq<SegmentView>,
    cuts: Seq<int>,
    at: nat,
    done: Compacted,
    spec: CompactSpec,
)
    requires
        passing(d, source, stream, was, head, cuts, at, done, spec),
    ensures
        passed(
            d,
            source,
            stream,
            was,
            done,
            spec,
            compact::compacted_from(d, source, stream, store::metas_of(was), at, done, spec),
        ),
    decreases was.len() - at, 0nat,
{
    let metas = store::metas_of(was);
    let rest = was.skip(at as int);
    let all = d.segments_of(source, stream);
    // Where it stops, the rest is as it was.
    lemma_grouped_rest(head, was.take(at as int), cuts, rest, spec);
    assert(was.take(at as int) + rest =~= was);
    let ends = choose|ends: Seq<int>|
        grouped(head + rest, was.take(at as int) + rest, ends, spec);
    assert(grouped(all, was, ends, spec));
    assert forall|e: ErrorView| pass_stopped(d, source, stream, was, spec) implies #[trigger]
        passed(
            d,
            source,
            stream,
            was,
            done,
            spec,
            (d, Err::<Compacted, ErrorView>(e)),
        ) by {}
    let whole = compact::compacted_from(d, source, stream, metas, at, done, spec);
    if at >= was.len() {
        assert(whole == (d, Ok::<Compacted, ErrorView>(done)));
        assert(was.take(at as int) =~= was);
        assert(head + rest =~= head);
        assert(grouped(all, was, cuts, spec) && packed(was, cuts, spec));
        assert(passed(d, source, stream, was, done, spec, whole));
    } else {
        let end = compact::run_end(metas, at, 0, spec.most_rows());
        let files = compact::files_of(all, metas.subrange(at as int, end as int));
        let alone = compact::compacted_from(d, source, stream, metas, at + 1, done, spec);
        lemma_stops(d, source, stream, was, head, at, spec);
        if end < at + 2 || end > metas.len() || files.len() == 0 {
            lemma_left_alone(d, source, stream, was, head, cuts, at, done, spec);
            assert(whole == alone);
        } else {
            match merge::merged(files, spec.properties(), spec.schema, stream) {
                Err(e) => {
                    assert(whole == (d, Err::<Compacted, ErrorView>(e)));
                    assert(merge_refused(was, at as int, end as int, spec, stream));
                },
                Ok((file, rows, n)) => {
                    if n < 2 || n > end - at {
                        lemma_left_alone(d, source, stream, was, head, cuts, at, done, spec);
                        assert(whole == alone);
                    } else {
                        let run = metas.subrange(at as int, (at + n) as int);
                        assert(merges_at(d, source, stream, was, at, n, file, rows, spec));
                        match compact::run_replaced(d, source, stream, run, file, rows) {
                            Err(e) => {
                                assert(whole == (d, Err::<Compacted, ErrorView>(e)));
                                lemma_run_is_replaced(
                                    d,
                                    source,
                                    stream,
                                    was,
                                    head,
                                    at,
                                    n,
                                    file,
                                    rows,
                                );
                            },
                            Ok(next) => {
                                lemma_merged_on(
                                    d,
                                    source,
                                    stream,
                                    was,
                                    head,
                                    cuts,
                                    at,
                                    n,
                                    file,
                                    rows,
                                    done,
                                    spec,
                                );
                            },
                        }
                    }
                },
            }
        }
    }
}

proof fn lemma_packed_more(
    was: Seq<SegmentView>,
    cuts: Seq<int>,
    at: int,
    to: int,
    spec: CompactSpec,
)
    requires
        packed(was, cuts, spec),
        cuts.len() > 0,
        cuts.last() == at,
        run_is_full(was, at, to, spec),
    ensures
        packed(was, cuts.push(to), spec),
{
    let ends = cuts.push(to);
    assert forall|g: int| 0 <= g < ends.len() - 1 implies run_is_full(
        was,
        #[trigger] ends[g],
        ends[g + 1],
        spec,
    ) by {
        if g < cuts.len() - 1 {
            assert(run_is_full(was, cuts[g], cuts[g + 1], spec));
        }
    }
}

/// Where a run of one schema stops short of the segments it is given, the next has
/// another.
proof fn lemma_same_run_stops(blobs: Seq<Seq<u8>>, stream: Seq<char>, n: nat)
    requires
        1 <= n <= blobs.len(),
        merge::schema_of(blobs[0], stream) is Ok,
        merge::same_run(blobs, merge::schema_of(blobs[0], stream)->Ok_0, stream, n) is Ok,
    ensures
        ({
            let first = merge::schema_of(blobs[0], stream)->Ok_0;
            let end = merge::same_run(blobs, first, stream, n)->Ok_0;
            &&& n <= end <= blobs.len()
            &&& end < blobs.len() ==> !one_schema(blobs[end as int], blobs[0])
        }),
    decreases blobs.len() - n,
{
    let first = merge::schema_of(blobs[0], stream)->Ok_0;
    if n < blobs.len() {
        let s = merge::schema_of(blobs[n as int], stream)->Ok_0;
        if parquet_file::schemas_alike(s, first) {
            lemma_same_run_stops(blobs, stream, n + 1);
        } else if one_schema(blobs[n as int], blobs[0]) {
            assert forall|i: int| 0 <= i < s.columns.len() implies (#[trigger] s.columns[i]).name
                == first.columns[i].name && parquet_file::alike(
                s.columns[i].field,
                first.columns[i].field,
            ) by {}
            assert(parquet_file::schemas_alike(s, first));
        }
    }
}

/// Whether every column of a union is one of a run's.
pub open spec fn gathered(union: Seq<ColumnView>, blobs: Seq<Seq<u8>>, n: int) -> bool {
    forall|u: int|
        0 <= u < union.len() ==> exists|k: int, i: int|
            0 <= k < n && #[trigger] column_at(blobs[k], i) == Some(#[trigger] union[u])
}

/// A column of a file, by its place.
pub open spec fn column_at(file: Seq<u8>, i: int) -> Option<ColumnView> {
    match readable::schema_in(file) {
        Ok(s) => if 0 <= i < s.columns.len() {
            Some(s.columns[i])
        } else {
            None
        },
        Err(_) => None,
    }
}

proof fn lemma_extended_gathers(
    union: Seq<ColumnView>,
    blobs: Seq<Seq<u8>>,
    n: int,
    m: int,
    columns: Seq<ColumnView>,
)
    requires
        0 <= n < blobs.len(),
        gathered(union, blobs, n),
        readable::schema_in(blobs[n]) is Ok,
        0 <= m <= (readable::schema_in(blobs[n])->Ok_0).columns.len(),
        columns == (readable::schema_in(blobs[n])->Ok_0).columns.take(m),
    ensures
        gathered(merge::extended(union, columns), blobs, n + 1),
    decreases m,
{
    let all = (readable::schema_in(blobs[n])->Ok_0).columns;
    let was = merge::extended(union, columns.drop_last());
    if m > 0 {
        assert(columns.drop_last() =~= all.take(m - 1));
        lemma_extended_gathers(union, blobs, n, m - 1, columns.drop_last());
    }
    let now = merge::extended(union, columns);
    assert forall|u: int| 0 <= u < now.len() implies exists|k: int, i: int|
        0 <= k < n + 1 && #[trigger] column_at(blobs[k], i) == Some(#[trigger] now[u]) by {
        if m == 0 {
            assert(now == union);
            let (k, i) = choose|k: int, i: int|
                0 <= k < n && #[trigger] column_at(blobs[k], i) == Some(union[u]);
            assert(column_at(blobs[k], i) == Some(now[u]));
        } else if u < was.len() {
            assert(now[u] == was[u]);
            let (k, i) = choose|k: int, i: int|
                0 <= k < n + 1 && #[trigger] column_at(blobs[k], i) == Some(was[u]);
            assert(column_at(blobs[k], i) == Some(now[u]));
        } else {
            assert(column_at(blobs[n], m - 1) == Some(now[u]));
        }
    }
}

/// Where a run without a clash stops short of the segments it is given, the next
/// has one.
proof fn lemma_union_run_stops(
    blobs: Seq<Seq<u8>>,
    union: Seq<ColumnView>,
    stream: Seq<char>,
    n: nat,
)
    requires
        n <= blobs.len(),
        gathered(union, blobs, n as int),
        merge::union_run(blobs, union, stream, n) is Ok,
    ensures
        ({
            let end = (merge::union_run(blobs, union, stream, n)->Ok_0).0;
            &&& n <= end <= blobs.len()
            &&& union.len() == 0 && n < blobs.len() ==> n < end
            &&& end < blobs.len() ==> exists|k: int, i: int, j: int|
                0 <= k < end && #[trigger] clash(blobs[k], i, blobs[end as int], j)
        }),
    decreases blobs.len() - n,
{
    if n < blobs.len() {
        let s = merge::schema_of(blobs[n as int], stream)->Ok_0;
        if merge::conflicts(union, s.columns) {
            let j = choose|j: int|
                0 <= j < s.columns.len() && merge::differs(union, #[trigger] s.columns[j]);
            laws::lemma_column_named(union, s.columns[j].name);
            let u = merge::column_named(union, s.columns[j].name)->Some_0 as int;
            let (k, i) = choose|k: int, i: int|
                0 <= k < n && #[trigger] column_at(blobs[k], i) == Some(union[u]);
            assert(clash(blobs[k], i, blobs[n as int], j));
        } else {
            assert(s.columns.take(s.columns.len() as int) =~= s.columns);
            lemma_extended_gathers(
                union,
                blobs,
                n as int,
                s.columns.len() as int,
                s.columns,
            );
            lemma_union_run_stops(blobs, merge::extended(union, s.columns), stream, n + 1);
        }
    }
}

/// A pass leaves a run where it has to: a run that is not merged further ends at the
/// end of the stream, past the target or at a change.
proof fn lemma_stops(
    d: DbView,
    source: i64,
    stream: Seq<char>,
    was: Seq<SegmentView>,
    head: Seq<SegmentView>,
    at: nat,
    spec: CompactSpec,
)
    requires
        d.wf(),
        at < was.len(),
        d.segments_of(source, stream) == head + was.skip(at as int),
    ensures
        ({
            let metas = store::metas_of(was);
            let end = compact::run_end(metas, at, 0, spec.most_rows());
            let files = compact::files_of(
                d.segments_of(source, stream),
                metas.subrange(at as int, end as int),
            );
            &&& at <= end <= was.len()
            &&& end < at + 2 ==> run_is_full(was, at as int, (at + 1) as int, spec)
            &&& end >= at + 2 ==> files.len() == end - at
            &&& end >= at + 2 ==> files == bytes_of(was.subrange(at as int, end as int))
            &&& end >= at + 2 && merge::merged(
                files,
                spec.properties(),
                spec.schema,
                stream,
            ) is Ok ==> {
                let n = (merge::merged(files, spec.properties(), spec.schema, stream)->Ok_0).2;
                &&& 1 <= n <= end - at
                &&& run_is_full(was, at as int, (at + n) as int, spec)
            }
        }),
{
    let metas = store::metas_of(was);
    let all = d.segments_of(source, stream);
    let end = compact::run_end(metas, at, 0, spec.most_rows());
    let whole = was.subrange(at as int, end as int);
    assert(was.subrange(at as int, at as int) =~= Seq::empty());
    lemma_run_rows(was, at, at, 0, spec.most_rows());
    let one = was.subrange(at as int, (at + 1) as int);
    assert(one.drop_last() =~= Seq::empty());
    assert(model::sealed_rows(one.drop_last()) == 0);
    assert(model::sealed_rows(one) == was[at as int].meta.rows);
    if end >= at + 2 {
        db::laws::law_segments_are_in_order(d, source, stream);
        let a = head.len() as int;
        assert(all.subrange(a, a + (end - at)) =~= whole);
        lemma_files(all, a, a + (end - at), whole);
        assert(metas.subrange(at as int, end as int) =~= store::metas_of(whole));
        let files = bytes_of(whole);
        if merge::merge_plan(files, spec.schema, stream) is Ok {
            let n = (merge::merge_plan(files, spec.schema, stream)->Ok_0).0;
            match spec.schema {
                SchemaPolicy::StopAtChange => {
                    lemma_same_run_stops(files, stream, 1);
                },
                SchemaPolicy::UnionFields => {
                    lemma_union_run_stops(files, Seq::empty(), stream, 0);
                },
            }
            let run = was.subrange(at as int, (at + n) as int);
            assert(run.len() == n);
            if n < files.len() {
                let next = was[(at + n) as int];
                assert(files[n as int] == next.bytes);
                assert forall|k: int| 0 <= k < n implies files[k] == (#[trigger] run[k]).bytes by {}
                assert(schema_changes(run, next, spec.schema)) by {
                    if spec.schema is UnionFields {
                        let (k, i, j) = choose|k: int, i: int, j: int|
                            0 <= k < n && #[trigger] clash(files[k], i, files[n as int], j);
                        assert(clash(run[k].bytes, i, next.bytes, j));
                    } else {
                        assert(run[0].bytes == files[0]);
                    }
                }
            } else {
                assert(run =~= whole);
            }
        }
    }
}

/// Whether a merge at a place of a pass gave a file of so many segments.
pub open spec fn merges_at(
    d: DbView,
    source: i64,
    stream: Seq<char>,
    was: Seq<SegmentView>,
    at: nat,
    n: nat,
    file: Seq<u8>,
    rows: u64,
    spec: CompactSpec,
) -> bool {
    let metas = store::metas_of(was);
    let end = compact::run_end(metas, at, 0, spec.most_rows());
    &&& 2 <= n
    &&& at + n <= end <= was.len()
    &&& merge::merged(
        compact::files_of(d.segments_of(source, stream), metas.subrange(at as int, end as int)),
        spec.properties(),
        spec.schema,
        stream,
    ) == Ok::<(Seq<u8>, u64, nat), ErrorView>((file, rows, n))
}

/// A run that is merged is replaced, and the pass goes on behind it.
proof fn lemma_merged_on(
    d: DbView,
    source: i64,
    stream: Seq<char>,
    was: Seq<SegmentView>,
    head: Seq<SegmentView>,
    cuts: Seq<int>,
    at: nat,
    n: nat,
    file: Seq<u8>,
    rows: u64,
    done: Compacted,
    spec: CompactSpec,
)
    requires
        passing(d, source, stream, was, head, cuts, at, done, spec),
        merges_at(d, source, stream, was, at, n, file, rows, spec),
        run_is_full(was, at as int, (at + n) as int, spec),
        compact::run_replaced(
            d,
            source,
            stream,
            store::metas_of(was).subrange(at as int, (at + n) as int),
            file,
            rows,
        ) is Ok,
    ensures
        ({
            let next = compact::run_replaced(
                d,
                source,
                stream,
                store::metas_of(was).subrange(at as int, (at + n) as int),
                file,
                rows,
            )->Ok_0;
            let more = Compacted {
                after: (done.after - (n - 1)) as usize,
                merges: (done.merges + 1) as usize,
                ..done
            };
            passed(
                d,
                source,
                stream,
                was,
                done,
                spec,
                compact::compacted_from(
                    next,
                    source,
                    stream,
                    store::metas_of(was),
                    at + n,
                    more,
                    spec,
                ),
            )
        }),
    decreases was.len() - (at + n), 1nat,
{
    let metas = store::metas_of(was);
    let rest = was.skip(at as int);
    let run = was.subrange(at as int, (at + n) as int);
    let tail = was.skip((at + n) as int);
    let listed = store::metas_of(run);
    assert(metas.subrange(at as int, (at + n) as int) =~= listed);
    assert(head + rest =~= head + run + tail);
    let next = compact::run_replaced(d, source, stream, listed, file, rows)->Ok_0;
    let v = compact::run_segment(source, stream, listed, file, rows).row;
    lemma_replaced(d, source, stream, head, run, tail, file, rows);
    lemma_run_stands(d, source, stream, was, head, at, n, file, rows, spec);
    lemma_grouped_more(head, was.take(at as int), cuts, v, run, spec);
    assert(was.take(at as int) + run =~= was.take((at + n) as int));
    let more = Compacted {
        after: (done.after - (n - 1)) as usize,
        merges: (done.merges + 1) as usize,
        ..done
    };
    let ends = cuts.push((at + n) as int);
    lemma_packed_more(was, cuts, at as int, (at + n) as int, spec);
    assert(passing(next, source, stream, was, head.push(v), ends, at + n, more, spec));
    lemma_pass(next, source, stream, was, head.push(v), ends, at + n, more, spec);
    lemma_run_is_replaced(d, source, stream, was, head, at, n, file, rows);
    let after = compact::compacted_from(next, source, stream, metas, at + n, more, spec).0;
    assert forall|s: i64, st: Seq<char>|
        !(s == source && st == stream) implies #[trigger] after.segments_of(s, st)
        == d.segments_of(s, st) by {
        assert(next.segments_of(s, st) == d.segments_of(s, st));
    }
}

/// A segment that is left alone stands for itself, and the pass goes on.
proof fn lemma_left_alone(
    d: DbView,
    source: i64,
    stream: Seq<char>,
    was: Seq<SegmentView>,
    head: Seq<SegmentView>,
    cuts: Seq<int>,
    at: nat,
    done: Compacted,
    spec: CompactSpec,
)
    requires
        at < was.len(),
        passing(d, source, stream, was, head, cuts, at, done, spec),
        run_is_full(was, at as int, (at + 1) as int, spec),
    ensures
        passed(
            d,
            source,
            stream,
            was,
            done,
            spec,
            compact::compacted_from(d, source, stream, store::metas_of(was), at + 1, done, spec),
        ),
    decreases was.len() - (at + 1), 1nat,
{
    let v = was[at as int];
    let one = seq![v];
    lemma_grouped_more(head, was.take(at as int), cuts, v, one, spec);
    assert(was.take(at as int) + one =~= was.take((at + 1) as int));
    assert(head + was.skip(at as int) =~= head.push(v) + was.skip((at + 1) as int));
    let ends = cuts.push((at + 1) as int);
    lemma_packed_more(was, cuts, at as int, (at + 1) as int, spec);
    lemma_pass(d, source, stream, was, head.push(v), ends, at + 1, done, spec);
}

/// What a merge wrote stands for the run it was made of.
proof fn lemma_run_stands(
    d: DbView,
    source: i64,
    stream: Seq<char>,
    was: Seq<SegmentView>,
    head: Seq<SegmentView>,
    at: nat,
    n: nat,
    file: Seq<u8>,
    rows: u64,
    spec: CompactSpec,
)
    requires
        d.wf(),
        at <= was.len(),
        d.segments_of(source, stream) == head + was.skip(at as int),
        merges_at(d, source, stream, was, at, n, file, rows, spec),
    ensures
        ({
            let run = was.subrange(at as int, (at + n) as int);
            stands_for(
                compact::run_segment(source, stream, store::metas_of(run), file, rows).row,
                run,
                spec,
            )
        }),
{
    let metas = store::metas_of(was);
    let all = d.segments_of(source, stream);
    let props = spec.properties();
    let end = compact::run_end(metas, at, 0, spec.most_rows());
    let whole = was.subrange(at as int, end as int);
    let run = was.subrange(at as int, (at + n) as int);
    let v = compact::run_segment(source, stream, store::metas_of(run), file, rows).row;
    // The files are those of the run.
    db::laws::law_segments_are_in_order(d, source, stream);
    let a = head.len() as int;
    assert(all.subrange(a, a + (end - at)) =~= whole);
    lemma_files(all, a, a + (end - at), whole);
    assert(metas.subrange(at as int, end as int) =~= store::metas_of(whole));
    let files = bytes_of(whole);
    laws::law_a_merge_holds_every_row(files, props, spec.schema, stream);
    assert(files.take(n as int) =~= bytes_of(run));
    let schema = (merge::merge_plan(files, spec.schema, stream)->Ok_0).1;
    assert forall|i: int| 0 <= i < run.len() implies laws::reads_whole((#[trigger] run[i]).bytes) by {
        assert(files.take(n as int)[i] == run[i].bytes);
    }
    assert(written_of(v, run, schema, props));
    // And they fit the target.
    assert(was.subrange(at as int, at as int) =~= Seq::empty());
    lemma_run_rows(was, at, at, 0, spec.most_rows());
    lemma_fewer_rows(whole, n as int);
    assert(whole.take(n as int) =~= run);
    assert(store::metas_of(run)[0] == (run[0].seq, run[0].meta));
    assert(store::metas_of(run).last() == (run.last().seq, run.last().meta));
}

/// Compacting a stream loses no row and moves none. Its segments afterwards stand,
/// in order, for those before: each is one of them as it was, or one written of two
/// or more that follow each other, which fit the target together. So it is whether
/// or not the pass came to its end, and nothing else of the archive is touched.
pub proof fn law_compaction_keeps_every_row(
    d: DbView,
    source: i64,
    stream: Seq<char>,
    spec: CompactSpec,
)
    requires
        d.wf(),
        d.segments_of(source, stream).len() <= usize::MAX,
    ensures
        ({
            let after = compact::stream_compacted(d, source, stream, spec).0;
            &&& laws::same_but_for(d, after, source, stream)
            &&& exists|cuts: Seq<int>| grouped(
                after.segments_of(source, stream),
                d.segments_of(source, stream),
                cuts,
                spec,
            )
        }),
{
    lemma_stream(d, source, stream, spec);
}

proof fn lemma_stream(d: DbView, source: i64, stream: Seq<char>, spec: CompactSpec)
    requires
        d.wf(),
        d.segments_of(source, stream).len() <= usize::MAX,
    ensures
        ({
            let (after, r) = compact::stream_compacted(d, source, stream, spec);
            let n = d.segments_of(source, stream).len() as usize;
            &&& laws::same_but_for(d, after, source, stream)
            &&& exists|cuts: Seq<int>| grouped(
                after.segments_of(source, stream),
                d.segments_of(source, stream),
                cuts,
                spec,
            )
            &&& r is Err ==> pass_stopped(d, source, stream, d.segments_of(source, stream), spec)
            &&& r matches Ok(c) ==> fewer_by_merges(
                Compacted { before: n, after: n, merges: 0 },
                c,
            ) && (c.merges == 0 ==> after == d) && exists|cuts: Seq<int>|
                grouped(
                    after.segments_of(source, stream),
                    d.segments_of(source, stream),
                    cuts,
                    spec,
                ) && packed(d.segments_of(source, stream), cuts, spec)
        }),
{
    let was = d.segments_of(source, stream);
    let none = Seq::<SegmentView>::empty();
    assert(was.take(0) =~= none);
    assert(was.skip(0) =~= was);
    assert(none + was.skip(0) =~= was);
    assert(grouped(none, was.take(0), seq![0int], spec));
    assert(packed(was, seq![0int], spec));
    lemma_pass(
        d,
        source,
        stream,
        was,
        none,
        seq![0int],
        0,
        Compacted { before: was.len() as usize, after: was.len() as usize, merges: 0 },
        spec,
    );
}

/// A pass says that it merged nothing exactly where the stream has as many segments
/// as before, and then nothing was changed.
pub proof fn law_no_merge_is_no_change(
    d: DbView,
    source: i64,
    stream: Seq<char>,
    spec: CompactSpec,
)
    requires
        d.wf(),
        d.segments_of(source, stream).len() <= usize::MAX,
    ensures
        compact::stream_compacted(d, source, stream, spec).1 matches Ok(c) ==> {
            &&& c.merges == 0 <==> c.after == c.before
            &&& c.after <= c.before
            &&& c.merges == 0 ==> compact::stream_compacted(d, source, stream, spec).0 == d
        },
{
    lemma_stream(d, source, stream, spec);
}

/// How many rows a merged segment may have: as many as the target, and one where the
/// target is none.
pub proof fn law_a_merged_segment_may_reach_the_target(spec: CompactSpec)
    ensures
        spec.most_rows() == vstd::math::max(spec.target_rows as int, 1),
{
}

/// A pass packs a stream as tightly as the target allows. Where it comes to its end,
/// the segments it leaves stand for runs of those before, and each run, of one segment
/// or of many, ends only at the end of the stream, where the next segment's rows would
/// take the run past the target, or where the schema changes.
pub proof fn law_a_pass_leaves_no_run_short(
    d: DbView,
    source: i64,
    stream: Seq<char>,
    spec: CompactSpec,
)
    requires
        d.wf(),
        d.segments_of(source, stream).len() <= usize::MAX,
        compact::stream_compacted(d, source, stream, spec).1 is Ok,
    ensures
        exists|cuts: Seq<int>|
            grouped(
                compact::stream_compacted(d, source, stream, spec).0.segments_of(source, stream),
                d.segments_of(source, stream),
                cuts,
                spec,
            ) && packed(d.segments_of(source, stream), cuts, spec),
{
    lemma_stream(d, source, stream, spec);
}

/// A pass comes to its end wherever the archive can be written, the source is there, and
/// no run of the stream's segments is one that cannot be merged.
pub proof fn law_a_pass_comes_to_its_end(
    d: DbView,
    source: i64,
    stream: Seq<char>,
    spec: CompactSpec,
)
    requires
        d.wf(),
        d.segments_of(source, stream).len() <= usize::MAX,
        d.writable(),
        d.has_source(source),
        forall|from: int, to: int|
            0 <= from < to <= d.segments_of(source, stream).len() ==> merge::merged(
                bytes_of(#[trigger] d.segments_of(source, stream).subrange(from, to)),
                spec.properties(),
                spec.schema,
                stream,
            ) is Ok,
    ensures
        compact::stream_compacted(d, source, stream, spec).1 is Ok,
{
    let was = d.segments_of(source, stream);
    lemma_stream(d, source, stream, spec);
    if exists|from: int, to: int| #[trigger] merge_refused(was, from, to, spec, stream) {
        let (from, to) = choose|from: int, to: int| #[trigger]
            merge_refused(was, from, to, spec, stream);
        assert(merge::merged(
            bytes_of(was.subrange(from, to)),
            spec.properties(),
            spec.schema,
            stream,
        ) is Ok);
    }
}

/// Whether a segment and its neighbour fit one segment of the target's size, and no
/// change of schema stands between them.
pub open spec fn neighbours_fit(was: Seq<SegmentView>, i: int, spec: CompactSpec) -> bool {
    &&& 0 <= i < was.len() - 1
    &&& was[i].meta.rows + was[i + 1].meta.rows <= vstd::math::max(spec.target_rows as int, 1)
    &&& !schema_changes(seq![was[i]], was[i + 1], spec.schema)
}

/// As many cuts as there are segments cut them one by one.
proof fn lemma_cut_singly(
    now: Seq<SegmentView>,
    was: Seq<SegmentView>,
    cuts: Seq<int>,
    spec: CompactSpec,
    g: int,
)
    requires
        grouped(now, was, cuts, spec),
        now.len() == was.len(),
        0 <= g <= now.len(),
    ensures
        cuts[g] == g,
{
    lemma_cuts_grow(now, was, cuts, spec, 0, g);
    lemma_cuts_grow(now, was, cuts, spec, g, now.len() as int);
}

proof fn lemma_cuts_grow(
    now: Seq<SegmentView>,
    was: Seq<SegmentView>,
    cuts: Seq<int>,
    spec: CompactSpec,
    a: int,
    b: int,
)
    requires
        grouped(now, was, cuts, spec),
        0 <= a <= b <= now.len(),
    ensures
        cuts[b] - cuts[a] >= b - a,
    decreases b - a,
{
    if a < b {
        lemma_cuts_grow(now, was, cuts, spec, a, b - 1);
        assert(stands_at(now, was, cuts, spec, b - 1));
    }
}

/// A pass merges what it can: where it comes to its end, and two neighbouring segments
/// of the stream fit the target together without a change of schema between them, it
/// has merged something.
pub proof fn law_a_pass_merges_what_fits(
    d: DbView,
    source: i64,
    stream: Seq<char>,
    spec: CompactSpec,
    i: int,
)
    requires
        d.wf(),
        d.segments_of(source, stream).len() <= usize::MAX,
        neighbours_fit(d.segments_of(source, stream), i, spec),
    ensures
        compact::stream_compacted(d, source, stream, spec).1 matches Ok(c) ==> c.merges > 0
            && c.after < c.before,
{
    let was = d.segments_of(source, stream);
    let (after, r) = compact::stream_compacted(d, source, stream, spec);
    lemma_stream(d, source, stream, spec);
    if r is Ok && (r->Ok_0).merges == 0 {
        let cuts = choose|cuts: Seq<int>|
            grouped(after.segments_of(source, stream), was, cuts, spec) && packed(
                was,
                cuts,
                spec,
            );
        lemma_cut_singly(was, was, cuts, spec, i);
        lemma_cut_singly(was, was, cuts, spec, i + 1);
        assert(run_is_full(was, cuts[i], cuts[i + 1], spec));
        let one = was.subrange(i, i + 1);
        assert(one =~= seq![was[i]]);
        assert(one.drop_last() =~= Seq::empty());
        assert(model::sealed_rows(one.drop_last()) == 0);
        assert(model::sealed_rows(one) == was[i].meta.rows);
    }
}

/// Two segments of one schema may be merged where a change of schema stops a run.
pub proof fn law_one_schema_is_no_change(a: SegmentView, b: SegmentView)
    requires
        readable::schema_in(a.bytes) is Ok,
        readable::schema_in(b.bytes) == readable::schema_in(a.bytes),
    ensures
        !schema_changes(seq![a], b, SchemaPolicy::StopAtChange),
{
}

/// Two segments of one schema may be merged where columns are united, if no two columns
/// of it have one name.
pub proof fn law_one_schema_has_no_clash(a: SegmentView, b: SegmentView)
    requires
        readable::schema_in(a.bytes) is Ok,
        readable::schema_in(b.bytes) == readable::schema_in(a.bytes),
        laws::named_apart((readable::schema_in(a.bytes)->Ok_0).columns),
    ensures
        !schema_changes(seq![a], b, SchemaPolicy::UnionFields),
{
    let run = seq![a];
    if exists|k: int, i: int, j: int|
        0 <= k < run.len() && #[trigger] clash(run[k].bytes, i, b.bytes, j) {
        let (k, i, j) = choose|k: int, i: int, j: int|
            0 <= k < run.len() && #[trigger] clash(run[k].bytes, i, b.bytes, j);
        let columns = (readable::schema_in(a.bytes)->Ok_0).columns;
        assert(columns[i].name == columns[j].name);
        if i < j {
            assert(columns[i].name != columns[j].name);
        } else if j < i {
            assert(columns[j].name != columns[i].name);
        }
    }
}

// ------------------------------------------------------------ a whole archive

proof fn lemma_streams_merge(
    d: DbView,
    source: i64,
    streams: Seq<Seq<char>>,
    total: Compacted,
    spec: CompactSpec,
)
    requires
        d.wf(),
        forall|st: Seq<char>| (#[trigger] d.segments_of(source, st)).len() <= usize::MAX,
    ensures
        compact::streams_compacted(d, source, streams, total, spec).1 matches Ok(t) ==> {
            &&& t.merges >= total.merges
            &&& t.merges == 0 ==> compact::streams_compacted(d, source, streams, total, spec).0 == d
            &&& t.merges == 0 ==> forall|k: int, i: int|
                0 <= k < streams.len() ==> !#[trigger] neighbours_fit(
                    d.segments_of(source, streams[k]),
                    i,
                    spec,
                )
        },
    decreases streams.len(),
{
    if streams.len() > 0 {
        let head = streams.drop_last();
        lemma_streams_merge(d, source, head, total, spec);
        let (was, r) = compact::streams_compacted(d, source, head, total, spec);
        let (now, all) = compact::streams_compacted(d, source, streams, total, spec);
        if all is Ok && (all->Ok_0).merges == 0 {
            assert((r->Ok_0).merges == 0);
            assert(was == d);
            let last = streams.last();
            lemma_stream(d, source, last, spec);
            assert forall|k: int, i: int| 0 <= k < streams.len() implies !#[trigger] neighbours_fit(
                d.segments_of(source, streams[k]),
                i,
                spec,
            ) by {
                if k < head.len() {
                    assert(head[k] == streams[k]);
                } else if neighbours_fit(d.segments_of(source, last), i, spec) {
                    law_a_pass_merges_what_fits(d, source, last, spec, i);
                }
            }
        }
    }
}

proof fn lemma_sources_merge(d: DbView, sources: Seq<SourceView>, spec: CompactSpec)
    requires
        d.wf(),
        forall|s: i64, st: Seq<char>| (#[trigger] d.segments_of(s, st)).len() <= usize::MAX,
    ensures
        compact::sources_compacted(d, sources, spec).1 matches Ok(t) ==> {
            &&& t.merges == 0 ==> compact::sources_compacted(d, sources, spec).0 == d
            &&& t.merges == 0 ==> forall|k: int, st: Seq<char>, i: int|
                0 <= k < sources.len() ==> !#[trigger] neighbours_fit(
                    d.segments_of(sources[k].id, st),
                    i,
                    spec,
                )
        },
    decreases sources.len(),
{
    if sources.len() > 0 {
        let head = sources.drop_last();
        lemma_sources_merge(d, head, spec);
        let (was, r) = compact::sources_compacted(d, head, spec);
        let all = compact::sources_compacted(d, sources, spec).1;
        let id = sources.last().id;
        if all is Ok && (all->Ok_0).merges == 0 {
            if (r->Ok_0).merges == 0 {
                lemma_streams_merge(d, id, d.streams_of(id), r->Ok_0, spec);
            } else {
                lemma_streams_only_count(was, id, was.streams_of(id), r->Ok_0, spec);
            }
            assert forall|k: int, st: Seq<char>, i: int| 0 <= k < sources.len() implies
                !#[trigger] neighbours_fit(
                d.segments_of(sources[k].id, st),
                i,
                spec,
            ) by {
                if k < head.len() {
                    assert(head[k] == sources[k]);
                } else if neighbours_fit(d.segments_of(id, st), i, spec) {
                    db::laws::law_a_stream_is_its_rows(d, id, st);
                    let j = choose|j: int|
                        0 <= j < d.streams_of(id).len() && d.streams_of(id)[j] == st;
                    assert(!neighbours_fit(d.segments_of(id, d.streams_of(id)[j]), i, spec));
                }
            }
        }
    }
}

/// Passes over streams do not forget the merges before them.
proof fn lemma_streams_only_count(
    d: DbView,
    source: i64,
    streams: Seq<Seq<char>>,
    total: Compacted,
    spec: CompactSpec,
)
    ensures
        compact::streams_compacted(d, source, streams, total, spec).1 matches Ok(t) ==> t.merges
            >= total.merges,
    decreases streams.len(),
{
    if streams.len() > 0 {
        lemma_streams_only_count(d, source, streams.drop_last(), total, spec);
    }
}

/// Compacting an archive leaves no stream out: where it comes to its end without a
/// merge, no stream of any source has two neighbouring segments that fit the target
/// together without a change of schema between them, and nothing was changed.
pub proof fn law_an_archive_merges_what_fits(d: DbView, spec: CompactSpec)
    requires
        d.wf(),
        forall|s: i64, st: Seq<char>| (#[trigger] d.segments_of(s, st)).len() <= usize::MAX,
    ensures
        compact::archive_compacted(d, spec).1 matches Ok(t) ==> t.merges == 0 ==> {
            &&& compact::archive_compacted(d, spec).0 == d
            &&& forall|k: int, st: Seq<char>, i: int|
                0 <= k < d.sources.len() ==> !#[trigger] neighbours_fit(
                    d.segments_of(d.sources[k].id, st),
                    i,
                    spec,
                )
        },
{
    lemma_sources_merge(d, d.sources, spec);
}

/// Whether a stream's segments stand for those it had, packed as tightly as the target
/// allows.
pub open spec fn squeezed(
    d: DbView,
    now: DbView,
    source: i64,
    stream: Seq<char>,
    spec: CompactSpec,
) -> bool {
    exists|cuts: Seq<int>|
        grouped(
            now.segments_of(source, stream),
            d.segments_of(source, stream),
            cuts,
            spec,
        ) && packed(d.segments_of(source, stream), cuts, spec)
}

/// Whether an archive has of a stream what another has.
pub open spec fn as_it_was(d: DbView, now: DbView, source: i64, stream: Seq<char>) -> bool {
    now.segments_of(source, stream) == d.segments_of(source, stream)
}

proof fn lemma_streams_squeezed(
    d: DbView,
    source: i64,
    streams: Seq<Seq<char>>,
    total: Compacted,
    spec: CompactSpec,
)
    requires
        d.wf(),
        forall|st: Seq<char>| (#[trigger] d.segments_of(source, st)).len() <= usize::MAX,
        forall|i: int, j: int|
            0 <= i < j < streams.len() ==> #[trigger] streams[i] != #[trigger] streams[j],
        compact::streams_compacted(d, source, streams, total, spec).1 is Ok,
    ensures
        ({
            let now = compact::streams_compacted(d, source, streams, total, spec).0;
            &&& now.wf()
            &&& now.sources == d.sources
            &&& now.wal == d.wal
            &&& now.clock_offsets == d.clock_offsets
            &&& now.caller_rows == d.caller_rows
            &&& forall|k: int|
                0 <= k < streams.len() ==> squeezed(d, now, source, #[trigger] streams[k], spec)
            &&& forall|s: i64, st: Seq<char>|
                s != source || !streams.contains(st) ==> #[trigger] as_it_was(d, now, s, st)
        }),
    decreases streams.len(),
{
    if streams.len() > 0 {
        let head = streams.drop_last();
        let last = streams.last();
        lemma_streams_squeezed(d, source, head, total, spec);
        let was = compact::streams_compacted(d, source, head, total, spec).0;
        let now = compact::streams_compacted(d, source, streams, total, spec).0;
        assert(!head.contains(last)) by {
            if head.contains(last) {
                let k = choose|k: int| 0 <= k < head.len() && head[k] == last;
                assert(streams[k] != streams[streams.len() - 1]);
            }
        }
        assert(as_it_was(d, was, source, last));
        lemma_stream(was, source, last, spec);
        assert(squeezed(d, now, source, last, spec));
        assert forall|k: int| 0 <= k < streams.len() implies squeezed(
            d,
            now,
            source,
            #[trigger] streams[k],
            spec,
        ) by {
            if k < head.len() {
                assert(head[k] == streams[k]);
                assert(streams[k] != streams[streams.len() - 1]);
                assert(squeezed(d, was, source, head[k], spec));
                assert(now.segments_of(source, head[k]) == was.segments_of(source, head[k]));
            }
        }
        assert forall|s: i64, st: Seq<char>| s != source || !streams.contains(st) implies
            #[trigger] as_it_was(d, now, s, st) by {
            assert(streams[streams.len() - 1] == last);
            if head.contains(st) {
                let k = choose|k: int| 0 <= k < head.len() && head[k] == st;
                assert(streams[k] == st);
            }
            assert(as_it_was(d, was, s, st));
            assert(now.segments_of(s, st) == was.segments_of(s, st));
        }
    }
}

proof fn lemma_sources_squeezed(d: DbView, sources: Seq<SourceView>, spec: CompactSpec)
    requires
        d.wf(),
        forall|s: i64, st: Seq<char>| (#[trigger] d.segments_of(s, st)).len() <= usize::MAX,
        forall|i: int, j: int|
            0 <= i < j < sources.len() ==> (#[trigger] sources[i]).id != (
            #[trigger] sources[j]).id,
        compact::sources_compacted(d, sources, spec).1 is Ok,
    ensures
        ({
            let now = compact::sources_compacted(d, sources, spec).0;
            &&& now.wf()
            &&& now.sources == d.sources
            &&& now.wal == d.wal
            &&& now.clock_offsets == d.clock_offsets
            &&& now.caller_rows == d.caller_rows
            &&& forall|k: int, st: Seq<char>|
                0 <= k < sources.len() ==> #[trigger] squeezed(d, now, sources[k].id, st, spec)
            &&& forall|s: i64, st: Seq<char>|
                (forall|k: int| 0 <= k < sources.len() ==> (#[trigger] sources[k]).id != s)
                    ==> #[trigger] as_it_was(d, now, s, st)
        }),
    decreases sources.len(),
{
    if sources.len() > 0 {
        let head = sources.drop_last();
        let id = sources.last().id;
        lemma_sources_squeezed(d, head, spec);
        let (was, r) = compact::sources_compacted(d, head, spec);
        let now = compact::sources_compacted(d, sources, spec).0;
        let streams = was.streams_of(id);
        assert forall|k: int| 0 <= k < head.len() implies (#[trigger] head[k]).id != id by {
            assert(head[k] == sources[k]);
            assert(sources[k].id != sources[sources.len() - 1].id);
        }
        assert forall|st: Seq<char>| (#[trigger] was.segments_of(id, st)).len() <= usize::MAX by {
            assert(as_it_was(d, was, id, st));
            assert(d.segments_of(id, st).len() <= usize::MAX);
        }
        db::laws::law_a_stream_is_its_rows(was, id, Seq::empty());
        assert forall|i: int, j: int| 0 <= i < j < streams.len() implies #[trigger] streams[i]
            != #[trigger] streams[j] by {
            text::lemma_text_order(streams[i], streams[j]);
        }
        lemma_streams_squeezed(was, id, streams, r->Ok_0, spec);
        assert forall|k: int, st: Seq<char>| 0 <= k < sources.len() implies #[trigger] squeezed(
            d,
            now,
            sources[k].id,
            st,
            spec,
        ) by {
            let s = sources[k].id;
            if k < head.len() {
                assert(head[k] == sources[k]);
                assert(squeezed(d, was, head[k].id, st, spec));
                assert(as_it_was(was, now, s, st));
            } else {
                assert(as_it_was(d, was, id, st));
                db::laws::law_a_stream_is_its_rows(was, id, st);
                if streams.contains(st) {
                    let j = choose|j: int| 0 <= j < streams.len() && streams[j] == st;
                    assert(squeezed(was, now, id, streams[j], spec));
                } else {
                    assert(as_it_was(was, now, id, st));
                    assert(was.segments_of(id, st).len() == 0);
                    let e = Seq::<SegmentView>::empty();
                    assert(now.segments_of(id, st) =~= e);
                    assert(d.segments_of(id, st) =~= e);
                    assert(grouped(e, e, seq![0int], spec));
                    assert(packed(e, seq![0int], spec));
                }
            }
        }
        assert forall|s: i64, st: Seq<char>|
            (forall|k: int| 0 <= k < sources.len() ==> (#[trigger] sources[k]).id != s) implies
            #[trigger] as_it_was(d, now, s, st) by {
            assert(sources[sources.len() - 1].id != s);
            assert forall|k: int| 0 <= k < head.len() implies (#[trigger] head[k]).id != s by {
                assert(head[k] == sources[k]);
            }
            assert(as_it_was(d, was, s, st));
            assert(as_it_was(was, now, s, st));
        }
    }
}

/// Compacting an archive packs every stream of every source as tightly as the target
/// allows, whichever of them had anything to merge: the segments it leaves stand for runs
/// of those before, and each run ends only at the end of the stream, where the next
/// segment would take it past the target, or where the schema changes. No source, live
/// row, clock observation or caller's row is touched.
pub proof fn law_an_archive_leaves_no_run_short(d: DbView, spec: CompactSpec)
    requires
        d.wf(),
        forall|s: i64, st: Seq<char>| (#[trigger] d.segments_of(s, st)).len() <= usize::MAX,
        compact::archive_compacted(d, spec).1 is Ok,
    ensures
        ({
            let now = compact::archive_compacted(d, spec).0;
            &&& now.sources == d.sources
            &&& now.wal == d.wal
            &&& now.clock_offsets == d.clock_offsets
            &&& now.caller_rows == d.caller_rows
            &&& forall|k: int, st: Seq<char>|
                0 <= k < d.sources.len() ==> #[trigger] squeezed(
                    d,
                    now,
                    d.sources[k].id,
                    st,
                    spec,
                )
        }),
{
    assert forall|i: int, j: int| 0 <= i < j < d.sources.len() implies (
    #[trigger] d.sources[i]).id != (#[trigger] d.sources[j]).id by {
        assert(SourceRow::key_of(d.sources[i]) != SourceRow::key_of(d.sources[j]));
    }
    lemma_sources_squeezed(d, d.sources, spec);
    let was = compact::sources_compacted(d, d.sources, spec).0;
    let now = compact::archive_compacted(d, spec).0;
    assert(now.segments == was.segments);
    assert forall|k: int, st: Seq<char>| 0 <= k < d.sources.len() implies #[trigger] squeezed(
        d,
        now,
        d.sources[k].id,
        st,
        spec,
    ) by {
        assert(squeezed(d, was, d.sources[k].id, st, spec));
        assert(now.segments_of(d.sources[k].id, st) == was.segments_of(d.sources[k].id, st));
    }
}

// ------------------------------------------------------------ what follows

/// Whether the catalog counts a segment's rows as its file has them.
pub open spec fn counted_right(v: SegmentView) -> bool {
    readable::rows_in(v.bytes) matches Ok(read) && v.meta.rows == laws::row_count(
        read.batches,
    )
}

proof fn lemma_rows_in_order(
    batches: Seq<BatchView>,
    from: Seq<ColumnView>,
    to: Seq<ColumnView>,
)
    ensures
        laws::row_count(laws::in_order_of(batches, from, to)) == laws::row_count(batches),
    decreases batches.len(),
{
    if batches.len() > 0 {
        lemma_rows_in_order(batches.drop_last(), from, to);
        assert(laws::in_order_of(batches, from, to).drop_last() =~= laws::in_order_of(
            batches.drop_last(),
            from,
            to,
        ));
    }
}

proof fn lemma_row_count_joined(a: Seq<BatchView>, b: Seq<BatchView>)
    ensures
        laws::row_count(a + b) == laws::row_count(a) + laws::row_count(b),
    decreases b.len(),
{
    if b.len() == 0 {
        assert(a + b =~= a);
    } else {
        assert((a + b).drop_last() =~= a + b.drop_last());
        lemma_row_count_joined(a, b.drop_last());
    }
}

proof fn lemma_rows_of_run(run: Seq<SegmentView>, columns: Seq<ColumnView>)
    requires
        forall|i: int| 0 <= i < run.len() ==> counted_right(#[trigger] run[i]),
    ensures
        laws::row_count(laws::rows_of_segments(bytes_of(run), columns)) == model::sealed_rows(run),
    decreases run.len(),
{
    if run.len() > 0 {
        let head = run.drop_last();
        assert forall|i: int| 0 <= i < head.len() implies counted_right(#[trigger] head[i]) by {
            assert(head[i] == run[i]);
        }
        lemma_rows_of_run(head, columns);
        assert(bytes_of(run).drop_last() =~= bytes_of(head));
        let last = run[run.len() - 1];
        assert(counted_right(last));
        let read = readable::rows_in(last.bytes)->Ok_0;
        lemma_rows_in_order(read.batches, merge::columns_of(last.bytes), columns);
        lemma_row_count_joined(
            laws::rows_of_segments(bytes_of(head), columns),
            laws::rows_of_segment(last.bytes, columns),
        );
    }
}

/// A merged segment has the rows of those it stands for, and no more than the
/// target, where the catalog counts them as their files have them.
pub proof fn law_a_merged_segment_fits_the_target(
    v: SegmentView,
    run: Seq<SegmentView>,
    spec: CompactSpec,
)
    requires
        run.len() >= 2,
        stands_for(v, run, spec),
        forall|i: int| 0 <= i < run.len() ==> counted_right(#[trigger] run[i]),
        model::sealed_rows(run) <= u64::MAX,
    ensures
        v.meta.rows == model::sealed_rows(run),
        v.meta.rows <= vstd::math::max(spec.target_rows as int, 1),
{
    let schema = choose|schema: SchemaView| #[trigger]
        written_of(v, run, schema, spec.properties());
    lemma_rows_of_run(run, schema.columns);
}

/// Compaction keeps a stream's span: the first segment begins where the first
/// began, and the last ends where the last ended.
pub proof fn law_compaction_keeps_the_span(
    now: Seq<SegmentView>,
    was: Seq<SegmentView>,
    cuts: Seq<int>,
    spec: CompactSpec,
)
    requires
        grouped(now, was, cuts, spec),
        was.len() > 0,
    ensures
        now.len() > 0,
        now[0].meta.first_ts == was[0].meta.first_ts,
        now.last().meta.last_ts == was.last().meta.last_ts,
        forall|g: int|
            0 <= g < now.len() ==> {
                &&& (#[trigger] now[g]).meta.first_ts == was[cuts[g]].meta.first_ts
                &&& now[g].meta.last_ts == was[cuts[g + 1] - 1].meta.last_ts
            },
{
    assert(now.len() > 0) by {
        if now.len() == 0 {
            assert(cuts[0] == cuts.last());
        }
    }
    assert forall|g: int| 0 <= g < now.len() implies {
        &&& (#[trigger] now[g]).meta.first_ts == was[cuts[g]].meta.first_ts
        &&& now[g].meta.last_ts == was[cuts[g + 1] - 1].meta.last_ts
    } by {
        assert(stands_at(now, was, cuts, spec, g));
        let run = was.subrange(cuts[g], cuts[g + 1]);
        assert(run[0] == was[cuts[g]]);
        assert(run[run.len() - 1] == was[cuts[g + 1] - 1]);
    }
    let last = now.len() - 1;
    assert(now[last].meta.last_ts == was[cuts[last + 1] - 1].meta.last_ts);
}

} // verus!
