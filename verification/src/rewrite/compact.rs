//! Compaction: merging a stream's small adjacent segments into larger ones, in
//! place.

use parquet::file::properties::WriterProperties;
use vstd::prelude::*;

use super::merge;
use super::merge::{concat_parquet, SchemaPolicy};
use super::parquet_file;
use super::parquet_file::{writer_props, Codec};
use crate::db::model::DbView;
use crate::db::records::SegmentAtView;
use crate::db::store;
use crate::db::{Db, SegmentMeta, SegmentView, SourceView};
use crate::error::{Error, ErrorView};
use crate::seqs;

verus! {

broadcast use crate::seqs::group_views;

/// A segment's number and its catalog facts.
pub type Listed = (u64, SegmentMeta);

/// What one compaction pass aims for.
pub struct CompactSpec {
    /// Merge adjacent segments until the next one would push the total past
    /// this. A run of one is left alone.
    pub target_rows: u64,
    /// Properties for the merged segment. `None` uses the archive's own; a
    /// caller whose encoder writes with other settings must pass them.
    pub writer_props: Option<WriterProperties>,
    /// What to do when adjacent segments disagree about their schema.
    pub schema: SchemaPolicy,
}

impl CompactSpec {
    /// Merge toward segments of `target_rows`, with the archive's own writer
    /// properties, stopping a run at any schema change.
    pub fn to_rows(target_rows: u64) -> (r: CompactSpec)
        ensures
            r == (CompactSpec {
                target_rows,
                writer_props: None,
                schema: SchemaPolicy::StopAtChange,
            }),
    {
        CompactSpec { target_rows, writer_props: None, schema: SchemaPolicy::StopAtChange }
    }

    /// This spec, merging across segments whose sets of columns differ.
    pub fn unioning_fields(self) -> (r: CompactSpec)
        ensures
            r == (CompactSpec { schema: SchemaPolicy::UnionFields, ..self }),
    {
        CompactSpec {
            target_rows: self.target_rows,
            writer_props: self.writer_props,
            schema: SchemaPolicy::UnionFields,
        }
    }

    /// The properties a merged segment is written with.
    pub open spec fn properties(self) -> WriterProperties {
        match self.writer_props {
            Some(p) => p,
            None => parquet_file::properties_of(Codec::Lz4Raw, false),
        }
    }

    /// How many rows a merged segment may have: the target, and one at least.
    pub open spec fn most_rows(self) -> int {
        if self.target_rows > 1 {
            self.target_rows as int
        } else {
            1
        }
    }
}

/// What one compaction pass did.
#[derive(Clone, Copy, Debug, PartialEq, Eq, Structural)]
pub struct Compacted {
    /// Sealed segments before the pass, across everything it looked at.
    pub before: usize,
    /// And after. The difference is what a reader stops paying for.
    pub after: usize,
    /// How many merges were performed.
    pub merges: usize,
}

impl Default for Compacted {
    fn default() -> (r: Compacted)
        ensures
            r == (Compacted { before: 0, after: 0, merges: 0 }),
    {
        Compacted { before: 0, after: 0, merges: 0 }
    }
}

// ------------------------------------------------------------ one stream

/// Where a run that fits the target ends, from where it is known to reach with
/// so many rows.
pub open spec fn run_end(metas: Seq<Listed>, end: nat, rows: int, most: int) -> nat
    decreases metas.len() - end,
{
    if end < metas.len() && rows + metas[end as int].1.rows <= most {
        run_end(metas, end + 1, rows + metas[end as int].1.rows, most)
    } else {
        end
    }
}

/// The files of listed segments, up to one that is not there.
pub open spec fn files_of(segments: Seq<SegmentView>, metas: Seq<Listed>) -> Seq<Seq<u8>>
    decreases metas.len(),
{
    if metas.len() == 0 {
        Seq::empty()
    } else {
        match store::bytes_at(segments, metas[0].0) {
            None => Seq::empty(),
            Some(b) => seq![b] + files_of(segments, metas.skip(1)),
        }
    }
}

/// The archive without listed segments of a stream.
pub open spec fn without_run(d: DbView, source: i64, stream: Seq<char>, run: Seq<Listed>) -> DbView
    decreases run.len(),
{
    if run.len() == 0 {
        d
    } else {
        without_run(d, source, stream, run.drop_last()).without_segment(
            source,
            stream,
            run.last().0,
        )
    }
}

/// The segment that stands for a run: under its first's number, over its span,
/// without an index, since nothing can combine two.
pub open spec fn run_segment(
    source: i64,
    stream: Seq<char>,
    run: Seq<Listed>,
    file: Seq<u8>,
    rows: u64,
) -> SegmentAtView {
    SegmentAtView {
        source_id: source,
        stream,
        row: SegmentView {
            seq: run[0].0,
            meta: SegmentMeta {
                rows,
                first_ts: run[0].1.first_ts,
                last_ts: run.last().1.last_ts,
            },
            bytes: file,
            caller_index: None,
        },
    }
}

/// Putting one segment in the place of a run, in one transaction.
pub open spec fn run_replaced(
    d: DbView,
    source: i64,
    stream: Seq<char>,
    run: Seq<Listed>,
    file: Seq<u8>,
    rows: u64,
) -> Result<DbView, ErrorView> {
    let without = without_run(d, source, stream, run);
    store::transacted(
        d,
        match without.segment_inserted(run_segment(source, stream, run, file, rows)) {
            Ok(n) => (n, None),
            Err(e) => (without, Some(e)),
        },
    )
}

/// Compacting a stream from one of its segments on: the archive then, and what
/// was done or what stopped it.
pub open spec fn compacted_from(
    d: DbView,
    source: i64,
    stream: Seq<char>,
    metas: Seq<Listed>,
    at: nat,
    done: Compacted,
    spec: CompactSpec,
) -> (DbView, Result<Compacted, ErrorView>)
    decreases metas.len() - at,
{
    if at >= metas.len() {
        (d, Ok(done))
    } else {
        let end = run_end(metas, at, 0, spec.most_rows());
        let files = files_of(
            d.segments_of(source, stream),
            metas.subrange(at as int, end as int),
        );
        if end < at + 2 || end > metas.len() || files.len() == 0 {
            compacted_from(
                d,
                source,
                stream,
                metas,
                at + 1,
                done,
                spec,
            )
        } else {
            match merge::merged(files, spec.properties(), spec.schema, stream) {
                Err(e) => (d, Err(e)),
                Ok((file, rows, n)) => if n < 2 || n > end - at {
                    compacted_from(d, source, stream, metas, at + 1, done, spec)
                } else {
                    match run_replaced(
                        d,
                        source,
                        stream,
                        metas.subrange(at as int, (at + n) as int),
                        file,
                        rows,
                    ) {
                        Err(e) => (d, Err(e)),
                        Ok(next) => compacted_from(
                            next,
                            source,
                            stream,
                            metas,
                            at + n,
                            Compacted {
                                after: (done.after - (n - 1)) as usize,
                                merges: (done.merges + 1) as usize,
                                ..done
                            },
                            spec,
                        ),
                    }
                },
            }
        }
    }
}

/// Compacting a stream.
pub open spec fn stream_compacted(d: DbView, source: i64, stream: Seq<char>, spec: CompactSpec) -> (
    DbView,
    Result<Compacted, ErrorView>,
) {
    let metas = store::metas_of(d.segments_of(source, stream));
    compacted_from(
        d,
        source,
        stream,
        metas,
        0,
        Compacted { before: metas.len() as usize, after: metas.len() as usize, merges: 0 },
        spec,
    )
}

proof fn lemma_run_end(metas: Seq<Listed>, end: nat, rows: int, most: int)
    requires
        end <= metas.len(),
    ensures
        end <= run_end(metas, end, rows, most) <= metas.len(),
    decreases metas.len() - end,
{
    if end < metas.len() && rows + metas[end as int].1.rows <= most {
        lemma_run_end(metas, end + 1, rows + metas[end as int].1.rows, most);
    }
}

fn plan_run(metas: &Vec<Listed>, at: usize, spec: &CompactSpec) -> (r: usize)
    requires
        at <= metas@.len(),
    ensures
        r == run_end(metas@, at as nat, 0, spec.most_rows()),
        at <= r <= metas@.len(),
{
    let most: u64 = if spec.target_rows > 1 {
        spec.target_rows
    } else {
        1
    };
    let mut end: usize = at;
    let mut rows: u64 = 0;
    while end < metas.len() && metas[end].1.rows <= most - rows
        invariant
            at <= end <= metas@.len(),
            rows <= most,
            most == spec.most_rows(),
            run_end(metas@, at as nat, 0, most as int) == run_end(
                metas@,
                end as nat,
                rows as int,
                most as int,
            ),
        decreases metas@.len() - end,
    {
        rows = rows + metas[end].1.rows;
        end += 1;
    }
    end
}

fn read_files(db: &Db, source_id: i64, stream: &str, metas: &Vec<Listed>, at: usize, end: usize) -> (r:
    Vec<Vec<u8>>)
    requires
        at <= end <= metas@.len(),
    ensures
        seqs::views(r@) == files_of(
            db@.segments_of(source_id, stream@),
            metas@.subrange(at as int, end as int),
        ),
        r@.len() <= end - at,
{
    let ghost segments = db@.segments_of(source_id, stream@);
    let ghost run = metas@.subrange(at as int, end as int);
    let mut out: Vec<Vec<u8>> = Vec::new();
    let mut i: usize = at;
    proof {
        seqs::lemma_views_empty::<Vec<u8>>();
        assert(run.skip(0) =~= run);
        assert(Seq::<Seq<u8>>::empty() + files_of(segments, run) =~= files_of(segments, run));
    }
    while i < end
        invariant
            at <= i <= end <= metas@.len(),
            segments == db@.segments_of(source_id, stream@),
            run == metas@.subrange(at as int, end as int),
            out@.len() == i - at,
            files_of(segments, run) == seqs::views(out@) + files_of(segments, run.skip(i - at)),
        decreases end - i,
    {
        let ghost was = seqs::views(out@);
        let ghost rest = run.skip(i - at);
        proof {
            assert(rest[0] == metas@[i as int]);
            assert(rest.skip(1) =~= run.skip(i - at + 1));
        }
        match db.read_segment_bytes(source_id, stream, metas[i].0) {
            None => {
                proof {
                    assert(was + Seq::<Seq<u8>>::empty() =~= was);
                }
                return out;
            },
            Some(b) => {
                let ghost bv = b@;
                out.push(b);
                proof {
                    assert(was + (seq![bv] + files_of(segments, rest.skip(1))) =~= was.push(bv)
                        + files_of(segments, rest.skip(1)));
                }
            },
        }
        i += 1;
    }
    proof {
        assert(run.skip(i - at) =~= Seq::empty());
        assert(seqs::views(out@) + Seq::<Seq<u8>>::empty() =~= seqs::views(out@));
    }
    out
}

fn replace_run(
    db: &mut Db,
    source_id: i64,
    stream: &str,
    metas: &Vec<Listed>,
    at: usize,
    n: usize,
    file: &Vec<u8>,
    rows: u64,
) -> (r: Result<(), Error>)
    requires
        0 < n,
        at + n <= metas@.len(),
    ensures
        store::changed(
            r,
            old(db)@,
            final(db)@,
            run_replaced(
                old(db)@,
                source_id,
                stream@,
                metas@.subrange(at as int, at + n),
                file@,
                rows,
            ),
        ),
{
    let ghost d = db@;
    let ghost run = metas@.subrange(at as int, at + n);
    let count: usize = metas.len();
    let mut tx = match db.begin() {
        Err(e) => {
            return Err(e);
        },
        Ok(t) => t,
    };
    let mut i: usize = 0;
    while i < n
        invariant
            i <= n,
            at + n <= metas@.len(),
            count == metas@.len(),
            run == metas@.subrange(at as int, at + n),
            db@ == d,
            tx@ == without_run(d, source_id, stream@, run.take(i as int)),
        decreases n - i,
    {
        proof {
            assert(run.take(i + 1).drop_last() =~= run.take(i as int));
            assert(run.take(i + 1).last() == metas@[at + i]);
        }
        tx.delete_segment(source_id, stream, metas[at + i].0);
        i += 1;
    }
    proof {
        assert(run.take(i as int) =~= run);
        assert(run[0] == metas@[at as int]);
        assert(run.last() == metas@[at + n - 1]);
    }
    let meta = SegmentMeta {
        rows,
        first_ts: metas[at].1.first_ts,
        last_ts: metas[at + n - 1].1.last_ts,
    };
    match tx.insert_segment(source_id, stream, metas[at].0, &meta, file.as_slice()) {
        Err(e) => Err(e),
        Ok(_) => {
            db.commit(tx);
            Ok(())
        },
    }
}

/// Merge a stream's small adjacent segments into larger ones, in place.
///
/// The live tail is not touched, and neither is a run of one. Each merge is one
/// transaction, in which the merged segment takes the place of its run; the
/// caller's index is dropped on it. The file does not shrink: what is replaced
/// goes on the free list.
pub fn compact_stream(db: &mut Db, source_id: i64, stream: &str, spec: &CompactSpec) -> (r: Result<
    Compacted,
    Error,
>)
    ensures
        ({
            let (d, outcome) = stream_compacted(old(db)@, source_id, stream@, *spec);
            &&& final(db)@ == d
            &&& match outcome {
                Ok(c) => r == Ok::<Compacted, Error>(c),
                Err(e) => r matches Err(x) && x@ == e,
            }
        }),
{
    let metas = db.read_segment_meta(source_id, stream);
    let ghost d = db@;
    let ghost start = Compacted {
        before: metas@.len() as usize,
        after: metas@.len() as usize,
        merges: 0,
    };
    let mut done = Compacted { before: metas.len(), after: metas.len(), merges: 0 };
    let mut at: usize = 0;
    while at < metas.len()
        invariant
            at <= metas@.len(),
            done.after >= metas@.len() - at,
            done.merges <= at,
            compacted_from(d, source_id, stream@, metas@, 0, start, *spec) == compacted_from(
                db@,
                source_id,
                stream@,
                metas@,
                at as nat,
                done,
                *spec,
            ),
            stream_compacted(old(db)@, source_id, stream@, *spec) == compacted_from(
                d,
                source_id,
                stream@,
                metas@,
                0,
                start,
                *spec,
            ),
        decreases metas@.len() - at,
    {
        let end: usize = plan_run(&metas, at, spec);
        if end - at < 2 {
            at += 1;
            continue ;
        }
        let files = read_files(db, source_id, stream, &metas, at, end);
        if files.len() == 0 {
            at += 1;
            continue ;
        }
        let outcome = match &spec.writer_props {
            Some(p) => concat_parquet(&files, p, spec.schema, stream),
            None => concat_parquet(&files, &writer_props(), spec.schema, stream),
        };
        let (file, rows, n) = match outcome {
            Err(e) => {
                return Err(e);
            },
            Ok(p) => p,
        };
        if n < 2 {
            at += 1;
            continue ;
        }
        match replace_run(db, source_id, stream, &metas, at, n, &file, rows) {
            Err(e) => {
                return Err(e);
            },
            Ok(_) => {},
        }
        done = Compacted {
            before: done.before,
            after: done.after - (n - 1),
            merges: done.merges + 1,
        };
        at += n;
    }
    Ok(done)
}

// ------------------------------------------------------------ whole archives

/// Two counts together, as far as they go.
pub open spec fn counted(a: usize, b: usize) -> usize {
    if a + b <= usize::MAX {
        (a + b) as usize
    } else {
        usize::MAX
    }
}

/// What two passes came to.
pub open spec fn both(a: Compacted, b: Compacted) -> Compacted {
    Compacted {
        before: counted(a.before, b.before),
        after: counted(a.after, b.after),
        merges: counted(a.merges, b.merges),
    }
}

fn count(a: usize, b: usize) -> (r: usize)
    ensures
        r == counted(a, b),
{
    match a.checked_add(b) {
        Some(n) => n,
        None => usize::MAX,
    }
}

/// Compacting streams of a source one after the other, until one stops it.
pub open spec fn streams_compacted(
    d: DbView,
    source: i64,
    streams: Seq<Seq<char>>,
    total: Compacted,
    spec: CompactSpec,
) -> (DbView, Result<Compacted, ErrorView>)
    decreases streams.len(),
{
    if streams.len() == 0 {
        (d, Ok(total))
    } else {
        let (was, r) = streams_compacted(d, source, streams.drop_last(), total, spec);
        match r {
            Err(_) => (was, r),
            Ok(t) => {
                let (now, one) = stream_compacted(was, source, streams.last(), spec);
                (
                    now,
                    match one {
                        Ok(c) => Ok(both(t, c)),
                        Err(e) => Err(e),
                    },
                )
            },
        }
    }
}

/// Compacting sources one after the other, until a stream stops it.
pub open spec fn sources_compacted(d: DbView, sources: Seq<SourceView>, spec: CompactSpec) -> (
    DbView,
    Result<Compacted, ErrorView>,
)
    decreases sources.len(),
{
    if sources.len() == 0 {
        (d, Ok(Compacted { before: 0, after: 0, merges: 0 }))
    } else {
        let (was, r) = sources_compacted(d, sources.drop_last(), spec);
        match r {
            Err(_) => (was, r),
            Ok(t) => streams_compacted(
                was,
                sources.last().id,
                was.streams_of(sources.last().id),
                t,
                spec,
            ),
        }
    }
}

/// Compacting an archive, and handing the freed pages back where anything was
/// merged.
pub open spec fn archive_compacted(d: DbView, spec: CompactSpec) -> (
    DbView,
    Result<Compacted, ErrorView>,
) {
    let (was, r) = sources_compacted(d, d.sources, spec);
    match r {
        Err(_) => (was, r),
        Ok(t) => if t.merges == 0 {
            (was, r)
        } else {
            match store::written(was, Ok(was.vacuumed(u32::MAX))) {
                Err(e) => (was, Err(e)),
                Ok(now) => (now, r),
            }
        },
    }
}

proof fn lemma_streams_stop(
    d: DbView,
    source: i64,
    streams: Seq<Seq<char>>,
    total: Compacted,
    spec: CompactSpec,
    n: int,
)
    requires
        0 <= n <= streams.len(),
        streams_compacted(d, source, streams.take(n), total, spec).1 is Err,
    ensures
        streams_compacted(d, source, streams, total, spec) == streams_compacted(
            d,
            source,
            streams.take(n),
            total,
            spec,
        ),
    decreases streams.len() - n,
{
    if n == streams.len() {
        assert(streams.take(n) =~= streams);
    } else {
        assert(streams.take(n + 1).drop_last() =~= streams.take(n));
        lemma_streams_stop(d, source, streams, total, spec, n + 1);
    }
}

proof fn lemma_sources_stop(d: DbView, sources: Seq<SourceView>, spec: CompactSpec, n: int)
    requires
        0 <= n <= sources.len(),
        sources_compacted(d, sources.take(n), spec).1 is Err,
    ensures
        sources_compacted(d, sources, spec) == sources_compacted(d, sources.take(n), spec),
    decreases sources.len() - n,
{
    if n == sources.len() {
        assert(sources.take(n) =~= sources);
    } else {
        assert(sources.take(n + 1).drop_last() =~= sources.take(n));
        lemma_sources_stop(d, sources, spec, n + 1);
    }
}

fn compact_source(db: &mut Db, source_id: i64, total: Compacted, spec: &CompactSpec) -> (r: Result<
    Compacted,
    Error,
>)
    ensures
        ({
            let (d, outcome) = streams_compacted(
                old(db)@,
                source_id,
                old(db)@.streams_of(source_id),
                total,
                *spec,
            );
            &&& final(db)@ == d
            &&& match outcome {
                Ok(c) => r == Ok::<Compacted, Error>(c),
                Err(e) => r matches Err(x) && x@ == e,
            }
        }),
{
    let ghost d = db@;
    let names = db.all_streams(source_id);
    let ghost all = seqs::views(names@);
    let mut sum: Compacted = total;
    let mut i: usize = 0;
    while i < names.len()
        invariant
            i <= names@.len(),
            d == old(db)@,
            all == seqs::views(names@),
            all == d.streams_of(source_id),
            streams_compacted(d, source_id, all.take(i as int), total, *spec) == (
                db@,
                Ok::<Compacted, ErrorView>(sum),
            ),
        decreases names@.len() - i,
    {
        proof {
            assert(all.take(i + 1).drop_last() =~= all.take(i as int));
            assert(all.take(i + 1).last() == names@[i as int]@);
        }
        match compact_stream(db, source_id, names[i].as_str(), spec) {
            Err(e) => {
                proof {
                    lemma_streams_stop(d, source_id, all, total, *spec, i + 1);
                }
                return Err(e);
            },
            Ok(one) => {
                sum = Compacted {
                    before: count(sum.before, one.before),
                    after: count(sum.after, one.after),
                    merges: count(sum.merges, one.merges),
                };
            },
        }
        i += 1;
    }
    proof {
        assert(all.take(i as int) =~= all);
    }
    Ok(sum)
}

/// Compact every stream of every source, then hand the freed pages back to the
/// filesystem. Uncapped: nothing else may be writing.
pub fn compact(db: &mut Db, spec: &CompactSpec) -> (r: Result<Compacted, Error>)
    ensures
        ({
            let (d, outcome) = archive_compacted(old(db)@, *spec);
            &&& final(db)@ == d
            &&& match outcome {
                Ok(c) => r == Ok::<Compacted, Error>(c),
                Err(e) => r matches Err(x) && x@ == e,
            }
        }),
{
    let ghost d = db@;
    let sources = db.read_sources();
    let ghost all = seqs::views(sources@);
    let mut total = Compacted { before: 0, after: 0, merges: 0 };
    let mut i: usize = 0;
    while i < sources.len()
        invariant
            i <= sources@.len(),
            d == old(db)@,
            all == seqs::views(sources@),
            all == d.sources,
            sources_compacted(d, all.take(i as int), *spec) == (
                db@,
                Ok::<Compacted, ErrorView>(total),
            ),
        decreases sources@.len() - i,
    {
        proof {
            assert(all.take(i + 1).drop_last() =~= all.take(i as int));
            assert(all.take(i + 1).last() == sources@[i as int]@);
        }
        match compact_source(db, sources[i].id, total, spec) {
            Err(e) => {
                proof {
                    lemma_sources_stop(d, all, *spec, i + 1);
                }
                return Err(e);
            },
            Ok(t) => {
                total = t;
            },
        }
        i += 1;
    }
    proof {
        assert(all.take(i as int) =~= all);
    }
    if total.merges > 0 {
        match db.incremental_vacuum(u32::MAX) {
            Err(e) => {
                return Err(e);
            },
            Ok(_) => {},
        }
    }
    Ok(total)
}

} // verus!
