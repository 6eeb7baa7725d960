//! Copying sources into another archive, without decoding a segment unless
//! columns are dropped.

use parquet::file::properties::WriterProperties;
use vstd::prelude::*;

use super::parquet_file;
use super::parquet_file::{writer_props, Codec};
use super::project;
use super::project::{project_segment_columns, ColumnFilter};
use crate::db::model::DbView;
use crate::db::records::{CallerAtView, ClockAt, SegmentAtView};
use crate::db::store;
use crate::db::{
    CallerView, Db, SegmentMeta, SegmentView, SourceMeta, SourceMetaView, SourceRow, SourceView, Tx,
    WalView,
};
use crate::error::{Error, ErrorView};
use crate::segment;
use crate::segment::{check_encoder, materialize, SegmentEncoder};
use crate::seqs;
use crate::text::same_text;
use crate::text_map;
use crate::text_map::{Entry, TextMap};

verus! {

broadcast use crate::seqs::group_views;

/// What one copy pass carries across.
pub struct CopySpec<'a, C: ColumnFilter> {
    /// Row-timestamp bound. A segment is carried whole when it overlaps
    /// `[start, end]` at all.
    pub start: i64,
    /// The other end of that bound, inclusive.
    pub end: i64,
    /// Keep only these streams; `None` keeps every stream. See
    /// [`accepted_streams`] for those that a predicate accepts.
    pub keep_streams: Option<Vec<String>>,
    /// Extra metadata merged into each copied source's own, overwriting on key
    /// collision.
    pub metadata_extra: Option<TextMap>,
    /// Project each copied segment down to the columns this accepts; `None`
    /// passes segments through as they are. A segment left with no data column
    /// is dropped.
    pub keep_columns: Option<&'a C>,
    /// Writer properties for a projected segment. `None` uses the archive's own.
    pub writer_props: Option<WriterProperties>,
}

impl<'a, C: ColumnFilter> CopySpec<'a, C> {
    /// The properties a projection writes with.
    pub open spec fn properties(self) -> WriterProperties {
        match self.writer_props {
            Some(p) => p,
            None => parquet_file::properties_of(Codec::Lz4Raw, false),
        }
    }

    /// Whether a stream is kept.
    pub open spec fn keeps(self, stream: Seq<char>) -> bool {
        match self.keep_streams {
            None => true,
            Some(names) => seqs::views(names@).contains(stream),
        }
    }

    /// The metadata a copied source gets.
    pub open spec fn metadata(self, own: Seq<Entry>) -> Seq<Entry> {
        match self.metadata_extra {
            None => own,
            Some(extra) => text_map::put_entries(own, extra@),
        }
    }

    /// Every source, every table, every row, metadata untouched.
    ///
    /// From the least timestamp there is, not from zero: a timestamp is signed.
    pub fn everything() -> (r: CopySpec<'a, C>)
        ensures
            r.start == i64::MIN,
            r.end == i64::MAX,
            r.keep_streams is None,
            r.metadata_extra is None,
            r.keep_columns is None,
            r.writer_props is None,
    {
        CopySpec {
            start: i64::MIN,
            end: i64::MAX,
            keep_streams: None,
            metadata_extra: None,
            keep_columns: None,
            writer_props: None,
        }
    }

    fn keeps_stream(&self, stream: &str) -> (r: bool)
        ensures
            r == self.keeps(stream@),
    {
        match &self.keep_streams {
            None => true,
            Some(names) => holds_name(names, stream),
        }
    }
}

// ------------------------------------------------------------ streams

/// What a segment's file becomes on the way across, with the index it keeps:
/// itself, or a projection of it, without one; or nothing.
pub open spec fn carried<C: ColumnFilter>(
    spec: CopySpec<C>,
    file: Seq<u8>,
    index: Option<Seq<u8>>,
) -> Result<Option<(Seq<u8>, Option<Seq<u8>>)>, ErrorView> {
    match spec.keep_columns {
        None => Ok(Some((file, index))),
        Some(filter) => match project::projected(file, *filter, spec.properties()) {
            Err(e) => Err(e),
            Ok(None) => Ok(None),
            Ok(Some(b)) => Ok(Some((b, None))),
        },
    }
}

/// How far the copying of a stream has come: the destination, the number its
/// next segment gets, and what stopped it.
pub struct CopyRun {
    pub to: DbView,
    pub seq: u64,
    pub refusal: Option<ErrorView>,
}

/// The number after a number, as far as they go.
pub open spec fn following(seq: u64) -> u64 {
    if seq < u64::MAX {
        (seq + 1) as u64
    } else {
        seq
    }
}

/// Copying one segment. Numbers are dense and start at zero, whatever the
/// source's are.
pub open spec fn segment_copied<C: ColumnFilter>(
    run: CopyRun,
    id: i64,
    stream: Seq<char>,
    meta: SegmentMeta,
    file: Seq<u8>,
    index: Option<Seq<u8>>,
    spec: CopySpec<C>,
) -> CopyRun {
    match carried(spec, file, index) {
        Err(e) => CopyRun { refusal: Some(e), ..run },
        Ok(None) => run,
        Ok(Some((b, x))) => match run.to.segment_inserted(
            SegmentAtView {
                source_id: id,
                stream,
                row: SegmentView { seq: run.seq, meta, bytes: b, caller_index: x },
            },
        ) {
            Err(e) => CopyRun { refusal: Some(e), ..run },
            Ok(n) => CopyRun { to: n, seq: following(run.seq), refusal: None },
        },
    }
}

/// Copying segments, until one is refused.
pub open spec fn segments_copied<C: ColumnFilter>(
    to: DbView,
    id: i64,
    stream: Seq<char>,
    segments: Seq<SegmentView>,
    spec: CopySpec<C>,
) -> CopyRun
    decreases segments.len(),
{
    if segments.len() == 0 {
        CopyRun { to, seq: 0, refusal: None }
    } else {
        let run = segments_copied(to, id, stream, segments.drop_last(), spec);
        let s = segments.last();
        if run.refusal is Some {
            run
        } else {
            segment_copied(run, id, stream, s.meta, s.bytes, s.caller_index, spec)
        }
    }
}

/// Whether a tail is in range: it has rows, and they overlap it.
pub open spec fn in_range(rows: Seq<WalView>, start: i64, end: i64) -> bool {
    rows.len() > 0 && rows.last().ts >= start && rows[0].ts <= end
}

/// Copying a stream: its segments that overlap the range, then its live tail
/// where that does, materialized.
pub open spec fn stream_copied<C: ColumnFilter, E: SegmentEncoder>(
    to: DbView,
    id: i64,
    from: DbView,
    source: i64,
    stream: Seq<char>,
    spec: CopySpec<C>,
    encoder: E,
) -> CopyRun {
    let run = segments_copied(
        to,
        id,
        stream,
        store::overlapping(from.segments_of(source, stream), spec.start, spec.end),
        spec,
    );
    let tail = from.live_of(source, stream);
    if run.refusal is Some || !in_range(tail, spec.start, spec.end) {
        run
    } else {
        match segment::materialized(encoder, stream, tail) {
            Err(e) => CopyRun { refusal: Some(e), ..run },
            Ok(None) => run,
            Ok(Some(s)) => segment_copied(
                run,
                id,
                stream,
                SegmentMeta { rows: s.rows, first_ts: s.first_ts, last_ts: s.last_ts },
                s.bytes,
                s.index,
                spec,
            ),
        }
    }
}

/// Copying the streams that are kept, until one is refused.
pub open spec fn streams_copied<C: ColumnFilter, E: SegmentEncoder>(
    to: DbView,
    id: i64,
    from: DbView,
    source: i64,
    streams: Seq<Seq<char>>,
    spec: CopySpec<C>,
    encoder: E,
) -> (DbView, Option<ErrorView>)
    decreases streams.len(),
{
    if streams.len() == 0 {
        (to, None)
    } else {
        let (was, e) = streams_copied(to, id, from, source, streams.drop_last(), spec, encoder);
        if e is Some || !spec.keeps(streams.last()) {
            (was, e)
        } else {
            let run = stream_copied(was, id, from, source, streams.last(), spec, encoder);
            (run.to, run.refusal)
        }
    }
}

/// Copying clock observations, until one is refused.
pub open spec fn offsets_copied(to: DbView, id: i64, pairs: Seq<(i64, i64)>) -> (
    DbView,
    Option<ErrorView>,
)
    decreases pairs.len(),
{
    if pairs.len() == 0 {
        (to, None)
    } else {
        let (was, e) = offsets_copied(to, id, pairs.drop_last());
        match e {
            Some(_) => (was, e),
            None => match was.clock_inserted(
                ClockAt { source_id: id, ts: pairs.last().0, offset_ns: pairs.last().1 },
            ) {
                Ok(n) => (n, None),
                Err(x) => (was, Some(x)),
            },
        }
    }
}

/// Copying a caller's rows against a stream, until one is refused.
pub open spec fn callers_copied(to: DbView, id: i64, stream: Seq<char>, rows: Seq<CallerView>) -> (
    DbView,
    Option<ErrorView>,
)
    decreases rows.len(),
{
    if rows.len() == 0 {
        (to, None)
    } else {
        let (was, e) = callers_copied(to, id, stream, rows.drop_last());
        match e {
            Some(_) => (was, e),
            None => match was.caller_inserted(
                CallerAtView { source_id: id, stream, row: rows.last() },
            ) {
                Ok(n) => (n, None),
                Err(x) => (was, Some(x)),
            },
        }
    }
}

/// Copying the caller's rows of the streams that are kept, under their own
/// names: a series kept under a name that no stream uses is still the caller's.
pub open spec fn series_copied<C: ColumnFilter>(
    to: DbView,
    id: i64,
    from: DbView,
    source: i64,
    streams: Seq<Seq<char>>,
    spec: CopySpec<C>,
) -> (DbView, Option<ErrorView>)
    decreases streams.len(),
{
    if streams.len() == 0 {
        (to, None)
    } else {
        let (was, e) = series_copied(to, id, from, source, streams.drop_last(), spec);
        if e is Some || !spec.keeps(streams.last()) {
            (was, e)
        } else {
            callers_copied(was, id, streams.last(), from.callers_of(source, streams.last()))
        }
    }
}

// ------------------------------------------------------------ sources

/// A copied source's row, with the extra metadata.
pub open spec fn copied_meta<C: ColumnFilter>(
    meta: SourceMetaView,
    spec: CopySpec<C>,
) -> SourceMetaView {
    SourceMetaView { metadata: spec.metadata(meta.metadata), ..meta }
}

/// Copying a source's tables into one that has been started.
pub open spec fn tables_copied<C: ColumnFilter, E: SegmentEncoder>(
    to: DbView,
    id: i64,
    from: DbView,
    source: i64,
    spec: CopySpec<C>,
    encoder: E,
) -> (DbView, Option<ErrorView>) {
    let (a, e) = streams_copied(
        to,
        id,
        from,
        source,
        from.streams_of(source),
        spec,
        encoder,
    );
    if e is Some {
        (a, e)
    } else {
        let (b, f) = offsets_copied(a, id, from.clock_of(source));
        if f is Some {
            (b, f)
        } else {
            series_copied(b, id, from, source, from.caller_streams(source), spec)
        }
    }
}

/// Copying a source: the copy is the source, with its identity and whether it
/// was cleanly finalized.
pub open spec fn source_copied<C: ColumnFilter, E: SegmentEncoder>(
    to: DbView,
    from: DbView,
    s: SourceView,
    spec: CopySpec<C>,
    encoder: E,
) -> (DbView, Option<ErrorView>) {
    match segment::encoder_refusal(s.id, s.meta.metadata, encoder.reported()) {
        Some(e) => (to, Some(e)),
        None => match store::changes::source_started(to, copied_meta(s.meta, spec), s.uuid) {
            Err(e) => (to, Some(e)),
            Ok((id, started)) => tables_copied(
                if s.complete {
                    started.with_complete(id, true)
                } else {
                    started
                },
                id,
                from,
                s.id,
                spec,
                encoder,
            ),
        },
    }
}

/// Copying sources one after the other, until one is refused.
pub open spec fn sources_copied<C: ColumnFilter, E: SegmentEncoder>(
    to: DbView,
    from: DbView,
    sources: Seq<SourceView>,
    spec: CopySpec<C>,
    encoder: E,
) -> (DbView, Option<ErrorView>)
    decreases sources.len(),
{
    if sources.len() == 0 {
        (to, None)
    } else {
        let (was, e) = sources_copied(to, from, sources.drop_last(), spec, encoder);
        match e {
            Some(_) => (was, e),
            None => source_copied(was, from, sources.last(), spec, encoder),
        }
    }
}

// ------------------------------------------------------------ copying

/// What became of copying a stream.
pub open spec fn stream_came<T>(r: Result<T, Error>, now: DbView, run: CopyRun) -> bool {
    &&& now == run.to
    &&& match run.refusal {
        None => r is Ok,
        Some(e) => r matches Err(x) && x@ == e,
    }
}

fn copy_segment<C: ColumnFilter>(
    tx: &mut Tx,
    id: i64,
    stream: &str,
    seq: u64,
    meta: &SegmentMeta,
    file: &Vec<u8>,
    index: &Option<Vec<u8>>,
    spec: &CopySpec<C>,
) -> (r: Result<u64, Error>)
    ensures
        ({
            let run = segment_copied(
                CopyRun { to: old(tx)@, seq, refusal: None },
                id,
                stream@,
                *meta,
                file@,
                seqs::opt_view(*index),
                *spec,
            );
            &&& stream_came(r, final(tx)@, run)
            &&& r matches Ok(n) ==> n == run.seq
        }),
{
    let outcome = match spec.keep_columns {
        None => tx.insert_segment_with_index(id, stream, seq, meta, file.as_slice(), index),
        Some(filter) => {
            let narrowed = match &spec.writer_props {
                Some(p) => project_segment_columns(file, filter, p),
                None => project_segment_columns(file, filter, &writer_props()),
            };
            match narrowed {
                Err(e) => {
                    return Err(e);
                },
                Ok(None) => {
                    return Ok(seq);
                },
                Ok(Some(b)) => tx.insert_segment(id, stream, seq, meta, b.as_slice()),
            }
        },
    };
    match outcome {
        Err(e) => Err(e),
        Ok(_) => match seq.checked_add(1) {
            Some(n) => Ok(n),
            None => Ok(seq),
        },
    }
}

proof fn lemma_segments_stop<C: ColumnFilter>(
    to: DbView,
    id: i64,
    stream: Seq<char>,
    segments: Seq<SegmentView>,
    spec: CopySpec<C>,
    n: int,
)
    requires
        0 <= n <= segments.len(),
        segments_copied(to, id, stream, segments.take(n), spec).refusal is Some,
    ensures
        segments_copied(to, id, stream, segments, spec) == segments_copied(
            to,
            id,
            stream,
            segments.take(n),
            spec,
        ),
    decreases segments.len() - n,
{
    if n == segments.len() {
        assert(segments.take(n) =~= segments);
    } else {
        assert(segments.take(n + 1).drop_last() =~= segments.take(n));
        lemma_segments_stop(to, id, stream, segments, spec, n + 1);
    }
}

fn copy_segments<C: ColumnFilter>(
    src: &Db,
    tx: &mut Tx,
    id: i64,
    source: i64,
    stream: &str,
    spec: &CopySpec<C>,
) -> (r: Result<u64, Error>)
    ensures
        ({
            let run = segments_copied(
                old(tx)@,
                id,
                stream@,
                store::overlapping(src@.segments_of(source, stream@), spec.start, spec.end),
                *spec,
            );
            &&& stream_came(r, final(tx)@, run)
            &&& r matches Ok(n) ==> n == run.seq
        }),
{
    let segments = src.segments_overlapping(source, stream, spec.start, spec.end);
    let ghost all = seqs::views(segments@);
    let ghost was = tx@;
    let mut seq: u64 = 0;
    let mut i: usize = 0;
    while i < segments.len()
        invariant
            i <= segments@.len(),
            was == old(tx)@,
            all == seqs::views(segments@),
            all == store::overlapping(src@.segments_of(source, stream@), spec.start, spec.end),
            segments_copied(was, id, stream@, all.take(i as int), *spec) == (CopyRun {
                to: tx@,
                seq,
                refusal: None,
            }),
        decreases segments@.len() - i,
    {
        proof {
            assert(all.take(i + 1).drop_last() =~= all.take(i as int));
            assert(all.take(i + 1).last() == segments@[i as int]@);
        }
        let s = &segments[i];
        match copy_segment(tx, id, stream, seq, &s.meta, &s.bytes, &s.caller_index, spec) {
            Err(e) => {
                proof {
                    lemma_segments_stop(was, id, stream@, all, *spec, i + 1);
                }
                return Err(e);
            },
            Ok(n) => {
                seq = n;
            },
        }
        i += 1;
    }
    proof {
        assert(all.take(i as int) =~= all);
    }
    Ok(seq)
}

fn copy_stream<C: ColumnFilter, E: SegmentEncoder>(
    src: &Db,
    tx: &mut Tx,
    id: i64,
    source: i64,
    stream: &str,
    spec: &CopySpec<C>,
    encoder: &E,
) -> (r: Result<(), Error>)
    ensures
        stream_came(
            r,
            final(tx)@,
            stream_copied(old(tx)@, id, src@, source, stream@, *spec, *encoder),
        ),
{
    let seq = match copy_segments(src, tx, id, source, stream, spec) {
        Err(e) => {
            return Err(e);
        },
        Ok(n) => n,
    };
    let tail = src.live_wal(source, stream);
    let ghost rows = seqs::views(tail@);
    if tail.len() == 0 {
        return Ok(());
    }
    assert(rows.last() == tail@[tail@.len() - 1]@);
    assert(rows[0] == tail@[0]@);
    if tail[tail.len() - 1].ts < spec.start || tail[0].ts > spec.end {
        return Ok(());
    }
    match materialize(encoder, stream, tail.as_slice()) {
        Err(e) => Err(e),
        Ok(None) => Ok(()),
        Ok(Some(s)) => {
            let meta = SegmentMeta { rows: s.rows, first_ts: s.first_ts, last_ts: s.last_ts };
            match copy_segment(tx, id, stream, seq, &meta, &s.bytes, &s.index, spec) {
                Err(e) => Err(e),
                Ok(_) => Ok(()),
            }
        },
    }
}

proof fn lemma_streams_stop<C: ColumnFilter, E: SegmentEncoder>(
    to: DbView,
    id: i64,
    from: DbView,
    source: i64,
    streams: Seq<Seq<char>>,
    spec: CopySpec<C>,
    encoder: E,
    n: int,
)
    requires
        0 <= n <= streams.len(),
        streams_copied(to, id, from, source, streams.take(n), spec, encoder).1 is Some,
    ensures
        streams_copied(to, id, from, source, streams, spec, encoder) == streams_copied(
            to,
            id,
            from,
            source,
            streams.take(n),
            spec,
            encoder,
        ),
    decreases streams.len() - n,
{
    if n == streams.len() {
        assert(streams.take(n) =~= streams);
    } else {
        assert(streams.take(n + 1).drop_last() =~= streams.take(n));
        lemma_streams_stop(to, id, from, source, streams, spec, encoder, n + 1);
    }
}

fn copy_streams<C: ColumnFilter, E: SegmentEncoder>(
    src: &Db,
    tx: &mut Tx,
    id: i64,
    source: i64,
    spec: &CopySpec<C>,
    encoder: &E,
) -> (r: Result<(), Error>)
    ensures
        store::ran(
            r,
            final(tx)@,
            streams_copied(old(tx)@, id, src@, source, src@.streams_of(source), *spec, *encoder),
        ),
{
    let names = src.all_streams(source);
    let ghost all = seqs::views(names@);
    let ghost was = tx@;
    let mut i: usize = 0;
    while i < names.len()
        invariant
            i <= names@.len(),
            was == old(tx)@,
            all == seqs::views(names@),
            all == src@.streams_of(source),
            streams_copied(was, id, src@, source, all.take(i as int), *spec, *encoder) == (
                tx@,
                None::<ErrorView>,
            ),
        decreases names@.len() - i,
    {
        proof {
            assert(all.take(i + 1).drop_last() =~= all.take(i as int));
            assert(all.take(i + 1).last() == names@[i as int]@);
        }
        let name = names[i].as_str();
        if spec.keeps_stream(name) {
            match copy_stream(src, tx, id, source, name, spec, encoder) {
                Err(e) => {
                    proof {
                        lemma_streams_stop(was, id, src@, source, all, *spec, *encoder, i + 1);
                    }
                    return Err(e);
                },
                Ok(_) => {},
            }
        }
        i += 1;
    }
    proof {
        assert(all.take(i as int) =~= all);
    }
    Ok(())
}

proof fn lemma_offsets_stop(to: DbView, id: i64, pairs: Seq<(i64, i64)>, n: int)
    requires
        0 <= n <= pairs.len(),
        offsets_copied(to, id, pairs.take(n)).1 is Some,
    ensures
        offsets_copied(to, id, pairs) == offsets_copied(to, id, pairs.take(n)),
    decreases pairs.len() - n,
{
    if n == pairs.len() {
        assert(pairs.take(n) =~= pairs);
    } else {
        assert(pairs.take(n + 1).drop_last() =~= pairs.take(n));
        lemma_offsets_stop(to, id, pairs, n + 1);
    }
}

fn copy_offsets(src: &Db, tx: &mut Tx, id: i64, source: i64) -> (r: Result<(), Error>)
    ensures
        store::ran(r, final(tx)@, offsets_copied(old(tx)@, id, src@.clock_of(source))),
{
    let pairs = src.read_clock_offsets(source);
    let ghost was = tx@;
    let mut i: usize = 0;
    while i < pairs.len()
        invariant
            i <= pairs@.len(),
            was == old(tx)@,
            pairs@ == src@.clock_of(source),
            offsets_copied(was, id, pairs@.take(i as int)) == (tx@, None::<ErrorView>),
        decreases pairs@.len() - i,
    {
        proof {
            assert(pairs@.take(i + 1).drop_last() =~= pairs@.take(i as int));
        }
        match tx.insert_clock_offset(id, pairs[i].0, pairs[i].1) {
            Err(e) => {
                proof {
                    lemma_offsets_stop(was, id, pairs@, i + 1);
                }
                return Err(e);
            },
            Ok(_) => {},
        }
        i += 1;
    }
    proof {
        assert(pairs@.take(i as int) =~= pairs@);
    }
    Ok(())
}

proof fn lemma_callers_stop(to: DbView, id: i64, stream: Seq<char>, rows: Seq<CallerView>, n: int)
    requires
        0 <= n <= rows.len(),
        callers_copied(to, id, stream, rows.take(n)).1 is Some,
    ensures
        callers_copied(to, id, stream, rows) == callers_copied(to, id, stream, rows.take(n)),
    decreases rows.len() - n,
{
    if n == rows.len() {
        assert(rows.take(n) =~= rows);
    } else {
        assert(rows.take(n + 1).drop_last() =~= rows.take(n));
        lemma_callers_stop(to, id, stream, rows, n + 1);
    }
}

proof fn lemma_every_caller(s: Seq<CallerView>)
    ensures
        store::wal::callers_between(s, i64::MIN, i64::MAX) == s,
    decreases s.len(),
{
    reveal(Seq::filter);
    if s.len() > 0 {
        lemma_every_caller(s.drop_last());
        assert(s.drop_last().push(s.last()) =~= s);
    }
}

fn copy_callers(src: &Db, tx: &mut Tx, id: i64, source: i64, stream: &str) -> (r: Result<
    (),
    Error,
>)
    ensures
        store::ran(
            r,
            final(tx)@,
            callers_copied(old(tx)@, id, stream@, src@.callers_of(source, stream@)),
        ),
{
    let rows = src.read_caller_rows(source, stream, i64::MIN, i64::MAX);
    let ghost all = seqs::views(rows@);
    let ghost was = tx@;
    proof {
        lemma_every_caller(src@.callers_of(source, stream@));
    }
    let mut i: usize = 0;
    while i < rows.len()
        invariant
            i <= rows@.len(),
            was == old(tx)@,
            all == seqs::views(rows@),
            all == src@.callers_of(source, stream@),
            callers_copied(was, id, stream@, all.take(i as int)) == (tx@, None::<ErrorView>),
        decreases rows@.len() - i,
    {
        proof {
            assert(all.take(i + 1).drop_last() =~= all.take(i as int));
            assert(all.take(i + 1).last() == rows@[i as int]@);
        }
        match tx.insert_caller_row(id, stream, &rows[i]) {
            Err(e) => {
                proof {
                    lemma_callers_stop(was, id, stream@, all, i + 1);
                }
                return Err(e);
            },
            Ok(_) => {},
        }
        i += 1;
    }
    proof {
        assert(all.take(i as int) =~= all);
    }
    Ok(())
}

proof fn lemma_series_stop<C: ColumnFilter>(
    to: DbView,
    id: i64,
    from: DbView,
    source: i64,
    streams: Seq<Seq<char>>,
    spec: CopySpec<C>,
    n: int,
)
    requires
        0 <= n <= streams.len(),
        series_copied(to, id, from, source, streams.take(n), spec).1 is Some,
    ensures
        series_copied(to, id, from, source, streams, spec) == series_copied(
            to,
            id,
            from,
            source,
            streams.take(n),
            spec,
        ),
    decreases streams.len() - n,
{
    if n == streams.len() {
        assert(streams.take(n) =~= streams);
    } else {
        assert(streams.take(n + 1).drop_last() =~= streams.take(n));
        lemma_series_stop(to, id, from, source, streams, spec, n + 1);
    }
}

fn copy_series<C: ColumnFilter>(
    src: &Db,
    tx: &mut Tx,
    id: i64,
    source: i64,
    spec: &CopySpec<C>,
) -> (r: Result<(), Error>)
    ensures
        store::ran(
            r,
            final(tx)@,
            series_copied(old(tx)@, id, src@, source, src@.caller_streams(source), *spec),
        ),
{
    let names = src.caller_row_streams(source);
    let ghost all = seqs::views(names@);
    let ghost was = tx@;
    let mut i: usize = 0;
    while i < names.len()
        invariant
            i <= names@.len(),
            was == old(tx)@,
            all == seqs::views(names@),
            all == src@.caller_streams(source),
            series_copied(was, id, src@, source, all.take(i as int), *spec) == (
                tx@,
                None::<ErrorView>,
            ),
        decreases names@.len() - i,
    {
        proof {
            assert(all.take(i + 1).drop_last() =~= all.take(i as int));
            assert(all.take(i + 1).last() == names@[i as int]@);
        }
        let name = names[i].as_str();
        if spec.keeps_stream(name) {
            match copy_callers(src, tx, id, source, name) {
                Err(e) => {
                    proof {
                        lemma_series_stop(was, id, src@, source, all, *spec, i + 1);
                    }
                    return Err(e);
                },
                Ok(_) => {},
            }
        }
        i += 1;
    }
    proof {
        assert(all.take(i as int) =~= all);
    }
    Ok(())
}

fn copy_source<C: ColumnFilter, E: SegmentEncoder>(
    src: &Db,
    tx: &mut Tx,
    row: &SourceRow,
    spec: &CopySpec<C>,
    encoder: &E,
) -> (r: Result<(), Error>)
    ensures
        store::ran(r, final(tx)@, source_copied(old(tx)@, src@, row@, *spec, *encoder)),
{
    match check_encoder(row.id, &row.meta.metadata, encoder) {
        Err(e) => {
            return Err(e);
        },
        Ok(_) => {},
    }
    let mut metadata = row.meta.metadata.clone();
    match &spec.metadata_extra {
        Some(extra) => {
            metadata.merge(extra);
        },
        None => {},
    }
    let meta = SourceMeta {
        labels: row.meta.labels.clone(),
        metadata,
        clock_anchor_wall_ns: row.meta.clock_anchor_wall_ns,
    };
    assert(meta@ == copied_meta(row.meta@, *spec));
    let id = match tx.insert_source_with_uuid(&meta, seqs::copy_opt_text(&row.uuid)) {
        Err(e) => {
            return Err(e);
        },
        Ok(n) => n,
    };
    if row.complete {
        match tx.mark_complete(id) {
            Err(e) => {
                return Err(e);
            },
            Ok(_) => {},
        }
    }
    match copy_streams(src, tx, id, row.id, spec, encoder) {
        Err(e) => {
            return Err(e);
        },
        Ok(_) => {},
    }
    match copy_offsets(src, tx, id, row.id) {
        Err(e) => {
            return Err(e);
        },
        Ok(_) => {},
    }
    copy_series(src, tx, id, row.id, spec)
}

proof fn lemma_sources_stop<C: ColumnFilter, E: SegmentEncoder>(
    to: DbView,
    from: DbView,
    sources: Seq<SourceView>,
    spec: CopySpec<C>,
    encoder: E,
    n: int,
)
    requires
        0 <= n <= sources.len(),
        sources_copied(to, from, sources.take(n), spec, encoder).1 is Some,
    ensures
        sources_copied(to, from, sources, spec, encoder) == sources_copied(
            to,
            from,
            sources.take(n),
            spec,
            encoder,
        ),
    decreases sources.len() - n,
{
    if n == sources.len() {
        assert(sources.take(n) =~= sources);
    } else {
        assert(sources.take(n + 1).drop_last() =~= sources.take(n));
        lemma_sources_stop(to, from, sources, spec, encoder, n + 1);
    }
}

/// Copy every source of an archive into the open destination transaction,
/// returning how many sources were copied.
///
/// The transaction is the caller's, so several archives can be folded into one
/// write: the result has all of its inputs or does not exist. Each copy keeps
/// its source's identity and whether it was cleanly finalized, which is a
/// property of the data and survives being copied.
pub fn copy_sources_into<C: ColumnFilter, E: SegmentEncoder>(
    src: &Db,
    tx: &mut Tx,
    spec: &CopySpec<C>,
    encoder: &E,
) -> (r: Result<usize, Error>)
    ensures
        ({
            let (to, refusal) = sources_copied(old(tx)@, src@, src@.sources, *spec, *encoder);
            &&& final(tx)@ == to
            &&& match refusal {
                None => r == Ok::<usize, Error>(src@.sources.len() as usize),
                Some(e) => r matches Err(x) && x@ == e,
            }
        }),
{
    let sources = src.read_sources();
    let ghost all = seqs::views(sources@);
    let ghost was = tx@;
    let mut i: usize = 0;
    while i < sources.len()
        invariant
            i <= sources@.len(),
            was == old(tx)@,
            all == seqs::views(sources@),
            all == src@.sources,
            sources_copied(was, src@, all.take(i as int), *spec, *encoder) == (
                tx@,
                None::<ErrorView>,
            ),
        decreases sources@.len() - i,
    {
        proof {
            assert(all.take(i + 1).drop_last() =~= all.take(i as int));
            assert(all.take(i + 1).last() == sources@[i as int]@);
        }
        match copy_source(src, tx, &sources[i], spec, encoder) {
            Err(e) => {
                proof {
                    lemma_sources_stop(was, src@, all, *spec, *encoder, i + 1);
                }
                return Err(e);
            },
            Ok(_) => {},
        }
        i += 1;
    }
    proof {
        assert(all.take(i as int) =~= all);
    }
    Ok(sources.len())
}

// ------------------------------------------------------------ choosing

/// The identities that sources have, in their order.
pub open spec fn identities(sources: Seq<SourceView>) -> Seq<Seq<char>>
    decreases sources.len(),
{
    if sources.len() == 0 {
        Seq::empty()
    } else {
        let head = identities(sources.drop_last());
        match sources.last().uuid {
            Some(u) => head.push(u),
            None => head,
        }
    }
}

/// Which of the names are among others, in their order.
pub open spec fn among(names: Seq<Seq<char>>, others: Seq<Seq<char>>) -> Seq<Seq<char>>
    decreases names.len(),
{
    if names.len() == 0 {
        Seq::empty()
    } else {
        let head = among(names.drop_last(), others);
        if others.contains(names.last()) {
            head.push(names.last())
        } else {
            head
        }
    }
}

fn read_identities(db: &Db) -> (r: Vec<String>)
    ensures
        seqs::views(r@) == identities(db@.sources),
{
    let sources = db.read_sources();
    let ghost all = seqs::views(sources@);
    let mut out: Vec<String> = Vec::new();
    let mut i: usize = 0;
    proof {
        seqs::lemma_views_empty::<String>();
    }
    while i < sources.len()
        invariant
            i <= sources@.len(),
            all == seqs::views(sources@),
            seqs::views(out@) == identities(all.take(i as int)),
        decreases sources@.len() - i,
    {
        proof {
            assert(all.take(i + 1).drop_last() =~= all.take(i as int));
            assert(all.take(i + 1).last() == sources@[i as int]@);
        }
        match &sources[i].uuid {
            Some(u) => {
                out.push(u.clone());
            },
            None => {},
        }
        i += 1;
    }
    proof {
        assert(all.take(i as int) =~= all);
    }
    out
}

fn holds_name(names: &Vec<String>, name: &str) -> (r: bool)
    ensures
        r == seqs::views(names@).contains(name@),
{
    let ghost all = seqs::views(names@);
    let mut i: usize = 0;
    while i < names.len()
        invariant
            i <= names@.len(),
            all == seqs::views(names@),
            forall|k: int| 0 <= k < i ==> all[k] != name@,
        decreases names@.len() - i,
    {
        assert(all[i as int] == names@[i as int]@);
        if same_text(names[i].as_str(), name) {
            return true;
        }
        i += 1;
    }
    false
}

/// The identities of sources present in both archives: the same source, not two
/// with the same labels. Sources without an identity are never reported; they
/// are not known to be the same.
pub fn shared_sources(a: &Db, b: &Db) -> (r: Vec<String>)
    ensures
        seqs::views(r@) == among(identities(b@.sources), identities(a@.sources)),
{
    let in_a = read_identities(a);
    let in_b = read_identities(b);
    let ghost all = seqs::views(in_b@);
    let ghost others = seqs::views(in_a@);
    let mut out: Vec<String> = Vec::new();
    let mut i: usize = 0;
    proof {
        seqs::lemma_views_empty::<String>();
    }
    while i < in_b.len()
        invariant
            i <= in_b@.len(),
            all == seqs::views(in_b@),
            others == seqs::views(in_a@),
            seqs::views(out@) == among(all.take(i as int), others),
        decreases in_b@.len() - i,
    {
        proof {
            assert(all.take(i + 1).drop_last() =~= all.take(i as int));
            assert(all.take(i + 1).last() == in_b@[i as int]@);
        }
        if holds_name(&in_a, in_b[i].as_str()) {
            out.push(in_b[i].clone());
        }
        i += 1;
    }
    proof {
        assert(all.take(i as int) =~= all);
    }
    out
}

/// The names that sources keep anything under, source by source: their streams,
/// then those that a caller's rows use.
pub open spec fn names_of(d: DbView, sources: Seq<SourceView>) -> Seq<Seq<char>>
    decreases sources.len(),
{
    if sources.len() == 0 {
        Seq::empty()
    } else {
        names_of(d, sources.drop_last()) + d.streams_of(sources.last().id) + d.caller_streams(
            sources.last().id,
        )
    }
}

fn append_names(out: &mut Vec<String>, more: &Vec<String>)
    ensures
        seqs::views(final(out)@) == seqs::views(old(out)@) + seqs::views(more@),
{
    let ghost all = seqs::views(more@);
    let ghost was = seqs::views(out@);
    let mut i: usize = 0;
    assert(was + all.take(0) =~= was);
    while i < more.len()
        invariant
            i <= more@.len(),
            was == seqs::views(old(out)@),
            all == seqs::views(more@),
            seqs::views(out@) == was + all.take(i as int),
        decreases more@.len() - i,
    {
        assert(was + all.take(i + 1) =~= (was + all.take(i as int)).push(more@[i as int]@));
        out.push(more[i].clone());
        i += 1;
    }
    proof {
        assert(all.take(i as int) =~= all);
    }
}

fn read_names(src: &Db) -> (r: Vec<String>)
    ensures
        seqs::views(r@) == names_of(src@, src@.sources),
{
    let sources = src.read_sources();
    let ghost all = seqs::views(sources@);
    let mut out: Vec<String> = Vec::new();
    let mut i: usize = 0;
    proof {
        seqs::lemma_views_empty::<String>();
    }
    while i < sources.len()
        invariant
            i <= sources@.len(),
            all == seqs::views(sources@),
            seqs::views(out@) == names_of(src@, all.take(i as int)),
        decreases sources@.len() - i,
    {
        proof {
            assert(all.take(i + 1).drop_last() =~= all.take(i as int));
            assert(all.take(i + 1).last() == sources@[i as int]@);
        }
        append_names(&mut out, &src.all_streams(sources[i].id));
        append_names(&mut out, &src.caller_row_streams(sources[i].id));
        i += 1;
    }
    proof {
        assert(all.take(i as int) =~= all);
    }
    out
}

/// The names in an archive that a predicate accepts, for a copy that keeps those
/// alone. A caller can group streams under a coarser unit than the stream, and
/// dropping that unit has to drop all of them.
pub fn accepted_streams<F: Fn(&str) -> bool>(src: &Db, keep: F) -> (r: Vec<String>)
    requires
        forall|s: &str| keep.requires((s,)),
    ensures
        exists|marks: Seq<bool>| #[trigger]
            store::changes::answered(keep, names_of(src@, src@.sources), marks) && seqs::views(r@)
                == store::changes::picked(names_of(src@, src@.sources), marks),
{
    let names = read_names(src);
    store::changes::pick(&names, keep)
}

} // verus!
