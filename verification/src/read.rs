//! Reading an archive: a stream's segments, oldest first, with its live WAL
//! tail spliced on as the newest one.
//!
//! What comes back is parquet bytes: they are not opened here.

use std::sync::Arc;
use vstd::prelude::*;

use crate::db::model;
use crate::db::model::DbView;
use crate::db::store;
use crate::db::{Db, PageStats, SegmentView, SourceView, Span, WalView};
use crate::error::{Error, ErrorView};
use crate::segment;
use crate::segment::{check_encoder, materialize, SegmentEncoder};
use crate::seqs;
use crate::seqs::copy_bytes;
use crate::text_map::{Entry, TextMap};

verus! {

broadcast use crate::seqs::group_views;

// ------------------------------------------------------------ the catalog

/// A stream as the catalog sees it: how much is sealed, how much is live, and
/// the span the two cover. No payload is read to answer this.
#[derive(Debug, PartialEq, Eq)]
pub struct StreamCatalog {
    /// The stream's name, as its rows carry it.
    pub name: String,
    /// How many sealed segments the stream has.
    pub segments: u64,
    /// The sealed segments' rows and span.
    pub sealed: Span,
    /// The live WAL tail's rows and span.
    pub live: Span,
    /// What this stream's sealed segments occupy, in bytes.
    pub bytes: u64,
}

/// A stream as the catalog sees it, as mathematics.
pub struct StreamCatalogView {
    pub name: Seq<char>,
    pub segments: u64,
    pub sealed: Span,
    pub live: Span,
    pub bytes: u64,
}

impl View for StreamCatalog {
    type V = StreamCatalogView;

    open spec fn view(&self) -> StreamCatalogView {
        StreamCatalogView {
            name: self.name@,
            segments: self.segments,
            sealed: self.sealed,
            live: self.live,
            bytes: self.bytes,
        }
    }
}

/// The span from one end to the other, where both are there.
pub open spec fn ends(first: Option<i64>, last: Option<i64>) -> Option<(i64, i64)> {
    match (first, last) {
        (Some(a), Some(b)) => Some((a, b)),
        _ => None,
    }
}

/// The span that covers two.
pub open spec fn cover(a: Option<(i64, i64)>, b: Option<(i64, i64)>) -> Option<(i64, i64)> {
    match (a, b) {
        (Some(x), Some(y)) => Some(
            (
                if x.0 <= y.0 {
                    x.0
                } else {
                    y.0
                },
                if x.1 >= y.1 {
                    x.1
                } else {
                    y.1
                },
            ),
        ),
        (Some(x), None) => Some(x),
        (None, y) => y,
    }
}

fn widen(a: Option<(i64, i64)>, b: Option<(i64, i64)>) -> (r: Option<(i64, i64)>)
    ensures
        r == cover(a, b),
{
    match (a, b) {
        (Some(x), Some(y)) => Some(
            (
                if x.0 <= y.0 {
                    x.0
                } else {
                    y.0
                },
                if x.1 >= y.1 {
                    x.1
                } else {
                    y.1
                },
            ),
        ),
        (Some(x), None) => Some(x),
        (None, y) => y,
    }
}

impl StreamCatalogView {
    /// Rows a reader will see: sealed plus live.
    pub open spec fn row_count(self) -> nat {
        self.sealed.rows as nat + self.live.rows as nat
    }

    /// The span a reader will see, sealed and live together.
    pub open spec fn extent(self) -> Option<(i64, i64)> {
        ends(
            model::earliest(self.sealed.first_ts, self.live.first_ts),
            model::latest(self.sealed.last_ts, self.live.last_ts),
        )
    }
}

impl StreamCatalog {
    /// Rows a reader will see: sealed plus live.
    pub fn rows(&self) -> (r: u64)
        requires
            self@.row_count() <= u64::MAX,
        ensures
            r == self@.row_count(),
    {
        self.sealed.rows + self.live.rows
    }

    /// The span a reader will see, sealed and live together; `None` for a
    /// stream with no rows.
    pub fn span(&self) -> (r: Option<(i64, i64)>)
        ensures
            r == self@.extent(),
    {
        let first: Option<i64> = match (self.sealed.first_ts, self.live.first_ts) {
            (Some(a), Some(b)) => if a <= b {
                Some(a)
            } else {
                Some(b)
            },
            (Some(a), None) => Some(a),
            (None, b) => b,
        };
        let last: Option<i64> = match (self.sealed.last_ts, self.live.last_ts) {
            (Some(a), Some(b)) => if a >= b {
                Some(a)
            } else {
                Some(b)
            },
            (Some(a), None) => Some(a),
            (None, b) => b,
        };
        match (first, last) {
            (Some(a), Some(b)) => Some((a, b)),
            _ => None,
        }
    }
}

/// A source as the catalog sees it, with every stream it currently holds.
#[derive(Debug, PartialEq, Eq)]
pub struct SourceCatalog {
    /// The `sources` row id, which names this source within one archive.
    pub id: i64,
    /// The source's identity across files, where it has one.
    pub uuid: Option<String>,
    /// What distinguishes this source from the others.
    pub labels: TextMap,
    /// The caller's metadata map.
    pub metadata: TextMap,
    /// False when the source was never cleanly finalized, so data after the
    /// last row may be missing.
    pub complete: bool,
    /// Wall-clock reading (ns since epoch) at source start.
    pub clock_anchor_wall_ns: i64,
    /// Every stream the source currently holds, alphabetically.
    pub streams: Vec<StreamCatalog>,
}

/// A source as the catalog sees it, as mathematics.
pub struct SourceCatalogView {
    pub source: SourceView,
    pub streams: Seq<StreamCatalogView>,
}

impl View for SourceCatalog {
    type V = SourceCatalogView;

    open spec fn view(&self) -> SourceCatalogView {
        SourceCatalogView {
            source: SourceView {
                id: self.id,
                uuid: seqs::opt_view(self.uuid),
                meta: crate::db::SourceMetaView {
                    labels: self.labels@,
                    metadata: self.metadata@,
                    clock_anchor_wall_ns: self.clock_anchor_wall_ns,
                },
                complete: self.complete,
            },
            streams: seqs::views(self.streams@),
        }
    }
}

/// The span that covers streams.
pub open spec fn streams_extent(s: Seq<StreamCatalogView>) -> Option<(i64, i64)>
    decreases s.len(),
{
    if s.len() == 0 {
        None
    } else {
        cover(streams_extent(s.drop_last()), s.last().extent())
    }
}

/// The segments of streams, counted.
pub open spec fn streams_segments(s: Seq<StreamCatalogView>) -> nat
    decreases s.len(),
{
    if s.len() == 0 {
        0
    } else {
        streams_segments(s.drop_last()) + s.last().segments as nat
    }
}

/// The rows of streams, counted.
pub open spec fn streams_rows(s: Seq<StreamCatalogView>) -> nat
    decreases s.len(),
{
    if s.len() == 0 {
        0
    } else {
        streams_rows(s.drop_last()) + s.last().row_count()
    }
}

impl SourceCatalog {
    /// The source's span across every stream; `None` when it holds no rows.
    pub fn span(&self) -> (r: Option<(i64, i64)>)
        ensures
            r == streams_extent(self@.streams),
    {
        let ghost all = self@.streams;
        let mut out: Option<(i64, i64)> = None;
        let mut i: usize = 0;
        while i < self.streams.len()
            invariant
                i <= self.streams@.len(),
                all == seqs::views(self.streams@),
                out == streams_extent(all.take(i as int)),
            decreases self.streams@.len() - i,
        {
            proof {
                assert(all.take(i + 1).drop_last() =~= all.take(i as int));
                assert(all.take(i + 1).last() == self.streams@[i as int]@);
            }
            out = widen(out, self.streams[i].span());
            i += 1;
        }
        proof {
            assert(all.take(i as int) =~= all);
        }
        out
    }
}

/// One stream's entry in the catalog, or the sum that is too large.
pub open spec fn stream_entry(d: DbView, source: i64, name: Seq<char>) -> Result<
    StreamCatalogView,
    ErrorView,
> {
    let s = d.segments_of(source, name);
    let refusal = model::sum_too_large("failed to measure the segments of "@ + name);
    if model::sealed_rows(s) > model::sum_limit() || model::sealed_bytes(s) > model::sum_limit() {
        Err(refusal)
    } else {
        Ok(
            StreamCatalogView {
                name,
                segments: s.len() as u64,
                sealed: store::sealed_span(s),
                live: model::span_of(d.live_of(source, name)),
                bytes: model::sealed_bytes(s) as u64,
            },
        )
    }
}

/// The entries of streams, or the first refusal.
pub open spec fn stream_entries(d: DbView, source: i64, names: Seq<Seq<char>>) -> Result<
    Seq<StreamCatalogView>,
    ErrorView,
>
    decreases names.len(),
{
    if names.len() == 0 {
        Ok(Seq::empty())
    } else {
        match stream_entries(d, source, names.drop_last()) {
            Err(e) => Err(e),
            Ok(head) => match stream_entry(d, source, names.last()) {
                Err(e) => Err(e),
                Ok(x) => Ok(head.push(x)),
            },
        }
    }
}

/// The entries of sources, or the first refusal.
pub open spec fn source_entries(d: DbView, sources: Seq<SourceView>) -> Result<
    Seq<SourceCatalogView>,
    ErrorView,
>
    decreases sources.len(),
{
    if sources.len() == 0 {
        Ok(Seq::empty())
    } else {
        match source_entries(d, sources.drop_last()) {
            Err(e) => Err(e),
            Ok(head) => match stream_entries(
                d,
                sources.last().id,
                d.streams_of(sources.last().id),
            ) {
                Err(e) => Err(e),
                Ok(streams) => Ok(
                    head.push(SourceCatalogView { source: sources.last(), streams }),
                ),
            },
        }
    }
}

proof fn lemma_stream_entries_stop(d: DbView, source: i64, names: Seq<Seq<char>>, n: int)
    requires
        0 <= n <= names.len(),
    ensures
        stream_entries(d, source, names.take(n)) is Err ==> stream_entries(d, source, names)
            == stream_entries(d, source, names.take(n)),
    decreases names.len() - n,
{
    if n == names.len() {
        assert(names.take(n) =~= names);
    } else {
        lemma_stream_entries_stop(d, source, names, n + 1);
        assert(names.take(n + 1).drop_last() =~= names.take(n));
    }
}

proof fn lemma_source_entries_stop(d: DbView, sources: Seq<SourceView>, n: int)
    requires
        0 <= n <= sources.len(),
    ensures
        source_entries(d, sources.take(n)) is Err ==> source_entries(d, sources)
            == source_entries(d, sources.take(n)),
    decreases sources.len() - n,
{
    if n == sources.len() {
        assert(sources.take(n) =~= sources);
    } else {
        lemma_source_entries_stop(d, sources, n + 1);
        assert(sources.take(n + 1).drop_last() =~= sources.take(n));
    }
}

fn catalog_stream(db: &Db, source_id: i64, name: &String) -> (r: Result<StreamCatalog, Error>)
    ensures
        match stream_entry(db@, source_id, name@) {
            Ok(x) => r matches Ok(y) && y@ == x,
            Err(e) => r matches Err(y) && y@ == e,
        },
{
    let (segments, sealed) = match db.segment_span(source_id, name.as_str()) {
        Ok(p) => p,
        Err(e) => {
            return Err(e);
        },
    };
    let live = db.live_wal_span(source_id, name.as_str());
    let bytes: u64 = match db.stream_bytes(source_id, name.as_str()) {
        Ok(n) => n,
        Err(e) => {
            return Err(e);
        },
    };
    Ok(StreamCatalog { name: name.clone(), segments, sealed, live, bytes })
}

fn catalog_streams(db: &Db, source_id: i64) -> (r: Result<Vec<StreamCatalog>, Error>)
    ensures
        match stream_entries(db@, source_id, db@.streams_of(source_id)) {
            Ok(x) => r matches Ok(y) && seqs::views(y@) == x,
            Err(e) => r matches Err(y) && y@ == e,
        },
{
    let names = db.all_streams(source_id);
    let ghost all = seqs::views(names@);
    let mut out: Vec<StreamCatalog> = Vec::new();
    let mut i: usize = 0;
    proof {
        seqs::lemma_views_empty::<StreamCatalog>();
    }
    while i < names.len()
        invariant
            i <= names@.len(),
            all == seqs::views(names@),
            all == db@.streams_of(source_id),
            stream_entries(db@, source_id, all.take(i as int)) == Ok::<
                Seq<StreamCatalogView>,
                ErrorView,
            >(seqs::views(out@)),
        decreases names@.len() - i,
    {
        proof {
            assert(all.take(i + 1).drop_last() =~= all.take(i as int));
            assert(all.take(i + 1).last() == names@[i as int]@);
            lemma_stream_entries_stop(db@, source_id, all, i + 1);
        }
        match catalog_stream(db, source_id, &names[i]) {
            Ok(x) => {
                out.push(x);
            },
            Err(e) => {
                return Err(e);
            },
        }
        i += 1;
    }
    proof {
        assert(all.take(i as int) =~= all);
    }
    Ok(out)
}

/// Everything the catalog knows about the archive, without reading a segment:
/// which sources and streams exist, what each spans, how much is still live.
pub fn catalog(db: &Db) -> (r: Result<Vec<SourceCatalog>, Error>)
    ensures
        match source_entries(db@, db@.sources) {
            Ok(x) => r matches Ok(y) && seqs::views(y@) == x,
            Err(e) => r matches Err(y) && y@ == e,
        },
{
    let sources = db.read_sources();
    let ghost all = seqs::views(sources@);
    let mut out: Vec<SourceCatalog> = Vec::new();
    let mut i: usize = 0;
    proof {
        seqs::lemma_views_empty::<SourceCatalog>();
    }
    while i < sources.len()
        invariant
            i <= sources@.len(),
            all == seqs::views(sources@),
            all == db@.sources,
            source_entries(db@, all.take(i as int)) == Ok::<Seq<SourceCatalogView>, ErrorView>(
                seqs::views(out@),
            ),
        decreases sources@.len() - i,
    {
        proof {
            assert(all.take(i + 1).drop_last() =~= all.take(i as int));
            assert(all.take(i + 1).last() == sources@[i as int]@);
            lemma_source_entries_stop(db@, all, i + 1);
        }
        let src = sources[i].clone();
        match catalog_streams(db, src.id) {
            Ok(streams) => {
                out.push(
                    SourceCatalog {
                        id: src.id,
                        uuid: src.uuid,
                        labels: src.meta.labels,
                        metadata: src.meta.metadata,
                        complete: src.complete,
                        clock_anchor_wall_ns: src.meta.clock_anchor_wall_ns,
                        streams,
                    },
                );
            },
            Err(e) => {
                return Err(e);
            },
        }
        i += 1;
    }
    proof {
        assert(all.take(i as int) =~= all);
    }
    Ok(out)
}

/// Everything about an archive that does not require reading a segment: the
/// file's own size and page accounting, and the whole catalog.
#[derive(Debug, PartialEq, Eq)]
pub struct Overview {
    /// The archive's size on disk.
    pub bytes: u64,
    /// How the archive's pages stand.
    pub pages: PageStats,
    /// Every source in the file, with every stream each currently holds.
    pub sources: Vec<SourceCatalog>,
}

/// The segments of sources, counted.
pub open spec fn sources_segments(s: Seq<SourceCatalogView>) -> nat
    decreases s.len(),
{
    if s.len() == 0 {
        0
    } else {
        sources_segments(s.drop_last()) + streams_segments(s.last().streams)
    }
}

/// The rows of sources, counted.
pub open spec fn sources_rows(s: Seq<SourceCatalogView>) -> nat
    decreases s.len(),
{
    if s.len() == 0 {
        0
    } else {
        sources_rows(s.drop_last()) + streams_rows(s.last().streams)
    }
}

/// The span that covers sources.
pub open spec fn sources_extent(s: Seq<SourceCatalogView>) -> Option<(i64, i64)>
    decreases s.len(),
{
    if s.len() == 0 {
        None
    } else {
        cover(sources_extent(s.drop_last()), streams_extent(s.last().streams))
    }
}

proof fn lemma_counts_grow(s: Seq<StreamCatalogView>, n: int)
    requires
        0 <= n <= s.len(),
    ensures
        streams_segments(s.take(n)) <= streams_segments(s),
        streams_rows(s.take(n)) <= streams_rows(s),
    decreases s.len() - n,
{
    if n == s.len() {
        assert(s.take(n) =~= s);
    } else {
        lemma_counts_grow(s, n + 1);
        assert(s.take(n + 1).drop_last() =~= s.take(n));
    }
}

proof fn lemma_source_counts_grow(s: Seq<SourceCatalogView>, n: int)
    requires
        0 <= n <= s.len(),
    ensures
        sources_segments(s.take(n)) <= sources_segments(s),
        sources_rows(s.take(n)) <= sources_rows(s),
    decreases s.len() - n,
{
    if n == s.len() {
        assert(s.take(n) =~= s);
    } else {
        lemma_source_counts_grow(s, n + 1);
        assert(s.take(n + 1).drop_last() =~= s.take(n));
    }
}

impl Overview {
    /// Sealed segments across every stream of every source.
    pub fn segments(&self) -> (r: u64)
        requires
            sources_segments(seqs::views(self.sources@)) <= u64::MAX,
        ensures
            r == sources_segments(seqs::views(self.sources@)),
    {
        let ghost all = seqs::views(self.sources@);
        let mut total: u64 = 0;
        let mut i: usize = 0;
        while i < self.sources.len()
            invariant
                i <= self.sources@.len(),
                all == seqs::views(self.sources@),
                sources_segments(all) <= u64::MAX,
                total == sources_segments(all.take(i as int)),
            decreases self.sources@.len() - i,
        {
            proof {
                assert(all.take(i + 1).drop_last() =~= all.take(i as int));
                assert(all.take(i + 1).last() == self.sources@[i as int]@);
                lemma_source_counts_grow(all, i + 1);
            }
            let streams = &self.sources[i].streams;
            let ghost these = seqs::views(streams@);
            let mut n: u64 = 0;
            let mut j: usize = 0;
            while j < streams.len()
                invariant
                    j <= streams@.len(),
                    these == seqs::views(streams@),
                    total + streams_segments(these) <= u64::MAX,
                    n == streams_segments(these.take(j as int)),
                decreases streams@.len() - j,
            {
                proof {
                    assert(these.take(j + 1).drop_last() =~= these.take(j as int));
                    assert(these.take(j + 1).last() == streams@[j as int]@);
                    lemma_counts_grow(these, j + 1);
                }
                n = n + streams[j].segments;
                j += 1;
            }
            proof {
                assert(these.take(j as int) =~= these);
            }
            total = total + n;
            i += 1;
        }
        proof {
            assert(all.take(i as int) =~= all);
        }
        total
    }

    /// Rows a reader would see: sealed plus live, everywhere.
    pub fn rows(&self) -> (r: u64)
        requires
            sources_rows(seqs::views(self.sources@)) <= u64::MAX,
        ensures
            r == sources_rows(seqs::views(self.sources@)),
    {
        let ghost all = seqs::views(self.sources@);
        let mut total: u64 = 0;
        let mut i: usize = 0;
        while i < self.sources.len()
            invariant
                i <= self.sources@.len(),
                all == seqs::views(self.sources@),
                sources_rows(all) <= u64::MAX,
                total == sources_rows(all.take(i as int)),
            decreases self.sources@.len() - i,
        {
            proof {
                assert(all.take(i + 1).drop_last() =~= all.take(i as int));
                assert(all.take(i + 1).last() == self.sources@[i as int]@);
                lemma_source_counts_grow(all, i + 1);
            }
            let streams = &self.sources[i].streams;
            let ghost these = seqs::views(streams@);
            let mut n: u64 = 0;
            let mut j: usize = 0;
            while j < streams.len()
                invariant
                    j <= streams@.len(),
                    these == seqs::views(streams@),
                    total + streams_rows(these) <= u64::MAX,
                    n == streams_rows(these.take(j as int)),
                decreases streams@.len() - j,
            {
                proof {
                    assert(these.take(j + 1).drop_last() =~= these.take(j as int));
                    assert(these.take(j + 1).last() == streams@[j as int]@);
                    lemma_counts_grow(these, j + 1);
                }
                n = n + streams[j].rows();
                j += 1;
            }
            proof {
                assert(these.take(j as int) =~= these);
            }
            total = total + n;
            i += 1;
        }
        proof {
            assert(all.take(i as int) =~= all);
        }
        total
    }

    /// The span everything in the archive covers, or `None` when it holds no
    /// rows.
    pub fn span(&self) -> (r: Option<(i64, i64)>)
        ensures
            r == sources_extent(seqs::views(self.sources@)),
    {
        let ghost all = seqs::views(self.sources@);
        let mut out: Option<(i64, i64)> = None;
        let mut i: usize = 0;
        while i < self.sources.len()
            invariant
                i <= self.sources@.len(),
                all == seqs::views(self.sources@),
                out == sources_extent(all.take(i as int)),
            decreases self.sources@.len() - i,
        {
            proof {
                assert(all.take(i + 1).drop_last() =~= all.take(i as int));
                assert(all.take(i + 1).last() == self.sources@[i as int]@);
            }
            out = widen(out, self.sources[i].span());
            i += 1;
        }
        proof {
            assert(all.take(i as int) =~= all);
        }
        out
    }

    /// How much of the file is on the free list: space eviction released that
    /// has not gone back to the filesystem.
    pub fn free_bytes(&self) -> (r: u64)
        ensures
            r == self.pages.free * self.pages.page_size,
    {
        assert(self.pages.free * self.pages.page_size <= u32::MAX * u32::MAX) by (nonlinear_arith)
            requires
                self.pages.free <= u32::MAX,
                self.pages.page_size <= u32::MAX,
        ;
        self.pages.free as u64 * self.pages.page_size as u64
    }
}

/// Describe an archive without reading a segment.
pub fn describe(db: &Db) -> (r: Result<Overview, Error>)
    ensures
        match source_entries(db@, db@.sources) {
            Ok(x) => r matches Ok(y) && y.bytes == db@.pages.pages * db@.pages.page_size && y.pages
                == db@.pages && seqs::views(y.sources@) == x,
            Err(e) => r matches Err(y) && y@ == e,
        },
{
    let bytes: u64 = db.archive_bytes();
    let pages = db.page_stats();
    match catalog(db) {
        Ok(sources) => Ok(Overview { bytes, pages, sources }),
        Err(e) => Err(e),
    }
}

// ------------------------------------------------------------ segments

/// The refusal of reading a source with an encoder: of another version than
/// wrote it, or of a source that is not there where the encoder has one.
pub open spec fn reading_refusal<E: SegmentEncoder>(d: DbView, source: i64, encoder: E) -> Option<
    ErrorView,
> {
    if encoder.reported() is None {
        None
    } else {
        match d.source(source) {
            None => Some(ErrorView::Message(store::no_source_text(source))),
            Some(s) => segment::encoder_refusal(source, s.meta.metadata, encoder.reported()),
        }
    }
}

fn check_encoder_of<E: SegmentEncoder>(db: &Db, source_id: i64, encoder: &E) -> (r: Result<
    (),
    Error,
>)
    ensures
        match reading_refusal(db@, source_id, *encoder) {
            None => r is Ok,
            Some(e) => r matches Err(x) && x@ == e,
        },
{
    if encoder.version().is_none() {
        return Ok(());
    }
    match db.source_metadata(source_id) {
        Ok(metadata) => check_encoder(source_id, &metadata, encoder),
        Err(e) => Err(e),
    }
}

/// The payloads of segments.
pub open spec fn payloads(s: Seq<SegmentView>) -> Seq<Seq<u8>> {
    s.map_values(|v: SegmentView| v.bytes)
}

/// Payloads, with that of the tail behind them where it becomes a segment.
pub open spec fn spliced<E: SegmentEncoder>(
    sealed: Seq<Seq<u8>>,
    encoder: E,
    stream: Seq<char>,
    live: Seq<WalView>,
) -> Result<Seq<Seq<u8>>, ErrorView> {
    match segment::materialized(encoder, stream, live) {
        Err(e) => Err(e),
        Ok(None) => Ok(sealed),
        Ok(Some(s)) => Ok(sealed.push(s.bytes)),
    }
}

/// A stream's parquet segments: its sealed ones in `seq` order, then its live
/// tail as the newest.
pub open spec fn stream_parts<E: SegmentEncoder>(
    d: DbView,
    source: i64,
    stream: Seq<char>,
    encoder: E,
) -> Result<Seq<Seq<u8>>, ErrorView> {
    spliced(payloads(d.segments_of(source, stream)), encoder, stream, d.live_of(source, stream))
}

/// Whether an outcome is these payloads.
pub open spec fn gives_parts(
    r: Result<Vec<Vec<u8>>, Error>,
    outcome: Result<Seq<Seq<u8>>, ErrorView>,
) -> bool {
    match outcome {
        Ok(p) => r matches Ok(v) && seqs::views(v@) == p,
        Err(e) => r matches Err(x) && x@ == e,
    }
}

fn take_payloads(rows: Vec<crate::db::SegmentRow>) -> (r: Vec<Vec<u8>>)
    ensures
        seqs::views(r@) == payloads(seqs::views(rows@)),
{
    let ghost all = seqs::views(rows@);
    let mut out: Vec<Vec<u8>> = Vec::new();
    let mut i: usize = 0;
    proof {
        seqs::lemma_views_empty::<Vec<u8>>();
        assert(payloads(all.take(0)) =~= Seq::empty());
    }
    while i < rows.len()
        invariant
            i <= rows@.len(),
            all == seqs::views(rows@),
            seqs::views(out@) == payloads(all.take(i as int)),
        decreases rows@.len() - i,
    {
        let ghost was = seqs::views(out@);
        out.push(copy_bytes(&rows[i].bytes));
        proof {
            assert(payloads(all.take(i + 1)) =~= was.push(all[i as int].bytes));
        }
        i += 1;
    }
    proof {
        assert(all.take(i as int) =~= all);
    }
    out
}

fn stream_segments_unchecked<E: SegmentEncoder>(
    db: &Db,
    source_id: i64,
    stream: &str,
    encoder: &E,
) -> (r: Result<Vec<Vec<u8>>, Error>)
    ensures
        gives_parts(r, stream_parts(db@, source_id, stream@, *encoder)),
{
    let mut segments = take_payloads(db.read_segments(source_id, stream));
    let live = db.live_wal(source_id, stream);
    match materialize(encoder, stream, live.as_slice()) {
        Err(e) => Err(e),
        Ok(None) => Ok(segments),
        Ok(Some(tail)) => {
            segments.push(tail.bytes);
            Ok(segments)
        },
    }
}

/// One stream's parquet segments, oldest first: its sealed segments in `seq`
/// order, then its live WAL tail materialized as the newest segment.
pub fn stream_segments<E: SegmentEncoder>(
    db: &Db,
    source_id: i64,
    stream: &str,
    encoder: &E,
) -> (r: Result<Vec<Vec<u8>>, Error>)
    ensures
        gives_parts(
            r,
            match reading_refusal(db@, source_id, *encoder) {
                Some(e) => Err(e),
                None => stream_parts(db@, source_id, stream@, *encoder),
            },
        ),
{
    match check_encoder_of(db, source_id, encoder) {
        Ok(_) => stream_segments_unchecked(db, source_id, stream, encoder),
        Err(e) => Err(e),
    }
}

/// What a probe finds: the first sealed segment, or else the live tail as one.
pub open spec fn probed<E: SegmentEncoder>(
    d: DbView,
    source: i64,
    stream: Seq<char>,
    encoder: E,
) -> Result<Option<Seq<u8>>, ErrorView> {
    let sealed = d.segments_of(source, stream);
    match reading_refusal(d, source, encoder) {
        Some(e) => Err(e),
        None => if sealed.len() > 0 {
            Ok(Some(sealed[0].bytes))
        } else {
            match segment::materialized(encoder, stream, d.live_of(source, stream)) {
                Err(e) => Err(e),
                Ok(None) => Ok(None),
                Ok(Some(s)) => Ok(Some(s.bytes)),
            }
        },
    }
}

/// One segment of a stream, for a caller that needs to learn the stream's
/// schema before deciding whether to read it: the first sealed segment when
/// there is one, otherwise the live tail, materialized. `None` for a stream
/// with no rows.
pub fn probe<E: SegmentEncoder>(db: &Db, source_id: i64, stream: &str, encoder: &E) -> (r: Result<
    Option<Vec<u8>>,
    Error,
>)
    ensures
        match probed(db@, source_id, stream@, *encoder) {
            Ok(b) => r matches Ok(x) && seqs::opt_view(x) == b,
            Err(e) => r matches Err(x) && x@ == e,
        },
{
    match check_encoder_of(db, source_id, encoder) {
        Ok(_) => {},
        Err(e) => {
            return Err(e);
        },
    }
    let metas = db.read_segment_meta(source_id, stream);
    if metas.len() > 0 {
        let bytes = db.read_segment_bytes(source_id, stream, metas[0].0);
        assert(metas@[0].0 == db@.segments_of(source_id, stream@)[0].seq);
        return Ok(bytes);
    }
    let live = db.live_wal(source_id, stream);
    match materialize(encoder, stream, live.as_slice()) {
        Err(e) => Err(e),
        Ok(None) => Ok(None),
        Ok(Some(tail)) => Ok(Some(tail.bytes)),
    }
}

/// The rows in `[start, end]`.
pub open spec fn rows_between(rows: Seq<WalView>, start: i64, end: i64) -> Seq<WalView> {
    rows.filter(|r: WalView| start <= r.ts <= end)
}

/// What a read of a range gives: the segments that overlap it, then the tail's rows
/// in it as one.
pub open spec fn ranged<E: SegmentEncoder>(
    d: DbView,
    source: i64,
    stream: Seq<char>,
    start: i64,
    end: i64,
    encoder: E,
) -> Result<Seq<Seq<u8>>, ErrorView> {
    match reading_refusal(d, source, encoder) {
        Some(e) => Err(e),
        None => spliced(
            payloads(store::overlapping(d.segments_of(source, stream), start, end)),
            encoder,
            stream,
            rows_between(d.live_of(source, stream), start, end),
        ),
    }
}

/// A stream's segments overlapping `[start, end]`, oldest first, with the live
/// tail trimmed to the range and spliced on as the newest.
///
/// Whole segments at the edges; the tail is rows, and is trimmed.
pub fn stream_range<E: SegmentEncoder>(
    db: &Db,
    source_id: i64,
    stream: &str,
    start: i64,
    end: i64,
    encoder: &E,
) -> (r: Result<Vec<Vec<u8>>, Error>)
    ensures
        gives_parts(
            r,
            ranged(db@, source_id, stream@, start, end, *encoder),
        ),
{
    match check_encoder_of(db, source_id, encoder) {
        Ok(_) => {},
        Err(e) => {
            return Err(e);
        },
    }
    let mut segments = take_payloads(db.segments_overlapping(source_id, stream, start, end));
    let live = db.live_wal(source_id, stream);
    let ghost all = seqs::views(live@);
    let ghost keep = |r: WalView| start <= r.ts <= end;
    let mut trimmed: Vec<crate::db::WalRow> = Vec::new();
    let mut i: usize = 0;
    proof {
        seqs::lemma_views_empty::<crate::db::WalRow>();
        seqs::lemma_filter_full(all, keep);
    }
    while i < live.len()
        invariant
            i <= live@.len(),
            all == seqs::views(live@),
            keep == |r: WalView| start <= r.ts <= end,
            seqs::views(trimmed@) == all.take(i as int).filter(keep),
        decreases live@.len() - i,
    {
        proof {
            seqs::lemma_filter_take(all, i as int, keep);
            assert(all[i as int] == live@[i as int]@);
        }
        if live[i].ts >= start && live[i].ts <= end {
            trimmed.push(live[i].clone());
        }
        i += 1;
    }
    match materialize(encoder, stream, trimmed.as_slice()) {
        Err(e) => Err(e),
        Ok(None) => Ok(segments),
        Ok(Some(tail)) => {
            segments.push(tail.bytes);
            Ok(segments)
        },
    }
}

/// The indexes of segments.
pub open spec fn index_list(s: Seq<SegmentView>) -> Seq<Option<Seq<u8>>> {
    s.map_values(|v: SegmentView| v.caller_index)
}

/// The views of indexes.
pub open spec fn index_views(s: Seq<Option<Vec<u8>>>) -> Seq<Option<Seq<u8>>> {
    s.map_values(|o: Option<Vec<u8>>| seqs::opt_view(o))
}

/// A stream's indexes, in the order of its segments: the sealed ones, then the
/// live tail's.
pub open spec fn indexed<E: SegmentEncoder>(
    d: DbView,
    source: i64,
    stream: Seq<char>,
    encoder: E,
) -> Result<Seq<Option<Seq<u8>>>, ErrorView> {
    let sealed = index_list(d.segments_of(source, stream));
    match reading_refusal(d, source, encoder) {
        Some(e) => Err(e),
        None => match segment::materialized(encoder, stream, d.live_of(source, stream)) {
            Err(e) => Err(e),
            Ok(None) => Ok(sealed),
            Ok(Some(s)) => Ok(sealed.push(s.index)),
        },
    }
}

/// One stream's indexes, in the same order as [`stream_segments`] returns its
/// segments: the sealed ones from the catalog, then the live tail's.
pub fn stream_indexes<E: SegmentEncoder>(
    db: &Db,
    source_id: i64,
    stream: &str,
    encoder: &E,
) -> (r: Result<Vec<Option<Vec<u8>>>, Error>)
    ensures
        match indexed(db@, source_id, stream@, *encoder) {
            Ok(x) => r matches Ok(v) && index_views(v@) == x,
            Err(e) => r matches Err(x) && x@ == e,
        },
{
    match check_encoder_of(db, source_id, encoder) {
        Ok(_) => {},
        Err(e) => {
            return Err(e);
        },
    }
    let sealed = db.read_segment_indexes(source_id, stream);
    let ghost all = db@.segments_of(source_id, stream@);
    let mut out: Vec<Option<Vec<u8>>> = Vec::new();
    let mut i: usize = 0;
    proof {
        assert(index_views(out@) =~= index_list(all.take(0)));
        assert(store::index_views(sealed@).len() == store::indexes_of(all).len());
    }
    while i < sealed.len()
        invariant
            i <= sealed@.len(),
            sealed@.len() == all.len(),
            all == db@.segments_of(source_id, stream@),
            store::index_views(sealed@) == store::indexes_of(all),
            index_views(out@) == index_list(all.take(i as int)),
        decreases sealed@.len() - i,
    {
        let ghost was = index_views(out@);
        proof {
            assert(store::index_views(sealed@)[i as int].1 == seqs::opt_view(
                sealed@[i as int].1,
            ));
            assert(store::indexes_of(all)[i as int].1 == all[i as int].caller_index);
        }
        out.push(seqs::copy_opt_bytes(&sealed[i].1));
        proof {
            assert(index_views(out@) =~= was.push(all[i as int].caller_index));
            assert(index_list(all.take(i + 1)) =~= was.push(all[i as int].caller_index));
        }
        i += 1;
    }
    proof {
        assert(all.take(i as int) =~= all);
    }
    let live = db.live_wal(source_id, stream);
    match materialize(encoder, stream, live.as_slice()) {
        Err(e) => Err(e),
        Ok(None) => Ok(out),
        Ok(Some(tail)) => {
            let ghost was = index_views(out@);
            let ghost last = tail@.index;
            out.push(tail.index);
            assert(index_views(out@) =~= was.push(last));
            Ok(out)
        },
    }
}

// ------------------------------------------------------------ whole archives

/// One source's contents, resolved to bytes.
#[derive(Debug, PartialEq, Eq)]
pub struct SourceSegments {
    /// What distinguishes this source from the others.
    pub labels: TextMap,
    /// The caller's metadata map, as stored.
    pub metadata: TextMap,
    /// False when the source was never cleanly finalized.
    pub complete: bool,
    /// Each stream's parquet segments, oldest first, live tail last.
    pub streams: Vec<(String, Vec<Vec<u8>>)>,
}

/// One source's contents, as mathematics.
pub struct SourceSegmentsView {
    pub labels: Seq<Entry>,
    pub metadata: Seq<Entry>,
    pub complete: bool,
    pub streams: Seq<(Seq<char>, Seq<Seq<u8>>)>,
}

/// The views of streams and their payloads.
pub open spec fn stream_views(s: Seq<(String, Vec<Vec<u8>>)>) -> Seq<(Seq<char>, Seq<Seq<u8>>)> {
    s.map_values(|p: (String, Vec<Vec<u8>>)| (p.0@, seqs::views(p.1@)))
}

impl View for SourceSegments {
    type V = SourceSegmentsView;

    open spec fn view(&self) -> SourceSegmentsView {
        SourceSegmentsView {
            labels: self.labels@,
            metadata: self.metadata@,
            complete: self.complete,
            streams: stream_views(self.streams@),
        }
    }
}

/// Streams and their payloads, those without any left out, or the first
/// refusal.
pub open spec fn streams_read<E: SegmentEncoder>(
    d: DbView,
    source: i64,
    names: Seq<Seq<char>>,
    encoder: E,
) -> Result<Seq<(Seq<char>, Seq<Seq<u8>>)>, ErrorView>
    decreases names.len(),
{
    if names.len() == 0 {
        Ok(Seq::empty())
    } else {
        match streams_read(d, source, names.drop_last(), encoder) {
            Err(e) => Err(e),
            Ok(head) => match stream_parts(d, source, names.last(), encoder) {
                Err(e) => Err(e),
                Ok(parts) => if parts.len() == 0 {
                    Ok(head)
                } else {
                    Ok(head.push((names.last(), parts)))
                },
            },
        }
    }
}

/// Sources and their contents, or the first refusal.
pub open spec fn sources_read<E: SegmentEncoder>(
    d: DbView,
    sources: Seq<SourceView>,
    encoder: E,
) -> Result<Seq<SourceSegmentsView>, ErrorView>
    decreases sources.len(),
{
    if sources.len() == 0 {
        Ok(Seq::empty())
    } else {
        let s = sources.last();
        match sources_read(d, sources.drop_last(), encoder) {
            Err(e) => Err(e),
            Ok(head) => match segment::encoder_refusal(
                s.id,
                s.meta.metadata,
                encoder.reported(),
            ) {
                Some(e) => Err(e),
                None => match streams_read(d, s.id, d.streams_of(s.id), encoder) {
                    Err(e) => Err(e),
                    Ok(streams) => Ok(
                        head.push(
                            SourceSegmentsView {
                                labels: s.meta.labels,
                                metadata: s.meta.metadata,
                                complete: s.complete,
                                streams,
                            },
                        ),
                    ),
                },
            },
        }
    }
}

proof fn lemma_streams_read_stop<E: SegmentEncoder>(
    d: DbView,
    source: i64,
    names: Seq<Seq<char>>,
    encoder: E,
    n: int,
)
    requires
        0 <= n <= names.len(),
    ensures
        streams_read(d, source, names.take(n), encoder) is Err ==> streams_read(
            d,
            source,
            names,
            encoder,
        ) == streams_read(d, source, names.take(n), encoder),
    decreases names.len() - n,
{
    if n == names.len() {
        assert(names.take(n) =~= names);
    } else {
        lemma_streams_read_stop(d, source, names, encoder, n + 1);
        assert(names.take(n + 1).drop_last() =~= names.take(n));
    }
}

proof fn lemma_sources_read_stop<E: SegmentEncoder>(
    d: DbView,
    sources: Seq<SourceView>,
    encoder: E,
    n: int,
)
    requires
        0 <= n <= sources.len(),
    ensures
        sources_read(d, sources.take(n), encoder) is Err ==> sources_read(d, sources, encoder)
            == sources_read(d, sources.take(n), encoder),
    decreases sources.len() - n,
{
    if n == sources.len() {
        assert(sources.take(n) =~= sources);
    } else {
        lemma_sources_read_stop(d, sources, encoder, n + 1);
        assert(sources.take(n + 1).drop_last() =~= sources.take(n));
    }
}

fn read_streams<E: SegmentEncoder>(db: &Db, source_id: i64, encoder: &E) -> (r: Result<
    Vec<(String, Vec<Vec<u8>>)>,
    Error,
>)
    ensures
        match streams_read(db@, source_id, db@.streams_of(source_id), *encoder) {
            Ok(x) => r matches Ok(v) && stream_views(v@) == x,
            Err(e) => r matches Err(x) && x@ == e,
        },
{
    let names = db.all_streams(source_id);
    let ghost all = seqs::views(names@);
    let mut out: Vec<(String, Vec<Vec<u8>>)> = Vec::new();
    let mut i: usize = 0;
    proof {
        assert(stream_views(out@) =~= Seq::empty());
    }
    while i < names.len()
        invariant
            i <= names@.len(),
            all == seqs::views(names@),
            all == db@.streams_of(source_id),
            streams_read(db@, source_id, all.take(i as int), *encoder) == Ok::<
                Seq<(Seq<char>, Seq<Seq<u8>>)>,
                ErrorView,
            >(stream_views(out@)),
        decreases names@.len() - i,
    {
        proof {
            assert(all.take(i + 1).drop_last() =~= all.take(i as int));
            assert(all.take(i + 1).last() == names@[i as int]@);
            lemma_streams_read_stop(db@, source_id, all, *encoder, i + 1);
        }
        match stream_segments_unchecked(db, source_id, names[i].as_str(), encoder) {
            Err(e) => {
                return Err(e);
            },
            Ok(segments) => {
                if segments.len() > 0 {
                    let ghost was = stream_views(out@);
                    let ghost parts = seqs::views(segments@);
                    out.push((names[i].clone(), segments));
                    assert(stream_views(out@) =~= was.push((all[i as int], parts)));
                }
            },
        }
        i += 1;
    }
    proof {
        assert(all.take(i as int) =~= all);
    }
    Ok(out)
}

/// Every source in the archive, resolved to bytes. A stream still inside its
/// first seal period is among them, and each stream's live tail is its newest
/// segment.
pub fn read_archive<E: SegmentEncoder>(db: &Db, encoder: &E) -> (r: Result<
    Vec<SourceSegments>,
    Error,
>)
    ensures
        match sources_read(db@, db@.sources, *encoder) {
            Ok(x) => r matches Ok(v) && seqs::views(v@) == x,
            Err(e) => r matches Err(x) && x@ == e,
        },
{
    let sources = db.read_sources();
    let ghost all = seqs::views(sources@);
    let mut out: Vec<SourceSegments> = Vec::new();
    let mut i: usize = 0;
    proof {
        seqs::lemma_views_empty::<SourceSegments>();
    }
    while i < sources.len()
        invariant
            i <= sources@.len(),
            all == seqs::views(sources@),
            all == db@.sources,
            sources_read(db@, all.take(i as int), *encoder) == Ok::<
                Seq<SourceSegmentsView>,
                ErrorView,
            >(seqs::views(out@)),
        decreases sources@.len() - i,
    {
        proof {
            assert(all.take(i + 1).drop_last() =~= all.take(i as int));
            assert(all.take(i + 1).last() == sources@[i as int]@);
            lemma_sources_read_stop(db@, all, *encoder, i + 1);
        }
        let src = sources[i].clone();
        match check_encoder(src.id, &src.meta.metadata, encoder) {
            Ok(_) => {},
            Err(e) => {
                return Err(e);
            },
        }
        match read_streams(db, src.id, encoder) {
            Err(e) => {
                return Err(e);
            },
            Ok(streams) => {
                out.push(
                    SourceSegments {
                        labels: src.meta.labels,
                        metadata: src.meta.metadata,
                        complete: src.complete,
                        streams,
                    },
                );
            },
        }
        i += 1;
    }
    proof {
        assert(all.take(i as int) =~= all);
    }
    Ok(out)
}

// ------------------------------------------------------------ lazily

/// Where one stream's segment bytes come from, resolved lazily.
#[derive(Debug)]
pub enum SegmentBytes {
    /// Already resolved: the segments, oldest first, live tail included.
    Bytes(Vec<Vec<u8>>),
    /// A stream in an archive on disk, opened per fetch.
    AtPath {
        /// The archive holding it.
        path: String,
        /// The source the stream belongs to.
        source_id: i64,
        /// The stream to fetch.
        stream: String,
    },
    /// A stream of an archive that is open already, shared by every stream of
    /// it.
    Shared {
        /// The archive.
        db: Arc<Db>,
        /// The source the stream belongs to.
        source_id: i64,
        /// The stream to fetch.
        stream: String,
    },
}

/// A stream's segments, checked against the encoder.
pub open spec fn checked_parts<E: SegmentEncoder>(
    d: DbView,
    source: i64,
    stream: Seq<char>,
    encoder: E,
) -> Result<Seq<Seq<u8>>, ErrorView> {
    match reading_refusal(d, source, encoder) {
        Some(e) => Err(e),
        None => stream_parts(d, source, stream, encoder),
    }
}

fn copy_all(parts: &Vec<Vec<u8>>) -> (r: Vec<Vec<u8>>)
    ensures
        seqs::views(r@) == seqs::views(parts@),
{
    let mut out: Vec<Vec<u8>> = Vec::new();
    let mut i: usize = 0;
    let ghost all = seqs::views(parts@);
    proof {
        seqs::lemma_views_empty::<Vec<u8>>();
    }
    while i < parts.len()
        invariant
            i <= parts@.len(),
            all == seqs::views(parts@),
            seqs::views(out@) == all.take(i as int),
        decreases parts@.len() - i,
    {
        let ghost was = seqs::views(out@);
        out.push(copy_bytes(&parts[i]));
        proof {
            assert(all.take(i + 1) =~= was.push(all[i as int]));
        }
        i += 1;
    }
    proof {
        assert(all.take(i as int) =~= all);
    }
    out
}

impl SegmentBytes {
    /// A stream whose bytes will be fetched from the archive at `path`.
    pub fn at_path(path: String, source_id: i64, stream: String) -> (r: SegmentBytes)
        ensures
            r == (SegmentBytes::AtPath { path, source_id, stream }),
    {
        SegmentBytes::AtPath { path, source_id, stream }
    }

    /// A stream whose bytes will be fetched from a shared, already-open
    /// archive.
    pub fn shared(db: Arc<Db>, source_id: i64, stream: String) -> (r: SegmentBytes)
        ensures
            r == (SegmentBytes::Shared { db, source_id, stream }),
    {
        SegmentBytes::Shared { db, source_id, stream }
    }

    /// Every segment of this stream, materialized. `open` opens the archive at
    /// a path, and is called only where the stream is in one.
    pub fn all<E: SegmentEncoder, F: FnOnce(&str) -> Result<Db, Error>>(
        &self,
        encoder: &E,
        open: F,
    ) -> (r: Result<Vec<Vec<u8>>, Error>)
        requires
            forall|p: &str| open.requires((p,)),
        ensures
            match *self {
                SegmentBytes::Bytes(parts) => r matches Ok(v) && seqs::views(v@) == seqs::views(
                    parts@,
                ),
                SegmentBytes::Shared { db, source_id, stream } => gives_parts(
                    r,
                    checked_parts(db@, source_id, stream@, *encoder),
                ),
                SegmentBytes::AtPath { path, source_id, stream } => exists|
                    p: &str,
                    found: Result<Db, Error>,
                |
                    #![trigger open.ensures((p,), found)]
                    p@ == path@ && open.ensures((p,), found) && match found {
                        Ok(db) => gives_parts(
                            r,
                            checked_parts(db@, source_id, stream@, *encoder),
                        ),
                        Err(e) => r == Err::<Vec<Vec<u8>>, Error>(e),
                    },
            },
    {
        match self {
            SegmentBytes::Bytes(parts) => Ok(copy_all(parts)),
            SegmentBytes::AtPath { path, source_id, stream } => {
                let p = path.as_str();
                let found = open(p);
                assert(open.ensures((p,), found));
                match found {
                    Ok(db) => stream_segments(&db, *source_id, stream.as_str(), encoder),
                    Err(e) => Err(e),
                }
            },
            SegmentBytes::Shared { db, source_id, stream } => {
                stream_segments(db, *source_id, stream.as_str(), encoder)
            },
        }
    }
}

} // verus!
