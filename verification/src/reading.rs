//! What holds of every read.

use vstd::prelude::*;

use crate::db;
use crate::db::model;
use crate::db::model::DbView;
use crate::db::store;
use crate::db::{SegmentView, SourceView, WalView};
use crate::error::ErrorView;
use crate::keys;
use crate::names;
use crate::read;
use crate::read::{SourceCatalogView, StreamCatalogView};
use crate::segment;
use crate::segment::{Encoding, SegmentEncoder};
use crate::seqs;
use crate::text;
use crate::text_map;

verus! {

// ------------------------------------------------------------ one stream

/// Whether what an encoder gave for rows is refused: it failed, or it made a segment
/// that does not describe the rows: of none of them, of a span outside theirs, or of
/// another number of rows than its span holds.
pub open spec fn tail_refused<E: SegmentEncoder>(
    encoder: E,
    stream: Seq<char>,
    rows: Seq<WalView>,
) -> bool {
    rows.len() > 0 && match encoder.encoded(stream, rows) {
        Err(_) => true,
        Ok(None) => false,
        Ok(Some(s)) => {
            ||| s.rows == 0
            ||| s.first_ts > s.last_ts
            ||| s.first_ts < rows[0].ts
            ||| s.last_ts > rows.last().ts
            ||| s.rows != rows.filter(|r: WalView| s.first_ts <= r.ts <= s.last_ts).len()
        },
    }
}

/// A stream reads as its segments' files in order and then, where it has live rows
/// that its encoder makes a segment of, that segment's. It is refused exactly where
/// what the encoder made of the live rows is.
pub proof fn law_a_stream_reads_as_its_segments_and_its_tail<E: SegmentEncoder>(
    d: DbView,
    source: i64,
    stream: Seq<char>,
    encoder: E,
)
    ensures
        ({
            let sealed = d.segments_of(source, stream);
            let live = d.live_of(source, stream);
            let made = encoder.encoded(stream, live);
            let n = sealed.len() as int;
            &&& read::stream_parts(d, source, stream, encoder) is Err <==> tail_refused(
                encoder,
                stream,
                live,
            )
            &&& read::stream_parts(d, source, stream, encoder) matches Ok(parts) ==> {
                &&& forall|i: int| 0 <= i < n ==> parts[i] == (#[trigger] sealed[i]).bytes
                &&& live.len() > 0 && made is Ok && made->Ok_0 is Some ==> parts.len() == n + 1
                    && parts[n] == (made->Ok_0)->0.bytes
                &&& live.len() == 0 || made == Encoding::Ok(None) ==> parts.len() == n
            }
        }),
{
    let live = d.live_of(source, stream);
    if live.len() > 0 {
        if let Ok(Some(s)) = encoder.encoded(stream, live) {
            assert(segment::honest(s, live) <==> !tail_refused(encoder, stream, live));
        }
    }
}

/// A source is refused to an encoder exactly where both name a version and the two
/// differ.
pub proof fn law_an_encoder_is_refused_for_another_version(
    source: i64,
    metadata: Seq<text_map::Entry>,
    reading: Option<Seq<char>>,
)
    ensures
        segment::encoder_refusal(source, metadata, reading) is Some <==> (text_map::lookup(
            metadata,
            keys::ENCODER@,
        ) is Some && reading is Some && text_map::lookup(metadata, keys::ENCODER@)->0
            != reading->0),
        segment::encoder_refusal(source, metadata, reading) matches Some(e) ==> e
            == (ErrorView::EncoderMismatch {
            source_id: source,
            wrote: text_map::lookup(metadata, keys::ENCODER@)->0,
            reading: reading->0,
        }),
{
}

/// A probe gives the first of the segments that a read of the stream gives, and
/// nothing where it gives none.
pub proof fn law_a_probe_gives_the_first_segment<E: SegmentEncoder>(
    d: DbView,
    source: i64,
    stream: Seq<char>,
    encoder: E,
)
    ensures
        read::checked_parts(d, source, stream, encoder) matches Ok(parts) ==> read::probed(
            d,
            source,
            stream,
            encoder,
        ) == Ok::<Option<Seq<u8>>, ErrorView>(
            if parts.len() == 0 {
                None
            } else {
                Some(parts[0])
            },
        ),
{
    let sealed = d.segments_of(source, stream);
    if sealed.len() > 0 {
        assert(read::payloads(sealed)[0] == sealed[0].bytes);
    }
}

/// A stream's indexes stand beside its segments, one for each and in their order: what
/// is read of the one is read of the other, and each sealed segment's is its own.
pub proof fn law_indexes_stand_beside_segments<E: SegmentEncoder>(
    d: DbView,
    source: i64,
    stream: Seq<char>,
    encoder: E,
)
    ensures
        ({
            let sealed = d.segments_of(source, stream);
            let made = encoder.encoded(stream, d.live_of(source, stream));
            match (
                read::checked_parts(d, source, stream, encoder),
                read::indexed(d, source, stream, encoder),
            ) {
                (Ok(parts), Ok(indexes)) => {
                    &&& indexes.len() == parts.len()
                    &&& forall|i: int|
                        0 <= i < sealed.len() ==> indexes[i] == (#[trigger] sealed[i]).caller_index
                    &&& parts.len() > sealed.len() ==> indexes.last()
                        == (made->Ok_0)->0.index
                },
                (Err(a), Err(b)) => a == b,
                _ => false,
            }
        }),
{
}

// ------------------------------------------------------------ ranges

/// The segments that overlap a range are those that end at or after its start and
/// begin at or before its end, in order; every one of them and no other.
pub proof fn law_segments_overlap_where_they_meet(
    segments: Seq<SegmentView>,
    start: i64,
    end: i64,
)
    ensures
        forall|i: int|
            0 <= i < segments.len() && (#[trigger] segments[i]).meta.first_ts <= end
                && start <= segments[i].meta.last_ts ==> store::overlapping(
                segments,
                start,
                end,
            ).contains(segments[i]),
        forall|k: int|
            0 <= k < store::overlapping(segments, start, end).len() ==> {
                let v = #[trigger] store::overlapping(segments, start, end)[k];
                v.meta.first_ts <= end && start <= v.meta.last_ts && segments.contains(v)
            },
        store::overlapping(segments, i64::MIN, i64::MAX) == segments,
{
    let meets = |v: SegmentView| v.meta.last_ts >= start && v.meta.first_ts <= end;
    let all = |v: SegmentView| v.meta.last_ts >= i64::MIN && v.meta.first_ts <= i64::MAX;
    assert forall|i: int|
        0 <= i < segments.len() && (#[trigger] segments[i]).meta.first_ts <= end && start
            <= segments[i].meta.last_ts implies store::overlapping(
        segments,
        start,
        end,
    ).contains(segments[i]) by {
        seqs::lemma_filter_keeps(segments, meets, i);
    }
    assert forall|k: int| 0 <= k < store::overlapping(segments, start, end).len() implies ({
        let v = #[trigger] store::overlapping(segments, start, end)[k];
        v.meta.first_ts <= end && start <= v.meta.last_ts && segments.contains(v)
    }) by {
        seqs::lemma_filter_member(segments, meets, k);
    }
    seqs::lemma_filter_all(segments, all);
}

/// The rows of a range are those at or after its start and at or before its end: every
/// one of them and no other, in order.
pub proof fn law_rows_are_in_a_range_where_they_fall(rows: Seq<WalView>, start: i64, end: i64)
    ensures
        forall|i: int|
            0 <= i < rows.len() && start <= (#[trigger] rows[i]).ts && rows[i].ts <= end
                ==> read::rows_between(rows, start, end).contains(rows[i]),
        forall|k: int|
            0 <= k < read::rows_between(rows, start, end).len() ==> {
                let r = #[trigger] read::rows_between(rows, start, end)[k];
                start <= r.ts && r.ts <= end && rows.contains(r)
            },
        read::rows_between(rows, i64::MIN, i64::MAX) == rows,
{
    let falls = |r: WalView| start <= r.ts <= end;
    let all = |r: WalView| i64::MIN <= r.ts <= i64::MAX;
    assert forall|i: int|
        0 <= i < rows.len() && start <= (#[trigger] rows[i]).ts && rows[i].ts
            <= end implies read::rows_between(rows, start, end).contains(rows[i]) by {
        seqs::lemma_filter_keeps(rows, falls, i);
    }
    assert forall|k: int| 0 <= k < read::rows_between(rows, start, end).len() implies ({
        let r = #[trigger] read::rows_between(rows, start, end)[k];
        start <= r.ts && r.ts <= end && rows.contains(r)
    }) by {
        seqs::lemma_filter_member(rows, falls, k);
    }
    seqs::lemma_filter_all(rows, all);
}

/// A range split in two reads the same rows: those of the first part, then those of
/// the second.
pub proof fn law_a_range_splits(rows: Seq<WalView>, start: i64, at: i64, end: i64)
    requires
        db::laws::by_ts(rows),
        start <= at < end,
    ensures
        read::rows_between(rows, start, end) == read::rows_between(rows, start, at)
            + read::rows_between(rows, (at + 1) as i64, end),
    decreases rows.len(),
{
    reveal(Seq::filter);
    let after = (at + 1) as i64;
    if rows.len() == 0 {
        assert(read::rows_between(rows, start, end) =~= read::rows_between(rows, start, at)
            + read::rows_between(rows, after, end));
    } else {
        let head = rows.drop_last();
        let r = rows.last();
        assert(db::laws::by_ts(head)) by {
            assert forall|i: int, j: int| 0 <= i < j < head.len() implies #[trigger] head[i].ts
                < #[trigger] head[j].ts by {
                assert(head[i] == rows[i] && head[j] == rows[j]);
            }
        }
        law_a_range_splits(head, start, at, end);
        let a = read::rows_between(head, start, at);
        let b = read::rows_between(head, after, end);
        if r.ts <= at {
            if b.len() > 0 {
                seqs::lemma_filter_member(head, |r: WalView| after <= r.ts <= end, 0);
                let i = choose|i: int| 0 <= i < head.len() && head[i] == b[0];
                assert(rows[i].ts < rows[rows.len() - 1].ts);
            }
            assert(b =~= Seq::empty());
            if start <= r.ts {
                assert((a + b).push(r) =~= a.push(r) + b);
            }
        } else if r.ts <= end {
            assert((a + b).push(r) =~= a + b.push(r));
        }
    }
}

/// A read of every timestamp is a read of the stream.
pub proof fn law_a_range_over_everything_is_the_stream<E: SegmentEncoder>(
    d: DbView,
    source: i64,
    stream: Seq<char>,
    encoder: E,
)
    ensures
        read::ranged(d, source, stream, i64::MIN, i64::MAX, encoder) == read::checked_parts(
            d,
            source,
            stream,
            encoder,
        ),
{
    law_segments_overlap_where_they_meet(d.segments_of(source, stream), i64::MIN, i64::MAX);
    law_rows_are_in_a_range_where_they_fall(d.live_of(source, stream), i64::MIN, i64::MAX);
}

/// A read of a range gives the file of every segment that meets it, in order, and then
/// what the encoder makes of the live rows in it, where there are any.
pub proof fn law_a_range_reads_what_meets_it<E: SegmentEncoder>(
    d: DbView,
    source: i64,
    stream: Seq<char>,
    start: i64,
    end: i64,
    encoder: E,
)
    ensures
        ({
            let sealed = d.segments_of(source, stream).filter(
                |v: SegmentView| start <= v.meta.last_ts && v.meta.first_ts <= end,
            );
            let live = d.live_of(source, stream).filter(|r: WalView| start <= r.ts <= end);
            let made = encoder.encoded(stream, live);
            let n = sealed.len() as int;
            read::ranged(d, source, stream, start, end, encoder) matches Ok(parts) ==> {
                &&& forall|i: int| 0 <= i < n ==> parts[i] == (#[trigger] sealed[i]).bytes
                &&& live.len() > 0 && made is Ok && made->Ok_0 is Some ==> parts.len() == n + 1
                    && parts[n] == (made->Ok_0)->0.bytes
                &&& live.len() == 0 || made == Encoding::Ok(None) ==> parts.len() == n
                &&& !tail_refused(encoder, stream, live)
            }
        }),
{
    let all = d.segments_of(source, stream);
    let meets = |v: SegmentView| start <= v.meta.last_ts && v.meta.first_ts <= end;
    let over = |v: SegmentView| v.meta.last_ts >= start && v.meta.first_ts <= end;
    seqs::lemma_filter_same(all, meets, over);
    let rows = d.live_of(source, stream);
    let falls = |r: WalView| start <= r.ts <= end;
    let live = rows.filter(falls);
    assert(read::rows_between(rows, start, end) == live);
    if live.len() > 0 {
        if let Ok(Some(s)) = encoder.encoded(stream, live) {
            assert(segment::honest(s, live) <==> !tail_refused(encoder, stream, live));
        }
    }
}

// ------------------------------------------------------------ whole archives

proof fn lemma_streams_read<E: SegmentEncoder>(
    d: DbView,
    source: i64,
    streams: Seq<Seq<char>>,
    encoder: E,
)
    ensures
        read::streams_read(d, source, streams, encoder) is Ok <==> forall|i: int|
            0 <= i < streams.len() ==> read::stream_parts(
                d,
                source,
                #[trigger] streams[i],
                encoder,
            ) is Ok,
        read::streams_read(d, source, streams, encoder) matches Ok(x) ==> {
            &&& x.map_values(|p: (Seq<char>, Seq<Seq<u8>>)| p.0) == streams.filter(
                |n: Seq<char>|
                    (read::stream_parts(d, source, n, encoder)->Ok_0).len() > 0,
            )
            &&& forall|k: int|
                0 <= k < x.len() ==> read::stream_parts(
                    d,
                    source,
                    (#[trigger] x[k]).0,
                    encoder,
                ) == Ok::<Seq<Seq<u8>>, ErrorView>(x[k].1) && x[k].1.len() > 0
        },
    decreases streams.len(),
{
    reveal(Seq::filter);
    let has = |n: Seq<char>| (read::stream_parts(d, source, n, encoder)->Ok_0).len() > 0;
    let name = |p: (Seq<char>, Seq<Seq<u8>>)| p.0;
    let r = read::streams_read(d, source, streams, encoder);
    if streams.len() == 0 {
        assert((r->Ok_0).map_values(name) =~= streams.filter(has));
    } else {
        let head = streams.drop_last();
        lemma_streams_read(d, source, head, encoder);
        let was = read::streams_read(d, source, head, encoder);
        let last = streams[streams.len() - 1];
        if r is Ok {
            assert forall|i: int| 0 <= i < streams.len() implies read::stream_parts(
                d,
                source,
                #[trigger] streams[i],
                encoder,
            ) is Ok by {
                if i < head.len() {
                    assert(head[i] == streams[i]);
                }
            }
            if has(last) {
                assert((r->Ok_0).map_values(name) =~= (was->Ok_0).map_values(name).push(last));
            }
        } else if was is Err {
            let i = choose|i: int|
                0 <= i < head.len() && read::stream_parts(
                    d,
                    source,
                    #[trigger] head[i],
                    encoder,
                ) is Err;
            assert(streams[i] == head[i]);
        } else {
            assert(read::stream_parts(d, source, last, encoder) is Err);
        }
    }
}

proof fn lemma_sources_read<E: SegmentEncoder>(d: DbView, sources: Seq<SourceView>, encoder: E)
    ensures
        read::sources_read(d, sources, encoder) is Ok <==> forall|k: int|
            0 <= k < sources.len() ==> source_reads(d, #[trigger] sources[k], encoder),
        read::sources_read(d, sources, encoder) matches Ok(x) ==> {
            &&& x.len() == sources.len()
            &&& forall|k: int|
                0 <= k < sources.len() ==> (#[trigger] x[k]).labels == sources[k].meta.labels
                    && x[k].metadata == sources[k].meta.metadata && x[k].complete
                    == sources[k].complete && read::streams_read(
                    d,
                    sources[k].id,
                    d.streams_of(sources[k].id),
                    encoder,
                ) == Ok::<Seq<(Seq<char>, Seq<Seq<u8>>)>, ErrorView>(x[k].streams)
        },
    decreases sources.len(),
{
    if sources.len() > 0 {
        let head = sources.drop_last();
        lemma_sources_read(d, head, encoder);
        let s = sources[sources.len() - 1];
        lemma_streams_read(d, s.id, d.streams_of(s.id), encoder);
        let was = read::sources_read(d, head, encoder);
        let r = read::sources_read(d, sources, encoder);
        if was is Err {
            let k = choose|k: int|
                0 <= k < head.len() && !source_reads(d, #[trigger] head[k], encoder);
            assert(sources[k] == head[k]);
        } else {
            assert forall|k: int| 0 <= k < head.len() implies source_reads(
                d,
                #[trigger] sources[k],
                encoder,
            ) by {
                assert(head[k] == sources[k]);
            }
            assert(source_reads(d, s, encoder) <==> r is Ok);
            if r is Ok {
                let x = r->Ok_0;
                assert forall|k: int| 0 <= k < sources.len() implies (#[trigger] x[k]).labels
                    == sources[k].meta.labels && x[k].metadata == sources[k].meta.metadata
                    && x[k].complete == sources[k].complete && read::streams_read(
                    d,
                    sources[k].id,
                    d.streams_of(sources[k].id),
                    encoder,
                ) == Ok::<Seq<(Seq<char>, Seq<Seq<u8>>)>, ErrorView>(x[k].streams) by {
                    if k < head.len() {
                        assert(x[k] == (was->Ok_0)[k]);
                        assert(head[k] == sources[k]);
                    }
                }
            }
        }
    }
}

/// Whether a source can be read with an encoder: neither names a version that the
/// other's differs from, and every stream of it reads.
pub open spec fn source_reads<E: SegmentEncoder>(d: DbView, s: SourceView, encoder: E) -> bool {
    &&& text_map::lookup(s.meta.metadata, keys::ENCODER@) is Some && encoder.reported() is Some
        ==> text_map::lookup(s.meta.metadata, keys::ENCODER@) == encoder.reported()
    &&& forall|i: int|
        0 <= i < d.streams_of(s.id).len() ==> read::stream_parts(
            d,
            s.id,
            #[trigger] d.streams_of(s.id)[i],
            encoder,
        ) is Ok
}

/// An archive is read exactly where every source of it can be.
pub proof fn law_an_archive_reads_where_every_source_does<E: SegmentEncoder>(
    d: DbView,
    encoder: E,
)
    ensures
        read::sources_read(d, d.sources, encoder) is Ok <==> forall|k: int|
            0 <= k < d.sources.len() ==> source_reads(d, #[trigger] d.sources[k], encoder),
{
    lemma_sources_read(d, d.sources, encoder);
}

/// Reading an archive leaves out no source and no stream. There is an entry for each
/// source, in order and with what the source says of itself; every stream of the source
/// that reads as one segment or more is in it, once, in the order of its streams, with
/// those segments; and no other stream is.
pub proof fn law_an_archive_reads_every_stream<E: SegmentEncoder>(d: DbView, encoder: E, k: int)
    requires
        read::sources_read(d, d.sources, encoder) is Ok,
        0 <= k < d.sources.len(),
    ensures
        (read::sources_read(d, d.sources, encoder)->Ok_0).len() == d.sources.len(),
        ({
            let s = d.sources[k];
            let x = (read::sources_read(d, d.sources, encoder)->Ok_0)[k];
            let listed = d.streams_of(s.id);
            &&& x.labels == s.meta.labels
            &&& x.metadata == s.meta.metadata
            &&& x.complete == s.complete
            &&& forall|i: int|
                0 <= i < listed.len() ==> (read::stream_parts(
                    d,
                    s.id,
                    #[trigger] listed[i],
                    encoder,
                ) matches Ok(parts) && (parts.len() >= 1 ==> x.streams.contains(
                    (listed[i], parts),
                )))
            &&& forall|j: int|
                0 <= j < x.streams.len() ==> listed.contains((#[trigger] x.streams[j]).0)
                    && x.streams[j].1.len() >= 1 && read::stream_parts(
                    d,
                    s.id,
                    x.streams[j].0,
                    encoder,
                ) == Ok::<Seq<Seq<u8>>, ErrorView>(x.streams[j].1)
            &&& forall|i: int, j: int|
                0 <= i < j < x.streams.len() ==> text::text_less(
                    (#[trigger] x.streams[i]).0,
                    (#[trigger] x.streams[j]).0,
                ) && x.streams[i].0 != x.streams[j].0
        }),
{
    let s = d.sources[k];
    let x = (read::sources_read(d, d.sources, encoder)->Ok_0)[k];
    let listed = d.streams_of(s.id);
    lemma_sources_read(d, d.sources, encoder);
    lemma_streams_read(d, s.id, listed, encoder);
    let has = |n: Seq<char>| (read::stream_parts(d, s.id, n, encoder)->Ok_0).len() > 0;
    let named = x.streams.map_values(|p: (Seq<char>, Seq<Seq<u8>>)| p.0);
    assert(source_reads(d, s, encoder));
    assert forall|i: int| 0 <= i < listed.len() implies (read::stream_parts(
        d,
        s.id,
        #[trigger] listed[i],
        encoder,
    ) matches Ok(parts) && (parts.len() >= 1 ==> x.streams.contains((listed[i], parts)))) by {
        let parts = read::stream_parts(d, s.id, listed[i], encoder)->Ok_0;
        if parts.len() >= 1 {
            seqs::lemma_filter_keeps(listed, has, i);
            let j = choose|j: int| 0 <= j < named.len() && named[j] == listed[i];
            assert(x.streams[j].0 == listed[i]);
            assert(x.streams[j] == (listed[i], parts));
        }
    }
    assert forall|j: int| 0 <= j < x.streams.len() implies listed.contains(
        (#[trigger] x.streams[j]).0,
    ) by {
        assert(named[j] == x.streams[j].0);
        seqs::lemma_filter_member(listed, has, j);
    }
    db::laws::law_a_stream_is_its_rows(d, s.id, Seq::empty());
    lemma_filter_ascends(listed, has);
    assert forall|i: int, j: int| 0 <= i < j < x.streams.len() implies text::text_less(
        (#[trigger] x.streams[i]).0,
        (#[trigger] x.streams[j]).0,
    ) && x.streams[i].0 != x.streams[j].0 by {
        assert(named[i] == x.streams[i].0 && named[j] == x.streams[j].0);
        assert(text::text_less(named[i], named[j]));
        text::lemma_text_order(named[i], named[j]);
    }
}

proof fn lemma_filter_ascends(s: Seq<Seq<char>>, keep: spec_fn(Seq<char>) -> bool)
    requires
        names::ascending_names(s),
    ensures
        names::ascending_names(s.filter(keep)),
    decreases s.len(),
{
    reveal(Seq::filter);
    if s.len() > 0 {
        let d = s.drop_last();
        let f = s.filter(keep);
        assert forall|i: int, j: int| 0 <= i < j < d.len() implies text::text_less(
            #[trigger] d[i],
            #[trigger] d[j],
        ) by {
            assert(d[i] == s[i] && d[j] == s[j]);
        }
        lemma_filter_ascends(d, keep);
        assert forall|i: int, j: int| 0 <= i < j < f.len() implies text::text_less(
            #[trigger] f[i],
            #[trigger] f[j],
        ) by {
            if j >= d.filter(keep).len() {
                seqs::lemma_filter_member(d, keep, i);
                let m = choose|m: int| 0 <= m < d.len() && d[m] == d.filter(keep)[i];
                assert(text::text_less(s[m], s[s.len() - 1]));
            } else {
                assert(text::text_less(d.filter(keep)[i], d.filter(keep)[j]));
            }
        }
    }
}

// ------------------------------------------------------------ the catalog

proof fn lemma_stream_entries(d: DbView, source: i64, streams: Seq<Seq<char>>)
    requires
        read::stream_entries(d, source, streams) is Ok,
    ensures
        (read::stream_entries(d, source, streams)->Ok_0).len() == streams.len(),
        forall|i: int|
            0 <= i < streams.len() ==> read::stream_entry(d, source, streams[i]) == Ok::<
                StreamCatalogView,
                ErrorView,
            >(#[trigger] (read::stream_entries(d, source, streams)->Ok_0)[i]),
    decreases streams.len(),
{
    if streams.len() > 0 {
        let head = streams.drop_last();
        lemma_stream_entries(d, source, head);
        let x = read::stream_entries(d, source, streams)->Ok_0;
        assert forall|i: int| 0 <= i < streams.len() implies read::stream_entry(
            d,
            source,
            streams[i],
        ) == Ok::<StreamCatalogView, ErrorView>(#[trigger] x[i]) by {
            if i < head.len() {
                assert(head[i] == streams[i]);
                assert(x[i] == (read::stream_entries(d, source, head)->Ok_0)[i]);
            }
        }
    }
}

proof fn lemma_source_entries(d: DbView, sources: Seq<SourceView>)
    requires
        read::source_entries(d, sources) is Ok,
    ensures
        (read::source_entries(d, sources)->Ok_0).len() == sources.len(),
        forall|k: int|
            0 <= k < sources.len() ==> {
                let x = #[trigger] (read::source_entries(d, sources)->Ok_0)[k];
                x.source == sources[k] && read::stream_entries(
                    d,
                    sources[k].id,
                    d.streams_of(sources[k].id),
                ) == Ok::<Seq<StreamCatalogView>, ErrorView>(x.streams)
            },
    decreases sources.len(),
{
    if sources.len() > 0 {
        let head = sources.drop_last();
        lemma_source_entries(d, head);
        let x = read::source_entries(d, sources)->Ok_0;
        assert forall|k: int| 0 <= k < sources.len() implies ({
            let y = #[trigger] x[k];
            y.source == sources[k] && read::stream_entries(
                d,
                sources[k].id,
                d.streams_of(sources[k].id),
            ) == Ok::<Seq<StreamCatalogView>, ErrorView>(y.streams)
        }) by {
            if k < head.len() {
                assert(head[k] == sources[k]);
                assert(x[k] == (read::source_entries(d, head)->Ok_0)[k]);
            }
        }
    }
}

/// The catalog has an entry for each source, in order, and in it one for each of its
/// streams, in order: so many segments as the stream has, so many live rows, and from the
/// first of those to the last.
pub proof fn law_the_catalog_lists_every_stream(d: DbView, k: int, i: int)
    requires
        d.wf(),
        read::source_entries(d, d.sources) is Ok,
        0 <= k < d.sources.len(),
        0 <= i < d.streams_of(d.sources[k].id).len(),
        d.segments.len() <= u64::MAX,
        d.wal.len() <= u64::MAX,
    ensures
        (read::source_entries(d, d.sources)->Ok_0).len() == d.sources.len(),
        (read::source_entries(d, d.sources)->Ok_0)[k].source == d.sources[k],
        (read::source_entries(d, d.sources)->Ok_0)[k].streams.len() == d.streams_of(
            d.sources[k].id,
        ).len(),
        ({
            let id = d.sources[k].id;
            let x = (read::source_entries(d, d.sources)->Ok_0)[k].streams[i];
            let name = d.streams_of(id)[i];
            let sealed = d.segments_of(id, name);
            let live = d.live_of(id, name);
            &&& x.name == name
            &&& x.segments == sealed.len()
            &&& x.sealed.rows == model::sealed_rows(sealed)
            &&& x.bytes == model::sealed_bytes(sealed)
            &&& x.live.rows == live.len()
            &&& live.len() == 0 ==> x.live.first_ts is None && x.live.last_ts is None
            &&& live.len() > 0 ==> x.live.first_ts == Some(live[0].ts) && x.live.last_ts == Some(
                live.last().ts,
            )
            &&& x.sealed.last_ts is None <==> sealed.len() == 0
            &&& x.sealed.first_ts is None <==> sealed.len() == 0
            &&& forall|j: int|
                0 <= j < sealed.len() ==> x.sealed.first_ts->0 <= (#[trigger] sealed[j]).meta.first_ts
                    && sealed[j].meta.last_ts <= x.sealed.last_ts->0
            &&& sealed.len() > 0 ==> exists|j: int|
                0 <= j < sealed.len() && (#[trigger] sealed[j]).meta.first_ts
                    == x.sealed.first_ts->0
            &&& sealed.len() > 0 ==> exists|j: int|
                0 <= j < sealed.len() && (#[trigger] sealed[j]).meta.last_ts == x.sealed.last_ts->0
        }),
{
    let id = d.sources[k].id;
    let name = d.streams_of(id)[i];
    lemma_source_entries(d, d.sources);
    lemma_stream_entries(d, id, d.streams_of(id));
    let sealed = d.segments_of(id, name);
    db::laws::lemma_watermark(sealed);
    lemma_oldest_sealed(sealed);
    lemma_fewer(d, id, name);
    if sealed.len() > 0 {
        let w = model::newest_sealed(sealed)->0;
        let j = choose|j: int| 0 <= j < sealed.len() && #[trigger] sealed[j].meta.last_ts == w;
        assert(sealed[j].meta.last_ts == w);
    }
    assert forall|j: int| 0 <= j < sealed.len() implies (#[trigger] sealed[j]).meta.last_ts
        <= model::newest_sealed(sealed)->0 by {
        assert(sealed[j].meta.last_ts <= model::newest_sealed(sealed)->0);
    }
}

proof fn lemma_fewer(d: DbView, source: i64, stream: Seq<char>)
    ensures
        d.segments_of(source, stream).len() <= d.segments.len(),
        d.live_of(source, stream).len() <= d.wal.len(),
{
    seqs::lemma_filter_shorter(
        d.segments,
        |v: db::records::SegmentAtView|
            db::table::within::<db::records::SegmentAt>(v, source as int, Some(stream)),
    );
    seqs::lemma_filter_shorter(
        d.wal,
        |v: db::records::WalAtView|
            db::table::within::<db::records::WalAt>(v, source as int, Some(stream)),
    );
    let w = d.watermark(source, stream);
    seqs::lemma_filter_shorter(d.wal_of(source, stream), |r: WalView| model::past(w, r.ts));
}

proof fn lemma_oldest_sealed(s: Seq<SegmentView>)
    ensures
        model::oldest_sealed(s) is None <==> s.len() == 0,
        forall|i: int|
            0 <= i < s.len() ==> model::oldest_sealed(s)->0 <= (#[trigger] s[i]).meta.first_ts,
        s.len() > 0 ==> exists|i: int|
            0 <= i < s.len() && (#[trigger] s[i]).meta.first_ts == model::oldest_sealed(s)->0,
    decreases s.len(),
{
    if s.len() > 0 {
        let d = s.drop_last();
        lemma_oldest_sealed(d);
        let w = model::oldest_sealed(s)->0;
        if s.last().meta.first_ts == w {
            assert(s[s.len() - 1].meta.first_ts == w);
        } else {
            let i = choose|i: int|
                0 <= i < d.len() && (#[trigger] d[i]).meta.first_ts == model::oldest_sealed(d)->0;
            assert(s[i].meta.first_ts == w);
        }
        assert forall|i: int| 0 <= i < s.len() implies w <= (#[trigger] s[i]).meta.first_ts by {
            if i < d.len() {
                assert(d[i] == s[i]);
            }
        }
    }
}

/// Whether a span is the least that covers certain others: it begins where the first of
/// them does and ends where the last of them does, and there is none where they are none.
pub open spec fn covers_exactly(all: Option<(i64, i64)>, of: Seq<Option<(i64, i64)>>) -> bool {
    match all {
        None => forall|i: int| 0 <= i < of.len() ==> (#[trigger] of[i]) is None,
        Some(x) => {
            &&& forall|i: int|
                0 <= i < of.len() ==> (#[trigger] of[i] matches Some(y) ==> x.0 <= y.0 && y.1
                    <= x.1)
            &&& exists|i: int| 0 <= i < of.len() && (#[trigger] of[i] matches Some(y) && y.0 == x.0)
            &&& exists|i: int| 0 <= i < of.len() && (#[trigger] of[i] matches Some(y) && y.1 == x.1)
        },
    }
}

proof fn lemma_cover(all: Option<(i64, i64)>, of: Seq<Option<(i64, i64)>>, o: Option<(i64, i64)>)
    requires
        covers_exactly(all, of),
    ensures
        covers_exactly(read::cover(all, o), of.push(o)),
{
    let more = of.push(o);
    let x = read::cover(all, o);
    assert(more[of.len() as int] == o);
    assert forall|i: int| 0 <= i < of.len() implies #[trigger] more[i] == of[i] by {}
    if all is Some && x is Some {
        let a = choose|i: int|
            0 <= i < of.len() && (#[trigger] of[i] matches Some(y) && y.0 == (all->Some_0).0);
        let b = choose|i: int|
            0 <= i < of.len() && (#[trigger] of[i] matches Some(y) && y.1 == (all->Some_0).1);
        assert(more[a] == of[a] && more[b] == of[b]);
        assert(exists|i: int|
            0 <= i < more.len() && (#[trigger] more[i] matches Some(y) && y.0 == (x->Some_0).0)) by {
            if (x->Some_0).0 == (all->Some_0).0 {
                assert(more[a] matches Some(y) && y.0 == (x->Some_0).0);
            } else {
                assert(more[of.len() as int] matches Some(y) && y.0 == (x->Some_0).0);
            }
        }
        assert(exists|i: int|
            0 <= i < more.len() && (#[trigger] more[i] matches Some(y) && y.1 == (x->Some_0).1)) by {
            if (x->Some_0).1 == (all->Some_0).1 {
                assert(more[b] matches Some(y) && y.1 == (x->Some_0).1);
            } else {
                assert(more[of.len() as int] matches Some(y) && y.1 == (x->Some_0).1);
            }
        }
    }
    assert forall|i: int| 0 <= i < more.len() implies (#[trigger] more[i] matches Some(y)
        ==> x is Some && (x->Some_0).0 <= y.0 && y.1 <= (x->Some_0).1) by {
        if i < of.len() {
            assert(more[i] == of[i]);
        }
    }
}

/// A source's span is the least that covers its streams'.
pub proof fn law_a_source_spans_its_streams(s: Seq<StreamCatalogView>)
    ensures
        covers_exactly(
            read::streams_extent(s),
            s.map_values(|x: StreamCatalogView| x.extent()),
        ),
    decreases s.len(),
{
    let of = |x: StreamCatalogView| x.extent();
    if s.len() > 0 {
        law_a_source_spans_its_streams(s.drop_last());
        lemma_cover(
            read::streams_extent(s.drop_last()),
            s.drop_last().map_values(of),
            s.last().extent(),
        );
        assert(s.map_values(of) =~= s.drop_last().map_values(of).push(s.last().extent()));
    }
}

/// An archive's span is the least that covers its sources'.
pub proof fn law_an_archive_spans_its_sources(s: Seq<SourceCatalogView>)
    ensures
        covers_exactly(
            read::sources_extent(s),
            s.map_values(|x: SourceCatalogView| read::streams_extent(x.streams)),
        ),
    decreases s.len(),
{
    let of = |x: SourceCatalogView| read::streams_extent(x.streams);
    if s.len() > 0 {
        law_an_archive_spans_its_sources(s.drop_last());
        lemma_cover(
            read::sources_extent(s.drop_last()),
            s.drop_last().map_values(of),
            read::streams_extent(s.last().streams),
        );
        assert(s.map_values(of) =~= s.drop_last().map_values(of).push(
            read::streams_extent(s.last().streams),
        ));
    }
}

/// A stream's span runs from the earlier of its sealed and its live beginnings to the
/// later of their ends.
pub proof fn law_a_stream_spans_sealed_and_live(x: StreamCatalogView)
    requires
        x.sealed.first_ts is Some <==> x.sealed.last_ts is Some,
        x.live.first_ts is Some <==> x.live.last_ts is Some,
    ensures
        covers_exactly(
            x.extent(),
            seq![
                if x.sealed.first_ts is Some {
                    Some((x.sealed.first_ts->0, x.sealed.last_ts->0))
                } else {
                    None
                },
                if x.live.first_ts is Some {
                    Some((x.live.first_ts->0, x.live.last_ts->0))
                } else {
                    None
                },
            ],
        ),
{
    let a: Option<(i64, i64)> = if x.sealed.first_ts is Some {
        Some((x.sealed.first_ts->0, x.sealed.last_ts->0))
    } else {
        None
    };
    let b: Option<(i64, i64)> = if x.live.first_ts is Some {
        Some((x.live.first_ts->0, x.live.last_ts->0))
    } else {
        None
    };
    let none = Seq::<Option<(i64, i64)>>::empty();
    assert(covers_exactly(None, none));
    lemma_cover(None, none, a);
    lemma_cover(a, none.push(a), b);
    assert(none.push(a).push(b) =~= seq![a, b]);
    assert(x.extent() == read::cover(a, b));
}

/// What archives count is what their parts count, added up: a stream's rows are those
/// sealed and those live, a source's are its streams', and an archive's its sources'.
pub proof fn law_counts_add_up(
    a: Seq<StreamCatalogView>,
    x: StreamCatalogView,
    b: Seq<SourceCatalogView>,
    y: SourceCatalogView,
)
    ensures
        read::streams_rows(a.push(x)) == read::streams_rows(a) + x.sealed.rows + x.live.rows,
        read::streams_rows(Seq::empty()) == 0,
        read::streams_segments(a.push(x)) == read::streams_segments(a) + x.segments,
        read::streams_segments(Seq::empty()) == 0,
        read::sources_rows(b.push(y)) == read::sources_rows(b) + read::streams_rows(y.streams),
        read::sources_rows(Seq::empty()) == 0,
        read::sources_segments(b.push(y)) == read::sources_segments(b) + read::streams_segments(
            y.streams,
        ),
        read::sources_segments(Seq::empty()) == 0,
{
    assert(a.push(x).drop_last() =~= a);
    assert(b.push(y).drop_last() =~= b);
}

// ------------------------------------------------------------ sums

/// Sums over segments are of every segment: one segment's are its own, and two runs'
/// together are those of the one and those of the other.
pub proof fn law_sums_are_of_every_segment(a: Seq<SegmentView>, b: Seq<SegmentView>)
    ensures
        a.len() == 1 ==> model::sealed_rows(a) == a[0].meta.rows && model::sealed_bytes(a)
            == a[0].bytes.len(),
        model::sealed_rows(a + b) == model::sealed_rows(a) + model::sealed_rows(b),
        model::sealed_bytes(a + b) == model::sealed_bytes(a) + model::sealed_bytes(b),
    decreases b.len(),
{
    reveal_with_fuel(model::sealed_rows, 2);
    reveal_with_fuel(model::sealed_bytes, 2);
    if b.len() == 0 {
        assert(a + b =~= a);
    } else {
        law_sums_are_of_every_segment(a, b.drop_last());
        assert((a + b).drop_last() =~= a + b.drop_last());
    }
}

/// Whether what a stream holds can be summed.
pub open spec fn summable(d: DbView, source: i64, name: Seq<char>) -> bool {
    &&& model::sealed_rows(d.segments_of(source, name)) <= i64::MAX
    &&& model::sealed_bytes(d.segments_of(source, name)) <= i64::MAX
}

proof fn lemma_entries_go(d: DbView, source: i64, names: Seq<Seq<char>>)
    ensures
        read::stream_entries(d, source, names) is Ok <==> forall|i: int|
            0 <= i < names.len() ==> summable(d, source, #[trigger] names[i]),
    decreases names.len(),
{
    if names.len() > 0 {
        let head = names.drop_last();
        lemma_entries_go(d, source, head);
        assert(forall|i: int| 0 <= i < head.len() ==> #[trigger] head[i] == names[i]);
        assert(forall|i: int| 0 <= i < head.len() ==> head[i] == #[trigger] names[i]);
        if read::stream_entries(d, source, names) is Ok {
            assert forall|i: int| 0 <= i < names.len() implies summable(
                d,
                source,
                #[trigger] names[i],
            ) by {
                if i < head.len() {
                    assert(summable(d, source, head[i]));
                }
            }
        }
        if forall|i: int| 0 <= i < names.len() ==> summable(d, source, #[trigger] names[i]) {
            assert(summable(d, source, names[names.len() - 1]));
            assert forall|i: int| 0 <= i < head.len() implies summable(
                d,
                source,
                #[trigger] head[i],
            ) by {
                assert(summable(d, source, names[i]));
            }
        }
    }
}

/// Whether what every stream of a source holds can be summed.
pub open spec fn all_summable(d: DbView, source: i64) -> bool {
    forall|i: int|
        0 <= i < d.streams_of(source).len() ==> summable(
            d,
            source,
            #[trigger] d.streams_of(source)[i],
        )
}

/// A catalog is made of any sources, however many and with however many streams, exactly
/// where the rows and the bytes of each stream can be summed.
pub proof fn law_a_catalog_is_refused_only_by_a_sum(d: DbView, sources: Seq<SourceView>)
    ensures
        read::source_entries(d, sources) is Ok <==> forall|k: int|
            0 <= k < sources.len() ==> all_summable(d, (#[trigger] sources[k]).id),
    decreases sources.len(),
{
    if sources.len() > 0 {
        let head = sources.drop_last();
        let last = sources[sources.len() - 1];
        law_a_catalog_is_refused_only_by_a_sum(d, head);
        lemma_entries_go(d, last.id, d.streams_of(last.id));
        if read::source_entries(d, sources) is Ok {
            assert forall|k: int| 0 <= k < sources.len() implies all_summable(
                d,
                (#[trigger] sources[k]).id,
            ) by {
                if k < head.len() {
                    assert(all_summable(d, head[k].id));
                }
            }
        }
        if forall|k: int| 0 <= k < sources.len() ==> all_summable(d, (#[trigger] sources[k]).id) {
            assert(all_summable(d, sources[sources.len() - 1].id));
            assert forall|k: int| 0 <= k < head.len() implies all_summable(
                d,
                (#[trigger] head[k]).id,
            ) by {
                assert(all_summable(d, sources[k].id));
            }
        }
    }
}

} // verus!
