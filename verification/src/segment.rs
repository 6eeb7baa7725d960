//! Segments: what a stream's rows become when they are sealed, and the boundary
//! across which the archive does not know what a row means.

use vstd::prelude::*;
use vstd::string::*;

use crate::db::{WalRow, WalView};
use crate::error::{Error, ErrorView};
use crate::keys;
use crate::seqs;
use crate::text;
use crate::text::{append_number, append_signed, same_text};
use crate::text_map;
use crate::text_map::{Entry, TextMap};

pub use crate::rewrite::parquet_file::{encode_batch, writer_props};

verus! {

broadcast use crate::seqs::group_views;

/// One sealed segment: parquet bytes plus the catalog facts about what is in
/// them.
///
/// Every field describes the segment, not the rows it was given: an encoder is
/// free to drop a leading or a trailing run of rows it cannot encode, and the
/// container has to catalog what was written. It may not drop from the middle,
/// because the prune deletes everything up to `last_ts`.
#[derive(Debug, PartialEq, Eq)]
pub struct Segment {
    /// The segment itself: one parquet file.
    pub bytes: Vec<u8>,
    /// How many rows are in `bytes`.
    pub rows: u64,
    /// The timestamp of the first row in `bytes`.
    pub first_ts: i64,
    /// The timestamp of the last row in `bytes`.
    pub last_ts: i64,
    /// The caller's index over this segment's contents, which the archive
    /// never reads.
    pub index: Option<Vec<u8>>,
}

/// A sealed segment, as mathematics.
pub struct SealedView {
    pub bytes: Seq<u8>,
    pub rows: u64,
    pub first_ts: i64,
    pub last_ts: i64,
    pub index: Option<Seq<u8>>,
}

impl View for Segment {
    type V = SealedView;

    open spec fn view(&self) -> SealedView {
        SealedView {
            bytes: self.bytes@,
            rows: self.rows,
            first_ts: self.first_ts,
            last_ts: self.last_ts,
            index: seqs::opt_view(self.index),
        }
    }
}

/// What an encoder returns: a segment, nothing, or what went wrong.
pub type EncodeResult = Result<Option<Segment>, String>;

/// What an encoder gives, as mathematics.
pub type Encoding = Result<Option<SealedView>, Seq<char>>;

/// The view of what an encoder returned.
pub open spec fn encoding_view(r: EncodeResult) -> Encoding {
    match r {
        Ok(s) => Ok(seqs::opt_view(s)),
        Err(e) => Err(e@),
    }
}

/// Turns a stream's WAL rows into one parquet segment.
///
/// This is the schema boundary: what a row's bytes mean, and what columns they
/// become, is entirely the caller's. Both the writer and any independent
/// reader call it, so an implementation works from the stream and the rows
/// alone, and gives the same segment for the same rows.
pub trait SegmentEncoder {
    /// What this encoder makes of a stream's rows. One written outside Verus
    /// leaves it as it stands here, where nothing is known of it.
    open spec fn encoded(&self, stream: Seq<char>, rows: Seq<WalView>) -> Encoding {
        arbitrary()
    }

    /// The version this encoder reports.
    open spec fn reported(&self) -> Option<Seq<char>> {
        arbitrary()
    }

    /// Encode one stream's rows, in timestamp order, as one segment, or
    /// `Ok(None)` for no segment.
    fn encode(&self, stream: &str, rows: &[WalRow]) -> (r: EncodeResult)
        ensures
            encoding_view(r) == self.encoded(stream@, seqs::views(rows@)),
    ;

    /// A version for this encoding, or `None` to opt out. Only ever compared
    /// for equality.
    fn version(&self) -> (r: Option<&str>)
        ensures
            seqs::opt_view(r) == self.reported(),
    ;
}

/// A reference to an encoder is the encoder.
impl<T: SegmentEncoder> SegmentEncoder for &T {
    open spec fn encoded(&self, stream: Seq<char>, rows: Seq<WalView>) -> Encoding {
        (**self).encoded(stream, rows)
    }

    open spec fn reported(&self) -> Option<Seq<char>> {
        (**self).reported()
    }

    fn encode(&self, stream: &str, rows: &[WalRow]) -> (r: EncodeResult) {
        (**self).encode(stream, rows)
    }

    fn version(&self) -> (r: Option<&str>) {
        (**self).version()
    }
}

/// How many rows fall in `[first, last]`.
pub open spec fn covered(rows: Seq<WalView>, first: i64, last: i64) -> nat {
    rows.filter(|r: WalView| first <= r.ts <= last).len()
}

/// Whether a segment describes the rows it was given: it claims some, over a
/// span inside theirs, and exactly as many as that span holds.
pub open spec fn honest(s: SealedView, rows: Seq<WalView>) -> bool {
    &&& rows.len() > 0
    &&& s.rows != 0
    &&& s.first_ts <= s.last_ts
    &&& s.first_ts >= rows[0].ts
    &&& s.last_ts <= rows.last().ts
    &&& s.rows == covered(rows, s.first_ts, s.last_ts)
}

/// What a segment claimed against what the rows hold.
pub open spec fn contract_detail(s: SealedView, rows: Seq<WalView>) -> Seq<char> {
    "it claims "@ + text::decimal(s.rows as nat) + " row(s) over ["@ + text::signed_decimal(
        s.first_ts as int,
    ) + ", "@ + text::signed_decimal(s.last_ts as int) + "]; that span holds "@ + text::decimal(
        covered(rows, s.first_ts, s.last_ts),
    ) + " of the "@ + text::decimal(rows.len()) + " row(s) it was given over ["@
        + text::signed_decimal(rows[0].ts as int) + ", "@ + text::signed_decimal(
        rows.last().ts as int,
    ) + "]"@
}

/// What becomes of what an encoder gave for rows.
pub open spec fn validated(given: Encoding, stream: Seq<char>, rows: Seq<WalView>) -> Result<
    Option<SealedView>,
    ErrorView,
> {
    if rows.len() == 0 {
        Ok(None)
    } else {
        match given {
            Err(source) => Err(ErrorView::Encoder { stream, source }),
            Ok(None) => Ok(None),
            Ok(Some(s)) => if honest(s, rows) {
                Ok(Some(s))
            } else {
                Err(ErrorView::EncoderContract { stream, detail: contract_detail(s, rows) })
            },
        }
    }
}

/// What a stream's rows become under an encoder.
pub open spec fn materialized<E: SegmentEncoder>(
    encoder: E,
    stream: Seq<char>,
    rows: Seq<WalView>,
) -> Result<Option<SealedView>, ErrorView> {
    validated(encoder.encoded(stream, rows), stream, rows)
}

/// Whether an outcome is that of validating.
pub open spec fn sealed_as(
    r: Result<Option<Segment>, Error>,
    outcome: Result<Option<SealedView>, ErrorView>,
) -> bool {
    match outcome {
        Ok(s) => r matches Ok(x) && seqs::opt_view(x) == s,
        Err(e) => r matches Err(x) && x@ == e,
    }
}

/// Validate what an encoder gave for rows: the shared enforcement point for
/// everyone that builds a segment.
///
/// The check is contiguity, by counting: the rows handed over that fall inside
/// `[first_ts, last_ts]` must number exactly `rows`. A hole anywhere inside
/// the claimed span would be rows that end up in no segment and no WAL.
pub fn validate(given: EncodeResult, stream: &str, rows: &[WalRow]) -> (r: Result<
    Option<Segment>,
    Error,
>)
    ensures
        sealed_as(r, validated(encoding_view(given), stream@, seqs::views(rows@))),
{
    let ghost all = seqs::views(rows@);
    if rows.len() == 0 {
        return Ok(None);
    }
    let segment = match given {
        Err(source) => {
            return Err(Error::Encoder { stream: stream.to_owned(), source });
        },
        Ok(None) => {
            return Ok(None);
        },
        Ok(Some(s)) => s,
    };
    let first: i64 = rows[0].ts;
    let last: i64 = rows[rows.len() - 1].ts;
    let count = count_covered(rows, segment.first_ts, segment.last_ts);
    assert(all[0] == rows@[0]@);
    assert(all.last() == rows@[rows@.len() - 1]@);
    if segment.rows == 0 || segment.first_ts > segment.last_ts || segment.first_ts < first
        || segment.last_ts > last || segment.rows != count {
        return Err(contract_broken(&segment, stream, rows));
    }
    Ok(Some(segment))
}

/// The refusal of a segment that does not describe the rows it was given.
pub fn contract_broken(segment: &Segment, stream: &str, rows: &[WalRow]) -> (r: Error)
    requires
        rows@.len() > 0,
    ensures
        r@ == (ErrorView::EncoderContract {
            stream: stream@,
            detail: contract_detail(segment@, seqs::views(rows@)),
        }),
{
    let ghost all = seqs::views(rows@);
    let first: i64 = rows[0].ts;
    let last: i64 = rows[rows.len() - 1].ts;
    let count = count_covered(rows, segment.first_ts, segment.last_ts);
    assert(all[0] == rows@[0]@);
    assert(all.last() == rows@[rows@.len() - 1]@);
    let mut detail = String::from_str("it claims ");
    append_number(&mut detail, segment.rows);
    detail.append(" row(s) over [");
    append_signed(&mut detail, segment.first_ts);
    detail.append(", ");
    append_signed(&mut detail, segment.last_ts);
    detail.append("]; that span holds ");
    append_number(&mut detail, count);
    detail.append(" of the ");
    append_number(&mut detail, rows.len() as u64);
    detail.append(" row(s) it was given over [");
    append_signed(&mut detail, first);
    detail.append(", ");
    append_signed(&mut detail, last);
    detail.append("]");
    Error::EncoderContract { stream: stream.to_owned(), detail }
}

fn count_covered(rows: &[WalRow], first: i64, last: i64) -> (r: u64)
    ensures
        r == covered(seqs::views(rows@), first, last),
{
    let ghost all = seqs::views(rows@);
    let ghost keep = |r: WalView| first <= r.ts <= last;
    let mut n: u64 = 0;
    let mut i: usize = 0;
    proof {
        seqs::lemma_filter_full(all, keep);
    }
    while i < rows.len()
        invariant
            i <= rows@.len(),
            all == seqs::views(rows@),
            keep == |r: WalView| first <= r.ts <= last,
            n <= i,
            n == all.take(i as int).filter(keep).len(),
        decreases rows@.len() - i,
    {
        proof {
            seqs::lemma_filter_take(all, i as int, keep);
            assert(all[i as int] == rows@[i as int]@);
        }
        if rows[i].ts >= first && rows[i].ts <= last {
            n = n + 1;
        }
        i += 1;
    }
    n
}

/// Run an encoder over a run of WAL rows and validate the result. `Ok(None)`
/// for no rows, without calling the encoder at all.
pub fn materialize<E: SegmentEncoder>(encoder: &E, stream: &str, rows: &[WalRow]) -> (r: Result<
    Option<Segment>,
    Error,
>)
    ensures
        sealed_as(r, materialized(*encoder, stream@, seqs::views(rows@))),
{
    if rows.len() == 0 {
        return Ok(None);
    }
    validate(encoder.encode(stream, rows), stream, rows)
}

/// The refusal of a source whose rows another encoder version wrote. Either
/// side reporting nothing is no mismatch.
pub open spec fn encoder_refusal(
    source_id: i64,
    metadata: Seq<Entry>,
    reading: Option<Seq<char>>,
) -> Option<ErrorView> {
    match (text_map::lookup(metadata, keys::ENCODER@), reading) {
        (Some(wrote), Some(reading)) => if wrote != reading {
            Some(ErrorView::EncoderMismatch { source_id, wrote, reading })
        } else {
            None
        },
        _ => None,
    }
}

/// Refuse a source written by a different encoder version than `encoder`
/// reports. Either side reporting nothing is not a mismatch.
pub fn check_encoder<E: SegmentEncoder>(source_id: i64, metadata: &TextMap, encoder: &E) -> (r:
    Result<(), Error>)
    ensures
        match encoder_refusal(source_id, metadata@, encoder.reported()) {
            None => r is Ok,
            Some(e) => r matches Err(x) && x@ == e,
        },
{
    match (metadata.get(keys::ENCODER), encoder.version()) {
        (Some(wrote), Some(reading)) => {
            if !same_text(wrote.as_str(), reading) {
                return Err(
                    Error::EncoderMismatch {
                        source_id,
                        wrote: wrote.clone(),
                        reading: reading.to_owned(),
                    },
                );
            }
            Ok(())
        },
        _ => Ok(()),
    }
}

// ------------------------------------------------------------ laws

/// A validated segment leaves no hole: every row it was given is before its
/// span, inside it and counted, or after it; the rows after it are those past
/// its newest timestamp.
pub proof fn law_a_segment_has_no_hole(s: SealedView, rows: Seq<WalView>)
    requires
        honest(s, rows),
    ensures
        rows.len() == rows.filter(|r: WalView| r.ts < s.first_ts).len() + s.rows + rows.filter(
            |r: WalView| r.ts > s.last_ts,
        ).len(),
{
    lemma_three_ways(rows, s.first_ts, s.last_ts);
}

proof fn lemma_three_ways(rows: Seq<WalView>, first: i64, last: i64)
    requires
        first <= last,
    ensures
        rows.len() == rows.filter(|r: WalView| r.ts < first).len() + covered(rows, first, last)
            + rows.filter(|r: WalView| r.ts > last).len(),
    decreases rows.len(),
{
    reveal(Seq::filter);
    if rows.len() > 0 {
        lemma_three_ways(rows.drop_last(), first, last);
    }
}

/// An encoder that reports no version is never refused, and neither is a source
/// that records none.
pub proof fn law_unversioned_is_unchecked(source_id: i64, metadata: Seq<Entry>, version: Seq<char>)
    ensures
        encoder_refusal(source_id, metadata, None) is None,
        text_map::lookup(metadata, keys::ENCODER@) is None ==> encoder_refusal(
            source_id,
            metadata,
            Some(version),
        ) is None,
        text_map::lookup(metadata, keys::ENCODER@) == Some(version) ==> encoder_refusal(
            source_id,
            metadata,
            Some(version),
        ) is None,
{
}

proof fn lemma_none_covered(rows: Seq<WalView>, first: i64, last: i64)
    requires
        forall|i: int|
            0 <= i < rows.len() ==> (#[trigger] rows[i]).ts < first || rows[i].ts > last,
    ensures
        rows.filter(|r: WalView| first <= r.ts <= last).len() == 0,
    decreases rows.len(),
{
    reveal(Seq::filter);
    if rows.len() > 0 {
        let head = rows.drop_last();
        assert forall|i: int| 0 <= i < head.len() implies (#[trigger] head[i]).ts < first
            || head[i].ts > last by {
            assert(head[i] == rows[i]);
        }
        lemma_none_covered(head, first, last);
        assert(rows[rows.len() - 1].ts < first || rows[rows.len() - 1].ts > last);
    }
}

/// An encoder may make its segment of any rows that follow each other, all of them or
/// some: a segment that claims as many rows as those are, from the first of them to the
/// last, is taken as it is.
pub proof fn law_a_segment_may_hold_any_run_of_rows(
    s: SealedView,
    stream: Seq<char>,
    rows: Seq<WalView>,
    a: int,
    b: int,
)
    requires
        forall|i: int, j: int|
            0 <= i < j < rows.len() ==> (#[trigger] rows[i]).ts < (#[trigger] rows[j]).ts,
        0 <= a <= b < rows.len(),
        s.rows == b - a + 1,
        s.first_ts == rows[a].ts,
        s.last_ts == rows[b].ts,
    ensures
        validated(Ok(Some(s)), stream, rows) == Ok::<Option<SealedView>, ErrorView>(Some(s)),
{
    let inside = |r: WalView| s.first_ts <= r.ts <= s.last_ts;
    let head = rows.take(a);
    let run = rows.subrange(a, b + 1);
    let tail = rows.skip(b + 1);
    assert(rows =~= head + run + tail);
    assert forall|i: int| 0 <= i < head.len() implies (#[trigger] head[i]).ts < s.first_ts by {
        assert(rows[i].ts < rows[a].ts);
    }
    assert forall|i: int| 0 <= i < tail.len() implies (#[trigger] tail[i]).ts > s.last_ts by {
        assert(rows[b].ts < rows[b + 1 + i].ts);
    }
    assert forall|i: int| 0 <= i < run.len() implies inside(#[trigger] run[i]) by {
        assert(run[i] == rows[a + i]);
        if i > 0 {
            assert(rows[a].ts < rows[a + i].ts);
        }
        if a + i < b {
            assert(rows[a + i].ts < rows[b].ts);
        }
    }
    lemma_none_covered(head, s.first_ts, s.last_ts);
    lemma_none_covered(tail, s.first_ts, s.last_ts);
    seqs::lemma_filter_all(run, inside);
    seqs::lemma_filter_concat(head + run, tail, inside);
    seqs::lemma_filter_concat(head, run, inside);
    assert(covered(rows, s.first_ts, s.last_ts) == rows.filter(inside).len());
    if a > 0 {
        assert(rows[0].ts < rows[a].ts);
    }
    if b < rows.len() - 1 {
        assert(rows[b].ts < rows[rows.len() - 1].ts);
    }
    if a < b {
        assert(rows[a].ts < rows[b].ts);
    }
}

/// A segment that is taken is the one that was made, and describes the rows it was made
/// of: it has some, its span is inside theirs, and it claims exactly as many rows as fall
/// in that span.
pub proof fn law_a_taken_segment_describes_its_rows(
    given: Encoding,
    stream: Seq<char>,
    rows: Seq<WalView>,
    s: SealedView,
)
    requires
        validated(given, stream, rows) == Ok::<Option<SealedView>, ErrorView>(Some(s)),
    ensures
        given == Ok::<Option<SealedView>, Seq<char>>(Some(s)),
        rows.len() > 0,
        s.rows > 0,
        rows[0].ts <= s.first_ts <= s.last_ts <= rows[rows.len() - 1].ts,
        s.rows == rows.filter(|r: WalView| s.first_ts <= r.ts <= s.last_ts).len(),
{
}

/// What an encoder fails at is said with its stream, and an encoder that has nothing to
/// make is not at fault; neither is asked for where there are no rows.
pub proof fn law_an_encoders_outcome_is_passed_on(
    given: Encoding,
    stream: Seq<char>,
    rows: Seq<WalView>,
)
    ensures
        rows.len() == 0 ==> validated(given, stream, rows) == Ok::<
            Option<SealedView>,
            ErrorView,
        >(None),
        rows.len() > 0 && given == Ok::<Option<SealedView>, Seq<char>>(None) ==> validated(
            given,
            stream,
            rows,
        ) == Ok::<Option<SealedView>, ErrorView>(None),
        rows.len() > 0 && given is Err ==> validated(given, stream, rows) == Err::<
            Option<SealedView>,
            ErrorView,
        >(ErrorView::Encoder { stream, source: given->Err_0 }),
{
}

} // verus!
