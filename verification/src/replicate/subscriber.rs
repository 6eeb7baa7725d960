//! Applying frames to an archive: what each frame has the archive's writer do,
//! and what is remembered between frames.

use vstd::prelude::*;
use vstd::string::*;

use super::frame::{Frame, FrameView, IndexKind, NO_INDEX_STATE};
use crate::db::{CallerRow, CallerView, SegmentMeta, SourceMeta, SourceMetaView, WalRow, WalView};
use crate::error::{Error, ErrorView};
use crate::seqs;
use crate::text;
use crate::text::append_number;

verus! {

broadcast use crate::seqs::group_views;

// ------------------------------------------------------------ counts

/// What applying frames did, so that a caller can tell "nothing arrived" from
/// "everything was dropped".
#[derive(Clone, Copy, Debug, PartialEq, Eq, Structural)]
pub struct Applied {
    /// WAL rows written.
    pub rows: usize,
    /// Rows not written, because their identity could not be resolved.
    pub rows_skipped: usize,
    /// Segments inserted.
    pub segments: usize,
    /// Segments not inserted, because what is sealed already covers them.
    pub segments_held: usize,
    /// Index entries written to the caller store.
    pub index_entries: usize,
    /// Clock-drift observations recorded.
    pub clock_offsets: usize,
    /// Stream summaries set.
    pub stream_summaries: usize,
    /// Sources opened.
    pub sources: usize,
    /// Whether a sequence number was skipped: a frame of rows was lost.
    pub gap: bool,
}

/// Nothing applied.
pub open spec fn nothing() -> Applied {
    Applied {
        rows: 0,
        rows_skipped: 0,
        segments: 0,
        segments_held: 0,
        index_entries: 0,
        clock_offsets: 0,
        stream_summaries: 0,
        sources: 0,
        gap: false,
    }
}

/// Two counts together, as far as they go.
pub open spec fn counted(a: usize, b: usize) -> usize {
    if a + b <= usize::MAX {
        (a + b) as usize
    } else {
        usize::MAX
    }
}

/// What two came to, together.
pub open spec fn both(a: Applied, b: Applied) -> Applied {
    Applied {
        rows: counted(a.rows, b.rows),
        rows_skipped: counted(a.rows_skipped, b.rows_skipped),
        segments: counted(a.segments, b.segments),
        segments_held: counted(a.segments_held, b.segments_held),
        index_entries: counted(a.index_entries, b.index_entries),
        clock_offsets: counted(a.clock_offsets, b.clock_offsets),
        stream_summaries: counted(a.stream_summaries, b.stream_summaries),
        sources: counted(a.sources, b.sources),
        gap: a.gap || b.gap,
    }
}

fn count(a: usize, b: usize) -> (r: usize)
    ensures
        r == counted(a, b),
{
    match a.checked_add(b) {
        Some(n) => n,
        None => usize::MAX,
    }
}

impl Default for Applied {
    fn default() -> (r: Applied)
        ensures
            r == nothing(),
    {
        Applied {
            rows: 0,
            rows_skipped: 0,
            segments: 0,
            segments_held: 0,
            index_entries: 0,
            clock_offsets: 0,
            stream_summaries: 0,
            sources: 0,
            gap: false,
        }
    }
}

impl Applied {
    /// Count what one more frame did.
    pub fn count(&mut self, one: Applied)
        ensures
            *final(self) == both(*old(self), one),
    {
        self.rows = count(self.rows, one.rows);
        self.rows_skipped = count(self.rows_skipped, one.rows_skipped);
        self.segments = count(self.segments, one.segments);
        self.segments_held = count(self.segments_held, one.segments_held);
        self.index_entries = count(self.index_entries, one.index_entries);
        self.clock_offsets = count(self.clock_offsets, one.clock_offsets);
        self.stream_summaries = count(self.stream_summaries, one.stream_summaries);
        self.sources = count(self.sources, one.sources);
        self.gap = self.gap || one.gap;
    }
}

// ------------------------------------------------------------ what is remembered

/// One source of the connection, and what the subscriber has to remember about
/// it between frames.
#[derive(Clone, Copy, Debug)]
pub struct SourceState {
    /// The source's row in the archive that is written.
    pub source_id: i64,
    /// The state that the newest index entry applied declared.
    pub index_state: (u64, u64),
    /// Whether the whole set has arrived. Before it, rows have no identity to be
    /// attributed to.
    pub seen_full: bool,
    /// The sequence number of the last frame of rows.
    pub last_seq: Option<u64>,
    /// Whether the publisher said its source was cleanly finalized.
    pub complete: bool,
    /// The newest clock observation seen.
    pub last_offset: Option<(i64, i64)>,
}

/// The sources of a connection, by ordinal.
pub type States = Seq<(u32, SourceState)>;

/// A source that has just been opened.
pub open spec fn opened_state(source_id: i64, complete: bool) -> SourceState {
    SourceState {
        source_id,
        index_state: NO_INDEX_STATE,
        seen_full: false,
        last_seq: None,
        complete,
        last_offset: None,
    }
}

/// What is remembered of an ordinal's source.
pub open spec fn state_of(s: States, ordinal: u32) -> Option<SourceState>
    decreases s.len(),
{
    if s.len() == 0 {
        None
    } else if s[0].0 == ordinal {
        Some(s[0].1)
    } else {
        state_of(s.skip(1), ordinal)
    }
}

/// The sources once an ordinal stands for one: in its place where it stood for
/// another, and otherwise in order.
pub open spec fn with_state(s: States, ordinal: u32, st: SourceState) -> States
    decreases s.len(),
{
    if s.len() == 0 || ordinal < s[0].0 {
        seq![(ordinal, st)] + s
    } else if s[0].0 == ordinal {
        seq![(ordinal, st)] + s.skip(1)
    } else {
        seq![s[0]] + with_state(s.skip(1), ordinal, st)
    }
}

/// In order of ordinals, each once.
pub open spec fn in_ordinal_order(s: States) -> bool {
    forall|i: int, j: int| 0 <= i < j < s.len() ==> (#[trigger] s[i]).0 < (#[trigger] s[j]).0
}

/// What is said of a frame for a source that no handshake has introduced.
pub open spec fn unknown_text(ordinal: u32) -> Seq<char> {
    "replication frame for source "@ + text::decimal(ordinal as nat)
        + ", which no handshake has introduced; every frame names a source by the ordinal its handshake assigned"@
}

// ------------------------------------------------------------ steps

/// What the archive's writer is to do about a frame.
#[derive(Debug)]
pub enum Step {
    /// Open a source, and say so to [`Subscriber::opened`].
    Open {
        /// The ordinal it goes under.
        ordinal: u32,
        /// Everything known of it.
        seed: SourceMeta,
        /// Its identity across files.
        uuid: Option<String>,
        /// Whether the publisher's was cleanly finalized.
        complete: bool,
    },
    /// Keep an index entry in the caller store, and say so to
    /// [`Subscriber::indexed`].
    Keep {
        /// The source's ordinal.
        ordinal: u32,
        /// The source.
        source_id: i64,
        /// The caller store's stream name.
        stream: String,
        /// The entry.
        row: CallerRow,
        /// Whole set or change to it.
        kind: IndexKind,
        /// The state it declares.
        state: (u64, u64),
    },
    /// Write rows.
    Write {
        /// The source.
        source_id: i64,
        /// The rows.
        rows: Vec<WalRow>,
        /// What writing them comes to.
        applied: Applied,
    },
    /// Adopt a segment, and say to [`Subscriber::adopted`] whether it was
    /// inserted.
    Adopt {
        /// The source.
        source_id: i64,
        /// The stream it belongs to.
        stream: String,
        /// The catalog facts about it.
        meta: SegmentMeta,
        /// The segment itself.
        bytes: Vec<u8>,
        /// The caller's index over it.
        caller_index: Option<Vec<u8>>,
    },
    /// Record a clock observation, and say so to [`Subscriber::observed`].
    Observe {
        /// The source's ordinal.
        ordinal: u32,
        /// The source.
        source_id: i64,
        /// Its timestamp.
        ts: i64,
        /// Wall time minus it.
        offset_ns: i64,
    },
    /// Set a stream's summary.
    Summarize {
        /// The source.
        source_id: i64,
        /// The stream.
        stream: String,
        /// The timestamp it holds up to.
        as_of_ts: i64,
        /// The summary.
        blob: Vec<u8>,
        /// What setting it comes to.
        applied: Applied,
    },
    /// Nothing, and what that comes to.
    Nothing(Applied),
}

/// What the archive's writer is to do about a frame, as mathematics.
pub enum StepView {
    Open { ordinal: u32, seed: SourceMetaView, uuid: Option<Seq<char>>, complete: bool },
    Keep {
        ordinal: u32,
        source_id: i64,
        stream: Seq<char>,
        row: CallerView,
        kind: IndexKind,
        state: (u64, u64),
    },
    Write { source_id: i64, rows: Seq<WalView>, applied: Applied },
    Adopt {
        source_id: i64,
        stream: Seq<char>,
        meta: SegmentMeta,
        bytes: Seq<u8>,
        caller_index: Option<Seq<u8>>,
    },
    Observe { ordinal: u32, source_id: i64, ts: i64, offset_ns: i64 },
    Summarize {
        source_id: i64,
        stream: Seq<char>,
        as_of_ts: i64,
        blob: Seq<u8>,
        applied: Applied,
    },
    Nothing(Applied),
}

impl View for Step {
    type V = StepView;

    open spec fn view(&self) -> StepView {
        match *self {
            Step::Open { ordinal, seed, uuid, complete } => StepView::Open {
                ordinal,
                seed: seed@,
                uuid: seqs::opt_view(uuid),
                complete,
            },
            Step::Keep { ordinal, source_id, stream, row, kind, state } => StepView::Keep {
                ordinal,
                source_id,
                stream: stream@,
                row: row@,
                kind,
                state,
            },
            Step::Write { source_id, rows, applied } => StepView::Write {
                source_id,
                rows: seqs::views(rows@),
                applied,
            },
            Step::Adopt { source_id, stream, meta, bytes, caller_index } => StepView::Adopt {
                source_id,
                stream: stream@,
                meta,
                bytes: bytes@,
                caller_index: seqs::opt_view(caller_index),
            },
            Step::Observe { ordinal, source_id, ts, offset_ns } => StepView::Observe {
                ordinal,
                source_id,
                ts,
                offset_ns,
            },
            Step::Summarize { source_id, stream, as_of_ts, blob, applied } => StepView::Summarize {
                source_id,
                stream: stream@,
                as_of_ts,
                blob: blob@,
                applied,
            },
            Step::Nothing(a) => StepView::Nothing(a),
        }
    }
}

/// Whether a sequence number skips one.
pub open spec fn skips(last: Option<u64>, seq: u64) -> bool {
    match last {
        Some(l) => seq > l + 1,
        None => false,
    }
}

/// Whether rows built against an index state can be attributed: the state is
/// the one held, and it is of no index or the whole set has arrived. A row that
/// cannot be is not written: attributing it wrongly is worse than not having it.
pub open spec fn resolvable(st: SourceState, state: (u64, u64)) -> bool {
    state == st.index_state && (state == NO_INDEX_STATE || st.seen_full)
}

/// What a frame leads to: what is remembered at once, and the step or the
/// refusal.
pub open spec fn planned(s: States, f: FrameView) -> (States, Result<StepView, ErrorView>) {
    let known = state_of(s, f.ordinal());
    match f {
        FrameView::Handshake {
            source,
            uuid,
            labels,
            metadata,
            clock_anchor_wall_ns,
            complete,
        } => (
            s,
            Ok(
                StepView::Open {
                    ordinal: source,
                    seed: SourceMetaView { labels, metadata, clock_anchor_wall_ns },
                    uuid,
                    complete,
                },
            ),
        ),
        _ => match known {
            None => (s, Err(ErrorView::Message(unknown_text(f.ordinal())))),
            Some(st) => planned_known(s, st, f),
        },
    }
}

/// What a frame for a known source leads to.
pub open spec fn planned_known(s: States, st: SourceState, f: FrameView) -> (
    States,
    Result<StepView, ErrorView>,
) {
    match f {
        FrameView::Handshake { source, .. } => (s, Ok(StepView::Nothing(nothing()))),
        FrameView::Index { source, stream, ts, kind, state, blob } => (
            s,
            Ok(
                StepView::Keep {
                    ordinal: source,
                    source_id: st.source_id,
                    stream,
                    row: CallerView { ts, blob },
                    kind,
                    state,
                },
            ),
        ),
        FrameView::Rows { source, seq, index_state, rows } => {
            let gap = skips(st.last_seq, seq);
            let n = rows.len() as usize;
            (
                with_state(s, source, SourceState { last_seq: Some(seq), ..st }),
                Ok(
                    if !resolvable(st, index_state) {
                        StepView::Nothing(Applied { rows_skipped: n, gap, ..nothing() })
                    } else if rows.len() == 0 {
                        StepView::Nothing(Applied { gap, ..nothing() })
                    } else {
                        StepView::Write {
                            source_id: st.source_id,
                            rows,
                            applied: Applied { rows: n, gap, ..nothing() },
                        }
                    },
                ),
            )
        },
        FrameView::Segment { source, stream, meta, bytes, caller_index } => (
            s,
            Ok(
                StepView::Adopt {
                    source_id: st.source_id,
                    stream,
                    meta,
                    bytes,
                    caller_index,
                },
            ),
        ),
        FrameView::ClockOffset { source, ts, offset_ns } => (
            s,
            Ok(
                StepView::Observe {
                    ordinal: source,
                    source_id: st.source_id,
                    ts,
                    offset_ns,
                },
            ),
        ),
        FrameView::StreamSummary { source, stream, as_of_ts, blob } => (
            s,
            Ok(
                StepView::Summarize {
                    source_id: st.source_id,
                    stream,
                    as_of_ts,
                    blob,
                    applied: Applied { stream_summaries: 1, ..nothing() },
                },
            ),
        ),
    }
}

/// What is remembered once an index entry has been kept: the state it declares
/// stands, since it is of the complete set after the entry.
pub open spec fn after_entry(s: States, ordinal: u32, kind: IndexKind, state: (u64, u64)) -> States {
    match state_of(s, ordinal) {
        None => s,
        Some(st) => with_state(
            s,
            ordinal,
            SourceState { index_state: state, seen_full: st.seen_full || kind == IndexKind::Full, ..st },
        ),
    }
}

/// What is remembered once a clock observation has been recorded.
pub open spec fn after_offset(s: States, ordinal: u32, ts: i64, offset_ns: i64) -> States {
    match state_of(s, ordinal) {
        None => s,
        Some(st) => with_state(
            s,
            ordinal,
            SourceState { last_offset: Some((ts, offset_ns)), ..st },
        ),
    }
}

/// The sources to finalize at the end, each with the clock observation to end
/// at: those whose publisher's was finalized.
pub open spec fn finishing(s: States) -> Seq<(i64, (i64, i64))>
    decreases s.len(),
{
    if s.len() == 0 {
        Seq::empty()
    } else {
        let head = finishing(s.drop_last());
        let st = s.last().1;
        if st.complete {
            head.push(
                (
                    st.source_id,
                    match st.last_offset {
                        Some(o) => o,
                        None => (0, 0),
                    },
                ),
            )
        } else {
            head
        }
    }
}

/// Decides what replication frames do to an archive.
///
/// It does not seal: rows land in the WAL, and the caller decides when a stream
/// has accumulated enough. It applies what it is handed: what decides whether a
/// publisher is entitled to a source is the transport.
pub struct Subscriber {
    sources: Vec<(u32, SourceState)>,
}

impl View for Subscriber {
    type V = States;

    closed spec fn view(&self) -> States {
        self.sources@
    }
}

impl Subscriber {
    #[verifier::type_invariant]
    closed spec fn ordered(self) -> bool {
        in_ordinal_order(self.sources@)
    }

    /// No source introduced yet.
    pub fn new() -> (r: Subscriber)
        ensures
            r@ == Seq::<(u32, SourceState)>::empty(),
    {
        Subscriber { sources: Vec::new() }
    }

    fn source(&self, ordinal: u32) -> (r: Option<SourceState>)
        ensures
            r == state_of(self@, ordinal),
    {
        let mut i: usize = 0;
        proof {
            assert(self@.skip(0) =~= self@);
        }
        while i < self.sources.len()
            invariant
                i <= self.sources@.len(),
                state_of(self@, ordinal) == state_of(self@.skip(i as int), ordinal),
            decreases self.sources@.len() - i,
        {
            proof {
                assert(self@.skip(i as int)[0] == self.sources@[i as int]);
                assert(self@.skip(i as int).skip(1) =~= self@.skip(i + 1));
            }
            if self.sources[i].0 == ordinal {
                return Some(self.sources[i].1);
            }
            i += 1;
        }
        None
    }

    fn remember(&mut self, ordinal: u32, st: SourceState)
        ensures
            final(self)@ == with_state(old(self)@, ordinal, st),
    {
        proof {
            use_type_invariant(&*self);
        }
        let mut sources: Vec<(u32, SourceState)> = Vec::new();
        std::mem::swap(&mut sources, &mut self.sources);
        let ghost was = sources@;
        let mut i: usize = 0;
        while i < sources.len() && sources[i].0 < ordinal
            invariant
                i <= sources@.len(),
                sources@ == was,
                was == old(self)@,
                in_ordinal_order(was),
                self.sources@.len() == 0,
                forall|k: int| 0 <= k < i ==> (#[trigger] was[k]).0 < ordinal,
            decreases sources@.len() - i,
        {
            i += 1;
        }
        proof {
            lemma_with_state(was, ordinal, st, i as int);
            lemma_with_state_ordered(was, ordinal, st, i as int);
        }
        if i < sources.len() && sources[i].0 == ordinal {
            sources.set(i, (ordinal, st));
        } else {
            sources.insert(i, (ordinal, st));
        }
        proof {
            assert(sources@ =~= with_state(was, ordinal, st));
        }
        self.sources = sources;
    }

    /// Take in a frame: what the archive's writer is to do about it.
    ///
    /// Refused where no handshake has introduced its source. Rows whose index
    /// state is not the one held, or that name an index before the whole set
    /// has arrived, are skipped.
    pub fn apply(&mut self, frame: Frame) -> (r: Result<Step, Error>)
        ensures
            final(self)@ == planned(old(self)@, frame@).0,
            match planned(old(self)@, frame@).1 {
                Ok(step) => r matches Ok(x) && x@ == step,
                Err(e) => r matches Err(x) && x@ == e,
            },
    {
        let ordinal: u32 = frame.source();
        match frame {
            Frame::Handshake {
                source,
                uuid,
                labels,
                metadata,
                clock_anchor_wall_ns,
                complete,
            } => Ok(
                Step::Open {
                    ordinal: source,
                    seed: SourceMeta { labels, metadata, clock_anchor_wall_ns },
                    uuid,
                    complete,
                },
            ),
            other => {
                let st = match self.source(ordinal) {
                    None => {
                        let mut s = String::from_str("replication frame for source ");
                        append_number(&mut s, ordinal as u64);
                        s.append(
                            ", which no handshake has introduced; every frame names a source by the ordinal its handshake assigned",
                        );
                        return Err(Error::Message(s));
                    },
                    Some(st) => st,
                };
                self.apply_known(st, other)
            },
        }
    }

    fn apply_known(&mut self, st: SourceState, frame: Frame) -> (r: Result<Step, Error>)
        requires
            frame !is Handshake,
        ensures
            final(self)@ == planned_known(old(self)@, st, frame@).0,
            match planned_known(old(self)@, st, frame@).1 {
                Ok(step) => r matches Ok(x) && x@ == step,
                Err(e) => r matches Err(x) && x@ == e,
            },
    {
        match frame {
            Frame::Handshake { .. } => Ok(Step::Nothing(Applied::default())),
            Frame::Index { source, stream, ts, kind, state, blob } => Ok(
                Step::Keep {
                    ordinal: source,
                    source_id: st.source_id,
                    stream,
                    row: CallerRow { ts, blob },
                    kind,
                    state,
                },
            ),
            Frame::Rows { source, seq, index_state, rows } => {
                let gap: bool = match st.last_seq {
                    Some(last) => last < u64::MAX && seq > last + 1,
                    None => false,
                };
                self.remember(source, SourceState { last_seq: Some(seq), ..st });
                let held: bool = index_state.0 == st.index_state.0 && index_state.1
                    == st.index_state.1;
                let none: bool = index_state.0 == NO_INDEX_STATE.0 && index_state.1
                    == NO_INDEX_STATE.1;
                let n: usize = rows.len();
                if !held || (!none && !st.seen_full) {
                    return Ok(
                        Step::Nothing(Applied { rows_skipped: n, gap, ..Applied::default() }),
                    );
                }
                if n == 0 {
                    return Ok(Step::Nothing(Applied { gap, ..Applied::default() }));
                }
                Ok(
                    Step::Write {
                        source_id: st.source_id,
                        rows,
                        applied: Applied { rows: n, gap, ..Applied::default() },
                    },
                )
            },
            Frame::Segment { source, stream, meta, bytes, caller_index } => Ok(
                Step::Adopt { source_id: st.source_id, stream, meta, bytes, caller_index },
            ),
            Frame::ClockOffset { source, ts, offset_ns } => Ok(
                Step::Observe { ordinal: source, source_id: st.source_id, ts, offset_ns },
            ),
            Frame::StreamSummary { source, stream, as_of_ts, blob } => Ok(
                Step::Summarize {
                    source_id: st.source_id,
                    stream,
                    as_of_ts,
                    blob,
                    applied: Applied { stream_summaries: 1, ..Applied::default() },
                },
            ),
        }
    }

    /// A source has been opened under an ordinal. It starts with no index
    /// applied, which is also what a publisher with no index sends forever.
    pub fn opened(&mut self, ordinal: u32, source_id: i64, complete: bool) -> (r: Applied)
        ensures
            final(self)@ == with_state(old(self)@, ordinal, opened_state(source_id, complete)),
            r == (Applied { sources: 1, ..nothing() }),
    {
        self.remember(
            ordinal,
            SourceState {
                source_id,
                index_state: NO_INDEX_STATE,
                seen_full: false,
                last_seq: None,
                complete,
                last_offset: None,
            },
        );
        Applied { sources: 1, ..Applied::default() }
    }

    /// An index entry has been kept.
    pub fn indexed(&mut self, ordinal: u32, kind: IndexKind, state: (u64, u64)) -> (r: Applied)
        ensures
            final(self)@ == after_entry(old(self)@, ordinal, kind, state),
            r == (Applied { index_entries: 1, ..nothing() }),
    {
        match self.source(ordinal) {
            None => {},
            Some(st) => {
                let full: bool = match kind {
                    IndexKind::Full => true,
                    IndexKind::Delta => false,
                };
                self.remember(
                    ordinal,
                    SourceState { index_state: state, seen_full: st.seen_full || full, ..st },
                );
            },
        }
        Applied { index_entries: 1, ..Applied::default() }
    }

    /// A segment has been offered to the archive, and was inserted or was
    /// covered already.
    pub fn adopted(&self, inserted: bool) -> (r: Applied)
        ensures
            r == (if inserted {
                Applied { segments: 1, ..nothing() }
            } else {
                Applied { segments_held: 1, ..nothing() }
            }),
    {
        if inserted {
            Applied { segments: 1, ..Applied::default() }
        } else {
            Applied { segments_held: 1, ..Applied::default() }
        }
    }

    /// A clock observation has been recorded.
    pub fn observed(&mut self, ordinal: u32, ts: i64, offset_ns: i64) -> (r: Applied)
        ensures
            final(self)@ == after_offset(old(self)@, ordinal, ts, offset_ns),
            r == (Applied { clock_offsets: 1, ..nothing() }),
    {
        match self.source(ordinal) {
            None => {},
            Some(st) => {
                self.remember(
                    ordinal,
                    SourceState { last_offset: Some((ts, offset_ns)), ..st },
                );
            },
        }
        Applied { clock_offsets: 1, ..Applied::default() }
    }

    /// The row of an ordinal's source in the archive that is written, for a
    /// caller that seals its streams.
    pub fn source_id(&self, ordinal: u32) -> (r: Result<i64, Error>)
        ensures
            match state_of(self@, ordinal) {
                Some(st) => r == Ok::<i64, Error>(st.source_id),
                None => r matches Err(e) && e@ == ErrorView::Message(unknown_text(ordinal)),
            },
    {
        match self.source(ordinal) {
            Some(st) => Ok(st.source_id),
            None => {
                let mut s = String::from_str("replication frame for source ");
                append_number(&mut s, ordinal as u64);
                s.append(
                    ", which no handshake has introduced; every frame names a source by the ordinal its handshake assigned",
                );
                Err(Error::Message(s))
            },
        }
    }

    /// The sources to finalize, each with the clock observation its series is to
    /// end at: those whose publisher's was complete. The others stay incomplete,
    /// which is the truthful answer for a live tail.
    pub fn finish(self) -> (r: Vec<(i64, (i64, i64))>)
        ensures
            r@ == finishing(self@),
    {
        let mut out: Vec<(i64, (i64, i64))> = Vec::new();
        let mut i: usize = 0;
        while i < self.sources.len()
            invariant
                i <= self.sources@.len(),
                out@ == finishing(self@.take(i as int)),
            decreases self.sources@.len() - i,
        {
            proof {
                assert(self@.take(i + 1).drop_last() =~= self@.take(i as int));
                assert(self@.take(i + 1).last() == self.sources@[i as int]);
            }
            let st = self.sources[i].1;
            if st.complete {
                let last: (i64, i64) = match st.last_offset {
                    Some(o) => o,
                    None => (0, 0),
                };
                out.push((st.source_id, last));
            }
            i += 1;
        }
        proof {
            assert(self@.take(i as int) =~= self@);
        }
        out
    }
}

proof fn lemma_with_state(s: States, ordinal: u32, st: SourceState, n: int)
    requires
        0 <= n <= s.len(),
        forall|k: int| 0 <= k < n ==> (#[trigger] s[k]).0 < ordinal,
        n < s.len() ==> s[n].0 >= ordinal,
    ensures
        with_state(s, ordinal, st) == if n < s.len() && s[n].0 == ordinal {
            s.update(n, (ordinal, st))
        } else {
            s.insert(n, (ordinal, st))
        },
    decreases n,
{
    if n == 0 {
        if s.len() > 0 && s[0].0 == ordinal {
            assert(seq![(ordinal, st)] + s.skip(1) =~= s.update(0, (ordinal, st)));
        } else {
            assert(seq![(ordinal, st)] + s =~= s.insert(0, (ordinal, st)));
        }
    } else {
        let t = s.skip(1);
        assert(s[0].0 < ordinal);
        assert forall|k: int| 0 <= k < n - 1 implies (#[trigger] t[k]).0 < ordinal by {
            assert(s[k + 1].0 < ordinal);
        }
        lemma_with_state(t, ordinal, st, n - 1);
        if n < s.len() && s[n].0 == ordinal {
            assert(seq![s[0]] + t.update(n - 1, (ordinal, st)) =~= s.update(n, (ordinal, st)));
        } else {
            assert(seq![s[0]] + t.insert(n - 1, (ordinal, st)) =~= s.insert(n, (ordinal, st)));
        }
    }
}

proof fn lemma_with_state_ordered(s: States, ordinal: u32, st: SourceState, n: int)
    requires
        in_ordinal_order(s),
        0 <= n <= s.len(),
        forall|k: int| 0 <= k < n ==> (#[trigger] s[k]).0 < ordinal,
        n < s.len() ==> s[n].0 >= ordinal,
    ensures
        in_ordinal_order(with_state(s, ordinal, st)),
{
    lemma_with_state(s, ordinal, st, n);
    let w = with_state(s, ordinal, st);
    let replaced = n < s.len() && s[n].0 == ordinal;
    assert forall|i: int, j: int| 0 <= i < j < w.len() implies (#[trigger] w[i]).0
        < (#[trigger] w[j]).0 by {
        let a = if replaced || i <= n {
            i
        } else {
            i - 1
        };
        let b = if replaced || j <= n {
            j
        } else {
            j - 1
        };
        if n < s.len() {
            let k = s[n];
        }
        if i != n && j != n {
            assert(s[a].0 < s[b].0);
        } else if i == n {
            if n < s.len() && b > n {
                assert(s[n].0 < s[b].0);
            }
        } else {
            assert(s[a].0 < ordinal);
        }
    }
}

/// Remembering keeps the order of ordinals.
pub proof fn lemma_with_state_in_order(s: States, ordinal: u32, st: SourceState)
    requires
        in_ordinal_order(s),
    ensures
        in_ordinal_order(with_state(s, ordinal, st)),
{
    lemma_place_from(s, ordinal, st, 0);
}

proof fn lemma_place_from(s: States, ordinal: u32, st: SourceState, n: int)
    requires
        in_ordinal_order(s),
        0 <= n <= s.len(),
        forall|k: int| 0 <= k < n ==> (#[trigger] s[k]).0 < ordinal,
    ensures
        in_ordinal_order(with_state(s, ordinal, st)),
    decreases s.len() - n,
{
    if n < s.len() && s[n].0 < ordinal {
        lemma_place_from(s, ordinal, st, n + 1);
    } else {
        lemma_with_state_ordered(s, ordinal, st, n);
    }
}

/// What is remembered under an ordinal is what was last put there, and nothing
/// else moves.
pub proof fn lemma_state_of_with(s: States, ordinal: u32, st: SourceState, q: u32)
    requires
        in_ordinal_order(s),
    ensures
        state_of(with_state(s, ordinal, st), q) == if q == ordinal {
            Some(st)
        } else {
            state_of(s, q)
        },
    decreases s.len(),
{
    let w = with_state(s, ordinal, st);
    if s.len() == 0 || ordinal < s[0].0 {
        assert(w.skip(1) =~= s);
        assert(w[0] == (ordinal, st));
    } else if s[0].0 == ordinal {
        assert(w.skip(1) =~= s.skip(1));
        assert(w[0] == (ordinal, st));
    } else {
        let t = s.skip(1);
        assert(in_ordinal_order(t)) by {
            assert forall|i: int, j: int| 0 <= i < j < t.len() implies (#[trigger] t[i]).0
                < (#[trigger] t[j]).0 by {
                assert(s[i + 1].0 < s[j + 1].0);
            }
        }
        lemma_state_of_with(t, ordinal, st, q);
        assert(w.skip(1) =~= with_state(t, ordinal, st));
        assert(w[0] == s[0]);
    }
}

} // verus!
