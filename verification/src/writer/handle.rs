//! What a caller's handle decides before it hands anything to the writer, and
//! what it reports of a writer that is gone.

use std::sync::Arc;
use vstd::prelude::*;

use super::run::Request;
use super::tick::{copy_rows, TickView};
use crate::db::store;
use crate::db::{WalRow, WalView};
use crate::error::{Error, ErrorView};
use crate::seqs;
use crate::text_map::TextMap;

verus! {

broadcast use crate::seqs::group_views;

/// How stale a plain copy of a live archive may be, in milliseconds: how often
/// the writer folds its sidecar into the archive, busy or idle.
pub const CHECKPOINT_INTERVAL_MS: u64 = 10_000;

/// How many milliseconds to wait for a request before a checkpoint is due.
pub fn wait_for_checkpoint(every_ms: u64, elapsed_ms: u64) -> (r: u64)
    ensures
        r == (if elapsed_ms < every_ms {
            every_ms - elapsed_ms
        } else {
            0
        }),
{
    if elapsed_ms < every_ms {
        every_ms - elapsed_ms
    } else {
        0
    }
}

/// Whether a checkpoint is due.
pub fn checkpoint_due(every_ms: u64, elapsed_ms: u64) -> (r: bool)
    ensures
        r == (elapsed_ms >= every_ms),
{
    elapsed_ms >= every_ms
}

/// What a handle reports of a writer that is gone: the failure it stored on its
/// way out, or that it left none.
pub fn take_writer_error(stored: &Option<Error>) -> (r: Error)
    ensures
        r@ == (match *stored {
            Some(e) => ErrorView::Writer(Box::new(e@)),
            None => ErrorView::WriterGone,
        }),
{
    match stored {
        Some(e) => Error::Writer(Arc::new(e.copied())),
        None => Error::WriterGone,
    }
}

/// Report a writer that has failed already, on a hand-off that sends nothing:
/// an empty tick must not hide a dead writer.
pub fn check_alive(stored: &Option<Error>) -> (r: Result<(), Error>)
    ensures
        match *stored {
            Some(e) => r matches Err(x) && x@ == ErrorView::Writer(Box::new(e@)),
            None => r is Ok,
        },
{
    match stored {
        Some(_) => Err(take_writer_error(stored)),
        None => Ok(()),
    }
}

/// The ticks that have rows.
pub open spec fn with_rows(ticks: Seq<TickView>) -> Seq<TickView> {
    ticks.filter(|t: TickView| t.1.len() > 0)
}

/// What a tick of several sources hands to the writer: the sources that have
/// rows in one request, and nothing where none has.
pub fn wal_tick(ticks: &Vec<(i64, Vec<WalRow>)>) -> (r: Option<Request>)
    ensures
        ({
            let kept = with_rows(store::tick_views(ticks@));
            match r {
                None => kept.len() == 0,
                Some(q) => kept.len() > 0 && q@ == super::run::RequestView::Wal { ticks: kept },
            }
        }),
{
    let ghost all = store::tick_views(ticks@);
    let ghost keep = |t: TickView| t.1.len() > 0;
    let mut back: Vec<(i64, Vec<WalRow>)> = Vec::new();
    let mut i: usize = 0;
    proof {
        seqs::lemma_filter_full(all, keep);
        assert(store::tick_views(back@) =~= Seq::empty());
    }
    while i < ticks.len()
        invariant
            i <= ticks@.len(),
            all == store::tick_views(ticks@),
            keep == |t: TickView| t.1.len() > 0,
            store::tick_views(back@) == all.take(i as int).filter(keep),
        decreases ticks@.len() - i,
    {
        let ghost was = store::tick_views(back@);
        proof {
            seqs::lemma_filter_take(all, i as int, keep);
            assert(all[i as int] == (ticks@[i as int].0, seqs::views(ticks@[i as int].1@)));
        }
        if ticks[i].1.len() > 0 {
            back.push((ticks[i].0, copy_rows(&ticks[i].1)));
            assert(store::tick_views(back@) =~= was.push(all[i as int]));
        }
        i += 1;
    }
    if back.len() == 0 {
        assert(store::tick_views(back@).len() == 0);
        None
    } else {
        assert(store::tick_views(back@).len() > 0);
        Some(Request::Wal { ticks: back })
    }
}

/// One source's handle onto a writer.
#[derive(Debug)]
pub struct SourceWriter {
    source_id: i64,
    floor_ts: Option<i64>,
}

/// The first row at or before a floor.
pub open spec fn first_below(rows: Seq<WalView>, floor: i64) -> Option<i64>
    decreases rows.len(),
{
    if rows.len() == 0 {
        None
    } else if rows[0].ts <= floor {
        Some(rows[0].ts)
    } else {
        first_below(rows.skip(1), floor)
    }
}

impl SourceWriter {
    /// The source that the handle appends to.
    pub closed spec fn source(self) -> i64 {
        self.source_id
    }

    /// The newest row a previous session left.
    pub closed spec fn floor(self) -> Option<i64> {
        self.floor_ts
    }

    /// A handle onto a source, with the newest row that a previous session left
    /// where the source was resumed.
    pub fn new(source_id: i64, floor_ts: Option<i64>) -> (r: SourceWriter)
        ensures
            r.source() == source_id,
            r.floor() == floor_ts,
    {
        SourceWriter { source_id, floor_ts }
    }

    /// The `sources` row this handle appends to.
    pub fn source_id(&self) -> (r: i64)
        ensures
            r == self.source(),
    {
        self.source_id
    }

    /// The newest row timestamp a previous writer session left, when this
    /// handle resumed a source; every row must be stamped after it.
    pub fn floor_ts(&self) -> (r: Option<i64>)
        ensures
            r == self.floor(),
    {
        self.floor_ts
    }

    /// What one tick's rows hand to the writer: nothing where there are none,
    /// and a refusal where a resumed source's row is not after its floor.
    pub fn wal(&self, rows: Vec<WalRow>) -> (r: Result<Option<Request>, Error>)
        ensures
            ({
                let all = seqs::views(rows@);
                let below = match self.floor() {
                    Some(f) => first_below(all, f),
                    None => None,
                };
                match below {
                    Some(ts) => r matches Err(e) && e@ == ErrorView::TimelineBackwards {
                        source_id: self.source(),
                        ts,
                        floor: self.floor()->0,
                    },
                    None => if all.len() == 0 {
                        r matches Ok(None)
                    } else {
                        r matches Ok(Some(q)) && q@ == super::run::RequestView::Wal {
                            ticks: seq![(self.source(), all)],
                        }
                    },
                }
            }),
    {
        let ghost all = seqs::views(rows@);
        if rows.len() == 0 {
            return Ok(None);
        }
        match self.floor_ts {
            Some(floor) => {
                let mut i: usize = 0;
                proof {
                    assert(all.skip(0) =~= all);
                }
                while i < rows.len()
                    invariant
                        i <= rows@.len(),
                        all == seqs::views(rows@),
                        self.floor() == Some(floor),
                        first_below(all, floor) == first_below(all.skip(i as int), floor),
                    decreases rows@.len() - i,
                {
                    proof {
                        assert(all.skip(i as int)[0] == rows@[i as int]@);
                        assert(all.skip(i as int).skip(1) =~= all.skip(i + 1));
                    }
                    if rows[i].ts <= floor {
                        return Err(
                            Error::TimelineBackwards {
                                source_id: self.source_id,
                                ts: rows[i].ts,
                                floor,
                            },
                        );
                    }
                    i += 1;
                }
            },
            None => {},
        }
        let mut ticks: Vec<(i64, Vec<WalRow>)> = Vec::new();
        ticks.push((self.source_id, rows));
        proof {
            assert(store::tick_views(ticks@) =~= seq![(self.source_id, all)]);
        }
        Ok(Some(Request::Wal { ticks }))
    }

    /// What sealing streams hands to the writer: nothing where there are none.
    pub fn seal(&self, batch: Vec<String>) -> (r: Option<Request>)
        ensures
            match r {
                None => batch@.len() == 0,
                Some(q) => batch@.len() > 0 && q@ == super::run::RequestView::Seal {
                    source_id: self.source(),
                    batch: seqs::views(batch@),
                },
            },
    {
        if batch.len() == 0 {
            None
        } else {
            Some(Request::Seal { source_id: self.source_id, batch })
        }
    }

    /// What a metadata patch hands to the writer: nothing where it is empty.
    pub fn update_metadata(&self, patch: TextMap) -> (r: Option<Request>)
        ensures
            match r {
                None => patch@.len() == 0,
                Some(q) => patch@.len() > 0 && q@ == super::run::RequestView::UpdateMetadata {
                    source_id: self.source(),
                    patch: patch@,
                },
            },
    {
        if patch.is_empty() {
            None
        } else {
            Some(Request::UpdateMetadata { source_id: self.source_id, patch })
        }
    }

    /// What retention hands to the writer.
    pub fn evict_before(&self, cutoff_ts: i64) -> (r: Request)
        ensures
            r@ == (super::run::RequestView::Evict { source_id: self.source(), cutoff_ts }),
    {
        Request::Evict { source_id: self.source_id, cutoff_ts }
    }

    /// What finishing the source hands to the writer: its final clock
    /// observation.
    pub fn finalize(&self, clock_offset: (i64, i64)) -> (r: Request)
        ensures
            r@ == (super::run::RequestView::Finalize { source_id: self.source(), clock_offset }),
    {
        Request::Finalize { source_id: self.source_id, clock_offset }
    }
}

} // verus!
