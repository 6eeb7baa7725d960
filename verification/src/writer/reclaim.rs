//! Handing freed pages back to the filesystem.

use vstd::prelude::*;

use crate::db::model::DbView;
use crate::db::store;
use crate::db::Db;
use crate::error::{Error, ErrorView};

verus! {

/// Reclaim at most this many pages per retention pass, so that a shrunken
/// working set drains back to the filesystem gradually.
pub const RECLAIM_PAGES_PER_PASS: u32 = 100;

/// Reclaim only once the free list exceeds this fraction of the file, as a
/// divisor.
pub const RECLAIM_FREELIST_DIVISOR: u32 = 10;

/// How many milliseconds a clean close spends returning freed pages before it
/// leaves the rest to a later retention pass.
pub const RECLAIM_AT_CLOSE_BUDGET_MS: u64 = 2000;

/// Whether the free list is a large enough part of the file.
pub open spec fn fragmented(free_pages: u32, pages: u32) -> bool {
    free_pages * RECLAIM_FREELIST_DIVISOR > pages
}

/// Whether a pass is worth its cost: the free list is more than a tenth of the
/// file.
pub fn should_reclaim(free_pages: u32, pages: u32) -> (r: bool)
    ensures
        r == fragmented(free_pages, pages),
{
    let scale: u64 = RECLAIM_FREELIST_DIVISOR as u64;
    assert(free_pages * scale <= u64::MAX) by (nonlinear_arith)
        requires
            scale == 10,
    ;
    free_pages as u64 * scale > pages as u64
}

/// Handing pages back where the free list has grown.
pub open spec fn reclaimed(d: DbView) -> Result<DbView, ErrorView> {
    if fragmented(d.pages.free, d.pages.pages) {
        store::written(d, Ok(d.vacuumed(RECLAIM_PAGES_PER_PASS)))
    } else {
        Ok(d)
    }
}

/// Hand freed pages back to the filesystem, but only once the free list is a
/// noticeable fraction of the file.
pub fn reclaim_if_fragmented(db: &mut Db) -> (r: Result<(), Error>)
    ensures
        store::changed(r, old(db)@, final(db)@, reclaimed(old(db)@)),
{
    let stats = db.page_stats();
    if should_reclaim(stats.free, stats.pages) {
        db.incremental_vacuum(RECLAIM_PAGES_PER_PASS)
    } else {
        Ok(())
    }
}

/// So many passes.
pub open spec fn passes(d: DbView, n: nat) -> DbView
    decreases n,
{
    if n == 0 {
        d
    } else {
        passes(d, (n - 1) as nat).vacuumed(RECLAIM_PAGES_PER_PASS)
    }
}

/// Whether a drain at a clean close goes on: pages are free, and the time for it
/// was not spent by the pass before.
pub fn drains_on(free: u32, spent: bool) -> (r: bool)
    ensures
        r == (free > 0 && !spent),
{
    free > 0 && !spent
}

/// Hand freed pages back at a clean close, in passes of
/// [`RECLAIM_PAGES_PER_PASS`], until the free list is empty or `spent` says
/// after a pass that the time for it is. What is left goes back with a later
/// retention pass.
pub fn reclaim_all<F: Fn() -> bool>(db: &mut Db, spent: F) -> (r: Result<(), Error>)
    requires
        spent.requires(()),
    ensures
        old(db)@.pages.free > 0 && !old(db)@.writable() ==> {
            &&& r matches Err(e) && e@ == old(db)@.write_refusal()
            &&& final(db)@ == old(db)@
        },
        old(db)@.pages.free == 0 || old(db)@.writable() ==> {
            &&& r is Ok
            &&& exists|n: nat|
                {
                    &&& final(db)@ == #[trigger] passes(old(db)@, n)
                    &&& final(db)@.pages.free == 0 || (n > 0 && spent.ensures((), true))
                }
        },
{
    let ghost d = db@;
    let ghost mut n: nat = 0;
    assert(db@ == passes(d, 0));
    let mut over: bool = false;
    while drains_on(db.page_stats().free, over)
        invariant
            d == old(db)@,
            db@ == passes(d, n),
            db@.writable() == d.writable(),
            spent.requires(()),
            !d.writable() ==> n == 0,
            over ==> n > 0 && spent.ensures((), true),
        decreases db@.pages.free,
    {
        match db.incremental_vacuum(RECLAIM_PAGES_PER_PASS) {
            Err(e) => {
                return Err(e);
            },
            Ok(_) => {},
        }
        proof {
            n = n + 1;
        }
        over = spent();
    }
    Ok(())
}

} // verus!
