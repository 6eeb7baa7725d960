//! The rows of the tables, each with what it belongs to.

use vstd::prelude::*;

use super::rows::{CallerRow, CallerView, SegmentRow, SegmentView, SourceRow, SourceView, WalRow, WalView};
use super::table::{stands_by, Key, Keyed};
use crate::text::Standing;

verus! {

/// A segment, with its source and stream.
#[derive(Debug)]
pub struct SegmentAt {
    pub source_id: i64,
    pub stream: String,
    pub row: SegmentRow,
}

/// A segment with its source and stream, as mathematics.
pub struct SegmentAtView {
    pub source_id: i64,
    pub stream: Seq<char>,
    pub row: SegmentView,
}

/// A WAL row, with its source.
#[derive(Debug)]
pub struct WalAt {
    pub source_id: i64,
    pub row: WalRow,
}

/// A WAL row with its source, as mathematics.
pub struct WalAtView {
    pub source_id: i64,
    pub row: WalView,
}

/// A clock observation, with its source.
#[derive(Clone, Copy, Debug)]
pub struct ClockAt {
    pub source_id: i64,
    pub ts: i64,
    pub offset_ns: i64,
}

/// A caller's row, with its source and stream.
#[derive(Debug)]
pub struct CallerAt {
    pub source_id: i64,
    pub stream: String,
    pub row: CallerRow,
}

/// A caller's row with its source and stream, as mathematics.
pub struct CallerAtView {
    pub source_id: i64,
    pub stream: Seq<char>,
    pub row: CallerView,
}

impl View for SegmentAt {
    type V = SegmentAtView;

    open spec fn view(&self) -> SegmentAtView {
        SegmentAtView { source_id: self.source_id, stream: self.stream@, row: self.row@ }
    }
}

impl View for WalAt {
    type V = WalAtView;

    open spec fn view(&self) -> WalAtView {
        WalAtView { source_id: self.source_id, row: self.row@ }
    }
}

impl View for ClockAt {
    type V = ClockAt;

    open spec fn view(&self) -> ClockAt {
        *self
    }
}

impl View for CallerAt {
    type V = CallerAtView;

    open spec fn view(&self) -> CallerAtView {
        CallerAtView { source_id: self.source_id, stream: self.stream@, row: self.row@ }
    }
}

fn no_stream() -> (r: &'static str)
    ensures
        r@ == Seq::<char>::empty(),
{
    proof {
        reveal_strlit("");
    }
    assert(""@ =~= Seq::<char>::empty());
    ""
}

impl Keyed for SourceRow {
    open spec fn key_of(v: SourceView) -> Key {
        Key { source: v.id as int, stream: Seq::empty(), at: 0 }
    }

    open spec fn newest_of(v: SourceView) -> i64 {
        v.meta.clock_anchor_wall_ns
    }

    open spec fn unique() -> bool {
        true
    }

    fn source(&self) -> (r: i64) {
        self.id
    }

    fn stream(&self) -> (r: &str) {
        no_stream()
    }

    fn seat(&self) -> (r: i128) {
        0
    }

    fn newest(&self) -> (r: i64) {
        self.meta.clock_anchor_wall_ns
    }

    fn stands(&self, other: &Self) -> (r: Standing) {
        stands_by(self.id, no_stream(), 0, other.id, no_stream(), 0)
    }

    fn copied(&self) -> (r: Self) {
        self.clone()
    }
}

impl Keyed for SegmentAt {
    open spec fn key_of(v: SegmentAtView) -> Key {
        Key { source: v.source_id as int, stream: v.stream, at: v.row.seq as int }
    }

    open spec fn newest_of(v: SegmentAtView) -> i64 {
        v.row.meta.last_ts
    }

    open spec fn unique() -> bool {
        true
    }

    fn source(&self) -> (r: i64) {
        self.source_id
    }

    fn stream(&self) -> (r: &str) {
        self.stream.as_str()
    }

    fn seat(&self) -> (r: i128) {
        self.row.seq as i128
    }

    fn newest(&self) -> (r: i64) {
        self.row.meta.last_ts
    }

    fn stands(&self, other: &Self) -> (r: Standing) {
        stands_by(
            self.source_id,
            self.stream.as_str(),
            self.row.seq as i128,
            other.source_id,
            other.stream.as_str(),
            other.row.seq as i128,
        )
    }

    fn copied(&self) -> (r: Self) {
        SegmentAt {
            source_id: self.source_id,
            stream: self.stream.clone(),
            row: self.row.clone(),
        }
    }
}

impl Keyed for WalAt {
    open spec fn key_of(v: WalAtView) -> Key {
        Key { source: v.source_id as int, stream: v.row.stream, at: v.row.ts as int }
    }

    open spec fn newest_of(v: WalAtView) -> i64 {
        v.row.ts
    }

    open spec fn unique() -> bool {
        true
    }

    fn source(&self) -> (r: i64) {
        self.source_id
    }

    fn stream(&self) -> (r: &str) {
        self.row.stream.as_str()
    }

    fn seat(&self) -> (r: i128) {
        self.row.ts as i128
    }

    fn newest(&self) -> (r: i64) {
        self.row.ts
    }

    fn stands(&self, other: &Self) -> (r: Standing) {
        stands_by(
            self.source_id,
            self.row.stream.as_str(),
            self.row.ts as i128,
            other.source_id,
            other.row.stream.as_str(),
            other.row.ts as i128,
        )
    }

    fn copied(&self) -> (r: Self) {
        WalAt { source_id: self.source_id, row: self.row.clone() }
    }
}

impl Keyed for ClockAt {
    open spec fn key_of(v: ClockAt) -> Key {
        Key { source: v.source_id as int, stream: Seq::empty(), at: v.ts as int }
    }

    open spec fn newest_of(v: ClockAt) -> i64 {
        v.ts
    }

    open spec fn unique() -> bool {
        true
    }

    fn source(&self) -> (r: i64) {
        self.source_id
    }

    fn stream(&self) -> (r: &str) {
        no_stream()
    }

    fn seat(&self) -> (r: i128) {
        self.ts as i128
    }

    fn newest(&self) -> (r: i64) {
        self.ts
    }

    fn stands(&self, other: &Self) -> (r: Standing) {
        stands_by(
            self.source_id,
            no_stream(),
            self.ts as i128,
            other.source_id,
            no_stream(),
            other.ts as i128,
        )
    }

    fn copied(&self) -> (r: Self) {
        *self
    }
}

impl Keyed for CallerAt {
    open spec fn key_of(v: CallerAtView) -> Key {
        Key { source: v.source_id as int, stream: v.stream, at: v.row.ts as int }
    }

    open spec fn newest_of(v: CallerAtView) -> i64 {
        v.row.ts
    }

    open spec fn unique() -> bool {
        false
    }

    fn source(&self) -> (r: i64) {
        self.source_id
    }

    fn stream(&self) -> (r: &str) {
        self.stream.as_str()
    }

    fn seat(&self) -> (r: i128) {
        self.row.ts as i128
    }

    fn newest(&self) -> (r: i64) {
        self.row.ts
    }

    fn stands(&self, other: &Self) -> (r: Standing) {
        stands_by(
            self.source_id,
            self.stream.as_str(),
            self.row.ts as i128,
            other.source_id,
            other.stream.as_str(),
            other.row.ts as i128,
        )
    }

    fn copied(&self) -> (r: Self) {
        CallerAt { source_id: self.source_id, stream: self.stream.clone(), row: self.row.clone() }
    }
}

} // verus!
