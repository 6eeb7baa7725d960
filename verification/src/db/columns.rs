//! A source's row as the columns it is kept in: labels and metadata are JSON
//! objects.

use vstd::prelude::*;

use super::{SourceMeta, SourceMetaView, SourceRow, SourceView};
use crate::error::{Error, ErrorView};
use crate::seqs;
use crate::text;
use crate::text::append_signed;
use crate::text_map;
use crate::text_map::{Entry, TextMap};

verus! {

/// What `serde_json::from_str` reads in a text as a map from text to text, its
/// entries in key order, or what it says against it.
pub uninterp spec fn map_read(text: Seq<char>) -> Result<Seq<Entry>, Seq<char>>;

/// How `serde_json::to_string` prints a map from text to text.
pub uninterp spec fn map_text(entries: Seq<Entry>) -> Seq<char>;

/// `serde_json::from_str` into a `BTreeMap` of texts: what it reads, or says, is
/// a function of the text alone.
#[verifier::external_body]
fn read_map(text: &str) -> (r: Result<Vec<(String, String)>, String>)
    ensures
        match map_read(text@) {
            Ok(e) => r matches Ok(v) && text_map::entries_of(v@) == e,
            Err(t) => r matches Err(x) && x@ == t,
        },
{
    match serde_json::from_str::<std::collections::BTreeMap<String, String>>(text) {
        Ok(m) => Ok(m.into_iter().collect()),
        Err(e) => Err(e.to_string()),
    }
}

/// `serde_json::to_string` of a `BTreeMap` of texts, which fails on no such map:
/// what it prints is a function of the entries alone, and `serde_json::from_str`
/// reads the same entries in it.
#[verifier::external_body]
fn print_map(entries: &Vec<(String, String)>) -> (r: Result<String, String>)
    requires
        text_map::ascending(text_map::entries_of(entries@)),
    ensures
        match r {
            Ok(x) => {
                &&& x@ == map_text(text_map::entries_of(entries@))
                &&& map_read(x@) == Ok::<Seq<Entry>, Seq<char>>(text_map::entries_of(entries@))
            },
            Err(_) => false,
        },
{
    let map: std::collections::BTreeMap<&String, &String> = entries.iter().map(|p| (&p.0, &p.1)).collect();
    serde_json::to_string(&map).map_err(|e| e.to_string())
}

/// The map that a column holds.
pub open spec fn column_read(column: Seq<char>) -> Result<Seq<Entry>, Seq<char>> {
    match map_read(column) {
        Ok(e) => Ok(text_map::put_entries(Seq::empty(), e)),
        Err(t) => Err(t),
    }
}

/// What a source with a column that cannot be read says.
pub open spec fn invalid(id: i64, what: Seq<char>, e: Seq<char>) -> ErrorView {
    ErrorView::Message(
        "source "@ + text::signed_decimal(id as int) + " has invalid "@ + what + ": "@ + e,
    )
}

/// A source's row, from its columns.
pub open spec fn source_read(
    id: i64,
    uuid: Option<Seq<char>>,
    labels: Seq<char>,
    metadata: Seq<char>,
    complete: i64,
    clock_anchor_wall_ns: i64,
) -> Result<SourceView, ErrorView> {
    match column_read(labels) {
        Err(e) => Err(invalid(id, "labels"@, e)),
        Ok(labels) => match column_read(metadata) {
            Err(e) => Err(invalid(id, "metadata"@, e)),
            Ok(metadata) => Ok(
                SourceView {
                    id,
                    uuid,
                    meta: SourceMetaView { labels, metadata, clock_anchor_wall_ns },
                    complete: complete != 0,
                },
            ),
        },
    }
}

fn read_column(column: &str) -> (r: Result<TextMap, String>)
    ensures
        match column_read(column@) {
            Ok(e) => r matches Ok(m) && m@ == e,
            Err(t) => r matches Err(x) && x@ == t,
        },
{
    let v = match read_map(column) {
        Err(e) => {
            return Err(e);
        },
        Ok(v) => v,
    };
    let ghost all = text_map::entries_of(v@);
    let mut map = TextMap::new();
    let mut i: usize = 0;
    while i < v.len()
        invariant
            i <= v@.len(),
            all == text_map::entries_of(v@),
            map@ == text_map::put_entries(Seq::empty(), all.take(i as int)),
        decreases v@.len() - i,
    {
        assert(all.take(i + 1).drop_last() =~= all.take(i as int));
        map.insert(v[i].0.clone(), v[i].1.clone());
        i += 1;
    }
    assert(all.take(i as int) =~= all);
    Ok(map)
}

fn say_invalid(id: i64, what: &str, e: &str) -> (r: Error)
    ensures
        r@ == invalid(id, what@, e@),
{
    let mut s = String::from_str("source ");
    append_signed(&mut s, id);
    s.append(" has invalid ");
    s.append(what);
    s.append(": ");
    s.append(e);
    Error::Message(s)
}

/// A source's row, from its columns.
pub fn read_source(
    id: i64,
    uuid: Option<String>,
    labels: &str,
    metadata: &str,
    complete: i64,
    clock_anchor_wall_ns: i64,
) -> (r: Result<SourceRow, Error>)
    ensures
        match source_read(
            id,
            seqs::opt_view(uuid),
            labels@,
            metadata@,
            complete,
            clock_anchor_wall_ns,
        ) {
            Ok(s) => r matches Ok(x) && x@ == s,
            Err(e) => r matches Err(x) && x@ == e,
        },
{
    let labels = match read_column(labels) {
        Err(e) => {
            return Err(say_invalid(id, "labels", e.as_str()));
        },
        Ok(m) => m,
    };
    let metadata = match read_column(metadata) {
        Err(e) => {
            return Err(say_invalid(id, "metadata", e.as_str()));
        },
        Ok(m) => m,
    };
    Ok(
        SourceRow {
            id,
            uuid,
            meta: SourceMeta { labels, metadata, clock_anchor_wall_ns },
            complete: complete != 0,
        },
    )
}

fn write_column(map: &TextMap) -> (r: Result<String, String>)
    ensures
        r matches Ok(x) && x@ == map_text(map@) && column_read(x@) == Ok::<Seq<Entry>, Seq<char>>(
            map@,
        ),
{
    let entries = map.entries();
    proof {
        text_map::lemma_put_entries_rebuild(map@);
    }
    print_map(entries)
}

/// A source's metadata, as the column it is kept in. What is read in the column
/// is the metadata again.
pub fn metadata_column(metadata: &TextMap) -> (r: Result<String, Error>)
    ensures
        r matches Ok(x) && x@ == map_text(metadata@) && column_read(x@) == Ok::<
            Seq<Entry>,
            Seq<char>,
        >(metadata@),
{
    match write_column(metadata) {
        Ok(t) => Ok(t),
        Err(e) => {
            let mut s = String::from_str("failed to encode source metadata: ");
            s.append(e.as_str());
            Err(Error::Message(s))
        },
    }
}

/// A source's labels and metadata, as the columns they are kept in. What is read
/// in the columns is the source again.
pub fn source_columns(meta: &SourceMeta) -> (r: Result<(String, String), Error>)
    ensures
        r matches Ok(p) && p.0@ == map_text(meta.labels@) && p.1@ == map_text(meta.metadata@),
        r matches Ok(p) ==> forall|id: i64, uuid: Option<Seq<char>>, complete: i64|
            #[trigger] source_read(
                id,
                uuid,
                p.0@,
                p.1@,
                complete,
                meta.clock_anchor_wall_ns,
            ) == Ok::<SourceView, ErrorView>(
                SourceView { id, uuid, meta: meta@, complete: complete != 0 },
            ),
{
    let labels = match write_column(&meta.labels) {
        Ok(t) => t,
        Err(e) => {
            let mut s = String::from_str("failed to encode source labels: ");
            s.append(e.as_str());
            return Err(Error::Message(s));
        },
    };
    match metadata_column(&meta.metadata) {
        Ok(t) => Ok((labels, t)),
        Err(e) => Err(e),
    }
}

} // verus!
