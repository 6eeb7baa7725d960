//! Which columns, streams and sources a rewrite picks.

use arrow::array::ArrayData;
use parquet::file::properties::WriterProperties;
use vstd::prelude::*;

use super::copy;
use super::copy::CopySpec;
use super::merge;
use super::parquet_file;
use super::parquet_file::{BatchView, ColumnView};
use super::project;
use super::project::ColumnFilter;
use super::readable;
use crate::db;
use crate::db::model::DbView;
use crate::db::{SourceMetaView, SourceView};
use crate::error::ErrorView;
use crate::replicate::lossless;
use crate::text_map;

verus! {

// ------------------------------------------------------------ columns

/// The places of the columns that a projection keeps are those of the columns its filter
/// accepts: each of them, in order, and no other.
pub proof fn law_a_projection_keeps_the_columns_accepted<C: ColumnFilter>(
    columns: Seq<ColumnView>,
    filter: C,
)
    requires
        columns.len() <= usize::MAX,
    ensures
        ({
            let places = project::kept(columns, filter);
            &&& forall|k: int|
                0 <= k < places.len() ==> 0 <= #[trigger] places[k] < columns.len()
                    && filter.keeps(columns[places[k] as int].field)
            &&& forall|i: int, j: int|
                0 <= i < j < places.len() ==> #[trigger] places[i] < #[trigger] places[j]
            &&& forall|i: int|
                0 <= i < columns.len() && filter.keeps((#[trigger] columns[i]).field)
                    ==> places.contains(i as usize)
        }),
    decreases columns.len(),
{
    if columns.len() > 0 {
        let head = columns.drop_last();
        law_a_projection_keeps_the_columns_accepted(head, filter);
        let was = project::kept(head, filter);
        let places = project::kept(columns, filter);
        let last = (columns.len() - 1) as usize;
        assert forall|k: int| 0 <= k < places.len() implies 0 <= #[trigger] places[k]
            < columns.len() && filter.keeps(columns[places[k] as int].field) by {
            if k < was.len() {
                assert(places[k] == was[k]);
                assert(head[was[k] as int] == columns[was[k] as int]);
            }
        }
        assert forall|i: int, j: int| 0 <= i < j < places.len() implies #[trigger] places[i]
            < #[trigger] places[j] by {
            assert(places[i] == was[i]);
            if j < was.len() {
                assert(places[j] == was[j]);
            }
        }
        assert forall|i: int|
            0 <= i < columns.len() && filter.keeps(
                (#[trigger] columns[i]).field,
            ) implies places.contains(i as usize) by {
            if i < head.len() {
                assert(head[i] == columns[i]);
                let k = choose|k: int| 0 <= k < was.len() && was[k] == i as usize;
                assert(places[k] == i as usize);
            } else {
                assert(places[was.len() as int] == last);
            }
        }
    }
}

/// What is picked at places is what stands there, place by place: of the columns and of
/// the values alike.
pub proof fn law_what_is_picked_stands_at_its_place(
    columns: Seq<ColumnView>,
    values: Seq<ArrayData>,
    places: Seq<usize>,
)
    requires
        values.len() == columns.len(),
        forall|k: int| 0 <= k < places.len() ==> (#[trigger] places[k]) < columns.len(),
    ensures
        project::picked_columns(columns, places).len() == places.len(),
        project::picked_values(values, places).len() == places.len(),
        forall|k: int|
            0 <= k < places.len() ==> project::picked_columns(columns, places)[k]
                == columns[#[trigger] places[k] as int] && project::picked_values(
                values,
                places,
            )[k] == values[places[k] as int],
    decreases places.len(),
{
    if places.len() > 0 {
        let head = places.drop_last();
        assert forall|k: int| 0 <= k < head.len() implies (#[trigger] head[k])
            < columns.len() by {
            assert(places[k] < columns.len());
        }
        law_what_is_picked_stands_at_its_place(columns, values, head);
        assert(places[places.len() - 1] < columns.len());
        assert forall|k: int| 0 <= k < places.len() implies project::picked_columns(
            columns,
            places,
        )[k] == columns[#[trigger] places[k] as int] && project::picked_values(values, places)[k]
            == values[places[k] as int] by {
            if k < head.len() {
                assert(head[k] == places[k]);
            }
        }
    }
}

/// A projection comes to nothing exactly where the segment's schema reads and no column
/// that is kept carries data.
pub proof fn law_a_projection_without_data_is_nothing<C: ColumnFilter>(
    file: Seq<u8>,
    filter: C,
    props: WriterProperties,
)
    ensures
        project::projected(file, filter, props) == Ok::<Option<Seq<u8>>, ErrorView>(None) <==> (
        readable::schema_in(file) matches Ok(s) && forall|i: int|
            0 <= i < s.columns.len() ==> !(filter.keeps((#[trigger] s.columns[i]).field)
                && filter.carries_data(s.columns[i].field))),
{
}

/// A batch widened to other columns has, of each of them, its own values of that name, or
/// nulls where it has none of it; and as many rows as it had.
pub proof fn law_a_widened_batch_has_every_column(
    b: BatchView,
    from: Seq<ColumnView>,
    to: Seq<ColumnView>,
    k: int,
)
    requires
        b.columns.len() == from.len(),
        0 <= k < to.len(),
        forall|i: int, j: int|
            0 <= i < j < from.len() ==> (#[trigger] from[i]).name != (#[trigger] from[j]).name,
    ensures
        ({
            let w = merge::widened_batch(b, from, to);
            &&& w.rows == b.rows
            &&& w.columns.len() == to.len()
            &&& forall|i: int|
                0 <= i < from.len() && (#[trigger] from[i]).name == to[k].name ==> w.columns[k]
                    == b.columns[i]
            &&& (forall|i: int| 0 <= i < from.len() ==> (#[trigger] from[i]).name != to[k].name)
                ==> w.columns[k] == parquet_file::null_values(to[k].field, b.rows as nat)
        }),
{
    super::laws::lemma_column_named(from, to[k].name);
    let w = merge::widened_batch(b, from, to);
    assert forall|i: int|
        0 <= i < from.len() && (#[trigger] from[i]).name == to[k].name implies w.columns[k]
        == b.columns[i] by {
        if parquet_file::columns_alike(from, to) {
            assert(from[k].name == to[k].name);
            if i < k {
                assert(from[i].name != from[k].name);
            } else if k < i {
                assert(from[k].name != from[i].name);
            }
        } else {
            let j = merge::column_named(from, to[k].name)->0 as int;
            if i < j {
                assert(from[i].name != from[j].name);
            } else if j < i {
                assert(from[j].name != from[i].name);
            }
        }
    }
    if parquet_file::columns_alike(from, to) {
        assert(from[k].name == to[k].name);
    }
}

// ------------------------------------------------------------ sources and streams

proof fn lemma_identities(sources: Seq<SourceView>, u: Seq<char>)
    ensures
        copy::identities(sources).contains(u) <==> exists|i: int|
            0 <= i < sources.len() && (#[trigger] sources[i]).uuid == Some(u),
    decreases sources.len(),
{
    if sources.len() > 0 {
        let head = sources.drop_last();
        lemma_identities(head, u);
        let was = copy::identities(head);
        let now = copy::identities(sources);
        let last = sources[sources.len() - 1];
        if now.contains(u) {
            let k = choose|k: int| 0 <= k < now.len() && now[k] == u;
            if k < was.len() {
                assert(was[k] == u);
                let i = choose|i: int| 0 <= i < head.len() && (#[trigger] head[i]).uuid == Some(u);
                assert(sources[i].uuid == Some(u));
            } else {
                assert(last.uuid == Some(u));
            }
        }
        if exists|i: int| 0 <= i < sources.len() && (#[trigger] sources[i]).uuid == Some(u) {
            let i = choose|i: int|
                0 <= i < sources.len() && (#[trigger] sources[i]).uuid == Some(u);
            if i < head.len() {
                assert(head[i].uuid == Some(u));
                let k = choose|k: int| 0 <= k < was.len() && was[k] == u;
                assert(now[k] == u);
            } else {
                assert(now[was.len() as int] == u);
            }
        }
    }
}

proof fn lemma_among(names: Seq<Seq<char>>, others: Seq<Seq<char>>, u: Seq<char>)
    ensures
        copy::among(names, others).contains(u) <==> names.contains(u) && others.contains(u),
    decreases names.len(),
{
    if names.len() > 0 {
        let head = names.drop_last();
        lemma_among(head, others, u);
        let was = copy::among(head, others);
        let now = copy::among(names, others);
        let last = names[names.len() - 1];
        if now.contains(u) {
            let k = choose|k: int| 0 <= k < now.len() && now[k] == u;
            if k < was.len() {
                assert(was[k] == u);
                let i = choose|i: int| 0 <= i < head.len() && head[i] == u;
                assert(names[i] == u);
            } else {
                assert(last == u);
            }
        }
        if names.contains(u) && others.contains(u) {
            let i = choose|i: int| 0 <= i < names.len() && names[i] == u;
            if i < head.len() {
                assert(head[i] == u);
                let k = choose|k: int| 0 <= k < was.len() && was[k] == u;
                assert(now[k] == u);
            } else {
                assert(now[was.len() as int] == u);
            }
        }
    }
}

/// The sources two archives share are those with one identity: a name is among them
/// exactly where a source of either archive has it for its own.
pub proof fn law_shared_sources_have_one_identity(a: DbView, b: DbView, u: Seq<char>)
    ensures
        copy::among(copy::identities(b.sources), copy::identities(a.sources)).contains(u) <==> {
            &&& exists|i: int| 0 <= i < a.sources.len() && (#[trigger] a.sources[i]).uuid == Some(u)
            &&& exists|i: int| 0 <= i < b.sources.len() && (#[trigger] b.sources[i]).uuid == Some(u)
        },
{
    lemma_identities(a.sources, u);
    lemma_identities(b.sources, u);
    lemma_among(copy::identities(b.sources), copy::identities(a.sources), u);
}

/// Every name that an archive keeps anything under can be chosen for a copy.
pub proof fn law_every_name_can_be_chosen(
    d: DbView,
    sources: Seq<SourceView>,
    k: int,
    name: Seq<char>,
)
    requires
        0 <= k < sources.len(),
        d.segments_of(sources[k].id, name).len() > 0 || d.wal_of(sources[k].id, name).len() > 0
            || d.callers_of(sources[k].id, name).len() > 0,
    ensures
        copy::names_of(d, sources).contains(name),
    decreases sources.len(),
{
    let head = sources.drop_last();
    let last = sources[sources.len() - 1];
    let was = copy::names_of(d, head);
    let a = d.streams_of(last.id);
    let b = d.caller_streams(last.id);
    let now = copy::names_of(d, sources);
    assert(now == was + a + b);
    if k < head.len() {
        assert(head[k] == sources[k]);
        law_every_name_can_be_chosen(d, head, k, name);
        let i = choose|i: int| 0 <= i < was.len() && was[i] == name;
        assert(now[i] == name);
    } else {
        db::laws::law_a_stream_is_its_rows(d, last.id, name);
        lossless::lemma_caller_stream(d, last.id, name);
        if a.contains(name) {
            let i = choose|i: int| 0 <= i < a.len() && a[i] == name;
            assert(now[was.len() + i] == name);
        } else {
            let i = choose|i: int| 0 <= i < b.len() && b[i] == name;
            assert(now[was.len() + a.len() + i] == name);
        }
    }
}

/// A copied source keeps what it says of itself; of its metadata, a key that the copy gives
/// stands for what the copy gives, and every other for what it stood for.
pub proof fn law_a_copy_adds_to_the_metadata<C: ColumnFilter>(
    meta: SourceMetaView,
    spec: CopySpec<C>,
    key: Seq<char>,
)
    requires
        text_map::ascending(meta.metadata),
        spec.metadata_extra matches Some(extra) ==> text_map::ascending(extra@),
    ensures
        ({
            let m = copy::copied_meta(meta, spec);
            &&& m.labels == meta.labels
            &&& m.clock_anchor_wall_ns == meta.clock_anchor_wall_ns
            &&& text_map::lookup(m.metadata, key) == match spec.metadata_extra {
                None => text_map::lookup(meta.metadata, key),
                Some(extra) => match text_map::lookup(extra@, key) {
                    Some(v) => Some(v),
                    None => text_map::lookup(meta.metadata, key),
                },
            }
        }),
{
    if let Some(extra) = spec.metadata_extra {
        db::facts::law_merged_entries_override(meta.metadata, extra@, key);
    }
}

} // verus!
