//! Which segments can be read, and reading them. `parquet` is handed a file only once
//! its footer, its columns' types and its pages have been looked at.

use arrow::datatypes::DataType;
use parquet::column::page::Page as ParquetPage;
use vstd::prelude::*;
use vstd::string::*;

use super::footer;
use super::headers;
use super::headers::is_headed;
use super::levels;
use super::levels::check_entries;
use super::pages;
use super::parquet_file::{
    is_bytes_type, is_text_type, kind, leaf, open_schema, plain_page, read_groups, read_pages,
    read_rows, type_of_field, width_of_type, Column, Kind, Leaf, Read, ReadFault, SegmentSchema,
};
use super::parquet_file;
use crate::seqs;

verus! {

broadcast use crate::seqs::group_views;

/// How wide the keys of a dictionary of numbers are at least, in bytes: no batch has
/// as many numbers as such keys can tell apart.
pub const KEY_BYTES: usize = 4;

/// How many values lists of one length may hold at most, one inside the other.
pub const LONGEST: i32 = 0x1_0000;

/// Whether values of a type can be read, down to a number of levels, where lists of
/// one length hold no more than so many. There are no unions or runs in it, there are
/// no lists, dictionaries or decimals in a map, and where there is a dictionary it is
/// of text, of bytes, or of numbers under keys that are wide enough.
pub open spec fn type_readable(t: DataType, levels: u16, longest: i32) -> bool
    decreases levels, 0nat,
{
    &&& levels > 0
    &&& match parquet_file::kind_of(t) {
        parquet_file::KindView::Leaf => true,
        parquet_file::KindView::List(item) => type_readable(item, (levels - 1) as u16, longest),
        parquet_file::KindView::FixedList(item, n) => 0 < n <= longest && type_readable(
            item,
            (levels - 1) as u16,
            (longest / n) as i32,
        ),
        parquet_file::KindView::Record(types) => all_readable(
            types,
            (levels - 1) as u16,
            longest,
        ),
        parquet_file::KindView::Entries(entry) => {
            &&& parquet_file::kind_of(entry) matches parquet_file::KindView::Record(types)
                && types.len() == 2 && parquet_file::kind_of(types[0])
                == parquet_file::KindView::Leaf
            &&& flat(entry, (levels - 1) as u16)
        },
        parquet_file::KindView::Union => false,
        parquet_file::KindView::Dictionary(key, value) => dictionary_readable(key, value),
        parquet_file::KindView::Runs(..) => false,
    }
}

/// Whether a type is made of records and leaves alone, down to a number of levels, and
/// no leaf of it is a decimal or bytes of one length.
pub open spec fn flat(t: DataType, levels: u16) -> bool
    decreases levels, 0nat,
{
    &&& levels > 0
    &&& match parquet_file::kind_of(t) {
        parquet_file::KindView::Leaf => match parquet_file::leaf_of(t) {
            Leaf::Plain => true,
            Leaf::Time32(_) => true,
            Leaf::Time64(_) => true,
            _ => false,
        },
        parquet_file::KindView::Record(types) => all_flat(types, (levels - 1) as u16),
        _ => false,
    }
}

/// Whether each of some types is made of records and leaves alone.
pub open spec fn all_flat(types: Seq<DataType>, levels: u16) -> bool
    decreases levels, 1nat,
{
    forall|i: int| 0 <= i < types.len() ==> flat(#[trigger] types[i], levels)
}

/// Whether values of each of some types can be read.
pub open spec fn all_readable(types: Seq<DataType>, levels: u16, longest: i32) -> bool
    decreases levels, 1nat,
{
    forall|i: int| 0 <= i < types.len() ==> type_readable(#[trigger] types[i], levels, longest)
}

/// Whether a dictionary can be read.
pub open spec fn dictionary_readable(key: DataType, value: DataType) -> bool {
    ||| parquet_file::text_type(value)
    ||| parquet_file::bytes_type(value)
    ||| parquet_file::width_of(value) is Some && (parquet_file::width_of(key) matches Some(n) && n
        >= KEY_BYTES)
}

/// How many columns of text there are in a type, down to a number of levels.
pub open spec fn texts_in(t: DataType, levels: u16) -> nat
    decreases levels, 0nat,
{
    if levels == 0 {
        0
    } else {
        match parquet_file::kind_of(t) {
            parquet_file::KindView::Leaf => if parquet_file::text_type(t) {
                1
            } else {
                0
            },
            parquet_file::KindView::List(item) => texts_in(item, (levels - 1) as u16),
            parquet_file::KindView::FixedList(item, _) => texts_in(item, (levels - 1) as u16),
            parquet_file::KindView::Record(types) => texts_in_all(types, (levels - 1) as u16),
            parquet_file::KindView::Entries(entry) => texts_in(entry, (levels - 1) as u16),
            parquet_file::KindView::Union => 0,
            parquet_file::KindView::Dictionary(_, value) => texts_in(value, (levels - 1) as u16),
            parquet_file::KindView::Runs(_, value) => texts_in(value, (levels - 1) as u16),
        }
    }
}

/// How many columns of text there are in some types.
pub open spec fn texts_in_all(types: Seq<DataType>, levels: u16) -> nat
    decreases levels, 1nat, types.len(),
{
    if types.len() == 0 {
        0
    } else {
        texts_in_all(types.drop_last(), levels) + texts_in(types.last(), levels)
    }
}

/// The column after those of a type, counting from its first, where the columns of
/// every map in it agree.
pub open spec fn maps_end(
    t: DataType,
    levels: u16,
    first: nat,
    chunks: Seq<pages::Chunk>,
    of: Seq<Seq<pages::PageView>>,
) -> Option<nat>
    decreases levels, 0nat,
{
    if levels == 0 {
        None
    } else {
        match parquet_file::kind_of(t) {
            parquet_file::KindView::Leaf => one_column(first, chunks),
            parquet_file::KindView::Dictionary(..) => one_column(first, chunks),
            parquet_file::KindView::Runs(..) => one_column(first, chunks),
            parquet_file::KindView::List(item) => maps_end(
                item,
                (levels - 1) as u16,
                first,
                chunks,
                of,
            ),
            parquet_file::KindView::FixedList(item, _) => maps_end(
                item,
                (levels - 1) as u16,
                first,
                chunks,
                of,
            ),
            parquet_file::KindView::Record(types) => all_maps_end(
                types,
                (levels - 1) as u16,
                first,
                chunks,
                of,
            ),
            parquet_file::KindView::Entries(entry) => match maps_end(
                entry,
                (levels - 1) as u16,
                first,
                chunks,
                of,
            ) {
                None => None,
                Some(end) => if levels::entries_agree(chunks, of, first as int, end as int) {
                    Some(end)
                } else {
                    None
                },
            },
            parquet_file::KindView::Union => None,
        }
    }
}

/// The column after one.
pub open spec fn one_column(first: nat, chunks: Seq<pages::Chunk>) -> Option<nat> {
    if first < chunks.len() {
        Some(first + 1)
    } else {
        None
    }
}

/// The column after those of some types, where the columns of every map in them agree.
pub open spec fn all_maps_end(
    types: Seq<DataType>,
    levels: u16,
    first: nat,
    chunks: Seq<pages::Chunk>,
    of: Seq<Seq<pages::PageView>>,
) -> Option<nat>
    decreases levels, 1nat, types.len(),
{
    if types.len() == 0 {
        Some(first)
    } else {
        match all_maps_end(types.drop_last(), levels, first, chunks, of) {
            None => None,
            Some(next) => maps_end(types.last(), levels, next, chunks, of),
        }
    }
}

/// What pages hold, column by column.
pub open spec fn plain_lists(of: Seq<Seq<ParquetPage>>) -> Seq<Seq<pages::PageView>> {
    of.map_values(|ps: Seq<ParquetPage>| parquet_file::pages_in(ps))
}

/// The types of columns.
pub open spec fn column_types(columns: Seq<parquet_file::ColumnView>) -> Seq<DataType> {
    columns.map_values(|c: parquet_file::ColumnView| parquet_file::field_type(c.field))
}

/// Whether a group of rows can be read, with its columns' pages: it has the columns
/// that the schema says, as many of them text, every column's pages can be decoded,
/// and the columns of every map agree.
pub open spec fn group_readable(
    g: pages::GroupView,
    of: Seq<Seq<ParquetPage>>,
    types: Seq<DataType>,
    texts: nat,
) -> bool {
    &&& pages::texts_of(g.chunks) == texts
    &&& of.len() == g.chunks.len()
    &&& all_maps_end(types, parquet_file::NESTING, 0, g.chunks, plain_lists(of)) == Some(
        g.chunks.len(),
    )
    &&& forall|c: int|
        0 <= c < g.chunks.len() ==> pages::pages_sound(
            #[trigger] g.chunks[c],
            parquet_file::pages_in(of[c]),
            0,
            None,
        )
}

/// Whether every group of rows is laid out.
pub open spec fn all_laid_out(gs: Seq<pages::GroupView>) -> bool {
    forall|g: int| 0 <= g < gs.len() ==> pages::laid_out(#[trigger] gs[g])
}

/// Whether the pages of every group of rows stand one after the other.
pub open spec fn all_headed(file: Seq<u8>, gs: Seq<pages::GroupView>) -> bool {
    forall|g: int| 0 <= g < gs.len() ==> headers::group_headed(file, #[trigger] gs[g])
}

/// Whether every group of rows can be read.
pub open spec fn groups_readable(
    gs: Seq<pages::GroupView>,
    of: Seq<Seq<Seq<ParquetPage>>>,
    types: Seq<DataType>,
    texts: nat,
) -> bool {
    &&& of.len() == gs.len()
    &&& forall|g: int| 0 <= g < gs.len() ==> group_readable(#[trigger] gs[g], of[g], types, texts)
}

/// Whether a file's rows can be read.
pub open spec fn readable(file: Seq<u8>) -> bool {
    &&& footer::bounded(file)
    &&& parquet_file::segment_schema(file) matches Ok(s) && {
        &&& all_readable(column_types(s.columns), parquet_file::NESTING, LONGEST)
        &&& parquet_file::segment_groups(file) matches Ok(gs) && {
            &&& all_laid_out(gs)
            &&& all_headed(file, gs)
            &&& parquet_file::segment_pages(file) matches Ok(of) && groups_readable(
                gs,
                of,
                column_types(s.columns),
                texts_in_all(column_types(s.columns), parquet_file::NESTING),
            )
        }
    }
}

/// What is said of a file whose schema is not walked.
pub open spec fn not_walked() -> Seq<char> {
    "its schema is nested too deep, or is not written as a schema is"@
}

/// What is said of a file whose rows are not read.
pub open spec fn not_read() -> Seq<char> {
    "its rows are not in a form that is read"@
}

/// What a file says of its columns.
pub open spec fn schema_in(file: Seq<u8>) -> Result<parquet_file::SchemaView, Seq<char>> {
    if footer::bounded(file) {
        parquet_file::segment_schema(file)
    } else {
        Err(not_walked())
    }
}

/// A file's rows.
pub open spec fn rows_in(file: Seq<u8>) -> Result<
    parquet_file::ReadView,
    parquet_file::ReadFaultView,
> {
    match schema_in(file) {
        Err(t) => Err(parquet_file::ReadFaultView::Open(t)),
        Ok(_) => if readable(file) {
            parquet_file::segment_rows(file)
        } else {
            Err(parquet_file::ReadFaultView::Read(not_read()))
        },
    }
}

// ------------------------------------------------------------ looking at types

fn is_dictionary_readable(key: &DataType, value: &DataType) -> (r: bool)
    ensures
        r == dictionary_readable(*key, *value),
{
    is_text_type(value) || is_bytes_type(value) || (width_of_type(value).is_some()
        && match width_of_type(key) {
        Some(n) => n >= KEY_BYTES,
        None => false,
    })
}

fn is_leaf(t: &DataType) -> (r: bool)
    ensures
        r == (parquet_file::kind_of(*t) == parquet_file::KindView::Leaf),
{
    match kind(t) {
        Kind::Leaf => true,
        _ => false,
    }
}

fn is_flat(t: &DataType, levels: u16) -> (r: bool)
    ensures
        r == flat(*t, levels),
    decreases levels, 0nat,
{
    if levels == 0 {
        return false;
    }
    match kind(t) {
        Kind::Leaf => match leaf(t) {
            Leaf::Plain => true,
            Leaf::Time32(_) => true,
            Leaf::Time64(_) => true,
            _ => false,
        },
        Kind::Record(types) => are_flat(&types, levels - 1),
        _ => false,
    }
}

fn are_flat(types: &Vec<DataType>, levels: u16) -> (r: bool)
    ensures
        r == all_flat(types@, levels),
    decreases levels, 1nat,
{
    let mut i: usize = 0;
    while i < types.len()
        invariant
            i <= types@.len(),
            forall|k: int| 0 <= k < i ==> flat(#[trigger] types@[k], levels),
        decreases types@.len() - i,
    {
        if !is_flat(&types[i], levels) {
            return false;
        }
        i += 1;
    }
    true
}

fn is_type_readable(t: &DataType, levels: u16, longest: i32) -> (r: bool)
    requires
        longest >= 0,
    ensures
        r == type_readable(*t, levels, longest),
    decreases levels, 0nat,
{
    if levels == 0 {
        return false;
    }
    let below: u16 = levels - 1;
    match kind(t) {
        Kind::Leaf => true,
        Kind::List(item) => is_type_readable(&item, below, longest),
        Kind::FixedList(item, n) => {
            if n <= 0 || n > longest {
                return false;
            }
            proof {
                assert(0 <= longest / n <= longest) by (nonlinear_arith)
                    requires
                        longest >= 0,
                        n > 0,
                ;
            }
            is_type_readable(&item, below, longest / n)
        },
        Kind::Record(types) => are_readable(&types, below, longest),
        Kind::Entries(entry) => {
            let keyed: bool = match kind(&entry) {
                Kind::Record(types) => types.len() == 2 && is_leaf(&types[0]),
                _ => false,
            };
            keyed && is_flat(&entry, below)
        },
        Kind::Union => false,
        Kind::Dictionary(key, value) => is_dictionary_readable(&key, &value),
        Kind::Runs(_, _) => false,
    }
}

fn are_readable(types: &Vec<DataType>, levels: u16, longest: i32) -> (r: bool)
    requires
        longest >= 0,
    ensures
        r == all_readable(types@, levels, longest),
    decreases levels, 1nat,
{
    let mut i: usize = 0;
    while i < types.len()
        invariant
            i <= types@.len(),
            longest >= 0,
            forall|k: int| 0 <= k < i ==> type_readable(#[trigger] types@[k], levels, longest),
        decreases types@.len() - i,
    {
        if !is_type_readable(&types[i], levels, longest) {
            return false;
        }
        i += 1;
    }
    true
}

fn count_texts(t: &DataType, levels: u16) -> (r: Option<usize>)
    ensures
        match r {
            Some(n) => n == texts_in(*t, levels),
            None => texts_in(*t, levels) > usize::MAX,
        },
    decreases levels, 0nat,
{
    if levels == 0 {
        return Some(0);
    }
    let below: u16 = levels - 1;
    match kind(t) {
        Kind::Leaf => if is_text_type(t) {
            Some(1)
        } else {
            Some(0)
        },
        Kind::List(item) => count_texts(&item, below),
        Kind::FixedList(item, _) => count_texts(&item, below),
        Kind::Record(types) => count_all_texts(&types, below),
        Kind::Entries(entry) => count_texts(&entry, below),
        Kind::Union => Some(0),
        Kind::Dictionary(_, value) => count_texts(&value, below),
        Kind::Runs(_, value) => count_texts(&value, below),
    }
}

proof fn lemma_texts_grow(types: Seq<DataType>, n: int, levels: u16)
    requires
        0 <= n <= types.len(),
    ensures
        texts_in_all(types.take(n), levels) <= texts_in_all(types, levels),
    decreases types.len() - n,
{
    if n == types.len() {
        assert(types.take(n) =~= types);
    } else {
        lemma_texts_grow(types, n + 1, levels);
        assert(types.take(n + 1).drop_last() =~= types.take(n));
    }
}

fn count_all_texts(types: &Vec<DataType>, levels: u16) -> (r: Option<usize>)
    ensures
        match r {
            Some(n) => n == texts_in_all(types@, levels),
            None => texts_in_all(types@, levels) > usize::MAX,
        },
    decreases levels, 1nat,
{
    let mut n: usize = 0;
    let mut i: usize = 0;
    while i < types.len()
        invariant
            i <= types@.len(),
            n == texts_in_all(types@.take(i as int), levels),
        decreases types@.len() - i,
    {
        proof {
            assert(types@.take(i + 1).drop_last() =~= types@.take(i as int));
            lemma_texts_grow(types@, i + 1, levels);
        }
        match count_texts(&types[i], levels) {
            None => {
                return None;
            },
            Some(more) => match n.checked_add(more) {
                None => {
                    return None;
                },
                Some(sum) => {
                    n = sum;
                },
            },
        }
        i += 1;
    }
    assert(types@.take(i as int) =~= types@);
    Some(n)
}

fn types_of(columns: &Vec<Column>) -> (r: Vec<DataType>)
    ensures
        r@ == column_types(seqs::views(columns@)),
{
    let mut out: Vec<DataType> = Vec::new();
    let mut i: usize = 0;
    while i < columns.len()
        invariant
            i <= columns@.len(),
            out@ == column_types(seqs::views(columns@).take(i as int)),
        decreases columns@.len() - i,
    {
        let ghost all = seqs::views(columns@);
        assert(all[i as int] == columns@[i as int]@);
        out.push(type_of_field(&columns[i].field));
        assert(out@ =~= column_types(all.take(i + 1)));
        i += 1;
    }
    assert(seqs::views(columns@).take(i as int) =~= seqs::views(columns@));
    out
}

// ------------------------------------------------------------ looking at maps

fn check_maps(
    t: &DataType,
    levels: u16,
    first: usize,
    chunks: &Vec<pages::Chunk>,
    of: &Vec<Vec<pages::Page>>,
) -> (r: Option<usize>)
    ensures
        match maps_end(*t, levels, first as nat, chunks@, levels::page_rows(of@)) {
            Some(n) => r matches Some(m) && m == n,
            None => r is None,
        },
    decreases levels, 0nat,
{
    if levels == 0 {
        return None;
    }
    let below: u16 = levels - 1;
    match kind(t) {
        Kind::Leaf | Kind::Dictionary(_, _) | Kind::Runs(_, _) => if first < chunks.len() {
            Some(first + 1)
        } else {
            None
        },
        Kind::List(item) => check_maps(&item, below, first, chunks, of),
        Kind::FixedList(item, _) => check_maps(&item, below, first, chunks, of),
        Kind::Record(types) => check_all_maps(&types, below, first, chunks, of),
        Kind::Entries(entry) => match check_maps(&entry, below, first, chunks, of) {
            None => None,
            Some(end) => if check_entries(chunks, of, first, end) {
                Some(end)
            } else {
                None
            },
        },
        Kind::Union => None,
    }
}

proof fn lemma_maps_stop(
    types: Seq<DataType>,
    n: int,
    levels: u16,
    first: nat,
    chunks: Seq<pages::Chunk>,
    of: Seq<Seq<pages::PageView>>,
)
    requires
        0 <= n <= types.len(),
        all_maps_end(types.take(n), levels, first, chunks, of) is None,
    ensures
        all_maps_end(types, levels, first, chunks, of) is None,
    decreases types.len() - n,
{
    if n == types.len() {
        assert(types.take(n) =~= types);
    } else {
        assert(types.take(n + 1).drop_last() =~= types.take(n));
        lemma_maps_stop(types, n + 1, levels, first, chunks, of);
    }
}

fn check_all_maps(
    types: &Vec<DataType>,
    levels: u16,
    first: usize,
    chunks: &Vec<pages::Chunk>,
    of: &Vec<Vec<pages::Page>>,
) -> (r: Option<usize>)
    ensures
        match all_maps_end(types@, levels, first as nat, chunks@, levels::page_rows(of@)) {
            Some(n) => r matches Some(m) && m == n,
            None => r is None,
        },
    decreases levels, 1nat,
{
    let ghost rows = levels::page_rows(of@);
    let mut next: usize = first;
    let mut i: usize = 0;
    while i < types.len()
        invariant
            i <= types@.len(),
            rows == levels::page_rows(of@),
            all_maps_end(types@.take(i as int), levels, first as nat, chunks@, rows) == Some(
                next as nat,
            ),
        decreases types@.len() - i,
    {
        assert(types@.take(i + 1).drop_last() =~= types@.take(i as int));
        match check_maps(&types[i], levels, next, chunks, of) {
            None => {
                proof {
                    lemma_maps_stop(types@, i + 1, levels, first as nat, chunks@, rows);
                }
                return None;
            },
            Some(n) => {
                next = n;
            },
        }
        i += 1;
    }
    assert(types@.take(i as int) =~= types@);
    Some(next)
}

// ------------------------------------------------------------ reading

fn are_laid_out(gs: &Vec<pages::Group>) -> (r: bool)
    ensures
        r == all_laid_out(seqs::views(gs@)),
{
    let ghost all = seqs::views(gs@);
    let mut i: usize = 0;
    while i < gs.len()
        invariant
            i <= gs@.len(),
            all == seqs::views(gs@),
            forall|g: int| 0 <= g < i ==> pages::laid_out(#[trigger] all[g]),
        decreases gs@.len() - i,
    {
        assert(all[i as int] == gs@[i as int]@);
        if !pages::is_laid_out(&gs[i]) {
            return false;
        }
        i += 1;
    }
    true
}

fn are_headed(file: &Vec<u8>, gs: &Vec<pages::Group>) -> (r: bool)
    ensures
        r == all_headed(file@, seqs::views(gs@)),
{
    let ghost all = seqs::views(gs@);
    let mut i: usize = 0;
    while i < gs.len()
        invariant
            i <= gs@.len(),
            all == seqs::views(gs@),
            forall|g: int| 0 <= g < i ==> headers::group_headed(file@, #[trigger] all[g]),
        decreases gs@.len() - i,
    {
        assert(all[i as int] == gs@[i as int]@);
        if !is_headed(file, &gs[i]) {
            return false;
        }
        i += 1;
    }
    true
}

fn plain_pages(of: &Vec<ParquetPage>) -> (r: Vec<pages::Page>)
    ensures
        seqs::views(r@) == parquet_file::pages_in(of@),
{
    let mut out: Vec<pages::Page> = Vec::new();
    let mut i: usize = 0;
    while i < of.len()
        invariant
            i <= of@.len(),
            seqs::views(out@) == parquet_file::pages_in(of@.take(i as int)),
        decreases of@.len() - i,
    {
        out.push(plain_page(&of[i]));
        assert(seqs::views(out@) =~= parquet_file::pages_in(of@.take(i + 1)));
        i += 1;
    }
    assert(of@.take(i as int) =~= of@);
    out
}

fn plain_columns(of: &Vec<Vec<ParquetPage>>) -> (r: Vec<Vec<pages::Page>>)
    ensures
        r@.len() == of@.len(),
        levels::page_rows(r@) == plain_lists(parquet_file::page_lists(of@)),
{
    let ghost lists = parquet_file::page_lists(of@);
    let mut out: Vec<Vec<pages::Page>> = Vec::new();
    let mut i: usize = 0;
    while i < of.len()
        invariant
            i <= of@.len(),
            lists == parquet_file::page_lists(of@),
            out@.len() == i,
            forall|k: int|
                0 <= k < i ==> seqs::views((#[trigger] out@[k])@) == parquet_file::pages_in(
                    lists[k],
                ),
        decreases of@.len() - i,
    {
        assert(lists[i as int] == of@[i as int]@);
        out.push(plain_pages(&of[i]));
        i += 1;
    }
    assert(levels::page_rows(out@) =~= plain_lists(lists));
    out
}

fn is_group_readable(
    g: &pages::Group,
    of: &Vec<Vec<ParquetPage>>,
    types: &Vec<DataType>,
    texts: usize,
) -> (r: bool)
    ensures
        r == group_readable(g@, parquet_file::page_lists(of@), types@, texts as nat),
{
    if pages::count_texts(g) != texts || of.len() != g.chunks.len() {
        return false;
    }
    let ghost lists = parquet_file::page_lists(of@);
    let plain = plain_columns(of);
    let ghost rows = levels::page_rows(plain@);
    match check_all_maps(types, parquet_file::NESTING, 0, &g.chunks, &plain) {
        None => {
            return false;
        },
        Some(n) => {
            if n != g.chunks.len() {
                return false;
            }
        },
    }
    let mut c: usize = 0;
    while c < plain.len()
        invariant
            c <= plain@.len(),
            plain@.len() == g.chunks@.len(),
            lists == parquet_file::page_lists(of@),
            lists.len() == plain@.len(),
            rows == levels::page_rows(plain@),
            rows == plain_lists(lists),
            forall|k: int|
                0 <= k < c ==> pages::pages_sound(
                    #[trigger] g@.chunks[k],
                    parquet_file::pages_in(lists[k]),
                    0,
                    None,
                ),
        decreases plain@.len() - c,
    {
        assert(rows[c as int] == seqs::views(plain@[c as int]@));
        assert(rows[c as int] == parquet_file::pages_in(lists[c as int]));
        if !pages::can_decode(&g.chunks[c], &plain[c]) {
            assert(!pages::pages_sound(
                g@.chunks[c as int],
                parquet_file::pages_in(lists[c as int]),
                0,
                None,
            ));
            return false;
        }
        c += 1;
    }
    true
}

fn are_groups_readable(
    gs: &Vec<pages::Group>,
    of: &Vec<Vec<Vec<ParquetPage>>>,
    types: &Vec<DataType>,
    texts: usize,
) -> (r: bool)
    ensures
        r == groups_readable(
            seqs::views(gs@),
            parquet_file::page_tables(of@),
            types@,
            texts as nat,
        ),
{
    if of.len() != gs.len() {
        return false;
    }
    let ghost all = seqs::views(gs@);
    let ghost tables = parquet_file::page_tables(of@);
    let mut i: usize = 0;
    while i < gs.len()
        invariant
            i <= gs@.len(),
            of@.len() == gs@.len(),
            all == seqs::views(gs@),
            tables == parquet_file::page_tables(of@),
            forall|g: int|
                0 <= g < i ==> group_readable(#[trigger] all[g], tables[g], types@, texts as nat),
        decreases gs@.len() - i,
    {
        assert(all[i as int] == gs@[i as int]@);
        assert(tables[i as int] == parquet_file::page_lists(of@[i as int]@));
        if !is_group_readable(&gs[i], &of[i], types, texts) {
            return false;
        }
        i += 1;
    }
    true
}

fn is_readable(file: &Vec<u8>, schema: &SegmentSchema) -> (r: bool)
    requires
        footer::bounded(file@),
        parquet_file::segment_schema(file@) == Ok::<parquet_file::SchemaView, Seq<char>>(schema@),
    ensures
        r == readable(file@),
{
    let types = types_of(&schema.columns);
    if !are_readable(&types, parquet_file::NESTING, LONGEST) {
        return false;
    }
    let gs = match read_groups(file) {
        Err(_) => {
            return false;
        },
        Ok(gs) => gs,
    };
    if !are_laid_out(&gs) || !are_headed(file, &gs) {
        return false;
    }
    match (read_pages(file), count_all_texts(&types, parquet_file::NESTING)) {
        (Ok(of), Some(texts)) => are_groups_readable(&gs, &of, &types, texts),
        (Ok(of), None) => {
            if gs.len() > 0 {
                let n: usize = pages::count_texts(&gs[0]);
                assert(seqs::views(gs@)[0] == gs@[0]@);
                return false;
            }
            of.len() == 0
        },
        _ => false,
    }
}

/// What a segment's file says of its columns.
pub fn read_schema(file: &Vec<u8>) -> (r: Result<SegmentSchema, String>)
    ensures
        match schema_in(file@) {
            Ok(s) => r matches Ok(x) && x@ == s,
            Err(t) => r matches Err(x) && x@ == t,
        },
{
    if footer::is_bounded(file) {
        open_schema(file)
    } else {
        Err(
            String::from_str("its schema is nested too deep, or is not written as a schema is"),
        )
    }
}

/// A segment's rows.
pub fn read_segment(file: &Vec<u8>) -> (r: Result<Read, ReadFault>)
    ensures
        r matches Ok(y) ==> forall|i: int|
            0 <= i < y.batches@.len() ==> (#[trigger] y.batches@[i]).rows
                <= parquet_file::BATCH_ROWS,
        match rows_in(file@) {
            Ok(x) => r matches Ok(y) && y@ == x,
            Err(e) => r matches Err(y) && y@ == e,
        },
{
    match read_schema(file) {
        Err(t) => Err(ReadFault::Open(t)),
        Ok(schema) => if is_readable(file, &schema) {
            read_rows(file)
        } else {
            Err(ReadFault::Read(String::from_str("its rows are not in a form that is read")))
        },
    }
}

} // verus!
