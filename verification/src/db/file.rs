//! The file an archive is kept in: what it has to be, and how a connection to
//! it is set up.

use vstd::prelude::*;

use crate::error::{Error, ErrorView};
use crate::text;
use crate::text::append_signed;

verus! {

/// The schema an archive is written with, recorded once at creation.
pub const SCHEMA_VERSION: i64 = 4;

/// The older schema that is read through views, and never written.
pub const LEGACY_SCHEMA_VERSION: i64 = 3;

/// The cap on the sidecar that holds recent commits, in bytes rather than in
/// pages, so that it does not track the page size.
pub const WAL_AUTOCHECKPOINT_BYTES: u32 = 4_194_304;

/// The page cache of a connection that reads segments back, in negative
/// kibibytes.
pub const READER_CACHE_SIZE_KIB: i32 = -262_144;

/// The page cache of a connection that only writes: it never reads a segment
/// back, and does not give memory back either.
pub const WRITER_CACHE_SIZE_KIB: i32 = -16_384;

/// A writer's page cache is smaller than a reader's. Both count in negative
/// kibibytes, so the smaller cache is the greater number.
pub proof fn law_a_writer_has_the_smaller_cache()
    ensures
        READER_CACHE_SIZE_KIB < WRITER_CACHE_SIZE_KIB < 0,
{
}

// ------------------------------------------------------------ images

/// How every file of this kind begins.
pub open spec fn magic() -> Seq<u8> {
    seq![
        0x53u8,
        0x51u8,
        0x4Cu8,
        0x69u8,
        0x74u8,
        0x65u8,
        0x20u8,
        0x66u8,
        0x6Fu8,
        0x72u8,
        0x6Du8,
        0x61u8,
        0x74u8,
        0x20u8,
        0x33u8,
        0x00u8,
    ]
}

/// Whether bytes begin as such a file does, and go on far enough to say how its
/// journal is kept.
pub open spec fn is_file(b: Seq<u8>) -> bool {
    b.len() >= 20 && b.take(16) == magic()
}

/// Whether a file says that its journal is a sidecar.
pub open spec fn keeps_sidecar(b: Seq<u8>) -> bool {
    b[18] == 2 && b[19] == 2
}

/// A file as an image to be held in memory, where there is no sidecar to write:
/// it then says that its journal is rolled back. A file format that is not known
/// is left as it is, to be refused rather than misread.
pub open spec fn image_of(b: Seq<u8>) -> Seq<u8> {
    if keeps_sidecar(b) {
        b.update(18, 1).update(19, 1)
    } else {
        b
    }
}

fn begins_with_magic(b: &Vec<u8>) -> (r: bool)
    requires
        b@.len() >= 16,
    ensures
        r == (b@.take(16) == magic()),
{
    let expected: [u8; 16] = [
        0x53,
        0x51,
        0x4C,
        0x69,
        0x74,
        0x65,
        0x20,
        0x66,
        0x6F,
        0x72,
        0x6D,
        0x61,
        0x74,
        0x20,
        0x33,
        0x00,
    ];
    assert(expected@ =~= magic());
    let mut i: usize = 0;
    while i < 16
        invariant
            i <= 16,
            b@.len() >= 16,
            expected@ == magic(),
            b@.take(i as int) == magic().take(i as int),
        decreases 16 - i,
    {
        if b[i] != expected[i] {
            assert(b@.take(16)[i as int] != magic()[i as int]);
            return false;
        }
        assert(b@.take(i + 1) =~= b@.take(i as int).push(b@[i as int]));
        assert(magic().take(i + 1) =~= magic().take(i as int).push(magic()[i as int]));
        i += 1;
    }
    assert(magic().take(16) =~= magic());
    true
}

/// Make an archive's bytes an image that can be opened in memory.
pub fn memory_image(bytes: Vec<u8>) -> (r: Result<Vec<u8>, Error>)
    ensures
        is_file(bytes@) ==> (r matches Ok(b) && b@ == image_of(bytes@)),
        !is_file(bytes@) ==> (r matches Err(e) && e@ == ErrorView::Message(
            "not a dendro archive (SQLite)"@,
        )),
{
    if bytes.len() < 20 || !begins_with_magic(&bytes) {
        return Err(Error::Message(String::from_str("not a dendro archive (SQLite)")));
    }
    let mut out = bytes;
    if out[18] == 2 && out[19] == 2 {
        out.set(18, 1);
        out.set(19, 1);
    }
    Ok(out)
}

/// Why an image without a catalog is refused.
pub open spec fn no_catalog() -> ErrorView {
    ErrorView::Message(
        "not a dendro archive, or a copy taken while it was still being written — an archive's most recent pages live in a `-wal` sidecar that a single copied file does not carry. Take the copy with `Db::vacuum_into`, which reads through the sidecar without stopping the writer"@,
    )
}

/// Refuse an image that holds no catalog, given how many tables it has that go
/// by the catalog's name, now or in the older schema.
pub fn check_catalog(tables: i64) -> (r: Result<(), Error>)
    ensures
        tables > 0 ==> r is Ok,
        tables <= 0 ==> (r matches Err(e) && e@ == no_catalog()),
{
    if tables > 0 {
        Ok(())
    } else {
        Err(
            Error::Message(
                String::from_str(
                    "not a dendro archive, or a copy taken while it was still being written — an archive's most recent pages live in a `-wal` sidecar that a single copied file does not carry. Take the copy with `Db::vacuum_into`, which reads through the sidecar without stopping the writer",
                ),
            ),
        )
    }
}

// ------------------------------------------------------------ schemas

/// Whether a file is of the older schema, which is then read through views.
/// Any other version but the present one is refused rather than guessed at.
pub fn adopt_schema(version: i64) -> (r: Result<bool, Error>)
    ensures
        version == SCHEMA_VERSION ==> r == Ok::<bool, Error>(false),
        version == LEGACY_SCHEMA_VERSION ==> r == Ok::<bool, Error>(true),
        version != SCHEMA_VERSION && version != LEGACY_SCHEMA_VERSION ==> (r matches Err(e) && e@
            == (ErrorView::UnsupportedSchema {
            found: version,
            writes: SCHEMA_VERSION,
            reads: LEGACY_SCHEMA_VERSION,
        })),
{
    if version == SCHEMA_VERSION {
        Ok(false)
    } else if version == LEGACY_SCHEMA_VERSION {
        Ok(true)
    } else {
        Err(
            Error::UnsupportedSchema {
                found: version,
                writes: SCHEMA_VERSION,
                reads: LEGACY_SCHEMA_VERSION,
            },
        )
    }
}

// ------------------------------------------------------------ settings

/// How many pages the sidecar may grow to before it is folded back, for a file's
/// own page size.
pub fn autocheckpoint_pages(page_size: u32) -> (r: u32)
    ensures
        page_size > 0 ==> r == WAL_AUTOCHECKPOINT_BYTES / page_size,
        page_size == 0 ==> r == WAL_AUTOCHECKPOINT_BYTES,
{
    if page_size == 0 {
        WAL_AUTOCHECKPOINT_BYTES
    } else {
        WAL_AUTOCHECKPOINT_BYTES / page_size
    }
}

/// A setting that counts something, from the signed number it is kept as.
pub fn setting_as_count(name: &str, value: i64) -> (r: Result<u32, Error>)
    ensures
        0 <= value <= u32::MAX ==> r == Ok::<u32, Error>(value as u32),
        !(0 <= value <= u32::MAX) ==> (r matches Err(e) && e@ == ErrorView::Message(
            "pragma "@ + name@ + " is "@ + text::signed_decimal(value as int) + ", not a u32"@,
        )),
{
    if 0 <= value && value <= 0xFFFF_FFFF {
        return Ok(value as u32);
    }
    let mut s = String::from_str("pragma ");
    s.append(name);
    s.append(" is ");
    append_signed(&mut s, value);
    s.append(", not a u32");
    Err(Error::Message(s))
}

/// Whether text is `wal`, in letters of either case.
pub open spec fn names_wal(mode: Seq<char>) -> bool {
    &&& mode.len() == 3
    &&& (mode[0] == 'w' || mode[0] == 'W')
    &&& (mode[1] == 'a' || mode[1] == 'A')
    &&& (mode[2] == 'l' || mode[2] == 'L')
}

/// Refuse a file whose journal did not become a sidecar when it was asked to.
pub fn check_journal_mode(mode: &str) -> (r: Result<(), Error>)
    ensures
        names_wal(mode@) ==> r is Ok,
        !names_wal(mode@) ==> (r matches Err(e) && e@ == ErrorView::Message(
            "journal_mode is "@ + mode@ + ", expected wal"@,
        )),
{
    if mode.unicode_len() == 3 {
        let a = mode.get_char(0);
        let b = mode.get_char(1);
        let c = mode.get_char(2);
        if (a == 'w' || a == 'W') && (b == 'a' || b == 'A') && (c == 'l' || c == 'L') {
            return Ok(());
        }
    }
    let mut s = String::from_str("journal_mode is ");
    s.append(mode);
    s.append(", expected wal");
    Err(Error::Message(s))
}

/// A sidecar's path: the suffix goes behind the whole name, not in place of the
/// extension.
pub fn sidecar(path: &str, suffix: &str) -> (r: String)
    ensures
        r@ == path@ + suffix@,
{
    let mut s = String::from_str(path);
    s.append(suffix);
    s
}

} // verus!
