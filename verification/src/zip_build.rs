//! Zip archive building.
//!
//! The walked tree is handed over as a list of entries in walk order;
//! each becomes a directory or a file entry of the archive, and the
//! whole archive is materialized in memory and returned as one byte
//! buffer. The entry bookkeeping, the walk order and the conditions
//! under which the build succeeds are proved here; the wire format
//! itself is produced by the `zip` crate behind the trusted wrappers
//! below.

use vstd::prelude::*;
use crate::encoding::utf8_bytes;

verus! {

/// An archive build failed: the underlying writer refused an entry or
/// could not finish the archive.
#[derive(PartialEq, Eq, Structural, Debug, Clone, Copy)]
pub enum ArchiveError {
    Io,
}

/// One entry to store: its `/`-separated path relative to the archive
/// root, whether it is a directory, and for files the full contents.
#[derive(Debug)]
pub struct ZipEntry {
    pub path: String,
    pub is_directory: bool,
    pub content: Vec<u8>,
}

/// An in-memory zip writer of the `zip` crate; opaque here, described
/// only through `zip_contents`.
#[verifier::external_body]
pub struct ZipBuilder {
    inner: zip::ZipWriter<std::io::Cursor<Vec<u8>>>,
}

/// What a builder holds: the entries written so far, in order, each as
/// its stored name (directories carry the trailing slash the writer
/// adds), its directory flag and its uncompressed contents.
pub uninterp spec fn zip_contents(b: ZipBuilder) -> Seq<(Seq<char>, bool, Seq<u8>)>;

/// The archive bytes that the writer produces for a run of entries.
/// With no clock feature enabled the writer stamps a fixed default
/// time, so the bytes are a function of the entries alone; this names
/// that function.
pub uninterp spec fn zip_encoding(entries: Seq<(Seq<char>, bool, Seq<u8>)>) -> Seq<u8>;

/// The name under which the writer stores a directory: the given name
/// with a trailing slash, unless a slash or backslash already ends it.
pub open spec fn zip_dir_stored_name(name: Seq<char>) -> Seq<char> {
    if name.len() > 0 && (name.last() == '/' || name.last() == '\\') {
        name
    } else {
        name + seq!['/']
    }
}

/// The UTF-8 byte length of a text; the writer's name-length field
/// counts bytes, not characters.
pub open spec fn utf8_len(s: Seq<char>) -> nat
    decreases s.len(),
{
    if s.len() == 0 {
        0
    } else {
        utf8_len(s.drop_first()) + utf8_bytes(s[0]).len()
    }
}

/// The writer accepts a stored name against what it already holds when
/// the name's bytes fit the 16-bit name-length field and no earlier
/// entry bears the same stored name.
pub open spec fn zip_name_free(
    contents: Seq<(Seq<char>, bool, Seq<u8>)>,
    stored: Seq<char>,
) -> bool {
    &&& utf8_len(stored) <= 65535
    &&& forall|i: int| 0 <= i < contents.len() ==> (#[trigger] contents[i]).0 != stored
}

/// A file length the writer is sure to carry through Deflate. The
/// writer checks each entry's *compressed* size against the zip64
/// threshold when it closes the entry, and Deflate can expand
/// incompressible input; the compressor's own conservative worst case
/// for raw deflate is `len + (len + 7) / 8 + (len + 63) / 64 + 5`.
/// A length within this bound keeps even that worst case under the
/// threshold.
pub open spec fn zip_file_size_ok(len: nat) -> bool {
    len + (len + 7) / 8 + (len + 63) / 64 + 16 <= 0xFFFFFFFF
}

/// Relies on `zip::ZipWriter::new` over an in-memory cursor: a fresh
/// writer holding no entries.
#[verifier::external_body]
pub(crate) fn zip_builder_new() -> (b: ZipBuilder)
    ensures
        zip_contents(b) == Seq::<(Seq<char>, bool, Seq<u8>)>::empty(),
{
    ZipBuilder { inner: zip::ZipWriter::new(std::io::Cursor::new(Vec::new())) }
}

/// Relies on `zip::ZipWriter::add_directory`: it appends the trailing
/// slash itself, stores directories uncompressed, and succeeds exactly
/// when it accepts the stored name — its only failure modes over an
/// in-memory cursor are a duplicate name and a name beyond the 16-bit
/// length field, since closing the previous entry cannot fail: every
/// file a builder holds entered under `zip_add_file`'s size bound, so
/// its compressed size fits the field the writer then fills in. On
/// success exactly one directory entry is appended.
#[verifier::external_body]
pub(crate) fn zip_add_directory(b: &mut ZipBuilder, name: &str) -> (r: Result<(), ArchiveError>)
    ensures
        zip_name_free(zip_contents(*old(b)), zip_dir_stored_name(name@)) ==> r is Ok,
        r is Ok ==> zip_contents(*final(b)) == zip_contents(*old(b)).push(
            (zip_dir_stored_name(name@), true, Seq::<u8>::empty()),
        ),
{
    let options: zip::write::SimpleFileOptions = zip::write::FileOptions::default()
        .compression_method(zip::CompressionMethod::Deflated)
        .unix_permissions(0o755);
    b.inner.add_directory(name, options).map_err(|_| ArchiveError::Io)
}

/// Relies on `zip::ZipWriter::start_file` and `io::Write::write_all`:
/// over an in-memory cursor they succeed exactly when the writer
/// accepts the name. The size bound is required, not merely tested:
/// the writer checks the entry's compressed size against the zip64
/// threshold only when the entry is closed — at the next entry or at
/// the finish — so an oversized file would poison those later calls;
/// under the bound even worst-case Deflate expansion stays within the
/// threshold. On success exactly one file entry under the given name
/// is appended, Deflate-compressed with 0o755 permissions, holding
/// exactly the given bytes.
#[verifier::external_body]
pub(crate) fn zip_add_file(b: &mut ZipBuilder, name: &str, content: &Vec<u8>) -> (r: Result<
    (),
    ArchiveError,
>)
    requires
        zip_file_size_ok(content@.len()),
    ensures
        zip_name_free(zip_contents(*old(b)), name@) ==> r is Ok,
        r is Ok ==> zip_contents(*final(b)) == zip_contents(*old(b)).push(
            (name@, false, content@),
        ),
{
    let options: zip::write::SimpleFileOptions = zip::write::FileOptions::default()
        .compression_method(zip::CompressionMethod::Deflated)
        .unix_permissions(0o755);
    if b.inner.start_file(name, options).is_err() {
        return Err(ArchiveError::Io);
    }
    std::io::Write::write_all(&mut b.inner, content.as_slice()).map_err(|_| ArchiveError::Io)
}

/// Relies on `zip::ZipWriter::finish`: it writes the central directory
/// (switching to zip64 records itself where counts or offsets demand
/// them) and hands back the accumulated buffer, `zip_encoding` of the
/// entries written. Over an in-memory cursor nothing can fail: every
/// file the builder holds entered under `zip_add_file`'s size bound,
/// so closing the last entry fits its size field, and a refused add
/// rewinds cleanly before this point.
#[verifier::external_body]
pub(crate) fn zip_finish(b: ZipBuilder) -> (r: Result<Vec<u8>, ArchiveError>)
    ensures
        r is Ok,
        r matches Ok(bytes) ==> bytes@ == zip_encoding(zip_contents(b)),
{
    match b.inner.finish() {
        Ok(cursor) => Ok(cursor.into_inner()),
        Err(_) => Err(ArchiveError::Io),
    }
}

/// The name under which an entry is stored: directories carry the
/// trailing slash.
pub open spec fn zip_entry_stored_name(e: ZipEntry) -> Seq<char> {
    if e.is_directory {
        zip_dir_stored_name(e.path@)
    } else {
        e.path@
    }
}

/// What one entry contributes to the archive: its stored name, its
/// kind, and for files its contents.
pub open spec fn zip_entry_view(e: ZipEntry) -> (Seq<char>, bool, Seq<u8>) {
    (
        zip_entry_stored_name(e),
        e.is_directory,
        if e.is_directory {
            Seq::<u8>::empty()
        } else {
            e.content@
        },
    )
}

/// The written form of a run of entries, in order.
pub open spec fn zip_view(entries: Seq<ZipEntry>) -> Seq<(Seq<char>, bool, Seq<u8>)>
    decreases entries.len(),
{
    if entries.len() == 0 {
        Seq::empty()
    } else {
        zip_view(entries.drop_last()).push(zip_entry_view(entries.last()))
    }
}

proof fn lemma_zip_view_index(entries: Seq<ZipEntry>, k: int)
    requires
        0 <= k < entries.len(),
    ensures
        zip_view(entries).len() == entries.len(),
        zip_view(entries)[k] == zip_entry_view(entries[k]),
    decreases entries.len(),
{
    lemma_zip_view_len(entries);
    if k < entries.len() - 1 {
        lemma_zip_view_index(entries.drop_last(), k);
    }
}

proof fn lemma_zip_view_len(entries: Seq<ZipEntry>)
    ensures
        zip_view(entries).len() == entries.len(),
    decreases entries.len(),
{
    if entries.len() > 0 {
        lemma_zip_view_len(entries.drop_last());
    }
}

/// A walk the writer is sure to take: every stored name fits the
/// name-length field, file contents stay under the zip64 threshold,
/// and no two entries share a stored name.
pub open spec fn zip_entries_acceptable(entries: Seq<ZipEntry>) -> bool {
    forall|i: int|
        0 <= i < entries.len() ==> {
            &&& utf8_len(zip_entry_stored_name(#[trigger] entries[i])) <= 65535
            &&& (!entries[i].is_directory ==> zip_file_size_ok(entries[i].content@.len()))
            &&& (forall|j: int|
                0 <= j < i ==> zip_entry_stored_name(#[trigger] entries[j])
                    != zip_entry_stored_name(entries[i]))
        }
}

/// Builds the whole archive for a walked tree: one directory or file
/// entry per walked item, in walk order, then the central directory.
/// Any entry the writer refuses aborts the build with an error and no
/// partial archive; a walk of distinct, acceptable paths is owed
/// success.
pub fn build_zip(entries: &Vec<ZipEntry>) -> (r: Result<Vec<u8>, ArchiveError>)
    ensures
        r matches Ok(bytes) ==> bytes@ == zip_encoding(zip_view(entries@)),
        zip_entries_acceptable(entries@) ==> r is Ok,
{
    let mut b = zip_builder_new();
    proof {
        assert(entries@.take(0) =~= Seq::<ZipEntry>::empty());
    }
    let n = entries.len();
    let mut i: usize = 0;
    while i < n
        invariant
            0 <= i <= n,
            n == entries@.len(),
            zip_contents(b) == zip_view(entries@.take(i as int)),
        decreases n - i,
    {
        let e = &entries[i];
        if !e.is_directory {
            // The writer only learns an entry's compressed size when it
            // closes the entry, so the oversized case is refused here,
            // before the writer ever holds it.
            let len = e.content.len() as u64;
            if !(len <= 0xFFFFFFFF && len + (len + 7) / 8 + (len + 63) / 64 + 16 <= 0xFFFFFFFF) {
                proof {
                    assert(entries@[i as int] == *e);
                    assert(!zip_file_size_ok(e.content@.len()));
                    assert(!zip_entries_acceptable(entries@));
                }
                return Err(ArchiveError::Io);
            }
            proof {
                assert(zip_file_size_ok(e.content@.len()));
            }
        }
        proof {
            if zip_entries_acceptable(entries@) {
                let stored = zip_entry_stored_name(entries@[i as int]);
                lemma_zip_view_len(entries@.take(i as int));
                assert(zip_contents(b).len() == i as int);
                assert forall|k: int| 0 <= k < zip_contents(b).len() implies (
                #[trigger] zip_contents(b)[k]).0 != stored by {
                    lemma_zip_view_index(entries@.take(i as int), k);
                    assert(entries@.take(i as int)[k] == entries@[k]);
                    assert(zip_entry_stored_name(entries@[k]) != stored);
                }
                assert(zip_name_free(zip_contents(b), stored));
            }
        }
        let res = if e.is_directory {
            zip_add_directory(&mut b, e.path.as_str())
        } else {
            zip_add_file(&mut b, e.path.as_str(), &e.content)
        };
        match res {
            Ok(()) => (),
            Err(err) => {
                proof {
                    assert(!zip_entries_acceptable(entries@));
                }
                return Err(err);
            },
        }
        proof {
            assert(entries@.take(i as int + 1).drop_last() =~= entries@.take(i as int));
            assert(entries@.take(i as int + 1).last() == entries@[i as int]);
        }
        i = i + 1;
    }
    proof {
        assert(entries@.take(n as int) =~= entries@);
    }
    zip_finish(b)
}

} // verus!
