use crate::errors::ShellError;
use std::io::Read;
use std::io::Write;
use vstd::prelude::*;

verus! {

// ---------- outside types ----------

#[verifier::external_type_specification]
#[verifier::external_body]
#[verifier::reject_recursive_types(T)]
pub struct ExCursor<T>(std::io::Cursor<T>);

#[verifier::external_type_specification]
#[verifier::external_body]
#[verifier::reject_recursive_types(R)]
pub struct ExZipArchive<R>(zip::ZipArchive<R>);

/// An in-memory archive writer. Verus sees it opaquely; the entries
/// appended through the wrappers below are its model.
#[verifier::external_body]
pub struct PayloadZipWriter {
    inner: zip::ZipWriter<std::io::Cursor<Vec<u8>>>,
}

/// One archive entry as plain values: name bytes, uncompressed contents,
/// the compression method's wire code, and whether it is a directory.
pub type ZipEntryModel = (Seq<u8>, Seq<u8>, u16, bool);

/// An archive entry held by the library.
pub struct ArchiveEntry {
    pub name: Vec<u8>,
    pub data: Vec<u8>,
    pub method: u16,
    pub is_dir: bool,
}

impl View for ArchiveEntry {
    type V = ZipEntryModel;

    open spec fn view(&self) -> ZipEntryModel {
        (self.name@, self.data@, self.method, self.is_dir)
    }
}

// ---------- reading ----------

/// What a zip archive's bytes describe: its entries in central-directory
/// order, or nothing when the archive is malformed.
pub uninterp spec fn zip_parse(bytes: Seq<u8>) -> Option<Seq<ZipEntryModel>>;

/// The entries an open archive reader holds, in central-directory order.
pub uninterp spec fn zip_entries(z: zip::ZipArchive<std::io::Cursor<Vec<u8>>>) -> Seq<
    ZipEntryModel,
>;

/// Whether the entry at position `i` of the archive described by `bytes` can
/// be read back: its compressed data located and decompressed. A function of
/// the bytes alone.
pub uninterp spec fn zip_readable(bytes: Seq<u8>, i: int) -> bool;

/// The same readability, spoken of an open reader; `zip_open` ties it to
/// `zip_readable` of the bytes the reader was opened over.
pub uninterp spec fn zip_entry_ok(z: zip::ZipArchive<std::io::Cursor<Vec<u8>>>, i: int) -> bool;

/// Relies on zip's `ZipArchive::new` over an in-memory cursor: parses the
/// central directory, failing exactly on a malformed archive; what it reads
/// is a function of the bytes alone.
#[verifier::external_body]
pub fn zip_open(bytes: Vec<u8>) -> (r: Result<
    zip::ZipArchive<std::io::Cursor<Vec<u8>>>,
    ShellError,
>)
    ensures
        r matches Ok(z) ==> zip_parse(bytes@) == Some(zip_entries(z)),
        r matches Ok(z) ==> forall|i: int| #[trigger] zip_entry_ok(z, i) == zip_readable(bytes@, i),
        r is Err ==> zip_parse(bytes@) is None,
        r matches Err(e) ==> e == ShellError::ArchiveError,
{
    match zip::ZipArchive::new(std::io::Cursor::new(bytes)) {
        Ok(z) => Ok(z),
        Err(_) => Err(ShellError::ArchiveError),
    }
}

/// Relies on zip's `ZipArchive::len`: the number of entries in the central
/// directory.
#[verifier::external_body]
pub fn zip_len(z: &zip::ZipArchive<std::io::Cursor<Vec<u8>>>) -> (r: usize)
    ensures
        r == zip_entries(*z).len(),
{
    z.len()
}

/// Relies on zip's `ZipArchive::by_index` and the entry reader it returns:
/// the entry's decoded name, decompressed contents, compression method code,
/// and directory flag. Reading moves the cursor but not the entry table. The
/// name comes from the crate's UTF-8 decoding of the stored name.
#[verifier::external_body]
#[allow(deprecated)]
pub fn zip_entry(z: &mut zip::ZipArchive<std::io::Cursor<Vec<u8>>>, i: usize) -> (r: Result<
    ArchiveEntry,
    ShellError,
>)
    requires
        i < zip_entries(*old(z)).len(),
    ensures
        zip_entries(*final(z)) == zip_entries(*old(z)),
        forall|j: int| #[trigger] zip_entry_ok(*final(z), j) == zip_entry_ok(*old(z), j),
        r is Ok <==> zip_entry_ok(*old(z), i as int),
        r matches Ok(e) ==> e@ == zip_entries(*old(z))[i as int],
        r matches Ok(e) ==> vstd::utf8::valid_utf8(e@.0),
        r matches Err(e) ==> e == ShellError::ArchiveError,
{
    let mut file = match z.by_index(i) {
        Ok(f) => f,
        Err(_) => return Err(ShellError::ArchiveError),
    };
    let name = file.name().as_bytes().to_vec();
    let method = file.compression().to_u16();
    let is_dir = file.is_dir();
    let mut data = Vec::new();
    if file.read_to_end(&mut data).is_err() {
        return Err(ShellError::ArchiveError);
    }
    Ok(ArchiveEntry { name, data, method, is_dir })
}


/// Relies on zip's `ZipArchive::name_for_index`: the decoded name of one
/// entry, read from the table without touching the entry's data.
#[verifier::external_body]
pub fn zip_entry_name(z: &zip::ZipArchive<std::io::Cursor<Vec<u8>>>, i: usize) -> (r: Vec<u8>)
    requires
        i < zip_entries(*z).len(),
    ensures
        r@ == zip_entries(*z)[i as int].0,
{
    match z.name_for_index(i) {
        Some(name) => name.as_bytes().to_vec(),
        None => Vec::new(),
    }
}

// ---------- writing ----------

/// The entries appended to a writer so far, in order.
pub uninterp spec fn zip_written(w: PayloadZipWriter) -> Seq<ZipEntryModel>;

/// The bytes a finished writer produces for a list of entries; a function of
/// the entries alone.
pub uninterp spec fn zip_encode(entries: Seq<ZipEntryModel>) -> Seq<u8>;

/// Whether the writer accepts appending an entry under this name and method
/// code after the given entries: the name converts and is no duplicate, and
/// the method is one the writer can produce. A function of the arguments
/// alone. It speaks only of entries whose data fits the writer's 4 GiB
/// per-entry cap; the append wrapper requires that bound.
pub uninterp spec fn zip_accepts(written: Seq<ZipEntryModel>, name: Seq<u8>, method: u16) -> bool;

/// Every entry's data fits the writer's per-entry cap: without the
/// large-file option the writer refuses to put more than `u32::MAX` bytes
/// into one entry.
pub open spec fn spec_entries_fit_u32(entries: Seq<ZipEntryModel>) -> bool {
    forall|k: int| 0 <= k < entries.len() ==> (#[trigger] entries[k]).1.len() <= 0xffff_ffff
}

/// Whether closing a writer over the given entries succeeds; a function of
/// the entries alone.
pub uninterp spec fn zip_finish_ok(entries: Seq<ZipEntryModel>) -> bool;

/// Every step of writing this entry list in order is accepted: each entry
/// under its name and method code, after the ones before it.
pub open spec fn spec_appends_accepted(entries: Seq<ZipEntryModel>) -> bool {
    forall|k: int|
        0 <= k < entries.len() ==> zip_accepts(
            entries.take(k),
            (#[trigger] entries[k]).0,
            entries[k].2,
        )
}

/// A fitting prefix stays fitting after one more fitting append.
pub proof fn lemma_fit_extend(pre: Seq<ZipEntryModel>, e: ZipEntryModel)
    requires
        spec_entries_fit_u32(pre),
        e.1.len() <= 0xffff_ffff,
    ensures
        spec_entries_fit_u32(pre + seq![e]),
{
    let cur = pre + seq![e];
    assert forall|k: int| 0 <= k < cur.len() implies (#[trigger] cur[k]).1.len()
        <= 0xffff_ffff by {
        if k < pre.len() {
            assert(cur[k] == pre[k]);
        }
    }
}

/// An oversized entry anywhere inside a list refutes the whole list's fit.
pub proof fn lemma_not_fit_at(full: Seq<ZipEntryModel>, pre: Seq<ZipEntryModel>, e: ZipEntryModel)
    requires
        pre.len() + 1 <= full.len(),
        pre + seq![e] == full.take(pre.len() as int + 1),
        e.1.len() > 0xffff_ffff,
    ensures
        !spec_entries_fit_u32(full),
{
    let k = pre.len() as int;
    assert(full[k] == full.take(k + 1)[k]);
    assert(full[k] == e);
}

/// An accepted prefix stays accepted after one more accepted append.
pub proof fn lemma_accepted_extend(pre: Seq<ZipEntryModel>, e: ZipEntryModel)
    requires
        spec_appends_accepted(pre),
        zip_accepts(pre, e.0, e.2),
    ensures
        spec_appends_accepted(pre + seq![e]),
{
    let cur = pre + seq![e];
    assert forall|k: int| 0 <= k < cur.len() implies zip_accepts(
        cur.take(k),
        (#[trigger] cur[k]).0,
        cur[k].2,
    ) by {
        if k < pre.len() {
            assert(cur.take(k) =~= pre.take(k));
            assert(cur[k] == pre[k]);
        } else {
            assert(cur.take(k) =~= pre);
        }
    }
}

/// A rejected append anywhere inside a list refutes the whole list.
pub proof fn lemma_not_accepted_at(full: Seq<ZipEntryModel>, pre: Seq<ZipEntryModel>, e: ZipEntryModel)
    requires
        pre.len() + 1 <= full.len(),
        pre + seq![e] == full.take(pre.len() as int + 1),
        !zip_accepts(pre, e.0, e.2),
    ensures
        !spec_appends_accepted(full),
{
    let k = pre.len() as int;
    assert(full.take(k) =~= pre) by {
        assert(full.take(k) =~= full.take(k + 1).take(k));
        assert((pre + seq![e]).take(k) =~= pre);
    }
    assert(full[k] == full.take(k + 1)[k]);
    assert(full[k] == e);
}

/// A directory entry's stored name: the writer appends a slash unless the
/// name already ends with one.
pub open spec fn spec_dir_name(name: Seq<u8>) -> Seq<u8> {
    if name.len() > 0 && (name.last() == 0x2f || name.last() == 0x5c) {
        name
    } else {
        name + seq![0x2fu8]
    }
}

/// Relies on zip's `ZipWriter::new` over an in-memory cursor: a writer with
/// nothing appended.
#[verifier::external_body]
pub fn zip_writer_new() -> (w: PayloadZipWriter)
    ensures
        zip_written(w) == Seq::<ZipEntryModel>::empty(),
{
    PayloadZipWriter { inner: zip::ZipWriter::new(std::io::Cursor::new(Vec::new())) }
}

/// Relies on zip's `ZipWriter::start_file` and `Write::write_all`: appends
/// one file entry with the given compression method code and contents,
/// succeeding exactly when the writer accepts the name and method; a
/// rejected entry leaves the written list unchanged before any byte of it
/// is written. Without the large-file option the writer refuses data past
/// `u32::MAX` bytes mid-write, so that bound is required here and callers
/// test it first.
#[verifier::external_body]
#[allow(deprecated)]
pub fn zip_append_file(
    w: &mut PayloadZipWriter,
    name: &Vec<u8>,
    method: u16,
    data: &Vec<u8>,
) -> (r: Result<(), ShellError>)
    requires
        data@.len() <= 0xffff_ffff,
    ensures
        r is Ok <==> zip_accepts(zip_written(*old(w)), name@, method),
        r is Ok ==> zip_written(*final(w)) == zip_written(*old(w)) + seq![
            (name@, data@, method, false),
        ],
        r is Err ==> zip_written(*final(w)) == zip_written(*old(w)),
        r matches Err(e) ==> e == ShellError::ArchiveError,
{
    let name_str = match core::str::from_utf8(name.as_slice()) {
        Ok(s) => s,
        Err(_) => return Err(ShellError::ArchiveError),
    };
    let options = zip::write::SimpleFileOptions::default().compression_method(
        zip::CompressionMethod::from_u16(method),
    );
    if w.inner.start_file(name_str, options).is_err() {
        return Err(ShellError::ArchiveError);
    }
    if w.inner.write_all(data.as_slice()).is_err() {
        return Err(ShellError::ArchiveError);
    }
    Ok(())
}

/// Relies on zip's `ZipWriter::add_directory`: appends one directory entry,
/// stored uncompressed, with a slash appended to the name unless present;
/// succeeds exactly when the writer accepts that name stored uncompressed.
#[verifier::external_body]
pub fn zip_append_dir(w: &mut PayloadZipWriter, name: &Vec<u8>) -> (r: Result<(), ShellError>)
    ensures
        r is Ok <==> zip_accepts(zip_written(*old(w)), spec_dir_name(name@), 0u16),
        r is Ok ==> zip_written(*final(w)) == zip_written(*old(w)) + seq![
            (spec_dir_name(name@), Seq::<u8>::empty(), 0u16, true),
        ],
        r is Err ==> zip_written(*final(w)) == zip_written(*old(w)),
        r matches Err(e) ==> e == ShellError::ArchiveError,
{
    let name_str = match core::str::from_utf8(name.as_slice()) {
        Ok(s) => s,
        Err(_) => return Err(ShellError::ArchiveError),
    };
    let options = zip::write::SimpleFileOptions::default();
    if w.inner.add_directory(name_str, options).is_err() {
        return Err(ShellError::ArchiveError);
    }
    Ok(())
}

/// Relies on zip's `ZipWriter::finish`: closes the archive and returns its
/// bytes, a function of the appended entries alone; whether closing succeeds
/// depends on the entries alone as well.
#[verifier::external_body]
pub fn zip_finish(w: PayloadZipWriter) -> (r: Result<Vec<u8>, ShellError>)
    ensures
        r is Ok <==> zip_finish_ok(zip_written(w)),
        r matches Ok(b) ==> b@ == zip_encode(zip_written(w)),
        r matches Err(e) ==> e == ShellError::ArchiveError,
{
    match w.inner.finish() {
        Ok(cursor) => Ok(cursor.into_inner()),
        Err(_) => Err(ShellError::ArchiveError),
    }
}

} // verus!
