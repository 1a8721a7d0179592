use crate::archive::{
    spec_appends_accepted, spec_entries_fit_u32, zip_accepts, zip_append_file, zip_encode,
    zip_entries, zip_entry, zip_entry_name, zip_finish, zip_finish_ok, zip_len, zip_open,
    zip_parse, zip_readable, zip_writer_new, ZipEntryModel,
};
use crate::bytestr::{
    append_bytes, ascii_bytes, bytes_equal, copy_range, dec_digits, ends_with, push_decimal,
    starts_with, str_bytes,
};
use crate::codec::spec_parse_blob;
use crate::config::all_zero;
use crate::crypto::{
    decrypt_ok, decrypt_payload, decrypted_models, plain_models, sha256, sha256_of, PlainEntry,
    PlainModel,
};
use crate::errors::ShellError;
use crate::packer::{payload_path, spec_payload_path};
use vstd::prelude::*;

verus! {

// ---------- current ABI ----------

/// The native-library directory tag for a machine architecture name.
pub open spec fn spec_abi_for_arch(arch: Seq<u8>) -> Seq<u8> {
    if arch == ascii_bytes("aarch64"@) {
        ascii_bytes("arm64-v8a"@)
    } else if arch == ascii_bytes("arm"@) {
        ascii_bytes("armeabi-v7a"@)
    } else if arch == ascii_bytes("x86"@) {
        ascii_bytes("x86"@)
    } else if arch == ascii_bytes("x86_64"@) {
        ascii_bytes("x86_64"@)
    } else {
        ascii_bytes("unknown"@)
    }
}

/// Map the running machine's architecture name to the ABI directory tag used
/// inside the archive.
pub fn get_current_abi(arch: &[u8]) -> (r: Vec<u8>)
    ensures
        r@ == spec_abi_for_arch(arch@),
{
    proof {
        reveal_strlit("aarch64");
        reveal_strlit("arm64-v8a");
        reveal_strlit("arm");
        reveal_strlit("armeabi-v7a");
        reveal_strlit("x86");
        reveal_strlit("x86_64");
        reveal_strlit("unknown");
    }
    let aarch64 = str_bytes("aarch64");
    let arm = str_bytes("arm");
    let x86 = str_bytes("x86");
    let x86_64 = str_bytes("x86_64");
    if bytes_equal(arch, aarch64.as_slice()) {
        str_bytes("arm64-v8a")
    } else if bytes_equal(arch, arm.as_slice()) {
        str_bytes("armeabi-v7a")
    } else if bytes_equal(arch, x86.as_slice()) {
        str_bytes("x86")
    } else if bytes_equal(arch, x86_64.as_slice()) {
        str_bytes("x86_64")
    } else {
        str_bytes("unknown")
    }
}

// ---------- integrity ----------

/// Check the payload blob against the expected digest. An all-zero expected
/// digest disables the check (development mode); otherwise a mismatch is an
/// integrity failure, before any decryption is attempted.
pub fn verify_payload_digest(blob: &[u8], expected: &[u8; 32]) -> (r: Result<(), ShellError>)
    ensures
        r is Ok <==> (all_zero(expected@) || sha256_of(blob@) == expected@),
        r matches Err(e) ==> e == ShellError::IntegrityError,
{
    let digest = sha256(blob);
    if bytes_equal(digest.as_slice(), expected.as_slice()) {
        return Ok(());
    }
    let mut zero = true;
    let mut i: usize = 0;
    while i < 32
        invariant
            0 <= i <= 32,
            zero == (forall|j: int| 0 <= j < i ==> expected@[j] == 0u8),
        decreases 32 - i,
    {
        if expected[i] != 0 {
            zero = false;
        }
        i += 1;
    }
    if zero {
        Ok(())
    } else {
        Err(ShellError::IntegrityError)
    }
}

/// Check the signing certificate's digest against the expected one. An
/// all-zero expected digest disables the check; the caller decides the
/// policy on a mismatch (the current one logs and continues).
pub fn certificate_matches(cert: &[u8], expected: &[u8; 32]) -> (r: bool)
    ensures
        r == (all_zero(expected@) || sha256_of(cert@) == expected@),
{
    let digest = sha256(cert);
    if bytes_equal(digest.as_slice(), expected.as_slice()) {
        return true;
    }
    let mut zero = true;
    let mut i: usize = 0;
    while i < 32
        invariant
            0 <= i <= 32,
            zero == (forall|j: int| 0 <= j < i ==> expected@[j] == 0u8),
        decreases 32 - i,
    {
        if expected[i] != 0 {
            zero = false;
        }
        i += 1;
    }
    zero
}

// ---------- file-landing plan ----------

/// One file the loader will land on disk: target path and contents.
pub struct FileOut {
    pub path: Vec<u8>,
    pub data: Vec<u8>,
}

/// Mathematical model of a landed file.
#[verifier::ext_equal]
pub ghost struct FileOutModel {
    pub path: Seq<u8>,
    pub data: Seq<u8>,
}

impl View for FileOut {
    type V = FileOutModel;

    open spec fn view(&self) -> FileOutModel {
        FileOutModel { path: self.path@, data: self.data@ }
    }
}

/// The models of a sequence of landed files.
pub open spec fn file_out_models(v: Seq<FileOut>) -> Seq<FileOutModel> {
    Seq::new(v.len(), |i: int| v[i]@)
}

/// Everything the loader writes and registers for one reconstituted payload:
/// executable sections to the dex-landing directory, current-ABI native
/// libraries to the native-libs directory, and the joined dex path string
/// handed to the class loader.
pub struct LandingPlan {
    pub dex_files: Vec<FileOut>,
    pub lib_files: Vec<FileOut>,
    pub joined_dex_paths: Vec<u8>,
}

/// The dex-landing directory under the cache directory.
pub open spec fn spec_dex_landing_dir(cache: Seq<u8>) -> Seq<u8> {
    cache + ascii_bytes("/dex_landing"@)
}

/// The native-libs directory under the cache directory.
pub open spec fn spec_native_libs_dir(cache: Seq<u8>) -> Seq<u8> {
    cache + ascii_bytes("/native_libs"@)
}

/// The landing path of the executable section at position `i` of the
/// payload.
pub open spec fn spec_dex_path(cache: Seq<u8>, i: int) -> Seq<u8> {
    spec_dex_landing_dir(cache) + ascii_bytes("/payload_"@) + dec_digits(i as nat) + ascii_bytes(
        ".dex"@,
    )
}

/// An entry name that is an executable section.
pub open spec fn spec_is_dex_name(name: Seq<u8>) -> bool {
    ascii_bytes(".dex"@).is_suffix_of(name)
}

/// The archive prefix of native libraries for one ABI.
pub open spec fn spec_lib_prefix(abi: Seq<u8>) -> Seq<u8> {
    ascii_bytes("lib/"@) + abi + seq![0x2fu8]
}

/// An entry name that is a native library of the given ABI.
pub open spec fn spec_is_lib_name(abi: Seq<u8>, name: Seq<u8>) -> bool {
    spec_lib_prefix(abi).is_prefix_of(name) && ascii_bytes(".so"@).is_suffix_of(name)
}

/// The landing path of a native library: its basename under the native-libs
/// directory.
pub open spec fn spec_lib_path(cache: Seq<u8>, abi: Seq<u8>, name: Seq<u8>) -> Seq<u8> {
    spec_native_libs_dir(cache) + seq![0x2fu8] + name.skip(spec_lib_prefix(abi).len() as int)
}

/// The executable sections landed from the first `k` payload entries, each
/// at the path carrying its payload position.
pub open spec fn spec_dex_outs(cache: Seq<u8>, es: Seq<PlainModel>, k: int) -> Seq<FileOutModel>
    decreases k,
{
    if k <= 0 {
        Seq::empty()
    } else {
        let pre = spec_dex_outs(cache, es, k - 1);
        if spec_is_dex_name(es[k - 1].name) {
            pre + seq![FileOutModel { path: spec_dex_path(cache, k - 1), data: es[k - 1].data }]
        } else {
            pre
        }
    }
}

/// The current-ABI native libraries landed from the first `k` entries.
pub open spec fn spec_lib_outs(cache: Seq<u8>, abi: Seq<u8>, es: Seq<PlainModel>, k: int) -> Seq<
    FileOutModel,
>
    decreases k,
{
    if k <= 0 {
        Seq::empty()
    } else {
        let pre = spec_lib_outs(cache, abi, es, k - 1);
        if !spec_is_dex_name(es[k - 1].name) && spec_is_lib_name(abi, es[k - 1].name) {
            pre + seq![
                FileOutModel {
                    path: spec_lib_path(cache, abi, es[k - 1].name),
                    data: es[k - 1].data,
                },
            ]
        } else {
            pre
        }
    }
}

/// The `:`-joined landing paths of the executable sections among the first
/// `k` entries.
pub open spec fn spec_joined_dex_paths(cache: Seq<u8>, es: Seq<PlainModel>, k: int) -> Seq<u8>
    decreases k,
{
    if k <= 0 {
        Seq::empty()
    } else {
        let pre = spec_joined_dex_paths(cache, es, k - 1);
        if spec_is_dex_name(es[k - 1].name) {
            if pre.len() == 0 {
                spec_dex_path(cache, k - 1)
            } else {
                pre + seq![0x3au8] + spec_dex_path(cache, k - 1)
            }
        } else {
            pre
        }
    }
}

/// Models of the decrypted entries handed to the landing step.
pub open spec fn plain_entry_models(v: Seq<PlainEntry>) -> Seq<PlainModel> {
    Seq::new(v.len(), |i: int| v[i]@)
}

/// Lay out the file-landing plan for a reconstituted payload: executable
/// sections under the dex-landing directory named by payload position,
/// native libraries of the current ABI under the native-libs directory, all
/// other entries ignored, and the joined dex path string in payload order.
#[verifier::loop_isolation(false)]
pub fn plan_file_landing(cache_path: &[u8], abi: &[u8], entries: &Vec<PlainEntry>) -> (plan:
    LandingPlan)
    ensures
        file_out_models(plan.dex_files@) == spec_dex_outs(
            cache_path@,
            plain_entry_models(entries@),
            entries@.len() as int,
        ),
        file_out_models(plan.lib_files@) == spec_lib_outs(
            cache_path@,
            abi@,
            plain_entry_models(entries@),
            entries@.len() as int,
        ),
        plan.joined_dex_paths@ == spec_joined_dex_paths(
            cache_path@,
            plain_entry_models(entries@),
            entries@.len() as int,
        ),
{
    proof {
        reveal_strlit("/dex_landing");
        reveal_strlit("/native_libs");
        reveal_strlit("/payload_");
        reveal_strlit(".dex");
        reveal_strlit("lib/");
        reveal_strlit(".so");
    }
    let ghost es = plain_entry_models(entries@);
    let dex_suffix = str_bytes(".dex");
    let so_suffix = str_bytes(".so");
    let mut dex_dir = copy_range(cache_path, 0, cache_path.len());
    proof {
        assert(dex_dir@ =~= cache_path@);
    }
    let dex_dir_tag = str_bytes("/dex_landing");
    append_bytes(&mut dex_dir, dex_dir_tag.as_slice());
    let mut libs_dir = copy_range(cache_path, 0, cache_path.len());
    proof {
        assert(libs_dir@ =~= cache_path@);
    }
    let libs_dir_tag = str_bytes("/native_libs");
    append_bytes(&mut libs_dir, libs_dir_tag.as_slice());
    let payload_tag = str_bytes("/payload_");
    let mut lib_prefix = str_bytes("lib/");
    append_bytes(&mut lib_prefix, abi);
    lib_prefix.push(0x2f);
    proof {
        assert(lib_prefix@ =~= spec_lib_prefix(abi@));
    }
    let mut dex_files: Vec<FileOut> = Vec::new();
    let mut lib_files: Vec<FileOut> = Vec::new();
    let mut joined: Vec<u8> = Vec::new();
    let n = entries.len();
    proof {
        assert(file_out_models(dex_files@) =~= spec_dex_outs(cache_path@, es, 0));
        assert(file_out_models(lib_files@) =~= spec_lib_outs(cache_path@, abi@, es, 0));
        assert(joined@ =~= spec_joined_dex_paths(cache_path@, es, 0));
    }
    let mut i: usize = 0;
    while i < n
        invariant
            0 <= i <= n,
            n == entries@.len(),
            es == plain_entry_models(entries@),
            dex_dir@ == spec_dex_landing_dir(cache_path@),
            libs_dir@ == spec_native_libs_dir(cache_path@),
            dex_suffix@ == ascii_bytes(".dex"@),
            so_suffix@ == ascii_bytes(".so"@),
            payload_tag@ == ascii_bytes("/payload_"@),
            lib_prefix@ == spec_lib_prefix(abi@),
            file_out_models(dex_files@) == spec_dex_outs(cache_path@, es, i as int),
            file_out_models(lib_files@) == spec_lib_outs(cache_path@, abi@, es, i as int),
            joined@ == spec_joined_dex_paths(cache_path@, es, i as int),
        decreases n - i,
    {
        let e = &entries[i];
        if ends_with(e.name.as_slice(), dex_suffix.as_slice()) {
            let mut path = copy_range(dex_dir.as_slice(), 0, dex_dir.len());
            append_bytes(&mut path, payload_tag.as_slice());
            push_decimal(&mut path, i);
            append_bytes(&mut path, dex_suffix.as_slice());
            proof {
                assert(path@ =~= spec_dex_path(cache_path@, i as int));
            }
            if joined.len() == 0 {
                append_bytes(&mut joined, path.as_slice());
            } else {
                joined.push(0x3a);
                append_bytes(&mut joined, path.as_slice());
            }
            let data = copy_range(e.data.as_slice(), 0, e.data.len());
            proof {
                assert(data@ =~= e.data@);
            }
            dex_files.push(FileOut { path, data });
            proof {
                assert(joined@ =~= spec_joined_dex_paths(cache_path@, es, i + 1));
                assert(file_out_models(dex_files@) =~~= spec_dex_outs(cache_path@, es, i + 1));
                assert(file_out_models(lib_files@) =~~= spec_lib_outs(
                    cache_path@,
                    abi@,
                    es,
                    i + 1,
                ));
            }
        } else if starts_with(e.name.as_slice(), lib_prefix.as_slice()) && ends_with(
            e.name.as_slice(),
            so_suffix.as_slice(),
        ) {
            let mut path = copy_range(libs_dir.as_slice(), 0, libs_dir.len());
            path.push(0x2f);
            let base = copy_range(e.name.as_slice(), lib_prefix.len(), e.name.len());
            append_bytes(&mut path, base.as_slice());
            proof {
                assert(path@ =~= spec_lib_path(cache_path@, abi@, e.name@));
            }
            let data = copy_range(e.data.as_slice(), 0, e.data.len());
            proof {
                assert(data@ =~= e.data@);
            }
            lib_files.push(FileOut { path, data });
            proof {
                assert(file_out_models(lib_files@) =~~= spec_lib_outs(
                    cache_path@,
                    abi@,
                    es,
                    i + 1,
                ));
                assert(file_out_models(dex_files@) =~~= spec_dex_outs(cache_path@, es, i + 1));
                assert(joined@ =~= spec_joined_dex_paths(cache_path@, es, i + 1));
            }
        } else {
            proof {
                assert(file_out_models(dex_files@) =~~= spec_dex_outs(cache_path@, es, i + 1));
                assert(file_out_models(lib_files@) =~~= spec_lib_outs(
                    cache_path@,
                    abi@,
                    es,
                    i + 1,
                ));
                assert(joined@ =~= spec_joined_dex_paths(cache_path@, es, i + 1));
            }
        }
        i += 1;
    }
    LandingPlan { dex_files, lib_files, joined_dex_paths: joined }
}


// ---------- asset materialization ----------

/// The asset entries among the first `k` payload entries, stored
/// uncompressed under their original names.
pub open spec fn spec_asset_entries(es: Seq<PlainModel>, k: int) -> Seq<ZipEntryModel>
    decreases k,
{
    if k <= 0 {
        Seq::empty()
    } else {
        let pre = spec_asset_entries(es, k - 1);
        if ascii_bytes("assets/"@).is_prefix_of(es[k - 1].name) {
            pre + seq![(es[k - 1].name, es[k - 1].data, 0u16, false)]
        } else {
            pre
        }
    }
}

proof fn lemma_asset_entries_prefix(es: Seq<PlainModel>, i: int, n: int)
    requires
        0 <= i <= n,
    ensures
        spec_asset_entries(es, i).is_prefix_of(spec_asset_entries(es, n)),
    decreases n - i,
{
    if i < n {
        lemma_asset_entries_prefix(es, i, n - 1);
        let a = spec_asset_entries(es, i);
        let b = spec_asset_entries(es, n - 1);
        let c = spec_asset_entries(es, n);
        assert(b.is_prefix_of(c)) by {
            assert(b =~= c.take(b.len() as int));
        }
        assert(a =~= c.take(b.len() as int).take(a.len() as int));
        assert(c.take(b.len() as int).take(a.len() as int) =~= c.take(a.len() as int));
    }
}

/// Build the asset archive the loader materializes on the device: every
/// payload entry under `assets/`, stored uncompressed, in payload order.
/// The archive is built even when no entry qualifies; it fails exactly when
/// an asset overruns the writer's per-entry cap, the writer rejects an
/// append (a duplicate asset name), or it refuses to close.
#[verifier::loop_isolation(false)]
pub fn build_assets_archive(entries: &Vec<PlainEntry>) -> (r: Result<Vec<u8>, ShellError>)
    ensures
        r is Ok <==> (spec_entries_fit_u32(
            spec_asset_entries(plain_entry_models(entries@), entries@.len() as int),
        ) && spec_appends_accepted(
            spec_asset_entries(plain_entry_models(entries@), entries@.len() as int),
        ) && zip_finish_ok(
            spec_asset_entries(plain_entry_models(entries@), entries@.len() as int),
        )),
        r matches Ok(b) ==> b@ == zip_encode(
            spec_asset_entries(plain_entry_models(entries@), entries@.len() as int),
        ),
        r matches Err(e) ==> e == ShellError::ArchiveError,
{
    proof {
        reveal_strlit("assets/");
    }
    let ghost es = plain_entry_models(entries@);
    let assets_prefix = str_bytes("assets/");
    let mut w = zip_writer_new();
    proof {
        assert(crate::archive::zip_written(w) =~= spec_asset_entries(es, 0));
    }
    let n = entries.len();
    let ghost full = spec_asset_entries(es, entries@.len() as int);
    let mut i: usize = 0;
    while i < n
        invariant
            0 <= i <= n,
            n == entries@.len(),
            es == plain_entry_models(entries@),
            full == spec_asset_entries(es, n as int),
            assets_prefix@ == ascii_bytes("assets/"@),
            crate::archive::zip_written(w) == spec_asset_entries(es, i as int),
            spec_appends_accepted(spec_asset_entries(es, i as int)),
            spec_entries_fit_u32(spec_asset_entries(es, i as int)),
        decreases n - i,
    {
        let e = &entries[i];
        if starts_with(e.name.as_slice(), assets_prefix.as_slice()) {
            let ghost pre = spec_asset_entries(es, i as int);
            let ghost em = (e.name@, e.data@, 0u16, false);
            proof {
                lemma_asset_entries_prefix(es, i as int, n as int);
                lemma_asset_entries_prefix(es, i + 1, n as int);
                assert(spec_asset_entries(es, i + 1) =~= pre + seq![em]);
                assert(pre + seq![em] =~= full.take(pre.len() as int + 1));
            }
            if e.data.len() as u64 > 0xffff_ffffu64 {
                proof {
                    crate::archive::lemma_not_fit_at(full, pre, em);
                }
                return Err(ShellError::ArchiveError);
            }
            match zip_append_file(&mut w, &e.name, 0, &e.data) {
                Ok(()) => {
                    proof {
                        crate::archive::lemma_accepted_extend(pre, em);
                        crate::archive::lemma_fit_extend(pre, em);
                    }
                },
                Err(err) => {
                    proof {
                        crate::archive::lemma_not_accepted_at(full, pre, em);
                    }
                    return Err(err);
                },
            }
        }
        proof {
            assert(crate::archive::zip_written(w) =~= spec_asset_entries(es, i + 1));
        }
        i += 1;
    }
    proof {
        assert(spec_asset_entries(es, n as int) == full);
    }
    zip_finish(w)
}

/// Whether any reconstituted entry belongs in the asset archive: the
/// loader materializes the archive only when one does.
#[verifier::loop_isolation(false)]
pub fn has_asset_entries(entries: &Vec<PlainEntry>) -> (r: bool)
    ensures
        r == (exists|i: int|
            0 <= i < entries@.len() && ascii_bytes("assets/"@).is_prefix_of(
                (#[trigger] entries@[i])@.name,
            )),
{
    proof {
        reveal_strlit("assets/");
    }
    let assets_prefix = str_bytes("assets/");
    let n = entries.len();
    let mut i: usize = 0;
    while i < n
        invariant
            0 <= i <= n,
            n == entries@.len(),
            assets_prefix@ == ascii_bytes("assets/"@),
            forall|j: int|
                0 <= j < i ==> !ascii_bytes("assets/"@).is_prefix_of(
                    (#[trigger] entries@[j])@.name,
                ),
        decreases n - i,
    {
        if starts_with(entries[i].name.as_slice(), assets_prefix.as_slice()) {
            return true;
        }
        i += 1;
    }
    false
}

// ---------- payload extraction ----------

/// The archive-relative path under the data directory where assets land.
pub open spec fn spec_assets_zip_rel_path() -> Seq<u8> {
    ascii_bytes("/files/kapp_assets.zip"@)
}

/// The landing path of the materialized asset archive for a data directory.
pub fn assets_zip_path(data_path: &[u8]) -> (r: Vec<u8>)
    ensures
        r@ == data_path@ + spec_assets_zip_rel_path(),
{
    proof {
        reveal_strlit("/files/kapp_assets.zip");
    }
    let mut r = copy_range(data_path, 0, data_path.len());
    proof {
        assert(r@ =~= data_path@);
    }
    let tag = str_bytes("/files/kapp_assets.zip");
    append_bytes(&mut r, tag.as_slice());
    r
}

/// Position of the first entry named `name`, or the entry count when none
/// is.
pub open spec fn spec_first_index_named(zes: Seq<ZipEntryModel>, name: Seq<u8>) -> int
    decreases zes.len(),
{
    if zes.len() == 0 {
        0
    } else if zes[0].0 == name {
        0
    } else {
        1 + spec_first_index_named(zes.skip(1), name)
    }
}

proof fn lemma_first_index_named_at(zes: Seq<ZipEntryModel>, name: Seq<u8>, i: int)
    requires
        0 <= i <= zes.len(),
        forall|j: int| 0 <= j < i ==> (#[trigger] zes[j]).0 != name,
        i == zes.len() || zes[i].0 == name,
    ensures
        spec_first_index_named(zes, name) == i,
    decreases i,
{
    if zes.len() == 0 {
    } else if i == 0 {
    } else {
        assert(zes[0].0 != name);
        assert forall|j: int| 0 <= j < i - 1 implies (#[trigger] zes.skip(1)[j]).0 != name by {
            assert(zes.skip(1)[j] == zes[j + 1]);
        }
        if i - 1 < zes.skip(1).len() {
            assert(zes.skip(1)[i - 1] == zes[i]);
        }
        lemma_first_index_named_at(zes.skip(1), name, i - 1);
    }
}

/// The archive holds an entry at the payload path.
pub open spec fn spec_has_payload_entry(zes: Seq<ZipEntryModel>) -> bool {
    spec_first_index_named(zes, spec_payload_path()) < zes.len()
}

/// The stored payload blob: the contents of the first entry at the payload
/// path.
pub open spec fn spec_stored_blob(zes: Seq<ZipEntryModel>) -> Seq<u8> {
    zes[spec_first_index_named(zes, spec_payload_path())].1
}

/// The digest policy passes: the check is off, the expected digest is
/// all-zero (development mode), or the stored blob hashes to it.
pub open spec fn spec_digest_pass(blob: Seq<u8>, expected: Seq<u8>, verify: bool) -> bool {
    !verify || all_zero(expected) || sha256_of(blob) == expected
}

/// Scan the entry table for the first entry under the given name.
#[verifier::loop_isolation(false)]
fn find_index_named(z: &zip::ZipArchive<std::io::Cursor<Vec<u8>>>, name: &Vec<u8>) -> (r: usize)
    ensures
        r as int == spec_first_index_named(zip_entries(*z), name@),
        r <= zip_entries(*z).len(),
{
    let ghost zes = zip_entries(*z);
    let n = zip_len(z);
    let mut i: usize = 0;
    loop
        invariant
            0 <= i <= n,
            n == zes.len(),
            forall|j: int| 0 <= j < i ==> (#[trigger] zes[j]).0 != name@,
        decreases n - i,
    {
        if i == n {
            proof {
                lemma_first_index_named_at(zes, name@, n as int);
            }
            return n;
        }
        let nm = zip_entry_name(z, i);
        if bytes_equal(nm.as_slice(), name.as_slice()) {
            proof {
                lemma_first_index_named_at(zes, name@, i as int);
            }
            return i;
        }
        i += 1;
    }
}

/// Everything a successful load needs: the archive parses, the payload
/// entry is present and readable, the digest policy passes, the blob
/// decodes, and every ciphertext opens under its recorded nonce.
pub open spec fn spec_load_ready(apk: Seq<u8>, key: Seq<u8>, expected: Seq<u8>, verify: bool) -> bool {
    &&& zip_parse(apk) is Some
    &&& spec_has_payload_entry(zip_parse(apk).unwrap())
    &&& zip_readable(apk, spec_first_index_named(zip_parse(apk).unwrap(), spec_payload_path()))
    &&& spec_digest_pass(spec_stored_blob(zip_parse(apk).unwrap()), expected, verify)
    &&& spec_parse_blob(spec_stored_blob(zip_parse(apk).unwrap())) is Some
    &&& decrypt_ok(key, spec_parse_blob(spec_stored_blob(zip_parse(apk).unwrap())).unwrap())
}

/// Read the payload blob out of the hardened archive, check its digest, and
/// decrypt every entry. Each failure is pinned to its cause: an unreadable
/// archive or a missing payload entry is `ArchiveError`; a digest mismatch
/// (unless the expected digest is all-zero, or `verify` is off) is
/// `IntegrityError`, before any decoding; a malformed blob is `FormatError`;
/// a ciphertext that does not verify is `CryptoError`; otherwise the load
/// succeeds with the decrypted entries.
pub fn extract_payload(apk: Vec<u8>, key: &[u8; 32], expected_digest: &[u8; 32], verify: bool) -> (r:
    Result<Vec<PlainEntry>, ShellError>)
    ensures
        zip_parse(apk@) is None ==> r == Err::<Vec<PlainEntry>, ShellError>(
            ShellError::ArchiveError,
        ),
        zip_parse(apk@) matches Some(zes) && !spec_has_payload_entry(zes) ==> r == Err::<
            Vec<PlainEntry>,
            ShellError,
        >(ShellError::ArchiveError),
        zip_parse(apk@) matches Some(zes) && spec_has_payload_entry(zes) && !zip_readable(
            apk@,
            spec_first_index_named(zes, spec_payload_path()),
        ) ==> r == Err::<Vec<PlainEntry>, ShellError>(ShellError::ArchiveError),
        zip_parse(apk@) matches Some(zes) && spec_has_payload_entry(zes) && zip_readable(
            apk@,
            spec_first_index_named(zes, spec_payload_path()),
        ) && !spec_digest_pass(spec_stored_blob(zes), expected_digest@, verify) ==> r == Err::<
            Vec<PlainEntry>,
            ShellError,
        >(ShellError::IntegrityError),
        zip_parse(apk@) matches Some(zes) && spec_has_payload_entry(zes) && zip_readable(
            apk@,
            spec_first_index_named(zes, spec_payload_path()),
        ) && spec_digest_pass(spec_stored_blob(zes), expected_digest@, verify) && spec_parse_blob(
            spec_stored_blob(zes),
        ) is None ==> r == Err::<Vec<PlainEntry>, ShellError>(ShellError::FormatError),
        zip_parse(apk@) matches Some(zes) && spec_has_payload_entry(zes) && zip_readable(
            apk@,
            spec_first_index_named(zes, spec_payload_path()),
        ) && spec_digest_pass(spec_stored_blob(zes), expected_digest@, verify) && spec_parse_blob(
            spec_stored_blob(zes),
        ) is Some && !decrypt_ok(key@, spec_parse_blob(spec_stored_blob(zes)).unwrap()) ==> r
            == Err::<Vec<PlainEntry>, ShellError>(ShellError::CryptoError),
        r is Ok <==> spec_load_ready(apk@, key@, expected_digest@, verify),
        r matches Ok(ps) ==> plain_models(ps@) == decrypted_models(
            key@,
            spec_parse_blob(spec_stored_blob(zip_parse(apk@).unwrap())).unwrap(),
        ),
{
    let mut z = match zip_open(apk) {
        Ok(z) => z,
        Err(e) => {
            return Err(e);
        },
    };
    let ghost zes = zip_entries(z);
    let n = zip_len(&z);
    let pname = payload_path();
    let i = find_index_named(&z, &pname);
    if i == n {
        return Err(ShellError::ArchiveError);
    }
    let entry = match zip_entry(&mut z, i) {
        Ok(e) => e,
        Err(e) => {
            return Err(e);
        },
    };
    let blob = entry.data;
    if verify {
        match verify_payload_digest(blob.as_slice(), expected_digest) {
            Ok(()) => (),
            Err(e) => {
                return Err(e);
            },
        }
    }
    decrypt_payload(blob.as_slice(), key)
}

} // verus!
