use crate::archive::{
    spec_appends_accepted, spec_dir_name, spec_entries_fit_u32, zip_accepts, zip_append_dir,
    zip_append_file, zip_encode, zip_entries, zip_entry, zip_entry_ok, zip_finish, zip_finish_ok,
    zip_len, zip_open, zip_parse, zip_readable, zip_writer_new, zip_written, ZipEntryModel,
};
use crate::bytestr::{append_bytes, ascii_bytes, bytes_equal, ends_with, str_bytes};
use crate::codec::{
    entry_models, metadata_bytes, record_bytes, records_bytes, wf_entries, wf_entry, EntryModel,
    PayloadEntry,
};
use crate::crypto::{aead_decrypt, aead_encrypt, encrypt_payload};
use crate::errors::ShellError;
use crate::selection::{
    class_index, dex_name_for_index, is_payload_entry, matches_keep_prefix, should_keep_dex,
    should_keep_lib, spec_any_contained, spec_class_index, spec_dex_name, spec_is_payload_entry,
    spec_should_keep_lib,
};
use vstd::bytes::{lemma_auto_spec_u16_to_from_le_bytes, lemma_auto_spec_u32_to_from_le_bytes};
use vstd::prelude::*;

verus! {

// ---------- well-known names ----------

/// The archive-relative path at which the payload blob is stored.
pub open spec fn spec_payload_path() -> Seq<u8> {
    ascii_bytes("assets/kapp_payload.bin"@)
}

/// Render the payload storage path.
pub fn payload_path() -> (r: Vec<u8>)
    ensures
        r@ == spec_payload_path(),
{
    proof {
        reveal_strlit("assets/kapp_payload.bin");
    }
    str_bytes("assets/kapp_payload.bin")
}

// ---------- selection over a target archive ----------

/// The keep policy for one payload candidate: an executable section is
/// retained when a keep descriptor or keep prefix occurs in its bytes, a
/// native library when its basename matches a keep-libs element.
pub open spec fn spec_keep_plain(
    name: Seq<u8>,
    data: Seq<u8>,
    kd: Seq<Seq<u8>>,
    kp: Seq<Seq<u8>>,
    kl: Seq<Seq<u8>>,
) -> bool {
    ||| (ascii_bytes(".dex"@).is_suffix_of(name) && (spec_any_contained(data, kd)
        || spec_any_contained(data, kp)))
    ||| (ascii_bytes(".so"@).is_suffix_of(name) && spec_should_keep_lib(name, kl))
}

/// The (name, plaintext) pairs sealed into the payload, drawn in order from
/// the first `k` archive entries: payload candidates that no keep rule
/// retains.
pub open spec fn spec_selected(
    zes: Seq<ZipEntryModel>,
    kd: Seq<Seq<u8>>,
    kp: Seq<Seq<u8>>,
    kl: Seq<Seq<u8>>,
    k: int,
) -> Seq<(Seq<u8>, Seq<u8>)>
    decreases k,
{
    if k <= 0 {
        Seq::empty()
    } else {
        let pre = spec_selected(zes, kd, kp, kl, k - 1);
        let name = zes[k - 1].0;
        let data = zes[k - 1].1;
        if spec_is_payload_entry(name) && !spec_keep_plain(name, data, kd, kp, kl) {
            pre + seq![(name, data)]
        } else {
            pre
        }
    }
}

/// The sealed entries match the selected plaintexts pairwise: same names,
/// and each ciphertext seals the selected plaintext under its nonce.
pub open spec fn spec_sealed_matches(
    pes: Seq<EntryModel>,
    sel: Seq<(Seq<u8>, Seq<u8>)>,
    key: Seq<u8>,
) -> bool {
    &&& pes.len() == sel.len()
    &&& forall|j: int|
        0 <= j < sel.len() ==> {
            let e = #[trigger] pes[j];
            &&& e.name == sel[j].0
            &&& e.cipher == aead_encrypt(key, e.nonce, sel[j].1)
            &&& aead_decrypt(key, e.nonce, e.cipher) == Some(sel[j].1)
        }
}

/// Byte length of the metadata descriptor the selected pairs will need:
/// the 4-byte count plus one record per pair.
pub open spec fn spec_sel_md_len(sel: Seq<(Seq<u8>, Seq<u8>)>) -> int
    decreases sel.len(),
{
    if sel.len() == 0 {
        4
    } else {
        spec_sel_md_len(sel.drop_last()) + 18 + sel.last().0.len()
    }
}

/// The selected pairs fit the wire format: every name fits its u16 length
/// field, every ciphertext (plaintext plus tag) its u32 field, and the whole
/// metadata descriptor its u32 footer field.
pub open spec fn spec_selection_within_limits(sel: Seq<(Seq<u8>, Seq<u8>)>) -> bool {
    &&& (forall|j: int|
        0 <= j < sel.len() ==> ((#[trigger] sel[j]).0.len() <= 0xffff && sel[j].1.len()
            <= 0xffff_ffff - 16))
    &&& spec_sel_md_len(sel) <= 0xffff_ffff
}

proof fn lemma_sel_md_len_prefix_le(a: Seq<(Seq<u8>, Seq<u8>)>, b: Seq<(Seq<u8>, Seq<u8>)>)
    requires
        a.is_prefix_of(b),
    ensures
        spec_sel_md_len(a) <= spec_sel_md_len(b),
    decreases b.len(),
{
    if a.len() < b.len() {
        assert(a.is_prefix_of(b.drop_last())) by {
            assert(b.drop_last() =~= b.take(b.len() - 1));
            assert(a =~= b.take(b.len() - 1).take(a.len() as int));
        }
        lemma_sel_md_len_prefix_le(a, b.drop_last());
    } else {
        assert(a =~= b);
    }
}

proof fn lemma_selected_prefix(
    zes: Seq<ZipEntryModel>,
    kd: Seq<Seq<u8>>,
    kp: Seq<Seq<u8>>,
    kl: Seq<Seq<u8>>,
    i: int,
    n: int,
)
    requires
        0 <= i <= n,
    ensures
        spec_selected(zes, kd, kp, kl, i).is_prefix_of(spec_selected(zes, kd, kp, kl, n)),
    decreases n - i,
{
    if i < n {
        lemma_selected_prefix(zes, kd, kp, kl, i, n - 1);
        let a = spec_selected(zes, kd, kp, kl, i);
        let b = spec_selected(zes, kd, kp, kl, n - 1);
        let c = spec_selected(zes, kd, kp, kl, n);
        assert(b.is_prefix_of(c)) by {
            assert(b =~= c.take(b.len() as int));
        }
        assert(a =~= c.take(b.len() as int).take(a.len() as int));
        assert(c.take(b.len() as int).take(a.len() as int) =~= c.take(a.len() as int));
    }
}

/// Everything the archive side of the selection needs: the target parses,
/// every entry can be read, and the selected pairs fit the wire format.
pub open spec fn spec_collect_ready(
    target: Seq<u8>,
    kd: Seq<Seq<u8>>,
    kp: Seq<Seq<u8>>,
    kl: Seq<Seq<u8>>,
) -> bool {
    &&& zip_parse(target) is Some
    &&& (forall|j: int|
        0 <= j < zip_parse(target).unwrap().len() ==> #[trigger] zip_readable(target, j))
    &&& spec_selection_within_limits(
        spec_selected(
            zip_parse(target).unwrap(),
            kd,
            kp,
            kl,
            zip_parse(target).unwrap().len() as int,
        ),
    )
}

/// Enumerate the payload candidates of the target archive, apply the keep
/// policy, and seal each selected entry with a fresh nonce under `key`. It
/// succeeds exactly when the archive parses, every entry reads back, the
/// selection fits the wire format, and at least one entry was selected; an
/// empty selection is fatal (`ConfigError`), everything archive-side is
/// `ArchiveError`. The sealed list is well-formed for the blob codec.
#[verifier::loop_isolation(false)]
#[verifier::rlimit(60)]
pub fn collect_and_encrypt_payload_entries(
    target: Vec<u8>,
    keep_descriptors: &Vec<Vec<u8>>,
    keep_prefixes: &Vec<Vec<u8>>,
    keep_libs: &Vec<Vec<u8>>,
    key: &[u8; 32],
) -> (r: Result<Vec<PayloadEntry>, ShellError>)
    ensures
        r is Ok <==> (spec_collect_ready(
            target@,
            keep_descriptors.deep_view(),
            keep_prefixes.deep_view(),
            keep_libs.deep_view(),
        ) && spec_selected(
            zip_parse(target@).unwrap(),
            keep_descriptors.deep_view(),
            keep_prefixes.deep_view(),
            keep_libs.deep_view(),
            zip_parse(target@).unwrap().len() as int,
        ).len() > 0),
        r == Err::<Vec<PayloadEntry>, ShellError>(ShellError::ConfigError) <==> (spec_collect_ready(
            target@,
            keep_descriptors.deep_view(),
            keep_prefixes.deep_view(),
            keep_libs.deep_view(),
        ) && spec_selected(
            zip_parse(target@).unwrap(),
            keep_descriptors.deep_view(),
            keep_prefixes.deep_view(),
            keep_libs.deep_view(),
            zip_parse(target@).unwrap().len() as int,
        ).len() == 0),
        r matches Err(e) ==> e == ShellError::ArchiveError || e == ShellError::ConfigError,
        r matches Ok(pes) ==> ({
            &&& wf_entries(entry_models(pes@))
            &&& spec_sealed_matches(
                entry_models(pes@),
                spec_selected(
                    zip_parse(target@).unwrap(),
                    keep_descriptors.deep_view(),
                    keep_prefixes.deep_view(),
                    keep_libs.deep_view(),
                    zip_parse(target@).unwrap().len() as int,
                ),
                key@,
            )
        }),
{
    proof {
        reveal_strlit(".dex");
        reveal_strlit(".so");
        lemma_auto_spec_u16_to_from_le_bytes();
        lemma_auto_spec_u32_to_from_le_bytes();
    }
    let ghost kd = keep_descriptors.deep_view();
    let ghost kp = keep_prefixes.deep_view();
    let ghost kl = keep_libs.deep_view();
    let dex_suffix = str_bytes(".dex");
    let so_suffix = str_bytes(".so");
    let ghost tbytes = target@;
    let mut z = match zip_open(target) {
        Ok(z) => z,
        Err(e) => {
            return Err(e);
        },
    };
    let ghost zes = zip_entries(z);
    let ghost full_sel = spec_selected(zes, kd, kp, kl, zes.len() as int);
    let n = zip_len(&z);
    let mut entries: Vec<PayloadEntry> = Vec::new();
    let mut md_total: u64 = 4;
    proof {
        assert(entry_models(entries@) =~= Seq::<EntryModel>::empty());
        assert(records_bytes(entry_models(entries@)) =~= Seq::<u8>::empty());
        assert(metadata_bytes(entry_models(entries@)).len() == 4);
        assert(spec_sel_md_len(spec_selected(zes, kd, kp, kl, 0)) == 4);
    }
    let mut i: usize = 0;
    while i < n
        invariant
            0 <= i <= n,
            n == zes.len(),
            zip_entries(z) == zes,
            full_sel == spec_selected(zes, kd, kp, kl, n as int),
            forall|j: int| #[trigger] zip_entry_ok(z, j) == zip_readable(tbytes, j),
            forall|j: int| 0 <= j < i ==> #[trigger] zip_readable(tbytes, j),
            spec_sealed_matches(entry_models(entries@), spec_selected(zes, kd, kp, kl, i as int), key@),
            forall|j: int| 0 <= j < entries@.len() ==> wf_entry(#[trigger] entry_models(entries@)[j]),
            forall|j: int|
                0 <= j < spec_selected(zes, kd, kp, kl, i as int).len() ==> ((#[trigger] spec_selected(
                    zes,
                    kd,
                    kp,
                    kl,
                    i as int,
                )[j]).0.len() <= 0xffff && spec_selected(zes, kd, kp, kl, i as int)[j].1.len()
                    <= 0xffff_ffff - 16),
            md_total == metadata_bytes(entry_models(entries@)).len(),
            md_total == spec_sel_md_len(spec_selected(zes, kd, kp, kl, i as int)),
            md_total <= 0xffff_ffffu64,
            md_total >= 4 + 18 * entries@.len(),
        decreases n - i,
    {
        let ghost models_before = entry_models(entries@);
        let ghost sel_before = spec_selected(zes, kd, kp, kl, i as int);
        let e = match zip_entry(&mut z, i) {
            Ok(e) => e,
            Err(err) => {
                proof {
                    assert(!zip_readable(tbytes, i as int));
                    assert(!spec_collect_ready(tbytes, kd, kp, kl));
                }
                return Err(err);
            },
        };
        if is_payload_entry(e.name.as_slice()) {
            let is_dex = ends_with(e.name.as_slice(), dex_suffix.as_slice());
            let is_so = ends_with(e.name.as_slice(), so_suffix.as_slice());
            let kept_dex = is_dex && (should_keep_dex(e.data.as_slice(), keep_descriptors)
                || matches_keep_prefix(e.data.as_slice(), keep_prefixes));
            let kept_lib = is_so && should_keep_lib(e.name.as_slice(), keep_libs);
            if !(kept_dex || kept_lib) {
                let ghost pair = (zes[i as int].0, zes[i as int].1);
                proof {
                    assert(spec_selected(zes, kd, kp, kl, i + 1) =~~= sel_before + seq![pair]);
                    assert((sel_before + seq![pair]).drop_last() =~= sel_before);
                    lemma_selected_prefix(zes, kd, kp, kl, i + 1, n as int);
                    let kpos = sel_before.len() as int;
                    assert(spec_selected(zes, kd, kp, kl, i + 1) == full_sel.take(kpos + 1));
                    assert(full_sel.take(kpos + 1)[kpos] == full_sel[kpos]);
                    assert(full_sel[kpos] == pair);
                }
                if e.name.len() > 0xffff || e.data.len() as u64 > 0xffff_ffffu64 - 16 {
                    proof {
                        assert(!spec_selection_within_limits(full_sel));
                    }
                    return Err(ShellError::ArchiveError);
                }
                let new_md = md_total + 18 + e.name.len() as u64;
                if new_md > 0xffff_ffffu64 {
                    proof {
                        assert(spec_sel_md_len(spec_selected(zes, kd, kp, kl, i + 1)) > 0xffff_ffff);
                        assert(spec_selected(zes, kd, kp, kl, i + 1).is_prefix_of(full_sel)) by {
                            lemma_selected_prefix(zes, kd, kp, kl, i + 1, n as int);
                        }
                        lemma_sel_md_len_prefix_le(spec_selected(zes, kd, kp, kl, i + 1), full_sel);
                        assert(!spec_selection_within_limits(full_sel));
                    }
                    return Err(ShellError::ArchiveError);
                }
                let (cipher, nonce) = match encrypt_payload(e.data.as_slice(), key) {
                    Ok(p) => p,
                    Err(err) => {
                        // unreachable: the plaintext was just checked to be
                        // far below the cipher's length bound
                        proof {
                            assert(false);
                        }
                        return Err(err);
                    },
                };
                let mut nonce_vec: Vec<u8> = Vec::new();
                append_bytes(&mut nonce_vec, nonce.as_slice());
                let entry = PayloadEntry { name: e.name, cipher, nonce: nonce_vec };
                let ghost m = entry@;
                entries.push(entry);
                md_total = new_md;
                proof {
                    let models_new = entry_models(entries@);
                    assert(models_new =~~= models_before + seq![m]);
                    assert(record_bytes(m).len() == 18 + m.name.len());
                    assert(models_new.take(models_new.len() - 1) =~= models_before);
                    assert(models_new.take(models_new.len() as int) =~= models_new);
                    crate::codec::lemma_records_bytes_snoc(models_new, models_new.len() - 1);
                    assert(metadata_bytes(models_new).len() == md_total);
                    assert(spec_sealed_matches(
                        models_new,
                        spec_selected(zes, kd, kp, kl, i + 1),
                        key@,
                    ));
                    assert forall|j: int|
                        0 <= j < spec_selected(zes, kd, kp, kl, i + 1).len() implies ((
                        #[trigger] spec_selected(zes, kd, kp, kl, i + 1)[j]).0.len() <= 0xffff
                        && spec_selected(zes, kd, kp, kl, i + 1)[j].1.len() <= 0xffff_ffff
                        - 16) by {
                        if j < sel_before.len() {
                            assert(spec_selected(zes, kd, kp, kl, i + 1)[j] == sel_before[j]);
                        }
                    }
                }
            } else {
                proof {
                    assert(spec_selected(zes, kd, kp, kl, i + 1) == sel_before);
                }
            }
        } else {
            proof {
                assert(spec_selected(zes, kd, kp, kl, i + 1) == sel_before);
            }
        }
        i += 1;
    }
    proof {
        assert(spec_selected(zes, kd, kp, kl, n as int) == full_sel);
        assert(zip_parse(tbytes) is Some && zip_parse(tbytes).unwrap() == zes);
        assert(forall|j: int|
            0 <= j < zip_parse(tbytes).unwrap().len() ==> #[trigger] zip_readable(tbytes, j));
        assert(spec_selection_within_limits(full_sel));
        assert(spec_collect_ready(tbytes, kd, kp, kl));
        assert(entry_models(entries@).len() == full_sel.len());
        assert(entry_models(entries@).len() <= 0xffff_ffff);
    }
    if entries.len() == 0 {
        return Err(ShellError::ConfigError);
    }
    Ok(entries)
}

// ---------- stable ordering of executable sections ----------

/// One executable section keyed by its recovered index.
pub struct IndexedDex {
    pub index: usize,
    pub data: Vec<u8>,
}

impl View for IndexedDex {
    type V = (int, Seq<u8>);

    open spec fn view(&self) -> (int, Seq<u8>) {
        (self.index as int, self.data@)
    }
}

/// The models of an indexed-section list.
pub open spec fn dex_models(v: Seq<IndexedDex>) -> Seq<(int, Seq<u8>)> {
    Seq::new(v.len(), |i: int| v[i]@)
}

/// Insert behind every entry with an equal or smaller key: the stable
/// insertion step.
pub open spec fn spec_insert_by_index(sorted: Seq<(int, Seq<u8>)>, e: (int, Seq<u8>)) -> Seq<
    (int, Seq<u8>),
>
    decreases sorted.len(),
{
    if sorted.len() == 0 {
        seq![e]
    } else if sorted.last().0 <= e.0 {
        sorted + seq![e]
    } else {
        spec_insert_by_index(sorted.drop_last(), e) + seq![sorted.last()]
    }
}

/// Stable sort by key: the result of inserting the elements left to right.
pub open spec fn spec_sort_by_index(s: Seq<(int, Seq<u8>)>) -> Seq<(int, Seq<u8>)>
    decreases s.len(),
{
    if s.len() == 0 {
        Seq::empty()
    } else {
        spec_insert_by_index(spec_sort_by_index(s.drop_last()), s.last())
    }
}

proof fn lemma_insert_by_index_at(s: Seq<(int, Seq<u8>)>, e: (int, Seq<u8>), p: int)
    requires
        0 <= p <= s.len(),
        forall|j: int| p <= j < s.len() ==> (#[trigger] s[j]).0 > e.0,
        p == 0 || s[p - 1].0 <= e.0,
    ensures
        spec_insert_by_index(s, e) == s.take(p) + seq![e] + s.skip(p),
    decreases s.len(),
{
    if s.len() == 0 {
        assert(spec_insert_by_index(s, e) =~= s.take(p) + seq![e] + s.skip(p));
    } else if p == s.len() {
        assert(s.last().0 <= e.0);
        assert(spec_insert_by_index(s, e) =~= s.take(p) + seq![e] + s.skip(p));
    } else {
        assert(s[s.len() - 1].0 > e.0);
        assert forall|j: int| p <= j < s.drop_last().len() implies (#[trigger] s.drop_last()[j]).0
            > e.0 by {
            assert(s.drop_last()[j] == s[j]);
        }
        if p > 0 {
            assert(s.drop_last()[p - 1] == s[p - 1]);
        }
        lemma_insert_by_index_at(s.drop_last(), e, p);
        assert(s.drop_last().take(p) =~= s.take(p));
        assert((s.take(p) + seq![e] + s.drop_last().skip(p)) + seq![s.last()] =~= s.take(p)
            + seq![e] + s.skip(p));
    }
}

/// Insert one indexed section into a list sorted by index, behind equal
/// keys, keeping it sorted.
#[verifier::loop_isolation(false)]
fn insert_by_index(sorted: &mut Vec<IndexedDex>, e: IndexedDex)
    ensures
        dex_models(final(sorted)@) == spec_insert_by_index(dex_models(old(sorted)@), e@),
{
    let ghost s = dex_models(sorted@);
    let ghost em = e@;
    let mut p = sorted.len();
    while p > 0 && sorted[p - 1].index > e.index
        invariant
            0 <= p <= sorted@.len(),
            forall|j: int| p <= j < s.len() ==> (#[trigger] s[j]).0 > em.0,
        decreases p,
    {
        p -= 1;
    }
    proof {
        lemma_insert_by_index_at(s, em, p as int);
    }
    sorted.insert(p, e);
    proof {
        assert(dex_models(sorted@) =~~= s.take(p as int) + seq![em] + s.skip(p as int));
    }
}

/// The class-indexed entries among the first `k` archive entries, in
/// appearance order.
pub open spec fn spec_class_entries(zes: Seq<ZipEntryModel>, k: int) -> Seq<(int, Seq<u8>)>
    decreases k,
{
    if k <= 0 {
        Seq::empty()
    } else {
        let pre = spec_class_entries(zes, k - 1);
        match spec_class_index(zes[k - 1].0) {
            Some(ci) => pre + seq![(ci as int, zes[k - 1].1)],
            None => pre,
        }
    }
}

/// The data parts of an indexed-section list, in order.
pub open spec fn spec_dex_datas(s: Seq<(int, Seq<u8>)>) -> Seq<Seq<u8>> {
    Seq::new(s.len(), |i: int| s[i].1)
}

proof fn lemma_insert_by_index_len(s: Seq<(int, Seq<u8>)>, e: (int, Seq<u8>))
    ensures
        spec_insert_by_index(s, e).len() == s.len() + 1,
    decreases s.len(),
{
    if s.len() > 0 && !(s.last().0 <= e.0) {
        lemma_insert_by_index_len(s.drop_last(), e);
    }
}

proof fn lemma_sort_by_index_len(s: Seq<(int, Seq<u8>)>)
    ensures
        spec_sort_by_index(s).len() == s.len(),
    decreases s.len(),
{
    if s.len() > 0 {
        lemma_sort_by_index_len(s.drop_last());
        lemma_insert_by_index_len(spec_sort_by_index(s.drop_last()), s.last());
    }
}

/// The bootstrap archive parses and every entry of it can be read.
pub open spec fn spec_bootstrap_ready(bootstrap: Seq<u8>) -> bool {
    &&& zip_parse(bootstrap) is Some
    &&& (forall|j: int|
        0 <= j < zip_parse(bootstrap).unwrap().len() ==> #[trigger] zip_readable(bootstrap, j))
}

/// Read the bootstrap archive and return its executable sections ordered by
/// their recovered indices (stable for equal indices). It succeeds exactly
/// when the archive parses, every entry reads back, and at least one
/// `classes*.dex` section is present; an archive with none is `ConfigError`.
#[verifier::loop_isolation(false)]
pub fn get_bootstrap_dex_entries(bootstrap: Vec<u8>) -> (r: Result<Vec<Vec<u8>>, ShellError>)
    ensures
        r is Ok <==> (spec_bootstrap_ready(bootstrap@) && spec_class_entries(
            zip_parse(bootstrap@).unwrap(),
            zip_parse(bootstrap@).unwrap().len() as int,
        ).len() > 0),
        r == Err::<Vec<Vec<u8>>, ShellError>(ShellError::ConfigError) <==> (spec_bootstrap_ready(
            bootstrap@,
        ) && spec_class_entries(
            zip_parse(bootstrap@).unwrap(),
            zip_parse(bootstrap@).unwrap().len() as int,
        ).len() == 0),
        r matches Ok(v) ==> ({
            &&& v.deep_view() == spec_dex_datas(
                spec_sort_by_index(
                    spec_class_entries(
                        zip_parse(bootstrap@).unwrap(),
                        zip_parse(bootstrap@).unwrap().len() as int,
                    ),
                ),
            )
            &&& v@.len() >= 1
        }),
        r matches Err(e) ==> e == ShellError::ArchiveError || e == ShellError::ConfigError,
{
    let ghost bbytes = bootstrap@;
    let mut z = match zip_open(bootstrap) {
        Ok(z) => z,
        Err(e) => {
            return Err(e);
        },
    };
    let ghost zes = zip_entries(z);
    let n = zip_len(&z);
    let mut dexes: Vec<IndexedDex> = Vec::new();
    proof {
        assert(dex_models(dexes@) =~= Seq::<(int, Seq<u8>)>::empty());
        assert(spec_class_entries(zes, 0) =~= Seq::<(int, Seq<u8>)>::empty());
    }
    let mut i: usize = 0;
    while i < n
        invariant
            0 <= i <= n,
            n == zes.len(),
            zip_entries(z) == zes,
            forall|j: int| #[trigger] zip_entry_ok(z, j) == zip_readable(bbytes, j),
            forall|j: int| 0 <= j < i ==> #[trigger] zip_readable(bbytes, j),
            dex_models(dexes@) == spec_sort_by_index(spec_class_entries(zes, i as int)),
            dexes@.len() == spec_class_entries(zes, i as int).len(),
        decreases n - i,
    {
        let e = match zip_entry(&mut z, i) {
            Ok(e) => e,
            Err(err) => {
                proof {
                    assert(!zip_readable(bbytes, i as int));
                    assert(!spec_bootstrap_ready(bbytes));
                }
                return Err(err);
            },
        };
        match class_index(e.name.as_slice()) {
            Some(ci) => {
                let ghost pre = spec_class_entries(zes, i as int);
                insert_by_index(&mut dexes, IndexedDex { index: ci, data: e.data });
                proof {
                    assert(spec_class_entries(zes, i + 1) =~= pre + seq![
                        (ci as int, zes[i as int].1),
                    ]);
                    assert((pre + seq![(ci as int, zes[i as int].1)]).drop_last() =~= pre);
                    assert((pre + seq![(ci as int, zes[i as int].1)]).last() == (
                        ci as int,
                        zes[i as int].1,
                    ));
                    lemma_insert_by_index_len(spec_sort_by_index(pre), (ci as int, zes[i as int].1));
                    lemma_sort_by_index_len(pre);
                    lemma_sort_by_index_len(spec_class_entries(zes, i + 1));
                }
            },
            None => {
                proof {
                    assert(spec_class_entries(zes, i + 1) == spec_class_entries(zes, i as int));
                }
            },
        }
        i += 1;
    }
    proof {
        assert(spec_bootstrap_ready(bbytes));
        assert(spec_class_entries(zes, n as int).len() == dexes@.len());
    }
    if dexes.len() == 0 {
        return Err(ShellError::ConfigError);
    }
    let mut out: Vec<Vec<u8>> = Vec::new();
    let m = dexes.len();
    let ghost sorted = dex_models(dexes@);
    let mut j: usize = 0;
    while j < m
        invariant
            0 <= j <= m,
            m == dexes@.len(),
            sorted == dex_models(dexes@),
            out.deep_view() == spec_dex_datas(sorted).take(j as int),
        decreases m - j,
    {
        let data = crate::bytestr::copy_range(dexes[j].data.as_slice(), 0, dexes[j].data.len());
        proof {
            assert(data@ =~= dexes@[j as int].data@);
        }
        out.push(data);
        proof {
            assert(out.deep_view() =~~= spec_dex_datas(sorted).take(j + 1));
        }
        j += 1;
    }
    proof {
        assert(spec_dex_datas(sorted).take(m as int) =~= spec_dex_datas(sorted));
    }
    Ok(out)
}


// ---------- repacking ----------

/// A bootstrap shared library for one ABI.
pub struct AbiLib {
    pub abi: Vec<u8>,
    pub data: Vec<u8>,
}

impl View for AbiLib {
    type V = (Seq<u8>, Seq<u8>);

    open spec fn view(&self) -> (Seq<u8>, Seq<u8>) {
        (self.abi@, self.data@)
    }
}

/// The models of a bootstrap library list.
pub open spec fn abi_lib_models(v: Seq<AbiLib>) -> Seq<(Seq<u8>, Seq<u8>)> {
    Seq::new(v.len(), |i: int| v[i]@)
}

/// The entries copied through from the first `k` target entries, in order:
/// the payload path and every sealed entry are dropped; a supplied manifest
/// or resource table substitutes the original bytes under the original
/// compression method; directories stay directories; executable sections
/// are withheld for renumbering; everything else is copied as-is.
pub open spec fn spec_copied_entries(
    zes: Seq<ZipEntryModel>,
    manifest: Option<Seq<u8>>,
    arsc: Option<Seq<u8>>,
    enc: Seq<Seq<u8>>,
    k: int,
) -> Seq<ZipEntryModel>
    decreases k,
{
    if k <= 0 {
        Seq::empty()
    } else {
        let pre = spec_copied_entries(zes, manifest, arsc, enc, k - 1);
        let e = zes[k - 1];
        if e.0 == spec_payload_path() || enc.contains(e.0) {
            pre
        } else if e.0 == ascii_bytes("AndroidManifest.xml"@) && manifest is Some {
            pre + seq![(e.0, manifest.unwrap(), e.2, false)]
        } else if e.0 == ascii_bytes("resources.arsc"@) && arsc is Some {
            pre + seq![(e.0, arsc.unwrap(), e.2, false)]
        } else if e.3 {
            pre + seq![(spec_dir_name(e.0), Seq::<u8>::empty(), 0u16, true)]
        } else if spec_class_index(e.0) is Some {
            pre
        } else {
            pre + seq![e]
        }
    }
}

/// The executable sections withheld from the copy, keyed by their recovered
/// indices, in appearance order.
pub open spec fn spec_retained_dexes(
    zes: Seq<ZipEntryModel>,
    manifest: Option<Seq<u8>>,
    arsc: Option<Seq<u8>>,
    enc: Seq<Seq<u8>>,
    k: int,
) -> Seq<(int, Seq<u8>)>
    decreases k,
{
    if k <= 0 {
        Seq::empty()
    } else {
        let pre = spec_retained_dexes(zes, manifest, arsc, enc, k - 1);
        let e = zes[k - 1];
        if e.0 == spec_payload_path() || enc.contains(e.0) {
            pre
        } else if e.0 == ascii_bytes("AndroidManifest.xml"@) && manifest is Some {
            pre
        } else if e.0 == ascii_bytes("resources.arsc"@) && arsc is Some {
            pre
        } else if e.3 {
            pre
        } else {
            match spec_class_index(e.0) {
                Some(ci) => pre + seq![(ci as int, e.1)],
                None => pre,
            }
        }
    }
}

/// The bootstrap executable sections as output entries: stored uncompressed
/// under consecutive indices starting at 1.
pub open spec fn spec_bootstrap_dex_entries(bdexes: Seq<Seq<u8>>) -> Seq<ZipEntryModel> {
    Seq::new(bdexes.len(), |i: int| (spec_dex_name((i + 1) as usize), bdexes[i], 0u16, false))
}

/// The retained original sections as output entries: renumbered to follow
/// the bootstrap sections, in index order, stored uncompressed.
pub open spec fn spec_retained_entries(sorted: Seq<(int, Seq<u8>)>, base: int) -> Seq<
    ZipEntryModel,
> {
    Seq::new(sorted.len(), |i: int| (spec_dex_name((base + i + 1) as usize), sorted[i].1, 0u16, false))
}

/// The archive path of a bootstrap shared library for one ABI.
pub open spec fn spec_shell_lib_name(abi: Seq<u8>) -> Seq<u8> {
    ascii_bytes("lib/"@) + abi + ascii_bytes("/libshell.so"@)
}

/// The bootstrap shared libraries as output entries, stored uncompressed.
pub open spec fn spec_shell_lib_entries(libs: Seq<(Seq<u8>, Seq<u8>)>) -> Seq<ZipEntryModel> {
    Seq::new(libs.len(), |i: int| (spec_shell_lib_name(libs[i].0), libs[i].1, 0u16, false))
}

/// Everything the hardened archive holds, in writing order: the copied
/// entries, the bootstrap sections, the renumbered retained sections, the
/// bootstrap libraries, and the payload blob stored uncompressed.
pub open spec fn spec_repack_entries(
    zes: Seq<ZipEntryModel>,
    manifest: Option<Seq<u8>>,
    arsc: Option<Seq<u8>>,
    enc: Seq<Seq<u8>>,
    bdexes: Seq<Seq<u8>>,
    libs: Seq<(Seq<u8>, Seq<u8>)>,
    blob: Seq<u8>,
) -> Seq<ZipEntryModel> {
    let copied = spec_copied_entries(zes, manifest, arsc, enc, zes.len() as int);
    let retained = spec_sort_by_index(spec_retained_dexes(zes, manifest, arsc, enc, zes.len() as int));
    copied + spec_bootstrap_dex_entries(bdexes) + spec_retained_entries(
        retained,
        bdexes.len() as int,
    ) + spec_shell_lib_entries(libs) + seq![(spec_payload_path(), blob, 0u16, false)]
}

proof fn lemma_copied_prefix(
    zes: Seq<ZipEntryModel>,
    manifest: Option<Seq<u8>>,
    arsc: Option<Seq<u8>>,
    enc: Seq<Seq<u8>>,
    i: int,
    n: int,
)
    requires
        0 <= i <= n,
    ensures
        spec_copied_entries(zes, manifest, arsc, enc, i).is_prefix_of(
            spec_copied_entries(zes, manifest, arsc, enc, n),
        ),
    decreases n - i,
{
    if i < n {
        lemma_copied_prefix(zes, manifest, arsc, enc, i, n - 1);
        let a = spec_copied_entries(zes, manifest, arsc, enc, i);
        let b = spec_copied_entries(zes, manifest, arsc, enc, n - 1);
        let c = spec_copied_entries(zes, manifest, arsc, enc, n);
        assert(b.is_prefix_of(c)) by {
            assert(b =~= c.take(b.len() as int));
        }
        assert(a =~= c.take(b.len() as int).take(a.len() as int));
        assert(c.take(b.len() as int).take(a.len() as int) =~= c.take(a.len() as int));
    }
}

/// Everything a successful repack needs: the target parses and reads back,
/// a bootstrap library is present, the section count fits the machine,
/// every planned entry fits the writer's per-entry cap and is accepted, and
/// closing the archive succeeds.
pub open spec fn spec_repack_ready(
    target: Seq<u8>,
    manifest: Option<Seq<u8>>,
    arsc: Option<Seq<u8>>,
    enc: Seq<Seq<u8>>,
    bdexes: Seq<Seq<u8>>,
    libs: Seq<(Seq<u8>, Seq<u8>)>,
    blob: Seq<u8>,
) -> bool {
    &&& zip_parse(target) is Some
    &&& libs.len() > 0
    &&& (forall|j: int|
        0 <= j < zip_parse(target).unwrap().len() ==> #[trigger] zip_readable(target, j))
    &&& bdexes.len() + spec_retained_dexes(
        zip_parse(target).unwrap(),
        manifest,
        arsc,
        enc,
        zip_parse(target).unwrap().len() as int,
    ).len() + 1 <= usize::MAX
    &&& spec_entries_fit_u32(
        spec_repack_entries(zip_parse(target).unwrap(), manifest, arsc, enc, bdexes, libs, blob),
    )
    &&& spec_appends_accepted(
        spec_repack_entries(zip_parse(target).unwrap(), manifest, arsc, enc, bdexes, libs, blob),
    )
    &&& zip_finish_ok(
        spec_repack_entries(zip_parse(target).unwrap(), manifest, arsc, enc, bdexes, libs, blob),
    )
}

/// Some element of the name list equals `name`.
#[verifier::loop_isolation(false)]
fn name_list_contains(names: &Vec<Vec<u8>>, name: &Vec<u8>) -> (r: bool)
    ensures
        r == names.deep_view().contains(name@),
{
    let n = names.len();
    let mut i: usize = 0;
    while i < n
        invariant
            0 <= i <= n,
            n == names@.len(),
            forall|j: int| 0 <= j < i ==> names.deep_view()[j] != name@,
        decreases n - i,
    {
        proof {
            assert(names.deep_view()[i as int] == names@[i as int]@);
        }
        if bytes_equal(names[i].as_slice(), name.as_slice()) {
            proof {
                assert(names.deep_view()[i as int] == name@);
            }
            return true;
        }
        i += 1;
    }
    proof {
        assert forall|j: int| 0 <= j < names.deep_view().len() implies names.deep_view()[j]
            != name@ by {}
    }
    false
}

/// Rewrite the target archive into the hardened archive: drop the sealed
/// entries and any stale payload, substitute a patched manifest or resource
/// table when supplied, place the bootstrap sections first, renumber the
/// retained originals after them, add the bootstrap libraries under each
/// ABI, and store the payload blob uncompressed at its well-known path.
/// Missing bootstrap libraries are fatal (`ConfigError`); it succeeds
/// exactly when the target parses and reads back and the writer accepts
/// the whole planned archive.
#[verifier::loop_isolation(false)]
#[verifier::rlimit(60)]
pub fn repack_target_with_bootstrap(
    target: Vec<u8>,
    bootstrap_dexes: &Vec<Vec<u8>>,
    bootstrap_libs: &Vec<AbiLib>,
    patched_manifest: &Option<Vec<u8>>,
    resources_arsc: &Option<Vec<u8>>,
    encrypted_entry_names: &Vec<Vec<u8>>,
    payload_blob: &Vec<u8>,
) -> (r: Result<Vec<u8>, ShellError>)
    ensures
        r is Ok <==> spec_repack_ready(
            target@,
            match patched_manifest {
                Some(m) => Some(m@),
                None => None,
            },
            match resources_arsc {
                Some(a) => Some(a@),
                None => None,
            },
            encrypted_entry_names.deep_view(),
            bootstrap_dexes.deep_view(),
            abi_lib_models(bootstrap_libs@),
            payload_blob@,
        ),
        bootstrap_libs@.len() == 0 ==> r == Err::<Vec<u8>, ShellError>(ShellError::ConfigError),
        bootstrap_libs@.len() > 0 && r is Err ==> r == Err::<Vec<u8>, ShellError>(
            ShellError::ArchiveError,
        ),
        r matches Ok(out) ==> ({
            &&& out@ == zip_encode(
                spec_repack_entries(
                    zip_parse(target@).unwrap(),
                    match patched_manifest {
                        Some(m) => Some(m@),
                        None => None,
                    },
                    match resources_arsc {
                        Some(a) => Some(a@),
                        None => None,
                    },
                    encrypted_entry_names.deep_view(),
                    bootstrap_dexes.deep_view(),
                    abi_lib_models(bootstrap_libs@),
                    payload_blob@,
                ),
            )
        }),
        r matches Err(e) ==> e == ShellError::ArchiveError || e == ShellError::ConfigError,
{
    proof {
        reveal_strlit("assets/kapp_payload.bin");
        reveal_strlit("AndroidManifest.xml");
        reveal_strlit("resources.arsc");
        reveal_strlit("lib/");
        reveal_strlit("/libshell.so");
    }
    if bootstrap_libs.len() == 0 {
        return Err(ShellError::ConfigError);
    }
    let ghost manifest_model = match patched_manifest {
        Some(m) => Some::<Seq<u8>>(m@),
        None => None::<Seq<u8>>,
    };
    let ghost arsc_model = match resources_arsc {
        Some(a) => Some::<Seq<u8>>(a@),
        None => None::<Seq<u8>>,
    };
    let ghost enc = encrypted_entry_names.deep_view();
    let payload_name = payload_path();
    let manifest_name = str_bytes("AndroidManifest.xml");
    let arsc_name = str_bytes("resources.arsc");
    let ghost old_target_view = target@;
    let mut z = match zip_open(target) {
        Ok(z) => z,
        Err(e) => {
            return Err(e);
        },
    };
    let ghost tbytes = old_target_view;
    let ghost zes = zip_entries(z);
    let ghost full = spec_repack_entries(
        zes,
        manifest_model,
        arsc_model,
        enc,
        bootstrap_dexes.deep_view(),
        abi_lib_models(bootstrap_libs@),
        payload_blob@,
    );
    let ghost copied_all = spec_copied_entries(
        zes,
        manifest_model,
        arsc_model,
        enc,
        zes.len() as int,
    );
    let n = zip_len(&z);
    let mut w = zip_writer_new();
    let mut retained: Vec<IndexedDex> = Vec::new();
    proof {
        assert(zip_written(w) =~= spec_copied_entries(zes, manifest_model, arsc_model, enc, 0));
        assert(dex_models(retained@) =~= Seq::<(int, Seq<u8>)>::empty());
        assert(spec_retained_dexes(zes, manifest_model, arsc_model, enc, 0) =~= Seq::<
            (int, Seq<u8>),
        >::empty());
    }
    let mut i: usize = 0;
    while i < n
        invariant
            0 <= i <= n,
            n == zes.len(),
            zip_entries(z) == zes,
            payload_name@ == spec_payload_path(),
            manifest_name@ == ascii_bytes("AndroidManifest.xml"@),
            arsc_name@ == ascii_bytes("resources.arsc"@),
            manifest_model == (match patched_manifest {
                Some(m) => Some::<Seq<u8>>(m@),
                None => None::<Seq<u8>>,
            }),
            arsc_model == (match resources_arsc {
                Some(a) => Some::<Seq<u8>>(a@),
                None => None::<Seq<u8>>,
            }),
            enc == encrypted_entry_names.deep_view(),
            forall|j: int| #[trigger] zip_entry_ok(z, j) == zip_readable(tbytes, j),
            forall|j: int| 0 <= j < i ==> #[trigger] zip_readable(tbytes, j),
            zip_written(w) == spec_copied_entries(zes, manifest_model, arsc_model, enc, i as int),
            spec_appends_accepted(zip_written(w)),
            spec_entries_fit_u32(zip_written(w)),
            dex_models(retained@) == spec_sort_by_index(
                spec_retained_dexes(zes, manifest_model, arsc_model, enc, i as int),
            ),
            retained@.len() == spec_retained_dexes(zes, manifest_model, arsc_model, enc, i as int).len(),
        decreases n - i,
    {
        let e = match zip_entry(&mut z, i) {
            Ok(e) => e,
            Err(err) => {
                proof {
                    assert(!zip_readable(tbytes, i as int));
                }
                return Err(err);
            },
        };
        let ghost copied_pre = spec_copied_entries(zes, manifest_model, arsc_model, enc, i as int);
        let dropped = bytes_equal(e.name.as_slice(), payload_name.as_slice())
            || name_list_contains(encrypted_entry_names, &e.name);
        if dropped {
        } else if bytes_equal(e.name.as_slice(), manifest_name.as_slice())
            && patched_manifest.is_some() {
            let m = match patched_manifest {
                Some(m) => m,
                None => {
                    return Err(ShellError::ArchiveError);
                },
            };
            let ghost em = (e.name@, m@, e.method, false);
            proof {
                lemma_copied_prefix(zes, manifest_model, arsc_model, enc, i + 1, n as int);
                assert(copied_pre + seq![em] =~= full.take(copied_pre.len() as int + 1));
            }
            if m.len() as u64 > 0xffff_ffffu64 {
                proof {
                    crate::archive::lemma_not_fit_at(full, copied_pre, em);
                }
                return Err(ShellError::ArchiveError);
            }
            match zip_append_file(&mut w, &e.name, e.method, m) {
                Ok(()) => {
                    proof {
                        crate::archive::lemma_accepted_extend(copied_pre, em);
                        crate::archive::lemma_fit_extend(copied_pre, em);
                    }
                },
                Err(err) => {
                    proof {
                        crate::archive::lemma_not_accepted_at(full, copied_pre, em);
                    }
                    return Err(err);
                },
            }
        } else if bytes_equal(e.name.as_slice(), arsc_name.as_slice())
            && resources_arsc.is_some() {
            let a = match resources_arsc {
                Some(a) => a,
                None => {
                    return Err(ShellError::ArchiveError);
                },
            };
            let ghost em = (e.name@, a@, e.method, false);
            proof {
                lemma_copied_prefix(zes, manifest_model, arsc_model, enc, i + 1, n as int);
                assert(copied_pre + seq![em] =~= full.take(copied_pre.len() as int + 1));
            }
            if a.len() as u64 > 0xffff_ffffu64 {
                proof {
                    crate::archive::lemma_not_fit_at(full, copied_pre, em);
                }
                return Err(ShellError::ArchiveError);
            }
            match zip_append_file(&mut w, &e.name, e.method, a) {
                Ok(()) => {
                    proof {
                        crate::archive::lemma_accepted_extend(copied_pre, em);
                        crate::archive::lemma_fit_extend(copied_pre, em);
                    }
                },
                Err(err) => {
                    proof {
                        crate::archive::lemma_not_accepted_at(full, copied_pre, em);
                    }
                    return Err(err);
                },
            }
        } else if e.is_dir {
            match zip_append_dir(&mut w, &e.name) {
                Ok(()) => {
                    proof {
                        crate::archive::lemma_accepted_extend(
                            copied_pre,
                            (spec_dir_name(e.name@), Seq::<u8>::empty(), 0u16, true),
                        );
                        crate::archive::lemma_fit_extend(
                            copied_pre,
                            (spec_dir_name(e.name@), Seq::<u8>::empty(), 0u16, true),
                        );
                    }
                },
                Err(err) => {
                    proof {
                        let em = spec_copied_entries(
                            zes,
                            manifest_model,
                            arsc_model,
                            enc,
                            i + 1,
                        ).last();
                        lemma_copied_prefix(zes, manifest_model, arsc_model, enc, i + 1, n as int);
                        assert(copied_pre + seq![em] =~= full.take(copied_pre.len() as int + 1));
                        crate::archive::lemma_not_accepted_at(full, copied_pre, em);
                    }
                    return Err(err);
                },
            }
        } else {
            match class_index(e.name.as_slice()) {
                Some(ci) => {
                    let ghost pre = spec_retained_dexes(zes, manifest_model, arsc_model, enc, i as int);
                    insert_by_index(&mut retained, IndexedDex { index: ci, data: e.data });
                    proof {
                        assert(spec_retained_dexes(zes, manifest_model, arsc_model, enc, i + 1)
                            =~= pre + seq![(ci as int, zes[i as int].1)]);
                        assert((pre + seq![(ci as int, zes[i as int].1)]).drop_last() =~= pre);
                        assert((pre + seq![(ci as int, zes[i as int].1)]).last() == (
                            ci as int,
                            zes[i as int].1,
                        ));
                        lemma_insert_by_index_len(spec_sort_by_index(pre), (ci as int, zes[i as int].1));
                        lemma_sort_by_index_len(pre);
                        lemma_sort_by_index_len(
                            spec_retained_dexes(zes, manifest_model, arsc_model, enc, i + 1),
                        );
                    }
                },
                None => {
                    let ghost em = (e.name@, e.data@, e.method, false);
                    proof {
                        lemma_copied_prefix(zes, manifest_model, arsc_model, enc, i + 1, n as int);
                        assert(copied_pre + seq![em] =~= full.take(copied_pre.len() as int + 1));
                    }
                    if e.data.len() as u64 > 0xffff_ffffu64 {
                        proof {
                            crate::archive::lemma_not_fit_at(full, copied_pre, em);
                        }
                        return Err(ShellError::ArchiveError);
                    }
                    match zip_append_file(&mut w, &e.name, e.method, &e.data) {
                        Ok(()) => {
                            proof {
                                crate::archive::lemma_accepted_extend(copied_pre, em);
                                crate::archive::lemma_fit_extend(copied_pre, em);
                            }
                        },
                        Err(err) => {
                            proof {
                                crate::archive::lemma_not_accepted_at(full, copied_pre, em);
                            }
                            return Err(err);
                        },
                    }
                },
            }
        }
        proof {
            assert(zip_written(w) =~= spec_copied_entries(
                zes,
                manifest_model,
                arsc_model,
                enc,
                i + 1,
            ));
            assert(dex_models(retained@) =~= spec_sort_by_index(
                spec_retained_dexes(zes, manifest_model, arsc_model, enc, i + 1),
            ));
        }
        i += 1;
    }
    let ghost copied = spec_copied_entries(zes, manifest_model, arsc_model, enc, n as int);
    let ghost sorted = dex_models(retained@);
    proof {
        assert(copied == copied_all);
        assert(forall|j: int|
            0 <= j < zip_parse(tbytes).unwrap().len() ==> #[trigger] zip_readable(tbytes, j));
    }
    let num_bootstrap = bootstrap_dexes.len();
    if num_bootstrap > usize::MAX - 1 || retained.len() > usize::MAX - 1 - num_bootstrap {
        return Err(ShellError::ArchiveError);
    }
    let mut j: usize = 0;
    while j < num_bootstrap
        invariant
            0 <= j <= num_bootstrap,
            num_bootstrap == bootstrap_dexes@.len(),
            zip_written(w) == copied + spec_bootstrap_dex_entries(bootstrap_dexes.deep_view()).take(
                j as int,
            ),
            spec_appends_accepted(zip_written(w)),
            spec_entries_fit_u32(zip_written(w)),
        decreases num_bootstrap - j,
    {
        let ghost pre = zip_written(w);
        let ghost em = (spec_dex_name((j + 1) as usize), bootstrap_dexes.deep_view()[j as int], 0u16, false);
        proof {
            assert(bootstrap_dexes.deep_view()[j as int] == bootstrap_dexes@[j as int]@);
            assert(pre + seq![em] =~= full.take(pre.len() as int + 1));
        }
        let dex_name = dex_name_for_index(j + 1);
        if bootstrap_dexes[j].len() as u64 > 0xffff_ffffu64 {
            proof {
                crate::archive::lemma_not_fit_at(full, pre, em);
            }
            return Err(ShellError::ArchiveError);
        }
        match zip_append_file(&mut w, &dex_name, 0, &bootstrap_dexes[j]) {
            Ok(()) => {
                proof {
                    crate::archive::lemma_accepted_extend(pre, em);
                    crate::archive::lemma_fit_extend(pre, em);
                }
            },
            Err(err) => {
                proof {
                    crate::archive::lemma_not_accepted_at(full, pre, em);
                }
                return Err(err);
            },
        }
        proof {
            assert(zip_written(w) =~= copied + spec_bootstrap_dex_entries(
                bootstrap_dexes.deep_view(),
            ).take(j + 1));
        }
        j += 1;
    }
    let ghost bentries = spec_bootstrap_dex_entries(bootstrap_dexes.deep_view());
    proof {
        assert(bentries.take(num_bootstrap as int) =~= bentries);
    }
    let m = retained.len();
    let mut j: usize = 0;
    while j < m
        invariant
            0 <= j <= m,
            m == retained@.len(),
            sorted == dex_models(retained@),
            num_bootstrap == bootstrap_dexes@.len(),
            num_bootstrap + m <= usize::MAX - 1,
            zip_written(w) == copied + bentries + spec_retained_entries(
                sorted,
                num_bootstrap as int,
            ).take(j as int),
            spec_appends_accepted(zip_written(w)),
            spec_entries_fit_u32(zip_written(w)),
        decreases m - j,
    {
        let ghost pre = zip_written(w);
        let ghost em = (
            spec_dex_name((num_bootstrap + j + 1) as usize),
            sorted[j as int].1,
            0u16,
            false,
        );
        proof {
            assert(pre + seq![em] =~= full.take(pre.len() as int + 1));
        }
        let dex_name = dex_name_for_index(num_bootstrap + j + 1);
        if retained[j].data.len() as u64 > 0xffff_ffffu64 {
            proof {
                crate::archive::lemma_not_fit_at(full, pre, em);
            }
            return Err(ShellError::ArchiveError);
        }
        match zip_append_file(&mut w, &dex_name, 0, &retained[j].data) {
            Ok(()) => {
                proof {
                    crate::archive::lemma_accepted_extend(pre, em);
                    crate::archive::lemma_fit_extend(pre, em);
                }
            },
            Err(err) => {
                proof {
                    crate::archive::lemma_not_accepted_at(full, pre, em);
                }
                return Err(err);
            },
        }
        proof {
            assert(zip_written(w) =~= copied + bentries + spec_retained_entries(
                sorted,
                num_bootstrap as int,
            ).take(j + 1));
        }
        j += 1;
    }
    let ghost rentries = spec_retained_entries(sorted, num_bootstrap as int);
    proof {
        assert(rentries.take(m as int) =~= rentries);
    }
    let lib_prefix = str_bytes("lib/");
    let lib_suffix = str_bytes("/libshell.so");
    let nl = bootstrap_libs.len();
    let mut j: usize = 0;
    while j < nl
        invariant
            0 <= j <= nl,
            nl == bootstrap_libs@.len(),
            lib_prefix@ == ascii_bytes("lib/"@),
            lib_suffix@ == ascii_bytes("/libshell.so"@),
            zip_written(w) == copied + bentries + rentries + spec_shell_lib_entries(
                abi_lib_models(bootstrap_libs@),
            ).take(j as int),
            spec_appends_accepted(zip_written(w)),
            spec_entries_fit_u32(zip_written(w)),
        decreases nl - j,
    {
        let ghost pre = zip_written(w);
        let ghost em = (
            spec_shell_lib_name(bootstrap_libs@[j as int].abi@),
            bootstrap_libs@[j as int].data@,
            0u16,
            false,
        );
        proof {
            assert(pre + seq![em] =~= full.take(pre.len() as int + 1));
        }
        let mut lib_name: Vec<u8> = Vec::new();
        append_bytes(&mut lib_name, lib_prefix.as_slice());
        append_bytes(&mut lib_name, bootstrap_libs[j].abi.as_slice());
        append_bytes(&mut lib_name, lib_suffix.as_slice());
        proof {
            assert(lib_name@ =~= spec_shell_lib_name(bootstrap_libs@[j as int].abi@));
        }
        if bootstrap_libs[j].data.len() as u64 > 0xffff_ffffu64 {
            proof {
                crate::archive::lemma_not_fit_at(full, pre, em);
            }
            return Err(ShellError::ArchiveError);
        }
        match zip_append_file(&mut w, &lib_name, 0, &bootstrap_libs[j].data) {
            Ok(()) => {
                proof {
                    crate::archive::lemma_accepted_extend(pre, em);
                    crate::archive::lemma_fit_extend(pre, em);
                }
            },
            Err(err) => {
                proof {
                    crate::archive::lemma_not_accepted_at(full, pre, em);
                }
                return Err(err);
            },
        }
        proof {
            assert(zip_written(w) =~= copied + bentries + rentries + spec_shell_lib_entries(
                abi_lib_models(bootstrap_libs@),
            ).take(j + 1));
        }
        j += 1;
    }
    let ghost lentries = spec_shell_lib_entries(abi_lib_models(bootstrap_libs@));
    proof {
        assert(lentries.take(nl as int) =~= lentries);
    }
    let ghost pre_pay = zip_written(w);
    let ghost em_pay = (spec_payload_path(), payload_blob@, 0u16, false);
    proof {
        assert(pre_pay + seq![em_pay] =~= full.take(pre_pay.len() as int + 1));
    }
    if payload_blob.len() as u64 > 0xffff_ffffu64 {
        proof {
            crate::archive::lemma_not_fit_at(full, pre_pay, em_pay);
        }
        return Err(ShellError::ArchiveError);
    }
    match zip_append_file(&mut w, &payload_name, 0, payload_blob) {
        Ok(()) => {
            proof {
                crate::archive::lemma_accepted_extend(pre_pay, em_pay);
                crate::archive::lemma_fit_extend(pre_pay, em_pay);
            }
        },
        Err(err) => {
            proof {
                crate::archive::lemma_not_accepted_at(full, pre_pay, em_pay);
            }
            return Err(err);
        },
    }
    proof {
        assert(zip_written(w) =~= full);
    }
    zip_finish(w)
}

/// Packing round trip: a sealed list that matches a selection builds a blob
/// that parses back to exactly that list, every recovered ciphertext opens,
/// and opening yields exactly the selected names and plaintexts, in order.
pub proof fn lemma_pack_roundtrip(
    pes: Seq<EntryModel>,
    sel: Seq<(Seq<u8>, Seq<u8>)>,
    key: Seq<u8>,
)
    requires
        wf_entries(pes),
        spec_sealed_matches(pes, sel, key),
    ensures
        crate::codec::spec_parse_blob(crate::codec::blob_bytes(pes)) == Some(pes),
        crate::crypto::decrypt_ok(key, pes),
        crate::crypto::decrypted_models(key, pes) == Seq::new(
            sel.len(),
            |i: int| crate::crypto::PlainModel { name: sel[i].0, data: sel[i].1 },
        ),
{
    let plains = Seq::new(sel.len(), |i: int| sel[i].1);
    crate::crypto::lemma_seal_build_open_roundtrip(pes, plains, key);
    assert(crate::crypto::decrypted_models(key, pes) =~~= Seq::new(
        sel.len(),
        |i: int| crate::crypto::PlainModel { name: sel[i].0, data: sel[i].1 },
    ));
}

} // verus!
