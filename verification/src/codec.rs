use crate::bytestr::{append_bytes, ascii_bytes, bytes_equal, copy_range, str_bytes};
use crate::errors::ShellError;
use vstd::bytes::{
    lemma_auto_spec_u16_to_from_le_bytes, lemma_auto_spec_u32_to_from_le_bytes,
    spec_u16_from_le_bytes, spec_u16_to_le_bytes, spec_u32_from_le_bytes, spec_u32_to_le_bytes,
    u16_from_le_bytes, u16_to_le_bytes, u32_from_le_bytes, u32_to_le_bytes,
};
use vstd::prelude::*;
use vstd::utf8::valid_utf8;

verus! {

// ---------- data model ----------

/// One payload entry as carried on the wire: the archive-relative name, the
/// AEAD ciphertext (tag appended), and the 12-byte nonce it was sealed with.
#[derive(Debug, PartialEq, Eq)]
pub struct PayloadEntry {
    pub name: Vec<u8>,
    pub cipher: Vec<u8>,
    pub nonce: Vec<u8>,
}

/// Mathematical model of a payload entry.
#[verifier::ext_equal]
pub ghost struct EntryModel {
    pub name: Seq<u8>,
    pub cipher: Seq<u8>,
    pub nonce: Seq<u8>,
}

impl View for PayloadEntry {
    type V = EntryModel;

    open spec fn view(&self) -> EntryModel {
        EntryModel { name: self.name@, cipher: self.cipher@, nonce: self.nonce@ }
    }
}

/// The models of a sequence of entries.
pub open spec fn entry_models(v: Seq<PayloadEntry>) -> Seq<EntryModel> {
    Seq::new(v.len(), |i: int| v[i]@)
}

/// Field-width limits the wire format imposes on one entry, and the name
/// constraint the reader enforces.
pub open spec fn wf_entry(e: EntryModel) -> bool {
    &&& e.name.len() <= 0xffff
    &&& valid_utf8(e.name)
    &&& e.cipher.len() <= 0xffff_ffff
    &&& e.nonce.len() == 12
}

/// A whole entry list the format can carry.
pub open spec fn wf_entries(es: Seq<EntryModel>) -> bool {
    &&& es.len() <= 0xffff_ffff
    &&& (forall|i: int| 0 <= i < es.len() ==> wf_entry(#[trigger] es[i]))
    &&& metadata_bytes(es).len() <= 0xffff_ffff
}

// ---------- wire layout, build direction ----------

/// The 5 magic bytes closing a payload blob.
pub open spec fn magic_bytes() -> Seq<u8> {
    ascii_bytes("SHELL"@)
}

/// One metadata record:
/// `[name_len: u16 LE][name][cipher_len: u32 LE][nonce: 12 bytes]`.
pub open spec fn record_bytes(e: EntryModel) -> Seq<u8> {
    spec_u16_to_le_bytes(e.name.len() as u16) + e.name + spec_u32_to_le_bytes(
        e.cipher.len() as u32,
    ) + e.nonce
}

/// All metadata records, in entry order.
pub open spec fn records_bytes(es: Seq<EntryModel>) -> Seq<u8>
    decreases es.len(),
{
    if es.len() == 0 {
        Seq::empty()
    } else {
        record_bytes(es[0]) + records_bytes(es.skip(1))
    }
}

/// The metadata descriptor: a 4-byte LE entry count, then the records.
pub open spec fn metadata_bytes(es: Seq<EntryModel>) -> Seq<u8> {
    spec_u32_to_le_bytes(es.len() as u32) + records_bytes(es)
}

/// All ciphertexts, concatenated in entry order with no delimiters.
pub open spec fn ciphers_bytes(es: Seq<EntryModel>) -> Seq<u8>
    decreases es.len(),
{
    if es.len() == 0 {
        Seq::empty()
    } else {
        es[0].cipher + ciphers_bytes(es.skip(1))
    }
}

/// The whole payload blob: ciphertexts, metadata, then the 9-byte footer
/// `[metadata_len: u32 LE][magic]`.
pub open spec fn blob_bytes(es: Seq<EntryModel>) -> Seq<u8> {
    ciphers_bytes(es) + metadata_bytes(es) + spec_u32_to_le_bytes(metadata_bytes(es).len() as u32)
        + magic_bytes()
}

pub proof fn lemma_records_bytes_snoc(es: Seq<EntryModel>, i: int)
    requires
        0 <= i < es.len(),
    ensures
        records_bytes(es.take(i + 1)) == records_bytes(es.take(i)) + record_bytes(es[i]),
    decreases i,
{
    if i == 0 {
        assert(es.take(1)[0] == es[0]);
        assert(es.take(1).skip(1) =~= Seq::<EntryModel>::empty());
        assert(es.take(0) =~= Seq::<EntryModel>::empty());
        assert(records_bytes(es.take(1)) =~= records_bytes(es.take(0)) + record_bytes(es[0]));
    } else {
        assert(es.take(i + 1)[0] == es[0]);
        assert(es.take(i)[0] == es[0]);
        assert(es.take(i + 1).skip(1) =~= es.skip(1).take(i));
        assert(es.take(i).skip(1) =~= es.skip(1).take(i - 1));
        lemma_records_bytes_snoc(es.skip(1), i - 1);
        assert(es.skip(1)[i - 1] == es[i]);
        assert(record_bytes(es[0]) + (records_bytes(es.skip(1).take(i - 1)) + record_bytes(es[i]))
            =~= (record_bytes(es[0]) + records_bytes(es.skip(1).take(i - 1))) + record_bytes(
            es[i],
        ));
    }
}

proof fn lemma_ciphers_bytes_snoc(es: Seq<EntryModel>, i: int)
    requires
        0 <= i < es.len(),
    ensures
        ciphers_bytes(es.take(i + 1)) == ciphers_bytes(es.take(i)) + es[i].cipher,
    decreases i,
{
    if i == 0 {
        assert(es.take(1)[0] == es[0]);
        assert(es.take(1).skip(1) =~= Seq::<EntryModel>::empty());
        assert(es.take(0) =~= Seq::<EntryModel>::empty());
        assert(ciphers_bytes(es.take(1)) =~= ciphers_bytes(es.take(0)) + es[0].cipher);
    } else {
        assert(es.take(i + 1)[0] == es[0]);
        assert(es.take(i)[0] == es[0]);
        assert(es.take(i + 1).skip(1) =~= es.skip(1).take(i));
        assert(es.take(i).skip(1) =~= es.skip(1).take(i - 1));
        lemma_ciphers_bytes_snoc(es.skip(1), i - 1);
        assert(es.skip(1)[i - 1] == es[i]);
        assert(es[0].cipher + (ciphers_bytes(es.skip(1).take(i - 1)) + es[i].cipher) =~= (es[0].cipher
            + ciphers_bytes(es.skip(1).take(i - 1))) + es[i].cipher);
    }
}

/// Serialize a payload entry list into one self-describing blob.
#[verifier::loop_isolation(false)]
pub fn build_payload_blob(entries: &Vec<PayloadEntry>) -> (r: Vec<u8>)
    requires
        wf_entries(entry_models(entries@)),
    ensures
        r@ == blob_bytes(entry_models(entries@)),
{
    let ghost es = entry_models(entries@);
    let n = entries.len();
    let mut blob: Vec<u8> = Vec::new();
    let mut i: usize = 0;
    while i < n
        invariant
            0 <= i <= n,
            blob@ == ciphers_bytes(es.take(i as int)),
        decreases n - i,
    {
        append_bytes(&mut blob, entries[i].cipher.as_slice());
        proof {
            lemma_ciphers_bytes_snoc(es, i as int);
        }
        i += 1;
    }
    proof {
        assert(es.take(n as int) =~= es);
    }
    let mut metadata: Vec<u8> = u32_to_le_bytes(n as u32);
    let mut i: usize = 0;
    while i < n
        invariant
            0 <= i <= n,
            metadata@ == spec_u32_to_le_bytes(n as u32) + records_bytes(es.take(i as int)),
        decreases n - i,
    {
        let e = &entries[i];
        let name_len = u16_to_le_bytes(e.name.len() as u16);
        append_bytes(&mut metadata, name_len.as_slice());
        append_bytes(&mut metadata, e.name.as_slice());
        let cipher_len = u32_to_le_bytes(e.cipher.len() as u32);
        append_bytes(&mut metadata, cipher_len.as_slice());
        append_bytes(&mut metadata, e.nonce.as_slice());
        proof {
            lemma_records_bytes_snoc(es, i as int);
            assert(metadata@ =~= spec_u32_to_le_bytes(n as u32) + records_bytes(
                es.take(i + 1),
            ));
        }
        i += 1;
    }
    proof {
        assert(es.take(n as int) =~= es);
        assert(metadata@ == metadata_bytes(es));
    }
    let md_len = u32_to_le_bytes(metadata.len() as u32);
    append_bytes(&mut blob, metadata.as_slice());
    append_bytes(&mut blob, md_len.as_slice());
    proof {
        reveal_strlit("SHELL");
    }
    let magic = str_bytes("SHELL");
    append_bytes(&mut blob, magic.as_slice());
    proof {
        assert(blob@ =~= blob_bytes(es));
    }
    blob
}

// ---------- wire layout, parse direction ----------

/// One parsed metadata record.
#[verifier::ext_equal]
pub ghost struct RecordMeta {
    pub name: Seq<u8>,
    pub cipher_len: int,
    pub nonce: Seq<u8>,
}

/// Parse `n` metadata records from the front of `md`; trailing bytes are
/// ignored, exactly as a sequential reader leaves them unread.
pub open spec fn parse_records(md: Seq<u8>, n: nat) -> Option<Seq<RecordMeta>>
    decreases n,
{
    if n == 0 {
        Some(Seq::empty())
    } else if md.len() < 2 {
        None
    } else {
        let name_len = spec_u16_from_le_bytes(md.subrange(0, 2)) as int;
        if md.len() < 18 + name_len {
            None
        } else if !valid_utf8(md.subrange(2, 2 + name_len)) {
            None
        } else {
            let rec = RecordMeta {
                name: md.subrange(2, 2 + name_len),
                cipher_len: spec_u32_from_le_bytes(
                    md.subrange(2 + name_len, 6 + name_len),
                ) as int,
                nonce: md.subrange(6 + name_len, 18 + name_len),
            };
            match parse_records(md.skip(18 + name_len), (n - 1) as nat) {
                Some(rest) => Some(seq![rec] + rest),
                None => None,
            }
        }
    }
}

/// Total declared ciphertext length of the records.
pub open spec fn sum_cipher_lens(rs: Seq<RecordMeta>) -> int
    decreases rs.len(),
{
    if rs.len() == 0 {
        0
    } else {
        rs[0].cipher_len + sum_cipher_lens(rs.skip(1))
    }
}

/// Cut the ciphertext region of `b` into entries: record `k` owns the
/// `cipher_len` bytes at the running offset.
pub open spec fn entries_from(b: Seq<u8>, start: int, rs: Seq<RecordMeta>) -> Seq<EntryModel>
    decreases rs.len(),
{
    if rs.len() == 0 {
        Seq::empty()
    } else {
        seq![
            EntryModel {
                name: rs[0].name,
                cipher: b.subrange(start, start + rs[0].cipher_len),
                nonce: rs[0].nonce,
            },
        ] + entries_from(b, start + rs[0].cipher_len, rs.skip(1))
    }
}

/// The reader's view of a blob: recover the footer, the metadata, then the
/// ciphertext region, from the end of the byte string.
pub open spec fn spec_parse_blob(b: Seq<u8>) -> Option<Seq<EntryModel>> {
    if b.len() < 9 {
        None
    } else if b.subrange(b.len() - 5, b.len() as int) != magic_bytes() {
        None
    } else {
        let md_size = spec_u32_from_le_bytes(b.subrange(b.len() - 9, b.len() - 5)) as int;
        if md_size + 9 > b.len() {
            None
        } else if md_size < 4 {
            None
        } else {
            let md = b.subrange(b.len() - 9 - md_size, b.len() - 9);
            let n = spec_u32_from_le_bytes(md.subrange(0, 4)) as nat;
            match parse_records(md.skip(4), n) {
                None => None,
                Some(rs) => {
                    let total = sum_cipher_lens(rs);
                    if total > b.len() - 9 - md_size {
                        None
                    } else {
                        Some(entries_from(b, b.len() - 9 - md_size - total, rs))
                    }
                },
            }
        }
    }
}

/// Continuation form of `parse_records`: the records already parsed, then
/// whatever the remaining bytes hold.
pub open spec fn parse_cont(pre: Seq<RecordMeta>, md: Seq<u8>, n: nat) -> Option<Seq<RecordMeta>> {
    match parse_records(md, n) {
        None => None,
        Some(r) => Some(pre + r),
    }
}

/// Relies on `str::from_utf8`: succeeds exactly on valid UTF-8 input.
#[verifier::external_body]
fn check_utf8(v: &[u8]) -> (r: bool)
    ensures
        r == valid_utf8(v@),
{
    core::str::from_utf8(v).is_ok()
}

/// A metadata record as read back by the exec parser.
struct RecordBuf {
    name: Vec<u8>,
    cipher_len: u32,
    nonce: Vec<u8>,
}

impl View for RecordBuf {
    type V = RecordMeta;

    closed spec fn view(&self) -> RecordMeta {
        RecordMeta { name: self.name@, cipher_len: self.cipher_len as int, nonce: self.nonce@ }
    }
}

spec fn record_models(v: Seq<RecordBuf>) -> Seq<RecordMeta> {
    Seq::new(v.len(), |i: int| v[i]@)
}

proof fn lemma_sum_cipher_lens_skip(rs: Seq<RecordMeta>, k: int)
    requires
        0 <= k < rs.len(),
    ensures
        sum_cipher_lens(rs.skip(k)) == rs[k].cipher_len + sum_cipher_lens(rs.skip(k + 1)),
{
    assert(rs.skip(k)[0] == rs[k]);
    assert(rs.skip(k).skip(1) =~= rs.skip(k + 1));
}

proof fn lemma_sum_cipher_lens_take(rs: Seq<RecordMeta>, k: int)
    requires
        0 <= k < rs.len(),
    ensures
        sum_cipher_lens(rs.take(k + 1)) == sum_cipher_lens(rs.take(k)) + rs[k].cipher_len,
    decreases k,
{
    if k == 0 {
        assert(rs.take(1)[0] == rs[0]);
        assert(rs.take(1).skip(1) =~= Seq::<RecordMeta>::empty());
        assert(rs.take(0) =~= Seq::<RecordMeta>::empty());
    } else {
        assert(rs.take(k + 1)[0] == rs[0]);
        assert(rs.take(k)[0] == rs[0]);
        assert(rs.take(k + 1).skip(1) =~= rs.skip(1).take(k));
        assert(rs.take(k).skip(1) =~= rs.skip(1).take(k - 1));
        lemma_sum_cipher_lens_take(rs.skip(1), k - 1);
        assert(rs.skip(1)[k - 1] == rs[k]);
    }
}

proof fn lemma_sum_cipher_lens_nonneg(rs: Seq<RecordMeta>)
    requires
        forall|i: int| 0 <= i < rs.len() ==> (#[trigger] rs[i]).cipher_len >= 0,
    ensures
        sum_cipher_lens(rs) >= 0,
    decreases rs.len(),
{
    if rs.len() > 0 {
        assert forall|i: int| 0 <= i < rs.skip(1).len() implies (#[trigger] rs.skip(
            1,
        )[i]).cipher_len >= 0 by {
            assert(rs.skip(1)[i] == rs[i + 1]);
        }
        lemma_sum_cipher_lens_nonneg(rs.skip(1));
    }
}

proof fn lemma_entries_from_snoc(b: Seq<u8>, start: int, rs: Seq<RecordMeta>, k: int)
    requires
        0 <= k < rs.len(),
    ensures
        entries_from(b, start, rs.take(k + 1)) == entries_from(b, start, rs.take(k)) + seq![
            EntryModel {
                name: rs[k].name,
                cipher: b.subrange(
                    start + sum_cipher_lens(rs.take(k)),
                    start + sum_cipher_lens(rs.take(k)) + rs[k].cipher_len,
                ),
                nonce: rs[k].nonce,
            },
        ],
    decreases k,
{
    if k == 0 {
        assert(rs.take(1)[0] == rs[0]);
        assert(rs.take(1).skip(1) =~= rs.take(0));
        assert(entries_from(b, start + rs[0].cipher_len, rs.take(0))
            == Seq::<EntryModel>::empty());
        assert(entries_from(b, start, rs.take(0)) == Seq::<EntryModel>::empty());
        assert(entries_from(b, start, rs.take(1)) =~~= entries_from(b, start, rs.take(0)) + seq![
            EntryModel {
                name: rs[0].name,
                cipher: b.subrange(start, start + rs[0].cipher_len),
                nonce: rs[0].nonce,
            },
        ]);
    } else {
        assert(rs.take(k + 1)[0] == rs[0]);
        assert(rs.take(k)[0] == rs[0]);
        assert(rs.take(k + 1).skip(1) =~= rs.skip(1).take(k));
        assert(rs.take(k).skip(1) =~= rs.skip(1).take(k - 1));
        lemma_entries_from_snoc(b, start + rs[0].cipher_len, rs.skip(1), k - 1);
        assert(rs.skip(1)[k - 1] == rs[k]);
        lemma_sum_cipher_lens_take(rs, k);
        assert(sum_cipher_lens(rs.take(k)) == rs[0].cipher_len + sum_cipher_lens(
            rs.skip(1).take(k - 1),
        )) by {
            assert(rs.take(k)[0] == rs[0]);
            assert(rs.take(k).skip(1) =~= rs.skip(1).take(k - 1));
        }
        let head = seq![
            EntryModel {
                name: rs[0].name,
                cipher: b.subrange(start, start + rs[0].cipher_len),
                nonce: rs[0].nonce,
            },
        ];
        let tail_k = entries_from(b, start + rs[0].cipher_len, rs.skip(1).take(k - 1));
        let last = seq![
            EntryModel {
                name: rs[k].name,
                cipher: b.subrange(
                    start + sum_cipher_lens(rs.take(k)),
                    start + sum_cipher_lens(rs.take(k)) + rs[k].cipher_len,
                ),
                nonce: rs[k].nonce,
            },
        ];
        assert(head + (tail_k + last) =~~= (head + tail_k) + last);
    }
}

/// Parse a payload blob into its entries; every malformed blob is refused
/// with `FormatError`, and nothing else is ever refused.
#[verifier::loop_isolation(false)]
#[verifier::rlimit(40)]
pub fn parse_payload_blob(blob: &[u8]) -> (r: Result<Vec<PayloadEntry>, ShellError>)
    ensures
        (r matches Ok(es) ==> spec_parse_blob(blob@) == Some(entry_models(es@))),
        (r matches Err(e) ==> e == ShellError::FormatError && spec_parse_blob(blob@) is None),
        (r matches Ok(es) ==> forall|i: int|
            0 <= i < es@.len() ==> (#[trigger] es@[i]).nonce@.len() == 12),
        blob@.len() < 9 ==> r == Err::<Vec<PayloadEntry>, ShellError>(ShellError::FormatError),
        blob@.len() >= 9 && blob@.subrange(blob@.len() - 5, blob@.len() as int) != magic_bytes()
            ==> r == Err::<Vec<PayloadEntry>, ShellError>(ShellError::FormatError),
{
    let n = blob.len();
    if n < 9 {
        return Err(ShellError::FormatError);
    }
    proof {
        reveal_strlit("SHELL");
    }
    let magic_expect = str_bytes("SHELL");
    let magic_actual = copy_range(blob, n - 5, n);
    if !bytes_equal(magic_actual.as_slice(), magic_expect.as_slice()) {
        return Err(ShellError::FormatError);
    }
    let md_size_bytes = copy_range(blob, n - 9, n - 5);
    let md_size32 = u32_from_le_bytes(md_size_bytes.as_slice());
    let md_size = md_size32 as usize;
    if md_size as u64 + 9 > n as u64 {
        return Err(ShellError::FormatError);
    }
    if md_size < 4 {
        return Err(ShellError::FormatError);
    }
    let md = copy_range(blob, n - 9 - md_size, n - 9);
    let count_bytes = copy_range(md.as_slice(), 0, 4);
    let count32 = u32_from_le_bytes(count_bytes.as_slice());
    let count = count32 as usize;
    let ghost mdseq = md@;
    proof {
        assert(count == spec_u32_from_le_bytes(mdseq.subrange(0, 4)));
        match parse_records(mdseq.skip(4), count as nat) {
            Some(r0) => {
                assert(Seq::<RecordMeta>::empty() + r0 =~= r0);
            },
            None => {},
        }
    }
    let mut metas: Vec<RecordBuf> = Vec::new();
    proof {
        assert(record_models(metas@) =~= Seq::<RecordMeta>::empty());
    }
    let mut p: usize = 4;
    let mut total: u64 = 0;
    let mut i: usize = 0;
    while i < count
        invariant
            0 <= i <= count,
            4 <= p <= mdseq.len(),
            record_models(metas@).len() == i,
            parse_cont(record_models(metas@), mdseq.skip(p as int), (count - i) as nat)
                == parse_records(mdseq.skip(4), count as nat),
            total == sum_cipher_lens(record_models(metas@)),
            total <= i as u64 * 0xffff_ffffu64,
            forall|j: int| 0 <= j < i ==> (#[trigger] metas@[j]).nonce@.len() == 12,
        decreases count - i,
    {
        let ghost pre = record_models(metas@);
        let ghost sp = mdseq.skip(p as int);
        let ghost k = (count - i) as nat;
        if md.len() - p < 2 {
            proof {
                assert(parse_records(sp, k) is None);
                assert(spec_parse_blob(blob@) is None);
            }
            return Err(ShellError::FormatError);
        }
        let name_len_bytes = copy_range(md.as_slice(), p, p + 2);
        let name_len16 = u16_from_le_bytes(name_len_bytes.as_slice());
        let name_len = name_len16 as usize;
        proof {
            assert(sp.subrange(0, 2) =~= mdseq.subrange(p as int, p + 2));
            assert(name_len == spec_u16_from_le_bytes(sp.subrange(0, 2)));
        }
        if ((md.len() - p) as u64) < 18 + name_len as u64 {
            proof {
                assert(sp.len() < 18 + name_len);
                assert(parse_records(sp, k) is None);
                assert(spec_parse_blob(blob@) is None);
            }
            return Err(ShellError::FormatError);
        }
        let name = copy_range(md.as_slice(), p + 2, p + 2 + name_len);
        proof {
            assert(name@ =~= sp.subrange(2, 2 + name_len as int));
        }
        if !check_utf8(name.as_slice()) {
            proof {
                assert(parse_records(sp, k) is None);
                assert(spec_parse_blob(blob@) is None);
            }
            return Err(ShellError::FormatError);
        }
        let clen_bytes = copy_range(md.as_slice(), p + 2 + name_len, p + 6 + name_len);
        let clen32 = u32_from_le_bytes(clen_bytes.as_slice());
        let nonce = copy_range(md.as_slice(), p + 6 + name_len, p + 18 + name_len);
        proof {
            assert(clen_bytes@ =~= sp.subrange(2 + name_len as int, 6 + name_len as int));
            assert(nonce@ =~= sp.subrange(6 + name_len as int, 18 + name_len as int));
        }
        let rec = RecordBuf { name, cipher_len: clen32, nonce };
        let ghost recm = rec@;
        metas.push(rec);
        proof {
            let p2 = p + 18 + name_len;
            assert(sp.skip(18 + name_len as int) =~= mdseq.skip(p2 as int));
            assert(record_models(metas@) =~= pre + seq![recm]);
            match parse_records(mdseq.skip(p2 as int), (k - 1) as nat) {
                Some(rest) => {
                    assert(parse_records(sp, k) == Some(seq![recm] + rest));
                    assert((pre + seq![recm]) + rest =~= pre + (seq![recm] + rest));
                },
                None => {
                    assert(parse_records(sp, k) is None);
                },
            }
            assert(parse_cont(record_models(metas@), mdseq.skip(p + 18 + name_len as int), (count
                - i - 1) as nat) == parse_records(mdseq.skip(4), count as nat));
            assert(sum_cipher_lens(pre + seq![recm]) == sum_cipher_lens(pre) + recm.cipher_len) by {
                lemma_sum_cipher_lens_take(pre + seq![recm], pre.len() as int);
                assert((pre + seq![recm]).take(pre.len() as int) =~= pre);
                assert((pre + seq![recm]).take(pre.len() as int + 1) =~= pre + seq![recm]);
            }
            assert(total + clen32 as u64 <= (i + 1) as u64 * 0xffff_ffffu64) by (nonlinear_arith)
                requires
                    total <= i as u64 * 0xffff_ffffu64,
                    clen32 as u64 <= 0xffff_ffffu64,
                    i as u64 + 1 == (i + 1) as u64,
            ;
        }
        total = total + clen32 as u64;
        p = p + 18 + name_len;
        i += 1;
    }
    let ghost rs = record_models(metas@);
    proof {
        assert(parse_records(mdseq.skip(p as int), 0) == Some(Seq::<RecordMeta>::empty()));
        assert(rs + Seq::<RecordMeta>::empty() =~= rs);
        assert(parse_records(mdseq.skip(4), count as nat) == Some(rs));
        assert forall|j: int| 0 <= j < rs.len() implies (#[trigger] rs[j]).cipher_len >= 0 by {
            assert(rs[j] == metas@[j]@);
        }
    }
    let cend = n - 9 - md_size;
    if total > cend as u64 {
        proof {
            assert(spec_parse_blob(blob@) is None);
        }
        return Err(ShellError::FormatError);
    }
    let cstart = cend - total as usize;
    let mut result: Vec<PayloadEntry> = Vec::new();
    proof {
        assert(rs.skip(0) =~= rs);
        assert(rs.take(0) =~= Seq::<RecordMeta>::empty());
        assert(entry_models(result@) =~~= entries_from(blob@, cstart as int, rs.take(0)));
    }
    let mut off: usize = cstart;
    let m = metas.len();
    let mut k: usize = 0;
    while k < m
        invariant
            0 <= k <= m,
            m == metas@.len(),
            rs == record_models(metas@),
            off as int == cstart as int + sum_cipher_lens(rs.take(k as int)),
            off as u64 + sum_of_skip(rs, k as int) == cend as u64,
            result@.len() == k,
            entry_models(result@) == entries_from(blob@, cstart as int, rs.take(k as int)),
            forall|j: int| 0 <= j < m ==> (#[trigger] metas@[j]).nonce@.len() == 12,
            forall|j: int| 0 <= j < k ==> (#[trigger] result@[j]).nonce@.len() == 12,
        decreases m - k,
    {
        let ghost sum_before = sum_cipher_lens(rs.take(k as int));
        proof {
            lemma_sum_cipher_lens_skip(rs, k as int);
            assert forall|j: int| 0 <= j < rs.skip(k + 1).len() implies (#[trigger] rs.skip(
                k + 1,
            )[j]).cipher_len >= 0 by {
                assert(rs.skip(k + 1)[j] == rs[j + k + 1]);
                assert(rs[j + k + 1] == metas@[j + k + 1]@);
            }
            lemma_sum_cipher_lens_nonneg(rs.skip(k + 1));
        }
        let clen = metas[k].cipher_len as usize;
        let cipher = copy_range(blob, off, off + clen);
        let name_copy = copy_range(metas[k].name.as_slice(), 0, metas[k].name.len());
        let nonce_copy = copy_range(metas[k].nonce.as_slice(), 0, metas[k].nonce.len());
        let entry = PayloadEntry { name: name_copy, cipher, nonce: nonce_copy };
        result.push(entry);
        proof {
            lemma_entries_from_snoc(blob@, cstart as int, rs, k as int);
            lemma_sum_cipher_lens_take(rs, k as int);
            assert(name_copy@ =~= metas@[k as int].name@);
            assert(nonce_copy@ =~= metas@[k as int].nonce@);
            assert(rs[k as int] == metas@[k as int]@);
            assert(entry_models(result@) =~~= entries_from(blob@, cstart as int, rs.take(k + 1)));
        }
        off = off + clen;
        k += 1;
    }
    proof {
        assert(rs.take(m as int) =~= rs);
        assert(spec_parse_blob(blob@) == Some(entries_from(blob@, cstart as int, rs)));
    }
    Ok(result)
}

/// `sum_cipher_lens` of the records from `k` on, as a `u64`-sized quantity.
pub open spec fn sum_of_skip(rs: Seq<RecordMeta>, k: int) -> int {
    sum_cipher_lens(rs.skip(k))
}

// ---------- round-trip laws ----------

/// The metadata view of an entry list: what its records describe.
pub open spec fn records_of(es: Seq<EntryModel>) -> Seq<RecordMeta> {
    Seq::new(
        es.len(),
        |i: int|
            RecordMeta {
                name: es[i].name,
                cipher_len: es[i].cipher.len() as int,
                nonce: es[i].nonce,
            },
    )
}

proof fn lemma_parse_records_of_build(es: Seq<EntryModel>)
    requires
        forall|i: int| 0 <= i < es.len() ==> wf_entry(#[trigger] es[i]),
    ensures
        parse_records(records_bytes(es), es.len() as nat) == Some(records_of(es)),
    decreases es.len(),
{
    lemma_auto_spec_u16_to_from_le_bytes();
    lemma_auto_spec_u32_to_from_le_bytes();
    if es.len() == 0 {
        assert(records_of(es) =~= Seq::<RecordMeta>::empty());
    } else {
        let md = records_bytes(es);
        let e0 = es[0];
        let nl = e0.name.len() as int;
        assert(wf_entry(e0));
        assert(record_bytes(e0).len() == 18 + nl);
        assert(md == record_bytes(e0) + records_bytes(es.skip(1)));
        assert(md.subrange(0, 2) =~= spec_u16_to_le_bytes(e0.name.len() as u16));
        assert(spec_u16_from_le_bytes(md.subrange(0, 2)) == nl);
        assert(md.len() >= 18 + nl);
        assert(md.subrange(2, 2 + nl) =~= e0.name);
        assert(md.subrange(2 + nl, 6 + nl) =~= spec_u32_to_le_bytes(e0.cipher.len() as u32));
        assert(spec_u32_from_le_bytes(md.subrange(2 + nl, 6 + nl)) == e0.cipher.len());
        assert(md.subrange(6 + nl, 18 + nl) =~= e0.nonce);
        assert(md.skip(18 + nl) =~= records_bytes(es.skip(1)));
        assert forall|i: int| 0 <= i < es.skip(1).len() implies wf_entry(
            #[trigger] es.skip(1)[i],
        ) by {
            assert(es.skip(1)[i] == es[i + 1]);
        }
        lemma_parse_records_of_build(es.skip(1));
        assert(es.skip(1).len() as nat == (es.len() - 1) as nat);
        let rec = RecordMeta { name: e0.name, cipher_len: e0.cipher.len() as int, nonce: e0.nonce };
        assert(parse_records(md, es.len() as nat) == Some(seq![rec] + records_of(es.skip(1))));
        assert(seq![rec] + records_of(es.skip(1)) =~~= records_of(es));
    }
}

proof fn lemma_sum_records_of(es: Seq<EntryModel>)
    ensures
        sum_cipher_lens(records_of(es)) == ciphers_bytes(es).len(),
    decreases es.len(),
{
    if es.len() == 0 {
        assert(records_of(es) =~= Seq::<RecordMeta>::empty());
    } else {
        assert(records_of(es).skip(1) =~~= records_of(es.skip(1)));
        lemma_sum_records_of(es.skip(1));
        assert(records_of(es)[0].cipher_len == es[0].cipher.len());
    }
}

proof fn lemma_entries_from_of_build(b: Seq<u8>, start: int, es: Seq<EntryModel>)
    requires
        0 <= start,
        start + ciphers_bytes(es).len() <= b.len(),
        b.subrange(start, start + ciphers_bytes(es).len()) == ciphers_bytes(es),
    ensures
        entries_from(b, start, records_of(es)) == es,
    decreases es.len(),
{
    if es.len() == 0 {
        assert(records_of(es) =~= Seq::<RecordMeta>::empty());
        assert(entries_from(b, start, records_of(es)) =~= es);
    } else {
        let rs = records_of(es);
        let len0 = es[0].cipher.len() as int;
        let total = ciphers_bytes(es).len() as int;
        assert(ciphers_bytes(es) == es[0].cipher + ciphers_bytes(es.skip(1)));
        assert(b.subrange(start, start + len0) =~= es[0].cipher);
        assert forall|j: int| 0 <= j < total - len0 implies b.subrange(start + len0, start + total)[j]
            == ciphers_bytes(es.skip(1))[j] by {
            assert(b.subrange(start, start + total)[len0 + j] == ciphers_bytes(es)[len0 + j]);
        }
        assert(b.subrange(start + len0, start + total) =~= ciphers_bytes(es.skip(1)));
        lemma_entries_from_of_build(b, start + len0, es.skip(1));
        assert(rs.skip(1) =~~= records_of(es.skip(1)));
        assert(rs[0].cipher_len == len0);
        assert(entries_from(b, start, rs) == seq![
            EntryModel {
                name: rs[0].name,
                cipher: b.subrange(start, start + len0),
                nonce: rs[0].nonce,
            },
        ] + entries_from(b, start + len0, rs.skip(1)));
        assert(seq![
            EntryModel {
                name: rs[0].name,
                cipher: b.subrange(start, start + len0),
                nonce: rs[0].nonce,
            },
        ] + es.skip(1) =~~= es);
    }
}

/// Round-trip law: parsing a built blob recovers exactly the entries that
/// were packed, in order.
pub proof fn lemma_parse_build_roundtrip(es: Seq<EntryModel>)
    requires
        wf_entries(es),
    ensures
        spec_parse_blob(blob_bytes(es)) == Some(es),
{
    lemma_auto_spec_u32_to_from_le_bytes();
    reveal_strlit("SHELL");
    let b = blob_bytes(es);
    let cs = ciphers_bytes(es);
    let md = metadata_bytes(es);
    let cl = cs.len() as int;
    let l = md.len() as int;
    assert(magic_bytes().len() == 5);
    assert(b.len() == cl + l + 9);
    assert(b.subrange(b.len() - 5, b.len() as int) =~= magic_bytes());
    assert(b.subrange(b.len() - 9, b.len() - 5) =~= spec_u32_to_le_bytes(md.len() as u32));
    assert(spec_u32_from_le_bytes(b.subrange(b.len() - 9, b.len() - 5)) == l);
    assert(l >= 4);
    assert(b.subrange(b.len() - 9 - l, b.len() - 9) =~= md);
    assert(md.subrange(0, 4) =~= spec_u32_to_le_bytes(es.len() as u32));
    assert(spec_u32_from_le_bytes(md.subrange(0, 4)) == es.len());
    assert(md.skip(4) =~= records_bytes(es));
    lemma_parse_records_of_build(es);
    lemma_sum_records_of(es);
    assert(sum_cipher_lens(records_of(es)) == cl);
    assert(b.subrange(0, cl) =~= cs);
    lemma_entries_from_of_build(b, 0, es);
}

/// The `metadata_size` field written into the footer equals the byte length
/// of the serialized metadata descriptor.
pub proof fn lemma_footer_metadata_size(es: Seq<EntryModel>)
    requires
        wf_entries(es),
    ensures
        spec_u32_from_le_bytes(
            blob_bytes(es).subrange(blob_bytes(es).len() - 9, blob_bytes(es).len() - 5),
        ) == metadata_bytes(es).len(),
{
    lemma_auto_spec_u32_to_from_le_bytes();
    reveal_strlit("SHELL");
    let b = blob_bytes(es);
    assert(magic_bytes().len() == 5);
    assert(b.subrange(b.len() - 9, b.len() - 5) =~= spec_u32_to_le_bytes(
        metadata_bytes(es).len() as u32,
    ));
}

/// The cipher lengths recorded in the metadata sum to the blob length minus
/// the footer and the metadata descriptor.
pub proof fn lemma_cipher_len_total(es: Seq<EntryModel>)
    requires
        wf_entries(es),
    ensures
        sum_cipher_lens(records_of(es)) == blob_bytes(es).len() - 9 - metadata_bytes(es).len(),
{
    lemma_sum_records_of(es);
    lemma_auto_spec_u32_to_from_le_bytes();
    reveal_strlit("SHELL");
    assert(magic_bytes().len() == 5);
    assert(blob_bytes(es).len() == ciphers_bytes(es).len() + metadata_bytes(es).len() + 9);
}

} // verus!
