use crate::codec::{
    blob_bytes, entry_models, lemma_parse_build_roundtrip, spec_parse_blob, wf_entries,
    EntryModel, PayloadEntry,
};
use crate::errors::ShellError;
use aes_gcm::aead::{Aead, KeyInit};
use sha2::Digest;
use vstd::prelude::*;

verus! {

// ---------- AEAD primitive ----------

/// What AES-256-GCM encryption with empty associated data returns for a
/// given key, nonce, and plaintext; a function of those arguments alone.
pub uninterp spec fn aead_encrypt(key: Seq<u8>, nonce: Seq<u8>, plain: Seq<u8>) -> Seq<u8>;

/// What AES-256-GCM decryption with empty associated data returns: the
/// plaintext when the appended tag verifies under this key and nonce,
/// nothing otherwise.
pub uninterp spec fn aead_decrypt(key: Seq<u8>, nonce: Seq<u8>, cipher: Seq<u8>) -> Option<
    Seq<u8>,
>;

/// Relies on aes_gcm's `Aead::encrypt` for `Aes256Gcm`: the result is a
/// function of key, nonce, and plaintext, is the plaintext length plus the
/// 16-byte tag, and `Aead::decrypt` under the same key and nonce returns the
/// plaintext again. It succeeds exactly when the plaintext is within the
/// cipher's length bound of 2^36 - 32 bytes.
#[verifier::external_body]
fn aead_seal(key: &[u8; 32], nonce: &[u8; 12], plain: &[u8]) -> (r: Result<Vec<u8>, ShellError>)
    ensures
        r is Ok <==> plain@.len() <= 0xf_ffff_ffe0,
        r matches Ok(c) ==> c@ == aead_encrypt(key@, nonce@, plain@) && c@.len() == plain@.len()
            + 16 && aead_decrypt(key@, nonce@, c@) == Some(plain@),
        r matches Err(e) ==> e == ShellError::CryptoError,
{
    let cipher = aes_gcm::Aes256Gcm::new(&(*key).into());
    let nonce_arr: aes_gcm::aead::Nonce<aes_gcm::Aes256Gcm> = (*nonce).into();
    match cipher.encrypt(&nonce_arr, plain) {
        Ok(c) => Ok(c),
        Err(_) => Err(ShellError::CryptoError),
    }
}

/// Relies on aes_gcm's `Aead::decrypt` for `Aes256Gcm`: succeeds with the
/// sealed plaintext exactly when the appended tag verifies for this key and
/// nonce.
#[verifier::external_body]
fn aead_open(key: &[u8; 32], nonce: &[u8], cipher_text: &[u8]) -> (r: Result<Vec<u8>, ShellError>)
    requires
        nonce@.len() == 12,
    ensures
        r matches Ok(p) ==> aead_decrypt(key@, nonce@, cipher_text@) == Some(p@),
        r is Err ==> aead_decrypt(key@, nonce@, cipher_text@) is None,
        r matches Err(e) ==> e == ShellError::CryptoError,
{
    let cipher = aes_gcm::Aes256Gcm::new(&(*key).into());
    let nonce_arr: &aes_gcm::aead::Nonce<aes_gcm::Aes256Gcm> = match nonce.try_into() {
        Ok(n) => n,
        Err(_) => return Err(ShellError::CryptoError),
    };
    match cipher.decrypt(nonce_arr, cipher_text) {
        Ok(p) => Ok(p),
        Err(_) => Err(ShellError::CryptoError),
    }
}

/// Relies on rand's `fill`: twelve bytes from the thread-local CSPRNG.
/// Nothing is promised of their values.
#[verifier::external_body]
pub fn fresh_nonce() -> (r: [u8; 12]) {
    let mut nonce = [0u8; 12];
    rand::fill(&mut nonce[..]);
    nonce
}

// ---------- digests ----------

/// What SHA-256 returns; a function of the input bytes alone.
pub uninterp spec fn sha256_of(data: Seq<u8>) -> Seq<u8>;

/// Relies on sha2's `Digest::digest` for `Sha256`: a 32-byte digest that is
/// a function of the input bytes alone.
#[verifier::external_body]
pub fn sha256(data: &[u8]) -> (r: [u8; 32])
    ensures
        r@ == sha256_of(data@),
{
    sha2::Sha256::digest(data).into()
}

// ---------- sealing one entry ----------

/// Seal one payload with the build-time key and a fresh random nonce. The
/// only failure is a plaintext beyond the cipher's length bound.
pub fn encrypt_payload(data: &[u8], key: &[u8; 32]) -> (r: Result<(Vec<u8>, [u8; 12]), ShellError>)
    ensures
        r is Ok <==> data@.len() <= 0xf_ffff_ffe0,
        r matches Ok(p) ==> p.0@ == aead_encrypt(key@, p.1@, data@) && p.0@.len() == data@.len()
            + 16 && aead_decrypt(key@, p.1@, p.0@) == Some(data@),
        r matches Err(e) ==> e == ShellError::CryptoError,
{
    let nonce = fresh_nonce();
    match aead_seal(key, &nonce, data) {
        Ok(c) => Ok((c, nonce)),
        Err(e) => Err(e),
    }
}

// ---------- opening a whole blob ----------

/// One reconstituted payload entry: its archive-relative name and plaintext.
#[derive(Debug, PartialEq, Eq)]
pub struct PlainEntry {
    pub name: Vec<u8>,
    pub data: Vec<u8>,
}

/// Mathematical model of a reconstituted entry.
#[verifier::ext_equal]
pub ghost struct PlainModel {
    pub name: Seq<u8>,
    pub data: Seq<u8>,
}

impl View for PlainEntry {
    type V = PlainModel;

    open spec fn view(&self) -> PlainModel {
        PlainModel { name: self.name@, data: self.data@ }
    }
}

/// The models of a sequence of reconstituted entries.
pub open spec fn plain_models(v: Seq<PlainEntry>) -> Seq<PlainModel> {
    Seq::new(v.len(), |i: int| v[i]@)
}

/// Every entry of the list decrypts under `key` with its recorded nonce.
pub open spec fn decrypt_ok(key: Seq<u8>, es: Seq<EntryModel>) -> bool {
    forall|i: int|
        0 <= i < es.len() ==> aead_decrypt(key, (#[trigger] es[i]).nonce, es[i].cipher) is Some
}

/// What decrypting a parsed entry list yields, entry by entry, in order.
pub open spec fn decrypted_models(key: Seq<u8>, es: Seq<EntryModel>) -> Seq<PlainModel> {
    Seq::new(
        es.len(),
        |i: int|
            PlainModel {
                name: es[i].name,
                data: aead_decrypt(key, es[i].nonce, es[i].cipher).unwrap(),
            },
    )
}

/// Parse a payload blob and decrypt every entry with its recorded nonce and
/// the given key. A malformed blob is `FormatError`; a blob whose every field
/// parses but whose ciphertexts do not all verify is `CryptoError`; nothing
/// else fails.
#[verifier::loop_isolation(false)]
pub fn decrypt_payload(encrypted_data: &[u8], key: &[u8; 32]) -> (r: Result<
    Vec<PlainEntry>,
    ShellError,
>)
    ensures
        r matches Ok(ps) ==> ({
            &&& spec_parse_blob(encrypted_data@) matches Some(es)
            &&& decrypt_ok(key@, spec_parse_blob(encrypted_data@).unwrap())
            &&& plain_models(ps@) == decrypted_models(
                key@,
                spec_parse_blob(encrypted_data@).unwrap(),
            )
        }),
        r matches Err(e) ==> ({
            ||| (e == ShellError::FormatError && spec_parse_blob(encrypted_data@) is None)
            ||| (e == ShellError::CryptoError && (spec_parse_blob(encrypted_data@) matches Some(es)
                && !decrypt_ok(key@, es)))
        }),
{
    let entries = match crate::codec::parse_payload_blob(encrypted_data) {
        Ok(entries) => entries,
        Err(e) => {
            return Err(e);
        },
    };
    let ghost es = entry_models(entries@);
    let n = entries.len();
    let mut results: Vec<PlainEntry> = Vec::new();
    proof {
        assert(plain_models(results@) =~= decrypted_models(key@, es).take(0));
    }
    let mut i: usize = 0;
    while i < n
        invariant
            0 <= i <= n,
            n == entries@.len(),
            es == entry_models(entries@),
            forall|j: int| 0 <= j < i ==> aead_decrypt(key@, es[j].nonce, es[j].cipher) is Some,
            plain_models(results@) == decrypted_models(key@, es).take(i as int),
        decreases n - i,
    {
        let e = &entries[i];
        let plain = match aead_open(key, e.nonce.as_slice(), e.cipher.as_slice()) {
            Ok(p) => p,
            Err(err) => {
                proof {
                    assert(aead_decrypt(key@, es[i as int].nonce, es[i as int].cipher) is None);
                    assert(!decrypt_ok(key@, es));
                }
                return Err(err);
            },
        };
        let name_copy = copy_vec(&e.name);
        results.push(PlainEntry { name: name_copy, data: plain });
        proof {
            assert(plain_models(results@) =~~= decrypted_models(key@, es).take(i + 1));
        }
        i += 1;
    }
    proof {
        assert(decrypted_models(key@, es).take(n as int) =~= decrypted_models(key@, es));
    }
    Ok(results)
}


/// Round-trip law: a blob built from sealed entries parses back to exactly
/// those entries, every recovered ciphertext opens under its recorded nonce,
/// and opening yields exactly the plaintexts that were sealed, in order.
pub proof fn lemma_seal_build_open_roundtrip(
    es: Seq<EntryModel>,
    plains: Seq<Seq<u8>>,
    key: Seq<u8>,
)
    requires
        wf_entries(es),
        plains.len() == es.len(),
        forall|i: int|
            0 <= i < es.len() ==> aead_decrypt(key, (#[trigger] es[i]).nonce, es[i].cipher)
                == Some(plains[i]),
    ensures
        spec_parse_blob(blob_bytes(es)) == Some(es),
        decrypt_ok(key, es),
        decrypted_models(key, es) == Seq::new(
            es.len(),
            |i: int| PlainModel { name: es[i].name, data: plains[i] },
        ),
{
    lemma_parse_build_roundtrip(es);
    assert(decrypted_models(key, es) =~~= Seq::new(
        es.len(),
        |i: int| PlainModel { name: es[i].name, data: plains[i] },
    ));
}

/// Duplicate a byte vector.
fn copy_vec(v: &Vec<u8>) -> (r: Vec<u8>)
    ensures
        r@ == v@,
{
    let r = crate::bytestr::copy_range(v.as_slice(), 0, v.len());
    proof {
        assert(r@ =~= v@);
    }
    r
}

} // verus!
