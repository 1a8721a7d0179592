use crate::config::{spec_string_xor_key, string_xor_key};
use vstd::prelude::*;
use vstd::utf8::{decode_utf8, valid_utf8};

verus! {

/// `data` XORed byte-by-byte against the repeating `key`.
pub open spec fn xor_with_key(data: Seq<u8>, key: Seq<u8>) -> Seq<u8>
    recommends
        key.len() > 0,
{
    Seq::new(data.len(), |i: int| data[i] ^ key[i % key.len() as int])
}

/// Relies on `String::from_utf8`: returns the string holding exactly the
/// given bytes when they are valid UTF-8, and fails otherwise.
#[verifier::external_body]
fn bytes_to_string(v: Vec<u8>) -> (r: Option<String>)
    ensures
        r is Some <==> valid_utf8(v@),
        r matches Some(s) ==> s@ == decode_utf8(v@),
{
    String::from_utf8(v).ok()
}

/// De-obfuscate an embedded string: XOR against the build-time repeating key,
/// then decode as UTF-8, with a fixed marker when the bytes are damaged.
pub fn decrypt(obfuscated: &[u8]) -> (r: String)
    ensures
        ({
            let plain = xor_with_key(obfuscated@, spec_string_xor_key());
            if valid_utf8(plain) {
                r@ == decode_utf8(plain)
            } else {
                r@ == "ERROR_DECRYPT"@
            }
        }),
{
    let key = string_xor_key();
    let n = obfuscated.len();
    let mut decrypted: Vec<u8> = Vec::with_capacity(n);
    let mut i: usize = 0;
    while i < n
        invariant
            n == obfuscated@.len(),
            key@ == spec_string_xor_key(),
            0 <= i <= n,
            decrypted@.len() == i,
            forall|j: int| 0 <= j < i ==> decrypted@[j] == obfuscated@[j] ^ key@[j % 32],
        decreases n - i,
    {
        decrypted.push(obfuscated[i] ^ key[i % 32]);
        i += 1;
    }
    proof {
        assert(decrypted@ =~= xor_with_key(obfuscated@, spec_string_xor_key()));
    }
    match bytes_to_string(decrypted) {
        Some(s) => s,
        None => "ERROR_DECRYPT".to_owned(),
    }
}

} // verus!
