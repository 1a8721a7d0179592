use vstd::prelude::*;

verus! {

/// True when every byte of `s` is zero; an all-zero expected digest switches
/// the corresponding integrity check off (development mode).
pub open spec fn all_zero(s: Seq<u8>) -> bool {
    forall|i: int| 0 <= i < s.len() ==> s[i] == 0u8
}

/// Build-time AEAD key. This is the development default; a packaging step
/// replaces it with fresh key material for each build.
pub fn get_aes_key() -> (r: [u8; 32])
    ensures
        all_zero(r@),
{
    [0u8; 32]
}

/// Spec view of the string-obfuscation key: the development default is zero,
/// which makes the XOR transparent.
pub open spec fn spec_string_xor_key() -> Seq<u8> {
    Seq::new(32, |i: int| 0u8)
}

/// Build-time key for the repeating-XOR obfuscation of embedded strings.
pub fn string_xor_key() -> (r: [u8; 32])
    ensures
        r@ == spec_string_xor_key(),
{
    let r = [0u8; 32];
    proof {
        assert(r@ =~= spec_string_xor_key());
    }
    r
}

/// Expected SHA-256 of the payload blob; all-zero means the check is skipped.
pub fn payload_hash() -> (r: [u8; 32])
    ensures
        all_zero(r@),
{
    [0u8; 32]
}

/// Expected SHA-256 of the first signing certificate; all-zero means skipped.
pub fn expected_signature_hash() -> (r: [u8; 32])
    ensures
        all_zero(r@),
{
    [0u8; 32]
}

} // verus!
