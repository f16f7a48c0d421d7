use md5::Digest;
use md5::Md5;
use vstd::prelude::*;

verus! {

/// The 128-bit MD5 digest of a byte sequence, read big-endian.
///
/// The digest is a pure function of the input bytes; its definition is the
/// MD5 algorithm itself, so it is left uninterpreted and every contract
/// speaks of it by this name.
pub uninterp spec fn md5_of(s: Seq<u8>) -> u128;

/// Relies on md5::Md5 (the RustCrypto MD5 implementation): the digest is
/// 16 bytes and depends on the input bytes alone.
#[verifier::external_body]
pub fn md5hash(p: &[u8]) -> (r: u128)
    ensures
        r == md5_of(p@),
{
    let mut hasher = Md5::new();
    hasher.update(p);
    let out: [u8; 16] = hasher.finalize().into();
    u128::from_be_bytes(out)
}

} // verus!
