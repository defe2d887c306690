//! MD5 fingerprinting. The digest computation itself comes from the md-5
//! crate; everything downstream speaks of it only through [`md5_of`].

use vstd::prelude::*;
use crate::text;

verus! {

/// The 16-byte MD5 digest of a byte sequence. Stating the bytes would take
/// the whole MD5 construction; the contracts only need a name for them.
pub uninterp spec fn md5_of(bytes: Seq<u8>) -> Seq<u8>;

/// Relies on the md-5 crate's `Md5` hasher (RustCrypto `Digest::digest`):
/// the result is the 16-byte MD5 digest of the input, a function of the
/// input bytes alone.
#[verifier::external_body]
pub(crate) fn md5(data: &[u8]) -> (r: Vec<u8>)
    ensures
        r@ == md5_of(data@),
        r@.len() == 16,
{
    <md5::Md5 as md5::Digest>::digest(data).as_slice().to_vec()
}

/// Uppercase hex spelling of the MD5 digest of `data`, as ASCII bytes.
pub fn md5_hex(data: &[u8]) -> (r: Vec<u8>)
    ensures
        r@ == text::spec_hex_upper(md5_of(data@)),
        r@.len() == 32,
        text::seq_is_ascii(r@),
{
    let d = md5(data);
    text::hex_upper(d.as_slice())
}

} // verus!
