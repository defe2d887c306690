//! The 16-byte content fingerprint, spelled as 32 uppercase hex characters
//! on disk and on the wire.

use vstd::prelude::*;
use vstd::string::StringSliceAdditionalSpecFns;
use crate::text;

verus! {

/// Failure to read a digest from its hex spelling.
#[derive(Clone, Copy, PartialEq, Eq, Structural, Debug)]
pub enum Error {
    HexDecode,
}

/// A 16-byte MD5 value.
#[derive(Debug)]
pub struct Md5Digest {
    bytes: Vec<u8>,
}

impl View for Md5Digest {
    type V = Seq<u8>;

    closed spec fn view(&self) -> Seq<u8> {
        self.bytes@
    }
}

impl Md5Digest {
    /// A digest holds exactly 16 bytes.
    pub open spec fn wf(&self) -> bool {
        self@.len() == 16
    }

    /// Reads a digest from its hex spelling (upper or lower case, 32 digits).
    /// Any other input is rejected.
    pub fn new(digest: &str) -> (r: Result<Md5Digest, Error>)
        ensures
            match r {
                Ok(d) => {
                    &&& d.wf()
                    &&& text::spec_hex_decode(digest.spec_bytes()) == Some(d@)
                },
                Err(_) => !(text::spec_hex_decode(digest.spec_bytes()) matches Some(b)
                    && b.len() == 16),
            },
    {
        let bs = digest.as_bytes();
        match text::hex_decode(bs) {
            Some(v) => {
                if v.len() == 16 {
                    Ok(Md5Digest { bytes: v })
                } else {
                    Err(Error::HexDecode)
                }
            },
            None => Err(Error::HexDecode),
        }
    }

    /// Wraps 16 raw bytes.
    pub fn from_bytes(bytes: [u8; 16]) -> (r: Md5Digest)
        ensures
            r.wf(),
            r@ == bytes@,
    {
        Md5Digest { bytes: vstd::slice::slice_to_vec(bytes.as_slice()) }
    }

    /// Wraps 16 raw bytes given as a vector.
    pub fn from_vec(bytes: Vec<u8>) -> (r: Md5Digest)
        requires
            bytes@.len() == 16,
        ensures
            r.wf(),
            r@ == bytes@,
    {
        Md5Digest { bytes }
    }

    /// The all-zero digest, the placeholder fingerprint.
    pub fn zero() -> (r: Md5Digest)
        ensures
            r.wf(),
            r@ =~= Seq::new(16, |i: int| 0u8),
    {
        let mut v: Vec<u8> = Vec::new();
        let mut i: usize = 0;
        while i < 16
            invariant
                0 <= i <= 16,
                v@ =~= Seq::new(i as nat, |j: int| 0u8),
            decreases 16 - i,
        {
            v.push(0u8);
            proof {
                assert(v@ =~= Seq::new((i + 1) as nat, |j: int| 0u8));
            }
            i = i + 1;
        }
        Md5Digest { bytes: v }
    }

    /// The 32-character uppercase hex spelling.
    pub fn to_hex(&self) -> (r: String)
        ensures
            r@ == text::ascii_chars_of(text::spec_hex_upper(self@)),
            r@.len() == 2 * self@.len(),
    {
        let h = text::hex_upper(self.bytes.as_slice());
        proof {
            text::lemma_hex_upper_len(self@);
        }
        text::lossy_string(h.as_slice())
    }

    /// The raw digest bytes.
    pub fn as_bytes(&self) -> (r: &Vec<u8>)
        ensures
            r@ == self@,
    {
        &self.bytes
    }
}

impl Clone for Md5Digest {
    /// The copy holds the same bytes.
    fn clone(&self) -> (r: Self)
        ensures
            r@ == self@,
    {
        Md5Digest { bytes: vstd::slice::slice_to_vec(self.bytes.as_slice()) }
    }
}

impl Default for Md5Digest {
    /// The all-zero digest.
    fn default() -> (r: Self)
        ensures
            r.wf(),
            r@ =~= Seq::new(16, |i: int| 0u8),
    {
        Md5Digest::zero()
    }
}

impl PartialEq for Md5Digest {
    fn eq(&self, other: &Self) -> (r: bool) {
        text::bytes_eq(self.bytes.as_slice(), other.bytes.as_slice())
    }
}

impl vstd::std_specs::cmp::PartialEqSpecImpl for Md5Digest {
    open spec fn obeys_eq_spec() -> bool {
        true
    }

    open spec fn eq_spec(&self, other: &Self) -> bool {
        self@ == other@
    }
}

impl Eq for Md5Digest {

}

} // verus!
