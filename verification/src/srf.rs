//! The SRF manifest model: a mod, its files, and the hashed parts of each
//! file, together with the spec-level hashing rules that the scanner and
//! both codecs share.

use vstd::prelude::*;
use vstd::string::StringSliceAdditionalSpecFns;
use vstd::string::StringExecFns;
use crate::json::chars_wf;
use crate::md5_digest::Md5Digest;
use crate::text;

verus! {

/// Why an SRF could not be read or produced.
#[derive(Debug)]
pub enum Error {
    /// The input ended where more was needed.
    Io,
    /// The PBO header could not be parsed.
    Pbo { source: crate::pbo::Error },
    /// The legacy text form broke its grammar.
    LegacySrfParseFailure { description: String },
    /// A numeric field in the legacy text form did not read as an integer.
    LegacySrfU32ParseFailure,
    /// A checksum field did not decode as an MD5 digest.
    DigestParse { source: crate::md5_digest::Error },
    /// The JSON form broke its schema.
    SrfDecode,
}

/// A contiguous hashed byte range within a file.
#[derive(Debug)]
pub struct Part {
    pub path: String,
    pub length: u64,
    pub start: u64,
    pub checksum: String,
}

/// How a file was decomposed into parts.
#[derive(Clone, Copy, PartialEq, Eq, Structural, Debug)]
pub enum FileType {
    File,
    Pbo,
}

/// One file of a mod: its forward-slash relative path, length, the MD5
/// aggregation of its parts, and the parts themselves.
#[derive(Debug)]
pub struct File {
    pub path: String,
    pub length: u64,
    pub checksum: String,
    pub file_type: FileType,
    pub parts: Vec<Part>,
}

/// One mod: its lowercase name, aggregated fingerprint, and files sorted
/// by uppercased path.
#[derive(Debug)]
pub struct Mod {
    pub name: String,
    pub checksum: Md5Digest,
    pub files: Vec<File>,
}

impl Clone for Part {
    /// The copy holds the same fields.
    fn clone(&self) -> (r: Self)
        ensures
            part_eq(r, *self),
    {
        Part {
            path: self.path.clone(),
            length: self.length,
            start: self.start,
            checksum: self.checksum.clone(),
        }
    }
}

impl Clone for File {
    /// The copy holds the same fields.
    fn clone(&self) -> (r: Self)
        ensures
            file_eq(r, *self),
    {
        let mut parts: Vec<Part> = Vec::new();
        let mut i: usize = 0;
        while i < self.parts.len()
            invariant
                0 <= i <= self.parts@.len(),
                parts@.len() == i,
                forall|k: int| 0 <= k < i ==> part_eq(#[trigger] parts@[k], self.parts@[k]),
            decreases self.parts@.len() - i,
        {
            parts.push(self.parts[i].clone());
            i = i + 1;
        }
        File {
            path: self.path.clone(),
            length: self.length,
            checksum: self.checksum.clone(),
            file_type: self.file_type,
            parts,
        }
    }
}

impl Clone for Mod {
    /// The copy holds the same fields.
    fn clone(&self) -> (r: Self)
        ensures
            mod_eq(r, *self),
    {
        let mut files: Vec<File> = Vec::new();
        let mut i: usize = 0;
        while i < self.files.len()
            invariant
                0 <= i <= self.files@.len(),
                files@.len() == i,
                forall|k: int| 0 <= k < i ==> file_eq(#[trigger] files@[k], self.files@[k]),
            decreases self.files@.len() - i,
        {
            files.push(self.files[i].clone());
            i = i + 1;
        }
        Mod { name: self.name.clone(), checksum: self.checksum.clone(), files }
    }
}

/// Parts equal field for field.
pub open spec fn part_eq(a: Part, b: Part) -> bool {
    &&& a.path@ == b.path@
    &&& a.length == b.length
    &&& a.start == b.start
    &&& a.checksum@ == b.checksum@
}

/// Files equal field for field.
pub open spec fn file_eq(a: File, b: File) -> bool {
    &&& a.path@ == b.path@
    &&& a.length == b.length
    &&& a.checksum@ == b.checksum@
    &&& a.file_type == b.file_type
    &&& a.parts@.len() == b.parts@.len()
    &&& forall|i: int| 0 <= i < a.parts@.len() ==> part_eq(#[trigger] a.parts@[i], b.parts@[i])
}

/// Mods equal field for field.
pub open spec fn mod_eq(a: Mod, b: Mod) -> bool {
    &&& a.name@ == b.name@
    &&& a.checksum@ == b.checksum@
    &&& a.files@.len() == b.files@.len()
    &&& forall|i: int| 0 <= i < a.files@.len() ==> file_eq(#[trigger] a.files@[i], b.files@[i])
}

/// Printable-ASCII text in every string field of a part.
pub open spec fn part_text_wf(p: Part) -> bool {
    &&& chars_wf(p.path@)
    &&& chars_wf(p.checksum@)
}

/// Printable-ASCII text in every string field of a file.
pub open spec fn file_text_wf(f: File) -> bool {
    &&& chars_wf(f.path@)
    &&& chars_wf(f.checksum@)
    &&& forall|i: int| 0 <= i < f.parts@.len() ==> part_text_wf(#[trigger] f.parts@[i])
}

/// Printable-ASCII text in every string field of a mod, and a 16-byte
/// digest.
pub open spec fn mod_text_wf(m: Mod) -> bool {
    &&& chars_wf(m.name@)
    &&& m.checksum.wf()
    &&& forall|i: int| 0 <= i < m.files@.len() ==> file_text_wf(#[trigger] m.files@[i])
}

impl Mod {
    /// The placeholder a missing local mod stands in for: the remote name,
    /// the all-zero fingerprint and no files, so every remote file counts
    /// as missing.
    pub fn generate_invalid(remote: &Mod) -> (r: Mod)
        ensures
            r.name@ == remote.name@,
            r.checksum@ =~= Seq::new(16, |i: int| 0u8),
            r.files@.len() == 0,
            r.checksum.wf(),
    {
        Mod { name: remote.name.clone(), checksum: Md5Digest::zero(), files: Vec::new() }
    }
}

impl FileType {
    /// Reads the legacy file-kind tag: `PBO` or `FILE`, anything else
    /// rejected.
    pub fn from_legacy_srf(legacy_type: &str) -> (r: Result<FileType, Error>)
        ensures
            match r {
                Ok(FileType::Pbo) => legacy_type.spec_bytes() == spec_pbo_tag(),
                Ok(FileType::File) => legacy_type.spec_bytes() == spec_file_tag(),
                Err(e) => legacy_type.spec_bytes() != spec_pbo_tag() && legacy_type.spec_bytes()
                    != spec_file_tag() && (e matches Error::LegacySrfParseFailure { description }
                    && description@ == "unknown legacy file type"@),
            },
    {
        let bs = legacy_type.as_bytes();
        let mut pbo_tag: Vec<u8> = Vec::new();
        pbo_tag.push(80);
        pbo_tag.push(66);
        pbo_tag.push(79);
        if text::bytes_eq(bs, pbo_tag.as_slice()) {
            proof {
                assert(pbo_tag@ =~= spec_pbo_tag());
            }
            return Ok(FileType::Pbo);
        }
        let mut file_tag: Vec<u8> = Vec::new();
        file_tag.push(70);
        file_tag.push(73);
        file_tag.push(76);
        file_tag.push(69);
        if text::bytes_eq(bs, file_tag.as_slice()) {
            proof {
                assert(file_tag@ =~= spec_file_tag());
            }
            return Ok(FileType::File);
        }
        proof {
            assert(pbo_tag@ =~= spec_pbo_tag());
            assert(file_tag@ =~= spec_file_tag());
        }
        Err(
            Error::LegacySrfParseFailure {
                description: String::from_str("unknown legacy file type"),
            },
        )
    }
}

/// The bytes of the legacy tag `PBO`.
pub open spec fn spec_pbo_tag() -> Seq<u8> {
    seq![80u8, 66u8, 79u8]
}

/// The bytes of the legacy tag `FILE`.
pub open spec fn spec_file_tag() -> Seq<u8> {
    seq![70u8, 73u8, 76u8, 69u8]
}

// ---------------------------------------------------------------------------
// The hashing rules shared by the scanner and the invariants
// ---------------------------------------------------------------------------

/// What a file's checksum hashes: the concatenated uppercase-hex spellings
/// of its parts' checksums, as UTF-8 bytes.
pub open spec fn file_cat(parts: Seq<Part>) -> Seq<u8> {
    parts.flat_map(|p: Part| vstd::utf8::encode_utf8(p.checksum@))
}

/// What a mod's checksum hashes: for each file in order, its checksum text
/// followed by its lowercased, slash-normalized path, as UTF-8 bytes.
/// Rewriting backslashes after encoding equals rewriting them before:
/// the backslash byte never occurs inside a multi-byte UTF-8 sequence.
pub open spec fn mod_cat(files: Seq<File>) -> Seq<u8> {
    files.flat_map(
        |f: File| vstd::utf8::encode_utf8(f.checksum@) + text::spec_slashes(
            vstd::utf8::encode_utf8(text::lower_of(f.path@)),
        ),
    )
}

/// The checksum text a file with these parts must carry.
pub open spec fn spec_file_checksum(parts: Seq<Part>) -> Seq<char> {
    text::ascii_chars_of(text::spec_hex_upper(crate::checksum::md5_of(file_cat(parts))))
}

/// The fingerprint a mod with these files must carry.
pub open spec fn spec_mod_checksum(files: Seq<File>) -> Seq<u8> {
    crate::checksum::md5_of(mod_cat(files))
}

} // verus!
