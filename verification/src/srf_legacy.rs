//! The legacy line-oriented SRF format: colon-separated fields, one record
//! per line. The addon header names the mod, its fingerprint and how many
//! file records follow; each file record names how many part lines follow
//! it; lines beyond the declared counts are ignored.

use vstd::prelude::*;
use vstd::string::StringExecFns;
use crate::md5_digest::Md5Digest;
use crate::srf::{Error, File, FileType, Mod, Part};
use crate::text;

verus! {

/// The kind of legacy parse failure, with the error variant it surfaces as.
pub ghost enum LegacyErr {
    /// A record is missing or malformed: `LegacySrfParseFailure`.
    Grammar,
    /// A numeric field did not read as an integer: `LegacySrfU32ParseFailure`.
    Number,
    /// A checksum field did not read as a digest: `DigestParse`.
    Digest,
}

/// The exec error variant a parse-failure kind surfaces as.
pub open spec fn err_matches(e: Error, k: LegacyErr) -> bool {
    match k {
        LegacyErr::Grammar => e matches Error::LegacySrfParseFailure { description: _ },
        LegacyErr::Number => e matches Error::LegacySrfU32ParseFailure,
        LegacyErr::Digest => e matches Error::DigestParse { source: _ },
    }
}

/// A part record in mathematical form.
pub ghost struct SpecLegacyPart {
    pub path: Seq<u8>,
    pub start: u64,
    pub length: u64,
    pub checksum: Seq<u8>,
}

/// A file record in mathematical form.
pub ghost struct SpecLegacyFile {
    pub is_pbo: bool,
    pub path: Seq<u8>,
    pub length: u64,
    pub checksum: Seq<u8>,
    pub parts: Seq<SpecLegacyPart>,
}

/// The bytes of the `ADDON` magic.
pub open spec fn spec_addon_tag() -> Seq<u8> {
    seq![65u8, 68u8, 68u8, 79u8, 78u8]
}

/// One trailing carriage return dropped, as reading lines does.
pub open spec fn spec_strip_cr(l: Seq<u8>) -> Seq<u8> {
    if l.len() > 0 && l.last() == 13 {
        l.drop_last()
    } else {
        l
    }
}

/// The lines of a byte text: split on newlines, no phantom line after a
/// trailing newline, one trailing carriage return dropped per line.
pub open spec fn spec_lines(s: Seq<u8>) -> Seq<Seq<u8>> {
    let segs = text::spec_split(s, 10);
    let trimmed = if segs.last().len() == 0 {
        segs.drop_last()
    } else {
        segs
    };
    trimmed.map_values(|l: Seq<u8>| spec_strip_cr(l))
}

/// The addon header: `ADDON:<name>:<file count>:<fingerprint hex>`.
pub open spec fn spec_parse_addon(line: Seq<u8>) -> Result<(Seq<u8>, u32, Seq<u8>), LegacyErr> {
    let toks = text::spec_split(line, 58);
    if toks[0] != spec_addon_tag() {
        Err(LegacyErr::Grammar)
    } else if toks.len() < 2 {
        Err(LegacyErr::Grammar)
    } else if toks.len() < 3 {
        Err(LegacyErr::Grammar)
    } else {
        match text::spec_parse_u64(toks[2]) {
            None => Err(LegacyErr::Number),
            Some(n) => if n > u32::MAX {
                Err(LegacyErr::Number)
            } else if toks.len() < 4 {
                Err(LegacyErr::Grammar)
            } else {
                match text::spec_hex_decode(toks[3]) {
                    Some(b) => if b.len() == 16 {
                        Ok((toks[1], n as u32, b))
                    } else {
                        Err(LegacyErr::Digest)
                    },
                    None => Err(LegacyErr::Digest),
                }
            },
        }
    }
}

/// A part record: `<path>:<start>:<length>:<checksum>`.
pub open spec fn spec_parse_part(line: Seq<u8>) -> Result<SpecLegacyPart, LegacyErr> {
    let toks = text::spec_split(line, 58);
    if toks.len() < 2 {
        Err(LegacyErr::Grammar)
    } else {
        match text::spec_parse_u64(toks[1]) {
            None => Err(LegacyErr::Number),
            Some(start) => if toks.len() < 3 {
                Err(LegacyErr::Grammar)
            } else {
                match text::spec_parse_u64(toks[2]) {
                    None => Err(LegacyErr::Number),
                    Some(length) => if toks.len() < 4 {
                        Err(LegacyErr::Grammar)
                    } else {
                        Ok(SpecLegacyPart { path: toks[0], start, length, checksum: toks[3] })
                    },
                }
            },
        }
    }
}

/// The bytes of the legacy kind tags.
pub open spec fn spec_pbo_tag() -> Seq<u8> {
    seq![80u8, 66u8, 79u8]
}

pub open spec fn spec_file_tag() -> Seq<u8> {
    seq![70u8, 73u8, 76u8, 69u8]
}

/// A file record: `<FILE|PBO>:<path>:<length>:<part count>:<checksum>`.
pub open spec fn spec_parse_file_line(line: Seq<u8>) -> Result<
    (bool, Seq<u8>, u64, u32, Seq<u8>),
    LegacyErr,
> {
    let toks = text::spec_split(line, 58);
    if toks[0] != spec_pbo_tag() && toks[0] != spec_file_tag() {
        Err(LegacyErr::Grammar)
    } else if toks.len() < 2 {
        Err(LegacyErr::Grammar)
    } else if toks.len() < 3 {
        Err(LegacyErr::Grammar)
    } else {
        match text::spec_parse_u64(toks[2]) {
            None => Err(LegacyErr::Number),
            Some(length) => if toks.len() < 4 {
                Err(LegacyErr::Grammar)
            } else {
                match text::spec_parse_u64(toks[3]) {
                    None => Err(LegacyErr::Number),
                    Some(n) => if n > u32::MAX {
                        Err(LegacyErr::Number)
                    } else if toks.len() < 5 {
                        Err(LegacyErr::Grammar)
                    } else {
                        Ok((toks[0] == spec_pbo_tag(), toks[1], length, n as u32, toks[4]))
                    },
                }
            },
        }
    }
}

/// `n` part records consumed from `idx` on.
pub open spec fn spec_parse_parts(lines: Seq<Seq<u8>>, idx: int, n: int) -> Result<
    (Seq<SpecLegacyPart>, int),
    LegacyErr,
>
    decreases n,
{
    if n <= 0 {
        Ok((Seq::empty(), idx))
    } else if !(0 <= idx < lines.len()) {
        Err(LegacyErr::Grammar)
    } else {
        match spec_parse_part(lines[idx]) {
            Err(e) => Err(e),
            Ok(p) => match spec_parse_parts(lines, idx + 1, n - 1) {
                Err(e) => Err(e),
                Ok((rest, end)) => Ok((seq![p] + rest, end)),
            },
        }
    }
}

/// One file record with its part lines, consumed from `idx` on.
pub open spec fn spec_parse_one_file(lines: Seq<Seq<u8>>, idx: int) -> Result<
    (SpecLegacyFile, int),
    LegacyErr,
> {
    if !(0 <= idx < lines.len()) {
        Err(LegacyErr::Grammar)
    } else {
        match spec_parse_file_line(lines[idx]) {
            Err(e) => Err(e),
            Ok((is_pbo, path, length, nparts, checksum)) => {
                match spec_parse_parts(lines, idx + 1, nparts as int) {
                    Err(e) => Err(e),
                    Ok((parts, end)) => Ok(
                        (SpecLegacyFile { is_pbo, path, length, checksum, parts }, end),
                    ),
                }
            },
        }
    }
}

/// `n` file records consumed from `idx` on.
pub open spec fn spec_parse_files(lines: Seq<Seq<u8>>, idx: int, n: int) -> Result<
    (Seq<SpecLegacyFile>, int),
    LegacyErr,
>
    decreases n,
{
    if n <= 0 {
        Ok((Seq::empty(), idx))
    } else {
        match spec_parse_one_file(lines, idx) {
            Err(e) => Err(e),
            Ok((f, after)) => {
                if idx < after <= lines.len() {
                    match spec_parse_files(lines, after, n - 1) {
                        Err(e) => Err(e),
                        Ok((rest, end)) => Ok((seq![f] + rest, end)),
                    }
                } else {
                    // never reached: a file record consumes its line; this
                    // arm only bounds the recursion
                    Ok((seq![f], after))
                }
            },
        }
    }
}

/// The whole legacy text: the addon header, then exactly as many file
/// records as the header declares; anything after them is ignored.
pub open spec fn spec_parse_legacy(s: Seq<u8>) -> Result<
    (Seq<u8>, Seq<u8>, Seq<SpecLegacyFile>),
    LegacyErr,
> {
    let lines = spec_lines(s);
    if lines.len() == 0 {
        Err(LegacyErr::Grammar)
    } else {
        match spec_parse_addon(lines[0]) {
            Err(e) => Err(e),
            Ok((name, count, digest)) => match spec_parse_files(lines, 1, count as int) {
                Err(e) => Err(e),
                Ok((files, _end)) => Ok((name, digest, files)),
            },
        }
    }
}

/// Legacy detection: the first five bytes spell `ADDON`.
pub open spec fn spec_is_legacy(s: Seq<u8>) -> bool {
    s.len() >= 5 && s.subrange(0, 5) == spec_addon_tag()
}

/// Whether the input begins with the legacy magic. Reads nothing else.
pub fn is_legacy_srf(input: &[u8]) -> (r: bool)
    ensures
        r == spec_is_legacy(input@),
{
    let mut tag: Vec<u8> = Vec::new();
    tag.push(65);
    tag.push(68);
    tag.push(68);
    tag.push(79);
    tag.push(78);
    proof {
        assert(tag@ =~= spec_addon_tag());
    }
    let r = text::starts_with(input, tag.as_slice());
    proof {
        if input@.len() >= 5 {
            assert(input@.take(5) =~= input@.subrange(0, 5));
        }
    }
    r
}

/// Splits a byte text into its lines.
pub(crate) fn lines_of(input: &[u8]) -> (r: Vec<Vec<u8>>)
    ensures
        r.deep_view() =~~= spec_lines(input@),
{
    let mut segs = text::split_bytes(input, 10);
    proof {
        text::lemma_split_nonempty(input@, 10);
    }
    let drop_last = segs[segs.len() - 1].len() == 0;
    if drop_last {
        let _ = segs.pop();
    }
    let ghost trimmed = segs.deep_view();
    proof {
        let whole = text::spec_split(input@, 10);
        if drop_last {
            assert(trimmed =~~= whole.drop_last());
        } else {
            assert(trimmed =~~= whole);
        }
    }
    let mut out: Vec<Vec<u8>> = Vec::new();
    let mut i: usize = 0;
    while i < segs.len()
        invariant
            segs.deep_view() == trimmed,
            0 <= i <= segs@.len(),
            out@.len() == i,
            forall|k: int| 0 <= k < i ==> (#[trigger] out@[k])@ == spec_strip_cr(trimmed[k]),
        decreases segs@.len() - i,
    {
        let line = &segs[i];
        let n = line.len();
        if n > 0 && line[n - 1] == 13 {
            let stripped = vstd::slice::slice_to_vec(
                vstd::slice::slice_subrange(line.as_slice(), 0, n - 1),
            );
            proof {
                assert(stripped@ =~= trimmed[i as int].drop_last());
            }
            out.push(stripped);
        } else {
            let kept = vstd::slice::slice_to_vec(line.as_slice());
            out.push(kept);
        }
        i = i + 1;
    }
    proof {
        assert(out.deep_view() =~~= trimmed.map_values(|l: Seq<u8>| spec_strip_cr(l)));
    }
    out
}

/// The part read from a part record, pinned up to ASCII text.
pub open spec fn lpart_matches(p: Part, sp: SpecLegacyPart) -> bool {
    &&& (text::seq_is_ascii(sp.path) ==> p.path@ == text::ascii_chars_of(sp.path))
    &&& (p.path@.len() == 0 <==> sp.path.len() == 0)
    &&& p.start == sp.start
    &&& p.length == sp.length
    &&& (text::seq_is_ascii(sp.checksum) ==> p.checksum@ == text::ascii_chars_of(sp.checksum))
    &&& (p.checksum@.len() == 0 <==> sp.checksum.len() == 0)
}

/// The file read from a file record and its parts, pinned up to ASCII.
pub open spec fn lfile_matches(f: File, sf: SpecLegacyFile) -> bool {
    &&& (f.file_type == FileType::Pbo <==> sf.is_pbo)
    &&& (text::seq_is_ascii(sf.path) ==> f.path@ == text::ascii_chars_of(sf.path))
    &&& (f.path@.len() == 0 <==> sf.path.len() == 0)
    &&& f.length == sf.length
    &&& (text::seq_is_ascii(sf.checksum) ==> f.checksum@ == text::ascii_chars_of(sf.checksum))
    &&& (f.checksum@.len() == 0 <==> sf.checksum.len() == 0)
    &&& f.parts@.len() == sf.parts.len()
    &&& forall|k: int|
        0 <= k < sf.parts.len() ==> lpart_matches(#[trigger] f.parts@[k], sf.parts[k])
}

/// Reads the addon header: the mod's name and fingerprint, with no files
/// yet, and the declared file count.
pub fn read_legacy_srf_addon(line: &[u8]) -> (r: Result<(Mod, u32), Error>)
    ensures
        match r {
            Ok((m, count)) => spec_parse_addon(line@) matches Ok((name, scount, digest)) && count
                == scount && m.checksum@ == digest && m.checksum.wf() && m.files@.len() == 0 && (
            text::seq_is_ascii(name) ==> m.name@ == text::ascii_chars_of(name)) && (m.name@.len()
                == 0 <==> name.len() == 0),
            Err(e) => spec_parse_addon(line@) matches Err(k) && err_matches(e, k),
        },
{
    let toks = text::split_bytes(line, 58);
    proof {
        text::lemma_split_nonempty(line@, 58);
        text::lemma_deep_view_bytes(toks);
        assert(toks@.len() == text::spec_split(line@, 58).len());
        assert(forall|k: int|
            0 <= k < toks@.len() ==> (#[trigger] toks@[k])@ == text::spec_split(line@, 58)[k]);
    }
    let mut tag: Vec<u8> = Vec::new();
    tag.push(65);
    tag.push(68);
    tag.push(68);
    tag.push(79);
    tag.push(78);
    proof {
        assert(tag@ =~= spec_addon_tag());
    }
    if !text::bytes_eq(toks[0].as_slice(), tag.as_slice()) {
        return Err(
            Error::LegacySrfParseFailure { description: String::from_str("wrong magic") },
        );
    }
    if toks.len() < 2 {
        return Err(
            Error::LegacySrfParseFailure {
                description: String::from_str("addon line missing name"),
            },
        );
    }
    if toks.len() < 3 {
        return Err(
            Error::LegacySrfParseFailure {
                description: String::from_str("addon line missing size"),
            },
        );
    }
    let count64 = match text::parse_u64(toks[2].as_slice()) {
        Some(n) => n,
        None => {
            return Err(Error::LegacySrfU32ParseFailure);
        },
    };
    if count64 > 0xffff_ffff {
        return Err(Error::LegacySrfU32ParseFailure);
    }
    let count: u32 = count64 as u32;
    if toks.len() < 4 {
        return Err(
            Error::LegacySrfParseFailure {
                description: String::from_str("addon line missing checksum"),
            },
        );
    }
    let digest_bytes = match text::hex_decode(toks[3].as_slice()) {
        Some(v) => v,
        None => {
            return Err(
                Error::DigestParse { source: crate::md5_digest::Error::HexDecode },
            );
        },
    };
    if digest_bytes.len() != 16 {
        return Err(Error::DigestParse { source: crate::md5_digest::Error::HexDecode });
    }
    let checksum = Md5Digest::from_vec(digest_bytes);
    let name = text::lossy_string(toks[1].as_slice());
    Ok((Mod { name, checksum, files: Vec::new() }, count))
}

/// Reads one part record.
pub fn read_legacy_srf_part(line: &[u8]) -> (r: Result<Part, Error>)
    ensures
        match r {
            Ok(p) => spec_parse_part(line@) matches Ok(sp) && lpart_matches(p, sp),
            Err(e) => spec_parse_part(line@) matches Err(k) && err_matches(e, k),
        },
{
    let toks = text::split_bytes(line, 58);
    proof {
        text::lemma_split_nonempty(line@, 58);
        text::lemma_deep_view_bytes(toks);
        assert(toks@.len() == text::spec_split(line@, 58).len());
        assert(forall|k: int|
            0 <= k < toks@.len() ==> (#[trigger] toks@[k])@ == text::spec_split(line@, 58)[k]);
    }
    if toks.len() < 2 {
        return Err(
            Error::LegacySrfParseFailure {
                description: String::from_str("part line missing start"),
            },
        );
    }
    let start = match text::parse_u64(toks[1].as_slice()) {
        Some(n) => n,
        None => {
            return Err(Error::LegacySrfU32ParseFailure);
        },
    };
    if toks.len() < 3 {
        return Err(
            Error::LegacySrfParseFailure {
                description: String::from_str("part line missing length"),
            },
        );
    }
    let length = match text::parse_u64(toks[2].as_slice()) {
        Some(n) => n,
        None => {
            return Err(Error::LegacySrfU32ParseFailure);
        },
    };
    if toks.len() < 4 {
        return Err(
            Error::LegacySrfParseFailure {
                description: String::from_str("part line missing checksum"),
            },
        );
    }
    let path = text::lossy_string(toks[0].as_slice());
    let checksum = text::lossy_string(toks[3].as_slice());
    Ok(Part { path, length, start, checksum })
}

/// Reads one file record and the part lines it declares, advancing `idx`.
pub fn read_legacy_srf_file(lines: &Vec<Vec<u8>>, idx: &mut usize) -> (r: Result<File, Error>)
    ensures
        match r {
            Ok(f) => spec_parse_one_file(lines.deep_view(), *old(idx) as int) matches Ok(
                (sf, end),
            ) && lfile_matches(f, sf) && *final(idx) == end && *old(idx) < *final(idx) <= lines@.len(),
            Err(e) => spec_parse_one_file(lines.deep_view(), *old(idx) as int) matches Err(k)
                && err_matches(e, k),
        },
{
    let ghost glines = lines.deep_view();
    proof {
        text::lemma_deep_view_bytes(*lines);
    }
    if !(*idx < lines.len()) {
        return Err(
            Error::LegacySrfParseFailure { description: String::from_str("line missing") },
        );
    }
    let line = &lines[*idx];
    proof {
        assert(glines[*idx as int] == line@);
    }
    let toks = text::split_bytes(line.as_slice(), 58);
    proof {
        text::lemma_split_nonempty(line@, 58);
        text::lemma_deep_view_bytes(toks);
        assert(toks@.len() == text::spec_split(line@, 58).len());
        assert(forall|k: int|
            0 <= k < toks@.len() ==> (#[trigger] toks@[k])@ == text::spec_split(line@, 58)[k]);
    }
    let mut pbo_tag: Vec<u8> = Vec::new();
    pbo_tag.push(80);
    pbo_tag.push(66);
    pbo_tag.push(79);
    let mut file_tag: Vec<u8> = Vec::new();
    file_tag.push(70);
    file_tag.push(73);
    file_tag.push(76);
    file_tag.push(69);
    proof {
        assert(pbo_tag@ =~= spec_pbo_tag());
        assert(file_tag@ =~= spec_file_tag());
    }
    let is_pbo = if text::bytes_eq(toks[0].as_slice(), pbo_tag.as_slice()) {
        true
    } else if text::bytes_eq(toks[0].as_slice(), file_tag.as_slice()) {
        false
    } else {
        return Err(
            Error::LegacySrfParseFailure {
                description: String::from_str("unknown legacy file type"),
            },
        );
    };
    if toks.len() < 2 {
        return Err(
            Error::LegacySrfParseFailure {
                description: String::from_str("file line missing path"),
            },
        );
    }
    if toks.len() < 3 {
        return Err(
            Error::LegacySrfParseFailure {
                description: String::from_str("file line missing length"),
            },
        );
    }
    let length = match text::parse_u64(toks[2].as_slice()) {
        Some(n) => n,
        None => {
            return Err(Error::LegacySrfU32ParseFailure);
        },
    };
    if toks.len() < 4 {
        return Err(
            Error::LegacySrfParseFailure {
                description: String::from_str("file line missing part count"),
            },
        );
    }
    let nparts64 = match text::parse_u64(toks[3].as_slice()) {
        Some(n) => n,
        None => {
            return Err(Error::LegacySrfU32ParseFailure);
        },
    };
    if nparts64 > 0xffff_ffff {
        return Err(Error::LegacySrfU32ParseFailure);
    }
    let nparts: u32 = nparts64 as u32;
    if toks.len() < 5 {
        return Err(
            Error::LegacySrfParseFailure {
                description: String::from_str("file line missing checksum"),
            },
        );
    }
    let path = text::lossy_string(toks[1].as_slice());
    let checksum = text::lossy_string(toks[4].as_slice());
    let file_start = *idx;
    let ghost gis_pbo = is_pbo;
    let ghost gpath = text::spec_split(glines[file_start as int], 58)[1];
    let ghost gchecksum = text::spec_split(glines[file_start as int], 58)[4];
    proof {
        assert(spec_parse_file_line(glines[file_start as int]) == Ok::<
            (bool, Seq<u8>, u64, u32, Seq<u8>),
            LegacyErr,
        >((gis_pbo, gpath, length, nparts, gchecksum)));
    }
    *idx = *idx + 1;
    let mut parts: Vec<Part> = Vec::new();
    let ghost mut sparts: Seq<SpecLegacyPart> = Seq::empty();
    let mut taken: u32 = 0;
    proof {
        assert(Seq::<SpecLegacyPart>::empty() + spec_parse_parts(
            glines,
            file_start + 1,
            nparts as int,
        )->Ok_0.0 =~= spec_parse_parts(glines, file_start + 1, nparts as int)->Ok_0.0
            || spec_parse_parts(glines, file_start + 1, nparts as int) is Err);
    }
    while taken < nparts
        invariant
            spec_parse_one_file(glines, file_start as int) == (match spec_parse_parts(
                glines,
                file_start + 1,
                nparts as int,
            ) {
                Err(e) => Err::<(SpecLegacyFile, int), LegacyErr>(e),
                Ok((ps, end)) => Ok(
                    (
                        SpecLegacyFile {
                            is_pbo: gis_pbo,
                            path: gpath,
                            length: length,
                            checksum: gchecksum,
                            parts: ps,
                        },
                        end,
                    ),
                ),
            }),
            glines == lines.deep_view(),
            file_start == *old(idx),
            0 <= taken <= nparts,
            file_start < lines@.len(),
            file_start + 1 <= *idx <= lines@.len(),
            parts@.len() == taken,
            sparts.len() == taken,
            spec_parse_parts(glines, file_start + 1, nparts as int) == (match spec_parse_parts(
                glines,
                *idx as int,
                nparts - taken,
            ) {
                Err(e) => Err::<(Seq<SpecLegacyPart>, int), LegacyErr>(e),
                Ok((rest, end)) => Ok((sparts + rest, end)),
            }),
            forall|k: int| 0 <= k < parts@.len() ==> lpart_matches(#[trigger] parts@[k], sparts[k]),
        decreases nparts - taken,
    {
        if !(*idx < lines.len()) {
            proof {
                assert(spec_parse_parts(glines, *idx as int, nparts - taken) is Err);
            }
            return Err(
                Error::LegacySrfParseFailure {
                    description: String::from_str("part line missing"),
                },
            );
        }
        let pline = &lines[*idx];
        proof {
            assert(glines[*idx as int] == pline@);
        }
        let p = match read_legacy_srf_part(pline.as_slice()) {
            Ok(p) => p,
            Err(e) => {
                proof {
                    assert(spec_parse_parts(glines, *idx as int, nparts - taken) is Err);
                }
                return Err(e);
            },
        };
        let ghost sp = spec_parse_part(glines[*idx as int])->Ok_0;
        let ghost old_sparts = sparts;
        parts.push(p);
        proof {
            sparts = sparts.push(sp);
        }
        *idx = *idx + 1;
        taken = taken + 1;
        proof {
            let rest = spec_parse_parts(glines, *idx as int, nparts - taken);
            if rest is Ok {
                assert(old_sparts + (seq![sp] + rest->Ok_0.0) =~= sparts + rest->Ok_0.0);
            }
        }
    }
    proof {
        assert(spec_parse_parts(glines, *idx as int, 0) == Ok::<(Seq<SpecLegacyPart>, int), LegacyErr>(
            (Seq::<SpecLegacyPart>::empty(), *idx as int),
        ));
        assert(sparts + Seq::<SpecLegacyPart>::empty() =~= sparts);
    }
    Ok(
        File {
            path,
            length,
            checksum,
            file_type: if is_pbo {
                FileType::Pbo
            } else {
                FileType::File
            },
            parts,
        },
    )
}

/// Reads a whole legacy SRF: the addon header, then exactly the declared
/// number of file records; surplus lines are ignored.
pub fn deserialize_legacy_srf(input: &[u8]) -> (r: Result<Mod, Error>)
    ensures
        match r {
            Ok(m) => spec_parse_legacy(input@) matches Ok((name, digest, sfiles)) && (
            text::seq_is_ascii(name) ==> m.name@ == text::ascii_chars_of(name)) && (m.name@.len()
                == 0 <==> name.len() == 0) && m.checksum@ == digest && m.checksum.wf()
                && m.files@.len() == sfiles.len() && (forall|k: int|
                0 <= k < sfiles.len() ==> lfile_matches(#[trigger] m.files@[k], sfiles[k])),
            Err(e) => spec_parse_legacy(input@) matches Err(k) && err_matches(e, k),
        },
        forall|m: Mod|
            #[trigger] legacy_wf(m) && input@ == spec_serialize_legacy(m) ==> (r matches Ok(m2)
                && crate::srf::mod_eq(m2, m)),
{
    let lines = lines_of(input);
    let ghost glines = lines.deep_view();
    proof {
        text::lemma_deep_view_bytes(lines);
    }
    if lines.len() == 0 {
        proof {
            lemma_no_written_form(input@);
        }
        return Err(
            Error::LegacySrfParseFailure { description: String::from_str("no first line") },
        );
    }
    let (header, count) = match read_legacy_srf_addon(lines[0].as_slice()) {
        Ok(x) => x,
        Err(e) => {
            proof {
                assert(glines[0] == lines@[0]@);
                lemma_no_written_form(input@);
            }
            return Err(e);
        },
    };
    proof {
        assert(glines[0] == lines@[0]@);
    }
    let ghost gname = spec_parse_addon(glines[0])->Ok_0.0;
    let ghost gdigest = spec_parse_addon(glines[0])->Ok_0.2;
    let mut files: Vec<File> = Vec::new();
    let ghost mut sfiles: Seq<SpecLegacyFile> = Seq::empty();
    let mut idx: usize = 1;
    let mut taken: u32 = 0;
    proof {
        let whole = spec_parse_files(glines, 1, count as int);
        if whole is Ok {
            assert(Seq::<SpecLegacyFile>::empty() + whole->Ok_0.0 =~= whole->Ok_0.0);
        }
    }
    while taken < count
        invariant
            spec_parse_legacy(input@) == (match spec_parse_files(glines, 1, count as int) {
                Err(e) => Err::<(Seq<u8>, Seq<u8>, Seq<SpecLegacyFile>), LegacyErr>(e),
                Ok((fs, _end)) => Ok((gname, gdigest, fs)),
            }),
            glines == lines.deep_view(),
            0 <= taken <= count,
            1 <= idx <= lines@.len(),
            files@.len() == taken,
            sfiles.len() == taken,
            spec_parse_files(glines, 1, count as int) == (match spec_parse_files(
                glines,
                idx as int,
                count - taken,
            ) {
                Err(e) => Err::<(Seq<SpecLegacyFile>, int), LegacyErr>(e),
                Ok((rest, end)) => Ok((sfiles + rest, end)),
            }),
            forall|k: int| 0 <= k < files@.len() ==> lfile_matches(#[trigger] files@[k], sfiles[k]),
        decreases count - taken,
    {
        let ghost fstart = idx as int;
        let f = match read_legacy_srf_file(&lines, &mut idx) {
            Ok(f) => f,
            Err(e) => {
                proof {
                    assert(spec_parse_files(glines, fstart, count - taken) is Err);
                    lemma_no_written_form(input@);
                }
                return Err(e);
            },
        };
        let ghost sf = spec_parse_one_file(glines, fstart)->Ok_0.0;
        let ghost old_sfiles = sfiles;
        files.push(f);
        proof {
            sfiles = sfiles.push(sf);
        }
        taken = taken + 1;
        proof {
            let rest = spec_parse_files(glines, idx as int, count - taken);
            if rest is Ok {
                assert(old_sfiles + (seq![sf] + rest->Ok_0.0) =~= sfiles + rest->Ok_0.0);
            }
        }
    }
    proof {
        assert(spec_parse_files(glines, idx as int, 0) == Ok::<
            (Seq<SpecLegacyFile>, int),
            LegacyErr,
        >((Seq::<SpecLegacyFile>::empty(), idx as int)));
        assert(sfiles + Seq::<SpecLegacyFile>::empty() =~= sfiles);
    }
    let result = Mod { name: header.name, checksum: header.checksum, files };
    proof {
        assert forall|m: Mod|
            #[trigger] legacy_wf(m) && input@ == spec_serialize_legacy(m) implies crate::srf::mod_eq(
            result,
            m,
        ) by {
            lemma_legacy_round_trip(m);
            assert(gname == text::bytes_of_chars(m.name@));
            assert(gdigest == m.checksum@);
            assert(sfiles == files_descs(m.files@, 0));
            crate::json::lemma_chars_wf_ascii(m.name@);
            text::lemma_ascii_chars_bytes_inverse(m.name@);
            lemma_files_descs_index(m.files@, 0);
            assert(result.files@.len() == m.files@.len());
            assert forall|k: int| 0 <= k < m.files@.len() implies crate::srf::file_eq(
                #[trigger] result.files@[k],
                m.files@[k],
            ) by {
                assert(lfile_matches(result.files@[k], sfiles[k]));
                assert(sfiles[k] == file_desc(m.files@[k]));
                lemma_file_desc_eq(result.files@[k], m.files@[k]);
            }
        }
    }
    Ok(result)
}

// ---------------------------------------------------------------------------
// Writing the legacy form, and reading it back
// ---------------------------------------------------------------------------

/// Lines joined with a newline after each.
pub open spec fn spec_unlines(lines: Seq<Seq<u8>>) -> Seq<u8>
    decreases lines.len(),
{
    if lines.len() == 0 {
        Seq::empty()
    } else {
        lines[0] + seq![10u8] + spec_unlines(lines.drop_first())
    }
}

pub proof fn lemma_unlines_append(a: Seq<Seq<u8>>, b: Seq<Seq<u8>>)
    ensures
        spec_unlines(a + b) =~= spec_unlines(a) + spec_unlines(b),
    decreases a.len(),
{
    if a.len() == 0 {
        assert(a + b =~~= b);
    } else {
        assert((a + b).drop_first() =~~= a.drop_first() + b);
        assert((a + b)[0] == a[0]);
        lemma_unlines_append(a.drop_first(), b);
    }
}

/// The addon header line of a mod.
pub open spec fn spec_addon_line(m: Mod) -> Seq<u8> {
    spec_addon_tag() + seq![58u8] + text::bytes_of_chars(m.name@) + seq![58u8]
        + text::spec_u64_digits(m.files@.len()) + seq![58u8] + text::spec_hex_upper(m.checksum@)
}

/// The record line of a file.
pub open spec fn spec_file_line(f: File) -> Seq<u8> {
    (if f.file_type == FileType::Pbo {
        spec_pbo_tag()
    } else {
        spec_file_tag()
    }) + seq![58u8] + text::bytes_of_chars(f.path@) + seq![58u8] + text::spec_u64_digits(
        f.length as nat,
    ) + seq![58u8] + text::spec_u64_digits(f.parts@.len()) + seq![58u8] + text::bytes_of_chars(
        f.checksum@,
    )
}

/// The record line of a part.
pub open spec fn spec_part_line(p: Part) -> Seq<u8> {
    text::bytes_of_chars(p.path@) + seq![58u8] + text::spec_u64_digits(p.start as nat) + seq![58u8]
        + text::spec_u64_digits(p.length as nat) + seq![58u8] + text::bytes_of_chars(p.checksum@)
}

/// The part lines from index `i` on.
pub open spec fn spec_part_lines(parts: Seq<Part>, i: int) -> Seq<Seq<u8>>
    decreases parts.len() - i,
{
    if i < 0 || i >= parts.len() {
        Seq::empty()
    } else {
        seq![spec_part_line(parts[i])] + spec_part_lines(parts, i + 1)
    }
}

/// The lines of one file: its record, then its part lines.
pub open spec fn spec_file_block(f: File) -> Seq<Seq<u8>> {
    seq![spec_file_line(f)] + spec_part_lines(f.parts@, 0)
}

/// The lines of the files from index `i` on.
pub open spec fn spec_file_blocks(files: Seq<File>, i: int) -> Seq<Seq<u8>>
    decreases files.len() - i,
{
    if i < 0 || i >= files.len() {
        Seq::empty()
    } else {
        spec_file_block(files[i]) + spec_file_blocks(files, i + 1)
    }
}

/// All the lines of a mod's legacy form.
pub open spec fn spec_legacy_lines(m: Mod) -> Seq<Seq<u8>> {
    seq![spec_addon_line(m)] + spec_file_blocks(m.files@, 0)
}

/// The legacy bytes of a mod.
pub open spec fn spec_serialize_legacy(m: Mod) -> Seq<u8> {
    spec_unlines(spec_legacy_lines(m))
}

/// No colons: field text that survives the colon-separated grammar.
pub open spec fn colon_free(s: Seq<char>) -> bool {
    forall|i: int| 0 <= i < s.len() ==> s[i] != ':'
}

/// A mod the legacy codec round-trips: printable-ASCII text, no colons in
/// any field, and counts that fit the record format.
pub open spec fn legacy_wf(m: Mod) -> bool {
    &&& crate::srf::mod_text_wf(m)
    &&& colon_free(m.name@)
    &&& m.files@.len() <= u32::MAX
    &&& forall|i: int|
        0 <= i < m.files@.len() ==> {
            let f = #[trigger] m.files@[i];
            &&& colon_free(f.path@)
            &&& colon_free(f.checksum@)
            &&& f.parts@.len() <= u32::MAX
            &&& forall|k: int|
                0 <= k < f.parts@.len() ==> colon_free((#[trigger] f.parts@[k]).path@)
                    && colon_free(f.parts@[k].checksum@)
        }
}

/// Writes the decimal digits of a length.
fn push_u64(out: &mut Vec<u8>, n: u64)
    ensures
        final(out)@ == old(out)@ + text::spec_u64_digits(n as nat),
{
    let mut d = text::u64_to_dec(n);
    out.append(&mut d);
}

/// Writes the bytes of an ASCII string.
fn push_str(out: &mut Vec<u8>, s: &str)
    requires
        s.is_ascii(),
    ensures
        final(out)@ == old(out)@ + text::bytes_of_chars(s@),
{
    let mut b = text::str_bytes(s);
    out.append(&mut b);
}

/// Spells a mod out in the legacy line format.
#[verifier::rlimit(60)]
pub fn serialize_legacy_srf(m: &Mod) -> (r: Vec<u8>)
    requires
        crate::srf::mod_text_wf(*m),
    ensures
        r@ == spec_serialize_legacy(*m),
{
    let mut out: Vec<u8> = Vec::new();
    // the addon header line
    out.push(65);
    out.push(68);
    out.push(68);
    out.push(79);
    out.push(78);
    out.push(58);
    proof {
        crate::json::lemma_chars_wf_ascii(m.name@);
        assert(out@ =~= spec_addon_tag() + seq![58u8]);
    }
    push_str(&mut out, m.name.as_str());
    out.push(58);
    push_u64(&mut out, len_as_u64(m.files.len()));
    out.push(58);
    let mut hex = text::hex_upper(m.checksum.as_bytes().as_slice());
    out.append(&mut hex);
    out.push(10);
    proof {
        assert(out@ =~= spec_addon_line(*m) + seq![10u8]);
        assert(spec_legacy_lines(*m).drop_first() =~= spec_file_blocks(m.files@, 0));
        assert(spec_legacy_lines(*m)[0] == spec_addon_line(*m));
        assert(spec_serialize_legacy(*m) =~= spec_addon_line(*m) + seq![10u8] + spec_unlines(
            spec_file_blocks(m.files@, 0),
        ));
    }
    let mut i: usize = 0;
    while i < m.files.len()
        invariant
            crate::srf::mod_text_wf(*m),
            0 <= i <= m.files@.len(),
            out@ + spec_unlines(spec_file_blocks(m.files@, i as int)) =~= spec_serialize_legacy(
                *m,
            ),
        decreases m.files@.len() - i,
    {
        let f = &m.files[i];
        proof {
            crate::json::lemma_chars_wf_ascii(f.path@);
            crate::json::lemma_chars_wf_ascii(f.checksum@);
            lemma_unlines_append(seq![spec_file_line(*f)], spec_part_lines(f.parts@, 0));
            lemma_unlines_append(spec_file_block(*f), spec_file_blocks(m.files@, i as int + 1));
            assert(spec_file_blocks(m.files@, i as int) =~= spec_file_block(*f)
                + spec_file_blocks(m.files@, i as int + 1));
            assert(seq![spec_file_line(*f)].drop_first() =~= Seq::<Seq<u8>>::empty());
            assert(spec_unlines(Seq::<Seq<u8>>::empty()) =~= Seq::<u8>::empty());
            assert(spec_unlines(seq![spec_file_line(*f)]) =~= spec_file_line(*f) + seq![10u8]);
        }
        if match f.file_type {
            FileType::Pbo => true,
            FileType::File => false,
        } {
            out.push(80);
            out.push(66);
            out.push(79);
        } else {
            out.push(70);
            out.push(73);
            out.push(76);
            out.push(69);
        }
        out.push(58);
        push_str(&mut out, f.path.as_str());
        out.push(58);
        push_u64(&mut out, f.length);
        out.push(58);
        push_u64(&mut out, len_as_u64(f.parts.len()));
        out.push(58);
        push_str(&mut out, f.checksum.as_str());
        out.push(10);
        proof {
            assert(out@ + spec_unlines(spec_part_lines(f.parts@, 0)) + spec_unlines(
                spec_file_blocks(m.files@, i as int + 1),
            ) =~= spec_serialize_legacy(*m));
        }
        let mut k: usize = 0;
        while k < f.parts.len()
            invariant
                crate::srf::file_text_wf(*f),
                0 <= k <= f.parts@.len(),
                out@ + spec_unlines(spec_part_lines(f.parts@, k as int)) + spec_unlines(
                    spec_file_blocks(m.files@, i as int + 1),
                ) =~= spec_serialize_legacy(*m),
            decreases f.parts@.len() - k,
        {
            let p = &f.parts[k];
            proof {
                crate::json::lemma_chars_wf_ascii(p.path@);
                crate::json::lemma_chars_wf_ascii(p.checksum@);
                assert(spec_part_lines(f.parts@, k as int) =~= seq![spec_part_line(*p)]
                    + spec_part_lines(f.parts@, k as int + 1));
                lemma_unlines_append(
                    seq![spec_part_line(*p)],
                    spec_part_lines(f.parts@, k as int + 1),
                );
                assert(seq![spec_part_line(*p)].drop_first() =~= Seq::<Seq<u8>>::empty());
                assert(spec_unlines(Seq::<Seq<u8>>::empty()) =~= Seq::<u8>::empty());
                assert(spec_unlines(seq![spec_part_line(*p)]) =~= spec_part_line(*p) + seq![
                    10u8,
                ]);
            }
            push_str(&mut out, p.path.as_str());
            out.push(58);
            push_u64(&mut out, p.start);
            out.push(58);
            push_u64(&mut out, p.length);
            out.push(58);
            push_str(&mut out, p.checksum.as_str());
            out.push(10);
            proof {
                assert(out@ + spec_unlines(spec_part_lines(f.parts@, k as int + 1))
                    + spec_unlines(spec_file_blocks(m.files@, i as int + 1))
                    =~= spec_serialize_legacy(*m));
            }
            k = k + 1;
        }
        proof {
            assert(spec_part_lines(f.parts@, f.parts@.len() as int) =~= Seq::<Seq<u8>>::empty());
            assert(spec_unlines(Seq::<Seq<u8>>::empty()) =~= Seq::<u8>::empty());
            assert(out@ + Seq::<u8>::empty() =~= out@);
        }
        i = i + 1;
    }
    proof {
        assert(spec_file_blocks(m.files@, m.files@.len() as int) =~= Seq::<Seq<u8>>::empty());
        assert(out@ + Seq::<u8>::empty() =~= out@);
    }
    out
}

/// Widens a count to `u64`.
fn len_as_u64(v: usize) -> (r: u64)
    ensures
        r == v,
{
    v as u64
}

// ---------------------------------------------------------------------------
// Round trip: parsing what was written
// ---------------------------------------------------------------------------

/// The record a part spells out.
pub open spec fn part_desc(p: Part) -> SpecLegacyPart {
    SpecLegacyPart {
        path: text::bytes_of_chars(p.path@),
        start: p.start,
        length: p.length,
        checksum: text::bytes_of_chars(p.checksum@),
    }
}

/// The records the parts from index `i` on spell out.
pub open spec fn parts_descs(parts: Seq<Part>, i: int) -> Seq<SpecLegacyPart>
    decreases parts.len() - i,
{
    if i < 0 || i >= parts.len() {
        Seq::empty()
    } else {
        seq![part_desc(parts[i])] + parts_descs(parts, i + 1)
    }
}

/// The record a file spells out.
pub open spec fn file_desc(f: File) -> SpecLegacyFile {
    SpecLegacyFile {
        is_pbo: f.file_type == FileType::Pbo,
        path: text::bytes_of_chars(f.path@),
        length: f.length,
        checksum: text::bytes_of_chars(f.checksum@),
        parts: parts_descs(f.parts@, 0),
    }
}

/// The records the files from index `i` on spell out.
pub open spec fn files_descs(files: Seq<File>, i: int) -> Seq<SpecLegacyFile>
    decreases files.len() - i,
{
    if i < 0 || i >= files.len() {
        Seq::empty()
    } else {
        seq![file_desc(files[i])] + files_descs(files, i + 1)
    }
}

/// Printable text never holds a separator byte.
proof fn lemma_printable_bytes(s: Seq<char>)
    requires
        crate::json::chars_wf(s),
    ensures
        text::seg_free(text::bytes_of_chars(s), 10),
        text::seg_free(text::bytes_of_chars(s), 13),
        text::seq_is_ascii(text::bytes_of_chars(s)),
        forall|q: int| 0 <= q < s.len() ==> 32 <= #[trigger] text::bytes_of_chars(s)[q] <= 126,
{
    assert forall|q: int| 0 <= q < s.len() implies 32 <= #[trigger] text::bytes_of_chars(s)[q]
        <= 126 by {
        assert(' ' <= s[q] <= '~');
    }
}

/// Printable, colon-free text is a token: no separator of any kind.
proof fn lemma_token_free(s: Seq<char>)
    requires
        crate::json::chars_wf(s),
        colon_free(s),
    ensures
        text::seg_free(text::bytes_of_chars(s), 58),
        text::seg_free(text::bytes_of_chars(s), 10),
        text::seg_free(text::bytes_of_chars(s), 13),
{
    lemma_printable_bytes(s);
    assert forall|q: int| 0 <= q < s.len() implies #[trigger] text::bytes_of_chars(s)[q]
        != 58 by {
        assert(s[q] != ':');
        assert(' ' <= s[q] <= '~');
    }
}

/// Digit runs and hex runs are tokens too.
proof fn lemma_digits_free(n: nat)
    ensures
        text::seg_free(text::spec_u64_digits(n), 58),
        text::seg_free(text::spec_u64_digits(n), 10),
        text::seg_free(text::spec_u64_digits(n), 13),
{
    text::lemma_u64_digits_are_digits(n);
}

proof fn lemma_hex_free(b: Seq<u8>)
    ensures
        text::seg_free(text::spec_hex_upper(b), 58),
        text::seg_free(text::spec_hex_upper(b), 10),
        text::seg_free(text::spec_hex_upper(b), 13),
{
    assert forall|q: int|
        0 <= q < text::spec_hex_upper(b).len() implies (48 <= #[trigger] text::spec_hex_upper(
        b,
    )[q] <= 57 || 65 <= text::spec_hex_upper(b)[q] <= 70) by {
        lemma_hex_byte_precise(b, q);
    }
}

/// Each hex byte is a digit or one of `A` to `F`; in particular never a
/// colon.
proof fn lemma_hex_byte_precise(b: Seq<u8>, q: int)
    requires
        0 <= q < text::spec_hex_upper(b).len(),
    ensures
        48 <= text::spec_hex_upper(b)[q] <= 57 || 65 <= text::spec_hex_upper(b)[q] <= 70,
    decreases b.len(),
{
    if b.len() > 0 {
        if q >= 2 {
            lemma_hex_byte_precise(b.drop_first(), q - 2);
        }
    }
}

/// Splitting four joined tokens returns the four tokens.
proof fn lemma_split4(a: Seq<u8>, b: Seq<u8>, c: Seq<u8>, d: Seq<u8>)
    requires
        text::seg_free(a, 58),
        text::seg_free(b, 58),
        text::seg_free(c, 58),
        text::seg_free(d, 58),
    ensures
        text::spec_split(a + seq![58u8] + b + seq![58u8] + c + seq![58u8] + d, 58) =~~= seq![
            a,
            b,
            c,
            d,
        ],
{
    let rest2 = c + seq![58u8] + d;
    let rest1 = b + seq![58u8] + rest2;
    let line = a + seq![58u8] + b + seq![58u8] + c + seq![58u8] + d;
    assert(line =~= a + seq![58u8] + rest1);
    text::lemma_split_concat(a, rest1, 58);
    text::lemma_split_concat(b, rest2, 58);
    text::lemma_split_concat(c, d, 58);
    text::lemma_split_of_free(d, 58);
}

/// Splitting five joined tokens returns the five tokens.
proof fn lemma_split5(a: Seq<u8>, b: Seq<u8>, c: Seq<u8>, d: Seq<u8>, e: Seq<u8>)
    requires
        text::seg_free(a, 58),
        text::seg_free(b, 58),
        text::seg_free(c, 58),
        text::seg_free(d, 58),
        text::seg_free(e, 58),
    ensures
        text::spec_split(a + seq![58u8] + b + seq![58u8] + c + seq![58u8] + d + seq![58u8] + e, 58)
            =~~= seq![a, b, c, d, e],
{
    let rest = b + seq![58u8] + c + seq![58u8] + d + seq![58u8] + e;
    let line = a + seq![58u8] + b + seq![58u8] + c + seq![58u8] + d + seq![58u8] + e;
    assert(line =~= a + seq![58u8] + rest);
    text::lemma_split_concat(a, rest, 58);
    lemma_split4(b, c, d, e);
}

/// Reading back an emitted part record returns its fields.
proof fn lemma_parse_part_emit(p: Part)
    requires
        crate::srf::part_text_wf(p),
        colon_free(p.path@),
        colon_free(p.checksum@),
    ensures
        spec_parse_part(spec_part_line(p)) == Ok::<SpecLegacyPart, LegacyErr>(part_desc(p)),
{
    lemma_token_free(p.path@);
    lemma_token_free(p.checksum@);
    lemma_digits_free(p.start as nat);
    lemma_digits_free(p.length as nat);
    lemma_split4(
        text::bytes_of_chars(p.path@),
        text::spec_u64_digits(p.start as nat),
        text::spec_u64_digits(p.length as nat),
        text::bytes_of_chars(p.checksum@),
    );
    text::lemma_u64_dec_round_trip(p.start);
    text::lemma_u64_dec_round_trip(p.length);
    let toks = text::spec_split(spec_part_line(p), 58);
    assert(toks.len() == 4);
    assert(toks[1] == text::spec_u64_digits(p.start as nat));
    assert(toks[2] == text::spec_u64_digits(p.length as nat));
}

/// Reading back an emitted file record returns its fields.
proof fn lemma_parse_file_line_emit(f: File)
    requires
        crate::srf::file_text_wf(f),
        colon_free(f.path@),
        colon_free(f.checksum@),
        f.parts@.len() <= u32::MAX,
    ensures
        spec_parse_file_line(spec_file_line(f)) == Ok::<(bool, Seq<u8>, u64, u32, Seq<u8>), LegacyErr>(
            (
                f.file_type == FileType::Pbo,
                text::bytes_of_chars(f.path@),
                f.length,
                f.parts@.len() as u32,
                text::bytes_of_chars(f.checksum@),
            ),
        ),
{
    lemma_token_free(f.path@);
    lemma_token_free(f.checksum@);
    lemma_digits_free(f.length as nat);
    lemma_digits_free(f.parts@.len());
    let tag = if f.file_type == FileType::Pbo {
        spec_pbo_tag()
    } else {
        spec_file_tag()
    };
    lemma_split5(
        tag,
        text::bytes_of_chars(f.path@),
        text::spec_u64_digits(f.length as nat),
        text::spec_u64_digits(f.parts@.len()),
        text::bytes_of_chars(f.checksum@),
    );
    text::lemma_u64_dec_round_trip(f.length);
    text::lemma_u64_dec_round_trip(f.parts@.len() as u64);
    assert(text::spec_u64_digits((f.parts@.len() as u64) as nat) == text::spec_u64_digits(
        f.parts@.len(),
    ));
    let toks = text::spec_split(spec_file_line(f), 58);
    assert(toks.len() == 5);
    assert(toks[0] == tag);
    assert(spec_pbo_tag().len() != spec_file_tag().len());
}

/// Reading back an emitted addon header returns its fields.
proof fn lemma_parse_addon_emit(m: Mod)
    requires
        legacy_wf(m),
    ensures
        spec_parse_addon(spec_addon_line(m)) == Ok::<(Seq<u8>, u32, Seq<u8>), LegacyErr>(
            (text::bytes_of_chars(m.name@), m.files@.len() as u32, m.checksum@),
        ),
{
    lemma_token_free(m.name@);
    lemma_digits_free(m.files@.len());
    lemma_hex_free(m.checksum@);
    lemma_split4(
        spec_addon_tag(),
        text::bytes_of_chars(m.name@),
        text::spec_u64_digits(m.files@.len()),
        text::spec_hex_upper(m.checksum@),
    );
    text::lemma_u64_dec_round_trip(m.files@.len() as u64);
    assert(text::spec_u64_digits((m.files@.len() as u64) as nat) == text::spec_u64_digits(
        m.files@.len(),
    ));
    text::lemma_hex_round_trip(m.checksum@);
    let toks = text::spec_split(spec_addon_line(m), 58);
    assert(toks.len() == 4);
    assert(toks[0] == spec_addon_tag());
}

/// Reading back emitted part lines returns their records.
proof fn lemma_parse_parts_emit(lines: Seq<Seq<u8>>, parts: Seq<Part>, idx: int)
    requires
        0 <= idx,
        idx + parts.len() <= lines.len(),
        forall|k: int|
            0 <= k < parts.len() ==> lines[idx + k] == spec_part_line(#[trigger] parts[k]),
        forall|k: int|
            0 <= k < parts.len() ==> crate::srf::part_text_wf(#[trigger] parts[k]) && colon_free(
                parts[k].path@,
            ) && colon_free(parts[k].checksum@),
    ensures
        spec_parse_parts(lines, idx, parts.len() as int) == Ok::<
            (Seq<SpecLegacyPart>, int),
            LegacyErr,
        >((parts_descs(parts, 0), idx + parts.len())),
    decreases parts.len(),
{
    if parts.len() == 0 {
        assert(parts_descs(parts, 0) =~= Seq::<SpecLegacyPart>::empty());
    } else {
        assert(lines[idx] == spec_part_line(parts[0]));
        lemma_parse_part_emit(parts[0]);
        let tail = parts.drop_first();
        assert forall|k: int| 0 <= k < tail.len() implies lines[idx + 1 + k] == spec_part_line(
            #[trigger] tail[k],
        ) by {
            assert(tail[k] == parts[k + 1]);
            assert(lines[idx + (k + 1)] == spec_part_line(parts[k + 1]));
        }
        assert forall|k: int|
            0 <= k < tail.len() implies crate::srf::part_text_wf(#[trigger] tail[k])
            && colon_free(tail[k].path@) && colon_free(tail[k].checksum@) by {
            assert(tail[k] == parts[k + 1]);
        }
        lemma_parse_parts_emit(lines, tail, idx + 1);
        assert(parts_descs(tail, 0) =~= parts_descs(parts, 1)) by {
            lemma_parts_descs_shift(parts, tail);
        };
        assert(seq![part_desc(parts[0])] + parts_descs(parts, 1) =~= parts_descs(parts, 0));
    }
}

proof fn lemma_parts_descs_shift(parts: Seq<Part>, tail: Seq<Part>)
    requires
        parts.len() > 0,
        tail =~= parts.drop_first(),
    ensures
        parts_descs(tail, 0) =~= parts_descs(parts, 1),
    decreases parts.len(),
{
    lemma_parts_descs_index(parts, 0);
    lemma_parts_descs_index(tail, 0);
    assert forall|q: int| 0 <= q < tail.len() implies parts_descs(tail, 0)[q] == parts_descs(
        parts,
        1,
    )[q] by {
        lemma_parts_descs_index(parts, 1);
        assert(parts_descs(tail, 0)[q] == part_desc(tail[q]));
        assert(tail[q] == parts[q + 1]);
    }
    lemma_parts_descs_index(parts, 1);
}

pub proof fn lemma_parts_descs_index(parts: Seq<Part>, i: int)
    requires
        0 <= i <= parts.len(),
    ensures
        parts_descs(parts, i).len() == parts.len() - i,
        forall|k: int|
            i <= k < parts.len() ==> parts_descs(parts, i)[k - i] == part_desc(
                #[trigger] parts[k],
            ),
    decreases parts.len() - i,
{
    if i < parts.len() {
        lemma_parts_descs_index(parts, i + 1);
    }
}

pub proof fn lemma_files_descs_index(files: Seq<File>, i: int)
    requires
        0 <= i <= files.len(),
    ensures
        files_descs(files, i).len() == files.len() - i,
        forall|k: int|
            i <= k < files.len() ==> files_descs(files, i)[k - i] == file_desc(
                #[trigger] files[k],
            ),
    decreases files.len() - i,
{
    if i < files.len() {
        lemma_files_descs_index(files, i + 1);
    }
}

/// The lines of the blocks from index `i` on, split off one file at a time.
proof fn lemma_blocks_len(files: Seq<File>, i: int)
    requires
        0 <= i <= files.len(),
    ensures
        spec_file_blocks(files, i).len() >= 0,
        i < files.len() ==> spec_file_blocks(files, i).len() == 1 + spec_part_lines(
            files[i].parts@,
            0,
        ).len() + spec_file_blocks(files, i + 1).len(),
{
}

pub proof fn lemma_part_lines_index(parts: Seq<Part>, i: int)
    requires
        0 <= i <= parts.len(),
    ensures
        spec_part_lines(parts, i).len() == parts.len() - i,
        forall|k: int|
            i <= k < parts.len() ==> spec_part_lines(parts, i)[k - i] == spec_part_line(
                #[trigger] parts[k],
            ),
    decreases parts.len() - i,
{
    if i < parts.len() {
        lemma_part_lines_index(parts, i + 1);
    }
}

/// Reading back emitted file blocks returns their records.
proof fn lemma_parse_files_emit(lines: Seq<Seq<u8>>, files: Seq<File>, i: int, idx: int)
    requires
        legacy_files_wf(files),
        0 <= i <= files.len(),
        0 <= idx <= lines.len(),
        lines.subrange(idx, lines.len() as int) =~= spec_file_blocks(files, i),
    ensures
        spec_parse_files(lines, idx, files.len() - i) == Ok::<
            (Seq<SpecLegacyFile>, int),
            LegacyErr,
        >((files_descs(files, i), lines.len() as int)),
    decreases files.len() - i,
{
    if i == files.len() {
        assert(spec_file_blocks(files, i) =~= Seq::<Seq<u8>>::empty());
        assert(lines.len() - idx == 0);
        assert(files_descs(files, i) =~= Seq::<SpecLegacyFile>::empty());
    } else {
        let f = files[i];
        let np = f.parts@.len() as int;
        lemma_part_lines_index(f.parts@, 0);
        lemma_blocks_len(files, i);
        assert(lines.len() - idx == 1 + np + spec_file_blocks(files, i + 1).len());
        assert(lines[idx] == spec_file_line(f)) by {
            assert(lines.subrange(idx, lines.len() as int)[0] == lines[idx]);
            assert(spec_file_blocks(files, i)[0] == spec_file_block(f)[0]);
        };
        lemma_parse_file_line_emit(f);
        assert forall|k: int| 0 <= k < np implies lines[idx + 1 + k] == spec_part_line(
            #[trigger] f.parts@[k],
        ) by {
            assert(lines.subrange(idx, lines.len() as int)[1 + k] == lines[idx + 1 + k]);
            assert(spec_file_blocks(files, i)[1 + k] == spec_file_block(f)[1 + k]);
            assert(spec_file_block(f)[1 + k] == spec_part_lines(f.parts@, 0)[k]);
        }
        lemma_parse_parts_emit(lines, f.parts@, idx + 1);
        let idx2 = idx + 1 + np;
        assert(lines.subrange(idx2, lines.len() as int) =~= spec_file_blocks(files, i + 1)) by {
            assert forall|q: int|
                0 <= q < lines.len() - idx2 implies lines.subrange(idx2, lines.len() as int)[q]
                == spec_file_blocks(files, i + 1)[q] by {
                assert(lines.subrange(idx, lines.len() as int)[1 + np + q] == lines[idx2 + q]);
                assert(spec_file_blocks(files, i)[1 + np + q] == spec_file_blocks(files, i + 1)[q]);
            }
        };
        lemma_parse_files_emit(lines, files, i + 1, idx2);
        assert(spec_parse_one_file(lines, idx) == Ok::<(SpecLegacyFile, int), LegacyErr>(
            (file_desc(f), idx2),
        )) by {
            assert(parts_descs(f.parts@, 0) == file_desc(f).parts);
        };
        assert(seq![file_desc(f)] + files_descs(files, i + 1) =~= files_descs(files, i));
    }
}

/// The per-file half of [`legacy_wf`].
pub open spec fn legacy_files_wf(files: Seq<File>) -> bool {
    forall|i: int|
        0 <= i < files.len() ==> {
            let f = #[trigger] files[i];
            &&& crate::srf::file_text_wf(f)
            &&& colon_free(f.path@)
            &&& colon_free(f.checksum@)
            &&& f.parts@.len() <= u32::MAX
            &&& forall|k: int|
                0 <= k < f.parts@.len() ==> colon_free((#[trigger] f.parts@[k]).path@)
                    && colon_free(f.parts@[k].checksum@)
        }
}

/// Splitting joined newline-free lines finds them again, plus the empty
/// segment after the final newline.
proof fn lemma_split_unlines(lines: Seq<Seq<u8>>)
    requires
        forall|i: int| 0 <= i < lines.len() ==> text::seg_free(#[trigger] lines[i], 10),
    ensures
        text::spec_split(spec_unlines(lines), 10) =~~= lines + seq![Seq::<u8>::empty()],
    decreases lines.len(),
{
    if lines.len() == 0 {
        assert(spec_unlines(lines) =~= Seq::<u8>::empty());
        assert(text::spec_split(Seq::<u8>::empty(), 10) =~~= seq![Seq::<u8>::empty()]);
        assert(lines + seq![Seq::<u8>::empty()] =~~= seq![Seq::<u8>::empty()]);
    } else {
        let tail = lines.drop_first();
        assert(forall|i: int| 0 <= i < tail.len() ==> text::seg_free(#[trigger] tail[i], 10));
        lemma_split_unlines(tail);
        text::lemma_split_concat(lines[0], spec_unlines(tail), 10);
        assert(spec_unlines(lines) =~= lines[0] + seq![10u8] + spec_unlines(tail));
        assert(seq![lines[0]] + (tail + seq![Seq::<u8>::empty()]) =~~= lines + seq![
            Seq::<u8>::empty(),
        ]);
    }
}

/// Reading lines back from joined clean lines returns them.
proof fn lemma_lines_unlines(lines: Seq<Seq<u8>>)
    requires
        forall|i: int|
            0 <= i < lines.len() ==> text::seg_free(#[trigger] lines[i], 10) && text::seg_free(
                lines[i],
                13,
            ),
    ensures
        spec_lines(spec_unlines(lines)) =~~= lines,
{
    lemma_split_unlines(lines);
    let segs = text::spec_split(spec_unlines(lines), 10);
    assert(segs =~~= lines + seq![Seq::<u8>::empty()]);
    assert(segs.last() == Seq::<u8>::empty());
    assert(segs.drop_last() =~~= lines);
    assert forall|i: int| 0 <= i < lines.len() implies spec_strip_cr(#[trigger] segs.drop_last()[i])
        == lines[i] by {
        assert(segs.drop_last()[i] == lines[i]);
        if lines[i].len() > 0 {
            assert(lines[i].last() != 13);
        }
    }
    assert(spec_lines(spec_unlines(lines)) =~~= segs.drop_last().map_values(
        |l: Seq<u8>| spec_strip_cr(l),
    ));
}

/// Every emitted line is printable: free of newlines and carriage returns.
proof fn lemma_legacy_lines_clean(m: Mod)
    requires
        legacy_wf(m),
    ensures
        forall|i: int|
            0 <= i < spec_legacy_lines(m).len() ==> text::seg_free(
                #[trigger] spec_legacy_lines(m)[i],
                10,
            ) && text::seg_free(spec_legacy_lines(m)[i], 13),
{
    let lines = spec_legacy_lines(m);
    assert forall|i: int| 0 <= i < lines.len() implies text::seg_free(#[trigger] lines[i], 10)
        && text::seg_free(lines[i], 13) by {
        if i == 0 {
            assert(lines[0] == spec_addon_line(m));
            lemma_token_free(m.name@);
            lemma_digits_free(m.files@.len());
            lemma_hex_free(m.checksum@);
        } else {
            assert(lines[i] == spec_file_blocks(m.files@, 0)[i - 1]);
            lemma_block_line_clean(m.files@, 0, i - 1);
        }
    }
}

/// Every line of the blocks from `i` on is printable.
proof fn lemma_block_line_clean(files: Seq<File>, i: int, q: int)
    requires
        legacy_files_wf(files),
        0 <= i <= files.len(),
        0 <= q < spec_file_blocks(files, i).len(),
    ensures
        text::seg_free(spec_file_blocks(files, i)[q], 10),
        text::seg_free(spec_file_blocks(files, i)[q], 13),
    decreases files.len() - i,
{
    let f = files[i];
    lemma_part_lines_index(f.parts@, 0);
    let blen = 1 + f.parts@.len();
    if q == 0 {
        assert(spec_file_blocks(files, i)[0] == spec_file_line(f));
        lemma_token_free(f.path@);
        lemma_token_free(f.checksum@);
        lemma_digits_free(f.length as nat);
        lemma_digits_free(f.parts@.len());
    } else if q < blen {
        assert(spec_file_blocks(files, i)[q] == spec_part_lines(f.parts@, 0)[q - 1]);
        let p = f.parts@[q - 1];
        assert(spec_part_lines(f.parts@, 0)[q - 1] == spec_part_line(p));
        lemma_token_free(p.path@);
        lemma_token_free(p.checksum@);
        lemma_digits_free(p.start as nat);
        lemma_digits_free(p.length as nat);
    } else {
        assert(spec_file_blocks(files, i)[q] == spec_file_blocks(files, i + 1)[q - blen]);
        lemma_block_line_clean(files, i + 1, q - blen);
    }
}

/// Where the legacy parse fails, the input is no written form of any
/// well-formed mod.
proof fn lemma_no_written_form(input: Seq<u8>)
    requires
        spec_parse_legacy(input) is Err,
    ensures
        forall|m: Mod| !(#[trigger] legacy_wf(m) && input == spec_serialize_legacy(m)),
{
    assert forall|m: Mod| !(#[trigger] legacy_wf(m) && input == spec_serialize_legacy(m)) by {
        if legacy_wf(m) && input == spec_serialize_legacy(m) {
            lemma_legacy_round_trip(m);
        }
    }
}

/// A part read back against its own record is the part.
proof fn lemma_part_desc_eq(p2: Part, p: Part)
    requires
        crate::srf::part_text_wf(p),
        lpart_matches(p2, part_desc(p)),
    ensures
        crate::srf::part_eq(p2, p),
{
    crate::json::lemma_chars_wf_ascii(p.path@);
    text::lemma_ascii_chars_bytes_inverse(p.path@);
    crate::json::lemma_chars_wf_ascii(p.checksum@);
    text::lemma_ascii_chars_bytes_inverse(p.checksum@);
}

/// A file read back against its own record is the file.
proof fn lemma_file_desc_eq(f2: File, f: File)
    requires
        crate::srf::file_text_wf(f),
        lfile_matches(f2, file_desc(f)),
    ensures
        crate::srf::file_eq(f2, f),
{
    crate::json::lemma_chars_wf_ascii(f.path@);
    text::lemma_ascii_chars_bytes_inverse(f.path@);
    crate::json::lemma_chars_wf_ascii(f.checksum@);
    text::lemma_ascii_chars_bytes_inverse(f.checksum@);
    lemma_parts_descs_index(f.parts@, 0);
    assert(f2.parts@.len() == f.parts@.len());
    assert forall|k: int| 0 <= k < f.parts@.len() implies crate::srf::part_eq(
        #[trigger] f2.parts@[k],
        f.parts@[k],
    ) by {
        assert(lpart_matches(f2.parts@[k], parts_descs(f.parts@, 0)[k]));
        assert(parts_descs(f.parts@, 0)[k] == part_desc(f.parts@[k]));
        lemma_part_desc_eq(f2.parts@[k], f.parts@[k]);
    }
    if f.file_type == FileType::Pbo {
        assert(f2.file_type == FileType::Pbo);
    } else {
        assert(f.file_type == FileType::File);
        assert(f2.file_type != FileType::Pbo);
        assert(f2.file_type == FileType::File);
    }
}

/// Round trip: parsing a written legacy manifest returns its records.
pub proof fn lemma_legacy_round_trip(m: Mod)
    requires
        legacy_wf(m),
    ensures
        spec_parse_legacy(spec_serialize_legacy(m)) == Ok::<
            (Seq<u8>, Seq<u8>, Seq<SpecLegacyFile>),
            LegacyErr,
        >((text::bytes_of_chars(m.name@), m.checksum@, files_descs(m.files@, 0))),
{
    let lines = spec_legacy_lines(m);
    lemma_legacy_lines_clean(m);
    lemma_lines_unlines(lines);
    assert(spec_lines(spec_serialize_legacy(m)) =~~= lines);
    assert(lines.len() >= 1);
    assert(lines[0] == spec_addon_line(m));
    lemma_parse_addon_emit(m);
    assert(lines.subrange(1, lines.len() as int) =~= spec_file_blocks(m.files@, 0)) by {
        assert forall|q: int|
            0 <= q < lines.len() - 1 implies lines.subrange(1, lines.len() as int)[q]
            == spec_file_blocks(m.files@, 0)[q] by {
            assert(lines[1 + q] == spec_file_blocks(m.files@, 0)[q]);
        }
    };
    lemma_parse_files_emit(lines, m.files@, 0, 1);
    assert((m.files@.len() as u32) as int == m.files@.len());
}

/// A written legacy manifest always reads as legacy: it opens with the
/// `ADDON` magic.
pub proof fn lemma_legacy_is_legacy(m: Mod)
    ensures
        spec_is_legacy(spec_serialize_legacy(m)),
{
    let s = spec_serialize_legacy(m);
    let lines = spec_legacy_lines(m);
    assert(lines[0] == spec_addon_line(m));
    assert(s =~= lines[0] + seq![10u8] + spec_unlines(lines.drop_first()));
    assert(spec_addon_line(m).len() >= 5);
    assert forall|q: int| 0 <= q < 5 implies s[q] == spec_addon_tag()[q] by {
        assert(spec_addon_line(m)[q] == spec_addon_tag()[q]);
    }
    assert(s.subrange(0, 5) =~= spec_addon_tag());
}

} // verus!
