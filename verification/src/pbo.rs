//! PBO container header parser. A PBO begins with a directory: entry
//! records (NUL-terminated name, five little-endian `u32` fields), the
//! first conventionally a `Vers` record followed by NUL-terminated
//! key/value extension pairs, the whole directory closed by an all-zero
//! record with an empty name. Payload bytes follow the directory.

use vstd::prelude::*;
use vstd::bytes::spec_u32_from_le_bytes;
use vstd::bytes::u32_from_le_bytes;
use vstd::slice::slice_subrange;
use vstd::slice::spec_slice_len;
use crate::text;

verus! {

/// Tag value of a `Vers` record.
pub const TAG_VERS: u32 = 0x56657273;

/// Tag value of a `Cprs` record.
pub const TAG_CPRS: u32 = 0x43707273;

/// Tag value of an `Enco` record.
pub const TAG_ENCO: u32 = 0x456e6372;

/// Why a header failed to parse.
#[derive(Clone, Copy, PartialEq, Eq, Structural, Debug)]
pub enum Error {
    /// The input ended inside a record.
    Io,
    /// A record carried an unknown type tag; evidence of corruption,
    /// never skipped.
    PboType { tag: u32 },
}

/// The type tag of one directory entry.
#[derive(Clone, Copy, PartialEq, Eq, Structural, Debug)]
pub enum EntryType {
    Vers,
    Cprs,
    Enco,
    Empty,
}

pub open spec fn tag_of(t: EntryType) -> u32 {
    match t {
        EntryType::Vers => TAG_VERS,
        EntryType::Cprs => TAG_CPRS,
        EntryType::Enco => TAG_ENCO,
        EntryType::Empty => 0,
    }
}

/// One directory entry as parsed.
#[derive(Clone, Debug)]
pub struct PboEntry {
    pub filename: String,
    pub entry_type: EntryType,
    pub original_size: u32,
    pub offset: u32,
    pub timestamp: u32,
    pub data_size: u32,
}

/// A directory entry in mathematical form: the name as raw bytes.
pub ghost struct SpecPboEntry {
    pub filename: Seq<u8>,
    pub tag: u32,
    pub original_size: u32,
    pub offset: u32,
    pub timestamp: u32,
    pub data_size: u32,
}

/// The parsed entry against its mathematical form: every numeric field
/// exact; the name exact whenever it is ASCII (non-ASCII names pass
/// through a lossy decode).
pub open spec fn entry_matches(e: PboEntry, se: SpecPboEntry) -> bool {
    &&& tag_of(e.entry_type) == se.tag
    &&& e.original_size == se.original_size
    &&& e.offset == se.offset
    &&& e.timestamp == se.timestamp
    &&& e.data_size == se.data_size
    &&& (text::seq_is_ascii(se.filename) ==> e.filename@ == text::ascii_chars_of(se.filename))
    &&& (e.filename@.len() == 0 <==> se.filename.len() == 0)
}

// ---------------------------------------------------------------------------
// NUL-terminated strings
// ---------------------------------------------------------------------------

/// Reading to the next NUL: the bytes consumed (terminator included when
/// found), the position after, and whether a NUL was found.
pub open spec fn spec_scan_nul(s: Seq<u8>, pos: int) -> (Seq<u8>, int, bool)
    decreases s.len() - pos,
{
    if pos < 0 || pos >= s.len() {
        (Seq::empty(), pos, false)
    } else if s[pos] == 0 {
        (Seq::empty(), pos + 1, true)
    } else {
        let (rest, np, found) = spec_scan_nul(s, pos + 1);
        (seq![s[pos]] + rest, np, found)
    }
}

/// The string read from `pos`: bytes before the NUL when one is found;
/// otherwise everything but the final byte (the terminator slot), exactly
/// as a read-to-delimiter followed by dropping the last byte behaves.
pub open spec fn spec_read_string(s: Seq<u8>, pos: int) -> (Seq<u8>, int) {
    let (content, np, found) = spec_scan_nul(s, pos);
    if found {
        (content, np)
    } else if content.len() > 0 {
        (content.drop_last(), np)
    } else {
        (content, np)
    }
}

pub proof fn lemma_scan_nul_bounds(s: Seq<u8>, pos: int)
    requires
        0 <= pos <= s.len(),
    ensures
        ({
            let (content, np, found) = spec_scan_nul(s, pos);
            &&& pos <= np <= s.len()
            &&& content.len() == if found {
                np - pos - 1
            } else {
                np - pos
            }
            &&& (found ==> np > pos)
            &&& (!found ==> np == s.len())
        }),
    decreases s.len() - pos,
{
    if pos < s.len() && s[pos] != 0 {
        lemma_scan_nul_bounds(s, pos + 1);
    }
}

pub proof fn lemma_read_string_bounds(s: Seq<u8>, pos: int)
    requires
        0 <= pos <= s.len(),
    ensures
        ({
            let (content, np) = spec_read_string(s, pos);
            &&& pos <= np <= s.len()
            &&& (content.len() > 0 ==> np > pos)
            &&& (np == pos ==> pos == s.len())
        }),
{
    lemma_scan_nul_bounds(s, pos);
}

/// Reads the raw bytes of a NUL-terminated string, advancing `pos`.
pub(crate) fn read_string_bytes(input: &[u8], pos: &mut usize) -> (r: Vec<u8>)
    requires
        *old(pos) <= input@.len(),
    ensures
        ({
            let (content, np) = spec_read_string(input@, *old(pos) as int);
            &&& r@ == content
            &&& *final(pos) == np
            &&& *final(pos) <= input@.len()
        }),
{
    let ghost start = *old(pos) as int;
    let mut r: Vec<u8> = Vec::new();
    loop
        invariant
            start == *old(pos) as int,
            start <= *pos <= input@.len(),
            0 <= start,
            spec_scan_nul(input@, start).0 == r@ + spec_scan_nul(input@, *pos as int).0,
            spec_scan_nul(input@, start).1 == spec_scan_nul(input@, *pos as int).1,
            spec_scan_nul(input@, start).2 == spec_scan_nul(input@, *pos as int).2,
        decreases input@.len() - *pos,
    {
        if *pos >= input.len() {
            // end of input without a terminator: the final byte read, if
            // any, stands in the terminator slot and is dropped
            proof {
                assert(r@ + spec_scan_nul(input@, *pos as int).0 =~= r@);
            }
            if r.len() > 0 {
                let ghost before = r@;
                let _last = r.pop();
                proof {
                    assert(r@ =~= before.drop_last());
                }
            }
            return r;
        }
        let b = input[*pos];
        *pos = *pos + 1;
        if b == 0 {
            proof {
                let p = *pos as int - 1;
                assert(input@[p] == 0);
                assert(spec_scan_nul(input@, p) == (Seq::<u8>::empty(), p + 1, true));
                assert(r@ + spec_scan_nul(input@, p).0 =~= r@);
                assert(spec_scan_nul(input@, start).0 == r@);
                assert(spec_scan_nul(input@, start).1 == p + 1);
                assert(spec_scan_nul(input@, start).2 == true);
                let (content, np) = spec_read_string(input@, start);
                assert(content == r@);
                assert(np == p + 1);
            }
            return r;
        }
        r.push(b);
        proof {
            let prev = *pos as int - 1;
            let c1 = spec_scan_nul(input@, prev).0;
            let c2 = spec_scan_nul(input@, *pos as int).0;
            assert(c1 =~= seq![input@[prev]] + c2);
            assert(r@ + c2 =~= r@.drop_last() + c1);
        }
    }
}

/// Reads a NUL-terminated string; non-ASCII bytes survive only through a
/// lossy decode, so the contract pins the ASCII case.
pub fn read_string(input: &[u8], pos: &mut usize) -> (r: String)
    requires
        *old(pos) <= input@.len(),
    ensures
        ({
            let (content, np) = spec_read_string(input@, *old(pos) as int);
            &&& *final(pos) == np
            &&& *final(pos) <= input@.len()
            &&& (text::seq_is_ascii(content) ==> r@ == text::ascii_chars_of(content))
        }),
{
    let v = read_string_bytes(input, pos);
    text::lossy_string(v.as_slice())
}

// ---------------------------------------------------------------------------
// Entry records
// ---------------------------------------------------------------------------

/// One entry record read from `pos`: the name, then five little-endian
/// `u32` fields, with an unknown type tag rejected before the remaining
/// fields are read.
pub open spec fn spec_read_entry(s: Seq<u8>, pos: int) -> Result<(SpecPboEntry, int), Error> {
    let (name, p1) = spec_read_string(s, pos);
    if p1 + 4 > s.len() {
        Err(Error::Io)
    } else {
        let tag = spec_u32_from_le_bytes(s.subrange(p1, p1 + 4));
        if tag != TAG_VERS && tag != TAG_CPRS && tag != TAG_ENCO && tag != 0 {
            Err(Error::PboType { tag })
        } else if p1 + 20 > s.len() {
            Err(Error::Io)
        } else {
            Ok(
                (
                    SpecPboEntry {
                        filename: name,
                        tag,
                        original_size: spec_u32_from_le_bytes(s.subrange(p1 + 4, p1 + 8)),
                        offset: spec_u32_from_le_bytes(s.subrange(p1 + 8, p1 + 12)),
                        timestamp: spec_u32_from_le_bytes(s.subrange(p1 + 12, p1 + 16)),
                        data_size: spec_u32_from_le_bytes(s.subrange(p1 + 16, p1 + 20)),
                    },
                    p1 + 20,
                ),
            )
        }
    }
}

pub proof fn lemma_read_entry_bounds(s: Seq<u8>, pos: int)
    requires
        0 <= pos <= s.len(),
    ensures
        spec_read_entry(s, pos) matches Ok((e, np)) ==> pos + 20 <= np <= s.len(),
{
    lemma_read_string_bounds(s, pos);
}

impl PboEntry {
    /// Reads one directory record, advancing `pos`.
    pub fn read(input: &[u8], pos: &mut usize) -> (r: Result<PboEntry, Error>)
        requires
            *old(pos) <= input@.len(),
        ensures
            *final(pos) <= input@.len(),
            match r {
                Ok(e) => spec_read_entry(input@, *old(pos) as int) matches Ok((se, np))
                    && entry_matches(e, se) && *final(pos) == np,
                Err(err) => spec_read_entry(input@, *old(pos) as int) == Err::<
                    (SpecPboEntry, int),
                    Error,
                >(err),
            },
    {
        proof {
            lemma_read_string_bounds(input@, *old(pos) as int);
        }
        let name_bytes = read_string_bytes(input, pos);
        if input.len() - *pos < 4 {
            return Err(Error::Io);
        }
        let tag = read_u32_le(input, pos);
        let entry_type = if tag == TAG_VERS {
            EntryType::Vers
        } else if tag == TAG_CPRS {
            EntryType::Cprs
        } else if tag == TAG_ENCO {
            EntryType::Enco
        } else if tag == 0 {
            EntryType::Empty
        } else {
            return Err(Error::PboType { tag });
        };
        if input.len() - *pos < 16 {
            return Err(Error::Io);
        }
        let original_size = read_u32_le(input, pos);
        let offset = read_u32_le(input, pos);
        let timestamp = read_u32_le(input, pos);
        let data_size = read_u32_le(input, pos);
        let filename = text::lossy_string(name_bytes.as_slice());
        Ok(PboEntry { filename, entry_type, original_size, offset, timestamp, data_size })
    }
}

// ---------------------------------------------------------------------------
// Extensions and the whole directory
// ---------------------------------------------------------------------------

/// The extensions block: NUL-terminated key/value pairs, closed by an
/// empty key. Never fails; at the end of input every read yields the
/// empty string, which closes the block.
pub open spec fn spec_read_extensions(s: Seq<u8>, pos: int) -> (Seq<(Seq<u8>, Seq<u8>)>, int)
    decreases s.len() - pos,
{
    let (key, p1) = spec_read_string(s, pos);
    if key.len() == 0 {
        (Seq::empty(), p1)
    } else {
        let (val, p2) = spec_read_string(s, p1);
        if pos < p2 <= s.len() {
            let (rest, end) = spec_read_extensions(s, p2);
            (seq![(key, val)] + rest, end)
        } else {
            // never reached: a nonempty key forces progress; this arm only
            // bounds the recursion
            (seq![(key, val)], p2)
        }
    }
}

pub proof fn lemma_read_extensions_bounds(s: Seq<u8>, pos: int)
    requires
        0 <= pos <= s.len(),
    ensures
        pos <= spec_read_extensions(s, pos).1 <= s.len(),
    decreases s.len() - pos,
{
    let (key, p1) = spec_read_string(s, pos);
    lemma_read_string_bounds(s, pos);
    if key.len() > 0 {
        let (val, p2) = spec_read_string(s, p1);
        lemma_read_string_bounds(s, p1);
        lemma_read_extensions_bounds(s, p2);
    }
}

/// The pairs against their mathematical form: exact whenever the bytes
/// are ASCII.
pub open spec fn extensions_match(v: Seq<(String, String)>, sx: Seq<(Seq<u8>, Seq<u8>)>) -> bool {
    &&& v.len() == sx.len()
    &&& forall|i: int|
        0 <= i < v.len() ==> {
            &&& (text::seq_is_ascii((#[trigger] sx[i]).0) ==> v[i].0@ == text::ascii_chars_of(
                sx[i].0,
            ))
            &&& (text::seq_is_ascii(sx[i].1) ==> v[i].1@ == text::ascii_chars_of(sx[i].1))
        }
}

/// Reads the extensions block, advancing `pos`.
pub fn read_extensions(input: &[u8], pos: &mut usize) -> (r: Vec<(String, String)>)
    requires
        *old(pos) <= input@.len(),
    ensures
        ({
            let (sx, end) = spec_read_extensions(input@, *old(pos) as int);
            &&& extensions_match(r@, sx)
            &&& *final(pos) == end
            &&& *final(pos) <= input@.len()
        }),
{
    let ghost start = *old(pos) as int;
    let mut r: Vec<(String, String)> = Vec::new();
    let ghost mut done: Seq<(Seq<u8>, Seq<u8>)> = Seq::empty();
    proof {
        assert(Seq::<(Seq<u8>, Seq<u8>)>::empty() + spec_read_extensions(input@, start).0
            =~~= spec_read_extensions(input@, start).0);
    }
    loop
        invariant
            start == *old(pos) as int,
            0 <= start <= *pos <= input@.len(),
            extensions_match(r@, done),
            spec_read_extensions(input@, start).0 == done + spec_read_extensions(
                input@,
                *pos as int,
            ).0,
            spec_read_extensions(input@, start).1 == spec_read_extensions(input@, *pos as int).1,
        decreases input@.len() - *pos,
    {
        let ghost p = *pos as int;
        let ghost done_pre = done;
        proof {
            lemma_read_string_bounds(input@, p);
        }
        let key = read_string_bytes(input, pos);
        if key.len() == 0 {
            proof {
                assert(done + spec_read_extensions(input@, p).0 =~~= done);
            }
            return r;
        }
        proof {
            lemma_read_string_bounds(input@, *pos as int);
        }
        let ghost p1 = *pos as int;
        let val = read_string_bytes(input, pos);
        let ghost p2 = *pos as int;
        let key_s = text::lossy_string(key.as_slice());
        let val_s = text::lossy_string(val.as_slice());
        r.push((key_s, val_s));
        proof {
            done = done.push((key@, val@));
            let (rest, end) = spec_read_extensions(input@, p2);
            assert(spec_read_extensions(input@, p).0 =~~= seq![(key@, val@)] + rest);
            assert(done_pre + (seq![(key@, val@)] + rest) =~~= done + rest);
        }
    }
}

/// A parsed directory in mathematical form.
pub ghost struct SpecPbo {
    pub entries: Seq<SpecPboEntry>,
    pub extensions: Seq<(Seq<u8>, Seq<u8>)>,
    pub header_len: int,
}

/// The directory read from `pos`: entries up to the all-zero terminator,
/// the extensions of the last `Vers` record (if any), and the position
/// after the terminator.
pub open spec fn spec_read_entries(s: Seq<u8>, pos: int) -> Result<
    (Seq<SpecPboEntry>, Option<Seq<(Seq<u8>, Seq<u8>)>>, int),
    Error,
>
    decreases s.len() - pos,
{
    match spec_read_entry(s, pos) {
        Err(e) => Err(e),
        Ok((e, np)) => {
            if e.tag == 0 && e.filename.len() == 0 {
                Ok((Seq::empty(), Option::None, np))
            } else {
                let (x, np2) = if e.tag == TAG_VERS {
                    let (ext, q) = spec_read_extensions(s, np);
                    (Option::Some(ext), q)
                } else {
                    (Option::<Seq<(Seq<u8>, Seq<u8>)>>::None, np)
                };
                if pos < np2 <= s.len() {
                    match spec_read_entries(s, np2) {
                        Err(er) => Err(er),
                        Ok((rest, rx, end)) => Ok(
                            (
                                seq![e] + rest,
                                if rx is Some {
                                    rx
                                } else {
                                    x
                                },
                                end,
                            ),
                        ),
                    }
                } else {
                    // never reached: a parsed record forces progress; this
                    // arm only bounds the recursion
                    Ok((seq![e], x, np2))
                }
            }
        },
    }
}

/// The whole header parse.
pub open spec fn spec_read_pbo(s: Seq<u8>) -> Result<SpecPbo, Error> {
    match spec_read_entries(s, 0) {
        Err(e) => Err(e),
        Ok((entries, x, end)) => Ok(
            SpecPbo {
                entries,
                extensions: match x {
                    Option::Some(ext) => ext,
                    Option::None => Seq::empty(),
                },
                header_len: end,
            },
        ),
    }
}

/// A parsed PBO header: its byte length (the offset where payloads begin),
/// the extension pairs of the `Vers` record, and the directory entries in
/// order, terminator excluded.
#[derive(Debug)]
pub struct Pbo {
    pub header_len: u64,
    pub extensions: Vec<(String, String)>,
    pub entries: Vec<PboEntry>,
}

/// The parsed header against its mathematical form.
pub open spec fn pbo_matches(p: Pbo, sp: SpecPbo) -> bool {
    &&& p.header_len == sp.header_len
    &&& extensions_match(p.extensions@, sp.extensions)
    &&& p.entries@.len() == sp.entries.len()
    &&& forall|i: int|
        0 <= i < p.entries@.len() ==> entry_matches(#[trigger] p.entries@[i], sp.entries[i])
}

impl Pbo {
    /// Parses the directory of a PBO given as bytes. Reads strictly
    /// forward; on success `header_len` is the end of the directory.
    /// Unknown type tags are errors, never skipped.
    pub fn read(input: &[u8]) -> (r: Result<Pbo, Error>)
        ensures
            match r {
                Ok(p) => spec_read_pbo(input@) matches Ok(sp) && pbo_matches(p, sp)
                    && p.header_len <= input@.len(),
                Err(e) => spec_read_pbo(input@) == Err::<SpecPbo, Error>(e),
            },
    {
        let mut pos: usize = 0;
        let mut entries: Vec<PboEntry> = Vec::new();
        let mut extensions: Vec<(String, String)> = Vec::new();
        let ghost mut sentries: Seq<SpecPboEntry> = Seq::empty();
        let ghost mut sx: Option<Seq<(Seq<u8>, Seq<u8>)>> = Option::None;
        proof {
            let r0 = spec_read_entries(input@, 0);
            if r0 is Ok {
                assert(Seq::<SpecPboEntry>::empty() + r0->Ok_0.0 =~= r0->Ok_0.0);
            }
        }
        loop
            invariant
                0 <= pos <= input@.len(),
                sentries.len() == entries@.len(),
                forall|i: int|
                    0 <= i < entries@.len() ==> entry_matches(
                        #[trigger] entries@[i],
                        sentries[i],
                    ),
                sx matches Some(x) ==> extensions_match(extensions@, x),
                sx is None ==> extensions@.len() == 0,
                spec_read_entries(input@, 0) == combine(
                    sentries,
                    sx,
                    spec_read_entries(input@, pos as int),
                ),
            decreases input@.len() - pos,
        {
            let ghost p = pos as int;
            proof {
                lemma_read_entry_bounds(input@, p);
            }
            let entry = match PboEntry::read(input, &mut pos) {
                Ok(e) => e,
                Err(e) => {
                    return Err(e);
                },
            };
            let is_term = match entry.entry_type {
                EntryType::Empty => entry.filename.as_str().is_empty(),
                _ => false,
            };
            let ghost se = spec_read_entry(input@, p)->Ok_0.0;
            if is_term {
                proof {
                    let rp = spec_read_entries(input@, p);
                    assert(rp == Ok::<_, Error>(
                        (Seq::<SpecPboEntry>::empty(), Option::<Seq<(Seq<u8>, Seq<u8>)>>::None, pos as int),
                    ));
                    assert(sentries + Seq::<SpecPboEntry>::empty() =~= sentries);
                }
                let header_len = u64_from_usize(pos);
                return Ok(Pbo { header_len, extensions, entries });
            }
            let is_vers = match entry.entry_type {
                EntryType::Vers => true,
                _ => false,
            };
            if is_vers {
                extensions = read_extensions(input, &mut pos);
                proof {
                    sx = Option::Some(spec_read_extensions(input@, spec_read_entry(input@, p)->Ok_0.1).0);
                }
            }
            entries.push(entry);
            proof {
                let ghost old_sentries = sentries;
                sentries = sentries.push(se);
                lemma_read_extensions_bounds(input@, spec_read_entry(input@, p)->Ok_0.1);
                let rn = spec_read_entries(input@, pos as int);
                if rn is Ok {
                    assert(old_sentries + (seq![se] + rn->Ok_0.0) =~= sentries + rn->Ok_0.0);
                }
            }
        }
    }
}

/// How a prefix of parsed entries and a possibly-seen extensions block
/// combine with the parse of the remaining input.
pub open spec fn combine(
    acc: Seq<SpecPboEntry>,
    accx: Option<Seq<(Seq<u8>, Seq<u8>)>>,
    rest: Result<(Seq<SpecPboEntry>, Option<Seq<(Seq<u8>, Seq<u8>)>>, int), Error>,
) -> Result<(Seq<SpecPboEntry>, Option<Seq<(Seq<u8>, Seq<u8>)>>, int), Error> {
    match rest {
        Err(e) => Err(e),
        Ok((es, x, end)) => Ok(
            (
                acc + es,
                if x is Some {
                    x
                } else {
                    accx
                },
                end,
            ),
        ),
    }
}

/// Widens a `usize` position to the `u64` header length.
fn u64_from_usize(v: usize) -> (r: u64)
    ensures
        r == v as u64,
        r == v,
{
    v as u64
}

/// Reads one little-endian `u32`, advancing `pos`; the caller has checked
/// that four bytes remain.
fn read_u32_le(input: &[u8], pos: &mut usize) -> (r: u32)
    requires
        *old(pos) + 4 <= input@.len(),
    ensures
        r == spec_u32_from_le_bytes(input@.subrange(*old(pos) as int, *old(pos) as int + 4)),
        *final(pos) == *old(pos) + 4,
{
    proof {
        broadcast use vstd::slice::axiom_spec_len;

        assert(spec_slice_len(input) == input@.len());
    }
    let s = slice_subrange(input, *pos, *pos + 4);
    let v = u32_from_le_bytes(s);
    *pos = *pos + 4;
    v
}

} // verus!
