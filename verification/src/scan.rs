//! The scanner core: turning file contents into hashed SRF entries and
//! assembling a mod manifest. All input arrives as plain values — relative
//! paths and byte contents — so every result is a function of them alone.

use vstd::prelude::*;
use vstd::slice::slice_subrange;
use vstd::multiset::Multiset;
use crate::checksum;
use crate::md5_digest::Md5Digest;
use crate::srf::{file_cat, mod_cat, spec_file_checksum, spec_mod_checksum, Error, File, FileType,
    Mod, Part};
use crate::text;

verus! {

/// Plain files are hashed in runs of this many bytes.
pub const CHUNK_SIZE: u64 = 5000000;

/// How many chunks a plain file of `len` bytes yields.
pub open spec fn spec_num_chunks(len: int) -> int {
    (len + 4999999) / 5000000
}

/// The bytes of chunk `k` of `data`.
pub open spec fn spec_chunk(data: Seq<u8>, k: int) -> Seq<u8> {
    if (k + 1) * 5000000 <= data.len() {
        data.subrange(k * 5000000, (k + 1) * 5000000)
    } else {
        data.subrange(k * 5000000, data.len() as int)
    }
}

/// The logical name of a plain-file part: the file's base name, an
/// underscore, and the offset just past the part.
pub open spec fn spec_part_name(base: Seq<u8>, end: nat) -> Seq<u8> {
    base + seq![95u8] + text::spec_u64_digits(end)
}

/// The base name: everything after the last forward slash.
pub open spec fn spec_basename(b: Seq<u8>) -> Seq<u8>
    decreases b.len(),
{
    if b.len() == 0 {
        Seq::empty()
    } else if b.last() == 47 {
        Seq::empty()
    } else {
        spec_basename(b.drop_last()).push(b.last())
    }
}

/// The base name of a path given as bytes.
pub fn basename(path: &[u8]) -> (r: Vec<u8>)
    ensures
        r@ =~= spec_basename(path@),
{
    let mut cut: usize = path.len();
    proof {
        assert(path@.take(path@.len() as int) =~= path@);
        assert(path@.skip(path@.len() as int) =~= Seq::<u8>::empty());
        assert(spec_basename(path@) =~= spec_basename(path@) + Seq::<u8>::empty());
    }
    loop
        invariant
            0 <= cut <= path@.len(),
            spec_basename(path@) =~= spec_basename(path@.take(cut as int)) + path@.skip(
                cut as int,
            ),
            forall|k: int| cut <= k < path@.len() ==> path@[k] != 47,
        decreases cut,
    {
        if cut == 0 {
            proof {
                assert(spec_basename(path@.take(0)) =~= Seq::<u8>::empty());
                assert(spec_basename(path@) =~= path@.skip(0));
            }
            return vstd::slice::slice_to_vec(path);
        }
        let b = path[cut - 1];
        if b == 47 {
            let r = slice_subrange(path, cut, path.len());
            proof {
                assert(path@.take(cut as int).last() == 47);
                assert(spec_basename(path@.take(cut as int)) =~= Seq::<u8>::empty());
                assert(spec_basename(path@) =~= path@.skip(cut as int));
            }
            return vstd::slice::slice_to_vec(r);
        }
        proof {
            let t = path@.take(cut as int);
            assert(t.last() == path@[cut - 1]);
            assert(t.drop_last() =~= path@.take(cut as int - 1));
            assert(spec_basename(path@.take(cut as int)) =~= spec_basename(
                path@.take(cut as int - 1),
            ).push(path@[cut - 1]));
            assert(spec_basename(path@.take(cut as int - 1)) + path@.skip(cut as int - 1)
                =~= spec_basename(path@.take(cut as int)) + path@.skip(cut as int));
        }
        cut = cut - 1;
    }
}

/// Every part of `parts` against the chunks of `data` with base name
/// `base`: positions, lengths, names and checksums all pinned.
pub open spec fn parts_are_chunks(parts: Seq<Part>, data: Seq<u8>, base: Seq<u8>) -> bool {
    &&& parts.len() == spec_num_chunks(data.len() as int)
    &&& forall|k: int|
        0 <= k < parts.len() ==> {
            let start = k * 5000000;
            let len = if start + 5000000 <= data.len() {
                5000000int
            } else {
                data.len() - start
            };
            &&& (#[trigger] parts[k]).start == start
            &&& parts[k].length == len
            &&& parts[k].checksum@ == text::ascii_chars_of(
                text::spec_hex_upper(checksum::md5_of(spec_chunk(data, k))),
            )
            &&& (text::seq_is_ascii(spec_part_name(base, (start + len) as nat)) ==> parts[k].path@
                == text::ascii_chars_of(spec_part_name(base, (start + len) as nat)))
            &&& parts[k].path@.len() > 0
        }
}

/// Scans a plain file: fixed-size chunks, each hashed, and the file
/// checksum hashed over the concatenated chunk checksum texts. Every
/// field of the result is a function of the path and the bytes alone.
pub fn scan_file(rel_path: &str, data: &[u8]) -> (r: File)
    ensures
        r.file_type == FileType::File,
        r.path@ == rel_path@,
        r.length == data@.len(),
        parts_are_chunks(r.parts@, data@, spec_basename(vstd::utf8::encode_utf8(rel_path@))),
        r.checksum@ == spec_file_checksum(r.parts@),
{
    broadcast use vstd::string::is_ascii_spec_bytes;

    let path_bytes = rel_path.as_bytes_vec();
    let base = basename(path_bytes.as_slice());
    let ghost gbase = spec_basename(vstd::utf8::encode_utf8(rel_path@));
    let mut parts: Vec<Part> = Vec::new();
    let mut cat: Vec<u8> = Vec::new();
    let mut pos: usize = 0;
    proof {
        assert(parts@.flat_map(|p: Part| vstd::utf8::encode_utf8(p.checksum@))
            =~= Seq::<u8>::empty());
    }
    while pos < data.len()
        invariant
            base@ =~= gbase,
            gbase == spec_basename(vstd::utf8::encode_utf8(rel_path@)),
            0 <= pos <= data@.len(),
            pos == parts@.len() * 5000000 || (pos == data@.len() && parts@.len()
                == spec_num_chunks(data@.len() as int)),
            pos < data@.len() ==> pos == parts@.len() * 5000000,
            parts@.len() <= spec_num_chunks(data@.len() as int),
            forall|k: int|
                0 <= k < parts@.len() ==> {
                    let start = k * 5000000;
                    let len = if start + 5000000 <= data@.len() {
                        5000000int
                    } else {
                        data@.len() - start
                    };
                    &&& (#[trigger] parts@[k]).start == start
                    &&& parts@[k].length == len
                    &&& parts@[k].checksum@ == text::ascii_chars_of(
                        text::spec_hex_upper(checksum::md5_of(spec_chunk(data@, k))),
                    )
                    &&& (text::seq_is_ascii(spec_part_name(base@, (start + len) as nat))
                        ==> parts@[k].path@ == text::ascii_chars_of(
                        spec_part_name(base@, (start + len) as nat),
                    ))
                    &&& parts@[k].path@.len() > 0
                },
            cat@ == file_cat(parts@),
        decreases data@.len() - pos,
    {
        let ghost k = parts@.len() as int;
        proof {
            assert(pos == k * 5000000);
            assert(k < spec_num_chunks(data@.len() as int)) by (nonlinear_arith)
                requires
                    pos == k * 5000000,
                    pos < data@.len(),
                    spec_num_chunks(data@.len() as int) == (data@.len() + 4999999) / 5000000,
            ;
        }
        let end: usize = if data.len() - pos >= 5000000 {
            pos + 5000000
        } else {
            data.len()
        };
        let chunk = slice_subrange(data, pos, end);
        let hex = checksum::md5_hex(chunk);
        let checksum_str = text::lossy_string(hex.as_slice());
        let mut name_bytes = vstd::slice::slice_to_vec(base.as_slice());
        name_bytes.push(95);
        let mut digits = text::u64_to_dec(end as u64);
        name_bytes.append(&mut digits);
        let part_path = text::lossy_string(name_bytes.as_slice());
        let ghost old_parts = parts@;
        let new_part = Part {
            path: part_path,
            length: (end - pos) as u64,
            start: pos as u64,
            checksum: checksum_str,
        };
        parts.push(new_part);
        let mut hex2 = hex;
        let ghost old_cat = cat@;
        cat.append(&mut hex2);
        proof {
            assert(chunk@ =~= spec_chunk(data@, k));
            assert(name_bytes@ =~= spec_part_name(base@, end as nat));
            text::lemma_u64_digits_are_digits(end as nat);
            text::lemma_all_digits_ascii(text::spec_u64_digits(end as nat));
            assert(name_bytes@.len() > 0);
            let f = |p: Part| vstd::utf8::encode_utf8(p.checksum@);
            old_parts.lemma_flat_map_push(f, new_part);
            let hexv = text::spec_hex_upper(checksum::md5_of(spec_chunk(data@, k)));
            text::lemma_ascii_bytes_chars_inverse(hexv);
            text::lemma_encode_ascii_bytes(hexv);
            assert(f(new_part) =~= hexv);
            assert(cat@ =~= file_cat(parts@));
            if end == data.len() && end - pos < 5000000 {
                assert(parts@.len() == spec_num_chunks(data@.len() as int)) by (nonlinear_arith)
                    requires
                        pos == k * 5000000,
                        parts@.len() == k + 1,
                        0 < data@.len() - pos < 5000000,
                        end == data@.len(),
                        spec_num_chunks(data@.len() as int) == (data@.len() + 4999999) / 5000000,
                ;
            }
        }
        pos = end;
    }
    proof {
        if data@.len() == 0 {
            assert(spec_num_chunks(0) == 0);
        }
        if pos == parts@.len() * 5000000 && pos == data@.len() {
            let k = parts@.len() as int;
            assert(k == spec_num_chunks(data@.len() as int)) by (nonlinear_arith)
                requires
                    data@.len() == k * 5000000 || (data@.len() == 0 && k == 0),
                    k >= 0,
                    spec_num_chunks(data@.len() as int) == (data@.len() + 4999999) / 5000000,
            ;
        }
    }
    let file_hex = checksum::md5_hex(cat.as_slice());
    let checksum_string = text::lossy_string(file_hex.as_slice());
    let path_string = rel_path.to_owned();
    File {
        path: path_string,
        length: u64_of_len(data.len()),
        checksum: checksum_string,
        file_type: FileType::File,
        parts,
    }
}

// ---------------------------------------------------------------------------
// PBO scanning
// ---------------------------------------------------------------------------

/// The bytes of the sentinel part name that covers the directory header.
pub open spec fn spec_header_name() -> Seq<u8> {
    seq![36u8, 36u8, 72u8, 69u8, 65u8, 68u8, 69u8, 82u8, 36u8, 36u8]
}

/// The bytes of the sentinel part name that covers the trailing region.
pub open spec fn spec_end_name() -> Seq<u8> {
    seq![36u8, 36u8, 69u8, 78u8, 68u8, 36u8, 36u8]
}

/// The payload sizes of the entries after the first (`Vers`) record.
pub open spec fn entry_sizes(sp: crate::pbo::SpecPbo) -> Seq<u32> {
    if sp.entries.len() <= 1 {
        Seq::empty()
    } else {
        sp.entries.subrange(1, sp.entries.len() as int).map_values(
            |e: crate::pbo::SpecPboEntry| e.data_size,
        )
    }
}

pub open spec fn sum_sizes(sizes: Seq<u32>) -> int
    decreases sizes.len(),
{
    if sizes.len() == 0 {
        0int
    } else {
        sum_sizes(sizes.drop_last()) + sizes.last()
    }
}

pub proof fn lemma_sum_sizes_step(sizes: Seq<u32>, k: int)
    requires
        0 <= k < sizes.len(),
    ensures
        sum_sizes(sizes.take(k + 1)) == sum_sizes(sizes.take(k)) + sizes[k],
{
    assert(sizes.take(k + 1).drop_last() =~= sizes.take(k));
    assert(sizes.take(k + 1).last() == sizes[k]);
}

pub proof fn lemma_sum_sizes_monotone(sizes: Seq<u32>, k: int)
    requires
        0 <= k <= sizes.len(),
    ensures
        sum_sizes(sizes.take(k)) <= sum_sizes(sizes),
    decreases sizes.len() - k,
{
    if k == sizes.len() {
        assert(sizes.take(k) =~= sizes);
    } else {
        lemma_sum_sizes_step(sizes, k);
        lemma_sum_sizes_monotone(sizes, k + 1);
    }
}

/// The payload spans all fit inside the file.
pub open spec fn spans_fit(sp: crate::pbo::SpecPbo, len: int) -> bool {
    sp.header_len + sum_sizes(entry_sizes(sp)) <= len
}

/// Parts start at zero and run back to back.
pub open spec fn parts_contiguous(parts: Seq<Part>) -> bool {
    &&& (parts.len() > 0 ==> parts[0].start == 0)
    &&& forall|i: int|
        0 < i < parts.len() ==> (#[trigger] parts[i]).start == parts[i - 1].start + parts[i
            - 1].length
}

/// The lengths of all parts together.
pub open spec fn spec_sum_parts(parts: Seq<Part>) -> int
    decreases parts.len(),
{
    if parts.len() == 0 {
        0int
    } else {
        spec_sum_parts(parts.drop_last()) + parts.last().length
    }
}

/// The scanned parts of a PBO against its parsed directory: the header
/// span, one span per entry after the first, and the trailing span, each
/// hashed in place. Entry names are pinned whenever they are ASCII.
pub open spec fn pbo_parts_match(parts: Seq<Part>, sp: crate::pbo::SpecPbo, data: Seq<u8>) -> bool {
    let sizes = entry_sizes(sp);
    let hl = sp.header_len;
    &&& parts.len() == sizes.len() + 2
    &&& parts[0].path@ == text::ascii_chars_of(spec_header_name())
    &&& parts[0].start == 0
    &&& parts[0].length == hl
    &&& parts[0].checksum@ == text::ascii_chars_of(
        text::spec_hex_upper(checksum::md5_of(data.subrange(0, hl))),
    )
    &&& forall|k: int|
        1 <= k <= sizes.len() ==> {
            let start = hl + sum_sizes(sizes.take(k - 1));
            &&& (#[trigger] parts[k]).start == start
            &&& parts[k].length == sizes[k - 1]
            &&& parts[k].checksum@ == text::ascii_chars_of(
                text::spec_hex_upper(checksum::md5_of(data.subrange(start, start + sizes[k - 1]))),
            )
            &&& (text::seq_is_ascii(sp.entries[k].filename) ==> parts[k].path@
                == text::ascii_chars_of(sp.entries[k].filename))
        }
    &&& parts.last().path@ == text::ascii_chars_of(spec_end_name())
    &&& parts.last().start == hl + sum_sizes(sizes)
    &&& parts.last().length == data.len() - (hl + sum_sizes(sizes))
    &&& parts.last().checksum@ == text::ascii_chars_of(
        text::spec_hex_upper(
            checksum::md5_of(data.subrange(hl + sum_sizes(sizes), data.len() as int)),
        ),
    )
}

/// Scans a PBO: the parsed header region, one part per entry after the
/// first, and the trailing region, each hashed in place; the file checksum
/// is hashed over the concatenated part checksum texts. Fails exactly when
/// the header does not parse or the declared payload sizes run past the
/// end of the file.
pub fn scan_pbo(rel_path: &str, data: &[u8]) -> (r: Result<File, Error>)
    ensures
        match r {
            Ok(f) => {
                &&& crate::pbo::spec_read_pbo(data@) matches Ok(sp) && spans_fit(
                    sp,
                    data@.len() as int,
                ) && pbo_parts_match(f.parts@, sp, data@)
                &&& f.file_type == FileType::Pbo
                &&& f.path@ == rel_path@
                &&& f.length == data@.len()
                &&& f.checksum@ == spec_file_checksum(f.parts@)
                &&& parts_contiguous(f.parts@)
                &&& spec_sum_parts(f.parts@) == data@.len()
            },
            Err(e) => match crate::pbo::spec_read_pbo(data@) {
                Err(pe) => e matches Error::Pbo { source } && source == pe,
                Ok(sp) => !spans_fit(sp, data@.len() as int) && (e matches Error::Pbo { source }
                    && source == crate::pbo::Error::Io),
            },
        },
{
    broadcast use vstd::slice::axiom_spec_len;

    let pbo = match crate::pbo::Pbo::read(data) {
        Ok(p) => p,
        Err(e) => {
            return Err(Error::Pbo { source: e });
        },
    };
    let ghost sp = crate::pbo::spec_read_pbo(data@)->Ok_0;
    let ghost sizes = entry_sizes(sp);
    proof {
        if pbo.entries@.len() <= 1 {
            assert(sizes =~= Seq::<u32>::empty());
        } else {
            assert(sizes.len() == pbo.entries@.len() - 1);
        }
    }
    let mut parts: Vec<Part> = Vec::new();
    let mut cat: Vec<u8> = Vec::new();
    proof {
        assert(vstd::slice::spec_slice_len(data) == data@.len());
    }
    let hlen_usize: usize = u64_to_usize(pbo.header_len);
    let header_hex = checksum::md5_hex(slice_subrange(data, 0, hlen_usize));
    let mut header_name: Vec<u8> = Vec::new();
    header_name.push(36);
    header_name.push(36);
    header_name.push(72);
    header_name.push(69);
    header_name.push(65);
    header_name.push(68);
    header_name.push(69);
    header_name.push(82);
    header_name.push(36);
    header_name.push(36);
    proof {
        assert(header_name@ =~= spec_header_name());
    }
    let header_checksum = text::lossy_string(header_hex.as_slice());
    parts.push(
        Part {
            path: text::lossy_string(header_name.as_slice()),
            length: pbo.header_len,
            start: 0,
            checksum: header_checksum,
        },
    );
    let mut header_hex2 = header_hex;
    cat.append(&mut header_hex2);
    proof {
        let f = |p: Part| vstd::utf8::encode_utf8(p.checksum@);
        assert(parts@.drop_last() =~= Seq::<Part>::empty());
        assert(Seq::<Part>::empty().flat_map(f) =~= Seq::<u8>::empty());
        parts@.drop_last().lemma_flat_map_push(f, parts@.last());
        assert(parts@.drop_last().push(parts@.last()) =~= parts@);
        let hexv = text::spec_hex_upper(checksum::md5_of(data@.subrange(0, sp.header_len)));
        text::lemma_ascii_bytes_chars_inverse(hexv);
        text::lemma_encode_ascii_bytes(hexv);
        assert(cat@ =~= file_cat(parts@));
    }
    let mut offset: u64 = pbo.header_len;
    let mut i: usize = 1;
    while i < pbo.entries.len()
        invariant
            crate::pbo::spec_read_pbo(data@) matches Ok(spx) && spx == sp,
            crate::pbo::pbo_matches(pbo, sp),
            pbo.header_len <= data@.len(),
            sizes == entry_sizes(sp),
            sizes.len() == if pbo.entries@.len() <= 1 {
                0int
            } else {
                pbo.entries@.len() - 1
            },
            1 <= i <= pbo.entries@.len() || (pbo.entries@.len() == 0 && i == 1),
            offset == sp.header_len + sum_sizes(sizes.take(i - 1)),
            offset <= data@.len(),
            parts@.len() == i,
            cat@ == file_cat(parts@),
            parts@[0].path@ == text::ascii_chars_of(spec_header_name()),
            parts@[0].start == 0,
            parts@[0].length == sp.header_len,
            parts@[0].checksum@ == text::ascii_chars_of(
                text::spec_hex_upper(checksum::md5_of(data@.subrange(0, sp.header_len))),
            ),
            forall|k: int|
                1 <= k < i ==> {
                    let start = sp.header_len + sum_sizes(sizes.take(k - 1));
                    &&& (#[trigger] parts@[k]).start == start
                    &&& parts@[k].length == sizes[k - 1]
                    &&& parts@[k].checksum@ == text::ascii_chars_of(
                        text::spec_hex_upper(
                            checksum::md5_of(data@.subrange(start, start + sizes[k - 1])),
                        ),
                    )
                    &&& (text::seq_is_ascii(sp.entries[k].filename) ==> parts@[k].path@
                        == text::ascii_chars_of(sp.entries[k].filename))
                },
        decreases pbo.entries@.len() - i,
    {
        let ds32 = pbo.entries[i].data_size;
        let ds: u64 = u32_to_u64(ds32);
        proof {
            assert(sizes[i - 1] == sp.entries[i as int].data_size);
            assert(crate::pbo::entry_matches(pbo.entries@[i as int], sp.entries[i as int]));
        }
        let remaining: u64 = u64_of_len(data.len()) - offset;
        if ds > remaining {
            proof {
                lemma_sum_sizes_step(sizes, i - 1);
                lemma_sum_sizes_monotone(sizes, i as int);
                assert(sp.header_len + sum_sizes(sizes) > data@.len());
            }
            return Err(Error::Pbo { source: crate::pbo::Error::Io });
        }
        let start_usize: usize = u64_to_usize(offset);
        let end_usize: usize = u64_to_usize(offset + ds);
        let hex = checksum::md5_hex(slice_subrange(data, start_usize, end_usize));
        let checksum_str = text::lossy_string(hex.as_slice());
        let part_path = clone_string(&pbo.entries[i].filename);
        let ghost old_parts = parts@;
        parts.push(Part { path: part_path, length: ds, start: offset, checksum: checksum_str });
        let mut hex2 = hex;
        cat.append(&mut hex2);
        proof {
            let f = |p: Part| vstd::utf8::encode_utf8(p.checksum@);
            old_parts.lemma_flat_map_push(f, parts@.last());
            assert(old_parts.push(parts@.last()) =~= parts@);
            let start = sp.header_len + sum_sizes(sizes.take(i - 1));
            let hexv = text::spec_hex_upper(
                checksum::md5_of(data@.subrange(start, start + sizes[i - 1])),
            );
            text::lemma_ascii_bytes_chars_inverse(hexv);
            text::lemma_encode_ascii_bytes(hexv);
            assert(cat@ =~= file_cat(parts@));
            lemma_sum_sizes_step(sizes, i - 1);
        }
        offset = offset + ds;
        i = i + 1;
    }
    proof {
        assert(sizes.take(i - 1) =~= sizes);
    }
    let end_start: usize = u64_to_usize(offset);
    let end_hex = checksum::md5_hex(slice_subrange(data, end_start, data.len()));
    let mut end_name: Vec<u8> = Vec::new();
    end_name.push(36);
    end_name.push(36);
    end_name.push(69);
    end_name.push(78);
    end_name.push(68);
    end_name.push(36);
    end_name.push(36);
    proof {
        assert(end_name@ =~= spec_end_name());
    }
    let end_checksum = text::lossy_string(end_hex.as_slice());
    let ghost old_parts = parts@;
    parts.push(
        Part {
            path: text::lossy_string(end_name.as_slice()),
            length: u64_of_len(data.len()) - offset,
            start: offset,
            checksum: end_checksum,
        },
    );
    let mut end_hex2 = end_hex;
    cat.append(&mut end_hex2);
    proof {
        let f = |p: Part| vstd::utf8::encode_utf8(p.checksum@);
        old_parts.lemma_flat_map_push(f, parts@.last());
        assert(old_parts.push(parts@.last()) =~= parts@);
        let hexv = text::spec_hex_upper(
            checksum::md5_of(data@.subrange(sp.header_len + sum_sizes(sizes), data@.len() as int)),
        );
        text::lemma_ascii_bytes_chars_inverse(hexv);
        text::lemma_encode_ascii_bytes(hexv);
        assert(cat@ =~= file_cat(parts@));
    }
    let file_hex = checksum::md5_hex(cat.as_slice());
    let checksum_string = text::lossy_string(file_hex.as_slice());
    let path_string = rel_path.to_owned();
    proof {
        lemma_parts_shape(parts@, sp, data@);
    }
    Ok(
        File {
            path: path_string,
            length: u64_of_len(data.len()),
            checksum: checksum_string,
            file_type: FileType::Pbo,
            parts,
        },
    )
}

/// A part list in the PBO shape is contiguous and covers the whole file.
proof fn lemma_parts_shape(parts: Seq<Part>, sp: crate::pbo::SpecPbo, data: Seq<u8>)
    requires
        pbo_parts_match(parts, sp, data),
        sp.header_len >= 0,
    ensures
        parts_contiguous(parts),
        spec_sum_parts(parts) == data.len(),
{
    let sizes = entry_sizes(sp);
    assert forall|i: int| 0 < i < parts.len() implies (#[trigger] parts[i]).start == parts[i
        - 1].start + parts[i - 1].length by {
        if i == 1 {
            assert(sizes.take(0) =~= Seq::<u32>::empty());
        } else if i < parts.len() - 1 {
            lemma_sum_sizes_step(sizes, i - 2);
        } else {
            if parts.len() == 2 {
                assert(sizes.take(0) =~= Seq::<u32>::empty());
                assert(sizes =~= Seq::<u32>::empty());
            } else {
                lemma_sum_sizes_step(sizes, i - 2);
                assert(sizes.take(i - 1) =~= sizes);
            }
        }
    }
    lemma_sum_of_contiguous(parts, sizes, sp, data);
}

proof fn lemma_sum_of_contiguous(
    parts: Seq<Part>,
    sizes: Seq<u32>,
    sp: crate::pbo::SpecPbo,
    data: Seq<u8>,
)
    requires
        pbo_parts_match(parts, sp, data),
        sizes == entry_sizes(sp),
    ensures
        spec_sum_parts(parts) == data.len(),
{
    lemma_sum_parts_prefix(parts, sizes, sp, data, parts.len() - 1);
    assert(parts.drop_last() =~= parts.take(parts.len() - 1));
    assert(sizes.take(sizes.len() as int) =~= sizes);
    assert(spec_sum_parts(parts) == spec_sum_parts(parts.drop_last()) + parts.last().length);
}

/// The lengths of the first `1 + k` parts add up to the start of part `k+1`.
proof fn lemma_sum_parts_prefix(
    parts: Seq<Part>,
    sizes: Seq<u32>,
    sp: crate::pbo::SpecPbo,
    data: Seq<u8>,
    n: int,
)
    requires
        pbo_parts_match(parts, sp, data),
        sizes == entry_sizes(sp),
        1 <= n <= sizes.len() + 1,
    ensures
        spec_sum_parts(parts.take(n)) == sp.header_len + sum_sizes(sizes.take(n - 1)),
    decreases n,
{
    if n == 1 {
        assert(parts.take(1).drop_last() =~= Seq::<Part>::empty());
        assert(parts.take(1).last() == parts[0]);
        assert(sizes.take(0) =~= Seq::<u32>::empty());
        assert(spec_sum_parts(Seq::<Part>::empty()) == 0);
        assert(sum_sizes(Seq::<u32>::empty()) == 0);
        assert(parts[0].length == sp.header_len);
        assert(spec_sum_parts(parts.take(1)) == sp.header_len + 0);
    } else {
        lemma_sum_parts_prefix(parts, sizes, sp, data, n - 1);
        assert(parts.take(n).drop_last() =~= parts.take(n - 1));
        assert(parts.take(n).last() == parts[n - 1]);
        assert((#[trigger] parts[n - 1]).length == sizes[n - 2]);
        lemma_sum_sizes_step(sizes, n - 2);
        assert(spec_sum_parts(parts.take(n)) == spec_sum_parts(parts.take(n - 1)) + parts[n
            - 1].length);
    }
}

// ---------------------------------------------------------------------------
// Whole-mod scanning
// ---------------------------------------------------------------------------

/// The sort key of a file: the UTF-8 bytes of its uppercased path.
pub open spec fn file_key(f: File) -> Seq<u8> {
    vstd::utf8::encode_utf8(text::upper_of(f.path@))
}

/// The order files are sorted in: lexicographic on the uppercased path.
pub open spec fn file_le() -> spec_fn(File, File) -> bool {
    |a: File, b: File| text::lex_leq(file_key(a), file_key(b))
}

/// The last dot of a name, if any.
pub open spec fn spec_last_dot(b: Seq<u8>) -> Option<int>
    decreases b.len(),
{
    if b.len() == 0 {
        None
    } else if b.last() == 46 {
        Some(b.len() - 1)
    } else {
        spec_last_dot(b.drop_last())
    }
}

/// Whether a path names a PBO: its base name has extension exactly `pbo`,
/// with a nonempty stem.
pub open spec fn has_pbo_ext(pathbytes: Seq<u8>) -> bool {
    let b = spec_basename(pathbytes);
    match spec_last_dot(b) {
        Some(i) => i > 0 && b.skip(i + 1) == seq![112u8, 98u8, 111u8],
        None => false,
    }
}

/// Whether the base name of `path` carries the `pbo` extension.
pub fn has_pbo_ext_exec(pathbytes: &[u8]) -> (r: bool)
    ensures
        r == has_pbo_ext(pathbytes@),
{
    let base = basename(pathbytes);
    let ghost b = spec_basename(pathbytes@);
    let mut i: usize = base.len();
    proof {
        assert(b.take(base@.len() as int) =~= b);
    }
    loop
        invariant
            b == spec_basename(pathbytes@),
            0 <= i <= base@.len(),
            base@ =~= b,
            spec_last_dot(b) == spec_last_dot(b.take(i as int)),
        decreases i,
    {
        proof {
            let t = b.take(i as int);
            if i > 0 {
                assert(t.last() == b[i - 1]);
                assert(t.drop_last() =~= b.take(i as int - 1));
            }
        }
        if i == 0 {
            proof {
                assert(b.take(0) =~= Seq::<u8>::empty());
            }
            return false;
        }
        let c = base[i - 1];
        if c == 46 {
            if i - 1 == 0 {
                return false;
            }
            if base.len() - i != 3 {
                proof {
                    assert(b.skip(i as int).len() != 3);
                }
                return false;
            }
            let ok = base[i] == 112 && base[i + 1] == 98 && base[i + 2] == 111;
            proof {
                assert(b.skip(i as int) =~= seq![b[i as int], b[i as int + 1], b[i as int + 2]]);
                if ok {
                    assert(b.skip(i as int) =~= seq![112u8, 98u8, 111u8]);
                } else {
                    assert(b.skip(i as int) != seq![112u8, 98u8, 111u8]);
                }
            }
            return ok;
        }
        i = i - 1;
    }
}

/// What the scanner must produce for one file, given its path and bytes.
pub open spec fn file_is_scan(f: File, path: Seq<char>, data: Seq<u8>) -> bool {
    if has_pbo_ext(vstd::utf8::encode_utf8(path)) {
        &&& crate::pbo::spec_read_pbo(data) matches Ok(sp) && spans_fit(sp, data.len() as int)
            && pbo_parts_match(f.parts@, sp, data)
        &&& f.file_type == FileType::Pbo
        &&& f.path@ == path
        &&& f.length == data.len()
        &&& f.checksum@ == spec_file_checksum(f.parts@)
    } else {
        &&& f.file_type == FileType::File
        &&& f.path@ == path
        &&& f.length == data.len()
        &&& parts_are_chunks(f.parts@, data, spec_basename(vstd::utf8::encode_utf8(path)))
        &&& f.checksum@ == spec_file_checksum(f.parts@)
    }
}

/// Whether scanning this file must fail: a PBO whose header does not parse
/// or whose declared payload sizes run past the end.
pub open spec fn file_scan_fails(path: Seq<char>, data: Seq<u8>) -> bool {
    has_pbo_ext(vstd::utf8::encode_utf8(path)) && match crate::pbo::spec_read_pbo(data) {
        Ok(sp) => !spans_fit(sp, data.len() as int),
        Err(_) => true,
    }
}

/// Each scanned file answers for the input at the same position.
pub open spec fn scanned_from(scanned: Seq<File>, inputs: Seq<(String, Vec<u8>)>) -> bool {
    &&& scanned.len() == inputs.len()
    &&& forall|i: int|
        0 <= i < inputs.len() ==> file_is_scan(
            #[trigger] scanned[i],
            inputs[i].0@,
            inputs[i].1@,
        )
}

/// Scans every input file, PBOs through the header-aware scanner and
/// everything else in fixed chunks. Fails exactly when some PBO fails.
pub fn scan_files(files: &Vec<(String, Vec<u8>)>) -> (r: Result<Vec<File>, Error>)
    ensures
        match r {
            Ok(scanned) => scanned_from(scanned@, files@) && (forall|i: int|
                0 <= i < files@.len() ==> !file_scan_fails(
                    (#[trigger] files@[i]).0@,
                    files@[i].1@,
                )),
            Err(e) => (exists|i: int|
                0 <= i < files@.len() && file_scan_fails(
                    (#[trigger] files@[i]).0@,
                    files@[i].1@,
                )) && (e matches Error::Pbo { source: _ }),
        },
{
    let mut scanned: Vec<File> = Vec::new();
    let mut i: usize = 0;
    while i < files.len()
        invariant
            0 <= i <= files@.len(),
            scanned@.len() == i,
            forall|k: int|
                0 <= k < i ==> file_is_scan(#[trigger] scanned@[k], files@[k].0@, files@[k].1@),
            forall|k: int|
                0 <= k < i ==> !file_scan_fails((#[trigger] files@[k]).0@, files@[k].1@),
        decreases files@.len() - i,
    {
        let pair = &files[i];
        let path_bytes = pair.0.as_str().as_bytes_vec();
        if has_pbo_ext_exec(path_bytes.as_slice()) {
            match scan_pbo(pair.0.as_str(), pair.1.as_slice()) {
                Ok(f) => {
                    scanned.push(f);
                },
                Err(e) => {
                    proof {
                        assert(file_scan_fails(files@[i as int].0@, files@[i as int].1@));
                    }
                    return Err(e);
                },
            }
        } else {
            let f = scan_file(pair.0.as_str(), pair.1.as_slice());
            scanned.push(f);
        }
        i = i + 1;
    }
    Ok(scanned)
}

/// Sorts files by uppercased path, keeping exactly the same files.
pub fn sort_files(files: Vec<File>) -> (r: Vec<File>)
    ensures
        r@.to_multiset() == files@.to_multiset(),
        vstd::relations::sorted_by(r@, file_le()),
        r@.len() == files@.len(),
{
    broadcast use vstd::seq_lib::group_to_multiset_ensures;

    let mut input = files;
    let mut out: Vec<File> = Vec::new();
    proof {
        assert(Seq::<File>::empty().to_multiset() =~= Multiset::<File>::empty());
    }
    while input.len() > 0
        invariant
            out@.to_multiset().add(input@.to_multiset()) =~= files@.to_multiset(),
            vstd::relations::sorted_by(out@, file_le()),
            out@.len() + input@.len() == files@.len(),
        decreases input@.len(),
    {
        let ghost old_input = input@;
        let f = match input.pop() {
            Some(f) => f,
            None => {
                proof {
                    assert(false);
                }
                return out;
            },
        };
        proof {
            broadcast use vstd::seq_lib::group_to_multiset_ensures;

            assert(old_input.drop_last().push(f) =~= old_input);
            assert(input@.push(f).to_multiset() =~= input@.to_multiset().insert(f));
            assert(old_input.to_multiset() =~= input@.to_multiset().insert(f));
        }
        let key_f = file_key_exec(&f);
        let j = insert_pos(&out, key_f.as_slice(), Ghost(f));
        let ghost old_out = out@;
        out.insert(j, f);
        proof {
            assert(out@ =~= old_out.take(j as int).push(f) + old_out.skip(j as int));
            lemma_insert_multiset(old_out, f, j as int);
            assert(out@.to_multiset() =~= old_out.to_multiset().insert(f));
            lemma_insert_sorted(old_out, out@, f, j as int);
        }
    }
    proof {
        assert(input@.to_multiset() =~= Multiset::<File>::empty());
        assert(out@.to_multiset().add(Multiset::<File>::empty()) =~= out@.to_multiset());
    }
    out
}

/// The position a file with key `key_f` takes in the sorted list.
fn insert_pos(out: &Vec<File>, key_f: &[u8], f: Ghost<File>) -> (j: usize)
    requires
        key_f@ == file_key(f@),
        vstd::relations::sorted_by(out@, file_le()),
    ensures
        0 <= j <= out@.len(),
        forall|k: int| j <= k < out@.len() ==> file_le()(f@, #[trigger] out@[k]),
        j > 0 ==> file_le()(out@[j - 1], f@),
{
    let mut j: usize = out.len();
    loop
        invariant
            0 <= j <= out@.len(),
            key_f@ == file_key(f@),
            vstd::relations::sorted_by(out@, file_le()),
            forall|k: int| j <= k < out@.len() ==> file_le()(f@, #[trigger] out@[k]),
        decreases j,
    {
        if j == 0 {
            return 0;
        }
        let prev_key = file_key_exec(&out[j - 1]);
        if text::lex_leq_exec(prev_key.as_slice(), key_f) {
            return j;
        }
        proof {
            text::lemma_lex_total(file_key(out@[j - 1]), file_key(f@));
        }
        j = j - 1;
    }
}

/// The UTF-8 bytes of a file's uppercased path.
fn file_key_exec(f: &File) -> (r: Vec<u8>)
    ensures
        r@ == file_key(*f),
{
    let upper = text::str_upper(f.path.as_str());
    upper.as_str().as_bytes_vec()
}

proof fn lemma_insert_multiset(s: Seq<File>, f: File, j: int)
    requires
        0 <= j <= s.len(),
    ensures
        (s.take(j).push(f) + s.skip(j)).to_multiset() =~= s.to_multiset().insert(f),
{
    broadcast use vstd::seq_lib::group_to_multiset_ensures;

    let built = s.take(j).push(f) + s.skip(j);
    assert(built.remove(j) =~= s.take(j) + s.skip(j));
    assert(s.take(j) + s.skip(j) =~= s);
    assert(built.remove(j).to_multiset() =~= built.to_multiset().remove(built[j]));
    assert(built[j] == f);
    assert(built.to_multiset().count(f) > 0) by {
        assert(built.contains(f)) by {
            assert(built[j] == f);
        };
    };
    assert forall|x: File| built.to_multiset().count(x) == s.to_multiset().insert(f).count(
        x,
    ) by {
        if x == f {
            assert(s.to_multiset() =~= built.to_multiset().remove(f));
        } else {
            assert(s.to_multiset() =~= built.to_multiset().remove(f));
        }
    }
}

proof fn lemma_insert_sorted(old: Seq<File>, new: Seq<File>, f: File, j: int)
    requires
        0 <= j <= old.len(),
        new =~= old.take(j).push(f) + old.skip(j),
        vstd::relations::sorted_by(old, file_le()),
        forall|k: int| j <= k < old.len() ==> file_le()(f, #[trigger] old[k]),
        j > 0 ==> file_le()(old[j - 1], f),
    ensures
        vstd::relations::sorted_by(new, file_le()),
{
    let le = file_le();
    assert forall|a: int, b: int| 0 <= a < b < new.len() implies le(new[a], new[b]) by {
        if a < j && b < j {
            assert(le(old[a], old[b]));
        } else if a < j && b == j {
            assert(new[a] == old[a]);
            if a < j - 1 {
                assert(le(old[a], old[j - 1]));
                text::lemma_lex_trans(file_key(old[a]), file_key(old[j - 1]), file_key(f));
            }
        } else if a < j && b > j {
            assert(new[b] == old[b - 1]);
            assert(le(f, old[b - 1]));
            if a < j - 1 {
                assert(le(old[a], old[j - 1]));
                text::lemma_lex_trans(file_key(old[a]), file_key(old[j - 1]), file_key(f));
            }
            text::lemma_lex_trans(file_key(old[a]), file_key(f), file_key(old[b - 1]));
        } else if a == j {
            assert(new[b] == old[b - 1]);
            assert(le(f, old[b - 1]));
        } else {
            assert(new[a] == old[a - 1]);
            assert(new[b] == old[b - 1]);
            assert(le(old[a - 1], old[b - 1]));
        }
    }
}

/// Assembles a manifest from already-scanned files: sorts them by
/// uppercased path and hashes the mod fingerprint over each file's
/// checksum text and lowercased, slash-normalized path. The file contents
/// are never touched again, so a caller may scan one file at a time and
/// feed the results here.
pub fn assemble_mod(dir_name: &str, scanned: Vec<File>) -> (m: Mod)
    ensures
        m.name@ == text::lower_of(dir_name@),
        vstd::relations::sorted_by(m.files@, file_le()),
        m.checksum@ == spec_mod_checksum(m.files@),
        m.checksum.wf(),
        m.files@.len() == scanned@.len(),
        m.files@.to_multiset() == scanned@.to_multiset(),
{
    let sorted = sort_files(scanned);
    let mut cat: Vec<u8> = Vec::new();
    let mut i: usize = 0;
    let ghost catf = |f: File|
        vstd::utf8::encode_utf8(f.checksum@) + text::spec_slashes(
            vstd::utf8::encode_utf8(text::lower_of(f.path@)),
        );
    proof {
        assert(sorted@.take(0).flat_map(catf) =~= Seq::<u8>::empty());
    }
    while i < sorted.len()
        invariant
            0 <= i <= sorted@.len(),
            catf == (|f: File|
                vstd::utf8::encode_utf8(f.checksum@) + text::spec_slashes(
                    vstd::utf8::encode_utf8(text::lower_of(f.path@)),
                )),
            cat@ == sorted@.take(i as int).flat_map(catf),
        decreases sorted@.len() - i,
    {
        broadcast use vstd::string::is_ascii_spec_bytes;

        let f = &sorted[i];
        let mut cb = f.checksum.as_str().as_bytes_vec();
        let lowered = text::str_lower(f.path.as_str());
        let lb = lowered.as_str().as_bytes_vec();
        let mut plow = text::normalize_slashes(lb.as_slice());
        cat.append(&mut cb);
        cat.append(&mut plow);
        proof {
            sorted@.lemma_flat_map_take_append(catf, i as int);
            assert(catf(sorted@[i as int]) =~= vstd::utf8::encode_utf8(
                sorted@[i as int].checksum@,
            ) + text::spec_slashes(vstd::utf8::encode_utf8(text::lower_of(
                sorted@[i as int].path@,
            ))));
            assert(cat@ =~= sorted@.take(i as int + 1).flat_map(catf));
        }
        i = i + 1;
    }
    proof {
        assert(sorted@.take(sorted@.len() as int) =~= sorted@);
        assert(cat@ =~= mod_cat(sorted@));
    }
    let digest_bytes = checksum::md5(cat.as_slice());
    let digest = Md5Digest::from_vec(digest_bytes);
    let name = text::str_lower(dir_name);
    Mod { name, checksum: digest, files: sorted }
}

/// Scans a whole mod: every file hashed (PBO-aware), the list sorted by
/// uppercased path, and the mod fingerprint hashed over each file's
/// checksum text followed by its lowercased slash-normalized path. The
/// result is a function of the directory name and the file contents
/// alone, whatever order the files arrive in.
pub fn scan_mod(dir_name: &str, files: Vec<(String, Vec<u8>)>) -> (r: Result<Mod, Error>)
    ensures
        match r {
            Ok(m) => {
                &&& m.name@ == text::lower_of(dir_name@)
                &&& vstd::relations::sorted_by(m.files@, file_le())
                &&& m.checksum@ == spec_mod_checksum(m.files@)
                &&& m.checksum.wf()
                &&& m.files@.len() == files@.len()
                &&& exists|scanned: Seq<File>|
                    scanned_from(scanned, files@) && m.files@.to_multiset()
                        == scanned.to_multiset()
                &&& forall|i: int|
                    0 <= i < files@.len() ==> !file_scan_fails(
                        (#[trigger] files@[i]).0@,
                        files@[i].1@,
                    )
            },
            Err(e) => (exists|i: int|
                0 <= i < files@.len() && file_scan_fails(
                    (#[trigger] files@[i]).0@,
                    files@[i].1@,
                )) && (e matches Error::Pbo { source: _ }),
        },
{
    let scanned = match scan_files(&files) {
        Ok(v) => v,
        Err(e) => {
            return Err(e);
        },
    };
    let ghost gscanned = scanned@;
    let m = assemble_mod(dir_name, scanned);
    proof {
        assert(scanned_from(gscanned, files@));
    }
    Ok(m)
}

// ---------------------------------------------------------------------------
// What scanning guarantees, stated on its own
// ---------------------------------------------------------------------------

/// No two files share a sort key: filesystem semantics make uppercased
/// paths unique within one mod.
pub open spec fn distinct_keys(files: Seq<File>) -> bool {
    forall|i: int, j: int|
        0 <= i < j < files.len() ==> file_key(#[trigger] files[i]) != file_key(
            #[trigger] files[j],
        )
}

/// Two sorted file lists holding the same files are the same list.
pub proof fn lemma_sorted_unique_files(a: Seq<File>, b: Seq<File>)
    requires
        vstd::relations::sorted_by(a, file_le()),
        vstd::relations::sorted_by(b, file_le()),
        a.to_multiset() == b.to_multiset(),
        distinct_keys(a),
    ensures
        a =~= b,
    decreases a.len(),
{
    broadcast use vstd::seq_lib::group_to_multiset_ensures;

    if a.len() == 0 {
        assert(b.to_multiset().len() == 0);
        assert(b.len() == 0);
    } else {
        assert(a.to_multiset().count(a[0]) > 0) by {
            assert(a.contains(a[0]));
        };
        assert(b.contains(a[0]));
        assert(b.len() > 0);
        assert(b.to_multiset().count(b[0]) > 0) by {
            assert(b.contains(b[0]));
        };
        assert(a.contains(b[0]));
        let j = choose|j: int| 0 <= j < b.len() && b[j] == a[0];
        let i = choose|i: int| 0 <= i < a.len() && a[i] == b[0];
        let le = file_le();
        if i > 0 {
            assert(le(a[0], a[i]));
        }
        if j > 0 {
            assert(le(b[0], b[j]));
        }
        text::lemma_lex_total(file_key(a[0]), file_key(b[0]));
        assert(file_key(a[0]) == file_key(b[0])) by {
            if i > 0 {
                text::lemma_lex_total(file_key(a[0]), file_key(a[i]));
            }
            if j > 0 {
                text::lemma_lex_total(file_key(b[0]), file_key(b[j]));
            }
        };
        assert(a[0] == b[0]) by {
            if i != 0 {
                assert(file_key(a[0]) != file_key(a[i]));
            }
        };
        let ta = a.drop_first();
        let tb = b.drop_first();
        assert(a.remove(0) =~= ta);
        assert(b.remove(0) =~= tb);
        assert(ta.to_multiset() =~= a.to_multiset().remove(a[0]));
        assert(tb.to_multiset() =~= b.to_multiset().remove(b[0]));
        assert(ta.to_multiset() == tb.to_multiset());
        assert(vstd::relations::sorted_by(ta, le)) by {
            assert forall|x: int, y: int| 0 <= x < y < ta.len() implies le(ta[x], ta[y]) by {
                assert(a[x + 1] == ta[x] && a[y + 1] == ta[y]);
                assert(le(a[x + 1], a[y + 1]));
            }
        };
        assert(vstd::relations::sorted_by(tb, le)) by {
            assert forall|x: int, y: int| 0 <= x < y < tb.len() implies le(tb[x], tb[y]) by {
                assert(b[x + 1] == tb[x] && b[y + 1] == tb[y]);
                assert(le(b[x + 1], b[y + 1]));
            }
        };
        assert(distinct_keys(ta)) by {
            assert forall|x: int, y: int|
                0 <= x < y < ta.len() implies file_key(#[trigger] ta[x]) != file_key(
                #[trigger] ta[y],
            ) by {
                assert(ta[x] == a[x + 1] && ta[y] == a[y + 1]);
                assert(file_key(a[x + 1]) != file_key(a[y + 1]));
            }
        };
        lemma_sorted_unique_files(ta, tb);
        assert(a =~= seq![a[0]] + ta);
        assert(b =~= seq![b[0]] + tb);
    }
}

/// A mod's fingerprint does not depend on the order files were found in:
/// two scans of the same files, each sorted and hashed by the same rules,
/// carry the same file list and the same fingerprint. The uniqueness of
/// uppercased paths stands in for filesystem semantics.
pub proof fn lemma_scan_mod_order_insensitive(m1: Mod, m2: Mod)
    requires
        m1.name@ == m2.name@,
        vstd::relations::sorted_by(m1.files@, file_le()),
        vstd::relations::sorted_by(m2.files@, file_le()),
        m1.files@.to_multiset() == m2.files@.to_multiset(),
        distinct_keys(m1.files@),
        m1.checksum@ == spec_mod_checksum(m1.files@),
        m2.checksum@ == spec_mod_checksum(m2.files@),
    ensures
        m1.files@ == m2.files@,
        m1.checksum@ == m2.checksum@,
{
    lemma_sorted_unique_files(m1.files@, m2.files@);
}

/// A plain file of `len` bytes yields exactly the ceiling of `len` over
/// the chunk size in parts; when `len` is a whole number of chunks, the
/// last part is exactly full.
pub proof fn lemma_plain_chunk_shape(parts: Seq<Part>, data: Seq<u8>, base: Seq<u8>)
    requires
        parts_are_chunks(parts, data, base),
    ensures
        parts.len() == (data.len() + 4999999) / 5000000,
        data.len() > 0 && data.len() % 5000000 == 0 ==> parts.len() > 0 && parts.last().length
            == 5000000,
{
    if data.len() > 0 && data.len() % 5000000 == 0 {
        let n = parts.len() as int;
        assert(n == (data.len() + 4999999) / 5000000);
        assert(n * 5000000 == data.len()) by (nonlinear_arith)
            requires
                n == (data.len() + 4999999) / 5000000,
                data.len() % 5000000 == 0,
                data.len() > 0,
        ;
        assert(parts[n - 1].length == 5000000) by {
            assert((n - 1) * 5000000 + 5000000 == data.len()) by (nonlinear_arith)
                requires
                    n * 5000000 == data.len(),
            ;
        };
    }
}

/// A zero-length file yields no parts, and its checksum is the digest of
/// the empty byte sequence, spelled in uppercase hex.
pub proof fn lemma_empty_file_scan(f: File, data: Seq<u8>, base: Seq<u8>)
    requires
        data.len() == 0,
        parts_are_chunks(f.parts@, data, base),
        f.checksum@ == spec_file_checksum(f.parts@),
    ensures
        f.parts@.len() == 0,
        f.checksum@ == text::ascii_chars_of(
            text::spec_hex_upper(checksum::md5_of(Seq::<u8>::empty())),
        ),
{
    assert(f.parts@.len() == 0);
    assert(f.parts@ =~= Seq::<Part>::empty());
    assert(file_cat(f.parts@) =~= Seq::<u8>::empty()) by {
        assert(Seq::<Part>::empty().flat_map(|p: Part| text::bytes_of_chars(p.checksum@))
            =~= Seq::<u8>::empty());
    };
}

/// Clones a string, keeping its characters.
fn clone_string(s: &String) -> (r: String)
    ensures
        r@ == s@,
{
    s.clone()
}

/// Narrows a byte offset known to fit the address space.
fn u64_to_usize(v: u64) -> (r: usize)
    requires
        v <= usize::MAX,
    ensures
        r == v,
{
    v as usize
}

/// Widens a 32-bit payload size.
fn u32_to_u64(v: u32) -> (r: u64)
    ensures
        r == v,
{
    v as u64
}

/// Widens a byte count to `u64`.
fn u64_of_len(v: usize) -> (r: u64)
    ensures
        r == v,
{
    v as u64
}

} // verus!
