//! The canonical JSON form of an SRF: PascalCase field names, file kinds
//! spelled `SwiftyFile` / `SwiftyPboFile`, backslashes in paths tolerated
//! on input and normalized to forward slashes.

use vstd::prelude::*;
use vstd::string::StringExecFns;
use crate::json::{emit_json, json_matches, json_wf, parse_json, spec_emit, spec_json_wf,
    spec_parse_json, view_json, Json, SpecJson};
use crate::md5_digest::Md5Digest;
use crate::srf::{file_text_wf, mod_eq, mod_text_wf, part_text_wf, Error, File, FileType, Mod,
    Part};
use crate::text;

verus! {

// The field names, as bytes.
pub open spec fn k_name() -> Seq<u8> {
    seq![78u8, 97u8, 109u8, 101u8]
}

pub open spec fn k_checksum() -> Seq<u8> {
    seq![67u8, 104u8, 101u8, 99u8, 107u8, 115u8, 117u8, 109u8]
}

pub open spec fn k_files() -> Seq<u8> {
    seq![70u8, 105u8, 108u8, 101u8, 115u8]
}

pub open spec fn k_path() -> Seq<u8> {
    seq![80u8, 97u8, 116u8, 104u8]
}

pub open spec fn k_length() -> Seq<u8> {
    seq![76u8, 101u8, 110u8, 103u8, 116u8, 104u8]
}

pub open spec fn k_start() -> Seq<u8> {
    seq![83u8, 116u8, 97u8, 114u8, 116u8]
}

pub open spec fn k_type() -> Seq<u8> {
    seq![84u8, 121u8, 112u8, 101u8]
}

pub open spec fn k_parts() -> Seq<u8> {
    seq![80u8, 97u8, 114u8, 116u8, 115u8]
}

/// The spelling of a file kind: `SwiftyFile` or `SwiftyPboFile`.
pub open spec fn type_tag(t: FileType) -> Seq<u8> {
    if t == FileType::Pbo {
        seq![83u8, 119u8, 105u8, 102u8, 116u8, 121u8, 80u8, 98u8, 111u8, 70u8, 105u8, 108u8, 101u8]
    } else {
        seq![83u8, 119u8, 105u8, 102u8, 116u8, 121u8, 70u8, 105u8, 108u8, 101u8]
    }
}

/// The tree a part maps to.
pub open spec fn spec_part_json(p: Part) -> SpecJson {
    SpecJson::Obj(
        seq![
            (k_path(), SpecJson::Str(text::bytes_of_chars(p.path@))),
            (k_length(), SpecJson::Num(p.length)),
            (k_start(), SpecJson::Num(p.start)),
            (k_checksum(), SpecJson::Str(text::bytes_of_chars(p.checksum@))),
        ],
    )
}

/// The trees of the parts from index `i` on.
pub open spec fn spec_parts_json(parts: Seq<Part>, i: int) -> Seq<SpecJson>
    decreases parts.len() - i,
{
    if i < 0 || i >= parts.len() {
        Seq::empty()
    } else {
        seq![spec_part_json(parts[i])] + spec_parts_json(parts, i + 1)
    }
}

/// The tree a file maps to.
pub open spec fn spec_file_json(f: File) -> SpecJson {
    SpecJson::Obj(
        seq![
            (k_path(), SpecJson::Str(text::bytes_of_chars(f.path@))),
            (k_length(), SpecJson::Num(f.length)),
            (k_checksum(), SpecJson::Str(text::bytes_of_chars(f.checksum@))),
            (k_type(), SpecJson::Str(type_tag(f.file_type))),
            (k_parts(), SpecJson::Arr(spec_parts_json(f.parts@, 0))),
        ],
    )
}

/// The trees of the files from index `i` on.
pub open spec fn spec_files_json(files: Seq<File>, i: int) -> Seq<SpecJson>
    decreases files.len() - i,
{
    if i < 0 || i >= files.len() {
        Seq::empty()
    } else {
        seq![spec_file_json(files[i])] + spec_files_json(files, i + 1)
    }
}

/// The tree a mod maps to: name, uppercase-hex fingerprint, files.
pub open spec fn spec_mod_json(m: Mod) -> SpecJson {
    SpecJson::Obj(
        seq![
            (k_name(), SpecJson::Str(text::bytes_of_chars(m.name@))),
            (k_checksum(), SpecJson::Str(text::spec_hex_upper(m.checksum@))),
            (k_files(), SpecJson::Arr(spec_files_json(m.files@, 0))),
        ],
    )
}

/// The canonical JSON bytes of a mod.
pub open spec fn spec_serialize_srf(m: Mod) -> Seq<u8> {
    spec_emit(spec_mod_json(m))
}

/// Builds the tree of one part.
fn part_to_json(p: &Part) -> (r: Json)
    requires
        part_text_wf(*p),
    ensures
        view_json(r) == spec_part_json(*p),
        json_wf(r),
{
    let mut ms: Vec<(String, Json)> = Vec::new();
    proof {
        reveal_strlit("Path");
        reveal_strlit("Length");
        reveal_strlit("Start");
        reveal_strlit("Checksum");
    }
    ms.push((String::from_str("Path"), Json::Str(p.path.clone())));
    ms.push((String::from_str("Length"), Json::Num(p.length)));
    ms.push((String::from_str("Start"), Json::Num(p.start)));
    ms.push((String::from_str("Checksum"), Json::Str(p.checksum.clone())));
    let r = Json::Obj(ms);
    proof {
        let msv = r->Obj_0@;
        crate::json::lemma_view_members_index(msv, 0);
        assert(msv.len() == 4);
        assert(text::bytes_of_chars(msv[0].0@) =~= k_path());
        assert(text::bytes_of_chars(msv[1].0@) =~= k_length());
        assert(text::bytes_of_chars(msv[2].0@) =~= k_start());
        assert(text::bytes_of_chars(msv[3].0@) =~= k_checksum());
        assert(crate::json::view_members(msv, 0) =~= spec_part_json(*p)->Obj_0);
        assert(view_json(r) == spec_part_json(*p));
        assert forall|i: int|
            0 <= i < msv.len() implies crate::json::chars_wf((#[trigger] msv[i]).0@) && json_wf(
            msv[i].1,
        ) by {
            if i == 0 {
                assert(crate::json::chars_wf(msv[0].0@));
                assert(json_wf(msv[0].1));
            } else if i == 1 {
                assert(crate::json::chars_wf(msv[1].0@));
            } else if i == 2 {
                assert(crate::json::chars_wf(msv[2].0@));
            } else {
                assert(crate::json::chars_wf(msv[3].0@));
                assert(json_wf(msv[3].1));
            }
        }
        assert(json_wf(r));
    }
    r
}

/// Builds the tree of one file.
fn file_to_json(f: &File) -> (r: Json)
    requires
        file_text_wf(*f),
    ensures
        view_json(r) == spec_file_json(*f),
        json_wf(r),
{
    let mut parts: Vec<Json> = Vec::new();
    let mut i: usize = 0;
    while i < f.parts.len()
        invariant
            file_text_wf(*f),
            0 <= i <= f.parts@.len(),
            parts@.len() == i,
            forall|k: int|
                0 <= k < i ==> view_json(#[trigger] parts@[k]) == spec_part_json(f.parts@[k])
                    && json_wf(parts@[k]),
        decreases f.parts@.len() - i,
    {
        let pj = part_to_json(&f.parts[i]);
        parts.push(pj);
        i = i + 1;
    }
    proof {
        reveal_strlit("Path");
        reveal_strlit("Length");
        reveal_strlit("Checksum");
        reveal_strlit("Type");
        reveal_strlit("Parts");
        reveal_strlit("SwiftyFile");
        reveal_strlit("SwiftyPboFile");
    }
    let type_str = match f.file_type {
        FileType::Pbo => String::from_str("SwiftyPboFile"),
        FileType::File => String::from_str("SwiftyFile"),
    };
    proof {
        assert(text::bytes_of_chars(type_str@) =~= type_tag(f.file_type));
        assert(crate::json::chars_wf(type_str@));
    }
    let mut ms: Vec<(String, Json)> = Vec::new();
    ms.push((String::from_str("Path"), Json::Str(f.path.clone())));
    ms.push((String::from_str("Length"), Json::Num(f.length)));
    ms.push((String::from_str("Checksum"), Json::Str(f.checksum.clone())));
    ms.push((String::from_str("Type"), Json::Str(type_str)));
    let parts_json = Json::Arr(parts);
    proof {
        assert(crate::json::view_elems(parts_json->Arr_0@, 0) =~= spec_parts_json(f.parts@, 0))
            by {
            lemma_view_parts(parts_json->Arr_0@, f.parts@);
        };
        assert(view_json(parts_json) == SpecJson::Arr(spec_parts_json(f.parts@, 0)));
    }
    ms.push((String::from_str("Parts"), parts_json));
    let r = Json::Obj(ms);
    proof {
        let msv = r->Obj_0@;
        crate::json::lemma_view_members_index(msv, 0);
        assert(msv.len() == 5);
        assert(text::bytes_of_chars(msv[0].0@) =~= k_path());
        assert(text::bytes_of_chars(msv[1].0@) =~= k_length());
        assert(text::bytes_of_chars(msv[2].0@) =~= k_checksum());
        assert(text::bytes_of_chars(msv[3].0@) =~= k_type());
        assert(text::bytes_of_chars(msv[4].0@) =~= k_parts());
        assert(crate::json::view_members(msv, 0) =~= spec_file_json(*f)->Obj_0);
        assert(view_json(r) == spec_file_json(*f));
        assert forall|i: int|
            0 <= i < msv.len() implies crate::json::chars_wf((#[trigger] msv[i]).0@) && json_wf(
            msv[i].1,
        ) by {
            if i == 0 {
                assert(crate::json::chars_wf(msv[0].0@));
                assert(json_wf(msv[0].1));
            } else if i == 1 {
                assert(crate::json::chars_wf(msv[1].0@));
            } else if i == 2 {
                assert(crate::json::chars_wf(msv[2].0@));
                assert(json_wf(msv[2].1));
            } else if i == 3 {
                assert(crate::json::chars_wf(msv[3].0@));
                assert(json_wf(msv[3].1));
            } else {
                assert(crate::json::chars_wf(msv[4].0@));
                assert(json_wf(msv[4].1));
            }
        }
        assert(json_wf(r));
    }
    r
}

/// Element-wise part views line up with the spec part list.
proof fn lemma_view_parts(elems: Seq<Json>, parts: Seq<Part>)
    requires
        elems.len() == parts.len(),
        forall|k: int|
            0 <= k < elems.len() ==> view_json(#[trigger] elems[k]) == spec_part_json(parts[k]),
    ensures
        crate::json::view_elems(elems, 0) =~= spec_parts_json(parts, 0),
{
    crate::json::lemma_view_elems_index(elems, 0);
    lemma_spec_parts_index(parts, 0);
    assert forall|k: int|
        0 <= k < elems.len() implies crate::json::view_elems(elems, 0)[k] == spec_parts_json(
        parts,
        0,
    )[k] by {
        assert(crate::json::view_elems(elems, 0)[k] == view_json(elems[k]));
        assert(spec_parts_json(parts, 0)[k] == spec_part_json(parts[k]));
    }
}

pub proof fn lemma_spec_parts_index(parts: Seq<Part>, i: int)
    requires
        0 <= i <= parts.len(),
    ensures
        spec_parts_json(parts, i).len() == parts.len() - i,
        forall|k: int|
            i <= k < parts.len() ==> spec_parts_json(parts, i)[k - i] == spec_part_json(
                #[trigger] parts[k],
            ),
    decreases parts.len() - i,
{
    if i < parts.len() {
        lemma_spec_parts_index(parts, i + 1);
    }
}

pub proof fn lemma_spec_files_index(files: Seq<File>, i: int)
    requires
        0 <= i <= files.len(),
    ensures
        spec_files_json(files, i).len() == files.len() - i,
        forall|k: int|
            i <= k < files.len() ==> spec_files_json(files, i)[k - i] == spec_file_json(
                #[trigger] files[k],
            ),
    decreases files.len() - i,
{
    if i < files.len() {
        lemma_spec_files_index(files, i + 1);
    }
}

/// Builds the whole tree of a mod.
pub fn mod_to_json(m: &Mod) -> (r: Json)
    requires
        mod_text_wf(*m),
    ensures
        view_json(r) == spec_mod_json(*m),
        json_wf(r),
{
    let mut files: Vec<Json> = Vec::new();
    let mut i: usize = 0;
    while i < m.files.len()
        invariant
            mod_text_wf(*m),
            0 <= i <= m.files@.len(),
            files@.len() == i,
            forall|k: int|
                0 <= k < i ==> view_json(#[trigger] files@[k]) == spec_file_json(m.files@[k])
                    && json_wf(files@[k]),
        decreases m.files@.len() - i,
    {
        let fj = file_to_json(&m.files[i]);
        files.push(fj);
        i = i + 1;
    }
    proof {
        reveal_strlit("Name");
        reveal_strlit("Checksum");
        reveal_strlit("Files");
    }
    let checksum_hex = m.checksum.to_hex();
    proof {
        text::lemma_hex_upper_len(m.checksum@);
        text::lemma_ascii_bytes_chars_inverse(text::spec_hex_upper(m.checksum@));
        assert(text::bytes_of_chars(checksum_hex@) =~= text::spec_hex_upper(m.checksum@));
        assert forall|q: int| 0 <= q < checksum_hex@.len() implies ' '
            <= #[trigger] checksum_hex@[q] <= '~' by {
            let hb = text::spec_hex_upper(m.checksum@);
            assert(text::hex_digit(hb[q / 2]  / 16) >= 0);
            assert(48 <= hb[q] <= 70) by {
                lemma_hex_upper_range(m.checksum@, q);
            };
        }
    }
    let mut ms: Vec<(String, Json)> = Vec::new();
    ms.push((String::from_str("Name"), Json::Str(m.name.clone())));
    ms.push((String::from_str("Checksum"), Json::Str(checksum_hex)));
    let files_json = Json::Arr(files);
    proof {
        crate::json::lemma_view_elems_index(files_json->Arr_0@, 0);
        lemma_spec_files_index(m.files@, 0);
        assert forall|k: int|
            0 <= k < files_json->Arr_0@.len() implies crate::json::view_elems(
            files_json->Arr_0@,
            0,
        )[k] == spec_files_json(m.files@, 0)[k] by {
            assert(crate::json::view_elems(files_json->Arr_0@, 0)[k] == view_json(
                files_json->Arr_0@[k],
            ));
            assert(spec_files_json(m.files@, 0)[k] == spec_file_json(m.files@[k]));
        }
        assert(crate::json::view_elems(files_json->Arr_0@, 0) =~= spec_files_json(m.files@, 0));
        assert(view_json(files_json) == SpecJson::Arr(spec_files_json(m.files@, 0)));
    }
    ms.push((String::from_str("Files"), files_json));
    let r = Json::Obj(ms);
    proof {
        let msv = r->Obj_0@;
        crate::json::lemma_view_members_index(msv, 0);
        assert(msv.len() == 3);
        assert(text::bytes_of_chars(msv[0].0@) =~= k_name());
        assert(text::bytes_of_chars(msv[1].0@) =~= k_checksum());
        assert(text::bytes_of_chars(msv[2].0@) =~= k_files());
        assert(crate::json::view_members(msv, 0) =~= spec_mod_json(*m)->Obj_0);
        assert(view_json(r) == spec_mod_json(*m));
        assert forall|i: int|
            0 <= i < msv.len() implies crate::json::chars_wf((#[trigger] msv[i]).0@) && json_wf(
            msv[i].1,
        ) by {
            if i == 0 {
                assert(crate::json::chars_wf(msv[0].0@));
                assert(json_wf(msv[0].1));
            } else if i == 1 {
                assert(crate::json::chars_wf(msv[1].0@));
                assert(json_wf(msv[1].1));
            } else {
                assert(crate::json::chars_wf(msv[2].0@));
                assert(json_wf(msv[2].1));
            }
        }
        assert(json_wf(r));
    }
    r
}

/// Every byte of an uppercase hex spelling is a digit or `A` to `F`.
pub proof fn lemma_hex_upper_range(s: Seq<u8>, q: int)
    requires
        0 <= q < text::spec_hex_upper(s).len(),
    ensures
        48 <= text::spec_hex_upper(s)[q] <= 70,
    decreases s.len(),
{
    if s.len() > 0 {
        if q >= 2 {
            lemma_hex_upper_range(s.drop_first(), q - 2);
        }
    }
}

// ---------------------------------------------------------------------------
// Reading the tree back
// ---------------------------------------------------------------------------

/// The first member whose key spells these bytes.
pub open spec fn spec_obj_get(ms: Seq<(String, Json)>, key: Seq<u8>) -> Option<Json>
    decreases ms.len(),
{
    if ms.len() == 0 {
        None
    } else if vstd::utf8::encode_utf8(ms[0].0@) == key {
        Some(ms[0].1)
    } else {
        spec_obj_get(ms.drop_first(), key)
    }
}

/// Finds the first member under a key.
pub fn obj_get<'a>(ms: &'a Vec<(String, Json)>, key: &[u8]) -> (r: Option<&'a Json>)
    ensures
        match r {
            Some(v) => spec_obj_get(ms@, key@) == Some(*v),
            None => spec_obj_get(ms@, key@) is None,
        },
{
    let mut i: usize = 0;
    proof {
        assert(ms@.skip(0) =~= ms@);
    }
    loop
        invariant
            0 <= i <= ms@.len(),
            spec_obj_get(ms@, key@) == spec_obj_get(ms@.skip(i as int), key@),
        decreases ms@.len() - i,
    {
        proof {
            if i < ms@.len() {
                assert(ms@.skip(i as int)[0] == ms@[i as int]);
                assert(ms@.skip(i as int).drop_first() =~= ms@.skip(i as int + 1));
            }
        }
        if i >= ms.len() {
            return None;
        }
        if text::bytes_eq(ms[i].0.as_str().as_bytes(), key) {
            return Some(&ms[i].1);
        }
        i = i + 1;
    }
}

/// What a part object must hold.
pub open spec fn tree_part_ok(j: Json) -> bool {
    &&& j matches Json::Obj(ms)
    &&& (j matches Json::Obj(ms) ==> {
        &&& spec_obj_get(ms@, k_path()) matches Some(Json::Str(_))
        &&& spec_obj_get(ms@, k_length()) matches Some(Json::Num(_))
        &&& spec_obj_get(ms@, k_start()) matches Some(Json::Num(_))
        &&& spec_obj_get(ms@, k_checksum()) matches Some(Json::Str(_))
    })
}

/// The part read from a part object: paths and checksums copied verbatim,
/// numbers exact.
pub open spec fn part_matches_tree(p: Part, j: Json) -> bool {
    j matches Json::Obj(ms) ==> {
        &&& (spec_obj_get(ms@, k_path()) matches Some(Json::Str(s)) ==> p.path@ == s@)
        &&& (spec_obj_get(ms@, k_length()) matches Some(Json::Num(n)) ==> p.length == n)
        &&& (spec_obj_get(ms@, k_start()) matches Some(Json::Num(n)) ==> p.start == n)
        &&& (spec_obj_get(ms@, k_checksum()) matches Some(Json::Str(s)) ==> p.checksum@ == s@)
    }
}

/// What a file object must hold.
pub open spec fn tree_file_ok(j: Json) -> bool {
    &&& j matches Json::Obj(ms)
    &&& (j matches Json::Obj(ms) ==> {
        &&& spec_obj_get(ms@, k_path()) matches Some(Json::Str(_))
        &&& spec_obj_get(ms@, k_length()) matches Some(Json::Num(_))
        &&& spec_obj_get(ms@, k_checksum()) matches Some(Json::Str(_))
        &&& spec_obj_get(ms@, k_type()) matches Some(Json::Str(s)) && (vstd::utf8::encode_utf8(s@)
            == type_tag(FileType::File) || vstd::utf8::encode_utf8(s@) == type_tag(FileType::Pbo))
        &&& spec_obj_get(ms@, k_parts()) matches Some(Json::Arr(v)) && (forall|k: int|
            0 <= k < v@.len() ==> tree_part_ok(#[trigger] v@[k]))
    })
}

/// The file read from a file object: the path tolerates backslashes and
/// is normalized to forward slashes (pinned when the text is ASCII);
/// everything else is copied verbatim.
pub open spec fn file_matches_tree(f: File, j: Json) -> bool {
    j matches Json::Obj(ms) ==> {
        &&& (spec_obj_get(ms@, k_path()) matches Some(Json::Str(s)) ==> {
            &&& (text::seq_is_ascii(vstd::utf8::encode_utf8(s@)) ==> f.path@
                == text::ascii_chars_of(text::spec_slashes(vstd::utf8::encode_utf8(s@))))
            &&& (f.path@.len() == 0 <==> s@.len() == 0)
        })
        &&& (spec_obj_get(ms@, k_length()) matches Some(Json::Num(n)) ==> f.length == n)
        &&& (spec_obj_get(ms@, k_checksum()) matches Some(Json::Str(s)) ==> f.checksum@ == s@)
        &&& (spec_obj_get(ms@, k_type()) matches Some(Json::Str(s)) ==> (f.file_type
            == FileType::Pbo <==> vstd::utf8::encode_utf8(s@) == type_tag(FileType::Pbo)))
        &&& (spec_obj_get(ms@, k_parts()) matches Some(Json::Arr(v)) ==> f.parts@.len() == v@.len()
            && (forall|k: int|
            0 <= k < v@.len() ==> part_matches_tree(#[trigger] f.parts@[k], v@[k])))
    }
}

/// What the mod object must hold: a name string, a checksum that reads as
/// a 16-byte digest, and a list of file objects.
pub open spec fn tree_mod_ok(j: Json) -> bool {
    &&& j matches Json::Obj(ms)
    &&& (j matches Json::Obj(ms) ==> {
        &&& spec_obj_get(ms@, k_name()) matches Some(Json::Str(_))
        &&& spec_obj_get(ms@, k_checksum()) matches Some(Json::Str(s)) && (text::spec_hex_decode(
            vstd::utf8::encode_utf8(s@),
        ) matches Some(b) && b.len() == 16)
        &&& spec_obj_get(ms@, k_files()) matches Some(Json::Arr(v)) && (forall|k: int|
            0 <= k < v@.len() ==> tree_file_ok(#[trigger] v@[k]))
    })
}

/// The mod read from the tree.
pub open spec fn mod_matches_tree(m: Mod, j: Json) -> bool {
    j matches Json::Obj(ms) ==> {
        &&& (spec_obj_get(ms@, k_name()) matches Some(Json::Str(s)) ==> m.name@ == s@)
        &&& (spec_obj_get(ms@, k_checksum()) matches Some(Json::Str(s))
            ==> text::spec_hex_decode(vstd::utf8::encode_utf8(s@)) == Some(m.checksum@)
            && m.checksum.wf())
        &&& (spec_obj_get(ms@, k_files()) matches Some(Json::Arr(v)) ==> m.files@.len() == v@.len()
            && (forall|k: int|
            0 <= k < v@.len() ==> file_matches_tree(#[trigger] m.files@[k], v@[k])))
    }
}

/// The bytes of a key literal.
fn key_bytes(name: &str) -> (r: Vec<u8>)
    requires
        name.is_ascii(),
    ensures
        r@ == text::bytes_of_chars(name@),
{
    text::str_bytes(name)
}

/// Reads one part object.
fn part_from_json(j: &Json) -> (r: Result<Part, Error>)
    ensures
        match r {
            Ok(p) => tree_part_ok(*j) && part_matches_tree(p, *j),
            Err(_) => !tree_part_ok(*j),
        },
{
    proof {
        reveal_strlit("Path");
        reveal_strlit("Length");
        reveal_strlit("Start");
        reveal_strlit("Checksum");
        assert(text::bytes_of_chars("Path"@) =~= k_path());
        assert(text::bytes_of_chars("Length"@) =~= k_length());
        assert(text::bytes_of_chars("Start"@) =~= k_start());
        assert(text::bytes_of_chars("Checksum"@) =~= k_checksum());
    }
    let ms = match j {
        Json::Obj(ms) => ms,
        _ => {
            return Err(Error::SrfDecode);
        },
    };
    let path = match obj_get(ms, key_bytes("Path").as_slice()) {
        Some(Json::Str(s)) => s.clone(),
        _ => {
            return Err(Error::SrfDecode);
        },
    };
    let length = match obj_get(ms, key_bytes("Length").as_slice()) {
        Some(Json::Num(n)) => *n,
        _ => {
            return Err(Error::SrfDecode);
        },
    };
    let start = match obj_get(ms, key_bytes("Start").as_slice()) {
        Some(Json::Num(n)) => *n,
        _ => {
            return Err(Error::SrfDecode);
        },
    };
    let checksum = match obj_get(ms, key_bytes("Checksum").as_slice()) {
        Some(Json::Str(s)) => s.clone(),
        _ => {
            return Err(Error::SrfDecode);
        },
    };
    Ok(Part { path, length, start, checksum })
}

/// Reads one file object.
fn file_from_json(j: &Json) -> (r: Result<File, Error>)
    ensures
        match r {
            Ok(f) => tree_file_ok(*j) && file_matches_tree(f, *j),
            Err(_) => !tree_file_ok(*j),
        },
{
    proof {
        reveal_strlit("Path");
        reveal_strlit("Length");
        reveal_strlit("Checksum");
        reveal_strlit("Type");
        reveal_strlit("Parts");
        reveal_strlit("SwiftyFile");
        reveal_strlit("SwiftyPboFile");
        assert(text::bytes_of_chars("Path"@) =~= k_path());
        assert(text::bytes_of_chars("Length"@) =~= k_length());
        assert(text::bytes_of_chars("Checksum"@) =~= k_checksum());
        assert(text::bytes_of_chars("Type"@) =~= k_type());
        assert(text::bytes_of_chars("Parts"@) =~= k_parts());
    }
    let ms = match j {
        Json::Obj(ms) => ms,
        _ => {
            return Err(Error::SrfDecode);
        },
    };
    let path = match obj_get(ms, key_bytes("Path").as_slice()) {
        Some(Json::Str(s)) => {
            let raw = s.as_str().as_bytes();
            let normalized = text::normalize_slashes(raw);
            let out = text::lossy_string(normalized.as_slice());
            proof {
                if text::seq_is_ascii(vstd::utf8::encode_utf8(s@)) {
                    assert(text::seq_is_ascii(text::spec_slashes(vstd::utf8::encode_utf8(s@))));
                }
                assert(s@.len() == 0 <==> vstd::utf8::encode_utf8(s@).len() == 0) by {
                    broadcast use vstd::utf8::encode_utf8_decode_utf8;

                    if vstd::utf8::encode_utf8(s@).len() == 0 {
                        assert(vstd::utf8::decode_utf8(vstd::utf8::encode_utf8(s@)) == s@);
                        assert(vstd::utf8::encode_utf8(s@) =~= vstd::utf8::encode_utf8(
                            Seq::<char>::empty(),
                        ));
                        assert(vstd::utf8::decode_utf8(vstd::utf8::encode_utf8(
                            Seq::<char>::empty(),
                        )) =~= Seq::<char>::empty());
                    }
                }
            }
            out
        },
        _ => {
            return Err(Error::SrfDecode);
        },
    };
    let length = match obj_get(ms, key_bytes("Length").as_slice()) {
        Some(Json::Num(n)) => *n,
        _ => {
            return Err(Error::SrfDecode);
        },
    };
    let checksum = match obj_get(ms, key_bytes("Checksum").as_slice()) {
        Some(Json::Str(s)) => s.clone(),
        _ => {
            return Err(Error::SrfDecode);
        },
    };
    let file_type = match obj_get(ms, key_bytes("Type").as_slice()) {
        Some(Json::Str(s)) => {
            let bs = s.as_str().as_bytes();
            let pbo_tag = text::str_bytes("SwiftyPboFile");
            let file_tag = text::str_bytes("SwiftyFile");
            proof {
                assert(text::bytes_of_chars("SwiftyPboFile"@) =~= type_tag(FileType::Pbo));
                assert(text::bytes_of_chars("SwiftyFile"@) =~= type_tag(FileType::File));
            }
            if text::bytes_eq(bs, pbo_tag.as_slice()) {
                FileType::Pbo
            } else if text::bytes_eq(bs, file_tag.as_slice()) {
                FileType::File
            } else {
                return Err(Error::SrfDecode);
            }
        },
        _ => {
            return Err(Error::SrfDecode);
        },
    };
    let parts_arr = match obj_get(ms, key_bytes("Parts").as_slice()) {
        Some(Json::Arr(v)) => v,
        _ => {
            return Err(Error::SrfDecode);
        },
    };
    let mut parts: Vec<Part> = Vec::new();
    let mut i: usize = 0;
    while i < parts_arr.len()
        invariant
            tree_file_ok(*j) ==> (forall|k2: int|
                0 <= k2 < parts_arr@.len() ==> tree_part_ok(#[trigger] parts_arr@[k2])),
            0 <= i <= parts_arr@.len(),
            parts@.len() == i,
            forall|k: int|
                0 <= k < i ==> tree_part_ok(#[trigger] parts_arr@[k]) && part_matches_tree(
                    parts@[k],
                    parts_arr@[k],
                ),
        decreases parts_arr@.len() - i,
    {
        match part_from_json(&parts_arr[i]) {
            Ok(p) => {
                parts.push(p);
            },
            Err(e) => {
                proof {
                    assert(!tree_part_ok(parts_arr@[i as int]));
                }
                return Err(e);
            },
        }
        i = i + 1;
    }
    Ok(File { path, length, checksum, file_type, parts })
}

/// Reads the whole mod object.
pub fn mod_from_json(j: &Json) -> (r: Result<Mod, Error>)
    ensures
        match r {
            Ok(m) => tree_mod_ok(*j) && mod_matches_tree(m, *j),
            Err(_) => !tree_mod_ok(*j),
        },
{
    proof {
        reveal_strlit("Name");
        reveal_strlit("Checksum");
        reveal_strlit("Files");
        assert(text::bytes_of_chars("Name"@) =~= k_name());
        assert(text::bytes_of_chars("Checksum"@) =~= k_checksum());
        assert(text::bytes_of_chars("Files"@) =~= k_files());
    }
    let ms = match j {
        Json::Obj(ms) => ms,
        _ => {
            return Err(Error::SrfDecode);
        },
    };
    let name = match obj_get(ms, key_bytes("Name").as_slice()) {
        Some(Json::Str(s)) => s.clone(),
        _ => {
            return Err(Error::SrfDecode);
        },
    };
    let checksum = match obj_get(ms, key_bytes("Checksum").as_slice()) {
        Some(Json::Str(s)) => {
            match Md5Digest::new(s.as_str()) {
                Ok(d) => d,
                Err(_) => {
                    return Err(Error::SrfDecode);
                },
            }
        },
        _ => {
            return Err(Error::SrfDecode);
        },
    };
    let files_arr = match obj_get(ms, key_bytes("Files").as_slice()) {
        Some(Json::Arr(v)) => v,
        _ => {
            return Err(Error::SrfDecode);
        },
    };
    let mut files: Vec<File> = Vec::new();
    let mut i: usize = 0;
    while i < files_arr.len()
        invariant
            tree_mod_ok(*j) ==> (forall|k2: int|
                0 <= k2 < files_arr@.len() ==> tree_file_ok(#[trigger] files_arr@[k2])),
            0 <= i <= files_arr@.len(),
            files@.len() == i,
            forall|k: int|
                0 <= k < i ==> tree_file_ok(#[trigger] files_arr@[k]) && file_matches_tree(
                    files@[k],
                    files_arr@[k],
                ),
        decreases files_arr@.len() - i,
    {
        match file_from_json(&files_arr[i]) {
            Ok(f) => {
                files.push(f);
            },
            Err(e) => {
                proof {
                    assert(!tree_file_ok(files_arr@[i as int]));
                }
                return Err(e);
            },
        }
        i = i + 1;
    }
    Ok(Mod { name, checksum, files })
}

// ---------------------------------------------------------------------------
// Round trip: what the decoder makes of an encoded mod
// ---------------------------------------------------------------------------

/// No backslashes: the paths of a manifest fit to be written are already
/// forward-slash normalized.
pub open spec fn slash_free(s: Seq<char>) -> bool {
    forall|i: int| 0 <= i < s.len() ==> s[i] != '\\'
}

/// A mod the canonical codec round-trips: printable-ASCII text and
/// normalized paths.
pub open spec fn mod_json_wf(m: Mod) -> bool {
    &&& mod_text_wf(m)
    &&& forall|i: int| 0 <= i < m.files@.len() ==> slash_free((#[trigger] m.files@[i]).path@)
}

/// An ASCII string value read back from a matched tree equals the text it
/// stood for.
proof fn lemma_str_value(s: Seq<char>, content: Seq<char>)
    requires
        crate::json::chars_wf(content),
        crate::json::str_matches(s, text::bytes_of_chars(content)),
    ensures
        s == content,
        vstd::utf8::encode_utf8(s) =~= text::bytes_of_chars(content),
{
    crate::json::lemma_chars_wf_ascii(content);
    text::lemma_ascii_chars_bytes_inverse(content);
    assert(s == text::ascii_chars_of(text::bytes_of_chars(content)));
    text::lemma_encode_ascii_bytes(text::bytes_of_chars(content));
}

/// The decoded part of an encoded part is that part.
proof fn lemma_part_exact(jp: Json, p: Part, p2: Part)
    requires
        part_text_wf(p),
        json_matches(jp, spec_part_json(p)),
        part_matches_tree(p2, jp),
    ensures
        tree_part_ok(jp),
        crate::srf::part_eq(p2, p),
{
    reveal_with_fuel(spec_obj_get, 8);
    let sms = spec_part_json(p)->Obj_0;
    let msv = jp->Obj_0@;
    assert(jp matches Json::Obj(_));
    assert(msv.len() == 4);
    assert(crate::json::str_matches(msv[0].0@, k_path()));
    assert(crate::json::str_matches(msv[1].0@, k_length()));
    assert(crate::json::str_matches(msv[2].0@, k_start()));
    assert(crate::json::str_matches(msv[3].0@, k_checksum()));
    lemma_key_encodes(msv[0].0@, k_path());
    lemma_key_encodes(msv[1].0@, k_length());
    lemma_key_encodes(msv[2].0@, k_start());
    lemma_key_encodes(msv[3].0@, k_checksum());
    assert(msv.drop_first()[0] == msv[1]);
    assert(msv.drop_first().drop_first()[0] == msv[2]);
    assert(msv.drop_first().drop_first().drop_first()[0] == msv[3]);
    assert(spec_obj_get(msv, k_path()) == Some(msv[0].1));
    assert(spec_obj_get(msv, k_length()) == Some(msv[1].1));
    assert(spec_obj_get(msv, k_start()) == Some(msv[2].1));
    assert(spec_obj_get(msv, k_checksum()) == Some(msv[3].1));
    assert(json_matches(msv[0].1, sms[0].1));
    assert(json_matches(msv[1].1, sms[1].1));
    assert(json_matches(msv[2].1, sms[2].1));
    assert(json_matches(msv[3].1, sms[3].1));
    let s0 = msv[0].1->Str_0;
    lemma_str_value(s0@, p.path@);
    let s3 = msv[3].1->Str_0;
    lemma_str_value(s3@, p.checksum@);
}

/// A matched key spells the expected bytes.
pub proof fn lemma_key_encodes(kv: Seq<char>, k: Seq<u8>)
    requires
        text::seq_is_ascii(k),
        crate::json::str_matches(kv, k),
    ensures
        vstd::utf8::encode_utf8(kv) =~= k,
{
    assert(kv == text::ascii_chars_of(k));
    text::lemma_encode_ascii_bytes(k);
}

/// The decoded file of an encoded file is that file.
proof fn lemma_file_exact(jf: Json, f: File, f2: File)
    requires
        file_text_wf(f),
        slash_free(f.path@),
        json_matches(jf, spec_file_json(f)),
        file_matches_tree(f2, jf),
    ensures
        tree_file_ok(jf),
        crate::srf::file_eq(f2, f),
{
    reveal_with_fuel(spec_obj_get, 8);
    let sms = spec_file_json(f)->Obj_0;
    let msv = jf->Obj_0@;
    assert(jf matches Json::Obj(_));
    assert(msv.len() == 5);
    assert(crate::json::str_matches(msv[0].0@, k_path()));
    assert(crate::json::str_matches(msv[1].0@, k_length()));
    assert(crate::json::str_matches(msv[2].0@, k_checksum()));
    assert(crate::json::str_matches(msv[3].0@, k_type()));
    assert(crate::json::str_matches(msv[4].0@, k_parts()));
    lemma_key_encodes(msv[0].0@, k_path());
    lemma_key_encodes(msv[1].0@, k_length());
    lemma_key_encodes(msv[2].0@, k_checksum());
    lemma_key_encodes(msv[3].0@, k_type());
    lemma_key_encodes(msv[4].0@, k_parts());
    assert(msv.drop_first()[0] == msv[1]);
    assert(msv.drop_first().drop_first()[0] == msv[2]);
    assert(msv.drop_first().drop_first().drop_first()[0] == msv[3]);
    assert(msv.drop_first().drop_first().drop_first().drop_first()[0] == msv[4]);
    assert(spec_obj_get(msv, k_path()) == Some(msv[0].1));
    assert(spec_obj_get(msv, k_length()) == Some(msv[1].1));
    assert(spec_obj_get(msv, k_checksum()) == Some(msv[2].1));
    assert(spec_obj_get(msv, k_type()) == Some(msv[3].1));
    assert(spec_obj_get(msv, k_parts()) == Some(msv[4].1));
    assert(json_matches(msv[0].1, sms[0].1));
    assert(json_matches(msv[1].1, sms[1].1));
    assert(json_matches(msv[2].1, sms[2].1));
    assert(json_matches(msv[3].1, sms[3].1));
    assert(json_matches(msv[4].1, sms[4].1));
    // path: the tree holds the text; decoding normalizes slashes, which a
    // slash-free path passes through unchanged
    let s0 = msv[0].1->Str_0;
    lemma_str_value(s0@, f.path@);
    assert(text::spec_slashes(text::bytes_of_chars(f.path@)) =~= text::bytes_of_chars(f.path@))
        by {
        assert forall|q: int|
            0 <= q < f.path@.len() implies text::slash_byte(
            #[trigger] text::bytes_of_chars(f.path@)[q],
        ) == text::bytes_of_chars(f.path@)[q] by {
            assert(f.path@[q] != '\\');
            assert(' ' <= f.path@[q] <= '~');
        }
    };
    crate::json::lemma_chars_wf_ascii(f.path@);
    text::lemma_ascii_chars_bytes_inverse(f.path@);
    assert(f2.path@ == f.path@);
    // checksum text is copied verbatim
    let s2 = msv[2].1->Str_0;
    lemma_str_value(s2@, f.checksum@);
    // the kind tag distinguishes the two kinds
    let s3 = msv[3].1->Str_0;
    assert(text::seq_is_ascii(type_tag(f.file_type)));
    assert(crate::json::str_matches(s3@, type_tag(f.file_type)));
    lemma_key_encodes(s3@, type_tag(f.file_type));
    assert(type_tag(FileType::Pbo).len() != type_tag(FileType::File).len());
    assert(f2.file_type == f.file_type);
    // parts, element for element
    let pv = msv[4].1->Arr_0;
    let spv = sms[4].1->Arr_0;
    assert(pv@.len() == spv.len());
    lemma_spec_parts_index(f.parts@, 0);
    assert(f2.parts@.len() == f.parts@.len());
    assert forall|k: int| 0 <= k < pv@.len() implies tree_part_ok(#[trigger] pv@[k])
        && crate::srf::part_eq(f2.parts@[k], f.parts@[k]) by {
        assert(json_matches(pv@[k], spv[k]));
        assert(spv[k] == spec_part_json(f.parts@[k]));
        assert(part_matches_tree(f2.parts@[k], pv@[k]));
        assert(part_text_wf(f.parts@[k]));
        lemma_part_exact(pv@[k], f.parts@[k], f2.parts@[k]);
    }
}

/// The decoded mod of an encoded mod is that mod: the tree parses, and
/// every field comes back equal.
pub proof fn lemma_mod_exact(jm: Json, m: Mod, m2: Mod)
    requires
        mod_json_wf(m),
        json_matches(jm, spec_mod_json(m)),
        mod_matches_tree(m2, jm),
    ensures
        tree_mod_ok(jm),
        mod_eq(m2, m),
{
    reveal_with_fuel(spec_obj_get, 8);
    let sms = spec_mod_json(m)->Obj_0;
    let msv = jm->Obj_0@;
    assert(jm matches Json::Obj(_));
    assert(msv.len() == 3);
    assert(crate::json::str_matches(msv[0].0@, k_name()));
    assert(crate::json::str_matches(msv[1].0@, k_checksum()));
    assert(crate::json::str_matches(msv[2].0@, k_files()));
    lemma_key_encodes(msv[0].0@, k_name());
    lemma_key_encodes(msv[1].0@, k_checksum());
    lemma_key_encodes(msv[2].0@, k_files());
    assert(msv.drop_first()[0] == msv[1]);
    assert(msv.drop_first().drop_first()[0] == msv[2]);
    assert(spec_obj_get(msv, k_name()) == Some(msv[0].1));
    assert(spec_obj_get(msv, k_checksum()) == Some(msv[1].1));
    assert(spec_obj_get(msv, k_files()) == Some(msv[2].1));
    assert(json_matches(msv[0].1, sms[0].1));
    assert(json_matches(msv[1].1, sms[1].1));
    assert(json_matches(msv[2].1, sms[2].1));
    // name
    let s0 = msv[0].1->Str_0;
    lemma_str_value(s0@, m.name@);
    assert(m2.name@ == m.name@);
    // fingerprint: the hex spelling decodes to the digest bytes
    let s1 = msv[1].1->Str_0;
    text::lemma_hex_upper_len(m.checksum@);
    assert(text::seq_is_ascii(text::spec_hex_upper(m.checksum@)));
    assert(crate::json::str_matches(s1@, text::spec_hex_upper(m.checksum@)));
    lemma_key_encodes(s1@, text::spec_hex_upper(m.checksum@));
    text::lemma_hex_round_trip(m.checksum@);
    assert(m2.checksum@ == m.checksum@);
    // files, element for element
    let fv = msv[2].1->Arr_0;
    let sfv = sms[2].1->Arr_0;
    assert(fv@.len() == sfv.len());
    lemma_spec_files_index(m.files@, 0);
    assert(m2.files@.len() == m.files@.len());
    assert forall|k: int| 0 <= k < fv@.len() implies tree_file_ok(#[trigger] fv@[k])
        && crate::srf::file_eq(m2.files@[k], m.files@[k]) by {
        assert(json_matches(fv@[k], sfv[k]));
        assert(sfv[k] == spec_file_json(m.files@[k]));
        assert(file_matches_tree(m2.files@[k], fv@[k]));
        assert(file_text_wf(m.files@[k]) && slash_free(m.files@[k].path@));
        lemma_file_exact(fv@[k], m.files@[k], m2.files@[k]);
    }
}

/// The canonical JSON spelling of a mod never reads as legacy: it opens
/// with a brace, not the `ADDON` magic.
pub proof fn lemma_json_not_legacy(m: Mod)
    ensures
        !crate::srf_legacy::spec_is_legacy(spec_serialize_srf(m)),
{
    crate::json::lemma_emit_head(spec_mod_json(m));
    let s = spec_serialize_srf(m);
    assert(s[0] == 123);
    if crate::srf_legacy::spec_is_legacy(s) {
        assert(s.subrange(0, 5)[0] == s[0]);
        assert(crate::srf_legacy::spec_addon_tag()[0] == 65);
    }
}

// ---------------------------------------------------------------------------
// The decoder for remote or on-disk SRF content
// ---------------------------------------------------------------------------

/// A UTF-8 byte-order mark dropped from the front, if present.
pub open spec fn spec_strip_bom(s: Seq<u8>) -> Seq<u8> {
    if s.len() >= 3 && s[0] == 0xef && s[1] == 0xbb && s[2] == 0xbf {
        s.skip(3)
    } else {
        s
    }
}

/// Decodes SRF content of either form: a leading byte-order mark is
/// dropped, the legacy magic dispatches to the legacy reader, anything
/// else must be the canonical JSON form. Reading back what
/// [`serialize_srf`] wrote returns the written mod, field for field.
pub fn deserialize_srf(input: &[u8]) -> (r: Result<Mod, Error>)
    ensures
        forall|m: Mod|
            #[trigger] mod_json_wf(m) && spec_strip_bom(input@) == spec_serialize_srf(m) ==> (
            r matches Ok(m2) && mod_eq(m2, m)),
        crate::srf_legacy::spec_is_legacy(spec_strip_bom(input@)) ==> (match r {
            Ok(m) => crate::srf_legacy::spec_parse_legacy(spec_strip_bom(input@)) matches Ok(
                (name, digest, sfiles),
            ) && (text::seq_is_ascii(name) ==> m.name@ == text::ascii_chars_of(name)) && (
            m.name@.len() == 0 <==> name.len() == 0) && m.checksum@ == digest && m.checksum.wf()
                && m.files@.len() == sfiles.len() && (forall|k: int|
                0 <= k < sfiles.len() ==> crate::srf_legacy::lfile_matches(
                    #[trigger] m.files@[k],
                    sfiles[k],
                )),
            Err(e) => crate::srf_legacy::spec_parse_legacy(spec_strip_bom(input@)) is Err,
        }),
        !crate::srf_legacy::spec_is_legacy(spec_strip_bom(input@)) ==> (match r {
            Ok(m) => exists|j: Json|
                {
                    &&& #[trigger] tree_mod_ok(j)
                    &&& mod_matches_tree(m, j)
                    &&& spec_parse_json(spec_strip_bom(input@)) matches Some(sj)
                        && json_matches(j, sj)
                },
            Err(_) => spec_parse_json(spec_strip_bom(input@)) is None || exists|j: Json|
                {
                    &&& !#[trigger] tree_mod_ok(j)
                    &&& spec_parse_json(spec_strip_bom(input@)) matches Some(sj)
                        && json_matches(j, sj)
                },
        }),
        forall|m: Mod|
            #[trigger] crate::srf_legacy::legacy_wf(m) && spec_strip_bom(input@)
                == crate::srf_legacy::spec_serialize_legacy(m) ==> (r matches Ok(m2) && mod_eq(
                m2,
                m,
            )),
{
    let mut bom: Vec<u8> = Vec::new();
    bom.push(0xef);
    bom.push(0xbb);
    bom.push(0xbf);
    let stripped: &[u8] = if text::starts_with(input, bom.as_slice()) {
        proof {
            assert(input@.take(3) =~= seq![0xefu8, 0xbbu8, 0xbfu8]);
        }
        vstd::slice::slice_subrange(input, 3, input.len())
    } else {
        proof {
            assert(!(input@.len() >= 3 && input@[0] == 0xef && input@[1] == 0xbb && input@[2]
                == 0xbf)) by {
                if input@.len() >= 3 && input@[0] == 0xef && input@[1] == 0xbb && input@[2]
                    == 0xbf {
                    assert(input@.take(3) =~= bom@);
                }
            }
        }
        input
    };
    proof {
        assert(stripped@ == spec_strip_bom(input@));
    }
    if crate::srf_legacy::is_legacy_srf(stripped) {
        proof {
            assert forall|m: Mod|
                #[trigger] mod_json_wf(m) && spec_strip_bom(input@) == spec_serialize_srf(
                    m,
                ) implies false by {
                lemma_json_not_legacy(m);
            }
        }
        return crate::srf_legacy::deserialize_legacy_srf(stripped);
    }
    proof {
        assert forall|m: Mod|
            #[trigger] crate::srf_legacy::legacy_wf(m) && spec_strip_bom(input@)
                == crate::srf_legacy::spec_serialize_legacy(m) implies crate::srf_legacy::spec_is_legacy(
            spec_strip_bom(input@),
        ) by {
            crate::srf_legacy::lemma_legacy_is_legacy(m);
        }
    }
    let tree = match parse_json(stripped) {
        Some(j) => j,
        None => {
            proof {
                assert forall|m: Mod|
                    #[trigger] mod_json_wf(m) && spec_strip_bom(input@) == spec_serialize_srf(
                        m,
                    ) implies false by {
                    lemma_json_wf_of(m);
                    crate::json::lemma_parse_emit(spec_mod_json(m));
                }
            }
            return Err(Error::SrfDecode);
        },
    };
    match mod_from_json(&tree) {
        Ok(m2) => {
            proof {
                assert forall|m: Mod|
                    #[trigger] mod_json_wf(m) && spec_strip_bom(input@) == spec_serialize_srf(
                        m,
                    ) implies mod_eq(m2, m) by {
                    lemma_json_wf_of(m);
                    crate::json::lemma_parse_emit(spec_mod_json(m));
                    lemma_mod_exact(tree, m, m2);
                }
            }
            Ok(m2)
        },
        Err(e) => {
            proof {
                assert forall|m: Mod|
                    #[trigger] mod_json_wf(m) && spec_strip_bom(input@) == spec_serialize_srf(
                        m,
                    ) implies false by {
                    lemma_json_wf_of(m);
                    crate::json::lemma_parse_emit(spec_mod_json(m));
                    lemma_mod_exact_shape(tree, m);
                }
            }
            Err(e)
        },
    }
}

/// A well-formed mod maps to a well-formed tree.
pub proof fn lemma_json_wf_of(m: Mod)
    requires
        mod_text_wf(m),
    ensures
        spec_json_wf(spec_mod_json(m)),
{
    let sms = spec_mod_json(m)->Obj_0;
    text::lemma_hex_upper_len(m.checksum@);
    lemma_spec_files_index(m.files@, 0);
    assert forall|i: int|
        0 <= i < sms.len() implies crate::json::str_wf((#[trigger] sms[i]).0) && spec_json_wf(
        sms[i].1,
    ) by {
        if i == 0 {
            lemma_chars_bytes_wf(m.name@);
        } else if i == 1 {
            assert forall|q: int|
                0 <= q < text::spec_hex_upper(m.checksum@).len() implies 32
                <= #[trigger] text::spec_hex_upper(m.checksum@)[q] <= 126 by {
                lemma_hex_upper_range(m.checksum@, q);
            }
        } else {
            let fl = sms[2].1->Arr_0;
            assert forall|k: int| 0 <= k < fl.len() implies spec_json_wf(#[trigger] fl[k]) by {
                assert(fl[k] == spec_file_json(m.files@[k]));
                assert(file_text_wf(m.files@[k]));
                lemma_file_json_wf(m.files@[k]);
            }
        }
    }
}

/// Printable characters make printable bytes.
proof fn lemma_chars_bytes_wf(s: Seq<char>)
    requires
        crate::json::chars_wf(s),
    ensures
        crate::json::str_wf(text::bytes_of_chars(s)),
{
    assert forall|q: int| 0 <= q < s.len() implies 32 <= #[trigger] text::bytes_of_chars(s)[q]
        <= 126 by {
        assert(' ' <= s[q] <= '~');
    }
}

proof fn lemma_file_json_wf(f: File)
    requires
        file_text_wf(f),
    ensures
        spec_json_wf(spec_file_json(f)),
{
    let sms = spec_file_json(f)->Obj_0;
    lemma_spec_parts_index(f.parts@, 0);
    assert forall|i: int|
        0 <= i < sms.len() implies crate::json::str_wf((#[trigger] sms[i]).0) && spec_json_wf(
        sms[i].1,
    ) by {
        if i == 0 {
            lemma_chars_bytes_wf(f.path@);
        } else if i == 2 {
            lemma_chars_bytes_wf(f.checksum@);
        } else if i == 4 {
            let pl = sms[4].1->Arr_0;
            assert forall|k: int| 0 <= k < pl.len() implies spec_json_wf(#[trigger] pl[k]) by {
                assert(pl[k] == spec_part_json(f.parts@[k]));
                assert(part_text_wf(f.parts@[k]));
                lemma_part_json_wf(f.parts@[k]);
            }
        }
    }
}

proof fn lemma_part_json_wf(p: Part)
    requires
        part_text_wf(p),
    ensures
        spec_json_wf(spec_part_json(p)),
{
    let sms = spec_part_json(p)->Obj_0;
    assert forall|i: int|
        0 <= i < sms.len() implies crate::json::str_wf((#[trigger] sms[i]).0) && spec_json_wf(
        sms[i].1,
    ) by {
        if i == 0 {
            lemma_chars_bytes_wf(p.path@);
        } else if i == 3 {
            lemma_chars_bytes_wf(p.checksum@);
        }
    }
}

/// On a matched tree the decoder cannot refuse: the tree has the shape.
proof fn lemma_mod_exact_shape(jm: Json, m: Mod)
    requires
        mod_json_wf(m),
        json_matches(jm, spec_mod_json(m)),
    ensures
        tree_mod_ok(jm),
{
    reveal_with_fuel(spec_obj_get, 8);
    let sms = spec_mod_json(m)->Obj_0;
    let msv = jm->Obj_0@;
    assert(msv.len() == 3);
    assert(crate::json::str_matches(msv[0].0@, k_name()));
    assert(crate::json::str_matches(msv[1].0@, k_checksum()));
    assert(crate::json::str_matches(msv[2].0@, k_files()));
    lemma_key_encodes(msv[0].0@, k_name());
    lemma_key_encodes(msv[1].0@, k_checksum());
    lemma_key_encodes(msv[2].0@, k_files());
    assert(msv.drop_first()[0] == msv[1]);
    assert(msv.drop_first().drop_first()[0] == msv[2]);
    assert(spec_obj_get(msv, k_name()) == Some(msv[0].1));
    assert(spec_obj_get(msv, k_checksum()) == Some(msv[1].1));
    assert(spec_obj_get(msv, k_files()) == Some(msv[2].1));
    assert(json_matches(msv[0].1, sms[0].1));
    assert(json_matches(msv[1].1, sms[1].1));
    assert(json_matches(msv[2].1, sms[2].1));
    let s1 = msv[1].1->Str_0;
    text::lemma_hex_upper_len(m.checksum@);
    lemma_key_encodes(s1@, text::spec_hex_upper(m.checksum@));
    text::lemma_hex_round_trip(m.checksum@);
    let fv = msv[2].1->Arr_0;
    let sfv = sms[2].1->Arr_0;
    lemma_spec_files_index(m.files@, 0);
    assert forall|k: int| 0 <= k < fv@.len() implies tree_file_ok(#[trigger] fv@[k]) by {
        assert(json_matches(fv@[k], sfv[k]));
        assert(sfv[k] == spec_file_json(m.files@[k]));
        lemma_file_shape_only(fv@[k], m.files@[k]);
    }
}

proof fn lemma_file_shape_only(jf: Json, f: File)
    requires
        file_text_wf(f),
        json_matches(jf, spec_file_json(f)),
    ensures
        tree_file_ok(jf),
{
    reveal_with_fuel(spec_obj_get, 8);
    let sms = spec_file_json(f)->Obj_0;
    let msv = jf->Obj_0@;
    assert(msv.len() == 5);
    assert(crate::json::str_matches(msv[0].0@, k_path()));
    assert(crate::json::str_matches(msv[1].0@, k_length()));
    assert(crate::json::str_matches(msv[2].0@, k_checksum()));
    assert(crate::json::str_matches(msv[3].0@, k_type()));
    assert(crate::json::str_matches(msv[4].0@, k_parts()));
    lemma_key_encodes(msv[0].0@, k_path());
    lemma_key_encodes(msv[1].0@, k_length());
    lemma_key_encodes(msv[2].0@, k_checksum());
    lemma_key_encodes(msv[3].0@, k_type());
    lemma_key_encodes(msv[4].0@, k_parts());
    assert(msv.drop_first()[0] == msv[1]);
    assert(msv.drop_first().drop_first()[0] == msv[2]);
    assert(msv.drop_first().drop_first().drop_first()[0] == msv[3]);
    assert(msv.drop_first().drop_first().drop_first().drop_first()[0] == msv[4]);
    assert(spec_obj_get(msv, k_path()) == Some(msv[0].1));
    assert(spec_obj_get(msv, k_length()) == Some(msv[1].1));
    assert(spec_obj_get(msv, k_checksum()) == Some(msv[2].1));
    assert(spec_obj_get(msv, k_type()) == Some(msv[3].1));
    assert(spec_obj_get(msv, k_parts()) == Some(msv[4].1));
    assert(json_matches(msv[0].1, sms[0].1));
    assert(json_matches(msv[1].1, sms[1].1));
    assert(json_matches(msv[2].1, sms[2].1));
    assert(json_matches(msv[3].1, sms[3].1));
    assert(json_matches(msv[4].1, sms[4].1));
    let s3 = msv[3].1->Str_0;
    assert(text::seq_is_ascii(type_tag(f.file_type)));
    assert(crate::json::str_matches(s3@, type_tag(f.file_type)));
    lemma_key_encodes(s3@, type_tag(f.file_type));
    let pv = msv[4].1->Arr_0;
    let spv = sms[4].1->Arr_0;
    assert(pv@.len() == spv.len());
    lemma_spec_parts_index(f.parts@, 0);
    assert forall|k: int| 0 <= k < pv@.len() implies tree_part_ok(#[trigger] pv@[k]) by {
        assert(json_matches(pv@[k], spv[k]));
        assert(spv[k] == spec_part_json(f.parts@[k]));
        lemma_part_shape_only(pv@[k], f.parts@[k]);
    }
}

proof fn lemma_part_shape_only(jp: Json, p: Part)
    requires
        part_text_wf(p),
        json_matches(jp, spec_part_json(p)),
    ensures
        tree_part_ok(jp),
{
    reveal_with_fuel(spec_obj_get, 8);
    let msv = jp->Obj_0@;
    assert(msv.len() == 4);
    assert(crate::json::str_matches(msv[0].0@, k_path()));
    assert(crate::json::str_matches(msv[1].0@, k_length()));
    assert(crate::json::str_matches(msv[2].0@, k_start()));
    assert(crate::json::str_matches(msv[3].0@, k_checksum()));
    lemma_key_encodes(msv[0].0@, k_path());
    lemma_key_encodes(msv[1].0@, k_length());
    lemma_key_encodes(msv[2].0@, k_start());
    lemma_key_encodes(msv[3].0@, k_checksum());
    assert(msv.drop_first()[0] == msv[1]);
    assert(msv.drop_first().drop_first()[0] == msv[2]);
    assert(msv.drop_first().drop_first().drop_first()[0] == msv[3]);
    assert(spec_obj_get(msv, k_path()) == Some(msv[0].1));
    assert(spec_obj_get(msv, k_length()) == Some(msv[1].1));
    assert(spec_obj_get(msv, k_start()) == Some(msv[2].1));
    assert(spec_obj_get(msv, k_checksum()) == Some(msv[3].1));
    assert(json_matches(msv[0].1, spec_part_json(p)->Obj_0[0].1));
    assert(json_matches(msv[1].1, spec_part_json(p)->Obj_0[1].1));
    assert(json_matches(msv[2].1, spec_part_json(p)->Obj_0[2].1));
    assert(json_matches(msv[3].1, spec_part_json(p)->Obj_0[3].1));
}

/// Spells a mod out in its canonical JSON form.
pub fn serialize_srf(m: &Mod) -> (r: Vec<u8>)
    requires
        mod_text_wf(*m),
    ensures
        r@ == spec_serialize_srf(*m),
{
    let j = mod_to_json(m);
    let mut out: Vec<u8> = Vec::new();
    emit_json(&j, &mut out);
    proof {
        assert(Seq::<u8>::empty() + spec_emit(spec_mod_json(*m)) =~= spec_emit(
            spec_mod_json(*m),
        ));
    }
    out
}

} // verus!
