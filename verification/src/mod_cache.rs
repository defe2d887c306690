//! The persistent mod cache: content fingerprints mapped to mod
//! identities, held as an association list with unique keys.

use vstd::prelude::*;
use vstd::string::StringExecFns;
use crate::md5_digest::Md5Digest;
use crate::text;

verus! {

/// Why the cache could not be read or written.
#[derive(Debug)]
pub enum Error {
    /// The cache file could not be created.
    FileCreation,
    /// The cache file could not be opened.
    FileOpen,
    /// The cache could not be spelled out.
    Serialization,
    /// The cache text did not parse.
    Deserialization,
}

/// The identity the cache keeps for one fingerprint.
#[derive(Debug)]
pub struct Mod {
    pub name: String,
}

impl Clone for Mod {
    /// The copy holds the same name.
    fn clone(&self) -> (r: Self)
        ensures
            r.name@ == self.name@,
    {
        Mod { name: self.name.clone() }
    }
}

impl From<crate::srf::Mod> for Mod {
    /// A scanned mod enters the cache under its name alone.
    fn from(value: crate::srf::Mod) -> (r: Self) {
        Mod { name: value.name }
    }
}

impl vstd::std_specs::convert::FromSpecImpl<crate::srf::Mod> for Mod {
    open spec fn obeys_from_spec() -> bool {
        true
    }

    open spec fn from_spec(value: crate::srf::Mod) -> Self {
        Mod { name: value.name }
    }
}

/// The cache: a versioned map from 16-byte fingerprints to mod names.
#[derive(Debug)]
pub struct ModCache {
    pub version: u32,
    pub mods: Vec<(Md5Digest, Mod)>,
}

impl ModCache {
    /// Keys are well-formed digests, no key twice.
    pub open spec fn wf(&self) -> bool {
        &&& forall|i: int| 0 <= i < self.mods@.len() ==> (#[trigger] self.mods@[i]).0.wf()
        &&& forall|i: int, j: int|
            0 <= i < j < self.mods@.len() ==> (#[trigger] self.mods@[i]).0@ != (
            #[trigger] self.mods@[j]).0@
    }

    /// Whether a fingerprint is a key of the cache.
    pub open spec fn spec_contains(&self, d: Seq<u8>) -> bool {
        exists|i: int| 0 <= i < self.mods@.len() && (#[trigger] self.mods@[i]).0@ == d
    }

    /// The name stored under a fingerprint, when the fingerprint is a key.
    /// Under [`ModCache::wf`] the key is unique, so the choice is too.
    pub open spec fn spec_lookup(&self, d: Seq<u8>) -> Option<Seq<char>> {
        if self.spec_contains(d) {
            let i = choose|i: int|
                0 <= i < self.mods@.len() && (#[trigger] self.mods@[i]).0@ == d;
            Some(self.mods@[i].1.name@)
        } else {
            None
        }
    }

    /// An empty cache at the current format version.
    pub fn new_empty() -> (r: ModCache)
        ensures
            r.wf(),
            r.mods@.len() == 0,
            r.version == 1,
    {
        ModCache { version: 1, mods: Vec::new() }
    }

    /// Builds a cache from scanned mods, each keyed by its fingerprint;
    /// a repeated fingerprint keeps the last entry, as a map insert would.
    pub fn new(mods: Vec<(Md5Digest, crate::srf::Mod)>) -> (r: ModCache)
        requires
            forall|i: int| 0 <= i < mods@.len() ==> (#[trigger] mods@[i]).0.wf(),
        ensures
            r.wf(),
            r.version == 1,
            forall|d: Seq<u8>|
                #[trigger] r.spec_contains(d) <==> exists|i: int|
                    0 <= i < mods@.len() && (#[trigger] mods@[i]).0@ == d,
    {
        let mut cache = ModCache::new_empty();
        let mut i: usize = 0;
        while i < mods.len()
            invariant
                forall|k: int| 0 <= k < mods@.len() ==> (#[trigger] mods@[k]).0.wf(),
                0 <= i <= mods@.len(),
                cache.wf(),
                cache.version == 1,
                forall|d: Seq<u8>|
                    #[trigger] cache.spec_contains(d) <==> exists|k: int|
                        0 <= k < i && (#[trigger] mods@[k]).0@ == d,
            decreases mods@.len() - i,
        {
            let pair = &mods[i];
            let digest = pair.0.clone();
            let name = pair.1.name.clone();
            cache.insert_entry(digest, Mod { name });
            proof {
                assert forall|d: Seq<u8>| #[trigger] cache.spec_contains(d) implies exists|k: int|
                    0 <= k < i + 1 && (#[trigger] mods@[k]).0@ == d by {
                    if d == mods@[i as int].0@ {
                        assert(0 <= i < i + 1 && mods@[i as int].0@ == d);
                    }
                }
                assert forall|d: Seq<u8>|
                    (exists|k: int|
                        0 <= k < i + 1 && (#[trigger] mods@[k]).0@ == d) implies
                    #[trigger] cache.spec_contains(d) by {}
            }
            i = i + 1;
        }
        cache
    }

    /// Puts one identity under one fingerprint, replacing what was there.
    pub fn insert_entry(&mut self, digest: Md5Digest, entry: Mod)
        requires
            old(self).wf(),
            digest.wf(),
        ensures
            final(self).wf(),
            final(self).version == old(self).version,
            forall|d: Seq<u8>|
                #[trigger] final(self).spec_contains(d) <==> (old(self).spec_contains(d) || d
                    == digest@),
            final(self).spec_contains(digest@),
            final(self).spec_lookup(digest@) == Some(entry.name@),
            forall|d: Seq<u8>|
                d != digest@ ==> #[trigger] final(self).spec_lookup(d) == old(self).spec_lookup(
                    d,
                ),
            !old(self).spec_contains(digest@) ==> final(self).mods@ == old(self).mods@.push(
                (digest, entry),
            ),
    {
        let mut i: usize = 0;
        while i < self.mods.len()
            invariant
                self.wf(),
                digest.wf(),
                0 <= i <= self.mods@.len(),
                self.mods@ == old(self).mods@,
                self.version == old(self).version,
                forall|k: int| 0 <= k < i ==> (#[trigger] self.mods@[k]).0@ != digest@,
            decreases self.mods@.len() - i,
        {
            if self.mods[i].0.eq(&digest) {
                let ghost before = self.mods@;
                self.mods.set(i, (digest, entry));
                proof {
                    assert forall|d: Seq<u8>| #[trigger] self.spec_contains(d) implies (
                    spec_contains_seq(before, d) || d == digest@) by {
                        let k = choose|k: int|
                            0 <= k < self.mods@.len() && (#[trigger] self.mods@[k]).0@ == d;
                        if k != i {
                            assert(before[k].0@ == d);
                        }
                    }
                    assert forall|d: Seq<u8>|
                        spec_contains_seq(before, d) || d == digest@ implies
                        #[trigger] self.spec_contains(d) by {
                        if d == digest@ {
                            assert(self.mods@[i as int].0@ == d);
                        } else {
                            let k = choose|k: int|
                                0 <= k < before.len() && (#[trigger] before[k]).0@ == d;
                            assert(before[i as int].0@ == digest@);
                            assert(k != i);
                            assert(self.mods@[k].0@ == d);
                        }
                    }
                }
                return ;
            }
            i = i + 1;
        }
        self.mods.push((digest, entry));
        proof {
            let n = self.mods@.len() - 1;
            assert(self.mods@[n].0@ == digest@);
            assert forall|d: Seq<u8>| #[trigger] self.spec_contains(d) implies (old(
                self,
            ).spec_contains(d) || d == digest@) by {
                let k = choose|k: int|
                    0 <= k < self.mods@.len() && (#[trigger] self.mods@[k]).0@ == d;
                if k < n {
                    assert(old(self).mods@[k].0@ == d);
                }
            }
            assert forall|d: Seq<u8>|
                old(self).spec_contains(d) || d == digest@ implies #[trigger] self.spec_contains(
                d,
            ) by {
                if d == digest@ {
                    assert(self.mods@[n].0@ == d);
                } else {
                    let k = choose|k: int|
                        0 <= k < old(self).mods@.len() && (#[trigger] old(self).mods@[k]).0@ == d;
                    assert(self.mods@[k].0@ == d);
                }
            }
            assert forall|a: int, b: int|
                0 <= a < b < self.mods@.len() implies (#[trigger] self.mods@[a]).0@ != (
            #[trigger] self.mods@[b]).0@ by {
                if b == n {
                    assert(self.mods@[a].0@ != digest@);
                } else {
                    assert(old(self).mods@[a].0@ != old(self).mods@[b].0@);
                }
            }
        }
    }

    /// Records a scanned mod under its fingerprint.
    pub fn insert(&mut self, new_mod: crate::srf::Mod)
        requires
            old(self).wf(),
            new_mod.checksum.wf(),
        ensures
            final(self).wf(),
            final(self).version == old(self).version,
            forall|d: Seq<u8>|
                #[trigger] final(self).spec_contains(d) <==> (old(self).spec_contains(d) || d
                    == new_mod.checksum@),
            final(self).spec_contains(new_mod.checksum@),
            final(self).spec_lookup(new_mod.checksum@) == Some(new_mod.name@),
            forall|d: Seq<u8>|
                d != new_mod.checksum@ ==> #[trigger] final(self).spec_lookup(d) == old(
                    self,
                ).spec_lookup(d),
    {
        let digest = new_mod.checksum.clone();
        self.insert_entry(digest, Mod { name: new_mod.name });
    }

    /// Drops the entry under a fingerprint, if any.
    pub fn remove(&mut self, checksum: &Md5Digest)
        requires
            old(self).wf(),
        ensures
            final(self).wf(),
            final(self).version == old(self).version,
            forall|d: Seq<u8>|
                #[trigger] final(self).spec_contains(d) <==> (old(self).spec_contains(d) && d
                    != checksum@),
            forall|d: Seq<u8>|
                d != checksum@ ==> #[trigger] final(self).spec_lookup(d) == old(self).spec_lookup(
                    d,
                ),
    {
        let mut i: usize = 0;
        while i < self.mods.len()
            invariant
                self.wf(),
                0 <= i <= self.mods@.len(),
                self.mods@ == old(self).mods@,
                self.version == old(self).version,
                forall|k: int| 0 <= k < i ==> (#[trigger] self.mods@[k]).0@ != checksum@,
            decreases self.mods@.len() - i,
        {
            if self.mods[i].0.eq(checksum) {
                let ghost before = self.mods@;
                let _removed = self.mods.remove(i);
                proof {
                    assert(self.mods@ =~= before.remove(i as int));
                    assert forall|d: Seq<u8>| #[trigger] self.spec_contains(d) implies (
                    spec_contains_seq(before, d) && d != checksum@) by {
                        let k = choose|k: int|
                            0 <= k < self.mods@.len() && (#[trigger] self.mods@[k]).0@ == d;
                        if k < i {
                            assert(before[k].0@ == d);
                        } else {
                            assert(before[k + 1].0@ == d);
                        }
                    }
                    assert forall|d: Seq<u8>|
                        spec_contains_seq(before, d) && d != checksum@ implies
                        #[trigger] self.spec_contains(d) by {
                        let k = choose|k: int|
                            0 <= k < before.len() && (#[trigger] before[k]).0@ == d;
                        assert(before[i as int].0@ == checksum@);
                        assert(k != i);
                        if k < i {
                            assert(self.mods@[k].0@ == d);
                        } else {
                            assert(self.mods@[k - 1].0@ == d);
                        }
                    }
                    assert forall|a: int, b: int|
                        0 <= a < b < self.mods@.len() implies (#[trigger] self.mods@[a]).0@ != (
                        #[trigger] self.mods@[b]).0@ by {
                        let pa = if a < i {
                            a
                        } else {
                            a + 1
                        };
                        let pb = if b < i {
                            b
                        } else {
                            b + 1
                        };
                        assert(before[pa].0@ != before[pb].0@);
                    }
                }
                return ;
            }
            i = i + 1;
        }
    }

    /// Whether a fingerprint is a key of the cache.
    pub fn contains_key(&self, d: &Md5Digest) -> (r: bool)
        ensures
            r == self.spec_contains(d@),
    {
        let mut i: usize = 0;
        while i < self.mods.len()
            invariant
                0 <= i <= self.mods@.len(),
                forall|k: int| 0 <= k < i ==> (#[trigger] self.mods@[k]).0@ != d@,
            decreases self.mods@.len() - i,
        {
            if self.mods[i].0.eq(d) {
                return true;
            }
            i = i + 1;
        }
        false
    }
}

/// Whether a fingerprint is a key of an entry list.
pub open spec fn spec_contains_seq(mods: Seq<(Md5Digest, Mod)>, d: Seq<u8>) -> bool {
    exists|i: int| 0 <= i < mods.len() && (#[trigger] mods[i]).0@ == d
}

// ---------------------------------------------------------------------------
// The on-disk form of the cache
// ---------------------------------------------------------------------------

/// The bytes of the field name `version`.
pub open spec fn k_version() -> Seq<u8> {
    seq![118u8, 101u8, 114u8, 115u8, 105u8, 111u8, 110u8]
}

/// The bytes of the field name `mods`.
pub open spec fn k_mods() -> Seq<u8> {
    seq![109u8, 111u8, 100u8, 115u8]
}

/// The bytes of the field name `name`.
pub open spec fn k_name() -> Seq<u8> {
    seq![110u8, 97u8, 109u8, 101u8]
}

/// The tree of the entries from index `i` on: each fingerprint spelled in
/// uppercase hex keys an object holding the mod's name.
pub open spec fn spec_cache_entries(mods: Seq<(Md5Digest, Mod)>, i: int) -> Seq<
    (Seq<u8>, crate::json::SpecJson),
>
    decreases mods.len() - i,
{
    if i < 0 || i >= mods.len() {
        Seq::empty()
    } else {
        seq![
            (
                text::spec_hex_upper(mods[i].0@),
                crate::json::SpecJson::Obj(
                    seq![
                        (
                            k_name(),
                            crate::json::SpecJson::Str(text::bytes_of_chars(mods[i].1.name@)),
                        ),
                    ],
                ),
            ),
        ] + spec_cache_entries(mods, i + 1)
    }
}

/// The whole cache tree: the format version, then the fingerprint map.
pub open spec fn spec_cache_json(c: ModCache) -> crate::json::SpecJson {
    crate::json::SpecJson::Obj(
        seq![
            (k_version(), crate::json::SpecJson::Num(c.version as u64)),
            (k_mods(), crate::json::SpecJson::Obj(spec_cache_entries(c.mods@, 0))),
        ],
    )
}

/// The persisted bytes of the cache.
pub open spec fn spec_cache_bytes(c: ModCache) -> Seq<u8> {
    crate::json::spec_emit(spec_cache_json(c))
}

/// Printable names throughout the cache.
pub open spec fn cache_text_wf(c: ModCache) -> bool {
    &&& c.wf()
    &&& forall|i: int|
        0 <= i < c.mods@.len() ==> crate::json::chars_wf((#[trigger] c.mods@[i]).1.name@)
}

/// The digest a persisted entry's key spells, if any.
pub open spec fn key_digest(e: (String, crate::json::Json)) -> Option<Seq<u8>> {
    text::spec_hex_decode(vstd::utf8::encode_utf8(e.0@))
}

/// What a persisted entry must hold: a 32-digit hex key and an object
/// naming the mod.
pub open spec fn entry_tree_ok(e: (String, crate::json::Json)) -> bool {
    &&& key_digest(e) matches Some(b) && b.len() == 16
    &&& e.1 matches crate::json::Json::Obj(inner)
        && crate::srf_json::spec_obj_get(inner@, k_name()) matches Some(crate::json::Json::Str(_))
}

/// What the whole persisted cache must hold: a `version` number that fits
/// and a `mods` object of well-formed entries.
pub open spec fn tree_cache_ok(j: crate::json::Json) -> bool {
    &&& j matches crate::json::Json::Obj(ms)
    &&& (j matches crate::json::Json::Obj(ms) ==> {
        &&& crate::srf_json::spec_obj_get(ms@, k_version()) matches Some(
            crate::json::Json::Num(n),
        ) && n <= u32::MAX
        &&& crate::srf_json::spec_obj_get(ms@, k_mods()) matches Some(
            crate::json::Json::Obj(entries),
        ) && (forall|k: int| 0 <= k < entries@.len() ==> entry_tree_ok(#[trigger] entries@[k]))
    })
}

/// The cache read from a persisted tree: the version is carried over and
/// the key set is exactly the digests the entry keys spell.
pub open spec fn cache_matches_tree(c: ModCache, j: crate::json::Json) -> bool {
    j matches crate::json::Json::Obj(ms) ==> {
        &&& (crate::srf_json::spec_obj_get(ms@, k_version()) matches Some(
            crate::json::Json::Num(n),
        ) ==> c.version == n as u32)
        &&& (crate::srf_json::spec_obj_get(ms@, k_mods()) matches Some(
            crate::json::Json::Obj(entries),
        ) ==> (forall|d: Seq<u8>|
            #[trigger] c.spec_contains(d) <==> exists|k: int|
                0 <= k < entries@.len() && key_digest(#[trigger] entries@[k]) == Some(d)))
    }
}

/// Caches equal field for field.
pub open spec fn cache_eq(a: ModCache, b: ModCache) -> bool {
    &&& a.version == b.version
    &&& a.mods@.len() == b.mods@.len()
    &&& forall|i: int|
        0 <= i < a.mods@.len() ==> (#[trigger] a.mods@[i]).0@ == b.mods@[i].0@ && a.mods@[i].1.name@
            == b.mods@[i].1.name@
}

/// One persisted entry pinned down: the key reads as this fingerprint and
/// the value names this mod.
pub open spec fn entry_exact(e: (String, crate::json::Json), d: Seq<u8>, name: Seq<char>) -> bool {
    &&& text::spec_hex_decode(vstd::utf8::encode_utf8(e.0@)) == Some(d)
    &&& e.1 matches crate::json::Json::Obj(inner) && (crate::srf_json::spec_obj_get(
        inner@,
        k_name(),
    ) matches Some(crate::json::Json::Str(s)) && s@ == name)
}

/// A well-formed cache maps to a well-formed tree.
proof fn lemma_cache_json_wf(c: ModCache)
    requires
        cache_text_wf(c),
    ensures
        crate::json::spec_json_wf(spec_cache_json(c)),
{
    let sms = spec_cache_json(c)->Obj_0;
    lemma_cache_entries_index(c.mods@, 0);
    assert forall|i: int|
        0 <= i < sms.len() implies crate::json::str_wf((#[trigger] sms[i]).0)
        && crate::json::spec_json_wf(sms[i].1) by {
        if i == 1 {
            let entries = sms[1].1->Obj_0;
            assert forall|k: int|
                0 <= k < entries.len() implies crate::json::str_wf((#[trigger] entries[k]).0)
                && crate::json::spec_json_wf(entries[k].1) by {
                assert forall|q: int|
                    0 <= q < text::spec_hex_upper(c.mods@[k].0@).len() implies 32
                    <= #[trigger] text::spec_hex_upper(c.mods@[k].0@)[q] <= 126 by {
                    crate::srf_json::lemma_hex_upper_range(c.mods@[k].0@, q);
                }
                let inner = entries[k].1->Obj_0;
                assert forall|w: int|
                    0 <= w < inner.len() implies crate::json::str_wf((#[trigger] inner[w]).0)
                    && crate::json::spec_json_wf(inner[w].1) by {
                    assert(crate::json::chars_wf(c.mods@[k].1.name@));
                    assert forall|q: int|
                        0 <= q < c.mods@[k].1.name@.len() implies 32 <= #[trigger] text::bytes_of_chars(
                        c.mods@[k].1.name@,
                    )[q] <= 126 by {
                        assert(' ' <= c.mods@[k].1.name@[q] <= '~');
                    }
                }
            }
        }
    }
}

/// What a tree matched against a cache's own tree pins down.
proof fn lemma_cache_exact(tree: crate::json::Json, c: ModCache)
    requires
        cache_text_wf(c),
        crate::json::json_matches(tree, spec_cache_json(c)),
    ensures
        tree matches crate::json::Json::Obj(_),
        crate::srf_json::spec_obj_get(tree->Obj_0@, k_version()) == Some(
            crate::json::Json::Num(c.version as u64),
        ),
        crate::srf_json::spec_obj_get(tree->Obj_0@, k_mods()) matches Some(
            crate::json::Json::Obj(v),
        ) && v@.len() == c.mods@.len() && (forall|k: int|
            0 <= k < v@.len() ==> entry_exact(
                #[trigger] v@[k],
                c.mods@[k].0@,
                c.mods@[k].1.name@,
            )),
{
    reveal_with_fuel(crate::srf_json::spec_obj_get, 4);
    let sms = spec_cache_json(c)->Obj_0;
    let msv = tree->Obj_0@;
    assert(msv.len() == 2);
    assert(crate::json::str_matches(msv[0].0@, k_version()));
    assert(crate::json::str_matches(msv[1].0@, k_mods()));
    crate::srf_json::lemma_key_encodes(msv[0].0@, k_version());
    crate::srf_json::lemma_key_encodes(msv[1].0@, k_mods());
    assert(msv.drop_first()[0] == msv[1]);
    assert(crate::srf_json::spec_obj_get(msv, k_version()) == Some(msv[0].1));
    assert(crate::srf_json::spec_obj_get(msv, k_mods()) == Some(msv[1].1));
    assert(crate::json::json_matches(msv[0].1, sms[0].1));
    assert(crate::json::json_matches(msv[1].1, sms[1].1));
    let v = msv[1].1->Obj_0;
    let sv = sms[1].1->Obj_0;
    lemma_cache_entries_index(c.mods@, 0);
    assert(v@.len() == c.mods@.len());
    assert forall|k: int| 0 <= k < v@.len() implies entry_exact(
        #[trigger] v@[k],
        c.mods@[k].0@,
        c.mods@[k].1.name@,
    ) by {
        assert(crate::json::str_matches(v@[k].0@, sv[k].0));
        assert(sv[k].0 == text::spec_hex_upper(c.mods@[k].0@));
        text::lemma_hex_upper_len(c.mods@[k].0@);
        crate::srf_json::lemma_key_encodes(v@[k].0@, text::spec_hex_upper(c.mods@[k].0@));
        text::lemma_hex_round_trip(c.mods@[k].0@);
        assert(crate::json::json_matches(v@[k].1, sv[k].1));
        let inner = v@[k].1->Obj_0;
        let sinner = sv[k].1->Obj_0;
        assert(inner@.len() == 1);
        assert(crate::json::str_matches(inner@[0].0@, k_name()));
        crate::srf_json::lemma_key_encodes(inner@[0].0@, k_name());
        assert(crate::srf_json::spec_obj_get(inner@, k_name()) == Some(inner@[0].1));
        assert(crate::json::json_matches(inner@[0].1, sinner[0].1));
        let s = inner@[0].1->Str_0;
        assert(crate::json::str_matches(s@, text::bytes_of_chars(c.mods@[k].1.name@)));
        crate::json::lemma_chars_wf_ascii(c.mods@[k].1.name@);
        text::lemma_ascii_chars_bytes_inverse(c.mods@[k].1.name@);
        assert(s@ == c.mods@[k].1.name@);
    }
}

impl ModCache {
    /// Spells the cache out in its persistent JSON form.
    pub fn to_bytes(&self) -> (r: Vec<u8>)
        requires
            cache_text_wf(*self),
        ensures
            r@ == spec_cache_bytes(*self),
    {
        proof {
            reveal_strlit("version");
            reveal_strlit("mods");
            reveal_strlit("name");
        }
        let mut entries: Vec<(String, crate::json::Json)> = Vec::new();
        let mut i: usize = 0;
        while i < self.mods.len()
            invariant
                cache_text_wf(*self),
                0 <= i <= self.mods@.len(),
                entries@.len() == i,
                forall|k: int|
                    0 <= k < i ==> {
                        &&& text::bytes_of_chars((#[trigger] entries@[k]).0@)
                            == text::spec_hex_upper(self.mods@[k].0@)
                        &&& crate::json::chars_wf(entries@[k].0@)
                        &&& crate::json::view_json(entries@[k].1) == spec_cache_entries(
                            self.mods@,
                            0,
                        )[k].1
                        &&& crate::json::json_wf(entries@[k].1)
                    },
            decreases self.mods@.len() - i,
        {
            let pair = &self.mods[i];
            let hex = text::hex_upper(pair.0.as_bytes().as_slice());
            let key = text::lossy_string(hex.as_slice());
            let mut inner: Vec<(String, crate::json::Json)> = Vec::new();
            inner.push((String::from_str("name"), crate::json::Json::Str(pair.1.name.clone())));
            let value = crate::json::Json::Obj(inner);
            proof {
                reveal_strlit("name");
                text::lemma_ascii_bytes_chars_inverse(text::spec_hex_upper(pair.0@));
                let msv = value->Obj_0@;
                crate::json::lemma_view_members_index(msv, 0);
                assert(text::bytes_of_chars(msv[0].0@) =~= k_name());
                lemma_cache_entries_index(self.mods@, 0);
                assert(crate::json::view_members(msv, 0) =~= spec_cache_entries(
                    self.mods@,
                    0,
                )[i as int].1->Obj_0);
                assert forall|q: int|
                    0 <= q < msv.len() implies crate::json::chars_wf((#[trigger] msv[q]).0@)
                    && crate::json::json_wf(msv[q].1) by {
                    assert(crate::json::chars_wf(msv[0].0@));
                    assert(crate::json::json_wf(msv[0].1));
                }
                assert forall|q: int| 0 <= q < hex@.len() implies ' ' <= #[trigger] key@[q]
                    <= '~' by {
                    crate::srf_json::lemma_hex_upper_range(pair.0@, q);
                    assert(key@[q] == hex@[q] as char);
                }
            }
            entries.push((key, value));
            i = i + 1;
        }
        let mut ms: Vec<(String, crate::json::Json)> = Vec::new();
        ms.push((String::from_str("version"), crate::json::Json::Num(u32_as_u64(self.version))));
        ms.push((String::from_str("mods"), crate::json::Json::Obj(entries)));
        let tree = crate::json::Json::Obj(ms);
        let mut out: Vec<u8> = Vec::new();
        proof {
            let msv = tree->Obj_0@;
            crate::json::lemma_view_members_index(msv, 0);
            assert(text::bytes_of_chars(msv[0].0@) =~= k_version());
            assert(text::bytes_of_chars(msv[1].0@) =~= k_mods());
            let inner = msv[1].1->Obj_0@;
            crate::json::lemma_view_members_index(inner, 0);
            lemma_cache_entries_index(self.mods@, 0);
            assert forall|k: int|
                0 <= k < inner.len() implies crate::json::view_members(inner, 0)[k]
                == spec_cache_entries(self.mods@, 0)[k] by {
                assert(crate::json::view_members(inner, 0)[k] == (
                    text::bytes_of_chars(inner[k].0@),
                    crate::json::view_json(inner[k].1),
                ));
            }
            assert(crate::json::view_members(inner, 0) =~= spec_cache_entries(self.mods@, 0));
            assert(crate::json::view_members(msv, 0) =~= spec_cache_json(*self)->Obj_0);
            assert(crate::json::view_json(tree) == spec_cache_json(*self));
            assert forall|q: int|
                0 <= q < msv.len() implies crate::json::chars_wf((#[trigger] msv[q]).0@)
                && crate::json::json_wf(msv[q].1) by {
                if q == 0 {
                    assert(crate::json::chars_wf(msv[0].0@));
                } else {
                    assert(crate::json::chars_wf(msv[1].0@));
                    assert(crate::json::json_wf(msv[1].1));
                }
            }
            assert(crate::json::json_wf(tree));
        }
        crate::json::emit_json(&tree, &mut out);
        proof {
            assert(Seq::<u8>::empty() + crate::json::spec_emit(spec_cache_json(*self))
                =~= crate::json::spec_emit(spec_cache_json(*self)));
        }
        out
    }

    /// Reads a cache back from its persistent JSON form: a `version`
    /// number and a map of hex fingerprints to named entries. Anything
    /// else is a `Deserialization` error. Reading back what
    /// [`ModCache::to_bytes`] wrote returns the written cache, entry for
    /// entry.
    #[verifier::rlimit(100)]
    pub fn from_bytes(input: &[u8]) -> (r: Result<ModCache, Error>)
        ensures
            r matches Ok(c) ==> c.wf(),
            forall|c: ModCache|
                #[trigger] cache_text_wf(c) && input@ == spec_cache_bytes(c) ==> (r matches Ok(c2)
                    && cache_eq(c2, c)),
            r matches Ok(c) ==> exists|j: crate::json::Json|
                {
                    &&& #[trigger] tree_cache_ok(j)
                    &&& cache_matches_tree(c, j)
                    &&& crate::json::spec_parse_json(input@) matches Some(sj)
                        && crate::json::json_matches(j, sj)
                },
            r is Err ==> (crate::json::spec_parse_json(input@) is None || exists|
                j: crate::json::Json,
            |
                {
                    &&& !#[trigger] tree_cache_ok(j)
                    &&& crate::json::spec_parse_json(input@) matches Some(sj)
                        && crate::json::json_matches(j, sj)
                }),
    {
        let tree = match crate::json::parse_json(input) {
            Some(j) => j,
            None => {
                proof {
                    assert forall|c: ModCache|
                        #[trigger] cache_text_wf(c) && input@ == spec_cache_bytes(
                            c,
                        ) implies false by {
                        lemma_cache_json_wf(c);
                        crate::json::lemma_parse_emit(spec_cache_json(c));
                    }
                }
                return Err(Error::Deserialization);
            },
        };
        let ms = match &tree {
            crate::json::Json::Obj(ms) => ms,
            _ => {
                proof {
                    assert forall|c: ModCache|
                        #[trigger] cache_text_wf(c) && input@ == spec_cache_bytes(
                            c,
                        ) implies false by {
                        lemma_cache_json_wf(c);
                        crate::json::lemma_parse_emit(spec_cache_json(c));
                    }
                    assert(!tree_cache_ok(tree));
                }
                return Err(Error::Deserialization);
            },
        };
        proof {
            reveal_strlit("version");
            reveal_strlit("mods");
            reveal_strlit("name");
            assert(text::bytes_of_chars("version"@) =~= k_version());
            assert(text::bytes_of_chars("mods"@) =~= k_mods());
        }
        let version64 = match crate::srf_json::obj_get(ms, text::str_bytes("version").as_slice()) {
            Some(crate::json::Json::Num(n)) => *n,
            _ => {
                proof {
                    assert forall|c: ModCache|
                        #[trigger] cache_text_wf(c) && input@ == spec_cache_bytes(
                            c,
                        ) implies false by {
                        lemma_cache_json_wf(c);
                        crate::json::lemma_parse_emit(spec_cache_json(c));
                        lemma_cache_exact(tree, c);
                    }
                    assert(!tree_cache_ok(tree));
                }
                return Err(Error::Deserialization);
            },
        };
        if version64 > 0xffff_ffff {
            proof {
                assert forall|c: ModCache|
                    #[trigger] cache_text_wf(c) && input@ == spec_cache_bytes(c) implies false by {
                    lemma_cache_json_wf(c);
                    crate::json::lemma_parse_emit(spec_cache_json(c));
                    lemma_cache_exact(tree, c);
                }
                assert(!tree_cache_ok(tree));
            }
            return Err(Error::Deserialization);
        }
        let entries = match crate::srf_json::obj_get(ms, text::str_bytes("mods").as_slice()) {
            Some(crate::json::Json::Obj(v)) => v,
            _ => {
                proof {
                    assert forall|c: ModCache|
                        #[trigger] cache_text_wf(c) && input@ == spec_cache_bytes(
                            c,
                        ) implies false by {
                        lemma_cache_json_wf(c);
                        crate::json::lemma_parse_emit(spec_cache_json(c));
                        lemma_cache_exact(tree, c);
                    }
                    assert(!tree_cache_ok(tree));
                }
                return Err(Error::Deserialization);
            },
        };
        let mut cache = ModCache { version: version64 as u32, mods: Vec::new() };
        proof {
            if tree_cache_ok(tree) {
                assert forall|k: int| 0 <= k < entries@.len() implies entry_tree_ok(
                    #[trigger] entries@[k],
                ) by {}
            }
            assert forall|c: ModCache|
                #[trigger] cache_text_wf(c) && input@ == spec_cache_bytes(c) implies (
            entries@.len() == c.mods@.len() && (forall|k: int|
                0 <= k < entries@.len() ==> entry_exact(
                    #[trigger] entries@[k],
                    c.mods@[k].0@,
                    c.mods@[k].1.name@,
                )) && cache.version == c.version) by {
                lemma_cache_json_wf(c);
                crate::json::lemma_parse_emit(spec_cache_json(c));
                lemma_cache_exact(tree, c);
            }
        }
        let mut i: usize = 0;
        while i < entries.len()
            invariant
                crate::json::spec_parse_json(input@) matches Some(sj)
                    && crate::json::json_matches(tree, sj),
                tree_cache_ok(tree) ==> (forall|k: int|
                    0 <= k < entries@.len() ==> entry_tree_ok(#[trigger] entries@[k])),
                forall|d: Seq<u8>|
                    #[trigger] cache.spec_contains(d) <==> exists|k: int|
                        0 <= k < i && key_digest(#[trigger] entries@[k]) == Some(d),
                forall|k: int| 0 <= k < i ==> entry_tree_ok(#[trigger] entries@[k]),
                cache.version == version64 as u32,
                version64 <= u32::MAX,
                cache.wf(),
                0 <= i <= entries@.len(),
                forall|c: ModCache|
                    #[trigger] cache_text_wf(c) && input@ == spec_cache_bytes(c) ==> {
                        &&& entries@.len() == c.mods@.len()
                        &&& (forall|k: int|
                            0 <= k < entries@.len() ==> entry_exact(
                                #[trigger] entries@[k],
                                c.mods@[k].0@,
                                c.mods@[k].1.name@,
                            ))
                        &&& cache.version == c.version
                        &&& cache.mods@.len() == i
                        &&& (forall|k: int|
                            0 <= k < i ==> (#[trigger] cache.mods@[k]).0@ == c.mods@[k].0@
                                && cache.mods@[k].1.name@ == c.mods@[k].1.name@)
                    },
            decreases entries@.len() - i,
        {
            let pair = &entries[i];
            let digest_bytes = match text::hex_decode(pair.0.as_str().as_bytes()) {
                Some(v) => v,
                None => {
                    proof {
                        assert forall|c: ModCache|
                            #[trigger] cache_text_wf(c) && input@ == spec_cache_bytes(
                                c,
                            ) implies false by {
                            assert(entry_exact(entries@[i as int], c.mods@[i as int].0@, c.mods@[
                                i as int].1.name@));
                        }
                        assert(!entry_tree_ok(entries@[i as int]));
                        assert(!tree_cache_ok(tree));
                    }
                    return Err(Error::Deserialization);
                },
            };
            if digest_bytes.len() != 16 {
                proof {
                    assert forall|c: ModCache|
                        #[trigger] cache_text_wf(c) && input@ == spec_cache_bytes(
                            c,
                        ) implies false by {
                        assert(entry_exact(entries@[i as int], c.mods@[i as int].0@, c.mods@[
                            i as int].1.name@));
                    }
                    assert(!entry_tree_ok(entries@[i as int]));
                    assert(!tree_cache_ok(tree));
                }
                return Err(Error::Deserialization);
            }
            let digest = Md5Digest::from_vec(digest_bytes);
            let name = match &pair.1 {
                crate::json::Json::Obj(inner) => {
                    proof {
                        reveal_strlit("name");
                        assert(text::bytes_of_chars("name"@) =~= k_name());
                    }
                    match crate::srf_json::obj_get(inner, text::str_bytes("name").as_slice()) {
                        Some(crate::json::Json::Str(s)) => s.clone(),
                        _ => {
                            proof {
                                assert forall|c: ModCache|
                                    #[trigger] cache_text_wf(c) && input@ == spec_cache_bytes(
                                        c,
                                    ) implies false by {
                                    assert(entry_exact(entries@[i as int], c.mods@[i as int].0@,
                                    c.mods@[i as int].1.name@));
                                }
                                assert(!entry_tree_ok(entries@[i as int]));
                                assert(!tree_cache_ok(tree));
                            }
                            return Err(Error::Deserialization);
                        },
                    }
                },
                _ => {
                    proof {
                        assert forall|c: ModCache|
                            #[trigger] cache_text_wf(c) && input@ == spec_cache_bytes(
                                c,
                            ) implies false by {
                            assert(entry_exact(entries@[i as int], c.mods@[i as int].0@, c.mods@[
                                i as int].1.name@));
                        }
                        assert(!entry_tree_ok(entries@[i as int]));
                        assert(!tree_cache_ok(tree));
                    }
                    return Err(Error::Deserialization);
                },
            };
            proof {
                assert(entry_tree_ok(entries@[i as int]));
            }
            let ghost before = cache;
            cache.insert_entry(digest, Mod { name });
            proof {
                assert(key_digest(entries@[i as int]) == Some(digest@));
                assert forall|d: Seq<u8>| #[trigger] cache.spec_contains(d) implies exists|k: int|
                    0 <= k < i + 1 && key_digest(#[trigger] entries@[k]) == Some(d) by {
                    if d == digest@ {
                        assert(key_digest(entries@[i as int]) == Some(d));
                    }
                }
                assert forall|d: Seq<u8>|
                    (exists|k: int| 0 <= k < i + 1 && key_digest(#[trigger] entries@[k]) == Some(d))
                        implies #[trigger] cache.spec_contains(d) by {}
                assert forall|c: ModCache|
                    #[trigger] cache_text_wf(c) && input@ == spec_cache_bytes(c) implies (
                cache.mods@.len() == i + 1 && (forall|k: int|
                    0 <= k < i + 1 ==> (#[trigger] cache.mods@[k]).0@ == c.mods@[k].0@
                        && cache.mods@[k].1.name@ == c.mods@[k].1.name@)) by {
                    assert(entry_exact(entries@[i as int], c.mods@[i as int].0@, c.mods@[
                        i as int].1.name@));
                    assert(digest@ == c.mods@[i as int].0@);
                    assert(!before.spec_contains(digest@)) by {
                        if before.spec_contains(digest@) {
                            let k = choose|k: int|
                                0 <= k < before.mods@.len() && (#[trigger] before.mods@[k]).0@
                                    == digest@;
                            assert(c.mods@[k].0@ == c.mods@[i as int].0@);
                        }
                    };
                    assert(cache.mods@ == before.mods@.push((digest, Mod { name })));
                }
            }
            i = i + 1;
        }
        proof {
            assert forall|c: ModCache|
                #[trigger] cache_text_wf(c) && input@ == spec_cache_bytes(c) implies cache_eq(
                cache,
                c,
            ) by {}
            assert(tree_cache_ok(tree));
            assert(cache_matches_tree(cache, tree));
        }
        Ok(cache)
    }
}

/// Equal caches persist to the same bytes: re-saving an unchanged cache
/// is byte-stable.
pub proof fn lemma_cache_bytes_stable(a: ModCache, b: ModCache)
    requires
        cache_eq(a, b),
    ensures
        spec_cache_bytes(a) == spec_cache_bytes(b),
{
    lemma_cache_entries_index(a.mods@, 0);
    lemma_cache_entries_index(b.mods@, 0);
    assert(spec_cache_entries(a.mods@, 0) =~~= spec_cache_entries(b.mods@, 0)) by {
        assert forall|k: int|
            0 <= k < a.mods@.len() implies spec_cache_entries(a.mods@, 0)[k] == spec_cache_entries(
            b.mods@,
            0,
        )[k] by {
            assert((#[trigger] a.mods@[k]).0@ == b.mods@[k].0@);
            assert(a.mods@[k].1.name@ == b.mods@[k].1.name@);
        }
    };
    assert(spec_cache_json(a)->Obj_0 =~~= spec_cache_json(b)->Obj_0);
    assert(spec_cache_json(a) == spec_cache_json(b));
}

pub proof fn lemma_cache_entries_index(mods: Seq<(Md5Digest, Mod)>, i: int)
    requires
        0 <= i <= mods.len(),
    ensures
        spec_cache_entries(mods, i).len() == mods.len() - i,
        forall|k: int|
            i <= k < mods.len() ==> spec_cache_entries(mods, i)[k - i] == (
            text::spec_hex_upper((#[trigger] mods[k]).0@),
            crate::json::SpecJson::Obj(
                seq![(k_name(), crate::json::SpecJson::Str(text::bytes_of_chars(mods[k].1.name@)))],
            ),
            ),
    decreases mods.len() - i,
{
    if i < mods.len() {
        lemma_cache_entries_index(mods, i + 1);
    }
}

/// Widens the version field.
fn u32_as_u64(v: u32) -> (r: u64)
    ensures
        r == v,
{
    v as u64
}

} // verus!
