//! The two-level differ that plans a sync: which mods to look at, and
//! which files of a mod to download or delete. Fetching, deleting and
//! downloading are the caller's business; everything here is a pure
//! decision over the manifests and the cache.

use vstd::prelude::*;
use crate::md5_digest::Md5Digest;
use crate::mod_cache::ModCache;
use crate::repository;
use crate::srf;
use crate::text;

verus! {

/// One planned download. `begin` and `end` are reserved for intra-file
/// ranges; the plan currently always covers the whole file, `0..length`.
#[derive(Debug)]
pub struct DownloadCommand {
    pub file: String,
    pub begin: u64,
    pub end: u64,
}

/// Whether the cache already holds the content this checksum text names:
/// the text must read as a 16-byte digest that is a key of the cache.
pub open spec fn known_to_cache(cache: ModCache, checksum: Seq<char>) -> bool {
    match text::spec_hex_decode(vstd::utf8::encode_utf8(checksum)) {
        Some(d) => d.len() == 16 && cache.spec_contains(d),
        None => false,
    }
}

/// The candidates a repository-level diff reports, in manifest order:
/// every required mod whose checksum is not a key of the cache. The
/// repository's own checksum is never consulted.
pub open spec fn spec_candidates(cache: ModCache, mods: Seq<repository::Mod>) -> Seq<
    repository::Mod,
> {
    mods.filter(|m: repository::Mod| !known_to_cache(cache, m.checksum@))
}

/// Repository-level mods equal field for field.
pub open spec fn rmod_eq(a: repository::Mod, b: repository::Mod) -> bool {
    &&& a.mod_name@ == b.mod_name@
    &&& a.checksum@ == b.checksum@
    &&& a.enabled == b.enabled
}

/// Plans the repository-level diff: the required mods whose checksums the
/// cache does not know, in manifest order. Optional mods are ignored.
pub fn diff_repo(mod_cache: &ModCache, remote_repo: &repository::Repository) -> (r: Vec<
    repository::Mod,
>)
    ensures
        r@.len() == spec_candidates(*mod_cache, remote_repo.required_mods@).len(),
        forall|j: int|
            0 <= j < r@.len() ==> rmod_eq(
                #[trigger] r@[j],
                spec_candidates(*mod_cache, remote_repo.required_mods@)[j],
            ),
{
    let ghost pred = |m: repository::Mod| !known_to_cache(*mod_cache, m.checksum@);
    let mut downloads: Vec<repository::Mod> = Vec::new();
    let mut i: usize = 0;
    proof {
        reveal(Seq::filter);
        assert(remote_repo.required_mods@.take(0).filter(pred) =~= Seq::<
            repository::Mod,
        >::empty());
    }
    while i < remote_repo.required_mods.len()
        invariant
            pred == (|m: repository::Mod| !known_to_cache(*mod_cache, m.checksum@)),
            0 <= i <= remote_repo.required_mods@.len(),
            downloads@.len() == remote_repo.required_mods@.take(i as int).filter(pred).len(),
            forall|j: int|
                0 <= j < downloads@.len() ==> rmod_eq(
                    #[trigger] downloads@[j],
                    remote_repo.required_mods@.take(i as int).filter(pred)[j],
                ),
        decreases remote_repo.required_mods@.len() - i,
    {
        let m = &remote_repo.required_mods[i];
        let known = match Md5Digest::new(m.checksum.as_str()) {
            Ok(d) => mod_cache.contains_key(&d),
            Err(_) => false,
        };
        proof {
            assert(known == known_to_cache(*mod_cache, m.checksum@));
        }
        if !known {
            downloads.push(m.clone());
        }
        proof {
            reveal(Seq::filter);
            let t = remote_repo.required_mods@.take(i as int + 1);
            assert(t.drop_last() =~= remote_repo.required_mods@.take(i as int));
            assert(t.last() == remote_repo.required_mods@[i as int]);
        }
        i = i + 1;
    }
    proof {
        assert(remote_repo.required_mods@.take(remote_repo.required_mods@.len() as int)
            =~= remote_repo.required_mods@);
    }
    downloads
}

/// The last file under a path wins, as a map built by insertion would
/// have it.
pub open spec fn spec_file_lookup(files: Seq<srf::File>, path: Seq<char>) -> Option<srf::File>
    decreases files.len(),
{
    if files.len() == 0 {
        None
    } else if files.last().path@ == path {
        Some(files.last())
    } else {
        spec_file_lookup(files.drop_last(), path)
    }
}

/// Whether index `i` holds the last occurrence of its path.
pub open spec fn is_last_occurrence(files: Seq<srf::File>, i: int) -> bool {
    forall|j: int| i < j < files.len() ==> (#[trigger] files[j]).path@ != files[i].path@
}

/// Whether remote file `i` must be downloaded: it stands for its path,
/// and the local manifest misses that path or carries another checksum.
pub open spec fn needs_download(remote: Seq<srf::File>, local: Seq<srf::File>, i: int) -> bool {
    &&& 0 <= i < remote.len()
    &&& is_last_occurrence(remote, i)
    &&& match spec_file_lookup(local, remote[i].path@) {
        Some(lf) => lf.checksum@ != remote[i].checksum@,
        None => true,
    }
}

/// Whether local file `i` is stale: it stands for its path, and no remote
/// file carries that path.
pub open spec fn needs_delete(local: Seq<srf::File>, remote: Seq<srf::File>, i: int) -> bool {
    &&& 0 <= i < local.len()
    &&& is_last_occurrence(local, i)
    &&& forall|j: int| 0 <= j < remote.len() ==> (#[trigger] remote[j]).path@ != local[i].path@
}

/// The command a remote file turns into: `<mod name>/<path>`, whole file.
pub open spec fn command_matches(c: DownloadCommand, name: Seq<char>, f: srf::File) -> bool {
    &&& c.file@ == name + seq!['/'] + f.path@
    &&& c.begin == 0
    &&& c.end == f.length
}

/// The downloads and deletions of one mod-level diff, in manifest order.
pub open spec fn diff_mod_post(
    remote: srf::Mod,
    local: srf::Mod,
    downloads: Seq<DownloadCommand>,
    deletions: Seq<String>,
) -> bool {
    &&& (local.checksum@ == remote.checksum@ ==> downloads.len() == 0 && deletions.len() == 0)
    &&& (local.checksum@ != remote.checksum@ ==> {
        &&& exists|picks: Seq<int>| #[trigger] picks_downloads(remote, local, downloads, picks)
        &&& exists|picks: Seq<int>| #[trigger] picks_deletions(remote, local, deletions, picks)
    })
}

/// `picks` lists, in increasing order, exactly the remote indices that
/// need downloading, and `downloads` spells each one out.
pub open spec fn picks_downloads(
    remote: srf::Mod,
    local: srf::Mod,
    downloads: Seq<DownloadCommand>,
    picks: Seq<int>,
) -> bool {
    &&& picks.len() == downloads.len()
    &&& forall|j: int|
        0 <= j < picks.len() ==> needs_download(remote.files@, local.files@, #[trigger] picks[j])
            && command_matches(downloads[j], remote.name@, remote.files@[picks[j]])
    &&& forall|j1: int, j2: int| 0 <= j1 < j2 < picks.len() ==> picks[j1] < picks[j2]
    &&& forall|i: int|
        needs_download(remote.files@, local.files@, i) ==> exists|j: int|
            0 <= j < picks.len() && #[trigger] picks[j] == i
}

/// `picks` lists, in increasing order, exactly the local indices that are
/// stale, and `deletions` carries each path.
pub open spec fn picks_deletions(
    remote: srf::Mod,
    local: srf::Mod,
    deletions: Seq<String>,
    picks: Seq<int>,
) -> bool {
    &&& picks.len() == deletions.len()
    &&& forall|j: int|
        0 <= j < picks.len() ==> needs_delete(local.files@, remote.files@, #[trigger] picks[j])
            && deletions[j]@ == local.files@[picks[j]].path@
    &&& forall|j1: int, j2: int| 0 <= j1 < j2 < picks.len() ==> picks[j1] < picks[j2]
    &&& forall|i: int|
        needs_delete(local.files@, remote.files@, i) ==> exists|j: int|
            0 <= j < picks.len() && #[trigger] picks[j] == i
}

/// Looks a path up among files, last occurrence winning.
fn file_lookup<'a>(files: &'a Vec<srf::File>, path: &str) -> (r: Option<&'a srf::File>)
    ensures
        match r {
            Some(f) => spec_file_lookup(files@, path@) matches Some(sf) && *f == sf,
            None => spec_file_lookup(files@, path@) is None,
        },
{
    let mut i: usize = files.len();
    proof {
        assert(files@.take(files@.len() as int) =~= files@);
    }
    loop
        invariant
            0 <= i <= files@.len(),
            spec_file_lookup(files@, path@) == spec_file_lookup(files@.take(i as int), path@),
        decreases i,
    {
        if i == 0 {
            proof {
                assert(files@.take(0) =~= Seq::<srf::File>::empty());
            }
            return None;
        }
        proof {
            let t = files@.take(i as int);
            assert(t.last() == files@[i - 1]);
            assert(t.drop_last() =~= files@.take(i as int - 1));
        }
        let f = &files[i - 1];
        if text::string_eq(f.path.as_str(), path) {
            return Some(f);
        }
        i = i - 1;
    }
}

/// Whether index `i` holds the last occurrence of its path.
fn last_occurrence(files: &Vec<srf::File>, i: usize) -> (r: bool)
    requires
        i < files@.len(),
    ensures
        r == is_last_occurrence(files@, i as int),
{
    let n = files.len();
    let mut j: usize = i + 1;
    while j < n
        invariant
            n == files@.len(),
            i < j <= files@.len(),
            forall|k: int| i < k < j ==> (#[trigger] files@[k]).path@ != files@[i as int].path@,
        decreases files@.len() - j,
    {
        if text::string_eq(files[j].path.as_str(), files[i].path.as_str()) {
            proof {
                assert(files@[j as int].path@ == files@[i as int].path@);
            }
            return false;
        }
        j = j + 1;
    }
    true
}

/// Builds the `<mod name>/<path>` target of a command.
fn command_path(name: &str, path: &str) -> (r: String)
    ensures
        r@ == name@ + seq!['/'] + path@,
{
    let mut out = String::new();
    out.append(name);
    out.append("/");
    out.append(path);
    proof {
        reveal_strlit("/");
        assert(Seq::<char>::empty() + name@ =~= name@);
        assert("/"@ =~= seq!['/']);
    }
    out
}

/// Plans one mod-level diff: nothing when the fingerprints agree; else a
/// download for every remote file that is missing locally or differs, and
/// a deletion for every local file the remote no longer lists.
pub fn diff_mod(remote_srf: &srf::Mod, local_srf: &srf::Mod) -> (r: (
    Vec<DownloadCommand>,
    Vec<String>,
))
    ensures
        diff_mod_post(*remote_srf, *local_srf, r.0@, r.1@),
{
    if local_srf.checksum.eq(&remote_srf.checksum) {
        return (Vec::new(), Vec::new());
    }
    let mut downloads: Vec<DownloadCommand> = Vec::new();
    let ghost mut dpicks: Seq<int> = Seq::empty();
    let mut i: usize = 0;
    while i < remote_srf.files.len()
        invariant
            0 <= i <= remote_srf.files@.len(),
            dpicks.len() == downloads@.len(),
            forall|j: int|
                0 <= j < dpicks.len() ==> needs_download(
                    remote_srf.files@,
                    local_srf.files@,
                    #[trigger] dpicks[j],
                ) && dpicks[j] < i && command_matches(
                    downloads@[j],
                    remote_srf.name@,
                    remote_srf.files@[dpicks[j]],
                ),
            forall|j1: int, j2: int| 0 <= j1 < j2 < dpicks.len() ==> dpicks[j1] < dpicks[j2],
            forall|k: int|
                0 <= k < i && needs_download(remote_srf.files@, local_srf.files@, k)
                    ==> exists|j: int| 0 <= j < dpicks.len() && #[trigger] dpicks[j] == k,
        decreases remote_srf.files@.len() - i,
    {
        let f = &remote_srf.files[i];
        if last_occurrence(&remote_srf.files, i) {
            let wanted = match file_lookup(&local_srf.files, f.path.as_str()) {
                Some(lf) => !text::string_eq(lf.checksum.as_str(), f.checksum.as_str()),
                None => true,
            };
            if wanted {
                let target = command_path(remote_srf.name.as_str(), f.path.as_str());
                downloads.push(DownloadCommand { file: target, begin: 0, end: f.length });
                proof {
                    let ghost old_dpicks = dpicks;
                    dpicks = dpicks.push(i as int);
                    assert forall|k2: int|
                        0 <= k2 < i + 1 && needs_download(
                            remote_srf.files@,
                            local_srf.files@,
                            k2,
                        ) implies exists|j: int|
                        0 <= j < dpicks.len() && #[trigger] dpicks[j] == k2 by {
                        if k2 == i {
                            assert(dpicks[dpicks.len() - 1] == k2);
                        } else {
                            let j = choose|j: int|
                                0 <= j < old_dpicks.len() && #[trigger] old_dpicks[j] == k2;
                            assert(dpicks[j] == k2);
                        }
                    }
                }
            } else {
                proof {
                    assert(!needs_download(remote_srf.files@, local_srf.files@, i as int));
                }
            }
        } else {
            proof {
                assert(!needs_download(remote_srf.files@, local_srf.files@, i as int));
            }
        }
        i = i + 1;
    }
    let mut deletions: Vec<String> = Vec::new();
    let ghost mut rpicks: Seq<int> = Seq::empty();
    let mut k: usize = 0;
    while k < local_srf.files.len()
        invariant
            0 <= k <= local_srf.files@.len(),
            rpicks.len() == deletions@.len(),
            forall|j: int|
                0 <= j < rpicks.len() ==> needs_delete(
                    local_srf.files@,
                    remote_srf.files@,
                    #[trigger] rpicks[j],
                ) && rpicks[j] < k && deletions@[j]@ == local_srf.files@[rpicks[j]].path@,
            forall|j1: int, j2: int| 0 <= j1 < j2 < rpicks.len() ==> rpicks[j1] < rpicks[j2],
            forall|q: int|
                0 <= q < k && needs_delete(local_srf.files@, remote_srf.files@, q) ==> exists|
                    j: int,
                | 0 <= j < rpicks.len() && #[trigger] rpicks[j] == q,
        decreases local_srf.files@.len() - k,
    {
        if last_occurrence(&local_srf.files, k) {
            let mut found = false;
            let mut j: usize = 0;
            while j < remote_srf.files.len()
                invariant
                    0 <= j <= remote_srf.files@.len(),
                    k < local_srf.files@.len(),
                    found <==> exists|q: int|
                        0 <= q < j && (#[trigger] remote_srf.files@[q]).path@ == local_srf.files@[
                            k as int
                        ].path@,
                decreases remote_srf.files@.len() - j,
            {
                if text::string_eq(
                    remote_srf.files[j].path.as_str(),
                    local_srf.files[k].path.as_str(),
                ) {
                    proof {
                        assert(remote_srf.files@[j as int].path@ == local_srf.files@[
                            k as int
                        ].path@);
                    }
                    found = true;
                }
                j = j + 1;
            }
            if !found {
                deletions.push(local_srf.files[k].path.clone());
                proof {
                    let ghost old_rpicks = rpicks;
                    rpicks = rpicks.push(k as int);
                    assert forall|q2: int|
                        0 <= q2 < k + 1 && needs_delete(
                            local_srf.files@,
                            remote_srf.files@,
                            q2,
                        ) implies exists|j2: int|
                        0 <= j2 < rpicks.len() && #[trigger] rpicks[j2] == q2 by {
                        if q2 == k {
                            assert(rpicks[rpicks.len() - 1] == q2);
                        } else {
                            let j2 = choose|j2: int|
                                0 <= j2 < old_rpicks.len() && #[trigger] old_rpicks[j2] == q2;
                            assert(rpicks[j2] == q2);
                        }
                    }
                }
            } else {
                proof {
                    let q = choose|q: int|
                        0 <= q < remote_srf.files@.len() && (#[trigger] remote_srf.files@[q]).path@
                            == local_srf.files@[k as int].path@;
                    assert(!needs_delete(local_srf.files@, remote_srf.files@, k as int));
                }
            }
        } else {
            proof {
                assert(!needs_delete(local_srf.files@, remote_srf.files@, k as int));
            }
        }
        k = k + 1;
    }
    proof {
        assert(picks_downloads(*remote_srf, *local_srf, downloads@, dpicks));
        assert(picks_deletions(*remote_srf, *local_srf, deletions@, rpicks));
    }
    (downloads, deletions)
}

/// A missing local mod stands in as the placeholder, and then every
/// remote file that stands for its path is downloaded, provided the
/// remote fingerprint is not itself the all-zero placeholder value.
pub proof fn lemma_placeholder_downloads_all(remote: srf::Mod, local: srf::Mod, i: int)
    requires
        local.files@.len() == 0,
        0 <= i < remote.files@.len(),
        is_last_occurrence(remote.files@, i),
    ensures
        needs_download(remote.files@, local.files@, i),
{
    assert(local.files@ =~= Seq::<srf::File>::empty());
    assert(spec_file_lookup(local.files@, remote.files@[i].path@) is None);
}

/// Once the cache knows every required fingerprint, a second diff plans
/// nothing: resyncing is idempotent.
pub proof fn lemma_resync_idempotent(cache: ModCache, mods: Seq<repository::Mod>)
    requires
        forall|i: int| 0 <= i < mods.len() ==> known_to_cache(cache, (#[trigger] mods[i]).checksum@),
    ensures
        spec_candidates(cache, mods).len() == 0,
    decreases mods.len(),
{
    reveal(Seq::filter);
    if mods.len() > 0 {
        assert(known_to_cache(cache, mods.last().checksum@));
        let tail = mods.drop_last();
        assert forall|i: int|
            0 <= i < tail.len() implies known_to_cache(
            cache,
            (#[trigger] tail[i]).checksum@,
        ) by {
            assert(tail[i] == mods[i]);
        }
        lemma_resync_idempotent(cache, tail);
    }
}

} // verus!
