use nimble::md5_digest::Md5Digest;
use nimble::mod_cache::ModCache;
use nimble::repository::{deserialize_number_from_string, parse_repository,
    replicate_remote_repo_info};
use nimble::srf::{File, FileType, Mod, Part};
use nimble::sync::{diff_mod, diff_repo};

const HEX_A: &str = "00112233445566778899AABBCCDDEEFF";
const HEX_B: &str = "FFEEDDCCBBAA99887766554433221100";

fn srf_mod(name: &str, hex: &str, files: Vec<File>) -> Mod {
    Mod { name: name.to_string(), checksum: Md5Digest::new(hex).unwrap(), files }
}

fn plain_file(path: &str, checksum: &str, length: u64) -> File {
    File {
        path: path.to_string(),
        length,
        checksum: checksum.to_string(),
        file_type: FileType::File,
        parts: vec![
            Part {
                path: format!("{}_{}", path, length),
                length,
                start: 0,
                checksum: checksum.to_string(),
            },
        ],
    }
}

fn repo_json(mods: &str) -> String {
    format!(
        "{{\"repoName\":\"main\",\"checksum\":\"OPAQUE\",\"requiredMods\":[{}],\
         \"optionalMods\":[],\"clientParameters\":\"-noSplash\",\"version\":\"1.0.0\",\
         \"servers\":[{{\"name\":\"srv\",\"address\":\"192.168.1.1\",\"port\":\"2302\",\
         \"password\":\"\",\"battleEye\":true}}]}}",
        mods
    )
}

fn rmod_json(name: &str, hex: &str) -> String {
    format!("{{\"modName\":\"{}\",\"checkSum\":\"{}\",\"enabled\":true}}", name, hex)
}

#[test]
fn repo_manifest_reads_back() {
    let text = repo_json(&format!("{},{}", rmod_json("@a", HEX_A), rmod_json("@b", HEX_B)));
    let repo = parse_repository(text.as_bytes()).unwrap();
    assert_eq!(repo.repo_name, "main");
    assert_eq!(repo.required_mods.len(), 2);
    assert_eq!(repo.required_mods[0].mod_name, "@a");
    assert_eq!(repo.required_mods[0].checksum, HEX_A);
    assert!(repo.required_mods[0].enabled);
    assert_eq!(repo.servers.len(), 1);
    assert_eq!(repo.servers[0].port, 2302);
    assert!(repo.repo_basic_authentication.is_none());
    assert!(parse_repository(b"{\"repoName\": 3}").is_err());
    assert!(parse_repository(b"nonsense").is_err());
}

#[test]
fn numeric_fields_accept_numbers_and_numeric_strings() {
    assert_eq!(deserialize_number_from_string(&nimble::json::Json::Num(17)).unwrap(), 17);
    assert_eq!(
        deserialize_number_from_string(&nimble::json::Json::Str("2302".to_string())).unwrap(),
        2302
    );
    assert!(deserialize_number_from_string(&nimble::json::Json::Str("no".to_string())).is_err());
    assert!(deserialize_number_from_string(&nimble::json::Json::Null).is_err());
}

#[test]
fn replicate_strikes_out_what_cannot_be_trusted() {
    let text = repo_json(&rmod_json("@a", HEX_A));
    let repo = parse_repository(text.as_bytes()).unwrap();
    let copy = replicate_remote_repo_info(&repo);
    assert_eq!(copy.repo_name, "main");
    assert_eq!(copy.checksum, "INVALID");
    assert_eq!(copy.required_mods.len(), 0);
    assert_eq!(copy.optional_mods.len(), 0);
}

#[test]
fn dry_run_diff_reports_exactly_the_unknown_mod() {
    let text = repo_json(&format!("{},{}", rmod_json("@known", HEX_A), rmod_json(
        "@missing", HEX_B
    )));
    let repo = parse_repository(text.as_bytes()).unwrap();
    let mut cache = ModCache::new_empty();
    cache.insert(srf_mod("@known", HEX_A, vec![]));
    let candidates = diff_repo(&cache, &repo);
    assert_eq!(candidates.len(), 1);
    assert_eq!(candidates[0].mod_name, "@missing");
}

#[test]
fn resync_after_recording_everything_plans_nothing() {
    let text = repo_json(&format!("{},{}", rmod_json("@a", HEX_A), rmod_json("@b", HEX_B)));
    let repo = parse_repository(text.as_bytes()).unwrap();
    let mut cache = ModCache::new_empty();
    cache.insert(srf_mod("@a", HEX_A, vec![]));
    cache.insert(srf_mod("@b", HEX_B, vec![]));
    let candidates = diff_repo(&cache, &repo);
    assert_eq!(candidates.len(), 0);
}

#[test]
fn equal_fingerprints_plan_nothing() {
    let remote = srf_mod("@a", HEX_A, vec![plain_file("f.txt", "AA", 3)]);
    let local = srf_mod("@a", HEX_A, vec![]);
    let (downloads, deletions) = diff_mod(&remote, &local);
    assert_eq!(downloads.len(), 0);
    assert_eq!(deletions.len(), 0);
}

#[test]
fn missing_and_changed_files_are_downloaded_whole() {
    let remote = srf_mod(
        "@a",
        HEX_A,
        vec![plain_file("same.txt", "AA", 3), plain_file("changed.txt", "BB", 4), plain_file(
            "new.txt", "CC", 5
        )],
    );
    let local = srf_mod(
        "@a",
        HEX_B,
        vec![plain_file("same.txt", "AA", 3), plain_file("changed.txt", "OLD", 4)],
    );
    let (downloads, deletions) = diff_mod(&remote, &local);
    let files: Vec<&str> = downloads.iter().map(|c| c.file.as_str()).collect();
    assert_eq!(files, vec!["@a/changed.txt", "@a/new.txt"]);
    assert_eq!(downloads[0].begin, 0);
    assert_eq!(downloads[0].end, 4);
    assert_eq!(downloads[1].end, 5);
    assert_eq!(deletions.len(), 0);
}

#[test]
fn stale_local_files_are_deleted() {
    let remote = srf_mod("@a", HEX_A, vec![plain_file("keep.txt", "AA", 3)]);
    let local = srf_mod("@a", HEX_B, vec![plain_file("keep.txt", "AA", 3), plain_file(
        "old.txt", "BB", 4
    )]);
    let (downloads, deletions) = diff_mod(&remote, &local);
    assert_eq!(downloads.len(), 0);
    assert_eq!(deletions, vec!["old.txt".to_string()]);
}

#[test]
fn a_missing_mod_downloads_every_remote_file() {
    let remote = srf_mod("@a", HEX_A, vec![plain_file("one.txt", "AA", 1), plain_file(
        "two.txt", "BB", 2
    )]);
    let local = Mod::generate_invalid(&remote);
    let (downloads, deletions) = diff_mod(&remote, &local);
    assert_eq!(downloads.len(), 2);
    assert_eq!(downloads[0].file, "@a/one.txt");
    assert_eq!(downloads[1].file, "@a/two.txt");
    assert_eq!(deletions.len(), 0);
}

#[test]
fn gen_srf_test() {
    let m1 = nimble::scan::scan_mod("@X", vec![("a.txt".to_string(), b"xx".to_vec())]).unwrap();
    let m2 = nimble::scan::scan_mod("@Y", vec![("b.txt".to_string(), b"yy".to_vec())]).unwrap();
    let d1 = m1.checksum.clone();
    let d2 = m2.checksum.clone();
    let cache = ModCache::new(vec![(d1.clone(), m1), (d2.clone(), m2)]);
    assert_eq!(cache.version, 1);
    assert_eq!(cache.mods.len(), 2);
    assert!(cache.contains_key(&d1));
    assert!(cache.contains_key(&d2));
}

#[test]
fn cache_insert_replaces_and_remove_drops() {
    let mut cache = ModCache::new_empty();
    cache.insert(srf_mod("@first", HEX_A, vec![]));
    cache.insert(srf_mod("@renamed", HEX_A, vec![]));
    assert_eq!(cache.mods.len(), 1);
    assert_eq!(cache.mods[0].1.name, "@renamed");
    cache.insert(srf_mod("@other", HEX_B, vec![]));
    assert_eq!(cache.mods.len(), 2);
    let gone = Md5Digest::new(HEX_A).unwrap();
    cache.remove(&gone);
    assert!(!cache.contains_key(&gone));
    assert_eq!(cache.mods.len(), 1);
}

#[test]
fn cache_survives_its_persistent_form() {
    let mut cache = ModCache::new_empty();
    cache.insert(srf_mod("@a", HEX_A, vec![]));
    cache.insert(srf_mod("@b", HEX_B, vec![]));
    let bytes = cache.to_bytes();
    let back = ModCache::from_bytes(&bytes).unwrap();
    assert_eq!(back.version, 1);
    assert_eq!(back.mods.len(), 2);
    assert!(back.contains_key(&Md5Digest::new(HEX_A).unwrap()));
    assert!(back.contains_key(&Md5Digest::new(HEX_B).unwrap()));
    let names: Vec<&str> = back.mods.iter().map(|e| e.1.name.as_str()).collect();
    assert!(names.contains(&"@a") && names.contains(&"@b"));
    assert!(ModCache::from_bytes(b"{\"version\":1}").is_err());
    assert!(ModCache::from_bytes(b"gibberish").is_err());
    // re-saving an unchanged cache is byte-stable
    assert_eq!(back.to_bytes(), bytes);
}

#[test]
fn unreadable_checksums_count_as_unknown() {
    let text = repo_json(&rmod_json("@odd", "NOT-REALLY-HEX"));
    let repo = parse_repository(text.as_bytes()).unwrap();
    let cache = ModCache::new_empty();
    let candidates = diff_repo(&cache, &repo);
    assert_eq!(candidates.len(), 1);
    assert_eq!(candidates[0].mod_name, "@odd");
}
