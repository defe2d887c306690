use nimble::scan::{scan_file, scan_mod, scan_pbo};
use nimble::srf::FileType;

fn le32(v: u32) -> [u8; 4] {
    [(v & 0xff) as u8, ((v >> 8) & 0xff) as u8, ((v >> 16) & 0xff) as u8, ((v >> 24) & 0xff) as u8]
}

fn push_entry(out: &mut Vec<u8>, name: &str, tag: u32, data_size: u32) {
    out.extend(name.as_bytes());
    out.push(0);
    out.extend(le32(tag));
    out.extend(le32(0));
    out.extend(le32(0));
    out.extend(le32(0));
    out.extend(le32(data_size));
}

fn sample_pbo_with_payload(payload_a: &[u8], payload_b: &[u8], trailer: &[u8]) -> Vec<u8> {
    let mut out = Vec::new();
    push_entry(&mut out, "", 0x56657273, 0);
    out.push(0);
    push_entry(&mut out, "a.txt", 0, payload_a.len() as u32);
    push_entry(&mut out, "b.bin", 0, payload_b.len() as u32);
    push_entry(&mut out, "", 0, 0);
    out.extend(payload_a);
    out.extend(payload_b);
    out.extend(trailer);
    out
}

#[test]
fn empty_file_has_no_parts_and_the_empty_digest() {
    let f = scan_file("readme.txt", b"");
    assert_eq!(f.length, 0);
    assert_eq!(f.parts.len(), 0);
    assert!(f.file_type == FileType::File);
    // the aggregate hashes an empty concatenation: MD5 of the empty input
    assert_eq!(f.checksum, "D41D8CD98F00B204E9800998ECF8427E");
}

#[test]
fn small_file_is_one_part_named_after_its_end() {
    let f = scan_file("docs/readme.txt", b"abc");
    assert_eq!(f.length, 3);
    assert_eq!(f.parts.len(), 1);
    assert_eq!(f.parts[0].start, 0);
    assert_eq!(f.parts[0].length, 3);
    assert_eq!(f.parts[0].path, "readme.txt_3");
    // the part digest is the well-known MD5 of "abc"
    assert_eq!(f.parts[0].checksum, "900150983CD24FB0D6963F7D28E17F72");
    assert_eq!(f.path, "docs/readme.txt");
}

#[test]
fn exact_multiple_of_the_chunk_size_fills_the_last_part() {
    let data = vec![7u8; 10_000_000];
    let f = scan_file("big.bin", &data);
    assert_eq!(f.parts.len(), 2);
    assert_eq!(f.parts[0].start, 0);
    assert_eq!(f.parts[0].length, 5_000_000);
    assert_eq!(f.parts[1].start, 5_000_000);
    assert_eq!(f.parts[1].length, 5_000_000);
    assert_eq!(f.parts[1].path, "big.bin_10000000");
}

#[test]
fn one_byte_over_the_chunk_size_adds_a_part() {
    let data = vec![7u8; 5_000_001];
    let f = scan_file("big.bin", &data);
    assert_eq!(f.parts.len(), 2);
    assert_eq!(f.parts[1].start, 5_000_000);
    assert_eq!(f.parts[1].length, 1);
}

#[test]
fn pbo_parts_cover_the_whole_file() {
    let bytes = sample_pbo_with_payload(b"abc", b"WXYZ", b"$tail");
    let f = scan_pbo("addons/demo.pbo", &bytes).unwrap();
    assert!(f.file_type == FileType::Pbo);
    assert_eq!(f.length, bytes.len() as u64);
    assert_eq!(f.parts.len(), 4);
    assert_eq!(f.parts[0].path, "$$HEADER$$");
    assert_eq!(f.parts[0].start, 0);
    assert_eq!(f.parts[1].path, "a.txt");
    assert_eq!(f.parts[1].length, 3);
    assert_eq!(f.parts[2].path, "b.bin");
    assert_eq!(f.parts[2].length, 4);
    assert_eq!(f.parts[3].path, "$$END$$");
    let mut covered = 0u64;
    for p in f.parts.iter() {
        assert_eq!(p.start, covered);
        covered += p.length;
    }
    assert_eq!(covered, f.length);
}

#[test]
fn pbo_payload_running_past_the_end_is_an_error() {
    let mut bytes = Vec::new();
    push_entry(&mut bytes, "", 0x56657273, 0);
    bytes.push(0);
    push_entry(&mut bytes, "a.txt", 0, 1000);
    push_entry(&mut bytes, "", 0, 0);
    bytes.extend(b"short");
    assert!(scan_pbo("addons/demo.pbo", &bytes).is_err());
}

#[test]
fn extension_dispatch_is_case_sensitive() {
    let pbo_bytes = sample_pbo_with_payload(b"abc", b"WXYZ", b"");
    let files = vec![
        ("addons/one.pbo".to_string(), pbo_bytes.clone()),
        ("addons/two.PBO".to_string(), b"plain".to_vec()),
        ("pbo".to_string(), b"plain".to_vec()),
        (".pbo".to_string(), b"plain".to_vec()),
    ];
    let m = scan_mod("@Demo", files).unwrap();
    let by_path = |p: &str| m.files.iter().find(|f| f.path == p).unwrap();
    assert!(by_path("addons/one.pbo").file_type == FileType::Pbo);
    assert!(by_path("addons/two.PBO").file_type == FileType::File);
    assert!(by_path("pbo").file_type == FileType::File);
    assert!(by_path(".pbo").file_type == FileType::File);
}

#[test]
fn mod_name_is_lowercased() {
    let m = scan_mod("@LAMBS_Danger", vec![]).unwrap();
    assert_eq!(m.name, "@lambs_danger");
    assert_eq!(m.files.len(), 0);
}

#[test]
fn files_are_sorted_by_uppercased_path() {
    let files = vec![
        ("zeta.txt".to_string(), b"z".to_vec()),
        ("Alpha.txt".to_string(), b"a".to_vec()),
        ("beta.txt".to_string(), b"b".to_vec()),
    ];
    let m = scan_mod("@demo", files).unwrap();
    let order: Vec<&str> = m.files.iter().map(|f| f.path.as_str()).collect();
    assert_eq!(order, vec!["Alpha.txt", "beta.txt", "zeta.txt"]);
}

#[test]
fn discovery_order_does_not_change_the_fingerprint() {
    let forward = vec![
        ("a.txt".to_string(), b"one".to_vec()),
        ("b.txt".to_string(), b"two".to_vec()),
        ("c/d.txt".to_string(), b"three".to_vec()),
    ];
    let backward = vec![
        ("c/d.txt".to_string(), b"three".to_vec()),
        ("b.txt".to_string(), b"two".to_vec()),
        ("a.txt".to_string(), b"one".to_vec()),
    ];
    let m1 = scan_mod("@demo", forward).unwrap();
    let m2 = scan_mod("@demo", backward).unwrap();
    assert!(m1.checksum == m2.checksum);
    assert_eq!(m1.files.len(), m2.files.len());
    for (f1, f2) in m1.files.iter().zip(m2.files.iter()) {
        assert_eq!(f1.path, f2.path);
        assert_eq!(f1.checksum, f2.checksum);
    }
}

#[test]
fn scanning_is_a_function_of_the_bytes() {
    let files = || vec![("a.txt".to_string(), b"same bytes".to_vec())];
    let m1 = scan_mod("@demo", files()).unwrap();
    let m2 = scan_mod("@demo", files()).unwrap();
    assert!(m1.checksum == m2.checksum);
    // different bytes give a different fingerprint
    let m3 = scan_mod("@demo", vec![("a.txt".to_string(), b"other bytes".to_vec())]).unwrap();
    assert!(!(m1.checksum == m3.checksum));
    // a renamed file gives a different fingerprint even with equal content
    let m4 = scan_mod("@demo", vec![("b.txt".to_string(), b"same bytes".to_vec())]).unwrap();
    assert!(!(m1.checksum == m4.checksum));
}

#[test]
fn non_ascii_names_scan_like_any_other() {
    let files = || vec![
        ("caf\u{e9}.txt".to_string(), b"one".to_vec()),
        ("zal\u{17c}\u{f3}\u{142}ka/r\u{e9}sum\u{e9}.bin".to_string(), b"two".to_vec()),
    ];
    let m = scan_mod("@Caf\u{c9}", files()).unwrap();
    assert_eq!(m.name, "@caf\u{e9}");
    assert_eq!(m.files.len(), 2);
    assert!(m.files.iter().any(|f| f.path == "caf\u{e9}.txt"));
    // the fingerprint is still a function of names and bytes alone
    let m2 = scan_mod("@Caf\u{c9}", files()).unwrap();
    assert!(m.checksum == m2.checksum);
    let renamed = scan_mod(
        "@Caf\u{c9}",
        vec![
            ("cafe.txt".to_string(), b"one".to_vec()),
            ("zal\u{17c}\u{f3}\u{142}ka/r\u{e9}sum\u{e9}.bin".to_string(), b"two".to_vec()),
        ],
    )
    .unwrap();
    assert!(!(m.checksum == renamed.checksum));
}

#[test]
fn assembly_matches_the_one_shot_scan() {
    let one_shot = scan_mod(
        "@demo",
        vec![
            ("b.txt".to_string(), b"bb".to_vec()),
            ("a.txt".to_string(), b"aa".to_vec()),
        ],
    )
    .unwrap();
    // scanning one file at a time and assembling afterwards is the same
    let piecewise = nimble::scan::assemble_mod(
        "@demo",
        vec![scan_file("b.txt", b"bb"), scan_file("a.txt", b"aa")],
    );
    assert!(one_shot.checksum == piecewise.checksum);
    assert_eq!(one_shot.files.len(), piecewise.files.len());
    for (x, y) in one_shot.files.iter().zip(piecewise.files.iter()) {
        assert_eq!(x.path, y.path);
        assert_eq!(x.checksum, y.checksum);
    }
}

#[test]
fn scan_then_encode_then_decode_returns_the_scan() {
    let files = vec![
        ("addons/demo.pbo".to_string(), sample_pbo_with_payload(b"abc", b"WXYZ", b"!")),
        ("mod.cpp".to_string(), b"name = \"demo\";".to_vec()),
    ];
    let m = scan_mod("@demo", files).unwrap();
    let encoded = nimble::srf_json::serialize_srf(&m);
    let decoded = nimble::srf_json::deserialize_srf(&encoded).unwrap();
    assert!(decoded.checksum == m.checksum);
    assert_eq!(decoded.files.len(), m.files.len());
}
