use nimble::md5_digest::Md5Digest;
use nimble::srf::{File, FileType, Mod, Part};
use nimble::srf::Error;
use nimble::srf_json::{deserialize_srf, serialize_srf};
use nimble::srf_legacy::{deserialize_legacy_srf, is_legacy_srf, serialize_legacy_srf};

fn sample_mod() -> Mod {
    Mod {
        name: "@demo".to_string(),
        checksum: Md5Digest::new("44C1B8021822F80E1E560689D2AAB0BF").unwrap(),
        files: vec![
            File {
                path: "addons/demo.pbo".to_string(),
                length: 7,
                checksum: "AABBCCDD".to_string(),
                file_type: FileType::Pbo,
                parts: vec![
                    Part {
                        path: "$$HEADER$$".to_string(),
                        length: 3,
                        start: 0,
                        checksum: "0102".to_string(),
                    },
                    Part {
                        path: "$$END$$".to_string(),
                        length: 4,
                        start: 3,
                        checksum: "0304".to_string(),
                    },
                ],
            },
            File {
                path: "readme.txt".to_string(),
                length: 5,
                checksum: "EEFF".to_string(),
                file_type: FileType::File,
                parts: vec![
                    Part {
                        path: "readme.txt_5".to_string(),
                        length: 5,
                        start: 0,
                        checksum: "EEFF".to_string(),
                    },
                ],
            },
        ],
    }
}

fn assert_mods_equal(a: &Mod, b: &Mod) {
    assert_eq!(a.name, b.name);
    assert!(a.checksum == b.checksum);
    assert_eq!(a.files.len(), b.files.len());
    for (fa, fb) in a.files.iter().zip(b.files.iter()) {
        assert_eq!(fa.path, fb.path);
        assert_eq!(fa.length, fb.length);
        assert_eq!(fa.checksum, fb.checksum);
        assert!(fa.file_type == fb.file_type);
        assert_eq!(fa.parts.len(), fb.parts.len());
        for (pa, pb) in fa.parts.iter().zip(fb.parts.iter()) {
            assert_eq!(pa.path, pb.path);
            assert_eq!(pa.length, pb.length);
            assert_eq!(pa.start, pb.start);
            assert_eq!(pa.checksum, pb.checksum);
        }
    }
}

#[test]
fn legacy_srf_test() {
    let input = "ADDON:@lambs_danger:1:44C1B8021822F80E1E560689D2AAB0BF\n\
                 FILE:mod.cpp:10:1:ABCD\n\
                 mod.cpp_10:0:10:ABCD\n";
    let deserialized = deserialize_legacy_srf(input.as_bytes()).unwrap();
    assert_eq!(deserialized.name, "@lambs_danger");
    assert!(
        deserialized.checksum == Md5Digest::new("44C1B8021822F80E1E560689D2AAB0BF").unwrap()
    );
    assert_eq!(deserialized.files.len(), 1);
    assert_eq!(deserialized.files[0].path, "mod.cpp");
    assert_eq!(deserialized.files[0].length, 10);
    assert_eq!(deserialized.files[0].parts.len(), 1);
    assert_eq!(deserialized.files[0].parts[0].start, 0);
}

#[test]
fn legacy_round_trip() {
    let original = sample_mod();
    let encoded = serialize_legacy_srf(&original);
    let decoded = deserialize_legacy_srf(&encoded).unwrap();
    assert_mods_equal(&decoded, &original);
}

#[test]
fn json_round_trip() {
    let original = sample_mod();
    let encoded = serialize_srf(&original);
    let decoded = deserialize_srf(&encoded).unwrap();
    assert_mods_equal(&decoded, &original);
}

#[test]
fn detection_is_cursorless_and_exact() {
    let m = sample_mod();
    assert!(is_legacy_srf(&serialize_legacy_srf(&m)));
    assert!(!is_legacy_srf(&serialize_srf(&m)));
    // detection reads only the magic; short inputs are simply not legacy
    assert!(!is_legacy_srf(b"ADD"));
    assert!(is_legacy_srf(b"ADDON"));
}

#[test]
fn bom_is_stripped_before_decode() {
    let original = sample_mod();
    let mut encoded = vec![0xefu8, 0xbb, 0xbf];
    encoded.extend(serialize_srf(&original));
    let decoded = deserialize_srf(&encoded).unwrap();
    assert_mods_equal(&decoded, &original);
}

#[test]
fn legacy_surplus_lines_are_ignored() {
    let input = "ADDON:@x:1:44C1B8021822F80E1E560689D2AAB0BF\n\
                 FILE:a.txt:1:0:AA\n\
                 FILE:b.txt:2:0:BB\n\
                 FILE:c.txt:3:0:CC\n";
    let decoded = deserialize_legacy_srf(input.as_bytes()).unwrap();
    assert_eq!(decoded.files.len(), 1);
    assert_eq!(decoded.files[0].path, "a.txt");
}

#[test]
fn legacy_file_count_governs_consumption() {
    // the header declares two records but only one follows
    let input = "ADDON:@x:2:44C1B8021822F80E1E560689D2AAB0BF\n\
                 FILE:a.txt:1:0:AA\n";
    let err = deserialize_legacy_srf(input.as_bytes()).unwrap_err();
    assert!(matches!(err, Error::LegacySrfParseFailure { .. }));
}

#[test]
fn legacy_bad_digest_is_digest_error() {
    let input = "ADDON:@x:0:NOTHEX\n";
    let err = deserialize_legacy_srf(input.as_bytes()).unwrap_err();
    assert!(matches!(err, Error::DigestParse { .. }));
}

#[test]
fn legacy_bad_number_is_number_error() {
    let input = "ADDON:@x:many:44C1B8021822F80E1E560689D2AAB0BF\n";
    let err = deserialize_legacy_srf(input.as_bytes()).unwrap_err();
    assert!(matches!(err, Error::LegacySrfU32ParseFailure));
}

#[test]
fn legacy_wrong_magic_is_rejected() {
    let input = "BADDN:@x:0:44C1B8021822F80E1E560689D2AAB0BF\n";
    let err = deserialize_legacy_srf(input.as_bytes()).unwrap_err();
    assert!(matches!(err, Error::LegacySrfParseFailure { .. }));
}

#[test]
fn legacy_unknown_file_kind_is_rejected() {
    let input = "ADDON:@x:1:44C1B8021822F80E1E560689D2AAB0BF\n\
                 BLOB:a.txt:1:0:AA\n";
    let err = deserialize_legacy_srf(input.as_bytes()).unwrap_err();
    assert!(matches!(err, Error::LegacySrfParseFailure { .. }));
}

#[test]
fn file_kind_tags_decode() {
    assert!(matches!(FileType::from_legacy_srf("PBO"), Ok(FileType::Pbo)));
    assert!(matches!(FileType::from_legacy_srf("FILE"), Ok(FileType::File)));
    assert!(FileType::from_legacy_srf("file").is_err());
}

#[test]
fn json_garbage_is_decode_error() {
    let err = deserialize_srf(b"{not json").unwrap_err();
    assert!(matches!(err, Error::SrfDecode));
    let err = deserialize_srf(b"{\"Name\": 3}").unwrap_err();
    assert!(matches!(err, Error::SrfDecode));
}

#[test]
fn json_paths_tolerate_backslashes() {
    let original = sample_mod();
    let encoded = serialize_srf(&original);
    let text = String::from_utf8(encoded).unwrap();
    let bent = text.replace("addons/demo.pbo", "addons\\\\demo.pbo");
    let decoded = deserialize_srf(bent.as_bytes()).unwrap();
    assert_eq!(decoded.files[0].path, "addons/demo.pbo");
}

#[test]
fn generate_invalid_is_the_placeholder() {
    let remote = sample_mod();
    let placeholder = Mod::generate_invalid(&remote);
    assert_eq!(placeholder.name, remote.name);
    assert!(placeholder.checksum == Md5Digest::zero());
    assert_eq!(placeholder.files.len(), 0);
}

#[test]
fn digest_hex_round_trip() {
    let d = Md5Digest::new("00112233445566778899aabbccddeeff").unwrap();
    assert_eq!(d.to_hex(), "00112233445566778899AABBCCDDEEFF");
    assert!(Md5Digest::new("0011").is_err());
    assert!(Md5Digest::new("ZZ112233445566778899AABBCCDDEEFF").is_err());
    let raw = Md5Digest::from_bytes([0u8; 16]);
    assert!(raw == Md5Digest::zero());
}
