use nimble::pbo::{EntryType, Error, Pbo};

fn le32(v: u32) -> [u8; 4] {
    [(v & 0xff) as u8, ((v >> 8) & 0xff) as u8, ((v >> 16) & 0xff) as u8, ((v >> 24) & 0xff) as u8]
}

fn push_entry(out: &mut Vec<u8>, name: &str, tag: u32, data_size: u32) {
    out.extend(name.as_bytes());
    out.push(0);
    out.extend(le32(tag));
    out.extend(le32(0)); // original size
    out.extend(le32(0)); // offset
    out.extend(le32(0)); // timestamp
    out.extend(le32(data_size));
}

/// A small container: a `Vers` record with two extension pairs, two data
/// entries, the all-zero terminator, then the payloads.
fn sample_pbo() -> Vec<u8> {
    let mut out = Vec::new();
    push_entry(&mut out, "", 0x56657273, 0);
    out.extend(b"prefix");
    out.push(0);
    out.extend(b"demo");
    out.push(0);
    out.push(0); // empty key ends the extensions
    push_entry(&mut out, "a.txt", 0, 3);
    push_entry(&mut out, "b.bin", 0, 4);
    push_entry(&mut out, "", 0, 0); // terminator
    out.extend(b"abcWXYZ"); // 3 + 4 payload bytes
    out
}

#[test]
fn basic_pbo_test() {
    let bytes = sample_pbo();
    let pbo = Pbo::read(&bytes).unwrap();
    assert_eq!(pbo.entries.len(), 3);
    assert!(pbo.entries[0].entry_type == EntryType::Vers);
    assert_eq!(pbo.entries[1].filename, "a.txt");
    assert_eq!(pbo.entries[1].data_size, 3);
    assert_eq!(pbo.entries[2].filename, "b.bin");
    assert_eq!(pbo.entries[2].data_size, 4);
    assert_eq!(pbo.extensions.len(), 1);
    assert_eq!(pbo.extensions[0].0, "prefix");
    assert_eq!(pbo.extensions[0].1, "demo");
    // the directory ends where the payloads begin
    assert_eq!(pbo.header_len, (bytes.len() - 7) as u64);
}

#[test]
fn unknown_type_tag_is_an_error() {
    let mut out = Vec::new();
    push_entry(&mut out, "weird", 0x12345678, 0);
    push_entry(&mut out, "", 0, 0);
    let err = Pbo::read(&out).unwrap_err();
    assert!(matches!(err, Error::PboType { tag: 0x12345678 }));
}

#[test]
fn truncated_header_is_an_error() {
    let mut out = Vec::new();
    push_entry(&mut out, "", 0x56657273, 0);
    out.push(0); // extensions end
    out.extend(b"half");
    out.push(0);
    out.extend(le32(0)); // a record cut short after its tag
    let err = Pbo::read(&out).unwrap_err();
    assert!(matches!(err, Error::Io));
}

#[test]
fn empty_input_is_an_error() {
    assert!(matches!(Pbo::read(b""), Err(Error::Io)));
}

#[test]
fn nul_terminated_names_read_back() {
    let bytes = b"hello\0world\0";
    let mut pos = 0usize;
    let first = nimble::pbo::read_string(bytes, &mut pos);
    assert_eq!(first, "hello");
    assert_eq!(pos, 6);
    let second = nimble::pbo::read_string(bytes, &mut pos);
    assert_eq!(second, "world");
    assert_eq!(pos, 12);
    // at the end of input the final byte stands in the terminator slot
    let mut pos2 = 0usize;
    let clipped = nimble::pbo::read_string(b"abc", &mut pos2);
    assert_eq!(clipped, "ab");
    assert_eq!(pos2, 3);
}

#[test]
fn extensions_read_until_empty_key() {
    let mut bytes = Vec::new();
    bytes.extend(b"k1");
    bytes.push(0);
    bytes.extend(b"v1");
    bytes.push(0);
    bytes.extend(b"k2");
    bytes.push(0);
    bytes.extend(b"v2");
    bytes.push(0);
    bytes.push(0);
    bytes.extend(b"rest");
    let mut pos = 0usize;
    let exts = nimble::pbo::read_extensions(&bytes, &mut pos);
    assert_eq!(exts.len(), 2);
    assert_eq!(exts[0].0, "k1");
    assert_eq!(exts[1].1, "v2");
    assert_eq!(pos, bytes.len() - 4);
}
