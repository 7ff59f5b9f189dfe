use std::io::Write;


use vsb::metadata::{read_metadata, validate_path, Fingerprint, MetadataItem, MetadataReader};

fn chars(s: &str) -> Vec<char> {
    s.chars().collect()
}

fn compress(text: &str) -> Vec<u8> {
    let mut encoder = bzip2::write::BzEncoder::new(Vec::new(), bzip2::Compression::default());
    encoder.write_all(text.as_bytes()).unwrap();
    encoder.finish().unwrap()
}

fn item(path: &str, unique: bool) -> MetadataItem {
    MetadataItem::new(path, 1234, vsb::hash::Hash::from_bytes(&[0xde, 0xad]), Fingerprint::new(10, 20, 3, 5), unique).unwrap()
}

#[test]
fn fingerprint_text_form() {
    let f = Fingerprint::new(10, 20, 3, 5);
    assert_eq!(f.mtime_nsec, 3_000_000_005);
    assert_eq!(f.encode(), "10:20:3000000005");
    let g = Fingerprint::new(1, 2, -2, 0);
    assert_eq!(g.encode(), "1:2:-2000000000");
    assert_eq!(Fingerprint::decode(&chars("1:2:-2000000000")), Some(g));
}

#[test]
fn fingerprint_decode_rejects_other_forms() {
    assert_eq!(Fingerprint::decode(&chars("1:2")), None);
    assert_eq!(Fingerprint::decode(&chars("1:2:3:4")), None);
    assert_eq!(Fingerprint::decode(&chars("a:2:3")), None);
    assert_eq!(Fingerprint::decode(&chars("-1:2:3")), None);
}

#[test]
fn fingerprint_round_trip() {
    for f in [Fingerprint::new(0, 0, 0, 0), Fingerprint::new(u64::MAX, 7, i64::MIN, -1), Fingerprint::new(5, u64::MAX, i64::MAX, 999_999_999)] {
        assert_eq!(Fingerprint::decode(&chars(&f.encode())), Some(f));
    }
}

#[test]
fn metadata_line_format() {
    assert_eq!(item("/home/user/a b", true).encode(), "unique dead 10:20:3000000005 1234 /home/user/a b\n");
    assert_eq!(item("/x", false).encode(), "extern dead 10:20:3000000005 1234 /x\n");
}

#[test]
fn metadata_item_round_trip() {
    let original = item("/home/user/with spaces and: colons", false);
    let line = original.encode();
    let decoded = MetadataItem::decode(line.trim_end_matches('\n')).unwrap();
    assert_eq!(decoded.path, original.path);
    assert_eq!(decoded.size, original.size);
    assert!(decoded.hash.equals(&original.hash));
    assert_eq!(decoded.unique, original.unique);
    assert_eq!(decoded.fingerprint, original.fingerprint);
}

#[test]
fn metadata_decode_errors() {
    for line in ["", "unknown dead 1:2:3 4 /a", "unique dead 1:2 4 /a", "unique dead 1:2:3 x /a", "unique dead 1:2:3 4"] {
        assert_eq!(MetadataItem::decode(line).err().unwrap(), format!("Unexpected format: {:?}", line));
    }
    assert!(MetadataItem::decode("unique xyz 1:2:3 4 /a").is_err());
}

#[test]
fn metadata_paths_must_fit_on_a_line() {
    assert_eq!(validate_path("/a/b").unwrap(), "/a/b");
    assert!(validate_path("/a\nb").is_err());
    assert!(validate_path("/a\rb").is_err());
    assert!(MetadataItem::new("/a\n", 1, vsb::hash::Hash::from_bytes(&[1]), Fingerprint::new(1, 1, 1, 1), true).is_err());
}

#[test]
fn metadata_reader_reads_every_line() {
    let text = format!("{}{}garbage\n", item("/a", true).encode(), item("/b", false).encode());
    let mut reader = MetadataReader::new(&compress(&text));
    assert_eq!(reader.len_remaining(), 3);

    let first = reader.next_item().unwrap().unwrap();
    assert_eq!(first.path, "/a");
    assert!(first.unique);
    let second = reader.next_item().unwrap().unwrap();
    assert_eq!(second.path, "/b");
    assert!(!second.unique);
    assert_eq!(reader.next_item().unwrap().err().unwrap(), "Unexpected format: \"garbage\"");
    assert!(reader.next_item().is_none());
    assert_eq!(reader.len_remaining(), 0);
}

#[test]
fn metadata_of_nothing_is_empty() {
    assert!(read_metadata(&compress("")).is_empty());
}

#[test]
fn metadata_that_is_not_bzip2_is_one_error() {
    let items = read_metadata(b"not compressed");
    assert_eq!(items.len(), 1);
    assert!(items[0].is_err());
}

#[test]
fn metadata_lines_that_are_not_utf8_are_errors() {
    let mut encoder = bzip2::write::BzEncoder::new(Vec::new(), bzip2::Compression::default());
    encoder.write_all(&[0xff, 0xfe, b'\n']).unwrap();
    encoder.write_all(item("/a", true).encode().as_bytes()).unwrap();
    let items = read_metadata(&encoder.finish().unwrap());
    assert_eq!(items.len(), 2);
    assert_eq!(items[0].as_ref().err().unwrap(), "stream did not contain valid UTF-8");
    assert_eq!(items[1].as_ref().unwrap().path, "/a");
}

#[test]
fn metadata_lines_before_a_decompression_error_are_read() {
    let mut encoder = bzip2::write::BzEncoder::new(Vec::new(), bzip2::Compression::fast());
    let mut count = 0;
    for i in 0..4000 {
        encoder.write_all(item(&format!("/file-{:05}-{}", i, "x".repeat(40)), true).encode().as_bytes()).unwrap();
        count += 1;
    }
    let mut data = encoder.finish().unwrap();
    data.truncate(data.len() - 64);
    let items = read_metadata(&data);
    assert!(items.len() > 1 && items.len() < count + 1, "{}", items.len());
    assert_eq!(items[0].as_ref().unwrap().path, format!("/file-00000-{}", "x".repeat(40)));
    assert!(items[..items.len() - 1].iter().all(|item| item.is_ok()));
    assert!(items.last().unwrap().is_err());
}
