use fvp_rs::archive::{extract_files, pack_files};
use fvp_rs::builder::FvpBuilder;
use fvp_rs::names::MagicDetector;
use fvp_rs::reader::FvpReader;
use fvp_rs::FvpError;

/// The archive that packing `1.txt` = "111" and `2.txt` = "222" gives.
fn two_text_files() -> Vec<u8> {
    let mut v: Vec<u8> = vec![2, 0, 0, 0, 12, 0, 0, 0];
    v.extend_from_slice(&[0, 0, 0, 0, 44, 0, 0, 0, 3, 0, 0, 0]);
    v.extend_from_slice(&[6, 0, 0, 0, 47, 0, 0, 0, 3, 0, 0, 0]);
    v.extend_from_slice(b"1.txt\02.txt\0");
    v.extend_from_slice(b"111222");
    v
}

fn ogg_data() -> Vec<u8> {
    b"OggS\x00\x02rest-of-stream".to_vec()
}

#[test]
fn lib_test_extract() {
    let files = extract_files(two_text_files()).unwrap();
    assert_eq!(files.len(), 2);
    assert_eq!(files[0].1, "1.txt");
    assert_eq!(files[0].2, b"111".to_vec());
    assert_eq!(files[1].1, "2.txt");
    assert_eq!(files[1].2, b"222".to_vec());
}

#[test]
fn lib_test_pack() {
    let bytes = pack_files(&["1.txt", "2.txt"], &[b"111".to_vec(), b"222".to_vec()]).unwrap();
    assert_eq!(bytes, two_text_files());
}

#[test]
fn main_test_extract() {
    let files = extract_files(two_text_files()).unwrap();
    let by_name: Vec<(&str, &[u8])> =
        files.iter().map(|f| (f.1.as_str(), f.2.as_slice())).collect();
    assert_eq!(by_name, vec![("1.txt", &b"111"[..]), ("2.txt", &b"222"[..])]);
}

#[test]
fn main_test_pack() {
    let bytes = pack_files(&["1.txt", "2.txt"], &[b"111".to_vec(), b"222".to_vec()]).unwrap();
    assert_eq!(bytes, two_text_files());
}

#[test]
fn test_resolve_name() {
    // An archive whose entry `none` holds Ogg data.
    let original = pack_files(&["none"], &[ogg_data()]).unwrap();
    let files = extract_files(original.clone()).unwrap();
    assert_eq!(files.len(), 1);
    assert_eq!(files[0].0, "none");
    assert_eq!(files[0].1, "none.ogg");
    // Renamed back to `none` and packed again, it is the same archive.
    let repacked = pack_files(&["none"], &[files[0].2.clone()]).unwrap();
    assert_eq!(repacked, original);
    // Packed under its extracted name, `.ogg` is dropped again.
    let repacked = pack_files(&["none.ogg"], &[files[0].2.clone()]).unwrap();
    assert_eq!(repacked, original);
}

#[test]
fn reader_reads_table_and_names() {
    let reader = FvpReader::new(two_text_files()).unwrap();
    let entries = reader.entries();
    assert_eq!(entries.len(), 2);
    assert_eq!(entries[0].name, "1.txt");
    assert_eq!((entries[0].offset, entries[0].size, entries[0].name_offset), (44, 3, 0));
    assert_eq!(entries[1].name, "2.txt");
    assert_eq!((entries[1].offset, entries[1].size, entries[1].name_offset), (47, 3, 6));
    let mut out = vec![9u8];
    let n = reader.extract_entry(&entries[1], &mut out).unwrap();
    assert_eq!(n, 3);
    assert_eq!(out, b"\x09222".to_vec());
}

#[test]
fn reader_rejects_short_header() {
    match FvpReader::new(vec![1, 0, 0]) {
        Err(FvpError::Io(e)) => assert_eq!(e.kind(), std::io::ErrorKind::UnexpectedEof),
        _ => panic!("expected an I/O error"),
    }
}

#[test]
fn reader_rejects_short_table() {
    // Two entries announced, one row present.
    let mut v: Vec<u8> = vec![2, 0, 0, 0, 0, 0, 0, 0];
    v.extend_from_slice(&[0; 12]);
    assert!(matches!(FvpReader::new(v), Err(FvpError::Io(_))));
}

#[test]
fn reader_rejects_unterminated_name() {
    let mut v: Vec<u8> = vec![1, 0, 0, 0, 3, 0, 0, 0];
    v.extend_from_slice(&[0, 0, 0, 0, 23, 0, 0, 0, 0, 0, 0, 0]);
    v.extend_from_slice(b"abc");
    assert!(matches!(FvpReader::new(v), Err(FvpError::Io(_))));
}

#[test]
fn reader_rejects_name_offset_past_end() {
    let mut v: Vec<u8> = vec![1, 0, 0, 0, 2, 0, 0, 0];
    v.extend_from_slice(&[0xff, 0xff, 0xff, 0xff, 0, 0, 0, 0, 0, 0, 0, 0]);
    v.extend_from_slice(b"a\0");
    assert!(matches!(FvpReader::new(v), Err(FvpError::Io(_))));
}

#[test]
fn reader_rejects_bad_shift_jis() {
    // 0x81 must be followed by a trail byte; 0x20 is none.
    let mut v: Vec<u8> = vec![1, 0, 0, 0, 3, 0, 0, 0];
    v.extend_from_slice(&[0, 0, 0, 0, 23, 0, 0, 0, 0, 0, 0, 0]);
    v.extend_from_slice(&[0x81, 0x20, 0]);
    assert!(matches!(FvpReader::new(v), Err(FvpError::DecodingError)));
}

#[test]
fn empty_archive() {
    let bytes = pack_files(&[], &[]).unwrap();
    assert_eq!(bytes, vec![0, 0, 0, 0, 0, 0, 0, 0]);
    let reader = FvpReader::new(bytes).unwrap();
    assert!(reader.entries().is_empty());
}

#[test]
fn shift_jis_names_round_trip() {
    let name = "テスト.txt";
    let bytes = pack_files(&[name], &[b"x".to_vec()]).unwrap();
    // テ ス ト in Shift-JIS, then the ASCII suffix and the terminator.
    assert_eq!(&bytes[20..31], &[0x83, 0x65, 0x83, 0x58, 0x83, 0x67, b'.', b't', b'x', b't', 0]);
    assert_eq!(u32::from_le_bytes([bytes[4], bytes[5], bytes[6], bytes[7]]), 11);
    let files = extract_files(bytes).unwrap();
    assert_eq!(files[0].1, name);
    assert_eq!(files[0].2, b"x".to_vec());
}

#[test]
fn unencodable_name_is_refused() {
    let r = pack_files(&["ok.txt", "\u{1F600}.txt"], &[vec![], vec![]]);
    assert!(matches!(r, Err(FvpError::EncodingError)));
    assert!(matches!(FvpBuilder::new(&["\u{1F600}"], true), Err(FvpError::EncodingError)));
}

#[test]
fn builder_counts_files() {
    let mut b = FvpBuilder::new(&["a"], true).unwrap();
    match b.finish() {
        Err(FvpError::CountMismatch { expected, actual }) => assert_eq!((expected, actual), (1, 0)),
        _ => panic!("expected a count mismatch"),
    }
    b.write_file(b"data").unwrap();
    match b.write_file(b"more") {
        Err(FvpError::CountMismatch { expected, actual }) => assert_eq!((expected, actual), (1, 2)),
        _ => panic!("expected a count mismatch"),
    }
    b.finish().unwrap();
    let bytes = b.into_inner();
    let reader = FvpReader::new(bytes).unwrap();
    assert_eq!(reader.entries()[0].name, "a");
    assert_eq!((reader.entries()[0].offset, reader.entries()[0].size), (22, 4));
}

#[test]
fn raw_mode_keeps_names() {
    let mut b = FvpBuilder::new(&["music.OGG"], true).unwrap();
    b.write_file(&ogg_data()).unwrap();
    b.finish().unwrap();
    let reader = FvpReader::new(b.into_inner()).unwrap();
    let entry = reader.entries()[0].clone();
    assert_eq!(entry.name, "music.OGG");
    // Smart mode: the name already ends with `.ogg` in lower case.
    assert_eq!(reader.resolve_name(&entry).unwrap(), "music.OGG");
    let raw = reader.with_raw_mode(true);
    assert_eq!(raw.resolve_name(&entry).unwrap(), "music.OGG");
}

#[test]
fn smart_mode_strips_and_restores_ogg() {
    let names = ["bgm01.ogg", "voice.Ogg", "notes.txt"];
    let bytes = pack_files(&names, &[ogg_data(), ogg_data(), ogg_data()]).unwrap();
    let reader = FvpReader::new(bytes).unwrap();
    let names: Vec<&str> = reader.entries().iter().map(|e| e.name.as_str()).collect();
    assert_eq!(names, vec!["bgm01", "voice", "notes.txt"]);
    let resolved: Vec<String> =
        reader.entries().iter().map(|e| reader.resolve_name(e).unwrap()).collect();
    assert_eq!(resolved, vec!["bgm01.ogg", "voice.ogg", "notes.txt.ogg"]);
    let raw = reader.with_raw_mode(true);
    let e = raw.entries()[0].clone();
    assert_eq!(raw.resolve_name(&e).unwrap(), "bgm01");
}

#[test]
fn short_data_is_not_ogg() {
    let bytes = pack_files(&["a", "b"], &[b"Og".to_vec(), b"xy".to_vec()]).unwrap();
    let files = extract_files(bytes).unwrap();
    assert_eq!(files[0].1, "a");
    assert_eq!(files[1].1, "b");
}

#[test]
fn extract_entry_stops_at_end_of_archive() {
    let mut v = two_text_files();
    // The second row claims 10 bytes; only 3 are there.
    v[8 + 12 + 8] = 10;
    let reader = FvpReader::new(v).unwrap();
    let e = reader.entries()[1].clone();
    let mut out = Vec::new();
    assert_eq!(reader.extract_entry(&e, &mut out).unwrap(), 3);
    assert_eq!(out, b"222".to_vec());
    let mut far = e.clone();
    far.offset = 1000;
    let mut out = Vec::new();
    assert_eq!(reader.extract_entry(&far, &mut out).unwrap(), 0);
    assert!(out.is_empty());
}

#[test]
fn magic_detection() {
    assert_eq!(MagicDetector::suggest_extension(b"OggS"), Some(".ogg"));
    assert_eq!(MagicDetector::suggest_extension(b"OggSxyz"), Some(".ogg"));
    assert_eq!(MagicDetector::suggest_extension(b"Ogg"), None);
    assert_eq!(MagicDetector::suggest_extension(b"oggS"), None);
    assert_eq!(MagicDetector::suggest_extension(b""), None);
}

#[test]
fn strip_rules() {
    assert!(MagicDetector::should_strip_extension("a.ogg"));
    assert!(MagicDetector::should_strip_extension("A.OGG"));
    assert!(MagicDetector::should_strip_extension(".ogg"));
    assert!(!MagicDetector::should_strip_extension("a.ogx"));
    assert!(!MagicDetector::should_strip_extension("ogg"));
    assert_eq!(MagicDetector::strip_extension("a.ogg"), "a");
    assert_eq!(MagicDetector::strip_extension("a.b.ogg"), "a.b");
    assert_eq!(MagicDetector::strip_extension(".ogg"), ".ogg");
    assert_eq!(MagicDetector::strip_extension("..ogg"), ".");
    assert_eq!(MagicDetector::strip_extension("dir/x.ogg"), "x");
    assert_eq!(MagicDetector::strip_extension("dir/x.ogg/"), "x");
    assert_eq!(MagicDetector::strip_extension("dir/x.ogg/."), "x");
    assert_eq!(MagicDetector::strip_extension("noext"), "noext");
    assert_eq!(MagicDetector::strip_extension(""), "");
    assert_eq!(MagicDetector::strip_extension("a/.."), "a/..");
    assert_eq!(MagicDetector::strip_extension("/"), "/");
}

#[test]
fn stripping_undoes_adding_ogg() {
    for name in ["none", "a.b", ".", "..", "x y"] {
        let with_ext = format!("{}.ogg", name);
        assert_eq!(MagicDetector::strip_extension(&with_ext), name);
    }
}

#[test]
fn raw_repack_is_identical() {
    let contents = [b"111".to_vec(), vec![], ogg_data()];
    let original = pack_files(&["1.txt", "テスト", "bgm.ogg"], &contents).unwrap();
    let reader = FvpReader::new(original.clone()).unwrap().with_raw_mode(true);
    let names: Vec<String> =
        reader.entries().iter().map(|e| reader.resolve_name(e).unwrap()).collect();
    let refs: Vec<&str> = names.iter().map(|s| s.as_str()).collect();
    let mut b = FvpBuilder::new(&refs, true).unwrap();
    for e in reader.entries() {
        let mut data = Vec::new();
        reader.extract_entry(e, &mut data).unwrap();
        b.write_file(&data).unwrap();
    }
    b.finish().unwrap();
    assert_eq!(b.into_inner(), original);
}

#[test]
fn error_messages_are_kept_apart() {
    let e = FvpError::CountMismatch { expected: 1, actual: 2 };
    assert!(format!("{:?}", e).contains("CountMismatch"));
    let e = FvpError::FormatError("bad".to_string());
    assert!(format!("{:?}", e).contains("bad"));
}

#[test]
fn pack_order_sorts_by_name_bytes() {
    let keys: Vec<Vec<u8>> =
        vec![b"b.txt".to_vec(), b"a.txt".to_vec(), b"a".to_vec(), b"B".to_vec()];
    assert_eq!(fvp_rs::order::pack_order(&keys), vec![3, 2, 1, 0]);
    assert!(fvp_rs::order::pack_order(&[]).is_empty());
    assert!(fvp_rs::order::bytes_less_eq(b"ab", b"abc"));
    assert!(!fvp_rs::order::bytes_less_eq(b"abc", b"ab"));
}

#[test]
fn io_errors_convert() {
    let e: FvpError = std::io::Error::from(std::io::ErrorKind::NotFound).into();
    match e {
        FvpError::Io(inner) => assert_eq!(inner.kind(), std::io::ErrorKind::NotFound),
        _ => panic!("expected an I/O error"),
    }
}

#[test]
fn names_size_field_is_not_read() {
    let mut v = two_text_files();
    v[4] = 0xff;
    v[7] = 0x12;
    let a = FvpReader::new(two_text_files()).unwrap();
    let b = FvpReader::new(v).unwrap();
    let names = |r: &FvpReader| -> Vec<(String, u32, u32, u32)> {
        r.entries().iter().map(|e| (e.name.clone(), e.offset, e.size, e.name_offset)).collect()
    };
    assert_eq!(names(&a), names(&b));
}

/// The archive of one file `none` holding `OggS\0`.
fn none_ogg_archive() -> Vec<u8> {
    let mut v: Vec<u8> = vec![1, 0, 0, 0, 5, 0, 0, 0, 0, 0, 0, 0, 25, 0, 0, 0, 5, 0, 0, 0];
    v.extend_from_slice(b"none\0OggS\0");
    v
}

#[test]
fn resolve_name_on_fixed_archive() {
    let files = extract_files(none_ogg_archive()).unwrap();
    assert_eq!(files.len(), 1);
    assert_eq!(files[0].0, "none");
    assert_eq!(files[0].1, "none.ogg");
    assert_eq!(files[0].2, b"OggS\0".to_vec());
    assert_eq!(pack_files(&["none"], &[b"OggS\0".to_vec()]).unwrap(), none_ogg_archive());
    assert_eq!(pack_files(&["none.ogg"], &[b"OggS\0".to_vec()]).unwrap(), none_ogg_archive());
}

#[test]
fn pack_order_ignores_listing_order() {
    let a: Vec<Vec<u8>> = vec![b"2.txt".to_vec(), b"10.txt".to_vec(), b"1.txt".to_vec()];
    let b: Vec<Vec<u8>> = vec![b"1.txt".to_vec(), b"2.txt".to_vec(), b"10.txt".to_vec()];
    let sa: Vec<&[u8]> =
        fvp_rs::order::pack_order(&a).iter().map(|&i| a[i].as_slice()).collect();
    let sb: Vec<&[u8]> =
        fvp_rs::order::pack_order(&b).iter().map(|&i| b[i].as_slice()).collect();
    assert_eq!(sa, sb);
    assert_eq!(sa, vec![&b"1.txt"[..], &b"10.txt"[..], &b"2.txt"[..]]);
}
