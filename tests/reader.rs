use vpk::reader::{decode_archive_index, decode_entry};
use vpk::{DirEntry, DirError, DirReader};

fn header_v1(tree_size: u32) -> Vec<u8> {
    let mut v = Vec::new();
    v.extend_from_slice(&0x55aa1234u32.to_le_bytes());
    v.extend_from_slice(&1u32.to_le_bytes());
    v.extend_from_slice(&tree_size.to_le_bytes());
    v
}

fn header_v2(tree_size: u32, sizes: [u32; 4]) -> Vec<u8> {
    let mut v = Vec::new();
    v.extend_from_slice(&0x55aa1234u32.to_le_bytes());
    v.extend_from_slice(&2u32.to_le_bytes());
    v.extend_from_slice(&tree_size.to_le_bytes());
    for s in sizes.iter() {
        v.extend_from_slice(&s.to_le_bytes());
    }
    v
}

fn token(v: &mut Vec<u8>, s: &str) {
    v.extend_from_slice(s.as_bytes());
    v.push(0);
}

fn record(v: &mut Vec<u8>, crc: u32, archive: u16, offset: u32, length: u32, terminator: u16, preload: &[u8]) {
    v.extend_from_slice(&crc.to_le_bytes());
    v.extend_from_slice(&(preload.len() as u16).to_le_bytes());
    v.extend_from_slice(&archive.to_le_bytes());
    v.extend_from_slice(&offset.to_le_bytes());
    v.extend_from_slice(&length.to_le_bytes());
    v.extend_from_slice(&terminator.to_le_bytes());
    v.extend_from_slice(preload);
}

/// A tree with one extension, one directory and one file.
fn single_file_tree(extn: &str, dir: &str, name: &str, terminator: u16) -> Vec<u8> {
    let mut t = Vec::new();
    token(&mut t, extn);
    token(&mut t, dir);
    token(&mut t, name);
    record(&mut t, 0xdeadbeef, 0x7fff, 16, 32, terminator, &[]);
    t.push(0);
    t.push(0);
    t.push(0);
    t
}

fn file_of(tree: Vec<u8>) -> Vec<u8> {
    let mut d = header_v1(tree.len() as u32);
    d.extend_from_slice(&tree);
    d
}

fn collect(r: &mut DirReader) -> Vec<DirEntry> {
    let mut out = Vec::new();
    loop {
        match r.next() {
            None => return out,
            Some(Ok(e)) => out.push(e),
            Some(Err(e)) => panic!("unexpected error {:?}", e),
        }
    }
}

#[test]
fn header_version_one() {
    let r = DirReader::new(header_v1(0x01020304)).unwrap();
    assert_eq!(r.tree_size(), 0x01020304);
    assert_eq!(r.data_offset(), 12 + 0x01020304);
    assert_eq!(r.data_len(), None);
}

#[test]
fn header_version_two() {
    let r = DirReader::new(header_v2(100, [5000, 16, 48, 296])).unwrap();
    assert_eq!(r.tree_size(), 100);
    assert_eq!(r.data_offset(), 128);
    assert_eq!(r.data_len(), Some(5000));
}

#[test]
fn bad_signature_is_refused() {
    let mut d = header_v1(0);
    d[0] = 0x35;
    match DirReader::new(d) {
        Err(DirError::BadSignature(s)) => assert_eq!(s, 0x55aa1235),
        _ => panic!("expected a signature error"),
    }
}

#[test]
fn unsupported_version_is_refused() {
    let mut d = header_v1(0);
    d[4] = 3;
    assert!(matches!(DirReader::new(d), Err(DirError::UnsupportedVersion(3))));
}

#[test]
fn truncated_header_is_refused() {
    let mut d = header_v2(0, [0; 4]);
    d.truncate(27);
    assert!(matches!(DirReader::new(d), Err(DirError::UnexpectedEnd)));
    assert!(matches!(DirReader::new(vec![0x34, 0x12]), Err(DirError::UnexpectedEnd)));
}

#[test]
fn root_directory_placeholder() {
    let mut r = DirReader::new(file_of(single_file_tree("txt", " ", "readme", 0xffff))).unwrap();
    let e = r.next().unwrap().unwrap();
    assert_eq!(e.file, "readme.txt");
    assert_eq!(e.crc, 0xdeadbeef);
    assert_eq!(e.entry_offset, 16);
    assert_eq!(e.entry_length, 32);
    assert!(r.next().is_none());
}

#[test]
fn directory_name_and_extension() {
    let mut r = DirReader::new(file_of(single_file_tree("bsp", "maps", "de_test", 0xffff))).unwrap();
    let e = r.next().unwrap().unwrap();
    assert_eq!(e.file, "maps/de_test.bsp");
    assert!(r.next().is_none());
}

#[test]
fn placeholder_extension_and_name() {
    let mut r = DirReader::new(file_of(single_file_tree(" ", "bin", "tool", 0xffff))).unwrap();
    assert_eq!(r.next().unwrap().unwrap().file, "bin/tool");
    let mut r = DirReader::new(file_of(single_file_tree("cfg", "etc", " ", 0xffff))).unwrap();
    assert_eq!(r.next().unwrap().unwrap().file, "etc/.cfg");
}

#[test]
fn bad_terminator_is_an_error() {
    let mut r = DirReader::new(file_of(single_file_tree("txt", " ", "readme", 0x1234))).unwrap();
    match r.next() {
        Some(Err(DirError::BadTerminator(t))) => assert_eq!(t, 0x1234),
        _ => panic!("expected a terminator error"),
    }
    assert!(r.next().is_none());
}

#[test]
fn archive_index_field() {
    assert_eq!(decode_archive_index(0x7fff), None);
    assert_eq!(decode_archive_index(0), Some(0));
    assert_eq!(decode_archive_index(0xffff), Some(0xffff));
    let mut t = Vec::new();
    token(&mut t, "vtf");
    token(&mut t, "materials");
    token(&mut t, "a");
    record(&mut t, 1, 0x7fff, 0, 0, 0xffff, &[]);
    token(&mut t, "b");
    record(&mut t, 2, 3, 0, 0, 0xffff, &[]);
    t.extend_from_slice(&[0, 0, 0]);
    let mut r = DirReader::new(file_of(t)).unwrap();
    let es = collect(&mut r);
    assert_eq!(es.len(), 2);
    assert_eq!(es[0].archive_index, None);
    assert_eq!(es[1].archive_index, Some(3));
}

#[test]
fn double_terminator_ends_the_tree() {
    let mut t = Vec::new();
    token(&mut t, "txt");
    token(&mut t, " ");
    token(&mut t, "a");
    record(&mut t, 0, 0x7fff, 0, 0, 0xffff, &[]);
    t.extend_from_slice(&[0, 0, 0]);
    // a further file after the end must not be seen
    token(&mut t, "txt");
    token(&mut t, " ");
    token(&mut t, "hidden");
    record(&mut t, 0, 0x7fff, 0, 0, 0xffff, &[]);
    let mut r = DirReader::new(file_of(t)).unwrap();
    assert_eq!(r.next().unwrap().unwrap().file, "a.txt");
    assert!(r.next().is_none());
    assert!(r.next().is_none());
    assert!(r.next().is_none());
}

#[test]
fn preload_data_is_returned() {
    let mut t = Vec::new();
    token(&mut t, "txt");
    token(&mut t, "docs");
    token(&mut t, "a");
    record(&mut t, 7, 0x7fff, 0, 0, 0xffff, &[1, 2, 3, 4, 5]);
    token(&mut t, "b");
    record(&mut t, 8, 0x7fff, 0, 0, 0xffff, &[9]);
    t.extend_from_slice(&[0, 0, 0]);
    let mut r = DirReader::new(file_of(t)).unwrap();
    let es = collect(&mut r);
    assert_eq!(es[0].preload_data, vec![1, 2, 3, 4, 5]);
    assert_eq!(es[1].preload_data, vec![9]);
    assert_eq!(es[1].file, "docs/b.txt");
    assert_eq!(es[1].crc, 8);
}

#[test]
fn synthetic_tree_round_trip() {
    let layout: Vec<(&str, Vec<(&str, Vec<&str>)>)> = vec![
        ("txt", vec![(" ", vec!["readme", "license"]), ("docs", vec!["guide"])]),
        ("bsp", vec![("maps", vec!["de_test", "cs_office", "de_dust2"])]),
        (" ", vec![("bin", vec!["tool"])]),
    ];
    let mut t = Vec::new();
    let mut expected = Vec::new();
    let mut n: u32 = 0;
    for (extn, dirs) in layout.iter() {
        token(&mut t, extn);
        for (dir, names) in dirs.iter() {
            token(&mut t, dir);
            for name in names.iter() {
                token(&mut t, name);
                record(&mut t, n, n as u16, 100 * n, 10 + n, 0xffff, &[n as u8; 3]);
                let mut path = String::new();
                if *dir != " " {
                    path.push_str(dir);
                    path.push('/');
                }
                path.push_str(name);
                if *extn != " " {
                    path.push('.');
                    path.push_str(extn);
                }
                expected.push(path);
                n += 1;
            }
            t.push(0);
        }
        t.push(0);
    }
    t.push(0);
    let tree_size = t.len();
    let mut d = file_of(t);
    d.extend_from_slice(&[0xaa; 40]);
    let mut r = DirReader::new(d).unwrap();
    assert_eq!(r.tree_size(), tree_size);
    let es = collect(&mut r);
    assert_eq!(es.len(), 7);
    for (i, e) in es.iter().enumerate() {
        assert_eq!(e.file, expected[i]);
        assert_eq!(e.crc, i as u32);
        assert_eq!(e.archive_index, Some(i as u16));
        assert_eq!(e.entry_offset, 100 * i as u32);
        assert_eq!(e.entry_length, 10 + i as u32);
        assert_eq!(e.preload_data, vec![i as u8; 3]);
    }
    assert_eq!(r.bytes_consumed(), tree_size);
}

#[test]
fn tree_size_bounds_the_walk() {
    // the tree lacks its final terminator; the bytes after it are not read
    let mut t = Vec::new();
    token(&mut t, "txt");
    token(&mut t, " ");
    token(&mut t, "a");
    record(&mut t, 0, 0x7fff, 0, 0, 0xffff, &[]);
    let tree_size = t.len();
    let mut d = file_of(t);
    token(&mut d, "b");
    record(&mut d, 0, 0x7fff, 0, 0, 0xffff, &[]);
    let mut r = DirReader::new(d).unwrap();
    assert_eq!(r.next().unwrap().unwrap().file, "a.txt");
    assert!(r.next().is_none());
    assert_eq!(r.bytes_consumed(), tree_size);
}

#[test]
fn truncated_record_is_an_error() {
    let mut t = single_file_tree("txt", " ", "readme", 0xffff);
    t.truncate(4 + 2 + 7 + 10);
    let mut r = DirReader::new(file_of(t)).unwrap();
    assert!(matches!(r.next(), Some(Err(DirError::UnexpectedEnd))));
    assert!(r.next().is_none());
}

#[test]
fn unterminated_token_is_an_error() {
    let mut r = DirReader::new(file_of(b"txt".to_vec())).unwrap();
    assert!(matches!(r.next(), Some(Err(DirError::UnexpectedEnd))));
}

#[test]
fn invalid_text_is_an_error() {
    let mut t = Vec::new();
    token(&mut t, "txt");
    token(&mut t, " ");
    t.extend_from_slice(&[0xff, 0xfe, 0]);
    record(&mut t, 0, 0x7fff, 0, 0, 0xffff, &[]);
    t.extend_from_slice(&[0, 0, 0]);
    let mut r = DirReader::new(file_of(t)).unwrap();
    assert!(matches!(r.next(), Some(Err(DirError::InvalidText))));
}

#[test]
fn empty_tree_ends_at_once() {
    let mut r = DirReader::new(file_of(vec![0])).unwrap();
    assert!(r.next().is_none());
    let mut r = DirReader::new(header_v1(0)).unwrap();
    assert!(r.next().is_none());
}

#[test]
fn decode_entry_fields() {
    let mut rec = Vec::new();
    record(&mut rec, 0x01020304, 9, 0x0a0b0c0d, 77, 0xffff, &[5, 6]);
    rec.extend_from_slice(&[1, 1, 1]);
    let e = decode_entry(String::from("a/b.c"), &rec).unwrap();
    assert_eq!(e.file, "a/b.c");
    assert_eq!(e.crc, 0x01020304);
    assert_eq!(e.archive_index, Some(9));
    assert_eq!(e.entry_offset, 0x0a0b0c0d);
    assert_eq!(e.entry_length, 77);
    assert_eq!(e.preload_data, vec![5, 6]);
}

#[test]
fn decode_entry_errors() {
    let mut rec = Vec::new();
    record(&mut rec, 0, 0x7fff, 0, 0, 0x1234, &[]);
    assert!(matches!(decode_entry(String::new(), &rec), Err(DirError::BadTerminator(0x1234))));
    assert!(matches!(decode_entry(String::new(), &rec[..17]), Err(DirError::UnexpectedEnd)));
    let mut rec = Vec::new();
    record(&mut rec, 0, 0x7fff, 0, 0, 0xffff, &[1, 2, 3]);
    rec.pop();
    assert!(matches!(decode_entry(String::new(), &rec), Err(DirError::UnexpectedEnd)));
}

#[test]
fn read_all_collects_in_order() {
    let mut t = Vec::new();
    token(&mut t, "txt");
    token(&mut t, "a");
    token(&mut t, "x");
    record(&mut t, 1, 0x7fff, 0, 0, 0xffff, &[]);
    token(&mut t, "y");
    record(&mut t, 2, 0x7fff, 0, 0, 0xffff, &[]);
    t.push(0);
    token(&mut t, "b");
    token(&mut t, "z");
    record(&mut t, 3, 0x7fff, 0, 0, 0xffff, &[]);
    t.extend_from_slice(&[0, 0]);
    token(&mut t, "png");
    token(&mut t, " ");
    token(&mut t, "icon");
    record(&mut t, 4, 1, 0, 0, 0xffff, &[]);
    t.extend_from_slice(&[0, 0, 0]);
    let size = t.len();
    let mut r = DirReader::new(file_of(t)).unwrap();
    let es = r.read_all().unwrap();
    let files: Vec<&str> = es.iter().map(|e| e.file.as_str()).collect();
    assert_eq!(files, vec!["a/x.txt", "a/y.txt", "b/z.txt", "icon.png"]);
    assert_eq!(r.bytes_consumed(), size);
    assert!(r.read_all().unwrap().is_empty());
}

#[test]
fn read_all_reports_the_error() {
    let mut r = DirReader::new(file_of(single_file_tree("txt", " ", "readme", 0x1234))).unwrap();
    assert!(matches!(r.read_all(), Err(DirError::BadTerminator(0x1234))));
}
