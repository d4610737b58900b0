use mar_archive::bytes::{append_bytes, bytes_equal};
use mar_archive::digest_map::DigestMap;
use mar_archive::model::{FileEntry, FileIndexFile, FileInfo};
use mar_archive::order::{bytes_le, reversed, sort, Ranking};
use mar_archive::packer::ByPath;
use mar_archive::paths::{
    append_to_path, is_skipped, queue_order, relative_path, LongestFirst, SourceFile,
};
use mar_archive::showsum::{checksum_line, checksum_lines, to_hex};

fn entry(path: &str, sha: &[u8]) -> FileEntry {
    FileEntry {
        info: FileInfo {
            path: String::from(path),
            chunks: Vec::new(),
            chunks_crc32: 0,
            chunks_sha256: Vec::new(),
            original_crc32: 0,
            original_sha256: sha.to_vec(),
            modified_time: None,
            priority: 0,
        },
        file_index: 0,
        body_offset: 0,
        body_size: 0,
    }
}

#[test]
fn append_to_path_puts_the_suffix_behind() {
    assert_eq!(append_to_path("/a/b/c", "d"), "/a/b/cd");
    assert_eq!(append_to_path("/a/b/c", ".idx"), "/a/b/c.idx");
    assert_eq!(append_to_path("out", ".split.2.mar.dat"), "out.split.2.mar.dat");
    assert_eq!(append_to_path("", ""), "");
}

#[test]
fn a_path_below_the_root_keeps_what_follows_the_root() {
    assert_eq!(relative_path("/in/dir/a.txt", "/in/dir"), Some(String::from("/a.txt")));
    assert_eq!(relative_path("/in/dir/a.txt", "/in/dir/"), Some(String::from("a.txt")));
    assert_eq!(relative_path("/in/dir", "/in/dir"), Some(String::new()));
    assert_eq!(relative_path("/in/d\u{e9}/x", "/in/d\u{e9}"), Some(String::from("/x")));
    assert_eq!(relative_path("/other/a.txt", "/in/dir"), None);
    assert_eq!(relative_path("/in", "/in/dir"), None);
}

#[test]
fn only_ds_store_is_skipped() {
    assert!(is_skipped(".DS_Store"));
    assert!(!is_skipped("foo.txt"));
    assert!(!is_skipped(".DS_Store2"));
    assert!(!is_skipped(".ds_store"));
    assert!(!is_skipped("DS_Store"));
    assert!(!is_skipped(""));
}

#[test]
fn the_longest_file_is_packed_first() {
    let file = |path: &str, size| SourceFile { path: String::from(path), size };
    let files = vec![file("/a", 5), file("/b", 50), file("/c", 0), file("/d", 50), file("/e", 7)];
    let order = queue_order(files.clone());
    let sizes: Vec<u64> = order.iter().map(|f| f.size).collect();
    assert_eq!(sizes, vec![50, 50, 7, 5, 0]);
    for f in &files {
        assert!(order.contains(f));
    }
    assert!(LongestFirst::is_le(&file("/x", 2), &file("/y", 1)));
    assert!(!LongestFirst::is_le(&file("/x", 1), &file("/y", 2)));
}

#[test]
fn bytes_are_ordered_as_in_a_dictionary() {
    assert!(bytes_le(b"", b""));
    assert!(bytes_le(b"", b"a"));
    assert!(!bytes_le(b"a", b""));
    assert!(bytes_le(b"abc", b"abc"));
    assert!(bytes_le(b"abc", b"abd"));
    assert!(!bytes_le(b"abd", b"abc"));
    assert!(bytes_le(b"ab", b"abc"));
    assert!(!bytes_le(b"abc", b"ab"));
    assert!(bytes_le(b"Z", b"a"));
    assert!(bytes_le(&[0x7f], &[0x80]));
    assert!(!bytes_le(&[0xff], &[0x00, 0xff]));
}

#[test]
fn paths_are_sorted_byte_by_byte() {
    let given = vec![
        entry("/b", b""),
        entry("/a/z", b""),
        entry("/a", b""),
        entry("/\u{e9}", b""),
        entry("/a-", b""),
        entry("/B", b""),
    ];
    let sorted = sort::<FileEntry, ByPath>(given.clone());
    let paths: Vec<&str> = sorted.iter().map(|e| e.info.path.as_str()).collect();
    let mut expected: Vec<&str> = given.iter().map(|e| e.info.path.as_str()).collect();
    expected.sort_by(|a, b| a.as_bytes().cmp(b.as_bytes()));
    assert_eq!(paths, expected);
    assert_eq!(paths, vec!["/B", "/a", "/a-", "/a/z", "/b", "/\u{e9}"]);
    assert!(sort::<FileEntry, ByPath>(Vec::new()).is_empty());
}

#[test]
fn sorting_keeps_every_value() {
    let file = |size| SourceFile { path: format!("/{}", size), size };
    let mut state: u64 = 12345;
    let mut files = Vec::new();
    for _ in 0..1000 {
        state = state.wrapping_mul(6364136223846793005).wrapping_add(1442695040888963407);
        files.push(file((state >> 40) % 100));
    }
    let sorted = sort::<SourceFile, LongestFirst>(files.clone());
    assert_eq!(sorted.len(), files.len());
    for pair in sorted.windows(2) {
        assert!(pair[0].size >= pair[1].size);
    }
    let mut expected = files.clone();
    // Files of the same size stay in the order in which they came.
    expected.sort_by(|a, b| b.size.cmp(&a.size));
    assert_eq!(sorted, expected);
}

#[test]
fn values_are_turned_round() {
    assert_eq!(reversed(vec![1, 2, 3]), vec![3, 2, 1]);
    assert_eq!(reversed(Vec::<u8>::new()), Vec::<u8>::new());
    assert_eq!(reversed(vec![String::from("a")]), vec![String::from("a")]);
}

#[test]
fn bytes_are_compared_and_appended() {
    assert!(bytes_equal(b"", b""));
    assert!(bytes_equal(b"abc", b"abc"));
    assert!(!bytes_equal(b"abc", b"abd"));
    assert!(!bytes_equal(b"abc", b"ab"));
    let mut bytes = vec![1u8, 2];
    append_bytes(&mut bytes, &[3, 4, 5]);
    append_bytes(&mut bytes, &[]);
    assert_eq!(bytes, vec![1, 2, 3, 4, 5]);
}

#[test]
fn a_digest_map_holds_the_last_value_of_every_digest() {
    let mut map: DigestMap<u32> = DigestMap::new();
    assert!(!map.contains(b"one"));
    assert_eq!(map.get(b"one"), None);
    map.insert(b"one".to_vec(), 1);
    map.insert(b"two".to_vec(), 2);
    map.insert(Vec::new(), 0);
    assert_eq!(map.get(b"one"), Some(&1));
    assert_eq!(map.get(b"two"), Some(&2));
    assert_eq!(map.get(b""), Some(&0));
    assert_eq!(map.get(b"on"), None);
    map.insert(b"one".to_vec(), 11);
    assert_eq!(map.get(b"one"), Some(&11));
    assert_eq!(map.get(b"two"), Some(&2));
    assert!(map.contains(b"two"));
    assert!(!map.contains(b"three"));
}

#[test]
fn bytes_are_written_in_hexadecimal_digits() {
    assert_eq!(to_hex(&[]), "");
    assert_eq!(to_hex(&[0x00, 0x0f, 0xa0, 0xff, 0x19]), "000fa0ff19");
    let all: Vec<u8> = (0..=255).collect();
    let expected: String = all.iter().map(|b| format!("{:02x}", b)).collect();
    assert_eq!(to_hex(&all), expected);
}

#[test]
fn a_listing_has_a_line_for_every_entry() {
    let index = FileIndexFile {
        entries: vec![entry("/a.txt", &[0xde, 0xad, 0xbe, 0xef]), entry("/b c", &[0x01])],
    };
    assert_eq!(checksum_line(&index.entries[0]), "deadbeef\t/a.txt");
    assert_eq!(checksum_lines(&index), vec!["deadbeef\t/a.txt", "01\t/b c"]);
    assert!(checksum_lines(&FileIndexFile { entries: Vec::new() }).is_empty());
}
