use mar_archive::body::{pack_body, unpack};
use mar_archive::digest::checksums;
use mar_archive::model::{ChunkInfo, CompressedMethod, FileEntry, FileInfo};
use mar_archive::layout::{finish, lay_out, CopyRange};
use mar_archive::splitter::{
    distribute, largest_first, split_entries, weigh, ChunkedFile, SplitError,
};

fn entry(path: &str, sha: u8, lengths: &[u32], body_offset: u64) -> FileEntry {
    FileEntry {
        info: FileInfo {
            path: String::from(path),
            chunks: lengths
                .iter()
                .map(|&length| ChunkInfo {
                    compressed_length: length,
                    compressed_method: CompressedMethod::Zstandard,
                    original_length: 2 * length + 1,
                })
                .collect(),
            chunks_crc32: 1,
            chunks_sha256: vec![2; 32],
            original_crc32: 3,
            original_sha256: vec![sha; 32],
            modified_time: None,
            priority: 0,
        },
        file_index: 0,
        body_offset,
        body_size: lengths.iter().map(|&l| l as u64).sum(),
    }
}

fn paths(shard: &ChunkedFile) -> Vec<String> {
    shard.entries().iter().map(|e| e.info.path.clone()).collect()
}

#[test]
fn a_new_archive_holds_nothing() {
    let shard = ChunkedFile::new();
    assert_eq!(shard.size(), 0);
    assert!(shard.entries().is_empty());
    assert!(!shard.holds(&[1; 32]));
}

#[test]
fn a_body_weighs_in_once() {
    let mut shard = ChunkedFile::new();
    shard.add(entry("/a", 1, &[10, 20], 0));
    assert_eq!(shard.size(), 30);
    assert!(shard.holds(&[1; 32]));
    assert!(!shard.holds(&[2; 32]));
    shard.add(entry("/b", 1, &[10, 20], 0));
    assert_eq!(shard.size(), 30);
    shard.add(entry("/c", 2, &[5], 30));
    assert_eq!(shard.size(), 35);
    assert_eq!(paths(&shard), vec!["/a", "/b", "/c"]);
    let entries = shard.into_entries();
    assert_eq!(entries.len(), 3);
    assert_eq!(entries[2], entry("/c", 2, &[5], 30));
}

#[test]
fn a_chunk_without_a_stored_length_weighs_its_original() {
    let mut odd = entry("/a", 1, &[0, 7, 0], 0);
    assert_eq!(weigh(&odd), Some(1 + 7 + 1));
    odd.info.chunks[0].original_length = 100;
    assert_eq!(weigh(&odd), Some(100 + 7 + 1));
    assert_eq!(weigh(&entry("/b", 1, &[], 0)), Some(0));
    assert_eq!(weigh(&entry("/c", 1, &[u32::MAX, u32::MAX], 0)), Some(2 * (u32::MAX as u64)));
    let mut shard = ChunkedFile::new();
    shard.add(odd);
    assert_eq!(shard.size(), 108);
}

#[test]
fn the_heaviest_comes_first() {
    let entries = vec![
        entry("/c", 3, &[3], 0),
        entry("/a", 1, &[1], 0),
        entry("/e", 5, &[2, 3], 0),
        entry("/b", 2, &[2], 0),
        entry("/d", 4, &[4], 0),
    ];
    let order = largest_first(entries.clone()).unwrap();
    let names: Vec<&str> = order.iter().map(|e| e.info.path.as_str()).collect();
    assert_eq!(names, vec!["/e", "/d", "/c", "/b", "/a"]);
    for e in &entries {
        assert!(order.contains(e));
    }
    assert!(largest_first(Vec::new()).unwrap().is_empty());
    // Of entries of the same weight the one that came last is first.
    let ties = vec![
        entry("/first", 1, &[5], 0),
        entry("/heavy", 2, &[9], 0),
        entry("/second", 3, &[2, 3], 0),
        entry("/third", 4, &[5], 0),
    ];
    let order = largest_first(ties).unwrap();
    let names: Vec<&str> = order.iter().map(|e| e.info.path.as_str()).collect();
    assert_eq!(names, vec!["/heavy", "/third", "/second", "/first"]);
}

#[test]
fn an_entry_goes_to_the_first_archive_that_weighs_least() {
    let order = vec![
        entry("/10", 10, &[10], 0),
        entry("/9", 9, &[9], 0),
        entry("/8", 8, &[8], 0),
        entry("/7", 7, &[7], 0),
        entry("/6", 6, &[6], 0),
    ];
    let shards = distribute(order, 3).ok().unwrap();
    assert_eq!(shards.len(), 3);
    assert_eq!(paths(&shards[0]), vec!["/10"]);
    assert_eq!(paths(&shards[1]), vec!["/9", "/6"]);
    assert_eq!(paths(&shards[2]), vec!["/8", "/7"]);
    assert_eq!(shards[0].size(), 10);
    assert_eq!(shards[1].size(), 15);
    assert_eq!(shards[2].size(), 15);
}

#[test]
fn an_entry_follows_its_original() {
    let order = vec![
        entry("/a", 1, &[10], 0),
        entry("/b", 2, &[9], 0),
        entry("/a2", 1, &[10], 0),
        entry("/c", 3, &[1], 0),
        entry("/a3", 1, &[10], 0),
    ];
    let shards = distribute(order, 2).ok().unwrap();
    assert_eq!(paths(&shards[0]), vec!["/a", "/a2", "/a3"]);
    assert_eq!(paths(&shards[1]), vec!["/b", "/c"]);
    assert_eq!(shards[0].size(), 10);
    assert_eq!(shards[1].size(), 10);
}

#[test]
fn entries_need_an_archive() {
    assert_eq!(distribute(vec![entry("/a", 1, &[1], 0)], 0).err(), Some(SplitError::NoShards));
    assert!(distribute(Vec::new(), 0).ok().unwrap().is_empty());
    assert_eq!(split_entries(vec![entry("/a", 1, &[1], 0)], 0).err(), Some(SplitError::NoShards));
    assert_eq!(distribute(Vec::new(), 2).ok().unwrap().len(), 2);
}

#[test]
fn ten_files_over_three_archives() {
    const KIB: u32 = 1024;
    let mut entries = Vec::new();
    let mut offset = 0;
    // Not in the order of their sizes.
    for size in [3u32, 10, 1, 7, 5, 9, 2, 8, 4, 6] {
        let e = entry(&format!("/file{}", size), size as u8, &[size * KIB], offset);
        offset += e.body_size;
        entries.push(e);
    }
    let shards = split_entries(entries.clone(), 3).ok().unwrap();
    assert_eq!(shards.len(), 3);
    assert_eq!(paths(&shards[0]), vec!["/file10", "/file5", "/file4"]);
    assert_eq!(paths(&shards[1]), vec!["/file9", "/file6", "/file3"]);
    assert_eq!(paths(&shards[2]), vec!["/file8", "/file7", "/file2", "/file1"]);
    // The paths of the archives are the paths that came in.
    let mut found: Vec<String> = shards.iter().flat_map(paths).collect();
    found.sort();
    let mut given: Vec<String> = entries.iter().map(|e| e.info.path.clone()).collect();
    given.sort();
    assert_eq!(found, given);
    // Every entry is found as it was.
    for e in &entries {
        assert_eq!(shards.iter().filter(|s| s.entries().contains(e)).count(), 1);
    }
    // No archive weighs more than its share and the heaviest entry together.
    let total: u64 = shards.iter().map(|s| s.size()).sum();
    assert_eq!(total, 55 * KIB as u64);
    for shard in &shards {
        assert!(shard.size() <= total / 3 + 10 * KIB as u64);
    }
    assert_eq!(shards.iter().map(|s| s.size()).max(), Some(19 * KIB as u64));
}

#[test]
fn a_layout_copies_every_body_once() {
    let entries = vec![
        entry("/a", 1, &[10, 5], 100),
        entry("/b", 2, &[7], 500),
        entry("/a2", 1, &[10, 5], 100),
        entry("/c", 3, &[], 900),
    ];
    let layout = lay_out(&entries).unwrap();
    assert_eq!(
        layout.copies,
        vec![
            CopyRange { source_offset: 100, length: 15 },
            CopyRange { source_offset: 500, length: 7 },
            CopyRange { source_offset: 900, length: 0 },
        ]
    );
    let offsets: Vec<u64> = layout.entries.iter().map(|e| e.body_offset).collect();
    assert_eq!(offsets, vec![0, 15, 0, 22]);
    for (out, given) in layout.entries.iter().zip(&entries) {
        assert_eq!(out.info, given.info);
        assert_eq!(out.body_size, given.body_size);
        assert_eq!(out.file_index, 0);
    }
}

#[test]
fn a_layout_refuses_a_body_of_another_length() {
    let mut odd = entry("/a", 1, &[10, 5], 0);
    odd.body_size = 16;
    assert_eq!(lay_out(&vec![odd.clone()]), Err(SplitError::BodySizeMismatch));
    // A body that is not copied is not looked at.
    let fine = entry("/b", 1, &[10, 5], 0);
    let layout = lay_out(&vec![fine, odd]).unwrap();
    assert_eq!(layout.copies.len(), 1);
    assert_eq!(layout.entries[1].body_offset, 0);
    assert_eq!(layout.entries[1].body_size, 16);
}

#[test]
fn the_archives_of_a_split_are_laid_out_backwards() {
    let order = vec![
        entry("/10", 10, &[10], 0),
        entry("/9", 9, &[9], 10),
        entry("/8", 8, &[8], 19),
        entry("/7", 7, &[7], 27),
        entry("/6", 6, &[6], 34),
    ];
    let shards = distribute(order, 3).ok().unwrap();
    let layouts = finish(shards).unwrap();
    assert_eq!(layouts.len(), 3);
    let names = |i: usize| -> Vec<&str> {
        layouts[i].entries.iter().map(|e| e.info.path.as_str()).collect()
    };
    // The last archive first, and in every archive the lightest entry first.
    assert_eq!(names(0), vec!["/7", "/8"]);
    assert_eq!(names(1), vec!["/6", "/9"]);
    assert_eq!(names(2), vec!["/10"]);
    assert_eq!(
        layouts[0].copies,
        vec![
            CopyRange { source_offset: 27, length: 7 },
            CopyRange { source_offset: 19, length: 8 }
        ]
    );
    assert_eq!(layouts[0].entries[1].body_offset, 7);
}

#[test]
fn a_split_archive_still_unpacks() {
    // An archive of six files, two of them the same, packed for real.
    let contents: Vec<Vec<u8>> = (0..6u32)
        .map(|i| {
            let n = if i == 4 { 1 } else { i };
            format!("contents of file {}\n", n).repeat(200 * (n as usize + 1)).into_bytes()
        })
        .collect();
    let mut data_file = Vec::new();
    let mut entries = Vec::new();
    for (i, content) in contents.iter().enumerate() {
        let body = pack_body(content).unwrap();
        entries.push(FileEntry {
            info: FileInfo {
                path: format!("/f{}", i),
                chunks: body.chunks().clone(),
                chunks_crc32: body.chunks_checksums().crc32,
                chunks_sha256: body.chunks_checksums().sha256.clone(),
                original_crc32: body.original_checksums().crc32,
                original_sha256: body.original_checksums().sha256.clone(),
                modified_time: None,
                priority: 0,
            },
            file_index: 0,
            body_offset: data_file.len() as u64,
            body_size: body.bytes().len() as u64,
        });
        data_file.extend_from_slice(body.bytes());
    }
    let shards = split_entries(entries.clone(), 3).ok().unwrap();
    let layouts = finish(shards).unwrap();
    let mut seen = Vec::new();
    for layout in &layouts {
        let mut shard_data = Vec::new();
        for copy in &layout.copies {
            let from = copy.source_offset as usize;
            shard_data.extend_from_slice(&data_file[from..from + copy.length as usize]);
        }
        for e in &layout.entries {
            let i: usize = e.info.path[2..].parse().unwrap();
            assert_eq!(e.info, entries[i].info);
            let body = &shard_data[e.body_offset as usize..(e.body_offset + e.body_size) as usize];
            assert_eq!(checksums(body).sha256, e.info.chunks_sha256);
            let content = unpack(&e.info.chunks, body).unwrap();
            assert_eq!(content, contents[i]);
            assert_eq!(checksums(&content).sha256, e.info.original_sha256);
            assert_eq!(checksums(&content).crc32, e.info.original_crc32);
            seen.push(i);
        }
    }
    seen.sort();
    assert_eq!(seen, vec![0, 1, 2, 3, 4, 5]);
    // The two files with the same contents lie in one archive and share a body.
    let with = |i: usize| {
        layouts.iter().position(|l| l.entries.iter().any(|e| e.info.path == format!("/f{}", i)))
    };
    assert_eq!(with(1), with(4));
    let layout = &layouts[with(1).unwrap()];
    let one = layout.entries.iter().find(|e| e.info.path == "/f1").unwrap();
    let four = layout.entries.iter().find(|e| e.info.path == "/f4").unwrap();
    assert_eq!(one.body_offset, four.body_offset);
}
