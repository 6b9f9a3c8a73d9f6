use std::collections::hash_map::DefaultHasher;
use std::hash::Hasher;

use fclones::config::Config;
use fclones::dedup::needs_file_ids;
use fclones::files::{FileHash, FileId, FileInfo, FileLen, Path};
use fclones::group::FileGroup;
use fclones::process::{process, Reply, Search};
use fclones::stages::{range_of_group, HashRange, Stage, MAX_PREFIX_LEN, SUFFIX_LEN};

/// A file of a disk in memory.
struct DiskFile {
    path: Path,
    inode: u64,
    contents: Vec<u8>,
}

fn path(text: &str) -> Path {
    Path {
        text: text.as_bytes().to_vec(),
    }
}

fn write_test_file(name: &str, inode: u64, prefix: &[u8], mid: &[u8], suffix: &[u8]) -> DiskFile {
    DiskFile {
        path: path(name),
        inode,
        contents: [prefix, mid, suffix].concat(),
    }
}

fn find<'a>(disk: &'a [DiskFile], path: &Path) -> &'a DiskFile {
    disk.iter().find(|f| f.path == *path).unwrap()
}

fn info(file: &DiskFile) -> FileInfo {
    FileInfo {
        path: file.path.clone(),
        len: FileLen(file.contents.len() as u64),
        id_hash: file.inode % 16,
    }
}

fn hash(disk: &[DiskFile], path: &Path, range: HashRange) -> Option<FileHash> {
    let start = range.pos.0 as usize;
    let end = start + range.len.0 as usize;
    let bytes = find(disk, path).contents.get(start..end)?;
    let mut hasher = DefaultHasher::new();
    hasher.write(bytes);
    Some(FileHash(hasher.finish() as u128))
}

fn hashes(disk: &[DiskFile], stage: Stage, groups: &[FileGroup<Path>]) -> Vec<Vec<Option<FileHash>>> {
    groups
        .iter()
        .map(|g| match range_of_group(stage, g) {
            Some(range) => g.files.iter().map(|p| hash(disk, p, range)).collect(),
            None => Vec::new(),
        })
        .collect()
}

/// Searches among the files at the given indices of the disk, and returns the report together
/// with the number of files that were hashed.
fn search(config: &Config, disk: &[DiskFile], scan: &[usize]) -> (Vec<FileGroup<Path>>, usize) {
    let found = vec![scan.iter().map(|i| info(&disk[*i])).collect()];
    let mut state = process(config, found);
    let mut hashed = 0;
    loop {
        let reply = match &state {
            Search::PruningLinks(groups) => Reply::FileIds(
                groups
                    .iter()
                    .map(|g| {
                        if needs_file_ids(config, &g.files) {
                            g.files
                                .iter()
                                .map(|f| {
                                    Some(FileId {
                                        inode: find(disk, &f.path).inode,
                                        device: 1,
                                    })
                                })
                                .collect()
                        } else {
                            Vec::new()
                        }
                    })
                    .collect(),
            ),
            Search::Splitting(stage, groups) => {
                let hashes = hashes(disk, *stage, groups);
                hashed += hashes.iter().map(|h| h.len()).sum::<usize>();
                Reply::FileHashes(hashes)
            }
            Search::Finished(_) => break,
        };
        state = state.advance(config, reply);
    }
    match state {
        Search::Finished(groups) => (groups, hashed),
        _ => unreachable!(),
    }
}

fn process_all(config: &Config, disk: &[DiskFile]) -> Vec<FileGroup<Path>> {
    let scan: Vec<usize> = (0..disk.len()).collect();
    search(config, disk, &scan).0
}

#[test]
fn identical_small_files() {
    let disk = vec![
        write_test_file("target/test/main/identical_small_files/file1", 1, b"aaa", b"", b""),
        write_test_file("target/test/main/identical_small_files/file2", 2, b"aaa", b"", b""),
    ];
    let config = Config::default();
    let results = process_all(&config, &disk);
    assert_eq!(results.len(), 1);
    assert_eq!(results[0].len, FileLen(3));
    assert_eq!(results[0].files.len(), 2);
}

#[test]
fn identical_large_files() {
    let prefix = [0; MAX_PREFIX_LEN as usize];
    let disk = vec![
        write_test_file(
            "target/test/main/identical_large_files/file1",
            1,
            &prefix,
            &[1; 4096],
            &[2; 4096],
        ),
        write_test_file(
            "target/test/main/identical_large_files/file2",
            2,
            &prefix,
            &[1; 4096],
            &[2; 4096],
        ),
    ];
    let config = Config::default();
    let results = process_all(&config, &disk);
    assert_eq!(results.len(), 1);
    assert_eq!(results[0].files.len(), 2);
}

#[test]
fn files_differing_by_size() {
    let disk = vec![
        write_test_file("target/test/main/files_differing_by_size/file1", 1, b"aaaa", b"", b""),
        write_test_file("target/test/main/files_differing_by_size/file2", 2, b"aaa", b"", b""),
    ];
    let mut config = Config::default();
    config.rf_over = Some(0);
    let results = process_all(&config, &disk);
    assert_eq!(results.len(), 2);
    assert_eq!(results[0].files, vec![disk[0].path.clone()]);
    assert_eq!(results[1].files, vec![disk[1].path.clone()]);
}

#[test]
fn files_differing_by_prefix() {
    let disk = vec![
        write_test_file("target/test/main/files_differing_by_prefix/file1", 1, b"aaa", b"", b""),
        write_test_file("target/test/main/files_differing_by_prefix/file2", 2, b"bbb", b"", b""),
    ];
    let mut config = Config::default();
    config.unique = true;
    let results = process_all(&config, &disk);
    assert_eq!(results.len(), 2);
    assert_eq!(results[0].files.len(), 1);
    assert_eq!(results[1].files.len(), 1);
}

#[test]
fn files_differing_by_suffix() {
    let prefix = [0; MAX_PREFIX_LEN as usize];
    let mid = [1; (MAX_PREFIX_LEN + 2 * SUFFIX_LEN) as usize];
    let disk = vec![
        write_test_file(
            "target/test/main/files_differing_by_suffix/file1",
            1,
            &prefix,
            &mid,
            b"suffix1",
        ),
        write_test_file(
            "target/test/main/files_differing_by_suffix/file2",
            2,
            &prefix,
            &mid,
            b"suffix2",
        ),
    ];
    let mut config = Config::default();
    config.unique = true;
    let results = process_all(&config, &disk);
    assert_eq!(results.len(), 2);
    assert_eq!(results[0].files.len(), 1);
    assert_eq!(results[1].files.len(), 1);
}

#[test]
fn files_differing_by_middle() {
    let prefix = [0; MAX_PREFIX_LEN as usize];
    let suffix = [1; (SUFFIX_LEN * 2) as usize];
    let disk = vec![
        write_test_file(
            "target/test/main/files_differing_by_middle/file1",
            1,
            &prefix,
            b"middle1",
            &suffix,
        ),
        write_test_file(
            "target/test/main/files_differing_by_middle/file2",
            2,
            &prefix,
            b"middle2",
            &suffix,
        ),
    ];
    let mut config = Config::default();
    config.unique = true;
    let results = process_all(&config, &disk);
    assert_eq!(results.len(), 2);
    assert_eq!(results[0].files.len(), 1);
    assert_eq!(results[1].files.len(), 1);
}

#[test]
fn hard_links() {
    let disk = vec![
        write_test_file("target/test/main/hard_links/file1", 1, b"aaa", b"", b""),
        write_test_file("target/test/main/hard_links/file2", 1, b"aaa", b"", b""),
    ];
    let mut config = Config::default();
    config.unique = true;
    let results = process_all(&config, &disk);
    assert_eq!(results.len(), 1);
    assert_eq!(results[0].files.len(), 1);
}

#[test]
fn duplicate_input_files() {
    let disk = vec![write_test_file(
        "target/test/main/duplicate_input_files/file1",
        1,
        b"foo",
        b"",
        b"",
    )];
    let mut config = Config::default();
    config.unique = true;
    config.hard_links = true;
    let results = search(&config, &disk, &[0, 0, 0]).0;
    assert_eq!(results.len(), 1);
    assert_eq!(results[0].files.len(), 1);
}

#[test]
fn hard_links_count_as_copies_if_wanted() {
    let disk = vec![
        write_test_file("d/file1", 1, b"aaa", b"", b""),
        write_test_file("d/file2", 1, b"aaa", b"", b""),
    ];
    let mut config = Config::default();
    assert_eq!(process_all(&config, &disk).len(), 0);
    config.hard_links = true;
    let results = process_all(&config, &disk);
    assert_eq!(results.len(), 1);
    assert_eq!(results[0].files, vec![path("d/file1"), path("d/file2")]);
}

#[test]
fn colliding_id_hashes_do_not_drop_files() {
    // inodes 1 and 17 have the same hash
    let disk = vec![
        write_test_file("d/file1", 1, b"aaa", b"", b""),
        write_test_file("d/file2", 17, b"aaa", b"", b""),
        write_test_file("d/file3", 1, b"aaa", b"", b""),
    ];
    let results = process_all(&Config::default(), &disk);
    assert_eq!(results.len(), 1);
    assert_eq!(results[0].files, vec![path("d/file1"), path("d/file2")]);
}

#[test]
fn report_is_sorted() {
    let disk = vec![
        write_test_file("d/z", 1, b"aa", b"", b""),
        write_test_file("d/c", 2, b"bbbb", b"", b""),
        write_test_file("d/b", 3, b"aa", b"", b""),
        write_test_file("d/a", 4, b"bbbb", b"", b""),
        write_test_file("d/y", 5, b"ccc", b"", b""),
        write_test_file("d/x", 6, b"ccc", b"", b""),
        write_test_file("d/q", 7, b"xxx", b"", b""),
        write_test_file("d/p", 8, b"xxx", b"", b""),
    ];
    let results = process_all(&Config::default(), &disk);
    let files: Vec<Vec<Path>> = results.iter().map(|g| g.files.clone()).collect();
    assert_eq!(
        files,
        vec![
            vec![path("d/a"), path("d/c")],
            vec![path("d/x"), path("d/y")],
            vec![path("d/p"), path("d/q")],
            vec![path("d/b"), path("d/z")],
        ]
    );
}

#[test]
fn rf_over_and_rf_under_bound_the_groups() {
    let disk = vec![
        write_test_file("1/a", 1, b"a", b"", b""),
        write_test_file("2/a", 2, b"bb", b"", b""),
        write_test_file("2/b", 3, b"bb", b"", b""),
        write_test_file("3/a", 4, b"ccc", b"", b""),
        write_test_file("3/b", 5, b"ccc", b"", b""),
        write_test_file("3/c", 6, b"ccc", b"", b""),
    ];
    let sizes = |config: &Config| -> Vec<usize> {
        process_all(config, &disk).iter().map(|g| g.files.len()).collect()
    };
    let mut config = Config::default();
    assert_eq!(sizes(&config), vec![3, 2]);
    config.rf_over = Some(2);
    assert_eq!(sizes(&config), vec![3]);
    config.rf_over = None;
    config.rf_under = Some(3);
    assert_eq!(sizes(&config), vec![2, 1]);
    config.rf_over = Some(1);
    assert_eq!(sizes(&config), vec![2]);
    config = Config::default();
    config.unique = true;
    assert_eq!(sizes(&config), vec![1]);
}

#[test]
fn files_of_unwanted_lengths_are_not_searched() {
    let disk = vec![
        write_test_file("1/a", 1, b"a", b"", b""),
        write_test_file("1/b", 2, b"a", b"", b""),
        write_test_file("2/a", 3, b"bb", b"", b""),
        write_test_file("2/b", 4, b"bb", b"", b""),
        write_test_file("3/a", 5, b"ccc", b"", b""),
        write_test_file("3/b", 6, b"ccc", b"", b""),
    ];
    let mut config = Config::default();
    config.min_size = FileLen(2);
    config.max_size = Some(FileLen(2));
    let results = process_all(&config, &disk);
    assert_eq!(results.len(), 1);
    assert_eq!(results[0].len, FileLen(2));
}

#[test]
fn limits_only_filter_the_groups() {
    let disk = vec![
        write_test_file("1/a", 1, b"aaa", b"", b""),
        write_test_file("2/a", 2, b"bbb", b"", b""),
        write_test_file("2/b", 3, b"bbb", b"", b""),
        write_test_file("3/a", 4, b"ccc", b"", b""),
        write_test_file("3/b", 5, b"ccc", b"", b""),
        write_test_file("3/c", 6, b"ccc", b"", b""),
        write_test_file("3/d", 6, b"ccc", b"", b""),
        write_test_file("4/a", 7, b"dddd", b"", b""),
    ];
    for hard_links in vec![false, true] {
        let mut config = Config::default();
        config.hard_links = hard_links;
        config.rf_over = Some(0);
        let all = process_all(&config, &disk);
        assert_eq!(all.len(), 4);
        for over in 0..5 {
            for under in 0..6 {
                config.rf_over = Some(over);
                config.rf_under = Some(under);
                let mut within = all.clone();
                within.retain(|g| over < g.files.len() && g.files.len() < under);
                assert_eq!(process_all(&config, &disk), within);
            }
        }
    }
}

#[test]
fn files_without_a_copy_are_reported_alone() {
    let disk = vec![
        write_test_file("d/a", 1, b"aaa", b"", b""),
        write_test_file("d/b", 2, b"bbb", b"", b""),
        write_test_file("d/c", 2, b"bbb", b"", b""),
        write_test_file("d/d", 3, b"ccc", b"", b""),
        write_test_file("d/e", 4, b"ccc", b"", b""),
    ];
    let mut config = Config::default();
    config.rf_over = Some(0);
    let alone = |config: &Config| -> Vec<Vec<Path>> {
        let report = process_all(config, &disk);
        let groups = report.into_iter().filter(|g| g.files.len() == 1);
        groups.map(|g| g.files).collect()
    };
    assert_eq!(alone(&config), vec![vec![path("d/a")], vec![path("d/b")]]);
    config.hard_links = true;
    assert_eq!(alone(&config), vec![vec![path("d/a")]]);
}

#[test]
fn single_files_are_not_hashed() {
    let disk = vec![
        write_test_file("d/a", 1, b"a", b"", b""),
        write_test_file("d/b", 2, b"bb", b"", b""),
    ];
    let mut config = Config::default();
    config.unique = true;
    let (results, hashed) = search(&config, &disk, &[0, 1]);
    assert_eq!(results.len(), 2);
    assert_eq!(hashed, 0);
}

#[test]
fn unreadable_files_are_left_out() {
    let files = vec![vec![
        FileInfo { path: path("a"), len: FileLen(3), id_hash: 1 },
        FileInfo { path: path("b"), len: FileLen(3), id_hash: 2 },
        FileInfo { path: path("c"), len: FileLen(3), id_hash: 3 },
    ]];
    let config = Config::default();
    let state = process(&config, files);
    let state = state.advance(&config, Reply::FileIds(Vec::new()));
    let hash = Some(FileHash(7));
    let state = state.advance(&config, Reply::FileHashes(vec![vec![hash, None, hash]]));
    let state = state.advance(&config, Reply::FileHashes(Vec::new()));
    match state.advance(&config, Reply::FileHashes(Vec::new())) {
        Search::Finished(report) => {
            assert_eq!(report.len(), 1);
            assert_eq!(report[0].hash, hash);
            assert_eq!(report[0].files, vec![path("a"), path("c")]);
        }
        _ => unreachable!(),
    }
}

#[test]
fn files_without_an_id_are_searched() {
    let files = vec![vec![
        FileInfo { path: path("a"), len: FileLen(3), id_hash: 1 },
        FileInfo { path: path("b"), len: FileLen(3), id_hash: 2 },
        FileInfo { path: path("c"), len: FileLen(3), id_hash: 3 },
        FileInfo { path: path("d"), len: FileLen(3), id_hash: 3 },
    ]];
    let config = Config::default();
    let id = Some(FileId { inode: 7, device: 1 });
    let state = process(&config, files);
    let state = state.advance(&config, Reply::FileIds(vec![vec![None, None, id, id]]));
    let hash = Some(FileHash(7));
    let state = state.advance(&config, Reply::FileHashes(vec![vec![hash, hash, hash]]));
    let state = state.advance(&config, Reply::FileHashes(Vec::new()));
    match state.advance(&config, Reply::FileHashes(Vec::new())) {
        Search::Finished(report) => {
            assert_eq!(report.len(), 1);
            assert_eq!(report[0].files, vec![path("a"), path("b"), path("c")]);
        }
        _ => unreachable!(),
    }
}

#[test]
fn replies_out_of_turn_change_nothing() {
    let files = vec![vec![
        FileInfo { path: path("a"), len: FileLen(3), id_hash: 1 },
        FileInfo { path: path("b"), len: FileLen(3), id_hash: 2 },
    ]];
    let config = Config::default();
    let state = process(&config, files);
    let state = state.advance(&config, Reply::FileHashes(Vec::new()));
    assert!(matches!(&state, Search::PruningLinks(groups) if groups.len() == 1));
    let state = state.advance(&config, Reply::FileIds(Vec::new()));
    let state = state.advance(&config, Reply::FileIds(Vec::new()));
    assert!(matches!(&state, Search::Splitting(Stage::Prefix, groups) if groups.len() == 1));
}
