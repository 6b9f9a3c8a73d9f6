use fclones::config::Config;
use fclones::dedup::{deduplicate, prune_links_if_needed, remove_duplicate_paths};
use fclones::files::{Caching, FileHash, FileId, FileInfo, FileInfoNoLen, FileLen, FilePos, Path};
use fclones::group::{FileGroup, GroupMap};
use fclones::help::{paint_help, paint_with};
use fclones::metrics::{
    scanned_count, scanned_size, selected_count, selected_size, total_count,
};
use fclones::order::sort_paths;
use fclones::process::finish;
use fclones::sizes::{group_by_size, prune_hard_links, scan_files, to_group_of_paths};
use fclones::stages::{
    bytes_to_scan, group_by_contents, group_by_prefix, group_by_suffix, range_of_len,
    remaining_files, HashRange, Stage,
};

fn path(text: &str) -> Path {
    Path {
        text: text.as_bytes().to_vec(),
    }
}

fn file(text: &str, id_hash: u64) -> FileInfoNoLen {
    FileInfoNoLen {
        path: path(text),
        id_hash,
    }
}

fn scanned(text: &str, len: u64) -> FileInfo {
    FileInfo {
        path: path(text),
        len: FileLen(len),
        id_hash: 0,
    }
}

fn group(len: u64, hash: Option<u128>, files: &[&str]) -> FileGroup<Path> {
    FileGroup {
        len: FileLen(len),
        hash: hash.map(FileHash),
        files: files.iter().map(|f| path(f)).collect(),
    }
}

fn id(inode: u64, device: u64) -> Option<FileId> {
    Some(FileId { inode, device })
}

#[test]
fn first_file_of_each_key_is_kept() {
    let files = vec![
        (vec![1], file("a", 1)),
        (vec![2], file("b", 2)),
        (vec![1], file("c", 3)),
        (vec![], file("d", 4)),
        (vec![2], file("e", 5)),
    ];
    assert_eq!(deduplicate(files), vec![file("a", 1), file("b", 2), file("d", 4)]);
}

#[test]
fn paths_are_told_apart_by_text() {
    let files = vec![file("x", 1), file("y", 1), file("x", 2), file("X", 1), file("y", 3)];
    assert_eq!(
        remove_duplicate_paths(files),
        vec![file("x", 1), file("y", 1), file("X", 1)]
    );
}

#[test]
fn links_are_pruned_by_id() {
    let files = vec![file("a", 5), file("b", 5), file("c", 5), file("d", 6)];
    let ids = vec![id(1, 1), id(1, 2), id(1, 1), id(2, 1)];
    let mut config = Config::default();
    assert_eq!(
        prune_links_if_needed(&config, files.clone(), &ids),
        vec![file("a", 5), file("b", 5), file("d", 6)]
    );
    config.hard_links = true;
    assert_eq!(prune_links_if_needed(&config, files.clone(), &ids), files);
}

#[test]
fn different_id_hashes_need_no_ids() {
    let files = vec![file("a", 5), file("b", 6)];
    let ids = vec![id(1, 1), id(1, 1)];
    assert_eq!(
        prune_links_if_needed(&Config::default(), files.clone(), &ids),
        files
    );
}

#[test]
fn files_without_an_id_stay() {
    let files = vec![file("a", 5), file("b", 5), file("c", 5)];
    let ids = vec![None, id(1, 1)];
    assert_eq!(prune_links_if_needed(&Config::default(), files.clone(), &ids), files);

    let files = vec![file("/a", 1), file("/b", 2), file("/c", 3), file("/d", 3)];
    let ids = vec![None, None, id(7, 1), id(7, 1)];
    assert_eq!(
        prune_links_if_needed(&Config::default(), files, &ids),
        vec![file("/a", 1), file("/b", 2), file("/c", 3)]
    );
}

#[test]
fn positions_and_ids_are_not_confused() {
    let files = vec![file("a", 5), file("b", 5), file("c", 5), file("d", 5)];
    let ids = vec![id(1, 0), None, id(0, 1), id(1, 0)];
    assert_eq!(
        prune_links_if_needed(&Config::default(), files, &ids),
        vec![file("a", 5), file("b", 5), file("c", 5)]
    );
}

#[test]
fn lists_without_a_searched_file_are_dropped() {
    let mut config = Config::default();
    config.min_size = FileLen(2);
    let found = vec![
        vec![scanned("a", 1)],
        vec![scanned("b", 2), scanned("c", 1), scanned("d", 3)],
        vec![],
        vec![scanned("e", 4)],
    ];
    assert_eq!(
        scan_files(&config, found.clone()),
        vec![vec![scanned("b", 2), scanned("d", 3)], vec![scanned("e", 4)]]
    );
    config.max_size = Some(FileLen(1));
    assert!(scan_files(&config, found).is_empty());
}

#[test]
fn group_map_keeps_the_order() {
    let mut map = GroupMap::new();
    for (key, value) in vec![(3u64, 'a'), (1, 'b'), (3, 'c'), (2, 'd'), (1, 'e')] {
        map.add(key, value);
    }
    assert_eq!(
        map.into_groups(),
        vec![(3, vec!['a', 'c']), (1, vec!['b', 'e']), (2, vec!['d'])]
    );
}

#[test]
fn files_are_grouped_by_size() {
    let files = vec![
        vec![scanned("a", 3), scanned("b", 4)],
        vec![scanned("c", 3), scanned("a", 3)],
    ];
    let groups = group_by_size(&Config::default(), files);
    assert_eq!(groups.len(), 2);
    assert_eq!(groups[0].len, FileLen(3));
    assert_eq!(groups[0].hash, None);
    assert_eq!(groups[0].files, vec![file("a", 0), file("c", 0)]);
    assert_eq!(groups[1].len, FileLen(4));
    assert_eq!(groups[1].files, vec![file("b", 0)]);
}

#[test]
fn order_and_lists_of_the_scan_do_not_matter() {
    let facts = |files: Vec<Vec<FileInfo>>| {
        let mut groups: Vec<(u64, Vec<Vec<u8>>)> = group_by_size(&Config::default(), files)
            .into_iter()
            .map(|g| (g.len.0, g.files.into_iter().map(|f| f.path.text).collect()))
            .collect();
        for (_, paths) in &mut groups {
            paths.sort();
        }
        groups.sort();
        groups
    };
    let one = vec![
        vec![scanned("a", 3), scanned("b", 4)],
        vec![scanned("c", 3), scanned("a", 3)],
    ];
    let other = vec![
        vec![],
        vec![scanned("a", 3), scanned("c", 3), scanned("a", 3)],
        vec![scanned("b", 4)],
    ];
    assert_eq!(facts(one.clone()), facts(other));
    assert_eq!(
        facts(one),
        vec![
            (3, vec![b"a".to_vec(), b"c".to_vec()]),
            (4, vec![b"b".to_vec()]),
        ]
    );
}

#[test]
fn small_size_groups_are_dropped() {
    let files = vec![vec![scanned("a", 3), scanned("b", 4), scanned("c", 4)]];
    let mut config = Config::default();
    config.rf_over = Some(2);
    let groups = group_by_size(&config, files);
    assert_eq!(groups.len(), 1);
    assert_eq!(groups[0].len, FileLen(4));
}

#[test]
fn pruned_groups_are_groups_of_paths() {
    let groups = vec![FileGroup {
        len: FileLen(3),
        hash: Some(FileHash(1)),
        files: vec![file("a", 5), file("b", 5)],
    }];
    let pruned = prune_hard_links(&Config::default(), groups.clone(), &vec![vec![id(1, 1), id(1, 1)]]);
    assert_eq!(pruned, vec![group(3, None, &["a"])]);
    assert_eq!(to_group_of_paths(groups[0].clone()), group(3, None, &["a", "b"]));
}

#[test]
fn ranges_depend_on_the_length() {
    let range = |pos: u64, len: u64, caching: Caching| {
        Some(HashRange {
            pos: FilePos(pos),
            len: FileLen(len),
            caching,
        })
    };
    let at = |stage: Stage, len: u64| range_of_len(stage, FileLen(len));
    assert_eq!(at(Stage::Prefix, 0), range(0, 0, Caching::Default));
    assert_eq!(at(Stage::Prefix, 16384), range(0, 16384, Caching::Default));
    assert_eq!(at(Stage::Prefix, 16385), range(0, 4096, Caching::Random));
    assert_eq!(at(Stage::Suffix, 24575), None);
    assert_eq!(at(Stage::Suffix, 24576), range(20480, 4096, Caching::Default));
    assert_eq!(at(Stage::Contents, 16383), None);
    assert_eq!(at(Stage::Contents, 16384), range(0, 16384, Caching::Sequential));
}

#[test]
fn groups_are_split_by_hash() {
    let groups = vec![group(3, None, &["a", "b", "c", "d"]), group(4, None, &["e"])];
    let replies = vec![vec![
        Some(FileHash(1)),
        Some(FileHash(2)),
        Some(FileHash(1)),
        Some(FileHash(2)),
    ]];
    let mut config = Config::default();
    assert_eq!(
        group_by_prefix(&config, groups.clone(), &replies),
        vec![group(3, Some(1), &["a", "c"]), group(3, Some(2), &["b", "d"])]
    );
    config.rf_over = Some(0);
    assert_eq!(
        group_by_prefix(&config, groups, &replies),
        vec![
            group(3, Some(1), &["a", "c"]),
            group(3, Some(2), &["b", "d"]),
            group(4, None, &["e"]),
        ]
    );
}

#[test]
fn short_files_keep_their_hash() {
    let config = Config::default();
    let groups = vec![group(3, Some(9), &["a", "b"])];
    let replies = vec![vec![Some(FileHash(1)), Some(FileHash(2))]];
    assert_eq!(group_by_suffix(&config, groups.clone(), &replies), groups);
    assert_eq!(group_by_contents(&config, groups.clone(), &replies), groups);
}

#[test]
fn work_is_counted() {
    let groups = vec![
        group(10, None, &["a", "b"]),
        group(20000, None, &["c", "d", "e"]),
        group(30000, None, &["f"]),
        group(40000, None, &["g", "h"]),
    ];
    assert_eq!(remaining_files(Stage::Prefix, &groups), Some(7));
    assert_eq!(remaining_files(Stage::Suffix, &groups), Some(2));
    assert_eq!(bytes_to_scan(Stage::Contents, &groups), Some(140000));
}

#[test]
fn totals() {
    let groups = vec![
        group(10, None, &["a", "b", "c"]),
        group(100, None, &["d"]),
        group(1000, None, &["e", "f"]),
    ];
    assert_eq!(total_count(&groups), Some(6));
    assert_eq!(selected_count(&groups, 1, usize::MAX), Some(3));
    assert_eq!(selected_size(&groups, 1, usize::MAX), Some(1020));
    assert_eq!(selected_count(&groups, 0, 2), Some(1));
    assert_eq!(selected_size(&groups, 0, 2), Some(100));
    assert_eq!(selected_count(&groups, 3, usize::MAX), Some(0));
    let files = vec![vec![scanned("a", 3), scanned("b", 4)], vec![scanned("c", 5)]];
    assert_eq!(scanned_count(&files), Some(3));
    assert_eq!(scanned_size(&files), Some(12));
}

#[test]
fn totals_that_are_too_large() {
    let groups = vec![group(u64::MAX, None, &["a"]), group(1, None, &["b"])];
    assert_eq!(selected_size(&groups, 0, 2), None);
    assert_eq!(total_count(&groups), Some(2));
    assert_eq!(scanned_size(&vec![vec![scanned("a", u64::MAX), scanned("b", 1)]]), None);
    let groups = vec![group(u64::MAX, None, &["a", "b"])];
    assert_eq!(bytes_to_scan(Stage::Contents, &groups), None);
}

#[test]
fn paths_are_sorted_by_text() {
    let sorted = sort_paths(vec![path("b"), path("ab"), path("a"), path("a/b"), path(""), path("B")]);
    assert_eq!(
        sorted,
        vec![path(""), path("B"), path("a"), path("a/b"), path("ab"), path("b")]
    );
    assert!(path("a").le(&path("a")));
    assert!(!path("b").le(&path("ab")));
}

#[test]
fn finished_groups_are_stable() {
    let groups = vec![
        group(1, Some(1), &["b", "a"]),
        group(2, Some(2), &["d", "c"]),
        group(1, Some(3), &["f", "e"]),
        group(3, Some(4), &["i", "h", "g"]),
    ];
    let mut config = Config::default();
    config.rf_under = Some(3);
    assert_eq!(
        finish(&config, groups),
        vec![
            group(2, Some(2), &["c", "d"]),
            group(1, Some(1), &["a", "b"]),
            group(1, Some(3), &["e", "f"]),
        ]
    );
}

#[test]
fn settings_have_defaults() {
    let mut config = Config::default();
    assert_eq!(config.rf_over(), 1);
    assert_eq!(config.rf_under(), usize::MAX);
    assert_eq!(config.search_type(), "redundant");
    assert_eq!(config.walk_options().depth, usize::MAX);
    assert!(config.selects_len(FileLen(u64::MAX)));
    config.rf_under = Some(5);
    config.depth = Some(3);
    assert_eq!(config.rf_over(), 0);
    assert_eq!(config.rf_under(), 5);
    assert_eq!(config.search_type(), "under-replicated");
    assert_eq!(config.walk_options().depth, 3);
    config.unique = true;
    assert_eq!(config.rf_under(), 2);
    assert_eq!(config.search_type(), "unique");
    config.rf_over = Some(7);
    assert_eq!(config.rf_over(), 7);
}

#[test]
fn help_is_painted_with_replacements() {
    let help = "# TITLE:\n  `a` and {escape}{escape} or `b c`\n#OTHER\nno # title\n";
    let painted = paint_with(help, "\\", "<$1>", "[$1]").unwrap();
    assert_eq!(
        painted,
        "[TITLE:]\n  <a> and \\\\ or <b c>\n[OTHER]\nno # title\n"
    );
}

#[test]
fn help_is_painted_with_and_without_colour() {
    // the switch for colours is one for the whole process, so one test turns it
    console::set_colors_enabled(true);
    let painted = paint_help("# T\n`x` {escape}", "^").unwrap();
    assert_eq!(painted, "\x1b[33mT\x1b[0m\n\x1b[32mx\x1b[0m ^");

    console::set_colors_enabled(false);
    let painted = paint_help("# T\n`x` {escape}", "^").unwrap();
    assert_eq!(painted, "T\nx ^");

    let help = "# PATTERN SYNTAX:\n    \
        Options `-n` `-p` and `-e` accept extended glob patterns.\n    \
        `@(a|b)` same as `{a,b}`\n    \
        `{escape}`      escapes wildcards, e.g. `{escape}?` would match `?` literally\n";
    assert_eq!(
        paint_help(help, "\\").unwrap(),
        "PATTERN SYNTAX:\n    \
        Options -n -p and -e accept extended glob patterns.\n    \
        @(a|b) same as {a,b}\n    \
        \\      escapes wildcards, e.g. \\? would match ? literally\n"
    );
}
