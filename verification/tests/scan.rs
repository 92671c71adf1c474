use music_index::accumulator::ResultAccumulator;
use music_index::file_format::{DecodeError, Reading};
use music_index::index::Index;
use music_index::scanner::{examine, scan_dir, scan_tree, ScanError, ScanReport};
use music_index::tree::{DirNode, DropReason, FileNode};

fn file(path: &str, reading: Option<Reading>) -> FileNode {
    FileNode { path: path.to_string(), reading }
}

fn secs(seconds: u64) -> Option<Reading> {
    Some(Reading::Length { seconds, nanos: 0 })
}

fn dir(path: &str, files: Vec<FileNode>, dirs: Vec<DirNode>) -> DirNode {
    DirNode { path: path.to_string(), readable: true, files, dirs }
}

fn unreadable(path: &str) -> DirNode {
    DirNode { path: path.to_string(), readable: false, files: vec![], dirs: vec![] }
}

fn index_of(root: &DirNode) -> (Index, ScanReport) {
    let (acc, report) = scan_tree(root).unwrap();
    (Index::build(acc), report)
}

fn is_lower_hex(c: char) -> bool {
    c.is_ascii_digit() || ('a'..='f').contains(&c)
}

#[test]
fn two_albums_and_an_empty_directory() {
    let root = dir(
        ".",
        vec![],
        vec![
            dir(
                "A",
                vec![file("A/song1.mp3", secs(30))],
                vec![dir(
                    "A/B",
                    vec![file(
                        "A/B/song2.flac",
                        Some(Reading::Samples { total_samples: 45 * 44_100, sample_rate: 44_100 }),
                    )],
                    vec![],
                )],
            ),
            dir("C", vec![], vec![]),
        ],
    );
    let (index, report) = index_of(&root);
    assert_eq!(index.folders, vec!["A/", "A/B/"]);
    assert_eq!(index.files.len(), 2);
    let first = index.files.iter().find(|f| f.folder == "A/").unwrap();
    assert_eq!(first.duration, 30);
    assert_eq!(first.name, "song1");
    assert_eq!(first.format, "mp3");
    let second = index.files.iter().find(|f| f.folder == "A/B/").unwrap();
    assert_eq!(second.duration, 45);
    assert_eq!(second.name, "song2");
    assert_eq!(second.format, "flac");
    assert!(!index.folders.iter().any(|f| f == "C/"));
    assert_ne!(first.uuid, second.uuid);
    assert!(first.uuid.len() == 32 && first.uuid.chars().all(is_lower_hex));
    assert!(second.uuid.len() == 32 && second.uuid.chars().all(is_lower_hex));
    assert_eq!(report.unreadable_count(), 0);
    assert_eq!(report.dropped_count(), 0);
    assert_eq!(index.total_duration(), Some(75));
}

#[test]
fn a_folder_with_many_files_is_listed_once() {
    let root = dir(
        ".",
        vec![],
        vec![dir(
            "A",
            vec![
                file("A/1.mp3", secs(1)),
                file("A/2.mp3", secs(2)),
                file("A/3.flac", secs(3)),
            ],
            vec![
                dir("A/X", vec![file("A/X/4.m4a", secs(4))], vec![]),
                dir("A/Y", vec![file("A/Y/5.mp3", secs(5))], vec![]),
            ],
        )],
    );
    let (index, _) = index_of(&root);
    assert_eq!(index.folders, vec!["A/", "A/X/", "A/Y/"]);
    assert_eq!(index.files.len(), 5);
}

#[test]
fn the_same_path_met_twice_is_listed_once() {
    let root = dir(
        ".",
        vec![],
        vec![
            dir("A", vec![file("A/1.mp3", secs(1))], vec![]),
            dir("A", vec![file("A/2.mp3", secs(2))], vec![]),
        ],
    );
    let (index, _) = index_of(&root);
    assert_eq!(index.folders, vec!["A/"]);
    assert_eq!(index.files.len(), 2);
}

#[test]
fn every_music_file_appears_once() {
    let root = dir(
        "root",
        vec![file("root/a.mp3", secs(10)), file("root/b.flac", secs(20))],
        vec![dir(
            "root/sub",
            vec![file("root/sub/c.m4a", secs(30))],
            vec![dir("root/sub/deep", vec![file("root/sub/deep/d.mp3", secs(40))], vec![])],
        )],
    );
    let (index, _) = index_of(&root);
    let mut found: Vec<(String, String, String, u64)> = index
        .files
        .iter()
        .map(|f| (f.folder.clone(), f.name.clone(), f.format.clone(), f.duration))
        .collect();
    found.sort();
    let expected: Vec<(String, String, String, u64)> = [
        ("root/", "a", "mp3", 10),
        ("root/", "b", "flac", 20),
        ("root/sub/", "c", "m4a", 30),
        ("root/sub/deep/", "d", "mp3", 40),
    ]
    .iter()
    .map(|(a, b, c, d)| (a.to_string(), b.to_string(), c.to_string(), *d))
    .collect();
    assert_eq!(found, expected);
    assert_eq!(index.folders, vec!["root/", "root/sub/", "root/sub/deep/"]);
}

#[test]
fn a_directory_is_listed_for_music_below_it() {
    let root = dir(
        ".",
        vec![],
        vec![dir(
            "A",
            vec![file("A/cover.jpg", None)],
            vec![dir("A/B", vec![], vec![dir("A/B/C", vec![file("A/B/C/x.mp3", secs(7))], vec![])])],
        )],
    );
    let (index, _) = index_of(&root);
    assert_eq!(index.folders, vec!["A/", "A/B/", "A/B/C/"]);
    assert_eq!(index.files.len(), 1);
    assert_eq!(index.files[0].folder, "A/B/C/");
}

#[test]
fn the_root_is_listed_for_its_own_music_only() {
    let below = dir(".", vec![], vec![dir("./A", vec![file("./A/x.mp3", secs(1))], vec![])]);
    let (index, _) = index_of(&below);
    assert_eq!(index.folders, vec!["./A/"]);
    let own = dir(".", vec![file("./y.mp3", secs(2))], vec![]);
    let (index, _) = index_of(&own);
    assert_eq!(index.folders, vec!["./"]);
    assert_eq!(index.files[0].folder, "./");
}

#[test]
fn files_that_are_no_music_give_no_entry() {
    let root = dir(
        ".",
        vec![file("./notes.txt", None), file("./cover.png", secs(3))],
        vec![dir("A", vec![file("A/readme", None), file("A/x.MP3", secs(9))], vec![])],
    );
    let (index, report) = index_of(&root);
    assert!(index.folders.is_empty());
    assert!(index.files.is_empty());
    assert_eq!(report.dropped_count(), 0);
}

#[test]
fn an_empty_tree_gives_an_empty_index() {
    let root = dir(".", vec![], vec![]);
    let (index, report) = index_of(&root);
    assert!(index.folders.is_empty());
    assert!(index.files.is_empty());
    assert_eq!(report.unreadable_count(), 0);
    assert_eq!(report.dropped_count(), 0);
    let nested = dir(".", vec![], vec![dir("A", vec![], vec![dir("A/B", vec![], vec![])])]);
    let (index, _) = index_of(&nested);
    assert!(index.folders.is_empty());
    assert!(index.files.is_empty());
}

#[test]
fn two_scans_of_one_tree_agree() {
    let root = dir(
        ".",
        vec![file("./a.mp3", secs(1))],
        vec![
            dir("z", vec![file("z/b.flac", secs(2))], vec![]),
            dir("m", vec![file("m/c.m4a", secs(3)), file("m/d.mp3", Some(Reading::Malformed))], vec![]),
        ],
    );
    let (first, _) = index_of(&root);
    let (second, _) = index_of(&root);
    assert_eq!(first.folders, second.folders);
    let key = |i: &Index| -> Vec<(String, String, String, u64)> {
        let mut v: Vec<(String, String, String, u64)> = i
            .files
            .iter()
            .map(|f| (f.folder.clone(), f.name.clone(), f.format.clone(), f.duration))
            .collect();
        v.sort();
        v
    };
    assert_eq!(key(&first), key(&second));
    for (a, b) in first.files.iter().zip(second.files.iter()) {
        assert_ne!(a.uuid, b.uuid);
    }
}

#[test]
fn the_order_of_the_listings_does_not_matter() {
    let one = dir(
        ".",
        vec![file("./a.mp3", secs(1)), file("./b.flac", secs(2)), file("./c.txt", None)],
        vec![
            dir(
                "x",
                vec![file("x/1.mp3", secs(3)), file("x/2.mp3", Some(Reading::Malformed))],
                vec![dir("x/p", vec![file("x/p/3.m4a", secs(4))], vec![]), unreadable("x/q")],
            ),
            dir("y", vec![], vec![]),
            dir("z", vec![file("z/4.flac", secs(5))], vec![]),
        ],
    );
    let other = dir(
        ".",
        vec![file("./c.txt", None), file("./b.flac", secs(2)), file("./a.mp3", secs(1))],
        vec![
            dir("z", vec![file("z/4.flac", secs(5))], vec![]),
            dir(
                "x",
                vec![file("x/2.mp3", Some(Reading::Malformed)), file("x/1.mp3", secs(3))],
                vec![unreadable("x/q"), dir("x/p", vec![file("x/p/3.m4a", secs(4))], vec![])],
            ),
            dir("y", vec![], vec![]),
        ],
    );
    let (first, first_report) = index_of(&one);
    let (second, second_report) = index_of(&other);
    assert_eq!(first.folders, second.folders);
    assert_eq!(first.folders, vec!["./", "x/", "x/p/", "z/"]);
    let key = |i: &Index| -> Vec<(String, String, String, u64)> {
        let mut v: Vec<(String, String, String, u64)> = i
            .files
            .iter()
            .map(|f| (f.folder.clone(), f.name.clone(), f.format.clone(), f.duration))
            .collect();
        v.sort();
        v
    };
    assert_eq!(key(&first), key(&second));
    assert_eq!(first.files.len(), 5);
    assert_eq!(first_report.unreadable, second_report.unreadable);
    assert_eq!(first_report.dropped_count(), second_report.dropped_count());
}

#[test]
fn folders_are_sorted_whatever_the_listing_order() {
    let root = dir(
        ".",
        vec![],
        vec![
            dir("z", vec![file("z/1.mp3", secs(1))], vec![]),
            dir("b", vec![], vec![dir("b/c", vec![file("b/c/2.mp3", secs(1))], vec![])]),
            dir("a", vec![file("a/3.mp3", secs(1))], vec![]),
        ],
    );
    let (index, _) = index_of(&root);
    assert_eq!(index.folders, vec!["a/", "b/", "b/c/", "z/"]);
}

#[test]
fn one_undecodable_file_is_left_out_alone() {
    let root = dir(
        ".",
        vec![],
        vec![dir(
            "A",
            vec![
                file("A/1.mp3", secs(10)),
                file("A/broken.mp3", Some(Reading::Malformed)),
                file("A/2.flac", secs(20)),
                file("A/3.m4a", secs(30)),
            ],
            vec![],
        )],
    );
    let (index, report) = index_of(&root);
    assert_eq!(index.files.len(), 3);
    assert!(!index.files.iter().any(|f| f.name == "broken"));
    assert_eq!(index.folders, vec!["A/"]);
    assert_eq!(report.dropped_count(), 1);
    assert_eq!(report.dropped[0].path, "A/broken.mp3");
    assert_eq!(report.dropped[0].reason, DropReason::Decode(DecodeError::Decode));
}

#[test]
fn a_folder_with_undecodable_music_only_is_not_listed() {
    let root = dir(
        ".",
        vec![],
        vec![dir(
            "A",
            vec![
                file("A/empty.mp3", Some(Reading::Unreadable)),
                file("A/nolength.m4a", Some(Reading::NoLength)),
                file("A/zero.flac", Some(Reading::Samples { total_samples: 5, sample_rate: 0 })),
            ],
            vec![],
        )],
    );
    let (index, report) = index_of(&root);
    assert!(index.folders.is_empty());
    assert!(index.files.is_empty());
    let reasons: Vec<DropReason> = report.dropped.iter().map(|d| d.reason).collect();
    assert_eq!(
        reasons,
        vec![
            DropReason::Decode(DecodeError::Io),
            DropReason::Decode(DecodeError::MissingMetadata),
            DropReason::Decode(DecodeError::Decode),
        ]
    );
}

#[test]
fn a_music_file_without_a_reading_is_unclassified() {
    let root = dir(".", vec![file("./x.mp3", None), file("./y.mp3", secs(5))], vec![]);
    let (index, report) = index_of(&root);
    assert_eq!(index.files.len(), 1);
    assert_eq!(index.files[0].name, "y");
    assert_eq!(report.dropped_count(), 1);
    assert_eq!(report.dropped[0].path, "./x.mp3");
    assert_eq!(report.dropped[0].reason, DropReason::UnclassifiedFormat);
}

#[test]
fn an_unreadable_root_fails_the_scan() {
    let root = unreadable(".");
    assert_eq!(scan_tree(&root).err(), Some(ScanError::RootUnreadable));
    let with_contents = DirNode {
        path: ".".to_string(),
        readable: false,
        files: vec![file("./a.mp3", secs(1))],
        dirs: vec![],
    };
    assert!(scan_tree(&with_contents).is_err());
}

#[test]
fn an_unreadable_directory_is_skipped_and_reported() {
    let locked = DirNode {
        path: "locked".to_string(),
        readable: false,
        files: vec![file("locked/hidden.mp3", secs(99))],
        dirs: vec![],
    };
    let root = dir(
        ".",
        vec![],
        vec![
            dir("A", vec![file("A/1.mp3", secs(1))], vec![]),
            locked,
            dir("B", vec![file("B/2.mp3", secs(2))], vec![unreadable("B/private")]),
        ],
    );
    let (index, report) = index_of(&root);
    assert_eq!(index.folders, vec!["A/", "B/"]);
    assert_eq!(index.files.len(), 2);
    assert_eq!(report.unreadable, vec!["locked", "B/private"]);
    assert_eq!(report.unreadable_count(), 2);
}

#[test]
fn every_entry_lies_in_a_listed_folder() {
    let root = dir(
        "r",
        vec![file("r/0.mp3", secs(1))],
        vec![
            dir("r/a", vec![file("r/a/1.mp3", secs(1))], vec![]),
            dir("r/b", vec![], vec![dir("r/b/c", vec![file("r/b/c/2.flac", secs(1))], vec![])]),
        ],
    );
    let (index, _) = index_of(&root);
    for f in index.files.iter() {
        assert!(index.folders.contains(&f.folder));
    }
}

#[test]
fn examine_tells_the_three_cases() {
    assert!(examine("A/", &file("A/cover.jpg", secs(1))).is_none());
    let dropped = examine("A/", &file("A/x.mp3", Some(Reading::Unreadable)));
    assert_eq!(dropped.unwrap().err(), Some(DropReason::Decode(DecodeError::Io)));
    let kept = examine("A/", &file("A/x.mp3", secs(12))).unwrap().unwrap();
    assert_eq!(kept.folder, "A/");
    assert_eq!(kept.name, "x");
    assert_eq!(kept.format, "mp3");
    assert_eq!(kept.duration, 12);
}

#[test]
fn scanning_a_directory_adds_to_what_is_there() {
    let mut acc = ResultAccumulator::new();
    let mut report = ScanReport::new();
    acc.record_folder("earlier/".to_string());
    let with_music = dir("A", vec![file("A/1.mp3", secs(1))], vec![]);
    assert!(scan_dir(&with_music, &mut acc, &mut report));
    let without = dir("B", vec![file("B/cover.jpg", None)], vec![]);
    assert!(!scan_dir(&without, &mut acc, &mut report));
    assert!(!scan_dir(&unreadable("C"), &mut acc, &mut report));
    let (folders, files) = acc.into_parts();
    assert_eq!(folders, vec!["earlier/", "A/"]);
    assert_eq!(files.len(), 1);
    assert_eq!(report.unreadable, vec!["C"]);
}
