use music_index::accumulator::ResultAccumulator;
use music_index::entry::FileEntry;

fn entry(folder: &str, name: &str, duration: u64, uuid: &str) -> FileEntry {
    FileEntry {
        folder: folder.to_string(),
        name: name.to_string(),
        format: "mp3".to_string(),
        duration,
        uuid: uuid.to_string(),
    }
}

#[test]
fn a_new_accumulator_is_empty() {
    let acc = ResultAccumulator::new();
    assert!(acc.is_empty());
    assert_eq!(acc.file_count(), 0);
    let (folders, files) = acc.into_parts();
    assert!(folders.is_empty());
    assert!(files.is_empty());
}

#[test]
fn a_folder_recorded_twice_is_listed_once() {
    let mut acc = ResultAccumulator::new();
    assert!(acc.record_folder("A/".to_string()));
    assert!(!acc.record_folder("A/".to_string()));
    assert!(acc.record_folder("B/".to_string()));
    assert!(!acc.record_folder("A/".to_string()));
    assert!(!acc.is_empty());
    let (folders, _) = acc.into_parts();
    assert_eq!(folders, vec!["A/", "B/"]);
}

#[test]
fn folders_that_differ_are_both_listed() {
    let mut acc = ResultAccumulator::new();
    assert!(acc.record_folder("A".to_string()));
    assert!(acc.record_folder("A/".to_string()));
    assert!(acc.record_folder("a/".to_string()));
    let (folders, _) = acc.into_parts();
    assert_eq!(folders.len(), 3);
}

#[test]
fn every_file_is_kept_in_order() {
    let mut acc = ResultAccumulator::new();
    acc.record_file(entry("A/", "one", 1, "x"));
    acc.record_file(entry("A/", "one", 1, "x"));
    acc.record_file(entry("B/", "two", 2, "y"));
    assert_eq!(acc.file_count(), 3);
    let (folders, files) = acc.into_parts();
    assert!(folders.is_empty());
    let names: Vec<&str> = files.iter().map(|f| f.name.as_str()).collect();
    assert_eq!(names, vec!["one", "one", "two"]);
}

#[test]
fn the_order_of_records_does_not_change_what_is_held() {
    let mut first = ResultAccumulator::new();
    first.record_folder("A/".to_string());
    first.record_file(entry("A/", "one", 1, "x"));
    first.record_folder("B/".to_string());
    first.record_file(entry("B/", "two", 2, "y"));
    first.record_folder("A/".to_string());

    let mut second = ResultAccumulator::new();
    second.record_file(entry("B/", "two", 2, "y"));
    second.record_folder("A/".to_string());
    second.record_folder("B/".to_string());
    second.record_folder("A/".to_string());
    second.record_file(entry("A/", "one", 1, "x"));

    let (mut f1, e1) = first.into_parts();
    let (mut f2, e2) = second.into_parts();
    f1.sort();
    f2.sort();
    assert_eq!(f1, f2);
    let mut n1: Vec<(String, String, u64)> =
        e1.into_iter().map(|e| (e.folder, e.name, e.duration)).collect();
    let mut n2: Vec<(String, String, u64)> =
        e2.into_iter().map(|e| (e.folder, e.name, e.duration)).collect();
    n1.sort();
    n2.sort();
    assert_eq!(n1, n2);
}
