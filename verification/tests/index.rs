use music_index::accumulator::ResultAccumulator;
use music_index::entry::FileEntry;
use music_index::index::{summarize, Index, Summary};

fn entry(folder: &str, name: &str, duration: u64) -> FileEntry {
    FileEntry {
        folder: folder.to_string(),
        name: name.to_string(),
        format: "mp3".to_string(),
        duration,
        uuid: "0".repeat(32),
    }
}

#[test]
fn folders_come_out_sorted() {
    let mut acc = ResultAccumulator::new();
    for f in ["c/", "a/b/", "b/", "a/", "a/b/c/"] {
        acc.record_folder(f.to_string());
    }
    let index = Index::build(acc);
    assert_eq!(index.folders, vec!["a/", "a/b/", "a/b/c/", "b/", "c/"]);
}

#[test]
fn the_order_of_discovery_does_not_show() {
    let names = ["m/", "a/", "z/", "a/a/", "k/"];
    let mut forward = ResultAccumulator::new();
    for f in names.iter() {
        forward.record_folder(f.to_string());
    }
    let mut backward = ResultAccumulator::new();
    for f in names.iter().rev() {
        backward.record_folder(f.to_string());
        backward.record_folder(f.to_string());
    }
    let a = Index::build(forward);
    let b = Index::build(backward);
    assert_eq!(a.folders, b.folders);
    assert_eq!(a.folders, vec!["a/", "a/a/", "k/", "m/", "z/"]);
}

#[test]
fn files_stay_in_the_order_of_arrival() {
    let mut acc = ResultAccumulator::new();
    acc.record_file(entry("b/", "two", 2));
    acc.record_file(entry("a/", "one", 1));
    acc.record_folder("b/".to_string());
    acc.record_folder("a/".to_string());
    let index = Index::build(acc);
    assert_eq!(index.file_count(), 2);
    assert_eq!(index.files[0].name, "two");
    assert_eq!(index.files[1].name, "one");
    assert_eq!(index.folders, vec!["a/", "b/"]);
}

#[test]
fn an_empty_accumulator_gives_an_empty_index() {
    let index = Index::build(ResultAccumulator::new());
    assert!(index.folders.is_empty());
    assert!(index.files.is_empty());
    assert_eq!(index.file_count(), 0);
    assert_eq!(index.total_duration(), Some(0));
}

#[test]
fn the_total_is_the_sum_of_the_durations() {
    let mut acc = ResultAccumulator::new();
    acc.record_file(entry("a/", "one", 30));
    acc.record_file(entry("a/", "two", 45));
    acc.record_file(entry("a/", "three", 0));
    let index = Index::build(acc);
    assert_eq!(index.total_duration(), Some(75));
}

#[test]
fn a_total_beyond_the_range_is_none() {
    let mut acc = ResultAccumulator::new();
    acc.record_file(entry("a/", "one", u64::MAX));
    acc.record_file(entry("a/", "two", 1));
    let index = Index::build(acc);
    assert_eq!(index.total_duration(), None);
    let mut acc = ResultAccumulator::new();
    acc.record_file(entry("a/", "one", u64::MAX - 1));
    acc.record_file(entry("a/", "two", 1));
    let index = Index::build(acc);
    assert_eq!(index.total_duration(), Some(u64::MAX));
}

#[test]
fn a_summary_splits_the_seconds() {
    assert_eq!(summarize(0), Summary { days: 0, hours: 0, minutes: 0, seconds: 0 });
    assert_eq!(summarize(59), Summary { days: 0, hours: 0, minutes: 0, seconds: 59 });
    assert_eq!(summarize(60), Summary { days: 0, hours: 0, minutes: 1, seconds: 0 });
    assert_eq!(summarize(3599), Summary { days: 0, hours: 0, minutes: 59, seconds: 59 });
    assert_eq!(summarize(86399), Summary { days: 0, hours: 23, minutes: 59, seconds: 59 });
    assert_eq!(summarize(86400), Summary { days: 1, hours: 0, minutes: 0, seconds: 0 });
    assert_eq!(summarize(90061), Summary { days: 1, hours: 1, minutes: 1, seconds: 1 });
    assert_eq!(summarize(75), Summary { days: 0, hours: 0, minutes: 1, seconds: 15 });
}

#[test]
fn a_summary_adds_up() {
    for total in [0u64, 1, 61, 3661, 86_401, 1_000_000, u64::MAX] {
        let s = summarize(total);
        assert!(s.hours < 24 && s.minutes < 60 && s.seconds < 60);
        let sum = s.days as u128 * 86_400
            + s.hours as u128 * 3_600
            + s.minutes as u128 * 60
            + s.seconds as u128;
        assert_eq!(sum, total as u128);
    }
}
