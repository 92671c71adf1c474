use music_index::entry::FileEntry;
use music_index::index::Index;
use music_index::shared::SharedAccumulator;
use rayon::iter::{IntoParallelIterator, ParallelIterator};

fn entry(folder: &str, n: usize) -> FileEntry {
    FileEntry {
        folder: folder.to_string(),
        name: format!("track{}", n),
        format: "mp3".to_string(),
        duration: n as u64,
        uuid: format!("{:032x}", n),
    }
}

#[test]
fn a_folder_recorded_by_many_workers_is_listed_once() {
    let shared = SharedAccumulator::new();
    let added: usize = (0..2000usize)
        .into_par_iter()
        .map(|n| if shared.record_folder(format!("album{}/", n % 7)) { 1 } else { 0 })
        .sum();
    assert_eq!(added, 7);
    let index = Index::build(shared.into_inner());
    assert_eq!(
        index.folders,
        vec!["album0/", "album1/", "album2/", "album3/", "album4/", "album5/", "album6/"]
    );
}

#[test]
fn no_entry_of_many_workers_is_lost() {
    let shared = SharedAccumulator::new();
    (0..2000usize).into_par_iter().for_each(|n| {
        let folder = format!("album{}/", n % 5);
        shared.record_file(entry(&folder, n));
        shared.record_folder(folder);
    });
    let acc = shared.into_inner();
    assert_eq!(acc.file_count(), 2000);
    let (folders, files) = acc.into_parts();
    assert_eq!(folders.len(), 5);
    let mut durations: Vec<u64> = files.iter().map(|f| f.duration).collect();
    durations.sort();
    assert_eq!(durations, (0..2000u64).collect::<Vec<u64>>());
}

#[test]
fn a_shared_accumulator_starts_empty() {
    let shared = SharedAccumulator::new();
    assert!(shared.into_inner().is_empty());
}

#[test]
fn what_was_there_at_the_start_stays_in_place() {
    let mut acc = music_index::accumulator::ResultAccumulator::new();
    acc.record_folder("first/".to_string());
    acc.record_file(entry("first/", 7));
    acc.record_folder("second/".to_string());
    let shared = SharedAccumulator::share(acc);
    (0..500usize).into_par_iter().for_each(|n| {
        shared.record_folder(format!("album{}/", n % 3));
        shared.record_file(entry("album/", n + 100));
    });
    let (folders, files) = shared.into_inner().into_parts();
    assert_eq!(folders[0], "first/");
    assert_eq!(folders[1], "second/");
    assert_eq!(folders.len(), 5);
    assert_eq!(files[0].duration, 7);
    assert_eq!(files[0].folder, "first/");
    assert_eq!(files.len(), 501);
}

#[test]
fn a_folder_listed_at_the_start_is_never_added() {
    let mut acc = music_index::accumulator::ResultAccumulator::new();
    acc.record_folder("A/".to_string());
    let shared = SharedAccumulator::share(acc);
    let added: usize = (0..200usize)
        .into_par_iter()
        .map(|_| if shared.record_folder("A/".to_string()) { 1 } else { 0 })
        .sum();
    assert_eq!(added, 0);
    assert!(shared.record_folder("B/".to_string()));
    assert!(!shared.record_folder("B/".to_string()));
    let (folders, _) = shared.into_inner().into_parts();
    assert_eq!(folders, vec!["A/", "B/"]);
}

#[test]
fn sharing_an_empty_accumulator_is_starting_anew() {
    let shared = SharedAccumulator::share(music_index::accumulator::ResultAccumulator::new());
    assert!(shared.record_folder("A/".to_string()));
    let acc = shared.into_inner();
    assert_eq!(acc.file_count(), 0);
    assert!(!acc.is_empty());
}
