use music_index::file_format::flac::FlacFormat;
use music_index::file_format::m4a::M4aFormat;
use music_index::file_format::mp3::Mp3Format;
use music_index::file_format::{
    extension_is_music, is_music_file, seconds_of, DecodeError, FileFormat, FileFormatFactory,
    FormatKind, MusicFormat, Reading,
};

#[test]
fn music_files_are_told_by_extension() {
    assert!(is_music_file("song.mp3"));
    assert!(is_music_file("album/track.flac"));
    assert!(is_music_file("./a/b/c.m4a"));
    assert!(is_music_file("two.dots.mp3"));
}

#[test]
fn other_files_are_no_music() {
    assert!(!is_music_file("cover.jpg"));
    assert!(!is_music_file("notes.txt"));
    assert!(!is_music_file("song.ogg"));
    assert!(!is_music_file("song.mp3.bak"));
}

#[test]
fn a_path_without_extension_is_no_music() {
    assert!(!is_music_file("README"));
    assert!(!is_music_file("album/mp3"));
    assert!(!is_music_file(""));
    assert!(!is_music_file("album.mp3/cover"));
}

#[test]
fn a_leading_dot_is_no_extension() {
    assert!(!is_music_file(".mp3"));
    assert!(!is_music_file("album/.flac"));
}

#[test]
fn the_match_is_case_sensitive() {
    assert!(!is_music_file("song.MP3"));
    assert!(!is_music_file("song.Flac"));
    assert!(!is_music_file("song.M4A"));
}

#[test]
fn extensions_are_matched_exactly() {
    assert!(extension_is_music(Some("mp3")));
    assert!(extension_is_music(Some("flac")));
    assert!(extension_is_music(Some("m4a")));
    assert!(!extension_is_music(Some("mp")));
    assert!(!extension_is_music(Some("mp33")));
    assert!(!extension_is_music(Some("")));
    assert!(!extension_is_music(None));
}

#[test]
fn the_factory_finds_each_format() {
    let mp3 = FileFormatFactory::new_file("a/one.mp3").unwrap();
    assert_eq!(mp3.kind(), FormatKind::Mp3);
    assert_eq!(mp3.extension(), "mp3");
    assert_eq!(mp3.path(), "a/one.mp3");
    let flac = FileFormatFactory::new_file("two.flac").unwrap();
    assert_eq!(flac.kind(), FormatKind::Flac);
    assert_eq!(flac.extension(), "flac");
    assert_eq!(flac.path(), "two.flac");
    let m4a = FileFormatFactory::new_file("./three.m4a").unwrap();
    assert_eq!(m4a.kind(), FormatKind::M4a);
    assert_eq!(m4a.extension(), "m4a");
    assert_eq!(m4a.path(), "./three.m4a");
}

#[test]
fn the_factory_knows_no_other_format() {
    assert!(FileFormatFactory::new_file("a.wav").is_none());
    assert!(FileFormatFactory::new_file("a").is_none());
    assert!(FileFormatFactory::new_file("a.MP3").is_none());
    assert!(FileFormatFactory::new_file(".flac").is_none());
}

#[test]
fn the_factory_for_an_extension_keeps_the_path() {
    let f = FileFormatFactory::for_extension("x/y.flac", Some("flac")).unwrap();
    assert!(matches!(f, MusicFormat::Flac(_)));
    assert_eq!(f.path(), "x/y.flac");
    assert!(FileFormatFactory::for_extension("x/y.flac", None).is_none());
    assert!(FileFormatFactory::for_extension("x/y.flac", Some("wav")).is_none());
}

#[test]
fn classifier_and_factory_agree() {
    for path in ["a.mp3", "a.flac", "a.m4a", "a.ogg", "a", ".mp3", "a.MP3", "d.mp3/x"] {
        assert_eq!(is_music_file(path), FileFormatFactory::new_file(path).is_some());
    }
}

#[test]
fn each_format_names_its_extension() {
    assert_eq!(Mp3Format::new("a.mp3".to_string()).extension(), "mp3");
    assert_eq!(FlacFormat::new("a.flac".to_string()).extension(), "flac");
    assert_eq!(M4aFormat::new("a.m4a".to_string()).extension(), "m4a");
    assert_eq!(Mp3Format::new("p/q.mp3".to_string()).path(), "p/q.mp3");
    assert_eq!(FlacFormat::new("p/q.flac".to_string()).path(), "p/q.flac");
    assert_eq!(M4aFormat::new("p/q.m4a".to_string()).path(), "p/q.m4a");
}

#[test]
fn samples_are_divided_by_the_rate() {
    let r = Reading::Samples { total_samples: 441_000, sample_rate: 44_100 };
    assert_eq!(seconds_of(&r), Ok(10));
    let f = FlacFormat::new("a.flac".to_string());
    assert_eq!(f.duration(&r), Ok(10));
}

#[test]
fn a_fraction_of_a_second_is_dropped() {
    let r = Reading::Samples { total_samples: 88_199, sample_rate: 44_100 };
    assert_eq!(seconds_of(&r), Ok(1));
    let r = Reading::Samples { total_samples: 44_099, sample_rate: 44_100 };
    assert_eq!(seconds_of(&r), Ok(0));
}

#[test]
fn a_sample_rate_of_zero_is_a_decode_failure() {
    let r = Reading::Samples { total_samples: 1000, sample_rate: 0 };
    assert_eq!(seconds_of(&r), Err(DecodeError::Decode));
}

#[test]
fn a_length_is_taken_as_it_is() {
    let r = Reading::Length { seconds: 215, nanos: 0 };
    assert_eq!(seconds_of(&r), Ok(215));
    assert_eq!(Mp3Format::new("a.mp3".to_string()).duration(&r), Ok(215));
    assert_eq!(M4aFormat::new("a.m4a".to_string()).duration(&r), Ok(215));
    let any = FileFormatFactory::new_file("a.m4a").unwrap();
    assert_eq!(any.duration(&r), Ok(215));
}

#[test]
fn the_part_of_a_second_is_dropped_from_a_length() {
    let r = Reading::Length { seconds: 215, nanos: 999_999_999 };
    assert_eq!(seconds_of(&r), Ok(215));
    let r = Reading::Length { seconds: 0, nanos: 500_000_000 };
    assert_eq!(seconds_of(&r), Ok(0));
}

#[test]
fn each_failure_has_its_kind() {
    assert_eq!(seconds_of(&Reading::Unreadable), Err(DecodeError::Io));
    assert_eq!(seconds_of(&Reading::Malformed), Err(DecodeError::Decode));
    assert_eq!(seconds_of(&Reading::NoLength), Err(DecodeError::MissingMetadata));
}

fn extension_by_the_rule(name: &str) -> Option<&str> {
    match name.rfind('.') {
        Some(dot) if dot > 0 => Some(&name[dot + 1..]),
        _ => None,
    }
}

#[test]
fn the_extension_is_what_follows_the_last_dot_of_the_name() {
    let names = [
        "song.mp3", "song", ".mp3", "..mp3", "a.b.mp3", "song.", "song.mp3.", ".a.flac",
        "mp3", "x.m4a", ".", "a.flac.txt", "é.mp3", "a b.flac", "-.m4a",
    ];
    for name in names {
        let expected = matches!(extension_by_the_rule(name), Some("mp3" | "flac" | "m4a"));
        assert_eq!(is_music_file(name), expected);
        let in_dir = format!("some/dir/{}", name);
        assert_eq!(is_music_file(&in_dir), expected);
        assert_eq!(FileFormatFactory::new_file(&in_dir).is_some(), expected);
    }
}

#[test]
fn only_the_file_name_counts() {
    assert!(!is_music_file("album.mp3/cover"));
    assert!(!is_music_file("a.flac/b.m4a/c"));
    assert!(is_music_file("album.d/song.mp3"));
    assert!(!is_music_file("album/.."));
    assert!(!is_music_file("/"));
}
