use music_index::text::{chars_of, sort_strings, str_eq, str_le, truncate};

#[test]
fn chars_are_listed_in_order() {
    assert_eq!(chars_of("abc"), vec!['a', 'b', 'c']);
    assert_eq!(chars_of(""), Vec::<char>::new());
    assert_eq!(chars_of("é/ü"), vec!['é', '/', 'ü']);
}

#[test]
fn strings_are_equal_by_their_characters() {
    assert!(str_eq("mp3", "mp3"));
    assert!(str_eq("", ""));
    assert!(!str_eq("mp3", "mp4"));
    assert!(!str_eq("mp3", "mp"));
    assert!(!str_eq("mp", "mp3"));
}

#[test]
fn the_order_is_lexicographic() {
    assert!(str_le("a", "b"));
    assert!(!str_le("b", "a"));
    assert!(str_le("a", "a"));
    assert!(str_le("", "a"));
    assert!(!str_le("a", ""));
    assert!(str_le("A/", "A/B/"));
    assert!(!str_le("A/B/", "A/"));
    assert!(str_le("Z", "a"));
    assert!(str_le("a/", "a0"));
}

#[test]
fn the_order_agrees_with_the_standard_one() {
    let samples = ["", "a", "ab", "b", "A/", "A/B/", "./x/", "é", "e", "z", "ü/"];
    for a in samples {
        for b in samples {
            assert_eq!(str_le(a, b), a <= b);
        }
    }
}

#[test]
fn sorting_orders_and_keeps_every_string() {
    let v: Vec<String> =
        ["c/", "a/", "b/", "a/b/", "a/"].iter().map(|s| s.to_string()).collect();
    let sorted = sort_strings(&v);
    assert_eq!(sorted, vec!["a/", "a/", "a/b/", "b/", "c/"]);
    assert_eq!(sort_strings(&Vec::new()), Vec::<String>::new());
}

#[test]
fn sorting_agrees_with_the_standard_sort() {
    let v: Vec<String> =
        ["./z/", "./a/", "./a/b/", "./A/", "./é/", "./m/n/o/"].iter().map(|s| s.to_string()).collect();
    let mut expected = v.clone();
    expected.sort();
    assert_eq!(sort_strings(&v), expected);
}

#[test]
fn a_short_string_is_not_truncated() {
    assert_eq!(truncate(&"abc".to_string(), 10), "abc");
    assert_eq!(truncate(&"abcdefghij".to_string(), 10), "abcdefghij");
    assert_eq!(truncate(&"".to_string(), 4), "");
}

#[test]
fn a_long_string_keeps_both_ends() {
    assert_eq!(truncate(&"abcdefghijklmnopqrstuvwxyz".to_string(), 10), "abc....xyz");
    assert_eq!(truncate(&"abcdefghijk".to_string(), 10), "abc....ijk");
    assert_eq!(truncate(&"abcdefghijklmnopqrstuvwxyz".to_string(), 20), "abcdefgh....stuvwxyz");
}

#[test]
fn a_narrow_line_leaves_only_the_dots() {
    assert_eq!(truncate(&"abcdefgh".to_string(), 4), "....");
    assert_eq!(truncate(&"abcdefgh".to_string(), 5), "....");
    assert_eq!(truncate(&"abcdefgh".to_string(), 6), "a....h");
}

#[test]
fn truncation_counts_characters() {
    assert_eq!(truncate(&"äöüäöüäöüäöü".to_string(), 8), "äö....öü");
}
