use ephemeral_file::name::{ephemeral_file_name, is_ephemeral_file, Disambiguator};
use ephemeral_file::path::ephemeral_file_path;

#[test]
fn names_with_a_number_are_recognised() {
    assert!(is_ephemeral_file("ephemeral-0"));
    assert!(is_ephemeral_file("ephemeral-1"));
    assert!(is_ephemeral_file("ephemeral-00000000000000000042"));
    assert!(is_ephemeral_file("ephemeral-+7"));
    assert!(is_ephemeral_file("ephemeral-4294967295"));
}

#[test]
fn other_names_are_not_recognised() {
    assert!(!is_ephemeral_file(""));
    assert!(!is_ephemeral_file("ephemeral"));
    assert!(!is_ephemeral_file("ephemeral-"));
    assert!(!is_ephemeral_file("ephemeral-+"));
    assert!(!is_ephemeral_file("ephemeral-++1"));
    assert!(!is_ephemeral_file("ephemeral--1"));
    assert!(!is_ephemeral_file("ephemeral-1a"));
    assert!(!is_ephemeral_file("ephemeral- 1"));
    assert!(!is_ephemeral_file("ephemeral-1_0"));
    assert!(!is_ephemeral_file("ephemeral-4294967296"));
    assert!(!is_ephemeral_file("ephemeral-99999999999999999999999999"));
    assert!(!is_ephemeral_file("Ephemeral-1"));
    assert!(!is_ephemeral_file("xephemeral-1"));
    assert!(!is_ephemeral_file("\u{e9}ph\u{e9}meral-1"));
}

#[test]
fn recognition_agrees_with_the_parser_of_the_standard_library() {
    let tails = ["", "0", "+0", "-0", "12", " 12", "12 ", "+", "4294967295", "4294967296", "0x1", "٣"];
    for tail in tails {
        let name = format!("ephemeral-{tail}");
        assert_eq!(is_ephemeral_file(&name), tail.parse::<u32>().is_ok(), "{name}");
    }
}

#[test]
fn names_hold_the_number() {
    assert_eq!(ephemeral_file_name(0), "ephemeral-0");
    assert_eq!(ephemeral_file_name(1), "ephemeral-1");
    assert_eq!(ephemeral_file_name(9876543210), "ephemeral-9876543210");
    assert_eq!(ephemeral_file_name(u64::MAX), "ephemeral-18446744073709551615");
}

#[test]
fn a_given_name_is_recognised_up_to_the_range() {
    assert!(is_ephemeral_file(&ephemeral_file_name(1)));
    assert!(is_ephemeral_file(&ephemeral_file_name(u32::MAX as u64)));
    assert!(!is_ephemeral_file(&ephemeral_file_name(u32::MAX as u64 + 1)));
}

#[test]
fn names_are_distinct() {
    assert_ne!(ephemeral_file_name(1), ephemeral_file_name(11));
    assert_ne!(ephemeral_file_name(10), ephemeral_file_name(100));
}

#[test]
fn a_path_is_the_directory_and_the_name() {
    assert_eq!(ephemeral_file_path("/repo/timelines/22", 5), "/repo/timelines/22/ephemeral-5");
    assert_eq!(ephemeral_file_path("relative", 70), "relative/ephemeral-70");
    assert_eq!(ephemeral_file_path("", 5), "ephemeral-5");
}

#[test]
fn paths_are_distinct() {
    assert_ne!(ephemeral_file_path("a", 1), ephemeral_file_path("a", 11));
    assert_ne!(ephemeral_file_path("a", 1), ephemeral_file_path("b", 2));
}

#[test]
fn numbers_count_up_from_one() {
    let mut numbers = Disambiguator::new();
    for n in 1..=1000 {
        assert_eq!(numbers.take(), n);
    }
}

#[test]
fn paths_are_never_reused() {
    let mut numbers = Disambiguator::new();
    let first = ephemeral_file_path("/a", numbers.take());
    let second = ephemeral_file_path("/a", numbers.take());
    assert_eq!(first, "/a/ephemeral-1");
    assert_eq!(second, "/a/ephemeral-2");
}

#[test]
fn a_colon_in_the_directory_is_kept() {
    assert_eq!(ephemeral_file_path("/repo:1/t", 5), "/repo:1/t/ephemeral-5");
}
