use stroke::history::AtEntry;
use stroke::hsk::{band_label, is_level};
use stroke::search::{submit_target, trim, SearchTarget};

#[test]
fn a_back_stays_inside_the_app_only_after_a_push() {
    let entry = AtEntry(3);
    assert!(!entry.app_has_pushed(3));
    assert!(entry.app_has_pushed(4));
    assert!(!entry.app_has_pushed(1));
}

#[test]
fn bands_and_levels_are_named() {
    assert_eq!(band_label(1).as_deref(), Some("HSK 1"));
    assert_eq!(band_label(6).as_deref(), Some("HSK 6"));
    assert_eq!(band_label(7).as_deref(), Some("HSK 7-9"));
    assert_eq!(band_label(0), None);
    assert_eq!(band_label(8), None);
    assert!(is_level(1) && is_level(6));
    assert!(!is_level(7) && !is_level(0));
}

#[test]
fn a_single_character_goes_straight_to_its_page() {
    match submit_target("  好 ") {
        Some(SearchTarget::Character(segment)) => assert_eq!(segment, "%E5%A5%BD"),
        _ => panic!("a single character opens its page"),
    }
    match submit_target(" hao ") {
        Some(SearchTarget::Search(q)) => assert_eq!(q, "hao"),
        _ => panic!("pinyin is searched"),
    }
    match submit_target("a") {
        Some(SearchTarget::Search(q)) => assert_eq!(q, "a"),
        _ => panic!("a single ASCII letter is searched"),
    }
    match submit_target("你好") {
        Some(SearchTarget::Search(q)) => assert_eq!(q, "你好"),
        _ => panic!("a word is searched"),
    }
    assert!(submit_target(" \t ").is_none());
}

#[test]
fn trimming_drops_whitespace_at_both_ends_only() {
    assert_eq!(trim("  a b  "), vec!['a', ' ', 'b']);
    assert_eq!(trim("\u{3000}好\n"), vec!['好']);
    assert!(trim("   ").is_empty());
}
