use meowsic::strings::{str_eq_ignore_ascii_case, str_le, str_starts_with, trim_end_matches, u64_to_dec};

#[test]
fn hash_matches_the_reference_digest() {
    // the wrapper must hand back the real digest, not its input
    let h = meowsic::hash("song.mp3".as_bytes());
    assert_eq!(h, blake3::hash("song.mp3".as_bytes()).to_string());
    assert_eq!(h.len(), 64);
    assert_ne!(h, "song.mp3");
}

#[test]
fn hash_depends_on_bytes_alone() {
    let a = meowsic::hash("name".as_bytes());
    let b = meowsic::hash("name".as_bytes());
    let c = meowsic::hash("other".as_bytes());
    assert_eq!(a, b);
    assert_ne!(a, c);
}

#[test]
fn decimal_rendering() {
    assert_eq!(u64_to_dec(0), "0");
    assert_eq!(u64_to_dec(7), "7");
    assert_eq!(u64_to_dec(32000), "32000");
    assert_eq!(u64_to_dec(u64::MAX), "18446744073709551615");
}

#[test]
fn listing_order_is_code_point_order() {
    assert!(str_le("a", "b"));
    assert!(str_le("a", "a"));
    assert!(str_le("Zoo", "apple")); // upper case sorts before lower case
    assert!(!str_le("b", "ab"));
    assert!(str_le("ab", "b"));
    assert!(str_le("", "anything"));
}

#[test]
fn case_insensitive_comparison_folds_ascii_only() {
    assert!(str_eq_ignore_ascii_case("FLAC", "flac"));
    assert!(!str_eq_ignore_ascii_case("flac", "flak"));
    assert!(!str_eq_ignore_ascii_case("flac", "flacc"));
}

#[test]
fn trimming_strips_every_trailing_copy() {
    assert_eq!(trim_end_matches("a.mp3.mp3", ".mp3"), "a");
    assert_eq!(trim_end_matches("a.mp3", ".ogg"), "a.mp3");
    assert_eq!(trim_end_matches("x", ""), "x");
}

#[test]
fn prefixes() {
    assert!(str_starts_with("playlist_0.json", "playlist"));
    assert!(!str_starts_with("emotion_calm.json", "playlist"));
    assert!(str_starts_with("abc", ""));
}
