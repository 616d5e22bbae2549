use lyricrs_cache::genius::{build_genius_url, format_genius_path_component};

#[test]
fn component_lowercases_and_hyphenates() {
    assert_eq!(format_genius_path_component("Hello, World!"), b"hello-world".to_vec());
}

#[test]
fn component_lowercases_plain_letters() {
    assert_eq!(format_genius_path_component("ABC"), b"abc".to_vec());
}

#[test]
fn component_removes_feat_parenthetical() {
    assert_eq!(format_genius_path_component("Song (feat. X)"), b"song".to_vec());
}

#[test]
fn component_removes_explicit_parenthetical() {
    assert_eq!(format_genius_path_component("Song (Explicit Version)"), b"song".to_vec());
}

#[test]
fn component_removes_leading_with_parenthetical() {
    assert_eq!(format_genius_path_component("(with Someone) Intro"), b"intro".to_vec());
}

#[test]
fn component_cuts_live_suffix() {
    assert_eq!(format_genius_path_component("Tune - Live at Wembley"), b"tune".to_vec());
}

#[test]
fn component_cuts_radio_edit_suffix() {
    assert_eq!(format_genius_path_component("Anthem - Radio Edit"), b"anthem".to_vec());
}

#[test]
fn component_keeps_editorial_words() {
    // "editor" is not a suffix word: the boundary check refuses it.
    assert_eq!(format_genius_path_component("Note - editors cut"), b"note-editors-cut".to_vec());
}

#[test]
fn component_spells_ampersand() {
    assert_eq!(format_genius_path_component("AC & DC"), b"ac-and-dc".to_vec());
}

#[test]
fn url_for_single_artist() {
    let artists = vec!["AC & DC".to_string()];
    assert_eq!(
        build_genius_url(&artists, "Back In Black"),
        b"https://genius.com/ac-and-dc-back-in-black-lyrics".to_vec(),
    );
}

#[test]
fn url_joins_artists_with_and() {
    let artists = vec!["First".to_string(), "Second".to_string()];
    assert_eq!(
        build_genius_url(&artists, "Hit"),
        b"https://genius.com/first-and-second-hit-lyrics".to_vec(),
    );
}
