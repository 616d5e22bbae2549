use lyricrs_cache::keys::{generate_filename, generate_key, get_current_timestamp, get_index_path};

fn key_ab_song() -> Vec<u8> {
    b"908ae9579368a5c7d9a9c7079a1c4c0c461d850c5e66ff1927553091fdbf1fcf".to_vec()
}

fn key_ba_song() -> Vec<u8> {
    b"378d5ea05b6ecdbfde595a6e7fb3f73a4a4b54f21f289ffd05f58b6b86651672".to_vec()
}

#[test]
fn key_is_deterministic() {
    let artists = vec!["A".to_string(), "B".to_string()];
    let k1 = generate_key(&artists, "Song");
    let k2 = generate_key(&artists, "Song");
    assert_eq!(k1, k2);
}

#[test]
fn key_known_answer() {
    let artists = vec!["A".to_string(), "B".to_string()];
    let k = generate_key(&artists, "Song");
    assert_eq!(k, key_ab_song());
}

#[test]
fn key_is_64_lowercase_hex() {
    let artists = vec!["Some Artist".to_string()];
    let k = generate_key(&artists, "Some Title");
    assert_eq!(k.len(), 64);
    for b in &k {
        assert!((b'0'..=b'9').contains(b) || (b'a'..=b'f').contains(b));
    }
}

#[test]
fn artist_order_changes_key() {
    let ab = vec!["A".to_string(), "B".to_string()];
    let ba = vec!["B".to_string(), "A".to_string()];
    let kab = generate_key(&ab, "Song");
    let kba = generate_key(&ba, "Song");
    assert_ne!(kab, kba);
    assert_eq!(kab, key_ab_song());
    assert_eq!(kba, key_ba_song());
}

#[test]
fn filename_appends_txt() {
    let key = b"abc123".to_vec();
    assert_eq!(generate_filename(&key), b"abc123.txt".to_vec());
}

#[test]
fn index_path_joins_directory() {
    assert_eq!(get_index_path("/tmp/cache"), "/tmp/cache/index.json".to_string());
}

#[test]
fn timestamp_is_recent() {
    let t = get_current_timestamp();
    assert!(t > 1_600_000_000);
}
