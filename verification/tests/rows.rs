use meowsic::db::{Db, DbError, TrackRow};
use meowsic::tracks::Track;

fn row(duration: i64, position: Option<i64>, rank: Option<i64>) -> TrackRow {
    TrackRow {
        hash: "h".to_string(),
        path: "/m/a.mp3".to_string(),
        name: "a".to_string(),
        extension: "mp3".to_string(),
        duration,
        cover: None,
        title: Some("T".to_string()),
        artist: None,
        album: None,
        album_artist: None,
        date: None,
        genre: None,
        position,
        rank,
    }
}

#[test]
fn track_from_row_keeps_fields() {
    let t = Track::from(row(90, Some(3), None));
    assert_eq!(t.hash, "h");
    assert_eq!(t.name, "a");
    assert_eq!(t.duration, 90);
    assert_eq!(t.position, Some(3));
    assert_eq!(t.rank, None);
    assert_eq!(t.title.as_deref(), Some("T"));
}

#[test]
fn track_from_row_clamps_negative_numbers() {
    let t = Track::from(row(-5, Some(-1), Some(-2)));
    assert_eq!(t.duration, 0);
    assert_eq!(t.position, None);
    assert_eq!(t.rank, None);
}

#[test]
fn duplicate_emotion_is_refused() {
    let mut db = Db::new("/covers");
    db.add_emotion("happy", "#fff", "smile").unwrap();
    assert_eq!(db.add_emotion("happy", "#000", "frown"), Err(DbError::DuplicateEmotion));
}

#[test]
fn appending_to_an_unknown_playlist_is_refused() {
    let mut db = Db::new("/covers");
    let hs: Vec<String> = vec!["h".to_string()];
    assert_eq!(db.add_playlist_tracks("nope", &hs), Err(DbError::NoSuchPlaylist));
}

#[test]
fn error_messages_are_plain_text() {
    assert_eq!(DbError::NoSuchPlaylist.message(), "no such playlist");
    assert_eq!(DbError::RankOverflow.message(), "rank counter overflow");
}
