use meowsic::db::{Db, GetTracksFilters};
use meowsic::tracks::{FileOutcome, Lyrics, ProbeData, Tag, TagKey, Track};

fn probe_with(tags: Vec<Tag>) -> ProbeData {
    ProbeData { n_frames: None, sample_rate: None, tags, visuals: Vec::new() }
}

fn tagged_track(path: &str, artist: &str, album: &str) -> Track {
    let probe = probe_with(vec![
        Tag { key: TagKey::Artist, value: artist.to_string() },
        Tag { key: TagKey::Album, value: album.to_string() },
    ]);
    Track::new(path, "/covers", &probe).unwrap().0
}

fn library() -> Db {
    let mut db = Db::new("/covers");
    let outcomes = vec![
        FileOutcome {
            path: "/m/b.mp3".to_string(),
            outcome: Ok(tagged_track("/m/b.mp3", "Ann", "Red")),
        },
        FileOutcome {
            path: "/m/a.mp3".to_string(),
            outcome: Ok(tagged_track("/m/a.mp3", "Bob", "Red")),
        },
        FileOutcome {
            path: "/m/c.mp3".to_string(),
            outcome: Ok(tagged_track("/m/c.mp3", "Ann", "Blue")),
        },
    ];
    db.scan_dirs(&outcomes);
    db
}

#[test]
fn rank_up_twice_yields_rank_two() {
    let mut db = library();
    let hash = db.tracks[0].hash.clone();
    db.add_emotion("happy", "#fff", "smile").unwrap();
    db.rank_up_emotion_track("happy", &hash).unwrap();
    db.rank_up_emotion_track("happy", &hash).unwrap();
    let ranked = db.get_emotion_tracks("happy");
    assert_eq!(ranked.len(), 1);
    assert_eq!(ranked[0].rank, Some(2));
}

#[test]
fn emotion_tracks_come_rank_descending() {
    let mut db = library();
    let h0 = db.tracks[0].hash.clone();
    let h1 = db.tracks[1].hash.clone();
    db.rank_up_emotion_track("calm", &h0).unwrap();
    db.rank_up_emotion_track("calm", &h1).unwrap();
    db.rank_up_emotion_track("calm", &h1).unwrap();
    let ranked = db.get_emotion_tracks("calm");
    assert_eq!(ranked.len(), 2);
    assert_eq!(ranked[0].hash, h1);
    assert_eq!(ranked[0].rank, Some(2));
    assert_eq!(ranked[1].rank, Some(1));
}

#[test]
fn emotions_list_in_creation_order() {
    let mut db = Db::new("/covers");
    db.add_emotion("zeta", "#1", "a").unwrap();
    db.add_emotion("alpha", "#2", "b").unwrap();
    let moods = db.get_emotions();
    assert_eq!(moods.len(), 2);
    assert_eq!(moods[0].name, "zeta");
    assert_eq!(moods[1].name, "alpha");
}

#[test]
fn get_tracks_lists_alphabetically_and_playlist_keeps_append_order() {
    // tracks b, a, c added to playlist P in that order get positions 0,1,2;
    // the playlist lists them b,a,c while the library lists a,b,c
    let mut db = library();
    db.add_playlist("P").unwrap();
    let order: Vec<String> = ["b", "a", "c"]
        .iter()
        .map(|n| db.tracks.iter().find(|t| t.name == *n).unwrap().hash.clone())
        .collect();
    db.add_playlist_tracks("P", &order).unwrap();

    let in_playlist = db.get_playlist_tracks("P");
    let names: Vec<&str> = in_playlist.iter().map(|t| t.name.as_str()).collect();
    assert_eq!(names, vec!["b", "a", "c"]);
    assert_eq!(in_playlist[0].position, Some(0));
    assert_eq!(in_playlist[1].position, Some(1));
    assert_eq!(in_playlist[2].position, Some(2));

    let all = db.get_tracks(&GetTracksFilters { album: None, artist: None });
    let names: Vec<&str> = all.iter().map(|t| t.name.as_str()).collect();
    assert_eq!(names, vec!["a", "b", "c"]);
}

#[test]
fn get_tracks_filters_conjunctively() {
    let db = library();
    let by_artist = db.get_tracks(&GetTracksFilters {
        album: None,
        artist: Some("Ann".to_string()),
    });
    assert_eq!(by_artist.len(), 2);
    let both = db.get_tracks(&GetTracksFilters {
        album: Some("Red".to_string()),
        artist: Some("Ann".to_string()),
    });
    assert_eq!(both.len(), 1);
    assert_eq!(both[0].name, "b");
}

#[test]
fn get_artists_is_distinct_and_sorted() {
    let db = library();
    assert_eq!(db.get_artists(), vec!["Ann", "Bob"]);
}

#[test]
fn get_albums_is_distinct_sorted_with_a_cover() {
    let db = library();
    let albums = db.get_albums();
    let names: Vec<&str> = albums.iter().map(|a| a.name.as_str()).collect();
    assert_eq!(names, vec!["Blue", "Red"]);
    assert!(albums[0].cover.is_none());
}

#[test]
fn get_track_finds_by_hash() {
    let db = library();
    let h = db.tracks[1].hash.clone();
    let t = db.get_track(&h).unwrap();
    assert_eq!(t.hash, h);
    assert!(db.get_track("no-such-hash").is_none());
}

#[test]
fn lyrics_are_one_row_per_track() {
    let mut db = Db::new("/covers");
    let l1 = Lyrics { plain: "la".to_string(), synced: "[0:00] la".to_string() };
    db.set_lyrics("h", Some(&l1));
    let l2 = Lyrics { plain: "da".to_string(), synced: "[0:01] da".to_string() };
    db.set_lyrics("h", Some(&l2));
    let got = db.get_lyrics("h").unwrap();
    assert_eq!(got.plain, "da");
    db.set_lyrics("h", None);
    assert!(db.get_lyrics("h").is_none());
}

#[test]
fn rules_are_one_row_per_track() {
    let mut db = Db::new("/covers");
    db.set_rules("h", Some("loop"));
    db.set_rules("h", Some("shuffle"));
    assert_eq!(db.get_rules("h").as_deref(), Some("shuffle"));
    db.set_rules("h", None);
    assert!(db.get_rules("h").is_none());
}

#[test]
fn dirs_replace_wholesale_and_list_sorted() {
    let mut db = Db::new("/covers");
    let dirs: Vec<String> = vec!["/z".to_string(), "/a".to_string()];
    db.set_dirs(&dirs);
    assert_eq!(db.get_dirs(), vec!["/a", "/z"]);
    let fewer: Vec<String> = vec!["/m".to_string()];
    db.set_dirs(&fewer);
    assert_eq!(db.get_dirs(), vec!["/m"]);
}

#[test]
fn reset_drops_everything() {
    let mut db = library();
    db.add_playlist("P").unwrap();
    db.add_emotion("happy", "#fff", "smile").unwrap();
    db.reset();
    assert!(db.tracks.is_empty());
    assert!(db.playlists.is_empty());
    assert!(db.emotions.is_empty());
    assert_eq!(db.covers_path, "/covers");
}
