use meowsic::db::Db;
use meowsic::tracks::{
    choose_cover, cover_image_ext, is_supported_extension, FileOutcome, ProbeData, Tag, TagKey,
    Track, Visual, VisualKind,
};

fn empty_probe() -> ProbeData {
    ProbeData { n_frames: None, sample_rate: None, tags: Vec::new(), visuals: Vec::new() }
}

fn make_track(path: &str) -> Track {
    Track::new(path, "/covers", &empty_probe()).unwrap().0
}

#[test]
fn track_new_derives_name_extension_and_hash() {
    let t = make_track("/music/Song.mp3");
    assert_eq!(t.path, "/music/Song.mp3");
    assert_eq!(t.name, "Song");
    assert_eq!(t.extension, "mp3");
    assert_eq!(t.duration, 0);
    assert_eq!(t.hash, blake3::hash("Song.mp3".as_bytes()).to_string());
    assert!(t.cover.is_none());
    assert!(t.position.is_none());
}

#[test]
fn track_new_trims_every_trailing_extension_copy() {
    let t = make_track("/m/a.mp3.mp3");
    assert_eq!(t.name, "a");
    assert_eq!(t.extension, "mp3");
}

#[test]
fn track_new_rejects_missing_extension() {
    assert!(Track::new("/music/noext", "/covers", &empty_probe()).is_err());
}

#[test]
fn track_new_duration_is_whole_seconds() {
    let probe = ProbeData {
        n_frames: Some(88200),
        sample_rate: Some(44100),
        tags: Vec::new(),
        visuals: Vec::new(),
    };
    let t = Track::new("/m/x.mp3", "/covers", &probe).unwrap().0;
    assert_eq!(t.duration, 2);
}

#[test]
fn track_new_maps_known_tags_last_wins() {
    let probe = ProbeData {
        n_frames: None,
        sample_rate: None,
        tags: vec![
            Tag { key: TagKey::Title, value: "First".to_string() },
            Tag { key: TagKey::Artist, value: "Someone".to_string() },
            Tag { key: TagKey::Other, value: "ignored".to_string() },
            Tag { key: TagKey::Title, value: "Second".to_string() },
        ],
        visuals: Vec::new(),
    };
    let t = Track::new("/m/x.mp3", "/covers", &probe).unwrap().0;
    assert_eq!(t.title.as_deref(), Some("Second"));
    assert_eq!(t.artist.as_deref(), Some("Someone"));
    assert!(t.album.is_none());
    assert!(t.genre.is_none());
}

#[test]
fn cover_prefers_front_then_back_then_first_other() {
    let front_empty = Visual {
        kind: VisualKind::FrontCover,
        media_type: "image/png".to_string(),
        data: Vec::new(),
    };
    let back = Visual {
        kind: VisualKind::BackCover,
        media_type: "image/jpeg".to_string(),
        data: vec![1, 2],
    };
    let other = Visual {
        kind: VisualKind::Other,
        media_type: "image/gif".to_string(),
        data: vec![3],
    };
    let visuals = vec![front_empty, back, other];
    // the front cover has no bytes, so the back cover wins
    assert_eq!(choose_cover(&visuals), Some(1));

    let only_other = vec![
        Visual { kind: VisualKind::Other, media_type: "image/gif".to_string(), data: Vec::new() },
        Visual { kind: VisualKind::Other, media_type: "image/gif".to_string(), data: vec![9] },
    ];
    assert_eq!(choose_cover(&only_other), Some(1));
    assert_eq!(choose_cover(&Vec::new()), None);
}

#[test]
fn chosen_cover_names_the_file_after_hash_and_media_type() {
    let probe = ProbeData {
        n_frames: None,
        sample_rate: None,
        tags: Vec::new(),
        visuals: vec![Visual {
            kind: VisualKind::FrontCover,
            media_type: "image/png".to_string(),
            data: vec![1],
        }],
    };
    let (t, wrote) = Track::new("/m/x.mp3", "/covers", &probe).unwrap();
    assert_eq!(wrote, Some(0));
    let expected = format!("/covers/{}.png", blake3::hash("x.mp3".as_bytes()).to_string());
    assert_eq!(t.cover.as_deref(), Some(expected.as_str()));
}

#[test]
fn cover_extension_defaults_to_jpg() {
    assert_eq!(cover_image_ext("image/png"), "png");
    assert_eq!(cover_image_ext("weird"), "jpg");
    assert_eq!(cover_image_ext("image/"), "");
}

#[test]
fn supported_extensions_ignore_case() {
    assert!(is_supported_extension("mp3"));
    assert!(is_supported_extension("MP3"));
    assert!(is_supported_extension("FlAc"));
    assert!(is_supported_extension("aiff"));
    assert!(!is_supported_extension("txt"));
    assert!(!is_supported_extension(""));
}

#[test]
fn scan_counts_successes_and_failures_exactly() {
    // two readable files and one corrupt file give two tracks, one error
    // line, and a summary over all three
    let outcomes = vec![
        FileOutcome { path: "/m/a.mp3".to_string(), outcome: Ok(make_track("/m/a.mp3")) },
        FileOutcome { path: "/m/b.mp3".to_string(), outcome: Ok(make_track("/m/b.mp3")) },
        FileOutcome {
            path: "/m/c.mp3".to_string(),
            outcome: Err("unsupported format".to_string()),
        },
    ];
    let mut db = Db::new("/covers");
    let summary = db.scan_dirs(&outcomes);
    assert_eq!(db.tracks.len(), 2);
    assert_eq!(
        summary,
        "/m/c.mp3: unsupported format\n\nScanned 3 tracks with 1 errors."
    );
}

#[test]
fn scan_with_no_errors_has_empty_report_body() {
    let outcomes = vec![FileOutcome {
        path: "/m/a.mp3".to_string(),
        outcome: Ok(make_track("/m/a.mp3")),
    }];
    let mut db = Db::new("/covers");
    let summary = db.scan_dirs(&outcomes);
    assert_eq!(summary, "\n\nScanned 1 tracks with 0 errors.");
}

#[test]
fn rescan_replaces_the_whole_table() {
    let mut db = Db::new("/covers");
    let first = vec![FileOutcome {
        path: "/m/a.mp3".to_string(),
        outcome: Ok(make_track("/m/a.mp3")),
    }];
    db.scan_dirs(&first);
    assert_eq!(db.tracks.len(), 1);
    let second = vec![
        FileOutcome { path: "/m/b.mp3".to_string(), outcome: Ok(make_track("/m/b.mp3")) },
        FileOutcome { path: "/m/c.mp3".to_string(), outcome: Ok(make_track("/m/c.mp3")) },
    ];
    db.scan_dirs(&second);
    assert_eq!(db.tracks.len(), 2);
    assert_eq!(db.tracks[0].name, "b");
}

#[test]
fn rescan_with_same_names_preserves_playlist_associations() {
    // the hash is derived from the file name alone, so a rescan that sees
    // the same names leaves every association resolvable
    let mut db = Db::new("/covers");
    let outcomes = vec![
        FileOutcome { path: "/old/a.mp3".to_string(), outcome: Ok(make_track("/old/a.mp3")) },
        FileOutcome { path: "/old/b.mp3".to_string(), outcome: Ok(make_track("/old/b.mp3")) },
    ];
    db.scan_dirs(&outcomes);
    db.add_playlist("P").unwrap();
    let hashes: Vec<String> = db.tracks.iter().map(|t| t.hash.clone()).collect();
    db.add_playlist_tracks("P", &hashes).unwrap();
    let before: Vec<String> =
        db.get_playlist_tracks("P").iter().map(|t| t.hash.clone()).collect();

    // same file names from a different directory
    let rescan = vec![
        FileOutcome { path: "/new/a.mp3".to_string(), outcome: Ok(make_track("/new/a.mp3")) },
        FileOutcome { path: "/new/b.mp3".to_string(), outcome: Ok(make_track("/new/b.mp3")) },
    ];
    db.scan_dirs(&rescan);
    let after: Vec<String> =
        db.get_playlist_tracks("P").iter().map(|t| t.hash.clone()).collect();
    assert_eq!(before, after);
    assert_eq!(after.len(), 2);
}
