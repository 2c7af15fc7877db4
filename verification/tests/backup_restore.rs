use meowsic::backup::{decode_entry, encode_entry, ArchiveFile, BackupItem};
use meowsic::db::{Db, DbError};
use meowsic::tracks::{FileOutcome, ProbeData, Track};

fn empty_probe() -> ProbeData {
    ProbeData { n_frames: None, sample_rate: None, tags: Vec::new(), visuals: Vec::new() }
}

fn make_track(path: &str) -> Track {
    Track::new(path, "/covers", &empty_probe()).unwrap().0
}

fn scan_files(db: &mut Db, paths: &[&str]) {
    let outcomes: Vec<FileOutcome> = paths
        .iter()
        .map(|p| FileOutcome { path: p.to_string(), outcome: Ok(make_track(p)) })
        .collect();
    db.scan_dirs(&outcomes);
}

#[test]
fn entry_text_round_trips() {
    let items = vec![
        BackupItem { file_name: "a.mp3".to_string(), value: 0 },
        BackupItem { file_name: "b.mp3".to_string(), value: 1 },
    ];
    let text = encode_entry("My List", &items, "position");
    assert_eq!(
        text,
        "{\"name\":\"My List\",\"list\":[{\"file_name\":\"a.mp3\",\"position\":0},{\"file_name\":\"b.mp3\",\"position\":1}]}"
    );
    let back = decode_entry(&text, "position").unwrap();
    assert_eq!(back.name, "My List");
    assert_eq!(back.items.len(), 2);
    assert_eq!(back.items[0].file_name, "a.mp3");
    assert_eq!(back.items[1].value, 1);
}

#[test]
fn entry_text_round_trips_with_escapes() {
    let items = vec![BackupItem { file_name: "we\"ird\\name.mp3".to_string(), value: 7 }];
    let text = encode_entry("a\"b\\c", &items, "rank");
    let back = decode_entry(&text, "rank").unwrap();
    assert_eq!(back.name, "a\"b\\c");
    assert_eq!(back.items[0].file_name, "we\"ird\\name.mp3");
    assert_eq!(back.items[0].value, 7);
}

#[test]
fn empty_list_round_trips() {
    let items: Vec<BackupItem> = Vec::new();
    let text = encode_entry("Empty", &items, "position");
    assert_eq!(text, "{\"name\":\"Empty\",\"list\":[]}");
    let back = decode_entry(&text, "position").unwrap();
    assert_eq!(back.items.len(), 0);
}

#[test]
fn decoder_rejects_noise() {
    assert!(decode_entry("", "position").is_none());
    assert!(decode_entry("{}", "position").is_none());
    assert!(decode_entry("{\"name\":\"x\",\"list\":[", "position").is_none());
    // the wrong key is rejected too
    let items = vec![BackupItem { file_name: "a.mp3".to_string(), value: 1 }];
    let text = encode_entry("x", &items, "rank");
    assert!(decode_entry(&text, "position").is_none());
}

#[test]
fn backup_skips_empty_playlists_and_names_entries() {
    let mut db = Db::new("/covers");
    scan_files(&mut db, &["/m/a.mp3"]);
    db.add_playlist("Empty").unwrap();
    db.add_playlist("Full").unwrap();
    let hashes: Vec<String> = vec![db.tracks[0].hash.clone()];
    db.add_playlist_tracks("Full", &hashes).unwrap();
    let files = db.backup();
    assert_eq!(files.len(), 1);
    assert!(files[0].name.starts_with("playlist_"));
    assert!(files[0].data.contains("a.mp3"));
}

#[test]
fn backup_then_restore_reconstructs_playlists_and_moods() {
    // export a library's organisation and read it back into a store that
    // rescanned the same files: the playlist reappears as "{name}
    // (Restored)" in the same relative order, the mood under its own name
    // with the same ranks
    let paths = ["/m/b.mp3", "/m/a.mp3", "/m/c.mp3"];
    let mut db = Db::new("/covers");
    scan_files(&mut db, &paths);
    db.add_playlist("P").unwrap();
    let hashes: Vec<String> = db.tracks.iter().map(|t| t.hash.clone()).collect();
    db.add_playlist_tracks("P", &hashes).unwrap();
    db.add_emotion("happy", "#fff", "smile").unwrap();
    db.rank_up_emotion_track("happy", &hashes[1]).unwrap();
    db.rank_up_emotion_track("happy", &hashes[1]).unwrap();
    db.rank_up_emotion_track("happy", &hashes[2]).unwrap();

    let files = db.backup();
    assert_eq!(files.len(), 2);

    let mut db2 = Db::new("/covers");
    scan_files(&mut db2, &paths);
    db2.restore(&files).unwrap();

    let restored = db2.get_playlist_tracks("P (Restored)");
    let original = db.get_playlist_tracks("P");
    assert_eq!(restored.len(), original.len());
    for (r, o) in restored.iter().zip(original.iter()) {
        assert_eq!(r.hash, o.hash);
        assert_eq!(r.position, o.position);
    }

    let moods = db2.get_emotion_tracks("happy");
    assert_eq!(moods.len(), 2);
    assert_eq!(moods[0].hash, hashes[1]);
    assert_eq!(moods[0].rank, Some(2));
    assert_eq!(moods[1].hash, hashes[2]);
    assert_eq!(moods[1].rank, Some(1));
}

#[test]
fn restoring_twice_duplicates_nothing_for_moods_but_collides_for_playlists() {
    let paths = ["/m/a.mp3"];
    let mut db = Db::new("/covers");
    scan_files(&mut db, &paths);
    db.add_playlist("P").unwrap();
    let hashes: Vec<String> = vec![db.tracks[0].hash.clone()];
    db.add_playlist_tracks("P", &hashes).unwrap();
    db.add_emotion("happy", "#fff", "smile").unwrap();
    db.rank_up_emotion_track("happy", &hashes[0]).unwrap();

    let files = db.backup();
    let mut db2 = Db::new("/covers");
    scan_files(&mut db2, &paths);
    db2.restore(&files).unwrap();
    // a second run merges mood ranks silently but collides on the playlist
    let second = db2.restore(&files);
    assert_eq!(second, Err(DbError::DuplicatePlaylist));
    let moods = db2.get_emotion_tracks("happy");
    assert_eq!(moods.len(), 1);
    assert_eq!(moods[0].rank, Some(1));
}

#[test]
fn restore_rejects_malformed_data() {
    let mut db = Db::new("/covers");
    let bad = vec![ArchiveFile {
        name: "playlist_0.json".to_string(),
        data: "not json at all".to_string(),
    }];
    assert_eq!(db.restore(&bad), Err(DbError::BadArchive));
    assert!(db.playlists.is_empty());
}

#[test]
fn restore_rejects_broken_positions() {
    // two items at the same position cannot form a playlist
    let items = vec![
        BackupItem { file_name: "a.mp3".to_string(), value: 0 },
        BackupItem { file_name: "b.mp3".to_string(), value: 0 },
    ];
    let data = encode_entry("P", &items, "position");
    let mut db = Db::new("/covers");
    let files = vec![ArchiveFile { name: "playlist_0.json".to_string(), data }];
    assert_eq!(db.restore(&files), Err(DbError::BadArchive));
}

#[test]
fn rank_counter_cannot_leave_the_signed_range() {
    // an archive may carry a rank at the top of the signed 64-bit range;
    // one more rank-up must be refused rather than wrap
    let items = vec![BackupItem { file_name: "a.mp3".to_string(), value: i64::MAX as u64 }];
    let data = encode_entry("happy", &items, "rank");
    let mut db = Db::new("/covers");
    let files = vec![ArchiveFile { name: "emotion_happy.json".to_string(), data }];
    db.restore(&files).unwrap();
    let hash = meowsic::hash("a.mp3".as_bytes());
    assert_eq!(db.rank_up_emotion_track("happy", &hash), Err(DbError::RankOverflow));
    assert_eq!(db.emotion_tracks[0].rank, i64::MAX as u64);
}

#[test]
fn restore_rejects_a_zero_rank() {
    let items = vec![BackupItem { file_name: "a.mp3".to_string(), value: 0 }];
    let data = encode_entry("happy", &items, "rank");
    let mut db = Db::new("/covers");
    let files = vec![ArchiveFile { name: "emotion_happy.json".to_string(), data }];
    assert_eq!(db.restore(&files), Err(DbError::BadArchive));
}

#[test]
fn restore_ignores_unrelated_archive_files() {
    let mut db = Db::new("/covers");
    let files = vec![ArchiveFile { name: "readme.txt".to_string(), data: "hi".to_string() }];
    db.restore(&files).unwrap();
    assert!(db.playlists.is_empty());
    assert!(db.emotion_tracks.is_empty());
}
