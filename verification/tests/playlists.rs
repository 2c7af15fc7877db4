use meowsic::db::{Db, DbError};

fn store_with_playlist(name: &str, hashes: &[&str]) -> Db {
    let mut db = Db::new("/covers");
    db.add_playlist(name).unwrap();
    let hs: Vec<String> = hashes.iter().map(|h| h.to_string()).collect();
    db.add_playlist_tracks(name, &hs).unwrap();
    db
}

fn positions_of(db: &Db, name: &str) -> Vec<(String, u64)> {
    let p = db
        .playlists
        .iter()
        .find(|p| p.name == name)
        .expect("playlist missing");
    p.entries
        .iter()
        .map(|e| (e.hash.clone(), e.position))
        .collect()
}

fn assert_contiguous(db: &Db, name: &str) {
    let entries = positions_of(db, name);
    let n = entries.len() as u64;
    for (_, pos) in &entries {
        assert!(*pos < n);
    }
    for i in 0..entries.len() {
        for j in i + 1..entries.len() {
            assert_ne!(entries[i].1, entries[j].1);
            assert_ne!(entries[i].0, entries[j].0);
        }
    }
}

#[test]
fn append_assigns_consecutive_positions() {
    let db = store_with_playlist("P", &["h0", "h1", "h2"]);
    let entries = positions_of(&db, "P");
    assert_eq!(entries.len(), 3);
    assert_eq!(entries[0], ("h0".to_string(), 0));
    assert_eq!(entries[1], ("h1".to_string(), 1));
    assert_eq!(entries[2], ("h2".to_string(), 2));
}

#[test]
fn append_skips_existing_and_repeats() {
    let mut db = store_with_playlist("P", &["h0", "h1"]);
    let more: Vec<String> = vec!["h1".to_string(), "h2".to_string(), "h2".to_string()];
    db.add_playlist_tracks("P", &more).unwrap();
    let entries = positions_of(&db, "P");
    assert_eq!(entries.len(), 3);
    assert_eq!(entries[2], ("h2".to_string(), 2));
    assert_contiguous(&db, "P");
}

#[test]
fn positions_stay_contiguous_after_mixed_operations() {
    let mut db = store_with_playlist("P", &["a", "b", "c", "d", "e", "f"]);
    let kill: Vec<String> = vec!["b".to_string(), "e".to_string()];
    db.remove_playlist_tracks("P", Some(&kill)).unwrap();
    assert_contiguous(&db, "P");
    db.reorder_playlist_track("P", "d", 2, 0).unwrap();
    assert_contiguous(&db, "P");
    let more: Vec<String> = vec!["g".to_string()];
    db.add_playlist_tracks("P", &more).unwrap();
    assert_contiguous(&db, "P");
}

#[test]
fn remove_renumbers_densely_in_relative_order() {
    let mut db = store_with_playlist("P", &["a", "b", "c", "d", "e"]);
    let kill: Vec<String> = vec!["b".to_string(), "d".to_string()];
    db.remove_playlist_tracks("P", Some(&kill)).unwrap();
    let entries = positions_of(&db, "P");
    assert_eq!(entries.len(), 3);
    assert_eq!(entries[0], ("a".to_string(), 0));
    assert_eq!(entries[1], ("c".to_string(), 1));
    assert_eq!(entries[2], ("e".to_string(), 2));
}

#[test]
fn remove_without_hashes_empties_playlist() {
    let mut db = store_with_playlist("P", &["a", "b"]);
    db.remove_playlist_tracks("P", None).unwrap();
    assert_eq!(positions_of(&db, "P").len(), 0);
}

#[test]
fn reorder_forward_shifts_between_down() {
    // moving position 2 to position 5 in a six-item list shifts 3,4,5 down
    // by one and leaves 0,1 untouched
    let mut db = store_with_playlist("P", &["t0", "t1", "t2", "t3", "t4", "t5"]);
    db.reorder_playlist_track("P", "t2", 2, 5).unwrap();
    let entries = positions_of(&db, "P");
    let pos = |h: &str| -> u64 {
        entries
            .iter()
            .find(|(hash, _)| hash == h)
            .map(|(_, p)| *p)
            .unwrap()
    };
    assert_eq!(pos("t0"), 0);
    assert_eq!(pos("t1"), 1);
    assert_eq!(pos("t2"), 5);
    assert_eq!(pos("t3"), 2);
    assert_eq!(pos("t4"), 3);
    assert_eq!(pos("t5"), 4);
}

#[test]
fn reorder_backward_shifts_between_up() {
    let mut db = store_with_playlist("P", &["t0", "t1", "t2", "t3"]);
    db.reorder_playlist_track("P", "t3", 3, 1).unwrap();
    let entries = positions_of(&db, "P");
    let pos = |h: &str| -> u64 {
        entries
            .iter()
            .find(|(hash, _)| hash == h)
            .map(|(_, p)| *p)
            .unwrap()
    };
    assert_eq!(pos("t0"), 0);
    assert_eq!(pos("t3"), 1);
    assert_eq!(pos("t1"), 2);
    assert_eq!(pos("t2"), 3);
}

#[test]
fn reorder_rejects_out_of_range_destination() {
    let mut db = store_with_playlist("P", &["a", "b"]);
    let r = db.reorder_playlist_track("P", "a", 0, 7);
    assert_eq!(r, Err(DbError::InvalidReorder));
    assert_contiguous(&db, "P");
}

#[test]
fn reorder_rejects_wrong_source_position() {
    let mut db = store_with_playlist("P", &["a", "b"]);
    let r = db.reorder_playlist_track("P", "a", 1, 0);
    assert_eq!(r, Err(DbError::InvalidReorder));
}

#[test]
fn reorder_unknown_playlist_is_refused() {
    let mut db = Db::new("/covers");
    let r = db.reorder_playlist_track("nope", "a", 0, 1);
    assert_eq!(r, Err(DbError::NoSuchPlaylist));
}

#[test]
fn duplicate_playlist_is_refused() {
    let mut db = Db::new("/covers");
    db.add_playlist("P").unwrap();
    assert_eq!(db.add_playlist("P"), Err(DbError::DuplicatePlaylist));
}

#[test]
fn rename_keeps_ordering_and_checks_collisions() {
    let mut db = store_with_playlist("P", &["a", "b"]);
    db.add_playlist("Q").unwrap();
    assert_eq!(db.rename_playlist("P", "Q"), Err(DbError::DuplicatePlaylist));
    db.rename_playlist("P", "R").unwrap();
    let entries = positions_of(&db, "R");
    assert_eq!(entries[0], ("a".to_string(), 0));
    assert_eq!(entries[1], ("b".to_string(), 1));
}

#[test]
fn remove_playlist_cascades() {
    let mut db = store_with_playlist("P", &["a", "b"]);
    db.remove_playlist("P").unwrap();
    assert!(db.playlists.iter().find(|p| p.name == "P").is_none());
}

#[test]
fn get_playlists_is_sorted() {
    let mut db = Db::new("/covers");
    db.add_playlist("beta").unwrap();
    db.add_playlist("alpha").unwrap();
    db.add_playlist("gamma").unwrap();
    let names = db.get_playlists();
    assert_eq!(names, vec!["alpha", "beta", "gamma"]);
}
