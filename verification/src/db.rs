use vstd::prelude::*;

use crate::backup::{encode_entry, entry_json, item_views, ArchiveFile, BackupItem};
use crate::sorting::{has_view, sort_strings, strings_sorted};
use crate::strings::{dec_str, has_prefix, join_lines, lex_le, str_eq, str_starts_with, u64_to_dec};
use crate::tracks::{scan_errors, scan_tracks, view_opt, Album, FileOutcome, Lyrics, Track};

verus! {

// ---------------------------------------------------------------------------
// The rows the store keeps.
// ---------------------------------------------------------------------------

/// One playlist membership: which track, at which zero-based position.
#[derive(Debug)]
pub struct PlaylistEntry {
    pub hash: String,
    pub position: u64,
}

impl Clone for PlaylistEntry {
    fn clone(&self) -> (r: Self)
        ensures
            r == *self,
    {
        PlaylistEntry { hash: self.hash.clone(), position: self.position }
    }
}

/// One named playlist and its ordered memberships.
#[derive(Debug)]
pub struct Playlist {
    pub name: String,
    pub entries: Vec<PlaylistEntry>,
}

/// One mood: its name and how the interface draws it.
#[derive(Debug)]
pub struct Emotion {
    pub name: String,
    pub color: String,
    pub icon: String,
}

impl Clone for Emotion {
    fn clone(&self) -> (r: Self)
        ensures
            r == *self,
    {
        Emotion { name: self.name.clone(), color: self.color.clone(), icon: self.icon.clone() }
    }
}

/// One (mood, track) association and its rank counter.
#[derive(Debug)]
pub struct EmotionEntry {
    pub emotion: String,
    pub hash: String,
    pub rank: u64,
}

impl Clone for EmotionEntry {
    fn clone(&self) -> (r: Self)
        ensures
            r == *self,
    {
        EmotionEntry {
            emotion: self.emotion.clone(),
            hash: self.hash.clone(),
            rank: self.rank,
        }
    }
}

/// The lyrics row of one track.
#[derive(Debug)]
pub struct LyricsRow {
    pub hash: String,
    pub lyrics: Lyrics,
}

/// The ruleset row of one track.
#[derive(Debug)]
pub struct RulesRow {
    pub hash: String,
    pub rules: String,
}

/// The optional filters of the track listing; absent fields impose no
/// constraint.
#[derive(Debug)]
pub struct GetTracksFilters {
    pub album: Option<String>,
    pub artist: Option<String>,
}

/// Why a store operation was refused. The store mutates nothing when it
/// returns one of these.
#[derive(Debug, Clone, Copy, PartialEq, Eq, Structural)]
pub enum DbError {
    /// A playlist with that name already exists.
    DuplicatePlaylist,
    /// A mood with that name already exists.
    DuplicateEmotion,
    /// No playlist with that name exists.
    NoSuchPlaylist,
    /// A reorder named a position outside the playlist or a track that is
    /// not at the named source position.
    InvalidReorder,
    /// The rank counter cannot grow past the signed 64-bit range the store
    /// keeps it in.
    RankOverflow,
    /// A restore archive entry could not be decoded.
    BadArchive,
}

impl DbError {
    pub open spec fn spec_message(self) -> Seq<char> {
        match self {
            DbError::DuplicatePlaylist => "playlist already exists"@,
            DbError::DuplicateEmotion => "emotion already exists"@,
            DbError::NoSuchPlaylist => "no such playlist"@,
            DbError::InvalidReorder => "reorder position out of range"@,
            DbError::RankOverflow => "rank counter overflow"@,
            DbError::BadArchive => "malformed backup archive"@,
        }
    }

    /// The failure text shown to the caller.
    pub fn message(&self) -> (r: String)
        ensures
            r@ == self.spec_message(),
    {
        match self {
            DbError::DuplicatePlaylist => String::from_str("playlist already exists"),
            DbError::DuplicateEmotion => String::from_str("emotion already exists"),
            DbError::NoSuchPlaylist => String::from_str("no such playlist"),
            DbError::InvalidReorder => String::from_str("reorder position out of range"),
            DbError::RankOverflow => String::from_str("rank counter overflow"),
            DbError::BadArchive => String::from_str("malformed backup archive"),
        }
    }
}

// ---------------------------------------------------------------------------
// Row predicates the contracts select by.
// ---------------------------------------------------------------------------

pub open spec fn pl_ix(s: Seq<Playlist>, name: Seq<char>) -> Option<int>
    decreases s.len(),
{
    if s.len() == 0 {
        None
    } else if s[0].name@ == name {
        Some(0)
    } else {
        match pl_ix(s.skip(1), name) {
            Some(i) => Some(i + 1),
            None => None,
        }
    }
}

pub proof fn lemma_pl_ix_props(s: Seq<Playlist>, name: Seq<char>)
    ensures
        match pl_ix(s, name) {
            Some(i) => 0 <= i < s.len() && (s[i].name@ == name) && (forall|j: int|
                0 <= j < i ==> !(s[j].name@ == name)),
            None => forall|j: int| 0 <= j < s.len() ==> !(s[j].name@ == name),
        },
    decreases s.len(),
{
    if s.len() > 0 && !(s[0].name@ == name) {
        lemma_pl_ix_props(s.skip(1), name);
        assert(forall|j: int| 0 <= j < s.skip(1).len() ==> s.skip(1)[j] == s[j + 1]);
        match pl_ix(s.skip(1), name) {
            Some(i) => {
                assert forall|j: int| 0 <= j < i + 1 implies !(s[j].name@ == name) by {
                    if j > 0 {
                        assert(!(s.skip(1)[j - 1].name@ == name));
                    }
                }
            },
            None => {
                assert forall|j: int| 0 <= j < s.len() implies !(s[j].name@ == name) by {
                    if j > 0 {
                        assert(!(s.skip(1)[j - 1].name@ == name));
                    }
                }
            },
        }
    }
}

pub proof fn lemma_pl_ix_found(s: Seq<Playlist>, name: Seq<char>, i: int)
    requires
        0 <= i < s.len(),
        s[i].name@ == name,
        forall|j: int| 0 <= j < i ==> !(s[j].name@ == name),
    ensures
        pl_ix(s, name) == Some(i),
{
    lemma_pl_ix_props(s, name);
    match pl_ix(s, name) {
        Some(k) => {
            if k < i {
                assert(!(s[k].name@ == name));
            }
            if k > i {
                assert(!(s[i].name@ == name));
            }
        },
        None => {
            assert(!(s[i].name@ == name));
        },
    }
}

pub proof fn lemma_pl_ix_none(s: Seq<Playlist>, name: Seq<char>)
    requires
        forall|j: int| 0 <= j < s.len() ==> !(s[j].name@ == name),
    ensures
        pl_ix(s, name) is None,
{
    lemma_pl_ix_props(s, name);
    match pl_ix(s, name) {
        Some(k) => {
            assert(!(s[k].name@ == name));
        },
        None => {},
    }
}

pub open spec fn entry_ix(s: Seq<PlaylistEntry>, hash: Seq<char>) -> Option<int>
    decreases s.len(),
{
    if s.len() == 0 {
        None
    } else if s[0].hash@ == hash {
        Some(0)
    } else {
        match entry_ix(s.skip(1), hash) {
            Some(i) => Some(i + 1),
            None => None,
        }
    }
}

pub proof fn lemma_entry_ix_props(s: Seq<PlaylistEntry>, hash: Seq<char>)
    ensures
        match entry_ix(s, hash) {
            Some(i) => 0 <= i < s.len() && (s[i].hash@ == hash) && (forall|j: int|
                0 <= j < i ==> !(s[j].hash@ == hash)),
            None => forall|j: int| 0 <= j < s.len() ==> !(s[j].hash@ == hash),
        },
    decreases s.len(),
{
    if s.len() > 0 && !(s[0].hash@ == hash) {
        lemma_entry_ix_props(s.skip(1), hash);
        assert(forall|j: int| 0 <= j < s.skip(1).len() ==> s.skip(1)[j] == s[j + 1]);
        match entry_ix(s.skip(1), hash) {
            Some(i) => {
                assert forall|j: int| 0 <= j < i + 1 implies !(s[j].hash@ == hash) by {
                    if j > 0 {
                        assert(!(s.skip(1)[j - 1].hash@ == hash));
                    }
                }
            },
            None => {
                assert forall|j: int| 0 <= j < s.len() implies !(s[j].hash@ == hash) by {
                    if j > 0 {
                        assert(!(s.skip(1)[j - 1].hash@ == hash));
                    }
                }
            },
        }
    }
}

pub proof fn lemma_entry_ix_found(s: Seq<PlaylistEntry>, hash: Seq<char>, i: int)
    requires
        0 <= i < s.len(),
        s[i].hash@ == hash,
        forall|j: int| 0 <= j < i ==> !(s[j].hash@ == hash),
    ensures
        entry_ix(s, hash) == Some(i),
{
    lemma_entry_ix_props(s, hash);
    match entry_ix(s, hash) {
        Some(k) => {
            if k < i {
                assert(!(s[k].hash@ == hash));
            }
            if k > i {
                assert(!(s[i].hash@ == hash));
            }
        },
        None => {
            assert(!(s[i].hash@ == hash));
        },
    }
}

pub proof fn lemma_entry_ix_none(s: Seq<PlaylistEntry>, hash: Seq<char>)
    requires
        forall|j: int| 0 <= j < s.len() ==> !(s[j].hash@ == hash),
    ensures
        entry_ix(s, hash) is None,
{
    lemma_entry_ix_props(s, hash);
    match entry_ix(s, hash) {
        Some(k) => {
            assert(!(s[k].hash@ == hash));
        },
        None => {},
    }
}

pub open spec fn entry_at_pos(s: Seq<PlaylistEntry>, pos: int) -> Option<int>
    decreases s.len(),
{
    if s.len() == 0 {
        None
    } else if s[0].position == pos {
        Some(0)
    } else {
        match entry_at_pos(s.skip(1), pos) {
            Some(i) => Some(i + 1),
            None => None,
        }
    }
}

pub proof fn lemma_entry_at_pos_props(s: Seq<PlaylistEntry>, pos: int)
    ensures
        match entry_at_pos(s, pos) {
            Some(i) => 0 <= i < s.len() && (s[i].position == pos) && (forall|j: int|
                0 <= j < i ==> !(s[j].position == pos)),
            None => forall|j: int| 0 <= j < s.len() ==> !(s[j].position == pos),
        },
    decreases s.len(),
{
    if s.len() > 0 && !(s[0].position == pos) {
        lemma_entry_at_pos_props(s.skip(1), pos);
        assert(forall|j: int| 0 <= j < s.skip(1).len() ==> s.skip(1)[j] == s[j + 1]);
        match entry_at_pos(s.skip(1), pos) {
            Some(i) => {
                assert forall|j: int| 0 <= j < i + 1 implies !(s[j].position == pos) by {
                    if j > 0 {
                        assert(!(s.skip(1)[j - 1].position == pos));
                    }
                }
            },
            None => {
                assert forall|j: int| 0 <= j < s.len() implies !(s[j].position == pos) by {
                    if j > 0 {
                        assert(!(s.skip(1)[j - 1].position == pos));
                    }
                }
            },
        }
    }
}

pub proof fn lemma_entry_at_pos_found(s: Seq<PlaylistEntry>, pos: int, i: int)
    requires
        0 <= i < s.len(),
        s[i].position == pos,
        forall|j: int| 0 <= j < i ==> !(s[j].position == pos),
    ensures
        entry_at_pos(s, pos) == Some(i),
{
    lemma_entry_at_pos_props(s, pos);
    match entry_at_pos(s, pos) {
        Some(k) => {
            if k < i {
                assert(!(s[k].position == pos));
            }
            if k > i {
                assert(!(s[i].position == pos));
            }
        },
        None => {
            assert(!(s[i].position == pos));
        },
    }
}

pub proof fn lemma_entry_at_pos_none(s: Seq<PlaylistEntry>, pos: int)
    requires
        forall|j: int| 0 <= j < s.len() ==> !(s[j].position == pos),
    ensures
        entry_at_pos(s, pos) is None,
{
    lemma_entry_at_pos_props(s, pos);
    match entry_at_pos(s, pos) {
        Some(k) => {
            assert(!(s[k].position == pos));
        },
        None => {},
    }
}

pub open spec fn track_ix(s: Seq<Track>, hash: Seq<char>) -> Option<int>
    decreases s.len(),
{
    if s.len() == 0 {
        None
    } else if s[0].hash@ == hash {
        Some(0)
    } else {
        match track_ix(s.skip(1), hash) {
            Some(i) => Some(i + 1),
            None => None,
        }
    }
}

pub proof fn lemma_track_ix_props(s: Seq<Track>, hash: Seq<char>)
    ensures
        match track_ix(s, hash) {
            Some(i) => 0 <= i < s.len() && (s[i].hash@ == hash) && (forall|j: int|
                0 <= j < i ==> !(s[j].hash@ == hash)),
            None => forall|j: int| 0 <= j < s.len() ==> !(s[j].hash@ == hash),
        },
    decreases s.len(),
{
    if s.len() > 0 && !(s[0].hash@ == hash) {
        lemma_track_ix_props(s.skip(1), hash);
        assert(forall|j: int| 0 <= j < s.skip(1).len() ==> s.skip(1)[j] == s[j + 1]);
        match track_ix(s.skip(1), hash) {
            Some(i) => {
                assert forall|j: int| 0 <= j < i + 1 implies !(s[j].hash@ == hash) by {
                    if j > 0 {
                        assert(!(s.skip(1)[j - 1].hash@ == hash));
                    }
                }
            },
            None => {
                assert forall|j: int| 0 <= j < s.len() implies !(s[j].hash@ == hash) by {
                    if j > 0 {
                        assert(!(s.skip(1)[j - 1].hash@ == hash));
                    }
                }
            },
        }
    }
}

pub proof fn lemma_track_ix_found(s: Seq<Track>, hash: Seq<char>, i: int)
    requires
        0 <= i < s.len(),
        s[i].hash@ == hash,
        forall|j: int| 0 <= j < i ==> !(s[j].hash@ == hash),
    ensures
        track_ix(s, hash) == Some(i),
{
    lemma_track_ix_props(s, hash);
    match track_ix(s, hash) {
        Some(k) => {
            if k < i {
                assert(!(s[k].hash@ == hash));
            }
            if k > i {
                assert(!(s[i].hash@ == hash));
            }
        },
        None => {
            assert(!(s[i].hash@ == hash));
        },
    }
}

pub proof fn lemma_track_ix_none(s: Seq<Track>, hash: Seq<char>)
    requires
        forall|j: int| 0 <= j < s.len() ==> !(s[j].hash@ == hash),
    ensures
        track_ix(s, hash) is None,
{
    lemma_track_ix_props(s, hash);
    match track_ix(s, hash) {
        Some(k) => {
            assert(!(s[k].hash@ == hash));
        },
        None => {},
    }
}

pub open spec fn emotion_ix(s: Seq<Emotion>, name: Seq<char>) -> Option<int>
    decreases s.len(),
{
    if s.len() == 0 {
        None
    } else if s[0].name@ == name {
        Some(0)
    } else {
        match emotion_ix(s.skip(1), name) {
            Some(i) => Some(i + 1),
            None => None,
        }
    }
}

pub proof fn lemma_emotion_ix_props(s: Seq<Emotion>, name: Seq<char>)
    ensures
        match emotion_ix(s, name) {
            Some(i) => 0 <= i < s.len() && (s[i].name@ == name) && (forall|j: int|
                0 <= j < i ==> !(s[j].name@ == name)),
            None => forall|j: int| 0 <= j < s.len() ==> !(s[j].name@ == name),
        },
    decreases s.len(),
{
    if s.len() > 0 && !(s[0].name@ == name) {
        lemma_emotion_ix_props(s.skip(1), name);
        assert(forall|j: int| 0 <= j < s.skip(1).len() ==> s.skip(1)[j] == s[j + 1]);
        match emotion_ix(s.skip(1), name) {
            Some(i) => {
                assert forall|j: int| 0 <= j < i + 1 implies !(s[j].name@ == name) by {
                    if j > 0 {
                        assert(!(s.skip(1)[j - 1].name@ == name));
                    }
                }
            },
            None => {
                assert forall|j: int| 0 <= j < s.len() implies !(s[j].name@ == name) by {
                    if j > 0 {
                        assert(!(s.skip(1)[j - 1].name@ == name));
                    }
                }
            },
        }
    }
}

pub proof fn lemma_emotion_ix_found(s: Seq<Emotion>, name: Seq<char>, i: int)
    requires
        0 <= i < s.len(),
        s[i].name@ == name,
        forall|j: int| 0 <= j < i ==> !(s[j].name@ == name),
    ensures
        emotion_ix(s, name) == Some(i),
{
    lemma_emotion_ix_props(s, name);
    match emotion_ix(s, name) {
        Some(k) => {
            if k < i {
                assert(!(s[k].name@ == name));
            }
            if k > i {
                assert(!(s[i].name@ == name));
            }
        },
        None => {
            assert(!(s[i].name@ == name));
        },
    }
}

pub proof fn lemma_emotion_ix_none(s: Seq<Emotion>, name: Seq<char>)
    requires
        forall|j: int| 0 <= j < s.len() ==> !(s[j].name@ == name),
    ensures
        emotion_ix(s, name) is None,
{
    lemma_emotion_ix_props(s, name);
    match emotion_ix(s, name) {
        Some(k) => {
            assert(!(s[k].name@ == name));
        },
        None => {},
    }
}

pub open spec fn emo_entry_ix(s: Seq<EmotionEntry>, emotion: Seq<char>, hash: Seq<char>) -> Option<int>
    decreases s.len(),
{
    if s.len() == 0 {
        None
    } else if s[0].emotion@ == emotion && s[0].hash@ == hash {
        Some(0)
    } else {
        match emo_entry_ix(s.skip(1), emotion, hash) {
            Some(i) => Some(i + 1),
            None => None,
        }
    }
}

pub proof fn lemma_emo_entry_ix_props(s: Seq<EmotionEntry>, emotion: Seq<char>, hash: Seq<char>)
    ensures
        match emo_entry_ix(s, emotion, hash) {
            Some(i) => 0 <= i < s.len() && (s[i].emotion@ == emotion && s[i].hash@ == hash) && (forall|j: int|
                0 <= j < i ==> !(s[j].emotion@ == emotion && s[j].hash@ == hash)),
            None => forall|j: int| 0 <= j < s.len() ==> !(s[j].emotion@ == emotion && s[j].hash@ == hash),
        },
    decreases s.len(),
{
    if s.len() > 0 && !(s[0].emotion@ == emotion && s[0].hash@ == hash) {
        lemma_emo_entry_ix_props(s.skip(1), emotion, hash);
        assert(forall|j: int| 0 <= j < s.skip(1).len() ==> s.skip(1)[j] == s[j + 1]);
        match emo_entry_ix(s.skip(1), emotion, hash) {
            Some(i) => {
                assert forall|j: int| 0 <= j < i + 1 implies !(s[j].emotion@ == emotion && s[j].hash@ == hash) by {
                    if j > 0 {
                        assert(!(s.skip(1)[j - 1].emotion@ == emotion && s.skip(1)[j - 1].hash@ == hash));
                    }
                }
            },
            None => {
                assert forall|j: int| 0 <= j < s.len() implies !(s[j].emotion@ == emotion && s[j].hash@ == hash) by {
                    if j > 0 {
                        assert(!(s.skip(1)[j - 1].emotion@ == emotion && s.skip(1)[j - 1].hash@ == hash));
                    }
                }
            },
        }
    }
}

pub proof fn lemma_emo_entry_ix_found(s: Seq<EmotionEntry>, emotion: Seq<char>, hash: Seq<char>, i: int)
    requires
        0 <= i < s.len(),
        s[i].emotion@ == emotion && s[i].hash@ == hash,
        forall|j: int| 0 <= j < i ==> !(s[j].emotion@ == emotion && s[j].hash@ == hash),
    ensures
        emo_entry_ix(s, emotion, hash) == Some(i),
{
    lemma_emo_entry_ix_props(s, emotion, hash);
    match emo_entry_ix(s, emotion, hash) {
        Some(k) => {
            if k < i {
                assert(!(s[k].emotion@ == emotion && s[k].hash@ == hash));
            }
            if k > i {
                assert(!(s[i].emotion@ == emotion && s[i].hash@ == hash));
            }
        },
        None => {
            assert(!(s[i].emotion@ == emotion && s[i].hash@ == hash));
        },
    }
}

pub proof fn lemma_emo_entry_ix_none(s: Seq<EmotionEntry>, emotion: Seq<char>, hash: Seq<char>)
    requires
        forall|j: int| 0 <= j < s.len() ==> !(s[j].emotion@ == emotion && s[j].hash@ == hash),
    ensures
        emo_entry_ix(s, emotion, hash) is None,
{
    lemma_emo_entry_ix_props(s, emotion, hash);
    match emo_entry_ix(s, emotion, hash) {
        Some(k) => {
            assert(!(s[k].emotion@ == emotion && s[k].hash@ == hash));
        },
        None => {},
    }
}

pub open spec fn lyrics_ix(s: Seq<LyricsRow>, hash: Seq<char>) -> Option<int>
    decreases s.len(),
{
    if s.len() == 0 {
        None
    } else if s[0].hash@ == hash {
        Some(0)
    } else {
        match lyrics_ix(s.skip(1), hash) {
            Some(i) => Some(i + 1),
            None => None,
        }
    }
}

pub proof fn lemma_lyrics_ix_props(s: Seq<LyricsRow>, hash: Seq<char>)
    ensures
        match lyrics_ix(s, hash) {
            Some(i) => 0 <= i < s.len() && (s[i].hash@ == hash) && (forall|j: int|
                0 <= j < i ==> !(s[j].hash@ == hash)),
            None => forall|j: int| 0 <= j < s.len() ==> !(s[j].hash@ == hash),
        },
    decreases s.len(),
{
    if s.len() > 0 && !(s[0].hash@ == hash) {
        lemma_lyrics_ix_props(s.skip(1), hash);
        assert(forall|j: int| 0 <= j < s.skip(1).len() ==> s.skip(1)[j] == s[j + 1]);
        match lyrics_ix(s.skip(1), hash) {
            Some(i) => {
                assert forall|j: int| 0 <= j < i + 1 implies !(s[j].hash@ == hash) by {
                    if j > 0 {
                        assert(!(s.skip(1)[j - 1].hash@ == hash));
                    }
                }
            },
            None => {
                assert forall|j: int| 0 <= j < s.len() implies !(s[j].hash@ == hash) by {
                    if j > 0 {
                        assert(!(s.skip(1)[j - 1].hash@ == hash));
                    }
                }
            },
        }
    }
}

pub proof fn lemma_lyrics_ix_found(s: Seq<LyricsRow>, hash: Seq<char>, i: int)
    requires
        0 <= i < s.len(),
        s[i].hash@ == hash,
        forall|j: int| 0 <= j < i ==> !(s[j].hash@ == hash),
    ensures
        lyrics_ix(s, hash) == Some(i),
{
    lemma_lyrics_ix_props(s, hash);
    match lyrics_ix(s, hash) {
        Some(k) => {
            if k < i {
                assert(!(s[k].hash@ == hash));
            }
            if k > i {
                assert(!(s[i].hash@ == hash));
            }
        },
        None => {
            assert(!(s[i].hash@ == hash));
        },
    }
}

pub proof fn lemma_lyrics_ix_none(s: Seq<LyricsRow>, hash: Seq<char>)
    requires
        forall|j: int| 0 <= j < s.len() ==> !(s[j].hash@ == hash),
    ensures
        lyrics_ix(s, hash) is None,
{
    lemma_lyrics_ix_props(s, hash);
    match lyrics_ix(s, hash) {
        Some(k) => {
            assert(!(s[k].hash@ == hash));
        },
        None => {},
    }
}

pub open spec fn rules_ix(s: Seq<RulesRow>, hash: Seq<char>) -> Option<int>
    decreases s.len(),
{
    if s.len() == 0 {
        None
    } else if s[0].hash@ == hash {
        Some(0)
    } else {
        match rules_ix(s.skip(1), hash) {
            Some(i) => Some(i + 1),
            None => None,
        }
    }
}

pub proof fn lemma_rules_ix_props(s: Seq<RulesRow>, hash: Seq<char>)
    ensures
        match rules_ix(s, hash) {
            Some(i) => 0 <= i < s.len() && (s[i].hash@ == hash) && (forall|j: int|
                0 <= j < i ==> !(s[j].hash@ == hash)),
            None => forall|j: int| 0 <= j < s.len() ==> !(s[j].hash@ == hash),
        },
    decreases s.len(),
{
    if s.len() > 0 && !(s[0].hash@ == hash) {
        lemma_rules_ix_props(s.skip(1), hash);
        assert(forall|j: int| 0 <= j < s.skip(1).len() ==> s.skip(1)[j] == s[j + 1]);
        match rules_ix(s.skip(1), hash) {
            Some(i) => {
                assert forall|j: int| 0 <= j < i + 1 implies !(s[j].hash@ == hash) by {
                    if j > 0 {
                        assert(!(s.skip(1)[j - 1].hash@ == hash));
                    }
                }
            },
            None => {
                assert forall|j: int| 0 <= j < s.len() implies !(s[j].hash@ == hash) by {
                    if j > 0 {
                        assert(!(s.skip(1)[j - 1].hash@ == hash));
                    }
                }
            },
        }
    }
}

pub proof fn lemma_rules_ix_found(s: Seq<RulesRow>, hash: Seq<char>, i: int)
    requires
        0 <= i < s.len(),
        s[i].hash@ == hash,
        forall|j: int| 0 <= j < i ==> !(s[j].hash@ == hash),
    ensures
        rules_ix(s, hash) == Some(i),
{
    lemma_rules_ix_props(s, hash);
    match rules_ix(s, hash) {
        Some(k) => {
            if k < i {
                assert(!(s[k].hash@ == hash));
            }
            if k > i {
                assert(!(s[i].hash@ == hash));
            }
        },
        None => {
            assert(!(s[i].hash@ == hash));
        },
    }
}

pub proof fn lemma_rules_ix_none(s: Seq<RulesRow>, hash: Seq<char>)
    requires
        forall|j: int| 0 <= j < s.len() ==> !(s[j].hash@ == hash),
    ensures
        rules_ix(s, hash) is None,
{
    lemma_rules_ix_props(s, hash);
    match rules_ix(s, hash) {
        Some(k) => {
            assert(!(s[k].hash@ == hash));
        },
        None => {},
    }
}

// ---------------------------------------------------------------------------
// Well-formedness: what every store state satisfies.
// ---------------------------------------------------------------------------

/// The playlist ordering invariant: positions are pairwise distinct and all
/// below the entry count — so they are exactly `{0, ..., len-1}` — and no
/// track appears twice.
pub open spec fn entries_wf(es: Seq<PlaylistEntry>) -> bool {
    &&& forall|i: int| 0 <= i < es.len() ==> (#[trigger] es[i].position) < es.len()
    &&& forall|i: int, j: int|
        0 <= i < j < es.len() ==> #[trigger] es[i].position != #[trigger] es[j].position
    &&& forall|i: int, j: int| 0 <= i < j < es.len() ==> #[trigger] es[i].hash@ != #[trigger] es[j].hash@
}

/// The authoritative store: the track table, the playlists, the moods and
/// their rank counters, per-track lyrics and rulesets, and the watched
/// directories. One value holds the whole relational state, and every
/// mutating operation is all-or-nothing on it. The operations assume and
/// re-establish `wf`; a caller that reaches into the fields is on its own.
#[derive(Debug)]
pub struct Db {
    pub covers_path: String,
    pub tracks: Vec<Track>,
    pub playlists: Vec<Playlist>,
    pub emotions: Vec<Emotion>,
    pub emotion_tracks: Vec<EmotionEntry>,
    pub lyrics: Vec<LyricsRow>,
    pub rules: Vec<RulesRow>,
    pub dirs: Vec<String>,
}

impl Db {
    /// The store invariant: playlist and mood names are unique, every
    /// playlist's positions are exactly `{0..count-1}` with no duplicate
    /// track, (mood, track) pairs are unique with ranks in `1..=i64::MAX`,
    /// and lyrics and rulesets hold at most one row per track.
    pub open spec fn wf(self) -> bool {
        &&& forall|i: int, j: int|
            0 <= i < j < self.playlists@.len() ==> #[trigger] self.playlists@[i].name@
                != #[trigger] self.playlists@[j].name@
        &&& forall|i: int|
            0 <= i < self.playlists@.len() ==> entries_wf(#[trigger] self.playlists@[i].entries@)
        &&& forall|i: int, j: int|
            0 <= i < j < self.emotions@.len() ==> #[trigger] self.emotions@[i].name@
                != #[trigger] self.emotions@[j].name@
        &&& forall|i: int, j: int|
            0 <= i < j < self.emotion_tracks@.len() ==> !(#[trigger] self.emotion_tracks@[i].emotion@
                == #[trigger] self.emotion_tracks@[j].emotion@
                && self.emotion_tracks@[i].hash@ == self.emotion_tracks@[j].hash@)
        &&& forall|i: int|
            0 <= i < self.emotion_tracks@.len() ==> 1 <= (#[trigger] self.emotion_tracks@[i].rank)
                <= i64::MAX as u64
        &&& forall|i: int, j: int|
            0 <= i < j < self.lyrics@.len() ==> #[trigger] self.lyrics@[i].hash@
                != #[trigger] self.lyrics@[j].hash@
        &&& forall|i: int, j: int|
            0 <= i < j < self.rules@.len() ==> #[trigger] self.rules@[i].hash@
                != #[trigger] self.rules@[j].hash@
    }

    /// All of the store but the track table is unchanged.
    pub open spec fn same_but_tracks(self, other: Db) -> bool {
        &&& other.covers_path == self.covers_path
        &&& other.playlists == self.playlists
        &&& other.emotions == self.emotions
        &&& other.emotion_tracks == self.emotion_tracks
        &&& other.lyrics == self.lyrics
        &&& other.rules == self.rules
        &&& other.dirs == self.dirs
    }

    /// All of the store but the playlists is unchanged.
    pub open spec fn same_but_playlists(self, other: Db) -> bool {
        &&& other.covers_path == self.covers_path
        &&& other.tracks == self.tracks
        &&& other.emotions == self.emotions
        &&& other.emotion_tracks == self.emotion_tracks
        &&& other.lyrics == self.lyrics
        &&& other.rules == self.rules
        &&& other.dirs == self.dirs
    }

    /// All of the store but the mood associations is unchanged.
    pub open spec fn same_but_emotion_tracks(self, other: Db) -> bool {
        &&& other.covers_path == self.covers_path
        &&& other.tracks == self.tracks
        &&& other.playlists == self.playlists
        &&& other.emotions == self.emotions
        &&& other.lyrics == self.lyrics
        &&& other.rules == self.rules
        &&& other.dirs == self.dirs
    }

    /// An empty store, remembering where cover images go.
    pub fn new(covers_path: &str) -> (r: Db)
        ensures
            r.wf(),
            r.covers_path@ == covers_path@,
            r.tracks@.len() == 0,
            r.playlists@.len() == 0,
            r.emotions@.len() == 0,
            r.emotion_tracks@.len() == 0,
            r.lyrics@.len() == 0,
            r.rules@.len() == 0,
            r.dirs@.len() == 0,
    {
        Db {
            covers_path: String::from_str(covers_path),
            tracks: Vec::new(),
            playlists: Vec::new(),
            emotions: Vec::new(),
            emotion_tracks: Vec::new(),
            lyrics: Vec::new(),
            rules: Vec::new(),
            dirs: Vec::new(),
        }
    }

    /// Drops every table, as the full wipe does; the caller removes the
    /// cover-image directory itself.
    pub fn reset(&mut self)
        ensures
            final(self).wf(),
            final(self).covers_path == old(self).covers_path,
            final(self).tracks@.len() == 0,
            final(self).playlists@.len() == 0,
            final(self).emotions@.len() == 0,
            final(self).emotion_tracks@.len() == 0,
            final(self).lyrics@.len() == 0,
            final(self).rules@.len() == 0,
            final(self).dirs@.len() == 0,
    {
        self.tracks = Vec::new();
        self.playlists = Vec::new();
        self.emotions = Vec::new();
        self.emotion_tracks = Vec::new();
        self.lyrics = Vec::new();
        self.rules = Vec::new();
        self.dirs = Vec::new();
    }

    fn find_playlist(&self, name: &str) -> (r: Option<usize>)
        ensures
            match r {
                Some(i) => i < self.playlists@.len() && pl_ix(self.playlists@, name@) == Some(
                    i as int,
                ),
                None => pl_ix(self.playlists@, name@) is None,
            },
    {
        let n = self.playlists.len();
        let mut i: usize = 0;
        while i < n
            invariant
                n == self.playlists@.len(),
                i <= n,
                forall|j: int| 0 <= j < i ==> self.playlists@[j].name@ != name@,
            decreases n - i,
        {
            if str_eq(self.playlists[i].name.as_str(), name) {
                proof {
                    lemma_pl_ix_found(self.playlists@, name@, i as int);
                }
                return Some(i);
            }
            i = i + 1;
        }
        proof {
            lemma_pl_ix_none(self.playlists@, name@);
        }
        None
    }

    /// The playlist names, in listing order.
    pub fn get_playlists(&self) -> (r: Vec<String>)
        ensures
            r@.to_multiset() == self.playlists@.map_values(|p: Playlist| p.name).to_multiset(),
            strings_sorted(r@),
    {
        let n = self.playlists.len();
        let mut names: Vec<String> = Vec::new();
        let mut i: usize = 0;
        while i < n
            invariant
                n == self.playlists@.len(),
                i <= n,
                names@ == self.playlists@.take(i as int).map_values(|p: Playlist| p.name),
            decreases n - i,
        {
            names.push(self.playlists[i].name.clone());
            proof {
                assert(names@ =~= self.playlists@.take(i as int + 1).map_values(
                    |p: Playlist| p.name,
                ));
            }
            i = i + 1;
        }
        proof {
            assert(self.playlists@.take(n as int) =~= self.playlists@);
        }
        sort_strings(names)
    }

    /// Creates an empty playlist; refused when the name is taken.
    pub fn add_playlist(&mut self, name: &str) -> (r: Result<(), DbError>)
        requires
            old(self).wf(),
        ensures
            final(self).wf(),
            match r {
                Ok(()) => {
                    &&& pl_ix(old(self).playlists@, name@) is None
                    &&& final(self).playlists@.len() == old(self).playlists@.len() + 1
                    &&& final(self).playlists@.subrange(0, old(self).playlists@.len() as int)
                        == old(self).playlists@
                    &&& final(self).playlists@.last().name@ == name@
                    &&& final(self).playlists@.last().entries@.len() == 0
                    &&& old(self).same_but_playlists(*final(self))
                },
                Err(e) => {
                    &&& e == DbError::DuplicatePlaylist
                    &&& pl_ix(old(self).playlists@, name@) is Some
                    &&& *final(self) == *old(self)
                },
            },
    {
        if self.find_playlist(name).is_some() {
            return Err(DbError::DuplicatePlaylist);
        }
        let ghost pre = self.playlists@;
        self.playlists.push(Playlist { name: String::from_str(name), entries: Vec::new() });
        proof {
            assert(final(self).playlists@.subrange(0, pre.len() as int) =~= pre);
            assert forall|i: int, j: int|
                0 <= i < j < self.playlists@.len() implies self.playlists@[i].name@
                != self.playlists@[j].name@ by {
                if j == pre.len() {
                    lemma_pl_ix_props(pre, name@);
                }
            }
        }
        Ok(())
    }

    /// Renames a playlist, leaving its ordering untouched. Renaming a
    /// missing playlist changes nothing; renaming onto a taken name is
    /// refused.
    pub fn rename_playlist(&mut self, name: &str, new_name: &str) -> (r: Result<(), DbError>)
        requires
            old(self).wf(),
        ensures
            final(self).wf(),
            match r {
                Ok(()) => match pl_ix(old(self).playlists@, name@) {
                    Some(i) => {
                        &&& final(self).playlists@.len() == old(self).playlists@.len()
                        &&& final(self).playlists@[i].name@ == new_name@
                        &&& final(self).playlists@[i].entries == old(self).playlists@[i].entries
                        &&& forall|j: int|
                            0 <= j < old(self).playlists@.len() && j != i
                                ==> final(self).playlists@[j] == old(self).playlists@[j]
                        &&& old(self).same_but_playlists(*final(self))
                    },
                    None => *final(self) == *old(self),
                },
                Err(e) => {
                    &&& e == DbError::DuplicatePlaylist
                    &&& *final(self) == *old(self)
                    &&& pl_ix(old(self).playlists@, name@) is Some
                    &&& pl_ix(old(self).playlists@, new_name@) is Some
                    &&& name@ != new_name@
                },
            },
    {
        let src = match self.find_playlist(name) {
            Some(i) => i,
            None => {
                return Ok(());
            },
        };
        if str_eq(name, new_name) {
            proof {
                lemma_pl_ix_props(self.playlists@, name@);
            }
            return Ok(());
        }
        if self.find_playlist(new_name).is_some() {
            return Err(DbError::DuplicatePlaylist);
        }
        let ghost pre = self.playlists@;
        proof {
            lemma_pl_ix_props(pre, name@);
            lemma_pl_ix_props(pre, new_name@);
        }
        let mut p = self.playlists.remove(src);
        p.name = String::from_str(new_name);
        self.playlists.insert(src, p);
        proof {
            assert(self.playlists@ =~= pre.update(src as int, self.playlists@[src as int]));
            assert forall|i: int, j: int|
                0 <= i < j < self.playlists@.len() implies self.playlists@[i].name@
                != self.playlists@[j].name@ by {}
            assert forall|i: int|
                0 <= i < self.playlists@.len() implies entries_wf(
                self.playlists@[i].entries@,
            ) by {}
        }
        Ok(())
    }

    fn find_track(&self, hash: &str) -> (r: Option<usize>)
        ensures
            match r {
                Some(i) => i < self.tracks@.len() && track_ix(self.tracks@, hash@) == Some(i as int),
                None => track_ix(self.tracks@, hash@) is None,
            },
    {
        let n = self.tracks.len();
        let mut i: usize = 0;
        while i < n
            invariant
                n == self.tracks@.len(),
                i <= n,
                forall|j: int| 0 <= j < i ==> self.tracks@[j].hash@ != hash@,
            decreases n - i,
        {
            if str_eq(self.tracks[i].hash.as_str(), hash) {
                proof {
                    lemma_track_ix_found(self.tracks@, hash@, i as int);
                }
                return Some(i);
            }
            i = i + 1;
        }
        proof {
            lemma_track_ix_none(self.tracks@, hash@);
        }
        None
    }

    /// The first track with this hash, if the library holds one.
    pub fn get_track(&self, hash: &str) -> (r: Option<Track>)
        ensures
            match track_ix(self.tracks@, hash@) {
                Some(i) => r == Some(self.tracks@[i]),
                None => r is None,
            },
    {
        match self.find_track(hash) {
            Some(i) => Some(self.tracks[i].clone()),
            None => None,
        }
    }

    /// Deletes a playlist and, with it, all of its memberships. Deleting a
    /// missing playlist changes nothing.
    pub fn remove_playlist(&mut self, name: &str) -> (r: Result<(), DbError>)
        requires
            old(self).wf(),
        ensures
            final(self).wf(),
            r is Ok,
            match pl_ix(old(self).playlists@, name@) {
                Some(i) => final(self).playlists@ == old(self).playlists@.remove(i)
                    && old(self).same_but_playlists(*final(self)),
                None => *final(self) == *old(self),
            },
    {
        match self.find_playlist(name) {
            Some(i) => {
                self.playlists.remove(i);
                proof {
                    assert forall|a: int, b: int|
                        0 <= a < b < self.playlists@.len() implies self.playlists@[a].name@
                        != self.playlists@[b].name@ by {}
                    assert forall|a: int|
                        0 <= a < self.playlists@.len() implies entries_wf(
                        self.playlists@[a].entries@,
                    ) by {}
                }
                Ok(())
            },
            None => Ok(()),
        }
    }

    /// The tracks of a playlist in position order, each carrying its
    /// position. A membership whose hash no longer resolves is left out, as
    /// a join leaves it out; an unknown playlist yields an empty list.
    pub fn get_playlist_tracks(&self, name: &str) -> (r: Vec<Track>)
        ensures
            match pl_ix(self.playlists@, name@) {
                Some(pi) => r@ == pl_join_upto(
                    self.playlists@[pi].entries@,
                    self.tracks@,
                    self.playlists@[pi].entries@.len() as int,
                ),
                None => r@.len() == 0,
            },
    {
        let pi = match self.find_playlist(name) {
            Some(pi) => pi,
            None => {
                return Vec::new();
            },
        };
        let entry_count = self.playlists[pi].entries.len();
        let mut out: Vec<Track> = Vec::new();
        let mut k: usize = 0;
        while k < entry_count
            invariant
                pi < self.playlists@.len(),
                entry_count == self.playlists@[pi as int].entries@.len(),
                k <= entry_count,
                out@ == pl_join_upto(
                    self.playlists@[pi as int].entries@,
                    self.tracks@,
                    k as int,
                ),
            decreases entry_count - k,
        {
            if let Some(ei) = find_entry_at_pos(&self.playlists[pi].entries, k as u64) {
                let hash = &self.playlists[pi].entries[ei].hash;
                if let Some(ti) = self.find_track(hash.as_str()) {
                    let mut t = self.tracks[ti].clone();
                    t.position = Some(self.playlists[pi].entries[ei].position);
                    out.push(t);
                }
            }
            k = k + 1;
        }
        out
    }

    /// Appends tracks to a playlist: hashes already present are skipped (a
    /// hash given twice is appended once), the rest are placed at strictly
    /// increasing positions continuing the existing order, in input order.
    /// An empty input changes nothing; an unknown playlist is refused.
    pub fn add_playlist_tracks(&mut self, name: &str, hashes: &Vec<String>) -> (r: Result<
        (),
        DbError,
    >)
        requires
            old(self).wf(),
        ensures
            final(self).wf(),
            match r {
                Ok(()) => {
                    if hashes@.len() == 0 {
                        *final(self) == *old(self)
                    } else {
                        match pl_ix(old(self).playlists@, name@) {
                            Some(pi) => {
                                let pre = old(self).playlists@[pi].entries@;
                                let added = added_hashes(
                                    pre,
                                    hashes@.map_values(|s: String| s@),
                                );
                                let post = final(self).playlists@[pi].entries@;
                                &&& final(self).playlists@.len() == old(self).playlists@.len()
                                &&& final(self).playlists@[pi].name
                                    == old(self).playlists@[pi].name
                                &&& forall|j: int|
                                    0 <= j < old(self).playlists@.len() && j != pi
                                        ==> final(self).playlists@[j] == old(self).playlists@[j]
                                &&& post.len() == pre.len() + added.len()
                                &&& post.subrange(0, pre.len() as int) == pre
                                &&& forall|q: int|
                                    0 <= q < added.len() ==> (#[trigger] post[pre.len() + q].hash@)
                                        == added[q] && post[pre.len() + q].position == pre.len() + q
                                &&& old(self).same_but_playlists(*final(self))
                            },
                            None => false,
                        }
                    }
                },
                Err(e) => {
                    &&& e == DbError::NoSuchPlaylist
                    &&& hashes@.len() > 0
                    &&& pl_ix(old(self).playlists@, name@) is None
                    &&& *final(self) == *old(self)
                },
            },
    {
        if hashes.len() == 0 {
            return Ok(());
        }
        let pi = match self.find_playlist(name) {
            Some(pi) => pi,
            None => {
                return Err(DbError::NoSuchPlaylist);
            },
        };
        let ghost pre_playlists = self.playlists@;
        let mut p = self.playlists.remove(pi);
        let ghost pre = p.entries@;
        let ghost views = hashes@.map_values(|s: String| s@);

        let n = hashes.len();
        let mut i: usize = 0;
        while i < n
            invariant
                n == hashes@.len(),
                views == hashes@.map_values(|s: String| s@),
                entries_wf(pre),
                pi < pre_playlists.len(),
                p.name == pre_playlists[pi as int].name,
                p.entries@.len() == pre.len() + added_hashes(pre, views.take(i as int)).len(),
                i <= n,
                p.entries@.subrange(0, pre.len() as int) == pre,
                forall|q: int|
                    0 <= q < added_hashes(pre, views.take(i as int)).len() ==> (
                    #[trigger] p.entries@[pre.len() + q].hash@) == added_hashes(
                        pre,
                        views.take(i as int),
                    )[q] && p.entries@[pre.len() + q].position == pre.len() + q,
                entries_wf(p.entries@),
            decreases n - i,
        {
            let ghost added_pre = added_hashes(pre, views.take(i as int));
            proof {
                assert(views.take(i as int + 1).drop_last() =~= views.take(i as int));
                assert(views.take(i as int + 1).last() == views[i as int]);
                assert(views[i as int] == hashes@[i as int]@);
            }
            let h = &hashes[i];
            let present = find_entry_by_hash(&p.entries, h.as_str());
            proof {
                let whole = p.entries@;
                match entry_ix(whole, h@) {
                    Some(k) => {
                        lemma_entry_ix_props(whole, h@);
                        if k < pre.len() {
                            lemma_entry_ix_found(pre, h@, k);
                            assert(hash_in_entries(pre, h@));
                        } else {
                            let q = k - pre.len();
                            assert(p.entries@[pre.len() + q].hash@ == added_pre[q]);
                            assert(added_pre[q] == h@);
                            assert(added_pre.contains(h@));
                        }
                    },
                    None => {
                        lemma_entry_ix_props(whole, h@);
                        assert(forall|j: int| 0 <= j < pre.len() ==> pre[j] == whole[j]);
                        lemma_entry_ix_none(pre, h@);
                        assert(!hash_in_entries(pre, h@));
                        assert forall|q: int| 0 <= q < added_pre.len() implies added_pre[q]
                            != h@ by {
                            assert(whole[pre.len() + q].hash@ == added_pre[q]);
                        }
                        assert(!added_pre.contains(h@));
                    },
                }
            }
            if present.is_none() {
                let pos = p.entries.len() as u64;
                p.entries.push(PlaylistEntry { hash: h.clone(), position: pos });
                proof {
                    let added_now = added_hashes(pre, views.take(i as int + 1));
                    assert(added_now =~= added_pre.push(h@));
                    assert(p.entries@.subrange(0, pre.len() as int) =~= pre);
                    assert forall|a: int, b: int|
                        0 <= a < b < p.entries@.len() implies p.entries@[a].position
                        != p.entries@[b].position by {}
                    assert forall|a: int, b: int|
                        0 <= a < b < p.entries@.len() implies p.entries@[a].hash@
                        != p.entries@[b].hash@ by {
                        if b == p.entries@.len() - 1 {
                            if a < pre.len() {
                                assert(!hash_in_entries(pre, h@));
                                lemma_entry_ix_props(pre, h@);
                            } else {
                                let q = a - pre.len();
                                assert(p.entries@[pre.len() + q].hash@ == added_pre[q]);
                                assert(!added_pre.contains(h@));
                            }
                        }
                    }
                    assert forall|a: int|
                        0 <= a < p.entries@.len() implies (#[trigger] p.entries@[a].position)
                        < p.entries@.len() by {}
                }
            } else {
                proof {
                    assert(added_hashes(pre, views.take(i as int + 1)) =~= added_pre);
                }
            }
            i = i + 1;
        }
        proof {
            assert(views.take(n as int) =~= views);
        }
        self.playlists.insert(pi, p);
        proof {
            assert(self.playlists@ =~= pre_playlists.update(pi as int, self.playlists@[pi as int]));
            assert forall|a: int, b: int|
                0 <= a < b < self.playlists@.len() implies self.playlists@[a].name@
                != self.playlists@[b].name@ by {}
            assert forall|a: int|
                0 <= a < self.playlists@.len() implies entries_wf(
                self.playlists@[a].entries@,
            ) by {}
        }
        Ok(())
    }

    /// Removes the given tracks from a playlist — or every membership when
    /// no hash list is given — and renumbers what remains densely, keeping
    /// the surviving relative order. Unknown playlists and empty hash lists
    /// change nothing.
    pub fn remove_playlist_tracks(&mut self, name: &str, hashes: Option<&Vec<String>>) -> (r:
        Result<(), DbError>)
        requires
            old(self).wf(),
        ensures
            final(self).wf(),
            r is Ok,
            match pl_ix(old(self).playlists@, name@) {
                Some(pi) => match hashes {
                    Some(hs) => {
                        if hs@.len() == 0 {
                            *final(self) == *old(self)
                        } else {
                            let pre = old(self).playlists@[pi].entries@;
                            let kept = kept_entries(pre, hs@.map_values(|s: String| s@));
                            let post = final(self).playlists@[pi].entries@;
                            &&& final(self).playlists@.len() == old(self).playlists@.len()
                            &&& final(self).playlists@[pi].name == old(self).playlists@[pi].name
                            &&& forall|j: int|
                                0 <= j < old(self).playlists@.len() && j != pi ==> final(self).playlists@[j] == old(self).playlists@[j]
                            &&& post.len() == kept.len()
                            &&& forall|q: int|
                                0 <= q < kept.len() ==> (#[trigger] post[q].hash@)
                                    == kept[q].hash@ && post[q].position as int == count_less(
                                    kept,
                                    kept[q].position as int,
                                )
                            &&& old(self).same_but_playlists(*final(self))
                        }
                    },
                    None => {
                        &&& final(self).playlists@.len() == old(self).playlists@.len()
                        &&& final(self).playlists@[pi].name == old(self).playlists@[pi].name
                        &&& final(self).playlists@[pi].entries@.len() == 0
                        &&& forall|j: int|
                            0 <= j < old(self).playlists@.len() && j != pi ==> final(self).playlists@[j] == old(self).playlists@[j]
                        &&& old(self).same_but_playlists(*final(self))
                    },
                },
                None => *final(self) == *old(self),
            },
    {
        if let Some(hs) = &hashes {
            if hs.len() == 0 {
                return Ok(());
            }
        }
        let pi = match self.find_playlist(name) {
            Some(pi) => pi,
            None => {
                return Ok(());
            },
        };
        let ghost pre_playlists = self.playlists@;
        let mut p = self.playlists.remove(pi);
        let ghost pre = p.entries@;

        match hashes {
            None => {
                p.entries = Vec::new();
            },
            Some(hs) => {
                let ghost views = hs@.map_values(|s: String| s@);
                // keep the rows whose hash is not named
                let mut kept: Vec<PlaylistEntry> = Vec::new();
                let n = p.entries.len();
                let mut i: usize = 0;
                proof {
                    assert(pre.take(0) =~= Seq::<PlaylistEntry>::empty());
                }
                while i < n
                    invariant
                        n == p.entries@.len(),
                        p.entries@ == pre,
                        views == hs@.map_values(|s: String| s@),
                        i <= n,
                        kept@ == kept_entries(pre.take(i as int), views),
                    decreases n - i,
                {
                    proof {
                        assert(pre.take(i as int + 1).drop_last() =~= pre.take(i as int));
                        assert(pre.take(i as int + 1).last() == pre[i as int]);
                    }
                    if !string_list_contains(hs, p.entries[i].hash.as_str()) {
                        let e = p.entries[i].clone();
                        kept.push(e);
                    }
                    i = i + 1;
                }
                proof {
                    assert(pre.take(n as int) =~= pre);
                }
                // renumber the rows densely in their old position order
                let ghost kept_view = kept@;
                let m = kept.len();
                let mut renumbered: Vec<PlaylistEntry> = Vec::new();
                let mut q: usize = 0;
                while q < m
                    invariant
                        m == kept@.len(),
                        kept@ == kept_view,
                        q <= m,
                        renumbered@.len() == q,
                        forall|a: int|
                            0 <= a < q ==> (#[trigger] renumbered@[a].hash@) == kept_view[a].hash@
                                && renumbered@[a].position as int == count_less(
                                kept_view,
                                kept_view[a].position as int,
                            ),
                    decreases m - q,
                {
                    let c = count_entries_less(&kept, kept[q].position);
                    renumbered.push(
                        PlaylistEntry { hash: kept[q].hash.clone(), position: c as u64 },
                    );
                    q = q + 1;
                }
                proof {
                    lemma_kept_distinct(pre, views);
                    assert(pre.take(n as int) =~= pre);
                    assert(kept_view == kept_entries(pre, views));
                    assert forall|a: int, b: int|
                        0 <= a < b < renumbered@.len() implies renumbered@[a].position
                        != renumbered@[b].position by {
                        assert(renumbered@[a].hash@ == kept_view[a].hash@);
                        assert(renumbered@[b].hash@ == kept_view[b].hash@);
                        assert(kept_entries(pre, views)[a].position != kept_entries(
                            pre,
                            views,
                        )[b].position);
                        lemma_count_less_inj(kept_view, a, b);
                    }
                    assert forall|a: int|
                        0 <= a < renumbered@.len() implies (renumbered@[a].position as int)
                        < renumbered@.len() by {
                        assert(renumbered@[a].hash@ == kept_view[a].hash@);
                        lemma_count_less_bound(kept_view, a);
                    }
                    assert forall|a: int, b: int|
                        0 <= a < b < renumbered@.len() implies renumbered@[a].hash@
                        != renumbered@[b].hash@ by {
                        assert(renumbered@[a].hash@ == kept_view[a].hash@);
                        assert(renumbered@[b].hash@ == kept_view[b].hash@);
                        assert(kept_entries(pre, views)[a].hash@ != kept_entries(
                            pre,
                            views,
                        )[b].hash@);
                    }
                }
                p.entries = renumbered;
            },
        }

        self.playlists.insert(pi, p);
        proof {
            assert(self.playlists@ =~= pre_playlists.update(pi as int, self.playlists@[pi as int]));
            assert forall|a: int, b: int|
                0 <= a < b < self.playlists@.len() implies self.playlists@[a].name@
                != self.playlists@[b].name@ by {}
            assert forall|a: int|
                0 <= a < self.playlists@.len() implies entries_wf(
                self.playlists@[a].entries@,
            ) by {}
        }
        Ok(())
    }

    /// Moves one track of a playlist from position `src` to position `dst`,
    /// shifting what lies between by one; every other membership keeps its
    /// position. Refused unless the named track sits at `src` and `dst` is
    /// within the playlist; a move onto itself changes nothing.
    pub fn reorder_playlist_track(&mut self, name: &str, hash: &str, src: u64, dst: u64) -> (r:
        Result<(), DbError>)
        requires
            old(self).wf(),
        ensures
            final(self).wf(),
            match r {
                Ok(()) => {
                    if src == dst {
                        *final(self) == *old(self)
                    } else {
                        match pl_ix(old(self).playlists@, name@) {
                            Some(pi) => {
                                let pre = old(self).playlists@[pi].entries@;
                                let post = final(self).playlists@[pi].entries@;
                                &&& dst < pre.len()
                                &&& match entry_ix(pre, hash@) {
                                    Some(ei) => pre[ei].position == src,
                                    None => false,
                                }
                                &&& final(self).playlists@.len() == old(self).playlists@.len()
                                &&& final(self).playlists@[pi].name
                                    == old(self).playlists@[pi].name
                                &&& forall|j: int|
                                    0 <= j < old(self).playlists@.len() && j != pi ==> final(self).playlists@[j] == old(self).playlists@[j]
                                &&& post.len() == pre.len()
                                &&& forall|j: int|
                                    0 <= j < pre.len() ==> (#[trigger] post[j].hash@)
                                        == pre[j].hash@ && post[j].position as int == moved_pos(
                                        pre[j].position as int,
                                        src as int,
                                        dst as int,
                                    )
                                &&& old(self).same_but_playlists(*final(self))
                            },
                            None => false,
                        }
                    }
                },
                Err(e) => {
                    &&& *final(self) == *old(self)
                    &&& src != dst
                    &&& match e {
                        DbError::NoSuchPlaylist => pl_ix(old(self).playlists@, name@) is None,
                        DbError::InvalidReorder => match pl_ix(old(self).playlists@, name@) {
                            Some(pi) => {
                                let pre = old(self).playlists@[pi].entries@;
                                dst >= pre.len() || match entry_ix(pre, hash@) {
                                    Some(ei) => pre[ei].position != src,
                                    None => true,
                                }
                            },
                            None => false,
                        },
                        _ => false,
                    }
                },
            },
    {
        if src == dst {
            return Ok(());
        }
        let pi = match self.find_playlist(name) {
            Some(pi) => pi,
            None => {
                return Err(DbError::NoSuchPlaylist);
            },
        };
        let ei = match find_entry_by_hash(&self.playlists[pi].entries, hash) {
            Some(ei) => ei,
            None => {
                return Err(DbError::InvalidReorder);
            },
        };
        if self.playlists[pi].entries[ei].position != src {
            return Err(DbError::InvalidReorder);
        }
        if dst >= self.playlists[pi].entries.len() as u64 {
            return Err(DbError::InvalidReorder);
        }

        let ghost pre_playlists = self.playlists@;
        let mut p = self.playlists.remove(pi);
        let ghost pre = p.entries@;
        proof {
            lemma_entry_ix_props(pre, hash@);
        }
        let n = p.entries.len();
        let mut moved: Vec<PlaylistEntry> = Vec::new();
        let mut j: usize = 0;
        while j < n
            invariant
                n == p.entries@.len(),
                p.entries@ == pre,
                entries_wf(pre),
                ei < n,
                pre[ei as int].position == src,
                pre[ei as int].hash@ == hash@,
                dst < n,
                src != dst,
                j <= n,
                moved@.len() == j,
                forall|a: int|
                    0 <= a < j ==> (#[trigger] moved@[a].hash@) == pre[a].hash@
                        && moved@[a].position as int == moved_pos(
                        pre[a].position as int,
                        src as int,
                        dst as int,
                    ),
            decreases n - j,
        {
            let e = &p.entries[j];
            let new_pos: u64 = if e.position == src {
                dst
            } else if dst < src && dst <= e.position && e.position < src {
                e.position + 1
            } else if src < dst && src < e.position && e.position <= dst {
                e.position - 1
            } else {
                e.position
            };
            moved.push(PlaylistEntry { hash: e.hash.clone(), position: new_pos });
            j = j + 1;
        }
        p.entries = moved;
        proof {
            assert forall|a: int, b: int|
                0 <= a < b < p.entries@.len() implies p.entries@[a].position
                != p.entries@[b].position by {
                assert(p.entries@[a].hash@ == pre[a].hash@);
                assert(p.entries@[b].hash@ == pre[b].hash@);
                assert(pre[a].position != pre[b].position);
            }
            assert forall|a: int|
                0 <= a < p.entries@.len() implies (p.entries@[a].position as int)
                < p.entries@.len() by {
                assert(p.entries@[a].hash@ == pre[a].hash@);
            }
            assert forall|a: int, b: int|
                0 <= a < b < p.entries@.len() implies p.entries@[a].hash@
                != p.entries@[b].hash@ by {
                assert(p.entries@[a].hash@ == pre[a].hash@);
                assert(p.entries@[b].hash@ == pre[b].hash@);
            }
        }
        self.playlists.insert(pi, p);
        proof {
            assert(self.playlists@ =~= pre_playlists.update(pi as int, self.playlists@[pi as int]));
            assert forall|a: int, b: int|
                0 <= a < b < self.playlists@.len() implies self.playlists@[a].name@
                != self.playlists@[b].name@ by {}
            assert forall|a: int|
                0 <= a < self.playlists@.len() implies entries_wf(
                self.playlists@[a].entries@,
            ) by {}
        }
        Ok(())
    }
}

impl Db {
    /// The moods, in creation order.
    pub fn get_emotions(&self) -> (r: Vec<Emotion>)
        ensures
            r@ == self.emotions@,
    {
        let n = self.emotions.len();
        let mut out: Vec<Emotion> = Vec::new();
        let mut i: usize = 0;
        while i < n
            invariant
                n == self.emotions@.len(),
                i <= n,
                out@ == self.emotions@.take(i as int),
            decreases n - i,
        {
            out.push(self.emotions[i].clone());
            proof {
                assert(out@ =~= self.emotions@.take(i as int + 1));
            }
            i = i + 1;
        }
        proof {
            assert(self.emotions@.take(n as int) =~= self.emotions@);
        }
        out
    }

    fn find_emotion(&self, name: &str) -> (r: Option<usize>)
        ensures
            match r {
                Some(i) => i < self.emotions@.len() && emotion_ix(self.emotions@, name@) == Some(
                    i as int,
                ),
                None => emotion_ix(self.emotions@, name@) is None,
            },
    {
        let n = self.emotions.len();
        let mut i: usize = 0;
        while i < n
            invariant
                n == self.emotions@.len(),
                i <= n,
                forall|j: int| 0 <= j < i ==> self.emotions@[j].name@ != name@,
            decreases n - i,
        {
            if str_eq(self.emotions[i].name.as_str(), name) {
                proof {
                    lemma_emotion_ix_found(self.emotions@, name@, i as int);
                }
                return Some(i);
            }
            i = i + 1;
        }
        proof {
            lemma_emotion_ix_none(self.emotions@, name@);
        }
        None
    }

    /// Creates a mood with its display colour and icon; refused when the
    /// name is taken.
    pub fn add_emotion(&mut self, name: &str, color: &str, icon: &str) -> (r: Result<(), DbError>)
        requires
            old(self).wf(),
        ensures
            final(self).wf(),
            match r {
                Ok(()) => {
                    &&& emotion_ix(old(self).emotions@, name@) is None
                    &&& final(self).emotions@.len() == old(self).emotions@.len() + 1
                    &&& final(self).emotions@.subrange(0, old(self).emotions@.len() as int)
                        == old(self).emotions@
                    &&& final(self).emotions@.last().name@ == name@
                    &&& final(self).emotions@.last().color@ == color@
                    &&& final(self).emotions@.last().icon@ == icon@
                    &&& final(self).covers_path == old(self).covers_path
                    &&& final(self).tracks == old(self).tracks
                    &&& final(self).playlists == old(self).playlists
                    &&& final(self).emotion_tracks == old(self).emotion_tracks
                    &&& final(self).lyrics == old(self).lyrics
                    &&& final(self).rules == old(self).rules
                    &&& final(self).dirs == old(self).dirs
                },
                Err(e) => {
                    &&& e == DbError::DuplicateEmotion
                    &&& emotion_ix(old(self).emotions@, name@) is Some
                    &&& *final(self) == *old(self)
                },
            },
    {
        if self.find_emotion(name).is_some() {
            return Err(DbError::DuplicateEmotion);
        }
        let ghost pre = self.emotions@;
        self.emotions.push(
            Emotion {
                name: String::from_str(name),
                color: String::from_str(color),
                icon: String::from_str(icon),
            },
        );
        proof {
            assert(self.emotions@.subrange(0, pre.len() as int) =~= pre);
            assert forall|i: int, j: int|
                0 <= i < j < self.emotions@.len() implies self.emotions@[i].name@
                != self.emotions@[j].name@ by {
                if j == pre.len() {
                    lemma_emotion_ix_props(pre, name@);
                }
            }
        }
        Ok(())
    }

    /// Associates a track with a mood, or strengthens an existing
    /// association: a first rank-up creates the pair at rank 1, every later
    /// one raises the rank by exactly 1. Refused only when the counter
    /// would leave the signed 64-bit range.
    pub fn rank_up_emotion_track(&mut self, name: &str, hash: &str) -> (r: Result<(), DbError>)
        requires
            old(self).wf(),
        ensures
            final(self).wf(),
            match r {
                Ok(()) => is_rank_up(
                    old(self).emotion_tracks@,
                    final(self).emotion_tracks@,
                    name@,
                    hash@,
                ) && old(self).same_but_emotion_tracks(*final(self)),
                Err(e) => {
                    &&& e == DbError::RankOverflow
                    &&& *final(self) == *old(self)
                    &&& match emo_entry_ix(old(self).emotion_tracks@, name@, hash@) {
                        Some(i) => old(self).emotion_tracks@[i].rank == i64::MAX as u64,
                        None => false,
                    }
                },
            },
    {
        let n = self.emotion_tracks.len();
        let mut i: usize = 0;
        while i < n
            invariant
                *self == *old(self),
                self.wf(),
                n == self.emotion_tracks@.len(),
                i <= n,
                forall|j: int|
                    0 <= j < i ==> !((#[trigger] self.emotion_tracks@[j].emotion@) == name@
                        && self.emotion_tracks@[j].hash@ == hash@),
            decreases n - i,
        {
            if str_eq(self.emotion_tracks[i].emotion.as_str(), name) && str_eq(
                self.emotion_tracks[i].hash.as_str(),
                hash,
            ) {
                proof {
                    lemma_emo_entry_ix_found(self.emotion_tracks@, name@, hash@, i as int);
                }
                let old_rank = self.emotion_tracks[i].rank;
                if old_rank >= 0x7fff_ffff_ffff_ffffu64 {
                    return Err(DbError::RankOverflow);
                }
                let ghost pre = self.emotion_tracks@;
                let mut e = self.emotion_tracks.remove(i);
                e.rank = old_rank + 1;
                self.emotion_tracks.insert(i, e);
                proof {
                    assert(self.emotion_tracks@ =~= pre.update(
                        i as int,
                        self.emotion_tracks@[i as int],
                    ));
                    assert forall|a: int, b: int|
                        0 <= a < b < self.emotion_tracks@.len() implies !(
                        (#[trigger] self.emotion_tracks@[a].emotion@)
                            == (#[trigger] self.emotion_tracks@[b].emotion@)
                            && self.emotion_tracks@[a].hash@
                            == self.emotion_tracks@[b].hash@) by {}
                }
                return Ok(());
            }
            i = i + 1;
        }
        proof {
            lemma_emo_entry_ix_none(self.emotion_tracks@, name@, hash@);
        }
        let ghost pre = self.emotion_tracks@;
        self.emotion_tracks.push(
            EmotionEntry { emotion: String::from_str(name), hash: String::from_str(hash), rank: 1 },
        );
        proof {
            assert(self.emotion_tracks@.subrange(0, pre.len() as int) =~= pre);
            lemma_emo_entry_ix_props(pre, name@, hash@);
            assert forall|a: int, b: int|
                0 <= a < b < self.emotion_tracks@.len() implies !(
                (#[trigger] self.emotion_tracks@[a].emotion@)
                    == (#[trigger] self.emotion_tracks@[b].emotion@)
                    && self.emotion_tracks@[a].hash@ == self.emotion_tracks@[b].hash@) by {}
        }
        Ok(())
    }

    /// The tracks associated with a mood, each carrying its rank, ordered
    /// by descending rank. An association whose hash no longer resolves is
    /// left out, as a join leaves it out.
    pub fn get_emotion_tracks(&self, name: &str) -> (r: Vec<Track>)
        requires
            self.wf(),
        ensures
            r@.to_multiset() == emo_join(self.emotion_tracks@, self.tracks@, name@).to_multiset(),
            crate::sorting::tracks_sorted_by_rank_desc(r@),
    {
        let n = self.emotion_tracks.len();
        let mut joined: Vec<Track> = Vec::new();
        let mut i: usize = 0;
        proof {
            assert(self.emotion_tracks@.take(0) =~= Seq::<EmotionEntry>::empty());
        }
        while i < n
            invariant
                self.wf(),
                n == self.emotion_tracks@.len(),
                i <= n,
                joined@ == emo_join(self.emotion_tracks@.take(i as int), self.tracks@, name@),
                crate::sorting::ranks_bounded(joined@),
            decreases n - i,
        {
            proof {
                assert(self.emotion_tracks@.take(i as int + 1).drop_last()
                    =~= self.emotion_tracks@.take(i as int));
                assert(self.emotion_tracks@.take(i as int + 1).last()
                    == self.emotion_tracks@[i as int]);
            }
            let e = &self.emotion_tracks[i];
            if str_eq(e.emotion.as_str(), name) {
                if let Some(ti) = self.find_track(e.hash.as_str()) {
                    let mut t = self.tracks[ti].clone();
                    t.rank = Some(e.rank);
                    joined.push(t);
                }
            }
            i = i + 1;
        }
        proof {
            assert(self.emotion_tracks@.take(n as int) =~= self.emotion_tracks@);
        }
        crate::sorting::sort_tracks_by_rank_desc(joined)
    }
}

/// How one rank-up changes the association table: a missing pair is
/// appended at rank 1; an existing pair keeps its place and gains exactly
/// one.
pub open spec fn is_rank_up(
    pre: Seq<EmotionEntry>,
    post: Seq<EmotionEntry>,
    emo: Seq<char>,
    h: Seq<char>,
) -> bool {
    match emo_entry_ix(pre, emo, h) {
        None => {
            &&& post.len() == pre.len() + 1
            &&& post.subrange(0, pre.len() as int) == pre
            &&& post.last().emotion@ == emo
            &&& post.last().hash@ == h
            &&& post.last().rank == 1
        },
        Some(i) => {
            &&& post.len() == pre.len()
            &&& forall|j: int| 0 <= j < pre.len() && j != i ==> post[j] == pre[j]
            &&& post[i].emotion@ == emo
            &&& post[i].hash@ == h
            &&& post[i].rank == pre[i].rank + 1
        },
    }
}

/// The rank a mood holds for a track, if the pair exists.
pub open spec fn rank_in(es: Seq<EmotionEntry>, emo: Seq<char>, h: Seq<char>) -> Option<int> {
    match emo_entry_ix(es, emo, h) {
        Some(i) => Some(es[i].rank as int),
        None => None,
    }
}

/// One rank-up takes the pair's rank one step up, from absent to 1, from
/// `r` to `r + 1`; nothing else moves.
pub proof fn lemma_rank_up_step(
    pre: Seq<EmotionEntry>,
    post: Seq<EmotionEntry>,
    emo: Seq<char>,
    h: Seq<char>,
)
    requires
        is_rank_up(pre, post, emo, h),
    ensures
        rank_in(post, emo, h) == match rank_in(pre, emo, h) {
            None => Some(1int),
            Some(r) => Some(r + 1),
        },
{
    lemma_emo_entry_ix_props(pre, emo, h);
    match emo_entry_ix(pre, emo, h) {
        None => {
            assert(post.len() == pre.len() + 1);
            assert forall|j: int|
                0 <= j < pre.len() implies !(post[j].emotion@ == emo && post[j].hash@ == h) by {
                assert(post[j] == post.subrange(0, pre.len() as int)[j]);
                assert(post[j] == pre[j]);
            }
            lemma_emo_entry_ix_found(post, emo, h, pre.len() as int);
        },
        Some(i) => {
            assert(0 <= i < pre.len());
            assert(post.len() == pre.len());
            assert forall|j: int|
                0 <= j < i implies !(post[j].emotion@ == emo && post[j].hash@ == h) by {
                assert(post[j] == pre[j]);
            }
            lemma_emo_entry_ix_found(post, emo, h, i);
        },
    }
}

/// LAW: rank-up is monotone and never absorbed — two rank-ups of the same
/// (mood, track) pair raise its rank by exactly two; in particular, from an
/// absent pair they yield rank 2, not rank 1 twice.
pub proof fn lemma_rank_up_twice(
    pre: Seq<EmotionEntry>,
    mid: Seq<EmotionEntry>,
    post: Seq<EmotionEntry>,
    emo: Seq<char>,
    h: Seq<char>,
)
    requires
        is_rank_up(pre, mid, emo, h),
        is_rank_up(mid, post, emo, h),
    ensures
        rank_in(post, emo, h) == match rank_in(pre, emo, h) {
            None => Some(2int),
            Some(r) => Some(r + 2),
        },
{
    lemma_rank_up_step(pre, mid, emo, h);
    lemma_rank_up_step(mid, post, emo, h);
}

/// The mood listing's join: for each association with this mood, the track
/// it references, carrying the association's rank.
pub open spec fn emo_join(es: Seq<EmotionEntry>, ts: Seq<Track>, emo: Seq<char>) -> Seq<Track>
    decreases es.len(),
{
    if es.len() == 0 {
        Seq::empty()
    } else {
        let rest = emo_join(es.drop_last(), ts, emo);
        let e = es.last();
        if e.emotion@ == emo {
            match track_ix(ts, e.hash@) {
                Some(ti) => rest.push(Track { rank: Some(e.rank), ..ts[ti] }),
                None => rest,
            }
        } else {
            rest
        }
    }
}

/// Where a playlist's positions sit, as a set of integers.
pub open spec fn positions_of(es: Seq<PlaylistEntry>) -> Set<int> {
    es.map_values(|e: PlaylistEntry| e.position as int).to_set()
}

/// LAW: after any sequence of store operations — each assumes and
/// re-establishes well-formedness — every playlist's positions are exactly
/// the set `{0, 1, ..., count-1}`.
pub proof fn lemma_store_positions_exact(db: Db, pi: int)
    requires
        db.wf(),
        0 <= pi < db.playlists@.len(),
    ensures
        positions_of(db.playlists@[pi].entries@) =~= vstd::set_lib::set_int_range(
            0,
            db.playlists@[pi].entries@.len() as int,
        ),
{
    lemma_positions_exact(db.playlists@[pi].entries@);
}

/// The positions of one well-formed entry table are exactly
/// `{0, 1, ..., count-1}`.
pub proof fn lemma_positions_exact(es: Seq<PlaylistEntry>)
    requires
        entries_wf(es),
    ensures
        positions_of(es) =~= vstd::set_lib::set_int_range(0, es.len() as int),
{
    broadcast use vstd::seq_lib::group_to_multiset_ensures;

    let n = es.len() as int;
    let positions = es.map_values(|e: PlaylistEntry| e.position as int);
    assert(positions.no_duplicates()) by {
        assert forall|i: int, j: int|
            0 <= i < positions.len() && 0 <= j < positions.len() && i != j implies positions[i]
            != positions[j] by {
            if i < j {
                assert(es[i].position != es[j].position);
            } else {
                assert(es[j].position != es[i].position);
            }
        }
    }
    positions.unique_seq_to_set();
    let ps = positions.to_set();
    let range = vstd::set_lib::set_int_range(0, n);
    vstd::set_lib::lemma_int_range(0, n);
    assert forall|x: int| ps.contains(x) implies range.contains(x) by {
        let i = choose|i: int| 0 <= i < positions.len() && positions[i] == x;
        assert(es[i].position < es.len());
    }
    assert forall|pv: int| 0 <= pv < n implies ps.contains(pv) by {
        if !ps.contains(pv) {
            assert(ps.subset_of(range.remove(pv)));
            vstd::set_lib::lemma_len_subset(ps, range.remove(pv));
            assert(range.remove(pv).len() == n - 1);
            assert(ps.len() == n);
            assert(false);
        }
    }
}

fn count_entries_less(es: &Vec<PlaylistEntry>, p: u64) -> (r: usize)
    ensures
        r as int == count_less(es@, p as int),
        r <= es@.len(),
{
    let n = es.len();
    let mut c: usize = 0;
    let mut i: usize = 0;
    proof {
        assert(es@.take(0) =~= Seq::<PlaylistEntry>::empty());
    }
    while i < n
        invariant
            n == es@.len(),
            i <= n,
            c <= i,
            c as int == count_less(es@.take(i as int), p as int),
        decreases n - i,
    {
        proof {
            assert(es@.take(i as int + 1).drop_last() =~= es@.take(i as int));
            assert(es@.take(i as int + 1).last() == es@[i as int]);
        }
        if es[i].position < p {
            c = c + 1;
        }
        i = i + 1;
    }
    proof {
        assert(es@.take(n as int) =~= es@);
    }
    c
}

fn string_list_contains(hs: &Vec<String>, h: &str) -> (r: bool)
    ensures
        r == hs@.map_values(|s: String| s@).contains(h@),
{
    let n = hs.len();
    let mut i: usize = 0;
    while i < n
        invariant
            n == hs@.len(),
            i <= n,
            forall|j: int| 0 <= j < i ==> hs@[j]@ != h@,
        decreases n - i,
    {
        if str_eq(hs[i].as_str(), h) {
            proof {
                assert(hs@.map_values(|s: String| s@)[i as int] == h@);
            }
            return true;
        }
        i = i + 1;
    }
    proof {
        let views = hs@.map_values(|s: String| s@);
        assert forall|j: int| 0 <= j < views.len() implies views[j] != h@ by {
            assert(views[j] == hs@[j]@);
        }
    }
    false
}

/// The memberships that survive removing the hashes in `hs`, in their
/// original order with their original positions.
pub open spec fn kept_entries(es: Seq<PlaylistEntry>, hs: Seq<Seq<char>>) -> Seq<PlaylistEntry>
    decreases es.len(),
{
    if es.len() == 0 {
        Seq::empty()
    } else {
        let rest = kept_entries(es.drop_last(), hs);
        if hs.contains(es.last().hash@) {
            rest
        } else {
            rest.push(es.last())
        }
    }
}

/// How many memberships sit at a position strictly below `p`: the dense
/// position a renumbering assigns to the membership at `p`.
pub open spec fn count_less(es: Seq<PlaylistEntry>, p: int) -> int
    decreases es.len(),
{
    if es.len() == 0 {
        0
    } else {
        count_less(es.drop_last(), p) + if es.last().position < p {
            1int
        } else {
            0int
        }
    }
}

pub open spec fn count_at(es: Seq<PlaylistEntry>, p: int) -> int
    decreases es.len(),
{
    if es.len() == 0 {
        0
    } else {
        count_at(es.drop_last(), p) + if es.last().position == p {
            1int
        } else {
            0int
        }
    }
}

proof fn lemma_counts_nonneg(es: Seq<PlaylistEntry>, p: int)
    ensures
        count_less(es, p) >= 0,
        count_at(es, p) >= 0,
    decreases es.len(),
{
    if es.len() > 0 {
        lemma_counts_nonneg(es.drop_last(), p);
    }
}

proof fn lemma_counts_bounded(es: Seq<PlaylistEntry>, p: int)
    ensures
        count_less(es, p) + count_at(es, p) <= es.len(),
    decreases es.len(),
{
    if es.len() > 0 {
        lemma_counts_bounded(es.drop_last(), p);
    }
}

proof fn lemma_count_at_present(es: Seq<PlaylistEntry>, q: int)
    requires
        0 <= q < es.len(),
    ensures
        count_at(es, es[q].position as int) >= 1,
    decreases es.len(),
{
    if q == es.len() - 1 {
        lemma_counts_nonneg(es.drop_last(), es[q].position as int);
    } else {
        lemma_count_at_present(es.drop_last(), q);
        assert(es.drop_last()[q] == es[q]);
    }
}

proof fn lemma_count_less_mono(es: Seq<PlaylistEntry>, p1: int, p2: int)
    requires
        p1 < p2,
    ensures
        count_less(es, p2) >= count_less(es, p1) + count_at(es, p1),
    decreases es.len(),
{
    if es.len() > 0 {
        lemma_count_less_mono(es.drop_last(), p1, p2);
    }
}

/// Distinct positions get distinct dense positions.
proof fn lemma_count_less_inj(ks: Seq<PlaylistEntry>, q1: int, q2: int)
    requires
        0 <= q1 < ks.len(),
        0 <= q2 < ks.len(),
        ks[q1].position != ks[q2].position,
    ensures
        count_less(ks, ks[q1].position as int) != count_less(ks, ks[q2].position as int),
{
    if ks[q1].position < ks[q2].position {
        lemma_count_less_mono(ks, ks[q1].position as int, ks[q2].position as int);
        lemma_count_at_present(ks, q1);
    } else {
        lemma_count_less_mono(ks, ks[q2].position as int, ks[q1].position as int);
        lemma_count_at_present(ks, q2);
    }
}

proof fn lemma_count_less_bound(ks: Seq<PlaylistEntry>, q: int)
    requires
        0 <= q < ks.len(),
    ensures
        0 <= count_less(ks, ks[q].position as int) < ks.len(),
{
    lemma_counts_nonneg(ks, ks[q].position as int);
    lemma_counts_bounded(ks, ks[q].position as int);
    lemma_count_at_present(ks, q);
}

/// What survives a removal is some of the original rows: each kept row is an
/// original row, and distinctness of positions and hashes carries over.
proof fn lemma_kept_distinct(es: Seq<PlaylistEntry>, hs: Seq<Seq<char>>)
    requires
        forall|i: int, j: int|
            0 <= i < j < es.len() ==> #[trigger] es[i].position != #[trigger] es[j].position,
        forall|i: int, j: int|
            0 <= i < j < es.len() ==> #[trigger] es[i].hash@ != #[trigger] es[j].hash@,
    ensures
        kept_entries(es, hs).len() <= es.len(),
        forall|q: int|
            0 <= q < kept_entries(es, hs).len() ==> es.contains(#[trigger] kept_entries(es, hs)[q]),
        forall|a: int, b: int|
            0 <= a < b < kept_entries(es, hs).len() ==> #[trigger] kept_entries(
                es,
                hs,
            )[a].position != #[trigger] kept_entries(es, hs)[b].position,
        forall|a: int, b: int|
            0 <= a < b < kept_entries(es, hs).len() ==> #[trigger] kept_entries(es, hs)[a].hash@
                != #[trigger] kept_entries(es, hs)[b].hash@,
    decreases es.len(),
{
    if es.len() > 0 {
        let prior = es.drop_last();
        lemma_kept_distinct(prior, hs);
        let rest = kept_entries(prior, hs);
        assert forall|q: int| 0 <= q < rest.len() implies es.contains(rest[q]) by {
            assert(prior.contains(rest[q]));
            let j = choose|j: int| 0 <= j < prior.len() && prior[j] == rest[q];
            assert(es[j] == rest[q]);
        }
        let kept = kept_entries(es, hs);
        if !hs.contains(es.last().hash@) {
            assert forall|a: int, b: int|
                0 <= a < b < kept.len() implies kept[a].position != kept[b].position
                && kept[a].hash@ != kept[b].hash@ by {
                if b == kept.len() - 1 {
                    assert(kept[b] == es.last());
                    assert(prior.contains(rest[a]));
                    let j = choose|j: int| 0 <= j < prior.len() && prior[j] == rest[a];
                    assert(es[j] == kept[a]);
                    assert(es[j].position != es[es.len() - 1].position);
                    assert(es[j].hash@ != es[es.len() - 1].hash@);
                }
            }
        }
    }
}

/// How one reorder from `src` to `dst` moves the position `p`.
pub open spec fn moved_pos(p: int, src: int, dst: int) -> int {
    if p == src {
        dst
    } else if dst < src && dst <= p < src {
        p + 1
    } else if src < dst && src < p <= dst {
        p - 1
    } else {
        p
    }
}

/// Whether some membership in `es` references hash `h`.
pub open spec fn hash_in_entries(es: Seq<PlaylistEntry>, h: Seq<char>) -> bool {
    entry_ix(es, h) is Some
}

/// The hash list that an append with input `hs` really adds to entries
/// `es`: input order, minus hashes already present, minus repeats.
pub open spec fn added_hashes(es: Seq<PlaylistEntry>, hs: Seq<Seq<char>>) -> Seq<Seq<char>>
    decreases hs.len(),
{
    if hs.len() == 0 {
        Seq::empty()
    } else {
        let rest = added_hashes(es, hs.drop_last());
        if hash_in_entries(es, hs.last()) || rest.contains(hs.last()) {
            rest
        } else {
            rest.push(hs.last())
        }
    }
}

/// How one join row is formed: the track with the entry's hash, carrying
/// the entry's position.
pub open spec fn pl_join_upto(es: Seq<PlaylistEntry>, ts: Seq<Track>, k: int) -> Seq<Track>
    decreases k,
{
    if k <= 0 {
        Seq::empty()
    } else {
        let rest = pl_join_upto(es, ts, k - 1);
        match entry_at_pos(es, k - 1) {
            Some(i) => match track_ix(ts, es[i].hash@) {
                Some(ti) => rest.push(Track { position: Some(es[i].position), ..ts[ti] }),
                None => rest,
            },
            None => rest,
        }
    }
}

fn find_entry_at_pos(es: &Vec<PlaylistEntry>, pos: u64) -> (r: Option<usize>)
    ensures
        match r {
            Some(i) => i < es@.len() && entry_at_pos(es@, pos as int) == Some(i as int),
            None => entry_at_pos(es@, pos as int) is None,
        },
{
    let n = es.len();
    let mut i: usize = 0;
    while i < n
        invariant
            n == es@.len(),
            i <= n,
            forall|j: int| 0 <= j < i ==> es@[j].position != pos,
        decreases n - i,
    {
        if es[i].position == pos {
            proof {
                lemma_entry_at_pos_found(es@, pos as int, i as int);
            }
            return Some(i);
        }
        i = i + 1;
    }
    proof {
        lemma_entry_at_pos_none(es@, pos as int);
    }
    None
}

fn find_entry_by_hash(es: &Vec<PlaylistEntry>, hash: &str) -> (r: Option<usize>)
    ensures
        match r {
            Some(i) => i < es@.len() && entry_ix(es@, hash@) == Some(i as int),
            None => entry_ix(es@, hash@) is None,
        },
{
    let n = es.len();
    let mut i: usize = 0;
    while i < n
        invariant
            n == es@.len(),
            i <= n,
            forall|j: int| 0 <= j < i ==> es@[j].hash@ != hash@,
        decreases n - i,
    {
        if str_eq(es[i].hash.as_str(), hash) {
            proof {
                lemma_entry_ix_found(es@, hash@, i as int);
            }
            return Some(i);
        }
        i = i + 1;
    }
    proof {
        lemma_entry_ix_none(es@, hash@);
    }
    None
}


impl Db {
    /// Replaces the watched-directory list wholesale.
    pub fn set_dirs(&mut self, paths: &Vec<String>)
        requires
            old(self).wf(),
        ensures
            final(self).wf(),
            final(self).dirs@ == paths@,
            final(self).covers_path == old(self).covers_path,
            final(self).tracks == old(self).tracks,
            final(self).playlists == old(self).playlists,
            final(self).emotions == old(self).emotions,
            final(self).emotion_tracks == old(self).emotion_tracks,
            final(self).lyrics == old(self).lyrics,
            final(self).rules == old(self).rules,
    {
        let n = paths.len();
        let mut out: Vec<String> = Vec::new();
        let mut i: usize = 0;
        while i < n
            invariant
                n == paths@.len(),
                i <= n,
                out@ == paths@.take(i as int),
            decreases n - i,
        {
            out.push(paths[i].clone());
            proof {
                assert(out@ =~= paths@.take(i as int + 1));
            }
            i = i + 1;
        }
        proof {
            assert(paths@.take(n as int) =~= paths@);
        }
        self.dirs = out;
    }

    /// The watched directories, in listing order.
    pub fn get_dirs(&self) -> (r: Vec<String>)
        ensures
            r@.to_multiset() == self.dirs@.to_multiset(),
            strings_sorted(r@),
    {
        let n = self.dirs.len();
        let mut out: Vec<String> = Vec::new();
        let mut i: usize = 0;
        while i < n
            invariant
                n == self.dirs@.len(),
                i <= n,
                out@ == self.dirs@.take(i as int),
            decreases n - i,
        {
            out.push(self.dirs[i].clone());
            proof {
                assert(out@ =~= self.dirs@.take(i as int + 1));
            }
            i = i + 1;
        }
        proof {
            assert(self.dirs@.take(n as int) =~= self.dirs@);
        }
        sort_strings(out)
    }

    fn find_lyrics(&self, hash: &str) -> (r: Option<usize>)
        ensures
            match r {
                Some(i) => i < self.lyrics@.len() && lyrics_ix(self.lyrics@, hash@) == Some(
                    i as int,
                ),
                None => lyrics_ix(self.lyrics@, hash@) is None,
            },
    {
        let n = self.lyrics.len();
        let mut i: usize = 0;
        while i < n
            invariant
                n == self.lyrics@.len(),
                i <= n,
                forall|j: int| 0 <= j < i ==> self.lyrics@[j].hash@ != hash@,
            decreases n - i,
        {
            if str_eq(self.lyrics[i].hash.as_str(), hash) {
                proof {
                    lemma_lyrics_ix_found(self.lyrics@, hash@, i as int);
                }
                return Some(i);
            }
            i = i + 1;
        }
        proof {
            lemma_lyrics_ix_none(self.lyrics@, hash@);
        }
        None
    }

    /// The lyrics attached to a track, if any.
    pub fn get_lyrics(&self, hash: &str) -> (r: Option<Lyrics>)
        ensures
            match lyrics_ix(self.lyrics@, hash@) {
                Some(i) => r == Some(self.lyrics@[i].lyrics),
                None => r is None,
            },
    {
        match self.find_lyrics(hash) {
            Some(i) => Some(self.lyrics[i].lyrics.clone()),
            None => None,
        }
    }

    /// Replaces a track's lyrics: the old row, if any, goes; a new row
    /// comes when lyrics are given.
    pub fn set_lyrics(&mut self, hash: &str, lyrics: Option<&Lyrics>)
        requires
            old(self).wf(),
        ensures
            final(self).wf(),
            ({
                let cleared = match lyrics_ix(old(self).lyrics@, hash@) {
                    Some(i) => old(self).lyrics@.remove(i),
                    None => old(self).lyrics@,
                };
                match lyrics {
                    Some(l) => {
                        &&& final(self).lyrics@.len() == cleared.len() + 1
                        &&& final(self).lyrics@.subrange(0, cleared.len() as int) == cleared
                        &&& final(self).lyrics@.last().hash@ == hash@
                        &&& final(self).lyrics@.last().lyrics == *l
                    },
                    None => final(self).lyrics@ == cleared,
                }
            }),
            final(self).covers_path == old(self).covers_path,
            final(self).tracks == old(self).tracks,
            final(self).playlists == old(self).playlists,
            final(self).emotions == old(self).emotions,
            final(self).emotion_tracks == old(self).emotion_tracks,
            final(self).rules == old(self).rules,
            final(self).dirs == old(self).dirs,
    {
        let ghost pre = self.lyrics@;
        if let Some(i) = self.find_lyrics(hash) {
            proof {
                lemma_lyrics_ix_props(pre, hash@);
            }
            self.lyrics.remove(i);
            proof {
                assert forall|a: int, b: int|
                    0 <= a < b < self.lyrics@.len() implies self.lyrics@[a].hash@
                    != self.lyrics@[b].hash@ by {}
                assert forall|a: int|
                    0 <= a < self.lyrics@.len() implies self.lyrics@[a].hash@ != hash@ by {
                    if a < i {
                        assert(self.lyrics@[a] == pre[a]);
                    } else {
                        assert(self.lyrics@[a] == pre[a + 1]);
                    }
                }
            }
        } else {
            proof {
                lemma_lyrics_ix_props(pre, hash@);
            }
        }
        if let Some(l) = lyrics {
            let ghost cleared = self.lyrics@;
            self.lyrics.push(LyricsRow { hash: String::from_str(hash), lyrics: l.clone() });
            proof {
                assert(self.lyrics@.subrange(0, cleared.len() as int) =~= cleared);
                assert forall|a: int, b: int|
                    0 <= a < b < self.lyrics@.len() implies self.lyrics@[a].hash@
                    != self.lyrics@[b].hash@ by {}
            }
        }
    }

    fn find_rules(&self, hash: &str) -> (r: Option<usize>)
        ensures
            match r {
                Some(i) => i < self.rules@.len() && rules_ix(self.rules@, hash@) == Some(i as int),
                None => rules_ix(self.rules@, hash@) is None,
            },
    {
        let n = self.rules.len();
        let mut i: usize = 0;
        while i < n
            invariant
                n == self.rules@.len(),
                i <= n,
                forall|j: int| 0 <= j < i ==> self.rules@[j].hash@ != hash@,
            decreases n - i,
        {
            if str_eq(self.rules[i].hash.as_str(), hash) {
                proof {
                    lemma_rules_ix_found(self.rules@, hash@, i as int);
                }
                return Some(i);
            }
            i = i + 1;
        }
        proof {
            lemma_rules_ix_none(self.rules@, hash@);
        }
        None
    }

    /// The ruleset attached to a track, if any.
    pub fn get_rules(&self, hash: &str) -> (r: Option<String>)
        ensures
            match rules_ix(self.rules@, hash@) {
                Some(i) => r == Some(self.rules@[i].rules),
                None => r is None,
            },
    {
        match self.find_rules(hash) {
            Some(i) => Some(self.rules[i].rules.clone()),
            None => None,
        }
    }

    /// Replaces a track's ruleset: the old row, if any, goes; a new row
    /// comes when a ruleset is given.
    pub fn set_rules(&mut self, hash: &str, rules: Option<&str>)
        requires
            old(self).wf(),
        ensures
            final(self).wf(),
            ({
                let cleared = match rules_ix(old(self).rules@, hash@) {
                    Some(i) => old(self).rules@.remove(i),
                    None => old(self).rules@,
                };
                match rules {
                    Some(rl) => {
                        &&& final(self).rules@.len() == cleared.len() + 1
                        &&& final(self).rules@.subrange(0, cleared.len() as int) == cleared
                        &&& final(self).rules@.last().hash@ == hash@
                        &&& final(self).rules@.last().rules@ == rl@
                    },
                    None => final(self).rules@ == cleared,
                }
            }),
            final(self).covers_path == old(self).covers_path,
            final(self).tracks == old(self).tracks,
            final(self).playlists == old(self).playlists,
            final(self).emotions == old(self).emotions,
            final(self).emotion_tracks == old(self).emotion_tracks,
            final(self).lyrics == old(self).lyrics,
            final(self).dirs == old(self).dirs,
    {
        let ghost pre = self.rules@;
        if let Some(i) = self.find_rules(hash) {
            proof {
                lemma_rules_ix_props(pre, hash@);
            }
            self.rules.remove(i);
            proof {
                assert forall|a: int, b: int|
                    0 <= a < b < self.rules@.len() implies self.rules@[a].hash@
                    != self.rules@[b].hash@ by {}
                assert forall|a: int|
                    0 <= a < self.rules@.len() implies self.rules@[a].hash@ != hash@ by {
                    if a < i {
                        assert(self.rules@[a] == pre[a]);
                    } else {
                        assert(self.rules@[a] == pre[a + 1]);
                    }
                }
            }
        } else {
            proof {
                lemma_rules_ix_props(pre, hash@);
            }
        }
        if let Some(rl) = rules {
            let ghost cleared = self.rules@;
            self.rules.push(RulesRow { hash: String::from_str(hash), rules: String::from_str(rl) });
            proof {
                assert(self.rules@.subrange(0, cleared.len() as int) =~= cleared);
                assert forall|a: int, b: int|
                    0 <= a < b < self.rules@.len() implies self.rules@[a].hash@
                    != self.rules@[b].hash@ by {}
            }
        }
    }

    /// Commits one scan: the whole track table is replaced by the batch —
    /// nothing else moves — and the scan report is rendered: the failure
    /// lines, then how many files were seen and how many failed.
    pub fn scan_dirs(&mut self, outcomes: &Vec<FileOutcome>) -> (r: String)
        requires
            old(self).wf(),
        ensures
            final(self).wf(),
            final(self).tracks@ == scan_tracks(outcomes@),
            old(self).same_but_tracks(*final(self)),
            r@ == scan_summary(scan_errors(outcomes@), outcomes@.len()),
    {
        let total = outcomes.len() as u64;
        let scanned = crate::tracks::scan(outcomes);
        let tracks = scanned.0;
        let errors = scanned.1;
        self.tracks = tracks;
        let mut r = crate::strings::join_with_newlines(&errors);
        r.append("\n\nScanned ");
        let total_dec = u64_to_dec(total);
        r.append(total_dec.as_str());
        r.append(" tracks with ");
        let err_dec = u64_to_dec(errors.len() as u64);
        r.append(err_dec.as_str());
        r.append(" errors.");
        proof {
            assert(errors@.map_values(|s: String| s@).len() == errors@.len());
            assert(r@ =~= scan_summary(scan_errors(outcomes@), outcomes@.len()));
        }
        r
    }
}

/// The scan report: the failure lines, a blank line, then the counts.
pub open spec fn scan_summary(errors: Seq<Seq<char>>, total: nat) -> Seq<char> {
    join_lines(errors) + "\n\nScanned "@ + dec_str(total) + " tracks with "@ + dec_str(
        errors.len(),
    ) + " errors."@
}

// ---------------------------------------------------------------------------
// What survives a rescan: the references.
// ---------------------------------------------------------------------------

/// The (hash, position) pairs a playlist join yields, for positions below
/// `k`: the part of the join that does not depend on the track rows beyond
/// whether each hash resolves.
pub open spec fn joined_refs(es: Seq<PlaylistEntry>, ts: Seq<Track>, k: int) -> Seq<
    (Seq<char>, u64),
>
    decreases k,
{
    if k <= 0 {
        Seq::empty()
    } else {
        let rest = joined_refs(es, ts, k - 1);
        match entry_at_pos(es, k - 1) {
            Some(i) => if track_ix(ts, es[i].hash@) is Some {
                rest.push((es[i].hash@, es[i].position))
            } else {
                rest
            },
            None => rest,
        }
    }
}

/// The (hash, rank) pairs a mood join yields.
pub open spec fn emo_joined_refs(es: Seq<EmotionEntry>, ts: Seq<Track>, emo: Seq<char>) -> Seq<
    (Seq<char>, u64),
>
    decreases es.len(),
{
    if es.len() == 0 {
        Seq::empty()
    } else {
        let rest = emo_joined_refs(es.drop_last(), ts, emo);
        let e = es.last();
        if e.emotion@ == emo && track_ix(ts, e.hash@) is Some {
            rest.push((e.hash@, e.rank))
        } else {
            rest
        }
    }
}

proof fn lemma_joined_refs_same(es: Seq<PlaylistEntry>, ts1: Seq<Track>, ts2: Seq<Track>, k: int)
    requires
        forall|h: Seq<char>| track_ix(ts1, h) is Some <==> track_ix(ts2, h) is Some,
    ensures
        joined_refs(es, ts1, k) == joined_refs(es, ts2, k),
    decreases k,
{
    if k > 0 {
        lemma_joined_refs_same(es, ts1, ts2, k - 1);
    }
}

proof fn lemma_emo_joined_refs_same(
    es: Seq<EmotionEntry>,
    ts1: Seq<Track>,
    ts2: Seq<Track>,
    emo: Seq<char>,
)
    requires
        forall|h: Seq<char>| track_ix(ts1, h) is Some <==> track_ix(ts2, h) is Some,
    ensures
        emo_joined_refs(es, ts1, emo) == emo_joined_refs(es, ts2, emo),
    decreases es.len(),
{
    if es.len() > 0 {
        lemma_emo_joined_refs_same(es.drop_last(), ts1, ts2, emo);
    }
}

/// LAW: a rescan replaces every track row but touches no association, so as
/// long as the new table resolves the same hashes — which it does when the
/// file-name set is unchanged, the hash being derived from the name alone —
/// every playlist joins to the same (hash, position) pairs and every mood
/// to the same (hash, rank) pairs as before.
pub proof fn lemma_rescan_preserves_associations(
    pre: Db,
    post: Db,
    name: Seq<char>,
    emo: Seq<char>,
)
    ensures
        (pre.playlists == post.playlists && pre.emotion_tracks == post.emotion_tracks && (forall|
            h: Seq<char>,
        |
            track_ix(pre.tracks@, h) is Some <==> track_ix(post.tracks@, h) is Some)) ==> {
            &&& match pl_ix(pre.playlists@, name) {
                Some(pi) => joined_refs(
                    pre.playlists@[pi].entries@,
                    pre.tracks@,
                    pre.playlists@[pi].entries@.len() as int,
                ) == joined_refs(
                    post.playlists@[pi].entries@,
                    post.tracks@,
                    post.playlists@[pi].entries@.len() as int,
                ),
                None => true,
            }
            &&& emo_joined_refs(pre.emotion_tracks@, pre.tracks@, emo) == emo_joined_refs(
                post.emotion_tracks@,
                post.tracks@,
                emo,
            )
        },
{
    if pre.playlists == post.playlists && pre.emotion_tracks == post.emotion_tracks && (forall|
        h: Seq<char>,
    |
        track_ix(pre.tracks@, h) is Some <==> track_ix(post.tracks@, h) is Some) {
        match pl_ix(pre.playlists@, name) {
            Some(pi) => {
                lemma_pl_ix_props(pre.playlists@, name);
                lemma_joined_refs_same(
                    pre.playlists@[pi].entries@,
                    pre.tracks@,
                    post.tracks@,
                    pre.playlists@[pi].entries@.len() as int,
                );
            },
            None => {},
        }
        lemma_emo_joined_refs_same(pre.emotion_tracks@, pre.tracks@, post.tracks@, emo);
    }
}


// ---------------------------------------------------------------------------
// The listing queries over the track table.
// ---------------------------------------------------------------------------

/// Whether a track passes the listing filters; absent fields impose no
/// constraint, present fields must match exactly.
pub open spec fn track_matches(t: Track, album: Option<Seq<char>>, artist: Option<Seq<char>>) -> bool {
    &&& match album {
        Some(a) => view_opt(t.album) == Some(a),
        None => true,
    }
    &&& match artist {
        Some(a) => view_opt(t.artist) == Some(a),
        None => true,
    }
}

/// The rows of the track table that pass the filters, in table order.
pub open spec fn filtered_tracks(
    ts: Seq<Track>,
    album: Option<Seq<char>>,
    artist: Option<Seq<char>>,
) -> Seq<Track>
    decreases ts.len(),
{
    if ts.len() == 0 {
        Seq::empty()
    } else {
        let rest = filtered_tracks(ts.drop_last(), album, artist);
        if track_matches(ts.last(), album, artist) {
            rest.push(ts.last())
        } else {
            rest
        }
    }
}

/// Whether some track of the table names this artist.
pub open spec fn artist_present(ts: Seq<Track>, a: Seq<char>) -> bool {
    exists|t: int| 0 <= t < ts.len() && view_opt(ts[t].artist) == Some(a)
}

/// Whether some track of the table names this album.
pub open spec fn album_present(ts: Seq<Track>, a: Seq<char>) -> bool {
    exists|t: int| 0 <= t < ts.len() && view_opt(ts[t].album) == Some(a)
}

/// The smallest cover path among the album's tracks that have one, in the
/// listing order of texts; nothing when no track of the album has a cover.
pub open spec fn min_cover(ts: Seq<Track>, alb: Seq<char>) -> Option<Seq<char>>
    decreases ts.len(),
{
    if ts.len() == 0 {
        None
    } else {
        let rest = min_cover(ts.drop_last(), alb);
        let t = ts.last();
        if view_opt(t.album) == Some(alb) {
            match t.cover {
                Some(cv) => match rest {
                    None => Some(cv@),
                    Some(c) => if lex_le(cv@, c) {
                        Some(cv@)
                    } else {
                        Some(c)
                    },
                },
                None => rest,
            }
        } else {
            rest
        }
    }
}

fn opt_str_matches(field: &Option<String>, want: &Option<String>) -> (r: bool)
    ensures
        r == match view_opt(*want) {
            Some(a) => view_opt(*field) == Some(a),
            None => true,
        },
{
    match want {
        None => true,
        Some(w) => match field {
            Some(f) => str_eq(f.as_str(), w.as_str()),
            None => false,
        },
    }
}

fn min_cover_of(tracks: &Vec<Track>, alb: &str) -> (r: Option<String>)
    ensures
        match r {
            Some(c) => min_cover(tracks@, alb@) == Some(c@),
            None => min_cover(tracks@, alb@) is None,
        },
{
    let n = tracks.len();
    let mut best: Option<String> = None;
    let mut i: usize = 0;
    proof {
        assert(tracks@.take(0) =~= Seq::<Track>::empty());
    }
    while i < n
        invariant
            n == tracks@.len(),
            i <= n,
            match best {
                Some(c) => min_cover(tracks@.take(i as int), alb@) == Some(c@),
                None => min_cover(tracks@.take(i as int), alb@) is None,
            },
        decreases n - i,
    {
        proof {
            assert(tracks@.take(i as int + 1).drop_last() =~= tracks@.take(i as int));
            assert(tracks@.take(i as int + 1).last() == tracks@[i as int]);
        }
        let t = &tracks[i];
        let is_album = match &t.album {
            Some(a) => str_eq(a.as_str(), alb),
            None => false,
        };
        if is_album {
            if let Some(cv) = &t.cover {
                best = match best {
                    None => Some(cv.clone()),
                    Some(b) => {
                        if crate::strings::str_le(cv.as_str(), b.as_str()) {
                            Some(cv.clone())
                        } else {
                            Some(b)
                        }
                    },
                };
            }
        }
        i = i + 1;
    }
    proof {
        assert(tracks@.take(n as int) =~= tracks@);
    }
    best
}

impl Db {
    /// The tracks passing the filters, ordered by name. Filtering is
    /// conjunctive; with no filters the whole table is listed.
    pub fn get_tracks(&self, filters: &GetTracksFilters) -> (r: Vec<Track>)
        ensures
            r@.to_multiset() == filtered_tracks(
                self.tracks@,
                view_opt(filters.album),
                view_opt(filters.artist),
            ).to_multiset(),
            crate::sorting::tracks_sorted_by_name(r@),
    {
        let n = self.tracks.len();
        let mut picked: Vec<Track> = Vec::new();
        let mut i: usize = 0;
        proof {
            assert(self.tracks@.take(0) =~= Seq::<Track>::empty());
        }
        while i < n
            invariant
                n == self.tracks@.len(),
                i <= n,
                picked@ == filtered_tracks(
                    self.tracks@.take(i as int),
                    view_opt(filters.album),
                    view_opt(filters.artist),
                ),
            decreases n - i,
        {
            proof {
                assert(self.tracks@.take(i as int + 1).drop_last() =~= self.tracks@.take(i as int));
                assert(self.tracks@.take(i as int + 1).last() == self.tracks@[i as int]);
            }
            let t = &self.tracks[i];
            if opt_str_matches(&t.album, &filters.album) && opt_str_matches(
                &t.artist,
                &filters.artist,
            ) {
                picked.push(t.clone());
            }
            i = i + 1;
        }
        proof {
            assert(self.tracks@.take(n as int) =~= self.tracks@);
        }
        crate::sorting::sort_tracks_by_name(picked)
    }

    /// The distinct artist names of the table, ordered.
    pub fn get_artists(&self) -> (r: Vec<String>)
        ensures
            strings_sorted(r@),
            forall|i: int, j: int| 0 <= i < j < r@.len() ==> r@[i]@ != r@[j]@,
            forall|a: Seq<char>| #[trigger] has_view(r@, a) <==> artist_present(self.tracks@, a),
    {
        let names = self.collect_artists();
        let ghost pre = names@;
        let sorted = sort_strings(names);
        proof {
            crate::sorting::lemma_string_multiset_views(pre, sorted@);
        }
        sorted
    }

    fn collect_artists(&self) -> (r: Vec<String>)
        ensures
            forall|i: int, j: int| 0 <= i < j < r@.len() ==> r@[i]@ != r@[j]@,
            forall|a: Seq<char>| #[trigger] has_view(r@, a) <==> artist_present(self.tracks@, a),
    {
        let n = self.tracks.len();
        let mut names: Vec<String> = Vec::new();
        let mut i: usize = 0;
        proof {
            assert(self.tracks@.take(0) =~= Seq::<Track>::empty());
        }
        while i < n
            invariant
                n == self.tracks@.len(),
                i <= n,
                forall|x: int, y: int| 0 <= x < y < names@.len() ==> names@[x]@ != names@[y]@,
                forall|a: Seq<char>| #[trigger] has_view(names@, a) <==> artist_present(
                    self.tracks@.take(i as int),
                    a,
                ),
            decreases n - i,
        {
            let ghost old_names = names@;
            let ghost taken = self.tracks@.take(i as int);
            let ghost taken1 = self.tracks@.take(i as int + 1);
            proof {
                assert(forall|t: int| 0 <= t < i ==> taken1[t] == taken[t]);
                assert(taken1[i as int] == self.tracks@[i as int]);
            }
            let t = &self.tracks[i];
            match &t.artist {
                Some(ar) => {
                    if !string_list_contains(&names, ar.as_str()) {
                        names.push(ar.clone());
                        proof {
                            assert forall|x: int, y: int|
                                0 <= x < y < names@.len() implies names@[x]@ != names@[y]@ by {
                                if y == old_names.len() {
                                    assert(old_names.map_values(|s: String| s@)[x]
                                        == old_names[x]@);
                                }
                            }
                        }
                    }
                    proof {
                        if exists|k: int| 0 <= k < old_names.len() && old_names[k]@ == ar@ {
                            assert(has_view(names@, ar@)) by {
                                let k = choose|k: int|
                                    0 <= k < old_names.len() && old_names[k]@ == ar@;
                                assert(names@[k]@ == ar@);
                            }
                        } else {
                            assert(has_view(names@, ar@)) by {
                                assert(names@[names@.len() - 1]@ == ar@);
                            }
                        }
                        assert forall|a: Seq<char>| #[trigger] has_view(names@, a)
                            <==> artist_present(taken1, a) by {
                            if has_view(names@, a) {
                                let k = choose|k: int| 0 <= k < names@.len() && names@[k]@ == a;
                                if k < old_names.len() {
                                    assert(old_names[k]@ == a);
                                    assert(has_view(old_names, a));
                                    let t0 = choose|t0: int|
                                        0 <= t0 < taken.len() && view_opt(taken[t0].artist)
                                            == Some(a);
                                    assert(view_opt(taken1[t0].artist) == Some(a));
                                } else {
                                    assert(names@[k]@ == ar@);
                                    assert(view_opt(taken1[i as int].artist) == Some(a));
                                }
                            }
                            if artist_present(taken1, a) {
                                let t0 = choose|t0: int|
                                    0 <= t0 < taken1.len() && view_opt(taken1[t0].artist)
                                        == Some(a);
                                if t0 < i {
                                    assert(view_opt(taken[t0].artist) == Some(a));
                                    assert(has_view(old_names, a));
                                    let k = choose|k: int|
                                        0 <= k < old_names.len() && old_names[k]@ == a;
                                    assert(names@[k]@ == a);
                                } else {
                                    assert(a == ar@);
                                }
                            }
                        }
                    }
                },
                None => {
                    proof {
                        assert forall|a: Seq<char>| #[trigger] has_view(names@, a)
                            <==> artist_present(taken1, a) by {
                            if has_view(names@, a) {
                                let t0 = choose|t0: int|
                                    0 <= t0 < taken.len() && view_opt(taken[t0].artist)
                                        == Some(a);
                                assert(view_opt(taken1[t0].artist) == Some(a));
                            }
                            if artist_present(taken1, a) {
                                let t0 = choose|t0: int|
                                    0 <= t0 < taken1.len() && view_opt(taken1[t0].artist)
                                        == Some(a);
                                assert(t0 < i);
                                assert(view_opt(taken[t0].artist) == Some(a));
                            }
                        }
                    }
                },
            }
            i = i + 1;
        }
        proof {
            assert(self.tracks@.take(n as int) =~= self.tracks@);
        }
        names
    }

    fn collect_albums(&self) -> (r: Vec<String>)
        ensures
            forall|i: int, j: int| 0 <= i < j < r@.len() ==> r@[i]@ != r@[j]@,
            forall|a: Seq<char>| #[trigger] has_view(r@, a) <==> album_present(self.tracks@, a),
    {
        let n = self.tracks.len();
        let mut names: Vec<String> = Vec::new();
        let mut i: usize = 0;
        proof {
            assert(self.tracks@.take(0) =~= Seq::<Track>::empty());
        }
        while i < n
            invariant
                n == self.tracks@.len(),
                i <= n,
                forall|x: int, y: int| 0 <= x < y < names@.len() ==> names@[x]@ != names@[y]@,
                forall|a: Seq<char>| #[trigger] has_view(names@, a) <==> album_present(
                    self.tracks@.take(i as int),
                    a,
                ),
            decreases n - i,
        {
            let ghost old_names = names@;
            let ghost taken = self.tracks@.take(i as int);
            let ghost taken1 = self.tracks@.take(i as int + 1);
            proof {
                assert(forall|t: int| 0 <= t < i ==> taken1[t] == taken[t]);
                assert(taken1[i as int] == self.tracks@[i as int]);
            }
            let t = &self.tracks[i];
            match &t.album {
                Some(ar) => {
                    if !string_list_contains(&names, ar.as_str()) {
                        names.push(ar.clone());
                        proof {
                            assert forall|x: int, y: int|
                                0 <= x < y < names@.len() implies names@[x]@ != names@[y]@ by {
                                if y == old_names.len() {
                                    assert(old_names.map_values(|s: String| s@)[x]
                                        == old_names[x]@);
                                }
                            }
                        }
                    }
                    proof {
                        if exists|k: int| 0 <= k < old_names.len() && old_names[k]@ == ar@ {
                            assert(has_view(names@, ar@)) by {
                                let k = choose|k: int|
                                    0 <= k < old_names.len() && old_names[k]@ == ar@;
                                assert(names@[k]@ == ar@);
                            }
                        } else {
                            assert(has_view(names@, ar@)) by {
                                assert(names@[names@.len() - 1]@ == ar@);
                            }
                        }
                        assert forall|a: Seq<char>| #[trigger] has_view(names@, a)
                            <==> album_present(taken1, a) by {
                            if has_view(names@, a) {
                                let k = choose|k: int| 0 <= k < names@.len() && names@[k]@ == a;
                                if k < old_names.len() {
                                    assert(old_names[k]@ == a);
                                    assert(has_view(old_names, a));
                                    let t0 = choose|t0: int|
                                        0 <= t0 < taken.len() && view_opt(taken[t0].album)
                                            == Some(a);
                                    assert(view_opt(taken1[t0].album) == Some(a));
                                } else {
                                    assert(names@[k]@ == ar@);
                                    assert(view_opt(taken1[i as int].album) == Some(a));
                                }
                            }
                            if album_present(taken1, a) {
                                let t0 = choose|t0: int|
                                    0 <= t0 < taken1.len() && view_opt(taken1[t0].album)
                                        == Some(a);
                                if t0 < i {
                                    assert(view_opt(taken[t0].album) == Some(a));
                                    assert(has_view(old_names, a));
                                    let k = choose|k: int|
                                        0 <= k < old_names.len() && old_names[k]@ == a;
                                    assert(names@[k]@ == a);
                                } else {
                                    assert(a == ar@);
                                }
                            }
                        }
                    }
                },
                None => {
                    proof {
                        assert forall|a: Seq<char>| #[trigger] has_view(names@, a)
                            <==> album_present(taken1, a) by {
                            if has_view(names@, a) {
                                let t0 = choose|t0: int|
                                    0 <= t0 < taken.len() && view_opt(taken[t0].album)
                                        == Some(a);
                                assert(view_opt(taken1[t0].album) == Some(a));
                            }
                            if album_present(taken1, a) {
                                let t0 = choose|t0: int|
                                    0 <= t0 < taken1.len() && view_opt(taken1[t0].album)
                                        == Some(a);
                                assert(t0 < i);
                                assert(view_opt(taken[t0].album) == Some(a));
                            }
                        }
                    }
                },
            }
            i = i + 1;
        }
        proof {
            assert(self.tracks@.take(n as int) =~= self.tracks@);
        }
        names
    }

    /// The distinct albums of the table ordered by name, each with the
    /// smallest cover path any of its tracks carries.
    pub fn get_albums(&self) -> (r: Vec<Album>)
        ensures
            crate::sorting::albums_sorted_by_name(r@),
            forall|i: int, j: int| 0 <= i < j < r@.len() ==> r@[i].name@ != r@[j].name@,
            forall|a: Seq<char>|
                (exists|k: int| 0 <= k < r@.len() && (#[trigger] r@[k].name@) == a)
                    <==> album_present(self.tracks@, a),
            forall|k: int|
                0 <= k < r@.len() ==> view_opt(#[trigger] r@[k].cover) == min_cover(
                    self.tracks@,
                    r@[k].name@,
                ),
    {
        let names = self.collect_albums();
        let ghost pre = names@;
        let names = sort_strings(names);
        proof {
            crate::sorting::lemma_string_multiset_views(pre, names@);
        }
        let m = names.len();
        let mut out: Vec<Album> = Vec::new();
        let mut k: usize = 0;
        while k < m
            invariant
                m == names@.len(),
                k <= m,
                out@.len() == k,
                forall|q: int|
                    0 <= q < k ==> (#[trigger] out@[q].name@) == names@[q]@ && view_opt(
                        out@[q].cover,
                    ) == min_cover(self.tracks@, names@[q]@),
            decreases m - k,
        {
            let cover = min_cover_of(&self.tracks, names[k].as_str());
            let ghost old_out = out@;
            out.push(Album { name: names[k].clone(), cover });
            proof {
                assert forall|q: int|
                    0 <= q < k + 1 implies (#[trigger] out@[q].name@) == names@[q]@ && view_opt(
                        out@[q].cover,
                    ) == min_cover(self.tracks@, names@[q]@) by {
                    if q < k {
                        assert(out@[q] == old_out[q]);
                        assert(old_out[q].name@ == names@[q]@);
                    } else {
                        assert(out@[q] == out@.last());
                        assert(out@.last().name@ == names@[k as int]@);
                        assert(view_opt(out@.last().cover) == min_cover(
                            self.tracks@,
                            names@[k as int]@,
                        ));
                    }
                }
            }
            k = k + 1;
        }
        proof {
            assert forall|i: int, j: int|
                0 <= i < j < out@.len() implies crate::strings::lex_le(
                out@[i].name@,
                out@[j].name@,
            ) by {
                assert(out@[i].name@ == names@[i]@);
                assert(out@[j].name@ == names@[j]@);
            }
            assert forall|a: Seq<char>|
                (exists|q: int| 0 <= q < out@.len() && (#[trigger] out@[q].name@) == a)
                    <==> album_present(self.tracks@, a) by {
                if exists|q: int| 0 <= q < out@.len() && out@[q].name@ == a {
                    let q = choose|q: int| 0 <= q < out@.len() && out@[q].name@ == a;
                    assert(names@[q]@ == a);
                    assert(has_view(names@, a));
                }
                if album_present(self.tracks@, a) {
                    assert(has_view(names@, a));
                    let q = choose|q: int| 0 <= q < names@.len() && names@[q]@ == a;
                    assert(out@[q].name@ == a);
                }
            }
        }
        out
    }
}


// ---------------------------------------------------------------------------
// Backup and restore.
// ---------------------------------------------------------------------------

/// What a playlist contributes to the archive: for each membership whose
/// hash resolves, the track's file name — `{name}.{extension}` — and the
/// membership's position, in table order.
pub open spec fn pl_backup_items(es: Seq<PlaylistEntry>, ts: Seq<Track>) -> Seq<(Seq<char>, u64)>
    decreases es.len(),
{
    if es.len() == 0 {
        Seq::empty()
    } else {
        let rest = pl_backup_items(es.drop_last(), ts);
        let e = es.last();
        match track_ix(ts, e.hash@) {
            Some(ti) => rest.push((ts[ti].name@ + "."@ + ts[ti].extension@, e.position)),
            None => rest,
        }
    }
}

/// What a mood contributes to the archive: file name and rank of each of
/// its resolving associations, in table order.
pub open spec fn emo_backup_items(es: Seq<EmotionEntry>, ts: Seq<Track>, emo: Seq<char>) -> Seq<
    (Seq<char>, u64),
>
    decreases es.len(),
{
    if es.len() == 0 {
        Seq::empty()
    } else {
        let rest = emo_backup_items(es.drop_last(), ts, emo);
        let e = es.last();
        if e.emotion@ == emo && track_ix(ts, e.hash@) is Some {
            let ti = track_ix(ts, e.hash@)->Some_0;
            rest.push((ts[ti].name@ + "."@ + ts[ti].extension@, e.rank))
        } else {
            rest
        }
    }
}

/// What one emitted archive file is: the canonical encoding of one
/// non-empty playlist, named `playlist_{index}.json` with the playlist's
/// index in the name-ordered listing, or of one non-empty mood, named
/// `emotion_{name}.json`.
pub open spec fn archive_file_ok(db: Db, listing: Seq<String>, f: ArchiveFile) -> bool {
    ||| (exists|pi: int, idx: int|
        #![trigger db.playlists@[pi], listing[idx]]
        0 <= pi < db.playlists@.len() && 0 <= idx < listing.len() && listing[idx]@
            == db.playlists@[pi].name@ && f.data@ == entry_json(
            db.playlists@[pi].name@,
            pl_backup_items(db.playlists@[pi].entries@, db.tracks@),
            "position"@,
        ) && pl_backup_items(db.playlists@[pi].entries@, db.tracks@).len() > 0 && f.name@
            == "playlist_"@ + dec_str(idx as nat) + ".json"@)
    ||| (exists|ei: int|
        0 <= ei < db.emotions@.len() && f.data@ == entry_json(
            (#[trigger] db.emotions@[ei]).name@,
            emo_backup_items(db.emotion_tracks@, db.tracks@, db.emotions@[ei].name@),
            "rank"@,
        ) && emo_backup_items(db.emotion_tracks@, db.tracks@, db.emotions@[ei].name@).len() > 0
        && f.name@ == "emotion_"@ + db.emotions@[ei].name@ + ".json"@)
}

/// What the whole archive is: a name-ordered listing of the playlists
/// stands behind the `playlist_{index}` numbering, and every file is one
/// playlist's or one mood's canonical encoding under its exact name.
pub open spec fn backup_files_ok(db: Db, listing: Seq<String>, files: Seq<ArchiveFile>) -> bool {
    &&& strings_sorted(listing)
    &&& listing.to_multiset() == db.playlists@.map_values(|p: Playlist| p.name).to_multiset()
    &&& forall|k: int| 0 <= k < files.len() ==> archive_file_ok(db, listing, #[trigger] files[k])
}

impl Db {
    fn playlist_backup_items(&self, pi: usize) -> (r: Vec<BackupItem>)
        requires
            pi < self.playlists@.len(),
        ensures
            item_views(r@) == pl_backup_items(self.playlists@[pi as int].entries@, self.tracks@),
    {
        let n = self.playlists[pi].entries.len();
        let ghost es = self.playlists@[pi as int].entries@;
        let mut items: Vec<BackupItem> = Vec::new();
        let mut q: usize = 0;
        proof {
            assert(es.take(0) =~= Seq::<PlaylistEntry>::empty());
            assert(item_views(items@) =~= pl_backup_items(es.take(0), self.tracks@));
        }
        while q < n
            invariant
                pi < self.playlists@.len(),
                es == self.playlists@[pi as int].entries@,
                n == es.len(),
                q <= n,
                item_views(items@) == pl_backup_items(es.take(q as int), self.tracks@),
            decreases n - q,
        {
            proof {
                assert(es.take(q as int + 1).drop_last() =~= es.take(q as int));
                assert(es.take(q as int + 1).last() == es[q as int]);
            }
            let e = &self.playlists[pi].entries[q];
            if let Some(ti) = self.find_track(e.hash.as_str()) {
                let mut file_name = self.tracks[ti].name.clone();
                file_name.append(".");
                file_name.append(self.tracks[ti].extension.as_str());
                items.push(BackupItem { file_name, value: e.position });
                proof {
                    assert(item_views(items@) =~= pl_backup_items(
                        es.take(q as int + 1),
                        self.tracks@,
                    ));
                }
            }
            q = q + 1;
        }
        proof {
            assert(es.take(n as int) =~= es);
        }
        items
    }

    fn emotion_backup_items(&self, name: &str) -> (r: Vec<BackupItem>)
        ensures
            item_views(r@) == emo_backup_items(self.emotion_tracks@, self.tracks@, name@),
    {
        let n = self.emotion_tracks.len();
        let ghost es = self.emotion_tracks@;
        let mut items: Vec<BackupItem> = Vec::new();
        let mut q: usize = 0;
        proof {
            assert(es.take(0) =~= Seq::<EmotionEntry>::empty());
            assert(item_views(items@) =~= emo_backup_items(es.take(0), self.tracks@, name@));
        }
        while q < n
            invariant
                es == self.emotion_tracks@,
                n == es.len(),
                q <= n,
                item_views(items@) == emo_backup_items(es.take(q as int), self.tracks@, name@),
            decreases n - q,
        {
            proof {
                assert(es.take(q as int + 1).drop_last() =~= es.take(q as int));
                assert(es.take(q as int + 1).last() == es[q as int]);
            }
            let e = &self.emotion_tracks[q];
            if str_eq(e.emotion.as_str(), name) {
                if let Some(ti) = self.find_track(e.hash.as_str()) {
                    let mut file_name = self.tracks[ti].name.clone();
                    file_name.append(".");
                    file_name.append(self.tracks[ti].extension.as_str());
                    items.push(BackupItem { file_name, value: e.rank });
                    proof {
                        assert(item_views(items@) =~= emo_backup_items(
                            es.take(q as int + 1),
                            self.tracks@,
                            name@,
                        ));
                    }
                }
            }
            q = q + 1;
        }
        proof {
            assert(es.take(n as int) =~= es);
        }
        items
    }

    /// Serializes the organisational state: one archive file per non-empty
    /// playlist — `playlist_{index}.json`, indexed along the name-ordered
    /// playlist listing — and one per non-empty mood, `emotion_{name}.json`.
    /// Every emitted file is the canonical encoding of its playlist or
    /// mood, and every non-empty playlist and mood is emitted.
    pub fn backup(&self) -> (r: Vec<ArchiveFile>)
        requires
            self.wf(),
        ensures
            exists|listing: Seq<String>| #[trigger] backup_files_ok(*self, listing, r@),
            forall|pi: int|
                0 <= pi < self.playlists@.len() && pl_backup_items(
                    (#[trigger] self.playlists@[pi]).entries@,
                    self.tracks@,
                ).len() > 0 ==> exists|k: int|
                    0 <= k < r@.len() && (#[trigger] r@[k]).data@ == entry_json(
                        self.playlists@[pi].name@,
                        pl_backup_items(self.playlists@[pi].entries@, self.tracks@),
                        "position"@,
                    ),
            forall|ei: int|
                0 <= ei < self.emotions@.len() && emo_backup_items(
                    self.emotion_tracks@,
                    self.tracks@,
                    (#[trigger] self.emotions@[ei]).name@,
                ).len() > 0 ==> exists|k: int|
                    0 <= k < r@.len() && (#[trigger] r@[k]).data@ == entry_json(
                        self.emotions@[ei].name@,
                        emo_backup_items(
                            self.emotion_tracks@,
                            self.tracks@,
                            self.emotions@[ei].name@,
                        ),
                        "rank"@,
                    ),
    {
        broadcast use vstd::seq_lib::group_to_multiset_ensures;

        let mut out: Vec<ArchiveFile> = Vec::new();
        let names = self.get_playlists();
        let ghost name_vals = self.playlists@.map_values(|p: Playlist| p.name);
        let m = names.len();
        let mut idx: usize = 0;
        while idx < m
            invariant
                self.wf(),
                m == names@.len(),
                names@.to_multiset() == name_vals.to_multiset(),
                name_vals == self.playlists@.map_values(|p: Playlist| p.name),
                idx <= m,
                forall|k: int|
                    0 <= k < out@.len() ==> archive_file_ok(*self, names@, #[trigger] out@[k]),
                forall|pi: int|
                    0 <= pi < self.playlists@.len() && pl_backup_items(
                        (#[trigger] self.playlists@[pi]).entries@,
                        self.tracks@,
                    ).len() > 0 && (exists|x: int|
                        0 <= x < idx && names@[x]@ == self.playlists@[pi].name@) ==> exists|k: int|
                        0 <= k < out@.len() && (#[trigger] out@[k]).data@ == entry_json(
                            self.playlists@[pi].name@,
                            pl_backup_items(self.playlists@[pi].entries@, self.tracks@),
                            "position"@,
                        ),
            decreases m - idx,
        {
            if let Some(pi) = self.find_playlist(names[idx].as_str()) {
                proof {
                    lemma_pl_ix_props(self.playlists@, names@[idx as int]@);
                }
                let items = self.playlist_backup_items(pi);
                if items.len() > 0 {
                    let data = encode_entry(self.playlists[pi].name.as_str(), &items, "position");
                    let mut fname = String::from_str("playlist_");
                    fname.append(u64_to_dec(idx as u64).as_str());
                    fname.append(".json");
                    proof {
                        assert(fname@ =~= "playlist_"@ + dec_str(idx as nat) + ".json"@);
                    }
                    let ghost old_out = out@;
                    out.push(ArchiveFile { name: fname, data });
                    proof {
                        assert(forall|k: int| 0 <= k < old_out.len() ==> out@[k] == old_out[k]);
                        assert forall|k: int|
                            0 <= k < out@.len() implies archive_file_ok(
                            *self,
                            names@,
                            #[trigger] out@[k],
                        ) by {
                            if k < old_out.len() {
                                assert(archive_file_ok(*self, names@, old_out[k]));
                            }
                        }
                        assert(archive_file_ok(*self, names@, out@[out@.len() - 1])) by {
                            assert(names@[idx as int]@ == self.playlists@[pi as int].name@);
                            assert(out@[out@.len() - 1].name@ == "playlist_"@ + dec_str(
                                idx as nat,
                            ) + ".json"@);
                            assert(out@[out@.len() - 1].data@ == entry_json(
                                self.playlists@[pi as int].name@,
                                pl_backup_items(self.playlists@[pi as int].entries@, self.tracks@),
                                "position"@,
                            ));
                        }
                        assert forall|pj: int|
                            0 <= pj < self.playlists@.len() && pl_backup_items(
                                (#[trigger] self.playlists@[pj]).entries@,
                                self.tracks@,
                            ).len() > 0 && (exists|x: int|
                                0 <= x < idx + 1 && names@[x]@ == self.playlists@[pj].name@)
                            implies (exists|k: int|
                            0 <= k < out@.len() && (#[trigger] out@[k]).data@ == entry_json(
                                self.playlists@[pj].name@,
                                pl_backup_items(self.playlists@[pj].entries@, self.tracks@),
                                "position"@,
                            )) by {
                            let x = choose|x: int|
                                0 <= x < idx + 1 && names@[x]@ == self.playlists@[pj].name@;
                            if x < idx {
                                let k = choose|k: int|
                                    0 <= k < old_out.len() && (#[trigger] old_out[k]).data@
                                        == entry_json(
                                        self.playlists@[pj].name@,
                                        pl_backup_items(
                                            self.playlists@[pj].entries@,
                                            self.tracks@,
                                        ),
                                        "position"@,
                                    );
                                assert(out@[k] == old_out[k]);
                            } else {
                                assert(self.playlists@[pj].name@ == names@[idx as int]@);
                                assert(self.playlists@[pi as int].name@ == names@[idx as int]@);
                                if pj < pi as int {
                                    assert(self.playlists@[pj].name@
                                        != self.playlists@[pi as int].name@);
                                }
                                if (pi as int) < pj {
                                    assert(self.playlists@[pi as int].name@
                                        != self.playlists@[pj].name@);
                                }
                                assert(pj == pi as int);
                                assert(out@[out@.len() - 1].data@ == entry_json(
                                    self.playlists@[pj].name@,
                                    pl_backup_items(self.playlists@[pj].entries@, self.tracks@),
                                    "position"@,
                                ));
                            }
                        }
                    }
                } else {
                    proof {
                        assert forall|pj: int|
                            0 <= pj < self.playlists@.len() && pl_backup_items(
                                (#[trigger] self.playlists@[pj]).entries@,
                                self.tracks@,
                            ).len() > 0 && (exists|x: int|
                                0 <= x < idx + 1 && names@[x]@ == self.playlists@[pj].name@)
                            implies (exists|k: int|
                            0 <= k < out@.len() && (#[trigger] out@[k]).data@ == entry_json(
                                self.playlists@[pj].name@,
                                pl_backup_items(self.playlists@[pj].entries@, self.tracks@),
                                "position"@,
                            )) by {
                            let x = choose|x: int|
                                0 <= x < idx + 1 && names@[x]@ == self.playlists@[pj].name@;
                            if x < idx {
                            } else {
                                assert(self.playlists@[pj].name@ == names@[idx as int]@);
                                assert(self.playlists@[pi as int].name@ == names@[idx as int]@);
                                if pj < pi as int {
                                    assert(self.playlists@[pj].name@
                                        != self.playlists@[pi as int].name@);
                                }
                                if (pi as int) < pj {
                                    assert(self.playlists@[pi as int].name@
                                        != self.playlists@[pj].name@);
                                }
                                assert(pj == pi as int);
                                assert(pl_backup_items(
                                    self.playlists@[pj].entries@,
                                    self.tracks@,
                                ).len() == 0);
                            }
                        }
                    }
                }
            } else {
                proof {
                    lemma_pl_ix_props(self.playlists@, names@[idx as int]@);
                    assert forall|pj: int|
                        0 <= pj < self.playlists@.len() && pl_backup_items(
                            (#[trigger] self.playlists@[pj]).entries@,
                            self.tracks@,
                        ).len() > 0 && (exists|x: int|
                            0 <= x < idx + 1 && names@[x]@ == self.playlists@[pj].name@) implies (
                    exists|k: int|
                        0 <= k < out@.len() && (#[trigger] out@[k]).data@ == entry_json(
                            self.playlists@[pj].name@,
                            pl_backup_items(self.playlists@[pj].entries@, self.tracks@),
                            "position"@,
                        )) by {
                        let x = choose|x: int|
                            0 <= x < idx + 1 && names@[x]@ == self.playlists@[pj].name@;
                        if x == idx {
                            assert(self.playlists@[pj].name@ != names@[idx as int]@);
                        }
                    }
                }
            }
            idx = idx + 1;
        }
        proof {
            assert forall|pi: int|
                0 <= pi < self.playlists@.len() && pl_backup_items(
                    (#[trigger] self.playlists@[pi]).entries@,
                    self.tracks@,
                ).len() > 0 implies exists|x: int|
                0 <= x < m && names@[x]@ == self.playlists@[pi].name@ by {
                assert(name_vals[pi] == self.playlists@[pi].name);
                assert(name_vals.contains(self.playlists@[pi].name));
                assert(name_vals.to_multiset().count(self.playlists@[pi].name) > 0);
                assert(names@.to_multiset().count(self.playlists@[pi].name) > 0);
                assert(names@.contains(self.playlists@[pi].name));
                let x = choose|x: int|
                    0 <= x < names@.len() && names@[x] == self.playlists@[pi].name;
                assert(names@[x]@ == self.playlists@[pi].name@);
            }
        }
        let en = self.emotions.len();
        let mut ei: usize = 0;
        while ei < en
            invariant
                self.wf(),
                en == self.emotions@.len(),
                ei <= en,
                forall|k: int|
                    0 <= k < out@.len() ==> archive_file_ok(*self, names@, #[trigger] out@[k]),
                forall|pi: int|
                    0 <= pi < self.playlists@.len() && pl_backup_items(
                        (#[trigger] self.playlists@[pi]).entries@,
                        self.tracks@,
                    ).len() > 0 ==> exists|k: int|
                        0 <= k < out@.len() && (#[trigger] out@[k]).data@ == entry_json(
                            self.playlists@[pi].name@,
                            pl_backup_items(self.playlists@[pi].entries@, self.tracks@),
                            "position"@,
                        ),
                forall|ej: int|
                    0 <= ej < ei ==> (emo_backup_items(
                        self.emotion_tracks@,
                        self.tracks@,
                        (#[trigger] self.emotions@[ej]).name@,
                    ).len() > 0 ==> exists|k: int|
                        0 <= k < out@.len() && (#[trigger] out@[k]).data@ == entry_json(
                            self.emotions@[ej].name@,
                            emo_backup_items(
                                self.emotion_tracks@,
                                self.tracks@,
                                self.emotions@[ej].name@,
                            ),
                            "rank"@,
                        )),
            decreases en - ei,
        {
            let items = self.emotion_backup_items(self.emotions[ei].name.as_str());
            if items.len() > 0 {
                let data = encode_entry(self.emotions[ei].name.as_str(), &items, "rank");
                let mut fname = String::from_str("emotion_");
                fname.append(self.emotions[ei].name.as_str());
                fname.append(".json");
                proof {
                    assert(fname@ =~= "emotion_"@ + self.emotions@[ei as int].name@ + ".json"@);
                }
                let ghost old_out = out@;
                out.push(ArchiveFile { name: fname, data });
                proof {
                    assert(forall|k: int| 0 <= k < old_out.len() ==> out@[k] == old_out[k]);
                    assert(archive_file_ok(*self, names@, out@[out@.len() - 1])) by {
                        assert(out@[out@.len() - 1].name@ == "emotion_"@ + self.emotions@[
                            ei as int
                        ].name@ + ".json"@);
                        assert(out@[out@.len() - 1].data@ == entry_json(
                            self.emotions@[ei as int].name@,
                            emo_backup_items(
                                self.emotion_tracks@,
                                self.tracks@,
                                self.emotions@[ei as int].name@,
                            ),
                            "rank"@,
                        ));
                    }
                    assert forall|k: int|
                        0 <= k < out@.len() implies archive_file_ok(
                        *self,
                        names@,
                        #[trigger] out@[k],
                    ) by {
                        if k < old_out.len() {
                            assert(archive_file_ok(*self, names@, old_out[k]));
                        }
                    }
                    assert forall|pj: int|
                        0 <= pj < self.playlists@.len() && pl_backup_items(
                            (#[trigger] self.playlists@[pj]).entries@,
                            self.tracks@,
                        ).len() > 0 implies (exists|k: int|
                        0 <= k < out@.len() && (#[trigger] out@[k]).data@ == entry_json(
                            self.playlists@[pj].name@,
                            pl_backup_items(self.playlists@[pj].entries@, self.tracks@),
                            "position"@,
                        )) by {
                        let k = choose|k: int|
                            0 <= k < old_out.len() && (#[trigger] old_out[k]).data@ == entry_json(
                                self.playlists@[pj].name@,
                                pl_backup_items(self.playlists@[pj].entries@, self.tracks@),
                                "position"@,
                            );
                        assert(out@[k] == old_out[k]);
                    }
                    assert forall|ej: int|
                        0 <= ej < ei + 1 && emo_backup_items(
                            self.emotion_tracks@,
                            self.tracks@,
                            (#[trigger] self.emotions@[ej]).name@,
                        ).len() > 0 implies (exists|k: int|
                        0 <= k < out@.len() && (#[trigger] out@[k]).data@ == entry_json(
                            self.emotions@[ej].name@,
                            emo_backup_items(
                                self.emotion_tracks@,
                                self.tracks@,
                                self.emotions@[ej].name@,
                            ),
                            "rank"@,
                        )) by {
                        if ej < ei {
                            let k = choose|k: int|
                                0 <= k < old_out.len() && (#[trigger] old_out[k]).data@
                                    == entry_json(
                                    self.emotions@[ej].name@,
                                    emo_backup_items(
                                        self.emotion_tracks@,
                                        self.tracks@,
                                        self.emotions@[ej].name@,
                                    ),
                                    "rank"@,
                                );
                            assert(out@[k] == old_out[k]);
                        } else {
                            assert(out@[out@.len() - 1].data@ == entry_json(
                                self.emotions@[ej].name@,
                                emo_backup_items(
                                    self.emotion_tracks@,
                                    self.tracks@,
                                    self.emotions@[ej].name@,
                                ),
                                "rank"@,
                            ));
                        }
                    }
                }
            }
            ei = ei + 1;
        }
        proof {
            assert(backup_files_ok(*self, names@, out@));
        }
        out
    }
}

/// How one archived playlist lands in the store: a new playlist under
/// `{name} (Restored)` whose memberships re-derive each hash from the
/// archived file name and take the archived positions as they are.
pub open spec fn is_playlist_restore(
    pre: Db,
    post: Db,
    name: Seq<char>,
    items: Seq<(Seq<char>, u64)>,
) -> bool {
    let restored = name + " (Restored)"@;
    &&& pl_ix(pre.playlists@, restored) is None
    &&& post.playlists@.len() == pre.playlists@.len() + 1
    &&& post.playlists@.subrange(0, pre.playlists@.len() as int) == pre.playlists@
    &&& post.playlists@.last().name@ == restored
    &&& post.playlists@.last().entries@.len() == items.len()
    &&& forall|q: int|
        0 <= q < items.len() ==> (#[trigger] post.playlists@.last().entries@[q]).hash@
            == crate::tracks::name_hash(items[q].0) && post.playlists@.last().entries@[q].position
            == items[q].1
    &&& pre.same_but_playlists(post)
}

/// The associations an archived mood really adds under upsert-ignore: in
/// item order, skipping hashes already ranked under the mood and repeats.
pub open spec fn emo_restore_added(
    pre: Seq<EmotionEntry>,
    emo: Seq<char>,
    items: Seq<(Seq<char>, u64)>,
) -> Seq<(Seq<char>, u64)>
    decreases items.len(),
{
    if items.len() == 0 {
        Seq::empty()
    } else {
        let rest = emo_restore_added(pre, emo, items.drop_last());
        let h = crate::tracks::name_hash(items.last().0);
        if emo_entry_ix(pre, emo, h) is Some || (exists|q: int|
            0 <= q < rest.len() && (#[trigger] rest[q]).0 == h) {
            rest
        } else {
            rest.push((h, items.last().1))
        }
    }
}

/// How one archived mood lands in the store: its surviving associations are
/// appended under the original mood name with their archived ranks.
pub open spec fn is_emotion_restore(
    pre: Db,
    post: Db,
    emo: Seq<char>,
    items: Seq<(Seq<char>, u64)>,
) -> bool {
    let added = emo_restore_added(pre.emotion_tracks@, emo, items);
    &&& post.emotion_tracks@.len() == pre.emotion_tracks@.len() + added.len()
    &&& post.emotion_tracks@.subrange(0, pre.emotion_tracks@.len() as int) == pre.emotion_tracks@
    &&& forall|q: int|
        0 <= q < added.len() ==> (#[trigger] post.emotion_tracks@[pre.emotion_tracks@.len() + q]).emotion@
            == emo && post.emotion_tracks@[pre.emotion_tracks@.len() + q].hash@ == added[q].0
            && post.emotion_tracks@[pre.emotion_tracks@.len() + q].rank == added[q].1
    &&& pre.same_but_emotion_tracks(post)
}


/// What an archived playlist must satisfy to become a well-formed playlist:
/// positions below the count and pairwise distinct, and no two file names
/// deriving the same hash.
pub open spec fn playlist_items_admissible(items: Seq<(Seq<char>, u64)>) -> bool {
    &&& forall|q: int| 0 <= q < items.len() ==> ((#[trigger] items[q]).1 as int) < items.len()
    &&& forall|a: int, b: int|
        0 <= a < b < items.len() ==> (#[trigger] items[a]).1 != (#[trigger] items[b]).1
    &&& forall|a: int, b: int|
        0 <= a < b < items.len() ==> crate::tracks::name_hash((#[trigger] items[a]).0)
            != crate::tracks::name_hash((#[trigger] items[b]).0)
}

/// What an archived mood must satisfy: every rank in `1..=i64::MAX`.
pub open spec fn rank_items_admissible(items: Seq<(Seq<char>, u64)>) -> bool {
    forall|q: int| 0 <= q < items.len() ==> 1 <= (#[trigger] items[q]).1 <= i64::MAX as u64
}

/// What applying one archive file does: a `playlist...` file adds its
/// restored playlist, an `emotion...` file upserts its mood rows, any other
/// file changes nothing.
pub open spec fn restore_step(pre: Db, post: Db, f: ArchiveFile) -> bool {
    if has_prefix(f.name@, "playlist"@) {
        exists|n: Seq<char>, items: Seq<(Seq<char>, u64)>|
            f.data@ == entry_json(n, items, "position"@) && is_playlist_restore(
                pre,
                post,
                n,
                items,
            )
    } else if has_prefix(f.name@, "emotion"@) {
        exists|n: Seq<char>, items: Seq<(Seq<char>, u64)>|
            f.data@ == entry_json(n, items, "rank"@) && is_emotion_restore(pre, post, n, items)
    } else {
        post == pre
    }
}

/// Exactly when one archive file is refused: its text is not the canonical
/// encoding of any entry; or it is, but the entry would break an invariant;
/// or the restored playlist name is already taken.
pub open spec fn restore_refused(pre: Db, f: ArchiveFile, e: DbError) -> bool {
    match e {
        DbError::BadArchive => {
            ||| (has_prefix(f.name@, "playlist"@) && {
                ||| !(exists|n: Seq<char>, items: Seq<(Seq<char>, u64)>|
                    f.data@ == entry_json(n, items, "position"@))
                ||| (exists|n: Seq<char>, items: Seq<(Seq<char>, u64)>|
                    f.data@ == entry_json(n, items, "position"@) && !playlist_items_admissible(
                        items,
                    ))
            })
            ||| (!has_prefix(f.name@, "playlist"@) && has_prefix(f.name@, "emotion"@) && {
                ||| !(exists|n: Seq<char>, items: Seq<(Seq<char>, u64)>|
                    f.data@ == entry_json(n, items, "rank"@))
                ||| (exists|n: Seq<char>, items: Seq<(Seq<char>, u64)>|
                    f.data@ == entry_json(n, items, "rank"@) && !rank_items_admissible(items))
            })
        },
        DbError::DuplicatePlaylist => has_prefix(f.name@, "playlist"@) && (exists|
            n: Seq<char>,
            items: Seq<(Seq<char>, u64)>,
        |
            f.data@ == entry_json(n, items, "position"@) && pl_ix(
                pre.playlists@,
                n + " (Restored)"@,
            ) is Some),
        _ => false,
    }
}

/// Applying the files one after the other: each step from the state the
/// previous step left.
pub open spec fn restore_chain(pre: Db, post: Db, files: Seq<ArchiveFile>) -> bool
    decreases files.len(),
{
    if files.len() == 0 {
        post == pre
    } else {
        exists|mid: Db| #[trigger] restore_step(pre, mid, files[0]) && restore_chain(
            mid,
            post,
            files.skip(1),
        )
    }
}

/// LAW: one applied file is one step.
pub proof fn lemma_restore_chain_single(pre: Db, post: Db, f: ArchiveFile)
    requires
        restore_chain(pre, post, seq![f]),
    ensures
        restore_step(pre, post, f),
{
    let mid = choose|mid: Db|
        #[trigger] restore_step(pre, mid, seq![f][0]) && restore_chain(mid, post, seq![f].skip(1));
    assert(seq![f].skip(1) =~= Seq::<ArchiveFile>::empty());
    assert(post == mid);
    assert(seq![f][0] == f);
}

/// LAW: a restore only adds. However many files are applied, the track
/// table, the watched directories, the covers path, the moods, the lyrics
/// and the rulesets stay untouched, every playlist that existed stays as it
/// was — new playlists only come after it — and every mood association that
/// existed keeps its place and its rank.
pub proof fn lemma_restore_chain_preserves(pre: Db, post: Db, files: Seq<ArchiveFile>)
    requires
        restore_chain(pre, post, files),
    ensures
        post.covers_path == pre.covers_path,
        post.tracks == pre.tracks,
        post.emotions == pre.emotions,
        post.lyrics == pre.lyrics,
        post.rules == pre.rules,
        post.dirs == pre.dirs,
        post.playlists@.len() >= pre.playlists@.len(),
        post.playlists@.subrange(0, pre.playlists@.len() as int) == pre.playlists@,
        post.emotion_tracks@.len() >= pre.emotion_tracks@.len(),
        post.emotion_tracks@.subrange(0, pre.emotion_tracks@.len() as int) == pre.emotion_tracks@,
    decreases files.len(),
{
    if files.len() == 0 {
        assert(post.playlists@.subrange(0, pre.playlists@.len() as int) =~= pre.playlists@);
        assert(post.emotion_tracks@.subrange(0, pre.emotion_tracks@.len() as int)
            =~= pre.emotion_tracks@);
    } else {
        let mid = choose|mid: Db|
            #[trigger] restore_step(pre, mid, files[0]) && restore_chain(
                mid,
                post,
                files.skip(1),
            );
        if has_prefix(files[0].name@, "playlist"@) {
            let (n, items): (Seq<char>, Seq<(Seq<char>, u64)>) = choose|
                n: Seq<char>,
                items: Seq<(Seq<char>, u64)>,
            |
                files[0].data@ == entry_json(n, items, "position"@) && is_playlist_restore(
                    pre,
                    mid,
                    n,
                    items,
                );
            assert(is_playlist_restore(pre, mid, n, items));
        } else if has_prefix(files[0].name@, "emotion"@) {
            let (n, items): (Seq<char>, Seq<(Seq<char>, u64)>) = choose|
                n: Seq<char>,
                items: Seq<(Seq<char>, u64)>,
            |
                files[0].data@ == entry_json(n, items, "rank"@) && is_emotion_restore(
                    pre,
                    mid,
                    n,
                    items,
                );
            assert(is_emotion_restore(pre, mid, n, items));
        }
        assert(mid.playlists@.subrange(0, pre.playlists@.len() as int) == pre.playlists@);
        assert(mid.emotion_tracks@.subrange(0, pre.emotion_tracks@.len() as int)
            == pre.emotion_tracks@);
        lemma_restore_chain_preserves(mid, post, files.skip(1));
        assert(post.playlists@.subrange(0, pre.playlists@.len() as int) =~= post.playlists@
            .subrange(0, mid.playlists@.len() as int).subrange(0, pre.playlists@.len() as int));
        assert(mid.playlists@.subrange(0, pre.playlists@.len() as int) =~= post.playlists@
            .subrange(0, mid.playlists@.len() as int).subrange(0, pre.playlists@.len() as int));
        assert(post.emotion_tracks@.subrange(0, pre.emotion_tracks@.len() as int)
            =~= post.emotion_tracks@.subrange(0, mid.emotion_tracks@.len() as int).subrange(
            0,
            pre.emotion_tracks@.len() as int,
        ));
        assert(mid.emotion_tracks@.subrange(0, pre.emotion_tracks@.len() as int)
            =~= post.emotion_tracks@.subrange(0, mid.emotion_tracks@.len() as int).subrange(
            0,
            pre.emotion_tracks@.len() as int,
        ));
    }
}

/// A chain grows by one applied file at its end.
pub proof fn lemma_restore_chain_snoc(
    a: Db,
    b: Db,
    c: Db,
    fs: Seq<ArchiveFile>,
    f: ArchiveFile,
)
    requires
        restore_chain(a, b, fs),
        restore_step(b, c, f),
    ensures
        restore_chain(a, c, fs.push(f)),
    decreases fs.len(),
{
    if fs.len() == 0 {
        assert(a == b);
        assert(fs.push(f)[0] == f);
        assert(fs.push(f).skip(1) =~= Seq::<ArchiveFile>::empty());
        assert(restore_chain(c, c, fs.push(f).skip(1)));
        assert(restore_step(a, c, fs.push(f)[0]));
    } else {
        let mid = choose|mid: Db|
            #[trigger] restore_step(a, mid, fs[0]) && restore_chain(mid, b, fs.skip(1));
        lemma_restore_chain_snoc(mid, b, c, fs.skip(1), f);
        assert(fs.push(f).skip(1) =~= fs.skip(1).push(f));
        assert(fs.push(f)[0] == fs[0]);
        assert(restore_step(a, mid, fs.push(f)[0]) && restore_chain(mid, c, fs.push(f).skip(1)));
    }
}

fn entries_valid(es: &Vec<PlaylistEntry>) -> (r: bool)
    ensures
        r == entries_wf(es@),
{
    let n = es.len();
    let mut a: usize = 0;
    while a < n
        invariant
            n == es@.len(),
            a <= n,
            forall|i: int| 0 <= i < a ==> (#[trigger] es@[i].position) < es@.len(),
            forall|i: int, j: int|
                0 <= i < j < es@.len() && i < a ==> #[trigger] es@[i].position
                    != #[trigger] es@[j].position,
            forall|i: int, j: int|
                0 <= i < j < es@.len() && i < a ==> #[trigger] es@[i].hash@
                    != #[trigger] es@[j].hash@,
        decreases n - a,
    {
        if es[a].position >= n as u64 {
            return false;
        }
        let mut b: usize = a + 1;
        while b < n
            invariant
                n == es@.len(),
                a < b <= n || (a < n && b == a + 1),
                a < n,
                forall|j: int| a < j < b ==> es@[a as int].position != #[trigger] es@[j].position,
                forall|j: int| a < j < b ==> es@[a as int].hash@ != #[trigger] es@[j].hash@,
            decreases n - b,
        {
            if es[a].position == es[b].position {
                return false;
            }
            if str_eq(es[a].hash.as_str(), es[b].hash.as_str()) {
                return false;
            }
            b = b + 1;
        }
        a = a + 1;
    }
    true
}

impl Db {
    fn find_emo_pair(&self, name: &str, hash: &str) -> (r: Option<usize>)
        ensures
            match r {
                Some(i) => i < self.emotion_tracks@.len() && emo_entry_ix(
                    self.emotion_tracks@,
                    name@,
                    hash@,
                ) == Some(i as int),
                None => emo_entry_ix(self.emotion_tracks@, name@, hash@) is None,
            },
    {
        let n = self.emotion_tracks.len();
        let mut i: usize = 0;
        while i < n
            invariant
                n == self.emotion_tracks@.len(),
                i <= n,
                forall|j: int|
                    0 <= j < i ==> !((#[trigger] self.emotion_tracks@[j].emotion@) == name@
                        && self.emotion_tracks@[j].hash@ == hash@),
            decreases n - i,
        {
            if str_eq(self.emotion_tracks[i].emotion.as_str(), name) && str_eq(
                self.emotion_tracks[i].hash.as_str(),
                hash,
            ) {
                proof {
                    lemma_emo_entry_ix_found(self.emotion_tracks@, name@, hash@, i as int);
                }
                return Some(i);
            }
            i = i + 1;
        }
        proof {
            lemma_emo_entry_ix_none(self.emotion_tracks@, name@, hash@);
        }
        None
    }

    /// Applies one archive file. A `playlist...` file becomes a new playlist
    /// named `{archived name} (Restored)`, its hashes re-derived from the
    /// archived file names, its positions taken as archived; a file whose
    /// positions or hashes would break the ordering invariant, or whose text
    /// is not a canonical entry, is refused whole. An `emotion...` file
    /// upserts associations under the archived mood name, ignoring pairs
    /// that already exist. Any other file is ignored.
    pub fn restore_entry(&mut self, file: &ArchiveFile) -> (r: Result<(), DbError>)
        requires
            old(self).wf(),
        ensures
            final(self).wf(),
            match r {
                Ok(()) => restore_step(*old(self), *final(self), *file),
                Err(e) => *final(self) == *old(self) && restore_refused(*old(self), *file, e),
            },
    {
        if str_starts_with(file.name.as_str(), "playlist") {
            let e = match crate::backup::decode_entry(file.data.as_str(), "position") {
                Some(e) => e,
                None => {
                    return Err(DbError::BadArchive);
                },
            };
            let ghost items = item_views(e.items@);
            let mut restored_name = e.name.clone();
            restored_name.append(" (Restored)");
            if self.find_playlist(restored_name.as_str()).is_some() {
                proof {
                    assert(file.data@ == entry_json(e.name@, items, "position"@) && pl_ix(
                        self.playlists@,
                        e.name@ + " (Restored)"@,
                    ) is Some);
                }
                return Err(DbError::DuplicatePlaylist);
            }
            let n = e.items.len();
            let mut entries: Vec<PlaylistEntry> = Vec::new();
            let mut q: usize = 0;
            while q < n
                invariant
                    n == e.items@.len(),
                    items == item_views(e.items@),
                    q <= n,
                    entries@.len() == q,
                    forall|a: int|
                        0 <= a < q ==> (#[trigger] entries@[a].hash@) == crate::tracks::name_hash(
                            items[a].0,
                        ) && entries@[a].position == items[a].1,
                decreases n - q,
            {
                proof {
                    assert(items[q as int] == (
                        e.items@[q as int].file_name@,
                        e.items@[q as int].value,
                    ));
                }
                let h = crate::utils::hash(e.items[q].file_name.as_str().as_bytes());
                entries.push(PlaylistEntry { hash: h, position: e.items[q].value });
                q = q + 1;
            }
            if !entries_valid(&entries) {
                proof {
                    assert(!playlist_items_admissible(items)) by {
                        if playlist_items_admissible(items) {
                            assert forall|a: int|
                                0 <= a < entries@.len() implies (#[trigger] entries@[a].position)
                                < entries@.len() by {
                                assert(entries@[a].hash@ == crate::tracks::name_hash(items[a].0));
                                assert((items[a].1 as int) < items.len());
                            }
                            assert forall|a: int, b: int|
                                0 <= a < b < entries@.len() implies #[trigger] entries@[a].position
                                != #[trigger] entries@[b].position by {
                                assert(entries@[a].hash@ == crate::tracks::name_hash(items[a].0));
                                assert(entries@[b].hash@ == crate::tracks::name_hash(items[b].0));
                                assert(entries@[a].position == items[a].1);
                                assert(entries@[b].position == items[b].1);
                            }
                            assert forall|a: int, b: int|
                                0 <= a < b < entries@.len() implies #[trigger] entries@[a].hash@
                                != #[trigger] entries@[b].hash@ by {
                                assert(entries@[a].hash@ == crate::tracks::name_hash(items[a].0));
                                assert(entries@[b].hash@ == crate::tracks::name_hash(items[b].0));
                            }
                            assert(entries_wf(entries@));
                            assert(false);
                        }
                    }
                    assert(file.data@ == entry_json(e.name@, items, "position"@)
                        && !playlist_items_admissible(items));
                }
                return Err(DbError::BadArchive);
            }
            let ghost pre = self.playlists@;
            self.playlists.push(Playlist { name: restored_name, entries });
            proof {
                assert(self.playlists@.subrange(0, pre.len() as int) =~= pre);
                assert forall|i: int, j: int|
                    0 <= i < j < self.playlists@.len() implies self.playlists@[i].name@
                    != self.playlists@[j].name@ by {
                    if j == pre.len() {
                        lemma_pl_ix_props(pre, self.playlists@[j].name@);
                    }
                }
                assert forall|i: int|
                    0 <= i < self.playlists@.len() implies entries_wf(
                    self.playlists@[i].entries@,
                ) by {}
                assert(is_playlist_restore(*old(self), *self, e.name@, items));
                assert(restore_step(*old(self), *self, *file));
            }
            return Ok(());
        }
        if str_starts_with(file.name.as_str(), "emotion") {
            let e = match crate::backup::decode_entry(file.data.as_str(), "rank") {
                Some(e) => e,
                None => {
                    return Err(DbError::BadArchive);
                },
            };
            let ghost items = item_views(e.items@);
            let n = e.items.len();
            let mut q: usize = 0;
            while q < n
                invariant
                    *self == *old(self),
                    self.wf(),
                    !has_prefix(file.name@, "playlist"@),
                    has_prefix(file.name@, "emotion"@),
                    file.data@ == entry_json(e.name@, items, "rank"@),
                    n == e.items@.len(),
                    items == item_views(e.items@),
                    q <= n,
                    forall|a: int| 0 <= a < q ==> 1 <= (#[trigger] items[a]).1 <= i64::MAX as u64,
                decreases n - q,
            {
                proof {
                    assert(items[q as int] == (
                        e.items@[q as int].file_name@,
                        e.items@[q as int].value,
                    ));
                }
                if e.items[q].value < 1 || e.items[q].value > 0x7fff_ffff_ffff_ffffu64 {
                    proof {
                        assert(!rank_items_admissible(items)) by {
                            assert(items[q as int].1 == e.items@[q as int].value);
                        }
                        assert(file.data@ == entry_json(e.name@, items, "rank"@)
                            && !rank_items_admissible(items));
                    }
                    return Err(DbError::BadArchive);
                }
                q = q + 1;
            }
            let ghost pre = self.emotion_tracks@;
            let mut q: usize = 0;
            while q < n
                invariant
                    old(self).wf(),
                    n == e.items@.len(),
                    items == item_views(e.items@),
                    forall|a: int| 0 <= a < n ==> 1 <= (#[trigger] items[a]).1 <= i64::MAX as u64,
                    q <= n,
                    pre == old(self).emotion_tracks@,
                    old(self).same_but_emotion_tracks(*self),
                    self.wf(),
                    self.emotion_tracks@.len() == pre.len() + emo_restore_added(
                        pre,
                        e.name@,
                        items.take(q as int),
                    ).len(),
                    self.emotion_tracks@.subrange(0, pre.len() as int) == pre,
                    forall|a: int|
                        0 <= a < emo_restore_added(pre, e.name@, items.take(q as int)).len() ==> (
                        #[trigger] self.emotion_tracks@[pre.len() + a].emotion@) == e.name@
                            && self.emotion_tracks@[pre.len() + a].hash@ == emo_restore_added(
                            pre,
                            e.name@,
                            items.take(q as int),
                        )[a].0 && self.emotion_tracks@[pre.len() + a].rank == emo_restore_added(
                            pre,
                            e.name@,
                            items.take(q as int),
                        )[a].1,
                decreases n - q,
            {
                let ghost added_pre = emo_restore_added(pre, e.name@, items.take(q as int));
                proof {
                    assert(items.take(q as int + 1).drop_last() =~= items.take(q as int));
                    assert(items.take(q as int + 1).last() == items[q as int]);
                    assert(items[q as int] == (
                        e.items@[q as int].file_name@,
                        e.items@[q as int].value,
                    ));
                }
                let h = crate::utils::hash(e.items[q].file_name.as_str().as_bytes());
                let present = self.find_emo_pair(e.name.as_str(), h.as_str());
                proof {
                    let whole = self.emotion_tracks@;
                    match emo_entry_ix(whole, e.name@, h@) {
                        Some(k) => {
                            lemma_emo_entry_ix_props(whole, e.name@, h@);
                            if k < pre.len() {
                                lemma_emo_entry_ix_found(pre, e.name@, h@, k);
                            } else {
                                let a = k - pre.len();
                                assert(whole[pre.len() + a].hash@ == added_pre[a].0);
                                assert(exists|x: int|
                                    0 <= x < added_pre.len() && (#[trigger] added_pre[x]).0 == h@);
                            }
                        },
                        None => {
                            lemma_emo_entry_ix_props(whole, e.name@, h@);
                            assert(forall|j: int| 0 <= j < pre.len() ==> pre[j] == whole[j]);
                            lemma_emo_entry_ix_none(pre, e.name@, h@);
                            assert forall|x: int|
                                0 <= x < added_pre.len() implies (#[trigger] added_pre[x]).0
                                != h@ by {
                                assert(whole[pre.len() + x].hash@ == added_pre[x].0);
                            }
                        },
                    }
                }
                if present.is_none() {
                    let ghost old_table = self.emotion_tracks@;
                    self.emotion_tracks.push(
                        EmotionEntry { emotion: e.name.clone(), hash: h, rank: e.items[q].value },
                    );
                    proof {
                        let added_now = emo_restore_added(pre, e.name@, items.take(q as int + 1));
                        assert(added_now =~= added_pre.push((h@, items[q as int].1)));
                        assert(self.emotion_tracks@.subrange(0, pre.len() as int) =~= pre);
                        assert forall|a: int, b: int|
                            0 <= a < b < self.emotion_tracks@.len() implies !(
                            (#[trigger] self.emotion_tracks@[a].emotion@)
                                == (#[trigger] self.emotion_tracks@[b].emotion@)
                                && self.emotion_tracks@[a].hash@
                                == self.emotion_tracks@[b].hash@) by {
                            if b == self.emotion_tracks@.len() - 1 {
                                if a < pre.len() {
                                    lemma_emo_entry_ix_props(old_table, e.name@, h@);
                                } else {
                                    let x = a - pre.len();
                                    assert(old_table[pre.len() + x].hash@ == added_pre[x].0);
                                }
                            }
                        }
                    }
                } else {
                    proof {
                        assert(emo_restore_added(pre, e.name@, items.take(q as int + 1))
                            =~= added_pre);
                    }
                }
                q = q + 1;
            }
            proof {
                assert(items.take(n as int) =~= items);
                assert(is_emotion_restore(*old(self), *self, e.name@, items));
                assert(restore_step(*old(self), *self, *file));
            }
            return Ok(());
        }
        Ok(())
    }

    /// Applies a whole archive, file by file in order: on success the final
    /// state is reached from the initial one by applying every file's step;
    /// nothing else is touched. A refused file stops the restore: the files
    /// before it stay applied — each file is its own transaction — and the
    /// error says exactly why that file was refused.
    pub fn restore(&mut self, files: &Vec<ArchiveFile>) -> (r: Result<(), DbError>)
        requires
            old(self).wf(),
        ensures
            final(self).wf(),
            match r {
                Ok(()) => restore_chain(*old(self), *final(self), files@),
                Err(e) => exists|k: int|
                    0 <= k < files@.len() && restore_chain(
                        *old(self),
                        *final(self),
                        files@.take(k),
                    ) && restore_refused(*final(self), #[trigger] files@[k], e),
            },
    {
        let n = files.len();
        let mut i: usize = 0;
        proof {
            assert(files@.take(0) =~= Seq::<ArchiveFile>::empty());
        }
        while i < n
            invariant
                old(self).wf(),
                n == files@.len(),
                i <= n,
                self.wf(),
                restore_chain(*old(self), *self, files@.take(i as int)),
            decreases n - i,
        {
            let ghost pre_state = *self;
            match self.restore_entry(&files[i]) {
                Ok(()) => {
                    proof {
                        lemma_restore_chain_snoc(
                            *old(self),
                            pre_state,
                            *self,
                            files@.take(i as int),
                            files@[i as int],
                        );
                        assert(files@.take(i as int + 1) =~= files@.take(i as int).push(
                            files@[i as int],
                        ));
                    }
                },
                Err(err) => {
                    proof {
                        assert(restore_refused(*self, files@[i as int], err));
                    }
                    return Err(err);
                },
            }
            i = i + 1;
        }
        proof {
            assert(files@.take(n as int) =~= files@);
        }
        Ok(())
    }
}


// ---------------------------------------------------------------------------
// The backup/restore round trip.
// ---------------------------------------------------------------------------

/// Whether every track's hash re-derives from the file name its own `name`
/// and `extension` spell, which holds of a scanned table whenever the file
/// name carries a single extension.
pub open spec fn tracks_hash_consistent(ts: Seq<Track>) -> bool {
    forall|i: int|
        0 <= i < ts.len() ==> (#[trigger] ts[i].hash@) == crate::tracks::name_hash(
            ts[i].name@ + "."@ + ts[i].extension@,
        )
}

proof fn lemma_pl_backup_items_resolved(es: Seq<PlaylistEntry>, ts: Seq<Track>)
    requires
        forall|q: int| 0 <= q < es.len() ==> track_ix(ts, (#[trigger] es[q]).hash@) is Some,
    ensures
        pl_backup_items(es, ts).len() == es.len(),
        forall|q: int|
            0 <= q < es.len() ==> (#[trigger] pl_backup_items(es, ts)[q]).1 == es[q].position && ({
                let ti = track_ix(ts, es[q].hash@)->Some_0;
                pl_backup_items(es, ts)[q].0 == ts[ti].name@ + "."@ + ts[ti].extension@
            }),
    decreases es.len(),
{
    if es.len() > 0 {
        let prior = es.drop_last();
        assert forall|q: int|
            0 <= q < prior.len() implies track_ix(ts, (#[trigger] prior[q]).hash@) is Some by {
            assert(prior[q] == es[q]);
        }
        lemma_pl_backup_items_resolved(prior, ts);
        assert(forall|q: int| 0 <= q < prior.len() ==> prior[q] == es[q]);
        assert(forall|q: int|
            0 <= q < prior.len() ==> pl_backup_items(es, ts)[q] == pl_backup_items(prior, ts)[q]);
    }
}

proof fn lemma_emo_backup_items_exact(es: Seq<EmotionEntry>, ts: Seq<Track>, emo: Seq<char>)
    requires
        forall|q: int| 0 <= q < es.len() ==> (#[trigger] es[q]).emotion@ == emo,
        forall|q: int| 0 <= q < es.len() ==> track_ix(ts, (#[trigger] es[q]).hash@) is Some,
    ensures
        emo_backup_items(es, ts, emo).len() == es.len(),
        forall|q: int|
            0 <= q < es.len() ==> (#[trigger] emo_backup_items(es, ts, emo)[q]).1 == es[q].rank
                && ({
                let ti = track_ix(ts, es[q].hash@)->Some_0;
                emo_backup_items(es, ts, emo)[q].0 == ts[ti].name@ + "."@ + ts[ti].extension@
            }),
    decreases es.len(),
{
    if es.len() > 0 {
        let prior = es.drop_last();
        assert forall|q: int|
            0 <= q < prior.len() implies (#[trigger] prior[q]).emotion@ == emo && track_ix(
                ts,
                prior[q].hash@,
            ) is Some by {
            assert(prior[q] == es[q]);
        }
        lemma_emo_backup_items_exact(prior, ts, emo);
        assert(forall|q: int| 0 <= q < prior.len() ==> prior[q] == es[q]);
        assert(forall|q: int|
            0 <= q < prior.len() ==> emo_backup_items(es, ts, emo)[q] == emo_backup_items(
                prior,
                ts,
                emo,
            )[q]);
    }
}

/// LAW: backing up a playlist and restoring the archive entry reconstructs
/// it. If every membership of the playlist resolves to a track — the same
/// files were rescanned first — and the table's hashes re-derive from the
/// file names, then the restored playlist, named `{original} (Restored)`,
/// carries exactly the original hashes at exactly the original positions.
pub proof fn lemma_playlist_round_trip(db: Db, pre: Db, post: Db, pi: int)
    ensures
        (db.wf() && 0 <= pi < db.playlists@.len() && tracks_hash_consistent(db.tracks@) && (forall|
            q: int,
        |
            0 <= q < db.playlists@[pi].entries@.len() ==> track_ix(
                db.tracks@,
                (#[trigger] db.playlists@[pi].entries@[q]).hash@,
            ) is Some) && is_playlist_restore(
            pre,
            post,
            db.playlists@[pi].name@,
            pl_backup_items(db.playlists@[pi].entries@, db.tracks@),
        )) ==> ({
            let es = db.playlists@[pi].entries@;
            let res = post.playlists@.last().entries@;
            &&& post.playlists@.last().name@ == db.playlists@[pi].name@ + " (Restored)"@
            &&& res.len() == es.len()
            &&& forall|q: int|
                0 <= q < es.len() ==> (#[trigger] res[q].hash@) == es[q].hash@ && res[q].position
                    == es[q].position
        }),
{
    let es = db.playlists@[pi].entries@;
    if db.wf() && 0 <= pi < db.playlists@.len() && tracks_hash_consistent(db.tracks@) && (forall|
        q: int,
    |
        0 <= q < es.len() ==> track_ix(db.tracks@, (#[trigger] es[q]).hash@) is Some)
        && is_playlist_restore(
        pre,
        post,
        db.playlists@[pi].name@,
        pl_backup_items(es, db.tracks@),
    ) {
        lemma_pl_backup_items_resolved(es, db.tracks@);
        let items = pl_backup_items(es, db.tracks@);
        let res = post.playlists@.last().entries@;
        assert forall|q: int|
            0 <= q < es.len() implies (#[trigger] res[q].hash@) == es[q].hash@ && res[q].position
            == es[q].position by {
            lemma_track_ix_props(db.tracks@, es[q].hash@);
            let ti = track_ix(db.tracks@, es[q].hash@)->Some_0;
            assert(db.tracks@[ti].hash@ == es[q].hash@);
            assert(items[q].0 == db.tracks@[ti].name@ + "."@ + db.tracks@[ti].extension@);
            assert(res[q].hash@ == crate::tracks::name_hash(items[q].0));
            assert(db.tracks@[ti].hash@ == crate::tracks::name_hash(
                db.tracks@[ti].name@ + "."@ + db.tracks@[ti].extension@,
            ));
        }
    }
}

proof fn lemma_emo_restore_added_all(
    pre: Seq<EmotionEntry>,
    emo: Seq<char>,
    items: Seq<(Seq<char>, u64)>,
)
    requires
        forall|j: int| 0 <= j < pre.len() ==> (#[trigger] pre[j]).emotion@ != emo,
        forall|a: int, b: int|
            0 <= a < b < items.len() ==> crate::tracks::name_hash((#[trigger] items[a]).0)
                != crate::tracks::name_hash((#[trigger] items[b]).0),
    ensures
        emo_restore_added(pre, emo, items).len() == items.len(),
        forall|q: int|
            0 <= q < items.len() ==> (#[trigger] emo_restore_added(pre, emo, items)[q]).0
                == crate::tracks::name_hash(items[q].0) && emo_restore_added(pre, emo, items)[q].1
                == items[q].1,
    decreases items.len(),
{
    if items.len() > 0 {
        let prior = items.drop_last();
        assert forall|a: int, b: int|
            0 <= a < b < prior.len() implies crate::tracks::name_hash((#[trigger] prior[a]).0)
            != crate::tracks::name_hash((#[trigger] prior[b]).0) by {
            assert(prior[a] == items[a]);
            assert(prior[b] == items[b]);
        }
        lemma_emo_restore_added_all(pre, emo, prior);
        let rest = emo_restore_added(pre, emo, prior);
        let h = crate::tracks::name_hash(items.last().0);
        lemma_emo_entry_ix_props(pre, emo, h);
        match emo_entry_ix(pre, emo, h) {
            Some(k) => {
                assert(pre[k].emotion@ == emo);
                assert(false);
            },
            None => {},
        }
        assert forall|x: int| 0 <= x < rest.len() implies (#[trigger] rest[x]).0 != h by {
            assert(prior[x] == items[x]);
            assert(rest[x].0 == crate::tracks::name_hash(items[x].0));
        }
        assert(forall|q: int| 0 <= q < prior.len() ==> prior[q] == items[q]);
    }
}

/// LAW: backing up a mood and restoring the archive entry reconstructs its
/// rankings identically, under the original mood name. If every association
/// of the mood resolves to a track, the table's hashes re-derive from the
/// file names, and the target store holds no association under that mood
/// yet, the restored associations carry exactly the original hashes at
/// exactly the original ranks.
pub proof fn lemma_emotion_round_trip(db: Db, pre: Db, post: Db, emo: Seq<char>)
    ensures
        (db.wf() && tracks_hash_consistent(db.tracks@) && (forall|q: int|
            0 <= q < db.emotion_tracks@.len() ==> (#[trigger] db.emotion_tracks@[q]).emotion@
                == emo) && (forall|q: int|
            0 <= q < db.emotion_tracks@.len() ==> track_ix(
                db.tracks@,
                (#[trigger] db.emotion_tracks@[q]).hash@,
            ) is Some) && (forall|j: int|
            0 <= j < pre.emotion_tracks@.len() ==> (#[trigger] pre.emotion_tracks@[j]).emotion@
                != emo) && is_emotion_restore(
            pre,
            post,
            emo,
            emo_backup_items(db.emotion_tracks@, db.tracks@, emo),
        )) ==> ({
            let es = db.emotion_tracks@;
            let base = pre.emotion_tracks@.len();
            &&& post.emotion_tracks@.len() == base + es.len()
            &&& forall|q: int|
                0 <= q < es.len() ==> (#[trigger] post.emotion_tracks@[base + q]).emotion@ == emo
                    && post.emotion_tracks@[base + q].hash@ == es[q].hash@
                    && post.emotion_tracks@[base + q].rank == es[q].rank
        }),
{
    let es = db.emotion_tracks@;
    let base = pre.emotion_tracks@.len();
    if db.wf() && tracks_hash_consistent(db.tracks@) && (forall|q: int|
        0 <= q < es.len() ==> (#[trigger] es[q]).emotion@ == emo) && (forall|q: int|
        0 <= q < es.len() ==> track_ix(db.tracks@, (#[trigger] es[q]).hash@) is Some) && (forall|
        j: int,
    |
        0 <= j < pre.emotion_tracks@.len() ==> (#[trigger] pre.emotion_tracks@[j]).emotion@ != emo)
        && is_emotion_restore(pre, post, emo, emo_backup_items(es, db.tracks@, emo)) {
        lemma_emo_backup_items_exact(es, db.tracks@, emo);
        let items = emo_backup_items(es, db.tracks@, emo);
        assert forall|a: int, b: int|
            0 <= a < b < items.len() implies crate::tracks::name_hash((#[trigger] items[a]).0)
            != crate::tracks::name_hash((#[trigger] items[b]).0) by {
            lemma_track_ix_props(db.tracks@, es[a].hash@);
            lemma_track_ix_props(db.tracks@, es[b].hash@);
            let ta = track_ix(db.tracks@, es[a].hash@)->Some_0;
            let tb = track_ix(db.tracks@, es[b].hash@)->Some_0;
            assert(items[a].0 == db.tracks@[ta].name@ + "."@ + db.tracks@[ta].extension@);
            assert(items[b].0 == db.tracks@[tb].name@ + "."@ + db.tracks@[tb].extension@);
            assert(crate::tracks::name_hash(items[a].0) == db.tracks@[ta].hash@);
            assert(crate::tracks::name_hash(items[b].0) == db.tracks@[tb].hash@);
            assert(db.tracks@[ta].hash@ == es[a].hash@);
            assert(db.tracks@[tb].hash@ == es[b].hash@);
            assert(!(es[a].emotion@ == es[b].emotion@ && es[a].hash@ == es[b].hash@));
        }
        lemma_emo_restore_added_all(pre.emotion_tracks@, emo, items);
        let added = emo_restore_added(pre.emotion_tracks@, emo, items);
        assert forall|q: int|
            0 <= q < es.len() implies (#[trigger] post.emotion_tracks@[base + q]).emotion@ == emo
            && post.emotion_tracks@[base + q].hash@ == es[q].hash@ && post.emotion_tracks@[base
            + q].rank == es[q].rank by {
            lemma_track_ix_props(db.tracks@, es[q].hash@);
            let ti = track_ix(db.tracks@, es[q].hash@)->Some_0;
            assert(added[q].0 == crate::tracks::name_hash(items[q].0));
            assert(items[q].0 == db.tracks@[ti].name@ + "."@ + db.tracks@[ti].extension@);
            assert(crate::tracks::name_hash(items[q].0) == db.tracks@[ti].hash@);
            assert(db.tracks@[ti].hash@ == es[q].hash@);
            assert(items[q].1 == es[q].rank);
        }
    }
}


// ---------------------------------------------------------------------------
// The raw table row and its conversion to a track.
// ---------------------------------------------------------------------------

/// One raw row of the track table, as the storage layer hands it over:
/// integers still signed, join columns optional.
#[derive(Debug)]
pub struct TrackRow {
    pub hash: String,
    pub path: String,
    pub name: String,
    pub extension: String,
    pub duration: i64,
    pub cover: Option<String>,
    pub title: Option<String>,
    pub artist: Option<String>,
    pub album: Option<String>,
    pub album_artist: Option<String>,
    pub date: Option<String>,
    pub genre: Option<String>,
    pub position: Option<i64>,
    pub rank: Option<i64>,
}

impl From<TrackRow> for Track {
    /// A raw row as a track: a negative duration reads as zero, negative
    /// positions and ranks as absent.
    fn from(row: TrackRow) -> (r: Track) {
        Track {
            hash: row.hash,
            path: row.path,
            name: row.name,
            extension: row.extension,
            duration: if row.duration >= 0 {
                row.duration as u64
            } else {
                0
            },
            cover: row.cover,
            title: row.title,
            artist: row.artist,
            album: row.album,
            album_artist: row.album_artist,
            date: row.date,
            genre: row.genre,
            position: match row.position {
                Some(p) => if p >= 0 {
                    Some(p as u64)
                } else {
                    None
                },
                None => None,
            },
            rank: match row.rank {
                Some(p) => if p >= 0 {
                    Some(p as u64)
                } else {
                    None
                },
                None => None,
            },
        }
    }
}

impl vstd::std_specs::convert::FromSpecImpl<TrackRow> for Track {
    open spec fn obeys_from_spec() -> bool {
        true
    }

    open spec fn from_spec(row: TrackRow) -> Track {
        Track {
            hash: row.hash,
            path: row.path,
            name: row.name,
            extension: row.extension,
            duration: if row.duration >= 0 {
                row.duration as u64
            } else {
                0
            },
            cover: row.cover,
            title: row.title,
            artist: row.artist,
            album: row.album,
            album_artist: row.album_artist,
            date: row.date,
            genre: row.genre,
            position: match row.position {
                Some(p) => if p >= 0 {
                    Some(p as u64)
                } else {
                    None
                },
                None => None,
            },
            rank: match row.rank {
                Some(p) => if p >= 0 {
                    Some(p as u64)
                } else {
                    None
                },
                None => None,
            },
        }
    }
}


} // verus!
