use vstd::prelude::*;
use vstd::utf8::encode_utf8;

use crate::strings::{
    eq_ignore_ascii_case, first_index_of, str_eq_ignore_ascii_case, find_char, last_index_of,
    rfind_char, strip_suffix_all, trim_end_matches,
};
use crate::utils::blake3_hex;

verus! {

// ---------------------------------------------------------------------------
// The track record.
// ---------------------------------------------------------------------------

/// One indexed audio file. `hash` is derived from the file name alone, so it
/// is stable across rescans as long as the name is unchanged; `position` and
/// `rank` are only filled by playlist and mood queries.
#[derive(Debug)]
pub struct Track {
    pub hash: String,
    pub path: String,
    pub name: String,
    pub extension: String,
    pub duration: u64,
    pub cover: Option<String>,
    pub title: Option<String>,
    pub artist: Option<String>,
    pub album: Option<String>,
    pub album_artist: Option<String>,
    pub date: Option<String>,
    pub genre: Option<String>,
    pub position: Option<u64>,
    pub rank: Option<u64>,
}

pub fn clone_opt_string(o: &Option<String>) -> (r: Option<String>)
    ensures
        r == *o,
{
    match o {
        Option::None => Option::None,
        Option::Some(s) => Option::Some(s.clone()),
    }
}

impl Clone for Track {
    fn clone(&self) -> (r: Self)
        ensures
            r == *self,
    {
        Track {
            hash: self.hash.clone(),
            path: self.path.clone(),
            name: self.name.clone(),
            extension: self.extension.clone(),
            duration: self.duration,
            cover: clone_opt_string(&self.cover),
            title: clone_opt_string(&self.title),
            artist: clone_opt_string(&self.artist),
            album: clone_opt_string(&self.album),
            album_artist: clone_opt_string(&self.album_artist),
            date: clone_opt_string(&self.date),
            genre: clone_opt_string(&self.genre),
            position: self.position,
            rank: self.rank,
        }
    }
}

/// One album row of the album listing: the album name and one representative
/// cover.
#[derive(Debug)]
pub struct Album {
    pub name: String,
    pub cover: Option<String>,
}

impl Clone for Album {
    fn clone(&self) -> (r: Self)
        ensures
            r == *self,
    {
        Album { name: self.name.clone(), cover: clone_opt_string(&self.cover) }
    }
}

/// The lyrics attached to one track.
#[derive(Debug)]
pub struct Lyrics {
    pub plain: String,
    pub synced: String,
}

impl Clone for Lyrics {
    fn clone(&self) -> (r: Self)
        ensures
            r == *self,
    {
        Lyrics { plain: self.plain.clone(), synced: self.synced.clone() }
    }
}

// ---------------------------------------------------------------------------
// What the container probe hands the indexer: duration parameters, tags and
// embedded images, all as plain values.
// ---------------------------------------------------------------------------

/// The named tag keys the indexer keeps; every other key is `Other` and is
/// discarded.
#[derive(Debug, Clone, Copy, PartialEq, Eq, Structural)]
pub enum TagKey {
    Title,
    Artist,
    Album,
    AlbumArtist,
    Date,
    Genre,
    Other,
}

#[derive(Debug)]
pub struct Tag {
    pub key: TagKey,
    pub value: String,
}

#[derive(Debug, Clone, Copy, PartialEq, Eq, Structural)]
pub enum VisualKind {
    FrontCover,
    BackCover,
    Other,
}

/// One embedded image: its declared role, its media type (`image/png` and the
/// like) and its raw bytes.
#[derive(Debug)]
pub struct Visual {
    pub kind: VisualKind,
    pub media_type: String,
    pub data: Vec<u8>,
}

/// Everything the container probe yields for one file.
#[derive(Debug)]
pub struct ProbeData {
    pub n_frames: Option<u64>,
    pub sample_rate: Option<u32>,
    pub tags: Vec<Tag>,
    pub visuals: Vec<Visual>,
}

// ---------------------------------------------------------------------------
// The supported-extension allow-list.
// ---------------------------------------------------------------------------

pub open spec fn spec_supported_extension(e: Seq<char>) -> bool {
    ||| eq_ignore_ascii_case(e, "mp3"@)
    ||| eq_ignore_ascii_case(e, "m4a"@)
    ||| eq_ignore_ascii_case(e, "flac"@)
    ||| eq_ignore_ascii_case(e, "wav"@)
    ||| eq_ignore_ascii_case(e, "ogg"@)
    ||| eq_ignore_ascii_case(e, "opus"@)
    ||| eq_ignore_ascii_case(e, "aac"@)
    ||| eq_ignore_ascii_case(e, "aiff"@)
}

/// Whether files with this extension are scanned at all; the comparison
/// ignores ASCII case, as the scanner's allow-list does.
pub fn is_supported_extension(ext: &str) -> (r: bool)
    ensures
        r == spec_supported_extension(ext@),
{
    if str_eq_ignore_ascii_case(ext, "mp3") {
        return true;
    }
    if str_eq_ignore_ascii_case(ext, "m4a") {
        return true;
    }
    if str_eq_ignore_ascii_case(ext, "flac") {
        return true;
    }
    if str_eq_ignore_ascii_case(ext, "wav") {
        return true;
    }
    if str_eq_ignore_ascii_case(ext, "ogg") {
        return true;
    }
    if str_eq_ignore_ascii_case(ext, "opus") {
        return true;
    }
    if str_eq_ignore_ascii_case(ext, "aac") {
        return true;
    }
    if str_eq_ignore_ascii_case(ext, "aiff") {
        return true;
    }
    false
}

// ---------------------------------------------------------------------------
// Cover selection: the front cover is preferred, then the back cover, then
// the first other image; images without bytes are skipped.
// ---------------------------------------------------------------------------

pub open spec fn last_of_kind(vs: Seq<Visual>, k: VisualKind) -> Option<int>
    decreases vs.len(),
{
    if vs.len() == 0 {
        None
    } else if vs.last().kind == k {
        Some(vs.len() - 1)
    } else {
        last_of_kind(vs.drop_last(), k)
    }
}

pub open spec fn is_fallback_visual(v: Visual) -> bool {
    v.kind == VisualKind::Other && v.data@.len() > 0
}

pub open spec fn first_fallback(vs: Seq<Visual>) -> Option<int>
    decreases vs.len(),
{
    if vs.len() == 0 {
        None
    } else if is_fallback_visual(vs[0]) {
        Some(0)
    } else {
        match first_fallback(vs.skip(1)) {
            Some(i) => Some(i + 1),
            None => None,
        }
    }
}

pub open spec fn has_bytes_at(vs: Seq<Visual>, r: Option<int>) -> bool {
    match r {
        Some(i) => vs[i].data@.len() > 0,
        None => false,
    }
}

/// The index of the image the indexer keeps, if any: the last front cover if
/// it has bytes, else the last back cover if it has bytes, else the first
/// other image with bytes.
pub open spec fn chosen_cover(vs: Seq<Visual>) -> Option<int> {
    if has_bytes_at(vs, last_of_kind(vs, VisualKind::FrontCover)) {
        last_of_kind(vs, VisualKind::FrontCover)
    } else if has_bytes_at(vs, last_of_kind(vs, VisualKind::BackCover)) {
        last_of_kind(vs, VisualKind::BackCover)
    } else {
        first_fallback(vs)
    }
}

fn rfind_kind(visuals: &Vec<Visual>, k: VisualKind) -> (r: Option<usize>)
    ensures
        match r {
            Some(i) => i < visuals@.len() && last_of_kind(visuals@, k) == Some(i as int),
            None => last_of_kind(visuals@, k) is None,
        },
{
    let len = visuals.len();
    let mut i: usize = len;
    proof {
        assert(visuals@.take(len as int) =~= visuals@);
    }
    while i > 0
        invariant
            len == visuals@.len(),
            i <= len,
            last_of_kind(visuals@, k) == last_of_kind(visuals@.take(i as int), k),
        decreases i,
    {
        i = i - 1;
        if visuals[i].kind == k {
            proof {
                assert(visuals@.take(i as int + 1).last() == visuals@[i as int]);
            }
            return Some(i);
        }
        proof {
            assert(visuals@.take(i as int + 1).drop_last() =~= visuals@.take(i as int));
            assert(visuals@.take(i as int + 1).last() == visuals@[i as int]);
        }
    }
    proof {
        assert(visuals@.take(0) =~= Seq::<Visual>::empty());
    }
    None
}

proof fn lemma_first_fallback_found(vs: Seq<Visual>, i: int)
    requires
        0 <= i < vs.len(),
        is_fallback_visual(vs[i]),
        forall|j: int| 0 <= j < i ==> !is_fallback_visual(vs[j]),
    ensures
        first_fallback(vs) == Some(i),
    decreases i,
{
    if i > 0 {
        lemma_first_fallback_found(vs.skip(1), i - 1);
    }
}

proof fn lemma_first_fallback_none(vs: Seq<Visual>)
    requires
        forall|j: int| 0 <= j < vs.len() ==> !is_fallback_visual(vs[j]),
    ensures
        first_fallback(vs) is None,
    decreases vs.len(),
{
    if vs.len() > 0 {
        lemma_first_fallback_none(vs.skip(1));
    }
}

fn find_fallback(visuals: &Vec<Visual>) -> (r: Option<usize>)
    ensures
        match r {
            Some(i) => i < visuals@.len() && first_fallback(visuals@) == Some(i as int),
            None => first_fallback(visuals@) is None,
        },
{
    let len = visuals.len();
    let mut i: usize = 0;
    while i < len
        invariant
            len == visuals@.len(),
            i <= len,
            forall|j: int| 0 <= j < i ==> !is_fallback_visual(visuals@[j]),
        decreases len - i,
    {
        if visuals[i].kind == VisualKind::Other && visuals[i].data.len() > 0 {
            proof {
                lemma_first_fallback_found(visuals@, i as int);
            }
            return Some(i);
        }
        i = i + 1;
    }
    proof {
        lemma_first_fallback_none(visuals@);
    }
    None
}

/// Which embedded image to keep, by index, following the preference order.
pub fn choose_cover(visuals: &Vec<Visual>) -> (r: Option<usize>)
    ensures
        match r {
            Some(i) => i < visuals@.len() && chosen_cover(visuals@) == Some(i as int),
            None => chosen_cover(visuals@) is None,
        },
{
    if let Some(i) = rfind_kind(visuals, VisualKind::FrontCover) {
        if visuals[i].data.len() > 0 {
            return Some(i);
        }
    }
    if let Some(i) = rfind_kind(visuals, VisualKind::BackCover) {
        if visuals[i].data.len() > 0 {
            return Some(i);
        }
    }
    find_fallback(visuals)
}

// ---------------------------------------------------------------------------
// The cover file's extension and path.
// ---------------------------------------------------------------------------

/// The file extension derived from a declared media type: what follows the
/// first `/` (so `image/png` gives `png`); `jpg` when there is no `/`.
pub open spec fn image_ext(media_type: Seq<char>) -> Seq<char> {
    match first_index_of(media_type, '/') {
        Some(i) => media_type.skip(i + 1),
        None => "jpg"@,
    }
}

pub fn cover_image_ext(media_type: &str) -> (r: String)
    ensures
        r@ == image_ext(media_type@),
{
    match find_char(media_type, '/') {
        Some(i) => {
            let len = media_type.unicode_len();
            let tail = media_type.substring_char(i + 1, len);
            proof {
                assert(tail@ =~= media_type@.skip(i as int + 1));
            }
            String::from_str(tail)
        },
        None => String::from_str("jpg"),
    }
}

/// Where the chosen image is written: `{covers_dir}/{hash}.{ext}`.
pub open spec fn cover_path(covers_dir: Seq<char>, hash: Seq<char>, media_type: Seq<char>) -> Seq<
    char,
> {
    covers_dir + "/"@ + hash + "."@ + image_ext(media_type)
}

pub fn cover_file_path(covers_dir: &str, hash: &str, media_type: &str) -> (r: String)
    ensures
        r@ == cover_path(covers_dir@, hash@, media_type@),
{
    let mut r = String::from_str(covers_dir);
    r.append("/");
    r.append(hash);
    r.append(".");
    let ext = cover_image_ext(media_type);
    r.append(ext.as_str());
    r
}

// ---------------------------------------------------------------------------
// Deriving a track from a path and its probe.
// ---------------------------------------------------------------------------

/// What follows the last `/` of a path; the whole path when it has none.
pub open spec fn spec_file_name(p: Seq<char>) -> Seq<char> {
    match last_index_of(p, '/') {
        Some(i) => p.skip(i + 1),
        None => p,
    }
}

/// What follows the last `.` of a file name, provided that `.` is not its
/// first character; `None` otherwise.
pub open spec fn spec_extension(f: Seq<char>) -> Option<Seq<char>> {
    match last_index_of(f, '.') {
        Some(i) => if i > 0 {
            Some(f.skip(i + 1))
        } else {
            None
        },
        None => None,
    }
}

/// The track identifier: the digest of the file name's UTF-8 bytes.
pub open spec fn name_hash(file_name: Seq<char>) -> Seq<char> {
    blake3_hex(encode_utf8(file_name))
}

/// Whole seconds of audio: frames divided by sample rate, zero when either
/// is unknown.
pub open spec fn spec_duration(n_frames: Option<u64>, sample_rate: Option<u32>) -> int {
    match (n_frames, sample_rate) {
        (Some(n), Some(s)) => n as int / s as int,
        _ => 0,
    }
}

/// The value of the last tag with key `k`, if any.
pub open spec fn tag_value(tags: Seq<Tag>, k: TagKey) -> Option<Seq<char>>
    decreases tags.len(),
{
    if tags.len() == 0 {
        None
    } else if tags.last().key == k {
        Some(tags.last().value@)
    } else {
        tag_value(tags.drop_last(), k)
    }
}

pub open spec fn view_opt(o: Option<String>) -> Option<Seq<char>> {
    match o {
        Some(s) => Some(s@),
        None => None,
    }
}

#[derive(Debug, Clone, Copy, PartialEq, Eq, Structural)]
pub enum TrackError {
    MissingExtension,
}

impl TrackError {
    pub open spec fn spec_message(self) -> Seq<char> {
        "missing file extension"@
    }

    /// The diagnostic the scan report shows for this failure.
    pub fn message(&self) -> (r: String)
        ensures
            r@ == self.spec_message(),
    {
        String::from_str("missing file extension")
    }
}

/// Everything `Track::new` states of a produced track: `wrote` is the index
/// of the embedded image the caller still has to write to `t.cover`'s path.
pub open spec fn track_from_probe(
    path: Seq<char>,
    covers_dir: Seq<char>,
    probe: ProbeData,
    t: Track,
    wrote: Option<usize>,
) -> bool {
    let f = spec_file_name(path);
    match spec_extension(f) {
        Some(ext) => {
            &&& t.path@ == path
            &&& t.extension@ == ext
            &&& t.name@ == strip_suffix_all(f, "."@ + ext)
            &&& t.hash@ == name_hash(f)
            &&& t.duration as int == spec_duration(probe.n_frames, probe.sample_rate)
            &&& view_opt(t.title) == tag_value(probe.tags@, TagKey::Title)
            &&& view_opt(t.artist) == tag_value(probe.tags@, TagKey::Artist)
            &&& view_opt(t.album) == tag_value(probe.tags@, TagKey::Album)
            &&& view_opt(t.album_artist) == tag_value(probe.tags@, TagKey::AlbumArtist)
            &&& view_opt(t.date) == tag_value(probe.tags@, TagKey::Date)
            &&& view_opt(t.genre) == tag_value(probe.tags@, TagKey::Genre)
            &&& match wrote {
                Some(i) => {
                    &&& chosen_cover(probe.visuals@) == Some(i as int)
                    &&& view_opt(t.cover) == Some(
                        cover_path(covers_dir, name_hash(f), probe.visuals@[i as int].media_type@),
                    )
                },
                None => chosen_cover(probe.visuals@) is None && t.cover is None,
            }
            &&& t.position is None
            &&& t.rank is None
        },
        None => false,
    }
}

impl Track {
    /// Derives the track record for one file: identity from the file name,
    /// duration from the probe's frame count and sample rate, named fields
    /// from the tag list, and the choice of embedded cover image.  The caller
    /// writes the chosen image's bytes to the track's cover path.
    pub fn new(path: &str, covers_dir: &str, probe: &ProbeData) -> (r: Result<
        (Track, Option<usize>),
        TrackError,
    >)
        requires
            !(probe.n_frames is Some && probe.sample_rate == Some(0u32)),
        ensures
            match r {
                Ok(p) => track_from_probe(path@, covers_dir@, *probe, p.0, p.1),
                Err(e) => e == TrackError::MissingExtension && spec_extension(
                    spec_file_name(path@),
                ) is None,
            },
    {
        let path_len = s_len(path);
        let file_name: &str = match rfind_char(path, '/') {
            Some(i) => {
                let t = path.substring_char(i + 1, path_len);
                proof {
                    assert(t@ =~= path@.skip(i as int + 1));
                }
                t
            },
            None => path,
        };
        let fn_len = s_len(file_name);
        let extension: &str = match rfind_char(file_name, '.') {
            Some(i) => {
                if i > 0 {
                    let e = file_name.substring_char(i + 1, fn_len);
                    proof {
                        assert(e@ =~= file_name@.skip(i as int + 1));
                    }
                    e
                } else {
                    return Err(TrackError::MissingExtension);
                }
            },
            None => {
                return Err(TrackError::MissingExtension);
            },
        };

        let mut suffix = String::from_str(".");
        suffix.append(extension);
        let name = trim_end_matches(file_name, suffix.as_str());

        let hash = crate::utils::hash(file_name.as_bytes());

        let duration: u64 = match (probe.n_frames, probe.sample_rate) {
            (Some(n), Some(s)) => n / (s as u64),
            _ => 0,
        };

        let mut title: Option<String> = None;
        let mut artist: Option<String> = None;
        let mut album: Option<String> = None;
        let mut album_artist: Option<String> = None;
        let mut date: Option<String> = None;
        let mut genre: Option<String> = None;

        let tag_count = probe.tags.len();
        let mut i: usize = 0;
        proof {
            assert(probe.tags@.take(0) =~= Seq::<Tag>::empty());
        }
        while i < tag_count
            invariant
                tag_count == probe.tags@.len(),
                i <= tag_count,
                view_opt(title) == tag_value(probe.tags@.take(i as int), TagKey::Title),
                view_opt(artist) == tag_value(probe.tags@.take(i as int), TagKey::Artist),
                view_opt(album) == tag_value(probe.tags@.take(i as int), TagKey::Album),
                view_opt(album_artist) == tag_value(probe.tags@.take(i as int), TagKey::AlbumArtist),
                view_opt(date) == tag_value(probe.tags@.take(i as int), TagKey::Date),
                view_opt(genre) == tag_value(probe.tags@.take(i as int), TagKey::Genre),
            decreases tag_count - i,
        {
            proof {
                assert(probe.tags@.take(i as int + 1).drop_last() =~= probe.tags@.take(i as int));
                assert(probe.tags@.take(i as int + 1).last() == probe.tags@[i as int]);
            }
            let tag = &probe.tags[i];
            match tag.key {
                TagKey::Title => title = Some(tag.value.clone()),
                TagKey::Artist => artist = Some(tag.value.clone()),
                TagKey::Album => album = Some(tag.value.clone()),
                TagKey::AlbumArtist => album_artist = Some(tag.value.clone()),
                TagKey::Date => date = Some(tag.value.clone()),
                TagKey::Genre => genre = Some(tag.value.clone()),
                TagKey::Other => {},
            }
            i = i + 1;
        }
        proof {
            assert(probe.tags@.take(tag_count as int) =~= probe.tags@);
        }

        let wrote = choose_cover(&probe.visuals);
        let cover: Option<String> = match wrote {
            Some(ci) => Some(
                cover_file_path(covers_dir, hash.as_str(), probe.visuals[ci].media_type.as_str()),
            ),
            None => None,
        };

        let track = Track {
            hash,
            path: String::from_str(path),
            name,
            extension: String::from_str(extension),
            duration,
            cover,
            title,
            artist,
            album,
            album_artist,
            date,
            genre,
            position: None,
            rank: None,
        };
        Ok((track, wrote))
    }
}

/// LAW: a track's identity depends on its file name alone. Two derivations
/// from paths that spell the same file name — whatever directory each sits
/// in, whatever their probes yielded — give the same hash, which is what
/// lets playlist and mood associations survive a rescan of unchanged
/// names.
pub proof fn lemma_hash_depends_on_name_alone(
    p1: Seq<char>,
    covers1: Seq<char>,
    probe1: ProbeData,
    t1: Track,
    w1: Option<usize>,
    p2: Seq<char>,
    covers2: Seq<char>,
    probe2: ProbeData,
    t2: Track,
    w2: Option<usize>,
)
    ensures
        (track_from_probe(p1, covers1, probe1, t1, w1) && track_from_probe(
            p2,
            covers2,
            probe2,
            t2,
            w2,
        ) && spec_file_name(p1) == spec_file_name(p2)) ==> t1.hash@ == t2.hash@,
{
}

/// Stripping stops after one step when the remainder no longer ends in the
/// suffix: the stripped name plus the suffix then re-spell the original.
pub proof fn lemma_strip_once(f: Seq<char>, suffix: Seq<char>)
    ensures
        (suffix.len() > 0 && f.len() >= suffix.len() && f.subrange(
            f.len() - suffix.len(),
            f.len() as int,
        ) == suffix && !(f.len() >= 2 * suffix.len() && f.subrange(
            f.len() - 2 * suffix.len(),
            f.len() - suffix.len(),
        ) == suffix)) ==> strip_suffix_all(f, suffix) + suffix == f,
{
    if suffix.len() > 0 && f.len() >= suffix.len() && f.subrange(
        f.len() - suffix.len(),
        f.len() as int,
    ) == suffix && !(f.len() >= 2 * suffix.len() && f.subrange(
        f.len() - 2 * suffix.len(),
        f.len() - suffix.len(),
    ) == suffix) {
        let g = f.take(f.len() - suffix.len());
        assert(strip_suffix_all(f, suffix) == strip_suffix_all(g, suffix));
        if g.len() >= suffix.len() {
            assert(g.subrange(g.len() - suffix.len(), g.len() as int) =~= f.subrange(
                f.len() - 2 * suffix.len(),
                f.len() - suffix.len(),
            ));
            assert(g.subrange(g.len() - suffix.len(), g.len() as int) != suffix);
        }
        assert(strip_suffix_all(g, suffix) == g);
        assert(g + suffix =~= f);
    }
}

/// LAW: a scan establishes the hash consistency the backup round trip
/// assumes, for every file whose name carries its extension once: when the
/// derived name and extension re-spell the file name, the track's hash is
/// the digest of exactly that spelling.
pub proof fn lemma_scan_hash_consistent(
    path: Seq<char>,
    covers_dir: Seq<char>,
    probe: ProbeData,
    t: Track,
    wrote: Option<usize>,
)
    ensures
        (track_from_probe(path, covers_dir, probe, t, wrote) && t.name@ + "."@ + t.extension@
            == spec_file_name(path)) ==> t.hash@ == name_hash(t.name@ + "."@ + t.extension@),
{
}

fn s_len(s: &str) -> (r: usize)
    ensures
        r == s@.len(),
{
    s.unicode_len()
}

// ---------------------------------------------------------------------------
// Aggregating one scan: successes become the track batch, failures become
// report lines, and no file is half-kept.
// ---------------------------------------------------------------------------

/// What extraction yielded for one file: the track, or the failure text.
#[derive(Debug)]
pub struct FileOutcome {
    pub path: String,
    pub outcome: Result<Track, String>,
}

/// One failure line of the scan report: the path, then what went wrong.
pub open spec fn error_line(path: Seq<char>, message: Seq<char>) -> Seq<char> {
    path + ": "@ + message
}

pub open spec fn scan_tracks(outs: Seq<FileOutcome>) -> Seq<Track>
    decreases outs.len(),
{
    if outs.len() == 0 {
        Seq::empty()
    } else {
        let rest = scan_tracks(outs.drop_last());
        match outs.last().outcome {
            Ok(t) => rest.push(t),
            Err(_) => rest,
        }
    }
}

pub open spec fn scan_errors(outs: Seq<FileOutcome>) -> Seq<Seq<char>>
    decreases outs.len(),
{
    if outs.len() == 0 {
        Seq::empty()
    } else {
        let rest = scan_errors(outs.drop_last());
        match outs.last().outcome {
            Ok(_) => rest,
            Err(m) => rest.push(error_line(outs.last().path@, m@)),
        }
    }
}

/// LAW: a scan of N readable and M failing files yields exactly N tracks
/// and M report lines — every file lands in exactly one of the two lists,
/// so the report's total is the number of files seen.
pub proof fn lemma_scan_partitions(outs: Seq<FileOutcome>)
    ensures
        scan_tracks(outs).len() + scan_errors(outs).len() == outs.len(),
    decreases outs.len(),
{
    if outs.len() > 0 {
        lemma_scan_partitions(outs.drop_last());
    }
}

/// Splits per-file outcomes into the track batch and the failure lines: each
/// file lands in exactly one of the two, in input order.
pub fn scan(outcomes: &Vec<FileOutcome>) -> (r: (Vec<Track>, Vec<String>))
    ensures
        r.0@ == scan_tracks(outcomes@),
        r.1@.map_values(|s: String| s@) == scan_errors(outcomes@),
{
    let mut tracks: Vec<Track> = Vec::new();
    let mut errors: Vec<String> = Vec::new();
    let len = outcomes.len();
    let mut i: usize = 0;
    proof {
        assert(outcomes@.take(0) =~= Seq::<FileOutcome>::empty());
        assert(errors@.map_values(|s: String| s@) =~= scan_errors(outcomes@.take(0)));
    }
    while i < len
        invariant
            len == outcomes@.len(),
            i <= len,
            tracks@ == scan_tracks(outcomes@.take(i as int)),
            errors@.map_values(|s: String| s@) == scan_errors(outcomes@.take(i as int)),
        decreases len - i,
    {
        proof {
            assert(outcomes@.take(i as int + 1).drop_last() =~= outcomes@.take(i as int));
            assert(outcomes@.take(i as int + 1).last() == outcomes@[i as int]);
        }
        let out = &outcomes[i];
        match &out.outcome {
            Ok(t) => {
                tracks.push(t.clone());
            },
            Err(m) => {
                let mut line = String::from_str(out.path.as_str());
                line.append(": ");
                line.append(m.as_str());
                errors.push(line);
                proof {
                    assert(errors@.map_values(|s: String| s@) =~= scan_errors(
                        outcomes@.take(i as int + 1),
                    ));
                }
            },
        }
        i = i + 1;
    }
    proof {
        assert(outcomes@.take(len as int) =~= outcomes@);
    }
    (tracks, errors)
}

} // verus!
