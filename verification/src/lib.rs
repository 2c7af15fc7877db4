//! A verified music-library store.
//!
//! The crate indexes audio files into a track table keyed by a hash of the
//! file name, keeps named ordered playlists whose positions always read
//! `0..count-1`, keeps per-mood rank counters, and serializes playlists and
//! moods into a portable archive that restores against a freshly rescanned
//! library. The side modules carry the art index and the character and
//! material catalogue of the companion game overlay.

pub mod art;
pub mod backup;
pub mod db;
pub mod genshin;
pub mod sorting;
pub mod strings;
pub mod tracks;
pub mod utils;

pub use utils::hash;
