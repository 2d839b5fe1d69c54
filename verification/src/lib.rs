//! Acquisition-and-selection pipeline for music-release metadata:
//! normalizing tracker payloads into candidate releases, selecting one
//! preferred audio variant per work, persisting releases idempotently,
//! deduplicating against a media library and a download directory,
//! prioritizing the remaining pool, and driving a fallback-aware
//! download state machine.

use vstd::prelude::*;

pub mod text;
pub mod select;
pub mod normalize;
pub mod store;
pub mod stats;
pub mod dedup;
pub mod priority;
pub mod download;

pub use normalize::{ArtistData, CollageData, GroupData, TorrentGroupArtist, TorrentGroupCollage};
pub use stats::DatabaseStats;
pub use store::Database;

verus! {

/// Kind of catalog entity a fetch is keyed by.
#[derive(Clone, Copy, Debug, PartialEq, Eq, Structural)]
pub enum Type {
    Collage,
    Artist,
}

impl Type {
    /// Numeric code used when the fetch audit record is persisted.
    pub fn code(&self) -> (r: u32)
        ensures
            r == (if self is Artist { 0u32 } else { 1u32 }),
    {
        match self {
            Type::Artist => 0,
            Type::Collage => 1,
        }
    }

    /// Lower-case label of the catalog kind, for presentation.
    pub fn label(&self) -> (r: &'static str)
        ensures
            self is Collage ==> r@ == "collage"@,
            self is Artist ==> r@ == "artist"@,
    {
        match self {
            Type::Collage => "collage",
            Type::Artist => "artist",
        }
    }
}

/// Failures of the pipeline core.
///
/// An `Api` error carries the non-success status string of a tracker
/// response; `Parse` marks a malformed numeric field in a payload;
/// `Protocol` marks a download response whose content-disposition does
/// not name a file.
#[derive(Debug)]
pub enum Error {
    Api(String),
    Parse,
    Protocol,
}

/// One concrete media variant of a work, as persisted in the pool.
#[derive(Debug)]
pub struct Torrent {
    pub id: u32,
    pub album_name: String,
    pub artist_names: String,
    pub year: u32,
    pub release_type: u32,
    pub media: String,
    pub format: String,
    pub encoding: String,
    pub file_count: u32,
    pub size: u64,
    pub weight: u32,
}

impl Clone for Torrent {
    fn clone(&self) -> (r: Self)
        ensures
            r == *self,
    {
        Torrent {
            id: self.id,
            album_name: self.album_name.clone(),
            artist_names: self.artist_names.clone(),
            year: self.year,
            release_type: self.release_type,
            media: self.media.clone(),
            format: self.format.clone(),
            encoding: self.encoding.clone(),
            file_count: self.file_count,
            size: self.size,
            weight: self.weight,
        }
    }
}

/// A snapshot row of the external media library: one album with its
/// artist string. Used only as a matching target by the dedup filter.
#[derive(Debug)]
pub struct Album {
    pub name: String,
    pub artists: String,
}

impl Clone for Album {
    fn clone(&self) -> (r: Self)
        ensures
            r == *self,
    {
        Album { name: self.name.clone(), artists: self.artists.clone() }
    }
}

} // verus!
