//! Catalog normalization: flattening a fetched collage or artist
//! payload into per-work candidate lists, decoding HTML entities and
//! coercing string-typed numeric fields.

use vstd::prelude::*;
use vstd::string::StringExecFns;
use crate::Error;
use crate::Torrent;
use crate::text::{joined, parse_u32, parsed_u32, str_eq, join_all};

verus! {

/// One candidate release as the tracker API reports it.
#[derive(Debug)]
pub struct TorrentApi {
    pub torrent_id: u32,
    pub media: String,
    pub format: String,
    pub encoding: String,
    pub file_count: u32,
    pub size: u64,
}

/// One artist name inside a collage work's music info.
#[derive(Debug)]
pub struct ArtistName {
    pub name: String,
}

/// The artist list of a collage work.
#[derive(Debug)]
pub struct MusicInfo {
    pub artists: Vec<ArtistName>,
}

/// One work of a collage payload; year and release type arrive as
/// strings.
#[derive(Debug)]
pub struct TorrentGroupCollage {
    pub name: String,
    pub year: String,
    pub release_type: String,
    pub music_info: MusicInfo,
    pub torrents: Vec<TorrentApi>,
}

/// One work of an artist payload; year and release type arrive as
/// integers.
#[derive(Debug)]
pub struct TorrentGroupArtist {
    pub name: String,
    pub year: u32,
    pub release_type: u32,
    pub torrents: Vec<TorrentApi>,
}

/// A collage payload, already unwrapped from a successful API
/// response.
#[derive(Debug)]
pub struct CollageData {
    pub id: u32,
    pub name: String,
    pub collage_category_name: String,
    pub torrent_groups: Vec<TorrentGroupCollage>,
}

/// An artist payload, already unwrapped from a successful API
/// response.
#[derive(Debug)]
pub struct ArtistData {
    pub id: u32,
    pub name: String,
    pub torrent_groups: Vec<TorrentGroupArtist>,
}

/// The tagged union over the two payload shapes the tracker serves.
#[derive(Debug)]
pub enum GroupData {
    CollageData(CollageData),
    ArtistData(ArtistData),
}

impl GroupData {
    /// Catalog id of the payload.
    pub fn source_id(&self) -> (r: u32)
        ensures
            r == self.spec_source_id(),
    {
        match self {
            GroupData::CollageData(c) => c.id,
            GroupData::ArtistData(a) => a.id,
        }
    }

    pub open spec fn spec_source_id(&self) -> u32 {
        match self {
            GroupData::CollageData(c) => c.id,
            GroupData::ArtistData(a) => a.id,
        }
    }

    /// Display name of the payload.
    pub fn source_name(&self) -> (r: &String)
        ensures
            r@ == self.spec_source_name(),
    {
        match self {
            GroupData::CollageData(c) => &c.name,
            GroupData::ArtistData(a) => &a.name,
        }
    }

    pub open spec fn spec_source_name(&self) -> Seq<char> {
        match self {
            GroupData::CollageData(c) => c.name@,
            GroupData::ArtistData(a) => a.name@,
        }
    }

    /// Kind of catalog entity the payload came from.
    pub fn source_type(&self) -> (r: crate::Type)
        ensures
            r == self.spec_source_type(),
    {
        match self {
            GroupData::CollageData(_) => crate::Type::Collage,
            GroupData::ArtistData(_) => crate::Type::Artist,
        }
    }

    pub open spec fn spec_source_type(&self) -> crate::Type {
        match self {
            GroupData::CollageData(_) => crate::Type::Collage,
            GroupData::ArtistData(_) => crate::Type::Artist,
        }
    }
}

/// What HTML entity decoding yields on a given character sequence; the
/// decoding is a function of the characters alone.
pub uninterp spec fn html_decoded(s: Seq<char>) -> Seq<char>;

/// Relies on html_escape::decode_html_entities: decodes the HTML
/// entities of a string, a pure function of its text.
#[verifier::external_body]
fn decode_entities(s: &str) -> (r: String)
    ensures
        r@ == html_decoded(s@),
{
    html_escape::decode_html_entities(s).into_owned()
}

/// The comma-joined, entity-decoded artist list of a collage work.
pub open spec fn collage_artist_names(g: TorrentGroupCollage) -> Seq<char> {
    joined(g.music_info.artists@.map(|i: int, a: ArtistName| html_decoded(a.name@)), ", "@)
}

/// The normalized record an artist payload's candidate becomes.
pub open spec fn artist_torrent_matches(
    out: Torrent,
    artist_name: Seq<char>,
    g: TorrentGroupArtist,
    t: TorrentApi,
    weight: u32,
) -> bool {
    &&& out.id == t.torrent_id
    &&& out.album_name@ == html_decoded(g.name@)
    &&& out.artist_names@ == html_decoded(artist_name)
    &&& out.year == g.year
    &&& out.release_type == g.release_type
    &&& out.media@ == t.media@
    &&& out.format@ == t.format@
    &&& out.encoding@ == t.encoding@
    &&& out.file_count == t.file_count
    &&& out.size == t.size
    &&& out.weight == weight
}

/// The normalized record a collage payload's candidate becomes.
pub open spec fn collage_torrent_matches(
    out: Torrent,
    g: TorrentGroupCollage,
    t: TorrentApi,
    weight: u32,
) -> bool {
    &&& out.id == t.torrent_id
    &&& out.album_name@ == html_decoded(g.name@)
    &&& out.artist_names@ == collage_artist_names(g)
    &&& Some(out.year) == parsed_u32(g.year@)
    &&& Some(out.release_type) == parsed_u32(g.release_type@)
    &&& out.media@ == t.media@
    &&& out.format@ == t.format@
    &&& out.encoding@ == t.encoding@
    &&& out.file_count == t.file_count
    &&& out.size == t.size
    &&& out.weight == weight
}

/// Every string-typed numeric field of the collage payload parses.
pub open spec fn collage_parses(c: CollageData) -> bool {
    forall|i: int|
        0 <= i < c.torrent_groups@.len() ==> (parsed_u32(
            #[trigger] c.torrent_groups@[i].year@,
        ) is Some && parsed_u32(c.torrent_groups@[i].release_type@) is Some)
}

/// The whole normalization succeeds exactly when every string-typed
/// numeric field parses; artist payloads carry none.
pub open spec fn group_data_parses(gd: GroupData) -> bool {
    match gd {
        GroupData::CollageData(c) => collage_parses(c),
        GroupData::ArtistData(_) => true,
    }
}

/// Shape and content of a normalized artist payload.
pub open spec fn artist_transformed(a: ArtistData, v: Seq<Vec<Torrent>>, weight: u32) -> bool {
    &&& v.len() == a.torrent_groups@.len()
    &&& forall|i: int|
        0 <= i < v.len() ==> (#[trigger] v[i])@.len() == a.torrent_groups@[i].torrents@.len()
    &&& forall|i: int, j: int|
        0 <= i < v.len() && 0 <= j < v[i]@.len() ==> artist_torrent_matches(
            #[trigger] v[i]@[j],
            a.name@,
            a.torrent_groups@[i],
            a.torrent_groups@[i].torrents@[j],
            weight,
        )
}

/// Shape and content of a normalized collage payload.
pub open spec fn collage_transformed(c: CollageData, v: Seq<Vec<Torrent>>, weight: u32) -> bool {
    &&& v.len() == c.torrent_groups@.len()
    &&& forall|i: int|
        0 <= i < v.len() ==> (#[trigger] v[i])@.len() == c.torrent_groups@[i].torrents@.len()
    &&& forall|i: int, j: int|
        0 <= i < v.len() && 0 <= j < v[i]@.len() ==> collage_torrent_matches(
            #[trigger] v[i]@[j],
            c.torrent_groups@[i],
            c.torrent_groups@[i].torrents@[j],
            weight,
        )
}

/// Shape and content of a normalized payload of either kind.
pub open spec fn transformed(gd: GroupData, v: Seq<Vec<Torrent>>, weight: u32) -> bool {
    match gd {
        GroupData::ArtistData(a) => artist_transformed(a, v, weight),
        GroupData::CollageData(c) => collage_transformed(c, v, weight),
    }
}

/// Flatten a payload into per-work candidate lists: one inner list per
/// work, one normalized record per reported candidate, names decoded
/// and string-typed numerics coerced. A malformed numeric field is a
/// fatal parse error.
pub fn transform_groups(groups: &GroupData, weight: u32) -> (r: Result<Vec<Vec<Torrent>>, Error>)
    ensures
        (r is Ok) <==> group_data_parses(*groups),
        r is Err ==> r->Err_0 is Parse,
        r is Ok ==> transformed(*groups, r->Ok_0@, weight),
{
    match groups {
        GroupData::ArtistData(a) => {
            let artist_name = decode_entities(a.name.as_str());
            let mut v: Vec<Vec<Torrent>> = Vec::new();
            let mut i: usize = 0;
            while i < a.torrent_groups.len()
                invariant
                    0 <= i <= a.torrent_groups@.len(),
                    artist_name@ == html_decoded(a.name@),
                    v@.len() == i,
                    forall|k: int|
                        0 <= k < i ==> (#[trigger] v@[k])@.len()
                            == a.torrent_groups@[k].torrents@.len(),
                    forall|k: int, j: int|
                        0 <= k < i && 0 <= j < v@[k]@.len() ==> artist_torrent_matches(
                            #[trigger] v@[k]@[j],
                            a.name@,
                            a.torrent_groups@[k],
                            a.torrent_groups@[k].torrents@[j],
                            weight,
                        ),
                decreases a.torrent_groups@.len() - i,
            {
                let g = &a.torrent_groups[i];
                let album = decode_entities(g.name.as_str());
                let mut work: Vec<Torrent> = Vec::new();
                let mut j: usize = 0;
                while j < g.torrents.len()
                    invariant
                        0 <= j <= g.torrents@.len(),
                        album@ == html_decoded(g.name@),
                        artist_name@ == html_decoded(a.name@),
                        work@.len() == j,
                        forall|m: int|
                            0 <= m < j ==> artist_torrent_matches(
                                #[trigger] work@[m],
                                a.name@,
                                *g,
                                g.torrents@[m],
                                weight,
                            ),
                    decreases g.torrents@.len() - j,
                {
                    let t = &g.torrents[j];
                    work.push(
                        Torrent {
                            id: t.torrent_id,
                            album_name: album.clone(),
                            artist_names: artist_name.clone(),
                            year: g.year,
                            release_type: g.release_type,
                            media: t.media.clone(),
                            format: t.format.clone(),
                            encoding: t.encoding.clone(),
                            file_count: t.file_count,
                            size: t.size,
                            weight,
                        },
                    );
                    j += 1;
                }
                v.push(work);
                i += 1;
            }
            Ok(v)
        },
        GroupData::CollageData(c) => {
            let mut v: Vec<Vec<Torrent>> = Vec::new();
            let mut i: usize = 0;
            while i < c.torrent_groups.len()
                invariant
                    *groups == GroupData::CollageData(*c),
                    0 <= i <= c.torrent_groups@.len(),
                    v@.len() == i,
                    forall|k: int|
                        0 <= k < i ==> (parsed_u32(
                            #[trigger] c.torrent_groups@[k].year@,
                        ) is Some && parsed_u32(c.torrent_groups@[k].release_type@) is Some),
                    forall|k: int|
                        0 <= k < i ==> (#[trigger] v@[k])@.len()
                            == c.torrent_groups@[k].torrents@.len(),
                    forall|k: int, j: int|
                        0 <= k < i && 0 <= j < v@[k]@.len() ==> collage_torrent_matches(
                            #[trigger] v@[k]@[j],
                            c.torrent_groups@[k],
                            c.torrent_groups@[k].torrents@[j],
                            weight,
                        ),
                decreases c.torrent_groups@.len() - i,
            {
                let g = &c.torrent_groups[i];
                let year = match parse_u32(g.year.as_str()) {
                    Some(y) => y,
                    None => {
                        proof {
                            assert(parsed_u32(c.torrent_groups@[i as int].year@) is None);
                            assert(!collage_parses(*c));
                            assert(!group_data_parses(*groups));
                        }
                        return Err(Error::Parse);
                    },
                };
                let release_type = match parse_u32(g.release_type.as_str()) {
                    Some(rt) => rt,
                    None => {
                        proof {
                            assert(parsed_u32(c.torrent_groups@[i as int].release_type@) is None);
                            assert(!collage_parses(*c));
                            assert(!group_data_parses(*groups));
                        }
                        return Err(Error::Parse);
                    },
                };
                let album = decode_entities(g.name.as_str());
                let mut names: Vec<String> = Vec::new();
                let mut k: usize = 0;
                while k < g.music_info.artists.len()
                    invariant
                        0 <= k <= g.music_info.artists@.len(),
                        names@.len() == k,
                        forall|m: int|
                            0 <= m < k ==> (#[trigger] names@[m])@ == html_decoded(
                                g.music_info.artists@[m].name@,
                            ),
                    decreases g.music_info.artists@.len() - k,
                {
                    names.push(decode_entities(g.music_info.artists[k].name.as_str()));
                    k += 1;
                }
                let artist_names = join_all(&names, ", ");
                proof {
                    let lhs = names@.map(|m: int, n: String| n@);
                    let rhs = g.music_info.artists@.map(
                        |m: int, a: ArtistName| html_decoded(a.name@),
                    );
                    assert(lhs =~= rhs);
                    assert(artist_names@ == collage_artist_names(*g));
                }
                let mut work: Vec<Torrent> = Vec::new();
                let mut j: usize = 0;
                while j < g.torrents.len()
                    invariant
                        0 <= j <= g.torrents@.len(),
                        album@ == html_decoded(g.name@),
                        artist_names@ == collage_artist_names(*g),
                        Some(year) == parsed_u32(g.year@),
                        Some(release_type) == parsed_u32(g.release_type@),
                        work@.len() == j,
                        forall|m: int|
                            0 <= m < j ==> collage_torrent_matches(
                                #[trigger] work@[m],
                                *g,
                                g.torrents@[m],
                                weight,
                            ),
                    decreases g.torrents@.len() - j,
                {
                    let t = &g.torrents[j];
                    work.push(
                        Torrent {
                            id: t.torrent_id,
                            album_name: album.clone(),
                            artist_names: artist_names.clone(),
                            year,
                            release_type,
                            media: t.media.clone(),
                            format: t.format.clone(),
                            encoding: t.encoding.clone(),
                            file_count: t.file_count,
                            size: t.size,
                            weight,
                        },
                    );
                    j += 1;
                }
                v.push(work);
                i += 1;
            }
            Ok(v)
        },
    }
}

/// Check the status field of a tracker response: anything but
/// "success" is a fatal API error carrying the status string.
pub fn check_api_status(status: &str) -> (r: Result<(), Error>)
    ensures
        (r is Ok) <==> status@ == "success"@,
        r is Err ==> (r->Err_0 matches Error::Api(s) && s@ == status@),
{
    if str_eq(status, "success") {
        Ok(())
    } else {
        Err(Error::Api(status.to_owned()))
    }
}

} // verus!
