//! Dedup filters over the stored pool: exclusion by overlap with the
//! external media library, under a case- and punctuation-insensitive
//! comparison, and exclusion by files already on disk, matched by the
//! trailing numeric id of their names.

use vstd::prelude::*;
use crate::{Album, Torrent};
use crate::text::{chars_eq, norm, normalize_chars, spec_trailing_id, trailing_id_of};

verus! {

/// A library row matches a release when artist and album agree at once
/// under the normalized comparison.
pub open spec fn lib_match(albums: Seq<Album>, t: Torrent) -> bool {
    exists|i: int|
        0 <= i < albums.len() && norm((#[trigger] albums[i]).artists@) == norm(t.artist_names@)
            && norm(albums[i].name@) == norm(t.album_name@)
}

/// Does some library row match this release?
pub fn matches_library(albums: &Vec<Album>, t: &Torrent) -> (r: bool)
    ensures
        r == lib_match(albums@, *t),
{
    let t_artists = normalize_chars(t.artist_names.as_str());
    let t_album = normalize_chars(t.album_name.as_str());
    let mut i: usize = 0;
    while i < albums.len()
        invariant
            t_artists@ == norm(t.artist_names@),
            t_album@ == norm(t.album_name@),
            0 <= i <= albums@.len(),
            forall|k: int|
                0 <= k < i ==> !(norm((#[trigger] albums@[k]).artists@) == norm(t.artist_names@)
                    && norm(albums@[k].name@) == norm(t.album_name@)),
        decreases albums@.len() - i,
    {
        let a_artists = normalize_chars(albums[i].artists.as_str());
        if chars_eq(&a_artists, &t_artists) {
            let a_name = normalize_chars(albums[i].name.as_str());
            if chars_eq(&a_name, &t_album) {
                return true;
            }
        }
        i += 1;
    }
    false
}

/// Keep the releases that no library row matches: a release survives
/// only if no album agrees with it on both artist and album under the
/// normalized comparison.
pub fn filter_torrents_not_in_plex_library(torrents: &Vec<Torrent>, albums: &Vec<Album>) -> (r:
    Vec<Torrent>)
    ensures
        r@ == torrents@.filter(|t: Torrent| !lib_match(albums@, t)),
{
    let mut r: Vec<Torrent> = Vec::new();
    let mut i: usize = 0;
    while i < torrents.len()
        invariant
            0 <= i <= torrents@.len(),
            r@ == torrents@.take(i as int).filter(|t: Torrent| !lib_match(albums@, t)),
        decreases torrents@.len() - i,
    {
        proof {
            reveal(Seq::filter);
            assert(torrents@.take(i + 1).drop_last() =~= torrents@.take(i as int));
            assert(torrents@.take(i + 1).last() == torrents@[i as int]);
        }
        if !matches_library(albums, &torrents[i]) {
            r.push(torrents[i].clone());
        }
        i += 1;
    }
    proof {
        assert(torrents@.take(torrents@.len() as int) =~= torrents@);
    }
    r
}

/// A file name in the download directory excludes a release when its
/// stem ends in a digit run that reads as the release's id.
pub open spec fn dir_excludes(stems: Seq<String>, id: u32) -> bool {
    exists|i: int| 0 <= i < stems.len() && spec_trailing_id((#[trigger] stems[i])@) == Some(id)
}

/// Keep the releases whose id no file stem in the download directory
/// carries as its trailing digit run; stems without trailing digits
/// exclude nothing.
pub fn filter_torrents_not_in_torrent_dir(torrents: &Vec<Torrent>, stems: &Vec<String>) -> (r: Vec<
    Torrent,
>)
    ensures
        r@ == torrents@.filter(|t: Torrent| !dir_excludes(stems@, t.id)),
{
    let mut ids: Vec<u32> = Vec::new();
    let mut k: usize = 0;
    while k < stems.len()
        invariant
            0 <= k <= stems@.len(),
            forall|id: u32| #[trigger]
                ids@.contains(id) <==> exists|m: int|
                    0 <= m < k && spec_trailing_id((#[trigger] stems@[m])@) == Some(id),
        decreases stems@.len() - k,
    {
        let ghost pre = ids@;
        match trailing_id_of(stems[k].as_str()) {
            Some(id) => {
                ids.push(id);
                proof {
                    assert(ids@[ids@.len() - 1] == id);
                    assert forall|x: u32| #[trigger] ids@.contains(x) implies exists|m: int|
                        0 <= m < k + 1 && spec_trailing_id((#[trigger] stems@[m])@) == Some(x) by {
                        let j = choose|j: int| 0 <= j < ids@.len() && ids@[j] == x;
                        if j < pre.len() {
                            assert(pre.contains(x));
                        } else {
                            assert(spec_trailing_id(stems@[k as int]@) == Some(x));
                        }
                    }
                    assert forall|x: u32|
                        exists|m: int|
                            0 <= m < k + 1 && spec_trailing_id((#[trigger] stems@[m])@) == Some(
                                x,
                            ) implies #[trigger] ids@.contains(x) by {
                        let m = choose|m: int|
                            0 <= m < k + 1 && spec_trailing_id((#[trigger] stems@[m])@) == Some(x);
                        if m < k {
                            assert(pre.contains(x));
                            let j = choose|j: int| 0 <= j < pre.len() && pre[j] == x;
                            assert(ids@[j] == x);
                        } else {
                            assert(ids@[ids@.len() - 1] == x);
                        }
                    }
                }
            },
            None => {
                proof {
                    assert forall|x: u32| #[trigger]
                        ids@.contains(x) implies exists|m: int|
                        0 <= m < k + 1 && spec_trailing_id((#[trigger] stems@[m])@) == Some(x) by {
                        let m = choose|m: int|
                            0 <= m < k && spec_trailing_id((#[trigger] stems@[m])@) == Some(x);
                        assert(0 <= m < k + 1 && spec_trailing_id(stems@[m]@) == Some(x));
                    }
                    assert forall|x: u32|
                        exists|m: int|
                            0 <= m < k + 1 && spec_trailing_id((#[trigger] stems@[m])@) == Some(
                                x,
                            ) implies #[trigger] ids@.contains(x) by {
                        let m = choose|m: int|
                            0 <= m < k + 1 && spec_trailing_id((#[trigger] stems@[m])@) == Some(x);
                        assert(m < k);
                    }
                }
            },
        }
        k += 1;
    }
    proof {
        assert(forall|id: u32| #[trigger] ids@.contains(id) <==> dir_excludes(stems@, id));
    }
    let mut r: Vec<Torrent> = Vec::new();
    let mut i: usize = 0;
    while i < torrents.len()
        invariant
            0 <= i <= torrents@.len(),
            forall|id: u32| #[trigger] ids@.contains(id) <==> dir_excludes(stems@, id),
            r@ == torrents@.take(i as int).filter(|t: Torrent| !dir_excludes(stems@, t.id)),
        decreases torrents@.len() - i,
    {
        proof {
            reveal(Seq::filter);
            assert(torrents@.take(i + 1).drop_last() =~= torrents@.take(i as int));
            assert(torrents@.take(i + 1).last() == torrents@[i as int]);
        }
        let t = &torrents[i];
        let mut excluded = false;
        let mut j: usize = 0;
        while j < ids.len()
            invariant_except_break
                excluded == false,
            invariant
                0 <= j <= ids@.len(),
                t == &torrents@[i as int],
                forall|m: int| 0 <= m < j ==> ids@[m] != t.id,
            ensures
                excluded == ids@.contains(t.id),
            decreases ids@.len() - j,
        {
            if ids[j] == t.id {
                excluded = true;
                assert(ids@.contains(t.id));
                break ;
            }
            j += 1;
        }
        if !excluded {
            r.push(torrents[i].clone());
        }
        i += 1;
    }
    proof {
        assert(torrents@.take(torrents@.len() as int) =~= torrents@);
    }
    r
}

} // verus!
