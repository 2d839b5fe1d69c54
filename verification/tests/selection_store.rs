use redman::normalize::{ArtistName, MusicInfo, TorrentApi};
use redman::select::select_variant;
use redman::stats::compute_stats;
use redman::{
    ArtistData, CollageData, Database, GroupData, TorrentGroupArtist, TorrentGroupCollage, Torrent,
    Type,
};

fn mk_torrent(id: u32, media: &str, format: &str, encoding: &str, release_type: u32) -> Torrent {
    Torrent {
        id,
        album_name: String::from("Album"),
        artist_names: String::from("Artist"),
        year: 2000,
        release_type,
        media: String::from(media),
        format: String::from(format),
        encoding: String::from(encoding),
        file_count: 10,
        size: 1000,
        weight: 10,
    }
}

#[test]
fn selects_minimum_rank_cd_v0_first() {
    let candidates = vec![
        mk_torrent(1, "WEB", "MP3", "320", 1),
        mk_torrent(2, "CD", "MP3", "V0 (VBR)", 1),
        mk_torrent(3, "WEB", "MP3", "V0 (VBR)", 1),
    ];
    let chosen = select_variant(&candidates).unwrap();
    assert_eq!(chosen.id, 2);
    assert_eq!(chosen.media, "CD");
    assert_eq!(chosen.encoding, "V0 (VBR)");
}

#[test]
fn rank_order_web_v0_before_cd_320() {
    let candidates = vec![
        mk_torrent(1, "CD", "MP3", "320", 1),
        mk_torrent(2, "WEB", "MP3", "V0 (VBR)", 1),
        mk_torrent(3, "WEB", "MP3", "320", 1),
    ];
    assert_eq!(select_variant(&candidates).unwrap().id, 2);
}

#[test]
fn first_encountered_wins_rank_ties() {
    let candidates = vec![
        mk_torrent(7, "WEB", "MP3", "320", 1),
        mk_torrent(8, "WEB", "MP3", "320", 1),
    ];
    assert_eq!(select_variant(&candidates).unwrap().id, 7);
}

#[test]
fn no_qualifying_candidate_yields_none() {
    let candidates = vec![
        mk_torrent(1, "CD", "FLAC", "Lossless", 1),
        mk_torrent(2, "Vinyl", "MP3", "320", 1),
        mk_torrent(3, "CD", "MP3", "192", 1),
        mk_torrent(4, "CD", "MP3", "320", 7),
    ];
    assert!(select_variant(&candidates).is_none());
    assert!(select_variant(&Vec::new()).is_none());
}

fn artist_payload() -> GroupData {
    GroupData::ArtistData(ArtistData {
        id: 42,
        name: String::from("Simon &amp; Garfunkel"),
        torrent_groups: vec![TorrentGroupArtist {
            name: String::from("Bookends"),
            year: 1968,
            release_type: 1,
            torrents: vec![
                TorrentApi {
                    torrent_id: 100,
                    media: String::from("CD"),
                    format: String::from("MP3"),
                    encoding: String::from("320"),
                    file_count: 12,
                    size: 90_000_000,
                },
                TorrentApi {
                    torrent_id: 101,
                    media: String::from("CD"),
                    format: String::from("MP3"),
                    encoding: String::from("V0 (VBR)"),
                    file_count: 12,
                    size: 80_000_000,
                },
            ],
        }],
    })
}

#[test]
fn transform_decodes_html_entities() {
    let groups = redman::normalize::transform_groups(&artist_payload(), 10).unwrap();
    assert_eq!(groups.len(), 1);
    assert_eq!(groups[0].len(), 2);
    // the entity in the artist name is decoded, not handed back verbatim
    assert_eq!(groups[0][0].artist_names, "Simon & Garfunkel");
    assert_eq!(groups[0][0].album_name, "Bookends");
    assert_eq!(groups[0][0].id, 100);
    assert_eq!(groups[0][0].year, 1968);
    assert_eq!(groups[0][1].id, 101);
}

fn collage_payload(year: &str, release_type: &str) -> GroupData {
    GroupData::CollageData(CollageData {
        id: 7,
        name: String::from("Great Albums"),
        collage_category_name: String::from("Theme"),
        torrent_groups: vec![TorrentGroupCollage {
            name: String::from("Abbey Road"),
            year: String::from(year),
            release_type: String::from(release_type),
            music_info: MusicInfo {
                artists: vec![
                    ArtistName { name: String::from("The Beatles") },
                    ArtistName { name: String::from("George Martin") },
                ],
            },
            torrents: vec![TorrentApi {
                torrent_id: 500,
                media: String::from("CD"),
                format: String::from("MP3"),
                encoding: String::from("V0 (VBR)"),
                file_count: 17,
                size: 120_000_000,
            }],
        }],
    })
}

#[test]
fn transform_collage_joins_artists_and_parses_numbers() {
    let groups = redman::normalize::transform_groups(&collage_payload("1969", "1"), 10).unwrap();
    assert_eq!(groups.len(), 1);
    let t = &groups[0][0];
    assert_eq!(t.artist_names, "The Beatles, George Martin");
    assert_eq!(t.year, 1969);
    assert_eq!(t.release_type, 1);
    assert_eq!(t.weight, 10);
}

#[test]
fn transform_collage_rejects_malformed_year() {
    let r = redman::normalize::transform_groups(&collage_payload("nineteen", "1"), 10);
    assert!(matches!(r, Err(redman::Error::Parse)));
    let r = redman::normalize::transform_groups(&collage_payload("1969", ""), 10);
    assert!(matches!(r, Err(redman::Error::Parse)));
}

#[test]
fn store_data_selects_and_counts() {
    let mut db = Database::new();
    let count = db.store_data(&artist_payload(), 10).unwrap();
    // one work with qualifying candidates: one release stored
    assert_eq!(count, 1);
    let all = db.all_releases();
    assert_eq!(all.len(), 1);
    // the V0 (VBR) CD variant outranks the 320 CD variant
    assert_eq!(all[0].id, 101);
}

#[test]
fn store_data_twice_is_idempotent_in_effect() {
    let mut db = Database::new();
    let first = db.store_data(&artist_payload(), 10).unwrap();
    let snapshot = db.all_releases();
    let second = db.store_data(&artist_payload(), 10).unwrap();
    let again = db.all_releases();
    // the reported write count is non-zero both times
    assert_eq!(first, 1);
    assert_eq!(second, 1);
    // but the stored rows are identical
    assert_eq!(snapshot.len(), again.len());
    assert_eq!(snapshot[0].id, again[0].id);
    assert_eq!(snapshot[0].album_name, again[0].album_name);
    assert_eq!(snapshot[0].encoding, again[0].encoding);
}

#[test]
fn record_fetch_is_new_only_once() {
    let mut db = Database::new();
    assert!(db.record_fetch(3, Type::Collage, String::from("c")));
    assert!(!db.record_fetch(3, Type::Collage, String::from("c")));
    // a different kind under the same id is a distinct key
    assert!(db.record_fetch(3, Type::Artist, String::from("a")));
}

#[test]
fn upsert_replaces_by_id() {
    let mut db = Database::new();
    let a = mk_torrent(9, "CD", "MP3", "320", 1);
    let mut b = mk_torrent(9, "WEB", "MP3", "V0 (VBR)", 1);
    b.album_name = String::from("Replaced");
    assert_eq!(db.upsert_releases(&vec![a]), 1);
    assert_eq!(db.upsert_releases(&vec![b]), 1);
    let all = db.all_releases();
    assert_eq!(all.len(), 1);
    assert_eq!(all[0].album_name, "Replaced");
}

#[test]
fn stats_histogram_sorted_desc_ties_first_encountered() {
    let mut db = Database::new();
    let mut pool = Vec::new();
    let mut t1 = mk_torrent(1, "CD", "MP3", "320", 1);
    t1.artist_names = String::from("A");
    t1.album_name = String::from("X");
    let mut t2 = mk_torrent(2, "CD", "MP3", "320", 1);
    t2.artist_names = String::from("B");
    t2.album_name = String::from("X");
    let mut t3 = mk_torrent(3, "CD", "MP3", "320", 1);
    t3.artist_names = String::from("A");
    t3.album_name = String::from("Y");
    pool.push(t1);
    pool.push(t2);
    pool.push(t3);
    db.upsert_releases(&pool);
    let stats = db.get_stats();
    assert_eq!(stats.total_torrents, 3);
    assert_eq!(stats.unique_artists, 2);
    assert_eq!(stats.unique_albums, 2);
    assert_eq!(stats.format_counts, vec![(String::from("MP3"), 3)]);
}

#[test]
fn stats_histogram_orders_by_count_then_encounter() {
    // the histogram is computed over any snapshot, qualifying or not
    let pool = vec![
        mk_torrent(1, "CD", "FLAC", "Lossless", 1),
        mk_torrent(2, "CD", "MP3", "320", 1),
        mk_torrent(3, "CD", "MP3", "V0 (VBR)", 1),
        mk_torrent(4, "CD", "AAC", "256", 1),
    ];
    let stats = compute_stats(&pool);
    // MP3 counts 2 and leads; FLAC and AAC tie at 1 and keep encounter order
    assert_eq!(
        stats.format_counts,
        vec![
            (String::from("MP3"), 2),
            (String::from("FLAC"), 1),
            (String::from("AAC"), 1),
        ]
    );
}

#[test]
fn stats_of_empty_store() {
    let db = Database::new();
    let stats = db.get_stats();
    assert_eq!(stats.total_torrents, 0);
    assert_eq!(stats.unique_artists, 0);
    assert_eq!(stats.unique_albums, 0);
    assert!(stats.format_counts.is_empty());
}

#[test]
fn check_api_status_accepts_only_success() {
    assert!(redman::normalize::check_api_status("success").is_ok());
    match redman::normalize::check_api_status("failure") {
        Err(redman::Error::Api(s)) => assert_eq!(s, "failure"),
        _ => panic!("expected an api error"),
    }
}

#[test]
fn type_labels_and_codes() {
    assert_eq!(Type::Collage.label(), "collage");
    assert_eq!(Type::Artist.label(), "artist");
    assert_eq!(Type::Collage.code(), 1);
    assert_eq!(Type::Artist.code(), 0);
}
