use redman::dedup::{filter_torrents_not_in_plex_library, filter_torrents_not_in_torrent_dir};
use redman::download::{
    download_start, download_step, parse_cd_filename, DownloadAction, DownloadEvent, DownloadMode,
    DownloadState,
};
use redman::priority::{prioritize_pool, take_first, FreeloadProbe};
use redman::text::{parse_u32, trailing_id_of};
use redman::{Album, Torrent};

fn mk(id: u32, artist: &str, album: &str, weight: u32) -> Torrent {
    Torrent {
        id,
        album_name: String::from(album),
        artist_names: String::from(artist),
        year: 2000,
        release_type: 1,
        media: String::from("CD"),
        format: String::from("MP3"),
        encoding: String::from("320"),
        file_count: 10,
        size: 1000,
        weight,
    }
}

#[test]
fn library_overlap_is_case_and_punctuation_insensitive() {
    let stored = vec![
        mk(1, "The Beatles", "Abbey Road", 10),
        mk(2, "Pink Floyd", "Animals", 10),
    ];
    let library = vec![Album {
        name: String::from("abbey-road!"),
        artists: String::from("THE BEATLES"),
    }];
    let kept = filter_torrents_not_in_plex_library(&stored, &library);
    assert_eq!(kept.len(), 1);
    assert_eq!(kept[0].id, 2);
}

#[test]
fn library_overlap_requires_artist_and_album_together() {
    let stored = vec![mk(1, "The Beatles", "Abbey Road", 10)];
    let library = vec![Album {
        name: String::from("Abbey Road"),
        artists: String::from("Someone Else"),
    }];
    let kept = filter_torrents_not_in_plex_library(&stored, &library);
    assert_eq!(kept.len(), 1);
}

#[test]
fn on_disk_filter_matches_trailing_id() {
    let stored = vec![mk(12345, "A", "X", 10), mk(777, "B", "Y", 10)];
    let stems = vec![String::from("foo-12345"), String::from("foo")];
    let kept = filter_torrents_not_in_torrent_dir(&stored, &stems);
    // foo-12345 excludes id 12345; foo (no trailing digits) excludes nothing
    assert_eq!(kept.len(), 1);
    assert_eq!(kept[0].id, 777);
}

#[test]
fn trailing_id_extraction() {
    assert_eq!(trailing_id_of("foo-12345"), Some(12345));
    assert_eq!(trailing_id_of("foo"), None);
    assert_eq!(trailing_id_of("007"), Some(7));
    assert_eq!(trailing_id_of("a1b2"), Some(2));
    // a run too large for an id matches nothing
    assert_eq!(trailing_id_of("x99999999999"), None);
}

#[test]
fn parse_u32_accepts_digits_only() {
    assert_eq!(parse_u32("2020"), Some(2020));
    assert_eq!(parse_u32("0"), Some(0));
    assert_eq!(parse_u32(""), None);
    assert_eq!(parse_u32("12a"), None);
    assert_eq!(parse_u32("-5"), None);
    assert_eq!(parse_u32("4294967295"), Some(u32::MAX));
    assert_eq!(parse_u32("4294967296"), None);
}

#[test]
fn prioritize_orders_weights_descending() {
    let pool = vec![
        mk(1, "A", "X", 5),
        mk(2, "B", "Y", 20),
        mk(3, "C", "Z", 10),
        mk(4, "D", "W", 20),
    ];
    let ordered = prioritize_pool(&pool);
    assert_eq!(ordered.len(), 4);
    let weights: Vec<u32> = ordered.iter().map(|t| t.weight).collect();
    assert!(weights.windows(2).all(|w| w[0] >= w[1]));
    let mut ids: Vec<u32> = ordered.iter().map(|t| t.id).collect();
    ids.sort();
    assert_eq!(ids, vec![1, 2, 3, 4]);
    // the top weight band comes first, whatever its internal order
    assert!(ordered[0].weight == 20 && ordered[1].weight == 20);
}

#[test]
fn prioritize_empty_pool() {
    assert!(prioritize_pool(&Vec::new()).is_empty());
}

#[test]
fn take_first_never_exceeds_count() {
    let pool = vec![mk(1, "A", "X", 5), mk(2, "B", "Y", 5), mk(3, "C", "Z", 5)];
    assert_eq!(take_first(pool.clone(), 2).len(), 2);
    assert_eq!(take_first(pool.clone(), 9).len(), 3);
    let two = take_first(pool, 2);
    assert_eq!(two[0].id, 1);
    assert_eq!(two[1].id, 2);
}

#[test]
fn freeload_probe_accepts_only_probed_freeloads() {
    let pool = vec![
        mk(1, "A", "X", 5),
        mk(2, "B", "Y", 5),
        mk(3, "C", "Z", 5),
        mk(4, "D", "W", 5),
    ];
    let mut probe = FreeloadProbe::begin(pool, 2);
    let mut answers = vec![false, true, true, true].into_iter();
    while let Some(_id) = probe.pending() {
        probe.feed(answers.next().unwrap());
    }
    let picked = probe.selection();
    // never more than asked, skipping the non-freeload item
    assert_eq!(picked.len(), 2);
    assert_eq!(picked[0].id, 2);
    assert_eq!(picked[1].id, 3);
}

#[test]
fn freeload_probe_exhausts_pool_when_short() {
    let pool = vec![mk(1, "A", "X", 5), mk(2, "B", "Y", 5)];
    let mut probe = FreeloadProbe::begin(pool, 5);
    while probe.pending().is_some() {
        probe.feed(false);
    }
    assert_eq!(probe.selection().len(), 0);
}

#[test]
fn downloader_falls_back_to_plain() {
    let s0 = download_start(true);
    assert_eq!(s0, DownloadState::RequestFreeload);
    let (s1, a1) = download_step(s0, DownloadEvent::RequestResult(false));
    assert_eq!(s1, DownloadState::RequestPlain);
    assert_eq!(a1, DownloadAction::SendRequest(DownloadMode::Plain));
    let (s2, a2) = download_step(s1, DownloadEvent::RequestResult(true));
    assert_eq!(s2, DownloadState::Write(DownloadMode::Plain));
    assert_eq!(a2, DownloadAction::WriteFile);
    let (s3, a3) = download_step(s2, DownloadEvent::WriteResult(true));
    assert_eq!(s3, DownloadState::Submit(DownloadMode::Plain));
    assert_eq!(a3, DownloadAction::SubmitFile);
    let (s4, a4) = download_step(s3, DownloadEvent::SubmitResult(true));
    assert_eq!(s4, DownloadState::Done(DownloadMode::Plain));
    assert_eq!(a4, DownloadAction::Stop);
}

#[test]
fn downloader_fails_with_no_file_when_both_requests_fail() {
    let s0 = download_start(true);
    let (s1, _) = download_step(s0, DownloadEvent::RequestResult(false));
    let (s2, a2) = download_step(s1, DownloadEvent::RequestResult(false));
    assert_eq!(s2, DownloadState::Failed);
    // no write was ever requested, so no file exists to clean up
    assert_eq!(a2, DownloadAction::Stop);
}

#[test]
fn downloader_deletes_file_on_failed_handoff() {
    let s0 = download_start(false);
    assert_eq!(s0, DownloadState::RequestPlain);
    let (s1, _) = download_step(s0, DownloadEvent::RequestResult(true));
    let (s2, _) = download_step(s1, DownloadEvent::WriteResult(true));
    let (s3, a3) = download_step(s2, DownloadEvent::SubmitResult(false));
    assert_eq!(s3, DownloadState::Failed);
    assert_eq!(a3, DownloadAction::DeleteFile);
}

#[test]
fn content_disposition_filename_extraction() {
    assert_eq!(
        parse_cd_filename("attachment; filename=\"foo-12345.torrent\"").unwrap(),
        "foo-12345.torrent"
    );
    assert!(matches!(
        parse_cd_filename("attachment"),
        Err(redman::Error::Protocol)
    ));
    // an empty capture is no match; the next occurrence is taken
    assert_eq!(
        parse_cd_filename("filename=\"\" filename=\"x.torrent\"").unwrap(),
        "x.torrent"
    );
    // a pattern without a closing quote is no match
    assert!(parse_cd_filename("filename=\"unterminated").is_err());
}
