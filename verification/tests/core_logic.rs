//! Tests of the track model, the normalizer, the sorter and the
//! deduplication engine.

use spotify_sorter::dedupe::remove_duplicates;
use spotify_sorter::sort::sort_tracks;
use spotify_sorter::strutil::{escape_csv, sanitize_filename, u32_to_string};
use spotify_sorter::track::{percent_decode, percent_encode, AppTrack, RawTrack, SortRule};
use spotify_sorter::dates::parse_date;

fn mk_track(name: &str, artist: &str, album: &str, album_type: &str, date: &str, uri: &str, dur: u32) -> AppTrack {
    AppTrack {
        id: uri.to_string(),
        name: name.to_string(),
        artist_names: artist.to_string(),
        album_name: album.to_string(),
        album_type: album_type.to_string(),
        release_date: date.to_string(),
        uri: uri.to_string(),
        duration_ms: dur,
    }
}

fn rule(criteria: &str, descending: bool) -> SortRule {
    SortRule { id: criteria.to_string(), criteria: criteria.to_string(), descending }
}

#[test]
fn percent_encode_basics() {
    assert_eq!(percent_encode("Hello World"), "Hello%20World");
    assert_eq!(percent_encode("a:b-c_d.e"), "a:b-c_d.e");
    assert_eq!(percent_encode("x/y"), "x%2Fy");
    assert_eq!(percent_encode(""), "");
}

#[test]
fn percent_decode_basics() {
    assert_eq!(percent_decode("Hello%20World"), "Hello World");
    assert_eq!(percent_decode("%41%42"), "AB");
    // a malformed escape passes through literally
    assert_eq!(percent_decode("abc%2x"), "abc%2x");
    assert_eq!(percent_decode("%"), "%");
}

#[test]
fn percent_round_trip() {
    let original = "Artist Name: Song (Live)";
    assert_eq!(percent_decode(&percent_encode(original)), original);
}

#[test]
fn parse_date_pads_partial_dates() {
    assert_eq!(parse_date(""), "0000-01-01");
    assert_eq!(parse_date("2020"), "2020-01-01");
    assert_eq!(parse_date("2020-05"), "2020-05-01");
    assert_eq!(parse_date("2020-05-06"), "2020-05-06");
}

#[test]
fn decimal_rendering() {
    assert_eq!(u32_to_string(0), "0");
    assert_eq!(u32_to_string(7), "7");
    assert_eq!(u32_to_string(12034), "12034");
}

#[test]
fn duplicate_key_normalizes() {
    let t = mk_track("Hello, World!", "The Band, Other", "X", "album", "2020", "u1", 1);
    assert_eq!(t.duplicate_key(), "hello world|the band");
}

#[test]
fn from_json_rejects_non_tracks() {
    let raw = RawTrack {
        type_tag: "episode".to_string(),
        uri: "spotify:track:x".to_string(),
        id: None,
        name: None,
        album_name: None,
        album_type: None,
        release_date: None,
        duration_ms: 0,
        artist_names: None,
    };
    assert!(AppTrack::from_json(&raw).is_none());
}

#[test]
fn from_json_rejects_empty_uri() {
    let raw = RawTrack {
        type_tag: "track".to_string(),
        uri: String::new(),
        id: None,
        name: None,
        album_name: None,
        album_type: None,
        release_date: None,
        duration_ms: 0,
        artist_names: None,
    };
    assert!(AppTrack::from_json(&raw).is_none());
}

#[test]
fn from_json_applies_defaults() {
    let raw = RawTrack {
        type_tag: "track".to_string(),
        uri: "spotify:track:abc".to_string(),
        id: Some("abc".to_string()),
        name: Some("Song".to_string()),
        album_name: None,
        album_type: None,
        release_date: None,
        duration_ms: 1000,
        artist_names: Some(vec!["A".to_string(), "B".to_string()]),
    };
    let t = AppTrack::from_json(&raw).unwrap();
    assert_eq!(t.id, "abc");
    assert_eq!(t.name, "Song");
    assert_eq!(t.artist_names, "A, B");
    assert_eq!(t.album_name, "Unknown Album");
    assert_eq!(t.album_type, "unknown");
    assert_eq!(t.release_date, "");
    assert_eq!(t.duration_ms, 1000);
}

#[test]
fn from_json_reconstructs_local_files() {
    let raw = RawTrack {
        type_tag: "track".to_string(),
        uri: "spotify:local:Art+ist:Alb+um:Tit+le:180".to_string(),
        id: None,
        name: None,
        album_name: None,
        album_type: None,
        release_date: None,
        duration_ms: 180000,
        artist_names: None,
    };
    let t = AppTrack::from_json(&raw).unwrap();
    assert_eq!(t.artist_names, "Art ist");
    assert_eq!(t.name, "Tit le");
    assert_eq!(t.album_name, "Alb um");
    assert_eq!(t.id, "spotify:local:Art+ist:Alb+um:Tit+le:180");
}

#[test]
fn from_json_percent_decodes_local_metadata() {
    let raw = RawTrack {
        type_tag: "track".to_string(),
        uri: "spotify:local:A%28B:X:Song:10".to_string(),
        id: None,
        name: None,
        album_name: None,
        album_type: None,
        release_date: None,
        duration_ms: 10000,
        artist_names: None,
    };
    let t = AppTrack::from_json(&raw).unwrap();
    assert_eq!(t.artist_names, "A(B");
}

#[test]
fn from_catalog_builds_canonical_uri() {
    let t = AppTrack::from_catalog(
        Some("abc".to_string()),
        false,
        "Song".to_string(),
        vec!["A".to_string()],
        "Album".to_string(),
        Some("album".to_string()),
        Some("2020-01-01".to_string()),
        1000,
    )
    .unwrap();
    assert_eq!(t.uri, "spotify:track:abc");
    assert_eq!(t.id, "abc");
    assert_eq!(t.artist_names, "A");
}

#[test]
fn from_catalog_builds_local_uri() {
    let t = AppTrack::from_catalog(
        None,
        true,
        "Ti".to_string(),
        vec!["A B".to_string()],
        "Al".to_string(),
        None,
        None,
        123456,
    )
    .unwrap();
    assert_eq!(t.uri, "spotify:local:A%20B:Al:Ti:123");
    assert_eq!(t.id, "");
}

#[test]
fn from_catalog_without_identity_is_none() {
    let r = AppTrack::from_catalog(
        None,
        false,
        "Ti".to_string(),
        vec![],
        "Al".to_string(),
        None,
        None,
        1,
    );
    assert!(r.is_none());
}

#[test]
fn sort_by_artist_case_insensitive() {
    let tracks = vec![
        mk_track("s1", "beta", "x", "album", "2020", "u1", 1),
        mk_track("s2", "Alpha", "x", "album", "2020", "u2", 1),
    ];
    let sorted = sort_tracks(tracks, &vec![rule("Artist", false)]);
    assert_eq!(sorted[0].artist_names, "Alpha");
    assert_eq!(sorted[1].artist_names, "beta");
}

#[test]
fn sort_empty_rules_is_identity() {
    let tracks = vec![
        mk_track("b", "b", "x", "album", "2020", "u1", 1),
        mk_track("a", "a", "x", "album", "2020", "u2", 1),
    ];
    let sorted = sort_tracks(tracks, &vec![]);
    assert_eq!(sorted[0].name, "b");
    assert_eq!(sorted[1].name, "a");
}

#[test]
fn sort_is_stable_on_ties() {
    let tracks = vec![
        mk_track("first", "Same", "x", "album", "2020", "u1", 1),
        mk_track("second", "Same", "x", "album", "2020", "u2", 1),
        mk_track("third", "Aaa", "x", "album", "2020", "u3", 1),
    ];
    let sorted = sort_tracks(tracks, &vec![rule("Artist", false)]);
    assert_eq!(sorted[0].name, "third");
    assert_eq!(sorted[1].name, "first");
    assert_eq!(sorted[2].name, "second");
}

#[test]
fn sort_twice_is_idempotent() {
    let tracks = vec![
        mk_track("c", "C", "x", "album", "2021", "u1", 5),
        mk_track("a", "A", "x", "album", "2019", "u2", 9),
        mk_track("b", "B", "x", "album", "2020", "u3", 7),
    ];
    let rules = vec![rule("Release Date", false), rule("Artist", false)];
    let once = sort_tracks(tracks, &rules);
    let names_once: Vec<String> = once.iter().map(|t| t.name.clone()).collect();
    let twice = sort_tracks(once, &rules);
    let names_twice: Vec<String> = twice.iter().map(|t| t.name.clone()).collect();
    assert_eq!(names_once, names_twice);
}

#[test]
fn sort_descending_reverses_decisive_rule() {
    let tracks = vec![
        mk_track("a", "A", "x", "album", "2020", "u1", 1),
        mk_track("b", "B", "x", "album", "2020", "u2", 1),
    ];
    let asc = sort_tracks(tracks.clone(), &vec![rule("Artist", false)]);
    let desc = sort_tracks(tracks, &vec![rule("Artist", true)]);
    assert_eq!(asc[0].name, "a");
    assert_eq!(desc[0].name, "b");
}

#[test]
fn sort_pads_partial_dates() {
    let tracks = vec![
        mk_track("newer", "A", "x", "album", "2020", "u1", 1),
        mk_track("older", "A", "x", "album", "2019-12-31", "u2", 1),
    ];
    let sorted = sort_tracks(tracks, &vec![rule("Release Date", false)]);
    assert_eq!(sorted[0].name, "older");
}

#[test]
fn sort_by_duration() {
    let tracks = vec![
        mk_track("long", "A", "x", "album", "2020", "u1", 500),
        mk_track("short", "A", "x", "album", "2020", "u2", 100),
    ];
    let sorted = sort_tracks(tracks, &vec![rule("Duration", false)]);
    assert_eq!(sorted[0].name, "short");
}

#[test]
fn dedup_counts_add_up() {
    let tracks = vec![
        mk_track("Song", "A", "x", "album", "2020", "u1", 1),
        mk_track("Song", "A", "x", "album", "2015", "u2", 1),
        mk_track("Other", "B", "x", "album", "2018", "u3", 1),
    ];
    let n = tracks.len();
    let (kept, removed) = remove_duplicates(tracks, "Keep Oldest (Release Date)");
    assert_eq!(kept.len() + removed.len(), n);
    assert_eq!(kept.len(), 2);
    assert_eq!(removed.len(), 1);
}

#[test]
fn dedup_oldest_by_release_date() {
    let tracks = vec![
        mk_track("Song", "A", "x", "album", "2020", "u-new", 1),
        mk_track("Song", "A", "x", "album", "2015", "u-old", 1),
    ];
    let (kept, removed) = remove_duplicates(tracks, "Keep Oldest (Release Date)");
    assert_eq!(kept.len(), 1);
    assert_eq!(kept[0].release_date, "2015");
    assert_eq!(removed.len(), 1);
    assert_eq!(removed[0].release_date, "2020");
}

#[test]
fn dedup_newest_by_release_date() {
    let tracks = vec![
        mk_track("Song", "A", "x", "album", "2020", "u-new", 1),
        mk_track("Song", "A", "x", "album", "2015", "u-old", 1),
    ];
    let (kept, _removed) = remove_duplicates(tracks, "Keep Newest (Release Date)");
    assert_eq!(kept.len(), 1);
    assert_eq!(kept[0].release_date, "2020");
}

#[test]
fn dedup_keeps_first_by_position() {
    let tracks = vec![
        mk_track("Song", "A", "x", "album", "2020", "u1", 1),
        mk_track("Song", "A", "x", "album", "2015", "u2", 1),
    ];
    let (kept, _removed) = remove_duplicates(tracks, "Keep Oldest (Playlist Order)");
    assert_eq!(kept[0].uri, "u1");
}

#[test]
fn dedup_keeps_last_by_position() {
    let tracks = vec![
        mk_track("Song", "A", "x", "album", "2020", "u1", 1),
        mk_track("Song", "A", "x", "album", "2015", "u2", 1),
    ];
    let (kept, _removed) = remove_duplicates(tracks, "Keep Newest (Playlist Order)");
    assert_eq!(kept[0].uri, "u2");
}

#[test]
fn dedup_preserves_order_of_kept() {
    let tracks = vec![
        mk_track("One", "A", "x", "album", "2020", "u1", 1),
        mk_track("Two", "B", "x", "album", "2020", "u2", 1),
        mk_track("One", "A", "x", "album", "2021", "u3", 1),
        mk_track("Three", "C", "x", "album", "2020", "u4", 1),
    ];
    let (kept, _removed) = remove_duplicates(tracks, "Keep Oldest (Release Date)");
    let names: Vec<String> = kept.iter().map(|t| t.name.clone()).collect();
    assert_eq!(names, vec!["One", "Two", "Three"]);
}

#[test]
fn filenames_are_sanitized() {
    assert_eq!(sanitize_filename("My List: vol/2"), "My List_ vol_2");
    assert_eq!(sanitize_filename("  plain name  "), "plain name");
}

#[test]
fn csv_quotes_are_doubled() {
    assert_eq!(escape_csv("say \"hi\""), "say \"\"hi\"\"");
    assert_eq!(escape_csv("plain"), "plain");
}

#[test]
fn unparseable_dates_sort_earliest() {
    assert_eq!(parse_date("not a date"), "0000-01-01");
    assert_eq!(parse_date("2020-13"), "0000-01-01");
    assert_eq!(parse_date("2020-05-32"), "0000-01-01");
    assert_eq!(parse_date("20-05-06"), "0000-01-01");
    let tracks = vec![
        mk_track("dated", "A", "x", "album", "1901", "u1", 1),
        mk_track("junk", "A", "x", "album", "someday", "u2", 1),
    ];
    let sorted = sort_tracks(tracks, &vec![rule("Release Date", false)]);
    assert_eq!(sorted[0].name, "junk");
}

#[test]
fn duplicate_key_collapses_and_strips() {
    let t = mk_track("Hello   World", "AC/DC, Other", "X", "album", "2020", "u1", 1);
    assert_eq!(t.duplicate_key(), "hello world|acdc");
}

#[test]
fn dedup_date_ties_keep_first_occurrence() {
    let tracks = vec![
        mk_track("Song", "A", "x", "album", "2020", "u1", 1),
        mk_track("Song", "A", "x", "album", "2020", "u2", 1),
    ];
    let (kept, _removed) = remove_duplicates(tracks.clone(), "Keep Oldest (Release Date)");
    assert_eq!(kept.len(), 1);
    assert_eq!(kept[0].uri, "u1");
    let (kept, _removed) = remove_duplicates(tracks, "Keep Newest (Release Date)");
    assert_eq!(kept[0].uri, "u1");
}

#[test]
fn dedup_unrecognized_preference_keeps_first() {
    let tracks = vec![
        mk_track("Song", "A", "x", "album", "2020", "u1", 1),
        mk_track("Song", "A", "x", "album", "2015", "u2", 1),
    ];
    let (kept, _removed) = remove_duplicates(tracks, "anything else");
    assert_eq!(kept[0].uri, "u1");
}
