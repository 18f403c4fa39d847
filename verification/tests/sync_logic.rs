//! Tests of the order-reconciliation engine, the snapshot cache, the
//! version matcher and the change-application logic.

use spotify_sorter::cache::{PlaylistCacheEntry, SnapshotCache};
use spotify_sorter::changes::{
    apply_replacements, build_duplicate_change, merge_ignored, new_change_id,
    remove_approved_duplicates, remove_history_entry, HistoryEntry, ReviewChange,
};
use spotify_sorter::debug_log::{DebugLog, LogType};
use spotify_sorter::dynamic::{
    apply_filters, deduplicate_tracks, is_rate_limit_message, remove_schedule, retry_delay_secs,
    sample_tracks, upsert_config, upsert_schedule, DesktopSchedule, DynamicPlaylistConfig,
    TrackInfo,
};
use spotify_sorter::reconcile::{
    apply_move, chunk_uris, kept_uris, plan_keep_flags, removal_entries, reorder_step, use_reorder,
    valid_replace_uris, ReorderStep,
};
use spotify_sorter::track::AppTrack;
use spotify_sorter::versions::{
    adopt_version, best_candidate, clean_title, filter_candidates, match_titles_relaxed,
    merge_candidates, should_replace, strip_original_suffix, type_priority,
};

fn uris(xs: &[&str]) -> Vec<String> {
    xs.iter().map(|s| s.to_string()).collect()
}

fn mk(name: &str, artist: &str, album_type: &str, date: &str, id: &str) -> AppTrack {
    AppTrack {
        id: id.to_string(),
        name: name.to_string(),
        artist_names: artist.to_string(),
        album_name: "X".to_string(),
        album_type: album_type.to_string(),
        release_date: date.to_string(),
        uri: format!("spotify:track:{}", id),
        duration_ms: 100,
    }
}

/// Run the reorder pass as the engine's caller would, counting moves.
fn simulate_reorder(current: &mut Vec<String>, target: &Vec<String>) -> usize {
    let mut moves = 0;
    for i in 0..target.len() {
        match reorder_step(current, target, i) {
            ReorderStep::Done => break,
            ReorderStep::Keep => {}
            ReorderStep::Move { from } => {
                apply_move(current, from, i);
                moves += 1;
            }
            ReorderStep::Skip => {}
        }
    }
    moves
}

#[test]
fn reconcile_prunes_and_reaches_target() {
    let current = uris(&["A", "B", "C", "A"]);
    let target = uris(&["C", "A", "B"]);
    let keep = plan_keep_flags(&current, &target);
    assert_eq!(keep, vec![true, true, true, false]);
    let entries = removal_entries(&current, &keep);
    assert_eq!(entries.len(), 1);
    assert_eq!(entries[0].uri, "A");
    assert_eq!(entries[0].positions, vec![3u32]);
    let mut pruned = kept_uris(&current, &keep);
    assert_eq!(pruned, uris(&["A", "B", "C"]));
    let moves = simulate_reorder(&mut pruned, &target);
    assert_eq!(pruned, target);
    assert!(moves >= 1);
}

#[test]
fn reconcile_swap_is_one_move() {
    let current = uris(&["X", "Y"]);
    let target = uris(&["Y", "X"]);
    let keep = plan_keep_flags(&current, &target);
    assert_eq!(keep, vec![true, true]);
    let entries = removal_entries(&current, &keep);
    assert!(entries.is_empty());
    let mut local = kept_uris(&current, &keep);
    // the one move takes Y from slot 1 up to slot 0
    match reorder_step(&local, &target, 0) {
        ReorderStep::Move { from } => {
            assert_eq!(from, 1);
            apply_move(&mut local, from, 0);
        }
        _ => panic!("expected a move"),
    }
    assert!(matches!(reorder_step(&local, &target, 1), ReorderStep::Keep));
    assert_eq!(local, target);
}

#[test]
fn reconcile_skips_missing_uris() {
    let current = uris(&["A", "B"]);
    let target = uris(&["A", "Z"]);
    // Z is nowhere in the current list: the pass degrades gracefully
    assert!(matches!(reorder_step(&current, &target, 1), ReorderStep::Skip));
}

#[test]
fn replace_filters_unaddressable_uris() {
    let v = valid_replace_uris(uris(&["spotify:track:a", "", "nocolon", "spotify:local:x:y:z:1"]));
    assert_eq!(v, uris(&["spotify:track:a", "spotify:local:x:y:z:1"]));
}

#[test]
fn replace_chunks_are_bounded() {
    let all: Vec<String> = (0..120).map(|i| format!("u{}", i)).collect();
    let chunks = chunk_uris(all.clone(), 50);
    assert_eq!(chunks.len(), 3);
    assert_eq!(chunks[0].len(), 50);
    assert_eq!(chunks[1].len(), 50);
    assert_eq!(chunks[2].len(), 20);
    let flat: Vec<String> = chunks.into_iter().flatten().collect();
    assert_eq!(flat, all);
}

#[test]
fn cache_get_after_put_returns_tracks() {
    let mut cache = SnapshotCache::new();
    let tracks = vec![mk("Song", "A", "album", "2020", "id1")];
    cache.put(
        "pl1".to_string(),
        PlaylistCacheEntry { snapshot_id: "tok1".to_string(), tracks, timestamp: 5 },
    );
    let entry = cache.get("pl1").expect("entry");
    assert_eq!(entry.snapshot_id, "tok1");
    assert_eq!(entry.tracks.len(), 1);
    assert_eq!(entry.tracks[0].name, "Song");
}

#[test]
fn cache_put_overwrites_same_playlist() {
    let mut cache = SnapshotCache::new();
    cache.put(
        "pl1".to_string(),
        PlaylistCacheEntry { snapshot_id: "tok1".to_string(), tracks: vec![], timestamp: 1 },
    );
    cache.put(
        "pl1".to_string(),
        PlaylistCacheEntry { snapshot_id: "tok2".to_string(), tracks: vec![], timestamp: 2 },
    );
    assert_eq!(cache.get("pl1").unwrap().snapshot_id, "tok2");
}

#[test]
fn cache_invalidate_forgets_playlist() {
    let mut cache = SnapshotCache::new();
    cache.put(
        "pl1".to_string(),
        PlaylistCacheEntry { snapshot_id: "tok1".to_string(), tracks: vec![], timestamp: 1 },
    );
    cache.put(
        "pl2".to_string(),
        PlaylistCacheEntry { snapshot_id: "tok2".to_string(), tracks: vec![], timestamp: 1 },
    );
    cache.invalidate("pl1");
    assert!(cache.get("pl1").is_none());
    assert!(cache.get("pl2").is_some());
}

#[test]
fn clean_title_normalizes() {
    assert_eq!(clean_title("Hello - World (Remix)"), "hello world remix");
    assert_eq!(clean_title("  A_B  [C]! "), "a b c");
}

#[test]
fn strip_original_suffix_variants() {
    assert_eq!(strip_original_suffix("song original mix"), "song");
    assert_eq!(strip_original_suffix("song original"), "song");
    assert_eq!(strip_original_suffix("song"), "song");
    assert_eq!(strip_original_suffix("original sin"), "original sin");
}

#[test]
fn titles_with_keyword_conflict_never_match() {
    assert!(!match_titles_relaxed("Song (Remix)", "Song"));
    assert!(!match_titles_relaxed("Song", "Song VIP"));
    assert!(match_titles_relaxed("Song (Remix)", "Song [remix]"));
}

#[test]
fn titles_match_after_original_stripping() {
    assert!(match_titles_relaxed("Song (Original Mix)", "Song"));
    assert!(match_titles_relaxed("Song", "song"));
    assert!(!match_titles_relaxed("Song", "Other"));
}

#[test]
fn type_priority_ranks_album_types() {
    assert_eq!(type_priority("single"), 0);
    assert_eq!(type_priority("ALBUM"), 1);
    assert_eq!(type_priority("Compilation"), 2);
    assert_eq!(type_priority("ep"), 3);
}

#[test]
fn never_downgrade_wins_over_dates() {
    // a better (older) date never overcomes a worse album type
    assert!(!should_replace("Artist Only: Oldest Version", 100, 50, 0, 1));
    assert!(!should_replace("Global: Newest Version", 100, 200, 1, 2));
}

#[test]
fn replace_on_strictly_better_date() {
    assert!(should_replace("Artist Only: Oldest Version", 100, 50, 1, 1));
    assert!(!should_replace("Artist Only: Oldest Version", 100, 150, 1, 1));
    assert!(should_replace("Global: Newest Version", 100, 150, 1, 1));
}

#[test]
fn replace_on_equal_date_better_type() {
    assert!(should_replace("Artist Only: Oldest Version", 100, 100, 1, 0));
    assert!(!should_replace("Artist Only: Oldest Version", 100, 100, 1, 1));
}

#[test]
fn candidate_filter_rejects_same_id_and_foreign_artists() {
    let track = mk("Song", "Alice", "album", "2020", "id0");
    let cands = vec![
        mk("Song", "Alice", "single", "2018", "id0"),     // same id
        mk("Song", "Bob", "single", "2018", "id1"),       // artist mismatch
        mk("Song", "ALICE", "single", "2018", "id2"),     // passes
        mk("Song (Remix)", "Alice", "single", "2018", "id3"), // keyword conflict
    ];
    let passed = filter_candidates(&track, cands);
    assert_eq!(passed.len(), 1);
    assert_eq!(passed[0].id, "id2");
}

#[test]
fn best_candidate_prefers_oldest_then_type() {
    let cands = vec![
        mk("Song", "A", "compilation", "2019", "c1"),
        mk("Song", "A", "single", "2019", "c2"),
        mk("Song", "A", "album", "2020", "c3"),
    ];
    let best = best_candidate(&cands, "Artist Only: Oldest Version").unwrap();
    // both 2019 releases tie on date; the single outranks the compilation
    assert_eq!(cands[best].id, "c2");
}

#[test]
fn best_candidate_none_when_empty() {
    let cands: Vec<AppTrack> = vec![];
    assert!(best_candidate(&cands, "Artist Only: Oldest Version").is_none());
}

#[test]
fn approved_removals_take_one_instance_each() {
    let tracks = vec![
        mk("One", "A", "album", "2020", "a"),
        mk("One", "A", "album", "2020", "a"),
        mk("Two", "B", "album", "2020", "b"),
    ];
    let removals = vec!["spotify:track:a".to_string()];
    let kept = remove_approved_duplicates(tracks, &removals);
    assert_eq!(kept.len(), 2);
    assert_eq!(kept[0].uri, "spotify:track:a");
    assert_eq!(kept[1].uri, "spotify:track:b");
}

fn replace_change_for(t: &AppTrack, new_uri: &str, new_title: &str) -> ReviewChange {
    ReviewChange {
        id: new_change_id(),
        change_type: "replace".to_string(),
        new_title: Some(new_title.to_string()),
        new_artist: None,
        new_album: None,
        new_date: None,
        rem_title: Some(t.name.clone()),
        rem_artist: Some(t.artist_names.clone()),
        rem_album: Some(t.album_name.clone()),
        rem_date: Some(t.release_date.clone()),
        track_uri: new_uri.to_string(),
        original_index: 0,
        original_uri: t.uri.clone(),
    }
}

#[test]
fn replacements_swap_identity_in_place() {
    let tracks = vec![mk("Old", "A", "album", "2020", "a"), mk("Other", "B", "album", "2020", "b")];
    let change = replace_change_for(&tracks[0], "spotify:track:new", "New");
    let out = apply_replacements(tracks, vec![change]);
    assert_eq!(out.len(), 2);
    assert_eq!(out[0].uri, "spotify:track:new");
    assert_eq!(out[0].name, "New");
    assert_eq!(out[1].uri, "spotify:track:b");
}

#[test]
fn duplicate_change_snapshots_track() {
    let t = mk("Song", "A", "album", "2020", "a");
    let c = build_duplicate_change(&t);
    assert_eq!(c.change_type, "duplicate");
    assert_eq!(c.rem_title.as_deref(), Some("Song"));
    assert_eq!(c.track_uri, t.uri);
    assert_eq!(c.id.len(), 36);
}

#[test]
fn rejected_changes_enter_ignore_ledger_once() {
    let t = mk("Song", "A", "album", "2020", "a");
    let c1 = build_duplicate_change(&t);
    let c2 = build_duplicate_change(&t);
    let ledger = merge_ignored(vec![], &vec![c1, c2], "pl1");
    assert_eq!(ledger.len(), 1);
    assert_eq!(ledger[0].id, t.uri);
    assert_eq!(ledger[0].source_playlist, "pl1");
    assert_eq!(ledger[0].rejected_context, "Duplicate Removal");
}

#[test]
fn history_entry_removal_filters_by_id() {
    let mk_entry = |id: &str| HistoryEntry {
        id: id.to_string(),
        playlist_name: "p".to_string(),
        playlist_id: "pid".to_string(),
        action: "a".to_string(),
        time: "t".to_string(),
        backup_file: "f".to_string(),
        changes: None,
        ignored: None,
        dynamic_config_backup: None,
    };
    let out = remove_history_entry(vec![mk_entry("h1"), mk_entry("h2")], "h1");
    assert_eq!(out.len(), 1);
    assert_eq!(out[0].id, "h2");
}

fn info(uri: &str, name: &str, artist: &str) -> TrackInfo {
    TrackInfo {
        uri: uri.to_string(),
        id: uri.to_string(),
        name: name.to_string(),
        artist: artist.to_string(),
        album: "X".to_string(),
        album_type: "album".to_string(),
        release_date: "2020".to_string(),
        duration_ms: 100,
    }
}

#[test]
fn dynamic_dedup_keeps_first_occurrence() {
    let tracks = vec![info("u1", "a", "A"), info("u2", "b", "B"), info("u1", "c", "C")];
    let out = deduplicate_tracks(tracks);
    assert_eq!(out.len(), 2);
    assert_eq!(out[0].name, "a");
    assert_eq!(out[1].name, "b");
}

#[test]
fn filters_exclude_liked_and_keywords() {
    let tracks = vec![
        info("u1", "Nice Song", "A"),
        info("u2", "Live at Venue", "A"),
        info("u3", "Other", "A"),
    ];
    let liked = vec!["u3".to_string()];
    let blacklist = vec!["live".to_string()];
    let out = apply_filters(tracks, true, &liked, &blacklist);
    assert_eq!(out.len(), 1);
    assert_eq!(out[0].uri, "u1");
}

#[test]
fn sampling_caps_the_count() {
    let tracks: Vec<TrackInfo> = (0..10).map(|i| info(&format!("u{}", i), "n", "a")).collect();
    let out = sample_tracks(tracks.clone(), Some(3));
    assert_eq!(out.len(), 3);
    for t in &out {
        assert!(tracks.iter().any(|x| x.uri == t.uri));
    }
    let all = sample_tracks(tracks.clone(), None);
    assert_eq!(all.len(), 10);
}

#[test]
fn rate_limit_messages_are_recognized() {
    assert!(is_rate_limit_message("http status 429"));
    assert!(is_rate_limit_message("Rate Limit exceeded"));
    assert!(!is_rate_limit_message("not found"));
}

#[test]
fn retry_backoff_doubles() {
    assert_eq!(retry_delay_secs(0), 2);
    assert_eq!(retry_delay_secs(1), 4);
    assert_eq!(retry_delay_secs(4), 32);
}

#[test]
fn config_upsert_replaces_by_id() {
    let mut c1 = DynamicPlaylistConfig::new("one".to_string(), "t1".to_string());
    c1.id = "fixed".to_string();
    let mut c2 = DynamicPlaylistConfig::new("two".to_string(), "t2".to_string());
    c2.id = "fixed".to_string();
    let configs = upsert_config(vec![c1], c2);
    assert_eq!(configs.len(), 1);
    assert_eq!(configs[0].name, "two");
    let c3 = DynamicPlaylistConfig::new("three".to_string(), "t3".to_string());
    let configs = upsert_config(configs, c3);
    assert_eq!(configs.len(), 2);
}

#[test]
fn debug_log_carries_details() {
    let log = DebugLog::new(LogType::Info, "checking".to_string());
    assert!(log.details.is_none());
    let log = log.with_details("more".to_string());
    assert_eq!(log.message, "checking");
    assert_eq!(log.details.as_deref(), Some("more"));
}

#[test]
fn strategy_prefers_reorder_with_baseline() {
    assert!(use_reorder(&Some(uris(&["a"]))));
    assert!(!use_reorder(&Some(vec![])));
    assert!(!use_reorder(&None));
}

#[test]
fn candidate_merge_dedups_by_id() {
    let acc = vec![mk("Song", "A", "album", "2020", "id1")];
    let batch = vec![
        mk("Song", "A", "single", "2019", "id1"),
        mk("Song", "A", "single", "2019", "id2"),
    ];
    let merged = merge_candidates(acc, batch);
    assert_eq!(merged.len(), 2);
    assert_eq!(merged[0].id, "id1");
    assert_eq!(merged[0].album_type, "album");
    assert_eq!(merged[1].id, "id2");
}

#[test]
fn schedule_upsert_and_removal() {
    let mk_sched = |id: &str, cron: &str| DesktopSchedule {
        id: id.to_string(),
        config_id: "cfg".to_string(),
        cron_expression: cron.to_string(),
        enabled: true,
        last_run: None,
    };
    let schedules = upsert_schedule(vec![], mk_sched("s1", "0 * * * * *"));
    let schedules = upsert_schedule(schedules, mk_sched("s1", "0 0 * * * *"));
    assert_eq!(schedules.len(), 1);
    assert_eq!(schedules[0].cron_expression, "0 0 * * * *");
    let schedules = upsert_schedule(schedules, mk_sched("s2", "0 * * * * *"));
    assert_eq!(schedules.len(), 2);
    let schedules = remove_schedule(schedules, "s1");
    assert_eq!(schedules.len(), 1);
    assert_eq!(schedules[0].id, "s2");
}

#[test]
fn adopted_version_keeps_duration_and_type() {
    let mut track = mk("Old", "A", "album", "2020", "a");
    let old_duration = track.duration_ms;
    let best = AppTrack {
        id: "b".to_string(),
        name: "New".to_string(),
        artist_names: "B".to_string(),
        album_name: "Y".to_string(),
        album_type: "single".to_string(),
        release_date: "2015".to_string(),
        uri: "spotify:track:b".to_string(),
        duration_ms: 999,
    };
    adopt_version(&mut track, &best);
    assert_eq!(track.id, "b");
    assert_eq!(track.uri, "spotify:track:b");
    assert_eq!(track.name, "New");
    assert_eq!(track.artist_names, "B");
    assert_eq!(track.album_name, "Y");
    assert_eq!(track.release_date, "2015");
    assert_eq!(track.album_type, "album");
    assert_eq!(track.duration_ms, old_duration);
}

#[test]
fn rejected_replacement_records_new_side() {
    let t = mk("Song", "A", "album", "2020", "a");
    let best = mk("Song", "A", "single", "2015", "b");
    let c = spotify_sorter::changes::build_replace_change(&t, &best, 4);
    let ledger = merge_ignored(vec![], &vec![c], "pl1");
    assert_eq!(ledger.len(), 1);
    assert_eq!(ledger[0].rejected_context, "Replacement");
    assert_eq!(ledger[0].ignored_title.as_deref(), Some("Song"));
    assert_eq!(ledger[0].ignored_year.as_deref(), Some("2015"));
    assert_eq!(ledger[0].title, "Song");
    assert_eq!(ledger[0].year, "2020");
}
