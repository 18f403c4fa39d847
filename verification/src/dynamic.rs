//! Dynamic playlists: configurations that pull tracks from sources, filter
//! and sample them, and update a target playlist in one of three modes.

use vstd::prelude::*;
use rand::seq::SliceRandom;
use crate::strutil::{chars_vec, lower_of, lowercase, str_eq};
use crate::track::AppTrack;
use crate::versions::{contains_sub, spec_contains};

verus! {

/// Where a dynamic playlist draws its tracks from.
#[derive(Clone, Debug)]
pub enum Source {
    Playlist { id: String },
    LikedSongs,
}

/// How the target playlist is updated.
#[derive(Clone, Debug)]
pub enum UpdateMode {
    Replace,
    Merge,
    Append,
}

/// Exclusion filters applied to collected tracks.
#[derive(Clone, Debug)]
pub struct FilterConfig {
    pub exclude_liked: bool,
    pub keyword_blacklist: Vec<String>,
}

/// Sort, dedup and version options applied during an update.
#[derive(Clone, Debug)]
pub struct ProcessingOptions {
    pub apply_sort: bool,
    pub apply_dupes: bool,
    pub apply_versions: bool,
    pub sort_rules: Vec<crate::track::SortRule>,
    pub dupe_preference: String,
    pub version_preference: String,
}

/// One dynamic playlist's full configuration.
#[derive(Clone, Debug)]
pub struct DynamicPlaylistConfig {
    pub id: String,
    pub name: String,
    pub target_playlist_id: String,
    pub sources: Vec<Source>,
    pub filters: FilterConfig,
    pub update_mode: UpdateMode,
    pub sample_per_source: Option<usize>,
    pub include_liked_songs: bool,
    pub processing: ProcessingOptions,
}

impl DynamicPlaylistConfig {
    /// A fresh configuration with a new identifier, replace mode and no
    /// sources or filters.
    pub fn new(name: String, target_playlist_id: String) -> (r: DynamicPlaylistConfig)
        ensures
            r.name@ == name@,
            r.target_playlist_id@ == target_playlist_id@,
            r.sources@.len() == 0,
            r.update_mode is Replace,
            r.sample_per_source is None,
            !r.include_liked_songs,
            !r.filters.exclude_liked,
            r.filters.keyword_blacklist@.len() == 0,
    {
        DynamicPlaylistConfig {
            id: crate::changes::new_change_id(),
            name,
            target_playlist_id,
            sources: Vec::new(),
            filters: FilterConfig { exclude_liked: false, keyword_blacklist: Vec::new() },
            update_mode: UpdateMode::Replace,
            sample_per_source: None,
            include_liked_songs: false,
            processing: ProcessingOptions {
                apply_sort: false,
                apply_dupes: false,
                apply_versions: false,
                sort_rules: Vec::new(),
                dupe_preference: String::new(),
                version_preference: String::new(),
            },
        }
    }
}

/// Track data as the dynamic-playlist pipeline carries it.
#[derive(Clone, Debug)]
pub struct TrackInfo {
    pub uri: String,
    pub id: String,
    pub name: String,
    pub artist: String,
    pub album: String,
    pub album_type: String,
    pub release_date: String,
    pub duration_ms: u32,
}

impl TrackInfo {
    /// The same track as a canonical track, for the shared sort and dedup
    /// logic.
    pub fn to_app_track(&self) -> (r: AppTrack)
        ensures
            r.id@ == self.id@,
            r.name@ == self.name@,
            r.artist_names@ == self.artist@,
            r.album_name@ == self.album@,
            r.album_type@ == self.album_type@,
            r.release_date@ == self.release_date@,
            r.uri@ == self.uri@,
            r.duration_ms == self.duration_ms,
    {
        AppTrack {
            id: self.id.clone(),
            name: self.name.clone(),
            artist_names: self.artist.clone(),
            album_name: self.album.clone(),
            album_type: self.album_type.clone(),
            release_date: self.release_date.clone(),
            uri: self.uri.clone(),
            duration_ms: self.duration_ms,
        }
    }

    /// A field-wise copy whose contents are known to equal the original's.
    pub fn to_info_copy(&self) -> (r: TrackInfo)
        ensures
            r == *self,
    {
        TrackInfo {
            uri: self.uri.clone(),
            id: self.id.clone(),
            name: self.name.clone(),
            artist: self.artist.clone(),
            album: self.album.clone(),
            album_type: self.album_type.clone(),
            release_date: self.release_date.clone(),
            duration_ms: self.duration_ms,
        }
    }

    /// A canonical track carried back into the pipeline.
    pub fn from_app_track(track: &AppTrack) -> (r: TrackInfo)
        ensures
            r.uri@ == track.uri@,
            r.id@ == track.id@,
            r.name@ == track.name@,
            r.artist@ == track.artist_names@,
            r.album@ == track.album_name@,
            r.album_type@ == track.album_type@,
            r.release_date@ == track.release_date@,
            r.duration_ms == track.duration_ms,
    {
        TrackInfo {
            uri: track.uri.clone(),
            id: track.id.clone(),
            name: track.name.clone(),
            artist: track.artist_names.clone(),
            album: track.album_name.clone(),
            album_type: track.album_type.clone(),
            release_date: track.release_date.clone(),
            duration_ms: track.duration_ms,
        }
    }
}

/// Whether a URI is among the given ones.
pub open spec fn uri_among(uris: Seq<String>, u: Seq<char>) -> bool {
    exists|i: int| 0 <= i < uris.len() && #[trigger] uris[i]@ == u
}

fn uri_among_exec(uris: &Vec<String>, u: &String) -> (r: bool)
    ensures
        r == uri_among(uris@, u@),
{
    let mut i: usize = 0;
    while i < uris.len()
        invariant
            i <= uris@.len(),
            forall|m: int| 0 <= m < i ==> uris@[m]@ != u@,
        decreases uris@.len() - i,
    {
        if str_eq(uris[i].as_str(), u.as_str()) {
            proof {
                assert(uris@[i as int]@ == u@);
            }
            return true;
        }
        i = i + 1;
    }
    false
}

/// Whether a blacklist keyword occurs, lowercased, in the track's name,
/// artist or album.
pub open spec fn keyword_hits(t: TrackInfo, kw: Seq<char>) -> bool {
    ||| spec_contains(lower_of(t.name@), lower_of(kw))
    ||| spec_contains(lower_of(t.artist@), lower_of(kw))
    ||| spec_contains(lower_of(t.album@), lower_of(kw))
}

/// Whether a track passes the filters: not a liked song when those are
/// excluded, and free of every blacklisted keyword.
pub open spec fn passes_filters(
    t: TrackInfo,
    exclude_liked: bool,
    liked: Seq<String>,
    blacklist: Seq<String>,
) -> bool {
    &&& !(exclude_liked && uri_among(liked, t.uri@))
    &&& forall|k: int| 0 <= k < blacklist.len() ==> !keyword_hits(t, #[trigger] blacklist[k]@)
}

fn track_passes(
    t: &TrackInfo,
    exclude_liked: bool,
    liked: &Vec<String>,
    blacklist: &Vec<String>,
) -> (r: bool)
    ensures
        r == passes_filters(*t, exclude_liked, liked@, blacklist@),
{
    if exclude_liked && uri_among_exec(liked, &t.uri) {
        return false;
    }
    let name_l = chars_vec(lowercase(t.name.as_str()).as_str());
    let artist_l = chars_vec(lowercase(t.artist.as_str()).as_str());
    let album_l = chars_vec(lowercase(t.album.as_str()).as_str());
    let mut k: usize = 0;
    while k < blacklist.len()
        invariant
            k <= blacklist@.len(),
            name_l@ == lower_of(t.name@),
            artist_l@ == lower_of(t.artist@),
            album_l@ == lower_of(t.album@),
            forall|m: int| 0 <= m < k ==> !keyword_hits(*t, #[trigger] blacklist@[m]@),
        decreases blacklist@.len() - k,
    {
        let kw = chars_vec(lowercase(blacklist[k].as_str()).as_str());
        if contains_sub(&name_l, &kw) || contains_sub(&artist_l, &kw) || contains_sub(
            &album_l,
            &kw,
        ) {
            proof {
                assert(keyword_hits(*t, blacklist@[k as int]@));
            }
            return false;
        }
        k = k + 1;
    }
    true
}

/// Keep the tracks that pass the filters, in order. An absent liked list
/// is an empty one: nothing is excluded by it.
pub fn apply_filters(
    tracks: Vec<TrackInfo>,
    exclude_liked: bool,
    liked: &Vec<String>,
    blacklist: &Vec<String>,
) -> (r: Vec<TrackInfo>)
    ensures
        r@ == tracks@.filter(
            |t: TrackInfo| passes_filters(t, exclude_liked, liked@, blacklist@),
        ),
{
    let ghost orig = tracks@;
    let n = tracks.len();
    let mut rest = tracks;
    let mut r: Vec<TrackInfo> = Vec::new();
    let mut i: usize = 0;
    proof {
        assert(rest@ =~= orig.skip(0));
        reveal_with_fuel(Seq::filter, 2);
        assert(orig.take(0).filter(
            |t: TrackInfo| passes_filters(t, exclude_liked, liked@, blacklist@),
        ) =~= Seq::<TrackInfo>::empty());
    }
    while i < n
        invariant
            i <= n,
            n == orig.len(),
            rest@ == orig.skip(i as int),
            r@ == orig.take(i as int).filter(
                |t: TrackInfo| passes_filters(t, exclude_liked, liked@, blacklist@),
            ),
        decreases n - i,
    {
        let t = rest.remove(0);
        proof {
            assert(t == orig[i as int]);
            assert(rest@ =~= orig.skip(i + 1));
            reveal_with_fuel(Seq::filter, 2);
            assert(orig.take(i + 1).drop_last() =~= orig.take(i as int));
            assert(orig.take(i + 1).last() == orig[i as int]);
        }
        let keep = track_passes(&t, exclude_liked, liked, blacklist);
        if keep {
            r.push(t);
        }
        proof {
            assert(r@ =~= orig.take(i + 1).filter(
                |x: TrackInfo| passes_filters(x, exclude_liked, liked@, blacklist@),
            ));
        }
        i = i + 1;
    }
    proof {
        assert(orig.take(n as int) =~= orig);
    }
    r
}

/// How many tracks of `s` carry the URI `u`.
pub open spec fn info_count_uri(s: Seq<TrackInfo>, u: Seq<char>) -> int {
    s.filter(|t: TrackInfo| t.uri@ == u).len() as int
}

/// The tracks with every repeated URI dropped: only each URI's first
/// occurrence stays, in order.
pub open spec fn spec_dedup_uris(s: Seq<TrackInfo>) -> Seq<TrackInfo>
    decreases s.len(),
{
    if s.len() == 0 {
        s
    } else {
        let rest = spec_dedup_uris(s.drop_last());
        if info_count_uri(s.drop_last(), s.last().uri@) > 0 {
            rest
        } else {
            rest.push(s.last())
        }
    }
}

fn info_count_upto(s: &Vec<TrackInfo>, upto: usize, u: &String) -> (r: usize)
    requires
        upto <= s@.len(),
    ensures
        r == info_count_uri(s@.take(upto as int), u@),
{
    let mut r: usize = 0;
    let mut i: usize = 0;
    while i < upto
        invariant
            i <= upto <= s@.len(),
            r == info_count_uri(s@.take(i as int), u@),
            r <= i,
        decreases upto - i,
    {
        proof {
            reveal_with_fuel(Seq::filter, 2);
            assert(s@.take(i + 1).drop_last() =~= s@.take(i as int));
            assert(s@.take(i + 1).last() == s@[i as int]);
        }
        if str_eq(s[i].uri.as_str(), u.as_str()) {
            r = r + 1;
        }
        i = i + 1;
    }
    r
}

/// Keep the first track of each URI, in order.
pub fn deduplicate_tracks(tracks: Vec<TrackInfo>) -> (r: Vec<TrackInfo>)
    ensures
        r@ == spec_dedup_uris(tracks@),
{
    let n = tracks.len();
    let mut r: Vec<TrackInfo> = Vec::new();
    let mut i: usize = 0;
    proof {
        assert(spec_dedup_uris(tracks@.take(0)) =~= Seq::<TrackInfo>::empty());
    }
    while i < n
        invariant
            i <= n,
            n == tracks@.len(),
            r@ == spec_dedup_uris(tracks@.take(i as int)),
        decreases n - i,
    {
        let seen = info_count_upto(&tracks, i, &tracks[i].uri);
        proof {
            assert(tracks@.take(i + 1).drop_last() =~= tracks@.take(i as int));
            assert(tracks@.take(i + 1).last() == tracks@[i as int]);
        }
        if seen == 0 {
            let t = tracks[i].to_info_copy();
            r.push(t);
        }
        i = i + 1;
    }
    proof {
        assert(tracks@.take(n as int) =~= tracks@);
    }
    r
}

/// Relies on rand's SliceRandom::shuffle with the thread-local generator:
/// it permutes the slice in place; which permutation comes out depends on
/// the generator, so only the multiset of tracks is promised.
#[verifier::external_body]
fn shuffle_tracks(tracks: &mut Vec<TrackInfo>)
    ensures
        final(tracks)@.len() == old(tracks)@.len(),
        final(tracks)@.to_multiset() == old(tracks)@.to_multiset(),
{
    let mut rng = rand::thread_rng();
    tracks.shuffle(&mut rng);
}

/// Sample at most `max_count` tracks at random: fewer tracks than the
/// bound pass through unchanged; otherwise a random subset of exactly the
/// bound is drawn from the input.
pub fn sample_tracks(tracks: Vec<TrackInfo>, max_count: Option<usize>) -> (r: Vec<TrackInfo>)
    ensures
        max_count is None ==> r@ == tracks@,
        max_count matches Some(k) ==> (k >= tracks@.len() ==> r@ == tracks@),
        max_count matches Some(k) ==> (k < tracks@.len() ==> r@.len() == k
            && r@.to_multiset().subset_of(tracks@.to_multiset())),

{
    broadcast use vstd::seq_lib::group_to_multiset_ensures;

    match max_count {
        Some(k) if k < tracks.len() => {
            let ghost input = tracks@;
            let mut shuffled = tracks;
            shuffle_tracks(&mut shuffled);
            let ghost pool = shuffled@;
            proof {
                assert(shuffled@ =~= pool.skip(0));
            }
            let mut r: Vec<TrackInfo> = Vec::new();
            let mut i: usize = 0;
            while i < k
                invariant
                    i <= k < pool.len(),
                    shuffled@ == pool.skip(i as int),
                    r@ == pool.take(i as int),
                decreases k - i,
            {
                let t = shuffled.remove(0);
                proof {
                    assert(t == pool[i as int]);
                    assert(shuffled@ =~= pool.skip(i + 1));
                }
                r.push(t);
                i = i + 1;
                assert(r@ =~= pool.take(i as int));
            }
            proof {
                broadcast use vstd::multiset::group_multiset_axioms;

                assert(pool.take(k as int) + pool.skip(k as int) =~= pool);
                vstd::seq_lib::lemma_multiset_commutative(
                    pool.take(k as int),
                    pool.skip(k as int),
                );
                assert(input.to_multiset() == pool.to_multiset());
                assert(r@.to_multiset().subset_of(input.to_multiset()));
            }
            r
        },
        _ => tracks,
    }
}

/// The URIs of the given tracks, in order.
pub open spec fn uris_of(tracks: Seq<TrackInfo>) -> Seq<Seq<char>> {
    tracks.map_values(|t: TrackInfo| t.uri@)
}

/// Collect the URIs of the given tracks.
pub fn track_uris(tracks: &Vec<TrackInfo>) -> (r: Vec<String>)
    ensures
        r@.len() == tracks@.len(),
        forall|i: int| 0 <= i < r@.len() ==> #[trigger] r@[i]@ == tracks@[i].uri@,
{
    let mut r: Vec<String> = Vec::new();
    let mut i: usize = 0;
    while i < tracks.len()
        invariant
            i <= tracks@.len(),
            r@.len() == i,
            forall|m: int| 0 <= m < i ==> #[trigger] r@[m]@ == tracks@[m].uri@,
        decreases tracks@.len() - i,
    {
        r.push(tracks[i].uri.clone());
        i = i + 1;
    }
    r
}

/// Whether some configuration carries this identifier.
pub open spec fn config_index(configs: Seq<DynamicPlaylistConfig>, id: Seq<char>) -> bool {
    exists|i: int| 0 <= i < configs.len() && #[trigger] configs[i].id@ == id
}

/// The index of the first configuration with this identifier, or the
/// length when none carries it.
pub open spec fn first_config_at(configs: Seq<DynamicPlaylistConfig>, id: Seq<char>) -> int
    decreases configs.len(),
{
    if configs.len() == 0 {
        0
    } else if configs[0].id@ == id {
        0
    } else {
        1 + first_config_at(configs.drop_first(), id)
    }
}

proof fn lemma_first_config_at_is(configs: Seq<DynamicPlaylistConfig>, id: Seq<char>, k: int)
    requires
        0 <= k <= configs.len(),
        forall|m: int| 0 <= m < k ==> configs[m].id@ != id,
        k == configs.len() || configs[k].id@ == id,
    ensures
        first_config_at(configs, id) == k,
    decreases k,
{
    if k > 0 {
        lemma_first_config_at_is(configs.drop_first(), id, k - 1);
    }
}

/// Save a configuration: replace the first existing one with the same
/// identifier, leaving every other entry in place, or append it as new.
pub fn upsert_config(
    configs: Vec<DynamicPlaylistConfig>,
    config: DynamicPlaylistConfig,
) -> (r: Vec<DynamicPlaylistConfig>)
    ensures
        config_index(configs@, config.id@) ==> r@ == configs@.update(
            first_config_at(configs@, config.id@),
            config,
        ),
        !config_index(configs@, config.id@) ==> r@ == configs@.push(config),
{
    let ghost orig = configs@;
    let ghost cfg = config;
    let mut r = configs;
    let mut i: usize = 0;
    while i < r.len()
        invariant
            r@ == orig,
            orig == configs@,
            i <= orig.len(),
            cfg == config,
            forall|m: int| 0 <= m < i ==> orig[m].id@ != cfg.id@,
        decreases orig.len() - i,
    {
        if str_eq(r[i].id.as_str(), config.id.as_str()) {
            proof {
                assert(orig[i as int].id@ == cfg.id@);
                assert(config_index(orig, cfg.id@));
                lemma_first_config_at_is(orig, cfg.id@, i as int);
            }
            let _ = r.remove(i);
            r.insert(i, config);
            proof {
                assert(r@ =~= orig.update(i as int, cfg));
            }
            return r;
        }
        i = i + 1;
    }
    proof {
        assert(!config_index(orig, cfg.id@));
    }
    r.push(config);
    r
}

/// Delete the configurations with the given identifier.
pub fn remove_config(
    configs: Vec<DynamicPlaylistConfig>,
    id: &str,
) -> (r: Vec<DynamicPlaylistConfig>)
    ensures
        r@ == configs@.filter(|c: DynamicPlaylistConfig| c.id@ != id@),
{
    let ghost orig = configs@;
    let n = configs.len();
    let mut rest = configs;
    let mut r: Vec<DynamicPlaylistConfig> = Vec::new();
    let mut i: usize = 0;
    proof {
        assert(rest@ =~= orig.skip(0));
        reveal_with_fuel(Seq::filter, 2);
        assert(orig.take(0).filter(|c: DynamicPlaylistConfig| c.id@ != id@) =~= Seq::<
            DynamicPlaylistConfig,
        >::empty());
    }
    while i < n
        invariant
            i <= n,
            n == orig.len(),
            rest@ == orig.skip(i as int),
            r@ == orig.take(i as int).filter(|c: DynamicPlaylistConfig| c.id@ != id@),
        decreases n - i,
    {
        let c = rest.remove(0);
        proof {
            assert(c == orig[i as int]);
            assert(rest@ =~= orig.skip(i + 1));
            reveal_with_fuel(Seq::filter, 2);
            assert(orig.take(i + 1).drop_last() =~= orig.take(i as int));
            assert(orig.take(i + 1).last() == orig[i as int]);
        }
        if !str_eq(c.id.as_str(), id) {
            r.push(c);
        }
        proof {
            assert(r@ =~= orig.take(i + 1).filter(|x: DynamicPlaylistConfig| x.id@ != id@));
        }
        i = i + 1;
    }
    proof {
        assert(orig.take(n as int) =~= orig);
    }
    r
}

/// A desktop schedule: a cron expression that triggers one dynamic
/// playlist's update while the application runs.
#[derive(Clone, Debug)]
pub struct DesktopSchedule {
    pub id: String,
    pub config_id: String,
    pub cron_expression: String,
    pub enabled: bool,
    pub last_run: Option<String>,
}

/// Whether some schedule carries this identifier.
pub open spec fn schedule_index(schedules: Seq<DesktopSchedule>, id: Seq<char>) -> bool {
    exists|i: int| 0 <= i < schedules.len() && #[trigger] schedules[i].id@ == id
}

/// The index of the first schedule with this identifier, or the length
/// when none carries it.
pub open spec fn first_schedule_at(schedules: Seq<DesktopSchedule>, id: Seq<char>) -> int
    decreases schedules.len(),
{
    if schedules.len() == 0 {
        0
    } else if schedules[0].id@ == id {
        0
    } else {
        1 + first_schedule_at(schedules.drop_first(), id)
    }
}

proof fn lemma_first_schedule_at_is(schedules: Seq<DesktopSchedule>, id: Seq<char>, k: int)
    requires
        0 <= k <= schedules.len(),
        forall|m: int| 0 <= m < k ==> schedules[m].id@ != id,
        k == schedules.len() || schedules[k].id@ == id,
    ensures
        first_schedule_at(schedules, id) == k,
    decreases k,
{
    if k > 0 {
        lemma_first_schedule_at_is(schedules.drop_first(), id, k - 1);
    }
}

/// Save a schedule: replace the first existing one with the same
/// identifier, leaving every other entry in place, or append it as new.
pub fn upsert_schedule(
    schedules: Vec<DesktopSchedule>,
    schedule: DesktopSchedule,
) -> (r: Vec<DesktopSchedule>)
    ensures
        schedule_index(schedules@, schedule.id@) ==> r@ == schedules@.update(
            first_schedule_at(schedules@, schedule.id@),
            schedule,
        ),
        !schedule_index(schedules@, schedule.id@) ==> r@ == schedules@.push(schedule),
{
    let ghost orig = schedules@;
    let ghost sch = schedule;
    let mut r = schedules;
    let mut i: usize = 0;
    while i < r.len()
        invariant
            r@ == orig,
            orig == schedules@,
            i <= orig.len(),
            sch == schedule,
            forall|m: int| 0 <= m < i ==> orig[m].id@ != sch.id@,
        decreases orig.len() - i,
    {
        if str_eq(r[i].id.as_str(), schedule.id.as_str()) {
            proof {
                assert(orig[i as int].id@ == sch.id@);
                assert(schedule_index(orig, sch.id@));
                lemma_first_schedule_at_is(orig, sch.id@, i as int);
            }
            let _ = r.remove(i);
            r.insert(i, schedule);
            proof {
                assert(r@ =~= orig.update(i as int, sch));
            }
            return r;
        }
        i = i + 1;
    }
    proof {
        assert(!schedule_index(orig, sch.id@));
    }
    r.push(schedule);
    r
}

/// Delete the schedules with the given identifier.
pub fn remove_schedule(schedules: Vec<DesktopSchedule>, id: &str) -> (r: Vec<DesktopSchedule>)
    ensures
        r@ == schedules@.filter(|s: DesktopSchedule| s.id@ != id@),
{
    let ghost orig = schedules@;
    let n = schedules.len();
    let mut rest = schedules;
    let mut r: Vec<DesktopSchedule> = Vec::new();
    let mut i: usize = 0;
    proof {
        assert(rest@ =~= orig.skip(0));
        reveal_with_fuel(Seq::filter, 2);
        assert(orig.take(0).filter(|s: DesktopSchedule| s.id@ != id@) =~= Seq::<
            DesktopSchedule,
        >::empty());
    }
    while i < n
        invariant
            i <= n,
            n == orig.len(),
            rest@ == orig.skip(i as int),
            r@ == orig.take(i as int).filter(|s: DesktopSchedule| s.id@ != id@),
        decreases n - i,
    {
        let sch = rest.remove(0);
        proof {
            assert(sch == orig[i as int]);
            assert(rest@ =~= orig.skip(i + 1));
            reveal_with_fuel(Seq::filter, 2);
            assert(orig.take(i + 1).drop_last() =~= orig.take(i as int));
            assert(orig.take(i + 1).last() == orig[i as int]);
        }
        if !str_eq(sch.id.as_str(), id) {
            r.push(sch);
        }
        proof {
            assert(r@ =~= orig.take(i + 1).filter(|x: DesktopSchedule| x.id@ != id@));
        }
        i = i + 1;
    }
    proof {
        assert(orig.take(n as int) =~= orig);
    }
    r
}

/// The liked-songs cache entry: no snapshot token exists, so freshness is
/// a total-count equality check plus a 24-hour TTL.
pub struct LikedCacheEntry {
    pub total_count: u32,
    pub tracks: Vec<TrackInfo>,
    pub timestamp: i64,
}

impl LikedCacheEntry {
    /// Whether the cached liked songs may serve: the remote total matches
    /// and the entry is younger than a day.
    pub fn is_fresh(&self, remote_total: u32, now: i64) -> (r: bool)
        requires
            self.timestamp >= 0,
            now >= 0,
        ensures
            r == (self.total_count == remote_total && now - self.timestamp < 86400),
    {
        self.total_count == remote_total && now - self.timestamp < 86400
    }
}

/// Whether an error message reports the remote service's transient
/// rate-limit condition: it names the 429 status or the words `rate limit`
/// in any case.
pub open spec fn spec_rate_limited(msg: Seq<char>) -> bool {
    spec_contains(msg, "429"@) || spec_contains(lower_of(msg), "rate limit"@)
}

/// Recognize a transient rate-limit failure, which is retried, from other
/// remote errors, which are surfaced.
pub fn is_rate_limit_message(msg: &str) -> (r: bool)
    ensures
        r == spec_rate_limited(msg@),
{
    let m = chars_vec(msg);
    let code = chars_vec("429");
    if contains_sub(&m, &code) {
        return true;
    }
    let lowered = chars_vec(lowercase(msg).as_str());
    let words = chars_vec("rate limit");
    contains_sub(&lowered, &words)
}

/// The exponential backoff before retry attempt `attempts + 1`, in
/// seconds.
pub open spec fn spec_pow2(e: nat) -> int
    decreases e,
{
    if e == 0 {
        1
    } else {
        2 * spec_pow2((e - 1) as nat)
    }
}

proof fn lemma_pow2_pos(e: nat)
    ensures
        spec_pow2(e) >= 1,
    decreases e,
{
    if e > 0 {
        lemma_pow2_pos((e - 1) as nat);
    }
}

proof fn lemma_pow2_mono(a: nat, b: nat)
    requires
        a <= b,
    ensures
        spec_pow2(a) <= spec_pow2(b),
    decreases b - a,
{
    if a < b {
        lemma_pow2_mono(a, (b - 1) as nat);
        lemma_pow2_pos((b - 1) as nat);
    }
}

proof fn lemma_pow2_word()
    ensures
        spec_pow2(32) == 0x1_0000_0000,
{
    reveal_with_fuel(spec_pow2, 33);
}

/// The backoff before the next page-fetch retry: two to the power of the
/// attempts made so far plus one.
pub fn retry_delay_secs(attempts: u32) -> (r: u64)
    requires
        attempts < 32,
    ensures
        r as int == spec_pow2(attempts as nat + 1),
{
    let mut r: u64 = 1;
    let mut e: u32 = 0;
    while e < attempts + 1
        invariant
            e <= attempts + 1,
            attempts < 32,
            r as int == spec_pow2(e as nat),
        decreases attempts + 1 - e,
    {
        proof {
            lemma_pow2_mono(e as nat + 1, 32);
            lemma_pow2_word();
        }
        r = r * 2;
        e = e + 1;
    }
    r
}

} // verus!
