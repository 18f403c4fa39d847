//! Review changes and their application. A scan proposes `duplicate` and
//! `replace` changes carrying both the old and the new metadata snapshots;
//! an apply pass removes approved duplicates by count, swaps replacement
//! identities in place, and records rejected changes in the ignored-track
//! ledger so they are not suggested again.

use vstd::prelude::*;
use crate::dedupe::spec_selected;
use crate::strutil::str_eq;
use crate::track::AppTrack;

verus! {

/// A proposed mutation awaiting review: removal of a duplicate instance or
/// replacement of an instance's identity and metadata.
#[derive(Clone, Debug)]
pub struct ReviewChange {
    pub id: String,
    pub change_type: String,
    pub new_title: Option<String>,
    pub new_artist: Option<String>,
    pub new_album: Option<String>,
    pub new_date: Option<String>,
    pub rem_title: Option<String>,
    pub rem_artist: Option<String>,
    pub rem_album: Option<String>,
    pub rem_date: Option<String>,
    pub track_uri: String,
    pub original_index: usize,
    pub original_uri: String,
}

/// An entry of the ignored-track ledger: a rejected suggestion, keyed by
/// the original identifier so it is not re-suggested.
#[derive(Clone, Debug)]
pub struct IgnoredTrack {
    pub id: String,
    pub title: String,
    pub artist: String,
    pub album: String,
    pub year: String,
    pub ignored_title: Option<String>,
    pub ignored_artist: Option<String>,
    pub ignored_album: Option<String>,
    pub ignored_year: Option<String>,
    pub source_playlist: String,
    pub rejected_context: String,
}

/// A history ledger entry: one applied operation with its backup file and
/// the changes it carried.
#[derive(Clone, Debug)]
pub struct HistoryEntry {
    pub id: String,
    pub playlist_name: String,
    pub playlist_id: String,
    pub action: String,
    pub time: String,
    pub backup_file: String,
    pub changes: Option<Vec<ReviewChange>>,
    pub ignored: Option<Vec<ReviewChange>>,
    pub dynamic_config_backup: Option<String>,
}

/// Relies on uuid::Uuid::new_v4 and its hyphenated rendering: a fresh
/// random identifier, 36 characters long. Nothing further can be promised
/// of a random value.
#[verifier::external_body]
pub fn new_change_id() -> (r: String)
    ensures
        r@.len() == 36,
{
    uuid::Uuid::new_v4().to_string()
}

/// The proposed removal of one duplicate instance, carrying the removed
/// track's metadata snapshot.
pub fn build_duplicate_change(track: &AppTrack) -> (c: ReviewChange)
    ensures
        c.change_type@ == "duplicate"@,
        c.rem_title matches Some(t) && t@ == track.name@,
        c.rem_artist matches Some(t) && t@ == track.artist_names@,
        c.rem_album matches Some(t) && t@ == track.album_name@,
        c.rem_date matches Some(t) && t@ == track.release_date@,
        c.track_uri@ == track.uri@,
        c.original_uri@ == track.uri@,
        c.new_title is None && c.new_artist is None && c.new_album is None && c.new_date is None,
        c.original_index == 0,
{
    ReviewChange {
        id: new_change_id(),
        change_type: String::from_str("duplicate"),
        new_title: None,
        new_artist: None,
        new_album: None,
        new_date: None,
        rem_title: Some(track.name.clone()),
        rem_artist: Some(track.artist_names.clone()),
        rem_album: Some(track.album_name.clone()),
        rem_date: Some(track.release_date.clone()),
        track_uri: track.uri.clone(),
        original_index: 0,
        original_uri: track.uri.clone(),
    }
}

/// The proposed replacement of the track at `index` by `best`, carrying
/// both metadata snapshots so a later apply can target the exact slot.
pub fn build_replace_change(track: &AppTrack, best: &AppTrack, index: usize) -> (c: ReviewChange)
    ensures
        c.change_type@ == "replace"@,
        c.new_title matches Some(t) && t@ == best.name@,
        c.new_artist matches Some(t) && t@ == best.artist_names@,
        c.new_album matches Some(t) && t@ == best.album_name@,
        c.new_date matches Some(t) && t@ == best.release_date@,
        c.rem_title matches Some(t) && t@ == track.name@,
        c.rem_artist matches Some(t) && t@ == track.artist_names@,
        c.rem_album matches Some(t) && t@ == track.album_name@,
        c.rem_date matches Some(t) && t@ == track.release_date@,
        c.track_uri@ == best.uri@,
        c.original_index == index,
        c.original_uri@ == track.uri@,
{
    ReviewChange {
        id: new_change_id(),
        change_type: String::from_str("replace"),
        new_title: Some(best.name.clone()),
        new_artist: Some(best.artist_names.clone()),
        new_album: Some(best.album_name.clone()),
        new_date: Some(best.release_date.clone()),
        rem_title: Some(track.name.clone()),
        rem_artist: Some(track.artist_names.clone()),
        rem_album: Some(track.album_name.clone()),
        rem_date: Some(track.release_date.clone()),
        track_uri: best.uri.clone(),
        original_index: index,
        original_uri: track.uri.clone(),
    }
}

/// How many tracks of `s` carry the URI `u`.
pub open spec fn count_uri(s: Seq<AppTrack>, u: Seq<char>) -> int {
    s.filter(|t: AppTrack| t.uri@ == u).len() as int
}

/// How many approved removals name the URI `u`.
pub open spec fn count_removals(uris: Seq<String>, u: Seq<char>) -> int {
    uris.filter(|x: String| x@ == u).len() as int
}

/// Whether the track at slot `j` survives the approved removals: only the
/// first as-many-occurrences-as-approved of each URI are removed.
pub open spec fn keeps_slot(tracks: Seq<AppTrack>, removal_uris: Seq<String>, j: int) -> bool {
    count_uri(tracks.take(j), tracks[j].uri@) >= count_removals(removal_uris, tracks[j].uri@)
}

fn count_uri_upto(s: &Vec<AppTrack>, upto: usize, u: &String) -> (r: usize)
    requires
        upto <= s@.len(),
    ensures
        r == count_uri(s@.take(upto as int), u@),
{
    let mut r: usize = 0;
    let mut i: usize = 0;
    while i < upto
        invariant
            i <= upto <= s@.len(),
            r == count_uri(s@.take(i as int), u@),
            r <= i,
        decreases upto - i,
    {
        proof {
            reveal_with_fuel(Seq::filter, 2);
            assert(s@.take(i + 1).drop_last() =~= s@.take(i as int));
            assert(s@.take(i + 1).last() == s@[i as int]);
        }
        if str_eq(s[i].uri.as_str(), u.as_str()) {
            r = r + 1;
        }
        i = i + 1;
    }
    r
}

fn count_removals_exec(uris: &Vec<String>, u: &String) -> (r: usize)
    ensures
        r == count_removals(uris@, u@),
{
    let mut r: usize = 0;
    let mut i: usize = 0;
    while i < uris.len()
        invariant
            i <= uris@.len(),
            r == count_removals(uris@.take(i as int), u@),
            r <= i,
        decreases uris@.len() - i,
    {
        proof {
            reveal_with_fuel(Seq::filter, 2);
            assert(uris@.take(i + 1).drop_last() =~= uris@.take(i as int));
            assert(uris@.take(i + 1).last() == uris@[i as int]);
        }
        if str_eq(uris[i].as_str(), u.as_str()) {
            r = r + 1;
        }
        i = i + 1;
    }
    proof {
        assert(uris@.take(uris@.len() as int) =~= uris@);
    }
    r
}

/// Remove one playlist instance per approved duplicate change: for each
/// URI, the first as-many-occurrences-as-approved are dropped and the rest
/// stay, in order, so approving one removal of a twice-listed song keeps
/// the other copy.
pub fn remove_approved_duplicates(tracks: Vec<AppTrack>, removal_uris: &Vec<String>) -> (r: Vec<
    AppTrack,
>)
    ensures
        r@ == spec_selected(
            tracks@,
            Seq::new(tracks@.len(), |j: int| keeps_slot(tracks@, removal_uris@, j)),
        ),
{
    let n = tracks.len();
    let mut flags: Vec<bool> = Vec::new();
    let mut j: usize = 0;
    while j < n
        invariant
            j <= n,
            n == tracks@.len(),
            flags@.len() == j,
            forall|m: int| 0 <= m < j ==> flags@[m] == keeps_slot(tracks@, removal_uris@, m),
        decreases n - j,
    {
        let seen = count_uri_upto(&tracks, j, &tracks[j].uri);
        let wanted = count_removals_exec(removal_uris, &tracks[j].uri);
        flags.push(seen >= wanted);
        j = j + 1;
    }
    let ghost orig = tracks@;
    let ghost fl = flags@;
    let r = crate::dedupe::partition_by_flags(tracks, &flags);
    proof {
        assert(fl =~= Seq::new(orig.len(), |j: int| keeps_slot(orig, removal_uris@, j)));
    }
    r.0
}

/// Whether a replacement change targets this track: the saved metadata
/// snapshot matches exactly.
pub open spec fn spec_targets(c: ReviewChange, t: AppTrack) -> bool {
    &&& c.rem_title matches Some(x) && x@ == t.name@
    &&& c.rem_artist matches Some(x) && x@ == t.artist_names@
    &&& c.rem_date matches Some(x) && x@ == t.release_date@
}

fn change_targets(c: &ReviewChange, t: &AppTrack) -> (r: bool)
    ensures
        r == spec_targets(*c, *t),
{
    let title_ok = match &c.rem_title {
        Some(x) => str_eq(x.as_str(), t.name.as_str()),
        None => false,
    };
    let artist_ok = match &c.rem_artist {
        Some(x) => str_eq(x.as_str(), t.artist_names.as_str()),
        None => false,
    };
    let date_ok = match &c.rem_date {
        Some(x) => str_eq(x.as_str(), t.release_date.as_str()),
        None => false,
    };
    title_ok && artist_ok && date_ok
}

fn apply_one_replacement(t: &AppTrack, c: &ReviewChange) -> (r: AppTrack)
    ensures
        r.uri@ == c.track_uri@,
        r.id@ == c.track_uri@,
        r.name@ == (if c.new_title is Some {
            c.new_title->0@
        } else {
            t.name@
        }),
        r.artist_names@ == (if c.new_artist is Some {
            c.new_artist->0@
        } else {
            t.artist_names@
        }),
        r.album_name@ == (if c.new_album is Some {
            c.new_album->0@
        } else {
            t.album_name@
        }),
        r.release_date@ == (if c.new_date is Some {
            c.new_date->0@
        } else {
            t.release_date@
        }),
        r.album_type@ == t.album_type@,
        r.duration_ms == t.duration_ms,
{
    AppTrack {
        id: c.track_uri.clone(),
        name: match &c.new_title {
            Some(x) => x.clone(),
            None => t.name.clone(),
        },
        artist_names: match &c.new_artist {
            Some(x) => x.clone(),
            None => t.artist_names.clone(),
        },
        album_name: match &c.new_album {
            Some(x) => x.clone(),
            None => t.album_name.clone(),
        },
        album_type: t.album_type.clone(),
        release_date: match &c.new_date {
            Some(x) => x.clone(),
            None => t.release_date.clone(),
        },
        uri: c.track_uri.clone(),
        duration_ms: t.duration_ms,
    }
}

/// The index of the first pending change whose saved snapshot targets `t`,
/// or the number of pending changes when none does.
pub open spec fn first_target(pending: Seq<ReviewChange>, t: AppTrack) -> int
    decreases pending.len(),
{
    if pending.len() == 0 {
        0
    } else if spec_targets(pending[0], t) {
        0
    } else {
        1 + first_target(pending.drop_first(), t)
    }
}

proof fn lemma_first_target_is(pending: Seq<ReviewChange>, t: AppTrack, k: int)
    requires
        0 <= k <= pending.len(),
        forall|m: int| 0 <= m < k ==> !spec_targets(#[trigger] pending[m], t),
        k == pending.len() || spec_targets(pending[k], t),
    ensures
        first_target(pending, t) == k,
    decreases k,
{
    if k > 0 {
        lemma_first_target_is(pending.drop_first(), t, k - 1);
    }
}

/// The changes still unspent when slot `j` comes up: each earlier slot
/// consumed the first change targeting it, if there was one.
pub open spec fn spec_pending_at(
    all: Seq<ReviewChange>,
    tracks: Seq<AppTrack>,
    j: int,
) -> Seq<ReviewChange>
    decreases j,
{
    if j <= 0 {
        all
    } else {
        let prev = spec_pending_at(all, tracks, j - 1);
        let k = first_target(prev, tracks[j - 1]);
        if k < prev.len() {
            prev.remove(k)
        } else {
            prev
        }
    }
}

/// Whether `r` is `t` with the change `c` applied: identity and URI from
/// the change, the new metadata where the change carries it, duration and
/// album type untouched.
pub open spec fn spec_replaced_fields(r: AppTrack, t: AppTrack, c: ReviewChange) -> bool {
    &&& r.uri@ == c.track_uri@
    &&& r.id@ == c.track_uri@
    &&& r.name@ == (if c.new_title is Some {
        c.new_title->0@
    } else {
        t.name@
    })
    &&& r.artist_names@ == (if c.new_artist is Some {
        c.new_artist->0@
    } else {
        t.artist_names@
    })
    &&& r.album_name@ == (if c.new_album is Some {
        c.new_album->0@
    } else {
        t.album_name@
    })
    &&& r.release_date@ == (if c.new_date is Some {
        c.new_date->0@
    } else {
        t.release_date@
    })
    &&& r.album_type@ == t.album_type@
    &&& r.duration_ms == t.duration_ms
}

/// Apply the approved replacement changes in place. Walking the tracks in
/// order, each slot whose track is targeted by a still unspent change (the
/// first such change, matched on the saved snapshot) takes that change's
/// identity and metadata — duration and album type untouched — and spends
/// it; every other slot passes through unchanged.
pub fn apply_replacements(tracks: Vec<AppTrack>, replacements: Vec<ReviewChange>) -> (r: Vec<
    AppTrack,
>)
    ensures
        r@.len() == tracks@.len(),
        forall|j: int|
            0 <= j < tracks@.len() ==> {
                let prev = spec_pending_at(replacements@, tracks@, j);
                let k = first_target(prev, tracks@[j]);
                &&& (k < prev.len() ==> spec_replaced_fields(#[trigger] r@[j], tracks@[j], prev[k]))
                &&& (k >= prev.len() ==> r@[j] == tracks@[j])
            },
{
    let ghost orig = tracks@;
    let ghost all = replacements@;
    let n = tracks.len();
    let mut rest = tracks;
    let mut pending = replacements;
    let mut out: Vec<AppTrack> = Vec::new();
    let mut i: usize = 0;
    proof {
        assert(rest@ =~= orig.skip(0));
    }
    while i < n
        invariant
            i <= n,
            n == orig.len(),
            rest@ == orig.skip(i as int),
            out@.len() == i,
            pending@ == spec_pending_at(all, orig, i as int),
            forall|j: int|
                0 <= j < i ==> {
                    let prev = spec_pending_at(all, orig, j);
                    let k = first_target(prev, orig[j]);
                    &&& (k < prev.len() ==> spec_replaced_fields(#[trigger] out@[j], orig[j], prev[k]))
                    &&& (k >= prev.len() ==> out@[j] == orig[j])
                },
        decreases n - i,
    {
        let t = rest.remove(0);
        proof {
            assert(t == orig[i as int]);
            assert(rest@ =~= orig.skip(i + 1));
        }
        // find the first pending change whose snapshot matches this track
        let mut p: usize = 0;
        let mut found = false;
        while p < pending.len()
            invariant_except_break
                !found,
            invariant
                p <= pending@.len(),
                forall|m: int| 0 <= m < p ==> !spec_targets(#[trigger] pending@[m], t),
                found ==> p < pending@.len() && spec_targets(pending@[p as int], t),
            ensures
                forall|m: int| 0 <= m < p ==> !spec_targets(#[trigger] pending@[m], t),
                found ==> p < pending@.len() && spec_targets(pending@[p as int], t),
                !found ==> p == pending@.len(),
            decreases pending@.len() - p,
        {
            if change_targets(&pending[p], &t) {
                found = true;
                break;
            }
            p = p + 1;
        }
        proof {
            if found {
                lemma_first_target_is(pending@, t, p as int);
            } else {
                lemma_first_target_is(pending@, t, pending@.len() as int);
            }
        }
        if found {
            let ghost old_pending = pending@;
            let c = pending.remove(p);
            let updated = apply_one_replacement(&t, &c);
            out.push(updated);
            proof {
                assert(c == old_pending[p as int]);
                assert(spec_pending_at(all, orig, i + 1) == old_pending.remove(p as int));
                assert(spec_replaced_fields(out@[i as int], orig[i as int], old_pending[p as int]));
            }
        } else {
            out.push(t);
            proof {
                assert(spec_pending_at(all, orig, i + 1) == pending@);
                assert(out@[i as int] == orig[i as int]);
            }
        }
        i = i + 1;
    }
    out
}

/// The ignore identifier of a rejected change: the original URI where it
/// is recorded, else the change's target URI.
pub open spec fn spec_ignore_id(c: ReviewChange) -> Seq<char> {
    if c.original_uri@.len() > 0 {
        c.original_uri@
    } else {
        c.track_uri@
    }
}

/// Whether the ledger already holds an entry with this identifier.
pub open spec fn ledger_has(ledger: Seq<IgnoredTrack>, id: Seq<char>) -> bool {
    exists|i: int| 0 <= i < ledger.len() && #[trigger] ledger[i].id@ == id
}

fn ledger_contains(ledger: &Vec<IgnoredTrack>, id: &String) -> (r: bool)
    ensures
        r == ledger_has(ledger@, id@),
{
    let mut i: usize = 0;
    while i < ledger.len()
        invariant
            i <= ledger@.len(),
            forall|m: int| 0 <= m < i ==> ledger@[m].id@ != id@,
        decreases ledger@.len() - i,
    {
        if str_eq(ledger[i].id.as_str(), id.as_str()) {
            proof {
                assert(ledger@[i as int].id@ == id@);
            }
            return true;
        }
        i = i + 1;
    }
    false
}

fn opt_clone_or_empty(o: &Option<String>) -> (r: String)
    ensures
        o matches Some(s) ==> r@ == s@,
        o is None ==> r@.len() == 0,
{
    match o {
        Some(s) => s.clone(),
        None => String::new(),
    }
}

/// The view of one ignored-ledger entry, for stating what a merge builds.
#[verifier::ext_equal]
pub struct IgnoredView {
    pub id: Seq<char>,
    pub title: Seq<char>,
    pub artist: Seq<char>,
    pub album: Seq<char>,
    pub year: Seq<char>,
    pub ignored_title: Option<Seq<char>>,
    pub ignored_artist: Option<Seq<char>>,
    pub ignored_album: Option<Seq<char>>,
    pub ignored_year: Option<Seq<char>>,
    pub source_playlist: Seq<char>,
    pub rejected_context: Seq<char>,
}

/// The view of an optional string.
pub open spec fn opt_view(o: Option<String>) -> Option<Seq<char>> {
    match o {
        Some(s) => Some(s@),
        None => None,
    }
}

/// The view of a ledger entry.
pub open spec fn ignored_view(e: IgnoredTrack) -> IgnoredView {
    IgnoredView {
        id: e.id@,
        title: e.title@,
        artist: e.artist@,
        album: e.album@,
        year: e.year@,
        ignored_title: opt_view(e.ignored_title),
        ignored_artist: opt_view(e.ignored_artist),
        ignored_album: opt_view(e.ignored_album),
        ignored_year: opt_view(e.ignored_year),
        source_playlist: e.source_playlist@,
        rejected_context: e.rejected_context@,
    }
}

/// The views of a whole ledger, in order.
pub open spec fn ledger_views(s: Seq<IgnoredTrack>) -> Seq<IgnoredView> {
    s.map_values(|e: IgnoredTrack| ignored_view(e))
}

/// Whether some entry view carries this identifier.
pub open spec fn views_have_id(vs: Seq<IgnoredView>, id: Seq<char>) -> bool {
    exists|i: int| 0 <= i < vs.len() && #[trigger] vs[i].id == id
}

/// The ledger entry a rejected change produces: keyed by the change's
/// ignore identifier, carrying the removed-side snapshot, the rejection's
/// context, and — for replacements — the new-side snapshot.
pub open spec fn entry_view(c: ReviewChange, playlist_id: Seq<char>) -> IgnoredView {
    let is_replace = c.change_type@ == "replace"@;
    IgnoredView {
        id: spec_ignore_id(c),
        title: crate::track::opt_or(c.rem_title, Seq::empty()),
        artist: crate::track::opt_or(c.rem_artist, Seq::empty()),
        album: crate::track::opt_or(c.rem_album, Seq::empty()),
        year: crate::track::opt_or(c.rem_date, Seq::empty()),
        ignored_title: if is_replace {
            opt_view(c.new_title)
        } else {
            None
        },
        ignored_artist: if is_replace {
            opt_view(c.new_artist)
        } else {
            None
        },
        ignored_album: if is_replace {
            opt_view(c.new_album)
        } else {
            None
        },
        ignored_year: if is_replace {
            opt_view(c.new_date)
        } else {
            None
        },
        source_playlist: playlist_id,
        rejected_context: if is_replace {
            "Replacement"@
        } else {
            "Duplicate Removal"@
        },
    }
}

/// The ledger after the first `j` rejections are recorded: each rejection
/// whose identifier is still absent appends exactly its entry; one whose
/// identifier is already present — in the old ledger or added by an
/// earlier rejection — appends nothing.
pub open spec fn spec_merged_ledger(
    base: Seq<IgnoredView>,
    rejected: Seq<ReviewChange>,
    playlist_id: Seq<char>,
    j: int,
) -> Seq<IgnoredView>
    decreases j,
{
    if j <= 0 {
        base
    } else {
        let prev = spec_merged_ledger(base, rejected, playlist_id, j - 1);
        let c = rejected[j - 1];
        if views_have_id(prev, spec_ignore_id(c)) {
            prev
        } else {
            prev.push(entry_view(c, playlist_id))
        }
    }
}

proof fn lemma_ledger_views_id(s: Seq<IgnoredTrack>, id: Seq<char>)
    ensures
        views_have_id(ledger_views(s), id) <==> ledger_has(s, id),
{
    if views_have_id(ledger_views(s), id) {
        let i = choose|i: int|
            0 <= i < ledger_views(s).len() && #[trigger] ledger_views(s)[i].id == id;
        assert(s[i].id@ == id);
    }
    if ledger_has(s, id) {
        let i = choose|i: int| 0 <= i < s.len() && #[trigger] s[i].id@ == id;
        assert(ledger_views(s)[i].id == id);
    }
}

/// Record the rejected changes in the ignored-track ledger, in order: each
/// rejection whose ignore identifier is not yet present appends exactly
/// its entry, one already present appends nothing, and the old entries
/// stay untouched in place.
pub fn merge_ignored(
    ledger: Vec<IgnoredTrack>,
    rejected: &Vec<ReviewChange>,
    playlist_id: &str,
) -> (r: Vec<IgnoredTrack>)
    ensures
        ledger_views(r@) == spec_merged_ledger(
            ledger_views(ledger@),
            rejected@,
            playlist_id@,
            rejected@.len() as int,
        ),
        forall|i: int| 0 <= i < ledger@.len() ==> r@[i] == ledger@[i],
{
    let ghost orig = ledger@;
    let ghost base = ledger_views(ledger@);
    let mut r = ledger;
    let mut i: usize = 0;
    while i < rejected.len()
        invariant
            i <= rejected@.len(),
            r@.len() >= orig.len(),
            base == ledger_views(orig),
            ledger_views(r@) == spec_merged_ledger(base, rejected@, playlist_id@, i as int),
            forall|m: int| 0 <= m < orig.len() ==> r@[m] == orig[m],
        decreases rejected@.len() - i,
    {
        let change = &rejected[i];
        let ghost c = rejected@[i as int];
        let ignore_id = if change.original_uri.as_str().unicode_len() > 0 {
            change.original_uri.clone()
        } else {
            change.track_uri.clone()
        };
        proof {
            assert(ignore_id@ == spec_ignore_id(c));
        }
        let present = ledger_contains(&r, &ignore_id);
        proof {
            lemma_ledger_views_id(r@, ignore_id@);
        }
        if !present {
            let is_replace = str_eq(change.change_type.as_str(), "replace");
            let context = if is_replace {
                String::from_str("Replacement")
            } else {
                String::from_str("Duplicate Removal")
            };
            let (it, ia, ial, iy): (
                Option<String>,
                Option<String>,
                Option<String>,
                Option<String>,
            ) = if is_replace {
                (
                    match &change.new_title {
                        Some(x) => Some(x.clone()),
                        None => None,
                    },
                    match &change.new_artist {
                        Some(x) => Some(x.clone()),
                        None => None,
                    },
                    match &change.new_album {
                        Some(x) => Some(x.clone()),
                        None => None,
                    },
                    match &change.new_date {
                        Some(x) => Some(x.clone()),
                        None => None,
                    },
                )
            } else {
                (None, None, None, None)
            };
            let entry = IgnoredTrack {
                id: ignore_id,
                title: opt_clone_or_empty(&change.rem_title),
                artist: opt_clone_or_empty(&change.rem_artist),
                album: opt_clone_or_empty(&change.rem_album),
                year: opt_clone_or_empty(&change.rem_date),
                ignored_title: it,
                ignored_artist: ia,
                ignored_album: ial,
                ignored_year: iy,
                source_playlist: playlist_id.to_owned(),
                rejected_context: context,
            };
            let ghost old_r = r@;
            r.push(entry);
            proof {
                reveal_strlit("replace");
                assert(ignored_view(entry) =~~= entry_view(c, playlist_id@));
                assert(ledger_views(r@) =~~= ledger_views(old_r).push(entry_view(c, playlist_id@)));
            }
        }
        i = i + 1;
    }
    proof {
        assert(rejected@.len() as int == rejected@.len());
    }
    r
}

/// Drop the history entry with the given identifier, keeping the rest in
/// order.
pub fn remove_history_entry(history: Vec<HistoryEntry>, id: &str) -> (r: Vec<HistoryEntry>)
    ensures
        r@ == history@.filter(|e: HistoryEntry| e.id@ != id@),
{
    let ghost orig = history@;
    let n = history.len();
    let mut rest = history;
    let mut r: Vec<HistoryEntry> = Vec::new();
    let mut i: usize = 0;
    proof {
        assert(rest@ =~= orig.skip(0));
        reveal_with_fuel(Seq::filter, 2);
        assert(orig.take(0).filter(|e: HistoryEntry| e.id@ != id@) =~= Seq::<HistoryEntry>::empty());
    }
    while i < n
        invariant
            i <= n,
            n == orig.len(),
            rest@ == orig.skip(i as int),
            r@ == orig.take(i as int).filter(|e: HistoryEntry| e.id@ != id@),
        decreases n - i,
    {
        let e = rest.remove(0);
        proof {
            assert(e == orig[i as int]);
            assert(rest@ =~= orig.skip(i + 1));
            reveal_with_fuel(Seq::filter, 2);
            assert(orig.take(i + 1).drop_last() =~= orig.take(i as int));
            assert(orig.take(i + 1).last() == orig[i as int]);
        }
        if !str_eq(e.id.as_str(), id) {
            r.push(e);
        }
        proof {
            assert(r@ =~= orig.take(i + 1).filter(|x: HistoryEntry| x.id@ != id@));
        }
        i = i + 1;
    }
    proof {
        assert(orig.take(n as int) =~= orig);
    }
    r
}

/// Whether an identifier is among the given ones.
pub open spec fn id_among(ids: Seq<String>, id: Seq<char>) -> bool {
    exists|i: int| 0 <= i < ids.len() && #[trigger] ids[i]@ == id
}

fn id_among_exec(ids: &Vec<String>, id: &String) -> (r: bool)
    ensures
        r == id_among(ids@, id@),
{
    let mut i: usize = 0;
    while i < ids.len()
        invariant
            i <= ids@.len(),
            forall|m: int| 0 <= m < i ==> ids@[m]@ != id@,
        decreases ids@.len() - i,
    {
        if str_eq(ids[i].as_str(), id.as_str()) {
            proof {
                assert(ids@[i as int]@ == id@);
            }
            return true;
        }
        i = i + 1;
    }
    false
}

/// Drop the ledger entries whose identifier is among the given ones.
pub fn remove_ignored_entries(ledger: Vec<IgnoredTrack>, ids: &Vec<String>) -> (r: Vec<
    IgnoredTrack,
>)
    ensures
        r@ == ledger@.filter(|e: IgnoredTrack| !id_among(ids@, e.id@)),
{
    let ghost orig = ledger@;
    let n = ledger.len();
    let mut rest = ledger;
    let mut r: Vec<IgnoredTrack> = Vec::new();
    let mut i: usize = 0;
    proof {
        assert(rest@ =~= orig.skip(0));
        reveal_with_fuel(Seq::filter, 2);
        assert(orig.take(0).filter(|e: IgnoredTrack| !id_among(ids@, e.id@)) =~= Seq::<
            IgnoredTrack,
        >::empty());
    }
    while i < n
        invariant
            i <= n,
            n == orig.len(),
            rest@ == orig.skip(i as int),
            r@ == orig.take(i as int).filter(|e: IgnoredTrack| !id_among(ids@, e.id@)),
        decreases n - i,
    {
        let e = rest.remove(0);
        proof {
            assert(e == orig[i as int]);
            assert(rest@ =~= orig.skip(i + 1));
            reveal_with_fuel(Seq::filter, 2);
            assert(orig.take(i + 1).drop_last() =~= orig.take(i as int));
            assert(orig.take(i + 1).last() == orig[i as int]);
        }
        if !id_among_exec(ids, &e.id) {
            r.push(e);
        }
        proof {
            assert(r@ =~= orig.take(i + 1).filter(|x: IgnoredTrack| !id_among(ids@, x.id@)));
        }
        i = i + 1;
    }
    proof {
        assert(orig.take(n as int) =~= orig);
    }
    r
}

} // verus!
