//! The deduplication engine. Tracks are grouped by their normalized
//! duplicate key; each group keeps one survivor, chosen by the caller's
//! preference, and the rest are removed. Kept tracks stay in their original
//! relative order, so removal is invisible to downstream ordering.

use vstd::prelude::*;
use vstd::multiset::Multiset;
use crate::dates::{parse_date, spec_parse_date};
use crate::strutil::{chars_vec, lemma_lex_cmp_antisym, lemma_lex_cmp_eq, lex_cmp, lex_cmp_chars, str_eq};
use crate::track::{spec_duplicate_key, AppTrack};

verus! {

/// The duplicate-identity key of a track.
pub open spec fn track_key(t: AppTrack) -> Seq<char> {
    spec_duplicate_key(t.name@, t.artist_names@)
}

/// The padded release date of a track, as compared by the date preferences.
pub open spec fn date_key(t: AppTrack) -> Seq<char> {
    spec_parse_date(t.release_date@)
}

/// Whether slot `s` is the survivor its preference asks for: under a date
/// preference its padded date is minimal (oldest) or maximal (newest)
/// among its key's slots, with a date tie broken to the smallest original
/// index; under the newest-position preference it is its key's last slot;
/// under the oldest-position preference, or any unrecognized one, its
/// key's first slot.
pub open spec fn survivor_slot_ok(tracks: Seq<AppTrack>, pref: Seq<char>, s: int) -> bool {
    if pref == "Keep Oldest (Release Date)"@ {
        &&& forall|j: int|
            0 <= j < tracks.len() && #[trigger] track_key(tracks[j]) == track_key(tracks[s])
                ==> lex_cmp(date_key(tracks[s]), date_key(tracks[j])) <= 0
        &&& forall|j: int|
            0 <= j < s && #[trigger] track_key(tracks[j]) == track_key(tracks[s]) ==> lex_cmp(
                date_key(tracks[s]),
                date_key(tracks[j]),
            ) < 0
    } else if pref == "Keep Newest (Release Date)"@ {
        &&& forall|j: int|
            0 <= j < tracks.len() && #[trigger] track_key(tracks[j]) == track_key(tracks[s])
                ==> lex_cmp(date_key(tracks[s]), date_key(tracks[j])) >= 0
        &&& forall|j: int|
            0 <= j < s && #[trigger] track_key(tracks[j]) == track_key(tracks[s]) ==> lex_cmp(
                date_key(tracks[s]),
                date_key(tracks[j]),
            ) > 0
    } else if pref == "Keep Newest (Playlist Order)"@ {
        forall|j: int|
            s < j < tracks.len() ==> #[trigger] track_key(tracks[j]) != track_key(tracks[s])
    } else {
        forall|j: int| 0 <= j < s ==> #[trigger] track_key(tracks[j]) != track_key(tracks[s])
    }
}

/// Whether some slot before `i` holds key `k`.
pub open spec fn key_before(ts: Seq<AppTrack>, i: int, k: Seq<char>) -> bool {
    exists|m: int| 0 <= m < i && #[trigger] track_key(ts[m]) == k
}

/// Whether some flagged slot holds key `k`.
pub open spec fn key_among(ts: Seq<AppTrack>, flags: Seq<bool>, k: Seq<char>) -> bool {
    exists|m: int| 0 <= m < ts.len() && flags[m] && #[trigger] track_key(ts[m]) == k
}

/// Whether some element of `kept` holds key `k`.
pub open spec fn key_covered(kept: Seq<AppTrack>, k: Seq<char>) -> bool {
    exists|m: int| 0 <= m < kept.len() && #[trigger] track_key(kept[m]) == k
}

/// Whether `a` occurs in `b` as a (not necessarily contiguous) subsequence.
pub open spec fn spec_subseq(a: Seq<AppTrack>, b: Seq<AppTrack>) -> bool
    decreases b.len(),
{
    if a.len() == 0 {
        true
    } else if b.len() == 0 {
        false
    } else if a.last() == b.last() {
        spec_subseq(a.drop_last(), b.drop_last()) || spec_subseq(a, b.drop_last())
    } else {
        spec_subseq(a, b.drop_last())
    }
}

pub proof fn lemma_subseq_skip(a: Seq<AppTrack>, b: Seq<AppTrack>, x: AppTrack)
    requires
        spec_subseq(a, b),
    ensures
        spec_subseq(a, b.push(x)),
{
    assert(b.push(x).drop_last() =~= b);
    assert(b.push(x).last() == x);
}

pub proof fn lemma_subseq_push(a: Seq<AppTrack>, b: Seq<AppTrack>, x: AppTrack)
    requires
        spec_subseq(a, b),
    ensures
        spec_subseq(a.push(x), b.push(x)),
{
    assert(b.push(x).drop_last() =~= b);
    assert(a.push(x).drop_last() =~= a);
    assert(a.push(x).last() == b.push(x).last());
}

pub proof fn lemma_subseq_empty(b: Seq<AppTrack>)
    ensures
        spec_subseq(Seq::<AppTrack>::empty(), b),
{
}

/// The survivor-selection preferences.
enum KeepMode {
    OldestDate,
    NewestDate,
    OldestPosition,
    NewestPosition,
    Unordered,
}

fn keep_mode(preference: &str) -> (m: KeepMode)
    ensures
        m is OldestDate <==> preference@ == "Keep Oldest (Release Date)"@,
        m is NewestDate <==> preference@ == "Keep Newest (Release Date)"@,
        m is OldestPosition <==> preference@ == "Keep Oldest (Playlist Order)"@,
        m is NewestPosition <==> preference@ == "Keep Newest (Playlist Order)"@,
{
    proof {
        reveal_strlit("Keep Oldest (Release Date)");
        reveal_strlit("Keep Newest (Release Date)");
        reveal_strlit("Keep Oldest (Playlist Order)");
        reveal_strlit("Keep Newest (Playlist Order)");
        assert("Keep Oldest (Release Date)"@[5] == 'O');
        assert("Keep Newest (Release Date)"@[5] == 'N');
        assert("Keep Oldest (Playlist Order)"@[5] == 'O');
        assert("Keep Newest (Playlist Order)"@[5] == 'N');
        assert("Keep Oldest (Release Date)"@[13] == 'R');
        assert("Keep Oldest (Playlist Order)"@[13] == 'P');
        assert("Keep Newest (Release Date)"@[13] == 'R');
        assert("Keep Newest (Playlist Order)"@[13] == 'P');
        assert("Keep Oldest (Release Date)"@ != "Keep Newest (Release Date)"@);
        assert("Keep Oldest (Release Date)"@ != "Keep Oldest (Playlist Order)"@);
        assert("Keep Oldest (Release Date)"@ != "Keep Newest (Playlist Order)"@);
        assert("Keep Newest (Release Date)"@ != "Keep Oldest (Playlist Order)"@);
        assert("Keep Newest (Release Date)"@ != "Keep Newest (Playlist Order)"@);
        assert("Keep Oldest (Playlist Order)"@ != "Keep Newest (Playlist Order)"@);
    }
    if str_eq(preference, "Keep Oldest (Release Date)") {
        KeepMode::OldestDate
    } else if str_eq(preference, "Keep Newest (Release Date)") {
        KeepMode::NewestDate
    } else if str_eq(preference, "Keep Oldest (Playlist Order)") {
        KeepMode::OldestPosition
    } else if str_eq(preference, "Keep Newest (Playlist Order)") {
        KeepMode::NewestPosition
    } else {
        KeepMode::Unordered
    }
}

/// Compute the survivor flag of every slot: grouping the input by
/// duplicate key, exactly one slot per key is flagged, chosen by the
/// preference; under a date preference the flagged slot's padded date is
/// minimal or maximal among its key's slots.
#[verifier::rlimit(30)]
fn survivor_flags(tracks: &Vec<AppTrack>, preference: &str) -> (flags: Vec<bool>)
    ensures
        flags@.len() == tracks@.len(),
        forall|j1: int, j2: int|
            0 <= j1 < j2 < tracks@.len() && flags@[j1] && flags@[j2] ==> track_key(tracks@[j1])
                != track_key(tracks@[j2]),
        forall|j: int|
            0 <= j < tracks@.len() ==> key_among(tracks@, flags@, #[trigger] track_key(
                tracks@[j],
            )),
        preference@ == "Keep Oldest (Release Date)"@ ==> forall|m: int, j: int|
            0 <= m < tracks@.len() && 0 <= j < tracks@.len() && flags@[m] && track_key(
                tracks@[m],
            ) == track_key(tracks@[j]) ==> lex_cmp(date_key(tracks@[m]), date_key(tracks@[j]))
                <= 0,
        preference@ == "Keep Newest (Release Date)"@ ==> forall|m: int, j: int|
            0 <= m < tracks@.len() && 0 <= j < tracks@.len() && flags@[m] && track_key(
                tracks@[m],
            ) == track_key(tracks@[j]) ==> lex_cmp(date_key(tracks@[m]), date_key(tracks@[j]))
                >= 0,
        forall|s: int| #![trigger flags@[s]]
            0 <= s < tracks@.len() && flags@[s] ==> survivor_slot_ok(tracks@, preference@, s),
{
    let n = tracks.len();
    let mode = keep_mode(preference);

    // Precompute each track's key and padded date.
    let mut keys: Vec<Vec<char>> = Vec::new();
    let mut dates: Vec<Vec<char>> = Vec::new();
    let mut i: usize = 0;
    while i < n
        invariant
            i <= n,
            n == tracks@.len(),
            keys@.len() == i,
            dates@.len() == i,
            forall|j: int| 0 <= j < i ==> keys@[j]@ == track_key(tracks@[j]),
            forall|j: int| 0 <= j < i ==> dates@[j]@ == date_key(tracks@[j]),
        decreases n - i,
    {
        let k = tracks[i].duplicate_key();
        keys.push(chars_vec(k.as_str()));
        let d = parse_date(tracks[i].release_date.as_str());
        dates.push(chars_vec(d.as_str()));
        i = i + 1;
    }

    // Group by key and pick each group's survivor.
    let mut visited: Vec<bool> = Vec::new();
    let mut survivor: Vec<bool> = Vec::new();
    let mut i: usize = 0;
    while i < n
        invariant
            i <= n,
            n == tracks@.len(),
            visited@.len() == i,
            survivor@.len() == i,
            forall|j: int| 0 <= j < i ==> !visited@[j] && !survivor@[j],
        decreases n - i,
    {
        visited.push(false);
        survivor.push(false);
        i = i + 1;
    }

    let mut i: usize = 0;
    while i < n
        invariant
            i <= n,
            n == tracks@.len(),
            keys@.len() == n,
            dates@.len() == n,
            visited@.len() == n,
            survivor@.len() == n,
            forall|j: int| 0 <= j < n ==> keys@[j]@ == track_key(tracks@[j]),
            forall|j: int| 0 <= j < n ==> dates@[j]@ == date_key(tracks@[j]),
            // a slot is visited exactly when an already processed slot shares its key
            forall|j: int| #![trigger visited@[j]]
                0 <= j < n ==> (visited@[j] <==> key_before(
                    tracks@,
                    i as int,
                    track_key(tracks@[j]),
                )),
            // survivors are visited
            forall|j: int| 0 <= j < n && survivor@[j] ==> visited@[j],
            // at most one survivor per key
            forall|j1: int, j2: int|
                0 <= j1 < j2 < n && survivor@[j1] && survivor@[j2] ==> track_key(tracks@[j1])
                    != track_key(tracks@[j2]),
            // every visited slot's key has a survivor
            forall|j: int| #![trigger visited@[j]]
                0 <= j < n && visited@[j] ==> key_among(
                    tracks@,
                    survivor@,
                    track_key(tracks@[j]),
                ),
            // the date preferences hold of every survivor so far
            mode is OldestDate ==> forall|m: int, j: int|
                0 <= m < n && 0 <= j < n && survivor@[m] && track_key(tracks@[m]) == track_key(
                    tracks@[j],
                ) ==> lex_cmp(date_key(tracks@[m]), date_key(tracks@[j])) <= 0,
            mode is NewestDate ==> forall|m: int, j: int|
                0 <= m < n && 0 <= j < n && survivor@[m] && track_key(tracks@[m]) == track_key(
                    tracks@[j],
                ) ==> lex_cmp(date_key(tracks@[m]), date_key(tracks@[j])) >= 0,
            mode is OldestDate <==> preference@ == "Keep Oldest (Release Date)"@,
            mode is NewestDate <==> preference@ == "Keep Newest (Release Date)"@,
            mode is OldestPosition <==> preference@ == "Keep Oldest (Playlist Order)"@,
            mode is NewestPosition <==> preference@ == "Keep Newest (Playlist Order)"@,
            // every survivor sits where its preference demands
            forall|s: int| #![trigger survivor@[s]]
                0 <= s < n && survivor@[s] ==> survivor_slot_ok(tracks@, preference@, s),
        decreases n - i,
    {
        if !visited[i] {
            // Collect the whole group: every index sharing this key.
            let mut group: Vec<usize> = Vec::new();
            group.push(i);
            proof {
                assert(group@[0] == i);
            }
            let mut j: usize = i + 1;
            while j < n
                invariant
                    i < j <= n,
                    i < n,
                    n == tracks@.len(),
                    keys@.len() == n,
                    forall|m: int| 0 <= m < n ==> keys@[m]@ == track_key(tracks@[m]),
                    group@.len() > 0 && group@[0] == i,
                    forall|g: int|
                        0 <= g < group@.len() ==> i <= #[trigger] group@[g] < j && track_key(
                            tracks@[group@[g] as int],
                        ) == track_key(tracks@[i as int]),
                    forall|g1: int, g2: int|
                        0 <= g1 < g2 < group@.len() ==> group@[g1] < group@[g2],
                    forall|m: int| #![trigger track_key(tracks@[m])]
                        i <= m < j && track_key(tracks@[m]) == track_key(tracks@[i as int])
                            ==> exists|g: int| 0 <= g < group@.len() && #[trigger] group@[g] == m,
                decreases n - j,
            {
                let eq = lex_cmp_chars(&keys[j], &keys[i]) == 0;
                proof {
                    lemma_lex_cmp_eq(keys@[j as int]@, keys@[i as int]@);
                }
                let ghost old_group = group@;
                if eq {
                    group.push(j);
                }
                proof {
                    assert forall|m: int| #![trigger track_key(tracks@[m])]
                        i <= m < j + 1 && track_key(tracks@[m]) == track_key(tracks@[i as int])
                            implies exists|g: int|
                        0 <= g < group@.len() && #[trigger] group@[g] == m by {
                        if m == j {
                            assert(group@[group@.len() - 1] == m);
                        } else {
                            let g = choose|g: int|
                                0 <= g < old_group.len() && #[trigger] old_group[g] == m;
                            assert(group@[g] == m);
                        }
                    }
                }
                j = j + 1;
            }
            // The group is exactly the set of indices at or after `i` with
            // this key; earlier ones would have visited `i` already.
            let mut best: usize = group[0];
            let mut best_g: usize = 0;
            proof {
                assert(group@[0] == i);
                lemma_lex_cmp_eq(date_key(tracks@[i as int]), date_key(tracks@[i as int]));
            }
            if matches!(mode, KeepMode::OldestDate) {
                let mut g: usize = 1;
                while g < group.len()
                    invariant
                        1 <= g <= group@.len(),
                        group@.len() > 0,
                        n == tracks@.len(),
                        dates@.len() == n,
                        forall|m: int| 0 <= m < n ==> dates@[m]@ == date_key(tracks@[m]),
                        forall|m: int| 0 <= m < group@.len() ==> #[trigger] group@[m] < n,
                        best_g < g,
                        group@[best_g as int] == best,
                        best < n,
                        forall|m: int|
                            0 <= m < g ==> lex_cmp(
                                date_key(tracks@[best as int]),
                                date_key(tracks@[#[trigger] group@[m] as int]),
                            ) <= 0,
                        forall|m: int|
                            0 <= m < best_g ==> lex_cmp(
                                date_key(tracks@[best as int]),
                                date_key(tracks@[#[trigger] group@[m] as int]),
                            ) < 0,
                    decreases group@.len() - g,
                {
                    let cand = group[g];
                    if lex_cmp_chars(&dates[cand], &dates[best]) < 0 {
                        proof {
                            lemma_cmp_switch_min(
                                tracks@,
                                dates@,
                                group@,
                                best as int,
                                cand as int,
                                g as int,
                            );
                            assert(group@[g as int] == cand);
                            assert forall|m: int| 0 <= m < g implies lex_cmp(
                                date_key(tracks@[cand as int]),
                                date_key(tracks@[#[trigger] group@[m] as int]),
                            ) < 0 by {
                                crate::strutil::lemma_lex_cmp_trans_lt(
                                    date_key(tracks@[cand as int]),
                                    date_key(tracks@[best as int]),
                                    date_key(tracks@[group@[m] as int]),
                                );
                            }
                        }
                        best = cand;
                        best_g = g;
                    } else {
                        proof {
                            lemma_lex_cmp_antisym(
                                date_key(tracks@[cand as int]),
                                date_key(tracks@[best as int]),
                            );
                            assert forall|m: int| 0 <= m < g + 1 implies lex_cmp(
                                date_key(tracks@[best as int]),
                                date_key(tracks@[#[trigger] group@[m] as int]),
                            ) <= 0 by {
                                if m == g {
                                    assert(group@[m] == cand);
                                }
                            }
                        }
                    }
                    g = g + 1;
                }
            } else if matches!(mode, KeepMode::NewestDate) {
                let mut g: usize = 1;
                while g < group.len()
                    invariant
                        1 <= g <= group@.len(),
                        group@.len() > 0,
                        n == tracks@.len(),
                        dates@.len() == n,
                        forall|m: int| 0 <= m < n ==> dates@[m]@ == date_key(tracks@[m]),
                        forall|m: int| 0 <= m < group@.len() ==> #[trigger] group@[m] < n,
                        best_g < g,
                        group@[best_g as int] == best,
                        best < n,
                        forall|m: int|
                            0 <= m < g ==> lex_cmp(
                                date_key(tracks@[best as int]),
                                date_key(tracks@[#[trigger] group@[m] as int]),
                            ) >= 0,
                        forall|m: int|
                            0 <= m < best_g ==> lex_cmp(
                                date_key(tracks@[best as int]),
                                date_key(tracks@[#[trigger] group@[m] as int]),
                            ) > 0,
                    decreases group@.len() - g,
                {
                    let cand = group[g];
                    if lex_cmp_chars(&dates[cand], &dates[best]) > 0 {
                        proof {
                            lemma_cmp_switch_max(
                                tracks@,
                                dates@,
                                group@,
                                best as int,
                                cand as int,
                                g as int,
                            );
                            assert(group@[g as int] == cand);
                            assert forall|m: int| 0 <= m < g implies lex_cmp(
                                date_key(tracks@[cand as int]),
                                date_key(tracks@[#[trigger] group@[m] as int]),
                            ) > 0 by {
                                crate::strutil::lemma_lex_cmp_antisym(
                                    date_key(tracks@[cand as int]),
                                    date_key(tracks@[best as int]),
                                );
                                crate::strutil::lemma_lex_cmp_antisym(
                                    date_key(tracks@[best as int]),
                                    date_key(tracks@[group@[m] as int]),
                                );
                                crate::strutil::lemma_lex_cmp_le_lt(
                                    date_key(tracks@[group@[m] as int]),
                                    date_key(tracks@[best as int]),
                                    date_key(tracks@[cand as int]),
                                );
                                crate::strutil::lemma_lex_cmp_antisym(
                                    date_key(tracks@[cand as int]),
                                    date_key(tracks@[group@[m] as int]),
                                );
                            }
                        }
                        best = cand;
                        best_g = g;
                    } else {
                        proof {
                            lemma_lex_cmp_antisym(
                                date_key(tracks@[cand as int]),
                                date_key(tracks@[best as int]),
                            );
                            assert forall|m: int| 0 <= m < g + 1 implies lex_cmp(
                                date_key(tracks@[best as int]),
                                date_key(tracks@[#[trigger] group@[m] as int]),
                            ) >= 0 by {
                                if m == g {
                                    assert(group@[m] == cand);
                                }
                            }
                        }
                    }
                    g = g + 1;
                }
            } else if matches!(mode, KeepMode::NewestPosition) {
                best_g = group.len() - 1;
                best = group[best_g];
            }
            let ghost best_picked = best as int;
            let ghost best_pos = best_g as int;

            // Mark the whole group visited and the chosen index survivor.
            let ghost old_visited = visited@;
            let ghost old_survivor = survivor@;
            let mut g: usize = 0;
            while g < group.len()
                invariant
                    g <= group@.len(),
                    n == tracks@.len(),
                    visited@.len() == n,
                    forall|m: int| 0 <= m < group@.len() ==> i <= #[trigger] group@[m] < n,
                    forall|j: int|
                        0 <= j < n ==> (#[trigger] visited@[j] <==> (old_visited[j] || exists|m: int|
                            0 <= m < g && #[trigger] group@[m] == j)),
                decreases group@.len() - g,
            {
                let idx = group[g];
                let ghost before = visited@;
                visited.set(idx, true);
                proof {
                    assert forall|j: int|
                        0 <= j < n implies (#[trigger] visited@[j] <==> (old_visited[j]
                            || exists|m: int| 0 <= m < g + 1 && #[trigger] group@[m] == j)) by {
                        if j == idx {
                            assert(group@[g as int] == j);
                        } else {
                            assert(visited@[j] == before[j]);
                        }
                    }
                }
                g = g + 1;
            }
            survivor.set(best, true);
            proof {
                // The group membership facts, instantiated for the lemma.
                assert(group@[best_pos] == best_picked);
                assert(track_key(tracks@[best_picked]) == track_key(tracks@[i as int]));
                assert(survivor@ =~= old_survivor.update(best_picked, true));
                lemma_group_step(
                    tracks@,
                    group@,
                    old_visited,
                    visited@,
                    old_survivor,
                    survivor@,
                    i as int,
                    best_picked,
                );
                // Every slot sharing this key lies in the group: one before
                // slot `i` would have visited it already.
                assert forall|j: int|
                    0 <= j < n && track_key(tracks@[best_picked]) == track_key(
                        tracks@[j],
                    ) implies exists|m: int| 0 <= m < group@.len() && #[trigger] group@[m]
                    == j by {
                    if j < i {
                        assert(track_key(tracks@[j]) == track_key(tracks@[i as int]));
                        assert(key_before(tracks@, i as int, track_key(tracks@[i as int])));
                        assert(old_visited[i as int]);
                        assert(false);
                    } else {
                        assert(track_key(tracks@[j]) == track_key(tracks@[i as int]));
                    }
                }
                // A same-key slot before the survivor sits earlier in the
                // group than the survivor's own position.
                assert forall|j: int|
                    0 <= j < best_picked && track_key(tracks@[j]) == track_key(
                        tracks@[best_picked],
                    ) implies exists|m: int|
                    0 <= m < best_pos && #[trigger] group@[m] == j by {
                    let m = choose|m: int| 0 <= m < group@.len() && #[trigger] group@[m] == j;
                    if m >= best_pos {
                        if m > best_pos {
                            assert(group@[best_pos] < group@[m]);
                        }
                        assert(false);
                    }
                }
                // The chosen slot is the survivor its preference demands.
                assert(survivor_slot_ok(tracks@, preference@, best_picked)) by {
                    if mode is OldestDate {
                        assert forall|j: int|
                            0 <= j < best_picked && #[trigger] track_key(tracks@[j]) == track_key(
                                tracks@[best_picked],
                            ) implies lex_cmp(
                            date_key(tracks@[best_picked]),
                            date_key(tracks@[j]),
                        ) < 0 by {
                            let m = choose|m: int|
                                0 <= m < best_pos && #[trigger] group@[m] == j;
                        }
                        assert forall|j: int|
                            0 <= j < n && #[trigger] track_key(tracks@[j]) == track_key(
                                tracks@[best_picked],
                            ) implies lex_cmp(
                            date_key(tracks@[best_picked]),
                            date_key(tracks@[j]),
                        ) <= 0 by {
                            let m = choose|m: int|
                                0 <= m < group@.len() && #[trigger] group@[m] == j;
                        }
                    } else if mode is NewestDate {
                        assert forall|j: int|
                            0 <= j < best_picked && #[trigger] track_key(tracks@[j]) == track_key(
                                tracks@[best_picked],
                            ) implies lex_cmp(
                            date_key(tracks@[best_picked]),
                            date_key(tracks@[j]),
                        ) > 0 by {
                            let m = choose|m: int|
                                0 <= m < best_pos && #[trigger] group@[m] == j;
                        }
                        assert forall|j: int|
                            0 <= j < n && #[trigger] track_key(tracks@[j]) == track_key(
                                tracks@[best_picked],
                            ) implies lex_cmp(
                            date_key(tracks@[best_picked]),
                            date_key(tracks@[j]),
                        ) >= 0 by {
                            let m = choose|m: int|
                                0 <= m < group@.len() && #[trigger] group@[m] == j;
                        }
                    } else if mode is NewestPosition {
                        assert forall|j: int|
                            best_picked < j < n implies #[trigger] track_key(tracks@[j])
                            != track_key(tracks@[best_picked]) by {
                            if track_key(tracks@[j]) == track_key(tracks@[best_picked]) {
                                let m = choose|m: int|
                                    0 <= m < group@.len() && #[trigger] group@[m] == j;
                                if m < group@.len() - 1 {
                                    assert(group@[m] < group@[group@.len() - 1]);
                                }
                                assert(false);
                            }
                        }
                    } else {
                        // first occurrence: no earlier slot shares the key
                        assert(best_picked == i);
                        assert forall|j: int|
                            0 <= j < best_picked implies #[trigger] track_key(tracks@[j])
                            != track_key(tracks@[best_picked]) by {
                            if track_key(tracks@[j]) == track_key(tracks@[best_picked]) {
                                assert(key_before(
                                    tracks@,
                                    i as int,
                                    track_key(tracks@[i as int]),
                                ));
                                assert(old_visited[i as int]);
                            }
                        }
                    }
                }
                // Old survivors keep their facts; the new one was just shown.
                assert forall|sl: int|
                    0 <= sl < n && #[trigger] survivor@[sl] implies survivor_slot_ok(
                    tracks@,
                    preference@,
                    sl,
                ) by {
                    if sl != best_picked {
                        assert(old_survivor[sl]);
                    }
                }
            }
        } else {
            proof {
                lemma_visited_step(tracks@, visited@, i as int);
            }
        }
        i = i + 1;
    }
    proof {
        lemma_flags_cover(tracks@, visited@, survivor@, n as int);
    }
    survivor
}

/// After every slot has been processed, every key has a flagged slot.
proof fn lemma_flags_cover(
    tracks: Seq<AppTrack>,
    visited: Seq<bool>,
    survivor: Seq<bool>,
    n: int,
)
    requires
        n == tracks.len(),
        visited.len() == n,
        survivor.len() == n,
        forall|j: int| #![trigger visited[j]]
            0 <= j < n ==> (visited[j] <==> key_before(tracks, n, track_key(tracks[j]))),
        forall|j: int| #![trigger visited[j]]
            0 <= j < n && visited[j] ==> key_among(tracks, survivor, track_key(tracks[j])),
    ensures
        forall|j: int|
            0 <= j < n ==> key_among(tracks, survivor, #[trigger] track_key(tracks[j])),
{
    assert forall|j: int| 0 <= j < n implies key_among(
        tracks,
        survivor,
        #[trigger] track_key(tracks[j]),
    ) by {
        assert(key_before(tracks, n, track_key(tracks[j]))) by {
            assert(track_key(tracks[j]) == track_key(tracks[j]));
        }
        assert(visited[j]);
    }
}

/// The elements of `s` whose flag is set, in order.
pub open spec fn spec_selected(s: Seq<AppTrack>, f: Seq<bool>) -> Seq<AppTrack>
    decreases s.len(),
{
    if s.len() == 0 || f.len() == 0 {
        Seq::empty()
    } else {
        spec_selected(s.drop_last(), f.drop_last()) + (if f.last() {
            seq![s.last()]
        } else {
            Seq::empty()
        })
    }
}

/// The negation of a flag sequence.
pub open spec fn spec_negated(f: Seq<bool>) -> Seq<bool> {
    f.map_values(|b: bool| !b)
}

proof fn lemma_selected_len(s: Seq<AppTrack>, f: Seq<bool>)
    requires
        s.len() == f.len(),
    ensures
        spec_selected(s, f).len() + spec_selected(s, spec_negated(f)).len() == s.len(),
    decreases s.len(),
{
    if s.len() > 0 {
        lemma_selected_len(s.drop_last(), f.drop_last());
        assert(spec_negated(f).drop_last() =~= spec_negated(f.drop_last()));
        assert(spec_negated(f).last() == !f.last());
    }
}

proof fn lemma_selected_multiset(s: Seq<AppTrack>, f: Seq<bool>)
    requires
        s.len() == f.len(),
    ensures
        spec_selected(s, f).to_multiset().add(spec_selected(s, spec_negated(f)).to_multiset())
            == s.to_multiset(),
    decreases s.len(),
{
    broadcast use vstd::seq_lib::group_to_multiset_ensures;
    broadcast use vstd::multiset::group_multiset_axioms;
    broadcast use vstd::multiset::lemma_multiset_empty_len;

    if s.len() == 0 {
        assert(spec_selected(s, f).to_multiset().len() == 0);
        assert(spec_selected(s, spec_negated(f)).to_multiset().len() == 0);
        assert(spec_selected(s, f).to_multiset().add(
            spec_selected(s, spec_negated(f)).to_multiset(),
        ) =~= s.to_multiset());
    } else {
        lemma_selected_multiset(s.drop_last(), f.drop_last());
        assert(spec_negated(f).drop_last() =~= spec_negated(f.drop_last()));
        assert(spec_negated(f).last() == !f.last());
        let a = spec_selected(s.drop_last(), f.drop_last());
        let b = spec_selected(s.drop_last(), spec_negated(f.drop_last()));
        lemma_partition_step(a, b, s.drop_last(), s.last(), f.last());
        if f.last() {
            assert(spec_selected(s, f) =~= a.push(s.last()));
            assert(spec_selected(s, spec_negated(f)) =~= b);
        } else {
            assert(spec_selected(s, f) =~= a);
            assert(spec_selected(s, spec_negated(f)) =~= b.push(s.last()));
        }
        assert(s.drop_last().push(s.last()) =~= s);
        assert(s.drop_last().push(s.last()).to_multiset() == s.drop_last().to_multiset().insert(
            s.last(),
        ));
    }
}

proof fn lemma_selected_subseq(s: Seq<AppTrack>, f: Seq<bool>)
    ensures
        spec_subseq(spec_selected(s, f), s),
    decreases s.len(),
{
    if s.len() == 0 || f.len() == 0 {
        assert(spec_selected(s, f) =~= Seq::<AppTrack>::empty());
        lemma_subseq_empty(s);
    } else {
        lemma_selected_subseq(s.drop_last(), f.drop_last());
        if f.last() {
            lemma_subseq_push(spec_selected(s.drop_last(), f.drop_last()), s.drop_last(), s.last());
            assert(spec_selected(s, f) =~= spec_selected(s.drop_last(), f.drop_last()).push(
                s.last(),
            ));
            assert(s.drop_last().push(s.last()) =~= s);
        } else {
            lemma_subseq_skip(spec_selected(s.drop_last(), f.drop_last()), s.drop_last(), s.last());
            assert(spec_selected(s, f) =~= spec_selected(s.drop_last(), f.drop_last()));
            assert(s.drop_last().push(s.last()) =~= s);
        }
    }
}

/// Every selected element stands at a flagged slot.
proof fn lemma_selected_origin(s: Seq<AppTrack>, f: Seq<bool>, m: int)
    requires
        s.len() == f.len(),
        0 <= m < spec_selected(s, f).len(),
    ensures
        exists|j: int|
            0 <= j < s.len() && f[j] && #[trigger] s[j] == spec_selected(s, f)[m],
    decreases s.len(),
{
    if s.len() > 0 {
        let inner = spec_selected(s.drop_last(), f.drop_last());
        if f.last() && m == inner.len() {
            assert(s[s.len() - 1] == spec_selected(s, f)[m]);
        } else {
            lemma_selected_origin(s.drop_last(), f.drop_last(), m);
            let j = choose|j: int|
                0 <= j < s.drop_last().len() && f.drop_last()[j] && #[trigger] s.drop_last()[j]
                    == inner[m];
            assert(s[j] == spec_selected(s, f)[m]);
        }
    }
}

/// Every flagged slot's element is selected.
proof fn lemma_selected_covers(s: Seq<AppTrack>, f: Seq<bool>, j: int)
    requires
        s.len() == f.len(),
        0 <= j < s.len(),
        f[j],
    ensures
        exists|m: int|
            0 <= m < spec_selected(s, f).len() && #[trigger] spec_selected(s, f)[m] == s[j],
    decreases s.len(),
{
    let inner = spec_selected(s.drop_last(), f.drop_last());
    if j == s.len() - 1 {
        assert(spec_selected(s, f)[inner.len() as int] == s[j]);
    } else {
        lemma_selected_covers(s.drop_last(), f.drop_last(), j);
        let m = choose|m: int|
            0 <= m < inner.len() && #[trigger] inner[m] == s.drop_last()[j];
        assert(spec_selected(s, f)[m] == s[j]);
    }
}

/// Selected elements of distinct flagged slots come from distinct slots.
proof fn lemma_selected_distinct_keys(s: Seq<AppTrack>, f: Seq<bool>)
    requires
        s.len() == f.len(),
        forall|j1: int, j2: int|
            0 <= j1 < j2 < s.len() && f[j1] && f[j2] ==> track_key(s[j1]) != track_key(s[j2]),
    ensures
        forall|m1: int, m2: int|
            0 <= m1 < m2 < spec_selected(s, f).len() ==> track_key(spec_selected(s, f)[m1])
                != track_key(spec_selected(s, f)[m2]),
    decreases s.len(),
{
    if s.len() > 0 {
        lemma_selected_distinct_keys(s.drop_last(), f.drop_last());
        let sel = spec_selected(s, f);
        let inner = spec_selected(s.drop_last(), f.drop_last());
        assert forall|m1: int, m2: int|
            0 <= m1 < m2 < sel.len() implies track_key(sel[m1]) != track_key(sel[m2]) by {
            if f.last() && m2 == inner.len() {
                lemma_selected_origin(s.drop_last(), f.drop_last(), m1);
                let j = choose|j: int|
                    0 <= j < s.drop_last().len() && f.drop_last()[j] && #[trigger] s.drop_last()[j]
                        == inner[m1];
                assert(sel[m1] == s[j]);
                assert(sel[m2] == s[s.len() - 1]);
            } else {
                assert(sel[m1] == inner[m1]);
                assert(sel[m2] == inner[m2]);
            }
        }
    }
}

/// Split the tracks by their flags, preserving order on both sides.
pub fn partition_by_flags(tracks: Vec<AppTrack>, flags: &Vec<bool>) -> (r: (
    Vec<AppTrack>,
    Vec<AppTrack>,
))
    requires
        flags@.len() == tracks@.len(),
    ensures
        r.0@ == spec_selected(tracks@, flags@),
        r.1@ == spec_selected(tracks@, spec_negated(flags@)),
{
    let ghost orig = tracks@;
    let n = tracks.len();
    let mut rest = tracks;
    let mut kept: Vec<AppTrack> = Vec::new();
    let mut removed: Vec<AppTrack> = Vec::new();
    let mut i: usize = 0;
    proof {
        assert(rest@ =~= orig.skip(0));
        assert(spec_selected(orig.take(0), flags@.take(0)) =~= Seq::<AppTrack>::empty());
        assert(spec_selected(orig.take(0), spec_negated(flags@).take(0)) =~= Seq::<
            AppTrack,
        >::empty());
    }
    while i < n
        invariant
            i <= n,
            n == orig.len(),
            flags@.len() == n,
            rest@ == orig.skip(i as int),
            kept@ == spec_selected(orig.take(i as int), flags@.take(i as int)),
            removed@ == spec_selected(orig.take(i as int), spec_negated(flags@).take(i as int)),
        decreases n - i,
    {
        let t = rest.remove(0);
        proof {
            assert(t == orig[i as int]);
            assert(rest@ =~= orig.skip(i + 1));
            assert(orig.take(i + 1).drop_last() =~= orig.take(i as int));
            assert(flags@.take(i + 1).drop_last() =~= flags@.take(i as int));
            assert(spec_negated(flags@).take(i + 1).drop_last() =~= spec_negated(flags@).take(
                i as int,
            ));
            assert(orig.take(i + 1).last() == orig[i as int]);
            assert(flags@.take(i + 1).last() == flags@[i as int]);
            assert(spec_negated(flags@).take(i + 1).last() == !flags@[i as int]);
        }
        if flags[i] {
            kept.push(t);
            proof {
                assert(kept@ =~= spec_selected(orig.take(i + 1), flags@.take(i + 1)));
                assert(removed@ =~= spec_selected(
                    orig.take(i + 1),
                    spec_negated(flags@).take(i + 1),
                ));
            }
        } else {
            removed.push(t);
            proof {
                assert(kept@ =~= spec_selected(orig.take(i + 1), flags@.take(i + 1)));
                assert(removed@ =~= spec_selected(
                    orig.take(i + 1),
                    spec_negated(flags@).take(i + 1),
                ));
            }
        }
        i = i + 1;
    }
    proof {
        assert(orig.take(n as int) =~= orig);
        assert(flags@.take(n as int) =~= flags@);
        assert(spec_negated(flags@).take(n as int) =~= spec_negated(flags@));
    }
    (kept, removed)
}

/// Find and remove duplicate tracks.
///
/// Partitions the input into groups of equal duplicate key; each group keeps
/// exactly one survivor and the rest are removed. The kept tracks preserve
/// their input order. Each kept track stands at a slot its preference
/// demands (see [`survivor_slot_ok`]): minimal or maximal padded date under
/// the release-date preferences with ties broken to the earliest slot, the
/// key's last slot under the newest-position preference, and its first slot
/// under the oldest-position or any unrecognized preference. Unparseable or
/// empty release dates sort as the earliest possible date.
pub fn remove_duplicates(tracks: Vec<AppTrack>, preference: &str) -> (r: (
    Vec<AppTrack>,
    Vec<AppTrack>,
))
    ensures
        r.0@.len() + r.1@.len() == tracks@.len(),
        r.0@.to_multiset().add(r.1@.to_multiset()) == tracks@.to_multiset(),
        spec_subseq(r.0@, tracks@),
        forall|i: int, j: int|
            0 <= i < j < r.0@.len() ==> track_key(r.0@[i]) != track_key(r.0@[j]),
        forall|j: int|
            0 <= j < tracks@.len() ==> key_covered(r.0@, #[trigger] track_key(tracks@[j])),
        preference@ == "Keep Oldest (Release Date)"@ ==> forall|m: int, j: int|
            0 <= m < r.0@.len() && 0 <= j < tracks@.len() && track_key(r.0@[m]) == track_key(
                tracks@[j],
            ) ==> lex_cmp(date_key(r.0@[m]), date_key(tracks@[j])) <= 0,
        preference@ == "Keep Newest (Release Date)"@ ==> forall|m: int, j: int|
            0 <= m < r.0@.len() && 0 <= j < tracks@.len() && track_key(r.0@[m]) == track_key(
                tracks@[j],
            ) ==> lex_cmp(date_key(r.0@[m]), date_key(tracks@[j])) >= 0,
        forall|m: int| #![trigger r.0@[m]]
            0 <= m < r.0@.len() ==> exists|s: int|
                0 <= s < tracks@.len() && r.0@[m] == #[trigger] tracks@[s] && survivor_slot_ok(
                    tracks@,
                    preference@,
                    s,
                ),
{
    let ghost orig = tracks@;
    let flags = survivor_flags(&tracks, preference);
    let ghost fl = flags@;
    let r = partition_by_flags(tracks, &flags);
    proof {
        lemma_selected_len(orig, fl);
        lemma_selected_multiset(orig, fl);
        lemma_selected_subseq(orig, fl);
        lemma_selected_distinct_keys(orig, fl);
        let sel = spec_selected(orig, fl);
        assert forall|j: int| 0 <= j < orig.len() implies key_covered(
            sel,
            #[trigger] track_key(orig[j]),
        ) by {
            assert(key_among(orig, fl, track_key(orig[j])));
            let m0 = choose|m0: int|
                0 <= m0 < orig.len() && fl[m0] && #[trigger] track_key(orig[m0]) == track_key(
                    orig[j],
                );
            lemma_selected_covers(orig, fl, m0);
            let m = choose|m: int| 0 <= m < sel.len() && #[trigger] sel[m] == orig[m0];
            assert(track_key(sel[m]) == track_key(orig[j]));
            assert(key_covered(sel, track_key(orig[j])));
        }
        assert forall|m: int, j: int|
            0 <= m < sel.len() && 0 <= j < orig.len() && track_key(sel[m]) == track_key(
                orig[j],
            ) && preference@ == "Keep Oldest (Release Date)"@ implies lex_cmp(
            date_key(sel[m]),
            date_key(orig[j]),
        ) <= 0 by {
            lemma_selected_origin(orig, fl, m);
            let j0 = choose|j0: int|
                0 <= j0 < orig.len() && fl[j0] && #[trigger] orig[j0] == sel[m];
        }
        assert forall|m: int, j: int|
            0 <= m < sel.len() && 0 <= j < orig.len() && track_key(sel[m]) == track_key(
                orig[j],
            ) && preference@ == "Keep Newest (Release Date)"@ implies lex_cmp(
            date_key(sel[m]),
            date_key(orig[j]),
        ) >= 0 by {
            lemma_selected_origin(orig, fl, m);
            let j0 = choose|j0: int|
                0 <= j0 < orig.len() && fl[j0] && #[trigger] orig[j0] == sel[m];
        }
        assert forall|m: int| #![trigger sel[m]] 0 <= m < sel.len() implies exists|s: int|
            0 <= s < orig.len() && sel[m] == #[trigger] orig[s] && survivor_slot_ok(
                orig,
                preference@,
                s,
            ) by {
            lemma_selected_origin(orig, fl, m);
            let j0 = choose|j0: int|
                0 <= j0 < orig.len() && fl[j0] && #[trigger] orig[j0] == sel[m];
            assert(survivor_slot_ok(orig, preference@, j0));
        }
    }
    r
}

proof fn lemma_partition_step(
    a: Seq<AppTrack>,
    b: Seq<AppTrack>,
    pre: Seq<AppTrack>,
    x: AppTrack,
    to_kept: bool,
)
    requires
        a.to_multiset().add(b.to_multiset()) == pre.to_multiset(),
    ensures
        to_kept ==> a.push(x).to_multiset().add(b.to_multiset()) == pre.push(x).to_multiset(),
        !to_kept ==> a.to_multiset().add(b.push(x).to_multiset()) == pre.push(x).to_multiset(),
{
    broadcast use vstd::seq_lib::group_to_multiset_ensures;
    broadcast use vstd::multiset::group_multiset_axioms;

    assert(a.push(x).to_multiset() == a.to_multiset().insert(x));
    assert(b.push(x).to_multiset() == b.to_multiset().insert(x));
    assert(pre.push(x).to_multiset() == pre.to_multiset().insert(x));
    assert(a.to_multiset().insert(x).add(b.to_multiset()) =~= pre.to_multiset().insert(x));
    assert(a.to_multiset().add(b.to_multiset().insert(x)) =~= pre.to_multiset().insert(x));
}

proof fn lemma_cmp_switch_min(
    tracks: Seq<AppTrack>,
    dates: Seq<Vec<char>>,
    group: Seq<usize>,
    best: int,
    cand: int,
    g: int,
)
    requires
        0 <= best < tracks.len(),
        0 <= cand < tracks.len(),
        dates.len() == tracks.len(),
        forall|m: int| 0 <= m < tracks.len() ==> dates[m]@ == date_key(tracks[m]),
        0 <= g < group.len(),
        forall|m: int| 0 <= m < group.len() ==> #[trigger] group[m] < tracks.len(),
        group[g] == cand,
        lex_cmp(date_key(tracks[cand]), date_key(tracks[best])) < 0,
        forall|m: int|
            0 <= m < g ==> lex_cmp(date_key(tracks[best]), date_key(tracks[group[m] as int]))
                <= 0,
    ensures
        forall|m: int|
            0 <= m <= g ==> lex_cmp(date_key(tracks[cand]), date_key(tracks[group[m] as int]))
                <= 0,
{
    assert forall|m: int| 0 <= m <= g implies lex_cmp(
        date_key(tracks[cand]),
        date_key(tracks[group[m] as int]),
    ) <= 0 by {
        if m < g {
            crate::strutil::lemma_lex_cmp_trans(
                date_key(tracks[cand]),
                date_key(tracks[best]),
                date_key(tracks[group[m] as int]),
            );
        } else {
            crate::strutil::lemma_lex_cmp_eq(date_key(tracks[cand]), date_key(tracks[cand]));
        }
    }
}

proof fn lemma_cmp_switch_max(
    tracks: Seq<AppTrack>,
    dates: Seq<Vec<char>>,
    group: Seq<usize>,
    best: int,
    cand: int,
    g: int,
)
    requires
        0 <= best < tracks.len(),
        0 <= cand < tracks.len(),
        dates.len() == tracks.len(),
        forall|m: int| 0 <= m < tracks.len() ==> dates[m]@ == date_key(tracks[m]),
        0 <= g < group.len(),
        forall|m: int| 0 <= m < group.len() ==> #[trigger] group[m] < tracks.len(),
        group[g] == cand,
        lex_cmp(date_key(tracks[cand]), date_key(tracks[best])) > 0,
        forall|m: int|
            0 <= m < g ==> lex_cmp(date_key(tracks[best]), date_key(tracks[group[m] as int]))
                >= 0,
    ensures
        forall|m: int|
            0 <= m <= g ==> lex_cmp(date_key(tracks[cand]), date_key(tracks[group[m] as int]))
                >= 0,
{
    assert forall|m: int| 0 <= m <= g implies lex_cmp(
        date_key(tracks[cand]),
        date_key(tracks[group[m] as int]),
    ) >= 0 by {
        if m < g {
            crate::strutil::lemma_lex_cmp_antisym(date_key(tracks[cand]), date_key(tracks[best]));
            crate::strutil::lemma_lex_cmp_antisym(
                date_key(tracks[best]),
                date_key(tracks[group[m] as int]),
            );
            crate::strutil::lemma_lex_cmp_antisym(
                date_key(tracks[cand]),
                date_key(tracks[group[m] as int]),
            );
            crate::strutil::lemma_lex_cmp_trans(
                date_key(tracks[group[m] as int]),
                date_key(tracks[best]),
                date_key(tracks[cand]),
            );
        } else {
            crate::strutil::lemma_lex_cmp_eq(date_key(tracks[cand]), date_key(tracks[cand]));
        }
    }
}

proof fn lemma_visited_step(tracks: Seq<AppTrack>, visited: Seq<bool>, i: int)
    requires
        0 <= i < tracks.len(),
        visited.len() == tracks.len(),
        forall|j: int| #![trigger visited[j]]
            0 <= j < tracks.len() ==> (visited[j] <==> key_before(tracks, i, track_key(
                tracks[j],
            ))),
        visited[i],
    ensures
        forall|j: int| #![trigger visited[j]]
            0 <= j < tracks.len() ==> (visited[j] <==> key_before(tracks, i + 1, track_key(
                tracks[j],
            ))),
{
    assert forall|j: int| #![trigger visited[j]] 0 <= j < tracks.len() implies (visited[j]
        <==> key_before(tracks, i + 1, track_key(tracks[j]))) by {
        if visited[j] {
            let m = choose|m: int| 0 <= m < i && #[trigger] track_key(tracks[m]) == track_key(
                tracks[j],
            );
            assert(key_before(tracks, i + 1, track_key(tracks[j])));
        } else {
            if key_before(tracks, i + 1, track_key(tracks[j])) {
                let m = choose|m: int|
                    0 <= m < i + 1 && #[trigger] track_key(tracks[m]) == track_key(tracks[j]);
                if m == i {
                    assert(key_before(tracks, i, track_key(tracks[i])));
                    let m0 = choose|m0: int|
                        0 <= m0 < i && #[trigger] track_key(tracks[m0]) == track_key(tracks[i]);
                    assert(key_before(tracks, i, track_key(tracks[j])));
                } else {
                    assert(key_before(tracks, i, track_key(tracks[j])));
                }
                assert(false);
            }
        }
    }
}

proof fn lemma_group_step(
    tracks: Seq<AppTrack>,
    group: Seq<usize>,
    old_visited: Seq<bool>,
    new_visited: Seq<bool>,
    old_survivor: Seq<bool>,
    new_survivor: Seq<bool>,
    i: int,
    best: int,
)
    requires
        0 <= i < tracks.len(),
        old_visited.len() == tracks.len(),
        new_visited.len() == tracks.len(),
        old_survivor.len() == tracks.len(),
        new_survivor.len() == tracks.len(),
        // before this group, the visited flags matched processed slots
        forall|j: int| #![trigger old_visited[j]]
            0 <= j < tracks.len() ==> (old_visited[j] <==> key_before(tracks, i, track_key(
                tracks[j],
            ))),
        !old_visited[i],
        // the group holds exactly the later slots with this key
        group.len() > 0 && group[0] == i,
        forall|g: int|
            0 <= g < group.len() ==> i <= #[trigger] group[g] < tracks.len() && track_key(
                tracks[group[g] as int],
            ) == track_key(tracks[i]),
        forall|m: int| #![trigger track_key(tracks[m])]
            i <= m < tracks.len() && track_key(tracks[m]) == track_key(tracks[i]) ==> exists|g: int|
                0 <= g < group.len() && #[trigger] group[g] == m,
        // the new visited flags add exactly the group
        forall|j: int|
            0 <= j < tracks.len() ==> (#[trigger] new_visited[j] <==> (old_visited[j] || exists|m: int|
                0 <= m < group.len() && #[trigger] group[m] == j)),
        // the survivor is a group member, newly flagged
        i <= best < tracks.len(),
        track_key(tracks[best]) == track_key(tracks[i]),
        new_survivor == old_survivor.update(best, true),
        // the old survivor facts
        forall|j: int| 0 <= j < tracks.len() && old_survivor[j] ==> old_visited[j],
        forall|j1: int, j2: int|
            0 <= j1 < j2 < tracks.len() && old_survivor[j1] && old_survivor[j2] ==> track_key(
                tracks[j1],
            ) != track_key(tracks[j2]),
        forall|j: int| #![trigger old_visited[j]]
            0 <= j < tracks.len() && old_visited[j] ==> key_among(tracks, old_survivor, track_key(
                tracks[j],
            )),
    ensures
        forall|j: int| #![trigger new_visited[j]]
            0 <= j < tracks.len() ==> (new_visited[j] <==> key_before(tracks, i + 1, track_key(
                tracks[j],
            ))),
        forall|j: int| 0 <= j < tracks.len() && new_survivor[j] ==> new_visited[j],
        forall|j1: int, j2: int|
            0 <= j1 < j2 < tracks.len() && new_survivor[j1] && new_survivor[j2] ==> track_key(
                tracks[j1],
            ) != track_key(tracks[j2]),
        forall|j: int| #![trigger new_visited[j]]
            0 <= j < tracks.len() && new_visited[j] ==> key_among(tracks, new_survivor, track_key(
                tracks[j],
            )),
{
    // visited now matches processing through slot i
    assert forall|j: int| #![trigger new_visited[j]] 0 <= j < tracks.len() implies (new_visited[j]
        <==> key_before(tracks, i + 1, track_key(tracks[j]))) by {
        if new_visited[j] {
            if old_visited[j] {
                let m = choose|m: int|
                    0 <= m < i && #[trigger] track_key(tracks[m]) == track_key(tracks[j]);
                assert(key_before(tracks, i + 1, track_key(tracks[j])));
            } else {
                let g = choose|g: int| 0 <= g < group.len() && #[trigger] group[g] == j;
                assert(track_key(tracks[i]) == track_key(tracks[j]));
                assert(key_before(tracks, i + 1, track_key(tracks[j])));
            }
        } else {
            if key_before(tracks, i + 1, track_key(tracks[j])) {
                let m = choose|m: int|
                    0 <= m < i + 1 && #[trigger] track_key(tracks[m]) == track_key(tracks[j]);
                if m < i {
                    assert(key_before(tracks, i, track_key(tracks[j])));
                    assert(old_visited[j]);
                } else {
                    // m == i: j shares the group's key, so j is in the group
                    if j < i {
                        assert(track_key(tracks[j]) == track_key(tracks[i]));
                        assert(key_before(tracks, i, track_key(tracks[i])));
                        assert(old_visited[i]);
                    } else {
                        assert(track_key(tracks[j]) == track_key(tracks[i]));
                        let g = choose|g: int| 0 <= g < group.len() && #[trigger] group[g] == j;
                        assert(new_visited[j]);
                    }
                }
                assert(false);
            }
        }
    }
    // survivors keep pairwise distinct keys
    assert forall|j1: int, j2: int|
        0 <= j1 < j2 < tracks.len() && new_survivor[j1] && new_survivor[j2] implies track_key(
        tracks[j1],
    ) != track_key(tracks[j2]) by {
        if j1 == best && old_survivor[j2] {
            assert(old_visited[j2]);
            if track_key(tracks[j1]) == track_key(tracks[j2]) {
                let m = choose|m: int|
                    0 <= m < i && #[trigger] track_key(tracks[m]) == track_key(tracks[j2]);
                assert(key_before(tracks, i, track_key(tracks[i])));
                assert(old_visited[i]);
            }
        } else if j2 == best && old_survivor[j1] {
            assert(old_visited[j1]);
            if track_key(tracks[j1]) == track_key(tracks[j2]) {
                let m = choose|m: int|
                    0 <= m < i && #[trigger] track_key(tracks[m]) == track_key(tracks[j1]);
                assert(key_before(tracks, i, track_key(tracks[i])));
                assert(old_visited[i]);
            }
        }
    }
    // every newly visited slot's key has a flagged slot
    assert forall|j: int| #![trigger new_visited[j]] 0 <= j < tracks.len() && new_visited[j]
        implies key_among(tracks, new_survivor, track_key(tracks[j])) by {
        if old_visited[j] {
            let m = choose|m: int|
                0 <= m < tracks.len() && old_survivor[m] && #[trigger] track_key(tracks[m])
                    == track_key(tracks[j]);
            assert(new_survivor[m]);
            assert(key_among(tracks, new_survivor, track_key(tracks[j])));
        } else {
            assert(track_key(tracks[best]) == track_key(tracks[j])) by {
                let g = choose|g: int| 0 <= g < group.len() && #[trigger] group[g] == j;
            }
            assert(new_survivor[best]);
            assert(key_among(tracks, new_survivor, track_key(tracks[j])));
        }
    }
}

} // verus!
