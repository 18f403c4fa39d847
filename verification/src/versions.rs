//! The version-upgrade matcher: title cleaning and relaxed matching, the
//! candidate filter, the ranking by release date and album type, and the
//! replacement decision with its never-downgrade rule.

use vstd::prelude::*;
use crate::dates::{date_value_of, parse_date_value, spec_parse_date};
use crate::sort::int_cmp;
use crate::strutil::{
    ascii_eq, ascii_eq_chars, chars_vec, collapse_whitespace, collapse_ws, filter_alnum_ws,
    keep_alnum_ws, lower_of, lowercase, split_char, split_char_chars, str_eq, string_from_chars,
    trim_chars, trim_spec,
};
use crate::track::AppTrack;

verus! {

/// Bracket, dash and underscore characters turned into spaces.
pub open spec fn seps_to_space(s: Seq<char>) -> Seq<char> {
    s.map_values(
        |c: char|
            if c == '-' || c == '(' || c == ')' || c == '[' || c == ']' || c == '_' {
                ' '
            } else {
                c
            },
    )
}

fn replace_separators(v: &Vec<char>) -> (r: Vec<char>)
    ensures
        r@ == seps_to_space(v@),
{
    let mut r: Vec<char> = Vec::new();
    let mut i: usize = 0;
    while i < v.len()
        invariant
            i <= v@.len(),
            r@ == seps_to_space(v@.take(i as int)),
        decreases v@.len() - i,
    {
        let c = v[i];
        if c == '-' || c == '(' || c == ')' || c == '[' || c == ']' || c == '_' {
            r.push(' ');
        } else {
            r.push(c);
        }
        i = i + 1;
        assert(r@ =~= seps_to_space(v@.take(i as int)));
    }
    assert(v@.take(v@.len() as int) =~= v@);
    r
}

/// A title cleaned for comparison: separators become spaces, punctuation is
/// dropped, the rest is lowercased and whitespace-collapsed.
pub open spec fn spec_clean_title(s: Seq<char>) -> Seq<char> {
    collapse_ws(lower_of(keep_alnum_ws(seps_to_space(s))))
}

/// Clean a title for matching.
pub fn clean_title(s: &str) -> (r: String)
    ensures
        r@ == spec_clean_title(s@),
{
    let v = chars_vec(s);
    let replaced = replace_separators(&v);
    let filtered = filter_alnum_ws(&replaced);
    let lowered = lowercase(string_from_chars(&filtered).as_str());
    let collapsed = collapse_whitespace(&chars_vec(lowered.as_str()));
    string_from_chars(&collapsed)
}

/// Whether `s` ends with `suffix`.
pub open spec fn spec_ends_with(s: Seq<char>, suffix: Seq<char>) -> bool {
    s.len() >= suffix.len() && s.skip(s.len() - suffix.len()) == suffix
}

fn ends_with_chars(v: &Vec<char>, suffix: &Vec<char>) -> (r: bool)
    ensures
        r == spec_ends_with(v@, suffix@),
{
    let n = v.len();
    let m = suffix.len();
    if n < m {
        return false;
    }
    let mut i: usize = 0;
    while i < m
        invariant
            i <= m <= n,
            n == v@.len(),
            m == suffix@.len(),
            forall|j: int| 0 <= j < i ==> v@[n - m + j] == suffix@[j],
        decreases m - i,
    {
        if v[n - m + i] != suffix[i] {
            proof {
                assert(v@.skip(n - m as int)[i as int] != suffix@[i as int]);
            }
            return false;
        }
        i = i + 1;
    }
    proof {
        assert(v@.skip(n - m as int) =~= suffix@);
    }
    true
}

/// A cleaned title with a trailing `original mix` or `original` marker
/// stripped and the ends trimmed.
pub open spec fn spec_strip_original(s: Seq<char>) -> Seq<char> {
    let t = trim_spec(s);
    let base = if spec_ends_with(t, " original mix"@) {
        t.take(t.len() - " original mix"@.len())
    } else if spec_ends_with(t, " original"@) {
        t.take(t.len() - " original"@.len())
    } else {
        t
    };
    trim_spec(base)
}

/// Strip a trailing `original` / `original mix` marker from a cleaned title.
pub fn strip_original_suffix(s: &str) -> (r: String)
    ensures
        r@ == spec_strip_original(s@),
{
    proof {
        reveal_strlit(" original mix");
        reveal_strlit(" original");
    }
    let v = chars_vec(s);
    let t = trim_chars(&v);
    let mix = chars_vec(" original mix");
    let plain = chars_vec(" original");
    let base: Vec<char> = if ends_with_chars(&t, &mix) {
        let mut b: Vec<char> = Vec::new();
        let keep = t.len() - 13;
        let mut i: usize = 0;
        while i < keep
            invariant
                i <= keep <= t@.len(),
                b@ == t@.take(i as int),
            decreases keep - i,
        {
            b.push(t[i]);
            i = i + 1;
            assert(b@ =~= t@.take(i as int));
        }
        b
    } else if ends_with_chars(&t, &plain) {
        let mut b: Vec<char> = Vec::new();
        let keep = t.len() - 9;
        let mut i: usize = 0;
        while i < keep
            invariant
                i <= keep <= t@.len(),
                b@ == t@.take(i as int),
            decreases keep - i,
        {
            b.push(t[i]);
            i = i + 1;
            assert(b@ =~= t@.take(i as int));
        }
        b
    } else {
        t
    };
    let trimmed = trim_chars(&base);
    string_from_chars(&trimmed)
}

/// Whether `p` occurs in `s` as a contiguous substring.
pub open spec fn spec_contains(s: Seq<char>, p: Seq<char>) -> bool {
    exists|i: int| 0 <= i <= s.len() - p.len() && #[trigger] s.subrange(i, i + p.len()) == p
}

/// Substring search.
pub fn contains_sub(s: &Vec<char>, p: &Vec<char>) -> (r: bool)
    ensures
        r == spec_contains(s@, p@),
{
    let n = s.len();
    let m = p.len();
    if m > n {
        proof {
            assert forall|i: int| 0 <= i <= s@.len() - p@.len() implies #[trigger] s@.subrange(
                i,
                i + p@.len(),
            ) != p@ by {}
        }
        return false;
    }
    if m == 0 {
        proof {
            assert(s@.subrange(0, 0 + p@.len() as int) =~= p@);
            assert(spec_contains(s@, p@));
        }
        return true;
    }
    let mut i: usize = 0;
    while i <= n - m
        invariant
            0 < m <= n,
            n == s@.len(),
            m == p@.len(),
            i <= n - m + 1,
            forall|k: int| 0 <= k < i ==> #[trigger] s@.subrange(k, k + p@.len()) != p@,
        decreases n - m + 1 - i,
    {
        let mut j: usize = 0;
        let mut matched = true;
        while j < m
            invariant_except_break
                matched,
            invariant
                j <= m,
                i + m <= n,
                n == s@.len(),
                m == p@.len(),
                forall|k: int| 0 <= k < j ==> s@[i + k] == p@[k],
            ensures
                matched ==> forall|k: int| 0 <= k < m ==> s@[i + k] == p@[k],
                !matched ==> s@.subrange(i as int, i + m as int) != p@,
            decreases m - j,
        {
            if s[i + j] != p[j] {
                matched = false;
                proof {
                    assert(s@.subrange(i as int, i + m as int)[j as int] != p@[j as int]);
                }
                break;
            }
            j = j + 1;
        }
        if matched {
            proof {
                assert(s@.subrange(i as int, i + m as int) =~= p@);
            }
            return true;
        }
        i = i + 1;
    }
    proof {
        assert forall|k: int| 0 <= k <= s@.len() - p@.len() implies #[trigger] s@.subrange(
            k,
            k + p@.len(),
        ) != p@ by {
            assert(k < i);
        }
    }
    false
}

/// Whether exactly one of the two lowercased titles carries the keyword:
/// such titles are different versions, never matches.
pub open spec fn keyword_conflict(a: Seq<char>, b: Seq<char>, kw: Seq<char>) -> bool {
    spec_contains(lower_of(a), kw) != spec_contains(lower_of(b), kw)
}

/// Whether two titles name the same version of a song: no strict-keyword
/// conflict, and the cleaned titles agree, directly or after stripping the
/// `original` markers from both.
pub open spec fn spec_titles_match(a: Seq<char>, b: Seq<char>) -> bool {
    &&& !keyword_conflict(a, b, "remix"@)
    &&& !keyword_conflict(a, b, "vip"@)
    &&& !keyword_conflict(a, b, "bootleg"@)
    &&& !keyword_conflict(a, b, "edit"@)
    &&& (spec_clean_title(a) == spec_clean_title(b) || spec_strip_original(spec_clean_title(a))
        == spec_strip_original(spec_clean_title(b)))
}

/// Relaxed title matching for version candidates.
pub fn match_titles_relaxed(title1: &str, title2: &str) -> (r: bool)
    ensures
        r == spec_titles_match(title1@, title2@),
{
    let l1 = chars_vec(lowercase(title1).as_str());
    let l2 = chars_vec(lowercase(title2).as_str());
    let kw0 = chars_vec("remix");
    if contains_sub(&l1, &kw0) != contains_sub(&l2, &kw0) {
        return false;
    }
    let kw1 = chars_vec("vip");
    if contains_sub(&l1, &kw1) != contains_sub(&l2, &kw1) {
        return false;
    }
    let kw2 = chars_vec("bootleg");
    if contains_sub(&l1, &kw2) != contains_sub(&l2, &kw2) {
        return false;
    }
    let kw3 = chars_vec("edit");
    if contains_sub(&l1, &kw3) != contains_sub(&l2, &kw3) {
        return false;
    }
    let c1 = clean_title(title1);
    let c2 = clean_title(title2);
    if str_eq(c1.as_str(), c2.as_str()) {
        return true;
    }
    let b1 = strip_original_suffix(c1.as_str());
    let b2 = strip_original_suffix(c2.as_str());
    str_eq(b1.as_str(), b2.as_str())
}

/// The canonicality rank of an album type: single before album before
/// compilation before anything else.
pub open spec fn spec_type_priority(t: Seq<char>) -> int {
    if lower_of(t) == "single"@ {
        0
    } else if lower_of(t) == "album"@ {
        1
    } else if lower_of(t) == "compilation"@ {
        2
    } else {
        3
    }
}

/// The album-type priority used by the ranking and the decision policy.
pub fn type_priority(t: &str) -> (r: u8)
    ensures
        r as int == spec_type_priority(t@),
{
    let l = lowercase(t);
    if str_eq(l.as_str(), "single") {
        0
    } else if str_eq(l.as_str(), "album") {
        1
    } else if str_eq(l.as_str(), "compilation") {
        2
    } else {
        3
    }
}

/// The chronological value a candidate is ranked by.
pub open spec fn cand_date(t: AppTrack) -> i64 {
    date_value_of(spec_parse_date(t.release_date@))
}

/// The date direction a ranking preference asks for: 1 is oldest first,
/// -1 newest first, 0 no date ordering.
pub open spec fn date_direction(pref: Seq<char>) -> int {
    if pref == "Artist Only: Oldest Version"@ || pref == "Global: Oldest Version"@ {
        1
    } else if pref == "Artist Only: Newest Version"@ || pref == "Global: Newest Version"@ {
        -1
    } else {
        0
    }
}

/// The ranking comparison: primarily by release date in the preference's
/// direction, ties broken by album-type priority.
pub open spec fn cand_cmp(pref: Seq<char>, a: AppTrack, b: AppTrack) -> int {
    let dc = if date_direction(pref) == 1 {
        int_cmp(cand_date(a) as int, cand_date(b) as int)
    } else if date_direction(pref) == -1 {
        int_cmp(cand_date(b) as int, cand_date(a) as int)
    } else {
        0
    };
    if dc != 0 {
        dc
    } else {
        int_cmp(spec_type_priority(a.album_type@), spec_type_priority(b.album_type@))
    }
}

fn date_dir(pref: &str) -> (d: i8)
    ensures
        d as int == date_direction(pref@),
{
    proof {
        reveal_strlit("Artist Only: Oldest Version");
        reveal_strlit("Global: Oldest Version");
        reveal_strlit("Artist Only: Newest Version");
        reveal_strlit("Global: Newest Version");
        assert("Artist Only: Oldest Version"@[13] == 'O');
        assert("Artist Only: Newest Version"@[13] == 'N');
        assert("Global: Oldest Version"@[8] == 'O');
        assert("Global: Newest Version"@[8] == 'N');
    }
    if str_eq(pref, "Artist Only: Oldest Version") || str_eq(pref, "Global: Oldest Version") {
        1
    } else if str_eq(pref, "Artist Only: Newest Version") || str_eq(
        pref,
        "Global: Newest Version",
    ) {
        -1
    } else {
        0
    }
}

fn cand_compare(pref_dir: i8, ghost_pref: Ghost<Seq<char>>, a: &AppTrack, b: &AppTrack) -> (r: i8)
    requires
        pref_dir as int == date_direction(ghost_pref@),
    ensures
        r as int == cand_cmp(ghost_pref@, *a, *b),
{
    let da = parse_date_value(a.release_date.as_str());
    let db = parse_date_value(b.release_date.as_str());
    let dc: i8 = if pref_dir == 1 {
        if da < db {
            -1
        } else if da > db {
            1
        } else {
            0
        }
    } else if pref_dir == -1 {
        if db < da {
            -1
        } else if db > da {
            1
        } else {
            0
        }
    } else {
        0
    };
    if dc != 0 {
        return dc;
    }
    let pa = type_priority(a.album_type.as_str());
    let pb = type_priority(b.album_type.as_str());
    if pa < pb {
        -1
    } else if pa > pb {
        1
    } else {
        0
    }
}

/// Pick the top-ranked candidate: minimal under the ranking comparison,
/// with the earliest-listed candidate winning ties, as a stable sort's
/// first element would.
pub fn best_candidate(candidates: &Vec<AppTrack>, preference: &str) -> (r: Option<usize>)
    ensures
        r is Some <==> candidates@.len() > 0,
        r matches Some(b) ==> {
            &&& b < candidates@.len()
            &&& forall|j: int|
                0 <= j < candidates@.len() ==> cand_cmp(
                    preference@,
                    candidates@[b as int],
                    #[trigger] candidates@[j],
                ) <= 0
            &&& forall|j: int|
                0 <= j < b ==> cand_cmp(
                    preference@,
                    candidates@[b as int],
                    #[trigger] candidates@[j],
                ) < 0
        },
{
    if candidates.len() == 0 {
        return None;
    }
    let dir = date_dir(preference);
    let ghost pref = preference@;
    let mut best: usize = 0;
    let mut j: usize = 1;
    while j < candidates.len()
        invariant
            best < j <= candidates@.len(),
            dir as int == date_direction(pref),
            pref == preference@,
            forall|m: int|
                0 <= m < j ==> cand_cmp(pref, candidates@[best as int], #[trigger] candidates@[m])
                    <= 0,
            forall|m: int|
                0 <= m < best ==> cand_cmp(pref, candidates@[best as int], #[trigger] candidates@[m])
                    < 0,
        decreases candidates@.len() - j,
    {
        let c = cand_compare(dir, Ghost(pref), &candidates[j], &candidates[best]);
        if c < 0 {
            proof {
                lemma_cand_cmp_facts(pref, candidates@, best as int, j as int);
            }
            best = j;
        } else {
            proof {
                lemma_cand_cmp_keep(pref, candidates@, best as int, j as int);
            }
        }
        j = j + 1;
    }
    Some(best)
}

proof fn lemma_cand_cmp_total(pref: Seq<char>, a: AppTrack, b: AppTrack)
    ensures
        cand_cmp(pref, a, b) == -cand_cmp(pref, b, a),
        cand_cmp(pref, a, a) == 0,
{
}

proof fn lemma_cand_cmp_trans_le(pref: Seq<char>, a: AppTrack, b: AppTrack, c: AppTrack)
    requires
        cand_cmp(pref, a, b) <= 0,
        cand_cmp(pref, b, c) <= 0,
    ensures
        cand_cmp(pref, a, c) <= 0,
{
}

proof fn lemma_cand_cmp_trans_lt(pref: Seq<char>, a: AppTrack, b: AppTrack, c: AppTrack)
    requires
        cand_cmp(pref, a, b) < 0,
        cand_cmp(pref, b, c) <= 0,
    ensures
        cand_cmp(pref, a, c) < 0,
{
}

proof fn lemma_cand_cmp_facts(pref: Seq<char>, cands: Seq<AppTrack>, best: int, j: int)
    requires
        0 <= best < cands.len(),
        0 <= j < cands.len(),
        cand_cmp(pref, cands[j], cands[best]) < 0,
        forall|m: int| 0 <= m < j ==> cand_cmp(pref, cands[best], #[trigger] cands[m]) <= 0,
    ensures
        forall|m: int| 0 <= m < j + 1 ==> cand_cmp(pref, cands[j], #[trigger] cands[m]) <= 0,
        forall|m: int| 0 <= m < j ==> cand_cmp(pref, cands[j], #[trigger] cands[m]) < 0,
{
    assert forall|m: int| 0 <= m < j implies cand_cmp(pref, cands[j], #[trigger] cands[m])
        < 0 by {
        lemma_cand_cmp_trans_lt(pref, cands[j], cands[best], cands[m]);
    }
    assert(cand_cmp(pref, cands[j], cands[j]) == 0);
}

proof fn lemma_cand_cmp_keep(pref: Seq<char>, cands: Seq<AppTrack>, best: int, j: int)
    requires
        0 <= best < cands.len(),
        0 <= j < cands.len(),
        cand_cmp(pref, cands[j], cands[best]) >= 0,
        forall|m: int| 0 <= m < j ==> cand_cmp(pref, cands[best], #[trigger] cands[m]) <= 0,
    ensures
        forall|m: int| 0 <= m < j + 1 ==> cand_cmp(pref, cands[best], #[trigger] cands[m]) <= 0,
{
    lemma_cand_cmp_total(pref, cands[j], cands[best]);
}

/// The artists declared in a comma-joined artist field, trimmed.
pub open spec fn spec_artists_list(s: Seq<char>) -> Seq<Seq<char>> {
    split_char(s, ',').map_values(|a: Seq<char>| trim_spec(a))
}

/// Whether some declared artist of `a` matches one of `b`, ignoring ASCII
/// case.
pub open spec fn spec_artist_overlap(a: Seq<char>, b: Seq<char>) -> bool {
    exists|i: int, j: int|
        0 <= i < spec_artists_list(a).len() && 0 <= j < spec_artists_list(b).len() && ascii_eq(
            #[trigger] spec_artists_list(a)[i],
            #[trigger] spec_artists_list(b)[j],
        )
}

fn artists_list(s: &str) -> (r: Vec<Vec<char>>)
    ensures
        r.deep_view() == spec_artists_list(s@),
{
    let v = chars_vec(s);
    let parts = split_char_chars(&v, ',');
    let mut r: Vec<Vec<char>> = Vec::new();
    let mut i: usize = 0;
    while i < parts.len()
        invariant
            i <= parts@.len(),
            parts.deep_view() == split_char(s@, ','),
            parts.deep_view().len() == parts@.len(),
            r.deep_view() == split_char(s@, ',').map_values(|a: Seq<char>| trim_spec(a)).take(
                i as int,
            ),
        decreases parts@.len() - i,
    {
        let t = trim_chars(&parts[i]);
        let ghost old_r = r.deep_view();
        let ghost old_v = r@;
        r.push(t);
        proof {
            assert(parts.deep_view()[i as int] == parts@[i as int]@);
            let full = split_char(s@, ',').map_values(|a: Seq<char>| trim_spec(a));
            assert(old_r.len() == i as int);
            assert(old_v.len() == i as int);
            assert(r@ == old_v.push(t));
            assert forall|k: int| 0 <= k < i + 1 implies r.deep_view()[k] == full.take(
                i + 1,
            )[k] by {
                if k < i {
                    assert(r@[k] == old_v[k]);
                    assert(r.deep_view()[k] == old_r[k]);
                } else {
                    assert(r@[k] == t);
                }
            }
            assert(r.deep_view() =~~= full.take(i + 1));
        }
        i = i + 1;
    }
    proof {
        let full = split_char(s@, ',').map_values(|a: Seq<char>| trim_spec(a));
        assert(full.take(full.len() as int) =~~= full);
    }
    r
}

/// Case-insensitive artist-overlap check between two artist fields.
pub fn artist_overlap(a: &str, b: &str) -> (r: bool)
    ensures
        r == spec_artist_overlap(a@, b@),
{
    let la = artists_list(a);
    let lb = artists_list(b);
    let mut i: usize = 0;
    while i < la.len()
        invariant
            i <= la@.len(),
            la.deep_view() == spec_artists_list(a@),
            lb.deep_view() == spec_artists_list(b@),
            la.deep_view().len() == la@.len(),
            lb.deep_view().len() == lb@.len(),
            forall|m: int, k: int|
                0 <= m < i && 0 <= k < spec_artists_list(b@).len() ==> !ascii_eq(
                    #[trigger] spec_artists_list(a@)[m],
                    #[trigger] spec_artists_list(b@)[k],
                ),
        decreases la@.len() - i,
    {
        let mut j: usize = 0;
        while j < lb.len()
            invariant
                i < la@.len(),
                j <= lb@.len(),
                la.deep_view() == spec_artists_list(a@),
                lb.deep_view() == spec_artists_list(b@),
                la.deep_view().len() == la@.len(),
                lb.deep_view().len() == lb@.len(),
                forall|k: int|
                    0 <= k < j ==> !ascii_eq(
                        spec_artists_list(a@)[i as int],
                        #[trigger] spec_artists_list(b@)[k],
                    ),
            decreases lb@.len() - j,
        {
            let eq = ascii_eq_chars(&la[i], &lb[j]);
            proof {
                assert(la.deep_view()[i as int] == la@[i as int]@);
                assert(lb.deep_view()[j as int] == lb@[j as int]@);
            }
            if eq {
                return true;
            }
            j = j + 1;
        }
        i = i + 1;
    }
    false
}

/// Whether a candidate passes the filter for a track: it is a different
/// catalog item, its title matches the track's under the relaxed rule, and
/// it shares at least one declared artist ignoring ASCII case.
pub open spec fn candidate_passes(track: AppTrack, cand: AppTrack) -> bool {
    &&& cand.id@ != track.id@
    &&& spec_titles_match(cand.name@, track.name@)
    &&& spec_artist_overlap(track.artist_names@, cand.artist_names@)
}

/// Filter the merged search results down to true version candidates.
pub fn filter_candidates(track: &AppTrack, results: Vec<AppTrack>) -> (r: Vec<AppTrack>)
    ensures
        r@ == results@.filter(|c: AppTrack| candidate_passes(*track, c)),
{
    let ghost orig = results@;
    let n = results.len();
    let mut rest = results;
    let mut r: Vec<AppTrack> = Vec::new();
    let mut i: usize = 0;
    proof {
        assert(rest@ =~= orig.skip(0));
        reveal_with_fuel(Seq::filter, 2);
        assert(orig.take(0).filter(|c: AppTrack| candidate_passes(*track, c)) =~= Seq::<
            AppTrack,
        >::empty());
    }
    while i < n
        invariant
            i <= n,
            n == orig.len(),
            rest@ == orig.skip(i as int),
            r@ == orig.take(i as int).filter(|c: AppTrack| candidate_passes(*track, c)),
        decreases n - i,
    {
        let c = rest.remove(0);
        proof {
            assert(c == orig[i as int]);
            assert(rest@ =~= orig.skip(i + 1));
            reveal_with_fuel(Seq::filter, 2);
            assert(orig.take(i + 1).drop_last() =~= orig.take(i as int));
            assert(orig.take(i + 1).last() == orig[i as int]);
        }
        let keep = !str_eq(c.id.as_str(), track.id.as_str()) && match_titles_relaxed(
            c.name.as_str(),
            track.name.as_str(),
        ) && artist_overlap(track.artist_names.as_str(), c.artist_names.as_str());
        if keep {
            r.push(c);
        }
        proof {
            assert(r@ =~= orig.take(i + 1).filter(|x: AppTrack| candidate_passes(*track, x)));
        }
        i = i + 1;
    }
    proof {
        assert(orig.take(n as int) =~= orig);
    }
    r
}

/// Whether some track in `s` carries the catalog identifier `id`.
pub open spec fn id_present(s: Seq<AppTrack>, id: Seq<char>) -> bool {
    exists|i: int| 0 <= i < s.len() && #[trigger] s[i].id@ == id
}

fn id_present_exec(s: &Vec<AppTrack>, id: &String) -> (r: bool)
    ensures
        r == id_present(s@, id@),
{
    let mut i: usize = 0;
    while i < s.len()
        invariant
            i <= s@.len(),
            forall|m: int| 0 <= m < i ==> s@[m].id@ != id@,
        decreases s@.len() - i,
    {
        if str_eq(s[i].id.as_str(), id.as_str()) {
            proof {
                assert(s@[i as int].id@ == id@);
            }
            return true;
        }
        i = i + 1;
    }
    false
}

/// The accumulated candidates with one search's results folded in: each
/// batch entry in order is dropped when its identifier is already present
/// and appended whole otherwise.
pub open spec fn spec_merged(acc: Seq<AppTrack>, batch: Seq<AppTrack>) -> Seq<AppTrack>
    decreases batch.len(),
{
    if batch.len() == 0 {
        acc
    } else if id_present(acc, batch[0].id@) {
        spec_merged(acc, batch.drop_first())
    } else {
        spec_merged(acc.push(batch[0]), batch.drop_first())
    }
}

/// Merge one search's results into the accumulated candidates,
/// deduplicating across searches by catalog identifier: the first result
/// of each new identifier is appended whole, in order, later duplicates
/// are dropped, and earlier candidates stay in place.
pub fn merge_candidates(acc: Vec<AppTrack>, batch: Vec<AppTrack>) -> (r: Vec<AppTrack>)
    requires
        forall|i: int, j: int| 0 <= i < j < acc@.len() ==> acc@[i].id@ != acc@[j].id@,
    ensures
        r@ == spec_merged(acc@, batch@),
        forall|i: int, j: int| 0 <= i < j < r@.len() ==> r@[i].id@ != r@[j].id@,
        r@.len() >= acc@.len(),
        r@.take(acc@.len() as int) == acc@,
        forall|b: int| 0 <= b < batch@.len() ==> id_present(r@, #[trigger] batch@[b].id@),
{
    let ghost acc0 = acc@;
    let ghost batch0 = batch@;
    let n = batch.len();
    let mut rest = batch;
    let mut r = acc;
    let mut i: usize = 0;
    proof {
        assert(rest@ =~= batch0.skip(0));
        assert(r@.take(acc0.len() as int) =~= acc0);
    }
    while i < n
        invariant
            i <= n,
            n == batch0.len(),
            rest@ == batch0.skip(i as int),
            r@.len() >= acc0.len(),
            r@.take(acc0.len() as int) == acc0,
            spec_merged(acc0, batch0) == spec_merged(r@, batch0.skip(i as int)),
            forall|a: int, b: int| 0 <= a < b < r@.len() ==> r@[a].id@ != r@[b].id@,
            forall|b: int| 0 <= b < i ==> id_present(r@, #[trigger] batch0[b].id@),
        decreases n - i,
    {
        let t = rest.remove(0);
        proof {
            assert(t == batch0[i as int]);
            assert(rest@ =~= batch0.skip(i + 1));
            assert(batch0.skip(i as int)[0] == batch0[i as int]);
            assert(batch0.skip(i as int).drop_first() =~= batch0.skip(i + 1));
        }
        let ghost old_r = r@;
        if !id_present_exec(&r, &t.id) {
            r.push(t);
            proof {
                assert(spec_merged(old_r, batch0.skip(i as int)) == spec_merged(
                    old_r.push(t),
                    batch0.skip(i + 1),
                ));
                assert(r@[r@.len() - 1].id@ == batch0[i as int].id@);
                assert(r@.take(acc0.len() as int) =~= old_r.take(acc0.len() as int));
                assert forall|b: int| 0 <= b < i + 1 implies id_present(
                    r@,
                    #[trigger] batch0[b].id@,
                ) by {
                    if b < i {
                        let w = choose|w: int|
                            0 <= w < old_r.len() && #[trigger] old_r[w].id@ == batch0[b].id@;
                        assert(r@[w].id@ == batch0[b].id@);
                    } else {
                        assert(r@[r@.len() - 1].id@ == batch0[b].id@);
                    }
                }
            }
        } else {
            proof {
                assert(spec_merged(r@, batch0.skip(i as int)) == spec_merged(
                    r@,
                    batch0.skip(i + 1),
                ));
                assert forall|b: int| 0 <= b < i + 1 implies id_present(
                    r@,
                    #[trigger] batch0[b].id@,
                ) by {}
            }
        }
        i = i + 1;
    }
    proof {
        assert(batch0.skip(n as int) =~= Seq::<AppTrack>::empty());
        assert(spec_merged(r@, batch0.skip(n as int)) == r@);
    }
    r
}

/// The replacement decision. `best` is the top-ranked candidate's data,
/// `current` the track's own: a candidate of lower canonicality (higher
/// priority value) never replaces, whatever the dates; otherwise the
/// candidate replaces exactly when its date is strictly better in the
/// preference's direction, or the dates tie and it is strictly more
/// canonical.
pub open spec fn spec_should_replace(
    pref: Seq<char>,
    current_date: i64,
    best_date: i64,
    current_priority: int,
    best_priority: int,
) -> bool {
    if best_priority > current_priority {
        false
    } else {
        (if spec_contains(pref, "Oldest"@) {
            best_date < current_date
        } else if spec_contains(pref, "Newest"@) {
            best_date > current_date
        } else {
            false
        }) || (best_date == current_date && best_priority < current_priority)
    }
}

/// Decide whether the best candidate replaces the current track.
pub fn should_replace(
    preference: &str,
    current_date: i64,
    best_date: i64,
    current_priority: u8,
    best_priority: u8,
) -> (r: bool)
    ensures
        r == spec_should_replace(
            preference@,
            current_date,
            best_date,
            current_priority as int,
            best_priority as int,
        ),
        best_priority > current_priority ==> !r,
{
    let p = chars_vec(preference);
    let oldest = chars_vec("Oldest");
    let newest = chars_vec("Newest");
    if best_priority > current_priority {
        return false;
    }
    let date_better = if contains_sub(&p, &oldest) {
        best_date < current_date
    } else if contains_sub(&p, &newest) {
        best_date > current_date
    } else {
        false
    };
    date_better || (best_date == current_date && best_priority < current_priority)
}

/// Overwrite the in-sequence track with the chosen candidate's identity
/// and metadata: identifier, URI, name, artists, album and release date
/// are taken from the candidate; the track's duration, album type and
/// position stay untouched.
pub fn adopt_version(track: &mut AppTrack, best: &AppTrack)
    ensures
        final(track).id@ == best.id@,
        final(track).uri@ == best.uri@,
        final(track).name@ == best.name@,
        final(track).artist_names@ == best.artist_names@,
        final(track).album_name@ == best.album_name@,
        final(track).release_date@ == best.release_date@,
        final(track).album_type@ == old(track).album_type@,
        final(track).duration_ms == old(track).duration_ms,
{
    track.id = best.id.clone();
    track.uri = best.uri.clone();
    track.name = best.name.clone();
    track.artist_names = best.artist_names.clone();
    track.album_name = best.album_name.clone();
    track.release_date = best.release_date.clone();
}

/// The never-downgrade law: whatever the preference and the dates, a
/// candidate whose album type ranks below the current track's (a higher
/// priority value) is never chosen as a replacement.
pub proof fn lemma_never_downgrade(
    pref: Seq<char>,
    current_date: i64,
    best_date: i64,
    current_priority: int,
    best_priority: int,
)
    requires
        best_priority > current_priority,
    ensures
        !spec_should_replace(pref, current_date, best_date, current_priority, best_priority),
{
}

} // verus!
