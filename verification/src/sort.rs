//! The multi-key sorter. A rule list is applied lexicographically: the first
//! rule whose comparison is decisive orders a pair, a rule's `descending`
//! flag reverses only that comparison, and tracks that tie under every rule
//! keep their input order (the sort is stable). Sorting is specified by
//! `spec_sort`, a stable insertion sort, and the executable sorter is proved
//! to return exactly that sequence.

use vstd::prelude::*;
use vstd::multiset::Multiset;
use crate::dates::{parse_date, spec_parse_date};
use crate::strutil::{
    chars_vec, lemma_lex_cmp_antisym, lemma_lex_cmp_eq, lemma_lex_cmp_range, lemma_lex_cmp_trans,
    lex_cmp, lex_cmp_chars, lower_of, lowercase,
};
use crate::track::{AppTrack, SortRule};

verus! {

/// Three-way comparison of integers.
pub open spec fn int_cmp(a: int, b: int) -> int {
    if a < b {
        -1
    } else if a > b {
        1
    } else {
        0
    }
}

/// The comparison a single criterion makes, before the `descending` flag:
/// case-insensitive text for artist, album and name, padded dates for the
/// release date, numeric for duration; an unknown criterion never decides.
pub open spec fn rule_base_cmp(crit: Seq<char>, a: AppTrack, b: AppTrack) -> int {
    if crit == "Artist"@ {
        lex_cmp(lower_of(a.artist_names@), lower_of(b.artist_names@))
    } else if crit == "Album"@ {
        lex_cmp(lower_of(a.album_name@), lower_of(b.album_name@))
    } else if crit == "Track Name"@ || crit == "Name"@ {
        lex_cmp(lower_of(a.name@), lower_of(b.name@))
    } else if crit == "Release Date"@ || crit == "Date"@ {
        lex_cmp(spec_parse_date(a.release_date@), spec_parse_date(b.release_date@))
    } else if crit == "Duration"@ {
        int_cmp(a.duration_ms as int, b.duration_ms as int)
    } else {
        0
    }
}

/// The comparison one rule makes: its criterion's, reversed when the rule is
/// descending.
pub open spec fn rule_cmp(rule: SortRule, a: AppTrack, b: AppTrack) -> int {
    if rule.descending {
        -rule_base_cmp(rule.criteria@, a, b)
    } else {
        rule_base_cmp(rule.criteria@, a, b)
    }
}

/// The comparison a whole rule list makes: the first decisive rule wins.
pub open spec fn tracks_cmp(rules: Seq<SortRule>, a: AppTrack, b: AppTrack) -> int
    decreases rules.len(),
{
    if rules.len() == 0 {
        0
    } else {
        let c = rule_cmp(rules[0], a, b);
        if c != 0 {
            c
        } else {
            tracks_cmp(rules.drop_first(), a, b)
        }
    }
}

pub proof fn lemma_base_cmp_range(crit: Seq<char>, a: AppTrack, b: AppTrack)
    ensures
        -1 <= rule_base_cmp(crit, a, b) <= 1,
{
    lemma_lex_cmp_range(lower_of(a.artist_names@), lower_of(b.artist_names@));
    lemma_lex_cmp_range(lower_of(a.album_name@), lower_of(b.album_name@));
    lemma_lex_cmp_range(lower_of(a.name@), lower_of(b.name@));
    lemma_lex_cmp_range(
        spec_parse_date(a.release_date@),
        spec_parse_date(b.release_date@),
    );
}

pub proof fn lemma_base_cmp_antisym(crit: Seq<char>, a: AppTrack, b: AppTrack)
    ensures
        rule_base_cmp(crit, a, b) == -rule_base_cmp(crit, b, a),
{
    lemma_lex_cmp_antisym(lower_of(a.artist_names@), lower_of(b.artist_names@));
    lemma_lex_cmp_antisym(lower_of(a.album_name@), lower_of(b.album_name@));
    lemma_lex_cmp_antisym(lower_of(a.name@), lower_of(b.name@));
    lemma_lex_cmp_antisym(
        spec_parse_date(a.release_date@),
        spec_parse_date(b.release_date@),
    );
}

pub proof fn lemma_base_cmp_trans(crit: Seq<char>, a: AppTrack, b: AppTrack, c: AppTrack)
    requires
        rule_base_cmp(crit, a, b) <= 0,
        rule_base_cmp(crit, b, c) <= 0,
    ensures
        rule_base_cmp(crit, a, c) <= 0,
{
    if crit == "Artist"@ {
        lemma_lex_cmp_trans(
            lower_of(a.artist_names@),
            lower_of(b.artist_names@),
            lower_of(c.artist_names@),
        );
    } else if crit == "Album"@ {
        lemma_lex_cmp_trans(
            lower_of(a.album_name@),
            lower_of(b.album_name@),
            lower_of(c.album_name@),
        );
    } else if crit == "Track Name"@ || crit == "Name"@ {
        lemma_lex_cmp_trans(lower_of(a.name@), lower_of(b.name@), lower_of(c.name@));
    } else if crit == "Release Date"@ || crit == "Date"@ {
        lemma_lex_cmp_trans(
            spec_parse_date(a.release_date@),
            spec_parse_date(b.release_date@),
            spec_parse_date(c.release_date@),
        );
    }
}

/// A tie under one criterion means the compared keys are equal, so the tied
/// tracks compare alike against every third track.
pub proof fn lemma_base_cmp_congruent(crit: Seq<char>, a: AppTrack, b: AppTrack, x: AppTrack)
    requires
        rule_base_cmp(crit, a, b) == 0,
    ensures
        rule_base_cmp(crit, a, x) == rule_base_cmp(crit, b, x),
        rule_base_cmp(crit, x, a) == rule_base_cmp(crit, x, b),
{
    if crit == "Artist"@ {
        lemma_lex_cmp_eq(lower_of(a.artist_names@), lower_of(b.artist_names@));
    } else if crit == "Album"@ {
        lemma_lex_cmp_eq(lower_of(a.album_name@), lower_of(b.album_name@));
    } else if crit == "Track Name"@ || crit == "Name"@ {
        lemma_lex_cmp_eq(lower_of(a.name@), lower_of(b.name@));
    } else if crit == "Release Date"@ || crit == "Date"@ {
        lemma_lex_cmp_eq(
            spec_parse_date(a.release_date@),
            spec_parse_date(b.release_date@),
        );
    }
}

pub proof fn lemma_rule_cmp_antisym(rule: SortRule, a: AppTrack, b: AppTrack)
    ensures
        rule_cmp(rule, a, b) == -rule_cmp(rule, b, a),
{
    lemma_base_cmp_antisym(rule.criteria@, a, b);
}

pub proof fn lemma_rule_cmp_congruent(rule: SortRule, a: AppTrack, b: AppTrack, x: AppTrack)
    requires
        rule_cmp(rule, a, b) == 0,
    ensures
        rule_cmp(rule, a, x) == rule_cmp(rule, b, x),
        rule_cmp(rule, x, a) == rule_cmp(rule, x, b),
{
    lemma_base_cmp_congruent(rule.criteria@, a, b, x);
}

pub proof fn lemma_rule_cmp_trans(rule: SortRule, a: AppTrack, b: AppTrack, c: AppTrack)
    requires
        rule_cmp(rule, a, b) <= 0,
        rule_cmp(rule, b, c) <= 0,
    ensures
        rule_cmp(rule, a, c) <= 0,
{
    if rule.descending {
        lemma_base_cmp_antisym(rule.criteria@, a, b);
        lemma_base_cmp_antisym(rule.criteria@, b, c);
        lemma_base_cmp_antisym(rule.criteria@, a, c);
        lemma_base_cmp_trans(rule.criteria@, c, b, a);
    } else {
        lemma_base_cmp_trans(rule.criteria@, a, b, c);
    }
}

pub proof fn lemma_tracks_cmp_antisym(rules: Seq<SortRule>, a: AppTrack, b: AppTrack)
    ensures
        tracks_cmp(rules, a, b) == -tracks_cmp(rules, b, a),
    decreases rules.len(),
{
    if rules.len() > 0 {
        lemma_rule_cmp_antisym(rules[0], a, b);
        lemma_tracks_cmp_antisym(rules.drop_first(), a, b);
    }
}

/// Tracks tied under every rule compare alike against every third track.
pub proof fn lemma_tracks_cmp_congruent(
    rules: Seq<SortRule>,
    a: AppTrack,
    b: AppTrack,
    x: AppTrack,
)
    requires
        tracks_cmp(rules, a, b) == 0,
    ensures
        tracks_cmp(rules, a, x) == tracks_cmp(rules, b, x),
        tracks_cmp(rules, x, a) == tracks_cmp(rules, x, b),
    decreases rules.len(),
{
    if rules.len() > 0 {
        lemma_rule_cmp_congruent(rules[0], a, b, x);
        lemma_tracks_cmp_congruent(rules.drop_first(), a, b, x);
    }
}

/// The rule-list comparison is transitive.
pub proof fn lemma_tracks_cmp_trans(rules: Seq<SortRule>, a: AppTrack, b: AppTrack, c: AppTrack)
    requires
        tracks_cmp(rules, a, b) <= 0,
        tracks_cmp(rules, b, c) <= 0,
    ensures
        tracks_cmp(rules, a, c) <= 0,
    decreases rules.len(),
{
    if rules.len() > 0 {
        let d1 = rule_cmp(rules[0], a, b);
        let d2 = rule_cmp(rules[0], b, c);
        if d1 == 0 && d2 == 0 {
            lemma_rule_cmp_congruent(rules[0], a, b, c);
            lemma_tracks_cmp_trans(rules.drop_first(), a, b, c);
        } else if d1 == 0 {
            lemma_rule_cmp_congruent(rules[0], a, b, c);
        } else if d2 == 0 {
            lemma_rule_cmp_congruent(rules[0], b, c, a);
            lemma_rule_cmp_antisym(rules[0], a, b);
            lemma_rule_cmp_antisym(rules[0], a, c);
        } else {
            lemma_rule_cmp_trans(rules[0], a, b, c);
            if rule_cmp(rules[0], a, c) == 0 {
                lemma_rule_cmp_congruent(rules[0], a, c, b);
                lemma_rule_cmp_antisym(rules[0], c, b);
            }
        }
    }
}

/// If the first `i` rules all tie, the rest decide.
pub proof fn lemma_tracks_cmp_skip(rules: Seq<SortRule>, a: AppTrack, b: AppTrack, i: int)
    requires
        0 <= i <= rules.len(),
        forall|j: int| 0 <= j < i ==> rule_cmp(rules[j], a, b) == 0,
    ensures
        tracks_cmp(rules, a, b) == tracks_cmp(rules.skip(i), a, b),
    decreases i,
{
    if i > 0 {
        lemma_tracks_cmp_skip(rules.drop_first(), a, b, i - 1);
        assert(rules.drop_first().skip(i - 1) =~= rules.skip(i));
    } else {
        assert(rules.skip(0) =~= rules);
    }
}

fn rule_base_compare(crit: &String, a: &AppTrack, b: &AppTrack) -> (r: i8)
    ensures
        r as int == rule_base_cmp(crit@, *a, *b),
{
    if crate::strutil::str_eq(crit.as_str(), "Artist") {
        let ka = chars_vec(lowercase(a.artist_names.as_str()).as_str());
        let kb = chars_vec(lowercase(b.artist_names.as_str()).as_str());
        lex_cmp_chars(&ka, &kb)
    } else if crate::strutil::str_eq(crit.as_str(), "Album") {
        let ka = chars_vec(lowercase(a.album_name.as_str()).as_str());
        let kb = chars_vec(lowercase(b.album_name.as_str()).as_str());
        lex_cmp_chars(&ka, &kb)
    } else if crate::strutil::str_eq(crit.as_str(), "Track Name") || crate::strutil::str_eq(
        crit.as_str(),
        "Name",
    ) {
        let ka = chars_vec(lowercase(a.name.as_str()).as_str());
        let kb = chars_vec(lowercase(b.name.as_str()).as_str());
        lex_cmp_chars(&ka, &kb)
    } else if crate::strutil::str_eq(crit.as_str(), "Release Date") || crate::strutil::str_eq(
        crit.as_str(),
        "Date",
    ) {
        let ka = chars_vec(parse_date(a.release_date.as_str()).as_str());
        let kb = chars_vec(parse_date(b.release_date.as_str()).as_str());
        lex_cmp_chars(&ka, &kb)
    } else if crate::strutil::str_eq(crit.as_str(), "Duration") {
        if a.duration_ms < b.duration_ms {
            -1
        } else if a.duration_ms > b.duration_ms {
            1
        } else {
            0
        }
    } else {
        0
    }
}

/// Compare two tracks under a rule list.
pub fn compare_tracks(rules: &Vec<SortRule>, a: &AppTrack, b: &AppTrack) -> (r: i8)
    ensures
        r as int == tracks_cmp(rules@, *a, *b),
{
    let mut i: usize = 0;
    while i < rules.len()
        invariant
            i <= rules@.len(),
            forall|j: int| 0 <= j < i ==> rule_cmp(rules@[j], *a, *b) == 0,
        decreases rules@.len() - i,
    {
        let base = rule_base_compare(&rules[i].criteria, a, b);
        let c: i8 = if rules[i].descending {
            proof {
                lemma_base_cmp_range(rules@[i as int].criteria@, *a, *b);
            }
            -base
        } else {
            base
        };
        if c != 0 {
            proof {
                lemma_tracks_cmp_skip(rules@, *a, *b, i as int);
                assert(rules@.skip(i as int)[0] == rules@[i as int]);
            }
            return c;
        }
        i = i + 1;
    }
    proof {
        lemma_tracks_cmp_skip(rules@, *a, *b, rules@.len() as int);
        assert(rules@.skip(rules@.len() as int) =~= Seq::<SortRule>::empty());
    }
    0
}


/// Insert `x` into `s` after every element it does not strictly precede:
/// the placement a stable insertion makes.
pub open spec fn spec_insert(rules: Seq<SortRule>, s: Seq<AppTrack>, x: AppTrack) -> Seq<AppTrack>
    decreases s.len(),
{
    if s.len() > 0 && tracks_cmp(rules, x, s[0]) >= 0 {
        seq![s[0]] + spec_insert(rules, s.drop_first(), x)
    } else {
        seq![x] + s
    }
}

/// The stable sort of `s` under `rules`: each element inserted, in input
/// order, into the sorted sequence of those before it.
pub open spec fn spec_sort(rules: Seq<SortRule>, s: Seq<AppTrack>) -> Seq<AppTrack>
    decreases s.len(),
{
    if s.len() == 0 {
        s
    } else {
        spec_insert(rules, spec_sort(rules, s.drop_last()), s.last())
    }
}

/// Whether `s` is ordered under `rules`.
pub open spec fn sorted_by(rules: Seq<SortRule>, s: Seq<AppTrack>) -> bool {
    forall|i: int, j: int| 0 <= i < j < s.len() ==> tracks_cmp(rules, s[i], s[j]) <= 0
}

pub proof fn lemma_insert_len(rules: Seq<SortRule>, s: Seq<AppTrack>, x: AppTrack)
    ensures
        spec_insert(rules, s, x).len() == s.len() + 1,
    decreases s.len(),
{
    if s.len() > 0 && tracks_cmp(rules, x, s[0]) >= 0 {
        lemma_insert_len(rules, s.drop_first(), x);
    }
}

pub proof fn lemma_insert_multiset(rules: Seq<SortRule>, s: Seq<AppTrack>, x: AppTrack)
    ensures
        spec_insert(rules, s, x).to_multiset() == s.to_multiset().insert(x),
    decreases s.len(),
{
    broadcast use vstd::seq_lib::group_to_multiset_ensures;
    broadcast use vstd::multiset::group_multiset_axioms;
    broadcast use vstd::multiset::lemma_multiset_empty_len;

    if s.len() > 0 && tracks_cmp(rules, x, s[0]) >= 0 {
        lemma_insert_multiset(rules, s.drop_first(), x);
        let inner = spec_insert(rules, s.drop_first(), x);
        vstd::seq_lib::lemma_multiset_commutative(seq![s[0]], inner);
        vstd::seq_lib::lemma_multiset_commutative(seq![s[0]], s.drop_first());
        assert(seq![s[0]] + s.drop_first() =~= s);
        lemma_singleton_multiset(s[0]);
        assert(spec_insert(rules, s, x).to_multiset() =~= s.to_multiset().insert(x));
    } else {
        vstd::seq_lib::lemma_multiset_commutative(seq![x], s);
        lemma_singleton_multiset(x);
        assert(spec_insert(rules, s, x).to_multiset() =~= s.to_multiset().insert(x));
    }
}

proof fn lemma_singleton_multiset(x: AppTrack)
    ensures
        seq![x].to_multiset() == vstd::multiset::Multiset::empty().insert(x),
{
    broadcast use vstd::seq_lib::group_to_multiset_ensures;
    broadcast use vstd::multiset::group_multiset_axioms;
    broadcast use vstd::multiset::lemma_multiset_empty_len;

    let e = Seq::<AppTrack>::empty();
    assert(seq![x] =~= e.push(x));
    assert(e.push(x).to_multiset() =~= e.to_multiset().insert(x));
    assert(e.to_multiset().len() == 0);
    assert(e.to_multiset() =~= Multiset::<AppTrack>::empty());
}

pub proof fn lemma_sort_len(rules: Seq<SortRule>, s: Seq<AppTrack>)
    ensures
        spec_sort(rules, s).len() == s.len(),
    decreases s.len(),
{
    if s.len() > 0 {
        lemma_sort_len(rules, s.drop_last());
        lemma_insert_len(rules, spec_sort(rules, s.drop_last()), s.last());
    }
}

/// Sorting permutes: the output holds exactly the input's tracks.
pub proof fn lemma_sort_multiset(rules: Seq<SortRule>, s: Seq<AppTrack>)
    ensures
        spec_sort(rules, s).to_multiset() == s.to_multiset(),
    decreases s.len(),
{
    broadcast use vstd::seq_lib::group_to_multiset_ensures;

    if s.len() > 0 {
        lemma_sort_multiset(rules, s.drop_last());
        lemma_insert_multiset(rules, spec_sort(rules, s.drop_last()), s.last());
        assert(s =~= s.drop_last().push(s.last()));
        assert(s.drop_last().push(s.last()).to_multiset() == s.drop_last().to_multiset().insert(
            s.last(),
        ));
    }
}

/// Inserting into an ordered sequence keeps it ordered.
pub proof fn lemma_insert_sorted(rules: Seq<SortRule>, s: Seq<AppTrack>, x: AppTrack)
    requires
        sorted_by(rules, s),
    ensures
        sorted_by(rules, spec_insert(rules, s, x)),
    decreases s.len(),
{
    let out = spec_insert(rules, s, x);
    if s.len() > 0 && tracks_cmp(rules, x, s[0]) >= 0 {
        assert(sorted_by(rules, s.drop_first())) by {
            assert(forall|i: int, j: int|
                0 <= i < j < s.drop_first().len() ==> s.drop_first()[i] == s[i + 1]
                    && s.drop_first()[j] == s[j + 1]);
        }
        lemma_insert_sorted(rules, s.drop_first(), x);
        lemma_insert_len(rules, s.drop_first(), x);
        let inner = spec_insert(rules, s.drop_first(), x);
        lemma_insert_multiset(rules, s.drop_first(), x);
        // Every element of the inner insertion is either x or from the tail,
        // and s[0] precedes them all.
        assert forall|j: int| 1 <= j < out.len() implies tracks_cmp(rules, out[0], out[j])
            <= 0 by {
            assert(out[j] == inner[j - 1]);
            lemma_insert_element_origin(rules, s.drop_first(), x, j - 1);
            if inner[j - 1] == x {
                lemma_tracks_cmp_antisym(rules, x, s[0]);
            } else {
                let k = choose|k: int|
                    0 <= k < s.drop_first().len() && s.drop_first()[k] == inner[j - 1];
                assert(s[k + 1] == inner[j - 1]);
            }
        }
        assert forall|i: int, j: int| 0 <= i < j < out.len() implies tracks_cmp(
            rules,
            out[i],
            out[j],
        ) <= 0 by {
            if i > 0 {
                assert(out[i] == inner[i - 1]);
                assert(out[j] == inner[j - 1]);
            }
        }
    } else {
        assert forall|i: int, j: int| 0 <= i < j < out.len() implies tracks_cmp(
            rules,
            out[i],
            out[j],
        ) <= 0 by {
            if i == 0 {
                assert(out[j] == s[j - 1]);
                if s.len() > 0 {
                    lemma_tracks_cmp_antisym(rules, x, s[0]);
                    if j > 1 {
                        lemma_tracks_cmp_trans(rules, x, s[0], s[j - 1]);
                    }
                }
            } else {
                assert(out[i] == s[i - 1]);
                assert(out[j] == s[j - 1]);
            }
        }
    }
}

/// Every element of an insertion is the inserted one or one of the old.
proof fn lemma_insert_element_origin(
    rules: Seq<SortRule>,
    s: Seq<AppTrack>,
    x: AppTrack,
    j: int,
)
    requires
        0 <= j < spec_insert(rules, s, x).len(),
    ensures
        spec_insert(rules, s, x)[j] == x || exists|k: int| 0 <= k < s.len() && s[k] == spec_insert(
            rules,
            s,
            x,
        )[j],
    decreases s.len(),
{
    if s.len() > 0 && tracks_cmp(rules, x, s[0]) >= 0 {
        if j == 0 {
            assert(spec_insert(rules, s, x)[0] == s[0]);
        } else {
            lemma_insert_element_origin(rules, s.drop_first(), x, j - 1);
            let inner = spec_insert(rules, s.drop_first(), x);
            assert(spec_insert(rules, s, x)[j] == inner[j - 1]);
            if inner[j - 1] != x {
                let k = choose|k: int|
                    0 <= k < s.drop_first().len() && s.drop_first()[k] == inner[j - 1];
                assert(s[k + 1] == inner[j - 1]);
            }
        }
    }
}

/// The sort's output is ordered.
pub proof fn lemma_sort_sorted(rules: Seq<SortRule>, s: Seq<AppTrack>)
    ensures
        sorted_by(rules, spec_sort(rules, s)),
    decreases s.len(),
{
    if s.len() > 0 {
        lemma_sort_sorted(rules, s.drop_last());
        lemma_insert_sorted(rules, spec_sort(rules, s.drop_last()), s.last());
    }
}

/// Inserting an element that no element strictly exceeds appends it.
pub proof fn lemma_insert_at_end(rules: Seq<SortRule>, s: Seq<AppTrack>, x: AppTrack)
    requires
        forall|i: int| 0 <= i < s.len() ==> tracks_cmp(rules, x, s[i]) >= 0,
    ensures
        spec_insert(rules, s, x) == s.push(x),
    decreases s.len(),
{
    if s.len() > 0 && tracks_cmp(rules, x, s[0]) >= 0 {
        lemma_insert_at_end(rules, s.drop_first(), x);
        assert(spec_insert(rules, s, x) =~= s.push(x));
    } else {
        assert(spec_insert(rules, s, x) =~= s.push(x));
    }
}

/// Sorting an already ordered sequence returns it unchanged.
pub proof fn lemma_sort_of_sorted(rules: Seq<SortRule>, s: Seq<AppTrack>)
    requires
        sorted_by(rules, s),
    ensures
        spec_sort(rules, s) == s,
    decreases s.len(),
{
    if s.len() > 0 {
        assert(sorted_by(rules, s.drop_last()));
        lemma_sort_of_sorted(rules, s.drop_last());
        assert forall|i: int| 0 <= i < s.drop_last().len() implies tracks_cmp(
            rules,
            s.last(),
            s.drop_last()[i],
        ) >= 0 by {
            assert(s.drop_last()[i] == s[i]);
            lemma_tracks_cmp_antisym(rules, s[i], s.last());
        }
        lemma_insert_at_end(rules, s.drop_last(), s.last());
        assert(s.drop_last().push(s.last()) =~= s);
    }
}

/// Sorting is idempotent: sorting a second time changes nothing.
pub proof fn lemma_sort_idempotent(rules: Seq<SortRule>, s: Seq<AppTrack>)
    ensures
        spec_sort(rules, spec_sort(rules, s)) == spec_sort(rules, s),
{
    lemma_sort_sorted(rules, s);
    lemma_sort_of_sorted(rules, spec_sort(rules, s));
}

/// With no rules every pair ties, so the sort is the identity.
pub proof fn lemma_sort_no_rules(rules: Seq<SortRule>, s: Seq<AppTrack>)
    requires
        rules.len() == 0,
    ensures
        spec_sort(rules, s) == s,
{
    lemma_sort_of_sorted(rules, s);
}

/// Where `spec_insert` places `x` into `s`, given the first index `p` whose
/// element `x` strictly precedes.
proof fn lemma_insert_at(rules: Seq<SortRule>, s: Seq<AppTrack>, x: AppTrack, p: int)
    requires
        0 <= p <= s.len(),
        forall|m: int| 0 <= m < p ==> tracks_cmp(rules, x, s[m]) >= 0,
        p == s.len() || tracks_cmp(rules, x, s[p]) < 0,
    ensures
        spec_insert(rules, s, x) == s.take(p) + seq![x] + s.skip(p),
    decreases p,
{
    if p > 0 {
        lemma_insert_at(rules, s.drop_first(), x, p - 1);
        assert(spec_insert(rules, s, x) =~= s.take(p) + seq![x] + s.skip(p)) by {
            assert(s.drop_first().take(p - 1) =~= s.take(p).drop_first());
            assert(s.drop_first().skip(p - 1) =~= s.skip(p));
        }
    } else {
        assert(spec_insert(rules, s, x) =~= s.take(0) + seq![x] + s.skip(0));
    }
}

/// Sort tracks by the given rules: stable, case-insensitive for text
/// criteria, with partial dates padded before comparison; an empty rule
/// list is the identity.
pub fn sort_tracks(tracks: Vec<AppTrack>, rules: &Vec<SortRule>) -> (r: Vec<AppTrack>)
    ensures
        r@ == spec_sort(rules@, tracks@),
        r@.len() == tracks@.len(),
        r@.to_multiset() == tracks@.to_multiset(),
        sorted_by(rules@, r@) || rules@.len() == 0,
        rules@.len() == 0 ==> r@ == tracks@,
{
    proof {
        lemma_sort_len(rules@, tracks@);
        lemma_sort_multiset(rules@, tracks@);
        lemma_sort_sorted(rules@, tracks@);
        if rules@.len() == 0 {
            lemma_sort_no_rules(rules@, tracks@);
        }
    }
    if rules.len() == 0 {
        return tracks;
    }
    let ghost input = tracks@;
    let mut v = tracks;
    let mut i: usize = 1;
    if v.len() <= 1 {
        proof {
            lemma_sort_of_sorted(rules@, input);
        }
        return v;
    }
    proof {
        lemma_sort_of_sorted(rules@, input.take(1));
        assert(v@ =~= input.take(1) + input.skip(1));
        lemma_sort_len(rules@, input.take(1));
    }
    while i < v.len()
        invariant
            1 <= i <= input.len(),
            v@.len() == input.len(),
            v@ == spec_sort(rules@, input.take(i as int)) + input.skip(i as int),
            spec_sort(rules@, input.take(i as int)).len() == i,
        decreases input.len() - i,
    {
        let x = v.remove(i);
        proof {
            assert(x == input.skip(i as int)[0]);
            assert(input.take(i + 1).drop_last() =~= input.take(i as int));
            assert(input.take(i + 1).last() == input[i as int]);
            assert(input[i as int] == x);
        }
        let ghost prefix = spec_sort(rules@, input.take(i as int));
        let mut j: usize = 0;
        while j < i && compare_tracks(rules, &x, &v[j]) >= 0
            invariant
                0 <= j <= i,
                i < input.len(),
                v@.len() == input.len() - 1,
                v@ == prefix + input.skip(i as int).drop_first(),
                prefix.len() == i,
                forall|m: int| 0 <= m < j ==> tracks_cmp(rules@, x, prefix[m]) >= 0,
            decreases i - j,
        {
            proof {
                assert(v@[j as int] == prefix[j as int]);
            }
            j = j + 1;
        }
        proof {
            if j < i {
                assert(v@[j as int] == prefix[j as int]);
            }
            lemma_insert_at(rules@, prefix, x, j as int);
            lemma_insert_len(rules@, prefix, x);
        }
        v.insert(j, x);
        proof {
            assert(v@ =~= spec_sort(rules@, input.take(i + 1)) + input.skip(i + 1)) by {
                assert(spec_sort(rules@, input.take(i + 1)) == spec_insert(rules@, prefix, x));
                assert(spec_insert(rules@, prefix, x) == prefix.take(j as int) + seq![x]
                    + prefix.skip(j as int));
                assert(input.skip(i as int).drop_first() =~= input.skip(i + 1));
            }
        }
        i = i + 1;
    }
    proof {
        assert(input.take(input.len() as int) =~= input);
        assert(input.skip(input.len() as int) =~= Seq::<AppTrack>::empty());
        assert(v@ =~= spec_sort(rules@, input));
    }
    v
}


/// The same rule with its `descending` flag reversed.
pub open spec fn flip_rule(r: SortRule) -> SortRule {
    SortRule { id: r.id, criteria: r.criteria, descending: !r.descending }
}

/// Reversing one rule's `descending` flag exactly reverses the comparison
/// of every pair whose tie is broken at that rule: every earlier rule ties
/// and that rule decides.
pub proof fn lemma_flag_reversal(rules: Seq<SortRule>, k: int, a: AppTrack, b: AppTrack)
    requires
        0 <= k < rules.len(),
        forall|i: int| 0 <= i < k ==> rule_cmp(rules[i], a, b) == 0,
        rule_cmp(rules[k], a, b) != 0,
    ensures
        tracks_cmp(rules.update(k, flip_rule(rules[k])), a, b) == -tracks_cmp(rules, a, b),
{
    let flipped = rules.update(k, flip_rule(rules[k]));
    lemma_tracks_cmp_skip(rules, a, b, k);
    assert(rules.skip(k)[0] == rules[k]);
    assert(tracks_cmp(rules, a, b) == rule_cmp(rules[k], a, b));
    assert forall|i: int| 0 <= i < k implies rule_cmp(flipped[i], a, b) == 0 by {
        assert(flipped[i] == rules[i]);
    }
    lemma_tracks_cmp_skip(flipped, a, b, k);
    assert(flipped.skip(k)[0] == flipped[k]);
    assert(rule_cmp(flipped[k], a, b) == -rule_cmp(rules[k], a, b));
    assert(tracks_cmp(flipped, a, b) == rule_cmp(flipped[k], a, b));
}

/// The tie class of `t`: whether a track ties with `t` under every rule.
pub open spec fn ties_with(rules: Seq<SortRule>, t: AppTrack) -> spec_fn(AppTrack) -> bool {
    |e: AppTrack| tracks_cmp(rules, e, t) == 0
}

proof fn lemma_filter_none(s: Seq<AppTrack>, pred: spec_fn(AppTrack) -> bool)
    requires
        forall|i: int| 0 <= i < s.len() ==> !pred(s[i]),
    ensures
        s.filter(pred) == Seq::<AppTrack>::empty(),
    decreases s.len(),
{
    reveal(Seq::filter);
    if s.len() > 0 {
        lemma_filter_none(s.drop_last(), pred);
    }
    assert(s.filter(pred) =~= Seq::<AppTrack>::empty());
}

proof fn lemma_filter_singleton(x: AppTrack, pred: spec_fn(AppTrack) -> bool)
    ensures
        pred(x) ==> seq![x].filter(pred) == seq![x],
        !pred(x) ==> seq![x].filter(pred) == Seq::<AppTrack>::empty(),
{
    reveal_with_fuel(Seq::filter, 2);
    assert(seq![x].drop_last() =~= Seq::<AppTrack>::empty());
    if pred(x) {
        assert(seq![x].filter(pred) =~= seq![x]);
    } else {
        assert(seq![x].filter(pred) =~= Seq::<AppTrack>::empty());
    }
}

/// Inserting `x` into an ordered sequence puts it after every track of its
/// own tie class, so within the class the insertion appends.
proof fn lemma_insert_filter(rules: Seq<SortRule>, s: Seq<AppTrack>, x: AppTrack, t: AppTrack)
    requires
        sorted_by(rules, s),
    ensures
        spec_insert(rules, s, x).filter(ties_with(rules, t)) == s.filter(ties_with(rules, t)) + (
        if ties_with(rules, t)(x) {
            seq![x]
        } else {
            Seq::<AppTrack>::empty()
        }),
    decreases s.len(),
{
    broadcast use vstd::seq_lib::group_seq_properties;

    let p = ties_with(rules, t);
    let tail = if p(x) {
        seq![x]
    } else {
        Seq::<AppTrack>::empty()
    };
    if s.len() > 0 && tracks_cmp(rules, x, s[0]) >= 0 {
        assert(sorted_by(rules, s.drop_first())) by {
            assert(forall|i: int, j: int|
                0 <= i < j < s.drop_first().len() ==> s.drop_first()[i] == s[i + 1]
                    && s.drop_first()[j] == s[j + 1]);
        }
        lemma_insert_filter(rules, s.drop_first(), x, t);
        Seq::filter_distributes_over_add(seq![s[0]], spec_insert(rules, s.drop_first(), x), p);
        Seq::filter_distributes_over_add(seq![s[0]], s.drop_first(), p);
        assert(seq![s[0]] + s.drop_first() =~= s);
        lemma_filter_singleton(s[0], p);
        assert(spec_insert(rules, s, x).filter(p) =~= s.filter(p) + tail);
    } else {
        Seq::filter_distributes_over_add(seq![x], s, p);
        lemma_filter_singleton(x, p);
        if p(x) {
            assert forall|i: int| 0 <= i < s.len() implies !p(s[i]) by {
                if p(s[i]) {
                    // Tied tracks compare alike, so x could not strictly
                    // precede s[0] while tying with s[i].
                    lemma_tracks_cmp_congruent(rules, x, t, s[i]);
                    lemma_tracks_cmp_antisym(rules, x, s[i]);
                    assert(tracks_cmp(rules, x, s[i]) == 0);
                    lemma_tracks_cmp_congruent(rules, x, s[i], s[0]);
                    if i == 0 {
                        lemma_tracks_cmp_antisym(rules, s[0], s[0]);
                    } else {
                        assert(tracks_cmp(rules, s[0], s[i]) <= 0);
                        lemma_tracks_cmp_antisym(rules, s[0], s[i]);
                    }
                    assert(false);
                }
            }
            lemma_filter_none(s, p);
            assert(spec_insert(rules, s, x).filter(p) =~= s.filter(p) + tail);
        } else {
            assert(spec_insert(rules, s, x).filter(p) =~= s.filter(p) + tail);
        }
    }
}

/// Stability: for any track `t`, the tracks that tie with `t` under every
/// rule appear in the sorted output in exactly their input order.
pub proof fn lemma_sort_stable(rules: Seq<SortRule>, s: Seq<AppTrack>, t: AppTrack)
    ensures
        spec_sort(rules, s).filter(ties_with(rules, t)) == s.filter(ties_with(rules, t)),
    decreases s.len(),
{
    let p = ties_with(rules, t);
    if s.len() > 0 {
        lemma_sort_stable(rules, s.drop_last(), t);
        lemma_sort_sorted(rules, s.drop_last());
        lemma_insert_filter(rules, spec_sort(rules, s.drop_last()), s.last(), t);
        Seq::filter_distributes_over_add(s.drop_last(), seq![s.last()], p);
        assert(s.drop_last() + seq![s.last()] =~= s);
        lemma_filter_singleton(s.last(), p);
        assert(spec_sort(rules, s).filter(p) =~= s.filter(p));
    }
}

} // verus!
