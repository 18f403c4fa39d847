//! The order-reconciliation engine. Given the remote playlist's current URI
//! order and the desired order, it first prunes occurrences beyond each
//! URI's allowance in the target, then reorders with single-item moves,
//! mirroring each move locally so the plan stays in lockstep with the
//! remote state; with no current-state baseline it falls back to a full
//! replace in bounded batches.

use vstd::prelude::*;
use crate::strutil::{first_at, lemma_first_at, str_eq};

verus! {

/// How many elements of `s` view-equal `u`.
pub open spec fn count_matching(s: Seq<String>, u: Seq<char>) -> int {
    s.filter(|x: String| x@ == u).len() as int
}

/// Whether occurrence `j` of `current` is kept: occurrences of its URI seen
/// so far must stay below the URI's multiplicity in the target.
pub open spec fn spec_keep_at(current: Seq<String>, target: Seq<String>, j: int) -> bool {
    count_matching(current.take(j), current[j]@) < count_matching(target, current[j]@)
}

/// One URI's batched removal: the explicit positions to delete.
#[derive(Clone, Debug)]
pub struct RemovalEntry {
    pub uri: String,
    pub positions: Vec<u32>,
}

fn count_occurrences(s: &Vec<String>, upto: usize, u: &String) -> (r: usize)
    requires
        upto <= s@.len(),
    ensures
        r == count_matching(s@.take(upto as int), u@),
{
    let mut r: usize = 0;
    let mut i: usize = 0;
    while i < upto
        invariant
            i <= upto <= s@.len(),
            r == count_matching(s@.take(i as int), u@),
            r <= i,
        decreases upto - i,
    {
        proof {
            reveal_with_fuel(Seq::filter, 2);
            assert(s@.take(i + 1).drop_last() =~= s@.take(i as int));
            assert(s@.take(i + 1).last() == s@[i as int]);
        }
        if str_eq(s[i].as_str(), u.as_str()) {
            r = r + 1;
        }
        i = i + 1;
    }
    r
}

/// Decide which occurrences of `current` stay: each URI keeps as many
/// occurrences, left to right, as it has in `target`; the rest are marked
/// for removal.
pub fn plan_keep_flags(current: &Vec<String>, target: &Vec<String>) -> (keep: Vec<bool>)
    ensures
        keep@.len() == current@.len(),
        forall|j: int|
            0 <= j < current@.len() ==> keep@[j] == spec_keep_at(current@, target@, j),
{
    let n = current.len();
    let full = target.len();
    let mut keep: Vec<bool> = Vec::new();
    let mut j: usize = 0;
    while j < n
        invariant
            j <= n,
            n == current@.len(),
            full == target@.len(),
            keep@.len() == j,
            forall|m: int| 0 <= m < j ==> keep@[m] == spec_keep_at(current@, target@, m),
        decreases n - j,
    {
        let seen = count_occurrences(current, j, &current[j]);
        let allowed = count_occurrences(target, full, &current[j]);
        proof {
            assert(target@.take(full as int) =~= target@);
        }
        keep.push(seen < allowed);
        j = j + 1;
    }
    keep
}

/// The kept occurrences, in their original order.
pub open spec fn spec_kept(current: Seq<String>, keep: Seq<bool>) -> Seq<String>
    decreases current.len(),
{
    if current.len() == 0 || keep.len() == 0 {
        Seq::empty()
    } else {
        spec_kept(current.drop_last(), keep.drop_last()) + (if keep.last() {
            seq![current.last()]
        } else {
            Seq::empty()
        })
    }
}

/// The local view of the playlist after pruning: only kept occurrences, in
/// original relative order.
pub fn kept_uris(current: &Vec<String>, keep: &Vec<bool>) -> (r: Vec<String>)
    requires
        keep@.len() == current@.len(),
    ensures
        r@ == spec_kept(current@, keep@),
{
    let n = current.len();
    let mut r: Vec<String> = Vec::new();
    let mut i: usize = 0;
    proof {
        assert(spec_kept(current@.take(0), keep@.take(0)) =~= Seq::<String>::empty());
    }
    while i < n
        invariant
            i <= n,
            n == current@.len(),
            keep@.len() == n,
            r@ == spec_kept(current@.take(i as int), keep@.take(i as int)),
        decreases n - i,
    {
        proof {
            assert(current@.take(i + 1).drop_last() =~= current@.take(i as int));
            assert(keep@.take(i + 1).drop_last() =~= keep@.take(i as int));
            assert(current@.take(i + 1).last() == current@[i as int]);
            assert(keep@.take(i + 1).last() == keep@[i as int]);
        }
        if keep[i] {
            let u = current[i].clone();
            r.push(u);
            proof {
                assert(r@ =~= spec_kept(current@.take(i + 1), keep@.take(i + 1)));
            }
        } else {
            proof {
                assert(r@ =~= spec_kept(current@.take(i + 1), keep@.take(i + 1)));
            }
        }
        i = i + 1;
    }
    proof {
        assert(current@.take(n as int) =~= current@);
        assert(keep@.take(n as int) =~= keep@);
    }
    r
}

/// Group the removed occurrences by URI, positions ascending, one entry per
/// distinct removed URI in order of first removal; positions must fit the
/// remote API's 32-bit positions.
pub fn removal_entries(current: &Vec<String>, keep: &Vec<bool>) -> (r: Vec<RemovalEntry>)
    requires
        keep@.len() == current@.len(),
        current@.len() <= u32::MAX,
    ensures
        // each listed position is a removed occurrence of that entry's URI
        forall|e: int, p: int|
            0 <= e < r@.len() && 0 <= p < r@[e].positions@.len() ==> {
                let pos = #[trigger] r@[e].positions@[p] as int;
                &&& 0 <= pos < current@.len()
                &&& current@[pos]@ == r@[e].uri@
                &&& !keep@[pos]
            },
        // every removed occurrence is listed under its URI
        forall|j: int|
            0 <= j < current@.len() && !keep@[j] ==> exists|e: int, p: int|
                0 <= e < r@.len() && 0 <= p < r@[e].positions@.len()
                    && #[trigger] r@[e].positions@[p] == j,
        // one entry per URI, no empty entries, each position listed once
        forall|e1: int, e2: int| 0 <= e1 < e2 < r@.len() ==> r@[e1].uri@ != r@[e2].uri@,
        forall|e: int| 0 <= e < r@.len() ==> #[trigger] r@[e].positions@.len() > 0,
        forall|e: int, p1: int, p2: int|
            0 <= e < r@.len() && 0 <= p1 < p2 < r@[e].positions@.len()
                ==> #[trigger] r@[e].positions@[p1] < #[trigger] r@[e].positions@[p2],
{
    let n = current.len();
    let mut r: Vec<RemovalEntry> = Vec::new();
    let mut j: usize = 0;
    while j < n
        invariant
            j <= n,
            n == current@.len(),
            n <= u32::MAX,
            keep@.len() == n,
            forall|e: int, p: int|
                0 <= e < r@.len() && 0 <= p < r@[e].positions@.len() ==> {
                    let pos = #[trigger] r@[e].positions@[p] as int;
                    &&& 0 <= pos < j
                    &&& current@[pos]@ == r@[e].uri@
                    &&& !keep@[pos]
                },
            forall|m: int|
                0 <= m < j && !keep@[m] ==> exists|e: int, p: int|
                    0 <= e < r@.len() && 0 <= p < r@[e].positions@.len()
                        && #[trigger] r@[e].positions@[p] == m,
            forall|e1: int, e2: int| 0 <= e1 < e2 < r@.len() ==> r@[e1].uri@ != r@[e2].uri@,
            forall|e: int| 0 <= e < r@.len() ==> #[trigger] r@[e].positions@.len() > 0,
            forall|e: int, p1: int, p2: int|
                0 <= e < r@.len() && 0 <= p1 < p2 < r@[e].positions@.len()
                    ==> #[trigger] r@[e].positions@[p1] < #[trigger] r@[e].positions@[p2],
        decreases n - j,
    {
        if !keep[j] {
            let ghost old_r = r@;
            // find an existing entry for this URI
            let mut e: usize = 0;
            let mut found = false;
            while e < r.len()
                invariant_except_break
                    !found,
                invariant
                    e <= r@.len(),
                    j < n,
                    n == current@.len(),
                    forall|m: int| 0 <= m < e ==> r@[m].uri@ != current@[j as int]@,
                ensures
                    found ==> e < r@.len() && r@[e as int].uri@ == current@[j as int]@,
                    !found ==> e == r@.len(),
                decreases r@.len() - e,
            {
                if str_eq(r[e].uri.as_str(), current[j].as_str()) {
                    found = true;
                    break;
                }
                e = e + 1;
            }
            if found {
                let mut entry = r.remove(e);
                entry.positions.push(j as u32);
                r.insert(e, entry);
                proof {
                    assert forall|e2: int, p: int|
                        0 <= e2 < r@.len() && 0 <= p < r@[e2].positions@.len() implies {
                        let pos = #[trigger] r@[e2].positions@[p] as int;
                        &&& 0 <= pos < j + 1
                        &&& current@[pos]@ == r@[e2].uri@
                        &&& !keep@[pos]
                    } by {
                        if e2 == e {
                            if p < r@[e2].positions@.len() - 1 {
                                assert(r@[e2].positions@[p] == old_r[e2].positions@[p]);
                            } else {
                                assert(r@[e2].positions@[p] == j as u32);
                            }
                        } else {
                            assert(r@[e2] == old_r[e2]);
                        }
                    }
                    assert forall|m: int| 0 <= m < j + 1 && !keep@[m] implies exists|e2: int, p: int|
                        0 <= e2 < r@.len() && 0 <= p < r@[e2].positions@.len()
                            && #[trigger] r@[e2].positions@[p] == m by {
                        if m == j {
                            assert(r@[e as int].positions@[r@[e as int].positions@.len() - 1]
                                == m as u32);
                        } else {
                            let (e2, p) = choose|e2: int, p: int|
                                0 <= e2 < old_r.len() && 0 <= p < old_r[e2].positions@.len()
                                    && #[trigger] old_r[e2].positions@[p] == m;
                            if e2 == e {
                                assert(r@[e2].positions@[p] == m as u32);
                            } else {
                                assert(r@[e2].positions@[p] == m as u32);
                            }
                        }
                    }
                    // the appended position exceeds the entry's earlier ones
                    assert forall|e2: int, p1: int, p2: int|
                        0 <= e2 < r@.len() && 0 <= p1 < p2 < r@[e2].positions@.len()
                            implies #[trigger] r@[e2].positions@[p1]
                        < #[trigger] r@[e2].positions@[p2] by {
                        if e2 == e {
                            if p2 == r@[e2].positions@.len() - 1 {
                                assert(r@[e2].positions@[p1] == old_r[e2].positions@[p1]);
                                assert((old_r[e2].positions@[p1] as int) < j);
                                assert(r@[e2].positions@[p2] == j as u32);
                            } else {
                                assert(r@[e2].positions@[p1] == old_r[e2].positions@[p1]);
                                assert(r@[e2].positions@[p2] == old_r[e2].positions@[p2]);
                            }
                        } else {
                            assert(r@[e2] == old_r[e2]);
                        }
                    }
                    assert forall|e1: int, e2: int|
                        0 <= e1 < e2 < r@.len() implies r@[e1].uri@ != r@[e2].uri@ by {
                        assert(r@[e1].uri@ == old_r[e1].uri@);
                        assert(r@[e2].uri@ == old_r[e2].uri@);
                    }
                    assert forall|e2: int|
                        0 <= e2 < r@.len() implies #[trigger] r@[e2].positions@.len() > 0 by {
                        if e2 != e {
                            assert(r@[e2] == old_r[e2]);
                        }
                    }
                }
            } else {
                let mut positions: Vec<u32> = Vec::new();
                positions.push(j as u32);
                let uri = current[j].clone();
                r.push(RemovalEntry { uri, positions });
                proof {
                    assert forall|m: int| 0 <= m < j + 1 && !keep@[m] implies exists|e2: int, p: int|
                        0 <= e2 < r@.len() && 0 <= p < r@[e2].positions@.len()
                            && #[trigger] r@[e2].positions@[p] == m by {
                        if m == j {
                            assert(r@[r@.len() - 1].positions@[0] == m as u32);
                        } else {
                            let (e2, p) = choose|e2: int, p: int|
                                0 <= e2 < old_r.len() && 0 <= p < old_r[e2].positions@.len()
                                    && #[trigger] old_r[e2].positions@[p] == m;
                            assert(r@[e2].positions@[p] == m as u32);
                        }
                    }
                }
            }
        }
        j = j + 1;
    }
    r
}

/// The decision the reorder pass makes at slot `i`.
#[derive(Debug)]
pub enum ReorderStep {
    /// The slot is beyond the pruned list: the pass is over.
    Done,
    /// The slot already holds the wanted URI.
    Keep,
    /// Move the element at `from` up to this slot.
    Move { from: usize },
    /// The wanted URI is nowhere later in the list: skip it and go on.
    Skip,
}

/// Decide the reorder action at slot `i`: keep a matching slot, move the
/// first later occurrence of the wanted URI up, or skip a URI that is not
/// there (a multiset mismatch degrades gracefully instead of failing).
pub fn reorder_step(current: &Vec<String>, target: &Vec<String>, i: usize) -> (r: ReorderStep)
    requires
        i < target@.len(),
    ensures
        r is Done <==> i >= current@.len(),
        r is Keep <==> (i < current@.len() && current@[i as int]@ == target@[i as int]@),
        r matches ReorderStep::Move { from } ==> {
            &&& i < from < current@.len()
            &&& current@[from as int]@ == target@[i as int]@
            &&& current@[i as int]@ != target@[i as int]@
            &&& forall|k: int| i < k < from ==> current@[k]@ != target@[i as int]@
        },
        r is Skip ==> (i < current@.len() && current@[i as int]@ != target@[i as int]@
            && forall|k: int| i < k < current@.len() ==> current@[k]@ != target@[i as int]@),
        (i < current@.len() && current@[i as int]@ != target@[i as int]@ && exists|k: int|
            i < k < current@.len() && #[trigger] current@[k]@ == target@[i as int]@) ==> r is Move,
{
    let n = current.len();
    if i >= n {
        return ReorderStep::Done;
    }
    if str_eq(current[i].as_str(), target[i].as_str()) {
        return ReorderStep::Keep;
    }
    let mut k: usize = i + 1;
    while k < n
        invariant
            i < k <= n,
            n == current@.len(),
            i < target@.len(),
            current@[i as int]@ != target@[i as int]@,
            forall|m: int| i < m < k ==> current@[m]@ != target@[i as int]@,
        decreases n - k,
    {
        if str_eq(current[k].as_str(), target[i].as_str()) {
            return ReorderStep::Move { from: k };
        }
        k = k + 1;
    }
    ReorderStep::Skip
}

/// Mirror a remote single-item move in the local list: take the element at
/// `from` out and put it back at `to`.
pub fn apply_move(current: &mut Vec<String>, from: usize, to: usize)
    requires
        to <= from < old(current)@.len(),
    ensures
        final(current)@ == old(current)@.remove(from as int).insert(
            to as int,
            old(current)@[from as int],
        ),
        final(current)@.len() == old(current)@.len(),
{
    let x = current.remove(from);
    current.insert(to, x);
}

/// Whether a URI can stand in a full-replace payload: non-empty and
/// containing a scheme separator.
pub open spec fn spec_valid_uri(u: Seq<char>) -> bool {
    u.len() > 0 && first_at(u, ':') < u.len()
}

/// The URIs that a full replace can carry. Untracked local files without an
/// addressable form are dropped here, which is why callers prefer the
/// reorder strategy whenever a baseline exists.
pub fn valid_replace_uris(uris: Vec<String>) -> (r: Vec<String>)
    ensures
        r@ == uris@.filter(|u: String| spec_valid_uri(u@)),
{
    let ghost orig = uris@;
    let n = uris.len();
    let mut rest = uris;
    let mut r: Vec<String> = Vec::new();
    let mut i: usize = 0;
    proof {
        assert(rest@ =~= orig.skip(0));
        reveal_with_fuel(Seq::filter, 2);
        assert(orig.take(0).filter(|u: String| spec_valid_uri(u@)) =~= Seq::<String>::empty());
    }
    while i < n
        invariant
            i <= n,
            n == orig.len(),
            rest@ == orig.skip(i as int),
            r@ == orig.take(i as int).filter(|u: String| spec_valid_uri(u@)),
        decreases n - i,
    {
        let u = rest.remove(0);
        proof {
            assert(u == orig[i as int]);
            assert(rest@ =~= orig.skip(i + 1));
            reveal_with_fuel(Seq::filter, 2);
            assert(orig.take(i + 1).drop_last() =~= orig.take(i as int));
            assert(orig.take(i + 1).last() == orig[i as int]);
        }
        let chars = crate::strutil::chars_vec(u.as_str());
        let mut has_colon = false;
        let mut k: usize = 0;
        while k < chars.len()
            invariant_except_break
                !has_colon,
            invariant
                k <= chars@.len(),
                chars@ == u@,
                forall|m: int| 0 <= m < k ==> chars@[m] != ':',
            ensures
                has_colon ==> exists|m: int| 0 <= m < chars@.len() && #[trigger] chars@[m] == ':',
                !has_colon ==> k == chars@.len(),
            decreases chars@.len() - k,
        {
            if chars[k] == ':' {
                has_colon = true;
                proof {
                    assert(chars@[k as int] == ':');
                }
                break;
            }
            k = k + 1;
        }
        proof {
            lemma_first_at(u@, ':');
            if has_colon {
                let m = choose|m: int| 0 <= m < u@.len() && #[trigger] u@[m] == ':';
                assert(first_at(u@, ':') < u@.len()) by {
                    if first_at(u@, ':') >= u@.len() {
                        assert(u@[m] != ':');
                    }
                }
            } else {
                assert(first_at(u@, ':') == u@.len()) by {
                    if first_at(u@, ':') < u@.len() {
                        assert(u@[first_at(u@, ':')] == ':');
                    }
                }
            }
        }
        let valid = u.as_str().unicode_len() > 0 && has_colon;
        if valid {
            r.push(u);
        }
        proof {
            assert(r@ =~= orig.take(i + 1).filter(|x: String| spec_valid_uri(x@)));
        }
        i = i + 1;
    }
    proof {
        assert(orig.take(n as int) =~= orig);
    }
    r
}

/// The concatenation of a sequence of chunks.
pub open spec fn spec_concat(chunks: Seq<Seq<String>>) -> Seq<String>
    decreases chunks.len(),
{
    if chunks.len() == 0 {
        Seq::empty()
    } else {
        spec_concat(chunks.drop_last()) + chunks.last()
    }
}

/// Split the URIs into bounded batches: the first replaces the whole remote
/// list, the rest are appended; every batch is non-empty and at most
/// `size` long, and together they hold exactly the input in order.
pub fn chunk_uris(uris: Vec<String>, size: usize) -> (r: Vec<Vec<String>>)
    requires
        size > 0,
    ensures
        spec_concat(views_of(r@)) == uris@,
        forall|c: int| 0 <= c < r@.len() ==> 0 < #[trigger] r@[c]@.len() <= size,
{
    let ghost orig = uris@;
    let mut rest = uris;
    let mut r: Vec<Vec<String>> = Vec::new();
    proof {
        assert(spec_concat(views_of(r@)) =~= Seq::<String>::empty());
        assert(rest@ =~= orig.skip(0));
    }
    let ghost mut taken: int = 0;
    while rest.len() > 0
        invariant
            0 <= taken <= orig.len(),
            rest@ == orig.skip(taken),
            spec_concat(views_of(r@)) == orig.take(taken),
            size > 0,
            forall|c: int| 0 <= c < r@.len() ==> 0 < #[trigger] r@[c]@.len() <= size,
        decreases orig.len() - taken,
    {
        let mut chunk: Vec<String> = Vec::new();
        let mut m: usize = 0;
        while m < size && rest.len() > 0
            invariant
                0 <= taken <= orig.len(),
                m == chunk@.len(),
                m <= size,
                taken + m <= orig.len(),
                rest@ == orig.skip(taken + m),
                chunk@ == orig.subrange(taken, taken + m),
            decreases size - m,
        {
            let u = rest.remove(0);
            proof {
                assert(u == orig[taken + m]);
                assert(rest@ =~= orig.skip(taken + m + 1));
            }
            chunk.push(u);
            proof {
                assert(chunk@ =~= orig.subrange(taken, taken + m + 1));
            }
            m = m + 1;
        }
        let ghost old_r = r@;
        r.push(chunk);
        proof {
            assert(views_of(r@).drop_last() =~= views_of(old_r));
            assert(views_of(r@).last() == orig.subrange(taken, taken + m));
            assert(spec_concat(views_of(r@)) == spec_concat(views_of(old_r)) + orig.subrange(
                taken,
                taken + m,
            ));
            assert(orig.take(taken) + orig.subrange(taken, taken + m) =~= orig.take(taken + m));
            taken = taken + m;
        }
    }
    proof {
        assert(orig.take(taken) =~= orig);
    }
    r
}

/// The view of each chunk.
pub open spec fn views_of(chunks: Seq<Vec<String>>) -> Seq<Seq<String>> {
    chunks.map_values(|c: Vec<String>| c@)
}

/// Whether an update should use the reorder strategy: exactly when a
/// non-empty current-state baseline is known. Reordering preserves
/// untracked local files, so it is preferred whenever a prior snapshot
/// exists; only a playlist without one falls back to the full replace.
pub fn use_reorder(baseline: &Option<Vec<String>>) -> (r: bool)
    ensures
        r == (baseline matches Some(b) && b@.len() > 0),
{
    match baseline {
        Some(b) => b.len() > 0,
        None => false,
    }
}

} // verus!
