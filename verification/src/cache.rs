//! The snapshot cache. Playlist track lists are cached under the playlist
//! id, keyed by the remote-supplied snapshot token: a hit requires exact
//! token equality, never a TTL, so any remote mutation must invalidate the
//! entry before the playlist is next read. The "all playlists" listing,
//! which has no token, uses a timestamp TTL with the user id as key.

use vstd::prelude::*;
use crate::strutil::str_eq;
use crate::track::{AppTrack, Playlist};

verus! {

/// A cached playlist: the snapshot token it was fetched under, its tracks,
/// and when it was stored.
pub struct PlaylistCacheEntry {
    pub snapshot_id: String,
    pub tracks: Vec<AppTrack>,
    pub timestamp: i64,
}

/// The cached "all playlists for user" listing: keyed by user id with a
/// one-hour TTL, since no snapshot token exists for it.
pub struct PlaylistsCacheEntry {
    pub user_id: String,
    pub playlists: Vec<Playlist>,
    pub timestamp: i64,
}

impl PlaylistsCacheEntry {
    /// Whether this listing may serve a request: same user and written
    /// less than an hour ago.
    pub fn is_fresh(&self, user_id: &str, now: i64) -> (r: bool)
        requires
            self.timestamp >= 0,
            now >= 0,
        ensures
            r == (self.user_id@ == user_id@ && now - self.timestamp < 3600),
    {
        str_eq(self.user_id.as_str(), user_id) && now - self.timestamp < 3600
    }
}

/// The mathematical contents of a cache entry sequence: later entries win,
/// though the cache keeps each key at most once.
pub open spec fn entries_map(s: Seq<(String, PlaylistCacheEntry)>) -> Map<
    Seq<char>,
    PlaylistCacheEntry,
>
    decreases s.len(),
{
    if s.len() == 0 {
        Map::empty()
    } else {
        entries_map(s.drop_last()).insert(s.last().0@, s.last().1)
    }
}

/// The per-playlist snapshot cache.
pub struct SnapshotCache {
    entries: Vec<(String, PlaylistCacheEntry)>,
}

impl SnapshotCache {
    /// Each playlist id occurs at most once.
    pub closed spec fn wf(self) -> bool {
        forall|i: int, j: int|
            0 <= i < j < self.entries@.len() ==> self.entries@[i].0@ != self.entries@[j].0@
    }

    /// What the cache holds, as a map from playlist id to entry.
    pub closed spec fn contents(self) -> Map<Seq<char>, PlaylistCacheEntry> {
        entries_map(self.entries@)
    }

    /// An empty cache.
    pub fn new() -> (r: SnapshotCache)
        ensures
            r.wf(),
            r.contents() == Map::<Seq<char>, PlaylistCacheEntry>::empty(),
    {
        let r = SnapshotCache { entries: Vec::new() };
        proof {
            assert(r.entries@.len() == 0);
        }
        r
    }

    fn find_index(&self, playlist_id: &str) -> (r: Option<usize>)
        ensures
            r matches Some(i) ==> i < self.entries@.len() && self.entries@[i as int].0@
                == playlist_id@,
            r is None ==> forall|i: int|
                0 <= i < self.entries@.len() ==> self.entries@[i].0@ != playlist_id@,
    {
        let mut i: usize = 0;
        while i < self.entries.len()
            invariant
                i <= self.entries@.len(),
                forall|m: int| 0 <= m < i ==> self.entries@[m].0@ != playlist_id@,
            decreases self.entries@.len() - i,
        {
            if str_eq(self.entries[i].0.as_str(), playlist_id) {
                return Some(i);
            }
            i = i + 1;
        }
        None
    }

    /// Read a playlist's cached entry, if any.
    pub fn get(&self, playlist_id: &str) -> (r: Option<&PlaylistCacheEntry>)
        requires
            self.wf(),
        ensures
            r is Some <==> self.contents().contains_key(playlist_id@),
            r matches Some(e) ==> *e == self.contents()[playlist_id@],
    {
        let found = self.find_index(playlist_id);
        match found {
            Some(i) => {
                proof {
                    lemma_map_found(self.entries@, playlist_id@, i as int);
                }
                Some(&self.entries[i].1)
            },
            None => {
                proof {
                    lemma_map_absent(self.entries@, playlist_id@);
                }
                None
            },
        }
    }

    /// Drop a playlist's entry: after any remote mutation the stored
    /// snapshot token is stale, so the entry must go.
    pub fn invalidate(&mut self, playlist_id: &str)
        requires
            old(self).wf(),
        ensures
            final(self).wf(),
            final(self).contents() == old(self).contents().remove(playlist_id@),
    {
        let found = self.find_index(playlist_id);
        match found {
            Some(i) => {
                let ghost old_entries = self.entries@;
                let _ = self.entries.remove(i);
                proof {
                    assert(self.entries@ =~= old_entries.remove(i as int));
                    lemma_map_remove(old_entries, playlist_id@, i as int);
                    assert forall|a: int, b: int|
                        0 <= a < b < self.entries@.len() implies self.entries@[a].0@
                        != self.entries@[b].0@ by {
                        if b < i {
                            assert(self.entries@[a] == old_entries[a]);
                            assert(self.entries@[b] == old_entries[b]);
                        } else if a < i {
                            assert(self.entries@[a] == old_entries[a]);
                            assert(self.entries@[b] == old_entries[b + 1]);
                        } else {
                            assert(self.entries@[a] == old_entries[a + 1]);
                            assert(self.entries@[b] == old_entries[b + 1]);
                        }
                    }
                }
            },
            None => {
                proof {
                    lemma_map_absent(self.entries@, playlist_id@);
                    assert(old(self).contents() =~= old(self).contents().remove(playlist_id@));
                }
            },
        }
    }

    /// Store a playlist's tracks under its current snapshot token,
    /// replacing whatever the cache held for that playlist.
    pub fn put(&mut self, playlist_id: String, entry: PlaylistCacheEntry)
        requires
            old(self).wf(),
        ensures
            final(self).wf(),
            final(self).contents() == old(self).contents().insert(playlist_id@, entry),
    {
        self.invalidate(playlist_id.as_str());
        let ghost mid = self.entries@;
        let ghost pid = playlist_id@;
        self.entries.push((playlist_id, entry));
        proof {
            assert(self.entries@.drop_last() =~= mid);
            assert(self.entries@.last().0@ == pid);
            assert(self.contents() =~= entries_map(mid).insert(pid, entry));
            lemma_remove_insert(entries_map(mid), old(self).contents(), pid, entry);
            assert forall|a: int, b: int|
                0 <= a < b < self.entries@.len() implies self.entries@[a].0@
                != self.entries@[b].0@ by {
                if b == self.entries@.len() - 1 {
                    assert(self.entries@[a] == mid[a]);
                    lemma_map_key_present(mid, a);
                } else {
                    assert(self.entries@[a] == mid[a]);
                    assert(self.entries@[b] == mid[b]);
                }
            }
        }
    }
}

proof fn lemma_remove_insert(
    m1: Map<Seq<char>, PlaylistCacheEntry>,
    m0: Map<Seq<char>, PlaylistCacheEntry>,
    k: Seq<char>,
    v: PlaylistCacheEntry,
)
    requires
        m1 == m0.remove(k),
    ensures
        m1.insert(k, v) == m0.insert(k, v),
{
    assert(m1.insert(k, v) =~= m0.insert(k, v));
}

proof fn lemma_map_key_present(s: Seq<(String, PlaylistCacheEntry)>, i: int)
    requires
        0 <= i < s.len(),
    ensures
        entries_map(s).contains_key(s[i].0@),
    decreases s.len(),
{
    if i < s.len() - 1 {
        lemma_map_key_present(s.drop_last(), i);
    }
}

proof fn lemma_map_found(s: Seq<(String, PlaylistCacheEntry)>, k: Seq<char>, i: int)
    requires
        0 <= i < s.len(),
        s[i].0@ == k,
        forall|a: int, b: int| 0 <= a < b < s.len() ==> s[a].0@ != s[b].0@,
    ensures
        entries_map(s).contains_key(k),
        entries_map(s)[k] == s[i].1,
    decreases s.len(),
{
    if i == s.len() - 1 {
    } else {
        lemma_map_found(s.drop_last(), k, i);
        assert(s.last().0@ != k);
    }
}

proof fn lemma_map_absent(s: Seq<(String, PlaylistCacheEntry)>, k: Seq<char>)
    requires
        forall|i: int| 0 <= i < s.len() ==> s[i].0@ != k,
    ensures
        !entries_map(s).contains_key(k),
    decreases s.len(),
{
    if s.len() > 0 {
        lemma_map_absent(s.drop_last(), k);
    }
}

proof fn lemma_map_remove(s: Seq<(String, PlaylistCacheEntry)>, k: Seq<char>, i: int)
    requires
        0 <= i < s.len(),
        s[i].0@ == k,
        forall|a: int, b: int| 0 <= a < b < s.len() ==> s[a].0@ != s[b].0@,
    ensures
        entries_map(s.remove(i)) == entries_map(s).remove(k),
    decreases s.len(),
{
    if i == s.len() - 1 {
        assert(s.remove(i) =~= s.drop_last());
        lemma_map_absent_after(s.drop_last(), k, s);
        assert(entries_map(s.drop_last()) =~= entries_map(s).remove(k));
    } else {
        lemma_map_remove(s.drop_last(), k, i);
        assert(s.remove(i).drop_last() =~= s.drop_last().remove(i));
        assert(s.remove(i).last() == s.last());
        assert(entries_map(s.remove(i)) == entries_map(s.drop_last().remove(i)).insert(
            s.last().0@,
            s.last().1,
        ));
        assert(s.last().0@ != k);
        assert(entries_map(s.remove(i)) =~= entries_map(s).remove(k));
    }
}

proof fn lemma_map_absent_after(
    prefix: Seq<(String, PlaylistCacheEntry)>,
    k: Seq<char>,
    s: Seq<(String, PlaylistCacheEntry)>,
)
    requires
        prefix == s.drop_last(),
        s.len() > 0,
        s[s.len() - 1].0@ == k,
        forall|a: int, b: int| 0 <= a < b < s.len() ==> s[a].0@ != s[b].0@,
    ensures
        !entries_map(prefix).contains_key(k),
{
    assert forall|i: int| 0 <= i < prefix.len() implies prefix[i].0@ != k by {
        assert(prefix[i] == s[i]);
    }
    lemma_map_absent(prefix, k);
}

/// A token-matched read never serves stale content: it returns exactly the
/// tracks stored for that playlist, and only under the same token.
pub proof fn lemma_get_after_put(
    m: Map<Seq<char>, PlaylistCacheEntry>,
    id: Seq<char>,
    entry: PlaylistCacheEntry,
)
    ensures
        m.insert(id, entry).contains_key(id),
        m.insert(id, entry)[id] == entry,
{
}

/// After an invalidation the playlist has no entry, whatever token a later
/// read carries.
pub proof fn lemma_get_after_invalidate(m: Map<Seq<char>, PlaylistCacheEntry>, id: Seq<char>)
    ensures
        !m.remove(id).contains_key(id),
{
}

} // verus!
