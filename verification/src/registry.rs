//! The set of currently connected peers, keyed by identity.
//!
//! The registry is a plain value; the caller shares it between tasks behind
//! its own lock and holds that lock only across calls of these methods, never
//! across I/O. A snapshot hands out copies of the sessions for that reason.

use crate::peer::PeerId;
use vstd::prelude::*;

verus! {

/// Mapping from peer identity to session, with at most one session per peer.
///
/// Its view is the map from the bytes of an identity to the session held for
/// it; the order in which peers were inserted is not part of it.
pub struct PeerSessionRegistry<S> {
    entries: Vec<(PeerId, S)>,
}

/// The identities of `entries`, in order.
pub open spec fn entry_ids<S>(entries: Seq<(PeerId, S)>) -> Seq<Seq<u8>> {
    entries.map_values(|e: (PeerId, S)| e.0@)
}

/// The map that a duplicate-free list of entries stands for.
pub open spec fn entries_map<S>(entries: Seq<(PeerId, S)>) -> Map<Seq<u8>, S> {
    Map::new(
        |k: Seq<u8>| entry_ids(entries).contains(k),
        |k: Seq<u8>| entries[entry_ids(entries).index_of(k)].1,
    )
}

/// The identities of `peers` as a set of byte strings.
pub open spec fn id_set(peers: Seq<PeerId>) -> Set<Seq<u8>> {
    Set::new(|k: Seq<u8>| exists|i: int| 0 <= i < peers.len() && #[trigger] peers[i]@ == k)
}

proof fn lemma_entry_lookup<S>(entries: Seq<(PeerId, S)>, i: int)
    requires
        entry_ids(entries).no_duplicates(),
        0 <= i < entries.len(),
    ensures
        entries_map(entries).contains_key(entries[i].0@),
        entries_map(entries)[entries[i].0@] == entries[i].1,
        entry_ids(entries).index_of(entries[i].0@) == i,
{
    let ids = entry_ids(entries);
    assert(ids[i] == entries[i].0@);
    let j = ids.index_of(entries[i].0@);
    assert(0 <= j < ids.len() && ids[j] == ids[i]);
}

proof fn lemma_entries_map_len<S>(entries: Seq<(PeerId, S)>)
    requires
        entry_ids(entries).no_duplicates(),
    ensures
        entries_map(entries).dom().finite(),
        entries_map(entries).dom().len() == entries.len(),
{
    let ids = entry_ids(entries);
    ids.unique_seq_to_set();
    vstd::seq_lib::seq_to_set_is_finite(ids);
    assert(entries_map(entries).dom() =~= ids.to_set());
}

impl<S> View for PeerSessionRegistry<S> {
    type V = Map<Seq<u8>, S>;

    closed spec fn view(&self) -> Map<Seq<u8>, S> {
        entries_map(self.entries@)
    }
}

impl<S> PeerSessionRegistry<S> {
    #[verifier::type_invariant]
    spec fn keys_unique(self) -> bool {
        entry_ids(self.entries@).no_duplicates()
    }

    /// A registry with no peer in it.
    pub fn new() -> (registry: Self)
        ensures
            registry@ == Map::<Seq<u8>, S>::empty(),
    {
        let registry = PeerSessionRegistry { entries: Vec::new() };
        assert(registry@ =~= Map::<Seq<u8>, S>::empty());
        registry
    }

    /// The number of peers with a session.
    pub fn len(&self) -> (n: usize)
        ensures
            self@.dom().finite(),
            n == self@.dom().len(),
    {
        proof {
            use_type_invariant(self);
            lemma_entries_map_len(self.entries@);
        }
        self.entries.len()
    }

    /// Whether no peer has a session.
    pub fn is_empty(&self) -> (empty: bool)
        ensures
            empty <==> self@ == Map::<Seq<u8>, S>::empty(),
    {
        proof {
            use_type_invariant(self);
            lemma_entries_map_len(self.entries@);
            if self.entries@.len() == 0 {
                assert(self@ =~= Map::<Seq<u8>, S>::empty());
            }
        }
        self.entries.len() == 0
    }

    /// Moves the entries out, leaving the registry empty until they are put back.
    fn take_entries(&mut self) -> (entries: Vec<(PeerId, S)>)
        ensures
            entries@ == old(self).entries@,
            final(self).entries@.len() == 0,
    {
        let mut entries: Vec<(PeerId, S)> = Vec::new();
        core::mem::swap(&mut self.entries, &mut entries);
        entries
    }

    /// Position of `peer` among the entries, if it has one.
    fn position(&self, peer: &PeerId) -> (found: Option<usize>)
        ensures
            match found {
                Some(i) => i < self.entries@.len() && self.entries@[i as int].0@ == peer@,
                None => !entry_ids(self.entries@).contains(peer@),
            },
    {
        let mut i: usize = 0;
        while i < self.entries.len()
            invariant
                i <= self.entries@.len(),
                forall|j: int| 0 <= j < i ==> self.entries@[j].0@ != peer@,
            decreases self.entries@.len() - i,
        {
            if self.entries[i].0 == *peer {
                return Some(i);
            }
            i += 1;
        }
        proof {
            let ids = entry_ids(self.entries@);
            assert forall|j: int| 0 <= j < ids.len() implies ids[j] != peer@ by {
                assert(ids[j] == self.entries@[j].0@);
            }
        }
        None
    }

    /// Whether `peer` has a session.
    pub fn contains(&self, peer: &PeerId) -> (present: bool)
        ensures
            present == self@.contains_key(peer@),
    {
        proof {
            use_type_invariant(self);
        }
        match self.position(peer) {
            Some(i) => {
                proof {
                    lemma_entry_lookup(self.entries@, i as int);
                }
                true
            },
            None => false,
        }
    }

    /// The session held for `peer`, if there is one.
    pub fn get(&self, peer: &PeerId) -> (session: Option<&S>)
        ensures
            match session {
                Some(s) => self@.contains_key(peer@) && *s == self@[peer@],
                None => !self@.contains_key(peer@),
            },
    {
        proof {
            use_type_invariant(self);
        }
        match self.position(peer) {
            Some(i) => {
                proof {
                    lemma_entry_lookup(self.entries@, i as int);
                }
                Some(&self.entries[i].1)
            },
            None => None,
        }
    }

    /// Records `session` for `peer`, in place of any session it had before.
    #[verifier::rlimit(40)]
    pub fn insert(&mut self, peer: PeerId, session: S)
        ensures
            final(self)@ == old(self)@.insert(peer@, session),
    {
        proof {
            use_type_invariant(&*self);
        }
        let ghost before = self.entries@;
        match self.position(&peer) {
            Some(i) => {
                let mut entries = self.take_entries();
                entries.remove(i);
                entries.insert(i, (peer, session));
                proof {
                    let after = entries@;
                    assert(after =~= before.update(i as int, (peer, session)));
                    assert(entry_ids(after) =~= entry_ids(before)) by {
                        assert forall|j: int| 0 <= j < before.len() implies entry_ids(after)[j]
                            == entry_ids(before)[j] by {
                            assert(entry_ids(before)[j] == before[j].0@);
                            assert(entry_ids(after)[j] == after[j].0@);
                        }
                    }
                    assert forall|k: Seq<u8>| #[trigger]
                        entries_map(before).insert(peer@, session).contains_key(k) implies (
                    entries_map(after).contains_key(k) && entries_map(after)[k] == entries_map(
                        before,
                    ).insert(peer@, session)[k]) by {
                        lemma_entry_lookup(before, i as int);
                        let j = entry_ids(before).index_of(k);
                        lemma_entry_lookup(before, j);
                        lemma_entry_lookup(after, j);
                    }
                    assert(entries_map(after) =~= entries_map(before).insert(peer@, session));
                }
                self.entries = entries;
            },
            None => {
                let mut entries = self.take_entries();
                entries.push((peer, session));
                proof {
                    let after = entries@;
                    assert(after == before.push((peer, session)));
                    assert(entry_ids(after) =~= entry_ids(before).push(peer@));
                    assert(entry_ids(after).no_duplicates()) by {
                        assert forall|a: int, b: int|
                            0 <= a < after.len() && 0 <= b < after.len() && a
                                != b implies entry_ids(after)[a] != entry_ids(after)[b] by {
                            if a < before.len() {
                                assert(entry_ids(before)[a] == entry_ids(after)[a]);
                            }
                            if b < before.len() {
                                assert(entry_ids(before)[b] == entry_ids(after)[b]);
                            }
                        }
                    }
                    assert forall|k: Seq<u8>| #[trigger]
                        entries_map(before).insert(peer@, session).contains_key(k) implies (
                    entries_map(after).contains_key(k) && entries_map(after)[k] == entries_map(
                        before,
                    ).insert(peer@, session)[k]) by {
                        if k == peer@ {
                            lemma_entry_lookup(after, before.len() as int);
                        } else {
                            let j = entry_ids(before).index_of(k);
                            lemma_entry_lookup(before, j);
                            lemma_entry_lookup(after, j);
                        }
                    }
                    assert forall|k: Seq<u8>| #[trigger]
                        entries_map(after).contains_key(k) implies entries_map(before).insert(
                        peer@,
                        session,
                    ).contains_key(k) by {
                        let j = entry_ids(after).index_of(k);
                        if j < before.len() {
                            assert(entry_ids(before)[j] == k);
                        }
                    }
                    assert(entries_map(after) =~= entries_map(before).insert(peer@, session));
                }
                self.entries = entries;
            },
        }
    }

    /// Drops the session of `peer`, if it has one, and hands it back.
    pub fn remove(&mut self, peer: &PeerId) -> (removed: Option<S>)
        ensures
            final(self)@ == old(self)@.remove(peer@),
            match removed {
                Some(s) => old(self)@.contains_key(peer@) && s == old(self)@[peer@],
                None => !old(self)@.contains_key(peer@),
            },
    {
        proof {
            use_type_invariant(&*self);
        }
        let ghost before = self.entries@;
        match self.position(peer) {
            Some(i) => {
                let mut entries = self.take_entries();
                let entry = entries.remove(i);
                proof {
                    lemma_entry_lookup(before, i as int);
                    lemma_remove_entry(before, i as int);
                }
                self.entries = entries;
                Some(entry.1)
            },
            None => {
                assert(entries_map(before).remove(peer@) =~= entries_map(before));
                None
            },
        }
    }

    /// The identities of all peers with a session, each once.
    pub fn peers(&self) -> (ids: Vec<PeerId>)
        ensures
            id_set(ids@) == self@.dom(),
            ids@.len() == self@.dom().len(),
            forall|i: int, j: int| 0 <= i < j < ids@.len() ==> ids@[i]@ != ids@[j]@,
    {
        proof {
            use_type_invariant(self);
            lemma_entries_map_len(self.entries@);
        }
        let mut ids: Vec<PeerId> = Vec::new();
        let mut i: usize = 0;
        while i < self.entries.len()
            invariant
                i <= self.entries@.len(),
                ids@.len() == i,
                forall|j: int| 0 <= j < i ==> ids@[j] == self.entries@[j].0,
            decreases self.entries@.len() - i,
        {
            ids.push(self.entries[i].0);
            i += 1;
        }
        proof {
            let all = entry_ids(self.entries@);
            assert forall|k: Seq<u8>| id_set(ids@).contains(k) == self@.dom().contains(k) by {
                if id_set(ids@).contains(k) {
                    let j = choose|j: int| 0 <= j < ids@.len() && #[trigger] ids@[j]@ == k;
                    assert(all[j] == k);
                }
                if self@.dom().contains(k) {
                    let j = all.index_of(k);
                    assert(ids@[j]@ == k);
                }
            }
            assert(id_set(ids@) =~= self@.dom());
            assert forall|a: int, b: int| 0 <= a < b < ids@.len() implies ids@[a]@ != ids@[b]@ by {
                assert(all[a] == ids@[a]@);
                assert(all[b] == ids@[b]@);
            }
        }
        ids
    }

    /// Drops the session of every peer named in `failed`; other peers keep
    /// theirs. A name without a session, or named twice, does no harm.
    pub fn prune(&mut self, failed: &Vec<PeerId>)
        ensures
            final(self)@ == old(self)@.remove_keys(id_set(failed@)),
    {
        let mut i: usize = 0;
        assert(self@ =~= old(self)@.remove_keys(id_set(failed@.take(0))));
        while i < failed.len()
            invariant
                i <= failed@.len(),
                self@ == old(self)@.remove_keys(id_set(failed@.take(i as int))),
            decreases failed@.len() - i,
        {
            let ghost prev = self@;
            self.remove(&failed[i]);
            proof {
                let done = failed@.take(i as int);
                let next = failed@.take(i as int + 1);
                assert forall|k: Seq<u8>| id_set(next).contains(k) <==> (id_set(done).contains(k)
                    || k == failed@[i as int]@) by {
                    if id_set(next).contains(k) {
                        let j = choose|j: int| 0 <= j < next.len() && #[trigger] next[j]@ == k;
                        if j < i {
                            assert(done[j]@ == k);
                        }
                    }
                    if id_set(done).contains(k) {
                        let j = choose|j: int| 0 <= j < done.len() && #[trigger] done[j]@ == k;
                        assert(next[j]@ == k);
                    }
                    if k == failed@[i as int]@ {
                        assert(next[i as int]@ == k);
                    }
                }
                assert(self@ =~= old(self)@.remove_keys(id_set(next)));
            }
            i += 1;
        }
        assert(failed@.take(failed@.len() as int) =~= failed@);
    }
}

impl<S: Clone> PeerSessionRegistry<S> {
    /// Every peer with a copy of its session, each peer once, for use after
    /// the caller has let go of the registry.
    pub fn snapshot(&self) -> (pairs: Vec<(PeerId, S)>)
        ensures
            pairs@.len() == self@.dom().len(),
            forall|i: int|
                0 <= i < pairs@.len() ==> self@.contains_key(#[trigger] pairs@[i].0@) && cloned(
                    self@[pairs@[i].0@],
                    pairs@[i].1,
                ),
            forall|k: Seq<u8>|
                self@.contains_key(k) ==> exists|i: int|
                    0 <= i < pairs@.len() && #[trigger] pairs@[i].0@ == k,
            forall|i: int, j: int| 0 <= i < j < pairs@.len() ==> pairs@[i].0@ != pairs@[j].0@,
    {
        proof {
            use_type_invariant(self);
            lemma_entries_map_len(self.entries@);
        }
        let mut pairs: Vec<(PeerId, S)> = Vec::new();
        let mut i: usize = 0;
        while i < self.entries.len()
            invariant
                i <= self.entries@.len(),
                pairs@.len() == i,
                forall|j: int|
                    0 <= j < i ==> (#[trigger] pairs@[j]).0 == self.entries@[j].0 && cloned(
                        self.entries@[j].1,
                        pairs@[j].1,
                    ),
            decreases self.entries@.len() - i,
        {
            let session = self.entries[i].1.clone();
            pairs.push((self.entries[i].0, session));
            i += 1;
        }
        proof {
            let all = entry_ids(self.entries@);
            assert forall|j: int| 0 <= j < pairs@.len() implies self@.contains_key(
                #[trigger] pairs@[j].0@,
            ) && cloned(self@[pairs@[j].0@], pairs@[j].1) by {
                assert(pairs@[j].0 == self.entries@[j].0);
                lemma_entry_lookup(self.entries@, j);
            }
            assert forall|k: Seq<u8>| self@.contains_key(k) implies exists|j: int|
                0 <= j < pairs@.len() && #[trigger] pairs@[j].0@ == k by {
                let j = all.index_of(k);
                assert(pairs@[j].0 == self.entries@[j].0);
                assert(pairs@[j].0@ == k);
            }
            assert forall|a: int, b: int| 0 <= a < b < pairs@.len() implies pairs@[a].0@
                != pairs@[b].0@ by {
                assert(pairs@[a].0 == self.entries@[a].0);
                assert(pairs@[b].0 == self.entries@[b].0);
                assert(all[a] == pairs@[a].0@);
                assert(all[b] == pairs@[b].0@);
            }
        }
        pairs
    }
}

/// Taking entry `i` out of a duplicate-free list takes its identity out of
/// the map and leaves the list duplicate-free.
#[verifier::rlimit(40)]
proof fn lemma_remove_entry<S>(entries: Seq<(PeerId, S)>, i: int)
    requires
        entry_ids(entries).no_duplicates(),
        0 <= i < entries.len(),
    ensures
        entry_ids(entries.remove(i)).no_duplicates(),
        entries_map(entries.remove(i)) == entries_map(entries).remove(entries[i].0@),
{
    let before = entries;
    let after = entries.remove(i);
    let key = entries[i].0@;
    assert forall|j: int| 0 <= j < after.len() implies #[trigger] entry_ids(after)[j] == entry_ids(
        before,
    )[if j < i {
        j
    } else {
        j + 1
    }] by {
        assert(entry_ids(after)[j] == after[j].0@);
    }
    assert(entry_ids(after).no_duplicates());
    assert forall|k: Seq<u8>| #[trigger]
        entries_map(before).remove(key).contains_key(k) implies entries_map(after).contains_key(k)
        && entries_map(after)[k] == entries_map(before).remove(key)[k] by {
        let j = entry_ids(before).index_of(k);
        lemma_entry_lookup(before, j);
        assert(entry_ids(before)[i] == key);
        let j2 = if j < i {
            j
        } else {
            j - 1
        };
        assert(after[j2] == before[j]);
        lemma_entry_lookup(after, j2);
    }
    assert forall|k: Seq<u8>| #[trigger] entries_map(after).contains_key(k) implies entries_map(
        before,
    ).remove(key).contains_key(k) by {
        let j = entry_ids(after).index_of(k);
        let j0 = if j < i {
            j
        } else {
            j + 1
        };
        assert(entry_ids(before)[j0] == k);
        assert(entry_ids(before)[i] == key);
    }
    assert(entries_map(after) =~= entries_map(before).remove(key));
}

} // verus!
