//! The neighbour directory: a per-group registry of known peers with
//! TTL-based failure detection. Pure data, no I/O and no clock: every
//! operation that depends on time takes the current instant as a plain
//! millisecond count, so callers decide what "now" is.
//!
//! Identity is (group, peer id), unique per group. An entry is created the
//! first time a peer id is observed (first writer wins on the address),
//! its expiry is extended only by later renewals, and it is removed once a
//! sweep observes its expiry at or before "now". Insertion order is kept:
//! a sweep preserves the relative order of the survivors.

use vstd::prelude::*;
use crate::addr::PeerAddr;
use crate::message::{str_utf8, str_eq, peers_view};

verus! {

/// Saturating addition on instants: a renewal that would overflow the
/// clock pins the expiry at the far end instead.
pub open spec fn spec_sat_add(a: u64, b: u64) -> u64 {
    if a + b <= u64::MAX {
        (a + b) as u64
    } else {
        u64::MAX
    }
}

// ------------------------------------------------------------------
// NeighbourEntry
// ------------------------------------------------------------------

/// One known peer: its id, its address, and the instant its liveness
/// expires.
#[derive(Clone, PartialEq, Eq, Debug)]
pub struct NeighbourEntry {
    pub id: String,
    pub addr: PeerAddr,
    pub ttl: u64,
}

/// The mathematical value of an entry.
#[verifier::ext_equal]
pub struct EntryV {
    pub id: Seq<char>,
    pub addr: PeerAddr,
    pub ttl: u64,
}

impl View for NeighbourEntry {
    type V = EntryV;

    open spec fn view(&self) -> EntryV {
        EntryV { id: self.id@, addr: self.addr, ttl: self.ttl }
    }
}

impl NeighbourEntry {
    pub fn new(id: String, addr: PeerAddr, ttl: u64) -> (e: NeighbourEntry)
        ensures
            e == (NeighbourEntry { id, addr, ttl }),
            e@ == (EntryV { id: id@, addr, ttl }),
    {
        NeighbourEntry { id, addr, ttl }
    }

    pub fn id(&self) -> (r: &String)
        ensures
            r == &self.id,
    {
        &self.id
    }

    pub fn addr(&self) -> (r: &PeerAddr)
        ensures
            r == &self.addr,
    {
        &self.addr
    }

    /// An entry is expired at `now` once its expiry instant is reached.
    pub open spec fn spec_expired(self, now: u64) -> bool {
        self.ttl <= now
    }

    pub fn ttl_expired(&self, now: u64) -> (r: bool)
        ensures
            r == self.spec_expired(now),
    {
        self.ttl <= now
    }

    /// Extend the expiry by `value`, saturating at the end of the clock.
    pub fn update_ttl(&mut self, value: u64)
        ensures
            *final(self) == (NeighbourEntry {
                ttl: spec_sat_add(old(self).ttl, value),
                ..*old(self)
            }),
    {
        self.ttl = self.ttl.saturating_add(value);
    }

    /// An equal, independently owned copy.
    pub fn duplicate(&self) -> (r: NeighbourEntry)
        ensures
            r == *self,
    {
        NeighbourEntry { id: self.id.clone(), addr: self.addr, ttl: self.ttl }
    }
}

// ------------------------------------------------------------------
// Spec views of an entry list
// ------------------------------------------------------------------

/// The entry values of an entry list.
pub open spec fn entries_view(s: Seq<NeighbourEntry>) -> Seq<EntryV> {
    s.map_values(|e: NeighbourEntry| e@)
}

/// Some entry in `s` has id `id`.
pub open spec fn has_id(s: Seq<EntryV>, id: Seq<char>) -> bool {
    exists|i: int| 0 <= i < s.len() && #[trigger] s[i].id == id
}

/// No two entries share an id.
pub open spec fn unique_ids(s: Seq<EntryV>) -> bool {
    forall|i: int, j: int| 0 <= i < j < s.len() ==> s[i].id != s[j].id
}

/// Ids are unique within the list and each fits the wire protocol's
/// 32-byte id field.
pub open spec fn entries_wf(s: Seq<EntryV>) -> bool {
    unique_ids(s) && forall|i: int|
        #![trigger s[i]]
        0 <= i < s.len() ==> str_utf8(s[i].id).len() <= 32
}

/// The entries of `s` that are still live at `now`, in their original
/// order: exactly those whose expiry lies after `now`.
pub open spec fn live_entries(s: Seq<EntryV>, now: u64) -> Seq<EntryV>
    decreases s.len(),
{
    if s.len() == 0 {
        Seq::empty()
    } else if s[0].ttl <= now {
        live_entries(s.drop_first(), now)
    } else {
        seq![s[0]] + live_entries(s.drop_first(), now)
    }
}

/// Appending an entry appends it to the live view when it is live.
pub proof fn lemma_live_entries_push(s: Seq<EntryV>, now: u64, e: EntryV)
    ensures
        live_entries(s.push(e), now) == live_entries(s, now) + (if e.ttl <= now {
            Seq::<EntryV>::empty()
        } else {
            seq![e]
        }),
    decreases s.len(),
{
    if s.len() == 0 {
        assert(s.push(e)[0] == e);
        assert(s.push(e).drop_first() =~= Seq::<EntryV>::empty());
        assert(live_entries(Seq::<EntryV>::empty(), now) == Seq::<EntryV>::empty());
        assert(live_entries(s.push(e), now) =~= live_entries(s, now) + (if e.ttl <= now {
            Seq::<EntryV>::empty()
        } else {
            seq![e]
        }));
    } else {
        assert(s.push(e)[0] == s[0]);
        assert(s.push(e).drop_first() =~= s.drop_first().push(e));
        lemma_live_entries_push(s.drop_first(), now, e);
        assert(live_entries(s.push(e), now) =~= live_entries(s, now) + (if e.ttl <= now {
            Seq::<EntryV>::empty()
        } else {
            seq![e]
        }));
    }
}

/// Every live entry is one of the original entries, and every id among
/// the live entries was there before.
pub proof fn lemma_live_entries_sub(s: Seq<EntryV>, now: u64)
    ensures
        forall|k: int| 0 <= k < live_entries(s, now).len() ==> exists|i: int|
            0 <= i < s.len() && s[i] == #[trigger] live_entries(s, now)[k],
        forall|id: Seq<char>| #[trigger] has_id(live_entries(s, now), id) ==> has_id(s, id),
    decreases s.len(),
{
    if s.len() > 0 {
        lemma_live_entries_sub(s.drop_first(), now);
        let live = live_entries(s, now);
        let rest = live_entries(s.drop_first(), now);
        assert forall|k: int| 0 <= k < live.len() implies exists|i: int|
            0 <= i < s.len() && s[i] == #[trigger] live[k] by {
            if !(s[0].ttl <= now) && k == 0 {
                assert(s[0] == live[0]);
            } else {
                let k0: int = if s[0].ttl <= now {
                    k
                } else {
                    k - 1
                };
                assert(rest[k0] == live[k]);
                let i0 = choose|i: int| 0 <= i < s.drop_first().len() && s.drop_first()[i]
                    == rest[k0];
                assert(s[i0 + 1] == live[k]);
            }
        }
        assert forall|id: Seq<char>| #[trigger] has_id(live, id) implies has_id(s, id) by {
            let k = choose|k: int| 0 <= k < live.len() && live[k].id == id;
            let i = choose|i: int| 0 <= i < s.len() && s[i] == live[k];
            assert(s[i].id == id);
        }
    }
}

/// A sweep keeps ids unique.
pub proof fn lemma_live_entries_unique(s: Seq<EntryV>, now: u64)
    requires
        unique_ids(s),
    ensures
        unique_ids(live_entries(s, now)),
    decreases s.len(),
{
    if s.len() > 0 {
        assert(forall|i: int, j: int| 0 <= i < j < s.drop_first().len() ==> s.drop_first()[i].id
            != s.drop_first()[j].id);
        lemma_live_entries_unique(s.drop_first(), now);
        lemma_live_entries_sub(s.drop_first(), now);
        let live = live_entries(s, now);
        let rest = live_entries(s.drop_first(), now);
        if !(s[0].ttl <= now) {
            assert forall|i: int, j: int| 0 <= i < j < live.len() implies live[i].id
                != live[j].id by {
                if i == 0 {
                    assert(live[j] == rest[j - 1]);
                    if live[0].id == live[j].id {
                        assert(has_id(rest, live[0].id));
                        assert(has_id(s.drop_first(), live[0].id));
                        let w = choose|w: int| 0 <= w < s.drop_first().len() && s.drop_first()[w].id
                            == live[0].id;
                        assert(s[w + 1].id == s[0].id);
                    }
                } else {
                    assert(live[i] == rest[i - 1] && live[j] == rest[j - 1]);
                }
            }
        }
    }
}

/// The (id, address) pairs of the entries of `s` other than `excl`, in
/// order: what a membership answer reports to the peer `excl`.
pub open spec fn members_excluding_spec(s: Seq<EntryV>, excl: Seq<char>) -> Seq<
    (Seq<char>, PeerAddr),
>
    decreases s.len(),
{
    if s.len() == 0 {
        Seq::empty()
    } else if s[0].id == excl {
        members_excluding_spec(s.drop_first(), excl)
    } else {
        seq![(s[0].id, s[0].addr)] + members_excluding_spec(s.drop_first(), excl)
    }
}

/// Appending an entry appends its pair when it is not the excluded peer.
pub proof fn lemma_members_excluding_push(s: Seq<EntryV>, excl: Seq<char>, e: EntryV)
    ensures
        members_excluding_spec(s.push(e), excl) == members_excluding_spec(s, excl) + (if e.id
            == excl {
            Seq::<(Seq<char>, PeerAddr)>::empty()
        } else {
            seq![(e.id, e.addr)]
        }),
    decreases s.len(),
{
    if s.len() == 0 {
        assert(s.push(e)[0] == e);
        assert(s.push(e).drop_first() =~= Seq::<EntryV>::empty());
        assert(members_excluding_spec(Seq::<EntryV>::empty(), excl) == Seq::<
            (Seq<char>, PeerAddr),
        >::empty());
        assert(members_excluding_spec(s.push(e), excl) =~= members_excluding_spec(s, excl) + (
        if e.id == excl {
            Seq::<(Seq<char>, PeerAddr)>::empty()
        } else {
            seq![(e.id, e.addr)]
        }));
    } else {
        assert(s.push(e)[0] == s[0]);
        assert(s.push(e).drop_first() =~= s.drop_first().push(e));
        lemma_members_excluding_push(s.drop_first(), excl, e);
        assert(members_excluding_spec(s.push(e), excl) =~= members_excluding_spec(s, excl) + (
        if e.id == excl {
            Seq::<(Seq<char>, PeerAddr)>::empty()
        } else {
            seq![(e.id, e.addr)]
        }));
    }
}

/// Every reported pair is the id and address of one of the entries, and
/// is not the excluded id.
pub proof fn lemma_members_excluding_sub(s: Seq<EntryV>, excl: Seq<char>)
    ensures
        forall|k: int| 0 <= k < members_excluding_spec(s, excl).len() ==> exists|i: int|
            0 <= i < s.len() && #[trigger] members_excluding_spec(s, excl)[k] == (s[i].id, s[i].addr)
                && s[i].id != excl,
    decreases s.len(),
{
    if s.len() > 0 {
        lemma_members_excluding_sub(s.drop_first(), excl);
        let ms = members_excluding_spec(s, excl);
        let rest = members_excluding_spec(s.drop_first(), excl);
        assert forall|k: int| 0 <= k < ms.len() implies exists|i: int|
            0 <= i < s.len() && #[trigger] ms[k] == (s[i].id, s[i].addr) && s[i].id != excl by {
            if s[0].id != excl && k == 0 {
                assert(ms[0] == (s[0].id, s[0].addr));
            } else {
                let k0: int = if s[0].id == excl {
                    k
                } else {
                    k - 1
                };
                assert(rest[k0] == ms[k]);
                let i0 = choose|i: int|
                    0 <= i < s.drop_first().len() && rest[k0] == (s.drop_first()[i].id,
                    s.drop_first()[i].addr) && s.drop_first()[i].id != excl;
                assert(ms[k] == (s[i0 + 1].id, s[i0 + 1].addr));
            }
        }
    }
}

/// An entry list after renewing `id` by `extension`: matching entries get
/// the extended expiry, the rest are untouched.
pub open spec fn renew_seq(s: Seq<EntryV>, id: Seq<char>, extension: u64) -> Seq<EntryV> {
    Seq::new(
        s.len(),
        |i: int|
            if s[i].id == id {
                EntryV { ttl: spec_sat_add(s[i].ttl, extension), ..s[i] }
            } else {
                s[i]
            },
    )
}

/// The liveness law of a renewal: after an entry's expiry is extended, it
/// reports "not expired" at every instant before its new deadline, and
/// "expired" at every instant from the new deadline on. (An entry that was
/// already expired by more than the extension has its new deadline in the
/// past, and so still reports "expired" at the present instant.)
pub proof fn lemma_renewal_expiry(e: EntryV, extension: u64, now: u64, later: u64)
    ensures
        now < spec_sat_add(e.ttl, extension) ==> !((EntryV {
            ttl: spec_sat_add(e.ttl, extension),
            ..e
        }).ttl <= now),
        later >= spec_sat_add(e.ttl, extension) ==> ((EntryV {
            ttl: spec_sat_add(e.ttl, extension),
            ..e
        }).ttl <= later),
{
}

// ------------------------------------------------------------------
// NeighbourMap
// ------------------------------------------------------------------

/// The peers of one group, in insertion order, deduplicated by id.
#[verifier::ext_equal]
#[derive(Clone, PartialEq, Eq, Debug)]
pub struct NeighbourMap {
    pub peers: Vec<NeighbourEntry>,
}

impl View for NeighbourMap {
    type V = Seq<EntryV>;

    open spec fn view(&self) -> Seq<EntryV> {
        entries_view(self.peers@)
    }
}

impl NeighbourMap {
    /// Ids are unique and each fits the wire protocol's 32-byte id field,
    /// so every entry can be reported in a membership answer.
    pub open spec fn wf(self) -> bool {
        entries_wf(self@)
    }

    pub fn new() -> (m: NeighbourMap)
        ensures
            m@ == Seq::<EntryV>::empty(),
            m.wf(),
    {
        let m = NeighbourMap { peers: Vec::new() };
        proof {
            assert(m@ =~= Seq::<EntryV>::empty());
        }
        m
    }

    pub fn count(&self) -> (n: usize)
        ensures
            n == self@.len(),
    {
        self.peers.len()
    }

    /// The entry at position `i`, in insertion order.
    pub fn get(&self, i: usize) -> (e: &NeighbourEntry)
        requires
            i < self@.len(),
        ensures
            e@ == self@[i as int],
    {
        &self.peers[i]
    }

    pub fn contains_peer(&self, peer_id: &str) -> (r: bool)
        ensures
            r == has_id(self@, peer_id@),
    {
        let mut i: usize = 0;
        while i < self.peers.len()
            invariant
                i <= self@.len(),
                forall|j: int| 0 <= j < i ==> #[trigger] self@[j].id != peer_id@,
            decreases self@.len() - i,
        {
            if str_eq(self.peers[i].id.as_str(), peer_id) {
                proof {
                    assert(self@[i as int].id == peer_id@);
                }
                return true;
            }
            i = i + 1;
        }
        false
    }

    /// Add a peer unless its id is already present: the first writer wins
    /// and a later insert for the same id changes nothing.
    pub fn insert(&mut self, peer: NeighbourEntry)
        requires
            old(self).wf(),
            str_utf8(peer.id@).len() <= 32,
        ensures
            final(self).wf(),
            has_id(old(self)@, peer.id@) ==> final(self)@ == old(self)@,
            !has_id(old(self)@, peer.id@) ==> final(self)@ == old(self)@.push(peer@),
    {
        if !self.contains_peer(peer.id.as_str()) {
            self.peers.push(peer);
            proof {
                assert(self@ =~= old(self)@.push(peer@));
            }
        }
    }

    /// The entry for `peer_id`, if present.
    pub fn find_peer(&self, peer_id: &str) -> (r: Option<&NeighbourEntry>)
        ensures
            r is Some <==> has_id(self@, peer_id@),
            r is Some ==> exists|i: int|
                0 <= i < self@.len() && r->Some_0@ == #[trigger] self@[i] && self@[i].id
                    == peer_id@,
    {
        let mut i: usize = 0;
        while i < self.peers.len()
            invariant
                i <= self@.len(),
                forall|j: int| 0 <= j < i ==> #[trigger] self@[j].id != peer_id@,
            decreases self@.len() - i,
        {
            if str_eq(self.peers[i].id.as_str(), peer_id) {
                proof {
                    assert(self@[i as int].id == peer_id@);
                }
                return Some(&self.peers[i]);
            }
            i = i + 1;
        }
        None
    }

    /// Extend the expiry of the entry for `peer_id` by `extension`;
    /// silently do nothing if no such entry exists.
    pub fn renew(&mut self, peer_id: &str, extension: u64) -> (found: bool)
        ensures
            found == has_id(old(self)@, peer_id@),
            final(self)@ == renew_seq(old(self)@, peer_id@, extension),
    {
        let mut found = false;
        let mut i: usize = 0;
        let n = self.peers.len();
        while i < n
            invariant
                i <= n,
                n == self@.len(),
                old(self)@.len() == n,
                forall|j: int| i <= j < n ==> #[trigger] self@[j] == old(self)@[j],
                forall|j: int| 0 <= j < i ==> #[trigger] self@[j] == renew_seq(
                    old(self)@,
                    peer_id@,
                    extension,
                )[j],
                found == has_id(old(self)@.subrange(0, i as int), peer_id@),
            decreases n - i,
        {
            let ghost pre = self@;
            let hit = str_eq(self.peers[i].id.as_str(), peer_id);
            if hit {
                let e = &mut self.peers[i];
                let t = e.ttl;
                e.ttl = t.saturating_add(extension);
                found = true;
            }
            proof {
                if hit {
                    assert(pre[i as int].id == peer_id@);
                    assert(self@[i as int] == (EntryV {
                        ttl: spec_sat_add(pre[i as int].ttl, extension),
                        ..pre[i as int]
                    }));
                    assert(forall|j: int| 0 <= j < n && j != i ==> #[trigger] self@[j] == pre[j]);
                    assert(old(self)@.subrange(0, i + 1 as int)[i as int] == old(self)@[i as int]);
                } else {
                    assert(pre[i as int].id != peer_id@);
                }
                assert(old(self)@.subrange(0, i + 1 as int) =~= old(self)@.subrange(0, i as int)
                    .push(old(self)@[i as int]));
                if !found {
                    assert(!has_id(old(self)@.subrange(0, i + 1 as int), peer_id@)) by {
                        assert(forall|j: int|
                            0 <= j < i + 1 ==> #[trigger] old(self)@.subrange(0, i + 1 as int)[j]
                                == old(self)@[j]);
                    }
                }
            }
            i = i + 1;
        }
        proof {
            assert(old(self)@.subrange(0, n as int) =~= old(self)@);
            assert(final(self)@ =~= renew_seq(old(self)@, peer_id@, extension));
        }
        found
    }

    /// Remove exactly the entries whose expiry is at or before `now`,
    /// keeping the survivors in their original order.
    pub fn remove_expired(&mut self, now: u64)
        ensures
            final(self)@ == live_entries(old(self)@, now),
    {
        let mut kept: Vec<NeighbourEntry> = Vec::new();
        let mut i: usize = 0;
        let n = self.peers.len();
        proof {
            assert(entries_view(kept@) =~= Seq::<EntryV>::empty());
        }
        while i < n
            invariant
                i <= n,
                n == self@.len(),
                self@ == old(self)@,
                entries_view(kept@) == live_entries(self@.subrange(0, i as int), now),
            decreases n - i,
        {
            proof {
                assert(self@.subrange(0, i + 1 as int) =~= self@.subrange(0, i as int).push(
                    self@[i as int],
                ));
                lemma_live_entries_push(self@.subrange(0, i as int), now, self@[i as int]);
            }
            let e = &self.peers[i];
            if !(e.ttl <= now) {
                kept.push(e.duplicate());
            }
            proof {
                assert(entries_view(kept@) =~= live_entries(self@.subrange(0, i + 1 as int), now));
            }
            i = i + 1;
        }
        proof {
            assert(self@.subrange(0, n as int) =~= self@);
        }
        self.peers = kept;
    }

    /// The (id, address) pairs of every entry except `excluding`, in
    /// order.
    pub fn members_excluding(&self, excluding: &str) -> (r: Vec<(String, PeerAddr)>)
        ensures
            peers_view(r@) == members_excluding_spec(self@, excluding@),
    {
        let mut out: Vec<(String, PeerAddr)> = Vec::new();
        let mut i: usize = 0;
        let n = self.peers.len();
        proof {
            assert(peers_view(out@) =~= Seq::<(Seq<char>, PeerAddr)>::empty());
        }
        while i < n
            invariant
                i <= n,
                n == self@.len(),
                peers_view(out@) == members_excluding_spec(self@.subrange(0, i as int), excluding@),
            decreases n - i,
        {
            proof {
                assert(self@.subrange(0, i + 1 as int) =~= self@.subrange(0, i as int).push(
                    self@[i as int],
                ));
                lemma_members_excluding_push(self@.subrange(0, i as int), excluding@, self@[i as int]);
            }
            let e = &self.peers[i];
            if !str_eq(e.id.as_str(), excluding) {
                out.push((e.id.clone(), e.addr));
            }
            proof {
                assert(peers_view(out@) =~= members_excluding_spec(
                    self@.subrange(0, i + 1 as int),
                    excluding@,
                ));
            }
            i = i + 1;
        }
        proof {
            assert(self@.subrange(0, n as int) =~= self@);
        }
        out
    }

    /// An equal, independently owned copy.
    pub fn duplicate(&self) -> (r: NeighbourMap)
        ensures
            r@ == self@,
    {
        let mut peers: Vec<NeighbourEntry> = Vec::new();
        let mut i: usize = 0;
        let n = self.peers.len();
        proof {
            assert(entries_view(peers@) =~= Seq::<EntryV>::empty());
        }
        while i < n
            invariant
                i <= n,
                n == self@.len(),
                entries_view(peers@) == self@.subrange(0, i as int),
            decreases n - i,
        {
            peers.push(self.peers[i].duplicate());
            proof {
                assert(self@.subrange(0, i + 1 as int) =~= self@.subrange(0, i as int).push(
                    self@[i as int],
                ));
                assert(entries_view(peers@) =~= self@.subrange(0, i + 1 as int));
            }
            i = i + 1;
        }
        proof {
            assert(self@.subrange(0, n as int) =~= self@);
        }
        NeighbourMap { peers }
    }
}

// ------------------------------------------------------------------
// NeighbourDirectory
// ------------------------------------------------------------------

/// One group and its peers.
#[verifier::ext_equal]
#[derive(Clone, PartialEq, Eq, Debug)]
pub struct GroupEntry {
    pub name: String,
    pub members: NeighbourMap,
}

/// The mathematical value of a group: its name and its entry list.
#[verifier::ext_equal]
pub struct GroupEntryV {
    pub name: Seq<char>,
    pub members: Seq<EntryV>,
}

impl View for GroupEntry {
    type V = GroupEntryV;

    open spec fn view(&self) -> GroupEntryV {
        GroupEntryV { name: self.name@, members: self.members@ }
    }
}

/// The group views of a group list.
pub open spec fn groups_view(gs: Seq<GroupEntry>) -> Seq<GroupEntryV> {
    gs.map_values(|g: GroupEntry| g@)
}

/// Some group in `d` is named `name`.
pub open spec fn has_group(d: Seq<GroupEntryV>, name: Seq<char>) -> bool {
    exists|i: int| 0 <= i < d.len() && #[trigger] d[i].name == name
}

/// The position of the group named `name`.
pub open spec fn group_index(d: Seq<GroupEntryV>, name: Seq<char>) -> int {
    choose|i: int| 0 <= i < d.len() && #[trigger] d[i].name == name
}

/// No two groups share a name.
pub open spec fn unique_group_names(d: Seq<GroupEntryV>) -> bool {
    forall|i: int, j: int| 0 <= i < j < d.len() ==> d[i].name != d[j].name
}

/// A directory after `insert`: a new entry is appended to its group, the
/// group itself being created at the end if absent; an entry whose
/// (group, id) is already present leaves the directory unchanged, so the
/// first writer wins on the address.
pub open spec fn spec_insert(d: Seq<GroupEntryV>, group: Seq<char>, peer: EntryV) -> Seq<
    GroupEntryV,
> {
    if has_group(d, group) {
        let gi = group_index(d, group);
        if has_id(d[gi].members, peer.id) {
            d
        } else {
            d.update(gi, GroupEntryV { name: d[gi].name, members: d[gi].members.push(peer) })
        }
    } else {
        d.push(GroupEntryV { name: group, members: seq![peer] })
    }
}

/// The addresses of every entry of every group, groups in order, entries
/// in insertion order within each group.
pub open spec fn all_addrs(d: Seq<GroupEntryV>) -> Seq<PeerAddr>
    decreases d.len(),
{
    if d.len() == 0 {
        Seq::empty()
    } else {
        addrs_of(d[0].members) + all_addrs(d.drop_first())
    }
}

/// The addresses of an entry list, in order.
pub open spec fn addrs_of(s: Seq<EntryV>) -> Seq<PeerAddr> {
    s.map_values(|e: EntryV| e.addr)
}

/// Splitting off the last group splits the address list.
pub proof fn lemma_all_addrs_push(d: Seq<GroupEntryV>, g: GroupEntryV)
    ensures
        all_addrs(d.push(g)) == all_addrs(d) + addrs_of(g.members),
    decreases d.len(),
{
    if d.len() == 0 {
        assert(d.push(g)[0] == g);
        assert(d.push(g).drop_first() =~= Seq::<GroupEntryV>::empty());
        assert(all_addrs(Seq::<GroupEntryV>::empty()) == Seq::<PeerAddr>::empty());
        assert(all_addrs(d.push(g)) =~= all_addrs(d) + addrs_of(g.members));
    } else {
        assert(d.push(g)[0] == d[0]);
        assert(d.push(g).drop_first() =~= d.drop_first().push(g));
        lemma_all_addrs_push(d.drop_first(), g);
        assert(all_addrs(d.push(g)) =~= all_addrs(d) + addrs_of(g.members));
    }
}

/// The per-group registry of known peers, one ordered entry list per
/// group name. All three runtime activities read and mutate one shared
/// directory; each operation here is a single short mutation, so a caller
/// can hold it under one lock acquisition and never across I/O.
#[verifier::ext_equal]
#[derive(Clone, PartialEq, Eq, Debug)]
pub struct NeighbourDirectory {
    pub groups: Vec<GroupEntry>,
}

impl View for NeighbourDirectory {
    type V = Seq<GroupEntryV>;

    open spec fn view(&self) -> Seq<GroupEntryV> {
        groups_view(self.groups@)
    }
}

impl NeighbourDirectory {
    /// Group names are unique and fit the 32-byte wire field, and every
    /// group's entry list is itself well-formed.
    pub open spec fn wf(self) -> bool {
        unique_group_names(self@) && forall|i: int|
            #![trigger self@[i]]
            0 <= i < self@.len() ==> (str_utf8(self@[i].name).len() <= 32 && entries_wf(
                self@[i].members,
            ))
    }

    pub fn new() -> (d: NeighbourDirectory)
        ensures
            d@ == Seq::<GroupEntryV>::empty(),
            d.wf(),
    {
        let d = NeighbourDirectory { groups: Vec::new() };
        proof {
            assert(d@ =~= Seq::<GroupEntryV>::empty());
        }
        d
    }

    pub fn group_count(&self) -> (n: usize)
        ensures
            n == self@.len(),
    {
        self.groups.len()
    }

    /// The group at position `i`, in creation order.
    pub fn group_at(&self, i: usize) -> (g: &GroupEntry)
        requires
            i < self@.len(),
        ensures
            g@ == self@[i as int],
    {
        &self.groups[i]
    }

    /// The position of the group named `group`, if present.
    fn find_group(&self, group: &str) -> (r: Option<usize>)
        ensures
            r is Some <==> has_group(self@, group@),
            r is Some ==> r->Some_0 < self@.len() && self@[r->Some_0 as int].name == group@,
    {
        let mut i: usize = 0;
        let n = self.groups.len();
        while i < n
            invariant
                i <= n,
                n == self@.len(),
                forall|j: int| 0 <= j < i ==> #[trigger] self@[j].name != group@,
            decreases n - i,
        {
            if str_eq(self.groups[i].name.as_str(), group) {
                proof {
                    assert(self@[i as int].name == group@);
                }
                return Some(i);
            }
            i = i + 1;
        }
        None
    }

    /// Is (group, peer id) present?
    pub fn contains(&self, group: &str, peer_id: &str) -> (r: bool)
        requires
            self.wf(),
        ensures
            r == (has_group(self@, group@) && has_id(
                self@[group_index(self@, group@)].members,
                peer_id@,
            )),
    {
        match self.find_group(group) {
            None => false,
            Some(gi) => {
                proof {
                    lemma_group_index_unique(self@, group@, gi as int);
                }
                self.groups[gi].members.contains_peer(peer_id)
            },
        }
    }

    /// Record a newly observed peer under `group` with the given expiry:
    /// a no-op if (group, id) is already present, so the first writer
    /// wins; the group is created if it does not exist yet.
    pub fn insert(&mut self, group: &str, peer: NeighbourEntry)
        requires
            old(self).wf(),
            str_utf8(group@).len() <= 32,
            str_utf8(peer.id@).len() <= 32,
        ensures
            final(self).wf(),
            final(self)@ == spec_insert(old(self)@, group@, peer@),
    {
        match self.find_group(group) {
            Some(gi) => {
                proof {
                    lemma_group_index_unique(self@, group@, gi as int);
                }
                let g = &mut self.groups[gi];
                g.members.insert(peer);
                proof {
                    assert(self@ =~= spec_insert(old(self)@, group@, peer@));
                }
            },
            None => {
                let ghost pv = peer@;
                let mut members = NeighbourMap::new();
                members.insert(peer);
                proof {
                    assert(members@ =~= seq![pv]);
                }
                self.groups.push(GroupEntry { name: group.to_owned(), members });
                proof {
                    assert(self@ =~= spec_insert(old(self)@, group@, pv));
                }
            },
        }
    }

    /// Extend the expiry of (group, peer id) by `extension`; silently do
    /// nothing if the group or the entry does not exist. An `Alive` from
    /// an unknown peer id is not auto-registered.
    pub fn renew(&mut self, group: &str, peer_id: &str, extension: u64) -> (found: bool)
        requires
            old(self).wf(),
        ensures
            final(self).wf(),
            found == (has_group(old(self)@, group@) && has_id(
                old(self)@[group_index(old(self)@, group@)].members,
                peer_id@,
            )),
            final(self)@.len() == old(self)@.len(),
            forall|j: int| 0 <= j < old(self)@.len() ==> #[trigger] final(self)@[j] == (
            if has_group(old(self)@, group@) && j == group_index(old(self)@, group@) {
                GroupEntryV {
                    name: old(self)@[j].name,
                    members: renew_seq(old(self)@[j].members, peer_id@, extension),
                }
            } else {
                old(self)@[j]
            }),
    {
        let r = match self.find_group(group) {
            None => false,
            Some(gi) => {
                proof {
                    lemma_group_index_unique(self@, group@, gi as int);
                }
                let g = &mut self.groups[gi];
                g.members.renew(peer_id, extension)
            },
        };
        proof {
            lemma_renew_seq_wf(old(self)@, self@, peer_id@, extension);
        }
        r
    }

    /// Extend the expiry of every entry named `peer_id`, in every group,
    /// by `extension`. Reports whether any entry matched.
    pub fn renew_all(&mut self, peer_id: &str, extension: u64) -> (found: bool)
        requires
            old(self).wf(),
        ensures
            final(self).wf(),
            found == (exists|j: int|
                0 <= j < old(self)@.len() && has_id(#[trigger] old(self)@[j].members, peer_id@)),
            final(self)@.len() == old(self)@.len(),
            forall|j: int| 0 <= j < old(self)@.len() ==> #[trigger] final(self)@[j] == (
            GroupEntryV {
                name: old(self)@[j].name,
                members: renew_seq(old(self)@[j].members, peer_id@, extension),
            }),
    {
        let mut found = false;
        let mut i: usize = 0;
        let n = self.groups.len();
        while i < n
            invariant
                i <= n,
                n == self@.len(),
                old(self)@.len() == n,
                forall|j: int| i <= j < n ==> #[trigger] self@[j] == old(self)@[j],
                forall|j: int| 0 <= j < i ==> #[trigger] self@[j] == (GroupEntryV {
                    name: old(self)@[j].name,
                    members: renew_seq(old(self)@[j].members, peer_id@, extension),
                }),
                found == (exists|j: int|
                    0 <= j < i && has_id(#[trigger] old(self)@[j].members, peer_id@)),
            decreases n - i,
        {
            let ghost pre = self@;
            let g = &mut self.groups[i];
            let r = g.members.renew(peer_id, extension);
            if r {
                found = true;
            }
            proof {
                assert(self@[i as int] == (GroupEntryV {
                    name: pre[i as int].name,
                    members: renew_seq(pre[i as int].members, peer_id@, extension),
                }));
                assert(forall|j: int| 0 <= j < n && j != i ==> #[trigger] self@[j] == pre[j]);
            }
            i = i + 1;
        }
        proof {
            lemma_renew_seq_wf(old(self)@, self@, peer_id@, extension);
        }
        found
    }

    /// Remove, in every group, exactly the entries whose expiry is at or
    /// before `now`, preserving the insertion order of the survivors.
    /// Groups themselves persist even when emptied.
    pub fn sweep(&mut self, now: u64)
        requires
            old(self).wf(),
        ensures
            final(self).wf(),
            final(self)@.len() == old(self)@.len(),
            forall|j: int| 0 <= j < old(self)@.len() ==> #[trigger] final(self)@[j] == (
            GroupEntryV {
                name: old(self)@[j].name,
                members: live_entries(old(self)@[j].members, now),
            }),
    {
        let mut i: usize = 0;
        let n = self.groups.len();
        while i < n
            invariant
                i <= n,
                n == self@.len(),
                old(self)@.len() == n,
                forall|j: int| i <= j < n ==> #[trigger] self@[j] == old(self)@[j],
                forall|j: int| 0 <= j < i ==> #[trigger] self@[j] == (GroupEntryV {
                    name: old(self)@[j].name,
                    members: live_entries(old(self)@[j].members, now),
                }),
            decreases n - i,
        {
            let ghost pre = self@;
            let g = &mut self.groups[i];
            g.members.remove_expired(now);
            proof {
                assert(self@[i as int] == (GroupEntryV {
                    name: pre[i as int].name,
                    members: live_entries(pre[i as int].members, now),
                }));
                assert(forall|j: int| 0 <= j < n && j != i ==> #[trigger] self@[j] == pre[j]);
            }
            i = i + 1;
        }
        proof {
            assert forall|j: int| 0 <= j < self@.len() implies (str_utf8(
                #[trigger] self@[j].name,
            ).len() <= 32 && entries_wf(self@[j].members)) by {
                assert(self@[j].name == old(self)@[j].name);
                assert(entries_wf(old(self)@[j].members));
                lemma_live_entries_unique(old(self)@[j].members, now);
                lemma_live_entries_sub(old(self)@[j].members, now);
                let live = live_entries(old(self)@[j].members, now);
                assert forall|k: int| #![trigger live[k]] 0 <= k < live.len() implies str_utf8(
                    live[k].id,
                ).len() <= 32 by {
                    let w = choose|w: int|
                        0 <= w < old(self)@[j].members.len() && old(self)@[j].members[w] == live[k];
                }
            }
            assert forall|a: int, b: int| 0 <= a < b < self@.len() implies self@[a].name
                != self@[b].name by {
                assert(self@[a].name == old(self)@[a].name);
                assert(self@[b].name == old(self)@[b].name);
            }
        }
    }

    /// The (id, address) pairs of the group named `group`, excluding the
    /// peer `excluding`; empty if the group does not exist.
    pub fn members(&self, group: &str, excluding: &str) -> (r: Vec<(String, PeerAddr)>)
        requires
            self.wf(),
        ensures
            has_group(self@, group@) ==> peers_view(r@) == members_excluding_spec(
                self@[group_index(self@, group@)].members,
                excluding@,
            ),
            !has_group(self@, group@) ==> r@.len() == 0,
    {
        match self.find_group(group) {
            None => Vec::new(),
            Some(gi) => {
                proof {
                    lemma_group_index_unique(self@, group@, gi as int);
                }
                self.groups[gi].members.members_excluding(excluding)
            },
        }
    }

    /// The address of every known peer, groups in creation order, entries
    /// in insertion order.
    pub fn all_addresses(&self) -> (r: Vec<PeerAddr>)
        ensures
            r@ == all_addrs(self@),
    {
        let mut out: Vec<PeerAddr> = Vec::new();
        let mut i: usize = 0;
        let n = self.groups.len();
        proof {
            assert(self@.subrange(0, 0) =~= Seq::<GroupEntryV>::empty());
        }
        while i < n
            invariant
                i <= n,
                n == self@.len(),
                out@ == all_addrs(self@.subrange(0, i as int)),
            decreases n - i,
        {
            let g = &self.groups[i];
            let m = g.members.count();
            let mut k: usize = 0;
            while k < m
                invariant
                    k <= m,
                    i < n,
                    n == self@.len(),
                    m == self@[i as int].members.len(),
                    g@ == self@[i as int],
                    out@ == all_addrs(self@.subrange(0, i as int)) + addrs_of(
                        self@[i as int].members.subrange(0, k as int),
                    ),
                decreases m - k,
            {
                out.push(g.members.get(k).addr);
                proof {
                    let ms = self@[i as int].members;
                    assert(ms.subrange(0, k + 1 as int) =~= ms.subrange(0, k as int).push(
                        ms[k as int],
                    ));
                    assert(addrs_of(ms.subrange(0, k + 1 as int)) =~= addrs_of(
                        ms.subrange(0, k as int),
                    ).push(ms[k as int].addr));
                    assert(out@ =~= all_addrs(self@.subrange(0, i as int)) + addrs_of(
                        ms.subrange(0, k + 1 as int),
                    ));
                }
                k = k + 1;
            }
            proof {
                let ms = self@[i as int].members;
                assert(ms.subrange(0, ms.len() as int) =~= ms);
                assert(self@.subrange(0, i + 1 as int) =~= self@.subrange(0, i as int).push(
                    self@[i as int],
                ));
                lemma_all_addrs_push(self@.subrange(0, i as int), self@[i as int]);
                assert(out@ =~= all_addrs(self@.subrange(0, i + 1 as int)));
            }
            i = i + 1;
        }
        proof {
            assert(self@.subrange(0, n as int) =~= self@);
        }
        out
    }

    /// A read-only copy of the whole directory, equal in value, for
    /// introspection and diagnostics.
    pub fn snapshot(&self) -> (r: NeighbourDirectory)
        ensures
            r@ == self@,
    {
        let mut groups: Vec<GroupEntry> = Vec::new();
        let mut i: usize = 0;
        let n = self.groups.len();
        proof {
            assert(groups_view(groups@) =~= Seq::<GroupEntryV>::empty());
        }
        while i < n
            invariant
                i <= n,
                n == self@.len(),
                groups_view(groups@) == self@.subrange(0, i as int),
            decreases n - i,
        {
            let g = &self.groups[i];
            groups.push(GroupEntry { name: g.name.clone(), members: g.members.duplicate() });
            proof {
                assert(self@.subrange(0, i + 1 as int) =~= self@.subrange(0, i as int).push(
                    self@[i as int],
                ));
                assert(groups_view(groups@) =~= self@.subrange(0, i + 1 as int));
            }
            i = i + 1;
        }
        proof {
            assert(self@.subrange(0, n as int) =~= self@);
        }
        NeighbourDirectory { groups }
    }
}

/// Under unique group names, any index whose group carries the name is
/// the index that `group_index` picks.
proof fn lemma_group_index_unique(d: Seq<GroupEntryV>, name: Seq<char>, i: int)
    requires
        unique_group_names(d),
        0 <= i < d.len(),
        d[i].name == name,
    ensures
        group_index(d, name) == i,
        has_group(d, name),
{
    assert(has_group(d, name));
    let i0 = group_index(d, name);
    assert(0 <= i0 < d.len() && d[i0].name == name);
    if i0 < i {
        assert(d[i0].name != d[i].name);
    } else if i < i0 {
        assert(d[i].name != d[i0].name);
    }
}

/// Renewal changes no id and no order, so well-formedness survives it.
proof fn lemma_renew_seq_wf(
    old_d: Seq<GroupEntryV>,
    new_d: Seq<GroupEntryV>,
    id: Seq<char>,
    extension: u64,
)
    requires
        unique_group_names(old_d),
        forall|i: int|
            #![trigger old_d[i]]
            0 <= i < old_d.len() ==> (str_utf8(old_d[i].name).len() <= 32 && entries_wf(
                old_d[i].members,
            )),
        new_d.len() == old_d.len(),
        forall|j: int| 0 <= j < old_d.len() ==> (#[trigger] new_d[j] == old_d[j] || new_d[j] == (
        GroupEntryV { name: old_d[j].name, members: renew_seq(old_d[j].members, id, extension) })),
    ensures
        unique_group_names(new_d),
        forall|i: int|
            #![trigger new_d[i]]
            0 <= i < new_d.len() ==> (str_utf8(new_d[i].name).len() <= 32 && entries_wf(
                new_d[i].members,
            )),
{
    assert forall|i: int| 0 <= i < new_d.len() implies (str_utf8(#[trigger] new_d[i].name).len()
        <= 32 && entries_wf(new_d[i].members)) by {
        assert(new_d[i].name == old_d[i].name);
        if new_d[i] != old_d[i] {
            let olds = old_d[i].members;
            let news = renew_seq(olds, id, extension);
            assert(forall|k: int| 0 <= k < news.len() ==> #[trigger] news[k].id == olds[k].id);
        }
    }
    assert(forall|i: int| 0 <= i < new_d.len() ==> #[trigger] new_d[i].name == old_d[i].name);
}

} // verus!
