//! The protocol state machine of a running peer, as pure functions from
//! state and event to new state and actions.
//!
//! A host embeds these in three loops — a heartbeat timer, a datagram
//! dispatcher, and a command reader — that own the clock, the socket, the
//! channels and the lock around the shared [`NeighbourDirectory`]. Each
//! function here takes the directory, the event and the current instant,
//! mutates the directory as the protocol prescribes, and returns the
//! datagrams to send and the notifications to deliver; the host performs
//! them. Nothing here blocks, sleeps or reads a clock.

use vstd::prelude::*;
use crate::addr::{PeerAddr, TransportPacket};
use crate::errors::{ConstructionError, DecodeError, FormatError};
use crate::directory::{
    NeighbourDirectory, NeighbourEntry, EntryV, GroupEntryV, all_addrs, addrs_of, has_group,
    group_index, has_id, renew_seq, live_entries, members_excluding_spec, spec_insert,
    spec_sat_add, lemma_members_excluding_sub,
};
use crate::message::{
    str_utf8, zero_pad32, peers_view, encode_datagram, Alive, Chat, MemberRequest, MemberResponse,
    MessageContent, MessageType, Header, Message, MAGIC_HEADER,
};

verus! {

/// Period of the heartbeat loop: a sweep followed by an Alive broadcast.
pub const HEARTBEAT_INTERVAL_MS: u64 = 5000;

/// How far one Alive extends an entry's expiry.
pub const TTL_RENEWAL_MS: u64 = 30000;

/// Extra margin granted to a newly discovered peer, so that it survives
/// until its first Alive arrives.
pub const TTL_GRACE_MARGIN_MS: u64 = 120000;

/// Initial expiry window of a newly discovered peer.
pub const TTL_GRACE_MS: u64 = TTL_RENEWAL_MS + TTL_GRACE_MARGIN_MS;

/// The protocol version this peer speaks.
pub const PROTOCOL_VERSION: u8 = 1;

// ------------------------------------------------------------------
// Configuration
// ------------------------------------------------------------------

/// What a peer is born with: its own id, its group, the port the host
/// should bind, and optionally a bootstrap address to request membership
/// from at startup.
#[derive(Clone, Debug)]
pub struct PeerConfig {
    pub name: String,
    pub group: String,
    pub port: u16,
    pub bootstrap: Option<PeerAddr>,
}

impl PeerConfig {
    /// The configured names fit the wire format's 32-byte fields.
    pub open spec fn wf(self) -> bool {
        str_utf8(self.name@).len() <= 32 && str_utf8(self.group@).len() <= 32
    }

    /// Validate a configuration: an over-length peer name or group name
    /// is the one invalid configuration, rejected before anything runs.
    pub fn new(name: String, group: String, port: u16, bootstrap: Option<PeerAddr>) -> (r: Result<
        PeerConfig,
        ConstructionError,
    >)
        ensures
            r is Ok <==> (str_utf8(name@).len() <= 32 && str_utf8(group@).len() <= 32),
            r is Ok ==> r->Ok_0 == (PeerConfig { name, group, port, bootstrap }),
            r is Err ==> (r->Err_0 is OversizedName <==> str_utf8(name@).len() > 32),
    {
        if name.as_str().as_bytes().len() > 32 {
            return Err(ConstructionError::OversizedName);
        }
        if group.as_str().as_bytes().len() > 32 {
            return Err(ConstructionError::OversizedGroup);
        }
        Ok(PeerConfig { name, group, port, bootstrap })
    }
}

// ------------------------------------------------------------------
// Actions
// ------------------------------------------------------------------

/// What a protocol step asks the host to do: send one datagram, deliver
/// one chat line to the local user, or show a directory snapshot.
#[derive(Clone, Debug)]
pub enum Action {
    Send(TransportPacket),
    Deliver { peer_id: String, msg: String },
    Snapshot(NeighbourDirectory),
}

// ------------------------------------------------------------------
// Spec shorthand for whole-directory effects
// ------------------------------------------------------------------

/// Every group after renewing `id` by `ext` in all of them.
pub open spec fn renewed_all(d: Seq<GroupEntryV>, id: Seq<char>, ext: u64) -> Seq<GroupEntryV> {
    Seq::new(
        d.len(),
        |j: int| GroupEntryV { name: d[j].name, members: renew_seq(d[j].members, id, ext) },
    )
}

/// Every group after removing its entries expired at `now`.
pub open spec fn swept(d: Seq<GroupEntryV>, now: u64) -> Seq<GroupEntryV> {
    Seq::new(
        d.len(),
        |j: int| GroupEntryV { name: d[j].name, members: live_entries(d[j].members, now) },
    )
}

/// The directory after inserting each (id, address) pair in turn under
/// `group` with expiry `ttl`: pairs whose id is already present change
/// nothing.
pub open spec fn spec_insert_pairs(
    d: Seq<GroupEntryV>,
    group: Seq<char>,
    pairs: Seq<(Seq<char>, PeerAddr)>,
    ttl: u64,
) -> Seq<GroupEntryV>
    decreases pairs.len(),
{
    if pairs.len() == 0 {
        d
    } else {
        spec_insert_pairs(
            spec_insert(d, group, EntryV { id: pairs[0].0, addr: pairs[0].1, ttl }),
            group,
            pairs.drop_first(),
            ttl,
        )
    }
}

/// Inserting one more pair is one more insert at the end.
pub proof fn lemma_spec_insert_pairs_push(
    d: Seq<GroupEntryV>,
    group: Seq<char>,
    pairs: Seq<(Seq<char>, PeerAddr)>,
    p: (Seq<char>, PeerAddr),
    ttl: u64,
)
    ensures
        spec_insert_pairs(d, group, pairs.push(p), ttl) == spec_insert(
            spec_insert_pairs(d, group, pairs, ttl),
            group,
            EntryV { id: p.0, addr: p.1, ttl },
        ),
    decreases pairs.len(),
{
    if pairs.len() == 0 {
        let e = EntryV { id: p.0, addr: p.1, ttl };
        assert(pairs.push(p)[0] == p);
        assert(pairs.push(p).drop_first() =~= Seq::<(Seq<char>, PeerAddr)>::empty());
        assert(spec_insert_pairs(spec_insert(d, group, e), group, pairs.push(p).drop_first(), ttl)
            == spec_insert(d, group, e));
    } else {
        assert(pairs.push(p)[0] == pairs[0]);
        assert(pairs.push(p).drop_first() =~= pairs.drop_first().push(p));
        lemma_spec_insert_pairs_push(
            spec_insert(d, group, EntryV { id: pairs[0].0, addr: pairs[0].1, ttl }),
            group,
            pairs.drop_first(),
            p,
            ttl,
        );
    }
}

/// At most the first five of a member list: the protocol's cap on one
/// response.
pub open spec fn take5(ps: Seq<(Seq<char>, PeerAddr)>) -> Seq<(Seq<char>, PeerAddr)> {
    if ps.len() <= 5 {
        ps
    } else {
        ps.subrange(0, 5)
    }
}

/// The member list a response to `excl` about `group` reports: the
/// group's entries minus `excl`, capped at five.
pub open spec fn response_members(d: Seq<GroupEntryV>, group: Seq<char>, excl: Seq<char>) -> Seq<
    (Seq<char>, PeerAddr),
> {
    if has_group(d, group) {
        take5(members_excluding_spec(d[group_index(d, group)].members, excl))
    } else {
        Seq::empty()
    }
}

// ------------------------------------------------------------------
// Datagram builders
// ------------------------------------------------------------------

/// The complete Alive frame announcing `name`.
pub open spec fn alive_datagram(name: Seq<char>) -> Seq<u8> {
    (Header {
        magic_bytes: MAGIC_HEADER,
        version: PROTOCOL_VERSION,
        msg_type: MessageType::Alive,
        size: 32,
    }).spec_encoding() + zero_pad32(str_utf8(name))
}

/// The complete MemberRequest frame from `name` about `group`.
pub open spec fn member_request_datagram(name: Seq<char>, group: Seq<char>) -> Seq<u8> {
    (Header {
        magic_bytes: MAGIC_HEADER,
        version: PROTOCOL_VERSION,
        msg_type: MessageType::MemberReq,
        size: 64,
    }).spec_encoding() + zero_pad32(str_utf8(group)) + zero_pad32(str_utf8(name))
}

/// The complete Chat frame from `name` carrying `text`.
pub open spec fn chat_datagram(name: Seq<char>, text: Seq<char>) -> Seq<u8> {
    (Header {
        magic_bytes: MAGIC_HEADER,
        version: PROTOCOL_VERSION,
        msg_type: MessageType::Chat,
        size: (33 + str_utf8(text).len()) as u16,
    }).spec_encoding() + Chat::encoding_of(ChatVOf(name, text))
}

/// The chat payload value of a sender and a text.
pub open spec fn ChatVOf(name: Seq<char>, text: Seq<char>) -> crate::message::ChatV {
    crate::message::ChatV { peer_id: name, msg: text }
}

/// The complete MemberResponse frame about `group` listing `peers`.
pub open spec fn member_response_datagram(
    group: Seq<char>,
    peers: Seq<(Seq<char>, PeerAddr)>,
) -> Seq<u8> {
    (Header {
        magic_bytes: MAGIC_HEADER,
        version: PROTOCOL_VERSION,
        msg_type: MessageType::MemberRes,
        size: MemberResponse::encoding_of(
            crate::message::MemberResponseV { group, peers },
        ).len() as u16,
    }).spec_encoding() + MemberResponse::encoding_of(
        crate::message::MemberResponseV { group, peers },
    )
}

/// Build the Alive frame for this peer.
pub fn build_alive(name: &String) -> (r: Result<Vec<u8>, FormatError>)
    ensures
        r is Ok <==> str_utf8(name@).len() <= 32,
        r is Ok ==> r->Ok_0@ == alive_datagram(name@),
{
    let alive = Alive { peer_id: name.clone() };
    let r = encode_datagram(PROTOCOL_VERSION, MessageType::Alive, &alive);
    proof {
        if str_utf8(name@).len() <= 32 {
            assert(Alive::encoding_of(alive@).len() == 32);
        }
    }
    r
}

/// Build the MemberRequest frame for this peer and group.
pub fn build_member_request(name: &String, group: &String) -> (r: Result<Vec<u8>, FormatError>)
    ensures
        r is Ok <==> (str_utf8(name@).len() <= 32 && str_utf8(group@).len() <= 32),
        r is Ok ==> r->Ok_0@ == member_request_datagram(name@, group@),
{
    let req = MemberRequest { peer_id: name.clone(), group: group.clone() };
    let r = encode_datagram(PROTOCOL_VERSION, MessageType::MemberReq, &req);
    proof {
        if str_utf8(name@).len() <= 32 && str_utf8(group@).len() <= 32 {
            assert(MemberRequest::encoding_of(req@).len() == 64);
            if r is Ok {
                assert(r->Ok_0@ =~= member_request_datagram(name@, group@));
            }
        }
    }
    r
}

/// Build the Chat frame for this peer carrying `text`.
pub fn build_chat(name: &String, text: &String) -> (r: Result<Vec<u8>, FormatError>)
    ensures
        r is Ok <==> (str_utf8(name@).len() <= 32 && str_utf8(text@).len() <= 255),
        r is Ok ==> r->Ok_0@ == chat_datagram(name@, text@),
{
    let chat = Chat { peer_id: name.clone(), msg: text.clone() };
    let r = encode_datagram(PROTOCOL_VERSION, MessageType::Chat, &chat);
    proof {
        if str_utf8(name@).len() <= 32 && str_utf8(text@).len() <= 255 {
            assert(Chat::encoding_of(chat@).len() == 33 + str_utf8(text@).len());
        }
    }
    r
}

// ------------------------------------------------------------------
// Broadcast
// ------------------------------------------------------------------

/// One copy of `data` addressed to every known peer, in directory order.
pub fn broadcast_packets(dir: &NeighbourDirectory, data: &Vec<u8>) -> (r: Vec<TransportPacket>)
    ensures
        r@.len() == all_addrs(dir@).len(),
        forall|k: int| 0 <= k < r@.len() ==> (#[trigger] r@[k].socket_addr == all_addrs(dir@)[k]
            && r@[k].data@ == data@),
{
    let addrs = dir.all_addresses();
    let mut out: Vec<TransportPacket> = Vec::new();
    let mut i: usize = 0;
    let n = addrs.len();
    while i < n
        invariant
            i <= n,
            n == addrs@.len(),
            addrs@ == all_addrs(dir@),
            out@.len() == i,
            forall|k: int| 0 <= k < i ==> (#[trigger] out@[k].socket_addr == addrs@[k]
                && out@[k].data@ == data@),
        decreases n - i,
    {
        let copy = crate::message::subvec(data, 0, data.len());
        proof {
            assert(data@.subrange(0, data@.len() as int) =~= data@);
        }
        out.push(TransportPacket { socket_addr: addrs[i], data: copy });
        i = i + 1;
    }
    out
}

/// One `Send` of `data` to every known peer, in directory order.
fn broadcast_actions(dir: &NeighbourDirectory, data: &Vec<u8>) -> (r: Vec<Action>)
    ensures
        r@.len() == all_addrs(dir@).len(),
        forall|k: int| 0 <= k < r@.len() ==> (#[trigger] r@[k] matches Action::Send(p)
            && p.socket_addr == all_addrs(dir@)[k] && p.data@ == data@),
{
    let addrs = dir.all_addresses();
    let mut out: Vec<Action> = Vec::new();
    let mut i: usize = 0;
    let n = addrs.len();
    while i < n
        invariant
            i <= n,
            n == addrs@.len(),
            addrs@ == all_addrs(dir@),
            out@.len() == i,
            forall|k: int| 0 <= k < i ==> (#[trigger] out@[k] matches Action::Send(p)
                && p.socket_addr == addrs@[k] && p.data@ == data@),
        decreases n - i,
    {
        let copy = crate::message::subvec(data, 0, data.len());
        proof {
            assert(data@.subrange(0, data@.len() as int) =~= data@);
        }
        out.push(Action::Send(TransportPacket { socket_addr: addrs[i], data: copy }));
        i = i + 1;
    }
    out
}

// ------------------------------------------------------------------
// Inbound dispatch: the protocol state machine
// ------------------------------------------------------------------

/// An Alive from `alive`'s sender: extend the expiry of that peer id in
/// every group where it is known. An Alive from an unknown peer changes
/// nothing — liveness renewal never registers a peer.
pub fn handle_alive(dir: &mut NeighbourDirectory, alive: &Alive) -> (found: bool)
    requires
        old(dir).wf(),
    ensures
        final(dir).wf(),
        final(dir)@ == renewed_all(old(dir)@, alive.peer_id@, TTL_RENEWAL_MS),
        found == (exists|j: int|
            0 <= j < old(dir)@.len() && has_id(#[trigger] old(dir)@[j].members, alive.peer_id@)),
{
    let r = dir.renew_all(alive.peer_id.as_str(), TTL_RENEWAL_MS);
    proof {
        assert(dir@ =~= renewed_all(old(dir)@, alive.peer_id@, TTL_RENEWAL_MS));
    }
    r
}

/// A MemberRequest from `src`: record the requester under the packet's
/// source address — never an address claimed in the payload — with the
/// grace expiry, then answer with the group's members excluding the
/// requester, capped at the protocol's five entries per response.
pub fn handle_member_request(
    dir: &mut NeighbourDirectory,
    req: &MemberRequest,
    src: PeerAddr,
    now: u64,
) -> (r: Result<Vec<u8>, FormatError>)
    requires
        old(dir).wf(),
        str_utf8(req.group@).len() <= 32,
        str_utf8(req.peer_id@).len() <= 32,
    ensures
        final(dir).wf(),
        final(dir)@ == spec_insert(
            old(dir)@,
            req.group@,
            EntryV { id: req.peer_id@, addr: src, ttl: spec_sat_add(now, TTL_GRACE_MS) },
        ),
        r is Ok,
        r->Ok_0@ == member_response_datagram(
            req.group@,
            response_members(final(dir)@, req.group@, req.peer_id@),
        ),
{
    let ttl = now.saturating_add(TTL_GRACE_MS);
    let entry = NeighbourEntry::new(req.peer_id.clone(), src, ttl);
    dir.insert(req.group.as_str(), entry);
    proof {
        let d = dir@;
        let od = old(dir)@;
        if has_group(od, req.group@) {
            let gi = group_index(od, req.group@);
            assert(d[gi].name == req.group@);
        } else {
            assert(d[od.len() as int].name == req.group@);
        }
        assert(has_group(d, req.group@));
    }
    let mut members = dir.members(req.group.as_str(), req.peer_id.as_str());
    let ghost full = members_excluding_spec(
        dir@[group_index(dir@, req.group@)].members,
        req.peer_id@,
    );
    members.truncate(crate::message::MAX_RESPONSE_PEERS);
    proof {
        if full.len() <= 5 {
            assert(peers_view(members@) =~= take5(full));
        } else {
            assert(peers_view(members@) =~= full.subrange(0, 5));
        }
        lemma_members_excluding_sub(dir@[group_index(dir@, req.group@)].members, req.peer_id@);
        let gi = group_index(dir@, req.group@);
        assert(0 <= gi < dir@.len() && dir@[gi].name == req.group@);
        assert forall|k: int| 0 <= k < take5(full).len() implies str_utf8(
            #[trigger] take5(full)[k].0,
        ).len() <= 32 by {
            assert(take5(full)[k] == full[k]);
            let w = choose|w: int|
                0 <= w < dir@[gi].members.len() && full[k] == (dir@[gi].members[w].id,
                dir@[gi].members[w].addr) && dir@[gi].members[w].id != req.peer_id@;
        }
    }
    let res = match MemberResponse::new(req.group.as_str(), members) {
        Ok(res) => res,
        Err(e) => {
            proof {
                assert(false);
            }
            return Err(e);
        },
    };
    proof {
        crate::message::lemma_peers_bytes_len(res@.peers);
        assert(MemberResponse::encoding_of(res@).len() == 33 + 38 * res@.peers.len());
    }
    let bytes = match encode_datagram(PROTOCOL_VERSION, MessageType::MemberRes, &res) {
        Ok(bytes) => bytes,
        Err(e) => {
            proof {
                assert(false);
            }
            return Err(e);
        },
    };
    Ok(bytes)
}

/// A MemberResponse: record each listed peer that is not yet known, under
/// the address the response claims, with the grace expiry. Entries
/// already known are left untouched, so a stale gossiped response can
/// neither move a peer's address nor extend its life.
pub fn handle_member_response(dir: &mut NeighbourDirectory, res: &MemberResponse, now: u64)
    requires
        old(dir).wf(),
        str_utf8(res.group@).len() <= 32,
        forall|i: int| 0 <= i < res@.peers.len() ==> str_utf8(#[trigger] res@.peers[i].0).len()
            <= 32,
    ensures
        final(dir).wf(),
        final(dir)@ == spec_insert_pairs(
            old(dir)@,
            res.group@,
            res@.peers,
            spec_sat_add(now, TTL_GRACE_MS),
        ),
{
    let ttl = now.saturating_add(TTL_GRACE_MS);
    let mut i: usize = 0;
    let n = res.peers.len();
    proof {
        assert(res@.peers.subrange(0, 0) =~= Seq::<(Seq<char>, PeerAddr)>::empty());
    }
    while i < n
        invariant
            i <= n,
            n == res@.peers.len(),
            dir.wf(),
            str_utf8(res.group@).len() <= 32,
            forall|w: int| 0 <= w < res@.peers.len() ==> str_utf8(#[trigger] res@.peers[w].0).len()
                <= 32,
            ttl == spec_sat_add(now, TTL_GRACE_MS),
            dir@ == spec_insert_pairs(old(dir)@, res.group@, res@.peers.subrange(0, i as int), ttl),
        decreases n - i,
    {
        let p = &res.peers[i];
        let entry = NeighbourEntry::new(p.0.clone(), p.1, ttl);
        proof {
            assert(res@.peers[i as int] == (res.peers@[i as int].0@, res.peers@[i as int].1));
            assert(entry@ == (EntryV {
                id: res@.peers[i as int].0,
                addr: res@.peers[i as int].1,
                ttl,
            }));
        }
        dir.insert(res.group.as_str(), entry);
        proof {
            assert(res@.peers.subrange(0, i + 1 as int) =~= res@.peers.subrange(0, i as int).push(
                res@.peers[i as int],
            ));
            lemma_spec_insert_pairs_push(
                old(dir)@,
                res.group@,
                res@.peers.subrange(0, i as int),
                res@.peers[i as int],
                ttl,
            );
        }
        i = i + 1;
    }
    proof {
        assert(res@.peers.subrange(0, n as int) =~= res@.peers);
    }
}

/// A Chat: hand the sender's id and the text on to the local user.
pub fn handle_chat(chat: &Chat) -> (r: Action)
    ensures
        r matches Action::Deliver { peer_id, msg } && peer_id@ == chat.peer_id@ && msg@
            == chat.msg@,
{
    Action::Deliver { peer_id: chat.peer_id(), msg: chat.msg.clone() }
}

/// One step of the inbound dispatcher: decode one datagram and apply it.
///
/// A frame that does not decode — too short, wrong magic, unknown type
/// code, ill-shaped payload — is rejected with the matching error and
/// mutates nothing: the caller drops the datagram and its loop continues.
/// A frame that decodes is applied: an Alive renews its sender
/// everywhere, a MemberRequest registers the requester and produces the
/// response to send back to `src`, a MemberResponse registers the listed
/// peers it does not yet know, and a Chat becomes a delivery to the local
/// user.
pub fn handle_datagram(
    dir: &mut NeighbourDirectory,
    data: &Vec<u8>,
    src: PeerAddr,
    now: u64,
) -> (r: Result<Vec<Action>, DecodeError>)
    requires
        old(dir).wf(),
    ensures
        final(dir).wf(),
        r is Err ==> final(dir)@ == old(dir)@,
        r is Ok <==> (data@.len() >= 4 && match Header::spec_decode(data@.subrange(0, 4)) {
            Some(h) => match h.msg_type {
                MessageType::Alive => Message::<Alive>::spec_frame_decoding(data@) is Some,
                MessageType::MemberReq => Message::<MemberRequest>::spec_frame_decoding(data@)
                    is Some,
                MessageType::MemberRes => Message::<MemberResponse>::spec_frame_decoding(data@)
                    is Some,
                MessageType::Chat => Message::<Chat>::spec_frame_decoding(data@) is Some,
            },
            None => false,
        }),
        r is Ok ==> match Header::spec_decode(data@.subrange(0, 4))->Some_0.msg_type {
            MessageType::Alive => {
                let v = Message::<Alive>::spec_frame_decoding(data@)->Some_0.1;
                &&& final(dir)@ == renewed_all(old(dir)@, v.peer_id, TTL_RENEWAL_MS)
                &&& r->Ok_0@.len() == 0
            },
            MessageType::MemberReq => {
                let v = Message::<MemberRequest>::spec_frame_decoding(data@)->Some_0.1;
                &&& final(dir)@ == spec_insert(
                    old(dir)@,
                    v.group,
                    EntryV { id: v.peer_id, addr: src, ttl: spec_sat_add(now, TTL_GRACE_MS) },
                )
                &&& r->Ok_0@.len() == 1
                &&& (r->Ok_0@[0] matches Action::Send(p) && p.socket_addr == src && p.data@
                    == member_response_datagram(
                    v.group,
                    response_members(final(dir)@, v.group, v.peer_id),
                ))
            },
            MessageType::MemberRes => {
                let v = Message::<MemberResponse>::spec_frame_decoding(data@)->Some_0.1;
                &&& final(dir)@ == spec_insert_pairs(
                    old(dir)@,
                    v.group,
                    v.peers,
                    spec_sat_add(now, TTL_GRACE_MS),
                )
                &&& r->Ok_0@.len() == 0
            },
            MessageType::Chat => {
                let v = Message::<Chat>::spec_frame_decoding(data@)->Some_0.1;
                &&& final(dir)@ == old(dir)@
                &&& r->Ok_0@.len() == 1
                &&& (r->Ok_0@[0] matches Action::Deliver { peer_id, msg } && peer_id@ == v.peer_id
                    && msg@ == v.msg)
            },
        },
{
    let n = data.len();
    if n < 4 {
        return Err(DecodeError::Format(FormatError {
            error: String::from_str("datagram is shorter than a header"),
        }));
    }
    let header_bytes = crate::message::subvec(data, 0, 4);
    let header = match Header::decode(&header_bytes) {
        Ok(h) => h,
        Err(e) => {
            return Err(e);
        },
    };
    match header.msg_type() {
        MessageType::Alive => {
            let msg = match Message::<Alive>::decode(data) {
                Ok(m) => m,
                Err(e) => {
                    return Err(e);
                },
            };
            let alive = match msg.content {
                Some(c) => c,
                None => {
                    proof {
                        assert(false);
                    }
                    return Err(DecodeError::Format(FormatError {
                        error: String::from_str("alive payload is missing"),
                    }));
                },
            };
            handle_alive(dir, &alive);
            Ok(Vec::new())
        },
        MessageType::MemberReq => {
            let msg = match Message::<MemberRequest>::decode(data) {
                Ok(m) => m,
                Err(e) => {
                    return Err(e);
                },
            };
            let req = match msg.content {
                Some(c) => c,
                None => {
                    proof {
                        assert(false);
                    }
                    return Err(DecodeError::Format(FormatError {
                        error: String::from_str("member request payload is missing"),
                    }));
                },
            };
            proof {
                crate::message::lemma_member_request_decoding_wf(data@.skip(4));
            }
            let response = match handle_member_request(dir, &req, src, now) {
                Ok(bytes) => bytes,
                Err(e) => {
                    proof {
                        assert(false);
                    }
                    return Err(DecodeError::Format(e));
                },
            };
            let mut actions: Vec<Action> = Vec::new();
            actions.push(Action::Send(TransportPacket { socket_addr: src, data: response }));
            Ok(actions)
        },
        MessageType::MemberRes => {
            let msg = match Message::<MemberResponse>::decode(data) {
                Ok(m) => m,
                Err(e) => {
                    return Err(e);
                },
            };
            let res = match msg.content {
                Some(c) => c,
                None => {
                    proof {
                        assert(false);
                    }
                    return Err(DecodeError::Format(FormatError {
                        error: String::from_str("member response payload is missing"),
                    }));
                },
            };
            proof {
                crate::message::lemma_member_response_decoding_wf(data@.skip(4));
            }
            handle_member_response(dir, &res, now);
            Ok(Vec::new())
        },
        MessageType::Chat => {
            let msg = match Message::<Chat>::decode(data) {
                Ok(m) => m,
                Err(e) => {
                    return Err(e);
                },
            };
            let chat = match msg.content {
                Some(c) => c,
                None => {
                    proof {
                        assert(false);
                    }
                    return Err(DecodeError::Format(FormatError {
                        error: String::from_str("chat payload is missing"),
                    }));
                },
            };
            let mut actions: Vec<Action> = Vec::new();
            actions.push(handle_chat(&chat));
            Ok(actions)
        },
    }
}

// ------------------------------------------------------------------
// Heartbeat
// ------------------------------------------------------------------

/// One heartbeat: sweep every group's expired entries, then produce one
/// Alive for every peer still present. The sweep comes first, so an
/// expired peer never receives a final heartbeat.
pub fn heartbeat_tick(dir: &mut NeighbourDirectory, self_name: &String, now: u64) -> (r: Vec<
    TransportPacket,
>)
    requires
        old(dir).wf(),
        str_utf8(self_name@).len() <= 32,
    ensures
        final(dir).wf(),
        final(dir)@ == swept(old(dir)@, now),
        r@.len() == all_addrs(final(dir)@).len(),
        forall|k: int| 0 <= k < r@.len() ==> (#[trigger] r@[k].socket_addr == all_addrs(
            final(dir)@,
        )[k] && r@[k].data@ == alive_datagram(self_name@)),
{
    dir.sweep(now);
    proof {
        assert(dir@ =~= swept(old(dir)@, now));
    }
    let data = match build_alive(self_name) {
        Ok(d) => d,
        Err(_) => {
            proof {
                assert(false);
            }
            Vec::new()
        },
    };
    broadcast_packets(dir, &data)
}

// ------------------------------------------------------------------
// Startup
// ------------------------------------------------------------------

/// What a peer sends before its loops start: one MemberRequest to the
/// bootstrap address, if one was configured, to seed the directory.
pub fn startup_packets(cfg: &PeerConfig) -> (r: Vec<TransportPacket>)
    requires
        cfg.wf(),
    ensures
        cfg.bootstrap is None ==> r@.len() == 0,
        cfg.bootstrap matches Some(b) ==> (r@.len() == 1 && r@[0].socket_addr == b && r@[0].data@
            == member_request_datagram(cfg.name@, cfg.group@)),
{
    let mut out: Vec<TransportPacket> = Vec::new();
    if let Some(b) = &cfg.bootstrap {
        let data = match build_member_request(&cfg.name, &cfg.group) {
            Ok(d) => d,
            Err(_) => {
                proof {
                    assert(false);
                }
                Vec::new()
            },
        };
        out.push(TransportPacket { socket_addr: *b, data });
    }
    out
}

// ------------------------------------------------------------------
// The command loop's decisions
// ------------------------------------------------------------------

/// The ASCII whitespace stripped from around a command line.
pub open spec fn spec_is_ws(b: u8) -> bool {
    b == 0x20 || b == 0x09 || b == 0x0a || b == 0x0b || b == 0x0c || b == 0x0d
}

/// `b` with its leading whitespace removed.
pub open spec fn trim_front(b: Seq<u8>) -> Seq<u8>
    decreases b.len(),
{
    if b.len() > 0 && spec_is_ws(b[0]) {
        trim_front(b.drop_first())
    } else {
        b
    }
}

/// `b` with its trailing whitespace removed.
pub open spec fn trim_back(b: Seq<u8>) -> Seq<u8>
    decreases b.len(),
{
    if b.len() > 0 && spec_is_ws(b.last()) {
        trim_back(b.drop_last())
    } else {
        b
    }
}

/// `b` with whitespace removed from both ends.
pub open spec fn trimmed(b: Seq<u8>) -> Seq<u8> {
    trim_back(trim_front(b))
}

/// A line whose trimmed text is the control verb `peers`.
pub open spec fn is_peers_command(line: Seq<char>) -> bool {
    trimmed(str_utf8(line)) == str_utf8("peers"@)
}

/// A line whose trimmed text is the control verb `req`.
pub open spec fn is_req_command(line: Seq<char>) -> bool {
    trimmed(str_utf8(line)) == str_utf8("req"@)
}

/// When everything up to `k` is whitespace and `k` is not, the front
/// trim starts at `k`.
proof fn lemma_trim_front_skip(b: Seq<u8>, k: int)
    requires
        0 <= k <= b.len(),
        forall|j: int| 0 <= j < k ==> spec_is_ws(#[trigger] b[j]),
        k == b.len() || !spec_is_ws(b[k]),
    ensures
        trim_front(b) == b.skip(k),
    decreases k,
{
    if k == 0 {
        assert(b.skip(0) =~= b);
    } else {
        assert(spec_is_ws(b[0]));
        assert(forall|j: int| 0 <= j < k - 1 ==> spec_is_ws(#[trigger] b.drop_first()[j]));
        lemma_trim_front_skip(b.drop_first(), k - 1);
        assert(b.drop_first().skip(k - 1) =~= b.skip(k));
    }
}

/// When everything from `m` on is whitespace and `m - 1` is not, the
/// back trim ends at `m`.
proof fn lemma_trim_back_take(s: Seq<u8>, m: int)
    requires
        0 <= m <= s.len(),
        forall|j: int| m <= j < s.len() ==> spec_is_ws(#[trigger] s[j]),
        m == 0 || !spec_is_ws(s[m - 1]),
    ensures
        trim_back(s) == s.take(m),
    decreases s.len() - m,
{
    if m == s.len() {
        assert(s.take(m) =~= s);
    } else {
        assert(spec_is_ws(s.last()));
        assert(forall|j: int| m <= j < s.drop_last().len() ==> spec_is_ws(
            #[trigger] s.drop_last()[j],
        ));
        lemma_trim_back_take(s.drop_last(), m);
        assert(s.drop_last().take(m) =~= s.take(m));
    }
}

fn is_ws(b: u8) -> (r: bool)
    ensures
        r == spec_is_ws(b),
{
    b == 0x20 || b == 0x09 || b == 0x0a || b == 0x0b || b == 0x0c || b == 0x0d
}

/// The window `[lo, hi)` of `bytes` that remains after trimming
/// whitespace from both ends.
fn trimmed_range(bytes: &Vec<u8>) -> (r: (usize, usize))
    ensures
        r.0 <= r.1 <= bytes@.len(),
        bytes@.subrange(r.0 as int, r.1 as int) == trimmed(bytes@),
{
    let n = bytes.len();
    let mut lo: usize = 0;
    while lo < n && is_ws(bytes[lo])
        invariant
            lo <= n,
            n == bytes@.len(),
            forall|j: int| 0 <= j < lo ==> spec_is_ws(#[trigger] bytes@[j]),
        decreases n - lo,
    {
        lo = lo + 1;
    }
    proof {
        lemma_trim_front_skip(bytes@, lo as int);
    }
    let ghost tail = bytes@.skip(lo as int);
    let mut hi: usize = n;
    while hi > lo && is_ws(bytes[hi - 1])
        invariant
            lo <= hi <= n,
            n == bytes@.len(),
            forall|j: int| hi <= j < n ==> spec_is_ws(#[trigger] bytes@[j]),
        decreases hi,
    {
        hi = hi - 1;
    }
    proof {
        assert(forall|j: int| hi - lo <= j < tail.len() ==> spec_is_ws(#[trigger] tail[j]));
        lemma_trim_back_take(tail, hi - lo);
        assert(tail.take(hi - lo) =~= bytes@.subrange(lo as int, hi as int));
    }
    (lo, hi)
}

/// Is the window `[lo, hi)` of `a` exactly the bytes of `pat`?
fn window_eq(a: &Vec<u8>, lo: usize, hi: usize, pat: &Vec<u8>) -> (r: bool)
    requires
        lo <= hi <= a@.len(),
    ensures
        r == (a@.subrange(lo as int, hi as int) == pat@),
{
    if hi - lo != pat.len() {
        return false;
    }
    let mut i: usize = 0;
    let m = pat.len();
    while i < m
        invariant
            i <= m,
            m == pat@.len(),
            lo + m == hi <= a@.len(),
            forall|j: int| 0 <= j < i ==> a@[lo + j] == #[trigger] pat@[j],
        decreases m - i,
    {
        if a[lo + i] != pat[i] {
            return false;
        }
        i = i + 1;
    }
    proof {
        assert(a@.subrange(lo as int, hi as int) =~= pat@);
    }
    true
}

/// One step of the command loop, deciding what one input line means.
///
/// The control verb `peers` answers with a snapshot of the directory;
/// `req` re-sends a MemberRequest to every known peer and to the
/// bootstrap address — anti-entropy after lost responses. Any other line
/// is broadcast as a Chat to every known peer, and is refused only when
/// it exceeds the 255-byte chat field.
pub fn handle_command(dir: &NeighbourDirectory, cfg: &PeerConfig, line: &String) -> (r: Result<
    Vec<Action>,
    FormatError,
>)
    requires
        dir.wf(),
        cfg.wf(),
    ensures
        is_peers_command(line@) ==> (r is Ok && r->Ok_0@.len() == 1 && (r->Ok_0@[0] matches
        Action::Snapshot(d) && d@ == dir@)),
        !is_peers_command(line@) && is_req_command(line@) ==> (r is Ok && {
            let m = all_addrs(dir@).len() as int;
            &&& r->Ok_0@.len() == m + (if cfg.bootstrap is Some {
                1int
            } else {
                0int
            })
            &&& (forall|k: int|
                0 <= k < m ==> (#[trigger] r->Ok_0@[k] matches Action::Send(p) && p.socket_addr
                    == all_addrs(dir@)[k] && p.data@ == member_request_datagram(
                    cfg.name@,
                    cfg.group@,
                )))
            &&& (cfg.bootstrap matches Some(b) ==> (r->Ok_0@[m] matches Action::Send(p)
                && p.socket_addr == b && p.data@ == member_request_datagram(
                cfg.name@,
                cfg.group@,
            )))
        }),
        !is_peers_command(line@) && !is_req_command(line@) ==> {
            &&& (r is Ok <==> str_utf8(line@).len() <= 255)
            &&& r is Ok ==> (r->Ok_0@.len() == all_addrs(dir@).len() && forall|k: int|
                0 <= k < r->Ok_0@.len() ==> (#[trigger] r->Ok_0@[k] matches Action::Send(p)
                    && p.socket_addr == all_addrs(dir@)[k] && p.data@ == chat_datagram(
                    cfg.name@,
                    line@,
                )))
        },
{
    let bytes = line.as_str().as_bytes_vec();
    let (lo, hi) = trimmed_range(&bytes);
    let peers_verb = "peers".as_bytes_vec();
    if window_eq(&bytes, lo, hi, &peers_verb) {
        let mut actions: Vec<Action> = Vec::new();
        actions.push(Action::Snapshot(dir.snapshot()));
        return Ok(actions);
    }
    let req_verb = "req".as_bytes_vec();
    if window_eq(&bytes, lo, hi, &req_verb) {
        let data = match build_member_request(&cfg.name, &cfg.group) {
            Ok(d) => d,
            Err(_) => {
                proof {
                    assert(false);
                }
                Vec::new()
            },
        };
        let mut actions = broadcast_actions(dir, &data);
        if let Some(b) = &cfg.bootstrap {
            actions.push(Action::Send(TransportPacket { socket_addr: *b, data }));
        }
        return Ok(actions);
    }
    let data = match build_chat(&cfg.name, line) {
        Ok(d) => d,
        Err(e) => {
            return Err(e);
        },
    };
    Ok(broadcast_actions(dir, &data))
}

} // verus!
