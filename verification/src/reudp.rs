//! The reliability core: sequence counters, the unacked ledger, the
//! out-of-order receive buffer, the peer set and the liveness monitor,
//! all as one state record driven by three entry points. `send` and
//! `recv` are the foreground path; `tick` is one iteration of the
//! background scheduler. None of them touches a socket: each returns the
//! datagrams to transmit as `(address, bytes)` pairs, and `recv` takes
//! the datagram that the unverified edge polled off the socket.

use vstd::prelude::*;

use crate::error::ReUDPError;
use crate::message::{spec_decode, spec_encode, Message, MessageType};
use crate::mode::{Mode, PeerAddr};

verus! {

/// One entry of the out-of-order receive buffer: where the datagram came
/// from and the payload it carried.
#[derive(Debug)]
pub struct Buffered {
    pub from: PeerAddr,
    pub payload: Vec<u8>,
}

/// The mathematical shadow of a `Buffered` entry.
pub ghost struct BufferedV {
    pub from: PeerAddr,
    pub payload: Seq<u8>,
}

impl View for Buffered {
    type V = BufferedV;

    open spec fn view(&self) -> BufferedV {
        BufferedV { from: self.from, payload: self.payload@ }
    }
}

/// No sequence number keys two entries of an association list.
pub open spec fn unique_keys<V>(entries: Seq<(u64, V)>) -> bool {
    forall|i: int, j: int| 0 <= i < j < entries.len() ==> entries[i].0 != entries[j].0
}

/// The finite map that an association list stands for.
pub open spec fn assoc_map<V: View>(entries: Seq<(u64, V)>) -> Map<u64, V::V>
    decreases entries.len(),
{
    if entries.len() == 0 {
        Map::empty()
    } else {
        assoc_map(entries.drop_last()).insert(entries.last().0, entries.last().1@)
    }
}

/// The domain of the map is exactly the set of keys on the list, and it
/// is finite.
pub proof fn lemma_assoc_map_dom<V: View>(entries: Seq<(u64, V)>)
    ensures
        forall|k: u64|
            assoc_map(entries).dom().contains(k) <==> (exists|i: int|
                0 <= i < entries.len() && entries[i].0 == k),
        assoc_map(entries).dom().finite(),
    decreases entries.len(),
{
    if entries.len() == 0 {
    } else {
        lemma_assoc_map_dom(entries.drop_last());
        assert forall|k: u64| assoc_map(entries).dom().contains(k) implies (exists|i: int|
            0 <= i < entries.len() && entries[i].0 == k) by {
            if k == entries.last().0 {
                assert(entries[entries.len() - 1].0 == k);
            } else {
                let i = choose|i: int|
                    0 <= i < entries.drop_last().len() && entries.drop_last()[i].0 == k;
                assert(entries[i].0 == k);
            }
        }
        assert forall|k: u64|
            (exists|i: int| 0 <= i < entries.len() && entries[i].0 == k) implies assoc_map(
            entries,
        ).dom().contains(k) by {
            let i = choose|i: int| 0 <= i < entries.len() && entries[i].0 == k;
            if i < entries.len() - 1 {
                assert(entries.drop_last()[i].0 == k);
            }
        }
    }
}

/// Appending a fresh key inserts it into the map.
pub proof fn lemma_assoc_map_push<V: View>(entries: Seq<(u64, V)>, k: u64, v: V)
    ensures
        assoc_map(entries.push((k, v))) == assoc_map(entries).insert(k, v@),
{
    assert(entries.push((k, v)).drop_last() =~= entries);
    assert(entries.push((k, v)).last() == (k, v));
}

/// Looking a listed key up in the map gives the listed value.
pub proof fn lemma_assoc_map_index<V: View>(entries: Seq<(u64, V)>, i: int)
    requires
        unique_keys(entries),
        0 <= i < entries.len(),
    ensures
        assoc_map(entries).dom().contains(entries[i].0),
        assoc_map(entries)[entries[i].0] == entries[i].1@,
    decreases entries.len(),
{
    if i == entries.len() - 1 {
    } else {
        assert(entries.drop_last()[i] == entries[i]);
        lemma_assoc_map_index(entries.drop_last(), i);
        assert(entries[i].0 != entries.last().0);
    }
}

/// Taking a listed key off the list removes it from the map.
pub proof fn lemma_assoc_map_remove<V: View>(entries: Seq<(u64, V)>, i: int)
    requires
        unique_keys(entries),
        0 <= i < entries.len(),
    ensures
        assoc_map(entries.remove(i)) == assoc_map(entries).remove(entries[i].0),
    decreases entries.len(),
{
    let k = entries[i].0;
    if i == entries.len() - 1 {
        assert(entries.remove(i) =~= entries.drop_last());
        lemma_assoc_map_dom(entries.drop_last());
        assert(forall|j: int| 0 <= j < entries.drop_last().len() ==> entries[j].0 != k);
        assert(!assoc_map(entries.drop_last()).dom().contains(k));
        assert(assoc_map(entries).remove(k) =~= assoc_map(entries.drop_last()));
    } else {
        let shorter = entries.drop_last();
        assert(entries.remove(i).drop_last() =~= shorter.remove(i));
        assert(entries.remove(i).last() == entries.last());
        lemma_assoc_map_remove(shorter, i);
        assert(shorter[i] == entries[i]);
        assert(entries.last().0 != k);
        assert(assoc_map(entries.remove(i)) == assoc_map(shorter).remove(k).insert(
            entries.last().0,
            entries.last().1@,
        ));
        assert(assoc_map(shorter).remove(k).insert(entries.last().0, entries.last().1@)
            =~= assoc_map(shorter).insert(entries.last().0, entries.last().1@).remove(k));
    }
}

/// The mathematical shadow of a list of outgoing datagrams.
pub open spec fn sends_view(out: Seq<(PeerAddr, Vec<u8>)>) -> Seq<(PeerAddr, Seq<u8>)> {
    out.map_values(|p: (PeerAddr, Vec<u8>)| (p.0, p.1@))
}

/// One datagram fanned out to every peer, in peer order.
pub open spec fn fanout_one(bytes: Seq<u8>, peers: Seq<PeerAddr>) -> Seq<(PeerAddr, Seq<u8>)> {
    peers.map_values(|a: PeerAddr| (a, bytes))
}

/// Every unacked packet fanned out to every peer: packets in ledger
/// order, each to all peers in peer order.
pub open spec fn spec_resends(entries: Seq<(u64, Vec<u8>)>, peers: Seq<PeerAddr>) -> Seq<
    (PeerAddr, Seq<u8>),
>
    decreases entries.len(),
{
    if entries.len() == 0 {
        Seq::empty()
    } else {
        spec_resends(entries.drop_last(), peers) + fanout_one(entries.last().1@, peers)
    }
}

/// What one in-order delivery drains: starting from the buffer and the
/// next expected sequence, every consecutively buffered entry is
/// delivered in ascending sequence order and removed, until the first
/// gap.
pub ghost struct DrainResult {
    pub buffer: Map<u64, BufferedV>,
    pub next: u64,
    pub delivered: Seq<(PeerAddr, Seq<u8>)>,
}

/// Drains the receive buffer forward from `next`: while the buffer holds
/// the expected sequence, that entry is delivered and the expectation
/// advances by one.
pub open spec fn spec_drain(buffer: Map<u64, BufferedV>, next: u64) -> DrainResult
    decreases buffer.dom().len(),
    when buffer.dom().finite()
{
    if buffer.dom().contains(next) && next < u64::MAX {
        let rest = spec_drain(buffer.remove(next), (next + 1) as u64);
        DrainResult {
            buffer: rest.buffer,
            next: rest.next,
            delivered: seq![(buffer[next].from, buffer[next].payload)] + rest.delivered,
        }
    } else {
        DrainResult { buffer, next, delivered: Seq::empty() }
    }
}

/// How one successful `send` moves the outgoing counter: the assigned
/// sequence number is the counter before the call, and the counter
/// advances by exactly one, whether or not an acknowledgment was
/// required.
pub open spec fn send_transition(pre: ReUDP, post: ReUDP, assigned: u64) -> bool {
    assigned == pre.send_sequence && post.send_sequence == pre.send_sequence + 1
}

/// Along a chain of send transitions from a fresh counter, the counter
/// at step `i` is `i`, and so is the sequence number assigned there.
proof fn lemma_counter_at(states: Seq<ReUDP>, assigned: Seq<u64>, i: int)
    requires
        states.len() == assigned.len() + 1,
        states[0].send_sequence == 0,
        forall|j: int|
            0 <= j < assigned.len() ==> send_transition(states[j], states[j + 1], assigned[j]),
        0 <= i < assigned.len(),
    ensures
        states[i].send_sequence == i,
        assigned[i] == i,
    decreases i,
{
    if i > 0 {
        lemma_counter_at(states, assigned, i - 1);
        assert(send_transition(states[i - 1], states[i], assigned[i - 1]));
    }
    assert(send_transition(states[i], states[i + 1], assigned[i]));
}

/// N calls to `send`, with any mix of ack requirements, assign the
/// sequence numbers 0, 1, ..., N-1 in order: along any chain of states
/// that starts with a fresh counter and steps by `send_transition` (as
/// the contract of `send` guarantees of every successful call), the
/// i-th assigned sequence number is i.
pub proof fn lemma_sequence_advance(states: Seq<ReUDP>, assigned: Seq<u64>)
    requires
        states.len() == assigned.len() + 1,
        states[0].send_sequence == 0,
        forall|j: int|
            0 <= j < assigned.len() ==> send_transition(states[j], states[j + 1], assigned[j]),
    ensures
        forall|i: int| 0 <= i < assigned.len() ==> assigned[i] == i,
{
    assert forall|i: int| 0 <= i < assigned.len() implies assigned[i] == i by {
        lemma_counter_at(states, assigned, i);
    }
}

/// Receiving the same Ack twice removes the unacked entry at most once:
/// after the first removal the sequence number is gone from the ledger,
/// and removing it again (as the contract of `recv` says the second
/// receipt does) changes nothing.
pub proof fn lemma_ack_idempotent(unacked: Map<u64, Seq<u8>>, sequence: u64)
    ensures
        !unacked.remove(sequence).dom().contains(sequence),
        unacked.remove(sequence).remove(sequence) == unacked.remove(sequence),
{
    assert(unacked.remove(sequence).remove(sequence) =~= unacked.remove(sequence));
}

/// The k-th drained delivery is exactly the entry buffered under
/// sequence `next + k`.
pub open spec fn drained_entry_ok(buffer: Map<u64, BufferedV>, next: u64, k: int) -> bool {
    &&& buffer.dom().contains((next + k) as u64)
    &&& spec_drain(buffer, next).delivered[k] == (
        buffer[(next + k) as u64].from,
        buffer[(next + k) as u64].payload,
    )
}

/// Delivery is in ascending sequence order with no gaps: the drain from
/// `next` delivers exactly the consecutively buffered entries at
/// sequences next, next+1, ..., one each in that order, and advances
/// the expected sequence by their number.
pub proof fn lemma_drain_delivers(buffer: Map<u64, BufferedV>, next: u64)
    requires
        buffer.dom().finite(),
    ensures
        next <= spec_drain(buffer, next).next,
        spec_drain(buffer, next).next - next == spec_drain(buffer, next).delivered.len(),
        forall|k: int|
            0 <= k < spec_drain(buffer, next).delivered.len() ==> #[trigger] drained_entry_ok(
                buffer,
                next,
                k,
            ),
    decreases buffer.dom().len(),
{
    if buffer.dom().contains(next) && next < u64::MAX {
        let base: u64 = (next + 1) as u64;
        lemma_drain_delivers(buffer.remove(next), base);
        let dr = spec_drain(buffer, next);
        let rest = spec_drain(buffer.remove(next), base);
        assert(dr.next == rest.next && dr.delivered == seq![
            (buffer[next].from, buffer[next].payload),
        ] + rest.delivered);
        assert(base <= rest.next && rest.next - base == rest.delivered.len());
        assert(dr.delivered.len() == 1 + rest.delivered.len());
        assert forall|k: int|
            0 <= k < spec_drain(buffer, next).delivered.len() implies #[trigger] drained_entry_ok(
            buffer,
            next,
            k,
        ) by {
            if k > 0 {
                assert(0 <= k - 1 < rest.delivered.len());
                assert(drained_entry_ok(buffer.remove(next), base, k - 1));
                assert(rest.delivered[k - 1] == (
                    buffer.remove(next)[(base + (k - 1)) as u64].from,
                    buffer.remove(next)[(base + (k - 1)) as u64].payload,
                ));
                assert((base + (k - 1)) as u64 == (next + k) as u64);
                assert((next + k) as u64 != next);
                assert(dr.delivered[k] == rest.delivered[k - 1]);
            } else {
                assert(dr.delivered[0] == (buffer[next].from, buffer[next].payload));
            }
        }
    } else {
        assert(spec_drain(buffer, next) == DrainResult {
            buffer,
            next,
            delivered: Seq::<(PeerAddr, Seq<u8>)>::empty(),
        });
    }
}

/// What one call to `recv` hands back: the payloads delivered in order,
/// and the datagrams to transmit in response (acknowledgments and
/// heartbeat replies), each with its destination.
pub struct RecvOutcome {
    pub delivered: Vec<(PeerAddr, Vec<u8>)>,
    pub replies: Vec<(PeerAddr, Vec<u8>)>,
}

/// Copies a byte vector.
fn copy_bytes(v: &Vec<u8>) -> (r: Vec<u8>)
    ensures
        r@ == v@,
{
    let mut r: Vec<u8> = Vec::new();
    let mut i: usize = 0;
    while i < v.len()
        invariant
            i <= v.len(),
            r@ == v@.take(i as int),
        decreases v.len() - i,
    {
        r.push(v[i]);
        proof {
            assert(v@.take(i + 1) =~= v@.take(i as int).push(v@[i as int]));
        }
        i = i + 1;
    }
    proof {
        assert(v@.take(v@.len() as int) =~= v@);
    }
    r
}

/// Appends one datagram addressed to every peer, in peer order.
fn push_fanout(out: &mut Vec<(PeerAddr, Vec<u8>)>, bytes: &Vec<u8>, peers: &Vec<PeerAddr>)
    ensures
        sends_view(final(out)@) == sends_view(old(out)@) + fanout_one(bytes@, peers@),
{
    let ghost base = sends_view(old(out)@);
    let mut j: usize = 0;
    while j < peers.len()
        invariant
            j <= peers.len(),
            sends_view(out@) == base + fanout_one(bytes@, peers@).take(j as int),
        decreases peers.len() - j,
    {
        let ghost before = out@;
        out.push((peers[j], copy_bytes(bytes)));
        proof {
            assert(sends_view(out@) =~= sends_view(before).push((peers@[j as int], bytes@)));
            assert(base + fanout_one(bytes@, peers@).take(j + 1) =~= (base + fanout_one(
                bytes@,
                peers@,
            ).take(j as int)).push((peers@[j as int], bytes@)));
        }
        j = j + 1;
    }
    proof {
        assert(fanout_one(bytes@, peers@).take(peers@.len() as int) =~= fanout_one(
            bytes@,
            peers@,
        ));
    }
}

/// Finds the position of a sequence number on an association list.
fn find_index<V>(entries: &Vec<(u64, V)>, k: u64) -> (r: Option<usize>)
    ensures
        (r matches Some(i) ==> 0 <= i < entries@.len() && entries@[i as int].0 == k),
        (r is None ==> forall|j: int| 0 <= j < entries@.len() ==> entries@[j].0 != k),
{
    let mut i: usize = 0;
    while i < entries.len()
        invariant
            i <= entries.len(),
            forall|j: int| 0 <= j < i ==> entries@[j].0 != k,
        decreases entries.len() - i,
    {
        if entries[i].0 == k {
            return Some(i);
        }
        i = i + 1;
    }
    None
}

/// Whether an address is already on the peer list.
fn contains_peer(v: &Vec<PeerAddr>, a: PeerAddr) -> (r: bool)
    ensures
        r <==> v@.contains(a),
{
    let mut i: usize = 0;
    while i < v.len()
        invariant
            i <= v.len(),
            forall|j: int| 0 <= j < i ==> v@[j] != a,
        decreases v.len() - i,
    {
        if v[i] == a {
            return true;
        }
        i = i + 1;
    }
    false
}

/// Whether the connection is alive, or in one of the two terminal
/// states the liveness monitor can reach: `Lost` after a peer that once
/// responded went silent, `NoResponse` when no response was ever seen.
#[derive(Debug, PartialEq, Eq, Structural, Clone, Copy)]
pub enum LivenessStatus {
    Alive,
    Lost,
    NoResponse,
}

/// The whole connection state: wire counters, the unacked ledger, the
/// receive buffer, the peer set and the liveness clocks. All times are
/// milliseconds on the caller's monotone clock.
pub struct ReUDP {
    /// Data that arrived out of order, keyed by sequence number.
    pub recv_buffer: Vec<(u64, Buffered)>,
    /// Sequence number the next outgoing Data message is assigned.
    pub send_sequence: u64,
    /// Sequence number the next in-order Data message must carry.
    pub recv_sequence: u64,
    /// Encoded Data messages awaiting acknowledgment, keyed by sequence.
    pub unacked_packets: Vec<(u64, Vec<u8>)>,
    /// Operating mode (client or server).
    pub mode: Mode,
    /// Peers a server has heard from; empty and unused in client mode.
    pub clients: Vec<PeerAddr>,
    /// When the last heartbeat was sent.
    pub last_heartbeat_time: u64,
    /// How often heartbeats go out.
    pub heartbeat_interval: u64,
    /// When the last heartbeat response arrived, if any ever did.
    pub last_heartbeat_response_time: Option<u64>,
    /// When the outstanding heartbeat probe was sent, cleared once a
    /// response consumes it.
    pub last_ping_time: Option<u64>,
    /// The latest round-trip-time sample, if any.
    pub current_ping: Option<u64>,
    /// Alive, or one of the two terminal conditions.
    pub status: LivenessStatus,
}

impl ReUDP {
    /// The unacked ledger as a map from sequence number to encoded bytes.
    pub open spec fn unacked_map(self) -> Map<u64, Seq<u8>> {
        assoc_map(self.unacked_packets@)
    }

    /// The receive buffer as a map from sequence number to source and
    /// payload.
    pub open spec fn buffer_map(self) -> Map<u64, BufferedV> {
        assoc_map(self.recv_buffer@)
    }

    /// The addresses every outgoing fan-out goes to: the one fixed
    /// remote in client mode, the learned peer set in server mode.
    pub open spec fn peer_seq(self) -> Seq<PeerAddr> {
        match self.mode {
            Mode::Client(a) => seq![a],
            Mode::Server => self.clients@,
        }
    }

    /// Structural invariant: both association lists have unique keys,
    /// every unacked sequence lies below the send counter, the buffer
    /// never holds the next expected sequence, the peer list has no
    /// duplicates and stays empty in client mode, and the heartbeat
    /// interval is small enough that doubling it cannot overflow.
    pub open spec fn wf(self) -> bool {
        &&& unique_keys(self.unacked_packets@)
        &&& unique_keys(self.recv_buffer@)
        &&& forall|i: int|
            0 <= i < self.unacked_packets@.len() ==> self.unacked_packets@[i].0
                < self.send_sequence
        &&& !self.buffer_map().dom().contains(self.recv_sequence)
        &&& forall|i: int, j: int|
            0 <= i < j < self.clients@.len() ==> self.clients@[i] != self.clients@[j]
        &&& (self.mode is Client ==> self.clients@.len() == 0)
        &&& self.heartbeat_interval <= u64::MAX / 2
    }

    /// The peer list after a datagram from `from` was seen: a server
    /// learns the address the first time, a client's list stays empty.
    pub open spec fn clients_after(self, from: PeerAddr) -> Seq<PeerAddr> {
        if self.mode is Server && !self.clients@.contains(from) {
            self.clients@.push(from)
        } else {
            self.clients@
        }
    }

    /// The outgoing side (ledger and counter) is the same in both states.
    pub open spec fn same_ledger(self, other: ReUDP) -> bool {
        &&& self.unacked_packets == other.unacked_packets
        &&& self.send_sequence == other.send_sequence
    }

    /// The incoming side (buffer and counter) is the same in both states.
    pub open spec fn same_rx(self, other: ReUDP) -> bool {
        &&& self.recv_buffer == other.recv_buffer
        &&& self.recv_sequence == other.recv_sequence
    }

    /// Every liveness clock and the status are the same in both states.
    pub open spec fn same_liveness(self, other: ReUDP) -> bool {
        &&& self.last_heartbeat_time == other.last_heartbeat_time
        &&& self.last_heartbeat_response_time == other.last_heartbeat_response_time
        &&& self.last_ping_time == other.last_ping_time
        &&& self.current_ping == other.current_ping
        &&& self.status == other.status
    }

    /// Every clock this state remembers lies at or before `now_ms`.
    pub open spec fn times_le(self, now_ms: u64) -> bool {
        &&& self.last_heartbeat_time <= now_ms
        &&& (self.last_ping_time matches Some(t) ==> t <= now_ms)
        &&& (self.last_heartbeat_response_time matches Some(t) ==> t <= now_ms)
    }

    /// Builds the initial state for one endpoint: both counters at zero,
    /// ledger, buffer and peer set empty, no response or probe seen yet,
    /// alive, with the heartbeat clock starting at `now_ms`.
    pub fn new(mode: Mode, heartbeat_interval: u64, now_ms: u64) -> (r: ReUDP)
        requires
            heartbeat_interval <= u64::MAX / 2,
        ensures
            r.wf(),
            r.times_le(now_ms),
            r.send_sequence == 0,
            r.recv_sequence == 0,
            r.unacked_map() == Map::<u64, Seq<u8>>::empty(),
            r.buffer_map() == Map::<u64, BufferedV>::empty(),
            r.unacked_packets@.len() == 0,
            r.recv_buffer@.len() == 0,
            r.mode == mode,
            r.clients@.len() == 0,
            r.last_heartbeat_time == now_ms,
            r.heartbeat_interval == heartbeat_interval,
            r.last_heartbeat_response_time is None,
            r.last_ping_time is None,
            r.current_ping is None,
            r.status == LivenessStatus::Alive,
    {
        let r = ReUDP {
            recv_buffer: Vec::new(),
            send_sequence: 0,
            recv_sequence: 0,
            unacked_packets: Vec::new(),
            mode,
            clients: Vec::new(),
            last_heartbeat_time: now_ms,
            heartbeat_interval,
            last_heartbeat_response_time: None,
            last_ping_time: None,
            current_ping: None,
            status: LivenessStatus::Alive,
        };
        proof {
            lemma_assoc_map_dom(r.recv_buffer@);
        }
        r
    }

    /// The peers one datagram fans out to, in order.
    fn peers_vec(&self) -> (r: Vec<PeerAddr>)
        ensures
            r@ == self.peer_seq(),
    {
        match self.mode {
            Mode::Client(a) => {
                let mut v: Vec<PeerAddr> = Vec::new();
                v.push(a);
                proof {
                    assert(v@ =~= seq![a]);
                }
                v
            },
            Mode::Server => {
                let mut v: Vec<PeerAddr> = Vec::new();
                let mut i: usize = 0;
                while i < self.clients.len()
                    invariant
                        i <= self.clients.len(),
                        v@ == self.clients@.take(i as int),
                    decreases self.clients.len() - i,
                {
                    v.push(self.clients[i]);
                    proof {
                        assert(self.clients@.take(i + 1) =~= self.clients@.take(i as int).push(
                            self.clients@[i as int],
                        ));
                    }
                    i = i + 1;
                }
                proof {
                    assert(self.clients@.take(self.clients@.len() as int) =~= self.clients@);
                }
                v
            },
        }
    }

    /// Sends one Data payload: assigns the next outgoing sequence number,
    /// fans the encoded message out to every current peer, records it in
    /// the unacked ledger when an acknowledgment is required, and always
    /// advances the sequence counter by one. In a terminal liveness state
    /// nothing is sent and the terminal condition is surfaced instead.
    pub fn send(&mut self, data: Vec<u8>, require_ack: bool) -> (r: Result<
        Vec<(PeerAddr, Vec<u8>)>,
        ReUDPError,
    >)
        requires
            old(self).wf(),
            old(self).send_sequence < u64::MAX,
        ensures
            final(self).wf(),
            old(self).status != LivenessStatus::Alive ==> *final(self) == *old(self),
            old(self).status == LivenessStatus::Lost ==> (r matches Err(e) && e
                == ReUDPError::ConnectionLost),
            old(self).status == LivenessStatus::NoResponse ==> (r matches Err(e) && e
                == ReUDPError::NoResponseFromServer),
            old(self).status == LivenessStatus::Alive ==> ({
                let enc = spec_encode(old(self).send_sequence, MessageType::Data, data@);
                &&& (r matches Ok(out) && sends_view(out@) == fanout_one(
                    enc,
                    old(self).peer_seq(),
                ))
                &&& final(self).send_sequence == old(self).send_sequence + 1
                &&& (require_ack ==> final(self).unacked_map() == old(self).unacked_map().insert(
                    old(self).send_sequence,
                    enc,
                ))
                &&& (!require_ack ==> final(self).unacked_map() == old(self).unacked_map())
                &&& final(self).recv_sequence == old(self).recv_sequence
                &&& final(self).recv_buffer == old(self).recv_buffer
                &&& final(self).mode == old(self).mode
                &&& final(self).clients == old(self).clients
                &&& final(self).last_heartbeat_time == old(self).last_heartbeat_time
                &&& final(self).heartbeat_interval == old(self).heartbeat_interval
                &&& final(self).last_heartbeat_response_time == old(
                    self,
                ).last_heartbeat_response_time
                &&& final(self).last_ping_time == old(self).last_ping_time
                &&& final(self).current_ping == old(self).current_ping
                &&& final(self).status == LivenessStatus::Alive
            }),
    {
        match self.status {
            LivenessStatus::Lost => {
                return Err(ReUDPError::ConnectionLost);
            },
            LivenessStatus::NoResponse => {
                return Err(ReUDPError::NoResponseFromServer);
            },
            LivenessStatus::Alive => {},
        }
        let ghost pre = *self;
        let message = Message::new(self.send_sequence, MessageType::Data, data);
        let serialized = message.to_bytes();
        let peers = self.peers_vec();
        let mut out: Vec<(PeerAddr, Vec<u8>)> = Vec::new();
        proof {
            assert(sends_view(out@) =~= Seq::<(PeerAddr, Seq<u8>)>::empty());
        }
        push_fanout(&mut out, &serialized, &peers);
        proof {
            assert(sends_view(out@) =~= fanout_one(serialized@, pre.peer_seq()));
        }
        if require_ack {
            let ghost entries = self.unacked_packets@;
            self.unacked_packets.push((self.send_sequence, serialized));
            proof {
                lemma_assoc_map_push(entries, pre.send_sequence, serialized);
                assert forall|i: int, j: int|
                    0 <= i < j < self.unacked_packets@.len() implies self.unacked_packets@[i].0
                    != self.unacked_packets@[j].0 by {
                    if j == entries.len() {
                        assert(entries[i].0 < pre.send_sequence);
                    }
                }
            }
        }
        self.send_sequence = self.send_sequence + 1;
        Ok(out)
    }

    /// Processes one inbound datagram, polled off the socket by the
    /// caller, sent by `from`, at time `now_ms`. A datagram shorter than
    /// the header is dropped and nothing changes. In server mode the
    /// sender is learned. Data is always acknowledged back to the
    /// sender; when it carries the expected sequence its payload is
    /// delivered and the buffer is drained forward until the first gap,
    /// else the payload is buffered and nothing is delivered this call.
    /// An Ack removes the matching ledger entry, idempotently. A
    /// Heartbeat is answered with a Heartbeat, records the response
    /// time, and is paired with the outstanding probe to sample the
    /// round-trip time. An unknown kind changes nothing. In a terminal
    /// liveness state the terminal condition is surfaced instead.
    pub fn recv(&mut self, from: PeerAddr, data: &[u8], now_ms: u64) -> (r: Result<
        RecvOutcome,
        ReUDPError,
    >)
        requires
            old(self).wf(),
            old(self).times_le(now_ms),
            old(self).recv_sequence as int + old(self).recv_buffer@.len() as int + 1
                <= u64::MAX as int,
        ensures
            final(self).wf(),
            final(self).times_le(now_ms),
            final(self).recv_buffer@.len() <= old(self).recv_buffer@.len() + 1,
            final(self).recv_sequence >= old(self).recv_sequence,
            old(self).status == LivenessStatus::Lost ==> (r matches Err(e) && e
                == ReUDPError::ConnectionLost),
            old(self).status == LivenessStatus::NoResponse ==> (r matches Err(e) && e
                == ReUDPError::NoResponseFromServer),
            old(self).status != LivenessStatus::Alive ==> *final(self) == *old(self),
            old(self).status == LivenessStatus::Alive ==> (r matches Ok(oc) && ({
                let d = spec_decode(data@);
                &&& final(self).status == LivenessStatus::Alive
                &&& final(self).mode == old(self).mode
                &&& final(self).heartbeat_interval == old(self).heartbeat_interval
                &&& final(self).send_sequence == old(self).send_sequence
                &&& (d is None ==> *final(self) == *old(self) && oc.delivered@.len() == 0
                    && oc.replies@.len() == 0)
                &&& (d matches Some(t) ==> {
                    &&& final(self).clients@ == old(self).clients_after(from)
                    &&& (t.1 == MessageType::Data ==> {
                        &&& sends_view(oc.replies@) == seq![
                            (from, spec_encode(t.0, MessageType::Ack, Seq::<u8>::empty())),
                        ]
                        &&& final(self).unacked_packets == old(self).unacked_packets
                        &&& final(self).same_liveness(*old(self))
                        &&& (t.0 == old(self).recv_sequence ==> ({
                            let dr = spec_drain(
                                old(self).buffer_map(),
                                (old(self).recv_sequence + 1) as u64,
                            );
                            &&& sends_view(oc.delivered@) == seq![(from, t.2)] + dr.delivered
                            &&& final(self).buffer_map() == dr.buffer
                            &&& final(self).recv_sequence == dr.next
                        }))
                        &&& (t.0 != old(self).recv_sequence ==> {
                            &&& oc.delivered@.len() == 0
                            &&& final(self).buffer_map() == old(self).buffer_map().insert(
                                t.0,
                                BufferedV { from, payload: t.2 },
                            )
                            &&& final(self).recv_sequence == old(self).recv_sequence
                        })
                    })
                    &&& (t.1 == MessageType::Ack ==> {
                        &&& oc.delivered@.len() == 0
                        &&& oc.replies@.len() == 0
                        &&& final(self).unacked_map() == old(self).unacked_map().remove(t.0)
                        &&& final(self).same_rx(*old(self))
                        &&& final(self).same_liveness(*old(self))
                    })
                    &&& (t.1 == MessageType::Heartbeat ==> {
                        &&& oc.delivered@.len() == 0
                        &&& sends_view(oc.replies@) == seq![
                            (from, spec_encode(0, MessageType::Heartbeat, Seq::<u8>::empty())),
                        ]
                        &&& final(self).unacked_packets == old(self).unacked_packets
                        &&& final(self).same_rx(*old(self))
                        &&& final(self).last_heartbeat_time == old(self).last_heartbeat_time
                        &&& final(self).last_heartbeat_response_time == Some(now_ms)
                        &&& final(self).last_ping_time is None
                        &&& (old(self).last_ping_time matches Some(t0) ==> final(self).current_ping
                            == Some((now_ms - t0) as u64))
                        &&& (old(self).last_ping_time is None ==> final(self).current_ping == old(
                            self,
                        ).current_ping)
                    })
                    &&& (t.1 is Unknown ==> {
                        &&& oc.delivered@.len() == 0
                        &&& oc.replies@.len() == 0
                        &&& final(self).same_ledger(*old(self))
                        &&& final(self).same_rx(*old(self))
                        &&& final(self).same_liveness(*old(self))
                    })
                })
            })),
    {
        match self.status {
            LivenessStatus::Lost => {
                return Err(ReUDPError::ConnectionLost);
            },
            LivenessStatus::NoResponse => {
                return Err(ReUDPError::NoResponseFromServer);
            },
            LivenessStatus::Alive => {},
        }
        let m = match Message::from_bytes(data) {
            None => {
                return Ok(RecvOutcome { delivered: Vec::new(), replies: Vec::new() });
            },
            Some(m) => m,
        };
        match self.mode {
            Mode::Server => {
                if !contains_peer(&self.clients, from) {
                    let ghost pre_clients = self.clients@;
                    self.clients.push(from);
                    proof {
                        assert forall|i: int, j: int|
                            0 <= i < j < self.clients@.len() implies self.clients@[i]
                            != self.clients@[j] by {
                            if j == pre_clients.len() {
                                assert(self.clients@[i] == pre_clients[i]);
                                assert(!pre_clients.contains(from));
                            }
                        }
                    }
                }
            },
            Mode::Client(_) => {},
        }
        match m.message_type {
            MessageType::Data => {
                let ack = Message::new(m.sequence, MessageType::Ack, Vec::new());
                let serialized_ack = ack.to_bytes();
                let mut replies: Vec<(PeerAddr, Vec<u8>)> = Vec::new();
                replies.push((from, serialized_ack));
                proof {
                    assert(sends_view(replies@) =~= seq![
                        (from, spec_encode(m.sequence, MessageType::Ack, Seq::<u8>::empty())),
                    ]);
                }
                if m.sequence == self.recv_sequence {
                    let ghost payload0 = m.payload@;
                    let mut delivered: Vec<(PeerAddr, Vec<u8>)> = Vec::new();
                    delivered.push((from, m.payload));
                    self.recv_sequence = self.recv_sequence + 1;
                    let ghost g0 = self.buffer_map();
                    let ghost s0 = self.recv_sequence;
                    let ghost mid = *self;
                    proof {
                        lemma_assoc_map_dom(self.recv_buffer@);
                        assert(sends_view(delivered@) =~= seq![(from, payload0)]);
                    }
                    let mut found = find_index(&self.recv_buffer, self.recv_sequence);
                    while found.is_some()
                        invariant
                            unique_keys(self.recv_buffer@),
                            self.unacked_packets == mid.unacked_packets,
                            self.send_sequence == mid.send_sequence,
                            self.mode == mid.mode,
                            self.clients == mid.clients,
                            self.last_heartbeat_time == mid.last_heartbeat_time,
                            self.heartbeat_interval == mid.heartbeat_interval,
                            self.last_heartbeat_response_time == mid.last_heartbeat_response_time,
                            self.last_ping_time == mid.last_ping_time,
                            self.current_ping == mid.current_ping,
                            self.status == mid.status,
                            self.recv_sequence as int + self.recv_buffer@.len() as int <= s0 as int
                                + mid.recv_buffer@.len() as int,
                            s0 as int + mid.recv_buffer@.len() as int <= u64::MAX as int,
                            s0 <= self.recv_sequence,
                            self.recv_buffer@.len() <= mid.recv_buffer@.len(),
                            (found matches Some(i) ==> 0 <= i < self.recv_buffer@.len()
                                && self.recv_buffer@[i as int].0 == self.recv_sequence),
                            (found is None ==> forall|j: int|
                                0 <= j < self.recv_buffer@.len() ==> self.recv_buffer@[j].0
                                    != self.recv_sequence),
                            spec_drain(g0, s0).buffer == spec_drain(
                                self.buffer_map(),
                                self.recv_sequence,
                            ).buffer,
                            spec_drain(g0, s0).next == spec_drain(
                                self.buffer_map(),
                                self.recv_sequence,
                            ).next,
                            sends_view(delivered@) + spec_drain(
                                self.buffer_map(),
                                self.recv_sequence,
                            ).delivered == seq![(from, payload0)] + spec_drain(g0, s0).delivered,
                        decreases self.recv_buffer@.len(),
                    {
                        let i = found.unwrap();
                        let ghost entries = self.recv_buffer@;
                        let ghost cur_map = self.buffer_map();
                        let ghost cur_next = self.recv_sequence;
                        proof {
                            lemma_assoc_map_dom(entries);
                            lemma_assoc_map_index(entries, i as int);
                            assert(cur_map.dom().contains(cur_next));
                        }
                        let entry = self.recv_buffer.remove(i);
                        let ghost eview = entry.1@;
                        let ghost predelivered = delivered@;
                        delivered.push((entry.1.from, entry.1.payload));
                        self.recv_sequence = self.recv_sequence + 1;
                        proof {
                            lemma_assoc_map_remove(entries, i as int);
                            entries.remove_ensures(i as int);
                            assert(self.buffer_map() == cur_map.remove(cur_next));
                            lemma_assoc_map_dom(self.recv_buffer@);
                            let step = spec_drain(cur_map, cur_next);
                            let rest = spec_drain(cur_map.remove(cur_next), (cur_next + 1) as u64);
                            assert(step.delivered == seq![
                                (cur_map[cur_next].from, cur_map[cur_next].payload),
                            ] + rest.delivered);
                            assert(cur_map[cur_next] == entries[i as int].1@);
                            assert(sends_view(delivered@) =~= sends_view(predelivered).push(
                                (eview.from, eview.payload),
                            ));
                            assert(sends_view(predelivered).push(
                                (cur_map[cur_next].from, cur_map[cur_next].payload),
                            ) + rest.delivered =~= sends_view(predelivered) + (seq![
                                (cur_map[cur_next].from, cur_map[cur_next].payload),
                            ] + rest.delivered));
                        }
                        found = find_index(&self.recv_buffer, self.recv_sequence);
                    }
                    proof {
                        lemma_assoc_map_dom(self.recv_buffer@);
                        assert(!self.buffer_map().dom().contains(self.recv_sequence));
                        let tail = spec_drain(self.buffer_map(), self.recv_sequence);
                        assert(tail.buffer == self.buffer_map() && tail.next == self.recv_sequence
                            && tail.delivered == Seq::<(PeerAddr, Seq<u8>)>::empty());
                        assert(sends_view(delivered@) + tail.delivered =~= sends_view(delivered@));
                    }
                    Ok(RecvOutcome { delivered, replies })
                } else {
                    let ghost entries = self.recv_buffer@;
                    let ghost pre_map = self.buffer_map();
                    match find_index(&self.recv_buffer, m.sequence) {
                        Some(i) => {
                            self.recv_buffer.remove(i);
                            proof {
                                lemma_assoc_map_remove(entries, i as int);
                                entries.remove_ensures(i as int);
                            }
                        },
                        None => {
                            proof {
                                lemma_assoc_map_dom(entries);
                                assert(assoc_map(entries).remove(m.sequence) =~= assoc_map(
                                    entries,
                                ));
                            }
                        },
                    }
                    let ghost entries2 = self.recv_buffer@;
                    proof {
                        assert(assoc_map(entries2) == pre_map.remove(m.sequence));
                        lemma_assoc_map_dom(entries2);
                    }
                    let seqno = m.sequence;
                    let ghost pv = m.payload@;
                    let entry = Buffered { from, payload: m.payload };
                    self.recv_buffer.push((seqno, entry));
                    proof {
                        lemma_assoc_map_push(entries2, seqno, entry);
                        assert(self.buffer_map() =~= pre_map.insert(
                            seqno,
                            BufferedV { from, payload: pv },
                        ));
                        assert forall|a: int, b: int|
                            0 <= a < b < self.recv_buffer@.len() implies self.recv_buffer@[a].0
                            != self.recv_buffer@[b].0 by {
                            if b == entries2.len() {
                                assert(!assoc_map(entries2).dom().contains(seqno));
                                assert(self.recv_buffer@[a] == entries2[a]);
                            }
                        }
                        lemma_assoc_map_dom(self.recv_buffer@);
                    }
                    Ok(RecvOutcome { delivered: Vec::new(), replies })
                }
            },
            MessageType::Ack => {
                let ghost entries = self.unacked_packets@;
                match find_index(&self.unacked_packets, m.sequence) {
                    Some(i) => {
                        self.unacked_packets.remove(i);
                        proof {
                            lemma_assoc_map_remove(entries, i as int);
                            entries.remove_ensures(i as int);
                        }
                    },
                    None => {
                        proof {
                            lemma_assoc_map_dom(entries);
                            assert(assoc_map(entries).remove(m.sequence) =~= assoc_map(entries));
                        }
                    },
                }
                Ok(RecvOutcome { delivered: Vec::new(), replies: Vec::new() })
            },
            MessageType::Heartbeat => {
                let response = Message::new(0, MessageType::Heartbeat, Vec::new());
                let serialized_response = response.to_bytes();
                let mut replies: Vec<(PeerAddr, Vec<u8>)> = Vec::new();
                replies.push((from, serialized_response));
                proof {
                    assert(sends_view(replies@) =~= seq![
                        (from, spec_encode(0, MessageType::Heartbeat, Seq::<u8>::empty())),
                    ]);
                }
                self.last_heartbeat_response_time = Some(now_ms);
                match self.last_ping_time {
                    Some(t) => {
                        self.current_ping = Some(now_ms - t);
                        self.last_ping_time = None;
                    },
                    None => {},
                }
                Ok(RecvOutcome { delivered: Vec::new(), replies })
            },
            MessageType::Unknown(_) => {
                Ok(RecvOutcome { delivered: Vec::new(), replies: Vec::new() })
            },
        }
    }

    /// A heartbeat response was once observed but has now gone stale:
    /// more than twice the heartbeat interval has passed since it.
    pub open spec fn lost_cond(self, now_ms: u64) -> bool {
        self.last_heartbeat_response_time matches Some(rt) && now_ms - rt > 2
            * self.heartbeat_interval
    }

    /// No heartbeat response was ever observed and more than twice the
    /// heartbeat interval has passed since the last heartbeat was sent.
    pub open spec fn no_response_cond(self, now_ms: u64) -> bool {
        self.last_heartbeat_response_time is None && now_ms - self.last_heartbeat_time > 2
            * self.heartbeat_interval
    }

    /// More than one heartbeat interval has passed since the last
    /// heartbeat: another one is due.
    pub open spec fn heartbeat_due(self, now_ms: u64) -> bool {
        now_ms - self.last_heartbeat_time > self.heartbeat_interval
    }

    /// One iteration of the background scheduler at time `now_ms`. The
    /// liveness check runs first, on the clocks as they stand: a stale
    /// response turns the state terminal `Lost`, a never-answered
    /// heartbeat history turns it terminal `NoResponse`, and a terminal
    /// state emits nothing, now or on any later tick. While alive, every
    /// entry still in the unacked ledger is resent to every current
    /// peer, and, when one is due, a heartbeat is broadcast and the
    /// probe and heartbeat clocks are reset to `now_ms`.
    pub fn tick(&mut self, now_ms: u64) -> (actions: Vec<(PeerAddr, Vec<u8>)>)
        requires
            old(self).wf(),
            old(self).times_le(now_ms),
        ensures
            final(self).wf(),
            final(self).times_le(now_ms),
            old(self).status != LivenessStatus::Alive ==> (*final(self) == *old(self) && actions@.len()
                == 0),
            old(self).status == LivenessStatus::Alive && old(self).lost_cond(now_ms) ==> {
                &&& actions@.len() == 0
                &&& final(self).status == LivenessStatus::Lost
                &&& final(self).same_ledger(*old(self))
                &&& final(self).same_rx(*old(self))
                &&& final(self).clients == old(self).clients
                &&& final(self).mode == old(self).mode
                &&& final(self).heartbeat_interval == old(self).heartbeat_interval
                &&& final(self).last_heartbeat_time == old(self).last_heartbeat_time
                &&& final(self).last_heartbeat_response_time == old(
                    self,
                ).last_heartbeat_response_time
                &&& final(self).last_ping_time == old(self).last_ping_time
                &&& final(self).current_ping == old(self).current_ping
            },
            old(self).status == LivenessStatus::Alive && old(self).no_response_cond(now_ms) ==> {
                &&& actions@.len() == 0
                &&& final(self).status == LivenessStatus::NoResponse
                &&& final(self).same_ledger(*old(self))
                &&& final(self).same_rx(*old(self))
                &&& final(self).clients == old(self).clients
                &&& final(self).mode == old(self).mode
                &&& final(self).heartbeat_interval == old(self).heartbeat_interval
                &&& final(self).last_heartbeat_time == old(self).last_heartbeat_time
                &&& final(self).last_heartbeat_response_time == old(
                    self,
                ).last_heartbeat_response_time
                &&& final(self).last_ping_time == old(self).last_ping_time
                &&& final(self).current_ping == old(self).current_ping
            },
            old(self).status == LivenessStatus::Alive && !old(self).lost_cond(now_ms) && !old(
                self,
            ).no_response_cond(now_ms) ==> {
                &&& sends_view(actions@) == spec_resends(
                    old(self).unacked_packets@,
                    old(self).peer_seq(),
                ) + (if old(self).heartbeat_due(now_ms) {
                    fanout_one(
                        spec_encode(0, MessageType::Heartbeat, Seq::<u8>::empty()),
                        old(self).peer_seq(),
                    )
                } else {
                    Seq::<(PeerAddr, Seq<u8>)>::empty()
                })
                &&& final(self).status == LivenessStatus::Alive
                &&& final(self).same_ledger(*old(self))
                &&& final(self).same_rx(*old(self))
                &&& final(self).clients == old(self).clients
                &&& final(self).mode == old(self).mode
                &&& final(self).heartbeat_interval == old(self).heartbeat_interval
                &&& final(self).last_heartbeat_response_time == old(
                    self,
                ).last_heartbeat_response_time
                &&& final(self).current_ping == old(self).current_ping
                &&& (old(self).heartbeat_due(now_ms) ==> final(self).last_heartbeat_time == now_ms
                    && final(self).last_ping_time == Some(now_ms))
                &&& (!old(self).heartbeat_due(now_ms) ==> final(self).last_heartbeat_time == old(
                    self,
                ).last_heartbeat_time && final(self).last_ping_time == old(self).last_ping_time)
            },
    {
        match self.status {
            LivenessStatus::Lost => {
                return Vec::new();
            },
            LivenessStatus::NoResponse => {
                return Vec::new();
            },
            LivenessStatus::Alive => {},
        }
        match self.last_heartbeat_response_time {
            Some(rt) => {
                if now_ms - rt > 2 * self.heartbeat_interval {
                    self.status = LivenessStatus::Lost;
                    return Vec::new();
                }
            },
            None => {
                if now_ms - self.last_heartbeat_time > 2 * self.heartbeat_interval {
                    self.status = LivenessStatus::NoResponse;
                    return Vec::new();
                }
            },
        }
        let peers = self.peers_vec();
        let mut actions: Vec<(PeerAddr, Vec<u8>)> = Vec::new();
        proof {
            assert(sends_view(actions@) =~= Seq::<(PeerAddr, Seq<u8>)>::empty());
        }
        let ghost entries = self.unacked_packets@;
        let mut i: usize = 0;
        while i < self.unacked_packets.len()
            invariant
                i <= self.unacked_packets.len(),
                self.unacked_packets@ == entries,
                peers@ == self.peer_seq(),
                sends_view(actions@) == spec_resends(entries.take(i as int), peers@),
            decreases self.unacked_packets@.len() - i,
        {
            push_fanout(&mut actions, &self.unacked_packets[i].1, &peers);
            proof {
                assert(entries.take(i + 1).drop_last() =~= entries.take(i as int));
                assert(entries.take(i + 1).last() == entries[i as int]);
            }
            i = i + 1;
        }
        proof {
            assert(entries.take(entries.len() as int) =~= entries);
        }
        if now_ms - self.last_heartbeat_time > self.heartbeat_interval {
            let hb = Message::new(0, MessageType::Heartbeat, Vec::new());
            let serialized = hb.to_bytes();
            push_fanout(&mut actions, &serialized, &peers);
            self.last_ping_time = Some(now_ms);
            self.last_heartbeat_time = now_ms;
        }
        actions
    }

    /// The latest round-trip-time sample, or `None` before the first
    /// heartbeat response paired with an outstanding probe.
    pub fn get_current_ping(&self) -> (r: Option<u64>)
        ensures
            r == self.current_ping,
    {
        self.current_ping
    }
}

} // verus!
