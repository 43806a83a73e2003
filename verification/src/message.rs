//! Wire codec: a message is one datagram, laid out as a 9-byte header
//! (8-byte big-endian sequence number, 1-byte kind tag) followed by the
//! raw payload.

use vstd::prelude::*;

verus! {

/// Size of the wire header: 8 bytes of sequence number and 1 tag byte.
pub const HEADER_SIZE: usize = 9;

/// The kind of a message. Tags 0, 1 and 2 are Data, Ack and Heartbeat;
/// any other tag byte is carried through as `Unknown` so that decoding
/// is never fatal and the original byte is preserved.
#[derive(Debug, PartialEq, Eq, Structural, Clone, Copy)]
pub enum MessageType {
    Data,
    Ack,
    Heartbeat,
    Unknown(u8),
}

impl MessageType {
    /// The tag byte this kind is written as.
    pub open spec fn spec_tag(self) -> u8 {
        match self {
            MessageType::Data => 0,
            MessageType::Ack => 1,
            MessageType::Heartbeat => 2,
            MessageType::Unknown(t) => t,
        }
    }

    /// The kind a tag byte is read as.
    pub open spec fn spec_of_tag(tag: u8) -> MessageType {
        if tag == 0 {
            MessageType::Data
        } else if tag == 1 {
            MessageType::Ack
        } else if tag == 2 {
            MessageType::Heartbeat
        } else {
            MessageType::Unknown(tag)
        }
    }

    /// A kind is well formed when an `Unknown` tag does not collide with
    /// one of the reserved tags; decoding only ever produces such kinds.
    pub open spec fn wf(self) -> bool {
        match self {
            MessageType::Unknown(t) => t > 2,
            _ => true,
        }
    }

    /// Writes this kind as its tag byte.
    pub fn tag(self) -> (t: u8)
        ensures
            t == self.spec_tag(),
    {
        match self {
            MessageType::Data => 0,
            MessageType::Ack => 1,
            MessageType::Heartbeat => 2,
            MessageType::Unknown(t) => t,
        }
    }

    /// Reads a tag byte back as a kind.
    pub fn of_tag(tag: u8) -> (k: MessageType)
        ensures
            k == MessageType::spec_of_tag(tag),
            k.wf(),
    {
        if tag == 0 {
            MessageType::Data
        } else if tag == 1 {
            MessageType::Ack
        } else if tag == 2 {
            MessageType::Heartbeat
        } else {
            MessageType::Unknown(tag)
        }
    }
}

/// The eight bytes of `x`, most significant first.
pub open spec fn spec_be_bytes(x: u64) -> Seq<u8> {
    seq![
        ((x >> 56) & 0xff) as u8,
        ((x >> 48) & 0xff) as u8,
        ((x >> 40) & 0xff) as u8,
        ((x >> 32) & 0xff) as u8,
        ((x >> 24) & 0xff) as u8,
        ((x >> 16) & 0xff) as u8,
        ((x >> 8) & 0xff) as u8,
        (x & 0xff) as u8,
    ]
}

/// The number read from eight bytes, most significant first.
pub open spec fn spec_be_u64(s: Seq<u8>) -> u64
    recommends
        s.len() == 8,
{
    ((s[0] as u64) << 56) | ((s[1] as u64) << 48) | ((s[2] as u64) << 40) | ((s[3] as u64) << 32)
        | ((s[4] as u64) << 24) | ((s[5] as u64) << 16) | ((s[6] as u64) << 8) | (s[7] as u64)
}

/// Reading the eight big-endian bytes of `x` gives `x` back.
pub proof fn lemma_be_round_trip(x: u64)
    ensures
        spec_be_u64(spec_be_bytes(x)) == x,
{
    assert(((((x >> 56) & 0xff) as u8 as u64) << 56) | ((((x >> 48) & 0xff) as u8 as u64) << 48)
        | ((((x >> 40) & 0xff) as u8 as u64) << 40) | ((((x >> 32) & 0xff) as u8 as u64) << 32)
        | ((((x >> 24) & 0xff) as u8 as u64) << 24) | ((((x >> 16) & 0xff) as u8 as u64) << 16)
        | ((((x >> 8) & 0xff) as u8 as u64) << 8) | ((x & 0xff) as u8 as u64) == x)
        by (bit_vector);
}

/// The encoding of a message: header, then payload.
pub open spec fn spec_encode(sequence: u64, kind: MessageType, payload: Seq<u8>) -> Seq<u8> {
    spec_be_bytes(sequence) + seq![kind.spec_tag()] + payload
}

/// What a datagram decodes to: `None` exactly when it is shorter than the
/// header, else the sequence number, kind and payload it carries.
pub open spec fn spec_decode(bytes: Seq<u8>) -> Option<(u64, MessageType, Seq<u8>)> {
    if bytes.len() < HEADER_SIZE {
        None
    } else {
        Some(
            (
                spec_be_u64(bytes.take(8)),
                MessageType::spec_of_tag(bytes[8]),
                bytes.skip(HEADER_SIZE as int),
            ),
        )
    }
}

/// Decoding an encoded message reproduces the sequence number, the kind
/// (including the original tag byte of an `Unknown`) and the payload exactly.
pub proof fn lemma_round_trip(sequence: u64, kind: MessageType, payload: Seq<u8>)
    requires
        kind.wf(),
    ensures
        spec_decode(spec_encode(sequence, kind, payload)) == Some((sequence, kind, payload)),
{
    let e = spec_encode(sequence, kind, payload);
    assert(e.len() == 9 + payload.len());
    assert(e.take(8) =~= spec_be_bytes(sequence));
    lemma_be_round_trip(sequence);
    assert(e[8] == kind.spec_tag());
    assert(MessageType::spec_of_tag(kind.spec_tag()) == kind);
    assert(e.skip(9) =~= payload);
}

/// One message: a per-direction sequence number, a kind, and opaque
/// payload bytes.
#[derive(Debug, Clone)]
pub struct Message {
    pub sequence: u64,
    pub message_type: MessageType,
    pub payload: Vec<u8>,
}

impl Message {
    /// Builds a message from its three parts.
    pub fn new(sequence: u64, message_type: MessageType, payload: Vec<u8>) -> (m: Message)
        ensures
            m.sequence == sequence,
            m.message_type == message_type,
            m.payload == payload,
    {
        Message { sequence, message_type, payload }
    }

    /// Encodes this message for the wire: the 9-byte header followed by
    /// the payload.
    pub fn to_bytes(&self) -> (r: Vec<u8>)
        ensures
            r@ == spec_encode(self.sequence, self.message_type, self.payload@),
    {
        let x = self.sequence;
        let mut bytes: Vec<u8> = Vec::new();
        bytes.push(((x >> 56) & 0xff) as u8);
        bytes.push(((x >> 48) & 0xff) as u8);
        bytes.push(((x >> 40) & 0xff) as u8);
        bytes.push(((x >> 32) & 0xff) as u8);
        bytes.push(((x >> 24) & 0xff) as u8);
        bytes.push(((x >> 16) & 0xff) as u8);
        bytes.push(((x >> 8) & 0xff) as u8);
        bytes.push((x & 0xff) as u8);
        bytes.push(self.message_type.tag());
        let mut i: usize = 0;
        while i < self.payload.len()
            invariant
                i <= self.payload.len(),
                bytes@ == spec_be_bytes(self.sequence) + seq![self.message_type.spec_tag()]
                    + self.payload@.take(i as int),
            decreases self.payload.len() - i,
        {
            bytes.push(self.payload[i]);
            proof {
                assert(self.payload@.take(i + 1) =~= self.payload@.take(i as int).push(
                    self.payload@[i as int],
                ));
            }
            i = i + 1;
        }
        proof {
            assert(self.payload@.take(self.payload@.len() as int) =~= self.payload@);
            assert(bytes@ =~= spec_encode(self.sequence, self.message_type, self.payload@));
        }
        bytes
    }

    /// Decodes one datagram. Fails exactly on datagrams shorter than the
    /// 9-byte header; an unrecognized tag byte yields `Unknown`, never an
    /// error.
    pub fn from_bytes(bytes: &[u8]) -> (r: Option<Message>)
        ensures
            r is None <==> bytes@.len() < HEADER_SIZE,
            (r matches Some(m) ==> {
                &&& spec_decode(bytes@) == Some((m.sequence, m.message_type, m.payload@))
                &&& m.message_type.wf()
            }),
    {
        if bytes.len() < HEADER_SIZE {
            return None;
        }
        let b0 = *vstd::slice::slice_index_get(bytes, 0);
        let b1 = *vstd::slice::slice_index_get(bytes, 1);
        let b2 = *vstd::slice::slice_index_get(bytes, 2);
        let b3 = *vstd::slice::slice_index_get(bytes, 3);
        let b4 = *vstd::slice::slice_index_get(bytes, 4);
        let b5 = *vstd::slice::slice_index_get(bytes, 5);
        let b6 = *vstd::slice::slice_index_get(bytes, 6);
        let b7 = *vstd::slice::slice_index_get(bytes, 7);
        let sequence: u64 = ((b0 as u64) << 56) | ((b1 as u64) << 48) | ((b2 as u64) << 40) | ((
        b3 as u64) << 32) | ((b4 as u64) << 24) | ((b5 as u64) << 16) | ((b6 as u64) << 8) | (
        b7 as u64);
        let tag = *vstd::slice::slice_index_get(bytes, 8);
        let message_type = MessageType::of_tag(tag);
        let tail = vstd::slice::slice_subrange(bytes, HEADER_SIZE, bytes.len());
        let payload = vstd::slice::slice_to_vec(tail);
        proof {
            assert(bytes@.take(8) =~= seq![b0, b1, b2, b3, b4, b5, b6, b7]);
        }
        Some(Message { sequence, message_type, payload })
    }
}

} // verus!
