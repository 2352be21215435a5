//! Peer wire protocol: the handshake, message framing, and per-connection
//! state (choke and interest flags plus the remote bitfield).

use crate::bits::{bits_from_bytes, bits_from_elem, bits_get, bits_len, bits_of, bits_set, byte_bit};
use vstd::prelude::*;

verus! {

/// Protocol errors of the peer message codec.  I/O errors belong to the
/// connection's owner, not to the codec.
#[derive(Debug, Clone, Copy, PartialEq, Eq, Structural)]
pub enum Error {
    InvalidMessageId(u8),
    InvalidPayloadLength { expected: usize, actual: usize },
}

/// A block on its way from a peer session to the piece assembler.
#[derive(Debug)]
pub struct WriteMessage {
    index: u32,
    begin: u32,
    block: Vec<u8>,
}

impl WriteMessage {
    pub fn new(index: u32, begin: u32, block: &[u8]) -> (r: WriteMessage)
        ensures
            r.index() == index,
            r.begin() == begin,
            r.block()@ == block@,
    {
        WriteMessage { index, begin, block: vstd::slice::slice_to_vec(block) }
    }

    #[verifier::when_used_as_spec(spec_index)]
    pub fn index(&self) -> (r: u32)
        ensures
            r == self.index(),
    {
        self.index
    }

    pub closed spec fn spec_index(&self) -> u32 {
        self.index
    }

    #[verifier::when_used_as_spec(spec_begin)]
    pub fn begin(&self) -> (r: u32)
        ensures
            r == self.begin(),
    {
        self.begin
    }

    pub closed spec fn spec_begin(&self) -> u32 {
        self.begin
    }

    #[verifier::when_used_as_spec(spec_block)]
    pub fn block(&self) -> (r: &Vec<u8>)
        ensures
            r == self.block(),
    {
        &self.block
    }

    pub closed spec fn spec_block(&self) -> &Vec<u8> {
        &self.block
    }
}

/// A decoded peer wire message.
#[derive(Debug, PartialEq)]
pub enum Message {
    KeepAlive,
    Choke,
    Unchoke,
    Interested,
    NotInterested,
    Have(u32),
    Bitfield(Vec<u8>),
    Request { index: u32, begin: u32, length: u32 },
    Piece { index: u32, begin: u32, block: Vec<u8> },
    Cancel { index: u32, begin: u32, length: u32 },
    Extended(Vec<u8>),
}

/// The big-endian 32-bit value of four bytes.
pub open spec fn be32(b0: u8, b1: u8, b2: u8, b3: u8) -> int {
    b0 * 0x1000000 + b1 * 0x10000 + b2 * 0x100 + b3
}

/// The four big-endian bytes of a 32-bit value.
pub open spec fn be_bytes32(x: u32) -> Seq<u8> {
    seq![
        (x / 0x1000000) as u8,
        ((x / 0x10000) % 0x100) as u8,
        ((x / 0x100) % 0x100) as u8,
        (x % 0x100) as u8,
    ]
}

/// What [`Message::from_id_and_payload`] returns for a message id and its
/// payload: the message table of the peer wire protocol.
pub open spec fn message_post(id: u8, p: Seq<u8>, r: Result<Message, Error>) -> bool {
    if id == 4 {
        if p.len() == 4 {
            r == Ok::<Message, Error>(Message::Have(be32(p[0], p[1], p[2], p[3]) as u32))
        } else {
            r == Err::<Message, Error>(
                Error::InvalidPayloadLength { expected: 4, actual: p.len() as usize },
            )
        }
    } else if id == 5 {
        r matches Ok(Message::Bitfield(b)) && b@ == p
    } else if id == 6 || id == 8 {
        if p.len() == 12 {
            if id == 6 {
                r == Ok::<Message, Error>(
                    Message::Request {
                        index: be32(p[0], p[1], p[2], p[3]) as u32,
                        begin: be32(p[4], p[5], p[6], p[7]) as u32,
                        length: be32(p[8], p[9], p[10], p[11]) as u32,
                    },
                )
            } else {
                r == Ok::<Message, Error>(
                    Message::Cancel {
                        index: be32(p[0], p[1], p[2], p[3]) as u32,
                        begin: be32(p[4], p[5], p[6], p[7]) as u32,
                        length: be32(p[8], p[9], p[10], p[11]) as u32,
                    },
                )
            }
        } else {
            r == Err::<Message, Error>(
                Error::InvalidPayloadLength { expected: 12, actual: p.len() as usize },
            )
        }
    } else if id == 7 {
        if p.len() >= 8 {
            &&& r matches Ok(Message::Piece { index, begin, block })
            &&& index == be32(p[0], p[1], p[2], p[3]) as u32
            &&& begin == be32(p[4], p[5], p[6], p[7]) as u32
            &&& block@ == p.skip(8)
        } else {
            r == Err::<Message, Error>(
                Error::InvalidPayloadLength { expected: 8, actual: p.len() as usize },
            )
        }
    } else if id == 20 {
        r matches Ok(Message::Extended(b)) && b@ == p
    } else {
        r == Err::<Message, Error>(Error::InvalidMessageId(id))
    }
}

/// Reads a big-endian `u32` from four bytes of a vector.
fn read_be32(p: &Vec<u8>, at: usize) -> (r: u32)
    requires
        at + 4 <= p@.len(),
    ensures
        r == be32(p@[at as int], p@[at + 1], p@[at + 2], p@[at + 3]) as u32,
        r == be32(p@[at as int], p@[at + 1], p@[at + 2], p@[at + 3]),
{
    let plen = p.len();
    let b0 = p[at];
    let b1 = p[at + 1];
    let b2 = p[at + 2];
    let b3 = p[at + 3];
    (b0 as u32) * 0x1000000 + (b1 as u32) * 0x10000 + (b2 as u32) * 0x100 + (b3 as u32)
}

impl Message {
    /// The payload-less messages.  Every other id needs a payload.
    pub fn from_id(id: u8) -> (r: Message)
        requires
            id <= 3,
        ensures
            id == 0 ==> r == Message::Choke,
            id == 1 ==> r == Message::Unchoke,
            id == 2 ==> r == Message::Interested,
            id == 3 ==> r == Message::NotInterested,
    {
        if id == 0 {
            Message::Choke
        } else if id == 1 {
            Message::Unchoke
        } else if id == 2 {
            Message::Interested
        } else {
            Message::NotInterested
        }
    }

    /// Decodes a message from its id byte and payload, per the message table.
    pub fn from_id_and_payload(id: u8, payload: Vec<u8>) -> (r: Result<Message, Error>)
        ensures
            message_post(id, payload@, r),
    {
        let len = payload.len();
        if id == 4 {
            if len != 4 {
                return Err(Error::InvalidPayloadLength { expected: 4, actual: len });
            }
            let piece_index = read_be32(&payload, 0);
            Ok(Message::Have(piece_index))
        } else if id == 5 {
            Ok(Message::Bitfield(payload))
        } else if id == 6 || id == 8 {
            if len != 12 {
                return Err(Error::InvalidPayloadLength { expected: 12, actual: len });
            }
            let index = read_be32(&payload, 0);
            let begin = read_be32(&payload, 4);
            let length = read_be32(&payload, 8);
            if id == 6 {
                Ok(Message::Request { index, begin, length })
            } else {
                Ok(Message::Cancel { index, begin, length })
            }
        } else if id == 7 {
            if len < 8 {
                return Err(Error::InvalidPayloadLength { expected: 8, actual: len });
            }
            let index = read_be32(&payload, 0);
            let begin = read_be32(&payload, 4);
            let block = vstd::slice::slice_to_vec(
                vstd::slice::slice_subrange(payload.as_slice(), 8, len),
            );
            assert(block@ =~= payload@.skip(8));
            Ok(Message::Piece { index, begin, block })
        } else if id == 20 {
            Ok(Message::Extended(payload))
        } else {
            Err(Error::InvalidMessageId(id))
        }
    }

    /// Decodes one complete length-prefixed frame: a four-byte big-endian
    /// length `N`, then `N` bytes of body.  `N == 0` is a keep-alive; the
    /// first body byte otherwise is the message id.
    pub fn decode_frame(frame: &[u8]) -> (r: Result<Message, Error>)
        requires
            frame@.len() >= 4,
            frame@.len() == 4 + be32(frame@[0], frame@[1], frame@[2], frame@[3]),
        ensures
            frame@.len() == 4 ==> r == Ok::<Message, Error>(Message::KeepAlive),
            frame@.len() == 5 && frame@[4] <= 3 ==> {
                &&& frame@[4] == 0 ==> r == Ok::<Message, Error>(Message::Choke)
                &&& frame@[4] == 1 ==> r == Ok::<Message, Error>(Message::Unchoke)
                &&& frame@[4] == 2 ==> r == Ok::<Message, Error>(Message::Interested)
                &&& frame@[4] == 3 ==> r == Ok::<Message, Error>(Message::NotInterested)
            },
            frame@.len() > 4 && !(frame@.len() == 5 && frame@[4] <= 3) ==> message_post(
                frame@[4],
                frame@.skip(5),
                r,
            ),
    {
        if frame.len() == 4 {
            return Ok(Message::KeepAlive);
        }
        let id = frame[4];
        if frame.len() == 5 && id <= 3 {
            return Ok(Message::from_id(id));
        }
        let payload = vstd::slice::slice_to_vec(
            vstd::slice::slice_subrange(frame, 5, frame.len()),
        );
        assert(payload@ =~= frame@.skip(5));
        Message::from_id_and_payload(id, payload)
    }
}

/// The fixed 68-byte handshake: a length byte of 19, the ASCII protocol
/// name, eight reserved zero bytes, the info-hash, and the peer id.
pub open spec fn protocol_name() -> Seq<u8> {
    seq![
        66u8,
        105,
        116,
        84,
        111,
        114,
        114,
        101,
        110,
        116,
        32,
        112,
        114,
        111,
        116,
        111,
        99,
        111,
        108,
    ]
}

/// The handshake bytes this client sends for an info-hash and peer id.
pub open spec fn handshake_bytes(info_hash: Seq<u8>, peer_id: Seq<u8>) -> Seq<u8> {
    seq![19u8] + protocol_name() + seq![0u8, 0, 0, 0, 0, 0, 0, 0] + info_hash + peer_id
}

/// Builds the 68-byte handshake message.
pub fn handshake_frame(info_hash: &[u8; 20], peer_id: &[u8; 20]) -> (r: Vec<u8>)
    ensures
        r@ == handshake_bytes(info_hash@, peer_id@),
        r@.len() == 68,
{
    let mut out: Vec<u8> = vec![
        19u8, 66, 105, 116, 84, 111, 114, 114, 101, 110, 116, 32, 112, 114, 111, 116, 111, 99,
        111, 108, 0, 0, 0, 0, 0, 0, 0, 0,
    ];
    out.extend_from_slice(info_hash.as_slice());
    out.extend_from_slice(peer_id.as_slice());
    assert(out@ =~= handshake_bytes(info_hash@, peer_id@));
    out
}

/// Whether a peer's 68-byte handshake response carries the expected
/// info-hash (bytes 28 to 47).  A mismatch is fatal for the session.
pub fn handshake_matches(response: &[u8; 68], info_hash: &[u8; 20]) -> (r: bool)
    ensures
        r == (response@.subrange(28, 48) == info_hash@),
{
    let mut i: usize = 0;
    while i < 20
        invariant
            i <= 20,
            forall|j: int| 0 <= j < i ==> response@[28 + j] == info_hash@[j],
        decreases 20 - i,
    {
        if response[28 + i] != info_hash[i] {
            assert(response@.subrange(28, 48)[i as int] != info_hash@[i as int]);
            return false;
        }
        i = i + 1;
    }
    assert(response@.subrange(28, 48) =~= info_hash@);
    true
}

/// The abstract state of one peer connection.
pub ghost struct PeerView {
    pub is_choking: bool,
    pub is_interested: bool,
    pub am_choking: bool,
    pub am_interested: bool,
    pub bits: Seq<bool>,
}

/// Per-connection peer state: the four choke and interest flags and the
/// remote bitfield.  The connection itself is owned by the caller.
pub struct Peer {
    is_choking: bool,
    is_interested: bool,
    am_choking: bool,
    am_interested: bool,
    bitfield: bit_vec::BitVec,
}

impl View for Peer {
    type V = PeerView;

    closed spec fn view(&self) -> PeerView {
        PeerView {
            is_choking: self.is_choking,
            is_interested: self.is_interested,
            am_choking: self.am_choking,
            am_interested: self.am_interested,
            bits: bits_of(self.bitfield),
        }
    }
}

impl Peer {
    /// Fresh state for a new connection: both sides choking, neither
    /// interested, no piece known to be held by the peer.
    pub fn new(num_pieces: usize) -> (r: Peer)
        ensures
            r@ == (PeerView {
                is_choking: true,
                is_interested: false,
                am_choking: true,
                am_interested: false,
                bits: Seq::new(num_pieces as nat, |i: int| false),
            }),
    {
        Peer {
            is_choking: true,
            is_interested: false,
            am_interested: false,
            am_choking: true,
            bitfield: bits_from_elem(num_pieces, false),
        }
    }

    pub fn bitfield(&self) -> (r: &bit_vec::BitVec)
        ensures
            bits_of(*r) == self@.bits,
    {
        &self.bitfield
    }

    pub fn set_is_choking(&mut self, value: bool)
        ensures
            final(self)@ == (PeerView { is_choking: value, ..old(self)@ }),
    {
        self.is_choking = value;
    }

    pub fn set_is_interested(&mut self, value: bool)
        ensures
            final(self)@ == (PeerView { is_interested: value, ..old(self)@ }),
    {
        self.is_interested = value;
    }

    pub fn am_choking(&self) -> (r: bool)
        ensures
            r == self@.am_choking,
    {
        self.am_choking
    }

    pub fn is_choking(&self) -> (r: bool)
        ensures
            r == self@.is_choking,
    {
        self.is_choking
    }

    pub fn am_interested(&self) -> (r: bool)
        ensures
            r == self@.am_interested,
    {
        self.am_interested
    }

    pub fn is_interested(&self) -> (r: bool)
        ensures
            r == self@.is_interested,
    {
        self.is_interested
    }

    /// The unchoke message, to be written to the peer; sending it means this
    /// side no longer chokes the peer.
    pub fn send_unchoke(&mut self) -> (frame: Vec<u8>)
        ensures
            final(self)@ == (PeerView { am_choking: false, ..old(self)@ }),
            frame@ == seq![0u8, 0, 0, 1, 1],
    {
        self.am_choking = false;
        let out: Vec<u8> = vec![0u8, 0, 0, 1, 1];
        assert(out@ =~= seq![0u8, 0, 0, 1, 1]);
        out
    }

    /// The interested message, to be written to the peer; sending it means
    /// this side is interested.
    pub fn send_interested(&mut self) -> (frame: Vec<u8>)
        ensures
            final(self)@ == (PeerView { am_interested: true, ..old(self)@ }),
            frame@ == seq![0u8, 0, 0, 1, 2],
    {
        self.am_interested = true;
        let out: Vec<u8> = vec![0u8, 0, 0, 1, 2];
        assert(out@ =~= seq![0u8, 0, 0, 1, 2]);
        out
    }

    /// The request message for a block, to be written to the peer.
    pub fn send_request(&self, index: u32, begin: u32, length: u32) -> (frame: Vec<u8>)
        ensures
            frame@ == seq![0u8, 0, 0, 13, 6] + be_bytes32(index) + be_bytes32(begin) + be_bytes32(
                length,
            ),
    {
        let mut out: Vec<u8> = vec![0u8, 0, 0, 13, 6];
        push_be32(&mut out, index);
        push_be32(&mut out, begin);
        push_be32(&mut out, length);
        assert(out@ =~= seq![0u8, 0, 0, 13, 6] + be_bytes32(index) + be_bytes32(begin)
            + be_bytes32(length));
        out
    }

    /// Replaces the whole remote bitfield, as a bitfield message does.
    pub fn update_bitfield(&mut self, bitfield: Vec<u8>)
        ensures
            final(self)@ == (PeerView {
                bits: Seq::new(8 * bitfield@.len(), |i: int| byte_bit(bitfield@[i / 8], i % 8)),
                ..old(self)@
            }),
    {
        self.bitfield = bits_from_bytes(bitfield.as_slice());
    }

    /// Marks one piece as held by the peer, as a have message does.
    pub fn update_piece(&mut self, piece_index: usize)
        requires
            piece_index < old(self)@.bits.len(),
        ensures
            final(self)@ == (PeerView {
                bits: old(self)@.bits.update(piece_index as int, true),
                ..old(self)@
            }),
    {
        bits_set(&mut self.bitfield, piece_index, true);
    }

    /// Whether the peer holds piece `i`; out-of-range indices count as not
    /// held.
    pub fn has_piece(&self, i: usize) -> (r: bool)
        ensures
            r == (i < self@.bits.len() && self@.bits[i as int]),
    {
        match bits_get(&self.bitfield, i) {
            Some(b) => b,
            None => false,
        }
    }

    /// The number of pieces the bitfield covers.
    pub fn num_pieces(&self) -> (r: usize)
        ensures
            r == self@.bits.len(),
    {
        bits_len(&self.bitfield)
    }
}

/// Appends the four big-endian bytes of `x`.
fn push_be32(out: &mut Vec<u8>, x: u32)
    ensures
        final(out)@ == old(out)@ + be_bytes32(x),
{
    out.push((x / 0x1000000) as u8);
    out.push(((x / 0x10000) % 0x100) as u8);
    out.push(((x / 0x100) % 0x100) as u8);
    out.push((x % 0x100) as u8);
    assert(final(out)@ =~= old(out)@ + be_bytes32(x));
}

} // verus!
