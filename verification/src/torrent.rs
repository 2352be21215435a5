//! The download scheduler: the global record of which pieces are done and
//! which are available, the per-session assignment state, and the decision
//! logic that drives each peer session from the messages it receives.
//!
//! All network and file I/O stays with the caller: the functions here take
//! a message (or another event) and the shared state, decide, and hand back
//! the action to perform.  The shared state is examined and changed in one
//! call, so a caller holding a lock around the call gets the atomicity the
//! protocol needs.

use crate::bits::{bits_all, bits_from_elem, bits_get, bits_of, bits_set};
use crate::metainfo;
use crate::metainfo::MetaInfo;
use crate::peer;
use crate::peer::{Message, Peer, PeerView, WriteMessage};
use crate::tracker;
use crate::tracker::PeerAddr;
use std::collections::HashSet;
use vstd::prelude::*;

verus! {

broadcast use vstd::std_specs::hash::group_hash_axioms;

/// The transfer block size: requests ask for at most this many bytes.
pub const BLOCK_SIZE: u32 = 16384;

/// Everything that can end a download.
#[derive(Debug)]
pub enum Error {
    MetaInfoError(metainfo::Error),
    TrackerError(tracker::Error),
    PeerError(peer::Error),
}

/// A session's current assignment: the piece it is downloading and the
/// offset the next request starts at.  The offset is zero whenever no piece
/// is assigned.
#[derive(Debug, Clone, Copy, PartialEq, Eq, Structural)]
pub struct DownloadingPiece {
    pub piece: Option<u32>,
    pub offset: u32,
}

impl DownloadingPiece {
    pub fn new() -> (r: DownloadingPiece)
        ensures
            r.piece is None,
            r.offset == 0,
    {
        DownloadingPiece { piece: None, offset: 0 }
    }

    /// A session's assignment state is well formed when an unassigned
    /// session has offset zero and an assigned one has not run past its
    /// piece.
    pub open spec fn wf(&self, num_pieces: u32, piece_length: u32, last_piece_length: u32) -> bool {
        match self.piece {
            None => self.offset == 0,
            Some(p) => self.offset < piece_size_of(
                num_pieces,
                piece_length,
                last_piece_length,
                p as int,
            ),
        }
    }
}

/// The byte size of piece `i`: `piece_length` for all but the last piece.
pub open spec fn piece_size_of(
    num_pieces: u32,
    piece_length: u32,
    last_piece_length: u32,
    i: int,
) -> int {
    if i == num_pieces - 1 {
        last_piece_length as int
    } else {
        piece_length as int
    }
}

/// Length of the final piece: the total file length minus the bytes covered
/// by all earlier pieces.
pub fn get_last_piece_length(file_length: usize, pieces: usize, piece_length: usize) -> (r: u32)
    requires
        pieces >= 1,
        piece_length * (pieces - 1) <= file_length,
        file_length - piece_length * (pieces - 1) <= u32::MAX,
    ensures
        r == file_length - piece_length * (pieces - 1),
{
    let length_without_last_piece = piece_length * (pieces - 1);
    (file_length - length_without_last_piece) as u32
}

/// Whether the peer holds some piece that is still available: the test that
/// decides interest.
pub fn is_there_next_piece(peer: &Peer, available_pieces: &HashSet<u32>) -> (r: bool)
    requires
        peer@.bits.len() <= u32::MAX,
    ensures
        r == exists|j: int|
            0 <= j < peer@.bits.len() && #[trigger] peer@.bits[j] && available_pieces@.contains(
                j as u32,
            ),
{
    let n = peer.num_pieces();
    let mut i: usize = 0;
    while i < n
        invariant
            i <= n,
            n == peer@.bits.len(),
            n <= u32::MAX,
            forall|j: int|
                0 <= j < i ==> !(#[trigger] peer@.bits[j] && available_pieces@.contains(j as u32)),
        decreases n - i,
    {
        if peer.has_piece(i) && available_pieces.contains(&(i as u32)) {
            return true;
        }
        i = i + 1;
    }
    false
}

/// Picks the smallest piece the peer holds that is still available, and
/// claims it by removing it from the available set.  Whoever holds the lock
/// around this call gets the piece exclusively: no other session can claim
/// it until it is released.
pub fn get_next_piece(peer: &Peer, available_pieces: &mut HashSet<u32>) -> (r: Option<u32>)
    requires
        peer@.bits.len() <= u32::MAX,
    ensures
        match r {
            Some(i) => {
                &&& 0 <= i < peer@.bits.len() && peer@.bits[i as int]
                &&& old(available_pieces)@.contains(i)
                &&& final(available_pieces)@ == old(available_pieces)@.remove(i)
                &&& forall|j: int|
                    0 <= j < i ==> !(#[trigger] peer@.bits[j] && old(available_pieces)@.contains(
                        j as u32,
                    ))
            },
            None => {
                &&& final(available_pieces)@ == old(available_pieces)@
                &&& forall|j: int|
                    0 <= j < peer@.bits.len() ==> !(#[trigger] peer@.bits[j] && old(
                        available_pieces,
                    )@.contains(j as u32))
            },
        },
{
    let n = peer.num_pieces();
    let mut i: usize = 0;
    while i < n
        invariant
            i <= n,
            n == peer@.bits.len(),
            n <= u32::MAX,
            forall|j: int|
                0 <= j < i ==> !(#[trigger] peer@.bits[j] && available_pieces@.contains(j as u32)),
            *available_pieces == *old(available_pieces),
        decreases n - i,
    {
        let piece = i as u32;
        if peer.has_piece(i) && available_pieces.contains(&piece) {
            available_pieces.remove(&piece);
            return Some(piece);
        }
        i = i + 1;
    }
    None
}

/// Puts one piece back into the available set, unless the file already has
/// it.
pub fn release_piece(
    available_pieces: &mut HashSet<u32>,
    file_bitfield: &bit_vec::BitVec,
    piece: u32,
)
    ensures
        final(available_pieces)@ == (if (piece as int) < bits_of(*file_bitfield).len() && !bits_of(
            *file_bitfield,
        )[piece as int] {
            old(available_pieces)@.insert(piece)
        } else {
            old(available_pieces)@
        }),
{
    match bits_get(file_bitfield, piece as usize) {
        Some(b) => {
            if !b {
                available_pieces.insert(piece);
            }
        },
        None => {},
    }
}

/// The release protocol a session runs on every exit path: an open
/// assignment that the file does not yet hold goes back into the available
/// set, and the session keeps no assignment.
pub fn release_assignment(
    dp: &mut DownloadingPiece,
    available_pieces: &mut HashSet<u32>,
    file_bitfield: &bit_vec::BitVec,
)
    ensures
        final(dp).piece is None,
        final(dp).offset == 0,
        match old(dp).piece {
            Some(i) => final(available_pieces)@ == (if (i as int) < bits_of(
                *file_bitfield,
            ).len() && !bits_of(*file_bitfield)[i as int] {
                old(available_pieces)@.insert(i)
            } else {
                old(available_pieces)@
            }),
            None => final(available_pieces)@ == old(available_pieces)@,
        },
{
    match dp.piece {
        Some(i) => {
            release_piece(available_pieces, file_bitfield, i);
        },
        None => {},
    }
    dp.piece = None;
    dp.offset = 0;
}

/// What a session should do after handling a message.
#[derive(Debug, Clone, Copy, PartialEq, Eq, Structural)]
pub enum Action {
    DoNothing,
    /// Close the connection; the caller then runs the release protocol.
    Close,
    /// Write the interested message to the peer.
    SendInterested,
    /// Write a request for `length` bytes of piece `index` at `begin`.
    SendRequest { index: u32, begin: u32, length: u32 },
}

/// The smaller of `BLOCK_SIZE` and what remains of the piece.
pub open spec fn clamped(remaining: int) -> int {
    if remaining < BLOCK_SIZE as int {
        remaining
    } else {
        BLOCK_SIZE as int
    }
}

/// What acquiring new work must look like: either the smallest available
/// piece the peer holds was claimed and the first block of it requested, or
/// nothing was available and the session closes.
pub open spec fn acquire_post(
    peerv: PeerView,
    avail0: Set<u32>,
    avail1: Set<u32>,
    dp1: DownloadingPiece,
    action: Action,
    num_pieces: u32,
    piece_length: u32,
    last_piece_length: u32,
) -> bool {
    match action {
        Action::SendRequest { index, begin, length } => {
            &&& 0 <= index < peerv.bits.len() && peerv.bits[index as int]
            &&& avail0.contains(index)
            &&& avail1 == avail0.remove(index)
            &&& forall|j: int|
                0 <= j < index ==> !(#[trigger] peerv.bits[j] && avail0.contains(j as u32))
            &&& dp1.piece == Some(index)
            &&& dp1.offset == 0
            &&& begin == 0
            &&& length == clamped(
                piece_size_of(num_pieces, piece_length, last_piece_length, index as int),
            )
        },
        Action::Close => {
            &&& avail1 == avail0
            &&& dp1.piece is None
            &&& dp1.offset == 0
            &&& forall|j: int|
                0 <= j < peerv.bits.len() ==> !(#[trigger] peerv.bits[j] && avail0.contains(
                    j as u32,
                ))
        },
        _ => false,
    }
}

/// The byte size of piece `i`.
fn piece_size_at(num_pieces: u32, piece_length: u32, last_piece_length: u32, i: u32) -> (r: u32)
    requires
        num_pieces >= 1,
    ensures
        r == piece_size_of(num_pieces, piece_length, last_piece_length, i as int),
{
    if i == num_pieces - 1 {
        last_piece_length
    } else {
        piece_length
    }
}

/// Drives one peer session one step: updates the connection state, the
/// session's assignment, and the available set, and returns the block to
/// forward to the assembler (if any) together with the action to perform.
/// The decisions follow the protocol: interest tracks whether the peer has
/// a needed piece; an unchoked session without work claims the smallest
/// available piece the peer holds; arriving blocks advance the assignment
/// and are requested in order; a session with nothing left to ask for
/// closes.
pub fn handle_message(
    peer: &mut Peer,
    dp: &mut DownloadingPiece,
    available_pieces: &mut HashSet<u32>,
    msg: &Message,
    num_pieces: u32,
    piece_length: u32,
    last_piece_length: u32,
) -> (r: (Option<WriteMessage>, Action))
    requires
        old(peer)@.bits.len() <= u32::MAX,
        num_pieces >= 1,
        1 <= last_piece_length <= piece_length,
        old(dp).wf(num_pieces, piece_length, last_piece_length),
        msg matches Message::Have(i) ==> (*i as int) < old(peer)@.bits.len(),
        msg is Piece ==> old(dp).piece is Some,
        msg matches Message::Piece { index, begin, block } ==> old(dp).piece matches Some(p) && old(
            dp,
        ).offset + block@.len() <= piece_size_of(
            num_pieces,
            piece_length,
            last_piece_length,
            p as int,
        ) && block@.len() >= 1,
    ensures
        final(dp).wf(num_pieces, piece_length, last_piece_length),
        msg is KeepAlive ==> {
            &&& *final(peer) == *old(peer)
            &&& *final(dp) == *old(dp)
            &&& final(available_pieces)@ == old(available_pieces)@
            &&& r.0 is None
            &&& r.1 == (if exists|j: int|
                0 <= j < old(peer)@.bits.len() && #[trigger] old(peer)@.bits[j] && old(
                    available_pieces,
                )@.contains(j as u32) {
                Action::DoNothing
            } else {
                Action::Close
            })
        },
        msg is Choke ==> {
            &&& final(peer)@ == (PeerView { is_choking: true, ..old(peer)@ })
            &&& *final(dp) == *old(dp)
            &&& final(available_pieces)@ == old(available_pieces)@
            &&& r.0 is None && r.1 == Action::DoNothing
        },
        msg is Unchoke ==> r.0 is None,
        msg is Unchoke && !old(peer)@.is_choking ==> {
            &&& *final(peer) == *old(peer)
            &&& *final(dp) == *old(dp)
            &&& final(available_pieces)@ == old(available_pieces)@
            &&& r.1 == Action::DoNothing
        },
        msg is Unchoke && old(peer)@.is_choking ==> final(peer)@ == (PeerView {
            is_choking: false,
            ..old(peer)@
        }),
        msg is Unchoke && old(peer)@.is_choking && old(dp).piece is None ==> acquire_post(
            old(peer)@,
            old(available_pieces)@,
            final(available_pieces)@,
            *final(dp),
            r.1,
            num_pieces,
            piece_length,
            last_piece_length,
        ),
        msg is Unchoke && old(peer)@.is_choking && old(dp).piece is Some ==> {
            &&& *final(dp) == *old(dp)
            &&& final(available_pieces)@ == old(available_pieces)@
            &&& r.1 == Action::SendRequest {
                index: old(dp).piece->0,
                begin: old(dp).offset,
                length: clamped(
                    piece_size_of(
                        num_pieces,
                        piece_length,
                        last_piece_length,
                        old(dp).piece->0 as int,
                    ) - old(dp).offset,
                ) as u32,
            }
        },
        msg is Interested ==> {
            &&& final(peer)@ == (PeerView { is_interested: true, ..old(peer)@ })
            &&& *final(dp) == *old(dp)
            &&& final(available_pieces)@ == old(available_pieces)@
            &&& r.0 is None && r.1 == Action::DoNothing
        },
        msg is NotInterested ==> {
            &&& final(peer)@ == (PeerView { is_interested: false, ..old(peer)@ })
            &&& *final(dp) == *old(dp)
            &&& final(available_pieces)@ == old(available_pieces)@
            &&& r.0 is None && r.1 == Action::DoNothing
        },
        msg matches Message::Have(i) ==> {
            &&& *final(dp) == *old(dp)
            &&& final(available_pieces)@ == old(available_pieces)@
            &&& r.0 is None
            &&& {
                let newbits = old(peer)@.bits.update(i as int, true);
                let interested = !old(peer)@.am_interested && (exists|j: int|
                    0 <= j < newbits.len() && #[trigger] newbits[j] && old(
                        available_pieces,
                    )@.contains(j as u32));
                if interested {
                    r.1 == Action::SendInterested && final(peer)@ == (PeerView {
                        am_interested: true,
                        bits: newbits,
                        ..old(peer)@
                    })
                } else {
                    r.1 == Action::DoNothing && final(peer)@ == (PeerView {
                        bits: newbits,
                        ..old(peer)@
                    })
                }
            }
        },
        msg matches Message::Bitfield(b) ==> {
            &&& *final(dp) == *old(dp)
            &&& final(available_pieces)@ == old(available_pieces)@
            &&& r.0 is None
            &&& {
                let newbits = Seq::new(
                    8 * b@.len(),
                    |j: int| crate::bits::byte_bit(b@[j / 8], j % 8),
                );
                let interested = !old(peer)@.am_interested && newbits.len() <= u32::MAX && (
                exists|j: int|
                    0 <= j < newbits.len() && #[trigger] newbits[j] && old(
                        available_pieces,
                    )@.contains(j as u32));
                if interested {
                    r.1 == Action::SendInterested && final(peer)@ == (PeerView {
                        am_interested: true,
                        bits: newbits,
                        ..old(peer)@
                    })
                } else {
                    r.1 == Action::DoNothing && final(peer)@ == (PeerView {
                        bits: newbits,
                        ..old(peer)@
                    })
                }
            }
        },
        msg matches Message::Piece { index, begin, block } ==> {
            &&& *final(peer) == *old(peer)
            &&& r.0 matches Some(wm) && wm.index() == index && wm.begin() == begin
                && wm.block()@ == block@
            &&& {
                let p = old(dp).piece->0;
                let size = piece_size_of(num_pieces, piece_length, last_piece_length, p as int);
                let advanced = old(dp).offset + block@.len();
                if advanced == size {
                    acquire_post(
                        old(peer)@,
                        old(available_pieces)@,
                        final(available_pieces)@,
                        *final(dp),
                        r.1,
                        num_pieces,
                        piece_length,
                        last_piece_length,
                    )
                } else {
                    &&& final(available_pieces)@ == old(available_pieces)@
                    &&& final(dp).piece == old(dp).piece
                    &&& final(dp).offset == advanced
                    &&& r.1 == Action::SendRequest {
                        index: p,
                        begin: advanced as u32,
                        length: clamped(size - advanced) as u32,
                    }
                }
            }
        },
        msg is Request || msg is Cancel || msg is Extended ==> {
            &&& *final(peer) == *old(peer)
            &&& *final(dp) == *old(dp)
            &&& final(available_pieces)@ == old(available_pieces)@
            &&& r.0 is None && r.1 == Action::DoNothing
        },
{
    let ghost peer0 = *peer;
    let ghost dp0 = *dp;
    let ghost avail0 = available_pieces@;
    match msg {
        Message::KeepAlive => {
            if is_there_next_piece(peer, available_pieces) {
                (None, Action::DoNothing)
            } else {
                (None, Action::Close)
            }
        },
        Message::Choke => {
            peer.set_is_choking(true);
            (None, Action::DoNothing)
        },
        Message::Unchoke => {
            if !peer.is_choking() {
                return (None, Action::DoNothing);
            }
            peer.set_is_choking(false);
            proof {
                assert(peer@ == (PeerView { is_choking: false, ..peer0@ }));
            }
            match dp.piece {
                None => {
                    match get_next_piece(peer, available_pieces) {
                        Some(next_piece) => {
                            dp.piece = Some(next_piece);
                            let size = piece_size_at(
                                num_pieces,
                                piece_length,
                                last_piece_length,
                                next_piece,
                            );
                            let length = if size < BLOCK_SIZE {
                                size
                            } else {
                                BLOCK_SIZE
                            };
                            let act = Action::SendRequest { index: next_piece, begin: 0, length };
                            proof {
                                assert(avail0.contains(next_piece));
                                assert(available_pieces@ == avail0.remove(next_piece));
                                assert(dp.piece == Some(next_piece) && dp.offset == 0);
                                assert(length == clamped(
                                    piece_size_of(
                                        num_pieces,
                                        piece_length,
                                        last_piece_length,
                                        next_piece as int,
                                    ),
                                ));
                                assert(acquire_post(
                                    peer0@,
                                    avail0,
                                    available_pieces@,
                                    *dp,
                                    act,
                                    num_pieces,
                                    piece_length,
                                    last_piece_length,
                                ));
                            }
                            (None, act)
                        },
                        None => {
                            proof {
                                assert(dp.piece is None && dp.offset == 0);
                                assert(available_pieces@ == avail0);
                                assert(peer@.bits == peer0@.bits);
                                assert forall|j: int|
                                    0 <= j < peer0@.bits.len() implies !(#[trigger] peer0@.bits[j]
                                    && avail0.contains(j as u32)) by {
                                    assert(!(peer@.bits[j] && avail0.contains(j as u32)));
                                }
                                assert(acquire_post(
                                    peer0@,
                                    avail0,
                                    available_pieces@,
                                    *dp,
                                    Action::Close,
                                    num_pieces,
                                    piece_length,
                                    last_piece_length,
                                ));
                            }
                            (None, Action::Close)
                        },
                    }
                },
                Some(p) => {
                    let size = piece_size_at(num_pieces, piece_length, last_piece_length, p);
                    let remaining = size - dp.offset;
                    let length = if remaining < BLOCK_SIZE {
                        remaining
                    } else {
                        BLOCK_SIZE
                    };
                    proof {
                        assert(length == clamped(
                            piece_size_of(num_pieces, piece_length, last_piece_length, p as int)
                                - dp0.offset,
                        ));
                    }
                    (None, Action::SendRequest { index: p, begin: dp.offset, length })
                },
            }
        },
        Message::Interested => {
            peer.set_is_interested(true);
            (None, Action::DoNothing)
        },
        Message::NotInterested => {
            peer.set_is_interested(false);
            (None, Action::DoNothing)
        },
        Message::Have(i) => {
            peer.update_piece(*i as usize);
            let ghost newbits = peer0@.bits.update(*i as int, true);
            proof {
                assert(peer@ == (PeerView { bits: newbits, ..peer0@ }));
            }
            if !peer.am_interested() {
                let has_needed = is_there_next_piece(peer, available_pieces);
                proof {
                    if has_needed {
                        let j = choose|j: int|
                            0 <= j < peer@.bits.len() && #[trigger] peer@.bits[j]
                                && available_pieces@.contains(j as u32);
                        assert(0 <= j < newbits.len() && newbits[j] && avail0.contains(j as u32));
                    } else {
                        assert forall|j: int|
                            0 <= j < newbits.len() implies !(#[trigger] newbits[j]
                            && avail0.contains(j as u32)) by {
                            assert(!(peer@.bits[j] && available_pieces@.contains(j as u32)));
                        }
                    }
                }
                if has_needed {
                    let _frame = peer.send_interested();
                    proof {
                        assert(peer@ == (PeerView {
                            am_interested: true,
                            bits: newbits,
                            ..peer0@
                        }));
                    }
                    (None, Action::SendInterested)
                } else {
                    (None, Action::DoNothing)
                }
            } else {
                (None, Action::DoNothing)
            }
        },
        Message::Bitfield(b) => {
            let copy = vstd::slice::slice_to_vec(b.as_slice());
            peer.update_bitfield(copy);
            let ghost newbits = Seq::new(
                8 * b@.len(),
                |j: int| crate::bits::byte_bit(b@[j / 8], j % 8),
            );
            proof {
                assert(peer@.bits =~= newbits);
                assert(peer@ == (PeerView { bits: newbits, ..peer0@ }));
            }
            let fits = peer.num_pieces() <= 0xffff_ffff;
            if !peer.am_interested() && fits {
                let has_needed = is_there_next_piece(peer, available_pieces);
                proof {
                    if has_needed {
                        let j = choose|j: int|
                            0 <= j < peer@.bits.len() && #[trigger] peer@.bits[j]
                                && available_pieces@.contains(j as u32);
                        assert(0 <= j < newbits.len() && newbits[j] && avail0.contains(j as u32));
                    } else {
                        assert forall|j: int|
                            0 <= j < newbits.len() implies !(#[trigger] newbits[j]
                            && avail0.contains(j as u32)) by {
                            assert(!(peer@.bits[j] && available_pieces@.contains(j as u32)));
                        }
                    }
                }
                if has_needed {
                    let _frame = peer.send_interested();
                    proof {
                        assert(peer@ == (PeerView {
                            am_interested: true,
                            bits: newbits,
                            ..peer0@
                        }));
                    }
                    (None, Action::SendInterested)
                } else {
                    (None, Action::DoNothing)
                }
            } else {
                (None, Action::DoNothing)
            }
        },
        Message::Piece { index, begin, block } => {
            let wm = WriteMessage::new(*index, *begin, block.as_slice());
            let p = dp.piece.unwrap();
            let size = piece_size_at(num_pieces, piece_length, last_piece_length, p);
            let advanced = dp.offset + block.len() as u32;
            if advanced == size {
                dp.piece = None;
                dp.offset = 0;
                match get_next_piece(peer, available_pieces) {
                    Some(next_piece) => {
                        dp.piece = Some(next_piece);
                        let nsize = piece_size_at(
                            num_pieces,
                            piece_length,
                            last_piece_length,
                            next_piece,
                        );
                        let length = if nsize < BLOCK_SIZE {
                            nsize
                        } else {
                            BLOCK_SIZE
                        };
                        (Some(wm), Action::SendRequest { index: next_piece, begin: 0, length })
                    },
                    None => (Some(wm), Action::Close),
                }
            } else {
                dp.offset = advanced;
                let remaining = size - advanced;
                let length = if remaining < BLOCK_SIZE {
                    remaining
                } else {
                    BLOCK_SIZE
                };
                (Some(wm), Action::SendRequest { index: p, begin: advanced, length })
            }
        },
        Message::Request { .. } => (None, Action::DoNothing),
        Message::Cancel { .. } => (None, Action::DoNothing),
        Message::Extended(_) => (None, Action::DoNothing),
    }
}

/// No duplicate work: a session only acquires a piece by removing it from
/// the available set under the lock, and every other session's open
/// assignment is already outside that set.  So the acquired piece differs
/// from every other session's assignment, and the other assignments stay
/// outside the set: at any instant at most one session is assigned any
/// given piece.
pub proof fn lemma_no_duplicate_work(avail0: Set<u32>, avail1: Set<u32>, i: u32, other: Option<u32>)
    requires
        match other {
            Some(j) => !avail0.contains(j),
            None => true,
        },
        avail0.contains(i),
        avail1 == avail0.remove(i),
    ensures
        other != Some(i),
        match other {
            Some(j) => !avail1.contains(j),
            None => true,
        },
{
}

/// The scheduler's shared state: the torrent descriptor, this client's peer
/// id, which pieces the file has, which pieces are available to assign, and
/// which peer addresses are connected (packed into integers).
pub struct Torrent {
    pub peer_id: [u8; 20],
    pub metainfo: MetaInfo,
    pub file_bitfield: bit_vec::BitVec,
    pub available_pieces: HashSet<u32>,
    pub connected_peers: HashSet<u64>,
}

/// A peer address packed into one integer, for the connected-peers set.
pub open spec fn spec_addr_key(a: PeerAddr) -> u64 {
    (((a.ip0 as int) * 0x1000000 + (a.ip1 as int) * 0x10000 + (a.ip2 as int) * 0x100 + (
    a.ip3 as int)) * 0x10000 + a.port as int) as u64
}

/// Packs a peer address into one integer.
pub fn addr_key(a: &PeerAddr) -> (r: u64)
    ensures
        r == spec_addr_key(*a),
{
    ((a.ip0 as u64) * 0x1000000 + (a.ip1 as u64) * 0x10000 + (a.ip2 as u64) * 0x100 + (
    a.ip3 as u64)) * 0x10000 + (a.port as u64)
}

impl Torrent {
    /// Fresh scheduler state for a descriptor: an all-zero file bitfield
    /// and every piece available.
    pub fn new(metainfo: MetaInfo, peer_id: [u8; 20]) -> (r: Torrent)
        requires
            metainfo.info.pieces@.len() <= u32::MAX,
        ensures
            r.metainfo == metainfo,
            r.peer_id@ == peer_id@,
            bits_of(r.file_bitfield) == Seq::new(metainfo.info.pieces@.len(), |i: int| false),
            r.available_pieces@ == Set::new(|x: u32| (x as int) < metainfo.info.pieces@.len()),
            r.connected_peers@ == Set::<u64>::empty(),
    {
        let num_pieces = metainfo.info.pieces.len();
        let file_bitfield = bits_from_elem(num_pieces, false);
        let mut available_pieces: HashSet<u32> = HashSet::new();
        let mut i: usize = 0;
        while i < num_pieces
            invariant
                i <= num_pieces,
                num_pieces == metainfo.info.pieces@.len(),
                num_pieces <= u32::MAX,
                available_pieces@ == Set::new(|x: u32| (x as int) < i),
            decreases num_pieces - i,
        {
            available_pieces.insert(i as u32);
            proof {
                assert(available_pieces@ =~= Set::new(|x: u32| (x as int) < i + 1));
            }
            i = i + 1;
        }
        proof {
            assert(available_pieces@ =~= Set::new(
                |x: u32| (x as int) < metainfo.info.pieces@.len(),
            ));
        }
        let connected_peers: HashSet<u64> = HashSet::new();
        Torrent { peer_id, metainfo, file_bitfield, available_pieces, connected_peers }
    }

    pub fn metainfo(&self) -> (r: &MetaInfo)
        ensures
            r == &self.metainfo,
    {
        &self.metainfo
    }

    pub fn info_hash(&self) -> (r: &[u8; 20])
        ensures
            r == &self.metainfo.info_hash,
    {
        &self.metainfo.info_hash
    }

    /// Whether every piece has been verified and written.
    pub fn is_complete(&self) -> (r: bool)
        ensures
            r == (forall|i: int|
                0 <= i < bits_of(self.file_bitfield).len() ==> bits_of(self.file_bitfield)[i]),
    {
        bits_all(&self.file_bitfield)
    }

    /// Marks one piece as verified and written.
    pub fn mark_piece_done(&mut self, i: u32)
        requires
            (i as int) < bits_of(old(self).file_bitfield).len(),
        ensures
            bits_of(final(self).file_bitfield) == bits_of(old(self).file_bitfield).update(
                i as int,
                true,
            ),
            final(self).metainfo == old(self).metainfo,
            final(self).peer_id == old(self).peer_id,
            final(self).available_pieces == old(self).available_pieces,
            final(self).connected_peers == old(self).connected_peers,
    {
        bits_set(&mut self.file_bitfield, i as usize, true);
    }

    /// Whether a peer address is already connected.
    pub fn is_connected(&self, key: u64) -> (r: bool)
        ensures
            r == self.connected_peers@.contains(key),
    {
        self.connected_peers.contains(&key)
    }

    /// Records a peer address as connected.
    pub fn connect_peer(&mut self, key: u64)
        ensures
            final(self).connected_peers@ == old(self).connected_peers@.insert(key),
            final(self).metainfo == old(self).metainfo,
            final(self).peer_id == old(self).peer_id,
            final(self).available_pieces == old(self).available_pieces,
            final(self).file_bitfield == old(self).file_bitfield,
    {
        self.connected_peers.insert(key);
    }

    /// Forgets a peer address when its session ends.
    pub fn disconnect_peer(&mut self, key: u64)
        ensures
            final(self).connected_peers@ == old(self).connected_peers@.remove(key),
            final(self).metainfo == old(self).metainfo,
            final(self).peer_id == old(self).peer_id,
            final(self).available_pieces == old(self).available_pieces,
            final(self).file_bitfield == old(self).file_bitfield,
    {
        self.connected_peers.remove(&key);
    }
}

} // verus!
