//! The piece assembler: accumulates blocks per piece, detects completion,
//! verifies each completed piece's SHA-1 against the digest table, and hands
//! verified pieces out together with their file offset.

use crate::bencode::bytes_eq;
use crate::bits::{bits_all, bits_from_elem, bits_of, bits_set_in};
use crate::digest::{sha1_digest, sha1_of};
use vstd::prelude::*;

verus! {

/// A block on its way from a peer session to the piece assembler.
#[derive(Debug)]
pub struct WriteMessage {
    index: u32,
    begin: u32,
    block: Vec<u8>,
}

impl WriteMessage {
    pub fn new(index: u32, begin: u32, block: &[u8]) -> (r: WriteMessage)
        ensures
            r.index() == index,
            r.begin() == begin,
            r.block()@ == block@,
    {
        WriteMessage { index, begin, block: vstd::slice::slice_to_vec(block) }
    }

    #[verifier::when_used_as_spec(spec_index)]
    pub fn index(&self) -> (r: u32)
        ensures
            r == self.index(),
    {
        self.index
    }

    pub closed spec fn spec_index(&self) -> u32 {
        self.index
    }

    #[verifier::when_used_as_spec(spec_begin)]
    pub fn begin(&self) -> (r: u32)
        ensures
            r == self.begin(),
    {
        self.begin
    }

    pub closed spec fn spec_begin(&self) -> u32 {
        self.begin
    }

    #[verifier::when_used_as_spec(spec_block)]
    pub fn block(&self) -> (r: &Vec<u8>)
        ensures
            r == self.block(),
    {
        &self.block
    }

    pub closed spec fn spec_block(&self) -> &Vec<u8> {
        &self.block
    }
}

/// What became of one delivered block.
pub enum BlockOutcome {
    /// The piece is still missing blocks.
    Incomplete,
    /// The piece completed and its SHA-1 matched: write `data` at byte
    /// `offset` of the output file.
    Completed { offset: u64, data: Vec<u8> },
    /// The piece completed but its SHA-1 did not match; its buffer was
    /// discarded, so the piece can be assigned to another peer.
    HashMismatch,
}

/// The piece buffer after copying `block` in at `begin`: the buffer grows to
/// `size` bytes (new bytes zero) and the block's bytes replace what was
/// there.
pub open spec fn overlay(oldb: Seq<u8>, size: int, begin: int, block: Seq<u8>) -> Seq<u8> {
    Seq::new(
        size as nat,
        |k: int|
            if begin <= k < begin + block.len() {
                block[k - begin]
            } else if 0 <= k < oldb.len() {
                oldb[k]
            } else {
                0u8
            },
    )
}

/// Builds the grown-and-overwritten piece buffer.
fn build_overlay(oldb: &Vec<u8>, size: usize, begin: usize, block: &Vec<u8>) -> (r: Vec<u8>)
    requires
        begin + block@.len() <= size,
        oldb@.len() <= size,
    ensures
        r@ == overlay(oldb@, size as int, begin as int, block@),
{
    let mut out: Vec<u8> = Vec::new();
    let mut k: usize = 0;
    while k < size
        invariant
            k <= size,
            begin + block@.len() <= size,
            oldb@.len() <= size,
            out@.len() == k,
            forall|j: int|
                0 <= j < k ==> out@[j] == overlay(oldb@, size as int, begin as int, block@)[j],
        decreases size - k,
    {
        let b: u8 = if begin <= k && k < begin + block.len() {
            block[k - begin]
        } else if k < oldb.len() {
            oldb[k]
        } else {
            0
        };
        out.push(b);
        k = k + 1;
    }
    assert(out@ =~= overlay(oldb@, size as int, begin as int, block@));
    out
}

/// The piece assembler.  It owns, per piece, the byte buffer being filled
/// and the bit set of arrived blocks, plus the expected digest table.
pub struct Assembler {
    /// Size of every piece but the last.
    pub piece_length: u32,
    /// Size of the last piece.
    pub last_piece_length: u32,
    /// Number of pieces.
    pub num_pieces: usize,
    /// The transfer block size: arrival is tracked per `block_size` bytes.
    pub block_size: u32,
    /// The expected 20-byte SHA-1 digest of each piece.
    pub hashes: Vec<Vec<u8>>,
    /// Per piece, the buffer being filled (empty until the first block).
    pub buffers: Vec<Vec<u8>>,
    /// Per piece, which blocks have arrived.
    pub received: Vec<bit_vec::BitVec>,
    /// Per piece, whether it was verified and handed out.
    pub done: Vec<bool>,
    /// The content of every verified piece, kept for reasoning: what was
    /// handed out for writing is exactly what hashed to the expected digest.
    pub verified: Ghost<Map<int, Seq<u8>>>,
}

impl Assembler {
    /// The byte size of piece `i`.
    pub open spec fn spec_piece_size(&self, i: int) -> int {
        if i == self.num_pieces - 1 {
            self.last_piece_length as int
        } else {
            self.piece_length as int
        }
    }

    /// The number of blocks of piece `i`.
    pub open spec fn spec_blocks(&self, i: int) -> int {
        (self.spec_piece_size(i) + self.block_size - 1) / (self.block_size as int)
    }

    /// The assembler's invariant.
    /// The assembler's scalar parameters and table lengths.
    pub open spec fn wf_counts(&self) -> bool {
        &&& self.num_pieces >= 1
        &&& self.piece_length >= 1
        &&& 1 <= self.last_piece_length <= self.piece_length
        &&& self.block_size >= 1
        &&& self.num_pieces * self.piece_length <= u64::MAX
        &&& self.hashes@.len() == self.num_pieces
        &&& self.buffers@.len() == self.num_pieces
        &&& self.received@.len() == self.num_pieces
        &&& self.done@.len() == self.num_pieces
    }

    /// Twenty bytes per expected digest.
    pub open spec fn wf_hashes(&self) -> bool {
        forall|i: int| 0 <= i < self.num_pieces ==> (#[trigger] self.hashes@[i])@.len() == 20
    }

    /// One arrival bit per block of each piece.
    pub open spec fn wf_received(&self) -> bool {
        forall|i: int|
            0 <= i < self.num_pieces ==> bits_of(#[trigger] self.received@[i]).len()
                == self.spec_blocks(i)
    }

    /// A piece buffer is empty until its first block, then piece-sized.
    pub open spec fn wf_buffers(&self) -> bool {
        forall|i: int|
            0 <= i < self.num_pieces ==> ((#[trigger] self.buffers@[i])@.len() == 0
                || self.buffers@[i]@.len() == self.spec_piece_size(i))
    }

    /// The verified-content record covers exactly the done pieces, and each
    /// recorded content is piece-sized and hashes to the expected digest.
    pub open spec fn wf_verified(&self) -> bool {
        forall|i: int|
            0 <= i < self.num_pieces ==> ((self.verified@.dom().contains(i) == (
            #[trigger] self.done@[i])) && (self.done@[i] ==> crate::digest::sha1_of(
                self.verified@[i],
            ) == self.hashes@[i]@ && self.verified@[i].len() == self.spec_piece_size(i)))
    }

    /// The assembler's invariant.
    pub open spec fn wf(&self) -> bool {
        &&& self.wf_counts()
        &&& self.wf_hashes()
        &&& self.wf_received()
        &&& self.wf_buffers()
        &&& self.wf_verified()
    }

    /// The same torrent parameters and digest table.
    pub open spec fn same_config(&self, other: &Assembler) -> bool {
        &&& self.piece_length == other.piece_length
        &&& self.last_piece_length == other.last_piece_length
        &&& self.num_pieces == other.num_pieces
        &&& self.block_size == other.block_size
        &&& self.hashes == other.hashes
    }

    /// The byte size of piece `i`.
    pub fn piece_size_at(&self, i: usize) -> (r: u32)
        requires
            i < self.num_pieces,
        ensures
            r == self.spec_piece_size(i as int),
    {
        if i == self.num_pieces - 1 {
            self.last_piece_length
        } else {
            self.piece_length
        }
    }

    fn blocks_at(&self, i: usize) -> (r: usize)
        requires
            self.piece_length >= 1,
            1 <= self.last_piece_length <= self.piece_length,
            self.block_size >= 1,
            i < self.num_pieces,
        ensures
            r == self.spec_blocks(i as int),
    {
        let size = self.piece_size_at(i) as u64;
        let bs = self.block_size as u64;
        let count = (size + bs - 1) / bs;
        assert(count <= size) by (nonlinear_arith)
            requires
                size >= 1,
                bs >= 1,
                count == ((size + bs - 1) as int) / (bs as int),
        ;
        count as usize
    }

    /// A fresh assembler: nothing arrived, nothing verified.
    pub fn new(
        piece_length: u32,
        last_piece_length: u32,
        num_pieces: usize,
        block_size: u32,
        hashes: Vec<Vec<u8>>,
    ) -> (r: Assembler)
        requires
            piece_length >= 1,
            1 <= last_piece_length <= piece_length,
            block_size >= 1,
            num_pieces >= 1,
            num_pieces * piece_length <= u64::MAX,
            hashes@.len() == num_pieces,
            forall|i: int| 0 <= i < num_pieces ==> (#[trigger] hashes@[i])@.len() == 20,
        ensures
            r.wf(),
            r.piece_length == piece_length,
            r.last_piece_length == last_piece_length,
            r.num_pieces == num_pieces,
            r.block_size == block_size,
            r.hashes == hashes,
            forall|i: int| 0 <= i < num_pieces ==> !(#[trigger] r.done@[i]),
            forall|i: int| 0 <= i < num_pieces ==> (#[trigger] r.buffers@[i])@.len() == 0,
            forall|i: int|
                0 <= i < num_pieces ==> bits_of(#[trigger] r.received@[i]) == Seq::new(
                    r.spec_blocks(i) as nat,
                    |j: int| false,
                ),
            r.verified@ == Map::<int, Seq<u8>>::empty(),
    {
        let mut a = Assembler {
            piece_length,
            last_piece_length,
            num_pieces,
            block_size,
            hashes,
            buffers: Vec::new(),
            received: Vec::new(),
            done: Vec::new(),
            verified: Ghost(Map::empty()),
        };
        let mut i: usize = 0;
        while i < num_pieces
            invariant
                i <= num_pieces,
                a.piece_length == piece_length,
                a.last_piece_length == last_piece_length,
                a.num_pieces == num_pieces,
                a.block_size == block_size,
                a.hashes == hashes,
                piece_length >= 1,
                1 <= last_piece_length <= piece_length,
                block_size >= 1,
                num_pieces >= 1,
                a.buffers@.len() == i,
                a.received@.len() == i,
                a.done@.len() == i,
                forall|j: int| 0 <= j < i ==> !(#[trigger] a.done@[j]),
                forall|j: int| 0 <= j < i ==> (#[trigger] a.buffers@[j])@.len() == 0,
                forall|j: int|
                    0 <= j < i ==> bits_of(#[trigger] a.received@[j]) == Seq::new(
                        a.spec_blocks(j) as nat,
                        |k: int| false,
                    ),
                a.verified@ == Map::<int, Seq<u8>>::empty(),
            decreases num_pieces - i,
        {
            let size = if i == num_pieces - 1 {
                last_piece_length
            } else {
                piece_length
            } as u64;
            let bs = block_size as u64;
            let count = (size + bs - 1) / bs;
            assert(count <= size) by (nonlinear_arith)
                requires
                    size >= 1,
                    bs >= 1,
                    count == ((size + bs - 1) as int) / (bs as int),
            ;
            a.buffers.push(Vec::new());
            a.received.push(bits_from_elem(count as usize, false));
            a.done.push(false);
            i = i + 1;
        }
        a
    }

    /// Whether piece `i` has been verified and handed out.
    pub fn is_done(&self, i: usize) -> (r: bool)
        requires
            self.wf(),
            i < self.num_pieces,
        ensures
            r == self.done@[i as int],
    {
        self.done[i]
    }

    /// Processes one arriving block: copies it into the piece's buffer,
    /// records its arrival, and on completion verifies the piece's SHA-1.
    /// A verified piece comes back with the byte offset it belongs at; a
    /// piece whose digest does not match is discarded so that it can be
    /// fetched again.  Blocks for already-verified pieces are ignored.
    #[verifier::rlimit(100)]
    pub fn on_block(&mut self, msg: &WriteMessage) -> (r: BlockOutcome)
        requires
            old(self).wf(),
            (msg.index() as int) < old(self).num_pieces,
            msg.block()@.len() >= 1,
            msg.begin() + msg.block()@.len() <= old(self).spec_piece_size(msg.index() as int),
        ensures
            final(self).wf(),
            final(self).same_config(old(self)),
            ({
                let i = msg.index() as int;
                let size = old(self).spec_piece_size(i);
                let newbuf = overlay(
                    old(self).buffers@[i]@,
                    size,
                    msg.begin() as int,
                    msg.block()@,
                );
                let newbits = bits_of(old(self).received@[i]).update(
                    msg.begin() as int / (old(self).block_size as int),
                    true,
                );
                let complete = forall|j: int| 0 <= j < newbits.len() ==> newbits[j];
                match r {
                    BlockOutcome::Incomplete => {
                        if old(self).done@[i] {
                            *final(self) == *old(self)
                        } else {
                            &&& !complete
                            &&& final(self).done@ == old(self).done@
                            &&& final(self).verified@ == old(self).verified@
                            &&& final(self).buffers@[i]@ == newbuf
                            &&& bits_of(final(self).received@[i]) == newbits
                            &&& forall|k: int|
                                0 <= k < old(self).num_pieces && k != i
                                    ==> final(self).buffers@[k] == old(self).buffers@[k]
                                    && final(self).received@[k] == (
                                #[trigger] old(self).received@[k])
                        }
                    },
                    BlockOutcome::Completed { offset, data } => {
                        &&& !old(self).done@[i]
                        &&& complete
                        &&& data@ == newbuf
                        &&& data@.len() == size
                        &&& sha1_of(data@) == old(self).hashes@[i]@
                        &&& offset == i * old(self).piece_length
                        &&& final(self).done@ == old(self).done@.update(i, true)
                        &&& final(self).verified@ == old(self).verified@.insert(i, data@)
                        &&& final(self).buffers@[i]@.len() == 0
                        &&& forall|k: int|
                            0 <= k < old(self).num_pieces && k != i ==> final(self).buffers@[k]
                                == old(self).buffers@[k] && final(self).received@[k] == (
                            #[trigger] old(self).received@[k])
                    },
                    BlockOutcome::HashMismatch => {
                        &&& !old(self).done@[i]
                        &&& complete
                        &&& sha1_of(newbuf) != old(self).hashes@[i]@
                        &&& final(self).done@ == old(self).done@
                        &&& final(self).verified@ == old(self).verified@
                        &&& final(self).buffers@[i]@.len() == 0
                        &&& bits_of(final(self).received@[i]) == Seq::new(
                            old(self).spec_blocks(i) as nat,
                            |j: int| false,
                        )
                        &&& forall|k: int|
                            0 <= k < old(self).num_pieces && k != i ==> final(self).buffers@[k]
                                == old(self).buffers@[k] && final(self).received@[k] == (
                            #[trigger] old(self).received@[k])
                    },
                }
            }),
    {
        let index = msg.index() as usize;
        if self.done[index] {
            return BlockOutcome::Incomplete;
        }
        let size = self.piece_size_at(index) as usize;
        let begin = msg.begin() as usize;
        let nb = build_overlay(&self.buffers[index], size, begin, msg.block());
        let bi = begin / (self.block_size as usize);
        proof {
            let bs = self.block_size as int;
            let blocks = self.spec_blocks(index as int);
            assert(begin < size);
            assert(begin as int / bs < blocks) by (nonlinear_arith)
                requires
                    bs >= 1,
                    0 <= begin < size,
                    blocks == (size + bs - 1) / bs,
            ;
        }
        bits_set_in(&mut self.received, index, bi, true);
        if bits_all(&self.received[index]) {
            let digest = sha1_digest(nb.as_slice());
            let digest_vec = vstd::slice::slice_to_vec(digest.as_slice());
            let ok = bytes_eq(&digest_vec, &self.hashes[index]);
            if ok {
                self.buffers.set(index, Vec::new());
                self.done.set(index, true);
                proof {
                    self.verified@ = self.verified@.insert(index as int, nb@);
                    assert(crate::digest::sha1_of(nb@) == self.hashes@[index as int]@);
                    assert forall|i: int|
                        0 <= i < self.num_pieces implies ((self.verified@.dom().contains(i) == (
                        #[trigger] self.done@[i])) && (self.done@[i]
                        ==> crate::digest::sha1_of(self.verified@[i]) == self.hashes@[i]@
                        && self.verified@[i].len() == self.spec_piece_size(i))) by {
                        if i == index as int {
                            assert(self.verified@[i] == nb@);
                        } else {
                            assert(self.verified@[i] == old(self).verified@[i]) by {
                                assert(self.verified@ == old(self).verified@.insert(
                                    index as int,
                                    nb@,
                                ));
                            }
                            assert(old(self).verified@.dom().contains(i) == old(self).done@[i]);
                        }
                    }
                    assert(self.wf_verified());
                }
                proof {
                    assert((index as int) * (self.piece_length as int) <= (self.num_pieces as int
                        - 1) * (self.piece_length as int) < (self.num_pieces as int) * (
                    self.piece_length as int)) by (nonlinear_arith)
                        requires
                            0 <= index as int <= self.num_pieces as int - 1,
                            self.piece_length >= 1,
                    ;
                }
                let offset = (index as u64) * (self.piece_length as u64);
                proof {
                    assert forall|i: int|
                        0 <= i < self.num_pieces implies (#[trigger] self.hashes@[i])@.len()
                        == 20 by {
                        assert(old(self).hashes@[i]@.len() == 20);
                    }
                    assert forall|i: int|
                        0 <= i < self.num_pieces implies bits_of(#[trigger] self.received@[i]).len()
                        == self.spec_blocks(i) by {
                        if i != index as int {
                            assert(self.received@[i] == old(self).received@[i]);
                            assert(bits_of(old(self).received@[i]).len() == old(self).spec_blocks(
                                i,
                            ));
                        }
                    }
                    assert forall|i: int|
                        0 <= i < self.num_pieces implies ((#[trigger] self.buffers@[i])@.len() == 0
                        || self.buffers@[i]@.len() == self.spec_piece_size(i)) by {
                        if i != index as int {
                            assert(self.buffers@[i] == old(self).buffers@[i]);
                            assert(old(self).buffers@[i]@.len() == 0 || old(self).buffers@[i]@.len()
                                == old(self).spec_piece_size(i));
                        }
                    }
                }
                BlockOutcome::Completed { offset, data: nb }
            } else {
                self.buffers.set(index, Vec::new());
                let blocks = self.blocks_at(index);
                self.received.set(index, bits_from_elem(blocks, false));
                proof {
                    assert forall|i: int|
                        0 <= i < self.num_pieces implies (#[trigger] self.hashes@[i])@.len()
                        == 20 by {
                        assert(old(self).hashes@[i]@.len() == 20);
                    }
                    assert forall|i: int|
                        0 <= i < self.num_pieces implies bits_of(#[trigger] self.received@[i]).len()
                        == self.spec_blocks(i) by {
                        if i != index as int {
                            assert(self.received@[i] == old(self).received@[i]);
                            assert(bits_of(old(self).received@[i]).len() == old(self).spec_blocks(
                                i,
                            ));
                        }
                    }
                    assert forall|i: int|
                        0 <= i < self.num_pieces implies ((#[trigger] self.buffers@[i])@.len() == 0
                        || self.buffers@[i]@.len() == self.spec_piece_size(i)) by {
                        if i != index as int {
                            assert(self.buffers@[i] == old(self).buffers@[i]);
                            assert(old(self).buffers@[i]@.len() == 0 || old(self).buffers@[i]@.len()
                                == old(self).spec_piece_size(i));
                        }
                    }
                    assert forall|i: int|
                        0 <= i < self.num_pieces implies ((self.verified@.dom().contains(i) == (
                        #[trigger] self.done@[i])) && (self.done@[i]
                        ==> crate::digest::sha1_of(self.verified@[i]) == self.hashes@[i]@
                        && self.verified@[i].len() == self.spec_piece_size(i))) by {
                        assert(old(self).verified@.dom().contains(i) == old(self).done@[i]);
                    }
                    assert(self.wf_verified());
                }
                BlockOutcome::HashMismatch
            }
        } else {
            self.buffers.set(index, nb);
            BlockOutcome::Incomplete
        }
    }
}

/// Completion invariant: whatever the assembler has marked done was handed
/// out with exactly the piece's bytes, and the SHA-1 of those bytes is the
/// expected digest from the table.  Writing each handed-out piece at its
/// returned offset therefore puts only verified, piece-sized content in the
/// file.
pub proof fn lemma_done_pieces_verified(a: &Assembler, i: int)
    requires
        a.wf(),
        0 <= i < a.num_pieces,
        a.done@[i],
    ensures
        a.verified@.dom().contains(i),
        sha1_of(a.verified@[i]) == a.hashes@[i]@,
        a.verified@[i].len() == a.spec_piece_size(i),
{
}

} // verus!
