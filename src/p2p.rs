use vstd::prelude::*;
use crate::bencoding::compare_bytes;
use crate::torrent::Torrent;
use crate::utility::{hash, sha1_of};

verus! {

/// Bytes asked for in one request.
pub const BLOCK_SIZE: u32 = 16384;

/// Requests kept outstanding at once.
pub const PIPELINE_DEPTH: usize = 5;

/// Number of blocks of a piece of `size` bytes.
pub open spec fn block_count(size: int) -> int {
    (size + BLOCK_SIZE - 1) / BLOCK_SIZE as int
}

/// Length of block `k`: the block size, but for a shorter last block.
pub open spec fn block_len(size: int, k: int) -> int {
    if size - k * BLOCK_SIZE < BLOCK_SIZE {
        size - k * BLOCK_SIZE
    } else {
        BLOCK_SIZE as int
    }
}

proof fn lemma_block_in_range(size: int, k: int)
    requires
        size >= 0,
        0 <= k < block_count(size),
    ensures
        k * BLOCK_SIZE < size,
        0 < block_len(size, k) <= BLOCK_SIZE,
        k * BLOCK_SIZE + block_len(size, k) <= size,
{
    let n = block_count(size);
    assert(n * 16384 <= size + 16383) by (nonlinear_arith)
        requires
            n == (size + 16383) / 16384,
            size >= 0,
    ;
    assert(k * 16384 <= n * 16384 - 16384) by (nonlinear_arith)
        requires
            k < n,
            k >= 0,
    ;
}

/// The requests that fetch piece `index` of `piece_size` bytes: block `k`
/// starts at `k · BLOCK_SIZE`.
pub fn block_requests(index: u32, piece_size: u32) -> (r: Vec<(u32, u32, u32)>)
    ensures
        r@.len() == block_count(piece_size as int),
        forall|k: int|
            0 <= k < r@.len() ==> #[trigger] r@[k] == (
                index,
                (k * BLOCK_SIZE) as u32,
                block_len(piece_size as int, k) as u32,
            ),
{
    let n: u32 = piece_size / BLOCK_SIZE + if piece_size % BLOCK_SIZE == 0 { 0 } else { 1 };
    assert(n == block_count(piece_size as int)) by (nonlinear_arith)
        requires
            n == piece_size / 16384 + if piece_size % 16384 == 0 { 0int } else { 1int },
    ;
    let mut out: Vec<(u32, u32, u32)> = Vec::new();
    let mut k: u32 = 0;
    while k < n
        invariant
            n == block_count(piece_size as int),
            k <= n,
            out@.len() == k,
            forall|j: int|
                0 <= j < k ==> #[trigger] out@[j] == (
                    index,
                    (j * BLOCK_SIZE) as u32,
                    block_len(piece_size as int, j) as u32,
                ),
        decreases n - k,
    {
        proof {
            lemma_block_in_range(piece_size as int, k as int);
        }
        let begin: u32 = k * BLOCK_SIZE;
        let len: u32 = if piece_size - begin < BLOCK_SIZE { piece_size - begin } else { BLOCK_SIZE };
        out.push((index, begin, len));
        k += 1;
    }
    out
}

/// The download of one piece from one peer: which blocks were asked for,
/// which arrived, and the bytes so far.
pub struct PieceDownload {
    pub index: u32,
    pub size: u32,
    pub buffer: Vec<u8>,
    pub received: Vec<bool>,
    /// Blocks before this one have been requested.
    pub next_block: u32,
    pub outstanding: usize,
}

impl PieceDownload {
    pub open spec fn wf(&self) -> bool {
        &&& self.buffer@.len() == self.size
        &&& self.received@.len() == block_count(self.size as int)
        &&& self.next_block <= block_count(self.size as int)
        &&& self.outstanding <= PIPELINE_DEPTH
    }

    pub fn new(index: u32, size: u32) -> (r: PieceDownload)
        ensures
            r.wf(),
            r.index == index,
            r.size == size,
            r.next_block == 0,
            r.outstanding == 0,
            forall|k: int| 0 <= k < r.received@.len() ==> !#[trigger] r.received@[k],
    {
        let n: u32 = size / BLOCK_SIZE + if size % BLOCK_SIZE == 0 { 0 } else { 1 };
        assert(n == block_count(size as int)) by (nonlinear_arith)
            requires
                n == size / 16384 + if size % 16384 == 0 { 0int } else { 1int },
        ;
        let mut buffer: Vec<u8> = Vec::new();
        let mut i: u32 = 0;
        while i < size
            invariant
                i <= size,
                buffer@.len() == i,
            decreases size - i,
        {
            buffer.push(0);
            i += 1;
        }
        let mut received: Vec<bool> = Vec::new();
        let mut k: u32 = 0;
        while k < n
            invariant
                k <= n,
                received@.len() == k,
                forall|j: int| 0 <= j < k ==> !#[trigger] received@[j],
            decreases n - k,
        {
            received.push(false);
            k += 1;
        }
        PieceDownload { index, size, buffer, received, next_block: 0, outstanding: 0 }
    }

    /// The next request to send, while fewer than `PIPELINE_DEPTH` are
    /// outstanding and blocks remain unrequested.
    pub fn next_request(&mut self) -> (r: Option<(u32, u32, u32)>)
        requires
            old(self).wf(),
        ensures
            final(self).wf(),
            final(self).index == old(self).index,
            final(self).size == old(self).size,
            final(self).buffer == old(self).buffer,
            final(self).received == old(self).received,
            old(self).outstanding < PIPELINE_DEPTH && old(self).next_block < block_count(
                old(self).size as int,
            ) ==> {
                &&& r == Some(
                    (
                        old(self).index,
                        (old(self).next_block * BLOCK_SIZE) as u32,
                        block_len(old(self).size as int, old(self).next_block as int) as u32,
                    ),
                )
                &&& final(self).next_block == old(self).next_block + 1
                &&& final(self).outstanding == old(self).outstanding + 1
            },
            !(old(self).outstanding < PIPELINE_DEPTH && old(self).next_block < block_count(
                old(self).size as int,
            )) ==> r is None && *final(self) == *old(self),
    {
        let n = self.received.len();
        if self.outstanding >= PIPELINE_DEPTH || self.next_block as usize >= n {
            return None;
        }
        proof {
            lemma_block_in_range(self.size as int, self.next_block as int);
        }
        let begin: u32 = self.next_block * BLOCK_SIZE;
        let len: u32 = if self.size - begin < BLOCK_SIZE { self.size - begin } else { BLOCK_SIZE };
        self.next_block = self.next_block + 1;
        self.outstanding = self.outstanding + 1;
        Some((self.index, begin, len))
    }

    /// Takes a block from a `Piece` message. It is kept when it belongs to
    /// this piece, starts on a block boundary, has that block's length and
    /// was not received before; its bytes then go in place.
    pub fn on_block(&mut self, index: u32, begin: u32, block: &Vec<u8>) -> (r: bool)
        requires
            old(self).wf(),
        ensures
            final(self).wf(),
            final(self).index == old(self).index,
            final(self).size == old(self).size,
            final(self).next_block == old(self).next_block,
            r == (index == old(self).index && begin % BLOCK_SIZE == 0 && ((begin / BLOCK_SIZE) as int)
                < block_count(old(self).size as int) && !old(self).received@[(begin / BLOCK_SIZE) as int]
                && block@.len() == block_len(old(self).size as int, (begin / BLOCK_SIZE) as int)),
            !r ==> *final(self) == *old(self),
            r ==> {
                &&& final(self).received@ == old(self).received@.update((begin / BLOCK_SIZE) as int, true)
                &&& final(self).buffer@ == old(self).buffer@.subrange(0, begin as int) + block@
                    + old(self).buffer@.subrange(begin + block@.len(), old(self).size as int)
                &&& final(self).outstanding == if old(self).outstanding > 0 {
                    (old(self).outstanding - 1) as usize
                } else {
                    0
                }
            },
    {
        if index != self.index || begin % BLOCK_SIZE != 0 {
            return false;
        }
        let k = (begin / BLOCK_SIZE) as usize;
        if k >= self.received.len() || self.received[k] {
            return false;
        }
        proof {
            lemma_block_in_range(self.size as int, k as int);
            assert(k * 16384 == begin) by (nonlinear_arith)
                requires
                    k == begin / 16384,
                    begin % 16384 == 0,
            ;
        }
        let len: u32 = if self.size - begin < BLOCK_SIZE { self.size - begin } else { BLOCK_SIZE };
        if block.len() != len as usize {
            return false;
        }
        let ghost before = self.buffer@;
        let mut i: usize = 0;
        while i < block.len()
            invariant
                self.buffer@.len() == before.len() == self.size,
                begin + block@.len() <= self.size,
                i <= block@.len(),
                self.received == old(self).received,
                self.index == old(self).index,
                self.size == old(self).size,
                self.next_block == old(self).next_block,
                self.outstanding == old(self).outstanding,
                self.received@.len() == block_count(self.size as int),
                self.next_block <= block_count(self.size as int),
                self.outstanding <= PIPELINE_DEPTH,
                forall|j: int| 0 <= j < begin ==> #[trigger] self.buffer@[j] == before[j],
                forall|j: int| begin <= j < begin + i ==> #[trigger] self.buffer@[j] == block@[j - begin],
                forall|j: int| begin + i <= j < self.size ==> #[trigger] self.buffer@[j] == before[j],
            decreases block@.len() - i,
        {
            self.buffer.set(begin as usize + i, block[i]);
            i += 1;
        }
        assert(self.buffer@ =~= before.subrange(0, begin as int) + block@ + before.subrange(
            begin + block@.len(),
            self.size as int,
        ));
        self.received.set(k, true);
        if self.outstanding > 0 {
            self.outstanding = self.outstanding - 1;
        }
        true
    }

    /// Every block arrived.
    pub fn is_complete(&self) -> (r: bool)
        ensures
            r == forall|k: int| 0 <= k < self.received@.len() ==> #[trigger] self.received@[k],
    {
        let n = self.received.len();
        let mut k: usize = 0;
        while k < n
            invariant
                n == self.received@.len(),
                k <= n,
                forall|j: int| 0 <= j < k ==> #[trigger] self.received@[j],
            decreases n - k,
        {
            if !self.received[k] {
                return false;
            }
            k += 1;
        }
        true
    }
}

/// The piece's bytes hash to the digest the metainfo lists for it.
pub fn check_intergrity(torrent: &Torrent, index: u32, piece: Vec<u8>) -> (r: bool)
    requires
        index < torrent.hashes().len(),
    ensures
        r == (sha1_of(piece@) == torrent.hashes()[index as int]),
{
    let orginal_hash = torrent.get_piece_hash(index);
    let piece_hash = hash(piece);
    compare_bytes(piece_hash.as_slice(), orginal_hash.as_slice()) == 0
}

} // verus!
