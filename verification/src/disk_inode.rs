//! The on-disk inode: a 32-byte record of four little-endian words (type,
//! size, first page, indirect block) kept in the inode table, and the
//! planning of transfers to the pages it reaches.
use vstd::prelude::*;
use vstd::bytes::*;
use vstd::slice::slice_subrange;
use crate::constants::{INODE_SIZE, LIST_SIZE};
use crate::layout::{Chunk, chunk_at, blocks_touched, copy_pieces, in_piece, pieces_ordered, plan_chunks, plan_fits};

verus! {

/// The little-endian word at byte `at` of `bytes`.
pub open spec fn word_at(bytes: Seq<u8>, at: int) -> u64 {
    spec_u64_from_le_bytes(bytes.subrange(at, at + 8))
}

/// The little-endian word at byte `at` of `bytes`.
pub fn read_word(bytes: &[u8], at: usize) -> (w: u64)
    requires
        at + 8 <= bytes.len(),
    ensures
        w == word_at(bytes@, at as int),
{
    u64_from_le_bytes(slice_subrange(bytes, at, at + 8))
}

/// `bytes` with the eight bytes at `at` replaced by the little-endian form of `w`.
pub open spec fn put_word(bytes: Seq<u8>, at: int, w: u64) -> Seq<u8> {
    bytes.subrange(0, at) + spec_u64_to_le_bytes(w) + bytes.subrange(at + 8, bytes.len() as int)
}

/// Stores `w` in little-endian order at byte `at` of `bytes`.
pub fn write_word(bytes: &mut Vec<u8>, at: usize, w: u64)
    requires
        at + 8 <= old(bytes)@.len(),
    ensures
        final(bytes)@ == put_word(old(bytes)@, at as int, w),
        final(bytes)@.len() == old(bytes)@.len(),
{
    let le = u64_to_le_bytes(w);
    proof {
        lemma_auto_spec_u64_to_from_le_bytes();
    }
    let mut k: usize = 0;
    while k < 8
        invariant
            k <= 8,
            le@ == spec_u64_to_le_bytes(w),
            le@.len() == 8,
            at + 8 <= bytes.len(),
            bytes@.len() == old(bytes)@.len(),
            forall|j: int|
                0 <= j < bytes@.len() ==> #[trigger] bytes@[j] == if at <= j < at + k {
                    le@[j - at]
                } else {
                    old(bytes)@[j]
                },
        decreases 8 - k,
    {
        bytes[at + k] = le[k];
        k = k + 1;
    }
    assert(bytes@ =~= put_word(old(bytes)@, at as int, w));
}

/// Law of `write_word` and `read_word`: a word stored at `at` reads back
/// unchanged, and the bytes outside `[at, at + 8)` keep their values.
pub proof fn lemma_word_round_trip(bytes: Seq<u8>, at: int, w: u64)
    requires
        0 <= at,
        at + 8 <= bytes.len(),
    ensures
        word_at(put_word(bytes, at, w), at) == w,
        put_word(bytes, at, w).len() == bytes.len(),
        forall|j: int|
            0 <= j < bytes.len() && !(at <= j < at + 8) ==> #[trigger] put_word(bytes, at, w)[j]
                == bytes[j],
{
    lemma_auto_spec_u64_to_from_le_bytes();
    assert(put_word(bytes, at, w).subrange(at, at + 8) =~= spec_u64_to_le_bytes(w));
}

/// The inode record stored at `at` of `block` has these words in this order:
/// type, size, first page, indirect block.
pub open spec fn record_word(block: Seq<u8>, at: int, k: int) -> u64 {
    word_at(block, at + 8 * k)
}

/// Where inode `inum` lives: its block number and its byte offset within
/// that block, for an inode table that starts at byte `inode_base`.
pub fn inode_location(inode_base: usize, inum: usize, blk_size: usize) -> (loc: (usize, usize))
    requires
        blk_size > 0,
        inode_base + inum * INODE_SIZE <= usize::MAX,
    ensures
        loc.0 == (inode_base + inum * INODE_SIZE) as int / (blk_size as int),
        loc.1 == (inode_base + inum * INODE_SIZE) as int % (blk_size as int),
{
    let offset = inode_base + inum * INODE_SIZE;
    (offset / blk_size, offset % blk_size)
}

/// An inode as stored on disk.
#[derive(Clone, Copy, Debug)]
pub struct Inode {
    pub inum: usize,
    pub dirtype: usize,
    single: Option<usize>,
    double: Option<usize>,
    size: usize,
}

impl Inode {
    /// The inode number.
    pub closed spec fn spec_inum(&self) -> usize {
        self.inum
    }

    /// The type code.
    pub closed spec fn spec_dirtype(&self) -> usize {
        self.dirtype
    }

    /// The file size in bytes.
    pub closed spec fn spec_size(&self) -> usize {
        self.size
    }

    /// The block of the first page, once known.
    pub closed spec fn single_block(&self) -> Option<usize> {
        self.single
    }

    /// The indirect block listing the later pages, once known.
    pub closed spec fn double_block(&self) -> Option<usize> {
        self.double
    }

    /// A fresh inode of type `dirtype` and number `inum`: empty, with no
    /// page blocks yet.
    pub fn new(dirtype: usize, inum: usize) -> (inode: Inode)
        ensures
            inode.spec_inum() == inum,
            inode.spec_dirtype() == dirtype,
            inode.spec_size() == 0,
            inode.single_block() is None,
            inode.double_block() is None,
    {
        Inode { inum: inum, dirtype: dirtype, single: None, double: None, size: 0 }
    }

    /// The inode whose record, read from its block, is `block[at..at + 32]`.
    pub closed spec fn decoded(inum: usize, block: Seq<u8>, at: int) -> Inode {
        Inode {
            inum: inum,
            dirtype: record_word(block, at, 0) as usize,
            size: record_word(block, at, 1) as usize,
            single: Some(record_word(block, at, 2) as usize),
            double: Some(record_word(block, at, 3) as usize),
        }
    }

    /// Loads type, size and page blocks from the inode record at
    /// `blk_offset` of `block`, the block of the inode table that holds it.
    pub fn read_inode(&mut self, block: &[u8], blk_offset: usize)
        requires
            blk_offset + INODE_SIZE <= block.len(),
        ensures
            *final(self) == Self::decoded(old(self).spec_inum(), block@, blk_offset as int),
            final(self).spec_inum() == old(self).spec_inum(),
            final(self).spec_dirtype() == record_word(block@, blk_offset as int, 0) as usize,
            final(self).spec_size() == record_word(block@, blk_offset as int, 1) as usize,
            final(self).single_block() == Some(record_word(block@, blk_offset as int, 2) as usize),
            final(self).double_block() == Some(record_word(block@, blk_offset as int, 3) as usize),
    {
        self.dirtype = read_word(block, blk_offset) as usize;
        self.size = read_word(block, blk_offset + 8) as usize;
        self.single = Some(read_word(block, blk_offset + 16) as usize);
        self.double = Some(read_word(block, blk_offset + 24) as usize);
    }

    /// `block` with this inode's record stored at `blk_offset`: type, size,
    /// first page and indirect block, each a little-endian word.
    pub open spec fn encoded_into(&self, block: Seq<u8>, at: int) -> Seq<u8> {
        put_word(
            put_word(
                put_word(put_word(block, at, self.spec_dirtype() as u64), at + 8, self.spec_size() as u64),
                at + 16,
                self.single_block().unwrap() as u64,
            ),
            at + 24,
            self.double_block().unwrap() as u64,
        )
    }

    /// The block that holds this inode's record, `block`, with the record
    /// rewritten from this inode. Both page blocks must be known.
    pub fn write_inode(&self, block: &[u8], blk_offset: usize) -> (out: Vec<u8>)
        requires
            blk_offset + INODE_SIZE <= block.len(),
            self.single_block() is Some,
            self.double_block() is Some,
        ensures
            out@ == self.encoded_into(block@, blk_offset as int),
            out@.len() == block@.len(),
    {
        let mut out = vstd::slice::slice_to_vec(block);
        write_word(&mut out, blk_offset, self.dirtype as u64);
        write_word(&mut out, blk_offset + 8, self.size as u64);
        write_word(&mut out, blk_offset + 16, self.single.unwrap() as u64);
        write_word(&mut out, blk_offset + 24, self.double.unwrap() as u64);
        out
    }

    /// Entry `index` of an indirect block: the block number stored in its
    /// `index`-th word.
    pub fn parse_entry(raw_read: &[u8], index: usize) -> (entry: usize)
        requires
            index * 8 + 8 <= raw_read.len(),
        ensures
            entry == word_at(raw_read@, index * 8) as usize,
    {
        let start = index * 8;
        read_word(raw_read, start) as usize
    }

    /// The inode number.
    pub(crate) fn number(&self) -> (n: usize)
        ensures
            n == self.spec_inum(),
    {
        self.inum
    }

    /// The block of page `num` (`num` at most `LIST_SIZE`), after the inode
    /// is reloaded from its record at `blk_offset` of `record`: the first
    /// page's block for page 0, else entry `num - 1` of the indirect block,
    /// `indirect`. Reloading leaves both page blocks known, so nothing is
    /// allocated.
    pub fn get_or_alloc_page(&mut self, num: usize, record: &[u8], blk_offset: usize, indirect: &[u8]) -> (page: usize)
        requires
            num < LIST_SIZE + 1,
            blk_offset + INODE_SIZE <= record.len(),
            num > 0 ==> (num - 1) * 8 + 8 <= indirect.len(),
        ensures
            *final(self) == Self::decoded(old(self).spec_inum(), record@, blk_offset as int),
            page == if num == 0 {
                record_word(record@, blk_offset as int, 2) as usize
            } else {
                word_at(indirect@, (num - 1) * 8) as usize
            },
    {
        self.read_inode(record, blk_offset);
        if num == 0 {
            self.single.unwrap()
        } else {
            let index = num - 1;
            Self::parse_entry(indirect, index)
        }
    }

    /// The block of page `num`, which must lie within the file size, after
    /// the inode is reloaded from its record at `blk_offset` of `record`:
    /// 0 for page 0, else entry `num - 1` of the indirect block, `indirect`.
    pub fn get_page(&mut self, num: usize, blk_size: usize, record: &[u8], blk_offset: usize, indirect: &[u8]) -> (page: usize)
        requires
            num * blk_size < old(self).spec_size(),
            blk_offset + INODE_SIZE <= record.len(),
            num > 0 ==> (num - 1) * 8 + 8 <= indirect.len(),
        ensures
            *final(self) == Self::decoded(old(self).spec_inum(), record@, blk_offset as int),
            page == if num == 0 {
                0
            } else {
                word_at(indirect@, (num - 1) * 8) as usize
            },
    {
        self.read_inode(record, blk_offset);
        if num == 0 {
            0
        } else {
            let index = num - 1;
            Self::parse_entry(indirect, index)
        }
    }

    /// The file size in bytes.
    pub fn size(&self) -> (s: usize)
        ensures
            s == self.spec_size(),
    {
        self.size
    }

    /// Plans a write of `len` bytes at byte `offset`: the pieces, one per
    /// block, that go to the inode's pages (page 0 is the first page, page
    /// `n > 0` is entry `n - 1` of the indirect block). The size grows to
    /// cover the write.
    pub fn write(&mut self, offset: usize, len: usize, blk_size: usize) -> (plan: Vec<Chunk>)
        requires
            plan_fits(offset as int, len as int, blk_size as int),
            blocks_touched(offset as int, len as int, blk_size as int) > 0 ==> offset as int / (
            blk_size as int) + blocks_touched(offset as int, len as int, blk_size as int) <= LIST_SIZE
                + 1,
        ensures
            plan@.len() == blocks_touched(offset as int, len as int, blk_size as int),
            forall|i: int|
                0 <= i < plan@.len() ==> #[trigger] plan@[i] == chunk_at(
                    offset as int,
                    len as int,
                    blk_size as int,
                    i,
                ),
            final(self).spec_size() == if old(self).spec_size() < offset + len {
                (offset + len) as usize
            } else {
                old(self).spec_size()
            },
            final(self).spec_inum() == old(self).spec_inum(),
            final(self).spec_dirtype() == old(self).spec_dirtype(),
            final(self).single_block() == old(self).single_block(),
            final(self).double_block() == old(self).double_block(),
    {
        let plan = plan_chunks(offset, len, blk_size);
        let last_byte = offset + len;
        if self.size < last_byte {
            self.size = last_byte;
        }
        plan
    }

    /// Plans a read of `len` bytes at byte `offset`: the pieces, one per
    /// block, that come from the inode's pages. Every page read must lie
    /// within the file size.
    pub fn read(&self, offset: usize, len: usize, blk_size: usize) -> (plan: Vec<Chunk>)
        requires
            plan_fits(offset as int, len as int, blk_size as int),
            blocks_touched(offset as int, len as int, blk_size as int) > 0 ==> (offset as int / (
            blk_size as int) + blocks_touched(offset as int, len as int, blk_size as int) - 1)
                * blk_size < self.spec_size(),
        ensures
            plan@.len() == blocks_touched(offset as int, len as int, blk_size as int),
            forall|i: int|
                0 <= i < plan@.len() ==> #[trigger] plan@[i] == chunk_at(
                    offset as int,
                    len as int,
                    blk_size as int,
                    i,
                ),
    {
        plan_chunks(offset, len, blk_size)
    }

    /// Reads `data.len()` bytes at byte `offset` out of the blocks that were
    /// fetched for the read, `blocks[i]` for piece `i` of its plan: each
    /// piece of `data` is filled from its block.
    pub fn read_blocks(&self, offset: usize, data: &mut Vec<u8>, blk_size: usize, blocks: &Vec<Vec<u8>>)
        requires
            plan_fits(offset as int, old(data)@.len() as int, blk_size as int),
            blocks_touched(offset as int, old(data)@.len() as int, blk_size as int) > 0 ==> (
            offset as int / (blk_size as int) + blocks_touched(
                offset as int,
                old(data)@.len() as int,
                blk_size as int,
            ) - 1) * blk_size < self.spec_size(),
            blocks@.len() == blocks_touched(offset as int, old(data)@.len() as int, blk_size as int),
            forall|i: int| 0 <= i < blocks@.len() ==> (#[trigger] blocks@[i])@.len() == blk_size,
        ensures
            final(data)@.len() == old(data)@.len(),
            forall|i: int, j: int|
                #![trigger final(data)@[j], blocks@[i]]
                0 <= i < blocks@.len() && in_piece(
                    chunk_at(offset as int, old(data)@.len() as int, blk_size as int, i),
                    j,
                ) ==> final(data)@[j] == blocks@[i]@[j - chunk_at(
                    offset as int,
                    old(data)@.len() as int,
                    blk_size as int,
                    i,
                ).data_offset + chunk_at(offset as int, old(data)@.len() as int, blk_size as int, i).page_offset],
    {
        let len = data.len();
        let plan = self.read(offset, len, blk_size);
        proof {
            let n = plan@.len() as int;
            crate::layout::lemma_chunks_tile(offset as int, len as int, blk_size as int);
            crate::layout::lemma_chunks_ordered(offset as int, len as int, blk_size as int);
            assert(pieces_ordered(plan@)) by {
                assert forall|i: int, k: int|
                    #![trigger plan@[i], plan@[k]]
                    0 <= i < k < n implies plan@[i].data_offset + plan@[i].len <= plan@[k].data_offset by {
                    assert(plan@[i] == chunk_at(offset as int, len as int, blk_size as int, i));
                    assert(plan@[k] == chunk_at(offset as int, len as int, blk_size as int, k));
                }
            }
            assert forall|i: int| 0 <= i < n implies (#[trigger] plan@[i]).data_offset + plan@[i].len <= len by {
                assert(plan@[n - 1] == chunk_at(offset as int, len as int, blk_size as int, n - 1));
                if i < n - 1 {
                    assert(plan@[i].data_offset + plan@[i].len <= plan@[n - 1].data_offset);
                }
            }
            assert forall|i: int| 0 <= i < n implies plan@[i].page_offset + plan@[i].len <= (
            #[trigger] blocks@[i])@.len() by {
                assert(plan@[i] == chunk_at(offset as int, len as int, blk_size as int, i));
            }
        }
        copy_pieces(data, &plan, blocks);
        proof {
            assert forall|i: int, j: int|
                #![trigger data@[j], blocks@[i]]
                0 <= i < blocks@.len() && in_piece(
                    chunk_at(offset as int, len as int, blk_size as int, i),
                    j,
                ) implies data@[j] == blocks@[i]@[j - chunk_at(
                offset as int,
                len as int,
                blk_size as int,
                i,
            ).data_offset + chunk_at(offset as int, len as int, blk_size as int, i).page_offset] by {
                assert(plan@[i] == chunk_at(offset as int, len as int, blk_size as int, i));
            }
        }
    }
}

/// Law of `Inode::write_inode` and `Inode::read_inode`: an inode whose page
/// blocks are known, stored into a block and loaded back from it, comes
/// back with the same type, size and page blocks; the rest of the block is
/// left as it was.
pub proof fn lemma_inode_record_round_trip(inode: Inode, block: Seq<u8>, at: int)
    requires
        inode.single_block() is Some,
        inode.double_block() is Some,
        0 <= at,
        at + INODE_SIZE <= block.len(),
    ensures
        Inode::decoded(inode.spec_inum(), inode.encoded_into(block, at), at) == inode,
        inode.encoded_into(block, at).len() == block.len(),
        forall|j: int|
            0 <= j < block.len() && !(at <= j < at + INODE_SIZE) ==> #[trigger] inode.encoded_into(
                block,
                at,
            )[j] == block[j],
{
    let b1 = put_word(block, at, inode.spec_dirtype() as u64);
    let b2 = put_word(b1, at + 8, inode.spec_size() as u64);
    let b3 = put_word(b2, at + 16, inode.single_block().unwrap() as u64);
    let b4 = put_word(b3, at + 24, inode.double_block().unwrap() as u64);
    lemma_word_round_trip(block, at, inode.spec_dirtype() as u64);
    lemma_word_round_trip(b1, at + 8, inode.spec_size() as u64);
    lemma_word_round_trip(b2, at + 16, inode.single_block().unwrap() as u64);
    lemma_word_round_trip(b3, at + 24, inode.double_block().unwrap() as u64);
    assert(b4.subrange(at, at + 8) =~= b1.subrange(at, at + 8));
    assert(b4.subrange(at + 8, at + 16) =~= b2.subrange(at + 8, at + 16));
    assert(b4.subrange(at + 16, at + 24) =~= b3.subrange(at + 16, at + 24));
    assert(Inode::decoded(inode.spec_inum(), b4, at) == inode);
}

/// Law of `Inode::write` and `Inode::read`: once `len > 0` bytes have been
/// written at `offset`, the file size covers them, so a read of the same
/// bytes is allowed: every page it reaches lies within the file.
pub proof fn lemma_written_range_readable(offset: int, len: int, blk_size: int, size: int)
    requires
        plan_fits(offset, len, blk_size),
        len > 0,
        size >= offset + len,
    ensures
        blocks_touched(offset, len, blk_size) > 0,
        (offset / blk_size + blocks_touched(offset, len, blk_size) - 1) * blk_size < size,
{
    crate::layout::lemma_chunks_tile(offset, len, blk_size);
    let n = blocks_touched(offset, len, blk_size);
    crate::layout::lemma_chunk_bounds(offset, len, blk_size, n - 1);
    let q = offset / blk_size;
    assert((q + n - 1) * blk_size == q * blk_size + (n - 1) * blk_size) by (nonlinear_arith);
}

} // verus!
