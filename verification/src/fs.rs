//! The file system's state: the device, where the inode table and the data
//! blocks start, and the two allocation bitmaps. Block 0 is the superblock,
//! block 1 the inode bitmap, block 2 the data bitmap, then the inode table
//! (32-byte inodes, as many as the inode bitmap has bits), then data.
use vstd::prelude::*;
use crate::bitmap::{Bitmap, BitmapErr, all_set, bit, byte_bit, first_open_byte, lowest_clear_bit};
use crate::env::{Buf, c_string, printed};
use crate::constants::INODE_SIZE;
use crate::device::Device;

verus! {

/// The byte where the inode bitmap starts, for blocks of `blk` bytes.
pub open spec fn inode_bitmap_start(blk: int) -> int {
    blk
}

/// The byte where the data bitmap starts, for blocks of `blk` bytes.
pub open spec fn data_bitmap_start(blk: int) -> int {
    2 * blk
}

/// The byte where the inode table starts, for blocks of `blk` bytes.
pub open spec fn inode_table_start(blk: int) -> int {
    3 * blk
}

/// The byte where the data blocks start, for blocks of `blk` bytes.
pub open spec fn data_start(blk: int) -> int {
    3 * blk + INODE_SIZE * blk * 8
}

/// A file system over a device with blocks of `blk` bytes can be laid out
/// without leaving `usize`.
pub open spec fn layout_fits(blk: int) -> bool {
    data_start(blk) <= usize::MAX
}

/// The data block that allocation index `index` stands for, given the
/// block size and where the data blocks start.
pub open spec fn data_block(index: int, blk: int, data_base: int) -> int {
    (index * blk + data_base) / blk
}

/// The index that `Bitmap::find` returns when it sets bit `i` of byte `b`.
pub open spec fn found_index(bytes: Seq<u8>, b: int, i: int) -> int {
    i + 8 * (bytes[b] | (1u8 << (i as u8)))
}

/// Allocation from a bitmap whose bit `i` of byte `b` is the first clear
/// bit: the bit is set and nothing else changes.
pub open spec fn allocated(before: Seq<u8>, after: Seq<u8>, b: int, i: int) -> bool {
    &&& first_open_byte(before, b)
    &&& lowest_clear_bit(before[b], i)
    &&& after == before.update(b, before[b] | (1u8 << (i as u8)))
    &&& !bit(before, 8 * b + i)
    &&& bit(after, 8 * b + i)
}

proof fn lemma_found_index_bound(x: u8, i: u8)
    requires
        i < 8,
    ensures
        i + 8 * (x | (1u8 << i)) <= 2047,
{
    assert((x | (1u8 << i)) <= 255u8) by (bit_vector);
}

/// Takes a block from `data_bitmap`, whose blocks start at `data_base`.
fn take_block(data_bitmap: &mut Bitmap, blk: usize, data_base: usize) -> (block: usize)
    requires
        blk > 0,
        !all_set(old(data_bitmap)@),
        data_base + 2047 * blk <= usize::MAX,
    ensures
        final(data_bitmap).spec_offset() == old(data_bitmap).spec_offset(),
        exists|b: int, i: int|
            #![trigger found_index(old(data_bitmap)@, b, i)]
            allocated(old(data_bitmap)@, final(data_bitmap)@, b, i) && block == data_block(
                found_index(old(data_bitmap)@, b, i),
                blk as int,
                data_base as int,
            ),
{
    match data_bitmap.find() {
        Ok(index) => {
            proof {
                let (b, i) = choose|b: int, i: int|
                    {
                        &&& first_open_byte(old(data_bitmap)@, b)
                        &&& lowest_clear_bit(old(data_bitmap)@[b], i)
                        &&& #[trigger] data_bitmap@ == old(data_bitmap)@.update(
                            b,
                            old(data_bitmap)@[b] | (1u8 << (i as u8)),
                        )
                        &&& index == i + 8 * (old(data_bitmap)@[b] | (1u8 << (i as u8)))
                        &&& !bit(old(data_bitmap)@, 8 * b + i)
                        &&& bit(data_bitmap@, 8 * b + i)
                        &&& forall|k: int|
                            0 <= k < 8 * b + i ==> #[trigger] bit(old(data_bitmap)@, k)
                        &&& forall|k: int|
                            0 <= k < 8 * old(data_bitmap)@.len() && k != 8 * b + i ==> #[trigger] bit(
                                data_bitmap@,
                                k,
                            ) == bit(old(data_bitmap)@, k)
                    };
                lemma_found_index_bound(old(data_bitmap)@[b], i as u8);
                assert(index <= 2047);
                assert(index * blk <= 2047 * blk) by (nonlinear_arith)
                    requires
                        index <= 2047,
                        blk > 0,
                ;
                assert(allocated(old(data_bitmap)@, data_bitmap@, b, i));
                assert(found_index(old(data_bitmap)@, b, i) == index);
            }
            let offset = index * blk + data_base;
            offset / blk
        },
        Err(BitmapErr::Full()) => {
            proof {
                assert(false);
            }
            0
        },
    }
}

/// The in-memory file system of one device, with its root inode.
pub struct FS {
    device: Device,
    inode_base: usize,
    data_base: usize,
    inode_bitmap: Bitmap,
    data_bitmap: Bitmap,
    root: crate::inode::Inode,
}

impl FS {
    /// The device.
    pub closed spec fn spec_device(&self) -> &Device {
        &self.device
    }

    /// The byte where the inode table starts.
    pub closed spec fn inode_base(&self) -> usize {
        self.inode_base
    }

    /// The byte where the data blocks start.
    pub closed spec fn data_base(&self) -> usize {
        self.data_base
    }

    /// The inode bitmap.
    pub closed spec fn inode_bitmap(&self) -> Bitmap {
        self.inode_bitmap
    }

    /// The data bitmap.
    pub closed spec fn data_bitmap(&self) -> Bitmap {
        self.data_bitmap
    }

    /// The root inode.
    pub closed spec fn root(&self) -> crate::inode::Inode {
        self.root
    }

    /// The file system laid out on `device`: inode table from block 3, data
    /// after it, both bitmaps one block long and clear, and an empty root.
    pub fn new(device: Device) -> (fs: FS)
        requires
            layout_fits(device.spec_blk_size() as int),
        ensures
            fs.inode_base() == inode_table_start(device.spec_blk_size() as int),
            fs.data_base() == data_start(device.spec_blk_size() as int),
            fs.inode_bitmap()@ == Seq::new(device.spec_blk_size() as nat, |i: int| 0u8),
            fs.inode_bitmap().spec_offset() == device.spec_blk_size(),
            fs.inode_bitmap().spec_offset() == inode_bitmap_start(device.spec_blk_size() as int),
            fs.data_bitmap()@ == Seq::new(device.spec_blk_size() as nat, |i: int| 0u8),
            fs.data_bitmap().spec_offset() == 2 * device.spec_blk_size(),
            fs.data_bitmap().spec_offset() == data_bitmap_start(device.spec_blk_size() as int),
            *fs.spec_device() == device,
            fs.root().wf(),
            fs.root().spec_size() == 0,
            forall|p: int| (#[trigger] fs.root().page(p)) is None,
    {
        let blk_size = device.blk_size();
        FS {
            device: device,
            inode_base: 3 * blk_size,
            data_base: 3 * blk_size + INODE_SIZE * blk_size * 8,
            inode_bitmap: Bitmap::new(blk_size, blk_size),
            data_bitmap: Bitmap::new(2 * blk_size, blk_size),
            root: crate::inode::Inode::new(),
        }
    }

    /// Takes the first free data block from the data bitmap and returns its
    /// block number (the block to zero on the device).
    pub fn alloc_block(&mut self) -> (block: usize)
        requires
            old(self).spec_device().spec_blk_size() > 0,
            !all_set(old(self).data_bitmap()@),
            old(self).data_base() + 2047 * old(self).spec_device().spec_blk_size() <= usize::MAX,
        ensures
            exists|b: int, i: int|
                #![trigger found_index(old(self).data_bitmap()@, b, i)]
                allocated(old(self).data_bitmap()@, final(self).data_bitmap()@, b, i) && block
                    == data_block(
                    found_index(old(self).data_bitmap()@, b, i),
                    old(self).spec_device().spec_blk_size() as int,
                    old(self).data_base() as int,
                ),
            final(self).data_bitmap().spec_offset() == old(self).data_bitmap().spec_offset(),
            final(self).inode_bitmap() == old(self).inode_bitmap(),
            final(self).inode_base() == old(self).inode_base(),
            final(self).data_base() == old(self).data_base(),
            final(self).spec_device() == old(self).spec_device(),
            final(self).root() == old(self).root(),
    {
        let blk = self.device.blk_size();
        take_block(&mut self.data_bitmap, blk, self.data_base)
    }

    /// Formatting writes nothing yet: the state is left as it is.
    pub fn mkfs(&mut self)
        ensures
            *final(self) == *old(self),
    {
    }

    /// Mounting reads nothing yet: the state is left as it is.
    pub fn mount(&mut self)
        ensures
            *final(self) == *old(self),
    {
    }
}

/// The file system state kept while the file system runs.
pub struct FsInternal {
    pub device: Device,
    pub inode_base: usize,
    pub data_base: usize,
    pub inode_bitmap: Bitmap,
    pub data_bitmap: Bitmap,
}

impl FsInternal {
    /// The state of a freshly formatted file system on `device`: inode table
    /// from block 3, data after it, both bitmaps one block long and clear.
    /// The blocks that formatting writes to the device are `format_blocks`.
    pub fn mkfs(device: Device) -> (fs: FsInternal)
        requires
            layout_fits(device.spec_blk_size() as int),
        ensures
            fs.inode_base == inode_table_start(device.spec_blk_size() as int),
            fs.data_base == data_start(device.spec_blk_size() as int),
            fs.inode_bitmap@ == Seq::new(device.spec_blk_size() as nat, |i: int| 0u8),
            fs.inode_bitmap.spec_offset() == device.spec_blk_size(),
            fs.inode_bitmap.spec_offset() == inode_bitmap_start(device.spec_blk_size() as int),
            fs.data_bitmap@ == Seq::new(device.spec_blk_size() as nat, |i: int| 0u8),
            fs.data_bitmap.spec_offset() == 2 * device.spec_blk_size(),
            fs.data_bitmap.spec_offset() == data_bitmap_start(device.spec_blk_size() as int),
            fs.device == device,
    {
        let blk_size = device.blk_size();
        FsInternal {
            device: device,
            inode_base: 3 * blk_size,
            data_base: 3 * blk_size + INODE_SIZE * blk_size * 8,
            inode_bitmap: Bitmap::new(blk_size, blk_size),
            data_bitmap: Bitmap::new(2 * blk_size, blk_size),
        }
    }

    /// Takes the first free data block from the data bitmap and returns its
    /// block number (the block to zero on the device).
    pub fn alloc_block(&mut self) -> (block: usize)
        requires
            old(self).device.spec_blk_size() > 0,
            !all_set(old(self).data_bitmap@),
            old(self).data_base + 2047 * old(self).device.spec_blk_size() <= usize::MAX,
        ensures
            exists|b: int, i: int|
                #![trigger found_index(old(self).data_bitmap@, b, i)]
                allocated(old(self).data_bitmap@, final(self).data_bitmap@, b, i) && block == data_block(
                    found_index(old(self).data_bitmap@, b, i),
                    old(self).device.spec_blk_size() as int,
                    old(self).data_base as int,
                ),
            final(self).data_bitmap.spec_offset() == old(self).data_bitmap.spec_offset(),
            final(self).inode_bitmap == old(self).inode_bitmap,
            final(self).inode_base == old(self).inode_base,
            final(self).data_base == old(self).data_base,
            final(self).device == old(self).device,
    {
        let blk = self.device.blk_size();
        take_block(&mut self.data_bitmap, blk, self.data_base)
    }

    /// Loads both bitmaps from their blocks as read from the device.
    pub fn mount(&mut self, inode_bitmap_block: &[u8], data_bitmap_block: &[u8])
        requires
            inode_bitmap_block@.len() == old(self).inode_bitmap@.len(),
            data_bitmap_block@.len() == old(self).data_bitmap@.len(),
        ensures
            final(self).inode_bitmap@ == inode_bitmap_block@,
            final(self).data_bitmap@ == data_bitmap_block@,
            final(self).inode_bitmap.spec_offset() == old(self).inode_bitmap.spec_offset(),
            final(self).data_bitmap.spec_offset() == old(self).data_bitmap.spec_offset(),
            final(self).inode_base == old(self).inode_base,
            final(self).data_base == old(self).data_base,
            final(self).device == old(self).device,
    {
        self.inode_bitmap.read_bitmap(inode_bitmap_block);
        self.data_bitmap.read_bitmap(data_bitmap_block);
    }
}


/// The label that `mkfs` prints at the start of block 0: the bytes of
/// `RustFS--`.
pub open spec fn fs_label() -> Seq<u8> {
    seq![82u8, 117u8, 115u8, 116u8, 70u8, 83u8, 45u8, 45u8]
}

/// A block of `blk` zero bytes.
pub open spec fn zero_block(blk: int) -> Seq<u8> {
    Seq::new(blk as nat, |i: int| 0u8)
}

/// Block 0 as `mkfs` writes it: the label printed as a C string into a
/// zeroed block of `blk` bytes.
pub open spec fn label_block(blk: int) -> Seq<u8> {
    printed(zero_block(blk), blk, fs_label())
}

/// Block 1 as `mkfs` writes it, the inode bitmap: the label block with its
/// first byte set to 1, since the root directory lives in inode 0.
pub open spec fn root_inode_block(blk: int) -> Seq<u8> {
    if blk > 0 {
        label_block(blk).update(0, 1u8)
    } else {
        label_block(blk)
    }
}

impl FsInternal {
    /// The three blocks that formatting writes at the start of a device with
    /// blocks of `blk_size` bytes: the label block, the inode bitmap with the
    /// root inode taken, and a clear data bitmap.
    pub fn format_blocks(blk_size: usize) -> (blocks: Vec<Vec<u8>>)
        ensures
            blocks@.len() == 3,
            blocks@[0]@ == label_block(blk_size as int),
            blocks@[1]@ == root_inode_block(blk_size as int),
            blocks@[2]@ == zero_block(blk_size as int),
    {
        let zeros: Vec<u8> = vec![0u8; blk_size];
        let label: Vec<u8> = vec![82u8, 117u8, 115u8, 116u8, 70u8, 83u8, 45u8, 45u8];
        let mut write_buf = Buf::from_raw(vec![0u8; blk_size]);
        proof {
            assert(label@ =~= fs_label());
            assert(write_buf@ =~= zero_block(blk_size as int));
        }
        write_buf.fill(blk_size, label.as_slice());
        let block0 = vstd::slice::slice_to_vec(write_buf.to_raw());
        let mut block1 = vstd::slice::slice_to_vec(write_buf.to_raw());
        if blk_size > 0 {
            block1.set(0, 1u8);
        }
        let mut blocks: Vec<Vec<u8>> = Vec::new();
        blocks.push(block0);
        blocks.push(block1);
        blocks.push(zeros);
        proof {
            assert(blocks@[2]@ =~= zero_block(blk_size as int));
        }
        blocks
    }
}

/// Law of formatting and mounting: once the bitmaps are loaded from the
/// blocks that formatting wrote (blocks 1 and 2 of a device whose blocks
/// have `blk` bytes), the inode bitmap has the root inode, inode 0, taken
/// and no other inode of its first byte, and the data bitmap has every
/// block free.
pub proof fn lemma_mount_after_format(blk: int, inode_bitmap: Seq<u8>, data_bitmap: Seq<u8>)
    requires
        blk > 0,
        inode_bitmap == root_inode_block(blk),
        data_bitmap == zero_block(blk),
    ensures
        inode_bitmap[0] == 1,
        bit(inode_bitmap, 0),
        forall|i: int| 0 < i < 8 ==> !bit(inode_bitmap, i),
        forall|k: int| 0 <= k < 8 * blk ==> !#[trigger] bit(data_bitmap, k),
{
    assert(byte_bit(1u8, 0)) by (bit_vector);
    assert forall|i: int| 0 < i < 8 implies !bit(inode_bitmap, i) by {
        let j = i as u8;
        assert(0 < j < 8);
        assert((1u8 >> j) & 1u8 != 1u8) by (bit_vector)
            requires
                0 < j < 8,
        ;
    }
    assert forall|k: int| 0 <= k < 8 * blk implies !#[trigger] bit(data_bitmap, k) by {
        assert(data_bitmap[k / 8] == 0u8);
        let j = (k % 8) as u8;
        assert((0u8 >> j) & 1u8 != 1u8) by (bit_vector);
    }
}


/// Law of block allocation: the block number given for allocation index
/// `index` counts in blocks of the device's size: it is the block where the
/// data region starts plus the index, and the byte offset of the allocated
/// block lies within that block.
pub proof fn lemma_data_block_in_device_blocks(index: int, blk: int, data_base: int)
    requires
        blk > 0,
        index >= 0,
        data_base >= 0,
    ensures
        data_block(index, blk, data_base) == data_base / blk + index,
        data_block(index, blk, data_base) * blk <= index * blk + data_base < data_block(index, blk, data_base)
            * blk + blk,
        data_base % blk == 0 ==> data_block(index, blk, data_base) * blk == index * blk + data_base,
{
    vstd::arithmetic::div_mod::lemma_hoist_over_denominator(data_base, index, blk as nat);
    assert(index * blk == blk * index) by (nonlinear_arith);
    vstd::arithmetic::div_mod::lemma_fundamental_div_mod(data_base, blk);
    let q = data_base / blk;
    let r = data_base % blk;
    assert(0 <= r < blk);
    assert((q + index) * blk == q * blk + index * blk) by (nonlinear_arith);
    assert(q * blk == blk * q) by (nonlinear_arith);
}

/// The byte where the record of inode `inum` starts, for blocks of `blk`
/// bytes.
pub open spec fn inode_record_start(blk: int, inum: int) -> int {
    inode_table_start(blk) + inum * INODE_SIZE
}

/// Law of the file-system layout: the inode table starts after the three
/// leading blocks (label, inode bitmap, data bitmap) and holds one record
/// for every bit of a one-block inode bitmap; every such record lies wholly
/// before the data region, and the data region starts on a block boundary.
pub proof fn lemma_layout_holds_inode_table(blk: int)
    requires
        blk > 0,
    ensures
        inode_table_start(blk) == 3 * blk,
        forall|inum: int|
            0 <= inum < 8 * blk ==> inode_table_start(blk) <= #[trigger] inode_record_start(blk, inum)
                && inode_record_start(blk, inum) + INODE_SIZE <= data_start(blk),
        inode_table_start(blk) + 8 * blk * INODE_SIZE == data_start(blk),
        data_start(blk) % blk == 0,
{
    assert forall|inum: int| 0 <= inum < 8 * blk implies inode_table_start(blk) <= #[trigger] inode_record_start(
        blk,
        inum,
    ) && inode_record_start(blk, inum) + INODE_SIZE <= data_start(blk) by {
        assert(inum * INODE_SIZE + INODE_SIZE <= 8 * blk * INODE_SIZE) by (nonlinear_arith)
            requires
                0 <= inum < 8 * blk,
        ;
        assert(8 * blk * INODE_SIZE == INODE_SIZE * blk * 8) by (nonlinear_arith);
    }
    assert(8 * blk * INODE_SIZE == INODE_SIZE * blk * 8) by (nonlinear_arith);
    assert(data_start(blk) == blk * (3 + INODE_SIZE * 8)) by (nonlinear_arith);
    vstd::arithmetic::div_mod::lemma_mod_multiples_basic(3 + INODE_SIZE * 8, blk);
    assert((3 + INODE_SIZE * 8) * blk == blk * (3 + INODE_SIZE * 8)) by (nonlinear_arith);
}


/// Law of the file-system layout: the regions follow one another from the
/// start of the device without gap or overlap — the label block, the inode
/// bitmap block, the data bitmap block, the inode table, then the data —
/// and each bitmap is one block long.
pub proof fn lemma_layout_regions(blk: int)
    requires
        blk > 0,
    ensures
        0 + blk == inode_bitmap_start(blk),
        inode_bitmap_start(blk) + blk == data_bitmap_start(blk),
        data_bitmap_start(blk) + blk == inode_table_start(blk),
        inode_table_start(blk) < data_start(blk),
        inode_bitmap_start(blk) % blk == 0 && data_bitmap_start(blk) % blk == 0 && inode_table_start(blk)
            % blk == 0,
{
    vstd::arithmetic::div_mod::lemma_mod_multiples_basic(1, blk);
    vstd::arithmetic::div_mod::lemma_mod_multiples_basic(2, blk);
    vstd::arithmetic::div_mod::lemma_mod_multiples_basic(3, blk);
    assert(INODE_SIZE * blk * 8 > 0) by (nonlinear_arith)
        requires
            blk > 0,
    ;
}


/// Law of formatting: on a device whose blocks have room for the label and
/// its terminating zero, block 0 reads back as the C string of the label
/// with zeros after it, and block 1 differs from it only in its first byte,
/// which marks the root inode as taken.
pub proof fn lemma_label_block_reads_back(blk: int)
    requires
        blk > fs_label().len(),
    ensures
        label_block(blk).len() == blk,
        c_string(label_block(blk)) == fs_label(),
        forall|j: int| fs_label().len() <= j < blk ==> #[trigger] label_block(blk)[j] == 0,
        root_inode_block(blk)[0] == 1,
        forall|j: int| 1 <= j < blk ==> #[trigger] root_inode_block(blk)[j] == label_block(blk)[j],
{
    let text = fs_label();
    assert forall|i: int| 0 <= i < text.len() implies text[i] != 0 by {}
    crate::env::lemma_printed_reads_back(zero_block(blk), blk, text);
    assert(text.subrange(0, text.len() as int) =~= text);
}

} // verus!
