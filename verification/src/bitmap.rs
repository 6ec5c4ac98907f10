//! Allocation bitmaps: one bit per object, bit `k % 8` of byte `k / 8`
//! standing for object `k`, set when the object is in use.
use vstd::prelude::*;

verus! {

/// Why a bitmap operation failed.
#[derive(Debug)]
pub enum BitmapErr {
    /// Every bit is set.
    Full(),
}

/// Bit `i` (0 = least significant) of byte `x`.
pub open spec fn byte_bit(x: u8, i: int) -> bool {
    (x >> (i as u8)) & 1u8 == 1u8
}

/// Bit `k` of a bitmap: bit `k % 8` of byte `k / 8`.
pub open spec fn bit(bytes: Seq<u8>, k: int) -> bool {
    byte_bit(bytes[k / 8], k % 8)
}

/// Byte `b` is the first byte of `bytes` with a clear bit.
pub open spec fn first_open_byte(bytes: Seq<u8>, b: int) -> bool {
    &&& 0 <= b < bytes.len()
    &&& bytes[b] != 0xffu8
    &&& forall|c: int| 0 <= c < b ==> #[trigger] bytes[c] == 0xffu8
}

/// Bit `i` is the lowest clear bit of byte `x`.
pub open spec fn lowest_clear_bit(x: u8, i: int) -> bool {
    &&& 0 <= i < 8
    &&& !byte_bit(x, i)
    &&& forall|j: int| 0 <= j < i ==> #[trigger] byte_bit(x, j)
}

/// Every bit of every byte is set.
pub open spec fn all_set(bytes: Seq<u8>) -> bool {
    forall|c: int| 0 <= c < bytes.len() ==> #[trigger] bytes[c] == 0xffu8
}

proof fn lemma_or_bit(x: u8, i: u8, j: u8)
    requires
        i < 8,
        j < 8,
    ensures
        ((x | (1u8 << i)) >> j) & 1u8 == if i == j { 1u8 } else { (x >> j) & 1u8 },
{
    assert(((x | (1u8 << i)) >> j) & 1u8 == if i == j { 1u8 } else { (x >> j) & 1u8 })
        by (bit_vector)
        requires
            i < 8,
            j < 8,
    ;
}

proof fn lemma_and_not_bit(x: u8, i: u8, j: u8)
    requires
        i < 8,
        j < 8,
    ensures
        ((x & !(1u8 << i)) >> j) & 1u8 == if i == j { 0u8 } else { (x >> j) & 1u8 },
{
    assert(((x & !(1u8 << i)) >> j) & 1u8 == if i == j { 0u8 } else { (x >> j) & 1u8 })
        by (bit_vector)
        requires
            i < 8,
            j < 8,
    ;
}

proof fn lemma_bit_of_mask(x: u8, i: u8)
    requires
        i < 8,
    ensures
        (x & (1u8 << i) == 0u8) == ((x >> i) & 1u8 == 0u8),
        1u8 << i <= 128u8,
        i < 7 ==> (1u8 << i) * 2 == 1u8 << ((i + 1) as u8),
        (x >> i) & 1u8 == 0u8 || (x >> i) & 1u8 == 1u8,
        1u8 << 0u8 == 1u8,
{
    assert((x >> i) & 1u8 == 0u8 || (x >> i) & 1u8 == 1u8) by (bit_vector);
    assert(1u8 << 0u8 == 1u8) by (bit_vector);
    assert((x & (1u8 << i) == 0u8) == ((x >> i) & 1u8 == 0u8)) by (bit_vector)
        requires
            i < 8,
    ;
    assert(1u8 << i <= 128u8) by (bit_vector)
        requires
            i < 8,
    ;
    assert(i < 7 ==> (1u8 << i) * 2 == 1u8 << ((i + 1) as u8)) by (bit_vector)
        requires
            i < 8,
    ;
}

proof fn lemma_full_byte(x: u8)
    ensures
        x != 0xffu8 <==> !x != 0u8,
        x == 0xffu8 ==> forall|j: u8| j < 8 ==> (x >> j) & 1u8 == 1u8,
{
    assert(x != 0xffu8 <==> !x != 0u8) by (bit_vector);
    assert(x == 0xffu8 ==> forall|j: u8| j < 8 ==> (x >> j) & 1u8 == 1u8) by (bit_vector);
}

/// A bitmap kept in memory, with the byte offset of its copy on the device.
pub struct Bitmap {
    pub bitmap: Vec<u8>,
    pub offset: usize,
}

impl View for Bitmap {
    type V = Seq<u8>;

    /// The bytes of the bitmap.
    open spec fn view(&self) -> Seq<u8> {
        self.bitmap@
    }
}

impl Bitmap {
    /// The byte offset of the bitmap's copy on the device.
    pub closed spec fn spec_offset(&self) -> usize {
        self.offset
    }

    /// A bitmap of `size` bytes, all bits clear, stored at `offset`.
    pub fn new(offset: usize, size: usize) -> (b: Bitmap)
        ensures
            b@ == Seq::new(size as nat, |i: int| 0u8),
            b.spec_offset() == offset,
    {
        let b = Bitmap { bitmap: vec![0u8; size], offset: offset };
        assert(b@ =~= Seq::new(size as nat, |i: int| 0u8));
        b
    }

    /// The byte offset of the bitmap's copy on the device.
    pub fn offset(&self) -> (o: usize)
        ensures
            o == self.spec_offset(),
    {
        self.offset
    }

    /// Sets bit `index`.
    pub fn set(&mut self, index: usize)
        requires
            index / 8 < old(self)@.len(),
        ensures
            final(self)@ == old(self)@.update(
                (index / 8) as int,
                old(self)@[(index / 8) as int] | (1u8 << ((index % 8) as u8)),
            ),
            final(self).spec_offset() == old(self).spec_offset(),
            bit(final(self)@, index as int),
            forall|k: int|
                0 <= k < 8 * old(self)@.len() && k != index ==> #[trigger] bit(
                    final(self)@,
                    k,
                ) == bit(old(self)@, k),
    {
        let bit_index = index % 8;
        let byte_offset = index / 8;
        let old_byte = self.bitmap[byte_offset];
        self.bitmap[byte_offset] = old_byte | (1u8 << (bit_index as u8));
        proof {
            let bytes = self.bitmap@;
            assert forall|k: int| 0 <= k < 8 * old(self)@.len() implies #[trigger] bit(bytes, k)
                == if k == index { true } else { bit(old(self)@, k) } by {
                lemma_or_bit(old_byte, bit_index as u8, (k % 8) as u8);
            }
        }
    }

    /// Clears bit `index`.
    pub fn clear(&mut self, index: usize)
        requires
            index / 8 < old(self)@.len(),
        ensures
            final(self)@ == old(self)@.update(
                (index / 8) as int,
                old(self)@[(index / 8) as int] & !(1u8 << ((index % 8) as u8)),
            ),
            final(self).spec_offset() == old(self).spec_offset(),
            !bit(final(self)@, index as int),
            forall|k: int|
                0 <= k < 8 * old(self)@.len() && k != index ==> #[trigger] bit(
                    final(self)@,
                    k,
                ) == bit(old(self)@, k),
    {
        let bit_index = index % 8;
        let byte_offset = index / 8;
        let old_byte = self.bitmap[byte_offset];
        self.bitmap[byte_offset] = old_byte & !(1u8 << (bit_index as u8));
        proof {
            let bytes = self.bitmap@;
            assert forall|k: int| 0 <= k < 8 * old(self)@.len() implies #[trigger] bit(bytes, k)
                == if k == index { false } else { bit(old(self)@, k) } by {
                lemma_and_not_bit(old_byte, bit_index as u8, (k % 8) as u8);
            }
        }
    }

    /// Finds the first clear bit, sets it, and returns its position within
    /// its byte plus eight times the new value of that byte. Fails, changing
    /// nothing, when every bit is set.
    pub fn find(&mut self) -> (r: Result<usize, BitmapErr>)
        ensures
            final(self).spec_offset() == old(self).spec_offset(),
            match r {
                Ok(v) => exists|b: int, i: int|
                    {
                        &&& first_open_byte(old(self)@, b)
                        &&& lowest_clear_bit(old(self)@[b], i)
                        &&& #[trigger] final(self)@ == old(self)@.update(
                            b,
                            old(self)@[b] | (1u8 << (i as u8)),
                        )
                        &&& v == i + 8 * (old(self)@[b] | (1u8 << (i as u8)))
                        &&& !bit(old(self)@, 8 * b + i)
                        &&& bit(final(self)@, 8 * b + i)
                        &&& forall|k: int|
                            0 <= k < 8 * b + i ==> #[trigger] bit(old(self)@, k)
                        &&& forall|k: int|
                            0 <= k < 8 * old(self)@.len() && k != 8 * b + i ==> #[trigger] bit(
                                final(self)@,
                                k,
                            ) == bit(old(self)@, k)
                    },
                Err(BitmapErr::Full()) => {
                    &&& all_set(old(self)@)
                    &&& final(self)@ == old(self)@
                },
            },
    {
        let mut b: usize = 0;
        while b < self.bitmap.len()
            invariant
                b <= self.bitmap@.len(),
                self.bitmap@ == old(self)@,
                self.offset == old(self).offset,
                forall|c: int| 0 <= c < b ==> #[trigger] self.bitmap@[c] == 0xffu8,
            decreases self.bitmap@.len() - b,
        {
            let byte = self.bitmap[b];
            proof {
                lemma_full_byte(byte);
            }
            if !byte != 0 {
                let mut mask: u8 = 1;
                proof {
                    lemma_bit_of_mask(byte, 0);
                }
                let mut i: usize = 0;
                while i < 8
                    invariant
                        i <= 8,
                        self.bitmap@ == old(self)@,
                        self.offset == old(self).offset,
                        b < self.bitmap@.len(),
                        byte == self.bitmap@[b as int],
                        byte != 0xffu8,
                        forall|c: int| 0 <= c < b ==> #[trigger] self.bitmap@[c] == 0xffu8,
                        i < 8 ==> mask == 1u8 << (i as u8),
                        forall|j: int| 0 <= j < i ==> #[trigger] byte_bit(byte, j),
                    decreases 8 - i,
                {
                    proof {
                        lemma_bit_of_mask(byte, i as u8);
                    }
                    if byte & mask == 0 {
                        let new_byte = byte | mask;
                        self.bitmap[b] = new_byte;
                        proof {
                            let bb = b as int;
                            let ii = i as int;
                            assert(first_open_byte(old(self)@, bb));
                            assert(lowest_clear_bit(byte, ii));
                            assert(bit(old(self)@, 8 * bb + ii) == byte_bit(byte, ii));
                            lemma_or_bit(byte, i as u8, i as u8);
                            assert(bit(self.bitmap@, 8 * bb + ii));
                            assert forall|k: int| 0 <= k < 8 * bb + ii implies #[trigger] bit(
                                old(self)@,
                                k,
                            ) by {
                                if k / 8 < bb {
                                    lemma_full_byte(old(self)@[k / 8]);
                                    assert((old(self)@[k / 8] >> ((k % 8) as u8)) & 1u8 == 1u8);
                                } else {
                                    assert(k / 8 == bb);
                                    assert(byte_bit(byte, k % 8));
                                }
                            }
                            assert forall|k: int|
                                0 <= k < 8 * old(self)@.len() && k != 8 * bb + ii implies #[trigger] bit(
                                    self.bitmap@,
                                    k,
                                ) == bit(old(self)@, k) by {
                                if k / 8 == bb {
                                    lemma_or_bit(byte, i as u8, (k % 8) as u8);
                                }
                            }
                        }
                        return Ok(i + (new_byte as usize) * 8);
                    }
                    if i < 7 {
                        mask = mask * 2;
                    }
                    i = i + 1;
                }
                proof {
                    assert(forall|j: int| 0 <= j < 8 ==> #[trigger] byte_bit(byte, j));
                    assert(byte == 0xffu8) by {
                        assert(byte_bit(byte, 0) && byte_bit(byte, 1) && byte_bit(byte, 2)
                            && byte_bit(byte, 3) && byte_bit(byte, 4) && byte_bit(byte, 5)
                            && byte_bit(byte, 6) && byte_bit(byte, 7));
                        lemma_all_bits_full(byte);
                    }
                }
            }
            b = b + 1;
        }
        Err(BitmapErr::Full())
    }

    /// Replaces the bitmap with `block`, the bitmap's block as read from the
    /// device.
    pub fn read_bitmap(&mut self, block: &[u8])
        requires
            block@.len() == old(self)@.len(),
        ensures
            final(self)@ == block@,
            final(self).spec_offset() == old(self).spec_offset(),
    {
        let mut k: usize = 0;
        while k < block.len()
            invariant
                k <= block@.len(),
                block@.len() == self.bitmap@.len(),
                self.offset == old(self).offset,
                forall|j: int| 0 <= j < k ==> #[trigger] self.bitmap@[j] == block@[j],
            decreases block@.len() - k,
        {
            self.bitmap[k] = block[k];
            k = k + 1;
        }
        assert(self.bitmap@ =~= block@);
    }

    /// The first `blk_size` bytes of the bitmap: the block to write to the
    /// device at the bitmap's offset.
    pub fn write_bitmap(&self, blk_size: usize) -> (block: Vec<u8>)
        requires
            blk_size <= self@.len(),
        ensures
            block@ == self@.subrange(0, blk_size as int),
    {
        let mut block: Vec<u8> = Vec::new();
        let mut k: usize = 0;
        while k < blk_size
            invariant
                k <= blk_size,
                blk_size <= self.bitmap@.len(),
                block@ == self.bitmap@.subrange(0, k as int),
            decreases blk_size - k,
        {
            block.push(self.bitmap[k]);
            k = k + 1;
        }
        block
    }
}

proof fn lemma_all_bits_full(x: u8)
    requires
        (x >> 0u8) & 1u8 == 1u8,
        (x >> 1u8) & 1u8 == 1u8,
        (x >> 2u8) & 1u8 == 1u8,
        (x >> 3u8) & 1u8 == 1u8,
        (x >> 4u8) & 1u8 == 1u8,
        (x >> 5u8) & 1u8 == 1u8,
        (x >> 6u8) & 1u8 == 1u8,
        (x >> 7u8) & 1u8 == 1u8,
    ensures
        x == 0xffu8,
{
    assert(x == 0xffu8) by (bit_vector)
        requires
            (x >> 0u8) & 1u8 == 1u8,
            (x >> 1u8) & 1u8 == 1u8,
            (x >> 2u8) & 1u8 == 1u8,
            (x >> 3u8) & 1u8 == 1u8,
            (x >> 4u8) & 1u8 == 1u8,
            (x >> 5u8) & 1u8 == 1u8,
            (x >> 6u8) & 1u8 == 1u8,
            (x >> 7u8) & 1u8 == 1u8,
    ;
}

/// The bytes of a bitmap after `Bitmap::set(index)`.
pub open spec fn set_bytes(bytes: Seq<u8>, index: int) -> Seq<u8> {
    bytes.update(index / 8, bytes[index / 8] | (1u8 << ((index % 8) as u8)))
}

/// The bytes of a bitmap after `Bitmap::clear(index)`.
pub open spec fn clear_bytes(bytes: Seq<u8>, index: int) -> Seq<u8> {
    bytes.update(index / 8, bytes[index / 8] & !(1u8 << ((index % 8) as u8)))
}

/// Law of `Bitmap::set` and `Bitmap::clear`: clearing a bit that was clear
/// before it was set gives back the bitmap as it was, and setting a bit
/// that was set before it was cleared does too.
pub proof fn lemma_clear_undoes_set(bytes: Seq<u8>, index: int)
    requires
        0 <= index,
        index / 8 < bytes.len(),
    ensures
        !bit(bytes, index) ==> clear_bytes(set_bytes(bytes, index), index) == bytes,
        bit(bytes, index) ==> set_bytes(clear_bytes(bytes, index), index) == bytes,
{
    let x = bytes[index / 8];
    let i = (index % 8) as u8;
    assert(((x >> i) & 1u8 != 1u8) ==> ((x | (1u8 << i)) & !(1u8 << i)) == x) by (bit_vector)
        requires
            i < 8,
    ;
    assert(((x >> i) & 1u8 == 1u8) ==> ((x & !(1u8 << i)) | (1u8 << i)) == x) by (bit_vector)
        requires
            i < 8,
    ;
    assert(clear_bytes(set_bytes(bytes, index), index) =~= bytes.update(index / 8, (x | (1u8 << i)) & !(1u8 << i)));
    assert(set_bytes(clear_bytes(bytes, index), index) =~= bytes.update(index / 8, (x & !(1u8 << i)) | (1u8 << i)));
    if !bit(bytes, index) {
        assert(bytes.update(index / 8, x) =~= bytes);
    }
    if bit(bytes, index) {
        assert(bytes.update(index / 8, x) =~= bytes);
    }
}

/// Law of `Bitmap::find` and `Bitmap::clear`: clearing the bit that a
/// successful `find` set (bit `i` of byte `b`, that is bit `8 * b + i`)
/// gives back the bitmap as it was before the `find`.
pub proof fn lemma_clear_undoes_find(before: Seq<u8>, after: Seq<u8>, b: int, i: int)
    requires
        first_open_byte(before, b),
        lowest_clear_bit(before[b], i),
        after == before.update(b, before[b] | (1u8 << (i as u8))),
    ensures
        clear_bytes(after, 8 * b + i) == before,
{
    assert((8 * b + i) / 8 == b);
    assert((8 * b + i) % 8 == i);
    assert(after == set_bytes(before, 8 * b + i));
    assert(!bit(before, 8 * b + i));
    lemma_clear_undoes_set(before, 8 * b + i);
}

/// Law of `Bitmap::write_bitmap` and `Bitmap::read_bitmap`: the block that
/// `write_bitmap` gives for the full length of `source`, read back with
/// `read_bitmap` into a bitmap `target` of the same length, leaves that
/// bitmap (`read`) with the bytes of `source` at the offset of `target`.
pub proof fn lemma_bitmap_block_round_trip(source: Bitmap, block: Seq<u8>, target: Bitmap, read: Bitmap)
    requires
        block == source@.subrange(0, source@.len() as int),
        target@.len() == block.len(),
        read@ == block,
        read.spec_offset() == target.spec_offset(),
    ensures
        read@ == source@,
        read.spec_offset() == target.spec_offset(),
{
    assert(block =~= source@);
}

} // verus!
