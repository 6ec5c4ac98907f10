//! A block device opened for the file system: its descriptor, its I/O
//! channel, its block size and the alignment its buffers need.
use vstd::prelude::*;
use crate::env::{Buf, c_string, has_nul};
use crate::spdk::{BdevError, SpdkBdevDesc, SpdkIoChannel};

verus! {

/// An open block device.
pub struct Device {
    desc: SpdkBdevDesc,
    io_channel: SpdkIoChannel,
    buf_align: usize,
    blk_size: u32,
}

impl Device {
    /// The descriptor the device was opened with.
    pub closed spec fn spec_desc(&self) -> SpdkBdevDesc {
        self.desc
    }

    /// The I/O channel of the device.
    pub closed spec fn spec_io_channel(&self) -> SpdkIoChannel {
        self.io_channel
    }

    /// The block size in bytes.
    pub closed spec fn spec_blk_size(&self) -> u32 {
        self.blk_size
    }

    /// The alignment that the device's buffers need.
    pub closed spec fn spec_buf_align(&self) -> usize {
        self.buf_align
    }

    /// The device opened through `desc`, with I/O channel `io_channel`,
    /// blocks of `blk_size` bytes and buffers aligned to `buf_align`.
    pub fn new(desc: SpdkBdevDesc, io_channel: SpdkIoChannel, blk_size: u32, buf_align: usize) -> (d: Device)
        ensures
            d.spec_desc() == desc,
            d.spec_io_channel() == io_channel,
            d.spec_blk_size() == blk_size,
            d.spec_buf_align() == buf_align,
    {
        Device { desc, io_channel, buf_align, blk_size }
    }

    /// The length of the C string that a read left at the start of
    /// `read_buf`: the number of bytes before its first zero byte.
    pub fn read(&self, read_buf: &Buf) -> (n: usize)
        requires
            has_nul(read_buf@),
            vstd::utf8::valid_utf8(c_string(read_buf@)),
        ensures
            n == c_string(read_buf@).len(),
    {
        let s = read_buf.read();
        s.len()
    }

    /// The outcome of writing `nbytes` bytes at byte `offset` of the device
    /// named `name`, given whether the write's completion reported success:
    /// the error names the device, the offset and the length.
    pub fn write(&self, name: String, success: bool, offset: u64, nbytes: u64) -> (r: Result<(), BdevError>)
        ensures
            success <==> r is Ok,
            r matches Err(e) ==> e matches BdevError::WriteError(n, code, o, l) && n@ == name@
                && code == -1 && o == offset && l == nbytes,
    {
        crate::spdk::write(name, success, offset, nbytes)
    }

    /// The block size in bytes.
    pub fn blk_size(&self) -> (b: usize)
        ensures
            b == self.spec_blk_size(),
    {
        self.blk_size as usize
    }

    /// The alignment that the device's buffers need.
    pub fn buf_align(&self) -> (a: usize)
        ensures
            a == self.spec_buf_align(),
    {
        self.buf_align
    }

    /// The descriptor the device was opened with.
    pub fn desc(&self) -> (d: SpdkBdevDesc)
        ensures
            d == self.spec_desc(),
    {
        self.desc
    }

    /// The I/O channel of the device.
    pub fn io_channel(&self) -> (ch: SpdkIoChannel)
        ensures
            ch == self.spec_io_channel(),
    {
        self.io_channel
    }
}

} // verus!
