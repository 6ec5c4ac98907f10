//! The state an application keeps while it drives one block device: the
//! device, its descriptor, its I/O channel and buffer (each held as an
//! address, 0 for none) and the device's name.
use vstd::prelude::*;
use vstd::string::StringExecFns;
use crate::env::{Buf, printed};
use crate::spdk::{BdevError, SpdkBdev, SpdkBdevDesc, SpdkIoChannel, get_by_name};

verus! {

/// The state of an application that drives one block device.
pub struct AppContext {
    bdev: usize,
    bdev_desc: usize,
    bdev_io_channel: usize,
    buff: usize,
    bdev_name: Option<String>,
}

impl AppContext {
    /// The address of the device.
    pub closed spec fn spec_bdev(&self) -> usize {
        self.bdev
    }

    /// The address of the descriptor.
    pub closed spec fn spec_bdev_desc(&self) -> usize {
        self.bdev_desc
    }

    /// The address of the I/O channel.
    pub closed spec fn spec_io_channel(&self) -> usize {
        self.bdev_io_channel
    }

    /// The address of the buffer.
    pub closed spec fn spec_buff(&self) -> usize {
        self.buff
    }

    /// The device name, once set.
    pub closed spec fn spec_name(&self) -> Option<Seq<char>> {
        match self.bdev_name {
            Some(n) => Some(n@),
            None => None,
        }
    }

    /// Nothing chosen yet: every address 0, no name.
    pub fn new() -> (c: AppContext)
        ensures
            c.spec_bdev() == 0,
            c.spec_bdev_desc() == 0,
            c.spec_io_channel() == 0,
            c.spec_buff() == 0,
            c.spec_name() is None,
    {
        AppContext { bdev: 0, bdev_desc: 0, bdev_io_channel: 0, buff: 0, bdev_name: None }
    }

    /// Names the device to use. The name holds no zero character.
    pub fn set_bdev_name(&mut self, name: &str)
        requires
            forall|i: int| 0 <= i < name@.len() ==> name@[i] != '\0',
        ensures
            final(self).spec_name() == Some(name@),
            final(self).spec_bdev() == old(self).spec_bdev(),
            final(self).spec_bdev_desc() == old(self).spec_bdev_desc(),
            final(self).spec_io_channel() == old(self).spec_io_channel(),
            final(self).spec_buff() == old(self).spec_buff(),
    {
        self.bdev_name = Some(String::from_str(name));
    }

    /// The device name.
    pub fn bdev_name(&self) -> (n: &str)
        requires
            self.spec_name() is Some,
        ensures
            Some(n@) == self.spec_name(),
    {
        self.bdev_name.as_ref().unwrap().as_str()
    }

    /// The device.
    pub fn bdev(&self) -> (b: Option<SpdkBdev>)
        ensures
            b matches Some(d) && d.addr() == self.spec_bdev(),
    {
        Some(SpdkBdev::from_raw(self.bdev))
    }

    /// Records the device found by looking up the name: `raw` is the address
    /// that the lookup returned, 0 when there is no device of that name.
    pub fn set_bdev(&mut self, raw: usize) -> (r: Result<(), BdevError>)
        requires
            old(self).spec_name() is Some,
        ensures
            raw == 0 <==> r is Err,
            r matches Err(e) ==> e matches BdevError::NotFound(n) && Some(n@) == old(self).spec_name(),
            final(self).spec_bdev() == if raw == 0 { old(self).spec_bdev() } else { raw },
            final(self).spec_bdev_desc() == old(self).spec_bdev_desc(),
            final(self).spec_io_channel() == old(self).spec_io_channel(),
            final(self).spec_buff() == old(self).spec_buff(),
            final(self).spec_name() == old(self).spec_name(),
    {
        let name = String::from_str(self.bdev_name.as_ref().unwrap().as_str());
        match get_by_name(name, raw) {
            Err(e) => Err(e),
            Ok(t) => {
                self.bdev = t.to_raw();
                Ok(())
            },
        }
    }

    /// The outcome of opening the device, given the code the open call
    /// returned and the descriptor it filled in: any code but 0 is a failure,
    /// reported with the device name.
    pub fn spdk_bdev_open(&mut self, write: bool, rc: i32, desc: usize) -> (r: Result<i32, String>)
        requires
            old(self).spec_name() is Some,
        ensures
            rc == 0 ==> r == Ok::<i32, String>(0),
            rc != 0 ==> (r matches Err(m) && m@ == "Could not open bdev: "@ + old(self).spec_name().unwrap()),
            final(self).spec_bdev_desc() == if rc == 0 { desc } else { old(self).spec_bdev_desc() },
            final(self).spec_bdev() == old(self).spec_bdev(),
            final(self).spec_io_channel() == old(self).spec_io_channel(),
            final(self).spec_buff() == old(self).spec_buff(),
            final(self).spec_name() == old(self).spec_name(),
    {
        if rc != 0 {
            let s = String::from_str("Could not open bdev: ");
            Err(s.concat(self.bdev_name()))
        } else {
            self.bdev_desc = desc;
            Ok(0)
        }
    }

    /// The descriptor.
    pub fn bdev_desc(&self) -> (d: Option<SpdkBdevDesc>)
        ensures
            d matches Some(x) && x.addr() == self.spec_bdev_desc(),
    {
        Some(SpdkBdevDesc::from_raw(self.bdev_desc))
    }

    /// Records the I/O channel that the channel call returned, `raw`: 0
    /// means no channel could be had.
    pub fn spdk_bdev_get_io_channel(&mut self, raw: usize) -> (r: Result<i32, String>)
        ensures
            raw == 0 ==> (r matches Err(m) && m@ == "Could not create bdev I/O channel!!"@),
            raw != 0 ==> r == Ok::<i32, String>(0),
            final(self).spec_io_channel() == if raw == 0 { old(self).spec_io_channel() } else { raw },
            final(self).spec_bdev() == old(self).spec_bdev(),
            final(self).spec_bdev_desc() == old(self).spec_bdev_desc(),
            final(self).spec_buff() == old(self).spec_buff(),
            final(self).spec_name() == old(self).spec_name(),
    {
        if raw == 0 {
            Err(String::from_str("Could not create bdev I/O channel!!"))
        } else {
            self.bdev_io_channel = raw;
            Ok(0)
        }
    }

    /// The outcome of submitting a write of the buffer, given the code the
    /// submission returned: any code but 0 is a failure.
    pub fn spdk_bdev_write(&self, rc: i32) -> (r: Result<i32, String>)
        ensures
            rc != 0 ==> (r matches Err(m) && m@ == "Could not write to the device"@),
            rc == 0 ==> r == Ok::<i32, String>(0),
    {
        if rc == 0 {
            Ok(0)
        } else {
            Err(String::from_str("Could not write to the device"))
        }
    }

    /// Records the buffer that the allocation returned, `raw`: 0 means the
    /// allocation failed.
    pub fn allocate_buff(&mut self, raw: usize) -> (r: Result<i32, String>)
        ensures
            raw == 0 ==> (r matches Err(m) && m@ == "Failed to allocate buffer"@),
            raw != 0 ==> r == Ok::<i32, String>(0),
            final(self).spec_buff() == raw,
            final(self).spec_bdev() == old(self).spec_bdev(),
            final(self).spec_bdev_desc() == old(self).spec_bdev_desc(),
            final(self).spec_io_channel() == old(self).spec_io_channel(),
            final(self).spec_name() == old(self).spec_name(),
    {
        self.buff = raw;
        if raw == 0 {
            Err(String::from_str("Failed to allocate buffer"))
        } else {
            Ok(0)
        }
    }

    /// The I/O channel.
    pub fn bdev_io_channel(&self) -> (ch: SpdkIoChannel)
        ensures
            ch.addr() == self.spec_io_channel(),
    {
        SpdkIoChannel::from_raw(self.bdev_io_channel)
    }

    /// Writes the message into the buffer of the context, `buff`, as
    /// `snprintf` does with the format `%s` and a newline, bounded by the
    /// device's block size `blk_size`.
    pub fn write_buff(&self, buff: &mut Buf, blk_size: usize, message: &[u8])
        requires
            blk_size <= old(buff)@.len(),
            forall|i: int| 0 <= i < message@.len() ==> message@[i] != 0,
        ensures
            final(buff)@ == printed(old(buff)@, blk_size as int, message@.push(10u8)),
    {
        let mut text: Vec<u8> = Vec::new();
        let mut k: usize = 0;
        while k < message.len()
            invariant
                k <= message@.len(),
                text@ == message@.subrange(0, k as int),
            decreases message@.len() - k,
        {
            text.push(message[k]);
            k = k + 1;
        }
        text.push(10u8);
        proof {
            assert(text@ =~= message@.push(10u8));
        }
        buff.fill(blk_size, text.as_slice());
    }
}

} // verus!
