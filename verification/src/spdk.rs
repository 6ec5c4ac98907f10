//! Handles on the block-device layer's objects (devices, descriptors, I/O
//! channels, threads, I/O requests), each held as the address of the
//! object, 0 standing for none, and the errors of the device layer with the
//! rules that turn a call's raw outcome into a result.
use vstd::prelude::*;

verus! {

/// Why a device-layer call failed.
#[derive(Debug)]
pub enum BdevError {
    /// A write completed with an error: device name, code, offset, length.
    WriteError(String, i32, u64, u64),
    /// A block-granular zeroing write failed: device name, code.
    WriteZeroesBlocksError(String, i32),
    /// A zeroing write failed: device name, code.
    WriteZeroesError(String, i32),
    /// A read completed with an error: device name, code, offset, length.
    ReadError(String, i32, u64, u64),
    /// No device has the name.
    NotFound(String),
    /// The device could not be opened.
    OpenError(String),
    /// No I/O channel could be had for the descriptor.
    IOChannelError(),
}

/// Why a thread call failed.
#[derive(Debug)]
pub enum ThreadError {
    ThreadAllocationError(),
}

/// A block device.
#[derive(Clone, Copy, Debug)]
pub struct SpdkBdev {
    raw: usize,
}

/// An open descriptor on a block device.
#[derive(Clone, Copy, Debug)]
pub struct SpdkBdevDesc {
    raw: usize,
}

/// An I/O request of a block device.
#[derive(Clone, Copy, Debug)]
pub struct SpdkBdevIO {
    raw: usize,
}

/// An I/O channel.
#[derive(Clone, Copy, Debug)]
pub struct SpdkIoChannel {
    raw: usize,
}

/// A thread of the device layer.
#[derive(Clone, Copy, Debug)]
pub struct SpdkThread {
    raw: usize,
}

impl SpdkBdev {
    /// The address of the device object.
    pub closed spec fn addr(&self) -> usize {
        self.raw
    }

    /// The device at address `raw`.
    pub fn from_raw(raw: usize) -> (b: SpdkBdev)
        ensures
            b.addr() == raw,
    {
        SpdkBdev { raw: raw }
    }

    /// The address of the device object.
    pub fn to_raw(&self) -> (raw: usize)
        ensures
            raw == self.addr(),
    {
        self.raw
    }
}

impl SpdkBdevDesc {
    /// The address of the descriptor object.
    pub closed spec fn addr(&self) -> usize {
        self.raw
    }

    /// No descriptor yet: address 0.
    pub fn new() -> (d: SpdkBdevDesc)
        ensures
            d.addr() == 0,
    {
        SpdkBdevDesc { raw: 0 }
    }

    /// The descriptor at address `raw`.
    pub fn from_raw(raw: usize) -> (d: SpdkBdevDesc)
        ensures
            d.addr() == raw,
    {
        SpdkBdevDesc { raw: raw }
    }

    /// The address of the descriptor object.
    pub fn to_raw(&self) -> (raw: usize)
        ensures
            raw == self.addr(),
    {
        self.raw
    }

    /// The place that holds the descriptor's address, for a call that opens
    /// a device to fill in.
    pub fn mut_to_raw(&mut self) -> (slot: &mut usize)
        ensures
            *slot == old(self).addr(),
            final(self).addr() == *final(slot),
    {
        &mut self.raw
    }
}

impl SpdkBdevIO {
    /// The address of the request object.
    pub closed spec fn addr(&self) -> usize {
        self.raw
    }

    /// The request at address `raw`.
    pub fn from_raw(raw: usize) -> (io: SpdkBdevIO)
        ensures
            io.addr() == raw,
    {
        SpdkBdevIO { raw: raw }
    }

    /// The address of the request object.
    pub fn to_raw(&self) -> (raw: usize)
        ensures
            raw == self.addr(),
    {
        self.raw
    }

    /// No request yet: address 0.
    pub fn new() -> (io: SpdkBdevIO)
        ensures
            io.addr() == 0,
    {
        SpdkBdevIO { raw: 0 }
    }
}

impl SpdkIoChannel {
    /// The address of the channel object.
    pub closed spec fn addr(&self) -> usize {
        self.raw
    }

    /// The channel at address `raw`.
    pub fn from_raw(raw: usize) -> (ch: SpdkIoChannel)
        ensures
            ch.addr() == raw,
    {
        SpdkIoChannel { raw: raw }
    }

    /// The address of the channel object.
    pub fn to_raw(&self) -> (raw: usize)
        ensures
            raw == self.addr(),
    {
        self.raw
    }
}

impl SpdkThread {
    /// The address of the thread object.
    pub closed spec fn addr(&self) -> usize {
        self.raw
    }

    /// The thread at address `raw`.
    pub fn from_raw(raw: usize) -> (t: SpdkThread)
        ensures
            t.addr() == raw,
    {
        SpdkThread { raw }
    }
}

/// The device named `bdev_name`, given the address that the lookup by name
/// returned: 0 means there is no such device.
pub fn get_by_name(bdev_name: String, raw: usize) -> (r: Result<SpdkBdev, BdevError>)
    ensures
        raw == 0 <==> r is Err,
        r matches Ok(b) ==> b.addr() == raw,
        r matches Err(e) ==> e matches BdevError::NotFound(n) && n@ == bdev_name@,
{
    if raw == 0 {
        return Err(BdevError::NotFound(bdev_name));
    }
    Ok(SpdkBdev::from_raw(raw))
}

/// The outcome of opening device `bdev` (named `name`), given the return
/// code of the open call: any code but 0 is a failure.
pub fn open(bdev: SpdkBdev, name: String, rc: i32) -> (r: Result<(), BdevError>)
    ensures
        rc == 0 <==> r is Ok,
        r matches Err(e) ==> e matches BdevError::OpenError(n) && n@ == name@,
{
    if rc != 0 {
        Err(BdevError::OpenError(name))
    } else {
        Ok(())
    }
}

/// The first device, given the address that the listing call returned: 0
/// means there are none.
pub fn first(raw: usize) -> (b: Option<SpdkBdev>)
    ensures
        raw == 0 <==> b is None,
        b matches Some(d) ==> d.addr() == raw,
{
    if raw == 0 {
        None
    } else {
        Some(SpdkBdev::from_raw(raw))
    }
}

/// The device after `prev`, given the address that the listing call
/// returned: 0 means `prev` was the last.
pub fn next(prev: &SpdkBdev, raw: usize) -> (b: Option<SpdkBdev>)
    ensures
        raw == 0 <==> b is None,
        b matches Some(d) ==> d.addr() == raw,
{
    if raw == 0 {
        None
    } else {
        Some(SpdkBdev::from_raw(raw))
    }
}

/// The I/O channel of a descriptor, given the address that the channel
/// call returned: 0 means no channel could be had.
pub fn get_io_channel(desc: SpdkBdevDesc, raw: usize) -> (r: Result<SpdkIoChannel, BdevError>)
    ensures
        raw == 0 <==> r is Err,
        r matches Ok(ch) ==> ch.addr() == raw,
        r matches Err(e) ==> e is IOChannelError,
{
    if raw == 0 {
        Err(BdevError::IOChannelError())
    } else {
        Ok(SpdkIoChannel::from_raw(raw))
    }
}

/// The outcome of a write of `nbytes` at `offset` to the device named
/// `name`, given whether its completion reported success.
pub fn write(name: String, success: bool, offset: u64, nbytes: u64) -> (r: Result<(), BdevError>)
    ensures
        success <==> r is Ok,
        r matches Err(e) ==> e matches BdevError::WriteError(n, code, o, l) && n@ == name@ && code
            == -1 && o == offset && l == nbytes,
{
    if success {
        Ok(())
    } else {
        Err(BdevError::WriteError(name, -1, offset, nbytes))
    }
}

/// The outcome of a read of `nbytes` at `offset` from the device named
/// `name`, given whether its completion reported success.
pub fn read(name: String, success: bool, offset: u64, nbytes: u64) -> (r: Result<(), BdevError>)
    ensures
        success <==> r is Ok,
        r matches Err(e) ==> e matches BdevError::ReadError(n, code, o, l) && n@ == name@ && code
            == -1 && o == offset && l == nbytes,
{
    if success {
        Ok(())
    } else {
        Err(BdevError::ReadError(name, -1, offset, nbytes))
    }
}

/// The outcome of a zeroing write to the device named `name`, given whether
/// its completion reported success and the code the submission returned.
pub fn write_zeroes(name: String, success: bool, ret: i32) -> (r: Result<(), BdevError>)
    ensures
        success <==> r is Ok,
        r matches Err(e) ==> e matches BdevError::WriteZeroesError(n, code) && n@ == name@ && code
            == ret,
{
    if success {
        Ok(())
    } else {
        Err(BdevError::WriteZeroesError(name, ret))
    }
}

/// The outcome of a block-granular zeroing write to the device named
/// `name`, given whether its completion reported success and the code the
/// submission returned.
pub fn write_zeroes_blocks(name: String, success: bool, ret: i32) -> (r: Result<(), BdevError>)
    ensures
        success <==> r is Ok,
        r matches Err(e) ==> e matches BdevError::WriteZeroesBlocksError(n, code) && n@ == name@
            && code == ret,
{
    if success {
        Ok(())
    } else {
        Err(BdevError::WriteZeroesBlocksError(name, ret))
    }
}

/// A new thread, given the address that the allocation call returned: 0
/// means the allocation failed.
pub fn allocate_thread(raw: usize) -> (r: Result<SpdkThread, ThreadError>)
    ensures
        raw == 0 <==> r is Err,
        r matches Ok(t) ==> t.addr() == raw,
{
    if raw == 0 {
        return Err(ThreadError::ThreadAllocationError());
    }
    Ok(SpdkThread::from_raw(raw))
}

/// What an application does when a device I/O request completes.
pub trait SpdkBdevIoCompletionCb {
    /// Called with the completed request and whether it succeeded.
    fn callback(&mut self, bdev_io: SpdkBdevIO, success: bool);
}

} // verus!
