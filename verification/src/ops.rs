//! The requests that the file-system servers accept, one per line of text.
use vstd::prelude::*;
use crate::file::name_eq;

verus! {

/// A request to the file-system servers.
#[derive(PartialEq, Eq, Structural, Debug, Clone, Copy)]
pub enum FsOps {
    NOOP,
    SHUTDOWN,
    OPEN,
    UNSUPPORTED,
}

/// Whether `a` and `b` are the same text.
pub fn str_eq(a: &str, b: &str) -> (r: bool)
    ensures
        r == (a@ == b@),
{
    let r = name_eq(a.as_bytes(), b.as_bytes());
    proof {
        vstd::utf8::encode_utf8_decode_utf8(a@);
        vstd::utf8::encode_utf8_decode_utf8(b@);
    }
    r
}

/// The request that the line `line` asks for: `shutdown`, `open`, or
/// anything else, which is not supported.
pub fn parse_op(line: &str) -> (op: FsOps)
    ensures
        op == if line@ == "shutdown"@ {
            FsOps::SHUTDOWN
        } else if line@ == "open"@ {
            FsOps::OPEN
        } else {
            FsOps::UNSUPPORTED
        },
{
    if str_eq(line, "shutdown") {
        FsOps::SHUTDOWN
    } else if str_eq(line, "open") {
        FsOps::OPEN
    } else {
        FsOps::UNSUPPORTED
    }
}

/// A request that the device-side server acts on.
#[derive(PartialEq, Eq, Structural, Debug, Clone, Copy)]
pub enum DeviceOp {
    Open,
    Shutdown,
    Mkfs,
    Ignored,
}

/// The request that a line sent to the device-side server asks for:
/// `open`, `shutdown` or `mkfs`; any other line is ignored.
pub fn parse_device_op(line: &str) -> (op: DeviceOp)
    ensures
        op == if line@ == "open"@ {
            DeviceOp::Open
        } else if line@ == "shutdown"@ {
            DeviceOp::Shutdown
        } else if line@ == "mkfs"@ {
            DeviceOp::Mkfs
        } else {
            DeviceOp::Ignored
        },
{
    if str_eq(line, "open") {
        DeviceOp::Open
    } else if str_eq(line, "shutdown") {
        DeviceOp::Shutdown
    } else if str_eq(line, "mkfs") {
        DeviceOp::Mkfs
    } else {
        DeviceOp::Ignored
    }
}

/// Some line of `lines` is `shutdown`.
pub open spec fn asks_shutdown(lines: Seq<String>) -> bool {
    exists|i: int| 0 <= i < lines.len() && (#[trigger] lines[i])@ == "shutdown"@
}

/// What one connection of an application asks, given the lines it sent:
/// shutdown as soon as a line asks for it; otherwise nothing to do.
pub fn handle_client(lines: &Vec<String>) -> (op: FsOps)
    ensures
        op == if asks_shutdown(lines@) {
            FsOps::SHUTDOWN
        } else {
            FsOps::NOOP
        },
{
    let mut i: usize = 0;
    while i < lines.len()
        invariant
            i <= lines@.len(),
            forall|j: int| 0 <= j < i ==> (#[trigger] lines@[j])@ != "shutdown"@,
        decreases lines@.len() - i,
    {
        match parse_op(lines[i].as_str()) {
            FsOps::SHUTDOWN => return FsOps::SHUTDOWN,
            _ => {},
        }
        i = i + 1;
    }
    FsOps::NOOP
}

/// What one connection from the application-facing server asks, given the
/// lines it sent: shutdown as soon as a line asks for it; otherwise nothing
/// to do.
pub fn handle_server1(lines: &Vec<String>) -> (op: FsOps)
    ensures
        op == if asks_shutdown(lines@) {
            FsOps::SHUTDOWN
        } else {
            FsOps::NOOP
        },
{
    handle_client(lines)
}

} // verus!
