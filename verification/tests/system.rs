use rustfs::bitmap::Bitmap;
use rustfs::context::AppContext;
use rustfs::device::Device;
use rustfs::env::Buf;
use rustfs::fs::{FsInternal, FS};
use rustfs::ops::{handle_client, handle_server1, parse_device_op, parse_op, DeviceOp, FsOps};
use rustfs::spdk::{
    allocate_thread, first, get_by_name, get_io_channel, next, open, read, write_zeroes,
    write_zeroes_blocks, BdevError, SpdkBdev, SpdkBdevDesc, SpdkBdevIO, SpdkIoChannel, SpdkThread,
    ThreadError,
};
use rustfs::utils::{convert_exponent, strip, time_scale, ConvertError};

fn device(blk: u32) -> Device {
    Device::new(SpdkBdevDesc::from_raw(0x10), SpdkIoChannel::from_raw(0x20), blk, 4096)
}

#[test]
fn test_strip() {
    assert_eq!(strip(r#""bob""#.to_string()), "bob");
}

#[test]
fn strip_keeps_inner_text() {
    assert_eq!(strip("[é]".to_string()), "é");
    assert_eq!(strip("ab".to_string()), "");
}

#[test]
fn convert_exponent_pairs() {
    assert_eq!(convert_exponent("G", "KB"), Ok(2));
    assert_eq!(convert_exponent("G", "MB"), Ok(1));
    assert_eq!(convert_exponent("G", "B"), Ok(3));
    assert_eq!(convert_exponent("MB", "KB"), Ok(1));
    assert_eq!(convert_exponent("MB", "G"), Ok(-1));
    assert_eq!(convert_exponent("MB", "B"), Ok(2));
    assert_eq!(convert_exponent("KB", "G"), Ok(-2));
    assert_eq!(convert_exponent("KB", "MB"), Ok(-1));
    assert_eq!(convert_exponent("KB", "B"), Ok(1));
    assert_eq!(convert_exponent("B", "KB"), Ok(-1));
    assert_eq!(convert_exponent("B", "MB"), Ok(-2));
    assert_eq!(convert_exponent("B", "G"), Ok(-3));
}

#[test]
fn convert_exponent_errors() {
    assert_eq!(convert_exponent("PB", "G"), Err(ConvertError::Unsupported));
    assert_eq!(convert_exponent("KB", ""), Err(ConvertError::EmptyUnit));
    assert_eq!(convert_exponent("", "KB"), Err(ConvertError::EmptyUnit));
    assert_eq!(convert_exponent("G", "XB"), Err(ConvertError::Unsupported));
    assert_eq!(convert_exponent("MB", "MB"), Err(ConvertError::Unsupported));
}

#[test]
fn time_scale_units() {
    assert_eq!(time_scale("s"), Some(1));
    assert_eq!(time_scale("ms"), Some(1_000));
    assert_eq!(time_scale("us"), Some(1_000_000));
    assert_eq!(time_scale("ns"), Some(1_000_000_000));
    assert_eq!(time_scale("min"), None);
}

#[test]
fn ops_lines() {
    assert_eq!(parse_op("shutdown"), FsOps::SHUTDOWN);
    assert_eq!(parse_op("open"), FsOps::OPEN);
    assert_eq!(parse_op("mkfs"), FsOps::UNSUPPORTED);
    assert_eq!(parse_op("shutdown "), FsOps::UNSUPPORTED);
    let lines = vec!["open".to_string(), "shutdown".to_string(), "open".to_string()];
    assert_eq!(handle_client(&lines), FsOps::SHUTDOWN);
    let lines = vec!["open".to_string(), "other".to_string()];
    assert_eq!(handle_client(&lines), FsOps::NOOP);
    assert_eq!(handle_server1(&Vec::new()), FsOps::NOOP);
}

#[test]
fn handles_keep_addresses() {
    assert_eq!(SpdkBdev::from_raw(42).to_raw(), 42);
    assert_eq!(SpdkBdevDesc::new().to_raw(), 0);
    let mut d = SpdkBdevDesc::new();
    *d.mut_to_raw() = 77;
    assert_eq!(d.to_raw(), 77);
    assert_eq!(SpdkBdevIO::new().to_raw(), 0);
    assert_eq!(SpdkBdevIO::from_raw(5).to_raw(), 5);
    assert_eq!(SpdkIoChannel::from_raw(6).to_raw(), 6);
    let _t = SpdkThread::from_raw(8);
}

#[test]
fn device_call_outcomes() {
    assert!(matches!(get_by_name("Malloc0".to_string(), 0), Err(BdevError::NotFound(n)) if n == "Malloc0"));
    assert_eq!(get_by_name("Malloc0".to_string(), 9).unwrap().to_raw(), 9);
    assert!(matches!(open(SpdkBdev::from_raw(9), "Nvme0n1".to_string(), -2), Err(BdevError::OpenError(n)) if n == "Nvme0n1"));
    assert!(open(SpdkBdev::from_raw(9), "Nvme0n1".to_string(), 0).is_ok());
    assert!(first(0).is_none());
    assert_eq!(first(3).unwrap().to_raw(), 3);
    assert!(next(&SpdkBdev::from_raw(3), 0).is_none());
    assert_eq!(next(&SpdkBdev::from_raw(3), 4).unwrap().to_raw(), 4);
    assert!(matches!(get_io_channel(SpdkBdevDesc::new(), 0), Err(BdevError::IOChannelError())));
    assert_eq!(get_io_channel(SpdkBdevDesc::new(), 12).unwrap().to_raw(), 12);
    assert!(matches!(rustfs::spdk::write("d".to_string(), false, 512, 4096), Err(BdevError::WriteError(n, -1, 512, 4096)) if n == "d"));
    assert!(rustfs::spdk::write("d".to_string(), true, 512, 4096).is_ok());
    assert!(matches!(read("d".to_string(), false, 0, 8), Err(BdevError::ReadError(n, -1, 0, 8)) if n == "d"));
    assert!(read("d".to_string(), true, 0, 8).is_ok());
    assert!(matches!(write_zeroes("d".to_string(), false, 3), Err(BdevError::WriteZeroesError(n, 3)) if n == "d"));
    assert!(matches!(write_zeroes_blocks("d".to_string(), false, 4), Err(BdevError::WriteZeroesBlocksError(n, 4)) if n == "d"));
    assert!(write_zeroes_blocks("d".to_string(), true, 0).is_ok());
    assert!(matches!(allocate_thread(0), Err(ThreadError::ThreadAllocationError())));
    assert!(allocate_thread(1).is_ok());
}

#[test]
fn device_geometry_and_read_length() {
    let d = device(512);
    assert_eq!(d.blk_size(), 512);
    assert_eq!(d.buf_align(), 4096);
    assert_eq!(d.desc().to_raw(), 0x10);
    assert_eq!(d.io_channel().to_raw(), 0x20);
    let buf = Buf::from_raw(b"Hello World!\n\0\0garbage".to_vec());
    assert_eq!(d.read(&buf), 13);
    assert_eq!(buf.read(), b"Hello World!\n".to_vec());
}

#[test]
fn test_fill_fixed() {
    let buffer_size = 5;
    let mut buf = Buf::from_raw(vec![0u8; buffer_size]);
    let write_size = buf.fill_fixed(buffer_size, b"A");
    assert!(write_size == buffer_size);
    for i in 0..buffer_size {
        assert!(buf.to_raw()[i] as char == 'A');
    }
}

#[test]
fn buf_fill_fixed() {
    let mut buf = Buf::from_raw(vec![0xffu8; 6]);
    assert_eq!(buf.fill_fixed(5, b"A"), 5);
    assert_eq!(buf.to_raw(), b"AAAAA\0");
    let mut buf = Buf::from_raw(vec![0xffu8; 10]);
    assert_eq!(buf.fill_fixed(7, b"abc"), 9);
    assert_eq!(buf.to_raw(), b"abcabca\0\xff\xff");
    let mut buf = Buf::from_raw(vec![1u8; 3]);
    assert_eq!(buf.fill_fixed(0, b""), 0);
    assert_eq!(buf.to_raw(), &[1u8, 1, 1]);
}

#[test]
fn fs_layout_and_allocation() {
    let mut fs = FS::new(device(512));
    fs.mkfs();
    fs.mount();
    assert_eq!(fs.alloc_block(), (8 * 512 + 259 * 512) / 512);
    assert_eq!(fs.alloc_block(), (25 * 512 + 259 * 512) / 512);
}

#[test]
fn fs_internal_mkfs_mount_alloc() {
    let mut fs = FsInternal::mkfs(device(512));
    assert_eq!(fs.inode_base, 3 * 512);
    assert_eq!(fs.data_base, 3 * 512 + 32 * 512 * 8);
    assert_eq!(fs.inode_bitmap.offset(), 512);
    assert_eq!(fs.data_bitmap.offset(), 1024);
    let mut inode_block = vec![0u8; 512];
    inode_block[0] = 1;
    let mut data_block = vec![0u8; 512];
    data_block[0] = 0xff;
    fs.mount(&inode_block, &data_block);
    assert_eq!(fs.inode_bitmap.bitmap, inode_block);
    // first clear bit: bit 0 of byte 1, which becomes 1: index 0 + 8 * 1
    assert_eq!(fs.alloc_block(), (8 * 512 + fs.data_base) / 512);
    assert_eq!(fs.data_bitmap.bitmap[1], 1);
    let b = Bitmap::new(0, 1);
    assert_eq!(b.bitmap, vec![0]);
}

#[test]
fn app_context_flow() {
    let mut ctx = AppContext::new();
    assert_eq!(ctx.bdev().unwrap().to_raw(), 0);
    ctx.set_bdev_name("Malloc0");
    assert_eq!(ctx.bdev_name(), "Malloc0");
    assert!(matches!(ctx.set_bdev(0), Err(BdevError::NotFound(n)) if n == "Malloc0"));
    assert!(ctx.set_bdev(0x100).is_ok());
    assert_eq!(ctx.bdev().unwrap().to_raw(), 0x100);
    assert_eq!(ctx.bdev_desc().unwrap().to_raw(), 0);
    assert_eq!(ctx.spdk_bdev_get_io_channel(0), Err("Could not create bdev I/O channel!!".to_string()));
    assert_eq!(ctx.spdk_bdev_get_io_channel(0x200), Ok(0));
    assert_eq!(ctx.bdev_io_channel().to_raw(), 0x200);
    assert_eq!(ctx.allocate_buff(0), Err("Failed to allocate buffer".to_string()));
    assert_eq!(ctx.allocate_buff(0x300), Ok(0));
    assert_eq!(ctx.spdk_bdev_write(0), Ok(0));
    assert_eq!(ctx.spdk_bdev_write(-5), Err("Could not write to the device".to_string()));
}

#[test]
fn dd_report_throughput() {
    let report = "1024+0 records in\n1024+0 records out\n1073741824 bytes (1.1 GB, 1.0 GiB) copied, 1.48467 s, 723 MB/s\n";
    let chars: Vec<char> = report.chars().collect();
    let figure: String = rustfs::bench::dd_throughput(&chars).unwrap().into_iter().collect();
    assert_eq!(figure, "723");
    let short: Vec<char> = "only\none line\n".chars().collect();
    assert!(rustfs::bench::dd_throughput(&short).is_none());
    let one_word: Vec<char> = "a\nb\nc".chars().collect();
    assert!(rustfs::bench::dd_throughput(&one_word).is_none());
}

#[test]
fn split_chars_keeps_empty_pieces() {
    let s: Vec<char> = ",a,,b".chars().collect();
    let pieces = rustfs::bench::split_chars(&s, ',');
    let strs: Vec<String> = pieces.into_iter().map(|p| p.into_iter().collect()).collect();
    assert_eq!(strs, vec!["", "a", "", "b"]);
}

#[test]
fn app_context_open() {
    let mut ctx = AppContext::new();
    ctx.set_bdev_name("Nvme0n1");
    assert_eq!(ctx.spdk_bdev_open(true, -1, 0x40), Err("Could not open bdev: Nvme0n1".to_string()));
    assert_eq!(ctx.bdev_desc().unwrap().to_raw(), 0);
    assert_eq!(ctx.spdk_bdev_open(true, 0, 0x40), Ok(0));
    assert_eq!(ctx.bdev_desc().unwrap().to_raw(), 0x40);
}

#[test]
fn device_op_lines() {
    assert_eq!(parse_device_op("open"), DeviceOp::Open);
    assert_eq!(parse_device_op("shutdown"), DeviceOp::Shutdown);
    assert_eq!(parse_device_op("mkfs"), DeviceOp::Mkfs);
    assert_eq!(parse_device_op("mkfs "), DeviceOp::Ignored);
    assert_eq!(parse_device_op(""), DeviceOp::Ignored);
}

#[test]
fn device_write_outcome() {
    let d = device(512);
    assert!(d.write("Malloc0".to_string(), true, 1024, 512).is_ok());
    assert!(matches!(d.write("Malloc0".to_string(), false, 1024, 512),
        Err(BdevError::WriteError(n, -1, 1024, 512)) if n == "Malloc0"));
}

#[test]
fn buf_fill_prints_c_string() {
    let mut buf = Buf::from_raw(vec![0xffu8; 12]);
    buf.fill(12, b"RustFS--");
    assert_eq!(buf.to_raw(), b"RustFS--\0\xff\xff\xff");
    let mut buf = Buf::from_raw(vec![0xffu8; 6]);
    buf.fill(5, b"RustFS--");
    assert_eq!(buf.to_raw(), b"Rust\0\xff");
    let mut buf = Buf::from_raw(vec![7u8; 3]);
    buf.fill(0, b"abc");
    assert_eq!(buf.to_raw(), &[7u8, 7, 7]);
}

#[test]
fn app_context_write_buff() {
    let ctx = AppContext::new();
    let mut buf = Buf::from_raw(vec![0u8; 16]);
    ctx.write_buff(&mut buf, 16, b"Hello World!");
    assert_eq!(buf.to_raw(), b"Hello World!\n\0\0\0");
    let mut small = Buf::from_raw(vec![9u8; 8]);
    ctx.write_buff(&mut small, 4, b"Hello");
    assert_eq!(small.to_raw(), &[b'H', b'e', b'l', 0, 9, 9, 9, 9]);
}

#[test]
fn format_blocks_layout() {
    let blocks = FsInternal::format_blocks(512);
    assert_eq!(blocks.len(), 3);
    assert_eq!(&blocks[0][0..9], b"RustFS--\0");
    assert!(blocks[0][9..].iter().all(|b| *b == 0));
    assert_eq!(blocks[0].len(), 512);
    assert_eq!(blocks[1][0], 1);
    assert_eq!(&blocks[1][1..9], b"ustFS--\0");
    assert_eq!(blocks[2], vec![0u8; 512]);
    let tiny = FsInternal::format_blocks(4);
    assert_eq!(tiny[0], b"Rus\0".to_vec());
    assert_eq!(tiny[1], b"\x01us\0".to_vec());
}

#[test]
fn mount_after_format() {
    let blocks = FsInternal::format_blocks(512);
    let mut fs = FsInternal::mkfs(device(512));
    fs.mount(&blocks[1], &blocks[2]);
    assert_eq!(fs.inode_bitmap.bitmap[0], 1);
    assert!(fs.data_bitmap.bitmap.iter().all(|b| *b == 0));
    assert_eq!(fs.inode_bitmap.offset, 512);
    assert_eq!(fs.data_bitmap.offset, 1024);
    assert_eq!(fs.alloc_block(), (8 * 512 + fs.data_base) / 512);
}
