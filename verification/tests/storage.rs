use rustfs::bitmap::{Bitmap, BitmapErr};
use rustfs::inode::{create_tlist, Inode, LIST_SIZE, PAGE_SIZE};
use rustfs::layout::{ceil_div, plan_chunks};

#[test]
fn ceil_div_rounds_up() {
    assert_eq!(ceil_div(0, 4096), 0);
    assert_eq!(ceil_div(1, 4096), 1);
    assert_eq!(ceil_div(4096, 4096), 1);
    assert_eq!(ceil_div(4097, 4096), 2);
    assert_eq!(ceil_div(10, 3), 4);
}

#[test]
fn plan_chunks_splits_at_block_boundaries() {
    let plan = plan_chunks(5000, 10000, 4096);
    assert_eq!(plan.len(), 3);
    assert_eq!((plan[0].page, plan[0].page_offset, plan[0].len, plan[0].data_offset), (1, 904, 3192, 0));
    assert_eq!((plan[1].page, plan[1].page_offset, plan[1].len, plan[1].data_offset), (2, 0, 4096, 3192));
    assert_eq!((plan[2].page, plan[2].page_offset, plan[2].len, plan[2].data_offset), (3, 0, 2712, 7288));
    let total: usize = plan.iter().map(|c| c.len).sum();
    assert_eq!(total, 10000);
}

#[test]
fn plan_chunks_empty_transfers() {
    assert_eq!(plan_chunks(0, 0, 512).len(), 0);
    let plan = plan_chunks(100, 0, 512);
    assert_eq!(plan.len(), 1);
    assert_eq!((plan[0].page, plan[0].page_offset, plan[0].len), (0, 100, 0));
}

#[test]
fn bitmap_new_is_clear() {
    let b = Bitmap::new(512, 4);
    assert_eq!(b.bitmap, vec![0u8; 4]);
    assert_eq!(b.offset(), 512);
}

#[test]
fn bitmap_set_and_clear() {
    let mut b = Bitmap::new(0, 2);
    b.set(0);
    b.set(9);
    assert_eq!(b.bitmap, vec![0b0000_0001, 0b0000_0010]);
    b.set(9);
    assert_eq!(b.bitmap, vec![0b0000_0001, 0b0000_0010]);
    b.clear(0);
    assert_eq!(b.bitmap, vec![0, 0b0000_0010]);
    b.clear(3);
    assert_eq!(b.bitmap, vec![0, 0b0000_0010]);
}

#[test]
fn bitmap_find_takes_lowest_clear_bit() {
    let mut b = Bitmap::new(0, 2);
    // bit 0 of byte 0: the byte becomes 1, the result is 0 + 8 * 1
    assert_eq!(b.find().unwrap(), 8);
    assert_eq!(b.bitmap, vec![1, 0]);
    // bit 1: byte becomes 3, result 1 + 8 * 3
    assert_eq!(b.find().unwrap(), 25);
    assert_eq!(b.bitmap, vec![3, 0]);
}

#[test]
fn bitmap_find_skips_full_bytes() {
    let mut b = Bitmap::new(0, 2);
    b.read_bitmap(&[0xff, 0b0000_0101]);
    // first clear bit is bit 1 of byte 1; byte becomes 7
    assert_eq!(b.find().unwrap(), 1 + 8 * 7);
    assert_eq!(b.bitmap, vec![0xff, 0b0000_0111]);
}

#[test]
fn bitmap_find_full() {
    let mut b = Bitmap::new(0, 2);
    b.read_bitmap(&[0xff, 0xff]);
    assert!(matches!(b.find(), Err(BitmapErr::Full())));
    assert_eq!(b.bitmap, vec![0xff, 0xff]);
    let mut empty = Bitmap::new(0, 0);
    assert!(matches!(empty.find(), Err(BitmapErr::Full())));
}

#[test]
fn bitmap_block_round_trip() {
    let mut b = Bitmap::new(1024, 4);
    b.set(3);
    b.set(17);
    let block = b.write_bitmap(4);
    assert_eq!(block, vec![8, 0, 2, 0]);
    assert_eq!(b.write_bitmap(2), vec![8, 0]);
    let mut c = Bitmap::new(1024, 4);
    c.read_bitmap(&block);
    assert_eq!(c.bitmap, b.bitmap);
}

#[test]
fn tlist_is_empty() {
    let l: Vec<Option<u8>> = create_tlist();
    assert_eq!(l.len(), LIST_SIZE);
    assert!(l.iter().all(|e| e.is_none()));
}

#[test]
fn inode_read_after_write() {
    let mut ino = Inode::new();
    assert_eq!(ino.size(), 0);
    let data: Vec<u8> = (0..10000u32).map(|i| (i % 251) as u8).collect();
    assert_eq!(ino.write(5000, &data), 10000);
    assert_eq!(ino.size(), 15000);
    let mut buf = vec![0u8; 10000];
    assert_eq!(ino.read(5000, &mut buf), 10000);
    assert_eq!(buf, data);
}

#[test]
fn inode_write_keeps_other_bytes() {
    let mut ino = Inode::new();
    ino.write(0, &[1u8; 100]);
    ino.write(10, &[9u8; 5]);
    assert_eq!(ino.size(), 100);
    let mut buf = vec![0u8; 20];
    ino.read(0, &mut buf);
    let mut expected = vec![1u8; 20];
    for b in &mut expected[10..15] {
        *b = 9;
    }
    assert_eq!(buf, expected);
}

#[test]
fn inode_fresh_page_reads_zero() {
    let mut ino = Inode::new();
    ino.write(PAGE_SIZE + 10, &[7u8; 3]);
    let mut buf = vec![0xaau8; 16];
    ino.read(PAGE_SIZE, &mut buf);
    let mut expected = vec![0u8; 16];
    expected[10] = 7;
    expected[11] = 7;
    expected[12] = 7;
    assert_eq!(buf, expected);
}

#[test]
fn inode_doubly_indirect_pages() {
    let mut ino = Inode::new();
    let at = (LIST_SIZE + 3 * LIST_SIZE + 5) * PAGE_SIZE - 2;
    let data = [1u8, 2, 3, 4];
    ino.write(at, &data);
    let mut buf = [0u8; 4];
    ino.read(at, &mut buf);
    assert_eq!(buf, data);
    assert_eq!(ino.size(), at + 4);
}

#[test]
fn inode_empty_write_does_not_grow() {
    let mut ino = Inode::new();
    ino.write(0, &[5u8; 8]);
    assert_eq!(ino.write(3, &[]), 0);
    assert_eq!(ino.size(), 8);
}

#[test]
fn inode_stat_times() {
    let mut ino = Inode::new();
    let (c, a, m) = ino.stat();
    assert_eq!(c, a);
    assert_eq!(a, m);
    ino.write(0, &[1]);
    let (c2, a2, m2) = ino.stat();
    assert_eq!(c2, c);
    assert_eq!(a2, m2);
    assert!(m2 >= m);
}

#[test]
fn bitmap_clear_undoes_set() {
    let mut b = Bitmap::new(0, 3);
    b.read_bitmap(&[0b1010_0101, 0x0f, 0xf0]);
    let before = b.bitmap.clone();
    b.set(9 + 8);
    b.clear(9 + 8);
    b.set(4);
    b.clear(4);
    assert_eq!(b.bitmap, before);
}

#[test]
fn bitmap_clear_undoes_find() {
    let mut b = Bitmap::new(0, 2);
    b.read_bitmap(&[0xff, 0b0001_0111]);
    let before = b.bitmap.clone();
    b.find().unwrap();
    assert_eq!(b.bitmap, vec![0xff, 0b0001_1111]);
    b.clear(8 + 3);
    assert_eq!(b.bitmap, before);
}

#[test]
fn inode_read_after_sequence_of_writes() {
    let mut ino = Inode::new();
    ino.write(100, &[1u8; 50]);
    ino.write(4090, &[2u8; 20]);
    ino.write(120, &[3u8; 10]);
    ino.write(4100, &[4u8; 2]);
    let mut buf = vec![0xffu8; 60];
    assert_eq!(ino.read(90, &mut buf), 60);
    let mut expected = vec![0u8; 10];
    expected.extend_from_slice(&[1u8; 20]);
    expected.extend_from_slice(&[3u8; 10]);
    expected.extend_from_slice(&[1u8; 20]);
    assert_eq!(buf, expected);
    let mut tail = vec![0xffu8; 20];
    ino.read(4090, &mut tail);
    let mut expected = vec![2u8; 10];
    expected.extend_from_slice(&[4u8; 2]);
    expected.extend_from_slice(&[2u8; 8]);
    assert_eq!(tail, expected);
}

#[test]
fn inode_empty_write_past_the_last_page() {
    let mut ino = Inode::new();
    let far = 65793 * 4096;
    assert_eq!(ino.write(far, &[]), 0);
    assert_eq!(ino.size(), far);
}
