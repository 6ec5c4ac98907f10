use rustfs::constants::{BLOCK_SIZE, DIR_TYPE, FILE_TYPE};
use rustfs::directory::{decode_entries, encode_entries, trim_zero_bytes};
use rustfs::disk_inode::{inode_location, read_word, write_word, Inode};
use rustfs::file::{DirectoryContent, DirectoryHandle, File, FileHandle};
use rustfs::layout::{copy_pieces, Chunk};

fn record(dirtype: u64, size: u64, single: u64, double: u64) -> Vec<u8> {
    let mut r = Vec::new();
    for w in [dirtype, size, single, double] {
        r.extend_from_slice(&w.to_le_bytes());
    }
    r
}

#[test]
fn words_are_little_endian() {
    let mut b = vec![0u8; 12];
    write_word(&mut b, 2, 0x0102030405060708);
    assert_eq!(b, vec![0, 0, 8, 7, 6, 5, 4, 3, 2, 1, 0, 0]);
    assert_eq!(read_word(&b, 2), 0x0102030405060708);
}

#[test]
fn inode_location_in_table() {
    assert_eq!(inode_location(1536, 0, 512), (3, 0));
    assert_eq!(inode_location(1536, 17, 512), (4, 32));
    assert_eq!(inode_location(1536, 16, 512), (4, 0));
}

#[test]
fn disk_inode_new_is_empty() {
    let ino = Inode::new(FILE_TYPE as usize, 7);
    assert_eq!(ino.inum, 7);
    assert_eq!(ino.dirtype, FILE_TYPE as usize);
    assert_eq!(ino.size(), 0);
}

#[test]
fn disk_inode_read_record() {
    let mut block = vec![0xeeu8; BLOCK_SIZE];
    block[64..96].copy_from_slice(&record(DIR_TYPE, 300, 11, 12));
    let mut ino = Inode::new(0, 2);
    ino.read_inode(&block, 64);
    assert_eq!(ino.inum, 2);
    assert_eq!(ino.dirtype, DIR_TYPE as usize);
    assert_eq!(ino.size(), 300);
}

#[test]
fn disk_inode_record_round_trip() {
    let mut block = vec![0u8; BLOCK_SIZE];
    block[0..32].copy_from_slice(&record(FILE_TYPE, 1234, 40, 41));
    let mut ino = Inode::new(0, 5);
    ino.read_inode(&block, 0);
    let other = vec![0x55u8; BLOCK_SIZE];
    let written = ino.write_inode(&other, 96);
    assert_eq!(&written[96..128], &record(FILE_TYPE, 1234, 40, 41)[..]);
    assert!(written[..96].iter().all(|b| *b == 0x55));
    assert!(written[128..].iter().all(|b| *b == 0x55));
    let mut back = Inode::new(0, 5);
    back.read_inode(&written, 96);
    assert_eq!(back.dirtype, FILE_TYPE as usize);
    assert_eq!(back.size(), 1234);
    assert_eq!(back.write_inode(&other, 96), written);
}

#[test]
fn parse_entry_reads_words() {
    let mut raw = vec![0u8; 24];
    raw[8..16].copy_from_slice(&99u64.to_le_bytes());
    raw[16..24].copy_from_slice(&100u64.to_le_bytes());
    assert_eq!(Inode::parse_entry(&raw, 0), 0);
    assert_eq!(Inode::parse_entry(&raw, 1), 99);
    assert_eq!(Inode::parse_entry(&raw, 2), 100);
}

#[test]
fn disk_inode_write_plan_grows_size() {
    let mut ino = Inode::new(FILE_TYPE as usize, 1);
    let plan = ino.write(500, 30, 512);
    assert_eq!(ino.size(), 530);
    assert_eq!(plan.len(), 2);
    assert_eq!((plan[0].page, plan[0].page_offset, plan[0].len), (0, 500, 12));
    assert_eq!((plan[1].page, plan[1].page_offset, plan[1].len, plan[1].data_offset), (1, 0, 18, 12));
    let plan = ino.write(0, 10, 512);
    assert_eq!(plan.len(), 1);
    assert_eq!(ino.size(), 530);
    let plan = ino.read(100, 200, 512);
    assert_eq!(plan.len(), 1);
    assert_eq!((plan[0].page, plan[0].page_offset, plan[0].len), (0, 100, 200));
}

#[test]
fn trim_zero_bytes_both_ends() {
    assert_eq!(trim_zero_bytes(&[0, 0, b'a', 0, b'b', 0]), b"a\0b".to_vec());
    assert_eq!(trim_zero_bytes(&[0, 0, 0]), Vec::<u8>::new());
    assert_eq!(trim_zero_bytes(b"abc"), b"abc".to_vec());
}

#[test]
fn directory_write_keeps_last_entry() {
    let entries = vec![(b"hello".to_vec(), 3u64), (b".".to_vec(), 0u64), (vec![b'x'; 130], 9u64)];
    let data = encode_entries(&entries);
    assert_eq!(data.len(), 3 * 128);
    assert_eq!(&data[0..8], &9u64.to_le_bytes());
    assert_eq!(&data[8..128], &vec![b'x'; 120][..]);
    assert!(data[128..].iter().all(|b| *b == 0));
    assert_eq!(encode_entries(&Vec::new()), Vec::<u8>::new());
}

#[test]
fn directory_read_takes_first_name() {
    let mut data = encode_entries(&vec![(b"hello".to_vec(), 3u64)]);
    data.extend_from_slice(&7u64.to_le_bytes());
    assert_eq!(data.len(), 136);
    let back = decode_entries(&data, data.len());
    assert_eq!(back, vec![(b"hello".to_vec(), 7), (b"hello".to_vec(), 7)]);
    let mut longer = vec![0u8; 264];
    longer[0..8].copy_from_slice(&1u64.to_le_bytes());
    longer[8..10].copy_from_slice(b"ab");
    longer[128..136].copy_from_slice(&2u64.to_le_bytes());
    longer[256..264].copy_from_slice(&5u64.to_le_bytes());
    assert_eq!(decode_entries(&longer, 264), vec![(b"ab".to_vec(), 5); 3]);
    assert_eq!(decode_entries(&longer, 136), vec![(b"ab".to_vec(), 2); 2]);
}

#[test]
fn read_file_from_inum_types() {
    let mut block = vec![0u8; 64];
    block[0..32].copy_from_slice(&record(DIR_TYPE, 256, 1, 2));
    block[32..64].copy_from_slice(&record(FILE_TYPE, 10, 3, 4));
    match Inode::read_file_from_inum(0, &block, 0) {
        File::Directory(dc) => {
            assert!(dc.entries.is_none());
            assert_eq!(dc.inode.size(), 256);
            assert_eq!(dc.inode.inum, 0);
        }
        _ => panic!("expected a directory"),
    }
    match Inode::read_file_from_inum(1, &block, 32) {
        File::Directory(dc) => {
            assert!(dc.entries.is_none());
            assert_eq!(dc.inode.size(), 10);
            assert_eq!(dc.inode.dirtype, FILE_TYPE as usize);
            assert_eq!(dc.inode.inum, 1);
        }
        _ => panic!("expected a directory"),
    }
}

fn empty_dir(inum: usize) -> File {
    File::Directory(DirectoryContent { entries: Some(Vec::new()), inode: Inode::new(DIR_TYPE as usize, inum) })
}

fn data_file(inum: usize) -> File {
    File::DataFile(Inode::new(FILE_TYPE as usize, inum))
}

#[test]
fn directory_insert_get_remove() {
    let mut dir = empty_dir(0);
    assert!(dir.is_dir());
    assert!(!data_file(1).is_dir());
    let none: Vec<(Vec<u8>, File)> = Vec::new();
    dir.insert(b"a".to_vec(), data_file(4), Vec::new());
    dir.insert(b"b".to_vec(), empty_dir(5), Vec::new());
    let data = dir.insert(b"a".to_vec(), data_file(6), Vec::new());
    assert_eq!(data.len(), 256);
    assert_eq!(&data[0..8], &5u64.to_le_bytes());
    assert_eq!(&data[8..9], b"b");
    assert!(data[9..].iter().all(|b| *b == 0));
    match dir.get(b"a", &none) {
        Some(File::DataFile(inode)) => assert_eq!(inode.inum, 6),
        _ => panic!("expected a regular file"),
    }
    assert!(dir.get(b"b", &none).unwrap().is_dir());
    assert_eq!(dir.write_dir(), data);
    dir.remove(b"b", Vec::new());
    let data = dir.remove(b"zzz", Vec::new());
    assert_eq!(data.len(), 128);
    assert_eq!(&data[0..8], &6u64.to_le_bytes());
    assert_eq!(&data[8..9], b"a");
}

#[test]
fn directory_loads_entries_before_a_change() {
    let unread = || File::Directory(DirectoryContent { entries: None, inode: Inode::new(DIR_TYPE as usize, 0) });
    let on_disk = vec![(b"x".to_vec(), data_file(8)), (b"y".to_vec(), data_file(9)), (b"x".to_vec(), data_file(10))];
    let dir = unread();
    match dir.get(b"x", &on_disk) {
        Some(File::DataFile(inode)) => assert_eq!(inode.inum, 10),
        _ => panic!("expected a regular file"),
    }
    match dir.get(b"y", &on_disk) {
        Some(File::DataFile(inode)) => assert_eq!(inode.inum, 9),
        _ => panic!("expected a regular file"),
    }
    let mut dir = unread();
    let data = dir.insert(b"z".to_vec(), data_file(11), vec![(b"x".to_vec(), data_file(8)), (b"y".to_vec(), data_file(9)), (b"x".to_vec(), data_file(10))]);
    assert_eq!(data.len(), 3 * 128);
    assert_eq!(&data[0..8], &11u64.to_le_bytes());
    let none: Vec<(Vec<u8>, File)> = Vec::new();
    assert!(dir.get(b"y", &none).is_some());
    let mut dir = unread();
    let data = dir.remove(b"y", vec![(b"x".to_vec(), data_file(8)), (b"y".to_vec(), data_file(9))]);
    assert_eq!(data.len(), 128);
    assert_eq!(&data[0..8], &8u64.to_le_bytes());
}

#[test]
fn directory_read_dir_merges() {
    let mut dir = File::Directory(DirectoryContent { entries: None, inode: Inode::new(DIR_TYPE as usize, 0) });
    assert_eq!(dir.write_dir(), Vec::<u8>::new());
    let read = vec![(b"x".to_vec(), data_file(8)), (b"y".to_vec(), data_file(9)), (b"x".to_vec(), data_file(10))];
    dir.read_dir(read);
    let none: Vec<(Vec<u8>, File)> = Vec::new();
    match dir.get(b"x", &none) {
        Some(File::DataFile(inode)) => assert_eq!(inode.inum, 10),
        _ => panic!("expected a regular file"),
    }
    let data = dir.write_dir();
    assert_eq!(data.len(), 256);
    assert_eq!(&data[0..8], &9u64.to_le_bytes());
}

#[test]
fn file_inodes() {
    let f = data_file(3);
    assert_eq!(f.get_inode().inum, 3);
    let d = empty_dir(4);
    assert_eq!(d.get_dir_inode().inum, 4);
}

#[test]
fn file_handle_positions() {
    let mut h = FileHandle::new(data_file(3));
    let plan = h.write(100, 512);
    assert_eq!(plan.len(), 1);
    assert_eq!((plan[0].page, plan[0].page_offset, plan[0].len), (0, 0, 100));
    let plan = h.write(600, 512);
    assert_eq!(plan.len(), 2);
    assert_eq!((plan[0].page, plan[0].page_offset, plan[0].len), (0, 100, 412));
    assert_eq!((plan[1].page, plan[1].page_offset, plan[1].len), (1, 0, 188));
}

#[test]
fn disk_inode_page_lookup() {
    let mut record_block = vec![0u8; 64];
    record_block[32..64].copy_from_slice(&record(FILE_TYPE, 2000, 70, 71));
    let mut indirect = vec![0u8; 32];
    indirect[0..8].copy_from_slice(&80u64.to_le_bytes());
    indirect[8..16].copy_from_slice(&81u64.to_le_bytes());
    let mut ino = Inode::new(0, 1);
    assert_eq!(ino.get_or_alloc_page(0, &record_block, 32, &[]), 70);
    assert_eq!(ino.size(), 2000);
    assert_eq!(ino.get_or_alloc_page(1, &record_block, 32, &indirect), 80);
    assert_eq!(ino.get_or_alloc_page(2, &record_block, 32, &indirect), 81);
    assert_eq!(ino.get_page(0, 512, &record_block, 32, &[]), 0);
    assert_eq!(ino.get_page(2, 512, &record_block, 32, &indirect), 81);
}

#[test]
fn disk_inode_read_blocks_copies_pieces() {
    let mut inode = Inode::new(FILE_TYPE as usize, 2);
    inode.write(0, 20, 8);
    let blocks: Vec<Vec<u8>> = vec![(0u8..8).collect(), (8u8..16).collect()];
    let mut data = vec![0xffu8; 10];
    inode.read_blocks(5, &mut data, 8, &blocks);
    assert_eq!(data, (5u8..15).collect::<Vec<u8>>());
    let mut one = vec![0u8; 3];
    inode.read_blocks(17, &mut one, 8, &vec![(16u8..24).collect()]);
    assert_eq!(one, vec![17, 18, 19]);
}

#[test]
fn copy_pieces_leaves_gaps() {
    let plan = vec![
        Chunk { page: 0, page_offset: 1, len: 2, data_offset: 0 },
        Chunk { page: 1, page_offset: 0, len: 1, data_offset: 4 },
    ];
    let blocks = vec![vec![10u8, 11, 12], vec![20u8]];
    let mut data = vec![0u8; 6];
    copy_pieces(&mut data, &plan, &blocks);
    assert_eq!(data, vec![11, 12, 0, 0, 20, 0]);
}

#[test]
fn disk_inode_empty_write_past_the_last_page() {
    let mut inode = Inode::new(FILE_TYPE as usize, 3);
    let plan = inode.write(100 * 512, 0, 512);
    assert!(plan.is_empty());
    assert_eq!(inode.size(), 100 * 512);
}
