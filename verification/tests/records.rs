//! Unit tests for the record codec and the block-store operations.

use fsformat::codec::{decode_inode, encode_inode, get_u32, put_u32};
use fsformat::disk::{create_file, init_disk, next_block, resolve, save_block_link, store_file, FsError};
use fsformat::fs::{Block, BlockType, File, FileType, SuperBlock, BLOCK_SIZE, FS_MAGIC};

const BS: usize = BLOCK_SIZE as usize;

fn fresh_root() -> File {
    let mut root = File::new();
    root.set_name("/");
    root.set_type(FileType::Directory);
    root
}

#[test]
fn u32_le_roundtrip() {
    let mut buf = vec![0u8; 8];
    put_u32(&mut buf, 2, 0x11223344);
    assert_eq!(buf, vec![0, 0, 0x44, 0x33, 0x22, 0x11, 0, 0]);
    assert_eq!(get_u32(&buf, 2), 0x11223344);
}

#[test]
fn inode_record_layout() {
    let mut f = File::new();
    f.set_name("kernel.elf");
    f.set_size(0x01020304);
    f.set_type(FileType::Directory);
    f.set_direct(0, 7);
    f.set_direct(9, 0xaabbccdd);
    f.set_indirect(42);
    let bytes = encode_inode(&f);
    assert_eq!(bytes.len(), 256);
    assert_eq!(&bytes[0..10], b"kernel.elf");
    for j in 10..128 {
        assert_eq!(bytes[j], 0);
    }
    assert_eq!(&bytes[128..132], &[0x04, 0x03, 0x02, 0x01]);
    assert_eq!(&bytes[132..136], &[1, 0, 0, 0]);
    assert_eq!(&bytes[136..140], &[7, 0, 0, 0]);
    assert_eq!(&bytes[172..176], &[0xdd, 0xcc, 0xbb, 0xaa]);
    assert_eq!(&bytes[176..180], &[42, 0, 0, 0]);
    for j in 180..256 {
        assert_eq!(bytes[j], 0);
    }
}

#[test]
fn inode_codec_roundtrip() {
    let mut f = File::new();
    f.set_name("a.out");
    f.set_size(12345);
    f.set_type(FileType::File);
    for k in 0..10 {
        f.set_direct(k, 100 + k);
    }
    f.set_indirect(200);
    let bytes = encode_inode(&f);
    let g = decode_inode(&bytes, 0);
    assert_eq!(g.get_name(), "a.out");
    assert_eq!(g.get_size(), 12345);
    assert_eq!(g.get_type(), FileType::File);
    for k in 0..10 {
        assert_eq!(g.get_direct(k), 100 + k);
    }
    assert_eq!(g.get_indirect(), 200);
}

#[test]
fn get_name_returns_stored() {
    let mut f = File::new();
    assert_eq!(f.get_name(), "");
    f.set_name("hello.txt");
    assert_eq!(f.get_name(), "hello.txt");
}

#[test]
fn superblock_encoding() {
    let sb = SuperBlock::new(FS_MAGIC, 1024);
    let bytes = sb.to_bytes();
    assert_eq!(bytes.len(), 264);
    assert_eq!(&bytes[0..4], &[0x97, 0x60, 0x28, 0x68]);
    assert_eq!(&bytes[4..8], &[0x00, 0x04, 0x00, 0x00]);
    // the blank root record is all zero
    for j in 8..264 {
        assert_eq!(bytes[j], 0);
    }
}

#[test]
fn block_starts_zeroed() {
    let mut b = Block::new();
    assert_eq!(b.b_data.len(), BS);
    assert!(b.b_data.iter().all(|&x| x == 0));
    b.set_type(BlockType::Data);
}

#[test]
fn allocation_is_sequential() {
    let mut disk = init_disk();
    assert_eq!(next_block(&mut disk, BlockType::Data), Ok(3));
    assert_eq!(next_block(&mut disk, BlockType::InodeTable), Ok(4));
    assert_eq!(next_block(&mut disk, BlockType::IndirectIndex), Ok(5));
}

#[test]
fn first_slot_in_fresh_directory() {
    let mut disk = init_disk();
    let mut root = fresh_root();
    // no content block yet: a table block is allocated and slot 0 handed out
    let (bn, slot) = create_file(&mut disk, &mut root).unwrap();
    assert_eq!((bn, slot), (3, 0));
    assert_eq!(root.get_size(), BLOCK_SIZE);
    // the slot stays free until a named record is stored in it
    let mut child = File::new();
    child.set_name("x");
    store_file(&mut disk, bn, slot, &child);
    let (bn2, slot2) = create_file(&mut disk, &mut root).unwrap();
    assert_eq!((bn2, slot2), (3, 1));
    assert_eq!(root.get_size(), BLOCK_SIZE);
}

#[test]
fn links_resolve_direct_and_indirect() {
    let mut disk = init_disk();
    let mut f = File::new();
    f.set_size(13 * BLOCK_SIZE);
    save_block_link(&mut disk, &mut f, 0, 77).unwrap();
    assert_eq!(f.get_direct(0), 77);
    assert_eq!(resolve(&disk, &f, 0), 77);
    // the first link past the direct slots allocates the index block
    assert_eq!(f.get_indirect(), 0);
    save_block_link(&mut disk, &mut f, 10, 88).unwrap();
    let ind = f.get_indirect();
    assert_eq!(ind, 3);
    assert_eq!(resolve(&disk, &f, 10), 88);
    save_block_link(&mut disk, &mut f, 12, 99).unwrap();
    assert_eq!(resolve(&disk, &f, 12), 99);
    assert_eq!(resolve(&disk, &f, 10), 88);
}

#[test]
fn write_file_direct_boundary() {
    // exactly ten blocks: direct pointers suffice, the indirect slot stays 0
    let mut disk = init_disk();
    let mut root = fresh_root();
    let data = vec![5u8; 10 * BS];
    let (bn, slot) = disk.write_file(&mut root, "ten", &data).unwrap();
    let img = disk.image_bytes();
    let rec = decode_inode(&img, bn as usize * BS + slot as usize * 256);
    assert_eq!(rec.get_size(), 10 * BLOCK_SIZE);
    assert_eq!(rec.get_indirect(), 0);
    // table block + 10 data blocks were allocated
    assert_eq!(next_block(&mut disk, BlockType::Data), Ok(14));
}

#[test]
fn write_file_first_indirect_entry() {
    // one byte past ten blocks: an index block appears and entry 0 is used
    let mut disk = init_disk();
    let mut root = fresh_root();
    let data = vec![5u8; 10 * BS + 1];
    let (bn, slot) = disk.write_file(&mut root, "eleven", &data).unwrap();
    let img = disk.image_bytes();
    let rec = decode_inode(&img, bn as usize * BS + slot as usize * 256);
    assert_eq!(rec.get_size(), 10 * BLOCK_SIZE + 1);
    let ind = rec.get_indirect();
    // allocation order: table 3, data 4..13, the eleventh data block 14,
    // then the index block
    assert_eq!(ind, 15);
    assert_eq!(get_u32(&img, ind as usize * BS), 14);
    assert_eq!(resolve(&disk, &rec, 10), 14);
    // exactly table + 11 data + 1 index blocks were allocated
    assert_eq!(next_block(&mut disk, BlockType::Data), Ok(16));
}

#[test]
fn link_past_pointer_capacity_rejected() {
    // 10 direct slots plus 1024 indirect entries: logical index 1034 is
    // the first that no inode can address.
    let mut disk = init_disk();
    let mut f = File::new();
    f.set_size(fsformat::fs::MAX_FILE_SIZE);
    assert_eq!(save_block_link(&mut disk, &mut f, 1034, 5), Err(FsError::CapacityExceeded));
    assert_eq!(save_block_link(&mut disk, &mut f, 1033, 5), Ok(()));
    assert_eq!(resolve(&disk, &f, 1033), 5);
}
