//! End-to-end tests: build whole images and read them back byte by byte.

use fsformat::codec::{decode_inode, get_u32};
use fsformat::disk::{build_image, Entry, FsError};
use fsformat::fs::{FileType, BLOCK_COUNT, BLOCK_SIZE, MAX_FILE_SIZE};

const BS: usize = BLOCK_SIZE as usize;

fn patterned(n: usize) -> Vec<u8> {
    (0..n).map(|i| (i % 251) as u8).collect()
}

#[test]
fn image_size_and_magic() {
    let img = build_image(&vec![]).unwrap();
    assert_eq!(img.len(), BLOCK_COUNT as usize * BS);
    assert_eq!(get_u32(&img, BS), 0x68286097);
    assert_eq!(get_u32(&img, BS + 4), 1024);
}

#[test]
fn empty_image_bitmap() {
    // Nothing written: only boot, superblock and bitmap blocks are used.
    let img = build_image(&vec![]).unwrap();
    let bitmap = &img[2 * BS..3 * BS];
    // bits 0..3 used (0), bits 3..8 free (1)
    assert_eq!(bitmap[0], 0b1111_1000);
    for j in 1..128 {
        assert_eq!(bitmap[j], 0xff);
    }
    for j in 128..BS {
        assert_eq!(bitmap[j], 0x00);
    }
}

#[test]
fn single_file_layout() {
    // A root holding one 5000-byte file: root is a directory of one
    // inode-table block; the file sits in slot 0 with two data blocks.
    let data = patterned(5000);
    let entries = vec![Entry::File { name: String::from("a.txt"), data: data.clone() }];
    let img = build_image(&entries).unwrap();

    let root = decode_inode(&img, BS + 8);
    assert_eq!(root.get_name(), "/");
    assert_eq!(root.get_type(), FileType::Directory);
    assert_eq!(root.get_size(), BLOCK_SIZE);
    assert_eq!(root.get_indirect(), 0);
    let table = root.get_direct(0);
    assert_eq!(table, 3);

    let rec = decode_inode(&img, table as usize * BS);
    assert_eq!(rec.get_name(), "a.txt");
    assert_eq!(rec.get_type(), FileType::File);
    assert_eq!(rec.get_size(), 5000);
    assert_eq!(rec.get_indirect(), 0);
    let b0 = rec.get_direct(0);
    let b1 = rec.get_direct(1);
    assert_ne!(b0, b1);
    assert!(b0 > table && b1 > table);

    let mut back = Vec::new();
    back.extend_from_slice(&img[b0 as usize * BS..b0 as usize * BS + BS]);
    back.extend_from_slice(&img[b1 as usize * BS..b1 as usize * BS + 904]);
    assert_eq!(back, data);
}

#[test]
fn single_file_bitmap() {
    // Table block 3 and data blocks 4 and 5 are allocated: bits 0..6
    // are used, the rest free.
    let entries = vec![Entry::File { name: String::from("a.txt"), data: patterned(5000) }];
    let img = build_image(&entries).unwrap();
    let bitmap = &img[2 * BS..3 * BS];
    assert_eq!(bitmap[0], 0b1100_0000);
    for j in 1..128 {
        assert_eq!(bitmap[j], 0xff);
    }
}

#[test]
fn file_roundtrip_through_indirect() {
    // 50000 bytes need 13 content blocks: ten direct pointers and three
    // entries of the indirect index block.
    let data = patterned(50000);
    let entries = vec![Entry::File { name: String::from("big.bin"), data: data.clone() }];
    let img = build_image(&entries).unwrap();

    let root = decode_inode(&img, BS + 8);
    let table = root.get_direct(0);
    let rec = decode_inode(&img, table as usize * BS);
    assert_eq!(rec.get_size(), 50000);
    let ind = rec.get_indirect();
    assert_ne!(ind, 0);

    let mut back = Vec::new();
    for k in 0..13 {
        let bn = if k < 10 {
            rec.get_direct(k)
        } else {
            get_u32(&img, ind as usize * BS + 4 * (k as usize - 10))
        };
        let from = bn as usize * BS;
        let want = std::cmp::min(BS, 50000 - back.len());
        back.extend_from_slice(&img[from..from + want]);
    }
    assert_eq!(back, data);
}

#[test]
fn directory_of_sixteen_entries_fills_one_block() {
    let mut files = Vec::new();
    for i in 0..16 {
        files.push(Entry::File { name: format!("f{}", i), data: vec![7u8; 10] });
    }
    let entries = vec![Entry::Dir { name: String::from("d"), entries: files }];
    let img = build_image(&entries).unwrap();
    let root = decode_inode(&img, BS + 8);
    let table = root.get_direct(0);
    let d = decode_inode(&img, table as usize * BS);
    assert_eq!(d.get_name(), "d");
    assert_eq!(d.get_type(), FileType::Directory);
    assert_eq!(d.get_size(), BLOCK_SIZE);
}

#[test]
fn seventeenth_entry_grows_directory() {
    let mut files = Vec::new();
    for i in 0..17 {
        files.push(Entry::File { name: format!("f{}", i), data: vec![7u8; 10] });
    }
    let entries = vec![Entry::Dir { name: String::from("d"), entries: files }];
    let img = build_image(&entries).unwrap();
    let root = decode_inode(&img, BS + 8);
    let table = root.get_direct(0);
    let d = decode_inode(&img, table as usize * BS);
    assert_eq!(d.get_size(), 2 * BLOCK_SIZE);
    assert_ne!(d.get_direct(1), 0);
    // the seventeenth record sits in slot 0 of the second table block
    let rec = decode_inode(&img, d.get_direct(1) as usize * BS);
    assert_eq!(rec.get_name(), "f16");
}

#[test]
fn nested_directories() {
    let inner = vec![Entry::File { name: String::from("c.txt"), data: patterned(100) }];
    let mid = vec![Entry::Dir { name: String::from("b"), entries: inner }];
    let entries = vec![Entry::Dir { name: String::from("a"), entries: mid }];
    let img = build_image(&entries).unwrap();

    let root = decode_inode(&img, BS + 8);
    let a = decode_inode(&img, root.get_direct(0) as usize * BS);
    assert_eq!(a.get_name(), "a");
    assert_eq!(a.get_type(), FileType::Directory);
    let b = decode_inode(&img, a.get_direct(0) as usize * BS);
    assert_eq!(b.get_name(), "b");
    assert_eq!(b.get_type(), FileType::Directory);
    let c = decode_inode(&img, b.get_direct(0) as usize * BS);
    assert_eq!(c.get_name(), "c.txt");
    assert_eq!(c.get_type(), FileType::File);
    assert_eq!(c.get_size(), 100);
    let from = c.get_direct(0) as usize * BS;
    assert_eq!(&img[from..from + 100], &patterned(100)[..]);
}

#[test]
fn name_too_long_rejected() {
    let name: String = std::iter::repeat('x').take(128).collect();
    let entries = vec![Entry::File { name, data: vec![] }];
    assert_eq!(build_image(&entries), Err(FsError::NameTooLong));
}

#[test]
fn longest_accepted_name() {
    let name: String = std::iter::repeat('x').take(127).collect();
    let entries = vec![Entry::File { name: name.clone(), data: vec![1u8] }];
    let img = build_image(&entries).unwrap();
    let root = decode_inode(&img, BS + 8);
    let rec = decode_inode(&img, root.get_direct(0) as usize * BS);
    assert_eq!(rec.get_name(), name);
}

#[test]
fn empty_name_rejected() {
    // an empty name would be indistinguishable from a free inode slot
    let entries = vec![Entry::File { name: String::new(), data: vec![1u8] }];
    assert_eq!(build_image(&entries), Err(FsError::BadName));
}

#[test]
fn nul_in_name_rejected() {
    let entries = vec![Entry::File { name: String::from("a\u{0}b"), data: vec![] }];
    assert_eq!(build_image(&entries), Err(FsError::BadName));
}

#[test]
fn oversized_file_rejected() {
    let entries = vec![Entry::File {
        name: String::from("huge"),
        data: vec![0u8; MAX_FILE_SIZE as usize + 1],
    }];
    assert_eq!(build_image(&entries), Err(FsError::CapacityExceeded));
}

#[test]
fn image_capacity_exhausted() {
    // Four 1 MiB files need 4 * (256 + 1) content and index blocks plus a
    // table block, more than the 1021 blocks left after the reserved ones.
    let mut entries = Vec::new();
    for i in 0..4 {
        entries.push(Entry::File { name: format!("m{}", i), data: vec![9u8; 1 << 20] });
    }
    assert_eq!(build_image(&entries), Err(FsError::CapacityExceeded));
}

#[test]
fn empty_file_takes_no_data_block() {
    let entries = vec![Entry::File { name: String::from("empty"), data: vec![] }];
    let img = build_image(&entries).unwrap();
    let root = decode_inode(&img, BS + 8);
    let rec = decode_inode(&img, root.get_direct(0) as usize * BS);
    assert_eq!(rec.get_size(), 0);
    assert_eq!(rec.get_direct(0), 0);
    assert_eq!(rec.get_indirect(), 0);
    // only the root's table block was allocated beyond the reserved three
    let bitmap = &img[2 * BS..3 * BS];
    assert_eq!(bitmap[0], 0b1111_0000);
}
