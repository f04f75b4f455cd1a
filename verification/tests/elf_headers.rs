//! Tests for the ELF32 header decoding.

use fsformat::elf::{Elf32Ehdr, Elf32Shdr};

#[test]
fn elf_magic_detected() {
    assert!(Elf32Ehdr::is_elf_format(&[0x7f, 0x45, 0x4c, 0x46, 0, 0]));
    assert!(Elf32Ehdr::is_elf_format(b"\x7fELF"));
    assert!(!Elf32Ehdr::is_elf_format(b"\x7fELO"));
    assert!(!Elf32Ehdr::is_elf_format(b"ELF"));
    assert!(!Elf32Ehdr::is_elf_format(&[]));
}

#[test]
fn file_header_fields_decode() {
    let mut data = vec![0u8; 52];
    data[0..4].copy_from_slice(b"\x7fELF");
    data[16] = 0x02; // e_type
    data[18] = 0xf3; // e_machine (RISC-V)
    data[20] = 0x01; // e_version
    data[24..28].copy_from_slice(&[0x00, 0x00, 0x01, 0x80]); // e_entry
    data[32..36].copy_from_slice(&[0x34, 0x12, 0x00, 0x00]); // e_shoff
    data[46] = 40; // e_shentsize
    data[48] = 7; // e_shnum
    let h = Elf32Ehdr::from_bytes(&data);
    assert_eq!(&h.e_ident[..4], b"\x7fELF");
    assert_eq!(h.e_type, 2);
    assert_eq!(h.e_machine, 0xf3);
    assert_eq!(h.e_version, 1);
    assert_eq!(h.e_entry, 0x8001_0000);
    assert_eq!(h.e_shoff, 0x1234);
    assert_eq!(h.e_shentsize, 40);
    assert_eq!(h.e_shnum, 7);
}

#[test]
fn section_header_fields_decode() {
    let mut data = vec![0u8; 40];
    data[0] = 5; // sh_name
    data[4] = 1; // sh_type
    data[12..16].copy_from_slice(&[0x00, 0x10, 0x00, 0x80]); // sh_addr
    data[20..24].copy_from_slice(&[0x00, 0x20, 0x00, 0x00]); // sh_size
    let h = Elf32Shdr::from_bytes(&data);
    assert_eq!(h.sh_name, 5);
    assert_eq!(h.sh_type, 1);
    assert_eq!(h.sh_addr, 0x8000_1000);
    assert_eq!(h.sh_size, 0x2000);
    assert_eq!(h.sh_entsize, 0);
}
