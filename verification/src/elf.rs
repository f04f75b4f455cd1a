//! ELF32 header records, decoded from raw bytes at fixed little-endian
//! offsets rather than by reinterpreting memory.

use vstd::prelude::*;

use crate::codec::{get_u16, get_u32, le_u16_at, le_u32_at};

verus! {

/// Bytes of identification data at the start of an ELF file header.
pub const EI_NIDENT: u32 = 16;

/// The ELF32 file header.
pub struct Elf32Ehdr {
    pub e_ident: Vec<u8>,
    pub e_type: u16,
    pub e_machine: u16,
    pub e_version: u32,
    pub e_entry: u32,
    pub e_phoff: u32,
    pub e_shoff: u32,
    pub e_flags: u32,
    pub e_ehsize: u16,
    pub e_phentsize: u16,
    pub e_phnum: u16,
    pub e_shentsize: u16,
    pub e_shnum: u16,
    pub e_shstrndx: u16,
}

impl Elf32Ehdr {
    /// The data opens with the four ELF magic bytes.
    pub fn is_elf_format(data: &[u8]) -> (r: bool)
        ensures
            r == (data@.len() >= 4 && data@[0] == 0x7fu8 && data@[1] == 0x45u8 && data@[2]
                == 0x4cu8 && data@[3] == 0x46u8),
    {
        data.len() >= 4 && data[0] == 0x7f && data[1] == 0x45 && data[2] == 0x4c && data[3] == 0x46
    }

    /// Decode the 52-byte ELF32 file header stored at the start of `data`.
    pub fn from_bytes(data: &[u8]) -> (h: Elf32Ehdr)
        requires
            data@.len() >= 52,
        ensures
            h.e_ident@ == data@.subrange(0, EI_NIDENT as int),
            h.e_type == le_u16_at(data@, 16),
            h.e_machine == le_u16_at(data@, 18),
            h.e_version == le_u32_at(data@, 20),
            h.e_entry == le_u32_at(data@, 24),
            h.e_phoff == le_u32_at(data@, 28),
            h.e_shoff == le_u32_at(data@, 32),
            h.e_flags == le_u32_at(data@, 36),
            h.e_ehsize == le_u16_at(data@, 40),
            h.e_phentsize == le_u16_at(data@, 42),
            h.e_phnum == le_u16_at(data@, 44),
            h.e_shentsize == le_u16_at(data@, 46),
            h.e_shnum == le_u16_at(data@, 48),
            h.e_shstrndx == le_u16_at(data@, 50),
    {
        let mut ident: Vec<u8> = Vec::new();
        let mut i: usize = 0;
        while i < EI_NIDENT as usize
            invariant
                data@.len() >= 52,
                i <= EI_NIDENT,
                ident@ == data@.subrange(0, i as int),
            decreases EI_NIDENT - i,
        {
            ident.push(data[i]);
            i = i + 1;
            proof {
                assert(ident@ =~= data@.subrange(0, i as int));
            }
        }
        Elf32Ehdr {
            e_ident: ident,
            e_type: get_u16(data, 16),
            e_machine: get_u16(data, 18),
            e_version: get_u32(data, 20),
            e_entry: get_u32(data, 24),
            e_phoff: get_u32(data, 28),
            e_shoff: get_u32(data, 32),
            e_flags: get_u32(data, 36),
            e_ehsize: get_u16(data, 40),
            e_phentsize: get_u16(data, 42),
            e_phnum: get_u16(data, 44),
            e_shentsize: get_u16(data, 46),
            e_shnum: get_u16(data, 48),
            e_shstrndx: get_u16(data, 50),
        }
    }
}

/// An ELF32 section header.
pub struct Elf32Shdr {
    pub sh_name: u32,
    pub sh_type: u32,
    pub sh_flags: u32,
    pub sh_addr: u32,
    pub sh_offset: u32,
    pub sh_size: u32,
    pub sh_link: u32,
    pub sh_info: u32,
    pub sh_addralign: u32,
    pub sh_entsize: u32,
}

impl Elf32Shdr {
    /// Decode the 40-byte ELF32 section header stored at the start of
    /// `data`.
    pub fn from_bytes(data: &[u8]) -> (h: Elf32Shdr)
        requires
            data@.len() >= 40,
        ensures
            h.sh_name == le_u32_at(data@, 0),
            h.sh_type == le_u32_at(data@, 4),
            h.sh_flags == le_u32_at(data@, 8),
            h.sh_addr == le_u32_at(data@, 12),
            h.sh_offset == le_u32_at(data@, 16),
            h.sh_size == le_u32_at(data@, 20),
            h.sh_link == le_u32_at(data@, 24),
            h.sh_info == le_u32_at(data@, 28),
            h.sh_addralign == le_u32_at(data@, 32),
            h.sh_entsize == le_u32_at(data@, 36),
    {
        Elf32Shdr {
            sh_name: get_u32(data, 0),
            sh_type: get_u32(data, 4),
            sh_flags: get_u32(data, 8),
            sh_addr: get_u32(data, 12),
            sh_offset: get_u32(data, 16),
            sh_size: get_u32(data, 20),
            sh_link: get_u32(data, 24),
            sh_info: get_u32(data, 28),
            sh_addralign: get_u32(data, 32),
            sh_entsize: get_u32(data, 36),
        }
    }
}

/// An ELF32 program segment header.
pub struct Elf32Phdr {
    pub p_type: u32,
    pub p_offset: u32,
    pub p_vaddr: u32,
    pub p_paddr: u32,
    pub p_filesz: u32,
    pub p_memsz: u32,
    pub p_flags: u32,
    pub p_align: u32,
}

} // verus!
