//! On-disk record types: inode records, the superblock, and raw blocks.

use vstd::prelude::*;
use vstd::string::StringSliceAdditionalSpecFns;

verus! {

/// Bytes per block.
pub const BLOCK_SIZE: u32 = 0x1000;

/// Bits per block, for bitmap sizing.
pub const BLOCK_SIZE_BIT: u32 = 0x8000;

/// Maximum name length, terminator included.
pub const MAX_NAME_LEN: u32 = 0x80;

/// Direct block-number slots per inode record.
pub const DIRECT_PTR_CNT: u32 = 10;

/// Four-byte entries per indirect index block.
pub const INDIRECT_PTR_CNT: u32 = 0x400;

/// Bytes per encoded inode record.
pub const FILE_STRUCT_SIZE: u32 = 0x100;

/// Inode records per inode-table block.
pub const FILE_BLOCK_CNT: u32 = 0x10;

/// Magic constant at the start of the superblock.
pub const FS_MAGIC: u32 = 0x68286097;

/// Total blocks in the image.
pub const BLOCK_COUNT: u32 = 0x400;

/// Largest number of content blocks one inode can address.
pub const MAX_PTR_CNT: u32 = 0x40a;

/// Largest file size in bytes: every direct and indirect pointer used.
pub const MAX_FILE_SIZE: u32 = 0x40a000;

#[derive(Clone, Copy, PartialEq, Eq, Structural, Debug)]
pub enum FileType {
    File,
    Directory,
}

/// The value a `FileType` takes in the four-byte type field of a record.
pub open spec fn file_type_val(t: FileType) -> u32 {
    match t {
        FileType::File => 0,
        FileType::Directory => 1,
    }
}

#[derive(Clone, Copy, PartialEq, Eq, Structural, Debug)]
pub enum BlockType {
    Free,
    Boot,
    Bitmap,
    Super,
    Data,
    InodeTable,
    IndirectIndex,
}

/// An inode record: the metadata and block pointers of one file or directory.
/// The name holds only the actual name bytes; encoding pads it with
/// terminators up to `MAX_NAME_LEN`.
pub struct File {
    pub f_name: Vec<u8>,
    pub f_size: u32,
    pub f_type: FileType,
    pub f_direct: Vec<u32>,
    pub f_indirect: u32,
}

impl File {
    /// A name that fits the fixed field, with no stray terminator inside it,
    /// and exactly `DIRECT_PTR_CNT` direct slots.
    pub open spec fn wf(self) -> bool {
        &&& self.f_name@.len() < MAX_NAME_LEN
        &&& forall|i: int| 0 <= i < self.f_name@.len() ==> self.f_name@[i] != 0u8
        &&& self.f_direct@.len() == DIRECT_PTR_CNT
    }

    /// A fresh, all-zero record: empty name, size 0, type `File`,
    /// all pointers unallocated.
    pub fn new() -> (f: File)
        ensures
            f.wf(),
            f.f_name@ == Seq::<u8>::empty(),
            f.f_size == 0u32,
            f.f_type == FileType::File,
            f.f_direct@ == Seq::new(DIRECT_PTR_CNT as nat, |i: int| 0u32),
            f.f_indirect == 0u32,
    {
        let mut direct: Vec<u32> = Vec::new();
        let mut i: u32 = 0;
        while i < DIRECT_PTR_CNT
            invariant
                i <= DIRECT_PTR_CNT,
                direct@.len() == i,
                forall|k: int| 0 <= k < i ==> direct@[k] == 0u32,
            decreases DIRECT_PTR_CNT - i,
        {
            direct.push(0);
            i = i + 1;
        }
        proof {
            assert(direct@ =~= Seq::new(DIRECT_PTR_CNT as nat, |i: int| 0u32));
        }
        File { f_name: Vec::new(), f_size: 0, f_type: FileType::File, f_direct: direct, f_indirect: 0 }
    }

    /// Store the name bytes.  The encoding is terminator-padded, so the name
    /// must fit below `MAX_NAME_LEN` and contain no zero byte.
    pub fn set_name(&mut self, name: &str)
        requires
            name.spec_bytes().len() < MAX_NAME_LEN,
            forall|i: int| 0 <= i < name.spec_bytes().len() ==> name.spec_bytes()[i] != 0u8,
        ensures
            final(self).f_name@ == name.spec_bytes(),
            final(self).f_size == old(self).f_size,
            final(self).f_type == old(self).f_type,
            final(self).f_direct == old(self).f_direct,
            final(self).f_indirect == old(self).f_indirect,
    {
        let bytes = name.as_bytes();
        let mut v: Vec<u8> = Vec::new();
        let mut i: usize = 0;
        while i < bytes.len()
            invariant
                i <= bytes.len(),
                v@ == bytes@.take(i as int),
            decreases bytes.len() - i,
        {
            v.push(bytes[i]);
            i = i + 1;
        }
        proof {
            assert(v@ =~= bytes@);
        }
        self.f_name = v;
    }

    pub fn set_size(&mut self, size: u32)
        ensures
            final(self).f_size == size,
            final(self).f_name == old(self).f_name,
            final(self).f_type == old(self).f_type,
            final(self).f_direct == old(self).f_direct,
            final(self).f_indirect == old(self).f_indirect,
    {
        self.f_size = size;
    }

    pub fn set_type(&mut self, t: FileType)
        ensures
            final(self).f_type == t,
            final(self).f_name == old(self).f_name,
            final(self).f_size == old(self).f_size,
            final(self).f_direct == old(self).f_direct,
            final(self).f_indirect == old(self).f_indirect,
    {
        self.f_type = t;
    }

    pub fn set_direct(&mut self, idx: u32, block: u32)
        requires
            idx < DIRECT_PTR_CNT,
            old(self).f_direct@.len() == DIRECT_PTR_CNT,
        ensures
            final(self).f_direct@ == old(self).f_direct@.update(idx as int, block),
            final(self).f_name == old(self).f_name,
            final(self).f_size == old(self).f_size,
            final(self).f_type == old(self).f_type,
            final(self).f_indirect == old(self).f_indirect,
    {
        self.f_direct.set(idx as usize, block);
    }

    pub fn set_indirect(&mut self, block: u32)
        ensures
            final(self).f_indirect == block,
            final(self).f_name == old(self).f_name,
            final(self).f_size == old(self).f_size,
            final(self).f_type == old(self).f_type,
            final(self).f_direct == old(self).f_direct,
    {
        self.f_indirect = block;
    }

    pub fn get_size(&self) -> (r: u32)
        ensures
            r == self.f_size,
    {
        self.f_size
    }

    pub fn get_type(&self) -> (r: FileType)
        ensures
            r == self.f_type,
    {
        self.f_type
    }

    pub fn get_direct(&self, idx: u32) -> (r: u32)
        requires
            idx < DIRECT_PTR_CNT,
            self.f_direct@.len() == DIRECT_PTR_CNT,
        ensures
            r == self.f_direct@[idx as int],
    {
        self.f_direct[idx as usize]
    }

    pub fn get_indirect(&self) -> (r: u32)
        ensures
            r == self.f_indirect,
    {
        self.f_indirect
    }

    /// Relies on `String::push`: appends the given character to the string.
    #[verifier::external_body]
    fn push_char(s: &mut String, c: char)
        ensures
            final(s)@ == old(s)@.push(c),
    {
        s.push(c)
    }

    /// The stored name, one character per byte.
    pub fn get_name(&self) -> (r: String)
        ensures
            r@.len() == self.f_name@.len(),
            forall|i: int| 0 <= i < r@.len() ==> r@[i] == self.f_name@[i] as char,
    {
        let mut name = String::new();
        let mut i: usize = 0;
        while i < self.f_name.len()
            invariant
                i <= self.f_name@.len(),
                name@.len() == i,
                forall|k: int| 0 <= k < i ==> name@[k] == self.f_name@[k] as char,
            decreases self.f_name@.len() - i,
        {
            File::push_char(&mut name, self.f_name[i] as char);
            i = i + 1;
        }
        name
    }
}

/// The record at fixed block index 1: magic, total block count, root inode.
pub struct SuperBlock {
    pub s_magic: u32,
    pub s_block_cnt: u32,
    pub s_root: File,
}

impl SuperBlock {
    pub fn new(magic: u32, block_count: u32) -> (sb: SuperBlock)
        ensures
            sb.s_magic == magic,
            sb.s_block_cnt == block_count,
            sb.s_root.wf(),
            sb.s_root.f_name@ == Seq::<u8>::empty(),
            sb.s_root.f_size == 0u32,
            sb.s_root.f_type == FileType::File,
            sb.s_root.f_direct@ == Seq::new(DIRECT_PTR_CNT as nat, |i: int| 0u32),
            sb.s_root.f_indirect == 0u32,
    {
        SuperBlock { s_magic: magic, s_block_cnt: block_count, s_root: File::new() }
    }
}

/// One block of the image: its raw bytes and a bookkeeping role tag.
/// The tag records what the block was allocated for; only the bytes are
/// ever serialized.
pub struct Block {
    pub b_data: Vec<u8>,
    pub b_type: BlockType,
}

impl Block {
    /// A zero-filled block tagged `Free`.
    pub fn new() -> (b: Block)
        ensures
            b.b_data@.len() == BLOCK_SIZE,
            forall|i: int| 0 <= i < b.b_data@.len() ==> b.b_data@[i] == 0u8,
            b.b_type == BlockType::Free,
    {
        let mut data: Vec<u8> = Vec::new();
        let mut i: u32 = 0;
        while i < BLOCK_SIZE
            invariant
                i <= BLOCK_SIZE,
                data@.len() == i,
                forall|k: int| 0 <= k < i ==> data@[k] == 0u8,
            decreases BLOCK_SIZE - i,
        {
            data.push(0);
            i = i + 1;
        }
        Block { b_data: data, b_type: BlockType::Free }
    }

    pub fn set_type(&mut self, t: BlockType)
        ensures
            final(self).b_type == t,
            final(self).b_data == old(self).b_data,
    {
        self.b_type = t;
    }
}

} // verus!
