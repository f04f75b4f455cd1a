//! The block store and the build steps that fill it.
//!
//! A `Disk` owns the fixed array of 1024 blocks together with the
//! superblock and the allocation cursor.  Building an image allocates
//! blocks strictly in order, links them into inode records, marks every
//! allocated block used in the bitmap, and finally lays the whole store
//! out as one flat byte vector.

use vstd::prelude::*;
use vstd::string::StringSliceAdditionalSpecFns;
use vstd::utf8::encode_utf8;

use crate::codec::{encode_inode, get_u32, inode_bytes, le_u32_at, put_u32, superblock_bytes};
use crate::fs::{
    Block, BlockType, File, FileType, SuperBlock, BLOCK_COUNT, BLOCK_SIZE, BLOCK_SIZE_BIT,
    DIRECT_PTR_CNT, FILE_BLOCK_CNT, FILE_STRUCT_SIZE, FS_MAGIC, MAX_FILE_SIZE, MAX_NAME_LEN,
    MAX_PTR_CNT,
};

verus! {

/// Why a build was aborted.  Every violated precondition is fatal: the
/// caller discards the store, there is no partial image.
#[derive(Clone, Copy, PartialEq, Eq, Structural, Debug)]
pub enum FsError {
    /// An entry name does not fit the 128-byte field with its terminator.
    NameTooLong,
    /// An entry name is empty or holds a zero byte; the terminator-padded
    /// field cannot tell either apart from a free record slot.
    BadName,
    /// The allocation cursor would pass the total block count, or a file
    /// needs more blocks than one inode can address.
    CapacityExceeded,
}

pub open spec fn all_zero(s: Seq<u8>) -> bool {
    forall|j: int| 0 <= j < s.len() ==> s[j] == 0u8
}

/// Content blocks needed for `size` bytes.
pub open spec fn nblocks_of(size: u32) -> int {
    (size + BLOCK_SIZE - 1) as int / BLOCK_SIZE as int
}

/// The block store: the superblock, all blocks, the size of the bitmap
/// region in blocks, and the strictly increasing allocation cursor.
pub struct Disk {
    pub super_block: SuperBlock,
    pub blocks: Vec<Block>,
    pub bit_block_cnt: u32,
    pub next_block: u32,
}

/// The physical block holding logical content block `k` of record `f`:
/// a direct slot for `k` below `DIRECT_PTR_CNT`, otherwise entry
/// `k - DIRECT_PTR_CNT` of the indirect index block.
pub open spec fn resolve_spec(disk: Disk, f: File, k: int) -> u32 {
    if k < DIRECT_PTR_CNT {
        f.f_direct@[k]
    } else {
        le_u32_at(disk.blocks@[f.f_indirect as int].b_data@, 4 * (k - DIRECT_PTR_CNT))
    }
}

/// After linking one logical slot, every other logical slot resolves as
/// before; when the link allocated the index block, its other entries
/// read 0.
pub open spec fn link_keeps(d0: Disk, f0: File, d1: Disk, f1: File, block_cnt: int) -> bool {
    forall|k: int|
        0 <= k < MAX_PTR_CNT && k != block_cnt ==> #[trigger] resolve_spec(d1, f1, k) == (
        if block_cnt >= DIRECT_PTR_CNT && f0.f_indirect == 0 && k >= DIRECT_PTR_CNT {
            0u32
        } else {
            resolve_spec(d0, f0, k)
        })
}

/// The first `n` content blocks of `f`, concatenated.
pub open spec fn file_blocks(disk: Disk, f: File, n: int) -> Seq<u8>
    decreases n,
{
    if n <= 0 {
        Seq::empty()
    } else {
        file_blocks(disk, f, n - 1) + disk.blocks@[resolve_spec(disk, f, n - 1) as int].b_data@
    }
}

/// The bytes of `f`: its content blocks in logical order, trimmed to its
/// size.
pub open spec fn file_content(disk: Disk, f: File) -> Seq<u8> {
    file_blocks(disk, f, nblocks_of(f.f_size)).take(f.f_size as int)
}

/// The bitmap bit for block index `b`: bit `b % 8` of byte `b / 8` of the
/// bitmap block, equal to bit `b % 32` of little-endian word `b / 32`.
/// 1 means free, 0 means used.
pub open spec fn bitmap_bit(disk: Disk, b: int) -> u8 {
    (disk.blocks@[2].b_data@[b / 8] >> ((b % 8) as u8)) & 1
}

impl Disk {
    /// Every block present with its full 4096 bytes.
    pub open spec fn blocks_sized(self) -> bool {
        &&& self.blocks@.len() == BLOCK_COUNT
        &&& forall|i: int|
            0 <= i < BLOCK_COUNT ==> (#[trigger] self.blocks@[i]).b_data@.len() == BLOCK_SIZE
    }

    /// An initialized store: sized blocks, the one-block bitmap region,
    /// the cursor past the reserved blocks, and every unallocated block
    /// still zero.
    pub open spec fn wf(self) -> bool {
        &&& self.blocks_sized()
        &&& self.bit_block_cnt == 1
        &&& 3 <= self.next_block <= BLOCK_COUNT
        &&& forall|i: int|
            self.next_block <= i < BLOCK_COUNT ==> all_zero(
                (#[trigger] self.blocks@[i]).b_data@,
            )
    }

    /// The bitmap block as initialization left it: one free bit per block
    /// index, bits past the block count left clear.
    pub open spec fn bitmap_fresh(self) -> bool {
        &&& forall|j: int| 0 <= j < BLOCK_COUNT / 8 ==> #[trigger] self.blocks@[2].b_data@[j] == 0xffu8
        &&& forall|j: int|
            BLOCK_COUNT / 8 <= j < BLOCK_SIZE ==> #[trigger] self.blocks@[2].b_data@[j] == 0u8
    }

    /// Record `f` addresses only blocks that have been allocated: it fits
    /// the pointer capacity, its indirect slot points at an allocated
    /// block once one is needed, and every content block resolves below
    /// the cursor.
    pub open spec fn inode_ok(self, f: File) -> bool {
        &&& f.wf()
        &&& nblocks_of(f.f_size) <= MAX_PTR_CNT
        &&& (nblocks_of(f.f_size) > DIRECT_PTR_CNT ==> f.f_indirect != 0)
        &&& (f.f_indirect == 0 || 2 < f.f_indirect < self.next_block)
        &&& forall|k: int|
            0 <= k < nblocks_of(f.f_size) ==> 2 < #[trigger] resolve_spec(self, f, k)
                < self.next_block && resolve_spec(self, f, k) != f.f_indirect
    }

    /// An all-zero store: every block zero-filled and `Free`, the
    /// superblock blank, the cursor not yet placed.
    pub fn new() -> (disk: Disk)
        ensures
            disk.blocks_sized(),
            forall|i: int|
                0 <= i < BLOCK_COUNT ==> all_zero((#[trigger] disk.blocks@[i]).b_data@),
            forall|i: int|
                0 <= i < BLOCK_COUNT ==> (#[trigger] disk.blocks@[i]).b_type == BlockType::Free,
            disk.super_block.s_magic == 0u32,
            disk.super_block.s_block_cnt == 0u32,
            disk.super_block.s_root.wf(),
            disk.super_block.s_root.f_name@ == Seq::<u8>::empty(),
            disk.super_block.s_root.f_size == 0u32,
            disk.super_block.s_root.f_type == FileType::File,
            disk.super_block.s_root.f_direct@ == Seq::new(DIRECT_PTR_CNT as nat, |i: int| 0u32),
            disk.super_block.s_root.f_indirect == 0u32,
            disk.bit_block_cnt == 0u32,
            disk.next_block == 0u32,
    {
        let mut blocks: Vec<Block> = Vec::new();
        let mut i: u32 = 0;
        while i < BLOCK_COUNT
            invariant
                i <= BLOCK_COUNT,
                blocks@.len() == i,
                forall|k: int|
                    0 <= k < i ==> (#[trigger] blocks@[k]).b_data@.len() == BLOCK_SIZE,
                forall|k: int| 0 <= k < i ==> all_zero((#[trigger] blocks@[k]).b_data@),
                forall|k: int| 0 <= k < i ==> (#[trigger] blocks@[k]).b_type == BlockType::Free,
            decreases BLOCK_COUNT - i,
        {
            blocks.push(Block::new());
            i = i + 1;
        }
        Disk { super_block: SuperBlock::new(0, 0), blocks, bit_block_cnt: 0, next_block: 0 }
    }
}

/// Set the role tag of block `bn`.
fn tag_block(disk: &mut Disk, bn: usize, t: BlockType)
    requires
        old(disk).blocks@.len() == BLOCK_COUNT,
        bn < BLOCK_COUNT,
    ensures
        final(disk).blocks@.len() == BLOCK_COUNT,
        forall|i: int|
            0 <= i < BLOCK_COUNT && i != bn ==> final(disk).blocks@[i] == old(disk).blocks@[i],
        final(disk).blocks@[bn as int].b_data == old(disk).blocks@[bn as int].b_data,
        final(disk).blocks@[bn as int].b_type == t,
        final(disk).super_block == old(disk).super_block,
        final(disk).bit_block_cnt == old(disk).bit_block_cnt,
        final(disk).next_block == old(disk).next_block,
{
    disk.blocks[bn].set_type(t);
}

/// Build a freshly initialized store: block 0 tagged `Boot`, block 1
/// tagged `Super` behind a superblock carrying the magic constant, the
/// total block count and the root directory inode named "/", and block 2
/// the bitmap with one free bit per block index.  The cursor starts just
/// past the reserved blocks.
pub fn init_disk() -> (disk: Disk)
    ensures
        disk.wf(),
        disk.bitmap_fresh(),
        disk.next_block == 2 + disk.bit_block_cnt,
        disk.super_block.s_magic == FS_MAGIC,
        disk.super_block.s_block_cnt == BLOCK_COUNT,
        disk.super_block.s_root.wf(),
        disk.super_block.s_root.f_name@ == seq![47u8],
        disk.super_block.s_root.f_size == 0u32,
        disk.super_block.s_root.f_type == FileType::Directory,
        disk.super_block.s_root.f_indirect == 0u32,
        disk.inode_ok(disk.super_block.s_root),
        all_zero(disk.blocks@[0].b_data@),
        all_zero(disk.blocks@[1].b_data@),
        disk.blocks@[0].b_type == BlockType::Boot,
        disk.blocks@[1].b_type == BlockType::Super,
        disk.blocks@[2].b_type == BlockType::Bitmap,
{
    let mut disk = Disk::new();
    tag_block(&mut disk, 0, BlockType::Boot);
    disk.bit_block_cnt = (BLOCK_COUNT + BLOCK_SIZE_BIT - 1) / BLOCK_SIZE_BIT;
    disk.next_block = 2 + disk.bit_block_cnt;
    tag_block(&mut disk, 2, BlockType::Bitmap);
    let mut j: usize = 0;
    while j < (BLOCK_COUNT / 8) as usize
        invariant
            disk.blocks@.len() == BLOCK_COUNT,
            forall|i: int|
                0 <= i < BLOCK_COUNT ==> (#[trigger] disk.blocks@[i]).b_data@.len() == BLOCK_SIZE,
            disk.bit_block_cnt == 1,
            disk.next_block == 3,
            disk.super_block.s_magic == 0u32,
            j <= BLOCK_COUNT / 8,
            forall|m: int| 0 <= m < j ==> #[trigger] disk.blocks@[2].b_data@[m] == 0xffu8,
            forall|m: int| j <= m < BLOCK_SIZE ==> #[trigger] disk.blocks@[2].b_data@[m] == 0u8,
            forall|i: int|
                0 <= i < BLOCK_COUNT && i != 2 ==> all_zero((#[trigger] disk.blocks@[i]).b_data@),
            disk.blocks@[0].b_type == BlockType::Boot,
            disk.blocks@[2].b_type == BlockType::Bitmap,
        decreases BLOCK_COUNT / 8 - j,
    {
        disk.blocks[2].b_data.set(j, 0xff);
        j = j + 1;
    }
    tag_block(&mut disk, 1, BlockType::Super);
    disk.super_block = SuperBlock::new(FS_MAGIC, BLOCK_COUNT);
    proof {
        reveal_strlit("/");
        assert(("/")@ =~= seq!['/']);
        vstd::utf8::is_ascii_chars_encode_utf8(("/")@);
        assert(("/").spec_bytes() =~= seq![47u8]);
    }
    disk.super_block.s_root.set_name("/");
    disk.super_block.s_root.set_type(FileType::Directory);
    disk
}

/// Allocate the block under the cursor for the given role and advance
/// the cursor; fail once every block is taken.  Allocation never reuses
/// a block, so the handed-out block is still zero-filled.
pub fn next_block(disk: &mut Disk, block_type: BlockType) -> (r: Result<u32, FsError>)
    requires
        old(disk).wf(),
    ensures
        final(disk).wf(),
        final(disk).super_block == old(disk).super_block,
        final(disk).bit_block_cnt == old(disk).bit_block_cnt,
        match r {
            Ok(bn) => {
                &&& bn == old(disk).next_block
                &&& old(disk).next_block < BLOCK_COUNT
                &&& final(disk).next_block == bn + 1
                &&& forall|i: int|
                    0 <= i < BLOCK_COUNT && i != bn ==> final(disk).blocks@[i] == old(disk).blocks@[i]
                &&& final(disk).blocks@[bn as int].b_data == old(disk).blocks@[bn as int].b_data
                &&& all_zero(final(disk).blocks@[bn as int].b_data@)
                &&& final(disk).blocks@[bn as int].b_type == block_type
            },
            Err(e) => {
                &&& e == FsError::CapacityExceeded
                &&& old(disk).next_block == BLOCK_COUNT
                &&& *final(disk) == *old(disk)
            },
        },
{
    if disk.next_block >= BLOCK_COUNT {
        return Err(FsError::CapacityExceeded);
    }
    let bn = disk.next_block;
    tag_block(disk, bn as usize, block_type);
    disk.next_block = bn + 1;
    Ok(bn)
}

/// Look up the physical block holding logical content block `logical`
/// of record `f`: from a direct slot, or from the indirect index block.
pub fn resolve(disk: &Disk, f: &File, logical: u32) -> (bn: u32)
    requires
        disk.wf(),
        f.f_direct@.len() == DIRECT_PTR_CNT,
        logical < MAX_PTR_CNT,
        logical >= DIRECT_PTR_CNT ==> f.f_indirect < BLOCK_COUNT,
    ensures
        bn == resolve_spec(*disk, *f, logical as int),
{
    if logical < DIRECT_PTR_CNT {
        f.get_direct(logical)
    } else {
        let ind = f.get_indirect() as usize;
        get_u32(disk.blocks[ind].b_data.as_slice(), 4 * (logical - DIRECT_PTR_CNT) as usize)
    }
}

/// Store the encoding of record `f` into record slot `slot` of inode-table
/// block `bn`; no other byte of the store changes.
pub fn store_file(disk: &mut Disk, bn: u32, slot: u32, f: &File)
    requires
        old(disk).wf(),
        f.wf(),
        2 < bn < old(disk).next_block,
        slot < FILE_BLOCK_CNT,
    ensures
        final(disk).wf(),
        final(disk).super_block == old(disk).super_block,
        final(disk).bit_block_cnt == old(disk).bit_block_cnt,
        final(disk).next_block == old(disk).next_block,
        forall|i: int|
            0 <= i < BLOCK_COUNT && i != bn ==> final(disk).blocks@[i] == old(disk).blocks@[i],
        final(disk).blocks@[bn as int].b_type == old(disk).blocks@[bn as int].b_type,
        forall|j: int|
            0 <= j < BLOCK_SIZE && !(FILE_STRUCT_SIZE * slot <= j < FILE_STRUCT_SIZE * slot
                + FILE_STRUCT_SIZE) ==> #[trigger] final(disk).blocks@[bn as int].b_data@[j] == old(disk).blocks@[bn as int].b_data@[j],
        forall|j: int|
            0 <= j < FILE_STRUCT_SIZE ==> #[trigger] final(disk).blocks@[bn as int].b_data@[
                FILE_STRUCT_SIZE * slot + j] == inode_bytes(*f)[j],
{
    let bytes = encode_inode(f);
    proof {
        assert(FILE_STRUCT_SIZE == 256 && FILE_BLOCK_CNT == 16);
        assert((FILE_STRUCT_SIZE as usize) * (slot as usize) < 4096);
    }
    let base: usize = FILE_STRUCT_SIZE as usize * slot as usize;
    let bnu = bn as usize;
    let mut j: usize = 0;
    while j < FILE_STRUCT_SIZE as usize
        invariant
            disk.blocks@.len() == BLOCK_COUNT,
            forall|i: int|
                0 <= i < BLOCK_COUNT ==> (#[trigger] disk.blocks@[i]).b_data@.len() == BLOCK_SIZE,
            disk.bit_block_cnt == old(disk).bit_block_cnt,
            disk.super_block == old(disk).super_block,
            disk.next_block == old(disk).next_block,
            3 <= disk.next_block <= BLOCK_COUNT,
            bnu == bn && 2 < bn < disk.next_block,
            base == FILE_STRUCT_SIZE * slot && slot < FILE_BLOCK_CNT,
            bytes@ == inode_bytes(*f),
            bytes@.len() == FILE_STRUCT_SIZE,
            j <= FILE_STRUCT_SIZE,
            forall|i: int|
                0 <= i < BLOCK_COUNT && i != bn ==> disk.blocks@[i] == old(disk).blocks@[i],
            disk.blocks@[bn as int].b_type == old(disk).blocks@[bn as int].b_type,
            forall|m: int|
                0 <= m < BLOCK_SIZE && !(base <= m < base + j) ==> #[trigger] disk.blocks@[
                    bn as int].b_data@[m] == old(disk).blocks@[bn as int].b_data@[m],
            forall|m: int|
                0 <= m < j ==> #[trigger] disk.blocks@[bn as int].b_data@[base + m] == bytes@[m],
        decreases FILE_STRUCT_SIZE - j,
    {
        disk.blocks[bnu].b_data.set(base + j, bytes[j]);
        j = j + 1;
    }
}

/// Record that logical content block `block_cnt` of `dir` lives in
/// physical block `block_number`: in a direct slot below `DIRECT_PTR_CNT`,
/// otherwise in the indirect index block, which is allocated on first use.
/// Fails once the logical index passes the direct plus indirect capacity,
/// or when the index block cannot be allocated.
pub fn save_block_link(disk: &mut Disk, dir: &mut File, block_cnt: u32, block_number: u32) -> (r:
    Result<(), FsError>)
    requires
        old(disk).wf(),
        old(dir).f_direct@.len() == DIRECT_PTR_CNT,
        old(dir).f_indirect == 0 || 2 < old(dir).f_indirect < old(disk).next_block,
    ensures
        final(disk).wf(),
        final(disk).super_block == old(disk).super_block,
        final(disk).bit_block_cnt == old(disk).bit_block_cnt,
        final(dir).f_name == old(dir).f_name,
        final(dir).f_size == old(dir).f_size,
        final(dir).f_type == old(dir).f_type,
        r.is_ok() <==> block_cnt < MAX_PTR_CNT && !(block_cnt >= DIRECT_PTR_CNT && old(dir).f_indirect == 0 && old(disk).next_block == BLOCK_COUNT),
        match r {
            Ok(()) => {
                &&& resolve_spec(*final(disk), *final(dir), block_cnt as int) == block_number
                &&& link_keeps(*old(disk), *old(dir), *final(disk), *final(dir), block_cnt as int)
                &&& (block_cnt < DIRECT_PTR_CNT ==> {
                    &&& *final(disk) == *old(disk)
                    &&& final(dir).f_direct@ == old(dir).f_direct@.update(
                        block_cnt as int,
                        block_number,
                    )
                    &&& final(dir).f_indirect == old(dir).f_indirect
                })
                &&& (block_cnt >= DIRECT_PTR_CNT ==> {
                    &&& final(dir).f_direct == old(dir).f_direct
                    &&& final(dir).f_indirect == (if old(dir).f_indirect != 0 {
                        old(dir).f_indirect
                    } else {
                        old(disk).next_block
                    })
                    &&& 2 < final(dir).f_indirect < final(disk).next_block
                    &&& final(disk).next_block == (if old(dir).f_indirect != 0 {
                        old(disk).next_block as int
                    } else {
                        old(disk).next_block + 1
                    })
                    &&& forall|i: int|
                        0 <= i < BLOCK_COUNT && i != final(dir).f_indirect
                            ==> final(disk).blocks@[i] == old(disk).blocks@[i]
                    &&& final(disk).blocks@[final(dir).f_indirect as int].b_type == (if old(
                        dir,
                    ).f_indirect != 0 {
                        old(disk).blocks@[old(dir).f_indirect as int].b_type
                    } else {
                        BlockType::IndirectIndex
                    })
                    &&& forall|j: int|
                        0 <= j < BLOCK_SIZE && !(4 * (block_cnt - DIRECT_PTR_CNT) <= j < 4 * (
                        block_cnt - DIRECT_PTR_CNT) + 4) ==> #[trigger] final(disk).blocks@[
                            final(dir).f_indirect as int].b_data@[j] == (if old(dir).f_indirect
                            != 0 {
                            old(disk).blocks@[old(dir).f_indirect as int].b_data@[j]
                        } else {
                            0u8
                        })
                })
            },
            Err(e) => {
                &&& e == FsError::CapacityExceeded
                &&& *final(disk) == *old(disk)
                &&& *final(dir) == *old(dir)
            },
        },
{
    if block_cnt >= MAX_PTR_CNT {
        return Err(FsError::CapacityExceeded);
    }
    if block_cnt < DIRECT_PTR_CNT {
        dir.set_direct(block_cnt, block_number);
        return Ok(());
    }
    if dir.get_indirect() == 0 {
        let nb = match next_block(disk, BlockType::IndirectIndex) {
            Ok(b) => b,
            Err(e) => {
                return Err(e);
            },
        };
        dir.set_indirect(nb);
    }
    let ind = dir.get_indirect() as usize;
    let off: usize = 4 * (block_cnt - DIRECT_PTR_CNT) as usize;
    put_u32(&mut disk.blocks[ind].b_data, off, block_number);
    proof {
        let d1 = *disk;
        let f1 = *dir;
        let d0 = *old(disk);
        let f0 = *old(dir);
        assert(resolve_spec(d1, f1, block_cnt as int) == block_number);
        assert forall|k: int| 0 <= k < MAX_PTR_CNT && k != block_cnt implies #[trigger]
            resolve_spec(d1, f1, k) == (if block_cnt >= DIRECT_PTR_CNT && f0.f_indirect == 0
            && k >= DIRECT_PTR_CNT {
            0u32
        } else {
            resolve_spec(d0, f0, k)
        }) by {
            if k >= DIRECT_PTR_CNT {
                let ko = 4 * (k - DIRECT_PTR_CNT);
                let data1 = d1.blocks@[f1.f_indirect as int].b_data@;
                assert(ko + 4 <= off || off + 4 <= ko);
                if f0.f_indirect != 0 {
                    let data0 = d0.blocks@[f0.f_indirect as int].b_data@;
                    assert(data1[ko] == data0[ko] && data1[ko + 1] == data0[ko + 1] && data1[ko
                        + 2] == data0[ko + 2] && data1[ko + 3] == data0[ko + 3]);
                } else {
                    crate::codec::lemma_le_u32_zero(data1, ko);
                }
            }
        }
        assert(link_keeps(d0, f0, d1, f1, block_cnt as int));
    }
    Ok(())
}

/// Grow `dir` by one freshly allocated inode-table block: allocate it,
/// link it at the next logical index, and grow the directory's size by
/// one block.
pub fn make_link_block(disk: &mut Disk, dir: &mut File, block_cnt: u32) -> (r: Result<
    u32,
    FsError,
>)
    requires
        old(disk).wf(),
        old(dir).f_direct@.len() == DIRECT_PTR_CNT,
        old(dir).f_size as int == block_cnt as int * BLOCK_SIZE as int,
        old(dir).f_indirect == 0 || 2 < old(dir).f_indirect < old(disk).next_block,
    ensures
        final(disk).wf(),
        final(disk).super_block == old(disk).super_block,
        final(disk).bit_block_cnt == old(disk).bit_block_cnt,
        final(disk).next_block >= old(disk).next_block,
        final(dir).f_name == old(dir).f_name,
        final(dir).f_type == old(dir).f_type,
        forall|x: int| 0 <= x < 3 ==> final(disk).blocks@[x] == old(disk).blocks@[x],
        r.is_ok() <==> block_cnt < MAX_PTR_CNT && old(disk).next_block + 1 + (if block_cnt
            >= DIRECT_PTR_CNT && old(dir).f_indirect == 0 {
            1int
        } else {
            0int
        }) <= BLOCK_COUNT,
        match r {
            Ok(bn) => {
                &&& bn == old(disk).next_block
                &&& 2 < bn < final(disk).next_block
                &&& final(disk).next_block == old(disk).next_block + 1 + (if block_cnt
                    >= DIRECT_PTR_CNT && old(dir).f_indirect == 0 {
                    1int
                } else {
                    0int
                })
                &&& final(dir).f_size == old(dir).f_size + BLOCK_SIZE
                &&& final(dir).f_direct@.len() == DIRECT_PTR_CNT
                &&& final(dir).f_indirect == (if block_cnt < DIRECT_PTR_CNT {
                    old(dir).f_indirect as int
                } else if old(dir).f_indirect != 0 {
                    old(dir).f_indirect as int
                } else {
                    old(disk).next_block + 1
                })
                &&& (block_cnt >= DIRECT_PTR_CNT ==> 2 < final(dir).f_indirect
                    < final(disk).next_block)
                &&& resolve_spec(*final(disk), *final(dir), block_cnt as int) == bn
                &&& link_keeps(*old(disk), *old(dir), *final(disk), *final(dir), block_cnt as int)
                &&& all_zero(final(disk).blocks@[bn as int].b_data@)
                &&& final(disk).blocks@[bn as int].b_type == BlockType::InodeTable
                &&& forall|i: int|
                    0 <= i < BLOCK_COUNT && i != bn && (i != final(dir).f_indirect || final(dir).f_indirect == 0) ==> final(disk).blocks@[i] == old(disk).blocks@[i]
            },
            Err(e) => {
                &&& e == FsError::CapacityExceeded
                &&& *final(dir) == *old(dir)
            },
        },
{
    let bn = match next_block(disk, BlockType::InodeTable) {
        Ok(b) => b,
        Err(e) => {
            return Err(e);
        },
    };
    let ghost dalloc = *disk;
    match save_block_link(disk, dir, block_cnt, bn) {
        Ok(()) => {},
        Err(e) => {
            return Err(e);
        },
    }
    let ghost mid = *dir;
    let ghost dmid = *disk;
    let sz = dir.get_size();
    dir.set_size(sz + BLOCK_SIZE);
    proof {
        let f0 = *old(dir);
        assert(resolve_spec(*disk, *dir, block_cnt as int) == resolve_spec(
            dmid,
            mid,
            block_cnt as int,
        ));
        assert forall|k: int| 0 <= k < MAX_PTR_CNT && k != block_cnt implies #[trigger]
            resolve_spec(*disk, *dir, k) == (if block_cnt >= DIRECT_PTR_CNT && f0.f_indirect == 0
            && k >= DIRECT_PTR_CNT {
            0u32
        } else {
            resolve_spec(*old(disk), *old(dir), k)
        }) by {
            assert(resolve_spec(*disk, *dir, k) == resolve_spec(dmid, mid, k));
            assert(resolve_spec(dmid, mid, k) == (if block_cnt >= DIRECT_PTR_CNT && f0.f_indirect
                == 0 && k >= DIRECT_PTR_CNT {
                0u32
            } else {
                resolve_spec(dalloc, f0, k)
            }));
            if !(block_cnt >= DIRECT_PTR_CNT && f0.f_indirect == 0 && k >= DIRECT_PTR_CNT) {
                if k >= DIRECT_PTR_CNT {
                    let ind = f0.f_indirect as int;
                    assert(dalloc.blocks@[ind] == old(disk).blocks@[ind]);
                }
                assert(resolve_spec(dalloc, f0, k) == resolve_spec(*old(disk), *old(dir), k));
            }
        }
        assert(link_keeps(*old(disk), *old(dir), *disk, *dir, block_cnt as int));
    }
    Ok(bn)
}

/// Content chunk `k` of `data`: one block's worth of bytes starting at
/// offset `BLOCK_SIZE * k`, zero-padded past the end of `data`.
pub open spec fn chunk(data: Seq<u8>, k: int) -> Seq<u8> {
    Seq::new(
        BLOCK_SIZE as nat,
        |j: int|
            if BLOCK_SIZE * k + j < data.len() {
                data[BLOCK_SIZE * k + j]
            } else {
                0u8
            },
    )
}

/// The first `n` chunks of `data` in one sequence: `data` zero-padded to
/// `n` whole blocks.
pub open spec fn padded(data: Seq<u8>, n: int) -> Seq<u8> {
    Seq::new(
        (BLOCK_SIZE * n) as nat,
        |j: int|
            if j < data.len() {
                data[j]
            } else {
                0u8
            },
    )
}

/// Resolution and content of a record survive any store change that
/// leaves its index block and its content blocks untouched.
pub proof fn lemma_file_frame(d0: Disk, d1: Disk, f: File, n: int)
    requires
        0 <= f.f_indirect < BLOCK_COUNT,
        d0.blocks@.len() == BLOCK_COUNT,
        d1.blocks@.len() == BLOCK_COUNT,
        d1.blocks@[f.f_indirect as int].b_data@ == d0.blocks@[f.f_indirect as int].b_data@,
        0 <= n <= MAX_PTR_CNT,
        forall|k: int| 0 <= k < n ==> 0 <= #[trigger] resolve_spec(d0, f, k) < BLOCK_COUNT,
        forall|k: int|
            0 <= k < n ==> d1.blocks@[#[trigger] resolve_spec(d0, f, k) as int].b_data@
                == d0.blocks@[resolve_spec(d0, f, k) as int].b_data@,
    ensures
        forall|k: int| 0 <= k < n ==> #[trigger] resolve_spec(d1, f, k) == resolve_spec(d0, f, k),
        file_blocks(d1, f, n) == file_blocks(d0, f, n),
    decreases n,
{
    assert forall|k: int| 0 <= k < n implies #[trigger] resolve_spec(d1, f, k) == resolve_spec(
        d0,
        f,
        k,
    ) by {
        if k >= DIRECT_PTR_CNT {
            assert(d1.blocks@[f.f_indirect as int].b_data@ == d0.blocks@[
                f.f_indirect as int].b_data@);
        }
    }
    if n > 0 {
        lemma_file_frame(d0, d1, f, n - 1);
    }
}

/// The bytes of a record survive any store change that leaves its index
/// block and its content blocks untouched.
pub proof fn lemma_content_frame(d0: Disk, d1: Disk, f: File)
    requires
        0 <= f.f_indirect < BLOCK_COUNT,
        d0.blocks@.len() == BLOCK_COUNT,
        d1.blocks@.len() == BLOCK_COUNT,
        d1.blocks@[f.f_indirect as int].b_data@ == d0.blocks@[f.f_indirect as int].b_data@,
        nblocks_of(f.f_size) <= MAX_PTR_CNT,
        forall|k: int|
            0 <= k < nblocks_of(f.f_size) ==> 0 <= #[trigger] resolve_spec(d0, f, k)
                < BLOCK_COUNT,
        forall|k: int|
            0 <= k < nblocks_of(f.f_size) ==> d1.blocks@[#[trigger] resolve_spec(d0, f, k) as int]
                .b_data@ == d0.blocks@[resolve_spec(d0, f, k) as int].b_data@,
    ensures
        forall|k: int|
            0 <= k < nblocks_of(f.f_size) ==> #[trigger] resolve_spec(d1, f, k) == resolve_spec(
                d0,
                f,
                k,
            ),
        file_content(d1, f) == file_content(d0, f),
{
    lemma_file_frame(d0, d1, f, nblocks_of(f.f_size));
}

/// Concatenating the first `n` chunks of `data` pads it to `n` blocks.
proof fn lemma_file_blocks_chunks(disk: Disk, f: File, data: Seq<u8>, n: int)
    requires
        disk.blocks@.len() == BLOCK_COUNT,
        0 <= n,
        forall|k: int| 0 <= k < n ==> 0 <= #[trigger] resolve_spec(disk, f, k) < BLOCK_COUNT,
        forall|k: int|
            0 <= k < n ==> disk.blocks@[#[trigger] resolve_spec(disk, f, k) as int].b_data@
                == chunk(data, k),
    ensures
        file_blocks(disk, f, n) == padded(data, n),
    decreases n,
{
    if n > 0 {
        lemma_file_blocks_chunks(disk, f, data, n - 1);
        assert(padded(data, n - 1) + chunk(data, n - 1) =~= padded(data, n));
    } else {
        assert(file_blocks(disk, f, n) =~= padded(data, 0));
    }
}

/// A record whose content blocks each hold their chunk of `data`, and
/// whose size is the length of `data`, reads back as exactly `data`.
pub proof fn lemma_chunks_content(disk: Disk, f: File, data: Seq<u8>)
    requires
        disk.blocks@.len() == BLOCK_COUNT,
        f.f_size == data.len(),
        forall|k: int|
            0 <= k < nblocks_of(f.f_size) ==> 0 <= #[trigger] resolve_spec(disk, f, k)
                < BLOCK_COUNT,
        forall|k: int|
            0 <= k < nblocks_of(f.f_size) ==> disk.blocks@[#[trigger] resolve_spec(disk, f, k) as int].b_data@
                == chunk(data, k),
    ensures
        file_content(disk, f) == data,
{
    let n = nblocks_of(f.f_size);
    lemma_file_blocks_chunks(disk, f, data, n);
    assert(BLOCK_SIZE * n >= data.len());
    assert(padded(data, n).take(data.len() as int) =~= data);
}

/// The first free record slot at or after slot `s` of one inode-table
/// block: a slot is free when its name field starts with the terminator.
pub open spec fn find_in_block(data: Seq<u8>, s: int) -> Option<int>
    decreases FILE_BLOCK_CNT - s,
{
    if s < 0 || s >= FILE_BLOCK_CNT {
        None
    } else if data[FILE_STRUCT_SIZE * s] == 0u8 {
        Some(s)
    } else {
        find_in_block(data, s + 1)
    }
}

/// The first free record slot in the content blocks of directory `f`,
/// scanning logical blocks from `k` on: the physical block it lies in
/// and its slot index.
pub open spec fn find_slot(disk: Disk, f: File, k: int) -> Option<(u32, u32)>
    decreases nblocks_of(f.f_size) - k,
{
    if k < 0 || k >= nblocks_of(f.f_size) {
        None
    } else {
        match find_in_block(disk.blocks@[resolve_spec(disk, f, k) as int].b_data@, 0) {
            Some(s) => Some((resolve_spec(disk, f, k), s as u32)),
            None => find_slot(disk, f, k + 1),
        }
    }
}

/// No free slot at or after `s` means every slot from `s` on is occupied.
proof fn lemma_find_in_block_none(data: Seq<u8>, s: int)
    requires
        0 <= s,
    ensures
        find_in_block(data, s) is None <==> forall|j: int|
            s <= j < FILE_BLOCK_CNT ==> #[trigger] data[FILE_STRUCT_SIZE * j] != 0u8,
    decreases FILE_BLOCK_CNT - s,
{
    if s < FILE_BLOCK_CNT {
        lemma_find_in_block_none(data, s + 1);
    }
}

/// Directory capacity: a directory holding a single inode-table block is
/// grown by the slot allocator exactly when all sixteen record slots of
/// that block are occupied; while any slot is free, the directory keeps
/// its one block.
pub proof fn lemma_directory_capacity(disk: Disk, f: File)
    requires
        disk.wf(),
        disk.inode_ok(f),
        nblocks_of(f.f_size) == 1,
    ensures
        find_slot(disk, f, 0) is None <==> forall|s: int|
            0 <= s < FILE_BLOCK_CNT ==> #[trigger] disk.blocks@[resolve_spec(disk, f, 0) as int].b_data@[
                FILE_STRUCT_SIZE * s] != 0u8,
{
    let data = disk.blocks@[resolve_spec(disk, f, 0) as int].b_data@;
    lemma_find_in_block_none(data, 0);
    if find_in_block(data, 0) is Some {
        assert(find_slot(disk, f, 0) is Some);
    } else {
        assert(find_slot(disk, f, 0) == find_slot(disk, f, 1));
        assert(find_slot(disk, f, 1) is None);
    }
}

/// The first byte of record slot `j` of directory `t`: the head of the
/// stored name, 0 when the slot is free.
pub open spec fn slot_head(disk: Disk, t: File, j: int) -> u8 {
    disk.blocks@[resolve_spec(disk, t, j / FILE_BLOCK_CNT as int) as int].b_data@[FILE_STRUCT_SIZE
        * (j % FILE_BLOCK_CNT as int)]
}

/// Directory `t` filled in order with `n` records: exactly enough
/// inode-table blocks for them, the first `n` slots occupied, every
/// later slot still free.
pub open spec fn dir_filled(disk: Disk, t: File, n: int) -> bool {
    &&& nblocks_of(t.f_size) == (n + FILE_BLOCK_CNT - 1) / FILE_BLOCK_CNT as int
    &&& forall|j: int| 0 <= j < n ==> #[trigger] slot_head(disk, t, j) != 0u8
    &&& forall|j: int|
        n <= j < FILE_BLOCK_CNT * nblocks_of(t.f_size) ==> #[trigger] slot_head(disk, t, j)
            == 0u8
}

/// Slot `m` free with every slot from `s` before it occupied: the scan
/// finds `m`.
proof fn lemma_find_in_block_first(data: Seq<u8>, s: int, m: int)
    requires
        0 <= s <= m < FILE_BLOCK_CNT,
        data[FILE_STRUCT_SIZE * m] == 0u8,
        forall|j: int| s <= j < m ==> #[trigger] data[FILE_STRUCT_SIZE * j] != 0u8,
    ensures
        find_in_block(data, s) == Some(m),
    decreases m - s,
{
    if s < m {
        lemma_find_in_block_first(data, s + 1, m);
    }
}

/// In a directory filled in order with `n` records, the scan from block
/// `k` finds slot `n` — or nothing once every slot is taken.
proof fn lemma_find_slot_filled_from(disk: Disk, t: File, n: int, k: int)
    requires
        disk.wf(),
        disk.inode_ok(t),
        dir_filled(disk, t, n),
        0 <= n,
        0 <= k <= nblocks_of(t.f_size),
        FILE_BLOCK_CNT * k <= n,
    ensures
        find_slot(disk, t, k) == (if n < FILE_BLOCK_CNT * nblocks_of(t.f_size) {
            Some(
                (
                    resolve_spec(disk, t, n / FILE_BLOCK_CNT as int),
                    (n % FILE_BLOCK_CNT as int) as u32,
                ),
            )
        } else {
            None::<(u32, u32)>
        }),
    decreases nblocks_of(t.f_size) - k,
{
    let nb = nblocks_of(t.f_size);
    if k == nb {
        assert(n >= FILE_BLOCK_CNT * nb);
    } else {
        let data = disk.blocks@[resolve_spec(disk, t, k) as int].b_data@;
        assert forall|sj: int| 0 <= sj < FILE_BLOCK_CNT && FILE_BLOCK_CNT * k + sj < n implies
            #[trigger] data[FILE_STRUCT_SIZE * sj] != 0u8 by {
            let j = FILE_BLOCK_CNT * k + sj;
            assert(j / FILE_BLOCK_CNT as int == k && j % FILE_BLOCK_CNT as int == sj);
            assert(slot_head(disk, t, j) != 0u8);
        }
        if n >= FILE_BLOCK_CNT * (k + 1) {
            assert forall|sj: int| 0 <= sj < FILE_BLOCK_CNT implies #[trigger] data[
                FILE_STRUCT_SIZE * sj] != 0u8 by {
                assert(FILE_BLOCK_CNT * k + sj < n);
            }
            lemma_find_in_block_none(data, 0);
            lemma_find_slot_filled_from(disk, t, n, k + 1);
        } else {
            let m = n - FILE_BLOCK_CNT * k;
            assert(n / FILE_BLOCK_CNT as int == k && n % FILE_BLOCK_CNT as int == m);
            assert(n < FILE_BLOCK_CNT * nb);
            assert(slot_head(disk, t, n) == 0u8);
            assert(data[FILE_STRUCT_SIZE * m] == 0u8);
            lemma_find_in_block_first(data, 0, m);
        }
    }
}

/// A found slot lies in one of the directory's own content blocks.
proof fn lemma_find_slot_resolve(disk: Disk, f: File, k: int)
    requires
        0 <= k,
        find_slot(disk, f, k) is Some,
    ensures
        exists|k0: int|
            k <= k0 < nblocks_of(f.f_size) && #[trigger] resolve_spec(disk, f, k0) == find_slot(
                disk,
                f,
                k,
            ).unwrap().0,
    decreases nblocks_of(f.f_size) - k,
{
    if find_in_block(disk.blocks@[resolve_spec(disk, f, k) as int].b_data@, 0) is Some {
        assert(resolve_spec(disk, f, k) == find_slot(disk, f, k).unwrap().0);
    } else {
        lemma_find_slot_resolve(disk, f, k + 1);
    }
}

/// Find the first free inode-record slot in directory `dir`, scanning its
/// content blocks in logical order; when every slot is taken (or the
/// directory has no content block yet), allocate and link a fresh
/// inode-table block and hand out its slot 0, growing the directory by
/// one block.
pub fn create_file(disk: &mut Disk, dir: &mut File) -> (r: Result<(u32, u32), FsError>)
    requires
        old(disk).wf(),
        old(disk).inode_ok(*old(dir)),
        old(dir).f_size % BLOCK_SIZE == 0,
    ensures
        final(disk).wf(),
        final(disk).super_block == old(disk).super_block,
        final(disk).bit_block_cnt == old(disk).bit_block_cnt,
        final(disk).next_block >= old(disk).next_block,
        final(dir).f_name == old(dir).f_name,
        final(dir).f_type == old(dir).f_type,
        forall|x: int| 0 <= x < 3 ==> final(disk).blocks@[x] == old(disk).blocks@[x],
        r.is_ok() <==> find_slot(*old(disk), *old(dir), 0).is_some() || (nblocks_of(
            old(dir).f_size,
        ) < MAX_PTR_CNT && old(disk).next_block + 1 + (if nblocks_of(old(dir).f_size)
            >= DIRECT_PTR_CNT && old(dir).f_indirect == 0 {
            1int
        } else {
            0int
        }) <= BLOCK_COUNT),
        match r {
            Ok((bn, slot)) => {
                &&& slot < FILE_BLOCK_CNT
                &&& 2 < bn < final(disk).next_block
                &&& bn != final(dir).f_indirect
                &&& (final(dir).f_indirect == old(dir).f_indirect || final(dir).f_indirect >= old(disk).next_block)
                &&& forall|k: int|
                    0 <= k < nblocks_of(old(dir).f_size) ==> #[trigger] resolve_spec(
                        *final(disk),
                        *final(dir),
                        k,
                    ) == resolve_spec(*old(disk), *old(dir), k)
                &&& exists|k0: int|
                    0 <= k0 < nblocks_of(final(dir).f_size) && #[trigger] resolve_spec(
                        *final(disk),
                        *final(dir),
                        k0,
                    ) == bn
                &&& (nblocks_of(final(dir).f_size) > nblocks_of(old(dir).f_size) ==> resolve_spec(
                    *final(disk),
                    *final(dir),
                    nblocks_of(old(dir).f_size),
                ) == old(disk).next_block)
                &&& final(disk).inode_ok(*final(dir))
                &&& final(dir).f_size % BLOCK_SIZE == 0
                &&& final(disk).blocks@[bn as int].b_data@[FILE_STRUCT_SIZE * slot] == 0u8
                &&& (match find_slot(*old(disk), *old(dir), 0) {
                    Some(p) => {
                        &&& (bn, slot) == p
                        &&& *final(disk) == *old(disk)
                        &&& *final(dir) == *old(dir)
                    },
                    None => {
                        &&& final(dir).f_size == old(dir).f_size + BLOCK_SIZE
                        &&& bn == old(disk).next_block
                        &&& slot == 0u32
                        &&& all_zero(final(disk).blocks@[bn as int].b_data@)
                        &&& final(disk).blocks@[bn as int].b_type == BlockType::InodeTable
                        &&& resolve_spec(*final(disk), *final(dir), nblocks_of(old(dir).f_size))
                            == bn
                        &&& link_keeps(
                            *old(disk),
                            *old(dir),
                            *final(disk),
                            *final(dir),
                            nblocks_of(old(dir).f_size),
                        )
                        &&& final(disk).next_block == old(disk).next_block + 1 + (if nblocks_of(
                            old(dir).f_size,
                        ) >= DIRECT_PTR_CNT && old(dir).f_indirect == 0 {
                            1int
                        } else {
                            0int
                        })
                        &&& forall|i: int|
                            0 <= i < BLOCK_COUNT && i != bn && (i != final(dir).f_indirect
                                || final(dir).f_indirect == 0) ==> final(disk).blocks@[i] == old(disk).blocks@[i]
                    },
                })
            },
            Err(e) => {
                &&& e == FsError::CapacityExceeded
                &&& *final(dir) == *old(dir)
            },
        },
{
    let block_cnt: u32 = dir.get_size() / BLOCK_SIZE;
    proof {
        assert(block_cnt == nblocks_of(dir.f_size));
    }
    let mut i: u32 = 0;
    while i < block_cnt
        invariant
            disk.wf(),
            disk.inode_ok(*dir),
            *disk == *old(disk),
            *dir == *old(dir),
            dir.f_size % BLOCK_SIZE == 0,
            block_cnt == nblocks_of(dir.f_size),
            i <= block_cnt,
            find_slot(*disk, *dir, 0) == find_slot(*disk, *dir, i as int),
        decreases block_cnt - i,
    {
        let bn = resolve(disk, dir, i);
        let bnu = bn as usize;
        let ghost data = disk.blocks@[bn as int].b_data@;
        let mut j: u32 = 0;
        while j < FILE_BLOCK_CNT
            invariant
                disk.wf(),
                disk.inode_ok(*dir),
                *disk == *old(disk),
                *dir == *old(dir),
                dir.f_size % BLOCK_SIZE == 0,
                block_cnt == nblocks_of(dir.f_size),
                find_slot(*disk, *dir, 0) == find_slot(*disk, *dir, i as int),
                i < nblocks_of(dir.f_size),
                bn == resolve_spec(*disk, *dir, i as int),
                bnu == bn,
                bn < BLOCK_COUNT,
                data == disk.blocks@[bn as int].b_data@,
                j <= FILE_BLOCK_CNT,
                find_in_block(data, 0) == find_in_block(data, j as int),
            decreases FILE_BLOCK_CNT - j,
        {
            if disk.blocks[bnu].b_data[(FILE_STRUCT_SIZE * j) as usize] == 0 {
                proof {
                    assert(find_in_block(data, j as int) == Some(j as int));
                    assert(find_slot(*disk, *dir, i as int) == Some((bn, j)));
                    lemma_find_slot_resolve(*disk, *dir, 0);
                }
                return Ok((bn, j));
            }
            j = j + 1;
        }
        proof {
            assert(find_in_block(data, FILE_BLOCK_CNT as int) is None);
            assert(find_slot(*disk, *dir, i as int) == find_slot(*disk, *dir, i + 1));
        }
        i = i + 1;
    }
    proof {
        assert(find_slot(*disk, *dir, block_cnt as int) is None);
    }
    let bn = match make_link_block(disk, dir, block_cnt) {
        Ok(b) => b,
        Err(e) => {
            return Err(e);
        },
    };
    proof {
        let d1 = *disk;
        let f1 = *dir;
        let d0 = *old(disk);
        let f0 = *old(dir);
        assert(nblocks_of(f1.f_size) == block_cnt + 1);
        assert(all_zero(d1.blocks@[bn as int].b_data@));
        assert(d1.blocks@[bn as int].b_data@[FILE_STRUCT_SIZE * 0] == 0u8);
        assert forall|k: int| 0 <= k < nblocks_of(f1.f_size) implies 2 < #[trigger] resolve_spec(
            d1,
            f1,
            k,
        ) < d1.next_block && resolve_spec(d1, f1, k) != f1.f_indirect by {
            if k < block_cnt {
                assert(resolve_spec(d1, f1, k) == (if block_cnt >= DIRECT_PTR_CNT && f0.f_indirect
                    == 0 && k >= DIRECT_PTR_CNT {
                    0u32
                } else {
                    resolve_spec(d0, f0, k)
                }));
                assert(2 < resolve_spec(d0, f0, k) < d0.next_block && resolve_spec(d0, f0, k)
                    != f0.f_indirect);
            }
        }
        assert(d1.inode_ok(f1));
    }
    Ok((bn, 0))
}

/// No zero byte anywhere in `s`.
pub open spec fn nul_free(s: Seq<u8>) -> bool {
    forall|i: int| 0 <= i < s.len() ==> s[i] != 0u8
}

/// Content blocks needed for `len` bytes, given as a plain count.
pub open spec fn nblocks_len(len: int) -> int {
    (len + BLOCK_SIZE - 1) / BLOCK_SIZE as int
}

/// Blocks a file of `len` bytes consumes: its content blocks, plus the
/// index block once the direct slots run out.
pub open spec fn data_growth(len: int) -> int {
    nblocks_len(len) + if nblocks_len(len) > DIRECT_PTR_CNT {
        1int
    } else {
        0int
    }
}

/// Blocks taking one inode slot in directory `f` consumes: none when a
/// free slot exists, else a fresh table block plus, at the direct-pointer
/// boundary, the directory's index block.
pub open spec fn dir_growth(disk: Disk, f: File) -> int {
    if find_slot(disk, f, 0) is Some {
        0int
    } else {
        1int + if nblocks_of(f.f_size) >= DIRECT_PTR_CNT && f.f_indirect == 0 {
            1int
        } else {
            0int
        }
    }
}

/// Record slot `slot` of inode-table block `bn` holds the encoding of `t`.
pub open spec fn stored_record(disk: Disk, bn: u32, slot: u32, t: File) -> bool {
    forall|j: int|
        0 <= j < FILE_STRUCT_SIZE ==> #[trigger] disk.blocks@[bn as int].b_data@[FILE_STRUCT_SIZE
            * slot + j] == inode_bytes(t)[j]
}

/// Resolution of a record's logical blocks survives any store change that
/// leaves its index block's bytes untouched.
pub proof fn lemma_resolve_frame(d0: Disk, d1: Disk, f: File)
    requires
        0 <= f.f_indirect < BLOCK_COUNT,
        d0.blocks@.len() == BLOCK_COUNT,
        d1.blocks@.len() == BLOCK_COUNT,
        d1.blocks@[f.f_indirect as int].b_data@ == d0.blocks@[f.f_indirect as int].b_data@,
    ensures
        forall|k: int|
            0 <= k < MAX_PTR_CNT ==> #[trigger] resolve_spec(d1, f, k) == resolve_spec(d0, f, k),
{
    assert forall|k: int| 0 <= k < MAX_PTR_CNT implies #[trigger] resolve_spec(d1, f, k)
        == resolve_spec(d0, f, k) by {
        if k >= DIRECT_PTR_CNT {
            assert(d1.blocks@[f.f_indirect as int].b_data@ == d0.blocks@[
                f.f_indirect as int].b_data@);
        }
    }
}

/// Fill freshly allocated block `bn` with content chunk `i`: the final
/// partial chunk stays zero-padded because the block starts zeroed.
fn fill_block(disk: &mut Disk, bn: u32, content: &[u8], i: u32)
    requires
        old(disk).wf(),
        2 < bn < old(disk).next_block,
        all_zero(old(disk).blocks@[bn as int].b_data@),
        i as int * BLOCK_SIZE < content@.len(),
        content@.len() <= MAX_FILE_SIZE,
    ensures
        final(disk).wf(),
        final(disk).super_block == old(disk).super_block,
        final(disk).bit_block_cnt == old(disk).bit_block_cnt,
        final(disk).next_block == old(disk).next_block,
        forall|x: int|
            0 <= x < BLOCK_COUNT && x != bn ==> final(disk).blocks@[x] == old(disk).blocks@[x],
        final(disk).blocks@[bn as int].b_type == old(disk).blocks@[bn as int].b_type,
        final(disk).blocks@[bn as int].b_data@ == chunk(content@, i as int),
{
    let len: usize = content.len();
    let start: usize = i as usize * BLOCK_SIZE as usize;
    let stop: usize = if start + BLOCK_SIZE as usize <= len {
        start + BLOCK_SIZE as usize
    } else {
        len
    };
    let bnu = bn as usize;
    let mut j: usize = start;
    while j < stop
        invariant
            disk.blocks@.len() == BLOCK_COUNT,
            forall|x: int|
                0 <= x < BLOCK_COUNT ==> (#[trigger] disk.blocks@[x]).b_data@.len() == BLOCK_SIZE,
            disk.super_block == old(disk).super_block,
            disk.bit_block_cnt == old(disk).bit_block_cnt,
            disk.next_block == old(disk).next_block,
            3 <= disk.next_block <= BLOCK_COUNT,
            forall|x: int|
                disk.next_block <= x < BLOCK_COUNT ==> all_zero((#[trigger] disk.blocks@[x]).b_data@),
            bnu == bn && 2 < bn < disk.next_block,
            len == content@.len() && len <= MAX_FILE_SIZE,
            start == i as int * BLOCK_SIZE,
            start < len,
            stop == (if start + BLOCK_SIZE <= len {
                start + BLOCK_SIZE as int
            } else {
                len as int
            }),
            start <= j <= stop,
            forall|x: int|
                0 <= x < BLOCK_COUNT && x != bn ==> disk.blocks@[x] == old(disk).blocks@[x],
            disk.blocks@[bn as int].b_type == old(disk).blocks@[bn as int].b_type,
            forall|m: int|
                0 <= m < j - start ==> #[trigger] disk.blocks@[bn as int].b_data@[m] == content@[
                    start + m],
            forall|m: int|
                j - start <= m < BLOCK_SIZE ==> #[trigger] disk.blocks@[bn as int].b_data@[m]
                    == 0u8,
        decreases stop - j,
    {
        disk.blocks[bnu].b_data.set(j - start, content[j]);
        j = j + 1;
    }
    proof {
        assert(disk.blocks@[bn as int].b_data@ =~= chunk(content@, i as int));
    }
}

impl Disk {
    /// Write one host file into the image: take a free inode slot in
    /// `dir` (growing the directory when every slot is taken), fill
    /// freshly allocated `Data` blocks with `content` and link each at
    /// its logical index, then store the completed record — named,
    /// typed `File`, sized to the content — into its slot.  Returns the
    /// inode-table block and slot index of the new record.
    ///
    /// Reading the record back block by block reproduces `content`
    /// exactly, zero padding included; logical block `k` lands in the
    /// `k`-th freshly allocated `Data` block, so the pointers are
    /// distinct and in allocation order; and the indirect slot stays 0
    /// exactly as long as the direct pointers suffice.  The build is
    /// guaranteed to succeed whenever the name and size fit and enough
    /// blocks remain.
    pub fn write_file(&mut self, dir: &mut File, name: &str, content: &[u8]) -> (r: Result<
        (u32, u32),
        FsError,
    >)
        requires
            old(self).wf(),
            old(self).inode_ok(*old(dir)),
            old(dir).f_size % BLOCK_SIZE == 0,
        ensures
            final(self).wf(),
            final(self).super_block == old(self).super_block,
            final(self).bit_block_cnt == old(self).bit_block_cnt,
            final(self).next_block >= old(self).next_block,
            forall|x: int| 0 <= x < 3 ==> final(self).blocks@[x] == old(self).blocks@[x],
            final(dir).f_name == old(dir).f_name,
            final(dir).f_type == old(dir).f_type,
            r == Err::<(u32, u32), FsError>(FsError::NameTooLong) <==> name.spec_bytes().len()
                >= MAX_NAME_LEN,
            r == Err::<(u32, u32), FsError>(FsError::BadName) <==> name.spec_bytes().len()
                < MAX_NAME_LEN && !(0 < name.spec_bytes().len() && nul_free(name.spec_bytes())),
            (0 < name.spec_bytes().len() < MAX_NAME_LEN && nul_free(name.spec_bytes())
                && content@.len() <= MAX_FILE_SIZE && nblocks_of(old(dir).f_size) < MAX_PTR_CNT
                && old(self).next_block + dir_growth(*old(self), *old(dir)) + data_growth(
                content@.len() as int,
            ) <= BLOCK_COUNT) ==> r.is_ok(),
            match r {
                Ok((bn, slot)) => {
                    &&& slot < FILE_BLOCK_CNT
                    &&& 2 < bn < final(self).next_block
                    &&& 0 < name.spec_bytes().len() < MAX_NAME_LEN
                    &&& nul_free(name.spec_bytes())
                    &&& content@.len() <= MAX_FILE_SIZE
                    &&& (bn, slot) == (match find_slot(*old(self), *old(dir), 0) {
                        Some(p) => p,
                        None => (old(self).next_block, 0u32),
                    })
                    &&& final(self).blocks@[bn as int].b_type == (if find_slot(
                        *old(self),
                        *old(dir),
                        0,
                    ) is Some {
                        old(self).blocks@[bn as int].b_type
                    } else {
                        BlockType::InodeTable
                    })
                    &&& forall|j: int|
                        0 <= j < BLOCK_SIZE && !(FILE_STRUCT_SIZE * slot <= j < FILE_STRUCT_SIZE
                            * slot + FILE_STRUCT_SIZE) ==> #[trigger] final(self).blocks@[
                            bn as int].b_data@[j] == old(self).blocks@[bn as int].b_data@[j]
                    &&& final(self).blocks@[bn as int].b_data@[FILE_STRUCT_SIZE * slot] != 0u8
                    &&& exists|t: File|
                        {
                            &&& #[trigger] stored_record(*final(self), bn, slot, t)
                            &&& t.wf()
                            &&& t.f_name@ == name.spec_bytes()
                            &&& t.f_size == content@.len()
                            &&& t.f_type == FileType::File
                            &&& final(self).inode_ok(t)
                            &&& file_content(*final(self), t) == content@
                            &&& (t.f_indirect == 0u32 <==> content@.len() <= DIRECT_PTR_CNT
                                * BLOCK_SIZE)
                            &&& t.f_indirect == (if nblocks_of(t.f_size) > DIRECT_PTR_CNT {
                                old(self).next_block + dir_growth(*old(self), *old(dir))
                                    + DIRECT_PTR_CNT + 1
                            } else {
                                0int
                            })
                            &&& (nblocks_of(t.f_size) > DIRECT_PTR_CNT ==> final(self).blocks@[
                                t.f_indirect as int].b_type == BlockType::IndirectIndex)
                            &&& forall|k: int|
                                0 <= k < nblocks_of(t.f_size) ==> #[trigger] resolve_spec(
                                    *final(self),
                                    t,
                                    k,
                                ) == old(self).next_block + dir_growth(*old(self), *old(dir)) + k
                                    + (if k > DIRECT_PTR_CNT {
                                    1int
                                } else {
                                    0int
                                })
                            &&& forall|k: int|
                                0 <= k < nblocks_of(t.f_size) ==> final(self).blocks@[
                                    #[trigger] resolve_spec(*final(self), t, k) as int].b_data@
                                    == chunk(content@, k)
                            &&& forall|k: int|
                                0 <= k < nblocks_of(t.f_size) ==> final(self).blocks@[
                                    #[trigger] resolve_spec(*final(self), t, k) as int].b_type
                                    == BlockType::Data
                        }
                    &&& final(self).inode_ok(*final(dir))
                    &&& (final(dir).f_indirect == old(dir).f_indirect || final(dir).f_indirect
                        >= old(self).next_block)
                    &&& forall|x: int|
                        0 <= x < old(self).next_block && x != bn && (x != final(dir).f_indirect
                            || final(dir).f_indirect == 0) ==> final(self).blocks@[x] == old(self).blocks@[x]
                    &&& forall|k: int|
                        0 <= k < nblocks_of(old(dir).f_size) ==> #[trigger] resolve_spec(
                            *final(self),
                            *final(dir),
                            k,
                        ) == resolve_spec(*old(self), *old(dir), k)
                    &&& exists|k0: int|
                        0 <= k0 < nblocks_of(final(dir).f_size) && #[trigger] resolve_spec(
                            *final(self),
                            *final(dir),
                            k0,
                        ) == bn
                    &&& (nblocks_of(final(dir).f_size) > nblocks_of(old(dir).f_size)
                        ==> resolve_spec(
                        *final(self),
                        *final(dir),
                        nblocks_of(old(dir).f_size),
                    ) == old(self).next_block)
                    &&& final(dir).f_size % BLOCK_SIZE == 0
                    &&& final(dir).f_size == old(dir).f_size + (if find_slot(
                        *old(self),
                        *old(dir),
                        0,
                    ) is Some {
                        0int
                    } else {
                        BLOCK_SIZE as int
                    })
                    &&& final(self).next_block == old(self).next_block + dir_growth(
                        *old(self),
                        *old(dir),
                    ) + data_growth(content@.len() as int)
                },
                Err(e) => true,
            },
    {
        let name_bytes = name.as_bytes();
        if name_bytes.len() >= MAX_NAME_LEN as usize {
            return Err(FsError::NameTooLong);
        }
        if name_bytes.len() == 0 {
            return Err(FsError::BadName);
        }
        let mut ni: usize = 0;
        while ni < name_bytes.len()
            invariant
                *self == *old(self),
                *dir == *old(dir),
                old(self).wf(),
                0 < name.spec_bytes().len() < MAX_NAME_LEN,
                name_bytes@ == name.spec_bytes(),
                ni <= name_bytes@.len(),
                forall|x: int| 0 <= x < ni ==> name_bytes@[x] != 0u8,
            decreases name_bytes@.len() - ni,
        {
            if name_bytes[ni] == 0 {
                return Err(FsError::BadName);
            }
            ni = ni + 1;
        }
        if content.len() > MAX_FILE_SIZE as usize {
            proof {
                assert(data_growth(content@.len() as int) > BLOCK_COUNT);
            }
            return Err(FsError::CapacityExceeded);
        }
        let (sbn, slot) = match create_file(self, dir) {
            Ok(p) => p,
            Err(e) => {
                return Err(e);
            },
        };
        let ghost d_slot = *self;
        let ghost f_dir = *dir;
        let mut target = File::new();
        target.set_name(name);
        target.set_type(FileType::File);
        target.set_size(content.len() as u32);
        let len: usize = content.len();
        let block_cnt: u32 = ((len + (BLOCK_SIZE - 1) as usize) / BLOCK_SIZE as usize) as u32;
        proof {
            assert(block_cnt == nblocks_len(len as int));
            assert(block_cnt <= MAX_PTR_CNT);
        }
        let mut i: u32 = 0;
        while i < block_cnt
            invariant
                self.wf(),
                self.super_block == old(self).super_block,
                self.bit_block_cnt == old(self).bit_block_cnt,
                forall|x: int| 0 <= x < 3 ==> self.blocks@[x] == old(self).blocks@[x],
                old(self).wf(),
                d_slot.wf(),
                d_slot.inode_ok(f_dir),
                *dir == f_dir,
                dir.f_size % BLOCK_SIZE == 0,
                d_slot.next_block == old(self).next_block + dir_growth(*old(self), *old(dir)),
                (sbn, slot) == (match find_slot(*old(self), *old(dir), 0) {
                    Some(p) => p,
                    None => (old(self).next_block, 0u32),
                }),
                (if find_slot(*old(self), *old(dir), 0) is Some {
                    d_slot == *old(self)
                } else {
                    all_zero(d_slot.blocks@[sbn as int].b_data@) && d_slot.blocks@[
                        sbn as int].b_type == BlockType::InodeTable
                }),
                dir.f_size == old(dir).f_size + (if find_slot(*old(self), *old(dir), 0) is Some {
                    0int
                } else {
                    BLOCK_SIZE as int
                }),
                dir.f_name == old(dir).f_name,
                dir.f_type == old(dir).f_type,
                slot < FILE_BLOCK_CNT,
                2 < sbn < d_slot.next_block,
                sbn != dir.f_indirect,
                0 < name.spec_bytes().len() < MAX_NAME_LEN,
                nul_free(name.spec_bytes()),
                len == content@.len() && len <= MAX_FILE_SIZE,
                block_cnt == nblocks_len(len as int),
                block_cnt <= MAX_PTR_CNT,
                i <= block_cnt,
                self.next_block == d_slot.next_block + i + (if i > DIRECT_PTR_CNT {
                    1int
                } else {
                    0int
                }),
                target.f_name@ == name.spec_bytes(),
                target.f_size == content@.len(),
                target.f_type == FileType::File,
                target.f_direct@.len() == DIRECT_PTR_CNT,
                i <= DIRECT_PTR_CNT ==> target.f_indirect == 0u32,
                i > DIRECT_PTR_CNT ==> target.f_indirect == d_slot.next_block + DIRECT_PTR_CNT
                    + 1,
                forall|k: int|
                    0 <= k < i ==> #[trigger] resolve_spec(*self, target, k) == d_slot.next_block
                        + k + (if k > DIRECT_PTR_CNT {
                        1int
                    } else {
                        0int
                    }),
                forall|k: int|
                    0 <= k < i ==> self.blocks@[#[trigger] resolve_spec(*self, target, k) as int]
                        .b_data@ == chunk(content@, k),
                forall|k: int|
                    0 <= k < i ==> self.blocks@[#[trigger] resolve_spec(*self, target, k) as int]
                        .b_type == BlockType::Data,
                i > DIRECT_PTR_CNT ==> self.blocks@[target.f_indirect as int].b_type
                    == BlockType::IndirectIndex,
                forall|x: int| 0 <= x < d_slot.next_block ==> self.blocks@[x] == d_slot.blocks@[x],
            decreases block_cnt - i,
        {
            let ghost pre = *self;
            let bn = match next_block(self, BlockType::Data) {
                Ok(b) => b,
                Err(e) => {
                    proof {
                        assert(pre.next_block == BLOCK_COUNT);
                        assert(i + (if i > DIRECT_PTR_CNT {
                            1int
                        } else {
                            0int
                        }) < block_cnt + (if block_cnt > DIRECT_PTR_CNT {
                            1int
                        } else {
                            0int
                        }));
                    }
                    return Err(e);
                },
            };
            proof {
                assert((i as int) * BLOCK_SIZE < len as int);
            }
            fill_block(self, bn, content, i);
            let ghost filled = *self;
            let ghost t_pre = target;
            match save_block_link(self, &mut target, i, bn) {
                Ok(()) => {},
                Err(e) => {
                    proof {
                        assert(i >= DIRECT_PTR_CNT && t_pre.f_indirect == 0 && filled.next_block
                            == BLOCK_COUNT);
                        assert(i == DIRECT_PTR_CNT);
                        assert(block_cnt > DIRECT_PTR_CNT);
                    }
                    return Err(e);
                },
            }
            proof {
                let post = *self;
                let tg = target;
                assert(resolve_spec(post, tg, i as int) == bn);
                assert(bn == d_slot.next_block + i + (if i > DIRECT_PTR_CNT {
                    1int
                } else {
                    0int
                }));
                assert(tg.f_indirect == 0 || tg.f_indirect == d_slot.next_block + DIRECT_PTR_CNT
                    + 1);
                assert(post.blocks@[bn as int].b_data@ == chunk(content@, i as int));
                assert(post.blocks@[bn as int].b_type == BlockType::Data);
                assert(i + 1 > DIRECT_PTR_CNT ==> post.blocks@[tg.f_indirect as int].b_type
                    == BlockType::IndirectIndex);
                assert forall|k: int| 0 <= k < i implies #[trigger] resolve_spec(post, tg, k)
                    == d_slot.next_block + k + (if k > DIRECT_PTR_CNT {
                    1int
                } else {
                    0int
                }) && post.blocks@[resolve_spec(post, tg, k) as int].b_data@ == chunk(
                    content@,
                    k,
                ) && post.blocks@[resolve_spec(post, tg, k) as int].b_type == BlockType::Data by {
                    assert(resolve_spec(post, tg, k) == resolve_spec(filled, t_pre, k));
                    if k >= DIRECT_PTR_CNT {
                        assert(filled.blocks@[t_pre.f_indirect as int].b_data@ == pre.blocks@[
                            t_pre.f_indirect as int].b_data@);
                    }
                    assert(resolve_spec(filled, t_pre, k) == resolve_spec(pre, t_pre, k));
                    let v = resolve_spec(pre, t_pre, k);
                    assert(v == d_slot.next_block + k + (if k > DIRECT_PTR_CNT {
                        1int
                    } else {
                        0int
                    }));
                    assert(pre.blocks@[v as int].b_data@ == chunk(content@, k));
                    assert(pre.blocks@[v as int].b_type == BlockType::Data);
                    assert(v != bn && v != tg.f_indirect);
                    assert(filled.blocks@[v as int] == pre.blocks@[v as int]);
                    assert(post.blocks@[v as int] == filled.blocks@[v as int]);
                }
            }
            i = i + 1;
        }
        let ghost dloop = *self;
        store_file(self, sbn, slot, &target);
        proof {
            let d1 = *self;
            assert(nblocks_of(target.f_size) == block_cnt);
            assert(target.f_indirect == 0 || target.f_indirect == d_slot.next_block
                + DIRECT_PTR_CNT + 1);
            assert(sbn != target.f_indirect);
            assert(d1.blocks@[target.f_indirect as int].b_data@ == dloop.blocks@[
                target.f_indirect as int].b_data@);
            lemma_resolve_frame(dloop, d1, target);
            assert forall|k: int| 0 <= k < nblocks_of(target.f_size) implies 0 <= #[trigger]
                resolve_spec(d1, target, k) < BLOCK_COUNT && d1.blocks@[resolve_spec(
                d1,
                target,
                k,
            ) as int].b_data@ == chunk(content@, k) && 2 < resolve_spec(d1, target, k)
                < d1.next_block && resolve_spec(d1, target, k) != target.f_indirect by {
                let v = resolve_spec(dloop, target, k);
                assert(resolve_spec(d1, target, k) == v);
                assert(v == d_slot.next_block + k + (if k > DIRECT_PTR_CNT {
                    1int
                } else {
                    0int
                }));
                assert(dloop.blocks@[v as int].b_data@ == chunk(content@, k));
                assert(v != sbn);
                assert(d1.blocks@[v as int].b_data@ == dloop.blocks@[v as int].b_data@);
                assert(v != target.f_indirect);
            }
            lemma_chunks_content(d1, target, content@);
            assert(d1.inode_ok(target));
            assert(stored_record(d1, sbn, slot, target));
            assert(inode_bytes(target)[0] == target.f_name@[0]);
            assert(target.f_name@[0] != 0u8);
            assert(d1.blocks@[sbn as int].b_data@[FILE_STRUCT_SIZE * slot + 0] == inode_bytes(
                target,
            )[0]);
            assert(target.f_indirect == 0u32 <==> block_cnt <= DIRECT_PTR_CNT);
            assert(block_cnt <= DIRECT_PTR_CNT <==> content@.len() <= DIRECT_PTR_CNT
                * BLOCK_SIZE);
            assert(f_dir.f_indirect == 0 || 2 < f_dir.f_indirect < d_slot.next_block);
            assert(f_dir.f_indirect != sbn);
            assert(d1.blocks@[f_dir.f_indirect as int].b_data@ == dloop.blocks@[
                f_dir.f_indirect as int].b_data@);
            assert(dloop.blocks@[f_dir.f_indirect as int].b_data@ == d_slot.blocks@[
                f_dir.f_indirect as int].b_data@);
            lemma_resolve_frame(d_slot, d1, f_dir);
            assert forall|k: int| 0 <= k < nblocks_of(f_dir.f_size) implies 2 < #[trigger]
                resolve_spec(d1, f_dir, k) < d1.next_block && resolve_spec(d1, f_dir, k)
                != f_dir.f_indirect by {
                assert(resolve_spec(d1, f_dir, k) == resolve_spec(d_slot, f_dir, k));
            }
            assert(d1.inode_ok(f_dir));
            assert forall|k: int| 0 <= k < nblocks_of(old(dir).f_size) implies #[trigger]
                resolve_spec(d1, f_dir, k) == resolve_spec(*old(self), *old(dir), k) by {
                assert(resolve_spec(d1, f_dir, k) == resolve_spec(d_slot, f_dir, k));
                assert(resolve_spec(d_slot, f_dir, k) == resolve_spec(*old(self), *old(dir), k));
            }
            let k0 = choose|k0: int|
                0 <= k0 < nblocks_of(f_dir.f_size) && #[trigger] resolve_spec(d_slot, f_dir, k0)
                    == sbn;
            assert(resolve_spec(d1, f_dir, k0) == resolve_spec(d_slot, f_dir, k0));
            assert(exists|k0: int|
                0 <= k0 < nblocks_of(f_dir.f_size) && #[trigger] resolve_spec(d1, f_dir, k0)
                    == sbn);
            if nblocks_of(f_dir.f_size) > nblocks_of(old(dir).f_size) {
                let kn = nblocks_of(old(dir).f_size);
                assert(resolve_spec(d1, f_dir, kn) == resolve_spec(d_slot, f_dir, kn));
                assert(resolve_spec(d_slot, f_dir, kn) == old(self).next_block);
            }
            assert forall|x: int|
                0 <= x < old(self).next_block && x != sbn && (x != f_dir.f_indirect
                || f_dir.f_indirect == 0) implies d1.blocks@[x] == old(self).blocks@[x] by {
                assert(d1.blocks@[x] == dloop.blocks@[x]);
                assert(dloop.blocks@[x] == d_slot.blocks@[x]);
                assert(d_slot.blocks@[x] == old(self).blocks@[x]);
            }
        }
        Ok((sbn, slot))
    }
}

/// Clearing one bit of a byte leaves every other bit of it unchanged.
proof fn lemma_clear_bit(x: u8, k: u8, j: u8)
    by (bit_vector)
    requires
        k < 8,
        j < 8,
    ensures
        ((x & !(1u8 << k)) >> j) & 1 == (if j == k {
            0u8
        } else {
            (x >> j) & 1
        }),
{
}

/// Every bit of an all-ones byte is set; every bit of a zero byte is
/// clear.
proof fn lemma_byte_bits(j: u8)
    by (bit_vector)
    requires
        j < 8,
    ensures
        (0xffu8 >> j) & 1 == 1u8,
        (0u8 >> j) & 1 == 0u8,
{
}

/// Mark every allocated block used: clear the bitmap bit of each block
/// index below the allocation cursor.  Afterwards the bit for block `b`
/// is 0 exactly when `b` lies below the cursor, and 1 otherwise.
pub fn flush_bitmap(disk: &mut Disk)
    requires
        old(disk).wf(),
        old(disk).bitmap_fresh(),
    ensures
        final(disk).wf(),
        final(disk).super_block == old(disk).super_block,
        final(disk).bit_block_cnt == old(disk).bit_block_cnt,
        final(disk).next_block == old(disk).next_block,
        forall|i: int|
            0 <= i < BLOCK_COUNT && i != 2 ==> final(disk).blocks@[i] == old(disk).blocks@[i],
        final(disk).blocks@[2].b_type == old(disk).blocks@[2].b_type,
        forall|b: int|
            0 <= b < BLOCK_COUNT ==> bitmap_bit(*final(disk), b) == (if b < final(disk).next_block {
                0u8
            } else {
                1u8
            }),
        forall|j: int|
            BLOCK_COUNT / 8 <= j < BLOCK_SIZE ==> final(disk).blocks@[2].b_data@[j] == 0u8,
{
    proof {
        assert forall|b: int| 0 <= b < BLOCK_COUNT implies bitmap_bit(*disk, b) == 1u8 by {
            let jj = (b % 8) as u8;
            assert(disk.blocks@[2].b_data@[b / 8] == 0xffu8);
            lemma_byte_bits(jj);
        }
    }
    let nb = disk.next_block;
    let mut i: u32 = 0;
    while i < nb
        invariant
            disk.blocks@.len() == BLOCK_COUNT,
            forall|x: int|
                0 <= x < BLOCK_COUNT ==> (#[trigger] disk.blocks@[x]).b_data@.len() == BLOCK_SIZE,
            disk.super_block == old(disk).super_block,
            disk.bit_block_cnt == old(disk).bit_block_cnt,
            disk.next_block == old(disk).next_block,
            3 <= disk.next_block <= BLOCK_COUNT,
            forall|x: int|
                disk.next_block <= x < BLOCK_COUNT ==> all_zero((#[trigger] disk.blocks@[x]).b_data@),
            nb == disk.next_block,
            i <= nb,
            forall|x: int|
                0 <= x < BLOCK_COUNT && x != 2 ==> disk.blocks@[x] == old(disk).blocks@[x],
            disk.blocks@[2].b_type == old(disk).blocks@[2].b_type,
            forall|b: int| 0 <= b < i ==> bitmap_bit(*disk, b) == 0u8,
            forall|b: int| i <= b < BLOCK_COUNT ==> bitmap_bit(*disk, b) == 1u8,
            forall|j: int| BLOCK_COUNT / 8 <= j < BLOCK_SIZE ==> disk.blocks@[2].b_data@[j] == 0u8,
        decreases nb - i,
    {
        let ghost pre = *disk;
        let byte_idx: usize = (i / 8) as usize;
        let bit: u8 = (i % 8) as u8;
        let old_byte = disk.blocks[2].b_data[byte_idx];
        proof {
            assert(bit < 8);
            assert(1u8 << bit < 256) by (bit_vector)
                requires
                    bit < 8,
            ;
        }
        let new_byte = old_byte & !(1u8 << bit);
        disk.blocks[2].b_data.set(byte_idx, new_byte);
        proof {
            assert forall|b: int| 0 <= b < BLOCK_COUNT implies bitmap_bit(*disk, b) == (if b < i
                + 1 {
                0u8
            } else {
                1u8
            }) by {
                let jj = (b % 8) as u8;
                assert(jj < 8);
                if b / 8 == byte_idx {
                    assert(disk.blocks@[2].b_data@[b / 8] == new_byte);
                    lemma_clear_bit(old_byte, bit, jj);
                    assert(bitmap_bit(*disk, b) == ((old_byte & !(1u8 << bit)) >> jj) & 1);
                    if b == i {
                        assert(jj == bit);
                        assert(bitmap_bit(*disk, b) == 0u8);
                    } else {
                        assert(b % 8 != i % 8);
                        assert(jj != bit);
                        assert(bitmap_bit(*disk, b) == (old_byte >> jj) & 1);
                        assert(old_byte == pre.blocks@[2].b_data@[b / 8]);
                        assert(bitmap_bit(pre, b) == (old_byte >> jj) & 1);
                    }
                } else {
                    assert(disk.blocks@[2].b_data@[b / 8] == pre.blocks@[2].b_data@[b / 8]);
                    assert(bitmap_bit(*disk, b) == bitmap_bit(pre, b));
                }
            }
        }
        i = i + 1;
    }
}

/// Block `b` as it appears in the output image: block 1 carries the
/// encoded superblock followed by its remaining (zero) bytes; every
/// other block contributes its raw bytes.
pub open spec fn block_out(disk: Disk, b: int) -> Seq<u8> {
    if b == 1 {
        superblock_bytes(disk.super_block) + disk.blocks@[1].b_data@.skip(
            FILE_STRUCT_SIZE + 8,
        )
    } else {
        disk.blocks@[b].b_data@
    }
}

/// The first `n` blocks of the output image, concatenated.
pub open spec fn image_prefix(disk: Disk, n: int) -> Seq<u8>
    decreases n,
{
    if n <= 0 {
        Seq::empty()
    } else {
        image_prefix(disk, n - 1) + block_out(disk, n - 1)
    }
}

/// The whole output image: every block in order.
pub open spec fn image_spec(disk: Disk) -> Seq<u8> {
    image_prefix(disk, BLOCK_COUNT as int)
}

/// The image prefix of `n` blocks holds exactly `n * BLOCK_SIZE` bytes.
pub proof fn lemma_image_prefix_len(disk: Disk, n: int)
    requires
        disk.blocks_sized(),
        0 <= n <= BLOCK_COUNT,
    ensures
        image_prefix(disk, n).len() == n * BLOCK_SIZE,
    decreases n,
{
    if n > 0 {
        lemma_image_prefix_len(disk, n - 1);
    }
}

/// Byte `j` of block `b` of the image is byte `b * BLOCK_SIZE + j` of
/// the output.
pub proof fn lemma_image_index(disk: Disk, n: int, b: int, j: int)
    requires
        disk.blocks_sized(),
        0 <= b < n <= BLOCK_COUNT,
        0 <= j < BLOCK_SIZE,
    ensures
        image_prefix(disk, n)[b * BLOCK_SIZE + j] == block_out(disk, b)[j],
    decreases n,
{
    lemma_image_prefix_len(disk, n - 1);
    if b < n - 1 {
        lemma_image_index(disk, n - 1, b, j);
    }
}

/// Append `src[from .. to]` to `out`.
fn push_bytes(out: &mut Vec<u8>, src: &Vec<u8>, from: usize, to: usize)
    requires
        from <= to <= src@.len(),
        old(out)@.len() + (to - from) <= 0x7fffffff,
    ensures
        final(out)@ == old(out)@ + src@.subrange(from as int, to as int),
{
    let mut j: usize = from;
    while j < to
        invariant
            from <= j <= to <= src@.len(),
            old(out)@.len() + (to - from) <= 0x7fffffff,
            out@ == old(out)@ + src@.subrange(from as int, j as int),
        decreases to - j,
    {
        out.push(src[j]);
        proof {
            assert(out@ =~= old(out)@ + src@.subrange(from as int, j + 1));
        }
        j = j + 1;
    }
}

impl Disk {
    /// Lay the store out as the flat output image: all blocks in order,
    /// `BLOCK_COUNT * BLOCK_SIZE` bytes in total, with the encoded
    /// superblock spliced in at the start of block 1, so the image opens
    /// block 1 with the magic constant.
    pub fn image_bytes(&self) -> (out: Vec<u8>)
        requires
            self.wf(),
            self.super_block.s_root.wf(),
        ensures
            out@ == image_spec(*self),
            out@.len() == BLOCK_COUNT * BLOCK_SIZE,
            le_u32_at(out@, BLOCK_SIZE as int) == self.super_block.s_magic,
            le_u32_at(out@, BLOCK_SIZE + 4) == self.super_block.s_block_cnt,
    {
        let sb = self.super_block.to_bytes();
        let mut out: Vec<u8> = Vec::new();
        let mut b: usize = 0;
        while b < BLOCK_COUNT as usize
            invariant
                self.wf(),
                self.super_block.s_root.wf(),
                sb@ == superblock_bytes(self.super_block),
                sb@.len() == FILE_STRUCT_SIZE + 8,
                b <= BLOCK_COUNT,
                out@.len() == b * BLOCK_SIZE,
                out@ == image_prefix(*self, b as int),
            decreases BLOCK_COUNT - b,
        {
            let ghost pre = out@;
            if b == 1 {
                push_bytes(&mut out, &sb, 0, sb.len());
                push_bytes(&mut out, &self.blocks[1].b_data, (FILE_STRUCT_SIZE + 8) as usize,
                    BLOCK_SIZE as usize);
                proof {
                    assert(sb@.subrange(0, sb@.len() as int) =~= sb@);
                    assert(out@ =~= pre + block_out(*self, 1));
                }
            } else {
                push_bytes(&mut out, &self.blocks[b].b_data, 0, BLOCK_SIZE as usize);
                proof {
                    assert(self.blocks@[b as int].b_data@.subrange(0, BLOCK_SIZE as int)
                        =~= self.blocks@[b as int].b_data@);
                    assert(out@ =~= pre + block_out(*self, b as int));
                }
            }
            b = b + 1;
        }
        proof {
            lemma_image_prefix_len(*self, BLOCK_COUNT as int);
            assert forall|j: int| 0 <= j < 4 implies out@[BLOCK_SIZE + j] == crate::codec::u32_byte(
                self.super_block.s_magic,
                j,
            ) by {
                lemma_image_index(*self, BLOCK_COUNT as int, 1, j);
            }
            crate::codec::lemma_le_u32_at_of_bytes(
                out@,
                BLOCK_SIZE as int,
                self.super_block.s_magic,
            );
            assert forall|j: int| 0 <= j < 4 implies out@[BLOCK_SIZE + 4 + j]
                == crate::codec::u32_byte(self.super_block.s_block_cnt, j) by {
                lemma_image_index(*self, BLOCK_COUNT as int, 1, 4 + j);
            }
            crate::codec::lemma_le_u32_at_of_bytes(
                out@,
                BLOCK_SIZE + 4,
                self.super_block.s_block_cnt,
            );
        }
        out
    }
}

/// One entry of the host tree handed to the builder: a file with its
/// content bytes, or a directory with its entries.
pub enum Entry {
    File { name: String, data: Vec<u8> },
    Dir { name: String, entries: Vec<Entry> },
}

/// Every name in the entry tree fits a record's name field — nonempty,
/// shorter than `MAX_NAME_LEN`, free of zero bytes — and every file fits
/// one inode's pointers.
pub open spec fn entry_ok(e: Entry) -> bool
    decreases e,
{
    match e {
        Entry::File { name, data } => {
            &&& 0 < encode_utf8(name@).len() < MAX_NAME_LEN
            &&& nul_free(encode_utf8(name@))
            &&& data@.len() <= MAX_FILE_SIZE
        },
        Entry::Dir { name, entries } => {
            &&& 0 < encode_utf8(name@).len() < MAX_NAME_LEN
            &&& nul_free(encode_utf8(name@))
            &&& entries_ok(entries@)
        },
    }
}

pub open spec fn entries_ok(es: Seq<Entry>) -> bool
    decreases es,
{
    if es.len() == 0 {
        true
    } else {
        entries_ok(es.drop_last()) && entry_ok(es.last())
    }
}

/// An upper bound on the blocks writing one entry can consume: the
/// file's content and index blocks, or a directory's whole subtree,
/// plus at most two blocks for the entry's own inode slot (a fresh
/// table block and, at the direct-pointer boundary, the parent's index
/// block).
pub open spec fn entry_cost(e: Entry) -> int
    decreases e,
{
    match e {
        Entry::File { name, data } => 2 + data_growth(data@.len() as int),
        Entry::Dir { name, entries } => 2 + entries_cost(entries@),
    }
}

pub open spec fn entries_cost(es: Seq<Entry>) -> int
    decreases es,
{
    if es.len() == 0 {
        0
    } else {
        entries_cost(es.drop_last()) + entry_cost(es.last())
    }
}

proof fn lemma_entry_cost_nonneg(e: Entry)
    ensures
        entry_cost(e) >= 2,
    decreases e,
{
    match e {
        Entry::File { name, data } => {},
        Entry::Dir { name, entries } => {
            lemma_entries_cost_nonneg(entries@);
        },
    }
}

proof fn lemma_entries_cost_nonneg(es: Seq<Entry>)
    ensures
        entries_cost(es) >= 0,
    decreases es,
{
    if es.len() > 0 {
        lemma_entries_cost_nonneg(es.drop_last());
        lemma_entry_cost_nonneg(es.last());
    }
}

/// The cost of one more entry adds onto the cost of the ones before it.
proof fn lemma_entries_cost_take(es: Seq<Entry>, i: int)
    requires
        0 <= i < es.len(),
    ensures
        entries_cost(es.take(i + 1)) == entries_cost(es.take(i)) + entry_cost(es[i]),
{
    assert(es.take(i + 1).drop_last() =~= es.take(i));
    assert(es.take(i + 1).last() == es[i]);
}

/// A prefix never costs more than the whole.
proof fn lemma_entries_cost_take_le(es: Seq<Entry>, i: int)
    requires
        0 <= i <= es.len(),
    ensures
        entries_cost(es.take(i)) <= entries_cost(es),
    decreases es.len(),
{
    if i == es.len() {
        assert(es.take(i) =~= es);
    } else {
        assert(es.drop_last().take(i) =~= es.take(i));
        lemma_entries_cost_take_le(es.drop_last(), i);
        lemma_entry_cost_nonneg(es.last());
    }
}

/// Validity of the whole list gives validity of each entry.
proof fn lemma_entries_ok_index(es: Seq<Entry>, i: int)
    requires
        entries_ok(es),
        0 <= i < es.len(),
    ensures
        entry_ok(es[i]),
    decreases es.len(),
{
    if i < es.len() - 1 {
        assert(es.drop_last()[i] == es[i]);
        lemma_entries_ok_index(es.drop_last(), i);
    }
}

impl Disk {
    /// Mirror one host directory into the image: take an inode slot in
    /// `dir`, store a record named `name` and typed `Directory` there,
    /// then write every entry of `entries` into the new directory in
    /// order, recursing into nested directories, and store the record
    /// again with its final size and pointers.  Returns the inode-table
    /// block and slot index of the directory's record.
    ///
    /// Every entry receives the next record slot in order, so the
    /// directory ends holding exactly one occupied slot per entry and
    /// exactly enough inode-table blocks for them; the build is
    /// guaranteed to succeed whenever every name and file in the
    /// subtree fits and enough blocks remain.
    pub fn write_dir(&mut self, dir: &mut File, name: &str, entries: &Vec<Entry>) -> (r: Result<
        (u32, u32),
        FsError,
    >)
        requires
            old(self).wf(),
            old(self).inode_ok(*old(dir)),
            old(dir).f_size % BLOCK_SIZE == 0,
        ensures
            final(self).wf(),
            final(self).super_block == old(self).super_block,
            final(self).bit_block_cnt == old(self).bit_block_cnt,
            final(self).next_block >= old(self).next_block,
            forall|x: int| 0 <= x < 3 ==> final(self).blocks@[x] == old(self).blocks@[x],
            final(dir).f_name == old(dir).f_name,
            final(dir).f_type == old(dir).f_type,
            name.spec_bytes().len() >= MAX_NAME_LEN ==> r == Err::<(u32, u32), FsError>(
                FsError::NameTooLong,
            ),
            name.spec_bytes().len() < MAX_NAME_LEN && !(0 < name.spec_bytes().len()
                && nul_free(name.spec_bytes())) ==> r == Err::<(u32, u32), FsError>(
                FsError::BadName,
            ),
            (0 < name.spec_bytes().len() < MAX_NAME_LEN && nul_free(name.spec_bytes())
                && entries_ok(entries@) && nblocks_of(old(dir).f_size) < MAX_PTR_CNT && old(
                self,
            ).next_block + 2 + entries_cost(entries@) <= BLOCK_COUNT) ==> r.is_ok(),
            match r {
                Ok((bn, slot)) => {
                    &&& slot < FILE_BLOCK_CNT
                    &&& 2 < bn < final(self).next_block
                    &&& 0 < name.spec_bytes().len() < MAX_NAME_LEN
                    &&& nul_free(name.spec_bytes())
                    &&& (bn, slot) == (match find_slot(*old(self), *old(dir), 0) {
                        Some(p) => p,
                        None => (old(self).next_block, 0u32),
                    })
                    &&& final(self).next_block <= old(self).next_block + 2 + entries_cost(
                        entries@,
                    )
                    &&& final(self).next_block >= old(self).next_block + (if find_slot(
                        *old(self),
                        *old(dir),
                        0,
                    ) is Some {
                        0int
                    } else {
                        1int
                    })
                    &&& final(self).blocks@[bn as int].b_type == (if find_slot(
                        *old(self),
                        *old(dir),
                        0,
                    ) is Some {
                        old(self).blocks@[bn as int].b_type
                    } else {
                        BlockType::InodeTable
                    })
                    &&& forall|j: int|
                        0 <= j < BLOCK_SIZE && !(FILE_STRUCT_SIZE * slot <= j < FILE_STRUCT_SIZE
                            * slot + FILE_STRUCT_SIZE) ==> #[trigger] final(self).blocks@[
                            bn as int].b_data@[j] == old(self).blocks@[bn as int].b_data@[j]
                    &&& final(self).blocks@[bn as int].b_data@[FILE_STRUCT_SIZE * slot] != 0u8
                    &&& exists|t: File|
                        {
                            &&& #[trigger] stored_record(*final(self), bn, slot, t)
                            &&& t.wf()
                            &&& t.f_name@ == name.spec_bytes()
                            &&& t.f_type == FileType::Directory
                            &&& t.f_size % BLOCK_SIZE == 0
                            &&& t.f_size == BLOCK_SIZE * ((entries@.len() + FILE_BLOCK_CNT - 1)
                                / FILE_BLOCK_CNT as int)
                            &&& final(self).inode_ok(t)
                            &&& dir_filled(*final(self), t, entries@.len() as int)
                        }
                    &&& final(self).inode_ok(*final(dir))
                    &&& (final(dir).f_indirect == old(dir).f_indirect || final(dir).f_indirect
                        >= old(self).next_block)
                    &&& forall|x: int|
                        0 <= x < old(self).next_block && x != bn && (x != final(dir).f_indirect
                            || final(dir).f_indirect == 0) ==> final(self).blocks@[x] == old(self).blocks@[x]
                    &&& forall|k: int|
                        0 <= k < nblocks_of(old(dir).f_size) ==> #[trigger] resolve_spec(
                            *final(self),
                            *final(dir),
                            k,
                        ) == resolve_spec(*old(self), *old(dir), k)
                    &&& exists|k0: int|
                        0 <= k0 < nblocks_of(final(dir).f_size) && #[trigger] resolve_spec(
                            *final(self),
                            *final(dir),
                            k0,
                        ) == bn
                    &&& (nblocks_of(final(dir).f_size) > nblocks_of(old(dir).f_size)
                        ==> resolve_spec(
                        *final(self),
                        *final(dir),
                        nblocks_of(old(dir).f_size),
                    ) == old(self).next_block)
                    &&& final(dir).f_size % BLOCK_SIZE == 0
                    &&& final(dir).f_size == old(dir).f_size + (if find_slot(
                        *old(self),
                        *old(dir),
                        0,
                    ) is Some {
                        0int
                    } else {
                        BLOCK_SIZE as int
                    })
                },
                Err(e) => true,
            },
        decreases entries@,
    {
        let name_bytes = name.as_bytes();
        if name_bytes.len() >= MAX_NAME_LEN as usize {
            return Err(FsError::NameTooLong);
        }
        if name_bytes.len() == 0 {
            return Err(FsError::BadName);
        }
        let mut ni: usize = 0;
        while ni < name_bytes.len()
            invariant
                *self == *old(self),
                *dir == *old(dir),
                old(self).wf(),
                0 < name.spec_bytes().len() < MAX_NAME_LEN,
                name_bytes@ == name.spec_bytes(),
                ni <= name_bytes@.len(),
                forall|x: int| 0 <= x < ni ==> name_bytes@[x] != 0u8,
            decreases name_bytes@.len() - ni,
        {
            if name_bytes[ni] == 0 {
                return Err(FsError::BadName);
            }
            ni = ni + 1;
        }
        let (sbn, slot) = match create_file(self, dir) {
            Ok(p) => p,
            Err(e) => {
                proof {
                    lemma_entries_cost_nonneg(entries@);
                }
                return Err(e);
            },
        };
        let ghost f_dir = *dir;
        let ghost d_slot = *self;
        let mut target = File::new();
        target.set_name(name);
        target.set_type(FileType::Directory);
        store_file(self, sbn, slot, &target);
        let ghost d0 = *self;
        proof {
            lemma_resolve_frame(d_slot, d0, f_dir);
            assert(d0.inode_ok(f_dir));
            assert(d0.inode_ok(target));
        }
        let mut idx: usize = 0;
        while idx < entries.len()
            invariant
                self.wf(),
                self.super_block == old(self).super_block,
                self.bit_block_cnt == old(self).bit_block_cnt,
                self.next_block >= d0.next_block,
                d0.wf(),
                d0.next_block == d_slot.next_block,
                d0.next_block >= old(self).next_block,
                forall|x: int| 0 <= x < 3 ==> d0.blocks@[x] == old(self).blocks@[x],
                forall|x: int| 0 <= x < d0.next_block ==> self.blocks@[x] == d0.blocks@[x],
                forall|x: int|
                    0 <= x < old(self).next_block && x != sbn && x != f_dir.f_indirect ==> d0
                        .blocks@[x] == old(self).blocks@[x],
                *dir == f_dir,
                f_dir.f_name == old(dir).f_name,
                f_dir.f_type == old(dir).f_type,
                f_dir.f_size % BLOCK_SIZE == 0,
                f_dir.f_size == old(dir).f_size + (if find_slot(*old(self), *old(dir), 0) is Some {
                    0int
                } else {
                    BLOCK_SIZE as int
                }),
                f_dir.f_indirect == old(dir).f_indirect || f_dir.f_indirect >= old(
                    self,
                ).next_block,
                f_dir.f_indirect == 0 || 2 < f_dir.f_indirect < d0.next_block,
                d0.inode_ok(f_dir),
                slot < FILE_BLOCK_CNT,
                2 < sbn < d0.next_block,
                sbn != f_dir.f_indirect,
                (sbn, slot) == (match find_slot(*old(self), *old(dir), 0) {
                    Some(p) => p,
                    None => (old(self).next_block, 0u32),
                }),
                (if find_slot(*old(self), *old(dir), 0) is Some {
                    d_slot == *old(self)
                } else {
                    all_zero(d_slot.blocks@[sbn as int].b_data@) && d_slot.blocks@[
                        sbn as int].b_type == BlockType::InodeTable
                }),
                forall|j: int|
                    0 <= j < BLOCK_SIZE && !(FILE_STRUCT_SIZE * slot <= j < FILE_STRUCT_SIZE
                        * slot + FILE_STRUCT_SIZE) ==> #[trigger] d0.blocks@[sbn as int].b_data@[
                        j] == d_slot.blocks@[sbn as int].b_data@[j],
                d0.blocks@[sbn as int].b_type == d_slot.blocks@[sbn as int].b_type,
                0 < name.spec_bytes().len() < MAX_NAME_LEN,
                nul_free(name.spec_bytes()),
                old(self).wf(),
                d0.next_block <= old(self).next_block + 2,
                d0.next_block >= old(self).next_block + (if find_slot(*old(self), *old(dir), 0)
                    is Some {
                    0int
                } else {
                    1int
                }),
                self.next_block <= d0.next_block + entries_cost(entries@.take(idx as int)),
                nblocks_of(target.f_size) <= self.next_block - d0.next_block,
                self.inode_ok(target),
                target.f_name@ == name.spec_bytes(),
                target.f_type == FileType::Directory,
                target.f_size % BLOCK_SIZE == 0,
                target.f_indirect == 0 || target.f_indirect >= d0.next_block,
                forall|k: int|
                    0 <= k < nblocks_of(target.f_size) ==> #[trigger] resolve_spec(
                        *self,
                        target,
                        k,
                    ) >= d0.next_block,
                forall|k1: int, k2: int|
                    0 <= k1 < k2 < nblocks_of(target.f_size) ==> #[trigger] resolve_spec(
                        *self,
                        target,
                        k1,
                    ) < #[trigger] resolve_spec(*self, target, k2),
                dir_filled(*self, target, idx as int),
                forall|x: int| 0 <= x < 3 ==> self.blocks@[x] == old(self).blocks@[x],
                idx <= entries@.len(),
            decreases entries@.len() - idx,
        {
            let ghost pre = *self;
            let ghost t_pre = target;
            proof {
                if entries_ok(entries@) && old(self).next_block + 2 + entries_cost(entries@)
                    <= BLOCK_COUNT {
                    lemma_entries_ok_index(entries@, idx as int);
                    lemma_entries_cost_take(entries@, idx as int);
                    lemma_entries_cost_take_le(entries@, idx as int + 1);
                    assert(pre.next_block + entry_cost(entries@[idx as int]) <= BLOCK_COUNT);
                    assert(nblocks_of(t_pre.f_size) < MAX_PTR_CNT);
                }
            }
            let child: (u32, u32);
            match &entries[idx] {
                Entry::File { name: child_name, data } => {
                    child = match self.write_file(
                        &mut target,
                        child_name.as_str(),
                        data.as_slice(),
                    ) {
                        Ok(p) => p,
                        Err(e) => {
                            return Err(e);
                        },
                    };
                },
                Entry::Dir { name: child_name, entries: sub } => {
                    proof {
                        assert(decreases_to!(entries@ => entries@[idx as int]));
                    }
                    child = match self.write_dir(&mut target, child_name.as_str(), sub) {
                        Ok(p) => p,
                        Err(e) => {
                            return Err(e);
                        },
                    };
                },
            }
            proof {
                lemma_entries_cost_take(entries@, idx as int);
                lemma_entry_cost_nonneg(entries@[idx as int]);
                assert(self.next_block <= pre.next_block + entry_cost(entries@[idx as int]));
                assert(nblocks_of(target.f_size) <= self.next_block - d0.next_block);
                assert forall|k: int| 0 <= k < nblocks_of(target.f_size) implies #[trigger]
                    resolve_spec(*self, target, k) >= d0.next_block by {
                    if k < nblocks_of(t_pre.f_size) {
                        assert(resolve_spec(*self, target, k) == resolve_spec(pre, t_pre, k));
                    } else {
                        assert(k == nblocks_of(t_pre.f_size));
                        assert(resolve_spec(*self, target, k) >= pre.next_block);
                    }
                }
                let k0 = choose|k0: int|
                    0 <= k0 < nblocks_of(target.f_size) && #[trigger] resolve_spec(
                        *self,
                        target,
                        k0,
                    ) == child.0;
                assert(child.0 >= d0.next_block);
                assert forall|x: int| 0 <= x < d0.next_block implies self.blocks@[x] == d0
                    .blocks@[x] by {
                    if target.f_indirect != 0 && x == target.f_indirect {
                        assert(false);
                    }
                    assert(self.blocks@[x] == pre.blocks@[x]);
                }
                lemma_find_slot_filled_from(pre, t_pre, idx as int, 0);
                let nbp = nblocks_of(t_pre.f_size);
                let nbn = nblocks_of(target.f_size);
                let ci = idx as int / FILE_BLOCK_CNT as int;
                let cs = idx as int % FILE_BLOCK_CNT as int;
                if idx < FILE_BLOCK_CNT * nbp {
                    assert(child == (resolve_spec(pre, t_pre, ci), cs as u32));
                    assert(nbn == nbp);
                    assert(resolve_spec(*self, target, ci) == resolve_spec(pre, t_pre, ci));
                } else {
                    assert(idx == FILE_BLOCK_CNT * nbp);
                    assert(child == (pre.next_block, 0u32));
                    assert(nbn == nbp + 1);
                    assert(resolve_spec(*self, target, nbp) == pre.next_block);
                    assert(ci == nbp && cs == 0);
                }
                assert(nbn == (idx + 1 + FILE_BLOCK_CNT - 1) / FILE_BLOCK_CNT as int);
                assert forall|k1: int, k2: int| 0 <= k1 < k2 < nbn implies #[trigger]
                    resolve_spec(*self, target, k1) < #[trigger] resolve_spec(
                    *self,
                    target,
                    k2,
                ) by {
                    if k2 < nbp {
                        assert(resolve_spec(*self, target, k1) == resolve_spec(pre, t_pre, k1));
                        assert(resolve_spec(*self, target, k2) == resolve_spec(pre, t_pre, k2));
                    } else if k2 == nbp {
                        assert(resolve_spec(*self, target, k1) == resolve_spec(pre, t_pre, k1));
                        assert(resolve_spec(pre, t_pre, k1) < pre.next_block);
                    }
                }
                assert(resolve_spec(*self, target, ci) == child.0);
                assert forall|j: int| 0 <= j < idx + 1 implies #[trigger] slot_head(
                    *self,
                    target,
                    j,
                ) != 0u8 by {
                    let bj = j / FILE_BLOCK_CNT as int;
                    let sj = j % FILE_BLOCK_CNT as int;
                    if j == idx {
                        assert(bj == ci && sj == cs);
                        assert(self.blocks@[child.0 as int].b_data@[FILE_STRUCT_SIZE * cs]
                            != 0u8);
                    } else {
                        assert(j < idx && bj < nbp);
                        let v = resolve_spec(pre, t_pre, bj);
                        assert(resolve_spec(*self, target, bj) == v);
                        assert(2 < v < pre.next_block && v != t_pre.f_indirect);
                        assert(slot_head(pre, t_pre, j) != 0u8);
                        if v == child.0 {
                            assert(bj == ci);
                            assert(sj != cs);
                            assert(self.blocks@[v as int].b_data@[FILE_STRUCT_SIZE * sj]
                                == pre.blocks@[v as int].b_data@[FILE_STRUCT_SIZE * sj]);
                        } else {
                            assert(v != target.f_indirect || target.f_indirect == 0);
                            assert(self.blocks@[v as int] == pre.blocks@[v as int]);
                        }
                    }
                }
                assert forall|j: int| idx + 1 <= j < FILE_BLOCK_CNT * nbn implies #[trigger]
                    slot_head(*self, target, j) == 0u8 by {
                    let bj = j / FILE_BLOCK_CNT as int;
                    let sj = j % FILE_BLOCK_CNT as int;
                    if bj < nbp {
                        assert(j < FILE_BLOCK_CNT * nbp);
                        let v = resolve_spec(pre, t_pre, bj);
                        assert(resolve_spec(*self, target, bj) == v);
                        assert(2 < v < pre.next_block && v != t_pre.f_indirect);
                        assert(slot_head(pre, t_pre, j) == 0u8);
                        if v == child.0 {
                            assert(bj == ci);
                            assert(sj != cs);
                            assert(self.blocks@[v as int].b_data@[FILE_STRUCT_SIZE * sj]
                                == pre.blocks@[v as int].b_data@[FILE_STRUCT_SIZE * sj]);
                        } else {
                            assert(v != target.f_indirect || target.f_indirect == 0);
                            assert(self.blocks@[v as int] == pre.blocks@[v as int]);
                        }
                    } else {
                        assert(bj == nbp && idx == FILE_BLOCK_CNT * nbp);
                        assert(resolve_spec(*self, target, bj) == pre.next_block
                            == child.0);
                        assert(sj != 0 && cs == 0);
                        assert(self.blocks@[child.0 as int].b_data@[FILE_STRUCT_SIZE * sj]
                            == pre.blocks@[child.0 as int].b_data@[FILE_STRUCT_SIZE * sj]);
                        assert(all_zero(pre.blocks@[child.0 as int].b_data@));
                    }
                }
                assert(dir_filled(*self, target, idx + 1));
            }
            idx = idx + 1;
        }
        let ghost dloop = *self;
        store_file(self, sbn, slot, &target);
        proof {
            assert(entries@.take(entries@.len() as int) =~= entries@);
            let d1 = *self;
            assert(sbn != target.f_indirect);
            assert(d1.blocks@[target.f_indirect as int].b_data@ == dloop.blocks@[
                target.f_indirect as int].b_data@);
            lemma_resolve_frame(dloop, d1, target);
            assert forall|k: int| 0 <= k < nblocks_of(target.f_size) implies 2 < #[trigger]
                resolve_spec(d1, target, k) < d1.next_block && resolve_spec(d1, target, k)
                != target.f_indirect by {
                assert(resolve_spec(d1, target, k) == resolve_spec(dloop, target, k));
            }
            assert(d1.inode_ok(target));
            assert forall|j: int| 0 <= j < FILE_BLOCK_CNT * nblocks_of(target.f_size) implies
                #[trigger] slot_head(d1, target, j) == slot_head(dloop, target, j) by {
                let bj = j / FILE_BLOCK_CNT as int;
                assert(resolve_spec(d1, target, bj) == resolve_spec(dloop, target, bj));
                let v = resolve_spec(dloop, target, bj);
                assert(v >= d0.next_block);
                assert(v != sbn);
                assert(d1.blocks@[v as int] == dloop.blocks@[v as int]);
            }
            assert(dir_filled(d1, target, entries@.len() as int));
            assert(target.f_size == BLOCK_SIZE * ((entries@.len() + FILE_BLOCK_CNT - 1)
                / FILE_BLOCK_CNT as int));
            assert(stored_record(d1, sbn, slot, target));
            assert(inode_bytes(target)[0] == target.f_name@[0]);
            assert(target.f_name@[0] != 0u8);
            assert(d1.blocks@[sbn as int].b_data@[FILE_STRUCT_SIZE * slot + 0] == inode_bytes(
                target,
            )[0]);
            assert forall|j: int|
                0 <= j < BLOCK_SIZE && !(FILE_STRUCT_SIZE * slot <= j < FILE_STRUCT_SIZE * slot
                    + FILE_STRUCT_SIZE) implies #[trigger] d1.blocks@[sbn as int].b_data@[j]
                == old(self).blocks@[sbn as int].b_data@[j] by {
                assert(d1.blocks@[sbn as int].b_data@[j] == dloop.blocks@[sbn as int].b_data@[j]);
                assert(dloop.blocks@[sbn as int] == d0.blocks@[sbn as int]);
                assert(d0.blocks@[sbn as int].b_data@[j] == d_slot.blocks@[sbn as int].b_data@[
                    j]);
                if find_slot(*old(self), *old(dir), 0) is None {
                    assert(d_slot.blocks@[sbn as int].b_data@[j] == 0u8);
                    assert(sbn == old(self).next_block);
                    assert(all_zero(old(self).blocks@[sbn as int].b_data@));
                }
            }
            assert(d1.blocks@[sbn as int].b_type == d_slot.blocks@[sbn as int].b_type);
            assert(d1.blocks@[f_dir.f_indirect as int].b_data@ == dloop.blocks@[
                f_dir.f_indirect as int].b_data@);
            assert(dloop.blocks@[f_dir.f_indirect as int].b_data@ == d0.blocks@[
                f_dir.f_indirect as int].b_data@);
            lemma_resolve_frame(d0, d1, f_dir);
            assert forall|k: int| 0 <= k < nblocks_of(f_dir.f_size) implies 2 < #[trigger]
                resolve_spec(d1, f_dir, k) < d1.next_block && resolve_spec(d1, f_dir, k)
                != f_dir.f_indirect by {
                assert(resolve_spec(d1, f_dir, k) == resolve_spec(d0, f_dir, k));
                assert(resolve_spec(d0, f_dir, k) == resolve_spec(d_slot, f_dir, k));
            }
            assert(d1.inode_ok(f_dir));
            assert forall|k: int| 0 <= k < nblocks_of(old(dir).f_size) implies #[trigger]
                resolve_spec(d1, f_dir, k) == resolve_spec(*old(self), *old(dir), k) by {
                assert(resolve_spec(d1, f_dir, k) == resolve_spec(d_slot, f_dir, k));
                assert(resolve_spec(d_slot, f_dir, k) == resolve_spec(*old(self), *old(dir), k));
            }
            let k0 = choose|k0: int|
                0 <= k0 < nblocks_of(f_dir.f_size) && #[trigger] resolve_spec(d_slot, f_dir, k0)
                    == sbn;
            assert(resolve_spec(d1, f_dir, k0) == resolve_spec(d_slot, f_dir, k0));
            assert(exists|k0: int|
                0 <= k0 < nblocks_of(f_dir.f_size) && #[trigger] resolve_spec(d1, f_dir, k0)
                    == sbn);
            if nblocks_of(f_dir.f_size) > nblocks_of(old(dir).f_size) {
                let kn = nblocks_of(old(dir).f_size);
                assert(resolve_spec(d1, f_dir, kn) == resolve_spec(d_slot, f_dir, kn));
                assert(resolve_spec(d_slot, f_dir, kn) == old(self).next_block);
            }
            assert forall|x: int|
                0 <= x < old(self).next_block && x != sbn && x != f_dir.f_indirect implies d1
                .blocks@[x] == old(self).blocks@[x] by {
                assert(d1.blocks@[x] == dloop.blocks@[x]);
                assert(dloop.blocks@[x] == d0.blocks@[x]);
                assert(d0.blocks@[x] == old(self).blocks@[x]);
            }
        }
        Ok((sbn, slot))
    }
}

/// Build a complete image from the top-level entries: initialize the
/// store, write every entry into the root directory "/", mark every
/// allocated block used in the bitmap, and lay the store out as one
/// flat byte vector.
///
/// A built image is always `BLOCK_COUNT * BLOCK_SIZE` bytes; block 1
/// opens with the magic constant and the total block count; the bitmap
/// bit of every block index is 0 exactly for the blocks the build
/// allocated; and the root directory holds one occupied record slot per
/// top-level entry.  The build is guaranteed to succeed whenever every
/// name and file in the tree fits and the reserved blocks plus the
/// tree's block need fit the image.
pub fn build_image(entries: &Vec<Entry>) -> (r: Result<Vec<u8>, FsError>)
    ensures
        (entries_ok(entries@) && 3 + entries_cost(entries@) <= BLOCK_COUNT) ==> r is Ok,
        match r {
            Ok(img) => {
                &&& img@.len() == BLOCK_COUNT * BLOCK_SIZE
                &&& le_u32_at(img@, BLOCK_SIZE as int) == FS_MAGIC
                &&& le_u32_at(img@, BLOCK_SIZE + 4) == BLOCK_COUNT
                &&& exists|disk: Disk|
                    {
                        &&& img@ == #[trigger] image_spec(disk)
                        &&& disk.wf()
                        &&& disk.super_block.s_magic == FS_MAGIC
                        &&& disk.super_block.s_block_cnt == BLOCK_COUNT
                        &&& disk.super_block.s_root.f_name@ == seq![47u8]
                        &&& disk.super_block.s_root.f_type == FileType::Directory
                        &&& disk.super_block.s_root.f_size % BLOCK_SIZE == 0
                        &&& disk.super_block.s_root.f_size == BLOCK_SIZE * ((entries@.len()
                            + FILE_BLOCK_CNT - 1) / FILE_BLOCK_CNT as int)
                        &&& disk.inode_ok(disk.super_block.s_root)
                        &&& dir_filled(disk, disk.super_block.s_root, entries@.len() as int)
                        &&& 3 <= disk.next_block <= 3 + entries_cost(entries@)
                        &&& forall|b: int|
                            0 <= b < BLOCK_COUNT ==> bitmap_bit(disk, b) == (if b
                                < disk.next_block {
                                0u8
                            } else {
                                1u8
                            })
                    }
            },
            Err(e) => true,
        },
{
    let mut disk = init_disk();
    let mut root = File::new();
    proof {
        reveal_strlit("/");
        assert(("/")@ =~= seq!['/']);
        vstd::utf8::is_ascii_chars_encode_utf8(("/")@);
        assert(("/").spec_bytes() =~= seq![47u8]);
    }
    root.set_name("/");
    root.set_type(FileType::Directory);
    let mut idx: usize = 0;
    while idx < entries.len()
        invariant
            disk.wf(),
            disk.bitmap_fresh(),
            disk.super_block.s_magic == FS_MAGIC,
            disk.super_block.s_block_cnt == BLOCK_COUNT,
            disk.inode_ok(root),
            root.f_size % BLOCK_SIZE == 0,
            root.f_name@ == seq![47u8],
            root.f_type == FileType::Directory,
            disk.next_block <= 3 + entries_cost(entries@.take(idx as int)),
            nblocks_of(root.f_size) <= disk.next_block - 3,
            forall|k1: int, k2: int|
                0 <= k1 < k2 < nblocks_of(root.f_size) ==> #[trigger] resolve_spec(
                    disk,
                    root,
                    k1,
                ) < #[trigger] resolve_spec(disk, root, k2),
            dir_filled(disk, root, idx as int),
            idx <= entries@.len(),
        decreases entries@.len() - idx,
    {
        let ghost pre = disk;
        let ghost r_pre = root;
        proof {
            if entries_ok(entries@) && 3 + entries_cost(entries@) <= BLOCK_COUNT {
                lemma_entries_ok_index(entries@, idx as int);
                lemma_entries_cost_take(entries@, idx as int);
                lemma_entries_cost_take_le(entries@, idx as int + 1);
                assert(pre.next_block + entry_cost(entries@[idx as int]) <= BLOCK_COUNT);
                assert(nblocks_of(r_pre.f_size) < MAX_PTR_CNT);
            }
        }
        let child: (u32, u32);
        match &entries[idx] {
            Entry::File { name, data } => {
                child = match disk.write_file(&mut root, name.as_str(), data.as_slice()) {
                    Ok(p) => p,
                    Err(e) => {
                        return Err(e);
                    },
                };
            },
            Entry::Dir { name, entries: sub } => {
                child = match disk.write_dir(&mut root, name.as_str(), sub) {
                    Ok(p) => p,
                    Err(e) => {
                        return Err(e);
                    },
                };
            },
        }
        proof {
            assert(disk.blocks@[2] == pre.blocks@[2]);
            assert(disk.bitmap_fresh());
            lemma_entries_cost_take(entries@, idx as int);
            lemma_entry_cost_nonneg(entries@[idx as int]);
            assert(disk.next_block <= pre.next_block + entry_cost(entries@[idx as int]));
            assert(nblocks_of(root.f_size) <= disk.next_block - 3);
            lemma_find_slot_filled_from(pre, r_pre, idx as int, 0);
            let nbp = nblocks_of(r_pre.f_size);
            let nbn = nblocks_of(root.f_size);
            let ci = idx as int / FILE_BLOCK_CNT as int;
            let cs = idx as int % FILE_BLOCK_CNT as int;
            if idx < FILE_BLOCK_CNT * nbp {
                assert(child == (resolve_spec(pre, r_pre, ci), cs as u32));
                assert(nbn == nbp);
                assert(resolve_spec(disk, root, ci) == resolve_spec(pre, r_pre, ci));
            } else {
                assert(idx == FILE_BLOCK_CNT * nbp);
                assert(child == (pre.next_block, 0u32));
                assert(nbn == nbp + 1);
                assert(resolve_spec(disk, root, nbp) == pre.next_block);
                assert(ci == nbp && cs == 0);
            }
            assert(nbn == (idx + 1 + FILE_BLOCK_CNT - 1) / FILE_BLOCK_CNT as int);
            assert forall|k1: int, k2: int| 0 <= k1 < k2 < nbn implies #[trigger] resolve_spec(
                disk,
                root,
                k1,
            ) < #[trigger] resolve_spec(disk, root, k2) by {
                if k2 < nbp {
                    assert(resolve_spec(disk, root, k1) == resolve_spec(pre, r_pre, k1));
                    assert(resolve_spec(disk, root, k2) == resolve_spec(pre, r_pre, k2));
                } else if k2 == nbp {
                    assert(resolve_spec(disk, root, k1) == resolve_spec(pre, r_pre, k1));
                    assert(resolve_spec(pre, r_pre, k1) < pre.next_block);
                }
            }
            assert(resolve_spec(disk, root, ci) == child.0);
            assert forall|j: int| 0 <= j < idx + 1 implies #[trigger] slot_head(disk, root, j)
                != 0u8 by {
                let bj = j / FILE_BLOCK_CNT as int;
                let sj = j % FILE_BLOCK_CNT as int;
                if j == idx {
                    assert(bj == ci && sj == cs);
                    assert(disk.blocks@[child.0 as int].b_data@[FILE_STRUCT_SIZE * cs] != 0u8);
                } else {
                    assert(j < idx && bj < nbp);
                    let v = resolve_spec(pre, r_pre, bj);
                    assert(resolve_spec(disk, root, bj) == v);
                    assert(2 < v < pre.next_block && v != r_pre.f_indirect);
                    assert(slot_head(pre, r_pre, j) != 0u8);
                    if v == child.0 {
                        assert(bj == ci);
                        assert(sj != cs);
                        assert(disk.blocks@[v as int].b_data@[FILE_STRUCT_SIZE * sj]
                            == pre.blocks@[v as int].b_data@[FILE_STRUCT_SIZE * sj]);
                    } else {
                        assert(v != root.f_indirect || root.f_indirect == 0);
                        assert(disk.blocks@[v as int] == pre.blocks@[v as int]);
                    }
                }
            }
            assert forall|j: int| idx + 1 <= j < FILE_BLOCK_CNT * nbn implies #[trigger]
                slot_head(disk, root, j) == 0u8 by {
                let bj = j / FILE_BLOCK_CNT as int;
                let sj = j % FILE_BLOCK_CNT as int;
                if bj < nbp {
                    assert(j < FILE_BLOCK_CNT * nbp);
                    let v = resolve_spec(pre, r_pre, bj);
                    assert(resolve_spec(disk, root, bj) == v);
                    assert(2 < v < pre.next_block && v != r_pre.f_indirect);
                    assert(slot_head(pre, r_pre, j) == 0u8);
                    if v == child.0 {
                        assert(bj == ci);
                        assert(sj != cs);
                        assert(disk.blocks@[v as int].b_data@[FILE_STRUCT_SIZE * sj]
                            == pre.blocks@[v as int].b_data@[FILE_STRUCT_SIZE * sj]);
                    } else {
                        assert(v != root.f_indirect || root.f_indirect == 0);
                        assert(disk.blocks@[v as int] == pre.blocks@[v as int]);
                    }
                } else {
                    assert(bj == nbp && idx == FILE_BLOCK_CNT * nbp);
                    assert(resolve_spec(disk, root, bj) == pre.next_block == child.0);
                    assert(sj != 0 && cs == 0);
                    assert(disk.blocks@[child.0 as int].b_data@[FILE_STRUCT_SIZE * sj]
                        == pre.blocks@[child.0 as int].b_data@[FILE_STRUCT_SIZE * sj]);
                    assert(all_zero(pre.blocks@[child.0 as int].b_data@));
                }
            }
            assert(dir_filled(disk, root, idx + 1));
        }
        idx = idx + 1;
    }
    proof {
        assert(entries@.take(entries@.len() as int) =~= entries@);
    }
    let ghost d_loop = disk;
    flush_bitmap(&mut disk);
    let ghost d_flush = disk;
    disk.super_block.s_root = root;
    proof {
        assert(root.f_indirect == 0 || 2 < root.f_indirect);
        assert(d_flush.blocks@[root.f_indirect as int].b_data@ == d_loop.blocks@[
            root.f_indirect as int].b_data@);
        lemma_resolve_frame(d_loop, d_flush, root);
        assert(disk.blocks@ == d_flush.blocks@);
        lemma_resolve_frame(d_flush, disk, root);
        assert forall|k: int| 0 <= k < nblocks_of(root.f_size) implies 2 < #[trigger]
            resolve_spec(disk, root, k) < disk.next_block && resolve_spec(disk, root, k)
            != root.f_indirect by {
            assert(resolve_spec(disk, root, k) == resolve_spec(d_flush, root, k));
            assert(resolve_spec(d_flush, root, k) == resolve_spec(d_loop, root, k));
        }
        assert(disk.inode_ok(root));
        assert forall|b: int| 0 <= b < BLOCK_COUNT implies bitmap_bit(disk, b) == (if b
            < disk.next_block {
            0u8
        } else {
            1u8
        }) by {
            assert(bitmap_bit(disk, b) == bitmap_bit(d_flush, b));
        }
        assert forall|j: int| 0 <= j < FILE_BLOCK_CNT * nblocks_of(root.f_size) implies
            #[trigger] slot_head(disk, root, j) == slot_head(d_loop, root, j) by {
            let bj = j / FILE_BLOCK_CNT as int;
            assert(resolve_spec(disk, root, bj) == resolve_spec(d_loop, root, bj));
            let v = resolve_spec(d_loop, root, bj);
            assert(2 < v);
            assert(disk.blocks@[v as int] == d_flush.blocks@[v as int]);
            assert(d_flush.blocks@[v as int] == d_loop.blocks@[v as int]);
        }
        assert(entries@.take(entries@.len() as int) =~= entries@);
        assert(dir_filled(disk, root, entries@.len() as int));
        assert(root.f_size == BLOCK_SIZE * ((entries@.len() + FILE_BLOCK_CNT - 1)
            / FILE_BLOCK_CNT as int));
    }
    let img = disk.image_bytes();
    proof {
        assert(img@ == image_spec(disk));
    }
    Ok(img)
}

} // verus!
