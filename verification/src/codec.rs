//! Fixed-offset, little-endian encoding of the on-disk records.
//!
//! Every structure is packed field by field, so the format never depends on
//! host memory layout or alignment.

use vstd::prelude::*;

use crate::fs::{file_type_val, File, FileType, SuperBlock, DIRECT_PTR_CNT, FILE_STRUCT_SIZE, MAX_NAME_LEN};

verus! {

/// Byte `k` of the four-byte little-endian encoding of `x`.
pub open spec fn u32_byte(x: u32, k: int) -> u8 {
    ((x >> ((8 * k) as u32)) & 0xff) as u8
}

/// The `u32` stored little-endian at `data[off .. off + 4]`.
pub open spec fn le_u32_at(data: Seq<u8>, off: int) -> u32 {
    (data[off] as u32) | ((data[off + 1] as u32) << 8u32) | ((data[off + 2] as u32) << 16u32)
        | ((data[off + 3] as u32) << 24u32)
}

/// Reading back the four little-endian bytes of `x` yields `x`.
pub proof fn lemma_le_u32_at_of_bytes(data: Seq<u8>, off: int, x: u32)
    requires
        0 <= off,
        off + 4 <= data.len(),
        data[off] == u32_byte(x, 0),
        data[off + 1] == u32_byte(x, 1),
        data[off + 2] == u32_byte(x, 2),
        data[off + 3] == u32_byte(x, 3),
    ensures
        le_u32_at(data, off) == x,
{
    let b0 = data[off];
    let b1 = data[off + 1];
    let b2 = data[off + 2];
    let b3 = data[off + 3];
    assert((b0 as u32) | ((b1 as u32) << 8u32) | ((b2 as u32) << 16u32) | ((b3 as u32) << 24u32)
        == x) by (bit_vector)
        requires
            b0 == ((x >> 0u32) & 0xff) as u8,
            b1 == ((x >> 8u32) & 0xff) as u8,
            b2 == ((x >> 16u32) & 0xff) as u8,
            b3 == ((x >> 24u32) & 0xff) as u8,
    ;
}

/// Four zero bytes decode to zero.
pub proof fn lemma_le_u32_zero(data: Seq<u8>, off: int)
    requires
        0 <= off,
        off + 4 <= data.len(),
        data[off] == 0u8,
        data[off + 1] == 0u8,
        data[off + 2] == 0u8,
        data[off + 3] == 0u8,
    ensures
        le_u32_at(data, off) == 0u32,
{
    assert((0u8 as u32) | ((0u8 as u32) << 8u32) | ((0u8 as u32) << 16u32) | ((0u8 as u32)
        << 24u32) == 0u32) by (bit_vector);
}

/// Write `x` little-endian at `buf[off .. off + 4]`.
pub fn put_u32(buf: &mut Vec<u8>, off: usize, x: u32)
    requires
        off + 4 <= old(buf)@.len(),
    ensures
        final(buf)@.len() == old(buf)@.len(),
        forall|k: int| 0 <= k < 4 ==> final(buf)@[off + k] == u32_byte(x, k),
        forall|j: int|
            0 <= j < old(buf)@.len() && !(off <= j < off + 4) ==> final(buf)@[j] == old(buf)@[j],
        le_u32_at(final(buf)@, off as int) == x,
{
    let l: usize = buf.len();
    proof {
        assert(off + 4 <= l);
        assert((x >> 0u32) & 0xff < 256 && (x >> 8u32) & 0xff < 256 && (x >> 16u32) & 0xff < 256
            && (x >> 24u32) & 0xff < 256) by (bit_vector);
    }
    buf.set(off, (x & 0xff) as u8);
    buf.set(off + 1, ((x >> 8u32) & 0xff) as u8);
    buf.set(off + 2, ((x >> 16u32) & 0xff) as u8);
    buf.set(off + 3, ((x >> 24u32) & 0xff) as u8);
    proof {
        assert((x & 0xff) as u8 == ((x >> 0u32) & 0xff) as u8) by (bit_vector);
        lemma_le_u32_at_of_bytes(final(buf)@, off as int, x);
    }
}

/// Read the `u32` stored little-endian at `data[off .. off + 4]`.
pub fn get_u32(data: &[u8], off: usize) -> (x: u32)
    requires
        off + 4 <= data@.len(),
    ensures
        x == le_u32_at(data@, off as int),
{
    (data[off] as u32) | ((data[off + 1] as u32) << 8u32) | ((data[off + 2] as u32) << 16u32) | ((
    data[off + 3] as u32) << 24u32)
}

/// The `u16` stored little-endian at `data[off .. off + 2]`.
pub open spec fn le_u16_at(data: Seq<u8>, off: int) -> u16 {
    (data[off] as u16) | ((data[off + 1] as u16) << 8u16)
}

/// Read the `u16` stored little-endian at `data[off .. off + 2]`.
pub fn get_u16(data: &[u8], off: usize) -> (x: u16)
    requires
        off + 2 <= data@.len(),
    ensures
        x == le_u16_at(data@, off as int),
{
    (data[off] as u16) | ((data[off + 1] as u16) << 8u16)
}

/// Byte `i` of the 256-byte encoding of inode record `f`: the
/// terminator-padded name, then size, type, the direct slots and the
/// indirect slot as little-endian words, then zero padding.
pub open spec fn inode_byte(f: File, i: int) -> u8 {
    if i < MAX_NAME_LEN {
        if i < f.f_name@.len() {
            f.f_name@[i]
        } else {
            0u8
        }
    } else if i < 132 {
        u32_byte(f.f_size, i - 128)
    } else if i < 136 {
        u32_byte(file_type_val(f.f_type), i - 132)
    } else if i < 176 {
        u32_byte(f.f_direct@[(i - 136) / 4], (i - 136) % 4)
    } else if i < 180 {
        u32_byte(f.f_indirect, i - 176)
    } else {
        0u8
    }
}

/// The 256-byte encoding of inode record `f`.
pub open spec fn inode_bytes(f: File) -> Seq<u8> {
    Seq::new(FILE_STRUCT_SIZE as nat, |i: int| inode_byte(f, i))
}

/// Encode an inode record into its fixed 256-byte layout.
pub fn encode_inode(f: &File) -> (out: Vec<u8>)
    requires
        f.wf(),
    ensures
        out@ == inode_bytes(*f),
{
    let mut out: Vec<u8> = Vec::new();
    let mut i: usize = 0;
    while i < FILE_STRUCT_SIZE as usize
        invariant
            i <= FILE_STRUCT_SIZE,
            out@.len() == i,
            forall|j: int| 0 <= j < i ==> out@[j] == 0u8,
        decreases FILE_STRUCT_SIZE - i,
    {
        out.push(0);
        i = i + 1;
    }
    let mut n: usize = 0;
    while n < f.f_name.len()
        invariant
            f.wf(),
            n <= f.f_name@.len(),
            out@.len() == FILE_STRUCT_SIZE,
            forall|j: int| 0 <= j < n ==> out@[j] == f.f_name@[j],
            forall|j: int| n <= j < FILE_STRUCT_SIZE ==> out@[j] == 0u8,
        decreases f.f_name@.len() - n,
    {
        out.set(n, f.f_name[n]);
        n = n + 1;
    }
    put_u32(&mut out, 128, f.get_size());
    let tv: u32 = match f.get_type() {
        FileType::File => 0,
        FileType::Directory => 1,
    };
    put_u32(&mut out, 132, tv);
    let mut k: usize = 0;
    while k < DIRECT_PTR_CNT as usize
        invariant
            f.wf(),
            k <= DIRECT_PTR_CNT,
            out@.len() == FILE_STRUCT_SIZE,
            forall|j: int| 0 <= j < 136 + 4 * k ==> out@[j] == inode_byte(*f, j),
            forall|j: int| 136 + 4 * k <= j < FILE_STRUCT_SIZE ==> out@[j] == 0u8,
        decreases DIRECT_PTR_CNT - k,
    {
        put_u32(&mut out, 136 + 4 * k, f.get_direct(k as u32));
        proof {
            assert forall|j: int| 0 <= j < 136 + 4 * (k + 1) implies out@[j] == inode_byte(
                *f,
                j,
            ) by {
                if 136 + 4 * k <= j {
                    assert((j - 136) / 4 == k && (j - 136) % 4 == j - (136 + 4 * k));
                }
            }
        }
        k = k + 1;
    }
    put_u32(&mut out, 176, f.get_indirect());
    proof {
        assert(out@ =~= inode_bytes(*f));
    }
    out
}

/// The length of the name stored at `data[off .. off + MAX_NAME_LEN]`:
/// the index of the first terminator byte, scanning from `i`.
pub open spec fn stored_name_len(data: Seq<u8>, off: int, i: int) -> int
    decreases MAX_NAME_LEN - i,
{
    if i < 0 || i >= MAX_NAME_LEN {
        MAX_NAME_LEN as int
    } else if data[off + i] == 0u8 {
        i
    } else {
        stored_name_len(data, off, i + 1)
    }
}

/// Decode the 256-byte inode record stored at `data[off .. off + 256]`.
/// A type field holding 1 decodes to `Directory`; any other value decodes
/// to `File`.
pub fn decode_inode(data: &[u8], off: usize) -> (f: File)
    requires
        off + FILE_STRUCT_SIZE <= data@.len(),
    ensures
        f.f_name@.len() == stored_name_len(data@, off as int, 0),
        f.f_name@ == data@.subrange(off as int, off + stored_name_len(data@, off as int, 0)),
        f.f_size == le_u32_at(data@, off + 128),
        f.f_type == (if le_u32_at(data@, off + 132) == 1u32 {
            FileType::Directory
        } else {
            FileType::File
        }),
        f.f_direct@.len() == DIRECT_PTR_CNT,
        forall|k: int| 0 <= k < DIRECT_PTR_CNT ==> f.f_direct@[k] == le_u32_at(data@, off + 136 + 4 * k),
        f.f_indirect == le_u32_at(data@, off + 176),
{
    let n: usize = data.len();
    proof {
        assert(off + FILE_STRUCT_SIZE <= n);
    }
    let mut name: Vec<u8> = Vec::new();
    let mut i: usize = 0;
    let mut stopped: bool = false;
    while i < MAX_NAME_LEN as usize && !stopped
        invariant
            off + FILE_STRUCT_SIZE <= data@.len(),
            data@.len() <= usize::MAX,
            i <= MAX_NAME_LEN,
            !stopped ==> name@.len() == i,
            !stopped ==> name@ == data@.subrange(off as int, off + i),
            !stopped ==> forall|j: int| 0 <= j < i ==> #[trigger] data@[off + j] != 0u8,
            !stopped ==> stored_name_len(data@, off as int, 0) == stored_name_len(
                data@,
                off as int,
                i as int,
            ),
            stopped ==> name@.len() == stored_name_len(data@, off as int, 0),
            stopped ==> name@ == data@.subrange(
                off as int,
                off + stored_name_len(data@, off as int, 0),
            ),
        decreases MAX_NAME_LEN - i + (if stopped { 0int } else { 1 }),
    {
        let b = data[off + i];
        if b == 0 {
            stopped = true;
        } else {
            name.push(b);
            i = i + 1;
            proof {
                assert(name@ =~= data@.subrange(off as int, off + i));
            }
        }
    }
    proof {
        if !stopped {
            assert(stored_name_len(data@, off as int, MAX_NAME_LEN as int) == MAX_NAME_LEN);
        }
    }
    proof {
        assert(off + FILE_STRUCT_SIZE <= n);
    }
    let f_size = get_u32(data, off + 128);
    let tv = get_u32(data, off + 132);
    let f_type = if tv == 1 {
        FileType::Directory
    } else {
        FileType::File
    };
    let mut direct: Vec<u32> = Vec::new();
    let mut k: usize = 0;
    while k < DIRECT_PTR_CNT as usize
        invariant
            off + FILE_STRUCT_SIZE <= data@.len(),
            data@.len() <= usize::MAX,
            k <= DIRECT_PTR_CNT,
            direct@.len() == k,
            forall|j: int| 0 <= j < k ==> direct@[j] == le_u32_at(data@, off + 136 + 4 * j),
        decreases DIRECT_PTR_CNT - k,
    {
        direct.push(get_u32(data, off + 136 + 4 * k));
        k = k + 1;
    }
    let f_indirect = get_u32(data, off + 176);
    File { f_name: name, f_size, f_type, f_direct: direct, f_indirect }
}

/// Scanning the encoding of a well-formed record finds exactly its name:
/// the stored bytes are non-zero for the name's length and a terminator
/// follows.
proof fn lemma_stored_name_len_of_encoding(f: File, i: int)
    requires
        f.wf(),
        0 <= i <= f.f_name@.len(),
    ensures
        stored_name_len(inode_bytes(f), 0, i) == f.f_name@.len(),
    decreases f.f_name@.len() - i,
{
    if i < f.f_name@.len() {
        lemma_stored_name_len_of_encoding(f, i + 1);
    }
}

/// Decoding inverts encoding: every field read back from `inode_bytes(f)`
/// is the field of `f`.
pub proof fn lemma_inode_encode_decode(f: File)
    requires
        f.wf(),
    ensures
        stored_name_len(inode_bytes(f), 0, 0) == f.f_name@.len(),
        inode_bytes(f).subrange(0, f.f_name@.len() as int) == f.f_name@,
        le_u32_at(inode_bytes(f), 128) == f.f_size,
        le_u32_at(inode_bytes(f), 132) == file_type_val(f.f_type),
        forall|k: int|
            0 <= k < DIRECT_PTR_CNT ==> le_u32_at(inode_bytes(f), 136 + 4 * k) == f.f_direct@[k],
        le_u32_at(inode_bytes(f), 176) == f.f_indirect,
{
    lemma_stored_name_len_of_encoding(f, 0);
    assert(inode_bytes(f).subrange(0, f.f_name@.len() as int) =~= f.f_name@);
    lemma_le_u32_at_of_bytes(inode_bytes(f), 128, f.f_size);
    lemma_le_u32_at_of_bytes(inode_bytes(f), 132, file_type_val(f.f_type));
    assert forall|k: int| 0 <= k < DIRECT_PTR_CNT implies le_u32_at(inode_bytes(f), 136 + 4 * k)
        == f.f_direct@[k] by {
        assert forall|j: int| 0 <= j < 4 implies inode_bytes(f)[136 + 4 * k + j] == u32_byte(
            f.f_direct@[k],
            j,
        ) by {
            assert((136 + 4 * k + j - 136) / 4 == k && (136 + 4 * k + j - 136) % 4 == j);
        }
        lemma_le_u32_at_of_bytes(inode_bytes(f), 136 + 4 * k, f.f_direct@[k]);
    }
    lemma_le_u32_at_of_bytes(inode_bytes(f), 176, f.f_indirect);
}

/// Byte `i` of the superblock encoding: magic and block count as
/// little-endian words, then the root inode record.
pub open spec fn superblock_byte(sb: SuperBlock, i: int) -> u8 {
    if i < 4 {
        u32_byte(sb.s_magic, i)
    } else if i < 8 {
        u32_byte(sb.s_block_cnt, i - 4)
    } else {
        inode_byte(sb.s_root, i - 8)
    }
}

/// The 264-byte encoding of the superblock.
pub open spec fn superblock_bytes(sb: SuperBlock) -> Seq<u8> {
    Seq::new((FILE_STRUCT_SIZE + 8) as nat, |i: int| superblock_byte(sb, i))
}

impl SuperBlock {
    /// Encode the superblock into its fixed 264-byte layout.
    pub fn to_bytes(&self) -> (out: Vec<u8>)
        requires
            self.s_root.wf(),
        ensures
            out@ == superblock_bytes(*self),
            out@.len() == FILE_STRUCT_SIZE + 8,
    {
        let mut out: Vec<u8> = Vec::new();
        let mut i: usize = 0;
        while i < 8
            invariant
                i <= 8,
                out@.len() == i,
            decreases 8 - i,
        {
            out.push(0);
            i = i + 1;
        }
        put_u32(&mut out, 0, self.s_magic);
        put_u32(&mut out, 4, self.s_block_cnt);
        let root_bytes = encode_inode(&self.s_root);
        let mut j: usize = 0;
        while j < root_bytes.len()
            invariant
                root_bytes@.len() == FILE_STRUCT_SIZE,
                root_bytes@ == inode_bytes(self.s_root),
                j <= FILE_STRUCT_SIZE,
                out@.len() == 8 + j,
                forall|m: int| 0 <= m < 8 + j ==> out@[m] == superblock_byte(*self, m),
            decreases FILE_STRUCT_SIZE - j,
        {
            out.push(root_bytes[j]);
            j = j + 1;
        }
        proof {
            assert(out@ =~= superblock_bytes(*self));
        }
        out
    }
}

} // verus!
