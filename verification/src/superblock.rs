//! Superblock and metadata layout constants.
use vstd::prelude::*;
use crate::util::{le32_at, le32_bytes};

verus! {

/// Disk version 2.1 (0x00020001).
pub const DISK_VERSION: u32 = 0x0002_0001;

/// Revision count at start of metadata block (4 bytes, little-endian).
pub const REVISION_OFFSET: u32 = 0;

/// Magic is at offset 12 in block. Layout: [rev:4][create_tag:4][sb_tag:4][magic:8]...
pub const MAGIC_OFFSET: u32 = 12;

/// Size of the on-disk superblock struct in bytes.
pub const SUPERBLOCK_SIZE: usize = 24;

/// The magic string "littlefs".
pub open spec fn magic() -> Seq<u8> {
    seq![0x6cu8, 0x69, 0x74, 0x74, 0x6c, 0x65, 0x66, 0x73]
}

/// The magic string "littlefs", stored at offset 8 of a valid superblock entry.
pub fn magic_bytes() -> (r: [u8; 8])
    ensures
        r@ == magic(),
{
    let r = [0x6cu8, 0x69, 0x74, 0x74, 0x6c, 0x65, 0x66, 0x73];
    assert(r@ =~= magic());
    r
}

/// On-disk superblock struct (little-endian).
#[derive(Clone, Copy, Debug, PartialEq, Eq, Structural)]
pub struct Superblock {
    pub version: u32,
    pub block_size: u32,
    pub block_count: u32,
    pub name_max: u32,
    pub file_max: u32,
    pub attr_max: u32,
}

/// The superblock that the 24 little-endian bytes of `s` from `i` hold.
pub open spec fn superblock_at(s: Seq<u8>, i: int) -> Superblock {
    Superblock {
        version: le32_at(s, i),
        block_size: le32_at(s, i + 4),
        block_count: le32_at(s, i + 8),
        name_max: le32_at(s, i + 12),
        file_max: le32_at(s, i + 16),
        attr_max: le32_at(s, i + 20),
    }
}

/// The 24 little-endian bytes of a superblock.
pub open spec fn superblock_bytes(sb: Superblock) -> Seq<u8> {
    le32_bytes(sb.version) + le32_bytes(sb.block_size) + le32_bytes(sb.block_count) + le32_bytes(
        sb.name_max,
    ) + le32_bytes(sb.file_max) + le32_bytes(sb.attr_max)
}

impl Superblock {
    /// Decode the superblock held by `buf` from `off`.
    pub fn decode(buf: &[u8], off: usize) -> (r: Superblock)
        requires
            off + 24 <= buf@.len(),
        ensures
            r == superblock_at(buf@, off as int),
    {
        let _n = buf.len();
        Superblock {
            version: crate::util::read_le32(buf, off),
            block_size: crate::util::read_le32(buf, off + 4),
            block_count: crate::util::read_le32(buf, off + 8),
            name_max: crate::util::read_le32(buf, off + 12),
            file_max: crate::util::read_le32(buf, off + 16),
            attr_max: crate::util::read_le32(buf, off + 20),
        }
    }

    /// Encode the superblock as 24 little-endian bytes.
    pub fn encode(&self) -> (r: Vec<u8>)
        ensures
            r@ == superblock_bytes(*self),
    {
        let mut v: Vec<u8> = Vec::new();
        let fields = [self.version, self.block_size, self.block_count, self.name_max, self.file_max, self.attr_max];
        let mut k: usize = 0;
        while k < 6
            invariant
                k <= 6,
                fields@ == seq![self.version, self.block_size, self.block_count, self.name_max, self.file_max, self.attr_max],
                v@ =~= (if k == 0 { Seq::<u8>::empty() } else if k == 1 { le32_bytes(self.version) }
                    else if k == 2 { le32_bytes(self.version) + le32_bytes(self.block_size) }
                    else if k == 3 { le32_bytes(self.version) + le32_bytes(self.block_size) + le32_bytes(self.block_count) }
                    else if k == 4 { le32_bytes(self.version) + le32_bytes(self.block_size) + le32_bytes(self.block_count) + le32_bytes(self.name_max) }
                    else if k == 5 { le32_bytes(self.version) + le32_bytes(self.block_size) + le32_bytes(self.block_count) + le32_bytes(self.name_max) + le32_bytes(self.file_max) }
                    else { superblock_bytes(*self) }),
            decreases 6 - k,
        {
            let b = crate::util::le32_array(fields[k]);
            v.push(b[0]);
            v.push(b[1]);
            v.push(b[2]);
            v.push(b[3]);
            k = k + 1;
        }
        v
    }
}

/// Four bytes equal to the encoding of `x` decode to `x`.
proof fn lemma_le32_in(s: Seq<u8>, i: int, x: u32)
    requires
        0 <= i,
        i + 4 <= s.len(),
        s.subrange(i, i + 4) == le32_bytes(x),
    ensures
        le32_at(s, i) == x,
{
    crate::util::lemma_codec_roundtrip(x);
    let b = le32_bytes(x);
    assert(s[i] == s.subrange(i, i + 4)[0]);
    assert(s[i + 1] == s.subrange(i, i + 4)[1]);
    assert(s[i + 2] == s.subrange(i, i + 4)[2]);
    assert(s[i + 3] == s.subrange(i, i + 4)[3]);
}

/// Decoding the encoded bytes of a superblock gives the superblock back: what
/// formatting writes is what mounting reads.
pub proof fn lemma_superblock_roundtrip(sb: Superblock)
    ensures
        superblock_bytes(sb).len() == 24,
        superblock_at(superblock_bytes(sb), 0) == sb,
{
    let s = superblock_bytes(sb);
    assert(s.subrange(0, 4) =~= le32_bytes(sb.version));
    assert(s.subrange(4, 8) =~= le32_bytes(sb.block_size));
    assert(s.subrange(8, 12) =~= le32_bytes(sb.block_count));
    assert(s.subrange(12, 16) =~= le32_bytes(sb.name_max));
    assert(s.subrange(16, 20) =~= le32_bytes(sb.file_max));
    assert(s.subrange(20, 24) =~= le32_bytes(sb.attr_max));
    lemma_le32_in(s, 0, sb.version);
    lemma_le32_in(s, 4, sb.block_size);
    lemma_le32_in(s, 8, sb.block_count);
    lemma_le32_in(s, 12, sb.name_max);
    lemma_le32_in(s, 16, sb.file_max);
    lemma_le32_in(s, 20, sb.attr_max);
}

} // verus!
