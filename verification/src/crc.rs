//! CRC-32 (polynomial 0x04c11db7, reflected) with a 16-entry nibble table, as
//! littlefs computes it over revisions, tags and data.
use vstd::prelude::*;

verus! {

/// The nibble table of the reflected CRC-32.
pub open spec fn rtable(i: u32) -> u32 {
    if i == 0 { 0x0000_0000 }
    else if i == 1 { 0x1db7_1064 }
    else if i == 2 { 0x3b6e_20c8 }
    else if i == 3 { 0x26d9_30ac }
    else if i == 4 { 0x76dc_4190 }
    else if i == 5 { 0x6b6b_51f4 }
    else if i == 6 { 0x4db2_6158 }
    else if i == 7 { 0x5005_713c }
    else if i == 8 { 0xedb8_8320 }
    else if i == 9 { 0xf00f_9344 }
    else if i == 10 { 0xd6d6_a3e8 }
    else if i == 11 { 0xcb61_b38c }
    else if i == 12 { 0x9b64_c2b0 }
    else if i == 13 { 0x86d3_d2d4 }
    else if i == 14 { 0xa00a_e278 }
    else { 0xbdbd_f21c }
}

/// One nibble step of the CRC.
pub open spec fn crc_nibble(c: u32, n: u32) -> u32 {
    (c >> 4u32) ^ rtable((c ^ n) & 0xf)
}

/// One byte of the CRC: low nibble first.
pub open spec fn crc_byte(c: u32, b: u8) -> u32 {
    crc_nibble(crc_nibble(c, b as u32), (b >> 4u8) as u32)
}

/// The CRC of `s` continued from `c`.
pub open spec fn crc_seq(c: u32, s: Seq<u8>) -> u32
    decreases s.len(),
{
    if s.len() == 0 {
        c
    } else {
        crc_byte(crc_seq(c, s.drop_last()), s.last())
    }
}

fn rtable_lookup(i: u32) -> (r: u32)
    ensures
        r == rtable(i),
{
    if i == 0 { 0x0000_0000 }
    else if i == 1 { 0x1db7_1064 }
    else if i == 2 { 0x3b6e_20c8 }
    else if i == 3 { 0x26d9_30ac }
    else if i == 4 { 0x76dc_4190 }
    else if i == 5 { 0x6b6b_51f4 }
    else if i == 6 { 0x4db2_6158 }
    else if i == 7 { 0x5005_713c }
    else if i == 8 { 0xedb8_8320 }
    else if i == 9 { 0xf00f_9344 }
    else if i == 10 { 0xd6d6_a3e8 }
    else if i == 11 { 0xcb61_b38c }
    else if i == 12 { 0x9b64_c2b0 }
    else if i == 13 { 0x86d3_d2d4 }
    else if i == 14 { 0xa00a_e278 }
    else { 0xbdbd_f21c }
}

/// CRC-32 of `data` continued from `crc`.
pub fn crc32(crc: u32, data: &[u8]) -> (r: u32)
    ensures
        r == crc_seq(crc, data@),
{
    let mut c = crc;
    let mut i: usize = 0;
    while i < data.len()
        invariant
            i <= data@.len(),
            c == crc_seq(crc, data@.subrange(0, i as int)),
        decreases data@.len() - i,
    {
        let b = data[i];
        let c1 = (c >> 4u32) ^ rtable_lookup((c ^ (b as u32)) & 0xf);
        c = (c1 >> 4u32) ^ rtable_lookup((c1 ^ ((b >> 4u8) as u32)) & 0xf);
        proof {
            let s = data@.subrange(0, i + 1);
            assert(s.drop_last() =~= data@.subrange(0, i as int));
        }
        i = i + 1;
    }
    proof {
        assert(data@.subrange(0, data@.len() as int) =~= data@);
    }
    c
}

/// The CRC of the first `size` bytes of `buffer`, continued from `crc`.
pub fn lfs_crc(crc: u32, buffer: &[u8], size: usize) -> (r: u32)
    requires
        size <= buffer@.len(),
    ensures
        r == crc_seq(crc, buffer@.subrange(0, size as int)),
{
    let mut c = crc;
    let mut i: usize = 0;
    while i < size
        invariant
            size <= buffer@.len(),
            i <= size,
            c == crc_seq(crc, buffer@.subrange(0, i as int)),
        decreases size - i,
    {
        let b = buffer[i];
        let c1 = (c >> 4u32) ^ rtable_lookup((c ^ (b as u32)) & 0xf);
        c = (c1 >> 4u32) ^ rtable_lookup((c1 ^ ((b >> 4u8) as u32)) & 0xf);
        proof {
            let s = buffer@.subrange(0, i + 1);
            assert(s.drop_last() =~= buffer@.subrange(0, i as int));
        }
        i = i + 1;
    }
    c
}

/// The CRC is computed incrementally: continuing the CRC of `a` over `b` gives the
/// CRC of `a + b`.
pub proof fn lemma_crc_concat(c: u32, a: Seq<u8>, b: Seq<u8>)
    ensures
        crc_seq(crc_seq(c, a), b) == crc_seq(c, a + b),
    decreases b.len(),
{
    if b.len() == 0 {
        assert(a + b =~= a);
    } else {
        lemma_crc_concat(c, a, b.drop_last());
        assert((a + b).drop_last() =~= a + b.drop_last());
        assert((a + b).last() == b.last());
    }
}

} // verus!
