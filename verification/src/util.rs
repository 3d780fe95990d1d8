//! Byte-order codecs shared by the on-disk structures.
use vstd::prelude::*;

verus! {

/// The little-endian `u32` held by the four bytes of `s` from index `i`.
pub open spec fn le32_at(s: Seq<u8>, i: int) -> u32 {
    ((s[i] as u32) | ((s[i + 1] as u32) << 8u32) | ((s[i + 2] as u32) << 16u32) | ((s[i + 3] as u32) << 24u32))
}

/// The big-endian `u32` held by the four bytes of `s` from index `i`.
pub open spec fn be32_at(s: Seq<u8>, i: int) -> u32 {
    (((s[i] as u32) << 24u32) | ((s[i + 1] as u32) << 16u32) | ((s[i + 2] as u32) << 8u32) | (s[i + 3] as u32))
}

/// The four little-endian bytes of `x`.
pub open spec fn le32_bytes(x: u32) -> Seq<u8> {
    seq![(x & 0xff) as u8, ((x >> 8u32) & 0xff) as u8, ((x >> 16u32) & 0xff) as u8, ((x >> 24u32) & 0xff) as u8]
}

/// The four big-endian bytes of `x`.
pub open spec fn be32_bytes(x: u32) -> Seq<u8> {
    seq![((x >> 24u32) & 0xff) as u8, ((x >> 16u32) & 0xff) as u8, ((x >> 8u32) & 0xff) as u8, (x & 0xff) as u8]
}

/// Decode the little-endian `u32` at `off` in `buf`.
pub fn read_le32(buf: &[u8], off: usize) -> (r: u32)
    requires
        off + 4 <= buf@.len(),
    ensures
        r == le32_at(buf@, off as int),
{
    (buf[off] as u32) | ((buf[off + 1] as u32) << 8u32) | ((buf[off + 2] as u32) << 16u32) | ((
    buf[off + 3] as u32) << 24u32)
}

/// Decode the big-endian `u32` at `off` in `buf`.
pub fn read_be32(buf: &[u8], off: usize) -> (r: u32)
    requires
        off + 4 <= buf@.len(),
    ensures
        r == be32_at(buf@, off as int),
{
    ((buf[off] as u32) << 24u32) | ((buf[off + 1] as u32) << 16u32) | ((buf[off + 2] as u32)
        << 8u32) | (buf[off + 3] as u32)
}

/// Encode `x` as four little-endian bytes.
pub fn le32_array(x: u32) -> (r: [u8; 4])
    ensures
        r@ == le32_bytes(x),
{
    let r = [(x & 0xff) as u8, ((x >> 8u32) & 0xff) as u8, ((x >> 16u32) & 0xff) as u8, ((x
        >> 24u32) & 0xff) as u8];
    assert(r@ =~= le32_bytes(x));
    r
}

/// Encode `x` as four big-endian bytes.
pub fn be32_array(x: u32) -> (r: [u8; 4])
    ensures
        r@ == be32_bytes(x),
{
    let r = [((x >> 24u32) & 0xff) as u8, ((x >> 16u32) & 0xff) as u8, ((x >> 8u32) & 0xff) as u8, (
    x & 0xff) as u8];
    assert(r@ =~= be32_bytes(x));
    r
}

/// Decoding the little-endian bytes of a value gives the value back, and so does the
/// big-endian pair of codecs.
pub proof fn lemma_codec_roundtrip(x: u32)
    ensures
        le32_at(le32_bytes(x), 0) == x,
        be32_at(be32_bytes(x), 0) == x,
{
    let b0 = (x & 0xff) as u8;
    let b1 = ((x >> 8u32) & 0xff) as u8;
    let b2 = ((x >> 16u32) & 0xff) as u8;
    let b3 = ((x >> 24u32) & 0xff) as u8;
    assert(((b0 as u32) | ((b1 as u32) << 8u32) | ((b2 as u32) << 16u32) | ((b3 as u32) << 24u32)) == x
        && (((b3 as u32) << 24u32) | ((b2 as u32) << 16u32) | ((b1 as u32) << 8u32) | (b0 as u32)) == x)
        by (bit_vector)
        requires
            b0 == (x & 0xff) as u8,
            b1 == ((x >> 8u32) & 0xff) as u8,
            b2 == ((x >> 16u32) & 0xff) as u8,
            b3 == ((x >> 24u32) & 0xff) as u8,
    ;
}

} // verus!

verus! {

/// 0 when the two pairs share a block, 1 otherwise.
pub fn lfs_pair_cmp(paira: &[u32; 2], pairb: &[u32; 2]) -> (r: i32)
    ensures
        r == (if paira[0] == pairb[0] || paira[1] == pairb[1] || paira[0] == pairb[1] || paira[1]
            == pairb[0] {
            0i32
        } else {
            1i32
        }),
{
    if paira[0] == pairb[0] || paira[1] == pairb[1] || paira[0] == pairb[1] || paira[1] == pairb[0] {
        0
    } else {
        1
    }
}

/// The pairs hold the same two blocks, in either order.
pub fn lfs_pair_issync(paira: &[u32; 2], pairb: &[u32; 2]) -> (r: bool)
    ensures
        r == ((paira[0] == pairb[0] && paira[1] == pairb[1]) || (paira[0] == pairb[1] && paira[1]
            == pairb[0])),
{
    (paira[0] == pairb[0] && paira[1] == pairb[1]) || (paira[0] == pairb[1] && paira[1] == pairb[0])
}

/// Either block is the null block.
pub fn lfs_pair_isnull(pair: &[u32; 2]) -> (r: bool)
    ensures
        r == (pair[0] == 0xffff_ffffu32 || pair[1] == 0xffff_ffffu32),
{
    pair[0] == 0xffff_ffff || pair[1] == 0xffff_ffff
}

/// Little-endian to host order. Values are held in host order and the host is
/// little-endian, so the conversion keeps the value.
pub fn lfs_fromle32(a: u32) -> (r: u32)
    ensures
        r == a,
{
    a
}

/// Host order to little-endian. Values are held in host order and the host is
/// little-endian, so the conversion keeps the value.
pub fn lfs_tole32(a: u32) -> (r: u32)
    ensures
        r == a,
{
    a
}

} // verus!

verus! {

/// Round `a` down to a multiple of `alignment`.
pub fn aligndown(a: u32, alignment: u32) -> (r: u32)
    requires
        alignment > 0,
    ensures
        r == a - a % alignment,
        r <= a,
        a - r < alignment,
        r % alignment == 0,
{
    proof {
        lemma_aligndown(a as int, alignment as int);
    }
    a - (a % alignment)
}

/// Round `a` up to a multiple of `alignment`.
pub fn alignup(a: u32, alignment: u32) -> (r: u32)
    requires
        alignment > 0,
        a + alignment - 1 <= u32::MAX,
    ensures
        r == (a + alignment - 1) - (a + alignment - 1) % alignment as int,
        a <= r < a + alignment,
        r % alignment == 0,
{
    let x = a + (alignment - 1);
    proof {
        lemma_aligndown(x as int, alignment as int);
    }
    x - (x % alignment)
}

/// Facts of rounding down: the remainder is below the alignment and what is left is a
/// multiple of it.
pub proof fn lemma_aligndown(a: int, m: int)
    requires
        m > 0,
        a >= 0,
    ensures
        0 <= a % m < m,
        a % m <= a,
        (a - a % m) % m == 0,
{
    if a < m {
        vstd::arithmetic::div_mod::lemma_small_mod(a as nat, m as nat);
    }
    vstd::arithmetic::div_mod::lemma_mod_bound(a, m);
    vstd::arithmetic::div_mod::lemma_fundamental_div_mod(a, m);
    let q = a / m;
    assert(a - a % m == m * q);
    vstd::arithmetic::div_mod::lemma_mod_multiples_basic(q, m);
    assert((q * m) % m == 0);
    assert(m * q == q * m) by (nonlinear_arith);
}

/// A positive multiple of `m` is at least `m`.
pub proof fn lemma_multiple_ge(c: int, m: int)
    requires
        c > 0,
        m > 0,
        c % m == 0,
    ensures
        c >= m,
{
    if c < m {
        vstd::arithmetic::div_mod::lemma_small_mod(c as nat, m as nat);
    }
}

/// A multiple of `m` below `c + m`, where `c` is a multiple of `m`, is at most `c`.
pub proof fn lemma_multiple_below(x: int, c: int, m: int)
    requires
        m > 0,
        x >= 0,
        c >= 0,
        x % m == 0,
        c % m == 0,
        x < c + m,
    ensures
        x <= c,
{
    vstd::arithmetic::div_mod::lemma_fundamental_div_mod(x, m);
    vstd::arithmetic::div_mod::lemma_fundamental_div_mod(c, m);
    let qx = x / m;
    let qc = c / m;
    assert(x == m * qx);
    assert(c == m * qc);
    assert(qx <= qc) by (nonlinear_arith)
        requires
            m * qx < m * qc + m,
            m > 0,
    ;
    assert(m * qx <= m * qc) by (nonlinear_arith)
        requires
            qx <= qc,
            m > 0,
    ;
}

} // verus!

verus! {

/// Differences and sums of multiples of `m` are multiples of `m`.
pub proof fn lemma_multiple_sub_add(a: int, b: int, m: int)
    requires
        m > 0,
        a % m == 0,
        b % m == 0,
    ensures
        (a - b) % m == 0,
        (a + b) % m == 0,
{
    vstd::arithmetic::div_mod::lemma_fundamental_div_mod(a, m);
    vstd::arithmetic::div_mod::lemma_fundamental_div_mod(b, m);
    let qa = a / m;
    let qb = b / m;
    assert(a - b == (qa - qb) * m) by (nonlinear_arith)
        requires a == m * qa + 0, b == m * qb + 0;
    assert(a + b == (qa + qb) * m) by (nonlinear_arith)
        requires a == m * qa + 0, b == m * qb + 0;
    vstd::arithmetic::div_mod::lemma_mod_multiples_basic(qa - qb, m);
    vstd::arithmetic::div_mod::lemma_mod_multiples_basic(qa + qb, m);
}

/// A multiple of a multiple of `m` is a multiple of `m`.
pub proof fn lemma_multiple_trans(a: int, b: int, m: int)
    requires
        m > 0,
        b > 0,
        a % b == 0,
        b % m == 0,
    ensures
        a % m == 0,
{
    vstd::arithmetic::div_mod::lemma_fundamental_div_mod(a, b);
    vstd::arithmetic::div_mod::lemma_fundamental_div_mod(b, m);
    let qa = a / b;
    let qb = b / m;
    assert(a == (qa * qb) * m) by (nonlinear_arith)
        requires a == b * qa + 0, b == m * qb + 0;
    vstd::arithmetic::div_mod::lemma_mod_multiples_basic(qa * qb, m);
}

/// Rounding a multiple up keeps it.
pub proof fn lemma_alignup_multiple(a: int, m: int)
    requires
        m > 0,
        a >= 0,
        a % m == 0,
    ensures
        (a + m - 1) - (a + m - 1) % m == a,
{
    vstd::arithmetic::div_mod::lemma_fundamental_div_mod(a, m);
    let q = a / m;
    assert(a + m - 1 == q * m + (m - 1)) by (nonlinear_arith)
        requires a == m * q + 0;
    vstd::arithmetic::div_mod::lemma_fundamental_div_mod_converse(a + m - 1, m, q, m - 1);
}

} // verus!
