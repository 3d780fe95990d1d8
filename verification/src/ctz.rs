//! CTZ skip-lists: the block index and in-block offset of a file position, and
//! the walk from a file's head block to the block holding a position.
use vstd::prelude::*;
use crate::bdcache::{BdContext, BLOCK_NULL};
use crate::block::BlockDevice;
use crate::error::Error;
use crate::util::{le32_array, le32_at, read_le32};
use crate::lookahead::{lfs_alloc, Lookahead};

verus! {

/// Number of set bits of `a`.
pub open spec fn popc_spec(a: nat) -> nat
    decreases a,
{
    if a == 0 { 0 } else { (a % 2) + popc_spec(a / 2) }
}

/// Number of trailing zero bits of `a` (32 for zero).
pub open spec fn ctz_spec(a: nat, fuel: nat) -> nat
    decreases fuel,
{
    if fuel == 0 || a == 0 || a % 2 == 1 { if a == 0 { 32 } else { 0 } } else { 1 + ctz_spec(a / 2, (fuel - 1) as nat) }
}

/// Two to the power `k`.
pub open spec fn pow2(k: nat) -> nat
    decreases k,
{
    if k == 0 { 1 } else { 2 * pow2((k - 1) as nat) }
}

proof fn lemma_popc_le(a: nat, bits: nat)
    requires
        a < pow2(bits),
    ensures
        popc_spec(a) <= bits,
    decreases bits,
{
    if a > 0 {
        if bits == 0 {
        } else {
            lemma_popc_le(a / 2, (bits - 1) as nat);
        }
    }
}

proof fn lemma_pow2_32()
    ensures
        pow2(32) == 0x1_0000_0000,
{
    reveal_with_fuel(pow2, 33);
}

/// Population count (number of set bits).
pub fn popc(a: u32) -> (r: u32)
    ensures
        r == popc_spec(a as nat),
        r <= 32,
{
    let mut x = a;
    let mut c: u32 = 0;
    proof {
        lemma_pow2_32();
        lemma_popc_le(a as nat, 32);
    }
    while x > 0
        invariant
            c + popc_spec(x as nat) == popc_spec(a as nat),
            popc_spec(a as nat) <= 32,
        decreases x,
    {
        c = c + x % 2;
        x = x / 2;
    }
    c
}

/// Smallest power of 2 >= a, for 1 <= a <= 2^31; a itself for a <= 1.
/// This is the power itself; `ceil_log2` gives its exponent.
pub fn npw2(a: u32) -> (r: u32)
    requires
        a <= 0x8000_0000,
    ensures
        a <= 1 ==> r == a,
        a > 1 ==> exists|k: nat| r == #[trigger] pow2(k) && r >= a && pow2(k) / 2 < a,
{
    if a <= 1 {
        return a;
    }
    let mut p: u64 = 1;
    let ghost mut k: nat = 0;
    while p < a as u64
        invariant
            p == pow2(k),
            p / 2 < a,
            a <= 0x8000_0000,
            1 <= p <= 0x1_0000_0000,
        decreases 0x1_0000_0000 - p,
    {
        p = p * 2;
        proof {
            k = k + 1;
        }
    }
    p as u32
}

/// Count trailing zeros; 32 for zero.
pub fn ctz(a: u32) -> (r: u32)
    ensures
        r == ctz_spec(a as nat, 32),
        a == 0 ==> r == 32,
        a != 0 ==> r < 32,
        r <= 32,
{
    if a == 0 {
        return 32;
    }
    let mut x = a;
    let mut c: u32 = 0;
    proof {
        lemma_pow2_32();
        assert(pow2(0) == 1);
    }
    while x % 2 == 0 && c < 32
        invariant
            x > 0,
            c <= 32,
            c + ctz_spec(x as nat, (32 - c) as nat) == ctz_spec(a as nat, 32),
            x as int * pow2(c as nat) == a as int,
            pow2(32) == 0x1_0000_0000,
        decreases 32 - c,
    {
        proof {
            assert(x as int == 2 * (x / 2) as int);
            assert(pow2((c + 1) as nat) == 2 * pow2(c as nat));
            assert((x / 2) as int * pow2((c + 1) as nat) == a as int) by (nonlinear_arith)
                requires x as int == 2 * (x / 2) as int, pow2((c + 1) as nat) == 2 * pow2(c as nat), x as int * pow2(c as nat) == a as int;
        }
        x = x / 2;
        c = c + 1;
    }
    proof {
        if c == 32 {
            assert(x as int * pow2(32) >= pow2(32)) by (nonlinear_arith)
                requires x >= 1, pow2(32) >= 0;
        }
    }
    c
}

/// The block index of byte `size` of a file, and its offset in that block: block i
/// holds `b - 4 * popc(i)` bytes after its pointers (b = block_size - 8).
pub open spec fn ctz_index_spec(block_size: u32, size: u64) -> (u32, u64) {
    let b = (block_size - 8) as u64;
    let i0 = size / b;
    if i0 == 0 {
        (0, size)
    } else {
        let i = ((size - 4 * (popc_spec((i0 - 1) as u32 as nat) + 2)) / b as int) as u64;
        (i as u32, ((size - b * i) as u64).wrapping_sub((4 * popc_spec(i as u32 as nat)) as u64))
    }
}

/// Compute the CTZ block index for logical offset `*off` and update `*off` to the
/// offset within that block.
pub fn ctz_index(block_size: u32, off: &mut u64) -> (r: u32)
    requires
        128 <= block_size,
        *old(off) <= 0xffff_ffff,
    ensures
        (r, *final(off)) == ctz_index_spec(block_size, *old(off)),
        r as int * (block_size - 8) <= *old(off),
{
    let size = *off;
    let b = block_size as u64 - 8;
    let i0 = size / b;
    if i0 == 0 {
        return 0;
    }
    let p0 = popc((i0 - 1) as u32) as u64;
    proof {
        assert(i0 * b <= size) by (nonlinear_arith)
            requires i0 == size / b, b > 0;
        if i0 >= 2 {
            assert(i0 * b >= 2 * 120) by (nonlinear_arith)
                requires i0 >= 2, b >= 120;
        }
    }
    proof {
        if i0 == 1 {
            assert(popc_spec(0) == 0);
            assert(p0 == 0);
            assert(size >= b) by (nonlinear_arith)
                requires i0 * b <= size, i0 == 1;
        } else {
            assert(size >= 240) by (nonlinear_arith)
                requires i0 * b <= size, i0 >= 2, b >= 120;
        }
    }
    let num = size - 4 * (p0 + 2);
    let i = num / b;
    proof {
        assert(i * b <= num) by (nonlinear_arith)
            requires i == num / b, b > 0;
        assert(i * b == b * i) by (nonlinear_arith);
    }
    let p1 = popc(i as u32) as u64;
    *off = (size - b * i).wrapping_sub(4 * p1);
    i as u32
}

proof fn lemma_pow2_mono(i: nat, j: nat)
    requires
        i <= j,
    ensures
        pow2(i) <= pow2(j),
        pow2(i) >= 1,
    decreases j,
{
    if i < j {
        lemma_pow2_mono(i, (j - 1) as nat);
    } else if i > 0 {
        lemma_pow2_mono((i - 1) as nat, (i - 1) as nat);
    }
}

/// Smallest `k` with 2^k >= x, for 2 <= x <= 2^31 (the exponent form of lfs_npw2).
fn ceil_log2(x: u32) -> (k: u32)
    requires
        2 <= x <= 0x8000_0000,
    ensures
        1 <= k <= 31,
        pow2(k as nat) >= x,
        pow2((k - 1) as nat) < x,
{
    let mut p: u64 = 1;
    let mut k: u32 = 0;
    while k < 31 && p < x as u64
        invariant
            p == pow2(k as nat),
            k == 0 || pow2((k - 1) as nat) < x,
            1 <= p <= 0x8000_0000,
            k <= 31,
            x <= 0x8000_0000,
            2 <= x,
        decreases 31 - k,
    {
        proof {
            lemma_pow2_mono(k as nat, 30);
            reveal_with_fuel(pow2, 32);
        }
        p = p * 2;
        k = k + 1;
    }
    proof {
        reveal_with_fuel(pow2, 33);
    }
    k
}

/// 2^k as an integer, for k <= 31.
fn pow2_u32(k: u32) -> (r: u32)
    requires
        k <= 31,
    ensures
        r == pow2(k as nat),
{
    let mut r: u32 = 1;
    let mut i: u32 = 0;
    while i < k
        invariant
            i <= k <= 31,
            r == pow2(i as nat),
        decreases k - i,
    {
        proof {
            lemma_pow2_mono(i as nat, 30);
            reveal_with_fuel(pow2, 32);
        }
        r = r * 2;
        i = i + 1;
    }
    r
}

/// Largest `j` with 2^j <= d (0 for d < 2).
pub open spec fn log2_floor(d: nat) -> nat
    decreases d,
{
    if d < 2 { 0 } else { 1 + log2_floor(d / 2) }
}

proof fn lemma_log2_floor(d: nat, j: nat)
    requires
        pow2(j) <= d < pow2(j + 1),
    ensures
        log2_floor(d) == j,
    decreases j,
{
    if j == 0 {
        assert(d == 1);
    } else {
        assert(pow2(j) == 2 * pow2((j - 1) as nat));
        assert(pow2(j + 1) == 2 * pow2(j));
        lemma_log2_floor(d / 2, (j - 1) as nat);
    }
}

proof fn lemma_log2_floor_bound(d: nat)
    requires
        d >= 1,
    ensures
        1 <= pow2(log2_floor(d)) <= d,
    decreases d,
{
    if d >= 2 {
        lemma_log2_floor_bound(d / 2);
        assert(pow2(log2_floor(d)) == 2 * pow2(log2_floor(d / 2)));
    }
}

/// Pointer `k` of block `blk` of a skip-list: the little-endian word at offset 4k, as
/// reads through `ctx` see it.
pub open spec fn ctz_ptr<B: BlockDevice>(ctx: &BdContext<B>, blk: u32, k: nat) -> u32 {
    le32_at(ctx.logical_range(blk, 4 * k as int, 4), 0)
}

/// The pointer a lookup follows from block index `current` toward `target`: the longest
/// jump that block `current` holds (one per trailing zero of its index, plus one) and
/// that does not pass `target`.
pub open spec fn ctz_skip(current: nat, target: nat) -> nat {
    let a = log2_floor((current - target) as nat);
    let b = ctz_spec(current, 32);
    if a < b { a } else { b }
}

/// The block that a lookup of block index `target` reaches from `head`, the block of
/// index `current`, taking the longest jump at each step.
pub open spec fn ctz_walk<B: BlockDevice>(ctx: &BdContext<B>, head: u32, current: nat, target: nat) -> u32
    decreases current,
{
    if current <= target {
        head
    } else {
        let s = ctz_skip(current, target);
        if 1 <= pow2(s) <= current {
            ctz_walk(ctx, ctz_ptr(ctx, head, s), (current - pow2(s)) as nat, target)
        } else {
            head
        }
    }
}

/// The block of index `i` of a skip-list whose block of index `current` is `head`,
/// reached by following pointer 0 back one block at a time.
pub open spec fn ctz_block_at<B: BlockDevice>(ctx: &BdContext<B>, head: u32, current: nat, i: nat) -> u32
    decreases current,
{
    if current <= i { head } else { ctz_block_at(ctx, ctz_ptr(ctx, head, 0), (current - 1) as nat, i) }
}

/// The blocks of the skip-list whose block of index `current` is `head`, from that
/// block down to the block of index 0.
pub open spec fn ctz_blocks<B: BlockDevice>(ctx: &BdContext<B>, head: u32, current: nat) -> Seq<u32> {
    Seq::new(current + 1, |k: int| ctz_block_at(ctx, head, current, (current - k) as nat))
}

/// The skip-list ending in `head` at index `current` is well formed: pointer `k` of the
/// block of index `i` (for `k` up to the trailing zeros of `i`) leads to the block of
/// index `i - 2^k`.
pub open spec fn ctz_list_wf<B: BlockDevice>(ctx: &BdContext<B>, head: u32, current: nat) -> bool {
    forall|i: nat, k: nat|
        1 <= i <= current && k <= ctz_spec(i, 32) && pow2(k) <= i ==> #[trigger] ctz_ptr(
            ctx,
            ctz_block_at(ctx, head, current, i),
            k,
        ) == ctz_block_at(ctx, head, current, (i - pow2(k)) as nat)
}

/// In a well-formed skip-list, pointer 0 of the block of index `i` leads to the block
/// of index `i - 1`, and for even `i` pointer 1 leads to the block of index `i - 2`.
pub(crate) proof fn lemma_ptr_steps<B: BlockDevice>(ctx: &BdContext<B>, head: u32, current: nat, i: nat)
    requires
        1 <= i <= current,
        ctz_list_wf(ctx, head, current),
    ensures
        ctz_ptr(ctx, ctz_block_at(ctx, head, current, i), 0) == ctz_block_at(ctx, head, current, (i - 1) as nat),
        (i % 2 == 0) ==> ctz_ptr(ctx, ctz_block_at(ctx, head, current, i), 1) == ctz_block_at(ctx, head, current, (i - 2) as nat),
{
    assert(pow2(0) == 1);
    assert(pow2(1) == 2) by {
        assert(pow2(0) == 1);
    }
    assert(ctz_ptr(ctx, ctz_block_at(ctx, head, current, i), 0) == ctz_block_at(ctx, head, current, (i - pow2(0)) as nat));
    if i % 2 == 0 {
        assert(ctz_spec(i, 32) >= 1);
        assert(ctz_ptr(ctx, ctz_block_at(ctx, head, current, i), 1) == ctz_block_at(ctx, head, current, (i - pow2(1)) as nat));
    }
}

proof fn lemma_block_at_compose<B: BlockDevice>(ctx: &BdContext<B>, head: u32, current: nat, m: nat, t: nat)
    requires
        t <= m <= current,
    ensures
        ctz_block_at(ctx, ctz_block_at(ctx, head, current, m), m, t) == ctz_block_at(ctx, head, current, t),
    decreases current,
{
    if current > m {
        lemma_block_at_compose(ctx, ctz_ptr(ctx, head, 0), (current - 1) as nat, m, t);
    }
}

proof fn lemma_sublist_wf<B: BlockDevice>(ctx: &BdContext<B>, head: u32, current: nat, m: nat)
    requires
        m <= current,
        ctz_list_wf(ctx, head, current),
    ensures
        ctz_list_wf(ctx, ctz_block_at(ctx, head, current, m), m),
{
    let sub = ctz_block_at(ctx, head, current, m);
    assert forall|i: nat, k: nat| 1 <= i <= m && k <= ctz_spec(i, 32) && pow2(k) <= i implies #[trigger] ctz_ptr(
        ctx,
        ctz_block_at(ctx, sub, m, i),
        k,
    ) == ctz_block_at(ctx, sub, m, (i - pow2(k)) as nat) by {
        lemma_block_at_compose(ctx, head, current, m, i);
        lemma_block_at_compose(ctx, head, current, m, (i - pow2(k)) as nat);
        assert(ctz_ptr(ctx, ctz_block_at(ctx, head, current, i), k) == ctz_block_at(ctx, head, current, (i - pow2(k)) as nat));
    }
}

/// In a well-formed skip-list, the lookup that takes the longest jumps reaches the same
/// block as walking back one block at a time.
pub proof fn lemma_ctz_walk_finds_block<B: BlockDevice>(ctx: &BdContext<B>, head: u32, current: nat, target: nat)
    requires
        target <= current,
        ctz_list_wf(ctx, head, current),
    ensures
        ctz_walk(ctx, head, current, target) == ctz_block_at(ctx, head, current, target),
    decreases current,
{
    if current > target {
        let s = ctz_skip(current, target);
        let d = (current - target) as nat;
        lemma_log2_floor_bound(d);
        lemma_pow2_mono(s, log2_floor(d));
        let m = (current - pow2(s)) as nat;
        assert(ctz_block_at(ctx, head, current, current) == head);
        assert(ctz_ptr(ctx, ctz_block_at(ctx, head, current, current), s) == ctz_block_at(ctx, head, current, m));
        lemma_sublist_wf(ctx, head, current, m);
        lemma_ctz_walk_finds_block(ctx, ctz_block_at(ctx, head, current, m), m, target);
        lemma_block_at_compose(ctx, head, current, m, target);
    }
}

proof fn lemma_ctz_le_fuel(a: nat, fuel: nat)
    requires
        a > 0,
    ensures
        ctz_spec(a, fuel) <= fuel,
    decreases fuel,
{
    if fuel > 0 && a % 2 == 0 {
        lemma_ctz_le_fuel(a / 2, (fuel - 1) as nat);
    }
}

/// The bytes that reads give after one program of `data` at `off` of `blk`: the data
/// there, and what was read before elsewhere.
proof fn lemma_range_after_prog<B: BlockDevice>(c0: &BdContext<B>, c1: &BdContext<B>, blk: u32, off: int, data: Seq<u8>, b: u32, o: int, n: nat)
    requires
        forall|bb: u32, oo: int| #[trigger] c1.logical(bb, oo) == (if bb == blk && off <= oo < off + data.len() { data[oo - off] } else { c0.logical(bb, oo) }),
    ensures
        (b != blk || o + n <= off || off + data.len() <= o) ==> c1.logical_range(b, o, n) == c0.logical_range(b, o, n),
        (b == blk && o == off && n == data.len()) ==> c1.logical_range(b, o, n) == data,
{
    assert forall|k: int| 0 <= k < n implies #[trigger] c1.logical_range(b, o, n)[k] == c1.logical(b, o + k) && c0.logical_range(b, o, n)[k] == c0.logical(b, o + k) by {}
    if b != blk || o + n <= off || off + data.len() <= o {
        assert forall|k: int| 0 <= k < n implies c1.logical_range(b, o, n)[k] == c0.logical_range(b, o, n)[k] by {
            assert(c1.logical(b, o + k) == c0.logical(b, o + k));
        }
        assert(c1.logical_range(b, o, n) =~= c0.logical_range(b, o, n));
    }
    if b == blk && o == off && n == data.len() {
        assert forall|k: int| 0 <= k < n implies c1.logical_range(b, o, n)[k] == data[k] by {
            assert(c1.logical(b, o + k) == data[k]);
        }
        assert(c1.logical_range(b, o, n) =~= data);
    }
}

/// An even number is a multiple of `2p` exactly when its half is a multiple of `p`.
proof fn lemma_half_multiple(h: nat, p: nat)
    requires
        p > 0,
    ensures
        ((2 * h) % (2 * p) == 0) == (h % p == 0),
{
    vstd::arithmetic::div_mod::lemma_fundamental_div_mod(h as int, p as int);
    vstd::arithmetic::div_mod::lemma_fundamental_div_mod((2 * h) as int, (2 * p) as int);
    if h % p == 0 {
        let q = h / p;
        assert(2 * h == (q * (2 * p))) by (nonlinear_arith)
            requires h == p * q + 0;
        vstd::arithmetic::div_mod::lemma_mod_multiples_basic(q as int, (2 * p) as int);
    }
    if (2 * h) % (2 * p) == 0 {
        let q = (2 * h) / (2 * p);
        assert(h == q * p) by (nonlinear_arith)
            requires 2 * h == (2 * p) * q + 0;
        vstd::arithmetic::div_mod::lemma_mod_multiples_basic(q as int, p as int);
    }
}

/// A positive number has at least `m` trailing zero bits exactly when 2^m divides it.
pub proof fn lemma_ctz_divides(n: nat, m: nat, fuel: nat)
    requires
        n > 0,
        m <= fuel,
    ensures
        (ctz_spec(n, fuel) >= m) == (n % pow2(m) == 0),
    decreases m,
{
    if m > 0 {
        lemma_pow2_mono(0, (m - 1) as nat);
        if n % 2 == 1 {
            let p = pow2((m - 1) as nat);
            if n % pow2(m) == 0 {
                vstd::arithmetic::div_mod::lemma_fundamental_div_mod(n as int, pow2(m) as int);
                let q = n / pow2(m);
                assert(n == 2 * (p * q)) by (nonlinear_arith)
                    requires n == pow2(m) * q + 0, pow2(m) == 2 * p;
            }
        } else {
            let h = n / 2;
            assert(n == 2 * h);
            lemma_ctz_divides(h, (m - 1) as nat, (fuel - 1) as nat);
            lemma_half_multiple(h, pow2((m - 1) as nat));
        }
    }
}

/// Contexts with the same view reach the same block of a skip-list.
pub(crate) proof fn lemma_block_at_same_view<B: BlockDevice>(c1: &BdContext<B>, c2: &BdContext<B>, head: u32, current: nat, i: nat)
    requires
        c1.same_view(c2),
    ensures
        ctz_block_at(c1, head, current, i) == ctz_block_at(c2, head, current, i),
    decreases current,
{
    if current > i {
        crate::bdcache::lemma_same_view_range(c1, c2, head, 0, 4);
        lemma_block_at_same_view(c1, c2, ctz_ptr(c1, head, 0), (current - 1) as nat, i);
    }
}

/// Contexts with the same view see the same skip-list, well formed or not.
pub(crate) proof fn lemma_list_same_view<B: BlockDevice>(c1: &BdContext<B>, c2: &BdContext<B>, head: u32, current: nat)
    requires
        c1.same_view(c2),
    ensures
        ctz_list_wf(c1, head, current) == ctz_list_wf(c2, head, current),
        ctz_blocks(c1, head, current) == ctz_blocks(c2, head, current),
{
    assert forall|i: nat, k: nat| #![trigger ctz_block_at(c1, head, current, i), ctz_ptr(c1, ctz_block_at(c1, head, current, i), k)]
        i <= current implies ctz_ptr(c1, ctz_block_at(c1, head, current, i), k) == ctz_ptr(c2, ctz_block_at(c2, head, current, i), k) by {
        lemma_block_at_same_view(c1, c2, head, current, i);
        crate::bdcache::lemma_same_view_range(c1, c2, ctz_block_at(c1, head, current, i), 4 * k as int, 4);
    }
    assert forall|i: nat| i <= current implies #[trigger] ctz_block_at(c1, head, current, i) == ctz_block_at(c2, head, current, i) by {
        lemma_block_at_same_view(c1, c2, head, current, i);
    }
    if ctz_list_wf(c1, head, current) {
        assert forall|i: nat, k: nat|
            1 <= i <= current && k <= ctz_spec(i, 32) && pow2(k) <= i implies #[trigger] ctz_ptr(
                c2,
                ctz_block_at(c2, head, current, i),
                k,
            ) == ctz_block_at(c2, head, current, (i - pow2(k)) as nat) by {
            assert(ctz_ptr(c1, ctz_block_at(c1, head, current, i), k) == ctz_block_at(c1, head, current, (i - pow2(k)) as nat));
            assert(ctz_block_at(c1, head, current, (i - pow2(k)) as nat) == ctz_block_at(c2, head, current, (i - pow2(k)) as nat));
        }
    }
    if ctz_list_wf(c2, head, current) {
        assert forall|i: nat, k: nat|
            1 <= i <= current && k <= ctz_spec(i, 32) && pow2(k) <= i implies #[trigger] ctz_ptr(
                c1,
                ctz_block_at(c1, head, current, i),
                k,
            ) == ctz_block_at(c1, head, current, (i - pow2(k)) as nat) by {
            assert(ctz_ptr(c2, ctz_block_at(c2, head, current, i), k) == ctz_block_at(c2, head, current, (i - pow2(k)) as nat));
            assert(ctz_block_at(c1, head, current, (i - pow2(k)) as nat) == ctz_block_at(c2, head, current, (i - pow2(k)) as nat));
            assert(ctz_ptr(c1, ctz_block_at(c1, head, current, i), k) == ctz_ptr(c2, ctz_block_at(c2, head, current, i), k));
        }
    }
    assert(ctz_blocks(c1, head, current) =~= ctz_blocks(c2, head, current));
}

/// Contexts with the same view take the same walk.
pub(crate) proof fn lemma_walk_same_view<B: BlockDevice>(c1: &BdContext<B>, c2: &BdContext<B>, head: u32, current: nat, target: nat)
    requires
        c1.same_view(c2),
    ensures
        ctz_walk(c1, head, current, target) == ctz_walk(c2, head, current, target),
    decreases current,
{
    if current > target {
        let s = ctz_skip(current, target);
        crate::bdcache::lemma_same_view_range(c1, c2, head, 4 * s as int, 4);
        if 1 <= pow2(s) <= current {
            lemma_walk_same_view(c1, c2, ctz_ptr(c1, head, s), (current - pow2(s)) as nat, target);
        }
    }
}

/// The `n` bytes of a skip-list file of `size` bytes whose last block is `head`, from
/// byte `pos`, as reads through `ctx` see them. Byte `pos` sits in the block that a
/// lookup of its block index reaches, at its offset in that block (taken as a 32-bit
/// offset); the bytes after it in that block are the file's next bytes, up to the end
/// of the block, where the next block takes over.
pub open spec fn ctz_bytes<B: BlockDevice>(ctx: &BdContext<B>, head: u32, size: u64, pos: u64, n: nat) -> Seq<u8>
    decreases n,
{
    let bs = ctx.config.block_size;
    let o = ctz_index_spec(bs, pos).1 as u32;
    if n == 0 || o >= bs {
        Seq::empty()
    } else {
        let last = ctz_index_spec(bs, (size - 1) as u64).0;
        let blk = ctz_walk(ctx, head, last as nat, ctz_index_spec(bs, pos).0 as nat);
        let w: nat = if n < bs - o { n } else { (bs - o) as nat };
        ctx.logical_range(blk, o as int, w) + ctz_bytes(ctx, head, size, (pos + w) as u64, (n - w) as nat)
    }
}

/// Contexts with the same view read the same bytes of a skip-list file.
pub proof fn lemma_ctz_bytes_same_view<B: BlockDevice>(c1: &BdContext<B>, c2: &BdContext<B>, head: u32, size: u64, pos: u64, n: nat)
    requires
        c1.same_view(c2),
    ensures
        ctz_bytes(c1, head, size, pos, n) == ctz_bytes(c2, head, size, pos, n),
    decreases n,
{
    let bs = c1.config.block_size;
    let o = ctz_index_spec(bs, pos).1 as u32;
    if n > 0 && o < bs {
        let last = ctz_index_spec(bs, (size - 1) as u64).0;
        lemma_walk_same_view(c1, c2, head, last as nat, ctz_index_spec(bs, pos).0 as nat);
        let blk = ctz_walk(c1, head, last as nat, ctz_index_spec(bs, pos).0 as nat);
        let w: nat = if n < bs - o { n } else { (bs - o) as nat };
        crate::bdcache::lemma_same_view_range(c1, c2, blk, o as int, w);
        lemma_ctz_bytes_same_view(c1, c2, head, size, (pos + w) as u64, (n - w) as nat);
    }
}

/// The block index of the formula stays within one of `size / b` (b = block_size - 8).
proof fn lemma_ctz_index_near(bs: u32, size: u64)
    requires
        128 <= bs,
        size <= 0xffff_ffff,
    ensures
        ({
            let b = (bs - 8) as int;
            let i0 = size as int / b;
            &&& i0 == 0 ==> ctz_index_spec(bs, size).0 == 0
            &&& i0 >= 1 ==> i0 - 1 <= ctz_index_spec(bs, size).0 <= i0
            &&& i0 >= 1 ==> ctz_index_spec(bs, size).0 == (size - 4 * (popc_spec((i0 - 1) as u32 as nat) + 2)) / b
        }),
{
    let b = (bs - 8) as u64;
    let i0 = size / b;
    assert(i0 < 0x0400_0000) by (nonlinear_arith)
        requires i0 == size / b, b >= 120, size <= 0xffff_ffff;
    if i0 > 0 {
        reveal_with_fuel(pow2, 27);
        assert(pow2(26) == 0x0400_0000);
        lemma_popc_le((i0 - 1) as u32 as nat, 26);
        let pc = popc_spec((i0 - 1) as u32 as nat);
        assert(pc <= 26);
        assert(i0 * b <= size && size < (i0 + 1) * b) by (nonlinear_arith)
            requires i0 == size / b, b > 0;
        let num = size - 4 * (pc + 2);
        assert(num >= (i0 - 1) * b) by (nonlinear_arith)
            requires num == size - 4 * (pc + 2), pc <= 26, i0 * b <= size, b >= 120;
        assert(num < (i0 + 1) * b);
        let q = num / b as int;
        assert(i0 - 1 <= q <= i0) by (nonlinear_arith)
            requires q == num / b as int, (i0 - 1) * b <= num, num < (i0 + 1) * b, b > 0, i0 >= 1;
        assert(ctz_index_spec(bs, size).0 == q);
    }
}

/// The block index of the formula never decreases as the position grows.
pub proof fn lemma_ctz_index_mono(bs: u32, s: u64, t: u64)
    requires
        128 <= bs,
        s <= t <= 0xffff_ffff,
    ensures
        ctz_index_spec(bs, s).0 <= ctz_index_spec(bs, t).0,
{
    let b = (bs - 8) as u64;
    lemma_ctz_index_near(bs, s);
    lemma_ctz_index_near(bs, t);
    let i0s = s / b;
    let i0t = t / b;
    assert(i0s <= i0t) by (nonlinear_arith)
        requires i0s == s / b, i0t == t / b, s <= t, b > 0;
    if i0s >= 1 && i0s == i0t {
        let pc = popc_spec((i0s - 1) as u32 as nat);
        let ns = s - 4 * (pc + 2);
        let nt = t - 4 * (pc + 2);
        assert(ns / b as int <= nt / b as int) by (nonlinear_arith)
            requires ns <= nt, b > 0;
    }
}

/// In a well-formed skip-list, the list that ends at its block of index `m` is the
/// prefix of blocks 0 to `m`: a walk from there reaches the same blocks.
pub proof fn lemma_walk_prefix<B: BlockDevice>(ctx: &BdContext<B>, head: u32, last: nat, m: nat, t: nat)
    requires
        t <= m <= last,
        ctz_list_wf(ctx, head, last),
    ensures
        ctz_list_wf(ctx, ctz_walk(ctx, head, last, m), m),
        ctz_walk(ctx, ctz_walk(ctx, head, last, m), m, t) == ctz_walk(ctx, head, last, t),
{
    lemma_ctz_walk_finds_block(ctx, head, last, m);
    lemma_ctz_walk_finds_block(ctx, head, last, t);
    lemma_sublist_wf(ctx, head, last, m);
    let sub = ctz_block_at(ctx, head, last, m);
    lemma_ctz_walk_finds_block(ctx, sub, m, t);
    lemma_block_at_compose(ctx, head, last, m, t);
}

/// Cutting a well-formed skip-list file of `s1` bytes down to `s2` bytes, with the
/// block that holds byte `s2 - 1` as the new last block, keeps every byte below `s2`.
pub proof fn lemma_ctz_cut_keeps_bytes<B: BlockDevice>(ctx: &BdContext<B>, head: u32, s1: u64, s2: u64, p: u64, n: nat)
    requires
        128 <= ctx.config.block_size,
        0 < s2 <= s1 <= 0xffff_ffff,
        p + n <= s2,
        ctz_list_wf(ctx, head, ctz_index_spec(ctx.config.block_size, (s1 - 1) as u64).0 as nat),
    ensures
        ctz_bytes(
            ctx,
            ctz_walk(
                ctx,
                head,
                ctz_index_spec(ctx.config.block_size, (s1 - 1) as u64).0 as nat,
                ctz_index_spec(ctx.config.block_size, (s2 - 1) as u64).0 as nat,
            ),
            s2,
            p,
            n,
        ) == ctz_bytes(ctx, head, s1, p, n),
    decreases n,
{
    let bs = ctx.config.block_size;
    let last = ctz_index_spec(bs, (s1 - 1) as u64).0 as nat;
    let m = ctz_index_spec(bs, (s2 - 1) as u64).0 as nat;
    let h2 = ctz_walk(ctx, head, last, m);
    let o = ctz_index_spec(bs, p).1 as u32;
    if n > 0 && o < bs {
        lemma_ctz_index_mono(bs, (s2 - 1) as u64, (s1 - 1) as u64);
        lemma_ctz_index_mono(bs, p, (s2 - 1) as u64);
        let t = ctz_index_spec(bs, p).0 as nat;
        lemma_walk_prefix(ctx, head, last, m, t);
        let w: nat = if n < bs - o { n } else { (bs - o) as nat };
        lemma_ctz_cut_keeps_bytes(ctx, head, s1, s2, (p + w) as u64, (n - w) as nat);
    }
}

/// Find the block and offset holding the byte at logical position `pos` of a file of
/// `size` bytes whose skip-list starts at `head`. Each step follows the pointer that
/// skips the most blocks without passing the target.
pub fn ctz_find<B: BlockDevice>(ctx: &mut BdContext<B>, head: u32, size: u64, pos: u64) -> (r: Result<(u32, u32), Error>)
    requires
        old(ctx).wf(),
        size <= 0xffff_ffff,
        pos <= 0xffff_ffff,
    ensures
        final(ctx).wf(),
        final(ctx).same_view(&*old(ctx)),
        final(ctx).bd == old(ctx).bd,
        size == 0 ==> r == Ok::<(u32, u32), Error>((BLOCK_NULL, 0)),
        (size > 0 && r is Ok) ==> r->Ok_0.1 == ctz_index_spec(old(ctx).config.block_size, pos).1 as u32,
        (size > 0 && r is Ok) ==> r->Ok_0.0 == ctz_walk(
            &*old(ctx),
            head,
            ctz_index_spec(old(ctx).config.block_size, (size - 1) as u64).0 as nat,
            ctz_index_spec(old(ctx).config.block_size, pos).0 as nat,
        ),
{
    if size == 0 {
        return Ok((BLOCK_NULL, 0));
    }
    let block_size = ctx.config.block_size;
    let mut current_off = size - 1;
    let mut current = ctz_index(block_size, &mut current_off);
    let mut target_off = pos;
    let target = ctz_index(block_size, &mut target_off);
    let ghost head0 = head;
    let ghost current0 = current;
    let mut head = head;
    proof {
        assert(current <= 0x0300_0000) by (nonlinear_arith)
            requires current as int * (block_size - 8) <= 0xffff_ffff, block_size >= 128;
    }
    while current > target
        invariant
            ctx.wf(),
            ctx.same_view(&*old(ctx)),
            ctx.bd == old(ctx).bd,
            ctx.pcache == old(ctx).pcache,
            ctz_walk(&*old(ctx), head, current as nat, target as nat) == ctz_walk(&*old(ctx), head0, current0 as nat, target as nat),
            size > 0,
            block_size == ctx.config.block_size,
            128 <= block_size,
            current <= 0x0300_0000,
        decreases current,
    {
        let d = current - target;
        let k = ceil_log2(d + 1);
        let tz = ctz(current);
        let skip = if k - 1 < tz { k - 1 } else { tz };
        let mut next: Vec<u8> = vec![0u8; 4];
        let ghost mid = *ctx;
        match ctx.read(head, 4 * skip, next.as_mut_slice()) {
            Err(e) => {
                proof {
                    assert forall|b: u32, o: int| #[trigger] ctx.logical(b, o) == old(ctx).logical(b, o) by {
                        assert(ctx.logical(b, o) == mid.logical(b, o));
                    }
                }
                return Err(e);
            },
            Ok(()) => {},
        }
        proof {
            assert forall|b: u32, o: int| #[trigger] ctx.logical(b, o) == old(ctx).logical(b, o) by {
                assert(ctx.logical(b, o) == mid.logical(b, o));
            }
        }
        let step = pow2_u32(skip);
        proof {
            lemma_pow2_mono(skip as nat, (k - 1) as nat);
            lemma_log2_floor(d as nat, (k - 1) as nat);
            assert(skip as nat == ctz_skip(current as nat, target as nat));
            assert(next@ == old(ctx).logical_range(head, 4 * skip as int, 4));
        }
        head = read_le32(&next, 0);
        current = current - step;
    }
    Ok((head, target_off as u32))
}

/// The skip-list that a new block `nb` of index `last + 1` starts, whose pointer k
/// (for k up to the trailing zeros of `last + 1`) was written as `w[k]`, where w[0] is
/// the old last block `head` and each next value is pointer k of the block before: when
/// the old list is well formed and does not hold `nb`, the new list is well formed and
/// its blocks below `nb` are the old list's.
proof fn lemma_extend_law<B: BlockDevice>(c: &BdContext<B>, head: u32, nb: u32, last: nat, w: Seq<u32>)
    requires
        last + 1 < 0x1_0000_0000,
        w.len() == ctz_spec(last + 1, 32) + 2,
        w[0] == head,
        forall|k: nat| k <= ctz_spec(last + 1, 32) ==> #[trigger] ctz_ptr(c, nb, k) == w[k as int],
        forall|k: nat| k < ctz_spec(last + 1, 32) && w[k as int] != nb ==> #[trigger] w[k + 1int] == ctz_ptr(c, w[k as int], k),
    ensures
        (ctz_list_wf(c, head, last) && !ctz_blocks(c, head, last).contains(nb)) ==> ctz_list_wf(c, nb, last + 1) && forall|t: nat|
            t <= last ==> #[trigger] ctz_block_at(c, nb, last + 1, t) == ctz_block_at(c, head, last, t),
{
    if ctz_list_wf(c, head, last) && !ctz_blocks(c, head, last).contains(nb) {
        let n = last + 1;
        let z = ctz_spec(n, 32);
        assert(ctz_ptr(c, nb, 0) == w[0]);
        assert forall|t: nat| t <= last implies #[trigger] ctz_block_at(c, nb, last + 1, t) == ctz_block_at(c, head, last, t) by {
            assert(ctz_block_at(c, nb, last + 1, t) == ctz_block_at(c, ctz_ptr(c, nb, 0), last, t));
        }
        // w[k] is the block of index n - 2^k of the old list.
        assert forall|k: nat| k <= z implies #[trigger] w[k as int] == ctz_block_at(c, head, last, (n - pow2(k)) as nat) && pow2(k) <= n by {
            lemma_extend_values(c, head, nb, last, w, k);
        }
        assert forall|i: nat, k: nat|
            1 <= i <= n && k <= ctz_spec(i, 32) && pow2(k) <= i implies #[trigger] ctz_ptr(c, ctz_block_at(c, nb, n, i), k)
            == ctz_block_at(c, nb, n, (i - pow2(k)) as nat) by {
            lemma_pow2_mono(0, k);
            if i <= last {
                assert(ctz_block_at(c, nb, n, i) == ctz_block_at(c, head, last, i));
                assert(ctz_block_at(c, nb, n, (i - pow2(k)) as nat) == ctz_block_at(c, head, last, (i - pow2(k)) as nat));
            } else {
                assert(ctz_block_at(c, nb, n, i) == nb);
                assert(w[k as int] == ctz_block_at(c, head, last, (n - pow2(k)) as nat));
                assert(ctz_block_at(c, nb, n, (i - pow2(k)) as nat) == ctz_block_at(c, head, last, (n - pow2(k)) as nat));
            }
        }
    }
}

proof fn lemma_extend_values<B: BlockDevice>(c: &BdContext<B>, head: u32, nb: u32, last: nat, w: Seq<u32>, k: nat)
    requires
        last + 1 < 0x1_0000_0000,
        k <= ctz_spec(last + 1, 32),
        w.len() == ctz_spec(last + 1, 32) + 2,
        w[0] == head,
        forall|j: nat| j < ctz_spec(last + 1, 32) && w[j as int] != nb ==> #[trigger] w[j + 1int] == ctz_ptr(c, w[j as int], j),
        ctz_list_wf(c, head, last),
        !ctz_blocks(c, head, last).contains(nb),
    ensures
        pow2(k) <= last + 1,
        w[k as int] == ctz_block_at(c, head, last, (last + 1 - pow2(k)) as nat),
    decreases k,
{
    let n = last + 1;
    lemma_ctz_le_fuel(n, 32);
    lemma_ctz_divides(n, k, 32);
    lemma_pow2_mono(0, k);
    assert(pow2(k) <= n) by (nonlinear_arith)
        requires n % pow2(k) == 0, n > 0, pow2(k) > 0;
    if k == 0 {
        assert(pow2(0) == 1);
    } else {
        let j = (k - 1) as nat;
        lemma_extend_values(c, head, nb, last, w, j);
        let p = pow2(j);
        assert(pow2(k) == 2 * p);
        let i2 = (n - p) as nat;
        // i2 = n - 2^j is a multiple of 2^j and not of 2^(j+1).
        lemma_pow2_mono(0, j);
        assert(i2 % p == 0) by {
            lemma_ctz_divides(n, j, 32);
            vstd::arithmetic::div_mod::lemma_fundamental_div_mod(n as int, p as int);
            let q = n / p;
            assert(i2 == (q - 1) * p) by (nonlinear_arith)
                requires n == p * q + 0, i2 == n - p;
            vstd::arithmetic::div_mod::lemma_mod_multiples_basic((q - 1) as int, p as int);
        }
        lemma_ctz_divides(i2, j, 32);
        assert(1 <= i2 <= last);
        assert(ctz_blocks(c, head, last)[(last - i2) as int] == ctz_block_at(c, head, last, i2));
        assert(w[j as int] != nb);
        assert(w[j + 1int] == ctz_ptr(c, w[j as int], j));
        assert(ctz_ptr(c, ctz_block_at(c, head, last, i2), j) == ctz_block_at(c, head, last, (i2 - p) as nat));
    }
}

/// Get a block to continue a skip-list of `size` bytes whose last block is `head`:
/// a newly allocated, erased block. With an empty list it starts the list. When the
/// last block is not full, its bytes are copied to the new block, which takes its
/// place. Otherwise the new block is appended, starting with its pointers: to `head`,
/// then to every 2^i-th block before it for the trailing zeros of its index. A block
/// that fails to erase or program is replaced. Returns the block and the offset where
/// data goes on.
pub fn ctz_extend<B: BlockDevice>(
    ctx: &mut BdContext<B>,
    root: [u32; 2],
    lookahead: &mut Lookahead,
    head: u32,
    size: u64,
) -> (r: Result<(u32, u32), Error>)
    requires
        old(ctx).wf(),
        old(lookahead).wf(&old(ctx).config),
        size <= 0xffff_ffff,
    ensures
        final(ctx).wf(),
        final(ctx).config == old(ctx).config,
        final(lookahead).wf(&final(ctx).config),
        final(lookahead).ckpoint <= old(lookahead).ckpoint,
        r matches Ok((b, off)) ==> b < old(ctx).config.block_count && off <= old(ctx).config.block_size,
        (size == 0 && r is Ok) ==> r->Ok_0.1 == 0,
        ({
            let bs = old(ctx).config.block_size;
            let last = ctz_index_spec(bs, (size - 1) as u64).0 as nat;
            let nb = r->Ok_0.0;
            (r is Ok && size > 0 && old(ctx).bd.reliable() && ctz_index_spec(bs, (size - 1) as u64).1 + 1 == bs
                && ctz_list_wf(&*final(ctx), head, last) && !ctz_blocks(&*final(ctx), head, last).contains(nb)) ==> ctz_list_wf(
                &*final(ctx),
                nb,
                last + 1,
            ) && forall|t: nat| t <= last ==> #[trigger] ctz_block_at(&*final(ctx), nb, last + 1, t) == ctz_block_at(
                &*final(ctx),
                head,
                last,
                t,
            )
        }),
        ({
            let bs = old(ctx).config.block_size;
            let used = ctz_index_spec(bs, (size - 1) as u64).1 + 1;
            let nb = r->Ok_0.0;
            (r is Ok && size > 0 && old(ctx).bd.reliable() && used != bs && nb != head) ==> r->Ok_0.1 == used && forall|j: int|
                0 <= j < used ==> #[trigger] final(ctx).logical(nb, j) == final(ctx).logical(head, j)
        }),
{
    let block_size = ctx.config.block_size;
    loop
        invariant
            ctx.wf(),
            ctx.config == old(ctx).config,
            block_size == ctx.config.block_size,
            128 <= block_size,
            lookahead.wf(&ctx.config),
            lookahead.ckpoint <= old(lookahead).ckpoint,
            size <= 0xffff_ffff,
            ctx.bd.reliable() == old(ctx).bd.reliable(),
        decreases lookahead.ckpoint,
    {
        let nblock = lfs_alloc(ctx, root, lookahead)?;
        match ctx.erase(nblock) {
            Ok(()) => {},
            Err(e) => {
                if e == Error::Corrupt {
                    continue;
                }
                return Err(e);
            },
        }
        if size == 0 {
            return Ok((nblock, 0));
        }
        let mut noff = size - 1;
        let index = ctz_index(block_size, &mut noff);
        if noff >= block_size as u64 {
            return Err(Error::Corrupt);
        }
        let noff = noff + 1;
        if noff != block_size as u64 {
            let mut i: u64 = 0;
            let mut relocate = false;
            while i < noff
                invariant_except_break
                    !relocate,
                invariant
                    ctx.wf(),
                    ctx.config == old(ctx).config,
                    block_size == ctx.config.block_size,
                    noff < block_size,
                    nblock < ctx.config.block_count,
                    i <= noff,
                    lookahead.wf(&ctx.config),
                    lookahead.ckpoint <= old(lookahead).ckpoint,
                    ctx.bd.reliable() == old(ctx).bd.reliable(),
                    (ctx.bd.reliable() && head != nblock && !relocate) ==> forall|j: int| 0 <= j < i ==> #[trigger] ctx.logical(nblock, j)
                        == ctx.logical(head, j),
                ensures
                    !relocate ==> i == noff,
                decreases noff - i,
            {
                let mut data: Vec<u8> = vec![0u8; 1];
                let ghost c0 = *ctx;
                ctx.read(head, i as u32, data.as_mut_slice())?;
                let ghost c1 = *ctx;
                proof {
                    assert(data@[0] == c0.logical_range(head, i as int, 1)[0]);
                    assert(c1.logical(head, i as int) == c0.logical(head, i as int));
                    if c0.bd.reliable() && head != nblock {
                        assert forall|j: int| 0 <= j < i implies #[trigger] c1.logical(nblock, j) == c1.logical(head, j) by {
                            assert(c1.logical(nblock, j) == c0.logical(nblock, j));
                            assert(c1.logical(head, j) == c0.logical(head, j));
                            assert(c0.logical(nblock, j) == c0.logical(head, j));
                        }
                    }
                }
                match ctx.prog(nblock, i as u32, data.as_slice()) {
                    Ok(()) => {},
                    Err(e) => {
                        if e == Error::Corrupt {
                            relocate = true;
                            break;
                        }
                        return Err(e);
                    },
                }
                i = i + 1;
            }
            if relocate {
                crate::bdcache::pcache_drop(&mut ctx.pcache);
                continue;
            }
            return Ok((nblock, noff as u32));
        }
        let ghost last = index as nat;
        let index = index + 1;
        let skips = ctz(index) + 1;
        let mut nhead = head;
        let mut i: u32 = 0;
        let mut relocate = false;
        let ghost rel = ctx.bd.reliable();
        let ghost mut w: Seq<u32> = seq![head];
        proof {
            assert(index > 0);
            assert(rel == old(ctx).bd.reliable());
        }
        while i < skips
            invariant_except_break
                !relocate,
            invariant
                ctx.wf(),
                ctx.config == old(ctx).config,
                block_size == ctx.config.block_size,
                128 <= block_size,
                nblock < ctx.config.block_count,
                skips <= 32,
                i <= skips,
                lookahead.wf(&ctx.config),
                lookahead.ckpoint <= old(lookahead).ckpoint,
                rel == ctx.bd.reliable(),
                rel == old(ctx).bd.reliable(),
                skips == ctz_spec(index as nat, 32) + 1,
                w.len() == i + 1,
                w[0] == head,
                nhead == w[i as int],
                (rel && !relocate) ==> forall|k: nat| k < i ==> #[trigger] ctz_ptr(&*ctx, nblock, k) == w[k as int],
                (rel && !relocate) ==> forall|k: nat| k < i && k + 1 < skips && w[k as int] != nblock ==> #[trigger] w[k + 1int] == ctz_ptr(&*ctx, w[k as int], k),
            ensures
                !relocate ==> i == skips,
            decreases skips - i,
        {
            let bytes = le32_array(nhead);
            let ghost c1 = *ctx;
            match ctx.prog(nblock, 4 * i, &bytes) {
                Ok(()) => {},
                Err(e) => {
                    if e == Error::Corrupt {
                        relocate = true;
                        break;
                    }
                    return Err(e);
                },
            }
            proof {
                if rel {
                    crate::util::lemma_codec_roundtrip(nhead);
                    lemma_range_after_prog(&c1, &*ctx, nblock, 4 * i as int, bytes@, nblock, 4 * i as int, 4);
                    assert(ctz_ptr(&*ctx, nblock, i as nat) == nhead);
                    assert forall|k: nat| k < i implies #[trigger] ctz_ptr(&*ctx, nblock, k) == w[k as int] by {
                        lemma_range_after_prog(&c1, &*ctx, nblock, 4 * i as int, bytes@, nblock, 4 * k as int, 4);
                        assert(ctz_ptr(&c1, nblock, k) == w[k as int]);
                    }
                    assert forall|k: nat| k < i && k + 1 < skips && w[k as int] != nblock implies #[trigger] w[k + 1int] == ctz_ptr(&*ctx, w[k as int], k) by {
                        lemma_range_after_prog(&c1, &*ctx, nblock, 4 * i as int, bytes@, w[k as int], 4 * k as int, 4);
                        assert(w[k + 1int] == ctz_ptr(&c1, w[k as int], k));
                    }
                }
            }
            let ghost c2 = *ctx;
            if i != skips - 1 {
                let mut nb: Vec<u8> = vec![0u8; 4];
                ctx.read(nhead, 4 * i, nb.as_mut_slice())?;
                nhead = read_le32(&nb, 0);
                proof {
                    assert forall|b: u32, o: int| #[trigger] ctx.logical(b, o) == c2.logical(b, o) by {}
                    crate::bdcache::lemma_same_view_range(&*ctx, &c2, w[i as int], 4 * i as int, 4);
                    crate::bdcache::lemma_same_view_range(&*ctx, &c2, nblock, 4 * i as int, 4);
                    assert(nhead == ctz_ptr(&*ctx, w[i as int], i as nat));
                    assert forall|k: nat| k <= i implies #[trigger] ctz_ptr(&*ctx, nblock, k) == ctz_ptr(&c2, nblock, k) by {
                        crate::bdcache::lemma_same_view_range(&*ctx, &c2, nblock, 4 * k as int, 4);
                    }
                    assert forall|k: nat| k < i && w[k as int] != nblock implies #[trigger] ctz_ptr(&*ctx, w[k as int], k) == ctz_ptr(&c2, w[k as int], k) by {
                        crate::bdcache::lemma_same_view_range(&*ctx, &c2, w[k as int], 4 * k as int, 4);
                    }
                    w = w.push(nhead);
                }
            } else {
                proof {
                    w = w.push(nhead);
                }
            }
            i = i + 1;
        }
        if relocate {
            crate::bdcache::pcache_drop(&mut ctx.pcache);
            continue;
        }
        proof {
            if rel {
                lemma_extend_law(&*ctx, head, nblock, last, w);
            }
        }
        return Ok((nblock, 4 * skips));
    }
}

} // verus!
