//! Global state (gstate): the XOR-sum of the MOVESTATE deltas along the
//! metadata list, which records pending moves, orphans and superblock rewrites.
use vstd::prelude::*;
use crate::error::Error;
use crate::metadata::{dir_traverse_tags, scan_tags, MdDir, TagEntry};
use crate::tag::{lfs_tag_type3, TYPE_DELETE, TYPE_MOVESTATE};
use crate::util::{le32_at, le32_bytes, read_le32, le32_array};

verus! {

/// Global state: tag and metadata pair.
#[derive(Clone, Copy, Debug, PartialEq, Eq)]
pub struct GState {
    pub tag: u32,
    pub pair: [u32; 2],
}

/// The ten-bit size field of a gstate tag read as a signed number.
pub open spec fn size_signed(tag: u32) -> int {
    let s = (tag & 0x3ff) as int;
    if s >= 0x200 { s - 0x400 } else { s }
}

/// The twelve little-endian bytes of a gstate.
pub open spec fn gstate_bytes(g: GState) -> Seq<u8> {
    le32_bytes(g.tag) + le32_bytes(g.pair[0]) + le32_bytes(g.pair[1])
}

impl Default for GState {
    fn default() -> (r: Self)
        ensures
            r.tag == 0 && r.pair[0] == 0 && r.pair[1] == 0,
    {
        GState::zero()
    }
}

impl GState {
    /// The all-zero state.
    pub fn zero() -> (r: Self)
        ensures
            r.tag == 0 && r.pair[0] == 0 && r.pair[1] == 0,
    {
        Self { tag: 0, pair: [0, 0] }
    }

    /// XOR other into self.
    pub fn xor(&mut self, other: &GState)
        ensures
            final(self).tag == old(self).tag ^ other.tag,
            final(self).pair[0] == old(self).pair[0] ^ other.pair[0],
            final(self).pair[1] == old(self).pair[1] ^ other.pair[1],
    {
        self.tag = self.tag ^ other.tag;
        let p0 = self.pair[0] ^ other.pair[0];
        let p1 = self.pair[1] ^ other.pair[1];
        self.pair = [p0, p1];
    }

    /// True if all fields are zero.
    pub fn iszero(&self) -> (r: bool)
        ensures
            r == (self.tag == 0 && self.pair[0] == 0 && self.pair[1] == 0),
    {
        self.tag == 0 && self.pair[0] == 0 && self.pair[1] == 0
    }

    /// True if the orphan count is non-zero.
    pub fn hasorphans(&self) -> (r: bool)
        ensures
            r == ((self.tag & 0x3ff) != 0),
    {
        (self.tag & 0x3ff) != 0
    }

    /// Orphan count (low nine bits of the size).
    pub fn getorphans(&self) -> (r: u8)
        ensures
            r == ((self.tag & 0x3ff) & 0x1ff) as u8,
    {
        ((self.tag & 0x3ff) & 0x1ff) as u8
    }

    /// True if a move is pending (type1 non-zero).
    pub fn hasmove(&self) -> (r: bool)
        ensures
            r == (((self.tag & 0x7000_0000) >> 20u32) != 0),
    {
        ((self.tag & 0x7000_0000) >> 20u32) != 0
    }

    /// True if the superblock needs a rewrite (top bit of the size).
    pub fn needssuperblock(&self) -> (r: bool)
        ensures
            r == (((self.tag & 0x3ff) >> 9u32) != 0),
    {
        ((self.tag & 0x3ff) >> 9u32) != 0
    }

    /// True if a move targets this pair, in either block order.
    pub fn hasmovehere(&self, pair: [u32; 2]) -> (r: bool)
        ensures
            r == ((((self.tag & 0x7000_0000) >> 20u32) != 0) && ((self.pair[0] == pair[0]
                && self.pair[1] == pair[1]) || (self.pair[0] == pair[1] && self.pair[1] == pair[0]))),
    {
        self.hasmove() && pair_issync(self.pair, pair)
    }

    /// Decode from twelve little-endian bytes.
    pub fn from_le_bytes(data: &[u8]) -> (r: Result<Self, Error>)
        ensures
            data@.len() < 12 ==> r == Err::<GState, Error>(Error::Corrupt),
            data@.len() >= 12 ==> r == Ok::<GState, Error>(GState {
                tag: le32_at(data@, 0),
                pair: [le32_at(data@, 4), le32_at(data@, 8)],
            }),
    {
        if data.len() < 12 {
            return Err(Error::Corrupt);
        }
        Ok(Self { tag: read_le32(data, 0), pair: [read_le32(data, 4), read_le32(data, 8)] })
    }

    /// Encode to twelve little-endian bytes.
    pub fn as_le_bytes(&self) -> (r: [u8; 12])
        ensures
            r@ == gstate_bytes(*self),
    {
        let t = le32_array(self.tag);
        let a = le32_array(self.pair[0]);
        let b = le32_array(self.pair[1]);
        let r = [t[0], t[1], t[2], t[3], a[0], a[1], a[2], a[3], b[0], b[1], b[2], b[3]];
        assert(r@ =~= gstate_bytes(*self));
        r
    }
}

/// True if pairs refer to the same metadata blocks, in either order.
pub fn pair_issync(a: [u32; 2], b: [u32; 2]) -> (r: bool)
    ensures
        r == ((a[0] == b[0] && a[1] == b[1]) || (a[0] == b[1] && a[1] == b[0])),
{
    (a[0] == b[0] && a[1] == b[1]) || (a[0] == b[1] && a[1] == b[0])
}

/// Set the valid bit's complement so a read-back state differs from an empty one:
/// `gstate.tag += !lfs_tag_isvalid(gstate.tag)`.
pub fn ensure_valid(gstate: &mut GState)
    ensures
        final(gstate).pair == old(gstate).pair,
        final(gstate).tag == (if (old(gstate).tag & 0x8000_0000) != 0 {
            old(gstate).tag.wrapping_add(1)
        } else {
            old(gstate).tag
        }),
{
    if (gstate.tag & 0x8000_0000) != 0 {
        gstate.tag = gstate.tag.wrapping_add(1);
    }
}

/// Record a pending move of `id` in `pair`; id 0x3ff clears it.
pub fn prepmove(gstate: &mut GState, id: u16, pair: [u32; 2])
    ensures
        final(gstate).tag == ((old(gstate).tag & !0x7fff_fc00u32) | (if id != 0x3ff {
            (TYPE_DELETE << 20u32) | ((id as u32) << 10u32)
        } else {
            0u32
        })),
        final(gstate).pair[0] == (if id != 0x3ff { pair[0] } else { 0 }),
        final(gstate).pair[1] == (if id != 0x3ff { pair[1] } else { 0 }),
{
    let mv: u32 = if id != 0x3ff {
        (TYPE_DELETE << 20u32) | ((id as u32) << 10u32)
    } else {
        0
    };
    gstate.tag = (gstate.tag & !0x7fff_fc00u32) | mv;
    let p0 = if id != 0x3ff { pair[0] } else { 0 };
    let p1 = if id != 0x3ff { pair[1] } else { 0 };
    gstate.pair = [p0, p1];
}

/// Set or clear the needs-superblock bit (bit 9 of the size).
pub fn prepsuperblock(gstate: &mut GState, needssuperblock: bool)
    ensures
        final(gstate).pair == old(gstate).pair,
        final(gstate).tag == ((old(gstate).tag & !0x200u32) | (if needssuperblock {
            0x200u32
        } else {
            0u32
        })),
{
    let bit: u32 = if needssuperblock { 0x200 } else { 0 };
    gstate.tag = (gstate.tag & !0x200u32) | bit;
}

/// The tag after adding `delta` orphans: the count moves by `delta` and the top bit
/// records whether orphans remain.
pub open spec fn orphans_tag(tag: u32, delta: i8) -> u32 {
    let t = tag.wrapping_add(delta as u32);
    (t & 0x7fff_ffffu32) | (if (t & 0x3ff) != 0 { 0x8000_0000u32 } else { 0u32 })
}

/// Adjust the orphan count by `delta`. The count is a signed
/// ten-bit field; a result outside [-0x1ff, 0x1ff] is refused as corrupt.
pub fn preporphans(gstate: &mut GState, delta: i8) -> (r: Result<(), Error>)
    ensures
        final(gstate).pair == old(gstate).pair,
        (size_signed(old(gstate).tag) + delta < -0x1ff || size_signed(old(gstate).tag) + delta
            > 0x1ff) ==> r == Err::<(), Error>(Error::Corrupt) && *final(gstate) == *old(gstate),
        (-0x1ff <= size_signed(old(gstate).tag) + delta <= 0x1ff) ==> r == Ok::<(), Error>(())
            && final(gstate).tag == orphans_tag(old(gstate).tag, delta),
{
    proof {
        crate::tag::lemma_tag_field_ranges(gstate.tag);
    }
    let size = gstate.tag & 0x3ff;
    let signed: i32 = if size >= 0x200 { size as i32 - 0x400 } else { size as i32 };
    if signed + (delta as i32) < -0x1ff || signed + (delta as i32) > 0x1ff {
        return Err(Error::Corrupt);
    }
    let t = gstate.tag.wrapping_add(delta as u32);
    let bit: u32 = if (t & 0x3ff) != 0 { 0x8000_0000 } else { 0 };
    gstate.tag = (t & 0x7fff_ffff) | bit;
    Ok(())
}

/// Adding orphans and then taking the same number away gives the orphan count back:
/// the tag is the original with its has-orphans bit recomputed from the count.
pub proof fn lemma_orphans_round_trip(tag: u32, delta: i8)
    requires
        delta != i8::MIN,
    ensures
        orphans_tag(orphans_tag(tag, delta), (-delta) as i8) == (tag & 0x7fff_ffffu32) | (if (tag & 0x3ff)
            != 0 {
            0x8000_0000u32
        } else {
            0u32
        }),
{
    let v: i8 = (-delta) as i8;
    assert(v == -delta);
    let d = delta as u32;
    let e = v as u32;
    if delta >= 0 {
        assert(e == 0x1_0000_0000 + v || v == 0) by (bit_vector)
            requires v <= 0, e == v as u32;
    } else {
        assert(d == 0x1_0000_0000 + delta) by (bit_vector)
            requires delta < 0, d == delta as u32;
    }
    assert(d.wrapping_add(e) == 0);
    assert({
        let t = tag.wrapping_add(d);
        let t1 = (t & 0x7fff_ffffu32) | (if (t & 0x3ff) != 0 { 0x8000_0000u32 } else { 0u32 });
        let u = t1.wrapping_add(e);
        (u & 0x7fff_ffffu32) | (if (u & 0x3ff) != 0 { 0x8000_0000u32 } else { 0u32 })
    } == (tag & 0x7fff_ffffu32) | (if (tag & 0x3ff) != 0 { 0x8000_0000u32 } else { 0u32 })) by (bit_vector)
        requires d.wrapping_add(e) == 0;
}

/// XOR-ing the same state twice gives the original back, and a state XOR-ed with
/// itself is zero: MOVESTATE deltas cancel.
pub proof fn lemma_xor_cancel(a: GState, b: GState)
    ensures
        (a.tag ^ b.tag) ^ b.tag == a.tag,
        (a.pair[0] ^ b.pair[0]) ^ b.pair[0] == a.pair[0],
        (a.pair[1] ^ b.pair[1]) ^ b.pair[1] == a.pair[1],
        a.tag ^ a.tag == 0,
{
    let (x, y, z, w, v, u) = (a.tag, b.tag, a.pair[0], b.pair[0], a.pair[1], b.pair[1]);
    assert((x ^ y) ^ y == x && (z ^ w) ^ w == z && (v ^ u) ^ u == v && x ^ x == 0) by (bit_vector);
}

/// Decoding the encoded bytes of a gstate gives the gstate back.
pub proof fn lemma_gstate_bytes_roundtrip(g: GState)
    ensures
        gstate_bytes(g).len() == 12,
        le32_at(gstate_bytes(g), 0) == g.tag,
        le32_at(gstate_bytes(g), 4) == g.pair[0],
        le32_at(gstate_bytes(g), 8) == g.pair[1],
{
    crate::util::lemma_codec_roundtrip(g.tag);
    crate::util::lemma_codec_roundtrip(g.pair[0]);
    crate::util::lemma_codec_roundtrip(g.pair[1]);
    let s = gstate_bytes(g);
    assert(s.subrange(0, 4) =~= le32_bytes(g.tag));
    assert(s.subrange(4, 8) =~= le32_bytes(g.pair[0]));
    assert(s.subrange(8, 12) =~= le32_bytes(g.pair[1]));
    assert(s[0] == le32_bytes(g.tag)[0] && s[1] == le32_bytes(g.tag)[1] && s[2] == le32_bytes(g.tag)[2] && s[3] == le32_bytes(g.tag)[3]);
    assert(s[4] == le32_bytes(g.pair[0])[0] && s[5] == le32_bytes(g.pair[0])[1] && s[6] == le32_bytes(g.pair[0])[2] && s[7] == le32_bytes(g.pair[0])[3]);
    assert(s[8] == le32_bytes(g.pair[1])[0] && s[9] == le32_bytes(g.pair[1])[1] && s[10] == le32_bytes(g.pair[1])[2] && s[11] == le32_bytes(g.pair[1])[3]);
}

proof fn lemma_xor_assoc(a: u32, b: u32, c: u32)
    ensures
        (a ^ b) ^ c == a ^ (b ^ c),
{
    assert((a ^ b) ^ c == a ^ (b ^ c)) by (bit_vector);
}

proof fn lemma_xor_zero(a: u32)
    ensures
        0u32 ^ a == a,
        a ^ 0u32 == a,
{
    assert(0u32 ^ a == a && a ^ 0u32 == a) by (bit_vector);
}

/// Gstates with equal fields are equal.
pub proof fn lemma_gstate_ext(a: GState, b: GState)
    requires
        a.tag == b.tag,
        a.pair[0] == b.pair[0],
        a.pair[1] == b.pair[1],
    ensures
        a == b,
{
    assert(a.pair =~= b.pair);
}

/// Field-wise XOR of two gstates.
pub open spec fn gxor(a: GState, b: GState) -> GState {
    GState { tag: a.tag ^ b.tag, pair: [a.pair[0] ^ b.pair[0], a.pair[1] ^ b.pair[1]] }
}

/// True if every field is zero.
pub open spec fn gzero(g: GState) -> bool {
    g.tag == 0 && g.pair[0] == 0 && g.pair[1] == 0
}

/// The gstate held by the twelve little-endian bytes of `block` from `off`.
pub open spec fn gstate_at(block: Seq<u8>, off: int) -> GState {
    GState { tag: le32_at(block, off), pair: [le32_at(block, off + 4), le32_at(block, off + 8)] }
}

/// XOR of the gstate deltas of the MOVESTATE entries among `es`.
pub open spec fn movestate_xor(block: Seq<u8>, es: Seq<TagEntry>) -> GState
    decreases es.len(),
{
    if es.len() == 0 {
        GState { tag: 0, pair: [0, 0] }
    } else {
        let g = movestate_xor(block, es.drop_last());
        let e = es.last();
        if ((e.tag & 0x7ff0_0000) >> 20u32) == TYPE_MOVESTATE && e.size >= 12 {
            gxor(g, gstate_at(block, e.off as int))
        } else {
            g
        }
    }
}

/// The gstate delta that a metadata block records: the XOR of all its MOVESTATE tags.
pub open spec fn dir_gstate(dir: &MdDir) -> GState {
    movestate_xor(dir.block@, scan_tags(dir.block@, dir.off as int, 4, 0xffff_ffff, 0, 0x400, 0))
}

/// The delta a commit owes before the directory's own deltas are folded in: the
/// pending delta, plus the difference between the in-memory and on-disk gstate unless
/// the commit relocated, with the orphan count bits cleared.
pub open spec fn movestate_delta0(gstate: GState, gdisk: GState, gdelta: GState, relocated: bool) -> GState {
    let d = if relocated { gdelta } else { gxor(gxor(gdisk, gstate), gdelta) };
    GState { tag: d.tag & 0xffff_fc00, pair: d.pair }
}

/// Accumulate MOVESTATE deltas from a metadata dir into gstate.
/// XORs all MOVESTATE tags in the dir.
pub fn dir_getgstate(dir: &MdDir, gstate: &mut GState) -> (r: Result<(), Error>)
    requires
        dir.wf(),
    ensures
        r is Ok,
        *final(gstate) == gxor(*old(gstate), dir_gstate(dir)),
{
    let es = dir_traverse_tags(dir, 0, 0x400, 0)?;
    let mut i: usize = 0;
    let ghost g0 = *gstate;
    proof {
        lemma_xor_zero(g0.tag);
        lemma_xor_zero(g0.pair[0]);
        lemma_xor_zero(g0.pair[1]);
        assert(es@.subrange(0, 0) =~= Seq::<TagEntry>::empty());
        lemma_gstate_ext(g0, gxor(g0, movestate_xor(dir.block@, es@.subrange(0, 0))));
    }
    while i < es.len()
        invariant
            dir.wf(),
            i <= es@.len(),
            es@ == scan_tags(dir.block@, dir.off as int, 4, 0xffff_ffff, 0, 0x400, 0),
            forall|j: int| 0 <= j < es@.len() ==> #[trigger] es@[j].off + es@[j].size <= dir.block@.len(),
            *gstate == gxor(g0, movestate_xor(dir.block@, es@.subrange(0, i as int))),
        decreases es@.len() - i,
    {
        let e = es[i];
        proof {
            assert(es@.subrange(0, i + 1).drop_last() =~= es@.subrange(0, i as int));
        }
        if lfs_tag_type3(e.tag) as u32 == TYPE_MOVESTATE && e.size >= 12 {
            let temp = GState::from_le_bytes(&dir.block.as_slice()[e.off..e.off + 12])?;
            proof {
                let sl = dir.block@.subrange(e.off as int, e.off + 12);
                assert(le32_at(sl, 0) == le32_at(dir.block@, e.off as int));
                assert(le32_at(sl, 4) == le32_at(dir.block@, e.off + 4));
                assert(le32_at(sl, 8) == le32_at(dir.block@, e.off + 8));
                let a = g0;
                let b = movestate_xor(dir.block@, es@.subrange(0, i as int));
                let c = gstate_at(dir.block@, e.off as int);
                lemma_xor_assoc(a.tag, b.tag, c.tag);
                lemma_xor_assoc(a.pair[0], b.pair[0], c.pair[0]);
                lemma_xor_assoc(a.pair[1], b.pair[1], c.pair[1]);
                lemma_gstate_ext(gxor(gxor(a, b), c), gxor(a, gxor(b, c)));
            }
            let ghost pre = *gstate;
            gstate.xor(&temp);
            proof {
                lemma_gstate_ext(*gstate, gxor(pre, temp));
            }
        }
        i = i + 1;
    }
    proof {
        assert(es@.subrange(0, i as int) =~= es@);
    }
    Ok(())
}

/// Compute the delta to write as a MOVESTATE tag in an inline commit or a compaction.
/// Returns Some(delta) if non-zero, None otherwise.
/// The directory's own deltas are folded in only when the first delta is non-zero,
/// and not at all with `skip_dir_adjust`.
pub fn compute_movestate_delta(
    dir: &MdDir,
    gstate: &GState,
    gdisk: &GState,
    gdelta: &GState,
    relocated: bool,
    skip_dir_adjust: bool,
) -> (r: Result<Option<GState>, Error>)
    requires
        dir.wf(),
    ensures
        ({
            let d0 = movestate_delta0(*gstate, *gdisk, *gdelta, relocated);
            let d1 = gxor(d0, dir_gstate(dir));
            r == Ok::<Option<GState>, Error>(
                if gzero(d0) { None } else if skip_dir_adjust { Some(d0) } else if gzero(d1) { None } else { Some(d1) },
            )
        }),
{
    let mut delta = GState::zero();
    if !relocated {
        delta.xor(gdisk);
        delta.xor(gstate);
    }
    delta.xor(gdelta);
    delta.tag = delta.tag & 0xffff_fc00;
    proof {
        lemma_xor_zero(gdisk.tag);
        lemma_xor_zero(gdisk.pair[0]);
        lemma_xor_zero(gdisk.pair[1]);
        lemma_xor_zero(gdelta.tag);
        lemma_xor_zero(gdelta.pair[0]);
        lemma_xor_zero(gdelta.pair[1]);
        lemma_gstate_ext(delta, movestate_delta0(*gstate, *gdisk, *gdelta, relocated));
    }
    if delta.iszero() {
        return Ok(None);
    }
    if !skip_dir_adjust {
        dir_getgstate(dir, &mut delta)?;
    }
    Ok(if delta.iszero() { None } else { Some(delta) })
}

} // verus!
