//! Path resolution: splitting a path into its names, cancelling `name/..` pairs,
//! and walking directories from the root.
use vstd::prelude::*;
use vstd::string::StringSliceAdditionalSpecFns;
use crate::bdcache::BdContext;
use crate::block::BlockDevice;
use crate::error::Error;
use crate::gstate::GState;
use crate::info::{utf8_of, FileType};
use crate::metadata::{entry_info_spec, fetch_metadata_pair, get_entry_info, get_struct, lookup, struct_gtag, MdDir};
use crate::util::le32_at;
use crate::util::read_le32;

verus! {

/// The path separator '/'.
pub const SLASH: u8 = 0x2f;

/// A segment `(a, b)` of `s`: a maximal run of bytes other than '/'.
pub open spec fn is_segment(s: Seq<u8>, a: int, b: int) -> bool {
    &&& 0 <= a < b <= s.len()
    &&& forall|k: int| a <= k < b ==> s[k] != SLASH
    &&& (a == 0 || s[a - 1] == SLASH)
    &&& (b == s.len() || s[b] == SLASH)
}

/// `segs` are the names of `s`, in order: every one a segment, each after the last,
/// and every byte other than '/' inside one of them.
pub open spec fn segments_of(s: Seq<u8>, segs: Seq<(usize, usize)>) -> bool {
    &&& forall|i: int| 0 <= i < segs.len() ==> is_segment(s, #[trigger] segs[i].0 as int, segs[i].1 as int)
    &&& forall|i: int, j: int| 0 <= i < j < segs.len() ==> #[trigger] segs[i].1 < #[trigger] segs[j].0
    &&& forall|k: int| 0 <= k < s.len() && s[k] != SLASH ==> exists|i: int| 0 <= i < segs.len() && segs[i].0 <= k < #[trigger] segs[i].1
}

/// Split `s` into its names: the maximal runs of bytes other than '/'.
pub fn split_segments(s: &[u8]) -> (r: Vec<(usize, usize)>)
    ensures
        segments_of(s@, r@),
        2 * r@.len() <= s@.len() + 1,
{
    let n = s.len();
    let mut out: Vec<(usize, usize)> = Vec::new();
    let mut i: usize = 0;
    while i < n
        invariant
            n == s@.len(),
            i <= n,
            forall|j: int| 0 <= j < out@.len() ==> is_segment(s@, #[trigger] out@[j].0 as int, out@[j].1 as int),
            forall|j: int, k: int| 0 <= j < k < out@.len() ==> #[trigger] out@[j].1 < #[trigger] out@[k].0,
            forall|j: int| 0 <= j < out@.len() ==> #[trigger] out@[j].1 <= i,
            forall|j: int| 0 <= j < out@.len() ==> 2 * j <= #[trigger] out@[j].0,
            forall|k: int| 0 <= k < i && s@[k] != SLASH ==> exists|j: int| 0 <= j < out@.len() && out@[j].0 <= k < #[trigger] out@[j].1,
            i == 0 || i == n || s@[i - 1] == SLASH || (out@.len() > 0 && out@.last().1 == i),
        decreases n - i,
    {
        if s[i] == SLASH {
            i = i + 1;
            continue;
        }
        let a = i;
        while i < n && s[i] != SLASH
            invariant
                n == s@.len(),
                a <= i <= n,
                a < n,
                forall|k: int| a <= k < i ==> s@[k] != SLASH,
            decreases n - i,
        {
            i = i + 1;
        }
        let ghost pre = out@;
        proof {
            assert(a == 0 || s@[a - 1] == SLASH);
            assert forall|j: int| 0 <= j < pre.len() implies #[trigger] pre[j].1 < a by {
                assert(pre[j].1 <= a);
                assert(is_segment(s@, pre[j].0 as int, pre[j].1 as int));
                if pre[j].1 == a {
                    assert(s@[a as int] != SLASH);
                }
            }
        }
        proof {
            if pre.len() > 0 {
                let jl = pre.len() - 1;
                assert(is_segment(s@, pre[jl].0 as int, pre[jl].1 as int));
                assert(pre[jl].1 < a);
                assert(2 * jl <= pre[jl].0);
            }
        }
        out.push((a, i));
        proof {
            assert forall|j: int| 0 <= j < out@.len() implies 2 * j <= #[trigger] out@[j].0 by {
                if j < pre.len() {
                    assert(out@[j] == pre[j]);
                }
            }
            assert forall|j: int| 0 <= j < out@.len() implies is_segment(s@, #[trigger] out@[j].0 as int, out@[j].1 as int) by {
                if j < pre.len() {
                    assert(out@[j] == pre[j]);
                }
            }
            assert forall|j: int, k: int| 0 <= j < k < out@.len() implies #[trigger] out@[j].1 < #[trigger] out@[k].0 by {
                if k < pre.len() {
                    assert(out@[j] == pre[j] && out@[k] == pre[k]);
                } else {
                    assert(out@[j] == pre[j]);
                    assert(pre[j].1 < a);
                    assert(out@[k] == (a, i));
                }
            }
            assert forall|k: int| 0 <= k < i && s@[k] != SLASH implies exists|j: int| 0 <= j < out@.len() && out@[j].0 <= k < #[trigger] out@[j].1 by {
                if k < a {
                    assert(exists|j: int| 0 <= j < pre.len() && pre[j].0 <= k < #[trigger] pre[j].1);
                    let j0 = choose|j: int| 0 <= j < pre.len() && pre[j].0 <= k < #[trigger] pre[j].1;
                    assert(out@[j0] == pre[j0]);
                    assert(out@[j0].0 <= k < out@[j0].1);
                } else {
                    let jn = pre.len() as int;
                    assert(out@[jn] == (a, i));
                    assert(out@[jn].0 <= k < out@[jn].1);
                }
            }
        }
    }
    proof {
        if out@.len() > 0 {
            let jl = out@.len() - 1;
            assert(is_segment(s@, out@[jl].0 as int, out@[jl].1 as int));
            assert(2 * jl <= out@[jl].0);
        }
    }
    out
}

/// True if bytes `[a, b)` of `s` are exactly `lit`.
fn seg_is(s: &[u8], a: usize, b: usize, lit: &[u8]) -> (r: bool)
    requires
        a <= b <= s@.len(),
    ensures
        r == (s@.subrange(a as int, b as int) == lit@),
{
    if b - a != lit.len() {
        proof {
            assert(s@.subrange(a as int, b as int).len() != lit@.len());
        }
        return false;
    }
    let mut k: usize = 0;
    while k < lit.len()
        invariant
            k <= lit@.len(),
            b - a == lit@.len(),
            a <= b <= s@.len(),
            forall|j: int| 0 <= j < k ==> s@[a + j] == lit@[j],
        decreases lit@.len() - k,
    {
        if s[a + k] != lit[k] {
            proof {
                assert(s@.subrange(a as int, b as int)[k as int] != lit@[k as int]);
            }
            return false;
        }
        k = k + 1;
    }
    proof {
        assert(s@.subrange(a as int, b as int) =~= lit@);
    }
    true
}

/// True if the segment is ".".
fn is_dot(s: &[u8], seg: (usize, usize)) -> (r: bool)
    requires
        seg.0 <= seg.1 <= s@.len(),
    ensures
        r == (s@.subrange(seg.0 as int, seg.1 as int) == seq![0x2eu8]),
{
    let lit = [0x2eu8];
    proof {
        assert(lit@ =~= seq![0x2eu8]);
    }
    seg_is(s, seg.0, seg.1, &lit)
}

/// True if the segment is "..".
fn is_dotdot(s: &[u8], seg: (usize, usize)) -> (r: bool)
    requires
        seg.0 <= seg.1 <= s@.len(),
    ensures
        r == (s@.subrange(seg.0 as int, seg.1 as int) == seq![0x2eu8, 0x2eu8]),
{
    let lit = [0x2eu8, 0x2eu8];
    proof {
        assert(lit@ =~= seq![0x2eu8, 0x2eu8]);
    }
    seg_is(s, seg.0, seg.1, &lit)
}

/// The bytes of segment `i`.
pub open spec fn seg_bytes(s: Seq<u8>, segs: Seq<(usize, usize)>, i: int) -> Seq<u8> {
    s.subrange(segs[i].0 as int, segs[i].1 as int)
}

/// How many of the segments from `from` cancel the segment before them: the depth
/// starts at one, names push it up, ".." pulls it down, "." leaves it; the count is
/// the number of segments up to the one that brings it to zero, or 0 if none does.
pub open spec fn cancel_count_from(s: Seq<u8>, segs: Seq<(usize, usize)>, from: int, i: int, depth: int) -> int
    decreases segs.len() - i,
{
    if i >= segs.len() || i < from {
        0
    } else if seg_bytes(s, segs, i) == seq![0x2eu8, 0x2eu8] {
        if depth == 0 {
            0
        } else if depth - 1 == 0 {
            i + 1 - from
        } else {
            cancel_count_from(s, segs, from, i + 1, depth - 1)
        }
    } else if seg_bytes(s, segs, i) == seq![0x2eu8] {
        cancel_count_from(s, segs, from, i + 1, depth)
    } else {
        cancel_count_from(s, segs, from, i + 1, depth + 1)
    }
}

/// If the segments from `from` cancel the segment before them via "..", the number of
/// them to skip; else 0.
fn find_dotdot_cancel_count(s: &[u8], segs: &Vec<(usize, usize)>, from: usize) -> (r: usize)
    requires
        from <= segs@.len(),
        forall|i: int| 0 <= i < segs@.len() ==> #[trigger] segs@[i].0 <= segs@[i].1 <= s@.len(),
    ensures
        r == cancel_count_from(s@, segs@, from as int, from as int, 1),
        r <= segs@.len() - from,
{
    let mut depth: u128 = 1;
    let mut i = from;
    while i < segs.len()
        invariant
            from <= i <= segs@.len(),
            forall|k: int| 0 <= k < segs@.len() ==> #[trigger] segs@[k].0 <= segs@[k].1 <= s@.len(),
            depth >= 1,
            depth <= i - from + 1,
            cancel_count_from(s@, segs@, from as int, from as int, 1) == cancel_count_from(s@, segs@, from as int, i as int, depth as int),
        decreases segs@.len() - i,
    {
        let seg = segs[i];
        proof {
            assert(segs@[i as int] == seg);
        }
        if is_dotdot(s, seg) {
            depth = depth - 1;
            if depth == 0 {
                return i + 1 - from;
            }
        } else if !is_dot(s, seg) {
            depth = depth + 1;
        }
        i = i + 1;
    }
    0
}

/// A pending move (in `gdisk`) takes entry `id` out of the pair of `dir`.
pub open spec fn moved_out(gdisk: Option<&GState>, dir: &MdDir, id: u16) -> bool {
    match gdisk {
        Some(g) => ((g.tag & 0x7000_0000) >> 20u32) != 0 && ((g.pair[0] == dir.pair[0] && g.pair[1] == dir.pair[1])
            || (g.pair[0] == dir.pair[1] && g.pair[1] == dir.pair[0])) && ((g.tag & 0x000f_fc00) >> 10u32) == id as u32,
        None => false,
    }
}

/// Entry `id` of `dir` is live here and has the name `nm`.
pub open spec fn named(dir: &MdDir, id: u16, name_max: u32, gdisk: Option<&GState>, nm: Seq<u8>) -> bool {
    &&& !moved_out(gdisk, dir, id)
    &&& entry_info_spec(dir, id, name_max) matches Ok((_t, _sz, n)) && n == nm
}

/// The entry `id` of `dir`, unless a pending move (in `gdisk`) takes it out of this pair.
fn entry_info(dir: &MdDir, id: u16, name_max: u32, gdisk: Option<&GState>) -> (r: Result<crate::info::Info, Error>)
    requires
        dir.wf(),
    ensures
        moved_out(gdisk, dir, id) ==> r == Err::<crate::info::Info, Error>(Error::Noent),
        !moved_out(gdisk, dir, id) ==> match entry_info_spec(dir, id, name_max) {
            Ok((t, sz, nm)) => r is Ok && r->Ok_0.typ == t && r->Ok_0.size == sz && r->Ok_0.name_view() == nm,
            Err(e) => r == Err::<crate::info::Info, Error>(e),
        },
{
    match gdisk {
        Some(g) => {
            if g.hasmovehere(dir.pair) && ((g.tag & 0x000f_fc00) >> 10u32) == id as u32 {
                return Err(Error::Noent);
            }
        },
        None => {},
    }
    get_entry_info(dir, id, name_max)
}

/// What a search of `dir` for `name` from `id` on gives: the first live entry named
/// `name` (below the id limit), the error of the first entry that cannot be read
/// (other than a deleted or moved-out one), or Noent.
pub open spec fn name_search(dir: &MdDir, name: Seq<u8>, name_max: u32, gdisk: Option<&GState>, id: int) -> Result<u16, Error>
    decreases dir.count - id,
{
    if id < 0 || id >= dir.count || id >= 0x3ff {
        Err(Error::Noent)
    } else {
        let e = if moved_out(gdisk, dir, id as u16) { Err(Error::Noent) } else { entry_info_spec(dir, id as u16, name_max) };
        match e {
            Ok((t, sz, nm)) => if nm == name { Ok(id as u16) } else { name_search(dir, name, name_max, gdisk, id + 1) },
            Err(Error::Noent) => name_search(dir, name, name_max, gdisk, id + 1),
            Err(err) => Err(err),
        }
    }
}

/// Search `dir` for an entry named `name`, from `start_id` on (1 in the superblock
/// pair, 0 elsewhere): the first id whose entry has that name.
pub fn find_name_in_dir_pair(dir: &MdDir, name: &[u8], name_max: u32, start_id: u16, gdisk: Option<&GState>) -> (r: Result<u16, Error>)
    requires
        dir.wf(),
    ensures
        r == name_search(dir, name@, name_max, gdisk, start_id as int),
        r matches Ok(id) ==> start_id <= id < dir.count && id < 0x3ff,
        r matches Ok(id) ==> named(dir, id, name_max, gdisk, name@),
        r matches Ok(id) ==> forall|j: u16| start_id <= j < id ==> !named(dir, j, name_max, gdisk, name@),
        r == Err::<u16, Error>(Error::Noent) ==> forall|j: u16| start_id <= j < dir.count && j < 0x3ff
            ==> !named(dir, j, name_max, gdisk, name@),
{
    let mut id = start_id;
    while id < dir.count && id < 0x3ff
        invariant
            dir.wf(),
            id >= start_id,
            forall|j: u16| start_id <= j < id ==> !named(dir, j, name_max, gdisk, name@),
            name_search(dir, name@, name_max, gdisk, id as int) == name_search(dir, name@, name_max, gdisk, start_id as int),
        decreases dir.count - id,
    {
        match entry_info(dir, id, name_max, gdisk) {
            Ok(info) => {
                let nb = info.name_bytes();
                if nb.len() == name.len() && seg_is(nb, 0, nb.len(), name) {
                    proof {
                        assert(nb@.subrange(0, nb@.len() as int) =~= nb@);
                    }
                    return Ok(id);
                }
                proof {
                    if nb@ == name@ {
                        assert(nb@.subrange(0, nb@.len() as int) =~= nb@);
                    }
                }
            },
            Err(Error::Noent) => {},
            Err(e) => {
                return Err(e);
            },
        }
        id = id + 1;
    }
    Err(Error::Noent)
}

/// The first id that holds an entry: 1 in the superblock pair (whose id 0 is the
/// superblock), 0 elsewhere.
pub open spec fn first_id(dir: &MdDir) -> u16 {
    if dir.pair[0] == 0 || dir.pair[0] == 1 { 1 } else { 0 }
}

/// Find `name` in `dir`, following the hard tails of a split directory (at most as
/// many pairs as the device has blocks). On a miss in a split directory, `dir` is
/// left at the last pair searched.
pub fn find_name_in_dir<B: BlockDevice>(
    ctx: &mut BdContext<B>,
    dir: &mut MdDir,
    name: &[u8],
    name_max: u32,
    gdisk: Option<&GState>,
    fuel: u32,
) -> (r: Result<u16, Error>)
    requires
        old(ctx).wf(),
        old(dir).fits(&old(ctx).config),
    ensures
        final(ctx).wf(),
        final(ctx).same_view(&*old(ctx)),
        final(ctx).bd == old(ctx).bd,
        final(dir).fits(&old(ctx).config),
        r matches Ok(id) ==> id < final(dir).count && id < 0x3ff,
        r matches Ok(id) ==> named(&*final(dir), id, name_max, gdisk, name@),
        r == Err::<u16, Error>(Error::Noent) ==> forall|j: u16| first_id(&*final(dir)) <= j < final(dir).count && j < 0x3ff
            ==> !named(&*final(dir), j, name_max, gdisk, name@),
        name@.len() > name_max ==> r == Err::<u16, Error>(Error::Nametoolong),
    decreases fuel,
{
    if name.len() > name_max as usize {
        return Err(Error::Nametoolong);
    }
    let start_id: u16 = if dir.pair[0] == 0 || dir.pair[0] == 1 { 1 } else { 0 };
    match find_name_in_dir_pair(dir, name, name_max, start_id, gdisk) {
        Err(Error::Noent) => {
            if dir.split {
                if fuel == 0 {
                    return Err(Error::Corrupt);
                }
                let mut next_dir = fetch_metadata_pair(ctx, dir.tail)?;
                let r = find_name_in_dir(ctx, &mut next_dir, name, name_max, gdisk, fuel - 1);
                match r {
                    Ok(id) => {
                        *dir = next_dir;
                        Ok(id)
                    },
                    Err(Error::Noent) => {
                        *dir = next_dir;
                        Err(Error::Noent)
                    },
                    Err(e) => Err(e),
                }
            } else {
                Err(Error::Noent)
            }
        },
        other => other,
    }
}

/// Lexicographic order of byte strings: `a` sorts before `b`.
pub open spec fn lex_lt(a: Seq<u8>, b: Seq<u8>) -> bool
    decreases a.len(),
{
    if a.len() == 0 {
        b.len() > 0
    } else if b.len() == 0 {
        false
    } else if a[0] != b[0] {
        a[0] < b[0]
    } else {
        lex_lt(a.drop_first(), b.drop_first())
    }
}

/// True if `a` sorts at or after `b`.
fn bytes_at_or_after(a: &[u8], b: &[u8]) -> (r: bool)
    ensures
        r == !lex_lt(a@, b@),
{
    let mut k: usize = 0;
    proof {
        assert(a@.subrange(0, a@.len() as int) =~= a@);
        assert(b@.subrange(0, b@.len() as int) =~= b@);
        assert(a@.subrange(0, 0) =~= b@.subrange(0, 0));
    }
    while k < a.len() && k < b.len()
        invariant
            k <= a@.len(),
            k <= b@.len(),
            a@.subrange(0, k as int) == b@.subrange(0, k as int),
            lex_lt(a@, b@) == lex_lt(a@.subrange(k as int, a@.len() as int), b@.subrange(k as int, b@.len() as int)),
        decreases a@.len() - k,
    {
        proof {
            let sa = a@.subrange(k as int, a@.len() as int);
            let sb = b@.subrange(k as int, b@.len() as int);
            assert(sa.drop_first() =~= a@.subrange(k + 1, a@.len() as int));
            assert(sb.drop_first() =~= b@.subrange(k + 1, b@.len() as int));
            assert(sa[0] == a@[k as int]);
            assert(sb[0] == b@[k as int]);
        }
        if a[k] != b[k] {
            return a[k] > b[k];
        }
        proof {
            assert(a@.subrange(0, k + 1) =~= a@.subrange(0, k as int).push(a@[k as int]));
            assert(b@.subrange(0, k + 1) =~= b@.subrange(0, k as int).push(b@[k as int]));
        }
        k = k + 1;
    }
    proof {
        let sa = a@.subrange(k as int, a@.len() as int);
        let sb = b@.subrange(k as int, b@.len() as int);
        if k == a@.len() {
            assert(sa.len() == 0);
        } else {
            assert(sb.len() == 0);
        }
    }
    if k == a.len() {
        k == b.len()
    } else {
        true
    }
}

/// The id slot for `name` found by looking at the entries of `dir` from `id` on: the
/// first live entry whose name sorts at or after `name`, the error of the first entry
/// that cannot be read (other than a deleted one), or the end.
pub open spec fn insertion_from(dir: &MdDir, name: Seq<u8>, name_max: u32, gdisk: Option<&GState>, id: int) -> Result<u16, Error>
    decreases dir.count - id,
{
    if id >= dir.count || id < 0 {
        Ok(dir.count)
    } else {
        let e = if moved_out(gdisk, dir, id as u16) { Err(Error::Noent) } else { entry_info_spec(dir, id as u16, name_max) };
        match e {
            Ok((t, sz, nm)) => if !lex_lt(nm, name) { Ok(id as u16) } else { insertion_from(dir, name, name_max, gdisk, id + 1) },
            Err(Error::Noent) => insertion_from(dir, name, name_max, gdisk, id + 1),
            Err(err) => Err(err),
        }
    }
}

/// The first id that names can take in `dir`: 1 in the superblock pair, else 0.
pub open spec fn first_name_id(dir: &MdDir) -> int {
    if dir.pair[0] == 0 || dir.pair[0] == 1 { 1 } else { 0 }
}

/// The id slot where a new name goes to keep names in order: the first live entry
/// (from 1 in the superblock pair) whose name sorts at or after `name`, or the end.
pub fn find_insertion_id(dir: &MdDir, name: &[u8], name_max: u32, gdisk: Option<&GState>) -> (r: Result<u16, Error>)
    requires
        dir.wf(),
    ensures
        r == insertion_from(dir, name@, name_max, gdisk, first_name_id(dir)),
        r matches Ok(id) ==> id <= dir.count,
{
    let start_id: u16 = if dir.pair[0] == 0 || dir.pair[0] == 1 { 1 } else { 0 };
    let mut id = start_id;
    while id < dir.count
        invariant
            dir.wf(),
            insertion_from(dir, name@, name_max, gdisk, id as int) == insertion_from(dir, name@, name_max, gdisk, first_name_id(dir)),
        decreases dir.count - id,
    {
        match entry_info(dir, id, name_max, gdisk) {
            Ok(info) => {
                if bytes_at_or_after(info.name_bytes(), name) {
                    return Ok(id);
                }
            },
            Err(Error::Noent) => {},
            Err(e) => {
                return Err(e);
            },
        }
        id = id + 1;
    }
    Ok(dir.count)
}

/// The pair of the directory entry `id`, from its 8-byte struct.
fn get_dir_struct(dir: &MdDir, id: u16, gdisk: Option<&GState>) -> (r: Result<[u32; 2], Error>)
    requires
        dir.wf(),
    ensures
        r == match lookup(dir, 0x700f_fc00, struct_gtag(id)) {
            None => Err::<[u32; 2], Error>(Error::Noent),
            Some((t, off, sz)) => if off + 8 > dir.off {
                Err::<[u32; 2], Error>(Error::Corrupt)
            } else {
                Ok::<[u32; 2], Error>([le32_at(dir.block@, off as int), le32_at(dir.block@, off + 4)])
            },
        },
{
    let bytes = get_struct(dir, id)?;
    proof {
        if let Some((t, off, sz)) = lookup(dir, 0x700f_fc00, struct_gtag(id)) {
            let b = dir.block@;
            assert(bytes@[0] == b[off as int] && bytes@[1] == b[off + 1] && bytes@[2] == b[off + 2] && bytes@[3] == b[off + 3]);
            assert(bytes@[4] == b[off + 4] && bytes@[5] == b[off + 5] && bytes@[6] == b[off + 6] && bytes@[7] == b[off + 7]);
        }
    }
    Ok([read_le32(&bytes, 0), read_le32(&bytes, 4)])
}

/// The bytes of the last name of `s` under `segs`.
pub open spec fn last_seg(s: Seq<u8>, segs: Seq<(usize, usize)>) -> Seq<u8> {
    seg_bytes(s, segs, segs.len() - 1)
}

/// No name of `s` is "..".
pub open spec fn no_dotdot(s: Seq<u8>) -> bool {
    forall|a: int, b: int| #[trigger] is_segment(s, a, b) ==> s.subrange(a, b) != seq![0x2eu8, 0x2eu8]
}

/// `(a, b)` is the last name of `s`: a name followed by nothing but slashes.
pub open spec fn last_segment(s: Seq<u8>, a: int, b: int) -> bool {
    &&& is_segment(s, a, b)
    &&& forall|k: int| b <= k < s.len() ==> s[k] == SLASH
}

/// `s` holds a byte other than '/'.
pub open spec fn has_name(s: Seq<u8>) -> bool {
    exists|k: int| 0 <= k < s.len() && s[k] != SLASH
}

/// Without ".." among the segments from `i`, nothing cancels.
proof fn lemma_cancel_without_dotdot(s: Seq<u8>, segs: Seq<(usize, usize)>, from: int, i: int, depth: int)
    requires
        forall|j: int| i <= j < segs.len() ==> seg_bytes(s, segs, j) != seq![0x2eu8, 0x2eu8],
    ensures
        cancel_count_from(s, segs, from, i, depth) == 0,
    decreases segs.len() - i,
{
    if i < segs.len() && i >= from {
        lemma_cancel_without_dotdot(s, segs, from, i + 1, if seg_bytes(s, segs, i) == seq![0x2eu8] { depth } else { depth + 1 });
    }
}

/// The last of the names `segs` of `s` is followed by nothing but slashes.
proof fn lemma_last_of_segments(s: Seq<u8>, segs: Seq<(usize, usize)>)
    requires
        segments_of(s, segs),
        segs.len() > 0,
    ensures
        last_segment(s, segs[segs.len() - 1].0 as int, segs[segs.len() - 1].1 as int),
{
    let l = segs.len() - 1;
    assert(is_segment(s, segs[l].0 as int, segs[l].1 as int));
    assert forall|k: int| segs[l].1 <= k < s.len() implies s[k] == SLASH by {
        if s[k] != SLASH {
            let i = choose|i: int| 0 <= i < segs.len() && segs[i].0 <= k < #[trigger] segs[i].1;
            if i < l {
                assert(segs[i].1 < segs[l].0);
                assert(is_segment(s, segs[l].0 as int, segs[l].1 as int));
            }
        }
    }
}

/// Find the entry at `path`: the metadata pair that holds it and its id, 0x3ff for the
/// root. "." names stay, a name followed by ".." that cancels it is skipped, and ".."
/// goes back up; every name but the last must be a directory.
pub fn dir_find<B: BlockDevice>(
    ctx: &mut BdContext<B>,
    root: [u32; 2],
    path: &str,
    name_max: u32,
    gdisk: Option<&GState>,
) -> (r: Result<(MdDir, u16), Error>)
    requires
        old(ctx).wf(),
    ensures
        final(ctx).wf(),
        final(ctx).same_view(&*old(ctx)),
        final(ctx).bd == old(ctx).bd,
        path.spec_bytes().len() == 0 ==> r == Err::<(MdDir, u16), Error>(Error::Inval),
        r matches Ok((d, _id)) ==> d.fits(&old(ctx).config),
        r matches Ok((_d, id)) ==> id <= 0x3ff,
        (path.spec_bytes().len() > 0 && forall|k: int| 0 <= k < path.spec_bytes().len() ==> path.spec_bytes()[k] == SLASH)
            ==> (r matches Ok((_d, id)) ==> id == 0x3ff),
        (no_dotdot(path.spec_bytes()) && has_name(path.spec_bytes()) && (forall|a: int, b: int|
            #[trigger] last_segment(path.spec_bytes(), a, b) ==> path.spec_bytes().subrange(a, b) != seq![0x2eu8]))
            ==> (r matches Ok((d, id)) ==> id < 0x3ff && exists|a: int, b: int| #[trigger] last_segment(path.spec_bytes(), a, b)
                && named(&d, id, name_max, gdisk, path.spec_bytes().subrange(a, b))),
{
    let bytes = path.as_bytes();
    let _blen = bytes.len();
    if bytes.len() == 0 {
        return Err(Error::Inval);
    }
    let segs = split_segments(bytes);
    if segs.len() == 0 {
        proof {
            if has_name(bytes@) {
                let k = choose|k: int| 0 <= k < bytes@.len() && bytes@[k] != SLASH;
                assert(exists|i: int| 0 <= i < segs@.len() && segs@[i].0 <= k < #[trigger] segs@[i].1);
            }
        }
        let dir = fetch_metadata_pair(ctx, root)?;
        return Ok((dir, 0x3ff));
    }
    proof {
        if forall|k: int| 0 <= k < bytes@.len() ==> bytes@[k] == SLASH {
            assert(is_segment(bytes@, segs@[0].0 as int, segs@[0].1 as int));
            assert(bytes@[segs@[0].0 as int] != SLASH);
        }
    }
    let ghost law = no_dotdot(bytes@) && has_name(bytes@) && (forall|a: int, b: int|
        #[trigger] last_segment(bytes@, a, b) ==> bytes@.subrange(a, b) != seq![0x2eu8]);
    proof {
        if law {
            assert forall|j: int| 0 <= j < segs@.len() implies seg_bytes(bytes@, segs@, j) != seq![0x2eu8, 0x2eu8] by {
                assert(is_segment(bytes@, segs@[j].0 as int, segs@[j].1 as int));
            }
            lemma_last_of_segments(bytes@, segs@);
        }
    }
    let mut stack: Vec<(MdDir, u16)> = Vec::new();
    let mut cwd = fetch_metadata_pair(ctx, root)?;
    let mut tag_id: u16 = 0x3ff;
    let mut seg_idx: usize = 0;
    while seg_idx < segs.len()
        invariant
            ctx.wf(),
            ctx.same_view(&*old(ctx)),
            ctx.bd == old(ctx).bd,
            segments_of(bytes@, segs@),
            2 * segs@.len() <= bytes@.len() + 1,
            bytes@ == path.spec_bytes(),
            bytes@.len() > 0,
            segs@.len() > 0,
            !(forall|k: int| 0 <= k < bytes@.len() ==> bytes@[k] == SLASH),
            cwd.fits(&old(ctx).config),
            bytes@.len() <= usize::MAX,
            seg_idx <= segs@.len() + 1,
            forall|j: int| 0 <= j < stack@.len() ==> (#[trigger] stack@[j]).0.fits(&old(ctx).config),
            forall|j: int| 0 <= j < stack@.len() ==> (#[trigger] stack@[j]).1 <= 0x3ff,
            tag_id <= 0x3ff,
            law ==> (forall|j: int| 0 <= j < segs@.len() ==> seg_bytes(bytes@, segs@, j) != seq![0x2eu8, 0x2eu8]),
            law ==> seg_bytes(bytes@, segs@, segs@.len() - 1) != seq![0x2eu8],
            law ==> (seg_idx <= segs@.len() - 1 || (tag_id < 0x3ff && named(
                &cwd,
                tag_id,
                name_max,
                gdisk,
                seg_bytes(bytes@, segs@, segs@.len() - 1),
            ))),
        ensures
            cwd.fits(&old(ctx).config),
            tag_id <= 0x3ff,
            ctx.wf(),
            ctx.same_view(&*old(ctx)),
            ctx.bd == old(ctx).bd,
            law ==> tag_id < 0x3ff && named(&cwd, tag_id, name_max, gdisk, seg_bytes(bytes@, segs@, segs@.len() - 1)),
        decreases segs@.len() + 2 - seg_idx,
    {
        let seg = segs[seg_idx];
        proof {
            assert(is_segment(bytes@, segs@[seg_idx as int].0 as int, segs@[seg_idx as int].1 as int));
            assert forall|i: int| 0 <= i < segs@.len() implies #[trigger] segs@[i].0 <= segs@[i].1 <= bytes@.len() by {
                assert(is_segment(bytes@, segs@[i].0 as int, segs@[i].1 as int));
            }
        }
        proof {
            if law {
                lemma_cancel_without_dotdot(bytes@, segs@, seg_idx + 1, seg_idx + 1, 1);
                assert(seg_bytes(bytes@, segs@, seg_idx as int) != seq![0x2eu8, 0x2eu8]);
                assert(seg == segs@[seg_idx as int]);
            }
        }
        if is_dot(bytes, seg) {
            seg_idx = seg_idx + 1;
            continue;
        }
        if is_dotdot(bytes, seg) {
            if tag_id == 0x3ff {
                return Err(Error::Inval);
            }
            let cancel = find_dotdot_cancel_count(bytes, &segs, seg_idx + 1);
            if cancel > 0 {
                seg_idx = seg_idx + 1 + cancel;
                if seg_idx >= segs.len() {
                    match stack.pop() {
                        Some((parent_dir, parent_id)) => {
                            cwd = parent_dir;
                            tag_id = parent_id;
                        },
                        None => {},
                    }
                    break;
                }
                continue;
            }
            if stack.len() == 0 {
                return Err(Error::Inval);
            }
            seg_idx = seg_idx + 1;
            let (parent_dir, parent_id) = stack.pop().unwrap();
            cwd = parent_dir;
            tag_id = parent_id;
            seg_idx = seg_idx + 1;
            continue;
        }
        let cancel = find_dotdot_cancel_count(bytes, &segs, seg_idx + 1);
        if cancel > 0 {
            seg_idx = seg_idx + 1 + cancel;
            if seg_idx >= segs.len() {
                break;
            }
            continue;
        }
        let name = slice_range(bytes, seg.0, seg.1);
        let found_id = find_name_in_dir(ctx, &mut cwd, name, name_max, gdisk, ctx.config.block_count)?;
        let info = entry_info(&cwd, found_id, name_max, gdisk)?;
        if seg_idx + 1 >= segs.len() {
            tag_id = found_id;
            break;
        }
        if info.typ != FileType::Dir {
            return Err(Error::NotDir);
        }
        let parent = copy_dir(&cwd);
        stack.push((parent, found_id));
        let pair = get_dir_struct(&cwd, found_id, gdisk)?;
        cwd = fetch_metadata_pair(ctx, pair)?;
        tag_id = found_id;
        seg_idx = seg_idx + 1;
    }
    proof {
        if law {
            lemma_last_of_segments(bytes@, segs@);
            let l = segs@.len() - 1;
            assert(last_segment(bytes@, segs@[l].0 as int, segs@[l].1 as int));
            assert(named(&cwd, tag_id, name_max, gdisk, seg_bytes(bytes@, segs@, l)));
            assert(tag_id < 0x3ff);
        }
    }
    Ok((cwd, tag_id))
}

/// Bytes `[a, b)` of `s`.
fn slice_range(s: &[u8], a: usize, b: usize) -> (r: &[u8])
    requires
        a <= b <= s@.len(),
    ensures
        r@ == s@.subrange(a as int, b as int),
{
    vstd::slice::slice_subrange(s, a, b)
}

/// A copy of a metadata pair's state.
fn copy_dir(d: &MdDir) -> (r: MdDir)
    ensures
        r.block@ == d.block@,
        r.pair == d.pair && r.rev == d.rev && r.off == d.off && r.etag == d.etag && r.count == d.count,
        r.tail == d.tail && r.split == d.split && r.erased == d.erased,
{
    MdDir {
        pair: d.pair,
        block: vstd::slice::slice_to_vec(d.block.as_slice()),
        rev: d.rev,
        off: d.off,
        etag: d.etag,
        count: d.count,
        tail: d.tail,
        split: d.split,
        erased: d.erased,
    }
}

/// Find where a new entry at `path` goes: the pair of its parent directory, the id
/// where its name keeps the names in order, and the name (the last of the path).
/// Exist if the entry is there, Noent if a parent is missing, Inval for a path
/// without names.
pub fn dir_find_for_create<'a, B: BlockDevice>(
    ctx: &mut BdContext<B>,
    root: [u32; 2],
    path: &'a str,
    name_max: u32,
    gdisk: Option<&GState>,
) -> (r: Result<(MdDir, u16, &'a str), Error>)
    requires
        old(ctx).wf(),
    ensures
        final(ctx).wf(),
        final(ctx).same_view(&*old(ctx)),
        final(ctx).bd == old(ctx).bd,
        (forall|k: int| 0 <= k < path.spec_bytes().len() ==> path.spec_bytes()[k] == SLASH) ==> r == Err::<(MdDir, u16, &'a str), Error>(
            Error::Inval,
        ),
        r matches Ok((d, id, name)) ==> d.fits(&old(ctx).config) && id <= d.count && name.spec_bytes().len() <= name_max
            && exists|segs: Seq<(usize, usize)>| segments_of(path.spec_bytes(), segs) && segs.len() > 0 && name.spec_bytes()
            == #[trigger] last_seg(path.spec_bytes(), segs),
        r matches Ok((d, id, name)) ==> forall|j: u16| first_id(&d) <= j < d.count && j < 0x3ff
            ==> !named(&d, j, name_max, gdisk, name.spec_bytes()),
        r matches Ok((d, id, name)) ==> insertion_from(&d, name.spec_bytes(), name_max, gdisk, first_name_id(&d)) == Ok::<u16, Error>(id),
{
    let bytes = path.as_bytes();
    let _blen = bytes.len();
    if bytes.len() == 0 {
        return Err(Error::Inval);
    }
    let segs = split_segments(bytes);
    if segs.len() == 0 {
        proof {
            assert forall|k: int| 0 <= k < bytes@.len() implies bytes@[k] == SLASH by {
                if bytes@[k] != SLASH {
                    let i = choose|i: int| 0 <= i < segs@.len() && segs@[i].0 <= k < #[trigger] segs@[i].1;
                }
            }
        }
        return Err(Error::Inval);
    }
    proof {
        assert(is_segment(bytes@, segs@[0].0 as int, segs@[0].1 as int));
        assert(bytes@[segs@[0].0 as int] != SLASH);
    }
    let mut stack: Vec<(MdDir, u16)> = Vec::new();
    let mut cwd = fetch_metadata_pair(ctx, root)?;
    let mut tag_id: u16 = 0x3ff;
    let mut seg_idx: usize = 0;
    while seg_idx < segs.len()
        invariant
            ctx.wf(),
            ctx.same_view(&*old(ctx)),
            ctx.bd == old(ctx).bd,
            segments_of(bytes@, segs@),
            2 * segs@.len() <= bytes@.len() + 1,
            bytes@ == path.spec_bytes(),
            segs@.len() > 0,
            !(forall|k: int| 0 <= k < bytes@.len() ==> bytes@[k] == SLASH),
            cwd.fits(&old(ctx).config),
            bytes@.len() <= usize::MAX,
            seg_idx <= segs@.len() + 1,
            forall|j: int| 0 <= j < stack@.len() ==> (#[trigger] stack@[j]).0.fits(&old(ctx).config),
        decreases segs@.len() + 2 - seg_idx,
    {
        let seg = segs[seg_idx];
        proof {
            assert(is_segment(bytes@, segs@[seg_idx as int].0 as int, segs@[seg_idx as int].1 as int));
            assert forall|i: int| 0 <= i < segs@.len() implies #[trigger] segs@[i].0 <= segs@[i].1 <= bytes@.len() by {
                assert(is_segment(bytes@, segs@[i].0 as int, segs@[i].1 as int));
            }
        }
        if is_dot(bytes, seg) {
            seg_idx = seg_idx + 1;
            continue;
        }
        if is_dotdot(bytes, seg) {
            if tag_id == 0x3ff {
                return Err(Error::Inval);
            }
            let cancel = find_dotdot_cancel_count(bytes, &segs, seg_idx + 1);
            if cancel > 0 {
                seg_idx = seg_idx + 1 + cancel;
                if seg_idx >= segs.len() {
                    let _ = stack.pop();
                    return Err(Error::Inval);
                }
                continue;
            }
            if stack.len() == 0 {
                return Err(Error::Inval);
            }
            seg_idx = seg_idx + 1;
            let (parent_dir, parent_id) = stack.pop().unwrap();
            cwd = parent_dir;
            tag_id = parent_id;
            seg_idx = seg_idx + 1;
            continue;
        }
        let cancel = find_dotdot_cancel_count(bytes, &segs, seg_idx + 1);
        if cancel > 0 {
            seg_idx = seg_idx + 1 + cancel;
            if seg_idx >= segs.len() {
                break;
            }
            continue;
        }
        let name = slice_range(bytes, seg.0, seg.1);
        let found = find_name_in_dir(ctx, &mut cwd, name, name_max, gdisk, ctx.config.block_count);
        let found_id = match found {
            Ok(id) => id,
            Err(Error::Noent) => {
                if seg_idx + 1 >= segs.len() {
                    let id = find_insertion_id(&cwd, name, name_max, gdisk)?;
                    let name_str = match utf8_of(name) {
                        Ok(st) => st,
                        Err(_) => {
                            return Err(Error::Inval);
                        },
                    };
                    proof {
                        assert(seg_idx == segs@.len() - 1);
                        assert(name_str.spec_bytes() == last_seg(bytes@, segs@));
                    }
                    return Ok((cwd, id, name_str));
                }
                return Err(Error::Noent);
            },
            Err(e) => {
                return Err(e);
            },
        };
        let info = entry_info(&cwd, found_id, name_max, gdisk)?;
        if seg_idx + 1 >= segs.len() {
            return Err(Error::Exist);
        }
        if info.typ != FileType::Dir {
            return Err(Error::NotDir);
        }
        let parent = copy_dir(&cwd);
        stack.push((parent, found_id));
        let pair = get_dir_struct(&cwd, found_id, gdisk)?;
        cwd = fetch_metadata_pair(ctx, pair)?;
        tag_id = found_id;
        seg_idx = seg_idx + 1;
    }
    Err(Error::Noent)
}

/// `s` without its leading and trailing '/'.
pub open spec fn trim_slashes(s: Seq<u8>) -> Seq<u8> {
    let a = lead_slashes(s, 0);
    let b = trail_end(s, s.len() as int);
    if a >= b { Seq::empty() } else { s.subrange(a, b) }
}

/// The index of the first byte at or after `i` that is not '/'.
pub open spec fn lead_slashes(s: Seq<u8>, i: int) -> int
    decreases s.len() - i,
{
    if i < 0 || i >= s.len() || s[i] != SLASH { i } else { lead_slashes(s, i + 1) }
}

/// The end of `s[..j]` after dropping its trailing '/'.
pub open spec fn trail_end(s: Seq<u8>, j: int) -> int
    decreases j,
{
    if j <= 0 || j > s.len() || s[j - 1] != SLASH { j } else { trail_end(s, j - 1) }
}

proof fn lemma_trail_end(s: Seq<u8>, j: int)
    requires
        0 <= j <= s.len(),
    ensures
        0 <= trail_end(s, j) <= j,
        trail_end(s, j) > 0 ==> s[trail_end(s, j) - 1] != SLASH,
        trail_end(s, j) < j ==> s[trail_end(s, j)] == SLASH,
    decreases j,
{
    if j > 0 && s[j - 1] == SLASH {
        lemma_trail_end(s, j - 1);
    }
}

proof fn lemma_lead_slashes(s: Seq<u8>, i: int)
    requires
        0 <= i <= s.len(),
    ensures
        i <= lead_slashes(s, i) <= s.len(),
        lead_slashes(s, i) > i ==> s[lead_slashes(s, i) - 1] == SLASH,
    decreases s.len() - i,
{
    if i < s.len() && s[i] == SLASH {
        lemma_lead_slashes(s, i + 1);
    }
}

/// The bytes after a '/' of valid UTF-8 are valid UTF-8.
proof fn lemma_valid_after_slash(b: Seq<u8>, s: int)
    requires
        vstd::utf8::valid_utf8(b),
        0 < s <= b.len(),
        b[s - 1] == SLASH,
    ensures
        vstd::utf8::valid_utf8(b.subrange(s, b.len() as int)),
{
    vstd::utf8::is_char_boundary_iff_not_is_continuation_byte(b, s - 1);
    vstd::utf8::valid_utf8_split(b, s - 1);
    let t = b.subrange(s - 1, b.len() as int);
    assert(t[0] == SLASH);
    assert(vstd::utf8::pop_first_scalar(t) =~= b.subrange(s, b.len() as int));
}

/// The bytes of valid UTF-8 up to a '/' are valid UTF-8.
proof fn lemma_valid_before_slash(t: Seq<u8>, e: int)
    requires
        vstd::utf8::valid_utf8(t),
        0 <= e < t.len(),
        t[e] == SLASH,
    ensures
        vstd::utf8::valid_utf8(t.subrange(0, e)),
{
    vstd::utf8::is_char_boundary_iff_not_is_continuation_byte(t, e);
    vstd::utf8::valid_utf8_split(t, e);
}

/// The bounds of `s` without its leading and trailing '/'.
fn trim_bounds(s: &[u8]) -> (r: (usize, usize))
    ensures
        r.0 == lead_slashes(s@, 0),
        r.1 == trail_end(s@, s@.len() as int),
        r.0 <= s@.len() && r.1 <= s@.len(),
{
    let n = s.len();
    let mut a: usize = 0;
    while a < n && s[a] == SLASH
        invariant
            a <= n,
            n == s@.len(),
            lead_slashes(s@, 0) == lead_slashes(s@, a as int),
        decreases n - a,
    {
        a = a + 1;
    }
    let mut b: usize = n;
    while b > 0 && s[b - 1] == SLASH
        invariant
            b <= n,
            n == s@.len(),
            trail_end(s@, n as int) == trail_end(s@, b as int),
        decreases b,
    {
        b = b - 1;
    }
    (a, b)
}

/// True if `new_path` names an entry under `old_path` ("a/b" is under "a"): the paths
/// without outer slashes, the old one non-empty, the new one it followed by '/'.
/// Prevents renaming a directory into itself or one of its descendants.
pub fn path_is_descendant(old_path: &str, new_path: &str) -> (r: bool)
    ensures
        ({
            let o = trim_slashes(old_path.spec_bytes());
            let n = trim_slashes(new_path.spec_bytes());
            r == (o.len() > 0 && n.len() > o.len() && n.subrange(0, o.len() as int) == o && n[o.len() as int] == SLASH)
        }),
{
    let ob = old_path.as_bytes();
    let nb = new_path.as_bytes();
    let (oa, oe) = trim_bounds(ob);
    let (na, ne) = trim_bounds(nb);
    let olen: usize = if oa >= oe { 0 } else { oe - oa };
    let nlen: usize = if na >= ne { 0 } else { ne - na };
    proof {
        let o = trim_slashes(ob@);
        let n = trim_slashes(nb@);
        assert(o.len() == olen);
        assert(n.len() == nlen);
    }
    if olen == 0 || nlen <= olen {
        return false;
    }
    proof {
        assert(trim_slashes(ob@) == ob@.subrange(oa as int, oe as int));
        assert(trim_slashes(nb@) == nb@.subrange(na as int, ne as int));
    }
    let mut k: usize = 0;
    proof {
        assert(nb@.subrange(na as int, na as int) =~= ob@.subrange(oa as int, oa as int));
    }
    while k < olen
        invariant
            k <= olen,
            olen < nlen,
            oa + olen <= ob@.len(),
            na + nlen <= nb@.len(),
            olen == oe - oa,
            nlen == ne - na,
            trim_slashes(ob@) == ob@.subrange(oa as int, oe as int),
            trim_slashes(nb@) == nb@.subrange(na as int, ne as int),
            ob@ == old_path.spec_bytes(),
            nb@ == new_path.spec_bytes(),
            nb@.subrange(na as int, na + k) == ob@.subrange(oa as int, oa + k),
        decreases olen - k,
    {
        if nb[na + k] != ob[oa + k] {
            proof {
                let o = trim_slashes(ob@);
                let n = trim_slashes(nb@);
                assert(n.subrange(0, olen as int)[k as int] != o[k as int]);
            }
            return false;
        }
        proof {
            assert(nb@.subrange(na as int, na + k + 1) =~= nb@.subrange(na as int, na + k).push(nb@[na + k]));
            assert(ob@.subrange(oa as int, oa + k + 1) =~= ob@.subrange(oa as int, oa + k).push(ob@[oa + k]));
        }
        k = k + 1;
    }
    proof {
        let o = trim_slashes(ob@);
        let n = trim_slashes(nb@);
        assert(n.subrange(0, olen as int) =~= nb@.subrange(na as int, na + olen));
        assert(o =~= ob@.subrange(oa as int, oa + olen));
        assert(n.subrange(0, olen as int) =~= o);
        assert(n[olen as int] == nb@[na + olen]);
    }
    nb[na + olen] == SLASH
}

/// Last path component: the bytes after the last '/' of the path without its outer
/// slashes. None if the path is only slashes or empty.
pub fn path_last_component(path: &str) -> (r: Option<&str>)
    ensures
        trim_slashes(path.spec_bytes()).len() == 0 <==> r is None,
        r matches Some(c) ==> ({
            let t = trim_slashes(path.spec_bytes());
            &&& c.spec_bytes().len() > 0
            &&& t.len() >= c.spec_bytes().len()
            &&& c.spec_bytes() == t.subrange(t.len() - c.spec_bytes().len(), t.len() as int)
            &&& forall|k: int| 0 <= k < c.spec_bytes().len() ==> c.spec_bytes()[k] != SLASH
            &&& (t.len() == c.spec_bytes().len() || t[t.len() - c.spec_bytes().len() - 1] == SLASH)
        }),
{
    let b = path.as_bytes();
    let (a, e) = trim_bounds(b);
    if a >= e {
        return None;
    }
    proof {
        lemma_trail_end(b@, b@.len() as int);
    }
    let mut s = e;
    while s > a && b[s - 1] != SLASH
        invariant
            a <= s <= e,
            e <= b@.len(),
            forall|k: int| s <= k < e ==> b@[k] != SLASH,
        decreases s,
    {
        s = s - 1;
    }
    proof {
        assert(e - a > 0);
    }
    if s == e {
        proof {
            assert(b@[e - 1] != SLASH);
        }
        return None;
    }
    let comp = slice_range(b, s, e);
    proof {
        vstd::utf8::encode_utf8_valid_utf8(path@);
        lemma_lead_slashes(b@, 0);
        let t = if s > 0 {
            lemma_valid_after_slash(b@, s as int);
            b@.subrange(s as int, b@.len() as int)
        } else {
            assert(b@.subrange(0, b@.len() as int) =~= b@);
            b@
        };
        assert(vstd::utf8::valid_utf8(t));
        if e < b@.len() {
            lemma_valid_before_slash(t, e - s);
            assert(t.subrange(0, e - s) =~= comp@);
        } else {
            assert(t =~= comp@);
        }
    }
    match utf8_of(comp) {
        Ok(st) => {
            proof {
                let t = trim_slashes(b@);
                assert(t =~= b@.subrange(a as int, e as int));
                assert(st.spec_bytes() =~= t.subrange(t.len() - st.spec_bytes().len(), t.len() as int));
            }
            Some(st)
        },
        Err(_) => None,
    }
}

} // verus!
