//! Filesystem-level queries and updates on paths: the info of an entry or of the
//! filesystem, the number of blocks in use, and making, removing and renaming entries.
use vstd::prelude::*;
use vstd::string::StringSliceAdditionalSpecFns;
use crate::bdcache::{BdContext, BLOCK_NULL};
use crate::block::BlockDevice;
use crate::commit::{attrs_bounded, data_bytes, dir_alloc, dir_drop, dir_orphaningcommit, mktag_spec, CommitAttr, CommitData};
use crate::error::Error;
use crate::gstate::{prepmove, preporphans, GState};
use crate::info::{FileType, FsInfo, Info};
use crate::lookahead::Lookahead;
use crate::metadata::{fetch_metadata_pair, fetched, file_struct_spec, get_entry_info, get_file_struct, get_inline_slice, get_struct, lookup, read_superblock, slice_len, struct_gtag, MdDir};
use crate::parent::{fetch_pick, fs_pred, is_null_pair, list_pair};
use crate::util::{le32_at, read_le32};
use crate::path::{dir_find, dir_find_for_create, has_name, last_segment, no_dotdot, SLASH};
use crate::superblock::{superblock_at, DISK_VERSION};
use crate::tag::{lemma_mktag_fields, tag_dsize_spec, TYPE_CREATE, TYPE_CTZSTRUCT, TYPE_DELETE, TYPE_DIR, TYPE_DIRSTRUCT, TYPE_INLINESTRUCT, TYPE_REG, TYPE_SOFTTAIL};
use crate::traverse::fs_traverse;

verus! {

/// The info of the entry at `path`: "/" for the root, else the entry's type, size
/// and name.
pub fn stat<B: BlockDevice>(ctx: &mut BdContext<B>, root: [u32; 2], path: &str, name_max: u32) -> (r: Result<Info, Error>)
    requires
        old(ctx).wf(),
    ensures
        final(ctx).wf(),
        final(ctx).same_view(&*old(ctx)),
        final(ctx).bd == old(ctx).bd,
        path.spec_bytes().len() == 0 ==> r == Err::<Info, Error>(Error::Inval),
        (path.spec_bytes().len() > 0 && forall|k: int| 0 <= k < path.spec_bytes().len() ==> path.spec_bytes()[k] == SLASH)
            ==> (r matches Ok(info) ==> info.typ == FileType::Dir && info.name_view() == seq![0x2fu8]),
        (no_dotdot(path.spec_bytes()) && has_name(path.spec_bytes()) && (forall|a: int, b: int|
            #[trigger] last_segment(path.spec_bytes(), a, b) ==> path.spec_bytes().subrange(a, b) != seq![0x2eu8]))
            ==> (r matches Ok(info) ==> exists|a: int, b: int| #[trigger] last_segment(path.spec_bytes(), a, b)
                && info.name_view() == path.spec_bytes().subrange(a, b)),
{
    let (d, id) = dir_find(ctx, root, path, name_max, None)?;
    get_entry_info(&d, id, name_max)
}

/// The number of blocks in use: those of every metadata pair of the list from `root`
/// and of every file's skip-list, as the traversal lists them.
pub fn fs_size<B: BlockDevice>(ctx: &mut BdContext<B>, root: [u32; 2]) -> (r: Result<usize, Error>)
    requires
        old(ctx).wf(),
    ensures
        final(ctx).wf(),
        final(ctx).same_view(&*old(ctx)),
        final(ctx).bd == old(ctx).bd,
        (r is Ok && root[0] != BLOCK_NULL && root[1] != BLOCK_NULL) ==> r->Ok_0 >= 2,
        is_null_pair(root) ==> r == Ok::<usize, Error>(0),
        r is Ok ==> exists|n: nat| n <= old(ctx).config.block_count
            && is_null_pair(#[trigger] list_pair(&*old(ctx), root, n))
            && forall|k: nat| k < n ==> (#[trigger] fetch_pick(&*old(ctx), list_pair(&*old(ctx), root, k))) is Some,
        r is Ok ==> exists|out: Seq<u32>, n: nat| #![trigger out.len(), list_pair(&*old(ctx), root, n)]
            out.len() == r->Ok_0 && is_null_pair(list_pair(&*old(ctx), root, n))
            && (forall|k: nat| k < n ==> #[trigger] crate::traverse::pair_listed(out, &*old(ctx), root, k))
            && (forall|k: nat, id: u16| k < n ==> #[trigger] crate::traverse::covers(out, &*old(ctx), list_pair(&*old(ctx), root, k), id)),
{
    let blocks = fs_traverse(ctx, root, false)?;
    Ok(blocks.len())
}

/// A commit of one soft tail to `pair` is within the tag size bounds.
proof fn lemma_soft_tail_bounded(a: CommitAttr, pair: [u32; 2])
    requires
        a.tag == crate::commit::mktag_spec(TYPE_SOFTTAIL, 0x3ff, 8),
        a.data == crate::commit::CommitData::Pair(pair),
    ensures
        attrs_bounded(seq![a]),
{
    lemma_mktag_fields(TYPE_SOFTTAIL, 0x3ff, 8);
    assert(data_bytes(seq![a][0].data).len() + 4 <= tag_dsize_spec(seq![a][0].tag));
}

/// Make a directory at `path`: a new metadata pair, linked into the metadata list
/// after the parent's last pair, and an entry (create, name, directory struct) after
/// the last id of the parent's last pair. Exist when the path names an entry (the root too, unless reading it
/// fails), Noent when a parent is missing, Nametoolong for a name past `name_max`,
/// Nospc when the parent pair has no id left.
pub fn mkdir<B: BlockDevice>(
    ctx: &mut BdContext<B>,
    root: &mut [u32; 2],
    lookahead: &mut Lookahead,
    path: &str,
    name_max: u32,
    gstate: &mut GState,
    gdisk: &mut GState,
    gdelta: &mut GState,
) -> (r: Result<(), Error>)
    requires
        old(ctx).wf(),
        old(ctx).config.prog_size >= 4,
        old(lookahead).wf(&old(ctx).config),
    ensures
        final(ctx).wf(),
        final(ctx).config == old(ctx).config,
        final(ctx).bd.reliable() == old(ctx).bd.reliable(),
        final(lookahead).wf(&final(ctx).config),
        r is Ok ==> final(ctx).pcache.block == BLOCK_NULL,
        path.spec_bytes().len() == 0 ==> r == Err::<(), Error>(Error::Inval) && *final(root) == *old(root),
        (path.spec_bytes().len() > 0 && forall|k: int| 0 <= k < path.spec_bytes().len() ==> path.spec_bytes()[k] == SLASH)
            ==> r is Err && *final(root) == *old(root),
        *final(root) == *old(root) || (final(root)[0] < old(ctx).config.block_count && final(root)[1] < old(ctx).config.block_count),
{
    match dir_find(ctx, *root, path, name_max, None) {
        Ok(_) => {
            return Err(Error::Exist);
        },
        Err(Error::Noent) => {},
        Err(e) => {
            return Err(e);
        },
    }
    let (cwd, _, name) = dir_find_for_create(ctx, *root, path, name_max, None)?;
    let id = cwd.count;
    let nb = name.as_bytes();
    if nb.len() > name_max as usize {
        return Err(Error::Nametoolong);
    }
    if id >= 0x3ff {
        return Err(Error::Nospc);
    }
    lookahead.alloc_ckpoint(ctx.config.block_count);
    let mut dir = dir_alloc(ctx, *root, lookahead)?;
    let ghost root0 = *root;
    let mut pred = fetch_metadata_pair(ctx, cwd.pair)?;
    let mut fuel: u32 = ctx.config.block_count;
    while pred.split
        invariant
            ctx.wf(),
            ctx.config == old(ctx).config,
            ctx.bd.reliable() == old(ctx).bd.reliable(),
            lookahead.wf(&ctx.config),
            pred.fits(&ctx.config),
            *root == root0,
            root0 == *old(root),
            path.spec_bytes().len() > 0,
            !(forall|k: int| 0 <= k < path.spec_bytes().len() ==> path.spec_bytes()[k] == SLASH),
        decreases fuel,
    {
        if fuel == 0 {
            return Err(Error::Corrupt);
        }
        fuel = fuel - 1;
        pred = fetch_metadata_pair(ctx, pred.tail)?;
    }
    let t = CommitAttr::soft_tail(pred.tail);
    let setup = vec![t];
    proof {
        assert(setup@ =~= seq![t]);
        lemma_soft_tail_bounded(t, pred.tail);
    }
    dir_orphaningcommit(ctx, &mut dir, setup.as_slice(), root, lookahead, name_max, gstate, gdisk, gdelta, false, DISK_VERSION)?;
    let mut parent = fetch_metadata_pair(ctx, cwd.pair)?;
    if parent.split {
        preporphans(gstate, 1)?;
        let mut last = fetch_metadata_pair(ctx, pred.pair)?;
        let link = CommitAttr::soft_tail(dir.pair);
        let links = vec![link];
        proof {
            assert(links@ =~= seq![link]);
            lemma_soft_tail_bounded(link, dir.pair);
        }
        dir_orphaningcommit(ctx, &mut last, links.as_slice(), root, lookahead, name_max, gstate, gdisk, gdelta, false, DISK_VERSION)?;
        preporphans(gstate, -1)?;
        parent = fetch_metadata_pair(ctx, cwd.pair)?;
    }
    let a0 = CommitAttr::create(id);
    let a1 = CommitAttr::name_dir(id, nb);
    let a2 = CommitAttr::dir_struct(id, dir.pair);
    let mut attrs = vec![a0, a1, a2];
    if !parent.split {
        attrs.push(CommitAttr::soft_tail(dir.pair));
    }
    proof {
        lemma_mktag_fields(TYPE_CREATE, id as u32, 0);
        lemma_mktag_fields(TYPE_DIR, id as u32, if nb@.len() < 255 { nb@.len() as u32 } else { 255 });
        lemma_mktag_fields(TYPE_DIRSTRUCT, id as u32, 8);
        lemma_mktag_fields(TYPE_SOFTTAIL, 0x3ff, 8);
        assert forall|k: int| 0 <= k < attrs@.len() implies data_bytes(#[trigger] attrs@[k].data).len() + 4
            <= tag_dsize_spec(attrs@[k].tag) by {
            if k == 0 {
                assert(attrs@[k] == a0);
            } else if k == 1 {
                assert(attrs@[k] == a1);
            } else if k == 2 {
                assert(attrs@[k] == a2);
            }
        }
    }
    dir_orphaningcommit(ctx, &mut parent, attrs.as_slice(), root, lookahead, name_max, gstate, gdisk, gdelta, false, DISK_VERSION)?;
    ctx.sync()?;
    Ok(())
}

/// Remove the entry at `path`: a delete of its id in its parent's pair. A directory
/// must be empty (NotEmpty otherwise); its pair then leaves the metadata list, its
/// predecessor taking over its tail. Inval for the root.
pub fn remove<B: BlockDevice>(
    ctx: &mut BdContext<B>,
    root: &mut [u32; 2],
    lookahead: &mut Lookahead,
    path: &str,
    name_max: u32,
    gstate: &mut GState,
    gdisk: &mut GState,
    gdelta: &mut GState,
) -> (r: Result<(), Error>)
    requires
        old(ctx).wf(),
        old(ctx).config.prog_size >= 4,
        old(lookahead).wf(&old(ctx).config),
    ensures
        final(ctx).wf(),
        final(ctx).config == old(ctx).config,
        final(lookahead).wf(&final(ctx).config),
        r is Ok ==> final(ctx).pcache.block == BLOCK_NULL,
        path.spec_bytes().len() == 0 ==> r == Err::<(), Error>(Error::Inval) && *final(root) == *old(root),
        (path.spec_bytes().len() > 0 && forall|k: int| 0 <= k < path.spec_bytes().len() ==> path.spec_bytes()[k] == SLASH)
            ==> r is Err && *final(root) == *old(root),
        *final(root) == *old(root) || (final(root)[0] < old(ctx).config.block_count && final(root)[1] < old(ctx).config.block_count),
{
    let (mut cwd, id) = dir_find(ctx, *root, path, name_max, None)?;
    if id == 0x3ff {
        return Err(Error::Inval);
    }
    let info = get_entry_info(&cwd, id, name_max)?;
    let mut child: Option<[u32; 2]> = None;
    if info.typ == FileType::Dir {
        let bytes = get_struct(&cwd, id)?;
        let pair = [read_le32(&bytes, 0), read_le32(&bytes, 4)];
        let m = fetch_metadata_pair(ctx, pair)?;
        if m.count > 0 || m.split {
            return Err(Error::NotEmpty);
        }
        preporphans(gstate, 1)?;
        child = Some(m.pair);
    }
    let del = CommitAttr::delete(id);
    let attrs = vec![del];
    proof {
        assert(attrs@ =~= seq![del]);
        lemma_mktag_fields(TYPE_DELETE, id as u32, 0);
        assert(data_bytes(attrs@[0].data).len() + 4 <= tag_dsize_spec(attrs@[0].tag));
    }
    dir_orphaningcommit(ctx, &mut cwd, attrs.as_slice(), root, lookahead, name_max, gstate, gdisk, gdelta, false, DISK_VERSION)?;
    match child {
        Some(pair) => {
            preporphans(gstate, -1)?;
            let orphan = fetch_metadata_pair(ctx, pair)?;
            let mut pred = match fs_pred(ctx, *root, orphan.pair)? {
                Some(p) => {
                    if p.pair[0] == BLOCK_NULL && p.pair[1] == BLOCK_NULL {
                        return Err(Error::Noent);
                    }
                    p
                },
                None => {
                    return Err(Error::Noent);
                },
            };
            dir_drop(ctx, &mut pred, &orphan, root, lookahead, name_max, gstate, gdisk, gdelta, DISK_VERSION)?;
        },
        None => {},
    }
    ctx.sync()?;
    Ok(())
}

/// Filesystem info: the disk version (read from the superblock when the in-memory
/// state says it needs a rewrite, else the current one), the configured geometry and
/// the limits in use.
pub fn fs_stat<B: BlockDevice>(
    ctx: &mut BdContext<B>,
    root: [u32; 2],
    gstate: &GState,
    name_max: u32,
    file_max: u32,
    attr_max: u32,
) -> (r: Result<FsInfo, Error>)
    requires
        old(ctx).wf(),
    ensures
        final(ctx).wf(),
        final(ctx).same_view(&*old(ctx)),
        final(ctx).bd == old(ctx).bd,
        r matches Ok(info) ==> info.block_size == old(ctx).config.block_size && info.block_count == old(ctx).config.block_count
            && info.name_max == name_max && info.file_max == file_max && info.attr_max == attr_max,
        ((gstate.tag & 0x3ff) >> 9u32) == 0 ==> r is Ok && r->Ok_0.disk_version == DISK_VERSION,
        (((gstate.tag & 0x3ff) >> 9u32) != 0 && r is Ok) ==> exists|d: MdDir, off: int| fetched(d, root, &*old(ctx)) && 8 <= off
            && off + 24 <= d.off && r->Ok_0.disk_version == #[trigger] superblock_at(d.block@, off).version,
{
    let disk_version = if !gstate.needssuperblock() {
        DISK_VERSION
    } else {
        let sb = read_superblock(ctx, root)?;
        sb.version
    };
    Ok(FsInfo {
        disk_version,
        block_size: ctx.config.block_size,
        block_count: ctx.config.block_count,
        name_max,
        file_max,
        attr_max,
    })
}

/// What `struct_attr_of` gives: for a directory the pair of its newest struct (Noent
/// without one, Corrupt for one that runs past the log); for a file, from its file
/// struct, the inline data or the skip-list's head and size, as the struct of `newid`.
pub open spec fn struct_attr_spec(dir: &MdDir, id: u16, is_dir: bool, newid: u16, r: Result<CommitAttr, Error>) -> bool {
    let b = dir.block@;
    if is_dir {
        match lookup(dir, 0x700f_fc00, struct_gtag(id)) {
            None => r == Err::<CommitAttr, Error>(Error::Noent),
            Some((t, off, sz)) => if off + 8 > dir.off {
                r == Err::<CommitAttr, Error>(Error::Corrupt)
            } else {
                r matches Ok(a) && a.tag == mktag_spec(TYPE_DIRSTRUCT, newid as u32, 8)
                    && a.data == CommitData::Pair([le32_at(b, off as int), le32_at(b, off + 4)])
            },
        }
    } else {
        match file_struct_spec(dir, id) {
            Err(e) => r == Err::<CommitAttr, Error>(e),
            Ok((inl, head, size)) => if inl {
                match lookup(dir, 0x7ff0_fc00, (TYPE_INLINESTRUCT << 20u32) | ((id as u32) << 10u32)) {
                    None => r == Err::<CommitAttr, Error>(Error::Noent),
                    Some((t, doff, dsize)) => {
                        let n = slice_len(0, size as int, dsize as int);
                        r matches Ok(a) && a.tag == mktag_spec(TYPE_INLINESTRUCT, newid as u32, n as u32)
                            && a.data is Slice && a.data->Slice_0@ == b.subrange(doff as int, doff + n)
                    },
                }
            } else if size > 0xffff_ffff {
                r == Err::<CommitAttr, Error>(Error::Corrupt)
            } else {
                r matches Ok(a) && a.tag == mktag_spec(TYPE_CTZSTRUCT, newid as u32, 8)
                    && a.data == (CommitData::CtzStruct { head, size: size as u32 })
            },
        }
    }
}

/// The struct of entry `id` of `dir` (its directory pair, inline data or skip-list)
/// as an attribute of entry `newid`.
fn struct_attr_of(dir: &MdDir, id: u16, is_dir: bool, newid: u16) -> (r: Result<CommitAttr, Error>)
    requires
        dir.wf(),
        newid < 0x3ff,
    ensures
        r matches Ok(a) ==> data_bytes(a.data).len() + 4 <= tag_dsize_spec(a.tag),
        struct_attr_spec(dir, id, is_dir, newid, r),
{
    if is_dir {
        let bytes = get_struct(dir, id)?;
        proof {
            lemma_mktag_fields(TYPE_DIRSTRUCT, newid as u32, 8);
            if let Some((t, off, sz)) = lookup(dir, 0x700f_fc00, struct_gtag(id)) {
                let b = dir.block@;
                assert(bytes@[0] == b[off as int] && bytes@[1] == b[off + 1] && bytes@[2] == b[off + 2] && bytes@[3] == b[off + 3]);
                assert(bytes@[4] == b[off + 4] && bytes@[5] == b[off + 5] && bytes@[6] == b[off + 6] && bytes@[7] == b[off + 7]);
            }
        }
        return Ok(CommitAttr::dir_struct(newid, [read_le32(&bytes, 0), read_le32(&bytes, 4)]));
    }
    let (inl, head, size) = get_file_struct(dir, id)?;
    if inl {
        let mut data: Vec<u8> = vec![0u8; size as usize];
        let ghost pre = data@;
        let n = get_inline_slice(dir, id, 0, data.as_mut_slice())?;
        let ghost full = data@;
        data.truncate(n);
        proof {
            assert(data@ =~= full.subrange(0, n as int));
        }
        proof {
            let k = if data@.len() < 0x3fe { data@.len() as u32 } else { 0x3fe };
            lemma_mktag_fields(TYPE_INLINESTRUCT, newid as u32, k);
        }
        let a = CommitAttr::inline_struct(newid, data.as_slice());
        proof {
            if let Some((t, doff, dsize)) = lookup(dir, 0x7ff0_fc00, (TYPE_INLINESTRUCT << 20u32) | ((id as u32) << 10u32)) {
                assert(data@.subrange(0, n as int) =~= data@);
                if n == 0 {
                    assert(a.data->Slice_0@ =~= dir.block@.subrange(doff as int, doff as int));
                } else {
                    assert(a.data->Slice_0@ =~= dir.block@.subrange(doff as int, doff + n));
                }
            }
        }
        Ok(a)
    } else {
        if size > 0xffff_ffff {
            return Err(Error::Corrupt);
        }
        proof {
            lemma_mktag_fields(TYPE_CTZSTRUCT, newid as u32, 8);
        }
        Ok(CommitAttr::ctz_struct(newid, head, size as u32))
    }
}

/// Rename the entry at `old_path` to `new_path`: the entry is created under the new
/// name (after the last id of the new parent pair) with the old entry's struct, and
/// the old entry is deleted, in one commit when both names share a pair, else in two
/// with the move recorded in the global state between them. An existing entry at the
/// new name is replaced (its id takes the new name and struct): it must be of the same
/// kind (IsDir / NotDir otherwise) and, for a directory, empty (NotEmpty). Renaming an entry to itself does nothing. Inval
/// for the root and for moving a directory under itself.
pub fn rename<B: BlockDevice>(
    ctx: &mut BdContext<B>,
    root: &mut [u32; 2],
    lookahead: &mut Lookahead,
    old_path: &str,
    new_path: &str,
    name_max: u32,
    gstate: &mut GState,
    gdisk: &mut GState,
    gdelta: &mut GState,
) -> (r: Result<(), Error>)
    requires
        old(ctx).wf(),
        old(ctx).config.prog_size >= 4,
        old(lookahead).wf(&old(ctx).config),
    ensures
        final(ctx).wf(),
        final(ctx).config == old(ctx).config,
        final(lookahead).wf(&final(ctx).config),
        r is Ok ==> final(ctx).pcache.block == BLOCK_NULL || final(ctx).same_view(&*old(ctx)),
        old_path.spec_bytes().len() == 0 ==> r == Err::<(), Error>(Error::Inval) && *final(root) == *old(root),
        (old_path.spec_bytes().len() > 0 && forall|k: int| 0 <= k < old_path.spec_bytes().len() ==> old_path.spec_bytes()[k] == SLASH)
            ==> r is Err && *final(root) == *old(root),
        *final(root) == *old(root) || (final(root)[0] < old(ctx).config.block_count && final(root)[1] < old(ctx).config.block_count),
{
    let (old_dir, old_id) = dir_find(ctx, *root, old_path, name_max, None)?;
    if old_id == 0x3ff {
        return Err(Error::Inval);
    }
    let old_info = get_entry_info(&old_dir, old_id, name_max)?;
    let is_dir = old_info.typ == FileType::Dir;
    if is_dir && crate::path::path_is_descendant(old_path, new_path) {
        return Err(Error::Inval);
    }
    let (mut new_dir, new_id, prev, name) = match dir_find(ctx, *root, new_path, name_max, None) {
        Ok((d, i)) => {
            if i == 0x3ff {
                return Err(Error::Inval);
            }
            let last = match crate::path::path_last_component(new_path) {
                Some(n) => n,
                None => {
                    return Err(Error::Inval);
                },
            };
            (d, i, true, last)
        },
        Err(Error::Noent) => {
            let (d, _, n) = dir_find_for_create(ctx, *root, new_path, name_max, None)?;
            let c = d.count;
            (d, c, false, n)
        },
        Err(e) => {
            return Err(e);
        },
    };
    let nb = name.as_bytes();
    if nb.len() > name_max as usize {
        return Err(Error::Nametoolong);
    }
    if new_id >= 0x3ff {
        return Err(Error::Nospc);
    }
    let same_pair = old_dir.pair[0] == new_dir.pair[0] && old_dir.pair[1] == new_dir.pair[1];
    let mut prev_pair: Option<[u32; 2]> = None;
    if prev {
        if same_pair && new_id == old_id {
            return Ok(());
        }
        let prev_info = get_entry_info(&new_dir, new_id, name_max)?;
        if (prev_info.typ == FileType::Dir) != is_dir {
            return Err(if prev_info.typ == FileType::Dir { Error::IsDir } else { Error::NotDir });
        }
        if is_dir {
            let bytes = get_struct(&new_dir, new_id)?;
            let pair = [read_le32(&bytes, 0), read_le32(&bytes, 4)];
            let m = fetch_metadata_pair(ctx, pair)?;
            if m.count > 0 || m.split {
                return Err(Error::NotEmpty);
            }
            preporphans(gstate, 1)?;
            prev_pair = Some(m.pair);
        }
    }
    let st = struct_attr_of(&old_dir, old_id, is_dir, new_id)?;
    if !same_pair {
        prepmove(gstate, old_id, old_dir.pair);
    }
    let mut attrs: Vec<CommitAttr> = Vec::new();
    if !prev {
        attrs.push(CommitAttr::create(new_id));
    }
    if is_dir {
        attrs.push(CommitAttr::name_dir(new_id, nb));
    } else {
        attrs.push(CommitAttr::name_reg(new_id, nb));
    }
    attrs.push(st);
    if same_pair {
        attrs.push(CommitAttr::delete(old_id));
    }
    proof {
        let n = if nb@.len() < 255 { nb@.len() as u32 } else { 255 };
        lemma_mktag_fields(TYPE_DELETE, new_id as u32, 0);
        lemma_mktag_fields(TYPE_DELETE, old_id as u32, 0);
        lemma_mktag_fields(TYPE_CREATE, new_id as u32, 0);
        lemma_mktag_fields(TYPE_DIR, new_id as u32, n);
        lemma_mktag_fields(TYPE_REG, new_id as u32, n);
    }
    assert(attrs_bounded(attrs@));
    dir_orphaningcommit(ctx, &mut new_dir, attrs.as_slice(), root, lookahead, name_max, gstate, gdisk, gdelta, false, DISK_VERSION)?;
    if !same_pair {
        prepmove(gstate, 0x3ff, [0, 0]);
        let mut src = fetch_metadata_pair(ctx, old_dir.pair)?;
        let del = CommitAttr::delete(old_id);
        let dels = vec![del];
        proof {
            assert(dels@ =~= seq![del]);
            assert(data_bytes(dels@[0].data).len() + 4 <= tag_dsize_spec(dels@[0].tag));
        }
        dir_orphaningcommit(ctx, &mut src, dels.as_slice(), root, lookahead, name_max, gstate, gdisk, gdelta, false, DISK_VERSION)?;
    }
    match prev_pair {
        Some(pair) => {
            preporphans(gstate, -1)?;
            let orphan = fetch_metadata_pair(ctx, pair)?;
            let mut pred = match fs_pred(ctx, *root, orphan.pair)? {
                Some(p) => {
                    if p.pair[0] == BLOCK_NULL && p.pair[1] == BLOCK_NULL {
                        return Err(Error::Noent);
                    }
                    p
                },
                None => {
                    return Err(Error::Noent);
                },
            };
            dir_drop(ctx, &mut pred, &orphan, root, lookahead, name_max, gstate, gdisk, gdelta, DISK_VERSION)?;
        },
        None => {},
    }
    ctx.sync()?;
    Ok(())
}

} // verus!
