//! File handles: open, read, write, seek, tell, size, sync, truncate, rewind, close.
//! Small files live inline in their directory's metadata; larger ones in a CTZ
//! skip-list of blocks.
use vstd::prelude::*;
use vstd::string::StringSliceAdditionalSpecFns;
use crate::bdcache::{copy_slice, BdContext, BLOCK_NULL};
use crate::block::BlockDevice;
use crate::commit::{attrs_bounded, data_bytes, dir_orphaningcommit, log_holds_attrs, CommitAttr, CommitData};
use crate::ctz::{ctz_extend, ctz_find, ctz_index};
use crate::error::Error;
use crate::gstate::GState;
use crate::info::{FileType, OpenFlags, SeekWhence};
use crate::lookahead::{lfs_alloc, Lookahead};
use crate::metadata::{entry_info_spec, fetch_metadata_pair, fetched, get_entry_info, get_file_struct, get_inline_slice, MdDir, BLOCK_INLINE};
use crate::path::{dir_find, dir_find_for_create, has_name, last_segment, named, no_dotdot, SLASH};
use crate::superblock::DISK_VERSION;

verus! {

/// Open file handle.
pub struct File {
    pub id: u16,
    pub mdir: MdDir,
    pub ctz_head: u32,
    pub ctz_size: u64,
    pub inline: bool,
    pub pos: u64,
    pub block: u32,
    pub off: u32,
    pub block_size: u32,
    /// Buffer for inline file content when writing.
    pub inline_buffer: Vec<u8>,
    /// True if we have unflushed writes (CTZ) or uncommitted data (inline).
    pub dirty: bool,
    /// True if we are currently in a "writing" block (CTZ) and have prog data.
    pub writing: bool,
}

/// The bytes of `b` after writing `d` at position `p`: `d` over `[p, p + d.len())`,
/// the rest of `b` kept, and zeros filling any gap between the end of `b` and `p`.
pub open spec fn write_at(b: Seq<u8>, p: int, d: Seq<u8>) -> Seq<u8> {
    let n = if b.len() < p + d.len() { p + d.len() } else { b.len() as int };
    Seq::new(n as nat, |i: int| if p <= i < p + d.len() { d[i - p] } else if i < b.len() { b[i] } else { 0u8 })
}

/// Reading back what a write put at `p` gives the written bytes, and a write changes
/// no byte of `b` outside the written range.
pub proof fn lemma_write_at_read_back(b: Seq<u8>, p: int, d: Seq<u8>)
    requires
        0 <= p,
    ensures
        write_at(b, p, d).len() >= p + d.len(),
        write_at(b, p, d).len() >= b.len(),
        write_at(b, p, d).subrange(p, p + d.len()) == d,
        forall|i: int| 0 <= i < b.len() && !(p <= i < p + d.len()) ==> #[trigger] write_at(b, p, d)[i] == b[i],
{
    assert(write_at(b, p, d).subrange(p, p + d.len()) =~= d);
}

/// The largest file: LFS_FILE_MAX.
pub const FILE_MAX: u32 = 2_147_483_647;

/// The log of block `blk`, as reads through `c` see it, holds the struct record of
/// entry `id` of a file: its inline data (up to 0x3fe bytes), or the head and size of
/// its skip-list.
pub open spec fn holds_file_struct<B: BlockDevice>(
    c: &BdContext<B>,
    blk: u32,
    id: u16,
    inline: bool,
    data: Seq<u8>,
    head: u32,
    size: u64,
) -> bool {
    exists|a: CommitAttr| #[trigger] log_holds_attrs(c, blk, seq![a]) && (if inline {
        let n = if data.len() < 0x3fe { data.len() } else { 0x3fe };
        a.tag == crate::commit::mktag_spec(crate::tag::TYPE_INLINESTRUCT, id as u32, n as u32) && data_bytes(a.data) == data.subrange(0, n as int)
    } else {
        a.tag == crate::commit::mktag_spec(crate::tag::TYPE_CTZSTRUCT, id as u32, 8) && a.data == (CommitData::CtzStruct { head, size: size as u32 })
    })
}

/// What opening does with the result of looking the path up: the entry to open, or
/// None for a missing entry to create (a write open with CREAT). IsDir for the root or
/// an entry that is not a regular file, Exist for an existing entry under a write open
/// with EXCL, Noent for a missing entry otherwise; other errors pass through.
pub open spec fn open_target_spec(found: Result<(MdDir, u16), Error>, flags: OpenFlags, name_max: u32) -> Result<Option<(MdDir, u16)>, Error> {
    match found {
        Ok((d, i)) => if i >= 0x3ff {
            Err(Error::IsDir)
        } else {
            match entry_info_spec(&d, i, name_max) {
                Err(e) => Err(e),
                Ok((t, sz, nm)) => if t != FileType::Reg {
                    Err(Error::IsDir)
                } else if flags.spec_can_write() && (flags.0 & OpenFlags::EXCL) != 0 {
                    Err(Error::Exist)
                } else {
                    Ok(Some((d, i)))
                },
            }
        },
        Err(Error::Noent) => if flags.spec_can_write() && (flags.0 & OpenFlags::CREAT) != 0 {
            Ok(None)
        } else {
            Err(Error::Noent)
        },
        Err(e) => Err(e),
    }
}

/// Decide what to open from the result of looking the path up (see `open_target_spec`).
pub fn open_target(found: Result<(MdDir, u16), Error>, flags: &OpenFlags, name_max: u32) -> (r: Result<Option<(MdDir, u16)>, Error>)
    requires
        found matches Ok((d, i)) ==> d.wf(),
    ensures
        r == open_target_spec(found, *flags, name_max),
{
    match found {
        Ok((d, i)) => {
            if i >= 0x3ff {
                return Err(Error::IsDir);
            }
            let info = get_entry_info(&d, i, name_max)?;
            if info.typ != FileType::Reg {
                return Err(Error::IsDir);
            }
            if flags.can_write() && flags.contains(OpenFlags::EXCL) {
                return Err(Error::Exist);
            }
            Ok(Some((d, i)))
        },
        Err(Error::Noent) => {
            if flags.can_write() && flags.contains(OpenFlags::CREAT) {
                Ok(None)
            } else {
                Err(Error::Noent)
            }
        },
        Err(e) => Err(e),
    }
}

impl File {
    /// A handle on a device of `config`: its entry's pair, an id in it, sizes and
    /// positions within 32 bits and an inline buffer that fits them.
    pub open spec fn wf(&self, config: &crate::config::Config) -> bool {
        &&& self.mdir.fits(config)
        &&& self.id < 0x3ff
        &&& self.block_size == config.block_size
        &&& self.ctz_size <= 0xffff_ffff
        &&& self.pos <= 0xffff_ffff
        &&& self.inline_buffer@.len() <= 0xffff_ffff
    }

    /// The size that reads see: the inline buffer while it holds unsynced data, else
    /// the committed size.
    pub open spec fn read_size(&self) -> u64 {
        if self.inline && self.dirty { self.inline_buffer@.len() as u64 } else { self.ctz_size }
    }

    /// Open a file. Supports RDONLY, WRONLY, RDWR, CREAT, EXCL, TRUNC, APPEND.
    /// A missing file is created (when CREAT is set and the mode can write) as an
    /// empty inline file after the names that sort before it. The root and
    /// directories are IsDir; an existing file with EXCL is Exist.
    pub fn open<B: BlockDevice>(
        ctx: &mut BdContext<B>,
        root: &mut [u32; 2],
        lookahead: &mut Lookahead,
        path: &str,
        name_max: u32,
        inline_max: u32,
        flags: OpenFlags,
        gstate: &GState,
        gdisk: &mut GState,
        gdelta: &mut GState,
    ) -> (r: Result<Self, Error>)
        requires
            old(ctx).wf(),
            old(ctx).config.prog_size >= 4,
            old(lookahead).wf(&old(ctx).config),
        ensures
            final(ctx).wf(),
            final(ctx).config == old(ctx).config,
            final(lookahead).wf(&final(ctx).config),
            r matches Ok(f) ==> f.wf(&old(ctx).config),
            r matches Ok(f) ==> !f.writing && f.off == 0,
            r matches Ok(f) ==> f.pos == (if flags.spec_can_write() && (flags.0 & OpenFlags::APPEND) != 0 { f.ctz_size } else { 0 }),
            r matches Ok(f) ==> f.dirty == (flags.spec_can_write() && (f.dirty || (flags.0 & OpenFlags::TRUNC) != 0)),
            r matches Ok(f) ==> (f.inline ==> f.block == BLOCK_INLINE) && (!f.inline ==> f.block == BLOCK_NULL),
            r matches Ok(f) ==> (f.dirty ==> f.inline && f.ctz_size == 0 && f.inline_buffer@.len() == 0 && f.pos == 0),
            (flags.spec_can_write() && (flags.0 & OpenFlags::TRUNC) != 0) ==> (r matches Ok(f) ==> f.dirty),
            ((flags.0 & OpenFlags::CREAT) == 0 && (flags.0 & OpenFlags::TRUNC) == 0) ==> (r matches Ok(f) ==> !f.dirty),
            (path.spec_bytes().len() > 0 && forall|k: int| 0 <= k < path.spec_bytes().len() ==> path.spec_bytes()[k] == SLASH)
                ==> r is Err,
            path.spec_bytes().len() == 0 ==> r == Err::<Self, Error>(Error::Inval),
            ((flags.0 & OpenFlags::CREAT) == 0 && no_dotdot(path.spec_bytes()) && has_name(path.spec_bytes()) && (forall|a: int, b: int|
                #[trigger] last_segment(path.spec_bytes(), a, b) ==> path.spec_bytes().subrange(a, b) != seq![0x2eu8]))
                ==> (r matches Ok(f) ==> exists|a: int, b: int| #[trigger] last_segment(path.spec_bytes(), a, b)
                    && named(&f.mdir, f.id, name_max, None, path.spec_bytes().subrange(a, b))),
            ((flags.0 & OpenFlags::CREAT) == 0 && !(flags.spec_can_write() && (flags.0 & OpenFlags::TRUNC) != 0))
                ==> (r matches Ok(f) ==> crate::metadata::file_struct_spec(&f.mdir, f.id) == Ok::<(bool, u32, u64), Error>(
                    (f.inline, f.ctz_head, f.ctz_size),
                )),
    {
        let can_write = flags.can_write();
        let found = dir_find(ctx, *root, path, name_max, None);
        let mut created = false;
        let dir: MdDir;
        let id: u16;
        {
            match open_target(found, &flags, name_max)? {
                Some((d, i)) => {
                    dir = d;
                    id = i;
                },
                None => {
                    let (cwd, i, name) = dir_find_for_create(ctx, *root, path, name_max, None)?;
                    let nb = name.as_bytes();
                    if nb.len() > name_max as usize {
                        return Err(Error::Nametoolong);
                    }
                    if i >= 0x3ff {
                        return Err(Error::Nospc);
                    }
                    let mut cwd_mut = fetch_metadata_pair(ctx, cwd.pair)?;
                    let empty: [u8; 0] = [];
                    let a0 = CommitAttr::create(i);
                    let a1 = CommitAttr::name_reg(i, nb);
                    let a2 = CommitAttr::inline_struct(i, &empty);
                    proof {
                        crate::tag::lemma_mktag_fields(crate::tag::TYPE_CREATE, i as u32, 0);
                        crate::tag::lemma_mktag_fields(crate::tag::TYPE_REG, i as u32, if nb@.len() < 255 { nb@.len() as u32 } else { 255 });
                        crate::tag::lemma_mktag_fields(crate::tag::TYPE_INLINESTRUCT, i as u32, 0);
                    }
                    let attrs = vec![a0, a1, a2];
                    proof {
                        assert(attrs@ =~= seq![a0, a1, a2]);
                        assert forall|k: int| 0 <= k < attrs@.len() implies data_bytes(#[trigger] attrs@[k].data).len() + 4
                            <= crate::tag::tag_dsize_spec(attrs@[k].tag) by {
                            if k == 0 {
                                assert(attrs@[k] == a0);
                            } else if k == 1 {
                                assert(attrs@[k] == a1);
                            } else {
                                assert(attrs@[k] == a2);
                            }
                        }
                    }
                    dir_orphaningcommit(
                        ctx,
                        &mut cwd_mut,
                        attrs.as_slice(),
                        root,
                        lookahead,
                        name_max,
                        gstate,
                        gdisk,
                        gdelta,
                        false,
                        DISK_VERSION,
                    )?;
                    ctx.sync()?;
                    dir = fetch_metadata_pair(ctx, cwd.pair)?;
                    id = i;
                    created = true;
                },
            }
        }
        let trunc = flags.contains(OpenFlags::TRUNC);
        let (inline_, head, size) = if created || (can_write && trunc) {
            (true, BLOCK_INLINE, 0u64)
        } else {
            get_file_struct(&dir, id)?
        };
        if size > 0xffff_ffff {
            return Err(Error::Corrupt);
        }
        let mut pos: u64 = 0;
        if can_write && flags.contains(OpenFlags::APPEND) {
            pos = size;
        }
        let (block, off) = if inline_ {
            (BLOCK_INLINE, 0u32)
        } else {
            (BLOCK_NULL, 0u32)
        };
        let mut inline_buffer: Vec<u8> = Vec::new();
        if inline_ && can_write {
            if size > 0 && !created && !trunc {
                let mut buf: Vec<u8> = vec![0u8; size as usize];
                let n = get_inline_slice(&dir, id, 0, buf.as_mut_slice())?;
                let mut k: usize = 0;
                while k < n
                    invariant
                        k <= n,
                        n <= buf@.len(),
                        buf@.len() <= 0xffff_ffff,
                        inline_buffer@.len() == k,
                    decreases n - k,
                {
                    inline_buffer.push(buf[k]);
                    k = k + 1;
                }
            }
        }
        let dirty = can_write && (created || trunc);
        Ok(File {
            id,
            mdir: dir,
            ctz_head: head,
            ctz_size: size,
            inline: inline_,
            pos,
            block,
            off,
            block_size: ctx.config.block_size,
            inline_buffer,
            dirty,
            writing: false,
        })
    }

    fn size_for_read(&self) -> (r: u64)
        ensures
            r == self.read_size(),
    {
        if self.inline && self.dirty {
            self.inline_buffer.len() as u64
        } else {
            self.ctz_size
        }
    }

    /// Read bytes from file into `buf`. Returns 0 at EOF. A dirty inline file reads
    /// its buffer; a clean one its metadata; a CTZ file its blocks, looked up through
    /// its skip-list from the position on.
    pub fn read<B: BlockDevice>(&mut self, ctx: &mut BdContext<B>, buf: &mut [u8]) -> (r: Result<usize, Error>)
        requires
            old(ctx).wf(),
            old(self).wf(&old(ctx).config),
        ensures
            final(ctx).wf(),
            final(ctx).same_view(&*old(ctx)),
            final(ctx).bd == old(ctx).bd,
            final(self).wf(&old(ctx).config),
            final(buf)@.len() == old(buf)@.len(),
            final(self).inline == old(self).inline && final(self).dirty == old(self).dirty,
            final(self).ctz_size == old(self).ctz_size && final(self).inline_buffer == old(self).inline_buffer,
            final(self).ctz_head == old(self).ctz_head,
            final(self).mdir == old(self).mdir && final(self).id == old(self).id,
            r is Ok ==> final(self).pos == old(self).pos + r->Ok_0,
            r is Ok ==> r->Ok_0 <= old(buf)@.len(),
            old(self).pos >= old(self).read_size() ==> r == Ok::<usize, Error>(0),
            (r is Ok && r->Ok_0 > 0) ==> old(self).pos + r->Ok_0 <= old(self).read_size(),
            (old(self).inline && old(self).dirty) ==> r == Ok::<usize, Error>(crate::metadata::slice_len(
                old(self).pos as int,
                old(buf)@.len() as int,
                old(self).inline_buffer@.len() as int,
            ) as usize),
            (old(self).inline && old(self).dirty && r is Ok && r->Ok_0 > 0) ==> final(buf)@.subrange(0, r->Ok_0 as int)
                == old(self).inline_buffer@.subrange(old(self).pos as int, old(self).pos + r->Ok_0),
            (old(self).inline && !old(self).dirty && old(self).pos < old(self).read_size() && old(buf)@.len() > 0) ==> match
                crate::metadata::lookup(&old(self).mdir, 0x7ff0_fc00, (crate::tag::TYPE_INLINESTRUCT << 20u32) | ((old(self).id as u32) << 10u32)) {
                None => r == Err::<usize, Error>(Error::Noent),
                Some((t, doff, dsize)) => {
                    &&& r == Ok::<usize, Error>(crate::metadata::slice_len(
                        old(self).pos as int,
                        vstd::math::min(old(buf)@.len() as int, old(self).read_size() - old(self).pos),
                        dsize as int,
                    ) as usize)
                    &&& r->Ok_0 > 0 ==> final(buf)@.subrange(0, r->Ok_0 as int) == old(self).mdir.block@.subrange(
                        doff + old(self).pos,
                        doff + old(self).pos + r->Ok_0,
                    )
                },
            },
            (!old(self).inline && r is Ok && old(self).pos < old(self).read_size()) ==> r->Ok_0 == vstd::math::min(
                old(buf)@.len() as int,
                old(self).read_size() - old(self).pos,
            ),
            (!old(self).inline && (old(self).block == BLOCK_NULL || old(self).off >= old(self).block_size) && r is Ok)
                ==> final(buf)@.subrange(0, r->Ok_0 as int) == crate::ctz::ctz_bytes(
                &*old(ctx),
                old(self).ctz_head,
                old(self).ctz_size,
                old(self).pos,
                r->Ok_0 as nat,
            ),
    {
        let size = self.size_for_read();
        if self.pos >= size {
            return Ok(0);
        }
        let remaining = size - self.pos;
        let to_read: usize = if (buf.len() as u64) < remaining { buf.len() } else { remaining as usize };
        if to_read == 0 {
            return Ok(0);
        }
        if self.inline {
            if self.dirty {
                let offset = self.pos as usize;
                let avail = if self.inline_buffer.len() > offset { self.inline_buffer.len() - offset } else { 0 };
                let n = if to_read < avail { to_read } else { avail };
                copy_slice(buf, 0, self.inline_buffer.as_slice(), offset, n);
                proof {
                    assert(buf@.subrange(0, n as int) =~= self.inline_buffer@.subrange(offset as int, offset + n));
                }
                self.pos = self.pos + n as u64;
                return Ok(n);
            }
            let mut tmp: Vec<u8> = vec![0u8; to_read];
            let n = get_inline_slice(&self.mdir, self.id, self.pos as usize, tmp.as_mut_slice())?;
            let ghost tv = tmp@;
            copy_slice(buf, 0, tmp.as_slice(), 0, n);
            proof {
                assert(buf@.subrange(0, n as int) =~= tv.subrange(0, n as int));
            }
            self.pos = self.pos + n as u64;
            return Ok(n);
        }
        let mut buf_pos: usize = 0;
        let block_size = self.block_size;
        let ghost fresh = self.block == BLOCK_NULL || self.off >= block_size;
        let ghost whole = crate::ctz::ctz_bytes(&*old(ctx), self.ctz_head, self.ctz_size, self.pos, to_read as nat);
        proof {
            assert(buf@.subrange(0, 0) + crate::ctz::ctz_bytes(&*old(ctx), self.ctz_head, self.ctz_size, self.pos, to_read as nat) =~= whole);
        }
        while buf_pos < to_read
            invariant
                self.ctz_head == old(self).ctz_head,
                fresh ==> (buf_pos < to_read ==> (self.block == BLOCK_NULL || self.off >= block_size)),
                fresh ==> whole == buf@.subrange(0, buf_pos as int) + crate::ctz::ctz_bytes(
                    &*old(ctx),
                    self.ctz_head,
                    self.ctz_size,
                    self.pos,
                    (to_read - buf_pos) as nat,
                ),
                ctx.wf(),
                ctx.same_view(&*old(ctx)),
                ctx.bd == old(ctx).bd,
                self.wf(&old(ctx).config),
                self.block_size == block_size,
                block_size == ctx.config.block_size,
                128 <= block_size,
                buf_pos <= to_read,
                to_read <= buf@.len(),
                buf@.len() == old(buf)@.len(),
                self.pos == old(self).pos + buf_pos,
                old(self).pos + to_read <= size,
                size == self.read_size(),
                self.inline == old(self).inline && self.dirty == old(self).dirty,
                self.ctz_size == old(self).ctz_size && self.inline_buffer == old(self).inline_buffer,
                self.mdir == old(self).mdir && self.id == old(self).id,
                !self.inline,
            decreases to_read - buf_pos,
        {
            let need_block = self.block == BLOCK_NULL || self.off >= block_size;
            let ghost cf = *ctx;
            if need_block {
                let (block, off) = ctz_find(ctx, self.ctz_head, self.ctz_size, self.pos)?;
                if off >= block_size {
                    return Err(Error::Corrupt);
                }
                self.block = block;
                self.off = off;
                proof {
                    crate::ctz::lemma_walk_same_view(
                        &cf,
                        &*old(ctx),
                        self.ctz_head,
                        crate::ctz::ctz_index_spec(block_size, (self.ctz_size - 1) as u64).0 as nat,
                        crate::ctz::ctz_index_spec(block_size, self.pos).0 as nat,
                    );
                }
            }
            let avail_in_block = (block_size - self.off) as usize;
            let want = if to_read - buf_pos < avail_in_block { to_read - buf_pos } else { avail_in_block };
            let mut tmp: Vec<u8> = vec![0u8; want];
            let ghost mid = *ctx;
            let rr = ctx.read(self.block, self.off, tmp.as_mut_slice());
            proof {
                assert forall|b: u32, o: int| #[trigger] ctx.logical(b, o) == old(ctx).logical(b, o) by {
                    assert(ctx.logical(b, o) == mid.logical(b, o));
                }
            }
            rr?;
            let ghost b0 = buf@;
            let ghost p0 = self.pos;
            proof {
                crate::bdcache::lemma_same_view_range(&mid, &*old(ctx), self.block, self.off as int, want as nat);
            }
            copy_slice(buf, buf_pos, tmp.as_slice(), 0, want);
            proof {
                if fresh {
                    let rest = crate::ctz::ctz_bytes(&*old(ctx), self.ctz_head, self.ctz_size, p0, (to_read - buf_pos) as nat);
                    assert(rest == tmp@ + crate::ctz::ctz_bytes(
                        &*old(ctx),
                        self.ctz_head,
                        self.ctz_size,
                        (p0 + want) as u64,
                        (to_read - buf_pos - want) as nat,
                    ));
                    assert(buf@.subrange(0, buf_pos + want) =~= b0.subrange(0, buf_pos as int) + tmp@);
                    assert(whole =~= buf@.subrange(0, buf_pos + want) + crate::ctz::ctz_bytes(
                        &*old(ctx),
                        self.ctz_head,
                        self.ctz_size,
                        (p0 + want) as u64,
                        (to_read - buf_pos - want) as nat,
                    ));
                }
            }
            self.pos = self.pos + want as u64;
            self.off = self.off + want as u32;
            buf_pos = buf_pos + want;
        }
        proof {
            if fresh {
                assert(crate::ctz::ctz_bytes(&*old(ctx), self.ctz_head, self.ctz_size, self.pos, 0) =~= Seq::<u8>::empty());
                assert(buf@.subrange(0, buf_pos as int) =~= whole);
            }
        }
        Ok(buf_pos)
    }

    /// Write bytes to file. Buffered until sync. Fbig past `file_max`. An inline file
    /// that would outgrow `inline_max` moves to a block first.
    pub fn write<B: BlockDevice>(
        &mut self,
        ctx: &mut BdContext<B>,
        root: [u32; 2],
        lookahead: &mut Lookahead,
        inline_max: u32,
        file_max: u32,
        data: &[u8],
    ) -> (r: Result<usize, Error>)
        requires
            old(ctx).wf(),
            old(self).wf(&old(ctx).config),
            old(lookahead).wf(&old(ctx).config),
        ensures
            final(ctx).wf(),
            final(ctx).config == old(ctx).config,
            final(lookahead).wf(&final(ctx).config),
            final(self).wf(&old(ctx).config),
            old(self).pos + data@.len() > file_max ==> r == Err::<usize, Error>(Error::Fbig),
            r is Ok ==> r->Ok_0 == data@.len(),
            r is Ok ==> final(self).dirty,
            (r is Ok && old(self).inline && old(self).pos + data@.len() <= inline_max) ==> final(self).inline && final(self).pos
                == old(self).pos + data@.len() && final(self).inline_buffer@ == write_at(
                old(self).inline_buffer@,
                old(self).pos as int,
                data@,
            ),
            (old(self).inline && old(self).pos + data@.len() <= file_max && old(self).pos + data@.len() <= inline_max) ==> r
                == Ok::<usize, Error>(data@.len() as usize),
            (r is Ok && old(self).inline && old(self).pos + data@.len() > inline_max) ==> !final(self).inline && final(self).pos
                == old(self).pos + data@.len() && final(self).ctz_size == write_at(old(self).inline_buffer@, old(self).pos as int, data@).len()
                && final(self).writing,
            (!old(self).inline && data@.len() == 0 && old(self).pos <= old(self).ctz_size && old(self).pos <= file_max) ==> r
                == Ok::<usize, Error>(0),
            (r is Ok && !old(self).inline && old(self).pos <= old(self).ctz_size) ==> !final(self).inline && final(self).pos == old(self).pos
                + data@.len() && final(self).ctz_size == (if old(self).ctz_size < old(self).pos + data@.len() { old(self).pos + data@.len() } else {
                old(self).ctz_size as int }),
    {
        if self.pos as u128 + data.len() as u128 > file_max as u128 {
            return Err(Error::Fbig);
        }
        if self.inline {
            let new_size = (self.pos + data.len() as u64) as usize;
            if new_size > self.inline_buffer.len() {
                self.inline_buffer.resize(new_size, 0);
            }
            let pos = self.pos as usize;
            let ghost base = self.inline_buffer@;
            proof {
                assert forall|j: int| 0 <= j < base.len() implies #[trigger] base[j]
                    == (if j < old(self).inline_buffer@.len() { old(self).inline_buffer@[j] } else { 0u8 }) by {
                    if new_size > old(self).inline_buffer@.len() {
                        assert(base.subrange(0, old(self).inline_buffer@.len() as int) == old(self).inline_buffer@);
                        if j < old(self).inline_buffer@.len() {
                            assert(base.subrange(0, old(self).inline_buffer@.len() as int)[j] == base[j]);
                        }
                    }
                }
            }
            let mut k: usize = 0;
            while k < data.len()
                invariant
                    k <= data@.len(),
                    pos + data@.len() == new_size,
                    new_size <= self.inline_buffer@.len(),
                    self.inline_buffer@.len() <= 0xffff_ffff,
                    self.inline_buffer@.len() == (if new_size > old(self).inline_buffer@.len() { new_size as int } else { old(self).inline_buffer@.len() as int }),
                    base.len() == self.inline_buffer@.len(),
                    forall|j: int| 0 <= j < base.len() ==> #[trigger] base[j]
                        == (if j < old(self).inline_buffer@.len() { old(self).inline_buffer@[j] } else { 0u8 }),
                    forall|j: int| 0 <= j < self.inline_buffer@.len() ==> #[trigger] self.inline_buffer@[j]
                        == (if pos <= j < pos + k { data@[j - pos] } else { base[j] }),
                    self.mdir == old(self).mdir,
                    self.id == old(self).id,
                    self.block_size == old(self).block_size,
                    self.ctz_size == old(self).ctz_size,
                    self.pos == old(self).pos,
                    self.inline == old(self).inline,
                    pos == old(self).pos,
                decreases data@.len() - k,
            {
                self.inline_buffer.set(pos + k, data[k]);
                k = k + 1;
            }
            proof {
                assert(self.inline_buffer@ =~= write_at(old(self).inline_buffer@, pos as int, data@));
            }
            self.pos = self.pos + data.len() as u64;
            if new_size > inline_max as usize {
                self.outline(ctx, root, lookahead)?;
                return Ok(data.len());
            }
            self.dirty = true;
            return Ok(data.len());
        }
        if self.pos > self.ctz_size {
            let zeros = self.pos - self.ctz_size;
            let mut z: u64 = 0;
            while z < zeros
                invariant
                    ctx.wf(),
                    ctx.config == old(ctx).config,
                    lookahead.wf(&ctx.config),
                    self.wf(&old(ctx).config),
                    old(self).pos + data@.len() <= file_max,
                    !old(self).inline,
                    old(self).pos > old(self).ctz_size,
                    z <= zeros,
                    file_max <= u32::MAX,
                decreases zeros - z,
            {
                self.write_one_ctz(ctx, root, lookahead, 0)?;
                z = z + 1;
            }
        }
        let mut written: usize = 0;
        while written < data.len()
            invariant
                ctx.wf(),
                ctx.config == old(ctx).config,
                lookahead.wf(&ctx.config),
                self.wf(&old(ctx).config),
                written <= data@.len(),
                written > 0 ==> self.dirty,
                old(self).pos + data@.len() <= file_max,
                !old(self).inline,
                old(self).pos <= old(self).ctz_size ==> !self.inline && self.pos == old(self).pos + written && self.ctz_size == (if old(
                    self,
                ).ctz_size < self.pos { self.pos } else { old(self).ctz_size }),
            decreases data@.len() - written,
        {
            self.write_one_ctz(ctx, root, lookahead, data[written])?;
            written = written + 1;
        }
        if data.len() == 0 {
            self.dirty = true;
        }
        Ok(written)
    }

    /// Move inline data to a newly allocated block, which becomes the file's head.
    fn outline<B: BlockDevice>(&mut self, ctx: &mut BdContext<B>, root: [u32; 2], lookahead: &mut Lookahead) -> (r: Result<(), Error>)
        requires
            old(ctx).wf(),
            old(self).wf(&old(ctx).config),
            old(lookahead).wf(&old(ctx).config),
        ensures
            final(ctx).wf(),
            final(ctx).config == old(ctx).config,
            final(lookahead).wf(&final(ctx).config),
            final(self).wf(&old(ctx).config),
            r is Ok ==> final(self).dirty && !final(self).inline && final(self).writing,
            r is Ok ==> final(self).ctz_size == old(self).inline_buffer@.len() && final(self).ctz_head == final(self).block
                && final(self).off == old(self).inline_buffer@.len() && final(self).inline_buffer@.len() == 0
                && final(self).block < old(ctx).config.block_count,
            r is Ok ==> final(self).pos == old(self).pos && final(self).mdir == old(self).mdir && final(self).id == old(self).id,
    {
        lookahead.alloc_ckpoint(ctx.config.block_count);
        let block = lfs_alloc(ctx, root, lookahead)?;
        ctx.erase(block)?;
        let size = self.inline_buffer.len();
        if size > ctx.config.block_size as usize {
            return Err(Error::Fbig);
        }
        let mut i: usize = 0;
        while i < size
            invariant
                ctx.wf(),
                ctx.config == old(ctx).config,
                lookahead.wf(&ctx.config),
                *self == *old(self),
                self.wf(&old(ctx).config),
                block < ctx.config.block_count,
                size == self.inline_buffer@.len(),
                size <= ctx.config.block_size,
                i <= size,
            decreases size - i,
        {
            let one: [u8; 1] = [self.inline_buffer[i]];
            ctx.prog(block, i as u32, &one)?;
            i = i + 1;
        }
        self.ctz_head = block;
        self.ctz_size = size as u64;
        self.block = block;
        self.off = size as u32;
        self.inline = false;
        self.inline_buffer.clear();
        self.dirty = true;
        self.writing = true;
        Ok(())
    }

    /// Write one byte at the current position of a CTZ file, getting the block that
    /// holds the position first when not already writing in a block with room.
    fn write_one_ctz<B: BlockDevice>(
        &mut self,
        ctx: &mut BdContext<B>,
        root: [u32; 2],
        lookahead: &mut Lookahead,
        byte: u8,
    ) -> (r: Result<(), Error>)
        requires
            old(ctx).wf(),
            old(self).wf(&old(ctx).config),
            old(lookahead).wf(&old(ctx).config),
        ensures
            final(ctx).wf(),
            final(ctx).config == old(ctx).config,
            final(lookahead).wf(&final(ctx).config),
            final(self).wf(&old(ctx).config),
            final(self).mdir == old(self).mdir && final(self).id == old(self).id,
            final(self).inline == old(self).inline,
            r is Ok ==> final(self).dirty && final(self).pos == old(self).pos + 1,
            r is Ok ==> final(self).ctz_size == (if old(self).ctz_size < old(self).pos + 1 { old(self).pos + 1 } else { old(self).ctz_size as int }),
    {
        let block_size = self.block_size;
        let need_block = !self.writing || self.off >= block_size;
        if need_block {
            if !self.writing && self.pos == 0 && self.ctz_size == 0 {
                self.block = self.ctz_head;
                self.off = 0;
            } else if !self.writing && self.pos == 0 && self.ctz_size > 0 {
                let (block, off) = ctz_find(ctx, self.ctz_head, self.ctz_size, 0)?;
                self.block = block;
                self.off = off;
            } else if !self.writing && self.pos > 0 {
                let (block, _) = ctz_find(ctx, self.ctz_head, self.ctz_size, self.pos - 1)?;
                self.block = block;
                self.off = (self.pos % block_size as u64) as u32;
                if self.off == 0 {
                    let mut noff = self.pos - 1;
                    let _ = ctz_index(block_size, &mut noff);
                    if noff >= block_size as u64 {
                        return Err(Error::Corrupt);
                    }
                    self.off = (noff + 1) as u32;
                }
            } else {
                lookahead.alloc_ckpoint(ctx.config.block_count);
                let (block, off) = ctz_extend(ctx, root, lookahead, self.block, self.pos)?;
                self.block = block;
                self.ctz_head = block;
                self.off = off;
            }
            self.writing = true;
        }
        if self.off >= block_size || self.block >= ctx.config.block_count || self.pos >= 0xffff_ffff {
            return Err(Error::Corrupt);
        }
        let one: [u8; 1] = [byte];
        ctx.prog(self.block, self.off, &one)?;
        self.pos = self.pos + 1;
        self.off = self.off + 1;
        if self.pos > self.ctz_size {
            self.ctz_size = self.pos;
        }
        self.dirty = true;
        lookahead.alloc_ckpoint(ctx.config.block_count);
        Ok(())
    }

    /// Flush buffer to storage and commit metadata: the inline data, or the head and
    /// size of the skip-list, as the file's struct. On a reliable device, a commit that
    /// needed no new block leaves that struct record in the log of the file's pair.
    pub fn sync<B: BlockDevice>(
        &mut self,
        ctx: &mut BdContext<B>,
        root: &mut [u32; 2],
        lookahead: &mut Lookahead,
        name_max: u32,
        gstate: &GState,
        gdisk: &mut GState,
        gdelta: &mut GState,
    ) -> (r: Result<(), Error>)
        requires
            old(ctx).wf(),
            old(ctx).config.prog_size >= 4,
            old(self).wf(&old(ctx).config),
            old(lookahead).wf(&old(ctx).config),
        ensures
            final(ctx).wf(),
            final(ctx).config == old(ctx).config,
            final(lookahead).wf(&final(ctx).config),
            final(self).wf(&old(ctx).config),
            !old(self).dirty ==> r == Ok::<(), Error>(()) && *final(self) == *old(self),
            (r is Ok && old(self).dirty) ==> !final(self).dirty && !final(self).writing,
            final(self).inline == old(self).inline && final(self).ctz_size == old(self).ctz_size && final(self).ctz_head == old(self).ctz_head
                && final(self).inline_buffer == old(self).inline_buffer && final(self).id == old(self).id,
            (r is Ok && old(self).dirty) ==> final(ctx).pcache.block == BLOCK_NULL && final(self).id == old(self).id
                && fetched(final(self).mdir, old(self).mdir.pair, &*final(ctx)),
            final(self).pos == old(self).pos,
            (r is Ok && old(self).dirty && final(lookahead).ckpoint == old(lookahead).ckpoint && old(ctx).bd.reliable()) ==> exists|
                k: int,
            |
                0 <= k < 2 && #[trigger] holds_file_struct(
                    &*final(ctx),
                    old(self).mdir.pair[k],
                    old(self).id,
                    old(self).inline,
                    old(self).inline_buffer@,
                    old(self).ctz_head,
                    old(self).ctz_size,
                ),
    {
        if !self.dirty {
            return Ok(());
        }
        ctx.sync()?;
        let mut dir = fetch_metadata_pair(ctx, self.mdir.pair)?;
        let attr = if self.inline {
            CommitAttr::inline_struct(self.id, self.inline_buffer.as_slice())
        } else {
            CommitAttr::ctz_struct(self.id, self.ctz_head, self.ctz_size as u32)
        };
        proof {
            let n = if self.inline_buffer@.len() < 0x3fe { self.inline_buffer@.len() as u32 } else { 0x3fe };
            crate::tag::lemma_mktag_fields(crate::tag::TYPE_INLINESTRUCT, self.id as u32, n);
            crate::tag::lemma_mktag_fields(crate::tag::TYPE_CTZSTRUCT, self.id as u32, 8);
        }
        let attrs = vec![attr];
        proof {
            assert(attrs@ =~= seq![attr]);
            assert(attrs_bounded(attrs@)) by {
                assert(attrs@[0] == attr);
            }
        }
        let ghost d0 = dir;
        let ghost ck0 = lookahead.ckpoint;
        proof {
            assert(crate::commit::attrs_complete(attrs@)) by {
                assert(attrs@[0] == attr);
            }
            assert(!crate::commit::has_delete(attrs@)) by {
                assert(attrs@[0] == attr);
                let t = attr.tag;
                let i32v = self.id as u32;
                let n: u32 = if self.inline_buffer@.len() < 0x3fe { self.inline_buffer@.len() as u32 } else { 0x3fe };
                if self.inline {
                    assert(t == (0x201u32 << 20u32) | (i32v << 10u32) | n);
                    assert(((t >> 20u32) & 0x7ff) == 0x201) by (bit_vector)
                        requires t == (0x201u32 << 20u32) | (i32v << 10u32) | n, i32v < 0x400, n < 0x400;
                } else {
                    assert(t == (0x202u32 << 20u32) | (i32v << 10u32) | 8u32);
                    assert(((t >> 20u32) & 0x7ff) == 0x202) by (bit_vector)
                        requires t == (0x202u32 << 20u32) | (i32v << 10u32) | 8u32, i32v < 0x400;
                }
            }
        }
        dir_orphaningcommit(ctx, &mut dir, attrs.as_slice(), root, lookahead, name_max, gstate, gdisk, gdelta, false, DISK_VERSION)?;
        let ghost c1 = *ctx;
        let ghost blk = dir.pair[0];
        ctx.sync()?;
        let ghost c2 = *ctx;
        self.mdir = fetch_metadata_pair(ctx, self.mdir.pair)?;
        proof {
            if lookahead.ckpoint == ck0 && old(ctx).bd.reliable() {
                crate::commit::lemma_log_holds_same_logical(&c1, &c2, blk, attrs@);
                assert forall|b: u32, o: int| #[trigger] ctx.logical(b, o) == c2.logical(b, o) by {
                    assert(ctx.same_view(&c2));
                }
                crate::commit::lemma_log_holds_same_logical(&c2, &*ctx, blk, attrs@);
                assert(attrs@ == seq![attr]);
                assert(holds_file_struct(&*ctx, blk, self.id, self.inline, self.inline_buffer@, self.ctz_head, self.ctz_size));
                if blk == d0.pair[0] {
                    assert(old(self).mdir.pair[0] == blk || old(self).mdir.pair[1] == blk);
                }
            }
        }
        self.dirty = false;
        self.writing = false;
        Ok(())
    }

    /// Truncate (or extend with zeros) the file to `size` bytes. A clean inline file
    /// first takes its data from its metadata into its buffer. A file cut down to at
    /// most `inline_max` bytes goes back inline; a CTZ file cut down keeps the block
    /// that holds its new last byte as its head; a file extended gets zero bytes
    /// written at its end (Fbig once that passes LFS_FILE_MAX). The position is kept
    /// when it is inside the new size.
    pub fn truncate<B: BlockDevice>(
        &mut self,
        ctx: &mut BdContext<B>,
        root: &mut [u32; 2],
        lookahead: &mut Lookahead,
        name_max: u32,
        size: u64,
        inline_max: u32,
        gstate: &GState,
        gdisk: &mut GState,
        gdelta: &mut GState,
    ) -> (r: Result<(), Error>)
        requires
            old(ctx).wf(),
            old(ctx).config.prog_size >= 4,
            old(self).wf(&old(ctx).config),
            old(lookahead).wf(&old(ctx).config),
        ensures
            final(ctx).wf(),
            final(ctx).config == old(ctx).config,
            final(lookahead).wf(&final(ctx).config),
            final(self).wf(&old(ctx).config),
            r is Ok ==> final(self).read_size() == size,
            r is Ok ==> final(self).pos == (if old(self).pos < size { old(self).pos } else { size }),
            (size > FILE_MAX && size > old(self).read_size()) ==> r is Err,
            (old(self).inline && old(self).dirty && (size == old(self).read_size() || (size <= inline_max && size <= FILE_MAX))) ==> r
                == Ok::<(), Error>(()),
            (old(self).inline && old(self).dirty && (size == old(self).read_size() || size <= inline_max) && r is Ok) ==> final(self).inline
                && final(self).dirty && final(self).inline_buffer@.len() == size && forall|i: int| 0 <= i < size ==> #[trigger] final(self).inline_buffer@[i]
                == (if i < old(self).inline_buffer@.len() { old(self).inline_buffer@[i] } else { 0u8 }),
            (r is Ok && !old(self).inline && size < old(self).ctz_size && size > inline_max && crate::ctz::ctz_list_wf(
                &*final(ctx),
                old(self).ctz_head,
                crate::ctz::ctz_index_spec(old(ctx).config.block_size, (old(self).ctz_size - 1) as u64).0 as nat,
            )) ==> !final(self).inline && final(self).ctz_size == size && forall|p: u64, n: nat| p + n <= size
                ==> #[trigger] crate::ctz::ctz_bytes(&*final(ctx), final(self).ctz_head, size, p, n) == crate::ctz::ctz_bytes(
                &*final(ctx),
                old(self).ctz_head,
                old(self).ctz_size,
                p,
                n,
            ),
            (r is Ok && !old(self).inline && size < old(self).ctz_size && size <= inline_max) ==> final(self).inline
                && final(self).inline_buffer@ == crate::ctz::ctz_bytes(&*final(ctx), old(self).ctz_head, old(self).ctz_size, 0, size as nat),
    {
        if self.inline && !self.dirty {
            let n0 = self.ctz_size as usize;
            let mut buf: Vec<u8> = vec![0u8; n0];
            let n = get_inline_slice(&self.mdir, self.id, 0, buf.as_mut_slice())?;
            buf.truncate(n);
            self.inline_buffer = buf;
            self.dirty = true;
        }
        let ghost ob = self.inline_buffer@;
        let ghost inl0 = self.inline;
        proof {
            assert(inl0 == old(self).inline);
        }
        let old_pos = self.pos;
        let old_size = self.size_for_read();
        proof {
            if old(self).inline && old(self).dirty {
                assert(ob == old(self).inline_buffer@);
                assert(old_size == old(self).read_size());
            }
        }
        proof {
            if self.inline {
                assert(self.dirty);
            }
        }
        if size < old_size {
            if self.inline {
                self.inline_buffer.truncate(size as usize);
                proof {
                    assert forall|i: int| 0 <= i < size implies #[trigger] self.inline_buffer@[i] == (if i < ob.len() { ob[i] } else { 0u8 }) by {
                    }
                }
            } else if size <= inline_max as u64 {
                {
                    if self.dirty {
                        self.sync(ctx, root, lookahead, name_max, gstate, gdisk, gdelta)?;
                    }
                    self.seek(0, SeekWhence::Start)?;
                    let mut buf: Vec<u8> = vec![0u8; size as usize];
                    let mut pos: usize = 0;
                    let ghost cs = *ctx;
                    proof {
                        assert(crate::ctz::ctz_bytes(&cs, self.ctz_head, self.ctz_size, 0, 0) =~= Seq::<u8>::empty());
                    }
                    while pos < size as usize
                        invariant
                            ctx.same_view(&cs),
                            ctx.bd == cs.bd,
                            self.ctz_head == old(self).ctz_head,
                            self.ctz_size == old(self).ctz_size,
                            !self.inline,
                            pos == 0 ==> self.pos == 0 && self.block == BLOCK_NULL,
                            pos > 0 ==> pos == size,
                            size < self.ctz_size,
                            buf@.subrange(0, pos as int) == crate::ctz::ctz_bytes(&cs, self.ctz_head, self.ctz_size, 0, pos as nat),
                            ctx.wf(),
                            ctx.config == old(ctx).config,
                            lookahead.wf(&ctx.config),
                            self.wf(&old(ctx).config),
                            buf@.len() == size,
                            size < old_size,
                            old_size <= 0xffff_ffff,
                            pos <= size,
                            !old(self).inline,
                        ensures
                            pos == size,
                        decreases size - pos,
                    {
                        let left = size as usize - pos;
                        let mut tmp: Vec<u8> = vec![0u8; left];
                        let ghost cr = *ctx;
                        let n = self.read(ctx, tmp.as_mut_slice())?;
                        proof {
                            assert(n == left);
                        }
                        if n == 0 {
                            break;
                        }
                        let ghost t0 = tmp@;
                        copy_slice(buf.as_mut_slice(), pos, tmp.as_slice(), 0, n);
                        proof {
                            assert(pos == 0);
                            assert(n == left);
                            crate::ctz::lemma_ctz_bytes_same_view(&cr, &cs, self.ctz_head, self.ctz_size, 0, n as nat);
                            assert(buf@.subrange(0, n as int) =~= t0.subrange(0, n as int));
                        }
                        pos = pos + n;
                    }
                    proof {
                        crate::ctz::lemma_ctz_bytes_same_view(&*ctx, &cs, old(self).ctz_head, old(self).ctz_size, 0, size as nat);
                        assert(buf@.subrange(0, pos as int) =~= buf@);
                    }
                    self.inline = true;
                    self.ctz_head = BLOCK_INLINE;
                    self.ctz_size = size;
                    self.inline_buffer = buf;
                    self.block = BLOCK_INLINE;
                    self.off = 0;
                }
            } else {
                self.sync(ctx, root, lookahead, name_max, gstate, gdisk, gdelta)?;
                let ghost cf = *ctx;
                let (block, _) = ctz_find(ctx, self.ctz_head, self.ctz_size, size - 1)?;
                proof {
                    crate::ctz::lemma_walk_same_view(
                        &*ctx,
                        &cf,
                        self.ctz_head,
                        crate::ctz::ctz_index_spec(ctx.config.block_size, (self.ctz_size - 1) as u64).0 as nat,
                        crate::ctz::ctz_index_spec(ctx.config.block_size, (size - 1) as u64).0 as nat,
                    );
                    if crate::ctz::ctz_list_wf(
                        &*ctx,
                        old(self).ctz_head,
                        crate::ctz::ctz_index_spec(old(ctx).config.block_size, (old(self).ctz_size - 1) as u64).0 as nat,
                    ) {
                        assert forall|p: u64, n: nat| p + n <= size implies #[trigger] crate::ctz::ctz_bytes(&*ctx, block, size, p, n)
                            == crate::ctz::ctz_bytes(&*ctx, old(self).ctz_head, old(self).ctz_size, p, n) by {
                            crate::ctz::lemma_ctz_cut_keeps_bytes(&*ctx, old(self).ctz_head, old(self).ctz_size, size, p, n);
                        }
                    }
                }
                self.ctz_head = block;
                self.ctz_size = size;
                self.pos = size;
                self.block = BLOCK_NULL;
                self.dirty = true;
                self.writing = false;
            }
        } else if size > old_size {
            self.seek(0, SeekWhence::End)?;
            let to_fill = size - old_size;
            let zero: Vec<u8> = vec![0u8; 1];
            proof {
                assert(zero@ =~= seq![0u8]);
            }
            let mut k: u64 = 0;
            while k < to_fill
                invariant
                    ctx.wf(),
                    ctx.config == old(ctx).config,
                    lookahead.wf(&ctx.config),
                    self.wf(&old(ctx).config),
                    k <= to_fill,
                    to_fill == size - old_size,
                    size > old_size,
                    self.read_size() == old_size + k,
                    self.pos == self.read_size(),
                    k > 0 ==> self.pos <= FILE_MAX,
                    self.inline ==> self.dirty,
                    self.inline ==> self.inline_buffer@.len() == old_size + k,
                    (self.inline && old(self).inline && old(self).dirty) ==> forall|i: int| 0 <= i < old_size + k ==> #[trigger] self.inline_buffer@[i]
                        == (if i < ob.len() { ob[i] } else { 0u8 }),
                    (old(self).inline && old(self).dirty) ==> ob.len() == old_size && old_size == old(self).read_size(),
                    (old(self).inline && old(self).dirty && size <= inline_max && size <= FILE_MAX) ==> self.inline,
                    zero@ == seq![0u8],
                decreases to_fill - k,
            {
                let ghost pre = *self;
                let zs = zero.as_slice();
                proof {
                    assert(zs@ == zero@);
                    assert(zs@.len() == 1);
                }
                self.write(ctx, *root, lookahead, inline_max, FILE_MAX, zs)?;
                proof {
                    if pre.inline && pre.pos + 1 <= inline_max && old(self).inline && old(self).dirty {
                        let w = write_at(pre.inline_buffer@, pre.pos as int, zs@);
                        assert(self.inline_buffer@ == w);
                        assert forall|i: int| 0 <= i < old_size + k + 1 implies #[trigger] self.inline_buffer@[i]
                            == (if i < ob.len() { ob[i] } else { 0u8 }) by {
                            assert(self.inline_buffer@[i] == w[i]);
                            if i < old_size + k {
                                assert(w[i] == pre.inline_buffer@[i]);
                            } else {
                                assert(w[i] == zs@[0]);
                            }
                        }
                    }
                }
                k = k + 1;
            }
        }
        let target = if old_pos < size { old_pos } else { size };
        self.seek(target as i64, SeekWhence::Start)?;
        Ok(())
    }

    /// Current read position.
    pub fn tell(&self) -> (r: i64)
        requires
            self.pos <= 0xffff_ffff,
        ensures
            r == self.pos,
    {
        self.pos as i64
    }

    /// File size in bytes: the inline buffer while it holds unsynced data, else the
    /// larger of the committed size and the position.
    pub fn size(&self) -> (r: i64)
        requires
            self.pos <= 0xffff_ffff,
            self.ctz_size <= 0xffff_ffff,
            self.inline_buffer@.len() <= 0xffff_ffff,
        ensures
            r == (if self.inline && self.dirty {
                self.inline_buffer@.len() as int
            } else {
                vstd::math::max(self.ctz_size as int, self.pos as int)
            }),
    {
        if self.inline && self.dirty {
            self.inline_buffer.len() as i64
        } else if self.ctz_size > self.pos {
            self.ctz_size as i64
        } else {
            self.pos as i64
        }
    }

    /// Seek to position. The new position is clamped to [0, size]; a CTZ file forgets
    /// its current block.
    pub fn seek(&mut self, off: i64, whence: SeekWhence) -> (r: Result<i64, Error>)
        requires
            old(self).pos <= 0xffff_ffff,
            old(self).ctz_size <= 0xffff_ffff,
            old(self).inline_buffer@.len() <= 0xffff_ffff,
        ensures
            ({
                let size = old(self).read_size() as int;
                let base = match whence {
                    SeekWhence::Start => 0int,
                    SeekWhence::Cur => old(self).pos as int,
                    SeekWhence::End => size,
                };
                let want = base + off;
                let p = if want < 0 { 0 } else if want > size { size } else { want };
                &&& r == Ok::<i64, Error>(p as i64)
                &&& final(self).pos == p
            }),
            *final(self) == (File { pos: final(self).pos, block: final(self).block, ..*old(self) }),
            old(self).inline ==> final(self).block == old(self).block,
            !old(self).inline ==> final(self).block == BLOCK_NULL,
    {
        let size = self.size_for_read();
        let base: i128 = match whence {
            SeekWhence::Start => 0,
            SeekWhence::Cur => self.pos as i128,
            SeekWhence::End => size as i128,
        };
        let want = base + off as i128;
        let p: u64 = if want < 0 { 0 } else if want > size as i128 { size } else { want as u64 };
        self.pos = p;
        if !self.inline {
            self.block = BLOCK_NULL;
        }
        Ok(p as i64)
    }

    /// Seek to start of file.
    pub fn rewind(&mut self) -> (r: Result<(), Error>)
        requires
            old(self).pos <= 0xffff_ffff,
            old(self).ctz_size <= 0xffff_ffff,
            old(self).inline_buffer@.len() <= 0xffff_ffff,
        ensures
            r is Ok,
            final(self).pos == 0,
            *final(self) == (File { pos: final(self).pos, block: final(self).block, ..*old(self) }),
    {
        self.seek(0, SeekWhence::Start)?;
        Ok(())
    }

    /// Close file. Syncs if dirty.
    pub fn close<B: BlockDevice>(
        self,
        ctx: &mut BdContext<B>,
        root: &mut [u32; 2],
        lookahead: &mut Lookahead,
        name_max: u32,
        gstate: &GState,
        gdisk: &mut GState,
        gdelta: &mut GState,
    ) -> (r: Result<(), Error>)
        requires
            old(ctx).wf(),
            old(ctx).config.prog_size >= 4,
            self.wf(&old(ctx).config),
            old(lookahead).wf(&old(ctx).config),
        ensures
            final(ctx).wf(),
            final(ctx).config == old(ctx).config,
            final(lookahead).wf(&final(ctx).config),
            !self.dirty ==> r is Ok && *final(ctx) == *old(ctx) && *final(root) == *old(root),
            (self.dirty && r is Ok) ==> final(ctx).pcache.block == BLOCK_NULL,
            (r is Ok && self.dirty && final(lookahead).ckpoint == old(lookahead).ckpoint && old(ctx).bd.reliable()) ==> exists|
                k: int,
            |
                0 <= k < 2 && #[trigger] holds_file_struct(
                    &*final(ctx),
                    self.mdir.pair[k],
                    self.id,
                    self.inline,
                    self.inline_buffer@,
                    self.ctz_head,
                    self.ctz_size,
                ),
    {
        let mut f = self;
        if f.dirty {
            f.sync(ctx, root, lookahead, name_max, gstate, gdisk, gdelta)?;
        }
        Ok(())
    }
}

} // verus!
