//! Metadata tags: 32-bit words `[valid:1][type:11][id:10][size:10]` that
//! head every entry of a metadata log.
use vstd::prelude::*;

verus! {

/// Abstract type of names (`type1`).
pub const TYPE_NAME: u32 = 0x000;
/// Regular file name.
pub const TYPE_REG: u32 = 0x001;
/// Directory name.
pub const TYPE_DIR: u32 = 0x002;
/// Superblock name (the magic string).
pub const TYPE_SUPERBLOCK: u32 = 0x0ff;
/// Abstract type of structs (`type1`).
pub const TYPE_STRUCT: u32 = 0x200;
/// Metadata pair of a directory.
pub const TYPE_DIRSTRUCT: u32 = 0x200;
/// Inline file data.
pub const TYPE_INLINESTRUCT: u32 = 0x201;
/// Head and size of a CTZ skip-list.
pub const TYPE_CTZSTRUCT: u32 = 0x202;
/// User attributes.
pub const TYPE_USERATTR: u32 = 0x300;
/// Abstract type of id splices (`type1`).
pub const TYPE_SPLICE: u32 = 0x400;
/// Creates an id.
pub const TYPE_CREATE: u32 = 0x401;
/// Deletes an id.
pub const TYPE_DELETE: u32 = 0x4ff;
/// Abstract type of commit CRCs (`type1`).
pub const TYPE_CRC: u32 = 0x500;
/// Commit CRC.
pub const TYPE_CCRC: u32 = 0x500;
/// Forward CRC of the erased space after a commit.
pub const TYPE_FCRC: u32 = 0x5ff;
/// Abstract type of tails (`type1`).
pub const TYPE_TAIL: u32 = 0x600;
/// Tail to the next pair of the metadata list.
pub const TYPE_SOFTTAIL: u32 = 0x600;
/// Tail to the next pair of the same directory.
pub const TYPE_HARDTAIL: u32 = 0x601;
/// Abstract type of global state (`type1`).
pub const TYPE_GLOBALS: u32 = 0x700;
/// Delta of the global move/orphan state.
pub const TYPE_MOVESTATE: u32 = 0x7ff;
/// Attribute source that writes nothing.
pub const FROM_NOOP: u32 = 0x000;

/// Build a tag from its type, id and size fields.
pub fn lfs_mktag(type_: u32, id: u32, size: u32) -> (r: u32)
    ensures
        r == (type_ << 20u32) | (id << 10u32) | size,
{
    (type_ << 20u32) | (id << 10u32) | size
}

/// The tag when `cond` holds, else a no-op tag.
pub fn lfs_mktag_if(cond: bool, type_: u32, id: u32, size: u32) -> (r: u32)
    ensures
        r == (if cond {
            (type_ << 20u32) | (id << 10u32) | size
        } else {
            (FROM_NOOP << 20u32) | (0u32 << 10u32) | 0u32
        }),
{
    if cond {
        lfs_mktag(type_, id, size)
    } else {
        lfs_mktag(FROM_NOOP, 0, 0)
    }
}

/// The top bit is clear.
pub fn lfs_tag_isvalid(tag: u32) -> (r: bool)
    ensures
        r == ((tag & 0x8000_0000) == 0),
{
    (tag & 0x8000_0000) == 0
}

/// The size field holds all ones (-1 in ten bits).
pub fn lfs_tag_isdelete(tag: u32) -> (r: bool)
    ensures
        r == ((tag & 0x3ff) == 0x3ff),
{
    (tag & 0x3ff) == 0x3ff
}

/// The three top type bits.
pub fn lfs_tag_type1(tag: u32) -> (r: u16)
    ensures
        r == ((tag & 0x7000_0000) >> 20u32),
{
    proof {
        lemma_tag_field_ranges(tag);
    }
    ((tag & 0x7000_0000) >> 20u32) as u16
}

/// The four top type bits.
pub fn lfs_tag_type2(tag: u32) -> (r: u16)
    ensures
        r == ((tag & 0x7800_0000) >> 20u32),
{
    proof {
        lemma_tag_field_ranges(tag);
    }
    ((tag & 0x7800_0000) >> 20u32) as u16
}

/// All eleven type bits.
pub fn lfs_tag_type3(tag: u32) -> (r: u16)
    ensures
        r == ((tag & 0x7ff0_0000) >> 20u32),
{
    proof {
        lemma_tag_field_ranges(tag);
    }
    ((tag & 0x7ff0_0000) >> 20u32) as u16
}

/// The low eight type bits.
pub fn lfs_tag_chunk(tag: u32) -> (r: u8)
    ensures
        r == ((tag & 0x0ff0_0000) >> 20u32),
{
    proof {
        lemma_tag_field_ranges(tag);
    }
    ((tag & 0x0ff0_0000) >> 20u32) as u8
}

/// The chunk read as a signed id shift.
pub fn lfs_tag_splice(tag: u32) -> (r: i8)
    ensures
        r == (((tag & 0x0ff0_0000) >> 20u32) as u8) as i8,
{
    lfs_tag_chunk(tag) as i8
}

/// The ten id bits.
pub fn lfs_tag_id(tag: u32) -> (r: u16)
    ensures
        r == ((tag & 0x000f_fc00) >> 10u32),
{
    proof {
        lemma_tag_field_ranges(tag);
    }
    ((tag & 0x000f_fc00) >> 10u32) as u16
}

/// The ten size bits.
pub fn lfs_tag_size(tag: u32) -> (r: u32)
    ensures
        r == tag & 0x3ff,
{
    tag & 0x0000_03ff
}

/// Bytes a tag takes on disk: the tag itself plus its data, none for a delete.
pub open spec fn tag_dsize_spec(tag: u32) -> nat {
    4 + (if (tag & 0x3ff) == 0x3ff { 0 } else { (tag & 0x3ff) as nat })
}

/// Four bytes of tag plus the data size (none for a delete).
pub fn lfs_tag_dsize(tag: u32) -> (r: u32)
    ensures
        r == tag_dsize_spec(tag),
        4 <= r <= 4 + 0x3fe,
{
    proof {
        lemma_tag_field_ranges(tag);
    }
    if lfs_tag_isdelete(tag) {
        4
    } else {
        4 + lfs_tag_size(tag)
    }
}

/// Every field that the accessors extract fits the width of its result.
pub proof fn lemma_tag_field_ranges(tag: u32)
    ensures
        (tag & 0x7000_0000) >> 20u32 <= 0x700,
        (tag & 0x7800_0000) >> 20u32 <= 0x780,
        (tag & 0x7ff0_0000) >> 20u32 <= 0x7ff,
        (tag & 0x0ff0_0000) >> 20u32 <= 0xff,
        (tag & 0x000f_fc00) >> 10u32 <= 0x3ff,
        tag & 0x3ff <= 0x3ff,
{
    assert(((tag & 0x7000_0000) >> 20u32 <= 0x700) && ((tag & 0x7800_0000) >> 20u32 <= 0x780) && ((
    tag & 0x7ff0_0000) >> 20u32 <= 0x7ff) && ((tag & 0x0ff0_0000) >> 20u32 <= 0xff) && ((tag
        & 0x000f_fc00) >> 10u32 <= 0x3ff) && (tag & 0x3ff <= 0x3ff)) by (bit_vector);
}

/// The fields that `lfs_mktag` packs are the fields that the accessors read back:
/// type, id and size round-trip, and a type below 0x800 gives a valid tag.
pub proof fn lemma_mktag_fields(type_: u32, id: u32, size: u32)
    requires
        type_ < 0x1000,
        id < 0x400,
        size < 0x400,
    ensures
        ({
            let t = (type_ << 20u32) | (id << 10u32) | size;
            &&& (t & 0x7ff0_0000) >> 20u32 == type_ & 0x7ff
            &&& (t & 0x7000_0000) >> 20u32 == type_ & 0x700
            &&& (t & 0x000f_fc00) >> 10u32 == id
            &&& t & 0x3ff == size
            &&& ((t & 0x8000_0000) == 0) == (type_ < 0x800)
        }),
{
    assert({
        let t = (type_ << 20u32) | (id << 10u32) | size;
        &&& (t & 0x7ff0_0000) >> 20u32 == type_ & 0x7ff
        &&& (t & 0x7000_0000) >> 20u32 == type_ & 0x700
        &&& (t & 0x000f_fc00) >> 10u32 == id
        &&& t & 0x3ff == size
        &&& ((t & 0x8000_0000) == 0) == (type_ < 0x800)
    }) by (bit_vector)
        requires
            type_ < 0x1000,
            id < 0x400,
            size < 0x400,
    ;
}

/// An attribute to commit: its tag and its data.
pub struct LfsMattr {
    pub tag: u32,
    pub buffer: Vec<u8>,
}

/// A place on disk: a block and an offset in it.
pub struct LfsDiskoff {
    pub block: u32,
    pub off: u32,
}

} // verus!
