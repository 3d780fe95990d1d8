//! File and filesystem info types.
use vstd::prelude::*;
use vstd::string::StringSliceAdditionalSpecFns;

verus! {

/// Open flags for file_open.
#[derive(Debug, Clone, Copy, PartialEq, Eq, Structural)]
pub struct OpenFlags(pub u32);

impl OpenFlags {
    /// Open a file as read only.
    pub const RDONLY: u32 = 1;
    /// Open a file as write only.
    pub const WRONLY: u32 = 2;
    /// Open a file as read and write.
    pub const RDWR: u32 = 3;
    /// Create a file if it does not exist.
    pub const CREAT: u32 = 0x0100;
    /// Fail if a file already exists.
    pub const EXCL: u32 = 0x0200;
    /// Truncate the existing file to zero size.
    pub const TRUNC: u32 = 0x0400;
    /// Move to end of file on every write.
    pub const APPEND: u32 = 0x0800;

    pub fn new(flags: u32) -> (r: Self)
        ensures
            r.0 == flags,
    {
        Self(flags)
    }

    /// True if any bit of `flag` is set.
    pub fn contains(&self, flag: u32) -> (r: bool)
        ensures
            r == ((self.0 & flag) != 0),
    {
        (self.0 & flag) != 0
    }

    /// True if the access mode allows writing (write only or read-write).
    pub open spec fn spec_can_write(self) -> bool {
        (self.0 & 3) == 2 || (self.0 & 3) == 3
    }

    /// True if the access mode allows writing (write only or read-write).
    pub fn can_write(&self) -> (r: bool)
        ensures
            r == self.spec_can_write(),
    {
        (self.0 & 3) == 2 || (self.0 & 3) == 3
    }
}

/// Seek whence.
#[derive(Debug, Clone, Copy, PartialEq, Eq, Structural)]
pub enum SeekWhence {
    /// From start of file (LFS_SEEK_SET)
    Start,
    /// From current position
    Cur,
    /// From end of file
    End,
}

/// File type: regular file or directory (type3 0x001 and 0x002 of a name tag).
#[derive(Debug, Clone, Copy, PartialEq, Eq, Structural)]
pub enum FileType {
    /// Regular file
    Reg,
    /// Directory
    Dir,
}

impl FileType {
    /// The type of a name tag's type3: 0x001 is a file, 0x002 a directory.
    pub fn from_type3(type3: u32) -> (r: Option<Self>)
        ensures
            type3 == 1 ==> r == Some(FileType::Reg),
            type3 == 2 ==> r == Some(FileType::Dir),
            type3 != 1 && type3 != 2 ==> r.is_none(),
    {
        if type3 == 0x001 {
            Some(FileType::Reg)
        } else if type3 == 0x002 {
            Some(FileType::Dir)
        } else {
            None
        }
    }
}

/// The name bytes of a 256-byte NUL-terminated name buffer: up to the first NUL.
pub open spec fn name_prefix(buf: Seq<u8>) -> Seq<u8> {
    let n = first_nul(buf, 0);
    buf.subrange(0, n)
}

/// Index of the first NUL at or after `i`, or the length when there is none.
pub open spec fn first_nul(buf: Seq<u8>, i: int) -> int
    decreases buf.len() - i,
{
    if i >= buf.len() || i < 0 {
        buf.len() as int
    } else if buf[i] == 0 {
        i
    } else {
        first_nul(buf, i + 1)
    }
}

proof fn lemma_first_nul_bounds(buf: Seq<u8>, i: int)
    requires
        0 <= i <= buf.len(),
    ensures
        i <= first_nul(buf, i) <= buf.len(),
        forall|j: int| i <= j < first_nul(buf, i) ==> buf[j] != 0,
    decreases buf.len() - i,
{
    if i < buf.len() && buf[i] != 0 {
        lemma_first_nul_bounds(buf, i + 1);
    }
}

/// The name prefix of a buffer is no longer than the buffer.
pub proof fn lemma_name_prefix_len(buf: Seq<u8>)
    ensures
        name_prefix(buf).len() <= buf.len(),
        name_prefix(buf.subrange(0, if buf.len() < 255 { buf.len() as int } else { 255 })).len() <= 255,
{
    lemma_first_nul_bounds(buf, 0);
    let s = buf.subrange(0, if buf.len() < 255 { buf.len() as int } else { 255 });
    lemma_first_nul_bounds(s, 0);
}

/// File or directory info.
#[derive(Clone, Debug)]
pub struct Info {
    /// Type of the file (Reg or Dir).
    pub typ: FileType,
    /// Size in bytes. Only valid for Reg files.
    pub size: u32,
    /// Name, NUL-terminated. LFS_NAME_MAX+1 = 256 bytes.
    pub name: [u8; 256],
}

impl Info {
    /// The name as held: the bytes before the first NUL.
    pub open spec fn name_view(&self) -> Seq<u8> {
        name_prefix(self.name@)
    }

    pub fn new(typ: FileType, size: u32) -> (r: Self)
        ensures
            r.typ == typ,
            r.size == size,
            r.name_view() == Seq::<u8>::empty(),
    {
        let r = Self { typ, size, name: [0; 256] };
        assert(r.name@[0] == 0);
        r
    }

    /// Set name from bytes: the first 255 bytes (up to any NUL among them).
    pub fn set_name(&mut self, bytes: &[u8])
        ensures
            final(self).typ == old(self).typ,
            final(self).size == old(self).size,
            final(self).name_view() == name_prefix(
                bytes@.subrange(0, if bytes@.len() < 255 { bytes@.len() as int } else { 255 }),
            ),
    {
        let len = if bytes.len() < 255 { bytes.len() } else { 255 };
        let mut i: usize = 0;
        while i < len
            invariant
                len <= 255,
                len <= bytes@.len(),
                i <= len,
                self.name@.len() == 256,
                self.typ == old(self).typ,
                self.size == old(self).size,
                forall|j: int| 0 <= j < i ==> self.name@[j] == bytes@[j],
            decreases len - i,
        {
            self.name[i] = bytes[i];
            i = i + 1;
        }
        self.name[len] = 0;
        proof {
            let b = bytes@.subrange(0, len as int);
            let nm = self.name@;
            assert(nm.subrange(0, len as int + 1) =~= b.push(0));
            lemma_first_nul_same(nm, b, 0);
            lemma_first_nul_bounds(b, 0);
            let k = first_nul(b, 0);
            assert(nm.subrange(0, k) =~= b.subrange(0, k));
        }
    }

    /// Name as UTF-8, up to the first NUL.
    pub fn name(&self) -> (r: Result<&str, core::str::Utf8Error>)
        ensures
            r is Ok <==> vstd::utf8::valid_utf8(self.name_view()),
            r matches Ok(s) ==> s.spec_bytes() == self.name_view(),
    {
        utf8_of(self.name_bytes())
    }

    /// Name as bytes, up to the first NUL.
    pub fn name_bytes(&self) -> (r: &[u8])
        ensures
            r@ == self.name_view(),
    {
        let mut n: usize = 0;
        while n < 256 && self.name[n] != 0
            invariant
                n <= 256,
                self.name@.len() == 256,
                forall|j: int| 0 <= j < n ==> self.name@[j] != 0,
            decreases 256 - n,
        {
            n = n + 1;
        }
        proof {
            lemma_first_nul_is(self.name@, 0, n as int);
        }
        let s = self.name.as_slice();
        &s[0..n]
    }
}

/// The first NUL of a buffer whose first `b.len()` bytes are `b` followed by a NUL
/// is the first NUL of `b + [0]`.
proof fn lemma_first_nul_same(nm: Seq<u8>, b: Seq<u8>, i: int)
    requires
        0 <= i <= b.len(),
        b.len() < nm.len(),
        forall|j: int| 0 <= j < b.len() ==> nm[j] == b[j],
        nm[b.len() as int] == 0,
    ensures
        first_nul(nm, i) == first_nul(b, i),
    decreases b.len() - i,
{
    if i < b.len() && b[i] != 0 {
        lemma_first_nul_same(nm, b, i + 1);
    }
}

/// `n` is the first NUL when no earlier byte is NUL and `n` is NUL or the end.
proof fn lemma_first_nul_is(buf: Seq<u8>, i: int, n: int)
    requires
        0 <= i <= n <= buf.len(),
        forall|j: int| i <= j < n ==> buf[j] != 0,
        n == buf.len() || buf[n] == 0,
    ensures
        first_nul(buf, i) == n,
    decreases n - i,
{
    if i < n {
        lemma_first_nul_is(buf, i + 1, n);
    }
}

/// Wraps core::str::from_utf8: the bytes read as a UTF-8 string, or the decoding
/// error. Claimed, as std documents it: it fails exactly when the bytes are not valid
/// UTF-8 (vstd's `valid_utf8`), and a string it returns is made of exactly the given
/// bytes (the slice is converted without copying).
#[verifier::external_body]
pub(crate) fn utf8_of(bytes: &[u8]) -> (r: Result<&str, core::str::Utf8Error>)
    ensures
        r is Ok <==> vstd::utf8::valid_utf8(bytes@),
        r matches Ok(s) ==> s.spec_bytes() == bytes@,
{
    core::str::from_utf8(bytes)
}

/// Declares core::str::Utf8Error.
#[verifier::external_type_specification]
#[verifier::external_body]
pub struct ExUtf8Error(core::str::Utf8Error);

/// Filesystem info from superblock.
#[derive(Debug, Clone, Copy, PartialEq, Eq, Structural)]
pub struct FsInfo {
    pub disk_version: u32,
    pub block_size: u32,
    pub block_count: u32,
    pub name_max: u32,
    pub file_max: u32,
    pub attr_max: u32,
}

} // verus!
