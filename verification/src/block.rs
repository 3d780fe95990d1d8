//! Block device abstraction for littlefs: the read/prog/erase/sync callbacks of
//! lfs_config, a RAM-backed device and a power-loss simulating wrapper.
use vstd::prelude::*;
use crate::crc::{crc_seq, crc32, lemma_crc_concat};
use crate::config::Config;
use crate::error::Error;

verus! {

/// Block device interface for littlefs storage.
///
/// All operations use caller-provided buffers. Block indices and offsets follow
/// littlefs semantics: block_size units, prog_size alignment for writes.
pub trait BlockDevice {
    /// The `len` bytes that a read of `block` from offset `off` returns.
    spec fn spec_read(&self, block: u32, off: int, len: nat) -> Seq<u8>;

    /// Reads are consistent: reading `n` bytes is reading the first `k` and then the
    /// remaining `n - k`.
    proof fn lemma_spec_read_split(&self, block: u32, off: int, n: nat, k: nat)
        requires
            k <= n,
        ensures
            self.spec_read(block, off, n) == self.spec_read(block, off, k) + self.spec_read(
                block,
                off + k,
                (n - k) as nat,
            ),
    ;

    /// A read of `len` bytes returns `len` bytes.
    proof fn lemma_spec_read_len(&self, block: u32, off: int, len: nat)
        ensures
            self.spec_read(block, off, len).len() == len,
    ;

    /// Read data from a block into the whole of `buffer`.
    fn read(&self, block: u32, off: u32, buffer: &mut [u8]) -> (r: Result<(), Error>)
        ensures
            final(buffer)@.len() == old(buffer)@.len(),
            r is Ok ==> final(buffer)@ == self.spec_read(block, off as int, old(buffer)@.len()),
    ;

    /// True if a program that succeeds stores its data: reads of the programmed range
    /// then return the data, and the rest of the block keeps its contents.
    spec fn reliable(&self) -> bool;

    /// Program data to a block. Block must be erased first. Data length must be a
    /// multiple of prog_size. Other blocks keep their contents; on a reliable device a
    /// success stores the data in place.
    fn prog(&mut self, block: u32, off: u32, data: &[u8]) -> (r: Result<(), Error>)
        ensures
            final(self).reliable() == old(self).reliable(),
            forall|b: u32, o: int, n: nat|
                b != block ==> #[trigger] final(self).spec_read(b, o, n) == old(self).spec_read(b, o, n),
            (r is Ok && old(self).reliable()) ==> forall|o: int| #[trigger] final(self).spec_read(block, o, 1)
                == (if off <= o < off + data@.len() { seq![data@[o - off]] } else { old(self).spec_read(block, o, 1) }),
    ;

    /// Erase a block. Must be called before programming. Other blocks keep their contents.
    fn erase(&mut self, block: u32) -> (r: Result<(), Error>)
        ensures
            final(self).reliable() == old(self).reliable(),
            forall|b: u32, o: int, n: nat|
                b != block ==> #[trigger] final(self).spec_read(b, o, n) == old(self).spec_read(b, o, n),
    ;

    /// Sync any cached state to the device. What reads return is unchanged.
    fn sync(&mut self) -> (r: Result<(), Error>)
        ensures
            final(self).reliable() == old(self).reliable(),
            forall|b: u32, o: int, n: nat|
                #[trigger] final(self).spec_read(b, o, n) == old(self).spec_read(b, o, n),
    ;
}

/// Compute CRC32 of a block region, reading through a 64-byte buffer.
pub fn block_crc<B: BlockDevice>(bd: &B, block: u32, off: u32, size: usize, init: u32) -> (r: Result<u32, Error>)
    requires
        off as int + size <= u32::MAX,
    ensures
        r is Ok ==> r->Ok_0 == crc_seq(init, bd.spec_read(block, off as int, size as nat)),
        size == 0 ==> r == Ok::<u32, Error>(init),
{
    let mut c = init;
    let mut pos: usize = 0;
    proof {
        bd.lemma_spec_read_len(block, off as int, 0);
        assert(bd.spec_read(block, off as int, 0) =~= Seq::<u8>::empty());
    }
    while pos < size
        invariant
            pos <= size,
            off as int + size <= u32::MAX,
            c == crc_seq(init, bd.spec_read(block, off as int, pos as nat)),
        decreases size - pos,
    {
        let n = if size - pos < 64 { size - pos } else { 64 };
        let mut chunk: Vec<u8> = vec![0u8; n];
        bd.read(block, off + pos as u32, chunk.as_mut_slice())?;
        proof {
            lemma_crc_concat(init, bd.spec_read(block, off as int, pos as nat), chunk@);
            bd.lemma_spec_read_split(block, off as int, (pos + n) as nat, pos as nat);
        }
        c = crc32(c, chunk.as_slice());
        pos = pos + n;
    }
    Ok(c)
}

/// The bytes a RAM device returns for `len` bytes of `block` from `off`: those of the
/// block, and zero outside the block or the storage.
pub open spec fn ram_bytes(storage: Seq<u8>, block_size: u32, block: u32, off: int, len: nat) -> Seq<u8> {
    Seq::new(
        len,
        |i: int|
            if 0 <= off + i < block_size && block as int * block_size as int + off + i < storage.len() {
                storage[block as int * block_size as int + off + i]
            } else {
                0u8
            },
    )
}

/// Bytes of two different blocks never share a storage index.
proof fn lemma_blocks_disjoint(b1: u32, b2: u32, bs: u32, x: int, y: int)
    requires
        b1 != b2,
        0 <= x < bs,
        0 <= y < bs,
    ensures
        b1 as int * bs as int + x != b2 as int * bs as int + y,
{
    if b1 < b2 {
        assert(b1 as int * bs as int + bs <= b2 as int * bs as int) by (nonlinear_arith)
            requires b1 < b2, bs >= 0;
    } else {
        assert(b2 as int * bs as int + bs <= b1 as int * bs as int) by (nonlinear_arith)
            requires b2 < b1, bs >= 0;
    }
}

/// Offset of byte `off` of `block` in a RAM device's storage, if the range of `len`
/// bytes lies inside the block and inside a storage of `storage_len` bytes.
fn ram_range(block: u32, block_size: u32, off: u32, len: usize, storage_len: usize) -> (r: Option<usize>)
    ensures
        r is Some <==> (off + len <= block_size && block as int * block_size as int + off + len <= storage_len),
        r is Some ==> r->Some_0 == block as int * block_size as int + off,
{
    proof {
        assert((block as int) * (block_size as int) <= 0xffff_ffffint * 0xffff_ffffint) by (nonlinear_arith)
            requires
                block <= 0xffff_ffffu32,
                block_size <= 0xffff_ffffu32,
                block >= 0,
                block_size >= 0,
        ;
    }
    if len as u64 > block_size as u64 || off as u64 > block_size as u64 - len as u64 {
        return None;
    }
    let start: u64 = block as u64 * block_size as u64 + off as u64;
    let end: u64 = start + len as u64;
    if end > storage_len as u64 {
        return None;
    }
    Some(start as usize)
}

/// RAM-backed block device. Storage is (block_count * block_size) bytes, zeroed
/// initially. Accesses must stay inside one block and inside the storage.
pub struct RamBlockDevice {
    storage: Vec<u8>,
    block_size: u32,
    block_count: u32,
}

/// Fill `storage[start..start+n]` with `data`, or with 0xff when `data` is None.
fn store_range(storage: &mut Vec<u8>, start: usize, data: Option<&[u8]>, n: usize)
    requires
        start + n <= old(storage)@.len(),
        data is Some ==> data->Some_0@.len() == n,
    ensures
        final(storage)@.len() == old(storage)@.len(),
        forall|j: int| 0 <= j < final(storage)@.len() ==> #[trigger] final(storage)@[j] == (
            if start <= j < start + n {
                match data { Some(d) => d@[j - start], None => 0xffu8 }
            } else {
                old(storage)@[j]
            }),
{
    let _l = storage.len();
    let mut i: usize = 0;
    while i < n
        invariant
            start + n <= storage@.len(),
            storage@.len() <= usize::MAX,
            storage@.len() == old(storage)@.len(),
            data is Some ==> data->Some_0@.len() == n,
            i <= n,
            forall|j: int| 0 <= j < storage@.len() ==> #[trigger] storage@[j] == (
                if start <= j < start + i {
                    match data { Some(d) => d@[j - start], None => 0xffu8 }
                } else {
                    old(storage)@[j]
                }),
        decreases n - i,
    {
        let v = match data {
            Some(d) => d[i],
            None => 0xff,
        };
        storage.set(start + i, v);
        i = i + 1;
    }
}

impl RamBlockDevice {
    /// The bytes of the device.
    pub closed spec fn view(&self) -> Seq<u8> {
        self.storage@
    }

    /// The geometry of the device: (block_size, block_count).
    pub closed spec fn geometry(&self) -> (u32, u32) {
        (self.block_size, self.block_count)
    }

    /// Create a RAM block device of `block_count` blocks of `block_size` bytes, all zero.
    pub fn new(block_size: u32, block_count: u32) -> (r: Self)
        requires
            block_size as int * block_count as int <= usize::MAX,
        ensures
            r.geometry() == (block_size, block_count),
            r@.len() == block_size as int * block_count as int,
            forall|i: int| 0 <= i < r@.len() ==> r@[i] == 0,
    {
        let size = (block_size as usize) * (block_count as usize);
        let storage: Vec<u8> = vec![0u8; size];
        Self { storage, block_size, block_count }
    }

    /// Bytes outside the programmed block keep what they held.
    proof fn lemma_frame(&self, old_dev: &Self, block: u32)
        requires
            self.block_size == old_dev.block_size,
            self.storage@.len() == old_dev.storage@.len(),
            forall|j: int| 0 <= j < self.storage@.len() && !(block as int * self.block_size as int <= j
                < block as int * self.block_size as int + self.block_size) ==> self.storage@[j] == old_dev.storage@[j],
        ensures
            forall|b: u32, o: int, n: nat| b != block ==> #[trigger] self.spec_read(b, o, n) == old_dev.spec_read(b, o, n),
    {
        assert forall|b: u32, o: int, n: nat| b != block implies #[trigger] self.spec_read(b, o, n) == old_dev.spec_read(b, o, n) by {
            assert forall|i: int| 0 <= i < n implies #[trigger] self.spec_read(b, o, n)[i] == old_dev.spec_read(b, o, n)[i] by {
                let idx = b as int * self.block_size as int + o + i;
                if 0 <= o + i < self.block_size && block as int * self.block_size as int <= idx
                    < block as int * self.block_size as int + self.block_size {
                    let y = idx - block as int * self.block_size as int;
                    lemma_blocks_disjoint(b, block, self.block_size, o + i, y);
                }
            }
            assert(self.spec_read(b, o, n) =~= old_dev.spec_read(b, o, n));
        }
    }
}

/// Copy `buffer.len()` bytes of `storage` from `start` into `buffer`.
fn copy_out(storage: &Vec<u8>, start: usize, buffer: &mut [u8])
    requires
        start + old(buffer)@.len() <= storage@.len(),
    ensures
        final(buffer)@ == storage@.subrange(start as int, start + old(buffer)@.len()),
{
    let n = buffer.len();
    let _l = storage.len();
    let mut i: usize = 0;
    while i < n
        invariant
            n == buffer@.len(),
            start + n <= storage@.len(),
            storage@.len() <= usize::MAX,
            i <= n,
            forall|j: int| 0 <= j < i ==> buffer@[j] == storage@[start + j],
        decreases n - i,
    {
        buffer[i] = storage[start + i];
        i = i + 1;
    }
    assert(buffer@ =~= storage@.subrange(start as int, start + n));
}

impl BlockDevice for RamBlockDevice {
    closed spec fn reliable(&self) -> bool {
        true
    }

    closed spec fn spec_read(&self, block: u32, off: int, len: nat) -> Seq<u8> {
        ram_bytes(self.storage@, self.block_size, block, off, len)
    }

    proof fn lemma_spec_read_split(&self, block: u32, off: int, n: nat, k: nat) {
        let a = ram_bytes(self.storage@, self.block_size, block, off, n);
        let b = ram_bytes(self.storage@, self.block_size, block, off, k) + ram_bytes(self.storage@, self.block_size, block, off + k, (n - k) as nat);
        assert(a =~= b);
    }

    proof fn lemma_spec_read_len(&self, block: u32, off: int, len: nat) {
    }

    fn read(&self, block: u32, off: u32, buffer: &mut [u8]) -> (r: Result<(), Error>)
        ensures
            r is Err <==> (block >= self.geometry().1 || off + old(buffer)@.len() > self.geometry().0
                || block as int * self.geometry().0 as int + off + old(buffer)@.len() > self@.len()),
    {
        if block >= self.block_count {
            return Err(Error::Inval);
        }
        match ram_range(block, self.block_size, off, buffer.len(), self.storage.len()) {
            None => Err(Error::Inval),
            Some(start) => {
                copy_out(&self.storage, start, buffer);
                assert(buffer@ =~= ram_bytes(self.storage@, self.block_size, block, off as int, old(buffer)@.len()));
                Ok(())
            },
        }
    }

    fn prog(&mut self, block: u32, off: u32, data: &[u8]) -> (r: Result<(), Error>)
        ensures
            r is Err <==> (block >= old(self).geometry().1 || off + data@.len() > old(self).geometry().0
                || block as int * old(self).geometry().0 as int + off + data@.len() > old(self)@.len()),
            final(self).geometry() == old(self).geometry(),
            r is Ok ==> final(self)@ == old(self)@.subrange(0, block as int * old(self).geometry().0 as int + off)
                + data@ + old(self)@.subrange(block as int * old(self).geometry().0 as int + off + data@.len(), old(self)@.len() as int),
            r is Ok ==> final(self).spec_read(block, off as int, data@.len()) == data@,
            r is Err ==> final(self)@ == old(self)@,
    {
        if block >= self.block_count {
            return Err(Error::Inval);
        }
        match ram_range(block, self.block_size, off, data.len(), self.storage.len()) {
            None => Err(Error::Inval),
            Some(start) => {
                let n = data.len();
                store_range(&mut self.storage, start, Some(data), n);
                proof {
                    let nv = old(self)@.subrange(0, start as int) + data@ + old(self)@.subrange(start + n, old(self)@.len() as int);
                    assert(self.storage@ =~= nv);
                    assert(off + n <= self.block_size);
                    self.lemma_frame(old(self), block);
                    assert(self.spec_read(block, off as int, data@.len()) =~= data@);
                    assert forall|o: int| #[trigger] self.spec_read(block, o, 1)
                        == (if off <= o < off + data@.len() { seq![data@[o - off]] } else { old(self).spec_read(block, o, 1) }) by {
                        if off <= o < off + data@.len() {
                            assert(self.spec_read(block, o, 1) =~= seq![data@[o - off]]);
                        } else {
                            assert(self.spec_read(block, o, 1) =~= old(self).spec_read(block, o, 1));
                        }
                    }
                }
                Ok(())
            },
        }
    }

    fn erase(&mut self, block: u32) -> (r: Result<(), Error>)
        ensures
            r is Err <==> (block >= old(self).geometry().1 || block as int * old(self).geometry().0 as int
                + old(self).geometry().0 > old(self)@.len()),
            final(self).geometry() == old(self).geometry(),
            r is Ok ==> forall|i: int| 0 <= i < final(self).geometry().0 ==> #[trigger] final(self).spec_read(block, 0, final(self).geometry().0 as nat)[i] == 0xff,
            r is Err ==> final(self)@ == old(self)@,
    {
        if block >= self.block_count {
            return Err(Error::Inval);
        }
        let bs = self.block_size;
        match ram_range(block, bs, 0, bs as usize, self.storage.len()) {
            None => Err(Error::Inval),
            Some(start) => {
                store_range(&mut self.storage, start, None, bs as usize);
                proof {
                    self.lemma_frame(old(self), block);
                }
                Ok(())
            },
        }
    }

    fn sync(&mut self) -> (r: Result<(), Error>)
        ensures
            r is Ok,
            final(self)@ == old(self)@,
    {
        Ok(())
    }
}

/// Reading back what was programmed into a RAM device gives the programmed data.
pub proof fn lemma_ram_read_after_prog(dev: &RamBlockDevice, block: u32, off: u32, data: Seq<u8>)
    requires
        off + data.len() <= dev.geometry().0,
        block < dev.geometry().1,
        block as int * dev.geometry().0 as int + off + data.len() <= dev@.len(),
    ensures
        ({
            let start = block as int * dev.geometry().0 as int + off;
            let nv = dev@.subrange(0, start) + data + dev@.subrange(start + data.len(), dev@.len() as int);
            ram_bytes(nv, dev.geometry().0, block, off as int, data.len()) == data
        }),
{
    let start = block as int * dev.geometry().0 as int + off;
    let nv = dev@.subrange(0, start) + data + dev@.subrange(start + data.len(), dev@.len() as int);
    assert(ram_bytes(nv, dev.geometry().0, block, off as int, data.len()) =~= data);
}

/// Storage shared by two filesystem implementations in alignment checks: a RAM device
/// sized by a configuration, which can be reset to the erased state.
pub struct AlignStorage {
    ram: RamBlockDevice,
}

impl AlignStorage {
    /// The bytes of the storage.
    pub closed spec fn view(&self) -> Seq<u8> {
        self.ram@
    }

    /// The geometry of the storage: (block_size, block_count).
    pub closed spec fn geometry(&self) -> (u32, u32) {
        self.ram.geometry()
    }

    /// Storage of the configuration's geometry, all zero.
    pub fn new(config: &Config) -> (r: Self)
        requires
            config.block_size as int * config.block_count as int <= usize::MAX,
        ensures
            r.geometry() == (config.block_size, config.block_count),
            r@.len() == config.block_size as int * config.block_count as int,
            forall|i: int| 0 <= i < r@.len() ==> r@[i] == 0,
    {
        Self { ram: RamBlockDevice::new(config.block_size, config.block_count) }
    }

    /// Reset every byte to the erased value 0xff.
    pub fn erase_all(&mut self)
        ensures
            final(self).geometry() == old(self).geometry(),
            final(self)@.len() == old(self)@.len(),
            forall|i: int| 0 <= i < final(self)@.len() ==> #[trigger] final(self)@[i] == 0xff,
    {
        let n = self.ram.storage.len();
        store_range(&mut self.ram.storage, 0, None, n);
    }
}

impl BlockDevice for AlignStorage {
    closed spec fn reliable(&self) -> bool {
        true
    }

    closed spec fn spec_read(&self, block: u32, off: int, len: nat) -> Seq<u8> {
        self.ram.spec_read(block, off, len)
    }

    proof fn lemma_spec_read_split(&self, block: u32, off: int, n: nat, k: nat) {
        self.ram.lemma_spec_read_split(block, off, n, k);
    }

    proof fn lemma_spec_read_len(&self, block: u32, off: int, len: nat) {
        self.ram.lemma_spec_read_len(block, off, len);
    }

    fn read(&self, block: u32, off: u32, buffer: &mut [u8]) -> (r: Result<(), Error>)
        ensures
            r is Err <==> (block >= self.geometry().1 || off + old(buffer)@.len() > self.geometry().0
                || block as int * self.geometry().0 as int + off + old(buffer)@.len() > self@.len()),
    {
        self.ram.read(block, off, buffer)
    }

    fn prog(&mut self, block: u32, off: u32, data: &[u8]) -> (r: Result<(), Error>)
        ensures
            r is Err <==> (block >= old(self).geometry().1 || off + data@.len() > old(self).geometry().0
                || block as int * old(self).geometry().0 as int + off + data@.len() > old(self)@.len()),
            final(self).geometry() == old(self).geometry(),
            r is Ok ==> final(self).spec_read(block, off as int, data@.len()) == data@,
            r is Err ==> final(self)@ == old(self)@,
    {
        self.ram.prog(block, off, data)
    }

    fn erase(&mut self, block: u32) -> (r: Result<(), Error>)
        ensures
            r is Err <==> (block >= old(self).geometry().1 || block as int * old(self).geometry().0 as int
                + old(self).geometry().0 > old(self)@.len()),
            final(self).geometry() == old(self).geometry(),
            r is Ok ==> forall|i: int| 0 <= i < final(self).geometry().0 ==> #[trigger] final(self).spec_read(block, 0, final(self).geometry().0 as nat)[i] == 0xff,
            r is Err ==> final(self)@ == old(self)@,
    {
        self.ram.erase(block)
    }

    fn sync(&mut self) -> (r: Result<(), Error>)
        ensures
            r is Ok,
            final(self)@ == old(self)@,
    {
        Ok(())
    }
}

/// Block device wrapper that can simulate power loss: the next `sync()` can be made
/// to fail, and `prog()` can be made to discard its writes.
pub struct PowerLossBlockDevice<B: BlockDevice> {
    inner: B,
    fail_before_sync: bool,
    drop_prog: bool,
}

impl<B: BlockDevice> PowerLossBlockDevice<B> {
    /// The flags: (fail the next sync, discard progs).
    pub closed spec fn flags(&self) -> (bool, bool) {
        (self.fail_before_sync, self.drop_prog)
    }

    /// The wrapped device.
    pub closed spec fn spec_inner(&self) -> B {
        self.inner
    }

    pub fn new(inner: B) -> (r: Self)
        ensures
            r.flags() == (false, false),
            r.spec_inner() == inner,
    {
        Self { inner, fail_before_sync: false, drop_prog: false }
    }

    /// Cause the next sync() to return Error::Io.
    pub fn set_fail_before_sync(&mut self, fail: bool)
        ensures
            final(self).flags() == (fail, old(self).flags().1),
            final(self).spec_inner() == old(self).spec_inner(),
    {
        self.fail_before_sync = fail;
    }

    /// When true, prog() is a no-op (writes are discarded).
    pub fn set_drop_prog(&mut self, drop: bool)
        ensures
            final(self).flags() == (old(self).flags().0, drop),
            final(self).spec_inner() == old(self).spec_inner(),
    {
        self.drop_prog = drop;
    }

    /// Access the inner block device for raw operations (e.g. corruption).
    pub fn inner(&self) -> (r: &B)
        ensures
            *r == self.spec_inner(),
    {
        &self.inner
    }
}

impl<B: BlockDevice> BlockDevice for PowerLossBlockDevice<B> {
    closed spec fn reliable(&self) -> bool {
        !self.drop_prog && self.inner.reliable()
    }

    closed spec fn spec_read(&self, block: u32, off: int, len: nat) -> Seq<u8> {
        self.inner.spec_read(block, off, len)
    }

    proof fn lemma_spec_read_split(&self, block: u32, off: int, n: nat, k: nat) {
        self.inner.lemma_spec_read_split(block, off, n, k);
    }

    proof fn lemma_spec_read_len(&self, block: u32, off: int, len: nat) {
        self.inner.lemma_spec_read_len(block, off, len);
    }

    fn read(&self, block: u32, off: u32, buffer: &mut [u8]) -> (r: Result<(), Error>) {
        self.inner.read(block, off, buffer)
    }

    fn prog(&mut self, block: u32, off: u32, data: &[u8]) -> (r: Result<(), Error>)
        ensures
            old(self).flags().1 ==> r is Ok && final(self).spec_inner() == old(self).spec_inner(),
            final(self).flags() == old(self).flags(),
    {
        if self.drop_prog {
            return Ok(());
        }
        self.inner.prog(block, off, data)
    }

    fn erase(&mut self, block: u32) -> (r: Result<(), Error>)
        ensures
            final(self).flags() == old(self).flags(),
    {
        self.inner.erase(block)
    }

    fn sync(&mut self) -> (r: Result<(), Error>)
        ensures
            old(self).flags().0 ==> r == Err::<(), Error>(Error::Io) && final(self).flags() == (false, old(self).flags().1),
            !old(self).flags().0 ==> final(self).flags() == old(self).flags(),
    {
        if self.fail_before_sync {
            self.fail_before_sync = false;
            return Err(Error::Io);
        }
        self.inner.sync()
    }
}

} // verus!
