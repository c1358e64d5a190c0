//! The block device: a fixed-size image read and written in 1 KiB blocks.

use vstd::prelude::*;

verus! {

/// Size of the image in bytes.
pub const DISK_SIZE: u32 = 128 * 1024 * 1024;

/// Size of a block in bytes.
pub const BLOCK_SIZE: u32 = 1024;

/// Number of blocks in the image.
pub const BLOCK_COUNT: u32 = DISK_SIZE / BLOCK_SIZE;

#[derive(Debug, Clone, Copy, PartialEq, Eq, Structural)]
pub enum DiskError {
    /// A block address at or beyond `BLOCK_COUNT`.
    InvalidAddr,
    /// The host could not read or write the image.
    IoErr,
}

/// The image, held in memory.
pub struct Disk {
    data: Vec<u8>,
}

/// The blocks that a flat image of `DISK_SIZE` bytes is divided into.
pub open spec fn blocks_of(bytes: Seq<u8>) -> Seq<Seq<u8>> {
    Seq::new(
        BLOCK_COUNT as nat,
        |i: int| bytes.subrange(i * BLOCK_SIZE as int, i * BLOCK_SIZE as int + BLOCK_SIZE as int),
    )
}

/// A block of zeros.
pub open spec fn zero_block() -> Seq<u8> {
    Seq::new(BLOCK_SIZE as nat, |i: int| 0u8)
}

/// The blocks at `addrs`, one after the other.
pub open spec fn spec_read_blocks(d: Seq<Seq<u8>>, addrs: Seq<u32>) -> Seq<u8>
    decreases addrs.len(),
{
    if addrs.len() == 0 {
        Seq::empty()
    } else {
        spec_read_blocks(d, addrs.drop_last()) + d[addrs.last() as int]
    }
}

/// What a block holds after `buf` is written to it: the first 1024 bytes of
/// `buf`, or all of `buf`, one NUL, and what the block held behind that.
pub open spec fn block_image(before: Seq<u8>, buf: Seq<u8>) -> Seq<u8> {
    if buf.len() >= BLOCK_SIZE {
        buf.subrange(0, BLOCK_SIZE as int)
    } else {
        buf + seq![0u8] + before.subrange(buf.len() as int + 1, BLOCK_SIZE as int)
    }
}

/// The blocks after the writes `ws` were applied in order.
pub open spec fn spec_write_blocks(d: Seq<Seq<u8>>, ws: Seq<(u32, Seq<u8>)>) -> Seq<Seq<u8>>
    decreases ws.len(),
{
    if ws.len() == 0 {
        d
    } else {
        let prev = spec_write_blocks(d, ws.drop_last());
        let (addr, buf) = ws.last();
        prev.update(addr as int, block_image(prev[addr as int], buf))
    }
}

/// Whether every address of `addrs` names a block of the image.
pub open spec fn addrs_valid(addrs: Seq<u32>) -> bool {
    forall|i: int| 0 <= i < addrs.len() ==> addrs[i] < BLOCK_COUNT
}

/// Whether every write of `ws` goes to a block of the image.
pub open spec fn writes_valid(ws: Seq<(u32, Seq<u8>)>) -> bool {
    forall|i: int| 0 <= i < ws.len() ==> (#[trigger] ws[i]).0 < BLOCK_COUNT
}

/// Whether `d` has the shape of an image: `BLOCK_COUNT` blocks of
/// `BLOCK_SIZE` bytes.
pub open spec fn blocks_wf(d: Seq<Seq<u8>>) -> bool {
    &&& d.len() == BLOCK_COUNT
    &&& forall|i: int| 0 <= i < BLOCK_COUNT ==> (#[trigger] d[i]).len() == BLOCK_SIZE
}

/// Reading `n` blocks gives `n * 1024` bytes, and byte `k` of them is byte
/// `k % 1024` of block number `k / 1024` of those read.
pub proof fn lemma_read_blocks(d: Seq<Seq<u8>>, addrs: Seq<u32>)
    requires
        blocks_wf(d),
        addrs_valid(addrs),
    ensures
        spec_read_blocks(d, addrs).len() == addrs.len() * BLOCK_SIZE,
        forall|k: int|
            0 <= k < addrs.len() * BLOCK_SIZE ==> #[trigger] spec_read_blocks(d, addrs)[k]
                == d[addrs[k / BLOCK_SIZE as int] as int][k % BLOCK_SIZE as int],
    decreases addrs.len(),
{
    if addrs.len() > 0 {
        lemma_read_blocks(d, addrs.drop_last());
    }
}

/// Writing keeps the shape of the image.
pub proof fn lemma_write_blocks_wf(d: Seq<Seq<u8>>, ws: Seq<(u32, Seq<u8>)>)
    requires
        blocks_wf(d),
        writes_valid(ws),
    ensures
        blocks_wf(spec_write_blocks(d, ws)),
    decreases ws.len(),
{
    if ws.len() > 0 {
        lemma_write_blocks_wf(d, ws.drop_last());
    }
}

/// A block that no write of `ws` goes to is left as it was.
pub proof fn lemma_write_blocks_frame(d: Seq<Seq<u8>>, ws: Seq<(u32, Seq<u8>)>, a: int)
    requires
        blocks_wf(d),
        writes_valid(ws),
        0 <= a < BLOCK_COUNT,
        forall|i: int| 0 <= i < ws.len() ==> (#[trigger] ws[i]).0 != a,
    ensures
        spec_write_blocks(d, ws)[a] == d[a],
    decreases ws.len(),
{
    if ws.len() > 0 {
        let prev = ws.drop_last();
        assert forall|i: int| 0 <= i < prev.len() implies (#[trigger] prev[i]).0 != a by {
            assert(prev[i] == ws[i]);
        }
        lemma_write_blocks_wf(d, prev);
        lemma_write_blocks_frame(d, prev, a);
    }
}

/// Where the addresses of `ws` are pairwise distinct, each written block
/// ends as the image of its own write over what the block held at first.
pub proof fn lemma_write_blocks_distinct(d: Seq<Seq<u8>>, ws: Seq<(u32, Seq<u8>)>, k: int)
    requires
        blocks_wf(d),
        writes_valid(ws),
        0 <= k < ws.len(),
        forall|i: int, j: int| 0 <= i < j < ws.len() ==> (#[trigger] ws[i]).0 != (#[trigger] ws[j]).0,
    ensures
        spec_write_blocks(d, ws)[ws[k].0 as int] == block_image(d[ws[k].0 as int], ws[k].1),
    decreases ws.len(),
{
    let prev = ws.drop_last();
    lemma_write_blocks_wf(d, prev);
    if k == ws.len() - 1 {
        lemma_write_blocks_frame(d, prev, ws[k].0 as int);
    } else {
        lemma_write_blocks_distinct(d, prev, k);
    }
}

/// A write of a whole block leaves exactly what was written.
pub proof fn lemma_block_image_full(before: Seq<u8>, buf: Seq<u8>)
    requires
        buf.len() == BLOCK_SIZE,
    ensures
        block_image(before, buf) == buf,
{
    assert(buf.subrange(0, BLOCK_SIZE as int) =~= buf);
}

impl View for Disk {
    type V = Seq<Seq<u8>>;

    closed spec fn view(&self) -> Seq<Seq<u8>> {
        blocks_of(self.data@)
    }
}

impl Disk {
    /// The image has its full size.
    pub closed spec fn inv(&self) -> bool {
        self.data@.len() == DISK_SIZE
    }

    /// The image has its full size, and so `BLOCK_COUNT` blocks of
    /// `BLOCK_SIZE` bytes each.
    pub open spec fn wf(&self) -> bool {
        &&& self.inv()
        &&& blocks_wf(self@)
    }

    /// The image as one run of bytes.
    pub closed spec fn bytes(&self) -> Seq<u8> {
        self.data@
    }

    /// The first byte of the first block is the first byte of the image.
    pub proof fn lemma_first_byte(&self)
        requires
            self.wf(),
        ensures
            self@[0][0] == self.bytes()[0],
    {
    }

    /// An image of zeros.
    pub fn new() -> (d: Disk)
        ensures
            d.wf(),
            forall|a: int| 0 <= a < BLOCK_COUNT ==> #[trigger] d@[a] == zero_block(),
    {
        let d = Disk { data: vec![0u8; DISK_SIZE as usize] };
        assert forall|a: int| 0 <= a < BLOCK_COUNT implies #[trigger] d@[a] == zero_block() by {
            assert(d@[a] =~= zero_block());
        }
        d
    }

    /// The image held in the first `DISK_SIZE` bytes of `data`, if there are
    /// that many.
    pub fn from_bytes(data: Vec<u8>) -> (r: Option<Disk>)
        ensures
            r is Some <==> data@.len() >= DISK_SIZE,
            r is Some ==> r->Some_0.wf() && r->Some_0.bytes() == data@.take(DISK_SIZE as int)
                && r->Some_0@ == blocks_of(data@.take(DISK_SIZE as int)),
    {
        let mut data = data;
        if data.len() < DISK_SIZE as usize {
            None
        } else {
            data.truncate(DISK_SIZE as usize);
            Some(Disk { data })
        }
    }

    /// A copy of the image.
    pub fn snapshot(&self) -> (copy: Disk)
        requires
            self.wf(),
        ensures
            copy.wf(),
            copy.bytes() == self.bytes(),
            copy@ == self@,
    {
        let data = vstd::slice::slice_to_vec(self.data.as_slice());
        Disk { data }
    }

    /// The image as bytes.
    pub fn as_bytes(&self) -> (data: &[u8])
        requires
            self.wf(),
        ensures
            data@ == self.bytes(),
            data@.len() == DISK_SIZE,
            self@ == blocks_of(data@),
    {
        self.data.as_slice()
    }

    /// Gives the image back as bytes.
    pub fn into_bytes(self) -> (data: Vec<u8>)
        requires
            self.wf(),
        ensures
            data@ == self.bytes(),
            data@.len() == DISK_SIZE,
            self@ == blocks_of(data@),
    {
        self.data
    }

    /// The first byte of the image.
    pub fn first_byte(&self) -> (b: u8)
        requires
            self.wf(),
        ensures
            b == self@[0][0],
    {
        self.data[0]
    }

    /// Appends block `addr` to `out`.
    fn read_block_into(&self, addr: u32, out: &mut Vec<u8>)
        requires
            self.wf(),
            addr < BLOCK_COUNT,
        ensures
            final(out)@ == old(out)@ + self@[addr as int],
    {
        assert(BLOCK_SIZE == 1024 && BLOCK_COUNT == 131072);
        let start: usize = addr as usize * 1024;
        let mut i: usize = 0;
        while i < BLOCK_SIZE as usize
            invariant
                self.wf(),
                addr < BLOCK_COUNT,
                start == addr * BLOCK_SIZE,
                i <= BLOCK_SIZE,
                out@ == old(out)@ + self@[addr as int].take(i as int),
            decreases BLOCK_SIZE - i,
        {
            out.push(self.data[start + i]);
            i += 1;
            assert(out@ =~= old(out)@ + self@[addr as int].take(i as int));
        }
        assert(self@[addr as int].take(BLOCK_SIZE as int) =~= self@[addr as int]);
    }

    /// Block `addr` as a buffer of its own.
    pub fn read_block(&self, addr: u32) -> (r: Result<Vec<u8>, DiskError>)
        requires
            self.wf(),
        ensures
            r is Ok <==> addr < BLOCK_COUNT,
            r is Ok ==> r->Ok_0@ == self@[addr as int],
            r is Err ==> r->Err_0 == DiskError::InvalidAddr,
    {
        if addr >= BLOCK_COUNT {
            return Err(DiskError::InvalidAddr);
        }
        let mut v: Vec<u8> = Vec::with_capacity(BLOCK_SIZE as usize);
        self.read_block_into(addr, &mut v);
        assert(v@ =~= self@[addr as int]);
        Ok(v)
    }

    /// Writes `data` to block `addr`: its first 1024 bytes, or all of it
    /// and one NUL.
    pub fn write_block(&mut self, addr: u32, data: &Vec<u8>) -> (r: Result<(), DiskError>)
        requires
            old(self).wf(),
        ensures
            final(self).wf(),
            r is Ok <==> addr < BLOCK_COUNT,
            r is Ok ==> final(self)@ == old(self)@.update(
                addr as int,
                block_image(old(self)@[addr as int], data@),
            ),
            r is Err ==> r->Err_0 == DiskError::InvalidAddr && final(self)@ == old(self)@,
    {
        if addr >= BLOCK_COUNT {
            return Err(DiskError::InvalidAddr);
        }
        self.put_block(addr, data);
        Ok(())
    }

    /// Writes `buf` to block `addr`.
    fn put_block(&mut self, addr: u32, buf: &Vec<u8>)
        requires
            old(self).wf(),
            addr < BLOCK_COUNT,
        ensures
            final(self).wf(),
            final(self)@ == old(self)@.update(
                addr as int,
                block_image(old(self)@[addr as int], buf@),
            ),
    {
        assert(BLOCK_SIZE == 1024 && BLOCK_COUNT == 131072);
        let start: usize = addr as usize * 1024;
        let n: usize = if buf.len() < BLOCK_SIZE as usize {
            buf.len()
        } else {
            BLOCK_SIZE as usize
        };
        let mut i: usize = 0;
        while i < n
            invariant
                self.data@.len() == DISK_SIZE,
                addr < BLOCK_COUNT,
                start == addr * BLOCK_SIZE,
                n <= BLOCK_SIZE,
                n <= buf@.len(),
                i <= n,
                forall|k: int| 0 <= k < i ==> self.data@[start + k] == buf@[k],
                forall|k: int|
                    0 <= k < DISK_SIZE && !(start <= k < start + i) ==> self.data@[k] == old(
                        self,
                    ).data@[k],
            decreases n - i,
        {
            self.data[start + i] = buf[i];
            i += 1;
        }
        if n < BLOCK_SIZE as usize {
            self.data[start + n] = 0;
        }
        proof {
            let after = self@;
            let want = old(self)@.update(addr as int, block_image(old(self)@[addr as int], buf@));
            assert(after.len() == want.len());
            assert forall|a: int| 0 <= a < BLOCK_COUNT implies after[a] == want[a] by {
                if a == addr {
                    assert(after[a] =~= want[a]);
                } else {
                    assert(after[a] =~= old(self)@[a]);
                }
            }
            assert(after =~= want);
        }
    }
}

/// Reads the blocks at `addrs`, in order, into one buffer.
pub fn read_blocks(disk: &Disk, addrs: &Vec<u32>) -> (r: Result<Vec<u8>, DiskError>)
    requires
        disk.wf(),
    ensures
        r is Ok <==> addrs_valid(addrs@),
        r is Ok ==> r->Ok_0@ == spec_read_blocks(disk@, addrs@),
        r is Ok ==> r->Ok_0@.len() == addrs@.len() * BLOCK_SIZE,
        r is Err ==> r->Err_0 == DiskError::InvalidAddr,
{
    let mut v: Vec<u8> = Vec::new();
    let mut i: usize = 0;
    while i < addrs.len()
        invariant
            disk.wf(),
            i <= addrs@.len(),
            addrs_valid(addrs@.take(i as int)),
            v@ == spec_read_blocks(disk@, addrs@.take(i as int)),
        decreases addrs@.len() - i,
    {
        let addr = addrs[i];
        if addr >= BLOCK_COUNT {
            return Err(DiskError::InvalidAddr);
        }
        disk.read_block_into(addr, &mut v);
        i += 1;
        assert(addrs@.take(i as int).drop_last() =~= addrs@.take(i - 1));
    }
    proof {
        assert(addrs@.take(i as int) =~= addrs@);
        lemma_read_blocks(disk@, addrs@);
    }
    Ok(v)
}

/// Applies the writes of `data` in order. Nothing is written unless every
/// address is valid.
pub fn write_blocks(disk: &mut Disk, data: &Vec<(u32, Vec<u8>)>) -> (r: Result<(), DiskError>)
    requires
        old(disk).wf(),
    ensures
        final(disk).wf(),
        r is Ok <==> writes_valid(data.deep_view()),
        r is Ok ==> final(disk)@ == spec_write_blocks(old(disk)@, data.deep_view()),
        r is Err ==> r->Err_0 == DiskError::InvalidAddr && final(disk)@ == old(disk)@,
{
    let ghost ws = data.deep_view();
    let mut i: usize = 0;
    while i < data.len()
        invariant
            i <= data@.len(),
            ws == data.deep_view(),
            writes_valid(ws.take(i as int)),
            disk.wf(),
            disk@ == old(disk)@,
        decreases data@.len() - i,
    {
        if data[i].0 >= BLOCK_COUNT {
            assert(ws[i as int].0 == data@[i as int].0);
            return Err(DiskError::InvalidAddr);
        }
        assert(ws[i as int].0 == data@[i as int].0);
        i += 1;
    }
    assert(ws.take(i as int) =~= ws);
    let mut i: usize = 0;
    while i < data.len()
        invariant
            i <= data@.len(),
            ws == data.deep_view(),
            writes_valid(ws),
            disk.wf(),
            disk@ == spec_write_blocks(old(disk)@, ws.take(i as int)),
        decreases data@.len() - i,
    {
        assert(ws[i as int] == (data@[i as int].0, data@[i as int].1@));
        disk.put_block(data[i].0, &data[i].1);
        i += 1;
        assert(ws.take(i as int).drop_last() =~= ws.take(i - 1));
    }
    assert(ws.take(i as int) =~= ws);
    Ok(())
}

} // verus!
