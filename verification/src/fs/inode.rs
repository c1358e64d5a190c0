//! Inodes: the 64-byte records of the inode table, their allocator, and the
//! chain of data blocks that each one names.

use vstd::prelude::*;
use crate::sedes::{Deserialize, SedesError, Serialize, too_small};
use super::bitmap::{
    all_true, bits_of_bytes, BlockBitmap, count_false, is_first_false, lemma_words_round_trip,
};
use super::clock::unix_now;
use super::data::{
    alloc_blocks, Claims, data_bits, DATA_CAPACITY, DATA_OFFSET, is_data_addr, lowest_free,
    mark_all, same_but_data_bitmap,
};
use super::disk::{BLOCK_COUNT, BLOCK_SIZE, blocks_wf, Disk, DiskError, lemma_block_image_full};
use super::utils::{
    lemma_u32s_push, lemma_u32s_round_trip, push_u32, read_u32, spec_u32s_from_be, spec_u32s_to_be,
    u32_at,
};

verus! {

/// The block that holds the inode bitmap.
pub const BITMAP_OFFSET: u32 = 1;

/// First block of the inode table.
pub const INODE_OFFSET: u32 = BITMAP_OFFSET + 1;

/// Number of bytes an inode takes on disk.
pub const INODE_SIZE: usize = 64;

/// Number of inodes in the table.
pub const INODE_COUNT: u32 = 4096;

/// Number of inodes in one block of the table.
pub const INODE_PER_BLOCK: u32 = 16;

/// The most data blocks one inode can name.
pub const MAX_BLOCKS: u32 = 8 + 256 + 256 * 256;

/// The most bytes one inode's data blocks can hold.
pub const MAX_SIZE: u32 = 1024 * MAX_BLOCKS;

/// Mode bit of a directory.
pub const DIR_FLAG: u8 = 1 << 6;

/// Mode bits of the owner's read, write and execute permissions.
pub const OWNER_RWX_FLAG: (u8, u8, u8) = (1 << 5, 1 << 4, 1 << 3);

/// Mode bits of everyone else's read, write and execute permissions.
pub const OTHER_RWX_FLAG: (u8, u8, u8) = (1 << 2, 1 << 1, 1);

/// Mode of a new directory: `rwx` for the owner, `r-x` for others.
pub const DIR_MODE: u8 = 0b111_1101;

/// Mode of a new file: `rw-` for the owner, `r--` for others.
pub const FILE_MODE: u8 = 0b011_0100;

#[derive(Debug, Clone, Copy, PartialEq, Eq, Structural)]
pub enum InodeError {
    /// No inode, or no block for an index, is free.
    NoUsableBlock,
    /// An inode address at or beyond `INODE_COUNT`.
    InvalidAddr,
    /// More data blocks than one inode can name.
    DataTooBig,
    DiskErr(DiskError),
}

#[derive(Debug, Clone, Copy)]
pub struct Inode {
    pub uid: u8,
    pub mode: u8,
    pub size: u32,
    pub timestamp: u32,
    pub blocks: [u32; 8],
    pub indirect_block: u32,
    pub double_block: u32,
}

/// An inode as a mathematical value.
pub struct InodeView {
    pub uid: u8,
    pub mode: u8,
    pub size: u32,
    pub timestamp: u32,
    pub blocks: Seq<u32>,
    pub indirect_block: u32,
    pub double_block: u32,
}

impl View for Inode {
    type V = InodeView;

    open spec fn view(&self) -> InodeView {
        InodeView {
            uid: self.uid,
            mode: self.mode,
            size: self.size,
            timestamp: self.timestamp,
            blocks: self.blocks@,
            indirect_block: self.indirect_block,
            double_block: self.double_block,
        }
    }
}

/// The inode that `owner` gets at time `timestamp`: a directory or a file,
/// with no blocks.
pub open spec fn spec_new_inode(owner: u8, is_dir: bool, timestamp: u32) -> InodeView {
    InodeView {
        uid: owner,
        mode: if is_dir {
            DIR_MODE
        } else {
            FILE_MODE
        },
        size: 0,
        timestamp,
        blocks: Seq::new(8, |i: int| 0u32),
        indirect_block: 0,
        double_block: 0,
    }
}

/// The low 32 bits of a number of seconds: what an inode keeps of a time.
pub open spec fn spec_cut_secs(secs: i64) -> u32 {
    (secs % 0x1_0000_0000) as u32
}

/// The twelve numbers of an inode in the order in which they lie on disk.
pub open spec fn spec_inode_words(iv: InodeView) -> Seq<u32> {
    seq![iv.size, iv.timestamp] + iv.blocks + seq![iv.indirect_block, iv.double_block]
}

/// The 64 bytes that stand for `iv` on disk.
pub open spec fn spec_inode_bytes(iv: InodeView) -> Seq<u8> {
    seq![iv.uid, iv.mode] + spec_u32s_to_be(spec_inode_words(iv)) + Seq::new(14, |i: int| 0u8)
}

/// The inode that the first 50 bytes of `rec` stand for.
pub open spec fn spec_parse_inode(rec: Seq<u8>) -> InodeView {
    let words = spec_u32s_from_be(rec.subrange(2, 50), 12);
    InodeView {
        uid: rec[0],
        mode: rec[1],
        size: words[0],
        timestamp: words[1],
        blocks: words.subrange(2, 10),
        indirect_block: words[10],
        double_block: words[11],
    }
}

/// Reading an inode back from its own bytes gives the same inode.
pub proof fn lemma_inode_round_trip(iv: InodeView)
    requires
        iv.blocks.len() == 8,
    ensures
        spec_inode_bytes(iv).len() == INODE_SIZE,
        spec_parse_inode(spec_inode_bytes(iv)) == iv,
{
    let b = spec_inode_bytes(iv);
    let words = spec_inode_words(iv);
    lemma_u32s_round_trip(words, Seq::empty());
    assert(b.subrange(2, 50) =~= spec_u32s_to_be(words) + Seq::<u8>::empty());
    assert(words.subrange(2, 10) =~= iv.blocks);
}

impl Inode {
    /// An inode for `owner` with the mode of a new directory or file, no
    /// blocks, and the clock's time.
    pub fn new(owner: u8, is_dir: bool) -> (inode: Self)
        ensures
            inode@ == spec_new_inode(owner, is_dir, inode.timestamp),
    {
        let mut inode = Self::with_timestamp(owner, is_dir, 0);
        inode.update_timestamp();
        inode
    }

    /// An inode for `owner` with the mode of a new directory or file, no
    /// blocks, and the time `timestamp`.
    pub fn with_timestamp(owner: u8, is_dir: bool, timestamp: u32) -> (inode: Self)
        ensures
            inode@ == spec_new_inode(owner, is_dir, timestamp),
    {
        let inode = Inode {
            uid: owner,
            mode: if is_dir {
                DIR_MODE
            } else {
                FILE_MODE
            },
            size: 0,
            timestamp,
            blocks: [0u32;8],
            indirect_block: 0,
            double_block: 0,
        };
        assert(inode@.blocks =~= Seq::new(8, |i: int| 0u32));
        inode
    }

    /// Sets the timestamp to the clock's time, cut to 32 bits.
    pub fn update_timestamp(&mut self)
        ensures
            final(self)@ == (InodeView { timestamp: final(self).timestamp, ..old(self)@ }),
    {
        let now = unix_now();
        self.set_timestamp(now);
    }

    /// Sets the timestamp to second `secs` of the Unix epoch, cut to 32 bits.
    pub fn set_timestamp(&mut self, secs: i64)
        ensures
            final(self)@ == (InodeView { timestamp: spec_cut_secs(secs), ..old(self)@ }),
    {
        assert(0 <= (secs & 0xffff_ffff) <= 0xffff_ffff) by (bit_vector);
        assert((secs & 0xffff_ffff) == secs % 0x1_0000_0000) by (bit_vector);
        self.timestamp = (secs & 0xffff_ffff) as u32;
    }
}

impl Serialize for Inode {
    open spec fn spec_serialize(&self) -> Seq<u8> {
        spec_inode_bytes(self@)
    }

    fn serialize(&self) -> (v: Vec<u8>) {
        let mut v: Vec<u8> = Vec::with_capacity(INODE_SIZE);
        v.push(self.uid);
        v.push(self.mode);
        let ghost head = seq![self.uid, self.mode];
        let ghost mut words = Seq::<u32>::empty();
        assert(v@ =~= head + spec_u32s_to_be(words));
        proof {
            lemma_u32s_push(words, self.size);
            words = words.push(self.size);
        }
        push_u32(&mut v, self.size);
        proof {
            lemma_u32s_push(words, self.timestamp);
            words = words.push(self.timestamp);
        }
        push_u32(&mut v, self.timestamp);
        let mut i: usize = 0;
        while i < 8
            invariant
                i <= 8,
                words == seq![self.size, self.timestamp] + self.blocks@.take(i as int),
                v@ == head + spec_u32s_to_be(words),
            decreases 8 - i,
        {
            proof {
                lemma_u32s_push(words, self.blocks@[i as int]);
                words = words.push(self.blocks@[i as int]);
            }
            push_u32(&mut v, self.blocks[i]);
            i += 1;
            assert(words =~= seq![self.size, self.timestamp] + self.blocks@.take(i as int));
        }
        proof {
            lemma_u32s_push(words, self.indirect_block);
            words = words.push(self.indirect_block);
        }
        push_u32(&mut v, self.indirect_block);
        proof {
            lemma_u32s_push(words, self.double_block);
            words = words.push(self.double_block);
        }
        push_u32(&mut v, self.double_block);
        assert(words =~= spec_inode_words(self@));
        let ghost front = v@;
        let mut i: usize = 0;
        while i < 14
            invariant
                i <= 14,
                v@ == front + Seq::new(i as nat, |k: int| 0u8),
            decreases 14 - i,
        {
            v.push(0);
            i += 1;
            assert(v@ =~= front + Seq::new(i as nat, |k: int| 0u8));
        }
        v
    }
}

impl Deserialize for Inode {
    open spec fn spec_deserialize_err(buf: Seq<u8>) -> Option<SedesError> {
        too_small(buf, INODE_SIZE as nat)
    }

    open spec fn spec_deserialized(buf: Seq<u8>, r: &Self) -> bool {
        r@ == spec_parse_inode(buf)
    }

    fn deserialize(buf: &mut Vec<u8>) -> (r: Result<Self, SedesError>)
        ensures
            final(buf)@ == old(buf)@,
    {
        if buf.len() < INODE_SIZE {
            return Err(SedesError::DeserialBufferTooSmall);
        }
        let mut me = Inode {
            uid: buf[0],
            mode: buf[1],
            size: read_u32(buf, 2),
            timestamp: read_u32(buf, 6),
            blocks: [0u32;8],
            indirect_block: read_u32(buf, 42),
            double_block: read_u32(buf, 46),
        };
        let mut i: usize = 0;
        while i < 8
            invariant
                i <= 8,
                buf@.len() >= INODE_SIZE,
                buf@ == old(buf)@,
                me.uid == buf@[0],
                me.mode == buf@[1],
                me.size == u32_at(buf@, 2),
                me.timestamp == u32_at(buf@, 6),
                me.indirect_block == u32_at(buf@, 42),
                me.double_block == u32_at(buf@, 46),
                forall|k: int| 0 <= k < i ==> me.blocks@[k] == u32_at(buf@, 10 + 4 * k),
            decreases 8 - i,
        {
            me.blocks[i] = read_u32(buf, 10 + 4 * i);
            i += 1;
        }
        proof {
            let rec = buf@.subrange(2, 50);
            assert forall|k: int| 0 <= k < 12 implies #[trigger] spec_u32s_from_be(rec, 12)[k]
                == u32_at(buf@, 2 + 4 * k) by {
                assert(rec.subrange(4 * k, 4 * k + 4) =~= buf@.subrange(2 + 4 * k, 2 + 4 * k + 4));
            }
            assert(me@.blocks =~= spec_parse_inode(buf@).blocks);
        }
        Ok(me)
    }
}

/// The block of the inode table in which inode `addr` lies.
pub open spec fn inode_block(addr: int) -> int {
    INODE_OFFSET + addr / INODE_PER_BLOCK as int
}

/// The byte of its block at which inode `addr` begins.
pub open spec fn inode_start(addr: int) -> int {
    (addr % INODE_PER_BLOCK as int) * INODE_SIZE as int
}

/// The inode stored at `addr`.
pub open spec fn spec_inode_at(d: Seq<Seq<u8>>, addr: int) -> InodeView {
    spec_parse_inode(
        d[inode_block(addr)].subrange(inode_start(addr), inode_start(addr) + INODE_SIZE as int),
    )
}

/// The image after `iv` was stored at `addr`.
pub open spec fn spec_put_inode(d: Seq<Seq<u8>>, addr: int, iv: InodeView) -> Seq<Seq<u8>> {
    let blk = d[inode_block(addr)];
    d.update(
        inode_block(addr),
        blk.subrange(0, inode_start(addr)) + spec_inode_bytes(iv) + blk.subrange(
            inode_start(addr) + INODE_SIZE as int,
            BLOCK_SIZE as int,
        ),
    )
}

/// The inode bitmap: bit `a` says whether inode `a` is taken.
pub open spec fn inode_bits(d: Seq<Seq<u8>>) -> Seq<bool> {
    bits_of_bytes(d[BITMAP_OFFSET as int])
}

/// Storing an inode changes one block of the inode table. The inode reads
/// back as stored, and every other inode as before.
pub proof fn lemma_put_inode(d: Seq<Seq<u8>>, addr: int, iv: InodeView)
    requires
        blocks_wf(d),
        0 <= addr < INODE_COUNT,
        iv.blocks.len() == 8,
    ensures
        blocks_wf(spec_put_inode(d, addr, iv)),
        INODE_OFFSET <= inode_block(addr) < INODE_OFFSET + 256,
        forall|b: int|
            0 <= b < BLOCK_COUNT && b != inode_block(addr) ==> spec_put_inode(d, addr, iv)[b]
                == d[b],
        spec_inode_at(spec_put_inode(d, addr, iv), addr) == iv,
        forall|other: int|
            0 <= other < INODE_COUNT && other != addr ==> spec_inode_at(
                spec_put_inode(d, addr, iv),
                other,
            ) == spec_inode_at(d, other),
{
    let d2 = spec_put_inode(d, addr, iv);
    let blk = d[inode_block(addr)];
    let blk2 = d2[inode_block(addr)];
    let off = inode_start(addr);
    lemma_inode_round_trip(iv);
    assert(blk2.subrange(off, off + INODE_SIZE as int) =~= spec_inode_bytes(iv));
    assert forall|other: int| 0 <= other < INODE_COUNT && other != addr implies spec_inode_at(
        d2,
        other,
    ) == spec_inode_at(d, other) by {
        if inode_block(other) == inode_block(addr) {
            let o = inode_start(other);
            assert(o != off);
            assert(o + 64 <= off || off + 64 <= o);
            assert(blk2.subrange(o, o + INODE_SIZE as int) =~= blk.subrange(
                o,
                o + INODE_SIZE as int,
            ));
        }
    }
}

/// Reads the inode bitmap from its block.
fn get_bitmap(disk: &Disk) -> (bitmap: BlockBitmap)
    requires
        disk.wf(),
    ensures
        bitmap@ == inode_bits(disk@),
{
    let mut data = match disk.read_block(BITMAP_OFFSET) {
        Ok(d) => d,
        Err(_) => Vec::new(),
    };
    assert(data@.take(BLOCK_SIZE as int) =~= data@);
    match BlockBitmap::deserialize(&mut data) {
        Ok(b) => {
            proof {
                b.lemma_view();
            }
            b
        },
        Err(_) => BlockBitmap::new(),
    }
}

/// Writes the inode bitmap to its block.
fn save_bitmap(disk: &mut Disk, bitmap: &BlockBitmap)
    requires
        old(disk).wf(),
    ensures
        final(disk).wf(),
        inode_bits(final(disk)@) == bitmap@,
        forall|b: int|
            0 <= b < BLOCK_COUNT && b != BITMAP_OFFSET ==> final(disk)@[b] == old(disk)@[b],
{
    let bytes = bitmap.serialize();
    proof {
        bitmap.lemma_view();
        lemma_words_round_trip(bitmap.words());
        super::disk::lemma_block_image_full(disk@[BITMAP_OFFSET as int], bytes@);
    }
    let _ = disk.write_block(BITMAP_OFFSET, &bytes);
}

/// The lowest free inode, if there is one.
pub fn peek_inode(disk: &Disk) -> (r: Option<u32>)
    requires
        disk.wf(),
    ensures
        r is Some <==> !all_true(inode_bits(disk@).take(INODE_COUNT as int)),
        r is Some ==> r->Some_0 < INODE_COUNT && is_first_false(
            inode_bits(disk@),
            r->Some_0 as int,
        ),
{
    let bitmap = get_bitmap(disk);
    match bitmap.next_usable() {
        Some(p) => {
            if p < INODE_COUNT {
                proof {
                    assert(!inode_bits(disk@).take(INODE_COUNT as int)[p as int]);
                }
                Some(p)
            } else {
                proof {
                    let bits = inode_bits(disk@);
                    assert forall|q: int| 0 <= q < INODE_COUNT implies bits.take(
                        INODE_COUNT as int,
                    )[q] by {
                        assert(bits[q]);
                    }
                }
                None
            }
        },
        None => None,
    }
}

/// A new directory has the directory bit in its mode, a new file has not.
pub proof fn lemma_new_modes()
    ensures
        DIR_FLAG == 64u8,
        DIR_MODE & DIR_FLAG != 0,
        FILE_MODE & DIR_FLAG == 0,
{
    assert((1u8 << 6) == 64u8) by (bit_vector);
    assert(125u8 & 64u8 != 0) by (bit_vector);
    assert(52u8 & 64u8 == 0) by (bit_vector);
}

/// An inode without index blocks owns no index block, and one without
/// blocks at all owns nothing.
pub proof fn lemma_no_index(d: Seq<Seq<u8>>, iv: InodeView)
    requires
        iv.indirect_block == 0,
        iv.double_block == 0,
    ensures
        forall|b: int| !is_owned_index(d, iv, b),
        spec_slots(d, iv) == Seq::new(SLOT_COUNT as nat, |k: int| 0u32),
        owned_ok(d, iv, Seq::<u32>::empty()),
        forall|n: int| 0 <= n <= 8 ==> blocks_needed(d, iv, n) == 0,
{
    let sl = spec_slots(d, iv);
    assert(sl =~= Seq::new(SLOT_COUNT as nat, |k: int| 0u32));
    assert forall|b: int| !is_owned_index(d, iv, b) by {
        let kr = slots_read(MAX_BLOCKS as int);
        if hits(sl, kr, b) {
            let j = choose|j: int| 0 <= j < kr && sl[j] == b;
            assert(sl[j] == 0);
        }
    }
    assert forall|n: int| 0 <= n <= 8 implies blocks_needed(d, iv, n) == 0 by {
        assert(slots_for(n) == 0);
        assert(missing_slots(sl, 0) == 0);
    }
}

/// An inode without blocks names no blocks.
pub proof fn lemma_new_inode_chain(d: Seq<Seq<u8>>, iv: InodeView)
    requires
        iv.blocks == Seq::new(8, |i: int| 0u32),
    ensures
        spec_get_blocks(d, iv) == Some(Seq::<u32>::empty()),
{
    lemma_nz_end(iv.blocks, 0, 0);
    assert(iv.blocks.take(0) =~= Seq::<u32>::empty());
}

/// Takes the lowest free inode for `owner` and stores a new inode there.
pub fn alloc_inode(disk: &mut Disk, owner: u8, is_dir: bool) -> (r: Result<
    (u32, Inode),
    InodeError,
>)
    requires
        old(disk).wf(),
    ensures
        final(disk).wf(),
        r is Ok <==> !all_true(inode_bits(old(disk)@).take(INODE_COUNT as int)),
        r is Ok ==> ({
            let (addr, inode) = r->Ok_0;
            &&& addr < INODE_COUNT
            &&& is_first_false(inode_bits(old(disk)@), addr as int)
            &&& inode@ == spec_new_inode(owner, is_dir, inode.timestamp)
            &&& inode_bits(final(disk)@) == inode_bits(old(disk)@).update(addr as int, true)
            &&& final(disk)@ == spec_put_inode(
                old(disk)@.update(BITMAP_OFFSET as int, final(disk)@[BITMAP_OFFSET as int]),
                addr as int,
                inode@,
            )
        }),
        r is Err ==> r->Err_0 == InodeError::NoUsableBlock && final(disk)@ == old(disk)@,
{
    let mut bitmap = get_bitmap(disk);
    let addr = match bitmap.next_usable() {
        Some(p) => p,
        None => {
            return Err(InodeError::NoUsableBlock);
        },
    };
    if addr >= INODE_COUNT {
        proof {
            let bits = inode_bits(disk@);
            assert forall|q: int| 0 <= q < INODE_COUNT implies bits.take(INODE_COUNT as int)[q] by {
                assert(bits[q]);
            }
        }
        return Err(InodeError::NoUsableBlock);
    }
    proof {
        bitmap.lemma_view();
        assert(!inode_bits(disk@).take(INODE_COUNT as int)[addr as int]);
    }
    let _ = bitmap.set_true(addr);
    let inode = Inode::new(owner, is_dir);
    save_bitmap(disk, &bitmap);
    let ghost mid = disk@;
    let _ = save_inode(disk, addr, &inode);
    proof {
        lemma_put_inode(mid, addr as int, inode@);
        assert(mid =~= old(disk)@.update(BITMAP_OFFSET as int, disk@[BITMAP_OFFSET as int]));
    }
    Ok((addr, inode))
}

/// Marks inode `addr` as free. The root, inode 0, is never freed.
pub fn free_inode(disk: &mut Disk, addr: u32) -> (r: Result<(), InodeError>)
    requires
        old(disk).wf(),
    ensures
        final(disk).wf(),
        r is Ok <==> 0 < addr < INODE_COUNT,
        r is Ok ==> inode_bits(final(disk)@) == inode_bits(old(disk)@).update(addr as int, false),
        r is Err ==> r->Err_0 == InodeError::InvalidAddr && final(disk)@ == old(disk)@,
        forall|b: int|
            0 <= b < BLOCK_COUNT && b != BITMAP_OFFSET ==> final(disk)@[b] == old(disk)@[b],
{
    if addr == 0 || addr >= INODE_COUNT {
        return Err(InodeError::InvalidAddr);
    }
    let mut bitmap = get_bitmap(disk);
    let _ = bitmap.set_false(addr);
    save_bitmap(disk, &bitmap);
    Ok(())
}

/// Reads the inode stored at `addr`.
pub fn load_inode(disk: &Disk, addr: u32) -> (r: Result<Inode, InodeError>)
    requires
        disk.wf(),
    ensures
        r is Ok <==> addr < INODE_COUNT,
        r is Ok ==> r->Ok_0@ == spec_inode_at(disk@, addr as int),
        r is Err ==> r->Err_0 == InodeError::InvalidAddr,
{
    if addr >= INODE_COUNT {
        return Err(InodeError::InvalidAddr);
    }
    let block = INODE_OFFSET + addr / INODE_PER_BLOCK;
    let pos = (addr % INODE_PER_BLOCK) as usize;
    let buf = match disk.read_block(block) {
        Ok(b) => b,
        Err(e) => {
            return Err(InodeError::DiskErr(e));
        },
    };
    let mut rec = vstd::slice::slice_to_vec(
        vstd::slice::slice_subrange(buf.as_slice(), pos * INODE_SIZE, (pos + 1) * INODE_SIZE),
    );
    match Inode::deserialize(&mut rec) {
        Ok(inode) => Ok(inode),
        Err(_) => Err(InodeError::InvalidAddr),
    }
}

/// Stores `inode` at `addr`, leaving the rest of its block as it was.
pub fn save_inode(disk: &mut Disk, addr: u32, inode: &Inode) -> (r: Result<(), InodeError>)
    requires
        old(disk).wf(),
    ensures
        final(disk).wf(),
        r is Ok <==> addr < INODE_COUNT,
        r is Ok ==> final(disk)@ == spec_put_inode(old(disk)@, addr as int, inode@),
        r is Err ==> r->Err_0 == InodeError::InvalidAddr && final(disk)@ == old(disk)@,
{
    if addr >= INODE_COUNT {
        return Err(InodeError::InvalidAddr);
    }
    let block = INODE_OFFSET + addr / INODE_PER_BLOCK;
    let pos = (addr % INODE_PER_BLOCK) as usize;
    let mut buf = match disk.read_block(block) {
        Ok(b) => b,
        Err(e) => {
            return Err(InodeError::DiskErr(e));
        },
    };
    let rec = inode.serialize();
    proof {
        lemma_inode_round_trip(inode@);
    }
    let ghost before = buf@;
    let mut i: usize = 0;
    while i < INODE_SIZE
        invariant
            i <= INODE_SIZE,
            pos < INODE_PER_BLOCK,
            rec@.len() == INODE_SIZE,
            buf@.len() == BLOCK_SIZE,
            before.len() == BLOCK_SIZE,
            forall|k: int| 0 <= k < i ==> buf@[pos * INODE_SIZE + k] == rec@[k],
            forall|k: int|
                0 <= k < BLOCK_SIZE && !(pos * INODE_SIZE <= k < pos * INODE_SIZE + i) ==> buf@[k]
                    == before[k],
        decreases INODE_SIZE - i,
    {
        buf[pos * INODE_SIZE + i] = rec[i];
        i += 1;
    }
    proof {
        let off = inode_start(addr as int);
        assert(buf@ =~= before.subrange(0, off) + rec@ + before.subrange(
            off + INODE_SIZE as int,
            BLOCK_SIZE as int,
        ));
        super::disk::lemma_block_image_full(before, buf@);
    }
    let _ = disk.write_block(block, &buf);
    Ok(())
}

/// Number of block addresses that one index block holds.
pub const ADDR_COUNT: usize = 256;

/// Number of index blocks one inode can use: the single-indirect block and
/// the 256 that the double-indirect block names.
pub const SLOT_COUNT: usize = 257;

/// The length of the run of nonzero entries of `s` that starts at `i`,
/// added to `i`.
pub open spec fn nz_end(s: Seq<u32>, i: int) -> int
    decreases s.len() - i,
{
    if i < 0 || i >= s.len() || s[i] == 0 {
        i
    } else {
        nz_end(s, i + 1)
    }
}

/// The entries of `s` before its first zero.
pub open spec fn nz_prefix(s: Seq<u32>) -> Seq<u32> {
    s.take(nz_end(s, 0))
}

/// The run of nonzero entries from the start of `s` ends at `n` when the
/// first `n` entries are nonzero and entry `n`, if there is one, is zero.
pub proof fn lemma_nz_end(s: Seq<u32>, i: int, n: int)
    requires
        0 <= i <= n <= s.len(),
        forall|k: int| i <= k < n ==> s[k] != 0,
        n < s.len() ==> s[n] == 0,
    ensures
        nz_end(s, i) == n,
    decreases n - i,
{
    if i < n {
        lemma_nz_end(s, i + 1, n);
    }
}

/// The run of nonzero entries from the start stays within `s`, holds no
/// zero, and stops at a zero or at the end.
pub proof fn lemma_nz_prefix(s: Seq<u32>)
    ensures
        0 <= nz_end(s, 0) <= s.len(),
        nz_prefix(s).len() == nz_end(s, 0),
        forall|k: int| 0 <= k < nz_end(s, 0) ==> s[k] != 0,
        nz_end(s, 0) < s.len() ==> s[nz_end(s, 0)] == 0,
{
    lemma_nz_end_from(s, 0);
}

proof fn lemma_nz_end_from(s: Seq<u32>, i: int)
    requires
        0 <= i <= s.len(),
    ensures
        i <= nz_end(s, i) <= s.len(),
        forall|k: int| i <= k < nz_end(s, i) ==> s[k] != 0,
        nz_end(s, i) < s.len() ==> s[nz_end(s, i)] == 0,
    decreases s.len() - i,
{
    if i < s.len() && s[i] != 0 {
        lemma_nz_end_from(s, i + 1);
    }
}

/// The 256 addresses that an index block holds.
pub open spec fn spec_entries(block: Seq<u8>) -> Seq<u32> {
    spec_u32s_from_be(block, ADDR_COUNT as nat)
}

/// `chunk` followed by zeros up to 256 entries.
pub open spec fn pad_entries(chunk: Seq<u32>) -> Seq<u32> {
    Seq::new(
        ADDR_COUNT as nat,
        |i: int|
            if i < chunk.len() {
                chunk[i]
            } else {
                0u32
            },
    )
}

/// The address of index block number `k` of an inode: the single-indirect
/// block for 0, entry `k - 1` of the double-indirect block for the others.
/// `None` where the double-indirect block's own address is no block.
pub open spec fn slot_addr(d: Seq<Seq<u8>>, iv: InodeView, k: int) -> Option<u32> {
    if k == 0 {
        Some(iv.indirect_block)
    } else if iv.double_block == 0 {
        Some(0u32)
    } else if iv.double_block >= BLOCK_COUNT {
        None
    } else {
        Some(spec_entries(d[iv.double_block as int])[k - 1])
    }
}

/// The data blocks that the index blocks from number `k` on name. The list
/// ends at an absent index block or at a zero entry; it is `None` where an
/// address on the way is no block of the image.
pub open spec fn index_chain(d: Seq<Seq<u8>>, iv: InodeView, k: int) -> Option<Seq<u32>>
    decreases SLOT_COUNT - k,
{
    if k < 0 || k >= SLOT_COUNT {
        Some(Seq::empty())
    } else {
        match slot_addr(d, iv, k) {
            None => None,
            Some(a) => if a == 0 {
                Some(Seq::empty())
            } else if a >= BLOCK_COUNT {
                None
            } else {
                let e = nz_prefix(spec_entries(d[a as int]));
                if e.len() < ADDR_COUNT {
                    Some(e)
                } else {
                    match index_chain(d, iv, k + 1) {
                        Some(rest) => Some(e + rest),
                        None => None,
                    }
                }
            },
        }
    }
}

/// The data blocks of an inode, in order: the direct slots up to the first
/// zero and, where all eight are in use, what the index blocks name.
pub open spec fn spec_get_blocks(d: Seq<Seq<u8>>, iv: InodeView) -> Option<Seq<u32>> {
    let direct = nz_prefix(iv.blocks);
    if direct.len() < 8 {
        Some(direct)
    } else {
        match index_chain(d, iv, 0) {
            Some(rest) => Some(direct + rest),
            None => None,
        }
    }
}

/// The index blocks from number `k` on name at most 256 blocks each, and
/// no zero.
pub proof fn lemma_index_chain_len(d: Seq<Seq<u8>>, iv: InodeView, k: int)
    requires
        0 <= k <= SLOT_COUNT,
    ensures
        index_chain(d, iv, k) is Some ==> index_chain(d, iv, k)->Some_0.len() <= ADDR_COUNT * (
        SLOT_COUNT - k) && forall|i: int|
            0 <= i < index_chain(d, iv, k)->Some_0.len() ==> index_chain(d, iv, k)->Some_0[i] != 0,
    decreases SLOT_COUNT - k,
{
    if k < SLOT_COUNT {
        match slot_addr(d, iv, k) {
            None => {},
            Some(a) => {
                if a != 0 && a < BLOCK_COUNT {
                    lemma_nz_prefix(spec_entries(d[a as int]));
                    lemma_index_chain_len(d, iv, k + 1);
                }
            },
        }
    }
}

/// An inode names at most `MAX_BLOCKS` data blocks, none of them zero.
pub proof fn lemma_get_blocks_len(d: Seq<Seq<u8>>, iv: InodeView)
    requires
        iv.blocks.len() == 8,
    ensures
        spec_get_blocks(d, iv) is Some ==> spec_get_blocks(d, iv)->Some_0.len() <= MAX_BLOCKS
            && forall|i: int|
            0 <= i < spec_get_blocks(d, iv)->Some_0.len() ==> spec_get_blocks(d, iv)->Some_0[i]
                != 0,
{
    lemma_nz_prefix(iv.blocks);
    lemma_index_chain_len(d, iv, 0);
}

/// Reads the addresses of an index block up to its first zero.
fn read_ind_block(disk: &Disk, addr: u32) -> (r: Result<Vec<u32>, InodeError>)
    requires
        disk.wf(),
    ensures
        r is Ok <==> addr < BLOCK_COUNT,
        r is Ok ==> r->Ok_0@ == nz_prefix(spec_entries(disk@[addr as int])),
        r is Err ==> r->Err_0 == InodeError::DiskErr(DiskError::InvalidAddr),
{
    let buf = match disk.read_block(addr) {
        Ok(b) => b,
        Err(e) => {
            return Err(InodeError::DiskErr(e));
        },
    };
    let ghost es = spec_entries(disk@[addr as int]);
    let mut v: Vec<u32> = Vec::with_capacity(ADDR_COUNT);
    let mut i: usize = 0;
    while i < ADDR_COUNT
        invariant
            i <= ADDR_COUNT,
            addr < BLOCK_COUNT,
            buf@ == disk@[addr as int],
            buf@.len() == BLOCK_SIZE,
            es == spec_entries(buf@),
            v@ == es.take(i as int),
            forall|k: int| 0 <= k < i ==> es[k] != 0,
        decreases ADDR_COUNT - i,
    {
        let a = read_u32(&buf, i * 4);
        if a == 0 {
            proof {
                lemma_nz_end(es, 0, i as int);
            }
            return Ok(v);
        }
        v.push(a);
        i += 1;
        assert(v@ =~= es.take(i as int));
    }
    proof {
        lemma_nz_end(es, 0, ADDR_COUNT as int);
    }
    Ok(v)
}

/// Reads all 256 addresses of an index block.
fn read_entries(disk: &Disk, addr: u32) -> (v: Vec<u32>)
    requires
        disk.wf(),
        addr < BLOCK_COUNT,
    ensures
        v@ == spec_entries(disk@[addr as int]),
{
    let buf = match disk.read_block(addr) {
        Ok(b) => b,
        Err(_) => Vec::new(),
    };
    let mut v: Vec<u32> = Vec::with_capacity(ADDR_COUNT);
    let mut i: usize = 0;
    while i < ADDR_COUNT
        invariant
            i <= ADDR_COUNT,
            addr < BLOCK_COUNT,
            buf@ == disk@[addr as int],
            buf@.len() == BLOCK_SIZE,
            v@ == spec_entries(buf@).take(i as int),
        decreases ADDR_COUNT - i,
    {
        let a = read_u32(&buf, i * 4);
        v.push(a);
        i += 1;
        assert(v@ =~= spec_entries(buf@).take(i as int));
    }
    assert(v@ =~= spec_entries(buf@));
    v
}

/// The data blocks of `inode`, in order.
pub fn get_blocks(disk: &Disk, inode: &Inode) -> (r: Result<Vec<u32>, InodeError>)
    requires
        disk.wf(),
    ensures
        r is Ok <==> spec_get_blocks(disk@, inode@) is Some,
        r is Ok ==> r->Ok_0@ == spec_get_blocks(disk@, inode@)->Some_0,
        r is Ok ==> r->Ok_0@.len() <= MAX_BLOCKS,
        r is Err ==> r->Err_0 == InodeError::DiskErr(DiskError::InvalidAddr),
{
    proof {
        lemma_get_blocks_len(disk@, inode@);
    }
    let mut v: Vec<u32> = Vec::new();
    let mut i: usize = 0;
    while i < 8
        invariant
            i <= 8,
            v@ == inode.blocks@.take(i as int),
            forall|k: int| 0 <= k < i ==> inode.blocks@[k] != 0,
        decreases 8 - i,
    {
        let addr = inode.blocks[i];
        if addr == 0 {
            proof {
                lemma_nz_end(inode.blocks@, 0, i as int);
            }
            return Ok(v);
        }
        v.push(addr);
        i += 1;
        assert(v@ =~= inode.blocks@.take(i as int));
    }
    proof {
        lemma_nz_end(inode.blocks@, 0, 8);
    }
    let ghost direct = v@;
    let ghost d = disk@;
    let ghost iv = inode@;
    let mut table: Vec<u32> = Vec::new();
    let mut k: usize = 0;
    while k < SLOT_COUNT
        invariant
            k <= SLOT_COUNT,
            disk.wf(),
            d == disk@,
            iv == inode@,
            direct.len() == 8,
            direct == nz_prefix(iv.blocks),
            spec_get_blocks(d, iv) is Some ==> spec_get_blocks(d, iv)->Some_0.len() <= MAX_BLOCKS,
            k >= 2 ==> iv.double_block != 0 && iv.double_block < BLOCK_COUNT && table@
                == spec_entries(d[iv.double_block as int]),
            index_chain(d, iv, 0) is Some <==> index_chain(d, iv, k as int) is Some,
            index_chain(d, iv, 0) is Some ==> direct + index_chain(d, iv, 0)->Some_0 == v@
                + index_chain(d, iv, k as int)->Some_0,
        decreases SLOT_COUNT - k,
    {
        let a: u32 = if k == 0 {
            inode.indirect_block
        } else if inode.double_block == 0 {
            0
        } else if inode.double_block >= BLOCK_COUNT {
            return Err(InodeError::DiskErr(DiskError::InvalidAddr));
        } else {
            if k == 1 {
                table = read_entries(disk, inode.double_block);
            }
            table[k - 1]
        };
        assert(slot_addr(d, iv, k as int) == Some(a));
        if a == 0 {
            assert(v@ + Seq::<u32>::empty() =~= v@);
            return Ok(v);
        }
        let mut e = read_ind_block(disk, a)?;
        let full = e.len() == ADDR_COUNT;
        let ghost before = v@;
        let ghost es = e@;
        proof {
            lemma_nz_prefix(spec_entries(d[a as int]));
        }
        v.append(&mut e);
        if !full {
            return Ok(v);
        }
        proof {
            if index_chain(d, iv, k as int) is Some {
                let rest = index_chain(d, iv, k + 1)->Some_0;
                assert(before + (es + rest) =~= (before + es) + rest);
            }
        }
        k += 1;
    }
    assert(v@ + Seq::<u32>::empty() =~= v@);
    Ok(v)
}

/// How many index blocks hold addresses when an inode names `n` blocks.
pub open spec fn slots_for(n: int) -> int {
    if n <= 8 {
        0
    } else {
        (n - 8 + 255) / 256
    }
}

/// Whether a list of `n` blocks ends exactly where an index block would
/// begin, so that the next index block, if there is one, must say so.
pub open spec fn ends_at_slot(n: int) -> bool {
    n >= 8 && (n - 8) % 256 == 0 && slots_for(n) < SLOT_COUNT
}

/// How many index blocks are looked at when an inode names `n` blocks.
pub open spec fn slots_read(n: int) -> int {
    if ends_at_slot(n) {
        slots_for(n) + 1
    } else {
        slots_for(n)
    }
}

/// The part of `eff` that index block number `k` holds.
pub open spec fn slot_chunk(eff: Seq<u32>, k: int) -> Seq<u32> {
    eff.subrange(
        8 + 256 * k,
        if eff.len() < 8 + 256 * (k + 1) {
            eff.len() as int
        } else {
            8 + 256 * (k + 1)
        },
    )
}

/// Whether index block number `k` exists and holds `chunk`, then zeros.
pub open spec fn slot_holds(d: Seq<Seq<u8>>, iv: InodeView, k: int, chunk: Seq<u32>) -> bool {
    match slot_addr(d, iv, k) {
        Some(a) => a != 0 && a < BLOCK_COUNT && spec_entries(d[a as int]) == pad_entries(chunk),
        None => false,
    }
}

/// Whether the list ends at index block number `k`: the block is absent or
/// begins with a zero.
pub open spec fn slot_ends(d: Seq<Seq<u8>>, iv: InodeView, k: int) -> bool {
    match slot_addr(d, iv, k) {
        Some(a) => a == 0 || (a < BLOCK_COUNT && spec_entries(d[a as int])[0] == 0),
        None => false,
    }
}

/// Whether the inode and its index blocks are laid out to name exactly the
/// blocks `eff`.
pub open spec fn chain_layout(d: Seq<Seq<u8>>, iv: InodeView, eff: Seq<u32>) -> bool {
    let n = eff.len() as int;
    &&& n <= MAX_BLOCKS
    &&& iv.blocks.len() == 8
    &&& forall|i: int| 0 <= i < n ==> eff[i] != 0
    &&& forall|i: int|
        0 <= i < 8 ==> iv.blocks[i] == if i < n {
            eff[i]
        } else {
            0u32
        }
    &&& forall|k: int| 0 <= k < slots_for(n) ==> #[trigger] slot_holds(d, iv, k, slot_chunk(eff, k))
    &&& ends_at_slot(n) ==> slot_ends(d, iv, slots_for(n))
}

/// A chunk without zeros, padded with zeros, reads back as the chunk.
pub proof fn lemma_pad_prefix(chunk: Seq<u32>)
    requires
        chunk.len() <= ADDR_COUNT,
        forall|i: int| 0 <= i < chunk.len() ==> chunk[i] != 0,
    ensures
        nz_prefix(pad_entries(chunk)) == chunk,
{
    lemma_nz_end(pad_entries(chunk), 0, chunk.len() as int);
    assert(pad_entries(chunk).take(chunk.len() as int) =~= chunk);
}

proof fn lemma_layout_chain_from(d: Seq<Seq<u8>>, iv: InodeView, eff: Seq<u32>, k: int)
    requires
        chain_layout(d, iv, eff),
        0 <= k <= SLOT_COUNT,
        8 + 256 * k <= eff.len(),
    ensures
        index_chain(d, iv, k) == Some(eff.subrange(8 + 256 * k, eff.len() as int)),
    decreases SLOT_COUNT - k,
{
    let n = eff.len() as int;
    let want = eff.subrange(8 + 256 * k, n);
    if k == SLOT_COUNT {
        assert(want =~= Seq::<u32>::empty());
    } else if n == 8 + 256 * k {
        assert(slots_for(n) == k);
        assert(ends_at_slot(n));
        assert(slot_ends(d, iv, k));
        let a = slot_addr(d, iv, k)->Some_0;
        if a != 0 {
            lemma_nz_end(spec_entries(d[a as int]), 0, 0);
            assert(nz_prefix(spec_entries(d[a as int])) =~= Seq::<u32>::empty());
        }
        assert(want =~= Seq::<u32>::empty());
    } else {
        assert(k < slots_for(n));
        let chunk = slot_chunk(eff, k);
        assert(slot_holds(d, iv, k, chunk));
        let a = slot_addr(d, iv, k)->Some_0;
        lemma_pad_prefix(chunk);
        if chunk.len() < ADDR_COUNT {
            assert(chunk =~= want);
        } else {
            lemma_layout_chain_from(d, iv, eff, k + 1);
            assert(chunk + eff.subrange(8 + 256 * (k + 1), n) =~= want);
        }
    }
}

/// An inode laid out to name `eff` names `eff`.
pub proof fn lemma_layout_chain(d: Seq<Seq<u8>>, iv: InodeView, eff: Seq<u32>)
    requires
        chain_layout(d, iv, eff),
    ensures
        spec_get_blocks(d, iv) == Some(eff),
{
    let n = eff.len() as int;
    if n < 8 {
        lemma_nz_end(iv.blocks, 0, n);
        assert(iv.blocks.take(n) =~= eff);
    } else {
        lemma_nz_end(iv.blocks, 0, 8);
        assert(iv.blocks.take(8) =~= eff.subrange(0, 8));
        lemma_layout_chain_from(d, iv, eff, 0);
        assert(eff.subrange(0, 8) + eff.subrange(8, n) =~= eff);
    }
}

/// Whether `x` is a data block that `bits` marks as taken.
pub open spec fn used_in(bits: Seq<bool>, x: u32) -> bool {
    is_data_addr(x) && bits[x - DATA_OFFSET]
}

/// The addresses of an inode's index blocks as they stand on disk: zero
/// where there is none.
pub open spec fn spec_slots(d: Seq<Seq<u8>>, iv: InodeView) -> Seq<u32> {
    Seq::new(
        SLOT_COUNT as nat,
        |k: int|
            match slot_addr(d, iv, k) {
                Some(a) => a,
                None => 0u32,
            },
    )
}

/// Whether the blocks `eff`, the first `kr` index blocks `slots` and, where
/// `dbl_used`, the double-indirect block `dbl` are all marked as taken in
/// `bits`, and no block is among them twice. Absent index blocks, which are
/// zero, are passed over.
pub open spec fn plan_ok(
    bits: Seq<bool>,
    eff: Seq<u32>,
    slots: Seq<u32>,
    dbl: u32,
    dbl_used: bool,
    kr: int,
) -> bool {
    &&& forall|i: int| 0 <= i < eff.len() ==> used_in(bits, #[trigger] eff[i])
    &&& forall|i: int, j: int| 0 <= i < j < eff.len() ==> eff[i] != eff[j]
    &&& forall|k: int|
        0 <= k < kr && #[trigger] slots[k] != 0 ==> used_in(bits, slots[k]) && !eff.contains(
            slots[k],
        ) && (dbl_used ==> slots[k] != dbl)
    &&& forall|k: int, j: int| 0 <= k < j < kr && slots[j] != 0 ==> slots[k] != slots[j]
    &&& dbl_used ==> used_in(bits, dbl) && !eff.contains(dbl)
}

/// Whether the blocks `eff` and the index blocks that an inode reads when
/// it names `m` blocks are marked as taken, and no block is among them
/// twice.
pub open spec fn owned_plan(d: Seq<Seq<u8>>, iv: InodeView, eff: Seq<u32>, m: int) -> bool {
    let kr = slots_read(m);
    &&& forall|k: int| 0 <= k < kr ==> slot_addr(d, iv, k) is Some
    &&& plan_ok(
        data_bits(d),
        eff,
        spec_slots(d, iv),
        iv.double_block,
        kr >= 2 && iv.double_block != 0,
        kr,
    )
}

/// Whether an inode owns the blocks `eff` and its index blocks: all of
/// them are marked as taken, and no block is among them twice. The index
/// blocks are all that the inode names, those beyond the reach of its list
/// too.
pub open spec fn owned_ok(d: Seq<Seq<u8>>, iv: InodeView, eff: Seq<u32>) -> bool {
    owned_plan(d, iv, eff, MAX_BLOCKS as int)
}

/// Whether block `b` is one of the index blocks of an inode: its
/// single-indirect or double-indirect block, or one that the latter names,
/// whether the inode's list is long enough to reach it or not.
pub open spec fn is_owned_index(d: Seq<Seq<u8>>, iv: InodeView, b: int) -> bool {
    is_index_of(d, iv, MAX_BLOCKS as int, b)
}

/// How many of the first `s` index blocks are absent.
pub open spec fn missing_slots(slots: Seq<u32>, s: int) -> nat
    decreases s,
{
    if s <= 0 {
        0
    } else {
        missing_slots(slots, s - 1) + if slots[s - 1] == 0 {
            1nat
        } else {
            0nat
        }
    }
}

/// How many blocks must be allocated for index blocks before an inode can
/// name `n` blocks.
pub open spec fn blocks_needed(d: Seq<Seq<u8>>, iv: InodeView, n: int) -> nat {
    missing_slots(spec_slots(d, iv), slots_for(n)) + if slots_for(n) >= 2 && iv.double_block
        == 0 {
        1nat
    } else {
        0nat
    }
}

/// Whether the index blocks that an inode names can be used again: all of
/// them are data blocks marked as taken, and no block is among them twice.
pub open spec fn index_ok(d: Seq<Seq<u8>>, iv: InodeView) -> bool {
    owned_ok(d, iv, Seq::empty())
}

/// The inode `iv` without its index blocks.
pub open spec fn spec_bare(iv: InodeView) -> InodeView {
    InodeView { indirect_block: 0, double_block: 0, ..iv }
}

/// The inode whose index blocks are used when `iv` is given a new list:
/// `iv` itself where its index blocks can be used again, else `iv` without
/// them.
pub open spec fn spec_base(d: Seq<Seq<u8>>, iv: InodeView) -> InodeView {
    if index_ok(d, iv) {
        iv
    } else {
        spec_bare(iv)
    }
}

/// How many index blocks are allocated when an inode is made to name `n`
/// blocks: those that it lacks where its index blocks can be used again,
/// else all that `n` blocks take.
pub open spec fn spec_index_need(d: Seq<Seq<u8>>, iv: InodeView, n: int) -> nat {
    blocks_needed(d, spec_base(d, iv), n)
}

/// Whether `b` is one of the first `k` index blocks `slots`.
pub open spec fn hits(slots: Seq<u32>, k: int, b: int) -> bool {
    exists|j: int| 0 <= j < k && #[trigger] slots[j] == b
}

/// Whether block `b` is one of the first `kr` index blocks `slots` or,
/// where more than one index block is read, the double-indirect block `dbl`.
pub open spec fn in_plan(slots: Seq<u32>, dbl: u32, kr: int, b: int) -> bool {
    b != 0 && ((kr >= 2 && dbl == b) || hits(slots, kr, b))
}

/// Whether block `b` is an index block that an inode naming `n` blocks
/// reads.
pub open spec fn is_index_of(d: Seq<Seq<u8>>, iv: InodeView, n: int, b: int) -> bool {
    in_plan(spec_slots(d, iv), iv.double_block, slots_read(n), b)
}

/// The bytes of an index block that holds `chunk`, then zeros.
pub open spec fn spec_index_block(chunk: Seq<u32>) -> Seq<u8> {
    spec_u32s_to_be(pad_entries(chunk))
}

/// An index block written for `chunk` holds `chunk`, then zeros.
pub proof fn lemma_index_block(chunk: Seq<u32>)
    requires
        chunk.len() <= ADDR_COUNT,
    ensures
        spec_index_block(chunk).len() == BLOCK_SIZE,
        spec_entries(spec_index_block(chunk)) == pad_entries(chunk),
{
    lemma_u32s_round_trip(pad_entries(chunk), Seq::empty());
    assert(spec_index_block(chunk) + Seq::<u8>::empty() =~= spec_index_block(chunk));
}

/// Writes the index block at `addr` so that it holds `src[from..to]`, then
/// zeros.
fn write_entries(disk: &mut Disk, addr: u32, src: &Vec<u32>, from: usize, to: usize)
    requires
        old(disk).wf(),
        addr < BLOCK_COUNT,
        from <= to <= src@.len(),
        to - from <= ADDR_COUNT,
    ensures
        final(disk).wf(),
        final(disk)@ == old(disk)@.update(
            addr as int,
            spec_index_block(src@.subrange(from as int, to as int)),
        ),
{
    let ghost chunk = src@.subrange(from as int, to as int);
    let ghost padded = pad_entries(chunk);
    let mut buf: Vec<u8> = Vec::with_capacity(BLOCK_SIZE as usize);
    let mut i: usize = 0;
    while i < ADDR_COUNT
        invariant
            i <= ADDR_COUNT,
            from <= to <= src@.len(),
            to - from <= ADDR_COUNT,
            chunk == src@.subrange(from as int, to as int),
            padded == pad_entries(chunk),
            buf@ == spec_u32s_to_be(padded.take(i as int)),
        decreases ADDR_COUNT - i,
    {
        let a: u32 = if i < to - from {
            src[from + i]
        } else {
            0
        };
        proof {
            lemma_u32s_push(padded.take(i as int), a);
            assert(padded.take(i as int).push(a) =~= padded.take(i + 1));
        }
        push_u32(&mut buf, a);
        i += 1;
    }
    proof {
        assert(padded.take(ADDR_COUNT as int) =~= padded);
        lemma_index_block(chunk);
        lemma_block_image_full(disk@[addr as int], buf@);
    }
    let _ = disk.write_block(addr, &buf);
}

/// The index-block addresses of `inode` as they stand on disk.
fn read_slots(disk: &Disk, inode: &Inode) -> (slots: Vec<u32>)
    requires
        disk.wf(),
    ensures
        slots@ == spec_slots(disk@, inode@),
{
    let mut slots: Vec<u32> = Vec::with_capacity(SLOT_COUNT);
    slots.push(inode.indirect_block);
    let dbl = inode.double_block;
    if dbl != 0 && dbl < BLOCK_COUNT {
        let mut table = read_entries(disk, dbl);
        slots.append(&mut table);
    } else {
        let mut k: usize = 1;
        while k < SLOT_COUNT
            invariant
                1 <= k <= SLOT_COUNT,
                slots@.len() == k,
                slots@[0] == inode.indirect_block,
                forall|j: int| 1 <= j < k ==> slots@[j] == 0,
            decreases SLOT_COUNT - k,
        {
            slots.push(0);
            k += 1;
        }
    }
    assert(slots@ =~= spec_slots(disk@, inode@));
    slots
}

/// Checks that the first `n` blocks of `blocks` and the index blocks that
/// an inode naming them reads are taken and pairwise distinct, and counts
/// the index blocks still to be allocated.
pub fn plan_slots(disk: &Disk, inode: &Inode, blocks: &Vec<u32>, n: usize, m: usize) -> (r:
    Result<(Vec<u32>, u32), InodeError>)
    requires
        disk.wf(),
        n <= blocks@.len(),
        m <= MAX_BLOCKS,
    ensures
        r is Ok <==> owned_plan(disk@, inode@, blocks@.take(n as int), m as int),
        r is Ok ==> r->Ok_0.0@ == spec_slots(disk@, inode@) && r->Ok_0.1 == blocks_needed(
            disk@,
            inode@,
            m as int,
        ),
        r is Err ==> r->Err_0 == InodeError::DiskErr(DiskError::InvalidAddr),
{
    let ghost eff = blocks@.take(n as int);
    let ghost d = disk@;
    let ghost iv = inode@;
    let ghost bits = data_bits(d);
    let mut claims = Claims::new(disk);
    let mut i: usize = 0;
    while i < n
        invariant
            i <= n <= blocks@.len(),
            eff == blocks@.take(n as int),
            bits == data_bits(d),
            d == disk@,
            iv == inode@,
            claims.wf(),
            claims.bits() == bits,
            claims.taken() == eff.take(i as int),
            forall|a: int| 0 <= a < i ==> used_in(bits, #[trigger] eff[a]),
            forall|a: int, b: int| 0 <= a < b < i ==> eff[a] != eff[b],
        decreases n - i,
    {
        let ghost before = claims.taken();
        if !claims.claim(blocks[i]) {
            proof {
                let x = eff[i as int];
                if used_in(bits, x) {
                    let a = choose|a: int| 0 <= a < before.len() && before[a] == x;
                    assert(eff[a] == eff[i as int]);
                }
                let kr0 = slots_read(m as int);
                assert(!plan_ok(
                    bits,
                    eff,
                    spec_slots(d, iv),
                    iv.double_block,
                    kr0 >= 2 && iv.double_block != 0,
                    kr0,
                ));
            }
            return Err(InodeError::DiskErr(DiskError::InvalidAddr));
        }
        proof {
            assert forall|a: int| 0 <= a < i implies eff[a] != eff[i as int] by {
                assert(before[a] == eff[a]);
            }
            assert(before.push(eff[i as int]) =~= eff.take(i + 1));
        }
        i += 1;
    }
    assert(eff.take(n as int) =~= eff);
    let s: usize = if m <= 8 {
        0
    } else {
        (m - 8 + 255) / 256
    };
    let ends: bool = m >= 8 && (m - 8) % 256 == 0 && s < SLOT_COUNT;
    let kr: usize = if ends {
        s + 1
    } else {
        s
    };
    assert(s == slots_for(m as int) && kr == slots_read(m as int));
    let slots = read_slots(disk, inode);
    let dbl = inode.double_block;
    let du: bool = kr >= 2 && dbl != 0;
    if du {
        let ghost before = claims.taken();
        if !claims.claim(dbl) {
            return Err(InodeError::DiskErr(DiskError::InvalidAddr));
        }
    }
    let ghost base = claims.taken();
    assert(forall|j: int| 0 <= j < base.len() ==> eff.contains(#[trigger] base[j]) || (du && base[j] == dbl)) by {
        assert forall|j: int| 0 <= j < base.len() implies eff.contains(#[trigger] base[j]) || (du
            && base[j] == dbl) by {
            if j < eff.len() {
                assert(eff[j] == base[j]);
            }
        }
    }
    assert(forall|a: int| 0 <= a < eff.len() ==> base.contains(#[trigger] eff[a])) by {
        assert forall|a: int| 0 <= a < eff.len() implies base.contains(#[trigger] eff[a]) by {
            assert(base[a] == eff[a]);
        }
    }
    assert(du ==> base.contains(dbl)) by {
        if du {
            assert(base[eff.len() as int] == dbl);
        }
    }
    let mut need: u32 = 0;
    let mut k: usize = 0;
    while k < kr
        invariant
            k <= kr <= SLOT_COUNT,
            s <= kr <= s + 1,
            kr == slots_read(m as int),
            s == slots_for(m as int),
            eff == blocks@.take(n as int),
            n <= blocks@.len(),
            d == disk@,
            iv == inode@,
            slots@.len() == SLOT_COUNT,
            slots@ == spec_slots(d, iv),
            dbl == iv.double_block,
            bits == data_bits(d),
            bits.len() == DATA_CAPACITY,
            claims.wf(),
            claims.bits() == bits,
            du == (kr >= 2 && dbl != 0),
            plan_ok(bits, eff, slots@, dbl, du, k as int),
            need == missing_slots(slots@, if k < s { k as int } else { s as int }),
            need <= k,
            forall|a: int| 0 <= a < eff.len() ==> claims.taken().contains(#[trigger] eff[a]),
            du ==> claims.taken().contains(dbl),
            forall|j: int| 0 <= j < k && slots@[j] != 0 ==> claims.taken().contains(#[trigger] slots@[j]),
            forall|j: int|
                0 <= j < claims.taken().len() ==> eff.contains(#[trigger] claims.taken()[j]) || (du
                    && claims.taken()[j] == dbl) || exists|m: int|
                    0 <= m < k && slots@[m] == claims.taken()[j],
        decreases kr - k,
    {
        let a = slots[k];
        let ghost before = claims.taken();
        if a != 0 {
            if !claims.claim(a) {
                proof {
                    if used_in(bits, a) {
                        let j = choose|j: int| 0 <= j < before.len() && before[j] == a;
                        assert(eff.contains(before[j]) || (du && before[j] == dbl) || exists|m: int|
                            0 <= m < k && slots@[m] == before[j]);
                        if !eff.contains(a) && !(du && a == dbl) {
                            let m = choose|m: int| 0 <= m < k && slots@[m] == a;
                            assert(spec_slots(d, iv)[m] == spec_slots(d, iv)[k as int]);
                        }
                    }
                    assert(!plan_ok(bits, eff, slots@, dbl, du, kr as int));
                }
                return Err(InodeError::DiskErr(DiskError::InvalidAddr));
            }
            proof {
                let now = claims.taken();
                assert(now[before.len() as int] == a);
                assert forall|x: u32| before.contains(x) implies now.contains(x) by {
                    let j = choose|j: int| 0 <= j < before.len() && before[j] == x;
                    assert(now[j] == x);
                }
                assert forall|j: int| 0 <= j < now.len() implies eff.contains(#[trigger] now[j])
                    || (du && now[j] == dbl) || exists|m: int|
                    0 <= m < k + 1 && slots@[m] == now[j] by {
                    if j < before.len() {
                        assert(now[j] == before[j]);
                        if !eff.contains(before[j]) && !(du && before[j] == dbl) {
                            let m = choose|m: int| 0 <= m < k && slots@[m] == before[j];
                            assert(0 <= m < k + 1 && slots@[m] == now[j]);
                        }
                    } else {
                        assert(slots@[k as int] == now[j]);
                    }
                }
                assert forall|m: int| 0 <= m < k implies slots@[m] != a by {
                    if slots@[m] != 0 {
                        assert(before.contains(slots@[m]));
                    }
                }
            }
        } else if k < s {
            need += 1;
        }
        k += 1;
    }
    if s >= 2 && dbl == 0 {
        need += 1;
    }
    Ok((slots, need))
}

/// The count of absent index blocks grows with the number looked at.
proof fn lemma_missing_mono(slots: Seq<u32>, a: int, b: int)
    requires
        0 <= a <= b,
    ensures
        missing_slots(slots, a) <= missing_slots(slots, b),
    decreases b - a,
{
    if a < b {
        lemma_missing_mono(slots, a, b - 1);
    }
}

/// Whether `x` was taken before the allocation of `fresh`, or is one of the
/// first `f` blocks of `fresh`.
spec fn known(bits0: Seq<bool>, fresh: Seq<u32>, f: int, x: u32) -> bool {
    used_in(bits0, x) || exists|j: int| 0 <= j < f && fresh[j] == x
}

/// Gives each absent index block among the first `s`, and the
/// double-indirect block where it is needed and absent, one of the blocks
/// `fresh`. Returns the double-indirect block's address.
fn assign_slots(
    slots: &mut Vec<u32>,
    dbl: u32,
    fresh: &Vec<u32>,
    s: usize,
    kr: usize,
    Ghost(bits0): Ghost<Seq<bool>>,
    Ghost(bits1): Ghost<Seq<bool>>,
    Ghost(eff): Ghost<Seq<u32>>,
) -> (new_dbl: u32)
    requires
        old(slots)@.len() == SLOT_COUNT,
        s <= kr <= SLOT_COUNT,
        bits0.len() == DATA_CAPACITY,
        bits1 == mark_all(bits0, fresh@, true),
        plan_ok(bits0, eff, old(slots)@, dbl, kr >= 2 && dbl != 0, kr as int),
        lowest_free(bits0, fresh@),
        fresh@.len() == missing_slots(old(slots)@, s as int) + if s >= 2 && dbl == 0 {
            1nat
        } else {
            0nat
        },
    ensures
        final(slots)@.len() == SLOT_COUNT,
        plan_ok(bits1, eff, final(slots)@, new_dbl, kr >= 2 && new_dbl != 0, kr as int),
        forall|k: int| 0 <= k < s ==> final(slots)@[k] != 0,
        s >= 2 ==> new_dbl != 0,
        dbl != 0 || s < 2 ==> new_dbl == dbl,
        forall|k: int|
            0 <= k < SLOT_COUNT && (old(slots)@[k] != 0 || k >= s) ==> final(slots)@[k] == old(
                slots,
            )@[k],
        forall|j: int|
            0 <= j < fresh@.len() ==> (s >= 2 && new_dbl == #[trigger] fresh@[j]) || exists|k: int|
                0 <= k < s && final(slots)@[k] == fresh@[j],
        forall|k: int|
            0 <= k < SLOT_COUNT ==> #[trigger] final(slots)@[k] == old(slots)@[k] || (is_data_addr(
                final(slots)@[k],
            ) && !bits0[final(slots)@[k] - DATA_OFFSET]),
        new_dbl == dbl || (is_data_addr(new_dbl) && !bits0[new_dbl - DATA_OFFSET]),
{
    let ghost old_slots = slots@;
    let mut f: usize = 0;
    let mut new_dbl = dbl;
    proof {
        assert forall|x: u32| used_in(bits0, x) implies used_in(bits1, x) by {}
    }
    if s >= 2 && dbl == 0 {
        new_dbl = fresh[0];
        f = 1;
        proof {
            assert(is_data_addr(fresh@[0]) && !bits0[fresh@[0] - DATA_OFFSET]);
            assert(fresh@.contains(fresh@[0]));
            assert(!eff.contains(new_dbl)) by {
                if eff.contains(new_dbl) {
                    let a = choose|a: int| 0 <= a < eff.len() && eff[a] == new_dbl;
                    assert(used_in(bits0, eff[a]));
                }
            }
        }
    }
    let ghost c: int = f as int;
    proof {
        lemma_missing_mono(old_slots, 0, s as int);
    }
    let flen: usize = fresh.len();
    let mut k: usize = 0;
    while k < s
        invariant
            k <= s <= kr <= SLOT_COUNT,
            f <= fresh@.len(),
            flen == fresh@.len(),
            slots@.len() == SLOT_COUNT,
            old_slots.len() == SLOT_COUNT,
            bits0.len() == DATA_CAPACITY,
            bits1 == mark_all(bits0, fresh@, true),
            lowest_free(bits0, fresh@),
            c == (if s >= 2 && dbl == 0 { 1int } else { 0int }),
            f == c + missing_slots(old_slots, k as int),
            fresh@.len() == c + missing_slots(old_slots, s as int),
            plan_ok(bits1, eff, slots@, new_dbl, kr >= 2 && new_dbl != 0, kr as int),
            forall|a: int| 0 <= a < eff.len() ==> used_in(bits0, #[trigger] eff[a]),
            forall|j: int| 0 <= j < kr && slots@[j] != 0 ==> known(bits0, fresh@, f as int, #[trigger] slots@[j]),
            kr >= 2 && new_dbl != 0 ==> known(bits0, fresh@, f as int, new_dbl),
            forall|j: int| 0 <= j < k ==> slots@[j] != 0,
            forall|j: int|
                0 <= j < SLOT_COUNT && (old_slots[j] != 0 || j >= k) ==> slots@[j] == old_slots[j],
            s >= 2 ==> new_dbl != 0,
            dbl != 0 || s < 2 ==> new_dbl == dbl,
            forall|j: int|
                0 <= j < f ==> (s >= 2 && new_dbl == #[trigger] fresh@[j]) || exists|m: int|
                    0 <= m < k && slots@[m] == fresh@[j],
            forall|j: int|
                0 <= j < SLOT_COUNT ==> #[trigger] slots@[j] == old_slots[j] || (is_data_addr(
                    slots@[j],
                ) && !bits0[slots@[j] - DATA_OFFSET]),
            new_dbl == dbl || (is_data_addr(new_dbl) && !bits0[new_dbl - DATA_OFFSET]),
        decreases s - k,
    {
        if slots[k] == 0 {
            proof {
                lemma_missing_mono(old_slots, k + 1, s as int);
            }
            let x = fresh[f];
            let ghost prev = slots@;
            slots[k] = x;
            proof {
                assert(is_data_addr(x) && !bits0[x - DATA_OFFSET]);
                assert(fresh@.contains(x));
                assert(used_in(bits1, x));
                assert forall|y: u32| known(bits0, fresh@, f as int, y) implies y != x by {
                    if !used_in(bits0, y) {
                        let j = choose|j: int| 0 <= j < f && fresh@[j] == y;
                        assert(fresh@[j] < fresh@[f as int]);
                    }
                }
                assert(!eff.contains(x)) by {
                    if eff.contains(x) {
                        let a = choose|a: int| 0 <= a < eff.len() && eff[a] == x;
                        assert(used_in(bits0, eff[a]));
                    }
                }
                assert forall|j: int| 0 <= j < kr && j != k && prev[j] != 0 implies prev[j]
                    != x by {
                    assert(known(bits0, fresh@, f as int, prev[j]));
                }
                assert forall|j: int| 0 <= j < kr && slots@[j] != 0 implies known(
                    bits0,
                    fresh@,
                    f + 1,
                    #[trigger] slots@[j],
                ) by {
                    if j == k {
                        assert(fresh@[f as int] == x);
                    } else {
                        assert(known(bits0, fresh@, f as int, prev[j]));
                        if !used_in(bits0, prev[j]) {
                            let m = choose|m: int| 0 <= m < f && fresh@[m] == prev[j];
                            assert(0 <= m < f + 1 && fresh@[m] == slots@[j]);
                        }
                    }
                }
                if kr >= 2 && new_dbl != 0 {
                    if !used_in(bits0, new_dbl) {
                        let m = choose|m: int| 0 <= m < f && fresh@[m] == new_dbl;
                        assert(0 <= m < f + 1 && fresh@[m] == new_dbl);
                    }
                }
                assert forall|j: int| 0 <= j < f + 1 implies (s >= 2 && new_dbl
                    == #[trigger] fresh@[j]) || exists|m: int|
                    0 <= m < k + 1 && slots@[m] == fresh@[j] by {
                    if j == f {
                        assert(slots@[k as int] == fresh@[j]);
                    } else if !(s >= 2 && new_dbl == fresh@[j]) {
                        let m = choose|m: int| 0 <= m < k && prev[m] == fresh@[j];
                        assert(slots@[m] == fresh@[j]);
                    }
                }
                assert(plan_ok(bits1, eff, slots@, new_dbl, kr >= 2 && new_dbl != 0, kr as int));
            }
            f += 1;
        } else {
            proof {
                lemma_missing_mono(old_slots, k + 1, s as int);
                assert forall|j: int| 0 <= j < f implies (s >= 2 && new_dbl
                    == #[trigger] fresh@[j]) || exists|m: int|
                    0 <= m < k + 1 && slots@[m] == fresh@[j] by {
                    if !(s >= 2 && new_dbl == fresh@[j]) {
                        let m = choose|m: int| 0 <= m < k && slots@[m] == fresh@[j];
                        assert(0 <= m < k + 1 && slots@[m] == fresh@[j]);
                    }
                }
            }
        }
        k += 1;
    }
    new_dbl
}

/// Writes the index blocks for the first `n` blocks of `blocks`: one for
/// each 256 of them after the eighth, an empty one where the list ends
/// exactly at an index block that exists, and the double-indirect block.
fn write_slots(
    disk: &mut Disk,
    slots: &Vec<u32>,
    dbl: u32,
    blocks: &Vec<u32>,
    n: usize,
    Ghost(bits): Ghost<Seq<bool>>,
)
    requires
        old(disk).wf(),
        slots@.len() == SLOT_COUNT,
        n <= blocks@.len(),
        n <= MAX_BLOCKS,
        bits.len() == DATA_CAPACITY,
        plan_ok(
            bits,
            Seq::empty(),
            slots@,
            dbl,
            slots_read(n as int) >= 2 && dbl != 0,
            slots_read(n as int),
        ),
        forall|k: int| 0 <= k < slots_for(n as int) ==> slots@[k] != 0,
    ensures
        final(disk).wf(),
        forall|k: int|
            0 <= k < slots_for(n as int) ==> final(disk)@[(#[trigger] slots@[k]) as int]
                == spec_index_block(slot_chunk(blocks@.take(n as int), k)),
        ends_at_slot(n as int) && slots@[slots_for(n as int)] != 0 ==> final(disk)@[slots@[slots_for(n as int)] as int] == spec_index_block(Seq::empty()),
        slots_read(n as int) >= 2 && dbl != 0 ==> final(disk)@[dbl as int] == spec_index_block(
            slots@.subrange(1, SLOT_COUNT as int),
        ),
        forall|b: int|
            0 <= b < BLOCK_COUNT && !in_plan(slots@, dbl, slots_read(n as int), b)
                ==> #[trigger] final(disk)@[b] == old(disk)@[b],
{
    let ghost eff = blocks@.take(n as int);
    let s: usize = if n <= 8 {
        0
    } else {
        (n - 8 + 255) / 256
    };
    let ends: bool = n >= 8 && (n - 8) % 256 == 0 && s < SLOT_COUNT;
    let kr: usize = if ends {
        s + 1
    } else {
        s
    };
    assert(s == slots_for(n as int) && kr == slots_read(n as int));
    let du: bool = kr >= 2 && dbl != 0;
    let mut k: usize = 0;
    while k < s
        invariant
            k <= s <= kr <= SLOT_COUNT,
            s == slots_for(n as int),
            disk.wf(),
            slots@.len() == SLOT_COUNT,
            n <= blocks@.len(),
            n <= MAX_BLOCKS,
            eff == blocks@.take(n as int),
            bits.len() == DATA_CAPACITY,
            plan_ok(bits, Seq::empty(), slots@, dbl, du, kr as int),
            forall|j: int| 0 <= j < s ==> slots@[j] != 0,
            forall|j: int|
                0 <= j < k ==> disk@[(#[trigger] slots@[j]) as int] == spec_index_block(
                    slot_chunk(eff, j),
                ),
            forall|b: int|
                0 <= b < BLOCK_COUNT && !hits(slots@, k as int, b) ==> #[trigger] disk@[b] == old(
                    disk,
                )@[b],
        decreases s - k,
    {
        let from: usize = 8 + 256 * k;
        let to: usize = if n < from + 256 {
            n
        } else {
            from + 256
        };
        let ghost prev = disk@;
        assert(used_in(bits, slots@[k as int]));
        write_entries(disk, slots[k], blocks, from, to);
        proof {
            assert(blocks@.subrange(from as int, to as int) =~= slot_chunk(eff, k as int));
            assert forall|b: int| 0 <= b < BLOCK_COUNT && !hits(slots@, k + 1, b) implies #[trigger] disk@[b]
                == old(disk)@[b] by {
                assert(slots@[k as int] != b);
                if hits(slots@, k as int, b) {
                    let j = choose|j: int| 0 <= j < k && slots@[j] == b;
                    assert(0 <= j < k + 1 && slots@[j] == b);
                }
            }
        }
        k += 1;
    }
    if ends && slots[s] != 0 {
        assert(used_in(bits, slots@[s as int]));
        write_entries(disk, slots[s], blocks, n, n);
        assert(blocks@.subrange(n as int, n as int) =~= Seq::<u32>::empty());
    }
    let ghost mid = disk@;
    proof {
        assert forall|b: int| 0 <= b < BLOCK_COUNT && !hits(slots@, kr as int, b) implies #[trigger] mid[b]
            == old(disk)@[b] by {
            if hits(slots@, s as int, b) {
                let j = choose|j: int| 0 <= j < s && slots@[j] == b;
                assert(0 <= j < kr && slots@[j] == b);
            }
            if ends {
                assert(slots@[s as int] != b);
            }
        }
    }
    if du {
        write_entries(disk, dbl, slots, 1, SLOT_COUNT);
        proof {
            assert forall|j: int| 0 <= j < kr implies #[trigger] slots@[j] != dbl by {}
        }
    }
}

/// A plan that holds of all index blocks holds of the first of them.
proof fn lemma_plan_mono(bits: Seq<bool>, eff: Seq<u32>, slots: Seq<u32>, dbl: u32, kr: int)
    requires
        plan_ok(bits, eff, slots, dbl, dbl != 0, SLOT_COUNT as int),
        0 <= kr <= SLOT_COUNT,
    ensures
        plan_ok(bits, eff, slots, dbl, kr >= 2 && dbl != 0, kr),
{
}

/// The index blocks that are read for a list are among all index blocks.
pub proof fn lemma_index_mono(d: Seq<Seq<u8>>, iv: InodeView, n: int, b: int)
    requires
        0 <= n <= MAX_BLOCKS,
        is_index_of(d, iv, n, b),
    ensures
        is_owned_index(d, iv, b),
{
    lemma_slots_mono(n, MAX_BLOCKS as int);
    let kr = slots_read(n);
    if hits(spec_slots(d, iv), kr, b) {
        let j = choose|j: int| 0 <= j < kr && spec_slots(d, iv)[j] == b;
        assert(0 <= j < slots_read(MAX_BLOCKS as int) && spec_slots(d, iv)[j] == b);
    }
}

/// After the index blocks of a plan were written for the list `eff`, the
/// inode that points at them names `eff`, and owns its index blocks and
/// the blocks `own` of the plan.
proof fn lemma_written_layout(
    d1: Seq<Seq<u8>>,
    d2: Seq<Seq<u8>>,
    iv2: InodeView,
    eff: Seq<u32>,
    own: Seq<u32>,
    sl: Seq<u32>,
    dbl: u32,
)
    requires
        eff.len() <= MAX_BLOCKS,
        forall|i: int| 0 <= i < eff.len() ==> eff[i] != 0,
        sl.len() == SLOT_COUNT,
        plan_ok(data_bits(d1), own, sl, dbl, dbl != 0, SLOT_COUNT as int),
        forall|k: int| 0 <= k < slots_for(eff.len() as int) ==> sl[k] != 0,
        forall|k: int| 1 <= k < SLOT_COUNT && dbl == 0 ==> sl[k] == 0,
        dbl != 0 && slots_read(eff.len() as int) < 2 ==> spec_entries(d1[dbl as int])
            == sl.subrange(1, SLOT_COUNT as int),
        iv2.blocks == Seq::new(8, |j: int| if j < eff.len() { eff[j] } else { 0u32 }),
        iv2.indirect_block == sl[0],
        iv2.double_block == dbl,
        forall|k: int|
            0 <= k < slots_for(eff.len() as int) ==> d2[(#[trigger] sl[k]) as int]
                == spec_index_block(slot_chunk(eff, k)),
        ends_at_slot(eff.len() as int) && sl[slots_for(eff.len() as int)] != 0
            ==> d2[sl[slots_for(eff.len() as int)] as int] == spec_index_block(Seq::empty()),
        slots_read(eff.len() as int) >= 2 && dbl != 0 ==> d2[dbl as int] == spec_index_block(
            sl.subrange(1, SLOT_COUNT as int),
        ),
        forall|b: int|
            0 <= b < BLOCK_COUNT && !in_plan(sl, dbl, slots_read(eff.len() as int), b)
                ==> #[trigger] d2[b] == d1[b],
    ensures
        data_bits(d2) == data_bits(d1),
        chain_layout(d2, iv2, eff),
        spec_get_blocks(d2, iv2) == Some(eff),
        spec_slots(d2, iv2) == sl,
        owned_ok(d2, iv2, own),
        forall|b: int|
            in_plan(sl, dbl, slots_read(eff.len() as int), b) <==> is_index_of(
                d2,
                iv2,
                eff.len() as int,
                b,
            ),
        forall|b: int| in_plan(sl, dbl, SLOT_COUNT as int, b) <==> is_owned_index(d2, iv2, b),
{
    let n = eff.len() as int;
    let s = slots_for(n);
    let kr = slots_read(n);
    let all = SLOT_COUNT as int;
    lemma_slots_mono(n, MAX_BLOCKS as int);
    assert(slots_read(MAX_BLOCKS as int) == all);
    let bits1 = data_bits(d1);
    assert forall|b: int| super::data::BITMAP_OFFSET <= b < DATA_OFFSET implies d2[b]
        == d1[b] by {
        if hits(sl, kr, b) {
            let j = choose|j: int| 0 <= j < kr && sl[j] == b;
            assert(used_in(bits1, sl[j]));
        }
    }
    assert(data_bits(d2) =~= bits1);
    assert forall|k: int| 0 <= k < all implies slot_addr(d2, iv2, k) == Some(sl[k]) by {
        if k >= 1 && dbl != 0 {
            assert(used_in(bits1, dbl));
            if kr >= 2 {
                lemma_index_block(sl.subrange(1, all));
                assert(pad_entries(sl.subrange(1, all)) =~= sl.subrange(1, all));
            } else {
                assert(!hits(sl, kr, dbl as int)) by {
                    if hits(sl, kr, dbl as int) {
                        let j = choose|j: int| 0 <= j < kr && sl[j] == dbl as int;
                        assert(sl[j] != 0);
                    }
                }
                assert(d2[dbl as int] == d1[dbl as int]);
            }
        }
    }
    assert forall|k: int| 0 <= k < all implies spec_slots(d2, iv2)[k] == sl[k] by {
        assert(slot_addr(d2, iv2, k) == Some(sl[k]));
    }
    assert(spec_slots(d2, iv2) =~= sl);
    assert forall|k: int| 0 <= k < s implies #[trigger] slot_holds(
        d2,
        iv2,
        k,
        slot_chunk(eff, k),
    ) by {
        assert(slot_addr(d2, iv2, k) == Some(sl[k]));
        assert(used_in(bits1, sl[k]));
        lemma_index_block(slot_chunk(eff, k));
    }
    if ends_at_slot(n) {
        assert(slot_addr(d2, iv2, s) == Some(sl[s]));
        if sl[s] != 0 {
            assert(used_in(bits1, sl[s]));
            lemma_index_block(Seq::<u32>::empty());
        }
    }
    assert(chain_layout(d2, iv2, eff));
    lemma_layout_chain(d2, iv2, eff);
}

/// A plan that holds of a list of blocks holds of the index blocks alone.
proof fn lemma_plan_bare(
    bits: Seq<bool>,
    eff: Seq<u32>,
    slots: Seq<u32>,
    dbl: u32,
    du: bool,
    kr: int,
)
    requires
        plan_ok(bits, eff, slots, dbl, du, kr),
    ensures
        plan_ok(bits, Seq::empty(), slots, dbl, du, kr),
{
    let none = Seq::<u32>::empty();
    assert forall|x: u32| !none.contains(x) by {
        if none.contains(x) {
            let i = choose|i: int| 0 <= i < none.len() && none[i] == x;
        }
    }
}

/// An inode that owns a list of blocks has index blocks that can be used
/// again, so that only those that it lacks are allocated.
pub proof fn lemma_index_ok(d: Seq<Seq<u8>>, iv: InodeView, eff: Seq<u32>)
    requires
        owned_ok(d, iv, eff),
    ensures
        index_ok(d, iv),
        spec_base(d, iv) == iv,
        forall|n: int| spec_index_need(d, iv, n) == blocks_needed(d, iv, n),
{
    let kr = slots_read(MAX_BLOCKS as int);
    lemma_plan_bare(
        data_bits(d),
        eff,
        spec_slots(d, iv),
        iv.double_block,
        kr >= 2 && iv.double_block != 0,
        kr,
    );
}

/// Where the first `s` index blocks are all there, none of them is absent.
proof fn lemma_missing_none(slots: Seq<u32>, s: int)
    requires
        forall|k: int| 0 <= k < s ==> slots[k] != 0,
    ensures
        missing_slots(slots, s) == 0,
    decreases s,
{
    if s > 0 {
        lemma_missing_none(slots, s - 1);
    }
}

/// An inode laid out to name a list of blocks has the index blocks for
/// every list that is no longer.
pub proof fn lemma_layout_no_need(d: Seq<Seq<u8>>, iv: InodeView, eff: Seq<u32>, n: int)
    requires
        chain_layout(d, iv, eff),
        0 <= n <= eff.len(),
    ensures
        blocks_needed(d, iv, n) == 0,
{
    let s = slots_for(n);
    lemma_slots_mono(n, eff.len() as int);
    let sl = spec_slots(d, iv);
    assert forall|k: int| 0 <= k < s implies sl[k] != 0 by {
        assert(slot_holds(d, iv, k, slot_chunk(eff, k)));
    }
    lemma_missing_none(sl, s);
    if s >= 2 {
        assert(slot_holds(d, iv, 1, slot_chunk(eff, 1)));
    }
}

/// At most `s` of the first `s` index blocks are absent.
proof fn lemma_missing_bound(slots: Seq<u32>, s: int)
    requires
        0 <= s,
    ensures
        missing_slots(slots, s) <= s,
    decreases s,
{
    if s > 0 {
        lemma_missing_bound(slots, s - 1);
    }
}

/// Making an inode name `n` blocks takes no more new index blocks than `n`
/// blocks take in all, and none for eight blocks or fewer.
pub proof fn law_index_need_bound(d: Seq<Seq<u8>>, iv: InodeView, n: int)
    requires
        0 <= n <= MAX_BLOCKS,
    ensures
        spec_index_need(d, iv, n) <= slots_for(n) + if slots_for(n) >= 2 {
            1int
        } else {
            0int
        },
        n <= 8 ==> spec_index_need(d, iv, n) == 0,
{
    lemma_missing_bound(spec_slots(d, spec_base(d, iv)), slots_for(n));
    assert(missing_slots(spec_slots(d, spec_base(d, iv)), 0) == 0);
}

/// Makes `inode` name the blocks of `blocks` before its first zero.
///
/// The direct slots take the first eight; index blocks take the rest, 256
/// to a block. Index blocks that the inode already has are kept and used
/// again, and those that are missing are allocated, lowest first: the
/// double-indirect block, then the others in their order. Where the index
/// blocks that the inode names are not all data blocks marked as taken, or
/// one is among them twice, none of them is written to: the inode gets new
/// ones. Nothing is written unless enough blocks are free for that.
#[verifier::rlimit(60)]
#[verifier::spinoff_prover]
pub fn update_blocks(disk: &mut Disk, inode: &mut Inode, blocks: &Vec<u32>) -> (r: Result<
    (),
    InodeError,
>)
    requires
        old(disk).wf(),
    ensures
        final(disk).wf(),
        r is Ok <==> {
            &&& blocks@.len() <= MAX_BLOCKS
            &&& spec_index_need(old(disk)@, old(inode)@, nz_prefix(blocks@).len() as int)
                <= count_false(data_bits(old(disk)@))
        },
        r is Ok ==> {
            let eff = nz_prefix(blocks@);
            let n = eff.len() as int;
            let need = spec_index_need(old(disk)@, old(inode)@, n);
            &&& chain_layout(final(disk)@, final(inode)@, eff)
            &&& spec_get_blocks(final(disk)@, final(inode)@) == Some(eff)
            &&& index_ok(final(disk)@, final(inode)@)
            &&& owned_ok(old(disk)@, old(inode)@, eff) ==> owned_ok(
                final(disk)@,
                final(inode)@,
                eff,
            )
            &&& final(inode).uid == old(inode).uid
            &&& final(inode).mode == old(inode).mode
            &&& final(inode).size == old(inode).size
            &&& final(inode).timestamp == old(inode).timestamp
            &&& forall|b: int|
                0 <= b < BLOCK_COUNT && !(super::data::BITMAP_OFFSET <= b < DATA_OFFSET)
                    && !is_index_of(final(disk)@, final(inode)@, n, b) ==> #[trigger] final(disk)@[b] == old(disk)@[b]
            &&& forall|p: int|
                0 <= p < DATA_CAPACITY && data_bits(old(disk)@)[p] ==> #[trigger] data_bits(
                    final(disk)@,
                )[p]
            &&& forall|p: int|
                0 <= p < DATA_CAPACITY && #[trigger] data_bits(final(disk)@)[p] && !data_bits(
                    old(disk)@,
                )[p] ==> is_index_of(final(disk)@, final(inode)@, n, p + DATA_OFFSET)
            &&& count_false(data_bits(final(disk)@)) + need == count_false(data_bits(old(disk)@))
            &&& need == 0 ==> data_bits(final(disk)@) == data_bits(old(disk)@)
            &&& forall|b: int| #[trigger]
                is_owned_index(final(disk)@, final(inode)@, b) ==> is_owned_index(
                    old(disk)@,
                    spec_base(old(disk)@, old(inode)@),
                    b,
                ) || (DATA_OFFSET <= b < BLOCK_COUNT && !data_bits(old(disk)@)[b - DATA_OFFSET])
            &&& need == 0 ==> forall|b: int|
                is_owned_index(final(disk)@, final(inode)@, b) <==> is_owned_index(
                    old(disk)@,
                    spec_base(old(disk)@, old(inode)@),
                    b,
                )
        },
        r is Err ==> {
            &&& final(disk)@ == old(disk)@
            &&& final(inode)@ == old(inode)@
            &&& r->Err_0 == if blocks@.len() > MAX_BLOCKS {
                InodeError::DataTooBig
            } else {
                InodeError::NoUsableBlock
            }
        },
{
    if blocks.len() > MAX_BLOCKS as usize {
        return Err(InodeError::DataTooBig);
    }
    let mut n: usize = 0;
    while n < blocks.len() && blocks[n] != 0
        invariant
            n <= blocks@.len(),
            forall|k: int| 0 <= k < n ==> blocks@[k] != 0,
        decreases blocks@.len() - n,
    {
        n += 1;
    }
    proof {
        lemma_nz_end(blocks@, 0, n as int);
    }
    let ghost eff = blocks@.take(n as int);
    let ghost d0 = disk@;
    let ghost iv0 = inode@;
    let ghost bits0 = data_bits(d0);
    let ghost none = Seq::<u32>::empty();
    assert(blocks@.take(0) =~= none);
    let (mut slots, dbl0) = match plan_slots(disk, inode, blocks, 0, MAX_BLOCKS as usize) {
        Ok(p) => (p.0, inode.double_block),
        Err(_) => {
            let bare = Inode { indirect_block: 0, double_block: 0, ..*inode };
            (read_slots(disk, &bare), 0u32)
        },
    };
    let ghost ivb = spec_base(d0, iv0);
    let ghost own = if owned_ok(d0, iv0, eff) {
        eff
    } else {
        none
    };
    proof {
        lemma_slots_mono(n as int, MAX_BLOCKS as int);
        assert(slots_read(MAX_BLOCKS as int) == SLOT_COUNT);
        assert(slots@ == spec_slots(d0, ivb) && dbl0 == ivb.double_block);
        if owned_ok(d0, iv0, eff) {
            lemma_index_ok(d0, iv0, eff);
        } else if !index_ok(d0, iv0) {
            lemma_no_index(d0, ivb);
        }
        assert(plan_ok(bits0, own, slots@, dbl0, dbl0 != 0, SLOT_COUNT as int));
    }
    let need = count_needed(&slots, dbl0, n);
    assert(need == spec_index_need(d0, iv0, n as int));
    let s: usize = if n <= 8 {
        0
    } else {
        (n - 8 + 255) / 256
    };
    let ends: bool = n >= 8 && (n - 8) % 256 == 0 && s < SLOT_COUNT;
    let kr: usize = if ends {
        s + 1
    } else {
        s
    };
    assert(s == slots_for(n as int) && kr == slots_read(n as int));
    let fresh = match alloc_blocks(disk, need) {
        Ok(v) => v,
        Err(_) => {
            return Err(InodeError::NoUsableBlock);
        },
    };
    let ghost d1 = disk@;
    let ghost bits1 = data_bits(d1);
    let ghost slots0 = slots@;
    let dbl = assign_slots(
        &mut slots,
        dbl0,
        &fresh,
        s,
        SLOT_COUNT,
        Ghost(bits0),
        Ghost(bits1),
        Ghost(own),
    );
    proof {
        lemma_plan_mono(bits1, own, slots@, dbl, kr as int);
        lemma_plan_bare(bits1, own, slots@, dbl, kr >= 2 && dbl != 0, kr as int);
    }
    write_slots(disk, &slots, dbl, blocks, n, Ghost(bits1));
    let mut i: usize = 0;
    while i < 8
        invariant
            i <= 8,
            n <= blocks@.len(),
            inode.uid == old(inode).uid,
            inode.mode == old(inode).mode,
            inode.size == old(inode).size,
            inode.timestamp == old(inode).timestamp,
            inode.indirect_block == old(inode).indirect_block,
            inode.double_block == old(inode).double_block,
            forall|j: int|
                0 <= j < i ==> inode.blocks@[j] == if j < n {
                    blocks@[j]
                } else {
                    0u32
                },
        decreases 8 - i,
    {
        inode.blocks[i] = if i < n {
            blocks[i]
        } else {
            0
        };
        i += 1;
    }
    inode.indirect_block = slots[0];
    inode.double_block = dbl;
    proof {
        let d2 = disk@;
        let iv2 = inode@;
        let sl = slots@;
        let all = SLOT_COUNT as int;
        assert(iv2.blocks =~= Seq::new(8, |j: int| if j < n { eff[j] } else { 0u32 }));
        assert forall|k: int| 1 <= k < SLOT_COUNT && dbl == 0 implies sl[k] == 0 by {
            assert(slots0[k] == spec_slots(d0, ivb)[k]);
        }
        if dbl != 0 && kr < 2 {
            assert(used_in(bits0, dbl));
            assert(d1[dbl as int] == d0[dbl as int]);
            assert forall|k: int| 1 <= k < all implies sl[k] == spec_entries(d1[dbl as int])[k
                - 1] by {
                assert(sl[k] == slots0[k]);
                assert(slots0[k] == spec_slots(d0, ivb)[k]);
            }
            assert(spec_entries(d1[dbl as int]) =~= sl.subrange(1, all));
        }
        lemma_written_layout(d1, d2, iv2, eff, own, sl, dbl);
        lemma_plan_bare(data_bits(d2), own, sl, dbl, all >= 2 && dbl != 0, all);
        if need == 0 {
            assert(bits1 =~= bits0);
            assert(fresh@.len() == 0);
            assert forall|k: int| 0 <= k < all implies sl[k] == slots0[k] by {}
            assert(sl =~= spec_slots(d0, ivb));
        }
        assert forall|b: int| #[trigger] is_owned_index(d2, iv2, b) implies is_owned_index(
            d0,
            ivb,
            b,
        ) || (DATA_OFFSET <= b < BLOCK_COUNT && !bits0[b - DATA_OFFSET]) by {
            assert(in_plan(sl, dbl, all, b));
            if hits(sl, all, b) {
                let j = choose|j: int| 0 <= j < all && sl[j] == b;
                assert(sl[j] == slots0[j] || (is_data_addr(sl[j]) && !bits0[sl[j] - DATA_OFFSET]));
                if sl[j] == slots0[j] {
                    assert(spec_slots(d0, ivb)[j] == b);
                }
            }
        }
        assert forall|p: int| 0 <= p < DATA_CAPACITY && #[trigger] bits1[p] && !bits0[p] implies is_index_of(
            d2,
            iv2,
            n as int,
            p + DATA_OFFSET,
        ) by {
            let y = (p + DATA_OFFSET) as u32;
            assert(fresh@.contains(y));
            let j = choose|j: int| 0 <= j < fresh@.len() && fresh@[j] == y;
            if !(s >= 2 && dbl == fresh@[j]) {
                let k = choose|k: int| 0 <= k < s && sl[k] == fresh@[j];
                assert(hits(sl, kr as int, y as int));
            }
            assert(in_plan(sl, dbl, kr as int, y as int));
        }
    }
    Ok(())
}

/// A list without a zero is its own nonzero prefix.
pub proof fn lemma_nz_prefix_all(s: Seq<u32>)
    requires
        forall|i: int| 0 <= i < s.len() ==> s[i] != 0,
    ensures
        nz_prefix(s) == s,
{
    lemma_nz_end(s, 0, s.len() as int);
    assert(s.take(s.len() as int) =~= s);
}

/// The index blocks of an inode that owns its blocks are data blocks that
/// are marked as taken, and none of them is among the blocks it names.
pub proof fn lemma_index_data(d: Seq<Seq<u8>>, iv: InodeView, eff: Seq<u32>)
    requires
        owned_ok(d, iv, eff),
    ensures
        forall|b: int| #[trigger]
            is_owned_index(d, iv, b) ==> DATA_OFFSET <= b < BLOCK_COUNT && used_in(
                data_bits(d),
                b as u32,
            ) && !eff.contains(b as u32),
{
    let kr = slots_read(MAX_BLOCKS as int);
    assert forall|b: int| #[trigger] is_owned_index(d, iv, b) implies DATA_OFFSET <= b
        < BLOCK_COUNT && used_in(data_bits(d), b as u32) && !eff.contains(b as u32) by {
        if hits(spec_slots(d, iv), kr, b) {
            let j = choose|j: int| 0 <= j < kr && spec_slots(d, iv)[j] == b;
            assert(used_in(data_bits(d), spec_slots(d, iv)[j]));
        }
    }
}

/// A layout stays what it is while the index blocks it reads stay what they
/// are.
pub proof fn lemma_layout_frame(d: Seq<Seq<u8>>, d2: Seq<Seq<u8>>, iv: InodeView, eff: Seq<u32>)
    requires
        chain_layout(d, iv, eff),
        forall|b: int| #[trigger]
            is_index_of(d, iv, eff.len() as int, b) ==> 0 <= b < BLOCK_COUNT && d2[b] == d[b],
    ensures
        chain_layout(d2, iv, eff),
        spec_get_blocks(d2, iv) == Some(eff),
        forall|b: int|
            is_index_of(d2, iv, eff.len() as int, b) <==> is_index_of(d, iv, eff.len() as int, b),
{
    let n = eff.len() as int;
    let s = slots_for(n);
    let kr = slots_read(n);
    assert forall|k: int| 0 <= k < kr implies slot_addr(d2, iv, k) == slot_addr(d, iv, k) by {
        if k >= 1 && iv.double_block != 0 {
            assert(is_index_of(d, iv, n, iv.double_block as int));
        }
    }
    assert forall|k: int| 0 <= k < kr implies spec_slots(d2, iv)[k] == spec_slots(d, iv)[k] by {
        assert(slot_addr(d2, iv, k) == slot_addr(d, iv, k));
    }
    assert forall|b: int|
        is_index_of(d2, iv, n, b) <==> is_index_of(d, iv, n, b) by {
        if hits(spec_slots(d, iv), kr, b) {
            let j = choose|j: int| 0 <= j < kr && spec_slots(d, iv)[j] == b;
            assert(spec_slots(d2, iv)[j] == b);
        }
        if hits(spec_slots(d2, iv), kr, b) {
            let j = choose|j: int| 0 <= j < kr && spec_slots(d2, iv)[j] == b;
            assert(spec_slots(d, iv)[j] == b);
        }
    }
    assert forall|k: int| 0 <= k < s implies #[trigger] slot_holds(d2, iv, k, slot_chunk(eff, k)) by {
        assert(slot_holds(d, iv, k, slot_chunk(eff, k)));
        let a = slot_addr(d, iv, k)->Some_0;
        assert(spec_slots(d, iv)[k] == a);
        assert(hits(spec_slots(d, iv), kr, a as int));
        assert(is_index_of(d, iv, n, a as int));
    }
    if ends_at_slot(n) {
        let a = slot_addr(d, iv, s)->Some_0;
        if a != 0 {
            assert(spec_slots(d, iv)[s] == a);
            assert(hits(spec_slots(d, iv), kr, a as int));
            assert(is_index_of(d, iv, n, a as int));
        }
    }
    lemma_layout_chain(d2, iv, eff);
}

/// The index blocks of an inode are the same after writes that leave its
/// double-indirect block alone.
pub proof fn lemma_slots_frame(d: Seq<Seq<u8>>, d2: Seq<Seq<u8>>, iv: InodeView)
    requires
        iv.double_block != 0 && iv.double_block < BLOCK_COUNT ==> d2[iv.double_block as int]
            == d[iv.double_block as int],
    ensures
        spec_slots(d2, iv) == spec_slots(d, iv),
        forall|b: int| is_owned_index(d2, iv, b) <==> is_owned_index(d, iv, b),
{
    assert(spec_slots(d2, iv) =~= spec_slots(d, iv));
}

/// An inode that owns its blocks owns them still after writes that leave
/// its index blocks alone and its blocks marked as taken.
pub proof fn lemma_owned_frame(d: Seq<Seq<u8>>, d2: Seq<Seq<u8>>, iv: InodeView, eff: Seq<u32>)
    requires
        owned_ok(d, iv, eff),
        forall|b: int| #[trigger] is_owned_index(d, iv, b) ==> d2[b] == d[b],
        forall|x: u32|
            used_in(data_bits(d), x) && (eff.contains(x) || is_owned_index(d, iv, x as int))
                ==> #[trigger] used_in(data_bits(d2), x),
    ensures
        owned_ok(d2, iv, eff),
        forall|b: int| is_owned_index(d2, iv, b) <==> is_owned_index(d, iv, b),
{
    let kr = slots_read(MAX_BLOCKS as int);
    assert(kr == SLOT_COUNT);
    let sl = spec_slots(d, iv);
    let sl2 = spec_slots(d2, iv);
    let du = kr >= 2 && iv.double_block != 0;
    lemma_index_data(d, iv, eff);
    assert forall|k: int| 0 <= k < kr implies slot_addr(d2, iv, k) == slot_addr(d, iv, k) by {
        assert(slot_addr(d, iv, k) is Some);
        if k >= 1 && iv.double_block != 0 {
            assert(is_owned_index(d, iv, iv.double_block as int));
        }
    }
    assert forall|k: int| 0 <= k < kr implies sl2[k] == sl[k] by {
        assert(slot_addr(d2, iv, k) == slot_addr(d, iv, k));
    }
    assert(sl2 =~= sl);
    assert forall|k: int| 0 <= k < kr && #[trigger] sl2[k] != 0 implies used_in(
        data_bits(d2),
        sl2[k],
    ) by {
        assert(hits(sl, kr, sl[k] as int));
        assert(is_owned_index(d, iv, sl[k] as int));
    }
    assert forall|i: int| 0 <= i < eff.len() implies used_in(data_bits(d2), #[trigger] eff[i]) by {
        assert(eff.contains(eff[i]));
        assert(used_in(data_bits(d), eff[i]));
    }
    if du {
        assert(is_owned_index(d, iv, iv.double_block as int));
    }
}

/// Index blocks that agree in their first `s` places have the same number
/// of absent blocks there.
proof fn lemma_missing_agree(a: Seq<u32>, b: Seq<u32>, s: int)
    requires
        forall|k: int| 0 <= k < s ==> a[k] == b[k],
    ensures
        missing_slots(a, s) == missing_slots(b, s),
    decreases s,
{
    if s > 0 {
        lemma_missing_agree(a, b, s - 1);
    }
}

/// An inode that owns the blocks `chain` owns `chain` followed by freshly
/// allocated blocks once these are marked as taken.
pub proof fn lemma_grow_owned(
    d0: Seq<Seq<u8>>,
    d1: Seq<Seq<u8>>,
    iv: InodeView,
    chain: Seq<u32>,
    fresh: Seq<u32>,
)
    requires
        chain.len() + fresh.len() <= MAX_BLOCKS,
        owned_ok(d0, iv, chain),
        lowest_free(data_bits(d0), fresh),
        data_bits(d1) == mark_all(data_bits(d0), fresh, true),
        same_but_data_bitmap(d1, d0),
    ensures
        owned_ok(d1, iv, chain + fresh),
        spec_slots(d1, iv) == spec_slots(d0, iv),
        forall|n: int| blocks_needed(d1, iv, n) == blocks_needed(d0, iv, n),
        forall|b: int| is_owned_index(d1, iv, b) <==> is_owned_index(d0, iv, b),
{
    let kr = slots_read(MAX_BLOCKS as int);
    assert(kr == SLOT_COUNT);
    let bits0 = data_bits(d0);
    let bits1 = data_bits(d1);
    let list = chain + fresh;
    let du = kr >= 2 && iv.double_block != 0;
    let sl0 = spec_slots(d0, iv);
    let sl1 = spec_slots(d1, iv);
    assert forall|x: u32| used_in(bits0, x) implies used_in(bits1, x) by {}
    assert forall|k: int| 0 <= k < SLOT_COUNT implies sl1[k] == sl0[k] by {
        if k >= 1 && iv.double_block != 0 {
            assert(used_in(bits0, iv.double_block));
        }
    }
    assert(sl1 =~= sl0);
    assert forall|k: int| 0 <= k < kr implies slot_addr(d1, iv, k) is Some by {
        assert(slot_addr(d0, iv, k) is Some);
    }
    assert forall|i: int| 0 <= i < list.len() implies used_in(bits1, #[trigger] list[i]) by {
        if i < chain.len() {
            assert(used_in(bits0, chain[i]));
        } else {
            let j = i - chain.len();
            assert(fresh[j] == list[i]);
            assert(fresh.contains(list[i]));
        }
    }
    assert forall|i: int, j: int| 0 <= i < j < list.len() implies list[i] != list[j] by {
        if j >= chain.len() && i < chain.len() {
            assert(used_in(bits0, chain[i]));
            assert(!bits0[fresh[j - chain.len()] - DATA_OFFSET]);
        } else if i >= chain.len() {
            assert(fresh[i - chain.len()] < fresh[j - chain.len()]);
        }
    }
    assert forall|x: u32| list.contains(x) implies chain.contains(x) || (is_data_addr(x)
        && !bits0[x - DATA_OFFSET]) by {
        let i = choose|i: int| 0 <= i < list.len() && list[i] == x;
        if i < chain.len() {
            assert(chain[i] == x);
        } else {
            assert(fresh[i - chain.len()] == x);
        }
    }
    assert forall|k: int| 0 <= k < kr && #[trigger] sl1[k] != 0 implies used_in(bits1, sl1[k])
        && !list.contains(sl1[k]) && (du ==> sl1[k] != iv.double_block) by {
        assert(sl0[k] != 0);
        assert(used_in(bits0, sl0[k]));
    }
    assert forall|k: int, j: int| 0 <= k < j < kr && sl1[j] != 0 implies sl1[k] != sl1[j] by {
        assert(sl0[j] != 0);
    }
    if du {
        assert(used_in(bits0, iv.double_block));
    }
}

/// The number of index blocks read does not shrink as the list grows.
pub proof fn lemma_slots_mono(a: int, b: int)
    requires
        0 <= a <= b <= MAX_BLOCKS,
    ensures
        slots_read(a) <= slots_read(b) <= SLOT_COUNT,
        slots_for(a) <= slots_for(b) <= SLOT_COUNT,
        slots_for(a) <= slots_read(a),
        slots_read(MAX_BLOCKS as int) == SLOT_COUNT,
{
}

/// An inode that owns a list of blocks owns the front of the list.
pub proof fn lemma_owned_mono(d: Seq<Seq<u8>>, iv: InodeView, chain: Seq<u32>, keep: int)
    requires
        owned_ok(d, iv, chain),
        0 <= keep <= chain.len(),
    ensures
        owned_ok(d, iv, chain.take(keep)),
{
    let eff = chain.take(keep);
    let bits = data_bits(d);
    assert forall|i: int| 0 <= i < eff.len() implies used_in(bits, #[trigger] eff[i]) by {
        assert(used_in(bits, chain[i]));
    }
    assert forall|x: u32| eff.contains(x) implies chain.contains(x) by {
        let i = choose|i: int| 0 <= i < eff.len() && eff[i] == x;
        assert(chain[i] == x);
    }
}

/// The number of blocks to allocate for the index blocks of `n` blocks,
/// counted from the index blocks `slots` and the double-indirect block.
pub fn count_needed(slots: &Vec<u32>, dbl: u32, n: usize) -> (need: u32)
    requires
        slots@.len() == SLOT_COUNT,
        n <= MAX_BLOCKS,
    ensures
        need == missing_slots(slots@, slots_for(n as int)) + if slots_for(n as int) >= 2 && dbl
            == 0 {
            1nat
        } else {
            0nat
        },
        need <= SLOT_COUNT + 1,
{
    let s: usize = if n <= 8 {
        0
    } else {
        (n - 8 + 255) / 256
    };
    let mut need: u32 = 0;
    let mut k: usize = 0;
    while k < s
        invariant
            k <= s <= SLOT_COUNT,
            slots@.len() == SLOT_COUNT,
            need == missing_slots(slots@, k as int),
            need <= k,
        decreases s - k,
    {
        if slots[k] == 0 {
            need += 1;
        }
        k += 1;
    }
    if s >= 2 && dbl == 0 {
        need += 1;
    }
    need
}

} // verus!
