//! The data-block allocator: a bitmap of 16 blocks, one bit for each block
//! from `DATA_OFFSET` to the end of the image.

use vstd::prelude::*;
use crate::sedes::{Deserialize, Serialize};
use super::bitmap::{
    all_true, Bitmap, bits_of_bytes, BLOCK_BITS, count_false, lemma_count_false_update,
    lemma_words_round_trip,
};
use super::disk::{
    BLOCK_COUNT, BLOCK_SIZE, Disk, DiskError, lemma_block_image_full, lemma_read_blocks,
    read_blocks,
};

verus! {

/// Number of blocks that hold the data bitmap.
pub const BITMAP_BLOCK: u32 = 16;

/// First block of the data bitmap.
pub const BITMAP_OFFSET: u32 = 1 + 1 + 256;

/// First data block.
pub const DATA_OFFSET: u32 = BITMAP_OFFSET + BITMAP_BLOCK;

/// Number of data blocks.
pub const DATA_CAPACITY: u32 = BLOCK_COUNT - DATA_OFFSET;

#[derive(Debug, Clone, Copy, PartialEq, Eq, Structural)]
pub enum DataError {
    /// Fewer blocks are free than were asked for.
    InsufficientUsableBlocks,
    /// An address outside the data blocks.
    InvalidAddr,
    DiskErr(DiskError),
}

/// The data bitmap: bit `p` says whether block `DATA_OFFSET + p` is taken.
pub open spec fn data_bits(d: Seq<Seq<u8>>) -> Seq<bool> {
    Seq::new(
        DATA_CAPACITY as nat,
        |p: int| bits_of_bytes(d[BITMAP_OFFSET + p / BLOCK_BITS as int])[p % BLOCK_BITS as int],
    )
}

/// Whether `addr` names a data block.
pub open spec fn is_data_addr(addr: u32) -> bool {
    DATA_OFFSET <= addr < BLOCK_COUNT
}

/// `bits` with the bit of every block of `addrs` set to `v`.
pub open spec fn mark_all(bits: Seq<bool>, addrs: Seq<u32>, v: bool) -> Seq<bool> {
    Seq::new(
        bits.len(),
        |p: int|
            if addrs.contains((p + DATA_OFFSET) as u32) {
                v
            } else {
                bits[p]
            },
    )
}

/// Whether no block but those of the data bitmap differs between `a` and `b`.
pub open spec fn same_but_data_bitmap(a: Seq<Seq<u8>>, b: Seq<Seq<u8>>) -> bool {
    forall|k: int|
        0 <= k < BLOCK_COUNT && !(BITMAP_OFFSET <= k < DATA_OFFSET) ==> #[trigger] a[k] == b[k]
}

/// Whether `v` holds the `v.len()` lowest free blocks of `bits`, lowest
/// first.
pub open spec fn lowest_free(bits: Seq<bool>, v: Seq<u32>) -> bool {
    &&& forall|i: int| 0 <= i < v.len() ==> is_data_addr(#[trigger] v[i]) && !bits[v[i] - DATA_OFFSET]
    &&& forall|i: int, j: int| 0 <= i < j < v.len() ==> v[i] < v[j]
    &&& forall|i: int, q: int|
        0 <= i < v.len() && 0 <= q < v[i] - DATA_OFFSET ==> #[trigger] bits[q] || #[trigger] v.take(
            i,
        ).contains((q + DATA_OFFSET) as u32)
}

/// Where every bit is set, none is clear.
pub proof fn lemma_all_true_count(s: Seq<bool>)
    requires
        all_true(s),
    ensures
        count_false(s) == 0,
    decreases s.len(),
{
    if s.len() > 0 {
        lemma_all_true_count(s.drop_last());
    }
}

/// Reads the data bitmap from its blocks.
pub fn get_bitmap(disk: &Disk) -> (bitmap: Bitmap)
    requires
        disk.wf(),
    ensures
        bitmap.wf(),
        bitmap@ == data_bits(disk@),
        bitmap.maps().len() == BITMAP_BLOCK,
{
    let mut addrs: Vec<u32> = Vec::new();
    let mut a: u32 = BITMAP_OFFSET;
    while a < DATA_OFFSET
        invariant
            BITMAP_OFFSET <= a <= DATA_OFFSET,
            addrs@.len() == a - BITMAP_OFFSET,
            forall|i: int| 0 <= i < addrs@.len() ==> addrs@[i] == BITMAP_OFFSET + i,
        decreases DATA_OFFSET - a,
    {
        addrs.push(a);
        a += 1;
    }
    let mut data = match read_blocks(disk, &addrs) {
        Ok(d) => d,
        Err(_) => Vec::new(),
    };
    proof {
        lemma_read_blocks(disk@, addrs@);
        assert(data@.len() == 16 * BLOCK_SIZE);
    }
    let ghost buf = data@;
    let mut bitmap = match Bitmap::deserialize(&mut data) {
        Ok(b) => b,
        Err(_) => Bitmap::empty(),
    };
    proof {
        bitmap.lemma_view();
    }
    let _ = bitmap.set_capacity(DATA_CAPACITY);
    proof {
        bitmap.lemma_view();
        assert forall|p: int| 0 <= p < DATA_CAPACITY implies bitmap@[p] == data_bits(disk@)[p] by {
            let b = p / BLOCK_BITS as int;
            bitmap.maps()[b].lemma_view();
            assert(buf.subrange(b * BLOCK_SIZE, b * BLOCK_SIZE + BLOCK_SIZE) =~= disk@[BITMAP_OFFSET
                + b]) by {
                assert forall|k: int| 0 <= k < BLOCK_SIZE implies buf[b * BLOCK_SIZE + k]
                    == #[trigger] disk@[BITMAP_OFFSET + b][k] by {
                    let kk = b * BLOCK_SIZE + k;
                    assert(kk / BLOCK_SIZE as int == b);
                    assert(kk % BLOCK_SIZE as int == k);
                }
            }
        }
        assert(bitmap@ =~= data_bits(disk@));
    }
    bitmap
}

/// Writes the data bitmap to its blocks.
fn save_bitmap(disk: &mut Disk, bitmap: &Bitmap)
    requires
        old(disk).wf(),
        bitmap.wf(),
        bitmap.maps().len() == BITMAP_BLOCK,
        bitmap@.len() == DATA_CAPACITY,
    ensures
        final(disk).wf(),
        data_bits(final(disk)@) == bitmap@,
        same_but_data_bitmap(final(disk)@, old(disk)@),
{
    let mut i: u32 = 0;
    while i < BITMAP_BLOCK
        invariant
            i <= BITMAP_BLOCK,
            disk.wf(),
            bitmap.wf(),
            bitmap.maps().len() == BITMAP_BLOCK,
            same_but_data_bitmap(disk@, old(disk)@),
            forall|b: int|
                0 <= b < i ==> bits_of_bytes(#[trigger] disk@[BITMAP_OFFSET + b])
                    == bitmap.maps()[b]@,
        decreases BITMAP_BLOCK - i,
    {
        let bytes = match bitmap.get_serialized_map(i as usize) {
            Ok(b) => b,
            Err(_) => Vec::new(),
        };
        proof {
            let m = bitmap.maps()[i as int];
            m.lemma_view();
            lemma_words_round_trip(m.words());
            lemma_block_image_full(disk@[BITMAP_OFFSET + i], bytes@);
        }
        let _ = disk.write_block(BITMAP_OFFSET + i, &bytes);
        i += 1;
    }
    proof {
        bitmap.lemma_view();
        assert forall|p: int| 0 <= p < DATA_CAPACITY implies data_bits(disk@)[p] == bitmap@[p] by {
            let b = p / BLOCK_BITS as int;
            assert(bits_of_bytes(disk@[BITMAP_OFFSET + b]) == bitmap.maps()[b]@);
        }
        assert(data_bits(disk@) =~= bitmap@);
    }
}

/// Takes the `count` lowest free data blocks, or none if fewer are free.
pub fn alloc_blocks(disk: &mut Disk, count: u32) -> (r: Result<Vec<u32>, DataError>)
    requires
        old(disk).wf(),
    ensures
        final(disk).wf(),
        same_but_data_bitmap(final(disk)@, old(disk)@),
        r is Ok <==> count <= count_false(data_bits(old(disk)@)),
        r is Ok ==> ({
            let v = r->Ok_0@;
            &&& v.len() == count
            &&& lowest_free(data_bits(old(disk)@), v)
            &&& data_bits(final(disk)@) == mark_all(data_bits(old(disk)@), v, true)
            &&& count_false(data_bits(final(disk)@)) + count == count_false(data_bits(old(disk)@))
        }),
        r is Err ==> r->Err_0 == DataError::InsufficientUsableBlocks && final(disk)@ == old(
            disk,
        )@,
{
    let mut bitmap = get_bitmap(disk);
    if bitmap.rest_usable() < count {
        return Err(DataError::InsufficientUsableBlocks);
    }
    let ghost bits = data_bits(disk@);
    let mut v: Vec<u32> = Vec::new();
    let mut i: u32 = 0;
    while i < count
        invariant
            i <= count,
            bitmap.wf(),
            bitmap.maps().len() == BITMAP_BLOCK,
            bits.len() == DATA_CAPACITY,
            count <= count_false(bits),
            v@.len() == i,
            lowest_free(bits, v@),
            bitmap@ == mark_all(bits, v@, true),
            count_false(bitmap@) + i == count_false(bits),
        decreases count - i,
    {
        let ghost cur = bitmap@;
        let ghost before = v@;
        let addr = match bitmap.next_usable() {
            Some(p) => p,
            None => {
                proof {
                    lemma_all_true_count(bitmap@);
                }
                assert(false);
                return Err(DataError::InsufficientUsableBlocks);
            },
        };
        let _ = bitmap.set_true(addr);
        v.push(addr + DATA_OFFSET);
        i += 1;
        proof {
            let x = (addr + DATA_OFFSET) as u32;
            lemma_count_false_update(cur, addr as int, true);
            assert(v@.take(i - 1) =~= before);
            assert(!before.contains(x));
            assert forall|k: int| 0 <= k < before.len() implies before[k] < x by {
                let q = before[k] - DATA_OFFSET;
                assert(cur[q]);
                if q >= addr {
                    assert(before.contains((q + DATA_OFFSET) as u32));
                    assert(!bits[q]);
                    assert(q != addr);
                    assert(before.take(k) =~= v@.take(k));
                    assert(bits[addr as int] || before.take(k).contains(x));
                    assert(false);
                }
            }
            assert forall|k: int, q: int|
                0 <= k < v@.len() && 0 <= q < v@[k] - DATA_OFFSET implies #[trigger] bits[q]
                || #[trigger] v@.take(k).contains((q + DATA_OFFSET) as u32) by {
                if k < before.len() {
                    assert(v@.take(k) =~= before.take(k));
                } else {
                    assert(cur[q]);
                }
            }
            assert forall|p: int| 0 <= p < bits.len() implies bitmap@[p] == mark_all(
                bits,
                v@,
                true,
            )[p] by {
                let y = (p + DATA_OFFSET) as u32;
                if p == addr {
                    assert(v@[i - 1] == y);
                } else if before.contains(y) {
                    let k = choose|k: int| 0 <= k < before.len() && before[k] == y;
                    assert(v@[k] == y);
                } else if v@.contains(y) {
                    let k = choose|k: int| 0 <= k < v@.len() && v@[k] == y;
                    assert(k < before.len());
                    assert(before[k] == y);
                }
            }
            assert(bitmap@ =~= mark_all(bits, v@, true));
        }
    }
    save_bitmap(disk, &bitmap);
    Ok(v)
}

/// Marks the blocks of `addrs` as free, or none of them if one is no data
/// block.
pub fn free_blocks(disk: &mut Disk, addrs: &Vec<u32>) -> (r: Result<(), DataError>)
    requires
        old(disk).wf(),
    ensures
        final(disk).wf(),
        same_but_data_bitmap(final(disk)@, old(disk)@),
        r is Ok <==> forall|i: int| 0 <= i < addrs@.len() ==> is_data_addr(#[trigger] addrs@[i]),
        r is Ok ==> data_bits(final(disk)@) == mark_all(data_bits(old(disk)@), addrs@, false),
        r is Err ==> r->Err_0 == DataError::InvalidAddr && final(disk)@ == old(disk)@,
{
    let mut bitmap = get_bitmap(disk);
    let ghost bits = data_bits(disk@);
    let mut i: usize = 0;
    while i < addrs.len()
        invariant
            i <= addrs@.len(),
            disk.wf(),
            disk@ == old(disk)@,
            bitmap.wf(),
            bitmap.maps().len() == BITMAP_BLOCK,
            bits.len() == DATA_CAPACITY,
            forall|k: int| 0 <= k < i ==> is_data_addr(#[trigger] addrs@[k]),
            bitmap@ == mark_all(bits, addrs@.take(i as int), false),
        decreases addrs@.len() - i,
    {
        let addr = addrs[i];
        if addr < DATA_OFFSET || addr >= BLOCK_COUNT {
            return Err(DataError::InvalidAddr);
        }
        let ghost cur = bitmap@;
        let _ = bitmap.set_false(addr - DATA_OFFSET);
        i += 1;
        proof {
            let before = addrs@.take(i - 1);
            let now = addrs@.take(i as int);
            assert forall|p: int| 0 <= p < bits.len() implies bitmap@[p] == mark_all(
                bits,
                now,
                false,
            )[p] by {
                let y = (p + DATA_OFFSET) as u32;
                if p == addr - DATA_OFFSET {
                    assert(now[i - 1] == y);
                } else if before.contains(y) {
                    let k = choose|k: int| 0 <= k < before.len() && before[k] == y;
                    assert(now[k] == y);
                } else if now.contains(y) {
                    let k = choose|k: int| 0 <= k < now.len() && now[k] == y;
                    assert(before[k] == y);
                }
            }
            assert(bitmap@ =~= mark_all(bits, now, false));
        }
    }
    assert(addrs@.take(i as int) =~= addrs@);
    save_bitmap(disk, &bitmap);
    Ok(())
}

/// Marking one more block is marking the others and then that one.
pub proof fn lemma_mark_all_push(bits: Seq<bool>, addrs: Seq<u32>, x: u32, v: bool)
    requires
        bits.len() == DATA_CAPACITY,
        is_data_addr(x),
    ensures
        mark_all(bits, addrs.push(x), v) == mark_all(bits, addrs, v).update(x - DATA_OFFSET, v),
{
    let a = mark_all(bits, addrs.push(x), v);
    let b = mark_all(bits, addrs, v).update(x - DATA_OFFSET, v);
    assert forall|p: int| 0 <= p < bits.len() implies a[p] == b[p] by {
        let y = (p + DATA_OFFSET) as u32;
        if p == x - DATA_OFFSET {
            assert(addrs.push(x)[addrs.len() as int] == y);
        } else if addrs.contains(y) {
            let k = choose|k: int| 0 <= k < addrs.len() && addrs[k] == y;
            assert(addrs.push(x)[k] == y);
        } else if addrs.push(x).contains(y) {
            let k = choose|k: int| 0 <= k < addrs.push(x).len() && addrs.push(x)[k] == y;
            assert(addrs[k] == y);
        }
    }
    assert(a =~= b);
}

/// A record of the data blocks already accounted for while a structure is
/// walked: a block can be claimed once, and only if the bitmap marks it as
/// taken.
pub struct Claims {
    scratch: Bitmap,
    bits: Ghost<Seq<bool>>,
    taken: Ghost<Seq<u32>>,
}

impl Claims {
    /// The data bitmap that the claims are held against.
    pub closed spec fn bits(&self) -> Seq<bool> {
        self.bits@
    }

    /// The blocks claimed so far, in order.
    pub closed spec fn taken(&self) -> Seq<u32> {
        self.taken@
    }

    pub closed spec fn wf(&self) -> bool {
        &&& self.scratch.wf()
        &&& self.scratch.maps().len() == BITMAP_BLOCK
        &&& self.bits@.len() == DATA_CAPACITY
        &&& self.scratch@ == mark_all(self.bits@, self.taken@, false)
    }

    /// No claims yet, against the bitmap of `disk`.
    pub fn new(disk: &Disk) -> (c: Self)
        requires
            disk.wf(),
        ensures
            c.wf(),
            c.bits() == data_bits(disk@),
            c.taken() == Seq::<u32>::empty(),
    {
        let scratch = get_bitmap(disk);
        let c = Claims { scratch, bits: Ghost(data_bits(disk@)), taken: Ghost(Seq::empty()) };
        assert(c.scratch@ =~= mark_all(c.bits@, c.taken@, false));
        c
    }

    /// Claims `addr` if it is a data block that the bitmap marks as taken
    /// and that was not claimed before.
    pub fn claim(&mut self, addr: u32) -> (ok: bool)
        requires
            old(self).wf(),
        ensures
            final(self).wf(),
            final(self).bits() == old(self).bits(),
            ok <==> is_data_addr(addr) && old(self).bits()[addr - DATA_OFFSET] && !old(
                self,
            ).taken().contains(addr),
            ok ==> final(self).taken() == old(self).taken().push(addr),
            !ok ==> final(self).taken() == old(self).taken(),
    {
        if addr < DATA_OFFSET || addr >= BLOCK_COUNT {
            return false;
        }
        let pos = addr - DATA_OFFSET;
        proof {
            self.scratch.lemma_view();
        }
        let set = match self.scratch.check(pos) {
            Ok(b) => b,
            Err(_) => false,
        };
        if !set {
            return false;
        }
        let _ = self.scratch.set_false(pos);
        proof {
            lemma_mark_all_push(self.bits@, self.taken@, addr, false);
            self.taken = Ghost(self.taken@.push(addr));
        }
        true
    }
}

} // verus!
