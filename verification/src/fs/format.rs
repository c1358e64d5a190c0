//! Laying out a fresh image and taking over an existing one.

use vstd::prelude::*;
use crate::sedes::Serialize;
use super::bitmap::{all_true, bits_of_bytes, BLOCK_BITS, count_false, is_first_false};
use super::data::{data_bits, DATA_CAPACITY, DATA_OFFSET};
use super::dir::{
    dir_add_entry, dir_len, lemma_written_payload, spec_dir_image, spec_dir_payload, spec_is_dir,
    spec_parse_entries, spec_read_dir, string_from_utf8,
};
use super::disk::{BLOCK_COUNT, BLOCK_SIZE, blocks_wf, Disk, DISK_SIZE, zero_block};
use super::file::{
    blocks_for, file_ok, lemma_written_bits, spec_file_raw, spec_write_ok, spec_written,
};
use super::inode::{
    alloc_inode, DIR_MODE, inode_bits, inode_block, INODE_COUNT, InodeView, lemma_new_inode_chain,
    lemma_new_modes, lemma_put_inode, missing_slots, slots_for, slots_read, spec_get_blocks,
    spec_inode_at, spec_new_inode, spec_put_inode,
};
use super::path::{dot, dotdot, FsError, seg_end, SLASH, spec_path_to_inode};
use super::superblock::{
    has_magic, LEADING_MAGIC, spec_parse_superblock, spec_superblock, Superblock, SUPERBLOCK_SIZE,
    TRAILING_MAGIC,
};
use super::utils::spec_u64_from_be;

verus! {

/// The path `/..`.
pub open spec fn root_parent_path() -> Seq<u8> {
    seq![SLASH, 46u8, 46u8]
}

/// Whether `d` is a freshly laid out image: block 0 holds the superblock
/// of this layout between the magic bytes; inode 0, the root, is a
/// directory of uid 0 that holds `.` for itself and nothing else, its
/// payload being that record and the record of zeros; the root is in
/// order; `/..` names the root; no inode but the root is taken, and no
/// data block but the first, which is the root's.
pub open spec fn spec_fresh(d: Seq<Seq<u8>>) -> bool {
    &&& has_magic(d[0])
    &&& spec_parse_superblock(d[0]) == spec_superblock()
    &&& spec_inode_at(d, 0).uid == 0
    &&& spec_inode_at(d, 0).mode == DIR_MODE
    &&& spec_inode_at(d, 0).size == 0
    &&& spec_is_dir(spec_inode_at(d, 0))
    &&& spec_read_dir(d, 0) == Some(seq![(0u32, dot())])
    &&& spec_dir_payload(d, 0, seq![(0u32, dot())])
    &&& file_ok(d, 0)
    &&& spec_path_to_inode(d, root_parent_path()) == Ok::<u32, FsError>(0u32)
    &&& spec_path_to_inode(d, seq![SLASH]) == Ok::<u32, FsError>(0u32)
    &&& inode_bits(d) == Seq::new(BLOCK_BITS as nat, |p: int| p == 0)
    &&& spec_get_blocks(d, spec_inode_at(d, 0)) == Some(seq![DATA_OFFSET])
    &&& data_bits(d) == Seq::new(DATA_CAPACITY as nat, |p: int| p == 0)
}

/// A block of zeros holds a bitmap with every bit clear.
pub proof fn lemma_zero_bits()
    ensures
        bits_of_bytes(zero_block()) == Seq::new(BLOCK_BITS as nat, |p: int| false),
{
    assert(forall|j: u64| j < 64 ==> (#[trigger] ((0u64 >> j) & 1)) == 0) by (bit_vector);
    let bits = bits_of_bytes(zero_block());
    assert(bits.len() == BLOCK_BITS);
    assert forall|p: int| 0 <= p < BLOCK_BITS implies bits[p] == false by {
        let w = p / 64;
        let word = spec_u64_from_be(zero_block().subrange(8 * w, 8 * w + 8));
        assert(word == 0);
        let j = (p % 64) as u64;
        assert(((0u64 >> j) & 1) == 0);
    }
    assert(bits =~= Seq::new(BLOCK_BITS as nat, |p: int| false));
}

/// Where every bit is clear, as many bits are clear as there are bits.
pub proof fn lemma_count_all_false(s: Seq<bool>)
    requires
        forall|p: int| 0 <= p < s.len() ==> !s[p],
    ensures
        count_false(s) == s.len(),
    decreases s.len(),
{
    if s.len() > 0 {
        lemma_count_all_false(s.drop_last());
    }
}

/// An image of zeros but for its first block has every inode and every
/// data block free.
proof fn lemma_blank(d: Seq<Seq<u8>>)
    requires
        blocks_wf(d),
        forall|a: int| 1 <= a < BLOCK_COUNT ==> #[trigger] d[a] == zero_block(),
    ensures
        inode_bits(d) == Seq::new(BLOCK_BITS as nat, |p: int| false),
        is_first_false(inode_bits(d), 0),
        !all_true(inode_bits(d).take(INODE_COUNT as int)),
        count_false(data_bits(d)) == DATA_CAPACITY,
        data_bits(d) == Seq::new(DATA_CAPACITY as nat, |p: int| false),
{
    lemma_zero_bits();
    assert(d[1] == zero_block());
    assert(!inode_bits(d).take(INODE_COUNT as int)[0]);
    assert forall|p: int| 0 <= p < DATA_CAPACITY implies !data_bits(d)[p] by {
        assert(d[super::data::BITMAP_OFFSET + p / BLOCK_BITS as int] == zero_block());
    }
    lemma_count_all_false(data_bits(d));
    assert(data_bits(d) =~= Seq::new(DATA_CAPACITY as nat, |p: int| false));
}

/// What the first entry makes of a root directory without blocks.
proof fn lemma_root_ready(d2: Seq<Seq<u8>>, iv: InodeView)
    requires
        blocks_wf(d2),
        iv == spec_new_inode(0, true, iv.timestamp),
        spec_inode_at(d2, 0) == iv,
        count_false(data_bits(d2)) >= 1,
    ensures
        spec_read_dir(d2, 0) == Some(Seq::<(u32, Seq<u8>)>::empty()),
        spec_write_ok(d2, 0, dir_len(1)),
{
    reveal(spec_write_ok);
    lemma_new_modes();
    lemma_new_inode_chain(d2, iv);
    assert(super::disk::addrs_valid(Seq::<u32>::empty()));
    let raw = spec_file_raw(d2, 0)->Some_0;
    assert(raw =~= Seq::<u8>::empty());
    assert(spec_parse_entries(raw, 0) =~= Seq::<(u32, Seq<u8>)>::empty());
    assert(super::dir::ENTRY_SIZE == 64 && BLOCK_SIZE == 1024);
    assert(blocks_for(dir_len(1)) == 1);
    assert(slots_for(1) == 0 && slots_read(1) == 0);
    assert(missing_slots(super::inode::spec_slots(d2, iv), 0) == 0);
    assert(Seq::<u32>::empty().take(0) =~= Seq::<u32>::empty());
}

/// What stands in a fresh image once the root holds `.`.
proof fn lemma_fresh(d1: Seq<Seq<u8>>, d2: Seq<Seq<u8>>, d3: Seq<Seq<u8>>, iv: InodeView)
    requires
        blocks_wf(d1),
        blocks_wf(d2),
        blocks_wf(d3),
        has_magic(d1[0]),
        spec_parse_superblock(d1[0]) == spec_superblock(),
        inode_bits(d1) == Seq::new(BLOCK_BITS as nat, |p: int| false),
        iv == spec_new_inode(0, true, iv.timestamp),
        d2 == spec_put_inode(
            d1.update(super::inode::BITMAP_OFFSET as int, d2[super::inode::BITMAP_OFFSET as int]),
            0,
            iv,
        ),
        inode_bits(d2) == inode_bits(d1).update(0, true),
        spec_written(d2, d3, 0, spec_dir_image(seq![(0u32, dot())]).push(0u8)),
        spec_read_dir(d3, 0) == Some(seq![(0u32, dot())]),
        data_bits(d1) == Seq::new(DATA_CAPACITY as nat, |p: int| false),
    ensures
        spec_fresh(d3),
{
    let data = spec_dir_image(seq![(0u32, dot())]).push(0u8);
    super::dir::lemma_entries_bytes(seq![(0u32, dot())]);
    assert(super::dir::ENTRY_SIZE == 64 && BLOCK_SIZE == 1024);
    assert(blocks_for(data.len() as int) == 1);
    lemma_written_bits(d2, d3, 0, data);
    lemma_written_payload(d2, d3, 0, seq![(0u32, dot())]);
    reveal(spec_written);
    lemma_new_modes();
    let mid = d1.update(super::inode::BITMAP_OFFSET as int, d2[super::inode::BITMAP_OFFSET as int]);
    lemma_put_inode(mid, 0, iv);
    assert(inode_block(0) == 2);
    assert(d3[0] == d2[0]);
    assert(d3[1] == d2[1]);
    assert(inode_bits(d3) =~= Seq::new(BLOCK_BITS as nat, |p: int| p == 0));
    let p = root_parent_path();
    assert(p != seq![SLASH]) by {
        assert(p.len() == 3);
    }
    assert(super::path::trim_slash(p) == p);
    reveal_with_fuel(seg_end, 4);
    assert(seg_end(p, 1) == 3);
    assert(p.subrange(1, 3) =~= dotdot());
    let es = seq![(0u32, dot())];
    reveal_with_fuel(super::path::spec_lookup, 3);
    assert(dot() != dotdot()) by {
        assert(dot().len() != dotdot().len());
    }
    assert(super::path::spec_lookup(es, dotdot(), 0) is None);
    assert(spec_inode_at(d2, 0) == iv);
    lemma_new_inode_chain(d2, iv);
    let c = spec_get_blocks(d3, spec_inode_at(d3, 0))->Some_0;
    let first = c.subrange(0, 1);
    assert(first =~= c);
    assert(data_bits(d2) =~= data_bits(d1));
    let p0 = c[0] - DATA_OFFSET;
    assert(p0 == 0) by {
        if p0 > 0 {
            assert(data_bits(d2)[0] || first.take(0).contains((0 + DATA_OFFSET) as u32));
        }
    }
    assert(c =~= seq![DATA_OFFSET]);
    assert forall|p: int| 0 <= p < DATA_CAPACITY implies data_bits(d3)[p] == (p == 0) by {
        if p == 0 {
            assert(c[0] == (p + DATA_OFFSET) as u32);
        } else if c.contains((p + DATA_OFFSET) as u32) {
            let i = choose|i: int| 0 <= i < c.len() && c[i] == (p + DATA_OFFSET) as u32;
        }
    }
    assert(data_bits(d3) =~= Seq::new(DATA_CAPACITY as nat, |p: int| p == 0));
}

/// A fresh image: the superblock in block 0, both bitmaps clear but for
/// the root's inode and block, and a root directory of uid 0 that holds
/// `.` for itself.
pub fn create_disk() -> (disk: Disk)
    ensures
        disk.wf(),
        spec_fresh(disk@),
{
    let mut disk = Disk::new();
    let buf = Superblock::new().serialize();
    proof {
        spec_superblock().lemma_round_trip(
            seq![0u8] + zero_block().subrange(SUPERBLOCK_SIZE as int + 1, BLOCK_SIZE as int),
        );
    }
    let _ = disk.write_block(0, &buf);
    let ghost d1 = disk@;
    proof {
        assert(d1[0] =~= spec_superblock().spec_serialize() + (seq![0u8] + zero_block().subrange(
            SUPERBLOCK_SIZE as int + 1,
            BLOCK_SIZE as int,
        )));
        assert(spec_superblock().spec_serialize()[29] == TRAILING_MAGIC);
        lemma_blank(d1);
    }
    let r = alloc_inode(&mut disk, 0, true);
    assert(r is Ok);
    let ghost d2 = disk@;
    let ghost iv = r->Ok_0.1@;
    proof {
        let mid = d1.update(super::inode::BITMAP_OFFSET as int, d2[super::inode::BITMAP_OFFSET as int]);
        lemma_put_inode(mid, 0, iv);
        assert(data_bits(d2) =~= data_bits(d1));
        lemma_root_ready(d2, iv);
        super::node::lemma_dot_names();
    }
    let mut b: Vec<u8> = Vec::new();
    b.push(46u8);
    assert(b@ =~= dot());
    let name = match string_from_utf8(b) {
        Some(s) => s,
        None => String::new(),
    };
    let a = dir_add_entry(&mut disk, 0, 0, name.as_str());
    assert(a is Ok);
    proof {
        assert(Seq::<(u32, Seq<u8>)>::empty().push((0u32, dot())) =~= seq![(0u32, dot())]);
        lemma_fresh(d1, d2, disk@, iv);
    }
    disk
}

/// Whether the bytes `image` hold an image that was laid out: they are as
/// many as a disk takes and begin with the magic byte.
pub open spec fn spec_laid_out(image: Seq<u8>) -> bool {
    image.len() >= DISK_SIZE && image[0] == LEADING_MAGIC
}

/// Whether `image` holds an image that was laid out, so that it is taken
/// over as it is.
pub fn is_laid_out(image: &[u8]) -> (r: bool)
    ensures
        r == spec_laid_out(image@),
{
    image.len() >= DISK_SIZE as usize && image[0] == LEADING_MAGIC
}

/// Takes over the image `image`, or lays out a fresh one where `image` is
/// shorter than a disk or does not begin with the magic byte.
pub fn init_disk(image: Vec<u8>) -> (disk: Disk)
    ensures
        disk.wf(),
        spec_laid_out(image@) ==> disk.bytes() == image@.take(DISK_SIZE as int) && disk@
            == super::disk::blocks_of(image@.take(DISK_SIZE as int)),
        !spec_laid_out(image@) ==> spec_fresh(disk@),
{
    match Disk::from_bytes(image) {
        Some(d) => {
            proof {
                d.lemma_first_byte();
            }
            if d.first_byte() == LEADING_MAGIC {
                d
            } else {
                create_disk()
            }
        },
        None => create_disk(),
    }
}

} // verus!
