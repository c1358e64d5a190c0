//! What holds of the file system whatever is done with it.

use vstd::prelude::*;
use vstd::utf8::valid_utf8;
use super::data::{data_bits, DATA_CAPACITY, DATA_OFFSET, is_data_addr, lowest_free, mark_all};
use super::dir::{
    dir_len, ENTRY_SIZE, first_for, lemma_entries_bytes, lemma_entry_round_trip, lemma_terminator,
    names_valid, record_at, spec_dir_image, spec_dir_payload, spec_entries_bytes, spec_read_dir,
    terminator, valid_name,
};
use super::disk::{BLOCK_COUNT, BLOCK_SIZE, blocks_wf, lemma_read_blocks};
use super::file::{
    apart, blocks_for, eof_from, file_block, file_ok, last_block_start, lemma_eof_from,
    lemma_file_blocks, lemma_file_stays_ok, lemma_written_apart, same_file, spec_file_raw,
    spec_read_file, spec_write_ok, spec_written,
};
use super::format::spec_fresh;
use super::inode::{
    blocks_needed, chain_layout, inode_bits, INODE_COUNT, lemma_get_blocks_len,
    lemma_layout_no_need, MAX_BLOCKS, MAX_SIZE, owned_ok, spec_get_blocks, spec_inode_at,
};
use super::node::{
    last_slash, lemma_last_slash, spec_create_ok, spec_created, spec_made, spec_name, spec_parent,
    spec_unmade,
};
use super::path::{
    dot, dotdot, FsError, lemma_seg_end, lemma_trailing_slash, seg_end, SLASH, spec_lookup,
    spec_path_to_inode, spec_step, spec_walk, trim_slash,
};
use super::table::{counts_positive, FdTableEntry, spec_can_open, spec_drop, spec_open};
use super::utils::{
    lemma_u16_be_bytes_round_trip, lemma_u16_be_round_trip, lemma_u32_be_bytes_round_trip,
    lemma_u32_be_round_trip, lemma_u64_be_bytes_round_trip, lemma_u64_be_round_trip,
    spec_u16_from_be, spec_u16_to_be, spec_u32_from_be, spec_u32_to_be, spec_u64_from_be,
    spec_u64_to_be,
};

verus! {

/// The blocks that the allocator hands out are marked as taken afterwards
/// and were free before; the blocks that are given back are marked as free
/// afterwards.
pub proof fn law_bitmap_follows_allocation(bits: Seq<bool>, v: Seq<u32>)
    requires
        bits.len() == DATA_CAPACITY,
        forall|i: int| 0 <= i < v.len() ==> is_data_addr(#[trigger] v[i]),
    ensures
        forall|i: int| 0 <= i < v.len() ==> mark_all(bits, v, true)[(#[trigger] v[i]) - DATA_OFFSET],
        forall|i: int|
            0 <= i < v.len() ==> !mark_all(bits, v, false)[(#[trigger] v[i]) - DATA_OFFSET],
        forall|p: int|
            0 <= p < DATA_CAPACITY && !v.contains((p + DATA_OFFSET) as u32) ==> mark_all(
                bits,
                v,
                true,
            )[p] == bits[p] && mark_all(bits, v, false)[p] == bits[p],
        lowest_free(bits, v) ==> mark_all(mark_all(bits, v, true), v, false) == bits,
{
    assert forall|i: int| 0 <= i < v.len() implies mark_all(bits, v, true)[(#[trigger] v[i])
        - DATA_OFFSET] && !mark_all(bits, v, false)[v[i] - DATA_OFFSET] by {
        assert(v.contains(v[i]));
    }
    if lowest_free(bits, v) {
        let back = mark_all(mark_all(bits, v, true), v, false);
        assert forall|p: int| 0 <= p < DATA_CAPACITY implies back[p] == bits[p] by {
            let y = (p + DATA_OFFSET) as u32;
            if v.contains(y) {
                let i = choose|i: int| 0 <= i < v.len() && v[i] == y;
                assert(!bits[v[i] - DATA_OFFSET]);
            }
        }
        assert(back =~= bits);
    }
}

/// The payload of a directory that holds entries that can be stored is
/// their records and one record of zeros at its end: no record before the
/// last is all zeros.
pub proof fn law_directory_terminator(es: Seq<(u32, Seq<u8>)>)
    requires
        names_valid(es),
    ensures
        spec_dir_image(es).len() == (es.len() + 1) * ENTRY_SIZE,
        record_at(spec_dir_image(es), es.len() as int) == terminator(),
        forall|i: int|
            0 <= i < es.len() ==> #[trigger] record_at(spec_dir_image(es), i) != terminator(),
{
    let image = spec_dir_image(es);
    lemma_entries_bytes(es);
    assert(record_at(image, es.len() as int) =~= terminator());
    assert forall|i: int| 0 <= i < es.len() implies #[trigger] record_at(image, i)
        != terminator() by {
        assert(record_at(image, i) =~= record_at(spec_entries_bytes(es), i));
        lemma_entry_round_trip(es[i]);
        lemma_terminator();
    }
}

/// The table after the events `ev` on the inode `i`: `true` opens a
/// descriptor of the kind `is_dir`, `false` drops one.
pub open spec fn spec_run(t: Map<u32, FdTableEntry>, i: u32, is_dir: bool, ev: Seq<bool>) -> Map<
    u32,
    FdTableEntry,
>
    decreases ev.len(),
{
    if ev.len() == 0 {
        t
    } else if ev.last() {
        spec_open(spec_run(t, i, is_dir, ev.drop_last()), i, is_dir)
    } else {
        spec_drop(spec_run(t, i, is_dir, ev.drop_last()), i)
    }
}

/// The number of descriptors that are live after the events `ev`, none
/// being live at first: an opening adds one, a drop takes one away if
/// there is one.
pub open spec fn spec_live(ev: Seq<bool>) -> int
    decreases ev.len(),
{
    if ev.len() == 0 {
        0
    } else if ev.last() {
        spec_live(ev.drop_last()) + 1
    } else if spec_live(ev.drop_last()) > 0 {
        spec_live(ev.drop_last()) - 1
    } else {
        0
    }
}

/// The count of an inode in the table is the number of its live
/// descriptors, and the inode has an entry only while one is live; no
/// other entry changes, and no entry counts zero.
pub proof fn law_refcount(t: Map<u32, FdTableEntry>, i: u32, is_dir: bool, ev: Seq<bool>)
    requires
        counts_positive(t),
        !t.contains_key(i),
        ev.len() < u32::MAX,
    ensures
        0 <= spec_live(ev) <= ev.len(),
        counts_positive(spec_run(t, i, is_dir, ev)),
        spec_run(t, i, is_dir, ev).contains_key(i) <==> spec_live(ev) > 0,
        spec_live(ev) > 0 ==> spec_run(t, i, is_dir, ev)[i].count == spec_live(ev) && spec_run(
            t,
            i,
            is_dir,
            ev,
        )[i].is_dir == is_dir,
        forall|k: u32|
            k != i ==> spec_run(t, i, is_dir, ev).contains_key(k) == #[trigger] t.contains_key(k)
                && (t.contains_key(k) ==> spec_run(t, i, is_dir, ev)[k] == t[k]),
    decreases ev.len(),
{
    if ev.len() > 0 {
        law_refcount(t, i, is_dir, ev.drop_last());
        let prev = spec_run(t, i, is_dir, ev.drop_last());
        let cur = spec_run(t, i, is_dir, ev);
        assert forall|k: u32| k != i implies cur.contains_key(k) == #[trigger] t.contains_key(k)
            && (t.contains_key(k) ==> cur[k] == t[k]) by {
            assert(prev.contains_key(k) == t.contains_key(k));
        }
    }
}

/// Opening a descriptor and dropping it leaves the table as it was.
pub proof fn law_open_then_drop(t: Map<u32, FdTableEntry>, i: u32, is_dir: bool)
    requires
        counts_positive(t),
        spec_can_open(t, i, is_dir),
    ensures
        spec_drop(spec_open(t, i, is_dir), i) == t,
{
    assert(spec_drop(spec_open(t, i, is_dir), i) =~= t);
}

/// What can be read from a file is at most as long as the blocks that one
/// inode can name.
pub proof fn law_size_ceiling(d: Seq<Seq<u8>>, a: int)
    requires
        blocks_wf(d),
        spec_read_file(d, a) is Some,
    ensures
        spec_read_file(d, a)->Some_0.len() <= MAX_SIZE,
        spec_file_raw(d, a)->Some_0.len() <= MAX_SIZE,
{
    let iv = spec_inode_at(d, a);
    assert(iv.blocks.len() == 8);
    lemma_get_blocks_len(d, iv);
    let chain = spec_get_blocks(d, iv)->Some_0;
    lemma_read_blocks(d, chain);
    let raw = spec_file_raw(d, a)->Some_0;
    assert(MAX_SIZE == 1024 * MAX_BLOCKS && BLOCK_SIZE == 1024);
    lemma_eof_bound(raw, last_block_start(raw));
}

/// The search for a NUL ends within the bytes.
pub proof fn lemma_eof_bound(raw: Seq<u8>, i: int)
    requires
        0 <= i <= raw.len(),
    ensures
        i <= eof_from(raw, i) <= raw.len(),
        forall|k: int| i <= k < eof_from(raw, i) ==> raw[k] != 0,
        eof_from(raw, i) < raw.len() ==> raw[eof_from(raw, i)] == 0,
    decreases raw.len() - i,
{
    if i < raw.len() && raw[i] != 0 {
        lemma_eof_bound(raw, i + 1);
    }
}

/// What is read back from a file after `b` was written to it is `b` up to
/// the first NUL that `b` holds in what went to the last block, and all of
/// `b` where it holds none there.
pub proof fn law_write_then_read(d0: Seq<Seq<u8>>, d: Seq<Seq<u8>>, a: int, b: Seq<u8>)
    requires
        spec_written(d0, d, a, b.push(0u8)),
    ensures
        spec_read_file(d, a) == Some(
            b.take(eof_from(b, BLOCK_SIZE * (blocks_for(b.len() as int + 1) - 1))),
        ),
        (forall|i: int| 0 <= i < b.len() ==> b[i] != 0) ==> spec_read_file(d, a) == Some(b),
{
    reveal(spec_written);
    let data = b.push(0u8);
    let raw = spec_file_raw(d, a)->Some_0;
    let nb = blocks_for(data.len() as int);
    let start = BLOCK_SIZE * (nb - 1);
    assert(BLOCK_SIZE == 1024);
    assert(raw.len() == nb * 1024);
    assert(last_block_start(raw) == start);
    assert(0 <= start <= b.len());
    lemma_eof_bound(b, start);
    let e = eof_from(b, start);
    assert forall|k: int| 0 <= k < data.len() implies raw[k] == data[k] by {
        assert(raw.take(data.len() as int)[k] == data[k]);
    }
    assert forall|k: int| start <= k < e implies raw[k] != 0 by {
        assert(raw[k] == data[k]);
        assert(data[k] == b[k]);
    }
    assert(raw[e] == 0) by {
        assert(raw[e] == data[e]);
        if e < b.len() {
            assert(data[e] == b[e]);
        }
    }
    lemma_eof_from(raw, start, e);
    assert(raw.take(e) =~= b.take(e));
    if forall|i: int| 0 <= i < b.len() ==> b[i] != 0 {
        assert(e == b.len());
        assert(b.take(e) =~= b);
    }
}

/// The root path names inode 0, and a path that does not end in a slash
/// names what it names with a slash put at its end.
pub proof fn law_path_idempotence(d: Seq<Seq<u8>>, p: Seq<u8>)
    requires
        p.len() > 0,
        p.last() != SLASH,
    ensures
        spec_path_to_inode(d, seq![SLASH]) == Ok::<u32, FsError>(0u32),
        spec_path_to_inode(d, p.push(SLASH)) == spec_path_to_inode(d, p),
{
    lemma_trailing_slash(d, p);
}

/// After something was made in a directory and removed again, the inode
/// bitmap and the directory's entries are as they were, and its payload is
/// their records and the record of zeros, where the directory held no
/// entry for the inode before. The data bitmap and the directory's chain
/// are as they were too where the directory took as many blocks as its
/// entries need and got no new index block in between.
pub proof fn law_make_then_remove(
    d0: Seq<Seq<u8>>,
    d1: Seq<Seq<u8>>,
    d2: Seq<Seq<u8>>,
    parent: u32,
    es: Seq<(u32, Seq<u8>)>,
    name: Seq<u8>,
    uid: u8,
    is_dir: bool,
    ino: u32,
    chain: Seq<u32>,
)
    requires
        spec_read_dir(d0, parent as int) == Some(es),
        spec_made(d0, d1, parent, es, name, uid, is_dir, ino),
        spec_unmade(d1, d2, parent, es.push((ino, name)), ino, chain),
        first_for(es, ino) == es.len(),
    ensures
        inode_bits(d2) == inode_bits(d0),
        spec_read_dir(d2, parent as int) == spec_read_dir(d0, parent as int),
        spec_dir_payload(d2, parent as int, es),
        ({
            let before = spec_get_blocks(d0, spec_inode_at(d0, parent as int))->Some_0;
            let between = spec_get_blocks(d1, spec_inode_at(d1, parent as int))->Some_0;
            let after = spec_get_blocks(d2, spec_inode_at(d2, parent as int))->Some_0;
            before.len() == blocks_for(dir_len(es.len() as int)) && blocks_needed(
                d0,
                spec_inode_at(d0, parent as int),
                blocks_for(dir_len(es.len() as int + 1)),
            ) == 0 && chain == spec_get_blocks(d1, spec_inode_at(d1, ino as int))->Some_0
                ==> data_bits(d2) == data_bits(d0) && after == before && between.len()
                == blocks_for(dir_len(es.len() as int + 1))
        }),
{
    let es1 = es.push((ino, name));
    lemma_first_for_push(es, ino, name);
    assert(es1.remove(es.len() as int) =~= es);
    assert(inode_bits(d2) =~= inode_bits(d0));
    let pc0 = spec_get_blocks(d0, spec_inode_at(d0, parent as int))->Some_0;
    let pc1 = spec_get_blocks(d1, spec_inode_at(d1, parent as int))->Some_0;
    let pc2 = spec_get_blocks(d2, spec_inode_at(d2, parent as int))->Some_0;
    assert(ENTRY_SIZE == 64 && BLOCK_SIZE == 1024);
    assert(es1.len() == es.len() + 1);
    assert(pc1.len() == blocks_for(dir_len(es.len() as int + 1)));
    assert(pc2.len() == blocks_for(dir_len(es.len() as int)));
    if pc0.len() == blocks_for(dir_len(es.len() as int)) && blocks_needed(
        d0,
        spec_inode_at(d0, parent as int),
        pc1.len() as int,
    ) == 0 && chain == spec_get_blocks(d1, spec_inode_at(d1, ino as int))->Some_0 {
        assert(pc0.len() == pc2.len() && pc0.len() <= pc1.len());
        assert(blocks_needed(d1, spec_inode_at(d1, parent as int), pc2.len() as int) == 0) by {
            reveal(file_ok);
            lemma_layout_no_need(d1, spec_inode_at(d1, parent as int), pc1, pc2.len() as int);
        }
        let bits0 = data_bits(d0);
        let added = pc1.subrange(pc0.len() as int, pc1.len() as int);
        let left = pc1.subrange(pc2.len() as int, pc1.len() as int);
        assert(left == added);
        let bits1 = data_bits(d1);
        let bits2 = data_bits(d2);
        assert(pc2 =~= pc0);
        assert forall|p: int| 0 <= p < DATA_CAPACITY implies bits2[p] == bits0[p] by {
            let y = (p + DATA_OFFSET) as u32;
            if added.contains(y) {
                let i = choose|i: int| 0 <= i < added.len() && added[i] == y;
                assert(!bits0[added[i] - DATA_OFFSET]);
            }
            if chain.contains(y) {
                let i = choose|i: int| 0 <= i < chain.len() && chain[i] == y;
                assert(!mark_all(bits0, added, true)[chain[i] - DATA_OFFSET]);
            }
        }
        assert(bits2 =~= bits0);
    }
}

/// In a fresh image a file or a directory can be made in the root under
/// every name that can be stored, has no slash in it and is neither `.`
/// nor `..`.
pub proof fn law_fresh_takes_a_name(d: Seq<Seq<u8>>, name: Seq<u8>)
    requires
        spec_fresh(d),
        valid_name(name),
        valid_utf8(name),
        forall|i: int| 0 <= i < name.len() ==> name[i] != SLASH,
        name != dot(),
        name != dotdot(),
    ensures
        spec_create_ok(d, seq![SLASH] + name),
        spec_parent(seq![SLASH] + name) == seq![SLASH],
        spec_name(seq![SLASH] + name) == name,
{
    let p = seq![SLASH] + name;
    let es = seq![(0u32, dot())];
    lemma_last_slash(p, 0);
    assert(spec_name(p) =~= name);
    assert(p != seq![SLASH]) by {
        assert(p.len() >= 2);
    }
    assert(p.last() == name.last());
    assert(trim_slash(p) == p);
    lemma_seg_end(p, 1, p.len() as int);
    assert(p.subrange(1, p.len() as int) =~= name);
    reveal_with_fuel(spec_lookup, 3);
    assert(spec_lookup(es, name, 0) is None);
    assert(spec_step(es, name, 0) is None);
    assert(spec_path_to_inode(d, p) is Err);
    let bits = inode_bits(d);
    assert(!bits.take(INODE_COUNT as int)[1]);
    assert(bits[0]);
    assert(super::dir::ENTRY_SIZE == 64 && BLOCK_SIZE == 1024);
    assert(blocks_for(dir_len(2)) == 1);
    let piv = spec_inode_at(d, 0);
    let chain = spec_get_blocks(d, piv)->Some_0;
    assert(chain.len() == 1);
    assert(owned_ok(d, piv, chain) && chain_layout(d, piv, chain)) by {
        reveal(file_ok);
    }
    lemma_layout_no_need(d, piv, chain, 1);
    let none = Seq::new(DATA_CAPACITY as nat, |q: int| false);
    super::format::lemma_count_all_false(none);
    super::bitmap::lemma_count_false_update(none, 0, true);
    assert(data_bits(d) =~= none.update(0, true));
}

/// Where no entry is for the inode, the first entry for it after one was
/// added at the end is the one added.
proof fn lemma_first_for_push(es: Seq<(u32, Seq<u8>)>, ino: u32, name: Seq<u8>)
    requires
        first_for(es, ino) == es.len(),
    ensures
        first_for(es.push((ino, name)), ino) == es.len(),
    decreases es.len(),
{
    let es1 = es.push((ino, name));
    if es.len() > 0 {
        assert(es1.drop_first() =~= es.drop_first().push((ino, name)));
        assert(es1[0] == es[0]);
        if es[0].0 != ino {
            lemma_first_for_push(es.drop_first(), ino, name);
        }
    } else {
        assert(es1.drop_first() =~= Seq::<(u32, Seq<u8>)>::empty());
    }
}

/// A write to a file leaves every other file that is in order and has no
/// block in common with it as it was: in order, with the same blocks and
/// the same bytes, and still without a block in common with the file
/// written, which is in order too.
pub proof fn law_write_keeps_apart(d0: Seq<Seq<u8>>, d: Seq<Seq<u8>>, a: int, b: int, data: Seq<u8>)
    requires
        super::disk::blocks_wf(d0),
        super::disk::blocks_wf(d),
        0 <= a < INODE_COUNT,
        0 <= b < INODE_COUNT,
        a != b,
        spec_write_ok(d0, a, data.len() as int),
        spec_written(d0, d, a, data),
        file_ok(d0, b),
        apart(d0, a, b),
    ensures
        file_ok(d, a),
        file_ok(d, b),
        spec_file_raw(d, b) == spec_file_raw(d0, b),
        spec_get_blocks(d, spec_inode_at(d, b)) == spec_get_blocks(d0, spec_inode_at(d0, b)),
        apart(d, a, b),
        same_file(d0, d, b),
{
    reveal(apart);
    lemma_file_blocks(d0, b);
    assert(spec_get_blocks(d0, spec_inode_at(d0, a)) is Some) by {
        reveal(spec_write_ok);
    }
    lemma_written_apart(d0, d, a, data, b);
    lemma_file_stays_ok(d0, d, b);
    assert(file_ok(d, a)) by {
        reveal(spec_written);
    }
    assert forall|x: int| 0 <= x < BLOCK_COUNT implies !(#[trigger] file_block(d, a, x)
        && file_block(d, b, x)) by {
        if file_block(d, b, x) {
            assert(file_block(d0, b, x));
        }
    }
}

/// The blocks that a write gives to a file were the file's own before or
/// free, and the blocks that it marks as free were blocks of the file's
/// chain.
pub proof fn law_write_takes_free_blocks(d0: Seq<Seq<u8>>, d: Seq<Seq<u8>>, a: int, data: Seq<u8>)
    requires
        spec_written(d0, d, a, data),
    ensures
        forall|x: int|
            0 <= x < BLOCK_COUNT && #[trigger] file_block(d, a, x) ==> file_block(d0, a, x) || (
            DATA_OFFSET <= x && !data_bits(d0)[x - DATA_OFFSET]),
        forall|p: int|
            0 <= p < DATA_CAPACITY && data_bits(d0)[p] && !(#[trigger] data_bits(d)[p])
                ==> file_block(d0, a, p + DATA_OFFSET),
{
    reveal(spec_written);
    let chain = spec_get_blocks(d0, spec_inode_at(d0, a))->Some_0;
    assert forall|p: int|
        0 <= p < DATA_CAPACITY && data_bits(d0)[p] && !(#[trigger] data_bits(d)[p]) implies file_block(
        d0,
        a,
        p + DATA_OFFSET,
    ) by {
        assert(chain.contains((p + DATA_OFFSET) as u32));
    }
}

/// Numbers and their big-endian bytes stand for each other: decoding the
/// bytes of a number gives the number, and encoding the number that two,
/// four or eight bytes stand for gives those bytes.
pub proof fn law_big_endian(a: u16, b: u32, c: u64, two: Seq<u8>, four: Seq<u8>, eight: Seq<u8>)
    requires
        two.len() == 2,
        four.len() == 4,
        eight.len() == 8,
    ensures
        spec_u16_from_be(spec_u16_to_be(a)) == a,
        spec_u32_from_be(spec_u32_to_be(b)) == b,
        spec_u64_from_be(spec_u64_to_be(c)) == c,
        spec_u16_to_be(spec_u16_from_be(two)) == two,
        spec_u32_to_be(spec_u32_from_be(four)) == four,
        spec_u64_to_be(spec_u64_from_be(eight)) == eight,
{
    lemma_u16_be_round_trip(a);
    lemma_u32_be_round_trip(b);
    lemma_u64_be_round_trip(c);
    lemma_u16_be_bytes_round_trip(two);
    lemma_u32_be_bytes_round_trip(four);
    lemma_u64_be_bytes_round_trip(eight);
}

/// The last slash of a path is a slash, and no slash follows it.
pub proof fn lemma_last_slash_is_last(p: Seq<u8>)
    requires
        last_slash(p) >= 0,
    ensures
        last_slash(p) < p.len(),
        p[last_slash(p)] == SLASH,
        forall|j: int| last_slash(p) < j < p.len() ==> p[j] != SLASH,
    decreases p.len(),
{
    if p.len() > 0 && p.last() != SLASH {
        lemma_last_slash_is_last(p.drop_last());
        assert forall|j: int| last_slash(p) < j < p.len() implies p[j] != SLASH by {
            if j < p.len() - 1 {
                assert(p.drop_last()[j] == p[j]);
            }
        }
    }
}

/// A segment ends in a path where it ends in what is left of the path in
/// front of a later slash.
proof fn lemma_seg_end_prefix(p: Seq<u8>, k: int, i: int)
    requires
        0 <= i <= k < p.len(),
        p[k] == SLASH,
    ensures
        seg_end(p, i) == seg_end(p.take(k), i),
        i <= seg_end(p, i) <= k,
    decreases k - i,
{
    if i < k && p[i] != SLASH {
        lemma_seg_end_prefix(p, k, i + 1);
    }
}

/// The first entry of a name stays the first when an entry is added at the
/// end; and where no entry has the name, an entry added under it is the
/// first.
proof fn lemma_lookup_push(es: Seq<(u32, Seq<u8>)>, e: (u32, Seq<u8>), name: Seq<u8>, i: int)
    requires
        0 <= i <= es.len(),
    ensures
        spec_lookup(es, name, i) is Some ==> spec_lookup(es.push(e), name, i) == spec_lookup(
            es,
            name,
            i,
        ),
        spec_lookup(es, name, i) is None ==> spec_lookup(es.push(e), name, i) == if e.1 == name {
            Some(e.0)
        } else {
            None::<u32>
        },
    decreases es.len() - i,
{
    let es1 = es.push(e);
    if i < es.len() {
        assert(es1[i] == es[i]);
        if es[i].1 != name {
            lemma_lookup_push(es, e, name, i + 1);
        }
    } else {
        assert(es1[i] == e);
        assert(spec_lookup(es1, name, i + 1) is None);
    }
}

/// A file that is what it was is the directory it was.
proof fn lemma_same_dir(d0: Seq<Seq<u8>>, d: Seq<Seq<u8>>, a: int)
    requires
        same_file(d0, d, a),
    ensures
        spec_read_dir(d, a) == spec_read_dir(d0, a),
{
    reveal(same_file);
}

/// The walk of a path whose front leads to a directory, into which the
/// path's last name was entered, leads to what was entered, where the
/// directories on the way are what they were.
proof fn lemma_walk_created(
    d0: Seq<Seq<u8>>,
    d: Seq<Seq<u8>>,
    p: Seq<u8>,
    k: int,
    i: int,
    a: u32,
    parent: u32,
    ino: u32,
    es: Seq<(u32, Seq<u8>)>,
)
    requires
        1 <= i <= k < p.len() - 1,
        p[k] == SLASH,
        forall|j: int| k < j < p.len() ==> p[j] != SLASH,
        spec_walk(d0, p.take(k), i, a) == Ok::<u32, FsError>(parent),
        spec_read_dir(d0, parent as int) == Some(es),
        spec_step(es, p.subrange(k + 1, p.len() as int), parent) is None,
        spec_read_dir(d, parent as int) == Some(
            es.push((ino, p.subrange(k + 1, p.len() as int))),
        ),
        forall|b: int|
            b != parent && #[trigger] spec_read_dir(d0, b) is Some ==> spec_read_dir(d, b)
                == spec_read_dir(d0, b),
    ensures
        spec_walk(d, p, i, a) == Ok::<u32, FsError>(ino),
    decreases k - i,
{
    let q = p.take(k);
    let name = p.subrange(k + 1, p.len() as int);
    let e = (ino, name);
    lemma_seg_end_prefix(p, k, i);
    let j = seg_end(p, i);
    let seg = q.subrange(i, j);
    assert(seg =~= p.subrange(i, j));
    let esa = spec_read_dir(d0, a as int)->Some_0;
    let child = spec_step(esa, seg, a)->Some_0;
    assert(spec_step(spec_read_dir(d, a as int)->Some_0, seg, a) == Some(child)) by {
        if a == parent {
            lemma_lookup_push(es, e, seg, 0);
            lemma_lookup_push(es, e, name, 0);
        }
    }
    assert(spec_walk(d0, q, i, a) is Ok);
    assert(j > i);
    assert(spec_read_dir(d0, a as int) is Some);
    assert(spec_read_dir(d, a as int) is Some);
    assert(spec_walk(d, p, i, a) == spec_walk(d, p, j + 1, child));
    if j >= k {
        assert(child == parent);
        lemma_seg_end(p, k + 1, p.len() as int);
        lemma_lookup_push(es, e, name, 0);
        assert(spec_lookup(es, name, 0) is None);
        assert(spec_step(es.push(e), name, parent) == Some(ino));
        assert(spec_walk(d, p, k + 1, parent) == Ok::<u32, FsError>(ino));
    } else {
        lemma_walk_created(d0, d, p, k, j + 1, child, parent, ino, es);
    }
}

/// The path at which something was made names it afterwards, where every
/// other directory was in order before and had no block in common with the
/// directory in which it was made, and none of them was at the inode that
/// was taken.
pub proof fn law_created_path_resolves(
    d0: Seq<Seq<u8>>,
    d: Seq<Seq<u8>>,
    p: Seq<u8>,
    uid: u8,
    is_dir: bool,
    ino: u32,
)
    requires
        spec_create_ok(d0, p),
        spec_created(d0, d, p, uid, is_dir, ino),
        forall|b: int|
            b != spec_path_to_inode(d0, spec_parent(p))->Ok_0 && #[trigger] spec_read_dir(d0, b)
                is Some ==> b != ino && file_ok(d0, b) && apart(
                d0,
                spec_path_to_inode(d0, spec_parent(p))->Ok_0 as int,
                b,
            ),
    ensures
        spec_path_to_inode(d, p) == Ok::<u32, FsError>(ino),
{
    let parent = spec_path_to_inode(d0, spec_parent(p))->Ok_0;
    let es = spec_read_dir(d0, parent as int)->Some_0;
    let name = spec_name(p);
    let k = last_slash(p);
    super::node::lemma_has_slash(p, 0);
    lemma_last_slash_is_last(p);
    assert(p.last() == name.last());
    assert(trim_slash(p) == p);
    assert(p != seq![SLASH]) by {
        assert(p.len() >= 2);
    }
    assert forall|b: int|
        b != parent && #[trigger] spec_read_dir(d0, b) is Some implies spec_read_dir(d, b)
        == spec_read_dir(d0, b) by {
        lemma_same_dir(d0, d, b);
    }
    lemma_lookup_push(es, (ino, name), name, 0);
    if k == 0 {
        assert(spec_parent(p) == seq![SLASH]);
        lemma_seg_end(p, 1, p.len() as int);
        assert(p.subrange(1, p.len() as int) == name);
    } else {
        let q = p.take(k);
        assert(spec_parent(p) == q);
        assert(q.last() == p[k - 1]);
        assert(q[0] == p[0]);
        assert(q != seq![SLASH]) by {
            if q == seq![SLASH] {
                assert(q.last() == SLASH);
            }
        }
        assert(trim_slash(q) == q);
        lemma_walk_created(d0, d, p, k, 1, 0, parent, ino, es);
    }
}

/// The walk of a path whose front leads to a directory that does not
/// hold the path's last name ends there, where the directories on the way
/// are what they were.
proof fn lemma_walk_gone(
    d0: Seq<Seq<u8>>,
    d: Seq<Seq<u8>>,
    p: Seq<u8>,
    k: int,
    i: int,
    a: u32,
    parent: u32,
    es: Seq<(u32, Seq<u8>)>,
)
    requires
        1 <= i <= k < p.len() - 1,
        p[k] == SLASH,
        forall|j: int| k < j < p.len() ==> p[j] != SLASH,
        spec_walk(d0, p.take(k), i, a) == Ok::<u32, FsError>(parent),
        spec_read_dir(d0, parent as int) == Some(es),
        spec_step(es, p.subrange(k + 1, p.len() as int), parent) is None,
        forall|b: int| #[trigger]
            spec_read_dir(d0, b) is Some ==> spec_read_dir(d, b) == spec_read_dir(d0, b),
    ensures
        spec_walk(d, p, i, a) == Err::<u32, FsError>(FsError::NotFound),
    decreases k - i,
{
    let q = p.take(k);
    let name = p.subrange(k + 1, p.len() as int);
    lemma_seg_end_prefix(p, k, i);
    let j = seg_end(p, i);
    let seg = q.subrange(i, j);
    assert(seg =~= p.subrange(i, j));
    let esa = spec_read_dir(d0, a as int)->Some_0;
    let child = spec_step(esa, seg, a)->Some_0;
    assert(spec_walk(d0, q, i, a) is Ok);
    assert(j > i);
    assert(spec_read_dir(d0, a as int) is Some);
    assert(spec_read_dir(d, a as int) == Some(esa));
    assert(spec_walk(d, p, i, a) == spec_walk(d, p, j + 1, child));
    if j >= k {
        assert(child == parent);
        lemma_seg_end(p, k + 1, p.len() as int);
        assert(spec_read_dir(d, parent as int) == Some(es));
        assert(spec_walk(d, p, k + 1, parent) == Err::<u32, FsError>(FsError::NotFound));
    } else {
        lemma_walk_gone(d0, d, p, k, j + 1, child, parent, es);
    }
}

/// After something was made at a path and removed again, the path names
/// nothing, as before, where every other directory was in order before and
/// had no block in common with the directory in which it was made, none of
/// them was at the inode that was taken, and that directory held no entry
/// for the inode.
pub proof fn law_removed_path_is_gone(
    d0: Seq<Seq<u8>>,
    d1: Seq<Seq<u8>>,
    d2: Seq<Seq<u8>>,
    p: Seq<u8>,
    uid: u8,
    is_dir: bool,
    ino: u32,
    chain: Seq<u32>,
)
    requires
        spec_create_ok(d0, p),
        spec_created(d0, d1, p, uid, is_dir, ino),
        ({
            let parent = spec_path_to_inode(d0, spec_parent(p))->Ok_0;
            let es = spec_read_dir(d0, parent as int)->Some_0;
            &&& spec_unmade(d1, d2, parent, es.push((ino, spec_name(p))), ino, chain)
            &&& first_for(es, ino) == es.len()
            &&& forall|b: int|
                b != parent && #[trigger] spec_read_dir(d0, b) is Some ==> b != ino && file_ok(
                    d0,
                    b,
                ) && apart(d0, parent as int, b)
        }),
    ensures
        spec_path_to_inode(d0, p) == Err::<u32, FsError>(FsError::NotFound),
        spec_path_to_inode(d2, p) == Err::<u32, FsError>(FsError::NotFound),
{
    let parent = spec_path_to_inode(d0, spec_parent(p))->Ok_0;
    let es = spec_read_dir(d0, parent as int)->Some_0;
    let name = spec_name(p);
    let k = last_slash(p);
    law_make_then_remove(d0, d1, d2, parent, es, name, uid, is_dir, ino, chain);
    super::node::lemma_has_slash(p, 0);
    lemma_last_slash_is_last(p);
    assert(p.last() == name.last());
    assert(trim_slash(p) == p);
    assert(p != seq![SLASH]) by {
        assert(p.len() >= 2);
    }
    assert forall|b: int| #[trigger] spec_read_dir(d0, b) is Some implies spec_read_dir(d2, b)
        == spec_read_dir(d0, b) by {
        if b != parent {
            assert(same_file(d0, d1, b) && apart(d1, parent as int, b) && apart(
                d1,
                ino as int,
                b,
            ));
            assert(file_ok(d1, b)) by {
                reveal(same_file);
            }
            assert(same_file(d1, d2, b));
            lemma_same_dir(d0, d1, b);
            lemma_same_dir(d1, d2, b);
        }
    }
    if k == 0 {
        assert(spec_parent(p) == seq![SLASH]);
        lemma_seg_end(p, 1, p.len() as int);
        assert(p.subrange(1, p.len() as int) == name);
    } else {
        let q = p.take(k);
        assert(spec_parent(p) == q);
        assert(q.last() == p[k - 1]);
        assert(q[0] == p[0]);
        assert(q != seq![SLASH]) by {
            if q == seq![SLASH] {
                assert(q.last() == SLASH);
            }
        }
        assert(trim_slash(q) == q);
        lemma_walk_gone(d0, d0, p, k, 1, 0, parent, es);
        lemma_walk_gone(d0, d2, p, k, 1, 0, parent, es);
    }
}

/// Whether the image is tidy: every inode that is taken is a file in
/// order, so that its blocks are data blocks marked as taken, and no two of
/// them have a block in common.
pub open spec fn spec_tidy(d: Seq<Seq<u8>>) -> bool {
    &&& forall|a: int| 0 <= a < INODE_COUNT && inode_bits(d)[a] ==> #[trigger] file_ok(d, a)
    &&& forall|a: int, b: int|
        0 <= a < INODE_COUNT && 0 <= b < INODE_COUNT && a != b && inode_bits(d)[a] && inode_bits(
            d,
        )[b] ==> #[trigger] apart(d, a, b)
}

/// A fresh image is tidy.
pub proof fn law_fresh_is_tidy(d: Seq<Seq<u8>>)
    requires
        spec_fresh(d),
    ensures
        spec_tidy(d),
{
}

/// In a tidy image the chain of every inode that is taken names data
/// blocks that are marked as taken, and no block is in the chains of two
/// of them.
pub proof fn law_tidy_chains(d: Seq<Seq<u8>>, a: int, b: int)
    requires
        spec_tidy(d),
        0 <= a < INODE_COUNT,
        0 <= b < INODE_COUNT,
        a != b,
        inode_bits(d)[a],
        inode_bits(d)[b],
    ensures
        spec_get_blocks(d, spec_inode_at(d, a)) is Some,
        spec_get_blocks(d, spec_inode_at(d, b)) is Some,
        ({
            let ca = spec_get_blocks(d, spec_inode_at(d, a))->Some_0;
            let cb = spec_get_blocks(d, spec_inode_at(d, b))->Some_0;
            &&& forall|i: int|
                0 <= i < ca.len() ==> is_data_addr(#[trigger] ca[i]) && data_bits(d)[ca[i]
                    - DATA_OFFSET]
            &&& forall|i: int, j: int| 0 <= i < ca.len() && 0 <= j < cb.len() ==> ca[i] != cb[j]
        }),
{
    let ca = spec_get_blocks(d, spec_inode_at(d, a))->Some_0;
    let cb = spec_get_blocks(d, spec_inode_at(d, b))->Some_0;
    assert(file_ok(d, a) && file_ok(d, b) && apart(d, a, b));
    reveal(file_ok);
    reveal(apart);
    lemma_file_blocks(d, a);
    assert forall|i: int| 0 <= i < ca.len() implies is_data_addr(#[trigger] ca[i]) && data_bits(
        d,
    )[ca[i] - DATA_OFFSET] by {
        assert(ca.contains(ca[i]));
        assert(file_block(d, a, ca[i] as int));
    }
    assert forall|i: int, j: int| 0 <= i < ca.len() && 0 <= j < cb.len() implies ca[i]
        != cb[j] by {
        assert(ca.contains(ca[i]));
        assert(cb.contains(cb[j]));
        assert(file_block(d, a, ca[i] as int));
        assert(file_block(d, b, cb[j] as int));
    }
}

/// Two files that are what they were have a block in common only if they
/// had one.
proof fn lemma_same_apart(d0: Seq<Seq<u8>>, d: Seq<Seq<u8>>, b: int, c: int)
    requires
        same_file(d0, d, b),
        same_file(d0, d, c),
        apart(d0, b, c),
    ensures
        apart(d, b, c),
{
    reveal(same_file);
    reveal(apart);
}

/// A write to a file that is taken leaves a tidy image tidy.
pub proof fn law_write_keeps_tidy(d0: Seq<Seq<u8>>, d: Seq<Seq<u8>>, a: int, data: Seq<u8>)
    requires
        blocks_wf(d0),
        blocks_wf(d),
        spec_tidy(d0),
        0 <= a < INODE_COUNT,
        inode_bits(d0)[a],
        spec_write_ok(d0, a, data.len() as int),
        spec_written(d0, d, a, data),
    ensures
        inode_bits(d) == inode_bits(d0),
        spec_tidy(d),
{
    assert(inode_bits(d) == inode_bits(d0)) by {
        reveal(spec_written);
        assert(super::inode::inode_block(a) >= 2);
        assert(d[super::inode::BITMAP_OFFSET as int] == d0[super::inode::BITMAP_OFFSET as int]);
    }
    assert(file_ok(d, a)) by {
        reveal(spec_written);
    }
    assert forall|b: int| 0 <= b < INODE_COUNT && inode_bits(d)[b] implies #[trigger] file_ok(
        d,
        b,
    ) by {
        if b != a {
            assert(apart(d0, a, b));
            law_write_keeps_apart(d0, d, a, b, data);
        }
    }
    assert forall|b: int, c: int|
        0 <= b < INODE_COUNT && 0 <= c < INODE_COUNT && b != c && inode_bits(d)[b] && inode_bits(
            d,
        )[c] implies #[trigger] apart(d, b, c) by {
        if b == a {
            assert(apart(d0, a, c));
            law_write_keeps_apart(d0, d, a, c, data);
        } else if c == a {
            assert(apart(d0, a, b));
            law_write_keeps_apart(d0, d, a, b, data);
            super::node::lemma_apart_sym(d, a, b);
        } else {
            assert(apart(d0, a, b));
            assert(apart(d0, a, c));
            assert(apart(d0, b, c));
            law_write_keeps_apart(d0, d, a, b, data);
            law_write_keeps_apart(d0, d, a, c, data);
            lemma_same_apart(d0, d, b, c);
        }
    }
}

/// A tidy image stays tidy when one inode is taken for a file in order
/// and the file at another is written anew, where the two have no block
/// in common and every other file is what it was and has no block in
/// common with either.
proof fn lemma_tidy_grows(d0: Seq<Seq<u8>>, d: Seq<Seq<u8>>, pa: int, na: int)
    requires
        inode_bits(d0).len() >= INODE_COUNT,
        spec_tidy(d0),
        0 <= pa < INODE_COUNT,
        0 <= na < INODE_COUNT,
        pa != na,
        inode_bits(d0)[pa],
        inode_bits(d) == inode_bits(d0).update(na, true),
        file_ok(d, pa),
        file_ok(d, na),
        apart(d, pa, na),
        forall|b: int|
            0 <= b < INODE_COUNT && b != na && b != pa && #[trigger] file_ok(d0, b) && apart(
                d0,
                pa,
                b,
            ) ==> same_file(d0, d, b) && apart(d, pa, b) && apart(d, na, b),
    ensures
        spec_tidy(d),
{
    assert forall|b: int| 0 <= b < INODE_COUNT && inode_bits(d)[b] implies #[trigger] file_ok(
        d,
        b,
    ) by {
        if b != na && b != pa {
            assert(inode_bits(d0)[b]);
            assert(file_ok(d0, b));
            assert(apart(d0, pa, b));
            assert(same_file(d0, d, b));
            reveal(same_file);
        }
    }
    assert forall|b: int, c: int|
        0 <= b < INODE_COUNT && 0 <= c < INODE_COUNT && b != c && inode_bits(d)[b] && inode_bits(
            d,
        )[c] implies #[trigger] apart(d, b, c) by {
        let b_new = b == na || b == pa;
        let c_new = c == na || c == pa;
        if !b_new {
            assert(inode_bits(d0)[b]);
            assert(file_ok(d0, b));
            assert(apart(d0, pa, b));
            assert(same_file(d0, d, b) && apart(d, pa, b) && apart(d, na, b));
        }
        if !c_new {
            assert(inode_bits(d0)[c]);
            assert(file_ok(d0, c));
            assert(apart(d0, pa, c));
            assert(same_file(d0, d, c) && apart(d, pa, c) && apart(d, na, c));
        }
        if b_new && c_new {
            if b == na {
                super::node::lemma_apart_sym(d, pa, na);
            }
        } else if b_new {
        } else if c_new {
            super::node::lemma_apart_sym(d, pa, b);
            super::node::lemma_apart_sym(d, na, b);
        } else {
            assert(apart(d0, b, c));
            lemma_same_apart(d0, d, b, c);
        }
    }
}

/// Making a file or a directory in a directory that is taken leaves a tidy
/// image tidy.
pub proof fn law_create_keeps_tidy(
    d0: Seq<Seq<u8>>,
    d: Seq<Seq<u8>>,
    parent: u32,
    es: Seq<(u32, Seq<u8>)>,
    name: Seq<u8>,
    uid: u8,
    is_dir: bool,
    ino: u32,
)
    requires
        blocks_wf(d0),
        spec_tidy(d0),
        parent < INODE_COUNT,
        inode_bits(d0)[parent as int],
        spec_made(d0, d, parent, es, name, uid, is_dir, ino),
    ensures
        spec_tidy(d),
{
    assert(inode_bits(d0).len() == super::bitmap::BLOCK_BITS);
    lemma_tidy_grows(d0, d, parent as int, ino as int);
}

/// A tidy image stays tidy when one inode is given back and the file at
/// another is written anew and in order, where every other file is what it
/// was and has no block in common with the latter.
proof fn lemma_tidy_shrinks(d0: Seq<Seq<u8>>, d: Seq<Seq<u8>>, pa: int, na: int)
    requires
        inode_bits(d0).len() >= INODE_COUNT,
        spec_tidy(d0),
        0 <= pa < INODE_COUNT,
        0 <= na < INODE_COUNT,
        pa != na,
        inode_bits(d0)[pa],
        inode_bits(d0)[na],
        inode_bits(d) == inode_bits(d0).update(na, false),
        file_ok(d, pa),
        forall|b: int|
            0 <= b < INODE_COUNT && b != na && b != pa && #[trigger] file_ok(d0, b) && apart(
                d0,
                pa,
                b,
            ) && apart(d0, na, b) ==> same_file(d0, d, b) && apart(d, pa, b),
    ensures
        spec_tidy(d),
{
    assert forall|b: int| 0 <= b < INODE_COUNT && inode_bits(d)[b] implies #[trigger] file_ok(
        d,
        b,
    ) by {
        if b != pa {
            assert(inode_bits(d0)[b]);
            assert(file_ok(d0, b));
            assert(apart(d0, pa, b) && apart(d0, na, b));
            assert(same_file(d0, d, b));
            reveal(same_file);
        }
    }
    assert forall|b: int, c: int|
        0 <= b < INODE_COUNT && 0 <= c < INODE_COUNT && b != c && inode_bits(d)[b] && inode_bits(
            d,
        )[c] implies #[trigger] apart(d, b, c) by {
        if b != pa {
            assert(inode_bits(d0)[b]);
            assert(file_ok(d0, b));
            assert(apart(d0, pa, b) && apart(d0, na, b));
            assert(same_file(d0, d, b) && apart(d, pa, b));
        }
        if c != pa {
            assert(inode_bits(d0)[c]);
            assert(file_ok(d0, c));
            assert(apart(d0, pa, c) && apart(d0, na, c));
            assert(same_file(d0, d, c) && apart(d, pa, c));
        }
        if c == pa {
            super::node::lemma_apart_sym(d, pa, b);
        } else if b != pa {
            assert(apart(d0, b, c));
            lemma_same_apart(d0, d, b, c);
        }
    }
}

/// Removing a file or a directory that is taken from a directory that is
/// taken leaves a tidy image tidy.
pub proof fn law_remove_keeps_tidy(
    d0: Seq<Seq<u8>>,
    d: Seq<Seq<u8>>,
    parent: u32,
    es: Seq<(u32, Seq<u8>)>,
    ino: u32,
    chain: Seq<u32>,
)
    requires
        blocks_wf(d0),
        spec_tidy(d0),
        parent < INODE_COUNT,
        ino < INODE_COUNT,
        parent != ino,
        inode_bits(d0)[parent as int],
        inode_bits(d0)[ino as int],
        spec_unmade(d0, d, parent, es, ino, chain),
    ensures
        spec_tidy(d),
{
    assert(inode_bits(d0).len() == super::bitmap::BLOCK_BITS);
    assert(file_ok(d0, ino as int));
    assert(apart(d0, parent as int, ino as int));
    lemma_tidy_shrinks(d0, d, parent as int, ino as int);
}

} // verus!
