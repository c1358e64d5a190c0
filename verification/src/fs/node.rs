//! Making and removing the files and directories that paths name.

use vstd::prelude::*;
use vstd::utf8::{encode_utf8, valid_utf8};
use super::bitmap::{all_true, count_false, is_first_false};
use super::data::{
    data_bits, DATA_OFFSET, free_blocks, get_bitmap, is_data_addr, lowest_free, mark_all,
    same_but_data_bitmap,
};
use super::dir::{
    bytes_eq, Dd, DdError, dir_add_entry, dir_len, dir_remove_entry, entries_view, Entry,
    first_for, is_valid_name, lemma_written_payload, read_dir, spec_dir_image, spec_dir_payload,
    spec_is_dir, spec_read_dir, spec_read_dir_err, spec_remove_err, spec_remove_ok,
    string_from_utf8, valid_name, write_dir,
};
use super::disk::{BLOCK_COUNT, blocks_wf, Disk};
use super::file::{
    apart, blocks_for, Fd, FdError, file_block, file_ok, kept, lemma_eof_from, lemma_file_blocks,
    lemma_file_frame, lemma_file_stays_ok, lemma_write_bystander, lemma_written_apart,
    lemma_written_bits, resize_ok, same_file, spec_file_raw, spec_read_file, spec_write_need,
    spec_write_ok, spec_written, write_check, write_file,
};
use super::inode::{
    alloc_inode, blocks_needed, DIR_MODE, FILE_MODE, free_inode, get_blocks, inode_bits,
    inode_block, INODE_COUNT, InodeView, lemma_new_inode_chain, lemma_new_modes, lemma_no_index,
    lemma_put_inode, load_inode, MAX_BLOCKS, peek_inode, spec_get_blocks, spec_inode_at,
    spec_put_inode,
};
use super::metadata::Metadata;
use super::path::{
    dot, dotdot, FsError, lookup, resolve, seg_end, SLASH, spec_lookup, spec_path_to_inode,
    spec_step, trim_slash,
};
use super::table::{FdTable, FdTableEntry, spec_get_ok, spec_open};

verus! {

/// The position of the last slash of `p`, or -1 if it has none.
pub open spec fn last_slash(p: Seq<u8>) -> int
    decreases p.len(),
{
    if p.len() == 0 {
        -1
    } else if p.last() == SLASH {
        p.len() - 1
    } else {
        last_slash(p.drop_last())
    }
}

/// The last slash is at `k` when a slash is there and none behind it.
pub proof fn lemma_last_slash(p: Seq<u8>, k: int)
    requires
        0 <= k < p.len(),
        p[k] == SLASH,
        forall|j: int| k < j < p.len() ==> p[j] != SLASH,
    ensures
        last_slash(p) == k,
    decreases p.len(),
{
    if p.last() != SLASH {
        lemma_last_slash(p.drop_last(), k);
    }
}

/// The path of the directory that holds what `p` names: `p` up to its last
/// slash, or `/` where that is its first byte.
pub open spec fn spec_parent(p: Seq<u8>) -> Seq<u8> {
    if last_slash(p) <= 0 {
        seq![SLASH]
    } else {
        p.take(last_slash(p))
    }
}

/// The name under which `p` is entered in its directory: what follows its
/// last slash.
pub open spec fn spec_name(p: Seq<u8>) -> Seq<u8> {
    p.subrange(last_slash(p) + 1, p.len() as int)
}

/// Whether another slash stands right before the last slash of `p`, so
/// that the segment before the last is empty.
pub open spec fn ends_in_empty_segment(p: Seq<u8>) -> bool {
    last_slash(p) > 0 && p[last_slash(p) - 1] == SLASH
}

/// Whether something can be made at the path `p` as far as the path goes:
/// the path leads to nothing yet, it is absolute, its last segment is a
/// name that can be stored, the segment before it is not empty, its parent
/// is a directory that can be read, and the name leads nowhere from there.
pub open spec fn spec_create_path_ok(d: Seq<Seq<u8>>, p: Seq<u8>) -> bool {
    &&& spec_path_to_inode(d, p) is Err
    &&& p.len() > 0 && p[0] == SLASH
    &&& valid_name(spec_name(p)) && valid_utf8(spec_name(p))
    &&& !ends_in_empty_segment(p)
    &&& spec_path_to_inode(d, spec_parent(p)) is Ok
    &&& spec_read_dir(d, spec_path_to_inode(d, spec_parent(p))->Ok_0 as int) is Some
    &&& spec_step(
        spec_read_dir(d, spec_path_to_inode(d, spec_parent(p))->Ok_0 as int)->Some_0,
        spec_name(p),
        spec_path_to_inode(d, spec_parent(p))->Ok_0,
    ) is None
}

/// The error with which making something at the path `p` fails for the
/// path's sake. A path that leads somewhere already is answered first,
/// whatever its last segment is.
pub open spec fn spec_create_path_err(d: Seq<Seq<u8>>, p: Seq<u8>) -> DdError {
    if spec_path_to_inode(d, p) is Ok {
        DdError::DirExists
    } else if !(p.len() > 0 && p[0] == SLASH) || !valid_name(spec_name(p)) || !valid_utf8(
        spec_name(p),
    ) || ends_in_empty_segment(p) {
        DdError::InvalidPath
    } else {
        match spec_path_to_inode(d, spec_parent(p)) {
            Err(FsError::InvalidPath) => DdError::InvalidPath,
            Err(FsError::Corrupted) => DdError::DirIncorrupted,
            Err(_) => DdError::ParentNotFound,
            Ok(parent) => match spec_read_dir(d, parent as int) {
                None => match spec_read_dir_err(d, parent as int) {
                    DdError::NotFound => DdError::ParentNotFound,
                    DdError::NotDir => DdError::ParentNotDir,
                    _ => DdError::DirIncorrupted,
                },
                Some(_) => DdError::DirExists,
            },
        }
    }
}

/// Whether the inode and the blocks are there to make something named
/// `name` in the directory `parent`: an inode is free, and it is not the
/// directory's own; the directory's blocks are in order; and enough blocks
/// are free for the directory's new entry and for one block more.
pub open spec fn spec_create_room_ok(d: Seq<Seq<u8>>, parent: u32) -> bool {
    let es = spec_read_dir(d, parent as int)->Some_0;
    let piv = spec_inode_at(d, parent as int);
    let chain = spec_get_blocks(d, piv)->Some_0;
    let nb = blocks_for(dir_len(es.len() as int + 1));
    &&& !all_true(inode_bits(d).take(INODE_COUNT as int))
    &&& !is_first_false(inode_bits(d), parent as int)
    &&& nb <= MAX_BLOCKS
    &&& resize_ok(d, piv, chain, nb)
    &&& spec_write_need(d, piv, chain, nb) + 1 <= count_false(data_bits(d))
}

/// The error with which making something in the directory `parent` fails
/// for want of an inode or of blocks.
pub open spec fn spec_create_room_err(d: Seq<Seq<u8>>, parent: u32) -> DdError {
    let es = spec_read_dir(d, parent as int)->Some_0;
    let piv = spec_inode_at(d, parent as int);
    let chain = spec_get_blocks(d, piv)->Some_0;
    let nb = blocks_for(dir_len(es.len() as int + 1));
    if all_true(inode_bits(d).take(INODE_COUNT as int)) {
        DdError::NoEnoughSpace
    } else if is_first_false(inode_bits(d), parent as int) {
        DdError::DirIncorrupted
    } else if nb > MAX_BLOCKS {
        DdError::NoEnoughSpace
    } else if !resize_ok(d, piv, chain, nb) {
        DdError::DirIncorrupted
    } else {
        DdError::NoEnoughSpace
    }
}

/// Whether a file or a directory can be made at the path `p`.
pub open spec fn spec_create_ok(d: Seq<Seq<u8>>, p: Seq<u8>) -> bool {
    spec_create_path_ok(d, p) && spec_create_room_ok(d, spec_path_to_inode(d, spec_parent(p))->Ok_0)
}

/// The error with which making a file or a directory at the path `p`
/// fails.
pub open spec fn spec_create_err(d: Seq<Seq<u8>>, p: Seq<u8>) -> DdError {
    if !spec_create_path_ok(d, p) {
        spec_create_path_err(d, p)
    } else {
        spec_create_room_err(d, spec_path_to_inode(d, spec_parent(p))->Ok_0)
    }
}

/// What holds of the image `d` once a file or a directory for `uid` was
/// entered as `name` in the directory `parent` of the image `d0`, which
/// held the entries `es`, and made at the inode `ino`.
///
/// The inode was the lowest free one and is now taken. It holds a new file
/// or directory of `uid`; a file is empty, a directory holds `.` for
/// itself and `..` for its parent. The parent holds what it held and, at
/// its end, the new name. The payload of each directory is the records of
/// its entries and then the record of zeros. Both are in order and have no block in common.
/// Every other file that was in order and had no block in common with the
/// parent is what it was, and has no block in common with either.
pub open spec fn spec_made(
    d0: Seq<Seq<u8>>,
    d: Seq<Seq<u8>>,
    parent: u32,
    es: Seq<(u32, Seq<u8>)>,
    name: Seq<u8>,
    uid: u8,
    is_dir: bool,
    ino: u32,
) -> bool {
    let iv = spec_inode_at(d, ino as int);
    &&& ino < INODE_COUNT
    &&& ino != parent
    &&& is_first_false(inode_bits(d0), ino as int)
    &&& inode_bits(d) == inode_bits(d0).update(ino as int, true)
    &&& iv.uid == uid
    &&& iv.mode == if is_dir {
        DIR_MODE
    } else {
        FILE_MODE
    }
    &&& iv.size == 0
    &&& spec_read_dir(d, parent as int) == Some(es.push((ino, name)))
    &&& spec_dir_payload(d, parent as int, es.push((ino, name)))
    &&& spec_get_blocks(d, spec_inode_at(d, parent as int))->Some_0.len() == blocks_for(
        dir_len(es.len() as int + 1),
    )
    &&& file_ok(d, parent as int)
    &&& file_ok(d, ino as int)
    &&& spec_get_blocks(d, iv) is Some
    &&& spec_get_blocks(d, iv)->Some_0.len() == 1
    &&& if is_dir {
        &&& spec_read_dir(d, ino as int) == Some(seq![(ino, dot()), (parent, dotdot())])
        &&& spec_dir_payload(d, ino as int, seq![(ino, dot()), (parent, dotdot())])
    } else {
        spec_read_file(d, ino as int) == Some(Seq::<u8>::empty())
    }
    &&& forall|other: int|
        0 <= other < INODE_COUNT && other != ino && other != parent ==> spec_inode_at(d, other)
            == spec_inode_at(d0, other)
    &&& d[0] == d0[0]
    &&& apart(d, parent as int, ino as int)
    &&& forall|b: int|
        0 <= b < INODE_COUNT && b != ino && b != parent && #[trigger] file_ok(d0, b) && apart(
            d0,
            parent as int,
            b,
        ) ==> same_file(d0, d, b) && apart(d, parent as int, b) && apart(d, ino as int, b)
    &&& spec_made_bits(
        d0,
        d,
        spec_inode_at(d0, parent as int),
        spec_get_blocks(d0, spec_inode_at(d0, parent as int))->Some_0,
        spec_get_blocks(d, spec_inode_at(d, parent as int))->Some_0,
        spec_get_blocks(d, iv)->Some_0,
    )
}

/// What the making of something does to the data bitmap where its parent,
/// whose inode was `piv0` and whose chain goes from `pc0` to `pc`, does not
/// shrink and gets no new index block: the blocks that join the parent's
/// chain and the chain `nc` of what was made were the lowest free blocks
/// and are marked as taken, and no other bit has changed.
pub open spec fn spec_made_bits(
    d0: Seq<Seq<u8>>,
    d: Seq<Seq<u8>>,
    piv0: InodeView,
    pc0: Seq<u32>,
    pc: Seq<u32>,
    nc: Seq<u32>,
) -> bool {
    let added = pc.subrange(pc0.len() as int, pc.len() as int);
    pc0.len() <= pc.len() && blocks_needed(d0, piv0, pc.len() as int) == 0 ==> {
        &&& pc.take(pc0.len() as int) == pc0
        &&& lowest_free(data_bits(d0), added)
        &&& lowest_free(mark_all(data_bits(d0), added, true), nc)
        &&& data_bits(d) == mark_all(mark_all(data_bits(d0), added, true), nc, true)
    }
}

/// What the removing of something that named the blocks `chain` does to
/// the data bitmap where its parent, whose inode was `piv0` and whose
/// chain goes from `pc0` to `pc`, does not grow and gets no new index
/// block: the blocks that leave the parent's chain and the blocks of
/// `chain` are marked as free, and no other bit has changed.
pub open spec fn spec_unmade_bits(
    d0: Seq<Seq<u8>>,
    d: Seq<Seq<u8>>,
    piv0: InodeView,
    pc0: Seq<u32>,
    pc: Seq<u32>,
    chain: Seq<u32>,
) -> bool {
    pc.len() <= pc0.len() && blocks_needed(d0, piv0, pc.len() as int) == 0 ==> {
        &&& pc == pc0.take(pc.len() as int)
        &&& data_bits(d) == mark_all(
            mark_all(data_bits(d0), pc0.subrange(pc.len() as int, pc0.len() as int), false),
            chain,
            false,
        )
    }
}

/// What holds of the image `d` once a file or a directory for `uid` was
/// made at the path `p` of the image `d0`, at the inode `ino`.
pub open spec fn spec_created(
    d0: Seq<Seq<u8>>,
    d: Seq<Seq<u8>>,
    p: Seq<u8>,
    uid: u8,
    is_dir: bool,
    ino: u32,
) -> bool {
    let parent = spec_path_to_inode(d0, spec_parent(p))->Ok_0;
    spec_made(d0, d, parent, spec_read_dir(d0, parent as int)->Some_0, spec_name(p), uid, is_dir, ino)
}

/// Splits the path `path` at its last slash: the position of that slash.
pub fn find_last_slash(path: &[u8]) -> (r: Option<usize>)
    ensures
        r is Some <==> last_slash(path@) >= 0,
        r is Some ==> r->Some_0 == last_slash(path@),
        r is Some ==> r->Some_0 < path@.len(),
{
    let mut k: usize = path.len();
    while k > 0
        invariant
            k <= path@.len(),
            forall|j: int| k <= j < path@.len() ==> path@[j] != SLASH,
        decreases k,
    {
        if path[k - 1] == SLASH {
            proof {
                lemma_last_slash(path@, k - 1);
            }
            return Some(k - 1);
        }
        k -= 1;
    }
    proof {
        lemma_no_slash(path@);
    }
    None
}

/// The last slash is at or behind any slash.
pub proof fn lemma_has_slash(p: Seq<u8>, k: int)
    requires
        0 <= k < p.len(),
        p[k] == SLASH,
    ensures
        last_slash(p) >= k,
    decreases p.len(),
{
    if p.last() != SLASH {
        lemma_has_slash(p.drop_last(), k);
    }
}

/// A path without a slash has no last slash.
pub proof fn lemma_no_slash(p: Seq<u8>)
    requires
        forall|j: int| 0 <= j < p.len() ==> p[j] != SLASH,
    ensures
        last_slash(p) == -1,
    decreases p.len(),
{
    if p.len() > 0 {
        lemma_no_slash(p.drop_last());
    }
}

/// The directory in which something can be made at the path `path`, what
/// it holds, and the name to enter.
pub fn create_check(disk: &Disk, path: &[u8]) -> (r: Result<(u32, Vec<Entry>, String), DdError>)
    requires
        disk.wf(),
    ensures
        r is Ok <==> spec_create_path_ok(disk@, path@),
        r is Ok ==> {
            &&& r->Ok_0.0 == spec_path_to_inode(disk@, spec_parent(path@))->Ok_0
            &&& entries_view(r->Ok_0.1@) == spec_read_dir(disk@, r->Ok_0.0 as int)->Some_0
            &&& encode_utf8(r->Ok_0.2@) == spec_name(path@)
            &&& r->Ok_0.1@.len() * 64 <= super::inode::MAX_SIZE
        },
        r is Err ==> r->Err_0 == spec_create_path_err(disk@, path@),
{
    if resolve(disk, path).is_ok() {
        return Err(DdError::DirExists);
    }
    if path.len() == 0 || path[0] != SLASH {
        return Err(DdError::InvalidPath);
    }
    proof {
        lemma_has_slash(path@, 0);
    }
    let k = match find_last_slash(path) {
        Some(k) => k,
        None => {
            return Err(DdError::InvalidPath);
        },
    };
    let name = vstd::slice::slice_subrange(path, k + 1, path.len());
    assert(name@ =~= spec_name(path@));
    if !is_valid_name(name) {
        return Err(DdError::InvalidPath);
    }
    let name_str = match string_from_utf8(vstd::slice::slice_to_vec(name)) {
        Some(s) => s,
        None => {
            return Err(DdError::InvalidPath);
        },
    };
    if k > 0 && path[k - 1] == SLASH {
        return Err(DdError::InvalidPath);
    }
    let parent_path = if k == 0 {
        vstd::slice::slice_subrange(path, 0, 1)
    } else {
        vstd::slice::slice_subrange(path, 0, k)
    };
    assert(parent_path@ =~= spec_parent(path@));
    let parent = match resolve(disk, parent_path) {
        Ok(i) => i,
        Err(e) => {
            return Err(
                match e {
                    FsError::InvalidPath => DdError::InvalidPath,
                    FsError::Corrupted => DdError::DirIncorrupted,
                    _ => DdError::ParentNotFound,
                },
            );
        },
    };
    let ents = match read_dir(disk, parent) {
        Ok(v) => v,
        Err(e) => {
            return Err(
                match e {
                    DdError::NotFound => DdError::ParentNotFound,
                    DdError::NotDir => DdError::ParentNotDir,
                    _ => DdError::DirIncorrupted,
                },
            );
        },
    };
    if lookup(&ents, name).is_some() {
        return Err(DdError::DirExists);
    }
    if parent == 0 && name.len() == 2 && name[0] == 46 && name[1] == 46 {
        assert(name@ =~= dotdot());
        return Err(DdError::DirExists);
    }
    Ok((parent, ents, name_str))
}

/// The names `.` and `..` are UTF-8 and can be stored.
pub proof fn lemma_dot_names()
    ensures
        valid_utf8(dot()),
        valid_utf8(dotdot()),
        valid_name(dot()),
        valid_name(dotdot()),
{
    reveal_with_fuel(valid_utf8, 3);
    assert(46u8 & 0x7f == 46u8) by (bit_vector);
    let a = dot();
    assert(vstd::utf8::pop_first_scalar(a) =~= Seq::<u8>::empty());
    let b = dotdot();
    assert(vstd::utf8::pop_first_scalar(b) =~= a);
}

/// A file in order is left as it is when an inode is stored elsewhere
/// and when a new file, which has no blocks yet, is written.
proof fn lemma_bystander(d1: Seq<Seq<u8>>, d2: Seq<Seq<u8>>, d3: Seq<Seq<u8>>, a: int, ino: int, data: Seq<u8>)
    requires
        blocks_wf(d1),
        blocks_wf(d2),
        blocks_wf(d3),
        file_ok(d1, a),
        0 <= ino < INODE_COUNT,
        0 <= a < INODE_COUNT,
        a != ino,
        spec_inode_at(d2, a) == spec_inode_at(d1, a),
        forall|b: int| DATA_OFFSET <= b < BLOCK_COUNT ==> #[trigger] d2[b] == d1[b],
        data_bits(d2) == data_bits(d1),
        spec_get_blocks(d2, spec_inode_at(d2, ino)) == Some(Seq::<u32>::empty()),
        spec_inode_at(d2, ino).indirect_block == 0,
        spec_inode_at(d2, ino).double_block == 0,
        spec_written(d2, d3, ino, data),
    ensures
        file_ok(d3, a),
        spec_file_raw(d3, a) == spec_file_raw(d1, a),
        spec_inode_at(d3, a) == spec_inode_at(d1, a),
        same_file(d1, d3, a),
        apart(d3, ino, a),
{
    reveal(same_file);
    reveal(apart);
    lemma_file_blocks(d1, a);
    lemma_file_stays_ok(d1, d2, a);
    lemma_file_blocks(d2, a);
    lemma_no_index(d2, spec_inode_at(d2, ino));
    lemma_written_apart(d2, d3, ino, data, a);
    lemma_file_stays_ok(d2, d3, a);
    assert forall|x: int| 0 <= x < BLOCK_COUNT implies !(#[trigger] file_block(d3, ino, x)
        && file_block(d3, a, x)) by {
        if file_block(d3, a, x) {
            assert(file_block(d2, a, x));
        }
    }
}

/// What a first write leaves of a new inode: its record but for the
/// blocks, one block, and the rest of the inode table and the superblock
/// as they were.
proof fn lemma_first_write(d2: Seq<Seq<u8>>, d3: Seq<Seq<u8>>, ino: int, data: Seq<u8>)
    requires
        blocks_wf(d2),
        blocks_wf(d3),
        0 <= ino < INODE_COUNT,
        data.len() >= 1,
        blocks_for(data.len() as int) == 1,
        spec_written(d2, d3, ino, data),
    ensures
        file_ok(d3, ino),
        spec_inode_at(d3, ino).uid == spec_inode_at(d2, ino).uid,
        spec_inode_at(d3, ino).mode == spec_inode_at(d2, ino).mode,
        spec_inode_at(d3, ino).size == spec_inode_at(d2, ino).size,
        spec_get_blocks(d3, spec_inode_at(d3, ino)) is Some,
        spec_get_blocks(d3, spec_inode_at(d3, ino))->Some_0.len() == 1,
        spec_file_raw(d3, ino) is Some,
        spec_file_raw(d3, ino)->Some_0.len() == super::disk::BLOCK_SIZE,
        spec_file_raw(d3, ino)->Some_0.take(data.len() as int) == data,
        inode_bits(d3) == inode_bits(d2),
        d3[0] == d2[0],
        forall|other: int|
            0 <= other < INODE_COUNT && other != ino ==> spec_inode_at(d3, other) == spec_inode_at(
                d2,
                other,
            ),
        spec_get_blocks(d2, spec_inode_at(d2, ino)) == Some(Seq::<u32>::empty()) ==> data_bits(d3)
            == mark_all(
            data_bits(d2),
            spec_get_blocks(d3, spec_inode_at(d3, ino))->Some_0,
            true,
        ) && lowest_free(data_bits(d2), spec_get_blocks(d3, spec_inode_at(d3, ino))->Some_0),
{
    lemma_written_bits(d2, d3, ino, data);
    reveal(spec_written);
    assert(inode_block(ino) >= 2);
    assert(d3[super::inode::BITMAP_OFFSET as int] == d2[super::inode::BITMAP_OFFSET as int]);
    let c = spec_get_blocks(d3, spec_inode_at(d3, ino))->Some_0;
    assert(c.subrange(0, 1) =~= c);
}

/// What the entering of a name leaves of the image outside the directory.
proof fn lemma_after_add(d0: Seq<Seq<u8>>, d1: Seq<Seq<u8>>, parent: int, data: Seq<u8>)
    requires
        blocks_wf(d0),
        blocks_wf(d1),
        0 <= parent < INODE_COUNT,
        spec_written(d0, d1, parent, data),
    ensures
        file_ok(d1, parent),
        inode_bits(d1) == inode_bits(d0),
        d1[0] == d0[0],
        count_false(data_bits(d1)) + spec_write_need(
            d0,
            spec_inode_at(d0, parent),
            spec_get_blocks(d0, spec_inode_at(d0, parent))->Some_0,
            blocks_for(data.len() as int),
        ) >= count_false(data_bits(d0)),
        forall|other: int|
            0 <= other < INODE_COUNT && other != parent ==> spec_inode_at(d1, other)
                == spec_inode_at(d0, other),
{
    reveal(spec_written);
    assert(inode_block(parent) >= 2);
    assert(d1[super::inode::BITMAP_OFFSET as int] == d0[super::inode::BITMAP_OFFSET as int]);
}

/// What the taking of an inode leaves of the image, and that the new
/// inode can be given its first block if one is free.
proof fn lemma_after_alloc(d1: Seq<Seq<u8>>, d2: Seq<Seq<u8>>, ino: int, iv: InodeView, len1: int)
    requires
        blocks_wf(d1),
        blocks_wf(d2),
        0 <= ino < INODE_COUNT,
        iv.blocks == Seq::new(8, |i: int| 0u32),
        iv.indirect_block == 0,
        iv.double_block == 0,
        d2 == spec_put_inode(
            d1.update(super::inode::BITMAP_OFFSET as int, d2[super::inode::BITMAP_OFFSET as int]),
            ino,
            iv,
        ),
        count_false(data_bits(d1)) >= 1,
        len1 >= 1,
        blocks_for(len1) == 1,
    ensures
        spec_inode_at(d2, ino) == iv,
        forall|other: int|
            0 <= other < INODE_COUNT && other != ino ==> spec_inode_at(d2, other) == spec_inode_at(
                d1,
                other,
            ),
        forall|b: int| DATA_OFFSET <= b < BLOCK_COUNT ==> #[trigger] d2[b] == d1[b],
        data_bits(d2) == data_bits(d1),
        d2[0] == d1[0],
        spec_get_blocks(d2, iv) == Some(Seq::<u32>::empty()),
        spec_write_ok(d2, ino, len1),
{
    reveal(file_ok);
    reveal(spec_write_ok);
    let mid = d1.update(super::inode::BITMAP_OFFSET as int, d2[super::inode::BITMAP_OFFSET as int]);
    lemma_put_inode(mid, ino, iv);
    lemma_new_inode_chain(d2, iv);
    lemma_no_index(d2, iv);
    assert(data_bits(d2) =~= data_bits(d1));
    assert forall|other: int| 0 <= other < INODE_COUNT && other != ino implies spec_inode_at(
        d2,
        other,
    ) == spec_inode_at(d1, other) by {
        assert(spec_inode_at(mid, other) == spec_inode_at(d1, other));
    }
}

/// The first position that holds `false` is the only one.
proof fn lemma_first_false_unique(s: Seq<bool>, p: int, q: int)
    requires
        is_first_false(s, p),
        is_first_false(s, q),
    ensures
        p == q,
{
}

/// The two entries that a new directory at `ino` under `parent` holds.
fn first_entries(ino: u32, parent: u32) -> (v: Vec<Entry>)
    ensures
        entries_view(v@) == seq![(ino, dot()), (parent, dotdot())],
{
    proof {
        lemma_dot_names();
    }
    let mut b1: Vec<u8> = Vec::new();
    b1.push(46u8);
    assert(b1@ =~= dot());
    let mut b2: Vec<u8> = Vec::new();
    b2.push(46u8);
    b2.push(46u8);
    assert(b2@ =~= dotdot());
    let one = match string_from_utf8(b1) {
        Some(s) => s,
        None => String::new(),
    };
    let two = match string_from_utf8(b2) {
        Some(s) => s,
        None => String::new(),
    };
    let mut v: Vec<Entry> = Vec::new();
    v.push(Entry { inode: ino, name: one });
    v.push(Entry { inode: parent, name: two });
    assert(entries_view(v@) =~= seq![(ino, dot()), (parent, dotdot())]);
    v
}

/// Finds the inode for something new in the directory `parent`, which
/// holds `n` entries, and checks that the blocks for it are there.
fn create_room(disk: &Disk, parent: u32, n: usize) -> (r: Result<u32, DdError>)
    requires
        disk.wf(),
        spec_read_dir(disk@, parent as int) is Some,
        n == spec_read_dir(disk@, parent as int)->Some_0.len(),
        n * 64 <= super::inode::MAX_SIZE,
    ensures
        r is Ok <==> spec_create_room_ok(disk@, parent),
        r is Ok ==> r->Ok_0 < INODE_COUNT && r->Ok_0 != parent && is_first_false(
            inode_bits(disk@),
            r->Ok_0 as int,
        ),
        r is Err ==> r->Err_0 == spec_create_room_err(disk@, parent),
{
    let ino = match peek_inode(disk) {
        Some(i) => i,
        None => {
            return Err(DdError::NoEnoughSpace);
        },
    };
    if ino == parent {
        return Err(DdError::DirIncorrupted);
    }
    proof {
        if is_first_false(inode_bits(disk@), parent as int) {
            lemma_first_false_unique(inode_bits(disk@), parent as int, ino as int);
        }
    }
    assert(super::dir::ENTRY_SIZE == 64);
    assert(super::inode::MAX_SIZE == 67379200);
    let len1: usize = (n + 2) * 64 + 1;
    assert(len1 == dir_len(n as int + 1));
    let need = match write_check(disk, parent, len1) {
        Ok(x) => x,
        Err(e) => {
            return Err(
                match e {
                    FdError::NoEnoughSpace => DdError::NoEnoughSpace,
                    _ => DdError::DirIncorrupted,
                },
            );
        },
    };
    let free = get_bitmap(disk).rest_usable();
    if need >= free {
        return Err(DdError::NoEnoughSpace);
    }
    Ok(ino)
}

/// Takes the lowest free inode, `ino`, for a new file or directory of
/// `uid` and gives it its first block.
#[verifier::rlimit(50)]
#[verifier::spinoff_prover]
fn make_inode(disk: &mut Disk, parent: u32, ino: u32, uid: u8, is_dir: bool)
    requires
        old(disk).wf(),
        ino < INODE_COUNT,
        parent < INODE_COUNT,
        ino != parent,
        is_first_false(inode_bits(old(disk)@), ino as int),
        file_ok(old(disk)@, parent as int),
        count_false(data_bits(old(disk)@)) >= 1,
    ensures
        final(disk).wf(),
        inode_bits(final(disk)@) == inode_bits(old(disk)@).update(ino as int, true),
        file_ok(final(disk)@, parent as int),
        file_ok(final(disk)@, ino as int),
        spec_file_raw(final(disk)@, parent as int) == spec_file_raw(old(disk)@, parent as int),
        spec_inode_at(final(disk)@, parent as int) == spec_inode_at(old(disk)@, parent as int),
        spec_inode_at(final(disk)@, ino as int).uid == uid,
        spec_inode_at(final(disk)@, ino as int).mode == if is_dir {
            DIR_MODE
        } else {
            FILE_MODE
        },
        spec_inode_at(final(disk)@, ino as int).size == 0,
        spec_get_blocks(final(disk)@, spec_inode_at(final(disk)@, ino as int)) is Some,
        spec_get_blocks(final(disk)@, spec_inode_at(final(disk)@, ino as int))->Some_0.len() == 1,
        if is_dir {
            &&& spec_read_dir(final(disk)@, ino as int) == Some(
                seq![(ino, dot()), (parent, dotdot())],
            )
            &&& spec_dir_payload(final(disk)@, ino as int, seq![(ino, dot()), (parent, dotdot())])
        } else {
            spec_read_file(final(disk)@, ino as int) == Some(Seq::<u8>::empty())
        },
        forall|other: int|
            0 <= other < INODE_COUNT && other != ino ==> spec_inode_at(final(disk)@, other)
                == spec_inode_at(old(disk)@, other),
        final(disk)@[0] == old(disk)@[0],
        forall|b: int|
            0 <= b < INODE_COUNT && b != ino && #[trigger] file_ok(old(disk)@, b) ==> same_file(
                old(disk)@,
                final(disk)@,
                b,
            ) && apart(final(disk)@, ino as int, b),
        data_bits(final(disk)@) == mark_all(
            data_bits(old(disk)@),
            spec_get_blocks(final(disk)@, spec_inode_at(final(disk)@, ino as int))->Some_0,
            true,
        ),
        lowest_free(
            data_bits(old(disk)@),
            spec_get_blocks(final(disk)@, spec_inode_at(final(disk)@, ino as int))->Some_0,
        ),
{
    let ghost d1 = disk@;
    let r2 = alloc_inode(disk, uid, is_dir);
    proof {
        if r2 is Ok {
            lemma_first_false_unique(inode_bits(d1), r2->Ok_0.0 as int, ino as int);
        } else {
            assert(!inode_bits(d1).take(INODE_COUNT as int)[ino as int]);
        }
    }
    assert(r2 is Ok);
    let ghost d2 = disk@;
    let ghost iv = r2->Ok_0.1@;
    proof {
        lemma_new_modes();
        assert(super::dir::ENTRY_SIZE == 64 && super::disk::BLOCK_SIZE == 1024);
        lemma_after_alloc(d1, d2, ino as int, iv, if is_dir { dir_len(2) } else { 1 });
        assert(spec_inode_at(d2, parent as int) == spec_inode_at(d1, parent as int));
    }
    if is_dir {
        let first = first_entries(ino, parent);
        proof {
            lemma_dot_names();
            assert(first@.len() == entries_view(first@).len());
            lemma_image_len(entries_view(first@));
        }
        let r3 = write_dir(disk, ino, &first);
        assert(r3 is Ok);
        proof {
            lemma_written_payload(d2, disk@, ino as int, entries_view(first@));
            lemma_first_write(
                d2,
                disk@,
                ino as int,
                spec_dir_image(entries_view(first@)).push(0u8),
            );
            let data = spec_dir_image(entries_view(first@)).push(0u8);
            lemma_bystander(d1, d2, disk@, parent as int, ino as int, data);
            assert forall|b: int|
                0 <= b < INODE_COUNT && b != ino && #[trigger] file_ok(d1, b) implies same_file(
                d1,
                disk@,
                b,
            ) && apart(disk@, ino as int, b) by {
                lemma_bystander(d1, d2, disk@, b, ino as int, data);
            }
        }
    } else {
        let mut empty: Vec<u8> = Vec::new();
        let r3 = write_file(disk, ino, &mut empty);
        assert(r3 is Ok);
        proof {
            let data = Seq::<u8>::empty().push(0u8);
            lemma_first_write(d2, disk@, ino as int, data);
            lemma_bystander(d1, d2, disk@, parent as int, ino as int, data);
            assert forall|b: int|
                0 <= b < INODE_COUNT && b != ino && #[trigger] file_ok(d1, b) implies same_file(
                d1,
                disk@,
                b,
            ) && apart(disk@, ino as int, b) by {
                lemma_bystander(d1, d2, disk@, b, ino as int, data);
            }
            let raw = spec_file_raw(disk@, ino as int)->Some_0;
            assert(raw.take(1)[0] == data[0]);
            lemma_eof_from(raw, 0, 0);
            assert(raw.take(0) =~= Seq::<u8>::empty());
        }
    }
}

/// Makes a file or a directory for `uid` at the path `path` and gives its
/// inode.
///
/// The name is entered in the parent directory; the lowest free inode is
/// taken; a file gets one block that holds the end marker, a directory one
/// that holds `.` and `..`. Nothing is written unless all of it can be.
#[verifier::rlimit(50)]
#[verifier::spinoff_prover]
pub fn create_node(disk: &mut Disk, path: &[u8], uid: u8, is_dir: bool) -> (r: Result<
    u32,
    DdError,
>)
    requires
        old(disk).wf(),
    ensures
        final(disk).wf(),
        r is Ok <==> spec_create_ok(old(disk)@, path@),
        r is Ok ==> spec_created(old(disk)@, final(disk)@, path@, uid, is_dir, r->Ok_0),
        r is Err ==> final(disk)@ == old(disk)@ && r->Err_0 == spec_create_err(old(disk)@, path@),
{
    let (parent, ents, name) = create_check(disk, path)?;
    let ghost d0 = disk@;
    let ghost es = entries_view(ents@);
    let ino = create_room(disk, parent, ents.len())?;
    proof {
        reveal(spec_write_ok);
        vstd::utf8::encode_utf8_valid_utf8(name@);
        lemma_lookup_none(es, spec_name(path@), ino, 0);
    }
    let r1 = dir_add_entry(disk, parent, ino, name.as_str());
    assert(r1 is Ok);
    proof {
        lemma_after_add(
            d0,
            disk@,
            parent as int,
            spec_dir_image(es.push((ino, spec_name(path@)))).push(0u8),
        );
        lemma_image_len(es.push((ino, spec_name(path@))));
        lemma_written_payload(d0, disk@, parent as int, es.push((ino, spec_name(path@))));
    }
    let ghost d1 = disk@;
    make_inode(disk, parent, ino, uid, is_dir);
    proof {
        let data = spec_dir_image(es.push((ino, spec_name(path@)))).push(0u8);
        assert forall|b: int|
            0 <= b < INODE_COUNT && b != ino && b != parent && #[trigger] file_ok(d0, b) && apart(
                d0,
                parent as int,
                b,
            ) implies same_file(d0, disk@, b) && apart(disk@, parent as int, b) && apart(
            disk@,
            ino as int,
            b,
        ) by {
            lemma_made_bystander(d0, d1, disk@, parent as int, ino as int, b, data);
        }
        lemma_apart_sym(disk@, ino as int, parent as int);
        lemma_made_bits(d0, d1, disk@, parent as int, ino as int, data);
    }
    Ok(ino)
}

/// The bitmap after something was made, from the bitmap after its name
/// was entered and the bitmap after its first block was taken.
proof fn lemma_made_bits(
    d0: Seq<Seq<u8>>,
    d1: Seq<Seq<u8>>,
    d3: Seq<Seq<u8>>,
    parent: int,
    ino: int,
    data: Seq<u8>,
)
    requires
        spec_written(d0, d1, parent, data),
        same_file(d1, d3, parent),
        data_bits(d3) == mark_all(
            data_bits(d1),
            spec_get_blocks(d3, spec_inode_at(d3, ino))->Some_0,
            true,
        ),
        lowest_free(data_bits(d1), spec_get_blocks(d3, spec_inode_at(d3, ino))->Some_0),
    ensures
        spec_made_bits(
            d0,
            d3,
            spec_inode_at(d0, parent),
            spec_get_blocks(d0, spec_inode_at(d0, parent))->Some_0,
            spec_get_blocks(d3, spec_inode_at(d3, parent))->Some_0,
            spec_get_blocks(d3, spec_inode_at(d3, ino))->Some_0,
        ),
        spec_get_blocks(d3, spec_inode_at(d3, parent))->Some_0.len() == blocks_for(
            data.len() as int,
        ),
{
    reveal(same_file);
    let pc0 = spec_get_blocks(d0, spec_inode_at(d0, parent))->Some_0;
    let pc = spec_get_blocks(d3, spec_inode_at(d3, parent))->Some_0;
    assert(spec_get_blocks(d1, spec_inode_at(d1, parent)) == spec_get_blocks(
        d3,
        spec_inode_at(d3, parent),
    ));
    assert(pc.len() == blocks_for(data.len() as int)) by {
        reveal(spec_written);
    }
    if pc0.len() <= pc.len() && blocks_needed(d0, spec_inode_at(d0, parent), pc.len() as int) == 0 {
        lemma_written_bits(d0, d1, parent, data);
        assert(pc.take(pc0.len() as int) =~= pc0) by {
            assert(pc0.take(pc0.len() as int) =~= pc0);
        }
    }
}

/// What the making of something at `ino` under `parent` leaves of another
/// file that was in order and had no block in common with the parent.
proof fn lemma_made_bystander(
    d0: Seq<Seq<u8>>,
    d1: Seq<Seq<u8>>,
    d3: Seq<Seq<u8>>,
    parent: int,
    ino: int,
    b: int,
    data: Seq<u8>,
)
    requires
        blocks_wf(d0),
        blocks_wf(d1),
        0 <= parent < INODE_COUNT,
        0 <= b < INODE_COUNT,
        b != parent,
        b != ino,
        spec_get_blocks(d0, spec_inode_at(d0, parent)) is Some,
        spec_written(d0, d1, parent, data),
        file_ok(d0, b),
        apart(d0, parent, b),
        file_ok(d1, parent),
        file_ok(d1, b) ==> same_file(d1, d3, b) && apart(d3, ino, b),
        same_file(d1, d3, parent),
    ensures
        same_file(d0, d3, b),
        apart(d3, parent, b),
        apart(d3, ino, b),
{
    reveal(same_file);
    reveal(apart);
    lemma_write_bystander(d0, d1, parent, b, data);
    assert forall|x: int| 0 <= x < BLOCK_COUNT implies !(#[trigger] file_block(d3, parent, x)
        && file_block(d3, b, x)) by {
        if file_block(d3, parent, x) && file_block(d3, b, x) {
            assert(file_block(d1, parent, x));
            assert(file_block(d1, b, x));
        }
    }
}

/// Two files that have no block in common have none either way round.
pub proof fn lemma_apart_sym(d: Seq<Seq<u8>>, a: int, b: int)
    requires
        apart(d, a, b),
    ensures
        apart(d, b, a),
{
    reveal(apart);
}

/// The image of a directory, end marker and all, takes as many bytes as
/// its entries and the terminator.
proof fn lemma_image_len(es: Seq<(u32, Seq<u8>)>)
    ensures
        spec_dir_image(es).push(0u8).len() == dir_len(es.len() as int),
{
    super::dir::lemma_entries_bytes(es);
}

/// A name that no entry has is not the name of an entry.
proof fn lemma_lookup_none(es: Seq<(u32, Seq<u8>)>, name: Seq<u8>, ino: u32, i: int)
    requires
        0 <= i <= es.len(),
        spec_lookup(es, name, i) is None,
    ensures
        forall|k: int| i <= k < es.len() ==> es[k] != (ino, name),
        i == 0 ==> !es.contains((ino, name)),
    decreases es.len() - i,
{
    if i < es.len() {
        lemma_lookup_none(es, name, ino, i + 1);
    }
}

/// Whether `name` is `.` or `..`.
pub open spec fn is_dot_name(name: Seq<u8>) -> bool {
    name == dot() || name == dotdot()
}

/// Whether what the path `p` names can be removed as far as the path, the
/// kind of thing and the open descriptors go: the path names an inode
/// other than the root, by a last segment other than `.` and `..`; the
/// inode is of the kind asked for and not open; its chain can be read and
/// holds data blocks only; and the path's parent can be looked up.
pub open spec fn spec_remove_path_ok(
    d: Seq<Seq<u8>>,
    t: Map<u32, FdTableEntry>,
    p: Seq<u8>,
    want_dir: bool,
) -> bool {
    let q = trim_slash(p);
    let ino = spec_path_to_inode(d, p)->Ok_0;
    let iv = spec_inode_at(d, ino as int);
    &&& spec_path_to_inode(d, p) is Ok
    &&& 0 < ino < INODE_COUNT
    &&& !is_dot_name(spec_name(q))
    &&& spec_is_dir(iv) == want_dir
    &&& !t.contains_key(ino)
    &&& spec_get_blocks(d, iv) is Some
    &&& forall|i: int|
        0 <= i < spec_get_blocks(d, iv)->Some_0.len() ==> is_data_addr(
            #[trigger] spec_get_blocks(d, iv)->Some_0[i],
        )
    &&& spec_path_to_inode(d, spec_parent(q)) is Ok
}

/// The error with which removing what the path `p` names fails for the
/// sake of the path, the kind of thing or the open descriptors.
pub open spec fn spec_remove_path_err(
    d: Seq<Seq<u8>>,
    t: Map<u32, FdTableEntry>,
    p: Seq<u8>,
    want_dir: bool,
) -> DdError {
    let q = trim_slash(p);
    match spec_path_to_inode(d, p) {
        Err(FsError::InvalidPath) => DdError::InvalidPath,
        Err(FsError::Corrupted) => DdError::DirIncorrupted,
        Err(_) => DdError::NotFound,
        Ok(ino) => {
            let iv = spec_inode_at(d, ino as int);
            if ino == 0 {
                DdError::DirOccupied
            } else if ino >= INODE_COUNT {
                DdError::NotFound
            } else if is_dot_name(spec_name(q)) {
                DdError::InvalidPath
            } else if spec_is_dir(iv) != want_dir {
                DdError::NotDir
            } else if t.contains_key(ino) {
                DdError::DirOccupied
            } else if !(spec_get_blocks(d, iv) is Some) || !(forall|i: int|
                0 <= i < spec_get_blocks(d, iv)->Some_0.len() ==> is_data_addr(
                    #[trigger] spec_get_blocks(d, iv)->Some_0[i],
                )) {
                DdError::DirIncorrupted
            } else {
                match spec_path_to_inode(d, spec_parent(q)) {
                    Err(FsError::Corrupted) => DdError::DirIncorrupted,
                    _ => DdError::ParentNotFound,
                }
            }
        },
    }
}

/// Whether what the path `p` names can be removed.
pub open spec fn spec_remove_node_ok(
    d: Seq<Seq<u8>>,
    t: Map<u32, FdTableEntry>,
    p: Seq<u8>,
    want_dir: bool,
) -> bool {
    &&& spec_remove_path_ok(d, t, p, want_dir)
    &&& spec_remove_ok(
        d,
        spec_path_to_inode(d, spec_parent(trim_slash(p)))->Ok_0 as int,
        spec_path_to_inode(d, p)->Ok_0,
    )
}

/// The error with which removing what the path `p` names fails.
pub open spec fn spec_remove_node_err(
    d: Seq<Seq<u8>>,
    t: Map<u32, FdTableEntry>,
    p: Seq<u8>,
    want_dir: bool,
) -> DdError {
    if !spec_remove_path_ok(d, t, p, want_dir) {
        spec_remove_path_err(d, t, p, want_dir)
    } else {
        match spec_remove_err(
            d,
            spec_path_to_inode(d, spec_parent(trim_slash(p)))->Ok_0 as int,
            spec_path_to_inode(d, p)->Ok_0,
        ) {
            DdError::NotFound => DdError::ParentNotFound,
            DdError::NotDir => DdError::ParentNotDir,
            e => e,
        }
    }
}

/// What holds of the image `d` once the inode `ino`, which named the
/// blocks `chain`, was removed from the directory `parent` of the image
/// `d0`, which held the entries `es`.
///
/// The parent holds what it held but for its first entry for the inode.
/// The inode and its blocks are marked as free. No inode but the parent's
/// has changed. Every other file that was in order and had no block in
/// common with the parent or with what was removed is what it was, and
/// has no block in common with the parent.
pub open spec fn spec_unmade(
    d0: Seq<Seq<u8>>,
    d: Seq<Seq<u8>>,
    parent: u32,
    es: Seq<(u32, Seq<u8>)>,
    ino: u32,
    chain: Seq<u32>,
) -> bool {
    &&& spec_read_dir(d, parent as int) == Some(es.remove(first_for(es, ino)))
    &&& spec_dir_payload(d, parent as int, es.remove(first_for(es, ino)))
    &&& spec_get_blocks(d, spec_inode_at(d, parent as int))->Some_0.len() == blocks_for(
        dir_len(es.len() as int - 1),
    )
    &&& file_ok(d0, ino as int) && apart(d0, parent as int, ino as int) ==> file_ok(
        d,
        parent as int,
    )
    &&& inode_bits(d) == inode_bits(d0).update(ino as int, false)
    &&& forall|i: int|
        0 <= i < chain.len() ==> is_data_addr(#[trigger] chain[i]) && !data_bits(d)[chain[i]
            - DATA_OFFSET]
    &&& forall|other: int|
        0 <= other < INODE_COUNT && other != parent ==> spec_inode_at(d, other) == spec_inode_at(
            d0,
            other,
        )
    &&& d[0] == d0[0]
    &&& forall|b: int|
        0 <= b < INODE_COUNT && b != ino && b != parent && #[trigger] file_ok(d0, b) && apart(
            d0,
            parent as int,
            b,
        ) && apart(d0, ino as int, b) ==> same_file(d0, d, b) && apart(d, parent as int, b)
    &&& spec_unmade_bits(
        d0,
        d,
        spec_inode_at(d0, parent as int),
        spec_get_blocks(d0, spec_inode_at(d0, parent as int))->Some_0,
        spec_get_blocks(d, spec_inode_at(d, parent as int))->Some_0,
        chain,
    )
}

/// What holds of the image `d` once what the path `p` named in the image
/// `d0` was removed.
pub open spec fn spec_removed(d0: Seq<Seq<u8>>, d: Seq<Seq<u8>>, p: Seq<u8>, ino: u32) -> bool {
    let parent = spec_path_to_inode(d0, spec_parent(trim_slash(p)))->Ok_0;
    &&& ino == spec_path_to_inode(d0, p)->Ok_0
    &&& spec_unmade(
        d0,
        d,
        parent,
        spec_read_dir(d0, parent as int)->Some_0,
        ino,
        spec_get_blocks(d0, spec_inode_at(d0, ino as int))->Some_0,
    )
}

/// Whether every block of `chain` is a data block.
fn all_data_addrs(chain: &Vec<u32>) -> (r: bool)
    ensures
        r == forall|i: int| 0 <= i < chain@.len() ==> is_data_addr(#[trigger] chain@[i]),
{
    let mut i: usize = 0;
    while i < chain.len()
        invariant
            i <= chain@.len(),
            forall|j: int| 0 <= j < i ==> is_data_addr(#[trigger] chain@[j]),
        decreases chain@.len() - i,
    {
        if chain[i] < DATA_OFFSET || chain[i] >= BLOCK_COUNT {
            return false;
        }
        i += 1;
    }
    true
}

/// The inode that the path `path` names, the inode of its parent and the
/// blocks to free, if what the path names can be removed as far as the
/// path, the kind of thing and the open descriptors go.
fn remove_check(disk: &Disk, table: &FdTable, path: &[u8], want_dir: bool) -> (r: Result<
    (u32, u32, Vec<u32>),
    DdError,
>)
    requires
        disk.wf(),
    ensures
        r is Ok <==> spec_remove_path_ok(disk@, table@, path@, want_dir),
        r is Ok ==> {
            &&& r->Ok_0.0 == spec_path_to_inode(disk@, path@)->Ok_0
            &&& r->Ok_0.1 == spec_path_to_inode(disk@, spec_parent(trim_slash(path@)))->Ok_0
            &&& r->Ok_0.2@ == spec_get_blocks(
                disk@,
                spec_inode_at(disk@, r->Ok_0.0 as int),
            )->Some_0
        },
        r is Err ==> r->Err_0 == spec_remove_path_err(disk@, table@, path@, want_dir),
{
    let ino = match resolve(disk, path) {
        Ok(i) => i,
        Err(e) => {
            return Err(
                match e {
                    FsError::InvalidPath => DdError::InvalidPath,
                    FsError::Corrupted => DdError::DirIncorrupted,
                    _ => DdError::NotFound,
                },
            );
        },
    };
    if ino == 0 {
        return Err(DdError::DirOccupied);
    }
    let inode = match load_inode(disk, ino) {
        Ok(i) => i,
        Err(_) => {
            return Err(DdError::NotFound);
        },
    };
    let len: usize = path.len();
    let end: usize = if len > 0 && path[len - 1] == SLASH {
        len - 1
    } else {
        len
    };
    let q = vstd::slice::slice_subrange(path, 0, end);
    assert(q@ =~= trim_slash(path@));
    let k: usize = match find_last_slash(q) {
        Some(k) => k,
        None => {
            proof {
                lemma_resolved_has_slash(disk@, path@);
            }
            return Err(DdError::InvalidPath);
        },
    };
    let name = vstd::slice::slice_subrange(q, k + 1, end);
    assert(name@ =~= spec_name(q@));
    let mut one: Vec<u8> = Vec::new();
    one.push(46u8);
    let mut two: Vec<u8> = Vec::new();
    two.push(46u8);
    two.push(46u8);
    assert(one@ =~= dot() && two@ =~= dotdot());
    if bytes_eq(name, one.as_slice()) || bytes_eq(name, two.as_slice()) {
        return Err(DdError::InvalidPath);
    }
    if (inode.mode & super::inode::DIR_FLAG != 0) != want_dir {
        return Err(DdError::NotDir);
    }
    if table.check(ino).is_some() {
        return Err(DdError::DirOccupied);
    }
    let chain = match get_blocks(disk, &inode) {
        Ok(c) => c,
        Err(_) => {
            return Err(DdError::DirIncorrupted);
        },
    };
    if !all_data_addrs(&chain) {
        return Err(DdError::DirIncorrupted);
    }
    let parent_path = if k == 0 {
        vstd::slice::slice_subrange(q, 0, 1)
    } else {
        vstd::slice::slice_subrange(q, 0, k)
    };
    assert(parent_path@ =~= spec_parent(q@));
    let parent = match resolve(disk, parent_path) {
        Ok(i) => i,
        Err(e) => {
            return Err(
                match e {
                    FsError::Corrupted => DdError::DirIncorrupted,
                    _ => DdError::ParentNotFound,
                },
            );
        },
    };
    Ok((ino, parent, chain))
}

/// A path that names something begins with a slash, and so does what is
/// left of it without a slash at its end.
proof fn lemma_resolved_has_slash(d: Seq<Seq<u8>>, p: Seq<u8>)
    requires
        spec_path_to_inode(d, p) is Ok,
    ensures
        last_slash(trim_slash(p)) >= 0 || spec_path_to_inode(d, p) == Ok::<u32, FsError>(0u32),
{
    if p != seq![SLASH] {
        let q = trim_slash(p);
        if q.len() == 0 {
            assert(seg_end(q, 1) == 1);
        } else {
            assert(q[0] == p[0]);
            lemma_has_slash(q, 0);
        }
    }
}

/// What the freeing of an inode and of its blocks leaves of a directory
/// from which the inode's entry was taken.
proof fn lemma_after_free(
    d0: Seq<Seq<u8>>,
    d1: Seq<Seq<u8>>,
    d2: Seq<Seq<u8>>,
    d3: Seq<Seq<u8>>,
    parent: int,
    data: Seq<u8>,
    es: Seq<(u32, Seq<u8>)>,
    ino: int,
    chain: Seq<u32>,
)
    requires
        blocks_wf(d0),
        blocks_wf(d1),
        blocks_wf(d2),
        blocks_wf(d3),
        0 <= parent < INODE_COUNT,
        0 < ino < INODE_COUNT,
        spec_written(d0, d1, parent, data),
        spec_read_dir(d1, parent) == Some(es),
        same_but_data_bitmap(d2, d1),
        data_bits(d2) == mark_all(data_bits(d1), chain, false),
        forall|i: int| 0 <= i < chain.len() ==> is_data_addr(#[trigger] chain[i]),
        inode_bits(d3) == inode_bits(d2).update(ino, false),
        forall|b: int|
            0 <= b < BLOCK_COUNT && b != super::inode::BITMAP_OFFSET ==> d3[b] == d2[b],
    ensures
        spec_read_dir(d3, parent) == Some(es),
        spec_file_raw(d3, parent) == spec_file_raw(d1, parent),
        inode_bits(d3) == inode_bits(d0).update(ino, false),
        forall|i: int|
            0 <= i < chain.len() ==> is_data_addr(#[trigger] chain[i]) && !data_bits(d3)[chain[i]
                - DATA_OFFSET],
        forall|other: int|
            0 <= other < INODE_COUNT && other != parent ==> spec_inode_at(d3, other)
                == spec_inode_at(d0, other),
        d3[0] == d0[0],
        spec_unmade_bits(
            d0,
            d3,
            spec_inode_at(d0, parent),
            spec_get_blocks(d0, spec_inode_at(d0, parent))->Some_0,
            spec_get_blocks(d3, spec_inode_at(d3, parent))->Some_0,
            chain,
        ),
        spec_get_blocks(d3, spec_inode_at(d3, parent))->Some_0.len() == blocks_for(
            data.len() as int,
        ),
{
    lemma_unmade_bits(d0, d1, d2, d3, parent, data, chain);
    reveal(spec_written);
    lemma_file_blocks(d1, parent);
    assert(inode_block(parent) >= 2);
    assert(d1[super::inode::BITMAP_OFFSET as int] == d0[super::inode::BITMAP_OFFSET as int]);
    assert(d2[super::inode::BITMAP_OFFSET as int] == d1[super::inode::BITMAP_OFFSET as int]);
    assert forall|b: int| 0 <= b < BLOCK_COUNT && #[trigger] file_block(d1, parent, b) implies d3[b]
        == d1[b] by {
        assert(d2[b] == d1[b]);
    }
    assert forall|other: int| 0 <= other < INODE_COUNT implies spec_inode_at(d3, other)
        == spec_inode_at(d1, other) by {
        assert(d3[inode_block(other)] == d1[inode_block(other)]);
    }
    lemma_file_frame(d1, d3, parent);
    assert forall|i: int| 0 <= i < chain.len() implies !data_bits(d3)[(#[trigger] chain[i])
        - DATA_OFFSET] by {
        assert(chain.contains(chain[i]));
        assert(data_bits(d3) =~= data_bits(d2));
    }
}

/// The bitmap after something was removed, from the bitmap after its
/// entry was taken out and the freeing of its blocks.
proof fn lemma_unmade_bits(
    d0: Seq<Seq<u8>>,
    d1: Seq<Seq<u8>>,
    d2: Seq<Seq<u8>>,
    d3: Seq<Seq<u8>>,
    parent: int,
    data: Seq<u8>,
    chain: Seq<u32>,
)
    requires
        blocks_wf(d1),
        blocks_wf(d3),
        0 <= parent < INODE_COUNT,
        spec_written(d0, d1, parent, data),
        same_but_data_bitmap(d2, d1),
        data_bits(d2) == mark_all(data_bits(d1), chain, false),
        forall|b: int|
            0 <= b < BLOCK_COUNT && b != super::inode::BITMAP_OFFSET ==> d3[b] == d2[b],
    ensures
        spec_unmade_bits(
            d0,
            d3,
            spec_inode_at(d0, parent),
            spec_get_blocks(d0, spec_inode_at(d0, parent))->Some_0,
            spec_get_blocks(d3, spec_inode_at(d3, parent))->Some_0,
            chain,
        ),
        spec_get_blocks(d3, spec_inode_at(d3, parent))->Some_0.len() == blocks_for(
            data.len() as int,
        ),
{
    let pc0 = spec_get_blocks(d0, spec_inode_at(d0, parent))->Some_0;
    assert(file_ok(d1, parent)) by {
        reveal(spec_written);
    }
    lemma_file_blocks(d1, parent);
    assert forall|b: int| 0 <= b < BLOCK_COUNT && #[trigger] file_block(d1, parent, b) implies d3[b]
        == d1[b] by {
        assert(d2[b] == d1[b]);
    }
    assert(spec_inode_at(d3, parent) == spec_inode_at(d1, parent)) by {
        assert(d3[inode_block(parent)] == d1[inode_block(parent)]);
    }
    lemma_file_frame(d1, d3, parent);
    let pc = spec_get_blocks(d3, spec_inode_at(d3, parent))->Some_0;
    assert(data_bits(d3) =~= data_bits(d2));
    assert(pc.len() == blocks_for(data.len() as int)) by {
        reveal(spec_written);
    }
    let pc1 = spec_get_blocks(d1, spec_inode_at(d1, parent))->Some_0;
    assert(pc == pc1);
    if pc.len() <= pc0.len() && blocks_needed(d0, spec_inode_at(d0, parent), pc.len() as int) == 0 {
        lemma_written_bits(d0, d1, parent, data);
        let nb = pc.len() as int;
        assert(kept(pc0.len() as int, nb) == nb);
        assert(pc1.take(nb) =~= pc1);
        assert(pc == pc0.take(nb));
        if pc.len() == pc0.len() {
            assert(pc.subrange(pc0.len() as int, pc.len() as int) =~= Seq::<u32>::empty());
            assert(pc0.subrange(pc.len() as int, pc0.len() as int) =~= Seq::<u32>::empty());
            assert(mark_all(data_bits(d0), Seq::<u32>::empty(), true) =~= mark_all(
                data_bits(d0),
                Seq::<u32>::empty(),
                false,
            ));
            assert(pc.take(pc.len() as int) =~= pc);
        }
    }
}

/// What the removing of `ino` from under `parent` leaves of another file
/// that was in order and had no block in common with either.
/// The directory from which an entry was taken is in order once the
/// blocks of what the entry named are freed, where that was in order and
/// had no block in common with the directory.
proof fn lemma_unmade_parent(
    d0: Seq<Seq<u8>>,
    d1: Seq<Seq<u8>>,
    d2: Seq<Seq<u8>>,
    d3: Seq<Seq<u8>>,
    parent: int,
    ino: int,
    data: Seq<u8>,
    chain: Seq<u32>,
)
    requires
        blocks_wf(d0),
        blocks_wf(d1),
        blocks_wf(d2),
        blocks_wf(d3),
        0 <= parent < INODE_COUNT,
        0 <= ino < INODE_COUNT,
        spec_written(d0, d1, parent, data),
        spec_get_blocks(d0, spec_inode_at(d0, ino)) == Some(chain),
        same_but_data_bitmap(d2, d1),
        data_bits(d2) == mark_all(data_bits(d1), chain, false),
        forall|x: int|
            0 <= x < BLOCK_COUNT && x != super::inode::BITMAP_OFFSET ==> d3[x] == d2[x],
        file_ok(d0, ino),
        apart(d0, parent, ino),
    ensures
        file_ok(d3, parent),
{
    reveal(apart);
    assert(file_ok(d1, parent)) by {
        reveal(spec_written);
    }
    lemma_file_blocks(d1, parent);
    lemma_file_blocks(d0, ino);
    assert forall|x: int| 0 <= x < BLOCK_COUNT && #[trigger] file_block(d1, parent, x) implies d3[x]
        == d1[x] && DATA_OFFSET <= x && data_bits(d3)[x - DATA_OFFSET] by {
        assert(d2[x] == d1[x]);
        assert(file_block(d0, parent, x) || super::file::free_in(d0, x)) by {
            reveal(spec_written);
        }
        if chain.contains(x as u32) {
            assert(file_block(d0, ino, x));
        }
        assert(data_bits(d3) =~= data_bits(d2));
    }
    assert(spec_inode_at(d3, parent) == spec_inode_at(d1, parent)) by {
        assert(d3[inode_block(parent)] == d1[inode_block(parent)]);
    }
    lemma_file_stays_ok(d1, d3, parent);
}

proof fn lemma_unmade_bystander(
    d0: Seq<Seq<u8>>,
    d1: Seq<Seq<u8>>,
    d2: Seq<Seq<u8>>,
    d3: Seq<Seq<u8>>,
    parent: int,
    ino: int,
    b: int,
    data: Seq<u8>,
    chain: Seq<u32>,
)
    requires
        blocks_wf(d0),
        blocks_wf(d1),
        blocks_wf(d2),
        blocks_wf(d3),
        0 <= parent < INODE_COUNT,
        0 <= ino < INODE_COUNT,
        0 <= b < INODE_COUNT,
        b != parent,
        b != ino,
        spec_get_blocks(d0, spec_inode_at(d0, parent)) is Some,
        spec_written(d0, d1, parent, data),
        spec_get_blocks(d0, spec_inode_at(d0, ino)) == Some(chain),
        same_but_data_bitmap(d2, d1),
        data_bits(d2) == mark_all(data_bits(d1), chain, false),
        forall|x: int|
            0 <= x < BLOCK_COUNT && x != super::inode::BITMAP_OFFSET ==> d3[x] == d2[x],
        file_ok(d0, b),
        apart(d0, parent, b),
        apart(d0, ino, b),
    ensures
        same_file(d0, d3, b),
        apart(d3, parent, b),
{
    lemma_write_bystander(d0, d1, parent, b, data);
    reveal(same_file);
    reveal(apart);
    lemma_file_blocks(d1, b);
    assert(file_ok(d1, parent)) by {
        reveal(spec_written);
    }
    lemma_file_blocks(d1, parent);
    assert forall|x: int| 0 <= x < BLOCK_COUNT && #[trigger] file_block(d1, b, x) implies d3[x]
        == d1[x] && DATA_OFFSET <= x && data_bits(d3)[x - DATA_OFFSET] by {
        assert(d2[x] == d1[x]);
        assert(file_block(d0, b, x));
        assert(!file_block(d0, ino, x));
        assert(!chain.contains(x as u32));
        assert(data_bits(d3) =~= data_bits(d2));
    }
    assert forall|other: int| 0 <= other < INODE_COUNT implies spec_inode_at(d3, other)
        == spec_inode_at(d1, other) by {
        assert(d3[inode_block(other)] == d1[inode_block(other)]);
    }
    lemma_file_stays_ok(d1, d3, b);
    assert forall|x: int| 0 <= x < BLOCK_COUNT && #[trigger] file_block(d1, parent, x) implies d3[x]
        == d1[x] by {
        assert(d2[x] == d1[x]);
    }
    lemma_file_frame(d1, d3, parent);
}

/// Removes the file or the directory that the path `path` names and gives
/// the inode it had.
///
/// The entry is taken out of the parent directory, the blocks of the chain
/// are marked as free, and so is the inode. A directory is removed with
/// what it holds: nothing beneath it is looked at. Nothing is written
/// unless all of it can be.
#[verifier::rlimit(50)]
#[verifier::spinoff_prover]
pub fn remove_node(disk: &mut Disk, table: &FdTable, path: &[u8], want_dir: bool) -> (r: Result<
    u32,
    DdError,
>)
    requires
        old(disk).wf(),
    ensures
        final(disk).wf(),
        r is Ok <==> spec_remove_node_ok(old(disk)@, table@, path@, want_dir),
        r is Ok ==> spec_removed(old(disk)@, final(disk)@, path@, r->Ok_0),
        r is Err ==> final(disk)@ == old(disk)@ && r->Err_0 == spec_remove_node_err(
            old(disk)@,
            table@,
            path@,
            want_dir,
        ),
{
    let (ino, parent, chain) = remove_check(disk, table, path, want_dir)?;
    let ghost d0 = disk@;
    let ghost es0 = spec_read_dir(d0, parent as int)->Some_0;
    match dir_remove_entry(disk, parent, ino) {
        Ok(()) => {},
        Err(e) => {
            return Err(
                match e {
                    DdError::NotFound => DdError::ParentNotFound,
                    DdError::NotDir => DdError::ParentNotDir,
                    e => e,
                },
            );
        },
    }
    let ghost d1 = disk@;
    let ghost es = es0.remove(first_for(es0, ino));
    let f = free_blocks(disk, &chain);
    assert(f is Ok);
    let ghost d2 = disk@;
    let g = free_inode(disk, ino);
    assert(g is Ok);
    proof {
        lemma_after_free(
            d0,
            d1,
            d2,
            disk@,
            parent as int,
            spec_dir_image(es).push(0u8),
            es,
            ino as int,
            chain@,
        );
        let data = spec_dir_image(es).push(0u8);
        lemma_written_payload(d0, d1, parent as int, es);
        lemma_image_len(es);
        super::dir::lemma_first_for_bounds(es0, ino);
        assert(es.len() == es0.len() - 1);
        if file_ok(d0, ino as int) && apart(d0, parent as int, ino as int) {
            lemma_unmade_parent(d0, d1, d2, disk@, parent as int, ino as int, data, chain@);
        }
        assert(spec_get_blocks(d0, spec_inode_at(d0, parent as int)) is Some) by {
            reveal(spec_write_ok);
        }
        assert forall|b: int|
            0 <= b < INODE_COUNT && b != ino && b != parent && #[trigger] file_ok(d0, b) && apart(
                d0,
                parent as int,
                b,
            ) && apart(d0, ino as int, b) implies same_file(d0, disk@, b) && apart(
            disk@,
            parent as int,
            b,
        ) by {
            lemma_unmade_bystander(d0, d1, d2, disk@, parent as int, ino as int, b, data, chain@);
        }
    }
    Ok(ino)
}

/// The file error that stands for an error of making or removing.
pub open spec fn spec_fd_dd_err(e: DdError) -> FdError {
    match e {
        DdError::SendErr => FdError::SendErr,
        DdError::RecvErr => FdError::RecvErr,
        DdError::InvalidPath => FdError::InvalidPath,
        DdError::NotFound => FdError::NotFound,
        DdError::NotDir => FdError::NotFile,
        DdError::ParentNotFound => FdError::ParentNotFound,
        DdError::ParentNotDir => FdError::ParentNotDir,
        DdError::DirExists => FdError::FileExists,
        DdError::DirOccupied => FdError::FileOccupied,
        DdError::DirIncorrupted => FdError::FileIncorrupted,
        DdError::NoEnoughSpace => FdError::NoEnoughSpace,
        DdError::EntryExists => FdError::FileExists,
        DdError::IoErr => FdError::IoErr,
    }
}

/// The file error that stands for an error of making or removing.
pub fn fd_from_dd_err(e: DdError) -> (r: FdError)
    ensures
        r == spec_fd_dd_err(e),
{
    match e {
        DdError::SendErr => FdError::SendErr,
        DdError::RecvErr => FdError::RecvErr,
        DdError::InvalidPath => FdError::InvalidPath,
        DdError::NotFound => FdError::NotFound,
        DdError::NotDir => FdError::NotFile,
        DdError::ParentNotFound => FdError::ParentNotFound,
        DdError::ParentNotDir => FdError::ParentNotDir,
        DdError::DirExists => FdError::FileExists,
        DdError::DirOccupied => FdError::FileOccupied,
        DdError::DirIncorrupted => FdError::FileIncorrupted,
        DdError::NoEnoughSpace => FdError::NoEnoughSpace,
        DdError::EntryExists => FdError::FileExists,
        DdError::IoErr => FdError::IoErr,
    }
}

/// The inode on which opening the path `p` opens a descriptor of the given
/// kind, or the error with which it fails.
pub open spec fn spec_open_node(
    d: Seq<Seq<u8>>,
    t: Map<u32, FdTableEntry>,
    p: Seq<u8>,
    is_dir: bool,
) -> Result<u32, DdError> {
    match spec_path_to_inode(d, p) {
        Err(FsError::InvalidPath) => Err(DdError::InvalidPath),
        Err(FsError::Corrupted) => Err(DdError::DirIncorrupted),
        Err(_) => Err(DdError::NotFound),
        Ok(i) => if spec_get_ok(d, t, i, is_dir) {
            Ok(i)
        } else if i >= INODE_COUNT {
            Err(DdError::NotFound)
        } else {
            Err(DdError::NotDir)
        },
    }
}

/// Opens the file that the path `path` names.
pub fn open_file(disk: &Disk, table: &mut FdTable, path: &str) -> (r: Result<Fd, FdError>)
    requires
        disk.wf(),
        old(table).wf(),
    ensures
        final(table).wf(),
        r is Ok <==> spec_open_node(disk@, old(table)@, encode_utf8(path@), false) is Ok,
        r is Ok ==> {
            let i = spec_open_node(disk@, old(table)@, encode_utf8(path@), false)->Ok_0;
            &&& r->Ok_0.spec_inode_addr() == i
            &&& r->Ok_0.spec_metadata().inode_addr() == i
            &&& r->Ok_0.spec_metadata().inode()@ == spec_inode_at(disk@, i as int)
            &&& final(table)@ == spec_open(old(table)@, i, false)
        },
        r is Err ==> final(table)@ == old(table)@ && spec_open_node(
            disk@,
            old(table)@,
            encode_utf8(path@),
            false,
        ) is Err && r->Err_0 == spec_fd_dd_err(
            spec_open_node(disk@, old(table)@, encode_utf8(path@), false)->Err_0,
        ),
{
    let inode_addr = match super::path::path_to_inode(disk, path) {
        Ok(i) => i,
        Err(e) => {
            return Err(
                match e {
                    FsError::InvalidPath => FdError::InvalidPath,
                    FsError::Corrupted => FdError::FileIncorrupted,
                    _ => FdError::NotFound,
                },
            );
        },
    };
    match table.get_file(disk, inode_addr) {
        Ok(fd) => Ok(fd),
        Err(e) => Err(
            match e {
                FsError::NotFound => FdError::NotFound,
                _ => FdError::NotFile,
            },
        ),
    }
}

/// Opens the directory that the path `path` names.
pub fn open_dir(disk: &Disk, table: &mut FdTable, path: &str) -> (r: Result<Dd, DdError>)
    requires
        disk.wf(),
        old(table).wf(),
    ensures
        final(table).wf(),
        r is Ok <==> spec_open_node(disk@, old(table)@, encode_utf8(path@), true) is Ok,
        r is Ok ==> {
            let i = spec_open_node(disk@, old(table)@, encode_utf8(path@), true)->Ok_0;
            &&& r->Ok_0.spec_inode_addr() == i
            &&& r->Ok_0.spec_metadata().inode_addr() == i
            &&& r->Ok_0.spec_metadata().inode()@ == spec_inode_at(disk@, i as int)
            &&& final(table)@ == spec_open(old(table)@, i, true)
        },
        r is Err ==> final(table)@ == old(table)@ && spec_open_node(
            disk@,
            old(table)@,
            encode_utf8(path@),
            true,
        ) == Err::<u32, DdError>(r->Err_0),
{
    let inode_addr = match super::path::path_to_inode(disk, path) {
        Ok(i) => i,
        Err(e) => {
            return Err(
                match e {
                    FsError::InvalidPath => DdError::InvalidPath,
                    FsError::Corrupted => DdError::DirIncorrupted,
                    _ => DdError::NotFound,
                },
            );
        },
    };
    match table.get_dir(disk, inode_addr) {
        Ok(dd) => Ok(dd),
        Err(e) => Err(
            match e {
                FsError::NotFound => DdError::NotFound,
                _ => DdError::NotDir,
            },
        ),
    }
}

/// Makes an empty file for `uid` at the path `path` and opens it.
pub fn create_file(disk: &mut Disk, table: &mut FdTable, path: &str, uid: u8) -> (r: Result<
    Fd,
    FdError,
>)
    requires
        old(disk).wf(),
        old(table).wf(),
    ensures
        final(disk).wf(),
        final(table).wf(),
        r is Ok <==> spec_create_ok(old(disk)@, encode_utf8(path@)),
        r is Ok ==> {
            let i = r->Ok_0.spec_inode_addr();
            &&& spec_created(old(disk)@, final(disk)@, encode_utf8(path@), uid, false, i)
            &&& r->Ok_0.spec_metadata().inode_addr() == i
            &&& r->Ok_0.spec_metadata().inode()@ == spec_inode_at(final(disk)@, i as int)
            &&& final(table)@ == old(table)@.insert(i, FdTableEntry { count: 1, is_dir: false })
        },
        r is Err ==> final(disk)@ == old(disk)@ && final(table)@ == old(table)@ && r->Err_0
            == spec_fd_dd_err(spec_create_err(old(disk)@, encode_utf8(path@))),
{
    let ino = match create_node(disk, path.as_bytes(), uid, false) {
        Ok(i) => i,
        Err(e) => {
            return Err(fd_from_dd_err(e));
        },
    };
    table.add_file(ino);
    let inode = match load_inode(disk, ino) {
        Ok(i) => i,
        Err(_) => super::inode::Inode::with_timestamp(uid, false, 0),
    };
    Ok(Fd::new(ino, Metadata::new(ino, inode)))
}

/// Makes a directory for `uid` at the path `path`, with `.` and `..` in
/// it, and opens it.
pub fn create_dir(disk: &mut Disk, table: &mut FdTable, path: &str, uid: u8) -> (r: Result<
    Dd,
    DdError,
>)
    requires
        old(disk).wf(),
        old(table).wf(),
    ensures
        final(disk).wf(),
        final(table).wf(),
        r is Ok <==> spec_create_ok(old(disk)@, encode_utf8(path@)),
        r is Ok ==> {
            let i = r->Ok_0.spec_inode_addr();
            &&& spec_created(old(disk)@, final(disk)@, encode_utf8(path@), uid, true, i)
            &&& r->Ok_0.spec_metadata().inode_addr() == i
            &&& r->Ok_0.spec_metadata().inode()@ == spec_inode_at(final(disk)@, i as int)
            &&& final(table)@ == old(table)@.insert(i, FdTableEntry { count: 1, is_dir: true })
        },
        r is Err ==> final(disk)@ == old(disk)@ && final(table)@ == old(table)@ && r->Err_0
            == spec_create_err(old(disk)@, encode_utf8(path@)),
{
    let ino = create_node(disk, path.as_bytes(), uid, true)?;
    table.add_dir(ino);
    let inode = match load_inode(disk, ino) {
        Ok(i) => i,
        Err(_) => super::inode::Inode::with_timestamp(uid, true, 0),
    };
    Ok(Dd::new(ino, Metadata::new(ino, inode)))
}

/// Removes the file that the path `path` names, unless it is open.
pub fn remove_file(disk: &mut Disk, table: &FdTable, path: &str) -> (r: Result<(), FdError>)
    requires
        old(disk).wf(),
    ensures
        final(disk).wf(),
        r is Ok <==> spec_remove_node_ok(old(disk)@, table@, encode_utf8(path@), false),
        r is Ok ==> spec_removed(
            old(disk)@,
            final(disk)@,
            encode_utf8(path@),
            spec_path_to_inode(old(disk)@, encode_utf8(path@))->Ok_0,
        ),
        r is Err ==> final(disk)@ == old(disk)@ && r->Err_0 == spec_fd_dd_err(
            spec_remove_node_err(old(disk)@, table@, encode_utf8(path@), false),
        ),
{
    match remove_node(disk, table, path.as_bytes(), false) {
        Ok(_) => Ok(()),
        Err(e) => Err(fd_from_dd_err(e)),
    }
}

/// Removes the directory that the path `path` names, unless it is open.
/// What the directory holds is not looked at.
pub fn remove_dir(disk: &mut Disk, table: &FdTable, path: &str) -> (r: Result<(), DdError>)
    requires
        old(disk).wf(),
    ensures
        final(disk).wf(),
        r is Ok <==> spec_remove_node_ok(old(disk)@, table@, encode_utf8(path@), true),
        r is Ok ==> spec_removed(
            old(disk)@,
            final(disk)@,
            encode_utf8(path@),
            spec_path_to_inode(old(disk)@, encode_utf8(path@))->Ok_0,
        ),
        r is Err ==> final(disk)@ == old(disk)@ && r->Err_0 == spec_remove_node_err(
            old(disk)@,
            table@,
            encode_utf8(path@),
            true,
        ),
{
    match remove_node(disk, table, path.as_bytes(), true) {
        Ok(_) => Ok(()),
        Err(e) => Err(e),
    }
}

} // verus!
