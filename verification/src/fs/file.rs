//! Files: the bytes behind an inode's chain of data blocks.
//!
//! A file's payload is followed on disk by one NUL byte, which marks its
//! end when the file is read back.

use vstd::prelude::*;
use super::bitmap::{count_false, lemma_count_false_mono};
use super::data::{
    alloc_blocks, data_bits, DATA_CAPACITY, DATA_OFFSET, DataError, free_blocks, is_data_addr,
    lowest_free, mark_all, same_but_data_bitmap,
};
use super::disk::{
    addrs_valid, BLOCK_COUNT, block_image, BLOCK_SIZE, blocks_wf, Disk, DiskError,
    lemma_read_blocks, lemma_write_blocks_distinct, lemma_write_blocks_frame,
    lemma_write_blocks_wf, read_blocks, spec_read_blocks, spec_write_blocks, write_blocks,
    writes_valid,
};
use super::inode::{
    blocks_needed, chain_layout, count_needed, get_blocks, Inode, inode_block, INODE_COUNT,
    InodeError, InodeView, is_index_of, is_owned_index, lemma_get_blocks_len, lemma_grow_owned,
    lemma_index_data, lemma_index_mono, lemma_index_ok, lemma_layout_frame, lemma_nz_prefix_all, lemma_owned_frame,
    lemma_owned_mono, lemma_put_inode, lemma_slots_frame, load_inode, MAX_BLOCKS, MAX_SIZE,
    missing_slots, owned_ok, plan_slots, save_inode, slots_for, slots_read, spec_get_blocks,
    spec_inode_at, spec_put_inode, spec_slots, update_blocks, used_in,
};
use super::metadata::Metadata;

pub use super::node::{create_file, open_file, remove_file};

verus! {

#[derive(Debug, Clone, Copy, PartialEq, Eq, Structural)]
pub enum FdError {
    /// The request could not be sent to the file system.
    SendErr,
    /// No reply came back from the file system.
    RecvErr,
    InvalidPath,
    NotFound,
    /// The path names a directory.
    NotFile,
    ParentNotFound,
    ParentNotDir,
    FileExists,
    /// The file is open somewhere.
    FileOccupied,
    /// What the disk holds for the file breaks the rules of the layout.
    FileIncorrupted,
    NoEnoughSpace,
    IoErr,
}

/// The file error that stands for a disk error.
pub open spec fn spec_fd_disk_err(e: DiskError) -> FdError {
    match e {
        DiskError::InvalidAddr => FdError::FileIncorrupted,
        DiskError::IoErr => FdError::IoErr,
    }
}

/// The file error that stands for an inode error.
pub open spec fn spec_fd_inode_err(e: InodeError) -> FdError {
    match e {
        InodeError::InvalidAddr => FdError::NotFound,
        InodeError::NoUsableBlock => FdError::NoEnoughSpace,
        InodeError::DataTooBig => FdError::NoEnoughSpace,
        InodeError::DiskErr(e) => spec_fd_disk_err(e),
    }
}

/// The file error that stands for an allocator error.
pub open spec fn spec_fd_data_err(e: DataError) -> FdError {
    match e {
        DataError::InvalidAddr => FdError::FileIncorrupted,
        DataError::InsufficientUsableBlocks => FdError::NoEnoughSpace,
        DataError::DiskErr(e) => spec_fd_disk_err(e),
    }
}

impl FdError {
    #[allow(non_snake_case)]
    pub fn DiskErr(e: DiskError) -> (r: Self)
        ensures
            r == spec_fd_disk_err(e),
    {
        match e {
            DiskError::InvalidAddr => Self::FileIncorrupted,
            DiskError::IoErr => Self::IoErr,
        }
    }

    pub fn from_inode_err(e: InodeError) -> (r: Self)
        ensures
            r == spec_fd_inode_err(e),
    {
        match e {
            InodeError::InvalidAddr => Self::NotFound,
            InodeError::NoUsableBlock => Self::NoEnoughSpace,
            InodeError::DataTooBig => Self::NoEnoughSpace,
            InodeError::DiskErr(e) => Self::DiskErr(e),
        }
    }

    pub fn from_data_err(e: DataError) -> (r: Self)
        ensures
            r == spec_fd_data_err(e),
    {
        match e {
            DataError::InvalidAddr => Self::FileIncorrupted,
            DataError::InsufficientUsableBlocks => Self::NoEnoughSpace,
            DataError::DiskErr(e) => Self::DiskErr(e),
        }
    }
}

/// The first position from `i` on at which `raw` holds a NUL, or the length
/// of `raw` if there is none.
pub open spec fn eof_from(raw: Seq<u8>, i: int) -> int
    decreases raw.len() - i,
{
    if i < 0 || i >= raw.len() || raw[i] == 0 {
        i
    } else {
        eof_from(raw, i + 1)
    }
}

/// The search for a NUL from `i` ends at `n` when no byte from `i` to `n`
/// is NUL and byte `n`, if there is one, is.
pub proof fn lemma_eof_from(raw: Seq<u8>, i: int, n: int)
    requires
        0 <= i <= n <= raw.len(),
        forall|k: int| i <= k < n ==> raw[k] != 0,
        n < raw.len() ==> raw[n] == 0,
    ensures
        eof_from(raw, i) == n,
    decreases n - i,
{
    if i < n {
        lemma_eof_from(raw, i + 1, n);
    }
}

/// Where the last block of `raw` begins.
pub open spec fn last_block_start(raw: Seq<u8>) -> int {
    if raw.len() < BLOCK_SIZE {
        0
    } else {
        raw.len() - BLOCK_SIZE
    }
}

/// The payload of a file whose blocks hold `raw`: all of it up to the first
/// NUL in its last block.
pub open spec fn spec_trim(raw: Seq<u8>) -> Seq<u8> {
    raw.take(eof_from(raw, last_block_start(raw)))
}

/// What the blocks of the inode at `addr` hold, one after the other.
/// `None` where the chain cannot be read.
pub open spec fn spec_file_raw(d: Seq<Seq<u8>>, addr: int) -> Option<Seq<u8>> {
    match spec_get_blocks(d, spec_inode_at(d, addr)) {
        Some(chain) => if addrs_valid(chain) {
            Some(spec_read_blocks(d, chain))
        } else {
            None
        },
        None => None,
    }
}

/// What reading the file at `addr` gives.
pub open spec fn spec_read_file(d: Seq<Seq<u8>>, addr: int) -> Option<Seq<u8>> {
    match spec_file_raw(d, addr) {
        Some(raw) => Some(spec_trim(raw)),
        None => None,
    }
}

/// Number of blocks that `len` bytes take.
pub open spec fn blocks_for(len: int) -> int {
    (len + BLOCK_SIZE - 1) / BLOCK_SIZE as int
}

/// Reads the blocks of the inode at `inode` as they are.
pub fn read_raw(disk: &Disk, inode: u32) -> (r: Result<Vec<u8>, FdError>)
    requires
        disk.wf(),
    ensures
        r is Ok <==> inode < INODE_COUNT && spec_file_raw(disk@, inode as int) is Some,
        r is Ok ==> r->Ok_0@ == spec_file_raw(disk@, inode as int)->Some_0,
        r is Ok ==> r->Ok_0@.len() <= MAX_SIZE && r->Ok_0@.len() % BLOCK_SIZE as nat == 0,
        r is Err ==> r->Err_0 == if inode >= INODE_COUNT {
            FdError::NotFound
        } else {
            FdError::FileIncorrupted
        },
{
    let node = match load_inode(disk, inode) {
        Ok(i) => i,
        Err(e) => {
            return Err(FdError::from_inode_err(e));
        },
    };
    let blocks = match get_blocks(disk, &node) {
        Ok(b) => b,
        Err(e) => {
            return Err(FdError::from_inode_err(e));
        },
    };
    match read_blocks(disk, &blocks) {
        Ok(buf) => {
            assert(MAX_SIZE == 1024 * MAX_BLOCKS);
            Ok(buf)
        },
        Err(e) => Err(FdError::DiskErr(e)),
    }
}

/// Reads the payload of the file at `inode`: what its blocks hold up to
/// the first NUL in the last of them.
pub fn read_file(disk: &Disk, inode: u32) -> (r: Result<Vec<u8>, FdError>)
    requires
        disk.wf(),
    ensures
        r is Ok <==> inode < INODE_COUNT && spec_read_file(disk@, inode as int) is Some,
        r is Ok ==> r->Ok_0@ == spec_read_file(disk@, inode as int)->Some_0,
        r is Ok ==> r->Ok_0@.len() <= MAX_SIZE,
        r is Err ==> r->Err_0 == if inode >= INODE_COUNT {
            FdError::NotFound
        } else {
            FdError::FileIncorrupted
        },
{
    let mut buf = read_raw(disk, inode)?;
    let ghost raw = buf@;
    let mut end_at: usize = if buf.len() < BLOCK_SIZE as usize {
        0
    } else {
        buf.len() - BLOCK_SIZE as usize
    };
    let ghost start = end_at;
    while end_at < buf.len() && buf[end_at] != 0
        invariant
            start <= end_at <= buf@.len(),
            buf@ == raw,
            forall|k: int| start <= k < end_at ==> raw[k] != 0,
        decreases buf@.len() - end_at,
    {
        end_at += 1;
    }
    proof {
        lemma_eof_from(raw, start as int, end_at as int);
    }
    buf.truncate(end_at);
    Ok(buf)
}

/// The part of `data` that goes to block number `k` of a file.
pub open spec fn payload_chunk(data: Seq<u8>, k: int) -> Seq<u8> {
    data.subrange(
        k * BLOCK_SIZE,
        if data.len() < (k + 1) * BLOCK_SIZE {
            data.len() as int
        } else {
            (k + 1) * BLOCK_SIZE
        },
    )
}

/// The writes that put `data` into `blocks`, 1024 bytes to a block.
pub open spec fn payload_writes(blocks: Seq<u32>, data: Seq<u8>) -> Seq<(u32, Seq<u8>)> {
    Seq::new(blocks.len(), |k: int| (blocks[k], payload_chunk(data, k)))
}

/// Whether the blocks of `blocks` are data blocks, no two the same.
pub open spec fn distinct_data(blocks: Seq<u32>) -> bool {
    &&& forall|i: int| 0 <= i < blocks.len() ==> is_data_addr(#[trigger] blocks[i])
    &&& forall|i: int, j: int| 0 <= i < j < blocks.len() ==> blocks[i] != blocks[j]
}

/// After `data` was written into distinct blocks, reading those blocks
/// gives `data` and then whatever the last block held behind it.
pub proof fn lemma_payload_read_back(d: Seq<Seq<u8>>, blocks: Seq<u32>, data: Seq<u8>)
    requires
        blocks_wf(d),
        distinct_data(blocks),
        data.len() >= 1,
        blocks.len() == blocks_for(data.len() as int),
    ensures
        blocks_wf(spec_write_blocks(d, payload_writes(blocks, data))),
        spec_read_blocks(spec_write_blocks(d, payload_writes(blocks, data)), blocks).len()
            == blocks.len() * BLOCK_SIZE,
        spec_read_blocks(spec_write_blocks(d, payload_writes(blocks, data)), blocks).take(
            data.len() as int,
        ) == data,
        forall|b: int|
            0 <= b < BLOCK_COUNT && !blocks.contains(b as u32) ==> #[trigger] spec_write_blocks(
                d,
                payload_writes(blocks, data),
            )[b] == d[b],
{
    let ws = payload_writes(blocks, data);
    let d2 = spec_write_blocks(d, ws);
    assert(writes_valid(ws));
    lemma_write_blocks_wf(d, ws);
    assert(addrs_valid(blocks));
    lemma_read_blocks(d2, blocks);
    let raw = spec_read_blocks(d2, blocks);
    assert forall|j: int| 0 <= j < data.len() implies raw[j] == data[j] by {
        let k = j / BLOCK_SIZE as int;
        let o = j % BLOCK_SIZE as int;
        assert(0 <= k < blocks.len());
        assert(ws[k] == (blocks[k], payload_chunk(data, k)));
        lemma_write_blocks_distinct(d, ws, k);
        let chunk = payload_chunk(data, k);
        assert(o < chunk.len());
        assert(block_image(d[blocks[k] as int], chunk)[o] == chunk[o]);
    }
    assert(raw.take(data.len() as int) =~= data);
    assert forall|b: int| 0 <= b < BLOCK_COUNT && !blocks.contains(b as u32) implies #[trigger] d2[b]
        == d[b] by {
        assert forall|i: int| 0 <= i < ws.len() implies (#[trigger] ws[i]).0 != b by {
            assert(blocks[i] == ws[i].0);
        }
        lemma_write_blocks_frame(d, ws, b);
    }
}

/// Writes `data` into `blocks`, 1024 bytes to a block.
fn write_payload(disk: &mut Disk, blocks: &Vec<u32>, data: &Vec<u8>)
    requires
        old(disk).wf(),
        distinct_data(blocks@),
        data@.len() >= 1,
        blocks@.len() == blocks_for(data@.len() as int),
    ensures
        final(disk).wf(),
        final(disk)@ == spec_write_blocks(old(disk)@, payload_writes(blocks@, data@)),
{
    let mut ws: Vec<(u32, Vec<u8>)> = Vec::with_capacity(blocks.len());
    let mut k: usize = 0;
    while k < blocks.len()
        invariant
            k <= blocks@.len(),
            blocks@.len() == blocks_for(data@.len() as int),
            data@.len() >= 1,
            ws@.len() == k,
            forall|j: int|
                0 <= j < k ==> (#[trigger] ws@[j]).0 == blocks@[j] && ws@[j].1@ == payload_chunk(
                    data@,
                    j,
                ),
        decreases blocks@.len() - k,
    {
        let len: usize = data.len();
        assert(BLOCK_SIZE == 1024);
        assert(k < (len + 1023) / 1024);
        assert(k * 1024 < len);
        let from: usize = k * 1024;
        let to: usize = if len - from < BLOCK_SIZE as usize {
            data.len()
        } else {
            from + BLOCK_SIZE as usize
        };
        let chunk = vstd::slice::slice_to_vec(
            vstd::slice::slice_subrange(data.as_slice(), from, to),
        );
        assert(chunk@ == payload_chunk(data@, k as int));
        ws.push((blocks[k], chunk));
        k += 1;
    }
    proof {
        let want = payload_writes(blocks@, data@);
        assert(ws.deep_view().len() == want.len());
        assert forall|j: int| 0 <= j < want.len() implies ws.deep_view()[j] == want[j] by {
            assert(ws.deep_view()[j] == (ws@[j].0, ws@[j].1@));
        }
        assert(ws.deep_view() =~= want);
        assert(writes_valid(want));
    }
    let _ = write_blocks(disk, &ws);
}

/// How many blocks of a chain of `len` blocks a file of `nb` blocks keeps.
pub open spec fn kept(len: int, nb: int) -> int {
    if len < nb {
        len
    } else {
        nb
    }
}

/// Whether the chain `chain` of the inode `iv` can be resized: the inode
/// owns the chain and its index blocks.
pub open spec fn resize_ok(d: Seq<Seq<u8>>, iv: InodeView, chain: Seq<u32>, nb: int) -> bool {
    owned_ok(d, iv, chain)
}

/// How many blocks must be allocated to make the chain `chain` of the
/// inode `iv` `nb` blocks long: for data and for index blocks.
pub open spec fn spec_write_need(d: Seq<Seq<u8>>, iv: InodeView, chain: Seq<u32>, nb: int) -> int {
    nb - kept(chain.len() as int, nb) + blocks_needed(d, iv, nb)
}

/// Whether enough blocks are free to make the chain `chain` of the inode
/// `iv` `nb` blocks long.
pub open spec fn resize_fits(d: Seq<Seq<u8>>, iv: InodeView, chain: Seq<u32>, nb: int) -> bool {
    spec_write_need(d, iv, chain, nb) <= count_false(data_bits(d))
}

/// Whether the file at `a` is in order: its inode is laid out to name its
/// chain, and the chain and the index blocks are marked as taken in the
/// data bitmap, no block twice.
#[verifier::opaque]
pub open spec fn file_ok(d: Seq<Seq<u8>>, a: int) -> bool {
    let iv = spec_inode_at(d, a);
    &&& 0 <= a < INODE_COUNT
    &&& spec_get_blocks(d, iv) is Some
    &&& chain_layout(d, iv, spec_get_blocks(d, iv)->Some_0)
    &&& owned_ok(d, iv, spec_get_blocks(d, iv)->Some_0)
}

/// Whether block `b` belongs to the file at `a`: to its chain or to its
/// index blocks.
pub open spec fn file_block(d: Seq<Seq<u8>>, a: int, b: int) -> bool {
    let iv = spec_inode_at(d, a);
    let chain = spec_get_blocks(d, iv)->Some_0;
    chain.contains(b as u32) || is_owned_index(d, iv, b)
}

/// Whether the files at `a` and `b` have no block in common, neither in
/// their chains nor among their index blocks.
#[verifier::opaque]
pub open spec fn apart(d: Seq<Seq<u8>>, a: int, b: int) -> bool {
    forall|x: int| 0 <= x < BLOCK_COUNT ==> !(#[trigger] file_block(d, a, x) && file_block(d, b, x))
}

/// Whether the file at `b` is in order in `d` and what it was in `d0`: the
/// same inode, the same blocks and the same bytes.
#[verifier::opaque]
pub open spec fn same_file(d0: Seq<Seq<u8>>, d: Seq<Seq<u8>>, b: int) -> bool {
    &&& file_ok(d, b)
    &&& spec_inode_at(d, b) == spec_inode_at(d0, b)
    &&& spec_file_raw(d, b) == spec_file_raw(d0, b)
    &&& spec_get_blocks(d, spec_inode_at(d, b)) == spec_get_blocks(d0, spec_inode_at(d0, b))
    &&& forall|x: int| #[trigger] file_block(d, b, x) <==> file_block(d0, b, x)
}

/// Whether block `b` is a data block that the bitmap of `d` marks as free.
pub open spec fn free_in(d: Seq<Seq<u8>>, b: int) -> bool {
    DATA_OFFSET <= b < BLOCK_COUNT && !data_bits(d)[b - DATA_OFFSET]
}

/// The blocks of a file in order are data blocks that are marked as
/// taken.
pub proof fn lemma_file_blocks(d: Seq<Seq<u8>>, a: int)
    requires
        file_ok(d, a),
    ensures
        forall|b: int|
            0 <= b < BLOCK_COUNT && #[trigger] file_block(d, a, b) ==> DATA_OFFSET <= b
                && data_bits(d)[b - DATA_OFFSET],
{
    reveal(file_ok);
    let iv = spec_inode_at(d, a);
    let chain = spec_get_blocks(d, iv)->Some_0;
    lemma_index_data(d, iv, chain);
    assert forall|b: int| 0 <= b < BLOCK_COUNT && #[trigger] file_block(d, a, b) implies DATA_OFFSET
        <= b && data_bits(d)[b - DATA_OFFSET] by {
        if chain.contains(b as u32) {
            let i = choose|i: int| 0 <= i < chain.len() && chain[i] == b as u32;
            assert(used_in(data_bits(d), chain[i]));
        }
    }
}

/// A file in order reads the same after writes that leave its inode and
/// its blocks alone.
pub proof fn lemma_file_frame(d: Seq<Seq<u8>>, d2: Seq<Seq<u8>>, a: int)
    requires
        blocks_wf(d),
        blocks_wf(d2),
        file_ok(d, a),
        spec_inode_at(d2, a) == spec_inode_at(d, a),
        forall|b: int| 0 <= b < BLOCK_COUNT && #[trigger] file_block(d, a, b) ==> d2[b] == d[b],
    ensures
        spec_get_blocks(d2, spec_inode_at(d2, a)) == spec_get_blocks(d, spec_inode_at(d, a)),
        spec_file_raw(d2, a) == spec_file_raw(d, a),
        chain_layout(d2, spec_inode_at(d, a), spec_get_blocks(d, spec_inode_at(d, a))->Some_0),
        forall|x: int| file_block(d2, a, x) <==> file_block(d, a, x),
{
    reveal(file_ok);
    let iv = spec_inode_at(d, a);
    let chain = spec_get_blocks(d, iv)->Some_0;
    lemma_index_data(d, iv, chain);
    if iv.double_block != 0 && iv.double_block < BLOCK_COUNT {
        assert(super::inode::slots_read(MAX_BLOCKS as int) == super::inode::SLOT_COUNT);
        assert(is_owned_index(d, iv, iv.double_block as int));
        assert(file_block(d, a, iv.double_block as int));
    }
    lemma_slots_frame(d, d2, iv);
    assert forall|b: int| #[trigger]
        is_index_of(d, iv, chain.len() as int, b) implies 0 <= b < BLOCK_COUNT && d2[b] == d[b] by {
        lemma_index_mono(d, iv, chain.len() as int, b);
        assert(file_block(d, a, b));
    }
    lemma_layout_frame(d, d2, iv, chain);
    assert(addrs_valid(chain)) by {
        assert forall|i: int| 0 <= i < chain.len() implies chain[i] < BLOCK_COUNT by {
            assert(used_in(data_bits(d), chain[i]));
        }
    }
    lemma_read_blocks(d, chain);
    lemma_read_blocks(d2, chain);
    assert(spec_read_blocks(d2, chain) =~= spec_read_blocks(d, chain)) by {
        assert forall|k: int| 0 <= k < chain.len() * BLOCK_SIZE implies spec_read_blocks(
            d2,
            chain,
        )[k] == spec_read_blocks(d, chain)[k] by {
            let i = k / BLOCK_SIZE as int;
            assert(chain.contains(chain[i]));
            assert(file_block(d, a, chain[i] as int));
        }
    }
}

/// A file in order stays in order, with the same blocks, after writes
/// that leave its inode and its blocks alone and its blocks marked as
/// taken.
pub proof fn lemma_file_stays_ok(d: Seq<Seq<u8>>, d2: Seq<Seq<u8>>, a: int)
    requires
        blocks_wf(d),
        blocks_wf(d2),
        file_ok(d, a),
        spec_inode_at(d2, a) == spec_inode_at(d, a),
        forall|b: int| 0 <= b < BLOCK_COUNT && #[trigger] file_block(d, a, b) ==> d2[b] == d[b],
        forall|b: int|
            0 <= b < BLOCK_COUNT && #[trigger] file_block(d, a, b) ==> DATA_OFFSET <= b
                && data_bits(d2)[b - DATA_OFFSET],
    ensures
        file_ok(d2, a),
        spec_file_raw(d2, a) == spec_file_raw(d, a),
        spec_get_blocks(d2, spec_inode_at(d2, a)) == spec_get_blocks(d, spec_inode_at(d, a)),
        forall|b: int| file_block(d2, a, b) <==> file_block(d, a, b),
        same_file(d, d2, a),
{
    reveal(same_file);
    reveal(file_ok);
    let iv = spec_inode_at(d, a);
    let chain = spec_get_blocks(d, iv)->Some_0;
    lemma_file_frame(d, d2, a);
    lemma_index_data(d, iv, chain);
    assert forall|b: int| #[trigger] is_owned_index(d, iv, b) implies d2[b] == d[b] by {
        assert(file_block(d, a, b));
    }
    assert forall|x: u32|
        used_in(data_bits(d), x) && (chain.contains(x) || is_owned_index(
            d,
            iv,
            x as int,
        )) implies #[trigger] used_in(data_bits(d2), x) by {
        assert(file_block(d, a, x as int));
    }
    lemma_owned_frame(d, d2, iv, chain);
}

/// An inode that owns the front of a chain owns it still once the rest of
/// the chain is marked as free, where it owned the whole chain before.
proof fn lemma_shrink_owned(
    d0: Seq<Seq<u8>>,
    d2: Seq<Seq<u8>>,
    d3: Seq<Seq<u8>>,
    iv0: InodeView,
    iv2: InodeView,
    chain: Seq<u32>,
    nb: int,
)
    requires
        0 <= nb < chain.len() <= MAX_BLOCKS,
        owned_ok(d0, iv0, chain),
        owned_ok(d2, iv2, chain.take(nb)),
        forall|b: int| #[trigger]
            is_owned_index(d2, iv2, b) ==> is_owned_index(d0, iv0, b) || free_in(d0, b),
        data_bits(d3) == mark_all(data_bits(d2), chain.subrange(nb, chain.len() as int), false),
        same_but_data_bitmap(d3, d2),
    ensures
        owned_ok(d3, iv2, chain.take(nb)),
        forall|b: int| is_owned_index(d3, iv2, b) <==> is_owned_index(d2, iv2, b),
{
    let eff = chain.take(nb);
    let tail = chain.subrange(nb, chain.len() as int);
    let bits0 = data_bits(d0);
    let bits2 = data_bits(d2);
    let bits3 = data_bits(d3);
    lemma_index_data(d0, iv0, chain);
    lemma_index_data(d2, iv2, eff);
    assert forall|x: u32| tail.contains(x) implies chain.contains(x) && used_in(bits0, x) by {
        let j = choose|j: int| 0 <= j < tail.len() && tail[j] == x;
        assert(chain[nb + j] == x);
        assert(used_in(bits0, chain[nb + j]));
    }
    assert forall|b: int| #[trigger] is_owned_index(d2, iv2, b) implies d3[b] == d2[b]
        && !tail.contains(b as u32) by {}
    assert forall|x: u32|
        used_in(bits2, x) && (eff.contains(x) || is_owned_index(d2, iv2, x as int)) implies #[trigger] used_in(
        bits3,
        x,
    ) by {
        if eff.contains(x) {
            let i = choose|i: int| 0 <= i < eff.len() && eff[i] == x;
            if tail.contains(x) {
                let j = choose|j: int| 0 <= j < tail.len() && tail[j] == x;
                assert(chain[i] != chain[nb + j]);
            }
        }
    }
    lemma_owned_frame(d2, d3, iv2, eff);
}

/// Whether `len1` bytes, the payload and its end marker, can be written to
/// the file at `addr`.
#[verifier::opaque]
pub open spec fn spec_write_ok(d: Seq<Seq<u8>>, addr: int, len1: int) -> bool {
    let nb = blocks_for(len1);
    let iv = spec_inode_at(d, addr);
    &&& nb <= MAX_BLOCKS
    &&& 0 <= addr < INODE_COUNT
    &&& spec_get_blocks(d, iv) is Some
    &&& resize_ok(d, iv, spec_get_blocks(d, iv)->Some_0, nb)
    &&& resize_fits(d, iv, spec_get_blocks(d, iv)->Some_0, nb)
}

/// The error with which writing `len1` bytes to the file at `addr` fails.
pub open spec fn spec_write_err(d: Seq<Seq<u8>>, addr: int, len1: int) -> FdError {
    let nb = blocks_for(len1);
    let iv = spec_inode_at(d, addr);
    if nb > MAX_BLOCKS {
        FdError::NoEnoughSpace
    } else if !(0 <= addr < INODE_COUNT) {
        FdError::NotFound
    } else if !(spec_get_blocks(d, iv) is Some) || !resize_ok(
        d,
        iv,
        spec_get_blocks(d, iv)->Some_0,
        nb,
    ) {
        FdError::FileIncorrupted
    } else {
        FdError::NoEnoughSpace
    }
}

/// What holds of the image `d` once `data`, a payload and its end marker,
/// was written to the file at `a` of the image `d0`.
///
/// The file's blocks hold `data` and then whatever its last block held
/// behind it. Its chain has the length that `data` needs and begins with
/// the blocks it began with. The inode's owner, mode, size and timestamp
/// are as they were, and so is every other inode, the superblock and the
/// inode bitmap. Where no index block had to be allocated, the data bitmap
/// differs by the blocks that joined or left the chain alone. The file is
/// in order; the blocks it has now it had before, or they were free; and
/// the only blocks that were marked as taken and are not any more are
/// blocks of its old chain.
#[verifier::opaque]
pub open spec fn spec_written(d0: Seq<Seq<u8>>, d: Seq<Seq<u8>>, a: int, data: Seq<u8>) -> bool {
    let before = spec_inode_at(d0, a);
    let after = spec_inode_at(d, a);
    let nb = blocks_for(data.len() as int);
    let chain = spec_get_blocks(d0, before)->Some_0;
    &&& spec_file_raw(d, a) is Some
    &&& spec_file_raw(d, a)->Some_0.len() == nb * BLOCK_SIZE
    &&& spec_file_raw(d, a)->Some_0.take(data.len() as int) == data
    &&& spec_get_blocks(d, after) is Some
    &&& spec_get_blocks(d, after)->Some_0.len() == nb
    &&& spec_get_blocks(d, after)->Some_0.take(kept(chain.len() as int, nb)) == chain.take(
        kept(chain.len() as int, nb),
    )
    &&& after.uid == before.uid
    &&& after.mode == before.mode
    &&& after.size == before.size
    &&& after.timestamp == before.timestamp
    &&& forall|other: int|
        0 <= other < INODE_COUNT && other != a ==> spec_inode_at(d, other) == spec_inode_at(
            d0,
            other,
        )
    &&& forall|b: int|
        0 <= b < super::data::BITMAP_OFFSET && b != inode_block(a) ==> #[trigger] d[b] == d0[b]
    &&& blocks_needed(d0, before, nb) == 0 ==> data_bits(d) == (if chain.len() <= nb {
        mark_all(
            data_bits(d0),
            spec_get_blocks(d, after)->Some_0.subrange(chain.len() as int, nb),
            true,
        )
    } else {
        mark_all(data_bits(d0), chain.subrange(nb, chain.len() as int), false)
    })
    &&& chain.len() <= nb ==> lowest_free(
        data_bits(d0),
        spec_get_blocks(d, after)->Some_0.subrange(chain.len() as int, nb),
    )
    &&& file_ok(d, a)
    &&& count_false(data_bits(d)) + spec_write_need(d0, before, chain, nb) >= count_false(
        data_bits(d0),
    )
    &&& chain.len() <= nb ==> count_false(data_bits(d)) + spec_write_need(d0, before, chain, nb)
        == count_false(data_bits(d0))
    &&& forall|b: int|
        0 <= b < BLOCK_COUNT && #[trigger] d[b] != d0[b] ==> b == inode_block(a) || (
        super::data::BITMAP_OFFSET <= b < DATA_OFFSET) || file_block(d, a, b)
    &&& forall|b: int|
        0 <= b < BLOCK_COUNT && #[trigger] file_block(d, a, b) ==> file_block(d0, a, b) || free_in(
            d0,
            b,
        )
    &&& forall|p: int|
        0 <= p < DATA_CAPACITY && data_bits(d0)[p] && !(#[trigger] data_bits(d)[p])
            ==> chain.contains((p + DATA_OFFSET) as u32)
}

/// What a write to one file leaves of a block of another file that is in
/// order, where the two had no block in common: the block as it was, still
/// marked as taken, and still no block of the file written.
pub proof fn lemma_written_apart(d0: Seq<Seq<u8>>, d: Seq<Seq<u8>>, a: int, data: Seq<u8>, b: int)
    requires
        blocks_wf(d0),
        blocks_wf(d),
        0 <= a < INODE_COUNT,
        0 <= b < INODE_COUNT,
        a != b,
        spec_written(d0, d, a, data),
        spec_get_blocks(d0, spec_inode_at(d0, a)) is Some,
        forall|x: int|
            0 <= x < BLOCK_COUNT && #[trigger] file_block(d0, b, x) ==> DATA_OFFSET <= x
                && data_bits(d0)[x - DATA_OFFSET] && !file_block(d0, a, x),
    ensures
        spec_inode_at(d, b) == spec_inode_at(d0, b),
        forall|x: int|
            0 <= x < BLOCK_COUNT && #[trigger] file_block(d0, b, x) ==> d[x] == d0[x]
                && DATA_OFFSET <= x && data_bits(d)[x - DATA_OFFSET] && !file_block(d, a, x),
{
    reveal(spec_written);
    let chain = spec_get_blocks(d0, spec_inode_at(d0, a))->Some_0;
    assert forall|x: int| 0 <= x < BLOCK_COUNT && #[trigger] file_block(d0, b, x) implies d[x]
        == d0[x] && DATA_OFFSET <= x && data_bits(d)[x - DATA_OFFSET] && !file_block(d, a, x) by {
        assert(inode_block(a) < DATA_OFFSET);
        if file_block(d, a, x) {
            assert(file_block(d0, a, x) || free_in(d0, x));
        }
        let p = x - DATA_OFFSET;
        if !data_bits(d)[p] {
            assert(chain.contains((p + DATA_OFFSET) as u32));
            assert(file_block(d0, a, x));
        }
    }
}

/// A write to the file at `a` leaves a file at `b` that is in order and
/// has no block in common with it what it was, and still without a block
/// in common with the file written.
pub proof fn lemma_write_bystander(d0: Seq<Seq<u8>>, d: Seq<Seq<u8>>, a: int, b: int, data: Seq<u8>)
    requires
        blocks_wf(d0),
        blocks_wf(d),
        0 <= a < INODE_COUNT,
        0 <= b < INODE_COUNT,
        a != b,
        spec_get_blocks(d0, spec_inode_at(d0, a)) is Some,
        spec_written(d0, d, a, data),
        file_ok(d0, b),
        apart(d0, a, b),
    ensures
        same_file(d0, d, b),
        apart(d, a, b),
{
    reveal(same_file);
    reveal(apart);
    lemma_file_blocks(d0, b);
    lemma_written_apart(d0, d, a, data, b);
    lemma_file_stays_ok(d0, d, b);
    assert forall|x: int| 0 <= x < BLOCK_COUNT implies !(#[trigger] file_block(d, a, x)
        && file_block(d, b, x)) by {
        if file_block(d, b, x) {
            assert(file_block(d0, b, x));
        }
    }
}

/// What a write of at most eight blocks does to the chain and to the data
/// bitmap: the chain keeps its front; where it grows, the lowest free
/// blocks join it and are marked as taken; where it shrinks, the blocks
/// that leave it are marked as free. No other bit changes.
pub proof fn lemma_written_bits(d0: Seq<Seq<u8>>, d: Seq<Seq<u8>>, a: int, data: Seq<u8>)
    requires
        spec_written(d0, d, a, data),
        blocks_for(data.len() as int) <= 8 || blocks_needed(
            d0,
            spec_inode_at(d0, a),
            blocks_for(data.len() as int),
        ) == 0,
    ensures
        ({
            let c0 = spec_get_blocks(d0, spec_inode_at(d0, a))->Some_0;
            let c = spec_get_blocks(d, spec_inode_at(d, a))->Some_0;
            let nb = blocks_for(data.len() as int);
            &&& c.len() == nb
            &&& c.take(kept(c0.len() as int, nb)) == c0.take(kept(c0.len() as int, nb))
            &&& c0.len() <= nb ==> data_bits(d) == mark_all(
                data_bits(d0),
                c.subrange(c0.len() as int, nb),
                true,
            ) && lowest_free(data_bits(d0), c.subrange(c0.len() as int, nb))
            &&& c0.len() > nb ==> data_bits(d) == mark_all(
                data_bits(d0),
                c0.subrange(nb, c0.len() as int),
                false,
            )
        }),
{
    reveal(spec_written);
    let iv0 = spec_inode_at(d0, a);
    let nb = blocks_for(data.len() as int);
    if nb <= 8 {
        assert(super::inode::slots_for(nb) == 0);
        assert(missing_slots(spec_slots(d0, iv0), 0) == 0);
    }
    assert(blocks_needed(d0, iv0, nb) == 0);
}

/// Makes `inode` name `nb` blocks: the first of those it names now and,
/// where they are too few, the lowest free blocks. Blocks that are no
/// longer named are freed.
fn resize_chain(disk: &mut Disk, inode: &mut Inode, chain: Vec<u32>, nb: usize) -> (list: Vec<u32>)
    requires
        old(disk).wf(),
        nb <= MAX_BLOCKS,
        spec_get_blocks(old(disk)@, old(inode)@) == Some(chain@),
        resize_ok(old(disk)@, old(inode)@, chain@, nb as int),
        resize_fits(old(disk)@, old(inode)@, chain@, nb as int),
    ensures
        final(disk).wf(),
        list@.len() == nb,
        list@.take(kept(chain@.len() as int, nb as int)) == chain@.take(
            kept(chain@.len() as int, nb as int),
        ),
        chain_layout(final(disk)@, final(inode)@, list@),
        distinct_data(list@),
        forall|b: int| #[trigger]
            is_index_of(final(disk)@, final(inode)@, nb as int, b) ==> DATA_OFFSET <= b
                < BLOCK_COUNT && !list@.contains(b as u32),
        final(inode).uid == old(inode).uid,
        final(inode).mode == old(inode).mode,
        final(inode).size == old(inode).size,
        final(inode).timestamp == old(inode).timestamp,
        forall|b: int| 0 <= b < super::data::BITMAP_OFFSET ==> #[trigger] final(disk)@[b] == old(disk)@[b],
        forall|b: int|
            0 <= b < BLOCK_COUNT && !(super::data::BITMAP_OFFSET <= b < DATA_OFFSET)
                && !is_index_of(final(disk)@, final(inode)@, nb as int, b) ==> #[trigger] final(disk)@[b] == old(disk)@[b],
        blocks_needed(old(disk)@, old(inode)@, nb as int) == 0 ==> data_bits(final(disk)@) == (
        if chain@.len() <= nb {
            mark_all(data_bits(old(disk)@), list@.subrange(chain@.len() as int, nb as int), true)
        } else {
            mark_all(
                data_bits(old(disk)@),
                chain@.subrange(nb as int, chain@.len() as int),
                false,
            )
        }),
        chain@.len() <= nb ==> lowest_free(
            data_bits(old(disk)@),
            list@.subrange(chain@.len() as int, nb as int),
        ),
        owned_ok(final(disk)@, final(inode)@, list@),
        forall|b: int| #[trigger]
            is_owned_index(final(disk)@, final(inode)@, b) ==> is_owned_index(
                old(disk)@,
                old(inode)@,
                b,
            ) || free_in(old(disk)@, b),
        forall|x: u32| #[trigger]
            list@.contains(x) ==> chain@.contains(x) || free_in(old(disk)@, x as int),
        forall|p: int|
            0 <= p < DATA_CAPACITY && data_bits(old(disk)@)[p] && !(#[trigger] data_bits(
                final(disk)@,
            )[p]) ==> chain@.contains((p + DATA_OFFSET) as u32),
        count_false(data_bits(final(disk)@)) + spec_write_need(
            old(disk)@,
            old(inode)@,
            chain@,
            nb as int,
        ) >= count_false(data_bits(old(disk)@)),
        chain@.len() <= nb ==> count_false(data_bits(final(disk)@)) + spec_write_need(
            old(disk)@,
            old(inode)@,
            chain@,
            nb as int,
        ) == count_false(data_bits(old(disk)@)),
{
    let ghost d0 = disk@;
    let ghost iv0 = inode@;
    let ghost c0 = chain@;
    let mut list = chain;
    proof {
        lemma_get_blocks_len(d0, iv0);
    }
    if list.len() > nb {
        let tail = list.split_off(nb);
        proof {
            assert(list@ =~= c0.take(nb as int));
            lemma_nz_prefix_all(list@);
            lemma_owned_mono(d0, iv0, c0, nb as int);
            lemma_index_ok(d0, iv0, list@);
        }
        let r = update_blocks(disk, inode, &list);
        assert(r is Ok);
        let ghost d2 = disk@;
        proof {
            lemma_index_data(d2, inode@, list@);
            assert forall|i: int| 0 <= i < tail@.len() implies is_data_addr(#[trigger] tail@[i]) by {
                assert(tail@[i] == c0[nb + i]);
                assert(used_in(data_bits(d0), c0[nb + i]));
            }
        }
        let f = free_blocks(disk, &tail);
        assert(f is Ok);
        proof {
            assert forall|b: int| #[trigger]
                is_index_of(d2, inode@, nb as int, b) implies 0 <= b < BLOCK_COUNT && disk@[b]
                == d2[b] by {
                lemma_index_mono(d2, inode@, nb as int, b);
            }
            lemma_layout_frame(d2, disk@, inode@, list@);
            assert(tail@ =~= c0.subrange(nb as int, c0.len() as int));
            assert forall|i: int| 0 <= i < list@.len() implies is_data_addr(#[trigger] list@[i]) by {
                assert(used_in(data_bits(d2), list@[i]));
            }
            lemma_shrink_owned(d0, d2, disk@, iv0, inode@, c0, nb as int);
            lemma_count_false_mono(data_bits(d2), data_bits(disk@));
            assert forall|x: u32| #[trigger] list@.contains(x) implies c0.contains(x) by {
                let i = choose|i: int| 0 <= i < list@.len() && list@[i] == x;
                assert(c0[i] == x);
            }
            assert forall|p: int|
                0 <= p < DATA_CAPACITY && data_bits(d0)[p] && !(#[trigger] data_bits(
                    disk@,
                )[p]) implies c0.contains((p + DATA_OFFSET) as u32) by {
                assert(data_bits(d2)[p]);
                let y = (p + DATA_OFFSET) as u32;
                assert(tail@.contains(y));
                let j = choose|j: int| 0 <= j < tail@.len() && tail@[j] == y;
                assert(c0[nb + j] == y);
            }
            lemma_index_data(disk@, inode@, list@);
            assert forall|b: int| #[trigger]
                is_index_of(disk@, inode@, nb as int, b) implies DATA_OFFSET <= b < BLOCK_COUNT
                && !list@.contains(b as u32) by {
                lemma_index_mono(disk@, inode@, nb as int, b);
            }
        }
    } else {
        let extra: u32 = (nb - list.len()) as u32;
        let mut fresh = match alloc_blocks(disk, extra) {
            Ok(v) => v,
            Err(_) => Vec::new(),
        };
        let ghost d1 = disk@;
        let ghost fr = fresh@;
        proof {
            lemma_grow_owned(d0, d1, iv0, c0, fr);
            assert forall|i: int| 0 <= i < (c0 + fr).len() implies (c0 + fr)[i] != 0 by {
                if i >= c0.len() {
                    assert(is_data_addr(fr[i - c0.len()]));
                }
            }
            lemma_nz_prefix_all(c0 + fr);
        }
        list.append(&mut fresh);
        assert(list@ =~= c0 + fr);
        proof {
            lemma_index_ok(d1, iv0, list@);
        }
        let r = update_blocks(disk, inode, &list);
        assert(r is Ok);
        proof {
            lemma_index_data(disk@, inode@, list@);
            assert(list@.subrange(c0.len() as int, nb as int) =~= fr);
            assert(list@.take(c0.len() as int) =~= c0);
            assert forall|i: int| 0 <= i < list@.len() implies is_data_addr(#[trigger] list@[i]) by {
                assert(used_in(data_bits(disk@), list@[i]));
            }
            assert(kept(c0.len() as int, nb as int) == c0.len());
            assert forall|x: u32| #[trigger] list@.contains(x) implies c0.contains(x) || free_in(
                d0,
                x as int,
            ) by {
                let i = choose|i: int| 0 <= i < list@.len() && list@[i] == x;
                if i < c0.len() {
                    assert(c0[i] == x);
                } else {
                    assert(fr[i - c0.len()] == x);
                }
            }
            assert forall|b: int| #[trigger]
                is_index_of(disk@, inode@, nb as int, b) implies DATA_OFFSET <= b < BLOCK_COUNT
                && !list@.contains(b as u32) by {
                lemma_index_mono(disk@, inode@, nb as int, b);
            }
        }
    }
    list
}

/// Once an inode laid out to name `list` is stored at `addr` and `data` is
/// written into the blocks of `list`, the file at `addr` holds `data`, and
/// nothing before the data bitmap but the inode's own record has changed.
proof fn lemma_written_file(
    d2: Seq<Seq<u8>>,
    iv: InodeView,
    addr: int,
    list: Seq<u32>,
    data: Seq<u8>,
)
    requires
        blocks_wf(d2),
        0 <= addr < INODE_COUNT,
        chain_layout(d2, iv, list),
        distinct_data(list),
        owned_ok(d2, iv, list),
        data.len() >= 1,
        list.len() == blocks_for(data.len() as int),
    ensures
        ({
            let d4 = spec_write_blocks(spec_put_inode(d2, addr, iv), payload_writes(list, data));
            &&& blocks_wf(d4)
            &&& spec_inode_at(d4, addr) == iv
            &&& spec_get_blocks(d4, iv) == Some(list)
            &&& spec_file_raw(d4, addr) is Some
            &&& spec_file_raw(d4, addr)->Some_0.len() == list.len() * BLOCK_SIZE
            &&& spec_file_raw(d4, addr)->Some_0.take(data.len() as int) == data
            &&& forall|other: int|
                0 <= other < INODE_COUNT && other != addr ==> spec_inode_at(d4, other)
                    == spec_inode_at(d2, other)
            &&& forall|b: int|
                0 <= b < DATA_OFFSET && b != inode_block(addr) ==> #[trigger] d4[b] == d2[b]
            &&& forall|b: int|
                0 <= b < BLOCK_COUNT && b != inode_block(addr) && !list.contains(b as u32)
                    ==> #[trigger] d4[b] == d2[b]
            &&& chain_layout(d4, iv, list)
            &&& data_bits(d4) == data_bits(d2)
            &&& owned_ok(d4, iv, list)
            &&& forall|b: int| is_owned_index(d4, iv, b) <==> is_owned_index(d2, iv, b)
        }),
{
    let d3 = spec_put_inode(d2, addr, iv);
    let d4 = spec_write_blocks(d3, payload_writes(list, data));
    lemma_put_inode(d2, addr, iv);
    lemma_index_data(d2, iv, list);
    assert forall|b: int| #[trigger]
        is_index_of(d2, iv, list.len() as int, b) implies 0 <= b < BLOCK_COUNT && d3[b]
        == d2[b] by {
        lemma_index_mono(d2, iv, list.len() as int, b);
    }
    lemma_layout_frame(d2, d3, iv, list);
    lemma_payload_read_back(d3, list, data);
    assert forall|b: int| #[trigger]
        is_index_of(d3, iv, list.len() as int, b) implies 0 <= b < BLOCK_COUNT && d4[b]
        == d3[b] by {
        assert(is_index_of(d2, iv, list.len() as int, b));
        lemma_index_mono(d2, iv, list.len() as int, b);
    }
    assert forall|b: int| 0 <= b < DATA_OFFSET implies #[trigger] d4[b] == d3[b] by {
        if list.contains(b as u32) {
            let i = choose|i: int| 0 <= i < list.len() && list[i] == b as u32;
            assert(is_data_addr(list[i]));
        }
    }
    lemma_layout_frame(d3, d4, iv, list);
    assert(data_bits(d3) =~= data_bits(d2));
    assert(data_bits(d4) =~= data_bits(d3));
    assert forall|b: int| #[trigger] is_owned_index(d2, iv, b) implies d4[b] == d2[b] by {
        assert(d3[b] == d2[b]);
    }
    lemma_owned_frame(d2, d4, iv, list);
    assert(d4[inode_block(addr)] == d3[inode_block(addr)]);
    assert forall|other: int| 0 <= other < INODE_COUNT implies spec_inode_at(d4, other)
        == spec_inode_at(d3, other) by {
        assert(d4[inode_block(other)] == d3[inode_block(other)]);
    }
    assert(addrs_valid(list));
}

/// What resizing the chain, storing the inode and writing the payload
/// add up to.
proof fn lemma_write_final(
    d0: Seq<Seq<u8>>,
    d2: Seq<Seq<u8>>,
    d4: Seq<Seq<u8>>,
    iv: InodeView,
    a: int,
    c0: Seq<u32>,
    list: Seq<u32>,
    data: Seq<u8>,
)
    requires
        blocks_wf(d0),
        blocks_wf(d2),
        0 <= a < INODE_COUNT,
        data.len() >= 1,
        spec_get_blocks(d0, spec_inode_at(d0, a)) == Some(c0),
        list.len() == blocks_for(data.len() as int),
        list.take(kept(c0.len() as int, list.len() as int)) == c0.take(
            kept(c0.len() as int, list.len() as int),
        ),
        chain_layout(d2, iv, list),
        distinct_data(list),
        forall|b: int| #[trigger]
            is_owned_index(d2, iv, b) ==> is_owned_index(d0, spec_inode_at(d0, a), b) || free_in(
                d0,
                b,
            ),
        forall|x: u32| #[trigger] list.contains(x) ==> c0.contains(x) || free_in(d0, x as int),
        forall|p: int|
            0 <= p < DATA_CAPACITY && data_bits(d0)[p] && !(#[trigger] data_bits(d2)[p])
                ==> c0.contains((p + DATA_OFFSET) as u32),
        iv.uid == spec_inode_at(d0, a).uid,
        iv.mode == spec_inode_at(d0, a).mode,
        iv.size == spec_inode_at(d0, a).size,
        iv.timestamp == spec_inode_at(d0, a).timestamp,
        forall|b: int|
            0 <= b < BLOCK_COUNT && !(super::data::BITMAP_OFFSET <= b < DATA_OFFSET)
                && !is_index_of(d2, iv, list.len() as int, b) ==> #[trigger] d2[b] == d0[b],
        blocks_needed(d0, spec_inode_at(d0, a), list.len() as int) == 0 ==> data_bits(d2) == (
        if c0.len() <= list.len() {
            mark_all(data_bits(d0), list.subrange(c0.len() as int, list.len() as int), true)
        } else {
            mark_all(data_bits(d0), c0.subrange(list.len() as int, c0.len() as int), false)
        }),
        c0.len() <= list.len() ==> lowest_free(
            data_bits(d0),
            list.subrange(c0.len() as int, list.len() as int),
        ),
        owned_ok(d2, iv, list),
        count_false(data_bits(d2)) + spec_write_need(
            d0,
            spec_inode_at(d0, a),
            c0,
            list.len() as int,
        ) >= count_false(data_bits(d0)),
        c0.len() <= list.len() ==> count_false(data_bits(d2)) + spec_write_need(
            d0,
            spec_inode_at(d0, a),
            c0,
            list.len() as int,
        ) == count_false(data_bits(d0)),
        d4 == spec_write_blocks(spec_put_inode(d2, a, iv), payload_writes(list, data)),
    ensures
        spec_written(d0, d4, a, data),
{
    reveal(file_ok);
    reveal(spec_written);
    lemma_written_file(d2, iv, a, list, data);
    lemma_index_data(d2, iv, list);
    let nb = list.len() as int;
    assert forall|b: int| #[trigger] is_index_of(d2, iv, nb, b) implies DATA_OFFSET <= b by {
        lemma_index_mono(d2, iv, nb, b);
    }
    assert forall|other: int| 0 <= other < INODE_COUNT && other != a implies spec_inode_at(
        d2,
        other,
    ) == spec_inode_at(d0, other) by {
        assert(d2[inode_block(other)] == d0[inode_block(other)]);
    }
    assert forall|b: int| 0 <= b < super::data::BITMAP_OFFSET && b != inode_block(a) implies #[trigger] d4[b]
        == d0[b] by {
        assert(d4[b] == d2[b]);
        assert(d2[b] == d0[b]);
    }
    assert forall|b: int| 0 <= b < BLOCK_COUNT && #[trigger] d4[b] != d0[b] implies b
        == inode_block(a) || (super::data::BITMAP_OFFSET <= b < DATA_OFFSET) || file_block(
        d4,
        a,
        b,
    ) by {
        if b != inode_block(a) && !(super::data::BITMAP_OFFSET <= b < DATA_OFFSET) {
            if !list.contains(b as u32) {
                assert(d4[b] == d2[b]);
                assert(is_index_of(d2, iv, nb, b));
                lemma_index_mono(d2, iv, nb, b);
                assert(is_owned_index(d4, iv, b));
            }
        }
    }
    assert forall|b: int| 0 <= b < BLOCK_COUNT && #[trigger] file_block(d4, a, b) implies file_block(
        d0,
        a,
        b,
    ) || free_in(d0, b) by {
        if list.contains(b as u32) {
            assert(c0.contains(b as u32) || free_in(d0, b));
        } else {
            assert(is_owned_index(d2, iv, b));
        }
    }
}

/// Checks that `len1` bytes, a payload and its end marker, can be written
/// to the file at `inode_addr` if enough blocks are free, and says how
/// many blocks that takes.
pub fn write_check(disk: &Disk, inode_addr: u32, len1: usize) -> (r: Result<u32, FdError>)
    requires
        disk.wf(),
        len1 >= 1,
    ensures
        r is Ok <==> {
            let iv = spec_inode_at(disk@, inode_addr as int);
            &&& blocks_for(len1 as int) <= MAX_BLOCKS
            &&& inode_addr < INODE_COUNT
            &&& spec_get_blocks(disk@, iv) is Some
            &&& resize_ok(disk@, iv, spec_get_blocks(disk@, iv)->Some_0, blocks_for(len1 as int))
        },
        r is Ok ==> r->Ok_0 == spec_write_need(
            disk@,
            spec_inode_at(disk@, inode_addr as int),
            spec_get_blocks(disk@, spec_inode_at(disk@, inode_addr as int))->Some_0,
            blocks_for(len1 as int),
        ),
        r is Err ==> r->Err_0 == spec_write_err(disk@, inode_addr as int, len1 as int),
{
    let blocks_len: usize = (len1 - 1) / BLOCK_SIZE as usize + 1;
    assert(BLOCK_SIZE == 1024);
    assert(blocks_len == blocks_for(len1 as int));
    if blocks_len > MAX_BLOCKS as usize {
        return Err(FdError::NoEnoughSpace);
    }
    let inode = match load_inode(disk, inode_addr) {
        Ok(i) => i,
        Err(e) => {
            return Err(FdError::from_inode_err(e));
        },
    };
    let blocks = match get_blocks(disk, &inode) {
        Ok(b) => b,
        Err(e) => {
            return Err(FdError::from_inode_err(e));
        },
    };
    let keep: usize = if blocks.len() < blocks_len {
        blocks.len()
    } else {
        blocks_len
    };
    assert(blocks@.take(blocks@.len() as int) =~= blocks@);
    let slots = match plan_slots(disk, &inode, &blocks, blocks.len(), MAX_BLOCKS as usize) {
        Ok(p) => p.0,
        Err(e) => {
            return Err(FdError::from_inode_err(e));
        },
    };
    let need = count_needed(&slots, inode.double_block, blocks_len);
    Ok((blocks_len - keep) as u32 + need)
}

/// Writes `buf` as the payload of the file at `inode_addr`.
///
/// An end marker, one NUL, is appended to `buf`; the file's chain is made
/// as long as `buf` then needs, by allocating blocks or freeing those at
/// its end; the inode is stored and `buf` written into the chain. Nothing
/// is written unless all of it can be.
pub fn write_file(disk: &mut Disk, inode_addr: u32, buf: &mut Vec<u8>) -> (r: Result<(), FdError>)
    requires
        old(disk).wf(),
    ensures
        final(disk).wf(),
        final(buf)@ == old(buf)@.push(0u8),
        r is Ok <==> spec_write_ok(old(disk)@, inode_addr as int, old(buf)@.len() as int + 1),
        r is Ok ==> spec_written(
            old(disk)@,
            final(disk)@,
            inode_addr as int,
            old(buf)@.push(0u8),
        ),
        r is Err ==> final(disk)@ == old(disk)@ && r->Err_0 == spec_write_err(
            old(disk)@,
            inode_addr as int,
            old(buf)@.len() as int + 1,
        ),
{
    proof {
        reveal(spec_write_ok);
    }
    buf.push(0);
    let len1: usize = buf.len();
    let blocks_len: usize = (len1 - 1) / BLOCK_SIZE as usize + 1;
    assert(BLOCK_SIZE == 1024);
    assert(blocks_len == blocks_for(len1 as int));
    let need = write_check(disk, inode_addr, len1)?;
    let free = super::data::get_bitmap(disk).rest_usable();
    if need > free {
        return Err(FdError::NoEnoughSpace);
    }
    let mut inode = match load_inode(disk, inode_addr) {
        Ok(i) => i,
        Err(e) => {
            return Err(FdError::from_inode_err(e));
        },
    };
    let blocks = match get_blocks(disk, &inode) {
        Ok(b) => b,
        Err(e) => {
            return Err(FdError::from_inode_err(e));
        },
    };
    let ghost d0 = disk@;
    let ghost c0 = blocks@;
    let list = resize_chain(disk, &mut inode, blocks, blocks_len);
    let ghost d2 = disk@;
    let _ = save_inode(disk, inode_addr, &inode);
    write_payload(disk, &list, buf);
    proof {
        lemma_write_final(d0, d2, disk@, inode@, inode_addr as int, c0, list@, buf@);
    }
    Ok(())
}

/// A file descriptor: the address of an open file's inode and a snapshot
/// of the inode.
#[derive(Debug, Clone, Copy)]
pub struct Fd {
    inode: u32,
    meta: Metadata,
}

impl Fd {
    pub fn new(inode: u32, meta: Metadata) -> (fd: Self)
        ensures
            fd.spec_inode_addr() == inode,
            fd.spec_metadata() == meta,
    {
        Self { inode, meta }
    }

    /// The address of the file's inode.
    pub closed spec fn spec_inode_addr(&self) -> u32 {
        self.inode
    }

    /// The snapshot of the inode.
    pub closed spec fn spec_metadata(&self) -> Metadata {
        self.meta
    }

    /// The address of the file's inode.
    pub fn inode_addr(&self) -> (a: u32)
        ensures
            a == self.spec_inode_addr(),
    {
        self.inode
    }

    /// The snapshot of the inode.
    pub fn metadata(&mut self) -> (m: &mut Metadata)
        ensures
            *m == old(self).spec_metadata(),
            final(self).spec_metadata() == *final(m),
            final(self).spec_inode_addr() == old(self).spec_inode_addr(),
    {
        &mut self.meta
    }
}

} // verus!
