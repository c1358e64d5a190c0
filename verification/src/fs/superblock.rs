//! The superblock: the layout of the image, written once to block 0.

use vstd::prelude::*;
use crate::sedes::{Deserialize, SedesError, Serialize, too_small};
use super::{data, inode};
use super::disk::{BLOCK_SIZE, Disk, read_blocks};
use super::utils::{lemma_u32_be_round_trip, push_u32, read_u32, spec_u32_to_be, u32_at};

verus! {

/// Number of bytes the superblock takes on disk.
pub const SUPERBLOCK_SIZE: usize = 30;

/// The byte that opens an initialised image.
pub const LEADING_MAGIC: u8 = 0xE3;

/// The byte that closes the superblock.
pub const TRAILING_MAGIC: u8 = 172;

#[derive(Debug, Clone, Copy, PartialEq, Eq, Structural)]
pub enum SuperblockError {
    /// Block 0 could not be read.
    ReadErr,
    /// The image does not carry the magic bytes.
    NotInitialized,
    /// Block 0 is too short to hold a superblock.
    DeserializeErr(SedesError),
}

#[derive(Debug, Clone, Copy, PartialEq, Eq, Structural)]
pub struct Superblock {
    pub inode_count: u32,
    pub inode_bitmap_offset: u32,
    pub data_bitmap_offset: u32,
    pub block_size: u32,
    pub inode_offset: u32,
    pub data_offset: u32,
    pub max_file_size: u32,
    pub magic: u8,
}

/// The superblock of this layout.
pub open spec fn spec_superblock() -> Superblock {
    Superblock {
        inode_count: 4096,
        inode_bitmap_offset: 1,
        data_bitmap_offset: 258,
        block_size: 1024,
        inode_offset: 2,
        data_offset: 274,
        max_file_size: 67379200,
        magic: 172,
    }
}

/// The superblock that the first 30 bytes of `bytes` stand for.
pub open spec fn spec_parse_superblock(bytes: Seq<u8>) -> Superblock {
    Superblock {
        inode_count: u32_at(bytes, 1),
        inode_bitmap_offset: u32_at(bytes, 5),
        data_bitmap_offset: u32_at(bytes, 9),
        block_size: u32_at(bytes, 13),
        inode_offset: u32_at(bytes, 17),
        data_offset: u32_at(bytes, 21),
        max_file_size: u32_at(bytes, 25),
        magic: bytes[29],
    }
}

/// Whether `block` opens and closes its first 30 bytes with the magic bytes.
pub open spec fn has_magic(block: Seq<u8>) -> bool {
    block[0] == LEADING_MAGIC && block[29] == TRAILING_MAGIC
}

impl Superblock {
    pub fn new() -> (sb: Self)
        ensures
            sb == spec_superblock(),
    {
        Self {
            inode_count: inode::INODE_COUNT,
            inode_bitmap_offset: inode::BITMAP_OFFSET,
            data_bitmap_offset: data::BITMAP_OFFSET,
            block_size: BLOCK_SIZE,
            inode_offset: inode::INODE_OFFSET,
            data_offset: data::DATA_OFFSET,
            max_file_size: inode::MAX_SIZE,
            magic: TRAILING_MAGIC,
        }
    }

    /// Reading a superblock back from its own bytes, whatever follows them,
    /// gives the same superblock.
    pub proof fn lemma_round_trip(&self, tail: Seq<u8>)
        ensures
            self.spec_serialize().len() == SUPERBLOCK_SIZE,
            self.spec_serialize()[0] == LEADING_MAGIC,
            spec_parse_superblock(self.spec_serialize() + tail) == *self,
    {
        let b = self.spec_serialize() + tail;
        lemma_u32_be_round_trip(self.inode_count);
        lemma_u32_be_round_trip(self.inode_bitmap_offset);
        lemma_u32_be_round_trip(self.data_bitmap_offset);
        lemma_u32_be_round_trip(self.block_size);
        lemma_u32_be_round_trip(self.inode_offset);
        lemma_u32_be_round_trip(self.data_offset);
        lemma_u32_be_round_trip(self.max_file_size);
        assert(b.subrange(1, 5) =~= spec_u32_to_be(self.inode_count));
        assert(b.subrange(5, 9) =~= spec_u32_to_be(self.inode_bitmap_offset));
        assert(b.subrange(9, 13) =~= spec_u32_to_be(self.data_bitmap_offset));
        assert(b.subrange(13, 17) =~= spec_u32_to_be(self.block_size));
        assert(b.subrange(17, 21) =~= spec_u32_to_be(self.inode_offset));
        assert(b.subrange(21, 25) =~= spec_u32_to_be(self.data_offset));
        assert(b.subrange(25, 29) =~= spec_u32_to_be(self.max_file_size));
    }
}

impl Serialize for Superblock {
    open spec fn spec_serialize(&self) -> Seq<u8> {
        seq![LEADING_MAGIC] + spec_u32_to_be(self.inode_count) + spec_u32_to_be(
            self.inode_bitmap_offset,
        ) + spec_u32_to_be(self.data_bitmap_offset) + spec_u32_to_be(self.block_size)
            + spec_u32_to_be(self.inode_offset) + spec_u32_to_be(self.data_offset)
            + spec_u32_to_be(self.max_file_size) + seq![self.magic]
    }

    fn serialize(&self) -> (v: Vec<u8>) {
        let mut v: Vec<u8> = Vec::new();
        v.push(LEADING_MAGIC);
        assert(v@ =~= seq![LEADING_MAGIC]);
        push_u32(&mut v, self.inode_count);
        push_u32(&mut v, self.inode_bitmap_offset);
        push_u32(&mut v, self.data_bitmap_offset);
        push_u32(&mut v, self.block_size);
        push_u32(&mut v, self.inode_offset);
        push_u32(&mut v, self.data_offset);
        push_u32(&mut v, self.max_file_size);
        v.push(self.magic);
        assert(v@ =~= self.spec_serialize());
        v
    }
}

impl Deserialize for Superblock {
    open spec fn spec_deserialize_err(buf: Seq<u8>) -> Option<SedesError> {
        too_small(buf, SUPERBLOCK_SIZE as nat)
    }

    open spec fn spec_deserialized(buf: Seq<u8>, r: &Self) -> bool {
        *r == spec_parse_superblock(buf)
    }

    fn deserialize(buf: &mut Vec<u8>) -> (r: Result<Self, SedesError>)
        ensures
            final(buf)@ == old(buf)@,
    {
        if buf.len() < SUPERBLOCK_SIZE {
            return Err(SedesError::DeserialBufferTooSmall);
        }
        Ok(
            Superblock {
                inode_count: read_u32(buf, 1),
                inode_bitmap_offset: read_u32(buf, 5),
                data_bitmap_offset: read_u32(buf, 9),
                block_size: read_u32(buf, 13),
                inode_offset: read_u32(buf, 17),
                data_offset: read_u32(buf, 21),
                max_file_size: read_u32(buf, 25),
                magic: buf[29],
            },
        )
    }
}

/// Reads the superblock from block 0 of an initialised image.
pub fn superblock(disk: &Disk) -> (r: Result<Superblock, SuperblockError>)
    requires
        disk.wf(),
    ensures
        r is Ok <==> has_magic(disk@[0]),
        r is Ok ==> r->Ok_0 == spec_parse_superblock(disk@[0]),
        r is Err ==> r->Err_0 == SuperblockError::NotInitialized,
{
    let addrs: Vec<u32> = vec![0u32];
    let mut buf = match read_blocks(disk, &addrs) {
        Ok(b) => b,
        Err(_) => {
            return Err(SuperblockError::ReadErr);
        },
    };
    proof {
        assert(addrs@.drop_last() =~= Seq::<u32>::empty());
        assert(buf@ =~= disk@[0]);
    }
    if buf[0] != LEADING_MAGIC || buf[29] != TRAILING_MAGIC {
        return Err(SuperblockError::NotInitialized);
    }
    match Superblock::deserialize(&mut buf) {
        Ok(sb) => Ok(sb),
        Err(e) => Err(SuperblockError::DeserializeErr(e)),
    }
}

} // verus!
