//! Directories: files that hold 64-byte name records and end with a record
//! of zeros.

use vstd::prelude::*;
use vstd::string::StringSliceAdditionalSpecFns;
use vstd::utf8::{encode_utf8, valid_utf8};
use crate::sedes::{Deserialize, SedesError, Serialize};
use super::data::DataError;
use super::disk::{BLOCK_SIZE, Disk, DiskError};
use super::file::{
    FdError, read_raw, spec_file_raw, spec_write_err, spec_write_ok, spec_written, write_file,
};
use super::inode::{DIR_FLAG, INODE_COUNT, InodeError, InodeView, load_inode, spec_inode_at};
use super::metadata::Metadata;
use super::utils::{lemma_u32_be_round_trip, push_u32, spec_u32_to_be, u32_at, u8arr_to_u32};

pub use super::node::{create_dir, open_dir, remove_dir};

verus! {

/// Number of bytes a directory record takes.
pub const ENTRY_SIZE: usize = 64;

/// Number of bytes of a record that hold the name.
pub const NAME_LEN: usize = ENTRY_SIZE - 4;

#[derive(Debug, Clone, Copy, PartialEq, Eq, Structural)]
pub enum DdError {
    /// The request could not be sent to the file system.
    SendErr,
    /// No reply came back from the file system.
    RecvErr,
    InvalidPath,
    NotFound,
    /// The inode is a file.
    NotDir,
    ParentNotFound,
    ParentNotDir,
    DirExists,
    /// The directory is open somewhere.
    DirOccupied,
    /// What the disk holds for the directory breaks the rules of the layout.
    DirIncorrupted,
    NoEnoughSpace,
    EntryExists,
    IoErr,
}

/// The directory error that stands for a disk error.
pub open spec fn spec_dd_disk_err(e: DiskError) -> DdError {
    match e {
        DiskError::InvalidAddr => DdError::DirIncorrupted,
        DiskError::IoErr => DdError::IoErr,
    }
}

/// The directory error that stands for an inode error.
pub open spec fn spec_dd_inode_err(e: InodeError) -> DdError {
    match e {
        InodeError::InvalidAddr => DdError::NotFound,
        InodeError::NoUsableBlock => DdError::NoEnoughSpace,
        InodeError::DataTooBig => DdError::NoEnoughSpace,
        InodeError::DiskErr(e) => spec_dd_disk_err(e),
    }
}

/// The directory error that stands for an allocator error.
pub open spec fn spec_dd_data_err(e: DataError) -> DdError {
    match e {
        DataError::InvalidAddr => DdError::DirIncorrupted,
        DataError::InsufficientUsableBlocks => DdError::NoEnoughSpace,
        DataError::DiskErr(e) => spec_dd_disk_err(e),
    }
}

/// The directory error that stands for an error of the file beneath it.
pub open spec fn spec_dd_fd_err(e: FdError) -> DdError {
    match e {
        FdError::NotFound => DdError::NotFound,
        FdError::FileIncorrupted => DdError::DirIncorrupted,
        FdError::NoEnoughSpace => DdError::NoEnoughSpace,
        _ => DdError::IoErr,
    }
}

impl DdError {
    #[allow(non_snake_case)]
    pub fn DiskErr(e: DiskError) -> (r: Self)
        ensures
            r == spec_dd_disk_err(e),
    {
        match e {
            DiskError::InvalidAddr => Self::DirIncorrupted,
            DiskError::IoErr => Self::IoErr,
        }
    }

    pub fn from_inode_err(e: InodeError) -> (r: Self)
        ensures
            r == spec_dd_inode_err(e),
    {
        match e {
            InodeError::InvalidAddr => Self::NotFound,
            InodeError::NoUsableBlock => Self::NoEnoughSpace,
            InodeError::DataTooBig => Self::NoEnoughSpace,
            InodeError::DiskErr(e) => Self::DiskErr(e),
        }
    }

    pub fn from_data_err(e: DataError) -> (r: Self)
        ensures
            r == spec_dd_data_err(e),
    {
        match e {
            DataError::InvalidAddr => Self::DirIncorrupted,
            DataError::InsufficientUsableBlocks => Self::NoEnoughSpace,
            DataError::DiskErr(e) => Self::DiskErr(e),
        }
    }

    /// Only the errors with which reading and writing a file fail have a
    /// counterpart.
    pub fn from_fd_err(e: FdError) -> (r: Self)
        requires
            e == FdError::NotFound || e == FdError::FileIncorrupted || e == FdError::NoEnoughSpace
                || e == FdError::IoErr,
        ensures
            r == spec_dd_fd_err(e),
    {
        match e {
            FdError::NotFound => Self::NotFound,
            FdError::FileIncorrupted => Self::DirIncorrupted,
            FdError::NoEnoughSpace => Self::NoEnoughSpace,
            _ => Self::IoErr,
        }
    }
}

/// A record of a directory: a name and the inode it stands for.
#[derive(Debug, Default, Clone)]
pub struct Entry {
    pub inode: u32,
    pub name: String,
}

impl View for Entry {
    type V = (u32, Seq<u8>);

    /// The inode and the bytes of the name.
    open spec fn view(&self) -> (u32, Seq<u8>) {
        (self.inode, encode_utf8(self.name@))
    }
}

/// The views of the entries `v`.
pub open spec fn entries_view(v: Seq<Entry>) -> Seq<(u32, Seq<u8>)> {
    Seq::new(v.len(), |i: int| v[i]@)
}

/// `b` without the NUL bytes at its end.
pub open spec fn trim_nul(b: Seq<u8>) -> Seq<u8>
    decreases b.len(),
{
    if b.len() > 0 && b.last() == 0 {
        trim_nul(b.drop_last())
    } else {
        b
    }
}

/// Whether `name` can be stored in a record and read back: it is not
/// empty, takes at most 60 bytes and does not end in NUL.
pub open spec fn valid_name(name: Seq<u8>) -> bool {
    0 < name.len() <= NAME_LEN && name.last() != 0
}

/// The 60 bytes that hold `name` in a record: its first 60 bytes, or all of
/// it and then zeros.
pub open spec fn spec_name_field(name: Seq<u8>) -> Seq<u8> {
    Seq::new(
        NAME_LEN as nat,
        |i: int|
            if i < name.len() {
                name[i]
            } else {
                0u8
            },
    )
}

/// The 64 bytes of the record for `e`.
pub open spec fn spec_entry_bytes(e: (u32, Seq<u8>)) -> Seq<u8> {
    spec_u32_to_be(e.0) + spec_name_field(e.1)
}

/// The record of zeros that ends a directory.
pub open spec fn terminator() -> Seq<u8> {
    Seq::new(ENTRY_SIZE as nat, |i: int| 0u8)
}

/// The records of `es`, one after the other.
pub open spec fn spec_entries_bytes(es: Seq<(u32, Seq<u8>)>) -> Seq<u8>
    decreases es.len(),
{
    if es.len() == 0 {
        Seq::empty()
    } else {
        spec_entries_bytes(es.drop_last()) + spec_entry_bytes(es.last())
    }
}

/// The payload of a directory that holds `es`: their records and the
/// terminator.
pub open spec fn spec_dir_image(es: Seq<(u32, Seq<u8>)>) -> Seq<u8> {
    spec_entries_bytes(es) + terminator()
}

/// Whether the payload of the file at `addr` begins with the records of
/// `es` and the record of zeros that ends them.
pub open spec fn spec_dir_payload(d: Seq<Seq<u8>>, addr: int, es: Seq<(u32, Seq<u8>)>) -> bool {
    &&& spec_file_raw(d, addr) is Some
    &&& spec_file_raw(d, addr)->Some_0.len() >= (es.len() + 1) * ENTRY_SIZE
    &&& spec_file_raw(d, addr)->Some_0.take((es.len() + 1) * ENTRY_SIZE as int) == spec_dir_image(
        es,
    )
}

/// Record number `i` of `raw`.
pub open spec fn record_at(raw: Seq<u8>, i: int) -> Seq<u8> {
    raw.subrange(i * ENTRY_SIZE as int, i * ENTRY_SIZE as int + ENTRY_SIZE as int)
}

/// The name that the record `rec` holds.
pub open spec fn spec_record_name(rec: Seq<u8>) -> Seq<u8> {
    trim_nul(rec.subrange(4, ENTRY_SIZE as int))
}

/// Whether the record `rec` is the one that ends a directory: its inode is
/// zero and its name is empty, so that all its bytes are zero.
pub open spec fn is_terminator(rec: Seq<u8>) -> bool {
    u32_at(rec, 0) == 0 && spec_record_name(rec).len() == 0
}

/// The entries that `raw` holds from record `i` on, up to the first record
/// of zeros or the end of `raw`.
pub open spec fn spec_parse_entries(raw: Seq<u8>, i: int) -> Seq<(u32, Seq<u8>)>
    decreases raw.len() - i * ENTRY_SIZE as int,
{
    if i < 0 || (i + 1) * ENTRY_SIZE as int > raw.len() {
        Seq::empty()
    } else {
        let rec = record_at(raw, i);
        if is_terminator(rec) {
            Seq::empty()
        } else {
            seq![(u32_at(rec, 0), spec_record_name(rec))] + spec_parse_entries(raw, i + 1)
        }
    }
}

/// Whether every name of `es` is UTF-8.
pub open spec fn names_utf8(es: Seq<(u32, Seq<u8>)>) -> bool {
    forall|i: int| 0 <= i < es.len() ==> valid_utf8((#[trigger] es[i]).1)
}

/// Whether the entry `e` can be stored in a record and read back: its
/// name takes at most 60 bytes and does not end in NUL, and where the name
/// is empty the inode is not zero, so that the record does not end the
/// directory.
pub open spec fn storable(e: (u32, Seq<u8>)) -> bool {
    &&& e.1.len() <= NAME_LEN
    &&& e.1.len() > 0 ==> e.1.last() != 0
    &&& e.1.len() == 0 ==> e.0 != 0
}

/// Whether every entry of `es` can be stored and read back.
pub open spec fn names_valid(es: Seq<(u32, Seq<u8>)>) -> bool {
    forall|i: int| 0 <= i < es.len() ==> storable(#[trigger] es[i])
}

/// Whether the inode `iv` is a directory.
pub open spec fn spec_is_dir(iv: InodeView) -> bool {
    iv.mode & DIR_FLAG != 0
}

/// The entries of the directory at `addr`. `None` where the inode is no
/// directory or its blocks or names cannot be read.
pub open spec fn spec_read_dir(d: Seq<Seq<u8>>, addr: int) -> Option<Seq<(u32, Seq<u8>)>> {
    if !(0 <= addr < INODE_COUNT) || !spec_is_dir(spec_inode_at(d, addr)) {
        None
    } else {
        match spec_file_raw(d, addr) {
            Some(raw) => if names_utf8(spec_parse_entries(raw, 0)) {
                Some(spec_parse_entries(raw, 0))
            } else {
                None
            },
            None => None,
        }
    }
}

/// The error with which reading the directory at `addr` fails.
pub open spec fn spec_read_dir_err(d: Seq<Seq<u8>>, addr: int) -> DdError {
    if !(0 <= addr < INODE_COUNT) {
        DdError::NotFound
    } else if !spec_is_dir(spec_inode_at(d, addr)) {
        DdError::NotDir
    } else {
        DdError::DirIncorrupted
    }
}

/// Trimming ends where a byte that is not NUL is last.
pub proof fn lemma_trim_nul(b: Seq<u8>, end: int)
    requires
        0 <= end <= b.len(),
        forall|k: int| end <= k < b.len() ==> b[k] == 0,
        end > 0 ==> b[end - 1] != 0,
    ensures
        trim_nul(b) == b.take(end),
    decreases b.len() - end,
{
    if end < b.len() {
        assert(b.drop_last().take(end) =~= b.take(end));
        lemma_trim_nul(b.drop_last(), end);
    } else {
        assert(b.take(end) =~= b);
    }
}

/// What is left after trimming is at most as long, and empty or ending in
/// a byte that is not NUL.
pub proof fn lemma_trim_nul_valid(b: Seq<u8>)
    ensures
        trim_nul(b).len() <= b.len(),
        trim_nul(b).len() > 0 ==> trim_nul(b).last() != 0,
    decreases b.len(),
{
    if b.len() > 0 && b.last() == 0 {
        lemma_trim_nul_valid(b.drop_last());
    }
}

/// The record of an entry that can be stored reads back as that name and
/// inode, and does not end a directory.
pub proof fn lemma_entry_round_trip(e: (u32, Seq<u8>))
    requires
        storable(e),
    ensures
        spec_entry_bytes(e).len() == ENTRY_SIZE,
        u32_at(spec_entry_bytes(e), 0) == e.0,
        spec_record_name(spec_entry_bytes(e)) == e.1,
        !is_terminator(spec_entry_bytes(e)),
{
    let rec = spec_entry_bytes(e);
    lemma_u32_be_round_trip(e.0);
    assert(rec.subrange(0, 4) =~= spec_u32_to_be(e.0));
    let field = rec.subrange(4, ENTRY_SIZE as int);
    assert(field =~= spec_name_field(e.1));
    lemma_trim_nul(field, e.1.len() as int);
    assert(field.take(e.1.len() as int) =~= e.1);
}

/// The records of `es` take 64 bytes each, and record `i` is that of
/// entry `i`.
pub proof fn lemma_entries_bytes(es: Seq<(u32, Seq<u8>)>)
    ensures
        spec_entries_bytes(es).len() == es.len() * ENTRY_SIZE,
        forall|i: int|
            0 <= i < es.len() ==> #[trigger] record_at(spec_entries_bytes(es), i)
                == spec_entry_bytes(es[i]),
    decreases es.len(),
{
    if es.len() > 0 {
        let prev = es.drop_last();
        lemma_entries_bytes(prev);
        let b = spec_entries_bytes(es);
        assert forall|i: int| 0 <= i < es.len() implies #[trigger] record_at(b, i)
            == spec_entry_bytes(es[i]) by {
            if i < prev.len() {
                assert(record_at(b, i) =~= record_at(spec_entries_bytes(prev), i));
                assert(prev[i] == es[i]);
            } else {
                assert(record_at(b, i) =~= spec_entry_bytes(es.last()));
            }
        }
    }
}

/// The record of zeros ends a directory.
pub proof fn lemma_terminator()
    ensures
        is_terminator(terminator()),
{
    let field = terminator().subrange(4, ENTRY_SIZE as int);
    lemma_trim_nul(field, 0);
    assert(field.take(0) =~= Seq::<u8>::empty());
    assert(terminator().subrange(0, 4) =~= seq![0u8, 0u8, 0u8, 0u8]);
    lemma_u32_be_round_trip(0);
    assert(spec_u32_to_be(0) =~= seq![0u8, 0u8, 0u8, 0u8]);
}

proof fn lemma_parse_image_from(raw: Seq<u8>, es: Seq<(u32, Seq<u8>)>, i: int)
    requires
        names_valid(es),
        0 <= i <= es.len(),
        raw.len() >= (es.len() + 1) * ENTRY_SIZE,
        raw.take((es.len() + 1) * ENTRY_SIZE as int) == spec_dir_image(es),
    ensures
        spec_parse_entries(raw, i) == es.subrange(i, es.len() as int),
    decreases es.len() - i,
{
    let n = es.len() as int;
    let image = spec_dir_image(es);
    lemma_entries_bytes(es);
    assert(record_at(raw, i) =~= record_at(image, i)) by {
        assert forall|k: int| 0 <= k < ENTRY_SIZE implies record_at(raw, i)[k] == record_at(
            image,
            i,
        )[k] by {
            assert(raw.take((n + 1) * ENTRY_SIZE as int)[i * ENTRY_SIZE as int + k] == raw[i
                * ENTRY_SIZE as int + k]);
        }
    }
    if i == n {
        assert(record_at(image, n) =~= terminator());
        lemma_terminator();
        assert(es.subrange(n, n) =~= Seq::<(u32, Seq<u8>)>::empty());
    } else {
        assert(record_at(image, i) =~= record_at(spec_entries_bytes(es), i));
        lemma_entry_round_trip(es[i]);
        lemma_parse_image_from(raw, es, i + 1);
        assert(seq![es[i]] + es.subrange(i + 1, n) =~= es.subrange(i, n));
    }
}

/// A payload that begins with the image of `es` holds exactly `es`,
/// whatever follows the image.
pub proof fn lemma_parse_image(raw: Seq<u8>, es: Seq<(u32, Seq<u8>)>)
    requires
        names_valid(es),
        raw.len() >= (es.len() + 1) * ENTRY_SIZE,
        raw.take((es.len() + 1) * ENTRY_SIZE as int) == spec_dir_image(es),
    ensures
        spec_parse_entries(raw, 0) == es,
{
    lemma_parse_image_from(raw, es, 0);
    assert(es.subrange(0, es.len() as int) =~= es);
}

/// Every entry that is read from a directory can be stored again.
pub proof fn lemma_parse_valid(raw: Seq<u8>, i: int)
    requires
        0 <= i,
    ensures
        names_valid(spec_parse_entries(raw, i)),
        spec_parse_entries(raw, i).len() * ENTRY_SIZE <= raw.len(),
    decreases raw.len() - i * ENTRY_SIZE as int,
{
    if (i + 1) * ENTRY_SIZE as int <= raw.len() {
        let rec = record_at(raw, i);
        let name = spec_record_name(rec);
        lemma_trim_nul_valid(rec.subrange(4, ENTRY_SIZE as int));
        if !is_terminator(rec) {
            lemma_parse_valid(raw, i + 1);
            let rest = spec_parse_entries(raw, i + 1);
            let all = spec_parse_entries(raw, i);
            assert forall|k: int| 0 <= k < all.len() implies storable(#[trigger] all[k]) by {
                if k > 0 {
                    assert(all[k] == rest[k - 1]);
                }
            }
            lemma_parse_len(raw, i + 1);
        }
    }
}

/// The entries from record `i` on are at most the records from `i` on.
proof fn lemma_parse_len(raw: Seq<u8>, i: int)
    requires
        0 <= i,
    ensures
        (i + spec_parse_entries(raw, i).len()) * ENTRY_SIZE <= raw.len() || spec_parse_entries(
            raw,
            i,
        ).len() == 0,
    decreases raw.len() - i * ENTRY_SIZE as int,
{
    if (i + 1) * ENTRY_SIZE as int <= raw.len() {
        if !is_terminator(record_at(raw, i)) {
            lemma_parse_len(raw, i + 1);
        }
    }
}

/// `String::from_utf8` of the standard library: the string whose UTF-8
/// encoding is `bytes`, if `bytes` is UTF-8.
#[verifier::external_body]
pub(crate) fn string_from_utf8(bytes: Vec<u8>) -> (r: Option<String>)
    ensures
        r is Some <==> valid_utf8(bytes@),
        r is Some ==> encode_utf8(r->Some_0@) == bytes@,
{
    String::from_utf8(bytes).ok()
}

impl Serialize for Entry {
    open spec fn spec_serialize(&self) -> Seq<u8> {
        spec_entry_bytes(self@)
    }

    fn serialize(&self) -> (v: Vec<u8>) {
        let mut v: Vec<u8> = Vec::with_capacity(ENTRY_SIZE);
        push_u32(&mut v, self.inode);
        let name = self.name.as_str().as_bytes();
        let ghost head = v@;
        let mut i: usize = 0;
        while i < NAME_LEN
            invariant
                i <= NAME_LEN,
                name@ == encode_utf8(self.name@),
                v@ == head + spec_name_field(name@).take(i as int),
            decreases NAME_LEN - i,
        {
            let b: u8 = if i < name.len() {
                name[i]
            } else {
                0
            };
            v.push(b);
            i += 1;
            assert(v@ =~= head + spec_name_field(name@).take(i as int));
        }
        assert(spec_name_field(name@).take(NAME_LEN as int) =~= spec_name_field(name@));
        assert(head =~= spec_u32_to_be(self.inode));
        v
    }
}

impl Deserialize for Entry {
    open spec fn spec_deserialize_err(buf: Seq<u8>) -> Option<SedesError> {
        if buf.len() < ENTRY_SIZE {
            Some(SedesError::DeserialBufferTooSmall)
        } else if !valid_utf8(spec_record_name(buf.take(ENTRY_SIZE as int))) {
            Some(SedesError::InvalidName)
        } else {
            None
        }
    }

    open spec fn spec_deserialized(buf: Seq<u8>, r: &Self) -> bool {
        r@ == (u32_at(buf, 0), spec_record_name(buf.take(ENTRY_SIZE as int)))
    }

    fn deserialize(buf: &mut Vec<u8>) -> (r: Result<Self, SedesError>)
        ensures
            final(buf)@ == old(buf)@,
    {
        if buf.len() < ENTRY_SIZE {
            return Err(SedesError::DeserialBufferTooSmall);
        }
        let inode = u8arr_to_u32(vstd::slice::slice_subrange(buf.as_slice(), 0, 4));
        let ghost field = buf@.take(ENTRY_SIZE as int).subrange(4, ENTRY_SIZE as int);
        let mut end: usize = ENTRY_SIZE;
        while end > 4 && buf[end - 1] == 0
            invariant
                4 <= end <= ENTRY_SIZE <= buf@.len(),
                buf@ == old(buf)@,
                field == buf@.take(ENTRY_SIZE as int).subrange(4, ENTRY_SIZE as int),
                forall|k: int| end - 4 <= k < NAME_LEN ==> field[k] == 0,
            decreases end,
        {
            end -= 1;
        }
        proof {
            lemma_trim_nul(field, end - 4);
        }
        let bytes = vstd::slice::slice_to_vec(vstd::slice::slice_subrange(buf.as_slice(), 4, end));
        assert(bytes@ =~= field.take(end - 4));
        match string_from_utf8(bytes) {
            Some(name) => Ok(Entry { inode, name }),
            None => Err(SedesError::InvalidName),
        }
    }
}

/// The entries of the directory at `dir_inode`, in the order in which they
/// are stored.
pub fn read_dir(disk: &Disk, dir_inode: u32) -> (r: Result<Vec<Entry>, DdError>)
    requires
        disk.wf(),
    ensures
        r is Ok <==> spec_read_dir(disk@, dir_inode as int) is Some,
        r is Ok ==> entries_view(r->Ok_0@) == spec_read_dir(disk@, dir_inode as int)->Some_0,
        r is Ok ==> r->Ok_0@.len() * ENTRY_SIZE <= super::inode::MAX_SIZE,
        r is Err ==> r->Err_0 == spec_read_dir_err(disk@, dir_inode as int),
{
    let inode = match load_inode(disk, dir_inode) {
        Ok(i) => i,
        Err(e) => {
            return Err(DdError::from_inode_err(e));
        },
    };
    if inode.mode & DIR_FLAG == 0 {
        return Err(DdError::NotDir);
    }
    let data = match read_raw(disk, dir_inode) {
        Ok(d) => d,
        Err(e) => {
            return Err(DdError::from_fd_err(e));
        },
    };
    let ghost raw = data@;
    proof {
        lemma_parse_valid(raw, 0);
    }
    let size: usize = data.len() / ENTRY_SIZE;
    let mut v: Vec<Entry> = Vec::with_capacity(size);
    let mut i: usize = 0;
    while i < size
        invariant
            i <= size,
            size == raw.len() / ENTRY_SIZE as nat,
            data@ == raw,
            dir_inode < INODE_COUNT,
            spec_is_dir(spec_inode_at(disk@, dir_inode as int)),
            spec_file_raw(disk@, dir_inode as int) == Some(raw),
            spec_parse_entries(raw, 0) == entries_view(v@) + spec_parse_entries(raw, i as int),
            names_utf8(entries_view(v@)),
            spec_parse_entries(raw, 0).len() * ENTRY_SIZE <= raw.len(),
            raw.len() <= super::inode::MAX_SIZE,
        decreases size - i,
    {
        assert(ENTRY_SIZE == 64);
        let dlen: usize = data.len();
        assert(i < dlen / 64);
        assert((i + 1) * 64 <= dlen);
        let from: usize = i * 64;
        let mut rec = vstd::slice::slice_to_vec(
            vstd::slice::slice_subrange(data.as_slice(), from, from + 64),
        );
        assert(rec@ == record_at(raw, i as int));
        assert(rec@.take(ENTRY_SIZE as int) =~= rec@);
        let ghost before = entries_view(v@);
        let ghost rest = spec_parse_entries(raw, i as int);
        let ent = match Entry::deserialize(&mut rec) {
            Ok(e) => e,
            Err(_) => {
                proof {
                    let all = spec_parse_entries(raw, 0);
                    let k = before.len() as int;
                    assert(all[k] == rest[0]);
                    assert(!valid_utf8(all[k].1));
                }
                return Err(DdError::DirIncorrupted);
            },
        };
        assert(ent@.1 == spec_record_name(record_at(raw, i as int)));
        assert((i + 1) * ENTRY_SIZE <= raw.len());
        proof {
            lemma_trim_nul_valid(record_at(raw, i as int).subrange(4, ENTRY_SIZE as int));
        }
        assert(ent@.0 == u32_at(record_at(raw, i as int), 0));
        if ent.inode == 0 && ent.name.as_str().len() == 0 {
            proof {
                assert(ent@.1.len() == 0);
                assert(rest =~= Seq::<(u32, Seq<u8>)>::empty());
                assert(before + Seq::<(u32, Seq<u8>)>::empty() =~= before);
            }
            return Ok(v);
        }
        let ghost e = ent@;
        v.push(ent);
        proof {
            assert(entries_view(v@) =~= before.push(e));
            assert(before + (seq![e] + spec_parse_entries(raw, i + 1)) =~= before.push(e)
                + spec_parse_entries(raw, i + 1));
        }
        i += 1;
    }
    assert(entries_view(v@) + Seq::<(u32, Seq<u8>)>::empty() =~= entries_view(v@));
    Ok(v)
}

/// The records of `ents`, one after the other.
pub fn entries_to_data(ents: &Vec<Entry>) -> (data: Vec<u8>)
    ensures
        data@ == spec_entries_bytes(entries_view(ents@)),
{
    let mut data: Vec<u8> = Vec::new();
    let mut i: usize = 0;
    while i < ents.len()
        invariant
            i <= ents@.len(),
            data@ == spec_entries_bytes(entries_view(ents@).take(i as int)),
        decreases ents@.len() - i,
    {
        let mut rec = ents[i].serialize();
        data.append(&mut rec);
        i += 1;
        proof {
            let es = entries_view(ents@);
            assert(es.take(i as int).drop_last() =~= es.take(i - 1));
        }
    }
    assert(entries_view(ents@).take(i as int) =~= entries_view(ents@));
    data
}

/// Whether two runs of bytes are the same.
pub fn bytes_eq(a: &[u8], b: &[u8]) -> (r: bool)
    ensures
        r == (a@ == b@),
{
    if a.len() != b.len() {
        return false;
    }
    let mut i: usize = 0;
    while i < a.len()
        invariant
            i <= a@.len(),
            a@.len() == b@.len(),
            forall|k: int| 0 <= k < i ==> a@[k] == b@[k],
        decreases a@.len() - i,
    {
        if a[i] != b[i] {
            return false;
        }
        i += 1;
    }
    assert(a@ =~= b@);
    true
}

/// Whether `name` can be stored in a record and read back.
pub fn is_valid_name(name: &[u8]) -> (r: bool)
    ensures
        r == valid_name(name@),
{
    name.len() > 0 && name.len() <= NAME_LEN && name[name.len() - 1] != 0
}

/// The number of bytes, end marker included, that a directory of `n`
/// entries takes.
pub open spec fn dir_len(n: int) -> int {
    (n + 1) * ENTRY_SIZE as int + 1
}

/// A directory into which the image of `es` was written holds `es`.
pub proof fn lemma_dir_written(d0: Seq<Seq<u8>>, d: Seq<Seq<u8>>, dir: int, es: Seq<(u32, Seq<u8>)>)
    requires
        0 <= dir < INODE_COUNT,
        spec_written(d0, d, dir, spec_dir_image(es).push(0u8)),
        names_valid(es),
        names_utf8(es),
        spec_is_dir(spec_inode_at(d0, dir)),
    ensures
        spec_read_dir(d, dir) == Some(es),
{
    lemma_written_payload(d0, d, dir, es);
    reveal(spec_written);
    lemma_parse_image(spec_file_raw(d, dir)->Some_0, es);
}

/// A directory that was written with the entries `es` holds their records
/// and the record of zeros that ends them.
pub proof fn lemma_written_payload(
    d0: Seq<Seq<u8>>,
    d: Seq<Seq<u8>>,
    dir: int,
    es: Seq<(u32, Seq<u8>)>,
)
    requires
        spec_written(d0, d, dir, spec_dir_image(es).push(0u8)),
    ensures
        spec_dir_payload(d, dir, es),
{
    reveal(spec_written);
    let raw = spec_file_raw(d, dir)->Some_0;
    let image = spec_dir_image(es);
    let n1 = (es.len() + 1) * ENTRY_SIZE as int;
    lemma_entries_bytes(es);
    assert(BLOCK_SIZE == 1024 && ENTRY_SIZE == 64);
    assert(image.push(0u8).len() == n1 + 1);
    assert(raw.len() >= n1 + 1);
    assert(raw.take(n1 + 1) == image.push(0u8));
    assert(raw.take(n1) =~= image) by {
        assert forall|k: int| 0 <= k < n1 implies raw.take(n1)[k] == image[k] by {
            assert(raw.take(n1 + 1)[k] == image.push(0u8)[k]);
        }
    }
}

/// Writes `ents` and the terminator as the payload of the directory at
/// `dir_inode`.
pub fn write_dir(disk: &mut Disk, dir_inode: u32, ents: &Vec<Entry>) -> (r: Result<(), FdError>)
    requires
        old(disk).wf(),
    ensures
        final(disk).wf(),
        r is Ok <==> spec_write_ok(old(disk)@, dir_inode as int, dir_len(ents@.len() as int)),
        r is Ok ==> spec_written(
            old(disk)@,
            final(disk)@,
            dir_inode as int,
            spec_dir_image(entries_view(ents@)).push(0u8),
        ),
        r is Ok && names_valid(entries_view(ents@)) && spec_is_dir(
            spec_inode_at(old(disk)@, dir_inode as int),
        ) ==> spec_read_dir(final(disk)@, dir_inode as int) == Some(entries_view(ents@)),
        r is Err ==> final(disk)@ == old(disk)@ && r->Err_0 == spec_write_err(
            old(disk)@,
            dir_inode as int,
            dir_len(ents@.len() as int),
        ),
{
    let ghost es = entries_view(ents@);
    let mut data = entries_to_data(ents);
    let ghost head = data@;
    let mut i: usize = 0;
    while i < ENTRY_SIZE
        invariant
            i <= ENTRY_SIZE,
            data@ == head + terminator().take(i as int),
        decreases ENTRY_SIZE - i,
    {
        data.push(0);
        i += 1;
        assert(data@ =~= head + terminator().take(i as int));
    }
    proof {
        assert(terminator().take(ENTRY_SIZE as int) =~= terminator());
        lemma_entries_bytes(es);
    }
    let r = write_file(disk, dir_inode, &mut data);
    proof {
        if r is Ok && names_valid(es) && spec_is_dir(spec_inode_at(old(disk)@, dir_inode as int)) {
            assert forall|k: int| 0 <= k < es.len() implies valid_utf8((#[trigger] es[k]).1) by {
                vstd::utf8::encode_utf8_valid_utf8(ents@[k].name@);
            }
            assert(dir_inode < INODE_COUNT) by {
                reveal(spec_write_ok);
            }
            lemma_dir_written(old(disk)@, disk@, dir_inode as int, es);
        }
    }
    r
}

/// Whether the entry `e` can be added to the directory at `dir`.
pub open spec fn spec_add_ok(d: Seq<Seq<u8>>, dir: int, e: (u32, Seq<u8>)) -> bool {
    &&& spec_read_dir(d, dir) is Some
    &&& valid_name(e.1)
    &&& !spec_read_dir(d, dir)->Some_0.contains(e)
    &&& spec_write_ok(d, dir, dir_len(spec_read_dir(d, dir)->Some_0.len() as int + 1))
}

/// The error with which adding the entry `e` to the directory at `dir`
/// fails.
pub open spec fn spec_add_err(d: Seq<Seq<u8>>, dir: int, e: (u32, Seq<u8>)) -> DdError {
    if !(spec_read_dir(d, dir) is Some) {
        spec_read_dir_err(d, dir)
    } else if !valid_name(e.1) {
        DdError::InvalidPath
    } else if spec_read_dir(d, dir)->Some_0.contains(e) {
        DdError::EntryExists
    } else {
        spec_dd_fd_err(spec_write_err(d, dir, dir_len(spec_read_dir(d, dir)->Some_0.len() as int + 1)))
    }
}

/// Adds the entry `name` for `entry_inode` at the end of the directory at
/// `dir_inode`, unless the same entry is there already.
pub fn dir_add_entry(disk: &mut Disk, dir_inode: u32, entry_inode: u32, name: &str) -> (r: Result<
    (),
    DdError,
>)
    requires
        old(disk).wf(),
    ensures
        final(disk).wf(),
        r is Ok <==> spec_add_ok(old(disk)@, dir_inode as int, (entry_inode, encode_utf8(name@))),
        r is Ok ==> {
            let es = spec_read_dir(old(disk)@, dir_inode as int)->Some_0.push(
                (entry_inode, encode_utf8(name@)),
            );
            &&& spec_read_dir(final(disk)@, dir_inode as int) == Some(es)
            &&& spec_written(
                old(disk)@,
                final(disk)@,
                dir_inode as int,
                spec_dir_image(es).push(0u8),
            )
        },
        r is Err ==> final(disk)@ == old(disk)@ && r->Err_0 == spec_add_err(
            old(disk)@,
            dir_inode as int,
            (entry_inode, encode_utf8(name@)),
        ),
{
    let mut ents = read_dir(disk, dir_inode)?;
    let ghost es = entries_view(ents@);
    let ghost e = (entry_inode, encode_utf8(name@));
    let bytes = name.as_bytes();
    if !is_valid_name(bytes) {
        return Err(DdError::InvalidPath);
    }
    let mut i: usize = 0;
    while i < ents.len()
        invariant
            i <= ents@.len(),
            disk.wf(),
            disk@ == old(disk)@,
            spec_read_dir(disk@, dir_inode as int) == Some(es),
            valid_name(e.1),
            es == entries_view(ents@),
            e == (entry_inode, encode_utf8(name@)),
            bytes@ == encode_utf8(name@),
            forall|k: int| 0 <= k < i ==> es[k] != e,
        decreases ents@.len() - i,
    {
        if ents[i].inode == entry_inode && bytes_eq(ents[i].name.as_str().as_bytes(), bytes) {
            assert(es[i as int] == e);
            return Err(DdError::EntryExists);
        }
        i += 1;
    }
    let ent = Entry { inode: entry_inode, name: name.to_owned() };
    ents.push(ent);
    proof {
        assert(entries_view(ents@) =~= es.push(e));
        let raw = spec_file_raw(disk@, dir_inode as int)->Some_0;
        lemma_parse_valid(raw, 0);
    }
    match write_dir(disk, dir_inode, &ents) {
        Ok(()) => Ok(()),
        Err(err) => Err(DdError::from_fd_err(err)),
    }
}

/// The first place of `es` that holds an entry for `inode`, or the length
/// of `es` if there is none.
pub open spec fn first_for(es: Seq<(u32, Seq<u8>)>, inode: u32) -> int
    decreases es.len(),
{
    if es.len() == 0 {
        0
    } else if es[0].0 == inode {
        0
    } else {
        1 + first_for(es.drop_first(), inode)
    }
}

/// The first entry for an inode is at a place of the list, or behind its
/// end where there is none.
pub proof fn lemma_first_for_bounds(es: Seq<(u32, Seq<u8>)>, inode: u32)
    ensures
        0 <= first_for(es, inode) <= es.len(),
    decreases es.len(),
{
    if es.len() > 0 && es[0].0 != inode {
        lemma_first_for_bounds(es.drop_first(), inode);
    }
}

/// The first entry for `inode` is where no entry before it is for `inode`
/// and the one there is.
pub proof fn lemma_first_for(es: Seq<(u32, Seq<u8>)>, inode: u32, i: int)
    requires
        0 <= i <= es.len(),
        forall|k: int| 0 <= k < i ==> (#[trigger] es[k]).0 != inode,
        i < es.len() ==> es[i].0 == inode,
    ensures
        first_for(es, inode) == i,
    decreases es.len(),
{
    if i > 0 {
        let rest = es.drop_first();
        assert forall|k: int| 0 <= k < i - 1 implies (#[trigger] rest[k]).0 != inode by {
            assert(rest[k] == es[k + 1]);
        }
        assert(es[0].0 != inode);
        lemma_first_for(rest, inode, i - 1);
    }
}

/// Whether the first entry for `inode` can be taken out of the directory
/// at `dir`.
pub open spec fn spec_remove_ok(d: Seq<Seq<u8>>, dir: int, inode: u32) -> bool {
    &&& spec_read_dir(d, dir) is Some
    &&& first_for(spec_read_dir(d, dir)->Some_0, inode) < spec_read_dir(d, dir)->Some_0.len()
    &&& spec_write_ok(d, dir, dir_len(spec_read_dir(d, dir)->Some_0.len() - 1))
}

/// The error with which taking the first entry for `inode` out of the
/// directory at `dir` fails.
pub open spec fn spec_remove_err(d: Seq<Seq<u8>>, dir: int, inode: u32) -> DdError {
    if !(spec_read_dir(d, dir) is Some) {
        spec_read_dir_err(d, dir)
    } else if first_for(spec_read_dir(d, dir)->Some_0, inode) >= spec_read_dir(
        d,
        dir,
    )->Some_0.len() {
        DdError::NotFound
    } else {
        spec_dd_fd_err(spec_write_err(d, dir, dir_len(spec_read_dir(d, dir)->Some_0.len() - 1)))
    }
}

/// Takes the first entry for `entry_inode` out of the directory at
/// `dir_inode`.
pub fn dir_remove_entry(disk: &mut Disk, dir_inode: u32, entry_inode: u32) -> (r: Result<
    (),
    DdError,
>)
    requires
        old(disk).wf(),
    ensures
        final(disk).wf(),
        r is Ok <==> spec_remove_ok(old(disk)@, dir_inode as int, entry_inode),
        r is Ok ==> {
            let before = spec_read_dir(old(disk)@, dir_inode as int)->Some_0;
            let es = before.remove(first_for(before, entry_inode));
            &&& spec_read_dir(final(disk)@, dir_inode as int) == Some(es)
            &&& spec_written(
                old(disk)@,
                final(disk)@,
                dir_inode as int,
                spec_dir_image(es).push(0u8),
            )
        },
        r is Err ==> final(disk)@ == old(disk)@ && r->Err_0 == spec_remove_err(
            old(disk)@,
            dir_inode as int,
            entry_inode,
        ),
{
    let mut v = read_dir(disk, dir_inode)?;
    let ghost es = entries_view(v@);
    let mut i: usize = 0;
    while i < v.len()
        invariant
            i <= v@.len(),
            disk.wf(),
            disk@ == old(disk)@,
            spec_read_dir(disk@, dir_inode as int) == Some(es),
            es == entries_view(v@),
            forall|k: int| 0 <= k < i ==> (#[trigger] es[k]).0 != entry_inode,
        decreases v@.len() - i,
    {
        if v[i].inode == entry_inode {
            proof {
                assert(es[i as int].0 == entry_inode);
                lemma_first_for(es, entry_inode, i as int);
            }
            let _ = v.remove(i);
            proof {
                assert(entries_view(v@) =~= es.remove(i as int));
                let raw = spec_file_raw(disk@, dir_inode as int)->Some_0;
                lemma_parse_valid(raw, 0);
                let now = entries_view(v@);
                assert forall|k: int| 0 <= k < now.len() implies storable(#[trigger] now[k]) by {
                    if k < i {
                        assert(now[k] == es[k]);
                    } else {
                        assert(now[k] == es[k + 1]);
                    }
                }
            }
            return match write_dir(disk, dir_inode, &v) {
                Ok(()) => Ok(()),
                Err(err) => Err(DdError::from_fd_err(err)),
            };
        }
        i += 1;
    }
    proof {
        lemma_first_for(es, entry_inode, es.len() as int);
    }
    Err(DdError::NotFound)
}

/// A directory descriptor: the address of an open directory's inode and a
/// snapshot of the inode.
#[derive(Debug, Clone, Copy)]
pub struct Dd {
    inode: u32,
    meta: Metadata,
}

impl Dd {
    pub fn new(inode: u32, meta: Metadata) -> (dd: Self)
        ensures
            dd.spec_inode_addr() == inode,
            dd.spec_metadata() == meta,
    {
        Self { inode, meta }
    }

    /// The address of the directory's inode.
    pub closed spec fn spec_inode_addr(&self) -> u32 {
        self.inode
    }

    /// The snapshot of the inode.
    pub closed spec fn spec_metadata(&self) -> Metadata {
        self.meta
    }

    /// The address of the directory's inode.
    pub fn inode_addr(&self) -> (a: u32)
        ensures
            a == self.spec_inode_addr(),
    {
        self.inode
    }

    /// The snapshot of the inode.
    pub fn metadata(&mut self) -> (m: &mut Metadata)
        ensures
            *m == old(self).spec_metadata(),
            final(self).spec_metadata() == *final(m),
            final(self).spec_inode_addr() == old(self).spec_inode_addr(),
    {
        &mut self.meta
    }
}

} // verus!
