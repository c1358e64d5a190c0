//! Absolute paths and their lookup from the root directory.

use vstd::prelude::*;
use vstd::utf8::encode_utf8;
use super::dir::{
    bytes_eq, DdError, entries_view, Entry, read_dir, spec_read_dir, spec_read_dir_err,
};
use super::disk::{Disk, DiskError};
use super::file::FdError;
use super::metadata::MetadataError;

verus! {

/// The byte that separates the segments of a path.
pub const SLASH: u8 = 47;

/// The errors that the file system reports to its callers.
#[derive(Debug, Clone, Copy, PartialEq, Eq, Structural)]
pub enum FsError {
    /// The reply channel between the file system and the caller failed.
    Inner,
    /// The path is empty, not absolute, or has an empty segment.
    InvalidPath,
    NotFound,
    NotFileButDir,
    NotDirButFile,
    Exists,
    /// The file or directory is open somewhere.
    Occupied,
    NoEnoughSpace,
    /// What the disk holds breaks the rules of the layout.
    Corrupted,
    /// The block device failed.
    Io,
}

/// The error that stands for a file error.
pub open spec fn spec_fs_fd_err(e: FdError) -> FsError {
    match e {
        FdError::SendErr => FsError::Inner,
        FdError::RecvErr => FsError::Inner,
        FdError::InvalidPath => FsError::InvalidPath,
        FdError::NotFound => FsError::NotFound,
        FdError::NotFile => FsError::NotFileButDir,
        FdError::ParentNotFound => FsError::NotFound,
        FdError::ParentNotDir => FsError::NotDirButFile,
        FdError::FileExists => FsError::Exists,
        FdError::FileOccupied => FsError::Occupied,
        FdError::FileIncorrupted => FsError::Corrupted,
        FdError::NoEnoughSpace => FsError::NoEnoughSpace,
        FdError::IoErr => FsError::Io,
    }
}

/// The error that stands for a directory error.
pub open spec fn spec_fs_dd_err(e: DdError) -> FsError {
    match e {
        DdError::SendErr => FsError::Inner,
        DdError::RecvErr => FsError::Inner,
        DdError::InvalidPath => FsError::InvalidPath,
        DdError::NotFound => FsError::NotFound,
        DdError::NotDir => FsError::NotDirButFile,
        DdError::ParentNotFound => FsError::NotFound,
        DdError::ParentNotDir => FsError::NotDirButFile,
        DdError::DirExists => FsError::Exists,
        DdError::DirOccupied => FsError::Occupied,
        DdError::DirIncorrupted => FsError::Corrupted,
        DdError::NoEnoughSpace => FsError::NoEnoughSpace,
        DdError::EntryExists => FsError::Exists,
        DdError::IoErr => FsError::Io,
    }
}

/// The error that stands for a disk error.
pub open spec fn spec_fs_disk_err(e: DiskError) -> FsError {
    match e {
        DiskError::InvalidAddr => FsError::Corrupted,
        DiskError::IoErr => FsError::Io,
    }
}

/// The error that stands for a metadata error.
pub open spec fn spec_fs_metadata_err(e: MetadataError) -> FsError {
    match e {
        MetadataError::RecvErr => FsError::Inner,
        MetadataError::InvalidPath => FsError::InvalidPath,
        MetadataError::NotFound => FsError::NotFound,
        MetadataError::DiskErr(e) => spec_fs_disk_err(e),
    }
}

impl FsError {
    #[allow(non_snake_case)]
    pub fn DiskErr(e: DiskError) -> (r: Self)
        ensures
            r == spec_fs_disk_err(e),
    {
        match e {
            DiskError::InvalidAddr => Self::Corrupted,
            DiskError::IoErr => Self::Io,
        }
    }

    pub fn from_fd_err(e: FdError) -> (r: Self)
        ensures
            r == spec_fs_fd_err(e),
    {
        match e {
            FdError::SendErr => Self::Inner,
            FdError::RecvErr => Self::Inner,
            FdError::InvalidPath => Self::InvalidPath,
            FdError::NotFound => Self::NotFound,
            FdError::NotFile => Self::NotFileButDir,
            FdError::ParentNotFound => Self::NotFound,
            FdError::ParentNotDir => Self::NotDirButFile,
            FdError::FileExists => Self::Exists,
            FdError::FileOccupied => Self::Occupied,
            FdError::FileIncorrupted => Self::Corrupted,
            FdError::NoEnoughSpace => Self::NoEnoughSpace,
            FdError::IoErr => Self::Io,
        }
    }

    pub fn from_dd_err(e: DdError) -> (r: Self)
        ensures
            r == spec_fs_dd_err(e),
    {
        match e {
            DdError::SendErr => Self::Inner,
            DdError::RecvErr => Self::Inner,
            DdError::InvalidPath => Self::InvalidPath,
            DdError::NotFound => Self::NotFound,
            DdError::NotDir => Self::NotDirButFile,
            DdError::ParentNotFound => Self::NotFound,
            DdError::ParentNotDir => Self::NotDirButFile,
            DdError::DirExists => Self::Exists,
            DdError::DirOccupied => Self::Occupied,
            DdError::DirIncorrupted => Self::Corrupted,
            DdError::NoEnoughSpace => Self::NoEnoughSpace,
            DdError::EntryExists => Self::Exists,
            DdError::IoErr => Self::Io,
        }
    }

    pub fn from_metadata_err(e: MetadataError) -> (r: Self)
        ensures
            r == spec_fs_metadata_err(e),
    {
        match e {
            MetadataError::RecvErr => Self::Inner,
            MetadataError::InvalidPath => Self::InvalidPath,
            MetadataError::NotFound => Self::NotFound,
            MetadataError::DiskErr(e) => Self::DiskErr(e),
        }
    }
}

/// The inode of the first entry of `es` from place `i` on whose name is
/// `name`.
pub open spec fn spec_lookup(es: Seq<(u32, Seq<u8>)>, name: Seq<u8>, i: int) -> Option<u32>
    decreases es.len() - i,
{
    if i < 0 || i >= es.len() {
        None
    } else if es[i].1 == name {
        Some(es[i].0)
    } else {
        spec_lookup(es, name, i + 1)
    }
}

/// The name of a directory's entry for itself.
pub open spec fn dot() -> Seq<u8> {
    seq![46u8]
}

/// The name of a directory's entry for its parent.
pub open spec fn dotdot() -> Seq<u8> {
    seq![46u8, 46u8]
}

/// The inode to which the segment `name` leads from the directory `inode`
/// with the entries `es`: that of the first entry of this name. The root,
/// which is its own parent, need not hold an entry `..` for that.
pub open spec fn spec_step(es: Seq<(u32, Seq<u8>)>, name: Seq<u8>, inode: u32) -> Option<u32> {
    match spec_lookup(es, name, 0) {
        Some(child) => Some(child),
        None => if inode == 0 && name == dotdot() {
            Some(0u32)
        } else {
            None
        },
    }
}

/// The first position from `i` on at which `p` holds a slash, or the
/// length of `p` if there is none.
pub open spec fn seg_end(p: Seq<u8>, i: int) -> int
    decreases p.len() - i,
{
    if i < 0 || i >= p.len() || p[i] == SLASH {
        i
    } else {
        seg_end(p, i + 1)
    }
}

/// The search for a slash from `i` ends at `n` when no byte from `i` to
/// `n` is a slash and byte `n`, if there is one, is.
pub proof fn lemma_seg_end(p: Seq<u8>, i: int, n: int)
    requires
        0 <= i <= n <= p.len(),
        forall|k: int| i <= k < n ==> p[k] != SLASH,
        n < p.len() ==> p[n] == SLASH,
    ensures
        seg_end(p, i) == n,
    decreases n - i,
{
    if i < n {
        lemma_seg_end(p, i + 1, n);
    }
}

/// The inode that the segments of `p` from position `i` on lead to when
/// the walk stands at the directory `inode`.
///
/// An empty segment is an invalid path. A segment that is missing from the
/// directory, or a step out of what is no directory, is not found.
pub open spec fn spec_walk(d: Seq<Seq<u8>>, p: Seq<u8>, i: int, inode: u32) -> Result<u32, FsError>
    decreases p.len() - i,
{
    let j = seg_end(p, i);
    if i < 0 || i > p.len() || j <= i {
        Err(FsError::InvalidPath)
    } else {
        match spec_read_dir(d, inode as int) {
            None => Err(
                if spec_read_dir_err(d, inode as int) == DdError::DirIncorrupted {
                    FsError::Corrupted
                } else {
                    FsError::NotFound
                },
            ),
            Some(es) => match spec_step(es, p.subrange(i, j), inode) {
                None => Err(FsError::NotFound),
                Some(child) => if j >= p.len() {
                    Ok(child)
                } else {
                    spec_walk(d, p, j + 1, child)
                },
            },
        }
    }
}

/// `p` without one slash at its end.
pub open spec fn trim_slash(p: Seq<u8>) -> Seq<u8> {
    if p.len() > 0 && p.last() == SLASH {
        p.drop_last()
    } else {
        p
    }
}

/// The inode that the absolute path `p` names.
pub open spec fn spec_path_to_inode(d: Seq<Seq<u8>>, p: Seq<u8>) -> Result<u32, FsError> {
    if p == seq![SLASH] {
        Ok(0u32)
    } else if p.len() == 0 || p[0] != SLASH {
        Err(FsError::InvalidPath)
    } else {
        spec_walk(d, trim_slash(p), 1, 0)
    }
}

/// The inode of the first entry of `ents` whose name is `name`.
pub fn lookup(ents: &Vec<Entry>, name: &[u8]) -> (r: Option<u32>)
    ensures
        r == spec_lookup(entries_view(ents@), name@, 0),
{
    let mut i: usize = 0;
    while i < ents.len()
        invariant
            i <= ents@.len(),
            spec_lookup(entries_view(ents@), name@, 0) == spec_lookup(
                entries_view(ents@),
                name@,
                i as int,
            ),
        decreases ents@.len() - i,
    {
        if bytes_eq(ents[i].name.as_str().as_bytes(), name) {
            return Some(ents[i].inode);
        }
        i += 1;
    }
    None
}

/// The inode that the absolute path `path` names: 0 for `/`; otherwise one
/// slash at the end is dropped and the segments are looked up one by one,
/// from the root.
pub fn path_to_inode(disk: &Disk, path: &str) -> (r: Result<u32, FsError>)
    requires
        disk.wf(),
    ensures
        r == spec_path_to_inode(disk@, encode_utf8(path@)),
{
    resolve(disk, path.as_bytes())
}

/// The inode that the absolute path with the bytes `bytes` names.
pub fn resolve(disk: &Disk, bytes: &[u8]) -> (r: Result<u32, FsError>)
    requires
        disk.wf(),
    ensures
        r == spec_path_to_inode(disk@, bytes@),
{
    let len: usize = bytes.len();
    if len == 1 && bytes[0] == SLASH {
        assert(bytes@ =~= seq![SLASH]);
        return Ok(0);
    }
    if len == 0 || bytes[0] != SLASH {
        return Err(FsError::InvalidPath);
    }
    let end: usize = if bytes[len - 1] == SLASH {
        len - 1
    } else {
        len
    };
    let ghost p = trim_slash(bytes@);
    assert(p =~= bytes@.take(end as int));
    let mut inode: u32 = 0;
    let mut i: usize = 1;
    loop
        invariant
            disk.wf(),
            1 <= i <= end + 1,
            end <= len,
            len == bytes@.len(),
            p == bytes@.take(end as int),
            spec_path_to_inode(disk@, bytes@) == spec_walk(disk@, p, i as int, inode),
        decreases end + 1 - i,
    {
        if i > end {
            return Err(FsError::InvalidPath);
        }
        let mut j: usize = i;
        while j < end && bytes[j] != SLASH
            invariant
                i <= j <= end <= len,
                len == bytes@.len(),
                p == bytes@.take(end as int),
                forall|k: int| i <= k < j ==> p[k] != SLASH,
            decreases end - j,
        {
            j += 1;
        }
        proof {
            lemma_seg_end(p, i as int, j as int);
        }
        if j == i {
            return Err(FsError::InvalidPath);
        }
        let ents = match read_dir(disk, inode) {
            Ok(v) => v,
            Err(e) => {
                return Err(
                    match e {
                        DdError::DirIncorrupted => FsError::Corrupted,
                        _ => FsError::NotFound,
                    },
                );
            },
        };
        let name = vstd::slice::slice_subrange(bytes, i, j);
        assert(name@ =~= p.subrange(i as int, j as int));
        match lookup(&ents, name) {
            Some(child) => {
                inode = child;
            },
            None => {
                if inode == 0 && name.len() == 2 && name[0] == 46 && name[1] == 46 {
                    assert(name@ =~= dotdot());
                    inode = 0;
                } else {
                    return Err(FsError::NotFound);
                }
            },
        }
        if j == end {
            return Ok(inode);
        }
        i = j + 1;
    }
}

/// A path that does not end in a slash names what it names with a slash
/// put at its end.
pub proof fn lemma_trailing_slash(d: Seq<Seq<u8>>, p: Seq<u8>)
    requires
        p.len() > 0,
        p.last() != SLASH,
    ensures
        spec_path_to_inode(d, p.push(SLASH)) == spec_path_to_inode(d, p),
{
    let q = p.push(SLASH);
    assert(q.drop_last() =~= p);
    assert(q[0] == p[0]);
    assert(q != seq![SLASH]) by {
        assert(q.len() >= 2);
    }
    assert(p != seq![SLASH]) by {
        if p == seq![SLASH] {
            assert(p.last() == SLASH);
        }
    }
}

} // verus!
