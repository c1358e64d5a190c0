//! The entry points of the file system: each makes one request, hands it
//! to the `Fs` and unpacks the reply.

use vstd::prelude::*;
use super::dir::{Dd, entries_view, Entry, spec_read_dir, spec_read_dir_err};
use super::file::{Fd, spec_read_file, spec_write_err, spec_write_ok, spec_written};
use super::inode::{Inode, INODE_COUNT, InodeView, spec_put_inode};
use super::metadata::{Metadata, Rwx, spec_with_permission};
use super::path::{FsError, spec_fs_dd_err, spec_fs_fd_err};
use super::serve::{Fs, FsReq, FsRes, spec_served};
use super::superblock::Superblock;
use super::table::spec_drop;

verus! {

/// Reads the superblock.
pub fn superblock(fs: &mut Fs) -> (r: Result<Superblock, FsError>)
    requires
        old(fs).wf(),
    ensures
        final(fs).wf(),
        spec_served(
            old(fs).disk_view(),
            old(fs).table_view(),
            FsReq::Superblock,
            final(fs).disk_view(),
            final(fs).table_view(),
            match r {
                Ok(sb) => Ok(FsRes::Superblock(sb)),
                Err(e) => Err(e),
            },
        ),
{
    match fs.handle(FsReq::Superblock) {
        Ok(FsRes::Superblock(sb)) => Ok(sb),
        Ok(_) => Err(FsError::Inner),
        Err(e) => Err(e),
    }
}

/// Looks up the metadata of what the path `path` names.
pub fn metadata(fs: &mut Fs, path: &str) -> (r: Result<Metadata, FsError>)
    requires
        old(fs).wf(),
    ensures
        final(fs).wf(),
        exists|p: String|
            p@ == path@ && spec_served(
                old(fs).disk_view(),
                old(fs).table_view(),
                FsReq::Metadata(p),
                final(fs).disk_view(),
                final(fs).table_view(),
                match r {
                    Ok(m) => Ok(FsRes::Metadata(m)),
                    Err(e) => Err(e),
                },
            ),
{
    let p = path.to_owned();
    match fs.handle(FsReq::Metadata(p)) {
        Ok(FsRes::Metadata(m)) => Ok(m),
        Ok(_) => Err(FsError::Inner),
        Err(e) => Err(e),
    }
}

/// Opens the file at the path `path`.
pub fn open_file(fs: &mut Fs, path: &str) -> (r: Result<Fd, FsError>)
    requires
        old(fs).wf(),
    ensures
        final(fs).wf(),
        exists|p: String|
            p@ == path@ && spec_served(
                old(fs).disk_view(),
                old(fs).table_view(),
                FsReq::OpenFile(p),
                final(fs).disk_view(),
                final(fs).table_view(),
                match r {
                    Ok(fd) => Ok(FsRes::File(fd)),
                    Err(e) => Err(e),
                },
            ),
{
    let p = path.to_owned();
    match fs.handle(FsReq::OpenFile(p)) {
        Ok(FsRes::File(fd)) => Ok(fd),
        Ok(_) => Err(FsError::Inner),
        Err(e) => Err(e),
    }
}

/// Makes an empty file for `uid` at the path `path` and opens it.
pub fn create_file(fs: &mut Fs, path: &str, uid: u8) -> (r: Result<Fd, FsError>)
    requires
        old(fs).wf(),
    ensures
        final(fs).wf(),
        exists|p: String|
            p@ == path@ && spec_served(
                old(fs).disk_view(),
                old(fs).table_view(),
                FsReq::CreateFile(p, uid),
                final(fs).disk_view(),
                final(fs).table_view(),
                match r {
                    Ok(fd) => Ok(FsRes::File(fd)),
                    Err(e) => Err(e),
                },
            ),
{
    let p = path.to_owned();
    match fs.handle(FsReq::CreateFile(p, uid)) {
        Ok(FsRes::File(fd)) => Ok(fd),
        Ok(_) => Err(FsError::Inner),
        Err(e) => Err(e),
    }
}

/// Removes the file at the path `path`.
pub fn remove_file(fs: &mut Fs, path: &str) -> (r: Result<(), FsError>)
    requires
        old(fs).wf(),
    ensures
        final(fs).wf(),
        exists|p: String|
            p@ == path@ && spec_served(
                old(fs).disk_view(),
                old(fs).table_view(),
                FsReq::RemoveFile(p),
                final(fs).disk_view(),
                final(fs).table_view(),
                match r {
                    Ok(_) => Ok(FsRes::Done),
                    Err(e) => Err(e),
                },
            ),
{
    let p = path.to_owned();
    match fs.handle(FsReq::RemoveFile(p)) {
        Ok(FsRes::Done) => Ok(()),
        Ok(_) => Err(FsError::Inner),
        Err(e) => Err(e),
    }
}

/// Opens the directory at the path `path`.
pub fn open_dir(fs: &mut Fs, path: &str) -> (r: Result<Dd, FsError>)
    requires
        old(fs).wf(),
    ensures
        final(fs).wf(),
        exists|p: String|
            p@ == path@ && spec_served(
                old(fs).disk_view(),
                old(fs).table_view(),
                FsReq::OpenDir(p),
                final(fs).disk_view(),
                final(fs).table_view(),
                match r {
                    Ok(dd) => Ok(FsRes::Dir(dd)),
                    Err(e) => Err(e),
                },
            ),
{
    let p = path.to_owned();
    match fs.handle(FsReq::OpenDir(p)) {
        Ok(FsRes::Dir(dd)) => Ok(dd),
        Ok(_) => Err(FsError::Inner),
        Err(e) => Err(e),
    }
}

/// Makes a directory for `uid` at the path `path` and opens it.
pub fn create_dir(fs: &mut Fs, path: &str, uid: u8) -> (r: Result<Dd, FsError>)
    requires
        old(fs).wf(),
    ensures
        final(fs).wf(),
        exists|p: String|
            p@ == path@ && spec_served(
                old(fs).disk_view(),
                old(fs).table_view(),
                FsReq::CreateDir(p, uid),
                final(fs).disk_view(),
                final(fs).table_view(),
                match r {
                    Ok(dd) => Ok(FsRes::Dir(dd)),
                    Err(e) => Err(e),
                },
            ),
{
    let p = path.to_owned();
    match fs.handle(FsReq::CreateDir(p, uid)) {
        Ok(FsRes::Dir(dd)) => Ok(dd),
        Ok(_) => Err(FsError::Inner),
        Err(e) => Err(e),
    }
}

/// Removes the directory at the path `path`. What it holds is not looked
/// at.
pub fn remove_dir(fs: &mut Fs, path: &str) -> (r: Result<(), FsError>)
    requires
        old(fs).wf(),
    ensures
        final(fs).wf(),
        exists|p: String|
            p@ == path@ && spec_served(
                old(fs).disk_view(),
                old(fs).table_view(),
                FsReq::RemoveDir(p),
                final(fs).disk_view(),
                final(fs).table_view(),
                match r {
                    Ok(_) => Ok(FsRes::Done),
                    Err(e) => Err(e),
                },
            ),
{
    let p = path.to_owned();
    match fs.handle(FsReq::RemoveDir(p)) {
        Ok(FsRes::Done) => Ok(()),
        Ok(_) => Err(FsError::Inner),
        Err(e) => Err(e),
    }
}

/// Stores `inode` at `addr`.
pub fn update_inode(fs: &mut Fs, addr: u32, inode: Inode) -> (r: Result<(), FsError>)
    requires
        old(fs).wf(),
    ensures
        final(fs).wf(),
        final(fs).table_view() == old(fs).table_view(),
        r is Ok <==> addr < INODE_COUNT,
        r is Ok ==> final(fs).disk_view() == spec_put_inode(
            old(fs).disk_view(),
            addr as int,
            inode@,
        ),
        r is Err ==> r->Err_0 == FsError::NotFound && final(fs).disk_view() == old(fs).disk_view(),
{
    match fs.handle(FsReq::UpdateInode(addr, inode)) {
        Ok(_) => Ok(()),
        Err(e) => Err(e),
    }
}

/// Drops one descriptor on the inode `inode`.
pub fn close(fs: &mut Fs, inode: u32)
    requires
        old(fs).wf(),
    ensures
        final(fs).wf(),
        final(fs).disk_view() == old(fs).disk_view(),
        final(fs).table_view() == spec_drop(old(fs).table_view(), inode),
{
    let _ = fs.handle(FsReq::Close(inode));
}

/// Replaces the permission bits of the inode behind `meta`, in the
/// snapshot and on disk.
pub fn set_permission(fs: &mut Fs, meta: &mut Metadata, permission: (Rwx, Rwx)) -> (r: Result<
    (),
    FsError,
>)
    requires
        old(fs).wf(),
    ensures
        final(fs).wf(),
        final(fs).table_view() == old(fs).table_view(),
        final(meta).inode_addr() == old(meta).inode_addr(),
        final(meta).inode()@ == (InodeView {
            mode: spec_with_permission(old(meta).inode().mode, permission),
            ..old(meta).inode()@
        }),
        r is Ok <==> old(meta).inode_addr() < INODE_COUNT,
        r is Ok ==> final(fs).disk_view() == spec_put_inode(
            old(fs).disk_view(),
            old(meta).inode_addr() as int,
            final(meta).inode()@,
        ),
        r is Err ==> r->Err_0 == FsError::NotFound && final(fs).disk_view() == old(fs).disk_view(),
{
    let inode = meta.set_permission(permission);
    update_inode(fs, meta.addr(), inode)
}

/// Sets the timestamp of the inode behind `meta` to the clock's time, in
/// the snapshot and on disk.
pub fn update_timestamp(fs: &mut Fs, meta: &mut Metadata) -> (r: Result<(), FsError>)
    requires
        old(fs).wf(),
    ensures
        final(fs).wf(),
        final(fs).table_view() == old(fs).table_view(),
        final(meta).inode_addr() == old(meta).inode_addr(),
        final(meta).inode()@ == (InodeView {
            timestamp: final(meta).inode().timestamp,
            ..old(meta).inode()@
        }),
        r is Ok <==> old(meta).inode_addr() < INODE_COUNT,
        r is Ok ==> final(fs).disk_view() == spec_put_inode(
            old(fs).disk_view(),
            old(meta).inode_addr() as int,
            final(meta).inode()@,
        ),
        r is Err ==> r->Err_0 == FsError::NotFound && final(fs).disk_view() == old(fs).disk_view(),
{
    let inode = meta.update_timestamp();
    update_inode(fs, meta.addr(), inode)
}

impl Fd {
    /// Reads the payload of the file.
    pub fn read(&self, fs: &mut Fs) -> (r: Result<Vec<u8>, FsError>)
        requires
            old(fs).wf(),
        ensures
            final(fs).wf(),
            final(fs).disk_view() == old(fs).disk_view(),
            final(fs).table_view() == old(fs).table_view(),
            r is Ok <==> self.spec_inode_addr() < INODE_COUNT && spec_read_file(
                old(fs).disk_view(),
                self.spec_inode_addr() as int,
            ) is Some,
            r is Ok ==> r->Ok_0@ == spec_read_file(
                old(fs).disk_view(),
                self.spec_inode_addr() as int,
            )->Some_0,
            r is Err ==> r->Err_0 == if self.spec_inode_addr() >= INODE_COUNT {
                FsError::NotFound
            } else {
                FsError::Corrupted
            },
    {
        match fs.handle(FsReq::ReadFile(self.inode_addr())) {
            Ok(FsRes::Bytes(v)) => Ok(v),
            Ok(_) => Err(FsError::Inner),
            Err(e) => Err(e),
        }
    }

    /// Writes `data` as the payload of the file.
    pub fn write(&self, fs: &mut Fs, data: &Vec<u8>) -> (r: Result<(), FsError>)
        requires
            old(fs).wf(),
        ensures
            final(fs).wf(),
            final(fs).table_view() == old(fs).table_view(),
            r is Ok <==> spec_write_ok(
                old(fs).disk_view(),
                self.spec_inode_addr() as int,
                data@.len() as int + 1,
            ),
            r is Ok ==> spec_written(
                old(fs).disk_view(),
                final(fs).disk_view(),
                self.spec_inode_addr() as int,
                data@.push(0u8),
            ),
            r is Err ==> final(fs).disk_view() == old(fs).disk_view() && r->Err_0 == spec_fs_fd_err(
                spec_write_err(
                    old(fs).disk_view(),
                    self.spec_inode_addr() as int,
                    data@.len() as int + 1,
                ),
            ),
    {
        let copy = data.clone();
        assert(copy@ =~= data@);
        match fs.handle(FsReq::WriteFile(self.inode_addr(), copy)) {
            Ok(_) => Ok(()),
            Err(e) => Err(e),
        }
    }
}

impl Dd {
    /// Reads the entries of the directory.
    pub fn read(&self, fs: &mut Fs) -> (r: Result<Vec<Entry>, FsError>)
        requires
            old(fs).wf(),
        ensures
            final(fs).wf(),
            final(fs).disk_view() == old(fs).disk_view(),
            final(fs).table_view() == old(fs).table_view(),
            r is Ok <==> spec_read_dir(old(fs).disk_view(), self.spec_inode_addr() as int) is Some,
            r is Ok ==> entries_view(r->Ok_0@) == spec_read_dir(
                old(fs).disk_view(),
                self.spec_inode_addr() as int,
            )->Some_0,
            r is Err ==> r->Err_0 == spec_fs_dd_err(
                spec_read_dir_err(old(fs).disk_view(), self.spec_inode_addr() as int),
            ),
    {
        match fs.handle(FsReq::ReadDir(self.inode_addr())) {
            Ok(FsRes::Entries(v)) => Ok(v),
            Ok(_) => Err(FsError::Inner),
            Err(e) => Err(e),
        }
    }

    /// Adds the entry `name` for `inode` to the directory.
    pub fn add_entry(&self, fs: &mut Fs, inode: u32, name: &str) -> (r: Result<(), FsError>)
        requires
            old(fs).wf(),
        ensures
            final(fs).wf(),
            exists|n: String|
                n@ == name@ && spec_served(
                    old(fs).disk_view(),
                    old(fs).table_view(),
                    FsReq::DirAddEntry(self.spec_inode_addr(), inode, n),
                    final(fs).disk_view(),
                    final(fs).table_view(),
                    match r {
                        Ok(_) => Ok(FsRes::Done),
                        Err(e) => Err(e),
                    },
                ),
    {
        let n = name.to_owned();
        match fs.handle(FsReq::DirAddEntry(self.inode_addr(), inode, n)) {
            Ok(FsRes::Done) => Ok(()),
            Ok(_) => Err(FsError::Inner),
            Err(e) => Err(e),
        }
    }

    /// Removes the first entry for `inode` from the directory.
    pub fn remove_entry(&self, fs: &mut Fs, inode: u32) -> (r: Result<(), FsError>)
        requires
            old(fs).wf(),
        ensures
            final(fs).wf(),
            spec_served(
                old(fs).disk_view(),
                old(fs).table_view(),
                FsReq::DirRemoveEntry(self.spec_inode_addr(), inode),
                final(fs).disk_view(),
                final(fs).table_view(),
                match r {
                    Ok(_) => Ok(FsRes::Done),
                    Err(e) => Err(e),
                },
            ),
    {
        match fs.handle(FsReq::DirRemoveEntry(self.inode_addr(), inode)) {
            Ok(FsRes::Done) => Ok(()),
            Ok(_) => Err(FsError::Inner),
            Err(e) => Err(e),
        }
    }
}

} // verus!
