//! The file system as one value that serves one request at a time.
//!
//! Whoever owns the `Fs` owns the image and the table of open descriptors.
//! Callers hand it requests and get replies; nothing else touches either.

use vstd::prelude::*;
use vstd::utf8::encode_utf8;
use super::dir::{
    Dd, dir_add_entry, dir_remove_entry, entries_view, Entry, read_dir, spec_add_err, spec_add_ok,
    spec_read_dir, spec_read_dir_err, spec_remove_err, spec_remove_ok,
};
use super::disk::{Disk, DISK_SIZE};
use super::file::{
    Fd, read_file, spec_read_file, spec_write_err, spec_write_ok, spec_written, write_file,
};
use super::format::{init_disk, spec_fresh, spec_laid_out};
use super::inode::{Inode, INODE_COUNT, save_inode, spec_inode_at, spec_put_inode};
use super::metadata::{Metadata, metadata, spec_metadata};
use super::node::{
    create_dir, create_file, open_dir, open_file, remove_dir, remove_file, spec_create_err,
    spec_create_ok, spec_created, spec_fd_dd_err, spec_open_node, spec_remove_node_err,
    spec_remove_node_ok, spec_removed,
};
use super::path::{
    FsError, spec_fs_dd_err, spec_fs_fd_err, spec_fs_metadata_err, spec_path_to_inode,
};
use super::superblock::{has_magic, spec_parse_superblock, superblock, Superblock};
use super::table::{FdTable, FdTableEntry, spec_drop, spec_open};

verus! {

/// A request to the file system.
#[derive(Debug, Clone)]
pub enum FsReq {
    /// Read the superblock.
    Superblock,
    /// Look up the metadata of a path.
    Metadata(String),
    /// Open the file at a path.
    OpenFile(String),
    /// Make a file at a path for a uid and open it.
    CreateFile(String, u8),
    /// Remove the file at a path.
    RemoveFile(String),
    /// Open the directory at a path.
    OpenDir(String),
    /// Make a directory at a path for a uid and open it.
    CreateDir(String, u8),
    /// Remove the directory at a path.
    RemoveDir(String),
    /// Store an inode at an address.
    UpdateInode(u32, Inode),
    /// Read the payload of the file at an inode.
    ReadFile(u32),
    /// Write the payload of the file at an inode.
    WriteFile(u32, Vec<u8>),
    /// Read the entries of the directory at an inode.
    ReadDir(u32),
    /// Add an entry, for an inode and under a name, to the directory at an
    /// inode.
    DirAddEntry(u32, u32, String),
    /// Remove the first entry for an inode from the directory at an inode.
    DirRemoveEntry(u32, u32),
    /// Drop one descriptor on an inode.
    Close(u32),
}

/// A reply of the file system.
#[derive(Debug, Clone)]
pub enum FsRes {
    Superblock(Superblock),
    Metadata(Metadata),
    File(Fd),
    Dir(Dd),
    Bytes(Vec<u8>),
    Entries(Vec<Entry>),
    Done,
}

/// Whether serving the request `req` can change the image.
pub open spec fn spec_changes_image(req: FsReq) -> bool {
    match req {
        FsReq::CreateFile(_, _) | FsReq::RemoveFile(_) | FsReq::CreateDir(_, _) | FsReq::RemoveDir(
            _,
        ) | FsReq::UpdateInode(_, _) | FsReq::WriteFile(_, _) | FsReq::DirAddEntry(_, _, _)
        | FsReq::DirRemoveEntry(_, _) => true,
        _ => false,
    }
}

impl FsReq {
    /// Whether serving the request can change the image, so that the image
    /// is to be stored once it was served.
    pub fn changes_image(&self) -> (r: bool)
        ensures
            r == spec_changes_image(*self),
    {
        match self {
            FsReq::CreateFile(_, _) | FsReq::RemoveFile(_) | FsReq::CreateDir(_, _)
            | FsReq::RemoveDir(_) | FsReq::UpdateInode(_, _) | FsReq::WriteFile(_, _)
            | FsReq::DirAddEntry(_, _, _) | FsReq::DirRemoveEntry(_, _) => true,
            _ => false,
        }
    }
}

/// The image and the table of open descriptors.
pub struct Fs {
    disk: Disk,
    table: FdTable,
}

/// Whether the reply `r` and the state `(d, t)` are what serving a request
/// to read or look up gives in the state `(d0, t0)`: nothing changes, and
/// the reply is that of the part of the file system that the request is
/// for, with its error turned into one of the file system's.
pub open spec fn spec_served_read(
    d0: Seq<Seq<u8>>,
    t0: Map<u32, FdTableEntry>,
    req: FsReq,
    d: Seq<Seq<u8>>,
    t: Map<u32, FdTableEntry>,
    r: Result<FsRes, FsError>,
) -> bool {
    &&& d == d0
    &&& t == t0
    &&& match req {
        FsReq::Superblock => if has_magic(d0[0]) {
            r matches Ok(FsRes::Superblock(sb)) && sb == spec_parse_superblock(d0[0])
        } else {
            r == Err::<FsRes, FsError>(FsError::Corrupted)
        },
        FsReq::Metadata(path) => match spec_metadata(d0, encode_utf8(path@)) {
            Ok(i) => r matches Ok(FsRes::Metadata(m)) && m.inode_addr() == i && m.inode()@
                == spec_inode_at(d0, i as int),
            Err(e) => r == Err::<FsRes, FsError>(spec_fs_metadata_err(e)),
        },
        FsReq::ReadFile(i) => if i < INODE_COUNT && spec_read_file(d0, i as int) is Some {
            r matches Ok(FsRes::Bytes(v)) && v@ == spec_read_file(d0, i as int)->Some_0
        } else {
            r == Err::<FsRes, FsError>(
                if i >= INODE_COUNT {
                    FsError::NotFound
                } else {
                    FsError::Corrupted
                },
            )
        },
        FsReq::ReadDir(i) => match spec_read_dir(d0, i as int) {
            Some(es) => r matches Ok(FsRes::Entries(v)) && entries_view(v@) == es,
            None => r == Err::<FsRes, FsError>(spec_fs_dd_err(spec_read_dir_err(d0, i as int))),
        },
        _ => false,
    }
}

/// Whether the reply `r` and the state `(d, t)` are what serving a request
/// on the table of descriptors gives in the state `(d0, t0)`: the image
/// does not change, and the table counts one descriptor more or less.
pub open spec fn spec_served_table(
    d0: Seq<Seq<u8>>,
    t0: Map<u32, FdTableEntry>,
    req: FsReq,
    d: Seq<Seq<u8>>,
    t: Map<u32, FdTableEntry>,
    r: Result<FsRes, FsError>,
) -> bool {
    &&& d == d0
    &&& match req {
        FsReq::OpenFile(path) => match spec_open_node(d0, t0, encode_utf8(path@), false) {
            Ok(i) => r matches Ok(FsRes::File(fd)) && t == spec_open(t0, i, false)
                && fd.spec_inode_addr() == i && fd.spec_metadata().inode()@ == spec_inode_at(
                d0,
                i as int,
            ),
            Err(e) => t == t0 && r == Err::<FsRes, FsError>(spec_fs_fd_err(spec_fd_dd_err(e))),
        },
        FsReq::OpenDir(path) => match spec_open_node(d0, t0, encode_utf8(path@), true) {
            Ok(i) => r matches Ok(FsRes::Dir(dd)) && t == spec_open(t0, i, true)
                && dd.spec_inode_addr() == i && dd.spec_metadata().inode()@ == spec_inode_at(
                d0,
                i as int,
            ),
            Err(e) => t == t0 && r == Err::<FsRes, FsError>(spec_fs_dd_err(e)),
        },
        FsReq::Close(i) => r matches Ok(FsRes::Done) && t == spec_drop(t0, i),
        _ => false,
    }
}

/// Whether the reply `r` and the state `(d, t)` are what serving a request
/// to make or remove something at a path gives in the state `(d0, t0)`.
pub open spec fn spec_served_node(
    d0: Seq<Seq<u8>>,
    t0: Map<u32, FdTableEntry>,
    req: FsReq,
    d: Seq<Seq<u8>>,
    t: Map<u32, FdTableEntry>,
    r: Result<FsRes, FsError>,
) -> bool {
    match req {
        FsReq::CreateFile(path, uid) => if spec_create_ok(d0, encode_utf8(path@)) {
            r matches Ok(FsRes::File(fd)) && spec_created(
                d0,
                d,
                encode_utf8(path@),
                uid,
                false,
                fd.spec_inode_addr(),
            ) && t == t0.insert(fd.spec_inode_addr(), FdTableEntry { count: 1, is_dir: false })
                && fd.spec_metadata().inode()@ == spec_inode_at(d, fd.spec_inode_addr() as int)
        } else {
            d == d0 && t == t0 && r == Err::<FsRes, FsError>(
                spec_fs_fd_err(spec_fd_dd_err(spec_create_err(d0, encode_utf8(path@)))),
            )
        },
        FsReq::CreateDir(path, uid) => if spec_create_ok(d0, encode_utf8(path@)) {
            r matches Ok(FsRes::Dir(dd)) && spec_created(
                d0,
                d,
                encode_utf8(path@),
                uid,
                true,
                dd.spec_inode_addr(),
            ) && t == t0.insert(dd.spec_inode_addr(), FdTableEntry { count: 1, is_dir: true })
                && dd.spec_metadata().inode()@ == spec_inode_at(d, dd.spec_inode_addr() as int)
        } else {
            d == d0 && t == t0 && r == Err::<FsRes, FsError>(
                spec_fs_dd_err(spec_create_err(d0, encode_utf8(path@))),
            )
        },
        FsReq::RemoveFile(path) => t == t0 && if spec_remove_node_ok(
            d0,
            t0,
            encode_utf8(path@),
            false,
        ) {
            r matches Ok(FsRes::Done) && spec_removed(
                d0,
                d,
                encode_utf8(path@),
                spec_path_to_inode(d0, encode_utf8(path@))->Ok_0,
            )
        } else {
            d == d0 && r == Err::<FsRes, FsError>(
                spec_fs_fd_err(
                    spec_fd_dd_err(spec_remove_node_err(d0, t0, encode_utf8(path@), false)),
                ),
            )
        },
        FsReq::RemoveDir(path) => t == t0 && if spec_remove_node_ok(
            d0,
            t0,
            encode_utf8(path@),
            true,
        ) {
            r matches Ok(FsRes::Done) && spec_removed(
                d0,
                d,
                encode_utf8(path@),
                spec_path_to_inode(d0, encode_utf8(path@))->Ok_0,
            )
        } else {
            d == d0 && r == Err::<FsRes, FsError>(
                spec_fs_dd_err(spec_remove_node_err(d0, t0, encode_utf8(path@), true)),
            )
        },
        _ => false,
    }
}

/// Whether the reply `r` and the state `(d, t)` are what serving a request
/// to write at an inode gives in the state `(d0, t0)`.
pub open spec fn spec_served_write(
    d0: Seq<Seq<u8>>,
    t0: Map<u32, FdTableEntry>,
    req: FsReq,
    d: Seq<Seq<u8>>,
    t: Map<u32, FdTableEntry>,
    r: Result<FsRes, FsError>,
) -> bool {
    &&& t == t0
    &&& match req {
        FsReq::UpdateInode(addr, inode) => if addr < INODE_COUNT {
            r matches Ok(FsRes::Done) && d == spec_put_inode(d0, addr as int, inode@)
        } else {
            d == d0 && r == Err::<FsRes, FsError>(FsError::NotFound)
        },
        FsReq::WriteFile(i, data) => if spec_write_ok(d0, i as int, data@.len() as int + 1) {
            r matches Ok(FsRes::Done) && spec_written(d0, d, i as int, data@.push(0u8))
        } else {
            d == d0 && r == Err::<FsRes, FsError>(
                spec_fs_fd_err(spec_write_err(d0, i as int, data@.len() as int + 1)),
            )
        },
        FsReq::DirAddEntry(dir, entry, name) => if spec_add_ok(
            d0,
            dir as int,
            (entry, encode_utf8(name@)),
        ) {
            r matches Ok(FsRes::Done) && spec_read_dir(d, dir as int) == Some(
                spec_read_dir(d0, dir as int)->Some_0.push((entry, encode_utf8(name@))),
            )
        } else {
            d == d0 && r == Err::<FsRes, FsError>(
                spec_fs_dd_err(spec_add_err(d0, dir as int, (entry, encode_utf8(name@)))),
            )
        },
        FsReq::DirRemoveEntry(dir, entry) => if spec_remove_ok(d0, dir as int, entry) {
            r matches Ok(FsRes::Done) && spec_read_dir(d, dir as int) == Some(
                spec_read_dir(d0, dir as int)->Some_0.remove(
                    super::dir::first_for(spec_read_dir(d0, dir as int)->Some_0, entry),
                ),
            )
        } else {
            d == d0 && r == Err::<FsRes, FsError>(
                spec_fs_dd_err(spec_remove_err(d0, dir as int, entry)),
            )
        },
        _ => false,
    }
}

/// Whether the reply `r` and the state `(d, t)` are what serving the
/// request `req` gives in the state `(d0, t0)`.
pub open spec fn spec_served(
    d0: Seq<Seq<u8>>,
    t0: Map<u32, FdTableEntry>,
    req: FsReq,
    d: Seq<Seq<u8>>,
    t: Map<u32, FdTableEntry>,
    r: Result<FsRes, FsError>,
) -> bool {
    match req {
        FsReq::Superblock | FsReq::Metadata(_) | FsReq::ReadFile(_) | FsReq::ReadDir(_) => {
            spec_served_read(d0, t0, req, d, t, r)
        },
        FsReq::OpenFile(_) | FsReq::OpenDir(_) | FsReq::Close(_) => spec_served_table(
            d0,
            t0,
            req,
            d,
            t,
            r,
        ),
        FsReq::CreateFile(_, _) | FsReq::CreateDir(_, _) | FsReq::RemoveFile(_) | FsReq::RemoveDir(
            _,
        ) => spec_served_node(d0, t0, req, d, t, r),
        _ => spec_served_write(d0, t0, req, d, t, r),
    }
}

/// A request that cannot change the image leaves it as it is, and so
/// does every request that fails.
pub proof fn law_image_stays(
    d0: Seq<Seq<u8>>,
    t0: Map<u32, FdTableEntry>,
    req: FsReq,
    d: Seq<Seq<u8>>,
    t: Map<u32, FdTableEntry>,
    r: Result<FsRes, FsError>,
)
    requires
        spec_served(d0, t0, req, d, t, r),
        !spec_changes_image(req) || r is Err,
    ensures
        d == d0,
{
}

impl Fs {
    /// The image.
    pub closed spec fn disk_view(&self) -> Seq<Seq<u8>> {
        self.disk@
    }

    /// The table of open descriptors.
    pub closed spec fn table_view(&self) -> Map<u32, FdTableEntry> {
        self.table@
    }

    /// The image has its shape and no entry of the table counts zero
    /// descriptors.
    pub closed spec fn wf(&self) -> bool {
        self.disk.wf() && self.table.wf()
    }

    /// Takes over the image `image`, or lays out a fresh one where `image`
    /// is shorter than a disk or does not begin with the magic byte. No
    /// descriptor is open.
    pub fn start(image: Vec<u8>) -> (fs: Self)
        ensures
            fs.wf(),
            fs.table_view() == Map::<u32, FdTableEntry>::empty(),
            spec_laid_out(image@) ==> fs.disk_view() == super::disk::blocks_of(
                image@.take(DISK_SIZE as int),
            ),
            !spec_laid_out(image@) ==> spec_fresh(fs.disk_view()),
    {
        Fs { disk: init_disk(image), table: FdTable::new() }
    }

    /// A copy of the file system as it is: what to go back to where the
    /// image that a request has changed cannot be stored.
    pub fn snapshot(&self) -> (copy: Self)
        requires
            self.wf(),
        ensures
            copy.wf(),
            copy.disk_view() == self.disk_view(),
            copy.table_view() == self.table_view(),
    {
        Fs { disk: self.disk.snapshot(), table: self.table.snapshot() }
    }

    /// The image.
    pub fn disk(&self) -> (d: &Disk)
        ensures
            d@ == self.disk_view(),
            self.wf() ==> d.wf(),
    {
        &self.disk
    }

    /// The table of open descriptors.
    pub fn table(&self) -> (t: &FdTable)
        ensures
            t@ == self.table_view(),
    {
        &self.table
    }

    fn serve_read(&self, req: FsReq) -> (r: Result<FsRes, FsError>)
        requires
            self.wf(),
            req is Superblock || req is Metadata || req is ReadFile || req is ReadDir,
        ensures
            spec_served_read(
                self.disk_view(),
                self.table_view(),
                req,
                self.disk_view(),
                self.table_view(),
                r,
            ),
    {
        match req {
            FsReq::Superblock => match superblock(&self.disk) {
                Ok(sb) => Ok(FsRes::Superblock(sb)),
                Err(_) => Err(FsError::Corrupted),
            },
            FsReq::Metadata(path) => match metadata(&self.disk, path.as_str()) {
                Ok(m) => Ok(FsRes::Metadata(m)),
                Err(e) => Err(FsError::from_metadata_err(e)),
            },
            FsReq::ReadFile(i) => match read_file(&self.disk, i) {
                Ok(v) => Ok(FsRes::Bytes(v)),
                Err(e) => Err(FsError::from_fd_err(e)),
            },
            FsReq::ReadDir(i) => match read_dir(&self.disk, i) {
                Ok(v) => Ok(FsRes::Entries(v)),
                Err(e) => Err(FsError::from_dd_err(e)),
            },
            _ => Err(FsError::Inner),
        }
    }

    fn serve_table(&mut self, req: FsReq) -> (r: Result<FsRes, FsError>)
        requires
            old(self).wf(),
            req is OpenFile || req is OpenDir || req is Close,
        ensures
            final(self).wf(),
            spec_served_table(
                old(self).disk_view(),
                old(self).table_view(),
                req,
                final(self).disk_view(),
                final(self).table_view(),
                r,
            ),
    {
        match req {
            FsReq::OpenFile(path) => match open_file(&self.disk, &mut self.table, path.as_str()) {
                Ok(fd) => Ok(FsRes::File(fd)),
                Err(e) => Err(FsError::from_fd_err(e)),
            },
            FsReq::OpenDir(path) => match open_dir(&self.disk, &mut self.table, path.as_str()) {
                Ok(dd) => Ok(FsRes::Dir(dd)),
                Err(e) => Err(FsError::from_dd_err(e)),
            },
            FsReq::Close(i) => {
                self.table.try_drop(i);
                Ok(FsRes::Done)
            },
            _ => Err(FsError::Inner),
        }
    }

    fn serve_node(&mut self, req: FsReq) -> (r: Result<FsRes, FsError>)
        requires
            old(self).wf(),
            req is CreateFile || req is CreateDir || req is RemoveFile || req is RemoveDir,
        ensures
            final(self).wf(),
            spec_served_node(
                old(self).disk_view(),
                old(self).table_view(),
                req,
                final(self).disk_view(),
                final(self).table_view(),
                r,
            ),
    {
        match req {
            FsReq::CreateFile(path, uid) => match create_file(
                &mut self.disk,
                &mut self.table,
                path.as_str(),
                uid,
            ) {
                Ok(fd) => Ok(FsRes::File(fd)),
                Err(e) => Err(FsError::from_fd_err(e)),
            },
            FsReq::CreateDir(path, uid) => match create_dir(
                &mut self.disk,
                &mut self.table,
                path.as_str(),
                uid,
            ) {
                Ok(dd) => Ok(FsRes::Dir(dd)),
                Err(e) => Err(FsError::from_dd_err(e)),
            },
            FsReq::RemoveFile(path) => match remove_file(
                &mut self.disk,
                &self.table,
                path.as_str(),
            ) {
                Ok(()) => Ok(FsRes::Done),
                Err(e) => Err(FsError::from_fd_err(e)),
            },
            FsReq::RemoveDir(path) => match remove_dir(&mut self.disk, &self.table, path.as_str()) {
                Ok(()) => Ok(FsRes::Done),
                Err(e) => Err(FsError::from_dd_err(e)),
            },
            _ => Err(FsError::Inner),
        }
    }

    fn serve_write(&mut self, req: FsReq) -> (r: Result<FsRes, FsError>)
        requires
            old(self).wf(),
            req is UpdateInode || req is WriteFile || req is DirAddEntry || req is DirRemoveEntry,
        ensures
            final(self).wf(),
            spec_served_write(
                old(self).disk_view(),
                old(self).table_view(),
                req,
                final(self).disk_view(),
                final(self).table_view(),
                r,
            ),
    {
        match req {
            FsReq::UpdateInode(addr, inode) => match save_inode(&mut self.disk, addr, &inode) {
                Ok(()) => Ok(FsRes::Done),
                Err(_) => Err(FsError::NotFound),
            },
            FsReq::WriteFile(i, data) => {
                let mut data = data;
                match write_file(&mut self.disk, i, &mut data) {
                    Ok(()) => Ok(FsRes::Done),
                    Err(e) => Err(FsError::from_fd_err(e)),
                }
            },
            FsReq::DirAddEntry(dir, entry, name) => match dir_add_entry(
                &mut self.disk,
                dir,
                entry,
                name.as_str(),
            ) {
                Ok(()) => Ok(FsRes::Done),
                Err(e) => Err(FsError::from_dd_err(e)),
            },
            FsReq::DirRemoveEntry(dir, entry) => match dir_remove_entry(
                &mut self.disk,
                dir,
                entry,
            ) {
                Ok(()) => Ok(FsRes::Done),
                Err(e) => Err(FsError::from_dd_err(e)),
            },
            _ => Err(FsError::Inner),
        }
    }

    /// Serves one request: hands it to the part of the file system that it
    /// is for and turns that part's error into one of the file system's.
    pub fn handle(&mut self, req: FsReq) -> (r: Result<FsRes, FsError>)
        requires
            old(self).wf(),
        ensures
            final(self).wf(),
            spec_served(
                old(self).disk_view(),
                old(self).table_view(),
                req,
                final(self).disk_view(),
                final(self).table_view(),
                r,
            ),
    {
        match req {
            FsReq::Superblock | FsReq::Metadata(_) | FsReq::ReadFile(_) | FsReq::ReadDir(_) => {
                self.serve_read(req)
            },
            FsReq::OpenFile(_) | FsReq::OpenDir(_) | FsReq::Close(_) => self.serve_table(req),
            FsReq::CreateFile(_, _) | FsReq::CreateDir(_, _) | FsReq::RemoveFile(_)
            | FsReq::RemoveDir(_) => self.serve_node(req),
            _ => self.serve_write(req),
        }
    }
}

} // verus!
