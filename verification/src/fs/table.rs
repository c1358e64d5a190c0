//! The table of open descriptors: for each open inode, how many
//! descriptors are open on it and of which kind.

use vstd::prelude::*;
use std::collections::HashMap;
use super::dir::{Dd, spec_is_dir};
use super::disk::Disk;
use super::file::Fd;
use super::inode::{INODE_COUNT, load_inode, spec_inode_at};
use super::metadata::Metadata;
use super::path::FsError;

verus! {

broadcast use vstd::std_specs::hash::group_hash_axioms;

/// The state of one open inode.
#[derive(Debug, Clone, Copy, PartialEq, Eq, Structural)]
pub struct FdTableEntry {
    /// Number of descriptors open on the inode.
    pub count: u32,
    /// Whether they are directory descriptors.
    pub is_dir: bool,
}

#[derive(Debug)]
pub struct FdTable {
    data: HashMap<u32, FdTableEntry>,
}

/// The table after one descriptor on `inode` was dropped: the count goes
/// down by one, and the entry goes with the last descriptor.
pub open spec fn spec_drop(t: Map<u32, FdTableEntry>, inode: u32) -> Map<u32, FdTableEntry> {
    if !t.contains_key(inode) {
        t
    } else if t[inode].count <= 1 {
        t.remove(inode)
    } else {
        t.insert(inode, FdTableEntry { count: (t[inode].count - 1) as u32, is_dir: t[inode].is_dir })
    }
}

/// The table after one descriptor of the given kind was opened on `inode`.
pub open spec fn spec_open(t: Map<u32, FdTableEntry>, inode: u32, is_dir: bool) -> Map<
    u32,
    FdTableEntry,
> {
    if t.contains_key(inode) {
        t.insert(inode, FdTableEntry { count: (t[inode].count + 1) as u32, is_dir })
    } else {
        t.insert(inode, FdTableEntry { count: 1, is_dir })
    }
}

/// Whether a descriptor of the given kind can be opened on `inode`: no
/// descriptor of the other kind is open on it, and the count has room.
pub open spec fn spec_can_open(t: Map<u32, FdTableEntry>, inode: u32, is_dir: bool) -> bool {
    t.contains_key(inode) ==> t[inode].is_dir == is_dir && t[inode].count < u32::MAX
}

/// Whether no entry of `t` has a count of zero.
pub open spec fn counts_positive(t: Map<u32, FdTableEntry>) -> bool {
    forall|k: u32| t.contains_key(k) ==> (#[trigger] t[k]).count >= 1
}

impl View for FdTable {
    type V = Map<u32, FdTableEntry>;

    closed spec fn view(&self) -> Map<u32, FdTableEntry> {
        self.data@
    }
}

impl FdTable {
    /// No entry has a count of zero.
    pub open spec fn wf(&self) -> bool {
        counts_positive(self@)
    }

    /// An empty table.
    pub fn new() -> (t: Self)
        ensures
            t@ == Map::<u32, FdTableEntry>::empty(),
            t.wf(),
    {
        Self { data: HashMap::new() }
    }

    /// A copy of the table.
    pub fn snapshot(&self) -> (copy: Self)
        ensures
            copy@ == self@,
            copy.wf() == self.wf(),
    {
        Self { data: self.data.clone() }
    }

    /// Drops one descriptor on `inode`.
    pub fn try_drop(&mut self, inode: u32)
        requires
            old(self).wf(),
        ensures
            final(self)@ == spec_drop(old(self)@, inode),
            final(self).wf(),
    {
        let e = match self.data.get(&inode) {
            Some(e) => *e,
            None => {
                return ;
            },
        };
        if e.count <= 1 {
            let _ = self.data.remove(&inode);
        } else {
            let _ = self.data.insert(inode, FdTableEntry { count: e.count - 1, is_dir: e.is_dir });
        }
    }

    /// Enters `inode_addr` with one file descriptor.
    pub fn add_file(&mut self, inode_addr: u32)
        requires
            old(self).wf(),
        ensures
            final(self)@ == old(self)@.insert(inode_addr, FdTableEntry { count: 1, is_dir: false }),
            final(self).wf(),
    {
        let _ = self.data.insert(inode_addr, FdTableEntry { count: 1, is_dir: false });
    }

    /// Enters `inode_addr` with one directory descriptor.
    pub fn add_dir(&mut self, inode_addr: u32)
        requires
            old(self).wf(),
        ensures
            final(self)@ == old(self)@.insert(inode_addr, FdTableEntry { count: 1, is_dir: true }),
            final(self).wf(),
    {
        let _ = self.data.insert(inode_addr, FdTableEntry { count: 1, is_dir: true });
    }

    /// Whether a descriptor is open on `inode_addr`.
    pub fn check(&self, inode_addr: u32) -> (r: Option<()>)
        ensures
            r is Some <==> self@.contains_key(inode_addr),
    {
        match self.data.get(&inode_addr) {
            Some(_) => Some(()),
            None => None,
        }
    }

    /// The entry of `inode_addr`, if a descriptor is open on it.
    pub fn entry(&self, inode_addr: u32) -> (r: Option<FdTableEntry>)
        ensures
            r is Some <==> self@.contains_key(inode_addr),
            r is Some ==> r->Some_0 == self@[inode_addr],
    {
        match self.data.get(&inode_addr) {
            Some(e) => Some(*e),
            None => None,
        }
    }

    /// Counts one more descriptor of the given kind on `inode_addr`, if
    /// none of the other kind is open on it.
    pub fn open(&mut self, inode_addr: u32, is_dir: bool) -> (ok: bool)
        requires
            old(self).wf(),
        ensures
            final(self).wf(),
            ok == spec_can_open(old(self)@, inode_addr, is_dir),
            ok ==> final(self)@ == spec_open(old(self)@, inode_addr, is_dir),
            !ok ==> final(self)@ == old(self)@,
    {
        match self.entry(inode_addr) {
            Some(e) => {
                if e.is_dir != is_dir || e.count == u32::MAX {
                    return false;
                }
                let _ = self.data.insert(inode_addr, FdTableEntry { count: e.count + 1, is_dir });
            },
            None => {
                if is_dir {
                    self.add_dir(inode_addr);
                } else {
                    self.add_file(inode_addr);
                }
            },
        }
        true
    }
}

/// Whether a descriptor of the given kind can be opened on the inode
/// `inode`: the inode exists and is of that kind, and the table lets it.
pub open spec fn spec_get_ok(d: Seq<Seq<u8>>, t: Map<u32, FdTableEntry>, inode: u32, is_dir: bool) -> bool {
    &&& inode < INODE_COUNT
    &&& spec_is_dir(spec_inode_at(d, inode as int)) == is_dir
    &&& spec_can_open(t, inode, is_dir)
}

/// The error with which opening a descriptor of the given kind on the
/// inode `inode` fails.
pub open spec fn spec_get_err(d: Seq<Seq<u8>>, inode: u32, is_dir: bool) -> FsError {
    if inode >= INODE_COUNT {
        FsError::NotFound
    } else if is_dir {
        FsError::NotDirButFile
    } else {
        FsError::NotFileButDir
    }
}

impl FdTable {
    /// Opens a file descriptor on the inode `inode_addr`.
    pub fn get_file(&mut self, disk: &Disk, inode_addr: u32) -> (r: Result<Fd, FsError>)
        requires
            old(self).wf(),
            disk.wf(),
        ensures
            final(self).wf(),
            r is Ok <==> spec_get_ok(disk@, old(self)@, inode_addr, false),
            r is Ok ==> {
                &&& r->Ok_0.spec_inode_addr() == inode_addr
                &&& r->Ok_0.spec_metadata().inode_addr() == inode_addr
                &&& r->Ok_0.spec_metadata().inode()@ == spec_inode_at(disk@, inode_addr as int)
                &&& final(self)@ == spec_open(old(self)@, inode_addr, false)
            },
            r is Err ==> final(self)@ == old(self)@ && r->Err_0 == spec_get_err(
                disk@,
                inode_addr,
                false,
            ),
    {
        let inode = match load_inode(disk, inode_addr) {
            Ok(i) => i,
            Err(_) => {
                return Err(FsError::NotFound);
            },
        };
        let metadata = Metadata::new(inode_addr, inode);
        if metadata.is_dir() {
            return Err(FsError::NotFileButDir);
        }
        if !self.open(inode_addr, false) {
            return Err(FsError::NotFileButDir);
        }
        Ok(Fd::new(inode_addr, metadata))
    }

    /// Opens a directory descriptor on the inode `inode_addr`.
    pub fn get_dir(&mut self, disk: &Disk, inode_addr: u32) -> (r: Result<Dd, FsError>)
        requires
            old(self).wf(),
            disk.wf(),
        ensures
            final(self).wf(),
            r is Ok <==> spec_get_ok(disk@, old(self)@, inode_addr, true),
            r is Ok ==> {
                &&& r->Ok_0.spec_inode_addr() == inode_addr
                &&& r->Ok_0.spec_metadata().inode_addr() == inode_addr
                &&& r->Ok_0.spec_metadata().inode()@ == spec_inode_at(disk@, inode_addr as int)
                &&& final(self)@ == spec_open(old(self)@, inode_addr, true)
            },
            r is Err ==> final(self)@ == old(self)@ && r->Err_0 == spec_get_err(
                disk@,
                inode_addr,
                true,
            ),
    {
        let inode = match load_inode(disk, inode_addr) {
            Ok(i) => i,
            Err(_) => {
                return Err(FsError::NotFound);
            },
        };
        let metadata = Metadata::new(inode_addr, inode);
        if !metadata.is_dir() {
            return Err(FsError::NotDirButFile);
        }
        if !self.open(inode_addr, true) {
            return Err(FsError::NotDirButFile);
        }
        Ok(Dd::new(inode_addr, metadata))
    }
}

} // verus!
