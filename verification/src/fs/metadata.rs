//! Metadata: a snapshot of an inode, read through accessors.

use vstd::prelude::*;
use vstd::utf8::encode_utf8;
use super::clock::{utc_date, utc_fields};
use super::disk::{Disk, DiskError};
use super::inode::{DIR_FLAG, Inode, INODE_COUNT, InodeView, load_inode, spec_inode_at};
use super::path::{FsError, path_to_inode, spec_path_to_inode};

verus! {

#[derive(Debug, Clone, Copy, PartialEq, Eq, Structural)]
pub enum MetadataError {
    /// No reply came back from the file system.
    RecvErr,
    InvalidPath,
    NotFound,
    DiskErr(DiskError),
}

/// Permissions: read, write, execute.
#[derive(Debug, Clone, Copy, PartialEq, Eq, Structural)]
pub struct Rwx {
    pub read: bool,
    pub write: bool,
    pub execute: bool,
}

/// The inode at `addr` as it was when the metadata was taken.
#[derive(Debug, Clone, Copy)]
pub struct Metadata {
    addr: u32,
    inode: Inode,
}

/// The permissions that the three mode bits `r`, `w` and `x` of `mode`
/// grant.
pub open spec fn spec_rwx(mode: u8, r: u8, w: u8, x: u8) -> Rwx {
    Rwx { read: mode & r != 0, write: mode & w != 0, execute: mode & x != 0 }
}

/// The owner's and the others' permissions in `mode`.
pub open spec fn spec_permission(mode: u8) -> (Rwx, Rwx) {
    (spec_rwx(mode, 32, 16, 8), spec_rwx(mode, 4, 2, 1))
}

/// The six permission bits that stand for `p`.
pub open spec fn spec_permission_bits(p: (Rwx, Rwx)) -> u8 {
    (if p.0.read { 32u8 } else { 0u8 }) | (if p.0.write { 16u8 } else { 0u8 }) | (if p.0.execute {
        8u8
    } else {
        0u8
    }) | (if p.1.read { 4u8 } else { 0u8 }) | (if p.1.write { 2u8 } else { 0u8 }) | (
    if p.1.execute {
        1u8
    } else {
        0u8
    })
}

/// `mode` with its six permission bits replaced by those of `p`.
pub open spec fn spec_with_permission(mode: u8, p: (Rwx, Rwx)) -> u8 {
    (mode & 0xC0) | spec_permission_bits(p)
}

/// The month (from 0), day, hour and minute of `ts` in UTC.
pub open spec fn spec_timestamp(ts: u32) -> (u32, u32, u32, u32) {
    (utc_date(ts).0, utc_date(ts).1, ts % 86_400 / 3_600, ts % 3_600 / 60)
}

/// The bits of one permission triple.
fn rwx_bits(p: Rwx, r: u8, w: u8, x: u8) -> (bits: u8)
    ensures
        bits == (if p.read { r } else { 0u8 }) | (if p.write { w } else { 0u8 }) | (if p.execute {
            x
        } else {
            0u8
        }),
{
    let a: u8 = if p.read {
        r
    } else {
        0
    };
    let b: u8 = if p.write {
        w
    } else {
        0
    };
    let c: u8 = if p.execute {
        x
    } else {
        0
    };
    a | b | c
}

/// Setting permissions and reading them back gives what was set, and the
/// other bits of the mode stay.
pub proof fn law_permission_round_trip(mode: u8, p: (Rwx, Rwx))
    ensures
        spec_permission(spec_with_permission(mode, p)) == p,
        spec_with_permission(mode, p) & 0xC0 == mode & 0xC0,
        spec_with_permission(mode, p) & DIR_FLAG == mode & DIR_FLAG,
{
    let a: u8 = if p.0.read { 32u8 } else { 0u8 };
    let b: u8 = if p.0.write { 16u8 } else { 0u8 };
    let c: u8 = if p.0.execute { 8u8 } else { 0u8 };
    let e: u8 = if p.1.read { 4u8 } else { 0u8 };
    let f: u8 = if p.1.write { 2u8 } else { 0u8 };
    let g: u8 = if p.1.execute { 1u8 } else { 0u8 };
    let m = (mode & 0xC0) | (a | b | c | e | f | g);
    assert(spec_with_permission(mode, p) == m);
    assert((1u8 << 6) == 64u8) by (bit_vector);
    assert(DIR_FLAG == 64u8);
    assert((m & 32u8 != 0) == (a != 0) && (m & 16u8 != 0) == (b != 0) && (m & 8u8 != 0) == (c
        != 0) && (m & 4u8 != 0) == (e != 0) && (m & 2u8 != 0) == (f != 0) && (m & 1u8 != 0) == (g
        != 0) && m & 0xC0 == mode & 0xC0 && m & 64u8 == mode & 64u8)
        by (bit_vector)
        requires
            m == (mode & 0xC0) | (a | b | c | e | f | g),
            a == 32u8 || a == 0u8,
            b == 16u8 || b == 0u8,
            c == 8u8 || c == 0u8,
            e == 4u8 || e == 0u8,
            f == 2u8 || f == 0u8,
            g == 1u8 || g == 0u8,
    ;
}

impl Metadata {
    pub fn new(addr: u32, inode: Inode) -> (m: Self)
        ensures
            m.inode_addr() == addr,
            m.inode() == inode,
    {
        Self { addr, inode }
    }

    /// The address of the inode.
    pub closed spec fn inode_addr(&self) -> u32 {
        self.addr
    }

    /// The snapshot.
    pub closed spec fn inode(&self) -> Inode {
        self.inode
    }

    /// The address of the inode.
    pub fn addr(&self) -> (a: u32)
        ensures
            a == self.inode_addr(),
    {
        self.addr
    }

    /// The snapshot.
    pub fn snapshot(&self) -> (i: Inode)
        ensures
            i == self.inode(),
    {
        self.inode
    }

    /// Whether the inode is a directory.
    pub fn is_dir(&self) -> (b: bool)
        ensures
            b == (self.inode().mode & DIR_FLAG != 0),
    {
        self.inode.mode & DIR_FLAG != 0
    }

    /// The owner's uid.
    pub fn owner(&self) -> (uid: u8)
        ensures
            uid == self.inode().uid,
    {
        self.inode.uid
    }

    /// The size recorded in the inode.
    pub fn size(&self) -> (size: u32)
        ensures
            size == self.inode().size,
    {
        self.inode.size
    }

    /// The owner's and the others' permissions.
    pub fn permission(&self) -> (p: (Rwx, Rwx))
        ensures
            p == spec_permission(self.inode().mode),
    {
        let mode = self.inode.mode;
        (
            Rwx {
                read: mode & 32 != 0,
                write: mode & 16 != 0,
                execute: mode & 8 != 0,
            },
            Rwx { read: mode & 4 != 0, write: mode & 2 != 0, execute: mode & 1 != 0 },
        )
    }

    /// Replaces the permission bits of the snapshot's mode and gives the
    /// inode to store.
    pub fn set_permission(&mut self, permission: (Rwx, Rwx)) -> (inode: Inode)
        ensures
            final(self).inode_addr() == old(self).inode_addr(),
            final(self).inode() == inode,
            inode@ == (InodeView {
                mode: spec_with_permission(old(self).inode().mode, permission),
                ..old(self).inode()@
            }),
    {
        let owner = rwx_bits(permission.0, 32, 16, 8);
        let other = rwx_bits(permission.1, 4, 2, 1);
        self.inode.mode = (self.inode.mode & 0xC0) | (owner | other);
        proof {
            let a: u8 = if permission.0.read { 32u8 } else { 0u8 };
            let b: u8 = if permission.0.write { 16u8 } else { 0u8 };
            let c: u8 = if permission.0.execute { 8u8 } else { 0u8 };
            let e: u8 = if permission.1.read { 4u8 } else { 0u8 };
            let f: u8 = if permission.1.write { 2u8 } else { 0u8 };
            let g: u8 = if permission.1.execute { 1u8 } else { 0u8 };
            assert(((a | b | c) | (e | f | g)) == (a | b | c | e | f | g)) by (bit_vector);
        }
        self.inode
    }

    /// The month (from 0), day of month, hour and minute of the timestamp,
    /// in UTC.
    pub fn timestamp(&self) -> (t: (u32, u32, u32, u32))
        ensures
            t == spec_timestamp(self.inode().timestamp),
    {
        match utc_fields(self.inode.timestamp) {
            Some(t) => t,
            None => (0, 0, 0, 0),
        }
    }

    /// Sets the snapshot's timestamp to the clock's time and gives the
    /// inode to store.
    pub fn update_timestamp(&mut self) -> (inode: Inode)
        ensures
            final(self).inode_addr() == old(self).inode_addr(),
            final(self).inode() == inode,
            inode@ == (InodeView { timestamp: inode.timestamp, ..old(self).inode()@ }),
    {
        self.inode.update_timestamp();
        self.inode
    }
}

/// The inode whose metadata the path `p` gives, or the error with which
/// the lookup fails.
pub open spec fn spec_metadata(d: Seq<Seq<u8>>, p: Seq<u8>) -> Result<u32, MetadataError> {
    match spec_path_to_inode(d, p) {
        Ok(i) => if i < INODE_COUNT {
            Ok(i)
        } else {
            Err(MetadataError::NotFound)
        },
        Err(FsError::InvalidPath) => Err(MetadataError::InvalidPath),
        Err(FsError::Corrupted) => Err(MetadataError::DiskErr(DiskError::InvalidAddr)),
        Err(_) => Err(MetadataError::NotFound),
    }
}

/// The metadata of what the path `path` names.
pub fn metadata(disk: &Disk, path: &str) -> (r: Result<Metadata, MetadataError>)
    requires
        disk.wf(),
    ensures
        r is Ok <==> spec_metadata(disk@, encode_utf8(path@)) is Ok,
        r is Ok ==> {
            &&& r->Ok_0.inode_addr() == spec_metadata(disk@, encode_utf8(path@))->Ok_0
            &&& r->Ok_0.inode()@ == spec_inode_at(disk@, r->Ok_0.inode_addr() as int)
        },
        r is Err ==> spec_metadata(disk@, encode_utf8(path@)) == Err::<u32, MetadataError>(
            r->Err_0,
        ),
{
    let inode_addr = match path_to_inode(disk, path) {
        Ok(i) => i,
        Err(e) => {
            return Err(
                match e {
                    FsError::InvalidPath => MetadataError::InvalidPath,
                    FsError::Corrupted => MetadataError::DiskErr(DiskError::InvalidAddr),
                    _ => MetadataError::NotFound,
                },
            );
        },
    };
    let inode = match load_inode(disk, inode_addr) {
        Ok(i) => i,
        Err(_) => {
            return Err(MetadataError::NotFound);
        },
    };
    Ok(Metadata::new(inode_addr, inode))
}

/// Whether the permissions `have` grant every permission that `want`
/// asks for: read, write and execute, in this order.
pub open spec fn spec_grants(have: Rwx, want: (bool, bool, bool)) -> bool {
    &&& want.0 ==> have.read
    &&& want.1 ==> have.write
    &&& want.2 ==> have.execute
}

/// Whether `uid` has the permissions `permission`, read, write and
/// execute, on the inode of `meta`: the owner by the owner's bits, anyone
/// else by the others'.
pub fn check_permission(uid: u8, meta: &Metadata, permission: (bool, bool, bool)) -> (ok: bool)
    ensures
        ok == spec_grants(
            if uid == meta.inode().uid {
                spec_permission(meta.inode().mode).0
            } else {
                spec_permission(meta.inode().mode).1
            },
            permission,
        ),
{
    let (r, w, x) = permission;
    let rwx = if uid == meta.owner() {
        meta.permission().0
    } else {
        meta.permission().1
    };
    (!r || rwx.read) && (!w || rwx.write) && (!x || rwx.execute)
}

} // verus!
