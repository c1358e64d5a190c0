use simdisk::fs::api::{
    close, create_dir, create_file, metadata, open_dir, open_file, remove_dir, remove_file,
    set_permission, superblock, update_timestamp,
};
use simdisk::fs::metadata::{Metadata, Rwx};
use simdisk::fs::format::is_laid_out;
use simdisk::fs::path::FsError;
use simdisk::fs::serve::{Fs, FsReq, FsRes};
use simdisk::fs::table::FdTable;
use simdisk::fs::inode::Inode;

fn names(fs: &mut Fs, dir: u32) -> Vec<(String, u32)> {
    match fs.handle(FsReq::ReadDir(dir)).unwrap() {
        FsRes::Entries(v) => v.into_iter().map(|e| (e.name, e.inode)).collect(),
        _ => panic!("no entries"),
    }
}

#[test]
fn scenario_create_dir_and_read_it() {
    let mut fs = Fs::start(Vec::new());
    let dd = create_dir(&mut fs, "/a", 7).unwrap();
    let a = dd.inode_addr();
    assert_eq!(dd.read(&mut fs).unwrap().len(), 2);
    assert_eq!(names(&mut fs, a), vec![(".".to_string(), a), ("..".to_string(), 0)]);
}

#[test]
fn scenario_hello() {
    let mut fs = Fs::start(Vec::new());
    create_dir(&mut fs, "/a", 7).unwrap();
    let fd = create_file(&mut fs, "/a/f", 7).unwrap();
    fd.write(&mut fs, &b"hello".to_vec()).unwrap();
    assert_eq!(fd.read(&mut fs).unwrap(), b"hello".to_vec());
    let again = open_file(&mut fs, "/a/f").unwrap();
    assert_eq!(again.inode_addr(), fd.inode_addr());
    assert_eq!(again.read(&mut fs).unwrap(), b"hello".to_vec());
}

#[test]
fn scenario_open_file_blocks_removal() {
    let mut fs = Fs::start(Vec::new());
    create_dir(&mut fs, "/a", 7).unwrap();
    let fd = create_file(&mut fs, "/a/f", 7).unwrap();
    close(&mut fs, fd.inode_addr());
    let one = open_file(&mut fs, "/a/f").unwrap();
    let two = open_file(&mut fs, "/a/f").unwrap();
    assert_eq!(fs.table().entry(one.inode_addr()).unwrap().count, 2);
    assert_eq!(remove_file(&mut fs, "/a/f"), Err(FsError::Occupied));
    close(&mut fs, one.inode_addr());
    assert_eq!(remove_file(&mut fs, "/a/f"), Err(FsError::Occupied));
    close(&mut fs, two.inode_addr());
    assert!(fs.table().entry(two.inode_addr()).is_none());
    assert_eq!(remove_file(&mut fs, "/a/f"), Ok(()));
    assert!(matches!(open_file(&mut fs, "/a/f"), Err(FsError::NotFound)));
}

#[test]
fn scenario_any_uid_may_create() {
    let mut fs = Fs::start(Vec::new());
    let mut root = metadata(&mut fs, "/").unwrap();
    let none = Rwx { read: true, write: false, execute: true };
    set_permission(&mut fs, &mut root, (none, none)).unwrap();
    let dd = create_dir(&mut fs, "/b", 1).unwrap();
    let mut dd = dd;
    assert_eq!(dd.metadata().owner(), 1);
    assert!(dd.metadata().is_dir());
}

#[test]
fn scenario_nine_thousand_bytes() {
    let mut fs = Fs::start(Vec::new());
    let fd = create_file(&mut fs, "/big", 2).unwrap();
    let data: Vec<u8> = (0..9000u32).map(|i| (i % 255 + 1) as u8).collect();
    fd.write(&mut fs, &data).unwrap();
    let node = simdisk::fs::inode::load_inode(fs.disk(), fd.inode_addr()).unwrap();
    assert_eq!(simdisk::fs::inode::get_blocks(fs.disk(), &node).unwrap().len(), 9);
    assert_eq!(fd.read(&mut fs).unwrap(), data);
}

#[test]
fn scenario_remove_dir_with_child() {
    let mut fs = Fs::start(Vec::new());
    let a = create_dir(&mut fs, "/a", 7).unwrap();
    let f = create_file(&mut fs, "/a/f", 7).unwrap();
    assert_eq!(remove_dir(&mut fs, "/a"), Err(FsError::Occupied));
    close(&mut fs, a.inode_addr());
    close(&mut fs, f.inode_addr());
    assert_eq!(remove_dir(&mut fs, "/a"), Ok(()));
    assert!(matches!(open_dir(&mut fs, "/a"), Err(FsError::NotFound)));
}

#[test]
fn requests_and_their_errors() {
    let mut fs = Fs::start(Vec::new());
    let sb = superblock(&mut fs).unwrap();
    assert_eq!(sb.block_size, 1024);
    assert!(matches!(fs.handle(FsReq::Superblock), Ok(FsRes::Superblock(_))));
    assert!(matches!(metadata(&mut fs, "x"), Err(FsError::InvalidPath)));
    assert!(matches!(metadata(&mut fs, "/x"), Err(FsError::NotFound)));
    assert!(matches!(open_file(&mut fs, "/"), Err(FsError::NotFileButDir)));
    create_file(&mut fs, "/f", 1).unwrap();
    assert!(matches!(open_dir(&mut fs, "/f"), Err(FsError::NotDirButFile)));
    assert!(matches!(create_file(&mut fs, "/f", 1), Err(FsError::Exists)));
    assert!(matches!(create_dir(&mut fs, "/f", 1), Err(FsError::Exists)));
    assert!(matches!(create_file(&mut fs, "/f/g", 1), Err(FsError::NotDirButFile)));
    assert!(matches!(create_file(&mut fs, "/q/g", 1), Err(FsError::NotFound)));
    assert!(matches!(remove_dir(&mut fs, "/f"), Err(FsError::NotDirButFile)));
    assert!(matches!(fs.handle(FsReq::ReadFile(5000)), Err(FsError::NotFound)));
    assert!(matches!(fs.handle(FsReq::ReadDir(1)), Err(FsError::NotDirButFile)));
    assert!(matches!(
        fs.handle(FsReq::WriteFile(5000, vec![1])),
        Err(FsError::NotFound)
    ));
    assert!(matches!(
        fs.handle(FsReq::UpdateInode(5000, Inode::with_timestamp(0, false, 0))),
        Err(FsError::NotFound)
    ));
    assert!(matches!(
        fs.handle(FsReq::DirAddEntry(0, 1, "f".to_string())),
        Err(FsError::Exists)
    ));
    assert!(matches!(
        fs.handle(FsReq::DirAddEntry(0, 1, "g".to_string())),
        Ok(FsRes::Done)
    ));
    assert!(matches!(fs.handle(FsReq::DirRemoveEntry(0, 1)), Ok(FsRes::Done)));
    assert!(matches!(fs.handle(FsReq::DirRemoveEntry(0, 77)), Err(FsError::NotFound)));
    assert_eq!(
        names(&mut fs, 0),
        vec![(".".to_string(), 0), ("g".to_string(), 1)]
    );
    // a block of the chain that is no block of the image
    let mut node = Inode::with_timestamp(0, false, 0);
    node.blocks[0] = 200000;
    fs.handle(FsReq::UpdateInode(9, node)).unwrap();
    assert!(matches!(fs.handle(FsReq::ReadFile(9)), Err(FsError::Corrupted)));
}

#[test]
fn permissions_and_time() {
    let mut fs = Fs::start(Vec::new());
    let fd = create_file(&mut fs, "/f", 4).unwrap();
    let mut meta = metadata(&mut fs, "/f").unwrap();
    assert_eq!(meta.owner(), 4);
    assert_eq!(meta.size(), 0);
    assert!(!meta.is_dir());
    let (owner, other) = meta.permission();
    assert_eq!(owner, Rwx { read: true, write: true, execute: false });
    assert_eq!(other, Rwx { read: true, write: false, execute: false });
    let all = Rwx { read: true, write: true, execute: true };
    let none = Rwx { read: false, write: false, execute: false };
    set_permission(&mut fs, &mut meta, (none, all)).unwrap();
    assert_eq!(meta.permission(), (none, all));
    let stored = metadata(&mut fs, "/f").unwrap();
    assert_eq!(stored.permission(), (none, all));
    assert_eq!(stored.snapshot().mode, 0b000_0111);
    assert_eq!(fd.inode_addr(), stored.addr());
    update_timestamp(&mut fs, &mut meta).unwrap();
    assert!(metadata(&mut fs, "/f").unwrap().snapshot().timestamp > 1_600_000_000);
    // 2015-05-15 00:00:00 UTC and 2001-09-09 01:46:40 UTC
    let m = Metadata::new(1, Inode::with_timestamp(0, false, 1431648000));
    assert_eq!(m.timestamp(), (4, 15, 0, 0));
    let m = Metadata::new(1, Inode::with_timestamp(0, false, 1000000000));
    assert_eq!(m.timestamp(), (8, 9, 1, 46));
    let m = Metadata::new(1, Inode::with_timestamp(0, true, 0));
    assert_eq!(m.timestamp(), (0, 1, 0, 0));
    assert!(m.is_dir());
    let mut gone = Metadata::new(4096, Inode::with_timestamp(0, false, 0));
    assert_eq!(set_permission(&mut fs, &mut gone, (all, all)), Err(FsError::NotFound));
}

#[test]
fn table_counts_descriptors() {
    let mut t = FdTable::new();
    assert_eq!(t.check(3), None);
    t.add_file(3);
    assert_eq!(t.check(3), Some(()));
    assert!(t.open(3, false));
    assert!(!t.open(3, true));
    assert_eq!(t.entry(3).unwrap().count, 2);
    t.try_drop(3);
    assert_eq!(t.entry(3).unwrap().count, 1);
    t.try_drop(3);
    assert_eq!(t.check(3), None);
    t.try_drop(3);
    assert_eq!(t.check(3), None);
    t.add_dir(8);
    assert!(t.entry(8).unwrap().is_dir);
}

#[test]
fn create_then_remove_leaves_the_bitmaps() {
    let mut fs = Fs::start(Vec::new());
    let before_inodes = fs.disk().read_block(1).unwrap();
    let before_data = simdisk::fs::disk::read_blocks(fs.disk(), &(258..274).collect()).unwrap();
    let before_names = names(&mut fs, 0);
    let fd = create_file(&mut fs, "/f", 1).unwrap();
    assert_ne!(fs.disk().read_block(1).unwrap(), before_inodes);
    close(&mut fs, fd.inode_addr());
    remove_file(&mut fs, "/f").unwrap();
    assert_eq!(fs.disk().read_block(1).unwrap(), before_inodes);
    assert_eq!(
        simdisk::fs::disk::read_blocks(fs.disk(), &(258..274).collect()).unwrap(),
        before_data
    );
    assert_eq!(names(&mut fs, 0), before_names);
}

#[test]
fn a_snapshot_is_what_the_file_system_was() {
    let mut fs = Fs::start(Vec::new());
    create_dir(&mut fs, "/a", 7).unwrap();
    let before = fs.snapshot();
    let req = FsReq::CreateFile("/a/f".to_string(), 1);
    assert!(req.changes_image());
    let made = match fs.handle(req).unwrap() {
        FsRes::File(fd) => fd.inode_addr(),
        _ => panic!("no descriptor"),
    };
    assert!(fs.disk().as_bytes() != before.disk().as_bytes());
    assert!(fs.table().check(made).is_some());
    assert!(before.table().check(made).is_none());
    assert!(before.table().check(1).is_some());
    // going back to the snapshot undoes the request
    let mut fs = before;
    assert_eq!(metadata(&mut fs, "/a/f").err(), Some(FsError::NotFound));
    assert!(metadata(&mut fs, "/a").is_ok());
}

#[test]
fn requests_that_can_change_the_image() {
    let node = Inode::with_timestamp(0, false, 0);
    for req in [
        FsReq::CreateFile("/f".to_string(), 1),
        FsReq::RemoveFile("/f".to_string()),
        FsReq::CreateDir("/d".to_string(), 1),
        FsReq::RemoveDir("/d".to_string()),
        FsReq::UpdateInode(1, node),
        FsReq::WriteFile(1, vec![1]),
        FsReq::DirAddEntry(0, 1, "x".to_string()),
        FsReq::DirRemoveEntry(0, 1),
    ] {
        assert!(req.changes_image());
    }
    for req in [
        FsReq::Superblock,
        FsReq::Metadata("/".to_string()),
        FsReq::OpenFile("/f".to_string()),
        FsReq::OpenDir("/".to_string()),
        FsReq::ReadFile(1),
        FsReq::ReadDir(0),
        FsReq::Close(0),
    ] {
        assert!(!req.changes_image());
        let mut fs = Fs::start(Vec::new());
        let image = fs.disk().as_bytes().to_vec();
        let _ = fs.handle(req);
        assert!(fs.disk().as_bytes() == &image[..]);
    }
}

#[test]
fn an_image_is_taken_over_or_laid_out() {
    assert!(!is_laid_out(&[]));
    assert!(!is_laid_out(&[0xE3; 1024]));
    let fs = Fs::start(Vec::new());
    assert!(is_laid_out(fs.disk().as_bytes()));
    let mut image = fs.disk().as_bytes().to_vec();
    image[0] = 0;
    assert!(!is_laid_out(&image));
    // an image that was laid out is taken over as it is
    let mut image = fs.disk().as_bytes().to_vec();
    image[274 * 1024 + 500] = 77;
    let taken = Fs::start(image.clone());
    assert!(taken.disk().as_bytes() == &image[..]);
}
