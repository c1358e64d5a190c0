use simdisk::fs::dir::{dir_add_entry, dir_remove_entry, read_dir};
use simdisk::fs::file::{read_file, write_file};
use simdisk::fs::format::{create_disk, init_disk};
use simdisk::fs::metadata::metadata;
use simdisk::fs::node::{create_dir, create_file, open_file, remove_dir, remove_file};
use simdisk::fs::path::{path_to_inode, FsError};
use simdisk::fs::superblock::superblock;
use simdisk::fs::table::FdTable;
use simdisk::services::{convert_path_to_abs, split_path};
use simdisk::fs::{DdError, FdError};

fn names(disk: &simdisk::fs::Disk, dir: u32) -> Vec<(u32, String)> {
    read_dir(disk, dir).unwrap().into_iter().map(|e| (e.inode, e.name)).collect()
}

#[test]
fn fresh_image_has_root() {
    let disk = create_disk();
    let sb = superblock(&disk).unwrap();
    assert_eq!(sb.inode_count, 4096);
    assert_eq!(sb.data_offset, 274);
    assert_eq!(sb.max_file_size, 1024 * (8 + 256 + 65536));
    assert_eq!(sb.magic, 172);
    assert_eq!(path_to_inode(&disk, "/"), Ok(0));
    assert_eq!(path_to_inode(&disk, "/.."), Ok(0));
    assert_eq!(names(&disk, 0), vec![(0, ".".to_string())]);
    let m = metadata(&disk, "/").unwrap();
    assert!(m.is_dir());
    assert_eq!(m.owner(), 0);
}

#[test]
fn create_dir_then_read_it() {
    let mut disk = create_disk();
    let mut table = FdTable::new();
    let dd = create_dir(&mut disk, &mut table, "/a", 7).unwrap();
    let a = dd.inode_addr();
    assert_eq!(a, 1);
    assert_eq!(names(&disk, a), vec![(a, ".".to_string()), (0, "..".to_string())]);
    assert_eq!(path_to_inode(&disk, "/a"), Ok(a));
    assert_eq!(path_to_inode(&disk, "/a/"), Ok(a));
    assert_eq!(path_to_inode(&disk, "/a/.."), Ok(0));
    assert_eq!(path_to_inode(&disk, "/a//"), Err(FsError::InvalidPath));
    assert_eq!(path_to_inode(&disk, "a"), Err(FsError::InvalidPath));
    assert_eq!(path_to_inode(&disk, ""), Err(FsError::InvalidPath));
    assert_eq!(path_to_inode(&disk, "/b"), Err(FsError::NotFound));
}

#[test]
fn create_write_read_remove_file() {
    let mut disk = create_disk();
    let mut table = FdTable::new();
    create_dir(&mut disk, &mut table, "/a", 7).unwrap();
    let fd = create_file(&mut disk, &mut table, "/a/f", 7).unwrap();
    let f = fd.inode_addr();
    assert_eq!(read_file(&disk, f).unwrap(), Vec::<u8>::new());
    let mut buf = b"hello".to_vec();
    write_file(&mut disk, f, &mut buf).unwrap();
    assert_eq!(read_file(&disk, f).unwrap(), b"hello".to_vec());
    table.try_drop(f);
    // open twice, then removal is refused until both are dropped
    let _one = open_file(&disk, &mut table, "/a/f").unwrap();
    let _two = open_file(&disk, &mut table, "/a/f").unwrap();
    assert_eq!(remove_file(&mut disk, &table, "/a/f"), Err(FdError::FileOccupied));
    table.try_drop(f);
    assert_eq!(remove_file(&mut disk, &table, "/a/f"), Err(FdError::FileOccupied));
    table.try_drop(f);
    assert_eq!(remove_file(&mut disk, &table, "/a/f"), Ok(()));
    assert_eq!(path_to_inode(&disk, "/a/f"), Err(FsError::NotFound));
    assert_eq!(create_file(&mut disk, &mut table, "/a/f", 7).unwrap().inode_addr(), f);
}

#[test]
fn create_errors() {
    let mut disk = create_disk();
    let mut table = FdTable::new();
    create_file(&mut disk, &mut table, "/f", 1).unwrap();
    assert_eq!(create_file(&mut disk, &mut table, "/f", 1).err(), Some(FdError::FileExists));
    assert_eq!(create_file(&mut disk, &mut table, "/x/y", 1).err(), Some(FdError::ParentNotFound));
    assert_eq!(create_file(&mut disk, &mut table, "/f/y", 1).err(), Some(FdError::ParentNotDir));
    assert_eq!(create_file(&mut disk, &mut table, "rel", 1).err(), Some(FdError::InvalidPath));
    // a path that leads somewhere exists, however it is written
    assert_eq!(create_file(&mut disk, &mut table, "/", 1).err(), Some(FdError::FileExists));
    assert_eq!(create_dir(&mut disk, &mut table, "/", 1).err(), Some(DdError::DirExists));
    assert_eq!(create_file(&mut disk, &mut table, "/f/", 1).err(), Some(FdError::FileExists));
    assert_eq!(create_dir(&mut disk, &mut table, "/f/", 1).err(), Some(DdError::DirExists));
    assert_eq!(create_dir(&mut disk, &mut table, "/d/", 1).err(), Some(DdError::InvalidPath));
    assert_eq!(create_dir(&mut disk, &mut table, "//d", 1).err(), Some(DdError::InvalidPath));
    assert_eq!(create_dir(&mut disk, &mut table, "/..", 1).err(), Some(DdError::DirExists));
    assert_eq!(create_dir(&mut disk, &mut table, "/.", 1).err(), Some(DdError::DirExists));
    assert_eq!(remove_dir(&mut disk, &table, "/.."), Err(DdError::DirOccupied));
    assert_eq!(remove_dir(&mut disk, &table, "/f"), Err(DdError::NotDir));
    assert_eq!(remove_dir(&mut disk, &table, "/"), Err(DdError::DirOccupied));
    assert_eq!(remove_file(&mut disk, &table, "/nope"), Err(FdError::NotFound));
}

#[test]
fn remove_dir_does_not_recurse() {
    let mut disk = create_disk();
    let mut table = FdTable::new();
    let a = create_dir(&mut disk, &mut table, "/a", 7).unwrap().inode_addr();
    let f = create_file(&mut disk, &mut table, "/a/f", 7).unwrap().inode_addr();
    table.try_drop(a);
    table.try_drop(f);
    assert_eq!(remove_dir(&mut disk, &table, "/a"), Ok(()));
    assert_eq!(path_to_inode(&disk, "/a"), Err(FsError::NotFound));
    assert_eq!(names(&disk, 0), vec![(0, ".".to_string())]);
}

#[test]
fn add_and_remove_entries() {
    let mut disk = create_disk();
    dir_add_entry(&mut disk, 0, 5, "five").unwrap();
    dir_add_entry(&mut disk, 0, 6, "six").unwrap();
    assert_eq!(dir_add_entry(&mut disk, 0, 6, "six"), Err(DdError::EntryExists));
    assert_eq!(dir_add_entry(&mut disk, 0, 6, ""), Err(DdError::InvalidPath));
    assert_eq!(
        names(&disk, 0),
        vec![(0, ".".to_string()), (5, "five".to_string()), (6, "six".to_string())]
    );
    dir_remove_entry(&mut disk, 0, 5).unwrap();
    assert_eq!(names(&disk, 0), vec![(0, ".".to_string()), (6, "six".to_string())]);
    assert_eq!(dir_remove_entry(&mut disk, 0, 5), Err(DdError::NotFound));
}

#[test]
fn init_keeps_an_initialised_image() {
    let mut disk = create_disk();
    let mut table = FdTable::new();
    create_dir(&mut disk, &mut table, "/keep", 3).unwrap();
    let bytes = disk.into_bytes();
    let again = init_disk(bytes);
    assert_eq!(path_to_inode(&again, "/keep"), Ok(1));
    let blank = init_disk(vec![0u8; 10]);
    assert_eq!(path_to_inode(&blank, "/keep"), Err(FsError::NotFound));
    assert_eq!(path_to_inode(&blank, "/"), Ok(0));
}

fn abs(wd: &str, path: &str) -> Option<String> {
    convert_path_to_abs(wd.as_bytes(), path.as_bytes())
        .ok()
        .map(|b| String::from_utf8(b).unwrap())
}

#[test]
fn a_path_is_seen_from_the_working_directory() {
    assert_eq!(abs("/a", "/abs").as_deref(), Some("/abs"));
    assert_eq!(abs("/", "a").as_deref(), Some("/a"));
    assert_eq!(abs("/a/b", "c/d").as_deref(), Some("/a/b/c/d"));
    assert_eq!(abs("/a/b/", "./x").as_deref(), Some("/a/b/x"));
    assert_eq!(abs("/a/b", "../c").as_deref(), Some("/a/c"));
    assert_eq!(abs("/a/b", "./.././../c").as_deref(), Some("/c"));
    assert_eq!(abs("/a", "..").as_deref(), Some("/"));
    assert_eq!(abs("/a", "").as_deref(), Some("/a"));
    assert_eq!(abs("/a", ".").as_deref(), Some("/a"));
    assert_eq!(abs("/a", "../").as_deref(), Some("/"));
    // only what stands at the front is followed
    assert_eq!(abs("/a", "x/../y").as_deref(), Some("/a/x/../y"));
    assert_eq!(abs("/a", "..x").as_deref(), Some("/a/..x"));
    // an empty segment of the working directory counts as one
    assert_eq!(abs("/a//b", "../x").as_deref(), Some("/a/x"));
    assert_eq!(abs("/a//b", "..").as_deref(), Some("/a/"));
    // nothing is above the root
    assert_eq!(abs("/", ".."), None);
    assert_eq!(abs("/a", "../.."), None);
    assert_eq!(
        convert_path_to_abs(b"/a", b"../../x"),
        Err(FsError::InvalidPath)
    );
}

#[test]
fn a_path_is_cut_at_its_last_slash() {
    assert_eq!(split_path(b"/a/b"), (b"/a".to_vec(), b"b".to_vec()));
    assert_eq!(split_path(b"/a"), (b"/".to_vec(), b"a".to_vec()));
    assert_eq!(split_path(b"/a/"), (b"/a".to_vec(), b"".to_vec()));
    assert_eq!(split_path(b"/"), (b"/".to_vec(), b"".to_vec()));
    assert_eq!(split_path(b"name"), (b"./".to_vec(), b"name".to_vec()));
}
