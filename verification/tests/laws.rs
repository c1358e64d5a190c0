use simdisk::fs::data::alloc_blocks;
use simdisk::fs::dir::{dir_add_entry, read_dir, DdError};
use simdisk::fs::disk::{read_blocks, Disk};
use simdisk::fs::file::{read_file, read_raw, write_file, FdError};
use simdisk::fs::format::create_disk;
use simdisk::fs::inode::{get_blocks, load_inode, save_inode, Inode};
use simdisk::fs::metadata::{check_permission, metadata, Metadata, MetadataError};
use simdisk::fs::node::{create_dir, create_file, open_dir, open_file, remove_file};
use simdisk::fs::path::{path_to_inode, FsError};
use simdisk::fs::superblock::{superblock, SuperblockError};
use simdisk::fs::table::FdTable;

fn chain(disk: &Disk, inode: u32) -> Vec<u32> {
    get_blocks(disk, &load_inode(disk, inode).unwrap()).unwrap()
}

fn bit_is_set(disk: &Disk, block: u32) -> bool {
    let p = (block - 274) as usize;
    let bitmap = read_blocks(disk, &(258..274).collect()).unwrap();
    let word = &bitmap[p / 64 * 8..p / 64 * 8 + 8];
    let byte = word[7 - (p % 64) / 8];
    byte & (1 << (p % 8)) != 0
}

#[test]
fn chains_share_no_block_and_their_bits_are_set() {
    let mut disk = create_disk();
    let mut table = FdTable::new();
    let a = create_file(&mut disk, &mut table, "/a", 1).unwrap().inode_addr();
    let b = create_file(&mut disk, &mut table, "/b", 1).unwrap().inode_addr();
    let mut big = vec![3u8; 20 * 1024];
    write_file(&mut disk, a, &mut big).unwrap();
    let mut other = vec![4u8; 10 * 1024];
    write_file(&mut disk, b, &mut other).unwrap();
    let mut small = vec![5u8; 100];
    write_file(&mut disk, a, &mut small).unwrap();
    let mut again = vec![6u8; 12 * 1024];
    write_file(&mut disk, a, &mut again).unwrap();
    let all: Vec<Vec<u32>> = vec![chain(&disk, 0), chain(&disk, a), chain(&disk, b)];
    let mut seen = std::collections::HashSet::new();
    for c in &all {
        for block in c {
            assert!(seen.insert(*block), "block {} is in two chains", block);
            assert!(bit_is_set(&disk, *block));
        }
    }
    assert_eq!(read_file(&disk, b).unwrap(), vec![4u8; 10 * 1024]);
    assert_eq!(read_file(&disk, a).unwrap(), vec![6u8; 12 * 1024]);
    // what a file gave back is free again
    let freed = chain(&disk, b);
    table.try_drop(b);
    remove_file(&mut disk, &table, "/b").unwrap();
    for block in freed {
        assert!(!bit_is_set(&disk, block));
    }
}

#[test]
fn directory_ends_with_one_record_of_zeros() {
    let mut disk = create_disk();
    let mut table = FdTable::new();
    create_dir(&mut disk, &mut table, "/d", 1).unwrap();
    create_file(&mut disk, &mut table, "/x", 1).unwrap();
    let raw = read_raw(&disk, 0).unwrap();
    let entries = read_dir(&disk, 0).unwrap();
    assert_eq!(entries.len(), 3);
    for i in 0..3 {
        assert!(raw[i * 64..(i + 1) * 64].iter().any(|b| *b != 0));
    }
    assert!(raw[3 * 64..4 * 64].iter().all(|b| *b == 0));
    // the end marker of the file follows the terminator
    assert_eq!(raw[4 * 64], 0);
}

#[test]
fn a_directory_fills_more_than_one_block() {
    let mut disk = create_disk();
    for i in 0..40u32 {
        dir_add_entry(&mut disk, 0, 100 + i, &format!("entry-number-{i}")).unwrap();
    }
    let entries = read_dir(&disk, 0).unwrap();
    assert_eq!(entries.len(), 41);
    assert_eq!(entries[40].name, "entry-number-39");
    assert_eq!(entries[40].inode, 139);
    assert_eq!(chain(&disk, 0).len(), 3);
    assert_eq!(path_to_inode(&disk, "/entry-number-7"), Ok(107));
    let long = "n".repeat(61);
    assert_eq!(dir_add_entry(&mut disk, 0, 1, &long), Err(DdError::InvalidPath));
    assert_eq!(dir_add_entry(&mut disk, 0, 1, &"n".repeat(60)), Ok(()));
    assert_eq!(dir_add_entry(&mut disk, 4096, 1, "x"), Err(DdError::NotFound));
}

#[test]
fn the_size_ceiling_holds() {
    let mut disk = Disk::new();
    let node = Inode::with_timestamp(0, false, 0);
    save_inode(&mut disk, 1, &node).unwrap();
    let mut too_big = vec![1u8; 1024 * (8 + 256 + 65536)];
    assert_eq!(write_file(&mut disk, 1, &mut too_big), Err(FdError::NoEnoughSpace));
    assert_eq!(read_file(&disk, 1).unwrap().len(), 0);
}

#[test]
fn no_space_is_left() {
    let mut disk = create_disk();
    let mut table = FdTable::new();
    let f = create_file(&mut disk, &mut table, "/f", 1).unwrap().inode_addr();
    // the root and the file hold one block each
    alloc_blocks(&mut disk, 130798 - 2).unwrap();
    let mut buf = vec![1u8; 2000];
    assert_eq!(write_file(&mut disk, f, &mut buf), Err(FdError::NoEnoughSpace));
    assert_eq!(
        create_file(&mut disk, &mut table, "/g", 1).err(),
        Some(FdError::NoEnoughSpace)
    );
    assert_eq!(
        create_dir(&mut disk, &mut table, "/h", 1).err(),
        Some(DdError::NoEnoughSpace)
    );
    // nothing was written: the name is free still
    assert_eq!(path_to_inode(&disk, "/g"), Err(FsError::NotFound));
    let mut buf = vec![2u8; 500];
    assert_eq!(write_file(&mut disk, f, &mut buf), Ok(()));
    assert_eq!(read_file(&disk, f).unwrap(), vec![2u8; 500]);
}

#[test]
fn what_breaks_the_layout_is_reported() {
    let mut disk = Disk::new();
    assert_eq!(superblock(&disk), Err(SuperblockError::NotInitialized));
    let mut disk2 = create_disk();
    let mut table = FdTable::new();
    create_dir(&mut disk2, &mut table, "/d", 1).unwrap();
    // the directory's chain leads out of the image
    let mut node = load_inode(&disk2, 1).unwrap();
    node.blocks[0] = 500000;
    save_inode(&mut disk2, 1, &node).unwrap();
    assert_eq!(read_dir(&disk2, 1).err(), Some(DdError::DirIncorrupted));
    assert_eq!(path_to_inode(&disk2, "/d/x"), Err(FsError::Corrupted));
    assert!(matches!(
        metadata(&disk2, "/d/x"),
        Err(MetadataError::DiskErr(simdisk::fs::DiskError::InvalidAddr))
    ));
    assert!(matches!(metadata(&disk2, "d"), Err(MetadataError::InvalidPath)));
    assert!(matches!(metadata(&disk2, "/q"), Err(MetadataError::NotFound)));
    assert_eq!(
        create_file(&mut disk2, &mut table, "/d/x", 1).err(),
        Some(FdError::FileIncorrupted)
    );
    assert_eq!(open_file(&disk2, &mut table, "/d").err(), Some(FdError::NotFile));
    assert_eq!(open_dir(&disk2, &mut table, "/d/x").err(), Some(DdError::DirIncorrupted));
    // a name that is not UTF-8
    let mut raw = vec![0u8; 128];
    raw[3] = 9;
    raw[4] = 0xff;
    simdisk::fs::disk::write_blocks(&mut disk, &vec![(300, raw)]).unwrap();
    let mut dir = Inode::with_timestamp(0, true, 0);
    dir.blocks[0] = 300;
    save_inode(&mut disk, 2, &dir).unwrap();
    assert_eq!(read_dir(&disk, 2).err(), Some(DdError::DirIncorrupted));
    let file = Inode::with_timestamp(0, false, 0);
    save_inode(&mut disk, 3, &file).unwrap();
    assert_eq!(read_dir(&disk, 3).err(), Some(DdError::NotDir));
}

#[test]
fn permissions_are_granted_by_the_mode() {
    let mut node = Inode::with_timestamp(5, false, 0);
    node.mode = 0b010_0001;
    let m = Metadata::new(1, node);
    assert!(check_permission(5, &m, (false, false, false)));
    assert!(check_permission(5, &m, (true, false, false)));
    assert!(!check_permission(5, &m, (true, true, false)));
    assert!(!check_permission(5, &m, (false, false, true)));
    assert!(check_permission(6, &m, (false, false, true)));
    assert!(!check_permission(6, &m, (true, false, false)));
}

#[test]
fn only_a_record_of_zeros_ends_a_directory() {
    let mut disk = create_disk();
    let mut table = FdTable::new();
    let d = create_dir(&mut disk, &mut table, "/d", 1).unwrap().inode_addr();
    let mut raw = vec![0u8; 4 * 64];
    raw[3] = 5;
    raw[4] = b'a';
    // a record with an inode and no name is an entry
    raw[64 + 3] = 7;
    raw[128 + 3] = 9;
    raw[128 + 4] = b'b';
    write_file(&mut disk, d, &mut raw).unwrap();
    let entries: Vec<(u32, String)> =
        read_dir(&disk, d).unwrap().into_iter().map(|e| (e.inode, e.name)).collect();
    assert_eq!(
        entries,
        vec![(5, "a".to_string()), (7, String::new()), (9, "b".to_string())]
    );
    // a record with a name and the inode 0 is one too
    let mut raw = vec![0u8; 3 * 64];
    raw[4] = b'r';
    raw[128 + 4] = b'x';
    write_file(&mut disk, d, &mut raw).unwrap();
    let entries: Vec<(u32, String)> =
        read_dir(&disk, d).unwrap().into_iter().map(|e| (e.inode, e.name)).collect();
    assert_eq!(entries, vec![(0, "r".to_string())]);
}
