use simdisk::fs::create_disk;
use simdisk::fs::data::{alloc_blocks, free_blocks, get_bitmap, DataError};
use simdisk::fs::disk::{read_blocks, write_blocks, Disk, DiskError};
use simdisk::fs::file::{read_file, write_file, FdError};
use simdisk::fs::inode::{
    alloc_inode, free_inode, get_blocks, load_inode, save_inode, update_blocks, Inode, InodeError,
};

#[test]
fn blocks_are_read_and_written() {
    let mut disk = Disk::new();
    write_blocks(&mut disk, &vec![(300, vec![1, 2, 3]), (301, vec![9u8; 2000])]).unwrap();
    let r = read_blocks(&disk, &vec![301, 300]).unwrap();
    assert_eq!(r.len(), 2048);
    assert!(r[..1024].iter().all(|b| *b == 9));
    assert_eq!(&r[1024..1028], &[1, 2, 3, 0]);
    // a short write leaves the rest of the block as it was
    write_blocks(&mut disk, &vec![(301, vec![7])]).unwrap();
    let r = disk.read_block(301).unwrap();
    assert_eq!(&r[..3], &[7, 0, 9]);
    assert_eq!(read_blocks(&disk, &vec![131072]), Err(DiskError::InvalidAddr));
    assert_eq!(
        write_blocks(&mut disk, &vec![(5, vec![1]), (131072, vec![1])]),
        Err(DiskError::InvalidAddr)
    );
    assert_eq!(disk.read_block(5).unwrap(), vec![0u8; 1024]);
    assert_eq!(disk.write_block(200000, &vec![1]), Err(DiskError::InvalidAddr));
    assert!(Disk::from_bytes(vec![0u8; 100]).is_none());
}

#[test]
fn data_blocks_are_allocated_lowest_first() {
    let mut disk = Disk::new();
    assert_eq!(alloc_blocks(&mut disk, 3), Ok(vec![274, 275, 276]));
    assert_eq!(free_blocks(&mut disk, &vec![275]), Ok(()));
    assert_eq!(alloc_blocks(&mut disk, 2), Ok(vec![275, 277]));
    assert_eq!(alloc_blocks(&mut disk, 0), Ok(vec![]));
    assert_eq!(free_blocks(&mut disk, &vec![273]), Err(DataError::InvalidAddr));
    assert_eq!(free_blocks(&mut disk, &vec![274, 131072]), Err(DataError::InvalidAddr));
    assert_eq!(alloc_blocks(&mut disk, 1), Ok(vec![278]));
    assert_eq!(
        alloc_blocks(&mut disk, 131072),
        Err(DataError::InsufficientUsableBlocks)
    );
    assert_eq!(
        alloc_blocks(&mut disk, 130798 - 4),
        Err(DataError::InsufficientUsableBlocks)
    );
}

#[test]
fn inodes_are_allocated_and_freed() {
    let mut disk = Disk::new();
    let (a, _) = alloc_inode(&mut disk, 1, true).unwrap();
    let (b, inode) = alloc_inode(&mut disk, 2, false).unwrap();
    assert_eq!((a, b), (0, 1));
    assert_eq!(load_inode(&disk, 1).unwrap().uid, 2);
    assert_eq!(load_inode(&disk, 1).unwrap().timestamp, inode.timestamp);
    assert_eq!(free_inode(&mut disk, 1), Ok(()));
    assert_eq!(alloc_inode(&mut disk, 3, false).unwrap().0, 1);
    assert_eq!(free_inode(&mut disk, 0), Err(InodeError::InvalidAddr));
    assert_eq!(free_inode(&mut disk, 4096), Err(InodeError::InvalidAddr));
    assert!(matches!(load_inode(&disk, 4096), Err(InodeError::InvalidAddr)));
    let node = Inode::with_timestamp(9, false, 5);
    assert_eq!(save_inode(&mut disk, 4096, &node), Err(InodeError::InvalidAddr));
    assert_eq!(save_inode(&mut disk, 17, &node), Ok(()));
    assert_eq!(load_inode(&disk, 17).unwrap().uid, 9);
    assert_eq!(load_inode(&disk, 16).unwrap().uid, 0);
    assert_eq!(load_inode(&disk, 1).unwrap().uid, 3);
}

#[test]
fn no_inode_is_left() {
    let mut disk = Disk::new();
    for i in 0..4096u32 {
        assert_eq!(alloc_inode(&mut disk, 0, false).unwrap().0, i);
    }
    assert!(matches!(
        alloc_inode(&mut disk, 0, false),
        Err(InodeError::NoUsableBlock)
    ));
}

#[test]
fn index_blocks_come_when_needed() {
    let mut disk = Disk::new();
    let (addr, _) = alloc_inode(&mut disk, 1, false).unwrap();
    let mut buf = vec![5u8; 8 * 1024 - 1];
    write_file(&mut disk, addr, &mut buf).unwrap();
    let node = load_inode(&disk, addr).unwrap();
    assert_eq!(get_blocks(&disk, &node).unwrap(), (274..282).collect::<Vec<u32>>());
    assert_eq!(node.indirect_block, 0);
    // the ninth block brings the single-indirect block
    let mut buf = vec![5u8; 8 * 1024];
    write_file(&mut disk, addr, &mut buf).unwrap();
    let node = load_inode(&disk, addr).unwrap();
    assert_eq!(node.indirect_block, 283);
    assert_eq!(node.double_block, 0);
    assert_eq!(get_blocks(&disk, &node).unwrap(), (274..283).collect::<Vec<u32>>());
    // the 265th brings the double-indirect block and its first index block
    let mut buf = vec![6u8; 264 * 1024];
    write_file(&mut disk, addr, &mut buf).unwrap();
    let node = load_inode(&disk, addr).unwrap();
    assert_ne!(node.double_block, 0);
    let chain = get_blocks(&disk, &node).unwrap();
    assert_eq!(chain.len(), 265);
    assert_eq!(read_file(&disk, addr).unwrap(), vec![6u8; 264 * 1024]);
    // shrinking keeps the index blocks and frees the data blocks
    let mut buf = b"small".to_vec();
    write_file(&mut disk, addr, &mut buf).unwrap();
    let after = load_inode(&disk, addr).unwrap();
    assert_eq!(after.indirect_block, node.indirect_block);
    assert_eq!(after.double_block, node.double_block);
    assert_eq!(get_blocks(&disk, &after).unwrap(), vec![274]);
    assert_eq!(read_file(&disk, addr).unwrap(), b"small".to_vec());
    // growing again to exactly eight and to exactly 264 blocks ends the chain
    let mut buf = vec![7u8; 8 * 1024 - 1];
    write_file(&mut disk, addr, &mut buf).unwrap();
    assert_eq!(read_file(&disk, addr).unwrap(), vec![7u8; 8 * 1024 - 1]);
    let mut buf = vec![8u8; 264 * 1024 - 1];
    write_file(&mut disk, addr, &mut buf).unwrap();
    assert_eq!(read_file(&disk, addr).unwrap(), vec![8u8; 264 * 1024 - 1]);
}

#[test]
fn update_blocks_takes_any_list_that_fits() {
    let mut disk = Disk::new();
    let mut node = Inode::with_timestamp(1, false, 0);
    let too_many = vec![300u32; 8 + 256 + 65536 + 1];
    assert_eq!(
        update_blocks(&mut disk, &mut node, &too_many),
        Err(InodeError::DataTooBig)
    );
    assert_eq!(node.blocks, [0; 8]);
    // a shorter list replaces a longer one, whatever the bitmap says
    node.blocks[0] = 300;
    node.blocks[1] = 301;
    node.blocks[2] = 302;
    assert_eq!(update_blocks(&mut disk, &mut node, &vec![300]), Ok(()));
    assert_eq!(node.blocks, [300, 0, 0, 0, 0, 0, 0, 0]);
    assert_eq!(node.indirect_block, 0);
    assert_eq!(node.double_block, 0);
    assert_eq!(get_blocks(&disk, &node).unwrap(), vec![300]);
    let v = alloc_blocks(&mut disk, 2).unwrap();
    assert_eq!(update_blocks(&mut disk, &mut node, &v), Ok(()));
    assert_eq!(node.blocks[..3], [274, 275, 0]);
    // a zero ends the list
    assert_eq!(update_blocks(&mut disk, &mut node, &vec![275, 0, 274]), Ok(()));
    assert_eq!(get_blocks(&disk, &node).unwrap(), vec![275]);
}

#[test]
fn update_blocks_allocates_the_index_blocks_it_lacks() {
    let mut disk = create_disk();
    let mut node = Inode::with_timestamp(1, false, 0);
    let list: Vec<u32> = (1000..1000 + 8 + 256 + 3).collect();
    let free = get_bitmap(&disk).rest_usable();
    assert_eq!(update_blocks(&mut disk, &mut node, &list), Ok(()));
    // the root holds block 274: the double-indirect block comes first
    assert_eq!(node.double_block, 275);
    assert_eq!(node.indirect_block, 276);
    assert_eq!(get_bitmap(&disk).rest_usable(), free - 3);
    assert_eq!(get_blocks(&disk, &node).unwrap(), list);
    // the index blocks are used again
    let shorter: Vec<u32> = list[..200].to_vec();
    assert_eq!(update_blocks(&mut disk, &mut node, &shorter), Ok(()));
    assert_eq!((node.indirect_block, node.double_block), (276, 275));
    assert_eq!(get_bitmap(&disk).rest_usable(), free - 3);
    assert_eq!(get_blocks(&disk, &node).unwrap(), shorter);
}

#[test]
fn update_blocks_writes_to_no_index_block_it_cannot_trust() {
    let mut disk = create_disk();
    let mut node = Inode::with_timestamp(1, false, 0);
    // an index block that the bitmap does not mark, and one off the image
    node.indirect_block = 1;
    node.double_block = 200_000;
    let list: Vec<u32> = (1000..1000 + 9).collect();
    let before = disk.read_block(1).unwrap();
    assert_eq!(update_blocks(&mut disk, &mut node, &list), Ok(()));
    assert_eq!(disk.read_block(1).unwrap(), before);
    assert_eq!(node.indirect_block, 275);
    assert_eq!(node.double_block, 0);
    assert_eq!(get_blocks(&disk, &node).unwrap(), list);
}

#[test]
fn update_blocks_fails_without_room_for_an_index_block() {
    let mut disk = create_disk();
    let free = get_bitmap(&disk).rest_usable();
    alloc_blocks(&mut disk, free).unwrap();
    let mut node = Inode::with_timestamp(1, false, 0);
    let image = disk.as_bytes().to_vec();
    let list: Vec<u32> = (1000..1000 + 9).collect();
    assert_eq!(
        update_blocks(&mut disk, &mut node, &list),
        Err(InodeError::NoUsableBlock)
    );
    assert_eq!(node.blocks, [0; 8]);
    assert!(disk.as_bytes() == &image[..]);
    assert_eq!(update_blocks(&mut disk, &mut node, &list[..8].to_vec()), Ok(()));
}

#[test]
fn payload_with_nul() {
    let mut disk = Disk::new();
    let (addr, _) = alloc_inode(&mut disk, 1, false).unwrap();
    let mut buf = b"ab\0cd".to_vec();
    write_file(&mut disk, addr, &mut buf).unwrap();
    assert_eq!(read_file(&disk, addr).unwrap(), b"ab".to_vec());
    // a NUL in a block before the last is kept
    let mut data = vec![1u8; 2000];
    data[10] = 0;
    let mut buf = data.clone();
    write_file(&mut disk, addr, &mut buf).unwrap();
    assert_eq!(read_file(&disk, addr).unwrap(), data);
    let mut empty = Vec::new();
    write_file(&mut disk, addr, &mut empty).unwrap();
    assert_eq!(read_file(&disk, addr).unwrap(), Vec::<u8>::new());
}

#[test]
fn write_errors() {
    let mut disk = Disk::new();
    let mut buf = b"x".to_vec();
    assert_eq!(write_file(&mut disk, 4096, &mut buf), Err(FdError::NotFound));
    assert_eq!(read_file(&disk, 4096), Err(FdError::NotFound));
    let mut node = Inode::with_timestamp(1, false, 0);
    node.blocks[0] = 200000;
    save_inode(&mut disk, 3, &node).unwrap();
    assert_eq!(read_file(&disk, 3), Err(FdError::FileIncorrupted));
    let mut buf = b"x".to_vec();
    assert_eq!(write_file(&mut disk, 3, &mut buf), Err(FdError::FileIncorrupted));
    // a chain through a block that is not marked as taken is refused
    node.blocks[0] = 300;
    save_inode(&mut disk, 3, &node).unwrap();
    let mut buf = b"x".to_vec();
    assert_eq!(write_file(&mut disk, 3, &mut buf), Err(FdError::FileIncorrupted));
    let (addr, _) = alloc_inode(&mut disk, 1, false).unwrap();
    let mut big = vec![1u8; 1024 * (8 + 256 + 65536)];
    assert_eq!(write_file(&mut disk, addr, &mut big), Err(FdError::NoEnoughSpace));
}
