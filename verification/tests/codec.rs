use simdisk::fs::bitmap::{Bitmap, BitmapError, BlockBitmap};
use simdisk::fs::dir::Entry;
use simdisk::fs::inode::Inode;
use simdisk::fs::superblock::Superblock;
use simdisk::fs::utils::{
    count_ones_below, count_ones_in_u64, u16_to_u8arr, u32_to_u8arr, u64_to_u8arr, u8arr_to_u16,
    u8arr_to_u32, u8arr_to_u64,
};
use simdisk::sedes::{Deserialize, SedesError, Serialize};

#[test]
fn integers_are_big_endian() {
    assert_eq!(u16_to_u8arr(0x1234), [0x12, 0x34]);
    assert_eq!(u32_to_u8arr(0x12345678), [0x12, 0x34, 0x56, 0x78]);
    assert_eq!(u32_to_u8arr(274), [0, 0, 1, 18]);
    assert_eq!(
        u64_to_u8arr(0x0102030405060708),
        [1, 2, 3, 4, 5, 6, 7, 8]
    );
    assert_eq!(u8arr_to_u16(&[0x12, 0x34]), 0x1234);
    assert_eq!(u8arr_to_u32(&[0x12, 0x34, 0x56, 0x78]), 0x12345678);
    assert_eq!(u8arr_to_u64(&[1, 2, 3, 4, 5, 6, 7, 8]), 0x0102030405060708);
    assert_eq!(u8arr_to_u32(&u32_to_u8arr(u32::MAX)), u32::MAX);
    assert_eq!(u8arr_to_u64(&u64_to_u8arr(u64::MAX)), u64::MAX);
}

#[test]
fn ones_are_counted() {
    assert_eq!(count_ones_in_u64(0), 0);
    assert_eq!(count_ones_in_u64(u64::MAX), 64);
    assert_eq!(count_ones_in_u64(0b1011), 3);
    assert_eq!(count_ones_in_u64(1 << 63), 1);
    assert_eq!(count_ones_below(0b1011, 2), 2);
    assert_eq!(count_ones_below(u64::MAX, 0), 0);
}

#[test]
fn superblock_bytes() {
    let sb = Superblock::new();
    let bytes = sb.serialize();
    assert_eq!(bytes.len(), 30);
    assert_eq!(bytes[0], 0xE3);
    assert_eq!(&bytes[1..5], &[0, 0, 16, 0]);
    assert_eq!(&bytes[5..9], &[0, 0, 0, 1]);
    assert_eq!(&bytes[9..13], &[0, 0, 1, 2]);
    assert_eq!(&bytes[13..17], &[0, 0, 4, 0]);
    assert_eq!(&bytes[17..21], &[0, 0, 0, 2]);
    assert_eq!(&bytes[21..25], &[0, 0, 1, 18]);
    assert_eq!(&bytes[25..29], &u32_to_u8arr(1024 * (8 + 256 + 65536)));
    assert_eq!(bytes[29], 172);
    let mut buf = bytes.clone();
    assert_eq!(Superblock::deserialize(&mut buf), Ok(sb));
    let mut short = bytes[..29].to_vec();
    assert_eq!(
        Superblock::deserialize(&mut short),
        Err(SedesError::DeserialBufferTooSmall)
    );
}

#[test]
fn inode_bytes() {
    let mut inode = Inode::with_timestamp(7, true, 0x01020304);
    assert_eq!(inode.mode, 0b111_1101);
    assert_eq!(Inode::with_timestamp(7, false, 0).mode, 0b011_0100);
    inode.size = 5;
    inode.blocks[0] = 274;
    inode.blocks[7] = 300;
    inode.indirect_block = 400;
    inode.double_block = 500;
    let bytes = inode.serialize();
    assert_eq!(bytes.len(), 64);
    assert_eq!(bytes[0], 7);
    assert_eq!(bytes[1], 0b111_1101);
    assert_eq!(&bytes[2..6], &[0, 0, 0, 5]);
    assert_eq!(&bytes[6..10], &[1, 2, 3, 4]);
    assert_eq!(&bytes[10..14], &[0, 0, 1, 18]);
    assert_eq!(&bytes[38..42], &u32_to_u8arr(300));
    assert_eq!(&bytes[42..46], &u32_to_u8arr(400));
    assert_eq!(&bytes[46..50], &u32_to_u8arr(500));
    assert_eq!(&bytes[50..], &[0u8; 14]);
    let mut buf = bytes.clone();
    let back = Inode::deserialize(&mut buf).unwrap();
    assert_eq!(back.uid, 7);
    assert_eq!(back.size, 5);
    assert_eq!(back.timestamp, 0x01020304);
    assert_eq!(back.blocks, [274, 0, 0, 0, 0, 0, 0, 300]);
    assert_eq!(back.indirect_block, 400);
    assert_eq!(back.double_block, 500);
    let mut short = vec![0u8; 63];
    assert!(matches!(
        Inode::deserialize(&mut short),
        Err(SedesError::DeserialBufferTooSmall)
    ));
}

#[test]
fn new_inode_has_the_clock_time() {
    let inode = Inode::new(3, false);
    assert_eq!(inode.uid, 3);
    assert_eq!(inode.blocks, [0; 8]);
    assert!(inode.timestamp > 1_600_000_000);
}

#[test]
fn entry_bytes() {
    let e = Entry { inode: 258, name: "name".to_string() };
    let bytes = e.serialize();
    assert_eq!(bytes.len(), 64);
    assert_eq!(&bytes[..4], &[0, 0, 1, 2]);
    assert_eq!(&bytes[4..8], b"name");
    assert!(bytes[8..].iter().all(|b| *b == 0));
    let mut buf = bytes.clone();
    let back = Entry::deserialize(&mut buf).unwrap();
    assert_eq!(back.inode, 258);
    assert_eq!(back.name, "name");
    let long = Entry { inode: 1, name: "x".repeat(70) };
    let bytes = long.serialize();
    assert_eq!(bytes.len(), 64);
    assert_eq!(&bytes[4..], "x".repeat(60).as_bytes());
    let mut bad = vec![0u8; 64];
    bad[4] = 0xff;
    assert!(matches!(Entry::deserialize(&mut bad), Err(SedesError::InvalidName)));
    let mut short = vec![0u8; 10];
    assert!(matches!(
        Entry::deserialize(&mut short),
        Err(SedesError::DeserialBufferTooSmall)
    ));
}

#[test]
fn block_bitmap_bits() {
    let mut b = BlockBitmap::new();
    assert_eq!(b.next_usable(), Some(0));
    assert_eq!(b.rest_usable(), 8192);
    assert_eq!(b.check(5), Ok(false));
    assert_eq!(b.set_true(5), Ok(()));
    assert_eq!(b.set_true(6), Ok(()));
    assert_eq!(b.set_true(64), Ok(()));
    assert_eq!(b.check(5), Ok(true));
    assert_eq!(b.rest_usable(), 8189);
    assert_eq!(b.rest_usable_below(6), 5);
    assert_eq!(b.set_false(5), Ok(()));
    assert_eq!(b.check(5), Ok(false));
    assert_eq!(b.check(6), Ok(true));
    assert_eq!(b.check(64), Ok(true));
    assert_eq!(b.check(8192), Err(BitmapError::InvalidPos));
    assert_eq!(b.set_true(8192), Err(BitmapError::InvalidPos));
    assert_eq!(b.set_false(9000), Err(BitmapError::InvalidPos));
    assert_eq!(b.get_u64(64), Ok(1));
    assert_eq!(b.get_u64(0), Ok(1 << 6));
    for p in 0..8192 {
        b.set_true(p).unwrap();
    }
    assert_eq!(b.next_usable(), None);
    assert_eq!(b.rest_usable(), 0);
    b.set_false(8191).unwrap();
    assert_eq!(b.next_usable(), Some(8191));
}

#[test]
fn block_bitmap_layout_on_disk() {
    let mut b = BlockBitmap::new();
    b.set_true(0).unwrap();
    b.set_true(9).unwrap();
    b.set_true(64).unwrap();
    let bytes = b.serialize();
    assert_eq!(bytes.len(), 1024);
    // word 0 holds bits 0 and 9, most significant byte first
    assert_eq!(&bytes[..8], &[0, 0, 0, 0, 0, 0, 2, 1]);
    assert_eq!(&bytes[8..16], &[0, 0, 0, 0, 0, 0, 0, 1]);
    let mut buf = bytes.clone();
    let back = BlockBitmap::deserialize(&mut buf).unwrap();
    assert_eq!(back.check(9), Ok(true));
    assert_eq!(back.check(10), Ok(false));
    let mut short = vec![0u8; 100];
    assert!(matches!(
        BlockBitmap::deserialize(&mut short),
        Err(SedesError::DeserialBufferTooSmall)
    ));
}

#[test]
fn bitmap_of_blocks() {
    let mut buf = vec![0u8; 2048];
    let mut m = Bitmap::deserialize(&mut buf).unwrap();
    assert_eq!(m.capacity(), 16384);
    assert_eq!(m.set_capacity(10000), Ok(()));
    assert_eq!(m.set_capacity(20000), Err(BitmapError::InvalidPos));
    assert_eq!(m.rest_usable(), 10000);
    assert_eq!(m.set_true(8192), Ok(()));
    assert_eq!(m.check(8192), Ok(true));
    assert_eq!(m.check(10000), Err(BitmapError::InvalidPos));
    assert_eq!(m.rest_usable(), 9999);
    assert_eq!(m.next_usable(), Some(0));
    for p in 0..8192 {
        m.set_true(p).unwrap();
    }
    assert_eq!(m.next_usable(), Some(8193));
    assert_eq!(m.set_false(8192), Ok(()));
    assert_eq!(m.next_usable(), Some(8192));
    assert_eq!(Bitmap::get_pos(8193), (1, 1));
    assert_eq!(m.get_serialized_map(1).unwrap().len(), 1024);
    assert_eq!(m.get_serialized_map(2), Err(BitmapError::InvalidPos));
    let mut odd = vec![0u8; 10];
    let padded = Bitmap::deserialize(&mut odd).unwrap();
    assert_eq!(odd.len(), 1024);
    assert_eq!(padded.capacity(), 8192);
    assert!(Bitmap::new(Vec::new()).is_ok());
}

#[test]
fn timestamp_keeps_the_low_32_bits() {
    let mut inode = Inode::with_timestamp(3, true, 9);
    inode.blocks[0] = 274;
    inode.set_timestamp(1_431_648_000);
    assert_eq!(inode.timestamp, 1_431_648_000);
    inode.set_timestamp(0x1_0000_0005);
    assert_eq!(inode.timestamp, 5);
    inode.set_timestamp(-1);
    assert_eq!(inode.timestamp, 0xffff_ffff);
    assert_eq!(inode.uid, 3);
    assert_eq!(inode.mode, 0b111_1101);
    assert_eq!(inode.blocks[0], 274);
}

#[test]
fn the_clock_changes_the_timestamp_alone() {
    let mut inode = Inode::with_timestamp(3, false, 0);
    inode.blocks[1] = 300;
    inode.update_timestamp();
    assert!(inode.timestamp > 1_000_000_000);
    assert_eq!(inode.uid, 3);
    assert_eq!(inode.mode, 0b011_0100);
    assert_eq!(inode.blocks[1], 300);
    assert_eq!(inode.size, 0);
}
