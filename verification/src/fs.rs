//! The file system engine: the on-disk layout, the allocators, files and
//! directories, path lookup, the table of open descriptors and the
//! dispatcher that serves one request at a time.

pub mod api;
pub mod bitmap;
mod clock;
pub mod data;
pub mod dir;
pub mod disk;
pub mod file;
pub mod format;
pub mod inode;
pub mod laws;
pub mod metadata;
pub mod node;
pub mod path;
pub mod serve;
pub mod superblock;
pub mod table;
pub mod utils;

pub use api::{
    close, create_dir, create_file, metadata, open_dir, open_file, remove_dir, remove_file,
    set_permission, superblock, update_inode, update_timestamp,
};
pub use bitmap::{Bitmap, BitmapError, BlockBitmap};
pub use data::DataError;
pub use dir::{Dd, DdError, Entry};
pub use disk::{Disk, DiskError};
pub use file::{Fd, FdError};
pub use format::{create_disk, init_disk};
pub use inode::{Inode, InodeError};
pub use metadata::{Metadata, MetadataError, Rwx};
pub use path::{path_to_inode, FsError};
pub use serve::{Fs, FsReq, FsRes};
pub use superblock::{Superblock, SuperblockError};
pub use table::{FdTable, FdTableEntry};
