//! A FAT32 filesystem engine over a cached block device, with the file layer
//! of a small kernel on top.
//!
//! From the leaves to the root: [`layout`] decodes and encodes the structures
//! on disk; [`block_cache`] funnels all access to the [`block_dev`] device;
//! [`fat`] reads and writes the allocation table; [`chain`] maps the bytes of a
//! file or directory onto a cluster chain; [`fat32_manager`] mounts a volume;
//! [`vfs`] offers files and directories by name; [`file`] and [`syscall`] are
//! the open files and the system calls of a task.
pub mod error;
pub mod codec;
pub mod block_dev;
pub mod block_cache;
pub mod layout;
pub mod fat;
pub mod chain;
pub mod fat32_manager;
pub mod vfs;
pub mod file;
pub mod syscall;

pub use block_cache::{BlockCache, CacheMode, SlotHandle};
pub use block_dev::{BlockDevice, RamDisk, BLOCK_SZ};
pub use chain::ClusterChain;
pub use error::FsError;
pub use fat::FAT;
pub use fat32_manager::{FAT32Manager, CACHE_CAPACITY};
pub use file::{find_osinode_by_path, open_file, OSInode, OSInodeInner, OpenFlags, UserBuffer};
pub use layout::{
    parse_boot_params, BootParams, DirectoryEntry, ATTRIBUTE_ARCHIVE, ATTRIBUTE_DIRECTORY,
    ATTRIBUTE_HIDDEN, ATTRIBUTE_READ_ONLY, ATTRIBUTE_SYSTEM, ATTRIBUTE_VOLUME_ID,
};
pub use syscall::{
    sys_chdir, sys_close, sys_mkdir, sys_open, sys_read, sys_write, syscall, Kernel, Syscall,
    TaskFiles,
};
pub use vfs::VFile;
