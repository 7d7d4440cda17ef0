//! The file system calls of a task.
use vstd::prelude::*;
use vstd::string::*;
use crate::block_dev::BlockDevice;
use crate::layout::{BootParams, short_name, ATTRIBUTE_ARCHIVE, ATTRIBUTE_DIRECTORY};
use crate::chain::ClusterChain;
use crate::fat::Disk;
use crate::vfs::NodeView;
use crate::fat32_manager::FAT32Manager;
use crate::file::{OSInode, OpenFlags, UserBuffer, open_file, find_osinode_by_path, opened, resolve, scattered, scattered_len, ALL_FLAGS};

verus! {

pub const SYSCALL_GETCWD: usize = 17;

pub const SYSCALL_OPEN: usize = 56;

pub const SYSCALL_CLOSE: usize = 57;

pub const SYSCALL_PIPE: usize = 59;

pub const SYSCALL_READ: usize = 63;

pub const SYSCALL_WRITE: usize = 64;

pub const SYSCALL_EXIT: usize = 93;

pub const SYSCALL_YIELD: usize = 124;

pub const SYSCALL_GETPID: usize = 172;

pub const SYSCALL_FORK: usize = 220;

pub const SYSCALL_EXEC: usize = 221;

pub const SYSCALL_WAITPID: usize = 260;

/// The descriptor that stands for the root directory in [`sys_mkdir`].
pub const AT_ROOT: isize = -100;

/// A system call with its arguments, as the three argument words spell them.
/// Arguments named `buf`, `path`, `pipe` and `exit_code` are addresses in the
/// caller's memory.
#[derive(Clone, Copy, Debug, PartialEq, Eq, Structural)]
pub enum Syscall {
    Write { fd: usize, buf: usize, len: usize },
    Read { fd: usize, buf: usize, len: usize },
    Exit { code: i32 },
    Fork,
    Yield,
    Exec { path: usize },
    Waitpid { pid: isize, exit_code: usize },
    Getpid,
    Open { path: usize, flags: u32 },
    Close { fd: usize },
    Pipe { pipe: usize },
    Getcwd { buf: usize, len: usize },
}

/// `syscall_id` numbers a system call that is served.
pub open spec fn is_served(syscall_id: usize) -> bool {
    syscall_id == SYSCALL_WRITE || syscall_id == SYSCALL_READ || syscall_id == SYSCALL_EXIT
        || syscall_id == SYSCALL_FORK || syscall_id == SYSCALL_YIELD || syscall_id == SYSCALL_EXEC
        || syscall_id == SYSCALL_WAITPID || syscall_id == SYSCALL_GETPID || syscall_id
        == SYSCALL_OPEN || syscall_id == SYSCALL_CLOSE || syscall_id == SYSCALL_PIPE || syscall_id
        == SYSCALL_GETCWD
}

/// The system call that `syscall_id` and the argument words stand for.
pub open spec fn decoded(syscall_id: usize, args: [usize; 3]) -> Syscall {
    if syscall_id == SYSCALL_WRITE {
        Syscall::Write { fd: args[0], buf: args[1], len: args[2] }
    } else if syscall_id == SYSCALL_READ {
        Syscall::Read { fd: args[0], buf: args[1], len: args[2] }
    } else if syscall_id == SYSCALL_EXIT {
        Syscall::Exit { code: args[0] as i32 }
    } else if syscall_id == SYSCALL_FORK {
        Syscall::Fork
    } else if syscall_id == SYSCALL_YIELD {
        Syscall::Yield
    } else if syscall_id == SYSCALL_EXEC {
        Syscall::Exec { path: args[0] }
    } else if syscall_id == SYSCALL_WAITPID {
        Syscall::Waitpid { pid: args[0] as isize, exit_code: args[1] }
    } else if syscall_id == SYSCALL_GETPID {
        Syscall::Getpid
    } else if syscall_id == SYSCALL_OPEN {
        Syscall::Open { path: args[0], flags: args[1] as u32 }
    } else if syscall_id == SYSCALL_CLOSE {
        Syscall::Close { fd: args[0] }
    } else if syscall_id == SYSCALL_PIPE {
        Syscall::Pipe { pipe: args[0] }
    } else {
        Syscall::Getcwd { buf: args[0], len: args[1] }
    }
}

/// Tells which system call `syscall_id` numbers and takes its arguments from
/// the argument words, narrowing each to the width the call gives it.
pub fn syscall(syscall_id: usize, args: [usize; 3]) -> (call: Syscall)
    requires
        is_served(syscall_id),
    ensures
        call == decoded(syscall_id, args),
{
    if syscall_id == SYSCALL_WRITE {
        Syscall::Write { fd: args[0], buf: args[1], len: args[2] }
    } else if syscall_id == SYSCALL_READ {
        Syscall::Read { fd: args[0], buf: args[1], len: args[2] }
    } else if syscall_id == SYSCALL_EXIT {
        Syscall::Exit { code: #[verifier::truncate] (args[0] as i32) }
    } else if syscall_id == SYSCALL_FORK {
        Syscall::Fork
    } else if syscall_id == SYSCALL_YIELD {
        Syscall::Yield
    } else if syscall_id == SYSCALL_EXEC {
        Syscall::Exec { path: args[0] }
    } else if syscall_id == SYSCALL_WAITPID {
        Syscall::Waitpid { pid: #[verifier::truncate] (args[0] as isize), exit_code: args[1] }
    } else if syscall_id == SYSCALL_GETPID {
        Syscall::Getpid
    } else if syscall_id == SYSCALL_OPEN {
        Syscall::Open { path: args[0], flags: #[verifier::truncate] (args[1] as u32) }
    } else if syscall_id == SYSCALL_CLOSE {
        Syscall::Close { fd: args[0] }
    } else if syscall_id == SYSCALL_PIPE {
        Syscall::Pipe { pipe: args[0] }
    } else {
        Syscall::Getcwd { buf: args[0], len: args[1] }
    }
}

/// The least descriptor from `fd` on that is not in use: the first empty place
/// of the table, or the place behind its last.
pub open spec fn vacant_from(table: Seq<Option<OSInode>>, fd: int) -> int
    decreases table.len() - fd,
{
    if fd < 0 || fd >= table.len() || table[fd] is None {
        fd
    } else {
        vacant_from(table, fd + 1)
    }
}

/// The table with `file` behind the descriptor `fd`, which is a place of the
/// table or the place behind its last.
pub open spec fn installed(table: Seq<Option<OSInode>>, fd: int, file: OSInode) -> Seq<
    Option<OSInode>,
> {
    if fd == table.len() {
        table.push(Some(file))
    } else {
        table.update(fd, Some(file))
    }
}

/// The files of a task: its descriptors and its working directory.
pub struct TaskFiles {
    pub fd_table: Vec<Option<OSInode>>,
    pub cwd: String,
}

impl TaskFiles {
    /// Every open file is well-formed.
    pub open spec fn wf(&self) -> bool {
        forall|i: int|
            0 <= i < self.fd_table@.len() && (#[trigger] self.fd_table@[i]) is Some
                ==> self.fd_table@[i]->Some_0.wf()
    }

    /// No descriptor in use, and the working directory `cwd`.
    pub fn new(cwd: &str) -> (t: TaskFiles)
        ensures
            t.wf(),
            t.fd_table@.len() == 0,
            t.cwd@ == cwd@,
    {
        TaskFiles { fd_table: Vec::new(), cwd: cwd.to_owned() }
    }

    /// The least descriptor that is not in use.
    pub fn vacant(&self) -> (fd: usize)
        ensures
            fd == vacant_from(self.fd_table@, 0),
            fd <= self.fd_table@.len(),
    {
        let mut fd: usize = 0;
        while fd < self.fd_table.len()
            invariant
                fd <= self.fd_table@.len(),
                vacant_from(self.fd_table@, 0) == vacant_from(self.fd_table@, fd as int),
            decreases self.fd_table@.len() - fd,
        {
            if self.fd_table[fd].is_none() {
                return fd;
            }
            fd = fd + 1;
        }
        fd
    }

    /// The least descriptor that is not in use, with a place in the table: the
    /// table grows by an empty place if it has none.
    pub fn alloc_fd(&mut self) -> (fd: usize)
        ensures
            fd == vacant_from(old(self).fd_table@, 0),
            final(self).fd_table@ == if fd == old(self).fd_table@.len() {
                old(self).fd_table@.push(None)
            } else {
                old(self).fd_table@
            },
            final(self).cwd == old(self).cwd,
    {
        let fd = self.vacant();
        if fd == self.fd_table.len() {
            self.fd_table.push(None);
        }
        fd
    }
}

/// What the file system calls work on: the mounted volume, its root directory,
/// and the files of the running task.
pub struct Kernel<D: BlockDevice> {
    pub fs: FAT32Manager<D>,
    pub root: OSInode,
    pub files: TaskFiles,
}

impl<D: BlockDevice> Kernel<D> {
    pub open spec fn wf(&self) -> bool {
        &&& self.fs.wf()
        &&& self.root.wf()
        &&& self.files.wf()
    }

    /// The descriptor `fd` is in use.
    pub open spec fn is_open(&self, fd: int) -> bool {
        0 <= fd < self.files.fd_table@.len() && self.files.fd_table@[fd] is Some
    }

    /// The open file behind the descriptor `fd`.
    pub open spec fn file(&self, fd: int) -> OSInode {
        self.files.fd_table@[fd]->Some_0
    }

    /// The descriptors but `fd` are as in `other`.
    pub open spec fn same_files_but(&self, other: &Self, fd: int) -> bool {
        &&& self.files.fd_table@.len() == other.files.fd_table@.len()
        &&& forall|j: int|
            0 <= j < self.files.fd_table@.len() && j != fd ==> #[trigger] self.files.fd_table@[j]
                == other.files.fd_table@[j]
        &&& self.files.cwd == other.files.cwd
        &&& self.root == other.root
    }

    /// The state of a task that starts on the volume `fs`: the root directory
    /// open for reading and writing, no descriptor in use, and the root as
    /// working directory.
    pub fn new(fs: FAT32Manager<D>) -> (k: Kernel<D>)
        requires
            fs.wf(),
        ensures
            k.wf(),
            k.fs == fs,
            k.root.readable && k.root.writable && k.root.inner.offset == 0,
            k.root.inner.inode@ == (NodeView {
                name: short_name(seq![0x2Fu8]),
                attribute: ATTRIBUTE_DIRECTORY,
                chain: ClusterChain {
                    first_cluster: fs.params().root_cluster,
                    size: 0,
                    is_dir: true,
                },
                dirent: None,
            }),
            k.files.fd_table@.len() == 0,
            k.files.cwd@ == "/"@,
    {
        let root = OSInode::new(true, true, fs.get_root_vfile());
        Kernel { fs, root, files: TaskFiles::new("/") }
    }
}

/// Writes the bytes of `buf` to the file behind `fd`, at its offset. Returns
/// the number of bytes written, or -1 if `fd` is not in use or the file was not
/// opened for writing.
pub fn sys_write<D: BlockDevice>(k: &mut Kernel<D>, fd: usize, buf: &UserBuffer) -> (r: isize)
    requires
        old(k).wf(),
        buf.wf(),
    ensures
        final(k).wf(),
        final(k).fs.params() == old(k).fs.params(),
        final(k).same_files_but(old(k), fd as int),
        if old(k).is_open(fd as int) && old(k).file(fd as int).writable {
            &&& r >= 0
            &&& final(k).is_open(fd as int)
            &&& old(k).file(fd as int).after_write(
                old(k).fs.params(),
                old(k).fs.disk(),
                final(k).file(fd as int),
                final(k).fs.disk(),
                buf.bytes(),
                r as int,
            )
        } else {
            &&& r == -1
            &&& final(k).fs.disk() == old(k).fs.disk()
            &&& final(k).files.fd_table@ == old(k).files.fd_table@
        },
{
    if fd >= k.files.fd_table.len() {
        return -1;
    }
    let writable = match &k.files.fd_table[fd] {
        Some(file) => file.writable(),
        None => false,
    };
    if !writable {
        return -1;
    }
    let slot = k.files.fd_table.remove(fd);
    match slot {
        Some(file) => {
            let mut file = file;
            let total = file.write(&mut k.fs, buf);
            k.files.fd_table.insert(fd, Some(file));
            proof {
                assert(k.files.fd_table@.len() == old(k).files.fd_table@.len());
                assert forall|j: int|
                    0 <= j < k.files.fd_table@.len() && j != fd implies #[trigger] k.files.fd_table@[j]
                    == old(k).files.fd_table@[j] by {}
            }
            total as isize
        },
        None => {
            k.files.fd_table.insert(fd, None);
            -1
        },
    }
}

/// Reads from the file behind `fd`, at its offset, into the ranges of `buf`.
/// Returns the number of bytes read, or -1 if `fd` is not in use or the file
/// was not opened for reading.
pub fn sys_read<D: BlockDevice>(k: &mut Kernel<D>, fd: usize, buf: &mut UserBuffer) -> (r: isize)
    requires
        old(k).wf(),
        old(buf).wf(),
    ensures
        final(k).wf(),
        final(k).fs.params() == old(k).fs.params(),
        final(k).fs.disk() == old(k).fs.disk(),
        final(k).same_files_but(old(k), fd as int),
        if old(k).is_open(fd as int) && old(k).file(fd as int).readable {
            let before = old(k).file(fd as int);
            let after = final(k).file(fd as int);
            let body = before.inner.inode.chain.content(old(k).fs.disk(), old(k).fs.params());
            &&& final(k).is_open(fd as int)
            &&& r == scattered_len(body.len() as int, before.inner.offset as int, old(buf)@, 0)
            &&& final(buf)@ == scattered(body, before.inner.offset as int, old(buf)@, 0)
            &&& after.inner.offset == before.inner.offset + r
            &&& after.inner.inode == before.inner.inode
            &&& after.readable == before.readable
            &&& after.writable == before.writable
        } else {
            &&& r == -1
            &&& final(buf)@ == old(buf)@
            &&& final(k).files.fd_table@ == old(k).files.fd_table@
        },
{
    if fd >= k.files.fd_table.len() {
        return -1;
    }
    let readable = match &k.files.fd_table[fd] {
        Some(file) => file.readable(),
        None => false,
    };
    if !readable {
        return -1;
    }
    let slot = k.files.fd_table.remove(fd);
    match slot {
        Some(file) => {
            let mut file = file;
            let total = file.read(&mut k.fs, buf);
            k.files.fd_table.insert(fd, Some(file));
            proof {
                lemma_scattered_bound(
                    old(k).file(fd as int).inner.inode.chain.content(
                        old(k).fs.disk(),
                        old(k).fs.params(),
                    ).len() as int,
                    old(k).file(fd as int).inner.offset as int,
                    old(buf)@,
                    0,
                );
                assert forall|j: int|
                    0 <= j < k.files.fd_table@.len() && j != fd implies #[trigger] k.files.fd_table@[j]
                    == old(k).files.fd_table@[j] by {}
            }
            total as isize
        },
        None => {
            k.files.fd_table.insert(fd, None);
            -1
        },
    }
}

/// A read gets no more bytes than the buffers from `i` on can hold.
pub proof fn lemma_scattered_bound(body_len: int, off: int, bufs: Seq<Seq<u8>>, i: int)
    requires
        0 <= i <= bufs.len(),
    ensures
        0 <= scattered_len(body_len, off, bufs, i),
        scattered_len(body_len, off, bufs, i) + crate::file::gathered(bufs, i).len()
            <= crate::file::gathered(bufs, bufs.len() as int).len(),
    decreases bufs.len() - i,
{
    crate::file::lemma_gathered_len(bufs, i, bufs.len() as int);
    if i < bufs.len() && crate::file::chunk(body_len, off, bufs[i].len() as int) != 0 {
        let n = crate::file::chunk(body_len, off, bufs[i].len() as int);
        lemma_scattered_bound(body_len, off + n, bufs, i + 1);
        assert(crate::file::gathered(bufs, i + 1) == crate::file::gathered(bufs, i) + bufs[i]);
    }
}

/// Opens the file `path` of the root directory, as [`open_file`] does, makes
/// the volume durable, and gives the open file the least descriptor that is
/// not in use. Returns the descriptor, or -1 if `flags` has a bit that stands
/// for no flag, the file is not opened, or the descriptor cannot be told in a
/// signed word.
pub fn sys_open<D: BlockDevice>(k: &mut Kernel<D>, path: &str, flags: u32) -> (r: isize)
    requires
        old(k).wf(),
    ensures
        final(k).wf(),
        final(k).fs.params() == old(k).fs.params(),
        final(k).files.cwd == old(k).files.cwd,
        ({
            let table = old(k).files.fd_table@;
            let fd = vacant_from(table, 0);
            if flags & !ALL_FLAGS != 0 || fd > isize::MAX {
                &&& r == -1
                &&& final(k).fs.disk() == old(k).fs.disk()
                &&& final(k).root == old(k).root
                &&& final(k).files.fd_table@ == table
            } else {
                &&& opened(
                    old(k).fs.params(),
                    old(k).fs.disk(),
                    old(k).root,
                    final(k).root,
                    final(k).fs.disk(),
                    path.spec_bytes(),
                    flags,
                    if r == -1 {
                        None
                    } else {
                        Some(final(k).file(r as int))
                    },
                )
                &&& r == -1 ==> final(k).files.fd_table@ == table
                &&& r != -1 ==> {
                    &&& r == fd
                    &&& final(k).files.fd_table@ == installed(table, fd, final(k).file(fd))
                    &&& final(k).fs.cache_view().clean()
                    &&& final(k).fs.cache_view().device == final(k).fs.disk()
                }
            }
        }),
{
    let fd = k.files.vacant();
    if fd > isize::MAX as usize {
        return -1;
    }
    let flags = match OpenFlags::from_bits(flags) {
        Some(f) => f,
        None => {
            return -1;
        },
    };
    match open_file(&mut k.root, &mut k.fs, path, flags) {
        Some(inode) => {
            k.fs.sync_all();
            if fd == k.files.fd_table.len() {
                k.files.fd_table.push(Some(inode));
            } else {
                k.files.fd_table.set(fd, Some(inode));
            }
            fd as isize
        },
        None => -1,
    }
}

/// Closes the descriptor `fd`. Returns 0, or -1 if `fd` is not in use.
pub fn sys_close<D: BlockDevice>(k: &mut Kernel<D>, fd: usize) -> (r: isize)
    requires
        old(k).wf(),
    ensures
        final(k).wf(),
        final(k).fs == old(k).fs,
        final(k).root == old(k).root,
        final(k).files.cwd == old(k).files.cwd,
        if old(k).is_open(fd as int) {
            r == 0 && final(k).files.fd_table@ == old(k).files.fd_table@.update(fd as int, None)
        } else {
            r == -1 && final(k).files.fd_table@ == old(k).files.fd_table@
        },
{
    if fd >= k.files.fd_table.len() {
        return -1;
    }
    if k.files.fd_table[fd].is_none() {
        return -1;
    }
    k.files.fd_table.set(fd, None);
    0
}

/// Creates the file `path`, with the archive attribute, in the directory
/// `root`, and makes the volume durable.
fn make_file<D: BlockDevice>(root: &mut OSInode, fs: &mut FAT32Manager<D>, path: &str)
    requires
        old(fs).wf(),
        old(root).wf(),
    ensures
        final(fs).wf(),
        final(fs).params() == old(fs).params(),
        final(root).wf(),
        final(root).readable == old(root).readable,
        final(root).writable == old(root).writable,
        final(root).inner.offset == old(root).inner.offset,
        final(fs).cache_view().clean(),
        final(fs).cache_view().device == final(fs).disk(),
        made(
            old(fs).params(),
            old(fs).disk(),
            old(root).inner.inode@,
            final(root).inner.inode@,
            final(fs).disk(),
            path.spec_bytes(),
        ),
{
    let _ = root.create(fs, path, ATTRIBUTE_ARCHIVE);
    fs.sync_all();
}

/// How the directory and the disk stand after a file named `name` was to be
/// created: the directory has gained it if it could be created, and nothing
/// has changed if not.
pub open spec fn made(
    p: BootParams,
    d0: Disk,
    dir: NodeView,
    after: NodeView,
    d1: Disk,
    name: Seq<u8>,
) -> bool {
    if dir.can_create(d0, p, short_name(name)) {
        dir.gained(p, d0, after, d1, short_name(name), ATTRIBUTE_ARCHIVE)
    } else {
        d1 == d0 && after == dir
    }
}

/// Creates the file `path`, with the archive attribute, in the root directory
/// if `dirfd` is [`AT_ROOT`], and makes the volume durable; does nothing for
/// any other `dirfd`. Returns 0 in every case.
pub fn sys_mkdir<D: BlockDevice>(k: &mut Kernel<D>, dirfd: isize, path: &str, cmod: usize) -> (r: isize)
    requires
        old(k).wf(),
    ensures
        final(k).wf(),
        final(k).fs.params() == old(k).fs.params(),
        final(k).files == old(k).files,
        r == 0,
        final(k).root.readable == old(k).root.readable,
        final(k).root.writable == old(k).root.writable,
        final(k).root.inner.offset == old(k).root.inner.offset,
        if dirfd == AT_ROOT {
            &&& made(
                old(k).fs.params(),
                old(k).fs.disk(),
                old(k).root.inner.inode@,
                final(k).root.inner.inode@,
                final(k).fs.disk(),
                path.spec_bytes(),
            )
            &&& final(k).fs.cache_view().clean()
            &&& final(k).fs.cache_view().device == final(k).fs.disk()
        } else {
            &&& final(k).fs == old(k).fs
            &&& final(k).root == old(k).root
        },
{
    if dirfd == AT_ROOT {
        make_file(&mut k.root, &mut k.fs, path);
    }
    0
}

/// Makes `path` the working directory if it leads to a node from the root
/// directory. Returns 0, or 1 if it leads to none.
pub fn sys_chdir<D: BlockDevice>(k: &mut Kernel<D>, path: &str) -> (r: isize)
    requires
        old(k).wf(),
    ensures
        final(k).wf(),
        final(k).fs.params() == old(k).fs.params(),
        final(k).fs.disk() == old(k).fs.disk(),
        final(k).root == old(k).root,
        final(k).files.fd_table == old(k).files.fd_table,
        if resolve(
            old(k).root.inner.inode.chain,
            old(k).fs.disk(),
            old(k).fs.params(),
            path.spec_bytes(),
        ) is Some {
            r == 0 && final(k).files.cwd@ == path@
        } else {
            r == 1 && final(k).files.cwd == old(k).files.cwd
        },
{
    match find_osinode_by_path(&k.root, &mut k.fs, path) {
        Some(_) => {
            k.files.cwd = path.to_owned();
            0
        },
        None => 1,
    }
}

} // verus!
