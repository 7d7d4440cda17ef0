//! Open files: flags, user buffers, and the lookup of files by name and by
//! path.
use vstd::prelude::*;
use vstd::string::*;

use crate::block_dev::BlockDevice;
use crate::codec::append_bytes;
use crate::layout::{BootParams, short_name, ATTRIBUTE_ARCHIVE};
use crate::fat::Disk;
use crate::fat32_manager::FAT32Manager;
use crate::vfs::{VFile, NodeView, find_spec};
use crate::chain::ClusterChain;
use vstd::slice::slice_subrange;

verus! {

/// Open for reading only: no bit set.
pub const RDONLY: u32 = 0;

/// Open for writing only.
pub const WRONLY: u32 = 0x001;

/// Open for reading and writing.
pub const RDWR: u32 = 0x002;

/// Create the file if it is not there; empty it if it is.
pub const CREATE: u32 = 0x200;

/// Empty the file on opening.
pub const TRUNC: u32 = 0x400;

/// Every bit that an [`OpenFlags`] may hold.
pub const ALL_FLAGS: u32 = 0x603;

/// The flags of an open call, as a set of bits with the numeric encoding of the
/// system-call interface.
#[derive(Clone, Copy, Debug, PartialEq, Eq, Structural)]
pub struct OpenFlags {
    bits: u32,
}

impl OpenFlags {
    /// The bits of the set.
    pub closed spec fn view(&self) -> u32 {
        self.bits
    }

    /// The set with the bits `bits`: `None` if a bit is set that stands for no
    /// flag.
    pub fn from_bits(bits: u32) -> (r: Option<OpenFlags>)
        ensures
            r is Some <==> bits & !ALL_FLAGS == 0,
            r is Some ==> r->Some_0@ == bits,
    {
        if bits & !ALL_FLAGS == 0 {
            Some(OpenFlags { bits })
        } else {
            None
        }
    }

    /// The bits of the set.
    pub fn bits(&self) -> (b: u32)
        ensures
            b == self@,
    {
        self.bits
    }

    /// Whether no bit is set.
    pub fn is_empty(&self) -> (r: bool)
        ensures
            r == (self@ == 0),
    {
        self.bits == 0
    }

    /// Whether every bit of `flags` is set.
    pub fn contains(&self, flags: u32) -> (r: bool)
        ensures
            r == (self@ & flags == flags),
    {
        self.bits & flags == flags
    }

    /// Whether the flags allow reading, and whether they allow writing: reading
    /// only for the empty set, writing only where `WRONLY` is set, both
    /// otherwise. The validity of the set is not looked at.
    pub fn read_write(&self) -> (r: (bool, bool))
        ensures
            r == if self@ == 0 {
                (true, false)
            } else if self@ & WRONLY == WRONLY {
                (false, true)
            } else {
                (true, true)
            },
    {
        if self.is_empty() {
            (true, false)
        } else if self.contains(WRONLY) {
            (false, true)
        } else {
            (true, true)
        }
    }
}

/// The first `i` buffers, one after the other.
pub open spec fn gathered(bufs: Seq<Seq<u8>>, i: int) -> Seq<u8>
    decreases i,
{
    if i <= 0 {
        Seq::empty()
    } else {
        gathered(bufs, i - 1) + bufs[i - 1]
    }
}

/// The number of bytes that a read of `want` bytes at `off` gets from a body
/// of `len` bytes.
pub open spec fn chunk(len: int, off: int, want: int) -> int {
    if off >= len {
        0
    } else if off + want <= len {
        want
    } else {
        len - off
    }
}

/// The buffers after a read from `body` at `off` that fills them in order from
/// buffer `i` on: each takes the next bytes of the body at its front, and the
/// read ends at the first buffer that gets none.
pub open spec fn scattered(body: Seq<u8>, off: int, bufs: Seq<Seq<u8>>, i: int) -> Seq<Seq<u8>>
    decreases bufs.len() - i,
{
    if i < 0 || i >= bufs.len() || chunk(body.len() as int, off, bufs[i].len() as int) == 0 {
        bufs
    } else {
        let n = chunk(body.len() as int, off, bufs[i].len() as int);
        scattered(
            body,
            off + n,
            bufs.update(i, body.subrange(off, off + n) + bufs[i].skip(n)),
            i + 1,
        )
    }
}

/// The number of bytes that the read of [`scattered`] gets.
pub open spec fn scattered_len(body_len: int, off: int, bufs: Seq<Seq<u8>>, i: int) -> int
    decreases bufs.len() - i,
{
    if i < 0 || i >= bufs.len() || chunk(body_len, off, bufs[i].len() as int) == 0 {
        0
    } else {
        let n = chunk(body_len, off, bufs[i].len() as int);
        n + scattered_len(body_len, off + n, bufs, i + 1)
    }
}

/// The first `i` buffers hold no more bytes than the first `j`, for `i <= j`.
pub proof fn lemma_gathered_len(bufs: Seq<Seq<u8>>, i: int, j: int)
    requires
        0 <= i <= j <= bufs.len(),
    ensures
        gathered(bufs, i).len() <= gathered(bufs, j).len(),
        i < j ==> gathered(bufs, i).len() + bufs[i].len() <= gathered(bufs, j).len(),
    decreases j - i,
{
    if i < j {
        lemma_gathered_len(bufs, i, j - 1);
        if i < j - 1 {
        } else {
            assert(gathered(bufs, j) == gathered(bufs, j - 1) + bufs[j - 1]);
        }
    }
}

/// A buffer in user memory: a sequence of byte ranges.
pub struct UserBuffer {
    pub buffers: Vec<Vec<u8>>,
}

impl UserBuffer {
    pub open spec fn view(&self) -> Seq<Seq<u8>> {
        Seq::new(self.buffers@.len(), |i: int| self.buffers@[i]@)
    }

    /// All the bytes of the buffer, range after range.
    pub open spec fn bytes(&self) -> Seq<u8> {
        gathered(self@, self@.len() as int)
    }

    /// The buffer holds no more bytes than a signed word can count.
    pub open spec fn wf(&self) -> bool {
        self.bytes().len() <= isize::MAX
    }

    /// A buffer made of `buffers`.
    pub fn new(buffers: Vec<Vec<u8>>) -> (b: UserBuffer)
        ensures
            b.buffers == buffers,
    {
        UserBuffer { buffers }
    }

    /// A copy of all the bytes of the buffer, range after range.
    pub fn gather(&self) -> (out: Vec<u8>)
        ensures
            out@ == self.bytes(),
    {
        let mut out: Vec<u8> = Vec::new();
        let mut i: usize = 0;
        while i < self.buffers.len()
            invariant
                i <= self.buffers@.len(),
                out@ == gathered(self@, i as int),
            decreases self.buffers@.len() - i,
        {
            append_bytes(&mut out, self.buffers[i].as_slice());
            i = i + 1;
        }
        out
    }
}

/// The state of an open file: the place of the next read or write, and the
/// node.
pub struct OSInodeInner {
    pub offset: u64,
    pub inode: VFile,
}

/// An open file or directory.
pub struct OSInode {
    pub readable: bool,
    pub writable: bool,
    pub inner: OSInodeInner,
}

impl OSInode {
    /// The node's handle is well-formed.
    pub open spec fn wf(&self) -> bool {
        self.inner.inode.wf()
    }

    /// The open file that a search hands out for the node `node`: readable, not
    /// writable, at offset zero.
    pub open spec fn opens(&self, node: NodeView) -> bool {
        &&& self.readable
        &&& !self.writable
        &&& self.inner.offset == 0
        &&& self.inner.inode@ == node
        &&& self.wf()
    }

    /// `after` on disk `d1` is this open file on disk `d0` after a write of
    /// `data` that reported `n` bytes: where `data` is not empty, the node's
    /// handle can be trusted and the write can be carried out, all of it is
    /// written at the offset and the offset moves behind it; otherwise nothing
    /// is written and nothing changes.
    pub open spec fn after_write(
        &self,
        p: BootParams,
        d0: Disk,
        after: OSInode,
        d1: Disk,
        data: Seq<u8>,
        n: int,
    ) -> bool {
        if data.len() > 0 && self.inner.inode.sound(d0, p) && self.inner.inode.chain.write_fits(
            d0,
            p,
            self.inner.offset as int,
            data.len() as int,
        ) {
            &&& n == data.len()
            &&& after.readable == self.readable
            &&& after.writable == self.writable
            &&& after.inner.offset == self.inner.offset + data.len()
            &&& self.inner.inode.wrote(p, d0, after.inner.inode, d1, self.inner.offset as int, data)
        } else {
            &&& n == 0
            &&& after == *self
            &&& d1 == d0
        }
    }

    /// `after` on disk `d1` is this open file on disk `d0` after it was
    /// cleared: where the node's handle can be trusted, its chain is released
    /// and its body empty; otherwise nothing changes.
    pub open spec fn after_clear(&self, p: BootParams, d0: Disk, after: OSInode, d1: Disk) -> bool {
        &&& after.readable == self.readable
        &&& after.writable == self.writable
        &&& after.inner.offset == self.inner.offset
        &&& self.inner.inode@.cleared(p, d0, after.inner.inode@, d1)
    }

    /// An open file on `inode`, at offset zero.
    pub fn new(readable: bool, writable: bool, inode: VFile) -> (f: OSInode)
        ensures
            f.readable == readable,
            f.writable == writable,
            f.inner.offset == 0,
            f.inner.inode == inode,
    {
        OSInode { readable, writable, inner: OSInodeInner { offset: 0, inode } }
    }

    /// Looks in this directory for `file_name` and opens the node found:
    /// readable, not writable. `None` if this is no directory or no record
    /// carries the name.
    pub fn find_inode<D: BlockDevice>(&self, fs: &mut FAT32Manager<D>, file_name: &str) -> (r: Option<
        OSInode,
    >)
        requires
            old(fs).wf(),
            self.wf(),
        ensures
            final(fs).wf(),
            final(fs).disk() == old(fs).disk(),
            final(fs).params() == old(fs).params(),
            final(fs).cursor() == old(fs).cursor(),
            ({
                let found = find_spec(
                    self.inner.inode.chain,
                    old(fs).disk(),
                    old(fs).params(),
                    file_name.spec_bytes(),
                );
                match r {
                    Some(f) => found is Some && f.opens(found->Some_0),
                    None => found is None,
                }
            }),
    {
        match self.get_vfile().find_by_name(fs, file_name.as_bytes()) {
            Ok(vfile) => Some(OSInode::new(true, false, vfile)),
            Err(_) => None,
        }
    }

    /// Releases the node's chain and makes its body empty. Nothing happens if
    /// the node's handle cannot be trusted on this volume.
    pub fn clear<D: BlockDevice>(&mut self, fs: &mut FAT32Manager<D>)
        requires
            old(fs).wf(),
        ensures
            final(fs).wf(),
            final(fs).params() == old(fs).params(),
            final(fs).cursor() == old(fs).cursor(),
            old(self).after_clear(old(fs).params(), old(fs).disk(), *final(self), final(fs).disk()),
    {
        let _ = self.inner.inode.clear(fs);
    }

    /// Creates an empty node named `name` in this directory and opens it:
    /// readable, not writable. `None`, with nothing changed, if the node cannot
    /// be created.
    pub fn create<D: BlockDevice>(&mut self, fs: &mut FAT32Manager<D>, name: &str, attribute: u8) -> (r:
        Option<OSInode>)
        requires
            old(fs).wf(),
            old(self).wf(),
        ensures
            final(fs).wf(),
            final(fs).params() == old(fs).params(),
            final(self).wf(),
            final(self).readable == old(self).readable,
            final(self).writable == old(self).writable,
            final(self).inner.offset == old(self).inner.offset,
            ({
                let p = old(fs).params();
                let d0 = old(fs).disk();
                let key = short_name(name.spec_bytes());
                match r {
                    Some(f) => {
                        &&& f.readable
                        &&& !f.writable
                        &&& f.inner.offset == 0
                        &&& old(self).inner.inode.created(
                            p,
                            d0,
                            final(self).inner.inode,
                            final(fs).disk(),
                            key,
                            attribute,
                            f.inner.inode,
                        )
                    },
                    None => {
                        &&& !old(self).inner.inode.can_create(d0, p, key)
                        &&& final(fs).disk() == d0
                        &&& final(fs).cursor() == old(fs).cursor()
                        &&& *final(self) == *old(self)
                    },
                }
            }),
    {
        match self.inner.inode.create(fs, name.as_bytes(), attribute) {
            Ok(vfile) => Some(OSInode::new(true, false, vfile)),
            Err(_) => None,
        }
    }

    /// The node of the open file.
    pub fn get_vfile(&self) -> (v: &VFile)
        ensures
            *v == self.inner.inode,
    {
        &self.inner.inode
    }

    /// Whether the file was opened for reading.
    pub fn readable(&self) -> (r: bool)
        ensures
            r == self.readable,
    {
        self.readable
    }

    /// Whether the file was opened for writing.
    pub fn writable(&self) -> (r: bool)
        ensures
            r == self.writable,
    {
        self.writable
    }

    /// Reads from the offset on into the ranges of `buf`, in order, until a
    /// range gets no byte, and moves the offset behind what was read. Returns
    /// the number of bytes read.
    pub fn read<D: BlockDevice>(&mut self, fs: &mut FAT32Manager<D>, buf: &mut UserBuffer) -> (total: usize)
        requires
            old(fs).wf(),
            old(buf).wf(),
        ensures
            final(fs).wf(),
            final(fs).disk() == old(fs).disk(),
            final(fs).params() == old(fs).params(),
            final(fs).cursor() == old(fs).cursor(),
            final(self).readable == old(self).readable,
            final(self).writable == old(self).writable,
            final(self).inner.inode == old(self).inner.inode,
            ({
                let body = old(self).inner.inode.chain.content(old(fs).disk(), old(fs).params());
                &&& final(buf)@ == scattered(body, old(self).inner.offset as int, old(buf)@, 0)
                &&& total == scattered_len(
                    body.len() as int,
                    old(self).inner.offset as int,
                    old(buf)@,
                    0,
                )
                &&& final(self).inner.offset == old(self).inner.offset + total
            }),
    {
        let ghost p = fs.params();
        let ghost d = fs.disk();
        let ghost body = self.inner.inode.chain.content(d, p);
        let ghost bufs0 = buf@;
        let ghost off0 = self.inner.offset as int;
        proof {
            fs.lemma_wf();
            lemma_body_len(d, p, self.inner.inode.chain);
        }
        let count: usize = buf.buffers.len();
        let mut total: usize = 0;
        let mut i: usize = 0;
        while i < count
            invariant
                fs.wf(),
                fs.disk() == d,
                fs.params() == p,
                fs.cursor() == old(fs).cursor(),
                self.readable == old(self).readable,
                self.writable == old(self).writable,
                self.inner.inode == old(self).inner.inode,
                body == self.inner.inode.chain.content(d, p),
                body.len() <= 0x1000_0000_0000,
                count == buf.buffers@.len(),
                count == bufs0.len(),
                i <= count,
                forall|j: int| 0 <= j < count ==> (#[trigger] buf@[j]).len() == bufs0[j].len(),
                total <= gathered(bufs0, i as int).len(),
                gathered(bufs0, count as int).len() <= isize::MAX,
                total == self.inner.offset - off0,
                self.inner.offset == off0 || self.inner.offset <= body.len(),
                scattered(body, off0, bufs0, 0) == scattered(
                    body,
                    self.inner.offset as int,
                    buf@,
                    i as int,
                ),
                forall|j: int| i <= j < count ==> #[trigger] buf@[j] == bufs0[j],
                scattered_len(body.len() as int, off0, bufs0, 0) == total + scattered_len(
                    body.len() as int,
                    self.inner.offset as int,
                    bufs0,
                    i as int,
                ),
            ensures
                scattered(body, off0, bufs0, 0) == buf@,
                scattered_len(body.len() as int, off0, bufs0, 0) == total,
                total == self.inner.offset - off0,
                fs.wf(),
                fs.disk() == d,
                fs.params() == p,
                fs.cursor() == old(fs).cursor(),
                self.readable == old(self).readable,
                self.writable == old(self).writable,
                self.inner.inode == old(self).inner.inode,
            decreases count - i,
        {
            let ghost before = buf@;
            let mut piece = buf.buffers.remove(i);
            let ghost want = piece@;
            let n = self.inner.inode.read_at(fs, self.inner.offset, &mut piece);
            let ghost got = piece@;
            buf.buffers.insert(i, piece);
            proof {
                lemma_gathered_len(bufs0, i as int, count as int);
                assert(gathered(bufs0, i + 1) == gathered(bufs0, i as int) + bufs0[i as int]);
                assert(before[i as int] == want);
                assert(n == chunk(body.len() as int, self.inner.offset as int, want.len() as int));
                if n == 0 {
                    assert(got =~= want) by {
                        assert forall|j: int| 0 <= j < want.len() implies got[j] == want[j] by {
                            assert(got.subrange(0, want.len() as int)[j] == got[j]);
                            assert(want.subrange(0, want.len() as int)[j] == want[j]);
                        }
                    }
                    assert(buf@ =~= before);
                } else {
                    assert(got =~= body.subrange(self.inner.offset as int, self.inner.offset + n)
                        + want.skip(n as int)) by {
                        assert forall|j: int| 0 <= j < want.len() implies got[j] == (body.subrange(
                            self.inner.offset as int,
                            self.inner.offset + n,
                        ) + want.skip(n as int))[j] by {
                            if j < n {
                                assert(got.subrange(0, n as int)[j] == got[j]);
                            } else {
                                assert(got.subrange(n as int, want.len() as int)[j - n] == got[j]);
                                assert(want.subrange(n as int, want.len() as int)[j - n] == want[j]);
                            }
                        }
                    }
                    assert(buf@ =~= before.update(i as int, got));
                }
            }
            if n == 0 {
                break ;
            }
            self.inner.offset = self.inner.offset + n as u64;
            total = total + n;
            i = i + 1;
        }
        total
    }

    /// Writes the bytes of `buf`, range after range, at the offset, and moves
    /// the offset behind them. Returns the number of bytes written: all of
    /// them, or none where the write cannot be carried out.
    pub fn write<D: BlockDevice>(&mut self, fs: &mut FAT32Manager<D>, buf: &UserBuffer) -> (total: usize)
        requires
            old(fs).wf(),
        ensures
            final(fs).wf(),
            final(fs).params() == old(fs).params(),
            old(self).after_write(
                old(fs).params(),
                old(fs).disk(),
                *final(self),
                final(fs).disk(),
                buf.bytes(),
                total as int,
            ),
    {
        let data = buf.gather();
        if self.inner.offset > u32::MAX as u64 {
            return 0;
        }
        match self.inner.inode.write_at(fs, self.inner.offset as usize, data.as_slice()) {
            Ok(n) => {
                self.inner.offset = self.inner.offset + n as u64;
                n
            },
            Err(_) => 0,
        }
    }
}

/// No body has more than 2^44 bytes.
pub proof fn lemma_body_len(disk: Disk, p: BootParams, chain: ClusterChain)
    requires
        crate::fat::volume_fits(disk, p),
    ensures
        chain.content(disk, p).len() <= 0x1000_0000_0000,
{
    let t = crate::fat::fat_table(disk, p);
    crate::chain::lemma_walk_basics(t, chain.first_cluster as int, t.len());
    crate::chain::lemma_stream_bound(p, chain.clusters(disk, p), t.len() as int);
}

/// The position of the first slash in `s`, or the length of `s` if it has
/// none.
pub open spec fn first_slash(s: Seq<u8>) -> int
    decreases s.len(),
{
    if s.len() == 0 || s[0] == 0x2F {
        0
    } else {
        1 + first_slash(s.skip(1))
    }
}

/// The first slash of `s` is at `k` if there is one there, or `s` ends there,
/// and there is none before.
pub proof fn lemma_first_slash(s: Seq<u8>, k: int)
    requires
        0 <= k <= s.len(),
        k < s.len() ==> s[k] == 0x2F,
        forall|j: int| 0 <= j < k ==> s[j] != 0x2F,
    ensures
        first_slash(s) == k,
    decreases k,
{
    if k > 0 {
        assert(s[0] != 0x2F);
        assert forall|j: int| 0 <= j < k - 1 implies s.skip(1)[j] != 0x2F by {
            assert(s.skip(1)[j] == s[j + 1]);
        }
        lemma_first_slash(s.skip(1), k - 1);
    }
}

/// The node that `path` leads to from the directory `dir`: the part of the
/// path before its first slash is looked up in the directory, and what is left
/// behind the slash, if anything, leads on from the node found.
#[verifier::opaque]
pub open spec fn resolve(dir: ClusterChain, disk: Disk, p: BootParams, path: Seq<u8>) -> Option<
    NodeView,
>
    decreases path.len(),
{
    let k = first_slash(path);
    match find_spec(dir, disk, p, path.take(k)) {
        None => None,
        Some(node) => if 0 <= k && k + 1 < path.len() {
            resolve(node.chain, disk, p, path.skip(k + 1))
        } else {
            Some(node)
        },
    }
}

/// One step of [`resolve`].
pub proof fn lemma_resolve_step(dir: ClusterChain, disk: Disk, p: BootParams, path: Seq<u8>)
    ensures
        resolve(dir, disk, p, path) == match find_spec(
            dir,
            disk,
            p,
            path.take(first_slash(path)),
        ) {
            None => None,
            Some(node) => if 0 <= first_slash(path) && first_slash(path) + 1 < path.len() {
                resolve(node.chain, disk, p, path.skip(first_slash(path) + 1))
            } else {
                Some(node)
            },
        },
{
    reveal(resolve);
}

/// The node that a search of the directory `dir` for `name` finds.
fn find_node<D: BlockDevice>(dir: &VFile, fs: &mut FAT32Manager<D>, name: &[u8]) -> (r: Option<VFile>)
    requires
        old(fs).wf(),
        dir.wf(),
    ensures
        final(fs).wf(),
        final(fs).disk() == old(fs).disk(),
        final(fs).params() == old(fs).params(),
        final(fs).cursor() == old(fs).cursor(),
        match r {
            Some(f) => f.wf() && find_spec(dir.chain, old(fs).disk(), old(fs).params(), name@)
                == Some(f@),
            None => find_spec(dir.chain, old(fs).disk(), old(fs).params(), name@) is None,
        },
{
    match dir.find_by_name(fs, name) {
        Ok(f) => Some(f),
        Err(_) => None,
    }
}

/// What [`open_file`] hands out and leaves behind. Without `CREATE` the file
/// is looked up. With it, a file that is there is cleared and handed out, and
/// one that is not is created with the archive attribute.
pub open spec fn opened(
    p: BootParams,
    d0: Disk,
    root0: OSInode,
    root1: OSInode,
    d1: Disk,
    name: Seq<u8>,
    flags: u32,
    r: Option<OSInode>,
) -> bool {
    let dir = root0.inner.inode@;
    let found = find_spec(dir.chain, d0, p, name);
    &&& root1.readable == root0.readable
    &&& root1.writable == root0.writable
    &&& root1.inner.offset == root0.inner.offset
    &&& r is Some ==> r->Some_0.readable && !r->Some_0.writable && r->Some_0.inner.offset == 0
        && r->Some_0.wf()
    &&& if flags & CREATE != CREATE {
        &&& d1 == d0
        &&& root1 == root0
        &&& match r {
            Some(f) => found is Some && f.inner.inode@ == found->Some_0,
            None => found is None,
        }
    } else if found is Some {
        &&& root1 == root0
        &&& r is Some
        &&& found->Some_0.cleared(p, d0, r->Some_0.inner.inode@, d1)
    } else {
        match r {
            Some(f) => dir.created(
                p,
                d0,
                root1.inner.inode@,
                d1,
                short_name(name),
                ATTRIBUTE_ARCHIVE,
                f.inner.inode@,
            ),
            None => !dir.can_create(d0, p, short_name(name)) && d1 == d0 && root1 == root0,
        }
    }
}

/// Opens the file `name` of the directory `root`. With `CREATE` among the
/// flags a file that is there is cleared, and one that is not is created.
/// `None` if the file is not there and is not, or cannot be, created.
///
/// The file handed out is readable and not writable, whatever the flags say.
pub fn open_file<D: BlockDevice>(
    root: &mut OSInode,
    fs: &mut FAT32Manager<D>,
    name: &str,
    flags: OpenFlags,
) -> (r: Option<OSInode>)
    requires
        old(fs).wf(),
        old(root).wf(),
    ensures
        final(fs).wf(),
        final(fs).params() == old(fs).params(),
        final(root).wf(),
        opened(
            old(fs).params(),
            old(fs).disk(),
            *old(root),
            *final(root),
            final(fs).disk(),
            name.spec_bytes(),
            flags@,
            r,
        ),
{
    if flags.contains(CREATE) {
        match root.find_inode(fs, name) {
            Some(inode) => {
                let mut inode = inode;
                inode.clear(fs);
                Some(inode)
            },
            None => root.create(fs, name, ATTRIBUTE_ARCHIVE),
        }
    } else {
        root.find_inode(fs, name)
    }
}

/// Follows `path`, a sequence of names parted by slashes, from the directory
/// `root`, and opens the node it leads to: readable, not writable. `None` if a
/// name on the way is not found, or is looked up in what is no directory.
pub fn find_osinode_by_path<D: BlockDevice>(root: &OSInode, fs: &mut FAT32Manager<D>, path: &str) -> (r:
    Option<OSInode>)
    requires
        old(fs).wf(),
        root.wf(),
    ensures
        final(fs).wf(),
        final(fs).disk() == old(fs).disk(),
        final(fs).params() == old(fs).params(),
        final(fs).cursor() == old(fs).cursor(),
        ({
            let target = resolve(
                root.inner.inode.chain,
                old(fs).disk(),
                old(fs).params(),
                path.spec_bytes(),
            );
            match r {
                Some(f) => target is Some && f.opens(target->Some_0),
                None => target is None,
            }
        }),
{
    let bytes = path.as_bytes();
    let n: usize = bytes.len();
    let ghost p = fs.params();
    let ghost d = fs.disk();
    let mut cur: VFile = root.get_vfile().duplicate();
    let mut start: usize = 0;
    assert(bytes@.skip(0) =~= bytes@);
    loop
        invariant
            fs.wf(),
            fs.disk() == d,
            fs.params() == p,
            fs.cursor() == old(fs).cursor(),
            d == old(fs).disk(),
            p == old(fs).params(),
            n == bytes@.len(),
            bytes@ == path.spec_bytes(),
            start <= n,
            cur.wf(),
            resolve(root.inner.inode.chain, d, p, bytes@) == resolve(
                cur.chain,
                d,
                p,
                bytes@.skip(start as int),
            ),
        decreases n - start,
    {
        let mut k: usize = start;
        while k < n && bytes[k] != 0x2F
            invariant
                start <= k <= n,
                n == bytes@.len(),
                forall|j: int| start <= j < k ==> bytes@[j] != 0x2F,
            decreases n - k,
        {
            k = k + 1;
        }
        let ghost rest = bytes@.skip(start as int);
        proof {
            assert forall|j: int| 0 <= j < k - start implies rest[j] != 0x2F by {
                assert(rest[j] == bytes@[start + j]);
            }
            lemma_first_slash(rest, k - start);
        }
        let segment = slice_subrange(bytes, start, k);
        assert(segment@ =~= rest.take(k - start));
        proof {
            lemma_resolve_step(cur.chain, d, p, rest);
        }
        match find_node(&cur, fs, segment) {
            None => {
                return None;
            },
            Some(node) => {
                if n - k <= 1 {
                    return Some(OSInode::new(true, false, node));
                }
                assert(rest.skip(k - start + 1) =~= bytes@.skip(k + 1));
                cur = node;
                start = k + 1;
            },
        }
    }
}

} // verus!
