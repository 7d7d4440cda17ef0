//! The block device below the engine, and a device held in memory.
use vstd::prelude::*;
use crate::error::FsError;
use crate::codec::{zeros, zero_bytes, copy_range, splice_into};

verus! {

/// Size in bytes of one device block (one sector).
pub const BLOCK_SZ: usize = 512;

/// A synchronous block device: an array of `BLOCK_SZ`-byte blocks.
///
/// The device is reliable: a transfer fails exactly when the block index lies
/// outside the device, and a failed transfer changes nothing.
pub trait BlockDevice: Sized {
    /// The content of every block, by index.
    spec fn blocks(&self) -> Seq<Seq<u8>>;

    /// The indices of the blocks written so far, oldest first.
    spec fn write_log(&self) -> Seq<usize>;

    /// The device's own consistency condition.
    spec fn inv(&self) -> bool;

    /// A consistent device holds whole blocks only, and no more than can be indexed.
    proof fn lemma_block_size(&self)
        requires
            self.inv(),
        ensures
            self.blocks().len() <= usize::MAX,
            forall|i: int|
                0 <= i < self.blocks().len() ==> (#[trigger] self.blocks()[i]).len() == BLOCK_SZ,
    ;

    /// The number of blocks on the device.
    fn num_blocks(&self) -> (n: usize)
        requires
            self.inv(),
        ensures
            n == self.blocks().len(),
    ;

    /// Returns a copy of block `index`.
    fn read_block(&self, index: usize) -> (r: Result<Vec<u8>, FsError>)
        requires
            self.inv(),
        ensures
            index < self.blocks().len() ==> r is Ok && r->Ok_0@ == self.blocks()[index as int],
            index >= self.blocks().len() ==> r == Err::<Vec<u8>, FsError>(FsError::DeviceIoError),
    ;

    /// Replaces block `index` by `data`.
    fn write_block(&mut self, index: usize, data: &[u8]) -> (r: Result<(), FsError>)
        requires
            old(self).inv(),
            data@.len() == BLOCK_SZ,
        ensures
            final(self).inv(),
            index < old(self).blocks().len() ==> {
                &&& r is Ok
                &&& final(self).blocks() == old(self).blocks().update(index as int, data@)
                &&& final(self).write_log() == old(self).write_log().push(index)
            },
            index >= old(self).blocks().len() ==> {
                &&& r == Err::<(), FsError>(FsError::DeviceIoError)
                &&& final(self).blocks() == old(self).blocks()
                &&& final(self).write_log() == old(self).write_log()
            },
    ;
}

/// A block device held in memory, which also records the order of its writes.
pub struct RamDisk {
    data: Vec<Vec<u8>>,
    writes: Vec<usize>,
}

impl RamDisk {
    /// A device of `num_blocks` zero-filled blocks and an empty write record.
    pub fn new(num_blocks: usize) -> (d: RamDisk)
        ensures
            d.inv(),
            d.write_log() == Seq::<usize>::empty(),
            d.blocks() == Seq::new(num_blocks as nat, |i: int| zeros(BLOCK_SZ as nat)),
    {
        let mut data: Vec<Vec<u8>> = Vec::new();
        let mut i: usize = 0;
        while i < num_blocks
            invariant
                i <= num_blocks,
                data@.len() == i,
                forall|j: int| 0 <= j < i ==> (#[trigger] data@[j])@ == zeros(BLOCK_SZ as nat),
            decreases num_blocks - i,
        {
            data.push(zero_bytes(BLOCK_SZ));
            i = i + 1;
        }
        let d = RamDisk { data, writes: Vec::new() };
        assert(d.blocks() =~= Seq::new(num_blocks as nat, |i: int| zeros(BLOCK_SZ as nat)));
        d
    }

    /// A device holding `image`, cut into blocks; a last partial block is
    /// zero-padded.
    pub fn from_image(image: &[u8]) -> (d: RamDisk)
        ensures
            d.inv(),
            d.write_log() == Seq::<usize>::empty(),
            d.blocks().len() == (image@.len() + BLOCK_SZ - 1) / (BLOCK_SZ as int),
            forall|b: int, i: int|
                0 <= b < d.blocks().len() && 0 <= i < BLOCK_SZ ==> (#[trigger] d.blocks()[b][i])
                    == (if b * BLOCK_SZ + i < image@.len() {
                    image@[b * BLOCK_SZ + i]
                } else {
                    0u8
                }),
    {
        let len: usize = image.len();
        let whole: usize = len / BLOCK_SZ;
        let count: usize = if len % BLOCK_SZ == 0 {
            whole
        } else {
            whole + 1
        };
        let mut data: Vec<Vec<u8>> = Vec::new();
        let mut b: usize = 0;
        while b < count
            invariant
                b <= count,
                len == image@.len(),
                count == (len + BLOCK_SZ - 1) / (BLOCK_SZ as int),
                data@.len() == b,
                forall|c: int| 0 <= c < b ==> (#[trigger] data@[c])@.len() == BLOCK_SZ,
                forall|c: int, i: int|
                    0 <= c < b && 0 <= i < BLOCK_SZ ==> (#[trigger] data@[c]@[i]) == (if c
                        * BLOCK_SZ + i < len {
                        image@[c * BLOCK_SZ + i]
                    } else {
                        0u8
                    }),
            decreases count - b,
        {
            let start: usize = b * BLOCK_SZ;
            let take: usize = if len - start < BLOCK_SZ {
                len - start
            } else {
                BLOCK_SZ
            };
            let mut block = zero_bytes(BLOCK_SZ);
            let chunk = copy_range(image, start, start + take);
            splice_into(&mut block, 0, chunk.as_slice());
            data.push(block);
            b = b + 1;
        }
        let d = RamDisk { data, writes: Vec::new() };
        assert forall|c: int, i: int| 0 <= c < d.blocks().len() && 0 <= i < BLOCK_SZ implies (
        #[trigger] d.blocks()[c][i]) == (if c * BLOCK_SZ + i < image@.len() {
            image@[c * BLOCK_SZ + i]
        } else {
            0u8
        }) by {
            assert(d.blocks()[c][i] == d.data@[c]@[i]);
        }
        d
    }

    /// The indices of the blocks written so far, oldest first.
    pub fn writes(&self) -> (w: &Vec<usize>)
        ensures
            w@ == self.write_log(),
    {
        &self.writes
    }

    /// All blocks, one after the other.
    pub fn to_image(&self) -> (image: Vec<u8>)
        requires
            self.inv(),
        ensures
            image@.len() == self.blocks().len() * BLOCK_SZ,
            forall|b: int, i: int|
                0 <= b < self.blocks().len() && 0 <= i < BLOCK_SZ ==> image@[b * BLOCK_SZ + i]
                    == #[trigger] self.blocks()[b][i],
    {
        let mut image: Vec<u8> = Vec::new();
        let mut b: usize = 0;
        while b < self.data.len()
            invariant
                self.inv(),
                b <= self.data@.len(),
                image@.len() == b * BLOCK_SZ,
                forall|c: int, i: int|
                    0 <= c < b && 0 <= i < BLOCK_SZ ==> image@[c * BLOCK_SZ + i]
                        == #[trigger] self.blocks()[c][i],
            decreases self.data@.len() - b,
        {
            let ghost before = image@;
            let mut i: usize = 0;
            while i < BLOCK_SZ
                invariant
                    self.inv(),
                    b < self.data@.len(),
                    i <= BLOCK_SZ,
                    image@.len() == b * BLOCK_SZ + i,
                    image@.subrange(0, b * BLOCK_SZ) == before,
                    before.len() == b * BLOCK_SZ,
                    forall|k: int| 0 <= k < i ==> image@[b * BLOCK_SZ + k] == self.data@[b as int]@[k],
                decreases BLOCK_SZ - i,
            {
                image.push(self.data[b][i]);
                i = i + 1;
                assert(image@.subrange(0, b * BLOCK_SZ) =~= before);
            }
            assert forall|c: int, i: int| 0 <= c < b + 1 && 0 <= i < BLOCK_SZ implies image@[c
                * BLOCK_SZ + i] == #[trigger] self.blocks()[c][i] by {
                if c < b {
                    assert(image@[c * BLOCK_SZ + i] == before[c * BLOCK_SZ + i]);
                }
            }
            b = b + 1;
        }
        image
    }
}

impl BlockDevice for RamDisk {
    open spec fn blocks(&self) -> Seq<Seq<u8>> {
        self.block_seq()
    }

    open spec fn write_log(&self) -> Seq<usize> {
        self.write_seq()
    }

    open spec fn inv(&self) -> bool {
        self.whole_blocks()
    }

    proof fn lemma_block_size(&self) {
        assert(self.data@.len() == self.data.len());
    }

    fn num_blocks(&self) -> (n: usize) {
        self.data.len()
    }

    fn read_block(&self, index: usize) -> (r: Result<Vec<u8>, FsError>) {
        if index < self.data.len() {
            let block = copy_range(self.data[index].as_slice(), 0, BLOCK_SZ);
            assert(block@ =~= self.blocks()[index as int]);
            Ok(block)
        } else {
            Err(FsError::DeviceIoError)
        }
    }

    fn write_block(&mut self, index: usize, data: &[u8]) -> (r: Result<(), FsError>) {
        if index < self.data.len() {
            let block = copy_range(data, 0, BLOCK_SZ);
            self.data.set(index, block);
            self.writes.push(index);
            assert(data@.subrange(0, BLOCK_SZ as int) =~= data@);
            assert(self.blocks() =~= old(self).blocks().update(index as int, data@));
            Ok(())
        } else {
            Err(FsError::DeviceIoError)
        }
    }
}

impl RamDisk {
    /// The blocks held, as byte sequences.
    pub closed spec fn block_seq(&self) -> Seq<Seq<u8>> {
        Seq::new(self.data@.len(), |i: int| self.data@[i]@)
    }

    /// The write record as a sequence.
    pub closed spec fn write_seq(&self) -> Seq<usize> {
        self.writes@
    }

    /// Every block held has `BLOCK_SZ` bytes.
    pub closed spec fn whole_blocks(&self) -> bool {
        forall|i: int| 0 <= i < self.data@.len() ==> (#[trigger] self.data@[i])@.len() == BLOCK_SZ
    }
}

} // verus!
