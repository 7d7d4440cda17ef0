//! The mounted volume.
use vstd::prelude::*;
use crate::error::FsError;
use crate::block_dev::{BlockDevice, BLOCK_SZ};
use crate::block_cache::{BlockCache, CacheView};
use crate::codec::splice;
use crate::layout::{BootParams, DIRENT_SZ, boot_sector_ok, boot_params_of, parse_boot_params};
use crate::fat::{Disk, FAT, fat_table, volume_fits, same_outside_tables, free_count, released, mirrored};
use crate::chain::{ClusterChain, same_but, table_ok};

verus! {

/// The number of cache slots of a manager opened with [`FAT32Manager::open`].
pub const CACHE_CAPACITY: usize = 64;

/// A volume can be mounted from `blocks` with a cache of `capacity` slots.
pub open spec fn mountable(blocks: Disk, capacity: nat) -> bool {
    &&& capacity > 0
    &&& blocks.len() > 0
    &&& boot_sector_ok(blocks[0])
    &&& boot_params_of(blocks[0]).geometry_ok()
    &&& boot_params_of(blocks[0]).total_sectors <= blocks.len()
}

/// Why a volume cannot be mounted.
pub open spec fn mount_error(blocks: Disk, capacity: nat) -> FsError {
    if blocks.len() == 0 {
        FsError::DeviceIoError
    } else if capacity == 0 {
        FsError::CacheExhausted
    } else {
        FsError::InvalidFilesystem
    }
}

/// A place for a directory record: `offset` bytes into cluster `cluster`.
pub open spec fn record_ok(p: BootParams, cluster: int, offset: int) -> bool {
    &&& p.is_cluster(cluster)
    &&& 0 <= offset
    &&& offset % (DIRENT_SZ as int) == 0
    &&& offset + DIRENT_SZ <= p.cluster_bytes()
}

/// The sector that holds the record at `offset` in cluster `cluster`.
pub open spec fn record_sector(p: BootParams, cluster: int, offset: int) -> int {
    p.sector_of(cluster) + offset / 512
}

/// The 32 bytes of the record at `offset` in cluster `cluster`.
pub open spec fn record_at(disk: Disk, p: BootParams, cluster: int, offset: int) -> Seq<u8> {
    disk[record_sector(p, cluster, offset)].subrange(offset % 512, offset % 512 + DIRENT_SZ)
}

/// The disk with `bytes` stored as the record at `offset` in cluster `cluster`.
pub open spec fn with_record(disk: Disk, p: BootParams, cluster: int, offset: int, bytes: Seq<u8>) -> Disk {
    disk.update(
        record_sector(p, cluster, offset),
        splice(disk[record_sector(p, cluster, offset)], offset % 512, bytes),
    )
}

/// A mounted FAT32 volume: the one cache and the one allocation table through
/// which every file and directory of the volume is reached.
pub struct FAT32Manager<D: BlockDevice> {
    cache: BlockCache<D>,
    fat: FAT,
}

impl<D: BlockDevice> FAT32Manager<D> {
    /// The cache is ready and the geometry fits the device.
    pub closed spec fn wf(&self) -> bool {
        self.fat.mounted(&self.cache)
    }

    /// The volume's sectors as seen through the cache.
    pub closed spec fn disk(&self) -> Disk {
        self.cache@.disk()
    }

    /// The volume's geometry.
    pub closed spec fn params(&self) -> BootParams {
        self.fat.params()
    }

    /// Where the next search for a free cluster starts.
    pub closed spec fn cursor(&self) -> int {
        self.fat.cursor()
    }

    /// The state of the cache and of the device below it.
    pub closed spec fn cache_view(&self) -> CacheView {
        self.cache@
    }

    /// The allocation table.
    pub open spec fn table(&self) -> Seq<u32> {
        fat_table(self.disk(), self.params())
    }

    pub proof fn lemma_wf(&self)
        requires
            self.wf(),
        ensures
            volume_fits(self.disk(), self.params()),
            self.table().len() == self.params().entries(),
            table_ok(self.table()),
            self.disk() == self.cache_view().disk(),
            self.cache_view().wf(),
            self.cache_view().idle(),
            self.params().is_cluster(self.cursor()),
    {
        self.fat.lemma_mounted(&self.cache);
    }

    /// Mounts the volume on `device`, with a cache of [`CACHE_CAPACITY`] slots.
    ///
    /// Fails with `InvalidFilesystem` if the boot sector does not pass
    /// validation or describes a volume that this engine cannot serve or that
    /// the device cannot hold, and with `DeviceIoError` if the device has no
    /// block at all.
    pub fn open(device: D) -> (r: Result<Self, FsError>)
        requires
            device.inv(),
        ensures
            match r {
                Ok(fs) => {
                    &&& mountable(device.blocks(), CACHE_CAPACITY as nat)
                    &&& fs.wf()
                    &&& fs.params() == boot_params_of(device.blocks()[0])
                    &&& fs.disk() == device.blocks()
                    &&& fs.cursor() == 2
                    &&& fs.cache_view().capacity == CACHE_CAPACITY
                    &&& fs.cache_view().device == device.blocks()
                    &&& fs.cache_view().log == device.write_log()
                    &&& fs.cache_view().clean()
                },
                Err(e) => !mountable(device.blocks(), CACHE_CAPACITY as nat) && e == mount_error(
                    device.blocks(),
                    CACHE_CAPACITY as nat,
                ),
            },
    {
        Self::open_with_capacity(device, CACHE_CAPACITY)
    }

    /// Mounts the volume on `device`, with a cache of `capacity` slots.
    ///
    /// Fails as [`Self::open`] does, and with `CacheExhausted` if `capacity` is
    /// zero.
    pub fn open_with_capacity(device: D, capacity: usize) -> (r: Result<Self, FsError>)
        requires
            device.inv(),
        ensures
            match r {
                Ok(fs) => {
                    &&& mountable(device.blocks(), capacity as nat)
                    &&& fs.wf()
                    &&& fs.params() == boot_params_of(device.blocks()[0])
                    &&& fs.disk() == device.blocks()
                    &&& fs.cursor() == 2
                    &&& fs.cache_view().capacity == capacity
                    &&& fs.cache_view().device == device.blocks()
                    &&& fs.cache_view().log == device.write_log()
                    &&& fs.cache_view().clean()
                },
                Err(e) => !mountable(device.blocks(), capacity as nat) && e == mount_error(
                    device.blocks(),
                    capacity as nat,
                ),
            },
    {
        let mut cache = BlockCache::new(device, capacity);
        proof {
            cache.lemma_wf();
            cache@.lemma_disk_blocks();
        }
        let blocks: usize = cache.num_blocks();
        if blocks == 0 {
            return Err(FsError::DeviceIoError);
        }
        if capacity == 0 {
            return Err(FsError::CacheExhausted);
        }
        let raw = match cache.read_bytes(0, 0, BLOCK_SZ) {
            Ok(raw) => raw,
            Err(e) => {
                return Err(e);
            },
        };
        assert(raw@ =~= device.blocks()[0]);
        let params = match parse_boot_params(raw.as_slice()) {
            Ok(p) => p,
            Err(e) => {
                return Err(e);
            },
        };
        if !params.check_geometry() || params.total_sectors as usize > blocks {
            return Err(FsError::InvalidFilesystem);
        }
        Ok(FAT32Manager { cache, fat: FAT::new(params) })
    }

    /// Writes every dirty buffer of the cache to the device, in ascending order
    /// of block index. Afterwards the device holds the volume as the cache shows
    /// it, and no slot is dirty.
    pub fn sync_all(&mut self)
        requires
            old(self).wf(),
        ensures
            final(self).wf(),
            final(self).disk() == old(self).disk(),
            final(self).params() == old(self).params(),
            final(self).cursor() == old(self).cursor(),
            final(self).cache_view().clean(),
            final(self).cache_view().device == old(self).disk(),
            forall|i: int|
                0 <= i < final(self).cache_view().slots.len() ==> (
                #[trigger] final(self).cache_view().slots[i]).data == final(self).cache_view().device[final(self).cache_view().slots[i].block as int],
            old(self).cache_view().log.len() <= final(self).cache_view().log.len(),
            final(self).cache_view().log.subrange(0, old(self).cache_view().log.len() as int) == old(
                self,
            ).cache_view().log,
            old(self).cache_view().lists_dirty_ascending(
                final(self).cache_view().log.subrange(
                    old(self).cache_view().log.len() as int,
                    final(self).cache_view().log.len() as int,
                ),
            ),
    {
        proof {
            self.fat.lemma_mounted(&self.cache);
        }
        self.cache.sync_all();
        proof {
            let a = old(self).cache_view();
            let b = self.cache_view();
            assert forall|i: int| 0 <= i < b.slots.len() implies !(#[trigger] b.slots[i]).pinned by {
                assert(!a.slots[i].pinned);
            }
            assert(a.device.len() == a.disk().len());
        }
    }

    /// Whether the device holds the volume as the cache shows it: no slot is
    /// dirty.
    pub fn is_clean(&self) -> (r: bool)
        ensures
            r == self.cache_view().clean(),
    {
        self.cache.is_clean()
    }

    /// Unmounts the volume: makes it durable and gives the device up.
    pub fn into_device(self) -> (dev: D)
        requires
            self.wf(),
        ensures
            dev.inv(),
            dev.blocks() == self.disk(),
    {
        proof {
            self.fat.lemma_mounted(&self.cache);
        }
        self.cache.into_device()
    }

    /// The volume's geometry.
    pub fn boot_params(&self) -> (p: BootParams)
        requires
            self.wf(),
        ensures
            p == self.params(),
            p.geometry_ok(),
    {
        self.fat.boot_params()
    }

    /// The value of entry `cluster` of the allocation table.
    ///
    /// Fails with `InvalidFilesystem` if the table has no such entry.
    pub fn read_entry(&mut self, cluster: u32) -> (r: Result<u32, FsError>)
        requires
            old(self).wf(),
        ensures
            final(self).wf(),
            final(self).disk() == old(self).disk(),
            final(self).params() == old(self).params(),
            final(self).cursor() == old(self).cursor(),
            cluster < old(self).params().entries() ==> r == Ok::<u32, FsError>(
                old(self).table()[cluster as int],
            ),
            cluster >= old(self).params().entries() ==> r == Err::<u32, FsError>(
                FsError::InvalidFilesystem,
            ),
    {
        self.fat.read_entry(&mut self.cache, cluster)
    }

    /// The number of free clusters.
    pub fn free_clusters(&mut self) -> (n: u32)
        requires
            old(self).wf(),
        ensures
            final(self).wf(),
            final(self).disk() == old(self).disk(),
            final(self).params() == old(self).params(),
            final(self).cursor() == old(self).cursor(),
            n == free_count(old(self).table()),
    {
        self.fat.count_free(&mut self.cache)
    }

    /// Reads up to `len` bytes of `chain` from `offset` on.
    pub fn read_chain(&mut self, chain: &ClusterChain, offset: u64, len: usize) -> (out: Vec<u8>)
        requires
            old(self).wf(),
        ensures
            final(self).wf(),
            final(self).disk() == old(self).disk(),
            final(self).params() == old(self).params(),
            final(self).cursor() == old(self).cursor(),
            ({
                let body = chain.content(old(self).disk(), old(self).params());
                let lo = if offset <= body.len() {
                    offset as int
                } else {
                    body.len() as int
                };
                let hi = if offset + len <= body.len() {
                    offset + len
                } else {
                    body.len() as int
                };
                out@ == body.subrange(lo, hi)
            }),
    {
        chain.read_at(&self.fat, &mut self.cache, offset, len)
    }

    /// Writes `data` into `chain` at `offset`: see [`ClusterChain::write_at`].
    pub fn write_chain(&mut self, chain: &mut ClusterChain, offset: usize, data: &[u8]) -> (r: Result<
        usize,
        FsError,
    >)
        requires
            old(self).wf(),
        ensures
            final(self).wf(),
            final(self).params() == old(self).params(),
            final(chain).is_dir == old(chain).is_dir,
            ({
                let p = old(self).params();
                let d0 = old(self).disk();
                let d1 = final(self).disk();
                let s0 = old(chain).clusters(d0, p);
                let s1 = final(chain).clusters(d1, p);
                let len = data@.len();
                match r {
                    Ok(n) => {
                        &&& n == len
                        &&& old(chain).wrote(p, d0, *final(chain), d1, offset as int, data@)
                        &&& same_but(d1, d0, p, s1)
                    },
                    Err(e) => {
                        &&& d1 == d0
                        &&& *final(chain) == *old(chain)
                        &&& final(self).cursor() == old(self).cursor()
                        &&& !old(chain).valid(d0, p) ==> e == FsError::InvalidFilesystem
                        &&& old(chain).valid(d0, p) ==> e == FsError::OutOfSpace && !old(
                            chain,
                        ).write_fits(d0, p, offset as int, len as int)
                    },
                }
            }),
    {
        chain.write_at(&mut self.fat, &mut self.cache, offset, data)
    }

    /// Releases `chain` and makes it empty: see [`ClusterChain::clear`].
    pub fn clear_chain(&mut self, chain: &mut ClusterChain)
        requires
            old(self).wf(),
        ensures
            final(self).wf(),
            final(self).params() == old(self).params(),
            final(self).cursor() == old(self).cursor(),
            *final(chain) == (ClusterChain { first_cluster: 0, size: 0, is_dir: old(chain).is_dir }),
            same_outside_tables(final(self).disk(), old(self).disk(), old(self).params()),
            final(self).table() == released(
                old(self).table(),
                old(chain).first_cluster as int,
                old(self).params().entries() as nat,
            ),
            old(chain).valid(old(self).disk(), old(self).params()) ==> free_count(final(self).table())
                == free_count(old(self).table()) + old(chain).clusters(
                old(self).disk(),
                old(self).params(),
            ).len(),
            mirrored(old(self).disk(), old(self).params()) ==> mirrored(
                final(self).disk(),
                old(self).params(),
            ),
    {
        chain.clear(&self.fat, &mut self.cache)
    }

    /// The number of clusters of `chain` and the last of them (zero for an
    /// empty chain), or `None` if the chain is not sound.
    pub fn measure_chain(&mut self, chain: &ClusterChain) -> (r: Option<(u32, u32)>)
        requires
            old(self).wf(),
        ensures
            final(self).wf(),
            final(self).disk() == old(self).disk(),
            final(self).params() == old(self).params(),
            final(self).cursor() == old(self).cursor(),
            r is Some <==> chain.valid(old(self).disk(), old(self).params()),
            r is Some ==> {
                let s = chain.clusters(old(self).disk(), old(self).params());
                &&& r->Some_0.0 == s.len()
                &&& s.len() > 0 ==> r->Some_0.1 == s.last()
                &&& s.len() == 0 ==> r->Some_0.1 == 0
            },
    {
        chain.measure(&self.fat, &mut self.cache)
    }

    /// Whether `probe` is one of the clusters of `chain`.
    pub fn chain_meets(&mut self, chain: &ClusterChain, probe: u32) -> (r: bool)
        requires
            old(self).wf(),
        ensures
            final(self).wf(),
            final(self).disk() == old(self).disk(),
            final(self).params() == old(self).params(),
            final(self).cursor() == old(self).cursor(),
            r == chain.clusters(old(self).disk(), old(self).params()).contains(probe as int),
    {
        chain.meets(&self.fat, &mut self.cache, probe)
    }

    /// The cluster of `chain` that is `index` steps from its first: `None` if the
    /// chain has no such cluster.
    pub fn cluster_of(&mut self, chain: &ClusterChain, index: u64) -> (r: Option<u32>)
        requires
            old(self).wf(),
        ensures
            final(self).wf(),
            final(self).disk() == old(self).disk(),
            final(self).params() == old(self).params(),
            final(self).cursor() == old(self).cursor(),
            index < chain.clusters(old(self).disk(), old(self).params()).len() ==> r == Some(
                chain.clusters(old(self).disk(), old(self).params())[index as int] as u32,
            ),
            index >= chain.clusters(old(self).disk(), old(self).params()).len() ==> r is None,
    {
        chain.cluster_at(&self.fat, &mut self.cache, index)
    }

    /// The place in sector and offset of the record at `offset` in `cluster`.
    fn locate_record(&self, cluster: u32, offset: u32) -> (r: Option<(usize, usize)>)
        requires
            self.wf(),
        ensures
            record_ok(self.params(), cluster as int, offset as int) ==> r == Some(
                (
                    record_sector(self.params(), cluster as int, offset as int) as usize,
                    (offset % 512) as usize,
                ),
            ) && record_sector(self.params(), cluster as int, offset as int)
                < self.params().total_sectors,
            !record_ok(self.params(), cluster as int, offset as int) ==> r is None,
    {
        let cb: usize = self.fat.cluster_size();
        proof {
            self.fat.params().lemma_geometry();
        }
        if offset % 32 != 0 || offset as u64 + 32 > cb as u64 {
            return None;
        }
        match self.fat.cluster_to_sector(cluster) {
            None => None,
            Some(base) => {
                let within: usize = (offset / 512) as usize;
                Some((base + within, (offset % 512) as usize))
            },
        }
    }

    /// A copy of the directory record at `offset` in cluster `cluster`.
    ///
    /// Fails with `InvalidFilesystem` if that is no place for a record.
    pub fn load_record(&mut self, cluster: u32, offset: u32) -> (r: Result<Vec<u8>, FsError>)
        requires
            old(self).wf(),
        ensures
            final(self).wf(),
            final(self).disk() == old(self).disk(),
            final(self).params() == old(self).params(),
            final(self).cursor() == old(self).cursor(),
            match r {
                Ok(bytes) => record_ok(old(self).params(), cluster as int, offset as int) && bytes@
                    == record_at(old(self).disk(), old(self).params(), cluster as int, offset as int),
                Err(e) => !record_ok(old(self).params(), cluster as int, offset as int) && e
                    == FsError::InvalidFilesystem,
            },
    {
        proof {
            self.fat.lemma_mounted(&self.cache);
        }
        match self.locate_record(cluster, offset) {
            None => Err(FsError::InvalidFilesystem),
            Some((sector, off)) => {
                match self.cache.read_bytes(sector, off, DIRENT_SZ) {
                    Ok(bytes) => Ok(bytes),
                    Err(_) => unreached(),
                }
            },
        }
    }

    /// Stores `bytes` as the directory record at `offset` in cluster `cluster`.
    ///
    /// Fails with `InvalidFilesystem`, changing nothing, if that is no place
    /// for a record or `bytes` are not 32.
    pub fn store_record(&mut self, cluster: u32, offset: u32, bytes: &[u8]) -> (r: Result<
        (),
        FsError,
    >)
        requires
            old(self).wf(),
        ensures
            final(self).wf(),
            final(self).params() == old(self).params(),
            final(self).cursor() == old(self).cursor(),
            match r {
                Ok(_) => {
                    &&& record_ok(old(self).params(), cluster as int, offset as int)
                    &&& bytes@.len() == DIRENT_SZ
                    &&& final(self).disk() == with_record(
                        old(self).disk(),
                        old(self).params(),
                        cluster as int,
                        offset as int,
                        bytes@,
                    )
                },
                Err(e) => {
                    &&& !(record_ok(old(self).params(), cluster as int, offset as int) && bytes@.len()
                        == DIRENT_SZ)
                    &&& e == FsError::InvalidFilesystem
                    &&& final(self).disk() == old(self).disk()
                },
            },
    {
        proof {
            self.fat.lemma_mounted(&self.cache);
        }
        if bytes.len() != DIRENT_SZ {
            return Err(FsError::InvalidFilesystem);
        }
        match self.locate_record(cluster, offset) {
            None => Err(FsError::InvalidFilesystem),
            Some((sector, off)) => {
                match self.cache.write_bytes(sector, off, bytes) {
                    Ok(_) => Ok(()),
                    Err(_) => unreached(),
                }
            },
        }
    }
}

} // verus!
