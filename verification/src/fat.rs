//! The allocation table: entries, the search for a free cluster, and the
//! release of a chain.
use vstd::prelude::*;
use crate::error::FsError;
use crate::block_dev::{BlockDevice, BLOCK_SZ};
use crate::block_cache::BlockCache;
use crate::codec::{le32, le32_bytes, read_le32, push_le32, splice, lemma_le_round_trip};
use crate::layout::{BootParams, ENTRY_MODULUS, END_OF_CHAIN, FREE_CLUSTER};

verus! {

/// The logical content of a volume: every sector, by index.
pub type Disk = Seq<Seq<u8>>;

/// The disk has whole sectors and holds the volume that `p` describes.
pub open spec fn volume_fits(disk: Disk, p: BootParams) -> bool {
    &&& p.geometry_ok()
    &&& p.total_sectors <= disk.len()
    &&& forall|s: int| 0 <= s < disk.len() ==> (#[trigger] disk[s]).len() == BLOCK_SZ
}

/// The first sector of allocation-table copy `copy`.
pub open spec fn table_start(p: BootParams, copy: int) -> int {
    p.reserved_sectors + copy * p.sectors_per_fat
}

/// The sector that holds entry `c` of table copy `copy`.
pub open spec fn entry_sector(p: BootParams, copy: int, c: int) -> int {
    table_start(p, copy) + (4 * c) / 512
}

/// The offset of entry `c` in its sector.
pub open spec fn entry_offset(c: int) -> int {
    (4 * c) % 512
}

/// The 32 bits stored for entry `c` in table copy `copy`.
pub open spec fn raw_entry(disk: Disk, p: BootParams, copy: int, c: int) -> int {
    le32(disk[entry_sector(p, copy, c)], entry_offset(c))
}

/// Table copy `copy`, 32 bits to the entry.
pub open spec fn raw_table(disk: Disk, p: BootParams, copy: int) -> Seq<int> {
    Seq::new(p.entries() as nat, |c: int| raw_entry(disk, p, copy, c))
}

/// Table copy `copy`, the low 28 bits of each entry.
pub open spec fn copy_table(disk: Disk, p: BootParams, copy: int) -> Seq<u32> {
    Seq::new(
        p.entries() as nat,
        |c: int| (raw_entry(disk, p, copy, c) % (ENTRY_MODULUS as int)) as u32,
    )
}

/// The allocation table: the low 28 bits of each entry of the first copy.
pub open spec fn fat_table(disk: Disk, p: BootParams) -> Seq<u32> {
    copy_table(disk, p, 0)
}

/// Every copy of the table holds what the first holds.
#[verifier::opaque]
pub open spec fn mirrored(disk: Disk, p: BootParams) -> bool {
    forall|k: int| 0 <= k < p.fat_count ==> #[trigger] copy_table(disk, p, k) == fat_table(disk, p)
}

/// Every copy of the table on `after` is the copy on `before` with entry `c`
/// set to `value`.
#[verifier::opaque]
pub open spec fn copies_set(after: Disk, before: Disk, p: BootParams, c: int, value: u32) -> bool {
    forall|k: int|
        0 <= k < p.fat_count ==> #[trigger] copy_table(after, p, k) == copy_table(before, p, k).update(
            c,
            value,
        )
}

/// Copies that agreed and had the same entry set agree still.
pub proof fn lemma_copies_set(after: Disk, before: Disk, p: BootParams, c: int, value: u32)
    requires
        copies_set(after, before, p, c, value),
        p.fat_count >= 1,
    ensures
        fat_table(after, p) == fat_table(before, p).update(c, value),
        mirrored(before, p) ==> mirrored(after, p),
{
    reveal(copies_set);
    reveal(mirrored);
    assert(copy_table(after, p, 0) == copy_table(before, p, 0).update(c, value));
    if mirrored(before, p) {
        assert forall|k: int| 0 <= k < p.fat_count implies #[trigger] copy_table(after, p, k)
            == fat_table(after, p) by {
            assert(copy_table(before, p, k) == fat_table(before, p));
        }
    }
}

/// The sectors of the allocation tables are the same on both disks.
pub open spec fn same_tables(a: Disk, b: Disk, p: BootParams) -> bool {
    &&& a.len() == b.len()
    &&& forall|s: int| p.reserved_sectors <= s < p.data_start() ==> #[trigger] a[s] == b[s]
}

/// Disks with the same table sectors hold the same tables, copy by copy.
pub proof fn lemma_same_tables(a: Disk, b: Disk, p: BootParams)
    requires
        p.geometry_ok(),
        same_tables(a, b, p),
    ensures
        fat_table(a, p) == fat_table(b, p),
        forall|k: int| 0 <= k < p.fat_count ==> #[trigger] copy_table(a, p, k) == copy_table(b, p, k),
        mirrored(b, p) ==> mirrored(a, p),
{
    reveal(mirrored);
    assert forall|k: int| 0 <= k < p.fat_count implies #[trigger] copy_table(a, p, k) == copy_table(
        b,
        p,
        k,
    ) by {
        assert forall|c: int| 0 <= c < p.entries() implies raw_entry(a, p, k, c) == raw_entry(
            b,
            p,
            k,
            c,
        ) by {
            lemma_entry_sector(p, k, c);
        }
        assert(copy_table(a, p, k) =~= copy_table(b, p, k));
    }
}

/// The 32 bits stored when `value` is written over `old_raw`: the low 28 bits
/// are those of `value`, the reserved top four stay.
pub open spec fn merge_entry(old_raw: int, value: u32) -> int {
    old_raw - old_raw % (ENTRY_MODULUS as int) + value % ENTRY_MODULUS
}

/// The sectors outside the allocation tables are the same on both disks.
pub open spec fn same_outside_tables(a: Disk, b: Disk, p: BootParams) -> bool {
    &&& a.len() == b.len()
    &&& forall|s: int|
        0 <= s < a.len() && !(p.reserved_sectors <= s < p.data_start()) ==> #[trigger] a[s] == b[s]
}

/// The table copies lie one behind the other, before the data region.
pub proof fn lemma_table_start(p: BootParams, j: int, k: int)
    requires
        p.geometry_ok(),
        0 <= j <= k < p.fat_count,
    ensures
        p.reserved_sectors <= table_start(p, j),
        j < k ==> table_start(p, j) + p.sectors_per_fat <= table_start(p, k),
        table_start(p, k) + p.sectors_per_fat <= p.data_start(),
        p.data_start() < p.total_sectors,
{
    let s = p.sectors_per_fat as int;
    let f = p.fat_count as int;
    assert(0 <= j * s && (j < k ==> j * s + s <= k * s) && k * s + s <= f * s) by (nonlinear_arith)
        requires
            0 <= j <= k < f,
            0 <= s,
    ;
}

/// Every entry lies inside its own table copy.
pub proof fn lemma_entry_sector(p: BootParams, k: int, c: int)
    requires
        p.geometry_ok(),
        0 <= k < p.fat_count,
        0 <= c < p.entries(),
    ensures
        table_start(p, k) <= entry_sector(p, k, c) < table_start(p, k) + p.sectors_per_fat,
        p.reserved_sectors <= entry_sector(p, k, c) < p.data_start(),
        entry_sector(p, k, c) < p.total_sectors,
        0 <= entry_offset(c) <= 508,
{
    lemma_table_start(p, k, k);
    lemma_table_start(p, 0, k);
}

/// Storing four bytes at the place of entry `c` in copy `k` changes that entry
/// of that copy and nothing else on the disk.
pub proof fn lemma_store_entry(disk: Disk, p: BootParams, k: int, c: int, bytes: Seq<u8>)
    requires
        volume_fits(disk, p),
        0 <= k < p.fat_count,
        0 <= c < p.entries(),
        bytes.len() == 4,
    ensures
        ({
            let s = entry_sector(p, k, c);
            let after = disk.update(s, splice(disk[s], entry_offset(c), bytes));
            &&& volume_fits(after, p)
            &&& same_outside_tables(after, disk, p)
            &&& raw_table(after, p, k) == raw_table(disk, p, k).update(c, le32(bytes, 0))
            &&& forall|j: int|
                0 <= j < p.fat_count && j != k ==> raw_table(after, p, j) == raw_table(disk, p, j)
        }),
{
    let s = entry_sector(p, k, c);
    let off = entry_offset(c);
    let after = disk.update(s, splice(disk[s], off, bytes));
    lemma_entry_sector(p, k, c);
    assert(after[s].len() == BLOCK_SZ);
    assert forall|j: int, d: int| 0 <= j < p.fat_count && 0 <= d < p.entries() && !(j == k && d
        == c) implies raw_entry(after, p, j, d) == raw_entry(disk, p, j, d) by {
        lemma_entry_sector(p, j, d);
        let s2 = entry_sector(p, j, d);
        if s2 == s {
            if j < k {
                lemma_table_start(p, j, k);
            } else if k < j {
                lemma_table_start(p, k, j);
            }
            assert(j == k);
            assert((4 * d) / 512 == (4 * c) / 512);
            let o2 = entry_offset(d);
            assert(o2 + 4 <= off || off + 4 <= o2);
            assert(after[s][o2] == disk[s][o2]);
            assert(after[s][o2 + 1] == disk[s][o2 + 1]);
            assert(after[s][o2 + 2] == disk[s][o2 + 2]);
            assert(after[s][o2 + 3] == disk[s][o2 + 3]);
        }
    }
    assert(raw_entry(after, p, k, c) == le32(bytes, 0)) by {
        assert(after[s][off] == bytes[0]);
        assert(after[s][off + 1] == bytes[1]);
        assert(after[s][off + 2] == bytes[2]);
        assert(after[s][off + 3] == bytes[3]);
    }
    assert(raw_table(after, p, k) =~= raw_table(disk, p, k).update(c, le32(bytes, 0)));
    assert forall|j: int| 0 <= j < p.fat_count && j != k implies raw_table(after, p, j)
        == raw_table(disk, p, j) by {
        assert(raw_table(after, p, j) =~= raw_table(disk, p, j));
    }
}

/// `c` is the first free entry of `t` in `[lo, hi)`.
pub open spec fn is_first_free(t: Seq<u32>, lo: int, hi: int, c: int) -> bool {
    &&& lo <= c < hi
    &&& t[c] == FREE_CLUSTER
    &&& forall|d: int| lo <= d < c ==> #[trigger] t[d] != FREE_CLUSTER
}

/// No entry of `t` in `[lo, hi)` is free.
pub open spec fn none_free(t: Seq<u32>, lo: int, hi: int) -> bool {
    forall|d: int| lo <= d < hi ==> #[trigger] t[d] != FREE_CLUSTER
}

/// `c` is the free cluster that a search from `cursor` finds first: the first
/// from the cursor to the end of the table, or else the first before it.
pub open spec fn is_next_free(t: Seq<u32>, cursor: int, c: int) -> bool {
    ||| is_first_free(t, cursor, t.len() as int, c)
    ||| (none_free(t, cursor, t.len() as int) && is_first_free(t, 2, cursor, c))
}

/// The number of free clusters among the entries of `t` below `hi`.
pub open spec fn free_below(t: Seq<u32>, hi: int) -> nat
    decreases hi,
{
    if hi <= 2 {
        0
    } else {
        free_below(t, hi - 1) + if t[hi - 1] == FREE_CLUSTER {
            1nat
        } else {
            0nat
        }
    }
}

/// The number of free clusters of `t`.
pub open spec fn free_count(t: Seq<u32>) -> nat {
    free_below(t, t.len() as int)
}

/// The table after the chain that starts at `c` has been released: each entry
/// visited is set free, and the walk goes on from what the entry held. It stops
/// at a value that numbers no cluster, and after `fuel` entries at the latest.
pub open spec fn released(t: Seq<u32>, c: int, fuel: nat) -> Seq<u32>
    decreases fuel,
{
    if fuel == 0 || !(2 <= c < t.len()) {
        t
    } else {
        released(t.update(c, FREE_CLUSTER), t[c] as int, (fuel - 1) as nat)
    }
}

/// The allocation table of a volume, with the cursor from which the search for
/// a free cluster starts.
pub struct FAT {
    params: BootParams,
    cursor: u32,
}

impl FAT {
    pub closed spec fn params(&self) -> BootParams {
        self.params
    }

    pub closed spec fn cursor(&self) -> int {
        self.cursor as int
    }

    /// The geometry is sound and the cursor points at a cluster.
    pub open spec fn wf(&self) -> bool {
        &&& self.params().geometry_ok()
        &&& self.params().is_cluster(self.cursor())
    }

    /// The table is well-formed and `cache` is ready to serve the volume.
    pub open spec fn mounted<D: BlockDevice>(&self, cache: &BlockCache<D>) -> bool {
        &&& self.wf()
        &&& cache.ready()
        &&& self.params().total_sectors <= cache@.device.len()
    }

    /// The allocation table as `disk` holds it.
    pub open spec fn table(&self, disk: Disk) -> Seq<u32> {
        fat_table(disk, self.params())
    }

    pub proof fn lemma_mounted<D: BlockDevice>(&self, cache: &BlockCache<D>)
        requires
            self.mounted(cache),
        ensures
            volume_fits(cache@.disk(), self.params()),
            cache@.wf(),
            self.table(cache@.disk()).len() == self.params().entries(),
    {
        cache.lemma_wf();
        cache@.lemma_disk_blocks();
    }

    /// The table of a volume with geometry `params`; the search for free
    /// clusters starts at the first cluster.
    pub fn new(params: BootParams) -> (fat: FAT)
        requires
            params.geometry_ok(),
        ensures
            fat.wf(),
            fat.params() == params,
            fat.cursor() == 2,
    {
        FAT { params, cursor: 2 }
    }

    /// The volume's geometry.
    pub fn boot_params(&self) -> (p: BootParams)
        requires
            self.wf(),
        ensures
            p == self.params(),
            p.geometry_ok(),
    {
        self.params
    }

    /// The number of entries in the table.
    pub fn entry_count(&self) -> (n: u32)
        requires
            self.wf(),
        ensures
            n == self.params().entries(),
    {
        self.params.entry_count()
    }

    /// The number of sectors in a cluster.
    pub fn sectors_per_cluster(&self) -> (n: u8)
        requires
            self.wf(),
        ensures
            n == self.params().sectors_per_cluster,
            n >= 1,
    {
        self.params.sectors_per_cluster
    }

    /// The first sector of cluster `c`: `None` unless `c` numbers a cluster of
    /// the data region.
    pub fn cluster_to_sector(&self, c: u32) -> (r: Option<usize>)
        requires
            self.wf(),
        ensures
            self.params().is_cluster(c as int) ==> r == Some(
                self.params().sector_of(c as int) as usize,
            ) && self.params().sector_of(c as int) + self.params().sectors_per_cluster
                <= self.params().total_sectors,
            !self.params().is_cluster(c as int) ==> r is None,
    {
        self.params.cluster_to_sector(c)
    }

    /// The size of a cluster in bytes.
    pub fn cluster_size(&self) -> (n: usize)
        requires
            self.wf(),
        ensures
            n == self.params().cluster_bytes(),
    {
        self.params.cluster_size()
    }

    /// The sector of entry `c` in table copy `copy`.
    fn locate(&self, copy: u8, c: u32) -> (r: (usize, usize))
        requires
            self.wf(),
            copy < self.params().fat_count,
            c < self.params().entries(),
        ensures
            r.0 == entry_sector(self.params(), copy as int, c as int),
            r.1 == entry_offset(c as int),
            r.0 < self.params().total_sectors,
            r.1 + 4 <= BLOCK_SZ,
    {
        proof {
            lemma_entry_sector(self.params, copy as int, c as int);
            lemma_table_start(self.params, copy as int, copy as int);
        }
        let k: u64 = copy as u64;
        let spf: u64 = self.params.sectors_per_fat as u64;
        assert(k * spf == (copy as int) * (self.params.sectors_per_fat as int));
        let pos: u64 = 4 * (c as u64);
        let sector: u64 = self.params.reserved_sectors as u64 + k * spf + pos / 512;
        (sector as usize, (pos % 512) as usize)
    }

    /// The 32 bits stored for entry `c` in table copy `copy`.
    fn read_raw<D: BlockDevice>(&self, cache: &mut BlockCache<D>, copy: u8, c: u32) -> (raw: u32)
        requires
            self.mounted(old(cache)),
            copy < self.params().fat_count,
            c < self.params().entries(),
        ensures
            self.mounted(final(cache)),
            final(cache)@.disk() == old(cache)@.disk(),
            final(cache)@.device.len() == old(cache)@.device.len(),
            raw == raw_entry(old(cache)@.disk(), self.params(), copy as int, c as int),
    {
        let (sector, off) = self.locate(copy, c);
        proof {
            self.lemma_mounted(cache);
        }
        match cache.read_bytes(sector, off, 4) {
            Ok(bytes) => {
                proof {
                    let b = old(cache)@.disk()[sector as int];
                    assert(bytes@[0] == b[off as int] && bytes@[1] == b[off + 1] && bytes@[2] == b[off
                        + 2] && bytes@[3] == b[off + 3]);
                }
                read_le32(bytes.as_slice(), 0)
            },
            Err(_) => unreached(),
        }
    }

    /// The value of entry `cluster`: its low 28 bits.
    ///
    /// Fails with `InvalidFilesystem` if the table has no such entry.
    pub fn read_entry<D: BlockDevice>(&self, cache: &mut BlockCache<D>, cluster: u32) -> (r: Result<
        u32,
        FsError,
    >)
        requires
            self.mounted(old(cache)),
        ensures
            self.mounted(final(cache)),
            final(cache)@.disk() == old(cache)@.disk(),
            final(cache)@.device.len() == old(cache)@.device.len(),
            cluster < self.params().entries() ==> r == Ok::<u32, FsError>(
                self.table(old(cache)@.disk())[cluster as int],
            ),
            cluster >= self.params().entries() ==> r == Err::<u32, FsError>(
                FsError::InvalidFilesystem,
            ),
    {
        if cluster >= self.entry_count() {
            return Err(FsError::InvalidFilesystem);
        }
        let raw = self.read_raw(cache, 0, cluster);
        Ok(raw % ENTRY_MODULUS)
    }

    /// Sets entry `cluster` to the low 28 bits of `value`, in every copy of the
    /// table. The reserved top four bits of the entry stay as they are.
    ///
    /// Fails with `InvalidFilesystem`, changing nothing, if the table has no
    /// such entry.
    pub fn write_entry<D: BlockDevice>(
        &self,
        cache: &mut BlockCache<D>,
        cluster: u32,
        value: u32,
    ) -> (r: Result<(), FsError>)
        requires
            self.mounted(old(cache)),
        ensures
            self.mounted(final(cache)),
            final(cache)@.device.len() == old(cache)@.device.len(),
            cluster < self.params().entries() ==> {
                &&& r is Ok
                &&& same_outside_tables(final(cache)@.disk(), old(cache)@.disk(), self.params())
                &&& forall|k: int|
                    0 <= k < self.params().fat_count ==> #[trigger] raw_table(
                        final(cache)@.disk(),
                        self.params(),
                        k,
                    ) == raw_table(old(cache)@.disk(), self.params(), k).update(
                        cluster as int,
                        merge_entry(
                            raw_entry(old(cache)@.disk(), self.params(), k, cluster as int),
                            value,
                        ),
                    )
                &&& copies_set(
                    final(cache)@.disk(),
                    old(cache)@.disk(),
                    self.params(),
                    cluster as int,
                    value % ENTRY_MODULUS,
                )
                &&& self.table(final(cache)@.disk()) == self.table(old(cache)@.disk()).update(
                    cluster as int,
                    value % ENTRY_MODULUS,
                )
                &&& mirrored(old(cache)@.disk(), self.params()) ==> mirrored(
                    final(cache)@.disk(),
                    self.params(),
                )
            },
            cluster >= self.params().entries() ==> {
                &&& r == Err::<(), FsError>(FsError::InvalidFilesystem)
                &&& final(cache)@.disk() == old(cache)@.disk()
            },
    {
        if cluster >= self.entry_count() {
            return Err(FsError::InvalidFilesystem);
        }
        let ghost p = self.params;
        let ghost d0 = cache@.disk();
        let ghost c = cluster as int;
        proof {
            self.lemma_mounted(cache);
        }
        let mut k: u8 = 0;
        while k < self.params.fat_count
            invariant
                self.mounted(cache),
                p == self.params(),
                c == cluster as int,
                c < p.entries(),
                k <= p.fat_count,
                volume_fits(d0, p),
                volume_fits(cache@.disk(), p),
                cache@.device.len() == old(cache)@.device.len(),
                same_outside_tables(cache@.disk(), d0, p),
                forall|j: int|
                    0 <= j < k ==> #[trigger] raw_table(cache@.disk(), p, j) == raw_table(
                        d0,
                        p,
                        j,
                    ).update(c, merge_entry(raw_entry(d0, p, j, c), value)),
                forall|j: int|
                    k <= j < p.fat_count ==> #[trigger] raw_table(cache@.disk(), p, j) == raw_table(
                        d0,
                        p,
                        j,
                    ),
            decreases p.fat_count - k,
        {
            let ghost d1 = cache@.disk();
            let old_raw: u32 = self.read_raw(cache, k, cluster);
            assert(old_raw == raw_entry(d0, p, k as int, c)) by {
                assert(raw_table(d1, p, k as int)[c] == raw_table(d0, p, k as int)[c]);
            }
            let new_raw: u32 = old_raw - old_raw % ENTRY_MODULUS + value % ENTRY_MODULUS;
            let mut bytes: Vec<u8> = Vec::new();
            push_le32(&mut bytes, new_raw);
            let (sector, off) = self.locate(k, cluster);
            proof {
                lemma_le_round_trip(0, new_raw);
                assert(bytes@ =~= le32_bytes(new_raw));
                lemma_store_entry(d1, p, k as int, c, bytes@);
            }
            let _ = cache.write_bytes(sector, off, bytes.as_slice());
            proof {
                let d2 = cache@.disk();
                assert forall|j: int| 0 <= j < k + 1 implies #[trigger] raw_table(d2, p, j)
                    == raw_table(d0, p, j).update(c, merge_entry(raw_entry(d0, p, j, c), value)) by {
                    if j < k {
                        assert(raw_table(d2, p, j) == raw_table(d1, p, j));
                    }
                }
                assert forall|j: int| k + 1 <= j < p.fat_count implies #[trigger] raw_table(d2, p, j)
                    == raw_table(d0, p, j) by {
                    assert(raw_table(d2, p, j) == raw_table(d1, p, j));
                }
            }
            k = k + 1;
        }
        proof {
            let d2 = cache@.disk();
            assert forall|k: int| 0 <= k < p.fat_count implies #[trigger] copy_table(d2, p, k)
                == copy_table(d0, p, k).update(c, value % ENTRY_MODULUS) by {
                assert(raw_table(d2, p, k) == raw_table(d0, p, k).update(
                    c,
                    merge_entry(raw_entry(d0, p, k, c), value),
                ));
                assert(copy_table(d2, p, k) =~= copy_table(d0, p, k).update(
                    c,
                    value % ENTRY_MODULUS,
                )) by {
                    assert forall|e: int| 0 <= e < p.entries() implies copy_table(d2, p, k)[e]
                        == copy_table(d0, p, k).update(c, value % ENTRY_MODULUS)[e] by {
                        assert(raw_entry(d2, p, k, e) == raw_table(d2, p, k)[e]);
                        assert(raw_entry(d0, p, k, e) == raw_table(d0, p, k)[e]);
                    }
                }
            }
            assert(copies_set(d2, d0, p, c, value % ENTRY_MODULUS)) by {
                reveal(copies_set);
            }
            lemma_copies_set(d2, d0, p, c, value % ENTRY_MODULUS);
        }
        Ok(())
    }

    /// The first free cluster in `[lo, hi)`, if there is one.
    fn scan<D: BlockDevice>(&self, cache: &mut BlockCache<D>, lo: u32, hi: u32) -> (r: Option<u32>)
        requires
            self.mounted(old(cache)),
            2 <= lo <= hi <= self.params().entries(),
        ensures
            self.mounted(final(cache)),
            final(cache)@.disk() == old(cache)@.disk(),
            final(cache)@.device.len() == old(cache)@.device.len(),
            match r {
                Some(c) => is_first_free(self.table(old(cache)@.disk()), lo as int, hi as int, c as int),
                None => none_free(self.table(old(cache)@.disk()), lo as int, hi as int),
            },
    {
        let ghost t = self.table(cache@.disk());
        let mut c: u32 = lo;
        while c < hi
            invariant
                self.mounted(cache),
                cache@.disk() == old(cache)@.disk(),
                cache@.device.len() == old(cache)@.device.len(),
                t == self.table(cache@.disk()),
                lo <= c <= hi <= self.params().entries(),
                none_free(t, lo as int, c as int),
            decreases hi - c,
        {
            let raw = self.read_raw(cache, 0, c);
            if raw % ENTRY_MODULUS == FREE_CLUSTER {
                return Some(c);
            }
            c = c + 1;
        }
        None
    }

    /// Finds the first free cluster from the cursor on, going round to the
    /// start of the table at its end, marks it as the end of a chain, and
    /// returns it. The cursor moves behind the cluster found.
    ///
    /// Fails with `OutOfSpace`, changing nothing, if no cluster is free.
    pub fn alloc_free_cluster<D: BlockDevice>(&mut self, cache: &mut BlockCache<D>) -> (r: Result<
        u32,
        FsError,
    >)
        requires
            old(self).mounted(old(cache)),
        ensures
            final(self).mounted(final(cache)),
            final(self).params() == old(self).params(),
            final(cache)@.device.len() == old(cache)@.device.len(),
            same_outside_tables(final(cache)@.disk(), old(cache)@.disk(), old(self).params()),
            mirrored(old(cache)@.disk(), old(self).params()) ==> mirrored(
                final(cache)@.disk(),
                old(self).params(),
            ),
            match r {
                Ok(c) => {
                    &&& is_next_free(old(self).table(old(cache)@.disk()), old(self).cursor(), c as int)
                    &&& final(self).table(final(cache)@.disk()) == old(self).table(
                        old(cache)@.disk(),
                    ).update(c as int, END_OF_CHAIN)
                    &&& final(self).cursor() == if c + 1 < old(self).params().entries() {
                        c + 1
                    } else {
                        2
                    }
                    &&& copies_set(
                        final(cache)@.disk(),
                        old(cache)@.disk(),
                        old(self).params(),
                        c as int,
                        END_OF_CHAIN,
                    )
                },
                Err(e) => {
                    &&& e == FsError::OutOfSpace
                    &&& none_free(
                        old(self).table(old(cache)@.disk()),
                        2,
                        old(self).params().entries(),
                    )
                    &&& final(cache)@.disk() == old(cache)@.disk()
                    &&& final(self).cursor() == old(self).cursor()
                },
            },
    {
        let n: u32 = self.entry_count();
        let ghost t = self.table(cache@.disk());
        proof {
            self.lemma_mounted(cache);
        }
        let found = match self.scan(cache, self.cursor, n) {
            Some(c) => Some(c),
            None => self.scan(cache, 2, self.cursor),
        };
        match found {
            Some(c) => {
                let _ = self.write_entry(cache, c, END_OF_CHAIN);
                self.cursor = if c + 1 < n {
                    c + 1
                } else {
                    2
                };
                Ok(c)
            },
            None => {
                assert forall|d: int| 2 <= d < n implies #[trigger] t[d] != FREE_CLUSTER by {
                    if d < self.cursor {
                    }
                }
                Err(FsError::OutOfSpace)
            },
        }
    }

    /// The number of free clusters.
    pub fn count_free<D: BlockDevice>(&self, cache: &mut BlockCache<D>) -> (count: u32)
        requires
            self.mounted(old(cache)),
        ensures
            self.mounted(final(cache)),
            final(cache)@.disk() == old(cache)@.disk(),
            final(cache)@.device.len() == old(cache)@.device.len(),
            count == free_count(self.table(old(cache)@.disk())),
            count <= self.params().entries() - 2,
    {
        let n: u32 = self.entry_count();
        let ghost t = self.table(cache@.disk());
        let mut count: u32 = 0;
        let mut c: u32 = 2;
        while c < n
            invariant
                self.mounted(cache),
                cache@.disk() == old(cache)@.disk(),
                cache@.device.len() == old(cache)@.device.len(),
                t == self.table(cache@.disk()),
                n == self.params().entries(),
                2 <= c <= n,
                count == free_below(t, c as int),
                count <= c - 2,
            decreases n - c,
        {
            let raw = self.read_raw(cache, 0, c);
            if raw % ENTRY_MODULUS == FREE_CLUSTER {
                count = count + 1;
            }
            c = c + 1;
        }
        count
    }

    /// Releases the chain that starts at `start`: follows the next-pointers and
    /// sets every entry visited free, in the order of the walk. A `start` that
    /// numbers no cluster releases nothing.
    pub fn free_chain<D: BlockDevice>(&self, cache: &mut BlockCache<D>, start: u32)
        requires
            self.mounted(old(cache)),
        ensures
            self.mounted(final(cache)),
            final(cache)@.device.len() == old(cache)@.device.len(),
            same_outside_tables(final(cache)@.disk(), old(cache)@.disk(), self.params()),
            self.table(final(cache)@.disk()) == released(
                self.table(old(cache)@.disk()),
                start as int,
                self.params().entries() as nat,
            ),
            mirrored(old(cache)@.disk(), self.params()) ==> mirrored(
                final(cache)@.disk(),
                self.params(),
            ),
    {
        let n: u32 = self.entry_count();
        let ghost t0 = self.table(cache@.disk());
        let ghost d0 = cache@.disk();
        proof {
            self.lemma_mounted(cache);
        }
        let mut cur: u32 = start;
        let mut left: u32 = n;
        while left > 0 && 2 <= cur && cur < n
            invariant
                self.mounted(cache),
                n == self.params().entries(),
                cache@.device.len() == old(cache)@.device.len(),
                same_outside_tables(cache@.disk(), d0, self.params()),
                self.table(cache@.disk()).len() == n,
                mirrored(d0, self.params()) ==> mirrored(cache@.disk(), self.params()),
                released(t0, start as int, n as nat) == released(
                    self.table(cache@.disk()),
                    cur as int,
                    left as nat,
                ),
            decreases left,
        {
            let ghost t = self.table(cache@.disk());
            let next = match self.read_entry(cache, cur) {
                Ok(v) => v,
                Err(_) => unreached(),
            };
            let _ = self.write_entry(cache, cur, FREE_CLUSTER);
            assert(self.table(cache@.disk()) == t.update(cur as int, FREE_CLUSTER));
            cur = next;
            left = left - 1;
        }
    }
}

} // verus!
