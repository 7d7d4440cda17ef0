//! The structures on disk: the geometry in the boot sector, directory
//! records, and stored names.
use vstd::prelude::*;
use crate::error::FsError;
use crate::block_dev::BLOCK_SZ;
use crate::codec::{le16, le32, le16_bytes, le32_bytes, read_le16, read_le32, push_le16, push_le32, copy_range, zero_bytes, zeros, append_bytes};

verus! {

/// Size in bytes of one directory record.
pub const DIRENT_SZ: usize = 32;

/// Length of the name field of a directory record: eight bytes of base name and
/// three of extension.
pub const SHORT_NAME_LEN: usize = 11;

pub const ATTRIBUTE_READ_ONLY: u8 = 0x01;

pub const ATTRIBUTE_HIDDEN: u8 = 0x02;

pub const ATTRIBUTE_SYSTEM: u8 = 0x04;

pub const ATTRIBUTE_VOLUME_ID: u8 = 0x08;

pub const ATTRIBUTE_DIRECTORY: u8 = 0x10;

pub const ATTRIBUTE_ARCHIVE: u8 = 0x20;

/// First name byte of a record whose slot may be reused.
pub const DELETED_MARK: u8 = 0xE5;

/// First name byte of the record that ends a directory.
pub const END_MARK: u8 = 0x00;

/// Allocation-table value of a free cluster.
pub const FREE_CLUSTER: u32 = 0;

/// Allocation-table value of a bad cluster.
pub const BAD_CLUSTER: u32 = 0x0FFF_FFF7;

/// The least allocation-table value that ends a chain.
pub const END_OF_CHAIN_MIN: u32 = 0x0FFF_FFF8;

/// The allocation-table value written to end a chain.
pub const END_OF_CHAIN: u32 = 0x0FFF_FFFF;

/// An allocation-table entry is 32 bits wide, of which the low 28 count.
pub const ENTRY_MODULUS: u32 = 0x1000_0000;

/// The volume geometry, as recorded in the boot sector.
#[derive(Clone, Copy, Debug, PartialEq, Eq, Structural)]
pub struct BootParams {
    pub bytes_per_sector: u16,
    pub sectors_per_cluster: u8,
    pub reserved_sectors: u16,
    pub fat_count: u8,
    pub sectors_per_fat: u32,
    pub root_cluster: u32,
    pub total_sectors: u32,
}

pub open spec fn is_power_of_two(x: u8) -> bool {
    x == 1 || x == 2 || x == 4 || x == 8 || x == 16 || x == 32 || x == 64 || x == 128
}

/// The boot sector carries its signature and passes the sanity checks.
pub open spec fn boot_sector_ok(raw: Seq<u8>) -> bool {
    &&& raw.len() == BLOCK_SZ
    &&& raw[510] == 0x55
    &&& raw[511] == 0xAA
    &&& le16(raw, 11) != 0
    &&& is_power_of_two(raw[13])
}

/// The geometry fields at their conventional offsets.
pub open spec fn boot_params_of(raw: Seq<u8>) -> BootParams {
    BootParams {
        bytes_per_sector: le16(raw, 11) as u16,
        sectors_per_cluster: raw[13],
        reserved_sectors: le16(raw, 14) as u16,
        fat_count: raw[16],
        sectors_per_fat: le32(raw, 36) as u32,
        root_cluster: le32(raw, 44) as u32,
        total_sectors: le32(raw, 32) as u32,
    }
}

/// The boot sector that records the geometry `p`: the fields at their
/// conventional offsets, the signature, and zero everywhere else.
pub open spec fn encode_boot(p: BootParams) -> Seq<u8> {
    zeros(11) + le16_bytes(p.bytes_per_sector) + seq![p.sectors_per_cluster] + le16_bytes(
        p.reserved_sectors,
    ) + seq![p.fat_count] + zeros(15) + le32_bytes(p.total_sectors) + le32_bytes(p.sectors_per_fat)
        + zeros(4) + le32_bytes(p.root_cluster) + zeros(462) + seq![0x55u8, 0xAAu8]
}

/// Decoding an encoded boot sector yields the geometry, and the sector passes
/// the checks exactly if the geometry does.
pub proof fn lemma_boot_round_trip(p: BootParams)
    ensures
        encode_boot(p).len() == BLOCK_SZ,
        boot_params_of(encode_boot(p)) == p,
        boot_sector_ok(encode_boot(p)) <==> (p.bytes_per_sector != 0 && is_power_of_two(
            p.sectors_per_cluster,
        )),
{
    let b = encode_boot(p);
    assert(b.len() == 512);
    assert(b[11] == le16_bytes(p.bytes_per_sector)[0] && b[12] == le16_bytes(p.bytes_per_sector)[1]);
    assert(b[13] == p.sectors_per_cluster);
    assert(b[14] == le16_bytes(p.reserved_sectors)[0] && b[15] == le16_bytes(p.reserved_sectors)[1]);
    assert(b[16] == p.fat_count);
    assert(b[32] == le32_bytes(p.total_sectors)[0] && b[33] == le32_bytes(p.total_sectors)[1] && b[34]
        == le32_bytes(p.total_sectors)[2] && b[35] == le32_bytes(p.total_sectors)[3]);
    assert(b[36] == le32_bytes(p.sectors_per_fat)[0] && b[37] == le32_bytes(p.sectors_per_fat)[1]
        && b[38] == le32_bytes(p.sectors_per_fat)[2] && b[39] == le32_bytes(p.sectors_per_fat)[3]);
    assert(b[44] == le32_bytes(p.root_cluster)[0] && b[45] == le32_bytes(p.root_cluster)[1] && b[46]
        == le32_bytes(p.root_cluster)[2] && b[47] == le32_bytes(p.root_cluster)[3]);
    assert(b[510] == 0x55 && b[511] == 0xAA);
    assert(le16(b, 11) == p.bytes_per_sector);
    assert(le16(b, 14) == p.reserved_sectors);
    assert(le32(b, 32) == p.total_sectors);
    assert(le32(b, 36) == p.sectors_per_fat);
    assert(le32(b, 44) == p.root_cluster);
}

/// Decodes the geometry from a raw boot sector.
///
/// Fails with `InvalidFilesystem` unless the sector has 512 bytes, ends in the
/// signature `55 AA`, states a non-zero sector size and a power-of-two number
/// of sectors per cluster.
pub fn parse_boot_params(raw_sector: &[u8]) -> (r: Result<BootParams, FsError>)
    ensures
        boot_sector_ok(raw_sector@) ==> r == Ok::<BootParams, FsError>(
            boot_params_of(raw_sector@),
        ),
        !boot_sector_ok(raw_sector@) ==> r == Err::<BootParams, FsError>(
            FsError::InvalidFilesystem,
        ),
{
    if raw_sector.len() != BLOCK_SZ {
        return Err(FsError::InvalidFilesystem);
    }
    if raw_sector[510] != 0x55 || raw_sector[511] != 0xAA {
        return Err(FsError::InvalidFilesystem);
    }
    let bytes_per_sector: u16 = read_le16(raw_sector, 11);
    let sectors_per_cluster: u8 = raw_sector[13];
    if bytes_per_sector == 0 || !power_of_two(sectors_per_cluster) {
        return Err(FsError::InvalidFilesystem);
    }
    Ok(
        BootParams {
            bytes_per_sector,
            sectors_per_cluster,
            reserved_sectors: read_le16(raw_sector, 14),
            fat_count: raw_sector[16],
            sectors_per_fat: read_le32(raw_sector, 36),
            root_cluster: read_le32(raw_sector, 44),
            total_sectors: read_le32(raw_sector, 32),
        },
    )
}

fn power_of_two(x: u8) -> (r: bool)
    ensures
        r == is_power_of_two(x),
{
    x == 1 || x == 2 || x == 4 || x == 8 || x == 16 || x == 32 || x == 64 || x == 128
}

impl BootParams {
    /// The first sector of the data region.
    pub open spec fn data_start(self) -> int {
        self.reserved_sectors + self.fat_count * self.sectors_per_fat
    }

    /// The number of clusters in the data region.
    pub open spec fn cluster_count(self) -> int {
        (self.total_sectors - self.data_start()) / (self.sectors_per_cluster as int)
    }

    /// The number of allocation-table entries in use: one per cluster, after the
    /// two reserved ones.
    pub open spec fn entries(self) -> int {
        self.cluster_count() + 2
    }

    /// The size of a cluster in bytes.
    pub open spec fn cluster_bytes(self) -> int {
        self.sectors_per_cluster * BLOCK_SZ
    }

    /// `c` numbers a cluster of the data region.
    pub open spec fn is_cluster(self, c: int) -> bool {
        2 <= c < self.entries()
    }

    /// The first sector of cluster `c`.
    pub open spec fn sector_of(self, c: int) -> int {
        self.data_start() + (c - 2) * self.sectors_per_cluster
    }

    /// The geometry describes a volume this engine can serve: 512-byte sectors,
    /// at least one allocation table, a data region of at least one cluster,
    /// tables large enough for every cluster, and a root directory inside the
    /// data region.
    pub open spec fn geometry_ok(self) -> bool {
        &&& self.bytes_per_sector == BLOCK_SZ
        &&& is_power_of_two(self.sectors_per_cluster)
        &&& self.reserved_sectors >= 1
        &&& self.fat_count >= 1
        &&& self.sectors_per_fat >= 1
        &&& self.data_start() < self.total_sectors
        &&& self.cluster_count() >= 1
        &&& self.entries() <= BAD_CLUSTER
        &&& self.entries() * 4 <= self.sectors_per_fat * BLOCK_SZ
        &&& self.is_cluster(self.root_cluster as int)
    }

    /// The data region lies behind the tables and within the volume.
    pub proof fn lemma_geometry(self)
        requires
            self.geometry_ok(),
        ensures
            self.data_start() == self.reserved_sectors + self.fat_count * self.sectors_per_fat,
            self.sectors_per_fat <= self.fat_count * self.sectors_per_fat <= 255
                * self.sectors_per_fat,
            1 <= self.cluster_count(),
            self.data_start() + self.cluster_count() * self.sectors_per_cluster
                <= self.total_sectors,
            self.cluster_count() <= self.total_sectors,
            BLOCK_SZ <= self.cluster_bytes() <= 128 * BLOCK_SZ,
            self.cluster_bytes() % (DIRENT_SZ as int) == 0,
    {
        let f = self.fat_count as int;
        let s = self.sectors_per_fat as int;
        let k = self.sectors_per_cluster as int;
        let d = self.total_sectors - self.data_start();
        assert(s <= f * s <= 255 * s) by (nonlinear_arith)
            requires
                1 <= f <= 255,
                0 <= s,
        ;
        assert((d / k) * k <= d && d / k <= d) by (nonlinear_arith)
            requires
                1 <= k,
                0 <= d,
        ;
    }

    /// Clusters occupy disjoint runs of sectors inside the data region.
    pub proof fn lemma_sector_of(self, c: int)
        requires
            self.geometry_ok(),
            self.is_cluster(c),
        ensures
            self.data_start() <= self.sector_of(c),
            self.sector_of(c) + self.sectors_per_cluster <= self.total_sectors,
            self.sector_of(c + 1) == self.sector_of(c) + self.sectors_per_cluster,
            forall|d: int|
                c < d ==> self.sector_of(c) + self.sectors_per_cluster <= #[trigger] self.sector_of(
                    d,
                ),
    {
        let k = self.sectors_per_cluster as int;
        let n = self.cluster_count();
        self.lemma_geometry();
        assert(0 <= (c - 2) * k && (c - 2) * k + k <= n * k && (c + 1 - 2) * k == (c - 2) * k + k)
            by (nonlinear_arith)
            requires
                1 <= k,
                0 <= c - 2 < n,
        ;
        assert forall|d: int| c < d implies self.sector_of(c) + self.sectors_per_cluster
            <= #[trigger] self.sector_of(d) by {
            assert((c - 2) * k + k <= (d - 2) * k) by (nonlinear_arith)
                requires
                    1 <= k,
                    c < d,
            ;
        }
    }

    /// A boot sector that records the geometry: the fields at their
    /// conventional offsets, the signature, and zero everywhere else.
    pub fn encode(&self) -> (raw: Vec<u8>)
        ensures
            raw@ == encode_boot(*self),
            raw@.len() == BLOCK_SZ,
            boot_params_of(raw@) == *self,
            boot_sector_ok(raw@) <==> (self.bytes_per_sector != 0 && is_power_of_two(
                self.sectors_per_cluster,
            )),
    {
        let mut raw: Vec<u8> = zero_bytes(11);
        push_le16(&mut raw, self.bytes_per_sector);
        raw.push(self.sectors_per_cluster);
        push_le16(&mut raw, self.reserved_sectors);
        raw.push(self.fat_count);
        append_bytes(&mut raw, zero_bytes(15).as_slice());
        push_le32(&mut raw, self.total_sectors);
        push_le32(&mut raw, self.sectors_per_fat);
        append_bytes(&mut raw, zero_bytes(4).as_slice());
        push_le32(&mut raw, self.root_cluster);
        append_bytes(&mut raw, zero_bytes(462).as_slice());
        raw.push(0x55);
        raw.push(0xAA);
        proof {
            assert(raw@ =~= encode_boot(*self));
            lemma_boot_round_trip(*self);
        }
        raw
    }

    /// The first sector of the data region.
    pub fn data_start_sector(&self) -> (s: u64)
        ensures
            s == self.data_start(),
    {
        let f: u64 = self.fat_count as u64;
        let n: u64 = self.sectors_per_fat as u64;
        assert(f * n <= 255 * 0xFFFF_FFFF) by (nonlinear_arith)
            requires
                0 <= f <= 255,
                0 <= n <= 0xFFFF_FFFF,
        ;
        self.reserved_sectors as u64 + f * n
    }

    /// Whether the geometry describes a volume this engine can serve.
    pub fn check_geometry(&self) -> (ok: bool)
        ensures
            ok == self.geometry_ok(),
    {
        if self.bytes_per_sector as usize != BLOCK_SZ || !power_of_two(self.sectors_per_cluster)
            || self.reserved_sectors < 1 || self.fat_count < 1 || self.sectors_per_fat < 1 {
            return false;
        }
        let start: u64 = self.data_start_sector();
        if start >= self.total_sectors as u64 {
            return false;
        }
        let clusters: u64 = (self.total_sectors as u64 - start) / (self.sectors_per_cluster as u64);
        if clusters < 1 || clusters + 2 > BAD_CLUSTER as u64 {
            return false;
        }
        if (clusters + 2) * 4 > (self.sectors_per_fat as u64) * 512 {
            return false;
        }
        2 <= self.root_cluster && (self.root_cluster as u64) < clusters + 2
    }

    /// The number of allocation-table entries in use.
    pub fn entry_count(&self) -> (n: u32)
        requires
            self.geometry_ok(),
        ensures
            n == self.entries(),
    {
        let start: u64 = self.data_start_sector();
        let clusters: u64 = (self.total_sectors as u64 - start) / (self.sectors_per_cluster as u64);
        (clusters + 2) as u32
    }

    /// The size of a cluster in bytes.
    pub fn cluster_size(&self) -> (n: usize)
        requires
            self.geometry_ok(),
        ensures
            n == self.cluster_bytes(),
    {
        (self.sectors_per_cluster as usize) * BLOCK_SZ
    }

    /// The first sector of cluster `c`: `None` unless `c` numbers a cluster of
    /// the data region.
    pub fn cluster_to_sector(&self, c: u32) -> (r: Option<usize>)
        requires
            self.geometry_ok(),
        ensures
            self.is_cluster(c as int) ==> r == Some(self.sector_of(c as int) as usize)
                && self.sector_of(c as int) + self.sectors_per_cluster <= self.total_sectors,
            !self.is_cluster(c as int) ==> r is None,
    {
        if c < 2 || c >= self.entry_count() {
            return None;
        }
        proof {
            self.lemma_sector_of(c as int);
            self.lemma_geometry();
        }
        let k: u64 = self.sectors_per_cluster as u64;
        let i: u64 = (c - 2) as u64;
        assert(i * k == (c - 2) * self.sectors_per_cluster);
        let s: u64 = self.data_start_sector() + i * k;
        Some(s as usize)
    }
}

/// The mathematical content of a directory record, field by field.
pub struct EntryView {
    pub name: Seq<u8>,
    pub attribute: u8,
    pub nt_reserved: u8,
    pub create_tenth: u8,
    pub create_time: u16,
    pub create_date: u16,
    pub access_date: u16,
    pub first_cluster: u32,
    pub write_time: u16,
    pub write_date: u16,
    pub size: u32,
}

/// The 32 bytes that record `e` on disk.
pub open spec fn encode_entry(e: EntryView) -> Seq<u8> {
    e.name + seq![e.attribute, e.nt_reserved, e.create_tenth] + le16_bytes(e.create_time)
        + le16_bytes(e.create_date) + le16_bytes(e.access_date) + le16_bytes(
        (e.first_cluster / 65536) as u16,
    ) + le16_bytes(e.write_time) + le16_bytes(e.write_date) + le16_bytes(
        (e.first_cluster % 65536) as u16,
    ) + le32_bytes(e.size)
}

/// The record that 32 bytes spell.
pub open spec fn decode_entry(b: Seq<u8>) -> EntryView {
    EntryView {
        name: b.subrange(0, SHORT_NAME_LEN as int),
        attribute: b[11],
        nt_reserved: b[12],
        create_tenth: b[13],
        create_time: le16(b, 14) as u16,
        create_date: le16(b, 16) as u16,
        access_date: le16(b, 18) as u16,
        first_cluster: (le16(b, 20) * 65536 + le16(b, 26)) as u32,
        write_time: le16(b, 22) as u16,
        write_date: le16(b, 24) as u16,
        size: le32(b, 28) as u32,
    }
}

impl EntryView {
    pub open spec fn wf(self) -> bool {
        self.name.len() == SHORT_NAME_LEN
    }

    /// The record ends its directory: no record behind it is in use.
    pub open spec fn is_end(self) -> bool {
        self.name[0] == END_MARK
    }

    /// The record's slot is free for reuse.
    pub open spec fn is_deleted(self) -> bool {
        self.name[0] == DELETED_MARK
    }

    /// The record describes a file or a directory.
    pub open spec fn is_live(self) -> bool {
        !self.is_end() && !self.is_deleted()
    }

    pub open spec fn is_dir(self) -> bool {
        self.attribute & ATTRIBUTE_DIRECTORY != 0
    }
}

/// Decoding an encoded record yields the record, field for field.
pub proof fn lemma_decode_encode(e: EntryView)
    requires
        e.wf(),
    ensures
        encode_entry(e).len() == DIRENT_SZ,
        decode_entry(encode_entry(e)) == e,
{
    let b = encode_entry(e);
    assert(b.len() == 32);
    assert(b.subrange(0, 11) =~= e.name);
    let hi = (e.first_cluster / 65536) as u16;
    let lo = (e.first_cluster % 65536) as u16;
    assert(b[11] == e.attribute && b[12] == e.nt_reserved && b[13] == e.create_tenth);
    assert(b[14] == le16_bytes(e.create_time)[0] && b[15] == le16_bytes(e.create_time)[1]);
    assert(b[16] == le16_bytes(e.create_date)[0] && b[17] == le16_bytes(e.create_date)[1]);
    assert(b[18] == le16_bytes(e.access_date)[0] && b[19] == le16_bytes(e.access_date)[1]);
    assert(b[20] == le16_bytes(hi)[0] && b[21] == le16_bytes(hi)[1]);
    assert(b[22] == le16_bytes(e.write_time)[0] && b[23] == le16_bytes(e.write_time)[1]);
    assert(b[24] == le16_bytes(e.write_date)[0] && b[25] == le16_bytes(e.write_date)[1]);
    assert(b[26] == le16_bytes(lo)[0] && b[27] == le16_bytes(lo)[1]);
    assert(b[28] == le32_bytes(e.size)[0] && b[29] == le32_bytes(e.size)[1] && b[30] == le32_bytes(
        e.size,
    )[2] && b[31] == le32_bytes(e.size)[3]);
    assert(le16(b, 20) == hi && le16(b, 26) == lo);
    assert(le32(b, 28) == e.size);
}

/// A directory record in memory.
#[derive(Debug)]
pub struct DirectoryEntry {
    pub name: Vec<u8>,
    pub attribute: u8,
    pub nt_reserved: u8,
    pub create_tenth: u8,
    pub create_time: u16,
    pub create_date: u16,
    pub access_date: u16,
    pub first_cluster: u32,
    pub write_time: u16,
    pub write_date: u16,
    pub size: u32,
}

impl DirectoryEntry {
    pub open spec fn view(&self) -> EntryView {
        EntryView {
            name: self.name@,
            attribute: self.attribute,
            nt_reserved: self.nt_reserved,
            create_tenth: self.create_tenth,
            create_time: self.create_time,
            create_date: self.create_date,
            access_date: self.access_date,
            first_cluster: self.first_cluster,
            write_time: self.write_time,
            write_date: self.write_date,
            size: self.size,
        }
    }

    /// The name field has its eleven bytes.
    pub open spec fn wf(&self) -> bool {
        self@.wf()
    }

    /// A record for a new, empty node: no cluster, size zero, timestamps zero.
    pub fn new(name: Vec<u8>, attribute: u8) -> (e: DirectoryEntry)
        requires
            name@.len() == SHORT_NAME_LEN,
        ensures
            e.wf(),
            e@ == (EntryView {
                name: name@,
                attribute,
                nt_reserved: 0,
                create_tenth: 0,
                create_time: 0,
                create_date: 0,
                access_date: 0,
                first_cluster: 0,
                write_time: 0,
                write_date: 0,
                size: 0,
            }),
    {
        DirectoryEntry {
            name,
            attribute,
            nt_reserved: 0,
            create_tenth: 0,
            create_time: 0,
            create_date: 0,
            access_date: 0,
            first_cluster: 0,
            write_time: 0,
            write_date: 0,
            size: 0,
        }
    }

    /// The 32 bytes that record the entry on disk.
    pub fn encode(&self) -> (bytes: Vec<u8>)
        requires
            self.wf(),
        ensures
            bytes@ == encode_entry(self@),
            bytes@.len() == DIRENT_SZ,
            decode_entry(bytes@) == self@,
    {
        let mut out: Vec<u8> = copy_range(self.name.as_slice(), 0, SHORT_NAME_LEN);
        assert(out@ =~= self.name@);
        out.push(self.attribute);
        out.push(self.nt_reserved);
        out.push(self.create_tenth);
        assert(out@ =~= self.name@ + seq![self.attribute, self.nt_reserved, self.create_tenth]);
        push_le16(&mut out, self.create_time);
        push_le16(&mut out, self.create_date);
        push_le16(&mut out, self.access_date);
        push_le16(&mut out, (self.first_cluster / 65536) as u16);
        push_le16(&mut out, self.write_time);
        push_le16(&mut out, self.write_date);
        push_le16(&mut out, (self.first_cluster % 65536) as u16);
        push_le32(&mut out, self.size);
        proof {
            lemma_decode_encode(self@);
        }
        out
    }

    /// The record that `bytes` spell: `None` unless there are exactly 32.
    pub fn decode(bytes: &[u8]) -> (r: Option<DirectoryEntry>)
        ensures
            bytes@.len() != DIRENT_SZ ==> r is None,
            bytes@.len() == DIRENT_SZ ==> r is Some && r->Some_0.wf() && r->Some_0@ == decode_entry(
                bytes@,
            ),
    {
        if bytes.len() != DIRENT_SZ {
            return None;
        }
        let hi: u32 = read_le16(bytes, 20) as u32;
        let lo: u32 = read_le16(bytes, 26) as u32;
        Some(
            DirectoryEntry {
                name: copy_range(bytes, 0, SHORT_NAME_LEN),
                attribute: bytes[11],
                nt_reserved: bytes[12],
                create_tenth: bytes[13],
                create_time: read_le16(bytes, 14),
                create_date: read_le16(bytes, 16),
                access_date: read_le16(bytes, 18),
                first_cluster: hi * 65536 + lo,
                write_time: read_le16(bytes, 22),
                write_date: read_le16(bytes, 24),
                size: read_le32(bytes, 28),
            },
        )
    }

    /// Whether the record ends its directory.
    pub fn is_end(&self) -> (r: bool)
        requires
            self.wf(),
        ensures
            r == self@.is_end(),
    {
        self.name[0] == END_MARK
    }

    /// Whether the record's slot is free for reuse.
    pub fn is_deleted(&self) -> (r: bool)
        requires
            self.wf(),
        ensures
            r == self@.is_deleted(),
    {
        self.name[0] == DELETED_MARK
    }

    /// Whether the record describes a directory.
    pub fn is_dir(&self) -> (r: bool)
        ensures
            r == self@.is_dir(),
    {
        self.attribute & ATTRIBUTE_DIRECTORY != 0
    }
}

/// The upper-case form of an ASCII letter; any other byte is itself.
pub open spec fn upper(b: u8) -> u8 {
    if 0x61 <= b <= 0x7A {
        (b - 0x20) as u8
    } else {
        b
    }
}

/// The byte that stands for `b` in a stored name: letters in upper case, and an
/// underscore for a space, a control byte or DEL.
pub open spec fn fold(b: u8) -> u8 {
    if b <= 0x20 || b == 0x7F {
        0x5F
    } else {
        upper(b)
    }
}

/// The position of the last dot in `name`, or -1 if it has none.
pub open spec fn last_dot(name: Seq<u8>) -> int
    decreases name.len(),
{
    if name.len() == 0 {
        -1
    } else if name.last() == 0x2E {
        name.len() - 1
    } else {
        last_dot(name.drop_last())
    }
}

/// The part of `name` before its last dot: all of it if it has none.
pub open spec fn base_part(name: Seq<u8>) -> Seq<u8> {
    if last_dot(name) < 0 {
        name
    } else {
        name.subrange(0, last_dot(name))
    }
}

/// The part of `name` behind its last dot: empty if it has none.
pub open spec fn ext_part(name: Seq<u8>) -> Seq<u8> {
    if last_dot(name) < 0 {
        Seq::empty()
    } else {
        name.subrange(last_dot(name) + 1, name.len() as int)
    }
}

/// The eleven-byte stored form of `name`: the first eight bytes of the base and
/// the first three of the extension, folded and padded with spaces. A leading
/// byte that would read as the deleted mark is stored as `05`.
pub open spec fn short_name(name: Seq<u8>) -> Seq<u8> {
    Seq::new(
        SHORT_NAME_LEN as nat,
        |i: int|
            if i < 8 {
                if i < base_part(name).len() {
                    if i == 0 && fold(base_part(name)[0]) == DELETED_MARK {
                        0x05u8
                    } else {
                        fold(base_part(name)[i])
                    }
                } else {
                    0x20u8
                }
            } else {
                if i - 8 < ext_part(name).len() {
                    fold(ext_part(name)[i - 8])
                } else {
                    0x20u8
                }
            },
    )
}

/// Two stored names are the same but for the case of their letters.
pub open spec fn same_name(a: Seq<u8>, b: Seq<u8>) -> bool {
    &&& a.len() == b.len()
    &&& forall|i: int| 0 <= i < a.len() ==> upper(a[i]) == upper(b[i])
}

/// A stored name made by [`short_name`] never reads as a deleted or an end
/// record.
pub proof fn lemma_short_name_live(name: Seq<u8>)
    ensures
        short_name(name).len() == SHORT_NAME_LEN,
        short_name(name)[0] != END_MARK,
        short_name(name)[0] != DELETED_MARK,
{
}

fn to_upper(b: u8) -> (r: u8)
    ensures
        r == upper(b),
{
    if 0x61 <= b && b <= 0x7A {
        b - 0x20
    } else {
        b
    }
}

fn fold_byte(b: u8) -> (r: u8)
    ensures
        r == fold(b),
{
    if b <= 0x20 || b == 0x7F {
        0x5F
    } else {
        to_upper(b)
    }
}

fn find_last_dot(name: &[u8]) -> (r: Option<usize>)
    ensures
        match r {
            Some(p) => p == last_dot(name@) && p < name@.len(),
            None => last_dot(name@) == -1,
        },
{
    let mut i: usize = name.len();
    assert(name@.subrange(0, i as int) =~= name@);
    while i > 0
        invariant
            i <= name@.len(),
            last_dot(name@) == last_dot(name@.subrange(0, i as int)),
        decreases i,
    {
        let ghost prefix = name@.subrange(0, i as int);
        assert(prefix.drop_last() =~= name@.subrange(0, i - 1));
        if name[i - 1] == 0x2E {
            return Some(i - 1);
        }
        i = i - 1;
    }
    assert(name@.subrange(0, 0).len() == 0);
    None
}

/// The eleven-byte stored form of `name`.
pub fn make_short_name(name: &[u8]) -> (out: Vec<u8>)
    ensures
        out@ == short_name(name@),
        out@.len() == SHORT_NAME_LEN,
{
    let len: usize = name.len();
    let (base_end, ext_start): (usize, usize) = match find_last_dot(name) {
        Some(p) => (p, p + 1),
        None => (len, len),
    };
    assert(base_part(name@) =~= name@.subrange(0, base_end as int)) by {
        assert(name@.subrange(0, name@.len() as int) =~= name@);
    }
    assert(ext_part(name@) =~= name@.subrange(ext_start as int, len as int));
    let mut out: Vec<u8> = Vec::new();
    let mut i: usize = 0;
    while i < SHORT_NAME_LEN
        invariant
            i <= SHORT_NAME_LEN,
            len == name@.len(),
            base_end <= len,
            ext_start <= len,
            base_part(name@) == name@.subrange(0, base_end as int),
            ext_part(name@) == name@.subrange(ext_start as int, len as int),
            out@.len() == i,
            forall|j: int| 0 <= j < i ==> out@[j] == short_name(name@)[j],
        decreases SHORT_NAME_LEN - i,
    {
        let b: u8 = if i < 8 {
            if i < base_end {
                let f = fold_byte(name[i]);
                if i == 0 && f == DELETED_MARK {
                    0x05
                } else {
                    f
                }
            } else {
                0x20
            }
        } else {
            if i - 8 < len - ext_start {
                fold_byte(name[ext_start + (i - 8)])
            } else {
                0x20
            }
        };
        out.push(b);
        i = i + 1;
    }
    assert(out@ =~= short_name(name@));
    out
}

/// Whether two stored names are the same but for the case of their letters.
pub fn names_match(a: &[u8], b: &[u8]) -> (r: bool)
    ensures
        r == same_name(a@, b@),
{
    if a.len() != b.len() {
        return false;
    }
    let mut i: usize = 0;
    while i < a.len()
        invariant
            i <= a@.len(),
            a@.len() == b@.len(),
            forall|j: int| 0 <= j < i ==> upper(a@[j]) == upper(b@[j]),
        decreases a@.len() - i,
    {
        if to_upper(a[i]) != to_upper(b[i]) {
            return false;
        }
        i = i + 1;
    }
    true
}

} // verus!
