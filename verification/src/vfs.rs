//! Files and directories by name.
use vstd::prelude::*;
use crate::error::FsError;
use crate::block_dev::{BlockDevice, BLOCK_SZ};
use crate::codec::copy_range;
use crate::layout::{BootParams, DirectoryEntry, EntryView, encode_entry, decode_entry, lemma_decode_encode, short_name, same_name, make_short_name, names_match, lemma_short_name_live, ATTRIBUTE_DIRECTORY, DELETED_MARK, DIRENT_SZ, SHORT_NAME_LEN, FREE_CLUSTER};
use crate::fat::{Disk, fat_table, volume_fits, same_outside_tables, same_tables, lemma_same_tables, mirrored, free_count, released};
use vstd::arithmetic::div_mod::{lemma_div_denominator, lemma_mod_breakdown};
use crate::codec::splice;
use crate::chain::{ClusterChain, written, same_but, same_cluster, extent, all_clusters, in_table, stream_sectors, stream_sector, lemma_walk_basics, lemma_walk_in_use, lemma_walk_no_duplicates, lemma_extent_same, lemma_extent_store, lemma_body_untouched, lemma_stream_sector, lemma_released, lemma_stream_bound};
use crate::fat32_manager::{FAT32Manager, record_ok, record_at, record_sector, with_record};

verus! {

/// The record `rec` with the first cluster and the size replaced and, if `mark`
/// is set, the first byte of the name replaced by the deleted mark.
pub open spec fn stored_record(rec: Seq<u8>, first_cluster: u32, size: u32, mark: bool) -> Seq<u8> {
    encode_entry(
        EntryView {
            name: if mark {
                decode_entry(rec).name.update(0, DELETED_MARK)
            } else {
                decode_entry(rec).name
            },
            first_cluster,
            size,
            ..decode_entry(rec)
        },
    )
}

/// The record `rec` with the first cluster and the size replaced.
pub open spec fn updated_record(rec: Seq<u8>, first_cluster: u32, size: u32) -> Seq<u8> {
    stored_record(rec, first_cluster, size, false)
}

/// The record `rec` marked deleted, with no cluster and size zero.
pub open spec fn deleted_record(rec: Seq<u8>) -> Seq<u8> {
    stored_record(rec, 0, 0, true)
}

/// The disk after the record of a node, if it has one, was stored with the
/// first cluster and the size replaced, and marked deleted if `mark` is set.
pub open spec fn with_node_record(
    disk: Disk,
    p: BootParams,
    dirent: Option<(u32, u32)>,
    first_cluster: u32,
    size: u32,
    mark: bool,
) -> Disk {
    match dirent {
        None => disk,
        Some((dc, off)) => with_record(
            disk,
            p,
            dc as int,
            off as int,
            stored_record(record_at(disk, p, dc as int, off as int), first_cluster, size, mark),
        ),
    }
}

/// A stored record has 32 bytes and decodes to what was stored.
pub proof fn lemma_stored_record(rec: Seq<u8>, first_cluster: u32, size: u32, mark: bool)
    requires
        rec.len() == DIRENT_SZ,
    ensures
        stored_record(rec, first_cluster, size, mark).len() == DIRENT_SZ,
        decode_entry(stored_record(rec, first_cluster, size, mark)).first_cluster == first_cluster,
        decode_entry(stored_record(rec, first_cluster, size, mark)).size == size,
        decode_entry(stored_record(rec, first_cluster, size, mark)).attribute == decode_entry(
            rec,
        ).attribute,
        mark ==> stored_record(rec, first_cluster, size, mark)[0] == DELETED_MARK,
        !mark ==> decode_entry(stored_record(rec, first_cluster, size, mark)).name == decode_entry(
            rec,
        ).name,
{
    let e = EntryView {
        name: if mark {
            decode_entry(rec).name.update(0, DELETED_MARK)
        } else {
            decode_entry(rec).name
        },
        first_cluster,
        size,
        ..decode_entry(rec)
    };
    lemma_decode_encode(e);
    assert(encode_entry(e)[0] == e.name[0]);
}

/// The number of record slots in a directory body.
pub open spec fn slot_count(body: Seq<u8>) -> int {
    (body.len() / 32) as int
}

/// The bytes of record `i` of a directory body.
pub open spec fn record_of(body: Seq<u8>, i: int) -> Seq<u8> {
    body.subrange(32 * i, 32 * i + 32)
}

/// Record `i` of a directory body.
pub open spec fn entry_at(body: Seq<u8>, i: int) -> EntryView {
    decode_entry(record_of(body, i))
}

/// The record is in use and carries the name `key`, but for the case of
/// letters.
pub open spec fn matches(e: EntryView, key: Seq<u8>) -> bool {
    e.is_live() && same_name(e.name, key)
}

/// What a record means to a search by name.
#[derive(Clone, Copy, Debug, PartialEq, Eq, Structural)]
pub enum Verdict {
    /// The record ends the directory.
    End,
    /// The record carries the name.
    Hit,
    /// The search goes on.
    Pass,
}

/// What the record `e` means to a search for `key`.
pub open spec fn verdict(e: EntryView, key: Seq<u8>) -> Verdict {
    if e.is_end() {
        Verdict::End
    } else if matches(e, key) {
        Verdict::Hit
    } else {
        Verdict::Pass
    }
}

/// The first record from slot `i` on that carries the name `key`, looking no
/// further than the record that ends the directory.
pub open spec fn lookup_from(body: Seq<u8>, key: Seq<u8>, i: int) -> Option<int>
    decreases slot_count(body) - i,
{
    if i < 0 || i >= slot_count(body) {
        None
    } else {
        match verdict(entry_at(body, i), key) {
            Verdict::End => None,
            Verdict::Hit => Some(i),
            Verdict::Pass => lookup_from(body, key, i + 1),
        }
    }
}

/// The first record of the directory that carries the name `key`.
pub open spec fn lookup(body: Seq<u8>, key: Seq<u8>) -> Option<int> {
    lookup_from(body, key, 0)
}

/// The first slot from `i` on that is free: a deleted record, the record that
/// ends the directory, or the slot behind the last.
pub open spec fn free_slot_from(body: Seq<u8>, i: int) -> int
    decreases slot_count(body) - i,
{
    if i < 0 || i >= slot_count(body) || !entry_at(body, i).is_live() {
        i
    } else {
        free_slot_from(body, i + 1)
    }
}

/// The first free slot of the directory.
pub open spec fn free_slot(body: Seq<u8>) -> int {
    free_slot_from(body, 0)
}

/// The record of a new, empty node.
pub open spec fn fresh_entry(key: Seq<u8>, attribute: u8) -> EntryView {
    EntryView {
        name: key,
        attribute,
        nt_reserved: 0,
        create_tenth: 0,
        create_time: 0,
        create_date: 0,
        access_date: 0,
        first_cluster: 0,
        write_time: 0,
        write_date: 0,
        size: 0,
    }
}

/// A name that no record carried is found, after its record has been stored
/// in the first free slot, in that slot.
pub proof fn lemma_lookup_stored(before: Seq<u8>, after: Seq<u8>, key: Seq<u8>, j: int)
    requires
        0 <= j <= free_slot_from(before, j),
        lookup_from(before, key, j) is None,
        free_slot_from(before, j) < slot_count(after),
        matches(entry_at(after, free_slot_from(before, j)), key),
        forall|i: int|
            j <= i < free_slot_from(before, j) ==> #[trigger] record_of(after, i) == record_of(
                before,
                i,
            ),
    ensures
        lookup_from(after, key, j) == Some(free_slot_from(before, j)),
    decreases slot_count(before) - j,
{
    let idx = free_slot_from(before, j);
    if j < idx {
        assert(record_of(after, j) == record_of(before, j));
        lemma_lookup_stored(before, after, key, j + 1);
    }
}

/// A free slot is no lower than where the search for it began, and no higher
/// than the number of slots.
pub proof fn lemma_free_slot_bounds(body: Seq<u8>, j: int)
    requires
        0 <= j <= slot_count(body),
    ensures
        j <= free_slot_from(body, j) <= slot_count(body),
    decreases slot_count(body) - j,
{
    if j < slot_count(body) && entry_at(body, j).is_live() {
        lemma_free_slot_bounds(body, j + 1);
    }
}

/// Storing a record changes one sector of its cluster: the tables stay, and so
/// does every other cluster.
pub proof fn lemma_record_frame(disk: Disk, p: BootParams, dc: int, off: int, bytes: Seq<u8>)
    requires
        volume_fits(disk, p),
        record_ok(p, dc, off),
        bytes.len() == DIRENT_SZ,
    ensures
        volume_fits(with_record(disk, p, dc, off, bytes), p),
        same_tables(with_record(disk, p, dc, off, bytes), disk, p),
        fat_table(with_record(disk, p, dc, off, bytes), p) == fat_table(disk, p),
        same_but(with_record(disk, p, dc, off, bytes), disk, p, seq![dc]),
        record_at(with_record(disk, p, dc, off, bytes), p, dc, off) == bytes,
{
    let after = with_record(disk, p, dc, off, bytes);
    let sec = record_sector(p, dc, off);
    p.lemma_sector_of(dc);
    p.lemma_geometry();
    assert(0 <= off / 512 < p.sectors_per_cluster);
    assert(after[sec].len() == BLOCK_SZ);
    lemma_same_tables(after, disk, p);
    assert forall|d: int| p.is_cluster(d) && !seq![dc].contains(d) implies #[trigger] same_cluster(
        after,
        disk,
        p,
        d,
    ) by {
        assert(seq![dc][0] == dc);
        p.lemma_sector_of(d);
    }
    assert(record_at(after, p, dc, off) =~= bytes);
}

/// Storing a record in a cluster outside a chain leaves the chain's bytes as
/// they are.
pub proof fn lemma_record_elsewhere(
    disk: Disk,
    p: BootParams,
    dc: int,
    off: int,
    bytes: Seq<u8>,
    s: Seq<int>,
)
    requires
        volume_fits(disk, p),
        record_ok(p, dc, off),
        bytes.len() == DIRENT_SZ,
        all_clusters(p, s),
        !s.contains(dc),
    ensures
        extent(with_record(disk, p, dc, off, bytes), p, s) == extent(disk, p, s),
{
    let after = with_record(disk, p, dc, off, bytes);
    lemma_record_frame(disk, p, dc, off, bytes);
    assert forall|k: int| 0 <= k < s.len() implies same_cluster(after, disk, p, #[trigger] s[k]) by {
        assert(s.contains(s[k]));
        assert(!seq![dc].contains(s[k]));
    }
    lemma_extent_same(after, disk, p, s);
}

/// The relation [`written`] stays when a record is stored outside the chain.
pub proof fn lemma_written_record(
    p: BootParams,
    d0: Disk,
    s0: Seq<int>,
    d1: Disk,
    s1: Seq<int>,
    is_dir: bool,
    offset: int,
    data: Seq<u8>,
    dc: int,
    off: int,
    bytes: Seq<u8>,
)
    requires
        volume_fits(d1, p),
        written(p, d0, s0, d1, s1, is_dir, offset, data),
        record_ok(p, dc, off),
        bytes.len() == DIRENT_SZ,
        all_clusters(p, s1),
        !s1.contains(dc),
    ensures
        written(p, d0, s0, with_record(d1, p, dc, off, bytes), s1, is_dir, offset, data),
{
    let d2 = with_record(d1, p, dc, off, bytes);
    lemma_record_frame(d1, p, dc, off, bytes);
    lemma_record_elsewhere(d1, p, dc, off, bytes, s1);
    let e1 = extent(d1, p, s1);
    let e2 = extent(d2, p, s1);
    assert forall|i: int| 0 <= i < e2.len() implies #[trigger] e2[i] == if offset <= i < offset
        + data.len() {
        data[i - offset]
    } else if i < extent(d0, p, s0).len() {
        extent(d0, p, s0)[i]
    } else if is_dir {
        0u8
    } else {
        e2[i]
    } by {
        assert(e2[i] == e1[i]);
    }
}

/// A read at the place of a write that succeeded gives back what was
/// written: the body holds `data` at `offset`.
pub proof fn lemma_read_back(
    p: BootParams,
    d0: Disk,
    before: ClusterChain,
    d1: Disk,
    after: ClusterChain,
    offset: int,
    data: Seq<u8>,
)
    requires
        p.geometry_ok(),
        0 <= offset,
        data.len() > 0,
        before.wrote(p, d0, after, d1, offset, data),
    ensures
        offset + data.len() <= after.content(d1, p).len(),
        after.content(d1, p).subrange(offset, offset + data.len()) == data,
{
    let s1 = after.clusters(d1, p);
    let e1 = extent(d1, p, s1);
    let body = after.content(d1, p);
    let end = offset + data.len();
    let n = s1.len() as int;
    let k = p.sectors_per_cluster as int;
    p.lemma_geometry();
    assert(n * k * 512 >= end) by (nonlinear_arith)
        requires
            n >= (end + k * 512 - 1) / (k * 512),
            k >= 1,
            end >= 1,
    ;
    assert(body.subrange(offset, end) =~= data) by {
        assert forall|i: int| 0 <= i < data.len() implies body.subrange(offset, end)[i] == data[i] by {
            assert(body[offset + i] == e1[offset + i]);
        }
    }
}

/// A node's own record, stored after a write to its body, leaves the body as
/// the write made it, and the node's handle to be trusted.
#[verifier::rlimit(40)]
pub proof fn lemma_wrote_record(
    p: BootParams,
    d0: Disk,
    before: ClusterChain,
    dm: Disk,
    after: ClusterChain,
    offset: int,
    data: Seq<u8>,
    dc: int,
    off: int,
)
    requires
        volume_fits(d0, p),
        volume_fits(dm, p),
        before.wrote(p, d0, after, dm, offset, data),
        same_but(dm, d0, p, after.clusters(dm, p)),
        record_ok(p, dc, off),
        fat_table(d0, p)[dc] != FREE_CLUSTER,
        !before.clusters(d0, p).contains(dc),
    ensures
        ({
            let bytes = updated_record(record_at(dm, p, dc, off), after.first_cluster, after.size);
            let d1 = with_record(dm, p, dc, off, bytes);
            &&& volume_fits(d1, p)
            &&& fat_table(d1, p) == fat_table(dm, p)
            &&& data.len() > 0 ==> before.wrote(p, d0, after, d1, offset, data)
            &&& !after.clusters(dm, p).contains(dc)
            &&& fat_table(dm, p)[dc] != FREE_CLUSTER
            &&& record_at(d1, p, dc, off) == bytes
            &&& after.clusters(d1, p) == after.clusters(dm, p)
        }),
{
    let t0 = fat_table(d0, p);
    let tm = fat_table(dm, p);
    let s0 = before.clusters(d0, p);
    let s1 = after.clusters(dm, p);
    let bytes = updated_record(record_at(dm, p, dc, off), after.first_cluster, after.size);
    let d1 = with_record(dm, p, dc, off, bytes);
    lemma_walk_basics(tm, after.first_cluster as int, tm.len());
    assert(all_clusters(p, s1));
    lemma_record_outside(t0, s0, tm, s1, dc);
    p.lemma_sector_of(dc);
    p.lemma_geometry();
    assert(record_at(dm, p, dc, off).len() == DIRENT_SZ);
    lemma_stored_record(record_at(dm, p, dc, off), after.first_cluster, after.size, false);
    lemma_record_frame(dm, p, dc, off, bytes);
    lemma_same_tables(d1, dm, p);
    lemma_written_record(p, d0, s0, dm, s1, before.is_dir, offset, data, dc, off, bytes);
}

/// Disks that differ only in the clusters of a chain differ only in them
/// still after the same record was stored on both, outside the chain.
pub proof fn lemma_same_but_record(
    p: BootParams,
    d0: Disk,
    dm: Disk,
    s: Seq<int>,
    dc: int,
    off: int,
    bytes: Seq<u8>,
)
    requires
        volume_fits(d0, p),
        volume_fits(dm, p),
        same_but(dm, d0, p, s),
        record_ok(p, dc, off),
        !s.contains(dc),
    ensures
        same_but(with_record(dm, p, dc, off, bytes), with_record(d0, p, dc, off, bytes), p, s),
        record_at(dm, p, dc, off) == record_at(d0, p, dc, off),
{
    let a = with_record(dm, p, dc, off, bytes);
    let b = with_record(d0, p, dc, off, bytes);
    let sec = record_sector(p, dc, off);
    p.lemma_sector_of(dc);
    p.lemma_geometry();
    assert(same_cluster(dm, d0, p, dc));
    assert(0 <= off / 512 < p.sectors_per_cluster);
    assert(dm[p.sector_of(dc) + off / 512] == d0[p.sector_of(dc) + off / 512]);
    assert forall|x: int| 0 <= x < p.reserved_sectors implies #[trigger] a[x] == b[x] by {
        assert(dm[x] == d0[x]);
    }
    assert forall|d: int| p.is_cluster(d) && !s.contains(d) implies #[trigger] same_cluster(
        a,
        b,
        p,
        d,
    ) by {
        assert(same_cluster(dm, d0, p, d));
        p.lemma_sector_of(d);
        assert forall|j: int| 0 <= j < p.sectors_per_cluster implies #[trigger] a[p.sector_of(d) + j]
            == b[p.sector_of(d) + j] by {
            assert(dm[p.sector_of(d) + j] == d0[p.sector_of(d) + j]);
        }
    }
}

/// A cluster that was in use and outside the chain before a write is outside
/// the chain after it, and still in use.
pub proof fn lemma_record_outside(t0: Seq<u32>, s0: Seq<int>, t1: Seq<u32>, s1: Seq<int>, dc: int)
    requires
        t0.len() == t1.len(),
        0 <= dc < t0.len(),
        !s0.contains(dc),
        t0[dc] != FREE_CLUSTER,
        s0.len() <= s1.len(),
        s1.subrange(0, s0.len() as int) == s0,
        forall|k: int|
            s0.len() <= k < s1.len() ==> in_table(t0, #[trigger] s1[k]) && t0[s1[k]] == FREE_CLUSTER,
        forall|c: int|
            0 <= c < t0.len() && #[trigger] t1[c] != t0[c] ==> t0[c] == FREE_CLUSTER || (s0.len() > 0
                && c == s0.last()),
    ensures
        !s1.contains(dc),
        t1[dc] != FREE_CLUSTER,
{
    if s1.contains(dc) {
        let k = choose|k: int| 0 <= k < s1.len() && s1[k] == dc;
        if k < s0.len() {
            assert(s1.subrange(0, s0.len() as int)[k] == s1[k]);
            assert(s0[k] == dc);
        }
    }
    if s0.len() > 0 {
        assert(s0.contains(s0[s0.len() - 1]));
    }
}

/// The mathematical content of a handle.
pub struct NodeView {
    pub name: Seq<u8>,
    pub attribute: u8,
    pub chain: ClusterChain,
    pub dirent: Option<(u32, u32)>,
}

/// The node that record `i` of the directory `dir` describes: the record's
/// name, attributes, first cluster and size, and the place of the record.
pub open spec fn child_view(dir: ClusterChain, disk: Disk, p: BootParams, i: int) -> NodeView {
    let e = entry_at(dir.content(disk, p), i);
    NodeView {
        name: e.name,
        attribute: e.attribute,
        chain: ClusterChain { first_cluster: e.first_cluster, size: e.size, is_dir: e.is_dir() },
        dirent: Some(
            (
                dir.clusters(disk, p)[(32 * i) / p.cluster_bytes()] as u32,
                ((32 * i) % p.cluster_bytes()) as u32,
            ),
        ),
    }
}

/// The node that a search of the directory `dir` for `name` finds, if any.
pub open spec fn find_spec(dir: ClusterChain, disk: Disk, p: BootParams, name: Seq<u8>) -> Option<
    NodeView,
> {
    if !dir.is_dir {
        None
    } else {
        match lookup(dir.content(disk, p), short_name(name)) {
            Some(i) => Some(child_view(dir, disk, p, i)),
            None => None,
        }
    }
}

impl NodeView {
    /// The name has its eleven bytes, and the body is a directory's exactly if
    /// the attributes say so.
    pub open spec fn wf(self) -> bool {
        &&& self.name.len() == SHORT_NAME_LEN
        &&& self.chain.is_dir == (self.attribute & ATTRIBUTE_DIRECTORY != 0)
    }

    /// The node can be trusted on this volume: its chain is sound, and its own
    /// record lies in a cluster that is in use and is none of the chain's.
    pub open spec fn sound(self, disk: Disk, p: BootParams) -> bool {
        &&& self.chain.valid(disk, p)
        &&& match self.dirent {
            None => true,
            Some((dc, off)) => {
                &&& record_ok(p, dc as int, off as int)
                &&& fat_table(disk, p)[dc as int] != FREE_CLUSTER
                &&& !self.chain.clusters(disk, p).contains(dc as int)
            },
        }
    }

    /// `after` on disk `d1` is this node on disk `d0` after a write of `data`
    /// at `offset`: the node could be trusted and can be still; the body is as
    /// [`ClusterChain::wrote`] says; the node's record carries the new size and
    /// first cluster; outside the tables the disk differs from the disk before,
    /// with that record stored, only in the clusters of the body; and the body
    /// holds `data` at `offset`.
    pub open spec fn wrote(
        self,
        p: BootParams,
        d0: Disk,
        after: NodeView,
        d1: Disk,
        offset: int,
        data: Seq<u8>,
    ) -> bool {
        let len = data.len();
        &&& self.sound(d0, p)
        &&& after.sound(d1, p)
        &&& after.name == self.name
        &&& after.attribute == self.attribute
        &&& after.dirent == self.dirent
        &&& self.chain.wrote(p, d0, after.chain, d1, offset, data)
        &&& same_but(
            d1,
            if len > 0 {
                with_node_record(
                    d0,
                    p,
                    self.dirent,
                    after.chain.first_cluster,
                    after.chain.size,
                    false,
                )
            } else {
                d0
            },
            p,
            after.chain.clusters(d1, p),
        )
        &&& len > 0 ==> match self.dirent {
            None => true,
            Some((dc, off)) => record_at(d1, p, dc as int, off as int) == updated_record(
                record_at(d0, p, dc as int, off as int),
                after.chain.first_cluster,
                after.chain.size,
            ),
        }
        &&& len > 0 ==> offset + len <= after.chain.content(d1, p).len() && after.chain.content(
            d1,
            p,
        ).subrange(offset, offset + len) == data
    }

    /// A node with the stored name `key` can be created in this directory: it
    /// is a directory, it can be trusted, no record carries the name, and the
    /// record fits in, with a new cluster if need be.
    pub open spec fn can_create(self, disk: Disk, p: BootParams, key: Seq<u8>) -> bool {
        &&& self.chain.is_dir
        &&& self.sound(disk, p)
        &&& lookup(self.chain.content(disk, p), key) is None
        &&& self.chain.write_fits(
            disk,
            p,
            32 * free_slot(self.chain.content(disk, p)),
            DIRENT_SZ as int,
        )
    }

    /// Why a node with the stored name `key` cannot be created in this
    /// directory.
    pub open spec fn create_error(self, disk: Disk, p: BootParams, key: Seq<u8>) -> FsError {
        if !self.chain.is_dir {
            FsError::NotADirectory
        } else if !self.sound(disk, p) {
            FsError::InvalidFilesystem
        } else if lookup(self.chain.content(disk, p), key) is Some {
            FsError::AlreadyExists
        } else {
            FsError::OutOfSpace
        }
    }

    /// `after` on disk `d1` is this directory on disk `d0` after the node
    /// `child`, with the stored name `key`, was created in it: the record of an
    /// empty node stands in what was the first free slot, a search for the name
    /// finds it there, and `child` is the node that such a search hands out.
    pub open spec fn created(
        self,
        p: BootParams,
        d0: Disk,
        after: NodeView,
        d1: Disk,
        key: Seq<u8>,
        attribute: u8,
        child: NodeView,
    ) -> bool {
        &&& self.gained(p, d0, after, d1, key, attribute)
        &&& child.wf()
        &&& child == child_view(after.chain, d1, p, free_slot(self.chain.content(d0, p)))
    }

    /// `after` on disk `d1` is this directory on disk `d0` after a node with
    /// the stored name `key` was created in it: the record of an empty node
    /// stands in what was the first free slot, and a search for the name finds
    /// it there.
    pub open spec fn gained(
        self,
        p: BootParams,
        d0: Disk,
        after: NodeView,
        d1: Disk,
        key: Seq<u8>,
        attribute: u8,
    ) -> bool {
        let idx = free_slot(self.chain.content(d0, p));
        let body1 = after.chain.content(d1, p);
        &&& self.can_create(d0, p, key)
        &&& self.wrote(p, d0, after, d1, 32 * idx, encode_entry(fresh_entry(key, attribute)))
        &&& entry_at(body1, idx) == fresh_entry(key, attribute)
        &&& lookup(body1, key) == Some(idx)
    }

    /// `after` on disk `d1` is this node on disk `d0` after its chain was
    /// released: the node could be trusted and can be still; the body is empty;
    /// every cluster of the chain is free again; the node's record says so, and
    /// is marked deleted if `mark` is set; outside the tables nothing changed
    /// but that record.
    pub open spec fn retired(self, p: BootParams, d0: Disk, after: NodeView, d1: Disk, mark: bool) -> bool {
        &&& self.sound(d0, p)
        &&& after.sound(d1, p)
        &&& after.chain == (ClusterChain { first_cluster: 0, size: 0, is_dir: self.chain.is_dir })
        &&& fat_table(d1, p) == released(
            fat_table(d0, p),
            self.chain.first_cluster as int,
            p.entries() as nat,
        )
        &&& free_count(fat_table(d1, p)) == free_count(fat_table(d0, p)) + self.chain.clusters(
            d0,
            p,
        ).len()
        &&& mirrored(d0, p) ==> mirrored(d1, p)
        &&& same_outside_tables(d1, with_node_record(d0, p, self.dirent, 0, 0, mark), p)
        &&& match self.dirent {
            None => true,
            Some((dc, off)) => record_at(d1, p, dc as int, off as int) == stored_record(
                record_at(d0, p, dc as int, off as int),
                0,
                0,
                mark,
            ),
        }
    }

    /// `after` on disk `d1` is this node on disk `d0` after it was cleared:
    /// where the node can be trusted, its chain is released and its body
    /// empty; otherwise nothing changes.
    pub open spec fn cleared(self, p: BootParams, d0: Disk, after: NodeView, d1: Disk) -> bool {
        &&& after.name == self.name
        &&& after.attribute == self.attribute
        &&& after.dirent == self.dirent
        &&& if self.sound(d0, p) {
            self.retired(p, d0, after, d1, false)
        } else {
            after.chain == self.chain && d1 == d0
        }
    }
}

/// A handle on a file or a directory of a mounted volume.
///
/// `dirent` is the place of the node's own directory record, as a cluster and a
/// byte offset in it; the root directory has none.
#[derive(Debug)]
pub struct VFile {
    pub name: Vec<u8>,
    pub attribute: u8,
    pub chain: ClusterChain,
    pub dirent: Option<(u32, u32)>,
}

impl VFile {
    /// The handle is well-formed: see [`NodeView::wf`].
    pub open spec fn wf(&self) -> bool {
        self@.wf()
    }

    /// The handle can be trusted on this volume: see [`NodeView::sound`].
    pub open spec fn sound(&self, disk: Disk, p: BootParams) -> bool {
        self@.sound(disk, p)
    }

    /// Whether the node is a directory.
    pub fn is_dir(&self) -> (r: bool)
        ensures
            r == (self.attribute & ATTRIBUTE_DIRECTORY != 0),
    {
        self.attribute & ATTRIBUTE_DIRECTORY != 0
    }

    /// The recorded size in bytes.
    pub fn size(&self) -> (n: u32)
        ensures
            n == self.chain.size,
    {
        self.chain.size
    }

    /// The first cluster of the body: zero if it has none.
    pub fn first_cluster(&self) -> (c: u32)
        ensures
            c == self.chain.first_cluster,
    {
        self.chain.first_cluster
    }

    /// Whether the handle can be trusted on this volume.
    pub fn check<D: BlockDevice>(&self, fs: &mut FAT32Manager<D>) -> (ok: bool)
        requires
            old(fs).wf(),
        ensures
            final(fs).wf(),
            final(fs).disk() == old(fs).disk(),
            final(fs).params() == old(fs).params(),
            final(fs).cursor() == old(fs).cursor(),
            ok == self.sound(old(fs).disk(), old(fs).params()),
    {
        proof {
            fs.lemma_wf();
        }
        if fs.measure_chain(&self.chain).is_none() {
            return false;
        }
        match self.dirent {
            None => true,
            Some((dc, off)) => {
                if fs.load_record(dc, off).is_err() {
                    return false;
                }
                let in_use = match fs.read_entry(dc) {
                    Ok(v) => v != FREE_CLUSTER,
                    Err(_) => unreached(),
                };
                if !in_use {
                    return false;
                }
                !fs.chain_meets(&self.chain, dc)
            },
        }
    }

    /// Writes the first cluster and the size of the body into the node's own
    /// record and, if `mark` is set, marks the record deleted.
    fn sync_record<D: BlockDevice>(&self, fs: &mut FAT32Manager<D>, mark: bool)
        requires
            old(fs).wf(),
            self.dirent is Some ==> record_ok(
                old(fs).params(),
                self.dirent->Some_0.0 as int,
                self.dirent->Some_0.1 as int,
            ),
        ensures
            final(fs).wf(),
            final(fs).params() == old(fs).params(),
            final(fs).cursor() == old(fs).cursor(),
            final(fs).disk() == match self.dirent {
                None => old(fs).disk(),
                Some((dc, off)) => with_record(
                    old(fs).disk(),
                    old(fs).params(),
                    dc as int,
                    off as int,
                    stored_record(
                        record_at(old(fs).disk(), old(fs).params(), dc as int, off as int),
                        self.chain.first_cluster,
                        self.chain.size,
                        mark,
                    ),
                ),
            },
    {
        proof {
            fs.lemma_wf();
            old(fs).params().lemma_geometry();
        }
        match self.dirent {
            None => {},
            Some((dc, off)) => {
                proof {
                    old(fs).params().lemma_sector_of(dc as int);
                    assert(record_at(fs.disk(), fs.params(), dc as int, off as int).len()
                        == DIRENT_SZ);
                }
                let raw = match fs.load_record(dc, off) {
                    Ok(raw) => raw,
                    Err(_) => unreached(),
                };
                let mut entry = match DirectoryEntry::decode(raw.as_slice()) {
                    Some(e) => e,
                    None => unreached(),
                };
                entry.first_cluster = self.chain.first_cluster;
                entry.size = self.chain.size;
                if mark {
                    entry.name.set(0, DELETED_MARK);
                }
                let bytes = entry.encode();
                let _ = fs.store_record(dc, off, bytes.as_slice());
            },
        }
    }

    /// Reads bytes of the body from `offset` on into the front of `buf`, as many
    /// as `buf` holds or as the body has left, and returns their number. The
    /// rest of `buf` stays as it is.
    pub fn read_at<D: BlockDevice>(&self, fs: &mut FAT32Manager<D>, offset: u64, buf: &mut Vec<u8>) -> (n:
        usize)
        requires
            old(fs).wf(),
        ensures
            final(fs).wf(),
            final(fs).disk() == old(fs).disk(),
            final(fs).params() == old(fs).params(),
            final(fs).cursor() == old(fs).cursor(),
            final(buf)@.len() == old(buf)@.len(),
            ({
                let body = self.chain.content(old(fs).disk(), old(fs).params());
                let lo = if offset <= body.len() {
                    offset as int
                } else {
                    body.len() as int
                };
                let hi = if offset + old(buf)@.len() <= body.len() {
                    offset + old(buf)@.len()
                } else {
                    body.len() as int
                };
                &&& n == hi - lo
                &&& final(buf)@.subrange(0, n as int) == body.subrange(lo, hi)
                &&& final(buf)@.subrange(n as int, old(buf)@.len() as int) == old(buf)@.subrange(
                    n as int,
                    old(buf)@.len() as int,
                )
            }),
    {
        let want: usize = buf.len();
        let bytes = fs.read_chain(&self.chain, offset, want);
        let n: usize = bytes.len();
        let mut i: usize = 0;
        while i < n
            invariant
                i <= n,
                n == bytes@.len(),
                n <= want,
                want == buf@.len(),
                want == old(buf)@.len(),
                buf@.subrange(0, i as int) == bytes@.subrange(0, i as int),
                buf@.subrange(i as int, want as int) == old(buf)@.subrange(i as int, want as int),
            decreases n - i,
        {
            let ghost before = buf@;
            buf.set(i, bytes[i]);
            i = i + 1;
            assert(buf@.subrange(0, i as int) =~= bytes@.subrange(0, i as int)) by {
                assert forall|j: int| 0 <= j < i implies buf@[j] == bytes@[j] by {
                    if j < i - 1 {
                        assert(before.subrange(0, i - 1)[j] == bytes@.subrange(0, i - 1)[j]);
                    }
                }
            }
            assert(buf@.subrange(i as int, want as int) =~= old(buf)@.subrange(i as int, want as int))
                by {
                assert forall|j: int| i <= j < want implies buf@[j] == old(buf)@[j] by {
                    assert(before.subrange(i - 1, want as int)[j - (i - 1)] == old(buf)@.subrange(
                        i - 1,
                        want as int,
                    )[j - (i - 1)]);
                }
            }
        }
        assert(bytes@.subrange(0, n as int) =~= bytes@);
        n
    }

    /// Writes `data` into the body at `offset`, growing the chain as needed, and
    /// records the new size and first cluster in the node's own record. Returns
    /// the number of bytes written, which is all of them.
    ///
    /// Fails with `InvalidFilesystem` if the handle cannot be trusted on this
    /// volume, and with `OutOfSpace` if the end of the write cannot be recorded
    /// in 32 bits or fewer clusters are free than the write needs. A failed
    /// write changes nothing. A write of no bytes changes nothing either.
    pub fn write_at<D: BlockDevice>(&mut self, fs: &mut FAT32Manager<D>, offset: usize, data: &[u8]) -> (r:
        Result<usize, FsError>)
        requires
            old(fs).wf(),
        ensures
            final(fs).wf(),
            final(fs).params() == old(fs).params(),
            final(self).name == old(self).name,
            final(self).attribute == old(self).attribute,
            final(self).dirent == old(self).dirent,
            final(self).chain.is_dir == old(self).chain.is_dir,
            ({
                let p = old(fs).params();
                let d0 = old(fs).disk();
                let d1 = final(fs).disk();
                let len = data@.len();
                match r {
                    Ok(n) => n == len && old(self).wrote(
                        p,
                        d0,
                        *final(self),
                        d1,
                        offset as int,
                        data@,
                    ),
                    Err(e) => {
                        &&& d1 == d0
                        &&& *final(self) == *old(self)
                        &&& final(fs).cursor() == old(fs).cursor()
                        &&& !old(self).sound(d0, p) ==> e == FsError::InvalidFilesystem
                        &&& old(self).sound(d0, p) ==> e == FsError::OutOfSpace && !old(
                            self,
                        ).chain.write_fits(d0, p, offset as int, len as int)
                    },
                }
            }),
    {
        let ghost p = fs.params();
        let ghost d0 = fs.disk();
        proof {
            fs.lemma_wf();
        }
        if !self.check(fs) {
            return Err(FsError::InvalidFilesystem);
        }
        let n = match fs.write_chain(&mut self.chain, offset, data) {
            Ok(n) => n,
            Err(e) => {
                return Err(e);
            },
        };
        let ghost dm = fs.disk();
        proof {
            fs.lemma_wf();
            match self.dirent {
                None => {},
                Some((dc, off)) => {
                    lemma_wrote_record(
                        p,
                        d0,
                        old(self).chain,
                        dm,
                        self.chain,
                        offset as int,
                        data@,
                        dc as int,
                        off as int,
                    );
                    lemma_same_but_record(
                        p,
                        d0,
                        dm,
                        self.chain.clusters(dm, p),
                        dc as int,
                        off as int,
                        updated_record(
                            record_at(dm, p, dc as int, off as int),
                            self.chain.first_cluster,
                            self.chain.size,
                        ),
                    );
                },
            }
        }
        if n > 0 {
            self.sync_record(fs, false);
            proof {
                lemma_read_back(p, d0, old(self).chain, fs.disk(), self.chain, offset as int, data@);
            }
        }
        Ok(n)
    }
}

/// A directory's body is all of its chain: whole clusters, and so whole
/// records.
pub proof fn lemma_dir_body(disk: Disk, p: BootParams, dir: ClusterChain)
    requires
        volume_fits(disk, p),
        dir.is_dir,
    ensures
        dir.content(disk, p) == extent(disk, p, dir.clusters(disk, p)),
        dir.content(disk, p).len() == dir.clusters(disk, p).len() * p.cluster_bytes(),
        dir.content(disk, p).len() == slot_count(dir.content(disk, p)) * 32,
        dir.content(disk, p).len() <= 0x1000_0000_0000,
        all_clusters(p, dir.clusters(disk, p)),
{
    let t = fat_table(disk, p);
    let s = dir.clusters(disk, p);
    lemma_walk_basics(t, dir.first_cluster as int, t.len());
    lemma_stream_bound(p, s, t.len() as int);
    let e = extent(disk, p, s);
    assert(dir.content(disk, p) =~= e);
    let n = s.len() as int;
    let k = p.sectors_per_cluster as int;
    assert(n * k * 512 == n * (k * 512)) by (nonlinear_arith);
}

impl VFile {
    pub open spec fn view(&self) -> NodeView {
        NodeView {
            name: self.name@,
            attribute: self.attribute,
            chain: self.chain,
            dirent: self.dirent,
        }
    }

    /// The handle is the one that a search of the directory `dir` hands out for
    /// record `i`.
    pub open spec fn is_child_of(&self, dir: ClusterChain, disk: Disk, p: BootParams, i: int) -> bool {
        self@ == child_view(dir, disk, p, i)
    }

    /// `after` on disk `d1` is this node on disk `d0` after a write of `data` at
    /// `offset`: see [`NodeView::wrote`].
    pub open spec fn wrote(
        &self,
        p: BootParams,
        d0: Disk,
        after: VFile,
        d1: Disk,
        offset: int,
        data: Seq<u8>,
    ) -> bool {
        self@.wrote(p, d0, after@, d1, offset, data)
    }

    /// A node with the stored name `key` can be created in this directory: see
    /// [`NodeView::can_create`].
    pub open spec fn can_create(&self, disk: Disk, p: BootParams, key: Seq<u8>) -> bool {
        self@.can_create(disk, p, key)
    }

    /// Why a node with the stored name `key` cannot be created in this
    /// directory.
    pub open spec fn create_error(&self, disk: Disk, p: BootParams, key: Seq<u8>) -> FsError {
        self@.create_error(disk, p, key)
    }

    /// `after` on disk `d1` is this directory on disk `d0` after the node `child`
    /// was created in it: see [`NodeView::created`].
    pub open spec fn created(
        &self,
        p: BootParams,
        d0: Disk,
        after: VFile,
        d1: Disk,
        key: Seq<u8>,
        attribute: u8,
        child: VFile,
    ) -> bool {
        self@.created(p, d0, after@, d1, key, attribute, child@)
    }

    /// A copy of the handle.
    pub fn duplicate(&self) -> (copy: VFile)
        ensures
            copy@ == self@,
            self.wf() ==> copy.wf(),
    {
        let name = copy_range(self.name.as_slice(), 0, self.name.len());
        assert(name@ =~= self.name@);
        VFile { name, attribute: self.attribute, chain: self.chain, dirent: self.dirent }
    }

    /// Record `i` of the directory: `None` if the body has no such slot.
    fn read_slot<D: BlockDevice>(&self, fs: &mut FAT32Manager<D>, i: u64) -> (r: Option<
        DirectoryEntry,
    >)
        requires
            old(fs).wf(),
            self.chain.is_dir,
            i <= slot_count(self.chain.content(old(fs).disk(), old(fs).params())),
        ensures
            final(fs).wf(),
            final(fs).disk() == old(fs).disk(),
            final(fs).params() == old(fs).params(),
            final(fs).cursor() == old(fs).cursor(),
            match r {
                Some(e) => {
                    &&& i < slot_count(self.chain.content(old(fs).disk(), old(fs).params()))
                    &&& e.wf()
                    &&& e@ == entry_at(self.chain.content(old(fs).disk(), old(fs).params()), i as int)
                },
                None => i == slot_count(self.chain.content(old(fs).disk(), old(fs).params())),
            },
    {
        proof {
            fs.lemma_wf();
            lemma_dir_body(fs.disk(), fs.params(), self.chain);
        }
        let raw = fs.read_chain(&self.chain, 32 * i, DIRENT_SZ);
        DirectoryEntry::decode(raw.as_slice())
    }

    /// The place of record `i` of the directory, as a cluster and an offset in
    /// it.
    fn locate_slot<D: BlockDevice>(&self, fs: &mut FAT32Manager<D>, i: u64) -> (r: (u32, u32))
        requires
            old(fs).wf(),
            self.chain.is_dir,
            i < slot_count(self.chain.content(old(fs).disk(), old(fs).params())),
        ensures
            final(fs).wf(),
            final(fs).disk() == old(fs).disk(),
            final(fs).params() == old(fs).params(),
            final(fs).cursor() == old(fs).cursor(),
            r.0 == self.chain.clusters(old(fs).disk(), old(fs).params())[(32 * i)
                / old(fs).params().cluster_bytes()],
            r.1 == (32 * i) % old(fs).params().cluster_bytes(),
            record_ok(old(fs).params(), r.0 as int, r.1 as int),
            self.chain.clusters(old(fs).disk(), old(fs).params()).contains(r.0 as int),
    {
        let ghost p = fs.params();
        let ghost s = self.chain.clusters(fs.disk(), p);
        proof {
            fs.lemma_wf();
            lemma_dir_body(fs.disk(), p, self.chain);
            p.lemma_geometry();
        }
        let cb: u64 = fs.boot_params().cluster_size() as u64;
        let pos: u64 = 32 * i;
        let index: u64 = pos / cb;
        let off: u64 = pos % cb;
        proof {
            let n = s.len() as int;
            let c = cb as int;
            let x = pos as int;
            assert(0 <= x / c < n && 0 <= x % c < c && x == (x / c) * c + x % c) by (nonlinear_arith)
                requires
                    0 <= x < n * c,
                    c > 0,
            ;
            assert(off % 32 == 0 && off + 32 <= cb) by {
                assert(c % 32 == 0);
                assert(x % 32 == 0);
                assert((x % c) % 32 == 0) by (nonlinear_arith)
                    requires
                        x % 32 == 0,
                        c % 32 == 0,
                        c > 0,
                        x >= 0,
                        x == (x / c) * c + x % c,
                {
                    assert(((x / c) * c) % 32 == 0) by (nonlinear_arith)
                        requires
                            c % 32 == 0,
                    {
                        assert(c == 32 * (c / 32));
                        assert((x / c) * c == 32 * ((x / c) * (c / 32)));
                    }
                }
            }
            assert(s.contains(s[index as int]));
        }
        let cluster: u32 = match fs.cluster_of(&self.chain, index) {
            Some(c) => c,
            None => unreached(),
        };
        (cluster, off as u32)
    }

    /// What a record means to a search for `key`.
    fn judge(entry: &DirectoryEntry, key: &[u8]) -> (v: Verdict)
        requires
            entry.wf(),
        ensures
            v == verdict(entry@, key@),
    {
        if entry.is_end() {
            Verdict::End
        } else if !entry.is_deleted() && names_match(entry.name.as_slice(), key) {
            Verdict::Hit
        } else {
            Verdict::Pass
        }
    }

    /// A handle on the node that record `i` of the directory describes.
    fn child_from<D: BlockDevice>(&self, fs: &mut FAT32Manager<D>, i: u64, entry: DirectoryEntry) -> (f:
        VFile)
        requires
            old(fs).wf(),
            self.chain.is_dir,
            i < slot_count(self.chain.content(old(fs).disk(), old(fs).params())),
            entry.wf(),
            entry@ == entry_at(self.chain.content(old(fs).disk(), old(fs).params()), i as int),
        ensures
            final(fs).wf(),
            final(fs).disk() == old(fs).disk(),
            final(fs).params() == old(fs).params(),
            final(fs).cursor() == old(fs).cursor(),
            f.wf(),
            f.is_child_of(self.chain, old(fs).disk(), old(fs).params(), i as int),
    {
        let place = self.locate_slot(fs, i);
        let is_dir = entry.is_dir();
        VFile {
            name: entry.name,
            attribute: entry.attribute,
            chain: ClusterChain { first_cluster: entry.first_cluster, size: entry.size, is_dir },
            dirent: Some(place),
        }
    }

    /// Looks in the directory for the record that carries `name`, in its stored
    /// form and without regard to the case of letters, and returns a handle on
    /// the node it describes. The records are read in order; deleted ones are
    /// passed over, and the search ends at the record that ends the directory.
    ///
    /// Fails with `NotADirectory` if the node is no directory, and with
    /// `NotFound` if no record carries the name.
    pub fn find_by_name<D: BlockDevice>(&self, fs: &mut FAT32Manager<D>, name: &[u8]) -> (r: Result<
        VFile,
        FsError,
    >)
        requires
            old(fs).wf(),
            self.wf(),
        ensures
            final(fs).wf(),
            final(fs).disk() == old(fs).disk(),
            final(fs).params() == old(fs).params(),
            final(fs).cursor() == old(fs).cursor(),
            ({
                let body = self.chain.content(old(fs).disk(), old(fs).params());
                let hit = lookup(body, short_name(name@));
                match r {
                    Ok(f) => {
                        &&& self.chain.is_dir
                        &&& hit is Some
                        &&& f.wf()
                        &&& f.is_child_of(self.chain, old(fs).disk(), old(fs).params(), hit->Some_0)
                    },
                    Err(e) => if !self.chain.is_dir {
                        e == FsError::NotADirectory
                    } else {
                        e == FsError::NotFound && hit is None
                    },
                }
            }),
    {
        if !self.is_dir() {
            return Err(FsError::NotADirectory);
        }
        let ghost p = fs.params();
        let ghost d = fs.disk();
        let ghost body = self.chain.content(d, p);
        let key = make_short_name(name);
        proof {
            fs.lemma_wf();
            lemma_dir_body(d, p, self.chain);
        }
        let mut i: u64 = 0;
        loop
            invariant
                body.len() <= 0x1000_0000_0000,
                fs.wf(),
                fs.disk() == d,
                fs.params() == p,
                fs.cursor() == old(fs).cursor(),
                d == old(fs).disk(),
                p == old(fs).params(),
                self.chain.is_dir,
                body == self.chain.content(d, p),
                key@ == short_name(name@),
                0 <= i <= slot_count(body),
                lookup(body, key@) == lookup_from(body, key@, i as int),
            decreases slot_count(body) - i,
        {
            let entry = match self.read_slot(fs, i) {
                None => {
                    return Err(FsError::NotFound);
                },
                Some(e) => e,
            };
            match Self::judge(&entry, key.as_slice()) {
                Verdict::End => {
                    return Err(FsError::NotFound);
                },
                Verdict::Hit => {
                    return Ok(self.child_from(fs, i, entry));
                },
                Verdict::Pass => {},
            }
            i = i + 1;
        }
    }

    /// The first free slot of the directory.
    fn find_free_slot<D: BlockDevice>(&self, fs: &mut FAT32Manager<D>) -> (i: u64)
        requires
            old(fs).wf(),
            self.chain.is_dir,
        ensures
            final(fs).wf(),
            final(fs).disk() == old(fs).disk(),
            final(fs).params() == old(fs).params(),
            final(fs).cursor() == old(fs).cursor(),
            i == free_slot(self.chain.content(old(fs).disk(), old(fs).params())),
            i <= slot_count(self.chain.content(old(fs).disk(), old(fs).params())),
    {
        let ghost p = fs.params();
        let ghost d = fs.disk();
        let ghost body = self.chain.content(d, p);
        proof {
            fs.lemma_wf();
            lemma_dir_body(d, p, self.chain);
        }
        let mut i: u64 = 0;
        loop
            invariant
                fs.wf(),
                fs.disk() == d,
                fs.params() == p,
                fs.cursor() == old(fs).cursor(),
                d == old(fs).disk(),
                p == old(fs).params(),
                self.chain.is_dir,
                body == self.chain.content(d, p),
                body.len() <= 0x1000_0000_0000,
                0 <= i <= slot_count(body),
                free_slot(body) == free_slot_from(body, i as int),
            decreases slot_count(body) - i,
        {
            let entry = match self.read_slot(fs, i) {
                None => {
                    return i;
                },
                Some(e) => e,
            };
            if entry.is_end() || entry.is_deleted() {
                return i;
            }
            i = i + 1;
        }
    }
}

impl<D: BlockDevice> FAT32Manager<D> {
    /// A handle on the root directory: the directory attribute, the chain from
    /// the volume's root cluster, and no record of its own.
    pub fn get_root_vfile(&self) -> (root: VFile)
        requires
            self.wf(),
        ensures
            root.wf(),
            root.name@ == short_name(seq![0x2Fu8]),
            root.attribute == ATTRIBUTE_DIRECTORY,
            root.chain == (ClusterChain {
                first_cluster: self.params().root_cluster,
                size: 0,
                is_dir: true,
            }),
            root.dirent is None,
    {
        let mut slash: Vec<u8> = Vec::new();
        slash.push(0x2Fu8);
        assert(slash@ =~= seq![0x2Fu8]);
        let name = make_short_name(slash.as_slice());
        assert(ATTRIBUTE_DIRECTORY & ATTRIBUTE_DIRECTORY != 0) by (bit_vector);
        VFile {
            name,
            attribute: ATTRIBUTE_DIRECTORY,
            chain: ClusterChain {
                first_cluster: self.boot_params().root_cluster,
                size: 0,
                is_dir: true,
            },
            dirent: None,
        }
    }
}

/// How a node stands after its chain was released and its record stored: the
/// handle can be trusted, the tables are those after the release, and outside
/// the tables the disk differs only in the record.
pub proof fn lemma_retired(
    p: BootParams,
    d0: Disk,
    before: ClusterChain,
    dm: Disk,
    dc: int,
    off: int,
    mark: bool,
)
    requires
        volume_fits(d0, p),
        volume_fits(dm, p),
        before.valid(d0, p),
        same_outside_tables(dm, d0, p),
        fat_table(dm, p) == released(
            fat_table(d0, p),
            before.first_cluster as int,
            p.entries() as nat,
        ),
        record_ok(p, dc, off),
        fat_table(d0, p)[dc] != FREE_CLUSTER,
        !before.clusters(d0, p).contains(dc),
    ensures
        ({
            let bytes = stored_record(record_at(dm, p, dc, off), 0, 0, mark);
            let d1 = with_record(dm, p, dc, off, bytes);
            &&& fat_table(d1, p) == fat_table(dm, p)
            &&& mirrored(dm, p) ==> mirrored(d1, p)
            &&& fat_table(d1, p)[dc] != FREE_CLUSTER
            &&& same_outside_tables(
                d1,
                with_record(d0, p, dc, off, stored_record(record_at(d0, p, dc, off), 0, 0, mark)),
                p,
            )
            &&& record_at(d1, p, dc, off) == stored_record(record_at(d0, p, dc, off), 0, 0, mark)
        }),
{
    let t0 = fat_table(d0, p);
    let bytes = stored_record(record_at(dm, p, dc, off), 0, 0, mark);
    let d1 = with_record(dm, p, dc, off, bytes);
    p.lemma_sector_of(dc);
    p.lemma_geometry();
    assert(record_at(dm, p, dc, off).len() == DIRENT_SZ);
    lemma_stored_record(record_at(dm, p, dc, off), 0, 0, mark);
    lemma_record_frame(dm, p, dc, off, bytes);
    lemma_same_tables(d1, dm, p);
    if before.first_cluster != 0 {
        lemma_released(t0, before.first_cluster as int, t0.len());
    }
    assert(dm[record_sector(p, dc, off)] == d0[record_sector(p, dc, off)]);
    assert(record_at(dm, p, dc, off) == record_at(d0, p, dc, off));
    let target = with_record(d0, p, dc, off, bytes);
    assert forall|x: int|
        0 <= x < d1.len() && !(p.reserved_sectors <= x < p.data_start()) implies #[trigger] d1[x]
        == target[x] by {
        assert(dm[x] == d0[x]);
    }
}

/// The directory after the record of a new node was written into its first
/// free slot: the record is there, and a search for the name finds it.
pub proof fn lemma_created(
    p: BootParams,
    d0: Disk,
    before: ClusterChain,
    d1: Disk,
    after: ClusterChain,
    key: Seq<u8>,
    attribute: u8,
)
    requires
        volume_fits(d0, p),
        volume_fits(d1, p),
        before.is_dir,
        key.len() == SHORT_NAME_LEN,
        key[0] != 0x00u8,
        key[0] != DELETED_MARK,
        lookup(before.content(d0, p), key) is None,
        before.wrote(
            p,
            d0,
            after,
            d1,
            32 * free_slot(before.content(d0, p)),
            encode_entry(fresh_entry(key, attribute)),
        ),
    ensures
        free_slot(before.content(d0, p)) < slot_count(after.content(d1, p)),
        entry_at(after.content(d1, p), free_slot(before.content(d0, p))) == fresh_entry(
            key,
            attribute,
        ),
        lookup(after.content(d1, p), key) == Some(free_slot(before.content(d0, p))),
{
    let body0 = before.content(d0, p);
    let body1 = after.content(d1, p);
    let idx = free_slot(body0);
    let bytes = encode_entry(fresh_entry(key, attribute));
    lemma_decode_encode(fresh_entry(key, attribute));
    lemma_dir_body(d0, p, before);
    lemma_dir_body(d1, p, after);
    lemma_free_slot_bounds(body0, 0);
    lemma_read_back(p, d0, before, d1, after, 32 * idx, bytes);
    assert(record_of(body1, idx) == bytes);
    assert forall|i: int| 0 <= i < idx implies #[trigger] record_of(body1, i) == record_of(body0, i) by {
        assert(record_of(body1, i) =~= record_of(body0, i)) by {
            assert forall|j: int| 0 <= j < 32 implies record_of(body1, i)[j] == record_of(body0, i)[j] by {
                let x = 32 * i + j;
                assert(body1[x] == extent(d1, p, after.clusters(d1, p))[x]);
                assert(body0[x] == extent(d0, p, before.clusters(d0, p))[x]);
            }
        }
    }
    assert(same_name(key, key));
    lemma_lookup_stored(body0, body1, key, 0);
}

impl VFile {
    /// Releases the chain, makes the body empty, and stores the node's own
    /// record with no cluster and size zero, marked deleted if `mark` is set.
    fn retire<D: BlockDevice>(&mut self, fs: &mut FAT32Manager<D>, mark: bool) -> (r: Result<
        (),
        FsError,
    >)
        requires
            old(fs).wf(),
        ensures
            final(fs).wf(),
            final(fs).params() == old(fs).params(),
            final(fs).cursor() == old(fs).cursor(),
            final(self).name == old(self).name,
            final(self).attribute == old(self).attribute,
            final(self).dirent == old(self).dirent,
            ({
                let p = old(fs).params();
                let d0 = old(fs).disk();
                let d1 = final(fs).disk();
                match r {
                    Ok(_) => old(self).retired(p, d0, *final(self), d1, mark),
                    Err(e) => {
                        &&& e == FsError::InvalidFilesystem
                        &&& !old(self).sound(d0, p)
                        &&& d1 == d0
                        &&& *final(self) == *old(self)
                    },
                }
            }),
    {
        let ghost p = fs.params();
        let ghost d0 = fs.disk();
        proof {
            fs.lemma_wf();
        }
        if !self.check(fs) {
            return Err(FsError::InvalidFilesystem);
        }
        fs.clear_chain(&mut self.chain);
        proof {
            fs.lemma_wf();
            let dm = fs.disk();
            assert(self.chain.clusters(dm, p) =~= Seq::<int>::empty());
            match self.dirent {
                None => {},
                Some((dc, off)) => {
                    lemma_retired(p, d0, old(self).chain, dm, dc as int, off as int, mark);
                },
            }
        }
        self.sync_record(fs, mark);
        proof {
            let d1 = fs.disk();
            assert(self.chain.clusters(d1, p) =~= Seq::<int>::empty());
        }
        Ok(())
    }

    /// `after` on disk `d1` is this node on disk `d0` after its chain was
    /// released: see [`NodeView::retired`].
    pub open spec fn retired(&self, p: BootParams, d0: Disk, after: VFile, d1: Disk, mark: bool) -> bool {
        self@.retired(p, d0, after@, d1, mark)
    }

    /// Releases the whole chain and makes the body empty, and records in the
    /// node's own record that it has no cluster and size zero.
    ///
    /// Fails with `InvalidFilesystem`, changing nothing, if the handle cannot
    /// be trusted on this volume.
    pub fn clear<D: BlockDevice>(&mut self, fs: &mut FAT32Manager<D>) -> (r: Result<(), FsError>)
        requires
            old(fs).wf(),
        ensures
            final(fs).wf(),
            final(fs).params() == old(fs).params(),
            final(fs).cursor() == old(fs).cursor(),
            final(self).name == old(self).name,
            final(self).attribute == old(self).attribute,
            final(self).dirent == old(self).dirent,
            match r {
                Ok(_) => old(self).retired(
                    old(fs).params(),
                    old(fs).disk(),
                    *final(self),
                    final(fs).disk(),
                    false,
                ),
                Err(e) => {
                    &&& e == FsError::InvalidFilesystem
                    &&& !old(self).sound(old(fs).disk(), old(fs).params())
                    &&& final(fs).disk() == old(fs).disk()
                    &&& *final(self) == *old(self)
                },
            },
    {
        self.retire(fs, false)
    }

    /// Deletes the node: releases its chain and marks its record deleted, so
    /// that a search passes it over and its slot can be used again.
    ///
    /// Fails with `NotFound` if the node has no record, as the root directory,
    /// and with `InvalidFilesystem` if the handle cannot be trusted on this
    /// volume. A failed deletion changes nothing.
    pub fn delete<D: BlockDevice>(&mut self, fs: &mut FAT32Manager<D>) -> (r: Result<(), FsError>)
        requires
            old(fs).wf(),
        ensures
            final(fs).wf(),
            final(fs).params() == old(fs).params(),
            final(fs).cursor() == old(fs).cursor(),
            final(self).name == old(self).name,
            final(self).attribute == old(self).attribute,
            final(self).dirent == old(self).dirent,
            match r {
                Ok(_) => old(self).dirent is Some && old(self).retired(
                    old(fs).params(),
                    old(fs).disk(),
                    *final(self),
                    final(fs).disk(),
                    true,
                ),
                Err(e) => {
                    &&& e == if old(self).dirent is None {
                        FsError::NotFound
                    } else {
                        FsError::InvalidFilesystem
                    }
                    &&& old(self).dirent is Some ==> !old(self).sound(
                        old(fs).disk(),
                        old(fs).params(),
                    )
                    &&& final(fs).disk() == old(fs).disk()
                    &&& *final(self) == *old(self)
                },
            },
    {
        if self.dirent.is_none() {
            return Err(FsError::NotFound);
        }
        self.retire(fs, true)
    }

    /// Creates an empty node named `name` in the directory: writes its record,
    /// with no cluster and size zero, into the first free slot, which is the
    /// first deleted record, the record that ends the directory, or a slot in a
    /// new zero-filled cluster appended to the directory's chain. Returns a
    /// handle on the new node.
    ///
    /// Fails with `NotADirectory` if the node is no directory, with
    /// `InvalidFilesystem` if the handle cannot be trusted on this volume, with
    /// `AlreadyExists` if a record carries the name already, and with
    /// `OutOfSpace` if the directory is full and cannot grow. A failed creation
    /// changes nothing.
    pub fn create<D: BlockDevice>(&mut self, fs: &mut FAT32Manager<D>, name: &[u8], attribute: u8) -> (r:
        Result<VFile, FsError>)
        requires
            old(fs).wf(),
            old(self).wf(),
        ensures
            final(fs).wf(),
            final(fs).params() == old(fs).params(),
            final(self).wf(),
            final(self).name == old(self).name,
            final(self).attribute == old(self).attribute,
            final(self).dirent == old(self).dirent,
            ({
                let p = old(fs).params();
                let d0 = old(fs).disk();
                let d1 = final(fs).disk();
                let key = short_name(name@);
                let body0 = old(self).chain.content(d0, p);
                let body1 = final(self).chain.content(d1, p);
                let idx = free_slot(body0);
                match r {
                    Ok(child) => old(self).created(
                        p,
                        d0,
                        *final(self),
                        d1,
                        key,
                        attribute,
                        child,
                    ),
                    Err(e) => {
                        &&& d1 == d0
                        &&& *final(self) == *old(self)
                        &&& final(fs).cursor() == old(fs).cursor()
                        &&& e == old(self).create_error(d0, p, key)
                        &&& !old(self).can_create(d0, p, key)
                    },
                }
            }),
    {
        let ghost p = fs.params();
        let ghost d0 = fs.disk();
        let ghost body0 = self.chain.content(d0, p);
        if !self.is_dir() {
            return Err(FsError::NotADirectory);
        }
        if !self.check(fs) {
            return Err(FsError::InvalidFilesystem);
        }
        match self.find_by_name(fs, name) {
            Ok(_) => {
                return Err(FsError::AlreadyExists);
            },
            Err(_) => {},
        }
        let key = make_short_name(name);
        let idx: u64 = self.find_free_slot(fs);
        proof {
            fs.lemma_wf();
            lemma_dir_body(d0, p, self.chain);
            lemma_short_name_live(name@);
        }
        let pos: u64 = 32 * idx;
        if pos > u32::MAX as u64 {
            return Err(FsError::OutOfSpace);
        }
        let entry = DirectoryEntry::new(key, attribute);
        let bytes = entry.encode();
        match self.write_at(fs, pos as usize, bytes.as_slice()) {
            Ok(_) => {},
            Err(e) => {
                return Err(e);
            },
        }
        proof {
            fs.lemma_wf();
            lemma_created(p, d0, old(self).chain, fs.disk(), self.chain, short_name(name@), attribute);
        }
        let child_entry = DirectoryEntry::new(make_short_name(name), attribute);
        Ok(self.child_from(fs, idx, child_entry))
    }
}

/// Record `i` of a directory lies where [`child_view`] says: in the cluster of
/// the chain that holds byte `32 * i` of the body, at the offset of that byte
/// in the cluster.
pub proof fn lemma_record_in_body(p: BootParams, disk: Disk, dir: ClusterChain, i: int)
    requires
        volume_fits(disk, p),
        dir.is_dir,
        0 <= i < slot_count(dir.content(disk, p)),
    ensures
        ({
            let s = dir.clusters(disk, p);
            let pos = 32 * i;
            let cb = p.cluster_bytes();
            &&& 0 <= pos / cb < s.len()
            &&& pos / 512 < stream_sectors(p, s)
            &&& record_ok(p, s[pos / cb], pos % cb)
            &&& record_sector(p, s[pos / cb], pos % cb) == stream_sector(p, s, pos / 512)
            &&& (pos % cb) % 512 == pos % 512
            &&& record_at(disk, p, s[pos / cb], pos % cb) == record_of(dir.content(disk, p), i)
        }),
{
    let s = dir.clusters(disk, p);
    let body = dir.content(disk, p);
    let pos = 32 * i;
    let k = p.sectors_per_cluster as int;
    let cb = p.cluster_bytes();
    let n = s.len() as int;
    let q = pos / 512;
    lemma_dir_body(disk, p, dir);
    p.lemma_geometry();
    lemma_div_denominator(pos, 512, k);
    lemma_mod_breakdown(pos, 512, k);
    assert(cb == 512 * k);
    assert(pos / cb == q / k);
    assert(pos % cb == 512 * (q % k) + pos % 512);
    assert(0 <= q % k < k) by (nonlinear_arith)
        requires
            k > 0,
    ;
    assert(q < n * k) by (nonlinear_arith)
        requires
            pos < n * (k * 512),
            q == pos / 512,
            pos >= 0,
            k > 0,
    ;
    lemma_stream_sector(p, s, q);
    assert((pos % cb) / 512 == q % k);
    assert((pos % cb) % 512 == pos % 512);
    assert(pos % 512 + 32 <= 512);
    assert(pos % cb + 32 <= cb) by (nonlinear_arith)
        requires
            pos % cb == 512 * (q % k) + pos % 512,
            pos % 512 + 32 <= 512,
            0 <= q % k < k,
            cb == 512 * k,
    ;
    assert(record_at(disk, p, s[pos / cb], pos % cb) =~= record_of(body, i)) by {
        assert forall|j: int| 0 <= j < 32 implies record_at(disk, p, s[pos / cb], pos % cb)[j]
            == record_of(body, i)[j] by {
            assert((pos + j) / 512 == q);
            assert((pos + j) % 512 == pos % 512 + j);
            assert(body[pos + j] == extent(disk, p, s)[pos + j]);
        }
    }
}

/// A search looks only at the records: directories with the same records give
/// the same answer.
pub proof fn lemma_lookup_same(a: Seq<u8>, b: Seq<u8>, key: Seq<u8>, j: int)
    requires
        slot_count(a) == slot_count(b),
        forall|i: int|
            0 <= i < slot_count(a) ==> verdict(#[trigger] entry_at(a, i), key) == verdict(
                entry_at(b, i),
                key,
            ),
    ensures
        lookup_from(a, key, j) == lookup_from(b, key, j),
    decreases slot_count(a) - j,
{
    if 0 <= j < slot_count(a) {
        assert(verdict(entry_at(a, j), key) == verdict(entry_at(b, j), key));
        lemma_lookup_same(a, b, key, j + 1);
    }
}

/// The body of a directory after a write to a file that it lists and shares no
/// cluster with: the chain is the same, and so are the bytes, but for the
/// file's record.
pub proof fn lemma_listing_body(
    p: BootParams,
    d0: Disk,
    dir: ClusterChain,
    i: int,
    before: ClusterChain,
    after: ClusterChain,
    d1: Disk,
    offset: int,
    data: Seq<u8>,
)
    requires
        volume_fits(d0, p),
        volume_fits(d1, p),
        dir.is_dir,
        dir.valid(d0, p),
        0 <= i < slot_count(dir.content(d0, p)),
        before.wrote(p, d0, after, d1, offset, data),
        same_but(
            d1,
            with_record(
                d0,
                p,
                dir.clusters(d0, p)[(32 * i) / p.cluster_bytes()],
                (32 * i) % p.cluster_bytes(),
                updated_record(record_of(dir.content(d0, p), i), after.first_cluster, after.size),
            ),
            p,
            after.clusters(d1, p),
        ),
        forall|k: int|
            0 <= k < dir.clusters(d0, p).len() ==> !before.clusters(d0, p).contains(
                #[trigger] dir.clusters(d0, p)[k],
            ),
    ensures
        dir.clusters(d1, p) == dir.clusters(d0, p),
        dir.valid(d1, p),
        dir.content(d1, p) == splice(
            dir.content(d0, p),
            32 * i,
            updated_record(record_of(dir.content(d0, p), i), after.first_cluster, after.size),
        ),
{
    let ds = dir.clusters(d0, p);
    let body0 = dir.content(d0, p);
    let pos = 32 * i;
    let cb = p.cluster_bytes();
    let rec0 = record_of(body0, i);
    let bytes = updated_record(rec0, after.first_cluster, after.size);
    let dr = with_record(d0, p, ds[pos / cb], pos % cb, bytes);
    lemma_dir_body(d0, p, dir);
    lemma_stored_record(rec0, after.first_cluster, after.size, false);
    lemma_record_stored_in_body(p, d0, dir, i, bytes);
    lemma_dir_apart(p, d0, dir, before, d1, after, offset, data);
    lemma_body_untouched(p, dr, d1, dir, after.clusters(d1, p));
}

/// Storing a record at the place of record `i` of a directory changes that
/// record of its body and nothing else of it.
pub proof fn lemma_record_stored_in_body(
    p: BootParams,
    d0: Disk,
    dir: ClusterChain,
    i: int,
    bytes: Seq<u8>,
)
    requires
        volume_fits(d0, p),
        dir.is_dir,
        dir.valid(d0, p),
        0 <= i < slot_count(dir.content(d0, p)),
        bytes.len() == DIRENT_SZ,
    ensures
        ({
            let ds = dir.clusters(d0, p);
            let dr = with_record(
                d0,
                p,
                ds[(32 * i) / p.cluster_bytes()],
                (32 * i) % p.cluster_bytes(),
                bytes,
            );
            &&& volume_fits(dr, p)
            &&& fat_table(dr, p) == fat_table(d0, p)
            &&& dir.clusters(dr, p) == ds
            &&& dir.content(dr, p) == splice(dir.content(d0, p), 32 * i, bytes)
        }),
{
    let ds = dir.clusters(d0, p);
    let pos = 32 * i;
    let cb = p.cluster_bytes();
    let dc = ds[pos / cb];
    let off = pos % cb;
    let dr = with_record(d0, p, dc, off, bytes);
    lemma_record_in_body(p, d0, dir, i);
    lemma_dir_body(d0, p, dir);
    lemma_record_frame(d0, p, dc, off, bytes);
    assert(dir.clusters(dr, p) == ds);
    let t0 = fat_table(d0, p);
    lemma_walk_no_duplicates(t0, dir.first_cluster as int, t0.len());
    lemma_extent_store(d0, p, ds, pos, bytes);
    lemma_dir_body(dr, p, dir);
}

/// A write to a file leaves the directory that lists it in step: where the
/// directory and the file share no cluster, the directory has its chain and
/// all its records but the file's own, which carries the new first cluster and
/// size; and a search of the directory hands out for the file what the handle
/// holds after the write, and for any other name what it handed out before.
pub proof fn lemma_listing_follows(
    p: BootParams,
    d0: Disk,
    dir: ClusterChain,
    i: int,
    child0: NodeView,
    child1: NodeView,
    d1: Disk,
    offset: int,
    data: Seq<u8>,
    name: Seq<u8>,
)
    requires
        volume_fits(d0, p),
        volume_fits(d1, p),
        dir.is_dir,
        dir.valid(d0, p),
        0 <= i < slot_count(dir.content(d0, p)),
        child0 == child_view(dir, d0, p, i),
        data.len() > 0,
        child0.wrote(p, d0, child1, d1, offset, data),
        forall|k: int|
            0 <= k < dir.clusters(d0, p).len() ==> !child0.chain.clusters(d0, p).contains(
                #[trigger] dir.clusters(d0, p)[k],
            ),
    ensures
        dir.clusters(d1, p) == dir.clusters(d0, p),
        dir.valid(d1, p),
        dir.content(d1, p) == splice(
            dir.content(d0, p),
            32 * i,
            updated_record(
                record_of(dir.content(d0, p), i),
                child1.chain.first_cluster,
                child1.chain.size,
            ),
        ),
        child1 == child_view(dir, d1, p, i),
        find_spec(dir, d1, p, name) == if lookup(dir.content(d0, p), short_name(name)) == Some(i) {
            Some(child1)
        } else {
            find_spec(dir, d0, p, name)
        },
{
    let body0 = dir.content(d0, p);
    let rec0 = record_of(body0, i);
    let bytes = updated_record(rec0, child1.chain.first_cluster, child1.chain.size);
    lemma_record_in_body(p, d0, dir, i);
    lemma_listing_body(p, d0, dir, i, child0.chain, child1.chain, d1, offset, data);
    lemma_dir_body(d0, p, dir);
    lemma_stored_record(rec0, child1.chain.first_cluster, child1.chain.size, false);
    lemma_listing_search(p, d0, dir, i, d1, bytes, name);
    lemma_decode_encode(
        EntryView {
            first_cluster: child1.chain.first_cluster,
            size: child1.chain.size,
            ..decode_entry(rec0)
        },
    );
}

/// A search of a directory after one of its records was replaced by one with
/// the same name: the search for that record's name finds the new record, and
/// any other search finds what it found before.
pub proof fn lemma_listing_search(
    p: BootParams,
    d0: Disk,
    dir: ClusterChain,
    i: int,
    d1: Disk,
    bytes: Seq<u8>,
    name: Seq<u8>,
)
    requires
        volume_fits(d0, p),
        volume_fits(d1, p),
        dir.is_dir,
        0 <= i < slot_count(dir.content(d0, p)),
        bytes.len() == DIRENT_SZ,
        decode_entry(bytes).name == entry_at(dir.content(d0, p), i).name,
        dir.clusters(d1, p) == dir.clusters(d0, p),
        dir.content(d1, p) == splice(dir.content(d0, p), 32 * i, bytes),
    ensures
        entry_at(dir.content(d1, p), i) == decode_entry(bytes),
        find_spec(dir, d1, p, name) == if lookup(dir.content(d0, p), short_name(name)) == Some(i) {
            Some(child_view(dir, d1, p, i))
        } else {
            find_spec(dir, d0, p, name)
        },
{
    let body0 = dir.content(d0, p);
    let body1 = dir.content(d1, p);
    let key = short_name(name);
    lemma_listing_records(body0, body1, i, bytes, key);
    lemma_lookup_same(body1, body0, key, 0);
    lemma_lookup_bounds(body0, key, 0);
}

/// A directory body with one record replaced has all its other records as they
/// were; where the name and the attributes of the record stay, every record
/// means to a search what it meant before.
pub proof fn lemma_listing_records(
    body0: Seq<u8>,
    body1: Seq<u8>,
    i: int,
    bytes: Seq<u8>,
    key: Seq<u8>,
)
    requires
        0 <= i < slot_count(body0),
        bytes.len() == DIRENT_SZ,
        body1 == splice(body0, 32 * i, bytes),
    ensures
        slot_count(body1) == slot_count(body0),
        record_of(body1, i) == bytes,
        forall|j: int|
            0 <= j < slot_count(body0) && j != i ==> #[trigger] record_of(body1, j) == record_of(
                body0,
                j,
            ),
        decode_entry(bytes).name == entry_at(body0, i).name ==> forall|j: int|
            0 <= j < slot_count(body1) ==> verdict(#[trigger] entry_at(body1, j), key) == verdict(
                entry_at(body0, j),
                key,
            ),
{
    assert(record_of(body1, i) =~= bytes);
    assert forall|j: int| 0 <= j < slot_count(body0) && j != i implies #[trigger] record_of(body1, j)
        == record_of(body0, j) by {
        assert(record_of(body1, j) =~= record_of(body0, j));
    }
    if decode_entry(bytes).name == entry_at(body0, i).name {
        assert forall|j: int| 0 <= j < slot_count(body1) implies verdict(
            #[trigger] entry_at(body1, j),
            key,
        ) == verdict(entry_at(body0, j), key) by {
            if j != i {
                assert(record_of(body1, j) == record_of(body0, j));
            }
        }
    }
}

/// A search finds a record in a slot of the directory.
pub proof fn lemma_lookup_bounds(body: Seq<u8>, key: Seq<u8>, j: int)
    requires
        0 <= j,
    ensures
        lookup_from(body, key, j) is Some ==> j <= lookup_from(body, key, j)->Some_0 < slot_count(
            body,
        ),
    decreases slot_count(body) - j,
{
    if j < slot_count(body) {
        lemma_lookup_bounds(body, key, j + 1);
    }
}

/// A directory that shares no cluster with a file before a write to the file
/// shares none with it after the write, and the entries of its clusters in
/// the table are as they were.
pub proof fn lemma_dir_apart(
    p: BootParams,
    d0: Disk,
    dir: ClusterChain,
    before: ClusterChain,
    d1: Disk,
    after: ClusterChain,
    offset: int,
    data: Seq<u8>,
)
    requires
        volume_fits(d0, p),
        volume_fits(d1, p),
        dir.valid(d0, p),
        before.wrote(p, d0, after, d1, offset, data),
        forall|k: int|
            0 <= k < dir.clusters(d0, p).len() ==> !before.clusters(d0, p).contains(
                #[trigger] dir.clusters(d0, p)[k],
            ),
    ensures
        forall|k: int|
            0 <= k < dir.clusters(d0, p).len() ==> !after.clusters(d1, p).contains(
                #[trigger] dir.clusters(d0, p)[k],
            ) && fat_table(d1, p)[dir.clusters(d0, p)[k]] == fat_table(d0, p)[dir.clusters(d0, p)[k]],
{
    let t0 = fat_table(d0, p);
    let t1 = fat_table(d1, p);
    let ds = dir.clusters(d0, p);
    let s0 = before.clusters(d0, p);
    let s1 = after.clusters(d1, p);
    lemma_walk_basics(t0, dir.first_cluster as int, t0.len());
    if ds.len() > 0 {
        lemma_walk_in_use(t0, dir.first_cluster as int, t0.len());
    }
    assert forall|k: int| 0 <= k < ds.len() implies !s1.contains(#[trigger] ds[k]) && t1[ds[k]]
        == t0[ds[k]] by {
        lemma_record_outside(t0, s0, t1, s1, ds[k]);
        if s0.len() > 0 {
            assert(s0.contains(s0[s0.len() - 1]));
        }
    }
}

/// Disks that differ only in the tables differ in no cluster.
pub proof fn lemma_outside_is_same_but(p: BootParams, a: Disk, b: Disk, s: Seq<int>)
    requires
        p.geometry_ok(),
        p.total_sectors <= a.len(),
        same_outside_tables(a, b, p),
    ensures
        same_but(a, b, p, s),
{
    assert forall|d: int| p.is_cluster(d) && !s.contains(d) implies #[trigger] same_cluster(a, b, p, d) by {
        p.lemma_sector_of(d);
    }
}

/// The search of a directory from slot `j` on, after the live record `i` was
/// marked deleted: a search that found record `i` goes on behind it, and any
/// other finds what it found before.
pub proof fn lemma_lookup_deleted(body0: Seq<u8>, body1: Seq<u8>, key: Seq<u8>, i: int, j: int)
    requires
        0 <= j,
        0 <= i < slot_count(body0),
        slot_count(body1) == slot_count(body0),
        entry_at(body0, i).is_live(),
        entry_at(body1, i).is_deleted(),
        !entry_at(body1, i).is_end(),
        forall|k: int|
            0 <= k < slot_count(body0) && k != i ==> #[trigger] record_of(body1, k) == record_of(
                body0,
                k,
            ),
    ensures
        lookup_from(body1, key, j) == if lookup_from(body0, key, j) == Some(i) {
            lookup_from(body0, key, i + 1)
        } else {
            lookup_from(body0, key, j)
        },
    decreases slot_count(body0) - j,
{
    if j < slot_count(body0) {
        lemma_lookup_deleted(body0, body1, key, i, j + 1);
        lemma_lookup_bounds(body0, key, j + 1);
        lemma_lookup_bounds(body0, key, i + 1);
        if j != i {
            assert(record_of(body1, j) == record_of(body0, j));
        }
    }
}

/// A file that was deleted is not found any more: where the directory that
/// lists it in a live record shares no cluster with it, the directory has its
/// chain and all its records but the file's own, which is marked deleted; a
/// search that found the file goes on behind its record, and any other finds
/// what it found before.
pub proof fn lemma_deleted_not_found(
    p: BootParams,
    d0: Disk,
    dir: ClusterChain,
    i: int,
    child0: NodeView,
    child1: NodeView,
    d1: Disk,
    key: Seq<u8>,
)
    requires
        volume_fits(d0, p),
        volume_fits(d1, p),
        dir.is_dir,
        dir.valid(d0, p),
        0 <= i < slot_count(dir.content(d0, p)),
        entry_at(dir.content(d0, p), i).is_live(),
        child0 == child_view(dir, d0, p, i),
        child0.retired(p, d0, child1, d1, true),
        forall|k: int|
            0 <= k < dir.clusters(d0, p).len() ==> !child0.chain.clusters(d0, p).contains(
                #[trigger] dir.clusters(d0, p)[k],
            ),
    ensures
        dir.clusters(d1, p) == dir.clusters(d0, p),
        dir.valid(d1, p),
        dir.content(d1, p) == splice(
            dir.content(d0, p),
            32 * i,
            deleted_record(record_of(dir.content(d0, p), i)),
        ),
        dir.content(d1, p)[32 * i] == DELETED_MARK,
        lookup(dir.content(d1, p), key) != Some(i),
        lookup(dir.content(d1, p), key) == if lookup(dir.content(d0, p), key) == Some(i) {
            lookup_from(dir.content(d0, p), key, i + 1)
        } else {
            lookup(dir.content(d0, p), key)
        },
{
    let ds = dir.clusters(d0, p);
    let body0 = dir.content(d0, p);
    let rec0 = record_of(body0, i);
    let bytes = deleted_record(rec0);
    let pos = 32 * i;
    let cb = p.cluster_bytes();
    let dr = with_record(d0, p, ds[pos / cb], pos % cb, bytes);
    lemma_record_in_body(p, d0, dir, i);
    lemma_dir_body(d0, p, dir);
    lemma_stored_record(rec0, 0, 0, true);
    lemma_record_stored_in_body(p, d0, dir, i, bytes);
    lemma_dir_released(p, d0, dir, child0.chain, d1);
    lemma_outside_is_same_but(p, d1, dr, Seq::<int>::empty());
    lemma_body_untouched(p, dr, d1, dir, Seq::<int>::empty());
    lemma_dir_body(d1, p, dir);
    let body1 = dir.content(d1, p);
    lemma_listing_records(body0, body1, i, bytes, key);
    assert(body1[32 * i] == record_of(body1, i)[0]);
    assert(entry_at(body1, i).name[0] == record_of(body1, i)[0]);
    lemma_lookup_deleted(body0, body1, key, i, 0);
    lemma_lookup_bounds(body0, key, i + 1);
}

/// The release of a file's chain leaves the table entries of a directory that
/// shares no cluster with the file as they were.
pub proof fn lemma_dir_released(
    p: BootParams,
    d0: Disk,
    dir: ClusterChain,
    file: ClusterChain,
    d1: Disk,
)
    requires
        p.geometry_ok(),
        file.valid(d0, p),
        fat_table(d1, p) == released(
            fat_table(d0, p),
            file.first_cluster as int,
            p.entries() as nat,
        ),
        forall|k: int|
            0 <= k < dir.clusters(d0, p).len() ==> !file.clusters(d0, p).contains(
                #[trigger] dir.clusters(d0, p)[k],
            ),
    ensures
        forall|k: int|
            0 <= k < dir.clusters(d0, p).len() ==> fat_table(d1, p)[#[trigger] dir.clusters(
                d0,
                p,
            )[k]] == fat_table(d0, p)[dir.clusters(d0, p)[k]],
{
    let t0 = fat_table(d0, p);
    lemma_walk_basics(t0, dir.first_cluster as int, t0.len());
    if file.first_cluster != 0 {
        lemma_released(t0, file.first_cluster as int, t0.len());
    }
}

} // verus!
