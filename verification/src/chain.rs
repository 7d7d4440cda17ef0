//! Cluster chains, and the bytes of a file or directory laid out on one.
use vstd::prelude::*;
use vstd::set_lib::{lemma_int_range, lemma_len_subset, set_int_range};
use crate::error::FsError;
use crate::block_dev::{BlockDevice, BLOCK_SZ};
use crate::block_cache::BlockCache;
use crate::codec::{splice, zeros, copy_range, append_bytes};
use crate::layout::{BootParams, END_OF_CHAIN, END_OF_CHAIN_MIN, FREE_CLUSTER, BAD_CLUSTER};
use crate::fat::{Disk, FAT, fat_table, volume_fits, same_outside_tables, same_tables, lemma_same_tables, mirrored, free_count, free_below, released, none_free};

verus! {

/// `c` numbers an entry of `t` that stands for a cluster.
pub open spec fn in_table(t: Seq<u32>, c: int) -> bool {
    2 <= c < t.len()
}

/// The clusters met from `c` on by following the next-pointers of `t`: the walk
/// stops before a value that numbers no cluster, and after `fuel` clusters at
/// the latest.
pub open spec fn walk(t: Seq<u32>, c: int, fuel: nat) -> Seq<int>
    decreases fuel,
{
    if fuel == 0 || !in_table(t, c) {
        Seq::empty()
    } else {
        seq![c] + walk(t, t[c] as int, (fuel - 1) as nat)
    }
}

/// The chain that starts at cluster `first`, walked for as many clusters as the
/// table has entries at most. A `first` of zero stands for the empty chain.
pub open spec fn chain_of(t: Seq<u32>, first: u32) -> Seq<int> {
    walk(t, first as int, t.len())
}

/// The walk `s` stopped at an end-of-chain mark.
pub open spec fn ends_well(t: Seq<u32>, s: Seq<int>) -> bool {
    s.len() > 0 && t[s.last()] >= END_OF_CHAIN_MIN
}

/// The chain from `first` is sound: it is empty, or it reaches an end-of-chain
/// mark through clusters of the table, within as many steps as the table has
/// entries.
pub open spec fn chain_ok(t: Seq<u32>, first: u32) -> bool {
    first == 0 || ends_well(t, chain_of(t, first))
}

/// The table has no more entries than cluster numbers below the bad-cluster
/// mark, so that a mark is never taken for a cluster.
pub open spec fn table_ok(t: Seq<u32>) -> bool {
    3 <= t.len() <= BAD_CLUSTER
}

/// A walk has at most `fuel` clusters, all of the table, each the successor of
/// the one before.
pub proof fn lemma_walk_basics(t: Seq<u32>, c: int, fuel: nat)
    ensures
        walk(t, c, fuel).len() <= fuel,
        walk(t, c, fuel).len() > 0 ==> walk(t, c, fuel)[0] == c,
        forall|k: int| 0 <= k < walk(t, c, fuel).len() ==> in_table(t, #[trigger] walk(t, c, fuel)[k]),
        forall|k: int|
            0 <= k && k + 1 < walk(t, c, fuel).len() ==> #[trigger] walk(t, c, fuel)[k + 1] == t[walk(
                t,
                c,
                fuel,
            )[k]] as int,
    decreases fuel,
{
    if fuel == 0 || !in_table(t, c) {
    } else {
        let rest = walk(t, t[c] as int, (fuel - 1) as nat);
        lemma_walk_basics(t, t[c] as int, (fuel - 1) as nat);
        let w = walk(t, c, fuel);
        assert(w =~= seq![c] + rest);
        assert forall|k: int| 0 <= k < w.len() implies in_table(t, #[trigger] w[k]) by {
            if k > 0 {
                assert(w[k] == rest[k - 1]);
            }
        }
        assert forall|k: int| 0 <= k && k + 1 < w.len() implies #[trigger] w[k + 1] == t[w[k]] as int by {
            assert(w[k + 1] == rest[k]);
            if k > 0 {
                assert(w[k] == rest[k - 1]);
                assert(rest[(k - 1) + 1] == t[rest[k - 1]] as int);
            }
        }
    }
}

/// What is left of a walk after `k` clusters is the walk from the next one.
pub proof fn lemma_walk_suffix(t: Seq<u32>, c: int, fuel: nat, k: int)
    requires
        0 <= k < walk(t, c, fuel).len(),
    ensures
        k <= fuel,
        walk(t, c, fuel).skip(k) == walk(t, walk(t, c, fuel)[k], (fuel - k) as nat),
    decreases k,
{
    lemma_walk_basics(t, c, fuel);
    let w = walk(t, c, fuel);
    if k == 0 {
        assert(w.skip(0) =~= w);
    } else {
        let rest = walk(t, t[c] as int, (fuel - 1) as nat);
        assert(w =~= seq![c] + rest);
        lemma_walk_suffix(t, t[c] as int, (fuel - 1) as nat, k - 1);
        assert(w.skip(k) =~= rest.skip(k - 1));
        assert(w[k] == rest[k - 1]);
    }
}

/// A walk that stopped at an end-of-chain mark is the same with any fuel that
/// suffices for it.
pub proof fn lemma_walk_fuel(t: Seq<u32>, c: int, fuel: nat, more: nat)
    requires
        table_ok(t),
        ends_well(t, walk(t, c, fuel)),
        walk(t, c, fuel).len() <= more,
    ensures
        walk(t, c, more) == walk(t, c, fuel),
    decreases fuel,
{
    let w = walk(t, c, fuel);
    let rest = walk(t, t[c] as int, (fuel - 1) as nat);
    assert(w =~= seq![c] + rest);
    if rest.len() == 0 {
        assert(w.last() == c);
        assert(!in_table(t, t[c] as int));
        assert(walk(t, t[c] as int, (more - 1) as nat) =~= Seq::<int>::empty());
    } else {
        assert(w.last() == rest.last());
        lemma_walk_fuel(t, t[c] as int, (fuel - 1) as nat, (more - 1) as nat);
    }
}

/// A walk that stopped at an end-of-chain mark meets no cluster twice.
pub proof fn lemma_walk_no_duplicates(t: Seq<u32>, c: int, fuel: nat)
    requires
        table_ok(t),
        ends_well(t, walk(t, c, fuel)),
    ensures
        walk(t, c, fuel).no_duplicates(),
    decreases fuel,
{
    let w = walk(t, c, fuel);
    let rest = walk(t, t[c] as int, (fuel - 1) as nat);
    assert(w =~= seq![c] + rest);
    if rest.len() > 0 {
        assert(w.last() == rest.last());
        lemma_walk_no_duplicates(t, t[c] as int, (fuel - 1) as nat);
        lemma_walk_basics(t, t[c] as int, (fuel - 1) as nat);
        if rest.contains(c) {
            let k = choose|k: int| 0 <= k < rest.len() && rest[k] == c;
            lemma_walk_suffix(t, t[c] as int, (fuel - 1) as nat, k);
            let tail = walk(t, c, (fuel - 1 - k) as nat);
            assert(rest.skip(k) == tail);
            assert(tail.last() == rest.last());
            lemma_walk_fuel(t, c, (fuel - 1 - k) as nat, fuel);
            assert(tail.len() == rest.len() - k);
            assert(false);
        }
        assert forall|i: int, j: int| 0 <= i < w.len() && 0 <= j < w.len() && i != j implies w[i]
            != w[j] by {
            if i == 0 {
                assert(w[j] == rest[j - 1]);
            } else if j == 0 {
                assert(w[i] == rest[i - 1]);
            } else {
                assert(w[i] == rest[i - 1] && w[j] == rest[j - 1]);
            }
        }
    }
}

/// A sound chain has fewer clusters than the table has entries.
pub proof fn lemma_chain_len(t: Seq<u32>, c: int, fuel: nat)
    requires
        table_ok(t),
        ends_well(t, walk(t, c, fuel)),
    ensures
        walk(t, c, fuel).len() <= t.len() - 2,
{
    let w = walk(t, c, fuel);
    lemma_walk_no_duplicates(t, c, fuel);
    lemma_walk_basics(t, c, fuel);
    w.unique_seq_to_set();
    lemma_int_range(2, t.len() as int);
    assert(w.to_set().subset_of(set_int_range(2, t.len() as int))) by {
        assert forall|x: int| w.to_set().contains(x) implies set_int_range(
            2,
            t.len() as int,
        ).contains(x) by {
            let k = choose|k: int| 0 <= k < w.len() && w[k] == x;
            assert(in_table(t, w[k]));
        }
    }
    lemma_len_subset(w.to_set(), set_int_range(2, t.len() as int));
}

/// A walk looks only at the entries of its own clusters.
pub proof fn lemma_walk_frame(t: Seq<u32>, u: Seq<u32>, c: int, fuel: nat)
    requires
        t.len() == u.len(),
        forall|k: int|
            0 <= k < walk(t, c, fuel).len() ==> u[#[trigger] walk(t, c, fuel)[k]] == t[walk(
                t,
                c,
                fuel,
            )[k]],
    ensures
        walk(u, c, fuel) == walk(t, c, fuel),
    decreases fuel,
{
    if fuel == 0 || !in_table(t, c) {
    } else {
        let w = walk(t, c, fuel);
        let rest = walk(t, t[c] as int, (fuel - 1) as nat);
        assert(w =~= seq![c] + rest);
        assert(w[0] == c);
        assert forall|k: int| 0 <= k < rest.len() implies u[#[trigger] rest[k]] == t[rest[k]] by {
            assert(w[k + 1] == rest[k]);
        }
        lemma_walk_frame(t, u, t[c] as int, (fuel - 1) as nat);
    }
}

/// Every entry of a walk that stopped at an end-of-chain mark is in use.
pub proof fn lemma_walk_in_use(t: Seq<u32>, c: int, fuel: nat)
    requires
        table_ok(t),
        ends_well(t, walk(t, c, fuel)),
    ensures
        forall|k: int|
            0 <= k < walk(t, c, fuel).len() ==> t[#[trigger] walk(t, c, fuel)[k]] != FREE_CLUSTER,
{
    let w = walk(t, c, fuel);
    lemma_walk_basics(t, c, fuel);
    assert forall|k: int| 0 <= k < w.len() implies t[#[trigger] w[k]] != FREE_CLUSTER by {
        if k + 1 < w.len() {
            assert(w[k + 1] == t[w[k]] as int);
            assert(in_table(t, w[k + 1]));
        }
    }
}

/// Linking a free cluster behind the last cluster of a sound chain gives the
/// chain with that cluster at its end.
pub proof fn lemma_walk_extend(t: Seq<u32>, c: int, fuel: nat, fresh: int)
    requires
        table_ok(t),
        ends_well(t, walk(t, c, fuel)),
        walk(t, c, fuel).len() < fuel,
        in_table(t, fresh),
        t[fresh] == FREE_CLUSTER,
    ensures
        ({
            let s = walk(t, c, fuel);
            let u = t.update(fresh, END_OF_CHAIN).update(s.last(), fresh as u32);
            &&& walk(u, c, fuel) == s.push(fresh)
            &&& ends_well(u, walk(u, c, fuel))
        }),
    decreases fuel,
{
    let s = walk(t, c, fuel);
    let u = t.update(fresh, END_OF_CHAIN).update(s.last(), fresh as u32);
    let rest = walk(t, t[c] as int, (fuel - 1) as nat);
    assert(s =~= seq![c] + rest);
    lemma_walk_in_use(t, c, fuel);
    lemma_walk_basics(t, c, fuel);
    assert(s[0] == c);
    assert(c != fresh);
    if rest.len() == 0 {
        assert(s.last() == c);
        assert(u[c] == fresh as u32);
        assert(u[fresh] == END_OF_CHAIN);
        assert(walk(u, END_OF_CHAIN as int, (fuel - 2) as nat) =~= Seq::<int>::empty());
        assert(walk(u, fresh, (fuel - 1) as nat) =~= seq![fresh]);
        assert(walk(u, c, fuel) =~= s.push(fresh));
    } else {
        assert(s.last() == rest.last());
        lemma_walk_no_duplicates(t, c, fuel);
        assert(s.last() == s[s.len() - 1]);
        assert(s.last() != c);
        assert(u[c] == t[c]);
        lemma_walk_extend(t, t[c] as int, (fuel - 1) as nat, fresh);
        assert(walk(u, c, fuel) =~= s.push(fresh));
    }
    assert(walk(u, c, fuel).last() == fresh);
}

/// Following the next-pointers from the first cluster of a sound chain leads,
/// cluster by cluster and with as many steps as the chain has clusters but
/// one, to a cluster whose entry is an end-of-chain mark; no cluster is met
/// twice.
pub proof fn lemma_chain_integrity(t: Seq<u32>, first: u32)
    requires
        table_ok(t),
        chain_ok(t, first),
        first != 0,
    ensures
        ({
            let s = chain_of(t, first);
            &&& 1 <= s.len() <= t.len() - 2
            &&& s[0] == first
            &&& forall|k: int| 0 <= k < s.len() ==> in_table(t, #[trigger] s[k])
            &&& forall|k: int| 0 <= k < s.len() - 1 ==> t[s[k]] as int == #[trigger] s[k + 1]
            &&& t[s.last()] >= END_OF_CHAIN_MIN
            &&& s.no_duplicates()
        }),
{
    lemma_walk_basics(t, first as int, t.len());
    lemma_walk_no_duplicates(t, first as int, t.len());
    lemma_chain_len(t, first as int, t.len());
}

/// Linking a free cluster to a sound chain, as its first cluster if the chain
/// is empty and behind its last otherwise, gives a sound chain with that
/// cluster at its end, and one free cluster less.
pub proof fn lemma_link(t: Seq<u32>, first: u32, c: u32)
    requires
        table_ok(t),
        chain_ok(t, first),
        in_table(t, c as int),
        t[c as int] == FREE_CLUSTER,
    ensures
        ({
            let s = chain_of(t, first);
            let u = if s.len() == 0 {
                t.update(c as int, END_OF_CHAIN)
            } else {
                t.update(c as int, END_OF_CHAIN).update(s.last(), c)
            };
            let f = if s.len() == 0 {
                c
            } else {
                first
            };
            &&& s.len() == 0 <==> first == 0
            &&& s.len() > 0 ==> in_table(t, s.last()) && s.last() != c
            &&& chain_of(u, f) == s.push(c as int)
            &&& chain_ok(u, f)
            &&& free_count(u) == free_count(t) - 1
        }),
{
    let s = chain_of(t, first);
    let ta = t.update(c as int, END_OF_CHAIN);
    lemma_walk_basics(t, first as int, t.len());
    lemma_free_below_update(t, c as int, END_OF_CHAIN, t.len() as int);
    if s.len() == 0 {
        assert(walk(ta, END_OF_CHAIN as int, (ta.len() - 1) as nat) =~= Seq::<int>::empty());
        assert(walk(ta, c as int, ta.len()) =~= seq![c as int]);
        assert(seq![c as int] =~= s.push(c as int));
    } else {
        lemma_chain_len(t, first as int, t.len());
        lemma_walk_extend(t, first as int, t.len(), c as int);
        lemma_walk_in_use(t, first as int, t.len());
        assert(in_table(t, s[s.len() - 1]));
        assert(t[s[s.len() - 1]] != FREE_CLUSTER);
        lemma_free_below_update(ta, s.last(), c, ta.len() as int);
    }
}

/// Setting an entry that is in use free adds one to the number of free
/// clusters; taking a free entry into use takes one away; any other change of
/// one entry leaves the number as it is.
pub proof fn lemma_free_below_update(t: Seq<u32>, c: int, v: u32, hi: int)
    requires
        0 <= c < t.len(),
        hi <= t.len(),
    ensures
        free_below(t.update(c, v), hi) == free_below(t, hi) + (if 2 <= c < hi && v == FREE_CLUSTER
            && t[c] != FREE_CLUSTER {
            1int
        } else if 2 <= c < hi && v != FREE_CLUSTER && t[c] == FREE_CLUSTER {
            -1int
        } else {
            0int
        }),
    decreases hi,
{
    if hi > 2 {
        lemma_free_below_update(t, c, v, hi - 1);
    }
}

/// The number of free clusters is zero exactly when no entry is free.
pub proof fn lemma_free_below_zero(t: Seq<u32>, hi: int)
    requires
        hi <= t.len(),
    ensures
        free_below(t, hi) == 0 <==> none_free(t, 2, hi),
    decreases hi,
{
    if hi > 2 {
        lemma_free_below_zero(t, hi - 1);
        if none_free(t, 2, hi) {
            assert(none_free(t, 2, hi - 1));
        }
        if free_below(t, hi) == 0 {
            assert forall|d: int| 2 <= d < hi implies #[trigger] t[d] != FREE_CLUSTER by {
                if d < hi - 1 {
                    assert(none_free(t, 2, hi - 1));
                }
            }
        }
    }
}

/// Releasing a sound chain sets exactly its clusters free.
pub proof fn lemma_released(t: Seq<u32>, c: int, fuel: nat)
    requires
        table_ok(t),
        ends_well(t, walk(t, c, fuel)),
    ensures
        released(t, c, fuel).len() == t.len(),
        forall|x: int|
            0 <= x < t.len() ==> #[trigger] released(t, c, fuel)[x] == (if walk(t, c, fuel).contains(
                x,
            ) {
                FREE_CLUSTER
            } else {
                t[x]
            }),
        free_count(released(t, c, fuel)) == free_count(t) + walk(t, c, fuel).len(),
    decreases fuel,
{
    let s = walk(t, c, fuel);
    let rest = walk(t, t[c] as int, (fuel - 1) as nat);
    assert(s =~= seq![c] + rest);
    assert(s[0] == c);
    let u = t.update(c, FREE_CLUSTER);
    lemma_walk_in_use(t, c, fuel);
    lemma_walk_basics(t, c, fuel);
    lemma_free_below_update(t, c, FREE_CLUSTER, t.len() as int);
    if rest.len() == 0 {
        assert(!in_table(t, t[c] as int));
        assert(released(u, t[c] as int, (fuel - 1) as nat) == u);
        assert forall|x: int| 0 <= x < t.len() implies #[trigger] released(t, c, fuel)[x] == (
        if s.contains(x) {
            FREE_CLUSTER
        } else {
            t[x]
        }) by {
            if x != c && s.contains(x) {
                let k = choose|k: int| 0 <= k < s.len() && s[k] == x;
            }
        }
    } else {
        assert(s.last() == rest.last());
        lemma_walk_no_duplicates(t, c, fuel);
        assert forall|k: int| 0 <= k < rest.len() implies u[#[trigger] rest[k]] == t[rest[k]] by {
            assert(s[k + 1] == rest[k]);
            assert(s[k + 1] != s[0]);
        }
        lemma_walk_frame(t, u, t[c] as int, (fuel - 1) as nat);
        assert(walk(u, t[c] as int, (fuel - 1) as nat) == rest);
        assert(u[rest.last()] == t[rest.last()]);
        lemma_released(u, t[c] as int, (fuel - 1) as nat);
        assert forall|x: int| 0 <= x < t.len() implies #[trigger] released(t, c, fuel)[x] == (
        if s.contains(x) {
            FREE_CLUSTER
        } else {
            t[x]
        }) by {
            if rest.contains(x) {
                let k = choose|k: int| 0 <= k < rest.len() && rest[k] == x;
                assert(s[k + 1] == x);
            } else if x == c {
            } else if s.contains(x) {
                let k = choose|k: int| 0 <= k < s.len() && s[k] == x;
                assert(rest[k - 1] == x);
            }
        }
    }
}

/// Every cluster of `s` is a cluster of the data region.
pub open spec fn all_clusters(p: BootParams, s: Seq<int>) -> bool {
    forall|k: int| 0 <= k < s.len() ==> p.is_cluster(#[trigger] s[k])
}

/// The number of sectors that the chain `s` covers.
pub open spec fn stream_sectors(p: BootParams, s: Seq<int>) -> int {
    s.len() * p.sectors_per_cluster
}

/// The device sector that holds sector `q` of the chain `s`.
pub open spec fn stream_sector(p: BootParams, s: Seq<int>, q: int) -> int {
    p.sector_of(s[q / (p.sectors_per_cluster as int)]) + q % (p.sectors_per_cluster as int)
}

/// The bytes that the clusters of `s` hold, cluster after cluster.
pub open spec fn extent(disk: Disk, p: BootParams, s: Seq<int>) -> Seq<u8> {
    Seq::new(
        (stream_sectors(p, s) * 512) as nat,
        |i: int| disk[stream_sector(p, s, i / 512)][i % 512],
    )
}

/// A chain that fits the table covers less than 2^44 bytes.
pub proof fn lemma_stream_bound(p: BootParams, s: Seq<int>, entries: int)
    requires
        p.geometry_ok(),
        s.len() <= entries <= BAD_CLUSTER,
    ensures
        0 <= stream_sectors(p, s) * 512 <= 0x1000_0000_0000,
{
    let n = s.len() as int;
    let k = p.sectors_per_cluster as int;
    assert(0 <= n * k <= 0x1000_0000 * 128) by (nonlinear_arith)
        requires
            0 <= n <= 0x1000_0000,
            0 <= k <= 128,
    ;
}

/// The number of clusters needed to hold `bytes` bytes.
pub open spec fn clusters_for(p: BootParams, bytes: int) -> int {
    (bytes + p.cluster_bytes() - 1) / p.cluster_bytes()
}

/// A sector of a chain lies in the data region, in the cluster that its index
/// says.
pub proof fn lemma_stream_sector(p: BootParams, s: Seq<int>, q: int)
    requires
        p.geometry_ok(),
        all_clusters(p, s),
        0 <= q < stream_sectors(p, s),
    ensures
        0 <= q / (p.sectors_per_cluster as int) < s.len(),
        0 <= q % (p.sectors_per_cluster as int) < p.sectors_per_cluster,
        q == (q / (p.sectors_per_cluster as int)) * p.sectors_per_cluster + q % (
        p.sectors_per_cluster as int),
        p.data_start() <= stream_sector(p, s, q) < p.total_sectors,
        p.sector_of(s[q / (p.sectors_per_cluster as int)]) <= stream_sector(p, s, q) < p.sector_of(
            s[q / (p.sectors_per_cluster as int)],
        ) + p.sectors_per_cluster,
{
    let k = p.sectors_per_cluster as int;
    let n = s.len() as int;
    assert(0 <= q / k < n && 0 <= q % k < k && q == (q / k) * k + q % k) by (nonlinear_arith)
        requires
            0 <= q < n * k,
            k > 0,
    ;
    p.lemma_sector_of(s[q / k]);
}

/// Different sectors of a chain without duplicates lie in different device
/// sectors.
pub proof fn lemma_stream_injective(p: BootParams, s: Seq<int>, q1: int, q2: int)
    requires
        p.geometry_ok(),
        all_clusters(p, s),
        s.no_duplicates(),
        0 <= q1 < stream_sectors(p, s),
        0 <= q2 < stream_sectors(p, s),
        q1 != q2,
    ensures
        stream_sector(p, s, q1) != stream_sector(p, s, q2),
{
    let k = p.sectors_per_cluster as int;
    lemma_stream_sector(p, s, q1);
    lemma_stream_sector(p, s, q2);
    let c1 = s[q1 / k];
    let c2 = s[q2 / k];
    if q1 / k != q2 / k {
        assert(c1 != c2);
        p.lemma_sector_of(c1);
        p.lemma_sector_of(c2);
        if c1 < c2 {
            assert(p.sector_of(c1) + k <= p.sector_of(c2));
        } else {
            assert(p.sector_of(c2) + k <= p.sector_of(c1));
        }
    }
}

/// Storing a piece inside one sector of a chain changes the bytes of the chain
/// at that place and no others.
pub proof fn lemma_extent_store(disk: Disk, p: BootParams, s: Seq<int>, pos: int, piece: Seq<u8>)
    requires
        volume_fits(disk, p),
        all_clusters(p, s),
        s.no_duplicates(),
        0 <= pos,
        pos / 512 < stream_sectors(p, s),
        pos % 512 + piece.len() <= 512,
    ensures
        ({
            let b = stream_sector(p, s, pos / 512);
            let after = disk.update(b, splice(disk[b], pos % 512, piece));
            &&& volume_fits(after, p)
            &&& same_tables(after, disk, p)
            &&& extent(after, p, s) == splice(extent(disk, p, s), pos, piece)
        }),
{
    let b = stream_sector(p, s, pos / 512);
    let after = disk.update(b, splice(disk[b], pos % 512, piece));
    lemma_stream_sector(p, s, pos / 512);
    assert(after[b].len() == BLOCK_SZ);
    let e0 = extent(disk, p, s);
    let e1 = extent(after, p, s);
    assert forall|i: int| 0 <= i < e0.len() implies e1[i] == splice(e0, pos, piece)[i] by {
        let q = i / 512;
        lemma_stream_sector(p, s, q);
        if q != pos / 512 {
            lemma_stream_injective(p, s, q, pos / 512);
        }
    }
    assert(e1 =~= splice(e0, pos, piece));
}

/// The bytes of a chain with one more cluster start with the bytes of the
/// chain.
pub proof fn lemma_extent_push(disk: Disk, p: BootParams, s: Seq<int>, c: int)
    requires
        p.geometry_ok(),
        all_clusters(p, s),
        p.is_cluster(c),
    ensures
        all_clusters(p, s.push(c)),
        stream_sectors(p, s.push(c)) == stream_sectors(p, s) + p.sectors_per_cluster,
        extent(disk, p, s.push(c)).len() == extent(disk, p, s).len() + p.cluster_bytes(),
        extent(disk, p, s.push(c)).subrange(0, extent(disk, p, s).len() as int) == extent(
            disk,
            p,
            s,
        ),
        forall|j: int|
            0 <= j < p.sectors_per_cluster ==> #[trigger] stream_sector(
                p,
                s.push(c),
                stream_sectors(p, s) + j,
            ) == p.sector_of(c) + j,
{
    let k = p.sectors_per_cluster as int;
    let n = s.len() as int;
    let s2 = s.push(c);
    assert((n + 1) * k == n * k + k && n * k >= 0) by (nonlinear_arith)
        requires
            n >= 0,
            k > 0,
    ;
    assert forall|i: int| 0 <= i < s2.len() implies p.is_cluster(#[trigger] s2[i]) by {
        if i < n {
            assert(s2[i] == s[i]);
        }
    }
    let e = extent(disk, p, s);
    let e2 = extent(disk, p, s2);
    assert forall|i: int| 0 <= i < e.len() implies e2[i] == e[i] by {
        lemma_stream_sector(p, s, i / 512);
        assert(s2[(i / 512) / k] == s[(i / 512) / k]);
    }
    assert(e2.subrange(0, e.len() as int) =~= e);
    assert forall|j: int| 0 <= j < k implies #[trigger] stream_sector(p, s2, n * k + j) == p.sector_of(
        c,
    ) + j by {
        assert((n * k + j) / k == n && (n * k + j) % k == j) by (nonlinear_arith)
            requires
                0 <= j < k,
                n >= 0,
        ;
    }
}

/// The sectors of cluster `d` are the same on both disks.
pub open spec fn same_cluster(a: Disk, b: Disk, p: BootParams, d: int) -> bool {
    forall|j: int| 0 <= j < p.sectors_per_cluster ==> #[trigger] a[p.sector_of(d) + j] == b[p.sector_of(d) + j]
}

/// Every sector of cluster `d` is zero-filled.
pub open spec fn zero_cluster(a: Disk, p: BootParams, d: int) -> bool {
    forall|j: int| 0 <= j < p.sectors_per_cluster ==> #[trigger] a[p.sector_of(d) + j] == zeros(BLOCK_SZ as nat)
}

/// The disks differ at most in the allocation tables and in the clusters of
/// `s`.
pub open spec fn same_but(a: Disk, b: Disk, p: BootParams, s: Seq<int>) -> bool {
    &&& a.len() == b.len()
    &&& forall|x: int| 0 <= x < p.reserved_sectors ==> #[trigger] a[x] == b[x]
    &&& forall|d: int| p.is_cluster(d) && !s.contains(d) ==> #[trigger] same_cluster(a, b, p, d)
}

/// A sector of a chain is none of the sectors of a cluster outside the chain.
pub proof fn lemma_stream_elsewhere(p: BootParams, s: Seq<int>, q: int, d: int, j: int)
    requires
        p.geometry_ok(),
        all_clusters(p, s),
        0 <= q < stream_sectors(p, s),
        p.is_cluster(d),
        !s.contains(d),
        0 <= j < p.sectors_per_cluster,
    ensures
        stream_sector(p, s, q) != p.sector_of(d) + j,
        p.reserved_sectors <= p.data_start() <= p.sector_of(d) + j < p.total_sectors,
{
    lemma_stream_sector(p, s, q);
    let c = s[q / (p.sectors_per_cluster as int)];
    assert(s.contains(c));
    p.lemma_sector_of(c);
    p.lemma_sector_of(d);
    p.lemma_geometry();
}

/// The number of clusters that the body has after a write of `len` bytes at
/// `offset`, where it had `before`.
pub open spec fn grown(p: BootParams, before: int, offset: int, len: int) -> int {
    if len == 0 || clusters_for(p, offset + len) <= before {
        before
    } else {
        clusters_for(p, offset + len)
    }
}

/// Disks that agree on every cluster of a chain hold the same bytes in it.
pub proof fn lemma_extent_same(a: Disk, b: Disk, p: BootParams, s: Seq<int>)
    requires
        p.geometry_ok(),
        all_clusters(p, s),
        forall|k: int| 0 <= k < s.len() ==> same_cluster(a, b, p, #[trigger] s[k]),
    ensures
        extent(a, p, s) == extent(b, p, s),
{
    assert forall|i: int| 0 <= i < extent(a, p, s).len() implies extent(a, p, s)[i] == extent(
        b,
        p,
        s,
    )[i] by {
        let q = i / 512;
        lemma_stream_sector(p, s, q);
        let k = q / (p.sectors_per_cluster as int);
        assert(same_cluster(a, b, p, s[k]));
        assert(a[p.sector_of(s[k]) + q % (p.sectors_per_cluster as int)] == b[p.sector_of(s[k]) + q % (
        p.sectors_per_cluster as int)]);
    }
    assert(extent(a, p, s) =~= extent(b, p, s));
}

/// How a body stands after a write of `data` at `offset`, against how it stood
/// before: `s0` and `d0` are the chain and the disk before, `s1` and `d1` after.
///
/// The chain has grown at its end, by clusters that were free. The tables
/// changed only at those clusters and at the old last cluster. The written range
/// holds `data`; the bytes that the chain held before are as they were; what is
/// left of a directory's new clusters is zero.
pub open spec fn written(
    p: BootParams,
    d0: Disk,
    s0: Seq<int>,
    d1: Disk,
    s1: Seq<int>,
    is_dir: bool,
    offset: int,
    data: Seq<u8>,
) -> bool {
    let t0 = fat_table(d0, p);
    let t1 = fat_table(d1, p);
    let e0 = extent(d0, p, s0);
    let e1 = extent(d1, p, s1);
    &&& s0.len() <= s1.len()
    &&& s1.subrange(0, s0.len() as int) == s0
    &&& forall|k: int|
        s0.len() <= k < s1.len() ==> in_table(t0, #[trigger] s1[k]) && t0[s1[k]] == FREE_CLUSTER
    &&& free_count(t1) == free_count(t0) - (s1.len() - s0.len())
    &&& forall|c: int|
        0 <= c < t0.len() && #[trigger] t1[c] != t0[c] ==> t0[c] == FREE_CLUSTER || (s0.len() > 0
            && c == s0.last())
    &&& forall|i: int|
        0 <= i < e1.len() ==> #[trigger] e1[i] == if offset <= i < offset + data.len() {
            data[i - offset]
        } else if i < e0.len() {
            e0[i]
        } else if is_dir {
            0u8
        } else {
            e1[i]
        }
}

/// A body stands to itself as after a write of nothing.
pub proof fn lemma_written_start(p: BootParams, d0: Disk, s0: Seq<int>, is_dir: bool)
    ensures
        written(p, d0, s0, d0, s0, is_dir, 0, Seq::empty()),
{
    assert(s0.subrange(0, s0.len() as int) =~= s0);
}

/// The bytes of a chain after one more cluster was put at its end: those of
/// the chain before, then those of the new cluster, which are zero if it was
/// zero-filled.
pub proof fn lemma_grow_extent(p: BootParams, d1: Disk, s1: Seq<int>, d2: Disk, c: int, zeroed: bool)
    requires
        p.geometry_ok(),
        all_clusters(p, s1),
        p.is_cluster(c),
        !s1.contains(c),
        same_but(d2, d1, p, seq![c]),
        zeroed ==> zero_cluster(d2, p, c),
    ensures
        all_clusters(p, s1.push(c)),
        extent(d1, p, s1).len() <= extent(d2, p, s1.push(c)).len(),
        forall|i: int|
            0 <= i < extent(d1, p, s1).len() ==> #[trigger] extent(d2, p, s1.push(c))[i] == extent(
                d1,
                p,
                s1,
            )[i],
        zeroed ==> forall|i: int|
            extent(d1, p, s1).len() <= i < extent(d2, p, s1.push(c)).len() ==> #[trigger] extent(
                d2,
                p,
                s1.push(c),
            )[i] == 0u8,
{
    let s2 = s1.push(c);
    let e1 = extent(d1, p, s1);
    let e2 = extent(d2, p, s2);
    lemma_extent_push(d2, p, s1, c);
    assert forall|k: int| 0 <= k < s1.len() implies same_cluster(d2, d1, p, #[trigger] s1[k]) by {
        assert(s1.contains(s1[k]));
        assert(!seq![c].contains(s1[k]));
    }
    lemma_extent_same(d2, d1, p, s1);
    assert forall|i: int| 0 <= i < e1.len() implies #[trigger] e2[i] == e1[i] by {
        assert(e2.subrange(0, e1.len() as int)[i] == e2[i]);
    }
    if zeroed {
        assert forall|i: int| e1.len() <= i < e2.len() implies #[trigger] e2[i] == 0u8 by {
            let j = i / 512 - stream_sectors(p, s1);
            assert(0 <= j < p.sectors_per_cluster);
            assert(stream_sector(p, s2, stream_sectors(p, s1) + j) == p.sector_of(c) + j);
            assert(d2[p.sector_of(c) + j] == zeros(BLOCK_SZ as nat));
        }
    }
}

/// Disks that differ only in the clusters of a chain, and then only in one
/// more cluster, differ only in the clusters of the longer chain.
pub proof fn lemma_same_but_push(p: BootParams, d0: Disk, d1: Disk, d2: Disk, s1: Seq<int>, c: int)
    requires
        same_but(d1, d0, p, s1),
        same_but(d2, d1, p, seq![c]),
    ensures
        same_but(d2, d0, p, s1.push(c)),
{
    let s2 = s1.push(c);
    assert forall|d: int| p.is_cluster(d) && !s2.contains(d) implies #[trigger] same_cluster(
        d2,
        d0,
        p,
        d,
    ) by {
        assert(s2[s1.len() as int] == c);
        assert(!seq![c].contains(d));
        if s1.contains(d) {
            let k = choose|k: int| 0 <= k < s1.len() && s1[k] == d;
            assert(s2[k] == d);
        }
        assert(same_cluster(d2, d1, p, d));
        assert(same_cluster(d1, d0, p, d));
        assert forall|j: int| 0 <= j < p.sectors_per_cluster implies #[trigger] d2[p.sector_of(d) + j]
            == d0[p.sector_of(d) + j] by {
            assert(d1[p.sector_of(d) + j] == d0[p.sector_of(d) + j]);
        }
    }
}

/// The tables after one more cluster was linked to a chain that had grown
/// from `s0`: the new cluster was free at the start, and the tables differ from
/// those at the start only at clusters that were free then and at the last
/// cluster of `s0`.
pub proof fn lemma_grow_tables(
    t0: Seq<u32>,
    s0: Seq<int>,
    t1: Seq<u32>,
    s1: Seq<int>,
    t2: Seq<u32>,
    c: int,
    tail: int,
)
    requires
        t0.len() == t1.len(),
        s0.len() <= s1.len(),
        s1.subrange(0, s0.len() as int) == s0,
        forall|k: int|
            s0.len() <= k < s1.len() ==> in_table(t0, #[trigger] s1[k]) && t0[s1[k]] == FREE_CLUSTER,
        forall|x: int|
            0 <= x < t0.len() && #[trigger] t1[x] != t0[x] ==> t0[x] == FREE_CLUSTER || (s0.len() > 0
                && x == s0.last()),
        forall|k: int|
            0 <= k < s1.len() ==> in_table(t1, #[trigger] s1[k]) && t1[s1[k]] != FREE_CLUSTER,
        s1.len() > 0 ==> tail == s1.last(),
        in_table(t1, c),
        t1[c] == FREE_CLUSTER,
        t2 == if s1.len() == 0 {
            t1.update(c, END_OF_CHAIN)
        } else {
            t1.update(c, END_OF_CHAIN).update(tail, c as u32)
        },
    ensures
        !s1.contains(c),
        s1.push(c).subrange(0, s0.len() as int) == s0,
        forall|k: int|
            s0.len() <= k < s1.push(c).len() ==> in_table(t0, #[trigger] s1.push(c)[k])
                && t0[s1.push(c)[k]] == FREE_CLUSTER,
        forall|x: int|
            0 <= x < t0.len() && #[trigger] t2[x] != t0[x] ==> t0[x] == FREE_CLUSTER || (s0.len() > 0
                && x == s0.last()),
{
    let s2 = s1.push(c);
    if s1.len() > 0 {
        assert(in_table(t1, s1[s1.len() - 1]));
    }
    assert(s2.subrange(0, s0.len() as int) =~= s0) by {
        assert forall|k: int| 0 <= k < s0.len() implies s2[k] == s0[k] by {
            assert(s1.subrange(0, s0.len() as int)[k] == s1[k]);
        }
    }
    if s0.len() > 0 {
        assert(s1.subrange(0, s0.len() as int)[s0.len() - 1] == s1[s0.len() - 1]);
        assert(t1[s1[s0.len() - 1]] != FREE_CLUSTER);
    }
    assert(t0[c] == FREE_CLUSTER);
    assert forall|k: int| s0.len() <= k < s2.len() implies in_table(t0, #[trigger] s2[k])
        && t0[s2[k]] == FREE_CLUSTER by {
        if k < s1.len() {
            assert(s2[k] == s1[k]);
        }
    }
    assert forall|x: int| 0 <= x < t0.len() && #[trigger] t2[x] != t0[x] implies t0[x]
        == FREE_CLUSTER || (s0.len() > 0 && x == s0.last()) by {
        if x != c && t1[x] == t0[x] {
            assert(s1.len() > 0 && x == tail);
            if s1.len() > s0.len() {
                assert(t0[s1[s1.len() - 1]] == FREE_CLUSTER);
            }
        }
    }
}

/// One more cluster at the end of the chain keeps the relation [`written`].
pub proof fn lemma_written_grow(
    p: BootParams,
    d0: Disk,
    s0: Seq<int>,
    d1: Disk,
    s1: Seq<int>,
    d2: Disk,
    c: int,
    tail: int,
    is_dir: bool,
)
    requires
        p.geometry_ok(),
        fat_table(d0, p).len() == fat_table(d1, p).len(),
        all_clusters(p, s1),
        written(p, d0, s0, d1, s1, is_dir, 0, Seq::empty()),
        forall|k: int| 0 <= k < s1.len() ==> fat_table(d1, p)[#[trigger] s1[k]] != FREE_CLUSTER,
        s1.len() > 0 ==> tail == s1.last(),
        in_table(fat_table(d1, p), c),
        fat_table(d1, p)[c] == FREE_CLUSTER,
        fat_table(d2, p) == if s1.len() == 0 {
            fat_table(d1, p).update(c, END_OF_CHAIN)
        } else {
            fat_table(d1, p).update(c, END_OF_CHAIN).update(tail, c as u32)
        },
        free_count(fat_table(d2, p)) == free_count(fat_table(d1, p)) - 1,
        same_but(d2, d1, p, seq![c]),
        is_dir ==> zero_cluster(d2, p, c),
    ensures
        written(p, d0, s0, d2, s1.push(c), is_dir, 0, Seq::empty()),
        all_clusters(p, s1.push(c)),
{
    let s2 = s1.push(c);
    let e0 = extent(d0, p, s0);
    let e1 = extent(d1, p, s1);
    let e2 = extent(d2, p, s2);
    assert forall|k: int| 0 <= k < s1.len() implies in_table(fat_table(d1, p), #[trigger] s1[k]) by {
        assert(p.is_cluster(s1[k]));
    }
    lemma_grow_tables(fat_table(d0, p), s0, fat_table(d1, p), s1, fat_table(d2, p), c, tail);
    lemma_grow_extent(p, d1, s1, d2, c, is_dir);
    assert forall|i: int| 0 <= i < e2.len() implies #[trigger] e2[i] == if i < e0.len() {
        e0[i]
    } else if is_dir {
        0u8
    } else {
        e2[i]
    } by {
        if i < e1.len() {
            assert(e2[i] == e1[i]);
        }
    }
}

/// Storing `data` at `offset` in a body that has just grown gives the body
/// after a write of `data` at `offset`.
pub proof fn lemma_written_store(
    p: BootParams,
    d0: Disk,
    s0: Seq<int>,
    d1: Disk,
    s1: Seq<int>,
    d2: Disk,
    is_dir: bool,
    offset: int,
    data: Seq<u8>,
)
    requires
        written(p, d0, s0, d1, s1, is_dir, 0, Seq::empty()),
        fat_table(d2, p) == fat_table(d1, p),
        extent(d2, p, s1) == splice(extent(d1, p, s1), offset, data),
        0 <= offset,
    ensures
        written(p, d0, s0, d2, s1, is_dir, offset, data),
{
    let e1 = extent(d1, p, s1);
    let e2 = extent(d2, p, s1);
    assert forall|i: int| 0 <= i < e2.len() implies #[trigger] e2[i] == if offset <= i < offset
        + data.len() {
        data[i - offset]
    } else if i < extent(d0, p, s0).len() {
        extent(d0, p, s0)[i]
    } else if is_dir {
        0u8
    } else {
        e2[i]
    } by {
        assert(e2[i] == splice(e1, offset, data)[i]);
        if !(offset <= i < offset + data.len()) {
            assert(e2[i] == e1[i]);
        }
    }
}

/// Disks that differ from a first only in the clusters of a chain, one from
/// the other too, differ only in those clusters.
pub proof fn lemma_same_but_trans(p: BootParams, d0: Disk, d1: Disk, d2: Disk, s: Seq<int>)
    requires
        same_but(d1, d0, p, s),
        same_but(d2, d1, p, s),
    ensures
        same_but(d2, d0, p, s),
{
    assert forall|d: int| p.is_cluster(d) && !s.contains(d) implies #[trigger] same_cluster(
        d2,
        d0,
        p,
        d,
    ) by {
        assert(same_cluster(d2, d1, p, d));
        assert(same_cluster(d1, d0, p, d));
        assert forall|j: int| 0 <= j < p.sectors_per_cluster implies #[trigger] d2[p.sector_of(d) + j]
            == d0[p.sector_of(d) + j] by {
            assert(d1[p.sector_of(d) + j] == d0[p.sector_of(d) + j]);
        }
    }
}

/// A file or directory body: a cluster chain with the length recorded for it.
///
/// For a directory the recorded size is not used: its body is all of its chain.
#[derive(Clone, Copy, Debug, PartialEq, Eq, Structural)]
pub struct ClusterChain {
    pub first_cluster: u32,
    pub size: u32,
    pub is_dir: bool,
}

impl ClusterChain {
    /// The clusters of the chain, in order.
    pub open spec fn clusters(&self, disk: Disk, p: BootParams) -> Seq<int> {
        chain_of(fat_table(disk, p), self.first_cluster)
    }

    /// The chain is sound.
    pub open spec fn valid(&self, disk: Disk, p: BootParams) -> bool {
        chain_ok(fat_table(disk, p), self.first_cluster)
    }

    /// The number of bytes that can be read: what the chain holds, and for a
    /// file no more than its recorded size.
    pub open spec fn len(&self, disk: Disk, p: BootParams) -> int {
        let cap = stream_sectors(p, self.clusters(disk, p)) * 512;
        if self.is_dir || cap <= self.size {
            cap
        } else {
            self.size as int
        }
    }

    /// The bytes of the body.
    pub open spec fn content(&self, disk: Disk, p: BootParams) -> Seq<u8> {
        extent(disk, p, self.clusters(disk, p)).take(self.len(disk, p))
    }

    /// The body of a new, empty file or directory.
    pub fn new(is_dir: bool) -> (c: ClusterChain)
        ensures
            c == (ClusterChain { first_cluster: 0, size: 0, is_dir }),
    {
        ClusterChain { first_cluster: 0, size: 0, is_dir }
    }

    /// The cluster that holds byte `index * cluster size` of the body: the
    /// chain is followed from its first cluster for `index` steps. `None` if the
    /// chain has no such cluster.
    pub fn cluster_at<D: BlockDevice>(
        &self,
        fat: &FAT,
        cache: &mut BlockCache<D>,
        index: u64,
    ) -> (r: Option<u32>)
        requires
            fat.mounted(old(cache)),
        ensures
            fat.mounted(final(cache)),
            final(cache)@.disk() == old(cache)@.disk(),
            final(cache)@.device.len() == old(cache)@.device.len(),
            index < self.clusters(old(cache)@.disk(), fat.params()).len() ==> r == Some(
                self.clusters(old(cache)@.disk(), fat.params())[index as int] as u32,
            ),
            index >= self.clusters(old(cache)@.disk(), fat.params()).len() ==> r is None,
    {
        let n: u32 = fat.entry_count();
        let ghost t = fat.table(cache@.disk());
        let ghost s = chain_of(t, self.first_cluster);
        proof {
            fat.lemma_mounted(cache);
            lemma_walk_basics(t, self.first_cluster as int, t.len());
        }
        let mut cur: u32 = self.first_cluster;
        let mut k: u32 = 0;
        loop
            invariant
                fat.mounted(cache),
                cache@.disk() == old(cache)@.disk(),
                cache@.device.len() == old(cache)@.device.len(),
                t == fat.table(cache@.disk()),
                s == chain_of(t, self.first_cluster),
                n == t.len(),
                k < n,
                k <= index,
                k <= s.len(),
                s.skip(k as int) == walk(t, cur as int, (n - k) as nat),
            decreases n - k,
        {
            if cur < 2 || cur >= n {
                assert(s.skip(k as int).len() == 0);
                return None;
            }
            assert(s.skip(k as int) =~= seq![cur as int] + walk(
                t,
                t[cur as int] as int,
                (n - k - 1) as nat,
            ));
            assert(s.skip(k as int)[0] == cur);
            if k as u64 == index {
                return Some(cur);
            }
            if k + 1 >= n {
                assert(s.skip(k as int).len() == 1);
                return None;
            }
            let next = match fat.read_entry(cache, cur) {
                Ok(v) => v,
                Err(_) => unreached(),
            };
            assert(s.skip(k as int + 1) =~= s.skip(k as int).skip(1));
            assert(s.skip(k as int).skip(1) =~= walk(t, next as int, (n - k - 1) as nat));
            cur = next;
            k = k + 1;
        }
    }

    /// Whether `probe` is one of the clusters of the chain.
    pub fn meets<D: BlockDevice>(&self, fat: &FAT, cache: &mut BlockCache<D>, probe: u32) -> (r:
        bool)
        requires
            fat.mounted(old(cache)),
        ensures
            fat.mounted(final(cache)),
            final(cache)@.disk() == old(cache)@.disk(),
            final(cache)@.device.len() == old(cache)@.device.len(),
            r == self.clusters(old(cache)@.disk(), fat.params()).contains(probe as int),
    {
        let n: u32 = fat.entry_count();
        let ghost t = fat.table(cache@.disk());
        let ghost s = chain_of(t, self.first_cluster);
        proof {
            fat.lemma_mounted(cache);
            lemma_walk_basics(t, self.first_cluster as int, t.len());
        }
        let mut cur: u32 = self.first_cluster;
        let mut k: u32 = 0;
        loop
            invariant
                fat.mounted(cache),
                cache@.disk() == old(cache)@.disk(),
                cache@.device.len() == old(cache)@.device.len(),
                t == fat.table(cache@.disk()),
                s == chain_of(t, self.first_cluster),
                n == t.len(),
                k < n,
                k <= s.len(),
                s.skip(k as int) == walk(t, cur as int, (n - k) as nat),
                forall|j: int| 0 <= j < k ==> s[j] != probe,
            decreases n - k,
        {
            if cur < 2 || cur >= n {
                assert(s.skip(k as int).len() == 0);
                return false;
            }
            assert(s.skip(k as int) =~= seq![cur as int] + walk(
                t,
                t[cur as int] as int,
                (n - k - 1) as nat,
            ));
            assert(s.skip(k as int)[0] == cur);
            if cur == probe {
                return true;
            }
            if k + 1 >= n {
                assert(s.skip(k as int).len() == 1);
                return false;
            }
            let next = match fat.read_entry(cache, cur) {
                Ok(v) => v,
                Err(_) => unreached(),
            };
            assert(s.skip(k as int + 1) =~= s.skip(k as int).skip(1));
            assert(s.skip(k as int).skip(1) =~= walk(t, next as int, (n - k - 1) as nat));
            cur = next;
            k = k + 1;
        }
    }

    /// Walks the chain to its end: the number of its clusters and the last of
    /// them (zero for an empty chain), or `None` if the chain is not sound.
    pub fn measure<D: BlockDevice>(&self, fat: &FAT, cache: &mut BlockCache<D>) -> (r: Option<
        (u32, u32),
    >)
        requires
            fat.mounted(old(cache)),
        ensures
            fat.mounted(final(cache)),
            final(cache)@.disk() == old(cache)@.disk(),
            final(cache)@.device.len() == old(cache)@.device.len(),
            r is Some <==> self.valid(old(cache)@.disk(), fat.params()),
            r is Some ==> {
                let s = self.clusters(old(cache)@.disk(), fat.params());
                &&& r->Some_0.0 == s.len()
                &&& s.len() > 0 ==> r->Some_0.1 == s.last()
                &&& s.len() == 0 ==> r->Some_0.1 == 0
            },
    {
        let n: u32 = fat.entry_count();
        let ghost t = fat.table(cache@.disk());
        let ghost s = chain_of(t, self.first_cluster);
        proof {
            fat.lemma_mounted(cache);
            lemma_walk_basics(t, self.first_cluster as int, t.len());
        }
        if self.first_cluster == 0 {
            return Some((0, 0));
        }
        let mut cur: u32 = self.first_cluster;
        let mut k: u32 = 0;
        loop
            invariant
                fat.mounted(cache),
                cache@.disk() == old(cache)@.disk(),
                cache@.device.len() == old(cache)@.device.len(),
                t == fat.table(cache@.disk()),
                s == chain_of(t, self.first_cluster),
                self.first_cluster != 0,
                n == t.len(),
                n <= BAD_CLUSTER,
                k < n,
                k <= s.len(),
                s.skip(k as int) == walk(t, cur as int, (n - k) as nat),
                k > 0 ==> t[s[k - 1]] == cur && cur < END_OF_CHAIN_MIN,
            decreases n - k,
        {
            if cur < 2 || cur >= n {
                assert(s.skip(k as int).len() == 0);
                assert(s.len() == k);
                return None;
            }
            assert(s.skip(k as int) =~= seq![cur as int] + walk(
                t,
                t[cur as int] as int,
                (n - k - 1) as nat,
            ));
            assert(s.skip(k as int)[0] == cur);
            let next = match fat.read_entry(cache, cur) {
                Ok(v) => v,
                Err(_) => unreached(),
            };
            if next >= END_OF_CHAIN_MIN {
                assert(walk(t, next as int, (n - k - 1) as nat) =~= Seq::<int>::empty());
                assert(s.skip(k as int).len() == 1);
                return Some((k + 1, cur));
            }
            if k + 1 >= n {
                assert(s.skip(k as int).len() == 1);
                return None;
            }
            assert(s.skip(k as int + 1) =~= s.skip(k as int).skip(1));
            assert(s.skip(k as int).skip(1) =~= walk(t, next as int, (n - k - 1) as nat));
            cur = next;
            k = k + 1;
        }
    }

    /// Reads up to `len` bytes of the body from `offset` on. Fewer bytes come
    /// back, or none, where the body ends before `offset + len`; nothing is
    /// read past the end of the chain.
    pub fn read_at<D: BlockDevice>(
        &self,
        fat: &FAT,
        cache: &mut BlockCache<D>,
        offset: u64,
        len: usize,
    ) -> (out: Vec<u8>)
        requires
            fat.mounted(old(cache)),
        ensures
            fat.mounted(final(cache)),
            final(cache)@.disk() == old(cache)@.disk(),
            final(cache)@.device.len() == old(cache)@.device.len(),
            ({
                let body = self.content(old(cache)@.disk(), fat.params());
                let lo = if offset <= body.len() {
                    offset as int
                } else {
                    body.len() as int
                };
                let hi = if offset + len <= body.len() {
                    offset + len
                } else {
                    body.len() as int
                };
                out@ == body.subrange(lo, hi)
            }),
    {
        let ghost p = fat.params();
        let ghost d = cache@.disk();
        let ghost t = fat.table(d);
        let ghost s = self.clusters(d, p);
        let ghost body = self.content(d, p);
        let ghost e = extent(d, p, s);
        proof {
            fat.lemma_mounted(cache);
            lemma_walk_basics(t, self.first_cluster as int, t.len());
        }
        let spc: u64 = fat.sectors_per_cluster() as u64;
        let start: u64 = offset;
        let want: u64 = len as u64;
        let reach: u64 = if want > u64::MAX - start {
            u64::MAX
        } else {
            start + want
        };
        let end: u64 = if !self.is_dir && (self.size as u64) < reach {
            self.size as u64
        } else {
            reach
        };
        let mut out: Vec<u8> = Vec::new();
        let mut pos: u64 = start;
        let ghost lo = if offset <= body.len() {
            offset as int
        } else {
            body.len() as int
        };
        assert(body.subrange(lo, lo) =~= Seq::<u8>::empty());
        while pos < end
            invariant
                fat.mounted(cache),
                cache@.disk() == d,
                cache@.device.len() == old(cache)@.device.len(),
                p == fat.params(),
                volume_fits(d, p),
                t == fat.table(d),
                s == self.clusters(d, p),
                all_clusters(p, s),
                body == self.content(d, p),
                e == extent(d, p, s),
                spc == p.sectors_per_cluster,
                start == offset,
                start <= pos,
                pos <= end || pos == start,
                pos == start || pos <= body.len(),
                lo == if offset <= body.len() {
                    offset as int
                } else {
                    body.len() as int
                },
                end == if !self.is_dir && self.size < reach {
                    self.size as int
                } else {
                    reach as int
                },
                reach == if offset + len <= u64::MAX {
                    offset + len
                } else {
                    u64::MAX as int
                },
                out@ == body.subrange(
                    lo,
                    if pos <= body.len() {
                        pos as int
                    } else {
                        body.len() as int
                    },
                ),
            ensures
                pos >= end || pos >= e.len(),
                start <= pos,
                pos <= end || pos == start,
                pos == start || pos <= body.len(),
                out@ == body.subrange(
                    lo,
                    if pos <= body.len() {
                        pos as int
                    } else {
                        body.len() as int
                    },
                ),
            decreases end - pos,
        {
            let q: u64 = pos / 512;
            let index: u64 = q / spc;
            let within: u64 = q % spc;
            proof {
                let k = spc as int;
                let n = s.len() as int;
                assert(0 <= (q as int) / k && 0 <= (q as int) % k < k && (q as int) == ((q as int)
                    / k) * k + (q as int) % k) by (nonlinear_arith)
                    requires
                        0 <= q,
                        k > 0,
                ;
                if index < n {
                    assert((q as int) < n * k) by (nonlinear_arith)
                        requires
                            (q as int) == (index as int) * k + (within as int),
                            0 <= within < k,
                            0 <= index < n,
                    ;
                } else {
                    assert((q as int) >= n * k) by (nonlinear_arith)
                        requires
                            (q as int) == (index as int) * k + (within as int),
                            0 <= within < k,
                            index >= n,
                            n >= 0,
                    ;
                }
            }
            match self.cluster_at(fat, cache, index) {
                None => {
                    break ;
                },
                Some(c) => {
                    proof {
                        lemma_stream_sector(p, s, q as int);
                    }
                    let base: usize = match fat.cluster_to_sector(c) {
                        Some(b) => b,
                        None => unreached(),
                    };
                    let sector: usize = base + within as usize;
                    let off: usize = (pos % 512) as usize;
                    let room: usize = BLOCK_SZ - off;
                    let n: usize = if end - pos < room as u64 {
                        (end - pos) as usize
                    } else {
                        room
                    };
                    let piece = match cache.read_bytes(sector, off, n) {
                        Ok(b) => b,
                        Err(_) => unreached(),
                    };
                    proof {
                        assert(sector == stream_sector(p, s, q as int));
                        assert(pos + n <= e.len());
                        assert(pos + n <= body.len());
                        assert(piece@ =~= body.subrange(pos as int, pos + n)) by {
                            assert forall|i: int| 0 <= i < n implies piece@[i] == body[pos + i] by {
                                assert((pos + i) / 512 == q as int);
                                assert((pos + i) % 512 == off + i);
                            }
                        }
                        assert(body.subrange(lo, pos as int) + body.subrange(pos as int, pos + n)
                            =~= body.subrange(lo, pos + n));
                    }
                    append_bytes(&mut out, piece.as_slice());
                    pos = pos + n as u64;
                },
            }
        }
        proof {
            let hi = if offset + len <= body.len() {
                offset + len
            } else {
                body.len() as int
            };
            let upto = if pos <= body.len() {
                pos as int
            } else {
                body.len() as int
            };
            assert(body.len() <= e.len());
            lemma_stream_bound(p, s, t.len() as int);
            assert(hi == upto);
        }
        out
    }
}

impl ClusterChain {
    /// A write of `len` bytes at `offset` can be carried out: the end of the
    /// write can be recorded in 32 bits, and enough clusters are free.
    pub open spec fn write_fits(&self, disk: Disk, p: BootParams, offset: int, len: int) -> bool {
        len == 0 || (offset + len <= u32::MAX && grown(
            p,
            self.clusters(disk, p).len() as int,
            offset,
            len,
        ) - self.clusters(disk, p).len() <= free_count(fat_table(disk, p)))
    }

    /// `after` on disk `d1` is this body on disk `d0` after a write of `data` at
    /// `offset`: the chain was sound and the write could be carried out; the
    /// chain is sound and has the clusters the write needs; the bytes are as
    /// [`written`] says; a file's recorded size reaches the end of the write;
    /// table copies that agreed agree still. A write of nothing changes nothing.
    pub open spec fn wrote(
        &self,
        p: BootParams,
        d0: Disk,
        after: ClusterChain,
        d1: Disk,
        offset: int,
        data: Seq<u8>,
    ) -> bool {
        let s0 = self.clusters(d0, p);
        let s1 = after.clusters(d1, p);
        let len = data.len() as int;
        &&& self.valid(d0, p)
        &&& self.write_fits(d0, p, offset, len)
        &&& after.valid(d1, p)
        &&& after.is_dir == self.is_dir
        &&& s1.len() == grown(p, s0.len() as int, offset, len)
        &&& written(p, d0, s0, d1, s1, self.is_dir, offset, data)
        &&& after.first_cluster == if s0.len() == 0 && s1.len() > 0 {
            s1[0] as u32
        } else {
            self.first_cluster
        }
        &&& after.size == if self.is_dir || len == 0 || offset + len <= self.size {
            self.size
        } else {
            (offset + len) as u32
        }
        &&& len == 0 ==> d1 == d0
        &&& mirrored(d0, p) ==> mirrored(d1, p)
    }

    /// Takes a free cluster and links it behind the last cluster of the chain.
    fn link<D: BlockDevice>(
        &mut self,
        fat: &mut FAT,
        cache: &mut BlockCache<D>,
        count: u32,
        tail: u32,
    ) -> (c: u32)
        requires
            old(fat).mounted(old(cache)),
            old(self).valid(old(cache)@.disk(), old(fat).params()),
            count == old(self).clusters(old(cache)@.disk(), old(fat).params()).len(),
            count > 0 ==> tail == old(self).clusters(old(cache)@.disk(), old(fat).params()).last(),
            free_count(old(fat).table(old(cache)@.disk())) > 0,
        ensures
            final(fat).mounted(final(cache)),
            final(fat).params() == old(fat).params(),
            final(cache)@.device.len() == old(cache)@.device.len(),
            mirrored(old(cache)@.disk(), old(fat).params()) ==> mirrored(
                final(cache)@.disk(),
                old(fat).params(),
            ),
            final(self).size == old(self).size,
            final(self).is_dir == old(self).is_dir,
            final(self).first_cluster == if count == 0 {
                c
            } else {
                old(self).first_cluster
            },
            ({
                let p = old(fat).params();
                let d0 = old(cache)@.disk();
                let d1 = final(cache)@.disk();
                let t0 = fat_table(d0, p);
                let t1 = fat_table(d1, p);
                let s0 = old(self).clusters(d0, p);
                let s1 = final(self).clusters(d1, p);
                &&& in_table(t0, c as int)
                &&& t0[c as int] == FREE_CLUSTER
                &&& t1 == if count == 0 {
                    t0.update(c as int, END_OF_CHAIN)
                } else {
                    t0.update(c as int, END_OF_CHAIN).update(tail as int, c)
                }
                &&& s1 == s0.push(c as int)
                &&& final(self).valid(d1, p)
                &&& free_count(t1) == free_count(t0) - 1
                &&& same_outside_tables(d1, d0, p)
            }),
    {
        let ghost p = fat.params();
        let ghost t0 = fat_table(cache@.disk(), p);
        proof {
            fat.lemma_mounted(cache);
            lemma_walk_basics(t0, self.first_cluster as int, t0.len());
            let s0 = chain_of(t0, self.first_cluster);
            if count > 0 {
                assert(in_table(t0, s0[s0.len() - 1]));
            }
        }
        let c = Self::take(fat, cache, count == 0, tail);
        proof {
            lemma_link(t0, self.first_cluster, c);
        }
        if count == 0 {
            self.first_cluster = c;
        }
        c
    }

    /// Takes a free cluster, where there is one.
    fn take_free<D: BlockDevice>(fat: &mut FAT, cache: &mut BlockCache<D>) -> (c: u32)
        requires
            old(fat).mounted(old(cache)),
            free_count(old(fat).table(old(cache)@.disk())) > 0,
        ensures
            final(fat).mounted(final(cache)),
            final(fat).params() == old(fat).params(),
            final(cache)@.device.len() == old(cache)@.device.len(),
            same_outside_tables(final(cache)@.disk(), old(cache)@.disk(), old(fat).params()),
            mirrored(old(cache)@.disk(), old(fat).params()) ==> mirrored(
                final(cache)@.disk(),
                old(fat).params(),
            ),
            in_table(old(fat).table(old(cache)@.disk()), c as int),
            old(fat).table(old(cache)@.disk())[c as int] == FREE_CLUSTER,
            final(fat).table(final(cache)@.disk()) == old(fat).table(old(cache)@.disk()).update(
                c as int,
                END_OF_CHAIN,
            ),
    {
        let ghost t0 = fat.table(cache@.disk());
        proof {
            fat.lemma_mounted(cache);
            lemma_free_below_zero(t0, t0.len() as int);
        }
        match fat.alloc_free_cluster(cache) {
            Ok(c) => c,
            Err(_) => unreached(),
        }
    }

    /// Takes a free cluster and, unless the chain is empty, makes it the
    /// successor of `tail`.
    fn take<D: BlockDevice>(fat: &mut FAT, cache: &mut BlockCache<D>, empty: bool, tail: u32) -> (c:
        u32)
        requires
            old(fat).mounted(old(cache)),
            free_count(old(fat).table(old(cache)@.disk())) > 0,
            !empty ==> in_table(old(fat).table(old(cache)@.disk()), tail as int),
        ensures
            final(fat).mounted(final(cache)),
            final(fat).params() == old(fat).params(),
            final(cache)@.device.len() == old(cache)@.device.len(),
            same_outside_tables(final(cache)@.disk(), old(cache)@.disk(), old(fat).params()),
            mirrored(old(cache)@.disk(), old(fat).params()) ==> mirrored(
                final(cache)@.disk(),
                old(fat).params(),
            ),
            in_table(old(fat).table(old(cache)@.disk()), c as int),
            old(fat).table(old(cache)@.disk())[c as int] == FREE_CLUSTER,
            final(fat).table(final(cache)@.disk()) == if empty {
                old(fat).table(old(cache)@.disk()).update(c as int, END_OF_CHAIN)
            } else {
                old(fat).table(old(cache)@.disk()).update(c as int, END_OF_CHAIN).update(
                    tail as int,
                    c,
                )
            },
    {
        proof {
            fat.lemma_mounted(cache);
        }
        let c = Self::take_free(fat, cache);
        if !empty {
            let _ = fat.write_entry(cache, tail, c);
        }
        c
    }

    /// Zero-fills every sector of cluster `c`.
    fn zero_fill<D: BlockDevice>(fat: &FAT, cache: &mut BlockCache<D>, c: u32)
        requires
            fat.mounted(old(cache)),
            fat.params().is_cluster(c as int),
        ensures
            fat.mounted(final(cache)),
            final(cache)@.device.len() == old(cache)@.device.len(),
            final(cache)@.disk().len() == old(cache)@.disk().len(),
            same_tables(final(cache)@.disk(), old(cache)@.disk(), fat.params()),
            zero_cluster(final(cache)@.disk(), fat.params(), c as int),
            forall|x: int|
                0 <= x < old(cache)@.disk().len() && !(fat.params().sector_of(c as int) <= x
                    < fat.params().sector_of(c as int) + fat.params().sectors_per_cluster)
                    ==> #[trigger] final(cache)@.disk()[x] == old(cache)@.disk()[x],
    {
        let ghost p = fat.params();
        let ghost d1 = cache@.disk();
        let spc: u8 = fat.sectors_per_cluster();
        let base: usize = match fat.cluster_to_sector(c) {
            Some(b) => b,
            None => unreached(),
        };
        proof {
            p.lemma_sector_of(c as int);
            fat.lemma_mounted(cache);
        }
        let mut j: u8 = 0;
        while j < spc
            invariant
                fat.mounted(cache),
                p == fat.params(),
                cache@.device.len() == old(cache)@.device.len(),
                spc == p.sectors_per_cluster,
                base == p.sector_of(c as int),
                base + spc <= p.total_sectors,
                j <= spc,
                cache@.disk().len() == d1.len(),
                forall|x: int|
                    0 <= x < d1.len() && !(base <= x < base + j) ==> #[trigger] cache@.disk()[x]
                        == d1[x],
                forall|i: int| 0 <= i < j ==> #[trigger] cache@.disk()[base + i] == zeros(BLOCK_SZ as nat),
            decreases spc - j,
        {
            proof {
                fat.lemma_mounted(cache);
            }
            let _ = cache.zero_block(base + j as usize);
            j = j + 1;
        }
    }

    /// Appends one free cluster to the chain, zero-filled if the body is a
    /// directory's.
    fn grow<D: BlockDevice>(
        &mut self,
        fat: &mut FAT,
        cache: &mut BlockCache<D>,
        count: u32,
        tail: u32,
    ) -> (c: u32)
        requires
            old(fat).mounted(old(cache)),
            old(self).valid(old(cache)@.disk(), old(fat).params()),
            count == old(self).clusters(old(cache)@.disk(), old(fat).params()).len(),
            count > 0 ==> tail == old(self).clusters(old(cache)@.disk(), old(fat).params()).last(),
            free_count(old(fat).table(old(cache)@.disk())) > 0,
        ensures
            final(fat).mounted(final(cache)),
            final(fat).params() == old(fat).params(),
            final(cache)@.device.len() == old(cache)@.device.len(),
            mirrored(old(cache)@.disk(), old(fat).params()) ==> mirrored(
                final(cache)@.disk(),
                old(fat).params(),
            ),
            final(self).size == old(self).size,
            final(self).is_dir == old(self).is_dir,
            final(self).first_cluster == if count == 0 {
                c
            } else {
                old(self).first_cluster
            },
            ({
                let p = old(fat).params();
                let d0 = old(cache)@.disk();
                let d1 = final(cache)@.disk();
                let t0 = fat_table(d0, p);
                let t1 = fat_table(d1, p);
                let s0 = old(self).clusters(d0, p);
                let s1 = final(self).clusters(d1, p);
                &&& in_table(t0, c as int)
                &&& t0[c as int] == FREE_CLUSTER
                &&& t1 == if count == 0 {
                    t0.update(c as int, END_OF_CHAIN)
                } else {
                    t0.update(c as int, END_OF_CHAIN).update(tail as int, c)
                }
                &&& s1 == s0.push(c as int)
                &&& final(self).valid(d1, p)
                &&& free_count(t1) == free_count(t0) - 1
                &&& same_but(d1, d0, p, seq![c as int])
                &&& !old(self).is_dir ==> same_outside_tables(d1, d0, p)
                &&& old(self).is_dir ==> zero_cluster(d1, p, c as int)
            }),
    {
        let ghost p = fat.params();
        let ghost d0 = cache@.disk();
        let c = self.link(fat, cache, count, tail);
        let ghost d1 = cache@.disk();
        proof {
            fat.lemma_mounted(cache);
            p.lemma_geometry();
        }
        if self.is_dir {
            Self::zero_fill(fat, cache, c);
            proof {
                let d2 = cache@.disk();
                p.lemma_sector_of(c as int);
                assert(same_tables(d2, d1, p));
                lemma_same_tables(d2, d1, p);
            }
        }
        proof {
            let d2 = cache@.disk();
            assert forall|d: int| p.is_cluster(d) && !seq![c as int].contains(d) implies #[trigger] same_cluster(
                d2,
                d0,
                p,
                d,
            ) by {
                assert(seq![c as int][0] == c);
                assert(d != c);
                p.lemma_sector_of(d);
                p.lemma_sector_of(c as int);
                assert forall|i: int| 0 <= i < p.sectors_per_cluster implies #[trigger] d2[p.sector_of(
                    d,
                ) + i] == d0[p.sector_of(d) + i] by {
                    let x = p.sector_of(d) + i;
                    assert(d1[x] == d0[x]);
                    if d < c {
                        assert(p.sector_of(d) + p.sectors_per_cluster <= p.sector_of(c as int));
                    } else {
                        assert(p.sector_of(c as int) + p.sectors_per_cluster <= p.sector_of(d));
                    }
                }
            }
        }
        c
    }

    /// Stores `data` at `offset` in a body whose chain holds that range.
    fn store<D: BlockDevice>(&self, fat: &FAT, cache: &mut BlockCache<D>, offset: u64, data: &[u8])
        requires
            fat.mounted(old(cache)),
            self.valid(old(cache)@.disk(), fat.params()),
            self.first_cluster != 0,
            offset + data@.len() <= stream_sectors(
                fat.params(),
                self.clusters(old(cache)@.disk(), fat.params()),
            ) * 512,
        ensures
            fat.mounted(final(cache)),
            final(cache)@.device.len() == old(cache)@.device.len(),
            same_tables(final(cache)@.disk(), old(cache)@.disk(), fat.params()),
            fat_table(final(cache)@.disk(), fat.params()) == fat_table(
                old(cache)@.disk(),
                fat.params(),
            ),
            same_but(
                final(cache)@.disk(),
                old(cache)@.disk(),
                fat.params(),
                self.clusters(old(cache)@.disk(), fat.params()),
            ),
            extent(
                final(cache)@.disk(),
                fat.params(),
                self.clusters(old(cache)@.disk(), fat.params()),
            ) == splice(
                extent(
                    old(cache)@.disk(),
                    fat.params(),
                    self.clusters(old(cache)@.disk(), fat.params()),
                ),
                offset as int,
                data@,
            ),
    {
        let ghost p = fat.params();
        let ghost d0 = cache@.disk();
        let ghost t = fat_table(d0, p);
        let ghost s = self.clusters(d0, p);
        let ghost e0 = extent(d0, p, s);
        proof {
            fat.lemma_mounted(cache);
            lemma_walk_basics(t, self.first_cluster as int, t.len());
            lemma_walk_no_duplicates(t, self.first_cluster as int, t.len());
            p.lemma_geometry();
            assert(e0 =~= splice(e0, offset as int, data@.subrange(0, 0)));
            assert(same_but(d0, d0, p, s));
            lemma_stream_bound(p, s, t.len() as int);
        }
        let spc: u64 = fat.sectors_per_cluster() as u64;
        let total: usize = data.len();
        let mut done: usize = 0;
        while done < total
            invariant
                fat.mounted(cache),
                cache@.device.len() == old(cache)@.device.len(),
                p == fat.params(),
                volume_fits(d0, p),
                volume_fits(cache@.disk(), p),
                t == fat_table(d0, p),
                fat_table(cache@.disk(), p) == t,
                s == chain_of(t, self.first_cluster),
                all_clusters(p, s),
                s.no_duplicates(),
                e0 == extent(d0, p, s),
                spc == p.sectors_per_cluster,
                total == data@.len(),
                done <= total,
                offset + total <= stream_sectors(p, s) * 512,
                stream_sectors(p, s) * 512 <= 0x1000_0000_0000,
                same_tables(cache@.disk(), d0, p),
                same_but(cache@.disk(), d0, p, s),
                extent(cache@.disk(), p, s) == splice(e0, offset as int, data@.subrange(0, done as int)),
            decreases total - done,
        {
            let ghost d1 = cache@.disk();
            let pos: u64 = offset + done as u64;
            let q: u64 = pos / 512;
            let index: u64 = q / spc;
            let within: u64 = q % spc;
            proof {
                lemma_stream_sector(p, s, q as int);
            }
            let c: u32 = match self.cluster_at(fat, cache, index) {
                Some(c) => c,
                None => unreached(),
            };
            let base: usize = match fat.cluster_to_sector(c) {
                Some(b) => b,
                None => unreached(),
            };
            let sector: usize = base + within as usize;
            let off: usize = (pos % 512) as usize;
            let room: usize = BLOCK_SZ - off;
            let n: usize = if total - done < room {
                total - done
            } else {
                room
            };
            let piece = copy_range(data, done, done + n);
            proof {
                assert(sector == stream_sector(p, s, q as int));
                lemma_extent_store(d1, p, s, pos as int, piece@);
            }
            let _ = cache.write_bytes(sector, off, piece.as_slice());
            proof {
                let d2 = cache@.disk();
                lemma_same_tables(d2, d1, p);
                assert(extent(d2, p, s) =~= splice(
                    e0,
                    offset as int,
                    data@.subrange(0, done + n),
                )) by {
                    assert forall|i: int| 0 <= i < e0.len() implies extent(d2, p, s)[i] == splice(
                        e0,
                        offset as int,
                        data@.subrange(0, done + n),
                    )[i] by {
                        assert(extent(d2, p, s)[i] == splice(extent(d1, p, s), pos as int, piece@)[i]);
                    }
                }
                assert(same_but(d2, d0, p, s)) by {
                    assert forall|d: int| p.is_cluster(d) && !s.contains(d) implies #[trigger] same_cluster(
                        d2,
                        d0,
                        p,
                        d,
                    ) by {
                        assert(same_cluster(d1, d0, p, d));
                        assert forall|j: int| 0 <= j < p.sectors_per_cluster implies #[trigger] d2[p.sector_of(
                            d,
                        ) + j] == d0[p.sector_of(d) + j] by {
                            lemma_stream_elsewhere(p, s, q as int, d, j);
                            assert(d1[p.sector_of(d) + j] == d0[p.sector_of(d) + j]);
                        }
                    }
                }
            }
            done = done + n;
        }
        assert(data@.subrange(0, total as int) =~= data@);
    }
}

impl ClusterChain {
    /// Appends free clusters to the chain until it has `needed` of them.
    fn extend_to<D: BlockDevice>(
        &mut self,
        fat: &mut FAT,
        cache: &mut BlockCache<D>,
        count0: u32,
        tail0: u32,
        needed: u32,
    )
        requires
            old(fat).mounted(old(cache)),
            old(self).valid(old(cache)@.disk(), old(fat).params()),
            count0 == old(self).clusters(old(cache)@.disk(), old(fat).params()).len(),
            count0 > 0 ==> tail0 == old(self).clusters(old(cache)@.disk(), old(fat).params()).last(),
            count0 <= needed,
            needed - count0 <= free_count(old(fat).table(old(cache)@.disk())),
        ensures
            final(fat).mounted(final(cache)),
            final(fat).params() == old(fat).params(),
            final(cache)@.device.len() == old(cache)@.device.len(),
            mirrored(old(cache)@.disk(), old(fat).params()) ==> mirrored(
                final(cache)@.disk(),
                old(fat).params(),
            ),
            final(self).size == old(self).size,
            final(self).is_dir == old(self).is_dir,
            final(self).valid(final(cache)@.disk(), old(fat).params()),
            final(self).clusters(final(cache)@.disk(), old(fat).params()).len() == needed,
            written(
                old(fat).params(),
                old(cache)@.disk(),
                old(self).clusters(old(cache)@.disk(), old(fat).params()),
                final(cache)@.disk(),
                final(self).clusters(final(cache)@.disk(), old(fat).params()),
                old(self).is_dir,
                0,
                Seq::empty(),
            ),
            same_but(
                final(cache)@.disk(),
                old(cache)@.disk(),
                old(fat).params(),
                final(self).clusters(final(cache)@.disk(), old(fat).params()),
            ),
            final(self).first_cluster == if count0 == 0 && needed > 0 {
                final(self).clusters(final(cache)@.disk(), old(fat).params())[0] as u32
            } else {
                old(self).first_cluster
            },
    {
        let ghost p = fat.params();
        let ghost d0 = cache@.disk();
        let ghost t0 = fat_table(d0, p);
        let ghost s0 = self.clusters(d0, p);
        proof {
            fat.lemma_mounted(cache);
            lemma_written_start(p, d0, s0, self.is_dir);
            assert(same_but(d0, d0, p, s0));
        }
        let mut count: u32 = count0;
        let mut tail: u32 = tail0;
        while count < needed
            invariant
                fat.mounted(cache),
                p == fat.params(),
                p == old(fat).params(),
                d0 == old(cache)@.disk(),
                t0 == fat_table(d0, p),
                s0 == old(self).clusters(d0, p),
                cache@.device.len() == old(cache)@.device.len(),
                mirrored(d0, p) ==> mirrored(cache@.disk(), p),
                self.size == old(self).size,
                self.is_dir == old(self).is_dir,
                self.valid(cache@.disk(), p),
                count0 <= count <= needed,
                count0 == s0.len(),
                count == self.clusters(cache@.disk(), p).len(),
                count > 0 ==> tail == self.clusters(cache@.disk(), p).last(),
                needed - count0 <= free_count(t0),
                written(
                    p,
                    d0,
                    s0,
                    cache@.disk(),
                    self.clusters(cache@.disk(), p),
                    self.is_dir,
                    0,
                    Seq::empty(),
                ),
                same_but(cache@.disk(), d0, p, self.clusters(cache@.disk(), p)),
                self.first_cluster == if count0 == 0 && count > 0 {
                    self.clusters(cache@.disk(), p)[0] as u32
                } else {
                    old(self).first_cluster
                },
            decreases needed - count,
        {
            let ghost d1 = cache@.disk();
            let ghost t1 = fat_table(d1, p);
            let ghost s1 = self.clusters(d1, p);
            proof {
                fat.lemma_mounted(cache);
                lemma_walk_basics(t1, self.first_cluster as int, t1.len());
                if count > 0 {
                    lemma_walk_in_use(t1, self.first_cluster as int, t1.len());
                }
            }
            let c = self.grow(fat, cache, count, tail);
            proof {
                let d2 = cache@.disk();
                lemma_written_grow(p, d0, s0, d1, s1, d2, c as int, tail as int, self.is_dir);
                lemma_same_but_push(p, d0, d1, d2, s1, c as int);
                assert(s1.push(c as int).last() == c);
                assert(s1.push(c as int)[0] == if count > 0 {
                    s1[0]
                } else {
                    c as int
                });
            }
            tail = c;
            count = count + 1;
        }
    }

    /// Writes `data` into the body at `offset`, appending free clusters to the
    /// chain, one at a time, until it holds `offset + data.len()` bytes. The new
    /// clusters of a directory are zero-filled before `data` is stored; those of
    /// a file are not. The recorded size of a file grows to the end of the
    /// write if it was less. Returns the number of bytes written, which is all
    /// of them.
    ///
    /// Fails with `InvalidFilesystem` if the chain is not sound, and with
    /// `OutOfSpace` if the end of the write cannot be recorded in 32 bits or
    /// fewer clusters are free than the write needs. A failed write changes
    /// nothing. A write of no bytes changes nothing either.
    pub fn write_at<D: BlockDevice>(
        &mut self,
        fat: &mut FAT,
        cache: &mut BlockCache<D>,
        offset: usize,
        data: &[u8],
    ) -> (r: Result<usize, FsError>)
        requires
            old(fat).mounted(old(cache)),
        ensures
            final(fat).mounted(final(cache)),
            final(fat).params() == old(fat).params(),
            final(cache)@.device.len() == old(cache)@.device.len(),
            final(self).is_dir == old(self).is_dir,
            ({
                let p = old(fat).params();
                let d0 = old(cache)@.disk();
                let d1 = final(cache)@.disk();
                let s0 = old(self).clusters(d0, p);
                let s1 = final(self).clusters(d1, p);
                let len = data@.len();
                match r {
                    Ok(n) => {
                        &&& n == len
                        &&& old(self).wrote(p, d0, *final(self), d1, offset as int, data@)
                        &&& same_but(d1, d0, p, s1)
                    },
                    Err(e) => {
                        &&& d1 == d0
                        &&& *final(self) == *old(self)
                        &&& final(fat).cursor() == old(fat).cursor()
                        &&& !old(self).valid(d0, p) ==> e == FsError::InvalidFilesystem
                        &&& old(self).valid(d0, p) ==> e == FsError::OutOfSpace && !old(
                            self,
                        ).write_fits(d0, p, offset as int, len as int)
                    },
                }
            }),
    {
        let ghost p = fat.params();
        let ghost d0 = cache@.disk();
        let ghost t0 = fat_table(d0, p);
        let ghost s0 = self.clusters(d0, p);
        proof {
            fat.lemma_mounted(cache);
            p.lemma_geometry();
            lemma_walk_basics(t0, self.first_cluster as int, t0.len());
        }
        let (count0, tail0) = match self.measure(fat, cache) {
            None => {
                return Err(FsError::InvalidFilesystem);
            },
            Some(m) => m,
        };
        let len: usize = data.len();
        if len == 0 {
            proof {
                lemma_written_start(p, d0, s0, self.is_dir);
                assert(same_but(d0, d0, p, s0));
            }
            return Ok(0);
        }
        if offset > u32::MAX as usize || len > u32::MAX as usize - offset {
            return Err(FsError::OutOfSpace);
        }
        let end: u64 = offset as u64 + len as u64;
        let cb: u64 = fat.cluster_size() as u64;
        let needed: u64 = (end + cb - 1) / cb;
        assert(needed == clusters_for(p, offset + len));
        proof {
            let e = end as int;
            let c = cb as int;
            let m = needed as int;
            assert(m * c >= e && m <= e) by (nonlinear_arith)
                requires
                    m == (e + c - 1) / c,
                    c >= 512,
                    e >= 1,
            ;
        }
        if needed > count0 as u64 {
            let free: u32 = fat.count_free(cache);
            if needed - count0 as u64 > free as u64 {
                return Err(FsError::OutOfSpace);
            }
            proof {
                if count0 > 0 {
                    lemma_chain_len(t0, self.first_cluster as int, t0.len());
                }
            }
            self.extend_to(fat, cache, count0, tail0, needed as u32);
        } else {
            proof {
                lemma_written_start(p, d0, s0, self.is_dir);
                assert(same_but(d0, d0, p, s0));
            }
        }
        let ghost d1 = cache@.disk();
        let ghost s1 = self.clusters(d1, p);
        proof {
            let k = p.sectors_per_cluster as int;
            let n = s1.len() as int;
            let m = needed as int;
            let c = cb as int;
            assert(n * k * 512 >= m * c) by (nonlinear_arith)
                requires
                    n >= m,
                    c == k * 512,
                    k >= 1,
                    m >= 0,
            ;
        }
        self.store(fat, cache, offset as u64, data);
        proof {
            let d2 = cache@.disk();
            lemma_written_store(p, d0, s0, d1, s1, d2, self.is_dir, offset as int, data@);
            lemma_same_but_trans(p, d0, d1, d2, s1);
            lemma_same_tables(d2, d1, p);
        }
        if !self.is_dir && end > self.size as u64 {
            self.size = end as u32;
        }
        Ok(len)
    }

    /// Releases the whole chain and makes the body empty: no first cluster, size
    /// zero.
    pub fn clear<D: BlockDevice>(&mut self, fat: &FAT, cache: &mut BlockCache<D>)
        requires
            fat.mounted(old(cache)),
        ensures
            fat.mounted(final(cache)),
            final(cache)@.device.len() == old(cache)@.device.len(),
            *final(self) == (ClusterChain { first_cluster: 0, size: 0, is_dir: old(self).is_dir }),
            same_outside_tables(final(cache)@.disk(), old(cache)@.disk(), fat.params()),
            fat_table(final(cache)@.disk(), fat.params()) == released(
                fat_table(old(cache)@.disk(), fat.params()),
                old(self).first_cluster as int,
                fat.params().entries() as nat,
            ),
            final(self).valid(final(cache)@.disk(), fat.params()),
            final(self).content(final(cache)@.disk(), fat.params()) == Seq::<u8>::empty(),
            mirrored(old(cache)@.disk(), fat.params()) ==> mirrored(final(cache)@.disk(), fat.params()),
            old(self).valid(old(cache)@.disk(), fat.params()) ==> free_count(
                fat_table(final(cache)@.disk(), fat.params()),
            ) == free_count(fat_table(old(cache)@.disk(), fat.params())) + old(self).clusters(
                old(cache)@.disk(),
                fat.params(),
            ).len(),
    {
        let ghost p = fat.params();
        let ghost t0 = fat_table(cache@.disk(), p);
        proof {
            fat.lemma_mounted(cache);
            if self.first_cluster != 0 && self.valid(cache@.disk(), p) {
                lemma_released(t0, self.first_cluster as int, t0.len());
            }
        }
        fat.free_chain(cache, self.first_cluster);
        self.first_cluster = 0;
        self.size = 0;
        proof {
            let d1 = cache@.disk();
            assert(self.clusters(d1, p) =~= Seq::<int>::empty());
            assert(self.content(d1, p) =~= Seq::<u8>::empty());
        }
    }
}

/// After a body that had no cluster was written to and then cleared, as many
/// clusters are free as were before the write.
pub proof fn lemma_free_space_conserved(
    p: BootParams,
    d0: Disk,
    before: ClusterChain,
    d1: Disk,
    after: ClusterChain,
    d2: Disk,
    offset: int,
    data: Seq<u8>,
)
    requires
        p.geometry_ok(),
        before.first_cluster == 0,
        before.wrote(p, d0, after, d1, offset, data),
        fat_table(d2, p) == released(
            fat_table(d1, p),
            after.first_cluster as int,
            p.entries() as nat,
        ),
    ensures
        free_count(fat_table(d2, p)) == free_count(fat_table(d0, p)),
{
    let t1 = fat_table(d1, p);
    assert(before.clusters(d0, p) =~= Seq::<int>::empty());
    if after.first_cluster != 0 {
        lemma_released(t1, after.first_cluster as int, t1.len());
    } else {
        assert(after.clusters(d1, p) =~= Seq::<int>::empty());
    }
}

/// A body stays as it is where the disk changes only outside its clusters: if
/// the table entries of its clusters are the same on both disks, and the disks
/// differ, outside the tables, only in clusters that are none of its own, then
/// its chain and its bytes are the same on both.
pub proof fn lemma_body_untouched(
    p: BootParams,
    d0: Disk,
    d1: Disk,
    body: ClusterChain,
    touched: Seq<int>,
)
    requires
        volume_fits(d0, p),
        volume_fits(d1, p),
        same_but(d1, d0, p, touched),
        forall|k: int|
            0 <= k < body.clusters(d0, p).len() ==> !touched.contains(
                #[trigger] body.clusters(d0, p)[k],
            ) && fat_table(d1, p)[body.clusters(d0, p)[k]] == fat_table(d0, p)[body.clusters(
                d0,
                p,
            )[k]],
    ensures
        body.clusters(d1, p) == body.clusters(d0, p),
        body.valid(d1, p) == body.valid(d0, p),
        body.content(d1, p) == body.content(d0, p),
{
    let t0 = fat_table(d0, p);
    let t1 = fat_table(d1, p);
    let s = body.clusters(d0, p);
    lemma_walk_basics(t0, body.first_cluster as int, t0.len());
    lemma_walk_frame(t0, t1, body.first_cluster as int, t0.len());
    assert forall|k: int| 0 <= k < s.len() implies same_cluster(d1, d0, p, #[trigger] s[k]) by {
        assert(p.is_cluster(s[k]));
    }
    lemma_extent_same(d1, d0, p, s);
    if s.len() > 0 {
        assert(t1[s[s.len() - 1]] == t0[s[s.len() - 1]]);
    }
}

} // verus!
