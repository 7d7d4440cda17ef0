//! The block cache: a fixed number of sector buffers in front of the device,
//! with least-recently-used eviction and write-back.
use vstd::prelude::*;
use crate::error::FsError;
use crate::block_dev::{BlockDevice, BLOCK_SZ};
use crate::codec::{zeros, zero_bytes, copy_range, splice_into, splice};

verus! {

/// What the caller of [`BlockCache::get`] is about to do with the block.
#[derive(Clone, Copy, Debug, PartialEq, Eq, Structural)]
pub enum CacheMode {
    /// The buffer must hold the block's current content.
    Read,
    /// The block is about to be overwritten as a whole: the buffer starts out
    /// zero-filled and the device is not read.
    Overwrite,
}

/// One sector-sized buffer of the cache.
pub struct CacheSlot {
    block_id: usize,
    data: Vec<u8>,
    dirty: bool,
    pinned: bool,
}

/// A pin on a cached block, handed out by [`BlockCache::get`].
pub struct SlotHandle {
    block_id: usize,
}

/// The mathematical content of one cache slot.
pub struct SlotView {
    pub block: usize,
    pub data: Seq<u8>,
    pub dirty: bool,
    pub pinned: bool,
}

/// The mathematical state of a cache and the device below it.
///
/// `slots` is ordered by recency of use: the least recently used slot comes first.
pub struct CacheView {
    pub device: Seq<Seq<u8>>,
    pub log: Seq<usize>,
    pub slots: Seq<SlotView>,
    pub capacity: nat,
}

impl CacheView {
    /// Slots hold whole in-range blocks, no block twice, and a clean slot mirrors
    /// the device.
    pub open spec fn wf(self) -> bool {
        &&& self.slots.len() <= self.capacity
        &&& self.device.len() <= usize::MAX
        &&& forall|b: int|
            0 <= b < self.device.len() ==> (#[trigger] self.device[b]).len() == BLOCK_SZ
        &&& forall|i: int|
            0 <= i < self.slots.len() ==> (#[trigger] self.slots[i]).data.len() == BLOCK_SZ
                && self.slots[i].block < self.device.len() && (!self.slots[i].dirty
                ==> self.slots[i].data == self.device[self.slots[i].block as int])
        &&& forall|i: int, j: int|
            0 <= i < j < self.slots.len() ==> (#[trigger] self.slots[i]).block != (
            #[trigger] self.slots[j]).block
    }

    /// Some slot holds block `b`.
    pub open spec fn resident(self, b: usize) -> bool {
        exists|i: int| 0 <= i < self.slots.len() && (#[trigger] self.slots[i]).block == b
    }

    /// The position of the slot that holds block `b`.
    pub open spec fn index_of(self, b: usize) -> int {
        choose|i: int| 0 <= i < self.slots.len() && (#[trigger] self.slots[i]).block == b
    }

    /// Block `b` is cached and pinned.
    pub open spec fn is_pinned(self, b: usize) -> bool {
        self.resident(b) && self.slots[self.index_of(b)].pinned
    }

    /// No slot is pinned.
    pub open spec fn idle(self) -> bool {
        forall|i: int| 0 <= i < self.slots.len() ==> !(#[trigger] self.slots[i]).pinned
    }

    /// No slot is dirty.
    pub open spec fn clean(self) -> bool {
        forall|i: int| 0 <= i < self.slots.len() ==> !(#[trigger] self.slots[i]).dirty
    }

    /// The disk as seen through the cache: a cached block shows its buffer, any
    /// other block what the device holds.
    pub open spec fn disk(self) -> Seq<Seq<u8>> {
        Seq::new(
            self.device.len(),
            |b: int|
                if self.resident(b as usize) {
                    self.slots[self.index_of(b as usize)].data
                } else {
                    self.device[b]
                },
        )
    }

    /// Slot `v` is the least recently used among the unpinned slots.
    pub open spec fn is_victim(self, v: int) -> bool {
        &&& 0 <= v < self.slots.len()
        &&& !self.slots[v].pinned
        &&& forall|j: int| 0 <= j < v ==> (#[trigger] self.slots[j]).pinned
    }

    pub open spec fn has_victim(self) -> bool {
        exists|v: int| self.is_victim(v)
    }

    pub open spec fn victim(self) -> int {
        choose|v: int| self.is_victim(v)
    }

    /// Whether a request for block `b` can be served.
    pub open spec fn get_result(self, b: usize) -> Result<(), FsError> {
        if b >= self.device.len() {
            Err(FsError::DeviceIoError)
        } else if !self.resident(b) && self.slots.len() >= self.capacity && !self.has_victim() {
            Err(FsError::CacheExhausted)
        } else {
            Ok(())
        }
    }

    /// The state after the buffer of slot `v` has been written to the device.
    pub open spec fn flush(self, v: int) -> CacheView {
        let s = self.slots[v];
        CacheView {
            device: self.device.update(s.block as int, s.data),
            log: self.log.push(s.block),
            slots: self.slots.update(v, SlotView { dirty: false, ..s }),
            capacity: self.capacity,
        }
    }

    /// The state without slot `v`.
    pub open spec fn drop_slot(self, v: int) -> CacheView {
        CacheView { slots: self.slots.remove(v), ..self }
    }

    /// The state after slot `v` has left the cache: a dirty buffer is written
    /// back first.
    pub open spec fn evict(self, v: int) -> CacheView {
        if self.slots[v].dirty {
            self.flush(v).drop_slot(v)
        } else {
            self.drop_slot(v)
        }
    }

    /// The state with slot `v` replaced by `s`.
    pub open spec fn replace(self, v: int, s: SlotView) -> CacheView {
        CacheView { slots: self.slots.update(v, s), ..self }
    }

    /// The state with one more slot, the most recently used.
    pub open spec fn bring_in(self, s: SlotView) -> CacheView {
        CacheView { slots: self.slots.push(s), ..self }
    }

    /// The state after a request for block `b`.
    ///
    /// A cached block becomes the most recently used. An absent block is brought
    /// in, after the victim has made room where the cache is full. A request that
    /// cannot be served changes nothing.
    pub open spec fn after_get(self, b: usize, mode: CacheMode) -> CacheView {
        if self.get_result(b) is Err {
            self
        } else if self.resident(b) {
            let i = self.index_of(b);
            let s = self.slots[i];
            self.drop_slot(i).bring_in(
                SlotView {
                    block: b,
                    data: if mode == CacheMode::Overwrite {
                        zeros(BLOCK_SZ as nat)
                    } else {
                        s.data
                    },
                    dirty: s.dirty || mode == CacheMode::Overwrite,
                    pinned: true,
                },
            )
        } else {
            let base = if self.slots.len() >= self.capacity {
                self.evict(self.victim())
            } else {
                self
            };
            base.bring_in(
                SlotView {
                    block: b,
                    data: if mode == CacheMode::Overwrite {
                        zeros(BLOCK_SZ as nat)
                    } else {
                        base.device[b as int]
                    },
                    dirty: mode == CacheMode::Overwrite,
                    pinned: true,
                },
            )
        }
    }

    /// The state after the pin on block `b` is dropped.
    pub open spec fn after_release(self, b: usize) -> CacheView {
        if self.resident(b) {
            let i = self.index_of(b);
            self.replace(i, SlotView { pinned: false, ..self.slots[i] })
        } else {
            self
        }
    }

    /// The state after `data` is stored at `off` in the buffer of block `b`.
    pub open spec fn after_store(self, b: usize, off: int, data: Seq<u8>) -> CacheView {
        let i = self.index_of(b);
        self.replace(
            i,
            SlotView { data: splice(self.slots[i].data, off, data), dirty: true, ..self.slots[i] },
        )
    }

    /// Some dirty slot holds block `b`.
    pub open spec fn dirty_at(self, b: usize) -> bool {
        exists|i: int|
            0 <= i < self.slots.len() && (#[trigger] self.slots[i]).block == b
                && self.slots[i].dirty
    }

    /// `s` lists the blocks of the dirty slots, each once, in ascending order.
    pub open spec fn lists_dirty_ascending(self, s: Seq<usize>) -> bool {
        &&& forall|i: int, j: int| 0 <= i < j < s.len() ==> s[i] < s[j]
        &&& forall|b: usize| s.contains(b) <==> self.dirty_at(b)
    }

    /// In a well-formed state a slot is found again by its block.
    pub proof fn lemma_index_of(self, i: int)
        requires
            self.wf(),
            0 <= i < self.slots.len(),
        ensures
            self.resident(self.slots[i].block),
            self.index_of(self.slots[i].block) == i,
    {
        let b = self.slots[i].block;
        let j = self.index_of(b);
        assert(0 <= j < self.slots.len() && self.slots[j].block == b);
        if j < i {
            assert(self.slots[j].block != self.slots[i].block);
        } else if i < j {
            assert(self.slots[i].block != self.slots[j].block);
        }
    }

    /// There is at most one victim.
    pub proof fn lemma_victim(self, v: int)
        requires
            self.is_victim(v),
        ensures
            self.has_victim(),
            self.victim() == v,
    {
        let w = self.victim();
        assert(self.is_victim(w));
        if w < v {
            assert(self.slots[w].pinned);
        } else if v < w {
            assert(self.slots[v].pinned);
        }
    }

    /// An idle cache with room for at least one slot serves every in-range request.
    pub proof fn lemma_idle_serves(self, b: usize)
        requires
            self.wf(),
            self.idle(),
            self.capacity > 0,
            b < self.device.len(),
        ensures
            self.get_result(b) is Ok,
    {
        if !self.resident(b) && self.slots.len() >= self.capacity {
            assert(self.is_victim(0));
        }
    }

    /// Appending a slot for an absent block keeps the state well-formed and shows
    /// the new buffer at that block.
    pub proof fn lemma_bring_in(self, s: SlotView)
        requires
            self.wf(),
            self.slots.len() < self.capacity,
            !self.resident(s.block),
            s.block < self.device.len(),
            s.data.len() == BLOCK_SZ,
            !s.dirty ==> s.data == self.device[s.block as int],
        ensures
            self.bring_in(s).wf(),
            self.bring_in(s).disk() == self.disk().update(s.block as int, s.data),
            self.bring_in(s).resident(s.block),
            self.bring_in(s).index_of(s.block) == self.slots.len(),
            forall|b: usize|
                b != s.block ==> self.bring_in(s).is_pinned(b) == self.is_pinned(b),
            forall|b: usize|
                b != s.block ==> self.bring_in(s).resident(b) == self.resident(b),
    {
        let w = self.bring_in(s);
        let n = self.slots.len() as int;
        assert(w.slots[n] == s);
        assert forall|i: int, j: int| 0 <= i < j < w.slots.len() implies (#[trigger] w.slots[i]).block
            != (#[trigger] w.slots[j]).block by {
            if j == n {
                assert(self.slots[i].block != s.block);
            } else {
                assert(w.slots[i] == self.slots[i] && w.slots[j] == self.slots[j]);
            }
        }
        assert forall|i: int| 0 <= i < w.slots.len() implies (#[trigger] w.slots[i]).data.len()
            == BLOCK_SZ && w.slots[i].block < w.device.len() && (!w.slots[i].dirty
            ==> w.slots[i].data == w.device[w.slots[i].block as int]) by {
            if i < n {
                assert(w.slots[i] == self.slots[i]);
            }
        }
        assert(w.wf());
        w.lemma_index_of(n);
        assert forall|b: usize| b != s.block implies (w.resident(b) == self.resident(b)
            && w.is_pinned(b) == self.is_pinned(b) && (self.resident(b) ==> w.index_of(b)
            == self.index_of(b))) by {
            if self.resident(b) {
                let i = self.index_of(b);
                assert(w.slots[i] == self.slots[i]);
                w.lemma_index_of(i);
            }
            if w.resident(b) {
                let i = w.index_of(b);
                assert(i != n);
                assert(w.slots[i] == self.slots[i]);
                self.lemma_index_of(i);
            }
        }
        assert(w.disk() =~= self.disk().update(s.block as int, s.data)) by {
            assert forall|b: int| 0 <= b < w.device.len() implies w.disk()[b] == self.disk().update(
                s.block as int,
                s.data,
            )[b] by {
                if b as usize != s.block {
                    if self.resident(b as usize) {
                        let i = self.index_of(b as usize);
                        assert(w.slots[i] == self.slots[i]);
                    }
                }
            }
        }
    }

    /// Taking out slot `v` keeps the state well-formed; its block then shows
    /// what the device holds.
    pub proof fn lemma_drop(self, v: int)
        requires
            self.wf(),
            0 <= v < self.slots.len(),
        ensures
            self.drop_slot(v).wf(),
            self.drop_slot(v).disk() == self.disk().update(
                self.slots[v].block as int,
                self.device[self.slots[v].block as int],
            ),
            !self.drop_slot(v).resident(self.slots[v].block),
            forall|b: usize|
                b != self.slots[v].block ==> self.drop_slot(v).is_pinned(b) == self.is_pinned(b),
            forall|b: usize|
                b != self.slots[v].block ==> self.drop_slot(v).resident(b) == self.resident(b),
    {
        let w = self.drop_slot(v);
        let vb = self.slots[v].block;
        assert forall|i: int| 0 <= i < w.slots.len() implies #[trigger] w.slots[i] == self.slots[if i
            < v {
            i
        } else {
            i + 1
        }] by {}
        assert forall|i: int, j: int| 0 <= i < j < w.slots.len() implies (#[trigger] w.slots[i]).block
            != (#[trigger] w.slots[j]).block by {
            let i2 = if i < v { i } else { i + 1 };
            let j2 = if j < v { j } else { j + 1 };
            assert(self.slots[i2].block != self.slots[j2].block);
        }
        assert forall|i: int| 0 <= i < w.slots.len() implies (#[trigger] w.slots[i]).data.len()
            == BLOCK_SZ && w.slots[i].block < w.device.len() && (!w.slots[i].dirty
            ==> w.slots[i].data == w.device[w.slots[i].block as int]) by {
            let i2 = if i < v { i } else { i + 1 };
            assert(w.slots[i] == self.slots[i2]);
        }
        assert(w.wf());
        self.lemma_index_of(v);
        if w.resident(vb) {
            let i = w.index_of(vb);
            let i2 = if i < v { i } else { i + 1 };
            assert(w.slots[i] == self.slots[i2]);
            self.lemma_index_of(i2);
        }
        assert forall|b: usize| b != vb implies (w.resident(b) == self.resident(b) && w.is_pinned(b)
            == self.is_pinned(b) && (self.resident(b) ==> w.slots[w.index_of(b)]
            == self.slots[self.index_of(b)])) by {
            if self.resident(b) {
                let i = self.index_of(b);
                let i1 = if i < v { i } else { i - 1 };
                assert(w.slots[i1] == self.slots[i]);
                w.lemma_index_of(i1);
            }
            if w.resident(b) {
                let i = w.index_of(b);
                let i2 = if i < v { i } else { i + 1 };
                assert(w.slots[i] == self.slots[i2]);
                self.lemma_index_of(i2);
            }
        }
        assert(w.disk() =~= self.disk().update(vb as int, self.device[vb as int]));
    }

    /// Replacing a slot by one for the same block keeps the state well-formed and
    /// shows the new buffer at that block.
    pub proof fn lemma_replace(self, v: int, s: SlotView)
        requires
            self.wf(),
            0 <= v < self.slots.len(),
            s.block == self.slots[v].block,
            s.data.len() == BLOCK_SZ,
            !s.dirty ==> s.data == self.device[s.block as int],
        ensures
            self.replace(v, s).wf(),
            self.replace(v, s).disk() == self.disk().update(s.block as int, s.data),
            forall|b: usize| self.replace(v, s).resident(b) == self.resident(b),
            forall|b: usize| self.resident(b) ==> self.replace(v, s).index_of(b) == self.index_of(b),
            forall|b: usize| b != s.block ==> self.replace(v, s).is_pinned(b) == self.is_pinned(b),
            self.replace(v, s).is_pinned(s.block) == s.pinned,
    {
        let w = self.replace(v, s);
        assert forall|i: int| 0 <= i < w.slots.len() implies (#[trigger] w.slots[i]).block
            == self.slots[i].block by {}
        assert forall|i: int, j: int| 0 <= i < j < w.slots.len() implies (#[trigger] w.slots[i]).block
            != (#[trigger] w.slots[j]).block by {
            assert(self.slots[i].block != self.slots[j].block);
        }
        assert forall|i: int| 0 <= i < w.slots.len() implies (#[trigger] w.slots[i]).data.len()
            == BLOCK_SZ && w.slots[i].block < w.device.len() && (!w.slots[i].dirty
            ==> w.slots[i].data == w.device[w.slots[i].block as int]) by {
            if i != v {
                assert(w.slots[i] == self.slots[i]);
            }
        }
        assert(w.wf());
        assert forall|b: usize|
            w.resident(b) == self.resident(b) && (self.resident(b) ==> w.index_of(b)
                == self.index_of(b)) by {
            if self.resident(b) {
                let i = self.index_of(b);
                assert(w.slots[i].block == b);
                w.lemma_index_of(i);
            }
            if w.resident(b) {
                let i = w.index_of(b);
                assert(self.slots[i].block == b);
            }
        }
        self.lemma_index_of(v);
        assert forall|b: usize| b != s.block implies w.is_pinned(b) == self.is_pinned(b) by {
            if self.resident(b) {
                let i = self.index_of(b);
                assert(i != v);
                assert(w.slots[i] == self.slots[i]);
            }
        }
        assert(w.disk() =~= self.disk().update(s.block as int, s.data)) by {
            assert forall|b: int| 0 <= b < w.device.len() implies w.disk()[b] == self.disk().update(
                s.block as int,
                s.data,
            )[b] by {
                if self.resident(b as usize) {
                    let i = self.index_of(b as usize);
                    if i != v {
                        assert(w.slots[i] == self.slots[i]);
                    }
                }
            }
        }
    }

    /// Writing a buffer back keeps the state well-formed and the disk seen through
    /// the cache the same.
    pub proof fn lemma_flush(self, v: int)
        requires
            self.wf(),
            0 <= v < self.slots.len(),
        ensures
            self.flush(v).wf(),
            self.flush(v).disk() == self.disk(),
            forall|b: usize| self.flush(v).resident(b) == self.resident(b),
            forall|b: usize| self.flush(v).is_pinned(b) == self.is_pinned(b),
    {
        let s = self.slots[v];
        let t = SlotView { dirty: false, ..s };
        let mid = CacheView { device: self.device.update(s.block as int, s.data), log: self.log.push(s.block), ..self };
        assert forall|i: int| 0 <= i < mid.slots.len() implies (#[trigger] mid.slots[i]).data.len()
            == BLOCK_SZ && mid.slots[i].block < mid.device.len() && (!mid.slots[i].dirty
            ==> mid.slots[i].data == mid.device[mid.slots[i].block as int]) by {
            if i < v {
                assert(self.slots[i].block != self.slots[v].block);
            } else if v < i {
                assert(self.slots[v].block != self.slots[i].block);
            }
        }
        assert(mid.wf());
        self.lemma_index_of(v);
        assert forall|b: usize| mid.resident(b) == self.resident(b) && mid.index_of(b)
            == self.index_of(b) by {}
        assert(mid.disk() =~= self.disk());
        mid.lemma_replace(v, t);
        assert(self.flush(v) == mid.replace(v, t));
        self.lemma_index_of(v);
        mid.lemma_index_of(v);
        assert(mid.disk().update(s.block as int, s.data) =~= mid.disk());
        assert forall|b: usize| mid.is_pinned(b) == self.is_pinned(b) by {}
    }

    /// Evicting a slot keeps the state well-formed and the disk seen through the
    /// cache the same.
    pub proof fn lemma_evict(self, v: int)
        requires
            self.wf(),
            0 <= v < self.slots.len(),
        ensures
            self.evict(v).wf(),
            self.evict(v).disk() == self.disk(),
            self.evict(v).slots.len() == self.slots.len() - 1,
            self.evict(v).device.len() == self.device.len(),
            self.evict(v).capacity == self.capacity,
            !self.evict(v).resident(self.slots[v].block),
            forall|b: usize|
                b != self.slots[v].block ==> self.evict(v).is_pinned(b) == self.is_pinned(b),
            forall|b: usize|
                b != self.slots[v].block ==> self.evict(v).resident(b) == self.resident(b),
    {
        let vb = self.slots[v].block;
        self.lemma_index_of(v);
        if self.slots[v].dirty {
            let f = self.flush(v);
            self.lemma_flush(v);
            f.lemma_drop(v);
            assert(f.disk().update(vb as int, f.device[vb as int]) =~= self.disk());
        } else {
            self.lemma_drop(v);
            assert(self.disk().update(vb as int, self.device[vb as int]) =~= self.disk());
        }
    }

    /// A request keeps the state well-formed. Where it is served, the block is
    /// cached, most recently used and pinned, no other pin changes, and the disk
    /// seen through the cache is the same, or zero at that block for
    /// [`CacheMode::Overwrite`].
    pub proof fn lemma_after_get(self, b: usize, mode: CacheMode)
        requires
            self.wf(),
        ensures
            self.after_get(b, mode).wf(),
            self.after_get(b, mode).capacity == self.capacity,
            self.after_get(b, mode).device.len() == self.device.len(),
            self.get_result(b) is Ok ==> {
                let w = self.after_get(b, mode);
                &&& w.resident(b)
                &&& w.index_of(b) == w.slots.len() - 1
                &&& w.is_pinned(b)
                &&& forall|c: usize| c != b ==> w.is_pinned(c) == self.is_pinned(c)
                &&& w.disk() == if mode == CacheMode::Overwrite {
                    self.disk().update(b as int, zeros(BLOCK_SZ as nat))
                } else {
                    self.disk()
                }
            },
    {
        if self.get_result(b) is Ok {
            let w = self.after_get(b, mode);
            if self.resident(b) {
                let i = self.index_of(b);
                let s = self.slots[i];
                let t = w.slots.last();
                let mid = self.drop_slot(i);
                self.lemma_index_of(i);
                self.lemma_drop(i);
                mid.lemma_bring_in(t);
                assert(w == mid.bring_in(t));
                assert(self.disk()[b as int] == s.data);
                assert(w.disk() =~= if mode == CacheMode::Overwrite {
                    self.disk().update(b as int, zeros(BLOCK_SZ as nat))
                } else {
                    self.disk()
                });
            } else {
                let t = w.slots.last();
                if self.slots.len() >= self.capacity {
                    let v = self.victim();
                    assert(self.is_victim(v));
                    let base = self.evict(v);
                    self.lemma_evict(v);
                    base.lemma_bring_in(t);
                    assert(w == base.bring_in(t));
                    assert(base.device[b as int] == self.disk()[b as int]) by {
                        assert(base.disk()[b as int] == base.device[b as int]);
                    }
                } else {
                    self.lemma_bring_in(t);
                    assert(w == self.bring_in(t));
                }
                assert(w.disk() =~= if mode == CacheMode::Overwrite {
                    self.disk().update(b as int, zeros(BLOCK_SZ as nat))
                } else {
                    self.disk()
                });
            }
        }
    }

    /// The disk seen through the cache has the device's size and whole blocks.
    pub proof fn lemma_disk_blocks(self)
        requires
            self.wf(),
        ensures
            self.disk().len() == self.device.len(),
            forall|b: int| 0 <= b < self.disk().len() ==> (#[trigger] self.disk()[b]).len() == BLOCK_SZ,
    {
        assert forall|b: int| 0 <= b < self.disk().len() implies (#[trigger] self.disk()[b]).len()
            == BLOCK_SZ by {
            if self.resident(b as usize) {
                let i = self.index_of(b as usize);
                assert(self.slots[i].data.len() == BLOCK_SZ);
            }
        }
    }

    /// A request for an absent block in a full cache evicts exactly one slot: the
    /// least recently used among the unpinned ones. Every other block stays
    /// cached, the new block comes in as the most recently used, and a dirty
    /// buffer that leaves is on the device, as its newest write.
    pub proof fn lemma_eviction(self, b: usize, mode: CacheMode)
        requires
            self.wf(),
            self.slots.len() == self.capacity,
            b < self.device.len(),
            !self.resident(b),
            self.has_victim(),
        ensures
            ({
                let w = self.after_get(b, mode);
                let out = self.slots[self.victim()];
                &&& self.get_result(b) is Ok
                &&& self.is_victim(self.victim())
                &&& w.slots.len() == self.capacity
                &&& w.slots == self.slots.remove(self.victim()).push(w.slots.last())
                &&& w.slots.last().block == b
                &&& !w.resident(out.block)
                &&& forall|c: usize| c != out.block && self.resident(c) ==> w.resident(c)
                &&& out.dirty ==> w.device == self.device.update(out.block as int, out.data)
                    && w.log == self.log.push(out.block)
                &&& !out.dirty ==> w.device == self.device && w.log == self.log
            }),
    {
        let v = self.victim();
        let w = self.after_get(b, mode);
        let base = self.evict(v);
        self.lemma_evict(v);
        base.lemma_bring_in(w.slots.last());
        assert(w == base.bring_in(w.slots.last()));
        assert(w.slots =~= self.slots.remove(v).push(w.slots.last()));
        self.lemma_index_of(v);
    }

    /// With no dirty slot the device holds what the cache shows.
    pub proof fn lemma_clean_device(self)
        requires
            self.wf(),
            self.clean(),
        ensures
            self.disk() == self.device,
    {
        assert(self.disk() =~= self.device) by {
            assert forall|b: int| 0 <= b < self.device.len() implies self.disk()[b]
                == self.device[b] by {
                if self.resident(b as usize) {
                    let i = self.index_of(b as usize);
                    assert(!self.slots[i].dirty);
                }
            }
        }
    }
}

/// A fixed-capacity pool of sector buffers in front of a block device.
///
/// All access to the device goes through the cache. Slots are kept in order of
/// use; a block that is not held is brought in at the expense of the least
/// recently used unpinned slot, whose buffer is written back first if dirty.
pub struct BlockCache<D: BlockDevice> {
    dev: D,
    slots: Vec<CacheSlot>,
    capacity: usize,
}

impl CacheSlot {
    pub closed spec fn view(&self) -> SlotView {
        SlotView { block: self.block_id, data: self.data@, dirty: self.dirty, pinned: self.pinned }
    }
}

impl SlotHandle {
    /// The block that the handle pins.
    pub closed spec fn block(&self) -> usize {
        self.block_id
    }

    /// The block that the handle pins.
    pub fn block_id(&self) -> (b: usize)
        ensures
            b == self.block(),
    {
        self.block_id
    }
}

impl<D: BlockDevice> BlockCache<D> {
    pub closed spec fn view(&self) -> CacheView {
        CacheView {
            device: self.dev.blocks(),
            log: self.dev.write_log(),
            slots: Seq::new(self.slots@.len(), |i: int| self.slots@[i]@),
            capacity: self.capacity as nat,
        }
    }

    /// The device is consistent and the cache state well-formed.
    pub closed spec fn wf(&self) -> bool {
        &&& self.dev.inv()
        &&& self@.wf()
    }

    /// Well-formed, with no slot pinned and room for at least one: every request
    /// for a block of the device is then served.
    pub open spec fn ready(&self) -> bool {
        &&& self.wf()
        &&& self@.idle()
        &&& self@.capacity > 0
    }

    /// The device below the cache.
    pub closed spec fn device(&self) -> D {
        self.dev
    }

    pub proof fn lemma_wf(&self)
        requires
            self.wf(),
        ensures
            self@.wf(),
            self.device().inv(),
            self@.device == self.device().blocks(),
            self@.log == self.device().write_log(),
    {
    }

    /// An empty cache of `capacity` slots in front of `dev`.
    pub fn new(dev: D, capacity: usize) -> (c: Self)
        requires
            dev.inv(),
        ensures
            c.wf(),
            c.device() == dev,
            c@.device == dev.blocks(),
            c@.log == dev.write_log(),
            c@.slots.len() == 0,
            c@.capacity == capacity,
            c@.disk() == dev.blocks(),
    {
        proof {
            dev.lemma_block_size();
        }
        let c = BlockCache { dev, slots: Vec::new(), capacity };
        assert(c@.disk() =~= dev.blocks());
        c
    }

    /// Writes every dirty buffer back and gives the device up: it then holds
    /// what the cache showed.
    pub fn into_device(self) -> (dev: D)
        requires
            self.wf(),
        ensures
            dev.inv(),
            dev.blocks() == self@.disk(),
    {
        let mut this = self;
        this.sync_all();
        this.dev
    }

    /// The device below the cache.
    pub fn device_ref(&self) -> (dev: &D)
        ensures
            *dev == self.device(),
    {
        &self.dev
    }

    /// The number of slots the cache may hold.
    pub fn capacity(&self) -> (n: usize)
        ensures
            n == self@.capacity,
    {
        self.capacity
    }

    /// The number of slots in use.
    pub fn len(&self) -> (n: usize)
        ensures
            n == self@.slots.len(),
    {
        self.slots.len()
    }

    /// The number of blocks on the device.
    pub fn num_blocks(&self) -> (n: usize)
        requires
            self.wf(),
        ensures
            n == self@.device.len(),
    {
        self.dev.num_blocks()
    }

    fn find(&self, block_id: usize) -> (r: Option<usize>)
        ensures
            match r {
                Some(i) => i < self@.slots.len() && self@.slots[i as int].block == block_id,
                None => !self@.resident(block_id),
            },
    {
        let mut i: usize = 0;
        while i < self.slots.len()
            invariant
                i <= self.slots@.len(),
                forall|j: int| 0 <= j < i ==> (#[trigger] self@.slots[j]).block != block_id,
            decreases self.slots@.len() - i,
        {
            if self.slots[i].block_id == block_id {
                return Some(i);
            }
            i = i + 1;
        }
        None
    }

    fn first_unpinned(&self) -> (r: Option<usize>)
        ensures
            match r {
                Some(v) => self@.is_victim(v as int),
                None => !self@.has_victim(),
            },
    {
        let mut i: usize = 0;
        while i < self.slots.len()
            invariant
                i <= self.slots@.len(),
                forall|j: int| 0 <= j < i ==> (#[trigger] self@.slots[j]).pinned,
            decreases self.slots@.len() - i,
        {
            if !self.slots[i].pinned {
                return Some(i);
            }
            i = i + 1;
        }
        assert forall|v: int| !self@.is_victim(v) by {
            if 0 <= v < self@.slots.len() {
                assert(self@.slots[v].pinned);
            }
        }
        None
    }

    /// Whether block `block_id` is held, and whether its buffer is dirty: `None`
    /// if it is not held.
    pub fn probe(&self, block_id: usize) -> (r: Option<bool>)
        requires
            self.wf(),
        ensures
            r is Some == self@.resident(block_id),
            self@.resident(block_id) ==> r == Some(self@.slots[self@.index_of(block_id)].dirty),
    {
        match self.find(block_id) {
            Some(i) => {
                proof {
                    self@.lemma_index_of(i as int);
                }
                Some(self.slots[i].dirty)
            },
            None => None,
        }
    }

    /// Pins block `block_id` in the cache, bringing it in if it is absent, and
    /// makes it the most recently used.
    ///
    /// Fails with `DeviceIoError` if the device has no such block, and with
    /// `CacheExhausted` if the block is absent, the cache is full and every slot
    /// is pinned; a failed request changes nothing. A slot that has to leave is
    /// the least recently used unpinned one, and its buffer, if dirty, is on the
    /// device before the slot is reused.
    pub fn get(&mut self, block_id: usize, mode: CacheMode) -> (r: Result<SlotHandle, FsError>)
        requires
            old(self).wf(),
        ensures
            final(self).wf(),
            final(self)@ == old(self)@.after_get(block_id, mode),
            match r {
                Ok(h) => h.block() == block_id && old(self)@.get_result(block_id) is Ok,
                Err(e) => old(self)@.get_result(block_id) == Err::<(), FsError>(e),
            },
            r is Ok ==> final(self)@.is_pinned(block_id),
            r is Ok ==> final(self)@.disk() == if mode == CacheMode::Overwrite {
                old(self)@.disk().update(block_id as int, zeros(BLOCK_SZ as nat))
            } else {
                old(self)@.disk()
            },
    {
        let ghost pre = self@;
        proof {
            pre.lemma_after_get(block_id, mode);
        }
        if block_id >= self.dev.num_blocks() {
            return Err(FsError::DeviceIoError);
        }
        match self.find(block_id) {
            Some(i) => {
                proof {
                    pre.lemma_index_of(i as int);
                }
                let mut s = self.slots.remove(i);
                if mode == CacheMode::Overwrite {
                    s.data = zero_bytes(BLOCK_SZ);
                    s.dirty = true;
                }
                s.pinned = true;
                self.slots.push(s);
                assert(self@.slots =~= pre.after_get(block_id, mode).slots);
                Ok(SlotHandle { block_id })
            },
            None => {
                if self.slots.len() >= self.capacity {
                    match self.first_unpinned() {
                        None => {
                            return Err(FsError::CacheExhausted);
                        },
                        Some(v) => {
                            proof {
                                pre.lemma_victim(v as int);
                                pre.lemma_evict(v as int);
                            }
                            let s = self.slots.remove(v);
                            if s.dirty {
                                let _ = self.dev.write_block(s.block_id, s.data.as_slice());
                            }
                            assert(self@.slots =~= pre.evict(v as int).slots);
                            assert(self@ == pre.evict(v as int));
                        },
                    }
                }
                let ghost base = self@;
                let data = match mode {
                    CacheMode::Read => match self.dev.read_block(block_id) {
                        Ok(d) => d,
                        Err(e) => {
                            return Err(e);
                        },
                    },
                    CacheMode::Overwrite => zero_bytes(BLOCK_SZ),
                };
                self.slots.push(
                    CacheSlot { block_id, data, dirty: mode == CacheMode::Overwrite, pinned: true },
                );
                assert(self@.slots =~= pre.after_get(block_id, mode).slots);
                Ok(SlotHandle { block_id })
            },
        }
    }

    /// Drops the pin that `handle` stands for. The slot stays in the cache.
    pub fn release(&mut self, handle: SlotHandle)
        requires
            old(self).wf(),
        ensures
            final(self).wf(),
            final(self)@ == old(self)@.after_release(handle.block()),
            final(self)@.disk() == old(self)@.disk(),
            !final(self)@.is_pinned(handle.block()),
            forall|c: usize|
                c != handle.block() ==> final(self)@.is_pinned(c) == old(self)@.is_pinned(c),
    {
        let ghost pre = self@;
        match self.find(handle.block_id) {
            Some(i) => {
                proof {
                    pre.lemma_index_of(i as int);
                    pre.lemma_replace(i as int, SlotView { pinned: false, ..pre.slots[i as int] });
                    assert(pre.disk().update(handle.block_id as int, pre.slots[i as int].data)
                        =~= pre.disk());
                }
                let mut s = self.slots.remove(i);
                s.pinned = false;
                self.slots.insert(i, s);
                assert(self@.slots =~= pre.after_release(handle.block_id).slots);
            },
            None => {},
        }
    }

    /// A copy of `len` bytes at `off` in the buffer that `handle` pins.
    pub fn load(&self, handle: &SlotHandle, off: usize, len: usize) -> (bytes: Vec<u8>)
        requires
            self.wf(),
            self@.is_pinned(handle.block()),
            off + len <= BLOCK_SZ,
        ensures
            bytes@ == self@.disk()[handle.block() as int].subrange(off as int, off + len),
    {
        match self.find(handle.block_id) {
            Some(i) => {
                proof {
                    self@.lemma_index_of(i as int);
                }
                copy_range(self.slots[i].data.as_slice(), off, off + len)
            },
            None => unreached(),
        }
    }

    /// Stores `data` at `off` in the buffer that `handle` pins, and marks the
    /// slot dirty.
    pub fn store(&mut self, handle: &SlotHandle, off: usize, data: &[u8])
        requires
            old(self).wf(),
            old(self)@.is_pinned(handle.block()),
            off + data@.len() <= BLOCK_SZ,
        ensures
            final(self).wf(),
            final(self)@ == old(self)@.after_store(handle.block(), off as int, data@),
            final(self)@.disk() == old(self)@.disk().update(
                handle.block() as int,
                splice(old(self)@.disk()[handle.block() as int], off as int, data@),
            ),
            forall|c: usize| final(self)@.is_pinned(c) == old(self)@.is_pinned(c),
    {
        let ghost pre = self@;
        match self.find(handle.block_id) {
            Some(i) => {
                proof {
                    pre.lemma_index_of(i as int);
                    pre.lemma_replace(
                        i as int,
                        SlotView {
                            data: splice(pre.slots[i as int].data, off as int, data@),
                            dirty: true,
                            ..pre.slots[i as int]
                        },
                    );
                }
                let mut s = self.slots.remove(i);
                splice_into(&mut s.data, off, data);
                s.dirty = true;
                self.slots.insert(i, s);
                assert(self@.slots =~= pre.after_store(
                    handle.block_id,
                    off as int,
                    data@,
                ).slots);
            },
            None => {},
        }
    }

    fn least_dirty(&self) -> (r: Option<usize>)
        ensures
            match r {
                Some(i) => {
                    &&& i < self@.slots.len()
                    &&& self@.slots[i as int].dirty
                    &&& forall|j: int|
                        0 <= j < self@.slots.len() && (#[trigger] self@.slots[j]).dirty
                            ==> self@.slots[i as int].block <= self@.slots[j].block
                },
                None => self@.clean(),
            },
    {
        let mut best: Option<usize> = None;
        let mut i: usize = 0;
        while i < self.slots.len()
            invariant
                i <= self.slots@.len(),
                match best {
                    Some(k) => {
                        &&& k < i
                        &&& self@.slots[k as int].dirty
                        &&& forall|j: int|
                            0 <= j < i && (#[trigger] self@.slots[j]).dirty
                                ==> self@.slots[k as int].block <= self@.slots[j].block
                    },
                    None => forall|j: int| 0 <= j < i ==> !(#[trigger] self@.slots[j]).dirty,
                },
            decreases self.slots@.len() - i,
        {
            if self.slots[i].dirty {
                best = match best {
                    Some(k) => if self.slots[i].block_id < self.slots[k].block_id {
                        Some(i)
                    } else {
                        Some(k)
                    },
                    None => Some(i),
                };
            }
            i = i + 1;
        }
        best
    }

    /// Whether no slot is dirty.
    pub fn is_clean(&self) -> (r: bool)
        ensures
            r == self@.clean(),
    {
        match self.least_dirty() {
            Some(i) => false,
            None => true,
        }
    }

    /// Writes every dirty buffer to the device, in ascending order of block
    /// index, and marks every slot clean.
    ///
    /// Afterwards the device holds what the cache shows, for cached blocks too.
    pub fn sync_all(&mut self)
        requires
            old(self).wf(),
        ensures
            final(self).wf(),
            final(self)@.clean(),
            final(self)@.device == old(self)@.disk(),
            final(self)@.disk() == old(self)@.disk(),
            final(self)@.capacity == old(self)@.capacity,
            final(self)@.slots.len() == old(self)@.slots.len(),
            forall|i: int|
                0 <= i < final(self)@.slots.len() ==> #[trigger] final(self)@.slots[i] == (SlotView {
                    dirty: false,
                    ..old(self)@.slots[i]
                }),
            forall|i: int|
                0 <= i < final(self)@.slots.len() ==> (#[trigger] final(self)@.slots[i]).data
                    == final(self)@.device[final(self)@.slots[i].block as int],
            old(self)@.log.len() <= final(self)@.log.len(),
            final(self)@.log.subrange(0, old(self)@.log.len() as int) == old(self)@.log,
            old(self)@.lists_dirty_ascending(
                final(self)@.log.subrange(
                    old(self)@.log.len() as int,
                    final(self)@.log.len() as int,
                ),
            ),
    {
        let ghost pre = self@;
        let ghost flushed: Seq<usize> = Seq::empty();
        let mut floor: usize = 0;
        let n: usize = self.dev.num_blocks();
        assert(pre.log + flushed =~= pre.log);
        loop
            invariant
                self.wf(),
                self@.disk() == pre.disk(),
                self@.capacity == pre.capacity,
                self@.device.len() == pre.device.len(),
                n == pre.device.len(),
                floor <= n,
                self@.slots.len() == pre.slots.len(),
                self@.log == pre.log + flushed,
                forall|i: int|
                    0 <= i < pre.slots.len() ==> #[trigger] self@.slots[i] == (SlotView {
                        dirty: pre.slots[i].dirty && pre.slots[i].block >= floor,
                        ..pre.slots[i]
                    }),
                forall|i: int, j: int| 0 <= i < j < flushed.len() ==> flushed[i] < flushed[j],
                forall|i: int| 0 <= i < flushed.len() ==> flushed[i] < floor,
                forall|b: usize| flushed.contains(b) <==> (pre.dirty_at(b) && b < floor),
            ensures
                self@.clean(),
            decreases n - floor,
        {
            match self.least_dirty() {
                None => {
                    break ;
                },
                Some(i) => {
                    let ghost cur = self@;
                    proof {
                        cur.lemma_flush(i as int);
                        assert(cur.slots[i as int].block < n);
                    }
                    let mut s = self.slots.remove(i);
                    let _ = self.dev.write_block(s.block_id, s.data.as_slice());
                    s.dirty = false;
                    let block: usize = s.block_id;
                    self.slots.insert(i, s);
                    assert(self@.slots =~= cur.flush(i as int).slots);
                    assert(self@ == cur.flush(i as int));
                    proof {
                        let old_floor = floor;
                        let old_flushed = flushed;
                        flushed = flushed.push(block);
                        assert(pre.log + flushed =~= (pre.log + old_flushed).push(block));
                        assert forall|j: int| 0 <= j < pre.slots.len() implies #[trigger] self@.slots[j]
                            == (SlotView {
                            dirty: pre.slots[j].dirty && pre.slots[j].block >= block + 1,
                            ..pre.slots[j]
                        }) by {
                            if j != i as int {
                                assert(self@.slots[j] == cur.slots[j]);
                                if cur.slots[j].dirty {
                                    assert(cur.slots[i as int].block <= cur.slots[j].block);
                                    if i < j {
                                        assert(cur.slots[i as int].block != cur.slots[j].block);
                                    } else {
                                        assert(cur.slots[j].block != cur.slots[i as int].block);
                                    }
                                }
                            }
                        }
                        assert forall|b: usize| flushed.contains(b) <==> (pre.dirty_at(b) && b
                            < block + 1) by {
                            if flushed.contains(b) {
                                let k = choose|k: int| 0 <= k < flushed.len() && flushed[k] == b;
                                if k < old_flushed.len() {
                                    assert(old_flushed[k] == b);
                                    assert(old_flushed.contains(b));
                                } else {
                                    assert(b == block);
                                    assert(pre.slots[i as int].block == b && pre.slots[i as int].dirty);
                                }
                            }
                            if pre.dirty_at(b) && b < block + 1 {
                                if b < old_floor {
                                    assert(old_flushed.contains(b));
                                    let k = choose|k: int|
                                        0 <= k < old_flushed.len() && old_flushed[k] == b;
                                    assert(flushed[k] == b);
                                } else {
                                    let j = choose|j: int|
                                        0 <= j < pre.slots.len() && (#[trigger] pre.slots[j]).block
                                            == b && pre.slots[j].dirty;
                                    assert(cur.slots[j].dirty);
                                    assert(cur.slots[i as int].block <= cur.slots[j].block);
                                    assert(b == block);
                                    assert(flushed[old_flushed.len() as int] == b);
                                }
                            }
                        }
                    }
                    floor = block + 1;
                },
            }
        }
        proof {
            self@.lemma_clean_device();
            let tail = self@.log.subrange(pre.log.len() as int, self@.log.len() as int);
            assert(tail =~= flushed);
            assert(self@.log.subrange(0, pre.log.len() as int) =~= pre.log);
            assert forall|b: usize| flushed.contains(b) <==> pre.dirty_at(b) by {
                if pre.dirty_at(b) && b >= floor {
                    let j = choose|j: int|
                        0 <= j < pre.slots.len() && (#[trigger] pre.slots[j]).block == b
                            && pre.slots[j].dirty;
                    assert(self@.slots[j].dirty);
                }
            }
            assert forall|i: int| 0 <= i < self@.slots.len() implies #[trigger] self@.slots[i] == (
            SlotView { dirty: false, ..pre.slots[i] }) by {
                assert(!self@.slots[i].dirty);
            }
        }
    }

    /// Reads `len` bytes at `off` in block `block_id`, through the cache. The
    /// block is left unpinned.
    pub fn read_bytes(&mut self, block_id: usize, off: usize, len: usize) -> (r: Result<
        Vec<u8>,
        FsError,
    >)
        requires
            old(self).wf(),
            off + len <= BLOCK_SZ,
        ensures
            final(self).wf(),
            final(self)@ == old(self)@.after_get(block_id, CacheMode::Read).after_release(block_id),
            final(self)@.disk() == old(self)@.disk(),
            final(self)@.capacity == old(self)@.capacity,
            match r {
                Ok(bytes) => old(self)@.get_result(block_id) is Ok && bytes@ == old(
                    self,
                )@.disk()[block_id as int].subrange(off as int, off + len),
                Err(e) => old(self)@.get_result(block_id) == Err::<(), FsError>(e),
            },
            old(self).ready() ==> final(self).ready() && (r is Ok <==> block_id < old(
                self,
            )@.device.len()),
    {
        let ghost pre = self@;
        proof {
            pre.lemma_after_get(block_id, CacheMode::Read);
            if old(self).ready() && block_id < pre.device.len() {
                pre.lemma_idle_serves(block_id);
            }
        }
        match self.get(block_id, CacheMode::Read) {
            Ok(h) => {
                let bytes = self.load(&h, off, len);
                let ghost mid = self@;
                self.release(h);
                proof {
                    if pre.idle() {
                        Self::lemma_idle_again(pre, mid, self@, block_id);
                    }
                }
                Ok(bytes)
            },
            Err(e) => {
                proof {
                    Self::lemma_release_absent(pre, block_id);
                }
                Err(e)
            },
        }
    }

    /// Writes `data` at `off` in block `block_id`, through the cache. The block
    /// is left unpinned. A write of a whole block does not read the device.
    pub fn write_bytes(&mut self, block_id: usize, off: usize, data: &[u8]) -> (r: Result<
        (),
        FsError,
    >)
        requires
            old(self).wf(),
            off + data@.len() <= BLOCK_SZ,
        ensures
            final(self).wf(),
            final(self)@.capacity == old(self)@.capacity,
            final(self)@.device.len() == old(self)@.device.len(),
            match r {
                Ok(_) => old(self)@.get_result(block_id) is Ok && final(self)@.disk() == old(
                    self,
                )@.disk().update(
                    block_id as int,
                    splice(old(self)@.disk()[block_id as int], off as int, data@),
                ),
                Err(e) => old(self)@.get_result(block_id) == Err::<(), FsError>(e) && final(self)@
                    == old(self)@,
            },
            r is Ok ==> final(self)@ == old(self)@.after_get(
                block_id,
                if off == 0 && data@.len() == BLOCK_SZ {
                    CacheMode::Overwrite
                } else {
                    CacheMode::Read
                },
            ).after_store(block_id, off as int, data@).after_release(block_id),
            old(self).ready() ==> final(self).ready() && (r is Ok <==> block_id < old(
                self,
            )@.device.len()),
    {
        let ghost pre = self@;
        let mode = if off == 0 && data.len() == BLOCK_SZ {
            CacheMode::Overwrite
        } else {
            CacheMode::Read
        };
        proof {
            pre.lemma_after_get(block_id, mode);
            if old(self).ready() && block_id < pre.device.len() {
                pre.lemma_idle_serves(block_id);
            }
        }
        match self.get(block_id, mode) {
            Ok(h) => {
                let ghost got = self@;
                self.store(&h, off, data);
                let ghost mid = self@;
                self.release(h);
                proof {
                    if pre.idle() {
                        Self::lemma_idle_again(pre, mid, self@, block_id);
                    }
                    assert(self@.disk() =~= pre.disk().update(
                        block_id as int,
                        splice(pre.disk()[block_id as int], off as int, data@),
                    )) by {
                        assert(splice(got.disk()[block_id as int], off as int, data@) =~= splice(
                            pre.disk()[block_id as int],
                            off as int,
                            data@,
                        ));
                    }
                }
                Ok(())
            },
            Err(e) => Err(e),
        }
    }

    /// Makes block `block_id` all zero, through the cache and without reading
    /// the device. The block is left unpinned.
    pub fn zero_block(&mut self, block_id: usize) -> (r: Result<(), FsError>)
        requires
            old(self).wf(),
        ensures
            final(self).wf(),
            final(self)@.capacity == old(self)@.capacity,
            final(self)@.device.len() == old(self)@.device.len(),
            final(self)@ == old(self)@.after_get(block_id, CacheMode::Overwrite).after_release(
                block_id,
            ),
            match r {
                Ok(_) => old(self)@.get_result(block_id) is Ok && final(self)@.disk() == old(
                    self,
                )@.disk().update(block_id as int, zeros(BLOCK_SZ as nat)),
                Err(e) => old(self)@.get_result(block_id) == Err::<(), FsError>(e) && final(self)@
                    == old(self)@,
            },
            old(self).ready() ==> final(self).ready() && (r is Ok <==> block_id < old(
                self,
            )@.device.len()),
    {
        let ghost pre = self@;
        proof {
            pre.lemma_after_get(block_id, CacheMode::Overwrite);
            if old(self).ready() && block_id < pre.device.len() {
                pre.lemma_idle_serves(block_id);
            }
        }
        match self.get(block_id, CacheMode::Overwrite) {
            Ok(h) => {
                let ghost mid = self@;
                self.release(h);
                proof {
                    if pre.idle() {
                        Self::lemma_idle_again(pre, mid, self@, block_id);
                    }
                }
                Ok(())
            },
            Err(e) => {
                proof {
                    Self::lemma_release_absent(pre, block_id);
                }
                Err(e)
            },
        }
    }

    proof fn lemma_idle_again(pre: CacheView, mid: CacheView, post: CacheView, b: usize)
        requires
            pre.idle(),
            mid.wf(),
            forall|c: usize| c != b ==> mid.is_pinned(c) == pre.is_pinned(c),
            !post.is_pinned(b),
            forall|c: usize| c != b ==> post.is_pinned(c) == mid.is_pinned(c),
            post.wf(),
        ensures
            post.idle(),
    {
        assert forall|i: int| 0 <= i < post.slots.len() implies !(#[trigger] post.slots[i]).pinned by {
            post.lemma_index_of(i);
            let c = post.slots[i].block;
            if c != b {
                assert(!pre.is_pinned(c)) by {
                    if pre.resident(c) {
                        assert(!pre.slots[pre.index_of(c)].pinned);
                    }
                }
            }
        }
    }

    proof fn lemma_release_absent(pre: CacheView, b: usize)
        requires
            pre.wf(),
            pre.get_result(b) is Err,
        ensures
            pre.get_result(b) == Err::<(), FsError>(FsError::CacheExhausted)
                ==> pre.after_release(b) == pre,
            pre.get_result(b) == Err::<(), FsError>(FsError::DeviceIoError) ==> pre.after_release(b)
                == pre,
    {
        if pre.resident(b) {
            let i = pre.index_of(b);
            assert(pre.slots[i].block < pre.device.len());
        }
    }
}

} // verus!
