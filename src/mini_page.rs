use vstd::prelude::*;
use crate::buffer_pool::{ring_written, CircularBuffer, Grant, Handle};
use crate::error::QuarkError;
use crate::layout::{KV_META_SIZE, MIN_PAGE_SIZE, NODE_META_SIZE, PAGE_SIZE};
use crate::slotted_page::{
    live_of, live_size, new_record, record_of, stored_at, EntryKind, RecordView, SlottedPage,
};

verus! {

/// Where a mini-page stands in its growth.
#[derive(Debug, Clone, Copy, PartialEq, Eq, Structural)]
pub enum MiniPageState {
    /// 64 bytes, as created.
    Minimal,
    /// Grown, but below the disk page size.
    Growing,
    /// At the disk page size.
    Full,
    /// Full, and a record did not fit: the caller must flush it to the page store.
    MustMerge,
}

/// The capacities a mini-page may have: powers of two from 64 to 4096.
pub open spec fn valid_capacity(c: nat) -> bool {
    c == 64 || c == 128 || c == 256 || c == 512 || c == 1024 || c == 2048 || c == 4096
}

pub open spec fn state_of(capacity: nat, must_merge: bool) -> MiniPageState {
    if must_merge {
        MiniPageState::MustMerge
    } else if capacity == MIN_PAGE_SIZE {
        MiniPageState::Minimal
    } else if capacity < PAGE_SIZE {
        MiniPageState::Growing
    } else {
        MiniPageState::Full
    }
}

/// Bytes a page rebuilt from the live records of `recs` needs once `key` and
/// `value` are stored in it.
pub open spec fn needed_after_rebuild(recs: Seq<RecordView>, key: Seq<u8>, value: Seq<u8>) -> nat {
    (NODE_META_SIZE + live_size(recs) + KV_META_SIZE + key.len() + value.len()) as nat
}

/// What storing `key` and `value` into mini-page `before` yields: `after` and
/// the result `r`. A record that fits is stored in place. One that does not
/// makes the page double below the disk page size: the live records move over
/// in order, tombstones stay behind, and the store is tried once more there,
/// giving `OversizedRecord` if it still fails. At the disk page size the
/// answer is `MustMerge`, as it is from then on.
pub open spec fn insert_outcome(
    before: MiniPage,
    after: MiniPage,
    key: Seq<u8>,
    value: Seq<u8>,
    r: Result<(), QuarkError>,
) -> bool {
    let rec = new_record(key, value, EntryKind::Normal, false);
    &&& after.page.capacity() == before.page.capacity() || after.page.capacity() == 2 * before.page.capacity()
    &&& before.must_merge ==> r == Err::<(), QuarkError>(QuarkError::MustMerge) && after == before
    &&& !before.must_merge && before.fits(key, value) ==> r == Ok::<(), QuarkError>(())
        && after.page.capacity() == before.page.capacity() && !after.must_merge
        && (exists|i: int| stored_at(before.page.records(), after.page.records(), rec, i))
        && after.page.used() == before.page.needed_for(key, value)
    &&& !before.must_merge && !before.fits(key, value) && before.page.capacity() == PAGE_SIZE ==> r
        == Err::<(), QuarkError>(QuarkError::MustMerge) && after.page == before.page && after.must_merge
    &&& before.grows_for(key, value) ==> after.page.capacity() == 2 * before.page.capacity() && !after.must_merge
        && if before.fits_after_growth(key, value) {
            &&& r == Ok::<(), QuarkError>(())
            &&& exists|i: int| stored_at(live_of(before.page.records()), after.page.records(), rec, i)
            &&& after.page.used() == needed_after_rebuild(before.page.records(), key, value)
        } else {
            &&& r == Err::<(), QuarkError>(QuarkError::OversizedRecord)
            &&& after.page.records() == live_of(before.page.records())
            &&& after.page.used() == NODE_META_SIZE + live_size(before.page.records())
        }
    &&& !before.must_merge && !before.fits(key, value) && before.page.capacity() < PAGE_SIZE
        && !before.can_rebuild() ==> r == Err::<(), QuarkError>(QuarkError::OversizedRecord) && after == before
}

/// Doubling a mini-page capacity below the disk page size gives the next
/// capacity of the ladder 64, 128, ..., 4096; the disk page size is never passed.
pub proof fn growth_ladder(c: nat)
    requires
        valid_capacity(c),
    ensures
        MIN_PAGE_SIZE <= c <= PAGE_SIZE,
        c < PAGE_SIZE ==> valid_capacity(2 * c),
        c == PAGE_SIZE ==> !valid_capacity(2 * c),
{
}

/// A small slotted page that doubles its capacity when full, up to the disk
/// page size.
pub struct MiniPage {
    pub page: SlottedPage,
    /// Set once a record did not fit at the disk page size.
    pub must_merge: bool,
}

impl MiniPage {
    pub open spec fn wf(&self) -> bool {
        &&& self.page.wf()
        &&& valid_capacity(self.page.capacity())
        &&& self.must_merge ==> self.page.capacity() == PAGE_SIZE
    }

    /// The live records fit a page of twice the size.
    pub open spec fn can_rebuild(&self) -> bool {
        NODE_META_SIZE + live_size(self.page.records()) <= 2 * self.page.capacity()
    }

    /// The record fits on the current page.
    pub open spec fn fits(&self, key: Seq<u8>, value: Seq<u8>) -> bool {
        self.page.needed_for(key, value) <= self.page.capacity()
    }

    /// The record fits on a page of twice the size holding the live records.
    pub open spec fn fits_after_growth(&self, key: Seq<u8>, value: Seq<u8>) -> bool {
        needed_after_rebuild(self.page.records(), key, value) <= 2 * self.page.capacity()
    }

    /// Storing the record makes the page grow.
    pub open spec fn grows_for(&self, key: Seq<u8>, value: Seq<u8>) -> bool {
        &&& !self.must_merge
        &&& !self.fits(key, value)
        &&& self.page.capacity() < PAGE_SIZE
        &&& self.can_rebuild()
    }

    pub open spec fn spec_state(&self) -> MiniPageState {
        state_of(self.page.capacity(), self.must_merge)
    }

    /// An empty 64-byte mini-page.
    pub fn new_minimal() -> (r: MiniPage)
        ensures
            r.wf(),
            r.page.capacity() == MIN_PAGE_SIZE,
            r.page.records() == Seq::<RecordView>::empty(),
            r.page.heap_used() == 0,
            !r.must_merge,
            r.spec_state() == MiniPageState::Minimal,
    {
        MiniPage { page: SlottedPage::new(MIN_PAGE_SIZE, true), must_merge: false }
    }

    /// The current state.
    pub fn state(&self) -> (r: MiniPageState)
        requires
            self.wf(),
        ensures
            r == self.spec_state(),
    {
        let cap = self.page.capacity_bytes();
        if self.must_merge {
            MiniPageState::MustMerge
        } else if cap == MIN_PAGE_SIZE {
            MiniPageState::Minimal
        } else if cap < PAGE_SIZE {
            MiniPageState::Growing
        } else {
            MiniPageState::Full
        }
    }

    /// Stores a normal record. When the page is full it doubles: the live
    /// records move, in order, to a page twice the size and the insert is tried
    /// once more there (`OversizedRecord` if it still fails). At the disk page
    /// size it does not grow but answers `MustMerge`, as it does from then on.
    pub fn insert_record(&mut self, key: &[u8], value: &[u8]) -> (r: Result<(), QuarkError>)
        requires
            old(self).wf(),
        ensures
            final(self).wf(),
            insert_outcome(*old(self), *final(self), key@, value@, r),
    {
        if self.must_merge {
            return Err(QuarkError::MustMerge);
        }
        let cap = self.page.capacity_bytes();
        match self.page.insert(key, value, EntryKind::Normal, false) {
            Ok(idx) => {
                assert(stored_at(old(self).page.records(), self.page.records(), new_record(key@, value@, EntryKind::Normal, false), idx as int));
                return Ok(());
            },
            Err(_) => {},
        }
        if cap >= PAGE_SIZE {
            self.must_merge = true;
            return Err(QuarkError::MustMerge);
        }
        let new_cap = cap * 2;
        let live = self.page.live_bytes();
        if live > new_cap - NODE_META_SIZE {
            return Err(QuarkError::OversizedRecord);
        }
        let ghost live_recs = live_of(old(self).page.records());
        let mut grown = self.page.compacted(new_cap, true);
        let res = grown.insert(key, value, EntryKind::Normal, false);
        self.page = grown;
        match res {
            Ok(idx) => {
                assert(stored_at(live_recs, self.page.records(), new_record(key@, value@, EntryKind::Normal, false), idx as int));
                Ok(())
            },
            Err(_) => Err(QuarkError::OversizedRecord),
        }
    }

    /// Whether storing `key` and `value` would make the page grow.
    pub fn would_grow(&self, key: &[u8], value: &[u8]) -> (r: bool)
        requires
            self.wf(),
        ensures
            r == self.grows_for(key@, value@),
    {
        if self.must_merge || self.page.fits(key, value) {
            return false;
        }
        let cap = self.page.capacity_bytes();
        if cap >= PAGE_SIZE {
            return false;
        }
        let new_cap = cap * 2;
        self.page.live_bytes() <= new_cap - NODE_META_SIZE
    }

    /// Stores a record as `insert_record` does, with page memory accounted in
    /// the arena: when the page must double, an allocation of the new capacity
    /// is taken from `pool` first, and the grown page's image is written into
    /// it; the old page's allocation is left to eviction in arrival order. When
    /// the arena refuses the allocation the request fails with `OutOfSpace`
    /// and nothing changes. Returns the result and, when the page grew, the grant.
    pub fn insert_record_pooled(&mut self, pool: &mut CircularBuffer, key: &[u8], value: &[u8]) -> (r: (
        Result<(), QuarkError>,
        Option<Grant>,
    ))
        requires
            old(self).wf(),
            old(pool).wf(),
        ensures
            final(self).wf(),
            final(pool).wf(),
            !old(self).grows_for(key@, value@) ==> *final(pool) == *old(pool) && r.1 is None
                && insert_outcome(*old(self), *final(self), key@, value@, r.0),
            old(self).grows_for(key@, value@) && old(pool).refuses(2 * old(self).page.capacity()) ==> r.0
                == Err::<(), QuarkError>(QuarkError::OutOfSpace) && r.1 is None && *final(self) == *old(self)
                && *final(pool) == *old(pool),
            old(self).grows_for(key@, value@) && !old(pool).refuses(2 * old(self).page.capacity()) ==> (
            insert_outcome(*old(self), *final(self), key@, value@, r.0) && (r.1 matches Some(g)
                && g.handle == (Handle { offset: old(pool).tail() as usize, size: (2 * old(self).page.capacity()) as usize })
                && final(pool).tail() == old(pool).tail() + 2 * old(self).page.capacity()
                && final(pool).live().last().offset == old(pool).tail()
                && exists|img: Seq<u8>|
                img.len() == final(self).page.capacity() && final(pool).bytes() == ring_written(
                    old(pool).bytes(),
                    (g.handle.offset as int) % (old(pool).region_size() as int),
                    img,
                ) && forall|i: int|
                    0 <= i < final(self).page.metas().len() ==> #[trigger] final(self).page.records()[i] == record_of(
                        img,
                        final(self).page.metas()[i],
                    ))),
    {
        if !self.would_grow(key, value) {
            return (self.insert_record(key, value), None);
        }
        let new_cap = self.page.capacity_bytes() * 2;
        let g = match pool.allocate(new_cap) {
            Ok(g) => g,
            Err(e) => {
                return (Err(e), None);
            },
        };
        let ghost after_alloc = *pool;
        let res = self.insert_record(key, value);
        let image = self.page.to_bytes();
        let wrote = pool.write(g.handle, image.as_slice());
        assert(wrote);
        assert(pool.bytes() == ring_written(after_alloc.bytes(), (g.handle.offset as int) % (after_alloc.region_size() as int), image@));
        (res, Some(g))
    }
}

} // verus!
