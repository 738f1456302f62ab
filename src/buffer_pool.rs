use vstd::prelude::*;
use crate::error::QuarkError;

verus! {

/// A region handed out by the arena: its logical offset (the ring position is
/// the offset modulo the region size) and its length.
#[derive(Debug, Clone, Copy, PartialEq, Eq, Structural)]
pub struct Handle {
    pub offset: usize,
    pub size: usize,
}

/// A live allocation with its pin count.
#[derive(Debug, Clone, Copy, PartialEq, Eq, Structural)]
pub struct Allocation {
    pub offset: usize,
    pub size: usize,
    pub pins: u32,
}

/// What `allocate` grants: the new region, and the allocations evicted to make
/// room for it, oldest first, whose owners must persist or drop their bytes.
pub struct Grant {
    pub handle: Handle,
    pub evicted: Vec<Handle>,
}

pub open spec fn handle_of(a: Allocation) -> Handle {
    Handle { offset: a.offset, size: a.size }
}

/// The live allocations follow each other from `head` to `tail`.
pub open spec fn contiguous(live: Seq<Allocation>, head: int, tail: int) -> bool {
    &&& live.len() == 0 ==> head == tail
    &&& live.len() > 0 ==> live[0].offset == head && live.last().offset + live.last().size == tail
    &&& forall|i: int| 0 <= i < live.len() - 1 ==> (#[trigger] live[i + 1]).offset == live[i].offset + live[i].size
}

/// Bytes still live once the `k` oldest allocations are evicted.
pub open spec fn live_after(live: Seq<Allocation>, tail: int, k: int) -> int {
    if k < live.len() {
        tail - live[k].offset
    } else {
        0
    }
}

/// Some pinned allocation would have to be evicted to fit `size` more bytes.
pub open spec fn blocked_by_pin(live: Seq<Allocation>, tail: int, region: int, size: int) -> bool {
    exists|j: int| 0 <= j < live.len() && (#[trigger] live[j]).pins > 0 && live_after(live, tail, j) + size > region
}

/// `i` is the oldest live allocation with handle `h`.
pub open spec fn first_match(live: Seq<Allocation>, h: Handle, i: int) -> bool {
    &&& 0 <= i < live.len()
    &&& handle_of(live[i]) == h
    &&& forall|j: int| 0 <= j < i ==> handle_of(#[trigger] live[j]) != h
}

pub open spec fn with_pins(a: Allocation, pins: u32) -> Allocation {
    Allocation { offset: a.offset, size: a.size, pins }
}

/// Ring position `i` bytes after ring position `s`, in a ring of `region` bytes.
pub open spec fn ring_pos(s: int, i: int, region: int) -> int {
    if s + i < region {
        s + i
    } else {
        s + i - region
    }
}

/// How far ring position `k` lies after ring position `s`.
pub open spec fn ring_dist(k: int, s: int, region: int) -> int {
    if k >= s {
        k - s
    } else {
        k + region - s
    }
}

/// The ring `mem` with `src` written from ring position `s` on, wrapping at the end.
pub open spec fn ring_written(mem: Seq<u8>, s: int, src: Seq<u8>) -> Seq<u8> {
    Seq::new(
        mem.len(),
        |k: int|
            if ring_dist(k, s, mem.len() as int) < src.len() {
                src[ring_dist(k, s, mem.len() as int)]
            } else {
                mem[k]
            },
    )
}

proof fn lemma_offset_mono(live: Seq<Allocation>, head: int, tail: int, i: int, j: int)
    requires
        contiguous(live, head, tail),
        0 <= i <= j < live.len(),
    ensures
        live[i].offset <= live[j].offset,
    decreases j - i,
{
    if i < j {
        lemma_offset_mono(live, head, tail, i, j - 1);
        assert(live[(j - 1) + 1].offset == live[j - 1].offset + live[j - 1].size);
    }
}

proof fn lemma_end_le_tail(live: Seq<Allocation>, head: int, tail: int, i: int)
    requires
        contiguous(live, head, tail),
        0 <= i < live.len(),
    ensures
        live[i].offset + live[i].size <= tail,
    decreases live.len() - i,
{
    if i < live.len() - 1 {
        lemma_end_le_tail(live, head, tail, i + 1);
        assert(live[i + 1].offset == live[i].offset + live[i].size);
    } else {
        assert(live.last() == live[i]);
    }
}

proof fn lemma_contiguous_offsets(live: Seq<Allocation>, head: int, tail: int, i: int, j: int)
    requires
        contiguous(live, head, tail),
        0 <= i <= j < live.len(),
    ensures
        head <= live[i].offset <= live[j].offset,
        live[j].offset + live[j].size <= tail,
{
    lemma_offset_mono(live, head, tail, 0, i);
    lemma_offset_mono(live, head, tail, i, j);
    lemma_end_le_tail(live, head, tail, j);
}

/// A fixed-size arena from which regions are carved at `tail` and reclaimed
/// strictly in arrival order by advancing `head`.
pub struct CircularBuffer {
    memory: Vec<u8>,
    head: usize,
    tail: usize,
    live: Vec<Allocation>,
}

impl CircularBuffer {
    pub closed spec fn region_size(&self) -> nat {
        self.memory@.len()
    }

    pub closed spec fn head(&self) -> nat {
        self.head as nat
    }

    pub closed spec fn tail(&self) -> nat {
        self.tail as nat
    }

    /// Live allocations, oldest first.
    pub closed spec fn live(&self) -> Seq<Allocation> {
        self.live@
    }

    pub closed spec fn wf(&self) -> bool {
        &&& self.head <= self.tail
        &&& self.tail - self.head <= self.memory@.len()
        &&& contiguous(self.live@, self.head as int, self.tail as int)
    }

    /// In every state the head stays at or behind the tail, the live region
    /// `[head, tail)` fits the arena, and the live allocations tile it in order.
    pub proof fn head_never_passes_tail(&self)
        requires
            self.wf(),
        ensures
            self.head() <= self.tail(),
            self.tail() - self.head() <= self.region_size(),
            contiguous(self.live(), self.head() as int, self.tail() as int),
    {
    }

    /// An empty arena of `size` bytes.
    pub fn new(size: usize) -> (r: CircularBuffer)
        ensures
            r.wf(),
            r.region_size() == size,
            r.head() == 0,
            r.tail() == 0,
            r.live() == Seq::<Allocation>::empty(),
    {
        CircularBuffer { memory: vec![0u8; size], head: 0, tail: 0, live: Vec::new() }
    }

    pub fn head_offset(&self) -> (r: usize)
        ensures
            r == self.head(),
    {
        self.head
    }

    pub fn tail_offset(&self) -> (r: usize)
        ensures
            r == self.tail(),
    {
        self.tail
    }

    pub fn capacity(&self) -> (r: usize)
        ensures
            r == self.region_size(),
    {
        self.memory.len()
    }

    /// Number of live allocations.
    pub fn live_count(&self) -> (r: usize)
        ensures
            r == self.live().len(),
    {
        self.live.len()
    }

    fn find(&self, h: Handle) -> (r: Option<usize>)
        ensures
            r matches Some(i) ==> first_match(self.live@, h, i as int),
            r is None ==> forall|i: int| 0 <= i < self.live@.len() ==> handle_of(#[trigger] self.live@[i]) != h,
    {
        let mut i: usize = 0;
        while i < self.live.len()
            invariant
                i <= self.live@.len(),
                forall|j: int| 0 <= j < i ==> handle_of(#[trigger] self.live@[j]) != h,
            decreases self.live@.len() - i,
        {
            let a = self.live[i];
            if a.offset == h.offset && a.size == h.size {
                return Some(i);
            }
            i = i + 1;
        }
        None
    }

    /// Adds a pin to the live allocation `h`, keeping it from eviction. Returns
    /// false, changing nothing, when `h` is not live or its count is at its maximum.
    pub fn pin(&mut self, h: Handle) -> (r: bool)
        requires
            old(self).wf(),
        ensures
            final(self).wf(),
            final(self).region_size() == old(self).region_size(),
            final(self).head() == old(self).head(),
            final(self).tail() == old(self).tail(),
            r ==> exists|i: int| first_match(old(self).live(), h, i) && old(self).live()[i].pins < u32::MAX
                && final(self).live() == old(self).live().update(i, with_pins(old(self).live()[i], (old(self).live()[i].pins + 1) as u32)),
            !r ==> *final(self) == *old(self)
                && forall|i: int| first_match(old(self).live(), h, i) ==> old(self).live()[i].pins == u32::MAX,
    {
        match self.find(h) {
            Some(i) => {
                let a = self.live[i];
                if a.pins == u32::MAX {
                    return false;
                }
                self.live.set(i, Allocation { offset: a.offset, size: a.size, pins: a.pins + 1 });
                proof {
                    let nl = self.live@;
                    assert forall|x: int| 0 <= x < nl.len() - 1 implies (#[trigger] nl[x + 1]).offset == nl[x].offset + nl[x].size by {
                        assert(old(self).live@[x + 1].offset == old(self).live@[x].offset + old(self).live@[x].size);
                    }
                    if nl.len() > 0 {
                        assert(nl.last().offset == old(self).live@.last().offset);
                    }
                    assert(nl =~= old(self).live@.update(i as int, with_pins(a, (a.pins + 1) as u32)));
                    assert(first_match(old(self).live(), h, i as int));
                }
                true
            },
            None => false,
        }
    }

    /// Takes a pin off the live allocation `h`. Returns false, changing
    /// nothing, when `h` is not live or not pinned.
    pub fn unpin(&mut self, h: Handle) -> (r: bool)
        requires
            old(self).wf(),
        ensures
            final(self).wf(),
            final(self).region_size() == old(self).region_size(),
            final(self).head() == old(self).head(),
            final(self).tail() == old(self).tail(),
            r ==> exists|i: int| first_match(old(self).live(), h, i) && old(self).live()[i].pins > 0
                && final(self).live() == old(self).live().update(i, with_pins(old(self).live()[i], (old(self).live()[i].pins - 1) as u32)),
            !r ==> *final(self) == *old(self)
                && forall|i: int| first_match(old(self).live(), h, i) ==> old(self).live()[i].pins == 0,
    {
        match self.find(h) {
            Some(i) => {
                let a = self.live[i];
                if a.pins == 0 {
                    return false;
                }
                self.live.set(i, Allocation { offset: a.offset, size: a.size, pins: a.pins - 1 });
                proof {
                    let nl = self.live@;
                    assert forall|x: int| 0 <= x < nl.len() - 1 implies (#[trigger] nl[x + 1]).offset == nl[x].offset + nl[x].size by {
                        assert(old(self).live@[x + 1].offset == old(self).live@[x].offset + old(self).live@[x].size);
                    }
                    if nl.len() > 0 {
                        assert(nl.last().offset == old(self).live@.last().offset);
                    }
                    assert(nl =~= old(self).live@.update(i as int, with_pins(a, (a.pins - 1) as u32)));
                    assert(first_match(old(self).live(), h, i as int));
                }
                true
            },
            None => false,
        }
    }

    /// The arena's bytes.
    pub closed spec fn bytes(&self) -> Seq<u8> {
        self.memory@
    }

    /// Copies `src` into the live allocation `h`, from its start, wrapping
    /// around the end of the ring. Returns false, changing nothing, when `h` is
    /// not live or `src` is longer than it.
    pub fn write(&mut self, h: Handle, src: &[u8]) -> (r: bool)
        requires
            old(self).wf(),
        ensures
            final(self).wf(),
            final(self).region_size() == old(self).region_size(),
            final(self).head() == old(self).head(),
            final(self).tail() == old(self).tail(),
            final(self).live() == old(self).live(),
            r == ((exists|i: int| first_match(old(self).live(), h, i)) && src@.len() <= h.size),
            r ==> final(self).bytes() == ring_written(old(self).bytes(), (h.offset as int) % (old(self).region_size() as int), src@),
            !r ==> final(self).bytes() == old(self).bytes(),
    {
        match self.find(h) {
            None => false,
            Some(idx) => {
                assert(first_match(old(self).live(), h, idx as int));
                if src.len() > h.size {
                    return false;
                }
                if src.len() == 0 {
                    assert(ring_written(self.memory@, (h.offset as int) % (self.memory@.len() as int), src@) =~= self.memory@);
                    return true;
                }
                let region = self.memory.len();
                proof {
                    lemma_end_le_tail(self.live@, self.head as int, self.tail as int, idx as int);
                    lemma_offset_mono(self.live@, self.head as int, self.tail as int, 0, idx as int);
                    assert(self.live@[0].offset == self.head);
                }
                let ghost old_mem = self.memory@;
                let s = h.offset % region;
                let mut pos = s;
                let mut i: usize = 0;
                while i < src.len()
                    invariant
                        region == self.memory@.len(),
                        region == old_mem.len(),
                        src@.len() <= region,
                        s < region,
                        i <= src@.len(),
                        pos == ring_pos(s as int, i as int, region as int),
                        i < src@.len() ==> pos < region,
                        self.memory@ == ring_written(old_mem, s as int, src@.take(i as int)),
                        self.head == old(self).head,
                        self.tail == old(self).tail,
                        self.live@ == old(self).live@,
                    decreases src@.len() - i,
                {
                    let ghost before = self.memory@;
                    self.memory.set(pos, src[i]);
                    proof {
                        assert(self.memory@ =~= ring_written(old_mem, s as int, src@.take(i + 1)));
                    }
                    pos = if pos + 1 == region { 0 } else { pos + 1 };
                    i = i + 1;
                }
                assert(src@.take(i as int) =~= src@);
                true
            },
        }
    }

    /// The bytes of the live allocation `h`, read from its start around the
    /// ring; none when `h` is not live.
    pub fn read(&self, h: Handle) -> (r: Option<Vec<u8>>)
        requires
            self.wf(),
        ensures
            r is Some <==> exists|i: int| first_match(self.live(), h, i),
            r matches Some(v) ==> v@ == Seq::new(h.size as nat, |i: int| self.bytes()[ring_pos((h.offset as int) % (self.region_size() as int), i, self.region_size() as int)]),
    {
        match self.find(h) {
            None => None,
            Some(idx) => {
                assert(first_match(self.live(), h, idx as int));
                let region = self.memory.len();
                proof {
                    lemma_end_le_tail(self.live@, self.head as int, self.tail as int, idx as int);
                    lemma_offset_mono(self.live@, self.head as int, self.tail as int, 0, idx as int);
                    assert(self.live@[0].offset == self.head);
                }
                if h.size == 0 {
                    let out: Vec<u8> = Vec::new();
                    assert(out@ =~= Seq::new(h.size as nat, |i: int| self.bytes()[ring_pos((h.offset as int) % (self.region_size() as int), i, self.region_size() as int)]));
                    return Some(out);
                }
                let s = h.offset % region;
                let ghost want = Seq::new(h.size as nat, |i: int| self.memory@[ring_pos(s as int, i, region as int)]);
                let mut out: Vec<u8> = Vec::new();
                let mut pos = s;
                let mut i: usize = 0;
                while i < h.size
                    invariant
                        region == self.memory@.len(),
                        h.size <= region,
                        s < region,
                        i <= h.size,
                        pos == ring_pos(s as int, i as int, region as int),
                        i < h.size ==> pos < region,
                        want == Seq::new(h.size as nat, |i: int| self.memory@[ring_pos(s as int, i, region as int)]),
                        out@ == want.take(i as int),
                    decreases h.size - i,
                {
                    out.push(self.memory[pos]);
                    assert(out@ =~= want.take(i + 1));
                    pos = if pos + 1 == region { 0 } else { pos + 1 };
                    i = i + 1;
                }
                assert(want.take(i as int) =~= want);
                Some(out)
            },
        }
    }

    /// The live allocation that is oldest, if any.
    pub fn oldest(&self) -> (r: Option<Allocation>)
        ensures
            self.live().len() == 0 ==> r is None,
            self.live().len() > 0 ==> r == Some(self.live()[0]),
    {
        if self.live.len() == 0 {
            None
        } else {
            Some(self.live[0])
        }
    }

    /// The arena cannot grant `size` bytes: they exceed the region, the logical
    /// offset would overflow, or making room would evict a pinned allocation.
    pub open spec fn refuses(&self, size: nat) -> bool {
        size > self.region_size() || self.tail() + size > usize::MAX || blocked_by_pin(
            self.live(),
            self.tail() as int,
            self.region_size() as int,
            size as int,
        )
    }

    /// Carves `size` bytes at `tail`. When the ring lacks room, the oldest
    /// allocations are evicted, in arrival order, until it has; an evicted
    /// allocation must not be pinned. Fails with `OutOfSpace`, changing nothing,
    /// when `size` exceeds the region, when the logical offset would overflow,
    /// or when making room would evict a pinned allocation.
    pub fn allocate(&mut self, size: usize) -> (r: Result<Grant, QuarkError>)
        requires
            old(self).wf(),
        ensures
            final(self).wf(),
            final(self).region_size() == old(self).region_size(),
            old(self).refuses(size as nat) <==> r is Err,
            r is Err ==> r == Err::<Grant, QuarkError>(QuarkError::OutOfSpace) && *final(self) == *old(self),
            final(self).bytes() == old(self).bytes(),
            r matches Ok(g) ==> ({
                let k = g.evicted@.len() as int;
                let live = old(self).live();
                &&& g.handle == (Handle { offset: old(self).tail() as usize, size })
                &&& k <= live.len()
                &&& forall|j: int| 0 <= j < k ==> live_after(live, old(self).tail() as int, j) + size > old(self).region_size()
                &&& live_after(live, old(self).tail() as int, k) + size <= old(self).region_size()
                &&& live_after(live, old(self).tail() as int, 0) + size <= old(self).region_size() ==> k == 0
                &&& g.evicted@ == live.take(k).map_values(|a: Allocation| handle_of(a))
                &&& final(self).live() == live.skip(k).push(Allocation { offset: old(self).tail() as usize, size, pins: 0 })
                &&& final(self).tail() == old(self).tail() + size
                &&& final(self).head() == if k < live.len() { live[k].offset as nat } else { old(self).tail() }
                &&& old(self).head() <= final(self).head() <= old(self).tail()
                &&& size > 0 ==> first_match(final(self).live(), g.handle, final(self).live().len() - 1)
            }),
    {
        let ghost live = self.live@;
        let region = self.memory.len();
        if size > region || self.tail > usize::MAX - size {
            proof {
                if size <= region {
                    assert(old(self).tail() + size > usize::MAX);
                }
            }
            return Err(QuarkError::OutOfSpace);
        }
        let mut k: usize = 0;
        let mut remaining: usize = self.tail - self.head;
        while remaining > region - size
            invariant
                self.wf(),
                live == self.live@,
                region == self.memory@.len(),
                size <= region,
                k <= live.len(),
                remaining == live_after(live, self.tail as int, k as int),
                forall|j: int| 0 <= j < k ==> live_after(live, self.tail as int, j) + size > region && (#[trigger] live[j]).pins == 0,
            decreases live.len() - k,
        {
            if k >= self.live.len() {
                assert(false);
                return Err(QuarkError::OutOfSpace);
            }
            let a = self.live[k];
            if a.pins > 0 {
                return Err(QuarkError::OutOfSpace);
            }
            proof {
                lemma_contiguous_offsets(live, self.head as int, self.tail as int, k as int, k as int);
                if k + 1 < live.len() {
                    assert(live[k + 1].offset == live[k as int].offset + live[k as int].size);
                } else {
                    assert(live.last() == live[k as int]);
                }
            }
            remaining = remaining - a.size;
            k = k + 1;
        }
        proof {
            if k == 0 && live.len() > 0 {
                assert(live[0].offset == self.head);
            }
            assert forall|j: int| 0 <= j < live.len() && (#[trigger] live[j]).pins > 0 implies live_after(live, self.tail as int, j) + size <= region by {
                assert(j >= k);
                if j < live.len() {
                    lemma_contiguous_offsets(live, self.head as int, self.tail as int, k as int, j);
                }
            }
        }
        assert(live_after(live, self.tail as int, 0) + size <= region ==> k == 0);
        let mut evicted: Vec<Handle> = Vec::new();
        let mut i: usize = 0;
        while i < k
            invariant
                live == self.live@,
                k <= live.len(),
                i <= k,
                evicted@ == live.take(i as int).map_values(|a: Allocation| handle_of(a)),
            decreases k - i,
        {
            let a = self.live[i];
            evicted.push(Handle { offset: a.offset, size: a.size });
            i = i + 1;
            assert(evicted@ =~= live.take(i as int).map_values(|a: Allocation| handle_of(a)));
        }
        let mut rest: Vec<Allocation> = Vec::new();
        let mut j: usize = k;
        while j < self.live.len()
            invariant
                live == self.live@,
                k <= j <= live.len(),
                rest@ == live.subrange(k as int, j as int),
            decreases live.len() - j,
        {
            rest.push(self.live[j]);
            j = j + 1;
            assert(rest@ =~= live.subrange(k as int, j as int));
        }
        let old_tail = self.tail;
        self.head = if k < self.live.len() { self.live[k].offset } else { old_tail };
        proof {
            if k < live.len() {
                lemma_contiguous_offsets(live, old(self).head as int, old_tail as int, k as int, k as int);
                lemma_contiguous_offsets(live, old(self).head as int, old_tail as int, k as int, live.len() - 1);
                assert(live.last() == live[live.len() - 1]);
            }
        }
        rest.push(Allocation { offset: old_tail, size, pins: 0 });
        self.live = rest;
        self.tail = old_tail + size;
        proof {
            assert(live.skip(k as int) =~= live.subrange(k as int, live.len() as int));
            let nl = self.live@;
            assert forall|x: int| 0 <= x < nl.len() - 1 implies (#[trigger] nl[x + 1]).offset == nl[x].offset + nl[x].size by {
                if x + 1 < nl.len() - 1 {
                    assert(live[k + x + 1].offset == live[k + x].offset + live[k + x].size);
                } else {
                    assert(live.last() == live[live.len() - 1]);
                }
            }
        }
        proof {
            let nl = self.live@;
            if size > 0 {
                assert forall|x: int| 0 <= x < nl.len() - 1 implies handle_of(#[trigger] nl[x]) != (Handle { offset: old_tail, size }) by {
                    assert(nl[x] == live[k + x]);
                    lemma_end_le_tail(live, old(self).head as int, old_tail as int, k + x);
                }
            }
        }
        Ok(Grant { handle: Handle { offset: old_tail, size }, evicted })
    }
}

/// Once the live allocations fill the whole region, an allocation of any
/// positive size evicts at least the oldest one before it is granted.
pub proof fn full_region_evicts_oldest(live: Seq<Allocation>, head: int, tail: int, region: int, size: int, k: int)
    requires
        contiguous(live, head, tail),
        tail - head == region,
        size > 0,
        0 <= k <= live.len(),
        live_after(live, tail, k) + size <= region,
    ensures
        k >= 1,
{
    if k == 0 && live.len() > 0 {
        assert(live[0].offset == head);
    }
}

} // verus!
