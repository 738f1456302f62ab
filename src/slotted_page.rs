use vstd::prelude::*;
use crate::error::QuarkError;
use crate::keys::{
    compare_stored_key, key_lt, lemma_key_le_lt, lemma_key_le_transitive, lemma_key_lt_irreflexive,
    lemma_key_lt_le, lemma_key_lt_total,
};
use crate::layout::{
    be_bytes_u64, lemma_be_u64_round_trip, lemma_unpack_pack_entry, node_bytes, node_fields_fit,
    node_meta_round_trip, node_of_bytes, u64_of_be_bytes, EntryFields, KVMeta, NodeMeta, KV_META_SIZE,
    MAX_LEAF_PAGE_ID, MAX_RESERVED, NODE_META_SIZE, PAGE_SIZE,
};

verus! {

/// Type code of a normal record.
pub const KIND_NORMAL: u8 = 0;

/// Type code of a removed record, kept until the page is rebuilt.
pub const KIND_TOMBSTONE: u8 = 1;

/// Type code of a fence (separator) key.
pub const KIND_FENCE: u8 = 2;

/// What a slot holds.
#[derive(Debug, Clone, Copy, PartialEq, Eq, Structural)]
pub enum EntryKind {
    Normal,
    Tombstone,
    Fence,
}

impl EntryKind {
    pub open spec fn spec_code(self) -> u8 {
        match self {
            EntryKind::Normal => KIND_NORMAL,
            EntryKind::Tombstone => KIND_TOMBSTONE,
            EntryKind::Fence => KIND_FENCE,
        }
    }

    /// The 2-bit type code stored in the entry metadata.
    pub fn code(&self) -> (r: u8)
        ensures
            r == self.spec_code(),
    {
        match self {
            EntryKind::Normal => KIND_NORMAL,
            EntryKind::Tombstone => KIND_TOMBSTONE,
            EntryKind::Fence => KIND_FENCE,
        }
    }
}

/// One record as the page presents it: its key and value bytes and its flags.
pub struct RecordView {
    pub key: Seq<u8>,
    pub value: Seq<u8>,
    pub kind: u8,
    pub fence: bool,
}

/// The record that metadata `m` describes within the page bytes `data`.
pub open spec fn record_of(data: Seq<u8>, m: KVMeta) -> RecordView {
    let f = m.fields();
    RecordView {
        key: data.subrange(f.offset as int, f.offset + f.key_len),
        value: data.subrange(f.offset + f.key_len, f.offset + f.key_len + f.val_len),
        kind: f.kind,
        fence: f.fence,
    }
}

/// Keys never decrease along the metadata array; records of equal keys lie
/// together, oldest first.
pub open spec fn sorted_keys(recs: Seq<RecordView>) -> bool {
    forall|i: int, j: int| 0 <= i < j < recs.len() ==> !key_lt(#[trigger] recs[j].key, #[trigger] recs[i].key)
}

pub open spec fn is_live_with_key(recs: Seq<RecordView>, key: Seq<u8>, i: int) -> bool {
    0 <= i < recs.len() && recs[i].key == key && recs[i].kind != KIND_TOMBSTONE
}

/// The value a lookup of `key` finds among `recs`: that of the newest (last)
/// live record with that key.
pub open spec fn find_value(recs: Seq<RecordView>, key: Seq<u8>) -> Option<Seq<u8>>
    decreases recs.len(),
{
    if recs.len() == 0 {
        None
    } else if recs.last().key == key && recs.last().kind != KIND_TOMBSTONE {
        Some(recs.last().value)
    } else {
        find_value(recs.drop_last(), key)
    }
}

/// `recs` with every record of key `key` turned into a tombstone.
pub open spec fn mark_removed(recs: Seq<RecordView>, key: Seq<u8>) -> Seq<RecordView> {
    Seq::new(
        recs.len(),
        |i: int|
            if recs[i].key == key {
                RecordView { key: recs[i].key, value: recs[i].value, kind: KIND_TOMBSTONE, fence: recs[i].fence }
            } else {
                recs[i]
            },
    )
}

/// The records that are not tombstones, in their order.
pub open spec fn live_of(recs: Seq<RecordView>) -> Seq<RecordView>
    decreases recs.len(),
{
    if recs.len() == 0 {
        Seq::empty()
    } else if recs.last().kind != KIND_TOMBSTONE {
        live_of(recs.drop_last()).push(recs.last())
    } else {
        live_of(recs.drop_last())
    }
}

/// Bytes the live records take on a page: metadata plus key and value bytes.
pub open spec fn live_size(recs: Seq<RecordView>) -> nat
    decreases recs.len(),
{
    if recs.len() == 0 {
        0
    } else if recs.last().kind != KIND_TOMBSTONE {
        (live_size(recs.drop_last()) + KV_META_SIZE + recs.last().key.len() + recs.last().value.len()) as nat
    } else {
        live_size(recs.drop_last())
    }
}

pub open spec fn new_record(key: Seq<u8>, value: Seq<u8>, kind: EntryKind, fence: bool) -> RecordView {
    RecordView { key, value, kind: kind.spec_code(), fence }
}

/// `after` is `before` with `rec` in a new slot at index `i`.
pub open spec fn stored_at(before: Seq<RecordView>, after: Seq<RecordView>, rec: RecordView, i: int) -> bool {
    &&& 0 <= i <= before.len()
    &&& after == before.insert(i, rec)
}

/// The header at the front of a page image.
pub open spec fn image_header(b: Seq<u8>) -> NodeMeta {
    node_of_bytes(b.subrange(0, NODE_META_SIZE as int))
}

/// Metadata record `i` of a page image.
pub open spec fn image_meta(b: Seq<u8>, i: int) -> KVMeta {
    KVMeta { raw: u64_of_be_bytes(b.subrange(NODE_META_SIZE + KV_META_SIZE * i, NODE_META_SIZE + KV_META_SIZE * i + KV_META_SIZE)) }
}

pub open spec fn image_metas(b: Seq<u8>) -> Seq<KVMeta> {
    Seq::new(image_header(b).record_count as nat, |i: int| image_meta(b, i))
}

pub open spec fn image_records(b: Seq<u8>) -> Seq<RecordView> {
    Seq::new(image_header(b).record_count as nat, |i: int| record_of(b, image_meta(b, i)))
}

/// A page image whose header and metadata agree with its size: every record
/// lies between the metadata array and the end, has a known type, and the keys
/// increase.
pub open spec fn valid_image(b: Seq<u8>) -> bool {
    let n = image_header(b).record_count as int;
    &&& NODE_META_SIZE <= b.len() <= PAGE_SIZE
    &&& image_header(b).size == b.len()
    &&& node_fields_fit(image_header(b))
    &&& NODE_META_SIZE + KV_META_SIZE * n <= b.len()
    &&& forall|i: int| 0 <= i < n ==> slot_in_heap(#[trigger] image_meta(b, i), b.len(), (b.len() - (NODE_META_SIZE + KV_META_SIZE * n)) as nat)
    &&& forall|i: int| 0 <= i < n ==> (#[trigger] image_meta(b, i)).fields().kind <= KIND_FENCE
    &&& sorted_keys(image_records(b))
}

/// A metadata record that points inside the heap of a page.
pub open spec fn slot_in_heap(m: KVMeta, capacity: nat, heap_used: nat) -> bool {
    let f = m.fields();
    &&& capacity - heap_used <= f.offset
    &&& f.offset + f.key_len + f.val_len <= capacity
}

/// Storing a key larger than every key on a sorted page appends its record at
/// the end of the metadata array, so keys stored in increasing order are
/// listed in that same order.
pub proof fn ascending_insert_appends(before: Seq<RecordView>, after: Seq<RecordView>, rec: RecordView, i: int)
    requires
        sorted_keys(before),
        forall|j: int| 0 <= j < before.len() ==> key_lt(#[trigger] before[j].key, rec.key),
        stored_at(before, after, rec, i),
        sorted_keys(after),
    ensures
        i == before.len(),
        after == before.push(rec),
{
    if i < before.len() {
        assert(after[i] == rec);
        assert(after[i + 1] == before[i]);
        assert(!key_lt(after[i + 1].key, after[i].key));
        assert(key_lt(before[i].key, rec.key));
    }
    assert(i == before.len());
    assert(after =~= before.push(rec));
}

/// After a key is removed a lookup of it finds nothing, while every slot stays
/// in place: the removed record is still there, as a tombstone.
pub proof fn removed_key_not_found(recs: Seq<RecordView>, key: Seq<u8>)
    ensures
        find_value(mark_removed(recs, key), key) is None,
        mark_removed(recs, key).len() == recs.len(),
        forall|i: int| 0 <= i < recs.len() && recs[i].key == key ==> (#[trigger] mark_removed(recs, key)[i]).key == key
            && mark_removed(recs, key)[i].kind == KIND_TOMBSTONE,
{
    let after = mark_removed(recs, key);
    lemma_find_value_suffix(after, key, 0);
    assert(after.take(0) =~= Seq::<RecordView>::empty());
}

/// Bytes laid out as `to_bytes` lays out a well-formed page form a valid
/// image, and reading them back gives the same header and records.
pub proof fn page_image_round_trip(p: SlottedPage, b: Seq<u8>)
    requires
        p.wf(),
        b.len() == p.capacity(),
        b.subrange(0, NODE_META_SIZE as int) == node_bytes(p.header()),
        forall|i: int| 0 <= i < p.metas().len() ==> b.subrange(NODE_META_SIZE + KV_META_SIZE * i, NODE_META_SIZE + KV_META_SIZE * i + KV_META_SIZE) == be_bytes_u64(#[trigger] p.metas()[i].raw),
        forall|i: int| 0 <= i < p.metas().len() ==> #[trigger] p.records()[i] == record_of(b, p.metas()[i]),
    ensures
        valid_image(b),
        image_header(b) == p.header(),
        image_metas(b) == p.metas(),
        image_records(b) == p.records(),
{
    node_meta_round_trip(p.header());
    assert forall|i: int| 0 <= i < p.metas().len() implies #[trigger] image_meta(b, i) == p.metas()[i] by {
        lemma_be_u64_round_trip(p.metas()[i].raw);
        assert(b.subrange(NODE_META_SIZE + KV_META_SIZE * i, NODE_META_SIZE + KV_META_SIZE * i + KV_META_SIZE) == be_bytes_u64(p.metas()[i].raw));
    }
    assert(image_metas(b) =~= p.metas());
    assert(image_records(b) =~= p.records());
    let n = p.metas().len() as int;
    assert forall|i: int| 0 <= i < n implies slot_in_heap(#[trigger] image_meta(b, i), b.len(), (b.len() - (NODE_META_SIZE + KV_META_SIZE * n)) as nat) by {
        assert(slot_in_heap(p.slots@[i], p.data@.len(), p.heap_used as nat));
    }
}

/// Records past index `n` that are not live records of `key` do not change
/// what a lookup of `key` finds.
pub proof fn lemma_find_value_suffix(recs: Seq<RecordView>, key: Seq<u8>, n: int)
    requires
        0 <= n <= recs.len(),
        forall|i: int| n <= i < recs.len() ==> !is_live_with_key(recs, key, i),
    ensures
        find_value(recs, key) == find_value(recs.take(n), key),
    decreases recs.len() - n,
{
    if n < recs.len() {
        let t = recs.drop_last();
        assert(!is_live_with_key(recs, key, recs.len() - 1));
        assert forall|i: int| n <= i < t.len() implies !is_live_with_key(t, key, i) by {
            assert(!is_live_with_key(recs, key, i));
        }
        lemma_find_value_suffix(t, key, n);
        assert(t.take(n) =~= recs.take(n));
    } else {
        assert(recs.take(n) =~= recs);
    }
}

/// A lookup finds something exactly when some record of the key is live.
pub proof fn lemma_find_value_some(recs: Seq<RecordView>, key: Seq<u8>)
    ensures
        find_value(recs, key) is Some <==> exists|i: int| is_live_with_key(recs, key, i),
    decreases recs.len(),
{
    if recs.len() > 0 {
        let t = recs.drop_last();
        lemma_find_value_some(t, key);
        if recs.last().key == key && recs.last().kind != KIND_TOMBSTONE {
            assert(is_live_with_key(recs, key, recs.len() - 1));
        }
        if exists|i: int| is_live_with_key(t, key, i) {
            let i = choose|i: int| is_live_with_key(t, key, i);
            assert(is_live_with_key(recs, key, i));
        }
        if exists|i: int| is_live_with_key(recs, key, i) {
            let i = choose|i: int| is_live_with_key(recs, key, i);
            if i < recs.len() - 1 {
                assert(is_live_with_key(t, key, i));
            }
        }
    }
}

/// A fixed-capacity page: a header, an ordered array of entry metadata, and a
/// heap of key and value bytes that grows down from the end of the page.
pub struct SlottedPage {
    data: Vec<u8>,
    header: NodeMeta,
    slots: Vec<KVMeta>,
    heap_used: usize,
}

proof fn lemma_record_stable(d1: Seq<u8>, d2: Seq<u8>, m: KVMeta, lo: int)
    requires
        d1.len() == d2.len(),
        lo <= m.fields().offset,
        m.fields().offset + m.fields().key_len + m.fields().val_len <= d1.len(),
        forall|k: int| lo <= k < d1.len() ==> d1[k] == d2[k],
    ensures
        record_of(d1, m) == record_of(d2, m),
{
    let f = m.fields();
    assert(d1.subrange(f.offset as int, f.offset + f.key_len) =~= d2.subrange(f.offset as int, f.offset + f.key_len));
    assert(d1.subrange(f.offset + f.key_len, f.offset + f.key_len + f.val_len) =~= d2.subrange(
        f.offset + f.key_len,
        f.offset + f.key_len + f.val_len,
    ));
}

proof fn lemma_live_size_take_mono(recs: Seq<RecordView>, i: int, j: int)
    requires
        0 <= i <= j <= recs.len(),
    ensures
        live_size(recs.take(i)) <= live_size(recs.take(j)),
    decreases j - i,
{
    if i < j {
        assert(recs.take(j).drop_last() =~= recs.take(j - 1));
        lemma_live_size_take_mono(recs, i, j - 1);
    }
}

fn write_at(data: &mut Vec<u8>, at: usize, src: &[u8])
    requires
        at + src@.len() <= old(data)@.len(),
    ensures
        final(data)@.len() == old(data)@.len(),
        final(data)@.subrange(at as int, at + src@.len()) == src@,
        forall|k: int|
            0 <= k < old(data)@.len() && !(at <= k < at + src@.len()) ==> final(data)@[k] == old(data)@[k],
{
    let n = data.len();
    let mut i: usize = 0;
    while i < src.len()
        invariant
            n == old(data)@.len(),
            at + src@.len() <= old(data)@.len(),
            data@.len() == old(data)@.len(),
            i <= src@.len(),
            forall|k: int| at <= k < at + i ==> data@[k] == src@[k - at],
            forall|k: int| 0 <= k < old(data)@.len() && !(at <= k < at + i) ==> data@[k] == old(data)@[k],
        decreases src@.len() - i,
    {
        data.set(at + i, src[i]);
        i = i + 1;
    }
    assert(data@.subrange(at as int, at + src@.len()) =~= src@);
}

fn header_slice(bytes: &[u8]) -> (r: &[u8])
    requires
        bytes@.len() >= NODE_META_SIZE,
    ensures
        r@ == bytes@.subrange(0, NODE_META_SIZE as int),
{
    vstd::slice::slice_subrange(bytes, 0, NODE_META_SIZE)
}

fn copy_range(data: &[u8], start: usize, len: usize) -> (r: Vec<u8>)
    requires
        start + len <= data@.len(),
    ensures
        r@ == data@.subrange(start as int, start + len),
{
    let n = data.len();
    let mut out: Vec<u8> = Vec::new();
    let mut i: usize = 0;
    while i < len
        invariant
            n == data@.len(),
            start + len <= data@.len(),
            i <= len,
            out@ == data@.subrange(start as int, start + i),
        decreases len - i,
    {
        out.push(data[start + i]);
        i = i + 1;
        assert(out@ =~= data@.subrange(start as int, start + i));
    }
    out
}

impl SlottedPage {
    pub closed spec fn capacity(&self) -> nat {
        self.data@.len()
    }

    pub closed spec fn heap_used(&self) -> nat {
        self.heap_used as nat
    }

    pub closed spec fn header(&self) -> NodeMeta {
        self.header
    }

    /// The records in metadata-array order.
    pub closed spec fn records(&self) -> Seq<RecordView> {
        Seq::new(self.slots@.len(), |i: int| record_of(self.data@, self.slots@[i]))
    }

    /// Header, metadata array and heap together.
    pub open spec fn used(&self) -> nat {
        (NODE_META_SIZE + KV_META_SIZE * self.records().len() + self.heap_used()) as nat
    }

    /// Bytes a page needs after storing `key` and `value`: a new slot and the
    /// key and value bytes.
    pub open spec fn needed_for(&self, key: Seq<u8>, value: Seq<u8>) -> nat {
        (self.used() + KV_META_SIZE + key.len() + value.len()) as nat
    }

    pub closed spec fn wf(&self) -> bool {
        &&& NODE_META_SIZE <= self.data@.len() <= PAGE_SIZE
        &&& self.header.size == self.data@.len()
        &&& self.header.record_count == self.slots@.len()
        &&& self.used() <= self.capacity()
        &&& forall|i: int| 0 <= i < self.slots@.len() ==> slot_in_heap(#[trigger] self.slots@[i], self.data@.len(), self.heap_used as nat)
        &&& forall|i: int| 0 <= i < self.slots@.len() ==> (#[trigger] self.slots@[i]).fields().kind <= KIND_FENCE
        &&& sorted_keys(self.records())
        &&& node_fields_fit(self.header)
        &&& forall|k: int| 0 <= k < self.data@.len() - self.heap_used ==> self.data@[k] == 0
    }

    /// The metadata records, in array order.
    pub closed spec fn metas(&self) -> Seq<KVMeta> {
        self.slots@
    }

    /// The metadata array of a well-formed page is ordered by key.
    pub proof fn lemma_wf_sorted(&self)
        requires
            self.wf(),
        ensures
            sorted_keys(self.records()),
            self.used() <= self.capacity(),
            NODE_META_SIZE <= self.capacity() <= PAGE_SIZE,
            self.header().record_count == self.records().len(),
            self.header().size == self.capacity(),
    {
    }

    /// An empty page of `capacity` bytes.
    pub fn new(capacity: usize, is_mini: bool) -> (r: SlottedPage)
        requires
            NODE_META_SIZE <= capacity <= PAGE_SIZE,
        ensures
            r.wf(),
            r.capacity() == capacity,
            r.records() == Seq::<RecordView>::empty(),
            r.heap_used() == 0,
            r.header() == NodeMeta::new_spec(capacity as u16, is_mini),
    {
        let r = SlottedPage {
            data: vec![0u8; capacity],
            header: NodeMeta::new(capacity as u16, is_mini),
            slots: Vec::new(),
            heap_used: 0,
        };
        assert(r.records() =~= Seq::<RecordView>::empty());
        r
    }

    /// Binary search for the first slot whose key is greater than `key`.
    fn upper_bound(&self, key: &[u8]) -> (r: usize)
        requires
            self.wf(),
        ensures
            r <= self.records().len(),
            forall|i: int| 0 <= i < r ==> !key_lt(key@, #[trigger] self.records()[i].key),
            forall|i: int| r <= i < self.records().len() ==> key_lt(key@, #[trigger] self.records()[i].key),
    {
        let ghost recs = self.records();
        let mut lo: usize = 0;
        let mut hi: usize = self.slots.len();
        while lo < hi
            invariant
                self.wf(),
                recs == self.records(),
                lo <= hi <= recs.len(),
                forall|i: int| 0 <= i < lo ==> !key_lt(key@, #[trigger] recs[i].key),
                forall|i: int| hi <= i < recs.len() ==> key_lt(key@, #[trigger] recs[i].key),
            decreases hi - lo,
        {
            let mid = lo + (hi - lo) / 2;
            let m = self.slots[mid];
            let off = m.get_offset();
            let kl = m.key_len() as usize;
            assert(slot_in_heap(self.slots@[mid as int], self.data@.len(), self.heap_used as nat));
            let c = compare_stored_key(&self.data, off, kl, key);
            assert(recs[mid as int].key == self.data@.subrange(off as int, off + kl));
            if c > 0 {
                assert forall|i: int| mid <= i < recs.len() implies key_lt(key@, #[trigger] recs[i].key) by {
                    if i > mid {
                        lemma_key_lt_le(key@, recs[mid as int].key, recs[i].key);
                    }
                }
                hi = mid;
            } else {
                assert forall|i: int| 0 <= i < mid + 1 implies !key_lt(key@, #[trigger] recs[i].key) by {
                    if i < mid {
                        lemma_key_le_transitive(recs[i].key, recs[mid as int].key, key@);
                    }
                }
                lo = mid + 1;
            }
        }
        lo
    }

    /// Stores a record in a new slot: the key and value bytes go to the top of
    /// the heap, and the slot goes into the metadata array after every slot of
    /// a smaller or equal key. When the page lacks room, nothing changes and
    /// `PageFull` comes back.
    #[verifier::rlimit(60)]
    pub fn insert(&mut self, key: &[u8], value: &[u8], kind: EntryKind, fence: bool) -> (r: Result<usize, QuarkError>)
        requires
            old(self).wf(),
        ensures
            final(self).wf(),
            final(self).capacity() == old(self).capacity(),
            old(self).needed_for(key@, value@) > old(self).capacity() ==> r == Err::<usize, QuarkError>(
                QuarkError::PageFull,
            ) && *final(self) == *old(self),
            old(self).needed_for(key@, value@) <= old(self).capacity() ==> (r matches Ok(i) && stored_at(
                old(self).records(),
                final(self).records(),
                new_record(key@, value@, kind, fence),
                i as int,
            ) && (forall|j: int| 0 <= j < i ==> !key_lt(key@, #[trigger] old(self).records()[j].key))
                && (forall|j: int| i <= j < old(self).records().len() ==> key_lt(key@, #[trigger] old(self).records()[j].key))
                && final(self).used() == old(self).needed_for(key@, value@)
                && final(self).heap_used() == old(self).heap_used() + key@.len() + value@.len()
                && final(self).metas() == old(self).metas().insert(i as int, final(self).metas()[i as int])
                && final(self).metas()[i as int].fields() == (EntryFields {
                key_len: key@.len() as u16,
                val_len: value@.len() as u16,
                offset: (final(self).capacity() - final(self).heap_used()) as u16,
                kind: kind.spec_code(),
                fence,
                ref_bit: false,
                look_ahead: 0,
            }) && final(self).header() == (NodeMeta {
                record_count: (old(self).header().record_count + 1) as u16,
                ..old(self).header()
            })),
    {
        let pos = self.upper_bound(key);
        let ghost old_recs = self.records();
        let ghost old_data = self.data@;
        let ghost rec = new_record(key@, value@, kind, fence);
        let cap = self.data.len();
        let klen = key.len();
        let vlen = value.len();
        if klen > cap || vlen > cap {
            return Err(QuarkError::PageFull);
        }
        let used = NODE_META_SIZE + KV_META_SIZE * self.slots.len() + self.heap_used;
        if used + KV_META_SIZE + klen + vlen > cap {
            return Err(QuarkError::PageFull);
        }
        let len = klen + vlen;
        let off = cap - self.heap_used - len;
        let f = EntryFields {
            key_len: klen as u16,
            val_len: vlen as u16,
            offset: off as u16,
            kind: kind.code(),
            fence,
            ref_bit: false,
            look_ahead: 0,
        };
        let m = match KVMeta::pack(&f) {
            Ok(m) => m,
            Err(e) => {
                return Err(e);
            },
        };
        proof {
            lemma_unpack_pack_entry(f);
        }
        write_at(&mut self.data, off, key);
        let ghost mid_data = self.data@;
        write_at(&mut self.data, off + klen, value);
        let ghost old_slots = self.slots@;
        let ghost old_heap = self.heap_used as int;
        self.slots.insert(pos, m);
        self.header.record_count = self.header.record_count + 1;
        self.heap_used = self.heap_used + len;
        proof {
            let new_data = self.data@;
            assert forall|k: int| cap - old_heap <= k < cap implies new_data[k] == old_data[k] by {}
            assert forall|k: int| 0 <= k < off implies new_data[k] == 0 by {
                assert(new_data[k] == old_data[k]);
            }
            assert(new_data.subrange(off as int, off + klen) =~= key@) by {
                assert forall|k: int| off <= k < off + klen implies new_data[k] == key@[k - off] by {
                    assert(mid_data.subrange(off as int, off + klen)[k - off] == mid_data[k]);
                }
            }
            assert(record_of(new_data, m) == rec);
            let expected = old_recs.insert(pos as int, rec);
            assert forall|j: int| 0 <= j < self.slots@.len() implies #[trigger] self.records()[j] == expected[j] && slot_in_heap(self.slots@[j], cap as nat, self.heap_used as nat) && self.slots@[j].fields().kind <= KIND_FENCE by {
                if j != pos {
                    let oj = if j < pos { j } else { j - 1 };
                    assert(self.slots@[j] == old_slots[oj]);
                    assert(slot_in_heap(old_slots[oj], cap as nat, old_heap as nat));
                    lemma_record_stable(old_data, new_data, old_slots[oj], cap - old_heap);
                }
            }
            assert(self.records() =~= expected);
            assert(self.slots@ =~= old_slots.insert(pos as int, m));
            assert forall|a: int, b: int| 0 <= a < b < expected.len() implies !key_lt(#[trigger] expected[b].key, #[trigger] expected[a].key) by {
                if b == pos {
                    assert(expected[a] == old_recs[a]);
                } else if a == pos {
                    assert(expected[b] == old_recs[b - 1]);
                    lemma_key_lt_total(key@, old_recs[b - 1].key);
                } else if a > pos {
                    assert(expected[a] == old_recs[a - 1]);
                    assert(expected[b] == old_recs[b - 1]);
                } else if b > pos {
                    assert(expected[b] == old_recs[b - 1]);
                    assert(expected[a] == old_recs[a]);
                } else {
                    assert(expected[b] == old_recs[b]);
                    assert(expected[a] == old_recs[a]);
                }
            }
        }
        Ok(pos)
    }

    /// Capacity of the page in bytes.
    pub fn capacity_bytes(&self) -> (r: usize)
        requires
            self.wf(),
        ensures
            r == self.capacity(),
    {
        self.data.len()
    }

    /// Number of slots in the metadata array, tombstones included.
    pub fn get_record_count(&self) -> (r: usize)
        requires
            self.wf(),
        ensures
            r == self.records().len(),
            r == self.header().record_count,
    {
        self.slots.len()
    }

    /// Bytes of the heap in use.
    pub fn get_used_data_size(&self) -> (r: usize)
        requires
            self.wf(),
        ensures
            r == self.heap_used(),
    {
        self.heap_used
    }

    /// Header, metadata array and heap bytes in use together.
    pub fn used_bytes(&self) -> (r: usize)
        requires
            self.wf(),
        ensures
            r == self.used(),
    {
        NODE_META_SIZE + KV_META_SIZE * self.slots.len() + self.heap_used
    }

    /// The page header.
    pub fn node_meta(&self) -> (r: NodeMeta)
        ensures
            r == self.header(),
    {
        self.header
    }

    /// The key in slot `i` of the metadata array.
    pub fn key_at(&self, i: usize) -> (r: Vec<u8>)
        requires
            self.wf(),
            i < self.records().len(),
        ensures
            r@ == self.records()[i as int].key,
    {
        let m = self.slots[i];
        assert(slot_in_heap(self.slots@[i as int], self.data@.len(), self.heap_used as nat));
        copy_range(self.data.as_slice(), m.get_offset(), m.key_len() as usize)
    }

    /// Whether slot `i` holds a tombstone.
    pub fn is_tombstone_at(&self, i: usize) -> (r: bool)
        requires
            self.wf(),
            i < self.records().len(),
        ensures
            r == (self.records()[i as int].kind == KIND_TOMBSTONE),
    {
        self.slots[i].kind() == KIND_TOMBSTONE
    }

    /// The value of the newest live record of `key`, unless there is none.
    pub fn lookup(&self, key: &[u8]) -> (r: Option<Vec<u8>>)
        requires
            self.wf(),
        ensures
            r is Some <==> find_value(self.records(), key@) is Some,
            r matches Some(v) ==> find_value(self.records(), key@) == Some(v@),
    {
        let ghost recs = self.records();
        let pos = self.upper_bound(key);
        proof {
            lemma_key_lt_irreflexive(key@);
            lemma_find_value_suffix(recs, key@, pos as int);
        }
        let mut j = pos;
        while j > 0
            invariant
                self.wf(),
                recs == self.records(),
                j <= pos <= recs.len(),
                forall|i: int| 0 <= i < pos ==> !key_lt(key@, #[trigger] recs[i].key),
                find_value(recs, key@) == find_value(recs.take(j as int), key@),
            decreases j,
        {
            let m = self.slots[j - 1];
            assert(slot_in_heap(self.slots@[j - 1], self.data@.len(), self.heap_used as nat));
            let off = m.get_offset();
            let kl = m.key_len() as usize;
            let c = compare_stored_key(&self.data, off, kl, key);
            let ghost t = recs.take(j as int);
            assert(t.last() == recs[j - 1]);
            assert(t.drop_last() =~= recs.take(j - 1));
            if c != 0 {
                proof {
                    lemma_key_lt_total(recs[j - 1].key, key@);
                    assert forall|i: int| 0 <= i < j implies !is_live_with_key(t, key@, i) by {
                        assert(t[i] == recs[i]);
                        if i < j - 1 {
                            lemma_key_le_lt(recs[i].key, recs[j - 1].key, key@);
                        }
                    }
                    lemma_find_value_suffix(t, key@, 0);
                    assert(t.take(0) =~= Seq::<RecordView>::empty());
                }
                return None;
            }
            if m.kind() != KIND_TOMBSTONE {
                let vl = m.val_len() as usize;
                return Some(copy_range(self.data.as_slice(), off + kl, vl));
            }
            j = j - 1;
        }
        assert(recs.take(0) =~= Seq::<RecordView>::empty());
        None
    }

    /// Marks every live record of `key` as a tombstone; slots and heap bytes
    /// stay until the page is rebuilt. Returns whether there was such a record.
    pub fn remove(&mut self, key: &[u8]) -> (r: bool)
        requires
            old(self).wf(),
        ensures
            final(self).wf(),
            r == find_value(old(self).records(), key@) is Some,
            final(self).records() == mark_removed(old(self).records(), key@),
            final(self).capacity() == old(self).capacity(),
            final(self).heap_used() == old(self).heap_used(),
            final(self).header() == old(self).header(),
    {
        let ghost recs = self.records();
        let pos = self.upper_bound(key);
        proof {
            lemma_key_lt_irreflexive(key@);
            lemma_find_value_some(recs, key@);
        }
        let mut j = pos;
        let mut any = false;
        let mut stop = false;
        while j > 0 && !stop
            invariant
                old(self).wf(),
                recs == old(self).records(),
                self.data == old(self).data,
                self.header == old(self).header,
                self.heap_used == old(self).heap_used,
                self.slots@.len() == old(self).slots@.len(),
                j <= pos <= recs.len(),
                forall|i: int| 0 <= i < pos ==> !key_lt(key@, #[trigger] recs[i].key),
                forall|i: int| j <= i < pos ==> (#[trigger] recs[i]).key == key@,
                forall|i: int| 0 <= i < self.slots@.len() ==> if j <= i < pos {
                    (#[trigger] self.slots@[i]).fields() == (EntryFields { kind: KIND_TOMBSTONE, ..old(self).slots@[i].fields() })
                } else {
                    self.slots@[i] == old(self).slots@[i]
                },
                any == exists|i: int| j <= i < pos && is_live_with_key(recs, key@, i),
                stop ==> j > 0 && recs[j - 1].key != key@,
            decreases 2 * j + if stop { 0int } else { 1int },
        {
            let m = self.slots[j - 1];
            assert(m == old(self).slots@[j - 1]);
            assert(slot_in_heap(old(self).slots@[j - 1], self.data@.len(), self.heap_used as nat));
            let off = m.get_offset();
            let kl = m.key_len() as usize;
            let c = compare_stored_key(&self.data, off, kl, key);
            if c != 0 {
                stop = true;
            } else {
                if m.kind() != KIND_TOMBSTONE {
                    any = true;
                    assert(is_live_with_key(recs, key@, j - 1));
                }
                let nm = m.with_kind(KIND_TOMBSTONE);
                self.slots.set(j - 1, nm);
                j = j - 1;
            }
        }
        proof {
            if stop {
                lemma_key_lt_total(recs[j - 1].key, key@);
            }
            assert forall|i: int| 0 <= i < recs.len() && (#[trigger] recs[i]).key == key@ implies j <= i < pos by {
                if i < j {
                    lemma_key_le_lt(recs[i].key, recs[j - 1].key, key@);
                }
            }
            assert forall|i: int| 0 <= i < self.slots@.len() implies #[trigger] self.records()[i] == mark_removed(recs, key@)[i]
                && slot_in_heap(self.slots@[i], self.data@.len(), self.heap_used as nat)
                && self.slots@[i].fields().kind <= KIND_FENCE by {
                assert(slot_in_heap(old(self).slots@[i], self.data@.len(), self.heap_used as nat));
            }
            assert(self.records() =~= mark_removed(recs, key@));
        }
        any
    }

    /// Bytes the live records would take on a rebuilt page, header excluded.
    pub fn live_bytes(&self) -> (r: usize)
        requires
            self.wf(),
        ensures
            r == live_size(self.records()),
    {
        let ghost recs = self.records();
        let mut sum: usize = 0;
        let mut i: usize = 0;
        while i < self.slots.len()
            invariant
                self.wf(),
                recs == self.records(),
                i <= recs.len(),
                recs.len() <= 512,
                sum == live_size(recs.take(i as int)),
                sum <= i * (KV_META_SIZE + PAGE_SIZE),
            decreases recs.len() - i,
        {
            let m = self.slots[i];
            assert(recs.take(i + 1).drop_last() =~= recs.take(i as int));
            assert(slot_in_heap(self.slots@[i as int], self.data@.len(), self.heap_used as nat));
            if m.kind() != KIND_TOMBSTONE {
                let kl = m.key_len() as usize;
                let vl = m.val_len() as usize;
                assert(sum + KV_META_SIZE + kl + vl <= (i + 1) * (KV_META_SIZE + PAGE_SIZE)) by (nonlinear_arith)
                    requires
                        sum <= i * (KV_META_SIZE + PAGE_SIZE),
                        kl + vl <= PAGE_SIZE,
                ;
                assert((i + 1) * (KV_META_SIZE + PAGE_SIZE) <= 512 * (KV_META_SIZE + PAGE_SIZE)) by (nonlinear_arith)
                    requires
                        i < 512,
                ;
                sum = sum + KV_META_SIZE + kl + vl;
            }
            assert(sum <= (i + 1) * (KV_META_SIZE + PAGE_SIZE)) by (nonlinear_arith)
                requires
                    sum <= i * (KV_META_SIZE + PAGE_SIZE) || sum <= (i + 1) * (KV_META_SIZE + PAGE_SIZE),
            ;
            i = i + 1;
        }
        assert(recs.take(i as int) =~= recs);
        sum
    }

    /// A new page of `new_capacity` bytes holding the live records of this one,
    /// in the same order, with tombstones and dead heap bytes left behind.
    pub fn compacted(&self, new_capacity: usize, is_mini: bool) -> (r: SlottedPage)
        requires
            self.wf(),
            NODE_META_SIZE + live_size(self.records()) <= new_capacity <= PAGE_SIZE,
        ensures
            r.wf(),
            r.capacity() == new_capacity,
            r.records() == live_of(self.records()),
            r.used() == NODE_META_SIZE + live_size(self.records()),
            r.header() == (NodeMeta {
                record_count: r.records().len() as u16,
                ..NodeMeta::new_spec(new_capacity as u16, is_mini)
            }),
    {
        let ghost recs = self.records();
        let mut out = SlottedPage::new(new_capacity, is_mini);
        let ghost mut last_j: int = 0;
        let mut i: usize = 0;
        assert(recs.take(0) =~= Seq::<RecordView>::empty());
        while i < self.slots.len()
            invariant
                self.wf(),
                recs == self.records(),
                i <= recs.len(),
                NODE_META_SIZE + live_size(recs) <= new_capacity <= PAGE_SIZE,
                out.wf(),
                out.capacity() == new_capacity,
                out.records() == live_of(recs.take(i as int)),
                out.used() == NODE_META_SIZE + live_size(recs.take(i as int)),
                out.header() == (NodeMeta {
                    record_count: out.records().len() as u16,
                    ..NodeMeta::new_spec(new_capacity as u16, is_mini)
                }),
                out.records().len() > 0 ==> 0 <= last_j < i && out.records().last() == recs[last_j],
            decreases recs.len() - i,
        {
            let m = self.slots[i];
            assert(recs.take(i + 1).drop_last() =~= recs.take(i as int));
            assert(recs.take(i + 1).last() == recs[i as int]);
            if m.kind() != KIND_TOMBSTONE {
                assert(slot_in_heap(self.slots@[i as int], self.data@.len(), self.heap_used as nat));
                let off = m.get_offset();
                let kl = m.key_len() as usize;
                let vl = m.val_len() as usize;
                let k = copy_range(self.data.as_slice(), off, kl);
                let v = copy_range(self.data.as_slice(), off + kl, vl);
                let kind = if m.kind() == KIND_FENCE { EntryKind::Fence } else { EntryKind::Normal };
                let fence = (m.raw >> 17u64) & 1u64 == 1u64;
                let ghost before = out.records();
                let ghost rec = new_record(k@, v@, kind, fence);
                assert(rec == recs[i as int]);
                proof {
                    out.lemma_wf_sorted();
                    assert forall|a: int| 0 <= a < before.len() implies !key_lt(rec.key, #[trigger] before[a].key) by {
                        self.lemma_wf_sorted();
                        assert(!key_lt(recs[i as int].key, recs[last_j].key));
                        if a < before.len() - 1 {
                            lemma_key_le_transitive(before[a].key, recs[last_j].key, rec.key);
                        }
                    }
                    lemma_live_size_take_mono(recs, i + 1, recs.len() as int);
                    assert(recs.take(recs.len() as int) =~= recs);
                }
                let res = out.insert(k.as_slice(), v.as_slice(), kind, fence);
                proof {
                    if let Ok(idx) = res {
                        if (idx as int) < before.len() {
                            assert(key_lt(rec.key, before[idx as int].key));
                        }
                        assert(out.records() =~= before.push(rec));
                    }
                    last_j = i as int;
                }
            }
            i = i + 1;
        }
        assert(recs.take(i as int) =~= recs);
        out
    }
    /// The page as it lies on disk: the 12-byte header at offset 0, the 8-byte
    /// metadata records after it, zeros in the free gap, and the heap at the end.
    pub fn to_bytes(&self) -> (r: Vec<u8>)
        requires
            self.wf(),
        ensures
            r@.len() == self.capacity(),
            r@.subrange(0, NODE_META_SIZE as int) == node_bytes(self.header()),
            self.metas().len() == self.records().len(),
            forall|i: int| 0 <= i < self.metas().len() ==> r@.subrange(NODE_META_SIZE + KV_META_SIZE * i, NODE_META_SIZE + KV_META_SIZE * i + KV_META_SIZE) == be_bytes_u64(#[trigger] self.metas()[i].raw),
            forall|k: int| NODE_META_SIZE + KV_META_SIZE * self.metas().len() <= k < self.capacity() - self.heap_used() ==> r@[k] == 0,
            forall|i: int| 0 <= i < self.metas().len() ==> #[trigger] self.records()[i] == record_of(r@, self.metas()[i]),
    {
        let cap = self.data.len();
        let n = self.slots.len();
        let mut out = copy_range(self.data.as_slice(), 0, cap);
        assert(out@ =~= self.data@);
        let hb = match self.header.encode() {
            Ok(b) => b,
            Err(_) => {
                return out;
            },
        };
        write_at(&mut out, 0, hb.as_slice());
        let mut i: usize = 0;
        while i < n
            invariant
                self.wf(),
                n == self.slots@.len(),
                cap == self.data@.len(),
                NODE_META_SIZE + KV_META_SIZE * n <= cap - self.heap_used,
                i <= n,
                out@.len() == cap,
                out@.subrange(0, NODE_META_SIZE as int) == node_bytes(self.header),
                forall|j: int| 0 <= j < i ==> out@.subrange(NODE_META_SIZE + KV_META_SIZE * j, NODE_META_SIZE + KV_META_SIZE * j + KV_META_SIZE) == be_bytes_u64(#[trigger] self.slots@[j].raw),
                forall|k: int| NODE_META_SIZE + KV_META_SIZE * i <= k < cap ==> out@[k] == self.data@[k],
            decreases n - i,
        {
            let b = self.slots[i].to_bytes();
            let ghost prev = out@;
            write_at(&mut out, NODE_META_SIZE + KV_META_SIZE * i, b.as_slice());
            proof {
                assert(out@.subrange(0, NODE_META_SIZE as int) =~= prev.subrange(0, NODE_META_SIZE as int));
                assert forall|j: int| 0 <= j < i + 1 implies out@.subrange(NODE_META_SIZE + KV_META_SIZE * j, NODE_META_SIZE + KV_META_SIZE * j + KV_META_SIZE) == be_bytes_u64(#[trigger] self.slots@[j].raw) by {
                    if j < i {
                        assert(out@.subrange(NODE_META_SIZE + KV_META_SIZE * j, NODE_META_SIZE + KV_META_SIZE * j + KV_META_SIZE) =~= prev.subrange(NODE_META_SIZE + KV_META_SIZE * j, NODE_META_SIZE + KV_META_SIZE * j + KV_META_SIZE));
                    }
                }
            }
            i = i + 1;
        }
        proof {
            assert forall|i: int| 0 <= i < self.metas().len() implies #[trigger] self.records()[i] == record_of(out@, self.metas()[i]) by {
                assert(slot_in_heap(self.slots@[i], cap as nat, self.heap_used as nat));
                lemma_record_stable(self.data@, out@, self.slots@[i], cap - self.heap_used);
            }
        }
        out
    }
    /// Sets the split-in-progress flag of the header.
    pub fn set_split(&mut self, split: bool)
        requires
            old(self).wf(),
        ensures
            final(self).wf(),
            final(self).header() == (NodeMeta { split, ..old(self).header() }),
            final(self).records() == old(self).records(),
            final(self).capacity() == old(self).capacity(),
            final(self).heap_used() == old(self).heap_used(),
    {
        self.header.split = split;
    }

    /// Sets the leaf page identifier; fails when it exceeds 48 bits.
    pub fn set_leaf_page_id(&mut self, id: u64) -> (r: Result<(), QuarkError>)
        requires
            old(self).wf(),
        ensures
            final(self).wf(),
            id <= MAX_LEAF_PAGE_ID ==> r is Ok && final(self).header() == (NodeMeta { leaf_page_id: id, ..old(self).header() }),
            id > MAX_LEAF_PAGE_ID ==> r == Err::<(), QuarkError>(QuarkError::FieldOverflow) && final(self).header() == old(self).header(),
            final(self).records() == old(self).records(),
            final(self).capacity() == old(self).capacity(),
            final(self).heap_used() == old(self).heap_used(),
    {
        if id > MAX_LEAF_PAGE_ID {
            return Err(QuarkError::FieldOverflow);
        }
        self.header.leaf_page_id = id;
        Ok(())
    }

    /// Reads a page image back. Fails with `CorruptedMeta` when the header or a
    /// metadata record disagrees with the image: a size other than its length,
    /// a record outside the heap or of unknown type, or keys out of order.
    #[verifier::rlimit(40)]
    pub fn from_bytes(bytes: &[u8]) -> (r: Result<SlottedPage, QuarkError>)
        ensures
            r is Ok <==> valid_image(bytes@),
            r is Err ==> r == Err::<SlottedPage, QuarkError>(QuarkError::CorruptedMeta),
            r matches Ok(p) ==> p.wf() && p.capacity() == bytes@.len() && p.header() == image_header(bytes@)
                && p.metas() == image_metas(bytes@) && p.records() == image_records(bytes@),
    {
        let len = bytes.len();
        if len < NODE_META_SIZE || len > PAGE_SIZE {
            return Err(QuarkError::CorruptedMeta);
        }
        let header = NodeMeta::decode(header_slice(bytes));
        if header.size as usize != len || header.leaf_page_id > MAX_LEAF_PAGE_ID || header.reserved > MAX_RESERVED {
            return Err(QuarkError::CorruptedMeta);
        }
        let n = header.record_count as usize;
        if NODE_META_SIZE + KV_META_SIZE * n > len {
            return Err(QuarkError::CorruptedMeta);
        }
        let meta_end = NODE_META_SIZE + KV_META_SIZE * n;
        let ghost b = bytes@;
        let data = copy_range(bytes, 0, len);
        let mut slots: Vec<KVMeta> = Vec::new();
        let mut min_off: usize = len;
        let mut i: usize = 0;
        while i < n
            invariant
                b == bytes@,
                data@ == b,
                len == b.len(),
                NODE_META_SIZE <= len <= PAGE_SIZE,
                header == image_header(b),
                n == header.record_count,
                meta_end == NODE_META_SIZE + KV_META_SIZE * n,
                meta_end <= len,
                i <= n,
                meta_end <= min_off <= len,
                slots@ == image_metas(b).take(i as int),
                forall|j: int| 0 <= j < i ==> slot_in_heap(#[trigger] image_meta(b, j), len as nat, (len - meta_end) as nat),
                forall|j: int| 0 <= j < i ==> (#[trigger] image_meta(b, j)).fields().kind <= KIND_FENCE,
                forall|j: int| 0 <= j < i ==> min_off <= (#[trigger] image_meta(b, j)).fields().offset,
                sorted_keys(image_records(b).take(i as int)),
            decreases n - i,
        {
            let at = NODE_META_SIZE + KV_META_SIZE * i;
            let raw = ((bytes[at] as u64) << 56u64) | ((bytes[at + 1] as u64) << 48u64) | ((bytes[at + 2] as u64) << 40u64)
                | ((bytes[at + 3] as u64) << 32u64) | ((bytes[at + 4] as u64) << 24u64) | ((bytes[at + 5] as u64) << 16u64)
                | ((bytes[at + 6] as u64) << 8u64) | (bytes[at + 7] as u64);
            let m = KVMeta { raw };
            proof {
                let sub = b.subrange(at as int, at + 8);
                assert(u64_of_be_bytes(sub) == raw);
                assert(m == image_meta(b, i as int));
            }
            let off = m.get_offset();
            let kl = m.key_len() as usize;
            let vl = m.val_len() as usize;
            if off < meta_end || off + kl + vl > len || m.kind() > KIND_FENCE {
                proof {
                    assert(!(slot_in_heap(image_meta(b, i as int), len as nat, (len - meta_end) as nat)
                        && image_meta(b, i as int).fields().kind <= KIND_FENCE));
                }
                return Err(QuarkError::CorruptedMeta);
            }
            let ghost recs = image_records(b);
            if i > 0 {
                let prev = slots[i - 1];
                let k = copy_range(data.as_slice(), prev.get_offset(), prev.key_len() as usize);
                let c = compare_stored_key(&data, off, kl, k.as_slice());
                if c < 0 {
                    proof {
                        assert(recs[i - 1].key == k@);
                        assert(recs[i as int].key == data@.subrange(off as int, off + kl));
                    }
                    return Err(QuarkError::CorruptedMeta);
                }
                proof {
                    assert(recs[i - 1].key == k@);
                    assert(recs[i as int].key == data@.subrange(off as int, off + kl));
                    assert forall|a: int, c2: int| 0 <= a < c2 < i + 1 implies !key_lt(#[trigger] recs.take(i + 1)[c2].key, #[trigger] recs.take(i + 1)[a].key) by {
                        assert(recs.take(i + 1)[a] == recs[a]);
                        assert(recs.take(i + 1)[c2] == recs[c2]);
                        if c2 < i {
                            assert(recs.take(i as int)[a] == recs[a]);
                            assert(recs.take(i as int)[c2] == recs[c2]);
                        } else if a < i - 1 {
                            assert(recs.take(i as int)[a] == recs[a]);
                            assert(recs.take(i as int)[i - 1] == recs[i - 1]);
                            lemma_key_le_transitive(recs[a].key, recs[i - 1].key, recs[c2].key);
                        }
                    }
                }
            } else {
                assert(sorted_keys(recs.take(1)));
            }
            if off < min_off {
                min_off = off;
            }
            slots.push(m);
            i = i + 1;
            assert(slots@ =~= image_metas(b).take(i as int));
        }
        assert(slots@ =~= image_metas(b));
        assert(image_records(b).take(n as int) =~= image_records(b));
        let mut data = data;
        let mut z: usize = 0;
        while z < min_off
            invariant
                z <= min_off <= len,
                data@.len() == len,
                forall|k: int| 0 <= k < z ==> data@[k] == 0,
                forall|k: int| min_off <= k < len ==> data@[k] == b[k],
            decreases min_off - z,
        {
            data.set(z, 0);
            z = z + 1;
        }
        let page = SlottedPage { data, header, slots, heap_used: len - min_off };
        proof {
            assert forall|j: int| 0 <= j < n implies #[trigger] page.records()[j] == image_records(b)[j] && slot_in_heap(page.slots@[j], len as nat, page.heap_used as nat) by {
                assert(page.slots@[j] == image_meta(b, j));
                lemma_record_stable(b, page.data@, image_meta(b, j), min_off as int);
            }
            assert(page.records() =~= image_records(b));
        }
        Ok(page)
    }
    /// Whether storing `key` and `value` fits this page.
    pub fn fits(&self, key: &[u8], value: &[u8]) -> (r: bool)
        requires
            self.wf(),
        ensures
            r == (self.needed_for(key@, value@) <= self.capacity()),
    {
        let cap = self.data.len();
        if key.len() > cap || value.len() > cap {
            return false;
        }
        self.used_bytes() + KV_META_SIZE + key.len() + value.len() <= cap
    }
}

} // verus!
