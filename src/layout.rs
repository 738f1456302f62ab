use vstd::prelude::*;
use crate::error::QuarkError;

verus! {

/// Disk page size: the alignment target for direct I/O and the largest page.
pub const PAGE_SIZE: usize = 4096;

/// Size of the smallest mini-page (one cache-line multiple).
pub const MIN_PAGE_SIZE: usize = 64;

/// Encoded size of one entry metadata record.
pub const KV_META_SIZE: usize = 8;

/// Encoded size of the page header.
pub const NODE_META_SIZE: usize = 12;

/// Largest value of a 14-bit length field.
pub const MAX_LEN_FIELD: u16 = 16383;

/// Largest value of the 2-bit type field.
pub const MAX_KIND_FIELD: u8 = 3;

/// Largest value of the 48-bit leaf page identifier.
pub const MAX_LEAF_PAGE_ID: u64 = 0xFFFF_FFFF_FFFF;

/// Largest value of the 14 reserved header bits.
pub const MAX_RESERVED: u16 = 16383;

/// The fields of one entry metadata record, unpacked.
#[derive(Debug, Clone, Copy, PartialEq, Eq, Structural)]
pub struct EntryFields {
    pub key_len: u16,
    pub val_len: u16,
    pub offset: u16,
    pub kind: u8,
    pub fence: bool,
    pub ref_bit: bool,
    pub look_ahead: u16,
}

pub open spec fn entry_fields_fit(f: EntryFields) -> bool {
    &&& f.key_len <= MAX_LEN_FIELD
    &&& f.val_len <= MAX_LEN_FIELD
    &&& f.kind <= MAX_KIND_FIELD
}

pub open spec fn bit64(b: bool) -> u64 {
    if b { 1u64 } else { 0u64 }
}

/// Bit layout, most significant first: key_len(14) val_len(14) offset(16)
/// type(2) fence(1) ref(1) look_ahead(16).
pub open spec fn pack_entry(f: EntryFields) -> u64 {
    ((f.key_len as u64) << 50u64) | ((f.val_len as u64) << 36u64) | ((f.offset as u64) << 20u64)
        | ((f.kind as u64) << 18u64) | (bit64(f.fence) << 17u64) | (bit64(f.ref_bit) << 16u64)
        | (f.look_ahead as u64)
}

pub open spec fn unpack_entry(raw: u64) -> EntryFields {
    EntryFields {
        key_len: ((raw >> 50u64) & 0x3FFFu64) as u16,
        val_len: ((raw >> 36u64) & 0x3FFFu64) as u16,
        offset: ((raw >> 20u64) & 0xFFFFu64) as u16,
        kind: ((raw >> 18u64) & 3u64) as u8,
        fence: (raw >> 17u64) & 1u64 == 1u64,
        ref_bit: (raw >> 16u64) & 1u64 == 1u64,
        look_ahead: (raw & 0xFFFFu64) as u16,
    }
}

/// Big-endian bytes of a 64-bit word.
pub open spec fn be_bytes_u64(x: u64) -> Seq<u8> {
    seq![
        (x >> 56u64) as u8, (x >> 48u64) as u8, (x >> 40u64) as u8, (x >> 32u64) as u8,
        (x >> 24u64) as u8, (x >> 16u64) as u8, (x >> 8u64) as u8, x as u8,
    ]
}

pub open spec fn be_u64(b0: u8, b1: u8, b2: u8, b3: u8, b4: u8, b5: u8, b6: u8, b7: u8) -> u64 {
    ((b0 as u64) << 56u64) | ((b1 as u64) << 48u64) | ((b2 as u64) << 40u64) | ((b3 as u64) << 32u64)
        | ((b4 as u64) << 24u64) | ((b5 as u64) << 16u64) | ((b6 as u64) << 8u64) | (b7 as u64)
}

pub open spec fn u64_of_be_bytes(b: Seq<u8>) -> u64 {
    be_u64(b[0], b[1], b[2], b[3], b[4], b[5], b[6], b[7])
}

/// The 8 bytes that encode an entry metadata record.
pub open spec fn entry_bytes(f: EntryFields) -> Seq<u8> {
    be_bytes_u64(pack_entry(f))
}

/// The fields that 8 bytes of entry metadata decode to.
pub open spec fn entry_of_bytes(b: Seq<u8>) -> EntryFields {
    unpack_entry(u64_of_be_bytes(b))
}

pub proof fn lemma_unpack_pack_entry(f: EntryFields)
    requires
        entry_fields_fit(f),
    ensures
        unpack_entry(pack_entry(f)) == f,
{
    let k = f.key_len;
    let v = f.val_len;
    let o = f.offset;
    let t = f.kind;
    let fe = bit64(f.fence);
    let r = bit64(f.ref_bit);
    let la = f.look_ahead;
    let raw = pack_entry(f);
    assert(raw == ((k as u64) << 50u64) | ((v as u64) << 36u64) | ((o as u64) << 20u64)
        | ((t as u64) << 18u64) | (fe << 17u64) | (r << 16u64) | (la as u64));
    assert(((raw >> 50u64) & 0x3FFFu64) as u16 == k
        && ((raw >> 36u64) & 0x3FFFu64) as u16 == v
        && ((raw >> 20u64) & 0xFFFFu64) as u16 == o
        && ((raw >> 18u64) & 3u64) as u8 == t
        && (raw >> 17u64) & 1u64 == fe
        && (raw >> 16u64) & 1u64 == r
        && (raw & 0xFFFFu64) as u16 == la) by (bit_vector)
        requires
            k <= 16383u16,
            v <= 16383u16,
            t <= 3u8,
            fe <= 1u64,
            r <= 1u64,
            raw == ((k as u64) << 50u64) | ((v as u64) << 36u64) | ((o as u64) << 20u64)
                | ((t as u64) << 18u64) | (fe << 17u64) | (r << 16u64) | (la as u64),
    ;
}

pub proof fn lemma_be_u64_round_trip(x: u64)
    ensures
        u64_of_be_bytes(be_bytes_u64(x)) == x,
{
    let b = be_bytes_u64(x);
    assert(be_u64((x >> 56u64) as u8, (x >> 48u64) as u8, (x >> 40u64) as u8, (x >> 32u64) as u8,
        (x >> 24u64) as u8, (x >> 16u64) as u8, (x >> 8u64) as u8, x as u8) == x) by (bit_vector);
    assert(u64_of_be_bytes(b) == be_u64(b[0], b[1], b[2], b[3], b[4], b[5], b[6], b[7]));
}

/// Decoding the encoding of any entry record whose fields fit their bit widths
/// gives back the same fields.
pub proof fn entry_meta_round_trip(f: EntryFields)
    requires
        entry_fields_fit(f),
    ensures
        entry_of_bytes(entry_bytes(f)) == f,
{
    lemma_be_u64_round_trip(pack_entry(f));
    lemma_unpack_pack_entry(f);
}

fn push_be_u64(out: &mut Vec<u8>, x: u64)
    ensures
        final(out)@ == old(out)@ + be_bytes_u64(x),
{
    out.push((x >> 56u64) as u8);
    out.push((x >> 48u64) as u8);
    out.push((x >> 40u64) as u8);
    out.push((x >> 32u64) as u8);
    out.push((x >> 24u64) as u8);
    out.push((x >> 16u64) as u8);
    out.push((x >> 8u64) as u8);
    out.push(x as u8);
    assert(final(out)@ =~= old(out)@ + be_bytes_u64(x));
}

/// A packed entry metadata record, 64 bits wide.
#[derive(Debug, Clone, Copy, PartialEq, Eq, Structural)]
pub struct KVMeta {
    pub raw: u64,
}

impl KVMeta {
    pub open spec fn fields(self) -> EntryFields {
        unpack_entry(self.raw)
    }

    /// Packs the fields; fails when one does not fit its bit width.
    pub fn pack(f: &EntryFields) -> (r: Result<KVMeta, QuarkError>)
        ensures
            entry_fields_fit(*f) ==> r == Ok::<KVMeta, QuarkError>(KVMeta { raw: pack_entry(*f) }),
            !entry_fields_fit(*f) ==> r == Err::<KVMeta, QuarkError>(QuarkError::FieldOverflow),
    {
        if f.key_len > MAX_LEN_FIELD || f.val_len > MAX_LEN_FIELD || f.kind > MAX_KIND_FIELD {
            return Err(QuarkError::FieldOverflow);
        }
        let fence: u64 = if f.fence { 1 } else { 0 };
        let rb: u64 = if f.ref_bit { 1 } else { 0 };
        let raw = ((f.key_len as u64) << 50u64) | ((f.val_len as u64) << 36u64) | ((f.offset as u64) << 20u64)
            | ((f.kind as u64) << 18u64) | (fence << 17u64) | (rb << 16u64) | (f.look_ahead as u64);
        Ok(KVMeta { raw })
    }

    /// A normal record of the given lengths at the given offset, other fields zero.
    pub fn new(key_len: u16, val_len: u16, offset: u16) -> (r: Result<KVMeta, QuarkError>)
        ensures
            key_len <= MAX_LEN_FIELD && val_len <= MAX_LEN_FIELD ==> (r matches Ok(m) && m.fields() == (
            EntryFields {
                key_len,
                val_len,
                offset,
                kind: 0,
                fence: false,
                ref_bit: false,
                look_ahead: 0,
            })),
            !(key_len <= MAX_LEN_FIELD && val_len <= MAX_LEN_FIELD) ==> r == Err::<KVMeta, QuarkError>(
                QuarkError::FieldOverflow,
            ),
    {
        let f = EntryFields { key_len, val_len, offset, kind: 0, fence: false, ref_bit: false, look_ahead: 0 };
        proof {
            if entry_fields_fit(f) {
                lemma_unpack_pack_entry(f);
            }
        }
        KVMeta::pack(&f)
    }

    pub fn key_len(&self) -> (r: u16)
        ensures
            r == self.fields().key_len,
    {
        ((self.raw >> 50u64) & 0x3FFFu64) as u16
    }

    pub fn val_len(&self) -> (r: u16)
        ensures
            r == self.fields().val_len,
    {
        ((self.raw >> 36u64) & 0x3FFFu64) as u16
    }

    pub fn get_offset(&self) -> (r: usize)
        ensures
            r == self.fields().offset,
    {
        ((self.raw >> 20u64) & 0xFFFFu64) as u16 as usize
    }

    pub fn kind(&self) -> (r: u8)
        ensures
            r == self.fields().kind,
    {
        ((self.raw >> 18u64) & 3u64) as u8
    }

    /// The record's 8 bytes, most significant first.
    pub fn to_bytes(&self) -> (r: Vec<u8>)
        ensures
            r@ == be_bytes_u64(self.raw),
    {
        let mut out: Vec<u8> = Vec::new();
        push_be_u64(&mut out, self.raw);
        assert(out@ =~= be_bytes_u64(self.raw));
        out
    }

    /// The same record with its type field replaced.
    pub fn with_kind(&self, kind: u8) -> (r: KVMeta)
        requires
            kind <= MAX_KIND_FIELD,
        ensures
            r.fields() == (EntryFields { kind, ..self.fields() }),
    {
        let raw = (self.raw & 0xFFFF_FFFF_FFF3_FFFFu64) | ((kind as u64) << 18u64);
        let x = self.raw;
        assert(((raw >> 50u64) & 0x3FFFu64) == ((x >> 50u64) & 0x3FFFu64)
            && ((raw >> 36u64) & 0x3FFFu64) == ((x >> 36u64) & 0x3FFFu64)
            && ((raw >> 20u64) & 0xFFFFu64) == ((x >> 20u64) & 0xFFFFu64)
            && ((raw >> 18u64) & 3u64) as u8 == kind
            && (raw >> 17u64) & 1u64 == (x >> 17u64) & 1u64
            && (raw >> 16u64) & 1u64 == (x >> 16u64) & 1u64
            && (raw & 0xFFFFu64) == (x & 0xFFFFu64)) by (bit_vector)
            requires
                kind <= 3u8,
                raw == (x & 0xFFFF_FFFF_FFF3_FFFFu64) | ((kind as u64) << 18u64),
        ;
        KVMeta { raw }
    }

    /// Unpacks every field.
    pub fn unpack(&self) -> (r: EntryFields)
        ensures
            r == self.fields(),
    {
        EntryFields {
            key_len: self.key_len(),
            val_len: self.val_len(),
            offset: self.get_offset() as u16,
            kind: self.kind(),
            fence: (self.raw >> 17u64) & 1u64 == 1u64,
            ref_bit: (self.raw >> 16u64) & 1u64 == 1u64,
            look_ahead: (self.raw & 0xFFFFu64) as u16,
        }
    }
}

/// Encodes an entry metadata record into its 8 bytes.
pub fn encode_entry_meta(f: &EntryFields) -> (r: Result<Vec<u8>, QuarkError>)
    ensures
        entry_fields_fit(*f) ==> (r matches Ok(b) && b@ == entry_bytes(*f)),
        !entry_fields_fit(*f) ==> r == Err::<Vec<u8>, QuarkError>(QuarkError::FieldOverflow),
{
    match KVMeta::pack(f) {
        Ok(m) => {
            let mut out: Vec<u8> = Vec::new();
            push_be_u64(&mut out, m.raw);
            assert(out@ =~= entry_bytes(*f));
            Ok(out)
        },
        Err(e) => Err(e),
    }
}

/// Decodes 8 bytes of entry metadata.
pub fn decode_entry_meta(b: &[u8]) -> (r: EntryFields)
    requires
        b@.len() == KV_META_SIZE,
    ensures
        r == entry_of_bytes(b@),
{
    let raw = ((b[0] as u64) << 56u64) | ((b[1] as u64) << 48u64) | ((b[2] as u64) << 40u64) | ((b[3] as u64) << 32u64)
        | ((b[4] as u64) << 24u64) | ((b[5] as u64) << 16u64) | ((b[6] as u64) << 8u64) | (b[7] as u64);
    KVMeta { raw }.unpack()
}

/// The page header, unpacked.
#[derive(Debug, Clone, Copy, PartialEq, Eq, Structural)]
pub struct NodeMeta {
    pub size: u16,
    pub is_mini_page: bool,
    pub split: bool,
    pub record_count: u16,
    /// 48 bits wide on the page.
    pub leaf_page_id: u64,
    /// The 14 unassigned bits, kept verbatim.
    pub reserved: u16,
}

pub open spec fn node_fields_fit(h: NodeMeta) -> bool {
    &&& h.leaf_page_id <= MAX_LEAF_PAGE_ID
    &&& h.reserved <= MAX_RESERVED
}

pub open spec fn bit128(b: bool) -> u128 {
    if b { 1u128 } else { 0u128 }
}

/// Bit layout of the 96-bit header, most significant first: size(16) type(1)
/// split(1) record_count(16) leaf_page_id(48) reserved(14).
pub open spec fn pack_node(h: NodeMeta) -> u128 {
    ((h.size as u128) << 80u128) | (bit128(h.is_mini_page) << 79u128) | (bit128(h.split) << 78u128)
        | ((h.record_count as u128) << 62u128) | ((h.leaf_page_id as u128) << 14u128) | (h.reserved as u128)
}

pub open spec fn unpack_node(x: u128) -> NodeMeta {
    NodeMeta {
        size: ((x >> 80u128) & 0xFFFFu128) as u16,
        is_mini_page: (x >> 79u128) & 1u128 == 1u128,
        split: (x >> 78u128) & 1u128 == 1u128,
        record_count: ((x >> 62u128) & 0xFFFFu128) as u16,
        leaf_page_id: ((x >> 14u128) & 0xFFFF_FFFF_FFFFu128) as u64,
        reserved: (x & 0x3FFFu128) as u16,
    }
}

/// Big-endian bytes of the low 96 bits of a word.
pub open spec fn be_bytes_u96(x: u128) -> Seq<u8> {
    seq![
        (x >> 88u128) as u8, (x >> 80u128) as u8, (x >> 72u128) as u8, (x >> 64u128) as u8,
        (x >> 56u128) as u8, (x >> 48u128) as u8, (x >> 40u128) as u8, (x >> 32u128) as u8,
        (x >> 24u128) as u8, (x >> 16u128) as u8, (x >> 8u128) as u8, x as u8,
    ]
}

pub open spec fn be_u96(
    b0: u8, b1: u8, b2: u8, b3: u8, b4: u8, b5: u8, b6: u8, b7: u8, b8: u8, b9: u8, b10: u8, b11: u8,
) -> u128 {
    ((b0 as u128) << 88u128) | ((b1 as u128) << 80u128) | ((b2 as u128) << 72u128) | ((b3 as u128) << 64u128)
        | ((b4 as u128) << 56u128) | ((b5 as u128) << 48u128) | ((b6 as u128) << 40u128) | ((b7 as u128) << 32u128)
        | ((b8 as u128) << 24u128) | ((b9 as u128) << 16u128) | ((b10 as u128) << 8u128) | (b11 as u128)
}

pub open spec fn u96_of_be_bytes(b: Seq<u8>) -> u128 {
    be_u96(b[0], b[1], b[2], b[3], b[4], b[5], b[6], b[7], b[8], b[9], b[10], b[11])
}

/// The 12 bytes that encode a page header.
pub open spec fn node_bytes(h: NodeMeta) -> Seq<u8> {
    be_bytes_u96(pack_node(h))
}

/// The header that 12 bytes decode to.
pub open spec fn node_of_bytes(b: Seq<u8>) -> NodeMeta {
    unpack_node(u96_of_be_bytes(b))
}

proof fn lemma_unpack_pack_node(h: NodeMeta)
    requires
        node_fields_fit(h),
    ensures
        unpack_node(pack_node(h)) == h,
        pack_node(h) >> 96u128 == 0,
{
    let s = h.size;
    let t = bit128(h.is_mini_page);
    let sp = bit128(h.split);
    let c = h.record_count;
    let id = h.leaf_page_id;
    let res = h.reserved;
    let x = pack_node(h);
    assert(((x >> 80u128) & 0xFFFFu128) as u16 == s
        && (x >> 79u128) & 1u128 == t
        && (x >> 78u128) & 1u128 == sp
        && ((x >> 62u128) & 0xFFFFu128) as u16 == c
        && ((x >> 14u128) & 0xFFFF_FFFF_FFFFu128) as u64 == id
        && (x & 0x3FFFu128) as u16 == res
        && x >> 96u128 == 0) by (bit_vector)
        requires
            t <= 1u128,
            sp <= 1u128,
            id <= 0xFFFF_FFFF_FFFFu64,
            res <= 16383u16,
            x == ((s as u128) << 80u128) | (t << 79u128) | (sp << 78u128) | ((c as u128) << 62u128)
                | ((id as u128) << 14u128) | (res as u128),
    ;
}

proof fn lemma_be_u96_round_trip(x: u128)
    requires
        x >> 96u128 == 0,
    ensures
        u96_of_be_bytes(be_bytes_u96(x)) == x,
{
    let b = be_bytes_u96(x);
    assert(be_u96((x >> 88u128) as u8, (x >> 80u128) as u8, (x >> 72u128) as u8, (x >> 64u128) as u8,
        (x >> 56u128) as u8, (x >> 48u128) as u8, (x >> 40u128) as u8, (x >> 32u128) as u8,
        (x >> 24u128) as u8, (x >> 16u128) as u8, (x >> 8u128) as u8, x as u8) == x) by (bit_vector)
        requires
            x >> 96u128 == 0,
    ;
    assert(u96_of_be_bytes(b) == be_u96(b[0], b[1], b[2], b[3], b[4], b[5], b[6], b[7], b[8], b[9], b[10], b[11]));
}

/// Decoding the encoding of any header whose fields fit their bit widths gives
/// back the same header, reserved bits included.
pub proof fn node_meta_round_trip(h: NodeMeta)
    requires
        node_fields_fit(h),
    ensures
        node_of_bytes(node_bytes(h)) == h,
{
    lemma_unpack_pack_node(h);
    lemma_be_u96_round_trip(pack_node(h));
}

impl NodeMeta {
    pub open spec fn new_spec(size: u16, is_mini_page: bool) -> NodeMeta {
        NodeMeta { size, is_mini_page, split: false, record_count: 0, leaf_page_id: 0, reserved: 0 }
    }

    /// A zeroed header for a fresh page of the given size.
    pub fn new(size: u16, is_mini_page: bool) -> (r: NodeMeta)
        ensures
            r == NodeMeta::new_spec(size, is_mini_page),
    {
        NodeMeta { size, is_mini_page, split: false, record_count: 0, leaf_page_id: 0, reserved: 0 }
    }

    /// Encodes the header into its 12 bytes.
    pub fn encode(&self) -> (r: Result<Vec<u8>, QuarkError>)
        ensures
            node_fields_fit(*self) ==> (r matches Ok(b) && b@ == node_bytes(*self)),
            !node_fields_fit(*self) ==> r == Err::<Vec<u8>, QuarkError>(QuarkError::FieldOverflow),
    {
        if self.leaf_page_id > MAX_LEAF_PAGE_ID || self.reserved > MAX_RESERVED {
            return Err(QuarkError::FieldOverflow);
        }
        let t: u128 = if self.is_mini_page { 1 } else { 0 };
        let sp: u128 = if self.split { 1 } else { 0 };
        let x = ((self.size as u128) << 80u128) | (t << 79u128) | (sp << 78u128)
            | ((self.record_count as u128) << 62u128) | ((self.leaf_page_id as u128) << 14u128)
            | (self.reserved as u128);
        let mut out: Vec<u8> = Vec::new();
        out.push((x >> 88u128) as u8);
        out.push((x >> 80u128) as u8);
        out.push((x >> 72u128) as u8);
        out.push((x >> 64u128) as u8);
        out.push((x >> 56u128) as u8);
        out.push((x >> 48u128) as u8);
        out.push((x >> 40u128) as u8);
        out.push((x >> 32u128) as u8);
        out.push((x >> 24u128) as u8);
        out.push((x >> 16u128) as u8);
        out.push((x >> 8u128) as u8);
        out.push(x as u8);
        assert(out@ =~= node_bytes(*self));
        Ok(out)
    }

    /// Decodes 12 bytes of page header.
    pub fn decode(b: &[u8]) -> (r: NodeMeta)
        requires
            b@.len() == NODE_META_SIZE,
        ensures
            r == node_of_bytes(b@),
    {
        let x = ((b[0] as u128) << 88u128) | ((b[1] as u128) << 80u128) | ((b[2] as u128) << 72u128)
            | ((b[3] as u128) << 64u128) | ((b[4] as u128) << 56u128) | ((b[5] as u128) << 48u128)
            | ((b[6] as u128) << 40u128) | ((b[7] as u128) << 32u128) | ((b[8] as u128) << 24u128)
            | ((b[9] as u128) << 16u128) | ((b[10] as u128) << 8u128) | (b[11] as u128);
        NodeMeta {
            size: ((x >> 80u128) & 0xFFFFu128) as u16,
            is_mini_page: (x >> 79u128) & 1u128 == 1u128,
            split: (x >> 78u128) & 1u128 == 1u128,
            record_count: ((x >> 62u128) & 0xFFFFu128) as u16,
            leaf_page_id: ((x >> 14u128) & 0xFFFF_FFFF_FFFFu128) as u64,
            reserved: (x & 0x3FFFu128) as u16,
        }
    }
}

} // verus!
