use vstd::prelude::*;

verus! {

/// Encoded size of an entry header in the log file.
pub const ENTRY_HEADER_SIZE: usize = 8;

/// The header that precedes every key and value in the append-only log.
#[derive(Debug, Clone, Copy, PartialEq, Eq, Structural)]
pub struct EntryHeader {
    pub key_len: u32,
    pub value_len: u32,
}

/// Little-endian bytes of a 32-bit integer.
pub open spec fn le_bytes_u32(x: u32) -> Seq<u8> {
    seq![x as u8, (x >> 8u32) as u8, (x >> 16u32) as u8, (x >> 24u32) as u8]
}

/// The 8 bytes of an entry header: key length, then value length.
pub open spec fn entry_header_bytes(h: EntryHeader) -> Seq<u8> {
    le_bytes_u32(h.key_len) + le_bytes_u32(h.value_len)
}

/// One log record: header, key bytes, value bytes.
pub open spec fn record_bytes(key: Seq<u8>, value: Seq<u8>) -> Seq<u8> {
    entry_header_bytes(EntryHeader { key_len: key.len() as u32, value_len: value.len() as u32 }) + key + value
}

/// Relies on bincode::serialize with its default fixed-width little-endian
/// integers: a pair of u32 becomes the 4 bytes of each, in order. Integers
/// always serialise.
#[verifier::external_body]
fn bincode_encode_pair(a: u32, b: u32) -> (r: Vec<u8>)
    ensures
        r@ == le_bytes_u32(a) + le_bytes_u32(b),
{
    match bincode::serialize(&(a, b)) {
        Ok(bytes) => bytes,
        Err(_) => Vec::new(),
    }
}

/// Relies on bincode::deserialize with its default fixed-width little-endian
/// integers and trailing bytes allowed: it reads a pair of u32 from the first
/// 8 bytes, and fails when there are fewer.
#[verifier::external_body]
fn bincode_decode_pair(bytes: &[u8]) -> (r: Option<(u32, u32)>)
    ensures
        r is None <==> bytes@.len() < 8,
        r matches Some(p) ==> bytes@.subrange(0, 8) == le_bytes_u32(p.0) + le_bytes_u32(p.1),
{
    bincode::deserialize::<(u32, u32)>(bytes).ok()
}

/// The header that the 8 bytes at `at` of `log` encode.
pub open spec fn header_at(log: Seq<u8>, at: int) -> EntryHeader {
    let b = log.subrange(at, at + 8);
    EntryHeader {
        key_len: (b[0] as u32) | ((b[1] as u32) << 8u32) | ((b[2] as u32) << 16u32) | ((b[3] as u32) << 24u32),
        value_len: (b[4] as u32) | ((b[5] as u32) << 8u32) | ((b[6] as u32) << 16u32) | ((b[7] as u32) << 24u32),
    }
}

proof fn lemma_le_u32(x: u32)
    ensures
        (x as u8 as u32) | (((x >> 8u32) as u8 as u32) << 8u32) | (((x >> 16u32) as u8 as u32) << 16u32)
            | (((x >> 24u32) as u8 as u32) << 24u32) == x,
{
    assert((x as u8 as u32) | (((x >> 8u32) as u8 as u32) << 8u32) | (((x >> 16u32) as u8 as u32) << 16u32)
        | (((x >> 24u32) as u8 as u32) << 24u32) == x) by (bit_vector);
}

impl EntryHeader {
    /// The header's 8 bytes.
    pub fn encode(&self) -> (r: Vec<u8>)
        ensures
            r@ == entry_header_bytes(*self),
    {
        bincode_encode_pair(self.key_len, self.value_len)
    }

    /// The header at the front of `bytes`, if there are at least 8.
    pub fn decode(bytes: &[u8]) -> (r: Option<EntryHeader>)
        ensures
            r is None <==> bytes@.len() < ENTRY_HEADER_SIZE,
            r matches Some(h) ==> bytes@.subrange(0, 8) == entry_header_bytes(h),
    {
        match bincode_decode_pair(bytes) {
            Some((key_len, value_len)) => Some(EntryHeader { key_len, value_len }),
            None => None,
        }
    }

    /// Bytes of the record that follows the header.
    pub fn body_len(&self) -> (r: u64)
        ensures
            r == self.key_len + self.value_len,
    {
        self.key_len as u64 + self.value_len as u64
    }
}

/// The log record for `key` and `value`; none when a length exceeds 32 bits.
pub fn encode_record(key: &[u8], value: &[u8]) -> (r: Option<Vec<u8>>)
    ensures
        r is None <==> key@.len() > u32::MAX || value@.len() > u32::MAX,
        r matches Some(b) ==> b@ == record_bytes(key@, value@),
{
    if key.len() > u32::MAX as usize || value.len() > u32::MAX as usize {
        return None;
    }
    let header = EntryHeader { key_len: key.len() as u32, value_len: value.len() as u32 };
    let mut out = header.encode();
    let ghost start = out@;
    let mut i: usize = 0;
    while i < key.len()
        invariant
            i <= key@.len(),
            out@ == start + key@.subrange(0, i as int),
        decreases key@.len() - i,
    {
        out.push(key[i]);
        i = i + 1;
        assert(out@ =~= start + key@.subrange(0, i as int));
    }
    assert(key@.subrange(0, key@.len() as int) =~= key@);
    let ghost mid = out@;
    let mut j: usize = 0;
    while j < value.len()
        invariant
            j <= value@.len(),
            out@ == mid + value@.subrange(0, j as int),
        decreases value@.len() - j,
    {
        out.push(value[j]);
        j = j + 1;
        assert(out@ =~= mid + value@.subrange(0, j as int));
    }
    assert(value@.subrange(0, value@.len() as int) =~= value@);
    Some(out)
}

/// When a complete record starts at `at` in `log`: its header and the offset
/// where the next record starts. None at the end of the log or before a
/// record cut short.
pub fn next_record(log: &[u8], at: usize) -> (r: Option<(EntryHeader, usize)>)
    ensures
        r is None <==> !(at + ENTRY_HEADER_SIZE <= log@.len() && ({
            let h = header_at(log@, at as int);
            at + ENTRY_HEADER_SIZE + h.key_len + h.value_len <= log@.len()
        })),
        r matches Some(p) ==> p.0 == header_at(log@, at as int) && p.1 == at + ENTRY_HEADER_SIZE + p.0.key_len
            + p.0.value_len,
{
    if at > log.len() || log.len() - at < ENTRY_HEADER_SIZE {
        return None;
    }
    let rest = vstd::slice::slice_subrange(log, at, log.len());
    let h = match EntryHeader::decode(rest) {
        Some(h) => h,
        None => {
            return None;
        },
    };
    proof {
        assert(rest@.subrange(0, 8) =~= log@.subrange(at as int, at + 8));
        let b = log@.subrange(at as int, at + 8);
        assert(b == entry_header_bytes(h));
        assert(b[0] == h.key_len as u8 && b[1] == (h.key_len >> 8u32) as u8 && b[2] == (h.key_len >> 16u32) as u8
            && b[3] == (h.key_len >> 24u32) as u8);
        assert(b[4] == h.value_len as u8 && b[5] == (h.value_len >> 8u32) as u8 && b[6] == (h.value_len >> 16u32) as u8
            && b[7] == (h.value_len >> 24u32) as u8);
        lemma_le_u32(h.key_len);
        lemma_le_u32(h.value_len);
    }
    let body = h.body_len();
    if body > (log.len() - at - ENTRY_HEADER_SIZE) as u64 {
        return None;
    }
    Some((h, at + ENTRY_HEADER_SIZE + body as usize))
}

} // verus!
