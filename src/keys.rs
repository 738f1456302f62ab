use vstd::prelude::*;

verus! {

/// Strict lexicographic order on byte strings; a proper prefix comes first.
pub open spec fn key_lt(a: Seq<u8>, b: Seq<u8>) -> bool
    decreases a.len(),
{
    if a.len() == 0 {
        b.len() > 0
    } else if b.len() == 0 {
        false
    } else if a[0] != b[0] {
        a[0] < b[0]
    } else {
        key_lt(a.drop_first(), b.drop_first())
    }
}

pub proof fn lemma_key_lt_irreflexive(a: Seq<u8>)
    ensures
        !key_lt(a, a),
    decreases a.len(),
{
    if a.len() > 0 {
        lemma_key_lt_irreflexive(a.drop_first());
    }
}

pub proof fn lemma_key_lt_total(a: Seq<u8>, b: Seq<u8>)
    ensures
        a == b || key_lt(a, b) || key_lt(b, a),
        !(key_lt(a, b) && key_lt(b, a)),
    decreases a.len(),
{
    if a.len() > 0 && b.len() > 0 && a[0] == b[0] {
        lemma_key_lt_total(a.drop_first(), b.drop_first());
        if a.drop_first() == b.drop_first() {
            assert(a =~= seq![a[0]] + a.drop_first());
            assert(b =~= seq![b[0]] + b.drop_first());
        }
    } else if a.len() == 0 && b.len() == 0 {
        assert(a =~= b);
    }
}

pub proof fn lemma_key_lt_transitive(a: Seq<u8>, b: Seq<u8>, c: Seq<u8>)
    requires
        key_lt(a, b),
        key_lt(b, c),
    ensures
        key_lt(a, c),
    decreases a.len(),
{
    if a.len() > 0 && b.len() > 0 && c.len() > 0 && a[0] == b[0] && b[0] == c[0] {
        lemma_key_lt_transitive(a.drop_first(), b.drop_first(), c.drop_first());
    }
}

/// `a < b <= c` gives `a < c`.
pub proof fn lemma_key_lt_le(a: Seq<u8>, b: Seq<u8>, c: Seq<u8>)
    requires
        key_lt(a, b),
        !key_lt(c, b),
    ensures
        key_lt(a, c),
{
    lemma_key_lt_total(b, c);
    if b != c {
        lemma_key_lt_transitive(a, b, c);
    }
}

/// `a <= b < c` gives `a < c`.
pub proof fn lemma_key_le_lt(a: Seq<u8>, b: Seq<u8>, c: Seq<u8>)
    requires
        !key_lt(b, a),
        key_lt(b, c),
    ensures
        key_lt(a, c),
{
    lemma_key_lt_total(a, b);
    if a != b {
        lemma_key_lt_transitive(a, b, c);
    }
}

/// `a <= b <= c` gives `a <= c`.
pub proof fn lemma_key_le_transitive(a: Seq<u8>, b: Seq<u8>, c: Seq<u8>)
    requires
        !key_lt(b, a),
        !key_lt(c, b),
    ensures
        !key_lt(c, a),
{
    if key_lt(c, a) {
        lemma_key_lt_le(c, a, b);
    }
}

/// Three-way comparison of `page[start..start + len]` with `key`:
/// negative, zero or positive as the stored key is smaller, equal or larger.
pub fn compare_stored_key(page: &Vec<u8>, start: usize, len: usize, key: &[u8]) -> (r: i8)
    requires
        start + len <= page@.len(),
    ensures
        r < 0 <==> key_lt(page@.subrange(start as int, start + len), key@),
        r == 0 <==> page@.subrange(start as int, start + len) == key@,
        r > 0 <==> key_lt(key@, page@.subrange(start as int, start + len)),
{
    let ghost a = page@.subrange(start as int, start + len);
    let ghost b = key@;
    proof {
        lemma_key_lt_total(a, b);
        lemma_key_lt_irreflexive(a);
        assert(a.skip(0) =~= a);
        assert(b.skip(0) =~= b);
        assert(a.subrange(0, 0) =~= b.subrange(0, 0));
    }
    let n = page.len();
    let mut i: usize = 0;
    while i < len && i < key.len()
        invariant
            start + len <= page@.len(),
            n == page@.len(),
            a == page@.subrange(start as int, start + len),
            b == key@,
            i <= len,
            i <= key@.len(),
            a.subrange(0, i as int) == b.subrange(0, i as int),
            key_lt(a, b) == key_lt(a.skip(i as int), b.skip(i as int)),
            key_lt(b, a) == key_lt(b.skip(i as int), a.skip(i as int)),
        decreases len - i,
    {
        let x = page[start + i];
        let y = key[i];
        if x < y {
            return -1;
        }
        if x > y {
            return 1;
        }
        assert(a.skip(i as int).drop_first() =~= a.skip(i + 1));
        assert(b.skip(i as int).drop_first() =~= b.skip(i + 1));
        assert(a.subrange(0, i + 1) =~= a.subrange(0, i as int).push(x));
        assert(b.subrange(0, i + 1) =~= b.subrange(0, i as int).push(y));
        i = i + 1;
    }
    if i < key.len() {
        return -1;
    }
    if i < len {
        return 1;
    }
    assert(a =~= a.subrange(0, i as int));
    assert(b =~= b.subrange(0, i as int));
    0
}

} // verus!
