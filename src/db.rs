use std::collections::BTreeMap;
use vstd::prelude::*;

verus! {

/// Keys are distinct.
pub open spec fn keys_unique(s: Seq<(String, String)>) -> bool {
    forall|i: int, j: int| 0 <= i < s.len() && 0 <= j < s.len() && i != j ==> (#[trigger] s[i]).0@ != (#[trigger] s[j]).0@
}

/// The mapping that a list of entries stands for.
pub open spec fn map_of(s: Seq<(String, String)>) -> Map<Seq<char>, Seq<char>>
    decreases s.len(),
{
    if s.len() == 0 {
        Map::empty()
    } else {
        map_of(s.drop_last()).insert(s.last().0@, s.last().1@)
    }
}

proof fn lemma_map_of_contains(s: Seq<(String, String)>, k: Seq<char>)
    ensures
        map_of(s).contains_key(k) <==> exists|i: int| 0 <= i < s.len() && (#[trigger] s[i]).0@ == k,
    decreases s.len(),
{
    if s.len() > 0 {
        lemma_map_of_contains(s.drop_last(), k);
        if map_of(s.drop_last()).contains_key(k) {
            let i = choose|i: int| 0 <= i < s.drop_last().len() && (#[trigger] s.drop_last()[i]).0@ == k;
            assert(s[i] == s.drop_last()[i]);
        }
        if exists|i: int| 0 <= i < s.len() && (#[trigger] s[i]).0@ == k {
            let i = choose|i: int| 0 <= i < s.len() && (#[trigger] s[i]).0@ == k;
            if i < s.len() - 1 {
                assert(s.drop_last()[i] == s[i]);
            }
        }
    }
}

proof fn lemma_map_of_value(s: Seq<(String, String)>, i: int)
    requires
        keys_unique(s),
        0 <= i < s.len(),
    ensures
        map_of(s).contains_key(s[i].0@),
        map_of(s)[s[i].0@] == s[i].1@,
    decreases s.len(),
{
    if i < s.len() - 1 {
        assert(s.drop_last()[i] == s[i]);
        assert(keys_unique(s.drop_last())) by {
            assert forall|a: int, b: int| 0 <= a < s.len() - 1 && 0 <= b < s.len() - 1 && a != b implies (#[trigger] s.drop_last()[a]).0@ != (#[trigger] s.drop_last()[b]).0@ by {
                assert(s.drop_last()[a] == s[a]);
                assert(s.drop_last()[b] == s[b]);
            }
        }
        lemma_map_of_value(s.drop_last(), i);
        assert(s[s.len() - 1].0@ != s[i].0@);
    }
}

proof fn lemma_map_of_len(s: Seq<(String, String)>)
    requires
        keys_unique(s),
    ensures
        map_of(s).dom().finite(),
        map_of(s).dom().len() == s.len(),
    decreases s.len(),
{
    if s.len() > 0 {
        let t = s.drop_last();
        assert(keys_unique(t)) by {
            assert forall|a: int, b: int| 0 <= a < t.len() && 0 <= b < t.len() && a != b implies (#[trigger] t[a]).0@ != (#[trigger] t[b]).0@ by {
                assert(t[a] == s[a]);
                assert(t[b] == s[b]);
            }
        }
        lemma_map_of_len(t);
        lemma_map_of_contains(t, s.last().0@);
        if map_of(t).contains_key(s.last().0@) {
            let i = choose|i: int| 0 <= i < t.len() && (#[trigger] t[i]).0@ == s.last().0@;
            assert(t[i] == s[i]);
        }
    }
}

/// The mapping that key/value pairs give when stored in order, later pairs
/// replacing earlier ones of the same key.
pub open spec fn map_of_pairs(s: Seq<(Seq<char>, Seq<char>)>) -> Map<Seq<char>, Seq<char>>
    decreases s.len(),
{
    if s.len() == 0 {
        Map::empty()
    } else {
        map_of_pairs(s.drop_last()).insert(s.last().0, s.last().1)
    }
}

pub open spec fn pair_views(v: Seq<(String, String)>) -> Seq<(Seq<char>, Seq<char>)> {
    v.map_values(|p: (String, String)| (p.0@, p.1@))
}

/// The JSON text that serde_json writes for a string-to-string mapping.
pub uninterp spec fn json_text_of(m: Map<Seq<char>, Seq<char>>) -> Seq<char>;

/// The members that serde_json reads from a text holding a JSON object of
/// strings, in key order; none when the text is not one.
pub uninterp spec fn json_members_of(text: Seq<char>) -> Option<Seq<(Seq<char>, Seq<char>)>>;

/// Relies on serde_json::to_string over a BTreeMap built from the entries
/// (later entries replace earlier ones of the same key): the object's members
/// follow key order, so the text depends on the mapping alone. Writing string
/// keys and values cannot fail.
#[verifier::external_body]
fn json_encode(entries: &Vec<(String, String)>) -> (r: String)
    ensures
        r@ == json_text_of(map_of(entries@)),
{
    let m: BTreeMap<String, String> = entries.iter().cloned().collect();
    match serde_json::to_string(&m) {
        Ok(text) => text,
        Err(_) => String::new(),
    }
}

/// Relies on serde_json::from_str into a BTreeMap<String, String>: it succeeds
/// on a JSON object of string members, whose members then come out in key order.
#[verifier::external_body]
fn json_decode(text: &str) -> (r: Option<Vec<(String, String)>>)
    ensures
        r is None <==> json_members_of(text@) is None,
        r matches Some(v) ==> json_members_of(text@) == Some(pair_views(v@)),
{
    match serde_json::from_str::<BTreeMap<String, String>>(text) {
        Ok(m) => Some(m.into_iter().collect()),
        Err(_) => None,
    }
}

/// An in-memory map from string keys to string values.
pub struct CacheDB {
    store: Vec<(String, String)>,
}

impl View for CacheDB {
    type V = Map<Seq<char>, Seq<char>>;

    closed spec fn view(&self) -> Self::V {
        map_of(self.store@)
    }
}

impl CacheDB {
    pub closed spec fn wf(&self) -> bool {
        keys_unique(self.store@)
    }

    /// An empty map.
    pub fn new() -> (r: CacheDB)
        ensures
            r.wf(),
            r@ == Map::<Seq<char>, Seq<char>>::empty(),
    {
        CacheDB { store: Vec::new() }
    }

    fn position(&self, key: &String) -> (r: Option<usize>)
        requires
            self.wf(),
        ensures
            r matches Some(i) ==> i < self.store@.len() && self.store@[i as int].0@ == key@,
            r is None ==> forall|i: int| 0 <= i < self.store@.len() ==> (#[trigger] self.store@[i]).0@ != key@,
    {
        let mut i: usize = 0;
        while i < self.store.len()
            invariant
                i <= self.store@.len(),
                forall|j: int| 0 <= j < i ==> (#[trigger] self.store@[j]).0@ != key@,
            decreases self.store@.len() - i,
        {
            if self.store[i].0 == *key {
                return Some(i);
            }
            i = i + 1;
        }
        None
    }

    /// Stores `value` under `key`, replacing any earlier value.
    pub fn put(&mut self, key: String, value: String)
        requires
            old(self).wf(),
        ensures
            final(self).wf(),
            final(self)@ == old(self)@.insert(key@, value@),
            final(self)@.dom().finite(),
            final(self)@.len() == if old(self)@.contains_key(key@) { old(self)@.len() } else { old(self)@.len() + 1 },
    {
        let ghost s = self.store@;
        proof {
            lemma_map_of_len(s);
            lemma_map_of_contains(s, key@);
        }
        let ghost k = key@;
        let ghost v = value@;
        match self.position(&key) {
            Some(i) => {
                self.store.set(i, (key, value));
                proof {
                    let t = self.store@;
                    assert(keys_unique(t)) by {
                        assert forall|a: int, b: int| 0 <= a < t.len() && 0 <= b < t.len() && a != b implies (#[trigger] t[a]).0@ != (#[trigger] t[b]).0@ by {
                            assert(s[i as int].0@ == k);
                            if a != i && b != i {
                                assert(t[a] == s[a] && t[b] == s[b]);
                            } else if a == i {
                                assert(t[b] == s[b]);
                                assert(s[a].0@ != s[b].0@);
                            } else {
                                assert(t[a] == s[a]);
                                assert(s[a].0@ != s[b].0@);
                            }
                        }
                    }
                    assert forall|x: Seq<char>| #[trigger] map_of(t).contains_key(x) <==> map_of(s).insert(k, v).contains_key(x) by {
                        lemma_map_of_contains(t, x);
                        lemma_map_of_contains(s, x);
                        if x != k {
                            if exists|j: int| 0 <= j < s.len() && (#[trigger] s[j]).0@ == x {
                                let j = choose|j: int| 0 <= j < s.len() && (#[trigger] s[j]).0@ == x;
                                assert(t[j] == s[j]);
                            }
                            if exists|j: int| 0 <= j < t.len() && (#[trigger] t[j]).0@ == x {
                                let j = choose|j: int| 0 <= j < t.len() && (#[trigger] t[j]).0@ == x;
                                assert(t[j] == s[j]);
                            }
                        } else {
                            assert(t[i as int].0@ == k);
                        }
                    }
                    assert forall|x: Seq<char>| #[trigger] map_of(t).contains_key(x) implies map_of(t)[x] == map_of(s).insert(k, v)[x] by {
                        lemma_map_of_contains(t, x);
                        let j = choose|j: int| 0 <= j < t.len() && (#[trigger] t[j]).0@ == x;
                        lemma_map_of_value(t, j);
                        if j != i {
                            assert(t[j] == s[j]);
                            lemma_map_of_value(s, j);
                        }
                    }
                    assert(map_of(t) =~= map_of(s).insert(k, v));
                    lemma_map_of_len(t);
                }
            },
            None => {
                self.store.push((key, value));
                proof {
                    let t = self.store@;
                    assert(t.drop_last() =~= s);
                    assert forall|a: int, b: int| 0 <= a < t.len() && 0 <= b < t.len() && a != b implies (#[trigger] t[a]).0@ != (#[trigger] t[b]).0@ by {
                        if a < s.len() && b < s.len() {
                            assert(t[a] == s[a] && t[b] == s[b]);
                        } else if a < s.len() {
                            assert(t[a] == s[a]);
                        } else {
                            assert(t[b] == s[b]);
                        }
                    }
                    lemma_map_of_len(t);
                }
            },
        }
    }

    /// The value stored under `key`.
    pub fn get(&self, key: &str) -> (r: Option<&String>)
        requires
            self.wf(),
        ensures
            r is Some <==> self@.contains_key(key@),
            r matches Some(v) ==> v@ == self@[key@],
    {
        let k = key.to_owned();
        proof {
            lemma_map_of_contains(self.store@, key@);
        }
        match self.position(&k) {
            Some(i) => {
                proof {
                    lemma_map_of_value(self.store@, i as int);
                }
                Some(&self.store[i].1)
            },
            None => None,
        }
    }

    /// Removes `key`; returns whether it was present.
    pub fn delete(&mut self, key: &str) -> (r: bool)
        requires
            old(self).wf(),
        ensures
            final(self).wf(),
            r == old(self)@.contains_key(key@),
            final(self)@ == old(self)@.remove(key@),
            final(self)@.dom().finite(),
            final(self)@.len() == if r { old(self)@.len() - 1 } else { old(self)@.len() as int },
    {
        let ghost s = self.store@;
        proof {
            lemma_map_of_len(s);
        }
        let k = key.to_owned();
        proof {
            lemma_map_of_contains(s, key@);
        }
        match self.position(&k) {
            Some(i) => {
                self.store.remove(i);
                proof {
                    let t = self.store@;
                    assert(t =~= s.remove(i as int));
                    assert forall|a: int, b: int| 0 <= a < t.len() && 0 <= b < t.len() && a != b implies (#[trigger] t[a]).0@ != (#[trigger] t[b]).0@ by {
                        let sa = if a < i { a } else { a + 1 };
                        let sb = if b < i { b } else { b + 1 };
                        assert(t[a] == s[sa] && t[b] == s[sb]);
                    }
                    assert forall|x: Seq<char>| #[trigger] map_of(t).contains_key(x) <==> map_of(s).remove(key@).contains_key(x) by {
                        lemma_map_of_contains(t, x);
                        lemma_map_of_contains(s, x);
                        if exists|j: int| 0 <= j < s.len() && (#[trigger] s[j]).0@ == x {
                            let j = choose|j: int| 0 <= j < s.len() && (#[trigger] s[j]).0@ == x;
                            if j < i {
                                assert(t[j] == s[j]);
                            } else if j > i {
                                assert(t[j - 1] == s[j]);
                            }
                        }
                        if exists|j: int| 0 <= j < t.len() && (#[trigger] t[j]).0@ == x {
                            let j = choose|j: int| 0 <= j < t.len() && (#[trigger] t[j]).0@ == x;
                            let sj = if j < i { j } else { j + 1 };
                            assert(t[j] == s[sj]);
                        }
                    }
                    assert forall|x: Seq<char>| #[trigger] map_of(t).contains_key(x) implies map_of(t)[x] == map_of(s).remove(key@)[x] by {
                        lemma_map_of_contains(t, x);
                        let j = choose|j: int| 0 <= j < t.len() && (#[trigger] t[j]).0@ == x;
                        lemma_map_of_value(t, j);
                        let sj = if j < i { j } else { j + 1 };
                        assert(t[j] == s[sj]);
                        lemma_map_of_value(s, sj);
                    }
                    assert(map_of(t) =~= map_of(s).remove(key@));
                    lemma_map_of_len(t);
                }
                true
            },
            None => {
                assert(map_of(s).remove(key@) =~= map_of(s));
                false
            },
        }
    }

    /// Number of keys stored.
    pub fn size(&self) -> (r: usize)
        requires
            self.wf(),
        ensures
            r == self@.len(),
            self@.dom().finite(),
    {
        proof {
            lemma_map_of_len(self.store@);
        }
        self.store.len()
    }
    /// A map holding the given pairs, stored in order.
    pub fn from_entries(entries: Vec<(String, String)>) -> (r: CacheDB)
        ensures
            r.wf(),
            r@ == map_of_pairs(pair_views(entries@)),
    {
        let ghost pv = pair_views(entries@);
        let mut db = CacheDB::new();
        let mut i: usize = 0;
        while i < entries.len()
            invariant
                pv == pair_views(entries@),
                i <= entries@.len(),
                db.wf(),
                db@ == map_of_pairs(pv.take(i as int)),
            decreases entries@.len() - i,
        {
            assert(pv.take(i + 1).drop_last() =~= pv.take(i as int));
            let k = entries[i].0.clone();
            let v = entries[i].1.clone();
            db.put(k, v);
            i = i + 1;
        }
        assert(pv.take(i as int) =~= pv);
        db
    }

    /// The mapping as JSON text.
    pub fn to_json(&self) -> (r: String)
        ensures
            r@ == json_text_of(self@),
    {
        json_encode(&self.store)
    }

    /// The map that JSON text holds, if it is an object of string members.
    pub fn from_json(text: &str) -> (r: Option<CacheDB>)
        ensures
            r is None <==> json_members_of(text@) is None,
            r matches Some(db) ==> db.wf() && (json_members_of(text@) matches Some(p) && db@ == map_of_pairs(p)),
    {
        match json_decode(text) {
            Some(entries) => Some(CacheDB::from_entries(entries)),
            None => None,
        }
    }
}

} // verus!
