//! Records keyed by URI: a sequence of `(key, value)` pairs in which no key
//! occurs twice, with lookup, replacement in place and removal.
use vstd::prelude::*;
use crate::text::text_eq;

verus! {

/// No key occurs twice.
pub open spec fn distinct_keys<V>(e: Seq<(Seq<char>, V)>) -> bool {
    forall|a: int, b: int| 0 <= a < e.len() && 0 <= b < e.len() && a != b ==> e[a].0 != e[b].0
}

/// Index of the record with key `k`, searching from `from`.
pub open spec fn find_key<V>(e: Seq<(Seq<char>, V)>, k: Seq<char>, from: int) -> Option<int>
    decreases e.len() - from,
{
    if from < 0 || from >= e.len() {
        None
    } else if e[from].0 == k {
        Some(from)
    } else {
        find_key(e, k, from + 1)
    }
}

/// The value recorded for `k`.
pub open spec fn value_of<V>(e: Seq<(Seq<char>, V)>, k: Seq<char>) -> Option<V> {
    match find_key(e, k, 0) {
        Some(i) => Some(e[i].1),
        None => None,
    }
}

/// Records `v` for `k`, replacing an earlier record in place.
pub open spec fn put<V>(e: Seq<(Seq<char>, V)>, k: Seq<char>, v: V) -> Seq<(Seq<char>, V)> {
    match find_key(e, k, 0) {
        Some(i) => e.update(i, (k, v)),
        None => e.push((k, v)),
    }
}

/// The records after putting each of `items` in turn.
pub open spec fn put_all<V>(e: Seq<(Seq<char>, V)>, items: Seq<(Seq<char>, V)>) -> Seq<(Seq<char>, V)>
    decreases items.len(),
{
    if items.len() == 0 {
        e
    } else {
        let before = put_all(e, items.drop_last());
        put(before, items.last().0, items.last().1)
    }
}

/// Forgets the record for `k`.
pub open spec fn drop_key<V>(e: Seq<(Seq<char>, V)>, k: Seq<char>) -> Seq<(Seq<char>, V)> {
    match find_key(e, k, 0) {
        Some(i) => e.remove(i),
        None => e,
    }
}

pub proof fn lemma_find_key<V>(e: Seq<(Seq<char>, V)>, k: Seq<char>, from: int)
    requires
        0 <= from,
    ensures
        find_key(e, k, from) matches Some(i) ==> from <= i < e.len() && e[i].0 == k && forall|j: int|
            from <= j < i ==> e[j].0 != k,
        find_key(e, k, from) is None ==> forall|j: int| from <= j < e.len() ==> e[j].0 != k,
    decreases e.len() - from,
{
    if from < e.len() && e[from].0 != k {
        lemma_find_key(e, k, from + 1);
    }
}

/// In records with distinct keys, the record with key `k` is found wherever it is.
pub proof fn lemma_find_key_at<V>(e: Seq<(Seq<char>, V)>, k: Seq<char>, i: int)
    requires
        distinct_keys(e),
        0 <= i < e.len(),
        e[i].0 == k,
    ensures
        find_key(e, k, 0) == Some(i),
{
    lemma_find_key(e, k, 0);
}

/// A read after a write gives back what was written, and a write leaves the
/// other keys as they were; keys stay distinct.
pub proof fn lemma_put<V>(e: Seq<(Seq<char>, V)>, k: Seq<char>, v: V, other: Seq<char>)
    requires
        distinct_keys(e),
    ensures
        distinct_keys(put(e, k, v)),
        value_of(put(e, k, v), k) == Some(v),
        other != k ==> value_of(put(e, k, v), other) == value_of(e, other),
{
    lemma_find_key(e, k, 0);
    lemma_find_key(e, other, 0);
    let p = put(e, k, v);
    assert(distinct_keys(p));
    lemma_find_key(p, k, 0);
    lemma_find_key(p, other, 0);
    match find_key(e, k, 0) {
        Some(i) => {
            assert(p[i].0 == k);
            lemma_find_key_at(p, k, i);
            if other != k {
                match find_key(e, other, 0) {
                    Some(j) => {
                        assert(p[j] == e[j]);
                        lemma_find_key_at(p, other, j);
                    },
                    None => {
                        assert forall|j: int| 0 <= j < p.len() implies p[j].0 != other by {
                            if j != i {
                                assert(p[j] == e[j]);
                            }
                        }
                    },
                }
            }
        },
        None => {
            lemma_find_key_at(p, k, e.len() as int);
            if other != k {
                match find_key(e, other, 0) {
                    Some(j) => {
                        assert(p[j] == e[j]);
                        lemma_find_key_at(p, other, j);
                    },
                    None => {
                        assert forall|j: int| 0 <= j < p.len() implies p[j].0 != other by {
                            if j < e.len() {
                                assert(p[j] == e[j]);
                            }
                        }
                    },
                }
            }
        },
    }
}

/// After removal nothing is recorded for the key, the other keys keep their
/// values, and keys stay distinct.
pub proof fn lemma_drop_key<V>(e: Seq<(Seq<char>, V)>, k: Seq<char>, other: Seq<char>)
    requires
        distinct_keys(e),
    ensures
        distinct_keys(drop_key(e, k)),
        value_of(drop_key(e, k), k) is None,
        other != k ==> value_of(drop_key(e, k), other) == value_of(e, other),
{
    lemma_find_key(e, k, 0);
    lemma_find_key(e, other, 0);
    let d = drop_key(e, k);
    match find_key(e, k, 0) {
        Some(i) => {
            assert forall|a: int, b: int| 0 <= a < d.len() && 0 <= b < d.len() && a != b implies d[a].0
                != d[b].0 by {
                let a2 = if a < i { a } else { a + 1 };
                let b2 = if b < i { b } else { b + 1 };
                assert(d[a] == e[a2]);
                assert(d[b] == e[b2]);
            }
            assert forall|j: int| 0 <= j < d.len() implies d[j].0 != k by {
                let j2 = if j < i { j } else { j + 1 };
                assert(d[j] == e[j2]);
            }
            lemma_find_key(d, k, 0);
            if other != k {
                lemma_find_key(d, other, 0);
                match find_key(e, other, 0) {
                    Some(j) => {
                        let j2 = if j < i { j } else { j - 1 };
                        assert(d[j2] == e[j]);
                        lemma_find_key_at(d, other, j2);
                    },
                    None => {
                        assert forall|j: int| 0 <= j < d.len() implies d[j].0 != other by {
                            let j2 = if j < i { j } else { j + 1 };
                            assert(d[j] == e[j2]);
                        }
                    },
                }
            }
        },
        None => {},
    }
}

pub open spec fn record_views<V>(e: Seq<(String, V)>) -> Seq<(Seq<char>, V)> {
    e.map_values(|p: (String, V)| (p.0@, p.1))
}

/// Values keyed by URI text; a key occurs at most once.
pub struct UriMap<V> {
    entries: Vec<(String, V)>,
}

impl<V> View for UriMap<V> {
    type V = Seq<(Seq<char>, V)>;

    closed spec fn view(&self) -> Seq<(Seq<char>, V)> {
        record_views(self.entries@)
    }
}

impl<V> UriMap<V> {
    #[verifier::type_invariant]
    spec fn inv(self) -> bool {
        distinct_keys(record_views(self.entries@))
    }

    pub fn new() -> (r: UriMap<V>)
        ensures
            r@ == Seq::<(Seq<char>, V)>::empty(),
            distinct_keys(r@),
    {
        let r = UriMap { entries: Vec::new() };
        assert(r@ =~= Seq::<(Seq<char>, V)>::empty());
        r
    }

    pub fn len(&self) -> (r: usize)
        ensures
            r == self@.len(),
    {
        self.entries.len()
    }

    /// The `i`-th record.
    pub fn entry(&self, i: usize) -> (r: (&String, &V))
        requires
            i < self@.len(),
        ensures
            r.0@ == self@[i as int].0,
            *r.1 == self@[i as int].1,
    {
        let e = &self.entries[i];
        (&e.0, &e.1)
    }

    fn position_of(&self, key: &str) -> (r: Option<usize>)
        ensures
            r matches Some(i) ==> find_key(self@, key@, 0) == Some(i as int) && i < self.entries@.len(),
            r is None ==> find_key(self@, key@, 0) is None,
            self@.len() == self.entries@.len(),
    {
        let mut i: usize = 0;
        while i < self.entries.len()
            invariant
                i <= self.entries@.len(),
                self@.len() == self.entries@.len(),
                find_key(self@, key@, i as int) == find_key(self@, key@, 0),
            decreases self.entries@.len() - i,
        {
            assert(self@[i as int].0 == self.entries@[i as int].0@);
            if text_eq(self.entries[i].0.as_str(), key) {
                return Some(i);
            }
            i = i + 1;
        }
        None
    }

    /// The value recorded for `key`.
    pub fn get(&self, key: &str) -> (r: Option<&V>)
        ensures
            r matches Some(v) ==> value_of(self@, key@) == Some(*v),
            r is None ==> value_of(self@, key@) is None,
    {
        match self.position_of(key) {
            Some(i) => Some(&self.entries[i].1),
            None => None,
        }
    }

    pub fn contains_key(&self, key: &str) -> (r: bool)
        ensures
            r == value_of(self@, key@) is Some,
    {
        self.position_of(key).is_some()
    }

    /// Records `value` for `key`, replacing an earlier record in place.
    pub fn insert(&mut self, key: String, value: V)
        ensures
            final(self)@ == put(old(self)@, key@, value),
            distinct_keys(final(self)@),
    {
        proof {
            use_type_invariant(&*self);
        }
        let ghost before = self@;
        let ghost k = key@;
        let ghost v = value;
        let mut entries: Vec<(String, V)> = Vec::new();
        match self.position_of(key.as_str()) {
            Some(i) => {
                std::mem::swap(&mut entries, &mut self.entries);
                entries.set(i, (key, value));
                assert(record_views(entries@) =~= before.update(i as int, (k, v)));
            },
            None => {
                std::mem::swap(&mut entries, &mut self.entries);
                entries.push((key, value));
                assert(record_views(entries@) =~= before.push((k, v)));
            },
        }
        proof {
            lemma_put(before, k, v, k);
        }
        self.entries = entries;
    }

    /// Forgets the record for `key`, handing back its value.
    pub fn remove(&mut self, key: &str) -> (r: Option<V>)
        ensures
            final(self)@ == drop_key(old(self)@, key@),
            r == value_of(old(self)@, key@),
            distinct_keys(final(self)@),
    {
        proof {
            use_type_invariant(&*self);
        }
        let ghost before = self@;
        match self.position_of(key) {
            Some(i) => {
                let mut entries: Vec<(String, V)> = Vec::new();
                std::mem::swap(&mut entries, &mut self.entries);
                let (_, value) = entries.remove(i);
                assert(record_views(entries@) =~= before.remove(i as int));
                proof {
                    lemma_drop_key(before, key@, key@);
                }
                self.entries = entries;
                Some(value)
            },
            None => {
                proof {
                    lemma_drop_key(before, key@, key@);
                }
                None
            },
        }
    }

    /// Keys are distinct.
    pub fn keys_distinct(&self) -> (r: bool)
        ensures
            r,
            distinct_keys(self@),
    {
        proof {
            use_type_invariant(self);
        }
        true
    }
}

} // verus!
