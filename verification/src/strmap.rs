//! A small map keyed by strings: a list of entries where the first entry for
//! a key is the one that counts. Used for the link-resolution tables
//! (element ids, aid offsets, filepos anchors, resources).

use vstd::prelude::*;

verus! {

/// The value of the first entry of `e` whose key is `k`.
pub open spec fn lookup_in<V>(e: Seq<(String, V)>, k: Seq<char>) -> Option<V>
    decreases e.len(),
{
    if e.len() == 0 {
        None
    } else if e[0].0@ == k {
        Some(e[0].1)
    } else {
        lookup_in(e.drop_first(), k)
    }
}

/// Entries before the first one with key `k` do not matter for `k`.
pub proof fn lemma_lookup_skip<V>(e: Seq<(String, V)>, k: Seq<char>, i: int)
    requires
        0 <= i <= e.len(),
        forall|j: int| 0 <= j < i ==> (#[trigger] e[j]).0@ != k,
    ensures
        lookup_in(e, k) == lookup_in(e.skip(i), k),
    decreases i,
{
    if i > 0 {
        assert(e.drop_first().skip(i - 1) == e.skip(i));
        assert forall|j: int| 0 <= j < i - 1 implies (#[trigger] e.drop_first()[j]).0@ != k by {
            assert(e.drop_first()[j] == e[j + 1]);
        }
        lemma_lookup_skip(e.drop_first(), k, i - 1);
    } else {
        assert(e.skip(0) == e);
    }
}

/// Looking up in an updated list.
pub proof fn lemma_lookup_update<V>(e: Seq<(String, V)>, i: int, x: (String, V), k: Seq<char>)
    requires
        0 <= i < e.len(),
        e[i].0@ == x.0@,
        forall|j: int| 0 <= j < i ==> (#[trigger] e[j]).0@ != x.0@,
    ensures
        lookup_in(e.update(i, x), k) == if k == x.0@ {
            Some(x.1)
        } else {
            lookup_in(e, k)
        },
    decreases i,
{
    if i > 0 {
        assert(e.update(i, x).drop_first() == e.drop_first().update(i - 1, x));
        assert forall|j: int| 0 <= j < i - 1 implies (#[trigger] e.drop_first()[j]).0@ != x.0@ by {
            assert(e.drop_first()[j] == e[j + 1]);
        }
        lemma_lookup_update(e.drop_first(), i - 1, x, k);
        assert(e.update(i, x)[0] == e[0]);
    } else {
        assert(e.update(i, x).drop_first() == e.drop_first());
    }
}

/// Looking up in an extended list.
pub proof fn lemma_lookup_push<V>(e: Seq<(String, V)>, x: (String, V), k: Seq<char>)
    ensures
        lookup_in(e.push(x), k) == match lookup_in(e, k) {
            Some(v) => Some(v),
            None => if x.0@ == k {
                Some(x.1)
            } else {
                None
            },
        },
    decreases e.len(),
{
    if e.len() > 0 {
        assert(e.push(x).drop_first() == e.drop_first().push(x));
        assert(e.push(x)[0] == e[0]);
        lemma_lookup_push(e.drop_first(), x, k);
    } else {
        assert(e.push(x).drop_first() == Seq::<(String, V)>::empty());
        assert(e.push(x)[0] == x);
        assert(lookup_in(Seq::<(String, V)>::empty(), k) is None);
    }
}

/// With distinct keys, the entry of a key is the one found for it.
pub proof fn lemma_lookup_at<V>(m: StrMap<V>, i: int)
    requires
        m.keys_distinct(),
        0 <= i < m.entries@.len(),
    ensures
        m.lookup(m.entries@[i].0@) == Some(m.entries@[i].1),
{
    let e = m.entries@;
    let k = e[i].0@;
    assert forall|j: int| 0 <= j < i implies (#[trigger] e[j]).0@ != k by {
        assert(e[j].0@ != e[i].0@);
    }
    lemma_lookup_skip(e, k, i);
    assert(e.skip(i)[0] == e[i]);
}

/// A key that is found belongs to some entry.
pub proof fn lemma_lookup_some<V>(e: Seq<(String, V)>, k: Seq<char>)
    requires
        lookup_in(e, k) is Some,
    ensures
        exists|i: int| 0 <= i < e.len() && (#[trigger] e[i]).0@ == k && lookup_in(e, k) == Some(e[i].1),
    decreases e.len(),
{
    if e[0].0@ != k {
        lemma_lookup_some(e.drop_first(), k);
        let i = choose|i: int| 0 <= i < e.drop_first().len() && (#[trigger] e.drop_first()[i]).0@ == k && lookup_in(e.drop_first(), k) == Some(e.drop_first()[i].1);
        assert(e[i + 1] == e.drop_first()[i]);
    } else {
        assert(e[0].0@ == k);
    }
}

/// A map from strings to values.
pub struct StrMap<V> {
    pub entries: Vec<(String, V)>,
}

impl<V> StrMap<V> {
    /// The value for key `k`.
    pub open spec fn lookup(self, k: Seq<char>) -> Option<V> {
        lookup_in(self.entries@, k)
    }

    /// No key occurs in two entries.
    pub open spec fn keys_distinct(self) -> bool {
        forall|i: int, j: int|
            0 <= i < j < self.entries@.len() ==> (#[trigger] self.entries@[i]).0@ != (#[trigger] self.entries@[j]).0@
    }

    /// An empty map.
    pub fn new() -> (r: Self)
        ensures
            forall|k: Seq<char>| #[trigger] r.lookup(k) is None,
            r.entries@.len() == 0,
    {
        StrMap { entries: Vec::new() }
    }

    /// Set the value for `key`.
    pub fn insert(&mut self, key: String, value: V)
        ensures
            forall|k: Seq<char>|
                #[trigger] final(self).lookup(k) == if k == key@ {
                    Some(value)
                } else {
                    old(self).lookup(k)
                },
            old(self).keys_distinct() ==> final(self).keys_distinct(),
            forall|j: int|
                0 <= j < final(self).entries@.len() ==> (#[trigger] final(self).entries@[j]).0@ == key@ || (j
                    < old(self).entries@.len() && final(self).entries@[j] == old(self).entries@[j]),
    {
        let mut i: usize = 0;
        while i < self.entries.len()
            invariant
                0 <= i <= self.entries@.len(),
                self.entries@ == old(self).entries@,
                forall|j: int| 0 <= j < i ==> (#[trigger] self.entries@[j]).0@ != key@,
            decreases self.entries@.len() - i,
        {
            if self.entries[i].0 == key {
                let ghost e = self.entries@;
                let ghost x = (key, value);
                proof {
                    assert forall|k: Seq<char>| #[trigger] lookup_in(e.update(i as int, x), k) == if k == x.0@ {
                        Some(x.1)
                    } else {
                        lookup_in(e, k)
                    } by {
                        lemma_lookup_update(e, i as int, x, k);
                    }
                }
                self.entries.set(i, (key, value));
                proof {
                    assert(self.entries@ == e.update(i as int, x));
                }
                return;
            }
            i = i + 1;
        }
        let ghost e = self.entries@;
        let ghost x = (key, value);
        proof {
            assert forall|k: Seq<char>| #[trigger] lookup_in(e.push(x), k) == if k == x.0@ {
                Some(x.1)
            } else {
                lookup_in(e, k)
            } by {
                lemma_lookup_push(e, x, k);
                if k == x.0@ {
                    lemma_lookup_skip(e, k, e.len() as int);
                    assert(e.skip(e.len() as int) == Seq::<(String, V)>::empty());
                }
            }
        }
        self.entries.push((key, value));
        proof {
            assert(self.entries@ == e.push(x));
        }
    }

    /// The value for `key`, if any.
    pub fn get(&self, key: &str) -> (r: Option<&V>)
        ensures
            match self.lookup(key@) {
                Some(v) => r == Some(&v),
                None => r is None,
            },
    {
        let k = key.to_owned();
        let mut i: usize = 0;
        while i < self.entries.len()
            invariant
                0 <= i <= self.entries@.len(),
                k@ == key@,
                forall|j: int| 0 <= j < i ==> (#[trigger] self.entries@[j]).0@ != key@,
            decreases self.entries@.len() - i,
        {
            if self.entries[i].0 == k {
                proof {
                    lemma_lookup_skip(self.entries@, key@, i as int);
                }
                return Some(&self.entries[i].1);
            }
            i = i + 1;
        }
        proof {
            lemma_lookup_skip(self.entries@, key@, i as int);
        }
        None
    }
}


/// The value of the first entry of `e` whose key pair is `(k1, k2)`.
pub open spec fn lookup_pair_in<V>(e: Seq<(String, String, V)>, k1: Seq<char>, k2: Seq<char>) -> Option<V>
    decreases e.len(),
{
    if e.len() == 0 {
        None
    } else if e[0].0@ == k1 && e[0].1@ == k2 {
        Some(e[0].2)
    } else {
        lookup_pair_in(e.drop_first(), k1, k2)
    }
}

pub proof fn lemma_lookup_pair_skip<V>(e: Seq<(String, String, V)>, k1: Seq<char>, k2: Seq<char>, i: int)
    requires
        0 <= i <= e.len(),
        forall|j: int| 0 <= j < i ==> !((#[trigger] e[j]).0@ == k1 && e[j].1@ == k2),
    ensures
        lookup_pair_in(e, k1, k2) == lookup_pair_in(e.skip(i), k1, k2),
    decreases i,
{
    if i > 0 {
        assert(e.drop_first().skip(i - 1) == e.skip(i));
        assert forall|j: int| 0 <= j < i - 1 implies !((#[trigger] e.drop_first()[j]).0@ == k1 && e.drop_first()[j].1@ == k2) by {
            assert(e.drop_first()[j] == e[j + 1]);
        }
        lemma_lookup_pair_skip(e.drop_first(), k1, k2, i - 1);
    } else {
        assert(e.skip(0) == e);
    }
}

pub proof fn lemma_lookup_pair_update<V>(e: Seq<(String, String, V)>, i: int, x: (String, String, V), k1: Seq<char>, k2: Seq<char>)
    requires
        0 <= i < e.len(),
        e[i].0@ == x.0@ && e[i].1@ == x.1@,
        forall|j: int| 0 <= j < i ==> !((#[trigger] e[j]).0@ == x.0@ && e[j].1@ == x.1@),
    ensures
        lookup_pair_in(e.update(i, x), k1, k2) == if k1 == x.0@ && k2 == x.1@ {
            Some(x.2)
        } else {
            lookup_pair_in(e, k1, k2)
        },
    decreases i,
{
    if i > 0 {
        assert(e.update(i, x).drop_first() == e.drop_first().update(i - 1, x));
        assert forall|j: int| 0 <= j < i - 1 implies !((#[trigger] e.drop_first()[j]).0@ == x.0@ && e.drop_first()[j].1@ == x.1@) by {
            assert(e.drop_first()[j] == e[j + 1]);
        }
        lemma_lookup_pair_update(e.drop_first(), i - 1, x, k1, k2);
        assert(e.update(i, x)[0] == e[0]);
    } else {
        assert(e.update(i, x).drop_first() == e.drop_first());
    }
}

pub proof fn lemma_lookup_pair_push<V>(e: Seq<(String, String, V)>, x: (String, String, V), k1: Seq<char>, k2: Seq<char>)
    ensures
        lookup_pair_in(e.push(x), k1, k2) == match lookup_pair_in(e, k1, k2) {
            Some(v) => Some(v),
            None => if x.0@ == k1 && x.1@ == k2 {
                Some(x.2)
            } else {
                None
            },
        },
    decreases e.len(),
{
    if e.len() > 0 {
        assert(e.push(x).drop_first() == e.drop_first().push(x));
        assert(e.push(x)[0] == e[0]);
        lemma_lookup_pair_push(e.drop_first(), x, k1, k2);
    } else {
        assert(e.push(x).drop_first() == Seq::<(String, String, V)>::empty());
        assert(e.push(x)[0] == x);
        assert(lookup_pair_in(Seq::<(String, String, V)>::empty(), k1, k2) is None);
    }
}

/// A map keyed by pairs of strings (a file and a fragment id).
pub struct PairMap<V> {
    pub entries: Vec<(String, String, V)>,
}

impl<V> PairMap<V> {
    /// The value for the key pair `(k1, k2)`.
    pub open spec fn lookup(self, k1: Seq<char>, k2: Seq<char>) -> Option<V> {
        lookup_pair_in(self.entries@, k1, k2)
    }

    /// An empty map.
    pub fn new() -> (r: Self)
        ensures
            forall|k1: Seq<char>, k2: Seq<char>| #[trigger] r.lookup(k1, k2) is None,
    {
        PairMap { entries: Vec::new() }
    }

    /// Set the value for the key pair `(k1, k2)`.
    pub fn insert(&mut self, k1: String, k2: String, value: V)
        ensures
            forall|a: Seq<char>, b: Seq<char>|
                #[trigger] final(self).lookup(a, b) == if a == k1@ && b == k2@ {
                    Some(value)
                } else {
                    old(self).lookup(a, b)
                },
    {
        let mut i: usize = 0;
        while i < self.entries.len()
            invariant
                0 <= i <= self.entries@.len(),
                self.entries@ == old(self).entries@,
                forall|j: int| 0 <= j < i ==> !((#[trigger] self.entries@[j]).0@ == k1@ && self.entries@[j].1@ == k2@),
            decreases self.entries@.len() - i,
        {
            if self.entries[i].0 == k1 && self.entries[i].1 == k2 {
                let ghost e = self.entries@;
                let ghost x = (k1, k2, value);
                proof {
                    assert forall|a: Seq<char>, b: Seq<char>| #[trigger] lookup_pair_in(e.update(i as int, x), a, b) == if a == x.0@ && b == x.1@ {
                        Some(x.2)
                    } else {
                        lookup_pair_in(e, a, b)
                    } by {
                        lemma_lookup_pair_update(e, i as int, x, a, b);
                    }
                }
                self.entries.set(i, (k1, k2, value));
                return;
            }
            i = i + 1;
        }
        let ghost e = self.entries@;
        let ghost x = (k1, k2, value);
        proof {
            assert forall|a: Seq<char>, b: Seq<char>| #[trigger] lookup_pair_in(e.push(x), a, b) == if a == x.0@ && b == x.1@ {
                Some(x.2)
            } else {
                lookup_pair_in(e, a, b)
            } by {
                lemma_lookup_pair_push(e, x, a, b);
                if a == x.0@ && b == x.1@ {
                    lemma_lookup_pair_skip(e, a, b, e.len() as int);
                    assert(e.skip(e.len() as int) == Seq::<(String, String, V)>::empty());
                }
            }
        }
        self.entries.push((k1, k2, value));
    }

    /// The value for the key pair `(k1, k2)`, if any.
    pub fn get(&self, k1: &str, k2: &str) -> (r: Option<&V>)
        ensures
            match self.lookup(k1@, k2@) {
                Some(v) => r == Some(&v),
                None => r is None,
            },
    {
        let a = k1.to_owned();
        let b = k2.to_owned();
        let mut i: usize = 0;
        while i < self.entries.len()
            invariant
                0 <= i <= self.entries@.len(),
                a@ == k1@,
                b@ == k2@,
                forall|j: int| 0 <= j < i ==> !((#[trigger] self.entries@[j]).0@ == k1@ && self.entries@[j].1@ == k2@),
            decreases self.entries@.len() - i,
        {
            if self.entries[i].0 == a && self.entries[i].1 == b {
                proof {
                    lemma_lookup_pair_skip(self.entries@, k1@, k2@, i as int);
                }
                return Some(&self.entries[i].2);
            }
            i = i + 1;
        }
        proof {
            lemma_lookup_pair_skip(self.entries@, k1@, k2@, i as int);
        }
        None
    }
}

} // verus!
