//! An insertion-ordered table from byte-string keys to byte-string values.
//!
//! It stands in for the hash maps holding routes, content-type overrides
//! and request headers: at most one entry per key, and inserting an
//! existing key overwrites its value in place.
use vstd::prelude::*;
use crate::text::bytes_eq;

verus! {

#[derive(Debug)]
pub struct ByteMap {
    entries: Vec<(Vec<u8>, Vec<u8>)>,
}

impl View for ByteMap {
    type V = Seq<(Seq<u8>, Seq<u8>)>;

    closed spec fn view(&self) -> Seq<(Seq<u8>, Seq<u8>)> {
        Seq::new(self.entries@.len(), |i: int| (self.entries@[i].0@, self.entries@[i].1@))
    }
}

/// Value bound to `k`, scanning from the front.
pub open spec fn assoc_get(es: Seq<(Seq<u8>, Seq<u8>)>, k: Seq<u8>) -> Option<Seq<u8>>
    decreases es.len(),
{
    if es.len() == 0 {
        None
    } else if es[0].0 == k {
        Some(es[0].1)
    } else {
        assoc_get(es.drop_first(), k)
    }
}

pub open spec fn assoc_has(es: Seq<(Seq<u8>, Seq<u8>)>, k: Seq<u8>) -> bool {
    assoc_get(es, k) is Some
}

/// Position of the first entry whose key is `k`.
pub open spec fn assoc_index(es: Seq<(Seq<u8>, Seq<u8>)>, k: Seq<u8>) -> int
    decreases es.len(),
{
    if es.len() == 0 {
        0
    } else if es[0].0 == k {
        0
    } else {
        1 + assoc_index(es.drop_first(), k)
    }
}

/// The entry list after binding `k` to `v`: overwritten in place if
/// `k` is present, appended otherwise.
pub open spec fn assoc_insert(es: Seq<(Seq<u8>, Seq<u8>)>, k: Seq<u8>, v: Seq<u8>) -> Seq<
    (Seq<u8>, Seq<u8>),
> {
    if assoc_has(es, k) {
        es.update(assoc_index(es, k), (k, v))
    } else {
        es.push((k, v))
    }
}

pub open spec fn distinct_keys(es: Seq<(Seq<u8>, Seq<u8>)>) -> bool {
    forall|i: int, j: int| 0 <= i < j < es.len() ==> es[i].0 != es[j].0
}

/// What `assoc_get` returns: the entry at `assoc_index`, which is the
/// first whose key is `k`; `None` exactly when no entry has key `k`.
pub proof fn lemma_assoc(es: Seq<(Seq<u8>, Seq<u8>)>, k: Seq<u8>)
    ensures
        match assoc_get(es, k) {
            Some(v) => {
                let i = assoc_index(es, k);
                0 <= i < es.len() && es[i].0 == k && es[i].1 == v && forall|j: int|
                    0 <= j < i ==> es[j].0 != k
            },
            None => forall|j: int| 0 <= j < es.len() ==> es[j].0 != k,
        },
    decreases es.len(),
{
    if es.len() > 0 && es[0].0 != k {
        let t = es.drop_first();
        lemma_assoc(t, k);
        assert(forall|j: int| 1 <= j < es.len() ==> es[j] == t[j - 1]);
    }
}

/// The first matching position determines `assoc_index` and `assoc_get`.
pub proof fn lemma_assoc_index_of(es: Seq<(Seq<u8>, Seq<u8>)>, k: Seq<u8>, i: int)
    requires
        0 <= i < es.len(),
        es[i].0 == k,
        forall|j: int| 0 <= j < i ==> es[j].0 != k,
    ensures
        assoc_index(es, k) == i,
        assoc_get(es, k) == Some(es[i].1),
    decreases es.len(),
{
    if i > 0 {
        let t = es.drop_first();
        assert(forall|j: int| 1 <= j < es.len() ==> es[j] == t[j - 1]);
        assert(es[0].0 != k);
        lemma_assoc_index_of(t, k, i - 1);
    }
}

impl ByteMap {
    pub open spec fn wf(&self) -> bool {
        distinct_keys(self@)
    }

    pub fn new() -> (r: ByteMap)
        ensures
            r@ == Seq::<(Seq<u8>, Seq<u8>)>::empty(),
            r.wf(),
    {
        let r = ByteMap { entries: Vec::new() };
        proof {
            assert(r@ =~= Seq::<(Seq<u8>, Seq<u8>)>::empty());
        }
        r
    }

    pub fn len(&self) -> (r: usize)
        ensures
            r == self@.len(),
    {
        self.entries.len()
    }

    pub fn key_at(&self, i: usize) -> (r: &Vec<u8>)
        requires
            i < self@.len(),
        ensures
            r@ == self@[i as int].0,
    {
        &self.entries[i].0
    }

    pub fn val_at(&self, i: usize) -> (r: &Vec<u8>)
        requires
            i < self@.len(),
        ensures
            r@ == self@[i as int].1,
    {
        &self.entries[i].1
    }

    /// Value bound to `k`, if any.
    pub fn get(&self, k: &[u8]) -> (r: Option<&Vec<u8>>)
        ensures
            match r {
                Some(v) => assoc_get(self@, k@) == Some(v@),
                None => assoc_get(self@, k@) is None,
            },
    {
        proof {
            lemma_assoc(self@, k@);
        }
        let mut i: usize = 0;
        while i < self.entries.len()
            invariant
                i <= self@.len(),
                self@.len() == self.entries@.len(),
                forall|j: int| 0 <= j < i ==> self@[j].0 != k@,
                match assoc_get(self@, k@) {
                    Some(v) => {
                        let n = assoc_index(self@, k@);
                        0 <= n < self@.len() && self@[n].0 == k@ && self@[n].1 == v && forall|
                            j: int,
                        |
                            0 <= j < n ==> self@[j].0 != k@
                    },
                    None => forall|j: int| 0 <= j < self@.len() ==> self@[j].0 != k@,
                },
            decreases self@.len() - i,
        {
            if bytes_eq(self.entries[i].0.as_slice(), k) {
                proof {
                    assert(self@[i as int].0 == k@);
                    if assoc_get(self@, k@) is None {
                        assert(false);
                    }
                }
                return Some(&self.entries[i].1);
            }
            i += 1;
        }
        proof {
            if assoc_get(self@, k@) is Some {
                let n = assoc_index(self@, k@);
                assert(self@[n].0 != k@);
            }
        }
        None
    }

    /// Whether `k` is bound.
    pub fn contains_key(&self, k: &[u8]) -> (r: bool)
        ensures
            r == assoc_has(self@, k@),
    {
        self.get(k).is_some()
    }

    /// An element-wise copy with the same entries.
    pub fn duplicate(&self) -> (r: ByteMap)
        ensures
            r@ == self@,
    {
        let mut entries: Vec<(Vec<u8>, Vec<u8>)> = Vec::new();
        let mut i: usize = 0;
        while i < self.entries.len()
            invariant
                i <= self@.len(),
                self@.len() == self.entries@.len(),
                entries@.len() == i,
                forall|j: int| 0 <= j < i ==> (entries@[j].0@, entries@[j].1@) == self@[j],
            decreases self@.len() - i,
        {
            let k = self.entries[i].0.clone();
            let v = self.entries[i].1.clone();
            entries.push((k, v));
            i += 1;
        }
        let r = ByteMap { entries };
        proof {
            assert(r@ =~= self@);
        }
        r
    }

    /// Bind `k` to `v`, overwriting in place if `k` is already bound.
    pub fn insert(&mut self, k: Vec<u8>, v: Vec<u8>)
        requires
            old(self).wf(),
        ensures
            final(self).wf(),
            final(self)@ == assoc_insert(old(self)@, k@, v@),
    {
        let ghost es0 = self@;
        let mut i: usize = 0;
        while i < self.entries.len()
            invariant
                i <= self@.len(),
                self@ == es0,
                es0 == old(self)@,
                self@.len() == self.entries@.len(),
                distinct_keys(es0),
                forall|j: int| 0 <= j < i ==> self@[j].0 != k@,
            decreases self@.len() - i,
        {
            if bytes_eq(self.entries[i].0.as_slice(), k.as_slice()) {
                proof {
                    lemma_assoc_index_of(es0, k@, i as int);
                }
                self.entries[i] = (k, v);
                proof {
                    assert(self@ =~= assoc_insert(es0, k@, v@));
                    assert forall|a: int, b: int| 0 <= a < b < self@.len() implies self@[a].0
                        != self@[b].0 by {
                        assert(es0[a].0 == self@[a].0 || a == i);
                        assert(es0[b].0 == self@[b].0 || b == i);
                    }
                }
                return;
            }
            i += 1;
        }
        proof {
            lemma_assoc(es0, k@);
            if assoc_has(es0, k@) {
                let n = assoc_index(es0, k@);
                assert(es0[n].0 != k@);
            }
        }
        self.entries.push((k, v));
        proof {
            assert(self@ =~= assoc_insert(es0, k@, v@));
            assert forall|a: int, b: int| 0 <= a < b < self@.len() implies self@[a].0
                != self@[b].0 by {
                if b < self@.len() - 1 {
                    assert(es0[a].0 != es0[b].0);
                } else {
                    assert(es0[a].0 != k@);
                }
            }
        }
    }
}

} // verus!
