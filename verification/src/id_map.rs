//! Finite maps and sets over `i64` identifiers, with a deterministic
//! iteration order. These back the graph's adjacency structure, the distance
//! maps of the search engine, and the landmark tables.

use std::collections::HashMap;
use vstd::prelude::*;
use vstd::seq_lib::seq_to_set_is_finite;

verus! {

broadcast use vstd::std_specs::hash::group_hash_axioms;

/// A map from `i64` identifiers to values: a hash table for lookup, beside
/// the list of its keys in first-insertion order, pairwise distinct. The
/// abstract view is a finite `Map<i64, V>`, and `key_seq` exposes the
/// iteration order.
pub struct IdMap<V> {
    keys: Vec<i64>,
    table: HashMap<i64, V>,
}

impl<V> View for IdMap<V> {
    type V = Map<i64, V>;

    closed spec fn view(&self) -> Map<i64, V> {
        self.table@
    }
}

impl<V> IdMap<V> {
    pub closed spec fn wf(self) -> bool {
        &&& self.keys@.no_duplicates()
        &&& forall|k: i64| #[trigger] self.table@.contains_key(k) <==> self.keys@.contains(k)
    }

    pub closed spec fn key_seq(self) -> Seq<i64> {
        self.keys@
    }

    /// The view's domain is exactly the set of listed keys.
    pub proof fn lemma_dom(self)
        requires
            self.wf(),
        ensures
            forall|k: i64| #[trigger] self@.contains_key(k) <==> self.key_seq().contains(k),
            self@.dom() == self.key_seq().to_set(),
            self@.dom().finite(),
            self@.dom().len() == self.key_seq().len(),
            self.key_seq().no_duplicates(),
    {
        assert(self@.dom() =~= self.key_seq().to_set());
        broadcast use seq_to_set_is_finite;

        self.keys@.unique_seq_to_set();
    }

    pub fn new() -> (r: IdMap<V>)
        ensures
            r.wf(),
            r@ == Map::<i64, V>::empty(),
            r.key_seq() == Seq::<i64>::empty(),
    {
        let r = IdMap { keys: Vec::new(), table: HashMap::new() };
        proof {
            assert(forall|k: i64| !(#[trigger] r.table@.contains_key(k)));
            assert(forall|k: i64| !(#[trigger] r.keys@.contains(k)));
        }
        r
    }

    pub fn len(&self) -> (n: usize)
        ensures
            n == self.key_seq().len(),
    {
        self.keys.len()
    }

    pub fn contains_key(&self, k: i64) -> (r: bool)
        requires
            self.wf(),
        ensures
            r == self@.contains_key(k),
    {
        self.table.contains_key(&k)
    }

    pub fn get(&self, k: i64) -> (r: Option<&V>)
        requires
            self.wf(),
        ensures
            match r {
                Some(v) => self@.contains_key(k) && *v == self@[k],
                None => !self@.contains_key(k),
            },
    {
        self.table.get(&k)
    }

    pub fn key_at(&self, i: usize) -> (k: i64)
        requires
            self.wf(),
            i < self.key_seq().len(),
        ensures
            k == self.key_seq()[i as int],
            self@.contains_key(k),
    {
        proof {
            assert(self.keys@.contains(self.keys@[i as int]));
        }
        self.keys[i]
    }

    pub fn val_at(&self, i: usize) -> (v: &V)
        requires
            self.wf(),
            i < self.key_seq().len(),
        ensures
            self@.contains_key(self.key_seq()[i as int]),
            *v == self@[self.key_seq()[i as int]],
    {
        let k = self.keys[i];
        proof {
            assert(self.keys@.contains(self.keys@[i as int]));
            assert(self@.contains_key(k));
        }
        let r = self.table.get(&k);
        r.unwrap()
    }

    pub fn insert(&mut self, k: i64, v: V)
        requires
            old(self).wf(),
        ensures
            final(self).wf(),
            final(self)@ == old(self)@.insert(k, v),
            old(self)@.contains_key(k) ==> final(self).key_seq() == old(self).key_seq(),
            !old(self)@.contains_key(k) ==> final(self).key_seq() == old(self).key_seq().push(k),
    {
        let prev = self.table.insert(k, v);
        match prev {
            Some(_) => {
                proof {
                    assert(old(self)@.contains_key(k));
                    assert forall|k2: i64| #[trigger]
                        self.table@.contains_key(k2) <==> self.keys@.contains(k2) by {
                        if k2 != k {
                            assert(self.table@.contains_key(k2) == old(
                                self,
                            ).table@.contains_key(k2));
                        } else {
                            assert(old(self).keys@.contains(k));
                        }
                    }
                }
            },
            None => {
                proof {
                    assert(!old(self)@.contains_key(k));
                    assert(!old(self).keys@.contains(k));
                }
                self.keys.push(k);
                proof {
                    let oks = old(self).keys@;
                    assert forall|j: int, j2: int|
                        0 <= j < self.keys@.len() && 0 <= j2 < self.keys@.len() && j != j2 implies
                        self.keys@[j] != self.keys@[j2] by {
                        if j < oks.len() && j2 < oks.len() {
                            assert(oks[j] == self.keys@[j] && oks[j2] == self.keys@[j2]);
                        } else if j == oks.len() {
                            assert(self.keys@[j] == k && self.keys@[j2] == oks[j2]);
                            assert(oks[j2] != k) by {
                                if oks[j2] == k {
                                    assert(oks.contains(k));
                                }
                            }
                        } else {
                            assert(self.keys@[j2] == k && self.keys@[j] == oks[j]);
                            assert(oks[j] != k) by {
                                if oks[j] == k {
                                    assert(oks.contains(k));
                                }
                            }
                        }
                    }
                    assert forall|k2: i64| #[trigger]
                        self.table@.contains_key(k2) <==> self.keys@.contains(k2) by {
                        if self.table@.contains_key(k2) {
                            if k2 == k {
                                assert(self.keys@[oks.len() as int] == k);
                            } else {
                                assert(old(self).table@.contains_key(k2));
                                let j = choose|j: int| 0 <= j < oks.len() && oks[j] == k2;
                                assert(self.keys@[j] == k2);
                            }
                        }
                        if self.keys@.contains(k2) {
                            let j = choose|j: int|
                                0 <= j < self.keys@.len() && self.keys@[j] == k2;
                            if j < oks.len() {
                                assert(oks[j] == k2);
                                assert(oks.contains(k2));
                            } else {
                                assert(k2 == k);
                            }
                        }
                    }
                }
            },
        }
    }

    pub fn remove(&mut self, k: i64) -> (r: Option<V>)
        requires
            old(self).wf(),
        ensures
            final(self).wf(),
            final(self)@ == old(self)@.remove(k),
            match r {
                Some(v) => old(self)@.contains_key(k) && v == old(self)@[k],
                None => !old(self)@.contains_key(k) && final(self)@ == old(self)@
                    && final(self).key_seq() == old(self).key_seq(),
            },
    {
        let r = self.table.remove(&k);
        match r {
            None => {
                proof {
                    assert(!old(self)@.contains_key(k));
                    assert(self.table@ =~= old(self).table@);
                    assert(!old(self).keys@.contains(k));
                }
                None
            },
            Some(v) => {
                proof {
                    assert(old(self)@.contains_key(k) && v == old(self)@[k]);
                    assert(old(self).keys@.contains(k));
                }
                let n = self.keys.len();
                let mut i: usize = 0;
                while i < n
                    invariant
                        old(self).wf(),
                        old(self)@.contains_key(k),
                        v == old(self)@[k],
                        self.table@ == old(self).table@.remove(k),
                        self.keys@ == old(self).key_seq(),
                        n == self.keys@.len(),
                        i <= n,
                        forall|j: int| 0 <= j < i ==> self.keys@[j] != k,
                    decreases n - i,
                {
                    if self.keys[i] == k {
                        self.keys.remove(i);
                        proof {
                            let oks = old(self).keys@;
                            assert forall|j: int, j2: int|
                                0 <= j < self.keys@.len() && 0 <= j2 < self.keys@.len() && j != j2
                                implies self.keys@[j] != self.keys@[j2] by {
                                let pj: int = if j < i { j } else { j + 1 };
                                let pj2: int = if j2 < i { j2 } else { j2 + 1 };
                                assert(self.keys@[j] == oks[pj] && self.keys@[j2] == oks[pj2]);
                            }
                            assert forall|k2: i64| #[trigger]
                                self.table@.contains_key(k2) <==> self.keys@.contains(k2) by {
                                if self.table@.contains_key(k2) {
                                    assert(k2 != k && oks.contains(k2));
                                    let j = choose|j: int| 0 <= j < oks.len() && oks[j] == k2;
                                    assert(j != i);
                                    let nj: int = if j < i { j } else { j - 1 };
                                    assert(self.keys@[nj] == oks[j]);
                                }
                                if self.keys@.contains(k2) {
                                    let j = choose|j: int|
                                        0 <= j < self.keys@.len() && self.keys@[j] == k2;
                                    let pj: int = if j < i { j } else { j + 1 };
                                    assert(oks[pj] == k2 && pj != i);
                                    assert(oks.contains(k2));
                                    assert(oks[i as int] == k);
                                    assert(k2 != k) by {
                                        if k2 == k {
                                            assert(oks[pj] == oks[i as int]);
                                        }
                                    }
                                }
                            }
                        }
                        return Some(v);
                    }
                    i = i + 1;
                }
                proof {
                    assert(!old(self).keys@.contains(k));
                    assert(false);
                }
                Some(v)
            },
        }
    }
}

/// A finite set of `i64` identifiers with a deterministic iteration order
/// (first-insertion order), backed by a vector of distinct entries.
pub struct IdSet {
    items: Vec<i64>,
}

impl View for IdSet {
    type V = Set<i64>;

    closed spec fn view(&self) -> Set<i64> {
        self.items@.to_set()
    }
}

impl IdSet {
    pub closed spec fn wf(self) -> bool {
        self.items@.no_duplicates()
    }

    pub closed spec fn seq(self) -> Seq<i64> {
        self.items@
    }

    /// The view is the set of listed identifiers.
    pub proof fn lemma_view(self)
        requires
            self.wf(),
        ensures
            forall|k: i64| #[trigger] self@.contains(k) <==> self.seq().contains(k),
            self@.finite(),
            self@.len() == self.seq().len(),
            self.seq().no_duplicates(),
    {
        broadcast use seq_to_set_is_finite;

        self.items@.unique_seq_to_set();
    }

    pub fn new() -> (r: IdSet)
        ensures
            r.wf(),
            r@ == Set::<i64>::empty(),
            r.seq() == Seq::<i64>::empty(),
    {
        let r = IdSet { items: Vec::new() };
        proof {
            assert(r@ =~= Set::<i64>::empty());
        }
        r
    }

    pub fn len(&self) -> (n: usize)
        ensures
            n == self.seq().len(),
    {
        self.items.len()
    }

    pub fn contains(&self, k: i64) -> (r: bool)
        requires
            self.wf(),
        ensures
            r == self@.contains(k),
    {
        let n = self.items.len();
        for i in 0..n
            invariant
                self.wf(),
                n == self.seq().len(),
                forall|j: int| 0 <= j < i ==> self.seq()[j] != k,
            decreases n - i,
        {
            if self.items[i] == k {
                proof {
                    assert(self.items@.contains(k));
                }
                return true;
            }
        }
        proof {
            assert(!self.items@.contains(k));
        }
        false
    }

    pub fn at(&self, i: usize) -> (k: i64)
        requires
            self.wf(),
            i < self.seq().len(),
        ensures
            k == self.seq()[i as int],
            self@.contains(k),
    {
        proof {
            assert(self.items@.contains(self.items@[i as int]));
        }
        self.items[i]
    }

    /// Inserts `k`; a new identifier is appended at the end of the order.
    pub fn insert(&mut self, k: i64)
        requires
            old(self).wf(),
        ensures
            final(self).wf(),
            final(self)@ == old(self)@.insert(k),
            old(self)@.contains(k) ==> final(self).seq() == old(self).seq(),
            !old(self)@.contains(k) ==> final(self).seq() == old(self).seq().push(k),
    {
        if !self.contains(k) {
            proof {
                assert(!self.items@.contains(k));
            }
            self.items.push(k);
            proof {
                let os = old(self).items@;
                assert forall|j: int, j2: int|
                    0 <= j < self.items@.len() && 0 <= j2 < self.items@.len() && j != j2 implies
                    self.items@[j] != self.items@[j2] by {
                    if j < os.len() && j2 < os.len() {
                        assert(os[j] == self.items@[j] && os[j2] == self.items@[j2]);
                    } else if j == os.len() {
                        assert(os[j2] != k) by {
                            if os[j2] == k {
                                assert(os.contains(k));
                            }
                        }
                    } else {
                        assert(os[j] != k) by {
                            if os[j] == k {
                                assert(os.contains(k));
                            }
                        }
                    }
                }
                assert forall|k2: i64| #[trigger] self.items@.contains(k2) <==> os.contains(k2) || k2 == k by {
                    if self.items@.contains(k2) {
                        let j = choose|j: int| 0 <= j < self.items@.len() && self.items@[j] == k2;
                        if j < os.len() {
                            assert(os[j] == k2);
                        }
                    }
                    if os.contains(k2) {
                        let j = choose|j: int| 0 <= j < os.len() && os[j] == k2;
                        assert(self.items@[j] == k2);
                    }
                    if k2 == k {
                        assert(self.items@[os.len() as int] == k);
                    }
                }
                assert(self@ =~= old(self)@.insert(k));
            }
        } else {
            proof {
                assert(self@ =~= old(self)@.insert(k));
            }
        }
    }

}

} // verus!
