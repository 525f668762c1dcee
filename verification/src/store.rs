//! Ordered key-value stores.
//!
//! All persisted engine state lives in independently addressable entries
//! keyed by an account id, an era index, or a pair of the two.  The stores
//! keep their entries in insertion order, so every walk over them is
//! deterministic and replayable.

use vstd::prelude::*;

verus! {

/// A store keyed by a single 64-bit id, in insertion order, keys unique.
pub struct KvStore<V> {
    entries: Vec<(u64, V)>,
}

impl<V> KvStore<V> {
    /// The keys, in insertion order.
    pub closed spec fn kseq(&self) -> Seq<u64> {
        self.entries@.map_values(|e: (u64, V)| e.0)
    }

    /// The entries, in insertion order.
    pub closed spec fn eseq(&self) -> Seq<(u64, V)> {
        self.entries@
    }

    /// The contents as a map from key to value.
    pub closed spec fn view(&self) -> Map<u64, V> {
        Map::new(
            |k: u64| self.kseq().contains(k),
            |k: u64| self.entries@[self.kseq().index_of(k)].1,
        )
    }

    /// Keys are unique.
    pub open spec fn wf(&self) -> bool {
        forall|i: int, j: int|
            0 <= i < j < self.kseq().len() ==> self.kseq()[i] != self.kseq()[j]
    }

    /// The domain of the map is exactly the key sequence.
    pub proof fn lemma_view_dom(&self)
        ensures
            forall|k: u64| #[trigger] self.view().contains_key(k) == self.kseq().contains(k),
            forall|i: int|
                0 <= i < self.eseq().len() ==> #[trigger] self.view().contains_key(self.eseq()[i].0),
    {
        assert forall|i: int| 0 <= i < self.eseq().len() implies
            #[trigger] self.view().contains_key(self.eseq()[i].0) by {
            assert(self.kseq()[i] == self.eseq()[i].0);
        }
    }

    /// With unique keys, the entry at position `i` holds the value mapped to
    /// its key.
    pub proof fn lemma_entry_value(&self, i: int)
        requires
            self.wf(),
            0 <= i < self.eseq().len(),
        ensures
            self.view().contains_key(self.eseq()[i].0),
            self.view()[self.eseq()[i].0] == self.eseq()[i].1,
    {
        let k = self.eseq()[i].0;
        assert(self.kseq()[i] == k);
        assert(self.kseq().contains(k));
        let w = self.kseq().index_of(k);
        assert(0 <= w < self.kseq().len() && self.kseq()[w] == k);
        assert(w == i);
    }

    /// An empty store.
    pub fn new() -> (r: KvStore<V>)
        ensures
            r.wf(),
            r@ == Map::<u64, V>::empty(),
            r.kseq() == Seq::<u64>::empty(),
            r.eseq() == Seq::<(u64, V)>::empty(),
    {
        let r = KvStore { entries: Vec::new() };
        proof {
            assert(r.kseq() =~= Seq::<u64>::empty());
            assert(r@ =~= Map::<u64, V>::empty());
        }
        r
    }

    /// How many entries the store holds.
    pub fn len(&self) -> (r: usize)
        ensures
            r == self.kseq().len(),
    {
        self.entries.len()
    }

    /// The position of `k` among the entries, if present.
    fn position(&self, k: u64) -> (r: Option<usize>)
        requires
            self.wf(),
        ensures
            match r {
                Some(i) => i < self.eseq().len() && self.eseq()[i as int].0 == k
                    && self@.contains_key(k) && self@[k] == self.eseq()[i as int].1,
                None => !self@.contains_key(k),
            },
    {
        let n = self.entries.len();
        let mut i: usize = 0;
        while i < n
            invariant
                n == self.eseq().len(),
                i <= n,
                self.wf(),
                forall|j: int| 0 <= j < i ==> self.kseq()[j] != k,
            decreases n - i,
        {
            if self.entries[i].0 == k {
                proof {
                    assert(self.kseq()[i as int] == k);
                    self.lemma_entry_value(i as int);
                }
                return Some(i);
            }
            proof {
                assert(self.kseq()[i as int] == self.entries@[i as int].0);
            }
            i += 1;
        }
        proof {
            if self.kseq().contains(k) {
                let w = choose|w: int| 0 <= w < self.kseq().len() && self.kseq()[w] == k;
                assert(false);
            }
            self.lemma_view_dom();
        }
        None
    }

    /// Whether the store holds `k`.
    pub fn contains_key(&self, k: u64) -> (r: bool)
        requires
            self.wf(),
        ensures
            r == self@.contains_key(k),
    {
        self.position(k).is_some()
    }

    /// The value at `k`, if present.
    pub fn get(&self, k: u64) -> (r: Option<&V>)
        requires
            self.wf(),
        ensures
            match r {
                Some(v) => self@.contains_key(k) && *v == self@[k],
                None => !self@.contains_key(k),
            },
    {
        match self.position(k) {
            Some(i) => Some(&self.entries[i].1),
            None => None,
        }
    }

    /// Put `v` at `k`.  An existing entry keeps its position; a new key goes
    /// to the back.
    pub fn insert(&mut self, k: u64, v: V)
        requires
            old(self).wf(),
        ensures
            final(self).wf(),
            final(self)@ == old(self)@.insert(k, v),
            final(self).kseq() == if old(self)@.contains_key(k) {
                old(self).kseq()
            } else {
                old(self).kseq().push(k)
            },
    {
        let pos = self.position(k);
        match pos {
            Some(i) => {
                let ghost before = self.entries@;
                self.entries.remove(i);
                self.entries.insert(i, (k, v));
                proof {
                    assert(self.entries@ =~= before.update(i as int, (k, v)));
                    assert(self.kseq() =~= old(self).kseq());
                    lemma_view_after_update(old(self), self, i as int, k, v);
                }
            }
            None => {
                self.entries.push((k, v));
                proof {
                    assert(self.kseq() =~= old(self).kseq().push(k));
                    assert forall|i: int, j: int|
                        0 <= i < j < self.kseq().len() implies self.kseq()[i] != self.kseq()[j] by {
                        if j < self.kseq().len() - 1 {
                            assert(old(self).kseq()[i] != old(self).kseq()[j]);
                        } else {
                            assert(old(self).kseq().contains(old(self).kseq()[i]));
                            old(self).lemma_view_dom();
                        }
                    }
                    lemma_view_after_push(old(self), self, k, v);
                }
            }
        }
    }

    /// Remove and return the value at `k`.
    pub fn take(&mut self, k: u64) -> (r: Option<V>)
        requires
            old(self).wf(),
        ensures
            final(self).wf(),
            final(self)@ == old(self)@.remove(k),
            match r {
                Some(v) => old(self)@.contains_key(k) && v == old(self)@[k]
                    && final(self).kseq() == old(self).kseq().remove(old(self).kseq().index_of(k)),
                None => !old(self)@.contains_key(k) && *final(self) == *old(self),
            },
    {
        let pos = self.position(k);
        match pos {
            Some(i) => {
                let e = self.entries.remove(i);
                proof {
                    assert(self.kseq() =~= old(self).kseq().remove(i as int));
                    assert(old(self).kseq()[i as int] == k);
                    assert(old(self).kseq().contains(k));
                    let w = old(self).kseq().index_of(k);
                    assert(0 <= w < old(self).kseq().len() && old(self).kseq()[w] == k);
                    assert(w == i);
                    lemma_view_after_remove(old(self), self, i as int, k);
                }
                Some(e.1)
            }
            None => {
                proof {
                    assert(self@ =~= old(self)@.remove(k));
                }
                None
            }
        }
    }

    /// A copy of the keys, in insertion order.
    pub fn keys(&self) -> (r: Vec<u64>)
        requires
            self.wf(),
        ensures
            r@ == self.kseq(),
            forall|i: int| 0 <= i < r@.len() ==> self@.contains_key(#[trigger] r@[i]),
    {
        let n = self.entries.len();
        let mut out: Vec<u64> = Vec::new();
        let mut i: usize = 0;
        while i < n
            invariant
                n == self.eseq().len(),
                i <= n,
                out@ == self.kseq().take(i as int),
            decreases n - i,
        {
            out.push(self.entries[i].0);
            proof {
                assert(self.kseq()[i as int] == self.entries@[i as int].0);
                assert(out@ =~= self.kseq().take(i as int + 1));
            }
            i += 1;
        }
        proof {
            assert(out@ =~= self.kseq());
            self.lemma_view_dom();
        }
        out
    }

    /// The key at position `i`, for deterministic walks over the store.
    pub fn key_at(&self, i: usize) -> (r: u64)
        requires
            i < self.kseq().len(),
        ensures
            r == self.kseq()[i as int],
    {
        let k = self.entries[i].0;
        proof {
            assert(self.kseq()[i as int] == self.entries@[i as int].0);
        }
        k
    }

    /// The value at position `i`.
    pub fn value_at(&self, i: usize) -> (r: &V)
        requires
            self.wf(),
            i < self.kseq().len(),
        ensures
            self@.contains_key(self.kseq()[i as int]),
            *r == self@[self.kseq()[i as int]],
    {
        proof {
            self.lemma_entry_value(i as int);
            assert(self.kseq()[i as int] == self.entries@[i as int].0);
        }
        &self.entries[i].1
    }
}

/// A store keyed by a pair of 64-bit ids, in insertion order, keys unique.
///
/// Double-keyed state (an exposure per era and validator, a span record per
/// stash and span index) lives here; the first key component supports bulk
/// deletion for era pruning and stash removal.
pub struct Kv2Store<V> {
    entries: Vec<(u64, u64, V)>,
}

impl<V> Kv2Store<V> {
    /// The key pairs, in insertion order.
    pub closed spec fn kseq(&self) -> Seq<(u64, u64)> {
        self.entries@.map_values(|e: (u64, u64, V)| (e.0, e.1))
    }

    /// The entries, in insertion order.
    pub closed spec fn eseq(&self) -> Seq<(u64, u64, V)> {
        self.entries@
    }

    /// The contents as a map from key pair to value.
    pub closed spec fn view(&self) -> Map<(u64, u64), V> {
        Map::new(
            |k: (u64, u64)| self.kseq().contains(k),
            |k: (u64, u64)| self.entries@[self.kseq().index_of(k)].2,
        )
    }

    /// Keys are unique.
    pub open spec fn wf(&self) -> bool {
        forall|i: int, j: int|
            0 <= i < j < self.kseq().len() ==> self.kseq()[i] != self.kseq()[j]
    }

    /// With unique keys, the entry at position `i` holds the value mapped to
    /// its key.
    proof fn lemma_entry_value(&self, i: int)
        requires
            self.wf(),
            0 <= i < self.eseq().len(),
        ensures
            self.view().contains_key(self.kseq()[i]),
            self.view()[self.kseq()[i]] == self.eseq()[i].2,
    {
        let k = self.kseq()[i];
        assert(self.kseq().contains(k));
        let w = self.kseq().index_of(k);
        assert(0 <= w < self.kseq().len() && self.kseq()[w] == k);
        assert(w == i);
    }

    /// An empty store.
    pub fn new() -> (r: Kv2Store<V>)
        ensures
            r.wf(),
            r@ == Map::<(u64, u64), V>::empty(),
            r.kseq() == Seq::<(u64, u64)>::empty(),
    {
        let r = Kv2Store { entries: Vec::new() };
        proof {
            assert(r.kseq() =~= Seq::<(u64, u64)>::empty());
            assert(r@ =~= Map::<(u64, u64), V>::empty());
        }
        r
    }

    /// The position of `(k1, k2)` among the entries, if present.
    fn position(&self, k1: u64, k2: u64) -> (r: Option<usize>)
        requires
            self.wf(),
        ensures
            match r {
                Some(i) => i < self.eseq().len() && self.kseq()[i as int] == (k1, k2)
                    && self@.contains_key((k1, k2)) && self@[(k1, k2)] == self.eseq()[i as int].2,
                None => !self@.contains_key((k1, k2)),
            },
    {
        let n = self.entries.len();
        let mut i: usize = 0;
        while i < n
            invariant
                n == self.eseq().len(),
                i <= n,
                self.wf(),
                forall|j: int| 0 <= j < i ==> self.kseq()[j] != (k1, k2),
            decreases n - i,
        {
            proof {
                assert(self.kseq()[i as int] == (self.entries@[i as int].0, self.entries@[i as int].1));
            }
            if self.entries[i].0 == k1 && self.entries[i].1 == k2 {
                proof {
                    self.lemma_entry_value(i as int);
                }
                return Some(i);
            }
            i += 1;
        }
        proof {
            if self.kseq().contains((k1, k2)) {
                let w = choose|w: int| 0 <= w < self.kseq().len() && self.kseq()[w] == (k1, k2);
                assert(false);
            }
        }
        None
    }

    /// The value at `(k1, k2)`, if present.
    pub fn get(&self, k1: u64, k2: u64) -> (r: Option<&V>)
        requires
            self.wf(),
        ensures
            match r {
                Some(v) => self@.contains_key((k1, k2)) && *v == self@[(k1, k2)],
                None => !self@.contains_key((k1, k2)),
            },
    {
        match self.position(k1, k2) {
            Some(i) => Some(&self.entries[i].2),
            None => None,
        }
    }

    /// Whether the store holds `(k1, k2)`.
    pub fn contains_key(&self, k1: u64, k2: u64) -> (r: bool)
        requires
            self.wf(),
        ensures
            r == self@.contains_key((k1, k2)),
    {
        self.position(k1, k2).is_some()
    }

    /// Put `v` at `(k1, k2)`.
    pub fn insert(&mut self, k1: u64, k2: u64, v: V)
        requires
            old(self).wf(),
        ensures
            final(self).wf(),
            final(self)@ == old(self)@.insert((k1, k2), v),
    {
        let pos = self.position(k1, k2);
        match pos {
            Some(i) => {
                let ghost before = self.entries@;
                self.entries.remove(i);
                self.entries.insert(i, (k1, k2, v));
                proof {
                    assert(self.entries@ =~= before.update(i as int, (k1, k2, v)));
                    lemma_view2_after_update(old(self), self, i as int, (k1, k2), v);
                }
            }
            None => {
                self.entries.push((k1, k2, v));
                proof {
                    assert(self.kseq() =~= old(self).kseq().push((k1, k2)));
                    assert forall|i: int, j: int|
                        0 <= i < j < self.kseq().len() implies self.kseq()[i] != self.kseq()[j] by {
                        if j < self.kseq().len() - 1 {
                            assert(old(self).kseq()[i] != old(self).kseq()[j]);
                        } else {
                            assert(old(self).kseq().contains(old(self).kseq()[i]));
                        }
                    }
                    lemma_view2_after_push(old(self), self, (k1, k2), v);
                }
            }
        }
    }

    /// Remove and return the value at `(k1, k2)`.
    pub fn take(&mut self, k1: u64, k2: u64) -> (r: Option<V>)
        requires
            old(self).wf(),
        ensures
            final(self).wf(),
            final(self)@ == old(self)@.remove((k1, k2)),
            match r {
                Some(v) => old(self)@.contains_key((k1, k2)) && v == old(self)@[(k1, k2)],
                None => !old(self)@.contains_key((k1, k2)) && *final(self) == *old(self),
            },
    {
        let pos = self.position(k1, k2);
        match pos {
            Some(i) => {
                let e = self.entries.remove(i);
                proof {
                    lemma_view2_after_remove(old(self), self, i as int, (k1, k2));
                }
                Some(e.2)
            }
            None => {
                proof {
                    assert(self@ =~= old(self)@.remove((k1, k2)));
                }
                None
            }
        }
    }

    /// Drop every entry whose first key component is `p`.
    pub fn remove_prefix(&mut self, p: u64)
        requires
            old(self).wf(),
        ensures
            final(self).wf(),
            forall|k: (u64, u64)| #[trigger] final(self)@.contains_key(k)
                ==> old(self)@.contains_key(k) && k.0 != p && final(self)@[k] == old(self)@[k],
            forall|k: (u64, u64)| old(self)@.contains_key(k) && k.0 != p
                ==> #[trigger] final(self)@.contains_key(k),
    {
        let mut i: usize = 0;
        while i < self.entries.len()
            invariant
                self.wf(),
                i <= self.eseq().len(),
                forall|j: int| 0 <= j < i ==> (#[trigger] self.eseq()[j]).0 != p,
                forall|k: (u64, u64)| #[trigger] self@.contains_key(k)
                    ==> old(self)@.contains_key(k) && self@[k] == old(self)@[k],
                forall|k: (u64, u64)| old(self)@.contains_key(k) && k.0 != p
                    ==> #[trigger] self@.contains_key(k),
            decreases self.eseq().len() - i,
        {
            proof {
                assert(self.kseq()[i as int] == (self.entries@[i as int].0, self.entries@[i as int].1));
            }
            if self.entries[i].0 == p {
                let ghost pre = *self;
                let ghost k = self.kseq()[i as int];
                self.entries.remove(i);
                proof {
                    lemma_view2_after_remove(&pre, self, i as int, k);
                    assert forall|j: int| 0 <= j < i implies (#[trigger] self.eseq()[j]).0 != p by {
                        assert(self.eseq()[j] == pre.eseq()[j]);
                    }
                }
            } else {
                i += 1;
            }
        }
        proof {
            assert forall|k: (u64, u64)| #[trigger] self@.contains_key(k) implies k.0 != p by {
                assert(self.kseq().contains(k));
                let w = self.kseq().index_of(k);
                assert(0 <= w < self.kseq().len() && self.kseq()[w] == k);
                assert(self.eseq()[w].0 == k.0);
            }
        }
    }
}

/// Replacing the value of an existing pair key updates the map view in place.
proof fn lemma_view2_after_update<V>(
    pre: &Kv2Store<V>,
    post: &Kv2Store<V>,
    i: int,
    k: (u64, u64),
    v: V,
)
    requires
        pre.wf(),
        0 <= i < pre.eseq().len(),
        pre.kseq()[i] == k,
        post.eseq() == pre.eseq().update(i, (k.0, k.1, v)),
    ensures
        post.wf(),
        post@ == pre@.insert(k, v),
{
    assert(post.kseq() =~= pre.kseq());
    assert forall|x: (u64, u64)| #[trigger] post.kseq().contains(x) implies
        post@[x] == pre@.insert(k, v)[x] by {
        let w = post.kseq().index_of(x);
        assert(0 <= w < post.kseq().len() && post.kseq()[w] == x);
        let wp = pre.kseq().index_of(x);
        assert(0 <= wp < pre.kseq().len() && pre.kseq()[wp] == x);
        assert(w == wp);
        if x == k {
            assert(w == i);
            assert(post@[x] == v);
        } else {
            assert(post.eseq()[w] == pre.eseq()[w]);
        }
    }
    assert(post@ =~= pre@.insert(k, v));
}

/// Pushing a fresh pair key extends the map view by that binding.
proof fn lemma_view2_after_push<V>(pre: &Kv2Store<V>, post: &Kv2Store<V>, k: (u64, u64), v: V)
    requires
        pre.wf(),
        !pre.kseq().contains(k),
        post.eseq() == pre.eseq().push((k.0, k.1, v)),
        post.wf(),
    ensures
        post@ == pre@.insert(k, v),
{
    assert(post.kseq() =~= pre.kseq().push(k));
    assert forall|x: (u64, u64)| #[trigger] post.kseq().contains(x) implies
        post@[x] == pre@.insert(k, v)[x] by {
        let w = post.kseq().index_of(x);
        assert(0 <= w < post.kseq().len() && post.kseq()[w] == x);
        if x == k {
            assert(w == post.kseq().len() - 1);
            assert(post@[x] == v);
        } else {
            assert(w < pre.kseq().len());
            assert(pre.kseq()[w] == x);
            assert(pre.kseq().contains(x));
            let wp = pre.kseq().index_of(x);
            assert(w == wp);
            assert(post.eseq()[w] == pre.eseq()[w]);
        }
    }
    assert forall|x: (u64, u64)| pre.kseq().contains(x) || x == k implies
        #[trigger] post.kseq().contains(x) by {
        if x == k {
            assert(post.kseq()[post.kseq().len() - 1] == k);
        } else {
            let wp = pre.kseq().index_of(x);
            assert(post.kseq()[wp] == x);
        }
    }
    assert(post@ =~= pre@.insert(k, v));
}

/// Removing an entry removes exactly its binding from the map view.
proof fn lemma_view2_after_remove<V>(pre: &Kv2Store<V>, post: &Kv2Store<V>, i: int, k: (u64, u64))
    requires
        pre.wf(),
        0 <= i < pre.eseq().len(),
        pre.kseq()[i] == k,
        post.eseq() == pre.eseq().remove(i),
    ensures
        post.wf(),
        post@ == pre@.remove(k),
{
    assert(post.kseq() =~= pre.kseq().remove(i));
    assert forall|a: int, b: int|
        0 <= a < b < post.kseq().len() implies post.kseq()[a] != post.kseq()[b] by {
        let ap = if a < i { a } else { a + 1 };
        let bp = if b < i { b } else { b + 1 };
        assert(post.kseq()[a] == pre.kseq()[ap]);
        assert(post.kseq()[b] == pre.kseq()[bp]);
    }
    assert forall|x: (u64, u64)| #[trigger] post.kseq().contains(x) implies
        pre.kseq().contains(x) && x != k by {
        let w = post.kseq().index_of(x);
        assert(0 <= w < post.kseq().len() && post.kseq()[w] == x);
        let wp = if w < i { w } else { w + 1 };
        assert(pre.kseq()[wp] == x);
        assert(pre.kseq().contains(x));
        if x == k {
            assert(pre.kseq()[i] == pre.kseq()[wp]);
            assert(false);
        }
    }
    assert forall|x: (u64, u64)| pre.kseq().contains(x) && x != k implies
        #[trigger] post.kseq().contains(x) by {
        let wp = pre.kseq().index_of(x);
        assert(0 <= wp < pre.kseq().len() && pre.kseq()[wp] == x);
        assert(wp != i);
        let w = if wp < i { wp } else { wp - 1 };
        assert(post.kseq()[w] == x);
    }
    assert forall|x: (u64, u64)| #[trigger] post.kseq().contains(x) implies
        post@[x] == pre@[x] by {
        let w = post.kseq().index_of(x);
        assert(0 <= w < post.kseq().len() && post.kseq()[w] == x);
        let wp = if w < i { w } else { w + 1 };
        assert(pre.kseq()[wp] == x);
        assert(pre.kseq().index_of(x) == wp);
        assert(post.eseq()[w] == pre.eseq()[wp]);
    }
    assert(post@ =~= pre@.remove(k));
}

/// Replacing the value of an existing key updates the map view in place.
proof fn lemma_view_after_update<V>(pre: &KvStore<V>, post: &KvStore<V>, i: int, k: u64, v: V)
    requires
        pre.wf(),
        0 <= i < pre.eseq().len(),
        pre.kseq()[i] == k,
        post.eseq() == pre.eseq().update(i, (k, v)),
    ensures
        post.wf(),
        post@ == pre@.insert(k, v),
{
    assert(post.kseq() =~= pre.kseq());
    assert forall|x: u64| #[trigger] post.kseq().contains(x) implies
        post@[x] == pre@.insert(k, v)[x] by {
        let w = post.kseq().index_of(x);
        assert(0 <= w < post.kseq().len() && post.kseq()[w] == x);
        let wp = pre.kseq().index_of(x);
        assert(0 <= wp < pre.kseq().len() && pre.kseq()[wp] == x);
        assert(w == wp);
        if x == k {
            assert(w == i);
            assert(post@[x] == v);
        } else {
            assert(post.eseq()[w] == pre.eseq()[w]);
        }
    }
    assert(post@ =~= pre@.insert(k, v));
}

/// Pushing a fresh key extends the map view by that binding.
proof fn lemma_view_after_push<V>(pre: &KvStore<V>, post: &KvStore<V>, k: u64, v: V)
    requires
        pre.wf(),
        !pre.kseq().contains(k),
        post.eseq() == pre.eseq().push((k, v)),
        post.wf(),
    ensures
        post@ == pre@.insert(k, v),
{
    assert(post.kseq() =~= pre.kseq().push(k));
    assert forall|x: u64| #[trigger] post.kseq().contains(x) implies
        post@[x] == pre@.insert(k, v)[x] by {
        let w = post.kseq().index_of(x);
        assert(0 <= w < post.kseq().len() && post.kseq()[w] == x);
        if x == k {
            assert(w == post.kseq().len() - 1);
            assert(post@[x] == v);
        } else {
            assert(w < pre.kseq().len());
            assert(pre.kseq()[w] == x);
            assert(pre.kseq().contains(x));
            let wp = pre.kseq().index_of(x);
            assert(w == wp);
            assert(post.eseq()[w] == pre.eseq()[w]);
        }
    }
    assert forall|x: u64| pre.kseq().contains(x) || x == k implies
        #[trigger] post.kseq().contains(x) by {
        if x == k {
            assert(post.kseq()[post.kseq().len() - 1] == k);
        } else {
            let wp = pre.kseq().index_of(x);
            assert(post.kseq()[wp] == x);
        }
    }
    assert(post@ =~= pre@.insert(k, v));
}

/// Removing an entry removes exactly its binding from the map view.
proof fn lemma_view_after_remove<V>(pre: &KvStore<V>, post: &KvStore<V>, i: int, k: u64)
    requires
        pre.wf(),
        0 <= i < pre.eseq().len(),
        pre.kseq()[i] == k,
        post.eseq() == pre.eseq().remove(i),
    ensures
        post.wf(),
        post@ == pre@.remove(k),
{
    assert(post.kseq() =~= pre.kseq().remove(i));
    assert forall|a: int, b: int|
        0 <= a < b < post.kseq().len() implies post.kseq()[a] != post.kseq()[b] by {
        let ap = if a < i { a } else { a + 1 };
        let bp = if b < i { b } else { b + 1 };
        assert(post.kseq()[a] == pre.kseq()[ap]);
        assert(post.kseq()[b] == pre.kseq()[bp]);
    }
    assert forall|x: u64| #[trigger] post.kseq().contains(x) implies
        pre.kseq().contains(x) && x != k by {
        let w = post.kseq().index_of(x);
        assert(0 <= w < post.kseq().len() && post.kseq()[w] == x);
        let wp = if w < i { w } else { w + 1 };
        assert(pre.kseq()[wp] == x);
        assert(pre.kseq().contains(x));
        if x == k {
            assert(pre.kseq()[i] == pre.kseq()[wp]);
            assert(false);
        }
    }
    assert forall|x: u64| pre.kseq().contains(x) && x != k implies
        #[trigger] post.kseq().contains(x) by {
        let wp = pre.kseq().index_of(x);
        assert(0 <= wp < pre.kseq().len() && pre.kseq()[wp] == x);
        assert(wp != i);
        let w = if wp < i { wp } else { wp - 1 };
        assert(post.kseq()[w] == x);
    }
    assert forall|x: u64| #[trigger] post.kseq().contains(x) implies
        post@[x] == pre@[x] by {
        let w = post.kseq().index_of(x);
        assert(0 <= w < post.kseq().len() && post.kseq()[w] == x);
        let wp = if w < i { w } else { w + 1 };
        assert(pre.kseq()[wp] == x);
        assert(pre.kseq().index_of(x) == wp);
        assert(post.eseq()[w] == pre.eseq()[wp]);
    }
    assert(post@ =~= pre@.remove(k));
}

} // verus!
