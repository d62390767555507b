use crate::model::{
    has_key, insert_effect, key_index, lemma_min_ge_at, lemma_min_ge_none, lemma_unique_key,
    min_ge, remove_effect, sorted, value_of, Entry,
};
use vstd::prelude::*;

verus! {

/// Maximum number of entries in a leaf, and of children in a node.
pub const FANOUT: usize = 16;

/// Outcome of offering an entry to a leaf.
pub enum LeafInsert {
    /// The entry was placed.
    Placed,
    /// A live entry with the same key exists; the offered entry comes back.
    Duplicate(Entry),
    /// The leaf has no free slot; the offered entry comes back.
    Full(Entry),
}

/// A sorted, bounded array of key-value entries: the payload at the bottom of
/// the tree.
pub struct Leaf {
    entries: Vec<Entry>,
}

impl View for Leaf {
    type V = Seq<Entry>;

    closed spec fn view(&self) -> Seq<Entry> {
        self.entries@
    }
}

impl Leaf {
    /// Entries are strictly ordered by key and fit the bounded array.
    pub open spec fn wf(&self) -> bool {
        sorted(self@) && self@.len() <= FANOUT
    }

    /// A fresh leaf holding one entry.
    pub fn new(k: u64, v: u64) -> (r: Leaf)
        ensures
            r@ == seq![(k, v)],
            r.wf(),
    {
        let mut entries: Vec<Entry> = Vec::new();
        entries.push((k, v));
        let r = Leaf { entries };
        proof {
            assert(r@ =~= seq![(k, v)]);
        }
        r
    }

    pub fn len(&self) -> (r: usize)
        ensures
            r == self@.len(),
    {
        self.entries.len()
    }

    /// Key of the least entry.
    pub fn first_key(&self) -> (r: u64)
        requires
            self@.len() >= 1,
        ensures
            r == self@[0].0,
    {
        self.entries[0].0
    }

    /// Key of the greatest entry.
    pub fn last_key(&self) -> (r: u64)
        requires
            self@.len() >= 1,
        ensures
            r == self@.last().0,
    {
        self.entries[self.entries.len() - 1].0
    }

    /// Position of the first entry whose key is at least `k`.
    fn lower_bound(&self, k: u64) -> (r: usize)
        ensures
            r <= self@.len(),
            forall|j: int| 0 <= j < r ==> self@[j].0 < k,
            r < self@.len() ==> self@[r as int].0 >= k,
    {
        let mut i: usize = 0;
        while i < self.entries.len()
            invariant
                i <= self@.len(),
                forall|j: int| 0 <= j < i ==> self@[j].0 < k,
            decreases self@.len() - i,
        {
            if self.entries[i].0 >= k {
                return i;
            }
            i += 1;
        }
        i
    }

    /// The least entry with key at least `lo`, if any.
    pub fn min_ge(&self, lo: u64) -> (r: Option<Entry>)
        ensures
            r == min_ge(self@, lo),
    {
        let i = self.lower_bound(lo);
        if i < self.entries.len() {
            let e = self.entries[i];
            proof {
                lemma_min_ge_at(self@, lo, i as int);
            }
            Some(e)
        } else {
            proof {
                lemma_min_ge_none(self@, lo);
            }
            None
        }
    }

    /// Read the value stored under `k`.
    pub fn search(&self, k: u64) -> (r: Option<u64>)
        requires
            self.wf(),
        ensures
            r == if has_key(self@, k) {
                Some(value_of(self@, k))
            } else {
                None::<u64>
            },
    {
        let i = self.lower_bound(k);
        if i < self.entries.len() && self.entries[i].0 == k {
            proof {
                lemma_unique_key(self@, self@[i as int]);
            }
            Some(self.entries[i].1)
        } else {
            proof {
                if has_key(self@, k) {
                    let j = key_index(self@, k);
                    if j < i as int {
                        assert(self@[j].0 < k);
                    } else if i < self@.len() && j > i as int {
                        assert(self@[i as int].0 < self@[j].0);
                    }
                    assert(false);
                }
            }
            None
        }
    }

    /// Attempt to place `(k, v)`; report a duplicate or a full leaf without
    /// changing anything.
    pub fn insert(&mut self, k: u64, v: u64) -> (r: LeafInsert)
        requires
            old(self).wf(),
        ensures
            final(self).wf(),
            match r {
                LeafInsert::Placed => {
                    &&& insert_effect(old(self)@, final(self)@, k, v, true)
                    &&& old(self)@.len() < FANOUT
                    &&& final(self)@.len() == old(self)@.len() + 1
                },
                LeafInsert::Duplicate(e) => {
                    &&& e == (k, v)
                    &&& has_key(old(self)@, k)
                    &&& final(self)@ == old(self)@
                },
                LeafInsert::Full(e) => {
                    &&& e == (k, v)
                    &&& !has_key(old(self)@, k)
                    &&& old(self)@.len() == FANOUT
                    &&& final(self)@ == old(self)@
                },
            },
    {
        broadcast use vstd::seq_lib::to_multiset_insert;

        let i = self.lower_bound(k);
        if i < self.entries.len() && self.entries[i].0 == k {
            proof {
                assert(has_key(self@, k));
            }
            return LeafInsert::Duplicate((k, v));
        }
        proof {
            if has_key(self@, k) {
                let j = key_index(self@, k);
                if j < i as int {
                } else if i < self@.len() && j > i as int {
                    assert(self@[i as int].0 < self@[j].0);
                }
                assert(false);
            }
        }
        if self.entries.len() == FANOUT {
            return LeafInsert::Full((k, v));
        }
        self.entries.insert(i, (k, v));
        proof {
            let pre = old(self)@;
            let post = self@;
            assert(post == pre.insert(i as int, (k, v)));
            assert forall|p: int, q: int| 0 <= p < q < post.len() implies post[p].0 < post[q].0 by {
                if q < i as int {
                    assert(post[p] == pre[p] && post[q] == pre[q]);
                } else if p > i as int {
                    assert(post[p] == pre[p - 1] && post[q] == pre[q - 1]);
                } else if p == i as int {
                    assert(post[q] == pre[q - 1]);
                    assert(pre[q - 1].0 >= k);
                    assert(pre[q - 1].0 != k);
                } else if q == i as int {
                    assert(post[p] == pre[p]);
                } else {
                    assert(post[p] == pre[p] && post[q] == pre[q - 1]);
                    if p < i as int && q > i as int {
                        if q - 1 == p {
                            assert(pre[p].0 < k);
                            assert(post[q].0 == pre[p].0);
                            assert(i as int <= q - 1);
                            assert(false);
                        }
                    }
                }
            }
        }
        LeafInsert::Placed
    }

    /// Retire the entry under `k`, reporting whether a live entry was found.
    pub fn remove(&mut self, k: u64) -> (r: bool)
        requires
            old(self).wf(),
        ensures
            final(self).wf(),
            remove_effect(old(self)@, final(self)@, k, r),
            final(self)@.len() == if r {
                old(self)@.len() - 1
            } else {
                old(self)@.len() as int
            },
    {
        broadcast use vstd::seq_lib::to_multiset_remove;

        let i = self.lower_bound(k);
        if i < self.entries.len() && self.entries[i].0 == k {
            proof {
                let pre = self@;
                lemma_unique_key(pre, pre[i as int]);
                assert(pre[i as int] == (k, value_of(pre, k)));
            }
            self.entries.remove(i);
            proof {
                let pre = old(self)@;
                let post = self@;
                assert(post == pre.remove(i as int));
                assert forall|p: int, q: int| 0 <= p < q < post.len() implies post[p].0
                    < post[q].0 by {
                    let pp = if p < i as int {
                        p
                    } else {
                        p + 1
                    };
                    let qq = if q < i as int {
                        q
                    } else {
                        q + 1
                    };
                    assert(post[p] == pre[pp] && post[q] == pre[qq]);
                }
            }
            true
        } else {
            proof {
                if has_key(self@, k) {
                    let j = key_index(self@, k);
                    if j < i as int {
                    } else if i < self@.len() && j > i as int {
                        assert(self@[i as int].0 < self@[j].0);
                    }
                    assert(false);
                }
            }
            false
        }
    }

    /// Move the upper half of the entries into a fresh right sibling.
    pub fn split(&mut self) -> (r: Leaf)
        requires
            old(self).wf(),
            old(self)@.len() >= 2,
        ensures
            final(self).wf(),
            r.wf(),
            final(self)@.len() == old(self)@.len() / 2,
            r@.len() == old(self)@.len() - old(self)@.len() / 2,
            final(self)@.len() >= 1,
            r@.len() >= 1,
            old(self)@ == final(self)@ + r@,
    {
        let mid = self.entries.len() / 2;
        let right = self.entries.split_off(mid);
        proof {
            assert(old(self)@ =~= self@ + right@);
        }
        Leaf { entries: right }
    }
}

} // verus!
