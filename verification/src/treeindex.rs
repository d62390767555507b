use crate::ebr::{retire, Barrier};
use crate::leaf::Leaf;
use crate::model::{
    has_key, insert_effect, key_index, lemma_min_ge_spec, lemma_remove_clears, lemma_unique_key,
    min_ge, remove_effect, sorted, value_of, Entry,
};
use crate::node::{
    cat_entries, lemma_cat_cons, lemma_filled_count_run, lemma_wf_nonempty, lemma_wf_sorted,
    node_count, node_depth, node_entries, node_filled, node_floor, node_insert, node_min_ge,
    node_remove, node_wf, pow_half, root_filled, Ins, Node,
};
use vstd::prelude::*;

verus! {

/// A scalable ordered map from keys to values. Reads walk the tree under an
/// epoch pin; retired nodes go to the reclaimer.
pub struct TreeIndex {
    root: Option<Node>,
}

impl View for TreeIndex {
    type V = Seq<Entry>;

    /// The scan sequence: every entry of the tree in key order.
    closed spec fn view(&self) -> Seq<Entry> {
        match self.root {
            None => Seq::empty(),
            Some(n) => node_entries(n),
        }
    }
}

impl TreeIndex {
    /// The tree is a sound ordered index.
    pub closed spec fn wf(&self) -> bool {
        match self.root {
            None => true,
            Some(n) => node_wf(n),
        }
    }

    /// Number of node levels: zero for the empty tree, one more than the
    /// root's floor otherwise.
    pub closed spec fn depth_spec(&self) -> nat {
        match self.root {
            None => 0,
            Some(n) => node_floor(n) + 1,
        }
    }

    /// The minimum-occupancy invariant that inserts establish and keep:
    /// every node below the root is at least half full. Removals may
    /// break it; inserts never do.
    pub closed spec fn filled(&self) -> bool {
        match self.root {
            None => true,
            Some(n) => root_filled(n),
        }
    }

    /// Depth bound: a filled tree of depth `d >= 2` holds at least
    /// `2 * (FANOUT / 2)^(d - 1)` entries. Equivalently, after `N` inserts
    /// of distinct keys into a fresh tree (no removals), the depth stays
    /// within one more than the base-`FANOUT / 2` logarithm of `N`.
    pub proof fn lemma_depth_bound(&self)
        requires
            self.wf(),
            self.filled(),
            self.depth_spec() >= 2,
        ensures
            self@.len() >= 2 * pow_half((self.depth_spec() - 1) as nat),
    {
        match self.root {
            None => {
                assert(false);
            },
            Some(n) => {
                match n {
                    Node::Leaf(_) => {
                        assert(false);
                    },
                    Node::Internal(cs) => {
                        let fl = (node_floor(n) - 1) as nat;
                        assert forall|j: int| 0 <= j < cs@.len() implies node_wf(
                            #[trigger] cs@[j],
                        ) && node_filled(cs@[j]) && node_floor(cs@[j]) == fl by {}
                        lemma_filled_count_run(cs@, fl);
                        let p = pow_half(fl + 1);
                        assert(cs@.len() * p >= 2 * p) by (nonlinear_arith)
                            requires
                                cs@.len() >= 2,
                                p >= 0,
                        ;
                    },
                }
            },
        }
    }

    /// Ordering invariant: the scan sequence is strictly increasing by key.
    pub proof fn lemma_view_sorted(&self)
        requires
            self.wf(),
        ensures
            sorted(self@),
    {
        match self.root {
            None => {},
            Some(n) => lemma_wf_sorted(n),
        }
    }

    /// Creates an empty index.
    pub fn new() -> (r: TreeIndex)
        ensures
            r.wf(),
            r.filled(),
            r@ == Seq::<Entry>::empty(),
    {
        TreeIndex { root: None }
    }

    /// The least entry with key at least `lo`, if any.
    pub fn min_ge(&self, lo: u64) -> (r: Option<Entry>)
        requires
            self.wf(),
        ensures
            r == min_ge(self@, lo),
    {
        match &self.root {
            None => None,
            Some(n) => node_min_ge(n, lo),
        }
    }

    /// Inserts a key-value pair; a pair under an already-present key is
    /// refused and handed back.
    pub fn insert(&mut self, key: u64, value: u64) -> (r: Result<(), (u64, u64)>)
        requires
            old(self).wf(),
        ensures
            final(self).wf(),
            insert_effect(old(self)@, final(self)@, key, value, r is Ok),
            r is Ok <==> !has_key(old(self)@, key),
            r is Err ==> r->Err_0 == (key, value),
            old(self).filled() ==> final(self).filled(),
    {
        broadcast use vstd::seq_lib::group_to_multiset_ensures;

        let barrier = Barrier::new();
        let root = self.root.take();
        match root {
            None => {
                self.root = Some(Node::Leaf(Leaf::new(key, value)));
                proof {
                    assert(seq![(key, value)] =~= Seq::<Entry>::empty().push((key, value)));
                }
                Ok(())
            },
            Some(rn) => {
                match node_insert(rn, key, value) {
                    Ins::One(n2, placed) => {
                        self.root = Some(n2);
                        if placed {
                            Ok(())
                        } else {
                            Err((key, value))
                        }
                    },
                    Ins::Two(x, y) => {
                        let ghost ex = node_entries(x);
                        let ghost ey = node_entries(y);
                        let mut cs: Vec<Node> = Vec::new();
                        cs.push(x);
                        cs.push(y);
                        proof {
                            let s = cs@;
                            lemma_cat_cons(s);
                            assert(s.drop_first() =~= seq![y]);
                            lemma_cat_cons(seq![y]);
                            assert(seq![y].drop_first() =~= Seq::<Node>::empty());
                            assert(ey + Seq::<Entry>::empty() =~= ey);
                            assert(Seq::<Entry>::empty() + ey =~= ey);
                            assert(cat_entries(s) =~= ex + ey);
                            assert forall|j: int| 0 <= j < s.len() implies node_wf(
                                #[trigger] s[j],
                            ) && node_floor(s[j]) == node_floor(s[0]) by {
                                if j == 0 {
                                    assert(s[j] == x);
                                } else {
                                    assert(s[j] == y);
                                }
                            }
                            if old(self).filled() {
                                assert forall|j: int| 0 <= j < s.len() implies node_filled(
                                    #[trigger] s[j],
                                ) by {
                                    if j == 0 {
                                        assert(s[j] == x);
                                    } else {
                                        assert(s[j] == y);
                                    }
                                }
                            }
                        }
                        self.root = Some(Node::Internal(cs));
                        Ok(())
                    },
                }
            },
        }
    }

    /// Removes the entry under `key`, reporting whether a live entry was
    /// retired. Emptied nodes go to the reclaimer, and a root left with a
    /// single child chain collapses.
    pub fn remove(&mut self, key: &u64) -> (r: bool)
        requires
            old(self).wf(),
        ensures
            final(self).wf(),
            remove_effect(old(self)@, final(self)@, *key, r),
            r == has_key(old(self)@, *key),
            !has_key(final(self)@, *key),
    {
        let barrier = Barrier::new();
        let root = self.root.take();
        match root {
            None => false,
            Some(rn) => {
                let ghost pre = node_entries(rn);
                proof {
                    lemma_wf_nonempty(rn);
                    lemma_wf_sorted(rn);
                }
                let rr = node_remove(rn, *key, &barrier);
                match rr.0 {
                    None => {
                        self.root = None;
                        rr.1
                    },
                    Some(m) => {
                        let m2 = collapse_root(m, &barrier);
                        self.root = Some(m2);
                        proof {
                            if has_key(pre, *key) {
                                lemma_remove_clears(pre, node_entries(m2), *key);
                            }
                        }
                        rr.1
                    },
                }
            },
        }
    }

    /// Reads the entry under `key` and applies `f` to it under the pin.
    pub fn read<U, F: FnOnce(&u64, &u64) -> U>(&self, key: &u64, f: F) -> (r: Option<U>)
        requires
            self.wf(),
            forall|a: &u64, b: &u64| #[trigger] call_requires(f, (a, b)),
        ensures
            r is Some <==> has_key(self@, *key),
            match r {
                Some(u) => call_ensures(f, (key, &value_of(self@, *key)), u),
                None => !has_key(self@, *key),
            },
    {
        let barrier = Barrier::new();
        match &self.root {
            None => None,
            Some(rn) => {
                let found = node_min_ge(rn, *key);
                proof {
                    lemma_wf_sorted(*rn);
                    lemma_min_ge_spec(node_entries(*rn), *key);
                }
                match found {
                    Some(e) => {
                        if e.0 == *key {
                            proof {
                                lemma_unique_key(node_entries(*rn), e);
                            }
                            Some(f(key, &e.1))
                        } else {
                            proof {
                                if has_key(self@, *key) {
                                    let j = key_index(self@, *key);
                                    assert(self@[j].0 >= *key);
                                    assert(e.0 <= self@[j].0);
                                }
                            }
                            None
                        }
                    },
                    None => {
                        proof {
                            if has_key(self@, *key) {
                                let j = key_index(self@, *key);
                                assert(self@[j].0 < *key);
                            }
                        }
                        None
                    },
                }
            },
        }
    }

    /// Empties the index; the whole subtree goes to the reclaimer.
    pub fn clear(&mut self)
        requires
            old(self).wf(),
        ensures
            final(self).wf(),
            final(self)@ == Seq::<Entry>::empty(),
    {
        let barrier = Barrier::new();
        let root = self.root.take();
        match root {
            None => {},
            Some(n) => {
                retire(&barrier, n);
            },
        }
    }

    /// Number of entries, by a full scan.
    pub fn len(&self) -> (r: usize)
        requires
            self.wf(),
            self@.len() <= usize::MAX,
        ensures
            r == self@.len(),
    {
        let barrier = Barrier::new();
        match &self.root {
            None => 0,
            Some(n) => node_count(n),
        }
    }

    /// Number of node levels, saturating at the machine limit.
    pub fn depth(&self) -> (r: usize)
        requires
            self.wf(),
        ensures
            self.depth_spec() <= usize::MAX ==> r == self.depth_spec(),
            self.depth_spec() > usize::MAX ==> r == usize::MAX,
            r == 0 <==> self@.len() == 0,
    {
        let barrier = Barrier::new();
        match &self.root {
            None => 0,
            Some(n) => {
                proof {
                    lemma_wf_nonempty(*n);
                }
                let d = node_depth(n);
                if d == usize::MAX {
                    d
                } else {
                    d + 1
                }
            },
        }
    }

    /// A scanner positioned before the least entry.
    pub fn iter<'a>(&'a self) -> (r: Scanner<'a>)
        requires
            self.wf(),
        ensures
            r.valid(),
            r.target() == *self,
            !r.is_started(),
            r.pos() is None,
    {
        Scanner { tree: self, barrier: Barrier::new(), started: false, current: None }
    }

    /// A scanner positioned at the least entry whose key is at least `key`,
    /// or nothing when no such entry exists.
    pub fn from<'a>(&'a self, key: &u64) -> (r: Option<Scanner<'a>>)
        requires
            self.wf(),
        ensures
            match r {
                Some(sc) => {
                    &&& sc.valid()
                    &&& sc.target() == *self
                    &&& sc.is_started()
                    &&& sc.pos() == min_ge(self@, *key)
                    &&& min_ge(self@, *key) is Some
                },
                None => min_ge(self@, *key) is None,
            },
    {
        let e = self.min_ge(*key);
        match e {
            Some(_) => Some(
                Scanner { tree: self, barrier: Barrier::new(), started: true, current: e },
            ),
            None => None,
        }
    }
}

impl Default for TreeIndex {
    /// An empty index.
    fn default() -> (r: TreeIndex)
        ensures
            r.wf(),
            r.filled(),
            r@ == Seq::<Entry>::empty(),
    {
        TreeIndex::new()
    }
}

/// Root retire protocol: while the root is an internal node with a single
/// child, swing the root to that child and retire the shell.
fn collapse_root(n: Node, barrier: &Barrier) -> (r: Node)
    requires
        node_wf(n),
    ensures
        node_wf(r),
        node_entries(r) == node_entries(n),
    decreases node_floor(n),
{
    match n {
        Node::Leaf(l) => Node::Leaf(l),
        Node::Internal(mut cs) => {
            if cs.len() == 1 {
                let ghost olds = cs@;
                let c = cs.pop().unwrap();
                proof {
                    assert(olds =~= seq![c]);
                    lemma_cat_cons(olds);
                    assert(olds.drop_first() =~= Seq::<Node>::empty());
                    assert(node_entries(c) + Seq::<Entry>::empty() =~= node_entries(c));
                }
                retire(barrier, cs);
                collapse_root(c, barrier)
            } else {
                Node::Internal(cs)
            }
        },
    }
}

/// A range scanner: holds an epoch pin for its whole lifetime and walks the
/// tree's entries in strictly increasing key order, starting over from the
/// key after the last entry it yielded.
pub struct Scanner<'a> {
    tree: &'a TreeIndex,
    barrier: Barrier,
    started: bool,
    current: Option<Entry>,
}

impl<'a> Scanner<'a> {
    /// The tree being scanned.
    pub closed spec fn target(&self) -> TreeIndex {
        *self.tree
    }

    /// The entry the scanner points at.
    pub closed spec fn pos(&self) -> Option<Entry> {
        self.current
    }

    pub closed spec fn is_started(&self) -> bool {
        self.started
    }

    pub open spec fn valid(&self) -> bool {
        self.target().wf()
    }

    /// The entry the scanner currently points to.
    pub fn get(&self) -> (r: Option<Entry>)
        ensures
            r == self.pos(),
    {
        self.current
    }

    /// Advances to the least entry above the last yielded key and returns
    /// it; once exhausted it stays exhausted.
    pub fn next(&mut self) -> (r: Option<Entry>)
        requires
            old(self).valid(),
        ensures
            final(self).valid(),
            final(self).target() == old(self).target(),
            final(self).is_started(),
            r == final(self).pos(),
            !old(self).is_started() ==> r == min_ge(old(self).target()@, 0),
            old(self).is_started() ==> r == match old(self).pos() {
                None => None::<Entry>,
                Some(e) => if e.0 < u64::MAX {
                    min_ge(old(self).target()@, (e.0 + 1) as u64)
                } else {
                    None::<Entry>
                },
            },
    {
        let t = self.tree;
        if !self.started {
            self.started = true;
            self.current = t.min_ge(0);
            self.current
        } else {
            match self.current {
                None => None,
                Some(e) => {
                    if e.0 == u64::MAX {
                        self.current = None;
                        None
                    } else {
                        self.current = t.min_ge(e.0 + 1);
                        self.current
                    }
                },
            }
        }
    }
}

} // verus!
