use crate::ebr::{retire, Barrier};
use crate::leaf::{Leaf, LeafInsert, FANOUT};
use crate::model::{
    has_key, insert_effect, key_index, lemma_has_key_middle, lemma_min_ge_concat,
    lemma_multiset_grow, lemma_multiset_shrink, lemma_sorted_glue, lemma_unique_key, min_ge,
    remove_effect, sorted, value_of, Entry,
};
use vstd::prelude::*;

verus! {

/// A tree node: either a leaf holding entries, or an internal node holding
/// an ordered run of children one floor below it.
pub enum Node {
    Leaf(Leaf),
    Internal(Vec<Node>),
}

/// All entries under `n`, in scan order.
pub open spec fn node_entries(n: Node) -> Seq<Entry>
    decreases n,
{
    match n {
        Node::Leaf(l) => l@,
        Node::Internal(cs) => cat_entries(cs@),
    }
}

/// Concatenation of the entries under a run of nodes.
pub open spec fn cat_entries(cs: Seq<Node>) -> Seq<Entry>
    decreases cs,
{
    if cs.len() == 0 {
        Seq::empty()
    } else {
        cat_entries(cs.drop_last()) + node_entries(cs.last())
    }
}

/// Distance from a node to its leaves; leaves stand at floor zero.
pub open spec fn node_floor(n: Node) -> nat
    decreases n,
{
    match n {
        Node::Leaf(_) => 0,
        Node::Internal(cs) => if cs.len() > 0 {
            1 + node_floor(cs@[0])
        } else {
            1
        },
    }
}

/// Structural soundness: bounded, non-empty, uniform floors, and entries in
/// strictly increasing key order.
pub open spec fn node_wf(n: Node) -> bool
    decreases n,
{
    match n {
        Node::Leaf(l) => l.wf() && l@.len() >= 1,
        Node::Internal(cs) => {
            &&& 1 <= cs@.len() <= FANOUT
            &&& (forall|i: int| 0 <= i < cs@.len() ==> node_wf(#[trigger] cs@[i]))
            &&& (forall|i: int|
                0 <= i < cs@.len() ==> node_floor(#[trigger] cs@[i]) == node_floor(cs@[0]))
            &&& sorted(cat_entries(cs@))
        },
    }
}

/// Minimum occupancy below a non-root node: at least half the fanout of
/// entries in a leaf or children in an internal node, recursively.
pub open spec fn node_filled(n: Node) -> bool
    decreases n,
{
    match n {
        Node::Leaf(l) => l@.len() >= FANOUT / 2,
        Node::Internal(cs) => FANOUT / 2 <= cs@.len() && (forall|i: int|
            0 <= i < cs@.len() ==> node_filled(#[trigger] cs@[i])),
    }
}

/// Minimum occupancy at the root: a root leaf may hold any number of
/// entries, a root internal node needs two children, and everything below
/// is filled to at least half the fanout.
pub open spec fn root_filled(n: Node) -> bool {
    match n {
        Node::Leaf(_) => true,
        Node::Internal(cs) => 2 <= cs@.len() && (forall|i: int|
            0 <= i < cs@.len() ==> node_filled(#[trigger] cs@[i])),
    }
}

pub proof fn lemma_filled_weaken(n: Node)
    requires
        node_filled(n),
    ensures
        root_filled(n),
{
}

/// Half the fanout raised to a power: the growth rate that minimum
/// occupancy forces on a filled subtree.
pub open spec fn pow_half(e: nat) -> nat
    decreases e,
{
    if e == 0 {
        1
    } else {
        ((FANOUT / 2) * pow_half((e - 1) as nat)) as nat
    }
}

/// A filled subtree at floor `f` holds at least `(FANOUT / 2)^(f + 1)`
/// entries.
pub proof fn lemma_filled_count(n: Node)
    requires
        node_wf(n),
        node_filled(n),
    ensures
        node_entries(n).len() >= pow_half(node_floor(n) + 1),
    decreases node_floor(n), 1int, 0int,
{
    match n {
        Node::Leaf(l) => {},
        Node::Internal(cs) => {
            lemma_filled_count_run(cs@, (node_floor(n) - 1) as nat);
            assert(node_floor(cs@[0]) == node_floor(n) - 1);
            assert(pow_half(node_floor(n) + 1) == (FANOUT / 2) * pow_half(node_floor(n) as nat));
            assert(cs@.len() * pow_half(node_floor(n) as nat) >= (FANOUT / 2) * pow_half(
                node_floor(n) as nat,
            )) by (nonlinear_arith)
                requires
                    cs@.len() >= FANOUT / 2,
                    pow_half(node_floor(n) as nat) >= 0,
            ;
        },
    }
}

/// A run of filled subtrees at a common floor holds at least its length
/// times the per-subtree minimum.
pub proof fn lemma_filled_count_run(cs: Seq<Node>, fl: nat)
    requires
        forall|j: int| 0 <= j < cs.len() ==> node_wf(#[trigger] cs[j]),
        forall|j: int| 0 <= j < cs.len() ==> node_filled(#[trigger] cs[j]),
        forall|j: int| 0 <= j < cs.len() ==> node_floor(#[trigger] cs[j]) == fl,
    ensures
        cat_entries(cs).len() >= cs.len() * pow_half(fl + 1),
    decreases fl + 1, 0int, cs.len(),
{
    if cs.len() == 0 {
        assert(cs.len() * pow_half(fl + 1) == 0) by (nonlinear_arith)
            requires
                cs.len() == 0,
        ;
    } else {
        let d = cs.drop_last();
        assert forall|j: int| 0 <= j < d.len() implies node_wf(#[trigger] d[j]) && node_filled(
            d[j],
        ) && node_floor(d[j]) == fl by {
            assert(d[j] == cs[j]);
        }
        lemma_filled_count_run(d, fl);
        lemma_filled_count(cs.last());
        assert(cat_entries(cs) == cat_entries(d) + node_entries(cs.last()));
        let p = pow_half(fl + 1);
        assert((cs.len() - 1) * p + p == cs.len() * p) by (nonlinear_arith);
    }
}

pub proof fn lemma_wf_sorted(n: Node)
    requires
        node_wf(n),
    ensures
        sorted(node_entries(n)),
{
    match n {
        Node::Leaf(l) => {},
        Node::Internal(cs) => {},
    }
}

pub proof fn lemma_wf_nonempty(n: Node)
    requires
        node_wf(n),
    ensures
        node_entries(n).len() >= 1,
    decreases node_floor(n),
{
    match n {
        Node::Leaf(l) => {},
        Node::Internal(cs) => {
            lemma_wf_nonempty(cs@[0]);
            lemma_cat_decompose(cs@, 0);
        },
    }
}

/// Splitting the concatenation at a node boundary.
pub proof fn lemma_cat_split(cs: Seq<Node>, i: int)
    requires
        0 <= i <= cs.len(),
    ensures
        cat_entries(cs) == cat_entries(cs.take(i)) + cat_entries(cs.skip(i)),
    decreases cs.len(),
{
    if i == cs.len() {
        assert(cs.take(i) =~= cs);
        assert(cs.skip(i) =~= Seq::<Node>::empty());
        assert(cat_entries(cs) =~= cat_entries(cs.take(i)) + cat_entries(cs.skip(i)));
    } else {
        let d = cs.drop_last();
        lemma_cat_split(d, i);
        assert(d.take(i) =~= cs.take(i));
        assert(cs.skip(i).drop_last() =~= d.skip(i));
        assert(cs.skip(i).last() == cs.last());
        assert(cat_entries(cs.skip(i)) == cat_entries(d.skip(i)) + node_entries(cs.last()));
        assert(cat_entries(cs.take(i)) + cat_entries(d.skip(i)) + node_entries(cs.last()) =~= cat_entries(
            cs.take(i),
        ) + (cat_entries(d.skip(i)) + node_entries(cs.last())));
    }
}

/// Isolating one node's entries inside the concatenation.
pub proof fn lemma_cat_decompose(cs: Seq<Node>, i: int)
    requires
        0 <= i < cs.len(),
    ensures
        cat_entries(cs) == cat_entries(cs.take(i)) + node_entries(cs[i]) + cat_entries(
            cs.skip(i + 1),
        ),
{
    lemma_cat_split(cs, i);
    let s = cs.skip(i);
    lemma_cat_split(s, 1);
    assert(s.take(1).drop_last() =~= Seq::<Node>::empty());
    assert(s.take(1).last() == cs[i]);
    assert(cat_entries(s.take(1)) == cat_entries(Seq::<Node>::empty()) + node_entries(cs[i]));
    assert(Seq::<Entry>::empty() + node_entries(cs[i]) =~= node_entries(cs[i]));
    assert(s.skip(1) =~= cs.skip(i + 1));
    assert(cat_entries(cs.take(i)) + (node_entries(cs[i]) + cat_entries(cs.skip(i + 1))) =~= cat_entries(
        cs.take(i),
    ) + node_entries(cs[i]) + cat_entries(cs.skip(i + 1)));
}

/// One more node on the right of a prefix.
pub proof fn lemma_cat_snoc(cs: Seq<Node>, j: int)
    requires
        0 <= j < cs.len(),
    ensures
        cat_entries(cs.take(j + 1)) == cat_entries(cs.take(j)) + node_entries(cs[j]),
{
    let t = cs.take(j + 1);
    assert(t.drop_last() =~= cs.take(j));
    assert(t.last() == cs[j]);
    assert(cat_entries(t) == cat_entries(cs.take(j)) + node_entries(cs[j]));
}

/// Peeling the first node off the concatenation.
pub proof fn lemma_cat_cons(cs: Seq<Node>)
    requires
        cs.len() > 0,
    ensures
        cat_entries(cs) == node_entries(cs[0]) + cat_entries(cs.drop_first()),
{
    lemma_cat_decompose(cs, 0);
    assert(cs.take(0) =~= Seq::<Node>::empty());
    assert(cs.skip(1) =~= cs.drop_first());
    assert(Seq::<Entry>::empty() + node_entries(cs[0]) + cat_entries(cs.drop_first())
        =~= node_entries(cs[0]) + cat_entries(cs.drop_first()));
}

/// When every node of the run tops out below `k`, so does every entry.
pub proof fn lemma_cat_keys_below(cs: Seq<Node>, k: u64)
    requires
        forall|j: int| 0 <= j < cs.len() ==> node_wf(#[trigger] cs[j]),
        forall|j: int| 0 <= j < cs.len() ==> node_entries(#[trigger] cs[j]).last().0 < k,
    ensures
        forall|p: int| 0 <= p < cat_entries(cs).len() ==> #[trigger] cat_entries(cs)[p].0 < k,
    decreases cs.len(),
{
    if cs.len() > 0 {
        let d = cs.drop_last();
        assert forall|j: int| 0 <= j < d.len() implies node_wf(#[trigger] d[j]) && node_entries(
            d[j],
        ).last().0 < k by {
            assert(d[j] == cs[j]);
        }
        lemma_cat_keys_below(d, k);
        let e = node_entries(cs.last());
        lemma_wf_sorted(cs.last());
        lemma_wf_nonempty(cs.last());
        assert(cat_entries(cs) == cat_entries(d) + e);
        assert forall|p: int| 0 <= p < cat_entries(cs).len() implies #[trigger] cat_entries(
            cs,
        )[p].0 < k by {
            if p < cat_entries(d).len() {
                assert(cat_entries(cs)[p] == cat_entries(d)[p]);
            } else {
                let q = p - cat_entries(d).len();
                assert(cat_entries(cs)[p] == e[q]);
                if q < e.len() - 1 {
                    assert(e[q].0 < e.last().0);
                }
            }
        }
    }
}

/// The greatest key under `n`.
pub fn node_max(n: &Node) -> (r: u64)
    requires
        node_wf(*n),
    ensures
        node_entries(*n).len() >= 1,
        r == node_entries(*n).last().0,
    decreases node_floor(*n),
{
    match n {
        Node::Leaf(l) => l.last_key(),
        Node::Internal(cs) => {
            let r = node_max(&cs[cs.len() - 1]);
            proof {
                let s = cs@;
                assert(cat_entries(s) == cat_entries(s.drop_last()) + node_entries(s.last()));
                assert(node_entries(s.last()).len() >= 1);
                assert(cat_entries(s).last() == node_entries(s.last()).last());
            }
            r
        },
    }
}

/// Index of the child that owns key `k`: the first child whose greatest key
/// is at least `k`, or the last child when every child tops out below `k`.
fn find_child(cs: &Vec<Node>, k: u64) -> (i: usize)
    requires
        cs@.len() >= 1,
        forall|j: int| 0 <= j < cs@.len() ==> node_wf(#[trigger] cs@[j]),
    ensures
        (i as int) < cs@.len(),
        forall|j: int| 0 <= j < i ==> node_entries(#[trigger] cs@[j]).last().0 < k,
        (i as int) + 1 < cs@.len() ==> node_entries(cs@[i as int]).last().0 >= k,
{
    let mut i: usize = 0;
    while i < cs.len() - 1
        invariant
            0 <= i < cs@.len(),
            forall|j: int| 0 <= j < i ==> node_entries(#[trigger] cs@[j]).last().0 < k,
            forall|j: int| 0 <= j < cs@.len() ==> node_wf(#[trigger] cs@[j]),
        decreases cs@.len() - i,
    {
        let m = node_max(&cs[i]);
        if m >= k {
            return i;
        }
        i += 1;
    }
    i
}

/// The least entry under `n` with key at least `lo`.
pub fn node_min_ge(n: &Node, lo: u64) -> (r: Option<Entry>)
    requires
        node_wf(*n),
    ensures
        r == min_ge(node_entries(*n), lo),
    decreases node_floor(*n),
{
    match n {
        Node::Leaf(l) => l.min_ge(lo),
        Node::Internal(cs) => {
            let mut j: usize = 0;
            while j < cs.len()
                invariant
                    0 <= j <= cs@.len(),
                    node_wf(*n),
                    *n == Node::Internal(*cs),
                    min_ge(cat_entries(cs@.take(j as int)), lo) is None,
                decreases cs@.len() - j,
            {
                let r = node_min_ge(&cs[j], lo);
                proof {
                    lemma_cat_snoc(cs@, j as int);
                    lemma_min_ge_concat(
                        cat_entries(cs@.take(j as int)),
                        node_entries(cs@[j as int]),
                        lo,
                    );
                }
                if r.is_some() {
                    proof {
                        lemma_cat_split(cs@, j + 1);
                        lemma_min_ge_concat(
                            cat_entries(cs@.take(j + 1)),
                            cat_entries(cs@.skip(j + 1)),
                            lo,
                        );
                    }
                    return r;
                }
                j += 1;
            }
            proof {
                assert(cs@.take(cs@.len() as int) =~= cs@);
            }
            None
        },
    }
}

/// Number of entries under `n`.
pub fn node_count(n: &Node) -> (r: usize)
    requires
        node_wf(*n),
        node_entries(*n).len() <= usize::MAX,
    ensures
        r == node_entries(*n).len(),
    decreases node_floor(*n),
{
    match n {
        Node::Leaf(l) => l.len(),
        Node::Internal(cs) => {
            let mut acc: usize = 0;
            let mut j: usize = 0;
            while j < cs.len()
                invariant
                    0 <= j <= cs@.len(),
                    node_wf(*n),
                    *n == Node::Internal(*cs),
                    node_entries(*n).len() <= usize::MAX,
                    acc == cat_entries(cs@.take(j as int)).len(),
                decreases cs@.len() - j,
            {
                proof {
                    lemma_cat_snoc(cs@, j as int);
                    lemma_cat_split(cs@, j + 1);
                }
                let c = node_count(&cs[j]);
                acc = acc + c;
                j += 1;
            }
            proof {
                assert(cs@.take(cs@.len() as int) =~= cs@);
            }
            acc
        },
    }
}

/// Depth of the subtree under `n`, saturating at the machine limit.
pub fn node_depth(n: &Node) -> (r: usize)
    requires
        node_wf(*n),
    ensures
        node_floor(*n) <= usize::MAX ==> r == node_floor(*n),
        node_floor(*n) > usize::MAX ==> r == usize::MAX,
    decreases node_floor(*n),
{
    match n {
        Node::Leaf(_) => 0,
        Node::Internal(cs) => {
            let d = node_depth(&cs[0]);
            if d == usize::MAX {
                usize::MAX
            } else {
                d + 1
            }
        },
    }
}

/// Outcome of a recursive insertion: the node as one piece, or the two
/// halves a split produced, for the parent to adopt.
pub enum Ins {
    One(Node, bool),
    Two(Node, Node),
}

pub open spec fn ins_entries(r: Ins) -> Seq<Entry> {
    match r {
        Ins::One(n, _) => node_entries(n),
        Ins::Two(x, y) => node_entries(x) + node_entries(y),
    }
}

pub open spec fn ins_placed(r: Ins) -> bool {
    match r {
        Ins::One(_, p) => p,
        Ins::Two(_, _) => true,
    }
}

pub open spec fn ins_wf(r: Ins, fl: nat) -> bool {
    match r {
        Ins::One(n, _) => node_wf(n) && node_floor(n) == fl,
        Ins::Two(x, y) => node_wf(x) && node_wf(y) && node_floor(x) == fl && node_floor(y) == fl,
    }
}

/// Keys of the prefix run stay below `k`, keys of the suffix run stay above:
/// what the child choice of `find_child` guarantees around the chosen child.
proof fn lemma_nav_bounds(olds: Seq<Node>, gi: int, k: u64)
    requires
        0 <= gi < olds.len(),
        forall|j: int| 0 <= j < olds.len() ==> node_wf(#[trigger] olds[j]),
        sorted(cat_entries(olds)),
        forall|j: int| 0 <= j < gi ==> node_entries(#[trigger] olds[j]).last().0 < k,
        gi + 1 < olds.len() ==> node_entries(olds[gi]).last().0 >= k,
    ensures
        forall|p: int|
            0 <= p < cat_entries(olds.take(gi)).len() ==> #[trigger] cat_entries(
                olds.take(gi),
            )[p].0 < k,
        forall|p: int|
            0 <= p < cat_entries(olds.skip(gi + 1)).len() ==> #[trigger] cat_entries(
                olds.skip(gi + 1),
            )[p].0 > k,
{
    let aa = olds.take(gi);
    let cc = olds.skip(gi + 1);
    let bb = node_entries(olds[gi]);
    lemma_cat_decompose(olds, gi);
    assert forall|j: int| 0 <= j < aa.len() implies node_wf(#[trigger] aa[j]) && node_entries(
        aa[j],
    ).last().0 < k by {
        assert(aa[j] == olds[j]);
    }
    lemma_cat_keys_below(aa, k);
    lemma_wf_nonempty(olds[gi]);
    let whole = cat_entries(olds);
    let base = cat_entries(aa).len() + bb.len();
    assert forall|p: int| 0 <= p < cat_entries(cc).len() implies #[trigger] cat_entries(cc)[p].0
        > k by {
        assert(gi + 1 < olds.len()) by {
            if gi + 1 == olds.len() {
                assert(cc =~= Seq::<Node>::empty());
            }
        }
        assert(whole[base + p] == cat_entries(cc)[p]);
        assert(whole[base - 1] == bb.last());
        assert(whole[base - 1].0 < whole[base + p].0);
        assert(bb.last().0 >= k);
    }
}

/// A full leaf splits into two halves and the offered entry lands in the
/// half its key belongs to.
fn leaf_split_insert(l: Leaf, k: u64, v: u64) -> (r: (Leaf, Leaf))
    requires
        l.wf(),
        l@.len() == FANOUT,
        !has_key(l@, k),
    ensures
        r.0.wf(),
        r.1.wf(),
        r.0@.len() >= FANOUT / 2,
        r.1@.len() >= FANOUT / 2,
        insert_effect(l@, r.0@ + r.1@, k, v, true),
{
    broadcast use vstd::seq_lib::lemma_multiset_commutative;
    broadcast use vstd::multiset::group_multiset_axioms;
    broadcast use vstd::seq_lib::group_to_multiset_ensures;

    let ghost pre = l@;
    let mut l = l;
    let mut right = l.split();
    let rk = right.first_key();
    proof {
        assert(pre =~= l@ + right@);
        assert(right@[0] == pre[l@.len() as int]);
        assert(!has_key(l@, k)) by {
            if has_key(l@, k) {
                let q = choose|q: int| 0 <= q < l@.len() && l@[q].0 == k;
                assert(pre[q].0 == k);
            }
        }
        assert(!has_key(right@, k)) by {
            if has_key(right@, k) {
                let q = choose|q: int| 0 <= q < right@.len() && right@[q].0 == k;
                assert(pre[l@.len() + q].0 == k);
            }
        }
        assert(k != rk) by {
            assert(right@[0].0 == rk);
        }
    }
    if k < rk {
        let ghost lpre = l@;
        let res2 = l.insert(k, v);
        proof {
            assert(lpre.len() < FANOUT);
        }
        match res2 {
            LeafInsert::Placed => {},
            _ => {
                proof {
                    assert(false);
                }
            },
        }
        proof {
            lemma_multiset_grow(lpre, l@, (k, v));
            assert(Seq::<Entry>::empty() + lpre + right@ =~= pre);
            lemma_sorted_glue(Seq::<Entry>::empty(), lpre, right@, l@, k);
            assert(Seq::<Entry>::empty() + l@ + right@ =~= l@ + right@);
            assert((l@ + right@).to_multiset() =~= pre.to_multiset().insert((k, v))) by {
                assert((l@ + right@).to_multiset() == l@.to_multiset().add(right@.to_multiset()));
                assert((lpre + right@).to_multiset() == lpre.to_multiset().add(
                    right@.to_multiset(),
                ));
            }
        }
        (l, right)
    } else {
        let ghost rpre = right@;
        let res2 = right.insert(k, v);
        proof {
            assert(rpre.len() < FANOUT);
        }
        match res2 {
            LeafInsert::Placed => {},
            _ => {
                proof {
                    assert(false);
                }
            },
        }
        proof {
            assert(k > rk);
            lemma_multiset_grow(rpre, right@, (k, v));
            assert(l@ + rpre + Seq::<Entry>::empty() =~= pre);
            assert forall|p: int| 0 <= p < l@.len() implies l@[p].0 < k by {
                assert(pre[p] == l@[p]);
                assert(pre[l@.len() as int].0 == rk);
                assert(pre[p].0 < rk);
            }
            lemma_sorted_glue(l@, rpre, Seq::<Entry>::empty(), right@, k);
            assert(l@ + right@ + Seq::<Entry>::empty() =~= l@ + right@);
            assert((l@ + right@).to_multiset() =~= pre.to_multiset().insert((k, v))) by {
                assert((l@ + right@).to_multiset() == l@.to_multiset().add(right@.to_multiset()));
                assert((l@ + rpre).to_multiset() == l@.to_multiset().add(rpre.to_multiset()));
                assert(l@ + rpre =~= pre);
            }
        }
        (l, right)
    }
}

/// Replacing the chosen child by what its insertion returned keeps the run
/// sound and carries the insertion effect up to the whole run.
proof fn lemma_update_one(olds: Seq<Node>, c2: Node, gi: int, k: u64, v: u64, placed: bool)
    requires
        0 <= gi < olds.len(),
        forall|j: int| 0 <= j < olds.len() ==> node_wf(#[trigger] olds[j]),
        forall|j: int|
            0 <= j < olds.len() ==> node_floor(#[trigger] olds[j]) == node_floor(olds[0]),
        sorted(cat_entries(olds)),
        forall|j: int| 0 <= j < gi ==> node_entries(#[trigger] olds[j]).last().0 < k,
        gi + 1 < olds.len() ==> node_entries(olds[gi]).last().0 >= k,
        node_wf(c2),
        node_floor(c2) == node_floor(olds[gi]),
        insert_effect(node_entries(olds[gi]), node_entries(c2), k, v, placed),
    ensures
        insert_effect(cat_entries(olds), cat_entries(olds.update(gi, c2)), k, v, placed),
        sorted(cat_entries(olds.update(gi, c2))),
        forall|j: int| 0 <= j < olds.len() ==> node_wf(#[trigger] olds.update(gi, c2)[j]),
        forall|j: int|
            0 <= j < olds.len() ==> node_floor(#[trigger] olds.update(gi, c2)[j]) == node_floor(
                olds[0],
            ),
{
    broadcast use vstd::seq_lib::lemma_multiset_commutative;
    broadcast use vstd::multiset::group_multiset_axioms;
    broadcast use vstd::seq_lib::group_to_multiset_ensures;

    let news = olds.update(gi, c2);
    let aa = cat_entries(olds.take(gi));
    let bb = node_entries(olds[gi]);
    let cc = cat_entries(olds.skip(gi + 1));
    lemma_cat_decompose(olds, gi);
    lemma_nav_bounds(olds, gi, k);
    lemma_has_key_middle(aa, bb, cc, k);
    assert(news.take(gi) =~= olds.take(gi));
    assert(news.skip(gi + 1) =~= olds.skip(gi + 1));
    assert(news[gi] == c2);
    lemma_cat_decompose(news, gi);
    let e2 = node_entries(c2);
    if placed {
        lemma_multiset_grow(bb, e2, (k, v));
        lemma_wf_sorted(c2);
        lemma_sorted_glue(aa, bb, cc, e2, k);
        assert(cat_entries(news).to_multiset() =~= cat_entries(olds).to_multiset().insert(
            (k, v),
        )) by {
            assert((aa + e2).to_multiset() == aa.to_multiset().add(e2.to_multiset()));
            assert((aa + e2 + cc).to_multiset() == (aa + e2).to_multiset().add(cc.to_multiset()));
            assert((aa + bb).to_multiset() == aa.to_multiset().add(bb.to_multiset()));
            assert((aa + bb + cc).to_multiset() == (aa + bb).to_multiset().add(cc.to_multiset()));
        }
    } else {
        assert(e2 == bb);
        assert(cat_entries(news) == cat_entries(olds));
    }
    assert forall|j: int| 0 <= j < olds.len() implies node_wf(#[trigger] news[j]) && node_floor(
        news[j],
    ) == node_floor(olds[0]) by {
        if j != gi {
            assert(news[j] == olds[j]);
        }
    }
}

/// Adopting the two halves of a split child keeps the run sound and carries
/// the insertion effect up to the whole run.
proof fn lemma_insert_two(olds: Seq<Node>, x: Node, y: Node, gi: int, k: u64, v: u64)
    requires
        0 <= gi < olds.len(),
        forall|j: int| 0 <= j < olds.len() ==> node_wf(#[trigger] olds[j]),
        forall|j: int|
            0 <= j < olds.len() ==> node_floor(#[trigger] olds[j]) == node_floor(olds[0]),
        sorted(cat_entries(olds)),
        forall|j: int| 0 <= j < gi ==> node_entries(#[trigger] olds[j]).last().0 < k,
        gi + 1 < olds.len() ==> node_entries(olds[gi]).last().0 >= k,
        node_wf(x),
        node_wf(y),
        node_floor(x) == node_floor(olds[gi]),
        node_floor(y) == node_floor(olds[gi]),
        insert_effect(
            node_entries(olds[gi]),
            node_entries(x) + node_entries(y),
            k,
            v,
            true,
        ),
    ensures
        ({
            let news = olds.take(gi) + seq![x, y] + olds.skip(gi + 1);
            &&& insert_effect(cat_entries(olds), cat_entries(news), k, v, true)
            &&& sorted(cat_entries(news))
            &&& news.len() == olds.len() + 1
            &&& forall|j: int| 0 <= j < news.len() ==> node_wf(#[trigger] news[j])
            &&& forall|j: int|
                0 <= j < news.len() ==> node_floor(#[trigger] news[j]) == node_floor(olds[0])
        }),
{
    broadcast use vstd::seq_lib::lemma_multiset_commutative;
    broadcast use vstd::multiset::group_multiset_axioms;
    broadcast use vstd::seq_lib::group_to_multiset_ensures;

    let news = olds.take(gi) + seq![x, y] + olds.skip(gi + 1);
    let aa = cat_entries(olds.take(gi));
    let bb = node_entries(olds[gi]);
    let cc = cat_entries(olds.skip(gi + 1));
    let ex = node_entries(x);
    let ey = node_entries(y);
    let exy = ex + ey;
    lemma_cat_decompose(olds, gi);
    lemma_nav_bounds(olds, gi, k);
    lemma_has_key_middle(aa, bb, cc, k);
    lemma_cat_split(news, gi);
    assert(news.take(gi) =~= olds.take(gi));
    let rest = news.skip(gi);
    assert(rest =~= seq![x, y] + olds.skip(gi + 1));
    lemma_cat_cons(rest);
    assert(rest[0] == x);
    let rest2 = rest.drop_first();
    assert(rest2 =~= seq![y] + olds.skip(gi + 1));
    lemma_cat_cons(rest2);
    assert(rest2[0] == y);
    assert(rest2.drop_first() =~= olds.skip(gi + 1));
    assert(cat_entries(news) == aa + (ex + (ey + cc)));
    assert(cat_entries(news) =~= aa + exy + cc);
    lemma_multiset_grow(bb, exy, (k, v));
    lemma_sorted_glue(aa, bb, cc, exy, k);
    assert(cat_entries(news).to_multiset() =~= cat_entries(olds).to_multiset().insert((k, v))) by {
        assert((aa + exy).to_multiset() == aa.to_multiset().add(exy.to_multiset()));
        assert((aa + exy + cc).to_multiset() == (aa + exy).to_multiset().add(cc.to_multiset()));
        assert((aa + bb).to_multiset() == aa.to_multiset().add(bb.to_multiset()));
        assert((aa + bb + cc).to_multiset() == (aa + bb).to_multiset().add(cc.to_multiset()));
    }
    assert forall|j: int| 0 <= j < news.len() implies node_wf(#[trigger] news[j]) && node_floor(
        news[j],
    ) == node_floor(olds[0]) by {
        if j < gi {
            assert(news[j] == olds[j]);
        } else if j == gi {
            assert(news[j] == x);
        } else if j == gi + 1 {
            assert(news[j] == y);
        } else {
            assert(news[j] == olds[j - 1]);
        }
    }
}

/// Cutting a sound run in two leaves two sound runs whose entries
/// concatenate to the original's.
proof fn lemma_split_run(news: Seq<Node>, gm: int)
    requires
        0 < gm < news.len(),
        forall|j: int| 0 <= j < news.len() ==> node_wf(#[trigger] news[j]),
        forall|j: int|
            0 <= j < news.len() ==> node_floor(#[trigger] news[j]) == node_floor(news[0]),
        sorted(cat_entries(news)),
    ensures
        cat_entries(news) == cat_entries(news.take(gm)) + cat_entries(news.skip(gm)),
        sorted(cat_entries(news.take(gm))),
        sorted(cat_entries(news.skip(gm))),
        forall|j: int|
            0 <= j < gm ==> node_wf(#[trigger] news.take(gm)[j]) && node_floor(news.take(gm)[j])
                == node_floor(news[0]),
        forall|j: int|
            0 <= j < news.len() - gm ==> node_wf(#[trigger] news.skip(gm)[j]) && node_floor(
                news.skip(gm)[j],
            ) == node_floor(news[0]),
{
    lemma_cat_split(news, gm);
    let wl = cat_entries(news.take(gm));
    let wr = cat_entries(news.skip(gm));
    let whole = cat_entries(news);
    assert forall|p: int, q: int| 0 <= p < q < wl.len() implies wl[p].0 < wl[q].0 by {
        assert(whole[p] == wl[p] && whole[q] == wl[q]);
    }
    assert forall|p: int, q: int| 0 <= p < q < wr.len() implies wr[p].0 < wr[q].0 by {
        assert(whole[wl.len() + p] == wr[p] && whole[wl.len() + q] == wr[q]);
    }
    assert forall|j: int| 0 <= j < gm implies node_wf(#[trigger] news.take(gm)[j]) && node_floor(
        news.take(gm)[j],
    ) == node_floor(news[0]) by {
        assert(news.take(gm)[j] == news[j]);
    }
    assert forall|j: int| 0 <= j < news.len() - gm implies node_wf(#[trigger] news.skip(gm)[j])
        && node_floor(news.skip(gm)[j]) == node_floor(news[0]) by {
        assert(news.skip(gm)[j] == news[gm + j]);
    }
}

/// Replacing one filled node of a filled run keeps the run filled.
proof fn lemma_filled_update(olds: Seq<Node>, c2: Node, gi: int)
    requires
        0 <= gi < olds.len(),
        forall|j: int| 0 <= j < olds.len() ==> node_filled(#[trigger] olds[j]),
        node_filled(c2),
    ensures
        forall|j: int| 0 <= j < olds.len() ==> node_filled(#[trigger] olds.update(gi, c2)[j]),
{
    assert forall|j: int| 0 <= j < olds.len() implies node_filled(
        #[trigger] olds.update(gi, c2)[j],
    ) by {
        if j != gi {
            assert(olds.update(gi, c2)[j] == olds[j]);
        }
    }
}

/// Replacing one filled node of a filled run by two filled nodes keeps the
/// run filled.
proof fn lemma_filled_insert2(olds: Seq<Node>, x: Node, y: Node, gi: int)
    requires
        0 <= gi < olds.len(),
        forall|j: int| 0 <= j < olds.len() ==> node_filled(#[trigger] olds[j]),
        node_filled(x),
        node_filled(y),
    ensures
        ({
            let news = olds.take(gi) + seq![x, y] + olds.skip(gi + 1);
            forall|j: int| 0 <= j < news.len() ==> node_filled(#[trigger] news[j])
        }),
{
    let news = olds.take(gi) + seq![x, y] + olds.skip(gi + 1);
    assert forall|j: int| 0 <= j < news.len() implies node_filled(#[trigger] news[j]) by {
        if j < gi {
            assert(news[j] == olds[j]);
        } else if j == gi {
            assert(news[j] == x);
        } else if j == gi + 1 {
            assert(news[j] == y);
        } else {
            assert(news[j] == olds[j - 1]);
        }
    }
}

/// Insert `(k, v)` under `n`, splitting on the way back up when a node
/// overflows its fanout.
#[verifier::rlimit(60)]
#[verifier::spinoff_prover]
pub fn node_insert(n: Node, k: u64, v: u64) -> (r: Ins)
    requires
        node_wf(n),
    ensures
        ins_wf(r, node_floor(n)),
        insert_effect(node_entries(n), ins_entries(r), k, v, ins_placed(r)),
        root_filled(n) ==> match r {
            Ins::One(n2, _) => root_filled(n2),
            Ins::Two(x, y) => node_filled(x) && node_filled(y),
        },
        node_filled(n) ==> match r {
            Ins::One(n2, _) => node_filled(n2),
            Ins::Two(x, y) => node_filled(x) && node_filled(y),
        },
    decreases node_floor(n),
{
    match n {
        Node::Leaf(mut l) => {
            let res = l.insert(k, v);
            match res {
                LeafInsert::Placed => Ins::One(Node::Leaf(l), true),
                LeafInsert::Duplicate(_) => Ins::One(Node::Leaf(l), false),
                LeafInsert::Full(_) => {
                    let halves = leaf_split_insert(l, k, v);
                    Ins::Two(Node::Leaf(halves.0), Node::Leaf(halves.1))
                },
            }
        },
        Node::Internal(mut cs) => {
            let ghost fl = node_floor(n);
            let ghost olds = cs@;
            proof {
                assert(node_entries(n) == cat_entries(olds));
                assert(fl == 1 + node_floor(olds[0]));
            }
            let i = find_child(&cs, k);
            let ghost gi = i as int;
            let child = cs.remove(i);
            let r = node_insert(child, k, v);
            match r {
                Ins::One(c2, placed) => {
                    cs.insert(i, c2);
                    proof {
                        assert(cs@ =~= olds.update(gi, c2));
                        lemma_update_one(olds, c2, gi, k, v, placed);
                        if root_filled(n) || node_filled(n) {
                            assert(node_filled(olds[gi]));
                            lemma_filled_weaken(olds[gi]);
                            lemma_filled_update(olds, c2, gi);
                        }
                        if gi == 0 {
                            assert(cs@[0] == c2);
                        } else {
                            assert(cs@[0] == olds[0]);
                        }
                        assert(node_floor(Node::Internal(cs)) == fl);
                    }
                    Ins::One(Node::Internal(cs), placed)
                },
                Ins::Two(x, y) => {
                    proof {
                        lemma_insert_two(olds, x, y, gi, k, v);
                        if root_filled(n) || node_filled(n) {
                            assert(node_filled(olds[gi]));
                            lemma_filled_weaken(olds[gi]);
                            lemma_filled_insert2(olds, x, y, gi);
                        }
                    }
                    cs.insert(i, y);
                    cs.insert(i, x);
                    let ghost news = cs@;
                    proof {
                        assert(news =~= olds.take(gi) + seq![x, y] + olds.skip(gi + 1));
                    }
                    if cs.len() > FANOUT {
                        let mid = cs.len() / 2;
                        let right = cs.split_off(mid);
                        proof {
                            let gm = mid as int;
                            lemma_split_run(news, gm);
                            assert(cs@ =~= news.take(gm));
                            assert(right@ =~= news.skip(gm));
                            assert(cs@[0] == news[0]);
                            assert(right@[0] == news[gm]);
                            assert(node_floor(Node::Internal(cs)) == fl);
                            assert(node_floor(Node::Internal(right)) == fl);
                            if root_filled(n) || node_filled(n) {
                                assert(news.len() == FANOUT + 1);
                                assert forall|j: int| 0 <= j < cs@.len() implies node_filled(
                                    #[trigger] cs@[j],
                                ) by {
                                    assert(cs@[j] == news[j]);
                                }
                                assert forall|j: int| 0 <= j < right@.len() implies node_filled(
                                    #[trigger] right@[j],
                                ) by {
                                    assert(right@[j] == news[gm + j]);
                                }
                            }
                        }
                        Ins::Two(Node::Internal(cs), Node::Internal(right))
                    } else {
                        proof {
                            if gi == 0 {
                                assert(news[0] == x);
                            } else {
                                assert(news[0] == olds[0]);
                            }
                            assert(node_floor(Node::Internal(cs)) == fl);
                        }
                        Ins::One(Node::Internal(cs), true)
                    }
                },
            }
        },
    }
}

/// Remove the entry under key `k` below `n`. Returns the surviving node
/// (or nothing when the subtree emptied) and whether a live entry was
/// retired. Emptied leaves are handed to the reclaimer.
pub fn node_remove(n: Node, k: u64, barrier: &Barrier) -> (r: (Option<Node>, bool))
    requires
        node_wf(n),
    ensures
        match r.0 {
            Some(m) => node_wf(m) && node_floor(m) == node_floor(n) && remove_effect(
                node_entries(n),
                node_entries(m),
                k,
                r.1,
            ),
            None => remove_effect(node_entries(n), Seq::empty(), k, r.1),
        },
    decreases node_floor(n),
{
    broadcast use vstd::seq_lib::lemma_multiset_commutative;
    broadcast use vstd::multiset::group_multiset_axioms;
    broadcast use vstd::seq_lib::group_to_multiset_ensures;

    match n {
        Node::Leaf(mut l) => {
            let removed = l.remove(k);
            if l.len() == 0 {
                proof {
                    assert(l@ =~= Seq::<Entry>::empty());
                }
                retire(barrier, l);
                (None, removed)
            } else {
                (Some(Node::Leaf(l)), removed)
            }
        },
        Node::Internal(mut cs) => {
            let ghost fl = node_floor(n);
            let ghost olds = cs@;
            proof {
                assert(node_entries(n) == cat_entries(olds));
            }
            let i = find_child(&cs, k);
            let ghost gi = i as int;
            let ghost aa = cat_entries(olds.take(gi));
            let ghost bb = node_entries(olds[gi]);
            let ghost cc = cat_entries(olds.skip(gi + 1));
            proof {
                lemma_cat_decompose(olds, gi);
                lemma_nav_bounds(olds, gi, k);
                lemma_has_key_middle(aa, bb, cc, k);
                lemma_wf_nonempty(olds[gi]);
            }
            let child = cs.remove(i);
            let rr = node_remove(child, k, barrier);
            let removed = rr.1;
            proof {
                if has_key(bb, k) {
                    let x = (k, value_of(bb, k));
                    assert(bb[key_index(bb, k)] == x);
                    assert(bb.contains(x));
                    assert(cat_entries(olds)[aa.len() + key_index(bb, k)] == x);
                    assert(cat_entries(olds).contains(x));
                    lemma_unique_key(cat_entries(olds), x);
                }
            }
            match rr.0 {
                Some(m) => {
                    cs.insert(i, m);
                    let ghost news = cs@;
                    proof {
                        assert(news =~= olds.update(gi, m));
                        assert(news.take(gi) =~= olds.take(gi));
                        assert(news.skip(gi + 1) =~= olds.skip(gi + 1));
                        lemma_cat_decompose(news, gi);
                        let em = node_entries(m);
                        if has_key(bb, k) {
                            let x = (k, value_of(bb, k));
                            lemma_multiset_shrink(bb, em, x);
                            lemma_wf_sorted(m);
                            lemma_sorted_glue(aa, bb, cc, em, k);
                            assert(cat_entries(news).to_multiset() =~= cat_entries(
                                olds,
                            ).to_multiset().remove(x)) by {
                                assert((aa + em).to_multiset() == aa.to_multiset().add(
                                    em.to_multiset(),
                                ));
                                assert((aa + em + cc).to_multiset() == (aa
                                    + em).to_multiset().add(cc.to_multiset()));
                                assert((aa + bb).to_multiset() == aa.to_multiset().add(
                                    bb.to_multiset(),
                                ));
                                assert((aa + bb + cc).to_multiset() == (aa
                                    + bb).to_multiset().add(cc.to_multiset()));
                                assert(bb.to_multiset().count(x) > 0);
                            }
                        } else {
                            assert(em == bb);
                            assert(cat_entries(news) == cat_entries(olds));
                        }
                        assert forall|j: int| 0 <= j < news.len() implies node_wf(
                            #[trigger] news[j],
                        ) && node_floor(news[j]) == node_floor(news[0]) by {
                            if j != gi {
                                assert(news[j] == olds[j]);
                            }
                            if gi == 0 {
                                assert(news[0] == m);
                            } else {
                                assert(news[0] == olds[0]);
                            }
                        }
                        assert(node_floor(Node::Internal(cs)) == fl) by {
                            if gi == 0 {
                                assert(news[0] == m);
                            } else {
                                assert(news[0] == olds[0]);
                            }
                        }
                    }
                    (Some(Node::Internal(cs)), removed)
                },
                None => {
                    proof {
                        assert(has_key(bb, k) && removed) by {
                            if !has_key(bb, k) {
                                assert(Seq::<Entry>::empty() == bb);
                                assert(bb.len() >= 1);
                            }
                        }
                    }
                    if cs.len() == 0 {
                        proof {
                            assert(olds.len() == 1 && gi == 0);
                            assert(olds.take(0) =~= Seq::<Node>::empty());
                            assert(olds.skip(1) =~= Seq::<Node>::empty());
                            assert(aa =~= Seq::<Entry>::empty());
                            assert(cc =~= Seq::<Entry>::empty());
                            let x = (k, value_of(bb, k));
                            assert(cat_entries(olds) =~= aa + bb + cc);
                            assert(aa + bb + cc =~= bb);
                            assert(Seq::<Entry>::empty().to_multiset() =~= cat_entries(
                                olds,
                            ).to_multiset().remove(x)) by {
                                assert(Seq::<Entry>::empty().to_multiset() == bb.to_multiset().remove(x));
                            }
                        }
                        (None, removed)
                    } else {
                        let ghost news = cs@;
                        proof {
                            assert(news =~= olds.remove(gi));
                            assert(news.take(gi) =~= olds.take(gi));
                            assert(news.skip(gi) =~= olds.skip(gi + 1));
                            lemma_cat_split(news, gi);
                            assert(cat_entries(news) == aa + cc);
                            let x = (k, value_of(bb, k));
                            lemma_sorted_glue(aa, bb, cc, Seq::<Entry>::empty(), k);
                            assert(aa + Seq::<Entry>::empty() + cc =~= aa + cc);
                            assert(cat_entries(news).to_multiset() =~= cat_entries(
                                olds,
                            ).to_multiset().remove(x)) by {
                                assert(Seq::<Entry>::empty().to_multiset() == bb.to_multiset().remove(x));
                                assert(bb.to_multiset().count(x) > 0);
                                assert((aa + cc).to_multiset() == aa.to_multiset().add(
                                    cc.to_multiset(),
                                ));
                                assert((aa + bb).to_multiset() == aa.to_multiset().add(
                                    bb.to_multiset(),
                                ));
                                assert((aa + bb + cc).to_multiset() == (aa
                                    + bb).to_multiset().add(cc.to_multiset()));
                            }
                            assert forall|j: int| 0 <= j < news.len() implies node_wf(
                                #[trigger] news[j],
                            ) && node_floor(news[j]) == node_floor(news[0]) by {
                                if j < gi {
                                    assert(news[j] == olds[j]);
                                } else {
                                    assert(news[j] == olds[j + 1]);
                                }
                                if gi == 0 {
                                    assert(news[0] == olds[1]);
                                } else {
                                    assert(news[0] == olds[0]);
                                }
                            }
                            assert(node_floor(Node::Internal(cs)) == fl) by {
                                if gi == 0 {
                                    assert(news[0] == olds[1]);
                                } else {
                                    assert(news[0] == olds[0]);
                                }
                            }
                        }
                        (Some(Node::Internal(cs)), removed)
                    }
                },
            }
        },
    }
}

} // verus!
