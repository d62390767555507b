use vstd::prelude::*;

verus! {

/// A key-value pair as the tree stores it.
pub type Entry = (u64, u64);

/// Keys are strictly increasing: the ordering invariant of every leaf and of
/// every full scan of the tree.
pub open spec fn sorted(s: Seq<Entry>) -> bool {
    forall|i: int, j: int| 0 <= i < j < s.len() ==> s[i].0 < s[j].0
}

/// Some entry of `s` carries key `k`.
pub open spec fn has_key(s: Seq<Entry>, k: u64) -> bool {
    exists|i: int| 0 <= i < s.len() && s[i].0 == k
}

pub open spec fn key_index(s: Seq<Entry>, k: u64) -> int {
    choose|i: int| 0 <= i < s.len() && s[i].0 == k
}

/// The value stored under key `k` (meaningful when `has_key(s, k)`).
pub open spec fn value_of(s: Seq<Entry>, k: u64) -> u64 {
    s[key_index(s, k)].1
}

/// The first entry of `s` whose key is at least `lo`; in a sorted sequence,
/// the least such entry. This is the model of cursor positioning.
pub open spec fn min_ge(s: Seq<Entry>, lo: u64) -> Option<Entry>
    decreases s.len(),
{
    if s.len() == 0 {
        None
    } else if s[0].0 >= lo {
        Some(s[0])
    } else {
        min_ge(s.drop_first(), lo)
    }
}

/// What a successful or failed insertion means for the scan sequence.
/// `placed` is false exactly when the key was already present.
pub open spec fn insert_effect(pre: Seq<Entry>, post: Seq<Entry>, k: u64, v: u64, placed: bool) -> bool {
    if has_key(pre, k) {
        !placed && post == pre
    } else {
        &&& placed
        &&& sorted(post)
        &&& post.to_multiset() == pre.to_multiset().insert((k, v))
    }
}

/// What a removal means for the scan sequence. `removed` reports whether a
/// live entry was retired.
pub open spec fn remove_effect(pre: Seq<Entry>, post: Seq<Entry>, k: u64, removed: bool) -> bool {
    if has_key(pre, k) {
        &&& removed
        &&& sorted(post)
        &&& post.to_multiset() == pre.to_multiset().remove((k, value_of(pre, k)))
    } else {
        !removed && post == pre
    }
}

/// In a sorted sequence there is at most one entry per key, so an entry that
/// carries key `k` determines `value_of`.
pub proof fn lemma_unique_key(s: Seq<Entry>, e: Entry)
    requires
        sorted(s),
        s.contains(e),
    ensures
        has_key(s, e.0),
        value_of(s, e.0) == e.1,
{
    let i = choose|i: int| 0 <= i < s.len() && s[i] == e;
    assert(s[i].0 == e.0);
    let j = key_index(s, e.0);
    if i != j {
        if i < j {
            assert(s[i].0 < s[j].0);
        } else {
            assert(s[j].0 < s[i].0);
        }
        assert(false);
    }
}

/// Entries of a sorted sequence are pairwise distinct.
pub proof fn lemma_sorted_no_duplicates(s: Seq<Entry>)
    requires
        sorted(s),
    ensures
        s.no_duplicates(),
{
    assert forall|i: int, j: int| 0 <= i < s.len() && 0 <= j < s.len() && i != j implies s[i]
        != s[j] by {
        if i < j {
            assert(s[i].0 < s[j].0);
        } else {
            assert(s[j].0 < s[i].0);
        }
    }
}

/// `min_ge` looks in the left part first.
pub proof fn lemma_min_ge_concat(a: Seq<Entry>, b: Seq<Entry>, lo: u64)
    ensures
        min_ge(a + b, lo) == if min_ge(a, lo) is Some {
            min_ge(a, lo)
        } else {
            min_ge(b, lo)
        },
    decreases a.len(),
{
    if a.len() == 0 {
        assert(a + b =~= b);
    } else {
        assert((a + b)[0] == a[0]);
        if a[0].0 >= lo {
        } else {
            assert((a + b).drop_first() =~= a.drop_first() + b);
            lemma_min_ge_concat(a.drop_first(), b, lo);
        }
    }
}

/// Characterization of `min_ge` on a sorted sequence: it returns the least
/// entry at or above the bound, or reports that none exists.
pub proof fn lemma_min_ge_spec(s: Seq<Entry>, lo: u64)
    requires
        sorted(s),
    ensures
        match min_ge(s, lo) {
            Some(e) => {
                &&& s.contains(e)
                &&& e.0 >= lo
                &&& forall|i: int| 0 <= i < s.len() && s[i].0 >= lo ==> e.0 <= s[i].0
            },
            None => forall|i: int| 0 <= i < s.len() ==> s[i].0 < lo,
        },
    decreases s.len(),
{
    if s.len() == 0 {
    } else if s[0].0 >= lo {
        assert(s.contains(s[0]));
    } else {
        let t = s.drop_first();
        lemma_min_ge_spec(t, lo);
        match min_ge(t, lo) {
            Some(e) => {
                let j = choose|j: int| 0 <= j < t.len() && t[j] == e;
                assert(s[j + 1] == e);
                assert(s.contains(e));
                assert forall|i: int| 0 <= i < s.len() && s[i].0 >= lo implies e.0 <= s[i].0 by {
                    if i >= 1 {
                        assert(t[i - 1] == s[i]);
                    }
                }
            },
            None => {
                assert forall|i: int| 0 <= i < s.len() implies s[i].0 < lo by {
                    if i >= 1 {
                        assert(t[i - 1] == s[i]);
                    }
                }
            },
        }
    }
}

/// `min_ge` computed by the position of the first qualifying entry.
pub proof fn lemma_min_ge_at(s: Seq<Entry>, lo: u64, i: int)
    requires
        0 <= i < s.len(),
        s[i].0 >= lo,
        forall|j: int| 0 <= j < i ==> s[j].0 < lo,
    ensures
        min_ge(s, lo) == Some(s[i]),
    decreases i,
{
    if i == 0 {
    } else {
        let t = s.drop_first();
        assert forall|j: int| 0 <= j < i - 1 implies t[j].0 < lo by {
            assert(t[j] == s[j + 1]);
        }
        assert(t[i - 1] == s[i]);
        lemma_min_ge_at(t, lo, i - 1);
    }
}

/// `min_ge` is `None` when every key lies below the bound.
pub proof fn lemma_min_ge_none(s: Seq<Entry>, lo: u64)
    requires
        forall|j: int| 0 <= j < s.len() ==> s[j].0 < lo,
    ensures
        min_ge(s, lo) is None,
    decreases s.len(),
{
    if s.len() > 0 {
        let t = s.drop_first();
        assert forall|j: int| 0 <= j < t.len() implies t[j].0 < lo by {
            assert(t[j] == s[j + 1]);
        }
        lemma_min_ge_none(t, lo);
    }
}

/// Replacing the middle part of a sorted concatenation keeps it sorted, as
/// long as every new middle entry either was already there or carries the
/// one key `k` that separates the outer parts.
pub proof fn lemma_sorted_glue(
    a: Seq<Entry>,
    b_old: Seq<Entry>,
    c: Seq<Entry>,
    b_new: Seq<Entry>,
    k: u64,
)
    requires
        sorted(a + b_old + c),
        sorted(b_new),
        forall|e: Entry| b_new.contains(e) ==> b_old.contains(e) || e.0 == k,
        forall|i: int| 0 <= i < a.len() ==> a[i].0 < k,
        forall|i: int| 0 <= i < c.len() ==> c[i].0 > k,
    ensures
        sorted(a + b_new + c),
{
    let old_all = a + b_old + c;
    let new_all = a + b_new + c;
    assert forall|p: int, q: int| 0 <= p < q < new_all.len() implies new_all[p].0
        < new_all[q].0 by {
        lemma_glue_part(a, b_old, c, b_new, k, p, q);
    }
}

proof fn lemma_glue_key_facts(a: Seq<Entry>, b_old: Seq<Entry>, c: Seq<Entry>, e: Entry, k: u64)
    requires
        sorted(a + b_old + c),
        b_old.contains(e) || e.0 == k,
        forall|i: int| 0 <= i < a.len() ==> a[i].0 < k,
        forall|i: int| 0 <= i < c.len() ==> c[i].0 > k,
    ensures
        forall|i: int| 0 <= i < a.len() ==> a[i].0 < e.0,
        forall|i: int| 0 <= i < c.len() ==> c[i].0 > e.0,
{
    let old_all = a + b_old + c;
    if e.0 == k {
    } else {
        let j = choose|j: int| 0 <= j < b_old.len() && b_old[j] == e;
        assert(old_all[a.len() + j] == e);
        assert forall|i: int| 0 <= i < a.len() implies a[i].0 < e.0 by {
            assert(old_all[i] == a[i]);
        }
        assert forall|i: int| 0 <= i < c.len() implies c[i].0 > e.0 by {
            assert(old_all[a.len() + b_old.len() + i] == c[i]);
        }
    }
}

proof fn lemma_glue_part(
    a: Seq<Entry>,
    b_old: Seq<Entry>,
    c: Seq<Entry>,
    b_new: Seq<Entry>,
    k: u64,
    p: int,
    q: int,
)
    requires
        sorted(a + b_old + c),
        sorted(b_new),
        forall|e: Entry| b_new.contains(e) ==> b_old.contains(e) || e.0 == k,
        forall|i: int| 0 <= i < a.len() ==> a[i].0 < k,
        forall|i: int| 0 <= i < c.len() ==> c[i].0 > k,
        0 <= p < q < (a + b_new + c).len(),
    ensures
        (a + b_new + c)[p].0 < (a + b_new + c)[q].0,
{
    let old_all = a + b_old + c;
    let new_all = a + b_new + c;
    let al = a.len() as int;
    let bl = b_new.len() as int;
    let ep = new_all[p];
    let eq = new_all[q];
    if p < al {
        assert(ep == a[p]);
        assert(old_all[p] == a[p]);
    } else if p < al + bl {
        assert(ep == b_new[p - al]);
        assert(b_new.contains(ep));
    } else {
        assert(ep == c[p - al - bl]);
        assert(old_all[p - bl + b_old.len()] == c[p - al - bl]);
    }
    if q < al {
        assert(eq == a[q]);
        assert(old_all[q] == a[q]);
    } else if q < al + bl {
        assert(eq == b_new[q - al]);
        assert(b_new.contains(eq));
    } else {
        assert(eq == c[q - al - bl]);
        assert(old_all[q - bl + b_old.len()] == c[q - al - bl]);
    }
    if p < al && q < al {
        assert(old_all[p].0 < old_all[q].0);
    } else if p < al && q < al + bl {
        lemma_glue_key_facts(a, b_old, c, eq, k);
    } else if p < al && q >= al + bl {
        assert(old_all[p].0 < old_all[q - bl + b_old.len()].0);
    } else if p < al + bl && q < al + bl {
        // both in the middle: sorted(b_new)
    } else if p < al + bl && q >= al + bl {
        lemma_glue_key_facts(a, b_old, c, ep, k);
    } else {
        assert(old_all[p - bl + b_old.len()].0 < old_all[q - bl + b_old.len()].0);
    }
}

/// Locating a key in a sorted concatenation whose outer parts avoid `k`.
pub proof fn lemma_has_key_middle(a: Seq<Entry>, b: Seq<Entry>, c: Seq<Entry>, k: u64)
    requires
        forall|i: int| 0 <= i < a.len() ==> a[i].0 < k,
        forall|i: int| 0 <= i < c.len() ==> c[i].0 > k,
    ensures
        has_key(a + b + c, k) == has_key(b, k),
{
    let all = a + b + c;
    if has_key(b, k) {
        let i = choose|i: int| 0 <= i < b.len() && b[i].0 == k;
        assert(all[a.len() + i] == b[i]);
        assert(has_key(all, k));
    }
    if has_key(all, k) {
        let i = choose|i: int| 0 <= i < all.len() && all[i].0 == k;
        if i < a.len() {
            assert(all[i] == a[i]);
            assert(false);
        } else if i < a.len() + b.len() {
            assert(all[i] == b[i - a.len()]);
            assert(has_key(b, k));
        } else {
            assert(all[i] == c[i - a.len() - b.len()]);
            assert(false);
        }
    }
}

/// Membership consequences of a multiset that shrank by one entry.
pub proof fn lemma_multiset_shrink(pre: Seq<Entry>, post: Seq<Entry>, x: Entry)
    requires
        post.to_multiset() == pre.to_multiset().remove(x),
    ensures
        forall|e: Entry| post.contains(e) ==> pre.contains(e),
{
    broadcast use vstd::seq_lib::group_to_multiset_ensures;
    broadcast use vstd::multiset::group_multiset_axioms;

    assert forall|e: Entry| post.contains(e) implies pre.contains(e) by {
        assert(post.to_multiset().count(e) > 0);
        assert(pre.to_multiset().count(e) > 0);
    }
}

/// After a removal, the key is gone: a sorted sequence holds at most one
/// entry per key, so removing that entry clears the key.
pub proof fn lemma_remove_clears(pre: Seq<Entry>, post: Seq<Entry>, k: u64)
    requires
        sorted(pre),
        sorted(post),
        has_key(pre, k),
        post.to_multiset() == pre.to_multiset().remove((k, value_of(pre, k))),
    ensures
        !has_key(post, k),
{
    broadcast use vstd::seq_lib::group_to_multiset_ensures;
    broadcast use vstd::multiset::group_multiset_axioms;

    let x = (k, value_of(pre, k));
    lemma_sorted_no_duplicates(pre);
    pre.lemma_multiset_has_no_duplicates();
    if has_key(post, k) {
        let i = choose|i: int| 0 <= i < post.len() && post[i].0 == k;
        let e = post[i];
        assert(post.contains(e));
        assert(post.to_multiset().count(e) > 0);
        if e == x {
            assert(pre.to_multiset().count(x) <= 1);
            assert(false);
        } else {
            assert(pre.to_multiset().count(e) > 0);
            assert(pre.contains(e));
            lemma_unique_key(pre, e);
            assert(e.1 == value_of(pre, k));
            assert(false);
        }
    }
}

/// Membership consequences of a multiset that grew by one entry.
pub proof fn lemma_multiset_grow(pre: Seq<Entry>, post: Seq<Entry>, x: Entry)
    requires
        post.to_multiset() == pre.to_multiset().insert(x),
    ensures
        forall|e: Entry| post.contains(e) ==> pre.contains(e) || e == x,
        post.contains(x),
{
    broadcast use vstd::seq_lib::group_to_multiset_ensures;

    assert forall|e: Entry| post.contains(e) implies pre.contains(e) || e == x by {
        assert(post.to_multiset().count(e) > 0);
        if e != x {
            assert(pre.to_multiset().count(e) > 0);
        }
    }
    assert(post.to_multiset().count(x) > 0);
}

} // verus!
