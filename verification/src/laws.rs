use crate::model::{
    has_key, insert_effect, lemma_min_ge_spec, lemma_multiset_grow, lemma_remove_clears,
    lemma_unique_key, min_ge, remove_effect, sorted, value_of, Entry,
};
use vstd::prelude::*;

verus! {

/// Ordering: one cursor step from a yielded entry (to the least entry above
/// its key) yields an entry with a strictly greater key, so a full scan
/// yields keys in strictly increasing order.
pub proof fn lemma_scan_strictly_increasing(s: Seq<Entry>, lo: u64, e1: Entry, e2: Entry)
    requires
        sorted(s),
        min_ge(s, lo) == Some(e1),
        e1.0 < u64::MAX,
        min_ge(s, (e1.0 + 1) as u64) == Some(e2),
    ensures
        e1.0 < e2.0,
{
    lemma_min_ge_spec(s, (e1.0 + 1) as u64);
}

/// Completeness of the cursor: a step from bound `lo` yields the least
/// entry at or above `lo`, so no entry at or above the bound is passed
/// over, and exhaustion means nothing at or above the bound exists.
pub proof fn lemma_scan_complete(s: Seq<Entry>, lo: u64, x: Entry)
    requires
        sorted(s),
        s.contains(x),
        x.0 >= lo,
    ensures
        min_ge(s, lo) is Some,
        min_ge(s, lo)->Some_0.0 <= x.0,
        s.contains(min_ge(s, lo)->Some_0),
{
    lemma_min_ge_spec(s, lo);
    let i = choose|i: int| 0 <= i < s.len() && s[i] == x;
    if min_ge(s, lo) is None {
        assert(s[i].0 < lo);
    }
}

/// The ordered map that a scan sequence denotes: the reference model.
pub open spec fn as_map(s: Seq<Entry>) -> Map<u64, u64> {
    Map::new(|k: u64| has_key(s, k), |k: u64| value_of(s, k))
}

/// Functional correctness against the reference: a successful insert
/// denotes a map insert of a fresh key; a refused insert denotes no change.
pub proof fn lemma_insert_reference(s0: Seq<Entry>, s1: Seq<Entry>, k: u64, v: u64, ok: bool)
    requires
        sorted(s0),
        sorted(s1),
        insert_effect(s0, s1, k, v, ok),
    ensures
        ok ==> !as_map(s0).dom().contains(k) && as_map(s1) == as_map(s0).insert(k, v),
        !ok ==> as_map(s0).dom().contains(k) && s1 == s0,
{
    broadcast use vstd::seq_lib::group_to_multiset_ensures;
    broadcast use vstd::multiset::group_multiset_axioms;

    if ok {
        lemma_multiset_grow(s0, s1, (k, v));
        assert forall|j: u64| #[trigger] has_key(s1, j) implies has_key(s0, j) || j == k by {
            let i = choose|i: int| 0 <= i < s1.len() && s1[i].0 == j;
            assert(s1.contains(s1[i]));
            if s1[i] != (k, v) {
                assert(s0.contains(s1[i]));
                lemma_unique_key(s0, s1[i]);
            }
        }
        assert forall|j: u64| #[trigger] has_key(s0, j) implies has_key(s1, j) by {
            let i = choose|i: int| 0 <= i < s0.len() && s0[i].0 == j;
            assert(s0.contains(s0[i]));
            assert(s0.to_multiset().count(s0[i]) > 0);
            assert(s1.to_multiset().count(s0[i]) > 0);
            assert(s1.contains(s0[i]));
            lemma_unique_key(s1, s0[i]);
        }
        assert(s1.contains((k, v)));
        lemma_unique_key(s1, (k, v));
        assert forall|j: u64| has_key(s0, j) && j != k implies value_of(s1, j) == #[trigger] value_of(
            s0,
            j,
        ) by {
            let i = choose|i: int| 0 <= i < s0.len() && s0[i].0 == j;
            assert(s0.contains(s0[i]));
            lemma_unique_key(s0, s0[i]);
            assert(s0.to_multiset().count(s0[i]) > 0);
            assert(s1.to_multiset().count(s0[i]) > 0);
            assert(s1.contains(s0[i]));
            lemma_unique_key(s1, s0[i]);
        }
        assert(as_map(s1) =~= as_map(s0).insert(k, v));
    }
}

/// Functional correctness against the reference: a removal denotes a map
/// remove, and reports whether the key was in the reference map's domain.
pub proof fn lemma_remove_reference(s0: Seq<Entry>, s1: Seq<Entry>, k: u64, removed: bool)
    requires
        sorted(s0),
        sorted(s1),
        remove_effect(s0, s1, k, removed),
    ensures
        removed == as_map(s0).dom().contains(k),
        as_map(s1) == as_map(s0).remove(k),
{
    broadcast use vstd::seq_lib::group_to_multiset_ensures;
    broadcast use vstd::multiset::group_multiset_axioms;

    if has_key(s0, k) {
        let x = (k, value_of(s0, k));
        crate::model::lemma_multiset_shrink(s0, s1, x);
        lemma_remove_clears(s0, s1, k);
        crate::model::lemma_sorted_no_duplicates(s0);
        s0.lemma_multiset_has_no_duplicates();
        assert forall|j: u64| #[trigger] has_key(s1, j) implies has_key(s0, j) && j != k by {
            let i = choose|i: int| 0 <= i < s1.len() && s1[i].0 == j;
            assert(s1.contains(s1[i]));
            assert(s0.contains(s1[i]));
            lemma_unique_key(s0, s1[i]);
        }
        assert forall|j: u64| has_key(s0, j) && j != k implies #[trigger] has_key(s1, j)
            && value_of(s1, j) == value_of(s0, j) by {
            let i = choose|i: int| 0 <= i < s0.len() && s0[i].0 == j;
            let e = s0[i];
            assert(s0.contains(e));
            lemma_unique_key(s0, e);
            assert(e != x);
            assert(s0.to_multiset().count(e) > 0);
            assert(s1.to_multiset().count(e) > 0);
            assert(s1.contains(e));
            lemma_unique_key(s1, e);
        }
        assert(as_map(s1) =~= as_map(s0).remove(k));
    } else {
        assert(as_map(s1) =~= as_map(s0).remove(k));
    }
}

/// Idempotent remove: the first removal reports whether the key was live,
/// a second removal of the same key always reports false.
pub proof fn lemma_remove_idempotent(
    s0: Seq<Entry>,
    s1: Seq<Entry>,
    s2: Seq<Entry>,
    k: u64,
    r1: bool,
    r2: bool,
)
    requires
        sorted(s0),
        sorted(s1),
        remove_effect(s0, s1, k, r1),
        remove_effect(s1, s2, k, r2),
    ensures
        r1 == has_key(s0, k),
        r2 == false,
{
    if has_key(s0, k) {
        lemma_remove_clears(s0, s1, k);
    }
}

/// Insert-duplicate round trip: inserting a fresh key succeeds, a second
/// insert under the same key is refused and changes nothing, and the value
/// read afterwards is the one first inserted.
pub proof fn lemma_insert_duplicate_round_trip(
    s0: Seq<Entry>,
    s1: Seq<Entry>,
    s2: Seq<Entry>,
    k: u64,
    v: u64,
    v2: u64,
    ok1: bool,
    ok2: bool,
)
    requires
        sorted(s1),
        !has_key(s0, k),
        insert_effect(s0, s1, k, v, ok1),
        insert_effect(s1, s2, k, v2, ok2),
    ensures
        ok1,
        !ok2,
        s2 == s1,
        has_key(s1, k),
        value_of(s1, k) == v,
{
    lemma_multiset_grow(s0, s1, (k, v));
    assert(s1.contains((k, v)));
    lemma_unique_key(s1, (k, v));
}

} // verus!
