//! The proof toolbox for the tree model: facts about routing, sorted
//! key/value sequences, and the content of concatenated child sequences.

use vstd::prelude::*;

use crate::model::{
    child_hi, child_lo, in_range, keys_above, keys_at_or_above, keys_below, kv_contains, kv_lookup,
    kv_map, kv_sorted, kvs, kvs_children, kvs_insert, kvs_remove, route, routed, sorted, wf,
};
use crate::node::BTNode;

verus! {

/// An index that splits a sorted key sequence into a prefix at or below
/// `key` and a suffix above it is the routing index.
pub proof fn lemma_route_unique(keys: Seq<u128>, key: u128, i: int)
    requires
        sorted(keys),
        0 <= i <= keys.len(),
        forall|j: int| 0 <= j < i ==> keys[j] <= key,
        forall|j: int| i <= j < keys.len() ==> keys[j] > key,
    ensures
        i == route(keys, key),
    decreases keys.len(),
{
    if keys.len() == 0 {
    } else if keys.last() <= key {
        assert(keys[keys.len() - 1] <= key);
        assert(i == keys.len());
    } else {
        assert(keys[keys.len() - 1] > key);
        assert(i < keys.len());
        lemma_route_unique(keys.drop_last(), key, i);
    }
}

/// The routing index lies in bounds and splits the keys around `key`.
pub proof fn lemma_route_properties(keys: Seq<u128>, key: u128)
    requires
        sorted(keys),
    ensures
        0 <= route(keys, key) <= keys.len(),
        forall|j: int| 0 <= j < route(keys, key) ==> keys[j] <= key,
        forall|j: int| route(keys, key) <= j < keys.len() ==> keys[j] > key,
    decreases keys.len(),
{
    if keys.len() == 0 {
    } else if keys.last() <= key {
        assert forall|j: int| 0 <= j < keys.len() implies keys[j] <= key by {
            if j < keys.len() - 1 {
                assert(keys[j] < keys[keys.len() - 1]);
            }
        }
    } else {
        assert(sorted(keys.drop_last())) by {
            assert(forall|j: int|
                0 <= j < keys.len() - 1 ==> keys[j] == #[trigger] keys.drop_last()[j]);
        }
        lemma_route_properties(keys.drop_last(), key);
        let r = route(keys.drop_last(), key);
        assert(route(keys, key) == r);
        assert forall|j: int| 0 <= j < r implies keys[j] <= key by {
            assert(keys.drop_last()[j] <= key);
        }
        assert forall|j: int| r <= j < keys.len() implies keys[j] > key by {
            if j < keys.len() - 1 {
                assert(keys.drop_last()[j] > key);
            } else {
                assert(keys[j] == keys.last());
            }
        }
    }
}

/// A key/value sequence splits around any index.
pub proof fn lemma_kvs_children_split(cs: Seq<BTNode>, i: int)
    requires
        0 <= i < cs.len(),
    ensures
        kvs_children(cs) == kvs_children(cs.take(i)) + kvs(cs[i]) + kvs_children(cs.skip(i + 1)),
    decreases cs.len(),
{
    if i == 0 {
        assert(cs.take(0) =~= Seq::<BTNode>::empty());
        assert(cs.skip(1) =~= cs.drop_first());
        assert(kvs_children(cs.take(0)) =~= Seq::<(u128, u128)>::empty());
        assert(kvs_children(cs) =~= kvs_children(cs.take(0)) + kvs(cs[0]) + kvs_children(
            cs.skip(1),
        ));
    } else {
        lemma_kvs_children_split(cs.drop_first(), i - 1);
        assert(cs.drop_first().take(i - 1) =~= cs.take(i).drop_first());
        assert(cs.drop_first().skip(i) =~= cs.skip(i + 1));
        assert(cs.drop_first()[i - 1] == cs[i]);
        assert(cs.take(i)[0] == cs[0]);
        assert(kvs_children(cs.take(i)) == kvs(cs[0]) + kvs_children(cs.take(i).drop_first()));
        assert(kvs_children(cs) =~= kvs_children(cs.take(i)) + kvs(cs[i]) + kvs_children(
            cs.skip(i + 1),
        ));
    }
}

/// Inserting at the position that splits the keys strictly around `k`
/// places the new pair exactly there.
pub proof fn lemma_kvs_insert_at(s: Seq<(u128, u128)>, k: u128, v: u128, i: int)
    requires
        0 <= i <= s.len(),
        forall|j: int| 0 <= j < i ==> (#[trigger] s[j]).0 < k,
        forall|j: int| i <= j < s.len() ==> (#[trigger] s[j]).0 > k,
    ensures
        kvs_insert(s, k, v) == s.take(i) + seq![(k, v)] + s.skip(i),
    decreases s.len(),
{
    if s.len() == 0 {
        assert(kvs_insert(s, k, v) =~= s.take(i) + seq![(k, v)] + s.skip(i));
    } else if i == 0 {
        assert(s[0].0 > k);
        assert(s.take(0) =~= Seq::<(u128, u128)>::empty());
        assert(s.skip(0) =~= s);
        assert(kvs_insert(s, k, v) =~= s.take(i) + seq![(k, v)] + s.skip(i));
    } else {
        assert(s[0].0 < k);
        lemma_kvs_insert_at(s.drop_first(), k, v, i - 1);
        assert(s.drop_first().take(i - 1) =~= s.take(i).drop_first());
        assert(s.drop_first().skip(i - 1) =~= s.skip(i));
        assert(kvs_insert(s, k, v) =~= s.take(i) + seq![(k, v)] + s.skip(i));
    }
}

/// Inserting a key already present at position `i` overwrites in place.
pub proof fn lemma_kvs_insert_overwrite(s: Seq<(u128, u128)>, k: u128, v: u128, i: int)
    requires
        0 <= i < s.len(),
        s[i].0 == k,
        forall|j: int| 0 <= j < i ==> (#[trigger] s[j]).0 < k,
    ensures
        kvs_insert(s, k, v) == s.update(i, (k, v)),
    decreases s.len(),
{
    if i == 0 {
        assert(kvs_insert(s, k, v) =~= s.update(0, (k, v)));
    } else {
        assert(s[0].0 < k);
        lemma_kvs_insert_overwrite(s.drop_first(), k, v, i - 1);
        assert(s.drop_first().update(i - 1, (k, v)) =~= s.update(i, (k, v)).drop_first());
        assert(kvs_insert(s, k, v) =~= s.update(i, (k, v)));
    }
}

/// Removing a key present at position `i` deletes exactly that pair.
pub proof fn lemma_kvs_remove_at(s: Seq<(u128, u128)>, k: u128, i: int)
    requires
        0 <= i < s.len(),
        s[i].0 == k,
        forall|j: int| 0 <= j < i ==> (#[trigger] s[j]).0 != k,
    ensures
        kvs_remove(s, k) == s.take(i) + s.skip(i + 1),
    decreases s.len(),
{
    if i == 0 {
        assert(s.take(0) =~= Seq::<(u128, u128)>::empty());
        assert(kvs_remove(s, k) =~= s.take(0) + s.skip(1));
    } else {
        lemma_kvs_remove_at(s.drop_first(), k, i - 1);
        assert(s.drop_first().take(i - 1) =~= s.take(i).drop_first());
        assert(s.drop_first().skip(i) =~= s.skip(i + 1));
        assert(kvs_remove(s, k) =~= s.take(i) + s.skip(i + 1));
    }
}

/// Removing an absent key leaves the sequence unchanged.
pub proof fn lemma_kvs_remove_absent(s: Seq<(u128, u128)>, k: u128)
    requires
        forall|j: int| 0 <= j < s.len() ==> (#[trigger] s[j]).0 != k,
    ensures
        kvs_remove(s, k) == s,
    decreases s.len(),
{
    if s.len() == 0 {
    } else {
        lemma_kvs_remove_absent(s.drop_first(), k);
        assert(kvs_remove(s, k) =~= s);
    }
}

/// Lookup finds the pair at position `i` when earlier keys differ.
pub proof fn lemma_kv_lookup_at(s: Seq<(u128, u128)>, k: u128, i: int)
    requires
        0 <= i < s.len(),
        s[i].0 == k,
        forall|j: int| 0 <= j < i ==> (#[trigger] s[j]).0 != k,
    ensures
        kv_lookup(s, k) == Some(s[i].1),
    decreases s.len(),
{
    if i == 0 {
    } else {
        lemma_kv_lookup_at(s.drop_first(), k, i - 1);
    }
}

/// Lookup of an absent key yields `None`.
pub proof fn lemma_kv_lookup_absent(s: Seq<(u128, u128)>, k: u128)
    requires
        forall|j: int| 0 <= j < s.len() ==> (#[trigger] s[j]).0 != k,
    ensures
        kv_lookup(s, k) == None::<u128>,
    decreases s.len(),
{
    if s.len() == 0 {
    } else {
        lemma_kv_lookup_absent(s.drop_first(), k);
    }
}

/// Insertion passes over a prefix whose keys lie below the new key.
pub proof fn lemma_insert_skips_low_prefix(a: Seq<(u128, u128)>, b: Seq<(u128, u128)>, k: u128, v: u128)
    requires
        keys_below(a, k),
    ensures
        kvs_insert(a + b, k, v) == a + kvs_insert(b, k, v),
    decreases a.len(),
{
    if a.len() == 0 {
        assert(a + b =~= b);
        assert(kvs_insert(a + b, k, v) =~= a + kvs_insert(b, k, v));
    } else {
        assert((a + b)[0] == a[0]);
        assert(a[0].0 < k);
        lemma_insert_skips_low_prefix(a.drop_first(), b, k, v);
        assert((a + b).drop_first() =~= a.drop_first() + b);
        assert(kvs_insert(a + b, k, v) =~= a + kvs_insert(b, k, v));
    }
}

/// Insertion never reaches a suffix whose keys lie above the new key.
pub proof fn lemma_insert_ignores_high_suffix(a: Seq<(u128, u128)>, b: Seq<(u128, u128)>, k: u128, v: u128)
    requires
        keys_above(b, k),
    ensures
        kvs_insert(a + b, k, v) == kvs_insert(a, k, v) + b,
    decreases a.len(),
{
    if a.len() == 0 {
        assert(a + b =~= b);
        if b.len() == 0 {
            assert(kvs_insert(a + b, k, v) =~= kvs_insert(a, k, v) + b);
        } else {
            assert(b[0].0 > k);
            assert(kvs_insert(b, k, v) == seq![(k, v)] + b);
            assert(kvs_insert(a + b, k, v) =~= kvs_insert(a, k, v) + b);
        }
    } else {
        assert((a + b)[0] == a[0]);
        lemma_insert_ignores_high_suffix(a.drop_first(), b, k, v);
        assert((a + b).drop_first() =~= a.drop_first() + b);
        if k < a[0].0 {
            assert(kvs_insert(a + b, k, v) =~= kvs_insert(a, k, v) + b);
        } else if k == a[0].0 {
            assert((seq![(k, v)] + (a + b).drop_first()) =~= (seq![(k, v)] + a.drop_first()) + b);
            assert(kvs_insert(a + b, k, v) =~= kvs_insert(a, k, v) + b);
        } else {
            assert(kvs_insert(a + b, k, v) =~= kvs_insert(a, k, v) + b);
        }
    }
}

/// Removal passes over a prefix whose keys lie below the removed key.
pub proof fn lemma_remove_skips_low_prefix(a: Seq<(u128, u128)>, b: Seq<(u128, u128)>, k: u128)
    requires
        keys_below(a, k),
    ensures
        kvs_remove(a + b, k) == a + kvs_remove(b, k),
    decreases a.len(),
{
    if a.len() == 0 {
        assert(a + b =~= b);
        assert(kvs_remove(a + b, k) =~= a + kvs_remove(b, k));
    } else {
        assert((a + b)[0] == a[0]);
        assert(a[0].0 < k);
        lemma_remove_skips_low_prefix(a.drop_first(), b, k);
        assert((a + b).drop_first() =~= a.drop_first() + b);
        assert(kvs_remove(a + b, k) =~= a + kvs_remove(b, k));
    }
}

/// Removal never reaches a suffix whose keys lie above the removed key.
pub proof fn lemma_remove_ignores_high_suffix(a: Seq<(u128, u128)>, b: Seq<(u128, u128)>, k: u128)
    requires
        keys_above(b, k),
    ensures
        kvs_remove(a + b, k) == kvs_remove(a, k) + b,
    decreases a.len(),
{
    if a.len() == 0 {
        assert(a + b =~= b);
        lemma_kvs_remove_absent(b, k);
        assert(kvs_remove(a + b, k) =~= kvs_remove(a, k) + b);
    } else {
        assert((a + b)[0] == a[0]);
        lemma_remove_ignores_high_suffix(a.drop_first(), b, k);
        assert((a + b).drop_first() =~= a.drop_first() + b);
        if a[0].0 == k {
            assert(kvs_remove(a + b, k) =~= kvs_remove(a, k) + b);
        } else {
            assert(kvs_remove(a + b, k) =~= kvs_remove(a, k) + b);
        }
    }
}

/// Lookup passes over a prefix whose keys lie below the sought key.
pub proof fn lemma_lookup_skips_low_prefix(a: Seq<(u128, u128)>, b: Seq<(u128, u128)>, k: u128)
    requires
        keys_below(a, k),
    ensures
        kv_lookup(a + b, k) == kv_lookup(b, k),
    decreases a.len(),
{
    if a.len() == 0 {
        assert(a + b =~= b);
    } else {
        assert((a + b)[0] == a[0]);
        assert(a[0].0 < k);
        lemma_lookup_skips_low_prefix(a.drop_first(), b, k);
        assert((a + b).drop_first() =~= a.drop_first() + b);
    }
}

/// Lookup never reaches a suffix whose keys lie above the sought key.
pub proof fn lemma_lookup_ignores_high_suffix(a: Seq<(u128, u128)>, b: Seq<(u128, u128)>, k: u128)
    requires
        keys_above(b, k),
    ensures
        kv_lookup(a + b, k) == kv_lookup(a, k),
    decreases a.len(),
{
    if a.len() == 0 {
        assert(a + b =~= b);
        lemma_kv_lookup_absent(b, k);
    } else {
        assert((a + b)[0] == a[0]);
        lemma_lookup_ignores_high_suffix(a.drop_first(), b, k);
        assert((a + b).drop_first() =~= a.drop_first() + b);
    }
}

/// Concatenation of two child sequences splits the combined content.
pub proof fn lemma_kvs_children_add(a: Seq<BTNode>, b: Seq<BTNode>)
    ensures
        kvs_children(a + b) == kvs_children(a) + kvs_children(b),
    decreases a.len(),
{
    if a.len() == 0 {
        assert(a + b =~= b);
        assert(kvs_children(a + b) =~= kvs_children(a) + kvs_children(b));
    } else {
        lemma_kvs_children_add(a.drop_first(), b);
        assert((a + b).drop_first() =~= a.drop_first() + b);
        assert((a + b)[0] == a[0]);
        assert(kvs_children(a + b) =~= kvs_children(a) + kvs_children(b));
    }
}

/// Updating one child changes only that child's contribution.
pub proof fn lemma_kvs_children_update(cs: Seq<BTNode>, i: int, c: BTNode)
    requires
        0 <= i < cs.len(),
    ensures
        kvs_children(cs.update(i, c)) == kvs_children(cs.take(i)) + kvs(c) + kvs_children(
            cs.skip(i + 1),
        ),
{
    lemma_kvs_children_split(cs.update(i, c), i);
    assert(cs.update(i, c).take(i) =~= cs.take(i));
    assert(cs.update(i, c).skip(i + 1) =~= cs.skip(i + 1));
    assert(cs.update(i, c)[i] == c);
}

/// A bound below holding of every child holds of the concatenation.
pub proof fn lemma_children_below(cs: Seq<BTNode>, k: u128)
    requires
        forall|j: int| 0 <= j < cs.len() ==> keys_below(kvs(#[trigger] cs[j]), k),
    ensures
        keys_below(kvs_children(cs), k),
    decreases cs.len(),
{
    if cs.len() == 0 {
    } else {
        lemma_children_below(cs.drop_first(), k);
    }
}

/// A bound at-or-above holding of every child holds of the concatenation.
pub proof fn lemma_children_at_or_above(cs: Seq<BTNode>, k: u128)
    requires
        forall|j: int| 0 <= j < cs.len() ==> keys_at_or_above(kvs(#[trigger] cs[j]), k),
    ensures
        keys_at_or_above(kvs_children(cs), k),
    decreases cs.len(),
{
    if cs.len() == 0 {
    } else {
        lemma_children_at_or_above(cs.drop_first(), k);
    }
}

/// A strict bound above holding of every child holds of the concatenation.
pub proof fn lemma_children_above(cs: Seq<BTNode>, k: u128)
    requires
        forall|j: int| 0 <= j < cs.len() ==> keys_above(kvs(#[trigger] cs[j]), k),
    ensures
        keys_above(kvs_children(cs), k),
    decreases cs.len(),
{
    if cs.len() == 0 {
    } else {
        lemma_children_above(cs.drop_first(), k);
    }
}

/// Sorted children under routing bounds concatenate to a sorted sequence.
pub proof fn lemma_routed_concat_sorted(keys: Seq<u128>, cs: Seq<BTNode>)
    requires
        cs.len() == keys.len() + 1,
        sorted(keys),
        routed(keys, cs),
        forall|j: int| 0 <= j < cs.len() ==> kv_sorted(kvs(#[trigger] cs[j])),
    ensures
        kv_sorted(kvs_children(cs)),
    decreases cs.len(),
{
    if keys.len() == 0 {
        assert(kvs_children(cs.drop_first()) =~= Seq::<(u128, u128)>::empty());
        assert(kvs_children(cs) =~= kvs(cs[0]));
    } else {
        let keys2 = keys.drop_first();
        let cs2 = cs.drop_first();
        assert(sorted(keys2)) by {
            assert(forall|j: int| 0 <= j < keys2.len() ==> keys2[j] == #[trigger] keys[j + 1]);
        }
        assert(routed(keys2, cs2)) by {
            assert forall|j: int| 0 <= j < keys2.len() implies keys_below(
                kvs(cs2[j]),
                #[trigger] keys2[j],
            ) && keys_at_or_above(kvs(cs2[j + 1]), keys2[j]) by {
                assert(keys2[j] == keys[j + 1]);
                assert(cs2[j] == cs[j + 1]);
                assert(cs2[j + 1] == cs[j + 2]);
                assert(keys_below(kvs(cs[j + 1]), keys[j + 1]));
                assert(keys_at_or_above(kvs(cs[j + 2]), keys[j + 1]));
            }
        }
        lemma_routed_concat_sorted(keys2, cs2);
        assert forall|j: int| 0 <= j < cs2.len() implies keys_at_or_above(
            kvs(#[trigger] cs2[j]),
            keys[0],
        ) by {
            if j == 0 {
                assert(cs2[0] == cs[1]);
                assert(keys_at_or_above(kvs(cs[1]), keys[0]));
            } else {
                assert(cs2[j] == cs[j + 1]);
                assert(keys_at_or_above(kvs(cs[j + 1]), keys[j]));
                assert(keys[0] < keys[j]);
                assert forall|t: int| 0 <= t < kvs(cs[j + 1]).len() implies (#[trigger] kvs(
                    cs[j + 1],
                )[t]).0 >= keys[0] by {
                    assert(kvs(cs[j + 1])[t].0 >= keys[j]);
                }
            }
        }
        lemma_children_at_or_above(cs2, keys[0]);
        let a = kvs(cs[0]);
        let b = kvs_children(cs2);
        assert(keys_below(a, keys[0]));
        assert(kvs_children(cs) == a + b);
        assert forall|x: int, y: int| 0 <= x < y < (a + b).len() implies (#[trigger] (a + b)[x]).0
            < (#[trigger] (a + b)[y]).0 by {
            if y < a.len() {
                assert((a + b)[x] == a[x] && (a + b)[y] == a[y]);
            } else if x >= a.len() {
                assert((a + b)[x] == b[x - a.len()] && (a + b)[y] == b[y - a.len()]);
            } else {
                assert((a + b)[x] == a[x] && (a + b)[y] == b[y - a.len()]);
                assert(a[x].0 < keys[0]);
                assert(b[y - a.len()].0 >= keys[0]);
            }
        }
    }
}

/// Keys within a window, child by child, stay within it concatenated.
pub proof fn lemma_children_in_range(cs: Seq<BTNode>, lo: Option<u128>, hi: Option<u128>)
    requires
        forall|j: int, t: int|
            0 <= j < cs.len() && 0 <= t < kvs(#[trigger] cs[j]).len() ==> in_range(
                lo,
                hi,
                (#[trigger] kvs(cs[j])[t]).0,
            ),
    ensures
        forall|t: int|
            0 <= t < kvs_children(cs).len() ==> in_range(lo, hi, (#[trigger] kvs_children(cs)[t]).0),
    decreases cs.len(),
{
    if cs.len() == 0 {
    } else {
        lemma_children_in_range(cs.drop_first(), lo, hi);
        let a = kvs(cs[0]);
        let b = kvs_children(cs.drop_first());
        assert forall|t: int| 0 <= t < kvs_children(cs).len() implies in_range(
            lo,
            hi,
            (#[trigger] kvs_children(cs)[t]).0,
        ) by {
            if t < a.len() {
                assert(kvs_children(cs)[t] == kvs(cs[0])[t]);
            } else {
                assert(kvs_children(cs)[t] == b[t - a.len()]);
            }
        }
    }
}

/// A well-formed subtree holds only keys inside its window.
pub proof fn lemma_wf_kvs_in_range(
    n: BTNode,
    sp: int,
    mkc: int,
    root: bool,
    lo: Option<u128>,
    hi: Option<u128>,
)
    requires
        wf(n, sp, mkc, root, lo, hi),
    ensures
        forall|t: int| 0 <= t < kvs(n).len() ==> in_range(lo, hi, (#[trigger] kvs(n)[t]).0),
    decreases n,
{
    match n {
        BTNode::Leaf(l) => {
            assert forall|t: int| 0 <= t < kvs(n).len() implies in_range(
                lo,
                hi,
                (#[trigger] kvs(n)[t]).0,
            ) by {
                assert(kvs(n)[t].0 == l.keys@[t]);
            }
        },
        BTNode::Internal(node) => {
            let cs = node.children@;
            let keys = node.keys@;
            assert forall|j: int, t: int|
                0 <= j < cs.len() && 0 <= t < kvs(#[trigger] cs[j]).len() implies in_range(
                lo,
                hi,
                (#[trigger] kvs(cs[j])[t]).0,
            ) by {
                lemma_wf_kvs_in_range(cs[j], sp, mkc, false, child_lo(keys, lo, j), child_hi(keys, hi, j));
                let k = kvs(cs[j])[t].0;
                assert(in_range(child_lo(keys, lo, j), child_hi(keys, hi, j), k));
                if j > 0 {
                    assert(in_range(lo, hi, keys[j - 1]));
                }
                if j < keys.len() {
                    assert(in_range(lo, hi, keys[j]));
                }
            }
            lemma_children_in_range(cs, lo, hi);
            assert(kvs(n) == kvs_children(cs));
        },
    }
}

/// A well-formed internal node routes: each child's keys lie strictly below
/// the separator on its right and at or above the one on its left.
pub proof fn lemma_wf_routed(
    node: crate::node::Internal,
    sp: int,
    mkc: int,
    root: bool,
    lo: Option<u128>,
    hi: Option<u128>,
)
    requires
        wf(BTNode::Internal(node), sp, mkc, root, lo, hi),
    ensures
        routed(node.keys@, node.children@),
{
    let cs = node.children@;
    let keys = node.keys@;
    assert forall|j: int| 0 <= j < keys.len() implies keys_below(kvs(cs[j]), #[trigger] keys[j])
        && keys_at_or_above(kvs(cs[j + 1]), keys[j]) by {
        lemma_wf_kvs_in_range(cs[j], sp, mkc, false, child_lo(keys, lo, j), child_hi(keys, hi, j));
        assert(child_hi(keys, hi, j) == Some(keys[j]));
        lemma_wf_kvs_in_range(
            cs[j + 1],
            sp,
            mkc,
            false,
            child_lo(keys, lo, j + 1),
            child_hi(keys, hi, j + 1),
        );
        assert(child_lo(keys, lo, j + 1) == Some(keys[j]));
    }
}

/// A well-formed subtree holds a strictly key-sorted sequence of pairs.
pub proof fn lemma_wf_kv_sorted(
    n: BTNode,
    sp: int,
    mkc: int,
    root: bool,
    lo: Option<u128>,
    hi: Option<u128>,
)
    requires
        wf(n, sp, mkc, root, lo, hi),
    ensures
        kv_sorted(kvs(n)),
    decreases n,
{
    match n {
        BTNode::Leaf(l) => {},
        BTNode::Internal(node) => {
            let cs = node.children@;
            let keys = node.keys@;
            assert forall|j: int| 0 <= j < cs.len() implies kv_sorted(kvs(#[trigger] cs[j])) by {
                lemma_wf_kv_sorted(
                    cs[j],
                    sp,
                    mkc,
                    false,
                    child_lo(keys, lo, j),
                    child_hi(keys, hi, j),
                );
            }
            lemma_wf_routed(node, sp, mkc, root, lo, hi);
            lemma_routed_concat_sorted(keys, cs);
        },
    }
}

/// The length of an insertion: one more pair unless the key was present.
pub proof fn lemma_kvs_insert_len(s: Seq<(u128, u128)>, k: u128, v: u128)
    requires
        kv_sorted(s),
    ensures
        kvs_insert(s, k, v).len() == if kv_contains(s, k) {
            s.len() as int
        } else {
            (s.len() + 1) as int
        },
        kv_contains(kvs_insert(s, k, v), k),
    decreases s.len(),
{
    if s.len() == 0 {
        assert(kvs_insert(s, k, v)[0].0 == k);
    } else if k < s[0].0 {
        assert(kvs_insert(s, k, v)[0].0 == k);
        assert(!kv_contains(s, k)) by {
            if kv_contains(s, k) {
                let u = choose|t: int| 0 <= t < s.len() && (#[trigger] s[t]).0 == k;
                assert(u > 0 ==> s[0].0 < s[u].0);
            }
        }
    } else if k == s[0].0 {
        assert(kvs_insert(s, k, v)[0].0 == k);
        assert(s[0].0 == k);
    } else {
        assert(kv_sorted(s.drop_first())) by {
            assert(forall|t: int|
                0 <= t < s.drop_first().len() ==> #[trigger] s.drop_first()[t] == s[t + 1]);
        }
        lemma_kvs_insert_len(s.drop_first(), k, v);
        let w = kvs_insert(s.drop_first(), k, v);
        let witness = choose|t: int| 0 <= t < w.len() && (#[trigger] w[t]).0 == k;
        assert(kvs_insert(s, k, v)[witness + 1].0 == k);
        if kv_contains(s.drop_first(), k) {
            let u = choose|t: int|
                0 <= t < s.drop_first().len() && (#[trigger] s.drop_first()[t]).0 == k;
            assert(s[u + 1].0 == k);
            assert(kv_contains(s, k));
        } else {
            assert(!kv_contains(s, k)) by {
                if kv_contains(s, k) {
                    let u = choose|t: int| 0 <= t < s.len() && (#[trigger] s[t]).0 == k;
                    assert(u != 0);
                    assert(s.drop_first()[u - 1].0 == k);
                }
            }
        }
    }
}

/// Insertion below a strict upper bound keeps the bound.
pub proof fn lemma_insert_preserves_below(s: Seq<(u128, u128)>, k: u128, v: u128, b: u128)
    requires
        keys_below(s, b),
        k < b,
    ensures
        keys_below(kvs_insert(s, k, v), b),
    decreases s.len(),
{
    if s.len() == 0 {
    } else if k < s[0].0 {
    } else if k == s[0].0 {
    } else {
        lemma_insert_preserves_below(s.drop_first(), k, v, b);
    }
}

/// Insertion at or above a lower bound keeps the bound.
pub proof fn lemma_insert_preserves_at_or_above(s: Seq<(u128, u128)>, k: u128, v: u128, b: u128)
    requires
        keys_at_or_above(s, b),
        k >= b,
    ensures
        keys_at_or_above(kvs_insert(s, k, v), b),
    decreases s.len(),
{
    if s.len() == 0 {
    } else if k < s[0].0 {
    } else if k == s[0].0 {
    } else {
        lemma_insert_preserves_at_or_above(s.drop_first(), k, v, b);
    }
}

/// Removal keeps a strict upper bound on the keys.
pub proof fn lemma_remove_preserves_below(s: Seq<(u128, u128)>, k: u128, b: u128)
    requires
        keys_below(s, b),
    ensures
        keys_below(kvs_remove(s, k), b),
    decreases s.len(),
{
    if s.len() == 0 {
    } else {
        lemma_remove_preserves_below(s.drop_first(), k, b);
    }
}

/// Removal keeps a lower bound on the keys.
pub proof fn lemma_remove_preserves_at_or_above(s: Seq<(u128, u128)>, k: u128, b: u128)
    requires
        keys_at_or_above(s, b),
    ensures
        keys_at_or_above(kvs_remove(s, k), b),
    decreases s.len(),
{
    if s.len() == 0 {
    } else {
        lemma_remove_preserves_at_or_above(s.drop_first(), k, b);
    }
}

/// Overwriting a present key leaves the key column untouched.
pub proof fn lemma_kvs_insert_same_keys(s: Seq<(u128, u128)>, k: u128, v: u128)
    requires
        kv_sorted(s),
        kv_contains(s, k),
    ensures
        crate::model::kv_keys(kvs_insert(s, k, v)) == crate::model::kv_keys(s),
    decreases s.len(),
{
    lemma_kvs_insert_len(s, k, v);
    let u = choose|t: int| 0 <= t < s.len() && (#[trigger] s[t]).0 == k;
    if k < s[0].0 {
        assert(u > 0 ==> s[0].0 < s[u].0);
        assert(false);
    } else if k == s[0].0 {
        assert(kvs_insert(s, k, v) == seq![(k, v)] + s.drop_first());
        assert(crate::model::kv_keys(kvs_insert(s, k, v)) =~= crate::model::kv_keys(s));
    } else {
        assert(u != 0);
        assert((#[trigger] s.drop_first()[u - 1]) == s[u]);
        assert(kv_contains(s.drop_first(), k));
        lemma_kv_sorted_drop_first(s);
        lemma_kvs_insert_same_keys(s.drop_first(), k, v);
        let w = kvs_insert(s.drop_first(), k, v);
        assert(kvs_insert(s, k, v) == seq![s[0]] + w);
        assert(crate::model::kv_keys(w) == crate::model::kv_keys(s.drop_first()));
        assert forall|t: int| 0 <= t < s.len() implies crate::model::kv_keys(
            kvs_insert(s, k, v),
        )[t] == crate::model::kv_keys(s)[t] by {
            if t > 0 {
                assert((seq![s[0]] + w)[t] == w[t - 1]);
                assert(crate::model::kv_keys(w)[t - 1] == crate::model::kv_keys(
                    s.drop_first(),
                )[t - 1]);
                assert(s.drop_first()[t - 1] == s[t]);
            }
        }
        assert(crate::model::kv_keys(kvs_insert(s, k, v)) =~= crate::model::kv_keys(s));
    }
}

/// The length of a removal: one fewer pair exactly when the key was present.
pub proof fn lemma_kvs_remove_len(s: Seq<(u128, u128)>, k: u128)
    ensures
        kvs_remove(s, k).len() == if kv_contains(s, k) {
            s.len() - 1
        } else {
            s.len() as int
        },
    decreases s.len(),
{
    if s.len() == 0 {
    } else if s[0].0 == k {
        assert(kv_contains(s, k));
    } else {
        lemma_kvs_remove_len(s.drop_first(), k);
        if kv_contains(s.drop_first(), k) {
            let u = choose|t: int|
                0 <= t < s.drop_first().len() && (#[trigger] s.drop_first()[t]).0 == k;
            assert(s[u + 1].0 == k);
            assert(kv_contains(s, k));
        } else {
            assert(!kv_contains(s, k)) by {
                if kv_contains(s, k) {
                    let u = choose|t: int| 0 <= t < s.len() && (#[trigger] s[t]).0 == k;
                    assert(u != 0);
                    assert(s.drop_first()[u - 1].0 == k);
                }
            }
        }
    }
}

/// Concatenation of two child sequences splits the combined page numbers.
pub proof fn lemma_pages_children_add(a: Seq<BTNode>, b: Seq<BTNode>)
    ensures
        crate::model::pages_children(a + b) == crate::model::pages_children(a)
            + crate::model::pages_children(b),
    decreases a.len(),
{
    if a.len() == 0 {
        assert(a + b =~= b);
        assert(crate::model::pages_children(a + b) =~= crate::model::pages_children(a)
            + crate::model::pages_children(b));
    } else {
        lemma_pages_children_add(a.drop_first(), b);
        assert((a + b).drop_first() =~= a.drop_first() + b);
        assert((a + b)[0] == a[0]);
        assert(crate::model::pages_children(a + b) =~= crate::model::pages_children(a)
            + crate::model::pages_children(b));
    }
}

/// Shape equality is reflexive.
pub proof fn lemma_same_shape_refl(a: BTNode)
    ensures
        crate::model::same_shape(a, a),
    decreases a,
{
    match a {
        BTNode::Leaf(_) => {},
        BTNode::Internal(na) => {
            assert forall|j: int| 0 <= j < na.children@.len() implies crate::model::same_shape(
                #[trigger] na.children@[j],
                na.children@[j],
            ) by {
                lemma_same_shape_refl(na.children@[j]);
            }
        },
    }
}

/// A page-number sequence splits around any child index.
pub proof fn lemma_pages_children_split(cs: Seq<BTNode>, i: int)
    requires
        0 <= i < cs.len(),
    ensures
        crate::model::pages_children(cs) == crate::model::pages_children(cs.take(i))
            + crate::model::page_seq(cs[i]) + crate::model::pages_children(cs.skip(i + 1)),
    decreases cs.len(),
{
    if i == 0 {
        assert(cs.take(0) =~= Seq::<BTNode>::empty());
        assert(cs.skip(1) =~= cs.drop_first());
        assert(crate::model::pages_children(cs.take(0)) =~= Seq::<u64>::empty());
        assert(crate::model::pages_children(cs) =~= crate::model::pages_children(cs.take(0))
            + crate::model::page_seq(cs[0]) + crate::model::pages_children(cs.skip(1)));
    } else {
        lemma_pages_children_split(cs.drop_first(), i - 1);
        assert(cs.drop_first().take(i - 1) =~= cs.take(i).drop_first());
        assert(cs.drop_first().skip(i) =~= cs.skip(i + 1));
        assert(cs.drop_first()[i - 1] == cs[i]);
        assert(cs.take(i)[0] == cs[0]);
        assert(crate::model::pages_children(cs.take(i)) == crate::model::page_seq(cs[0])
            + crate::model::pages_children(cs.take(i).drop_first()));
        assert(crate::model::pages_children(cs) =~= crate::model::pages_children(cs.take(i))
            + crate::model::page_seq(cs[i]) + crate::model::pages_children(cs.skip(i + 1)));
    }
}

/// A well-formed subtree's arrays are small enough for its pages: the
/// sizing parameters cap keys at 126 everywhere.
pub proof fn lemma_wf_sizes_ok(
    n: BTNode,
    sp: int,
    mkc: int,
    root: bool,
    lo: Option<u128>,
    hi: Option<u128>,
)
    requires
        crate::model::params_ok(sp, mkc),
        wf(n, sp, mkc, root, lo, hi),
    ensures
        crate::model::node_sizes_ok(n),
    decreases n,
{
    match n {
        BTNode::Leaf(_) => {},
        BTNode::Internal(node) => {
            assert forall|j: int| 0 <= j < node.children@.len() implies crate::model::node_sizes_ok(
                #[trigger] node.children@[j],
            ) by {
                lemma_wf_sizes_ok(
                    node.children@[j],
                    sp,
                    mkc,
                    false,
                    child_lo(node.keys@, lo, j),
                    child_hi(node.keys@, hi, j),
                );
            }
        },
    }
}

/// A chain of adjacent inequalities yields strict order between any pair.
proof fn lemma_sorted_chain(s: Seq<u128>, i: int, j: int)
    requires
        forall|t: int| 0 <= t < s.len() - 1 ==> #[trigger] s[t] < s[t + 1],
        0 <= i < j < s.len(),
    ensures
        s[i] < s[j],
    decreases j - i,
{
    if j == i + 1 {
        assert(s[i] < s[i + 1]);
    } else {
        lemma_sorted_chain(s, i, j - 1);
        assert(s[j - 1] < s[j]);
    }
}

/// A key sequence whose adjacent pairs ascend is strictly sorted.
pub proof fn lemma_adjacent_sorted(s: Seq<u128>)
    requires
        forall|t: int| 0 <= t < s.len() - 1 ==> #[trigger] s[t] < s[t + 1],
    ensures
        sorted(s),
{
    assert forall|i: int, j: int| 0 <= i < j < s.len() implies s[i] < s[j] by {
        lemma_sorted_chain(s, i, j);
    }
}

/// A key-sorted sequence's tail is key-sorted.
pub proof fn lemma_kv_sorted_drop_first(s: Seq<(u128, u128)>)
    requires
        kv_sorted(s),
        s.len() > 0,
    ensures
        kv_sorted(s.drop_first()),
        forall|t: int|
            0 <= t < s.drop_first().len() ==> (#[trigger] s.drop_first()[t]).0 > s[0].0,
{
    assert(forall|t: int| 0 <= t < s.drop_first().len() ==> #[trigger] s.drop_first()[t] == s[t + 1]);
}

/// Lookup in a key-sorted sequence agrees with its map.
pub proof fn lemma_kv_map_lookup(s: Seq<(u128, u128)>, k: u128)
    requires
        kv_sorted(s),
    ensures
        kv_lookup(s, k) == if kv_map(s).dom().contains(k) {
            Some(kv_map(s)[k])
        } else {
            None
        },
    decreases s.len(),
{
    if s.len() == 0 {
    } else {
        lemma_kv_sorted_drop_first(s);
        lemma_kv_map_lookup(s.drop_first(), k);
        if s[0].0 == k {
            assert(!kv_map(s.drop_first()).dom().contains(k)) by {
                lemma_kv_map_contains(s.drop_first(), k);
            }
        }
    }
}

/// Membership in a key/value sequence agrees with its map's domain.
pub proof fn lemma_kv_map_contains(s: Seq<(u128, u128)>, k: u128)
    ensures
        kv_contains(s, k) == kv_map(s).dom().contains(k),
    decreases s.len(),
{
    if s.len() == 0 {
    } else {
        lemma_kv_map_contains(s.drop_first(), k);
        if s[0].0 == k {
            assert(s[0].0 == k && kv_contains(s, k));
        } else {
            if kv_contains(s.drop_first(), k) {
                let u = choose|t: int|
                    0 <= t < s.drop_first().len() && (#[trigger] s.drop_first()[t]).0 == k;
                assert(s[u + 1].0 == k);
            }
            if kv_contains(s, k) {
                let u = choose|t: int| 0 <= t < s.len() && (#[trigger] s[t]).0 == k;
                assert(u != 0);
                assert(s.drop_first()[u - 1].0 == k);
            }
        }
    }
}

/// Inserting into a key-sorted sequence inserts into its map.
pub proof fn lemma_kv_map_insert(s: Seq<(u128, u128)>, k: u128, v: u128)
    requires
        kv_sorted(s),
    ensures
        kv_map(kvs_insert(s, k, v)) == kv_map(s).insert(k, v),
    decreases s.len(),
{
    if s.len() == 0 {
        let w = kvs_insert(s, k, v);
        assert(w == seq![(k, v)]);
        assert(w.drop_first() =~= Seq::<(u128, u128)>::empty());
        assert(kv_map(w.drop_first()) =~= Map::<u128, u128>::empty());
        assert(w[0] == (k, v));
        assert(kv_map(w) == kv_map(w.drop_first()).insert(k, v));
        assert(kv_map(kvs_insert(s, k, v)) =~= kv_map(s).insert(k, v));
    } else if k < s[0].0 {
        let w = seq![(k, v)] + s;
        assert(w.drop_first() =~= s);
        assert(kv_map(w) == kv_map(s).insert(k, v));
    } else if k == s[0].0 {
        let w = seq![(k, v)] + s.drop_first();
        assert(w.drop_first() =~= s.drop_first());
        assert(kv_map(w) == kv_map(s.drop_first()).insert(k, v));
        assert(kv_map(s) == kv_map(s.drop_first()).insert(s[0].0, s[0].1));
        assert(kv_map(s).insert(k, v) =~= kv_map(s.drop_first()).insert(k, v));
    } else {
        lemma_kv_sorted_drop_first(s);
        lemma_kv_map_insert(s.drop_first(), k, v);
        let w = seq![s[0]] + kvs_insert(s.drop_first(), k, v);
        assert(kvs_insert(s, k, v) == w);
        assert(w.drop_first() =~= kvs_insert(s.drop_first(), k, v));
        assert(w[0] == s[0]);
        assert(kv_map(w) == kv_map(s.drop_first()).insert(k, v).insert(s[0].0, s[0].1));
        assert(kv_map(s).insert(k, v) =~= kv_map(s.drop_first()).insert(k, v).insert(
            s[0].0,
            s[0].1,
        ));
    }
}

/// Removing from a key-sorted sequence removes from its map.
pub proof fn lemma_kv_map_remove(s: Seq<(u128, u128)>, k: u128)
    requires
        kv_sorted(s),
    ensures
        kv_map(kvs_remove(s, k)) == kv_map(s).remove(k),
    decreases s.len(),
{
    if s.len() == 0 {
        assert(kv_map(kvs_remove(s, k)) =~= kv_map(s).remove(k));
    } else if s[0].0 == k {
        assert(kvs_remove(s, k) == s.drop_first());
        lemma_kv_sorted_drop_first(s);
        assert(!kv_map(s.drop_first()).dom().contains(k)) by {
            lemma_kv_map_contains(s.drop_first(), k);
        }
        assert(kv_map(s) == kv_map(s.drop_first()).insert(k, s[0].1));
        assert(kv_map(s).remove(k) =~= kv_map(s.drop_first()));
    } else {
        lemma_kv_sorted_drop_first(s);
        lemma_kv_map_remove(s.drop_first(), k);
        let w = seq![s[0]] + kvs_remove(s.drop_first(), k);
        assert(kvs_remove(s, k) == w);
        assert(w.drop_first() =~= kvs_remove(s.drop_first(), k));
        assert(w[0] == s[0]);
        assert(kv_map(w) == kv_map(s.drop_first()).remove(k).insert(s[0].0, s[0].1));
        assert(kv_map(s).remove(k) =~= kv_map(s.drop_first()).remove(k).insert(s[0].0, s[0].1));
    }
}

/// The map of a key-sorted sequence is finite with one entry per pair.
pub proof fn lemma_kv_map_len(s: Seq<(u128, u128)>)
    requires
        kv_sorted(s),
    ensures
        kv_map(s).dom().finite(),
        kv_map(s).len() == s.len(),
    decreases s.len(),
{
    if s.len() == 0 {
    } else {
        lemma_kv_sorted_drop_first(s);
        lemma_kv_map_len(s.drop_first());
        lemma_kv_map_contains(s.drop_first(), s[0].0);
        assert(!kv_contains(s.drop_first(), s[0].0)) by {
            if kv_contains(s.drop_first(), s[0].0) {
                let u = choose|t: int|
                    0 <= t < s.drop_first().len() && (#[trigger] s.drop_first()[t]).0 == s[0].0;
                assert(s.drop_first()[u].0 > s[0].0);
            }
        }
        vstd::set::axiom_set_insert_len(kv_map(s.drop_first()).dom(), s[0].0);
    }
}

} // verus!
