//! Insertion: upsert into a leaf, with overflow splits that propagate
//! upward through the internal nodes.

use vstd::prelude::*;

use crate::lemmas::{
    lemma_children_above, lemma_children_below, lemma_insert_ignores_high_suffix,
    lemma_insert_skips_low_prefix, lemma_kv_lookup_absent, lemma_kv_lookup_at,
    lemma_kvs_children_add, lemma_kvs_children_split, lemma_kvs_insert_at,
    lemma_kvs_insert_overwrite, lemma_lookup_ignores_high_suffix, lemma_lookup_skips_low_prefix,
    lemma_wf_kvs_in_range,
};
use crate::model::{
    child_hi, child_lo, height, hi_ok, in_range, keys_above, keys_below, kv_contains, kv_lookup,
    kvs, kvs_children, kvs_insert, leaf_kvs, leaf_min, lo_ok, lo_strict, params_ok, route, sorted,
    wf,
};
use crate::node::{find_route, BTNode, Internal, Leaf};
use crate::pager::Pager;

verus! {

/// The outcome handed back to the parent after an insertion into a subtree:
/// the possibly split-off sibling with its separator key, and the value the
/// key previously carried.
pub(crate) struct SetOutcome {
    pub split: Option<(u128, BTNode)>,
    pub prev: Option<u128>,
}

/// The layout of an internal node after absorbing a child split without
/// splitting itself: the separator at the routing index, the new child's
/// page right of it, everything else in place.
pub(crate) open spec fn absorbed_layout(
    n0: Internal,
    n1: Internal,
    key: u128,
    sk2: u128,
    np: u64,
) -> bool {
    &&& n1.keys@ == n0.keys@.insert(route(n0.keys@, key), sk2)
    &&& crate::codec::child_pages(n1.children@) == crate::codec::child_pages(
        n0.children@,
    ).insert(route(n0.keys@, key) + 1, np)
}

/// The contract of an in-place (non-splitting) upsert into a leaf.
pub(crate) open spec fn leaf_set_flat_post(
    l0: Leaf,
    l1: Leaf,
    key: u128,
    value: u128,
    sp: int,
    mkc: int,
    lo: Option<u128>,
    hi: Option<u128>,
) -> bool {
    &&& leaf_kvs(l1) == kvs_insert(leaf_kvs(l0), key, value)
    &&& wf(BTNode::Leaf(l1), sp, mkc, true, lo, hi)
    &&& l1.keys@.len() >= l0.keys@.len()
    &&& l1.next == l0.next
    &&& l1.page_nr == l0.page_nr
}

/// The contract of a splitting upsert: `l1` keeps the lower half, the fresh
/// node carries the upper half, and `sk` separates the two windows.
pub(crate) open spec fn split_post(
    n0: BTNode,
    n1: BTNode,
    sk: u128,
    nn: BTNode,
    key: u128,
    value: u128,
    sp: int,
    mkc: int,
    lo: Option<u128>,
    hi: Option<u128>,
) -> bool {
    &&& kvs(n1) + kvs(nn) == kvs_insert(kvs(n0), key, value)
    &&& wf(n1, sp, mkc, false, lo, Some(sk))
    &&& wf(nn, sp, mkc, false, Some(sk), hi)
    &&& in_range(lo, hi, sk)
    &&& lo_strict(lo, sk)
    &&& n1.spec_page_nr() == n0.spec_page_nr()
    &&& (n1 is Leaf <==> n0 is Leaf)
    &&& (nn is Leaf <==> n0 is Leaf)
    &&& crate::model::height(n1) == crate::model::height(n0)
    &&& crate::model::height(nn) == crate::model::height(n0)
}

/// Splitting a full leaf around `split_at` and inserting on the owning side
/// yields two well-formed leaves whose contents concatenate to the upsert.
#[verifier::rlimit(60)]
proof fn lemma_leaf_split(
    l0: Leaf,
    l1: Leaf,
    r1: Leaf,
    key: u128,
    value: u128,
    i: int,
    sp: int,
    mkc: int,
    lo: Option<u128>,
    hi: Option<u128>,
)
    requires
        params_ok(sp, mkc),
        l0.keys@.len() == mkc,
        l0.entries@.len() == mkc,
        sorted(l0.keys@),
        forall|j: int| 0 <= j < l0.keys@.len() ==> in_range(lo, hi, #[trigger] l0.keys@[j]),
        in_range(lo, hi, key),
        0 <= i <= l0.keys@.len(),
        forall|j: int| 0 <= j < i ==> #[trigger] l0.keys@[j] < key,
        forall|j: int| i <= j < l0.keys@.len() ==> #[trigger] l0.keys@[j] > key,
        r1.page_nr == l1.next.unwrap() && l1.next is Some,
        r1.next == l0.next,
        l1.page_nr == l0.page_nr,
        i <= sp ==> l1.keys@ == l0.keys@.take(sp).insert(i, key) && l1.entries@
            == l0.entries@.take(sp).insert(i, value) && r1.keys@ == l0.keys@.skip(sp)
            && r1.entries@ == l0.entries@.skip(sp),
        i > sp ==> l1.keys@ == l0.keys@.take(sp) && l1.entries@ == l0.entries@.take(sp)
            && r1.keys@ == l0.keys@.skip(sp).insert(i - sp, key) && r1.entries@
            == l0.entries@.skip(sp).insert(i - sp, value),
    ensures
        split_post(
            BTNode::Leaf(l0),
            BTNode::Leaf(l1),
            l0.keys@[sp],
            BTNode::Leaf(r1),
            key,
            value,
            sp,
            mkc,
            lo,
            hi,
        ),
{
    let s = leaf_kvs(l0);
    let sk = l0.keys@[sp];
    assert forall|j: int| 0 <= j < i implies (#[trigger] s[j]).0 < key by {
        assert(s[j].0 == l0.keys@[j]);
    }
    assert forall|j: int| i <= j < s.len() implies (#[trigger] s[j]).0 > key by {
        assert(s[j].0 == l0.keys@[j]);
    }
    lemma_kvs_insert_at(s, key, value, i);
    let w = s.take(i) + seq![(key, value)] + s.skip(i);
    assert(leaf_kvs(l1) + leaf_kvs(r1) =~= w);
    assert(sorted(l1.keys@));
    assert(sorted(r1.keys@));
    assert(l1.keys@.len() >= sp >= leaf_min(sp, mkc));
    assert(r1.keys@.len() >= mkc - sp >= leaf_min(sp, mkc));
    assert(l1.keys@.len() <= sp + 1 <= mkc);
    assert(r1.keys@.len() <= mkc - sp + 1 <= mkc);
    assert(wf(BTNode::Leaf(l1), sp, mkc, false, lo, Some(sk)));
    assert(wf(BTNode::Leaf(r1), sp, mkc, false, Some(sk), hi));
    assert(in_range(lo, hi, sk));
    assert(sp >= 1 && l0.keys@[0] < sk);
    assert(lo_strict(lo, sk));
}

/// At the routing index, the concatenated siblings to the left lie strictly
/// below the key and those to the right strictly above, so lookups and
/// insertions localize to the routed child.
pub(crate) proof fn lemma_route_localize(
    node: Internal,
    key: u128,
    value: u128,
    i: int,
    sp: int,
    mkc: int,
    root: bool,
    lo: Option<u128>,
    hi: Option<u128>,
)
    requires
        wf(BTNode::Internal(node), sp, mkc, root, lo, hi),
        0 <= i <= node.keys@.len(),
        forall|j: int| 0 <= j < i ==> #[trigger] node.keys@[j] <= key,
        forall|j: int| i <= j < node.keys@.len() ==> #[trigger] node.keys@[j] > key,
    ensures
        kvs_children(node.children@) == kvs_children(node.children@.take(i)) + kvs(
            node.children@[i],
        ) + kvs_children(node.children@.skip(i + 1)),
        keys_below(kvs_children(node.children@.take(i)), key),
        keys_above(kvs_children(node.children@.skip(i + 1)), key),
        kv_lookup(kvs_children(node.children@), key) == kv_lookup(kvs(node.children@[i]), key),
        kvs_insert(kvs_children(node.children@), key, value) == kvs_children(
            node.children@.take(i),
        ) + kvs_insert(kvs(node.children@[i]), key, value) + kvs_children(
            node.children@.skip(i + 1),
        ),
{
    let keys = node.keys@;
    let cs = node.children@;
    lemma_kvs_children_split(cs, i);
    let a = kvs_children(cs.take(i));
    let m = kvs(cs[i]);
    let c = kvs_children(cs.skip(i + 1));
    assert forall|j: int| 0 <= j < cs.take(i).len() implies keys_below(
        kvs(#[trigger] cs.take(i)[j]),
        key,
    ) by {
        assert(cs.take(i)[j] == cs[j]);
        lemma_wf_kvs_in_range(cs[j], sp, mkc, false, child_lo(keys, lo, j), child_hi(keys, hi, j));
        assert(child_hi(keys, hi, j) == Some(keys[j]));
        assert(keys[j] <= key);
        assert forall|t: int| 0 <= t < kvs(cs[j]).len() implies (#[trigger] kvs(cs[j])[t]).0
            < key by {
            assert(in_range(child_lo(keys, lo, j), Some(keys[j]), kvs(cs[j])[t].0));
        }
    }
    lemma_children_below(cs.take(i), key);
    assert forall|j: int| 0 <= j < cs.skip(i + 1).len() implies keys_above(
        kvs(#[trigger] cs.skip(i + 1)[j]),
        key,
    ) by {
        assert(cs.skip(i + 1)[j] == cs[i + 1 + j]);
        lemma_wf_kvs_in_range(
            cs[i + 1 + j],
            sp,
            mkc,
            false,
            child_lo(keys, lo, i + 1 + j),
            child_hi(keys, hi, i + 1 + j),
        );
        assert(child_lo(keys, lo, i + 1 + j) == Some(keys[i + j]));
        assert(keys[i + j] >= keys[i]) by {
            if i + j > i {
                assert(keys[i] < keys[i + j]);
            }
        }
        assert forall|t: int| 0 <= t < kvs(cs[i + 1 + j]).len() implies (#[trigger] kvs(
            cs[i + 1 + j],
        )[t]).0 > key by {
            assert(in_range(Some(keys[i + j]), child_hi(keys, hi, i + 1 + j), kvs(cs[i + 1 + j])[t].0));
        }
    }
    lemma_children_above(cs.skip(i + 1), key);
    // lookup localizes
    assert((a + m) + c =~= a + (m + c));
    lemma_lookup_ignores_high_suffix(a + m, c, key);
    lemma_lookup_skips_low_prefix(a, m, key);
    // insertion localizes
    lemma_insert_ignores_high_suffix(a + m, c, key, value);
    lemma_insert_skips_low_prefix(a, m, key, value);
    assert(kvs_insert(a + m, key, value) + c =~= (a + kvs_insert(m, key, value)) + c);
}

/// As `lemma_route_localize`, for removals: deletion reaches only the
/// routed child's content.
pub(crate) proof fn lemma_route_localize_remove(
    node: Internal,
    key: u128,
    i: int,
    sp: int,
    mkc: int,
    root: bool,
    lo: Option<u128>,
    hi: Option<u128>,
)
    requires
        wf(BTNode::Internal(node), sp, mkc, root, lo, hi),
        0 <= i <= node.keys@.len(),
        forall|j: int| 0 <= j < i ==> #[trigger] node.keys@[j] <= key,
        forall|j: int| i <= j < node.keys@.len() ==> #[trigger] node.keys@[j] > key,
    ensures
        kvs_children(node.children@) == kvs_children(node.children@.take(i)) + kvs(
            node.children@[i],
        ) + kvs_children(node.children@.skip(i + 1)),
        kv_lookup(kvs_children(node.children@), key) == kv_lookup(kvs(node.children@[i]), key),
        crate::model::kvs_remove(kvs_children(node.children@), key) == kvs_children(
            node.children@.take(i),
        ) + crate::model::kvs_remove(kvs(node.children@[i]), key) + kvs_children(
            node.children@.skip(i + 1),
        ),
{
    lemma_route_localize(node, key, 0, i, sp, mkc, root, lo, hi);
    let cs = node.children@;
    let a = kvs_children(cs.take(i));
    let m = kvs(cs[i]);
    let c = kvs_children(cs.skip(i + 1));
    assert((a + m) + c =~= a + (m + c));
    crate::lemmas::lemma_remove_ignores_high_suffix(a + m, c, key);
    crate::lemmas::lemma_remove_skips_low_prefix(a, m, key);
    assert(crate::model::kvs_remove(a + m, key) + c =~= (a + crate::model::kvs_remove(m, key))
        + c);
}

/// Replacing the routed child with its upserted version turns the node's
/// content into the upserted content.
proof fn lemma_internal_update_child(
    node0: Internal,
    node1: Internal,
    c1: BTNode,
    key: u128,
    value: u128,
    i: int,
    sp: int,
    mkc: int,
    root: bool,
    lo: Option<u128>,
    hi: Option<u128>,
)
    requires
        params_ok(sp, mkc),
        wf(BTNode::Internal(node0), sp, mkc, root, lo, hi),
        0 <= i <= node0.keys@.len(),
        forall|j: int| 0 <= j < i ==> #[trigger] node0.keys@[j] <= key,
        forall|j: int| i <= j < node0.keys@.len() ==> #[trigger] node0.keys@[j] > key,
        node1.keys@ == node0.keys@,
        node1.page_nr == node0.page_nr,
        node1.children@ == node0.children@.update(i, c1),
        kvs(c1) == kvs_insert(kvs(node0.children@[i]), key, value),
        wf(c1, sp, mkc, false, child_lo(node0.keys@, lo, i), child_hi(node0.keys@, hi, i)),
        height(c1) == height(node0.children@[i]),
    ensures
        kvs(BTNode::Internal(node1)) == kvs_insert(kvs(BTNode::Internal(node0)), key, value),
        wf(BTNode::Internal(node1), sp, mkc, root, lo, hi),
        height(BTNode::Internal(node1)) == height(BTNode::Internal(node0)),
{
    let keys = node0.keys@;
    let cs = node0.children@;
    let cs1 = node1.children@;
    lemma_route_localize(node0, key, value, i, sp, mkc, root, lo, hi);
    crate::lemmas::lemma_kvs_children_update(cs, i, c1);
    assert(kvs_children(cs1) == kvs_insert(kvs_children(cs), key, value));
    assert forall|j: int| 0 <= j < cs1.len() implies wf(
        #[trigger] cs1[j],
        sp,
        mkc,
        false,
        child_lo(keys, lo, j),
        child_hi(keys, hi, j),
    ) by {
        if j != i {
            assert(cs1[j] == cs[j]);
        }
    }
    assert forall|j: int| 0 <= j < cs1.len() implies height(#[trigger] cs1[j]) == height(
        cs1[0],
    ) by {
        assert(height(cs1[j]) == height(cs[j]));
        assert(height(cs1[0]) == height(cs[0]));
    }
    assert(height(BTNode::Internal(node1)) == height(BTNode::Internal(node0)));
}

/// Inserting the separator and split-off sibling of the routed child into a
/// node with room turns the node's content into the upserted content.
proof fn lemma_internal_insert_child(
    node0: Internal,
    node1: Internal,
    c1: BTNode,
    sk: u128,
    nn: BTNode,
    key: u128,
    value: u128,
    i: int,
    sp: int,
    mkc: int,
    root: bool,
    lo: Option<u128>,
    hi: Option<u128>,
)
    requires
        params_ok(sp, mkc),
        wf(BTNode::Internal(node0), sp, mkc, root, lo, hi),
        0 <= i <= node0.keys@.len(),
        forall|j: int| 0 <= j < i ==> #[trigger] node0.keys@[j] <= key,
        forall|j: int| i <= j < node0.keys@.len() ==> #[trigger] node0.keys@[j] > key,
        node0.keys@.len() < mkc,
        node1.keys@ == node0.keys@.insert(i, sk),
        node1.page_nr == node0.page_nr,
        node1.children@ == node0.children@.update(i, c1).insert(i + 1, nn),
        kvs(c1) + kvs(nn) == kvs_insert(kvs(node0.children@[i]), key, value),
        wf(c1, sp, mkc, false, child_lo(node0.keys@, lo, i), Some(sk)),
        wf(nn, sp, mkc, false, Some(sk), child_hi(node0.keys@, hi, i)),
        in_range(child_lo(node0.keys@, lo, i), child_hi(node0.keys@, hi, i), sk),
        lo_strict(child_lo(node0.keys@, lo, i), sk),
        height(c1) == height(node0.children@[i]),
        height(nn) == height(node0.children@[i]),
    ensures
        kvs(BTNode::Internal(node1)) == kvs_insert(kvs(BTNode::Internal(node0)), key, value),
        wf(BTNode::Internal(node1), sp, mkc, root, lo, hi),
        height(BTNode::Internal(node1)) == height(BTNode::Internal(node0)),
{
    let keys = node0.keys@;
    let keys1 = node1.keys@;
    let cs = node0.children@;
    let cs1 = node1.children@;
    lemma_route_localize(node0, key, value, i, sp, mkc, root, lo, hi);
    // content: the two halves stand where the routed child stood
    assert(cs1 =~= cs.take(i) + seq![c1, nn] + cs.skip(i + 1));
    lemma_kvs_children_add(cs.take(i) + seq![c1, nn], cs.skip(i + 1));
    lemma_kvs_children_add(cs.take(i), seq![c1, nn]);
    assert((cs.take(i) + seq![c1, nn]) + cs.skip(i + 1) =~= cs1);
    assert(kvs_children(seq![c1, nn]) == kvs(c1) + kvs(nn)) by {
        assert(seq![c1, nn].drop_first() =~= seq![nn]);
        assert(seq![nn].drop_first() =~= Seq::<BTNode>::empty());
        assert(kvs_children(seq![nn].drop_first()) =~= Seq::<(u128, u128)>::empty());
        assert(kvs_children(seq![nn]) =~= kvs(nn) + kvs_children(seq![nn].drop_first()));
        assert(kvs_children(seq![nn]) =~= kvs(nn));
        assert(kvs_children(seq![c1, nn]) =~= kvs(c1) + kvs_children(seq![nn]));
        assert(kvs_children(seq![c1, nn]) =~= kvs(c1) + kvs(nn));
    }
    assert(kvs_children(cs1) =~= kvs_children(cs.take(i)) + (kvs(c1) + kvs(nn)) + kvs_children(
        cs.skip(i + 1),
    ));
    assert(kvs_children(cs1) == kvs_insert(kvs_children(cs), key, value));
    // the new separator fits strictly between its neighbours
    assert(sorted(keys1)) by {
        assert forall|x: int, y: int| 0 <= x < y < keys1.len() implies keys1[x] < keys1[y] by {
            if x < i && y == i {
                assert(keys1[x] == keys[x]);
                assert(lo_strict(child_lo(keys, lo, i), sk));
                if x < i - 1 {
                    assert(keys[x] < keys[i - 1]);
                }
            } else if x == i && y > i {
                assert(keys1[y] == keys[y - 1]);
                assert(hi_ok(child_hi(keys, hi, i), sk));
                if y - 1 > i {
                    assert(keys[i] < keys[y - 1]);
                }
            } else if x < i && y > i {
                assert(keys1[x] == keys[x] && keys1[y] == keys[y - 1]);
            } else if y < i {
                assert(keys1[x] == keys[x] && keys1[y] == keys[y]);
            } else {
                assert(keys1[x] == keys[x - 1] && keys1[y] == keys[y - 1]);
            }
        }
    }
    assert forall|j: int| 0 <= j < keys1.len() implies in_range(lo, hi, #[trigger] keys1[j]) by {
        if j < i {
            assert(keys1[j] == keys[j]);
        } else if j == i {
            assert(in_range(child_lo(keys, lo, i), child_hi(keys, hi, i), sk));
            if i > 0 {
                assert(in_range(lo, hi, keys[i - 1]));
            }
            if i < keys.len() {
                assert(in_range(lo, hi, keys[i]));
            }
        } else {
            assert(keys1[j] == keys[j - 1]);
        }
    }
    // children sit in the windows the refined key sequence cuts out
    assert forall|j: int| 0 <= j < cs1.len() implies wf(
        #[trigger] cs1[j],
        sp,
        mkc,
        false,
        child_lo(keys1, lo, j),
        child_hi(keys1, hi, j),
    ) by {
        if j < i {
            assert(cs1[j] == cs[j]);
            assert(child_lo(keys1, lo, j) == child_lo(keys, lo, j));
            assert(child_hi(keys1, hi, j) == child_hi(keys, hi, j));
        } else if j == i {
            assert(cs1[j] == c1);
            assert(child_lo(keys1, lo, i) == child_lo(keys, lo, i));
            assert(child_hi(keys1, hi, i) == Some(sk));
        } else if j == i + 1 {
            assert(cs1[j] == nn);
            assert(child_lo(keys1, lo, i + 1) == Some(sk));
            assert(child_hi(keys1, hi, i + 1) == child_hi(keys, hi, i));
        } else {
            assert(cs1[j] == cs[j - 1]);
            assert(child_lo(keys1, lo, j) == child_lo(keys, lo, j - 1));
            assert(child_hi(keys1, hi, j) == child_hi(keys, hi, j - 1));
        }
    }
    assert forall|j: int| 0 <= j < cs1.len() implies height(#[trigger] cs1[j]) == height(
        cs1[0],
    ) by {
        let h = height(cs[i]);
        if j < i {
            assert(height(cs1[j]) == height(cs[j]));
        } else if j <= i + 1 {
            assert(height(cs1[j]) == h);
        } else {
            assert(height(cs1[j]) == height(cs[j - 1]));
        }
        if i == 0 {
            assert(height(cs1[0]) == h);
        } else {
            assert(height(cs1[0]) == height(cs[0]));
        }
    }
    assert(height(BTNode::Internal(node1)) == height(BTNode::Internal(node0)));
}

/// Splitting a full internal node around `split_at` — promoting the middle
/// key — after absorbing the routed child's split yields two well-formed
/// nodes whose contents concatenate to the upserted content.
#[verifier::rlimit(100)]
proof fn lemma_internal_split(
    node0: Internal,
    node1: Internal,
    node2: Internal,
    c1: BTNode,
    sk: u128,
    nn: BTNode,
    key: u128,
    value: u128,
    i: int,
    sp: int,
    mkc: int,
    root: bool,
    lo: Option<u128>,
    hi: Option<u128>,
)
    requires
        params_ok(sp, mkc),
        wf(BTNode::Internal(node0), sp, mkc, root, lo, hi),
        0 <= i <= node0.keys@.len(),
        forall|j: int| 0 <= j < i ==> #[trigger] node0.keys@[j] <= key,
        forall|j: int| i <= j < node0.keys@.len() ==> #[trigger] node0.keys@[j] > key,
        mkc <= node0.keys@.len(),
        node1.page_nr == node0.page_nr,
        kvs(c1) + kvs(nn) == kvs_insert(kvs(node0.children@[i]), key, value),
        wf(c1, sp, mkc, false, child_lo(node0.keys@, lo, i), Some(sk)),
        wf(nn, sp, mkc, false, Some(sk), child_hi(node0.keys@, hi, i)),
        in_range(child_lo(node0.keys@, lo, i), child_hi(node0.keys@, hi, i), sk),
        lo_strict(child_lo(node0.keys@, lo, i), sk),
        height(c1) == height(node0.children@[i]),
        height(nn) == height(node0.children@[i]),
        i <= sp ==> node1.keys@ == node0.keys@.take(sp).insert(i, sk) && node1.children@
            == node0.children@.update(i, c1).take(sp + 1).insert(i + 1, nn) && node2.keys@
            == node0.keys@.skip(sp + 1) && node2.children@ == node0.children@.update(i, c1).skip(
            sp + 1,
        ),
        i > sp ==> node1.keys@ == node0.keys@.take(sp) && node1.children@ == node0.children@.update(
            i,
            c1,
        ).take(sp + 1) && node2.keys@ == node0.keys@.skip(sp + 1).insert(i - sp - 1, sk)
            && node2.children@ == node0.children@.update(i, c1).skip(sp + 1).insert(i - sp, nn),
    ensures
        split_post(
            BTNode::Internal(node0),
            BTNode::Internal(node1),
            node0.keys@[sp],
            BTNode::Internal(node2),
            key,
            value,
            sp,
            mkc,
            lo,
            hi,
        ),
{
    if i <= sp {
        lemma_internal_split_low(
            node0,
            node1,
            node2,
            c1,
            sk,
            nn,
            key,
            value,
            i,
            sp,
            mkc,
            root,
            lo,
            hi,
        );
    } else {
        lemma_internal_split_high(
            node0,
            node1,
            node2,
            c1,
            sk,
            nn,
            key,
            value,
            i,
            sp,
            mkc,
            root,
            lo,
            hi,
        );
    }
}

/// The low half of the split argument: the separator and new child land in
/// the left node.
#[verifier::rlimit(100)]
proof fn lemma_internal_split_low(
    node0: Internal,
    node1: Internal,
    node2: Internal,
    c1: BTNode,
    sk: u128,
    nn: BTNode,
    key: u128,
    value: u128,
    i: int,
    sp: int,
    mkc: int,
    root: bool,
    lo: Option<u128>,
    hi: Option<u128>,
)
    requires
        params_ok(sp, mkc),
        wf(BTNode::Internal(node0), sp, mkc, root, lo, hi),
        0 <= i <= node0.keys@.len(),
        forall|j: int| 0 <= j < i ==> #[trigger] node0.keys@[j] <= key,
        forall|j: int| i <= j < node0.keys@.len() ==> #[trigger] node0.keys@[j] > key,
        mkc <= node0.keys@.len(),
        node1.page_nr == node0.page_nr,
        kvs(c1) + kvs(nn) == kvs_insert(kvs(node0.children@[i]), key, value),
        wf(c1, sp, mkc, false, child_lo(node0.keys@, lo, i), Some(sk)),
        wf(nn, sp, mkc, false, Some(sk), child_hi(node0.keys@, hi, i)),
        in_range(child_lo(node0.keys@, lo, i), child_hi(node0.keys@, hi, i), sk),
        lo_strict(child_lo(node0.keys@, lo, i), sk),
        height(c1) == height(node0.children@[i]),
        height(nn) == height(node0.children@[i]),
        i <= sp,
        node1.keys@ == node0.keys@.take(sp).insert(i, sk),
        node1.children@ == node0.children@.update(i, c1).take(sp + 1).insert(i + 1, nn),
        node2.keys@ == node0.keys@.skip(sp + 1),
        node2.children@ == node0.children@.update(i, c1).skip(sp + 1),
    ensures
        split_post(
            BTNode::Internal(node0),
            BTNode::Internal(node1),
            node0.keys@[sp],
            BTNode::Internal(node2),
            key,
            value,
            sp,
            mkc,
            lo,
            hi,
        ),
{
    let keys = node0.keys@;
    let cs = node0.children@;
    let cs1 = cs.update(i, c1);
    let pk = keys[sp];
    lemma_route_localize(node0, key, value, i, sp, mkc, root, lo, hi);
    let a = kvs_children(cs.take(i));
    let m = kvs(cs[i]);
    let c = kvs_children(cs.skip(i + 1));
    // the promoted key bounds the two windows and sits in the old one
    assert(in_range(lo, hi, pk));
    assert(keys[0] < pk);
    assert(lo_strict(lo, pk));
    {
        let keys_l = node1.keys@;
        let cs_l = node1.children@;
        let keys_r = node2.keys@;
        let cs_r = node2.children@;
        // content of the left node
        assert(cs_l =~= cs.take(i) + seq![c1, nn] + cs.subrange(i + 1, sp + 1));
        lemma_kvs_children_add(cs.take(i) + seq![c1, nn], cs.subrange(i + 1, sp + 1));
        lemma_kvs_children_add(cs.take(i), seq![c1, nn]);
        assert(kvs_children(seq![c1, nn]) == kvs(c1) + kvs(nn)) by {
            assert(seq![c1, nn].drop_first() =~= seq![nn]);
            assert(seq![nn].drop_first() =~= Seq::<BTNode>::empty());
            assert(kvs_children(seq![nn].drop_first()) =~= Seq::<(u128, u128)>::empty());
            assert(kvs_children(seq![nn]) =~= kvs(nn));
            assert(kvs_children(seq![c1, nn]) =~= kvs(c1) + kvs_children(seq![nn]));
        }
        // content of the right node
        assert(cs_r =~= cs.skip(sp + 1));
        // the old suffix beyond the routed child splits at the node split point
        assert(cs.skip(i + 1) =~= cs.subrange(i + 1, sp + 1) + cs.skip(sp + 1));
        lemma_kvs_children_add(cs.subrange(i + 1, sp + 1), cs.skip(sp + 1));
        assert(kvs_children(cs_l) + kvs_children(cs_r) =~= a + (kvs(c1) + kvs(nn)) + c);
        assert(kvs(BTNode::Internal(node1)) + kvs(BTNode::Internal(node2)) == kvs_insert(
            kvs(BTNode::Internal(node0)),
            key,
            value,
        ));
        // left keys: the prefix with the separator slotted in, all below pk
        assert(sorted(keys_l)) by {
            assert forall|x: int, y: int| 0 <= x < y < keys_l.len() implies keys_l[x]
                < keys_l[y] by {
                if y < i {
                    assert(keys_l[x] == keys[x] && keys_l[y] == keys[y]);
                } else if y == i {
                    assert(keys_l[x] == keys[x]);
                    if x < i - 1 {
                        assert(keys[x] < keys[i - 1]);
                    }
                } else if x < i {
                    assert(keys_l[x] == keys[x] && keys_l[y] == keys[y - 1]);
                } else if x == i {
                    assert(keys_l[y] == keys[y - 1]);
                    if y - 1 > i {
                        assert(keys[i] < keys[y - 1]);
                    }
                } else {
                    assert(keys_l[x] == keys[x - 1] && keys_l[y] == keys[y - 1]);
                }
            }
        }
        assert forall|j: int| 0 <= j < keys_l.len() implies in_range(
            lo,
            Some(pk),
            #[trigger] keys_l[j],
        ) by {
            if j < i {
                assert(keys_l[j] == keys[j]);
                assert(keys[j] < keys[sp] || j == sp);
            } else if j == i {
                assert(keys_l[j] == sk);
                assert(hi_ok(child_hi(keys, hi, i), sk));
                if i < keys.len() {
                    assert(keys[i] <= pk) by {
                        if i < sp {
                            assert(keys[i] < keys[sp]);
                        }
                    }
                }
                if i > 0 {
                    assert(lo_ok(lo, keys[i - 1]));
                }
            } else {
                assert(keys_l[j] == keys[j - 1]);
                assert(keys[j - 1] < keys[sp]);
            }
        }
        // left children windows match the refined keys
        assert forall|j: int| 0 <= j < cs_l.len() implies wf(
            #[trigger] cs_l[j],
            sp,
            mkc,
            false,
            child_lo(keys_l, lo, j),
            child_hi(keys_l, Some(pk), j),
        ) by {
            if j < i {
                assert(cs_l[j] == cs[j]);
                assert(child_lo(keys_l, lo, j) == child_lo(keys, lo, j));
                assert(child_hi(keys_l, Some(pk), j) == child_hi(keys, hi, j));
            } else if j == i {
                assert(cs_l[j] == c1);
                assert(child_lo(keys_l, lo, i) == child_lo(keys, lo, i));
                assert(child_hi(keys_l, Some(pk), i) == Some(sk));
            } else if j == i + 1 {
                assert(cs_l[j] == nn);
                assert(child_lo(keys_l, lo, i + 1) == Some(sk));
                assert(child_hi(keys_l, Some(pk), i + 1) == child_hi(keys, hi, i)) by {
                    if i == sp {
                        assert(child_hi(keys_l, Some(pk), sp + 1) == Some(pk));
                        assert(child_hi(keys, hi, i) == Some(keys[i]));
                    }
                }
            } else {
                assert(cs_l[j] == cs[j - 1]);
                assert(child_lo(keys_l, lo, j) == child_lo(keys, lo, j - 1));
                assert(child_hi(keys_l, Some(pk), j) == child_hi(keys, hi, j - 1)) by {
                    if j == sp + 1 {
                        assert(child_hi(keys_l, Some(pk), j) == Some(pk));
                        assert(child_hi(keys, hi, j - 1) == Some(keys[sp]));
                    }
                }
            }
        }
        assert forall|j: int| 0 <= j < cs_l.len() implies height(#[trigger] cs_l[j]) == height(
            cs_l[0],
        ) by {
            let h = height(cs[i]);
            if j < i {
                assert(height(cs_l[j]) == height(cs[j]));
            } else if j <= i + 1 {
                assert(height(cs_l[j]) == h);
            } else {
                assert(height(cs_l[j]) == height(cs[j - 1]));
            }
            if i == 0 {
                assert(height(cs_l[0]) == h);
            } else {
                assert(height(cs_l[0]) == height(cs[0]));
            }
        }
        // right keys: the suffix beyond the promoted key, all at or above pk
        assert(sorted(keys_r)) by {
            assert(forall|j: int| 0 <= j < keys_r.len() ==> keys_r[j] == #[trigger] keys[sp + 1 + j]);
        }
        assert forall|j: int| 0 <= j < keys_r.len() implies in_range(
            Some(pk),
            hi,
            #[trigger] keys_r[j],
        ) by {
            assert(keys_r[j] == keys[sp + 1 + j]);
            assert(keys[sp] < keys[sp + 1 + j]);
        }
        assert forall|j: int| 0 <= j < cs_r.len() implies wf(
            #[trigger] cs_r[j],
            sp,
            mkc,
            false,
            child_lo(keys_r, Some(pk), j),
            child_hi(keys_r, hi, j),
        ) by {
            assert(cs_r[j] == cs[sp + 1 + j]);
            assert(child_lo(keys_r, Some(pk), j) == child_lo(keys, lo, sp + 1 + j));
            assert(child_hi(keys_r, hi, j) == child_hi(keys, hi, sp + 1 + j));
        }
        assert forall|j: int| 0 <= j < cs_r.len() implies height(#[trigger] cs_r[j]) == height(
            cs_r[0],
        ) by {
            assert(cs_r[j] == cs[sp + 1 + j]);
            assert(cs_r[0] == cs[sp + 1]);
        }
        assert(height(BTNode::Internal(node1)) == height(BTNode::Internal(node0)));
        assert(height(BTNode::Internal(node2)) == height(BTNode::Internal(node0))) by {
            assert(height(cs_r[0]) == height(cs[sp + 1]));
            assert(height(cs[sp + 1]) == height(cs[0]));
        }
        assert(wf(BTNode::Internal(node1), sp, mkc, false, lo, Some(pk)));
        assert(wf(BTNode::Internal(node2), sp, mkc, false, Some(pk), hi));
    }
}

/// The high half of the split argument: the separator and new child land in
/// the right node.
#[verifier::rlimit(100)]
proof fn lemma_internal_split_high(
    node0: Internal,
    node1: Internal,
    node2: Internal,
    c1: BTNode,
    sk: u128,
    nn: BTNode,
    key: u128,
    value: u128,
    i: int,
    sp: int,
    mkc: int,
    root: bool,
    lo: Option<u128>,
    hi: Option<u128>,
)
    requires
        params_ok(sp, mkc),
        wf(BTNode::Internal(node0), sp, mkc, root, lo, hi),
        0 <= i <= node0.keys@.len(),
        forall|j: int| 0 <= j < i ==> #[trigger] node0.keys@[j] <= key,
        forall|j: int| i <= j < node0.keys@.len() ==> #[trigger] node0.keys@[j] > key,
        mkc <= node0.keys@.len(),
        node1.page_nr == node0.page_nr,
        kvs(c1) + kvs(nn) == kvs_insert(kvs(node0.children@[i]), key, value),
        wf(c1, sp, mkc, false, child_lo(node0.keys@, lo, i), Some(sk)),
        wf(nn, sp, mkc, false, Some(sk), child_hi(node0.keys@, hi, i)),
        in_range(child_lo(node0.keys@, lo, i), child_hi(node0.keys@, hi, i), sk),
        lo_strict(child_lo(node0.keys@, lo, i), sk),
        height(c1) == height(node0.children@[i]),
        height(nn) == height(node0.children@[i]),
        i > sp,
        node1.keys@ == node0.keys@.take(sp),
        node1.children@ == node0.children@.update(i, c1).take(sp + 1),
        node2.keys@ == node0.keys@.skip(sp + 1).insert(i - sp - 1, sk),
        node2.children@ == node0.children@.update(i, c1).skip(sp + 1).insert(i - sp, nn),
    ensures
        split_post(
            BTNode::Internal(node0),
            BTNode::Internal(node1),
            node0.keys@[sp],
            BTNode::Internal(node2),
            key,
            value,
            sp,
            mkc,
            lo,
            hi,
        ),
{
    let keys = node0.keys@;
    let cs = node0.children@;
    let cs1 = cs.update(i, c1);
    let pk = keys[sp];
    lemma_route_localize(node0, key, value, i, sp, mkc, root, lo, hi);
    let a = kvs_children(cs.take(i));
    let m = kvs(cs[i]);
    let c = kvs_children(cs.skip(i + 1));
    // the promoted key bounds the two windows and sits in the old one
    assert(in_range(lo, hi, pk));
    assert(keys[0] < pk);
    assert(lo_strict(lo, pk));
    {
        let keys_l = node1.keys@;
        let cs_l = node1.children@;
        let keys_r = node2.keys@;
        let cs_r = node2.children@;
        // content of the left node: untouched prefix
        assert(cs_l =~= cs.take(sp + 1));
        // content of the right node: suffix with the split child expanded
        assert(cs_r =~= cs.subrange(sp + 1, i) + seq![c1, nn] + cs.skip(i + 1));
        lemma_kvs_children_add(cs.subrange(sp + 1, i) + seq![c1, nn], cs.skip(i + 1));
        lemma_kvs_children_add(cs.subrange(sp + 1, i), seq![c1, nn]);
        assert(kvs_children(seq![c1, nn]) == kvs(c1) + kvs(nn)) by {
            assert(seq![c1, nn].drop_first() =~= seq![nn]);
            assert(seq![nn].drop_first() =~= Seq::<BTNode>::empty());
            assert(kvs_children(seq![nn].drop_first()) =~= Seq::<(u128, u128)>::empty());
            assert(kvs_children(seq![nn]) =~= kvs(nn));
            assert(kvs_children(seq![c1, nn]) =~= kvs(c1) + kvs_children(seq![nn]));
        }
        assert(cs.take(i) =~= cs.take(sp + 1) + cs.subrange(sp + 1, i));
        lemma_kvs_children_add(cs.take(sp + 1), cs.subrange(sp + 1, i));
        assert(kvs_children(cs_l) + kvs_children(cs_r) =~= a + (kvs(c1) + kvs(nn)) + c);
        assert(kvs(BTNode::Internal(node1)) + kvs(BTNode::Internal(node2)) == kvs_insert(
            kvs(BTNode::Internal(node0)),
            key,
            value,
        ));
        // left node: an untouched prefix of the key array
        assert(sorted(keys_l));
        assert forall|j: int| 0 <= j < keys_l.len() implies in_range(
            lo,
            Some(pk),
            #[trigger] keys_l[j],
        ) by {
            assert(keys_l[j] == keys[j]);
            assert(keys[j] < keys[sp]);
        }
        assert forall|j: int| 0 <= j < cs_l.len() implies wf(
            #[trigger] cs_l[j],
            sp,
            mkc,
            false,
            child_lo(keys_l, lo, j),
            child_hi(keys_l, Some(pk), j),
        ) by {
            assert(cs_l[j] == cs[j]);
            assert(child_lo(keys_l, lo, j) == child_lo(keys, lo, j));
            assert(child_hi(keys_l, Some(pk), j) == child_hi(keys, hi, j)) by {
                if j == sp {
                    assert(child_hi(keys_l, Some(pk), sp) == Some(pk));
                    assert(child_hi(keys, hi, sp) == Some(keys[sp]));
                }
            }
        }
        assert forall|j: int| 0 <= j < cs_l.len() implies height(#[trigger] cs_l[j]) == height(
            cs_l[0],
        ) by {
            assert(cs_l[j] == cs[j]);
            assert(cs_l[0] == cs[0]);
        }
        // the right node is handled in its own lemma
        lemma_internal_split_high_right(
            node0,
            node2,
            c1,
            sk,
            nn,
            key,
            i,
            sp,
            mkc,
            lo,
            hi,
        );
        assert(height(BTNode::Internal(node1)) == height(BTNode::Internal(node0)));
        assert(wf(BTNode::Internal(node1), sp, mkc, false, lo, Some(pk)));
    }
}

/// The right node of the high-half split: the key suffix beyond the
/// promoted key with the separator slotted in, over the upper window.
#[verifier::rlimit(100)]
proof fn lemma_internal_split_high_right(
    node0: Internal,
    node2: Internal,
    c1: BTNode,
    sk: u128,
    nn: BTNode,
    key: u128,
    i: int,
    sp: int,
    mkc: int,
    lo: Option<u128>,
    hi: Option<u128>,
)
    requires
        params_ok(sp, mkc),
        wf(BTNode::Internal(node0), sp, mkc, true, lo, hi) || wf(
            BTNode::Internal(node0),
            sp,
            mkc,
            false,
            lo,
            hi,
        ),
        0 <= i <= node0.keys@.len(),
        forall|j: int| 0 <= j < i ==> #[trigger] node0.keys@[j] <= key,
        forall|j: int| i <= j < node0.keys@.len() ==> #[trigger] node0.keys@[j] > key,
        mkc <= node0.keys@.len(),
        wf(c1, sp, mkc, false, child_lo(node0.keys@, lo, i), Some(sk)),
        wf(nn, sp, mkc, false, Some(sk), child_hi(node0.keys@, hi, i)),
        in_range(child_lo(node0.keys@, lo, i), child_hi(node0.keys@, hi, i), sk),
        lo_strict(child_lo(node0.keys@, lo, i), sk),
        height(c1) == height(node0.children@[i]),
        height(nn) == height(node0.children@[i]),
        i > sp,
        node2.keys@ == node0.keys@.skip(sp + 1).insert(i - sp - 1, sk),
        node2.children@ == node0.children@.update(i, c1).skip(sp + 1).insert(i - sp, nn),
    ensures
        wf(BTNode::Internal(node2), sp, mkc, false, Some(node0.keys@[sp]), hi),
        height(BTNode::Internal(node2)) == height(BTNode::Internal(node0)),
{
    let keys = node0.keys@;
    let cs = node0.children@;
    let pk = keys[sp];
    let keys_r = node2.keys@;
    let cs_r = node2.children@;
    assert(cs_r =~= cs.subrange(sp + 1, i) + seq![c1, nn] + cs.skip(i + 1));
        // right node: the suffix with the separator slotted in
        let rbase = keys.skip(sp + 1);
        let ri = i - sp - 1;
        assert(keys_r == rbase.insert(ri, sk));
        assert(forall|j: int| 0 <= j < rbase.len() ==> rbase[j] == #[trigger] keys[sp + 1 + j]);
        assert(sorted(keys_r)) by {
            assert forall|x: int, y: int| 0 <= x < y < keys_r.len() implies keys_r[x]
                < keys_r[y] by {
                if y < ri {
                    assert(keys_r[x] == keys[sp + 1 + x] && keys_r[y] == keys[sp + 1 + y]);
                } else if y == ri {
                    assert(keys_r[x] == keys[sp + 1 + x]);
                    assert(lo_strict(child_lo(keys, lo, i), sk));
                    if sp + 1 + x < i - 1 {
                        assert(keys[sp + 1 + x] < keys[i - 1]);
                    }
                } else if x < ri {
                    assert(keys_r[x] == keys[sp + 1 + x] && keys_r[y] == keys[sp + y]);
                    assert(keys[sp + 1 + x] < keys[i - 1] || sp + 1 + x == i - 1);
                    assert(keys[i - 1] < sk);
                    assert(sk < keys[i] || i == keys.len());
                    assert(keys[i] <= keys[sp + y] || i == keys.len());
                } else if x == ri {
                    assert(keys_r[y] == keys[sp + y]);
                    assert(hi_ok(child_hi(keys, hi, i), sk));
                    if sp + y > i {
                        assert(keys[i] < keys[sp + y]);
                    }
                } else {
                    assert(keys_r[x] == keys[sp + x] && keys_r[y] == keys[sp + y]);
                }
            }
        }
        assert forall|j: int| 0 <= j < keys_r.len() implies in_range(
            Some(pk),
            hi,
            #[trigger] keys_r[j],
        ) by {
            if j < ri {
                assert(keys_r[j] == keys[sp + 1 + j]);
                assert(keys[sp] < keys[sp + 1 + j]);
            } else if j == ri {
                assert(keys_r[j] == sk);
                assert(lo_strict(child_lo(keys, lo, i), sk));
                assert(keys[sp] <= keys[i - 1]);
                assert(hi_ok(child_hi(keys, hi, i), sk));
                if i < keys.len() {
                    assert(hi_ok(hi, keys[i]));
                }
            } else {
                assert(keys_r[j] == keys[sp + j]);
                assert(keys[sp] < keys[sp + j]);
            }
        }
        assert forall|j: int| 0 <= j < cs_r.len() implies wf(
            #[trigger] cs_r[j],
            sp,
            mkc,
            false,
            child_lo(keys_r, Some(pk), j),
            child_hi(keys_r, hi, j),
        ) by {
            if j < ri {
                assert(cs_r[j] == cs[sp + 1 + j]);
                assert(child_lo(keys_r, Some(pk), j) == child_lo(keys, lo, sp + 1 + j));
                assert(child_hi(keys_r, hi, j) == child_hi(keys, hi, sp + 1 + j));
            } else if j == ri {
                assert(cs_r[j] == c1);
                assert(child_lo(keys_r, Some(pk), j) == child_lo(keys, lo, i)) by {
                    if ri == 0 {
                        assert(child_lo(keys_r, Some(pk), 0) == Some(pk));
                        assert(i == sp + 1);
                        assert(child_lo(keys, lo, i) == Some(keys[sp]));
                    }
                }
                assert(child_hi(keys_r, hi, j) == Some(sk));
            } else if j == ri + 1 {
                assert(cs_r[j] == nn);
                assert(child_lo(keys_r, Some(pk), j) == Some(sk));
                assert(child_hi(keys_r, hi, j) == child_hi(keys, hi, i));
            } else {
                assert(cs_r[j] == cs[sp + j]);
                assert(child_lo(keys_r, Some(pk), j) == child_lo(keys, lo, sp + j));
                assert(child_hi(keys_r, hi, j) == child_hi(keys, hi, sp + j));
            }
        }
        assert forall|j: int| 0 <= j < cs_r.len() implies height(#[trigger] cs_r[j]) == height(
            cs_r[0],
        ) by {
            let h = height(cs[i]);
            if j < ri {
                assert(cs_r[j] == cs[sp + 1 + j]);
            } else if j <= ri + 1 {
                assert(height(cs_r[j]) == h);
            } else {
                assert(cs_r[j] == cs[sp + j]);
            }
            if ri == 0 {
                assert(height(cs_r[0]) == h);
            } else {
                assert(cs_r[0] == cs[sp + 1]);
            }
        }
        assert(height(BTNode::Internal(node0)) == 1 + height(cs[0]));
        assert(height(BTNode::Internal(node2)) == height(BTNode::Internal(node0))) by {
            let h = height(cs[i]);
            if i - sp - 1 == 0 {
                assert(height(cs_r[0]) == h);
                assert(height(cs[i]) == height(cs[0]));
            } else {
                assert(cs_r[0] == cs[sp + 1]);
                assert(height(cs[sp + 1]) == height(cs[0]));
            }
        }
        assert(wf(BTNode::Internal(node2), sp, mkc, false, Some(pk), hi));
}


/// Upsert into a leaf.  If the leaf is full and the key is new, the leaf
/// splits: the upper half moves to a freshly allocated page that takes over
/// this leaf's successor link.
pub(crate) fn leaf_set(
    l: Leaf,
    key: u128,
    value: u128,
    pager: &mut Pager,
    mkc: u64,
    sp: u64,
    lo: Ghost<Option<u128>>,
    hi: Ghost<Option<u128>>,
) -> (r: (Leaf, SetOutcome))
    requires
        params_ok(sp as int, mkc as int),
        wf(BTNode::Leaf(l), sp as int, mkc as int, true, lo@, hi@),
        in_range(lo@, hi@, key),
    ensures
        r.1.prev == kv_lookup(leaf_kvs(l), key),
        r.1.prev is Some <==> kv_contains(leaf_kvs(l), key),
        r.1.prev is Some ==> r.1.split is None && r.0.keys@ == l.keys@,
        l.keys@.len() < mkc ==> r.1.split is None,
        r.1.split is Some ==> l.keys@.len() == mkc,
        r.1.split is None ==> *final(pager) == *old(pager),
        final(pager).node_count >= old(pager).node_count,
        final(pager).free_pages@.len() <= old(pager).free_pages@.len(),
        match r.1.split {
            None => leaf_set_flat_post(l, r.0, key, value, sp as int, mkc as int, lo@, hi@),
            Some((sk, nn)) => {
                &&& split_post(
                    BTNode::Leaf(l),
                    BTNode::Leaf(r.0),
                    sk,
                    nn,
                    key,
                    value,
                    sp as int,
                    mkc as int,
                    lo@,
                    hi@,
                )
                &&& r.0.next == Some(nn->Leaf_0.page_nr)
                &&& nn->Leaf_0.next == l.next
                &&& sk == l.keys@[sp as int]
                &&& r.0.keys@.len() == sp + (if route(l.keys@, key) <= sp {
                    1int
                } else {
                    0int
                })
                &&& (route(l.keys@, key) <= sp ==> r.0.keys@ == l.keys@.take(sp as int).insert(
                    route(l.keys@, key),
                    key,
                ) && r.0.entries@ == l.entries@.take(sp as int).insert(route(l.keys@, key), value)
                    && nn->Leaf_0.keys@ == l.keys@.skip(sp as int) && nn->Leaf_0.entries@
                    == l.entries@.skip(sp as int))
                &&& (route(l.keys@, key) > sp ==> r.0.keys@ == l.keys@.take(sp as int)
                    && r.0.entries@ == l.entries@.take(sp as int) && nn->Leaf_0.keys@
                    == l.keys@.skip(sp as int).insert(route(l.keys@, key) - sp, key)
                    && nn->Leaf_0.entries@ == l.entries@.skip(sp as int).insert(
                    route(l.keys@, key) - sp,
                    value,
                ))
                &&& Pager::one_alloc(*old(pager), *final(pager), nn->Leaf_0.page_nr)
            },
        },
{
    let mut l = l;
    let ghost l0 = l;
    let ghost s = leaf_kvs(l);
    let i = find_route(&l.keys, key);
    if i > 0 && l.keys[i - 1] == key {
        // exact match: overwrite and hand back the original value
        let prev = l.entries[i - 1];
        l.entries[i - 1] = value;
        proof {
            assert forall|j: int| 0 <= j < i - 1 implies (#[trigger] s[j]).0 < key by {
                assert(l0.keys@[j] < l0.keys@[i - 1]);
            }
            lemma_kvs_insert_overwrite(s, key, value, i - 1);
            lemma_kv_lookup_at(s, key, i - 1);
            assert(leaf_kvs(l) =~= s.update(i - 1, (key, value)));
            assert(s[i - 1].0 == key && kv_contains(s, key));
        }
        (l, SetOutcome { split: None, prev: Some(prev) })
    } else {
        proof {
            assert forall|j: int| 0 <= j < i implies #[trigger] l0.keys@[j] < key by {
                if j < i - 1 {
                    assert(l0.keys@[j] < l0.keys@[i - 1]);
                }
            }
            assert forall|j: int| 0 <= j < s.len() implies (#[trigger] s[j]).0 != key by {
                assert(s[j].0 == l0.keys@[j]);
            }
            lemma_kv_lookup_absent(s, key);
            assert(!kv_contains(s, key)) by {
                if kv_contains(s, key) {
                    let u = choose|t: int| 0 <= t < s.len() && (#[trigger] s[t]).0 == key;
                }
            }
        }
        if l.keys.len() < mkc as usize {
            // room left: insert at the routing position
            l.keys.insert(i, key);
            l.entries.insert(i, value);
            proof {
                lemma_kvs_insert_at(s, key, value, i as int);
                assert(leaf_kvs(l) =~= s.take(i as int) + seq![(key, value)] + s.skip(i as int));
                assert(sorted(l.keys@));
            }
            (l, SetOutcome { split: None, prev: None })
        } else {
            // full: split off the upper half to a fresh page
            let new_page = pager.alloc_page();
            let sp_us = sp as usize;
            let right_keys = l.keys.split_off(sp_us);
            let right_entries = l.entries.split_off(sp_us);
            let split_key = right_keys[0];
            let mut right = Leaf {
                page_nr: new_page,
                keys: right_keys,
                entries: right_entries,
                next: l.next,
            };
            l.next = Some(new_page);
            if i <= sp_us {
                l.keys.insert(i, key);
                l.entries.insert(i, value);
            } else {
                right.keys.insert(i - sp_us, key);
                right.entries.insert(i - sp_us, value);
            }
            proof {
                lemma_leaf_split(
                    l0,
                    l,
                    right,
                    key,
                    value,
                    i as int,
                    sp as int,
                    mkc as int,
                    lo@,
                    hi@,
                );
                assert(split_key == l0.keys@[sp as int]);
                assert(i == route(l0.keys@, key));
            }
            (l, SetOutcome { split: Some((split_key, BTNode::Leaf(right))), prev: None })
        }
    }
}

/// Upsert into a subtree by recursive descent.  A split below is absorbed
/// by inserting the separator and new child here; when this node is full
/// too, it splits in turn, promoting its middle key to the caller.
#[verifier::rlimit(60)]
pub(crate) fn node_set(
    n: BTNode,
    key: u128,
    value: u128,
    pager: &mut Pager,
    mkc: u64,
    sp: u64,
    root: Ghost<bool>,
    lo: Ghost<Option<u128>>,
    hi: Ghost<Option<u128>>,
) -> (r: (BTNode, SetOutcome))
    requires
        params_ok(sp as int, mkc as int),
        wf(n, sp as int, mkc as int, root@, lo@, hi@),
        in_range(lo@, hi@, key),
    ensures
        r.1.prev == kv_lookup(kvs(n), key),
        r.1.prev is Some ==> r.1.split is None && *final(pager) == *old(pager)
            && r.0.spec_keys() == n.spec_keys(),
        final(pager).node_count >= old(pager).node_count,
        final(pager).free_pages@.len() <= old(pager).free_pages@.len(),
        r.1.split is None ==> match (n, r.0) {
            (BTNode::Internal(n0), BTNode::Internal(n1)) => (n1.keys@ == n0.keys@
                && crate::codec::child_pages(n1.children@) == crate::codec::child_pages(
                n0.children@,
            )) || (exists|sk2: u128, np: u64| #[trigger] absorbed_layout(n0, n1, key, sk2, np)),
            (BTNode::Leaf(_), BTNode::Leaf(_)) => true,
            _ => false,
        },
        r.1.split is Some ==> n.spec_len() >= mkc && r.0.spec_len() == sp + (
        if route(n.spec_keys(), key) <= sp {
            1int
        } else {
            0int
        }) && (match r.1.split {
            Some((sk2, _)) => sk2 == n.spec_keys()[sp as int],
            None => false,
        }),
        match r.1.split {
            None => {
                &&& kvs(r.0) == kvs_insert(kvs(n), key, value)
                &&& wf(r.0, sp as int, mkc as int, root@, lo@, hi@)
                &&& r.0.spec_page_nr() == n.spec_page_nr()
                &&& height(r.0) == height(n)
                &&& (r.0 is Leaf <==> n is Leaf)
            },
            Some((sk, nn)) => split_post(
                n,
                r.0,
                sk,
                nn,
                key,
                value,
                sp as int,
                mkc as int,
                lo@,
                hi@,
            ),
        },
    decreases n,
{
    match n {
        BTNode::Leaf(l) => {
            let ghost l0 = l;
            let (l2, out) = leaf_set(l, key, value, pager, mkc, sp, lo, hi);
            proof {
                if out.split is None {
                    assert(wf(BTNode::Leaf(l2), sp as int, mkc as int, root@, lo@, hi@));
                }
            }
            (BTNode::Leaf(l2), out)
        },
        BTNode::Internal(node) => {
            let mut node = node;
            let ghost node0 = node;
            let ghost keys0 = node.keys@;
            let ghost cs = node.children@;
            let i = find_route(&node.keys, key);
            let child = node.children.remove(i);
            let ghost clo = crate::model::child_lo(keys0, lo@, i as int);
            let ghost chi = crate::model::child_hi(keys0, hi@, i as int);
            proof {
                assert(child == cs[i as int]);
                assert(wf(child, sp as int, mkc as int, false, clo, chi));
                assert(in_range(clo, chi, key)) by {
                    if i > 0 {
                        assert(keys0[i as int - 1] <= key);
                    }
                    if (i as int) < keys0.len() {
                        assert(keys0[i as int] > key);
                    }
                }
            }
            let (child2, cout) = node_set(
                child,
                key,
                value,
                pager,
                mkc,
                sp,
                Ghost(false),
                Ghost(clo),
                Ghost(chi),
            );
            node.children.insert(i, child2);
            proof {
                assert(node.children@ =~= cs.update(i as int, child2));
                assert(kv_lookup(kvs(n), key) == kv_lookup(kvs(cs[i as int]), key)) by {
                    lemma_route_localize(
                        node0,
                        key,
                        value,
                        i as int,
                        sp as int,
                        mkc as int,
                        root@,
                        lo@,
                        hi@,
                    );
                }
            }
            match cout.split {
                None => {
                    proof {
                        lemma_internal_update_child(
                            node0,
                            node,
                            child2,
                            key,
                            value,
                            i as int,
                            sp as int,
                            mkc as int,
                            root@,
                            lo@,
                            hi@,
                        );
                        assert(crate::codec::child_pages(node.children@) =~= crate::codec::child_pages(
                            cs,
                        ));
                    }
                    (BTNode::Internal(node), SetOutcome { split: None, prev: cout.prev })
                },
                Some((sk, nn)) => {
                    if node.keys.len() < mkc as usize {
                        node.keys.insert(i, sk);
                        node.children.insert(i + 1, nn);
                        proof {
                            assert(node.keys@ =~= keys0.insert(i as int, sk));
                            assert(node.children@ =~= cs.update(i as int, child2).insert(
                                i as int + 1,
                                nn,
                            ));
                            lemma_internal_insert_child(
                                node0,
                                node,
                                child2,
                                sk,
                                nn,
                                key,
                                value,
                                i as int,
                                sp as int,
                                mkc as int,
                                root@,
                                lo@,
                                hi@,
                            );
                            assert(crate::codec::child_pages(node.children@)
                                =~= crate::codec::child_pages(cs).insert(
                                i as int + 1,
                                nn.spec_page_nr(),
                            ));
                            assert(absorbed_layout(node0, node, key, sk, nn.spec_page_nr()));
                        }
                        (BTNode::Internal(node), SetOutcome { split: None, prev: cout.prev })
                    } else {
                        let new_page = pager.alloc_page();
                        let sp_us = sp as usize;
                        let right_keys = node.keys.split_off(sp_us + 1);
                        let promoted = match node.keys.pop() {
                            Some(k) => k,
                            None => unreached(),
                        };
                        let right_children = node.children.split_off(sp_us + 1);
                        let mut right = Internal {
                            page_nr: new_page,
                            keys: right_keys,
                            children: right_children,
                        };
                        proof {
                            assert(node.keys@ =~= keys0.take(sp as int));
                            assert(right.keys@ =~= keys0.skip(sp as int + 1));
                            assert(node.children@ =~= cs.update(i as int, child2).take(
                                sp as int + 1,
                            ));
                            assert(right.children@ =~= cs.update(i as int, child2).skip(
                                sp as int + 1,
                            ));
                        }
                        if i <= sp_us {
                            node.keys.insert(i, sk);
                            node.children.insert(i + 1, nn);
                            proof {
                                assert(node.keys@ =~= keys0.take(sp as int).insert(i as int, sk));
                                assert(node.children@ =~= cs.update(i as int, child2).take(
                                    sp as int + 1,
                                ).insert(i as int + 1, nn));
                            }
                        } else {
                            right.keys.insert(i - sp_us - 1, sk);
                            right.children.insert(i - sp_us, nn);
                            proof {
                                assert(right.keys@ =~= keys0.skip(sp as int + 1).insert(
                                    i as int - sp as int - 1,
                                    sk,
                                ));
                                assert(right.children@ =~= cs.update(i as int, child2).skip(
                                    sp as int + 1,
                                ).insert(i as int - sp as int, nn));
                            }
                        }
                        proof {
                            lemma_internal_split(
                                node0,
                                node,
                                right,
                                child2,
                                sk,
                                nn,
                                key,
                                value,
                                i as int,
                                sp as int,
                                mkc as int,
                                root@,
                                lo@,
                                hi@,
                            );
                            if i <= sp_us {
                                assert(node.keys@.len() == sp + 1);
                                assert(right.keys@.len() == keys0.len() - sp - 1);
                            } else {
                                assert(node.keys@.len() == sp as int);
                                assert(right.keys@.len() == keys0.len() - sp);
                            }
                        }
                        (
                            BTNode::Internal(node),
                            SetOutcome {
                                split: Some((promoted, BTNode::Internal(right))),
                                prev: cout.prev,
                            },
                        )
                    }
                },
            }
        },
    }
}

} // verus!
