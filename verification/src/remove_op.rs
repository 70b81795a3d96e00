//! Deletion: removal from a leaf, with underflow repaired by the parent
//! through sibling transfers or merges, propagating upward.

use vstd::prelude::*;

use crate::lemmas::{
    lemma_kv_lookup_absent, lemma_kv_lookup_at, lemma_kvs_children_add, lemma_kvs_children_split,
    lemma_kvs_remove_absent, lemma_kvs_remove_at,
};
use crate::model::{
    child_hi, child_lo, height, hi_ok, in_range, internal_min, kv_lookup, kvs, kvs_children,
    kvs_remove, leaf_kvs, leaf_min, lo_ok, lo_strict, params_ok, sorted, spec_split_at, wf, wf_loose,
};
use crate::node::{find_route, BTNode, Internal, Leaf};
use crate::pager::Pager;

verus! {

/// Remove a key from a leaf; the parent repairs any underflow.
pub(crate) fn leaf_remove(
    l: Leaf,
    key: u128,
    mkc: u64,
    sp: u64,
    lo: Ghost<Option<u128>>,
    hi: Ghost<Option<u128>>,
) -> (r: (Leaf, Option<u128>))
    requires
        params_ok(sp as int, mkc as int),
        wf(BTNode::Leaf(l), sp as int, mkc as int, true, lo@, hi@),
    ensures
        r.1 == kv_lookup(leaf_kvs(l), key),
        leaf_kvs(r.0) == kvs_remove(leaf_kvs(l), key),
        r.1 is None ==> r.0 == l,
        r.1 is Some ==> r.0.keys@.len() + 1 == l.keys@.len(),
        r.0.next == l.next,
        r.0.page_nr == l.page_nr,
        wf(BTNode::Leaf(r.0), sp as int, mkc as int, true, lo@, hi@),
{
    let mut l = l;
    let ghost l0 = l;
    let ghost s = leaf_kvs(l);
    let i = find_route(&l.keys, key);
    if i > 0 && l.keys[i - 1] == key {
        l.keys.remove(i - 1);
        let prev = l.entries.remove(i - 1);
        proof {
            assert forall|j: int| 0 <= j < i - 1 implies (#[trigger] s[j]).0 != key by {
                assert(l0.keys@[j] < l0.keys@[i - 1]);
            }
            lemma_kvs_remove_at(s, key, i - 1);
            lemma_kv_lookup_at(s, key, i - 1);
            assert(leaf_kvs(l) =~= s.take(i - 1) + s.skip(i as int));
            assert(sorted(l.keys@));
        }
        (l, Some(prev))
    } else {
        proof {
            assert forall|j: int| 0 <= j < s.len() implies (#[trigger] s[j]).0 != key by {
                if j < i - 1 {
                    assert(l0.keys@[j] < l0.keys@[i - 1]);
                } else if j >= i {
                    assert(l0.keys@[j] > key);
                }
            }
            lemma_kvs_remove_absent(s, key);
            lemma_kv_lookup_absent(s, key);
        }
        (l, None)
    }
}

/// Rewriting two adjacent children without changing their combined content
/// leaves the node's content unchanged.
proof fn lemma_children_pair_update(cs: Seq<BTNode>, i: int, a: BTNode, b: BTNode)
    requires
        0 <= i,
        i + 1 < cs.len(),
        kvs(a) + kvs(b) == kvs(cs[i]) + kvs(cs[i + 1]),
    ensures
        kvs_children(cs.update(i, a).update(i + 1, b)) == kvs_children(cs),
{
    let cs1 = cs.update(i, a).update(i + 1, b);
    lemma_kvs_children_split(cs, i);
    lemma_kvs_children_split(cs.skip(i + 1), 0);
    assert(cs.skip(i + 1)[0] == cs[i + 1]);
    assert(cs.skip(i + 1).take(0) =~= Seq::<BTNode>::empty());
    assert(cs.skip(i + 1).skip(1) =~= cs.skip(i + 2));
    lemma_kvs_children_split(cs1, i);
    lemma_kvs_children_split(cs1.skip(i + 1), 0);
    assert(cs1.skip(i + 1)[0] == b);
    assert(cs1.skip(i + 1).take(0) =~= Seq::<BTNode>::empty());
    assert(cs1.skip(i + 1).skip(1) =~= cs.skip(i + 2));
    assert(cs1.take(i) =~= cs.take(i));
    assert(cs1[i] == a);
    let t = kvs_children(cs.take(i));
    let r = kvs_children(cs.skip(i + 2));
    assert(kvs_children(cs1.skip(i + 1)) =~= kvs(b) + r);
    assert(kvs_children(cs.skip(i + 1)) =~= kvs(cs[i + 1]) + r);
    assert(kvs_children(cs1) =~= t + (kvs(a) + kvs(b)) + r);
    assert(kvs_children(cs) =~= t + (kvs(cs[i]) + kvs(cs[i + 1])) + r);
    assert(kvs_children(cs1) == kvs_children(cs));
}

/// Absorbing the right neighbour into a child — the combined content in one
/// slot, the neighbour's slot gone — leaves the node's content unchanged.
proof fn lemma_children_absorb(cs: Seq<BTNode>, i: int, a: BTNode)
    requires
        0 <= i,
        i + 1 < cs.len(),
        kvs(a) == kvs(cs[i]) + kvs(cs[i + 1]),
    ensures
        kvs_children(cs.update(i, a).remove(i + 1)) == kvs_children(cs),
{
    let cs1 = cs.update(i, a).remove(i + 1);
    lemma_kvs_children_split(cs, i);
    lemma_kvs_children_split(cs.skip(i + 1), 0);
    assert(cs.skip(i + 1)[0] == cs[i + 1]);
    assert(cs.skip(i + 1).take(0) =~= Seq::<BTNode>::empty());
    assert(cs.skip(i + 1).skip(1) =~= cs.skip(i + 2));
    lemma_kvs_children_split(cs1, i);
    assert(cs1.take(i) =~= cs.take(i));
    assert(cs1[i] == a);
    assert(cs1.skip(i + 1) =~= cs.skip(i + 2));
    let t = kvs_children(cs.take(i));
    let r = kvs_children(cs.skip(i + 2));
    assert(kvs_children(cs.skip(i + 1)) =~= kvs(cs[i + 1]) + r);
    assert(kvs_children(cs1) =~= t + (kvs(cs[i]) + kvs(cs[i + 1])) + r);
    assert(kvs_children(cs) =~= t + kvs(cs[i]) + (kvs(cs[i + 1]) + r));
    assert(kvs_children(cs1) =~= kvs_children(cs));
}

/// Borrowing the left leaf sibling's last pair restores the underfull leaf;
/// the borrowed key becomes the new separator.
proof fn lemma_leaf_transfer_left(
    a: Leaf,
    b: Leaf,
    a1: Leaf,
    b1: Leaf,
    sp: int,
    mkc: int,
    la: Option<u128>,
    s: u128,
    hb: Option<u128>,
)
    requires
        params_ok(sp, mkc),
        wf(BTNode::Leaf(a), sp, mkc, false, la, Some(s)),
        wf_loose(BTNode::Leaf(b), sp, mkc, false, Some(s), hb),
        hi_ok(hb, s),
        b.keys@.len() < sp,
        a.keys@.len() > sp,
        a1.keys@ == a.keys@.drop_last(),
        a1.entries@ == a.entries@.drop_last(),
        b1.keys@ == b.keys@.insert(0, a.keys@.last()),
        b1.entries@ == b.entries@.insert(0, a.entries@.last()),
    ensures
        kvs(BTNode::Leaf(a1)) + kvs(BTNode::Leaf(b1)) == kvs(BTNode::Leaf(a)) + kvs(
            BTNode::Leaf(b),
        ),
        wf(BTNode::Leaf(a1), sp, mkc, false, la, Some(a.keys@.last())),
        wf(BTNode::Leaf(b1), sp, mkc, false, Some(a.keys@.last()), hb),
        in_range(la, Some(s), a.keys@.last()),
        lo_strict(la, a.keys@.last()),
{
    let k = a.keys@.last();
    assert(leaf_kvs(a1) + leaf_kvs(b1) =~= leaf_kvs(a) + leaf_kvs(b));
    assert(in_range(la, Some(s), k));
    assert(k > a.keys@[0]);
    assert(lo_strict(la, k));
    assert(sorted(a1.keys@));
    assert(sorted(b1.keys@)) by {
        assert forall|x: int, y: int| 0 <= x < y < b1.keys@.len() implies b1.keys@[x]
            < b1.keys@[y] by {
            if x == 0 {
                assert(b1.keys@[y] == b.keys@[y - 1]);
                assert(b.keys@[y - 1] >= s);
            } else {
                assert(b1.keys@[x] == b.keys@[x - 1] && b1.keys@[y] == b.keys@[y - 1]);
            }
        }
    }
    assert forall|j: int| 0 <= j < a1.keys@.len() implies in_range(
        la,
        Some(k),
        #[trigger] a1.keys@[j],
    ) by {
        assert(a1.keys@[j] == a.keys@[j]);
        assert(a.keys@[j] < a.keys@[a.keys@.len() - 1]);
    }
    assert forall|j: int| 0 <= j < b1.keys@.len() implies in_range(
        Some(k),
        hb,
        #[trigger] b1.keys@[j],
    ) by {
        if j > 0 {
            assert(b1.keys@[j] == b.keys@[j - 1]);
            assert(b.keys@[j - 1] >= s);
            assert(k < s);
        }
    }
}

/// Borrowing the right leaf sibling's first pair restores the underfull
/// leaf; the sibling's new first key becomes the new separator.
proof fn lemma_leaf_transfer_right(
    b: Leaf,
    c: Leaf,
    b1: Leaf,
    c1: Leaf,
    sp: int,
    mkc: int,
    sb: Option<u128>,
    s: u128,
    hc: Option<u128>,
)
    requires
        params_ok(sp, mkc),
        wf_loose(BTNode::Leaf(b), sp, mkc, false, sb, Some(s)),
        wf(BTNode::Leaf(c), sp, mkc, false, Some(s), hc),
        lo_strict(sb, s),
        b.keys@.len() < sp,
        c.keys@.len() > sp,
        b1.keys@ == b.keys@.push(c.keys@[0]),
        b1.entries@ == b.entries@.push(c.entries@[0]),
        c1.keys@ == c.keys@.drop_first(),
        c1.entries@ == c.entries@.drop_first(),
    ensures
        kvs(BTNode::Leaf(b1)) + kvs(BTNode::Leaf(c1)) == kvs(BTNode::Leaf(b)) + kvs(
            BTNode::Leaf(c),
        ),
        wf(BTNode::Leaf(b1), sp, mkc, false, sb, Some(c.keys@[1])),
        wf(BTNode::Leaf(c1), sp, mkc, false, Some(c.keys@[1]), hc),
        hi_ok(hc, c.keys@[1]),
        lo_strict(Some(s), c.keys@[1]),
{
    let k = c.keys@[1];
    assert(leaf_kvs(b1) + leaf_kvs(c1) =~= leaf_kvs(b) + leaf_kvs(c));
    assert(c.keys@[0] < k);
    assert(s <= c.keys@[0]);
    assert(in_range(Some(s), hc, k));
    assert(sorted(b1.keys@)) by {
        assert forall|x: int, y: int| 0 <= x < y < b1.keys@.len() implies b1.keys@[x]
            < b1.keys@[y] by {
            if y == b1.keys@.len() - 1 {
                assert(b1.keys@[x] == b.keys@[x]);
                assert(b.keys@[x] < s);
            }
        }
    }
    assert(sorted(c1.keys@)) by {
        assert(forall|j: int| 0 <= j < c1.keys@.len() ==> c1.keys@[j] == #[trigger] c.keys@[j + 1]);
    }
    assert forall|j: int| 0 <= j < b1.keys@.len() implies in_range(
        sb,
        Some(k),
        #[trigger] b1.keys@[j],
    ) by {
        if j < b1.keys@.len() - 1 {
            assert(b1.keys@[j] == b.keys@[j]);
            assert(b.keys@[j] < s);
            assert(s <= c.keys@[0] && c.keys@[0] < k);
        } else {
            assert(b1.keys@[j] == c.keys@[0]);
            assert(s <= c.keys@[0]);
        }
    }
    assert forall|j: int| 0 <= j < c1.keys@.len() implies in_range(
        Some(k),
        hc,
        #[trigger] c1.keys@[j],
    ) by {
        assert(c1.keys@[j] == c.keys@[j + 1]);
        if j > 0 {
            assert(c.keys@[1] < c.keys@[j + 1]);
        }
    }
}

/// The lower bound of a leaf transfer toward the right: with the smallest
/// fan-out the underfull leaf may be empty, so its lower window bound comes
/// from the sibling side.
///
/// Rotating the left internal sibling's last child through the parent
/// restores the underfull internal node: the old separator drops in, the
/// sibling's last key goes up.
proof fn lemma_internal_transfer_left(
    a: Internal,
    b: Internal,
    a1: Internal,
    b1: Internal,
    sp: int,
    mkc: int,
    la: Option<u128>,
    s: u128,
    hb: Option<u128>,
)
    requires
        params_ok(sp, mkc),
        wf(BTNode::Internal(a), sp, mkc, false, la, Some(s)),
        wf_loose(BTNode::Internal(b), sp, mkc, false, Some(s), hb),
        height(BTNode::Internal(a)) == height(BTNode::Internal(b)),
        hi_ok(hb, s),
        b.keys@.len() < sp,
        a.keys@.len() > sp,
        a1.keys@ == a.keys@.drop_last(),
        a1.children@ == a.children@.drop_last(),
        b1.keys@ == b.keys@.insert(0, s),
        b1.children@ == b.children@.insert(0, a.children@.last()),
    ensures
        kvs(BTNode::Internal(a1)) + kvs(BTNode::Internal(b1)) == kvs(BTNode::Internal(a)) + kvs(
            BTNode::Internal(b),
        ),
        wf(BTNode::Internal(a1), sp, mkc, false, la, Some(a.keys@.last())),
        wf(BTNode::Internal(b1), sp, mkc, false, Some(a.keys@.last()), hb),
        in_range(la, Some(s), a.keys@.last()),
        lo_strict(la, a.keys@.last()),
        height(BTNode::Internal(a1)) == height(BTNode::Internal(a)),
        height(BTNode::Internal(b1)) == height(BTNode::Internal(b)),
{
    let k = a.keys@.last();
    let cl = a.children@.last();
    let an = a.keys@.len() as int;
    // content: the last child moves across
    lemma_kvs_children_split(a.children@, an);
    assert(a.children@.take(an) =~= a1.children@);
    assert(a.children@.skip(an + 1) =~= Seq::<BTNode>::empty());
    assert(kvs_children(a.children@) =~= kvs_children(a1.children@) + kvs(cl));
    lemma_kvs_children_split(b1.children@, 0);
    assert(b1.children@.take(0) =~= Seq::<BTNode>::empty());
    assert(b1.children@.skip(1) =~= b.children@);
    assert(b1.children@[0] == cl);
    assert(kvs_children(b1.children@) =~= kvs(cl) + kvs_children(b.children@));
    assert(kvs_children(a1.children@) + kvs_children(b1.children@) =~= kvs_children(a.children@)
        + kvs_children(b.children@));
    // the promoted key
    assert(in_range(la, Some(s), k));
    assert(k > a.keys@[0] || a.keys@.len() == 1);
    assert(lo_strict(la, k));
    // the left node sheds its last key and child
    assert(sorted(a1.keys@));
    assert forall|j: int| 0 <= j < a1.keys@.len() implies in_range(la, Some(k), #[trigger] a1.keys@[j])
        && lo_strict(la, a1.keys@[j]) by {
        assert(a1.keys@[j] == a.keys@[j]);
        assert(a.keys@[j] < a.keys@[an - 1]);
    }
    assert forall|j: int| 0 <= j < a1.children@.len() implies wf(
        #[trigger] a1.children@[j],
        sp,
        mkc,
        false,
        child_lo(a1.keys@, la, j),
        child_hi(a1.keys@, Some(k), j),
    ) by {
        assert(a1.children@[j] == a.children@[j]);
        assert(child_lo(a1.keys@, la, j) == child_lo(a.keys@, la, j));
        assert(child_hi(a1.keys@, Some(k), j) == child_hi(a.keys@, Some(s), j)) by {
            if j == a1.keys@.len() {
                assert(child_hi(a.keys@, Some(s), j) == Some(a.keys@[an - 1]));
            }
        }
    }
    assert forall|j: int| 0 <= j < a1.children@.len() implies height(#[trigger] a1.children@[j])
        == height(a1.children@[0]) by {
        assert(a1.children@[j] == a.children@[j]);
        assert(a1.children@[0] == a.children@[0]);
    }
    assert(height(BTNode::Internal(a1)) == height(BTNode::Internal(a)));
    // the right node gains the old separator and the moved child
    let h = height(BTNode::Internal(a)) - 1;
    assert(height(cl) == h) by {
        assert(height(a.children@[an]) == height(a.children@[0]));
    }
    assert(b.children@.len() > 0);
    assert(height(b.children@[0]) == h);
    assert(sorted(b1.keys@)) by {
        assert forall|x: int, y: int| 0 <= x < y < b1.keys@.len() implies b1.keys@[x]
            < b1.keys@[y] by {
            if x == 0 {
                assert(b1.keys@[y] == b.keys@[y - 1]);
                assert(lo_strict(Some(s), b.keys@[y - 1]));
            } else {
                assert(b1.keys@[x] == b.keys@[x - 1] && b1.keys@[y] == b.keys@[y - 1]);
            }
        }
    }
    assert forall|j: int| 0 <= j < b1.keys@.len() implies in_range(Some(k), hb, #[trigger] b1.keys@[j])
        && lo_strict(Some(k), b1.keys@[j]) by {
        if j == 0 {
            assert(b1.keys@[0] == s);
            assert(k < s);
        } else {
            assert(b1.keys@[j] == b.keys@[j - 1]);
            assert(lo_strict(Some(s), b.keys@[j - 1]));
            assert(k < s);
        }
    }
    assert forall|j: int| 0 <= j < b1.children@.len() implies wf(
        #[trigger] b1.children@[j],
        sp,
        mkc,
        false,
        child_lo(b1.keys@, Some(k), j),
        child_hi(b1.keys@, hb, j),
    ) by {
        if j == 0 {
            assert(b1.children@[0] == cl);
            assert(wf(cl, sp, mkc, false, child_lo(a.keys@, la, an), child_hi(a.keys@, Some(s), an)));
            assert(child_lo(a.keys@, la, an) == Some(k));
            assert(child_hi(a.keys@, Some(s), an) == Some(s));
            assert(child_lo(b1.keys@, Some(k), 0) == Some(k));
            assert(child_hi(b1.keys@, hb, 0) == Some(s));
        } else {
            assert(b1.children@[j] == b.children@[j - 1]);
            assert(child_lo(b1.keys@, Some(k), j) == child_lo(b.keys@, Some(s), j - 1));
            assert(child_hi(b1.keys@, hb, j) == child_hi(b.keys@, hb, j - 1));
        }
    }
    assert forall|j: int| 0 <= j < b1.children@.len() implies height(#[trigger] b1.children@[j])
        == height(b1.children@[0]) by {
        if j > 0 {
            assert(b1.children@[j] == b.children@[j - 1]);
            assert(height(b.children@[j - 1]) == height(b.children@[0]));
        }
    }
    assert(height(BTNode::Internal(b1)) == height(BTNode::Internal(b)));
}

/// Rotating the right internal sibling's first child through the parent
/// restores the underfull internal node: the old separator drops in, the
/// sibling's first key goes up.
proof fn lemma_internal_transfer_right(
    b: Internal,
    c: Internal,
    b1: Internal,
    c1: Internal,
    sp: int,
    mkc: int,
    sb: Option<u128>,
    s: u128,
    hc: Option<u128>,
)
    requires
        params_ok(sp, mkc),
        wf_loose(BTNode::Internal(b), sp, mkc, false, sb, Some(s)),
        wf(BTNode::Internal(c), sp, mkc, false, Some(s), hc),
        height(BTNode::Internal(b)) == height(BTNode::Internal(c)),
        lo_strict(sb, s),
        b.keys@.len() < sp,
        c.keys@.len() > sp,
        b1.keys@ == b.keys@.push(s),
        b1.children@ == b.children@.push(c.children@[0]),
        c1.keys@ == c.keys@.drop_first(),
        c1.children@ == c.children@.drop_first(),
    ensures
        kvs(BTNode::Internal(b1)) + kvs(BTNode::Internal(c1)) == kvs(BTNode::Internal(b)) + kvs(
            BTNode::Internal(c),
        ),
        wf(BTNode::Internal(b1), sp, mkc, false, sb, Some(c.keys@[0])),
        wf(BTNode::Internal(c1), sp, mkc, false, Some(c.keys@[0]), hc),
        hi_ok(hc, c.keys@[0]),
        lo_strict(Some(s), c.keys@[0]),
        height(BTNode::Internal(b1)) == height(BTNode::Internal(b)),
        height(BTNode::Internal(c1)) == height(BTNode::Internal(c)),
{
    let k = c.keys@[0];
    let cf = c.children@[0];
    // content: the first child moves across
    lemma_kvs_children_split(c.children@, 0);
    assert(c.children@.take(0) =~= Seq::<BTNode>::empty());
    assert(c.children@.skip(1) =~= c1.children@);
    assert(kvs_children(c.children@) =~= kvs(cf) + kvs_children(c1.children@));
    let bn = b.children@.len() as int;
    lemma_kvs_children_split(b1.children@, bn);
    assert(b1.children@.take(bn) =~= b.children@);
    assert(b1.children@.skip(bn + 1) =~= Seq::<BTNode>::empty());
    assert(b1.children@[bn] == cf);
    assert(kvs_children(b1.children@) =~= kvs_children(b.children@) + kvs(cf));
    assert(kvs_children(b1.children@) + kvs_children(c1.children@) =~= kvs_children(b.children@)
        + kvs_children(c.children@));
    // the promoted key
    assert(lo_strict(Some(s), k));
    assert(in_range(Some(s), hc, k));
    // the left node gains the old separator and the moved child
    assert(sorted(b1.keys@)) by {
        assert forall|x: int, y: int| 0 <= x < y < b1.keys@.len() implies b1.keys@[x]
            < b1.keys@[y] by {
            if y == b1.keys@.len() - 1 {
                assert(b1.keys@[x] == b.keys@[x]);
                assert(hi_ok(Some(s), b.keys@[x]));
            }
        }
    }
    assert forall|j: int| 0 <= j < b1.keys@.len() implies in_range(sb, Some(k), #[trigger] b1.keys@[j])
        && lo_strict(sb, b1.keys@[j]) by {
        if j < b1.keys@.len() - 1 {
            assert(b1.keys@[j] == b.keys@[j]);
            assert(b.keys@[j] < s);
            assert(s < k);
        } else {
            assert(b1.keys@[j] == s);
        }
    }
    let h = height(BTNode::Internal(c)) - 1;
    assert(height(cf) == h);
    assert(b.children@.len() > 0);
    assert(height(b.children@[0]) == h);
    assert forall|j: int| 0 <= j < b1.children@.len() implies wf(
        #[trigger] b1.children@[j],
        sp,
        mkc,
        false,
        child_lo(b1.keys@, sb, j),
        child_hi(b1.keys@, Some(k), j),
    ) by {
        if j < b1.children@.len() - 1 {
            assert(b1.children@[j] == b.children@[j]);
            assert(child_lo(b1.keys@, sb, j) == child_lo(b.keys@, sb, j));
            assert(child_hi(b1.keys@, Some(k), j) == child_hi(b.keys@, Some(s), j)) by {
                if j == b.keys@.len() {
                    assert(child_hi(b1.keys@, Some(k), j) == Some(b1.keys@[j]));
                    assert(b1.keys@[j] == s);
                }
            }
        } else {
            assert(b1.children@[j] == cf);
            assert(wf(cf, sp, mkc, false, child_lo(c.keys@, Some(s), 0), child_hi(c.keys@, hc, 0)));
            assert(child_lo(c.keys@, Some(s), 0) == Some(s));
            assert(child_hi(c.keys@, hc, 0) == Some(k));
            assert(child_lo(b1.keys@, sb, j) == Some(b1.keys@[j - 1]));
            assert(b1.keys@[j - 1] == s);
            assert(child_hi(b1.keys@, Some(k), j) == Some(k));
        }
    }
    assert forall|j: int| 0 <= j < b1.children@.len() implies height(#[trigger] b1.children@[j])
        == height(b1.children@[0]) by {
        if j < b1.children@.len() - 1 {
            assert(b1.children@[j] == b.children@[j]);
            assert(height(b.children@[j]) == height(b.children@[0]));
        }
        assert(b1.children@[0] == b.children@[0]);
    }
    assert(height(BTNode::Internal(b1)) == height(BTNode::Internal(b)));
    // the right node sheds its first key and child
    assert(sorted(c1.keys@)) by {
        assert(forall|j: int| 0 <= j < c1.keys@.len() ==> c1.keys@[j] == #[trigger] c.keys@[j + 1]);
    }
    assert forall|j: int| 0 <= j < c1.keys@.len() implies in_range(Some(k), hc, #[trigger] c1.keys@[j])
        && lo_strict(Some(k), c1.keys@[j]) by {
        assert(c1.keys@[j] == c.keys@[j + 1]);
        assert(c.keys@[0] < c.keys@[j + 1]);
    }
    assert forall|j: int| 0 <= j < c1.children@.len() implies wf(
        #[trigger] c1.children@[j],
        sp,
        mkc,
        false,
        child_lo(c1.keys@, Some(k), j),
        child_hi(c1.keys@, hc, j),
    ) by {
        assert(c1.children@[j] == c.children@[j + 1]);
        assert(child_lo(c1.keys@, Some(k), j) == child_lo(c.keys@, Some(s), j + 1));
        assert(child_hi(c1.keys@, hc, j) == child_hi(c.keys@, hc, j + 1));
    }
    assert forall|j: int| 0 <= j < c1.children@.len() implies height(#[trigger] c1.children@[j])
        == height(c1.children@[0]) by {
        assert(c1.children@[j] == c.children@[j + 1]);
        assert(c1.children@[0] == c.children@[1]);
    }
    assert(height(BTNode::Internal(c1)) == height(BTNode::Internal(c))) by {
        assert(c1.children@[0] == c.children@[1]);
        assert(height(c.children@[1]) == height(c.children@[0]));
    }
}

/// Merging two adjacent leaves concatenates their pairs; the combined leaf
/// spans both windows.
proof fn lemma_leaf_merge(
    a: Leaf,
    b: Leaf,
    m: Leaf,
    sp: int,
    mkc: int,
    la: Option<u128>,
    s: u128,
    hb: Option<u128>,
)
    requires
        params_ok(sp, mkc),
        wf_loose(BTNode::Leaf(a), sp, mkc, false, la, Some(s)),
        wf_loose(BTNode::Leaf(b), sp, mkc, false, Some(s), hb),
        lo_strict(la, s),
        hi_ok(hb, s),
        a.keys@.len() + b.keys@.len() <= mkc,
        leaf_min(sp, mkc) <= a.keys@.len() + b.keys@.len(),
        m.keys@ == a.keys@ + b.keys@,
        m.entries@ == a.entries@ + b.entries@,
    ensures
        kvs(BTNode::Leaf(m)) == kvs(BTNode::Leaf(a)) + kvs(BTNode::Leaf(b)),
        wf(BTNode::Leaf(m), sp, mkc, false, la, hb),
{
    assert(leaf_kvs(m) =~= leaf_kvs(a) + leaf_kvs(b));
    assert(sorted(m.keys@)) by {
        assert forall|x: int, y: int| 0 <= x < y < m.keys@.len() implies m.keys@[x]
            < m.keys@[y] by {
            let an = a.keys@.len() as int;
            if y < an {
                assert(m.keys@[x] == a.keys@[x] && m.keys@[y] == a.keys@[y]);
            } else if x >= an {
                assert(m.keys@[x] == b.keys@[x - an] && m.keys@[y] == b.keys@[y - an]);
            } else {
                assert(m.keys@[x] == a.keys@[x] && m.keys@[y] == b.keys@[y - an]);
                assert(a.keys@[x] < s);
                assert(b.keys@[y - an] >= s);
            }
        }
    }
    assert forall|j: int| 0 <= j < m.keys@.len() implies in_range(la, hb, #[trigger] m.keys@[j]) by {
        let an = a.keys@.len() as int;
        if j < an {
            assert(m.keys@[j] == a.keys@[j]);
            assert(in_range(la, Some(s), a.keys@[j]));
        } else {
            assert(m.keys@[j] == b.keys@[j - an]);
            assert(in_range(Some(s), hb, b.keys@[j - an]));
        }
    }
}

/// Merging two adjacent internal nodes pulls the separator down between
/// their key runs; the combined node spans both windows.
proof fn lemma_internal_merge(
    a: Internal,
    b: Internal,
    m: Internal,
    sp: int,
    mkc: int,
    la: Option<u128>,
    s: u128,
    hb: Option<u128>,
)
    requires
        params_ok(sp, mkc),
        wf_loose(BTNode::Internal(a), sp, mkc, false, la, Some(s)),
        wf_loose(BTNode::Internal(b), sp, mkc, false, Some(s), hb),
        height(BTNode::Internal(a)) == height(BTNode::Internal(b)),
        lo_strict(la, s),
        hi_ok(hb, s),
        a.keys@.len() + b.keys@.len() + 1 <= 2 * sp,
        m.keys@ == a.keys@ + seq![s] + b.keys@,
        m.children@ == a.children@ + b.children@,
    ensures
        kvs(BTNode::Internal(m)) == kvs(BTNode::Internal(a)) + kvs(BTNode::Internal(b)),
        wf(BTNode::Internal(m), sp, mkc, false, la, hb),
        height(BTNode::Internal(m)) == height(BTNode::Internal(a)),
{
    let an = a.keys@.len() as int;
    let acn = a.children@.len() as int;
    lemma_kvs_children_add(a.children@, b.children@);
    assert(sorted(m.keys@)) by {
        assert forall|x: int, y: int| 0 <= x < y < m.keys@.len() implies m.keys@[x]
            < m.keys@[y] by {
            let kx = m.keys@[x];
            let ky = m.keys@[y];
            if y < an {
                assert(kx == a.keys@[x] && ky == a.keys@[y]);
            } else if x >= an + 1 {
                assert(kx == b.keys@[x - an - 1] && ky == b.keys@[y - an - 1]);
            } else if x < an && y == an {
                assert(kx == a.keys@[x] && ky == s);
                assert(hi_ok(Some(s), a.keys@[x]));
            } else if x < an && y > an {
                assert(kx == a.keys@[x] && ky == b.keys@[y - an - 1]);
                assert(hi_ok(Some(s), a.keys@[x]));
                assert(lo_strict(Some(s), b.keys@[y - an - 1]));
            } else {
                assert(x == an && y > an);
                assert(kx == s && ky == b.keys@[y - an - 1]);
                assert(lo_strict(Some(s), b.keys@[y - an - 1]));
            }
        }
    }
    assert forall|j: int| 0 <= j < m.keys@.len() implies in_range(la, hb, #[trigger] m.keys@[j])
        && lo_strict(la, m.keys@[j]) by {
        if j < an {
            assert(m.keys@[j] == a.keys@[j]);
            assert(in_range(la, Some(s), a.keys@[j]) && lo_strict(la, a.keys@[j]));
        } else if j == an {
            assert(m.keys@[j] == s);
        } else {
            assert(m.keys@[j] == b.keys@[j - an - 1]);
            assert(in_range(Some(s), hb, b.keys@[j - an - 1]));
            assert(lo_strict(Some(s), b.keys@[j - an - 1]));
        }
    }
    assert forall|j: int| 0 <= j < m.children@.len() implies wf(
        #[trigger] m.children@[j],
        sp,
        mkc,
        false,
        child_lo(m.keys@, la, j),
        child_hi(m.keys@, hb, j),
    ) by {
        if j < acn {
            assert(m.children@[j] == a.children@[j]);
            assert(child_lo(m.keys@, la, j) == child_lo(a.keys@, la, j));
            assert(child_hi(m.keys@, hb, j) == child_hi(a.keys@, Some(s), j)) by {
                if j == an {
                    assert(child_hi(m.keys@, hb, j) == Some(m.keys@[an]));
                    assert(m.keys@[an] == s);
                } else {
                    assert(child_hi(m.keys@, hb, j) == Some(m.keys@[j]));
                    assert(m.keys@[j] == a.keys@[j]);
                }
            }
        } else {
            assert(m.children@[j] == b.children@[j - acn]);
            assert(child_lo(m.keys@, la, j) == child_lo(b.keys@, Some(s), j - acn)) by {
                if j == acn {
                    assert(child_lo(m.keys@, la, j) == Some(m.keys@[an]));
                    assert(m.keys@[an] == s);
                } else {
                    assert(child_lo(m.keys@, la, j) == Some(m.keys@[j - 1]));
                    assert(m.keys@[j - 1] == b.keys@[j - acn - 1]);
                }
            }
            assert(child_hi(m.keys@, hb, j) == child_hi(b.keys@, hb, j - acn)) by {
                if j == m.children@.len() - 1 {
                } else {
                    assert(child_hi(m.keys@, hb, j) == Some(m.keys@[j]));
                    assert(m.keys@[j] == b.keys@[j - acn]);
                }
            }
        }
    }
    let h = height(BTNode::Internal(a)) - 1;
    assert(height(a.children@[0]) == h);
    assert(height(b.children@[0]) == h);
    assert forall|j: int| 0 <= j < m.children@.len() implies height(#[trigger] m.children@[j])
        == height(m.children@[0]) by {
        if j < acn {
            assert(m.children@[j] == a.children@[j]);
            assert(height(a.children@[j]) == height(a.children@[0]));
        } else {
            assert(m.children@[j] == b.children@[j - acn]);
            assert(height(b.children@[j - acn]) == height(b.children@[0]));
        }
        assert(m.children@[0] == a.children@[0]);
    }
    assert(height(BTNode::Internal(m)) == height(BTNode::Internal(a)));
}

/// Well-formedness of an internal node whose child `i` has just been
/// touched by a removal and may be one key short of its minimum.
pub(crate) open spec fn wf_except(
    node: Internal,
    sp: int,
    mkc: int,
    root: bool,
    lo: Option<u128>,
    hi: Option<u128>,
    i: int,
) -> bool {
    &&& 0 <= i < node.children@.len()
    &&& node.children@.len() == node.keys@.len() + 1
    &&& sorted(node.keys@)
    &&& node.keys@.len() <= 2 * sp
    &&& (root ==> 1 <= node.keys@.len())
    &&& (!root ==> internal_min(sp, mkc) <= node.keys@.len())
    &&& (forall|j: int| 0 <= j < node.keys@.len() ==> in_range(lo, hi, #[trigger] node.keys@[j]))
    &&& (forall|j: int| 0 <= j < node.keys@.len() ==> lo_strict(lo, #[trigger] node.keys@[j]))
    &&& (forall|j: int|
        0 <= j < node.children@.len() && j != i ==> wf(
            #[trigger] node.children@[j],
            sp,
            mkc,
            false,
            child_lo(node.keys@, lo, j),
            child_hi(node.keys@, hi, j),
        ))
    &&& wf_loose(
        node.children@[i],
        sp,
        mkc,
        false,
        child_lo(node.keys@, lo, i),
        child_hi(node.keys@, hi, i),
    )
    &&& (forall|j: int|
        0 <= j < node.children@.len() ==> height(#[trigger] node.children@[j]) == height(
            node.children@[0],
        ))
}

/// After a transfer: two adjacent children rewritten around a new separator
/// at their shared key slot leave the node fully well-formed.
proof fn lemma_parent_after_pair(
    node0: Internal,
    node1: Internal,
    x: int,
    a1: BTNode,
    b1: BTNode,
    knew: u128,
    sp: int,
    mkc: int,
    root: bool,
    lo: Option<u128>,
    hi: Option<u128>,
)
    requires
        params_ok(sp, mkc),
        0 <= x,
        x + 1 < node0.children@.len(),
        node0.children@.len() == node0.keys@.len() + 1,
        sorted(node0.keys@),
        node0.keys@.len() <= 2 * sp,
        (root ==> 1 <= node0.keys@.len()),
        (!root ==> internal_min(sp, mkc) <= node0.keys@.len()),
        forall|j: int| 0 <= j < node0.keys@.len() ==> in_range(lo, hi, #[trigger] node0.keys@[j]),
        forall|j: int| 0 <= j < node0.keys@.len() ==> lo_strict(lo, #[trigger] node0.keys@[j]),
        forall|j: int|
            0 <= j < node0.children@.len() && j != x && j != x + 1 ==> wf(
                #[trigger] node0.children@[j],
                sp,
                mkc,
                false,
                child_lo(node0.keys@, lo, j),
                child_hi(node0.keys@, hi, j),
            ),
        wf(a1, sp, mkc, false, child_lo(node0.keys@, lo, x), Some(knew)),
        wf(b1, sp, mkc, false, Some(knew), child_hi(node0.keys@, hi, x + 1)),
        lo_strict(child_lo(node0.keys@, lo, x), knew),
        hi_ok(child_hi(node0.keys@, hi, x + 1), knew),
        height(a1) == height(node0.children@[x]),
        height(b1) == height(node0.children@[x]),
        forall|j: int|
            0 <= j < node0.children@.len() ==> height(#[trigger] node0.children@[j]) == height(
                node0.children@[0],
            ),
        node1.keys@ == node0.keys@.update(x, knew),
        node1.children@ == node0.children@.update(x, a1).update(x + 1, b1),
    ensures
        wf(BTNode::Internal(node1), sp, mkc, root, lo, hi),
        height(BTNode::Internal(node1)) == height(BTNode::Internal(node0)),
{
    let keys0 = node0.keys@;
    let keys1 = node1.keys@;
    let cs = node0.children@;
    let cs1 = node1.children@;
    assert(sorted(keys1)) by {
        assert forall|p: int, q: int| 0 <= p < q < keys1.len() implies keys1[p] < keys1[q] by {
            if p == x {
                assert(keys1[q] == keys0[q]);
                assert(hi_ok(child_hi(keys0, hi, x + 1), knew));
                assert(child_hi(keys0, hi, x + 1) == Some(keys0[x + 1]) || x + 1 == keys0.len());
                if q > x + 1 {
                    assert(keys0[x + 1] < keys0[q]);
                }
            } else if q == x {
                assert(keys1[p] == keys0[p]);
                assert(lo_strict(child_lo(keys0, lo, x), knew));
                assert(child_lo(keys0, lo, x) == Some(keys0[x - 1]) || x == 0);
                if p < x - 1 {
                    assert(keys0[p] < keys0[x - 1]);
                }
            } else {
                assert(keys1[p] == keys0[p] && keys1[q] == keys0[q]);
            }
        }
    }
    assert forall|j: int| 0 <= j < keys1.len() implies in_range(lo, hi, #[trigger] keys1[j])
        && lo_strict(lo, keys1[j]) by {
        if j == x {
            assert(keys1[x] == knew);
            assert(lo_ok(lo, knew) && lo_strict(lo, knew)) by {
                if x == 0 {
                    assert(child_lo(keys0, lo, 0) == lo);
                } else {
                    assert(knew > keys0[x - 1]);
                    assert(lo_strict(lo, keys0[x - 1]));
                }
            }
            assert(hi_ok(hi, knew)) by {
                if x + 1 == keys0.len() {
                    assert(child_hi(keys0, hi, x + 1) == hi);
                } else {
                    assert(knew < keys0[x + 1]);
                    assert(hi_ok(hi, keys0[x + 1]));
                }
            }
        } else {
            assert(keys1[j] == keys0[j]);
        }
    }
    assert forall|j: int| 0 <= j < cs1.len() implies wf(
        #[trigger] cs1[j],
        sp,
        mkc,
        false,
        child_lo(keys1, lo, j),
        child_hi(keys1, hi, j),
    ) by {
        if j == x {
            assert(cs1[j] == a1);
            assert(child_lo(keys1, lo, x) == child_lo(keys0, lo, x));
            assert(child_hi(keys1, hi, x) == Some(knew));
        } else if j == x + 1 {
            assert(cs1[j] == b1);
            assert(child_lo(keys1, lo, x + 1) == Some(knew));
            assert(child_hi(keys1, hi, x + 1) == child_hi(keys0, hi, x + 1));
        } else {
            assert(cs1[j] == cs[j]);
            assert(child_lo(keys1, lo, j) == child_lo(keys0, lo, j));
            assert(child_hi(keys1, hi, j) == child_hi(keys0, hi, j));
        }
    }
    assert forall|j: int| 0 <= j < cs1.len() implies height(#[trigger] cs1[j]) == height(
        cs1[0],
    ) by {
        let h = height(cs[x]);
        if j == x || j == x + 1 {
            assert(height(cs1[j]) == h);
        } else {
            assert(cs1[j] == cs[j]);
        }
        if x == 0 {
            assert(height(cs1[0]) == h);
        } else {
            assert(cs1[0] == cs[0]);
        }
    }
    assert(height(BTNode::Internal(node1)) == height(BTNode::Internal(node0)));
}

/// After a merge: the combined child replaces the pair, the separator
/// between them leaves the key array, and the node stays well-formed up to
/// one key of its own minimum.
proof fn lemma_parent_after_absorb(
    node0: Internal,
    node1: Internal,
    x: int,
    m: BTNode,
    sp: int,
    mkc: int,
    root: bool,
    lo: Option<u128>,
    hi: Option<u128>,
)
    requires
        params_ok(sp, mkc),
        0 <= x,
        x + 1 < node0.children@.len(),
        node0.children@.len() == node0.keys@.len() + 1,
        sorted(node0.keys@),
        node0.keys@.len() <= 2 * sp,
        1 <= node0.keys@.len(),
        (!root ==> internal_min(sp, mkc) <= node0.keys@.len()),
        forall|j: int| 0 <= j < node0.keys@.len() ==> in_range(lo, hi, #[trigger] node0.keys@[j]),
        forall|j: int| 0 <= j < node0.keys@.len() ==> lo_strict(lo, #[trigger] node0.keys@[j]),
        forall|j: int|
            0 <= j < node0.children@.len() && j != x && j != x + 1 ==> wf(
                #[trigger] node0.children@[j],
                sp,
                mkc,
                false,
                child_lo(node0.keys@, lo, j),
                child_hi(node0.keys@, hi, j),
            ),
        wf(m, sp, mkc, false, child_lo(node0.keys@, lo, x), child_hi(node0.keys@, hi, x + 1)),
        height(m) == height(node0.children@[x]),
        forall|j: int|
            0 <= j < node0.children@.len() ==> height(#[trigger] node0.children@[j]) == height(
                node0.children@[0],
            ),
        node1.keys@ == node0.keys@.remove(x),
        node1.children@ == node0.children@.update(x, m).remove(x + 1),
    ensures
        wf_loose(BTNode::Internal(node1), sp, mkc, root, lo, hi),
        height(BTNode::Internal(node1)) == height(BTNode::Internal(node0)),
        node1.keys@.len() + 1 == node0.keys@.len(),
{
    let keys0 = node0.keys@;
    let keys1 = node1.keys@;
    let cs = node0.children@;
    let cs1 = node1.children@;
    assert(forall|j: int| 0 <= j < x ==> keys1[j] == #[trigger] keys0[j]);
    assert(forall|j: int| x <= j < keys1.len() ==> keys1[j] == #[trigger] keys0[j + 1]);
    assert(sorted(keys1)) by {
        assert forall|p: int, q: int| 0 <= p < q < keys1.len() implies keys1[p] < keys1[q] by {
            let p0: int = if p < x { p } else { p + 1 };
            let q0: int = if q < x { q } else { q + 1 };
            assert(keys1[p] == keys0[p0] && keys1[q] == keys0[q0]);
        }
    }
    assert forall|j: int| 0 <= j < keys1.len() implies in_range(lo, hi, #[trigger] keys1[j])
        && lo_strict(lo, keys1[j]) by {
        let j0: int = if j < x { j } else { j + 1 };
        assert(keys1[j] == keys0[j0]);
    }
    assert forall|j: int| 0 <= j < cs1.len() implies wf(
        #[trigger] cs1[j],
        sp,
        mkc,
        false,
        child_lo(keys1, lo, j),
        child_hi(keys1, hi, j),
    ) by {
        if j < x {
            assert(cs1[j] == cs[j]);
            assert(child_lo(keys1, lo, j) == child_lo(keys0, lo, j));
            assert(child_hi(keys1, hi, j) == child_hi(keys0, hi, j)) by {
                assert(j < x && x <= keys1.len());
            }
        } else if j == x {
            assert(cs1[j] == m);
            assert(child_lo(keys1, lo, x) == child_lo(keys0, lo, x));
            assert(child_hi(keys1, hi, x) == child_hi(keys0, hi, x + 1)) by {
                if x == keys1.len() {
                    assert(x + 1 == keys0.len());
                } else {
                    assert(keys1[x] == keys0[x + 1]);
                }
            }
        } else {
            assert(cs1[j] == cs[j + 1]);
            assert(child_lo(keys1, lo, j) == child_lo(keys0, lo, j + 1)) by {
                assert(keys1[j - 1] == keys0[j]);
            }
            assert(child_hi(keys1, hi, j) == child_hi(keys0, hi, j + 1)) by {
                if j == keys1.len() {
                    assert(j + 1 == keys0.len());
                } else {
                    assert(keys1[j] == keys0[j + 1]);
                }
            }
        }
    }
    assert forall|j: int| 0 <= j < cs1.len() implies height(#[trigger] cs1[j]) == height(
        cs1[0],
    ) by {
        let h = height(cs[x]);
        if j < x {
            assert(cs1[j] == cs[j]);
        } else if j == x {
            assert(height(cs1[j]) == h);
        } else {
            assert(cs1[j] == cs[j + 1]);
        }
        if x == 0 {
            assert(height(cs1[0]) == h);
        } else {
            assert(cs1[0] == cs[0]);
        }
    }
    assert(height(BTNode::Internal(node1)) == height(BTNode::Internal(node0)));
}

/// Move the left sibling's last entry (or last child, rotated through the
/// parent) into the underfull child.
fn transfer_from_left(
    node: Internal,
    i: usize,
    mkc: u64,
    sp: u64,
    root: Ghost<bool>,
    lo: Ghost<Option<u128>>,
    hi: Ghost<Option<u128>>,
) -> (r: Internal)
    requires
        params_ok(sp as int, mkc as int),
        wf_except(node, sp as int, mkc as int, root@, lo@, hi@, i as int),
        1 <= i < node.children@.len(),
        node.children@[i as int].spec_len() < sp,
        node.children@[i as int - 1].spec_len() > sp,
    ensures
        r.page_nr == node.page_nr,
        kvs_children(r.children@) == kvs_children(node.children@),
        wf(BTNode::Internal(r), sp as int, mkc as int, root@, lo@, hi@),
        height(BTNode::Internal(r)) == height(BTNode::Internal(node)),
        r.keys@.len() == node.keys@.len(),
        r.keys@ == node.keys@.update(
            i as int - 1,
            node.children@[i as int - 1].spec_keys().last(),
        ),
        r.children@.len() == node.children@.len(),
        forall|j: int|
            0 <= j < r.children@.len() && j != i - 1 && j != i ==> r.children@[j]
                == node.children@[j],
        r.children@[i as int - 1].spec_len() + 1 == node.children@[i as int - 1].spec_len(),
        r.children@[i as int].spec_len() == node.children@[i as int].spec_len() + 1,
        r.children@[i as int - 1].spec_page_nr() == node.children@[i as int - 1].spec_page_nr(),
        r.children@[i as int].spec_page_nr() == node.children@[i as int].spec_page_nr(),
{
    let mut node = node;
    let ghost node0 = node;
    let ghost keys0 = node.keys@;
    let ghost cs = node.children@;
    let ghost x = i as int - 1;
    let ghost s = keys0[x];
    let ghost la = child_lo(keys0, lo@, x);
    let ghost hb = child_hi(keys0, hi@, x + 1);
    proof {
        assert(child_hi(keys0, hi@, x) == Some(s));
        assert(child_lo(keys0, lo@, x + 1) == Some(s));
        assert(hi_ok(hb, s)) by {
            if x + 1 < keys0.len() {
                assert(keys0[x] < keys0[x + 1]);
            } else {
                assert(in_range(lo@, hi@, keys0[x]));
            }
        }
        assert(height(cs[x]) == height(cs[x + 1]));
    }
    let b_node = node.children.remove(i);
    let a_node = node.children.remove(i - 1);
    match (a_node, b_node) {
        (BTNode::Leaf(mut a), BTNode::Leaf(mut b)) => {
            let ghost a0 = a;
            let ghost b0 = b;
            let k = match a.keys.pop() {
                Some(k) => k,
                None => unreached(),
            };
            let v = match a.entries.pop() {
                Some(v) => v,
                None => unreached(),
            };
            b.keys.insert(0, k);
            b.entries.insert(0, v);
            node.keys[i - 1] = k;
            node.children.insert(i - 1, BTNode::Leaf(a));
            node.children.insert(i, BTNode::Leaf(b));
            proof {
                assert(k == a0.keys@.last());
                assert(v == a0.entries@.last());
                lemma_leaf_transfer_left(a0, b0, a, b, sp as int, mkc as int, la, s, hb);
                assert(node.children@ =~= cs.update(x, BTNode::Leaf(a)).update(
                    x + 1,
                    BTNode::Leaf(b),
                ));
                assert(node.keys@ =~= keys0.update(x, k));
                lemma_children_pair_update(cs, x, BTNode::Leaf(a), BTNode::Leaf(b));
                assert(hi_ok(child_hi(keys0, hi@, x + 1), k)) by {
                    assert(k < s);
                }
                lemma_parent_after_pair(
                    node0,
                    node,
                    x,
                    BTNode::Leaf(a),
                    BTNode::Leaf(b),
                    k,
                    sp as int,
                    mkc as int,
                    root@,
                    lo@,
                    hi@,
                );
            }
            node
        },
        (BTNode::Internal(mut a), BTNode::Internal(mut b)) => {
            let ghost a0 = a;
            let ghost b0 = b;
            let s_old = node.keys[i - 1];
            let kl = match a.keys.pop() {
                Some(k) => k,
                None => unreached(),
            };
            let cl = match a.children.pop() {
                Some(c) => c,
                None => unreached(),
            };
            b.keys.insert(0, s_old);
            b.children.insert(0, cl);
            node.keys[i - 1] = kl;
            node.children.insert(i - 1, BTNode::Internal(a));
            node.children.insert(i, BTNode::Internal(b));
            proof {
                assert(s_old == s);
                assert(kl == a0.keys@.last());
                assert(cl == a0.children@.last());
                lemma_internal_transfer_left(a0, b0, a, b, sp as int, mkc as int, la, s, hb);
                assert(node.children@ =~= cs.update(x, BTNode::Internal(a)).update(
                    x + 1,
                    BTNode::Internal(b),
                ));
                assert(node.keys@ =~= keys0.update(x, kl));
                lemma_children_pair_update(cs, x, BTNode::Internal(a), BTNode::Internal(b));
                assert(hi_ok(child_hi(keys0, hi@, x + 1), kl)) by {
                    assert(kl < s);
                }
                lemma_parent_after_pair(
                    node0,
                    node,
                    x,
                    BTNode::Internal(a),
                    BTNode::Internal(b),
                    kl,
                    sp as int,
                    mkc as int,
                    root@,
                    lo@,
                    hi@,
                );
            }
            node
        },
        (a_node, b_node) => {
            proof {
                assert(a_node == cs[x] && b_node == cs[x + 1]);
                assert(height(cs[x]) == height(cs[x + 1]));
                assert(false);
            }
            unreached()
        },
    }
}

/// Move the right sibling's first entry (or first child, rotated through
/// the parent) into the underfull child.
#[verifier::rlimit(60)]
fn transfer_from_right(
    node: Internal,
    i: usize,
    mkc: u64,
    sp: u64,
    root: Ghost<bool>,
    lo: Ghost<Option<u128>>,
    hi: Ghost<Option<u128>>,
) -> (r: Internal)
    requires
        params_ok(sp as int, mkc as int),
        wf_except(node, sp as int, mkc as int, root@, lo@, hi@, i as int),
        i + 1 < node.children@.len(),
        node.children@[i as int].spec_len() < sp,
        node.children@[i as int + 1].spec_len() > sp,
    ensures
        r.page_nr == node.page_nr,
        kvs_children(r.children@) == kvs_children(node.children@),
        wf(BTNode::Internal(r), sp as int, mkc as int, root@, lo@, hi@),
        height(BTNode::Internal(r)) == height(BTNode::Internal(node)),
        r.keys@.len() == node.keys@.len(),
        r.keys@ == node.keys@.update(
            i as int,
            match node.children@[i as int + 1] {
                BTNode::Leaf(c) => c.keys@[1],
                BTNode::Internal(c) => c.keys@[0],
            },
        ),
        r.children@.len() == node.children@.len(),
        forall|j: int|
            0 <= j < r.children@.len() && j != i && j != i + 1 ==> r.children@[j]
                == node.children@[j],
        r.children@[i as int].spec_len() == node.children@[i as int].spec_len() + 1,
        r.children@[i as int + 1].spec_len() + 1 == node.children@[i as int + 1].spec_len(),
        r.children@[i as int].spec_page_nr() == node.children@[i as int].spec_page_nr(),
        r.children@[i as int + 1].spec_page_nr() == node.children@[i as int + 1].spec_page_nr(),
{
    let mut node = node;
    let ghost node0 = node;
    let ghost keys0 = node.keys@;
    let ghost cs = node.children@;
    let ghost x = i as int;
    let ghost s = keys0[x];
    let ghost sb = child_lo(keys0, lo@, x);
    let ghost hc = child_hi(keys0, hi@, x + 1);
    proof {
        assert(child_hi(keys0, hi@, x) == Some(s));
        assert(child_lo(keys0, lo@, x + 1) == Some(s));
        assert(lo_strict(sb, s)) by {
            if x > 0 {
                assert(keys0[x - 1] < keys0[x]);
            } else {
                assert(lo_strict(lo@, keys0[x]));
            }
        }
        assert(height(cs[x]) == height(cs[x + 1]));
    }
    let c_node = node.children.remove(i + 1);
    let b_node = node.children.remove(i);
    match (b_node, c_node) {
        (BTNode::Leaf(mut b), BTNode::Leaf(mut c)) => {
            let ghost b0 = b;
            let ghost c0 = c;
            let k = c.keys.remove(0);
            let v = c.entries.remove(0);
            b.keys.push(k);
            b.entries.push(v);
            let knew = c.keys[0];
            node.keys[i] = knew;
            node.children.insert(i, BTNode::Leaf(b));
            node.children.insert(i + 1, BTNode::Leaf(c));
            proof {
                assert(k == c0.keys@[0]);
                assert(knew == c0.keys@[1]);
                assert(b.keys@ =~= b0.keys@.push(k));
                assert(c.keys@ =~= c0.keys@.drop_first());
                assert(c.entries@ =~= c0.entries@.drop_first());
                lemma_leaf_transfer_right(b0, c0, b, c, sp as int, mkc as int, sb, s, hc);
                assert(node.children@ =~= cs.update(x, BTNode::Leaf(b)).update(
                    x + 1,
                    BTNode::Leaf(c),
                ));
                assert(node.keys@ =~= keys0.update(x, knew));
                lemma_children_pair_update(cs, x, BTNode::Leaf(b), BTNode::Leaf(c));
                assert(lo_strict(child_lo(keys0, lo@, x), knew)) by {
                    assert(knew > s);
                }
                lemma_parent_after_pair(
                    node0,
                    node,
                    x,
                    BTNode::Leaf(b),
                    BTNode::Leaf(c),
                    knew,
                    sp as int,
                    mkc as int,
                    root@,
                    lo@,
                    hi@,
                );
            }
            node
        },
        (BTNode::Internal(mut b), BTNode::Internal(mut c)) => {
            let ghost b0 = b;
            let ghost c0 = c;
            let s_old = node.keys[i];
            let knew = c.keys.remove(0);
            let cf = c.children.remove(0);
            b.keys.push(s_old);
            b.children.push(cf);
            node.keys[i] = knew;
            node.children.insert(i, BTNode::Internal(b));
            node.children.insert(i + 1, BTNode::Internal(c));
            proof {
                assert(s_old == s);
                assert(knew == c0.keys@[0]);
                assert(b.keys@ =~= b0.keys@.push(s));
                assert(b.children@ =~= b0.children@.push(c0.children@[0]));
                assert(c.keys@ =~= c0.keys@.drop_first());
                assert(c.children@ =~= c0.children@.drop_first());
                lemma_internal_transfer_right(b0, c0, b, c, sp as int, mkc as int, sb, s, hc);
                assert(node.children@ =~= cs.update(x, BTNode::Internal(b)).update(
                    x + 1,
                    BTNode::Internal(c),
                ));
                assert(node.keys@ =~= keys0.update(x, knew));
                lemma_children_pair_update(cs, x, BTNode::Internal(b), BTNode::Internal(c));
                assert(lo_strict(child_lo(keys0, lo@, x), knew)) by {
                    assert(knew > s);
                }
                lemma_parent_after_pair(
                    node0,
                    node,
                    x,
                    BTNode::Internal(b),
                    BTNode::Internal(c),
                    knew,
                    sp as int,
                    mkc as int,
                    root@,
                    lo@,
                    hi@,
                );
            }
            node
        },
        (b_node, c_node) => {
            proof {
                assert(b_node == cs[x] && c_node == cs[x + 1]);
                assert(height(cs[x]) == height(cs[x + 1]));
                assert(false);
            }
            unreached()
        },
    }
}

/// Merge the underfull child `i` with its neighbour at `i + 1 == right`
/// (or with the child itself on the right of its left sibling): child `x`
/// absorbs child `x + 1`, the separator between them leaves the key array,
/// and the absorbed child's page is reclaimed.
#[verifier::rlimit(60)]
fn merge_children(
    node: Internal,
    x: usize,
    pager: &mut Pager,
    mkc: u64,
    sp: u64,
    root: Ghost<bool>,
    lo: Ghost<Option<u128>>,
    hi: Ghost<Option<u128>>,
    under: Ghost<int>,
) -> (r: Internal)
    requires
        params_ok(sp as int, mkc as int),
        wf_except(node, sp as int, mkc as int, root@, lo@, hi@, under@),
        under@ == x || under@ == x + 1,
        x + 1 < node.children@.len(),
        node.children@[under@].spec_len() < sp,
        node.children@[x as int].spec_len() <= sp,
        node.children@[x as int + 1].spec_len() <= sp,
    ensures
        r.page_nr == node.page_nr,
        kvs_children(r.children@) == kvs_children(node.children@),
        wf_loose(BTNode::Internal(r), sp as int, mkc as int, root@, lo@, hi@),
        height(BTNode::Internal(r)) == height(BTNode::Internal(node)),
        r.keys@.len() + 1 == node.keys@.len(),
        r.keys@ == node.keys@.remove(x as int),
        r.children@.len() + 1 == node.children@.len(),
        forall|j: int| 0 <= j < x ==> r.children@[j] == node.children@[j],
        forall|j: int| x < j < r.children@.len() ==> r.children@[j] == node.children@[j + 1],
        r.children@[x as int].spec_page_nr() == node.children@[x as int].spec_page_nr(),
        r.children@[x as int].spec_keys() == match (
            node.children@[x as int],
            node.children@[x as int + 1],
        ) {
            (BTNode::Leaf(a), BTNode::Leaf(b)) => a.keys@ + b.keys@,
            (BTNode::Internal(a), BTNode::Internal(b)) => a.keys@ + seq![node.keys@[x as int]]
                + b.keys@,
            _ => Seq::empty(),
        },
        match (node.children@[x as int], node.children@[x as int + 1], r.children@[x as int]) {
            (BTNode::Leaf(a), BTNode::Leaf(b), BTNode::Leaf(m)) => m.entries@ == a.entries@
                + b.entries@ && m.next == b.next,
            _ => true,
        },
        final(pager).free_pages@ == old(pager).free_pages@.push(
            node.children@[x as int + 1].spec_page_nr(),
        ),
        final(pager).node_count == if old(pager).node_count > 0 {
            (old(pager).node_count - 1) as u64
        } else {
            0u64
        },
{
    let mut node = node;
    let ghost node0 = node;
    let ghost keys0 = node.keys@;
    let ghost cs = node.children@;
    let ghost xi = x as int;
    let ghost s = keys0[xi];
    let ghost la = child_lo(keys0, lo@, xi);
    let ghost hb = child_hi(keys0, hi@, xi + 1);
    proof {
        assert(child_hi(keys0, hi@, xi) == Some(s));
        assert(child_lo(keys0, lo@, xi + 1) == Some(s));
        assert(lo_strict(la, s)) by {
            if xi > 0 {
                assert(keys0[xi - 1] < keys0[xi]);
            } else {
                assert(lo_strict(lo@, keys0[xi]));
            }
        }
        assert(hi_ok(hb, s)) by {
            if xi + 1 < keys0.len() {
                assert(keys0[xi] < keys0[xi + 1]);
            } else {
                assert(in_range(lo@, hi@, keys0[xi]));
            }
        }
        assert(height(cs[xi]) == height(cs[xi + 1]));
        // whichever side is merely loose, both sides are at least loose
        assert(wf_loose(cs[xi], sp as int, mkc as int, false, la, Some(s)));
        assert(wf_loose(cs[xi + 1], sp as int, mkc as int, false, Some(s), hb));
        // the merged size bounds
        assert(2 * spec_split_at(mkc as int) <= mkc + 1);
    }
    let s_key = node.keys[x];
    let b_node = node.children.remove(x + 1);
    let a_node = node.children.remove(x);
    node.keys.remove(x);
    proof {
        assert(s_key == s);
        assert(node.keys@ =~= keys0.remove(xi));
    }
    match (a_node, b_node) {
        (BTNode::Leaf(mut a), BTNode::Leaf(mut b)) => {
            let ghost a0 = a;
            let ghost b0 = b;
            a.keys.append(&mut b.keys);
            a.entries.append(&mut b.entries);
            a.next = b.next;
            pager.free_page(b.page_nr);
            node.children.insert(x, BTNode::Leaf(a));
            proof {
                assert(a.keys@ =~= a0.keys@ + b0.keys@);
                assert(a.entries@ =~= a0.entries@ + b0.entries@);
                lemma_leaf_merge(a0, b0, a, sp as int, mkc as int, la, s, hb);
                assert(node.children@ =~= cs.update(xi, BTNode::Leaf(a)).remove(xi + 1));
                lemma_children_absorb(cs, xi, BTNode::Leaf(a));
                lemma_parent_after_absorb(
                    node0,
                    node,
                    xi,
                    BTNode::Leaf(a),
                    sp as int,
                    mkc as int,
                    root@,
                    lo@,
                    hi@,
                );
            }
            node
        },
        (BTNode::Internal(mut a), BTNode::Internal(mut b)) => {
            let ghost a0 = a;
            let ghost b0 = b;
            a.keys.push(s_key);
            a.keys.append(&mut b.keys);
            a.children.append(&mut b.children);
            pager.free_page(b.page_nr);
            node.children.insert(x, BTNode::Internal(a));
            proof {
                assert(a.keys@ =~= a0.keys@ + seq![s] + b0.keys@);
                assert(a.children@ =~= a0.children@ + b0.children@);
                lemma_internal_merge(a0, b0, a, sp as int, mkc as int, la, s, hb);
                assert(node.children@ =~= cs.update(xi, BTNode::Internal(a)).remove(xi + 1));
                lemma_children_absorb(cs, xi, BTNode::Internal(a));
                lemma_parent_after_absorb(
                    node0,
                    node,
                    xi,
                    BTNode::Internal(a),
                    sp as int,
                    mkc as int,
                    root@,
                    lo@,
                    hi@,
                );
            }
            node
        },
        (a_node, b_node) => {
            proof {
                assert(a_node == cs[xi] && b_node == cs[xi + 1]);
                assert(height(cs[xi]) == height(cs[xi + 1]));
                assert(false);
            }
            unreached()
        },
    }
}

/// Repair an underfull child: try a transfer from the left sibling, then
/// from the right, then merge left, then merge right — reclaiming a page on
/// a merge.  A child with no sibling (single-child node, smallest fan-out)
/// stays as it is.
fn rebalance_child(
    node: Internal,
    i: usize,
    pager: &mut Pager,
    mkc: u64,
    sp: u64,
    root: Ghost<bool>,
    lo: Ghost<Option<u128>>,
    hi: Ghost<Option<u128>>,
) -> (r: Internal)
    requires
        params_ok(sp as int, mkc as int),
        wf_except(node, sp as int, mkc as int, root@, lo@, hi@, i as int),
        node.children@[i as int].spec_len() < sp,
    ensures
        r.page_nr == node.page_nr,
        kvs_children(r.children@) == kvs_children(node.children@),
        wf_loose(BTNode::Internal(r), sp as int, mkc as int, root@, lo@, hi@),
        height(BTNode::Internal(r)) == height(BTNode::Internal(node)),
        r.keys@.len() == node.keys@.len() || r.keys@.len() + 1 == node.keys@.len(),
        r.keys@.len() == node.keys@.len() ==> wf(
            BTNode::Internal(r),
            sp as int,
            mkc as int,
            root@,
            lo@,
            hi@,
        ),
        r.keys@.len() == node.keys@.len() ==> *final(pager) == *old(pager),
        r.keys@.len() + 1 == node.keys@.len() ==> final(pager).node_count == (
        if old(pager).node_count > 0 {
            (old(pager).node_count - 1) as u64
        } else {
            0u64
        }) && (final(pager).free_pages@ == old(pager).free_pages@.push(
            node.children@[i as int].spec_page_nr(),
        ) || final(pager).free_pages@ == old(pager).free_pages@.push(
            node.children@[i as int + 1].spec_page_nr(),
        )),
{
    if i > 0 {
        let llen = node.children[i - 1].len();
        if llen > sp as usize {
            let r = transfer_from_left(node, i, mkc, sp, root, lo, hi);
            return r;
        }
    }
    if i + 1 < node.children.len() {
        let rlen = node.children[i + 1].len();
        if rlen > sp as usize {
            let r = transfer_from_right(node, i, mkc, sp, root, lo, hi);
            return r;
        }
    }
    if i > 0 {
        let r = merge_children(node, i - 1, pager, mkc, sp, root, lo, hi, Ghost(i as int));
        return r;
    }
    if i + 1 < node.children.len() {
        let r = merge_children(node, i, pager, mkc, sp, root, lo, hi, Ghost(i as int));
        return r;
    }
    // a single-child node: no sibling to rebalance with; this arises only
    // at the smallest fan-out, where the minimum occupancy is zero anyway
    proof {
        assert(node.children@.len() == 1);
        assert(node.keys@.len() == 0);
        assert(internal_min(sp as int, mkc as int) <= 0);
        assert(mkc == 3);
        assert(wf(
            node.children@[0],
            sp as int,
            mkc as int,
            false,
            child_lo(node.keys@, lo@, 0),
            child_hi(node.keys@, hi@, 0),
        ));
    }
    node
}

/// Remove a key from a subtree by recursive descent.  An underfull child is
/// repaired here through its siblings; this node in turn may end one key
/// short of its minimum, which the caller repairs.
pub(crate) fn node_remove(
    n: BTNode,
    key: u128,
    pager: &mut Pager,
    mkc: u64,
    sp: u64,
    root: Ghost<bool>,
    lo: Ghost<Option<u128>>,
    hi: Ghost<Option<u128>>,
) -> (r: (BTNode, Option<u128>, bool))
    requires
        params_ok(sp as int, mkc as int),
        wf(n, sp as int, mkc as int, root@, lo@, hi@),
    ensures
        r.1 == kv_lookup(kvs(n), key),
        kvs(r.0) == kvs_remove(kvs(n), key),
        wf_loose(r.0, sp as int, mkc as int, root@, lo@, hi@),
        !r.2 ==> wf(r.0, sp as int, mkc as int, root@, lo@, hi@),
        r.1 is None ==> !r.2,
        r.0.spec_page_nr() == n.spec_page_nr(),
        height(r.0) == height(n),
        (r.0 is Leaf <==> n is Leaf),
        r.1 is None ==> *final(pager) == *old(pager) && crate::model::same_shape(r.0, n),
        final(pager).node_count <= old(pager).node_count,
        old(pager).free_pages@.is_prefix_of(final(pager).free_pages@),
        final(pager).node_count as int == (if old(pager).node_count as int
            >= final(pager).free_pages@.len() - old(pager).free_pages@.len() {
            old(pager).node_count - (final(pager).free_pages@.len()
                - old(pager).free_pages@.len())
        } else {
            0int
        }),
    decreases n,
{
    match n {
        BTNode::Leaf(l) => {
            proof {
                assert(wf(BTNode::Leaf(l), sp as int, mkc as int, true, lo@, hi@));
            }
            let (l2, prev) = leaf_remove(l, key, mkc, sp, lo, hi);
            proof {
                if prev is None {
                    assert(wf(BTNode::Leaf(l2), sp as int, mkc as int, root@, lo@, hi@));
                    crate::lemmas::lemma_same_shape_refl(BTNode::Leaf(l2));
                } else {
                    assert(wf_loose(BTNode::Leaf(l2), sp as int, mkc as int, root@, lo@, hi@));
                }
            }
            let shrank = prev.is_some();
            (BTNode::Leaf(l2), prev, shrank)
        },
        BTNode::Internal(node) => {
            let mut node = node;
            let ghost node0 = node;
            let ghost keys0 = node.keys@;
            let ghost cs = node.children@;
            let i = find_route(&node.keys, key);
            let child = node.children.remove(i);
            let ghost clo = child_lo(keys0, lo@, i as int);
            let ghost chi = child_hi(keys0, hi@, i as int);
            proof {
                assert(child == cs[i as int]);
                assert(wf(child, sp as int, mkc as int, false, clo, chi));
            }
            let (child2, prev, child_shrank) = node_remove(
                child,
                key,
                pager,
                mkc,
                sp,
                Ghost(false),
                Ghost(clo),
                Ghost(chi),
            );
            node.children.insert(i, child2);
            proof {
                assert(node.children@ =~= cs.update(i as int, child2));
                crate::set_op::lemma_route_localize_remove(
                    node0,
                    key,
                    i as int,
                    sp as int,
                    mkc as int,
                    root@,
                    lo@,
                    hi@,
                );
                crate::lemmas::lemma_kvs_children_update(cs, i as int, child2);
                assert(kvs_children(node.children@) == kvs_remove(kvs(n), key));
                assert(kv_lookup(kvs(n), key) == kv_lookup(kvs(cs[i as int]), key));
            }
            let underfull = child_shrank && node.children[i].len() < sp as usize;
            proof {
                if !child_shrank {
                    assert(wf(child2, sp as int, mkc as int, false, clo, chi));
                }
            }
            if underfull {
                proof {
                    assert(wf_except(node, sp as int, mkc as int, root@, lo@, hi@, i as int)) by {
                        assert forall|j: int|
                            0 <= j < node.children@.len() && j != i as int implies wf(
                            #[trigger] node.children@[j],
                            sp as int,
                            mkc as int,
                            false,
                            child_lo(keys0, lo@, j),
                            child_hi(keys0, hi@, j),
                        ) by {
                            assert(node.children@[j] == cs[j]);
                        }
                        assert forall|j: int| 0 <= j < node.children@.len() implies height(
                            #[trigger] node.children@[j],
                        ) == height(node.children@[0]) by {
                            if j != i as int {
                                assert(node.children@[j] == cs[j]);
                            }
                            if i > 0 {
                                assert(node.children@[0] == cs[0]);
                            }
                        }
                    }
                }
                let keys_before = node.keys.len();
                let node2 = rebalance_child(node, i, pager, mkc, sp, root, lo, hi);
                proof {
                    assert(kvs_children(node2.children@) == kvs_remove(kvs(n), key));
                    assert(kvs(BTNode::Internal(node2)) == kvs_remove(kvs(n), key));
                }
                let merged = node2.keys.len() < keys_before;
                (BTNode::Internal(node2), prev, merged)
            } else {
                proof {
                    assert(wf(child2, sp as int, mkc as int, false, clo, chi)) by {
                        if child_shrank {
                            assert(child2.spec_len() >= sp);
                            assert(wf_loose(child2, sp as int, mkc as int, false, clo, chi));
                        }
                    }
                    assert forall|j: int| 0 <= j < node.children@.len() implies wf(
                        #[trigger] node.children@[j],
                        sp as int,
                        mkc as int,
                        false,
                        child_lo(keys0, lo@, j),
                        child_hi(keys0, hi@, j),
                    ) by {
                        if j != i as int {
                            assert(node.children@[j] == cs[j]);
                        }
                    }
                    assert forall|j: int| 0 <= j < node.children@.len() implies height(
                        #[trigger] node.children@[j],
                    ) == height(node.children@[0]) by {
                        if j != i as int {
                            assert(node.children@[j] == cs[j]);
                        }
                        if i > 0 {
                            assert(node.children@[0] == cs[0]);
                        }
                    }
                    assert(wf(BTNode::Internal(node), sp as int, mkc as int, root@, lo@, hi@));
                    if prev is None {
                        assert forall|j: int|
                            0 <= j < node.children@.len() implies crate::model::same_shape(
                            #[trigger] node.children@[j],
                            cs[j],
                        ) by {
                            if j == i as int {
                                assert(crate::model::same_shape(child2, cs[j]));
                            } else {
                                assert(node.children@[j] == cs[j]);
                                crate::lemmas::lemma_same_shape_refl(cs[j]);
                            }
                        }
                        assert(crate::model::same_shape(BTNode::Internal(node), n));
                    }
                }
                (BTNode::Internal(node), prev, false)
            }
        },
    }
}

} // verus!
