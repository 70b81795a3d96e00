//! The mathematical model of the tree.
//!
//! A node's visible content is the sequence of its `(key, value)` pairs in
//! key order (`kvs`).  Well-formedness (`wf`) captures the structural
//! invariants: per-node sortedness and occupancy bounds, the routing bounds
//! between an internal node's keys and its children, and uniform leaf depth.

use vstd::prelude::*;

use crate::node::{BTNode, Leaf};

verus! {

/// A key sequence is strictly ascending.
pub open spec fn sorted(s: Seq<u128>) -> bool {
    forall|i: int, j: int| 0 <= i < j < s.len() ==> s[i] < s[j]
}

/// A key/value sequence is strictly ascending by key.
pub open spec fn kv_sorted(s: Seq<(u128, u128)>) -> bool {
    forall|i: int, j: int| 0 <= i < j < s.len() ==> (#[trigger] s[i]).0 < (#[trigger] s[j]).0
}

/// Every key of `s` lies strictly below `k`.
pub open spec fn keys_below(s: Seq<(u128, u128)>, k: u128) -> bool {
    forall|t: int| 0 <= t < s.len() ==> (#[trigger] s[t]).0 < k
}

/// Every key of `s` lies at or above `k`.
pub open spec fn keys_at_or_above(s: Seq<(u128, u128)>, k: u128) -> bool {
    forall|t: int| 0 <= t < s.len() ==> (#[trigger] s[t]).0 >= k
}

/// Every key of `s` lies strictly above `k`.
pub open spec fn keys_above(s: Seq<(u128, u128)>, k: u128) -> bool {
    forall|t: int| 0 <= t < s.len() ==> (#[trigger] s[t]).0 > k
}

/// The pairs held by a leaf, in key order.
pub open spec fn leaf_kvs(l: Leaf) -> Seq<(u128, u128)> {
    Seq::new(l.keys@.len(), |i: int| (l.keys@[i], l.entries@[i]))
}

/// The pairs held by a subtree, in key order.
pub open spec fn kvs(n: BTNode) -> Seq<(u128, u128)>
    decreases n,
{
    match n {
        BTNode::Leaf(l) => leaf_kvs(l),
        BTNode::Internal(node) => kvs_children(node.children@),
    }
}

/// The pairs held by a sequence of subtrees, concatenated in order.
pub open spec fn kvs_children(cs: Seq<BTNode>) -> Seq<(u128, u128)>
    decreases cs,
{
    if cs.len() == 0 {
        Seq::empty()
    } else {
        kvs(cs[0]) + kvs_children(cs.drop_first())
    }
}

/// The height of a subtree: leaves sit at height zero.
pub open spec fn height(n: BTNode) -> nat
    decreases n,
{
    match n {
        BTNode::Leaf(_) => 0,
        BTNode::Internal(node) => {
            if node.children@.len() == 0 {
                1
            } else {
                1 + height(node.children@[0])
            }
        }
    }
}

/// The page numbers of a subtree, in depth-first order.
pub open spec fn page_seq(n: BTNode) -> Seq<u64>
    decreases n,
{
    match n {
        BTNode::Leaf(l) => seq![l.page_nr],
        BTNode::Internal(node) => seq![node.page_nr] + pages_children(node.children@),
    }
}

/// The page numbers of a sequence of subtrees, concatenated in order.
pub open spec fn pages_children(cs: Seq<BTNode>) -> Seq<u64>
    decreases cs,
{
    if cs.len() == 0 {
        Seq::empty()
    } else {
        page_seq(cs[0]) + pages_children(cs.drop_first())
    }
}

/// Two subtrees with the same persisted form: equal page numbers and key
/// arrays, and — per shape — equal entries and successor links, or
/// pointwise same-shaped children.  Same-shaped subtrees serialize to the
/// same pages.
pub open spec fn same_shape(a: BTNode, b: BTNode) -> bool
    decreases a,
{
    match (a, b) {
        (BTNode::Leaf(la), BTNode::Leaf(lb)) => la.page_nr == lb.page_nr && la.keys@ == lb.keys@
            && la.entries@ == lb.entries@ && la.next == lb.next,
        (BTNode::Internal(na), BTNode::Internal(nb)) => na.page_nr == nb.page_nr && na.keys@
            == nb.keys@ && na.children@.len() == nb.children@.len() && (forall|j: int|
            0 <= j < na.children@.len() ==> same_shape(
                #[trigger] na.children@[j],
                nb.children@[j],
            )),
        _ => false,
    }
}

/// Every page number of the subtree lies strictly below `b`.
pub open spec fn pages_below(n: BTNode, b: int) -> bool {
    forall|t: int| 0 <= t < page_seq(n).len() ==> (#[trigger] page_seq(n)[t]) < b
}

/// The array-length bounds that keep a node's encoding within one page:
/// parallel key/value arrays on leaves, one more child than keys on
/// internal nodes, and at most 126 keys anywhere, recursively.
pub open spec fn node_sizes_ok(n: BTNode) -> bool
    decreases n,
{
    match n {
        BTNode::Leaf(l) => l.keys@.len() == l.entries@.len() && l.keys@.len() <= 126,
        BTNode::Internal(node) => {
            &&& node.children@.len() == node.keys@.len() + 1
            &&& node.keys@.len() <= 126
            &&& forall|j: int|
                0 <= j < node.children@.len() ==> node_sizes_ok(#[trigger] node.children@[j])
        },
    }
}

/// The routing bounds of an internal node: for every key index `j`, the
/// subtree to its left holds only smaller keys, and the subtree to its right
/// holds only keys at or above it.
pub open spec fn routed(keys: Seq<u128>, cs: Seq<BTNode>) -> bool {
    forall|j: int|
        0 <= j < keys.len() ==> keys_below(kvs(cs[j]), #[trigger] keys[j]) && keys_at_or_above(
            kvs(cs[j + 1]),
            keys[j],
        )
}

/// Whether `k` respects an optional inclusive lower bound.
pub open spec fn lo_ok(lo: Option<u128>, k: u128) -> bool {
    match lo {
        None => true,
        Some(b) => b <= k,
    }
}

/// Whether `k` lies strictly above an optional lower bound.
pub open spec fn lo_strict(lo: Option<u128>, k: u128) -> bool {
    match lo {
        None => true,
        Some(b) => b < k,
    }
}

/// Whether `k` respects an optional exclusive upper bound.
pub open spec fn hi_ok(hi: Option<u128>, k: u128) -> bool {
    match hi {
        None => true,
        Some(b) => k < b,
    }
}

/// Whether `k` lies inside the half-open window `[lo, hi)`.
pub open spec fn in_range(lo: Option<u128>, hi: Option<u128>, k: u128) -> bool {
    lo_ok(lo, k) && hi_ok(hi, k)
}

/// The lower bound of the `j`-th child of an internal node whose own lower
/// bound is `lo`: keys at or above `keys[j - 1]` route right of it.
pub open spec fn child_lo(keys: Seq<u128>, lo: Option<u128>, j: int) -> Option<u128> {
    if j == 0 {
        lo
    } else {
        Some(keys[j - 1])
    }
}

/// The upper bound of the `j`-th child of an internal node whose own upper
/// bound is `hi`: keys below `keys[j]` route left of it.
pub open spec fn child_hi(keys: Seq<u128>, hi: Option<u128>, j: int) -> Option<u128> {
    if j == keys.len() {
        hi
    } else {
        Some(keys[j])
    }
}

/// The split threshold derived from `max_key_count`: its half, rounded up.
pub open spec fn spec_split_at(mkc: int) -> int {
    mkc / 2 + mkc % 2
}

/// The minimum key count of a non-root leaf.  With the smallest supported
/// fan-out the tree can hold internal nodes with a single child, whose leaf
/// has no sibling to rebalance with, so the minimum drops to zero there.
pub open spec fn leaf_min(sp: int, mkc: int) -> int {
    if mkc == 3 {
        0
    } else {
        sp - 1
    }
}

/// The minimum key count of a non-root internal node.  An insertion-time
/// split keeps `sp` keys on the left and hands `len - sp - 1` to the right,
/// so with an odd `max_key_count` the right node starts one key short of
/// `sp - 1`.
pub open spec fn internal_min(sp: int, mkc: int) -> int {
    if mkc == 3 {
        0
    } else if 2 * sp == mkc {
        sp - 1
    } else {
        sp - 2
    }
}

/// Well-formedness of a subtree whose keys must lie in `[lo, hi)`, under
/// the tree's `split_at` (`sp`) and `max_key_count` (`mkc`) parameters.
/// Only the root (`root == true`) may fall below the minimum occupancy.
/// Internal nodes may briefly hold up to `2 * sp` keys (a merge of two
/// minimal siblings plus the pulled separator), which an insertion-time
/// split later shrinks.
pub open spec fn wf(
    n: BTNode,
    sp: int,
    mkc: int,
    root: bool,
    lo: Option<u128>,
    hi: Option<u128>,
) -> bool
    decreases n,
{
    match n {
        BTNode::Leaf(l) => {
            &&& l.keys@.len() == l.entries@.len()
            &&& sorted(l.keys@)
            &&& l.keys@.len() <= mkc
            &&& (!root ==> leaf_min(sp, mkc) <= l.keys@.len())
            &&& (forall|j: int| 0 <= j < l.keys@.len() ==> in_range(lo, hi, #[trigger] l.keys@[j]))
        }
        BTNode::Internal(node) => {
            &&& node.children@.len() == node.keys@.len() + 1
            &&& sorted(node.keys@)
            &&& node.keys@.len() <= 2 * sp
            &&& (root ==> 1 <= node.keys@.len())
            &&& (!root ==> internal_min(sp, mkc) <= node.keys@.len())
            &&& (forall|j: int|
                0 <= j < node.keys@.len() ==> in_range(lo, hi, #[trigger] node.keys@[j]))
            &&& (forall|j: int| 0 <= j < node.keys@.len() ==> lo_strict(lo, #[trigger] node.keys@[j]))
            &&& (forall|j: int|
                0 <= j < node.children@.len() ==> wf(
                    #[trigger] node.children@[j],
                    sp,
                    mkc,
                    false,
                    child_lo(node.keys@, lo, j),
                    child_hi(node.keys@, hi, j),
                ))
            &&& (forall|j: int|
                0 <= j < node.children@.len() ==> height(#[trigger] node.children@[j]) == height(
                    node.children@[0],
                ))
        }
    }
}

/// Valid sizing parameters: the split threshold derived from a supported
/// maximum key count.  The upper bound is the count at which a full node
/// still fits a page, as derived from the page and entry sizes.
pub open spec fn params_ok(sp: int, mkc: int) -> bool {
    3 <= mkc <= 126 && sp == spec_split_at(mkc)
}

/// Well-formedness right after a removal touched this node: as `wf`, with
/// this node's own minimum occupancy relaxed by one key.  Everything below
/// it is strictly well-formed; the parent restores the occupancy by a
/// transfer or a merge.
pub open spec fn wf_loose(
    n: BTNode,
    sp: int,
    mkc: int,
    root: bool,
    lo: Option<u128>,
    hi: Option<u128>,
) -> bool {
    match n {
        BTNode::Leaf(l) => {
            &&& l.keys@.len() == l.entries@.len()
            &&& sorted(l.keys@)
            &&& l.keys@.len() <= mkc
            &&& (!root ==> leaf_min(sp, mkc) - 1 <= l.keys@.len())
            &&& (forall|j: int| 0 <= j < l.keys@.len() ==> in_range(lo, hi, #[trigger] l.keys@[j]))
        }
        BTNode::Internal(node) => {
            &&& node.children@.len() == node.keys@.len() + 1
            &&& sorted(node.keys@)
            &&& node.keys@.len() <= 2 * sp
            &&& (!root ==> internal_min(sp, mkc) - 1 <= node.keys@.len())
            &&& (forall|j: int|
                0 <= j < node.keys@.len() ==> in_range(lo, hi, #[trigger] node.keys@[j]))
            &&& (forall|j: int| 0 <= j < node.keys@.len() ==> lo_strict(lo, #[trigger] node.keys@[j]))
            &&& (forall|j: int|
                0 <= j < node.children@.len() ==> wf(
                    #[trigger] node.children@[j],
                    sp,
                    mkc,
                    false,
                    child_lo(node.keys@, lo, j),
                    child_hi(node.keys@, hi, j),
                ))
            &&& (forall|j: int|
                0 <= j < node.children@.len() ==> height(#[trigger] node.children@[j]) == height(
                    node.children@[0],
                ))
        }
    }
}

/// The number of keys of `s` that are at or below `key`: for a sorted key
/// sequence this is the routing index of `key`.
pub open spec fn route(keys: Seq<u128>, key: u128) -> int
    decreases keys.len(),
{
    if keys.len() == 0 {
        0
    } else if keys.last() <= key {
        keys.len() as int
    } else {
        route(keys.drop_last(), key)
    }
}

/// Insertion (or overwrite) of a pair into a key-sorted sequence.
pub open spec fn kvs_insert(s: Seq<(u128, u128)>, k: u128, v: u128) -> Seq<(u128, u128)>
    decreases s.len(),
{
    if s.len() == 0 {
        seq![(k, v)]
    } else if k < s[0].0 {
        seq![(k, v)] + s
    } else if k == s[0].0 {
        seq![(k, v)] + s.drop_first()
    } else {
        seq![s[0]] + kvs_insert(s.drop_first(), k, v)
    }
}

/// Removal of a key from a key-sorted sequence.
pub open spec fn kvs_remove(s: Seq<(u128, u128)>, k: u128) -> Seq<(u128, u128)>
    decreases s.len(),
{
    if s.len() == 0 {
        s
    } else if s[0].0 == k {
        s.drop_first()
    } else {
        seq![s[0]] + kvs_remove(s.drop_first(), k)
    }
}

/// Lookup of a key in a key/value sequence.
pub open spec fn kv_lookup(s: Seq<(u128, u128)>, k: u128) -> Option<u128>
    decreases s.len(),
{
    if s.len() == 0 {
        None
    } else if s[0].0 == k {
        Some(s[0].1)
    } else {
        kv_lookup(s.drop_first(), k)
    }
}

/// The keys of a key/value sequence, in order.
pub open spec fn kv_keys(s: Seq<(u128, u128)>) -> Seq<u128> {
    Seq::new(s.len(), |i: int| s[i].0)
}

/// The values of a key/value sequence, in order.
pub open spec fn kv_vals(s: Seq<(u128, u128)>) -> Seq<u128> {
    Seq::new(s.len(), |i: int| s[i].1)
}

/// Whether some pair of `s` carries the key `k`.
pub open spec fn kv_contains(s: Seq<(u128, u128)>, k: u128) -> bool {
    exists|t: int| 0 <= t < s.len() && (#[trigger] s[t]).0 == k
}

/// The finite map held by a key/value sequence.
pub open spec fn kv_map(s: Seq<(u128, u128)>) -> Map<u128, u128>
    decreases s.len(),
{
    if s.len() == 0 {
        Map::empty()
    } else {
        kv_map(s.drop_first()).insert(s[0].0, s[0].1)
    }
}

} // verus!
