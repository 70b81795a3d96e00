//! The two node shapes of the tree and their elementary operations.
//!
//! Leaves hold the user data as parallel sorted `keys`/`entries` arrays and
//! a `next` link to the successor leaf.  Internal nodes hold routing keys
//! and one more child than keys.  Each node remembers the page number it
//! occupies in the backing file.

use vstd::prelude::*;

use crate::model::{route, sorted};

verus! {

/// A page number: pages are `PAGE_SIZE`-byte slots of the backing file.
pub type PagePtr = u64;

/// A leaf node: parallel sorted key/value arrays plus the successor link.
#[derive(Debug)]
pub struct Leaf {
    pub page_nr: PagePtr,
    pub keys: Vec<u128>,
    pub entries: Vec<u128>,
    pub next: Option<PagePtr>,
}

/// An internal node: routing keys and `keys.len() + 1` child subtrees.
#[derive(Debug)]
pub struct Internal {
    pub page_nr: PagePtr,
    pub keys: Vec<u128>,
    pub children: Vec<BTNode>,
}

/// A node of the tree: the discriminated union of the two shapes.
#[derive(Debug)]
pub enum BTNode {
    Internal(Internal),
    Leaf(Leaf),
}

impl Leaf {
    /// The keys of this leaf, in ascending order.
    pub fn keys(self) -> (r: Vec<u128>)
        ensures
            r@ == self.keys@,
    {
        self.keys
    }

    /// The values of this leaf, ordered by ascending key.
    pub fn values(self) -> (r: Vec<u128>)
        ensures
            r@ == self.entries@,
    {
        self.entries
    }

    /// The page number of the successor leaf, or `None` on the rightmost.
    pub fn next(&self) -> (r: Option<PagePtr>)
        ensures
            r == self.next,
    {
        self.next
    }
}

impl Internal {
    /// The routing keys of this node, in ascending order.
    pub fn keys(self) -> (r: Vec<u128>)
        ensures
            r@ == self.keys@,
    {
        self.keys
    }
}

impl BTNode {
    /// A fresh leaf node on page `page_nr`.
    pub fn new_leaf(page_nr: u64, keys: Vec<u128>, entries: Vec<u128>, next: Option<PagePtr>) -> (r:
        BTNode)
        ensures
            r == BTNode::Leaf(Leaf { page_nr, keys, entries, next }),
    {
        BTNode::Leaf(Leaf { page_nr, keys, entries, next })
    }

    /// A fresh internal node on page `page_nr`.
    pub fn new_internal(page_nr: u64, keys: Vec<u128>, children: Vec<BTNode>) -> (r: BTNode)
        ensures
            r == BTNode::Internal(Internal { page_nr, keys, children }),
    {
        BTNode::Internal(Internal { page_nr, keys, children })
    }

    /// The page number this node occupies.
    pub fn page_nr(&self) -> (r: u64)
        ensures
            r == self.spec_page_nr(),
    {
        match self {
            BTNode::Internal(node) => node.page_nr,
            BTNode::Leaf(node) => node.page_nr,
        }
    }

    /// The page number, at the specification level.
    pub open spec fn spec_page_nr(&self) -> u64 {
        match self {
            BTNode::Internal(node) => node.page_nr,
            BTNode::Leaf(node) => node.page_nr,
        }
    }

    /// The number of keys stored directly in this node.
    pub fn len(&self) -> (r: usize)
        ensures
            r == self.spec_len(),
    {
        match self {
            BTNode::Internal(node) => node.keys.len(),
            BTNode::Leaf(node) => node.keys.len(),
        }
    }

    /// The direct key count, at the specification level.
    pub open spec fn spec_len(&self) -> nat {
        match self {
            BTNode::Internal(node) => node.keys@.len(),
            BTNode::Leaf(node) => node.keys@.len(),
        }
    }

    /// The keys stored directly in this node, at the specification level.
    pub open spec fn spec_keys(&self) -> Seq<u128> {
        match self {
            BTNode::Internal(node) => node.keys@,
            BTNode::Leaf(node) => node.keys@,
        }
    }

    /// The keys stored directly in this node, in ascending order.
    pub fn keys(self) -> (r: Vec<u128>)
        ensures
            r@ == match self {
                BTNode::Internal(node) => node.keys@,
                BTNode::Leaf(node) => node.keys@,
            },
    {
        match self {
            BTNode::Internal(node) => node.keys,
            BTNode::Leaf(node) => node.keys,
        }
    }

}

/// The routing index of `key` in the sorted key array `keys`: the number of
/// keys at or below `key`, located by binary search.
pub(crate) fn find_route(keys: &Vec<u128>, key: u128) -> (i: usize)
    requires
        sorted(keys@),
    ensures
        i == route(keys@, key),
        forall|j: int| 0 <= j < i ==> keys@[j] <= key,
        forall|j: int| i <= j < keys@.len() ==> keys@[j] > key,
{
    let mut lo: usize = 0;
    let mut hi: usize = keys.len();
    while lo < hi
        invariant
            0 <= lo <= hi <= keys@.len(),
            sorted(keys@),
            forall|j: int| 0 <= j < lo ==> keys@[j] <= key,
            forall|j: int| hi <= j < keys@.len() ==> keys@[j] > key,
        decreases hi - lo,
    {
        let mid: usize = lo + (hi - lo) / 2;
        if keys[mid] <= key {
            lo = mid + 1;
        } else {
            hi = mid;
        }
    }
    proof {
        crate::lemmas::lemma_route_unique(keys@, key, lo as int);
    }
    lo
}

} // verus!
