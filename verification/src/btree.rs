//! The tree coordinator: the public key-value operations, root lifecycle,
//! and the tree-global state that the metadata envelope persists.

use vstd::prelude::*;

use crate::error::{Error, TreeResult};
use crate::lemmas::{
    lemma_kv_map_contains, lemma_kv_map_insert, lemma_kv_map_len, lemma_kv_map_lookup,
    lemma_kv_map_remove, lemma_kvs_insert_len, lemma_kvs_remove_len, lemma_wf_kv_sorted,
};
use crate::model::{
    child_hi, child_lo, height, kv_keys, kv_lookup, kv_map, kv_sorted, kv_vals, kvs, kvs_children,
    kvs_insert, kvs_remove, leaf_kvs, params_ok, sorted, spec_split_at, wf, wf_loose,
};
use crate::node::{find_route, BTNode, Internal, Leaf, PagePtr};
use crate::pager::Pager;
use crate::remove_op::node_remove;
use crate::set_op::node_set;

verus! {

/// The page size of the backing file, in bytes.
pub const PAGE_SIZE: u64 = 4096;

/// The byte width of a key.
pub const KEY_SIZE: u64 = 16;

/// The byte width of a value.
pub const VALUE_SIZE: u64 = 16;

/// The number of keys a node can hold: the page must fit the serialized
/// node, whose overhead is one tag byte and two length prefixes.
pub(crate) fn max_key_count(size_key: u64, size_value: u64) -> (r: u64)
    requires
        size_key == KEY_SIZE,
        size_value == VALUE_SIZE,
    ensures
        r == 126,
{
    let r = (PAGE_SIZE - size_value - 17) / (size_key + size_value);
    proof {
        assert(r == 4063u64 / 32u64);
    }
    r
}

/// The split threshold: half the maximum key count, rounded up.
pub(crate) fn split_at(max_key_count: u64) -> (r: u64)
    requires
        max_key_count <= 126,
    ensures
        r == spec_split_at(max_key_count as int),
{
    max_key_count / 2 + max_key_count % 2
}

/// A persistent, single-writer B+tree mapping `u128` keys to `u128`
/// values.  The in-memory tree mirrors the paged file: every node carries
/// the page number it occupies, and the metadata fields below are what the
/// sidecar envelope stores.
#[derive(Debug)]
pub struct BTree {
    pub(crate) pager: Pager,
    pub(crate) entry_count: u64,
    pub(crate) root_page_nr: PagePtr,
    pub(crate) root: Option<BTNode>,
    pub(crate) key_size: u64,
    pub(crate) value_size: u64,
    pub(crate) max_key_count: u64,
    pub(crate) split_at: u64,
}

impl View for BTree {
    type V = Map<u128, u128>;

    /// The finite map of live entries.
    closed spec fn view(&self) -> Map<u128, u128> {
        match self.root {
            None => Map::empty(),
            Some(r) => kv_map(kvs(r)),
        }
    }
}

impl BTree {
    /// The keys of the live entries, in ascending order.
    pub closed spec fn key_seq(self) -> Seq<u128> {
        match self.root {
            None => Seq::empty(),
            Some(r) => kv_keys(kvs(r)),
        }
    }

    /// The values of the live entries, ordered by ascending key.
    pub closed spec fn val_seq(self) -> Seq<u128> {
        match self.root {
            None => Seq::empty(),
            Some(r) => kv_vals(kvs(r)),
        }
    }

    /// The number of live pages.
    pub closed spec fn spec_node_count(self) -> u64 {
        self.pager.node_count
    }

    /// The well-formedness invariant: valid sizing parameters, a
    /// well-formed root over the unbounded window, and an entry counter
    /// that matches the tree's content.
    pub closed spec fn inv(self) -> bool {
        &&& params_ok(self.split_at as int, self.max_key_count as int)
        &&& self.key_size == KEY_SIZE
        &&& self.value_size == VALUE_SIZE
        &&& self.entry_count <= usize::MAX
        &&& match self.root {
            None => {
                &&& self.entry_count == 0
                &&& self.pager.node_count == 0
                &&& self.pager.free_pages@.len() == 0
                &&& self.root_page_nr == 0
            },
            Some(r) => {
                &&& wf(
                    r,
                    self.split_at as int,
                    self.max_key_count as int,
                    true,
                    None,
                    None,
                )
                &&& self.entry_count == kvs(r).len()
                &&& self.root_page_nr == r.spec_page_nr()
            },
        }
    }

    /// Open a fresh, empty tree.  The maximum key count may be overridden
    /// downward for testing; the derived value is used otherwise.
    pub fn open(override_max_key_count: Option<u64>) -> (r: TreeResult<BTree>)
        requires
            match override_max_key_count {
                Some(m) => 3 <= m <= 126,
                None => true,
            },
        ensures
            match r {
                Ok(t) => {
                    &&& t.inv()
                    &&& t@ == Map::<u128, u128>::empty()
                    &&& t.spec_node_count() == 0
                    &&& t.spec_free_pages() == Seq::<u64>::empty()
                    &&& t.spec_root_page_nr() == 0
                    &&& t.spec_max_key_count() == match override_max_key_count {
                        Some(m) => m,
                        None => 126u64,
                    }
                    &&& t.spec_split_threshold() == spec_split_at(t.spec_max_key_count() as int)
                    &&& t.spec_entry_count() == 0
                },
                Err(_) => false,
            },
    {
        let key_size = KEY_SIZE;
        let value_size = VALUE_SIZE;
        let mkc = match override_max_key_count {
            None => max_key_count(key_size, value_size),
            Some(m) => m,
        };
        let sp = split_at(mkc);
        Ok(
            BTree {
                pager: Pager::new(),
                entry_count: 0,
                root_page_nr: 0,
                root: None,
                key_size,
                value_size,
                max_key_count: mkc,
                split_at: sp,
            },
        )
    }

    /// The number of live entries.
    pub fn len(&self) -> (r: usize)
        requires
            self.inv(),
        ensures
            r == self@.len(),
    {
        proof {
            match &self.root {
                None => {},
                Some(rt) => {
                    lemma_wf_kv_sorted(
                        *rt,
                        self.split_at as int,
                        self.max_key_count as int,
                        true,
                        None,
                        None,
                    );
                    lemma_kv_map_len(kvs(*rt));
                },
            }
        }
        self.entry_count as usize
    }

    /// The number of live pages.
    pub fn node_count(&self) -> (r: u64)
        ensures
            r == self.spec_node_count(),
    {
        self.pager.node_count
    }

    /// Point lookup: the value stored under `key`, if any.
    pub fn get(&self, key: u128) -> (r: TreeResult<Option<u128>>)
        requires
            self.inv(),
        ensures
            r == Ok::<Option<u128>, Error>(
                if self@.contains_key(key) {
                    Some(self@[key])
                } else {
                    None
                },
            ),
    {
        match &self.root {
            None => Ok(None),
            Some(rt) => {
                let v = node_get(
                    rt,
                    key,
                    Ghost(self.split_at as int),
                    Ghost(self.max_key_count as int),
                    Ghost(true),
                    Ghost(None),
                    Ghost(None),
                );
                proof {
                    lemma_wf_kv_sorted(
                        *rt,
                        self.split_at as int,
                        self.max_key_count as int,
                        true,
                        None,
                        None,
                    );
                    lemma_kv_map_lookup(kvs(*rt), key);
                }
                Ok(v)
            },
        }
    }

    /// Upsert: store `value` under `key`, returning the value previously
    /// stored there, if any.
    #[verifier::rlimit(80)]
    pub fn set(&mut self, key: u128, value: u128) -> (r: TreeResult<Option<u128>>)
        requires
            old(self).inv(),
            old(self)@.len() < usize::MAX,
        ensures
            final(self).inv(),
            final(self)@ == old(self)@.insert(key, value),
            r == Ok::<Option<u128>, Error>(
                if old(self)@.contains_key(key) {
                    Some(old(self)@[key])
                } else {
                    None
                },
            ),
            old(self)@.contains_key(key) ==> final(self).spec_node_count()
                == old(self).spec_node_count() && final(self).spec_free_pages()
                == old(self).spec_free_pages() && final(self).spec_root_page_nr()
                == old(self).spec_root_page_nr() && final(self).key_seq() == old(self).key_seq(),
            final(self).spec_node_count() >= old(self).spec_node_count(),
            final(self).spec_free_pages().len() <= old(self).spec_free_pages().len(),
            old(self).spec_root() is None ==> final(self).spec_node_count() == 1
                && final(self).spec_root_page_nr() == 0,
            final(self).spec_root_page_nr() == old(self).spec_root_page_nr() || (
            match final(self).spec_root() {
                Some(rn) => rn is Internal && rn.spec_len() == 1,
                None => false,
            }),
    {
        let ghost sp = self.split_at as int;
        let ghost mkc = self.max_key_count as int;
        match self.root.take() {
            None => {
                // the very first insert creates the root leaf on page 0
                let p = self.pager.alloc_page();
                let mut keys: Vec<u128> = Vec::new();
                let mut entries: Vec<u128> = Vec::new();
                keys.push(key);
                entries.push(value);
                let leaf = Leaf { page_nr: p, keys, entries, next: None };
                proof {
                    let w = leaf_kvs(leaf);
                    assert(w =~= seq![(key, value)]);
                    assert(w.drop_first() =~= Seq::<(u128, u128)>::empty());
                    assert(kv_map(w.drop_first()) =~= Map::<u128, u128>::empty());
                    assert(w[0] == (key, value));
                    assert(kv_map(w) =~= Map::<u128, u128>::empty().insert(key, value));
                }
                self.root = Some(BTNode::Leaf(leaf));
                self.root_page_nr = p;
                self.entry_count = 1;
                Ok(None)
            },
            Some(rootn) => {
                let ghost root0 = rootn;
                let ghost s0 = kvs(rootn);
                proof {
                    lemma_wf_kv_sorted(rootn, sp, mkc, true, None, None);
                    lemma_kv_map_lookup(s0, key);
                    lemma_kv_map_insert(s0, key, value);
                    lemma_kv_map_contains(s0, key);
                    lemma_kvs_insert_len(s0, key, value);
                    lemma_kv_map_len(s0);
                }
                let (r2, out) = node_set(
                    rootn,
                    key,
                    value,
                    &mut self.pager,
                    self.max_key_count,
                    self.split_at,
                    Ghost(true),
                    Ghost(None),
                    Ghost(None),
                );
                proof {
                    if kv_map(s0).dom().contains(key) {
                        assert(out.prev is Some);
                        crate::lemmas::lemma_kvs_insert_same_keys(s0, key, value);
                    }
                }
                match out.split {
                    None => {
                        self.root_page_nr = r2.page_nr();
                        self.root = Some(r2);
                    },
                    Some((sk, nn)) => {
                        // the root split: a fresh root holds the separator
                        let p = self.pager.alloc_page();
                        let ghost gr2 = r2;
                        let ghost gnn = nn;
                        let mut ks: Vec<u128> = Vec::new();
                        ks.push(sk);
                        let mut cs: Vec<BTNode> = Vec::new();
                        cs.push(r2);
                        cs.push(nn);
                        let newroot = Internal { page_nr: p, keys: ks, children: cs };
                        proof {
                            assert(newroot.keys@ =~= seq![sk]);
                            assert(newroot.children@[0] == gr2 && newroot.children@[1] == gnn);
                            lemma_new_root(newroot, sk, s0, key, value, sp, mkc);
                        }
                        self.root_page_nr = p;
                        self.root = Some(BTNode::Internal(newroot));
                    },
                }
                if out.prev.is_none() {
                    self.entry_count = self.entry_count + 1;
                }
                Ok(out.prev)
            },
        }
    }

    /// Delete: drop the entry under `key`, returning the value it held, if
    /// any.  An emptied internal root collapses to its single child.
    #[verifier::rlimit(100)]
    pub fn remove(&mut self, key: u128) -> (r: TreeResult<Option<u128>>)
        requires
            old(self).inv(),
        ensures
            final(self).inv(),
            final(self)@ == old(self)@.remove(key),
            r == Ok::<Option<u128>, Error>(
                if old(self)@.contains_key(key) {
                    Some(old(self)@[key])
                } else {
                    None
                },
            ),
            !old(self)@.contains_key(key) ==> final(self).spec_node_count()
                == old(self).spec_node_count() && final(self).spec_free_pages()
                == old(self).spec_free_pages() && final(self).spec_root_page_nr()
                == old(self).spec_root_page_nr() && final(self).spec_meta_bytes()
                == old(self).spec_meta_bytes() && final(self).key_seq() == old(self).key_seq()
                && final(self).val_seq() == old(self).val_seq(),
            final(self).spec_node_count() <= old(self).spec_node_count(),
            old(self).spec_free_pages().is_prefix_of(final(self).spec_free_pages()),
            final(self).spec_node_count() as int == (if old(self).spec_node_count() as int
                >= final(self).spec_free_pages().len() - old(self).spec_free_pages().len() {
                old(self).spec_node_count() - (final(self).spec_free_pages().len()
                    - old(self).spec_free_pages().len())
            } else {
                0int
            }),
            final(self).spec_free_pages() == old(self).spec_free_pages()
                ==> final(self).spec_root_page_nr() == old(self).spec_root_page_nr(),
    {
        let ghost sp = self.split_at as int;
        let ghost mkc = self.max_key_count as int;
        match self.root.take() {
            None => {
                proof {
                    assert(old(self)@.remove(key) =~= old(self)@);
                }
                Ok(None)
            },
            Some(rootn) => {
                let ghost root0 = rootn;
                let ghost s0 = kvs(rootn);
                proof {
                    lemma_wf_kv_sorted(rootn, sp, mkc, true, None, None);
                    lemma_kv_map_lookup(s0, key);
                    lemma_kv_map_remove(s0, key);
                    lemma_kv_map_contains(s0, key);
                    lemma_kvs_remove_len(s0, key);
                    lemma_kv_map_len(s0);
                }
                let (r2, prev, _shrank) = node_remove(
                    rootn,
                    key,
                    &mut self.pager,
                    self.max_key_count,
                    self.split_at,
                    Ghost(true),
                    Ghost(None),
                    Ghost(None),
                );
                let ghost p1 = self.pager;
                proof {
                    if prev is None {
                        assert(!kv_map(s0).dom().contains(key));
                        assert(!crate::model::kv_contains(s0, key));
                        assert forall|j: int| 0 <= j < s0.len() implies (#[trigger] s0[j]).0
                            != key by {
                            if s0[j].0 == key {
                                assert(crate::model::kv_contains(s0, key));
                            }
                        }
                        crate::lemmas::lemma_kvs_remove_absent(s0, key);
                    }
                }
                let mut r2 = r2;
                // an emptied internal root collapses to its single child
                loop
                    invariant
                        params_ok(sp, mkc),
                        wf_loose(r2, sp, mkc, true, None, None),
                        kvs(r2) == kvs_remove(s0, key),
                        self.entry_count == old(self).entry_count,
                        self.key_size == old(self).key_size,
                        self.value_size == old(self).value_size,
                        self.max_key_count == old(self).max_key_count,
                        self.split_at == old(self).split_at,
                        prev is None ==> wf(r2, sp, mkc, true, None, None),
                        prev is None ==> self.pager == p1 && r2.spec_page_nr()
                            == root0.spec_page_nr() && crate::model::same_shape(r2, root0),
                        self.pager.node_count <= p1.node_count,
                        p1.free_pages@.is_prefix_of(self.pager.free_pages@),
                        self.pager.node_count as int == (if p1.node_count as int
                            >= self.pager.free_pages@.len() - p1.free_pages@.len() {
                            p1.node_count - (self.pager.free_pages@.len()
                                - p1.free_pages@.len())
                        } else {
                            0int
                        }),
                        self.pager.free_pages@ == p1.free_pages@ ==> r2.spec_page_nr()
                            == root0.spec_page_nr(),
                    ensures
                        wf(r2, sp, mkc, true, None, None),
                        kvs(r2) == kvs_remove(s0, key),
                        self.entry_count == old(self).entry_count,
                        self.key_size == old(self).key_size,
                        self.value_size == old(self).value_size,
                        self.max_key_count == old(self).max_key_count,
                        self.split_at == old(self).split_at,
                        prev is None ==> self.pager == p1 && r2.spec_page_nr()
                            == root0.spec_page_nr() && crate::model::same_shape(r2, root0),
                        self.pager.node_count <= p1.node_count,
                        p1.free_pages@.is_prefix_of(self.pager.free_pages@),
                        self.pager.node_count as int == (if p1.node_count as int
                            >= self.pager.free_pages@.len() - p1.free_pages@.len() {
                            p1.node_count - (self.pager.free_pages@.len()
                                - p1.free_pages@.len())
                        } else {
                            0int
                        }),
                        self.pager.free_pages@ == p1.free_pages@ ==> r2.spec_page_nr()
                            == root0.spec_page_nr(),
                    decreases height(r2),
                {
                    let collapse = match &r2 {
                        BTNode::Internal(nd) => nd.keys.len() == 0,
                        BTNode::Leaf(_) => false,
                    };
                    if !collapse {
                        proof {
                            assert(wf(r2, sp, mkc, true, None, None));
                        }
                        break;
                    }
                    proof {
                        if prev is None {
                            assert(wf(r2, sp, mkc, true, None, None));
                            assert(false);
                        }
                    }
                    match r2 {
                        BTNode::Internal(mut nd) => {
                            let ghost pf = self.pager.free_pages@;
                            self.pager.free_page(nd.page_nr);
                            proof {
                                assert(self.pager.free_pages@ == pf.push(nd.page_nr));
                                assert(p1.free_pages@.is_prefix_of(self.pager.free_pages@)) by {
                                    assert(p1.free_pages@ =~= pf.take(p1.free_pages@.len() as int));
                                    assert(pf.push(nd.page_nr).take(p1.free_pages@.len() as int)
                                        =~= pf.take(p1.free_pages@.len() as int));
                                }
                            }
                            let ghost csv = nd.children@;
                            let child = match nd.children.pop() {
                                Some(c) => c,
                                None => unreached(),
                            };
                            proof {
                                assert(child == csv[0]);
                                assert(kvs_children(csv) =~= kvs(child) + kvs_children(
                                    csv.drop_first(),
                                ));
                                assert(csv.drop_first() =~= Seq::<BTNode>::empty());
                                assert(kvs(child) == kvs(BTNode::Internal(nd)) || kvs_children(csv)
                                    == kvs(child));
                                assert(wf(child, sp, mkc, false, None, None)) by {
                                    assert(child_lo(nd.keys@, None, 0) == None::<u128>);
                                    assert(child_hi(nd.keys@, None, 0) == None::<u128>);
                                }
                                assert(wf_loose(child, sp, mkc, true, None, None)) by {
                                    assert(height(child) >= 0);
                                }
                            }
                            r2 = child;
                        },
                        BTNode::Leaf(_) => {
                            proof {
                                assert(false);
                            }
                        },
                    }
                }
                self.root_page_nr = r2.page_nr();
                proof {
                    if self.pager.free_pages@ == old(self).pager.free_pages@ {
                        assert(p1.free_pages@ == old(self).pager.free_pages@) by {
                            assert(old(self).pager.free_pages@.is_prefix_of(p1.free_pages@));
                            assert(p1.free_pages@ =~= self.pager.free_pages@.take(
                                p1.free_pages@.len() as int,
                            ));
                            assert(p1.free_pages@ =~= old(self).pager.free_pages@);
                        }
                        assert(r2.spec_page_nr() == root0.spec_page_nr());
                    }
                    if prev is None {
                        crate::codec::lemma_same_shape_write(
                            r2,
                            root0,
                            Seq::new((self.pager.allocated() * 4096) as nat, |t: int| 0u8),
                        );
                    }
                }
                self.root = Some(r2);
                proof {
                    assert(old(self).spec_free_pages().is_prefix_of(self.pager.free_pages@)) by {
                        let of = old(self).pager.free_pages@;
                        assert(of.is_prefix_of(p1.free_pages@));
                        assert(of =~= p1.free_pages@.take(of.len() as int));
                        assert(p1.free_pages@ =~= self.pager.free_pages@.take(
                            p1.free_pages@.len() as int,
                        ));
                        assert(of =~= self.pager.free_pages@.take(of.len() as int));
                    }
                }
                if prev.is_some() {
                    proof {
                        assert(kv_map(s0).dom().contains(key));
                        crate::lemmas::lemma_kv_map_contains(s0, key);
                        let u = choose|t: int| 0 <= t < s0.len() && (#[trigger] s0[t]).0 == key;
                        assert(s0.len() >= 1);
                    }
                    self.entry_count = self.entry_count - 1;
                }
                Ok(prev)
            },
        }
    }

    /// The canonical bytes of this tree's metadata envelope.
    pub closed spec fn spec_meta_bytes(self) -> Seq<u8> {
        crate::codec::spec_enc_meta(
            self.pager.node_count,
            self.entry_count,
            self.root_page_nr,
            self.pager.free_pages@,
            self.key_size,
            self.value_size,
            self.max_key_count,
            self.split_at,
        )
    }

    /// Every live page number lies within the allocated span, so the
    /// paged image has a slot for every node.
    pub closed spec fn spec_pages_in_span(self) -> bool {
        match self.root {
            None => true,
            Some(r) => crate::model::pages_below(r, self.pager.allocated()),
        }
    }

    /// The canonical paged image of this tree: one zeroed page per
    /// allocated slot, with every live node's body written at its own page
    /// offset in depth-first order.
    pub closed spec fn spec_db_image(self) -> Seq<u8> {
        let zeros = Seq::new((self.pager.allocated() * 4096) as nat, |t: int| 0u8);
        match self.root {
            None => zeros,
            Some(r) => crate::codec::spec_write_tree(r, zeros),
        }
    }

    /// Flatten the tree to its two persistent images: the metadata
    /// envelope and the paged data file, one zero-padded page per
    /// allocated slot.  Fails exactly when the allocated span overflows a
    /// machine limit or some live page number lies outside it.
    pub fn save(&self) -> (r: TreeResult<(Vec<u8>, Vec<u8>)>)
        requires
            self.inv(),
        ensures
            match r {
                Ok(images) => images.0@ == self.spec_meta_bytes() && images.1@
                    == self.spec_db_image() && images.1@.len() == (self.spec_node_count()
                    + self.spec_free_pages().len()) * 4096,
                Err(_) => true,
            },
            r is Err <==> self.spec_node_count() + self.spec_free_pages().len() > u64::MAX || (
            self.spec_node_count() + self.spec_free_pages().len()) * 4096 > usize::MAX
                || !self.spec_pages_in_span(),
    {
        let meta = crate::codec::encode_meta(
            self.pager.node_count,
            self.entry_count,
            self.root_page_nr,
            &self.pager.free_pages,
            self.key_size,
            self.value_size,
            self.max_key_count,
            self.split_at,
        );
        if self.pager.node_count > u64::MAX - self.pager.free_pages.len() as u64 {
            return Err(Error::Serde);
        }
        let allocated = self.pager.node_count + self.pager.free_pages.len() as u64;
        if allocated > (usize::MAX / 4096) as u64 {
            proof {
                assert((allocated as int) * 4096 > usize::MAX as int) by (nonlinear_arith)
                    requires
                        allocated as int > usize::MAX as int / 4096,
                ;
            }
            return Err(Error::Serde);
        }
        let total = (allocated as usize) * 4096;
        proof {
            assert((allocated as int) * 4096 <= usize::MAX as int) by (nonlinear_arith)
                requires
                    allocated as int <= usize::MAX as int / 4096,
            ;
            assert(total % 4096 == 0 && total as int / 4096 == allocated as int)
                by (nonlinear_arith)
                requires
                    total == (allocated as int) * 4096,
                    total <= usize::MAX,
            ;
        }
        let mut db: Vec<u8> = vec![0u8; total];
        proof {
            assert(db@ =~= Seq::new((self.pager.allocated() * 4096) as nat, |t: int| 0u8));
        }
        match &self.root {
            None => {
                proof {
                    assert(db@.len() == total);
                }
            },
            Some(rt) => {
                proof {
                    crate::lemmas::lemma_wf_sizes_ok(
                        *rt,
                        self.split_at as int,
                        self.max_key_count as int,
                        true,
                        None,
                        None,
                    );
                    assert(db@.len() == total);
                }
                match write_tree(rt, &mut db) {
                    Ok(_) => {
                        proof {
                            assert(crate::model::pages_below(*rt, self.pager.allocated()));
                        }
                    },
                    Err(e) => {
                        proof {
                            assert(!self.spec_pages_in_span());
                        }
                        return Err(e);
                    },
                }
            },
        }
        Ok((meta, db))
    }

    /// The page numbers of the live nodes, in depth-first order from the
    /// root.
    pub closed spec fn spec_page_seq(self) -> Seq<u64> {
        match self.root {
            None => Seq::empty(),
            Some(r) => crate::model::page_seq(r),
        }
    }

    /// Rebuild a tree from its two persistent images, validating
    /// everything: a loaded tree satisfies the full invariant, its
    /// metadata envelope re-encodes to exactly the bytes given, and no
    /// page of its free list is reachable from its root.  A canonical
    /// envelope of a fresh, empty tree is always accepted.
    pub fn load(meta: &Vec<u8>, db: &Vec<u8>) -> (r: TreeResult<BTree>)
        ensures
            match r {
                Ok(t) => t.inv() && meta@ == t.spec_meta_bytes() && forall|t2: int|
                    0 <= t2 < t.spec_page_seq().len() ==> !t.spec_free_pages().contains(
                        #[trigger] t.spec_page_seq()[t2],
                    ),
                Err(_) => true,
            },
            forall|mm: crate::codec::MetaFields|
                #[trigger] crate::codec::is_enc_meta(meta@, mm) && crate::codec::empty_meta(mm)
                    ==> r is Ok,
            forall|mm: crate::codec::MetaFields, l: Leaf|
                #[trigger] crate::codec::single_leaf_stored(meta@, db@, mm, l) ==> (match r {
                    Ok(t) => t@ == kv_map(leaf_kvs(l)) && t.key_seq() == kv_keys(leaf_kvs(l))
                        && t.val_seq() == kv_vals(leaf_kvs(l)) && t.spec_entry_count()
                        == l.keys@.len(),
                    Err(_) => false,
                }),
    {
        let m = match crate::codec::decode_meta(meta.as_slice()) {
            Ok(x) => x,
            Err(e) => {
                return Err(e);
            },
        };
        let ghost md = m;
        if m.key_size != KEY_SIZE || m.value_size != VALUE_SIZE {
            proof {
                lemma_no_empty_envelope(meta@, md);
            }
            return Err(Error::InvalidFileFormat);
        }
        if m.max_key_count < 3 || m.max_key_count > 126 {
            proof {
                lemma_no_empty_envelope(meta@, md);
            }
            return Err(Error::InvalidFileFormat);
        }
        if m.split_at != m.max_key_count / 2 + m.max_key_count % 2 {
            proof {
                lemma_no_empty_envelope(meta@, md);
            }
            return Err(Error::InvalidFileFormat);
        }
        if m.entry_count > usize::MAX as u64 {
            proof {
                lemma_no_empty_envelope(meta@, md);
            }
            return Err(Error::Serde);
        }
        if m.node_count == 0 {
            if m.entry_count != 0 || m.free_pages.len() != 0 || m.root_page_nr != 0 {
                proof {
                    lemma_no_empty_envelope(meta@, md);
                }
                return Err(Error::InvalidFileFormat);
            }
            proof {
                lemma_no_empty_envelope(meta@, md);
            }
            return Ok(
                BTree {
                    pager: Pager { node_count: 0, free_pages: m.free_pages },
                    entry_count: 0,
                    root_page_nr: 0,
                    root: None,
                    key_size: m.key_size,
                    value_size: m.value_size,
                    max_key_count: m.max_key_count,
                    split_at: m.split_at,
                },
            );
        }
        let fuel = if m.node_count < u64::MAX {
            m.node_count + 1
        } else {
            u64::MAX
        };
        proof {
            lemma_no_empty_envelope(meta@, md);
            lemma_single_leaf_hyp(meta@, db@, md, fuel);
        }
        let (node, _h, e) = crate::codec::build_node(
            db.as_slice(),
            m.root_page_nr,
            fuel,
            m.split_at,
            m.max_key_count,
            true,
            None,
            None,
            &m.free_pages,
        )?;
        proof {
            assert forall|mm: crate::codec::MetaFields, l: Leaf|
                #[trigger] crate::codec::single_leaf_stored(meta@, db@, mm, l) implies node
                is Leaf && kvs(node) == leaf_kvs(l) && e == l.keys@.len() by {
                assert(crate::model::same_shape(node, BTNode::Leaf(l)));
                assert(kvs(node) =~= leaf_kvs(l));
            }
        }
        if e != m.entry_count {
            return Err(Error::Serde);
        }
        Ok(
            BTree {
                pager: Pager { node_count: m.node_count, free_pages: m.free_pages },
                entry_count: m.entry_count,
                root_page_nr: m.root_page_nr,
                root: Some(node),
                key_size: m.key_size,
                value_size: m.value_size,
                max_key_count: m.max_key_count,
                split_at: m.split_at,
            },
        )
    }

    /// A copy of the root node — a fresh empty leaf on page zero when the
    /// tree has never held an entry.  The copy carries the root's page
    /// number, its direct key count and the tree's whole content.
    pub fn root(&self) -> (r: TreeResult<BTNode>)
        requires
            self.inv(),
        ensures
            match r {
                Ok(node) => match self.spec_root() {
                    Some(rt) => node.spec_page_nr() == rt.spec_page_nr() && node.spec_len()
                        == rt.spec_len() && kvs(node) == kvs(rt),
                    None => node.spec_page_nr() == 0 && node.spec_len() == 0,
                },
                Err(_) => false,
            },
    {
        match &self.root {
            None => Ok(BTNode::Leaf(Leaf { page_nr: 0, keys: Vec::new(), entries: Vec::new(), next: None })),
            Some(rt) => Ok(clone_node(rt)),
        }
    }

    /// The root node, at the specification level.
    pub closed spec fn spec_root(self) -> Option<BTNode> {
        self.root
    }

    /// The maximum key count, at the specification level.
    pub closed spec fn spec_max_key_count(self) -> u64 {
        self.max_key_count
    }

    /// The split threshold, at the specification level.
    pub closed spec fn spec_split_threshold(self) -> u64 {
        self.split_at
    }

    /// The entry counter, at the specification level.
    pub closed spec fn spec_entry_count(self) -> u64 {
        self.entry_count
    }

    /// The root page number, at the specification level.
    pub closed spec fn spec_root_page_nr(self) -> u64 {
        self.root_page_nr
    }

    /// The reclaimed pages, at the specification level.
    pub closed spec fn spec_free_pages(self) -> Seq<u64> {
        self.pager.free_pages@
    }

    /// The keys of the live entries, in strictly ascending order: one per
    /// entry, with no duplicates, and every stored key among them.
    pub fn keys(&self) -> (r: Vec<u128>)
        requires
            self.inv(),
        ensures
            r@ == self.key_seq(),
            sorted(r@),
            r@.len() == self@.len(),
            forall|t: int| 0 <= t < r@.len() ==> self@.contains_key(#[trigger] r@[t]),
            forall|k: u128| self@.contains_key(k) ==> r@.contains(k),
    {
        let (ks, vs) = self.entries();
        ks
    }

    /// The values of the live entries, ordered by ascending key: the `t`-th
    /// value belongs to the `t`-th key.
    pub fn values(&self) -> (r: Vec<u128>)
        requires
            self.inv(),
        ensures
            r@ == self.val_seq(),
            r@.len() == self@.len(),
            forall|t: int|
                0 <= t < r@.len() ==> self@.contains_key(self.key_seq()[t]) && self@[self.key_seq()[t]]
                    == #[trigger] r@[t],
    {
        let (ks, vs) = self.entries();
        vs
    }

    /// The keys and values of the live entries, both ordered by ascending
    /// key and aligned index by index.
    pub fn entries(&self) -> (r: (Vec<u128>, Vec<u128>))
        requires
            self.inv(),
        ensures
            r.0@ == self.key_seq(),
            r.1@ == self.val_seq(),
            sorted(r.0@),
            r.0@.len() == self@.len(),
            r.1@.len() == self@.len(),
            forall|t: int| 0 <= t < r.0@.len() ==> self@.contains_key(#[trigger] r.0@[t]),
            forall|k: u128| self@.contains_key(k) ==> r.0@.contains(k),
            forall|t: int|
                0 <= t < r.1@.len() ==> self@[self.key_seq()[t]] == #[trigger] r.1@[t],
    {
        let mut ks: Vec<u128> = Vec::new();
        let mut vs: Vec<u128> = Vec::new();
        match &self.root {
            None => {
                proof {
                    assert(ks@ =~= self.key_seq());
                    assert(vs@ =~= self.val_seq());
                }
            },
            Some(rt) => {
                collect_node(
                    rt,
                    &mut ks,
                    &mut vs,
                    Ghost(self.split_at as int),
                    Ghost(self.max_key_count as int),
                    Ghost(true),
                    Ghost(None),
                    Ghost(None),
                );
                proof {
                    lemma_wf_kv_sorted(
                        *rt,
                        self.split_at as int,
                        self.max_key_count as int,
                        true,
                        None,
                        None,
                    );
                    assert(ks@ =~= kv_keys(kvs(*rt)));
                    assert(vs@ =~= kv_vals(kvs(*rt)));
                    lemma_key_facts(kvs(*rt));
                }
            },
        }
        (ks, vs)
    }
}

/// Copy a key or value array.
fn copy_u128s(v: &Vec<u128>) -> (r: Vec<u128>)
    ensures
        r@ == v@,
{
    let mut out: Vec<u128> = Vec::new();
    let mut j: usize = 0;
    while j < v.len()
        invariant
            0 <= j <= v@.len(),
            out@ == v@.take(j as int),
        decreases v@.len() - j,
    {
        out.push(v[j]);
        proof {
            assert(out@ =~= v@.take(j + 1));
        }
        j = j + 1;
    }
    proof {
        assert(v@.take(v@.len() as int) =~= v@);
    }
    out
}

/// Copy a subtree, preserving its page number, direct key count and
/// content.
fn clone_node(n: &BTNode) -> (r: BTNode)
    ensures
        r.spec_page_nr() == n.spec_page_nr(),
        r.spec_len() == n.spec_len(),
        kvs(r) == kvs(*n),
    decreases n,
{
    match n {
        BTNode::Leaf(l) => {
            let r = BTNode::Leaf(
                Leaf {
                    page_nr: l.page_nr,
                    keys: copy_u128s(&l.keys),
                    entries: copy_u128s(&l.entries),
                    next: l.next,
                },
            );
            proof {
                assert(kvs(r) =~= kvs(*n));
            }
            r
        },
        BTNode::Internal(node) => {
            let mut children: Vec<BTNode> = Vec::new();
            let mut t: usize = 0;
            while t < node.children.len()
                invariant
                    0 <= t <= node.children@.len(),
                    *n == BTNode::Internal(*node),
                    children@.len() == t,
                    kvs_children(children@) == kvs_children(node.children@.take(t as int)),
                decreases node.children@.len() - t,
            {
                proof {
                    assert(t < node.children@.len());
                    assert((*n)->Internal_0 == *node);
                    assert(decreases_to!(*n => node.children@[t as int]));
                }
                let c = clone_node(&node.children[t]);
                proof {
                    let cs = node.children@;
                    assert(children@.push(c) =~= children@ + seq![c]);
                    crate::lemmas::lemma_kvs_children_add(children@, seq![c]);
                    assert(seq![c].drop_first() =~= Seq::<BTNode>::empty());
                    assert(kvs_children(seq![c].drop_first()) =~= Seq::<(u128, u128)>::empty());
                    assert(kvs_children(seq![c]) =~= kvs(c));
                    assert(cs.take(t + 1) =~= cs.take(t as int) + seq![cs[t as int]]);
                    crate::lemmas::lemma_kvs_children_add(cs.take(t as int), seq![cs[t as int]]);
                    assert(seq![cs[t as int]].drop_first() =~= Seq::<BTNode>::empty());
                    assert(kvs_children(seq![cs[t as int]].drop_first()) =~= Seq::<(
                        u128,
                        u128,
                    )>::empty());
                    assert(kvs_children(seq![cs[t as int]]) =~= kvs(cs[t as int]));
                    assert(kvs_children(children@.push(c)) == kvs_children(cs.take(t + 1)));
                }
                children.push(c);
                t = t + 1;
            }
            proof {
                assert(node.children@.take(node.children@.len() as int) =~= node.children@);
            }
            let r = BTNode::Internal(
                Internal { page_nr: node.page_nr, keys: copy_u128s(&node.keys), children },
            );
            proof {
                assert(kvs(r) == kvs(*n));
            }
            r
        },
    }
}

/// Write a subtree's pages into the paged image, each at its own page
/// offset.  The image's length never changes, and the write succeeds
/// exactly when every page number of the subtree lies within the image's
/// span.
fn write_tree(n: &BTNode, db: &mut Vec<u8>) -> (r: TreeResult<()>)
    requires
        crate::model::node_sizes_ok(*n),
        old(db)@.len() % 4096 == 0,
    ensures
        final(db)@.len() == old(db)@.len(),
        r is Ok <==> crate::model::pages_below(*n, old(db)@.len() as int / 4096),
        r is Ok ==> final(db)@ == crate::codec::spec_write_tree(*n, old(db)@),
    decreases n,
{
    let ghost npages_g = old(db)@.len() as int / 4096;
    let enc = crate::codec::encode_node(n);
    proof {
        crate::codec::lemma_enc_node_fits(*n);
    }
    let page_nr = n.page_nr();
    let npages = db.len() / 4096;
    if page_nr >= npages as u64 {
        proof {
            assert(crate::model::page_seq(*n)[0] == page_nr);
            assert(!crate::model::pages_below(*n, npages_g));
        }
        return Err(Error::Serde);
    }
    let start = (page_nr as usize) * 4096;
    proof {
        assert(db@.len() == 4096 * npages_g);
        assert(start + 4096 <= db@.len()) by (nonlinear_arith)
            requires
                start == (page_nr as int) * 4096,
                page_nr as int + 1 <= npages_g,
                db@.len() == 4096 * npages_g,
        ;
    }
    let mut j: usize = 0;
    while j < enc.len()
        invariant
            0 <= j <= enc@.len(),
            enc@.len() <= 4096,
            start + 4096 <= db@.len(),
            db@.len() <= usize::MAX,
            db@.len() == old(db)@.len(),
            enc@ == crate::codec::spec_enc_node(*n),
            start == (n.spec_page_nr() as int) * 4096,
            db@ == crate::codec::overwrite_at(old(db)@, start as int, enc@.take(j as int)),
        decreases enc@.len() - j,
    {
        db[start + j] = enc[j];
        proof {
            assert(db@ =~= crate::codec::overwrite_at(old(db)@, start as int, enc@.take(j + 1)));
        }
        j = j + 1;
    }
    proof {
        assert(enc@.take(enc@.len() as int) =~= enc@);
        assert(db@ == crate::codec::overwrite_at(
            old(db)@,
            (n.spec_page_nr() as int) * 4096,
            crate::codec::spec_enc_node(*n),
        ));
    }
    let ghost img1 = db@;
    match n {
        BTNode::Leaf(_) => {
            proof {
                assert(crate::model::page_seq(*n) =~= seq![page_nr]);
                assert(db@ == crate::codec::spec_write_tree(*n, old(db)@));
            }
            Ok(())
        },
        BTNode::Internal(node) => {
            let ghost cs = node.children@;
            let mut t: usize = 0;
            while t < node.children.len()
                invariant
                    0 <= t <= cs.len(),
                    cs == node.children@,
                    *n == BTNode::Internal(*node),
                    crate::model::node_sizes_ok(*n),
                    db@.len() == old(db)@.len(),
                    db@.len() % 4096 == 0,
                    npages_g == db@.len() as int / 4096,
                    (page_nr as int) < npages_g,
                    page_nr == n.spec_page_nr(),
                    db@ == crate::codec::spec_write_children(cs.take(t as int), img1),
                    forall|idx: int|
                        0 <= idx < crate::model::pages_children(cs.take(t as int)).len() ==> (
                        #[trigger] crate::model::pages_children(cs.take(t as int))[idx])
                            < npages_g,
                decreases cs.len() - t,
            {
                proof {
                    assert(t < node.children@.len());
                    assert((*n)->Internal_0 == *node);
                    assert(decreases_to!(*n => node.children@[t as int]));
                    assert(crate::model::node_sizes_ok(cs[t as int]));
                }
                match write_tree(&node.children[t], db) {
                    Ok(_) => {},
                    Err(e) => {
                        proof {
                            // a page of this child escapes the span, and it
                            // sits inside this node's page sequence
                            let cps = crate::model::page_seq(cs[t as int]);
                            let w = choose|idx: int|
                                0 <= idx < cps.len() && !((#[trigger] cps[idx]) < npages_g);
                            crate::lemmas::lemma_pages_children_split(cs, t as int);
                            let pre = crate::model::pages_children(cs.take(t as int));
                            let ps = crate::model::page_seq(*n);
                            assert(ps == seq![page_nr] + crate::model::pages_children(cs));
                            assert(ps[1 + pre.len() + w] == cps[w]);
                            assert(!crate::model::pages_below(*n, npages_g));
                        }
                        return Err(e);
                    },
                }
                proof {
                    assert(cs.take(t + 1) =~= cs.take(t as int) + seq![cs[t as int]]);
                    crate::lemmas::lemma_pages_children_add(cs.take(t as int), seq![cs[t as int]]);
                    assert(seq![cs[t as int]].drop_first() =~= Seq::<BTNode>::empty());
                    assert(crate::model::pages_children(seq![cs[t as int]].drop_first()) =~= Seq::<
                        u64,
                    >::empty());
                    assert(crate::model::pages_children(seq![cs[t as int]]) =~= crate::model::page_seq(
                        cs[t as int],
                    ));
                    crate::codec::lemma_write_children_snoc(cs, t as int, img1);
                }
                t = t + 1;
            }
            proof {
                assert(cs.take(cs.len() as int) =~= cs);
                let ps = crate::model::page_seq(*n);
                assert(ps == seq![page_nr] + crate::model::pages_children(cs));
                assert forall|idx: int| 0 <= idx < ps.len() implies (#[trigger] ps[idx])
                    < npages_g by {
                    if idx == 0 {
                        assert(ps[0] == page_nr);
                    } else {
                        assert(ps[idx] == crate::model::pages_children(cs)[idx - 1]);
                    }
                }
                assert(db@ == crate::codec::spec_write_tree(*n, old(db)@));
            }
            Ok(())
        },
    }
}

/// An envelope that decoded to fields other than a fresh empty tree's is
/// not the canonical empty envelope: the envelope is canonical, so the
/// decoded fields are the encoded ones.
proof fn lemma_no_empty_envelope(meta: Seq<u8>, md: crate::codec::MetaData)
    requires
        meta == crate::codec::spec_enc_meta(
            md.node_count,
            md.entry_count,
            md.root_page_nr,
            md.free_pages@,
            md.key_size,
            md.value_size,
            md.max_key_count,
            md.split_at,
        ),
    ensures
        forall|mm: crate::codec::MetaFields|
            #[trigger] crate::codec::is_enc_meta(meta, mm) ==> mm.node_count == md.node_count
                && mm.entry_count == md.entry_count && mm.root_page_nr == md.root_page_nr
                && mm.free_pages == md.free_pages@ && mm.key_size == md.key_size && mm.value_size
                == md.value_size && mm.max_key_count == md.max_key_count && mm.split_at
                == md.split_at,
{
    assert forall|mm: crate::codec::MetaFields|
        #[trigger] crate::codec::is_enc_meta(meta, mm) implies mm.node_count == md.node_count
        && mm.entry_count == md.entry_count && mm.root_page_nr == md.root_page_nr && mm.free_pages
        == md.free_pages@ && mm.key_size == md.key_size && mm.value_size == md.value_size
        && mm.max_key_count == md.max_key_count && mm.split_at == md.split_at by {
        vstd::std_specs::vec::axiom_spec_len(&md.free_pages);
        crate::codec::lemma_meta_canonical(
            md.node_count,
            md.entry_count,
            md.root_page_nr,
            md.free_pages@,
            md.key_size,
            md.value_size,
            md.max_key_count,
            md.split_at,
            mm,
        );
    }
}

/// A canonical envelope together with a root-leaf slot instantiates the
/// loader's per-page hypothesis: the decoded fields are the encoded ones,
/// so the root page, sizing, counters and free list all match the leaf's.
proof fn lemma_single_leaf_hyp(
    meta: Seq<u8>,
    db: Seq<u8>,
    md: crate::codec::MetaData,
    fuel: u64,
)
    requires
        fuel >= 1,
        meta == crate::codec::spec_enc_meta(
            md.node_count,
            md.entry_count,
            md.root_page_nr,
            md.free_pages@,
            md.key_size,
            md.value_size,
            md.max_key_count,
            md.split_at,
        ),
    ensures
        forall|mm: crate::codec::MetaFields, l: Leaf|
            #[trigger] crate::codec::single_leaf_stored(meta, db, mm, l)
                ==> crate::codec::leaf_image_at(
                db,
                md.root_page_nr,
                fuel,
                md.split_at as int,
                md.max_key_count as int,
                true,
                None,
                None,
                md.free_pages@,
                l,
            ) && md.node_count >= 1 && md.entry_count == l.keys@.len() && l.page_nr
                == md.root_page_nr,
{
    assert forall|mm: crate::codec::MetaFields, l: Leaf|
        #[trigger] crate::codec::single_leaf_stored(meta, db, mm, l)
            implies crate::codec::leaf_image_at(
        db,
        md.root_page_nr,
        fuel,
        md.split_at as int,
        md.max_key_count as int,
        true,
        None,
        None,
        md.free_pages@,
        l,
    ) && md.node_count >= 1 && md.entry_count == l.keys@.len() && l.page_nr
        == md.root_page_nr by {
        vstd::std_specs::vec::axiom_spec_len(&md.free_pages);
        crate::codec::lemma_meta_canonical(
            md.node_count,
            md.entry_count,
            md.root_page_nr,
            md.free_pages@,
            md.key_size,
            md.value_size,
            md.max_key_count,
            md.split_at,
            mm,
        );
    }
}

/// The facts the iteration contracts rest on: the key column of a sorted
/// pair sequence is strictly ascending, enumerates the map's domain
/// exactly, and aligns with the value column.
proof fn lemma_key_facts(s0: Seq<(u128, u128)>)
    requires
        kv_sorted(s0),
    ensures
        sorted(kv_keys(s0)),
        kv_map(s0).dom().finite(),
        kv_map(s0).len() == s0.len(),
        forall|t: int|
            0 <= t < s0.len() ==> kv_map(s0).dom().contains(#[trigger] kv_keys(s0)[t]),
        forall|k: u128| kv_map(s0).dom().contains(k) ==> kv_keys(s0).contains(k),
        forall|t: int|
            0 <= t < s0.len() ==> kv_map(s0)[kv_keys(s0)[t]] == #[trigger] kv_vals(s0)[t],
{
    lemma_kv_map_len(s0);
    assert forall|t: int| 0 <= t < s0.len() implies kv_map(s0).dom().contains(
        #[trigger] kv_keys(s0)[t],
    ) by {
        assert(s0[t].0 == kv_keys(s0)[t]);
        crate::lemmas::lemma_kv_map_contains(s0, s0[t].0);
    }
    assert forall|k: u128| kv_map(s0).dom().contains(k) implies kv_keys(s0).contains(k) by {
        crate::lemmas::lemma_kv_map_contains(s0, k);
        let u = choose|t: int| 0 <= t < s0.len() && (#[trigger] s0[t]).0 == k;
        assert(kv_keys(s0)[u] == k);
    }
    assert forall|t: int| 0 <= t < s0.len() implies kv_map(s0)[kv_keys(s0)[t]]
        == #[trigger] kv_vals(s0)[t] by {
        assert forall|j: int| 0 <= j < t implies (#[trigger] s0[j]).0 != s0[t].0 by {
            assert(s0[j].0 < s0[t].0);
        }
        crate::lemmas::lemma_kv_lookup_at(s0, s0[t].0, t);
        lemma_kv_map_lookup(s0, s0[t].0);
    }
}

/// Collect the keys and values of a subtree in ascending key order.
fn collect_node(
    n: &BTNode,
    keys_out: &mut Vec<u128>,
    vals_out: &mut Vec<u128>,
    sp: Ghost<int>,
    mkc: Ghost<int>,
    root: Ghost<bool>,
    lo: Ghost<Option<u128>>,
    hi: Ghost<Option<u128>>,
)
    requires
        wf(*n, sp@, mkc@, root@, lo@, hi@),
    ensures
        final(keys_out)@ == old(keys_out)@ + kv_keys(kvs(*n)),
        final(vals_out)@ == old(vals_out)@ + kv_vals(kvs(*n)),
    decreases n,
{
    match n {
        BTNode::Leaf(l) => {
            let ghost s = leaf_kvs(*l);
            let ghost k0 = keys_out@;
            let ghost v0 = vals_out@;
            let mut j: usize = 0;
            while j < l.keys.len()
                invariant
                    0 <= j <= l.keys@.len(),
                    l.keys@.len() == l.entries@.len(),
                    s == leaf_kvs(*l),
                    keys_out@ == k0 + kv_keys(s).take(j as int),
                    vals_out@ == v0 + kv_vals(s).take(j as int),
                decreases l.keys@.len() - j,
            {
                keys_out.push(l.keys[j]);
                vals_out.push(l.entries[j]);
                proof {
                    assert(kv_keys(s).take(j + 1) =~= kv_keys(s).take(j as int).push(
                        s[j as int].0,
                    ));
                    assert(kv_vals(s).take(j + 1) =~= kv_vals(s).take(j as int).push(
                        s[j as int].1,
                    ));
                    assert(keys_out@ =~= k0 + kv_keys(s).take(j + 1));
                    assert(vals_out@ =~= v0 + kv_vals(s).take(j + 1));
                }
                j = j + 1;
            }
            proof {
                assert(kv_keys(s).take(s.len() as int) =~= kv_keys(s));
                assert(kv_vals(s).take(s.len() as int) =~= kv_vals(s));
            }
        },
        BTNode::Internal(node) => {
            let ghost cs = node.children@;
            let ghost keys = node.keys@;
            let ghost k0 = keys_out@;
            let ghost v0 = vals_out@;
            let mut j: usize = 0;
            while j < node.children.len()
                invariant
                    0 <= j <= cs.len(),
                    cs == node.children@,
                    keys == node.keys@,
                    *n == BTNode::Internal(*node),
                    wf(BTNode::Internal(*node), sp@, mkc@, root@, lo@, hi@),
                    keys_out@ == k0 + kv_keys(kvs_children(cs.take(j as int))),
                    vals_out@ == v0 + kv_vals(kvs_children(cs.take(j as int))),
                decreases cs.len() - j,
            {
                proof {
                    assert(wf(
                        cs[j as int],
                        sp@,
                        mkc@,
                        false,
                        child_lo(keys, lo@, j as int),
                        child_hi(keys, hi@, j as int),
                    ));
                    assert(decreases_to!(*n => node.children@[j as int]));
                }
                collect_node(
                    &node.children[j],
                    keys_out,
                    vals_out,
                    sp,
                    mkc,
                    Ghost(false),
                    Ghost(child_lo(keys, lo@, j as int)),
                    Ghost(child_hi(keys, hi@, j as int)),
                );
                proof {
                    assert(cs.take(j + 1) =~= cs.take(j as int) + seq![cs[j as int]]);
                    crate::lemmas::lemma_kvs_children_add(cs.take(j as int), seq![cs[j as int]]);
                    assert(seq![cs[j as int]].drop_first() =~= Seq::<BTNode>::empty());
                    assert(kvs_children(seq![cs[j as int]].drop_first()) =~= Seq::<(
                        u128,
                        u128,
                    )>::empty());
                    assert(kvs_children(seq![cs[j as int]]) =~= kvs(cs[j as int]));
                    let a = kvs_children(cs.take(j as int));
                    let b = kvs(cs[j as int]);
                    assert(kvs_children(cs.take(j + 1)) == a + b);
                    assert(kv_keys(a + b) =~= kv_keys(a) + kv_keys(b));
                    assert(kv_vals(a + b) =~= kv_vals(a) + kv_vals(b));
                    assert(keys_out@ =~= k0 + kv_keys(kvs_children(cs.take(j + 1))));
                    assert(vals_out@ =~= v0 + kv_vals(kvs_children(cs.take(j + 1))));
                }
                j = j + 1;
            }
            proof {
                assert(cs.take(cs.len() as int) =~= cs);
            }
        },
    }
}

/// A fresh two-child root assembled from a root split is well formed and
/// holds the upserted content.
proof fn lemma_new_root(
    newroot: Internal,
    sk: u128,
    s0: Seq<(u128, u128)>,
    key: u128,
    value: u128,
    sp: int,
    mkc: int,
)
    requires
        params_ok(sp, mkc),
        newroot.keys@ == seq![sk],
        newroot.children@.len() == 2,
        kvs(newroot.children@[0]) + kvs(newroot.children@[1]) == kvs_insert(s0, key, value),
        wf(newroot.children@[0], sp, mkc, false, None, Some(sk)),
        wf(newroot.children@[1], sp, mkc, false, Some(sk), None),
        height(newroot.children@[1]) == height(newroot.children@[0]),
    ensures
        kvs(BTNode::Internal(newroot)) == kvs_insert(s0, key, value),
        wf(BTNode::Internal(newroot), sp, mkc, true, None, None),
{
    let csv = newroot.children@;
    assert(csv.drop_first() =~= seq![csv[1]]);
    assert(seq![csv[1]].drop_first() =~= Seq::<BTNode>::empty());
    assert(kvs_children(seq![csv[1]].drop_first()) =~= Seq::<(u128, u128)>::empty());
    assert(kvs_children(seq![csv[1]]) =~= kvs(csv[1]));
    assert(kvs_children(csv) =~= kvs(csv[0]) + kvs(csv[1]));
    assert forall|j: int| 0 <= j < csv.len() implies wf(
        #[trigger] csv[j],
        sp,
        mkc,
        false,
        child_lo(newroot.keys@, None, j),
        child_hi(newroot.keys@, None, j),
    ) by {
        assert(newroot.keys@[0] == sk);
        if j == 0 {
            assert(child_hi(newroot.keys@, None, 0) == Some(sk));
        } else {
            assert(child_lo(newroot.keys@, None, 1) == Some(sk));
            assert(child_hi(newroot.keys@, None, 1) == None::<u128>);
        }
    }
    assert(sorted(newroot.keys@));
}

/// Point lookup within a subtree, by descending along the routing keys.
fn node_get(
    n: &BTNode,
    key: u128,
    sp: Ghost<int>,
    mkc: Ghost<int>,
    root: Ghost<bool>,
    lo: Ghost<Option<u128>>,
    hi: Ghost<Option<u128>>,
) -> (r: Option<u128>)
    requires
        wf(*n, sp@, mkc@, root@, lo@, hi@),
    ensures
        r == kv_lookup(kvs(*n), key),
    decreases n,
{
    match n {
        BTNode::Leaf(l) => {
            let i = find_route(&l.keys, key);
            let ghost s = leaf_kvs(*l);
            if i > 0 && l.keys[i - 1] == key {
                proof {
                    assert forall|j: int| 0 <= j < i - 1 implies (#[trigger] s[j]).0 != key by {
                        assert(l.keys@[j] < l.keys@[i - 1]);
                    }
                    crate::lemmas::lemma_kv_lookup_at(s, key, i - 1);
                }
                Some(l.entries[i - 1])
            } else {
                proof {
                    assert forall|j: int| 0 <= j < s.len() implies (#[trigger] s[j]).0 != key by {
                        if j < i - 1 {
                            assert(l.keys@[j] < l.keys@[i - 1]);
                        } else if j >= i {
                            assert(l.keys@[j] > key);
                        }
                    }
                    crate::lemmas::lemma_kv_lookup_absent(s, key);
                }
                None
            }
        },
        BTNode::Internal(node) => {
            let i = find_route(&node.keys, key);
            proof {
                crate::set_op::lemma_route_localize(
                    *node,
                    key,
                    0,
                    i as int,
                    sp@,
                    mkc@,
                    root@,
                    lo@,
                    hi@,
                );
            }
            node_get(
                &node.children[i],
                key,
                sp,
                mkc,
                Ghost(false),
                Ghost(child_lo(node.keys@, lo@, i as int)),
                Ghost(child_hi(node.keys@, hi@, i as int)),
            )
        },
    }
}


/// Storing a value twice under one key: after the first upsert the map
/// carries the first value, so the second upsert is bound by its contract
/// to return it, and a lookup afterwards yields the second value.
pub proof fn lemma_overwrite_returns_prior(m0: Map<u128, u128>, k: u128, v1: u128, v2: u128)
    ensures
        m0.insert(k, v1).contains_key(k),
        m0.insert(k, v1)[k] == v1,
        m0.insert(k, v1).insert(k, v2).contains_key(k),
        m0.insert(k, v1).insert(k, v2)[k] == v2,
{
}

/// Every tree satisfying the public invariant is structurally sound: the
/// root subtree is well formed over the unbounded window under the tree's
/// own sizing parameters — occupancy bounds at every node, strictly
/// ascending keys, window containment of every subtree and uniform leaf
/// depth — and the entry counter equals the number of stored pairs.
pub proof fn lemma_structural_soundness(t: BTree)
    requires
        t.inv(),
    ensures
        params_ok(t.spec_split_threshold() as int, t.spec_max_key_count() as int),
        t@.dom().finite(),
        match t.spec_root() {
            Some(r) => wf(
                r,
                t.spec_split_threshold() as int,
                t.spec_max_key_count() as int,
                true,
                None,
                None,
            ) && t.spec_entry_count() == kvs(r).len() && t@.len() == kvs(r).len()
                && t.spec_root_page_nr() == r.spec_page_nr(),
            None => t@ == Map::<u128, u128>::empty() && t.spec_entry_count() == 0,
        },
{
    match t.spec_root() {
        Some(r) => {
            lemma_wf_kv_sorted(
                r,
                t.spec_split_threshold() as int,
                t.spec_max_key_count() as int,
                true,
                None,
                None,
            );
            lemma_kv_map_len(kvs(r));
        },
        None => {},
    }
}

/// A one-page tree's saved images satisfy the loader's success
/// hypothesis: flattening a tree whose root is a leaf yields exactly the
/// canonical envelope and a root slot holding the leaf's encoding, so
/// reopening them is owed to succeed with the same content.  The two page
/// premises — a live page counted and the root not on the reclaimed list —
/// hold of every run but are not part of the tree invariant.
pub proof fn lemma_saved_single_leaf_reloads(t: BTree)
    requires
        t.inv(),
        t.spec_pages_in_span(),
        match t.spec_root() {
            Some(r) => r is Leaf,
            None => false,
        },
        t.spec_node_count() >= 1,
        !t.spec_free_pages().contains(t.spec_root_page_nr()),
        t.spec_free_pages().len() <= 0xffff_ffff,
    ensures
        exists|mm: crate::codec::MetaFields, l: Leaf|
            #[trigger] crate::codec::single_leaf_stored(
                t.spec_meta_bytes(),
                t.spec_db_image(),
                mm,
                l,
            ) && t@ == kv_map(leaf_kvs(l)),
{
    let rt = t.spec_root()->Some_0;
    let l = rt->Leaf_0;
    let mm = crate::codec::MetaFields {
        node_count: t.pager.node_count,
        entry_count: t.entry_count,
        root_page_nr: t.root_page_nr,
        free_pages: t.pager.free_pages@,
        key_size: t.key_size,
        value_size: t.value_size,
        max_key_count: t.max_key_count,
        split_at: t.split_at,
    };
    let meta = t.spec_meta_bytes();
    let db = t.spec_db_image();
    let p = l.page_nr as int;
    let zeros = Seq::new((t.pager.allocated() * 4096) as nat, |i: int| 0u8);
    let enc = crate::codec::spec_enc_node(rt);
    // the image is the zeroed span with the leaf written at its slot
    assert(db == crate::codec::overwrite_at(zeros, p * 4096, enc));
    assert(db.len() == zeros.len());
    // the root page lies inside the span
    assert(crate::model::page_seq(rt) =~= seq![l.page_nr]);
    assert(crate::model::page_seq(rt)[0] == l.page_nr);
    assert(p < t.pager.allocated());
    assert((p + 1) * 4096 <= db.len()) by (nonlinear_arith)
        requires
            p + 1 <= t.pager.allocated(),
            db.len() == t.pager.allocated() * 4096,
    ;
    // the encoding fits its page and fills the slot's prefix
    crate::lemmas::lemma_wf_sizes_ok(
        rt,
        t.split_at as int,
        t.max_key_count as int,
        true,
        None,
        None,
    );
    crate::codec::lemma_enc_node_fits(rt);
    let slot = db.subrange(p * 4096, p * 4096 + 4096);
    assert(p * 4096 + 4096 <= db.len()) by (nonlinear_arith)
        requires
            p + 1 <= t.pager.allocated(),
            db.len() == t.pager.allocated() * 4096,
    ;
    assert(slot.subrange(0, enc.len() as int) =~= enc);
    assert(crate::codec::leaf_encoded_at(slot, l));
    assert(t.entry_count == leaf_kvs(l).len());
    assert(crate::codec::single_leaf_stored(meta, db, mm, l));
}

/// The metadata envelope determines the tree-global state: two trees whose
/// envelopes serialize to the same bytes agree on every persisted field,
/// so closing and reopening restores the counters, the root page, the free
/// list and the sizing exactly.
pub proof fn lemma_meta_determines_state(t1: BTree, t2: BTree)
    requires
        t1.inv(),
        t2.inv(),
        t1.spec_meta_bytes() == t2.spec_meta_bytes(),
    ensures
        t1.spec_node_count() == t2.spec_node_count(),
        t1.spec_entry_count() == t2.spec_entry_count(),
        t1.spec_root_page_nr() == t2.spec_root_page_nr(),
        t1.spec_free_pages() == t2.spec_free_pages(),
        t1.spec_max_key_count() == t2.spec_max_key_count(),
        t1.spec_split_threshold() == t2.spec_split_threshold(),
{
    vstd::std_specs::vec::axiom_spec_len(&t1.pager.free_pages);
    vstd::std_specs::vec::axiom_spec_len(&t2.pager.free_pages);
    crate::codec::lemma_meta_canonical(
        t2.pager.node_count,
        t2.entry_count,
        t2.root_page_nr,
        t2.pager.free_pages@,
        t2.key_size,
        t2.value_size,
        t2.max_key_count,
        t2.split_at,
        crate::codec::MetaFields {
            node_count: t1.pager.node_count,
            entry_count: t1.entry_count,
            root_page_nr: t1.root_page_nr,
            free_pages: t1.pager.free_pages@,
            key_size: t1.key_size,
            value_size: t1.value_size,
            max_key_count: t1.max_key_count,
            split_at: t1.split_at,
        },
    );
}

} // verus!
