//! The node and metadata codec: canonical binary images of pages and of
//! the metadata envelope.
//!
//! A page starts with a one-byte variant tag (`0` internal, `1` leaf),
//! then length-prefixed key and entry sequences — child page numbers for an
//! internal node, values and the optional successor page for a leaf.  All
//! integers are little-endian and length prefixes are eight bytes; the
//! store pads pages with zero bytes to the page boundary.  The loader
//! validates everything it reads: a tree it accepts satisfies the full
//! structural invariant.

use vstd::bytes::{
    spec_u128_to_le_bytes, spec_u64_from_le_bytes, spec_u64_to_le_bytes, u128_from_le_bytes,
    u128_to_le_bytes, u64_from_le_bytes, u64_to_le_bytes,
};
use vstd::prelude::*;
use vstd::slice::slice_subrange;

use crate::error::{Error, TreeResult};
use crate::model::{
    child_hi, child_lo, height, in_range, internal_min, kvs, kvs_children, leaf_kvs, leaf_min,
    lo_strict, page_seq, pages_children, params_ok, sorted, wf,
};
use crate::node::{BTNode, Internal, Leaf};

verus! {

/// The flattened little-endian bytes of a key sequence.
pub open spec fn cat_u128(xs: Seq<u128>) -> Seq<u8>
    decreases xs.len(),
{
    if xs.len() == 0 {
        Seq::empty()
    } else {
        spec_u128_to_le_bytes(xs[0]) + cat_u128(xs.drop_first())
    }
}

/// The flattened little-endian bytes of a page-number sequence.
pub open spec fn cat_u64(xs: Seq<u64>) -> Seq<u8>
    decreases xs.len(),
{
    if xs.len() == 0 {
        Seq::empty()
    } else {
        spec_u64_to_le_bytes(xs[0]) + cat_u64(xs.drop_first())
    }
}

/// The encoding of an optional page number: a tag byte, then the number.
pub open spec fn enc_opt_u64(x: Option<u64>) -> Seq<u8> {
    match x {
        None => seq![0u8],
        Some(p) => seq![1u8] + spec_u64_to_le_bytes(p),
    }
}

/// The page numbers of a node's children, in order.
pub open spec fn child_pages(cs: Seq<BTNode>) -> Seq<u64> {
    Seq::new(cs.len(), |j: int| cs[j].spec_page_nr())
}

/// The canonical body of a page: tag, keys, then entries — values and the
/// successor link for a leaf, child page numbers for an internal node.
pub open spec fn spec_enc_node(n: BTNode) -> Seq<u8> {
    match n {
        BTNode::Leaf(l) => seq![1u8] + spec_u64_to_le_bytes(l.keys@.len() as u64) + cat_u128(
            l.keys@,
        ) + spec_u64_to_le_bytes(l.entries@.len() as u64) + cat_u128(l.entries@) + enc_opt_u64(
            l.next,
        ),
        BTNode::Internal(nd) => seq![0u8] + spec_u64_to_le_bytes(nd.keys@.len() as u64) + cat_u128(
            nd.keys@,
        ) + spec_u64_to_le_bytes(nd.children@.len() as u64) + cat_u64(child_pages(nd.children@)),
    }
}

/// The image with `data` written at `start`, other bytes unchanged.
pub open spec fn overwrite_at(img: Seq<u8>, start: int, data: Seq<u8>) -> Seq<u8> {
    Seq::new(
        img.len(),
        |t: int|
            if start <= t < start + data.len() {
                data[t - start]
            } else {
                img[t]
            },
    )
}

/// The paged image after writing a subtree: the node's canonical body at
/// its own page offset, then each child subtree in order.
pub open spec fn spec_write_tree(n: BTNode, img: Seq<u8>) -> Seq<u8>
    decreases n,
{
    let img1 = overwrite_at(img, (n.spec_page_nr() as int) * 4096, spec_enc_node(n));
    match n {
        BTNode::Leaf(_) => img1,
        BTNode::Internal(nd) => spec_write_children(nd.children@, img1),
    }
}

/// The paged image after writing each subtree of a child sequence in order.
pub open spec fn spec_write_children(cs: Seq<BTNode>, img: Seq<u8>) -> Seq<u8>
    decreases cs,
{
    if cs.len() == 0 {
        img
    } else {
        spec_write_children(cs.drop_first(), spec_write_tree(cs[0], img))
    }
}

/// Writing one more child folds onto the image written so far.
pub proof fn lemma_write_children_snoc(cs: Seq<BTNode>, t: int, img: Seq<u8>)
    requires
        0 <= t < cs.len(),
    ensures
        spec_write_children(cs.take(t + 1), img) == spec_write_tree(
            cs[t],
            spec_write_children(cs.take(t), img),
        ),
    decreases t,
{
    if t == 0 {
        assert(cs.take(0) =~= Seq::<BTNode>::empty());
        assert(cs.take(1).drop_first() =~= Seq::<BTNode>::empty());
        assert(cs.take(1)[0] == cs[0]);
        assert(spec_write_children(cs.take(1), img) == spec_write_children(
            cs.take(1).drop_first(),
            spec_write_tree(cs[0], img),
        ));
    } else {
        let cs2 = cs.drop_first();
        let img2 = spec_write_tree(cs[0], img);
        lemma_write_children_snoc(cs2, t - 1, img2);
        assert(cs.take(t + 1)[0] == cs[0]);
        assert(cs.take(t + 1).drop_first() =~= cs2.take(t));
        assert(cs.take(t).drop_first() =~= cs2.take(t - 1));
        assert(cs.take(t)[0] == cs[0]);
        assert(cs2[t - 1] == cs[t]);
        assert(spec_write_children(cs.take(t + 1), img) == spec_write_children(cs2.take(t), img2));
        assert(spec_write_children(cs.take(t), img) == spec_write_children(cs2.take(t - 1), img2));
    }
}

/// Same-shaped subtrees have the same canonical encoding and write the
/// same pages into any image.
pub proof fn lemma_same_shape_write(a: BTNode, b: BTNode, img: Seq<u8>)
    requires
        crate::model::same_shape(a, b),
    ensures
        spec_enc_node(a) == spec_enc_node(b),
        spec_write_tree(a, img) == spec_write_tree(b, img),
    decreases a,
{
    match (a, b) {
        (BTNode::Leaf(_), BTNode::Leaf(_)) => {},
        (BTNode::Internal(na), BTNode::Internal(nb)) => {
            assert(child_pages(na.children@) =~= child_pages(nb.children@)) by {
                assert forall|j: int| 0 <= j < na.children@.len() implies child_pages(
                    na.children@,
                )[j] == child_pages(nb.children@)[j] by {
                    assert(crate::model::same_shape(na.children@[j], nb.children@[j]));
                }
            }
            let img1 = overwrite_at(img, (a.spec_page_nr() as int) * 4096, spec_enc_node(a));
            lemma_same_shape_write_children(na.children@, nb.children@, img1);
        },
        _ => {},
    }
}

/// Pointwise same-shaped child sequences fold to the same image.
proof fn lemma_same_shape_write_children(csa: Seq<BTNode>, csb: Seq<BTNode>, img: Seq<u8>)
    requires
        csa.len() == csb.len(),
        forall|j: int| 0 <= j < csa.len() ==> crate::model::same_shape(#[trigger] csa[j], csb[j]),
    ensures
        spec_write_children(csa, img) == spec_write_children(csb, img),
    decreases csa,
{
    if csa.len() == 0 {
    } else {
        lemma_same_shape_write(csa[0], csb[0], img);
        assert forall|j: int| 0 <= j < csa.drop_first().len() implies crate::model::same_shape(
            #[trigger] csa.drop_first()[j],
            csb.drop_first()[j],
        ) by {
            assert(csa.drop_first()[j] == csa[j + 1] && csb.drop_first()[j] == csb[j + 1]);
        }
        lemma_same_shape_write_children(
            csa.drop_first(),
            csb.drop_first(),
            spec_write_tree(csa[0], img),
        );
    }
}

/// The magic header marking a metadata envelope.
pub open spec fn magic_bytes() -> Seq<u8> {
    seq![37u8, 98u8, 112u8, 116u8, 114u8, 101u8, 101u8, 37u8]
}

/// The canonical metadata envelope: the magic string, counters, root page,
/// free list and sizing, all length-prefixed or fixed-width.
pub open spec fn spec_enc_meta(
    node_count: u64,
    entry_count: u64,
    root_page_nr: u64,
    free: Seq<u64>,
    key_size: u64,
    value_size: u64,
    mkc: u64,
    sp: u64,
) -> Seq<u8> {
    spec_u64_to_le_bytes(8) + magic_bytes() + spec_u64_to_le_bytes(node_count)
        + spec_u64_to_le_bytes(entry_count) + spec_u64_to_le_bytes(root_page_nr)
        + spec_u64_to_le_bytes(free.len() as u64) + cat_u64(free) + spec_u64_to_le_bytes(key_size)
        + spec_u64_to_le_bytes(value_size) + spec_u64_to_le_bytes(mkc) + spec_u64_to_le_bytes(sp)
}

/// Flattening distributes over concatenation of key sequences.
proof fn lemma_cat_u128_add(a: Seq<u128>, b: Seq<u128>)
    ensures
        cat_u128(a + b) == cat_u128(a) + cat_u128(b),
    decreases a.len(),
{
    if a.len() == 0 {
        assert(a + b =~= b);
        assert(cat_u128(a + b) =~= cat_u128(a) + cat_u128(b));
    } else {
        lemma_cat_u128_add(a.drop_first(), b);
        assert((a + b).drop_first() =~= a.drop_first() + b);
        assert((a + b)[0] == a[0]);
        assert(cat_u128(a + b) =~= cat_u128(a) + cat_u128(b));
    }
}

/// Flattening distributes over concatenation of page-number sequences.
proof fn lemma_cat_u64_add(a: Seq<u64>, b: Seq<u64>)
    ensures
        cat_u64(a + b) == cat_u64(a) + cat_u64(b),
    decreases a.len(),
{
    if a.len() == 0 {
        assert(a + b =~= b);
        assert(cat_u64(a + b) =~= cat_u64(a) + cat_u64(b));
    } else {
        lemma_cat_u64_add(a.drop_first(), b);
        assert((a + b).drop_first() =~= a.drop_first() + b);
        assert((a + b)[0] == a[0]);
        assert(cat_u64(a + b) =~= cat_u64(a) + cat_u64(b));
    }
}

/// Append the little-endian bytes of one 64-bit integer.
fn push_u64(out: &mut Vec<u8>, x: u64)
    ensures
        final(out)@ == old(out)@ + spec_u64_to_le_bytes(x),
{
    let mut b = u64_to_le_bytes(x);
    out.append(&mut b);
}

/// Append the little-endian bytes of one 128-bit integer.
fn push_u128(out: &mut Vec<u8>, x: u128)
    ensures
        final(out)@ == old(out)@ + spec_u128_to_le_bytes(x),
{
    let mut b = u128_to_le_bytes(x);
    out.append(&mut b);
}

/// Append the flattened bytes of a key array.
fn push_cat_u128(out: &mut Vec<u8>, xs: &Vec<u128>)
    ensures
        final(out)@ == old(out)@ + cat_u128(xs@),
{
    let ghost base = out@;
    let mut j: usize = 0;
    while j < xs.len()
        invariant
            0 <= j <= xs@.len(),
            out@ == base + cat_u128(xs@.take(j as int)),
        decreases xs@.len() - j,
    {
        push_u128(out, xs[j]);
        proof {
            assert(xs@.take(j + 1) =~= xs@.take(j as int) + seq![xs@[j as int]]);
            lemma_cat_u128_add(xs@.take(j as int), seq![xs@[j as int]]);
            assert(seq![xs@[j as int]].drop_first() =~= Seq::<u128>::empty());
            assert(cat_u128(seq![xs@[j as int]].drop_first()) =~= Seq::<u8>::empty());
            assert(cat_u128(seq![xs@[j as int]]) =~= spec_u128_to_le_bytes(xs@[j as int]));
            assert(out@ =~= base + cat_u128(xs@.take(j + 1)));
        }
        j = j + 1;
    }
    proof {
        assert(xs@.take(xs@.len() as int) =~= xs@);
    }
}

/// Append the flattened bytes of a page-number array.
fn push_cat_u64(out: &mut Vec<u8>, xs: &Vec<u64>)
    ensures
        final(out)@ == old(out)@ + cat_u64(xs@),
{
    let ghost base = out@;
    let mut j: usize = 0;
    while j < xs.len()
        invariant
            0 <= j <= xs@.len(),
            out@ == base + cat_u64(xs@.take(j as int)),
        decreases xs@.len() - j,
    {
        push_u64(out, xs[j]);
        proof {
            assert(xs@.take(j + 1) =~= xs@.take(j as int) + seq![xs@[j as int]]);
            lemma_cat_u64_add(xs@.take(j as int), seq![xs@[j as int]]);
            assert(seq![xs@[j as int]].drop_first() =~= Seq::<u64>::empty());
            assert(cat_u64(seq![xs@[j as int]].drop_first()) =~= Seq::<u8>::empty());
            assert(cat_u64(seq![xs@[j as int]]) =~= spec_u64_to_le_bytes(xs@[j as int]));
            assert(out@ =~= base + cat_u64(xs@.take(j + 1)));
        }
        j = j + 1;
    }
    proof {
        assert(xs@.take(xs@.len() as int) =~= xs@);
    }
}

/// The flattening of a key sequence is sixteen bytes per entry.
proof fn lemma_cat_u128_len(xs: Seq<u128>)
    ensures
        cat_u128(xs).len() == 16 * xs.len(),
    decreases xs.len(),
{
    vstd::bytes::lemma_auto_spec_u128_to_from_le_bytes();
    if xs.len() == 0 {
    } else {
        lemma_cat_u128_len(xs.drop_first());
    }
}

/// A node whose arrays respect the sizing bounds encodes within one page.
pub(crate) proof fn lemma_enc_node_fits(n: BTNode)
    requires
        crate::model::node_sizes_ok(n),
    ensures
        spec_enc_node(n).len() <= 4096,
{
    vstd::bytes::lemma_auto_spec_u64_to_from_le_bytes();
    match n {
        BTNode::Leaf(l) => {
            lemma_cat_u128_len(l.keys@);
            lemma_cat_u128_len(l.entries@);
            assert(enc_opt_u64(l.next).len() <= 9);
        },
        BTNode::Internal(nd) => {
            lemma_cat_u128_len(nd.keys@);
            lemma_cat_u64_len(child_pages(nd.children@));
        },
    }
}

/// Serialize a node into its canonical page body.
pub(crate) fn encode_node(n: &BTNode) -> (r: Vec<u8>)
    ensures
        r@ == spec_enc_node(*n),
{
    let mut out: Vec<u8> = Vec::new();
    match n {
        BTNode::Leaf(l) => {
            out.push(1u8);
            proof {
                assert(out@ =~= seq![1u8]);
            }
            push_u64(&mut out, l.keys.len() as u64);
            push_cat_u128(&mut out, &l.keys);
            push_u64(&mut out, l.entries.len() as u64);
            push_cat_u128(&mut out, &l.entries);
            match l.next {
                None => {
                    out.push(0u8);
                },
                Some(p) => {
                    out.push(1u8);
                    push_u64(&mut out, p);
                },
            }
            proof {
                assert(out@ =~= spec_enc_node(*n));
            }
        },
        BTNode::Internal(nd) => {
            out.push(0u8);
            proof {
                assert(out@ =~= seq![0u8]);
            }
            push_u64(&mut out, nd.keys.len() as u64);
            push_cat_u128(&mut out, &nd.keys);
            push_u64(&mut out, nd.children.len() as u64);
            // flatten the child page numbers
            let mut pages: Vec<u64> = Vec::new();
            let mut j: usize = 0;
            while j < nd.children.len()
                invariant
                    0 <= j <= nd.children@.len(),
                    pages@ == child_pages(nd.children@).take(j as int),
                decreases nd.children@.len() - j,
            {
                pages.push(nd.children[j].page_nr());
                proof {
                    assert(pages@ =~= child_pages(nd.children@).take(j + 1));
                }
                j = j + 1;
            }
            proof {
                assert(pages@ =~= child_pages(nd.children@));
            }
            push_cat_u64(&mut out, &pages);
            proof {
                assert(out@ =~= spec_enc_node(*n));
            }
        },
    }
    out
}

/// Serialize the metadata envelope into its canonical body.
pub(crate) fn encode_meta(
    node_count: u64,
    entry_count: u64,
    root_page_nr: u64,
    free: &Vec<u64>,
    key_size: u64,
    value_size: u64,
    mkc: u64,
    sp: u64,
) -> (r: Vec<u8>)
    ensures
        r@ == spec_enc_meta(
            node_count,
            entry_count,
            root_page_nr,
            free@,
            key_size,
            value_size,
            mkc,
            sp,
        ),
{
    let mut out: Vec<u8> = Vec::new();
    push_u64(&mut out, 8);
    out.push(37u8);
    out.push(98u8);
    out.push(112u8);
    out.push(116u8);
    out.push(114u8);
    out.push(101u8);
    out.push(101u8);
    out.push(37u8);
    proof {
        assert(out@ =~= spec_u64_to_le_bytes(8) + magic_bytes());
    }
    push_u64(&mut out, node_count);
    push_u64(&mut out, entry_count);
    push_u64(&mut out, root_page_nr);
    push_u64(&mut out, free.len() as u64);
    push_cat_u64(&mut out, free);
    push_u64(&mut out, key_size);
    push_u64(&mut out, value_size);
    push_u64(&mut out, mkc);
    push_u64(&mut out, sp);
    proof {
        assert(out@ =~= spec_enc_meta(
            node_count,
            entry_count,
            root_page_nr,
            free@,
            key_size,
            value_size,
            mkc,
            sp,
        ));
    }
    out
}

/// Read one little-endian 64-bit integer at `off`, advancing past it.
fn read_u64(b: &[u8], off: usize) -> (r: TreeResult<u64>)
    ensures
        r matches Ok(x) ==> off + 8 <= b@.len() && spec_u64_to_le_bytes(x) == b@.subrange(
            off as int,
            off + 8,
        ),
        r is Err ==> off + 8 > b@.len() && r == Err::<u64, Error>(Error::Serde),
{
    if off < b.len() && b.len() - off >= 8 {
        let s = slice_subrange(b, off, off + 8);
        let x = u64_from_le_bytes(s);
        proof {
            vstd::bytes::lemma_auto_spec_u64_to_from_le_bytes();
        }
        Ok(x)
    } else {
        Err(Error::Serde)
    }
}

/// Read one little-endian 128-bit integer at `off`.
fn read_u128(b: &[u8], off: usize) -> (r: TreeResult<u128>)
    ensures
        r matches Ok(x) ==> off + 16 <= b@.len() && spec_u128_to_le_bytes(x) == b@.subrange(
            off as int,
            off + 16,
        ),
        r is Err ==> off + 16 > b@.len() && r == Err::<u128, Error>(Error::Serde),
{
    if off < b.len() && b.len() - off >= 16 {
        let s = slice_subrange(b, off, off + 16);
        let x = u128_from_le_bytes(s);
        proof {
            vstd::bytes::lemma_auto_spec_u128_to_from_le_bytes();
        }
        Ok(x)
    } else {
        Err(Error::Serde)
    }
}

/// A byte region that holds each key's encoding at its slot is the
/// flattening of the key sequence.
proof fn lemma_cat_u128_pointwise(xs: Seq<u128>, b: Seq<u8>)
    requires
        b.len() == 16 * xs.len(),
        forall|t: int|
            0 <= t < xs.len() ==> spec_u128_to_le_bytes(#[trigger] xs[t]) == b.subrange(
                16 * t,
                16 * t + 16,
            ),
    ensures
        cat_u128(xs) == b,
    decreases xs.len(),
{
    vstd::bytes::lemma_auto_spec_u128_to_from_le_bytes();
    if xs.len() == 0 {
        assert(cat_u128(xs) =~= b);
    } else {
        let xs2 = xs.drop_first();
        let b2 = b.skip(16);
        assert forall|t: int| 0 <= t < xs2.len() implies spec_u128_to_le_bytes(#[trigger] xs2[t])
            == b2.subrange(16 * t, 16 * t + 16) by {
            assert(xs2[t] == xs[t + 1]);
            assert(b2.subrange(16 * t, 16 * t + 16) =~= b.subrange(16 * (t + 1), 16 * (t + 1) + 16));
        }
        lemma_cat_u128_pointwise(xs2, b2);
        assert(spec_u128_to_le_bytes(xs[0]) == b.subrange(0, 16));
        assert(cat_u128(xs) =~= b);
    }
}

/// Each key's encoding occupies its own slot of the flattening.
proof fn lemma_cat_u128_slot(xs: Seq<u128>, t: int)
    requires
        0 <= t < xs.len(),
    ensures
        cat_u128(xs).subrange(16 * t, 16 * t + 16) == spec_u128_to_le_bytes(xs[t]),
    decreases t,
{
    vstd::bytes::lemma_auto_spec_u128_to_from_le_bytes();
    lemma_cat_u128_len(xs);
    lemma_cat_u128_len(xs.drop_first());
    assert(cat_u128(xs) == spec_u128_to_le_bytes(xs[0]) + cat_u128(xs.drop_first()));
    assert(spec_u128_to_le_bytes(xs[0]).len() == 16);
    if t == 0 {
        assert(cat_u128(xs).subrange(0, 16) =~= spec_u128_to_le_bytes(xs[0]));
    } else {
        lemma_cat_u128_slot(xs.drop_first(), t - 1);
        assert(cat_u128(xs).subrange(16 * t, 16 * t + 16) =~= cat_u128(xs.drop_first()).subrange(
            16 * (t - 1),
            16 * (t - 1) + 16,
        ));
        assert(xs.drop_first()[t - 1] == xs[t]);
    }
}

/// The leaf page bytes the completeness claims speak of: the slice begins
/// with the canonical encoding of the given leaf.
pub open spec fn leaf_encoded_at(page: Seq<u8>, l: Leaf) -> bool {
    &&& l.keys@.len() == l.entries@.len()
    &&& l.keys@.len() <= 253
    &&& spec_enc_node(BTNode::Leaf(l)).len() <= page.len()
    &&& page.subrange(0, spec_enc_node(BTNode::Leaf(l)).len() as int) == spec_enc_node(
        BTNode::Leaf(l),
    )
}

/// The byte layout of an encoded leaf: its length and the slot each field
/// occupies.
proof fn lemma_enc_leaf_shape(l: Leaf, page: Seq<u8>)
    requires
        leaf_encoded_at(page, l),
    ensures
        page.len() >= 18 + 32 * l.keys@.len(),
        l.next is Some ==> page.len() >= 26 + 32 * l.keys@.len(),
        page[0] == 1u8,
        page.subrange(1, 9) == spec_u64_to_le_bytes(l.keys@.len() as u64),
        forall|t: int|
            0 <= t < l.keys@.len() ==> page.subrange(9 + 16 * t, 25 + 16 * t)
                == spec_u128_to_le_bytes(#[trigger] l.keys@[t]),
        page.subrange(
            9 + 16 * (l.keys@.len() as int),
            17 + 16 * (l.keys@.len() as int),
        ) == spec_u64_to_le_bytes(l.entries@.len() as u64),
        forall|t: int|
            0 <= t < l.entries@.len() ==> page.subrange(
                17 + 16 * (l.keys@.len() as int) + 16 * t,
                17 + 16 * (l.keys@.len() as int) + 16 * t + 16,
            ) == spec_u128_to_le_bytes(#[trigger] l.entries@[t]),
        page[17 + 32 * (l.keys@.len() as int)] == (match l.next {
            None => 0u8,
            Some(_) => 1u8,
        }),
        match l.next {
            None => true,
            Some(p) => page.subrange(
                18 + 32 * (l.keys@.len() as int),
                26 + 32 * (l.keys@.len() as int),
            ) == spec_u64_to_le_bytes(p),
        },
{
    vstd::bytes::lemma_auto_spec_u64_to_from_le_bytes();
    vstd::bytes::lemma_auto_spec_u128_to_from_le_bytes();
    lemma_cat_u128_len(l.keys@);
    lemma_cat_u128_len(l.entries@);
    let kl = l.keys@.len() as int;
    let e = spec_enc_node(BTNode::Leaf(l));
    assert(e.len() == 18 + 32 * kl + (match l.next {
        None => 0int,
        Some(_) => 8int,
    }));
    assert forall|i: int| 0 <= i < e.len() implies page[i] == e[i] by {
        assert(page.subrange(0, e.len() as int)[i] == page[i]);
    }
    assert(page[0] == e[0] && e[0] == 1u8);
    assert(page.subrange(1, 9) =~= spec_u64_to_le_bytes(l.keys@.len() as u64));
    assert forall|t: int| 0 <= t < kl implies page.subrange(9 + 16 * t, 25 + 16 * t)
        == spec_u128_to_le_bytes(#[trigger] l.keys@[t]) by {
        lemma_cat_u128_slot(l.keys@, t);
        assert(page.subrange(9 + 16 * t, 25 + 16 * t) =~= cat_u128(l.keys@).subrange(
            16 * t,
            16 * t + 16,
        ));
    }
    assert(page.subrange(9 + 16 * kl, 17 + 16 * kl) =~= spec_u64_to_le_bytes(
        l.entries@.len() as u64,
    ));
    assert forall|t: int| 0 <= t < kl implies page.subrange(
        17 + 16 * kl + 16 * t,
        17 + 16 * kl + 16 * t + 16,
    ) == spec_u128_to_le_bytes(#[trigger] l.entries@[t]) by {
        lemma_cat_u128_slot(l.entries@, t);
        assert(page.subrange(17 + 16 * kl + 16 * t, 17 + 16 * kl + 16 * t + 16) =~= cat_u128(
            l.entries@,
        ).subrange(16 * t, 16 * t + 16));
    }
    assert(page[17 + 32 * kl] == e[17 + 32 * kl]);
    match l.next {
        None => {},
        Some(p) => {
            assert(page.subrange(18 + 32 * kl, 26 + 32 * kl) =~= spec_u64_to_le_bytes(p));
        },
    }
}

/// A parsed page body, before validation and child resolution.
pub(crate) enum RawNode {
    RawLeaf { keys: Vec<u128>, entries: Vec<u128>, next: Option<u64> },
    RawInternal { keys: Vec<u128>, children: Vec<u64> },
}

/// The canonical encoding of a parsed page body: what the bytes must have
/// begun with for the parse to have produced it.
pub(crate) open spec fn spec_enc_raw(raw: RawNode) -> Seq<u8> {
    match raw {
        RawNode::RawLeaf { keys, entries, next } => seq![1u8] + spec_u64_to_le_bytes(
            keys@.len() as u64,
        ) + cat_u128(keys@) + spec_u64_to_le_bytes(entries@.len() as u64) + cat_u128(entries@)
            + enc_opt_u64(next),
        RawNode::RawInternal { keys, children } => seq![0u8] + spec_u64_to_le_bytes(
            keys@.len() as u64,
        ) + cat_u128(keys@) + spec_u64_to_le_bytes(children@.len() as u64) + cat_u64(children@),
    }
}

/// Parse one page body: tag, keys, then entries.  Counts above the largest
/// supported fan-out are rejected outright.  Anything parsed is sound: the
/// page begins with the canonical encoding of the parsed fields.  A
/// variant tag outside the two known values — and nothing else — is the
/// invalid-file-format error.
#[verifier::rlimit(100)]
pub(crate) fn decode_node(page: &[u8]) -> (r: TreeResult<RawNode>)
    ensures
        match r {
            Ok(raw) => spec_enc_raw(raw).len() <= page@.len() && page@.subrange(
                0,
                spec_enc_raw(raw).len() as int,
            ) == spec_enc_raw(raw),
            Err(_) => true,
        },
        r == Err::<RawNode, Error>(Error::InvalidFileFormat) <==> page@.len() >= 1 && page@[0]
            != 0 && page@[0] != 1,
        forall|l: Leaf| #[trigger] leaf_encoded_at(page@, l) ==> (match r {
            Ok(raw) => match raw {
                RawNode::RawLeaf { keys, entries, next } => keys@ == l.keys@ && entries@
                    == l.entries@ && next == l.next,
                RawNode::RawInternal { .. } => false,
            },
            Err(_) => false,
        }),
{
    if page.len() < 1 {
        proof {
            assert forall|l: Leaf| !(#[trigger] leaf_encoded_at(page@, l)) by {
                if leaf_encoded_at(page@, l) {
                    lemma_enc_leaf_shape(l, page@);
                }
            }
        }
        return Err(Error::Serde);
    }
    let tag = *vstd::slice::slice_index_get(page, 0);
    if tag != 0u8 && tag != 1u8 {
        proof {
            assert forall|l: Leaf| !(#[trigger] leaf_encoded_at(page@, l)) by {
                if leaf_encoded_at(page@, l) {
                    lemma_enc_leaf_shape(l, page@);
                }
            }
        }
        return Err(Error::InvalidFileFormat);
    }
    let klen64 = match read_u64(page, 1) {
        Ok(x) => x,
        Err(e) => {
            proof {
                assert forall|l: Leaf| !(#[trigger] leaf_encoded_at(page@, l)) by {
                    if leaf_encoded_at(page@, l) {
                        lemma_enc_leaf_shape(l, page@);
                    }
                }
            }
            return Err(e);
        },
    };
    if klen64 > 253 {
        proof {
            assert forall|l: Leaf| !(#[trigger] leaf_encoded_at(page@, l)) by {
                if leaf_encoded_at(page@, l) {
                    lemma_enc_leaf_shape(l, page@);
                    vstd::bytes::lemma_auto_spec_u64_to_from_le_bytes();
                    assert(klen64 == l.keys@.len() as u64);
                }
            }
        }
        return Err(Error::Serde);
    }
    let klen = klen64 as usize;
    let mut keys: Vec<u128> = Vec::new();
    let mut off: usize = 9;
    let mut j: usize = 0;
    while j < klen
        invariant
            off == 9 + 16 * j,
            j <= klen,
            klen <= 253,
            klen == klen64,
            keys@.len() == j,
            page@.len() >= 9 + 16 * j,
            page@[0] == tag,
            tag == 0 || tag == 1,
            spec_u64_to_le_bytes(klen64) == page@.subrange(1, 9),
            forall|t: int|
                0 <= t < j ==> spec_u128_to_le_bytes(#[trigger] keys@[t]) == page@.subrange(
                    9 + 16 * t,
                    25 + 16 * t,
                ),
        decreases klen - j,
    {
        let k = match read_u128(page, off) {
            Ok(x) => x,
            Err(e) => {
                proof {
                    assert forall|l: Leaf| !(#[trigger] leaf_encoded_at(page@, l)) by {
                        if leaf_encoded_at(page@, l) {
                            lemma_enc_leaf_shape(l, page@);
                            vstd::bytes::lemma_auto_spec_u64_to_from_le_bytes();
                            assert(klen64 == l.keys@.len() as u64);
                        }
                    }
                }
                return Err(e);
            },
        };
        keys.push(k);
        off = off + 16;
        j = j + 1;
    }
    let vlen64 = match read_u64(page, off) {
        Ok(x) => x,
        Err(e) => {
            proof {
                assert forall|l: Leaf| !(#[trigger] leaf_encoded_at(page@, l)) by {
                    if leaf_encoded_at(page@, l) {
                        lemma_enc_leaf_shape(l, page@);
                        vstd::bytes::lemma_auto_spec_u64_to_from_le_bytes();
                        assert(klen64 == l.keys@.len() as u64);
                    }
                }
            }
            return Err(e);
        },
    };
    if vlen64 > 254 {
        proof {
            assert forall|l: Leaf| !(#[trigger] leaf_encoded_at(page@, l)) by {
                if leaf_encoded_at(page@, l) {
                    lemma_enc_leaf_shape(l, page@);
                    vstd::bytes::lemma_auto_spec_u64_to_from_le_bytes();
                    assert(klen64 == l.keys@.len() as u64);
                    assert(vlen64 == l.entries@.len() as u64);
                }
            }
        }
        return Err(Error::Serde);
    }
    let vlen = vlen64 as usize;
    let base = off + 8;
    if tag == 1u8 {
        let mut entries: Vec<u128> = Vec::new();
        let mut j2: usize = 0;
        let mut off2 = base;
        while j2 < vlen
            invariant
                off2 == base + 16 * j2,
                j2 <= vlen,
                vlen <= 254,
                vlen == vlen64,
                base <= 9 + 16 * 253 + 8,
                base == 17 + 16 * (klen as int),
                klen == klen64,
                klen <= 253,
                keys@.len() == klen,
                entries@.len() == j2,
                page@.len() >= base + 16 * j2,
                page@[0] == tag,
                tag == 1,
                spec_u64_to_le_bytes(klen64) == page@.subrange(1, 9),
                spec_u64_to_le_bytes(vlen64) == page@.subrange(base - 8, base as int),
                forall|t: int|
                    0 <= t < klen ==> spec_u128_to_le_bytes(#[trigger] keys@[t]) == page@.subrange(
                        9 + 16 * t,
                        25 + 16 * t,
                    ),
                forall|t: int|
                    0 <= t < j2 ==> spec_u128_to_le_bytes(#[trigger] entries@[t])
                        == page@.subrange(base + 16 * t, base + 16 * t + 16),
            decreases vlen - j2,
        {
            let v = match read_u128(page, off2) {
                Ok(x) => x,
                Err(e) => {
                    proof {
                        assert forall|l: Leaf| !(#[trigger] leaf_encoded_at(page@, l)) by {
                            if leaf_encoded_at(page@, l) {
                                lemma_enc_leaf_shape(l, page@);
                                vstd::bytes::lemma_auto_spec_u64_to_from_le_bytes();
                                assert(klen64 == l.keys@.len() as u64);
                                assert(vlen64 == l.entries@.len() as u64);
                            }
                        }
                    }
                    return Err(e);
                },
            };
            entries.push(v);
            off2 = off2 + 16;
            j2 = j2 + 1;
        }
        if off2 >= page.len() {
            proof {
                assert forall|l: Leaf| !(#[trigger] leaf_encoded_at(page@, l)) by {
                    if leaf_encoded_at(page@, l) {
                        lemma_enc_leaf_shape(l, page@);
                        vstd::bytes::lemma_auto_spec_u64_to_from_le_bytes();
                        assert(klen64 == l.keys@.len() as u64);
                        assert(vlen64 == l.entries@.len() as u64);
                    }
                }
            }
            return Err(Error::Serde);
        }
        let nexttag = *vstd::slice::slice_index_get(page, off2);
        let next = match nexttag {
            0u8 => None,
            1u8 => Some(
                match read_u64(page, off2 + 1) {
                    Ok(x) => x,
                    Err(e) => {
                        proof {
                            assert forall|l: Leaf| !(#[trigger] leaf_encoded_at(page@, l)) by {
                                if leaf_encoded_at(page@, l) {
                                    lemma_enc_leaf_shape(l, page@);
                                    vstd::bytes::lemma_auto_spec_u64_to_from_le_bytes();
                                    assert(klen64 == l.keys@.len() as u64);
                                    assert(vlen64 == l.entries@.len() as u64);
                                    assert(page@[17 + 32 * (l.keys@.len() as int)] == 1u8);
                                    assert(l.next is Some);
                                }
                            }
                        }
                        return Err(e);
                    },
                },
            ),
            _ => {
                proof {
                    assert forall|l: Leaf| !(#[trigger] leaf_encoded_at(page@, l)) by {
                        if leaf_encoded_at(page@, l) {
                            lemma_enc_leaf_shape(l, page@);
                            vstd::bytes::lemma_auto_spec_u64_to_from_le_bytes();
                            assert(klen64 == l.keys@.len() as u64);
                            assert(vlen64 == l.entries@.len() as u64);
                            assert(page@[17 + 32 * (l.keys@.len() as int)] == 0u8 || page@[17 + 32
                                * (l.keys@.len() as int)] == 1u8);
                        }
                    }
                }
                return Err(Error::Serde);
            },
        };
        proof {
            let kb = page@.subrange(9, 9 + 16 * (keys@.len() as int));
            assert forall|t: int| 0 <= t < keys@.len() implies spec_u128_to_le_bytes(
                #[trigger] keys@[t],
            ) == kb.subrange(16 * t, 16 * t + 16) by {
                assert(kb.subrange(16 * t, 16 * t + 16) =~= page@.subrange(9 + 16 * t, 25 + 16 * t));
            }
            lemma_cat_u128_pointwise(keys@, kb);
            let eb = page@.subrange(base as int, base + 16 * (entries@.len() as int));
            assert forall|t: int| 0 <= t < entries@.len() implies spec_u128_to_le_bytes(
                #[trigger] entries@[t],
            ) == eb.subrange(16 * t, 16 * t + 16) by {
                assert(eb.subrange(16 * t, 16 * t + 16) =~= page@.subrange(
                    base + 16 * t,
                    base + 16 * t + 16,
                ));
            }
            lemma_cat_u128_pointwise(entries@, eb);
            vstd::bytes::lemma_auto_spec_u64_to_from_le_bytes();
            vstd::bytes::lemma_auto_spec_u128_to_from_le_bytes();
            let raw = RawNode::RawLeaf { keys, entries, next };
            let e = spec_enc_raw(raw);
            assert(e.len() <= page@.len());
            assert(page@.subrange(0, e.len() as int) =~= e);
            assert forall|l: Leaf| #[trigger] leaf_encoded_at(page@, l) implies keys@ == l.keys@
                && entries@ == l.entries@ && next == l.next by {
                lemma_enc_leaf_shape(l, page@);
                assert(klen64 == l.keys@.len() as u64);
                assert(vlen64 == l.entries@.len() as u64);
                assert forall|t: int| 0 <= t < keys@.len() implies keys@[t] == l.keys@[t] by {
                    assert(spec_u128_to_le_bytes(keys@[t]) == page@.subrange(
                        9 + 16 * t,
                        25 + 16 * t,
                    ));
                    assert(spec_u128_to_le_bytes(l.keys@[t]) == page@.subrange(
                        9 + 16 * t,
                        25 + 16 * t,
                    ));
                }
                assert(keys@ =~= l.keys@);
                assert forall|t: int| 0 <= t < entries@.len() implies entries@[t]
                    == l.entries@[t] by {
                    assert(spec_u128_to_le_bytes(entries@[t]) == page@.subrange(
                        base + 16 * t,
                        base + 16 * t + 16,
                    ));
                    assert(spec_u128_to_le_bytes(l.entries@[t]) == page@.subrange(
                        17 + 16 * (l.keys@.len() as int) + 16 * t,
                        17 + 16 * (l.keys@.len() as int) + 16 * t + 16,
                    ));
                }
                assert(entries@ =~= l.entries@);
                let nb = page@[17 + 32 * (l.keys@.len() as int)];
                match l.next {
                    None => {
                        assert(nb == 0u8);
                        assert(next is None);
                    },
                    Some(p) => {
                        assert(nb == 1u8);
                        assert(next is Some);
                        assert(spec_u64_to_le_bytes(next->0) == page@.subrange(
                            off2 + 1,
                            off2 + 9,
                        ));
                        assert(spec_u64_to_le_bytes(p) == page@.subrange(
                            18 + 32 * (l.keys@.len() as int),
                            26 + 32 * (l.keys@.len() as int),
                        ));
                    },
                }
            }
        }
        Ok(RawNode::RawLeaf { keys, entries, next })
    } else {
        proof {
            assert forall|l: Leaf| !(#[trigger] leaf_encoded_at(page@, l)) by {
                if leaf_encoded_at(page@, l) {
                    lemma_enc_leaf_shape(l, page@);
                }
            }
        }
        let mut children: Vec<u64> = Vec::new();
        let mut j2: usize = 0;
        let mut off2 = base;
        while j2 < vlen
            invariant
                forall|l: Leaf| !(#[trigger] leaf_encoded_at(page@, l)),
                off2 == base + 8 * j2,
                j2 <= vlen,
                vlen <= 254,
                vlen == vlen64,
                base <= 9 + 16 * 253 + 8,
                base == 17 + 16 * (klen as int),
                klen == klen64,
                klen <= 253,
                keys@.len() == klen,
                children@.len() == j2,
                page@.len() >= base + 8 * j2,
                page@[0] == tag,
                tag == 0,
                spec_u64_to_le_bytes(klen64) == page@.subrange(1, 9),
                spec_u64_to_le_bytes(vlen64) == page@.subrange(base - 8, base as int),
                forall|t: int|
                    0 <= t < klen ==> spec_u128_to_le_bytes(#[trigger] keys@[t]) == page@.subrange(
                        9 + 16 * t,
                        25 + 16 * t,
                    ),
                forall|t: int|
                    0 <= t < j2 ==> spec_u64_to_le_bytes(#[trigger] children@[t])
                        == page@.subrange(base + 8 * t, base + 8 * t + 8),
            decreases vlen - j2,
        {
            let c = read_u64(page, off2)?;
            children.push(c);
            off2 = off2 + 8;
            j2 = j2 + 1;
        }
        proof {
            let kb = page@.subrange(9, 9 + 16 * (keys@.len() as int));
            assert forall|t: int| 0 <= t < keys@.len() implies spec_u128_to_le_bytes(
                #[trigger] keys@[t],
            ) == kb.subrange(16 * t, 16 * t + 16) by {
                assert(kb.subrange(16 * t, 16 * t + 16) =~= page@.subrange(9 + 16 * t, 25 + 16 * t));
            }
            lemma_cat_u128_pointwise(keys@, kb);
            let cb = page@.subrange(base as int, base + 8 * (children@.len() as int));
            assert forall|t: int| 0 <= t < children@.len() implies spec_u64_to_le_bytes(
                #[trigger] children@[t],
            ) == cb.subrange(8 * t, 8 * t + 8) by {
                assert(cb.subrange(8 * t, 8 * t + 8) =~= page@.subrange(
                    base + 8 * t,
                    base + 8 * t + 8,
                ));
            }
            lemma_cat_u64_pointwise(children@, cb);
            vstd::bytes::lemma_auto_spec_u64_to_from_le_bytes();
            let raw = RawNode::RawInternal { keys, children };
            let e = spec_enc_raw(raw);
            assert(e.len() <= page@.len());
            assert(page@.subrange(0, e.len() as int) =~= e);
        }
        Ok(RawNode::RawInternal { keys, children })
    }
}

/// The minimum occupancy of a non-root leaf, executably.
fn leaf_min_exec(sp: u64, mkc: u64) -> (r: u64)
    requires
        params_ok(sp as int, mkc as int),
    ensures
        r as int == leaf_min(sp as int, mkc as int),
{
    if mkc == 3 {
        0
    } else {
        sp - 1
    }
}

/// The minimum occupancy of a non-root internal node, executably.
fn internal_min_exec(sp: u64, mkc: u64) -> (r: u64)
    requires
        params_ok(sp as int, mkc as int),
    ensures
        r as int == internal_min(sp as int, mkc as int),
{
    if mkc == 3 {
        0
    } else if 2 * sp == mkc {
        sp - 1
    } else {
        sp - 2
    }
}

/// Validate a parsed key array against its window and occupancy bounds.
/// `strict` demands keys strictly above the lower bound, as internal
/// routing keys must be.
fn check_keys(
    keys: &Vec<u128>,
    lo: Option<u128>,
    hi: Option<u128>,
    strict: bool,
) -> (r: bool)
    ensures
        r ==> sorted(keys@) && (forall|j: int|
            0 <= j < keys@.len() ==> in_range(lo, hi, #[trigger] keys@[j])) && (strict
            ==> forall|j: int| 0 <= j < keys@.len() ==> lo_strict(lo, #[trigger] keys@[j])),
        sorted(keys@) && (forall|j: int|
            0 <= j < keys@.len() ==> in_range(lo, hi, #[trigger] keys@[j])) && (strict
            ==> forall|j: int| 0 <= j < keys@.len() ==> lo_strict(lo, #[trigger] keys@[j])) ==> r,
{
    let mut j: usize = 0;
    while j < keys.len()
        invariant
            0 <= j <= keys@.len(),
            forall|t: int| 0 <= t < j - 1 ==> #[trigger] keys@[t] < keys@[t + 1],
            forall|t: int| 0 <= t < j ==> in_range(lo, hi, #[trigger] keys@[t]),
            strict ==> forall|t: int| 0 <= t < j ==> lo_strict(lo, #[trigger] keys@[t]),
        decreases keys@.len() - j,
    {
        let k = keys[j];
        if j > 0 && keys[j - 1] >= k {
            proof {
                assert(!sorted(keys@)) by {
                    if sorted(keys@) {
                        assert(keys@[j - 1] < keys@[j as int]);
                    }
                }
            }
            return false;
        }
        let lo_fine = match lo {
            None => true,
            Some(b) => if strict {
                b < k
            } else {
                b <= k
            },
        };
        if !lo_fine {
            proof {
                assert(!in_range(lo, hi, keys@[j as int]) || (strict && !lo_strict(
                    lo,
                    keys@[j as int],
                )));
            }
            return false;
        }
        let hi_fine = match hi {
            None => true,
            Some(b) => k < b,
        };
        if !hi_fine {
            proof {
                assert(!in_range(lo, hi, keys@[j as int]));
            }
            return false;
        }
        j = j + 1;
    }
    proof {
        crate::lemmas::lemma_adjacent_sorted(keys@);
    }
    true
}

/// Whether a page number appears in the reclaimed-page list.
fn contains_page(v: &Vec<u64>, x: u64) -> (r: bool)
    ensures
        r == v@.contains(x),
{
    let mut j: usize = 0;
    while j < v.len()
        invariant
            0 <= j <= v@.len(),
            forall|t: int| 0 <= t < j ==> v@[t] != x,
        decreases v@.len() - j,
    {
        if v[j] == x {
            proof {
                assert(v@[j as int] == x);
            }
            return true;
        }
        j = j + 1;
    }
    proof {
        if v@.contains(x) {
            let u = choose|t: int| 0 <= t < v@.len() && v@[t] == x;
            assert(v@[u] != x);
        }
    }
    false
}

/// A pair of images holding exactly one well-formed root leaf: a canonical
/// envelope whose counters and sizing fit the leaf, and a paged image
/// whose root slot begins with the leaf's canonical encoding.  This is
/// what a clean shutdown of a one-page tree writes.
pub open spec fn single_leaf_stored(meta: Seq<u8>, db: Seq<u8>, mm: MetaFields, l: Leaf) -> bool {
    &&& is_enc_meta(meta, mm)
    &&& mm.key_size == 16
    &&& mm.value_size == 16
    &&& 3 <= mm.max_key_count <= 126
    &&& mm.split_at as int == crate::model::spec_split_at(mm.max_key_count as int)
    &&& mm.node_count >= 1
    &&& mm.entry_count == l.keys@.len()
    &&& mm.entry_count <= usize::MAX
    &&& mm.root_page_nr == l.page_nr
    &&& ((l.page_nr as int) + 1) * 4096 <= db.len()
    &&& leaf_encoded_at(db.subrange((l.page_nr as int) * 4096, (l.page_nr as int) * 4096 + 4096), l)
    &&& !mm.free_pages.contains(l.page_nr)
    &&& wf(BTNode::Leaf(l), mm.split_at as int, mm.max_key_count as int, true, None, None)
}

/// The hypothesis under which the loader owes success on a single page: a
/// slot inside the image that begins with the canonical encoding of a
/// well-formed leaf on that very page, not on the reclaimed list.
pub(crate) open spec fn leaf_image_at(
    db: Seq<u8>,
    page_nr: u64,
    fuel: u64,
    sp: int,
    mkc: int,
    is_root: bool,
    lo: Option<u128>,
    hi: Option<u128>,
    free: Seq<u64>,
    l: Leaf,
) -> bool {
    &&& fuel >= 1
    &&& ((page_nr as int) + 1) * 4096 <= db.len()
    &&& leaf_encoded_at(db.subrange((page_nr as int) * 4096, (page_nr as int) * 4096 + 4096), l)
    &&& l.page_nr == page_nr
    &&& !free.contains(page_nr)
    &&& wf(BTNode::Leaf(l), sp, mkc, is_root, lo, hi)
}

/// Rebuild and validate the subtree on page `page_nr` of the paged image.
/// Anything accepted is well formed in its window, at the returned height,
/// holding the returned number of entries, and occupying no page of the
/// reclaimed-page list.  On a slot holding a well-formed leaf of this very
/// window, success is owed: the loader accepts it and returns its data.
pub(crate) fn build_node(
    db: &[u8],
    page_nr: u64,
    fuel: u64,
    sp: u64,
    mkc: u64,
    is_root: bool,
    lo: Option<u128>,
    hi: Option<u128>,
    free: &Vec<u64>,
) -> (r: TreeResult<(BTNode, u64, u64)>)
    requires
        params_ok(sp as int, mkc as int),
    ensures
        match r {
            Ok((n, h, e)) => {
                &&& wf(n, sp as int, mkc as int, is_root, lo, hi)
                &&& h == height(n)
                &&& e == kvs(n).len()
                &&& n.spec_page_nr() == page_nr
                &&& forall|t: int|
                    0 <= t < page_seq(n).len() ==> !free@.contains(#[trigger] page_seq(n)[t])
            },
            Err(_) => true,
        },
        forall|l: Leaf|
            #[trigger] leaf_image_at(
                db@,
                page_nr,
                fuel,
                sp as int,
                mkc as int,
                is_root,
                lo,
                hi,
                free@,
                l,
            ) ==> (match r {
                Ok((n, _, _)) => crate::model::same_shape(n, BTNode::Leaf(l)),
                Err(_) => false,
            }),
    decreases fuel,
{
    if fuel == 0 {
        proof {
            assert(forall|l: Leaf|
                !(#[trigger] leaf_image_at(
                    db@,
                    page_nr,
                    fuel,
                    sp as int,
                    mkc as int,
                    is_root,
                    lo,
                    hi,
                    free@,
                    l,
                )));
        }
        return Err(Error::Serde);
    }
    let npages = db.len() / 4096;
    if page_nr >= npages as u64 {
        proof {
            assert forall|l: Leaf|
                !(#[trigger] leaf_image_at(
                    db@,
                    page_nr,
                    fuel,
                    sp as int,
                    mkc as int,
                    is_root,
                    lo,
                    hi,
                    free@,
                    l,
                )) by {
                assert(((page_nr as int) + 1) * 4096 <= db@.len() ==> (page_nr as int) < db@.len()
                    as int / 4096) by (nonlinear_arith);
            }
        }
        return Err(Error::Serde);
    }
    let start = (page_nr as usize) * 4096;
    proof {
        assert(start + 4096 <= db@.len());
    }
    if contains_page(free, page_nr) {
        proof {
            assert(forall|l: Leaf|
                !(#[trigger] leaf_image_at(
                    db@,
                    page_nr,
                    fuel,
                    sp as int,
                    mkc as int,
                    is_root,
                    lo,
                    hi,
                    free@,
                    l,
                )));
        }
        return Err(Error::InvalidFileFormat);
    }
    let page = slice_subrange(db, start, start + 4096);
    proof {
        assert(page@ == db@.subrange((page_nr as int) * 4096, (page_nr as int) * 4096 + 4096));
    }
    let raw = match decode_node(page) {
        Ok(x) => x,
        Err(e) => {
            proof {
                assert forall|l: Leaf|
                    !(#[trigger] leaf_image_at(
                        db@,
                        page_nr,
                        fuel,
                        sp as int,
                        mkc as int,
                        is_root,
                        lo,
                        hi,
                        free@,
                        l,
                    )) by {
                    if leaf_image_at(
                        db@,
                        page_nr,
                        fuel,
                        sp as int,
                        mkc as int,
                        is_root,
                        lo,
                        hi,
                        free@,
                        l,
                    ) {
                        assert(leaf_encoded_at(page@, l));
                    }
                }
            }
            return Err(e);
        },
    };
    match raw {
        RawNode::RawLeaf { keys, entries, next } => {
            if keys.len() != entries.len() {
            proof {
                assert forall|l: Leaf|
                    !(#[trigger] leaf_image_at(
                        db@,
                        page_nr,
                        fuel,
                        sp as int,
                        mkc as int,
                        is_root,
                        lo,
                        hi,
                        free@,
                        l,
                    )) by {
                    if leaf_image_at(
                        db@,
                        page_nr,
                        fuel,
                        sp as int,
                        mkc as int,
                        is_root,
                        lo,
                        hi,
                        free@,
                        l,
                    ) {
                        assert(leaf_encoded_at(page@, l));
                        assert(keys@ == l.keys@ && entries@ == l.entries@ && next == l.next);
                    }
                }
            }
                return Err(Error::Serde);
            }
            if keys.len() > mkc as usize {
            proof {
                assert forall|l: Leaf|
                    !(#[trigger] leaf_image_at(
                        db@,
                        page_nr,
                        fuel,
                        sp as int,
                        mkc as int,
                        is_root,
                        lo,
                        hi,
                        free@,
                        l,
                    )) by {
                    if leaf_image_at(
                        db@,
                        page_nr,
                        fuel,
                        sp as int,
                        mkc as int,
                        is_root,
                        lo,
                        hi,
                        free@,
                        l,
                    ) {
                        assert(leaf_encoded_at(page@, l));
                        assert(keys@ == l.keys@ && entries@ == l.entries@ && next == l.next);
                    }
                }
            }
                return Err(Error::Serde);
            }
            if !is_root && keys.len() < leaf_min_exec(sp, mkc) as usize {
            proof {
                assert forall|l: Leaf|
                    !(#[trigger] leaf_image_at(
                        db@,
                        page_nr,
                        fuel,
                        sp as int,
                        mkc as int,
                        is_root,
                        lo,
                        hi,
                        free@,
                        l,
                    )) by {
                    if leaf_image_at(
                        db@,
                        page_nr,
                        fuel,
                        sp as int,
                        mkc as int,
                        is_root,
                        lo,
                        hi,
                        free@,
                        l,
                    ) {
                        assert(leaf_encoded_at(page@, l));
                        assert(keys@ == l.keys@ && entries@ == l.entries@ && next == l.next);
                    }
                }
            }
                return Err(Error::Serde);
            }
            if !check_keys(&keys, lo, hi, false) {
            proof {
                assert forall|l: Leaf|
                    !(#[trigger] leaf_image_at(
                        db@,
                        page_nr,
                        fuel,
                        sp as int,
                        mkc as int,
                        is_root,
                        lo,
                        hi,
                        free@,
                        l,
                    )) by {
                    if leaf_image_at(
                        db@,
                        page_nr,
                        fuel,
                        sp as int,
                        mkc as int,
                        is_root,
                        lo,
                        hi,
                        free@,
                        l,
                    ) {
                        assert(leaf_encoded_at(page@, l));
                        assert(keys@ == l.keys@ && entries@ == l.entries@ && next == l.next);
                    }
                }
            }
                return Err(Error::Serde);
            }
            let e = keys.len() as u64;
            let l = Leaf { page_nr, keys, entries, next };
            proof {
                assert(leaf_kvs(l).len() == l.keys@.len());
                assert(page_seq(BTNode::Leaf(l)) =~= seq![page_nr]);
                assert forall|l2: Leaf|
                    #[trigger] leaf_image_at(
                        db@,
                        page_nr,
                        fuel,
                        sp as int,
                        mkc as int,
                        is_root,
                        lo,
                        hi,
                        free@,
                        l2,
                    ) implies crate::model::same_shape(BTNode::Leaf(l), BTNode::Leaf(l2)) by {
                    assert(leaf_encoded_at(page@, l2));
                    assert(l.keys@ == l2.keys@ && l.entries@ == l2.entries@ && l.next == l2.next);
                }
            }
            Ok((BTNode::Leaf(l), 0, e))
        },
        RawNode::RawInternal { keys, children } => {
            proof {
                assert forall|l: Leaf|
                    !(#[trigger] leaf_image_at(
                        db@,
                        page_nr,
                        fuel,
                        sp as int,
                        mkc as int,
                        is_root,
                        lo,
                        hi,
                        free@,
                        l,
                    )) by {
                    if leaf_image_at(
                        db@,
                        page_nr,
                        fuel,
                        sp as int,
                        mkc as int,
                        is_root,
                        lo,
                        hi,
                        free@,
                        l,
                    ) {
                        assert(leaf_encoded_at(page@, l));
                    }
                }
            }
            if keys.len() > 253 {
                return Err(Error::Serde);
            }
            if children.len() != keys.len() + 1 {
                return Err(Error::Serde);
            }
            if keys.len() > 2 * sp as usize {
                return Err(Error::Serde);
            }
            if is_root && keys.len() < 1 {
                return Err(Error::Serde);
            }
            if !is_root && keys.len() < internal_min_exec(sp, mkc) as usize {
                return Err(Error::Serde);
            }
            if !check_keys(&keys, lo, hi, true) {
                return Err(Error::Serde);
            }
            let mut built: Vec<BTNode> = Vec::new();
            let mut count: u64 = 0;
            let mut hfirst: u64 = 0;
            let mut j: usize = 0;
            while j < children.len()
                invariant
                    params_ok(sp as int, mkc as int),
                    fuel >= 1,
                    forall|l: Leaf|
                        !(#[trigger] leaf_image_at(
                            db@,
                            page_nr,
                            fuel,
                            sp as int,
                            mkc as int,
                            is_root,
                            lo,
                            hi,
                            free@,
                            l,
                        )),
                    0 <= j <= children@.len(),
                    children@.len() == keys@.len() + 1,
                    built@.len() == j,
                    forall|t: int|
                        0 <= t < j ==> wf(
                            #[trigger] built@[t],
                            sp as int,
                            mkc as int,
                            false,
                            child_lo(keys@, lo, t),
                            child_hi(keys@, hi, t),
                        ),
                    forall|t: int| 0 <= t < j ==> height(#[trigger] built@[t]) == hfirst,
                    count == kvs_children(built@).len(),
                    forall|t: int|
                        0 <= t < pages_children(built@).len() ==> !free@.contains(
                            #[trigger] pages_children(built@)[t],
                        ),
                decreases children@.len() - j,
            {
                let clo = if j == 0 {
                    lo
                } else {
                    Some(keys[j - 1])
                };
                let chi = if j == keys.len() {
                    hi
                } else {
                    Some(keys[j])
                };
                let (child, h, e) = build_node(
                    db,
                    children[j],
                    fuel - 1,
                    sp,
                    mkc,
                    false,
                    clo,
                    chi,
                    free,
                )?;
                if j == 0 {
                    hfirst = h;
                } else {
                    if h != hfirst {
                        return Err(Error::Serde);
                    }
                }
                if count > u64::MAX - e {
                    return Err(Error::Serde);
                }
                proof {
                    assert(clo == child_lo(keys@, lo, j as int));
                    assert(chi == child_hi(keys@, hi, j as int));
                    assert(built@.push(child).drop_last() =~= built@);
                    lemma_cat_push_kvs(built@, child);
                    lemma_pages_push(built@, child);
                }
                count = count + e;
                built.push(child);
                j = j + 1;
            }
            let node = Internal { page_nr, keys, children: built };
            let h0 = hfirst;
            if h0 == u64::MAX {
                return Err(Error::Serde);
            }
            proof {
                assert(node.children@.len() > 0);
                assert(height(node.children@[0]) == hfirst);
                assert(height(BTNode::Internal(node)) == 1 + hfirst);
                assert(kvs(BTNode::Internal(node)) == kvs_children(node.children@));
                let ps = page_seq(BTNode::Internal(node));
                assert(ps == seq![page_nr] + pages_children(node.children@));
                assert forall|t: int| 0 <= t < ps.len() implies !free@.contains(
                    #[trigger] ps[t],
                ) by {
                    if t == 0 {
                        assert(ps[0] == page_nr);
                    } else {
                        assert(ps[t] == pages_children(node.children@)[t - 1]);
                    }
                }
            }
            Ok((BTNode::Internal(node), h0 + 1, count))
        },
    }
}

/// Appending one subtree extends the concatenated page numbers by its own.
proof fn lemma_pages_push(cs: Seq<BTNode>, c: BTNode)
    ensures
        pages_children(cs.push(c)) == pages_children(cs) + page_seq(c),
{
    assert(cs.push(c) =~= cs + seq![c]);
    crate::lemmas::lemma_pages_children_add(cs, seq![c]);
    assert(seq![c].drop_first() =~= Seq::<BTNode>::empty());
    assert(pages_children(seq![c].drop_first()) =~= Seq::<u64>::empty());
    assert(pages_children(seq![c]) =~= page_seq(c));
}

/// Appending one subtree extends the concatenated content by its own.
proof fn lemma_cat_push_kvs(cs: Seq<BTNode>, c: BTNode)
    ensures
        kvs_children(cs.push(c)) == kvs_children(cs) + kvs(c),
{
    assert(cs.push(c) =~= cs + seq![c]);
    crate::lemmas::lemma_kvs_children_add(cs, seq![c]);
    assert(seq![c].drop_first() =~= Seq::<BTNode>::empty());
    assert(kvs_children(seq![c].drop_first()) =~= Seq::<(u128, u128)>::empty());
    assert(kvs_children(seq![c]) =~= kvs(c));
}

/// The parsed metadata envelope.
pub struct MetaData {
    pub node_count: u64,
    pub entry_count: u64,
    pub root_page_nr: u64,
    pub free_pages: Vec<u64>,
    pub key_size: u64,
    pub value_size: u64,
    pub max_key_count: u64,
    pub split_at: u64,
}

/// Parse and validate a metadata envelope.  Anything accepted re-encodes
/// to exactly the input bytes — the envelope is canonical — and every
/// canonical envelope with a representable free list is accepted.
#[verifier::rlimit(100)]
pub(crate) fn decode_meta(b: &[u8]) -> (r: TreeResult<MetaData>)
    ensures
        match r {
            Ok(m) => b@ == spec_enc_meta(
                m.node_count,
                m.entry_count,
                m.root_page_nr,
                m.free_pages@,
                m.key_size,
                m.value_size,
                m.max_key_count,
                m.split_at,
            ),
            Err(_) => true,
        },
        forall|m: MetaFields| #[trigger] is_enc_meta(b@, m) ==> r is Ok,
{
    let mlen = match read_u64(b, 0) {
        Ok(x) => x,
        Err(e) => {
            proof {
                assert forall|m: MetaFields| !(#[trigger] is_enc_meta(b@, m)) by {
                    if is_enc_meta(b@, m) {
                        lemma_enc_meta_shape(m, b@);
                    }
                }
            }
            return Err(e);
        },
    };
    if mlen != 8 {
        proof {
            assert forall|m: MetaFields| !(#[trigger] is_enc_meta(b@, m)) by {
                if is_enc_meta(b@, m) {
                    lemma_enc_meta_shape(m, b@);
                    vstd::bytes::lemma_auto_spec_u64_to_from_le_bytes();
                }
            }
        }
        return Err(Error::InvalidFileFormat);
    }
    if b.len() < 16 {
        proof {
            assert forall|m: MetaFields| !(#[trigger] is_enc_meta(b@, m)) by {
                if is_enc_meta(b@, m) {
                    lemma_enc_meta_shape(m, b@);
                }
            }
        }
        return Err(Error::Serde);
    }
    let magic_expect: [u8; 8] = [37u8, 98u8, 112u8, 116u8, 114u8, 101u8, 101u8, 37u8];
    let mut mi: usize = 0;
    while mi < 8
        invariant
            0 <= mi <= 8,
            b@.len() >= 16,
            magic_expect@ == magic_bytes(),
            forall|t: int| 0 <= t < mi ==> b@[8 + t] == magic_bytes()[t],
        decreases 8 - mi,
    {
        let got = *vstd::slice::slice_index_get(b, 8 + mi);
        if got != magic_expect[mi] {
            proof {
                assert forall|m: MetaFields| !(#[trigger] is_enc_meta(b@, m)) by {
                    if is_enc_meta(b@, m) {
                        lemma_enc_meta_shape(m, b@);
                        assert(b@[8 + mi] == magic_bytes()[mi as int]);
                    }
                }
            }
            return Err(Error::InvalidFileFormat);
        }
        mi = mi + 1;
    }
    let node_count = match read_u64(b, 16) {
        Ok(x) => x,
        Err(e) => {
            proof {
                assert forall|m: MetaFields| !(#[trigger] is_enc_meta(b@, m)) by {
                    if is_enc_meta(b@, m) {
                        lemma_enc_meta_shape(m, b@);
                    }
                }
            }
            return Err(e);
        },
    };
    let entry_count = match read_u64(b, 24) {
        Ok(x) => x,
        Err(e) => {
            proof {
                assert forall|m: MetaFields| !(#[trigger] is_enc_meta(b@, m)) by {
                    if is_enc_meta(b@, m) {
                        lemma_enc_meta_shape(m, b@);
                    }
                }
            }
            return Err(e);
        },
    };
    let root_page_nr = match read_u64(b, 32) {
        Ok(x) => x,
        Err(e) => {
            proof {
                assert forall|m: MetaFields| !(#[trigger] is_enc_meta(b@, m)) by {
                    if is_enc_meta(b@, m) {
                        lemma_enc_meta_shape(m, b@);
                    }
                }
            }
            return Err(e);
        },
    };
    let flen64 = match read_u64(b, 40) {
        Ok(x) => x,
        Err(e) => {
            proof {
                assert forall|m: MetaFields| !(#[trigger] is_enc_meta(b@, m)) by {
                    if is_enc_meta(b@, m) {
                        lemma_enc_meta_shape(m, b@);
                    }
                }
            }
            return Err(e);
        },
    };
    if flen64 > 0xffff_ffff {
        proof {
            assert forall|m: MetaFields| !(#[trigger] is_enc_meta(b@, m)) by {
                if is_enc_meta(b@, m) {
                    lemma_enc_meta_shape(m, b@);
                    vstd::bytes::lemma_auto_spec_u64_to_from_le_bytes();
                    assert(flen64 == m.free_pages.len() as u64);
                }
            }
        }
        return Err(Error::Serde);
    }
    let flen = flen64 as usize;
    let mut free_pages: Vec<u64> = Vec::new();
    let mut j: usize = 0;
    let mut off: usize = 48;
    while j < flen
        invariant
            off == 48 + 8 * j,
            j <= flen,
            flen == flen64,
            flen <= 0xffff_ffff,
            48 + 8 * j <= b@.len(),
            8 + 8 <= b@.len(),
            spec_u64_to_le_bytes(flen64) == b@.subrange(40, 48),
            forall|t: int|
                0 <= t < j ==> spec_u64_to_le_bytes(#[trigger] free_pages@[t]) == b@.subrange(
                    48 + 8 * t,
                    48 + 8 * t + 8,
                ),
            free_pages@.len() == j,
        decreases flen - j,
    {
        if off >= b.len() || b.len() - off < 8 {
            proof {
                assert forall|m: MetaFields| !(#[trigger] is_enc_meta(b@, m)) by {
                    if is_enc_meta(b@, m) {
                        lemma_enc_meta_shape(m, b@);
                        vstd::bytes::lemma_auto_spec_u64_to_from_le_bytes();
                        assert(flen64 == m.free_pages.len() as u64);
                        assert(off + 8 <= b@.len());
                    }
                }
            }
            return Err(Error::Serde);
        }
        let s = slice_subrange(b, off, off + 8);
        let p = u64_from_le_bytes(s);
        proof {
            vstd::bytes::lemma_auto_spec_u64_to_from_le_bytes();
        }
        free_pages.push(p);
        off = off + 8;
        j = j + 1;
    }
    let key_size = match read_u64(b, off) {
        Ok(x) => x,
        Err(e) => {
            proof {
                lemma_meta_tail_in_bounds(b@, off as int, flen64);
            }
            return Err(e);
        },
    };
    let value_size = match read_u64(b, off + 8) {
        Ok(x) => x,
        Err(e) => {
            proof {
                lemma_meta_tail_in_bounds(b@, off as int, flen64);
            }
            return Err(e);
        },
    };
    let max_key_count = match read_u64(b, off + 16) {
        Ok(x) => x,
        Err(e) => {
            proof {
                lemma_meta_tail_in_bounds(b@, off as int, flen64);
            }
            return Err(e);
        },
    };
    let split_at = match read_u64(b, off + 24) {
        Ok(x) => x,
        Err(e) => {
            proof {
                lemma_meta_tail_in_bounds(b@, off as int, flen64);
            }
            return Err(e);
        },
    };
    if b.len() != off + 32 {
        proof {
            lemma_meta_tail_in_bounds(b@, off as int, flen64);
        }
        return Err(Error::Serde);
    }
    let m = MetaData {
        node_count,
        entry_count,
        root_page_nr,
        free_pages,
        key_size,
        value_size,
        max_key_count,
        split_at,
    };
    proof {
        vstd::bytes::lemma_auto_spec_u64_to_from_le_bytes();
        let fl = m.free_pages.len() as int;
        let region = b@.subrange(48, 48 + 8 * fl);
        assert forall|t: int| 0 <= t < fl implies spec_u64_to_le_bytes(#[trigger] m.free_pages[t])
            == region.subrange(8 * t, 8 * t + 8) by {
            assert(region.subrange(8 * t, 8 * t + 8) =~= b@.subrange(48 + 8 * t, 48 + 8 * t + 8));
        }
        lemma_cat_u64_pointwise(m.free_pages@, region);
        assert(b@ =~= spec_enc_meta(
            m.node_count,
            m.entry_count,
            m.root_page_nr,
            m.free_pages@,
            m.key_size,
            m.value_size,
            m.max_key_count,
            m.split_at,
        ));
    }
    Ok(m)
}

/// A canonical envelope whose free-list length prefix reads `flen` spans
/// exactly 32 bytes past the free list, so the trailing sizing fields are
/// in bounds.
proof fn lemma_meta_tail_in_bounds(b: Seq<u8>, off: int, flen64: u64)
    requires
        spec_u64_to_le_bytes(flen64) == b.subrange(40, 48),
        off == 48 + 8 * (flen64 as int),
    ensures
        forall|m: MetaFields| #[trigger] is_enc_meta(b, m) ==> b.len() == off + 32,
{
    assert forall|m: MetaFields| #[trigger] is_enc_meta(b, m) implies b.len() == off + 32 by {
        lemma_enc_meta_shape(m, b);
        vstd::bytes::lemma_auto_spec_u64_to_from_le_bytes();
        assert(flen64 == m.free_pages.len() as u64);
    }
}

/// A byte region that holds each integer's encoding at its slot is the
/// flattening of the integer sequence.
proof fn lemma_cat_u64_pointwise(xs: Seq<u64>, b: Seq<u8>)
    requires
        b.len() == 8 * xs.len(),
        forall|t: int|
            0 <= t < xs.len() ==> spec_u64_to_le_bytes(#[trigger] xs[t]) == b.subrange(
                8 * t,
                8 * t + 8,
            ),
    ensures
        cat_u64(xs) == b,
    decreases xs.len(),
{
    vstd::bytes::lemma_auto_spec_u64_to_from_le_bytes();
    if xs.len() == 0 {
        assert(cat_u64(xs) =~= b);
    } else {
        let xs2 = xs.drop_first();
        let b2 = b.skip(8);
        assert forall|t: int| 0 <= t < xs2.len() implies spec_u64_to_le_bytes(#[trigger] xs2[t])
            == b2.subrange(8 * t, 8 * t + 8) by {
            assert(xs2[t] == xs[t + 1]);
            assert(b2.subrange(8 * t, 8 * t + 8) =~= b.subrange(8 * (t + 1), 8 * (t + 1) + 8));
        }
        lemma_cat_u64_pointwise(xs2, b2);
        assert(spec_u64_to_le_bytes(xs[0]) == b.subrange(0, 8));
        assert(cat_u64(xs) =~= b);
    }
}

/// The specification-level fields of a metadata envelope.
pub ghost struct MetaFields {
    pub node_count: u64,
    pub entry_count: u64,
    pub root_page_nr: u64,
    pub free_pages: Seq<u64>,
    pub key_size: u64,
    pub value_size: u64,
    pub max_key_count: u64,
    pub split_at: u64,
}

/// The byte layout of a canonical envelope: its length and the slot each
/// field occupies.
proof fn lemma_enc_meta_shape(m: MetaFields, b: Seq<u8>)
    requires
        m.free_pages.len() <= u64::MAX,
        b == spec_enc_meta(
            m.node_count,
            m.entry_count,
            m.root_page_nr,
            m.free_pages,
            m.key_size,
            m.value_size,
            m.max_key_count,
            m.split_at,
        ),
    ensures
        b.len() == 80 + 8 * m.free_pages.len(),
        b.subrange(0, 8) == spec_u64_to_le_bytes(8),
        forall|t: int| 0 <= t < 8 ==> b[8 + t] == magic_bytes()[t],
        b.subrange(16, 24) == spec_u64_to_le_bytes(m.node_count),
        b.subrange(24, 32) == spec_u64_to_le_bytes(m.entry_count),
        b.subrange(32, 40) == spec_u64_to_le_bytes(m.root_page_nr),
        b.subrange(40, 48) == spec_u64_to_le_bytes(m.free_pages.len() as u64),
        forall|t: int|
            0 <= t < m.free_pages.len() ==> b.subrange(48 + 8 * t, 56 + 8 * t)
                == spec_u64_to_le_bytes(#[trigger] m.free_pages[t]),
        b.subrange(
            48 + 8 * (m.free_pages.len() as int),
            56 + 8 * (m.free_pages.len() as int),
        ) == spec_u64_to_le_bytes(m.key_size),
        b.subrange(
            56 + 8 * (m.free_pages.len() as int),
            64 + 8 * (m.free_pages.len() as int),
        ) == spec_u64_to_le_bytes(m.value_size),
        b.subrange(
            64 + 8 * (m.free_pages.len() as int),
            72 + 8 * (m.free_pages.len() as int),
        ) == spec_u64_to_le_bytes(m.max_key_count),
        b.subrange(
            72 + 8 * (m.free_pages.len() as int),
            80 + 8 * (m.free_pages.len() as int),
        ) == spec_u64_to_le_bytes(m.split_at),
{
    vstd::bytes::lemma_auto_spec_u64_to_from_le_bytes();
    lemma_cat_u64_len(m.free_pages);
    let fl = m.free_pages.len() as int;
    assert(magic_bytes().len() == 8);
    assert(b.subrange(0, 8) =~= spec_u64_to_le_bytes(8));
    assert forall|t: int| 0 <= t < 8 implies b[8 + t] == magic_bytes()[t] by {
        assert(b.subrange(8, 16) =~= magic_bytes());
        assert(b.subrange(8, 16)[t] == b[8 + t]);
    }
    assert(b.subrange(16, 24) =~= spec_u64_to_le_bytes(m.node_count));
    assert(b.subrange(24, 32) =~= spec_u64_to_le_bytes(m.entry_count));
    assert(b.subrange(32, 40) =~= spec_u64_to_le_bytes(m.root_page_nr));
    assert(b.subrange(40, 48) =~= spec_u64_to_le_bytes(m.free_pages.len() as u64));
    assert forall|t: int| 0 <= t < fl implies b.subrange(48 + 8 * t, 56 + 8 * t)
        == spec_u64_to_le_bytes(#[trigger] m.free_pages[t]) by {
        lemma_cat_u64_slot(m.free_pages, t);
        assert(b.subrange(48 + 8 * t, 56 + 8 * t) =~= cat_u64(m.free_pages).subrange(
            8 * t,
            8 * t + 8,
        ));
    }
    assert(b.subrange(48 + 8 * fl, 56 + 8 * fl) =~= spec_u64_to_le_bytes(m.key_size));
    assert(b.subrange(56 + 8 * fl, 64 + 8 * fl) =~= spec_u64_to_le_bytes(m.value_size));
    assert(b.subrange(64 + 8 * fl, 72 + 8 * fl) =~= spec_u64_to_le_bytes(m.max_key_count));
    assert(b.subrange(72 + 8 * fl, 80 + 8 * fl) =~= spec_u64_to_le_bytes(m.split_at));
}

/// Whether the bytes are the canonical envelope of the given fields, with
/// a free list the parser accepts.
pub open spec fn is_enc_meta(b: Seq<u8>, m: MetaFields) -> bool {
    &&& m.free_pages.len() <= 0xffff_ffff
    &&& b == spec_enc_meta(
        m.node_count,
        m.entry_count,
        m.root_page_nr,
        m.free_pages,
        m.key_size,
        m.value_size,
        m.max_key_count,
        m.split_at,
    )
}

/// The canonical envelope of a fresh, empty tree with a supported
/// fan-out: what a clean shutdown before any insert writes.
pub open spec fn empty_meta(mm: MetaFields) -> bool {
    &&& mm.node_count == 0
    &&& mm.entry_count == 0
    &&& mm.root_page_nr == 0
    &&& mm.free_pages == Seq::<u64>::empty()
    &&& mm.key_size == 16
    &&& mm.value_size == 16
    &&& 3 <= mm.max_key_count <= 126
    &&& mm.split_at as int == crate::model::spec_split_at(mm.max_key_count as int)
}

/// The metadata envelope is canonical: equal encodings carry equal
/// fields, so the envelope written at close determines the reopened
/// tree's metadata exactly.
#[verifier::rlimit(100)]
pub proof fn lemma_meta_canonical(
    node_count: u64,
    entry_count: u64,
    root_page_nr: u64,
    free: Seq<u64>,
    key_size: u64,
    value_size: u64,
    mkc: u64,
    sp: u64,
    m: MetaFields,
)
    requires
        free.len() <= u64::MAX,
        m.free_pages.len() <= u64::MAX,
        spec_enc_meta(
            m.node_count,
            m.entry_count,
            m.root_page_nr,
            m.free_pages,
            m.key_size,
            m.value_size,
            m.max_key_count,
            m.split_at,
        ) == spec_enc_meta(
            node_count,
            entry_count,
            root_page_nr,
            free,
            key_size,
            value_size,
            mkc,
            sp,
        ),
    ensures
        m.node_count == node_count,
        m.entry_count == entry_count,
        m.root_page_nr == root_page_nr,
        m.free_pages == free,
        m.key_size == key_size,
        m.value_size == value_size,
        m.max_key_count == mkc,
        m.split_at == sp,
{
    vstd::bytes::lemma_auto_spec_u64_to_from_le_bytes();
    let a = spec_enc_meta(
        m.node_count,
        m.entry_count,
        m.root_page_nr,
        m.free_pages,
        m.key_size,
        m.value_size,
        m.max_key_count,
        m.split_at,
    );
    let c = spec_enc_meta(
        node_count,
        entry_count,
        root_page_nr,
        free,
        key_size,
        value_size,
        mkc,
        sp,
    );
    lemma_cat_u64_len(m.free_pages);
    lemma_cat_u64_len(free);
    assert(spec_u64_to_le_bytes(8).len() == 8);
    assert(magic_bytes().len() == 8);
    assert(spec_u64_to_le_bytes(m.node_count).len() == 8);
    assert(spec_u64_to_le_bytes(m.entry_count).len() == 8);
    assert(spec_u64_to_le_bytes(m.root_page_nr).len() == 8);
    assert(spec_u64_to_le_bytes(m.free_pages.len() as u64).len() == 8);
    assert(spec_u64_to_le_bytes(node_count).len() == 8);
    assert(spec_u64_to_le_bytes(entry_count).len() == 8);
    assert(spec_u64_to_le_bytes(root_page_nr).len() == 8);
    assert(spec_u64_to_le_bytes(free.len() as u64).len() == 8);
    assert(a.subrange(40, 48) =~= spec_u64_to_le_bytes(m.free_pages.len() as u64));
    assert(c.subrange(40, 48) =~= spec_u64_to_le_bytes(free.len() as u64));
    
    assert(spec_u64_to_le_bytes(m.free_pages.len() as u64) == spec_u64_to_le_bytes(
        free.len() as u64,
    ));
    assert(spec_u64_from_le_bytes(spec_u64_to_le_bytes(m.free_pages.len() as u64))
        == m.free_pages.len() as u64);
    assert(spec_u64_from_le_bytes(spec_u64_to_le_bytes(free.len() as u64)) == free.len() as u64);
    assert(m.free_pages.len() as u64 == free.len() as u64);
    assert(m.free_pages.len() == free.len());
    let fl = free.len() as int;
    assert(a.subrange(16, 24) =~= spec_u64_to_le_bytes(m.node_count));
    assert(c.subrange(16, 24) =~= spec_u64_to_le_bytes(node_count));
    assert(a.subrange(24, 32) =~= spec_u64_to_le_bytes(m.entry_count));
    assert(c.subrange(24, 32) =~= spec_u64_to_le_bytes(entry_count));
    assert(a.subrange(32, 40) =~= spec_u64_to_le_bytes(m.root_page_nr));
    assert(c.subrange(32, 40) =~= spec_u64_to_le_bytes(root_page_nr));
    assert forall|t: int| 0 <= t < fl implies m.free_pages[t] == free[t] by {
        lemma_cat_u64_slot(m.free_pages, t);
        lemma_cat_u64_slot(free, t);
        assert(a.subrange(48 + 8 * t, 48 + 8 * t + 8) =~= spec_u64_to_le_bytes(m.free_pages[t]));
        assert(c.subrange(48 + 8 * t, 48 + 8 * t + 8) =~= spec_u64_to_le_bytes(free[t]));
    }
    assert(m.free_pages =~= free);
    assert(a.subrange(48 + 8 * fl, 56 + 8 * fl) =~= spec_u64_to_le_bytes(m.key_size));
    assert(c.subrange(48 + 8 * fl, 56 + 8 * fl) =~= spec_u64_to_le_bytes(key_size));
    assert(a.subrange(56 + 8 * fl, 64 + 8 * fl) =~= spec_u64_to_le_bytes(m.value_size));
    assert(c.subrange(56 + 8 * fl, 64 + 8 * fl) =~= spec_u64_to_le_bytes(value_size));
    assert(a.subrange(64 + 8 * fl, 72 + 8 * fl) =~= spec_u64_to_le_bytes(m.max_key_count));
    assert(c.subrange(64 + 8 * fl, 72 + 8 * fl) =~= spec_u64_to_le_bytes(mkc));
    assert(a.subrange(72 + 8 * fl, 80 + 8 * fl) =~= spec_u64_to_le_bytes(m.split_at));
    assert(c.subrange(72 + 8 * fl, 80 + 8 * fl) =~= spec_u64_to_le_bytes(sp));
}

/// The flattening of a page-number sequence is eight bytes per entry.
proof fn lemma_cat_u64_len(xs: Seq<u64>)
    ensures
        cat_u64(xs).len() == 8 * xs.len(),
    decreases xs.len(),
{
    vstd::bytes::lemma_auto_spec_u64_to_from_le_bytes();
    if xs.len() == 0 {
    } else {
        lemma_cat_u64_len(xs.drop_first());
    }
}

/// Each entry's encoding occupies its own slot of the flattening.
proof fn lemma_cat_u64_slot(xs: Seq<u64>, t: int)
    requires
        0 <= t < xs.len(),
    ensures
        cat_u64(xs).subrange(8 * t, 8 * t + 8) == spec_u64_to_le_bytes(xs[t]),
    decreases t,
{
    vstd::bytes::lemma_auto_spec_u64_to_from_le_bytes();
    lemma_cat_u64_len(xs);
    lemma_cat_u64_len(xs.drop_first());
    assert(cat_u64(xs) == spec_u64_to_le_bytes(xs[0]) + cat_u64(xs.drop_first()));
    assert(spec_u64_to_le_bytes(xs[0]).len() == 8);
    if t == 0 {
        assert(cat_u64(xs).subrange(0, 8) =~= spec_u64_to_le_bytes(xs[0]));
    } else {
        lemma_cat_u64_slot(xs.drop_first(), t - 1);
        assert(cat_u64(xs).subrange(8 * t, 8 * t + 8) =~= cat_u64(xs.drop_first()).subrange(
            8 * (t - 1),
            8 * (t - 1) + 8,
        ));
        assert(xs.drop_first()[t - 1] == xs[t]);
    }
}

} // verus!
