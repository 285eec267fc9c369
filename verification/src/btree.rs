//! The copy-on-write B+ tree engine and the store facade: well-formedness
//! and contents of a subtree within the image, the insert and delete
//! recursions with node splitting and underfull rebalancing, point lookup,
//! and the laws a well-formed store obeys.

use vstd::prelude::*;

use crate::bytes::le64;
use crate::configs::StorageConfig;
use crate::diskmanager::{page_at, DiskManager, EncodeResult};
use crate::entries::{
    has_key, kv_insert, kv_lookup, kv_remove, lemma_kv_insert_concat_left,
    lemma_kv_insert_concat_right, lemma_kv_insert_hit, lemma_kv_insert_miss,
    lemma_kv_lookup_concat, lemma_kv_lookup_exists, lemma_kv_lookup_none,
    lemma_kv_remove_concat_left, lemma_kv_remove_concat_right, lemma_kv_remove_hit,
    lemma_kv_remove_miss, sorted_entries, zip_kv, KvSeq,
};
use crate::errors::StorageError;
use crate::keys::{
    find_key, key_compare, lemma_lex_irrefl, lemma_lex_trans, lemma_lex_trichotomy, lex_le,
    lex_lt, sorted_keys, views_of, KeyOrder,
};
use crate::node::{decode_spec, page_valid, Node, NodeView};

verus! {

/// `k` is at or above the lower separator bound; `None` stands for no bound.
/// Lower bounds are inclusive: a routing separator is duplicated into the
/// first key of the right sibling it was promoted from.
pub open spec fn above_lo(lo: Option<Seq<u8>>, k: Seq<u8>) -> bool {
    match lo {
        None => true,
        Some(l) => lex_le(l, k),
    }
}

/// `k` is strictly above the lower bound.  Internal separators are kept
/// strictly inside their node's range so that parent keys stay distinct.
pub open spec fn strictly_above(lo: Option<Seq<u8>>, k: Seq<u8>) -> bool {
    match lo {
        None => true,
        Some(l) => lex_lt(l, k),
    }
}

/// `k` is strictly below the upper separator bound; `None` stands for no
/// bound.
pub open spec fn below_hi(hi: Option<Seq<u8>>, k: Seq<u8>) -> bool {
    match hi {
        None => true,
        Some(h) => lex_lt(k, h),
    }
}

/// `k` lies in the half-open separator range `[lo, hi)`.
pub open spec fn in_bounds(lo: Option<Seq<u8>>, hi: Option<Seq<u8>>, k: Seq<u8>) -> bool {
    above_lo(lo, k) && below_hi(hi, k)
}

/// The node held by the page at `off`.
pub open spec fn node_at(d: Seq<u8>, cfg: StorageConfig, off: u64) -> NodeView {
    decode_spec(page_at(d, off as int, cfg.page_size as int))
}

/// Lower separator bound of child `ci`: the key to its left, or the node's
/// own lower bound for the first child.
pub open spec fn child_lo(nd: NodeView, lo: Option<Seq<u8>>, ci: int) -> Option<Seq<u8>> {
    if ci == 0 {
        lo
    } else {
        Some(nd.keys[ci - 1])
    }
}

/// Upper separator bound of child `ci`: the key to its right, or the node's
/// own upper bound for the last child.
pub open spec fn child_hi(nd: NodeView, hi: Option<Seq<u8>>, ci: int) -> Option<Seq<u8>> {
    if ci == nd.keys.len() {
        hi
    } else {
        Some(nd.keys[ci])
    }
}

/// The node's keys lie within `[lo, hi)`; an internal node's separators lie
/// strictly inside.
pub open spec fn node_keys_bounded(nd: NodeView, lo: Option<Seq<u8>>, hi: Option<Seq<u8>>) -> bool {
    forall|i: int|
        0 <= i < nd.keys.len() ==> {
            &&& below_hi(hi, #[trigger] nd.keys[i])
            &&& above_lo(lo, nd.keys[i])
            &&& (!nd.is_leaf() ==> strictly_above(lo, nd.keys[i]))
        }
}

/// The subtree of height `h` rooted at page offset `off` is well formed: the
/// page decodes to a shapely node that fits its page, whose keys are
/// strictly sorted and bounded by `[lo, hi)`, leaves all sit at depth `h`,
/// and every child subtree is well formed between the separators around it.
///
/// Minimum fill is deliberately not part of this invariant: replacing a
/// value by a shorter one, or an index-midpoint split of a node with uneven
/// slot sizes, can leave a node under `min_node_size`, so the threshold
/// cannot hold of every state.  What the delete contracts state instead is
/// that every node a delete rewrites and hands back as `Replaced` meets the
/// threshold, and that a node below it is handed back as `Underfull` for the
/// parent to rebalance.
pub open spec fn subtree_wf(
    d: Seq<u8>,
    cfg: StorageConfig,
    off: u64,
    h: nat,
    lo: Option<Seq<u8>>,
    hi: Option<Seq<u8>>,
) -> bool
    decreases h, 0int,
{
    let nd = node_at(d, cfg, off);
    &&& cfg.page_size <= off
    &&& off + cfg.page_size <= d.len()
    &&& page_valid(page_at(d, off as int, cfg.page_size as int))
    &&& nd.shape_ok()
    &&& nd.sizes_ok(cfg)
    &&& nd.fits(cfg.page_size as int)
    &&& sorted_keys(nd.keys)
    &&& node_keys_bounded(nd, lo, hi)
    &&& if h == 0 {
        nd.is_leaf()
    } else {
        &&& !nd.is_leaf()
        &&& children_wf(d, cfg, nd, (h - 1) as nat, lo, hi, 0)
    }
}

/// The children of `nd` from index `ci` on are each well formed between the
/// separators around them.
pub open spec fn children_wf(
    d: Seq<u8>,
    cfg: StorageConfig,
    nd: NodeView,
    ch: nat,
    lo: Option<Seq<u8>>,
    hi: Option<Seq<u8>>,
    ci: int,
) -> bool
    decreases ch, nd.children.len() - ci + 1,
{
    ci >= nd.children.len() || {
        &&& subtree_wf(d, cfg, nd.children[ci], ch, child_lo(nd, lo, ci), child_hi(nd, hi, ci))
        &&& children_wf(d, cfg, nd, ch, lo, hi, ci + 1)
    }
}

/// The in-order key/value contents of the subtree rooted at `off`.
pub open spec fn subtree_entries(d: Seq<u8>, cfg: StorageConfig, off: u64, h: nat) -> KvSeq
    decreases h, 0int,
{
    let nd = node_at(d, cfg, off);
    if h == 0 {
        zip_kv(nd.keys, nd.values)
    } else {
        children_entries(d, cfg, nd, (h - 1) as nat, 0)
    }
}

/// The concatenated contents of the children of `nd` from index `ci` on.
pub open spec fn children_entries(
    d: Seq<u8>,
    cfg: StorageConfig,
    nd: NodeView,
    ch: nat,
    ci: int,
) -> KvSeq
    decreases ch, nd.children.len() - ci + 1,
{
    if ci >= nd.children.len() {
        Seq::empty()
    } else {
        subtree_entries(d, cfg, nd.children[ci], ch) + children_entries(d, cfg, nd, ch, ci + 1)
    }
}

/// Two nodes with the same keys and values and equally many children have
/// the same encoded size: child slots are fixed-width, so repointing one
/// never changes how a node fits its page.
pub proof fn lemma_same_shape_same_size(a: NodeView, b: NodeView)
    requires
        a.keys == b.keys,
        a.values == b.values,
        a.children.len() == b.children.len(),
    ensures
        a.encoded_size() == b.encoded_size(),
{
    lemma_same_shape_slots(a, b, a.keys.len() as int);
}

proof fn lemma_same_shape_slots(a: NodeView, b: NodeView, i: int)
    requires
        a.keys == b.keys,
        a.values == b.values,
        a.children.len() == b.children.len(),
    ensures
        a.slots_size(i) == b.slots_size(i),
    decreases i,
{
    if i > 0 {
        lemma_same_shape_slots(a, b, i - 1);
    }
}

/// Unfold `children_wf` at one child index.
pub proof fn lemma_children_wf_index(
    d: Seq<u8>,
    cfg: StorageConfig,
    nd: NodeView,
    ch: nat,
    lo: Option<Seq<u8>>,
    hi: Option<Seq<u8>>,
    ci: int,
    j: int,
)
    requires
        children_wf(d, cfg, nd, ch, lo, hi, ci),
        ci <= j < nd.children.len(),
    ensures
        subtree_wf(d, cfg, nd.children[j], ch, child_lo(nd, lo, j), child_hi(nd, hi, j)),
    decreases j - ci,
{
    if ci < j {
        lemma_children_wf_index(d, cfg, nd, ch, lo, hi, ci + 1, j);
    }
}

/// Fold per-child well-formedness back into `children_wf`.
pub proof fn lemma_children_wf_build(
    d: Seq<u8>,
    cfg: StorageConfig,
    nd: NodeView,
    ch: nat,
    lo: Option<Seq<u8>>,
    hi: Option<Seq<u8>>,
    ci: int,
)
    requires
        forall|j: int|
            ci <= j < nd.children.len() ==> subtree_wf(
                d,
                cfg,
                #[trigger] nd.children[j],
                ch,
                child_lo(nd, lo, j),
                child_hi(nd, hi, j),
            ),
    ensures
        children_wf(d, cfg, nd, ch, lo, hi, ci),
    decreases nd.children.len() - ci,
{
    if ci < nd.children.len() {
        lemma_children_wf_build(d, cfg, nd, ch, lo, hi, ci + 1);
    }
}

/// Bytes at or beyond the first page decide a subtree entirely: any image
/// that keeps them (and may grow) keeps the subtree's shape and contents.
pub proof fn lemma_subtree_frame(
    d1: Seq<u8>,
    d2: Seq<u8>,
    cfg: StorageConfig,
    off: u64,
    h: nat,
    lo: Option<Seq<u8>>,
    hi: Option<Seq<u8>>,
)
    requires
        subtree_wf(d1, cfg, off, h, lo, hi),
        d1.len() <= d2.len(),
        forall|k: int| cfg.page_size <= k < d1.len() ==> d2[k] == d1[k],
    ensures
        subtree_wf(d2, cfg, off, h, lo, hi),
        subtree_entries(d2, cfg, off, h) == subtree_entries(d1, cfg, off, h),
    decreases h, 0int,
{
    assert(page_at(d2, off as int, cfg.page_size as int) =~= page_at(
        d1,
        off as int,
        cfg.page_size as int,
    ));
    let nd = node_at(d1, cfg, off);
    if h > 0 {
        lemma_children_frame(d1, d2, cfg, nd, (h - 1) as nat, lo, hi, 0);
    }
}

proof fn lemma_children_frame(
    d1: Seq<u8>,
    d2: Seq<u8>,
    cfg: StorageConfig,
    nd: NodeView,
    ch: nat,
    lo: Option<Seq<u8>>,
    hi: Option<Seq<u8>>,
    ci: int,
)
    requires
        children_wf(d1, cfg, nd, ch, lo, hi, ci),
        d1.len() <= d2.len(),
        forall|k: int| cfg.page_size <= k < d1.len() ==> d2[k] == d1[k],
    ensures
        children_wf(d2, cfg, nd, ch, lo, hi, ci),
        children_entries(d2, cfg, nd, ch, ci) == children_entries(d1, cfg, nd, ch, ci),
    decreases ch, nd.children.len() - ci + 1,
{
    if ci < nd.children.len() {
        lemma_subtree_frame(d1, d2, cfg, nd.children[ci], ch, child_lo(nd, lo, ci), child_hi(nd, hi, ci));
        lemma_children_frame(d1, d2, cfg, nd, ch, lo, hi, ci + 1);
    }
}

/// A well-formed subtree has one height: the depth of its leaves.
pub proof fn lemma_height_unique(
    d: Seq<u8>,
    cfg: StorageConfig,
    off: u64,
    h1: nat,
    lo1: Option<Seq<u8>>,
    hi1: Option<Seq<u8>>,
    h2: nat,
    lo2: Option<Seq<u8>>,
    hi2: Option<Seq<u8>>,
)
    requires
        subtree_wf(d, cfg, off, h1, lo1, hi1),
        subtree_wf(d, cfg, off, h2, lo2, hi2),
    ensures
        h1 == h2,
    decreases h1,
{
    let nd = node_at(d, cfg, off);
    if h1 > 0 && h2 > 0 {
        assert(nd.children.len() > 0);
        lemma_children_wf_index(d, cfg, nd, (h1 - 1) as nat, lo1, hi1, 0, 0);
        lemma_children_wf_index(d, cfg, nd, (h2 - 1) as nat, lo2, hi2, 0, 0);
        lemma_height_unique(
            d,
            cfg,
            nd.children[0],
            (h1 - 1) as nat,
            child_lo(nd, lo1, 0),
            child_hi(nd, hi1, 0),
            (h2 - 1) as nat,
            child_lo(nd, lo2, 0),
            child_hi(nd, hi2, 0),
        );
    }
}

/// In-order contents of a well-formed subtree are strictly sorted and lie
/// within the subtree's separator range.
pub proof fn lemma_subtree_entries_props(
    d: Seq<u8>,
    cfg: StorageConfig,
    off: u64,
    h: nat,
    lo: Option<Seq<u8>>,
    hi: Option<Seq<u8>>,
)
    requires
        subtree_wf(d, cfg, off, h, lo, hi),
    ensures
        sorted_entries(subtree_entries(d, cfg, off, h)),
        forall|i: int|
            0 <= i < subtree_entries(d, cfg, off, h).len() ==> in_bounds(
                lo,
                hi,
                #[trigger] subtree_entries(d, cfg, off, h)[i].0,
            ),
    decreases h, 0int,
{
    let nd = node_at(d, cfg, off);
    if h == 0 {
        let es = subtree_entries(d, cfg, off, h);
        assert(forall|i: int| 0 <= i < es.len() ==> es[i].0 == nd.keys[i]);
    } else {
        lemma_children_entries_props(d, cfg, nd, (h - 1) as nat, lo, hi, 0);
    }
}

/// As above, for the concatenated children from `ci` on: their entries are
/// sorted and lie in `[child_lo(ci), hi)`.
proof fn lemma_children_entries_props(
    d: Seq<u8>,
    cfg: StorageConfig,
    nd: NodeView,
    ch: nat,
    lo: Option<Seq<u8>>,
    hi: Option<Seq<u8>>,
    ci: int,
)
    requires
        children_wf(d, cfg, nd, ch, lo, hi, ci),
        nd.shape_ok(),
        !nd.is_leaf(),
        sorted_keys(nd.keys),
        node_keys_bounded(nd, lo, hi),
        0 <= ci,
    ensures
        sorted_entries(children_entries(d, cfg, nd, ch, ci)),
        forall|i: int|
            0 <= i < children_entries(d, cfg, nd, ch, ci).len() ==> {
                &&& above_lo(
                    child_lo(nd, lo, ci),
                    #[trigger] children_entries(d, cfg, nd, ch, ci)[i].0,
                )
                &&& below_hi(hi, children_entries(d, cfg, nd, ch, ci)[i].0)
            },
    decreases ch, nd.children.len() - ci + 1,
{
    if ci < nd.children.len() {
        let head = subtree_entries(d, cfg, nd.children[ci], ch);
        let tail = children_entries(d, cfg, nd, ch, ci + 1);
        let whole = children_entries(d, cfg, nd, ch, ci);
        assert(whole == head + tail);
        lemma_subtree_frame(d, d, cfg, nd.children[ci], ch, child_lo(nd, lo, ci), child_hi(nd, hi, ci));
        lemma_subtree_entries_props(d, cfg, nd.children[ci], ch, child_lo(nd, lo, ci), child_hi(nd, hi, ci));
        lemma_children_entries_props(d, cfg, nd, ch, lo, hi, ci + 1);
        // Bounds of the whole: the head sits in [child_lo(ci), keys[ci]) and
        // the tail in [keys[ci], hi); keys[ci] itself lies below hi.
        assert forall|i: int| 0 <= i < whole.len() implies {
            &&& above_lo(child_lo(nd, lo, ci), whole[i].0)
            &&& below_hi(hi, whole[i].0)
        } by {
            if i < head.len() {
                assert(whole[i] == head[i]);
                if ci < nd.keys.len() {
                    // below keys[ci], and keys[ci] is below hi
                    if hi is Some {
                        lemma_lex_trans(head[i].0, nd.keys[ci], hi.unwrap());
                    }
                }
            } else {
                assert(whole[i] == tail[i - head.len()]);
                if ci < nd.keys.len() {
                    // at or above keys[ci], which is at or above child_lo(ci)
                    let tk = tail[i - head.len()].0;
                    assert(above_lo(child_lo(nd, lo, ci + 1), tk));
                    if ci == 0 {
                        if lo is Some {
                            let l = lo.unwrap();
                            if nd.keys[0] != tk {
                                lemma_lex_trans(l, nd.keys[0], tk);
                            }
                        }
                    } else {
                        if nd.keys[ci] != tk {
                            lemma_lex_trans(nd.keys[ci - 1], nd.keys[ci], tk);
                        } else {
                        }
                    }
                }
            }
        }
        // Sortedness of the concatenation: within each part by induction, and
        // across the boundary through the separator keys[ci].
        assert forall|i: int, j: int| 0 <= i < j < whole.len() implies lex_lt(
            whole[i].0,
            whole[j].0,
        ) by {
            if i < head.len() && j >= head.len() {
                assert(whole[i] == head[i]);
                assert(whole[j] == tail[j - head.len()]);
                assert(ci < nd.keys.len());
                let a = head[i].0;
                let b = tail[j - head.len()].0;
                assert(below_hi(child_hi(nd, hi, ci), a));
                assert(above_lo(child_lo(nd, lo, ci + 1), b));
                if nd.keys[ci] == b {
                    assert(lex_lt(a, b));
                } else {
                    lemma_lex_trans(a, nd.keys[ci], b);
                }
            } else if i >= head.len() {
                assert(whole[i] == tail[i - head.len()]);
                assert(whole[j] == tail[j - head.len()]);
            } else {
                assert(whole[i] == head[i]);
                assert(whole[j] == head[j]);
            }
        }
    }
}

/// Every key in a subtree bounded above by `b` sorts strictly before any `k`
/// at or above `b`.
proof fn lemma_entries_below(
    d: Seq<u8>,
    cfg: StorageConfig,
    off: u64,
    ch: nat,
    cl: Option<Seq<u8>>,
    b: Seq<u8>,
    k: Seq<u8>,
)
    requires
        subtree_wf(d, cfg, off, ch, cl, Some(b)),
        lex_le(b, k),
    ensures
        forall|i: int|
            0 <= i < subtree_entries(d, cfg, off, ch).len() ==> lex_lt(
                #[trigger] subtree_entries(d, cfg, off, ch)[i].0,
                k,
            ),
{
    lemma_subtree_entries_props(d, cfg, off, ch, cl, Some(b));
    let es = subtree_entries(d, cfg, off, ch);
    assert forall|i: int| 0 <= i < es.len() implies lex_lt(es[i].0, k) by {
        assert(in_bounds(cl, Some(b), es[i].0));
        if b != k {
            lemma_lex_trans(es[i].0, b, k);
        }
    }
}

/// Every key in the children from `ci + 1` on sorts strictly after any `k`
/// strictly below the separator `keys[ci]`.
proof fn lemma_tail_keys_above(
    d: Seq<u8>,
    cfg: StorageConfig,
    nd: NodeView,
    ch: nat,
    lo: Option<Seq<u8>>,
    hi: Option<Seq<u8>>,
    ci: int,
    k: Seq<u8>,
)
    requires
        children_wf(d, cfg, nd, ch, lo, hi, ci + 1),
        nd.shape_ok(),
        !nd.is_leaf(),
        sorted_keys(nd.keys),
        node_keys_bounded(nd, lo, hi),
        0 <= ci < nd.keys.len(),
        lex_lt(k, nd.keys[ci]),
    ensures
        forall|i: int|
            0 <= i < children_entries(d, cfg, nd, ch, ci + 1).len() ==> lex_lt(
                k,
                #[trigger] children_entries(d, cfg, nd, ch, ci + 1)[i].0,
            ),
{
    lemma_children_entries_props(d, cfg, nd, ch, lo, hi, ci + 1);
    let es = children_entries(d, cfg, nd, ch, ci + 1);
    assert forall|i: int| 0 <= i < es.len() implies lex_lt(k, es[i].0) by {
        assert(above_lo(child_lo(nd, lo, ci + 1), es[i].0));
        if nd.keys[ci] != es[i].0 {
            lemma_lex_trans(k, nd.keys[ci], es[i].0);
        }
    }
}

/// Looking up `k` in an internal node's contents is looking it up in the one
/// child `k` routes to.
proof fn lemma_children_lookup(
    d: Seq<u8>,
    cfg: StorageConfig,
    nd: NodeView,
    ch: nat,
    lo: Option<Seq<u8>>,
    hi: Option<Seq<u8>>,
    i: int,
    ci: int,
    k: Seq<u8>,
)
    requires
        children_wf(d, cfg, nd, ch, lo, hi, i),
        nd.shape_ok(),
        !nd.is_leaf(),
        sorted_keys(nd.keys),
        node_keys_bounded(nd, lo, hi),
        0 <= i <= ci < nd.children.len(),
        ci == 0 || lex_le(nd.keys[ci - 1], k),
        ci == nd.keys.len() || lex_lt(k, nd.keys[ci]),
    ensures
        kv_lookup(children_entries(d, cfg, nd, ch, i), k) == kv_lookup(
            subtree_entries(d, cfg, nd.children[ci], ch),
            k,
        ),
    decreases ci - i,
{
    let head = subtree_entries(d, cfg, nd.children[i], ch);
    let tail = children_entries(d, cfg, nd, ch, i + 1);
    lemma_kv_lookup_concat(head, tail, k);
    if i == ci {
        if ci < nd.keys.len() {
            lemma_tail_keys_above(d, cfg, nd, ch, lo, hi, ci, k);
            assert forall|j: int| 0 <= j < tail.len() implies tail[j].0 != k by {
                lemma_lex_trichotomy(k, tail[j].0);
            }
            lemma_kv_lookup_none(tail, k);
        } else {
            assert(tail =~= Seq::<(Seq<u8>, Seq<u8>)>::empty());
        }
    } else {
        // `k` routes right of child `i`: everything here sorts before `k`.
        lemma_children_wf_index(d, cfg, nd, ch, lo, hi, i, i);
        assert(child_hi(nd, hi, i) == Some(nd.keys[i]));
        assert(lex_le(nd.keys[i], k)) by {
            if i < ci - 1 {
                if nd.keys[ci - 1] == k {
                    assert(lex_lt(nd.keys[i], k));
                } else {
                    lemma_lex_trans(nd.keys[i], nd.keys[ci - 1], k);
                }
            }
        }
        lemma_entries_below(d, cfg, nd.children[i], ch, child_lo(nd, lo, i), nd.keys[i], k);
        assert forall|j: int| 0 <= j < head.len() implies head[j].0 != k by {
            lemma_lex_trichotomy(head[j].0, k);
        }
        lemma_kv_lookup_none(head, k);
        lemma_children_lookup(d, cfg, nd, ch, lo, hi, i + 1, ci, k);
    }
}

/// Two nodes with the same children from `i` on, over images that agree on
/// those subtrees, have the same concatenated contents from `i` on.
proof fn lemma_children_entries_congruence(
    d1: Seq<u8>,
    d2: Seq<u8>,
    cfg: StorageConfig,
    nd1: NodeView,
    nd2: NodeView,
    ch: nat,
    i: int,
)
    requires
        nd1.children.len() == nd2.children.len(),
        forall|j: int| i <= j < nd1.children.len() ==> nd2.children[j] == #[trigger] nd1.children[j],
        forall|j: int|
            i <= j < nd1.children.len() ==> subtree_entries(d2, cfg, #[trigger] nd1.children[j], ch)
                == subtree_entries(d1, cfg, nd1.children[j], ch),
    ensures
        children_entries(d2, cfg, nd2, ch, i) == children_entries(d1, cfg, nd1, ch, i),
    decreases nd1.children.len() - i,
{
    if i < nd1.children.len() {
        lemma_children_entries_congruence(d1, d2, cfg, nd1, nd2, ch, i + 1);
    }
}

/// Upserting `k` into an internal node's contents is upserting into the one
/// child `k` routes to: a node with that child's contents replaced by their
/// upsert has the whole upsert as its contents.
proof fn lemma_children_entries_insert(
    d1: Seq<u8>,
    d2: Seq<u8>,
    cfg: StorageConfig,
    nd1: NodeView,
    nd2: NodeView,
    ch: nat,
    lo: Option<Seq<u8>>,
    hi: Option<Seq<u8>>,
    i: int,
    ci: int,
    k: Seq<u8>,
    v: Seq<u8>,
)
    requires
        children_wf(d1, cfg, nd1, ch, lo, hi, i),
        nd1.shape_ok(),
        !nd1.is_leaf(),
        sorted_keys(nd1.keys),
        node_keys_bounded(nd1, lo, hi),
        0 <= i <= ci < nd1.children.len(),
        nd2.children.len() == nd1.children.len(),
        forall|j: int|
            0 <= j < nd1.children.len() && j != ci ==> nd2.children[j] == #[trigger] nd1.children[j],
        subtree_entries(d2, cfg, nd2.children[ci], ch) == kv_insert(
            subtree_entries(d1, cfg, nd1.children[ci], ch),
            k,
            v,
        ),
        forall|j: int|
            0 <= j < nd1.children.len() && j != ci ==> subtree_entries(
                d2,
                cfg,
                #[trigger] nd1.children[j],
                ch,
            ) == subtree_entries(d1, cfg, nd1.children[j], ch),
        ci == 0 || lex_le(nd1.keys[ci - 1], k),
        ci == nd1.keys.len() || lex_lt(k, nd1.keys[ci]),
    ensures
        children_entries(d2, cfg, nd2, ch, i) == kv_insert(
            children_entries(d1, cfg, nd1, ch, i),
            k,
            v,
        ),
    decreases ci - i,
{
    let head1 = subtree_entries(d1, cfg, nd1.children[i], ch);
    let tail1 = children_entries(d1, cfg, nd1, ch, i + 1);
    if i == ci {
        let tail2 = children_entries(d2, cfg, nd2, ch, i + 1);
        lemma_children_entries_congruence(d1, d2, cfg, nd1, nd2, ch, i + 1);
        assert(tail2 == tail1);
        if ci < nd1.keys.len() {
            lemma_tail_keys_above(d1, cfg, nd1, ch, lo, hi, ci, k);
        } else {
            assert(tail1 =~= Seq::<(Seq<u8>, Seq<u8>)>::empty());
        }
        lemma_kv_insert_concat_left(head1, tail1, k, v);
        assert(children_entries(d2, cfg, nd2, ch, i) == kv_insert(head1, k, v) + tail1);
    } else {
        lemma_children_wf_index(d1, cfg, nd1, ch, lo, hi, i, i);
        assert(lex_le(nd1.keys[i], k)) by {
            if i < ci - 1 {
                if nd1.keys[ci - 1] == k {
                    assert(lex_lt(nd1.keys[i], k));
                } else {
                    lemma_lex_trans(nd1.keys[i], nd1.keys[ci - 1], k);
                }
            }
        }
        lemma_entries_below(d1, cfg, nd1.children[i], ch, child_lo(nd1, lo, i), nd1.keys[i], k);
        lemma_kv_insert_concat_right(head1, tail1, k, v);
        lemma_children_entries_insert(d1, d2, cfg, nd1, nd2, ch, lo, hi, i + 1, ci, k, v);
        assert(subtree_entries(d2, cfg, nd2.children[i], ch) == head1);
        assert(children_entries(d2, cfg, nd2, ch, i) == head1 + kv_insert(
            children_entries(d1, cfg, nd1, ch, i + 1),
            k,
            v,
        ));
    }
}

/// A node with one extra child slipped in before index `j + 1` has, from
/// there on, the same contents as the first node from `j` on.
proof fn lemma_children_entries_shift_cong(
    d1: Seq<u8>,
    d2: Seq<u8>,
    cfg: StorageConfig,
    nd1: NodeView,
    nd2: NodeView,
    ch: nat,
    j: int,
)
    requires
        nd2.children.len() == nd1.children.len() + 1,
        forall|t: int|
            j <= t < nd1.children.len() ==> nd2.children[t + 1] == #[trigger] nd1.children[t],
        forall|t: int|
            j <= t < nd1.children.len() ==> subtree_entries(d2, cfg, #[trigger] nd1.children[t], ch)
                == subtree_entries(d1, cfg, nd1.children[t], ch),
        0 <= j <= nd1.children.len(),
    ensures
        children_entries(d2, cfg, nd2, ch, j + 1) == children_entries(d1, cfg, nd1, ch, j),
    decreases nd1.children.len() - j,
{
    if j < nd1.children.len() {
        lemma_children_entries_shift_cong(d1, d2, cfg, nd1, nd2, ch, j + 1);
    }
}

/// Splitting the child `k` routes to into two siblings, whose joint contents
/// are the upsert of the old child's, upserts the node's contents.
proof fn lemma_children_entries_split_insert(
    d1: Seq<u8>,
    d2: Seq<u8>,
    cfg: StorageConfig,
    nd1: NodeView,
    nd2: NodeView,
    ch: nat,
    lo: Option<Seq<u8>>,
    hi: Option<Seq<u8>>,
    i: int,
    ci: int,
    k: Seq<u8>,
    v: Seq<u8>,
)
    requires
        children_wf(d1, cfg, nd1, ch, lo, hi, i),
        nd1.shape_ok(),
        !nd1.is_leaf(),
        sorted_keys(nd1.keys),
        node_keys_bounded(nd1, lo, hi),
        0 <= i <= ci < nd1.children.len(),
        nd2.children.len() == nd1.children.len() + 1,
        forall|j: int| 0 <= j < ci ==> nd2.children[j] == #[trigger] nd1.children[j],
        forall|t: int|
            ci + 1 <= t < nd1.children.len() ==> nd2.children[t + 1] == #[trigger] nd1.children[t],
        subtree_entries(d2, cfg, nd2.children[ci], ch) + subtree_entries(
            d2,
            cfg,
            nd2.children[ci + 1],
            ch,
        ) == kv_insert(subtree_entries(d1, cfg, nd1.children[ci], ch), k, v),
        forall|j: int|
            0 <= j < nd1.children.len() && j != ci ==> subtree_entries(
                d2,
                cfg,
                #[trigger] nd1.children[j],
                ch,
            ) == subtree_entries(d1, cfg, nd1.children[j], ch),
        ci == 0 || lex_le(nd1.keys[ci - 1], k),
        ci == nd1.keys.len() || lex_lt(k, nd1.keys[ci]),
    ensures
        children_entries(d2, cfg, nd2, ch, i) == kv_insert(
            children_entries(d1, cfg, nd1, ch, i),
            k,
            v,
        ),
    decreases ci - i,
{
    if i == ci {
        let head1 = subtree_entries(d1, cfg, nd1.children[ci], ch);
        let tail1 = children_entries(d1, cfg, nd1, ch, ci + 1);
        lemma_children_entries_shift_cong(d1, d2, cfg, nd1, nd2, ch, ci + 1);
        assert(children_entries(d2, cfg, nd2, ch, ci + 2) == tail1);
        if ci < nd1.keys.len() {
            lemma_tail_keys_above(d1, cfg, nd1, ch, lo, hi, ci, k);
        } else {
            assert(tail1 =~= Seq::<(Seq<u8>, Seq<u8>)>::empty());
        }
        lemma_kv_insert_concat_left(head1, tail1, k, v);
        let el = subtree_entries(d2, cfg, nd2.children[ci], ch);
        let er = subtree_entries(d2, cfg, nd2.children[ci + 1], ch);
        assert(ci + 1 < nd2.children.len());
        assert(children_entries(d2, cfg, nd2, ch, ci + 1) == er + children_entries(
            d2,
            cfg,
            nd2,
            ch,
            ci + 2,
        ));
        assert(children_entries(d2, cfg, nd2, ch, ci) == el + (er + tail1));
        assert(el + (er + tail1) =~= (el + er) + tail1);
        assert((el + er) + tail1 == kv_insert(head1, k, v) + tail1);
    } else {
        let head1 = subtree_entries(d1, cfg, nd1.children[i], ch);
        let tail1 = children_entries(d1, cfg, nd1, ch, i + 1);
        lemma_children_wf_index(d1, cfg, nd1, ch, lo, hi, i, i);
        assert(lex_le(nd1.keys[i], k)) by {
            if i < ci - 1 {
                if nd1.keys[ci - 1] == k {
                    assert(lex_lt(nd1.keys[i], k));
                } else {
                    lemma_lex_trans(nd1.keys[i], nd1.keys[ci - 1], k);
                }
            }
        }
        lemma_entries_below(d1, cfg, nd1.children[i], ch, child_lo(nd1, lo, i), nd1.keys[i], k);
        lemma_kv_insert_concat_right(head1, tail1, k, v);
        lemma_children_entries_split_insert(d1, d2, cfg, nd1, nd2, ch, lo, hi, i + 1, ci, k, v);
        assert(subtree_entries(d2, cfg, nd2.children[i], ch) == head1);
        assert(children_entries(d2, cfg, nd2, ch, i) == head1 + kv_insert(
            children_entries(d1, cfg, nd1, ch, i + 1),
            k,
            v,
        ));
    }
}

/// Removing `k` from an internal node's contents is removing it from the
/// one child `k` routes to.
proof fn lemma_children_entries_remove(
    d1: Seq<u8>,
    d2: Seq<u8>,
    cfg: StorageConfig,
    nd1: NodeView,
    nd2: NodeView,
    ch: nat,
    lo: Option<Seq<u8>>,
    hi: Option<Seq<u8>>,
    i: int,
    ci: int,
    k: Seq<u8>,
)
    requires
        children_wf(d1, cfg, nd1, ch, lo, hi, i),
        nd1.shape_ok(),
        !nd1.is_leaf(),
        sorted_keys(nd1.keys),
        node_keys_bounded(nd1, lo, hi),
        0 <= i <= ci < nd1.children.len(),
        nd2.children.len() == nd1.children.len(),
        forall|j: int|
            0 <= j < nd1.children.len() && j != ci ==> nd2.children[j] == #[trigger] nd1.children[j],
        subtree_entries(d2, cfg, nd2.children[ci], ch) == kv_remove(
            subtree_entries(d1, cfg, nd1.children[ci], ch),
            k,
        ),
        forall|j: int|
            0 <= j < nd1.children.len() && j != ci ==> subtree_entries(
                d2,
                cfg,
                #[trigger] nd1.children[j],
                ch,
            ) == subtree_entries(d1, cfg, nd1.children[j], ch),
        ci == 0 || lex_le(nd1.keys[ci - 1], k),
        ci == nd1.keys.len() || lex_lt(k, nd1.keys[ci]),
    ensures
        children_entries(d2, cfg, nd2, ch, i) == kv_remove(
            children_entries(d1, cfg, nd1, ch, i),
            k,
        ),
    decreases ci - i,
{
    let head1 = subtree_entries(d1, cfg, nd1.children[i], ch);
    let tail1 = children_entries(d1, cfg, nd1, ch, i + 1);
    if i == ci {
        let tail2 = children_entries(d2, cfg, nd2, ch, i + 1);
        lemma_children_entries_congruence(d1, d2, cfg, nd1, nd2, ch, i + 1);
        assert(tail2 == tail1);
        if ci < nd1.keys.len() {
            lemma_tail_keys_above(d1, cfg, nd1, ch, lo, hi, ci, k);
            assert forall|j: int| 0 <= j < tail1.len() implies tail1[j].0 != k by {
                lemma_lex_trichotomy(k, tail1[j].0);
            }
        } else {
            assert(tail1 =~= Seq::<(Seq<u8>, Seq<u8>)>::empty());
        }
        lemma_kv_remove_concat_left(head1, tail1, k);
        assert(children_entries(d2, cfg, nd2, ch, i) == kv_remove(head1, k) + tail1);
    } else {
        lemma_children_wf_index(d1, cfg, nd1, ch, lo, hi, i, i);
        assert(lex_le(nd1.keys[i], k)) by {
            if i < ci - 1 {
                if nd1.keys[ci - 1] == k {
                    assert(lex_lt(nd1.keys[i], k));
                } else {
                    lemma_lex_trans(nd1.keys[i], nd1.keys[ci - 1], k);
                }
            }
        }
        lemma_entries_below(d1, cfg, nd1.children[i], ch, child_lo(nd1, lo, i), nd1.keys[i], k);
        assert forall|j: int| 0 <= j < head1.len() implies head1[j].0 != k by {
            lemma_lex_trichotomy(head1[j].0, k);
        }
        lemma_kv_remove_concat_right(head1, tail1, k);
        lemma_children_entries_remove(d1, d2, cfg, nd1, nd2, ch, lo, hi, i + 1, ci, k);
        assert(subtree_entries(d2, cfg, nd2.children[i], ch) == head1);
        assert(children_entries(d2, cfg, nd2, ch, i) == head1 + kv_remove(
            children_entries(d1, cfg, nd1, ch, i + 1),
            k,
        ));
    }
}

/// Two nodes whose child lists agree from matching positions on, over
/// images that agree on those subtrees, have the same contents from there.
proof fn lemma_children_entries_offset_cong(
    d1: Seq<u8>,
    d2: Seq<u8>,
    cfg: StorageConfig,
    nd1: NodeView,
    nd2: NodeView,
    ch: nat,
    j1: int,
    j2: int,
)
    requires
        0 <= j1 <= nd1.children.len(),
        0 <= j2 <= nd2.children.len(),
        nd1.children.len() - j1 == nd2.children.len() - j2,
        forall|t: int|
            0 <= t < nd1.children.len() - j1 ==> nd2.children[j2 + t] == #[trigger] nd1.children[j1
                + t],
        forall|t: int|
            0 <= t < nd1.children.len() - j1 ==> subtree_entries(
                d2,
                cfg,
                #[trigger] nd1.children[j1 + t],
                ch,
            ) == subtree_entries(d1, cfg, nd1.children[j1 + t], ch),
    ensures
        children_entries(d2, cfg, nd2, ch, j2) == children_entries(d1, cfg, nd1, ch, j1),
    decreases nd1.children.len() - j1,
{
    if j1 < nd1.children.len() {
        assert(nd2.children[j2 + 0] == nd1.children[j1 + 0]);
        assert(subtree_entries(d2, cfg, nd1.children[j1 + 0], ch) == subtree_entries(
            d1,
            cfg,
            nd1.children[j1 + 0],
            ch,
        ));
        assert forall|t: int| 0 <= t < nd1.children.len() - (j1 + 1) implies nd2.children[(j2 + 1)
            + t] == #[trigger] nd1.children[(j1 + 1) + t] by {
            assert(nd2.children[j2 + (t + 1)] == nd1.children[j1 + (t + 1)]);
        }
        assert forall|t: int| 0 <= t < nd1.children.len() - (j1 + 1) implies subtree_entries(
            d2,
            cfg,
            #[trigger] nd1.children[(j1 + 1) + t],
            ch,
        ) == subtree_entries(d1, cfg, nd1.children[(j1 + 1) + t], ch) by {
            assert(subtree_entries(d2, cfg, nd1.children[j1 + (t + 1)], ch) == subtree_entries(
                d1,
                cfg,
                nd1.children[j1 + (t + 1)],
                ch,
            ));
        }
        lemma_children_entries_offset_cong(d1, d2, cfg, nd1, nd2, ch, j1 + 1, j2 + 1);
    }
}

/// Replacing two adjacent children by any group holding the removal of
/// their joint contents removes the key from the node's contents.  The
/// hypothesis hands the rearranged tail in; this lemma walks the prefix.
proof fn lemma_children_entries_window_remove(
    d1: Seq<u8>,
    d2: Seq<u8>,
    cfg: StorageConfig,
    nd1: NodeView,
    nd2: NodeView,
    ch: nat,
    lo: Option<Seq<u8>>,
    hi: Option<Seq<u8>>,
    i: int,
    wa: int,
    k: Seq<u8>,
)
    requires
        children_wf(d1, cfg, nd1, ch, lo, hi, i),
        nd1.shape_ok(),
        !nd1.is_leaf(),
        sorted_keys(nd1.keys),
        node_keys_bounded(nd1, lo, hi),
        0 <= i <= wa,
        wa + 2 <= nd1.children.len(),
        wa <= nd2.children.len(),
        forall|j: int| 0 <= j < wa ==> nd2.children[j] == #[trigger] nd1.children[j],
        forall|j: int|
            0 <= j < wa ==> subtree_entries(d2, cfg, #[trigger] nd1.children[j], ch)
                == subtree_entries(d1, cfg, nd1.children[j], ch),
        children_entries(d2, cfg, nd2, ch, wa) == kv_remove(
            subtree_entries(d1, cfg, nd1.children[wa], ch) + subtree_entries(
                d1,
                cfg,
                nd1.children[wa + 1],
                ch,
            ),
            k,
        ) + children_entries(d1, cfg, nd1, ch, wa + 2),
        wa == 0 || lex_le(nd1.keys[wa - 1], k),
        wa + 1 == nd1.keys.len() || lex_lt(k, nd1.keys[wa + 1]),
    ensures
        children_entries(d2, cfg, nd2, ch, i) == kv_remove(
            children_entries(d1, cfg, nd1, ch, i),
            k,
        ),
    decreases wa - i,
{
    if i == wa {
        let ea = subtree_entries(d1, cfg, nd1.children[wa], ch);
        let eb = subtree_entries(d1, cfg, nd1.children[wa + 1], ch);
        let tail = children_entries(d1, cfg, nd1, ch, wa + 2);
        assert(children_entries(d1, cfg, nd1, ch, wa + 1) == eb + tail);
        assert(children_entries(d1, cfg, nd1, ch, wa) == ea + (eb + tail));
        assert(children_wf(d1, cfg, nd1, ch, lo, hi, wa + 1));
        assert(children_wf(d1, cfg, nd1, ch, lo, hi, wa + 2));
        if wa + 1 < nd1.keys.len() {
            lemma_tail_keys_above(d1, cfg, nd1, ch, lo, hi, wa + 1, k);
            assert forall|j: int| 0 <= j < tail.len() implies tail[j].0 != k by {
                lemma_lex_trichotomy(k, tail[j].0);
            }
        } else {
            assert(tail =~= Seq::<(Seq<u8>, Seq<u8>)>::empty());
        }
        lemma_kv_remove_concat_left(ea + eb, tail, k);
        assert(ea + (eb + tail) =~= (ea + eb) + tail);
        assert(kv_remove(children_entries(d1, cfg, nd1, ch, wa), k) == kv_remove(ea + eb, k)
            + tail);
    } else {
        let head1 = subtree_entries(d1, cfg, nd1.children[i], ch);
        lemma_children_wf_index(d1, cfg, nd1, ch, lo, hi, i, i);
        assert(lex_le(nd1.keys[i], k)) by {
            if i < wa - 1 {
                if nd1.keys[wa - 1] == k {
                    assert(lex_lt(nd1.keys[i], k));
                } else {
                    lemma_lex_trans(nd1.keys[i], nd1.keys[wa - 1], k);
                }
            }
        }
        lemma_entries_below(d1, cfg, nd1.children[i], ch, child_lo(nd1, lo, i), nd1.keys[i], k);
        assert forall|j: int| 0 <= j < head1.len() implies head1[j].0 != k by {
            lemma_lex_trichotomy(head1[j].0, k);
        }
        lemma_kv_remove_concat_right(head1, children_entries(d1, cfg, nd1, ch, i + 1), k);
        lemma_children_entries_window_remove(d1, d2, cfg, nd1, nd2, ch, lo, hi, i + 1, wa, k);
        assert(nd2.children[i] == nd1.children[i]);
        assert(subtree_entries(d2, cfg, nd1.children[i], ch) == head1);
        assert(subtree_entries(d2, cfg, nd2.children[i], ch) == head1);
        assert(children_entries(d2, cfg, nd2, ch, i) == head1 + kv_remove(
            children_entries(d1, cfg, nd1, ch, i + 1),
            k,
        ));
    }
}

/// A node whose children are a prefix of `nd`'s splits `nd`'s contents at
/// the prefix boundary.
proof fn lemma_children_entries_prefix(
    d: Seq<u8>,
    cfg: StorageConfig,
    nd: NodeView,
    left_nd: NodeView,
    ch: nat,
    i: int,
)
    requires
        left_nd.children.len() <= nd.children.len(),
        forall|j: int|
            0 <= j < left_nd.children.len() ==> left_nd.children[j] == #[trigger] nd.children[j],
        0 <= i <= left_nd.children.len(),
    ensures
        children_entries(d, cfg, nd, ch, i) == children_entries(d, cfg, left_nd, ch, i)
            + children_entries(d, cfg, nd, ch, left_nd.children.len() as int),
    decreases left_nd.children.len() - i,
{
    let m = left_nd.children.len() as int;
    if i == m {
        assert(children_entries(d, cfg, left_nd, ch, i) =~= Seq::<(Seq<u8>, Seq<u8>)>::empty());
        assert(children_entries(d, cfg, nd, ch, i) =~= children_entries(d, cfg, left_nd, ch, i)
            + children_entries(d, cfg, nd, ch, m));
    } else {
        lemma_children_entries_prefix(d, cfg, nd, left_nd, ch, i + 1);
        assert(children_entries(d, cfg, nd, ch, i) =~= children_entries(d, cfg, left_nd, ch, i)
            + children_entries(d, cfg, nd, ch, m));
    }
}

/// A node whose children are `nd`'s from index `s` on has `nd`'s tail
/// contents.
proof fn lemma_children_entries_shift(
    d: Seq<u8>,
    cfg: StorageConfig,
    nd: NodeView,
    right_nd: NodeView,
    ch: nat,
    s: int,
    j: int,
)
    requires
        0 <= s,
        s + right_nd.children.len() == nd.children.len(),
        forall|t: int|
            0 <= t < right_nd.children.len() ==> #[trigger] right_nd.children[t] == nd.children[s
                + t],
        0 <= j <= right_nd.children.len(),
    ensures
        children_entries(d, cfg, right_nd, ch, j) == children_entries(d, cfg, nd, ch, s + j),
    decreases right_nd.children.len() - j,
{
    if j < right_nd.children.len() {
        lemma_children_entries_shift(d, cfg, nd, right_nd, ch, s, j + 1);
    }
}

/// A fresh copy of a byte vector.
fn copy_bytes(v: &Vec<u8>) -> (r: Vec<u8>)
    ensures
        r@ == v@,
{
    let r = crate::bytes::get_bytes(v, 0, v.len());
    proof {
        assert(v@.subrange(0, v@.len() as int) =~= v@);
    }
    r
}

/// A fresh copy of the byte vectors at positions `[a, b)`.
fn take_byte_vecs(v: &Vec<Vec<u8>>, a: usize, b: usize) -> (r: Vec<Vec<u8>>)
    requires
        a <= b <= v.len(),
    ensures
        views_of(r@) == views_of(v@).subrange(a as int, b as int),
        r@.len() == b - a,
        forall|j: int| 0 <= j < b - a ==> r@[j]@ == v@[a + j]@,
{
    let mut r: Vec<Vec<u8>> = Vec::new();
    let mut i = a;
    while i < b
        invariant
            a <= i <= b <= v.len(),
            r@.len() == i - a,
            forall|j: int| 0 <= j < i - a ==> views_of(r@)[j] == views_of(v@)[a + j],
        decreases b - i,
    {
        let ghost prev = r@;
        r.push(copy_bytes(&v[i]));
        proof {
            assert forall|j: int| 0 <= j < i + 1 - a implies views_of(r@)[j] == views_of(v@)[a + j] by {
                if j < i - a {
                    assert(views_of(prev)[j] == views_of(v@)[a + j]);
                    assert(r@[j] == prev[j]);
                } else {
                    assert(r@[j]@ == v@[i as int]@);
                }
            }
        }
        i = i + 1;
    }
    proof {
        assert(views_of(r@) =~= views_of(v@).subrange(a as int, b as int));
        assert forall|j: int| 0 <= j < b - a implies r@[j]@ == v@[a + j]@ by {
            assert(views_of(r@)[j] == views_of(v@).subrange(a as int, b as int)[j]);
        }
    }
    r
}

/// A copy of the offsets at positions `[a, b)`.
fn take_u64s(v: &Vec<u64>, a: usize, b: usize) -> (r: Vec<u64>)
    requires
        a <= b <= v.len(),
    ensures
        r@ == v@.subrange(a as int, b as int),
{
    let mut r: Vec<u64> = Vec::new();
    let mut i = a;
    while i < b
        invariant
            a <= i <= b <= v.len(),
            r@.len() == i - a,
            forall|j: int| 0 <= j < i - a ==> r@[j] == v@[a + j],
        decreases b - i,
    {
        r.push(v[i]);
        i = i + 1;
    }
    proof {
        assert(r@ =~= v@.subrange(a as int, b as int));
    }
    r
}

/// What one level of the copy-on-write insert recursion hands back: the
/// subtree was rewritten at a fresh offset, or it was split into two
/// siblings with a separator key promoted to the parent.
enum InsertResult {
    Replaced(u64),
    Split { promoted_key: Vec<u8>, left_offset: u64, right_offset: u64 },
}

/// What one level of the copy-on-write delete hands back: the key was not
/// there and nothing changed, or the subtree was rewritten at a fresh
/// offset, possibly falling under the configured minimum fill.
enum DeleteResult {
    NotFound,
    Replaced(u64),
    Underfull(u64),
}

/// `d2` begins with all of `d1`: pages only ever get appended.
pub open spec fn extends(d1: Seq<u8>, d2: Seq<u8>) -> bool {
    &&& d1.len() <= d2.len()
    &&& d2.subrange(0, d1.len() as int) == d1
}

pub proof fn lemma_extends_pointwise(d1: Seq<u8>, d2: Seq<u8>)
    requires
        extends(d1, d2),
    ensures
        forall|k: int| 0 <= k < d1.len() ==> d2[k] == d1[k],
{
    assert forall|k: int| 0 <= k < d1.len() implies d2[k] == d1[k] by {
        assert(d1[k] == d2.subrange(0, d1.len() as int)[k]);
    }
}

pub proof fn lemma_extends_refl(d: Seq<u8>)
    ensures
        extends(d, d),
{
    assert(d.subrange(0, d.len() as int) =~= d);
}

pub proof fn lemma_extends_trans(d1: Seq<u8>, d2: Seq<u8>, d3: Seq<u8>)
    requires
        extends(d1, d2),
        extends(d2, d3),
    ensures
        extends(d1, d3),
{
    lemma_extends_pointwise(d1, d2);
    lemma_extends_pointwise(d2, d3);
    assert(d3.subrange(0, d1.len() as int) =~= d1);
}

/// A failed mutation leaves the committed tree intact: any bytes appended
/// past the old image change neither the metadata pointer, the root page,
/// nor the tree hanging from it.
proof fn lemma_commit_unchanged(
    d0: Seq<u8>,
    dx: Seq<u8>,
    cfg: StorageConfig,
    old_root: u64,
    h: nat,
)
    requires
        cfg.wf(),
        subtree_wf(d0, cfg, old_root, h, None, None),
        extends(d0, dx),
        d0.len() >= cfg.page_size,
    ensures
        subtree_wf(dx, cfg, old_root, h, None, None),
        subtree_entries(dx, cfg, old_root, h) == subtree_entries(d0, cfg, old_root, h),
        le64(dx, 0) == le64(d0, 0),
        page_at(dx, old_root as int, cfg.page_size as int) == page_at(
            d0,
            old_root as int,
            cfg.page_size as int,
        ),
{
    lemma_extends_pointwise(d0, dx);
    lemma_subtree_frame(d0, dx, cfg, old_root, h, None, None);
    crate::bytes::lemma_le64_frame(d0, dx, 0);
    assert(page_at(dx, old_root as int, cfg.page_size as int) =~= page_at(
        d0,
        old_root as int,
        cfg.page_size as int,
    ));
}

/// The keys of an entry sequence.
pub open spec fn unzip_keys(es: KvSeq) -> Seq<Seq<u8>> {
    Seq::new(es.len(), |i: int| es[i].0)
}

/// The values of an entry sequence.
pub open spec fn unzip_vals(es: KvSeq) -> Seq<Seq<u8>> {
    Seq::new(es.len(), |i: int| es[i].1)
}

/// The leaf as it stands after upserting `(k, v)` into it.
pub open spec fn leaf_upsert(nd: NodeView, k: Seq<u8>, v: Seq<u8>) -> NodeView {
    let es = kv_insert(zip_kv(nd.keys, nd.values), k, v);
    NodeView { keys: unzip_keys(es), children: Seq::empty(), values: unzip_vals(es) }
}

/// The index of the one child `k` routes to: the number of separators at or
/// below it, a key equal to a separator routing right.
pub open spec fn route_idx(keys: Seq<Seq<u8>>, k: Seq<u8>) -> int
    decreases keys.len(),
{
    if keys.len() == 0 {
        0
    } else if lex_lt(k, keys[0]) {
        0
    } else {
        1 + route_idx(keys.drop_first(), k)
    }
}

/// The leaf an operation on key `k` lands in, descending from `off`.
pub open spec fn target_leaf(d: Seq<u8>, cfg: StorageConfig, off: u64, h: nat, k: Seq<u8>) -> NodeView
    decreases h,
{
    if h == 0 {
        node_at(d, cfg, off)
    } else {
        let nd = node_at(d, cfg, off);
        target_leaf(d, cfg, nd.children[route_idx(nd.keys, k)], (h - 1) as nat, k)
    }
}

/// Every internal node on the route of `k` down from `off` can absorb one
/// more separator `p` with its child pointer without outgrowing its page, so
/// a single split below bubbles up into plain rewrites.
pub open spec fn path_absorbs(
    d: Seq<u8>,
    cfg: StorageConfig,
    off: u64,
    h: nat,
    k: Seq<u8>,
    p: Seq<u8>,
) -> bool
    decreases h,
{
    h == 0 || {
        let nd = node_at(d, cfg, off);
        &&& nd.encoded_size() + 14 + p.len() <= cfg.page_size
        &&& path_absorbs(d, cfg, nd.children[route_idx(nd.keys, k)], (h - 1) as nat, k, p)
    }
}

/// The leaf as it stands after removing key `k` from it.
pub open spec fn leaf_removed(nd: NodeView, k: Seq<u8>) -> NodeView {
    let es = kv_remove(zip_kv(nd.keys, nd.values), k);
    NodeView { keys: unzip_keys(es), children: Seq::empty(), values: unzip_vals(es) }
}

/// Every internal node on the route of `k` down from `off` meets the minimum
/// fill, so a delete below rewrites it without triggering a rebalance of it.
pub open spec fn path_filled(d: Seq<u8>, cfg: StorageConfig, off: u64, h: nat, k: Seq<u8>) -> bool
    decreases h,
{
    h == 0 || {
        let nd = node_at(d, cfg, off);
        &&& nd.encoded_size() >= cfg.min_node_size
        &&& path_filled(d, cfg, nd.children[route_idx(nd.keys, k)], (h - 1) as nat, k)
    }
}

/// The left half of a split leaf: pairs `[0, m)`.
pub open spec fn leaf_prefix(nd: NodeView, m: int) -> NodeView {
    NodeView { keys: nd.keys.take(m), children: Seq::empty(), values: nd.values.take(m) }
}

/// The right half of a split leaf: pairs `[m, n)`.
pub open spec fn leaf_suffix(nd: NodeView, m: int) -> NodeView {
    NodeView { keys: nd.keys.skip(m), children: Seq::empty(), values: nd.values.skip(m) }
}

/// The left half of a split internal node: keys `[0, m)` and children
/// `[0, m]`.
pub open spec fn internal_prefix(nd: NodeView, m: int) -> NodeView {
    NodeView { keys: nd.keys.take(m), children: nd.children.take(m + 1), values: Seq::empty() }
}

/// The right half of a split internal node: keys `(m, n)` and children
/// `(m, n]`; the key at `m` is promoted and retained in neither half.
pub open spec fn internal_suffix(nd: NodeView, m: int) -> NodeView {
    NodeView { keys: nd.keys.skip(m + 1), children: nd.children.skip(m + 1), values: Seq::empty() }
}

/// Encoded size of a fresh root holding one separator and two children.
pub open spec fn fresh_root_size(p: Seq<u8>) -> int {
    25 + p.len() as int
}

/// The routing index is the one slot whose separator range holds `k`.
proof fn lemma_route_idx(keys: Seq<Seq<u8>>, k: Seq<u8>, ci: int)
    requires
        sorted_keys(keys),
        0 <= ci <= keys.len(),
        ci == 0 || lex_le(keys[ci - 1], k),
        ci == keys.len() || lex_lt(k, keys[ci]),
    ensures
        route_idx(keys, k) == ci,
    decreases keys.len(),
{
    if keys.len() == 0 {
    } else if lex_lt(k, keys[0]) {
        if ci > 0 {
            lemma_lex_trichotomy(k, keys[0]);
            if ci - 1 > 0 {
                if keys[ci - 1] == k {
                    assert(lex_lt(keys[0], k));
                } else {
                    lemma_lex_trans(keys[0], keys[ci - 1], k);
                }
                lemma_lex_trichotomy(k, keys[0]);
            }
            assert(false);
        }
    } else {
        lemma_lex_trichotomy(k, keys[0]);
        assert(ci > 0);
        let dk = keys.drop_first();
        assert(forall|j: int| 0 <= j < dk.len() ==> dk[j] == keys[j + 1]);
        assert(sorted_keys(dk));
        lemma_route_idx(dk, k, ci - 1);
    }
}

/// Every child sits at a strictly smaller offset than its parent — the shape
/// of every image this store writes, since copy-on-write appends a parent
/// only after its children.
pub open spec fn offsets_descending(d: Seq<u8>, cfg: StorageConfig, off: u64, h: nat) -> bool
    decreases h, 0int,
{
    h == 0 || children_descending(d, cfg, node_at(d, cfg, off), (h - 1) as nat, off, 0)
}

/// As above, for the children from index `ci` on.
pub open spec fn children_descending(
    d: Seq<u8>,
    cfg: StorageConfig,
    nd: NodeView,
    ch: nat,
    off: u64,
    ci: int,
) -> bool
    decreases ch, nd.children.len() - ci + 1,
{
    ci >= nd.children.len() || {
        &&& nd.children[ci] < off
        &&& offsets_descending(d, cfg, nd.children[ci], ch)
        &&& children_descending(d, cfg, nd, ch, off, ci + 1)
    }
}

proof fn lemma_children_desc_index(
    d: Seq<u8>,
    cfg: StorageConfig,
    nd: NodeView,
    ch: nat,
    off: u64,
    ci: int,
    j: int,
)
    requires
        children_descending(d, cfg, nd, ch, off, ci),
        ci <= j < nd.children.len(),
    ensures
        nd.children[j] < off,
        offsets_descending(d, cfg, nd.children[j], ch),
    decreases j - ci,
{
    if ci < j {
        lemma_children_desc_index(d, cfg, nd, ch, off, ci + 1, j);
    }
}

/// With descending offsets the height is bounded by the root's offset.
proof fn lemma_desc_height_bound(
    d: Seq<u8>,
    cfg: StorageConfig,
    off: u64,
    h: nat,
    lo: Option<Seq<u8>>,
    hi: Option<Seq<u8>>,
)
    requires
        subtree_wf(d, cfg, off, h, lo, hi),
        offsets_descending(d, cfg, off, h),
    ensures
        h <= off,
    decreases h,
{
    if h > 0 {
        let nd = node_at(d, cfg, off);
        assert(nd.children.len() > 0);
        lemma_children_wf_index(d, cfg, nd, (h - 1) as nat, lo, hi, 0, 0);
        lemma_children_desc_index(d, cfg, nd, (h - 1) as nat, off, 0, 0);
        lemma_desc_height_bound(
            d,
            cfg,
            nd.children[0],
            (h - 1) as nat,
            child_lo(nd, lo, 0),
            child_hi(nd, hi, 0),
        );
    }
}

/// The exec bound stands for the ghost bound.
pub open spec fn bound_matches(b: Option<&Vec<u8>>, s: Option<Seq<u8>>) -> bool {
    match (b, s) {
        (Option::Some(v), Option::Some(q)) => v@ == q,
        (Option::None, Option::None) => true,
        _ => false,
    }
}

/// Check one subtree of the image from the bytes up: a valid page, a
/// shapely node within size limits that fits its page, strictly sorted and
/// bounded keys, children at strictly smaller offsets — as this store's
/// copy-on-write appends always place them — all of one height.  `Some(h)`
/// guarantees the subtree is well formed at height `h`; conversely, on a
/// subtree that is well formed with descending offsets the check cannot
/// fail.
#[verifier::loop_isolation(false)]
#[verifier::rlimit(100)]
fn validate_subtree(
    dm: &DiskManager,
    off: u64,
    lo: Option<&Vec<u8>>,
    hi: Option<&Vec<u8>>,
    Ghost(lo_s): Ghost<Option<Seq<u8>>>,
    Ghost(hi_s): Ghost<Option<Seq<u8>>>,
) -> (r: Option<u64>)
    requires
        dm.wf(),
        bound_matches(lo, lo_s),
        bound_matches(hi, hi_s),
    ensures
        r matches Some(h) ==> subtree_wf(dm.image@, dm.config, off, h as nat, lo_s, hi_s),
        forall|hh: nat|
            #[trigger] subtree_wf(dm.image@, dm.config, off, hh, lo_s, hi_s)
                && offsets_descending(dm.image@, dm.config, off, hh) ==> r == Some(hh as u64),
    decreases off,
{
    let ghost d = dm.image@;
    let ghost cfg = dm.config;
    if off < dm.config.page_size as u64 {
        proof {
            assert forall|hh: nat|
                #[trigger] subtree_wf(d, cfg, off, hh, lo_s, hi_s) && offsets_descending(
                    d,
                    cfg,
                    off,
                    hh,
                ) implies false by {}
        }
        return None;
    }
    let node = match dm.load_node_from_disk(off) {
        Ok(n) => n,
        Err(_) => {
            proof {
            assert forall|hh: nat|
                #[trigger] subtree_wf(d, cfg, off, hh, lo_s, hi_s) && offsets_descending(
                    d,
                    cfg,
                    off,
                    hh,
                ) implies false by {}
            }
            return None;
        },
    };
    let ghost nd = node@;
    let n = node.keys.len();
    let is_leaf = node.children.is_empty();

    // Size limits and page fit.
    let mut i: usize = 0;
    while i < n
        invariant
            0 <= i <= n,
            forall|j: int| 0 <= j < i ==> #[trigger] nd.keys[j].len() <= cfg.max_key_size,
            is_leaf ==> forall|j: int|
                0 <= j < i ==> #[trigger] nd.values[j].len() <= cfg.max_val_size,
        decreases n - i,
    {
        if node.keys[i].len() > dm.config.max_key_size as usize {
            proof {
                assert forall|hh: nat|
                    #[trigger] subtree_wf(d, cfg, off, hh, lo_s, hi_s) && offsets_descending(
                        d,
                        cfg,
                        off,
                        hh,
                    ) implies false by {
                    assert(nd.keys[i as int].len() <= cfg.max_key_size);
                }
            }
            return None;
        }
        if is_leaf && node.values[i].len() > dm.config.max_val_size as usize {
            proof {
                assert forall|hh: nat|
                    #[trigger] subtree_wf(d, cfg, off, hh, lo_s, hi_s) && offsets_descending(
                        d,
                        cfg,
                        off,
                        hh,
                    ) implies false by {
                    assert(nd.values[i as int].len() <= cfg.max_val_size);
                }
            }
            return None;
        }
        i = i + 1;
    }
    proof {
        assert(nd.sizes_ok(cfg));
    }
    let ps32 = dm.config.page_size as u32;
    if crate::diskmanager::node_encoded_size_capped(&node, ps32 + 1) > ps32 {
        proof {
            assert forall|hh: nat|
                #[trigger] subtree_wf(d, cfg, off, hh, lo_s, hi_s) && offsets_descending(
                    d,
                    cfg,
                    off,
                    hh,
                ) implies false by {}
        }
        return None;
    }
    proof {
        assert(nd.fits(cfg.page_size as int));
    }

    // Strictly sorted keys within the separator bounds.
    let mut i: usize = 0;
    while i < n
        invariant
            0 <= i <= n,
            forall|a: int, b: int| 0 <= a < b < i ==> lex_lt(nd.keys[a], nd.keys[b]),
            forall|j: int|
                0 <= j < i ==> {
                    &&& below_hi(hi_s, #[trigger] nd.keys[j])
                    &&& above_lo(lo_s, nd.keys[j])
                    &&& (!is_leaf ==> strictly_above(lo_s, nd.keys[j]))
                },
        decreases n - i,
    {
        if i > 0 {
            match key_compare(&node.keys[i - 1], &node.keys[i]) {
                KeyOrder::Less => {},
                _ => {
                    proof {
                        lemma_lex_trichotomy(nd.keys[i - 1], nd.keys[i as int]);
            assert forall|hh: nat|
                #[trigger] subtree_wf(d, cfg, off, hh, lo_s, hi_s) && offsets_descending(
                    d,
                    cfg,
                    off,
                    hh,
                ) implies false by {}
                    }
                    return None;
                },
            }
            proof {
                assert forall|a: int| 0 <= a < i implies lex_lt(nd.keys[a], nd.keys[i as int]) by {
                    if a < i - 1 {
                        lemma_lex_trans(nd.keys[a], nd.keys[i - 1], nd.keys[i as int]);
                    }
                }
            }
        }
        match lo {
            Option::Some(l) => {
                match key_compare(l, &node.keys[i]) {
                    KeyOrder::Less => {},
                    KeyOrder::Equal => {
                        if !is_leaf {
                            proof {
                                lemma_lex_irrefl(nd.keys[i as int]);
            assert forall|hh: nat|
                #[trigger] subtree_wf(d, cfg, off, hh, lo_s, hi_s) && offsets_descending(
                    d,
                    cfg,
                    off,
                    hh,
                ) implies false by {}
                            }
                            return None;
                        }
                    },
                    KeyOrder::Greater => {
                        proof {
                            lemma_lex_trichotomy(l@, nd.keys[i as int]);
            assert forall|hh: nat|
                #[trigger] subtree_wf(d, cfg, off, hh, lo_s, hi_s) && offsets_descending(
                    d,
                    cfg,
                    off,
                    hh,
                ) implies false by {}
                        }
                        return None;
                    },
                }
            },
            Option::None => {},
        }
        match hi {
            Option::Some(h) => {
                match key_compare(&node.keys[i], h) {
                    KeyOrder::Less => {},
                    _ => {
                        proof {
                            lemma_lex_trichotomy(nd.keys[i as int], h@);
            assert forall|hh: nat|
                #[trigger] subtree_wf(d, cfg, off, hh, lo_s, hi_s) && offsets_descending(
                    d,
                    cfg,
                    off,
                    hh,
                ) implies false by {}
                        }
                        return None;
                    },
                }
            },
            Option::None => {},
        }
        i = i + 1;
    }
    proof {
        assert(sorted_keys(nd.keys));
        assert(node_keys_bounded(nd, lo_s, hi_s));
    }

    if is_leaf {
        proof {
            assert forall|hh: nat|
                #[trigger] subtree_wf(d, cfg, off, hh, lo_s, hi_s) && offsets_descending(
                    d,
                    cfg,
                    off,
                    hh,
                ) implies Some(0u64) == Some(hh as u64) by {
                assert(hh == 0);
            }
        }
        return Some(0);
    }

    // Children: strictly smaller offsets, each well formed between its
    // separators, all of one height.
    let mut h0: u64 = 0;
    let mut i: usize = 0;
    while i < node.children.len()
        invariant
            0 <= i <= nd.children.len(),
            i > 0 ==> h0 < u64::MAX,
            forall|j: int|
                0 <= j < i ==> subtree_wf(
                    d,
                    cfg,
                    #[trigger] nd.children[j],
                    h0 as nat,
                    child_lo(nd, lo_s, j),
                    child_hi(nd, hi_s, j),
                ),
            i > 0 ==> forall|hh: nat|
                #[trigger] subtree_wf(d, cfg, off, hh, lo_s, hi_s) && offsets_descending(
                    d,
                    cfg,
                    off,
                    hh,
                ) ==> h0 as nat == (hh - 1),
        decreases nd.children.len() - i,
    {
        let c = node.children[i];
        if c >= off {
            proof {
                assert forall|hh: nat|
                    #[trigger] subtree_wf(d, cfg, off, hh, lo_s, hi_s) && offsets_descending(
                        d,
                        cfg,
                        off,
                        hh,
                    ) implies false by {
                    assert(hh > 0);
                    lemma_children_desc_index(d, cfg, nd, (hh - 1) as nat, off, 0, i as int);
                }
            }
            return None;
        }
        let clo: Option<&Vec<u8>> = if i == 0 {
            lo
        } else {
            Option::Some(&node.keys[i - 1])
        };
        let chi: Option<&Vec<u8>> = if i == node.keys.len() {
            hi
        } else {
            Option::Some(&node.keys[i])
        };
        let res = validate_subtree(
            dm,
            c,
            clo,
            chi,
            Ghost(child_lo(nd, lo_s, i as int)),
            Ghost(child_hi(nd, hi_s, i as int)),
        );
        proof {
            // Under a well-formed descending parent, the child check must
            // come back with the parent's height less one.
            assert forall|hh: nat|
                #[trigger] subtree_wf(d, cfg, off, hh, lo_s, hi_s) && offsets_descending(
                    d,
                    cfg,
                    off,
                    hh,
                ) implies res == Some((hh - 1) as u64) by {
                assert(hh > 0);
                lemma_children_wf_index(d, cfg, nd, (hh - 1) as nat, lo_s, hi_s, 0, i as int);
                lemma_children_desc_index(d, cfg, nd, (hh - 1) as nat, off, 0, i as int);
            }
        }
        let hc = match res {
            Option::None => {
                proof {
            assert forall|hh: nat|
                #[trigger] subtree_wf(d, cfg, off, hh, lo_s, hi_s) && offsets_descending(
                    d,
                    cfg,
                    off,
                    hh,
                ) implies false by {}
                }
                return None;
            },
            Option::Some(hc) => hc,
        };
        if hc == u64::MAX {
            proof {
                assert forall|hh: nat|
                    #[trigger] subtree_wf(d, cfg, off, hh, lo_s, hi_s) && offsets_descending(
                        d,
                        cfg,
                        off,
                        hh,
                    ) implies false by {
                    assert(hh > 0);
                    lemma_desc_height_bound(d, cfg, off, hh, lo_s, hi_s);
                }
            }
            return None;
        }
        if i == 0 {
            h0 = hc;
        } else if hc != h0 {
            proof {
            assert forall|hh: nat|
                #[trigger] subtree_wf(d, cfg, off, hh, lo_s, hi_s) && offsets_descending(
                    d,
                    cfg,
                    off,
                    hh,
                ) implies false by {}
            }
            return None;
        }
        proof {
            assert forall|hh: nat|
                #[trigger] subtree_wf(d, cfg, off, hh, lo_s, hi_s) && offsets_descending(
                    d,
                    cfg,
                    off,
                    hh,
                ) implies h0 as nat == (hh - 1) by {
                assert(hh > 0);
                lemma_desc_height_bound(d, cfg, off, hh, lo_s, hi_s);
                assert(res == Some((hh - 1) as u64));
            }
        }
        i = i + 1;
    }
    proof {
        lemma_children_wf_build(d, cfg, nd, h0 as nat, lo_s, hi_s, 0);
        assert(subtree_wf(d, cfg, off, (h0 + 1) as nat, lo_s, hi_s));
        assert forall|hh: nat|
            #[trigger] subtree_wf(d, cfg, off, hh, lo_s, hi_s) && offsets_descending(
                d,
                cfg,
                off,
                hh,
            ) implies Some((h0 + 1) as u64) == Some(hh as u64) by {
            assert(hh > 0);
            assert(h0 as nat == (hh - 1));
            lemma_desc_height_bound(d, cfg, off, hh, lo_s, hi_s);
        }
    }
    Some(h0 + 1)
}

/// Decide from the bytes alone whether an image can be opened: empty, or a
/// well-formed database written by this store.  `true` establishes
/// [`BTree::new`]'s precondition, so a host can reject a foreign or corrupt
/// file instead of handing it to the store — and on any image this store
/// itself wrote, whose children sit at strictly smaller offsets than their
/// parents, the check succeeds.
pub fn check_image(image: &Vec<u8>, config: &StorageConfig) -> (r: bool)
    requires
        config.wf(),
    ensures
        r ==> image@.len() == 0 || image_wf(image@, *config),
        image@.len() == 0 ==> r == true,
        image_wf(image@, *config) && offsets_descending(
            image@,
            *config,
            (le64(image@, 0) as u64),
            image_height(image@, *config),
        ) ==> r == true,
{
    if image.len() == 0 {
        return true;
    }
    let ps = config.page_size as usize;
    if image.len() < ps {
        return false;
    }
    if image.len() % ps != 0 {
        return false;
    }
    let dm = DiskManager { image: crate::bytes::get_bytes(image, 0, image.len()), config: *config };
    proof {
        assert(dm.image@ =~= image@);
        assert(dm.wf());
    }
    let root = dm.read_metadata();
    match validate_subtree(&dm, root, Option::None, Option::None, Ghost(None), Ghost(None)) {
        Option::Some(h) => {
            proof {
                assert(subtree_wf(image@, *config, (le64(image@, 0) as u64), h as nat, None, None));
            }
            true
        },
        Option::None => {
            proof {
                if image_wf(image@, *config) && offsets_descending(
                    image@,
                    *config,
                    (le64(image@, 0) as u64),
                    image_height(image@, *config),
                ) {
                    let hh = image_height(image@, *config);
                    assert(subtree_wf(image@, *config, (le64(image@, 0) as u64), hh, None, None));
                    assert(false);
                }
            }
            false
        },
    }
}

/// A fresh copy of a node.
fn clone_node(n: &Node) -> (r: Node)
    ensures
        r@ == n@,
{
    let r = Node {
        keys: take_byte_vecs(&n.keys, 0, n.keys.len()),
        children: take_u64s(&n.children, 0, n.children.len()),
        values: take_byte_vecs(&n.values, 0, n.values.len()),
    };
    proof {
        assert(r@.keys =~= n@.keys);
        assert(r@.values =~= n@.values);
        assert(r@.children =~= n@.children);
        assert(r@ =~= n@);
    }
    r
}

/// The configuration an `open` call settles on: the one handed in, or the
/// documented defaults.
pub open spec fn chosen_config(opt: Option<StorageConfig>) -> StorageConfig {
    match opt {
        Some(c) => c,
        None => crate::configs::spec_default(),
    }
}

/// The image holds a database: a metadata page, whole pages after it, and a
/// well-formed tree at the offset the metadata points to.
pub open spec fn image_wf(d: Seq<u8>, cfg: StorageConfig) -> bool {
    &&& d.len() >= cfg.page_size
    &&& (d.len() as int) % (cfg.page_size as int) == 0
    &&& exists|h: nat|
        #[trigger] subtree_wf(d, cfg, (le64(d, 0) as u64), h, None::<Seq<u8>>, None::<Seq<u8>>)
}

/// The height of the committed tree: the one depth at which its leaves sit.
pub open spec fn image_height(d: Seq<u8>, cfg: StorageConfig) -> nat {
    choose|h: nat|
        #[trigger] subtree_wf(d, cfg, (le64(d, 0) as u64), h, None::<Seq<u8>>, None::<Seq<u8>>)
}

/// The key/value contents an image commits to: those reachable from the
/// root offset in its metadata page.
pub open spec fn image_entries(d: Seq<u8>, cfg: StorageConfig) -> KvSeq {
    subtree_entries(d, cfg, (le64(d, 0) as u64), image_height(d, cfg))
}

/// The store: the database image, the committed root's offset and a decoded
/// copy of the root node, so that a traversal does not pay a decode for the
/// top of the tree.
pub struct BTree {
    pub root: Node,
    pub root_offset: u64,
    pub storage_config: StorageConfig,
    pub disk_manager: DiskManager,
    pub height: Ghost<nat>,
}

impl BTree {
    /// The store's invariant: the image is page-aligned, the metadata page
    /// commits to `root_offset`, a well-formed tree of height `height` sits
    /// there, and `root` caches its top node.
    pub open spec fn wf(self) -> bool {
        &&& self.disk_manager.wf()
        &&& self.storage_config == self.disk_manager.config
        &&& subtree_wf(
            self.disk_manager.image@,
            self.storage_config,
            self.root_offset,
            self.height@,
            None::<Seq<u8>>,
            None::<Seq<u8>>,
        )
        &&& self.root@ == node_at(self.disk_manager.image@, self.storage_config, self.root_offset)
        &&& le64(self.disk_manager.image@, 0) == self.root_offset
    }

    /// The committed contents, in key order.
    pub open spec fn entries(self) -> KvSeq {
        subtree_entries(
            self.disk_manager.image@,
            self.storage_config,
            self.root_offset,
            self.height@,
        )
    }

    /// Open a store over a database image: an empty image is initialized to
    /// an empty tree, any other image must already hold a database written
    /// under the same configuration.
    pub fn new(image: Vec<u8>, storage_config: Option<StorageConfig>) -> (bt: BTree)
        requires
            chosen_config(storage_config).wf(),
            image@.len() == 0 || image_wf(image@, chosen_config(storage_config)),
        ensures
            bt.wf(),
            bt.storage_config == chosen_config(storage_config),
            image@.len() == 0 ==> bt.entries() == Seq::<(Seq<u8>, Seq<u8>)>::empty(),
            image@.len() == 0 ==> bt.height@ == 0 && bt.root_offset == chosen_config(
                storage_config,
            ).first_page_offset,
            image@.len() != 0 ==> bt.disk_manager.image@ == image@ && bt.entries()
                == image_entries(image@, chosen_config(storage_config)),
    {
        let ghost img0 = image@;
        let config = match storage_config {
            Some(c) => c,
            None => StorageConfig::default(),
        };
        let disk_manager = DiskManager::new(image, config);
        let ghost d = disk_manager.image@;
        let root_offset = disk_manager.read_metadata();
        let ghost h0: nat = if img0.len() == 0 {
            0
        } else {
            image_height(img0, config)
        };
        proof {
            if img0.len() == 0 {
                let fpo = config.first_page_offset;
                let nd = node_at(d, config, fpo);
                assert(nd.keys.len() == 0 && nd.children.len() == 0 && nd.values.len() == 0);
                assert(subtree_wf(d, config, fpo, 0, None::<Seq<u8>>, None::<Seq<u8>>));
                assert(subtree_entries(d, config, fpo, 0) =~= Seq::<(Seq<u8>, Seq<u8>)>::empty());
            }
        }
        let root = match disk_manager.load_node_from_disk(root_offset) {
            Ok(n) => n,
            Err(_) => {
                proof {
                    assert(false);
                }
                vstd::pervasive::unreached()
            },
        };
        BTree { root, root_offset, storage_config: config, disk_manager, height: Ghost(h0) }
    }

    /// Look a key up by descending from the cached root: at each internal
    /// node the key routes to the one child whose separator range holds it.
    pub fn get(&self, key: &Vec<u8>) -> (r: Option<Vec<u8>>)
        requires
            self.wf(),
        ensures
            kv_lookup(self.entries(), key@) == (match r {
                Some(v) => Some(v@),
                None => None::<Seq<u8>>,
            }),
    {
        let ghost d = self.disk_manager.image@;
        let ghost cfg = self.storage_config;
        let mut off = self.root_offset;
        let mut node = clone_node(&self.root);
        let ghost mut h = self.height@;
        let ghost mut lo: Option<Seq<u8>> = None;
        let ghost mut hi: Option<Seq<u8>> = None;
        loop
            invariant
                self.wf(),
                d == self.disk_manager.image@,
                cfg == self.storage_config,
                subtree_wf(d, cfg, off, h, lo, hi),
                node@ == node_at(d, cfg, off),
                kv_lookup(subtree_entries(d, cfg, off, h), key@) == kv_lookup(
                    self.entries(),
                    key@,
                ),
            decreases h,
        {
            let ghost nd = node_at(d, cfg, off);
            if node.children.is_empty() {
                proof {
                    assert(h == 0);
                }
                let ghost es = subtree_entries(d, cfg, off, h);
                match find_key(&node.keys, key) {
                    Ok(i) => {
                        let v = copy_bytes(&node.values[i]);
                        proof {
                            assert(es[i as int] == (nd.keys[i as int], nd.values[i as int]));
                            assert forall|j: int| 0 <= j < i implies es[j].0 != key@ by {
                                lemma_lex_trichotomy(nd.keys[j], key@);
                            }
                            crate::entries::lemma_kv_lookup_hit(es, key@, i as int);
                        }
                        return Some(v);
                    },
                    Err(_) => {
                        proof {
                            assert forall|j: int| 0 <= j < es.len() implies es[j].0 != key@ by {
                                lemma_lex_trichotomy(nd.keys[j], key@);
                            }
                            lemma_kv_lookup_none(es, key@);
                        }
                        return None;
                    },
                }
            } else {
                proof {
                    assert(h > 0);
                }
                let ci = match find_key(&node.keys, key) {
                    Ok(i) => i + 1,
                    Err(i) => i,
                };
                proof {
                    let ch = (h - 1) as nat;
                    assert(ci <= nd.keys.len());
                    lemma_children_lookup(d, cfg, nd, ch, lo, hi, 0, ci as int, key@);
                    lemma_children_wf_index(d, cfg, nd, ch, lo, hi, 0, ci as int);
                    let nlo = child_lo(nd, lo, ci as int);
                    let nhi = child_hi(nd, hi, ci as int);
                    lo = nlo;
                    hi = nhi;
                    h = ch;
                }
                off = node.children[ci];
                node = match self.disk_manager.load_node_from_disk(off) {
                    Ok(n) => n,
                    Err(_) => {
                        proof {
                            assert(false);
                        }
                        vstd::pervasive::unreached()
                    },
                };
            }
        }
    }
}

/// Write a rewritten leaf: place or replace the key at its sorted position,
/// then try-append.  A leaf that no longer fits is split instead.
#[verifier::loop_isolation(false)]
#[verifier::rlimit(100)]
fn insert_into_leaf(
    dm: &mut DiskManager,
    node: Node,
    Ghost(lo): Ghost<Option<Seq<u8>>>,
    Ghost(hi): Ghost<Option<Seq<u8>>>,
    key: &Vec<u8>,
    value: &Vec<u8>,
) -> (r: Result<InsertResult, StorageError>)
    requires
        old(dm).wf(),
        node@.is_leaf(),
        node@.shape_ok(),
        node@.sizes_ok(old(dm).config),
        sorted_keys(node@.keys),
        node_keys_bounded(node@, lo, hi),
        in_bounds(lo, hi, key@),
        key@.len() <= old(dm).config.max_key_size,
        value@.len() <= old(dm).config.max_val_size,
    ensures
        final(dm).wf(),
        final(dm).config == old(dm).config,
        extends(old(dm).image@, final(dm).image@),
        match r {
            Ok(InsertResult::Replaced(o2)) => {
                &&& subtree_wf(final(dm).image@, old(dm).config, o2, 0, lo, hi)
                &&& subtree_entries(final(dm).image@, old(dm).config, o2, 0) == kv_insert(
                    zip_kv(node@.keys, node@.values),
                    key@,
                    value@,
                )
            },
            Ok(InsertResult::Split { promoted_key, left_offset, right_offset }) => {
                &&& subtree_wf(final(dm).image@, old(dm).config, left_offset, 0, lo, Some(promoted_key@))
                &&& subtree_wf(final(dm).image@, old(dm).config, right_offset, 0, Some(promoted_key@), hi)
                &&& subtree_entries(final(dm).image@, old(dm).config, left_offset, 0)
                    + subtree_entries(final(dm).image@, old(dm).config, right_offset, 0)
                    == kv_insert(zip_kv(node@.keys, node@.values), key@, value@)
                &&& in_bounds(lo, hi, promoted_key@)
                &&& strictly_above(lo, promoted_key@)
                &&& promoted_key@.len() <= old(dm).config.max_key_size
            },
            Err(e) => e == StorageError::PageOverflow,
        },
        leaf_upsert(node@, key@, value@).fits(old(dm).config.page_size as int) ==> r matches Ok(
            InsertResult::Replaced(_),
        ),
        ({
            let u = leaf_upsert(node@, key@, value@);
            let ps = old(dm).config.page_size as int;
            &&& !u.fits(ps)
            &&& u.keys.len() >= 2
            &&& leaf_prefix(u, u.keys.len() as int / 2).fits(ps)
            &&& leaf_suffix(u, u.keys.len() as int / 2).fits(ps)
        }) ==> r matches Ok(InsertResult::Split { .. }),
        r matches Ok(InsertResult::Split { promoted_key, left_offset, right_offset }) ==> {
            let u = leaf_upsert(node@, key@, value@);
            promoted_key@ == u.keys[u.keys.len() as int / 2]
        },
{
    let ghost ks0 = node@.keys;
    let ghost vs0 = node@.values;
    let ghost es0 = zip_kv(ks0, vs0);
    let Node { mut keys, children: _, mut values } = node;
    let ghost es1: KvSeq = kv_insert(es0, key@, value@);
    proof {
        assert(forall|j: int| 0 <= j < es0.len() ==> #[trigger] es0[j] == (ks0[j], vs0[j]));
    }
    match find_key(&keys, key) {
        Ok(pos) => {
            proof {
                assert(values@.len() == keys@.len());
            }
            values[pos] = copy_bytes(value);
            proof {
                assert forall|j: int| 0 <= j < pos implies lex_lt(es0[j].0, key@) by {
                    assert(lex_lt(ks0[j], ks0[pos as int]));
                }
                lemma_kv_insert_hit(es0, key@, value@, pos as int);
                assert(zip_kv(views_of(keys@), views_of(values@)) =~= es1);
                assert(views_of(keys@) =~= ks0);
                assert forall|i: int| 0 <= i < views_of(values@).len() implies #[trigger] views_of(
                    values@,
                )[i].len() <= dm.config.max_val_size by {
                    if i != pos {
                        assert(views_of(values@)[i] == vs0[i]);
                        assert(vs0[i].len() <= dm.config.max_val_size);
                    }
                }
            }
        },
        Err(pos) => {
            keys.insert(pos, copy_bytes(key));
            values.insert(pos, copy_bytes(value));
            proof {
                lemma_kv_insert_miss(es0, key@, value@, pos as int);
                let ks1 = views_of(keys@);
                assert(ks1.len() == ks0.len() + 1);
                assert(forall|j: int| 0 <= j < pos ==> #[trigger] ks1[j] == ks0[j]);
                assert(ks1[pos as int] == key@);
                assert(forall|j: int| pos < j < ks1.len() ==> #[trigger] ks1[j] == ks0[j - 1]);
                assert(zip_kv(ks1, views_of(values@)) =~= es1);
                assert forall|i: int, j: int| 0 <= i < j < ks1.len() implies lex_lt(
                    ks1[i],
                    ks1[j],
                ) by {
                    if i < pos && j == pos {
                        assert(lex_lt(ks0[i], key@));
                    } else if i == pos && j > pos {
                        assert(lex_lt(key@, ks0[j - 1]));
                    } else if i < pos && j > pos {
                        assert(lex_lt(ks0[i], ks0[j - 1]));
                    }
                }
                assert(sorted_keys(ks1));
                assert forall|i: int| 0 <= i < ks1.len() implies #[trigger] ks1[i].len()
                    <= dm.config.max_key_size by {
                    if i < pos {
                        assert(ks0[i].len() <= dm.config.max_key_size);
                    } else if i > pos {
                        assert(ks0[i - 1].len() <= dm.config.max_key_size);
                    }
                }
                let vs1 = views_of(values@);
                assert forall|i: int| 0 <= i < vs1.len() implies #[trigger] vs1[i].len()
                    <= dm.config.max_val_size by {
                    if i < pos {
                        assert(vs1[i] == vs0[i]);
                        assert(vs0[i].len() <= dm.config.max_val_size);
                    } else if i > pos {
                        assert(vs1[i] == vs0[i - 1]);
                        assert(vs0[i - 1].len() <= dm.config.max_val_size);
                    }
                }
            }
        },
    }
    let new_node = Node { keys, children: Vec::new(), values };
    let ghost nv = new_node@;
    proof {
        assert(nv.is_leaf() && nv.shape_ok());
        assert(zip_kv(nv.keys, nv.values) == es1);
        assert(nv.keys =~= unzip_keys(es1));
        assert(nv.values =~= unzip_vals(es1));
        assert(nv =~= leaf_upsert(NodeView { keys: ks0, children: Seq::empty(), values: vs0 }, key@, value@));
        assert(nv =~= leaf_upsert(node@, key@, value@));
        assert(sorted_keys(nv.keys));
        assert(node_keys_bounded(nv, lo, hi));
        assert(nv.sizes_ok(dm.config));
    }
    let new_offset = dm.get_new_offset();
    match dm.append_node_to_disk(new_offset, &new_node) {
        EncodeResult::Encoded => {
            proof {
                let d2 = dm.image@;
                let cfg = dm.config;
                assert(node_at(d2, cfg, new_offset) == nv);
                assert(subtree_wf(d2, cfg, new_offset, 0, lo, hi));
                assert(subtree_entries(d2, cfg, new_offset, 0) == es1);
            }
            Ok(InsertResult::Replaced(new_offset))
        },
        EncodeResult::NeedSplit => {
            if new_node.keys.len() < 2 {
                proof {
                    lemma_extends_refl(dm.image@);
                }
                return Err(StorageError::PageOverflow);
            }
            propagate_leaf_split(dm, new_node, Ghost(lo), Ghost(hi))
        },
    }
}

/// Split an overfull rewritten leaf by index: the left sibling keeps the
/// first half of the pairs, the right sibling the rest, and the right
/// sibling's first key is promoted as the routing separator.
#[verifier::loop_isolation(false)]
#[verifier::rlimit(100)]
fn propagate_leaf_split(
    dm: &mut DiskManager,
    node: Node,
    Ghost(lo): Ghost<Option<Seq<u8>>>,
    Ghost(hi): Ghost<Option<Seq<u8>>>,
) -> (r: Result<InsertResult, StorageError>)
    requires
        old(dm).wf(),
        node@.is_leaf(),
        node@.shape_ok(),
        node@.sizes_ok(old(dm).config),
        sorted_keys(node@.keys),
        node_keys_bounded(node@, lo, hi),
        node@.keys.len() >= 2,
    ensures
        final(dm).wf(),
        final(dm).config == old(dm).config,
        extends(old(dm).image@, final(dm).image@),
        match r {
            Ok(InsertResult::Replaced(_)) => false,
            Ok(InsertResult::Split { promoted_key, left_offset, right_offset }) => {
                &&& subtree_wf(final(dm).image@, old(dm).config, left_offset, 0, lo, Some(promoted_key@))
                &&& subtree_wf(final(dm).image@, old(dm).config, right_offset, 0, Some(promoted_key@), hi)
                &&& subtree_entries(final(dm).image@, old(dm).config, left_offset, 0)
                    + subtree_entries(final(dm).image@, old(dm).config, right_offset, 0) == zip_kv(
                    node@.keys,
                    node@.values,
                )
                &&& in_bounds(lo, hi, promoted_key@)
                &&& strictly_above(lo, promoted_key@)
                &&& promoted_key@.len() <= old(dm).config.max_key_size
            },
            Err(e) => e == StorageError::PageOverflow,
        },
        leaf_prefix(node@, node@.keys.len() as int / 2).fits(old(dm).config.page_size as int)
            && leaf_suffix(node@, node@.keys.len() as int / 2).fits(
            old(dm).config.page_size as int,
        ) ==> r matches Ok(InsertResult::Split { .. }),
        r matches Ok(InsertResult::Split { promoted_key, left_offset, right_offset }) ==> {
            &&& promoted_key@ == node@.keys[node@.keys.len() as int / 2]
            &&& subtree_entries(final(dm).image@, old(dm).config, left_offset, 0) == zip_kv(
                node@.keys,
                node@.values,
            ).take(node@.keys.len() as int / 2)
            &&& subtree_entries(final(dm).image@, old(dm).config, right_offset, 0) == zip_kv(
                node@.keys,
                node@.values,
            ).skip(node@.keys.len() as int / 2)
        },
{
    let ghost d0 = dm.image@;
    let ghost cfg = dm.config;
    let ghost nv = node@;
    let n = node.keys.len();
    let mid = n / 2;
    proof {
        assert(mid == nv.keys.len() as int / 2);
    }
    let left_node = Node {
        keys: take_byte_vecs(&node.keys, 0, mid),
        children: Vec::new(),
        values: take_byte_vecs(&node.values, 0, mid),
    };
    proof {
        assert(left_node@ =~= leaf_prefix(nv, mid as int));
    }
    let left_offset = dm.get_new_offset();
    let res_left = dm.append_node_to_disk(left_offset, &left_node);
    match res_left {
        EncodeResult::NeedSplit => {
            proof {
                lemma_extends_refl(dm.image@);
            }
            return Err(StorageError::PageOverflow);
        },
        EncodeResult::Encoded => {},
    }
    let ghost d1 = dm.image@;
    let right_node = Node {
        keys: take_byte_vecs(&node.keys, mid, n),
        children: Vec::new(),
        values: take_byte_vecs(&node.values, mid, n),
    };
    proof {
        assert(right_node@ =~= leaf_suffix(nv, mid as int));
    }
    let right_offset = dm.get_new_offset();
    let res_right = dm.append_node_to_disk(right_offset, &right_node);
    match res_right {
        EncodeResult::NeedSplit => {
            proof {
                lemma_extends_refl(dm.image@);
                lemma_extends_trans(d0, d1, dm.image@);
            }
            return Err(StorageError::PageOverflow);
        },
        EncodeResult::Encoded => {},
    }
    let promoted_key = copy_bytes(&node.keys[mid]);
    proof {
        let d2 = dm.image@;
        let p = promoted_key@;
        lemma_extends_trans(d0, d1, d2);
        lemma_extends_pointwise(d1, d2);
        // The left page is untouched by the right append.
        assert(page_at(d2, left_offset as int, cfg.page_size as int) =~= page_at(
            d1,
            left_offset as int,
            cfg.page_size as int,
        ));
        assert(node_at(d2, cfg, left_offset) == left_node@);
        assert(node_at(d2, cfg, right_offset) == right_node@);
        assert(forall|j: int| 0 <= j < mid ==> #[trigger] left_node@.keys[j] == nv.keys[j]);
        assert(forall|j: int| 0 <= j < mid ==> #[trigger] left_node@.values[j] == nv.values[j]);
        assert(forall|j: int|
            0 <= j < n - mid ==> #[trigger] right_node@.keys[j] == nv.keys[mid + j]);
        assert(forall|j: int|
            0 <= j < n - mid ==> #[trigger] right_node@.values[j] == nv.values[mid + j]);
        assert(p == nv.keys[mid as int]);
        // Bounds of the two halves around the promoted key.
        assert(node_keys_bounded(left_node@, lo, Some(p)));
        assert forall|j: int| 0 <= j < right_node@.keys.len() implies {
            &&& below_hi(hi, #[trigger] right_node@.keys[j])
            &&& above_lo(Some(p), right_node@.keys[j])
        } by {
            if j > 0 {
                assert(lex_lt(nv.keys[mid as int], nv.keys[mid + j]));
            }
        }
        assert(node_keys_bounded(right_node@, Some(p), hi));
        assert(subtree_wf(d2, cfg, left_offset, 0, lo, Some(p)));
        assert(subtree_wf(d2, cfg, right_offset, 0, Some(p), hi));
        assert(subtree_entries(d2, cfg, left_offset, 0) + subtree_entries(d2, cfg, right_offset, 0)
            =~= zip_kv(nv.keys, nv.values));
        assert(subtree_entries(d2, cfg, left_offset, 0) =~= zip_kv(nv.keys, nv.values).take(
            mid as int,
        ));
        assert(subtree_entries(d2, cfg, right_offset, 0) =~= zip_kv(nv.keys, nv.values).skip(
            mid as int,
        ));
        // The promoted key lies strictly above the lower bound: the first
        // key sits at or above it and strictly below the promoted key.
        assert(strictly_above(lo, p)) by {
            if lo is Some {
                let l = lo.unwrap();
                assert(above_lo(lo, nv.keys[0]));
                assert(lex_lt(nv.keys[0], p));
                if l != nv.keys[0] {
                    lemma_lex_trans(l, nv.keys[0], p);
                }
            }
        }
        assert(in_bounds(lo, hi, p));
    }
    Ok(InsertResult::Split { promoted_key, left_offset, right_offset })
}

/// Split an overfull rewritten internal node by index: the left sibling
/// keeps keys `[0, mid)` and children `[0, mid]`, the right sibling keys and
/// children past `mid`, and the key at `mid` is promoted to the parent and
/// retained in neither half.
#[verifier::loop_isolation(false)]
#[verifier::rlimit(100)]
fn propagate_internal_split(
    dm: &mut DiskManager,
    node: Node,
    Ghost(ch): Ghost<nat>,
    Ghost(lo): Ghost<Option<Seq<u8>>>,
    Ghost(hi): Ghost<Option<Seq<u8>>>,
) -> (r: Result<InsertResult, StorageError>)
    requires
        old(dm).wf(),
        !node@.is_leaf(),
        node@.shape_ok(),
        node@.sizes_ok(old(dm).config),
        sorted_keys(node@.keys),
        node_keys_bounded(node@, lo, hi),
        children_wf(old(dm).image@, old(dm).config, node@, ch, lo, hi, 0),
        node@.keys.len() >= 1,
    ensures
        final(dm).wf(),
        final(dm).config == old(dm).config,
        extends(old(dm).image@, final(dm).image@),
        match r {
            Ok(InsertResult::Replaced(_)) => false,
            Ok(InsertResult::Split { promoted_key, left_offset, right_offset }) => {
                &&& subtree_wf(
                    final(dm).image@,
                    old(dm).config,
                    left_offset,
                    (ch + 1) as nat,
                    lo,
                    Some(promoted_key@),
                )
                &&& subtree_wf(
                    final(dm).image@,
                    old(dm).config,
                    right_offset,
                    (ch + 1) as nat,
                    Some(promoted_key@),
                    hi,
                )
                &&& subtree_entries(final(dm).image@, old(dm).config, left_offset, (ch + 1) as nat)
                    + subtree_entries(
                    final(dm).image@,
                    old(dm).config,
                    right_offset,
                    (ch + 1) as nat,
                ) == children_entries(old(dm).image@, old(dm).config, node@, ch, 0)
                &&& in_bounds(lo, hi, promoted_key@)
                &&& strictly_above(lo, promoted_key@)
                &&& promoted_key@.len() <= old(dm).config.max_key_size
            },
            Err(e) => e == StorageError::PageOverflow,
        },
        internal_prefix(node@, node@.keys.len() as int / 2).fits(old(dm).config.page_size as int)
            && internal_suffix(node@, node@.keys.len() as int / 2).fits(
            old(dm).config.page_size as int,
        ) ==> r matches Ok(InsertResult::Split { .. }),
        r matches Ok(InsertResult::Split { promoted_key, left_offset, right_offset }) ==> {
            &&& promoted_key@ == node@.keys[node@.keys.len() as int / 2]
            &&& node_at(final(dm).image@, old(dm).config, left_offset) == internal_prefix(
                node@,
                node@.keys.len() as int / 2,
            )
            &&& node_at(final(dm).image@, old(dm).config, right_offset) == internal_suffix(
                node@,
                node@.keys.len() as int / 2,
            )
        },
{
    let ghost d0 = dm.image@;
    let ghost cfg = dm.config;
    let ghost nv = node@;
    let n = node.keys.len();
    let mid = n / 2;
    proof {
        assert(mid == nv.keys.len() as int / 2);
    }
    let left_node = Node {
        keys: take_byte_vecs(&node.keys, 0, mid),
        children: take_u64s(&node.children, 0, mid + 1),
        values: Vec::new(),
    };
    proof {
        assert(left_node@ =~= internal_prefix(nv, mid as int));
    }
    let left_offset = dm.get_new_offset();
    match dm.append_node_to_disk(left_offset, &left_node) {
        EncodeResult::NeedSplit => {
            proof {
                lemma_extends_refl(dm.image@);
            }
            return Err(StorageError::PageOverflow);
        },
        EncodeResult::Encoded => {},
    }
    let ghost d1 = dm.image@;
    let right_node = Node {
        keys: take_byte_vecs(&node.keys, mid + 1, n),
        children: take_u64s(&node.children, mid + 1, n + 1),
        values: Vec::new(),
    };
    proof {
        assert(right_node@ =~= internal_suffix(nv, mid as int));
    }
    let right_offset = dm.get_new_offset();
    match dm.append_node_to_disk(right_offset, &right_node) {
        EncodeResult::NeedSplit => {
            proof {
                lemma_extends_refl(dm.image@);
                lemma_extends_trans(d0, d1, dm.image@);
            }
            return Err(StorageError::PageOverflow);
        },
        EncodeResult::Encoded => {},
    }
    let promoted_key = copy_bytes(&node.keys[mid]);
    proof {
        let d2 = dm.image@;
        let p = promoted_key@;
        let lnd = left_node@;
        let rnd = right_node@;
        lemma_extends_trans(d0, d1, d2);
        lemma_extends_pointwise(d0, d1);
        lemma_extends_pointwise(d1, d2);
        lemma_extends_pointwise(d0, d2);
        assert(page_at(d2, left_offset as int, cfg.page_size as int) =~= page_at(
            d1,
            left_offset as int,
            cfg.page_size as int,
        ));
        assert(node_at(d2, cfg, left_offset) == lnd);
        assert(node_at(d2, cfg, right_offset) == rnd);
        assert(forall|j: int| 0 <= j < mid ==> #[trigger] lnd.keys[j] == nv.keys[j]);
        assert(forall|j: int| 0 <= j < mid + 1 ==> #[trigger] lnd.children[j] == nv.children[j]);
        assert(forall|j: int|
            0 <= j < n - mid - 1 ==> #[trigger] rnd.keys[j] == nv.keys[mid + 1 + j]);
        assert(forall|j: int|
            0 <= j < n - mid ==> #[trigger] rnd.children[j] == nv.children[mid + 1 + j]);
        assert(p == nv.keys[mid as int]);
        assert(!lnd.is_leaf() && !rnd.is_leaf());
        assert(lnd.shape_ok() && rnd.shape_ok());

        // Both halves keep their children well formed under the same
        // separator bounds they had, with the promoted key as the new edge.
        assert forall|j: int| 0 <= j < lnd.children.len() implies subtree_wf(
            d2,
            cfg,
            #[trigger] lnd.children[j],
            ch,
            child_lo(lnd, lo, j),
            child_hi(lnd, Some(p), j),
        ) by {
            lemma_children_wf_index(d0, cfg, nv, ch, lo, hi, 0, j);
            assert(child_lo(lnd, lo, j) == child_lo(nv, lo, j));
            assert(child_hi(lnd, Some(p), j) == child_hi(nv, hi, j));
            lemma_subtree_frame(d0, d2, cfg, nv.children[j], ch, child_lo(nv, lo, j), child_hi(nv, hi, j));
        }
        lemma_children_wf_build(d2, cfg, lnd, ch, lo, Some(p), 0);
        assert forall|j: int| 0 <= j < rnd.children.len() implies subtree_wf(
            d2,
            cfg,
            #[trigger] rnd.children[j],
            ch,
            child_lo(rnd, Some(p), j),
            child_hi(rnd, hi, j),
        ) by {
            lemma_children_wf_index(d0, cfg, nv, ch, lo, hi, 0, mid + 1 + j);
            assert(child_lo(rnd, Some(p), j) == child_lo(nv, lo, mid + 1 + j));
            assert(child_hi(rnd, hi, j) == child_hi(nv, hi, mid + 1 + j));
            lemma_subtree_frame(
                d0,
                d2,
                cfg,
                nv.children[mid + 1 + j],
                ch,
                child_lo(nv, lo, mid + 1 + j),
                child_hi(nv, hi, mid + 1 + j),
            );
        }
        lemma_children_wf_build(d2, cfg, rnd, ch, Some(p), hi, 0);

        assert(node_keys_bounded(lnd, lo, Some(p)));
        assert forall|j: int| 0 <= j < rnd.keys.len() implies {
            &&& below_hi(hi, #[trigger] rnd.keys[j])
            &&& above_lo(Some(p), rnd.keys[j])
            &&& strictly_above(Some(p), rnd.keys[j])
        } by {
            assert(lex_lt(nv.keys[mid as int], nv.keys[mid + 1 + j]));
        }
        assert(node_keys_bounded(rnd, Some(p), hi));
        assert(subtree_wf(d2, cfg, left_offset, (ch + 1) as nat, lo, Some(p)));
        assert(subtree_wf(d2, cfg, right_offset, (ch + 1) as nat, Some(p), hi));

        // The two halves together hold exactly the node's contents.
        assert forall|j: int| 0 <= j < nv.children.len() implies subtree_entries(
            d2,
            cfg,
            #[trigger] nv.children[j],
            ch,
        ) == subtree_entries(d0, cfg, nv.children[j], ch) by {
            lemma_children_wf_index(d0, cfg, nv, ch, lo, hi, 0, j);
            lemma_subtree_frame(d0, d2, cfg, nv.children[j], ch, child_lo(nv, lo, j), child_hi(nv, hi, j));
        }
        lemma_children_frame(d0, d2, cfg, nv, ch, lo, hi, 0);
        lemma_children_entries_prefix(d2, cfg, nv, lnd, ch, 0);
        lemma_children_entries_shift(d2, cfg, nv, rnd, ch, mid + 1, 0);
        assert(subtree_entries(d2, cfg, left_offset, (ch + 1) as nat) == children_entries(
            d2,
            cfg,
            lnd,
            ch,
            0,
        ));
        assert(subtree_entries(d2, cfg, right_offset, (ch + 1) as nat) == children_entries(
            d2,
            cfg,
            rnd,
            ch,
            0,
        ));
        assert(children_entries(d2, cfg, nv, ch, 0) == children_entries(d0, cfg, nv, ch, 0));

        assert(in_bounds(lo, hi, p));
        assert(strictly_above(lo, p));
    }
    Ok(
        InsertResult::Split {
            promoted_key,
            left_offset,
            right_offset,
        },
    )
}

/// Rewrite an internal node whose routed child was replaced: point the
/// traversed slot at the child's new offset and try-append.
#[verifier::loop_isolation(false)]
#[verifier::rlimit(100)]
fn insert_child_replaced(
    dm: &mut DiskManager,
    node: Node,
    ci: usize,
    new_child: u64,
    Ghost(d0): Ghost<Seq<u8>>,
    Ghost(ch): Ghost<nat>,
    Ghost(lo): Ghost<Option<Seq<u8>>>,
    Ghost(hi): Ghost<Option<Seq<u8>>>,
    Ghost(k): Ghost<Seq<u8>>,
    Ghost(v): Ghost<Seq<u8>>,
) -> (r: Result<InsertResult, StorageError>)
    requires
        old(dm).wf(),
        extends(d0, old(dm).image@),
        !node@.is_leaf(),
        node@.shape_ok(),
        node@.sizes_ok(old(dm).config),
        node@.fits(old(dm).config.page_size as int),
        sorted_keys(node@.keys),
        node_keys_bounded(node@, lo, hi),
        children_wf(d0, old(dm).config, node@, ch, lo, hi, 0),
        ci < node@.children.len(),
        subtree_wf(
            old(dm).image@,
            old(dm).config,
            new_child,
            ch,
            child_lo(node@, lo, ci as int),
            child_hi(node@, hi, ci as int),
        ),
        subtree_entries(old(dm).image@, old(dm).config, new_child, ch) == kv_insert(
            subtree_entries(d0, old(dm).config, node@.children[ci as int], ch),
            k,
            v,
        ),
        ci == 0 || lex_le(node@.keys[ci - 1], k),
        ci == node@.keys.len() || lex_lt(k, node@.keys[ci as int]),
    ensures
        final(dm).wf(),
        final(dm).config == old(dm).config,
        extends(old(dm).image@, final(dm).image@),
        match r {
            Ok(InsertResult::Replaced(o2)) => {
                &&& subtree_wf(final(dm).image@, old(dm).config, o2, (ch + 1) as nat, lo, hi)
                &&& subtree_entries(final(dm).image@, old(dm).config, o2, (ch + 1) as nat)
                    == kv_insert(children_entries(d0, old(dm).config, node@, ch, 0), k, v)
            },
            Ok(InsertResult::Split { promoted_key, left_offset, right_offset }) => {
                &&& subtree_wf(
                    final(dm).image@,
                    old(dm).config,
                    left_offset,
                    (ch + 1) as nat,
                    lo,
                    Some(promoted_key@),
                )
                &&& subtree_wf(
                    final(dm).image@,
                    old(dm).config,
                    right_offset,
                    (ch + 1) as nat,
                    Some(promoted_key@),
                    hi,
                )
                &&& subtree_entries(final(dm).image@, old(dm).config, left_offset, (ch + 1) as nat)
                    + subtree_entries(
                    final(dm).image@,
                    old(dm).config,
                    right_offset,
                    (ch + 1) as nat,
                ) == kv_insert(children_entries(d0, old(dm).config, node@, ch, 0), k, v)
                &&& in_bounds(lo, hi, promoted_key@)
                &&& strictly_above(lo, promoted_key@)
                &&& promoted_key@.len() <= old(dm).config.max_key_size
            },
            Err(e) => e == StorageError::PageOverflow,
        },
        r matches Ok(InsertResult::Replaced(_)),
{
    let ghost d1 = dm.image@;
    let ghost cfg = dm.config;
    let ghost nd1 = node@;
    let mut node = node;
    node.children[ci] = new_child;
    let ghost nd2 = node@;
    proof {
        assert(nd2.keys == nd1.keys);
        assert(nd2.children == nd1.children.update(ci as int, new_child));
        lemma_same_shape_same_size(nd1, nd2);
        lemma_extends_pointwise(d0, d1);
        assert forall|j: int| 0 <= j < nd2.children.len() implies subtree_wf(
            d1,
            cfg,
            #[trigger] nd2.children[j],
            ch,
            child_lo(nd2, lo, j),
            child_hi(nd2, hi, j),
        ) by {
            assert(child_lo(nd2, lo, j) == child_lo(nd1, lo, j));
            assert(child_hi(nd2, hi, j) == child_hi(nd1, hi, j));
            if j != ci {
                lemma_children_wf_index(d0, cfg, nd1, ch, lo, hi, 0, j);
                lemma_subtree_frame(
                    d0,
                    d1,
                    cfg,
                    nd1.children[j],
                    ch,
                    child_lo(nd1, lo, j),
                    child_hi(nd1, hi, j),
                );
                assert(nd2.children[j] == nd1.children[j]);
            }
        }
        lemma_children_wf_build(d1, cfg, nd2, ch, lo, hi, 0);
        assert forall|j: int| 0 <= j < nd1.children.len() && j != ci implies subtree_entries(
            d1,
            cfg,
            #[trigger] nd1.children[j],
            ch,
        ) == subtree_entries(d0, cfg, nd1.children[j], ch) by {
            lemma_children_wf_index(d0, cfg, nd1, ch, lo, hi, 0, j);
            lemma_subtree_frame(
                d0,
                d1,
                cfg,
                nd1.children[j],
                ch,
                child_lo(nd1, lo, j),
                child_hi(nd1, hi, j),
            );
        }
        lemma_children_entries_insert(d0, d1, cfg, nd1, nd2, ch, lo, hi, 0, ci as int, k, v);
        assert(children_entries(d1, cfg, nd2, ch, 0) == kv_insert(
            children_entries(d0, cfg, nd1, ch, 0),
            k,
            v,
        ));
    }
    let new_offset = dm.get_new_offset();
    match dm.append_node_to_disk(new_offset, &node) {
        EncodeResult::Encoded => {
            proof {
                let d2 = dm.image@;
                assert(extends(d1, d2));
                lemma_extends_pointwise(d1, d2);
                assert(node_at(d2, cfg, new_offset) == nd2);
                lemma_children_frame(d1, d2, cfg, nd2, ch, lo, hi, 0);
                assert(subtree_wf(d2, cfg, new_offset, (ch + 1) as nat, lo, hi));
            }
            Ok(InsertResult::Replaced(new_offset))
        },
        EncodeResult::NeedSplit => {
            proof {
                // The rewritten node has its predecessor's keys and child
                // count, so it fits exactly as its predecessor did.
                assert(false);
            }
            vstd::pervasive::unreached()
        },
    }
}

/// Rewrite an internal node whose routed child split: the traversed slot's
/// single child becomes the pair of siblings with the promoted key between
/// them, then try-append, splitting this node in turn when it no longer
/// fits.
#[verifier::loop_isolation(false)]
#[verifier::rlimit(100)]
fn insert_child_split(
    dm: &mut DiskManager,
    node: Node,
    ci: usize,
    promoted_key: Vec<u8>,
    left_offset: u64,
    right_offset: u64,
    Ghost(d0): Ghost<Seq<u8>>,
    Ghost(ch): Ghost<nat>,
    Ghost(lo): Ghost<Option<Seq<u8>>>,
    Ghost(hi): Ghost<Option<Seq<u8>>>,
    Ghost(k): Ghost<Seq<u8>>,
    Ghost(v): Ghost<Seq<u8>>,
) -> (r: Result<InsertResult, StorageError>)
    requires
        old(dm).wf(),
        extends(d0, old(dm).image@),
        !node@.is_leaf(),
        node@.shape_ok(),
        node@.sizes_ok(old(dm).config),
        sorted_keys(node@.keys),
        node_keys_bounded(node@, lo, hi),
        children_wf(d0, old(dm).config, node@, ch, lo, hi, 0),
        ci < node@.children.len(),
        subtree_wf(
            old(dm).image@,
            old(dm).config,
            left_offset,
            ch,
            child_lo(node@, lo, ci as int),
            Some(promoted_key@),
        ),
        subtree_wf(
            old(dm).image@,
            old(dm).config,
            right_offset,
            ch,
            Some(promoted_key@),
            child_hi(node@, hi, ci as int),
        ),
        subtree_entries(old(dm).image@, old(dm).config, left_offset, ch) + subtree_entries(
            old(dm).image@,
            old(dm).config,
            right_offset,
            ch,
        ) == kv_insert(subtree_entries(d0, old(dm).config, node@.children[ci as int], ch), k, v),
        in_bounds(child_lo(node@, lo, ci as int), child_hi(node@, hi, ci as int), promoted_key@),
        strictly_above(child_lo(node@, lo, ci as int), promoted_key@),
        promoted_key@.len() <= old(dm).config.max_key_size,
        ci == 0 || lex_le(node@.keys[ci - 1], k),
        ci == node@.keys.len() || lex_lt(k, node@.keys[ci as int]),
    ensures
        final(dm).wf(),
        final(dm).config == old(dm).config,
        extends(old(dm).image@, final(dm).image@),
        match r {
            Ok(InsertResult::Replaced(o2)) => {
                &&& subtree_wf(final(dm).image@, old(dm).config, o2, (ch + 1) as nat, lo, hi)
                &&& subtree_entries(final(dm).image@, old(dm).config, o2, (ch + 1) as nat)
                    == kv_insert(children_entries(d0, old(dm).config, node@, ch, 0), k, v)
            },
            Ok(InsertResult::Split { promoted_key, left_offset, right_offset }) => {
                &&& subtree_wf(
                    final(dm).image@,
                    old(dm).config,
                    left_offset,
                    (ch + 1) as nat,
                    lo,
                    Some(promoted_key@),
                )
                &&& subtree_wf(
                    final(dm).image@,
                    old(dm).config,
                    right_offset,
                    (ch + 1) as nat,
                    Some(promoted_key@),
                    hi,
                )
                &&& subtree_entries(final(dm).image@, old(dm).config, left_offset, (ch + 1) as nat)
                    + subtree_entries(
                    final(dm).image@,
                    old(dm).config,
                    right_offset,
                    (ch + 1) as nat,
                ) == kv_insert(children_entries(d0, old(dm).config, node@, ch, 0), k, v)
                &&& in_bounds(lo, hi, promoted_key@)
                &&& strictly_above(lo, promoted_key@)
                &&& promoted_key@.len() <= old(dm).config.max_key_size
            },
            Err(e) => e == StorageError::PageOverflow,
        },
        node@.encoded_size() + 14 + promoted_key@.len() <= old(dm).config.page_size ==> r matches Ok(
            InsertResult::Replaced(_),
        ),
{
    let ghost d1 = dm.image@;
    let ghost cfg = dm.config;
    let ghost nd1 = node@;
    let ghost p = promoted_key@;
    let mut node = node;
    proof {
        assert(ci < node.children.len());
    }
    node.keys.insert(ci, promoted_key);
    node.children[ci] = left_offset;
    node.children.insert(ci + 1, right_offset);
    let ghost nd2 = node@;
    proof {
        lemma_extends_pointwise(d0, d1);
        let ks1 = nd1.keys;
        let ks2 = nd2.keys;
        assert(ks2 == ks1.insert(ci as int, p));
        assert(forall|j: int| 0 <= j < ci ==> #[trigger] ks2[j] == ks1[j]);
        assert(ks2[ci as int] == p);
        assert(forall|j: int| ci < j < ks2.len() ==> #[trigger] ks2[j] == ks1[j - 1]);
        assert(forall|j: int| 0 <= j < ci ==> #[trigger] nd2.children[j] == nd1.children[j]);
        assert(nd2.children[ci as int] == left_offset);
        assert(nd2.children[ci as int + 1] == right_offset);
        assert(forall|t: int|
            ci + 1 <= t < nd1.children.len() ==> nd2.children[t + 1] == #[trigger] nd1.children[t]);
        crate::node::lemma_internal_grow_size(nd1, nd2, ci as int, p);
        // The grown key list stays strictly sorted: the promoted key lies
        // strictly between its neighbouring separators.
        assert(ci > 0 ==> lex_lt(ks1[ci - 1], p));
        assert(ci < ks1.len() ==> lex_lt(p, ks1[ci as int]));
        assert forall|i: int, j: int| 0 <= i < j < ks2.len() implies lex_lt(ks2[i], ks2[j]) by {
            if i < ci && j == ci {
                if i < ci - 1 {
                    lemma_lex_trans(ks1[i], ks1[ci - 1], p);
                }
            } else if i == ci && j > ci {
                if j - 1 > ci {
                    lemma_lex_trans(p, ks1[ci as int], ks1[j - 1]);
                }
            } else if i < ci && j > ci {
                assert(lex_lt(ks1[i], ks1[j - 1]));
            }
        }
        assert(sorted_keys(ks2));
        // Bounds, with strictness for the internal separators.
        assert forall|i: int| 0 <= i < ks2.len() implies {
            &&& below_hi(hi, #[trigger] ks2[i])
            &&& above_lo(lo, ks2[i])
            &&& strictly_above(lo, ks2[i])
        } by {
            if i == ci {
                if ci > 0 {
                    if lo is Some {
                        lemma_lex_trans(lo.unwrap(), ks1[ci - 1], p);
                    }
                }
                if ci < ks1.len() {
                    if hi is Some {
                        lemma_lex_trans(p, ks1[ci as int], hi.unwrap());
                    }
                }
            }
        }
        assert(node_keys_bounded(nd2, lo, hi));
        assert(nd2.sizes_ok(cfg)) by {
            assert forall|i: int| 0 <= i < ks2.len() implies #[trigger] ks2[i].len()
                <= cfg.max_key_size by {
                if i < ci {
                    assert(ks1[i].len() <= cfg.max_key_size);
                } else if i > ci {
                    assert(ks1[i - 1].len() <= cfg.max_key_size);
                }
            }
        }
        // Children well formed around the new separator.
        assert forall|j: int| 0 <= j < nd2.children.len() implies subtree_wf(
            d1,
            cfg,
            #[trigger] nd2.children[j],
            ch,
            child_lo(nd2, lo, j),
            child_hi(nd2, hi, j),
        ) by {
            if j < ci {
                assert(child_lo(nd2, lo, j) == child_lo(nd1, lo, j));
                assert(child_hi(nd2, hi, j) == child_hi(nd1, hi, j));
                lemma_children_wf_index(d0, cfg, nd1, ch, lo, hi, 0, j);
                lemma_subtree_frame(
                    d0,
                    d1,
                    cfg,
                    nd1.children[j],
                    ch,
                    child_lo(nd1, lo, j),
                    child_hi(nd1, hi, j),
                );
            } else if j == ci {
                assert(child_lo(nd2, lo, j) == child_lo(nd1, lo, ci as int));
                assert(child_hi(nd2, hi, j) == Some(p));
            } else if j == ci + 1 {
                assert(child_lo(nd2, lo, j) == Some(p));
                assert(child_hi(nd2, hi, j) == child_hi(nd1, hi, ci as int));
            } else {
                assert(child_lo(nd2, lo, j) == child_lo(nd1, lo, j - 1));
                assert(child_hi(nd2, hi, j) == child_hi(nd1, hi, j - 1));
                lemma_children_wf_index(d0, cfg, nd1, ch, lo, hi, 0, j - 1);
                lemma_subtree_frame(
                    d0,
                    d1,
                    cfg,
                    nd1.children[j - 1],
                    ch,
                    child_lo(nd1, lo, j - 1),
                    child_hi(nd1, hi, j - 1),
                );
            }
        }
        lemma_children_wf_build(d1, cfg, nd2, ch, lo, hi, 0);
        // Contents: the split child's two halves hold its upsert.
        assert forall|j: int| 0 <= j < nd1.children.len() && j != ci implies subtree_entries(
            d1,
            cfg,
            #[trigger] nd1.children[j],
            ch,
        ) == subtree_entries(d0, cfg, nd1.children[j], ch) by {
            lemma_children_wf_index(d0, cfg, nd1, ch, lo, hi, 0, j);
            lemma_subtree_frame(
                d0,
                d1,
                cfg,
                nd1.children[j],
                ch,
                child_lo(nd1, lo, j),
                child_hi(nd1, hi, j),
            );
        }
        lemma_children_entries_split_insert(d0, d1, cfg, nd1, nd2, ch, lo, hi, 0, ci as int, k, v);
        assert(children_entries(d1, cfg, nd2, ch, 0) == kv_insert(
            children_entries(d0, cfg, nd1, ch, 0),
            k,
            v,
        ));
    }
    let new_offset = dm.get_new_offset();
    match dm.append_node_to_disk(new_offset, &node) {
        EncodeResult::Encoded => {
            proof {
                let d2 = dm.image@;
                assert(extends(d1, d2));
                lemma_extends_pointwise(d1, d2);
                assert(node_at(d2, cfg, new_offset) == nd2);
                lemma_children_frame(d1, d2, cfg, nd2, ch, lo, hi, 0);
                assert(subtree_wf(d2, cfg, new_offset, (ch + 1) as nat, lo, hi));
            }
            Ok(InsertResult::Replaced(new_offset))
        },
        EncodeResult::NeedSplit => {
            proof {
                lemma_extends_refl(d1);
            }
            propagate_internal_split(dm, node, Ghost(ch), Ghost(lo), Ghost(hi))
        },
    }
}

/// One level of the copy-on-write insert: descend to the child the key
/// routes to, then rewrite this node with the child's replacement — or with
/// the separator and pair of children a child split handed up — at a fresh
/// appended offset, splitting this node in turn when it no longer fits.
#[verifier::loop_isolation(false)]
#[verifier::rlimit(100)]
fn insert_recursive(
    dm: &mut DiskManager,
    off: u64,
    Ghost(h): Ghost<nat>,
    Ghost(lo): Ghost<Option<Seq<u8>>>,
    Ghost(hi): Ghost<Option<Seq<u8>>>,
    key: &Vec<u8>,
    value: &Vec<u8>,
) -> (r: Result<InsertResult, StorageError>)
    requires
        old(dm).wf(),
        subtree_wf(old(dm).image@, old(dm).config, off, h, lo, hi),
        in_bounds(lo, hi, key@),
        key@.len() <= old(dm).config.max_key_size,
        value@.len() <= old(dm).config.max_val_size,
    ensures
        final(dm).wf(),
        final(dm).config == old(dm).config,
        extends(old(dm).image@, final(dm).image@),
        match r {
            Ok(InsertResult::Replaced(o2)) => {
                &&& subtree_wf(final(dm).image@, old(dm).config, o2, h, lo, hi)
                &&& subtree_entries(final(dm).image@, old(dm).config, o2, h) == kv_insert(
                    subtree_entries(old(dm).image@, old(dm).config, off, h),
                    key@,
                    value@,
                )
            },
            Ok(InsertResult::Split { promoted_key, left_offset, right_offset }) => {
                &&& subtree_wf(final(dm).image@, old(dm).config, left_offset, h, lo, Some(promoted_key@))
                &&& subtree_wf(final(dm).image@, old(dm).config, right_offset, h, Some(promoted_key@), hi)
                &&& subtree_entries(final(dm).image@, old(dm).config, left_offset, h)
                    + subtree_entries(final(dm).image@, old(dm).config, right_offset, h)
                    == kv_insert(
                    subtree_entries(old(dm).image@, old(dm).config, off, h),
                    key@,
                    value@,
                )
                &&& in_bounds(lo, hi, promoted_key@)
                &&& strictly_above(lo, promoted_key@)
                &&& promoted_key@.len() <= old(dm).config.max_key_size
            },
            Err(e) => e == StorageError::PageOverflow,
        },
        leaf_upsert(
            target_leaf(old(dm).image@, old(dm).config, off, h, key@),
            key@,
            value@,
        ).fits(old(dm).config.page_size as int) ==> r matches Ok(InsertResult::Replaced(_)),
        h == 0 ==> (({
            let u = leaf_upsert(target_leaf(old(dm).image@, old(dm).config, off, h, key@), key@, value@);
            let ps = old(dm).config.page_size as int;
            &&& !u.fits(ps)
            &&& u.keys.len() >= 2
            &&& leaf_prefix(u, u.keys.len() as int / 2).fits(ps)
            &&& leaf_suffix(u, u.keys.len() as int / 2).fits(ps)
        }) ==> r matches Ok(InsertResult::Split { .. })),
        h == 0 ==> (r matches Ok(InsertResult::Split { promoted_key, left_offset, right_offset })
            ==> {
            let u = leaf_upsert(target_leaf(old(dm).image@, old(dm).config, off, h, key@), key@, value@);
            promoted_key@ == u.keys[u.keys.len() as int / 2]
        }),
        ({
            let u = leaf_upsert(target_leaf(old(dm).image@, old(dm).config, off, h, key@), key@, value@);
            let ps = old(dm).config.page_size as int;
            &&& h > 0
            &&& !u.fits(ps)
            &&& u.keys.len() >= 2
            &&& leaf_prefix(u, u.keys.len() as int / 2).fits(ps)
            &&& leaf_suffix(u, u.keys.len() as int / 2).fits(ps)
            &&& path_absorbs(
                old(dm).image@,
                old(dm).config,
                off,
                h,
                key@,
                u.keys[u.keys.len() as int / 2],
            )
        }) ==> r matches Ok(InsertResult::Replaced(_)),
    decreases h,
{
    let ghost d0 = dm.image@;
    let ghost cfg = dm.config;
    let node = match dm.load_node_from_disk(off) {
        Ok(n) => n,
        Err(_) => {
            proof {
                assert(false);
            }
            vstd::pervasive::unreached()
        },
    };
    let ghost nd1 = node@;
    if node.children.is_empty() {
        proof {
            assert(h == 0);
            assert(subtree_entries(d0, cfg, off, 0) == zip_kv(nd1.keys, nd1.values));
            assert(target_leaf(d0, cfg, off, h, key@) == nd1);
        }
        insert_into_leaf(dm, node, Ghost(lo), Ghost(hi), key, value)
    } else {
        proof {
            assert(h > 0);
        }
        let ghost ch = (h - 1) as nat;
        let ci = match find_key(&node.keys, key) {
            Ok(i) => i + 1,
            Err(i) => i,
        };
        proof {
            assert(ci <= nd1.keys.len());
            assert(ci < nd1.children.len());
            lemma_children_wf_index(d0, cfg, nd1, ch, lo, hi, 0, ci as int);
            assert(in_bounds(child_lo(nd1, lo, ci as int), child_hi(nd1, hi, ci as int), key@));
            lemma_route_idx(nd1.keys, key@, ci as int);
            assert(target_leaf(d0, cfg, off, h, key@) == target_leaf(
                d0,
                cfg,
                nd1.children[ci as int],
                ch,
                key@,
            ));
        }
        let child_off = node.children[ci];
        let res = insert_recursive(
            dm,
            child_off,
            Ghost(ch),
            Ghost(child_lo(nd1, lo, ci as int)),
            Ghost(child_hi(nd1, hi, ci as int)),
            key,
            value,
        );
        let ghost d1 = dm.image@;
        match res {
            Err(e) => Err(e),
            Ok(InsertResult::Replaced(new_child)) => {
                let r2 = insert_child_replaced(
                    dm,
                    node,
                    ci,
                    new_child,
                    Ghost(d0),
                    Ghost(ch),
                    Ghost(lo),
                    Ghost(hi),
                    Ghost(key@),
                    Ghost(value@),
                );
                proof {
                    lemma_extends_trans(d0, d1, dm.image@);
                    assert(subtree_entries(d0, cfg, off, h) == children_entries(
                        d0,
                        cfg,
                        nd1,
                        ch,
                        0,
                    ));
                }
                r2
            },
            Ok(InsertResult::Split { promoted_key, left_offset, right_offset }) => {
                let r2 = insert_child_split(
                    dm,
                    node,
                    ci,
                    promoted_key,
                    left_offset,
                    right_offset,
                    Ghost(d0),
                    Ghost(ch),
                    Ghost(lo),
                    Ghost(hi),
                    Ghost(key@),
                    Ghost(value@),
                );
                proof {
                    lemma_extends_trans(d0, d1, dm.image@);
                    assert(subtree_entries(d0, cfg, off, h) == children_entries(
                        d0,
                        cfg,
                        nd1,
                        ch,
                        0,
                    ));
                }
                r2
            },
        }
    }
}

/// Append a fresh root page holding one promoted separator and the two
/// subtrees it divides.  This grows the tree by one level; it fails only
/// when the one-key root node itself cannot fit a page.
#[verifier::loop_isolation(false)]
#[verifier::rlimit(100)]
fn append_new_root(
    dm: &mut DiskManager,
    promoted_key: Vec<u8>,
    left_offset: u64,
    right_offset: u64,
    Ghost(h): Ghost<nat>,
    Ghost(goal): Ghost<KvSeq>,
) -> (r: Result<u64, StorageError>)
    requires
        old(dm).wf(),
        subtree_wf(
            old(dm).image@,
            old(dm).config,
            left_offset,
            h,
            None,
            Some(promoted_key@),
        ),
        subtree_wf(old(dm).image@, old(dm).config, right_offset, h, Some(promoted_key@), None),
        subtree_entries(old(dm).image@, old(dm).config, left_offset, h) + subtree_entries(
            old(dm).image@,
            old(dm).config,
            right_offset,
            h,
        ) == goal,
        promoted_key@.len() <= old(dm).config.max_key_size,
    ensures
        final(dm).wf(),
        final(dm).config == old(dm).config,
        extends(old(dm).image@, final(dm).image@),
        match r {
            Ok(off2) => {
                &&& subtree_wf(final(dm).image@, old(dm).config, off2, (h + 1) as nat, None, None)
                &&& subtree_entries(final(dm).image@, old(dm).config, off2, (h + 1) as nat) == goal
                &&& node_at(final(dm).image@, old(dm).config, off2).keys == seq![promoted_key@]
                &&& node_at(final(dm).image@, old(dm).config, off2).keys.len() == 1
                &&& node_at(final(dm).image@, old(dm).config, off2).children.len() == 2
            },
            Err(e) => e == StorageError::PageOverflow && *final(dm) == *old(dm),
        },
        fresh_root_size(promoted_key@) <= old(dm).config.page_size ==> r is Ok,
{
    let ghost d2 = dm.image@;
    let ghost cfg = dm.config;
    let ghost p = promoted_key@;
    let mut keys: Vec<Vec<u8>> = Vec::new();
    keys.push(promoted_key);
    let mut children: Vec<u64> = Vec::new();
    children.push(left_offset);
    children.push(right_offset);
    let new_root = Node { keys, children, values: Vec::new() };
    let ghost rv = new_root@;
    proof {
        assert(rv.keys =~= seq![p]);
        assert(rv.children =~= seq![left_offset, right_offset]);
        assert(!rv.is_leaf() && rv.shape_ok());
        assert(rv.sizes_ok(cfg));
        assert(sorted_keys(rv.keys));
        assert(node_keys_bounded(rv, None, None));
        assert(rv.slot_size(0) == 4 + p.len());
        assert(rv.slots_size(1) == rv.slots_size(0) + rv.slot_size(0));
        assert(rv.offsets_start() == 19);
        assert(rv.encoded_size() == fresh_root_size(p));
    }
    let new_root_offset = dm.get_new_offset();
    match dm.append_node_to_disk(new_root_offset, &new_root) {
        EncodeResult::NeedSplit => {
            proof {
                lemma_extends_refl(d2);
            }
            return Err(StorageError::PageOverflow);
        },
        EncodeResult::Encoded => {},
    }
    proof {
        let d3 = dm.image@;
        assert(extends(d2, d3));
        lemma_extends_pointwise(d2, d3);
        assert(node_at(d3, cfg, new_root_offset) == rv);
        lemma_subtree_frame(d2, d3, cfg, left_offset, h, None, Some(p));
        lemma_subtree_frame(d2, d3, cfg, right_offset, h, Some(p), None);
        assert forall|j: int| 0 <= j < rv.children.len() implies subtree_wf(
            d3,
            cfg,
            #[trigger] rv.children[j],
            h,
            child_lo(rv, None, j),
            child_hi(rv, None, j),
        ) by {
            if j == 0 {
                assert(child_lo(rv, None, 0) == None::<Seq<u8>>);
                assert(child_hi(rv, None, 0) == Some(p));
            } else {
                assert(child_lo(rv, None, 1) == Some(p));
                assert(child_hi(rv, None, 1) == None::<Seq<u8>>);
            }
        }
        lemma_children_wf_build(d3, cfg, rv, h, None, None, 0);
        assert(subtree_wf(d3, cfg, new_root_offset, (h + 1) as nat, None, None));
        let el = subtree_entries(d3, cfg, left_offset, h);
        let er = subtree_entries(d3, cfg, right_offset, h);
        assert(children_entries(d3, cfg, rv, h, 1) == er + children_entries(d3, cfg, rv, h, 2));
        assert(children_entries(d3, cfg, rv, h, 2) =~= Seq::<(Seq<u8>, Seq<u8>)>::empty());
        assert(children_entries(d3, cfg, rv, h, 0) =~= el + er);
        assert(subtree_entries(d3, cfg, new_root_offset, (h + 1) as nat) == goal);
    }
    Ok(new_root_offset)
}

impl BTree {
    /// Insert a pair, or replace the value of a present key.  The rewritten
    /// root-to-leaf path is appended page by page and the metadata write is
    /// the single commit point: on any error the committed tree is exactly
    /// what it was.
    #[verifier::loop_isolation(false)]
    #[verifier::rlimit(100)]
    pub fn insert(&mut self, key: Vec<u8>, value: Vec<u8>) -> (r: Result<(), StorageError>)
        requires
            old(self).wf(),
        ensures
            final(self).wf(),
            final(self).storage_config == old(self).storage_config,
            match r {
                Ok(_) => final(self).entries() == kv_insert(old(self).entries(), key@, value@),
                Err(e) => {
                    &&& final(self).entries() == old(self).entries()
                    &&& final(self).root_offset == old(self).root_offset
                    &&& (e == StorageError::KeyTooLarge <==> key@.len()
                        > old(self).storage_config.max_key_size)
                    &&& (e == StorageError::ValueTooLarge <==> (key@.len()
                        <= old(self).storage_config.max_key_size && value@.len()
                        > old(self).storage_config.max_val_size))
                    &&& (e == StorageError::KeyTooLarge || e == StorageError::ValueTooLarge || e
                        == StorageError::PageOverflow)
                },
            },
            key@.len() > old(self).storage_config.max_key_size ==> r == Err::<
                (),
                StorageError,
            >(StorageError::KeyTooLarge),
            key@.len() <= old(self).storage_config.max_key_size && value@.len() > old(
                self,
            ).storage_config.max_val_size ==> r == Err::<(), StorageError>(
                StorageError::ValueTooLarge,
            ),
            ({
                let u = leaf_upsert(
                    target_leaf(
                        old(self).disk_manager.image@,
                        old(self).storage_config,
                        old(self).root_offset,
                        old(self).height@,
                        key@,
                    ),
                    key@,
                    value@,
                );
                &&& key@.len() <= old(self).storage_config.max_key_size
                &&& value@.len() <= old(self).storage_config.max_val_size
                &&& u.fits(old(self).storage_config.page_size as int)
            }) ==> r is Ok && final(self).height@ == old(self).height@,
            ({
                let u = leaf_upsert(
                    target_leaf(
                        old(self).disk_manager.image@,
                        old(self).storage_config,
                        old(self).root_offset,
                        old(self).height@,
                        key@,
                    ),
                    key@,
                    value@,
                );
                let ps = old(self).storage_config.page_size as int;
                &&& key@.len() <= old(self).storage_config.max_key_size
                &&& value@.len() <= old(self).storage_config.max_val_size
                &&& old(self).height@ == 0
                &&& !u.fits(ps)
                &&& u.keys.len() >= 2
                &&& leaf_prefix(u, u.keys.len() as int / 2).fits(ps)
                &&& leaf_suffix(u, u.keys.len() as int / 2).fits(ps)
                &&& fresh_root_size(u.keys[u.keys.len() as int / 2]) <= ps
            }) ==> r is Ok,
            ({
                let u = leaf_upsert(
                    target_leaf(
                        old(self).disk_manager.image@,
                        old(self).storage_config,
                        old(self).root_offset,
                        old(self).height@,
                        key@,
                    ),
                    key@,
                    value@,
                );
                let ps = old(self).storage_config.page_size as int;
                &&& key@.len() <= old(self).storage_config.max_key_size
                &&& value@.len() <= old(self).storage_config.max_val_size
                &&& old(self).height@ > 0
                &&& !u.fits(ps)
                &&& u.keys.len() >= 2
                &&& leaf_prefix(u, u.keys.len() as int / 2).fits(ps)
                &&& leaf_suffix(u, u.keys.len() as int / 2).fits(ps)
                &&& path_absorbs(
                    old(self).disk_manager.image@,
                    old(self).storage_config,
                    old(self).root_offset,
                    old(self).height@,
                    key@,
                    u.keys[u.keys.len() as int / 2],
                )
            }) ==> r is Ok && final(self).height@ == old(self).height@,
            (r == Err::<(), StorageError>(StorageError::KeyTooLarge) || r == Err::<
                (),
                StorageError,
            >(StorageError::ValueTooLarge)) ==> *final(self) == *old(self),
            final(self).height@ == old(self).height@ || final(self).height@ == old(self).height@
                + 1,
            final(self).height@ == old(self).height@ + 1 ==> ({
                let rt = node_at(
                    final(self).disk_manager.image@,
                    old(self).storage_config,
                    final(self).root_offset,
                );
                rt.keys.len() == 1 && rt.children.len() == 2
            }),
            old(self).height@ == 0 && final(self).height@ == 1 ==> ({
                let u = leaf_upsert(
                    target_leaf(
                        old(self).disk_manager.image@,
                        old(self).storage_config,
                        old(self).root_offset,
                        0,
                        key@,
                    ),
                    key@,
                    value@,
                );
                node_at(
                    final(self).disk_manager.image@,
                    old(self).storage_config,
                    final(self).root_offset,
                ).keys == seq![u.keys[u.keys.len() as int / 2]]
            }),
            r is Err ==> final(self).height@ == old(self).height@,
    {
        let cfg = self.storage_config;
        if key.len() > cfg.max_key_size as usize {
            return Err(StorageError::KeyTooLarge);
        }
        if value.len() > cfg.max_val_size as usize {
            return Err(StorageError::ValueTooLarge);
        }
        let ghost d0 = self.disk_manager.image@;
        let ghost h = self.height@;
        let ghost old_root = self.root_offset;
        let res = insert_recursive(
            &mut self.disk_manager,
            self.root_offset,
            Ghost(h),
            Ghost(None),
            Ghost(None),
            &key,
            &value,
        );
        match res {
            Err(e) => {
                proof {
                    lemma_commit_unchanged(d0, self.disk_manager.image@, cfg, old_root, h);
                }
                Err(e)
            },
            Ok(InsertResult::Replaced(new_off)) => {
                let ghost d2 = self.disk_manager.image@;
                self.root_offset = new_off;
                self.disk_manager.write_metadata(new_off);
                proof {
                    let d3 = self.disk_manager.image@;
                    lemma_subtree_frame(d2, d3, cfg, new_off, h, None, None);
                }
                let root = match self.disk_manager.load_node_from_disk(new_off) {
                    Ok(n) => n,
                    Err(_) => {
                        proof {
                            assert(false);
                        }
                        vstd::pervasive::unreached()
                    },
                };
                self.root = root;
                Ok(())
            },
            Ok(InsertResult::Split { promoted_key, left_offset, right_offset }) => {
                let ghost d2 = self.disk_manager.image@;
                let ghost p = promoted_key@;
                let res2 = append_new_root(
                    &mut self.disk_manager,
                    promoted_key,
                    left_offset,
                    right_offset,
                    Ghost(h),
                    Ghost(kv_insert(subtree_entries(d0, cfg, old_root, h), key@, value@)),
                );
                let new_root_offset = match res2 {
                    Err(e) => {
                        proof {
                            lemma_extends_trans(d0, d2, self.disk_manager.image@);
                            lemma_commit_unchanged(
                                d0,
                                self.disk_manager.image@,
                                cfg,
                                old_root,
                                h,
                            );
                        }
                        return Err(e);
                    },
                    Ok(off2) => off2,
                };
                self.root_offset = new_root_offset;
                let ghost d3 = self.disk_manager.image@;
                self.disk_manager.write_metadata(new_root_offset);
                self.height = Ghost((h + 1) as nat);
                proof {
                    let d4 = self.disk_manager.image@;
                    lemma_subtree_frame(d3, d4, cfg, new_root_offset, (h + 1) as nat, None, None);
                    assert(page_at(d4, new_root_offset as int, cfg.page_size as int) =~= page_at(
                        d3,
                        new_root_offset as int,
                        cfg.page_size as int,
                    ));
                }
                let root = match self.disk_manager.load_node_from_disk(new_root_offset) {
                    Ok(n) => n,
                    Err(_) => {
                        proof {
                            assert(false);
                        }
                        vstd::pervasive::unreached()
                    },
                };
                self.root = root;
                Ok(())
            },
        }
    }
}

/// Concatenate two leaves.
fn build_merged_leaf(a: &Node, b: &Node) -> (m: Node)
    ensures
        m@.keys == a@.keys + b@.keys,
        m@.values == a@.values + b@.values,
        m@.children.len() == 0,
{
    let mut keys = take_byte_vecs(&a.keys, 0, a.keys.len());
    let mut bkeys = take_byte_vecs(&b.keys, 0, b.keys.len());
    keys.append(&mut bkeys);
    let mut values = take_byte_vecs(&a.values, 0, a.values.len());
    let mut bvalues = take_byte_vecs(&b.values, 0, b.values.len());
    values.append(&mut bvalues);
    let m = Node { keys, children: Vec::new(), values };
    proof {
        assert forall|i: int| 0 <= i < m@.keys.len() implies m@.keys[i] == (a@.keys
            + b@.keys)[i] by {
            assert(m@.keys[i] == m.keys@[i]@);
        }
        assert(m@.keys =~= a@.keys + b@.keys);
        assert forall|i: int| 0 <= i < m@.values.len() implies m@.values[i] == (a@.values
            + b@.values)[i] by {
            assert(m@.values[i] == m.values@[i]@);
        }
        assert(m@.values =~= a@.values + b@.values);
    }
    m
}

/// Concatenate two internal nodes, absorbing the separator between them.
fn build_merged_internal(a: &Node, b: &Node, sep: Vec<u8>) -> (m: Node)
    ensures
        m@.keys == a@.keys + seq![sep@] + b@.keys,
        m@.children == a@.children + b@.children,
        m@.values.len() == 0,
{
    let ghost sepv = sep@;
    let mut keys = take_byte_vecs(&a.keys, 0, a.keys.len());
    keys.push(sep);
    let mut bkeys = take_byte_vecs(&b.keys, 0, b.keys.len());
    keys.append(&mut bkeys);
    let mut children = take_u64s(&a.children, 0, a.children.len());
    let mut bchildren = take_u64s(&b.children, 0, b.children.len());
    children.append(&mut bchildren);
    let m = Node { keys, children, values: Vec::new() };
    proof {
        assert forall|i: int| 0 <= i < m@.keys.len() implies m@.keys[i] == (a@.keys + seq![sepv]
            + b@.keys)[i] by {
            assert(m@.keys[i] == m.keys@[i]@);
        }
        assert(m@.keys =~= a@.keys + seq![sepv] + b@.keys);
        assert(m@.children =~= a@.children + b@.children);
    }
    m
}

/// The node merging two adjacent well-formed siblings — their separator
/// absorbed between them when they are internal — is itself shapely, sorted
/// and bounded, and holds exactly their joint contents.
#[verifier::rlimit(100)]
proof fn lemma_merged_wf(
    d: Seq<u8>,
    cfg: StorageConfig,
    aoff: u64,
    boff: u64,
    m: NodeView,
    ch: nat,
    lo2: Option<Seq<u8>>,
    hi2: Option<Seq<u8>>,
    sep: Seq<u8>,
)
    requires
        subtree_wf(d, cfg, aoff, ch, lo2, Some(sep)),
        subtree_wf(d, cfg, boff, ch, Some(sep), hi2),
        sep.len() <= cfg.max_key_size,
        strictly_above(lo2, sep),
        below_hi(hi2, sep),
        ch == 0 ==> {
            &&& m.keys == node_at(d, cfg, aoff).keys + node_at(d, cfg, boff).keys
            &&& m.values == node_at(d, cfg, aoff).values + node_at(d, cfg, boff).values
            &&& m.children.len() == 0
        },
        ch > 0 ==> {
            &&& m.keys == node_at(d, cfg, aoff).keys + seq![sep] + node_at(d, cfg, boff).keys
            &&& m.children == node_at(d, cfg, aoff).children + node_at(d, cfg, boff).children
            &&& m.values.len() == 0
        },
    ensures
        m.shape_ok(),
        m.sizes_ok(cfg),
        sorted_keys(m.keys),
        node_keys_bounded(m, lo2, hi2),
        m.is_leaf() <==> ch == 0,
        ch == 0 ==> zip_kv(m.keys, m.values) == subtree_entries(d, cfg, aoff, 0)
            + subtree_entries(d, cfg, boff, 0),
        ch > 0 ==> children_wf(d, cfg, m, (ch - 1) as nat, lo2, hi2, 0) && children_entries(
            d,
            cfg,
            m,
            (ch - 1) as nat,
            0,
        ) == subtree_entries(d, cfg, aoff, ch) + subtree_entries(d, cfg, boff, ch),
{
    let a = node_at(d, cfg, aoff);
    let b = node_at(d, cfg, boff);
    let an = a.keys.len() as int;
    // Keys of the left part sort strictly before the separator, keys of the
    // right part at or after it; everything stays inside [lo2, hi2).
    assert forall|i: int| 0 <= i < m.keys.len() implies {
        &&& below_hi(hi2, #[trigger] m.keys[i])
        &&& above_lo(lo2, m.keys[i])
        &&& (ch > 0 ==> strictly_above(lo2, m.keys[i]))
        &&& (i < an ==> lex_lt(m.keys[i], sep))
        &&& (ch > 0 && i == an ==> m.keys[i] == sep)
        &&& (i > an || (ch == 0 && i == an) ==> lex_le(sep, m.keys[i]))
    } by {
        if i < an {
            assert(m.keys[i] == a.keys[i]);
            if hi2 is Some {
                lemma_lex_trans(a.keys[i], sep, hi2.unwrap());
            }
        } else if ch > 0 && i == an {
            assert(m.keys[i] == sep);
        } else {
            let bi = if ch == 0 {
                i - an
            } else {
                i - an - 1
            };
            assert(m.keys[i] == b.keys[bi]);
            assert(above_lo(Some(sep), b.keys[bi]));
            if lo2 is Some {
                if sep == b.keys[bi] {
                    assert(strictly_above(lo2, m.keys[i]));
                } else {
                    lemma_lex_trans(lo2.unwrap(), sep, b.keys[bi]);
                }
            }
            if ch > 0 {
                assert(strictly_above(Some(sep), b.keys[bi]));
            }
        }
    }
    assert(node_keys_bounded(m, lo2, hi2));
    assert forall|i: int, j: int| 0 <= i < j < m.keys.len() implies lex_lt(
        m.keys[i],
        m.keys[j],
    ) by {
        if i < an && (j > an || (ch == 0 && j == an)) {
            if sep == m.keys[j] {
                assert(lex_lt(m.keys[i], m.keys[j]));
            } else {
                lemma_lex_trans(m.keys[i], sep, m.keys[j]);
            }
        } else if ch > 0 && i == an {
            assert(lex_lt(sep, m.keys[j]));
        } else if i < an && j < an {
            assert(lex_lt(a.keys[i], a.keys[j]));
        } else {
            let bi = if ch == 0 {
                i - an
            } else {
                i - an - 1
            };
            let bj = if ch == 0 {
                j - an
            } else {
                j - an - 1
            };
            if i >= an + 1 || (ch == 0 && i >= an) {
                assert(lex_lt(b.keys[bi], b.keys[bj]));
            }
        }
    }
    assert(sorted_keys(m.keys));
    assert(m.shape_ok());
    assert forall|i: int| 0 <= i < m.keys.len() implies #[trigger] m.keys[i].len()
        <= cfg.max_key_size by {
        if i < an {
            assert(a.keys[i].len() <= cfg.max_key_size);
        } else if ch > 0 && i == an {
        } else {
            let bi = if ch == 0 {
                i - an
            } else {
                i - an - 1
            };
            assert(b.keys[bi].len() <= cfg.max_key_size);
        }
    }
    if ch == 0 {
        assert forall|i: int| 0 <= i < m.values.len() implies #[trigger] m.values[i].len()
            <= cfg.max_val_size by {
            if i < an {
                assert(a.values[i].len() <= cfg.max_val_size);
            } else {
                assert(b.values[i - an].len() <= cfg.max_val_size);
            }
        }
        assert(m.sizes_ok(cfg));
        assert(zip_kv(m.keys, m.values) =~= zip_kv(a.keys, a.values) + zip_kv(b.keys, b.values));
    } else {
        assert(m.sizes_ok(cfg));
        let cch = (ch - 1) as nat;
        // Every child of the merged node keeps the separator bounds it had;
        // the absorbed separator is exactly the edge between the two halves.
        assert forall|j: int| 0 <= j < m.children.len() implies subtree_wf(
            d,
            cfg,
            #[trigger] m.children[j],
            cch,
            child_lo(m, lo2, j),
            child_hi(m, hi2, j),
        ) by {
            if j < a.children.len() {
                assert(m.children[j] == a.children[j]);
                lemma_children_wf_index(d, cfg, a, cch, lo2, Some(sep), 0, j);
                assert(child_lo(m, lo2, j) == child_lo(a, lo2, j));
                if j == an {
                    assert(child_hi(m, hi2, j) == Some(sep));
                } else {
                    assert(child_hi(m, hi2, j) == child_hi(a, Some(sep), j));
                }
            } else {
                let t = j - a.children.len();
                assert(m.children[j] == b.children[t]);
                lemma_children_wf_index(d, cfg, b, cch, Some(sep), hi2, 0, t);
                if t == 0 {
                    assert(child_lo(m, lo2, j) == Some(sep));
                } else {
                    assert(child_lo(m, lo2, j) == Some(b.keys[t - 1]));
                }
                assert(child_hi(m, hi2, j) == child_hi(b, hi2, t));
            }
        }
        lemma_children_wf_build(d, cfg, m, cch, lo2, hi2, 0);
        lemma_children_entries_prefix(d, cfg, m, a, cch, 0);
        lemma_children_entries_shift(d, cfg, m, b, cch, a.children.len() as int, 0);
    }
}

/// Rewrite a leaf with the found key's pair taken out, and report whether
/// the rewritten leaf fell under the minimum fill.
#[verifier::loop_isolation(false)]
#[verifier::rlimit(100)]
fn delete_from_leaf(
    dm: &mut DiskManager,
    node: Node,
    pos: usize,
    Ghost(lo): Ghost<Option<Seq<u8>>>,
    Ghost(hi): Ghost<Option<Seq<u8>>>,
    Ghost(k): Ghost<Seq<u8>>,
) -> (r: Result<DeleteResult, StorageError>)
    requires
        old(dm).wf(),
        node@.is_leaf(),
        node@.shape_ok(),
        node@.sizes_ok(old(dm).config),
        node@.fits(old(dm).config.page_size as int),
        sorted_keys(node@.keys),
        node_keys_bounded(node@, lo, hi),
        pos < node@.keys.len(),
        node@.keys[pos as int] == k,
    ensures
        final(dm).wf(),
        final(dm).config == old(dm).config,
        extends(old(dm).image@, final(dm).image@),
        match r {
            Ok(DeleteResult::NotFound) => false,
            Ok(DeleteResult::Replaced(o2)) | Ok(DeleteResult::Underfull(o2)) => {
                &&& subtree_wf(final(dm).image@, old(dm).config, o2, 0, lo, hi)
                &&& subtree_entries(final(dm).image@, old(dm).config, o2, 0) == kv_remove(
                    zip_kv(node@.keys, node@.values),
                    k,
                )
            },
            Err(e) => e == StorageError::PageOverflow,
        },
        r matches Ok(DeleteResult::Replaced(o2)) ==> node_at(
            final(dm).image@,
            old(dm).config,
            o2,
        ).encoded_size() >= old(dm).config.min_node_size,
        r matches Ok(DeleteResult::Underfull(o2)) ==> node_at(
            final(dm).image@,
            old(dm).config,
            o2,
        ).encoded_size() < old(dm).config.min_node_size,
        !(r is Err),
        leaf_removed(node@, k).encoded_size() >= old(dm).config.min_node_size ==> r matches Ok(
            DeleteResult::Replaced(_),
        ),
{
    let ghost nd0 = node@;
    let ghost ks0 = node@.keys;
    let ghost vs0 = node@.values;
    let ghost es0 = zip_kv(ks0, vs0);
    let mut node = node;
    proof {
        assert(node.values@.len() == node.keys@.len());
        assert(forall|j: int| 0 <= j < es0.len() ==> #[trigger] es0[j] == (ks0[j], vs0[j]));
        assert forall|j: int| 0 <= j < pos implies lex_lt(es0[j].0, k) by {
            assert(lex_lt(ks0[j], ks0[pos as int]));
        }
        lemma_kv_remove_hit(es0, k, pos as int);
    }
    node.keys.remove(pos);
    node.values.remove(pos);
    let ghost nv = node@;
    proof {
        let ks1 = nv.keys;
        assert(ks1.len() == ks0.len() - 1);
        assert(forall|j: int| 0 <= j < pos ==> #[trigger] ks1[j] == ks0[j]);
        assert(forall|j: int| pos <= j < ks1.len() ==> #[trigger] ks1[j] == ks0[j + 1]);
        assert(zip_kv(nv.keys, nv.values) =~= es0.subrange(0, pos as int) + es0.skip(
            pos as int + 1,
        ));
        assert forall|i: int, j: int| 0 <= i < j < ks1.len() implies lex_lt(ks1[i], ks1[j]) by {
            if i < pos && j >= pos {
                assert(lex_lt(ks0[i], ks0[j + 1]));
            }
        }
        assert(sorted_keys(ks1));
        assert(node_keys_bounded(nv, lo, hi));
        assert forall|i: int| 0 <= i < ks1.len() implies #[trigger] ks1[i].len()
            <= dm.config.max_key_size by {
            if i < pos {
                assert(ks0[i].len() <= dm.config.max_key_size);
            } else {
                assert(ks0[i + 1].len() <= dm.config.max_key_size);
            }
        }
        assert forall|i: int| 0 <= i < nv.values.len() implies #[trigger] nv.values[i].len()
            <= dm.config.max_val_size by {
            if i < pos {
                assert(nv.values[i] == vs0[i]);
                assert(vs0[i].len() <= dm.config.max_val_size);
            } else {
                assert(nv.values[i] == vs0[i + 1]);
                assert(vs0[i + 1].len() <= dm.config.max_val_size);
            }
        }
        assert(nv.sizes_ok(dm.config));
        assert(nv.keys =~= ks0.remove(pos as int));
        assert(nv.values =~= vs0.remove(pos as int));
        assert(nv.keys =~= unzip_keys(kv_remove(es0, k)));
        assert(nv.values =~= unzip_vals(kv_remove(es0, k)));
        assert(nv =~= leaf_removed(nd0, k));
        crate::node::lemma_leaf_remove_size(nd0, nv, pos as int);
        assert(nv.fits(dm.config.page_size as int));
    }
    let new_offset = dm.get_new_offset();
    match dm.append_node_to_disk(new_offset, &node) {
        EncodeResult::Encoded => {
            proof {
                let d2 = dm.image@;
                assert(node_at(d2, dm.config, new_offset) == nv);
                assert(subtree_wf(d2, dm.config, new_offset, 0, lo, hi));
            }
            if dm.check_node_needs_merge(&node) {
                Ok(DeleteResult::Underfull(new_offset))
            } else {
                Ok(DeleteResult::Replaced(new_offset))
            }
        },
        EncodeResult::NeedSplit => {
            proof {
                // Taking a pair out only shrinks the leaf, which fit before.
                assert(false);
            }
            vstd::pervasive::unreached()
        },
    }
}

/// Rewrite an internal node whose routed child was rewritten by a delete:
/// point the traversed slot at the child's new offset, try-append, and
/// report whether this node in turn fell under the minimum fill.
#[verifier::loop_isolation(false)]
#[verifier::rlimit(100)]
fn delete_child_replaced(
    dm: &mut DiskManager,
    node: Node,
    ci: usize,
    new_child: u64,
    Ghost(d0): Ghost<Seq<u8>>,
    Ghost(ch): Ghost<nat>,
    Ghost(lo): Ghost<Option<Seq<u8>>>,
    Ghost(hi): Ghost<Option<Seq<u8>>>,
    Ghost(k): Ghost<Seq<u8>>,
) -> (r: Result<DeleteResult, StorageError>)
    requires
        old(dm).wf(),
        extends(d0, old(dm).image@),
        !node@.is_leaf(),
        node@.shape_ok(),
        node@.sizes_ok(old(dm).config),
        node@.fits(old(dm).config.page_size as int),
        sorted_keys(node@.keys),
        node_keys_bounded(node@, lo, hi),
        children_wf(d0, old(dm).config, node@, ch, lo, hi, 0),
        ci < node@.children.len(),
        subtree_wf(
            old(dm).image@,
            old(dm).config,
            new_child,
            ch,
            child_lo(node@, lo, ci as int),
            child_hi(node@, hi, ci as int),
        ),
        subtree_entries(old(dm).image@, old(dm).config, new_child, ch) == kv_remove(
            subtree_entries(d0, old(dm).config, node@.children[ci as int], ch),
            k,
        ),
        ci == 0 || lex_le(node@.keys[ci - 1], k),
        ci == node@.keys.len() || lex_lt(k, node@.keys[ci as int]),
    ensures
        final(dm).wf(),
        final(dm).config == old(dm).config,
        extends(old(dm).image@, final(dm).image@),
        match r {
            Ok(DeleteResult::NotFound) => false,
            Ok(DeleteResult::Replaced(o2)) | Ok(DeleteResult::Underfull(o2)) => {
                &&& subtree_wf(final(dm).image@, old(dm).config, o2, (ch + 1) as nat, lo, hi)
                &&& subtree_entries(final(dm).image@, old(dm).config, o2, (ch + 1) as nat)
                    == kv_remove(children_entries(d0, old(dm).config, node@, ch, 0), k)
            },
            Err(e) => e == StorageError::PageOverflow,
        },
        r matches Ok(DeleteResult::Replaced(o2)) ==> node_at(
            final(dm).image@,
            old(dm).config,
            o2,
        ).encoded_size() >= old(dm).config.min_node_size,
        r matches Ok(DeleteResult::Underfull(o2)) ==> node_at(
            final(dm).image@,
            old(dm).config,
            o2,
        ).encoded_size() < old(dm).config.min_node_size,
        !(r is Err),
        node@.encoded_size() >= old(dm).config.min_node_size ==> r matches Ok(
            DeleteResult::Replaced(_),
        ),
{
    let ghost d1 = dm.image@;
    let ghost cfg = dm.config;
    let ghost nd1 = node@;
    let mut node = node;
    node.children[ci] = new_child;
    let ghost nd2 = node@;
    proof {
        assert(nd2.keys == nd1.keys);
        assert(nd2.children == nd1.children.update(ci as int, new_child));
        lemma_same_shape_same_size(nd1, nd2);
        lemma_extends_pointwise(d0, d1);
        assert forall|j: int| 0 <= j < nd2.children.len() implies subtree_wf(
            d1,
            cfg,
            #[trigger] nd2.children[j],
            ch,
            child_lo(nd2, lo, j),
            child_hi(nd2, hi, j),
        ) by {
            assert(child_lo(nd2, lo, j) == child_lo(nd1, lo, j));
            assert(child_hi(nd2, hi, j) == child_hi(nd1, hi, j));
            if j != ci {
                lemma_children_wf_index(d0, cfg, nd1, ch, lo, hi, 0, j);
                lemma_subtree_frame(
                    d0,
                    d1,
                    cfg,
                    nd1.children[j],
                    ch,
                    child_lo(nd1, lo, j),
                    child_hi(nd1, hi, j),
                );
                assert(nd2.children[j] == nd1.children[j]);
            }
        }
        lemma_children_wf_build(d1, cfg, nd2, ch, lo, hi, 0);
        assert forall|j: int| 0 <= j < nd1.children.len() && j != ci implies subtree_entries(
            d1,
            cfg,
            #[trigger] nd1.children[j],
            ch,
        ) == subtree_entries(d0, cfg, nd1.children[j], ch) by {
            lemma_children_wf_index(d0, cfg, nd1, ch, lo, hi, 0, j);
            lemma_subtree_frame(
                d0,
                d1,
                cfg,
                nd1.children[j],
                ch,
                child_lo(nd1, lo, j),
                child_hi(nd1, hi, j),
            );
        }
        lemma_children_entries_remove(d0, d1, cfg, nd1, nd2, ch, lo, hi, 0, ci as int, k);
        assert(children_entries(d1, cfg, nd2, ch, 0) == kv_remove(
            children_entries(d0, cfg, nd1, ch, 0),
            k,
        ));
    }
    let new_offset = dm.get_new_offset();
    match dm.append_node_to_disk(new_offset, &node) {
        EncodeResult::Encoded => {
            proof {
                let d2 = dm.image@;
                assert(extends(d1, d2));
                lemma_extends_pointwise(d1, d2);
                assert(node_at(d2, cfg, new_offset) == nd2);
                lemma_children_frame(d1, d2, cfg, nd2, ch, lo, hi, 0);
                assert(subtree_wf(d2, cfg, new_offset, (ch + 1) as nat, lo, hi));
            }
            if dm.check_node_needs_merge(&node) {
                Ok(DeleteResult::Underfull(new_offset))
            } else {
                Ok(DeleteResult::Replaced(new_offset))
            }
        },
        EncodeResult::NeedSplit => {
            proof {
                // The rewritten node has its predecessor's keys and child
                // count, so it fits exactly as its predecessor did.
                assert(false);
            }
            vstd::pervasive::unreached()
        },
    }
}

/// Rewrite an internal node whose two window children were merged into one:
/// the separator between them leaves the key list and the window's two
/// slots become the merged node's one.
#[verifier::loop_isolation(false)]
#[verifier::rlimit(100)]
fn finish_merge(
    dm: &mut DiskManager,
    parent: Node,
    wa: usize,
    moff: u64,
    Ghost(d0): Ghost<Seq<u8>>,
    Ghost(ch): Ghost<nat>,
    Ghost(lo): Ghost<Option<Seq<u8>>>,
    Ghost(hi): Ghost<Option<Seq<u8>>>,
    Ghost(k): Ghost<Seq<u8>>,
) -> (r: Result<DeleteResult, StorageError>)
    requires
        old(dm).wf(),
        extends(d0, old(dm).image@),
        !parent@.is_leaf(),
        parent@.shape_ok(),
        parent@.sizes_ok(old(dm).config),
        sorted_keys(parent@.keys),
        node_keys_bounded(parent@, lo, hi),
        children_wf(d0, old(dm).config, parent@, ch, lo, hi, 0),
        wa + 2 <= parent@.children.len(),
        subtree_wf(
            old(dm).image@,
            old(dm).config,
            moff,
            ch,
            child_lo(parent@, lo, wa as int),
            child_hi(parent@, hi, wa as int + 1),
        ),
        subtree_entries(old(dm).image@, old(dm).config, moff, ch) == kv_remove(
            subtree_entries(d0, old(dm).config, parent@.children[wa as int], ch)
                + subtree_entries(d0, old(dm).config, parent@.children[wa as int + 1], ch),
            k,
        ),
        wa == 0 || lex_le(parent@.keys[wa - 1], k),
        wa + 1 == parent@.keys.len() || lex_lt(k, parent@.keys[wa as int + 1]),
    ensures
        final(dm).wf(),
        final(dm).config == old(dm).config,
        extends(old(dm).image@, final(dm).image@),
        match r {
            Ok(DeleteResult::NotFound) => false,
            Ok(DeleteResult::Replaced(o2)) | Ok(DeleteResult::Underfull(o2)) => {
                &&& subtree_wf(final(dm).image@, old(dm).config, o2, (ch + 1) as nat, lo, hi)
                &&& subtree_entries(final(dm).image@, old(dm).config, o2, (ch + 1) as nat)
                    == kv_remove(children_entries(d0, old(dm).config, parent@, ch, 0), k)
            },
            Err(e) => e == StorageError::PageOverflow,
        },
        r matches Ok(DeleteResult::Replaced(o2)) ==> node_at(
            final(dm).image@,
            old(dm).config,
            o2,
        ).encoded_size() >= old(dm).config.min_node_size,
        r matches Ok(DeleteResult::Underfull(o2)) ==> node_at(
            final(dm).image@,
            old(dm).config,
            o2,
        ).encoded_size() < old(dm).config.min_node_size,
{
    let ghost d1 = dm.image@;
    let ghost cfg = dm.config;
    let ghost nd1 = parent@;
    let mut parent = parent;
    proof {
        assert(wa + 1 < parent.children.len());
        assert(wa < parent.keys.len());
    }
    parent.keys.remove(wa);
    parent.children[wa] = moff;
    parent.children.remove(wa + 1);
    let ghost nd2 = parent@;
    proof {
        lemma_extends_pointwise(d0, d1);
        let ks1 = nd1.keys;
        let ks2 = nd2.keys;
        assert(ks2 =~= ks1.remove(wa as int));
        assert(forall|j: int| 0 <= j < wa ==> #[trigger] ks2[j] == ks1[j]);
        assert(forall|j: int| wa <= j < ks2.len() ==> #[trigger] ks2[j] == ks1[j + 1]);
        assert(forall|j: int| 0 <= j < wa ==> #[trigger] nd2.children[j] == nd1.children[j]);
        assert(nd2.children[wa as int] == moff);
        assert(forall|j: int|
            wa < j < nd2.children.len() ==> #[trigger] nd2.children[j] == nd1.children[j + 1]);
        assert forall|i: int, j: int| 0 <= i < j < ks2.len() implies lex_lt(ks2[i], ks2[j]) by {
            if i < wa && j >= wa {
                assert(lex_lt(ks1[i], ks1[j + 1]));
            }
        }
        assert(sorted_keys(ks2));
        assert(node_keys_bounded(nd2, lo, hi));
        assert forall|i: int| 0 <= i < ks2.len() implies #[trigger] ks2[i].len()
            <= cfg.max_key_size by {
            if i < wa {
                assert(ks1[i].len() <= cfg.max_key_size);
            } else {
                assert(ks1[i + 1].len() <= cfg.max_key_size);
            }
        }
        assert(nd2.sizes_ok(cfg));
        assert(nd2.shape_ok());
        // Children well formed: the merged node takes the window's combined
        // separator range, everything past it shifts down by one.
        assert forall|j: int| 0 <= j < nd2.children.len() implies subtree_wf(
            d1,
            cfg,
            #[trigger] nd2.children[j],
            ch,
            child_lo(nd2, lo, j),
            child_hi(nd2, hi, j),
        ) by {
            if j < wa {
                assert(child_lo(nd2, lo, j) == child_lo(nd1, lo, j));
                assert(child_hi(nd2, hi, j) == child_hi(nd1, hi, j));
                lemma_children_wf_index(d0, cfg, nd1, ch, lo, hi, 0, j);
                lemma_subtree_frame(
                    d0,
                    d1,
                    cfg,
                    nd1.children[j],
                    ch,
                    child_lo(nd1, lo, j),
                    child_hi(nd1, hi, j),
                );
            } else if j == wa {
                assert(child_lo(nd2, lo, j) == child_lo(nd1, lo, wa as int));
                assert(child_hi(nd2, hi, j) == child_hi(nd1, hi, wa as int + 1));
            } else {
                assert(child_lo(nd2, lo, j) == child_lo(nd1, lo, j + 1));
                assert(child_hi(nd2, hi, j) == child_hi(nd1, hi, j + 1));
                lemma_children_wf_index(d0, cfg, nd1, ch, lo, hi, 0, j + 1);
                lemma_subtree_frame(
                    d0,
                    d1,
                    cfg,
                    nd1.children[j + 1],
                    ch,
                    child_lo(nd1, lo, j + 1),
                    child_hi(nd1, hi, j + 1),
                );
            }
        }
        lemma_children_wf_build(d1, cfg, nd2, ch, lo, hi, 0);
        // Contents: unchanged up to the window, the merged node's removal
        // result inside it, the old tail after it.
        assert forall|j: int| 0 <= j < wa implies subtree_entries(
            d1,
            cfg,
            #[trigger] nd1.children[j],
            ch,
        ) == subtree_entries(d0, cfg, nd1.children[j], ch) by {
            lemma_children_wf_index(d0, cfg, nd1, ch, lo, hi, 0, j);
            lemma_subtree_frame(
                d0,
                d1,
                cfg,
                nd1.children[j],
                ch,
                child_lo(nd1, lo, j),
                child_hi(nd1, hi, j),
            );
        }
        assert forall|t: int| 0 <= t < nd1.children.len() - (wa + 2) implies subtree_entries(
            d1,
            cfg,
            #[trigger] nd1.children[(wa + 2) + t],
            ch,
        ) == subtree_entries(d0, cfg, nd1.children[(wa + 2) + t], ch) by {
            lemma_children_wf_index(d0, cfg, nd1, ch, lo, hi, 0, (wa + 2) + t);
            lemma_subtree_frame(
                d0,
                d1,
                cfg,
                nd1.children[(wa + 2) + t],
                ch,
                child_lo(nd1, lo, (wa + 2) + t),
                child_hi(nd1, hi, (wa + 2) + t),
            );
        }
        assert forall|t: int| 0 <= t < nd1.children.len() - (wa + 2) implies nd2.children[(wa + 1)
            + t] == #[trigger] nd1.children[(wa + 2) + t] by {
            assert(nd2.children[(wa + 1) + t] == nd1.children[((wa + 1) + t) + 1]);
        }
        lemma_children_entries_offset_cong(d0, d1, cfg, nd1, nd2, ch, wa as int + 2, wa as int + 1);
        assert(children_entries(d1, cfg, nd2, ch, wa as int) == subtree_entries(d1, cfg, moff, ch)
            + children_entries(d0, cfg, nd1, ch, wa as int + 2));
        lemma_children_entries_window_remove(d0, d1, cfg, nd1, nd2, ch, lo, hi, 0, wa as int, k);
        assert(children_entries(d1, cfg, nd2, ch, 0) == kv_remove(
            children_entries(d0, cfg, nd1, ch, 0),
            k,
        ));
    }
    let new_offset = dm.get_new_offset();
    match dm.append_node_to_disk(new_offset, &parent) {
        EncodeResult::Encoded => {
            proof {
                let d2 = dm.image@;
                assert(extends(d1, d2));
                lemma_extends_pointwise(d1, d2);
                assert(node_at(d2, cfg, new_offset) == nd2);
                lemma_children_frame(d1, d2, cfg, nd2, ch, lo, hi, 0);
                assert(subtree_wf(d2, cfg, new_offset, (ch + 1) as nat, lo, hi));
            }
            if dm.check_node_needs_merge(&parent) {
                Ok(DeleteResult::Underfull(new_offset))
            } else {
                Ok(DeleteResult::Replaced(new_offset))
            }
        },
        EncodeResult::NeedSplit => {
            proof {
                lemma_extends_refl(d1);
            }
            Err(StorageError::PageOverflow)
        },
    }
}

/// Rewrite an internal node whose two window children were redistributed
/// into a fresh pair: the separator between them becomes the redistribution
/// split's promoted key and the window's slots point at the new siblings.
#[verifier::loop_isolation(false)]
#[verifier::rlimit(100)]
fn finish_resplit(
    dm: &mut DiskManager,
    parent: Node,
    wa: usize,
    promoted_key: Vec<u8>,
    left_offset: u64,
    right_offset: u64,
    Ghost(d0): Ghost<Seq<u8>>,
    Ghost(ch): Ghost<nat>,
    Ghost(lo): Ghost<Option<Seq<u8>>>,
    Ghost(hi): Ghost<Option<Seq<u8>>>,
    Ghost(k): Ghost<Seq<u8>>,
) -> (r: Result<DeleteResult, StorageError>)
    requires
        old(dm).wf(),
        extends(d0, old(dm).image@),
        !parent@.is_leaf(),
        parent@.shape_ok(),
        parent@.sizes_ok(old(dm).config),
        sorted_keys(parent@.keys),
        node_keys_bounded(parent@, lo, hi),
        children_wf(d0, old(dm).config, parent@, ch, lo, hi, 0),
        wa + 2 <= parent@.children.len(),
        subtree_wf(
            old(dm).image@,
            old(dm).config,
            left_offset,
            ch,
            child_lo(parent@, lo, wa as int),
            Some(promoted_key@),
        ),
        subtree_wf(
            old(dm).image@,
            old(dm).config,
            right_offset,
            ch,
            Some(promoted_key@),
            child_hi(parent@, hi, wa as int + 1),
        ),
        subtree_entries(old(dm).image@, old(dm).config, left_offset, ch) + subtree_entries(
            old(dm).image@,
            old(dm).config,
            right_offset,
            ch,
        ) == kv_remove(
            subtree_entries(d0, old(dm).config, parent@.children[wa as int], ch)
                + subtree_entries(d0, old(dm).config, parent@.children[wa as int + 1], ch),
            k,
        ),
        in_bounds(
            child_lo(parent@, lo, wa as int),
            child_hi(parent@, hi, wa as int + 1),
            promoted_key@,
        ),
        strictly_above(child_lo(parent@, lo, wa as int), promoted_key@),
        promoted_key@.len() <= old(dm).config.max_key_size,
        wa == 0 || lex_le(parent@.keys[wa - 1], k),
        wa + 1 == parent@.keys.len() || lex_lt(k, parent@.keys[wa as int + 1]),
    ensures
        final(dm).wf(),
        final(dm).config == old(dm).config,
        extends(old(dm).image@, final(dm).image@),
        match r {
            Ok(DeleteResult::NotFound) => false,
            Ok(DeleteResult::Replaced(o2)) | Ok(DeleteResult::Underfull(o2)) => {
                &&& subtree_wf(final(dm).image@, old(dm).config, o2, (ch + 1) as nat, lo, hi)
                &&& subtree_entries(final(dm).image@, old(dm).config, o2, (ch + 1) as nat)
                    == kv_remove(children_entries(d0, old(dm).config, parent@, ch, 0), k)
            },
            Err(e) => e == StorageError::PageOverflow,
        },
        r matches Ok(DeleteResult::Replaced(o2)) ==> node_at(
            final(dm).image@,
            old(dm).config,
            o2,
        ).encoded_size() >= old(dm).config.min_node_size,
        r matches Ok(DeleteResult::Underfull(o2)) ==> node_at(
            final(dm).image@,
            old(dm).config,
            o2,
        ).encoded_size() < old(dm).config.min_node_size,
{
    let ghost d1 = dm.image@;
    let ghost cfg = dm.config;
    let ghost nd1 = parent@;
    let ghost p = promoted_key@;
    let mut parent = parent;
    proof {
        assert(wa + 1 < parent.children.len());
        assert(wa < parent.keys.len());
    }
    parent.keys[wa] = promoted_key;
    parent.children[wa] = left_offset;
    parent.children[wa + 1] = right_offset;
    let ghost nd2 = parent@;
    proof {
        lemma_extends_pointwise(d0, d1);
        let ks1 = nd1.keys;
        let ks2 = nd2.keys;
        assert(ks2 =~= ks1.update(wa as int, p));
        assert(forall|j: int| 0 <= j < ks2.len() && j != wa ==> #[trigger] ks2[j] == ks1[j]);
        assert(ks2[wa as int] == p);
        assert(forall|j: int|
            0 <= j < nd2.children.len() && j != wa && j != wa + 1 ==> #[trigger] nd2.children[j]
                == nd1.children[j]);
        // The promoted key lies strictly between its neighbouring
        // separators, so the key list stays strictly sorted and bounded.
        assert(wa > 0 ==> lex_lt(ks1[wa - 1], p));
        assert(wa + 1 < ks1.len() ==> lex_lt(p, ks1[wa as int + 1]));
        assert forall|i: int, j: int| 0 <= i < j < ks2.len() implies lex_lt(ks2[i], ks2[j]) by {
            if i == wa {
                if j > wa + 1 {
                    lemma_lex_trans(p, ks1[wa as int + 1], ks1[j]);
                }
            } else if j == wa {
                if i < wa - 1 {
                    lemma_lex_trans(ks1[i], ks1[wa - 1], p);
                }
            }
        }
        assert(sorted_keys(ks2));
        assert forall|i: int| 0 <= i < ks2.len() implies {
            &&& below_hi(hi, #[trigger] ks2[i])
            &&& above_lo(lo, ks2[i])
            &&& strictly_above(lo, ks2[i])
        } by {
            if i == wa {
                if wa > 0 {
                    if lo is Some {
                        lemma_lex_trans(lo.unwrap(), ks1[wa - 1], p);
                    }
                }
                if wa + 1 < ks1.len() {
                    if hi is Some {
                        lemma_lex_trans(p, ks1[wa as int + 1], hi.unwrap());
                    }
                }
            }
        }
        assert(node_keys_bounded(nd2, lo, hi));
        assert forall|i: int| 0 <= i < ks2.len() implies #[trigger] ks2[i].len()
            <= cfg.max_key_size by {
            if i != wa {
                assert(ks1[i].len() <= cfg.max_key_size);
            }
        }
        assert(nd2.sizes_ok(cfg));
        assert(nd2.shape_ok());
        assert forall|j: int| 0 <= j < nd2.children.len() implies subtree_wf(
            d1,
            cfg,
            #[trigger] nd2.children[j],
            ch,
            child_lo(nd2, lo, j),
            child_hi(nd2, hi, j),
        ) by {
            if j < wa {
                assert(child_lo(nd2, lo, j) == child_lo(nd1, lo, j));
                assert(child_hi(nd2, hi, j) == child_hi(nd1, hi, j));
                lemma_children_wf_index(d0, cfg, nd1, ch, lo, hi, 0, j);
                lemma_subtree_frame(
                    d0,
                    d1,
                    cfg,
                    nd1.children[j],
                    ch,
                    child_lo(nd1, lo, j),
                    child_hi(nd1, hi, j),
                );
            } else if j == wa {
                assert(child_lo(nd2, lo, j) == child_lo(nd1, lo, wa as int));
                assert(child_hi(nd2, hi, j) == Some(p));
            } else if j == wa + 1 {
                assert(child_lo(nd2, lo, j) == Some(p));
                assert(child_hi(nd2, hi, j) == child_hi(nd1, hi, wa as int + 1));
            } else {
                assert(child_lo(nd2, lo, j) == child_lo(nd1, lo, j));
                assert(child_hi(nd2, hi, j) == child_hi(nd1, hi, j));
                lemma_children_wf_index(d0, cfg, nd1, ch, lo, hi, 0, j);
                lemma_subtree_frame(
                    d0,
                    d1,
                    cfg,
                    nd1.children[j],
                    ch,
                    child_lo(nd1, lo, j),
                    child_hi(nd1, hi, j),
                );
            }
        }
        lemma_children_wf_build(d1, cfg, nd2, ch, lo, hi, 0);
        assert forall|j: int| 0 <= j < wa implies subtree_entries(
            d1,
            cfg,
            #[trigger] nd1.children[j],
            ch,
        ) == subtree_entries(d0, cfg, nd1.children[j], ch) by {
            lemma_children_wf_index(d0, cfg, nd1, ch, lo, hi, 0, j);
            lemma_subtree_frame(
                d0,
                d1,
                cfg,
                nd1.children[j],
                ch,
                child_lo(nd1, lo, j),
                child_hi(nd1, hi, j),
            );
        }
        assert forall|t: int| 0 <= t < nd1.children.len() - (wa + 2) implies subtree_entries(
            d1,
            cfg,
            #[trigger] nd1.children[(wa + 2) + t],
            ch,
        ) == subtree_entries(d0, cfg, nd1.children[(wa + 2) + t], ch) by {
            lemma_children_wf_index(d0, cfg, nd1, ch, lo, hi, 0, (wa + 2) + t);
            lemma_subtree_frame(
                d0,
                d1,
                cfg,
                nd1.children[(wa + 2) + t],
                ch,
                child_lo(nd1, lo, (wa + 2) + t),
                child_hi(nd1, hi, (wa + 2) + t),
            );
        }
        assert forall|t: int| 0 <= t < nd1.children.len() - (wa + 2) implies nd2.children[(wa + 2)
            + t] == #[trigger] nd1.children[(wa + 2) + t] by {}
        lemma_children_entries_offset_cong(d0, d1, cfg, nd1, nd2, ch, wa as int + 2, wa as int + 2);
        let el = subtree_entries(d1, cfg, left_offset, ch);
        let er = subtree_entries(d1, cfg, right_offset, ch);
        let tail = children_entries(d0, cfg, nd1, ch, wa as int + 2);
        assert(children_entries(d1, cfg, nd2, ch, wa as int + 1) == er + tail);
        assert(children_entries(d1, cfg, nd2, ch, wa as int) == el + (er + tail));
        assert(el + (er + tail) =~= (el + er) + tail);
        lemma_children_entries_window_remove(d0, d1, cfg, nd1, nd2, ch, lo, hi, 0, wa as int, k);
        assert(children_entries(d1, cfg, nd2, ch, 0) == kv_remove(
            children_entries(d0, cfg, nd1, ch, 0),
            k,
        ));
    }
    let new_offset = dm.get_new_offset();
    match dm.append_node_to_disk(new_offset, &parent) {
        EncodeResult::Encoded => {
            proof {
                let d2 = dm.image@;
                assert(extends(d1, d2));
                lemma_extends_pointwise(d1, d2);
                assert(node_at(d2, cfg, new_offset) == nd2);
                lemma_children_frame(d1, d2, cfg, nd2, ch, lo, hi, 0);
                assert(subtree_wf(d2, cfg, new_offset, (ch + 1) as nat, lo, hi));
            }
            if dm.check_node_needs_merge(&parent) {
                Ok(DeleteResult::Underfull(new_offset))
            } else {
                Ok(DeleteResult::Replaced(new_offset))
            }
        },
        EncodeResult::NeedSplit => {
            proof {
                lemma_extends_refl(d1);
            }
            Err(StorageError::PageOverflow)
        },
    }
}

/// Rebalance two adjacent children, one of which fell under the minimum
/// fill after a delete: merge them — absorbing their separator when they are
/// internal — and, when the merged node no longer fits one page,
/// redistribute by splitting it again; then rewrite the parent around the
/// outcome.
#[verifier::loop_isolation(false)]
#[verifier::rlimit(100)]
fn rebalance_window(
    dm: &mut DiskManager,
    parent: Node,
    wa: usize,
    aoff: u64,
    boff: u64,
    Ghost(d0): Ghost<Seq<u8>>,
    Ghost(ch): Ghost<nat>,
    Ghost(lo): Ghost<Option<Seq<u8>>>,
    Ghost(hi): Ghost<Option<Seq<u8>>>,
    Ghost(k): Ghost<Seq<u8>>,
) -> (r: Result<DeleteResult, StorageError>)
    requires
        old(dm).wf(),
        extends(d0, old(dm).image@),
        !parent@.is_leaf(),
        parent@.shape_ok(),
        parent@.sizes_ok(old(dm).config),
        sorted_keys(parent@.keys),
        node_keys_bounded(parent@, lo, hi),
        children_wf(d0, old(dm).config, parent@, ch, lo, hi, 0),
        wa + 2 <= parent@.children.len(),
        subtree_wf(
            old(dm).image@,
            old(dm).config,
            aoff,
            ch,
            child_lo(parent@, lo, wa as int),
            Some(parent@.keys[wa as int]),
        ),
        subtree_wf(
            old(dm).image@,
            old(dm).config,
            boff,
            ch,
            Some(parent@.keys[wa as int]),
            child_hi(parent@, hi, wa as int + 1),
        ),
        subtree_entries(old(dm).image@, old(dm).config, aoff, ch) + subtree_entries(
            old(dm).image@,
            old(dm).config,
            boff,
            ch,
        ) == kv_remove(
            subtree_entries(d0, old(dm).config, parent@.children[wa as int], ch)
                + subtree_entries(d0, old(dm).config, parent@.children[wa as int + 1], ch),
            k,
        ),
        wa == 0 || lex_le(parent@.keys[wa - 1], k),
        wa + 1 == parent@.keys.len() || lex_lt(k, parent@.keys[wa as int + 1]),
    ensures
        final(dm).wf(),
        final(dm).config == old(dm).config,
        extends(old(dm).image@, final(dm).image@),
        match r {
            Ok(DeleteResult::NotFound) => false,
            Ok(DeleteResult::Replaced(o2)) | Ok(DeleteResult::Underfull(o2)) => {
                &&& subtree_wf(final(dm).image@, old(dm).config, o2, (ch + 1) as nat, lo, hi)
                &&& subtree_entries(final(dm).image@, old(dm).config, o2, (ch + 1) as nat)
                    == kv_remove(children_entries(d0, old(dm).config, parent@, ch, 0), k)
            },
            Err(e) => e == StorageError::PageOverflow,
        },
        r matches Ok(DeleteResult::Replaced(o2)) ==> node_at(
            final(dm).image@,
            old(dm).config,
            o2,
        ).encoded_size() >= old(dm).config.min_node_size,
        r matches Ok(DeleteResult::Underfull(o2)) ==> node_at(
            final(dm).image@,
            old(dm).config,
            o2,
        ).encoded_size() < old(dm).config.min_node_size,
{
    let ghost d1 = dm.image@;
    let ghost cfg = dm.config;
    let ghost nd1 = parent@;
    let ghost lo2 = child_lo(parent@, lo, wa as int);
    let ghost hi2 = child_hi(parent@, hi, wa as int + 1);
    let ghost sepv = parent@.keys[wa as int];
    let a = match dm.load_node_from_disk(aoff) {
        Ok(n) => n,
        Err(_) => {
            proof {
                assert(false);
            }
            vstd::pervasive::unreached()
        },
    };
    let b = match dm.load_node_from_disk(boff) {
        Ok(n) => n,
        Err(_) => {
            proof {
                assert(false);
            }
            vstd::pervasive::unreached()
        },
    };
    proof {
        assert(wa < nd1.keys.len());
        // The separator sits strictly inside the window's combined range.
        assert(strictly_above(lo2, sepv)) by {
            if wa > 0 {
                assert(lex_lt(nd1.keys[wa - 1], nd1.keys[wa as int]));
            }
        }
        assert(below_hi(hi2, sepv)) by {
            if wa + 1 < nd1.keys.len() {
                assert(lex_lt(nd1.keys[wa as int], nd1.keys[wa as int + 1]));
            }
        }
        assert(sepv.len() <= cfg.max_key_size);
    }
    let merged = if a.children.is_empty() {
        proof {
            assert(ch == 0);
        }
        build_merged_leaf(&a, &b)
    } else {
        proof {
            assert(ch > 0);
        }
        build_merged_internal(&a, &b, copy_bytes(&parent.keys[wa]))
    };
    proof {
        lemma_merged_wf(d1, cfg, aoff, boff, merged@, ch, lo2, hi2, sepv);
    }
    let moff = dm.get_new_offset();
    match dm.append_node_to_disk(moff, &merged) {
        EncodeResult::Encoded => {
            proof {
                let d2 = dm.image@;
                assert(extends(d1, d2));
                lemma_extends_pointwise(d1, d2);
                assert(node_at(d2, cfg, moff) == merged@);
                if ch > 0 {
                    lemma_children_frame(d1, d2, cfg, merged@, (ch - 1) as nat, lo2, hi2, 0);
                }
                assert(subtree_wf(d2, cfg, moff, ch, lo2, hi2));
                lemma_subtree_frame(d1, d2, cfg, aoff, ch, lo2, Some(sepv));
                lemma_subtree_frame(d1, d2, cfg, boff, ch, Some(sepv), hi2);
                assert(subtree_entries(d2, cfg, moff, ch) == subtree_entries(d1, cfg, aoff, ch)
                    + subtree_entries(d1, cfg, boff, ch));
                lemma_extends_trans(d0, d1, d2);
            }
            let ghost d2c = dm.image@;
            let r2 = finish_merge(
                dm,
                parent,
                wa,
                moff,
                Ghost(d0),
                Ghost(ch),
                Ghost(lo),
                Ghost(hi),
                Ghost(k),
            );
            proof {
                lemma_extends_trans(d1, d2c, dm.image@);
            }
            r2
        },
        EncodeResult::NeedSplit => {
            rebalance_resplit(
                dm,
                parent,
                wa,
                merged,
                Ghost(d0),
                Ghost(ch),
                Ghost(lo),
                Ghost(hi),
                Ghost(k),
            )
        },
    }
}

/// Redistribute an overfull merged window node: split it again, promoting a
/// fresh separator, and rewrite the parent around the two new siblings.
#[verifier::loop_isolation(false)]
#[verifier::rlimit(100)]
fn rebalance_resplit(
    dm: &mut DiskManager,
    parent: Node,
    wa: usize,
    merged: Node,
    Ghost(d0): Ghost<Seq<u8>>,
    Ghost(ch): Ghost<nat>,
    Ghost(lo): Ghost<Option<Seq<u8>>>,
    Ghost(hi): Ghost<Option<Seq<u8>>>,
    Ghost(k): Ghost<Seq<u8>>,
) -> (r: Result<DeleteResult, StorageError>)
    requires
        old(dm).wf(),
        extends(d0, old(dm).image@),
        !parent@.is_leaf(),
        parent@.shape_ok(),
        parent@.sizes_ok(old(dm).config),
        sorted_keys(parent@.keys),
        node_keys_bounded(parent@, lo, hi),
        children_wf(d0, old(dm).config, parent@, ch, lo, hi, 0),
        wa + 2 <= parent@.children.len(),
        merged@.is_leaf() <==> ch == 0,
        !merged@.is_leaf() ==> merged@.keys.len() >= 1,
        merged@.shape_ok(),
        merged@.sizes_ok(old(dm).config),
        sorted_keys(merged@.keys),
        node_keys_bounded(
            merged@,
            child_lo(parent@, lo, wa as int),
            child_hi(parent@, hi, wa as int + 1),
        ),
        ch > 0 ==> children_wf(
            old(dm).image@,
            old(dm).config,
            merged@,
            (ch - 1) as nat,
            child_lo(parent@, lo, wa as int),
            child_hi(parent@, hi, wa as int + 1),
            0,
        ),
        (if ch == 0 {
            zip_kv(merged@.keys, merged@.values)
        } else {
            children_entries(old(dm).image@, old(dm).config, merged@, (ch - 1) as nat, 0)
        }) == kv_remove(
            subtree_entries(d0, old(dm).config, parent@.children[wa as int], ch)
                + subtree_entries(d0, old(dm).config, parent@.children[wa as int + 1], ch),
            k,
        ),
        wa == 0 || lex_le(parent@.keys[wa - 1], k),
        wa + 1 == parent@.keys.len() || lex_lt(k, parent@.keys[wa as int + 1]),
    ensures
        final(dm).wf(),
        final(dm).config == old(dm).config,
        extends(old(dm).image@, final(dm).image@),
        match r {
            Ok(DeleteResult::NotFound) => false,
            Ok(DeleteResult::Replaced(o2)) | Ok(DeleteResult::Underfull(o2)) => {
                &&& subtree_wf(final(dm).image@, old(dm).config, o2, (ch + 1) as nat, lo, hi)
                &&& subtree_entries(final(dm).image@, old(dm).config, o2, (ch + 1) as nat)
                    == kv_remove(children_entries(d0, old(dm).config, parent@, ch, 0), k)
            },
            Err(e) => e == StorageError::PageOverflow,
        },
        r matches Ok(DeleteResult::Replaced(o2)) ==> node_at(
            final(dm).image@,
            old(dm).config,
            o2,
        ).encoded_size() >= old(dm).config.min_node_size,
        r matches Ok(DeleteResult::Underfull(o2)) ==> node_at(
            final(dm).image@,
            old(dm).config,
            o2,
        ).encoded_size() < old(dm).config.min_node_size,
{
    let ghost d1 = dm.image@;
    let ghost cfg = dm.config;
    let ghost lo2 = child_lo(parent@, lo, wa as int);
    let ghost hi2 = child_hi(parent@, hi, wa as int + 1);
    let sres = if merged.children.is_empty() {
        if merged.keys.len() < 2 {
            proof {
                lemma_extends_refl(d1);
            }
            return Err(StorageError::PageOverflow);
        }
        propagate_leaf_split(dm, merged, Ghost(lo2), Ghost(hi2))
    } else {
        proof {
            assert(ch > 0);
            assert(merged@.keys.len() >= 1);
        }
        propagate_internal_split(dm, merged, Ghost((ch - 1) as nat), Ghost(lo2), Ghost(hi2))
    };
    match sres {
        Err(e) => {
            proof {
                assert(extends(d1, dm.image@));
                lemma_extends_trans(d0, d1, dm.image@);
            }
            Err(e)
        },
        Ok(InsertResult::Replaced(_)) => {
            proof {
                assert(false);
            }
            vstd::pervasive::unreached()
        },
        Ok(InsertResult::Split { promoted_key, left_offset, right_offset }) => {
            proof {
                lemma_extends_trans(d0, d1, dm.image@);
            }
            let ghost d2c = dm.image@;
            let r2 = finish_resplit(
                dm,
                parent,
                wa,
                promoted_key,
                left_offset,
                right_offset,
                Ghost(d0),
                Ghost(ch),
                Ghost(lo),
                Ghost(hi),
                Ghost(k),
            );
            proof {
                lemma_extends_trans(d1, d2c, dm.image@);
            }
            r2
        },
    }
}

/// Resolve a child that fell under the minimum fill: rebalance it with the
/// sibling to its left — or to its right for the leftmost child — unless it
/// has no sibling at all, in which case the condition passes to the parent.
#[verifier::loop_isolation(false)]
#[verifier::rlimit(100)]
fn delete_child_underfull(
    dm: &mut DiskManager,
    node: Node,
    ci: usize,
    new_child: u64,
    Ghost(d0): Ghost<Seq<u8>>,
    Ghost(ch): Ghost<nat>,
    Ghost(lo): Ghost<Option<Seq<u8>>>,
    Ghost(hi): Ghost<Option<Seq<u8>>>,
    Ghost(k): Ghost<Seq<u8>>,
) -> (r: Result<DeleteResult, StorageError>)
    requires
        old(dm).wf(),
        extends(d0, old(dm).image@),
        !node@.is_leaf(),
        node@.shape_ok(),
        node@.sizes_ok(old(dm).config),
        sorted_keys(node@.keys),
        node_keys_bounded(node@, lo, hi),
        children_wf(d0, old(dm).config, node@, ch, lo, hi, 0),
        ci < node@.children.len(),
        subtree_wf(
            old(dm).image@,
            old(dm).config,
            new_child,
            ch,
            child_lo(node@, lo, ci as int),
            child_hi(node@, hi, ci as int),
        ),
        subtree_entries(old(dm).image@, old(dm).config, new_child, ch) == kv_remove(
            subtree_entries(d0, old(dm).config, node@.children[ci as int], ch),
            k,
        ),
        ci == 0 || lex_le(node@.keys[ci - 1], k),
        ci == node@.keys.len() || lex_lt(k, node@.keys[ci as int]),
    ensures
        final(dm).wf(),
        final(dm).config == old(dm).config,
        extends(old(dm).image@, final(dm).image@),
        match r {
            Ok(DeleteResult::NotFound) => false,
            Ok(DeleteResult::Replaced(o2)) | Ok(DeleteResult::Underfull(o2)) => {
                &&& subtree_wf(final(dm).image@, old(dm).config, o2, (ch + 1) as nat, lo, hi)
                &&& subtree_entries(final(dm).image@, old(dm).config, o2, (ch + 1) as nat)
                    == kv_remove(children_entries(d0, old(dm).config, node@, ch, 0), k)
            },
            Err(e) => e == StorageError::PageOverflow,
        },
        r matches Ok(DeleteResult::Replaced(o2)) ==> node_at(
            final(dm).image@,
            old(dm).config,
            o2,
        ).encoded_size() >= old(dm).config.min_node_size,
        r matches Ok(DeleteResult::Underfull(o2)) ==> node_at(
            final(dm).image@,
            old(dm).config,
            o2,
        ).encoded_size() < old(dm).config.min_node_size,
{
    let ghost d1 = dm.image@;
    let ghost cfg = dm.config;
    let ghost nd1 = node@;
    if node.children.len() == 1 {
        // No sibling to rebalance with: rewrite the slot and let the
        // underfull condition bubble up — at the root it is no condition.
        return delete_child_replaced(
            dm,
            node,
            ci,
            new_child,
            Ghost(d0),
            Ghost(ch),
            Ghost(lo),
            Ghost(hi),
            Ghost(k),
        );
    }
    if ci > 0 {
        let wa = ci - 1;
        let aoff = node.children[wa];
        proof {
            lemma_extends_pointwise(d0, d1);
            lemma_children_wf_index(d0, cfg, nd1, ch, lo, hi, 0, wa as int);
            lemma_subtree_frame(
                d0,
                d1,
                cfg,
                nd1.children[wa as int],
                ch,
                child_lo(nd1, lo, wa as int),
                child_hi(nd1, hi, wa as int),
            );
            assert(child_hi(nd1, hi, wa as int) == Some(nd1.keys[wa as int]));
            assert(child_lo(nd1, lo, ci as int) == Some(nd1.keys[wa as int]));
            // The left sibling's keys all sort before `k`, so removal lands
            // entirely in the right half of the window.
            let ea0 = subtree_entries(d0, cfg, nd1.children[wa as int], ch);
            lemma_entries_below(
                d0,
                cfg,
                nd1.children[wa as int],
                ch,
                child_lo(nd1, lo, wa as int),
                nd1.keys[wa as int],
                k,
            );
            assert forall|j: int| 0 <= j < ea0.len() implies ea0[j].0 != k by {
                lemma_lex_trichotomy(ea0[j].0, k);
            }
            lemma_kv_remove_concat_right(
                ea0,
                subtree_entries(d0, cfg, nd1.children[ci as int], ch),
                k,
            );
            assert(wa == 0 || lex_le(nd1.keys[wa - 1], k)) by {
                if wa > 0 {
                    if nd1.keys[wa as int] == k {
                        assert(lex_lt(nd1.keys[wa - 1], k));
                    } else {
                        lemma_lex_trans(nd1.keys[wa - 1], nd1.keys[wa as int], k);
                    }
                }
            }
        }
        let r2 = rebalance_window(
            dm,
            node,
            wa,
            aoff,
            new_child,
            Ghost(d0),
            Ghost(ch),
            Ghost(lo),
            Ghost(hi),
            Ghost(k),
        );
        r2
    } else {
        let boff = node.children[1];
        proof {
            lemma_extends_pointwise(d0, d1);
            lemma_children_wf_index(d0, cfg, nd1, ch, lo, hi, 0, 1);
            lemma_subtree_frame(
                d0,
                d1,
                cfg,
                nd1.children[1],
                ch,
                child_lo(nd1, lo, 1),
                child_hi(nd1, hi, 1),
            );
            assert(child_lo(nd1, lo, 1) == Some(nd1.keys[0]));
            assert(child_hi(nd1, hi, 0) == Some(nd1.keys[0]));
            assert(lex_lt(k, nd1.keys[0]));
            // The right sibling's keys all sort after `k`, so removal lands
            // entirely in the left half of the window.
            let eb0 = subtree_entries(d0, cfg, nd1.children[1], ch);
            lemma_subtree_entries_props(
                d0,
                cfg,
                nd1.children[1],
                ch,
                child_lo(nd1, lo, 1),
                child_hi(nd1, hi, 1),
            );
            assert forall|j: int| 0 <= j < eb0.len() implies eb0[j].0 != k by {
                assert(above_lo(Some(nd1.keys[0]), eb0[j].0));
                if nd1.keys[0] == eb0[j].0 {
                } else {
                    lemma_lex_trans(k, nd1.keys[0], eb0[j].0);
                }
                lemma_lex_trichotomy(k, eb0[j].0);
            }
            lemma_kv_remove_concat_left(
                subtree_entries(d0, cfg, nd1.children[0], ch),
                eb0,
                k,
            );
            assert(1 == nd1.keys.len() || lex_lt(k, nd1.keys[1])) by {
                if 1 < nd1.keys.len() {
                    lemma_lex_trans(k, nd1.keys[0], nd1.keys[1]);
                }
            }
        }
        let r2 = rebalance_window(
            dm,
            node,
            0,
            new_child,
            boff,
            Ghost(d0),
            Ghost(ch),
            Ghost(lo),
            Ghost(hi),
            Ghost(k),
        );
        r2
    }
}

/// One level of the copy-on-write delete: a missing key changes nothing at
/// any level; a found key's pair is removed from its leaf and the path back
/// to the root is rewritten page by page.
#[verifier::loop_isolation(false)]
#[verifier::rlimit(100)]
fn delete_recursive(
    dm: &mut DiskManager,
    off: u64,
    Ghost(h): Ghost<nat>,
    Ghost(lo): Ghost<Option<Seq<u8>>>,
    Ghost(hi): Ghost<Option<Seq<u8>>>,
    key: &Vec<u8>,
) -> (r: Result<DeleteResult, StorageError>)
    requires
        old(dm).wf(),
        subtree_wf(old(dm).image@, old(dm).config, off, h, lo, hi),
        in_bounds(lo, hi, key@),
    ensures
        final(dm).wf(),
        final(dm).config == old(dm).config,
        extends(old(dm).image@, final(dm).image@),
        match r {
            Ok(DeleteResult::NotFound) => {
                &&& *final(dm) == *old(dm)
                &&& !has_key(subtree_entries(old(dm).image@, old(dm).config, off, h), key@)
            },
            Ok(DeleteResult::Replaced(o2)) | Ok(DeleteResult::Underfull(o2)) => {
                &&& subtree_wf(final(dm).image@, old(dm).config, o2, h, lo, hi)
                &&& subtree_entries(final(dm).image@, old(dm).config, o2, h) == kv_remove(
                    subtree_entries(old(dm).image@, old(dm).config, off, h),
                    key@,
                )
                &&& has_key(subtree_entries(old(dm).image@, old(dm).config, off, h), key@)
            },
            Err(e) => e == StorageError::PageOverflow,
        },
        !has_key(subtree_entries(old(dm).image@, old(dm).config, off, h), key@) ==> r == Ok::<
            DeleteResult,
            StorageError,
        >(DeleteResult::NotFound),
        r matches Ok(DeleteResult::Replaced(o2)) ==> node_at(
            final(dm).image@,
            old(dm).config,
            o2,
        ).encoded_size() >= old(dm).config.min_node_size,
        r matches Ok(DeleteResult::Underfull(o2)) ==> node_at(
            final(dm).image@,
            old(dm).config,
            o2,
        ).encoded_size() < old(dm).config.min_node_size,
        h == 0 ==> !(r is Err),
        path_filled(old(dm).image@, old(dm).config, off, h, key@) && leaf_removed(
            target_leaf(old(dm).image@, old(dm).config, off, h, key@),
            key@,
        ).encoded_size() >= old(dm).config.min_node_size ==> !(r is Err) && !(r matches Ok(
            DeleteResult::Underfull(_),
        )),
    decreases h,
{
    let ghost d0 = dm.image@;
    let ghost cfg = dm.config;
    let node = match dm.load_node_from_disk(off) {
        Ok(n) => n,
        Err(_) => {
            proof {
                assert(false);
            }
            vstd::pervasive::unreached()
        },
    };
    let ghost nd1 = node@;
    if node.children.is_empty() {
        proof {
            assert(h == 0);
            assert(target_leaf(d0, cfg, off, h, key@) == nd1);
        }
        let ghost es0 = subtree_entries(d0, cfg, off, 0);
        proof {
            assert(forall|j: int|
                0 <= j < es0.len() ==> #[trigger] es0[j] == (nd1.keys[j], nd1.values[j]));
        }
        match find_key(&node.keys, key) {
            Err(_) => {
                proof {
                    assert forall|j: int| 0 <= j < es0.len() implies es0[j].0 != key@ by {
                        lemma_lex_trichotomy(nd1.keys[j], key@);
                    }
                    lemma_kv_lookup_none(es0, key@);
                    lemma_extends_refl(d0);
                }
                Ok(DeleteResult::NotFound)
            },
            Ok(pos) => {
                proof {
                    assert forall|j: int| 0 <= j < pos implies es0[j].0 != key@ by {
                        assert(lex_lt(nd1.keys[j], nd1.keys[pos as int]));
                        lemma_lex_trichotomy(nd1.keys[j], key@);
                    }
                    crate::entries::lemma_kv_lookup_hit(es0, key@, pos as int);
                }
                delete_from_leaf(dm, node, pos, Ghost(lo), Ghost(hi), Ghost(key@))
            },
        }
    } else {
        proof {
            assert(h > 0);
        }
        let ghost ch = (h - 1) as nat;
        let ci = match find_key(&node.keys, key) {
            Ok(i) => i + 1,
            Err(i) => i,
        };
        proof {
            assert(ci <= nd1.keys.len());
            assert(ci < nd1.children.len());
            lemma_children_wf_index(d0, cfg, nd1, ch, lo, hi, 0, ci as int);
            assert(in_bounds(child_lo(nd1, lo, ci as int), child_hi(nd1, hi, ci as int), key@));
            lemma_children_lookup(d0, cfg, nd1, ch, lo, hi, 0, ci as int, key@);
            lemma_route_idx(nd1.keys, key@, ci as int);
            assert(target_leaf(d0, cfg, off, h, key@) == target_leaf(
                d0,
                cfg,
                nd1.children[ci as int],
                ch,
                key@,
            ));
        }
        let child_off = node.children[ci];
        let res = delete_recursive(
            dm,
            child_off,
            Ghost(ch),
            Ghost(child_lo(nd1, lo, ci as int)),
            Ghost(child_hi(nd1, hi, ci as int)),
            key,
        );
        let ghost d1 = dm.image@;
        match res {
            Err(e) => Err(e),
            Ok(DeleteResult::NotFound) => {
                proof {
                    assert(!has_key(subtree_entries(d0, cfg, off, h), key@));
                }
                Ok(DeleteResult::NotFound)
            },
            Ok(DeleteResult::Replaced(new_child)) => {
                let r2 = delete_child_replaced(
                    dm,
                    node,
                    ci,
                    new_child,
                    Ghost(d0),
                    Ghost(ch),
                    Ghost(lo),
                    Ghost(hi),
                    Ghost(key@),
                );
                proof {
                    lemma_extends_trans(d0, d1, dm.image@);
                    assert(subtree_entries(d0, cfg, off, h) == children_entries(
                        d0,
                        cfg,
                        nd1,
                        ch,
                        0,
                    ));
                }
                r2
            },
            Ok(DeleteResult::Underfull(new_child)) => {
                let r2 = delete_child_underfull(
                    dm,
                    node,
                    ci,
                    new_child,
                    Ghost(d0),
                    Ghost(ch),
                    Ghost(lo),
                    Ghost(hi),
                    Ghost(key@),
                );
                proof {
                    lemma_extends_trans(d0, d1, dm.image@);
                    assert(subtree_entries(d0, cfg, off, h) == children_entries(
                        d0,
                        cfg,
                        nd1,
                        ch,
                        0,
                    ));
                }
                r2
            },
        }
    }
}

/// A sequence of child indices leading down from a node: each index picks a
/// child of the node it has reached.
pub open spec fn path_ok(d: Seq<u8>, cfg: StorageConfig, off: u64, path: Seq<int>) -> bool
    decreases path.len(),
{
    path.len() == 0 || {
        &&& 0 <= path[0] < node_at(d, cfg, off).children.len()
        &&& path_ok(d, cfg, node_at(d, cfg, off).children[path[0]], path.drop_first())
    }
}

/// The page offset reached by following `path` down from `off`.
pub open spec fn node_on_path(d: Seq<u8>, cfg: StorageConfig, off: u64, path: Seq<int>) -> u64
    decreases path.len(),
{
    if path.len() == 0 {
        off
    } else {
        node_on_path(d, cfg, node_at(d, cfg, off).children[path[0]], path.drop_first())
    }
}

/// Balance: in a well-formed subtree of height `h`, every descent reaches a
/// leaf at depth `h` exactly — all leaves sit at the same depth.
pub proof fn lemma_leaves_at_same_depth(
    d: Seq<u8>,
    cfg: StorageConfig,
    off: u64,
    h: nat,
    lo: Option<Seq<u8>>,
    hi: Option<Seq<u8>>,
    path: Seq<int>,
)
    requires
        subtree_wf(d, cfg, off, h, lo, hi),
        path_ok(d, cfg, off, path),
    ensures
        node_at(d, cfg, node_on_path(d, cfg, off, path)).is_leaf() <==> path.len() == h,
    decreases path.len(),
{
    if path.len() > 0 {
        let nd = node_at(d, cfg, off);
        assert(h > 0);
        lemma_children_wf_index(d, cfg, nd, (h - 1) as nat, lo, hi, 0, path[0]);
        lemma_leaves_at_same_depth(
            d,
            cfg,
            nd.children[path[0]],
            (h - 1) as nat,
            child_lo(nd, lo, path[0]),
            child_hi(nd, hi, path[0]),
            path.drop_first(),
        );
    }
}

/// Separator discipline: inside a well-formed tree, everything stored under
/// child `ci` of an internal node sits at or above the separator to the
/// child's left and strictly below the separator to its right.
pub proof fn lemma_separator_discipline(
    d: Seq<u8>,
    cfg: StorageConfig,
    off: u64,
    h: nat,
    lo: Option<Seq<u8>>,
    hi: Option<Seq<u8>>,
    ci: int,
)
    requires
        subtree_wf(d, cfg, off, h, lo, hi),
        h > 0,
        0 <= ci < node_at(d, cfg, off).children.len(),
    ensures
        forall|i: int|
            0 <= i < subtree_entries(d, cfg, node_at(d, cfg, off).children[ci], (h - 1) as nat).len()
                ==> {
                let e = #[trigger] subtree_entries(
                    d,
                    cfg,
                    node_at(d, cfg, off).children[ci],
                    (h - 1) as nat,
                )[i];
                &&& (ci == 0 || lex_le(node_at(d, cfg, off).keys[ci - 1], e.0))
                &&& (ci == node_at(d, cfg, off).keys.len() || lex_lt(
                    e.0,
                    node_at(d, cfg, off).keys[ci],
                ))
            },
{
    let nd = node_at(d, cfg, off);
    lemma_children_wf_index(d, cfg, nd, (h - 1) as nat, lo, hi, 0, ci);
    lemma_subtree_entries_props(
        d,
        cfg,
        nd.children[ci],
        (h - 1) as nat,
        child_lo(nd, lo, ci),
        child_hi(nd, hi, ci),
    );
}

/// Sortedness: an in-order traversal of a well-formed store yields keys in
/// strictly ascending lexicographic order.
pub proof fn lemma_store_sorted(bt: BTree)
    requires
        bt.wf(),
    ensures
        sorted_entries(bt.entries()),
{
    lemma_subtree_entries_props(
        bt.disk_manager.image@,
        bt.storage_config,
        bt.root_offset,
        bt.height@,
        None,
        None,
    );
}

/// Durability: the image a well-formed store holds is itself a well-formed
/// database committing to exactly the store's contents, so a store reopened
/// over it returns the same value for every key.
pub proof fn lemma_reopen_same_contents(bt: BTree)
    requires
        bt.wf(),
    ensures
        image_wf(bt.disk_manager.image@, bt.storage_config),
        image_entries(bt.disk_manager.image@, bt.storage_config) == bt.entries(),
{
    let d = bt.disk_manager.image@;
    let cfg = bt.storage_config;
    assert(subtree_wf(d, cfg, (le64(d, 0) as u64), bt.height@, None, None));
    let h2 = image_height(d, cfg);
    assert(subtree_wf(d, cfg, (le64(d, 0) as u64), h2, None, None));
    lemma_height_unique(d, cfg, bt.root_offset, bt.height@, None, None, h2, None, None);
}

impl BTree {
    /// Delete a key.  A key that is not present changes nothing at all; a
    /// present key's pair is removed and the rewritten path is committed by
    /// the metadata write.  An internal root left with a single child is
    /// collapsed: that child becomes the root.
    #[verifier::loop_isolation(false)]
    #[verifier::rlimit(100)]
    pub fn delete(&mut self, key: Vec<u8>) -> (r: Result<(), StorageError>)
        requires
            old(self).wf(),
        ensures
            final(self).wf(),
            final(self).storage_config == old(self).storage_config,
            match r {
                Ok(_) => final(self).entries() == kv_remove(old(self).entries(), key@),
                Err(e) => {
                    &&& final(self).entries() == old(self).entries()
                    &&& final(self).root_offset == old(self).root_offset
                    &&& e == StorageError::PageOverflow
                },
            },
            !has_key(old(self).entries(), key@) ==> r == Ok::<(), StorageError>(()) && *final(self)
                == *old(self),
            old(self).height@ == 0 ==> r is Ok,
            path_filled(
                old(self).disk_manager.image@,
                old(self).storage_config,
                old(self).root_offset,
                old(self).height@,
                key@,
            ) && leaf_removed(
                target_leaf(
                    old(self).disk_manager.image@,
                    old(self).storage_config,
                    old(self).root_offset,
                    old(self).height@,
                    key@,
                ),
                key@,
            ).encoded_size() >= old(self).storage_config.min_node_size ==> r is Ok,
            final(self).height@ == old(self).height@ || final(self).height@ + 1 == old(
                self,
            ).height@,
            r is Err ==> final(self).height@ == old(self).height@,
    {
        let cfg = self.storage_config;
        let ghost d0 = self.disk_manager.image@;
        let ghost h = self.height@;
        let ghost old_root = self.root_offset;
        let res = delete_recursive(
            &mut self.disk_manager,
            self.root_offset,
            Ghost(h),
            Ghost(None),
            Ghost(None),
            &key,
        );
        let o2 = match res {
            Err(e) => {
                proof {
                    let d2 = self.disk_manager.image@;
                    lemma_extends_pointwise(d0, d2);
                    lemma_subtree_frame(d0, d2, cfg, old_root, h, None, None);
                    crate::bytes::lemma_le64_frame(d0, d2, 0);
                    assert(page_at(d2, old_root as int, cfg.page_size as int) =~= page_at(
                        d0,
                        old_root as int,
                        cfg.page_size as int,
                    ));
                }
                return Err(e);
            },
            Ok(DeleteResult::NotFound) => {
                proof {
                    let es = subtree_entries(d0, cfg, old_root, h);
                    lemma_kv_lookup_exists(es, key@);
                    assert forall|j: int| 0 <= j < es.len() implies es[j].0 != key@ by {
                        if es[j].0 == key@ {
                            assert(exists|t: int| 0 <= t < es.len() && es[t].0 == key@);
                        }
                    }
                    lemma_kv_remove_miss(es, key@);
                }
                return Ok(());
            },
            Ok(DeleteResult::Replaced(o)) => o,
            Ok(DeleteResult::Underfull(o)) => o,
        };
        let ghost d1 = self.disk_manager.image@;
        let node = match self.disk_manager.load_node_from_disk(o2) {
            Ok(n) => n,
            Err(_) => {
                proof {
                    assert(false);
                }
                vstd::pervasive::unreached()
            },
        };
        let ghost nd = node@;
        if !node.children.is_empty() && node.keys.len() == 0 {
            // Root collapse: the root kept a single child and no separator.
            let child = node.children[0];
            proof {
                assert(h > 0);
                let ch = (h - 1) as nat;
                lemma_children_wf_index(d1, cfg, nd, ch, None, None, 0, 0);
                assert(child_lo(nd, None, 0) == None::<Seq<u8>>);
                assert(child_hi(nd, None, 0) == None::<Seq<u8>>);
                assert(nd.children.len() == 1);
                assert(children_entries(d1, cfg, nd, ch, 1) =~= Seq::<(Seq<u8>, Seq<u8>)>::empty());
                assert(subtree_entries(d1, cfg, o2, h) =~= subtree_entries(d1, cfg, child, ch));
            }
            self.root_offset = child;
            self.disk_manager.write_metadata(child);
            self.height = Ghost((h - 1) as nat);
            proof {
                let d2 = self.disk_manager.image@;
                lemma_subtree_frame(d1, d2, cfg, child, (h - 1) as nat, None, None);
            }
        } else {
            self.root_offset = o2;
            self.disk_manager.write_metadata(o2);
            proof {
                let d2 = self.disk_manager.image@;
                lemma_subtree_frame(d1, d2, cfg, o2, h, None, None);
            }
        }
        let root = match self.disk_manager.load_node_from_disk(self.root_offset) {
            Ok(n) => n,
            Err(_) => {
                proof {
                    assert(false);
                }
                vstd::pervasive::unreached()
            },
        };
        self.root = root;
        Ok(())
    }
}

} // verus!
