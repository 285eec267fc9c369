//! The page codec: a node's in-memory form, its byte layout in one
//! fixed-size page, and the verified encode and decode with an exact
//! round-trip contract.

use vstd::prelude::*;

use crate::bytes::{
    get_bytes, get_u16, get_u64, le16, le64, lemma_le16_frame, lemma_le64_frame,
    lemma_subrange_frame, put_bytes, put_u16, put_u64,
};
use crate::configs::StorageConfig;
use crate::errors::StorageError;
use crate::keys::views_of;

verus! {

/// On-disk tag of an internal page.
pub const BNODE_INTERNAL: u8 = 0;

/// On-disk tag of a leaf page.
pub const BNODE_LEAF: u8 = 1;

/// The logical contents of one page: a leaf or internal B+ tree node.  A leaf
/// carries one value per key and no children; an internal node carries one
/// child page offset per key plus one, and no values.
#[derive(Clone, PartialEq, Debug)]
pub struct Node {
    pub keys: Vec<Vec<u8>>,
    pub children: Vec<u64>,
    pub values: Vec<Vec<u8>>,
}

/// The mathematical contents of a node.
#[verifier::ext_equal]
pub ghost struct NodeView {
    pub keys: Seq<Seq<u8>>,
    pub children: Seq<u64>,
    pub values: Seq<Seq<u8>>,
}

impl View for Node {
    type V = NodeView;

    open spec fn view(&self) -> NodeView {
        NodeView {
            keys: views_of(self.keys@),
            children: self.children@,
            values: views_of(self.values@),
        }
    }
}

impl NodeView {
    /// A node with no children is a leaf.
    pub open spec fn is_leaf(self) -> bool {
        self.children.len() == 0
    }

    /// A leaf has one value per key; an internal node has one child per key
    /// plus one, and no values.
    pub open spec fn shape_ok(self) -> bool {
        if self.is_leaf() {
            self.values.len() == self.keys.len()
        } else {
            self.children.len() == self.keys.len() + 1 && self.values.len() == 0
        }
    }

    /// Encoded size of slot `i`: two length fields, the key bytes and, in a
    /// leaf, the value bytes.
    pub open spec fn slot_size(self, i: int) -> int {
        4 + self.keys[i].len() + if self.is_leaf() {
            self.values[i].len() as int
        } else {
            0
        }
    }

    /// Total encoded size of the slots before slot `i`.
    pub open spec fn slots_size(self, i: int) -> int
        decreases i,
    {
        if i <= 0 {
            0
        } else {
            self.slots_size(i - 1) + self.slot_size(i - 1)
        }
    }

    /// Where the per-key offset table starts: after the one-byte tag, the
    /// two-byte key count and, in an internal node, the child pointers.
    pub open spec fn offsets_start(self) -> int {
        3 + if self.is_leaf() {
            0int
        } else {
            8 * self.children.len() as int
        }
    }

    /// Where slot `i` starts within the page.
    pub open spec fn slot_start(self, i: int) -> int {
        self.offsets_start() + 2 * self.keys.len() + self.slots_size(i)
    }

    /// Encoded size of the whole node.
    pub open spec fn encoded_size(self) -> int {
        self.slot_start(self.keys.len() as int)
    }

    /// The node's encoding fits in one page of `page_size` bytes.
    pub open spec fn fits(self, page_size: int) -> bool {
        self.encoded_size() <= page_size
    }

    /// Every key and value is within the configured size limits.
    pub open spec fn sizes_ok(self, cfg: StorageConfig) -> bool {
        &&& forall|i: int|
            0 <= i < self.keys.len() ==> #[trigger] self.keys[i].len() <= cfg.max_key_size
        &&& forall|i: int|
            0 <= i < self.values.len() ==> #[trigger] self.values[i].len() <= cfg.max_val_size
    }
}

pub proof fn lemma_slots_size_nonneg(nv: NodeView, i: int)
    ensures
        nv.slots_size(i) >= 0,
    decreases i,
{
    if i > 0 {
        lemma_slots_size_nonneg(nv, i - 1);
    }
}

pub proof fn lemma_slots_size_mono(nv: NodeView, i: int, j: int)
    requires
        i <= j,
    ensures
        nv.slots_size(i) <= nv.slots_size(j),
    decreases j - i,
{
    if i < j {
        lemma_slots_size_mono(nv, i, j - 1);
    }
}

/// Taking one pair out of a leaf only shrinks its encoding.
pub proof fn lemma_leaf_remove_size(nd: NodeView, nd2: NodeView, pos: int)
    requires
        nd.is_leaf(),
        nd2.is_leaf(),
        nd.shape_ok(),
        0 <= pos < nd.keys.len(),
        nd2.keys == nd.keys.remove(pos),
        nd2.values == nd.values.remove(pos),
    ensures
        nd2.encoded_size() <= nd.encoded_size(),
{
    let n = nd.keys.len() as int;
    lemma_leaf_remove_slots(nd, nd2, pos, n - 1);
}

proof fn lemma_leaf_remove_slots(nd: NodeView, nd2: NodeView, pos: int, i: int)
    requires
        nd.is_leaf(),
        nd2.is_leaf(),
        nd.shape_ok(),
        0 <= pos < nd.keys.len(),
        nd2.keys == nd.keys.remove(pos),
        nd2.values == nd.values.remove(pos),
        0 <= i <= nd.keys.len() - 1,
    ensures
        i <= pos ==> nd2.slots_size(i) == nd.slots_size(i),
        i > pos ==> nd2.slots_size(i) == nd.slots_size(i + 1) - nd.slot_size(pos),
    decreases i,
{
    if i > 0 {
        lemma_leaf_remove_slots(nd, nd2, pos, i - 1);
        if i - 1 < pos {
            assert(nd2.keys[i - 1] == nd.keys[i - 1]);
            assert(nd2.values[i - 1] == nd.values[i - 1]);
            assert(nd2.slot_size(i - 1) == nd.slot_size(i - 1));
        } else if i - 1 == pos {
            assert(nd2.keys[pos] == nd.keys[pos + 1]);
            assert(nd2.values[pos] == nd.values[pos + 1]);
            assert(nd2.slot_size(pos) == nd.slot_size(pos + 1));
            assert(nd.slots_size(i + 1) == nd.slots_size(i) + nd.slot_size(i));
            assert(nd.slots_size(i) == nd.slots_size(pos) + nd.slot_size(pos));
        } else {
            assert(nd2.keys[i - 1] == nd.keys[i]);
            assert(nd2.values[i - 1] == nd.values[i]);
            assert(nd2.slot_size(i - 1) == nd.slot_size(i));
            assert(nd.slots_size(i + 1) == nd.slots_size(i) + nd.slot_size(i));
        }
    }
}

/// Inserting one separator and one child pointer into an internal node grows
/// its encoding by exactly the pointer, the offset-table entry and the new
/// key's slot: fourteen bytes plus the key.
pub proof fn lemma_internal_grow_size(nd: NodeView, nd2: NodeView, ci: int, p: Seq<u8>)
    requires
        !nd.is_leaf(),
        !nd2.is_leaf(),
        0 <= ci <= nd.keys.len(),
        nd2.keys == nd.keys.insert(ci, p),
        nd2.children.len() == nd.children.len() + 1,
    ensures
        nd2.encoded_size() == nd.encoded_size() + 14 + p.len(),
{
    let n = nd.keys.len() as int;
    lemma_internal_grow_slots(nd, nd2, ci, p, n + 1);
}

proof fn lemma_internal_grow_slots(nd: NodeView, nd2: NodeView, ci: int, p: Seq<u8>, i: int)
    requires
        !nd.is_leaf(),
        !nd2.is_leaf(),
        0 <= ci <= nd.keys.len(),
        nd2.keys == nd.keys.insert(ci, p),
        0 <= i <= nd.keys.len() + 1,
    ensures
        i <= ci ==> nd2.slots_size(i) == nd.slots_size(i),
        i > ci ==> nd2.slots_size(i) == nd.slots_size(i - 1) + 4 + p.len(),
    decreases i,
{
    if i > 0 {
        lemma_internal_grow_slots(nd, nd2, ci, p, i - 1);
        if i - 1 < ci {
            assert(nd2.keys[i - 1] == nd.keys[i - 1]);
            assert(nd2.slot_size(i - 1) == nd.slot_size(i - 1));
        } else if i - 1 == ci {
            assert(nd2.keys[ci] == p);
            assert(nd2.slot_size(ci) == 4 + p.len());
        } else {
            assert(nd2.keys[i - 1] == nd.keys[i - 2]);
            assert(nd2.slot_size(i - 1) == nd.slot_size(i - 2));
            assert(nd.slots_size(i - 1) == nd.slots_size(i - 2) + nd.slot_size(i - 2));
        }
    }
}

/// Whether the page encodes a leaf.
pub open spec fn page_is_leaf(b: Seq<u8>) -> bool {
    b[0] == BNODE_LEAF
}

/// The key count held in the page header.
pub open spec fn page_nkeys(b: Seq<u8>) -> int {
    le16(b, 1)
}

/// Where the page's per-key offset table starts.
pub open spec fn page_offsets_start(b: Seq<u8>) -> int {
    3 + if page_is_leaf(b) {
        0
    } else {
        8 * (page_nkeys(b) + 1)
    }
}

/// The child offset held at index `i` of an internal page.
pub open spec fn page_child(b: Seq<u8>, i: int) -> u64 {
    le64(b, 3 + 8 * i) as u64
}

/// Where slot `i` sits, as recorded in the page's offset table.
pub open spec fn page_slot_pos(b: Seq<u8>, i: int) -> int {
    le16(b, page_offsets_start(b) + 2 * i)
}

/// The key bytes of slot `i`.
pub open spec fn page_key(b: Seq<u8>, i: int) -> Seq<u8> {
    let p = page_slot_pos(b, i);
    b.subrange(p + 4, p + 4 + le16(b, p))
}

/// The value bytes of slot `i`.
pub open spec fn page_val(b: Seq<u8>, i: int) -> Seq<u8> {
    let p = page_slot_pos(b, i);
    b.subrange(p + 4 + le16(b, p), p + 4 + le16(b, p) + le16(b, p + 2))
}

/// Slot `i`'s recorded position and lengths stay inside the page.
pub open spec fn page_slot_ok(b: Seq<u8>, i: int) -> bool {
    let p = page_slot_pos(b, i);
    &&& p + 4 <= b.len()
    &&& p + 4 + le16(b, p) + le16(b, p + 2) <= b.len()
}

/// A page whose header, offset table and slots are all consistent with its
/// size, so that decoding reads no byte outside the page.
pub open spec fn page_valid(b: Seq<u8>) -> bool {
    &&& b.len() >= 3
    &&& (b[0] == BNODE_LEAF || b[0] == BNODE_INTERNAL)
    &&& page_offsets_start(b) + 2 * page_nkeys(b) <= b.len()
    &&& forall|i: int| 0 <= i < page_nkeys(b) ==> #[trigger] page_slot_ok(b, i)
}

/// Slot `j` of node `nv`, its offset-table entry included, stands fully
/// written in `b` at its computed position.
pub open spec fn slot_written(nv: NodeView, b: Seq<u8>, j: int) -> bool {
    let p = nv.slot_start(j);
    let klen = nv.keys[j].len() as int;
    let vlen = if nv.is_leaf() {
        nv.values[j].len() as int
    } else {
        0
    };
    &&& le16(b, nv.offsets_start() + 2 * j) == p
    &&& le16(b, p) == klen
    &&& le16(b, p + 2) == vlen
    &&& b.subrange(p + 4, p + 4 + klen) == nv.keys[j]
    &&& (nv.is_leaf() ==> b.subrange(p + 4 + klen, p + 4 + klen + vlen) == nv.values[j])
}

/// The node a valid page holds.
pub open spec fn decode_spec(b: Seq<u8>) -> NodeView {
    NodeView {
        keys: Seq::new(page_nkeys(b) as nat, |i: int| page_key(b, i)),
        children: if page_is_leaf(b) {
            Seq::empty()
        } else {
            Seq::new((page_nkeys(b) + 1) as nat, |i: int| page_child(b, i))
        },
        values: if page_is_leaf(b) {
            Seq::new(page_nkeys(b) as nat, |i: int| page_val(b, i))
        } else {
            Seq::empty()
        },
    }
}

/// A page whose header, child pointers and slots have all been written from
/// `nv` is valid and decodes back to `nv`.
proof fn lemma_slots_imply_page(nv: NodeView, b: Seq<u8>)
    requires
        nv.shape_ok(),
        b.len() >= 3,
        nv.encoded_size() <= b.len(),
        b[0] == (if nv.is_leaf() {
            BNODE_LEAF
        } else {
            BNODE_INTERNAL
        }),
        le16(b, 1) == nv.keys.len(),
        !nv.is_leaf() ==> forall|j: int|
            0 <= j < nv.children.len() ==> le64(b, 3 + 8 * j) == nv.children[j],
        forall|j: int| 0 <= j < nv.keys.len() ==> #[trigger] slot_written(nv, b, j),
    ensures
        page_valid(b),
        decode_spec(b) == nv,
{
    let n = nv.keys.len() as int;
    lemma_slots_size_nonneg(nv, n);
    assert(page_nkeys(b) == n);
    assert(page_is_leaf(b) == nv.is_leaf());
    assert(page_offsets_start(b) == nv.offsets_start());
    assert forall|j: int| 0 <= j < n implies #[trigger] page_slot_ok(b, j) by {
        assert(slot_written(nv, b, j));
        lemma_slots_size_nonneg(nv, j);
        lemma_slots_size_mono(nv, j + 1, n);
        assert(page_slot_pos(b, j) == nv.slot_start(j));
    }
    assert(page_valid(b));
    assert forall|j: int| 0 <= j < n implies page_key(b, j) == nv.keys[j] && page_val(b, j) == (
    if nv.is_leaf() {
        nv.values[j]
    } else {
        Seq::<u8>::empty()
    }) by {
        assert(slot_written(nv, b, j));
        lemma_slots_size_nonneg(nv, j);
        lemma_slots_size_mono(nv, j + 1, n);
        assert(page_slot_pos(b, j) == nv.slot_start(j));
        if !nv.is_leaf() {
            assert(page_val(b, j) =~= Seq::<u8>::empty());
        }
    }
    assert(decode_spec(b).keys =~= nv.keys);
    assert(decode_spec(b).children =~= nv.children);
    assert(decode_spec(b).values =~= nv.values);
    assert(decode_spec(b) =~= nv);
}

impl Node {
    /// Try-encode a node into one fixed-size page following the on-disk
    /// layout: tag byte, key count, child offsets for internal nodes, the
    /// per-key offset table, then one slot of lengths, key bytes and value
    /// bytes per key, with the tail zero-filled.  Returns `None` — the
    /// needs-split signal — exactly when the node does not fit the page.
    #[verifier::loop_isolation(false)]
    #[verifier::rlimit(100)]
    pub fn encode_node(node: &Node, config: &StorageConfig) -> (r: Option<Vec<u8>>)
        requires
            node@.shape_ok(),
            node@.sizes_ok(*config),
            config.wf(),
        ensures
            match r {
                Some(page) => {
                    &&& node@.fits(config.page_size as int)
                    &&& page@.len() == config.page_size
                    &&& page_valid(page@)
                    &&& decode_spec(page@) == node@
                    &&& page@[0] == (if node@.is_leaf() {
                        BNODE_LEAF
                    } else {
                        BNODE_INTERNAL
                    })
                    &&& le16(page@, 1) == node@.keys.len()
                    &&& forall|j: int|
                        0 <= j < node@.children.len() ==> le64(page@, 3 + 8 * j)
                            == #[trigger] node@.children[j]
                    &&& forall|j: int|
                        0 <= j < node@.keys.len() ==> #[trigger] slot_written(node@, page@, j)
                    &&& forall|k: int|
                        node@.encoded_size() <= k < page@.len() ==> #[trigger] page@[k] == 0
                },
                None => !node@.fits(config.page_size as int),
            },
    {
        let ghost nv = node@;
        let n = node.keys.len();
        let ps = config.page_size as usize;
        let is_leaf = node.children.is_empty();

        if n > ps {
            proof {
                lemma_slots_size_nonneg(nv, n as int);
            }
            return None;
        }
        let header: usize = if is_leaf {
            3
        } else {
            3 + 8 * (n + 1)
        };
        proof {
            assert(header == nv.offsets_start());
        }
        let base = header + 2 * n;
        if base > ps {
            proof {
                lemma_slots_size_nonneg(nv, n as int);
            }
            return None;
        }

        // First pass: the exact encoded size, bailing out as soon as the
        // cursor would pass the end of the page.
        let mut cursor = base;
        let mut i: usize = 0;
        while i < n
            invariant
                0 <= i <= n,
                cursor == nv.slot_start(i as int),
                cursor <= ps,
            decreases n - i,
        {
            proof {
                assert(nv.keys[i as int].len() <= config.max_key_size);
                if is_leaf {
                    assert(nv.values[i as int].len() <= config.max_val_size);
                }
            }
            let klen = node.keys[i].len();
            let vlen = if is_leaf {
                node.values[i].len()
            } else {
                0
            };
            let slot = 4 + klen + vlen;
            if ps - cursor < slot {
                proof {
                    lemma_slots_size_mono(nv, i as int + 1, n as int);
                }
                return None;
            }
            cursor = cursor + slot;
            i = i + 1;
        }
        proof {
            assert(cursor == nv.encoded_size());
        }

        // Second pass: fill the page.
        let mut buf: Vec<u8> = vec![0u8; ps];
        let tag = if is_leaf {
            BNODE_LEAF
        } else {
            BNODE_INTERNAL
        };
        buf[0] = tag;
        put_u16(&mut buf, 1, n as u16);

        if !is_leaf {
            let mut i: usize = 0;
            while i < n + 1
                invariant
                    0 <= i <= n + 1,
                    buf.len() == ps,
                    buf@[0] == tag,
                    le16(buf@, 1) == n,
                    forall|j: int| 0 <= j < i ==> le64(buf@, 3 + 8 * j) == node.children@[j],
                    forall|k: int| base <= k < ps ==> buf@[k] == 0,
                decreases n + 1 - i,
            {
                let ghost prev = buf@;
                put_u64(&mut buf, 3 + 8 * i, node.children[i]);
                proof {
                    lemma_le16_frame(prev, buf@, 1);
                    assert forall|j: int| 0 <= j < i implies le64(buf@, 3 + 8 * j)
                        == node.children@[j] by {
                        lemma_le64_frame(prev, buf@, 3 + 8 * j);
                    }
                }
                i = i + 1;
            }
        }

        let mut cursor = base;
        let mut i: usize = 0;
        while i < n
            invariant
                0 <= i <= n,
                buf.len() == ps,
                cursor == nv.slot_start(i as int),
                buf@[0] == tag,
                le16(buf@, 1) == n,
                !is_leaf ==> forall|j: int|
                    0 <= j < n + 1 ==> le64(buf@, 3 + 8 * j) == node.children@[j],
                forall|j: int| 0 <= j < i ==> slot_written(nv, buf@, j),
                forall|k: int| cursor <= k < ps ==> buf@[k] == 0,
            decreases n - i,
        {
            proof {
                lemma_slots_size_nonneg(nv, i as int);
                lemma_slots_size_mono(nv, i as int + 1, n as int);
                assert(nv.keys[i as int].len() <= config.max_key_size);
                if is_leaf {
                    assert(nv.values[i as int].len() <= config.max_val_size);
                }
            }
            let klen = node.keys[i].len();
            let vlen = if is_leaf {
                node.values[i].len()
            } else {
                0
            };
            let ghost b0 = buf@;
            put_u16(&mut buf, header + 2 * i, cursor as u16);
            let ghost b1 = buf@;
            put_u16(&mut buf, cursor, klen as u16);
            let ghost b2 = buf@;
            put_u16(&mut buf, cursor + 2, vlen as u16);
            let ghost b3 = buf@;
            put_bytes(&mut buf, cursor + 4, &node.keys[i]);
            let ghost b4 = buf@;
            if is_leaf {
                put_bytes(&mut buf, cursor + 4 + klen, &node.values[i]);
            }
            proof {
                let c = cursor as int;
                let slot = 4 + klen + vlen;
                assert(node.keys@[i as int]@ == nv.keys[i as int]);
                assert(klen == nv.keys[i as int].len());
                if is_leaf {
                    assert(node.values@[i as int]@ == nv.values[i as int]);
                    assert(vlen == nv.values[i as int].len());
                }
                // The facts written for slot `i`, carried through the later
                // writes of this iteration, which sit strictly beyond them.
                lemma_le16_frame(b1, buf@, header as int + 2 * i);
                lemma_le16_frame(b2, buf@, c);
                lemma_le16_frame(b3, buf@, c + 2);
                lemma_subrange_frame(b4, buf@, c + 4, c + 4 + klen);
                assert(slot_written(nv, buf@, i as int));
                // Every byte outside this iteration's two write regions is
                // exactly as it was when the iteration began.
                assert(forall|k: int|
                    0 <= k < buf@.len() && !(header + 2 * i <= k < header + 2 * i + 2) && !(c <= k
                        < c + slot) ==> buf@[k] == b0[k]);
                lemma_le16_frame(b0, buf@, 1);
                if !is_leaf {
                    assert forall|j: int| 0 <= j < n + 1 implies le64(buf@, 3 + 8 * j)
                        == node.children@[j] by {
                        lemma_le64_frame(b0, buf@, 3 + 8 * j);
                    }
                }
                assert forall|j: int| 0 <= j < i implies slot_written(nv, buf@, j) by {
                    assert(slot_written(nv, b0, j));
                    lemma_slots_size_nonneg(nv, j);
                    lemma_slots_size_mono(nv, j + 1, i as int);
                    lemma_le16_frame(b0, buf@, nv.offsets_start() + 2 * j);
                    lemma_le16_frame(b0, buf@, nv.slot_start(j));
                    lemma_le16_frame(b0, buf@, nv.slot_start(j) + 2);
                    let klenj = nv.keys[j].len() as int;
                    let vlenj = if nv.is_leaf() {
                        nv.values[j].len() as int
                    } else {
                        0
                    };
                    lemma_subrange_frame(
                        b0,
                        buf@,
                        nv.slot_start(j) + 4,
                        nv.slot_start(j) + 4 + klenj,
                    );
                    lemma_subrange_frame(
                        b0,
                        buf@,
                        nv.slot_start(j) + 4 + klenj,
                        nv.slot_start(j) + 4 + klenj + vlenj,
                    );
                }
            }
            cursor = cursor + 4 + klen + vlen;
            i = i + 1;
        }

        proof {
            lemma_slots_imply_page(nv, buf@);
        }
        Some(buf)
    }

    /// Decode one page back into a node: tag, key count, child offsets for
    /// internal pages, then each slot's lengths, key bytes and value bytes.
    /// Fails with `CorruptPage` exactly when some header field, offset-table
    /// entry or slot length is inconsistent with the page's size.
    #[verifier::loop_isolation(false)]
    pub fn decode_node(buf: Vec<u8>) -> (r: Result<Node, StorageError>)
        ensures
            match r {
                Ok(node) => {
                    &&& page_valid(buf@)
                    &&& node@ == decode_spec(buf@)
                    &&& node@.shape_ok()
                },
                Err(e) => {
                    &&& !page_valid(buf@)
                    &&& e == StorageError::CorruptPage
                },
            },
    {
        if buf.len() < 3 {
            return Err(StorageError::CorruptPage);
        }
        let tag = buf[0];
        if tag != BNODE_LEAF && tag != BNODE_INTERNAL {
            return Err(StorageError::CorruptPage);
        }
        let is_leaf = tag == BNODE_LEAF;
        let n = get_u16(&buf, 1) as usize;
        let header: usize = if is_leaf {
            3
        } else {
            3 + 8 * (n + 1)
        };
        if header + 2 * n > buf.len() {
            return Err(StorageError::CorruptPage);
        }

        let mut children: Vec<u64> = Vec::new();
        if !is_leaf {
            let mut i: usize = 0;
            while i < n + 1
                invariant
                    0 <= i <= n + 1,
                    children@.len() == i,
                    forall|j: int| 0 <= j < i ==> children@[j] == page_child(buf@, j),
                decreases n + 1 - i,
            {
                children.push(get_u64(&buf, 3 + 8 * i));
                i = i + 1;
            }
        }

        let mut keys: Vec<Vec<u8>> = Vec::new();
        let mut values: Vec<Vec<u8>> = Vec::new();
        let mut i: usize = 0;
        while i < n
            invariant
                0 <= i <= n,
                keys@.len() == i,
                values@.len() == (if is_leaf {
                    i as int
                } else {
                    0
                }),
                forall|j: int| 0 <= j < i ==> #[trigger] page_slot_ok(buf@, j),
                forall|j: int| 0 <= j < i ==> keys@[j]@ == page_key(buf@, j),
                is_leaf ==> forall|j: int| 0 <= j < i ==> values@[j]@ == page_val(buf@, j),
            decreases n - i,
        {
            let p = get_u16(&buf, header + 2 * i) as usize;
            if p + 4 > buf.len() {
                proof {
                    assert(!page_slot_ok(buf@, i as int));
                }
                return Err(StorageError::CorruptPage);
            }
            let klen = get_u16(&buf, p) as usize;
            let vlen = get_u16(&buf, p + 2) as usize;
            if p + 4 + klen + vlen > buf.len() {
                proof {
                    assert(!page_slot_ok(buf@, i as int));
                }
                return Err(StorageError::CorruptPage);
            }
            keys.push(get_bytes(&buf, p + 4, klen));
            if is_leaf {
                values.push(get_bytes(&buf, p + 4 + klen, vlen));
            }
            i = i + 1;
        }

        let node = Node { keys, children, values };
        proof {
            assert(page_valid(buf@));
            assert(node@.keys =~= decode_spec(buf@).keys);
            assert(node@.children =~= decode_spec(buf@).children);
            assert(node@.values =~= decode_spec(buf@).values);
            assert(node@ =~= decode_spec(buf@));
        }
        Ok(node)
    }
}

} // verus!
