//! The page-level disk manager: whole-page reads, copy-on-write appends
//! and the metadata commit point, over the in-memory database image.

use vstd::prelude::*;

use crate::bytes::{get_bytes, get_u64, le64, put_u64};
use crate::configs::StorageConfig;
use crate::errors::StorageError;
use crate::node::{decode_spec, page_valid, Node, NodeView};

verus! {

/// Outcome of try-appending a node: either its page was written, or the node
/// did not fit one page and nothing was changed.
#[derive(Debug)]
pub enum EncodeResult {
    Encoded,
    NeedSplit,
}

/// The page at byte offset `off` of the image.
pub open spec fn page_at(d: Seq<u8>, off: int, ps: int) -> Seq<u8> {
    d.subrange(off, off + ps)
}

/// Page-level manager of the database image.  The image mirrors the database
/// file byte for byte: the metadata page at offset zero, whose first eight
/// bytes hold the root offset, then one page per node version, only ever
/// appended to.  The host program reads the file into the image and writes
/// the image back, flushing after every mutation.
pub struct DiskManager {
    /// The database file's bytes.
    pub image: Vec<u8>,
    pub config: StorageConfig,
}

impl DiskManager {
    /// The image is a metadata page followed by whole pages.
    pub open spec fn wf(self) -> bool {
        &&& self.config.wf()
        &&& self.image@.len() >= self.config.page_size
        &&& (self.image@.len() as int) % (self.config.page_size as int) == 0
    }

    /// Wrap an existing database image, or initialize a fresh one: an empty
    /// image becomes a metadata page pointing at `first_page_offset` followed
    /// by an empty leaf page there.
    pub fn new(image: Vec<u8>, config: StorageConfig) -> (dm: DiskManager)
        requires
            config.wf(),
            image@.len() == 0 || (image@.len() >= config.page_size && (image@.len() as int) % (
            config.page_size as int) == 0),
        ensures
            dm.config == config,
            dm.wf(),
            image@.len() != 0 ==> dm.image@ == image@,
            image@.len() == 0 ==> {
                &&& dm.image@.len() == 2 * (config.page_size as int)
                &&& le64(dm.image@, 0) == config.first_page_offset
                &&& page_valid(
                    page_at(
                        dm.image@,
                        config.first_page_offset as int,
                        config.page_size as int,
                    ),
                )
                &&& decode_spec(
                    page_at(dm.image@, config.first_page_offset as int, config.page_size as int),
                ) == (NodeView {
                    keys: Seq::empty(),
                    children: Seq::empty(),
                    values: Seq::empty(),
                })
            },
    {
        let ps = config.page_size as usize;
        if image.len() == 0 {
            let mut img: Vec<u8> = vec![0u8; ps];
            put_u64(&mut img, 0, config.first_page_offset);
            let mut dm = DiskManager { image: img, config };
            let root = Node { keys: Vec::new(), children: Vec::new(), values: Vec::new() };
            proof {
                assert(root@.encoded_size() == 3);
                assert(root@.shape_ok());
            }
            let ghost img0 = dm.image@;
            let res = dm.append_node_to_disk(config.first_page_offset, &root);
            proof {
                match res {
                    EncodeResult::Encoded => {},
                    EncodeResult::NeedSplit => {
                        assert(false);
                    },
                }
                assert forall|k: int| 0 <= k < 8 implies dm.image@[k] == img0[k] by {
                    assert(img0[k] == dm.image@.subrange(0, img0.len() as int)[k]);
                }
                crate::bytes::lemma_le64_frame(img0, dm.image@, 0);
                assert(root@ =~= NodeView {
                    keys: Seq::empty(),
                    children: Seq::empty(),
                    values: Seq::empty(),
                });
            }
            dm
        } else {
            DiskManager { image, config }
        }
    }

    /// The root offset held in the metadata page's first eight bytes.
    pub fn read_metadata(&self) -> (r: u64)
        requires
            self.wf(),
        ensures
            r == le64(self.image@, 0),
    {
        get_u64(&self.image, 0)
    }

    /// Overwrite the metadata page: the new root offset in the first eight
    /// bytes, zero elsewhere.  This is the single visible commit point; no
    /// other byte of the image moves.
    pub fn write_metadata(&mut self, root_offset: u64)
        requires
            old(self).wf(),
        ensures
            final(self).wf(),
            final(self).config == old(self).config,
            final(self).image@.len() == old(self).image@.len(),
            le64(final(self).image@, 0) == root_offset,
            forall|k: int|
                8 <= k < old(self).config.page_size ==> final(self).image@[k] == 0,
            forall|k: int|
                old(self).config.page_size <= k < old(self).image@.len() ==> final(self).image@[k]
                    == old(self).image@[k],
    {
        let ps = self.config.page_size as usize;
        let mut k: usize = 8;
        put_u64(&mut self.image, 0, root_offset);
        while k < ps
            invariant
                8 <= k <= ps,
                ps <= self.image@.len(),
                self.image@.len() == old(self).image@.len(),
                self.config == old(self).config,
                le64(self.image@, 0) == root_offset,
                forall|j: int| 8 <= j < k ==> self.image@[j] == 0,
                forall|j: int|
                    ps <= j < self.image@.len() ==> self.image@[j] == old(self).image@[j],
            decreases ps - k,
        {
            let ghost prev = self.image@;
            self.image[k] = 0;
            proof {
                crate::bytes::lemma_le64_frame(prev, self.image@, 0);
            }
            k = k + 1;
        }
    }

    /// Load and decode the node stored at `offset`.
    pub fn load_node_from_disk(&self, offset: u64) -> (r: Result<Node, StorageError>)
        requires
            self.wf(),
        ensures
            match r {
                Ok(node) => {
                    &&& offset + self.config.page_size <= self.image@.len()
                    &&& page_valid(
                        page_at(self.image@, offset as int, self.config.page_size as int),
                    )
                    &&& node@ == decode_spec(
                        page_at(self.image@, offset as int, self.config.page_size as int),
                    )
                    &&& node@.shape_ok()
                },
                Err(e) => {
                    &&& e == StorageError::CorruptPage
                    &&& !(offset + self.config.page_size <= self.image@.len() && page_valid(
                        page_at(self.image@, offset as int, self.config.page_size as int),
                    ))
                },
            },
    {
        let ps = self.config.page_size as usize;
        let len64 = self.image.len() as u64;
        if offset > len64 || len64 - offset < ps as u64 {
            return Err(StorageError::CorruptPage);
        }
        let page = get_bytes(&self.image, offset as usize, ps);
        Node::decode_node(page)
    }

    /// The append-allocation point: the current end of the image.
    pub fn get_new_offset(&self) -> (r: u64)
        requires
            self.wf(),
        ensures
            r == self.image@.len(),
    {
        self.image.len() as u64
    }

    /// Try-append: encode the node and, when it fits, write its page at the
    /// end of the image; when it does not fit, change nothing and hand back
    /// the needs-split signal.
    pub fn append_node_to_disk(&mut self, offset: u64, node: &Node) -> (r: EncodeResult)
        requires
            old(self).wf(),
            offset == old(self).image@.len(),
            node@.shape_ok(),
            node@.sizes_ok(old(self).config),
        ensures
            final(self).config == old(self).config,
            final(self).wf(),
            match r {
                EncodeResult::Encoded => {
                    &&& node@.fits(old(self).config.page_size as int)
                    &&& final(self).image@.len() == old(self).image@.len()
                        + old(self).config.page_size
                    &&& final(self).image@.subrange(0, old(self).image@.len() as int) == old(
                        self,
                    ).image@
                    &&& page_valid(
                        page_at(
                            final(self).image@,
                            offset as int,
                            old(self).config.page_size as int,
                        ),
                    )
                    &&& decode_spec(
                        page_at(
                            final(self).image@,
                            offset as int,
                            old(self).config.page_size as int,
                        ),
                    ) == node@
                },
                EncodeResult::NeedSplit => {
                    &&& !node@.fits(old(self).config.page_size as int)
                    &&& *final(self) == *old(self)
                },
            },
    {
        match Node::encode_node(node, &self.config) {
            Some(page) => {
                let mut page = page;
                let ghost oldimg = self.image@;
                let ghost pg = page@;
                self.image.append(&mut page);
                proof {
                    vstd::arithmetic::div_mod::lemma_mod_add_multiples_vanish(
                        oldimg.len() as int,
                        self.config.page_size as int,
                    );
                    assert(self.image@.subrange(0, oldimg.len() as int) =~= oldimg);
                    assert(page_at(self.image@, offset as int, self.config.page_size as int)
                        =~= pg);
                }
                EncodeResult::Encoded
            },
            None => EncodeResult::NeedSplit,
        }
    }

    /// Whether the node's encoded size is below the configured underfull
    /// threshold, in which case a non-root node must be rebalanced.
    pub fn check_node_needs_merge(&self, node: &Node) -> (r: bool)
        requires
            self.wf(),
            node@.shape_ok(),
            node@.sizes_ok(self.config),
        ensures
            r == (node@.encoded_size() < self.config.min_node_size),
    {
        node_encoded_size_capped(node, self.config.min_node_size as u32)
            < self.config.min_node_size as u32
    }
}

/// The node's encoded size, computed exactly up to `cap` and clamped there:
/// the result is `min(encoded_size, cap)` whenever `cap` bounds it, which is
/// all a threshold comparison needs.
#[verifier::loop_isolation(false)]
pub(crate) fn node_encoded_size_capped(node: &Node, cap: u32) -> (r: u32)
    requires
        cap <= 0x1_0000,
        node@.shape_ok(),
        forall|i: int| 0 <= i < node@.keys.len() ==> #[trigger] node@.keys[i].len() <= 0xFFFF,
        forall|i: int| 0 <= i < node@.values.len() ==> #[trigger] node@.values[i].len() <= 0xFFFF,
    ensures
        r < cap ==> r == node@.encoded_size(),
        r >= cap ==> node@.encoded_size() >= cap,
{
    let ghost nv = node@;
    let n = node.keys.len();
    let is_leaf = node.children.is_empty();
    if cap == 0 || n >= cap as usize {
        proof {
            crate::node::lemma_slots_size_nonneg(nv, n as int);
        }
        return cap;
    }
    let header: usize = if is_leaf {
        3
    } else {
        3 + 8 * (n + 1)
    };
    let base = header + 2 * n;
    if base >= cap as usize {
        proof {
            crate::node::lemma_slots_size_nonneg(nv, n as int);
        }
        return cap;
    }
    let mut cursor = base;
    let mut i: usize = 0;
    while i < n
        invariant
            0 <= i <= n,
            cursor == nv.slot_start(i as int),
            cursor < cap,
        decreases n - i,
    {
        proof {
            assert(nv.keys[i as int].len() <= 0xFFFF);
            if is_leaf {
                assert(nv.values[i as int].len() <= 0xFFFF);
            }
        }
        let klen = node.keys[i].len();
        let vlen = if is_leaf {
            node.values[i].len()
        } else {
            0
        };
        let slot = 4 + klen + vlen;
        if (cap as usize) - cursor <= slot {
            proof {
                crate::node::lemma_slots_size_mono(nv, i as int + 1, n as int);
            }
            return cap;
        }
        cursor = cursor + slot;
        i = i + 1;
    }
    cursor as u32
}

} // verus!
