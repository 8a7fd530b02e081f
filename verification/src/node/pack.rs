//! Nodes as they are written and read: the slots of a node packed behind a
//! bitmap, and unpacked again.

use crate::bitmap::{
    bit_set, bitmap_of, bmap_bytes, bmap_len, count_set, lemma_bmap_len, lemma_count_set_grows,
    make_bitmap, test_bit,
};
use crate::codec::{decode_node, decode_node_spec, node_bytes, Collapsed, CollapsedNode};
use crate::content_id::{block_cid, is_cid, Cid};
use crate::error::{Error, ErrorView};
use crate::index::{fanout, width, MAX_BIT_WIDTH};
use crate::node::{
    empty_links, init_sized_vec, is_clean, is_empty_spec, slot_view, value_view, wf, Link, LinkView,
    Node, NodeView,
};
use crate::node::flush::persisted;
use crate::store::{Blocks, Blockstore};
use vstd::prelude::*;

verus! {

/// A link to a block that is not in memory.
pub open spec fn uncached(cid: Seq<u8>) -> LinkView {
    LinkView::Cid { cid, cache: None }
}

/// What the `n` slots of a written node hold: the items, in the order of the
/// set bits.
pub open spec fn expand_slots(c: Collapsed, n: nat) -> Seq<Option<Seq<u8>>> {
    Seq::new(
        n,
        |i: int|
            if bit_set(c.bmap, i) {
                Some(c.items[count_set(c.bmap, i as nat) as int])
            } else {
                None
            },
    )
}

/// The bitmap has the length of its bit width and as many set bits as there
/// are items.
pub open spec fn expandable(c: Collapsed, bit_width: nat) -> bool {
    c.bmap.len() == bmap_len(bit_width) && count_set(c.bmap, width(bit_width)) == c.items.len()
}

/// The node that a written node stands for.
pub open spec fn expand_spec(c: Collapsed, bit_width: nat) -> Option<NodeView> {
    if !expandable(c, bit_width) {
        None
    } else if c.links {
        Some(
            NodeView::Link {
                links: Seq::new(
                    width(bit_width),
                    |i: int|
                        match expand_slots(c, width(bit_width))[i] {
                            Some(cid) => Some(uncached(cid)),
                            None => None,
                        },
                ),
            },
        )
    } else {
        Some(NodeView::Leaf { vals: expand_slots(c, width(bit_width)) })
    }
}

/// What the slots of a node are written as: a value as itself, a link as its
/// identifier.
pub open spec fn slot_items(node: NodeView) -> Seq<Option<Seq<u8>>> {
    match node {
        NodeView::Leaf { vals } => vals,
        NodeView::Link { links } => Seq::new(
            links.len(),
            |i: int|
                match links[i] {
                    Some(LinkView::Cid { cid, cache }) => Some(cid),
                    _ => None,
                },
        ),
    }
}

/// Whether each slot is occupied. A node of links has no empty link, so an
/// occupied slot is one that holds something.
pub open spec fn occupied(node: NodeView) -> Seq<bool> {
    match node {
        NodeView::Leaf { vals } => Seq::new(vals.len(), |i: int| vals[i] is Some),
        NodeView::Link { links } => Seq::new(links.len(), |i: int| links[i] is Some),
    }
}

/// What the occupied slots hold, in the order of the slots.
pub open spec fn pack(slots: Seq<Option<Seq<u8>>>) -> Seq<Seq<u8>>
    decreases slots.len(),
{
    if slots.len() == 0 {
        Seq::empty()
    } else {
        match slots.last() {
            Some(x) => pack(slots.drop_last()).push(x),
            None => pack(slots.drop_last()),
        }
    }
}

/// The node is as it was read: every link of it names a block by an
/// identifier, and no child is in memory.
pub open spec fn bare(node: NodeView) -> bool {
    match node {
        NodeView::Leaf { vals } => true,
        NodeView::Link { links } => forall|i: int|
            0 <= i < links.len() ==> match #[trigger] links[i] {
                Some(LinkView::Cid { cid, cache: None }) => is_cid(cid),
                Some(_) => false,
                None => true,
            },
    }
}

/// The number of slots of a node.
pub open spec fn slots(node: NodeView) -> nat {
    match node {
        NodeView::Leaf { vals } => vals.len(),
        NodeView::Link { links } => links.len(),
    }
}

/// A node as it was read, brought to its height, has the shape of its place,
/// nothing of it is dirty, and nothing of it is in memory behind a link.
pub proof fn lemma_bare_wf(node: NodeView, blocks: Blocks, bit_width: nat, height: nat)
    requires
        bare(node),
        slots(node) == width(bit_width),
        fit_height(node, height) is Some,
    ensures
        bare(fit_height(node, height)->Some_0),
        wf(fit_height(node, height)->Some_0, bit_width, height),
        is_clean(fit_height(node, height)->Some_0, height),
        persisted(fit_height(node, height)->Some_0, blocks, bit_width, height),
{
    let fitted = fit_height(node, height)->Some_0;
    match fitted {
        NodeView::Leaf { vals } => {},
        NodeView::Link { links } => {
            assert forall|i: int| 0 <= i < links.len() implies match #[trigger] links[i] {
                Some(LinkView::Cid { cid, cache: None }) => is_cid(cid),
                Some(_) => false,
                None => true,
            } by {}
        },
    }
}

/// No slot of the node holds a dirty link.
pub open spec fn links_clean(node: NodeView) -> bool {
    match node {
        NodeView::Leaf { vals } => true,
        NodeView::Link { links } => forall|i: int|
            0 <= i < links.len() ==> !((#[trigger] links[i]) matches Some(LinkView::Dirty(_))),
    }
}

/// The node as it is written.
pub open spec fn collapse_spec(node: NodeView, bit_width: nat) -> Collapsed {
    let items = pack(slot_items(node));
    Collapsed {
        bmap: bitmap_of(occupied(node), bmap_len(bit_width)),
        links: node is Link && items.len() > 0,
        items,
    }
}

/// The node as it stands at `height`: values at height 0 and links above. A
/// node without items is written the same at every height and is read as the
/// node its place asks for.
pub open spec fn fit_height(node: NodeView, height: nat) -> Option<NodeView> {
    match node {
        NodeView::Leaf { vals } => if height == 0 {
            Some(node)
        } else if is_empty_spec(node) {
            Some(empty_links(vals.len()))
        } else {
            None
        },
        NodeView::Link { links } => if height > 0 {
            Some(node)
        } else {
            None
        },
    }
}

/// The node that the store holds under `cid`, read as a node at `height`.
pub open spec fn load_spec(blocks: Blocks, cid: Seq<u8>, bit_width: nat, height: nat) -> Result<
    NodeView,
    ErrorView,
> {
    if !blocks.contains_key(cid) {
        Err(ErrorView::CidNotFound(cid))
    } else {
        match decode_node_spec(blocks[cid]) {
            None => Err(ErrorView::Codec),
            Some(c) => match expand_spec(c, bit_width) {
                None => Err(ErrorView::InvalidEncoding),
                Some(node) => match fit_height(node, height) {
                    None => Err(ErrorView::InvalidEncoding),
                    Some(node) => Ok(node),
                },
            },
        }
    }
}

impl CollapsedNode {
    /// The node that this written node stands for. The bitmap must have the
    /// length of the bit width and as many set bits as there are items.
    pub fn expand(&self, bit_width: u32) -> (r: Result<Node, Error>)
        requires
            bit_width <= MAX_BIT_WIDTH,
            self.links ==> forall|i: int|
                0 <= i < self@.items.len() ==> is_cid(#[trigger] self@.items[i]),
        ensures
            r matches Ok(node) ==> expand_spec(self@, bit_width as nat) == Some(node@) && bare(
                node@,
            ) && slots(node@) == width(bit_width as nat),
            r matches Err(e) ==> e == Error::InvalidEncoding && expand_spec(
                self@,
                bit_width as nat,
            ) is None,
    {
        let n = fanout(bit_width);
        proof {
            lemma_bmap_len(bit_width as nat);
        }
        if self.bmap.len() != bmap_bytes(bit_width) {
            return Err(Error::InvalidEncoding);
        }
        let ghost c = self@;
        let ghost slots = expand_slots(c, n as nat);
        let mut vals: Vec<Option<Vec<u8>>> = Vec::new();
        let mut links: Vec<Option<Link>> = Vec::new();
        let mut next: usize = 0;
        let mut i: usize = 0;
        while i < n
            invariant
                i <= n,
                n == width(bit_width as nat),
                c == self@,
                slots == expand_slots(c, n as nat),
                next == count_set(c.bmap, i as nat),
                next <= self.items@.len(),
                self.links ==> forall|k: int| 0 <= k < c.items.len() ==> is_cid(#[trigger] c.items[k]),
                self.links ==> links@.len() == i && vals@.len() == 0,
                !self.links ==> vals@.len() == i && links@.len() == 0,
                self.links ==> forall|k: int|
                    0 <= k < i ==> slot_view(#[trigger] links@[k]) == (match slots[k] {
                        Some(cid) => Some(uncached(cid)),
                        None => None,
                    }),
                !self.links ==> forall|k: int|
                    0 <= k < i ==> value_view(#[trigger] vals@[k]) == slots[k],
            decreases n - i,
        {
            let present = test_bit(self.bmap.as_slice(), i);
            if present {
                if next >= self.items.len() {
                    proof {
                        lemma_count_set_grows(c.bmap, (i + 1) as nat, n as nat);
                    }
                    return Err(Error::InvalidEncoding);
                }
                let item = self.items[next].clone();
                proof {
                    assert(c.items[next as int] == self.items@[next as int]@);
                }
                if self.links {
                    links.push(Some(Link::Cid { cid: Cid::from_canonical(item), cache: None }));
                } else {
                    vals.push(Some(item));
                }
                next += 1;
            } else {
                if self.links {
                    links.push(None);
                } else {
                    vals.push(None);
                }
            }
            i += 1;
        }
        if next != self.items.len() {
            return Err(Error::InvalidEncoding);
        }
        if self.links {
            let node = Node::Link { links };
            proof {
                assert(node@->Link_links =~= expand_spec(c, bit_width as nat)->Some_0->Link_links);
                assert forall|k: int| 0 <= k < node@->Link_links.len() implies match #[trigger] node@->Link_links[k] {
                    Some(LinkView::Cid { cid, cache: None }) => is_cid(cid),
                    Some(_) => false,
                    None => true,
                } by {
                    if slots[k] is Some {
                        let at = count_set(c.bmap, k as nat);
                        lemma_count_set_grows(c.bmap, (k + 1) as nat, n as nat);
                        assert(is_cid(c.items[at as int]));
                    }
                }
            }
            Ok(node)
        } else {
            let node = Node::Leaf { vals };
            proof {
                assert(node@->Leaf_vals =~= slots);
            }
            Ok(node)
        }
    }
}

/// The values that slots hold, behind one another.
proof fn lemma_pack_push(slots: Seq<Option<Seq<u8>>>, slot: Option<Seq<u8>>)
    ensures
        pack(slots.push(slot)) == (match slot {
            Some(x) => pack(slots).push(x),
            None => pack(slots),
        }),
{
    assert(slots.push(slot).drop_last() =~= slots);
}

impl Node {
    /// The node as it is written. No link of the node may be dirty: a dirty
    /// link has no identifier to write.
    pub fn collapse(&self, bit_width: u32) -> (c: CollapsedNode)
        requires
            bit_width <= MAX_BIT_WIDTH,
            links_clean(self@),
        ensures
            c@ == collapse_spec(self@, bit_width as nat),
    {
        let mut flags: Vec<bool> = Vec::new();
        let mut items: Vec<Vec<u8>> = Vec::new();
        let ghost slots = slot_items(self@);
        let is_link = match self {
            Node::Leaf { vals } => {
                let mut i: usize = 0;
                while i < vals.len()
                    invariant
                        i <= vals@.len(),
                        slots.len() == vals@.len(),
                        forall|k: int| 0 <= k < vals@.len() ==> (#[trigger] slots[k]) == value_view(
                            vals@[k],
                        ),
                        flags@ == occupied(self@).subrange(0, i as int),
                        occupied(self@).len() == vals@.len(),
                        forall|k: int| 0 <= k < vals@.len() ==> (#[trigger] occupied(self@)[k])
                            == (vals@[k] is Some),
                        crate::codec::items_view(items@) == pack(slots.subrange(0, i as int)),
                    decreases vals@.len() - i,
                {
                    proof {
                        lemma_pack_push(slots.subrange(0, i as int), slots[i as int]);
                        assert(slots.subrange(0, i as int).push(slots[i as int]) =~= slots.subrange(
                            0,
                            i + 1,
                        ));
                    }
                    match &vals[i] {
                        Some(v) => {
                            let copy = v.clone();
                            proof {
                                assert(crate::codec::items_view(items@.push(copy))
                                    =~= crate::codec::items_view(items@).push(copy@));
                            }
                            items.push(copy);
                            flags.push(true);
                        },
                        None => {
                            flags.push(false);
                        },
                    }
                    proof {
                        assert(flags@ =~= occupied(self@).subrange(0, i + 1));
                    }
                    i += 1;
                }
                proof {
                    assert(slots.subrange(0, i as int) =~= slots);
                    assert(occupied(self@).subrange(0, i as int) =~= occupied(self@));
                }
                false
            },
            Node::Link { links } => {
                let mut i: usize = 0;
                while i < links.len()
                    invariant
                        i <= links@.len(),
                        slots.len() == links@.len(),
                        links_clean(self@),
                        self@ is Link,
                        self@->Link_links.len() == links@.len(),
                        forall|k: int| 0 <= k < links@.len() ==> (#[trigger] self@->Link_links[k])
                            == slot_view(links@[k]),
                        forall|k: int| 0 <= k < links@.len() ==> (#[trigger] slots[k]) == (match self@->Link_links[k] {
                            Some(LinkView::Cid { cid, cache }) => Some(cid),
                            _ => None,
                        }),
                        flags@ == occupied(self@).subrange(0, i as int),
                        occupied(self@).len() == links@.len(),
                        forall|k: int| 0 <= k < links@.len() ==> (#[trigger] occupied(self@)[k])
                            == (links@[k] is Some),
                        crate::codec::items_view(items@) == pack(slots.subrange(0, i as int)),
                    decreases links@.len() - i,
                {
                    proof {
                        lemma_pack_push(slots.subrange(0, i as int), slots[i as int]);
                        assert(slots.subrange(0, i as int).push(slots[i as int]) =~= slots.subrange(
                            0,
                            i + 1,
                        ));
                        assert(self@->Link_links[i as int] == slot_view(links@[i as int]));
                    }
                    match &links[i] {
                        Some(Link::Cid { cid, cache }) => {
                            let copy = cid.to_bytes();
                            proof {
                                assert(crate::codec::items_view(items@.push(copy))
                                    =~= crate::codec::items_view(items@).push(copy@));
                            }
                            items.push(copy);
                            flags.push(true);
                        },
                        Some(Link::Dirty(_)) => {
                            flags.push(true);
                        },
                        None => {
                            flags.push(false);
                        },
                    }
                    proof {
                        assert(flags@ =~= occupied(self@).subrange(0, i + 1));
                    }
                    i += 1;
                }
                proof {
                    assert(slots.subrange(0, i as int) =~= slots);
                    assert(occupied(self@).subrange(0, i as int) =~= occupied(self@));
                }
                items.len() > 0
            },
        };
        proof {
            lemma_bmap_len(bit_width as nat);
        }
        let bmap = make_bitmap(&flags, bmap_bytes(bit_width));
        CollapsedNode { bmap, links: is_link, items }
    }

    /// The node as it stands at `height`, where it can stand there.
    pub fn fit(self, height: u32) -> (r: Result<Node, Error>)
        ensures
            r matches Ok(node) ==> fit_height(self@, height as nat) == Some(node@) && slots(node@)
                == slots(self@),
            r matches Err(e) ==> e == Error::InvalidEncoding && fit_height(
                self@,
                height as nat,
            ) is None,
    {
        let leaf = match &self {
            Node::Leaf { vals } => true,
            Node::Link { links } => false,
        };
        if leaf == (height == 0) {
            return Ok(self);
        }
        if !leaf {
            return Err(Error::InvalidEncoding);
        }
        if !self.is_empty() {
            return Err(Error::InvalidEncoding);
        }
        let n = match &self {
            Node::Leaf { vals } => vals.len(),
            Node::Link { links } => links.len(),
        };
        let node = Node::Link { links: init_sized_vec(n) };
        proof {
            assert(node@->Link_links =~= empty_links(n as nat)->Link_links);
        }
        Ok(node)
    }

    /// Reads the node that the store holds under `cid` as a node at `height`.
    pub fn load<BS: Blockstore>(bs: &BS, cid: &Cid, bit_width: u32, height: u32) -> (r: Result<
        Node,
        Error,
    >)
        requires
            bit_width <= MAX_BIT_WIDTH,
        ensures
            bs.reliable() ==> !(r matches Err(Error::BlockStore(_))),
            r matches Ok(node) ==> load_spec(bs.blocks(), cid@, bit_width as nat, height as nat)
                == Ok::<NodeView, ErrorView>(node@) && bare(node@) && wf(
                node@,
                bit_width as nat,
                height as nat,
            ) && is_clean(node@, height as nat) && persisted(
                node@,
                bs.blocks(),
                bit_width as nat,
                height as nat,
            ),
            r matches Err(e) ==> e@ is BlockStore || load_spec(
                bs.blocks(),
                cid@,
                bit_width as nat,
                height as nat,
            ) == Err::<NodeView, ErrorView>(e@),
    {
        let block = match bs.get(cid) {
            Ok(Some(block)) => block,
            Ok(None) => { return Err(Error::CidNotFound(cid.clone())); },
            Err(e) => { return Err(Error::BlockStore(e)); },
        };
        let collapsed = match decode_node(block.as_slice()) {
            Some(c) => c,
            None => { return Err(Error::Codec); },
        };
        match collapsed.expand(bit_width) {
            Ok(node) => {
                let ghost raw = node@;
                match node.fit(height) {
                    Ok(fitted) => {
                        proof {
                            lemma_bare_wf(raw, bs.blocks(), bit_width as nat, height as nat);
                        }
                        Ok(fitted)
                    },
                    Err(e) => Err(e),
                }
            },
            Err(e) => Err(e),
        }
    }
}

/// A node read from the store has the shape of its place, and nothing of it
/// is dirty.
pub proof fn lemma_loaded_wf(blocks: Blocks, cid: Seq<u8>, bit_width: nat, height: nat)
    requires
        load_spec(blocks, cid, bit_width, height) is Ok,
    ensures
        wf(load_spec(blocks, cid, bit_width, height)->Ok_0, bit_width, height),
        is_clean(load_spec(blocks, cid, bit_width, height)->Ok_0, height),
        persisted(load_spec(blocks, cid, bit_width, height)->Ok_0, blocks, bit_width, height),
{
    let c = decode_node_spec(blocks[cid])->Some_0;
    let node = expand_spec(c, bit_width)->Some_0;
    let fitted = fit_height(node, height)->Some_0;
    if c.links {
        crate::codec::lemma_decoded_links(blocks[cid]);
    }
    match fitted {
        NodeView::Leaf { vals } => {},
        NodeView::Link { links } => {
            assert forall|i: int| 0 <= i < links.len() implies match #[trigger] links[i] {
                Some(LinkView::Dirty(child)) => false,
                Some(LinkView::Cid { cid, cache: Some(child) }) => false,
                Some(LinkView::Cid { cid, cache: None }) => is_cid(cid),
                None => true,
            } by {
                if c.links && bit_set(c.bmap, i) {
                    let k = count_set(c.bmap, i as nat);
                    lemma_count_set_grows(c.bmap, (i + 1) as nat, width(bit_width));
                    assert(is_cid(c.items[k as int]));
                }
            }
        },
    }
}

/// The bytes a node is written as.
pub open spec fn node_block(node: NodeView, bit_width: nat) -> Seq<u8> {
    node_bytes(collapse_spec(node, bit_width))
}

/// The identifier of the block a node is written as.
pub open spec fn node_cid(node: NodeView, bit_width: nat) -> Seq<u8> {
    block_cid(node_block(node, bit_width))
}

} // verus!
