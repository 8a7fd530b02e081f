//! What was written can be read: a node that was written to the store is read
//! from it as it was.

use crate::bitmap::{bitmap_of, bmap_len, count_set, lemma_bitmap_of, lemma_bmap_len};
use crate::cbor::{lemma_head_len, MAJOR_ARRAY, MAJOR_BYTES, MAJOR_TAG, TAG_LINK};
use crate::codec::{items_bytes, lemma_decode_encode, writable};
use crate::content_id::{block_cid, is_cid};
use crate::error::ErrorView;
use crate::index::{
    capacity, lemma_capacity_step, lemma_split, rest_of, slot_of, width, MAX_BIT_WIDTH,
};
use crate::node::{
    empty_leaf, empty_links, is_clean, is_empty_spec, lemma_empty_lookup, lookup, lookup_link, wf,
    LinkView, NodeView,
};
use crate::node::flush::persisted;
use crate::node::pack::{
    collapse_spec, expand_slots, expand_spec, expandable, fit_height, links_clean, load_spec,
    node_block, node_cid, occupied, pack, slot_items, slots, uncached,
};
use crate::store::Blocks;
use crate::node::dense::{dense, readable};
use crate::node::edit::child_in;
use crate::node::shape::{resident, tight};
use vstd::prelude::*;

verus! {

/// The node as it is read back: what it holds, with no child in memory. A
/// node of links that holds nothing is read back as a node of values.
pub open spec fn read_back(node: NodeView) -> NodeView {
    match node {
        NodeView::Leaf { vals } => node,
        NodeView::Link { links } => if is_empty_spec(node) {
            empty_leaf(links.len())
        } else {
            NodeView::Link {
                links: Seq::new(
                    links.len(),
                    |i: int|
                        match links[i] {
                            Some(LinkView::Cid { cid, cache }) => Some(uncached(cid)),
                            _ => None,
                        },
                ),
            }
        },
    }
}

/// The items of the first slots are the first items.
pub proof fn lemma_pack_prefix(all: Seq<Option<Seq<u8>>>, k: int)
    requires
        0 <= k <= all.len(),
    ensures
        pack(all.subrange(0, k)).len() <= pack(all).len(),
        forall|m: int|
            0 <= m < pack(all.subrange(0, k)).len() ==> pack(all.subrange(0, k))[m] == pack(all)[m],
    decreases all.len() - k,
{
    if k < all.len() {
        lemma_pack_prefix(all, k + 1);
        assert(all.subrange(0, k + 1).drop_last() =~= all.subrange(0, k));
    } else {
        assert(all.subrange(0, k) =~= all);
    }
}

/// The bitmap of a node counts the items of its first slots.
pub proof fn lemma_count_is_pack(all: Seq<Option<Seq<u8>>>, len: nat, k: int)
    requires
        0 <= k <= all.len(),
        all.len() <= 8 * len,
    ensures
        count_set(bitmap_of(Seq::new(all.len(), |i: int| all[i] is Some), len), k as nat) == pack(
            all.subrange(0, k),
        ).len(),
    decreases k,
{
    let flags = Seq::new(all.len(), |i: int| all[i] is Some);
    if k > 0 {
        lemma_count_is_pack(all, len, k - 1);
        lemma_bitmap_of(flags, len, k - 1);
        assert(all.subrange(0, k).drop_last() =~= all.subrange(0, k - 1));
    }
}

/// What a node is written as is what it is read back as.
pub proof fn lemma_expand_collapse(node: NodeView, bit_width: nat)
    requires
        bit_width <= MAX_BIT_WIDTH,
        slots(node) == width(bit_width),
        links_clean(node),
    ensures
        expand_spec(collapse_spec(node, bit_width), bit_width) == Some(read_back(node)),
{
    let c = collapse_spec(node, bit_width);
    let all = slot_items(node);
    let n = width(bit_width);
    lemma_bmap_len(bit_width);
    let flags = occupied(node);
    assert(flags =~= Seq::new(all.len(), |i: int| all[i] is Some)) by {
        assert forall|i: int| 0 <= i < all.len() implies flags[i] == (all[i] is Some) by {
            match node {
                NodeView::Leaf { vals } => {},
                NodeView::Link { links } => {
                    assert(!(links[i] matches Some(LinkView::Dirty(_))));
                },
            }
        }
    }
    lemma_count_is_pack(all, bmap_len(bit_width), n as int);
    assert(all.subrange(0, n as int) =~= all);
    assert(expandable(c, bit_width));
    let expanded = expand_slots(c, n);
    assert(expanded =~= all) by {
        assert forall|i: int| 0 <= i < n implies expanded[i] == all[i] by {
            lemma_bitmap_of(flags, bmap_len(bit_width), i);
            lemma_count_is_pack(all, bmap_len(bit_width), i);
            lemma_count_is_pack(all, bmap_len(bit_width), i + 1);
            lemma_pack_prefix(all, i + 1);
            assert(all.subrange(0, i + 1).drop_last() =~= all.subrange(0, i));
        }
    }
    match node {
        NodeView::Leaf { vals } => {},
        NodeView::Link { links } => {
            if is_empty_spec(node) {
                lemma_pack_none(all);
                assert(expanded =~= empty_leaf(links.len())->Leaf_vals);
            } else {
                let s = choose|s: int| 0 <= s < links.len() && (#[trigger] links[s]) is Some;
                assert(!(links[s] matches Some(LinkView::Dirty(_))));
                lemma_pack_some(all, s);
                assert(expand_spec(c, bit_width)->Some_0->Link_links =~= read_back(
                    node,
                )->Link_links);
            }
        },
    }
}

/// Empty slots have no items.
pub proof fn lemma_pack_none(all: Seq<Option<Seq<u8>>>)
    requires
        forall|i: int| 0 <= i < all.len() ==> (#[trigger] all[i]) is None,
    ensures
        pack(all).len() == 0,
    decreases all.len(),
{
    if all.len() > 0 {
        lemma_pack_none(all.drop_last());
    }
}

/// An occupied slot has an item.
pub proof fn lemma_pack_some(all: Seq<Option<Seq<u8>>>, s: int)
    requires
        0 <= s < all.len(),
        all[s] is Some,
    ensures
        pack(all).len() > 0,
    decreases all.len(),
{
    if s < all.len() - 1 {
        lemma_pack_some(all.drop_last(), s);
    }
}

/// Every clean link with its child in memory names the block of that child,
/// and the store holds that very block under the name; and so on down.
pub open spec fn stored(node: NodeView, blocks: Blocks, bit_width: nat, height: nat) -> bool
    decreases height,
{
    match node {
        NodeView::Leaf { vals } => true,
        NodeView::Link { links } => height > 0 && forall|i: int|
            0 <= i < links.len() ==> match #[trigger] links[i] {
                Some(LinkView::Dirty(child)) => stored(child, blocks, bit_width, (height - 1) as nat),
                Some(LinkView::Cid { cid, cache: Some(child) }) => cid == node_cid(child, bit_width)
                    && blocks.contains_key(cid) && blocks[cid] == node_block(child, bit_width)
                    && stored(child, blocks, bit_width, (height - 1) as nat),
                _ => true,
            },
    }
}

/// Every block of the store fits in memory.
pub open spec fn blocks_fit(blocks: Blocks) -> bool {
    forall|k: Seq<u8>| blocks.contains_key(k) ==> (#[trigger] blocks[k]).len() <= usize::MAX
}

/// No two blocks have one identifier.
pub open spec fn no_collisions() -> bool {
    forall|a: Seq<u8>, b: Seq<u8>| #[trigger] block_cid(a) == #[trigger] block_cid(b) ==> a == b
}

/// Where no two blocks have one identifier, what was written under the name of
/// its content is in the store as it was written.
pub proof fn lemma_persisted_stored(node: NodeView, blocks: Blocks, bit_width: nat, height: nat)
    requires
        no_collisions(),
        persisted(node, blocks, bit_width, height),
    ensures
        stored(node, blocks, bit_width, height),
    decreases height,
{
    match node {
        NodeView::Leaf { vals } => {},
        NodeView::Link { links } => {
            assert forall|i: int| 0 <= i < links.len() implies match #[trigger] links[i] {
                Some(LinkView::Dirty(child)) => stored(child, blocks, bit_width, (height - 1) as nat),
                Some(LinkView::Cid { cid, cache: Some(child) }) => cid == node_cid(child, bit_width)
                    && blocks.contains_key(cid) && blocks[cid] == node_block(child, bit_width)
                    && stored(child, blocks, bit_width, (height - 1) as nat),
                _ => true,
            } by {
                match links[i] {
                    Some(LinkView::Dirty(child)) => {
                        lemma_persisted_stored(child, blocks, bit_width, (height - 1) as nat);
                    },
                    Some(LinkView::Cid { cid, cache: Some(child) }) => {
                        lemma_persisted_stored(child, blocks, bit_width, (height - 1) as nat);
                        assert(block_cid(blocks[cid]) == block_cid(node_block(child, bit_width)));
                    },
                    _ => {},
                }
            }
        },
    }
}

/// An item is shorter than the items it is written among.
pub proof fn lemma_item_len(links: bool, xs: Seq<Seq<u8>>, i: int)
    requires
        0 <= i < xs.len(),
    ensures
        xs[i].len() + 1 <= items_bytes(links, xs).len(),
    decreases xs.len(),
{
    if i == 0 {
        lemma_head_len(MAJOR_BYTES, xs[0].len() as u64);
        lemma_head_len(MAJOR_BYTES, (seq![0u8] + xs[0]).len() as u64);
        lemma_head_len(MAJOR_TAG, TAG_LINK);
    } else {
        lemma_item_len(links, xs.drop_first(), i - 1);
    }
}

/// Every item is what some slot holds.
pub proof fn lemma_pack_member(all: Seq<Option<Seq<u8>>>, m: int)
    requires
        0 <= m < pack(all).len(),
    ensures
        exists|s: int| 0 <= s < all.len() && #[trigger] all[s] == Some(pack(all)[m]),
        pack(all).len() <= all.len(),
    decreases all.len(),
{
    if all.len() > 0 {
        let shorter = all.drop_last();
        if m < pack(shorter).len() {
            lemma_pack_member(shorter, m);
            let s = choose|s: int| 0 <= s < shorter.len() && #[trigger] shorter[s] == Some(
                pack(shorter)[m],
            );
            assert(all[s] == shorter[s]);
        } else {
            assert(all[all.len() - 1] == Some(pack(all)[m]));
            if pack(shorter).len() > 0 {
                lemma_pack_member(shorter, 0);
            }
        }
    }
}

/// A clean node whose block fits in memory is written in a way that can be
/// read.
pub proof fn lemma_writable(node: NodeView, bit_width: nat, height: nat)
    requires
        bit_width <= MAX_BIT_WIDTH,
        wf(node, bit_width, height),
        links_clean(node),
        node_block(node, bit_width).len() <= usize::MAX,
    ensures
        writable(collapse_spec(node, bit_width)),
{
    let c = collapse_spec(node, bit_width);
    let all = slot_items(node);
    lemma_bmap_len(bit_width);
    lemma_head_len(MAJOR_ARRAY, 2);
    lemma_head_len(MAJOR_BYTES, c.bmap.len() as u64);
    lemma_head_len(MAJOR_ARRAY, c.items.len() as u64);
    if c.items.len() > 0 {
        lemma_pack_member(all, 0);
    }
    assert forall|i: int| 0 <= i < c.items.len() implies (#[trigger] c.items[i]).len() < u64::MAX
        - 1 && (c.links ==> is_cid(c.items[i])) by {
        lemma_item_len(c.links, c.items, i);
        lemma_pack_member(all, i);
        let s = choose|s: int| 0 <= s < all.len() && #[trigger] all[s] == Some(pack(all)[i]);
        match node {
            NodeView::Leaf { vals } => {},
            NodeView::Link { links } => {
                assert(links[s] matches Some(LinkView::Cid { cid, cache }) && cid == c.items[i]);
            },
        }
    }
}

/// The node as it is read at `height`.
pub open spec fn read_at(node: NodeView, height: nat) -> NodeView {
    match node {
        NodeView::Leaf { vals } => node,
        NodeView::Link { links } => if is_empty_spec(node) {
            empty_links(links.len())
        } else {
            read_back(node)
        },
    }
}

/// A clean node whose block the store holds is read as it is read back.
pub proof fn lemma_load_read(
    node: NodeView,
    blocks: Blocks,
    bit_width: nat,
    height: nat,
    key: Seq<u8>,
)
    requires
        1 <= bit_width <= MAX_BIT_WIDTH,
        wf(node, bit_width, height),
        is_clean(node, height),
        blocks_fit(blocks),
        blocks.contains_key(key),
        blocks[key] == node_block(node, bit_width),
    ensures
        load_spec(blocks, key, bit_width, height) == Ok::<NodeView, ErrorView>(
            read_at(node, height),
        ),
{
    let c = collapse_spec(node, bit_width);
    crate::node::flush::lemma_clean_links(node, height);
    lemma_writable(node, bit_width, height);
    lemma_decode_encode(c);
    lemma_expand_collapse(node, bit_width);
    match node {
        NodeView::Leaf { vals } => {},
        NodeView::Link { links } => {
            if is_empty_spec(node) {
                assert(is_empty_spec(empty_leaf(links.len())));
            }
        },
    }
}

/// A clean link whose child is in the store leads, without the child in
/// memory, to what the child holds.
pub proof fn lemma_link_back(
    link: Option<LinkView>,
    blocks: Blocks,
    bit_width: nat,
    height: nat,
    r: nat,
)
    requires
        1 <= bit_width <= MAX_BIT_WIDTH,
        r < capacity(bit_width, height),
        blocks_fit(blocks),
        match link {
            Some(LinkView::Dirty(_)) => false,
            Some(LinkView::Cid { cid, cache: Some(child) }) => wf(child, bit_width, height)
                && is_clean(child, height) && stored(child, blocks, bit_width, height)
                && blocks.contains_key(cid) && blocks[cid] == node_block(child, bit_width),
            _ => true,
        },
    ensures
        lookup_link(
            match link {
                Some(LinkView::Cid { cid, cache }) => Some(uncached(cid)),
                _ => None,
            },
            blocks,
            bit_width,
            height,
            r,
        ) == lookup_link(link, blocks, bit_width, height, r),
    decreases height, 2nat,
{
    match link {
        Some(LinkView::Cid { cid, cache: Some(child) }) => {
            lemma_load_back(child, blocks, bit_width, height, cid);
            assert(lookup(read_at(child, height), blocks, bit_width, height, r) == lookup(
                child,
                blocks,
                bit_width,
                height,
                r,
            ));
            assert(lookup_link(Some(uncached(cid)), blocks, bit_width, height, r) == lookup(
                read_at(child, height),
                blocks,
                bit_width,
                height,
                r,
            ));
        },
        _ => {},
    }
}

/// A clean node that is in the store is read from the store as it is: the
/// node read holds at every place what the node holds.
pub proof fn lemma_load_back(
    node: NodeView,
    blocks: Blocks,
    bit_width: nat,
    height: nat,
    key: Seq<u8>,
)
    requires
        1 <= bit_width <= MAX_BIT_WIDTH,
        wf(node, bit_width, height),
        is_clean(node, height),
        stored(node, blocks, bit_width, height),
        blocks_fit(blocks),
        blocks.contains_key(key),
        blocks[key] == node_block(node, bit_width),
    ensures
        load_spec(blocks, key, bit_width, height) == Ok::<NodeView, ErrorView>(
            read_at(node, height),
        ),
        forall|j: nat|
            j < capacity(bit_width, height) ==> #[trigger] lookup(
                read_at(node, height),
                blocks,
                bit_width,
                height,
                j,
            ) == lookup(node, blocks, bit_width, height, j),
    decreases height, 1nat,
{
    lemma_load_read(node, blocks, bit_width, height, key);
    lemma_read_holds(node, blocks, bit_width, height);
}

/// A clean node that is in the store holds, read with no child in memory,
/// what it holds.
pub proof fn lemma_read_holds(node: NodeView, blocks: Blocks, bit_width: nat, height: nat)
    requires
        1 <= bit_width <= MAX_BIT_WIDTH,
        wf(node, bit_width, height),
        is_clean(node, height),
        stored(node, blocks, bit_width, height),
        blocks_fit(blocks),
    ensures
        forall|j: nat|
            j < capacity(bit_width, height) ==> #[trigger] lookup(
                read_at(node, height),
                blocks,
                bit_width,
                height,
                j,
            ) == lookup(node, blocks, bit_width, height, j),
    decreases height, 0nat,
{
    lemma_capacity_step(bit_width, height);
    let read = read_at(node, height);
    match node {
        NodeView::Leaf { vals } => {},
        NodeView::Link { links } => {
            if is_empty_spec(node) {
                assert forall|j: nat| j < capacity(bit_width, height) implies #[trigger] lookup(
                    read,
                    blocks,
                    bit_width,
                    height,
                    j,
                ) == lookup(node, blocks, bit_width, height, j) by {
                    lemma_empty_lookup(read, blocks, bit_width, height, j);
                    lemma_empty_lookup(node, blocks, bit_width, height, j);
                }
            } else {
                let below = (height - 1) as nat;
                assert forall|j: nat| j < capacity(bit_width, height) implies #[trigger] lookup(
                    read,
                    blocks,
                    bit_width,
                    height,
                    j,
                ) == lookup(node, blocks, bit_width, height, j) by {
                    lemma_split(bit_width, height, j);
                    let s = slot_of(bit_width, height, j) as int;
                    let r = rest_of(bit_width, height, j);
                    lemma_link_back(links[s], blocks, bit_width, below, r);
                    assert(read->Link_links[s] == (match links[s] {
                        Some(LinkView::Cid { cid, cache }) => Some(uncached(cid)),
                        _ => None,
                    }));
                }
            }
        },
    }
}

/// A clean node that is in the store, all of it in memory and with no empty
/// node below it, is read from the store with no empty node below it.
pub proof fn lemma_read_dense(node: NodeView, blocks: Blocks, bit_width: nat, height: nat)
    requires
        1 <= bit_width <= MAX_BIT_WIDTH,
        wf(node, bit_width, height),
        is_clean(node, height),
        stored(node, blocks, bit_width, height),
        blocks_fit(blocks),
        resident(node, height),
        tight(node, height),
    ensures
        dense(read_at(node, height), blocks, bit_width, height),
    decreases height,
{
    let read = read_at(node, height);
    match node {
        NodeView::Leaf { vals } => {},
        NodeView::Link { links } => {
            if !is_empty_spec(node) {
                let below = (height - 1) as nat;
                assert forall|i: int|
                    0 <= i < read->Link_links.len() && (#[trigger] read->Link_links[i]) is Some implies {
                    &&& readable(read->Link_links[i], blocks, bit_width, below)
                    &&& !is_empty_spec(child_in(read->Link_links[i], blocks, bit_width, below))
                    &&& dense(
                        child_in(read->Link_links[i], blocks, bit_width, below),
                        blocks,
                        bit_width,
                        below,
                    )
                } by {
                    match links[i] {
                        Some(LinkView::Cid { cid, cache: Some(child) }) => {
                            assert(read->Link_links[i] == Some(uncached(cid)));
                            lemma_load_read(child, blocks, bit_width, below, cid);
                            lemma_read_dense(child, blocks, bit_width, below);
                            lemma_read_occupied(child, below);
                        },
                        _ => {},
                    }
                }
            }
        },
    }
}

/// A clean node that holds something is read as a node that holds something.
pub proof fn lemma_read_occupied(node: NodeView, height: nat)
    requires
        is_clean(node, height),
        !is_empty_spec(node),
    ensures
        !is_empty_spec(read_at(node, height)),
{
    match node {
        NodeView::Leaf { vals } => {},
        NodeView::Link { links } => {
            let s = choose|s: int| 0 <= s < links.len() && (#[trigger] links[s]) is Some;
            assert(read_at(node, height)->Link_links[s] is Some);
        },
    }
}

/// What a node is read back as stands at the height of the node as the node
/// read.
pub proof fn lemma_fit_read_back(node: NodeView, bit_width: nat, height: nat)
    requires
        wf(node, bit_width, height),
    ensures
        fit_height(read_back(node), height) == Some(read_at(node, height)),
{
    match node {
        NodeView::Leaf { vals } => {},
        NodeView::Link { links } => {
            if is_empty_spec(node) {
                assert(is_empty_spec(empty_leaf(links.len())));
            }
        },
    }
}

} // verus!
