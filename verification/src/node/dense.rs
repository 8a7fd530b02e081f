//! A trie with no empty node in it, in memory or in the store.

use crate::index::{
    capacity, lemma_capacity_step, lemma_span_pos, lemma_split, rest_of, slot_of, span, width,
};
use crate::content_id::block_cid;
use crate::node::edit::{child_in, delete_result, set_result};
use crate::node::flush::{
    lemma_rewritten_same, lemma_rewritten_tight, lemma_wf_shape, rewritten, store_step,
};
use crate::node::pack::{lemma_loaded_wf, load_spec};
use crate::node::shape::{resident, tight};
use crate::node::{
    empty_leaf, empty_links, is_empty_spec, is_value, lookup, lookup_link, wf, LinkView, NodeView,
};
use crate::reading::no_collisions;
use crate::store::Blocks;
use vstd::prelude::*;

verus! {

/// The child behind the slot, which stands at `height`, is at hand: it is in
/// memory, or the store holds a block for it that reads as a node.
pub open spec fn readable(slot: Option<LinkView>, blocks: Blocks, bit_width: nat, height: nat)
    -> bool {
    slot matches Some(LinkView::Cid { cid, cache: None }) ==> load_spec(
        blocks,
        cid,
        bit_width,
        height,
    ) is Ok
}

/// No child below the node is empty, at any depth, in memory or in the store,
/// and every child in the store can be read: a child that holds nothing has
/// left its slot.
pub open spec fn dense(node: NodeView, blocks: Blocks, bit_width: nat, height: nat) -> bool
    decreases height,
{
    match node {
        NodeView::Leaf { vals } => true,
        NodeView::Link { links } => height > 0 && forall|i: int|
            0 <= i < links.len() && (#[trigger] links[i]) is Some ==> {
                &&& readable(links[i], blocks, bit_width, (height - 1) as nat)
                &&& !is_empty_spec(child_in(links[i], blocks, bit_width, (height - 1) as nat))
                &&& dense(
                    child_in(links[i], blocks, bit_width, (height - 1) as nat),
                    blocks,
                    bit_width,
                    (height - 1) as nat,
                )
            },
    }
}

/// The child behind an occupied slot of a node in order is in order.
pub proof fn lemma_child_wf(node: NodeView, blocks: Blocks, bit_width: nat, height: nat, s: int)
    requires
        height >= 1,
        wf(node, bit_width, height),
        0 <= s < node->Link_links.len(),
        readable(node->Link_links[s], blocks, bit_width, (height - 1) as nat),
    ensures
        wf(
            child_in(node->Link_links[s], blocks, bit_width, (height - 1) as nat),
            bit_width,
            (height - 1) as nat,
        ),
{
    match node->Link_links[s] {
        Some(LinkView::Cid { cid, cache: None }) => {
            lemma_loaded_wf(blocks, cid, bit_width, (height - 1) as nat);
        },
        _ => {},
    }
}

/// A trie that is all in memory, with no empty node in memory, has no empty
/// node at all.
pub proof fn lemma_tight_dense(node: NodeView, blocks: Blocks, bit_width: nat, height: nat)
    requires
        wf(node, bit_width, height),
        resident(node, height),
        tight(node, height),
    ensures
        dense(node, blocks, bit_width, height),
    decreases height,
{
    match node {
        NodeView::Leaf { vals } => {},
        NodeView::Link { links } => {
            assert forall|i: int| 0 <= i < links.len() && (#[trigger] links[i]) is Some implies {
                &&& readable(links[i], blocks, bit_width, (height - 1) as nat)
                &&& !is_empty_spec(child_in(links[i], blocks, bit_width, (height - 1) as nat))
                &&& dense(
                    child_in(links[i], blocks, bit_width, (height - 1) as nat),
                    blocks,
                    bit_width,
                    (height - 1) as nat,
                )
            } by {
                lemma_tight_dense(
                    child_in(links[i], blocks, bit_width, (height - 1) as nat),
                    blocks,
                    bit_width,
                    (height - 1) as nat,
                );
            }
        },
    }
}

/// A node that is not empty, with no empty node below it, holds a value.
pub proof fn lemma_dense_has_value(node: NodeView, blocks: Blocks, bit_width: nat, height: nat)
    requires
        wf(node, bit_width, height),
        dense(node, blocks, bit_width, height),
        !is_empty_spec(node),
    ensures
        exists|j: nat|
            j < capacity(bit_width, height) && is_value(
                #[trigger] lookup(node, blocks, bit_width, height, j),
            ),
    decreases height, 1nat,
{
    lemma_capacity_step(bit_width, height);
    lemma_capacity_step(bit_width, 0);
    match node {
        NodeView::Leaf { vals } => {
            let i = choose|i: int| 0 <= i < vals.len() && (#[trigger] vals[i]) is Some;
            assert(is_value(lookup(node, blocks, bit_width, height, i as nat)));
        },
        NodeView::Link { links } => {
            let s = choose|s: int| 0 <= s < links.len() && (#[trigger] links[s]) is Some;
            lemma_dense_slot_has_value(node, blocks, bit_width, height, s);
        },
    }
}

/// Below an occupied slot of a node with no empty node below it lies a value.
pub proof fn lemma_dense_slot_has_value(
    node: NodeView,
    blocks: Blocks,
    bit_width: nat,
    height: nat,
    s: int,
)
    requires
        wf(node, bit_width, height),
        dense(node, blocks, bit_width, height),
        node is Link,
        0 <= s < node->Link_links.len(),
        node->Link_links[s] is Some,
    ensures
        exists|j: nat|
            j < capacity(bit_width, height) && slot_of(bit_width, height, j) == s && is_value(
                #[trigger] lookup(node, blocks, bit_width, height, j),
            ),
    decreases height, 0nat,
{
    lemma_capacity_step(bit_width, height);
    lemma_span_pos(bit_width, height);
    let links = node->Link_links;
    let below = (height - 1) as nat;
    let child = child_in(links[s], blocks, bit_width, below);
    lemma_child_wf(node, blocks, bit_width, height, s);
    lemma_dense_has_value(child, blocks, bit_width, below);
    let r = choose|r: nat|
        r < capacity(bit_width, below) && is_value(
            #[trigger] lookup(child, blocks, bit_width, below, r),
        );
    let d = span(bit_width, height);
    let j = (s * d + r) as nat;
    assert(capacity(bit_width, below) == d);
    assert((s * d + r) / (d as int) == s && (s * d + r) % (d as int) == r) by (nonlinear_arith)
        requires
            0 <= r < d,
            0 <= s,
    ;
    assert(j < capacity(bit_width, height)) by (nonlinear_arith)
        requires
            j == s * d + r,
            r < d,
            0 <= s < width(bit_width),
            capacity(bit_width, height) == width(bit_width) * d,
    ;
    assert(lookup_link(links[s], blocks, bit_width, below, r) == lookup(
        child,
        blocks,
        bit_width,
        below,
        r,
    ));
    assert(lookup(node, blocks, bit_width, height, j) == lookup(child, blocks, bit_width, below, r));
}

/// Where every child in the store can be read, the way to an index ends in
/// no error.
pub proof fn lemma_dense_lookup(node: NodeView, blocks: Blocks, bit_width: nat, height: nat, i: nat)
    requires
        wf(node, bit_width, height),
        dense(node, blocks, bit_width, height),
        i < capacity(bit_width, height),
    ensures
        lookup(node, blocks, bit_width, height, i) is Ok,
    decreases height,
{
    lemma_capacity_step(bit_width, height);
    match node {
        NodeView::Leaf { vals } => {},
        NodeView::Link { links } => {
            lemma_split(bit_width, height, i);
            let below = (height - 1) as nat;
            let s = slot_of(bit_width, height, i) as int;
            let rest = rest_of(bit_width, height, i);
            if links[s] is Some {
                lemma_child_wf(node, blocks, bit_width, height, s);
                let child = child_in(links[s], blocks, bit_width, below);
                lemma_dense_lookup(child, blocks, bit_width, below, rest);
                assert(lookup_link(links[s], blocks, bit_width, below, rest) == lookup(
                    child,
                    blocks,
                    bit_width,
                    below,
                    rest,
                ));
            }
        },
    }
}

/// A node with nothing in it has no empty node below it.
pub proof fn lemma_empty_dense(blocks: Blocks, bit_width: nat, height: nat)
    ensures
        dense(child_in(None, blocks, bit_width, height), blocks, bit_width, height),
        is_empty_spec(child_in(None, blocks, bit_width, height)),
        wf(child_in(None, blocks, bit_width, height), bit_width, height),
{
}

/// Setting a value leaves no node empty: the node is not empty afterwards,
/// and where it had no empty node below it, it has none.
pub proof fn lemma_set_dense(
    node: NodeView,
    blocks: Blocks,
    bit_width: nat,
    height: nat,
    i: nat,
    val: Seq<u8>,
)
    requires
        wf(node, bit_width, height),
        dense(node, blocks, bit_width, height),
        i < capacity(bit_width, height),
    ensures
        dense(set_result(node, blocks, bit_width, height, i, val), blocks, bit_width, height),
        !is_empty_spec(set_result(node, blocks, bit_width, height, i, val)),
        wf(set_result(node, blocks, bit_width, height, i, val), bit_width, height),
    decreases height,
{
    lemma_capacity_step(bit_width, height);
    lemma_capacity_step(bit_width, 0);
    let after = set_result(node, blocks, bit_width, height, i, val);
    match node {
        NodeView::Leaf { vals } => {
            assert(after->Leaf_vals[i as int] is Some);
        },
        NodeView::Link { links } => {
            lemma_split(bit_width, height, i);
            let below = (height - 1) as nat;
            let s = slot_of(bit_width, height, i) as int;
            let rest = rest_of(bit_width, height, i);
            let child = child_in(links[s], blocks, bit_width, below);
            if links[s] is Some {
                lemma_child_wf(node, blocks, bit_width, height, s);
            } else {
                lemma_empty_dense(blocks, bit_width, below);
            }
            lemma_set_dense(child, blocks, bit_width, below, rest, val);
            let grown = set_result(child, blocks, bit_width, below, rest, val);
            assert(after->Link_links == links.update(s, Some(LinkView::Dirty(grown))));
            assert(after->Link_links[s] is Some);
            assert forall|k: int|
                0 <= k < after->Link_links.len() && (#[trigger] after->Link_links[k]) is Some implies {
                &&& readable(after->Link_links[k], blocks, bit_width, below)
                &&& !is_empty_spec(child_in(after->Link_links[k], blocks, bit_width, below))
                &&& dense(
                    child_in(after->Link_links[k], blocks, bit_width, below),
                    blocks,
                    bit_width,
                    below,
                )
            } by {
                if k != s {
                    assert(after->Link_links[k] == links[k]);
                }
            }
            assert forall|k: int| 0 <= k < after->Link_links.len() implies match #[trigger] after->Link_links[k] {
                Some(LinkView::Dirty(c)) => wf(c, bit_width, below),
                Some(LinkView::Cid { cid, cache: Some(c) }) => crate::content_id::is_cid(cid) && wf(
                    c,
                    bit_width,
                    below,
                ) && crate::node::is_clean(c, below),
                Some(LinkView::Cid { cid, cache: None }) => crate::content_id::is_cid(cid),
                None => true,
            } by {
                if k != s {
                    assert(after->Link_links[k] == links[k]);
                }
            }
        },
    }
}

/// Taking a value out leaves no node empty but, at most, the node itself:
/// where it had no empty node below it, it has none.
pub proof fn lemma_delete_dense(
    node: NodeView,
    blocks: Blocks,
    bit_width: nat,
    height: nat,
    i: nat,
)
    requires
        wf(node, bit_width, height),
        dense(node, blocks, bit_width, height),
        i < capacity(bit_width, height),
    ensures
        dense(delete_result(node, blocks, bit_width, height, i), blocks, bit_width, height),
        wf(delete_result(node, blocks, bit_width, height, i), bit_width, height),
    decreases height,
{
    lemma_capacity_step(bit_width, height);
    lemma_capacity_step(bit_width, 0);
    let after = delete_result(node, blocks, bit_width, height, i);
    match node {
        NodeView::Leaf { vals } => {},
        NodeView::Link { links } => {
            lemma_split(bit_width, height, i);
            let below = (height - 1) as nat;
            let s = slot_of(bit_width, height, i) as int;
            let rest = rest_of(bit_width, height, i);
            let child = child_in(links[s], blocks, bit_width, below);
            if links[s] is Some {
                lemma_child_wf(node, blocks, bit_width, height, s);
            } else {
                lemma_empty_dense(blocks, bit_width, below);
            }
            lemma_delete_dense(child, blocks, bit_width, below, rest);
            let cut = delete_result(child, blocks, bit_width, below, rest);
            let put: Option<LinkView> = if is_empty_spec(cut) {
                None
            } else {
                Some(LinkView::Dirty(cut))
            };
            assert(after->Link_links == links.update(s, put));
            assert forall|k: int|
                0 <= k < after->Link_links.len() && (#[trigger] after->Link_links[k]) is Some implies {
                &&& readable(after->Link_links[k], blocks, bit_width, below)
                &&& !is_empty_spec(child_in(after->Link_links[k], blocks, bit_width, below))
                &&& dense(
                    child_in(after->Link_links[k], blocks, bit_width, below),
                    blocks,
                    bit_width,
                    below,
                )
            } by {
                if k != s {
                    assert(after->Link_links[k] == links[k]);
                }
            }
            assert forall|k: int| 0 <= k < after->Link_links.len() implies match #[trigger] after->Link_links[k] {
                Some(LinkView::Dirty(c)) => wf(c, bit_width, below),
                Some(LinkView::Cid { cid, cache: Some(c) }) => crate::content_id::is_cid(cid) && wf(
                    c,
                    bit_width,
                    below,
                ) && crate::node::is_clean(c, below),
                Some(LinkView::Cid { cid, cache: None }) => crate::content_id::is_cid(cid),
                None => true,
            } by {
                if k != s {
                    assert(after->Link_links[k] == links[k]);
                }
            }
        },
    }
}

/// Every block of the store stands under the identifier of its content.
pub open spec fn addressed(blocks: Blocks) -> bool {
    forall|k: Seq<u8>| blocks.contains_key(k) ==> block_cid(#[trigger] blocks[k]) == k
}

/// The store `after` holds every block of `before`, as it was.
pub open spec fn kept(before: Blocks, after: Blocks) -> bool {
    forall|k: Seq<u8>| #[trigger]
        before.contains_key(k) ==> after.contains_key(k) && after[k] == before[k]
}

/// Where no two blocks have one identifier, a store whose blocks stand under
/// the identifiers of their content keeps them as blocks are written to it.
pub proof fn lemma_step_kept(before: Blocks, after: Blocks)
    requires
        store_step(before, after),
        addressed(before),
        no_collisions(),
    ensures
        kept(before, after),
        addressed(after),
{
    assert forall|k: Seq<u8>| #[trigger] before.contains_key(k) implies after.contains_key(k)
        && after[k] == before[k] by {
        assert(after.contains_key(k));
        assert(block_cid(before[k]) == k);
        if after[k] != before[k] {
            assert(block_cid(after[k]) == block_cid(before[k]));
        }
    }
    assert forall|k: Seq<u8>| after.contains_key(k) implies block_cid(#[trigger] after[k]) == k by {
        if before.contains_key(k) && after[k] == before[k] {
            assert(block_cid(before[k]) == k);
        }
    }
}

/// A child read from a store that has kept its blocks is the child as it was
/// read before.
pub proof fn lemma_child_kept(
    slot: Option<LinkView>,
    before: Blocks,
    after: Blocks,
    bit_width: nat,
    height: nat,
)
    requires
        kept(before, after),
        readable(slot, before, bit_width, height),
    ensures
        readable(slot, after, bit_width, height),
        child_in(slot, after, bit_width, height) == child_in(slot, before, bit_width, height),
{
    match slot {
        Some(LinkView::Cid { cid, cache: None }) => {
            assert(before.contains_key(cid));
        },
        _ => {},
    }
}

/// A trie with no empty node in it, some of whose dirty children were
/// written to a store that has kept its blocks, has no empty node in it, and
/// holds what it held.
pub proof fn lemma_rewritten_dense(
    before: NodeView,
    after: NodeView,
    blocks_before: Blocks,
    blocks_after: Blocks,
    bit_width: nat,
    height: nat,
)
    requires
        rewritten(before, after, height),
        wf(before, bit_width, height),
        dense(before, blocks_before, bit_width, height),
        kept(blocks_before, blocks_after),
    ensures
        dense(after, blocks_after, bit_width, height),
        is_empty_spec(after) == is_empty_spec(before),
        forall|i: nat|
            i < capacity(bit_width, height) ==> #[trigger] lookup(
                after,
                blocks_after,
                bit_width,
                height,
                i,
            ) == lookup(before, blocks_before, bit_width, height, i),
    decreases height,
{
    lemma_capacity_step(bit_width, height);
    lemma_rewritten_tight(before, after, height);
    match before {
        NodeView::Leaf { vals } => {},
        NodeView::Link { links } => {
            let below = (height - 1) as nat;
            let written = after->Link_links;
            assert forall|s: int| 0 <= s < links.len() implies {
                &&& (#[trigger] written[s]) is Some == links[s] is Some
                &&& links[s] is Some ==> {
                    &&& readable(written[s], blocks_after, bit_width, below)
                    &&& !is_empty_spec(child_in(written[s], blocks_after, bit_width, below))
                    &&& dense(
                        child_in(written[s], blocks_after, bit_width, below),
                        blocks_after,
                        bit_width,
                        below,
                    )
                    &&& forall|r: nat|
                        r < capacity(bit_width, below) ==> #[trigger] lookup(
                            child_in(written[s], blocks_after, bit_width, below),
                            blocks_after,
                            bit_width,
                            below,
                            r,
                        ) == lookup(
                            child_in(links[s], blocks_before, bit_width, below),
                            blocks_before,
                            bit_width,
                            below,
                            r,
                        )
                }
            } by {
                let slot = links[s];
                if slot is Some {
                    let child = child_in(slot, blocks_before, bit_width, below);
                    lemma_child_wf(before, blocks_before, bit_width, height, s);
                    match slot {
                        Some(LinkView::Dirty(_)) => {
                            let next = child_in(written[s], blocks_after, bit_width, below);
                            lemma_rewritten_dense(
                                child,
                                next,
                                blocks_before,
                                blocks_after,
                                bit_width,
                                below,
                            );
                        },
                        _ => {
                            assert(written[s] == slot);
                            lemma_child_kept(slot, blocks_before, blocks_after, bit_width, below);
                            lemma_wf_shape(child, bit_width, below);
                            lemma_rewritten_same(child, below);
                            lemma_rewritten_dense(
                                child,
                                child,
                                blocks_before,
                                blocks_after,
                                bit_width,
                                below,
                            );
                        },
                    }
                }
            }
            assert forall|i: nat| i < capacity(bit_width, height) implies #[trigger] lookup(
                after,
                blocks_after,
                bit_width,
                height,
                i,
            ) == lookup(before, blocks_before, bit_width, height, i) by {
                lemma_split(bit_width, height, i);
                let s = slot_of(bit_width, height, i) as int;
                let r = rest_of(bit_width, height, i);
                assert((written[s]) is Some == links[s] is Some);
                if links[s] is Some {
                    assert(lookup_link(written[s], blocks_after, bit_width, below, r) == lookup(
                        child_in(written[s], blocks_after, bit_width, below),
                        blocks_after,
                        bit_width,
                        below,
                        r,
                    ));
                    assert(lookup_link(links[s], blocks_before, bit_width, below, r) == lookup(
                        child_in(links[s], blocks_before, bit_width, below),
                        blocks_before,
                        bit_width,
                        below,
                        r,
                    ));
                }
            }
        },
    }
}

} // verus!
