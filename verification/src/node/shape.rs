//! The one shape of a trie that is all in memory.

use crate::content_id::Cid;
use crate::index::{capacity, lemma_capacity_step, lemma_span_pos, slot_of, span, width};
use crate::node::{is_empty_spec, is_value, lookup, wf, Link, LinkView, NodeView};
use crate::store::Blocks;
use vstd::prelude::*;

verus! {

/// No child in memory is empty, at any depth: a child that holds nothing has
/// left its slot.
pub open spec fn tight(node: NodeView, height: nat) -> bool
    decreases height,
{
    match node {
        NodeView::Leaf { vals } => true,
        NodeView::Link { links } => height > 0 && forall|i: int|
            0 <= i < links.len() ==> match #[trigger] links[i] {
                Some(LinkView::Dirty(child)) => !is_empty_spec(child) && tight(
                    child,
                    (height - 1) as nat,
                ),
                Some(LinkView::Cid { cid, cache: Some(child) }) => !is_empty_spec(child) && tight(
                    child,
                    (height - 1) as nat,
                ),
                _ => true,
            },
    }
}

/// The node and all below it is in memory: no link of it stands for a block
/// that has yet to be read.
pub open spec fn resident(node: NodeView, height: nat) -> bool
    decreases height,
{
    match node {
        NodeView::Leaf { vals } => true,
        NodeView::Link { links } => height > 0 && forall|i: int|
            0 <= i < links.len() ==> match #[trigger] links[i] {
                Some(LinkView::Dirty(child)) => resident(child, (height - 1) as nat),
                Some(LinkView::Cid { cid, cache: Some(child) }) => resident(
                    child,
                    (height - 1) as nat,
                ),
                Some(LinkView::Cid { cid, cache: None }) => false,
                None => true,
            },
    }
}

/// A node in memory that is not empty, with no empty node below it, holds a
/// value.
pub proof fn lemma_tight_has_value(node: NodeView, blocks: Blocks, bit_width: nat, height: nat)
    requires
        wf(node, bit_width, height),
        resident(node, height),
        tight(node, height),
        !is_empty_spec(node),
    ensures
        exists|j: nat|
            j < capacity(bit_width, height) && is_value(
                #[trigger] lookup(node, blocks, bit_width, height, j),
            ),
    decreases height,
{
    lemma_capacity_step(bit_width, height);
    lemma_capacity_step(bit_width, 0);
    match node {
        NodeView::Leaf { vals } => {
            let i = choose|i: int| 0 <= i < vals.len() && (#[trigger] vals[i]) is Some;
            assert(is_value(lookup(node, blocks, bit_width, height, i as nat)));
        },
        NodeView::Link { links } => {
            let s = choose|s: int| 0 <= s < links.len() && (#[trigger] links[s]) is Some;
            lemma_slot_has_value(node, blocks, bit_width, height, s);
        },
    }
}

/// Below an occupied slot of a node in memory, with no empty node below it,
/// lies a value.
pub proof fn lemma_slot_has_value(
    node: NodeView,
    blocks: Blocks,
    bit_width: nat,
    height: nat,
    s: int,
)
    requires
        wf(node, bit_width, height),
        resident(node, height),
        tight(node, height),
        node is Link,
        0 <= s < node->Link_links.len(),
        node->Link_links[s] is Some,
    ensures
        exists|j: nat|
            j < capacity(bit_width, height) && slot_of(bit_width, height, j) == s && is_value(
                #[trigger] lookup(node, blocks, bit_width, height, j),
            ),
    decreases height, 0nat,
{
    lemma_capacity_step(bit_width, height);
    lemma_span_pos(bit_width, height);
    let links = node->Link_links;
    let below = (height - 1) as nat;
    let child = match links[s] {
        Some(LinkView::Dirty(child)) => child,
        Some(LinkView::Cid { cid, cache: Some(child) }) => child,
        _ => node,
    };
    lemma_tight_has_value(child, blocks, bit_width, below);
    let r = choose|r: nat|
        r < capacity(bit_width, below) && is_value(
            #[trigger] lookup(child, blocks, bit_width, below, r),
        );
    let d = span(bit_width, height);
    let j = (s * d + r) as nat;
    assert(capacity(bit_width, below) == d);
    assert((s * d + r) / (d as int) == s && (s * d + r) % (d as int) == r) by (nonlinear_arith)
        requires
            0 <= r < d,
            0 <= s,
    ;
    assert(j < capacity(bit_width, height)) by (nonlinear_arith)
        requires
            j == s * d + r,
            r < d,
            0 <= s < width(bit_width),
            capacity(bit_width, height) == width(bit_width) * d,
    ;
    assert(lookup(node, blocks, bit_width, height, j) == lookup(child, blocks, bit_width, below, r));
}

} // verus!
