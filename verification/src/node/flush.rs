//! Writing the dirty children of a node to the store.

use crate::codec::encode_node;
use crate::content_id::{block_cid, is_cid, Cid};
use crate::error::Error;
use crate::index::{rest_of, slot_of, valid_bit_width};
use crate::node::{is_clean, is_empty_spec, lookup, slot_view, wf, Link, LinkView, Node, NodeView};
use crate::node::edit::{in_memory, lemma_in_memory_lookup};
use crate::node::pack::{links_clean, node_block, node_cid};
use crate::node::shape::{resident, tight};
use crate::store::{put_block, Blocks, Blockstore};
use vstd::prelude::*;

verus! {

/// The node once every dirty link of it and below it was written: in place of
/// a dirty link stands a clean one, with the identifier of the child's block and
/// the child in memory.
pub open spec fn flushed(node: NodeView, bit_width: nat, height: nat) -> NodeView
    decreases height, 1nat,
{
    match node {
        NodeView::Leaf { vals } => node,
        NodeView::Link { links } => if height == 0 {
            node
        } else {
            NodeView::Link {
                links: Seq::new(
                    links.len(),
                    |i: int| flushed_slot(links[i], bit_width, (height - 1) as nat),
                ),
            }
        },
    }
}

/// The slot once its child was written; the child stands at `height`.
pub open spec fn flushed_slot(slot: Option<LinkView>, bit_width: nat, height: nat) -> Option<
    LinkView,
>
    decreases height, 2nat,
{
    match slot {
        Some(LinkView::Dirty(child)) => Some(
            LinkView::Cid {
                cid: node_cid(flushed(child, bit_width, height), bit_width),
                cache: Some(flushed(child, bit_width, height)),
            },
        ),
        _ => slot,
    }
}

/// What the store holds once every dirty child of the node and below it was
/// written, children before parents and the slots in their order.
pub open spec fn flush_writes(node: NodeView, blocks: Blocks, bit_width: nat, height: nat) -> Blocks
    decreases height, 0nat, 0nat,
{
    match node {
        NodeView::Leaf { vals } => blocks,
        NodeView::Link { links } => if height == 0 {
            blocks
        } else {
            slots_written(links, links.len(), blocks, bit_width, (height - 1) as nat)
        },
    }
}

/// What the store holds once the dirty children in the first `k` slots were
/// written; the children stand at `height`.
pub open spec fn slots_written(
    links: Seq<Option<LinkView>>,
    k: nat,
    blocks: Blocks,
    bit_width: nat,
    height: nat,
) -> Blocks
    decreases height, 1nat, k,
{
    if k == 0 || k > links.len() {
        blocks
    } else {
        let before = slots_written(links, (k - 1) as nat, blocks, bit_width, height);
        match links[k - 1] {
            Some(LinkView::Dirty(child)) => flush_writes(child, before, bit_width, height).insert(
                node_cid(flushed(child, bit_width, height), bit_width),
                node_block(flushed(child, bit_width, height), bit_width),
            ),
            _ => before,
        }
    }
}

/// What a store may become of what it was: it keeps every identifier, and a
/// block is new or changed only where its identifier is that of its content.
pub open spec fn store_step(before: Blocks, after: Blocks) -> bool {
    &&& forall|k: Seq<u8>| before.contains_key(k) ==> #[trigger] after.contains_key(k)
    &&& forall|k: Seq<u8>| #[trigger]
        after.contains_key(k) ==> (before.contains_key(k) && after[k] == before[k]) || block_cid(
            after[k],
        ) == k
}

/// Every clean link with its child in memory names the block of that child,
/// and the store holds under that name a block with that name for its content.
pub open spec fn persisted(node: NodeView, blocks: Blocks, bit_width: nat, height: nat) -> bool
    decreases height,
{
    match node {
        NodeView::Leaf { vals } => true,
        NodeView::Link { links } => height > 0 && forall|i: int|
            0 <= i < links.len() ==> match #[trigger] links[i] {
                Some(LinkView::Dirty(child)) => persisted(
                    child,
                    blocks,
                    bit_width,
                    (height - 1) as nat,
                ),
                Some(LinkView::Cid { cid, cache: Some(child) }) => cid == node_cid(child, bit_width)
                    && blocks.contains_key(cid) && block_cid(blocks[cid]) == cid && persisted(
                    child,
                    blocks,
                    bit_width,
                    (height - 1) as nat,
                ),
                _ => true,
            },
    }
}

/// What is persisted stays persisted as the store goes on.
pub proof fn lemma_persisted_step(
    node: NodeView,
    before: Blocks,
    after: Blocks,
    bit_width: nat,
    height: nat,
)
    requires
        persisted(node, before, bit_width, height),
        store_step(before, after),
    ensures
        persisted(node, after, bit_width, height),
    decreases height,
{
    match node {
        NodeView::Leaf { vals } => {},
        NodeView::Link { links } => {
            assert forall|i: int| 0 <= i < links.len() implies match #[trigger] links[i] {
                Some(LinkView::Dirty(child)) => persisted(
                    child,
                    after,
                    bit_width,
                    (height - 1) as nat,
                ),
                Some(LinkView::Cid { cid, cache: Some(child) }) => cid == node_cid(child, bit_width)
                    && after.contains_key(cid) && block_cid(after[cid]) == cid && persisted(
                    child,
                    after,
                    bit_width,
                    (height - 1) as nat,
                ),
                _ => true,
            } by {
                match links[i] {
                    Some(LinkView::Dirty(child)) => {
                        lemma_persisted_step(child, before, after, bit_width, (height - 1) as nat);
                    },
                    Some(LinkView::Cid { cid, cache: Some(child) }) => {
                        lemma_persisted_step(child, before, after, bit_width, (height - 1) as nat);
                        assert(after.contains_key(cid));
                    },
                    _ => {},
                }
            }
        },
    }
}

/// The slot has the shape of its place.
pub open spec fn slot_wf(slot: Option<LinkView>, bit_width: nat, height: nat) -> bool {
    match slot {
        Some(LinkView::Dirty(child)) => wf(child, bit_width, height),
        Some(LinkView::Cid { cid, cache: Some(child) }) => is_cid(cid) && wf(
            child,
            bit_width,
            height,
        ) && is_clean(child, height),
        Some(LinkView::Cid { cid, cache: None }) => is_cid(cid),
        None => true,
    }
}

/// What is in memory below the slot is persisted.
pub open spec fn slot_persisted(slot: Option<LinkView>, blocks: Blocks, bit_width: nat, height: nat)
    -> bool {
    match slot {
        Some(LinkView::Dirty(child)) => persisted(child, blocks, bit_width, height),
        Some(LinkView::Cid { cid, cache: Some(child) }) => cid == node_cid(child, bit_width)
            && blocks.contains_key(cid) && block_cid(blocks[cid]) == cid && persisted(
            child,
            blocks,
            bit_width,
            height,
        ),
        _ => true,
    }
}

/// The node `after` is the node `before` with some of its dirty children
/// written: it holds what `before` holds, a child that was dirty is the same
/// child, dirty or clean, and a clean link is as it was.
pub open spec fn rewritten(before: NodeView, after: NodeView, height: nat) -> bool
    decreases height,
{
    match before {
        NodeView::Leaf { vals } => after == before,
        NodeView::Link { links } => height > 0 && after is Link && after->Link_links.len()
            == links.len() && forall|i: int|
            0 <= i < links.len() ==> match #[trigger] links[i] {
                Some(LinkView::Dirty(child)) => match after->Link_links[i] {
                    Some(LinkView::Dirty(written)) => rewritten(
                        child,
                        written,
                        (height - 1) as nat,
                    ),
                    Some(LinkView::Cid { cid, cache: Some(written) }) => rewritten(
                        child,
                        written,
                        (height - 1) as nat,
                    ),
                    _ => false,
                },
                other => after->Link_links[i] == other,
            },
    }
}

/// A node is itself with none of its children written.
pub proof fn lemma_rewritten_same(node: NodeView, height: nat)
    requires
        wf_shape(node, height),
    ensures
        rewritten(node, node, height),
    decreases height,
{
    match node {
        NodeView::Leaf { vals } => {},
        NodeView::Link { links } => {
            assert forall|i: int| 0 <= i < links.len() implies match #[trigger] links[i] {
                Some(LinkView::Dirty(child)) => match node->Link_links[i] {
                    Some(LinkView::Dirty(written)) => rewritten(child, written, (height - 1) as nat),
                    Some(LinkView::Cid { cid, cache: Some(written) }) => rewritten(
                        child,
                        written,
                        (height - 1) as nat,
                    ),
                    _ => false,
                },
                other => node->Link_links[i] == other,
            } by {
                match links[i] {
                    Some(LinkView::Dirty(child)) => {
                        lemma_rewritten_same(child, (height - 1) as nat);
                    },
                    _ => {},
                }
            }
        },
    }
}

/// Leaves stand at height 0 and nodes of links above, at every depth that is
/// dirty.
pub open spec fn wf_shape(node: NodeView, height: nat) -> bool
    decreases height,
{
    match node {
        NodeView::Leaf { vals } => height == 0,
        NodeView::Link { links } => height > 0 && forall|i: int|
            0 <= i < links.len() ==> match #[trigger] links[i] {
                Some(LinkView::Dirty(child)) => wf_shape(child, (height - 1) as nat),
                _ => true,
            },
    }
}

/// A node in order has its leaves at height 0 and its nodes of links above.
pub proof fn lemma_wf_shape(node: NodeView, bit_width: nat, height: nat)
    requires
        wf(node, bit_width, height),
    ensures
        wf_shape(node, height),
    decreases height,
{
    match node {
        NodeView::Leaf { vals } => {},
        NodeView::Link { links } => {
            assert forall|i: int| 0 <= i < links.len() implies match #[trigger] links[i] {
                Some(LinkView::Dirty(child)) => wf_shape(child, (height - 1) as nat),
                _ => true,
            } by {
                match links[i] {
                    Some(LinkView::Dirty(child)) => {
                        lemma_wf_shape(child, bit_width, (height - 1) as nat);
                    },
                    _ => {},
                }
            }
        },
    }
}

/// What was found on a way that is in memory is found after some children
/// were written, whatever the store holds.
pub proof fn lemma_rewritten_lookup(
    before: NodeView,
    after: NodeView,
    blocks_before: Blocks,
    blocks_after: Blocks,
    bit_width: nat,
    height: nat,
    i: nat,
)
    requires
        rewritten(before, after, height),
        in_memory(before, bit_width, height, i),
    ensures
        in_memory(after, bit_width, height, i),
        lookup(after, blocks_after, bit_width, height, i) == lookup(
            before,
            blocks_before,
            bit_width,
            height,
            i,
        ),
    decreases height,
{
    match before {
        NodeView::Leaf { vals } => {},
        NodeView::Link { links } => {
            let slot = slot_of(bit_width, height, i);
            if slot < links.len() {
                let rest = rest_of(bit_width, height, i);
                let below = (height - 1) as nat;
                match links[slot as int] {
                    Some(LinkView::Dirty(child)) => {
                        match after->Link_links[slot as int] {
                            Some(LinkView::Dirty(written)) => {
                                lemma_rewritten_lookup(
                                    child,
                                    written,
                                    blocks_before,
                                    blocks_after,
                                    bit_width,
                                    below,
                                    rest,
                                );
                            },
                            Some(LinkView::Cid { cid, cache: Some(written) }) => {
                                lemma_rewritten_lookup(
                                    child,
                                    written,
                                    blocks_before,
                                    blocks_after,
                                    bit_width,
                                    below,
                                    rest,
                                );
                            },
                            _ => {},
                        }
                    },
                    Some(LinkView::Cid { cid, cache: Some(child) }) => {
                        lemma_in_memory_lookup(
                            child,
                            blocks_before,
                            blocks_after,
                            bit_width,
                            below,
                            rest,
                        );
                    },
                    _ => {},
                }
            }
        },
    }
}

/// What a slot may become as the children of its node are written.
pub open spec fn slot_rewritten(before: Option<LinkView>, after: Option<LinkView>, height: nat)
    -> bool {
    match before {
        Some(LinkView::Dirty(child)) => match after {
            Some(LinkView::Dirty(written)) => rewritten(child, written, height),
            Some(LinkView::Cid { cid, cache: Some(written) }) => rewritten(child, written, height),
            _ => false,
        },
        other => after == other,
    }
}

/// The slot has its leaves at height 0 and its nodes of links above.
pub open spec fn slot_shape(slot: Option<LinkView>, height: nat) -> bool {
    match slot {
        Some(LinkView::Dirty(child)) => wf_shape(child, height),
        _ => true,
    }
}

/// What is below the slot is in memory.
pub open spec fn slot_resident(slot: Option<LinkView>, height: nat) -> bool {
    match slot {
        Some(LinkView::Dirty(child)) => resident(child, height),
        Some(LinkView::Cid { cid, cache: Some(child) }) => resident(child, height),
        Some(LinkView::Cid { cid, cache: None }) => false,
        None => true,
    }
}

/// Nothing in the slot or below it is dirty.
pub open spec fn slot_clean(slot: Option<LinkView>, height: nat) -> bool {
    match slot {
        Some(LinkView::Dirty(_)) => false,
        Some(LinkView::Cid { cid, cache: Some(child) }) => is_clean(child, height),
        _ => true,
    }
}

/// What is persisted below a slot stays persisted as the store goes on.
proof fn lemma_slot_persisted_step(
    slot: Option<LinkView>,
    before: Blocks,
    after: Blocks,
    bit_width: nat,
    height: nat,
)
    requires
        slot_persisted(slot, before, bit_width, height),
        store_step(before, after),
    ensures
        slot_persisted(slot, after, bit_width, height),
{
    match slot {
        Some(LinkView::Dirty(child)) => {
            lemma_persisted_step(child, before, after, bit_width, height);
        },
        Some(LinkView::Cid { cid, cache: Some(child) }) => {
            lemma_persisted_step(child, before, after, bit_width, height);
            assert(after.contains_key(cid));
        },
        _ => {},
    }
}

/// A node that is clean has no dirty link in its own slots.
pub proof fn lemma_clean_links(node: NodeView, height: nat)
    requires
        is_clean(node, height),
    ensures
        links_clean(node),
{
}

impl Node {
    /// Writes every dirty child below this node to the store, children before
    /// parents, and makes its link clean, with the child kept in memory. Where
    /// the store fails, what was written stays written and the rest stays dirty.
    #[verifier::rlimit(30)]
    pub fn flush<BS: Blockstore>(&mut self, bs: &mut BS, height: u32, bit_width: u32) -> (r: Result<
        (),
        Error,
    >)
        requires
            valid_bit_width(bit_width),
            wf(old(self)@, bit_width as nat, height as nat),
            persisted(old(self)@, old(bs).blocks(), bit_width as nat, height as nat),
        ensures
            wf(final(self)@, bit_width as nat, height as nat),
            persisted(final(self)@, final(bs).blocks(), bit_width as nat, height as nat),
            store_step(old(bs).blocks(), final(bs).blocks()),
            final(bs).reliable() == old(bs).reliable(),
            old(bs).reliable() ==> r is Ok,
            r matches Err(e) ==> e@ is BlockStore,
            r is Ok ==> final(self)@ == flushed(old(self)@, bit_width as nat, height as nat)
                && is_clean(final(self)@, height as nat) && final(bs).blocks() == flush_writes(
                old(self)@,
                old(bs).blocks(),
                bit_width as nat,
                height as nat,
            ),
            resident(old(self)@, height as nat) ==> resident(final(self)@, height as nat),
            rewritten(old(self)@, final(self)@, height as nat),
        decreases height,
    {
        let ghost before = self@;
        let ghost w = bit_width as nat;
        let ghost below = (height - 1) as nat;
        let ghost start = bs.blocks();
        proof {
            lemma_wf_shape(before, w, height as nat);
        }
        let r = match self {
            Node::Leaf { vals } => Ok(()),
            Node::Link { links } => {
                let ghost old_links = before->Link_links;
                let n = links.len();
                let mut failure: Option<Error> = None;
                let mut k: usize = 0;
                proof {
                    assert forall|j: int| 0 <= j < n implies slot_view(#[trigger] links@[j])
                        == old_links[j] && slot_wf(old_links[j], w, below) && slot_persisted(
                        old_links[j],
                        start,
                        w,
                        below,
                    ) && (resident(before, height as nat) ==> slot_resident(old_links[j], below))
                        && slot_shape(old_links[j], below) && slot_rewritten(
                        old_links[j],
                        old_links[j],
                        below,
                    ) by {
                        match old_links[j] {
                            Some(LinkView::Dirty(child)) => {
                                lemma_rewritten_same(child, below);
                            },
                            _ => {},
                        }
                    }
                }
                while k < n && failure.is_none()
                    invariant
                        k <= n,
                        n == links@.len(),
                        n == old_links.len(),
                        height > 0,
                        valid_bit_width(bit_width),
                        w == bit_width as nat,
                        below == (height - 1) as nat,
                        store_step(start, bs.blocks()),
                        bs.reliable() == old(bs).reliable(),
                        bs.reliable() ==> failure is None,
                        failure matches Some(e) ==> e@ is BlockStore,
                        forall|j: int| 0 <= j < n ==> slot_wf(#[trigger] old_links[j], w, below),
                        forall|j: int|
                            0 <= j < n ==> slot_wf(slot_view(#[trigger] links@[j]), w, below),
                        forall|j: int|
                            0 <= j < n ==> slot_persisted(
                                slot_view(#[trigger] links@[j]),
                                bs.blocks(),
                                w,
                                below,
                            ),
                        failure is None ==> forall|j: int|
                            0 <= j < k ==> slot_view(#[trigger] links@[j]) == flushed_slot(
                                old_links[j],
                                w,
                                below,
                            ) && slot_clean(slot_view(links@[j]), below),
                        failure is None ==> bs.blocks() == slots_written(
                            old_links,
                            k as nat,
                            start,
                            w,
                            below,
                        ),
                        forall|j: int| k <= j < n ==> slot_view(#[trigger] links@[j]) == old_links[j],
                        resident(before, height as nat) ==> forall|j: int|
                            0 <= j < n ==> slot_resident(slot_view(#[trigger] links@[j]), below),
                        forall|j: int| 0 <= j < n ==> slot_shape(#[trigger] old_links[j], below),
                        forall|j: int|
                            0 <= j < n ==> slot_rewritten(
                                #[trigger] old_links[j],
                                slot_view(links@[j]),
                                below,
                            ),
                    decreases n - k,
                {
                    let ghost blocks_before = bs.blocks();
                    let ghost links_before = links@;
                    let taken = links[k].take();
                    match taken {
                        Some(Link::Dirty(child)) => {
                            let mut node = *child;
                            match node.flush(bs, height - 1, bit_width) {
                                Err(e) => {
                                    links[k] = Some(Link::Dirty(Box::new(node)));
                                    failure = Some(e);
                                },
                                Ok(()) => {
                                    proof {
                                        lemma_clean_links(node@, below);
                                    }
                                    let collapsed = node.collapse(bit_width);
                                    let bytes = encode_node(&collapsed);
                                    let ghost blocks_mid = bs.blocks();
                                    match put_block(bs, bytes.as_slice()) {
                                        Ok(cid) => {
                                            proof {
                                                lemma_persisted_step(
                                                    node@,
                                                    blocks_mid,
                                                    bs.blocks(),
                                                    w,
                                                    below,
                                                );
                                            }
                                            links[k] = Some(
                                                Link::Cid { cid, cache: Some(Box::new(node)) },
                                            );
                                        },
                                        Err(e) => {
                                            links[k] = Some(Link::Dirty(Box::new(node)));
                                            failure = Some(Error::BlockStore(e));
                                        },
                                    }
                                },
                            }
                        },
                        other => {
                            links[k] = other;
                        },
                    }
                    proof {
                        assert forall|j: int| 0 <= j < n implies slot_persisted(
                            slot_view(#[trigger] links@[j]),
                            bs.blocks(),
                            w,
                            below,
                        ) by {
                            if j != k {
                                assert(links@[j] == links_before[j]);
                                lemma_slot_persisted_step(
                                    slot_view(links_before[j]),
                                    blocks_before,
                                    bs.blocks(),
                                    w,
                                    below,
                                );
                            }
                        }
                    }
                    k += 1;
                }
                match failure {
                    Some(e) => Err(e),
                    None => Ok(()),
                }
            },
        };
        proof {
            let after = self@;
            match before {
                NodeView::Leaf { vals } => {},
                NodeView::Link { links } => {
                    if r is Ok {
                        assert(after->Link_links =~= flushed(before, w, height as nat)->Link_links);
                    }
                },
            }
        }
        r
    }
}

/// A node that is clean is what it is once written.
pub proof fn lemma_flushed_clean(node: NodeView, bit_width: nat, height: nat)
    requires
        is_clean(node, height),
    ensures
        flushed(node, bit_width, height) == node,
{
    match node {
        NodeView::Leaf { vals } => {},
        NodeView::Link { links } => {
            assert(flushed(node, bit_width, height)->Link_links =~= links);
        },
    }
}

/// Writing children neither empties a node nor fills it, and leaves no empty
/// node where there was none.
pub proof fn lemma_rewritten_tight(before: NodeView, after: NodeView, height: nat)
    requires
        rewritten(before, after, height),
    ensures
        is_empty_spec(after) == is_empty_spec(before),
        tight(before, height) ==> tight(after, height),
    decreases height,
{
    match before {
        NodeView::Leaf { vals } => {},
        NodeView::Link { links } => {
            let written = after->Link_links;
            assert forall|i: int| 0 <= i < links.len() implies ((#[trigger] written[i]) is None) == (
            links[i] is None) by {
                let slot = links[i];
            }
            if is_empty_spec(before) {
                assert forall|i: int| 0 <= i < written.len() implies (#[trigger] written[i])
                    is None by {
                    assert(links[i] is None);
                }
            }
            if is_empty_spec(after) {
                assert forall|i: int| 0 <= i < links.len() implies (#[trigger] links[i]) is None by {
                    assert(written[i] is None);
                }
            }
            if tight(before, height) {
                assert forall|i: int| 0 <= i < written.len() implies match #[trigger] written[i] {
                    Some(LinkView::Dirty(child)) => !is_empty_spec(child) && tight(
                        child,
                        (height - 1) as nat,
                    ),
                    Some(LinkView::Cid { cid, cache: Some(child) }) => !is_empty_spec(child)
                        && tight(child, (height - 1) as nat),
                    _ => true,
                } by {
                    match links[i] {
                        Some(LinkView::Dirty(child)) => {
                            match written[i] {
                                Some(LinkView::Dirty(w)) => {
                                    lemma_rewritten_tight(child, w, (height - 1) as nat);
                                },
                                Some(LinkView::Cid { cid, cache: Some(w) }) => {
                                    lemma_rewritten_tight(child, w, (height - 1) as nat);
                                },
                                _ => {},
                            }
                        },
                        _ => {},
                    }
                }
            }
        },
    }
}

} // verus!
