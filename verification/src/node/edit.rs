//! Setting and deleting a value below a node.

use crate::bitmap::lemma_bmap_len;
use crate::content_id::Cid;
use crate::error::{Error, ErrorView};
use crate::index::{
    capacity, lemma_capacity_step, lemma_split, lemma_split_unique, rest_of, slot_of, split_index,
    valid_bit_width, width, MAX_INDEX,
};
use crate::node::{
    empty_leaf, empty_links, is_empty_spec, lemma_empty_lookup, lookup, lookup_link, slot_view,
    value_view, wf, Link, LinkView, Node, NodeView,
};
use crate::node::flush::persisted;
use crate::node::pack::{lemma_loaded_wf, load_spec};
use crate::node::shape::{resident, tight};
use crate::store::{Blocks, Blockstore};
use vstd::prelude::*;

verus! {

/// The child that a descent through a slot works on: the child in memory,
/// the child read from the store, or, where the slot is empty, a child with
/// nothing in it. The child stands at `height`.
pub open spec fn child_in(
    slot: Option<LinkView>,
    blocks: Blocks,
    bit_width: nat,
    height: nat,
) -> NodeView {
    match slot {
        None => if height == 0 {
            empty_leaf(width(bit_width))
        } else {
            empty_links(width(bit_width))
        },
        Some(LinkView::Dirty(child)) => child,
        Some(LinkView::Cid { cid, cache: Some(child) }) => child,
        Some(LinkView::Cid { cid, cache: None }) => load_spec(blocks, cid, bit_width, height)->Ok_0,
    }
}

/// The node once `val` was set at index `i` below it: the value is in its
/// leaf, every link on the way to it is dirty, and nothing else has changed.
pub open spec fn set_result(
    node: NodeView,
    blocks: Blocks,
    bit_width: nat,
    height: nat,
    i: nat,
    val: Seq<u8>,
) -> NodeView
    decreases height,
{
    match node {
        NodeView::Leaf { vals } => NodeView::Leaf { vals: vals.update(i as int, Some(val)) },
        NodeView::Link { links } => if height == 0 {
            node
        } else {
            let slot = slot_of(bit_width, height, i) as int;
            NodeView::Link {
                links: links.update(
                    slot,
                    Some(
                        LinkView::Dirty(
                            set_result(
                                child_in(links[slot], blocks, bit_width, (height - 1) as nat),
                                blocks,
                                bit_width,
                                (height - 1) as nat,
                                rest_of(bit_width, height, i),
                                val,
                            ),
                        ),
                    ),
                ),
            }
        },
    }
}

/// The node once what was at index `i` below it was taken out: every link on
/// the way to it is dirty, a child that was left empty has left its slot, and
/// nothing else has changed.
pub open spec fn delete_result(
    node: NodeView,
    blocks: Blocks,
    bit_width: nat,
    height: nat,
    i: nat,
) -> NodeView
    decreases height,
{
    match node {
        NodeView::Leaf { vals } => NodeView::Leaf { vals: vals.update(i as int, None) },
        NodeView::Link { links } => if height == 0 {
            node
        } else {
            let slot = slot_of(bit_width, height, i) as int;
            let child = delete_result(
                child_in(links[slot], blocks, bit_width, (height - 1) as nat),
                blocks,
                bit_width,
                (height - 1) as nat,
                rest_of(bit_width, height, i),
            );
            NodeView::Link {
                links: links.update(
                    slot,
                    if is_empty_spec(child) {
                        None
                    } else {
                        Some(LinkView::Dirty(child))
                    },
                ),
            }
        },
    }
}

/// The way from the node to index `i` passes no link whose child is not in
/// memory: no block has to be read on it.
pub open spec fn in_memory(node: NodeView, bit_width: nat, height: nat, i: nat) -> bool
    decreases height,
{
    match node {
        NodeView::Leaf { vals } => true,
        NodeView::Link { links } => if height == 0 || slot_of(bit_width, height, i) >= links.len() {
            true
        } else {
            match links[slot_of(bit_width, height, i) as int] {
                None => true,
                Some(LinkView::Dirty(child)) => in_memory(
                    child,
                    bit_width,
                    (height - 1) as nat,
                    rest_of(bit_width, height, i),
                ),
                Some(LinkView::Cid { cid, cache: Some(child) }) => in_memory(
                    child,
                    bit_width,
                    (height - 1) as nat,
                    rest_of(bit_width, height, i),
                ),
                Some(LinkView::Cid { cid, cache: None }) => false,
            }
        },
    }
}

/// Below a node that is in memory, every way is in memory.
pub proof fn lemma_resident_in_memory(node: NodeView, bit_width: nat, height: nat, i: nat)
    requires
        resident(node, height),
    ensures
        in_memory(node, bit_width, height, i),
    decreases height,
{
    match node {
        NodeView::Leaf { vals } => {},
        NodeView::Link { links } => {
            let slot = slot_of(bit_width, height, i);
            if slot < links.len() {
                match links[slot as int] {
                    Some(LinkView::Dirty(child)) => {
                        lemma_resident_in_memory(
                            child,
                            bit_width,
                            (height - 1) as nat,
                            rest_of(bit_width, height, i),
                        );
                    },
                    Some(LinkView::Cid { cid, cache: Some(child) }) => {
                        lemma_resident_in_memory(
                            child,
                            bit_width,
                            (height - 1) as nat,
                            rest_of(bit_width, height, i),
                        );
                    },
                    _ => {},
                }
            }
        },
    }
}

/// Where two nodes of links differ in the one slot that index `i` lies below,
/// and the children in that slot differ at the rest of `i` alone, the nodes
/// differ at `i` alone.
pub proof fn lemma_update_slot(
    before: NodeView,
    after: NodeView,
    blocks: Blocks,
    bit_width: nat,
    height: nat,
    i: nat,
    at: Result<Option<Seq<u8>>, ErrorView>,
)
    requires
        height >= 1,
        i < capacity(bit_width, height),
        before is Link,
        after is Link,
        before->Link_links.len() == width(bit_width),
        after->Link_links.len() == width(bit_width),
        forall|k: int|
            0 <= k < width(bit_width) && k != slot_of(bit_width, height, i)
                ==> #[trigger] after->Link_links[k] == before->Link_links[k],
        forall|r: nat|
            r < capacity(bit_width, (height - 1) as nat) ==> #[trigger] lookup_link(
                after->Link_links[slot_of(bit_width, height, i) as int],
                blocks,
                bit_width,
                (height - 1) as nat,
                r,
            ) == (if r == rest_of(bit_width, height, i) {
                at
            } else {
                lookup_link(
                    before->Link_links[slot_of(bit_width, height, i) as int],
                    blocks,
                    bit_width,
                    (height - 1) as nat,
                    r,
                )
            }),
    ensures
        forall|j: nat|
            j < capacity(bit_width, height) ==> #[trigger] lookup(
                after,
                blocks,
                bit_width,
                height,
                j,
            ) == (if j == i {
                at
            } else {
                lookup(before, blocks, bit_width, height, j)
            }),
{
    assert forall|j: nat| j < capacity(bit_width, height) implies #[trigger] lookup(
        after,
        blocks,
        bit_width,
        height,
        j,
    ) == (if j == i {
        at
    } else {
        lookup(before, blocks, bit_width, height, j)
    }) by {
        lemma_split(bit_width, height, j);
        lemma_split(bit_width, height, i);
        let sj = slot_of(bit_width, height, j) as int;
        let si = slot_of(bit_width, height, i) as int;
        let rj = rest_of(bit_width, height, j);
        let below = (height - 1) as nat;
        assert(lookup(after, blocks, bit_width, height, j) == lookup_link(
            after->Link_links[sj],
            blocks,
            bit_width,
            below,
            rj,
        ));
        assert(lookup(before, blocks, bit_width, height, j) == lookup_link(
            before->Link_links[sj],
            blocks,
            bit_width,
            below,
            rj,
        ));
        if sj == si {
            if rj == rest_of(bit_width, height, i) {
                lemma_split_unique(bit_width, height, i, j);
            }
            assert(lookup_link(after->Link_links[si], blocks, bit_width, below, rj) == (if rj
                == rest_of(bit_width, height, i) {
                at
            } else {
                lookup_link(before->Link_links[si], blocks, bit_width, below, rj)
            }));
        } else {
            assert(after->Link_links[sj] == before->Link_links[sj]);
        }
    }
}

impl Node {
    /// Puts `val` at index `i` below this node, which stands at `height`, and
    /// returns what was there. Every link on the way becomes dirty. Where the
    /// way ends in an error, the node is left as it was.
    #[verifier::rlimit(30)]
    pub fn set<BS: Blockstore>(
        &mut self,
        bs: &BS,
        height: u32,
        bit_width: u32,
        i: u64,
        val: Vec<u8>,
    ) -> (r: Result<Option<Vec<u8>>, Error>)
        requires
            valid_bit_width(bit_width),
            wf(old(self)@, bit_width as nat, height as nat),
            i <= MAX_INDEX,
            i < capacity(bit_width as nat, height as nat),
        ensures
            wf(final(self)@, bit_width as nat, height as nat),
            persisted(old(self)@, bs.blocks(), bit_width as nat, height as nat) ==> persisted(
                final(self)@,
                bs.blocks(),
                bit_width as nat,
                height as nat,
            ),
            resident(old(self)@, height as nat) ==> resident(final(self)@, height as nat),
            tight(old(self)@, height as nat) ==> tight(final(self)@, height as nat),
            bs.reliable() ==> !(r matches Err(Error::BlockStore(_))),
            in_memory(old(self)@, bit_width as nat, height as nat, i as nat) ==> r is Ok,
            r matches Err(e) ==> final(self)@ == old(self)@ && (e@ is BlockStore || lookup(
                old(self)@,
                bs.blocks(),
                bit_width as nat,
                height as nat,
                i as nat,
            ) == Err::<Option<Seq<u8>>, ErrorView>(e@)),
            r matches Ok(prev) ==> lookup(
                old(self)@,
                bs.blocks(),
                bit_width as nat,
                height as nat,
                i as nat,
            ) == Ok::<Option<Seq<u8>>, ErrorView>(value_view(prev)),
            r is Ok ==> forall|j: nat|
                j < capacity(bit_width as nat, height as nat) ==> #[trigger] lookup(
                    final(self)@,
                    bs.blocks(),
                    bit_width as nat,
                    height as nat,
                    j,
                ) == (if j == i {
                    Ok::<Option<Seq<u8>>, ErrorView>(Some(val@))
                } else {
                    lookup(old(self)@, bs.blocks(), bit_width as nat, height as nat, j)
                }),
            in_memory(old(self)@, bit_width as nat, height as nat, i as nat) ==> r is Ok,
            r is Ok ==> in_memory(final(self)@, bit_width as nat, height as nat, i as nat),
            r is Ok ==> final(self)@ == set_result(
                old(self)@,
                bs.blocks(),
                bit_width as nat,
                height as nat,
                i as nat,
                val@,
            ),
        decreases height,
    {
        proof {
            lemma_capacity_step(bit_width as nat, height as nat);
            lemma_capacity_step(bit_width as nat, 0);
            lemma_bmap_len(bit_width as nat);
        }
        let ghost before = self@;
        let ghost blocks = bs.blocks();
        let ghost w = bit_width as nat;
        let ghost h = height as nat;
        let ghost below = (height - 1) as nat;
        let ghost wanted = Ok::<Option<Seq<u8>>, ErrorView>(Some(val@));
        let ghost mut child_old: NodeView = before;
        let ghost mut child_new: NodeView = before;
        let r = match self {
            Node::Leaf { vals } => {
                let slot = i as usize;
                let ghost old_vals = vals@;
                let mut cell = Some(val);
                core::mem::swap(&mut vals[slot], &mut cell);
                proof {
                    assert(before->Leaf_vals[slot as int] == value_view(old_vals[slot as int]));
                }
                Ok(cell)
            },
            Node::Link { links } => {
                let (slot, rest) = split_index(bit_width, height, i);
                let ghost old_links = links@;
                proof {
                    assert(before->Link_links[slot as int] == slot_view(old_links[slot as int]));
                }
                let taken = links[slot].take();
                match taken {
                    None => {
                        let mut child = Node::empty(bit_width, height - 1);
                        proof {
                            child_old = child@;
                            assert forall|q: nat| q < capacity(w, below) implies #[trigger] lookup(
                                child_old,
                                blocks,
                                w,
                                below,
                                q,
                            ) == lookup_link(None, blocks, w, below, q) by {
                                lemma_empty_lookup(child_old, blocks, w, below, q);
                            }
                        }
                        match child.set(bs, height - 1, bit_width, rest, val) {
                            Ok(prev) => {
                                proof {
                                    child_new = child@;
                                }
                                links[slot] = Some(Link::Dirty(Box::new(child)));
                                Ok(prev)
                            },
                            Err(e) => Err(e),
                        }
                    },
                    Some(Link::Dirty(child)) => {
                        let mut node = *child;
                        proof {
                            child_old = node@;
                        }
                        let r = node.set(bs, height - 1, bit_width, rest, val);
                        proof {
                            child_new = node@;
                        }
                        links[slot] = Some(Link::Dirty(Box::new(node)));
                        r
                    },
                    Some(Link::Cid { cid, cache: Some(child) }) => {
                        let mut node = *child;
                        proof {
                            child_old = node@;
                        }
                        match node.set(bs, height - 1, bit_width, rest, val) {
                            Ok(prev) => {
                                proof {
                                    child_new = node@;
                                }
                                links[slot] = Some(Link::Dirty(Box::new(node)));
                                Ok(prev)
                            },
                            Err(e) => {
                                links[slot] = Some(Link::Cid { cid, cache: Some(Box::new(node)) });
                                Err(e)
                            },
                        }
                    },
                    Some(Link::Cid { cid, cache: None }) => {
                        match Node::load(bs, &cid, bit_width, height - 1) {
                            Err(e) => {
                                links[slot] = Some(Link::Cid { cid, cache: None });
                                Err(e)
                            },
                            Ok(loaded) => {
                                let mut node = loaded;
                                proof {
                                    lemma_loaded_wf(blocks, cid@, w, below);
                                    child_old = node@;
                                }
                                match node.set(bs, height - 1, bit_width, rest, val) {
                                    Ok(prev) => {
                                        proof {
                                            child_new = node@;
                                        }
                                        links[slot] = Some(Link::Dirty(Box::new(node)));
                                        Ok(prev)
                                    },
                                    Err(e) => {
                                        links[slot] = Some(Link::Cid { cid, cache: None });
                                        Err(e)
                                    },
                                }
                            },
                        }
                    },
                }
            },
        };
        proof {
            let after = self@;
            match before {
                NodeView::Leaf { vals } => {
                    assert(after->Leaf_vals =~= vals.update(i as int, Some(val@)));
                },
                NodeView::Link { links } => {
                    let slot = slot_of(w, h, i as nat) as int;
                    if r is Err {
                        assert(after->Link_links =~= links);
                    } else {
                        let rest = rest_of(w, h, i as nat);
                        assert(after->Link_links[slot] == Some(LinkView::Dirty(child_new)));
                        lemma_split(w, h, i as nat);
                        assert(child_old == child_in(links[slot], blocks, w, below));
                        assert(child_new == set_result(child_old, blocks, w, below, rest, val@));
                        assert(after->Link_links =~= links.update(
                            slot,
                            Some(LinkView::Dirty(child_new)),
                        ));
                        if is_empty_spec(child_new) {
                            lemma_empty_lookup(child_new, blocks, w, below, rest);
                            assert(lookup(child_new, blocks, w, below, rest) == wanted);
                        }
                        assert forall|k: int| 0 <= k < width(w) && k != slot implies
                            #[trigger] after->Link_links[k] == links[k] by {}
                        assert forall|q: nat| q < capacity(w, below) implies #[trigger] lookup_link(
                            after->Link_links[slot],
                            blocks,
                            w,
                            below,
                            q,
                        ) == (if q == rest {
                            wanted
                        } else {
                            lookup_link(links[slot], blocks, w, below, q)
                        }) by {
                            assert(lookup(child_new, blocks, w, below, q) == (if q == rest {
                                wanted
                            } else {
                                lookup(child_old, blocks, w, below, q)
                            }));
                            assert(lookup(child_old, blocks, w, below, q) == lookup_link(
                                links[slot],
                                blocks,
                                w,
                                below,
                                q,
                            ));
                        }
                        lemma_update_slot(before, after, blocks, w, h, i as nat, wanted);
                    }
                },
            }
        }
        r
    }

    /// Takes out what is at index `i` below this node, which stands at
    /// `height`, and returns it. Every link on the way becomes dirty, and a
    /// child that is left empty leaves its slot. Where nothing is at `i`, or
    /// the way ends in an error, the node is left as it was.
    #[verifier::rlimit(30)]
    pub fn delete<BS: Blockstore>(&mut self, bs: &BS, height: u32, bit_width: u32, i: u64) -> (r:
        Result<Option<Vec<u8>>, Error>)
        requires
            valid_bit_width(bit_width),
            wf(old(self)@, bit_width as nat, height as nat),
            i <= MAX_INDEX,
            i < capacity(bit_width as nat, height as nat),
        ensures
            wf(final(self)@, bit_width as nat, height as nat),
            persisted(old(self)@, bs.blocks(), bit_width as nat, height as nat) ==> persisted(
                final(self)@,
                bs.blocks(),
                bit_width as nat,
                height as nat,
            ),
            resident(old(self)@, height as nat) ==> resident(final(self)@, height as nat),
            tight(old(self)@, height as nat) ==> tight(final(self)@, height as nat),
            bs.reliable() ==> !(r matches Err(Error::BlockStore(_))),
            in_memory(old(self)@, bit_width as nat, height as nat, i as nat) ==> r is Ok,
            r matches Err(e) ==> final(self)@ == old(self)@ && (e@ is BlockStore || lookup(
                old(self)@,
                bs.blocks(),
                bit_width as nat,
                height as nat,
                i as nat,
            ) == Err::<Option<Seq<u8>>, ErrorView>(e@)),
            r matches Ok(prev) ==> lookup(
                old(self)@,
                bs.blocks(),
                bit_width as nat,
                height as nat,
                i as nat,
            ) == Ok::<Option<Seq<u8>>, ErrorView>(value_view(prev)),
            r matches Ok(None) ==> final(self)@ == old(self)@,
            r matches Ok(Some(_)) ==> forall|j: nat|
                j < capacity(bit_width as nat, height as nat) ==> #[trigger] lookup(
                    final(self)@,
                    bs.blocks(),
                    bit_width as nat,
                    height as nat,
                    j,
                ) == (if j == i {
                    Ok::<Option<Seq<u8>>, ErrorView>(None)
                } else {
                    lookup(old(self)@, bs.blocks(), bit_width as nat, height as nat, j)
                }),
            r matches Ok(Some(_)) ==> in_memory(
                final(self)@,
                bit_width as nat,
                height as nat,
                i as nat,
            ),
            r matches Ok(Some(_)) ==> final(self)@ == delete_result(
                old(self)@,
                bs.blocks(),
                bit_width as nat,
                height as nat,
                i as nat,
            ),
        decreases height,
    {
        proof {
            lemma_capacity_step(bit_width as nat, height as nat);
            lemma_capacity_step(bit_width as nat, 0);
            lemma_bmap_len(bit_width as nat);
        }
        let ghost before = self@;
        let ghost blocks = bs.blocks();
        let ghost w = bit_width as nat;
        let ghost h = height as nat;
        let ghost below = (height - 1) as nat;
        let ghost wanted = Ok::<Option<Seq<u8>>, ErrorView>(None);
        let ghost mut child_old: NodeView = before;
        let ghost mut child_new: NodeView = before;
        let r = match self {
            Node::Leaf { vals } => {
                let slot = i as usize;
                let ghost old_vals = vals@;
                proof {
                    assert(before->Leaf_vals[slot as int] == value_view(old_vals[slot as int]));
                }
                Ok(vals[slot].take())
            },
            Node::Link { links } => {
                let (slot, rest) = split_index(bit_width, height, i);
                let ghost old_links = links@;
                proof {
                    assert(before->Link_links[slot as int] == slot_view(old_links[slot as int]));
                }
                let taken = links[slot].take();
                match taken {
                    None => Ok(None),
                    Some(Link::Dirty(child)) => {
                        let mut node = *child;
                        proof {
                            child_old = node@;
                        }
                        let r = node.delete(bs, height - 1, bit_width, rest);
                        proof {
                            child_new = node@;
                        }
                        let gone = match &r {
                            Ok(Some(_)) => node.is_empty(),
                            _ => false,
                        };
                        if !gone {
                            links[slot] = Some(Link::Dirty(Box::new(node)));
                        }
                        r
                    },
                    Some(Link::Cid { cid, cache: Some(child) }) => {
                        let mut node = *child;
                        proof {
                            child_old = node@;
                        }
                        let r = node.delete(bs, height - 1, bit_width, rest);
                        proof {
                            child_new = node@;
                        }
                        match &r {
                            Ok(Some(_)) => {
                                if !node.is_empty() {
                                    links[slot] = Some(Link::Dirty(Box::new(node)));
                                }
                            },
                            _ => {
                                links[slot] = Some(Link::Cid { cid, cache: Some(Box::new(node)) });
                            },
                        }
                        r
                    },
                    Some(Link::Cid { cid, cache: None }) => {
                        match Node::load(bs, &cid, bit_width, height - 1) {
                            Err(e) => {
                                links[slot] = Some(Link::Cid { cid, cache: None });
                                Err(e)
                            },
                            Ok(loaded) => {
                                let mut node = loaded;
                                proof {
                                    lemma_loaded_wf(blocks, cid@, w, below);
                                    child_old = node@;
                                }
                                let r = node.delete(bs, height - 1, bit_width, rest);
                                proof {
                                    child_new = node@;
                                }
                                match &r {
                                    Ok(Some(_)) => {
                                        if !node.is_empty() {
                                            links[slot] = Some(Link::Dirty(Box::new(node)));
                                        }
                                    },
                                    _ => {
                                        links[slot] = Some(Link::Cid { cid, cache: None });
                                    },
                                }
                                r
                            },
                        }
                    },
                }
            },
        };
        proof {
            let after = self@;
            match before {
                NodeView::Leaf { vals } => {
                    if r matches Ok(Some(_)) {
                        assert(after->Leaf_vals =~= vals.update(i as int, None));
                    } else {
                        assert(after->Leaf_vals =~= vals);
                    }
                },
                NodeView::Link { links } => {
                    let slot = slot_of(w, h, i as nat) as int;
                    if r matches Ok(Some(_)) {
                        let rest = rest_of(w, h, i as nat);
                        lemma_split(w, h, i as nat);
                        assert(child_old == child_in(links[slot], blocks, w, below));
                        assert(child_new == delete_result(child_old, blocks, w, below, rest));
                        assert(after->Link_links =~= links.update(
                            slot,
                            if is_empty_spec(child_new) {
                                None
                            } else {
                                Some(LinkView::Dirty(child_new))
                            },
                        ));
                        assert forall|k: int| 0 <= k < width(w) && k != slot implies
                            #[trigger] after->Link_links[k] == links[k] by {}
                        assert forall|q: nat| q < capacity(w, below) implies #[trigger] lookup_link(
                            after->Link_links[slot],
                            blocks,
                            w,
                            below,
                            q,
                        ) == (if q == rest {
                            wanted
                        } else {
                            lookup_link(links[slot], blocks, w, below, q)
                        }) by {
                            if after->Link_links[slot] is None {
                                lemma_empty_lookup(child_new, blocks, w, below, q);
                            }
                            assert(lookup(child_new, blocks, w, below, q) == (if q == rest {
                                wanted
                            } else {
                                lookup(child_old, blocks, w, below, q)
                            }));
                            assert(lookup(child_old, blocks, w, below, q) == lookup_link(
                                links[slot],
                                blocks,
                                w,
                                below,
                                q,
                            ));
                        }
                        lemma_update_slot(before, after, blocks, w, h, i as nat, wanted);
                    } else {
                        assert(after->Link_links =~= links);
                    }
                },
            }
        }
        r
    }
}

/// What is found on a way that is in memory does not hang on the store.
pub proof fn lemma_in_memory_lookup(
    node: NodeView,
    before: Blocks,
    after: Blocks,
    bit_width: nat,
    height: nat,
    i: nat,
)
    requires
        in_memory(node, bit_width, height, i),
    ensures
        lookup(node, after, bit_width, height, i) == lookup(node, before, bit_width, height, i),
    decreases height,
{
    match node {
        NodeView::Leaf { vals } => {},
        NodeView::Link { links } => {
            let slot = slot_of(bit_width, height, i);
            if height > 0 && slot < links.len() {
                let rest = rest_of(bit_width, height, i);
                match links[slot as int] {
                    Some(LinkView::Dirty(child)) => {
                        lemma_in_memory_lookup(
                            child,
                            before,
                            after,
                            bit_width,
                            (height - 1) as nat,
                            rest,
                        );
                    },
                    Some(LinkView::Cid { cid, cache: Some(child) }) => {
                        lemma_in_memory_lookup(
                            child,
                            before,
                            after,
                            bit_width,
                            (height - 1) as nat,
                            rest,
                        );
                    },
                    _ => {},
                }
            }
        },
    }
}

} // verus!
