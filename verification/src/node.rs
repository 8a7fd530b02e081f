//! The nodes of a trie and the links between them.

use crate::bitmap::lemma_bmap_len;
use crate::content_id::{is_cid, Cid};
use crate::error::{Error, ErrorView};
use crate::index::{
    capacity, fanout, lemma_capacity_step, rest_of, slot_of, split_index, valid_bit_width, width,
    MAX_BIT_WIDTH, MAX_INDEX,
};
use crate::node::pack::{lemma_loaded_wf, load_spec, slots};
use crate::node::shape::{resident, tight};
use crate::store::{Blocks, Blockstore};
use vstd::prelude::*;

pub mod dense;
pub mod edit;
pub mod flush;
pub mod pack;
pub mod shape;

verus! {

/// A reference to a child node.
#[derive(Debug, PartialEq)]
pub enum Link {
    /// A child that was changed since it was last written to the store.
    Dirty(Box<Node>),
    /// A child that is in the store under `cid`, and maybe in memory as well.
    Cid { cid: Cid, cache: Option<Box<Node>> },
}

/// A node: at height 0 a leaf of values, above that a node of links.
#[derive(Debug, PartialEq)]
pub enum Node {
    Leaf { vals: Vec<Option<Vec<u8>>> },
    Link { links: Vec<Option<Link>> },
}

/// A link as contracts speak of it.
pub enum LinkView {
    Dirty(NodeView),
    Cid { cid: Seq<u8>, cache: Option<NodeView> },
}

/// A node as contracts speak of it.
pub enum NodeView {
    Leaf { vals: Seq<Option<Seq<u8>>> },
    Link { links: Seq<Option<LinkView>> },
}

/// What a slot of a leaf holds, as contracts speak of it.
pub open spec fn value_view(v: Option<Vec<u8>>) -> Option<Seq<u8>> {
    match v {
        Some(bytes) => Some(bytes@),
        None => None,
    }
}

/// A link as contracts speak of it.
pub open spec fn link_view(link: Link) -> LinkView
    decreases link,
{
    match link {
        Link::Dirty(node) => LinkView::Dirty(node_view(*node)),
        Link::Cid { cid, cache } => LinkView::Cid {
            cid: cid@,
            cache: match cache {
                Some(node) => Some(node_view(*node)),
                None => None,
            },
        },
    }
}

/// What a slot of a node of links holds, as contracts speak of it.
pub open spec fn slot_view(slot: Option<Link>) -> Option<LinkView>
    decreases slot,
{
    match slot {
        Some(link) => Some(link_view(link)),
        None => None,
    }
}

/// A node as contracts speak of it.
pub open spec fn node_view(node: Node) -> NodeView
    decreases node,
{
    match node {
        Node::Leaf { vals } => NodeView::Leaf {
            vals: Seq::new(vals@.len(), |i: int| value_view(vals@[i])),
        },
        Node::Link { links } => NodeView::Link {
            links: Seq::new(
                links@.len(),
                |i: int|
                    if 0 <= i < links@.len() {
                        slot_view(links@[i])
                    } else {
                        None
                    },
            ),
        },
    }
}

impl View for Node {
    type V = NodeView;

    open spec fn view(&self) -> NodeView {
        node_view(*self)
    }
}

impl View for Link {
    type V = LinkView;

    open spec fn view(&self) -> LinkView {
        link_view(*self)
    }
}

/// No slot holds anything.
pub open spec fn is_empty_spec(node: NodeView) -> bool {
    match node {
        NodeView::Leaf { vals } => forall|i: int| 0 <= i < vals.len() ==> (#[trigger] vals[i]) is None,
        NodeView::Link { links } => forall|i: int|
            0 <= i < links.len() ==> (#[trigger] links[i]) is None,
    }
}

/// The node is one of links with a child in slot 0 and in no other slot.
pub open spec fn can_collapse_spec(node: NodeView) -> bool {
    match node {
        NodeView::Leaf { vals } => false,
        NodeView::Link { links } => links.len() > 0 && links[0] is Some && forall|i: int|
            1 <= i < links.len() ==> (#[trigger] links[i]) is None,
    }
}

/// The node of links with `n` empty slots.
pub open spec fn empty_links(n: nat) -> NodeView {
    NodeView::Link { links: Seq::new(n, |i: int| None) }
}

/// The node of values with `n` empty slots.
pub open spec fn empty_leaf(n: nat) -> NodeView {
    NodeView::Leaf { vals: Seq::new(n, |i: int| None) }
}

/// No link of the node or below it, as far as it is in memory, is dirty.
pub open spec fn is_clean(node: NodeView, height: nat) -> bool
    decreases height,
{
    match node {
        NodeView::Leaf { vals } => true,
        NodeView::Link { links } => height > 0 && forall|i: int|
            0 <= i < links.len() ==> match #[trigger] links[i] {
                Some(LinkView::Dirty(_)) => false,
                Some(LinkView::Cid { cid, cache: Some(child) }) => is_clean(
                    child,
                    (height - 1) as nat,
                ),
                _ => true,
            },
    }
}

/// The node has the shape of a node at `height` of a trie of `bit_width`: as
/// many slots as the bit width gives, values at height 0 and links above, and
/// so for every child in memory. A clean link holds an identifier, and what is
/// in memory behind it is clean.
pub open spec fn wf(node: NodeView, bit_width: nat, height: nat) -> bool
    decreases height,
{
    match node {
        NodeView::Leaf { vals } => height == 0 && vals.len() == width(bit_width),
        NodeView::Link { links } => height > 0 && links.len() == width(bit_width) && forall|i: int|
            0 <= i < links.len() ==> match #[trigger] links[i] {
                Some(LinkView::Dirty(child)) => wf(child, bit_width, (height - 1) as nat),
                Some(LinkView::Cid { cid, cache: Some(child) }) => is_cid(cid) && wf(
                    child,
                    bit_width,
                    (height - 1) as nat,
                ) && is_clean(child, (height - 1) as nat),
                Some(LinkView::Cid { cid, cache: None }) => is_cid(cid),
                None => true,
            },
    }
}

/// What a trie holds at index `i`, read from the node at its top: a value, or
/// nothing, or the error that the way to the index ends in. A link to a block
/// that is not in memory is followed into the store.
pub open spec fn lookup(node: NodeView, blocks: Blocks, bit_width: nat, height: nat, i: nat)
    -> Result<Option<Seq<u8>>, ErrorView>
    decreases height, 1nat,
{
    match node {
        NodeView::Leaf { vals } => if i < vals.len() {
            Ok(vals[i as int])
        } else {
            Ok(None)
        },
        NodeView::Link { links } => if height == 0 || slot_of(bit_width, height, i) >= links.len() {
            Ok(None)
        } else {
            lookup_link(
                links[slot_of(bit_width, height, i) as int],
                blocks,
                bit_width,
                (height - 1) as nat,
                rest_of(bit_width, height, i),
            )
        },
    }
}

/// What the child in a slot holds at index `i`; the child stands at `height`.
pub open spec fn lookup_link(
    slot: Option<LinkView>,
    blocks: Blocks,
    bit_width: nat,
    height: nat,
    i: nat,
) -> Result<Option<Seq<u8>>, ErrorView>
    decreases height, 2nat,
{
    match slot {
        None => Ok(None),
        Some(LinkView::Dirty(child)) => lookup(child, blocks, bit_width, height, i),
        Some(LinkView::Cid { cid, cache: Some(child) }) => lookup(
            child,
            blocks,
            bit_width,
            height,
            i,
        ),
        Some(LinkView::Cid { cid, cache: None }) => match load_spec(
            blocks,
            cid,
            bit_width,
            height,
        ) {
            Ok(child) => lookup(child, blocks, bit_width, height, i),
            Err(e) => Err(e),
        },
    }
}

/// `n` empty slots.
pub fn init_sized_vec<T>(n: usize) -> (slots: Vec<Option<T>>)
    ensures
        slots@.len() == n,
        forall|i: int| 0 <= i < n ==> (#[trigger] slots@[i]) is None,
{
    let mut slots: Vec<Option<T>> = Vec::new();
    let mut k: usize = 0;
    while k < n
        invariant
            k <= n,
            slots@.len() == k,
            forall|i: int| 0 <= i < k ==> (#[trigger] slots@[i]) is None,
        decreases n - k,
    {
        slots.push(None);
        k += 1;
    }
    slots
}

impl Node {
    /// A node for `height` with nothing in it: a leaf at height 0, a node of
    /// links above.
    pub fn empty(bit_width: u32, height: u32) -> (node: Node)
        requires
            bit_width <= MAX_BIT_WIDTH,
        ensures
            node@ == (if height == 0 {
                empty_leaf(width(bit_width as nat))
            } else {
                empty_links(width(bit_width as nat))
            }),
            wf(node@, bit_width as nat, height as nat),
            is_empty_spec(node@),
            is_clean(node@, height as nat),
            resident(node@, height as nat),
            tight(node@, height as nat),
    {
        if height == 0 {
            let node = Node::Leaf { vals: init_sized_vec(fanout(bit_width)) };
            proof {
                assert(node@->Leaf_vals =~= empty_leaf(width(bit_width as nat))->Leaf_vals);
            }
            node
        } else {
            let node = Node::Link { links: init_sized_vec(fanout(bit_width)) };
            proof {
                assert(node@->Link_links =~= empty_links(width(bit_width as nat))->Link_links);
            }
            node
        }
    }

    /// Whether no slot holds anything.
    pub fn is_empty(&self) -> (r: bool)
        ensures
            r == is_empty_spec(self@),
    {
        match self {
            Node::Leaf { vals } => {
                let mut i: usize = 0;
                while i < vals.len()
                    invariant
                        i <= vals@.len(),
                        self@ is Leaf,
                        self@->Leaf_vals.len() == vals@.len(),
                        forall|k: int| 0 <= k < vals@.len() ==> (#[trigger] self@->Leaf_vals[k])
                            == value_view(vals@[k]),
                        forall|k: int| 0 <= k < i ==> (#[trigger] vals@[k]) is None,
                    decreases vals@.len() - i,
                {
                    if vals[i].is_some() {
                        proof {
                            assert(self@->Leaf_vals[i as int] is Some);
                        }
                        return false;
                    }
                    i += 1;
                }
                true
            },
            Node::Link { links } => {
                let mut i: usize = 0;
                while i < links.len()
                    invariant
                        i <= links@.len(),
                        self@ is Link,
                        self@->Link_links.len() == links@.len(),
                        forall|k: int| 0 <= k < links@.len() ==> (#[trigger] self@->Link_links[k])
                            == slot_view(links@[k]),
                        forall|k: int| 0 <= k < i ==> (#[trigger] links@[k]) is None,
                    decreases links@.len() - i,
                {
                    if links[i].is_some() {
                        proof {
                            assert(self@->Link_links[i as int] is Some);
                        }
                        return false;
                    }
                    i += 1;
                }
                true
            },
        }
    }

    /// The value at index `i` below this node, which stands at `height`.
    pub fn get<BS: Blockstore>(&self, bs: &BS, height: u32, bit_width: u32, i: u64) -> (r: Result<
        Option<Vec<u8>>,
        Error,
    >)
        requires
            valid_bit_width(bit_width),
            wf(self@, bit_width as nat, height as nat),
            i <= MAX_INDEX,
            i < capacity(bit_width as nat, height as nat),
        ensures
            bs.reliable() ==> !(r matches Err(Error::BlockStore(_))),
            crate::node::edit::in_memory(self@, bit_width as nat, height as nat, i as nat)
                ==> r is Ok,
            r matches Ok(v) ==> lookup(
                self@,
                bs.blocks(),
                bit_width as nat,
                height as nat,
                i as nat,
            ) == Ok::<Option<Seq<u8>>, ErrorView>(value_view(v)),
            r matches Err(e) ==> e@ is BlockStore || lookup(
                self@,
                bs.blocks(),
                bit_width as nat,
                height as nat,
                i as nat,
            ) == Err::<Option<Seq<u8>>, ErrorView>(e@),
        decreases height,
    {
        proof {
            lemma_capacity_step(bit_width as nat, height as nat);
            lemma_capacity_step(bit_width as nat, 0);
            lemma_bmap_len(bit_width as nat);
        }
        match self {
            Node::Leaf { vals } => {
                let slot = i as usize;
                proof {
                    assert(self@->Leaf_vals[slot as int] == value_view(vals@[slot as int]));
                }
                match &vals[slot] {
                    Some(v) => Ok(Some(v.clone())),
                    None => Ok(None),
                }
            },
            Node::Link { links } => {
                let (slot, rest) = split_index(bit_width, height, i);
                proof {
                    assert(self@->Link_links[slot as int] == slot_view(links@[slot as int]));
                }
                match &links[slot] {
                    None => Ok(None),
                    Some(Link::Dirty(child)) => child.get(bs, height - 1, bit_width, rest),
                    Some(Link::Cid { cid, cache: Some(child) }) => child.get(
                        bs,
                        height - 1,
                        bit_width,
                        rest,
                    ),
                    Some(Link::Cid { cid, cache: None }) => {
                        match Node::load(bs, cid, bit_width, height - 1) {
                            Ok(child) => {
                                proof {
                                    lemma_loaded_wf(
                                        bs.blocks(),
                                        cid@,
                                        bit_width as nat,
                                        (height - 1) as nat,
                                    );
                                }
                                child.get(bs, height - 1, bit_width, rest)
                            },
                            Err(e) => Err(e),
                        }
                    },
                }
            },
        }
    }

    /// Whether the node is one of links with a child in slot 0 and in no
    /// other slot.
    pub fn can_collapse(&self) -> (r: bool)
        ensures
            r == can_collapse_spec(self@),
    {
        match self {
            Node::Leaf { vals } => false,
            Node::Link { links } => {
                if links.len() == 0 || links[0].is_none() {
                    proof {
                        if links@.len() > 0 {
                            assert(self@->Link_links[0] == slot_view(links@[0]));
                        }
                    }
                    return false;
                }
                let mut i: usize = 1;
                while i < links.len()
                    invariant
                        1 <= i <= links@.len(),
                        self@ is Link,
                        self@->Link_links.len() == links@.len(),
                        forall|k: int| 0 <= k < links@.len() ==> (#[trigger] self@->Link_links[k])
                            == slot_view(links@[k]),
                        forall|k: int| 1 <= k < i ==> (#[trigger] links@[k]) is None,
                    decreases links@.len() - i,
                {
                    if links[i].is_some() {
                        proof {
                            assert(self@->Link_links[i as int] is Some);
                        }
                        return false;
                    }
                    i += 1;
                }
                proof {
                    assert(self@->Link_links[0] == slot_view(links@[0]));
                }
                true
            },
        }
    }
}

/// An empty node holds nothing.
pub proof fn lemma_empty_lookup(node: NodeView, blocks: Blocks, bit_width: nat, height: nat, i: nat)
    requires
        is_empty_spec(node),
    ensures
        lookup(node, blocks, bit_width, height, i) == Ok::<Option<Seq<u8>>, ErrorView>(None),
{
    match node {
        NodeView::Leaf { vals } => {},
        NodeView::Link { links } => {
            if height > 0 && slot_of(bit_width, height, i) < links.len() {
                assert(links[slot_of(bit_width, height, i) as int] is None);
            }
        },
    }
}

/// Whether something was found.
pub open spec fn is_value(found: Result<Option<Seq<u8>>, ErrorView>) -> bool {
    found matches Ok(Some(_))
}

} // verus!
