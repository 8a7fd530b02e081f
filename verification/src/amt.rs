//! The trie itself: a sparse vector of byte strings under 64-bit indices, kept
//! in a block store and named by the identifier of its root.

use crate::amt::count::{
    count_values, lemma_count_none, lemma_exact_kept, lemma_exact_room, lemma_exact_update,
};
use crate::content_id::{block_cid, Cid};
use crate::error::{Error, ErrorView};
use crate::index::{
    capacity, lemma_span_pos, lemma_split, max_height, nodes_for_height, rest_of, slot_of, span,
    spec_max_height, valid_bit_width, width, DEFAULT_BIT_WIDTH, MAX_INDEX,
};
use crate::node::{
    can_collapse_spec, empty_leaf, empty_links, init_sized_vec, is_clean, is_empty_spec, is_value,
    lemma_empty_lookup, lookup, lookup_link, slot_view, wf, Link, LinkView, Node, NodeView,
};
use crate::node::dense::{
    addressed, dense, lemma_delete_dense, lemma_dense_lookup, lemma_dense_slot_has_value,
    lemma_rewritten_dense, lemma_set_dense, lemma_step_kept, lemma_tight_dense, readable,
};
use crate::reading::no_collisions;
use crate::node::edit::{
    child_in, delete_result, in_memory, lemma_resident_in_memory, set_result,
};
use crate::node::flush::{
    flush_writes, flushed, lemma_clean_links, lemma_flushed_clean, lemma_persisted_step, persisted,
    store_step,
};
use crate::node::pack::{collapse_spec, fit_height, lemma_loaded_wf, load_spec};
use crate::node::shape::{resident, tight};
use crate::root::{decode_root_spec, root_bytes, Root, RootView, Version, VersionV0, VersionV3};
use crate::store::{put_block, Blocks, Blockstore};
use vstd::arithmetic::power2::lemma_pow2_strictly_increases;
use vstd::prelude::*;

pub mod batch;
pub mod count;
pub mod iterate;
pub mod update;

verus! {

/// A trie in a block store of type `BS`, its root written in version `Ver`.
pub struct AmtImpl<BS, Ver = VersionV3> {
    pub root: Root<Ver>,
    pub block_store: BS,
    /// The identifier the trie was last written under, until the trie changes.
    pub flushed_cid: Option<Cid>,
}

/// A trie whose root names its bit width.
pub type Amt<BS> = AmtImpl<BS, VersionV3>;

/// A trie of the version whose bit width is always 3.
pub type Amtv0<BS> = AmtImpl<BS, VersionV0>;

/// The identifier of the block a root is written as.
pub open spec fn root_cid(v3: bool, bit_width: u32, height: u32, count: u64, node: NodeView) -> Seq<
    u8,
> {
    block_cid(root_bytes(v3, bit_width, height, count, collapse_spec(node, bit_width as nat)))
}

/// The node under a new top node: in slot 0 of it and alone, or, where the
/// node is empty, an empty top node in its place.
pub open spec fn wrapped(node: NodeView, bit_width: nat) -> NodeView {
    if is_empty_spec(node) {
        empty_links(width(bit_width))
    } else {
        NodeView::Link {
            links: Seq::new(
                width(bit_width),
                |i: int|
                    if i == 0 {
                        Some(LinkView::Dirty(node))
                    } else {
                        None
                    },
            ),
        }
    }
}

/// The top node of a trie that was made `levels` levels higher.
pub open spec fn grown(node: NodeView, bit_width: nat, levels: nat) -> NodeView
    decreases levels,
{
    if levels == 0 {
        node
    } else {
        wrapped(grown(node, bit_width, (levels - 1) as nat), bit_width)
    }
}

/// The top node and the height of a trie whose top node has given way to its
/// only child as long as it had one in slot 0 and nowhere else.
pub open spec fn collapsed(node: NodeView, blocks: Blocks, bit_width: nat, height: nat) -> (
    NodeView,
    nat,
)
    decreases height,
{
    if height > 0 && can_collapse_spec(node) {
        collapsed(
            child_in(node->Link_links[0], blocks, bit_width, (height - 1) as nat),
            blocks,
            bit_width,
            (height - 1) as nat,
        )
    } else {
        (node, height)
    }
}

/// The top node and the height of a trie that has come down after a value
/// left it: a trie that is left empty has an empty node of values at height
/// 0, and in any other the top node has given way to its only child as long
/// as it had one in slot 0 and nowhere else.
pub open spec fn settled(node: NodeView, blocks: Blocks, bit_width: nat, height: nat) -> (
    NodeView,
    nat,
) {
    if is_empty_spec(node) {
        if height > 0 {
            (empty_leaf(width(bit_width)), 0)
        } else {
            (node, height)
        }
    } else {
        collapsed(node, blocks, bit_width, height)
    }
}

/// The error that coming down ends in, if it ends in one: the only child of
/// a top node is not in memory and cannot be read.
pub open spec fn settle_fault(node: NodeView, blocks: Blocks, bit_width: nat, height: nat)
    -> Option<ErrorView>
    decreases height,
{
    if height > 0 && can_collapse_spec(node) {
        match node->Link_links[0] {
            Some(LinkView::Cid { cid, cache: None }) => match load_spec(
                blocks,
                cid,
                bit_width,
                (height - 1) as nat,
            ) {
                Err(e) => Some(e),
                Ok(child) => settle_fault(child, blocks, bit_width, (height - 1) as nat),
            },
            slot => settle_fault(
                child_in(slot, blocks, bit_width, (height - 1) as nat),
                blocks,
                bit_width,
                (height - 1) as nat,
            ),
        }
    } else {
        None
    }
}

/// Below a node of links with a child in slot 0 alone lies what lies below
/// that child, and nothing else.
pub proof fn lemma_single_child(
    node: NodeView,
    blocks: Blocks,
    bit_width: nat,
    height: nat,
    j: nat,
)
    requires
        height >= 1,
        node is Link,
        node->Link_links.len() == width(bit_width),
        forall|k: int| 1 <= k < width(bit_width) ==> (#[trigger] node->Link_links[k]) is None,
        j < capacity(bit_width, height),
    ensures
        lookup(node, blocks, bit_width, height, j) == (if j < capacity(
            bit_width,
            (height - 1) as nat,
        ) {
            lookup_link(node->Link_links[0], blocks, bit_width, (height - 1) as nat, j)
        } else {
            Ok::<Option<Seq<u8>>, ErrorView>(None)
        }),
        j < capacity(bit_width, (height - 1) as nat) <==> slot_of(bit_width, height, j) == 0,
        j < capacity(bit_width, (height - 1) as nat) ==> rest_of(bit_width, height, j) == j,
{
    lemma_split(bit_width, height, j);
    lemma_span_pos(bit_width, height);
    let s = span(bit_width, height) as int;
    let n = j as int;
    assert(capacity(bit_width, (height - 1) as nat) == span(bit_width, height));
    assert((n < s) <==> (n / s == 0)) by (nonlinear_arith)
        requires
            s > 0,
            n >= 0,
    ;
    assert(n < s ==> n % s == n) by (nonlinear_arith)
        requires
            s > 0,
            n >= 0,
    ;
    let slot = slot_of(bit_width, height, j) as int;
    if slot != 0 {
        assert(node->Link_links[slot] is None);
    }
}

impl<BS: Blockstore, Ver: Version> AmtImpl<BS, Ver> {
    /// The trie is in order: a bit width from 1 to 8, a height up to the
    /// greatest of that bit width, a top node of that height, and what is in
    /// memory behind clean links is in the store. While the trie remembers the
    /// identifier it was written or read under, nothing in it is dirty.
    pub open spec fn wf(&self) -> bool {
        &&& valid_bit_width(self.root.bit_width)
        &&& self.root.height <= spec_max_height(self.root.bit_width as nat)
        &&& wf(self.root.node@, self.root.bit_width as nat, self.root.height as nat)
        &&& persisted(
            self.root.node@,
            self.block_store.blocks(),
            self.root.bit_width as nat,
            self.root.height as nat,
        )
        &&& self.flushed_cid is Some ==> is_clean(self.root.node@, self.root.height as nat)
    }

    /// The number of values at the indices below `upto`.
    pub open spec fn population(&self, upto: nat) -> nat {
        count_values(|j: nat| self.at(j), upto)
    }

    /// The count is the number of values in the trie.
    pub open spec fn count_exact(&self) -> bool {
        self.root.count == self.population(MAX_INDEX as nat + 1)
    }

    /// The trie is no higher than it has to be: at height 0, or with a value
    /// at an index that a trie one level lower has no place for.
    pub open spec fn minimal(&self) -> bool {
        self.root.height == 0 || exists|j: nat|
            capacity(self.root.bit_width as nat, (self.root.height - 1) as nat) <= j && is_value(
                #[trigger] self.at(j),
            )
    }

    /// The trie has the one shape that its values give it: all of it is in
    /// memory, no node of it is empty, and it is no higher than it has to be.
    /// A trie is so from when it is made, and stays so as values are set and
    /// deleted.
    pub open spec fn canonical(&self) -> bool {
        &&& self.resident()
        &&& tight(self.root.node@, self.root.height as nat)
        &&& self.minimal()
    }

    /// No node of the trie is empty, in memory or in the store, and every
    /// node in the store can be read. A trie is so from when it is made, and
    /// stays so as values are set and deleted.
    pub open spec fn dense(&self) -> bool {
        dense(
            self.root.node@,
            self.block_store.blocks(),
            self.root.bit_width as nat,
            self.root.height as nat,
        )
    }

    /// The whole trie is in memory: nothing of it has yet to be read from the
    /// store. A trie is so from when it is made, not from when it is read.
    pub open spec fn resident(&self) -> bool {
        resident(self.root.node@, self.root.height as nat)
    }

    /// The block the root is written as.
    pub open spec fn spec_block(&self) -> Seq<u8> {
        root_bytes(
            Ver::names_bit_width(),
            self.root.bit_width,
            self.root.height,
            self.root.count,
            collapse_spec(self.root.node@, self.root.bit_width as nat),
        )
    }

    /// The identifier of the block the root is written as.
    pub open spec fn spec_cid(&self) -> Seq<u8> {
        root_cid(
            Ver::names_bit_width(),
            self.root.bit_width,
            self.root.height,
            self.root.count,
            self.root.node@,
        )
    }

    /// What the trie holds at index `i`: a value, or nothing, or the error
    /// that the way to the index ends in.
    pub open spec fn at(&self, i: nat) -> Result<Option<Seq<u8>>, ErrorView> {
        if i >= capacity(self.root.bit_width as nat, self.root.height as nat) {
            Ok(None)
        } else {
            lookup(
                self.root.node@,
                self.block_store.blocks(),
                self.root.bit_width as nat,
                self.root.height as nat,
                i,
            )
        }
    }

    /// An empty trie of the default bit width.
    pub fn new(block_store: BS) -> (amt: Self)
        ensures
            amt.wf(),
            amt.root.bit_width == DEFAULT_BIT_WIDTH,
            amt.root.height == 0,
            amt.root.count == 0,
            amt.flushed_cid is None,
            amt.block_store == block_store,
            amt.resident(),
            amt.count_exact(),
            amt.canonical(),
            amt.dense(),
            forall|i: nat| amt.at(i) == Ok::<Option<Seq<u8>>, ErrorView>(None),
    {
        Self::new_with_bit_width(block_store, DEFAULT_BIT_WIDTH)
    }

    /// An empty trie of the given bit width.
    pub fn new_with_bit_width(block_store: BS, bit_width: u32) -> (amt: Self)
        requires
            valid_bit_width(bit_width),
        ensures
            amt.wf(),
            amt.root.bit_width == bit_width,
            amt.root.height == 0,
            amt.root.count == 0,
            amt.flushed_cid is None,
            amt.block_store == block_store,
            amt.resident(),
            amt.count_exact(),
            amt.canonical(),
            amt.dense(),
            forall|i: nat| amt.at(i) == Ok::<Option<Seq<u8>>, ErrorView>(None),
    {
        let amt = AmtImpl { root: Root::new(bit_width), block_store, flushed_cid: None };
        proof {
            assert forall|i: nat| amt.at(i) == Ok::<Option<Seq<u8>>, ErrorView>(None) by {
                lemma_empty_lookup(
                    amt.root.node@,
                    amt.block_store.blocks(),
                    bit_width as nat,
                    0,
                    i,
                );
            }
            lemma_count_none(|j: nat| amt.at(j), MAX_INDEX as nat + 1);
        }
        amt
    }

    /// The bit width of the trie.
    pub fn bit_width(&self) -> (w: u32)
        ensures
            w == self.root.bit_width,
    {
        self.root.bit_width
    }

    /// The height of the trie.
    pub fn height(&self) -> (h: u32)
        ensures
            h == self.root.height,
    {
        self.root.height
    }

    /// The number of values in the trie.
    pub fn count(&self) -> (n: u64)
        ensures
            n == self.root.count,
    {
        self.root.count
    }

    /// The store the trie is kept in.
    pub fn store(&self) -> (bs: &BS)
        ensures
            *bs == self.block_store,
    {
        &self.block_store
    }

    /// Gives up the trie for the store it is kept in.
    pub fn into_store(self) -> (bs: BS)
        ensures
            bs == self.block_store,
    {
        self.block_store
    }

    /// Whether the trie of this height has a place for index `i`.
    fn holds_index(&self, i: u64) -> (r: bool)
        requires
            self.wf(),
            i <= MAX_INDEX,
        ensures
            r == (i < capacity(self.root.bit_width as nat, self.root.height as nat)),
    {
        proof {
            lemma_max_height(self.root.bit_width as nat);
        }
        i < nodes_for_height(self.root.bit_width, self.root.height + 1)
    }

    /// The value at index `i`.
    pub fn get(&self, i: u64) -> (r: Result<Option<Vec<u8>>, Error>)
        requires
            self.wf(),
        ensures
            i > MAX_INDEX ==> (r matches Err(e) && e@ == ErrorView::OutOfRange(i)),
            self.block_store.reliable() ==> !(r matches Err(Error::BlockStore(_))),
            i <= MAX_INDEX && i >= capacity(self.root.bit_width as nat, self.root.height as nat)
                ==> r matches Ok(None),
            i <= MAX_INDEX && in_memory(
                self.root.node@,
                self.root.bit_width as nat,
                self.root.height as nat,
                i as nat,
            ) ==> r is Ok,
            i <= MAX_INDEX && self.dense() && self.block_store.reliable() ==> r is Ok,
            i <= MAX_INDEX ==> (r matches Ok(v) ==> self.at(i as nat) == Ok::<
                Option<Seq<u8>>,
                ErrorView,
            >(crate::node::value_view(v))),
            i <= MAX_INDEX ==> (r matches Err(e) ==> e@ is BlockStore || self.at(i as nat) == Err::<
                Option<Seq<u8>>,
                ErrorView,
            >(e@)),
    {
        if i > MAX_INDEX {
            return Err(Error::OutOfRange(i));
        }
        if !self.holds_index(i) {
            return Ok(None);
        }
        proof {
            self.lemma_dense_reads(i as nat);
        }
        self.root.node.get(&self.block_store, self.root.height, self.root.bit_width, i)
    }

    /// In a trie with no empty node in it, where every node in the store can
    /// be read, the way to an index ends in no error.
    pub proof fn lemma_dense_reads(&self, j: nat)
        requires
            self.wf(),
        ensures
            self.dense() ==> self.at(j) is Ok,
    {
        if self.dense() && j < capacity(self.root.bit_width as nat, self.root.height as nat) {
            lemma_dense_lookup(
                self.root.node@,
                self.block_store.blocks(),
                self.root.bit_width as nat,
                self.root.height as nat,
                j,
            );
        }
    }

    /// Makes the trie one level higher: the top node becomes the child in slot
    /// 0 of a new top node, or, where it is empty, gives way to an empty one.
    fn grow(&mut self)
        requires
            old(self).wf(),
            old(self).root.height < spec_max_height(old(self).root.bit_width as nat),
        ensures
            final(self).wf(),
            final(self).block_store == old(self).block_store,
            final(self).root.bit_width == old(self).root.bit_width,
            old(self).resident() ==> final(self).resident(),
            old(self).count_exact() ==> final(self).count_exact(),
            tight(old(self).root.node@, old(self).root.height as nat) ==> tight(
                final(self).root.node@,
                final(self).root.height as nat,
            ),
            old(self).dense() ==> final(self).dense(),
            final(self).root.count == old(self).root.count,
            final(self).root.height == old(self).root.height + 1,
            final(self).root.node@ == wrapped(old(self).root.node@, old(self).root.bit_width as nat),
            final(self).flushed_cid is None,
            forall|j: nat| #[trigger] final(self).at(j) == old(self).at(j),
            forall|j: nat|
                j >= capacity(old(self).root.bit_width as nat, old(self).root.height as nat)
                    || in_memory(
                    old(self).root.node@,
                    old(self).root.bit_width as nat,
                    old(self).root.height as nat,
                    j,
                ) ==> #[trigger] in_memory(
                    final(self).root.node@,
                    final(self).root.bit_width as nat,
                    final(self).root.height as nat,
                    j,
                ),
    {
        let ghost w = self.root.bit_width as nat;
        let ghost h = self.root.height as nat;
        let ghost before = self.root.node@;
        let ghost blocks = self.block_store.blocks();
        proof {
            lemma_max_height(w);
        }
        let mut links: Vec<Option<Link>> = init_sized_vec(crate::index::fanout(self.root.bit_width));
        let was_empty = self.root.node.is_empty();
        if !was_empty {
            let mut child = Node::empty(self.root.bit_width, 0);
            core::mem::swap(&mut self.root.node, &mut child);
            links[0] = Some(Link::Dirty(Box::new(child)));
        }
        self.root.node = Node::Link { links };
        self.root.height = self.root.height + 1;
        self.flushed_cid = None;
        proof {
            let after = self.root.node@;
            assert(after->Link_links.len() == width(w));
            assert forall|k: int| 1 <= k < width(w) implies (#[trigger] after->Link_links[k])
                is None by {}
            if was_empty {
                assert(after->Link_links[0] is None);
            } else {
                assert(after->Link_links[0] == Some(LinkView::Dirty(before)));
            }
            assert(after->Link_links =~= wrapped(before, w)->Link_links);
            lemma_span_pos(w, h);
            lemma_wrap(before, after, blocks, w, h);
            lemma_capacity_grows(w, h);
            assert forall|j: nat| #[trigger] self.at(j) == old(self).at(j) by {}
            lemma_exact_kept(old(self), self);
            if old(self).dense() {
                lemma_wrap_dense(before, blocks, w, h);
            }
        }
    }

    /// Puts `val` at index `i`, in a trie that is made as high as the index
    /// asks for. The count goes up where nothing was at `i`.
    #[verifier::rlimit(30)]
    pub fn set(&mut self, i: u64, val: Vec<u8>) -> (r: Result<(), Error>)
        requires
            old(self).wf(),
        ensures
            final(self).wf(),
            final(self).block_store == old(self).block_store,
            final(self).root.bit_width == old(self).root.bit_width,
            old(self).resident() ==> final(self).resident(),
            old(self).count_exact() ==> final(self).count_exact(),
            old(self).canonical() ==> final(self).canonical(),
            old(self).dense() ==> final(self).dense(),
            old(self).minimal() ==> final(self).minimal(),
            i <= MAX_INDEX && old(self).dense() && old(self).block_store.reliable() ==> r is Ok,
            i > MAX_INDEX ==> (r matches Err(e) && e@ == ErrorView::OutOfRange(i)),
            old(self).block_store.reliable() ==> !(r matches Err(Error::BlockStore(_))),
            i <= MAX_INDEX ==> (r matches Err(e) ==> e@ is BlockStore || old(self).at(i as nat)
                == Err::<Option<Seq<u8>>, ErrorView>(e@)),
            i <= MAX_INDEX && old(self).at(i as nat) is Err ==> r is Err,
            i <= MAX_INDEX && (i >= capacity(
                old(self).root.bit_width as nat,
                old(self).root.height as nat,
            ) || in_memory(
                old(self).root.node@,
                old(self).root.bit_width as nat,
                old(self).root.height as nat,
                i as nat,
            )) ==> r is Ok,
            r is Err ==> final(self).root@ == old(self).root@ && final(self).flushed_cid == old(
                self,
            ).flushed_cid,
            r is Ok ==> {
                &&& forall|j: nat| #[trigger]
                    final(self).at(j) == (if j == i {
                        Ok::<Option<Seq<u8>>, ErrorView>(Some(val@))
                    } else {
                        old(self).at(j)
                    })
                &&& final(self).flushed_cid is None
                &&& final(self).root.count == (if old(self).at(i as nat) == Ok::<
                    Option<Seq<u8>>,
                    ErrorView,
                >(None) && old(self).root.count < u64::MAX {
                    old(self).root.count + 1
                } else {
                    old(self).root.count as int
                })
                &&& final(self).root.height >= old(self).root.height
                &&& i < capacity(old(self).root.bit_width as nat, old(self).root.height as nat)
                    ==> final(self).root.height == old(self).root.height
                &&& i < capacity(final(self).root.bit_width as nat, final(self).root.height as nat)
                &&& final(self).root.height > old(self).root.height ==> i >= capacity(
                    final(self).root.bit_width as nat,
                    (final(self).root.height - 1) as nat,
                )
                &&& final(self).root.node@ == set_result(
                    grown(
                        old(self).root.node@,
                        old(self).root.bit_width as nat,
                        (final(self).root.height - old(self).root.height) as nat,
                    ),
                    old(self).block_store.blocks(),
                    old(self).root.bit_width as nat,
                    final(self).root.height as nat,
                    i as nat,
                    val@,
                )
            },
    {
        if i > MAX_INDEX {
            return Err(Error::OutOfRange(i));
        }
        let ghost w = self.root.bit_width as nat;
        let ghost blocks = self.block_store.blocks();
        let ghost mut raised = false;
        proof {
            lemma_max_height(w);
            self.lemma_dense_reads(i as nat);
        }
        while !self.holds_index(i)
            invariant
                self.wf(),
                i <= MAX_INDEX,
                w == self.root.bit_width,
                w == old(self).root.bit_width,
                old(self).resident() ==> self.resident(),
                old(self).count_exact() ==> self.count_exact(),
                old(self).dense() ==> self.dense(),
                tight(old(self).root.node@, old(self).root.height as nat) ==> tight(
                    self.root.node@,
                    self.root.height as nat,
                ),
                blocks == self.block_store.blocks(),
                self.block_store == old(self).block_store,
                self.root.count == old(self).root.count,
                self.root.height >= old(self).root.height,
                self.root.node@ == grown(
                    old(self).root.node@,
                    w,
                    (self.root.height - old(self).root.height) as nat,
                ),
                !raised ==> self.root@ == old(self).root@ && self.flushed_cid == old(
                    self,
                ).flushed_cid,
                raised ==> self.flushed_cid is None && self.root.height > old(self).root.height && i
                    >= capacity(w, (self.root.height - 1) as nat) && i >= capacity(
                    w,
                    old(self).root.height as nat,
                ) && in_memory(self.root.node@, w, self.root.height as nat, i as nat),
                forall|j: nat| #[trigger] self.at(j) == old(self).at(j),
            decreases spec_max_height(w) - self.root.height,
        {
            proof {
                lemma_height_in_reach(w, self.root.height as nat, i as nat);
                raised = true;
            }
            self.grow();
        }
        let ghost before = self.root.node@;
        let ghost h = self.root.height as nat;
        let ghost pre = *self;
        proof {
            assert(self.at(i as nat) == old(self).at(i as nat));
        }
        let outcome = self.root.node.set(
            &self.block_store,
            self.root.height,
            self.root.bit_width,
            i,
            val,
        );
        match outcome {
            Err(e) => {
                proof {
                    assert(!raised);
                    assert forall|j: nat| #[trigger] self.at(j) == old(self).at(j) by {}
                    lemma_exact_kept(old(self), self);
                    lemma_minimal_kept(old(self), self);
                }
                Err(e)
            },
            Ok(prev) => {
                proof {
                    if old(self).count_exact() {
                        lemma_exact_room(old(self), i as nat);
                    }
                }
                if prev.is_none() && self.root.count < u64::MAX {
                    self.root.count = self.root.count + 1;
                }
                self.flushed_cid = None;
                proof {
                    assert(self.wf());
                    assert(old(self).at(i as nat) == Ok::<Option<Seq<u8>>, ErrorView>(
                        crate::node::value_view(prev),
                    ));
                    assert(i < capacity(w, h));
                    assert forall|j: nat| #[trigger]
                        self.at(j) == (if j == i {
                            Ok::<Option<Seq<u8>>, ErrorView>(Some(val@))
                        } else {
                            old(self).at(j)
                        }) by {
                        assert(pre.at(j) == old(self).at(j));
                        if j < capacity(w, h) {
                            assert(lookup(self.root.node@, blocks, w, h, j) == (if j == i {
                                Ok::<Option<Seq<u8>>, ErrorView>(Some(val@))
                            } else {
                                lookup(before, blocks, w, h, j)
                            }));
                        }
                    }
                    if old(self).count_exact() {
                        lemma_exact_update(old(self), self, i as nat);
                    }
                    if raised {
                        assert(is_value(self.at(i as nat)));
                    } else {
                        lemma_minimal_kept(old(self), self);
                    }
                    if old(self).dense() {
                        lemma_set_dense(before, blocks, w, h, i as nat, val@);
                    }
                }
                Ok(())
            },
        }
    }

    /// Makes good a delete that could not be brought to its end: the trie goes
    /// back to the height it had, and the value to its index. Nothing has to
    /// be read for it.
    fn put_back(&mut self, height: u32, i: u64, val: Vec<u8>)
        requires
            old(self).wf(),
            old(self).flushed_cid is None,
            old(self).root.height <= height <= spec_max_height(old(self).root.bit_width as nat),
            i <= MAX_INDEX,
            i < capacity(old(self).root.bit_width as nat, height as nat),
            i >= capacity(old(self).root.bit_width as nat, old(self).root.height as nat)
                || in_memory(
                old(self).root.node@,
                old(self).root.bit_width as nat,
                old(self).root.height as nat,
                i as nat,
            ),
        ensures
            final(self).wf(),
            final(self).block_store == old(self).block_store,
            final(self).root.bit_width == old(self).root.bit_width,
            final(self).root.count == old(self).root.count,
            final(self).root.height == height,
            final(self).flushed_cid is None,
            old(self).resident() ==> final(self).resident(),
            old(self).dense() ==> final(self).dense(),
            forall|j: nat| #[trigger]
                final(self).at(j) == (if j == i {
                    Ok::<Option<Seq<u8>>, ErrorView>(Some(val@))
                } else {
                    old(self).at(j)
                }),
    {
        let ghost w = self.root.bit_width as nat;
        let ghost blocks = self.block_store.blocks();
        while self.root.height < height
            invariant
                self.wf(),
                w == self.root.bit_width,
                self.root.bit_width == old(self).root.bit_width,
                self.block_store == old(self).block_store,
                blocks == self.block_store.blocks(),
                self.root.count == old(self).root.count,
                self.root.height <= height,
                height <= spec_max_height(w),
                self.flushed_cid is None,
                old(self).resident() ==> self.resident(),
                old(self).dense() ==> self.dense(),
                forall|j: nat| #[trigger] self.at(j) == old(self).at(j),
                i >= capacity(w, self.root.height as nat) || in_memory(
                    self.root.node@,
                    w,
                    self.root.height as nat,
                    i as nat,
                ),
            decreases height - self.root.height,
        {
            self.grow();
        }
        let ghost back = *self;
        let undone = self.root.node.set(
            &self.block_store,
            self.root.height,
            self.root.bit_width,
            i,
            val,
        );
        proof {
            assert(undone is Ok);
            if old(self).dense() {
                lemma_set_dense(back.root.node@, blocks, w, height as nat, i as nat, val@);
            }
            assert forall|j: nat| #[trigger]
                self.at(j) == (if j == i {
                    Ok::<Option<Seq<u8>>, ErrorView>(Some(val@))
                } else {
                    old(self).at(j)
                }) by {
                assert(back.at(j) == old(self).at(j));
                if j < capacity(w, height as nat) {
                    assert(lookup(self.root.node@, blocks, w, height as nat, j) == (if j == i {
                        Ok::<Option<Seq<u8>>, ErrorView>(Some(val@))
                    } else {
                        lookup(back.root.node@, blocks, w, height as nat, j)
                    }));
                }
            }
        }
    }

    /// Puts the only child of the top node in its place, as long as the top
    /// node has a child in slot 0 and nowhere else. Where that child cannot be
    /// read, the trie stays at the height it has come down to.
    fn collapse_root(&mut self) -> (r: Result<(), Error>)
        requires
            old(self).wf(),
            old(self).flushed_cid is None,
        ensures
            final(self).wf(),
            final(self).block_store == old(self).block_store,
            final(self).root.bit_width == old(self).root.bit_width,
            old(self).resident() ==> final(self).resident(),
            old(self).count_exact() ==> final(self).count_exact(),
            old(self).dense() ==> final(self).dense(),
            tight(old(self).root.node@, old(self).root.height as nat) ==> tight(
                final(self).root.node@,
                final(self).root.height as nat,
            ),
            final(self).root.count == old(self).root.count,
            final(self).root.height <= old(self).root.height,
            final(self).flushed_cid is None,
            forall|j: nat| #[trigger] final(self).at(j) == old(self).at(j),
            forall|j: nat|
                j < capacity(final(self).root.bit_width as nat, final(self).root.height as nat)
                    && in_memory(
                    old(self).root.node@,
                    old(self).root.bit_width as nat,
                    old(self).root.height as nat,
                    j,
                ) ==> #[trigger] in_memory(
                    final(self).root.node@,
                    final(self).root.bit_width as nat,
                    final(self).root.height as nat,
                    j,
                ),
            old(self).block_store.reliable() ==> !(r matches Err(Error::BlockStore(_))),
            in_memory(
                old(self).root.node@,
                old(self).root.bit_width as nat,
                old(self).root.height as nat,
                0,
            ) ==> r is Ok,
            r matches Err(e) ==> e@ is BlockStore || final(self).at(0) == Err::<
                Option<Seq<u8>>,
                ErrorView,
            >(e@),
            r is Ok ==> !(final(self).root.height > 0 && can_collapse_spec(final(self).root.node@)),
            r is Ok ==> settle_fault(
                old(self).root.node@,
                old(self).block_store.blocks(),
                old(self).root.bit_width as nat,
                old(self).root.height as nat,
            ) is None,
            r matches Err(e) ==> e@ is BlockStore || settle_fault(
                old(self).root.node@,
                old(self).block_store.blocks(),
                old(self).root.bit_width as nat,
                old(self).root.height as nat,
            ) == Some(e@),
            collapsed(
                final(self).root.node@,
                final(self).block_store.blocks(),
                final(self).root.bit_width as nat,
                final(self).root.height as nat,
            ) == collapsed(
                old(self).root.node@,
                old(self).block_store.blocks(),
                old(self).root.bit_width as nat,
                old(self).root.height as nat,
            ),
            old(self).dense() && !is_empty_spec(old(self).root.node@) ==> !is_empty_spec(
                final(self).root.node@,
            ),
    {
        let ghost w = self.root.bit_width as nat;
        let ghost blocks = self.block_store.blocks();
        while self.root.height > 0 && self.root.node.can_collapse()
            invariant
                self.wf(),
                collapsed(self.root.node@, blocks, w, self.root.height as nat) == collapsed(
                    old(self).root.node@,
                    blocks,
                    w,
                    old(self).root.height as nat,
                ),
                old(self).dense() && !is_empty_spec(old(self).root.node@) ==> !is_empty_spec(
                    self.root.node@,
                ),
                settle_fault(self.root.node@, blocks, w, self.root.height as nat) == settle_fault(
                    old(self).root.node@,
                    blocks,
                    w,
                    old(self).root.height as nat,
                ),
                self.flushed_cid is None,
                w == self.root.bit_width,
                blocks == self.block_store.blocks(),
                self.block_store == old(self).block_store,
                self.root.bit_width == old(self).root.bit_width,
                old(self).resident() ==> self.resident(),
                old(self).count_exact() ==> self.count_exact(),
                old(self).dense() ==> self.dense(),
                tight(old(self).root.node@, old(self).root.height as nat) ==> tight(
                    self.root.node@,
                    self.root.height as nat,
                ),
                self.root.count == old(self).root.count,
                self.root.height <= old(self).root.height,
                forall|j: nat| #[trigger] self.at(j) == old(self).at(j),
                forall|j: nat|
                    j < capacity(w, self.root.height as nat) && in_memory(
                        old(self).root.node@,
                        w,
                        old(self).root.height as nat,
                        j,
                    ) ==> #[trigger] in_memory(self.root.node@, w, self.root.height as nat, j),
            decreases self.root.height,
        {
            let ghost pre = *self;
            let ghost h = self.root.height as nat;
            let ghost top = self.root.node@;
            let mut taken = Node::empty(self.root.bit_width, 0);
            core::mem::swap(&mut self.root.node, &mut taken);
            match taken {
                Node::Leaf { vals } => {
                    self.root.node = Node::Leaf { vals };
                },
                Node::Link { links } => {
                    let mut links = links;
                    let ghost old_links = links@;
                    proof {
                        assert(top->Link_links[0] == slot_view(old_links[0]));
                    }
                    let first = links[0].take();
                    let child = match first {
                        Some(Link::Dirty(child)) => *child,
                        Some(Link::Cid { cid, cache: Some(child) }) => *child,
                        Some(Link::Cid { cid, cache: None }) => {
                            match Node::load(
                                &self.block_store,
                                &cid,
                                self.root.bit_width,
                                self.root.height - 1,
                            ) {
                                Ok(child) => {
                                    proof {
                                        lemma_loaded_wf(blocks, cid@, w, (h - 1) as nat);
                                    }
                                    child
                                },
                                Err(e) => {
                                    links[0] = Some(Link::Cid { cid, cache: None });
                                    self.root.node = Node::Link { links };
                                    proof {
                                        assert(self.root.node@->Link_links =~= top->Link_links);
                                        assert(self.root.node@ == top);
                                        lemma_span_pos(w, h);
                                        lemma_span_pos(w, (h - 1) as nat);
                                        lemma_single_child(top, blocks, w, h, 0);
                                        assert forall|j: nat| #[trigger] self.at(j) == pre.at(j) by {}
                                        lemma_exact_kept(old(self), self);
                                        assert(0 < capacity(w, h)) by {
                                            lemma_capacity_grows(w, (h - 1) as nat);
                                        }
                                        assert(slot_of(w, h, 0) == 0) by {
                                            lemma_split(w, h, 0);
                                        }
                                        assert(!in_memory(top, w, h, 0));
                                    }
                                    return Err(e);
                                },
                            }
                        },
                        None => Node::empty(self.root.bit_width, self.root.height - 1),
                    };
                    let ghost lower = child@;
                    self.root.node = child;
                    self.root.height = self.root.height - 1;
                    proof {
                        assert(lower == child_in(top->Link_links[0], blocks, w, (h - 1) as nat));
                        lemma_capacity_grows(w, (h - 1) as nat);
                        assert forall|j: nat| #[trigger] self.at(j) == pre.at(j) by {
                            if j < capacity(w, h) {
                                lemma_single_child(top, blocks, w, h, j);
                            }
                        }
                        assert forall|j: nat|
                            j < capacity(w, (h - 1) as nat) && in_memory(
                                top,
                                w,
                                h,
                                j,
                            ) implies #[trigger] in_memory(lower, w, (h - 1) as nat, j) by {
                            lemma_single_child(top, blocks, w, h, j);
                        }
                        lemma_exact_kept(old(self), self);
                    }
                },
            }
        }
        Ok(())
    }

    /// Takes out what is at index `i` and returns it. The count goes down. A
    /// trie that is left empty goes back to height 0; in any other the top node
    /// gives way to its only child as long as it has one in slot 0 and nowhere
    /// else. Where an error arises, the trie holds what it held, at the height
    /// and count it had.
    #[verifier::rlimit(30)]
    pub fn delete(&mut self, i: u64) -> (r: Result<Option<Vec<u8>>, Error>)
        requires
            old(self).wf(),
        ensures
            final(self).wf(),
            final(self).block_store == old(self).block_store,
            final(self).root.bit_width == old(self).root.bit_width,
            old(self).resident() ==> final(self).resident(),
            old(self).count_exact() ==> final(self).count_exact(),
            r is Ok && old(self).canonical() ==> final(self).canonical(),
            old(self).dense() ==> final(self).dense(),
            old(self).dense() && old(self).minimal() ==> final(self).minimal(),
            i <= MAX_INDEX && old(self).dense() && old(self).block_store.reliable() ==> r is Ok,
            final(self).flushed_cid is None || (final(self).root@ == old(self).root@
                && final(self).flushed_cid == old(self).flushed_cid),
            i > MAX_INDEX ==> (r matches Err(e) && e@ == ErrorView::OutOfRange(i))
                && final(self).root@ == old(self).root@
                && final(self).flushed_cid == old(self).flushed_cid,
            old(self).block_store.reliable() ==> !(r matches Err(Error::BlockStore(_))),
            i <= MAX_INDEX ==> (r matches Err(e) ==> e@ is BlockStore || old(self).at(i as nat)
                == Err::<Option<Seq<u8>>, ErrorView>(e@) || (is_value(old(self).at(i as nat))
                && old(self).at(0) == Err::<Option<Seq<u8>>, ErrorView>(e@) && settle_fault(
                delete_result(
                    old(self).root.node@,
                    old(self).block_store.blocks(),
                    old(self).root.bit_width as nat,
                    old(self).root.height as nat,
                    i as nat,
                ),
                old(self).block_store.blocks(),
                old(self).root.bit_width as nat,
                old(self).root.height as nat,
            ) == Some(e@))),
            i <= MAX_INDEX && old(self).at(i as nat) is Err ==> r is Err,
            i <= MAX_INDEX && i >= capacity(
                old(self).root.bit_width as nat,
                old(self).root.height as nat,
            ) ==> r matches Ok(None),
            i <= MAX_INDEX && in_memory(
                old(self).root.node@,
                old(self).root.bit_width as nat,
                old(self).root.height as nat,
                i as nat,
            ) && (is_value(old(self).at(i as nat)) ==> in_memory(
                delete_result(
                    old(self).root.node@,
                    old(self).block_store.blocks(),
                    old(self).root.bit_width as nat,
                    old(self).root.height as nat,
                    i as nat,
                ),
                old(self).root.bit_width as nat,
                old(self).root.height as nat,
                0,
            )) ==> r is Ok,
            i <= MAX_INDEX && old(self).resident() ==> r is Ok,
            r matches Ok(Some(_)) ==> settle_fault(
                delete_result(
                    old(self).root.node@,
                    old(self).block_store.blocks(),
                    old(self).root.bit_width as nat,
                    old(self).root.height as nat,
                    i as nat,
                ),
                old(self).block_store.blocks(),
                old(self).root.bit_width as nat,
                old(self).root.height as nat,
            ) is None,
            r is Err ==> {
                &&& forall|j: nat| #[trigger] final(self).at(j) == old(self).at(j)
                &&& final(self).root.count == old(self).root.count
                &&& final(self).root.height == old(self).root.height
            },
            r matches Ok(found) ==> old(self).at(i as nat) == Ok::<Option<Seq<u8>>, ErrorView>(
                crate::node::value_view(found),
            ),
            r matches Ok(None) ==> final(self).root@ == old(self).root@ && final(self).flushed_cid
                == old(self).flushed_cid,
            r matches Ok(Some(_)) ==> {
                &&& forall|j: nat| #[trigger]
                    final(self).at(j) == (if j == i {
                        Ok::<Option<Seq<u8>>, ErrorView>(None)
                    } else {
                        old(self).at(j)
                    })
                &&& final(self).flushed_cid is None
                &&& final(self).root.count == (if old(self).root.count > 0 {
                    old(self).root.count - 1
                } else {
                    0
                })
                &&& final(self).root.height <= old(self).root.height
                &&& !(final(self).root.height > 0 && can_collapse_spec(final(self).root.node@))
                &&& old(self).dense() ==> !(final(self).root.height > 0 && is_empty_spec(
                    final(self).root.node@,
                ))
                &&& (final(self).root.node@, final(self).root.height as nat) == settled(
                    delete_result(
                        old(self).root.node@,
                        old(self).block_store.blocks(),
                        old(self).root.bit_width as nat,
                        old(self).root.height as nat,
                        i as nat,
                    ),
                    old(self).block_store.blocks(),
                    old(self).root.bit_width as nat,
                    old(self).root.height as nat,
                )
            },
    {
        if i > MAX_INDEX {
            return Err(Error::OutOfRange(i));
        }
        if !self.holds_index(i) {
            return Ok(None);
        }
        let ghost w = self.root.bit_width as nat;
        let ghost blocks = self.block_store.blocks();
        let height = self.root.height;
        proof {
            if old(self).resident() {
                lemma_resident_in_memory(self.root.node@, w, height as nat, i as nat);
            }
            if old(self).canonical() {
                lemma_tight_dense(self.root.node@, blocks, w, height as nat);
            }
            if old(self).dense() {
                lemma_delete_dense(self.root.node@, blocks, w, height as nat, i as nat);
            }
            self.lemma_dense_reads(i as nat);
            self.lemma_dense_reads(0);
        }
        let deleted = match self.root.node.delete(
            &self.block_store,
            self.root.height,
            self.root.bit_width,
            i,
        ) {
            Err(e) => {
                proof {
                    assert forall|j: nat| #[trigger] self.at(j) == old(self).at(j) by {}
                    lemma_exact_kept(old(self), self);
                    lemma_minimal_kept(old(self), self);
                }
                return Err(e);
            },
            Ok(None) => {
                proof {
                    assert forall|j: nat| #[trigger] self.at(j) == old(self).at(j) by {}
                    lemma_exact_kept(old(self), self);
                    lemma_minimal_kept(old(self), self);
                }
                return Ok(None);
            },
            Ok(Some(v)) => v,
        };
        self.flushed_cid = None;
        let ghost cut = *self;
        proof {
            if old(self).resident() {
                lemma_resident_in_memory(cut.root.node@, w, height as nat, 0);
            }
            assert forall|j: nat| #[trigger]
                cut.at(j) == (if j == i {
                    Ok::<Option<Seq<u8>>, ErrorView>(None)
                } else {
                    old(self).at(j)
                }) by {
                if j < capacity(w, height as nat) {
                    assert(lookup(cut.root.node@, blocks, w, height as nat, j) == (if j == i {
                        Ok::<Option<Seq<u8>>, ErrorView>(None)
                    } else {
                        lookup(old(self).root.node@, blocks, w, height as nat, j)
                    }));
                }
            }
        }
        if self.root.node.is_empty() {
            if self.root.height > 0 {
                self.root.node = Node::empty(self.root.bit_width, 0);
                self.root.height = 0;
                proof {
                    assert forall|j: nat| #[trigger] self.at(j) == cut.at(j) by {
                        lemma_empty_lookup(cut.root.node@, blocks, w, height as nat, j);
                        lemma_empty_lookup(self.root.node@, blocks, w, 0, j);
                    }
                }
            }
        } else {
            match self.collapse_root() {
                Ok(()) => {},
                Err(e) => {
                    let ghost low = *self;
                    proof {
                        assert(low.at(i as nat) == cut.at(i as nat));
                        assert(low.at(0) == cut.at(0));
                    }
                    self.put_back(height, i, deleted);
                    proof {
                        assert forall|j: nat| #[trigger] self.at(j) == old(self).at(j) by {
                            assert(low.at(j) == cut.at(j));
                        }
                        lemma_exact_kept(old(self), self);
                        lemma_minimal_kept(old(self), self);
                    }
                    return Err(e);
                },
            }
        }
        let ghost settled = *self;
        if self.root.count > 0 {
            self.root.count = self.root.count - 1;
        }
        proof {
            assert forall|j: nat| #[trigger]
                self.at(j) == (if j == i {
                    Ok::<Option<Seq<u8>>, ErrorView>(None)
                } else {
                    old(self).at(j)
                }) by {
                assert(settled.at(j) == cut.at(j));
            }
            if old(self).count_exact() {
                lemma_exact_room(old(self), i as nat);
                lemma_exact_update(old(self), self, i as nat);
            }
            if old(self).dense() && self.root.height > 0 {
                lemma_settled_minimal(
                    self.root.node@,
                    blocks,
                    w,
                    self.root.height as nat,
                );
                let j = choose|j: nat|
                    capacity(w, (self.root.height - 1) as nat) <= j < capacity(
                        w,
                        self.root.height as nat,
                    ) && is_value(
                        #[trigger] lookup(self.root.node@, blocks, w, self.root.height as nat, j),
                    );
                assert(is_value(self.at(j)));
            }
        }
        Ok(Some(deleted))
    }

    /// Writes what is dirty to the store, children before parents and the root
    /// last, and returns the identifier of the root. A trie that has not changed
    /// since it was written or read writes nothing and returns the identifier
    /// it remembers.
    pub fn flush(&mut self) -> (r: Result<Cid, Error>)
        requires
            old(self).wf(),
        ensures
            final(self).wf(),
            final(self).root.bit_width == old(self).root.bit_width,
            old(self).resident() ==> final(self).resident(),
            old(self).resident() && old(self).count_exact() ==> final(self).count_exact(),
            old(self).canonical() ==> final(self).canonical(),
            forall|j: nat|
                in_memory(
                    old(self).root.node@,
                    old(self).root.bit_width as nat,
                    old(self).root.height as nat,
                    j,
                ) ==> #[trigger] final(self).at(j) == old(self).at(j),
            no_collisions() && addressed(old(self).block_store.blocks()) ==> addressed(
                final(self).block_store.blocks(),
            ),
            no_collisions() && addressed(old(self).block_store.blocks()) && old(self).dense() ==> {
                &&& final(self).dense()
                &&& forall|j: nat| #[trigger] final(self).at(j) == old(self).at(j)
                &&& old(self).minimal() ==> final(self).minimal()
                &&& old(self).count_exact() ==> final(self).count_exact()
            },
            final(self).root.height == old(self).root.height,
            final(self).root.count == old(self).root.count,
            store_step(old(self).block_store.blocks(), final(self).block_store.blocks()),
            final(self).block_store.reliable() == old(self).block_store.reliable(),
            old(self).block_store.reliable() ==> r is Ok,
            r matches Err(e) ==> e@ is BlockStore && final(self).flushed_cid is None,
            old(self).flushed_cid matches Some(known) ==> r matches Ok(cid) && cid@ == known@
                && final(self).root@ == old(self).root@ && final(self).block_store == old(
                self,
            ).block_store,
            r matches Ok(cid) ==> {
                &&& final(self).flushed_cid matches Some(kept) && kept@ == cid@
                &&& final(self).root.node@ == flushed(
                    old(self).root.node@,
                    old(self).root.bit_width as nat,
                    old(self).root.height as nat,
                )
                &&& old(self).flushed_cid is None ==> cid@ == final(self).spec_cid() && cid.wf()
                    && final(self).block_store.blocks() == flush_writes(
                    old(self).root.node@,
                    old(self).block_store.blocks(),
                    old(self).root.bit_width as nat,
                    old(self).root.height as nat,
                ).insert(final(self).spec_cid(), final(self).spec_block())
            },
    {
        let ghost w = self.root.bit_width as nat;
        let ghost h = self.root.height as nat;
        let ghost before = self.root.node@;
        let ghost start = self.block_store.blocks();
        if let Some(known) = &self.flushed_cid {
            proof {
                lemma_flushed_clean(before, w, h);
                lemma_exact_kept(old(self), self);
                lemma_minimal_kept(old(self), self);
            }
            return Ok(known.clone());
        }
        let flushed = self.root.node.flush(
            &mut self.block_store,
            self.root.height,
            self.root.bit_width,
        );
        let r = match flushed {
            Err(e) => Err(e),
            Ok(()) => {
                proof {
                    lemma_clean_links(self.root.node@, h);
                }
                let bytes = self.root.encode();
                let ghost mid = self.block_store.blocks();
                match put_block(&mut self.block_store, bytes.as_slice()) {
                    Ok(cid) => {
                        self.flushed_cid = Some(cid.clone());
                        proof {
                            lemma_persisted_step(
                                self.root.node@,
                                mid,
                                self.block_store.blocks(),
                                w,
                                h,
                            );
                        }
                        Ok(cid)
                    },
                    Err(e) => {
                        proof {
                            lemma_persisted_step(
                                self.root.node@,
                                mid,
                                self.block_store.blocks(),
                                w,
                                h,
                            );
                        }
                        Err(Error::BlockStore(e))
                    },
                }
            },
        };
        proof {
            assert forall|j: nat| in_memory(before, w, h, j) implies #[trigger] self.at(j) == old(
                self,
            ).at(j) by {
                crate::node::flush::lemma_rewritten_lookup(
                    before,
                    self.root.node@,
                    start,
                    self.block_store.blocks(),
                    w,
                    h,
                    j,
                );
            }
            if old(self).resident() {
                assert forall|j: nat| #[trigger] self.at(j) == old(self).at(j) by {
                    lemma_resident_in_memory(before, w, h, j);
                }
                lemma_exact_kept(old(self), self);
                lemma_minimal_kept(old(self), self);
                crate::node::flush::lemma_rewritten_tight(before, self.root.node@, h);
            }
            if no_collisions() && addressed(start) {
                lemma_step_kept(start, self.block_store.blocks());
                if old(self).dense() {
                    lemma_rewritten_dense(before, self.root.node@, start, self.block_store.blocks(), w, h);
                    assert forall|j: nat| #[trigger] self.at(j) == old(self).at(j) by {}
                    lemma_exact_kept(old(self), self);
                    lemma_minimal_kept(old(self), self);
                }
            }
        }
        r
    }

    /// Reads the trie that the store holds under `cid`.
    pub fn load(cid: &Cid, block_store: BS) -> (r: Result<Self, Error>)
        ensures
            block_store.reliable() ==> !(r matches Err(Error::BlockStore(_))),
            r matches Ok(amt) ==> amt.wf() && amt.block_store == block_store && (
            amt.flushed_cid matches Some(kept) && kept@ == cid@) && load_root_spec(
                Ver::names_bit_width(),
                block_store.blocks(),
                cid@,
            ) == Ok::<RootView, ErrorView>(amt.root@),
            r matches Err(e) ==> e@ is BlockStore || load_root_spec(
                Ver::names_bit_width(),
                block_store.blocks(),
                cid@,
            ) == Err::<RootView, ErrorView>(e@),
    {
        let block = match block_store.get(cid) {
            Ok(Some(block)) => block,
            Ok(None) => { return Err(Error::CidNotFound(cid.clone())); },
            Err(e) => { return Err(Error::BlockStore(e)); },
        };
        let decoded: Root<Ver> = match Root::decode(block.as_slice()) {
            Ok(root) => root,
            Err(e) => { return Err(e); },
        };
        match accept_root(decoded, Ghost(block_store.blocks())) {
            Ok(root) => Ok(AmtImpl { root, block_store, flushed_cid: Some(cid.clone()) }),
            Err(e) => Err(e),
        }
    }
}

/// The greatest height of a bit width is at most 64.
pub proof fn lemma_max_height(bit_width: nat)
    requires
        1 <= bit_width <= 8,
    ensures
        1 <= spec_max_height(bit_width) <= 64,
        bit_width * spec_max_height(bit_width) >= 64,
{
    let m = (64 + bit_width - 1) / (bit_width as int);
    assert(1 <= m <= 64 && bit_width * m >= 64) by (nonlinear_arith)
        requires
            1 <= bit_width <= 8,
            m == (64 + bit_width - 1) / (bit_width as int),
    ;
}

/// A node under a new top node, in slot 0 and alone, holds what it held: the
/// trie one level higher holds the same at every index.
pub proof fn lemma_wrap(before: NodeView, after: NodeView, blocks: Blocks, bit_width: nat, height: nat)
    requires
        bit_width >= 1,
        after is Link,
        after->Link_links.len() == width(bit_width),
        forall|k: int| 1 <= k < width(bit_width) ==> (#[trigger] after->Link_links[k]) is None,
        width(bit_width) > 0,
        after->Link_links[0] == Some(LinkView::Dirty(before)) || (after->Link_links[0] is None
            && is_empty_spec(before)),
    ensures
        forall|j: nat|
            j < capacity(bit_width, height + 1) ==> #[trigger] lookup(
                after,
                blocks,
                bit_width,
                height + 1,
                j,
            ) == (if j < capacity(bit_width, height) {
                lookup(before, blocks, bit_width, height, j)
            } else {
                Ok::<Option<Seq<u8>>, ErrorView>(None)
            }),
        forall|j: nat|
            j >= capacity(bit_width, height) || in_memory(before, bit_width, height, j)
                ==> #[trigger] in_memory(after, bit_width, height + 1, j),
{
    assert forall|j: nat| j < capacity(bit_width, height + 1) implies #[trigger] lookup(
        after,
        blocks,
        bit_width,
        height + 1,
        j,
    ) == (if j < capacity(bit_width, height) {
        lookup(before, blocks, bit_width, height, j)
    } else {
        Ok::<Option<Seq<u8>>, ErrorView>(None)
    }) by {
        lemma_single_child(after, blocks, bit_width, height + 1, j);
        if after->Link_links[0] is None {
            lemma_empty_lookup(before, blocks, bit_width, height, j);
        }
    }
    assert forall|j: nat|
        j >= capacity(bit_width, height) || in_memory(
            before,
            bit_width,
            height,
            j,
        ) implies #[trigger] in_memory(after, bit_width, height + 1, j) by {
        let slot = slot_of(bit_width, height + 1, j) as int;
        if j < capacity(bit_width, height + 1) {
            lemma_single_child(after, blocks, bit_width, height + 1, j);
            lemma_split(bit_width, height + 1, j);
            if slot != 0 {
                assert(after->Link_links[slot] is None);
            }
        } else if slot < width(bit_width) {
            lemma_capacity_grows(bit_width, height);
            lemma_slot_beyond(bit_width, height + 1, j);
            assert(after->Link_links[slot] is None);
        }
    }
}

/// A trie one level higher addresses more.
pub proof fn lemma_capacity_grows(bit_width: nat, height: nat)
    requires
        bit_width >= 1,
    ensures
        capacity(bit_width, height) < capacity(bit_width, height + 1),
        capacity(bit_width, height) == span(bit_width, height + 1),
{
    assert(bit_width * (height + 1) < bit_width * (height + 2)) by (nonlinear_arith)
        requires
            bit_width >= 1,
    ;
    lemma_pow2_strictly_increases(bit_width * (height + 1), bit_width * (height + 2));
}

/// An index beyond what one slot holds lies below another slot than slot 0.
pub proof fn lemma_slot_beyond(bit_width: nat, height: nat, j: nat)
    requires
        j >= span(bit_width, height),
    ensures
        slot_of(bit_width, height, j) >= 1,
{
    lemma_span_pos(bit_width, height);
    let s = span(bit_width, height) as int;
    let n = j as int;
    assert(n / s >= 1) by (nonlinear_arith)
        requires
            s > 0,
            n >= s,
    ;
}

/// An index that a trie has no place for, though it is no greater than the
/// largest index, leaves room for the trie to grow.
pub proof fn lemma_height_in_reach(bit_width: nat, height: nat, i: nat)
    requires
        1 <= bit_width <= 8,
        i <= MAX_INDEX,
        i >= capacity(bit_width, height),
    ensures
        height < spec_max_height(bit_width),
{
    lemma_max_height(bit_width);
    vstd::arithmetic::power2::lemma2_to64_rest();
    let e = bit_width * (height + 1);
    if e >= 63 {
        if e > 63 {
            lemma_pow2_strictly_increases(63, e);
        }
        assert(false);
    }
    let m = spec_max_height(bit_width);
    assert(height < m) by (nonlinear_arith)
        requires
            bit_width * (height + 1) < 63,
            bit_width * m >= 64,
            bit_width >= 1,
    ;
}

/// A root that was read, as the root of a trie: of a bit width from 1 to 8, no
/// higher than that bit width allows, with a top node that can stand at its
/// height.
pub open spec fn accepted_root(root: RootView) -> Result<RootView, ErrorView> {
    if root.bit_width < 1 {
        Err(ErrorView::InvalidEncoding)
    } else if root.height > spec_max_height(root.bit_width as nat) {
        Err(ErrorView::MaxHeight(root.height, spec_max_height(root.bit_width as nat) as u32))
    } else {
        match fit_height(root.node, root.height as nat) {
            None => Err(ErrorView::InvalidEncoding),
            Some(node) => Ok(
                RootView {
                    bit_width: root.bit_width,
                    height: root.height,
                    count: root.count,
                    node,
                },
            ),
        }
    }
}

/// The root that the store holds under `cid`, read as the root of a trie.
pub open spec fn load_root_spec(v3: bool, blocks: Blocks, cid: Seq<u8>) -> Result<
    RootView,
    ErrorView,
> {
    if !blocks.contains_key(cid) {
        Err(ErrorView::CidNotFound(cid))
    } else {
        match decode_root_spec(v3, blocks[cid]) {
            Err(e) => Err(e),
            Ok(root) => accepted_root(root),
        }
    }
}

/// Takes a root that was read for the root of a trie, where it can be one.
fn accept_root<Ver: Version>(decoded: Root<Ver>, Ghost(blocks): Ghost<Blocks>) -> (r: Result<
    Root<Ver>,
    Error,
>)
    requires
        decoded.bit_width <= crate::index::MAX_BIT_WIDTH,
        crate::node::pack::bare(decoded.node@),
        crate::node::pack::slots(decoded.node@) == width(decoded.bit_width as nat),
    ensures
        r matches Ok(root) ==> accepted_root(decoded@) == Ok::<RootView, ErrorView>(root@)
            && valid_bit_width(root.bit_width) && root.height <= spec_max_height(
            root.bit_width as nat,
        ) && wf(root.node@, root.bit_width as nat, root.height as nat) && is_clean(
            root.node@,
            root.height as nat,
        ) && persisted(root.node@, blocks, root.bit_width as nat, root.height as nat),
        r matches Err(e) ==> accepted_root(decoded@) == Err::<RootView, ErrorView>(e@),
{
    if decoded.bit_width < 1 {
        return Err(Error::InvalidEncoding);
    }
    let max = max_height(decoded.bit_width);
    if decoded.height > max {
        return Err(Error::MaxHeight(decoded.height, max));
    }
    let Root { bit_width, height, count, node, version } = decoded;
    let ghost loaded = node@;
    match node.fit(height) {
        Err(e) => Err(e),
        Ok(node) => {
            proof {
                crate::node::pack::lemma_bare_wf(loaded, blocks, bit_width as nat, height as nat);
            }
            Ok(Root { bit_width, height, count, node, version })
        },
    }
}

/// A trie of the height of another that holds the same at every index is no
/// higher than it has to be if the other is not.
pub proof fn lemma_minimal_kept<BS: Blockstore, Ver: Version>(
    before: &AmtImpl<BS, Ver>,
    after: &AmtImpl<BS, Ver>,
)
    requires
        after.root.height == before.root.height,
        after.root.bit_width == before.root.bit_width,
        forall|j: nat| is_value(before.at(j)) ==> is_value(#[trigger] after.at(j)),
    ensures
        before.minimal() ==> after.minimal(),
{
    if before.minimal() && before.root.height > 0 {
        let j = choose|j: nat|
            capacity(before.root.bit_width as nat, (before.root.height - 1) as nat) <= j
                && is_value(#[trigger] before.at(j));
        assert(is_value(after.at(j)));
    }
}

/// A new top node over a node with no empty node below it has none below it.
pub proof fn lemma_wrap_dense(node: NodeView, blocks: Blocks, bit_width: nat, height: nat)
    requires
        dense(node, blocks, bit_width, height),
    ensures
        dense(wrapped(node, bit_width), blocks, bit_width, height + 1),
{
    let top = wrapped(node, bit_width);
    assert forall|i: int|
        0 <= i < top->Link_links.len() && (#[trigger] top->Link_links[i]) is Some implies {
        &&& readable(top->Link_links[i], blocks, bit_width, height)
        &&& !is_empty_spec(child_in(top->Link_links[i], blocks, bit_width, height))
        &&& dense(child_in(top->Link_links[i], blocks, bit_width, height), blocks, bit_width, height)
    } by {
        assert(i == 0);
    }
}

/// A top node that is not empty and has not a child in slot 0 alone holds a
/// value at an index that a trie one level lower has no place for.
pub proof fn lemma_settled_minimal(node: NodeView, blocks: Blocks, bit_width: nat, height: nat)
    requires
        height >= 1,
        wf(node, bit_width, height),
        dense(node, blocks, bit_width, height),
        !is_empty_spec(node),
        !can_collapse_spec(node),
    ensures
        exists|j: nat|
            capacity(bit_width, (height - 1) as nat) <= j < capacity(bit_width, height)
                && is_value(#[trigger] lookup(node, blocks, bit_width, height, j)),
{
    let links = node->Link_links;
    lemma_span_pos(bit_width, height);
    let occupied = choose|s: int| 0 <= s < links.len() && (#[trigger] links[s]) is Some;
    let far = if occupied >= 1 {
        occupied
    } else {
        choose|s: int| 1 <= s < links.len() && (#[trigger] links[s]) is Some
    };
    lemma_dense_slot_has_value(node, blocks, bit_width, height, far);
    let j = choose|j: nat|
        j < capacity(bit_width, height) && slot_of(bit_width, height, j) == far && is_value(
            #[trigger] lookup(node, blocks, bit_width, height, j),
        );
    crate::walk::lemma_slot_bounds(bit_width, height, j);
    let d = span(bit_width, height);
    assert(far * d >= d) by (nonlinear_arith)
        requires
            far >= 1,
            d > 0,
    ;
    assert(capacity(bit_width, (height - 1) as nat) == d);
}

} // verus!
