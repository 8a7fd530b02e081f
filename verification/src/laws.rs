//! What holds of a trie whatever was done to it.

use crate::amt::{load_root_spec, root_cid, AmtImpl};
use crate::amt::batch::{built, written};
use crate::content_id::Cid;
use crate::amt::count::{lemma_count_prefix, lemma_count_values_same};
use crate::codec::node_bytes;
use crate::error::{Error, ErrorView};
use crate::index::{
    capacity, lemma_capacity_step, lemma_span_pos, slot_of, span, width, DEFAULT_BIT_WIDTH,
    MAX_INDEX,
};
use crate::node::{empty_leaf, is_clean, is_value, lookup, wf, LinkView, NodeView};
use crate::node::flush::{flushed, flushed_slot, lemma_clean_links, lemma_flushed_clean, persisted};
use crate::node::pack::{collapse_spec, node_block, node_cid};
use crate::node::shape::{lemma_slot_has_value, resident, tight};
use crate::reading::{
    blocks_fit, lemma_expand_collapse, lemma_fit_read_back, lemma_persisted_stored,
    lemma_read_dense, lemma_read_holds, lemma_writable, no_collisions, read_at, stored,
};
use crate::root::{fields_bytes, lemma_parse_root, RootView, Version};
use crate::store::{Blocks, Blockstore};
use crate::walk::lemma_compose;
use vstd::arithmetic::power2::lemma_pow2_strictly_increases;
use vstd::prelude::*;

verus! {

/// A higher trie addresses no less.
pub proof fn lemma_capacity_monotone(bit_width: nat, low: nat, high: nat)
    requires
        low <= high,
    ensures
        capacity(bit_width, low) <= capacity(bit_width, high),
{
    if bit_width * (low + 1) < bit_width * (high + 1) {
        lemma_pow2_strictly_increases(bit_width * (low + 1), bit_width * (high + 1));
    } else {
        assert(bit_width * (low + 1) == bit_width * (high + 1)) by (nonlinear_arith)
            requires
                low <= high,
                bit_width * (low + 1) >= bit_width * (high + 1),
        ;
    }
}

/// The height of a trie that is no higher than it has to be is the least
/// that has a place for its greatest index: a trie whose greatest index is `k`
/// has a place for `k`, and a trie one level lower would have none.
pub proof fn lemma_height_minimal<BS: Blockstore, Ver: Version>(amt: &AmtImpl<BS, Ver>, k: nat)
    requires
        amt.wf(),
        amt.minimal(),
        is_value(amt.at(k)),
        forall|j: nat| j > k ==> !is_value(#[trigger] amt.at(j)),
    ensures
        k < capacity(amt.root.bit_width as nat, amt.root.height as nat),
        amt.root.height > 0 ==> capacity(
            amt.root.bit_width as nat,
            (amt.root.height - 1) as nat,
        ) <= k,
{
    if amt.root.height > 0 {
        let j = choose|j: nat|
            capacity(amt.root.bit_width as nat, (amt.root.height - 1) as nat) <= j && is_value(
                #[trigger] amt.at(j),
            );
        assert(j <= k);
    }
}

/// A trie that is no higher than it has to be and holds nothing has height 0.
pub proof fn lemma_empty_is_flat<BS: Blockstore, Ver: Version>(amt: &AmtImpl<BS, Ver>)
    requires
        amt.minimal(),
        forall|j: nat| !is_value(#[trigger] amt.at(j)),
    ensures
        amt.root.height == 0,
{
}

/// A trie that is no higher than it has to be and holds nothing is the empty
/// trie: its top node is the node of values with nothing in it, and with the
/// count 0 it is written under the identifier of a trie that was made empty.
pub proof fn lemma_empty_is_new<BS: Blockstore, Ver: Version>(amt: &AmtImpl<BS, Ver>)
    requires
        amt.wf(),
        amt.minimal(),
        forall|j: nat| #[trigger] amt.at(j) == Ok::<Option<Seq<u8>>, ErrorView>(None),
    ensures
        amt.root.height == 0,
        amt.root.node@ == empty_leaf(width(amt.root.bit_width as nat)),
        amt.spec_cid() == root_cid(
            Ver::names_bit_width(),
            amt.root.bit_width,
            0,
            amt.root.count,
            empty_leaf(width(amt.root.bit_width as nat)),
        ),
{
    assert forall|j: nat| !is_value(#[trigger] amt.at(j)) by {
        assert(amt.at(j) == Ok::<Option<Seq<u8>>, ErrorView>(None));
    }
    lemma_empty_is_flat(amt);
    let w = amt.root.bit_width as nat;
    lemma_capacity_step(w, 0);
    let vals = amt.root.node@->Leaf_vals;
    assert forall|i: int| 0 <= i < vals.len() implies (#[trigger] vals[i]) is None by {
        assert(amt.at(i as nat) == Ok::<Option<Seq<u8>>, ErrorView>(None));
    }
    assert(vals =~= empty_leaf(width(w))->Leaf_vals);
}

/// Two tries in their one shape that hold the same have the same height.
pub proof fn lemma_same_height<BS: Blockstore, Ver: Version>(
    a: &AmtImpl<BS, Ver>,
    b: &AmtImpl<BS, Ver>,
)
    requires
        a.minimal(),
        b.minimal(),
        a.root.bit_width == b.root.bit_width,
        forall|j: nat| is_value(#[trigger] a.at(j)) == is_value(b.at(j)),
    ensures
        a.root.height == b.root.height,
{
    let w = a.root.bit_width as nat;
    if a.root.height < b.root.height {
        let j = choose|j: nat|
            capacity(w, (b.root.height - 1) as nat) <= j && is_value(#[trigger] b.at(j));
        lemma_capacity_monotone(w, a.root.height as nat, (b.root.height - 1) as nat);
        assert(is_value(a.at(j)));
    }
    if b.root.height < a.root.height {
        let j = choose|j: nat|
            capacity(w, (a.root.height - 1) as nat) <= j && is_value(#[trigger] a.at(j));
        lemma_capacity_monotone(w, b.root.height as nat, (a.root.height - 1) as nat);
        assert(is_value(b.at(j)));
    }
}

/// The child in memory behind a link of a node that is in memory.
pub open spec fn child_of(link: LinkView) -> NodeView {
    match link {
        LinkView::Dirty(child) => child,
        LinkView::Cid { cid, cache: Some(child) } => child,
        LinkView::Cid { cid, cache: None } => arbitrary(),
    }
}

/// Once written, a link with its child in memory names the block of the child
/// as written, whether it was dirty or clean before.
proof fn lemma_flushed_link(link: LinkView, blocks: Blocks, bit_width: nat, height: nat)
    requires
        !(link matches LinkView::Cid { cid, cache: None }),
        link matches LinkView::Cid { cid, cache: Some(child) } ==> is_clean(child, height) && cid
            == node_cid(child, bit_width),
    ensures
        flushed_slot(Some(link), bit_width, height) == Some(
            LinkView::Cid {
                cid: node_cid(flushed(child_of(link), bit_width, height), bit_width),
                cache: Some(flushed(child_of(link), bit_width, height)),
            },
        ),
{
    match link {
        LinkView::Cid { cid, cache: Some(child) } => {
            lemma_flushed_clean(child, bit_width, height);
        },
        _ => {},
    }
}

/// Two nodes in memory that hold the same, with no empty node below them, are
/// the same once written: the order in which their values came does not show.
pub proof fn lemma_same_shape(
    a: NodeView,
    b: NodeView,
    blocks_a: Blocks,
    blocks_b: Blocks,
    bit_width: nat,
    height: nat,
)
    requires
        wf(a, bit_width, height),
        wf(b, bit_width, height),
        resident(a, height),
        resident(b, height),
        tight(a, height),
        tight(b, height),
        persisted(a, blocks_a, bit_width, height),
        persisted(b, blocks_b, bit_width, height),
        forall|j: nat|
            j < capacity(bit_width, height) ==> #[trigger] lookup(
                a,
                blocks_a,
                bit_width,
                height,
                j,
            ) == lookup(b, blocks_b, bit_width, height, j),
    ensures
        flushed(a, bit_width, height) == flushed(b, bit_width, height),
    decreases height,
{
    lemma_capacity_step(bit_width, height);
    lemma_capacity_step(bit_width, 0);
    lemma_span_pos(bit_width, height);
    match a {
        NodeView::Leaf { vals } => {
            let other = b->Leaf_vals;
            assert(vals =~= other) by {
                assert forall|i: int| 0 <= i < vals.len() implies vals[i] == other[i] by {
                    assert(lookup(a, blocks_a, bit_width, height, i as nat) == Ok::<
                        Option<Seq<u8>>,
                        ErrorView,
                    >(vals[i]));
                    assert(lookup(b, blocks_b, bit_width, height, i as nat) == Ok::<
                        Option<Seq<u8>>,
                        ErrorView,
                    >(other[i]));
                }
            }
        },
        NodeView::Link { links } => {
            let other = b->Link_links;
            let below = (height - 1) as nat;
            let d = span(bit_width, height);
            assert(capacity(bit_width, below) == d);
            assert forall|s: int| 0 <= s < links.len() implies flushed_slot(
                links[s],
                bit_width,
                below,
            ) == flushed_slot(other[s], bit_width, below) by {
                if links[s] is Some && other[s] is None {
                    lemma_slot_has_value(a, blocks_a, bit_width, height, s);
                    let j = choose|j: nat|
                        j < capacity(bit_width, height) && slot_of(bit_width, height, j) == s
                            && is_value(#[trigger] lookup(a, blocks_a, bit_width, height, j));
                    assert(lookup(b, blocks_b, bit_width, height, j) == Ok::<
                        Option<Seq<u8>>,
                        ErrorView,
                    >(None));
                } else if links[s] is None && other[s] is Some {
                    lemma_slot_has_value(b, blocks_b, bit_width, height, s);
                    let j = choose|j: nat|
                        j < capacity(bit_width, height) && slot_of(bit_width, height, j) == s
                            && is_value(#[trigger] lookup(b, blocks_b, bit_width, height, j));
                    assert(lookup(a, blocks_a, bit_width, height, j) == Ok::<
                        Option<Seq<u8>>,
                        ErrorView,
                    >(None));
                } else if links[s] is Some {
                    let la = links[s]->Some_0;
                    let lb = other[s]->Some_0;
                    let ca = child_of(la);
                    let cb = child_of(lb);
                    assert forall|r: nat| r < capacity(bit_width, below) implies #[trigger] lookup(
                        ca,
                        blocks_a,
                        bit_width,
                        below,
                        r,
                    ) == lookup(cb, blocks_b, bit_width, below, r) by {
                        let j = (s * d + r) as nat;
                        lemma_compose(bit_width, height, s as nat, r);
                        assert(j < capacity(bit_width, height)) by (nonlinear_arith)
                            requires
                                j == s * d + r,
                                r < d,
                                0 <= s < width(bit_width),
                                capacity(bit_width, height) == width(bit_width) * d,
                        ;
                        assert(lookup(a, blocks_a, bit_width, height, j) == lookup(
                            ca,
                            blocks_a,
                            bit_width,
                            below,
                            r,
                        ));
                        assert(lookup(b, blocks_b, bit_width, height, j) == lookup(
                            cb,
                            blocks_b,
                            bit_width,
                            below,
                            r,
                        ));
                    }
                    lemma_same_shape(ca, cb, blocks_a, blocks_b, bit_width, below);
                    lemma_flushed_link(la, blocks_a, bit_width, below);
                    lemma_flushed_link(lb, blocks_b, bit_width, below);
                }
            }
            assert(flushed(a, bit_width, height)->Link_links =~= flushed(
                b,
                bit_width,
                height,
            )->Link_links);
        },
    }
}

/// Two tries in their one shape, of one bit width and with exact counts, that
/// hold the same are written under one identifier: neither the order in which
/// the values were set nor what was set and deleted in between shows.
pub proof fn lemma_deterministic<BS: Blockstore, Ver: Version>(
    a: &AmtImpl<BS, Ver>,
    b: &AmtImpl<BS, Ver>,
)
    requires
        a.wf(),
        b.wf(),
        a.canonical(),
        b.canonical(),
        a.count_exact(),
        b.count_exact(),
        a.root.bit_width == b.root.bit_width,
        forall|j: nat| #[trigger] a.at(j) == b.at(j),
    ensures
        a.root.height == b.root.height,
        a.root.count == b.root.count,
        flushed(a.root.node@, a.root.bit_width as nat, a.root.height as nat) == flushed(
            b.root.node@,
            b.root.bit_width as nat,
            b.root.height as nat,
        ),
        root_cid(
            Ver::names_bit_width(),
            a.root.bit_width,
            a.root.height,
            a.root.count,
            flushed(a.root.node@, a.root.bit_width as nat, a.root.height as nat),
        ) == root_cid(
            Ver::names_bit_width(),
            b.root.bit_width,
            b.root.height,
            b.root.count,
            flushed(b.root.node@, b.root.bit_width as nat, b.root.height as nat),
        ),
{
    assert forall|j: nat| is_value(#[trigger] a.at(j)) == is_value(b.at(j)) by {
        assert(a.at(j) == b.at(j));
    }
    lemma_same_height(a, b);
    lemma_count_values_same(|j: nat| a.at(j), |j: nat| b.at(j), MAX_INDEX as nat + 1);
    let w = a.root.bit_width as nat;
    let h = a.root.height as nat;
    assert forall|j: nat| j < capacity(w, h) implies #[trigger] lookup(
        a.root.node@,
        a.block_store.blocks(),
        w,
        h,
        j,
    ) == lookup(b.root.node@, b.block_store.blocks(), w, h, j) by {
        assert(a.at(j) == b.at(j));
    }
    lemma_same_shape(
        a.root.node@,
        b.root.node@,
        a.block_store.blocks(),
        b.block_store.blocks(),
        w,
        h,
    );
}

/// A trie built from values is the trie that was made empty and had the
/// values set: where such a trie holds the values at the indices from 0 on and
/// nothing else, the identifier that building gave is the one the trie is
/// written under.
pub proof fn lemma_built_as_set<BS: Blockstore, Ver: Version>(
    amt: &AmtImpl<BS, Ver>,
    vals: Seq<Vec<u8>>,
    store: BS,
    r: Result<Cid, Error>,
    after: BS,
)
    requires
        amt.wf(),
        amt.canonical(),
        amt.count_exact(),
        forall|j: nat| #[trigger]
            amt.at(j) == (if j < vals.len() {
                Ok::<Option<Seq<u8>>, ErrorView>(Some(vals[j as int]@))
            } else {
                Ok::<Option<Seq<u8>>, ErrorView>(None)
            }),
        built(Ver::names_bit_width(), amt.root.bit_width, store, vals, r, after),
        r is Ok,
    ensures
        amt.root.count == vals.len(),
        r->Ok_0@ == root_cid(
            Ver::names_bit_width(),
            amt.root.bit_width,
            amt.root.height,
            amt.root.count,
            flushed(amt.root.node@, amt.root.bit_width as nat, amt.root.height as nat),
        ),
{
    let w = amt.root.bit_width as nat;
    let h = amt.root.height as nat;
    let cid = r->Ok_0@;
    let before = store.blocks();
    let (height, node) = choose|height: u32, node: NodeView|
        #![trigger written(
            Ver::names_bit_width(),
            amt.root.bit_width,
            height,
            node,
            before,
            vals,
            cid,
            after.blocks(),
        )]
        written(
            Ver::names_bit_width(),
            amt.root.bit_width,
            height,
            node,
            before,
            vals,
            cid,
            after.blocks(),
        );
    if h < height {
        let j = capacity(w, (height - 1) as nat);
        lemma_capacity_monotone(w, h, (height - 1) as nat);
        assert(is_value(amt.at(j)));
    }
    if height < h {
        let j = choose|j: nat| capacity(w, (h - 1) as nat) <= j && is_value(#[trigger] amt.at(j));
        lemma_capacity_monotone(w, height as nat, (h - 1) as nat);
        assert(j < vals.len());
        assert(lookup(node, before, w, height as nat, j) is Ok);
    }
    assert forall|j: nat| j < capacity(w, h) implies #[trigger] lookup(
        amt.root.node@,
        amt.block_store.blocks(),
        w,
        h,
        j,
    ) == lookup(node, before, w, h, j) by {
        assert(amt.at(j) == (if j < vals.len() {
            Ok::<Option<Seq<u8>>, ErrorView>(Some(vals[j as int]@))
        } else {
            Ok::<Option<Seq<u8>>, ErrorView>(None)
        }));
    }
    lemma_same_shape(amt.root.node@, node, amt.block_store.blocks(), before, w, h);
    assert forall|j: nat| is_value(#[trigger] amt.at(j)) == (j < vals.len()) by {}
    lemma_count_prefix(|j: nat| amt.at(j), vals.len(), MAX_INDEX as nat + 1);
}

/// A trie that was written is read as it is: where the store holds the block
/// of its root under `cid`, and the blocks of its nodes under the names its
/// links give them, the trie read under `cid` has its bit width, height and
/// count, and holds at every index what it holds.
pub proof fn lemma_round_trip<BS: Blockstore, Ver: Version>(amt: &AmtImpl<BS, Ver>, cid: Seq<u8>)
    requires
        amt.wf(),
        is_clean(amt.root.node@, amt.root.height as nat),
        stored(
            amt.root.node@,
            amt.block_store.blocks(),
            amt.root.bit_width as nat,
            amt.root.height as nat,
        ),
        blocks_fit(amt.block_store.blocks()),
        Ver::names_bit_width() || amt.root.bit_width == DEFAULT_BIT_WIDTH,
        amt.block_store.blocks().contains_key(cid),
        amt.block_store.blocks()[cid] == amt.spec_block(),
    ensures
        load_root_spec(Ver::names_bit_width(), amt.block_store.blocks(), cid) == Ok::<
            RootView,
            ErrorView,
        >(
            RootView {
                bit_width: amt.root.bit_width,
                height: amt.root.height,
                count: amt.root.count,
                node: read_at(amt.root.node@, amt.root.height as nat),
            },
        ),
        forall|j: nat|
            j < capacity(amt.root.bit_width as nat, amt.root.height as nat) ==> #[trigger] lookup(
                read_at(amt.root.node@, amt.root.height as nat),
                amt.block_store.blocks(),
                amt.root.bit_width as nat,
                amt.root.height as nat,
                j,
            ) == amt.at(j),
{
    let w = amt.root.bit_width as nat;
    let h = amt.root.height as nat;
    let node = amt.root.node@;
    let blocks = amt.block_store.blocks();
    let c = collapse_spec(node, w);
    lemma_clean_links(node, h);
    assert(node_block(node, w).len() <= amt.spec_block().len()) by {
        let v3 = Ver::names_bit_width();
        let fields = fields_bytes(amt.root.height, amt.root.count, c);
        assert(node_bytes(c).len() <= fields.len());
    }
    lemma_writable(node, w, h);
    lemma_parse_root(Ver::names_bit_width(), amt.root.bit_width, amt.root.height, amt.root.count, c);
    lemma_expand_collapse(node, w);
    lemma_fit_read_back(node, w, h);
    lemma_read_holds(node, blocks, w, h);
}

/// A trie that remembers the identifier it was written under is read from its
/// store as it is, where no two blocks have one identifier and every block of
/// the store fits in memory: the trie read under that identifier has its bit
/// width, height and count, and holds at every index what it holds.
pub proof fn lemma_written_is_read<BS: Blockstore, Ver: Version>(amt: &AmtImpl<BS, Ver>)
    requires
        amt.wf(),
        amt.flushed_cid is Some,
        amt.block_store.blocks().contains_key(amt.spec_cid()),
        amt.block_store.blocks()[amt.spec_cid()] == amt.spec_block(),
        no_collisions(),
        blocks_fit(amt.block_store.blocks()),
        Ver::names_bit_width() || amt.root.bit_width == DEFAULT_BIT_WIDTH,
    ensures
        load_root_spec(Ver::names_bit_width(), amt.block_store.blocks(), amt.spec_cid()) == Ok::<
            RootView,
            ErrorView,
        >(
            RootView {
                bit_width: amt.root.bit_width,
                height: amt.root.height,
                count: amt.root.count,
                node: read_at(amt.root.node@, amt.root.height as nat),
            },
        ),
        forall|j: nat|
            j < capacity(amt.root.bit_width as nat, amt.root.height as nat) ==> #[trigger] lookup(
                read_at(amt.root.node@, amt.root.height as nat),
                amt.block_store.blocks(),
                amt.root.bit_width as nat,
                amt.root.height as nat,
                j,
            ) == amt.at(j),
{
    lemma_persisted_stored(
        amt.root.node@,
        amt.block_store.blocks(),
        amt.root.bit_width as nat,
        amt.root.height as nat,
    );
    lemma_round_trip(amt, amt.spec_cid());
}

/// A trie in its one shape that was written is read in a shape that lasts:
/// the trie read holds what was written, has no empty node in it, and is no
/// higher than it has to be.
pub proof fn lemma_read_keeps_shape<BS: Blockstore, Ver: Version>(
    written: &AmtImpl<BS, Ver>,
    read: &AmtImpl<BS, Ver>,
)
    requires
        written.wf(),
        written.canonical(),
        written.flushed_cid is Some,
        written.block_store.blocks().contains_key(written.spec_cid()),
        written.block_store.blocks()[written.spec_cid()] == written.spec_block(),
        no_collisions(),
        blocks_fit(written.block_store.blocks()),
        Ver::names_bit_width() || written.root.bit_width == DEFAULT_BIT_WIDTH,
        read.block_store.blocks() == written.block_store.blocks(),
        load_root_spec(
            Ver::names_bit_width(),
            written.block_store.blocks(),
            written.spec_cid(),
        ) == Ok::<RootView, ErrorView>(read.root@),
    ensures
        read.root.bit_width == written.root.bit_width,
        read.root.height == written.root.height,
        read.root.count == written.root.count,
        forall|j: nat| #[trigger] read.at(j) == written.at(j),
        read.dense(),
        read.minimal(),
{
    let w = written.root.bit_width as nat;
    let h = written.root.height as nat;
    let blocks = written.block_store.blocks();
    lemma_written_is_read(written);
    lemma_persisted_stored(written.root.node@, blocks, w, h);
    lemma_read_dense(written.root.node@, blocks, w, h);
    assert forall|j: nat| #[trigger] read.at(j) == written.at(j) by {
        if j < capacity(w, h) {
            assert(lookup(read_at(written.root.node@, h), blocks, w, h, j) == written.at(j));
        }
    }
    if h > 0 {
        let j = choose|j: nat| capacity(w, (h - 1) as nat) <= j && is_value(#[trigger] written.at(j));
        assert(is_value(read.at(j)));
    }
}

} // verus!
