//! Walking a trie in the order of its indices.

use crate::bitmap::lemma_bmap_len;
use crate::error::{Error, ErrorView};
use crate::index::{
    capacity, lemma_capacity_step, lemma_span_pos, lemma_split, nodes_for_height, rest_of, slot_of,
    span, valid_bit_width, width, MAX_INDEX,
};
use crate::node::shape::resident;
use crate::node::{lookup, lookup_link, slot_view, value_view, wf, Link, Node, NodeView};
use crate::store::{Blocks, Blockstore};
use vstd::prelude::*;

verus! {

/// What a walk has to find: the node it walks below, the store behind it, the
/// index of the node's first place, and the index the walk begins at.
pub struct Walk {
    pub node: NodeView,
    pub blocks: Blocks,
    pub bit_width: nat,
    pub height: nat,
    pub base: nat,
    pub start: nat,
}

impl Walk {
    /// What the node holds at its place `j`.
    pub open spec fn found(self, j: nat) -> Result<Option<Seq<u8>>, ErrorView> {
        lookup(self.node, self.blocks, self.bit_width, self.height, j)
    }

    /// Place `j` of the node has an index that the walk reaches before `bound`.
    pub open spec fn reaches(self, j: nat, bound: nat) -> bool {
        &&& j < capacity(self.bit_width, self.height)
        &&& self.start <= self.base + j < bound
        &&& self.base + j <= MAX_INDEX
    }

    /// The entry is one of the node: its index is one the walk reaches, and
    /// the node holds its value there.
    pub open spec fn holds(self, entry: (u64, Vec<u8>)) -> bool {
        &&& self.base <= entry.0
        &&& self.reaches((entry.0 - self.base) as nat, MAX_INDEX as nat + 1)
        &&& self.found((entry.0 - self.base) as nat) == Ok::<Option<Seq<u8>>, ErrorView>(
            Some(entry.1@),
        )
    }

    /// Every place that the walk reaches before `bound` could be read, and a
    /// value found there is among the entries from `from` on.
    pub open spec fn covered(self, out: Seq<(u64, Vec<u8>)>, from: int, bound: nat) -> bool {
        forall|j: nat|
            self.reaches(j, bound) ==> (#[trigger] self.found(j)) is Ok && (self.found(j) matches Ok(
                Some(_),
            ) ==> has_entry(out, from, (self.base + j) as int))
    }

    /// The walk of the child in slot `s`.
    pub open spec fn child(self, s: nat, node: NodeView) -> Walk {
        Walk {
            node,
            blocks: self.blocks,
            bit_width: self.bit_width,
            height: (self.height - 1) as nat,
            base: self.base + s * span(self.bit_width, self.height),
            start: self.start,
        }
    }
}

/// An entry from `from` on has the index `index`.
pub open spec fn has_entry(out: Seq<(u64, Vec<u8>)>, from: int, index: int) -> bool {
    exists|k: int| from <= k < out.len() && (#[trigger] out[k]).0 == index
}

/// The entries from `from` on ascend, and all lie below `below`.
pub open spec fn ascending(out: Seq<(u64, Vec<u8>)>, from: int, below: nat) -> bool {
    &&& forall|a: int, b: int|
        from <= a < b < out.len() ==> (#[trigger] out[a]).0 < (#[trigger] out[b]).0
    &&& forall|a: int| from <= a < out.len() ==> (#[trigger] out[a]).0 < below
}

/// The place of slot `s` and rest `r` has that slot and that rest.
pub proof fn lemma_compose(bit_width: nat, height: nat, s: nat, r: nat)
    requires
        r < span(bit_width, height),
    ensures
        slot_of(bit_width, height, s * span(bit_width, height) + r) == s,
        rest_of(bit_width, height, s * span(bit_width, height) + r) == r,
{
    let d = span(bit_width, height) as int;
    let a = s as int;
    let b = r as int;
    assert((a * d + b) / d == a && (a * d + b) % d == b) by (nonlinear_arith)
        requires
            0 <= b < d,
            0 <= a,
    ;
}

/// An entry stays among the entries when one more is put behind them.
pub proof fn lemma_entry_stays(
    before: Seq<(u64, Vec<u8>)>,
    after: Seq<(u64, Vec<u8>)>,
    from: int,
    index: int,
)
    requires
        0 <= from,
        before.len() <= after.len(),
        after.subrange(0, before.len() as int) == before,
        has_entry(before, from, index),
    ensures
        has_entry(after, from, index),
{
    let k = choose|k: int| from <= k < before.len() && (#[trigger] before[k]).0 == index;
    assert(after.subrange(0, before.len() as int)[k] == after[k]);
}

/// What the walk of a node promises of its result.
pub open spec fn walked(
    walk: Walk,
    before: Seq<(u64, Vec<u8>)>,
    after: Seq<(u64, Vec<u8>)>,
    limit: u64,
    r: Result<Option<u64>, Error>,
) -> bool {
    &&& before.len() <= after.len()
    &&& after.subrange(0, before.len() as int) == before
    &&& r matches Err(e) ==> e@ is BlockStore || exists|j: nat|
        walk.reaches(j, MAX_INDEX as nat + 1) && #[trigger] walk.found(j) == Err::<
            Option<Seq<u8>>,
            ErrorView,
        >(e@)
    &&& r matches Ok(next) ==> {
        let bound = match next {
            Some(n) => n as nat,
            None => MAX_INDEX as nat + 1,
        };
        &&& after.len() <= limit
        &&& forall|k: int| before.len() <= k < after.len() ==> walk.holds(#[trigger] after[k])
        &&& ascending(after, before.len() as int, bound)
        &&& walk.covered(after, before.len() as int, bound)
        &&& next matches Some(n) ==> after.len() == limit && walk.base <= n && walk.reaches(
            (n - walk.base) as nat,
            MAX_INDEX as nat + 1,
        ) && walk.found((n - walk.base) as nat) matches Ok(Some(_))
    }
}

/// Walks a leaf.
fn collect_leaf(
    vals: &Vec<Option<Vec<u8>>>,
    bit_width: u32,
    base: u64,
    start: u64,
    limit: u64,
    out: &mut Vec<(u64, Vec<u8>)>,
    Ghost(blocks): Ghost<Blocks>,
) -> (r: Result<Option<u64>, Error>)
    requires
        valid_bit_width(bit_width),
        vals@.len() == width(bit_width as nat),
        base <= MAX_INDEX,
        start <= MAX_INDEX,
        old(out)@.len() <= limit,
    ensures
        walked(
            Walk {
                node: NodeView::Leaf { vals: Seq::new(vals@.len(), |i: int| value_view(vals@[i])) },
                blocks,
                bit_width: bit_width as nat,
                height: 0,
                base: base as nat,
                start: start as nat,
            },
            old(out)@,
            final(out)@,
            limit,
            r,
        ),
        r is Ok,
{
    let ghost walk = Walk {
        node: NodeView::Leaf { vals: Seq::new(vals@.len(), |i: int| value_view(vals@[i])) },
        blocks,
        bit_width: bit_width as nat,
        height: 0,
        base: base as nat,
        start: start as nat,
    };
    let ghost before = out@;
    let ghost from = out@.len() as int;
    proof {
        lemma_capacity_step(bit_width as nat, 0);
        lemma_bmap_len(bit_width as nat);
    }
    let n = vals.len();
    let mut s: usize = 0;
    while s < n && base + s as u64 <= MAX_INDEX
        invariant
            s <= n,
            n == vals@.len(),
            n == capacity(bit_width as nat, 0),
            n <= 256,
            base <= MAX_INDEX,
            walk == (Walk {
                node: NodeView::Leaf { vals: Seq::new(vals@.len(), |i: int| value_view(vals@[i])) },
                blocks,
                bit_width: bit_width as nat,
                height: 0,
                base: base as nat,
                start: start as nat,
            }),
            before == old(out)@,
            from == before.len(),
            from <= out@.len() <= limit,
            out@.subrange(0, from) == before,
            forall|k: int| from <= k < out@.len() ==> walk.holds(#[trigger] out@[k]),
            ascending(out@, from, base as nat + s as nat),
            forall|j: nat|
                j < s && walk.reaches(j, MAX_INDEX as nat + 1) ==> (#[trigger] walk.found(j)) is Ok
                    && (walk.found(j) matches Ok(Some(_)) ==> has_entry(out@, from, base + j)),
        decreases n - s,
    {
        let index = base + s as u64;
        let ghost prev = out@;
        if index >= start {
            match &vals[s] {
                Some(v) => {
                    if out.len() as u64 >= limit {
                        proof {
                            assert forall|j: nat| walk.reaches(j, index as nat) implies (
                            #[trigger] walk.found(j)) is Ok && (walk.found(j) matches Ok(Some(_))
                                ==> has_entry(out@, from, base + j)) by {
                                assert(j < s);
                            }
                            assert(walk.found(s as nat) == Ok::<Option<Seq<u8>>, ErrorView>(
                                Some(v@),
                            ));
                        }
                        return Ok(Some(index));
                    }
                    out.push((index, v.clone()));
                    proof {
                        let entry = out@[prev.len() as int];
                        assert(out@.subrange(0, prev.len() as int) =~= prev);
                        assert(out@.subrange(0, from) =~= before);
                        assert(walk.found(s as nat) == Ok::<Option<Seq<u8>>, ErrorView>(
                            Some(entry.1@),
                        ));
                        assert forall|k: int| from <= k < out@.len() implies walk.holds(
                            #[trigger] out@[k],
                        ) by {
                            if k < prev.len() {
                                assert(out@[k] == prev[k]);
                            }
                        }
                        assert forall|a: int, b: int| from <= a < b < out@.len() implies (
                        #[trigger] out@[a]).0 < (#[trigger] out@[b]).0 by {
                            assert(out@[a] == prev[a]);
                            if b < prev.len() {
                                assert(out@[b] == prev[b]);
                            }
                        }
                        assert forall|a: int| from <= a < out@.len() implies (#[trigger] out@[a]).0
                            < base as nat + s as nat + 1 by {
                            if a < prev.len() {
                                assert(out@[a] == prev[a]);
                            }
                        }
                        assert forall|j: nat|
                            j < s + 1 && walk.reaches(j, MAX_INDEX as nat + 1) implies (
                        #[trigger] walk.found(j)) is Ok && (walk.found(j) matches Ok(Some(_))
                            ==> has_entry(out@, from, base + j)) by {
                            if j < s {
                                if walk.found(j) matches Ok(Some(_)) {
                                    lemma_entry_stays(prev, out@, from, base + j);
                                }
                            } else {
                                assert(out@[prev.len() as int].0 == base + j);
                            }
                        }
                    }
                },
                None => {},
            }
        }
        s += 1;
    }
    proof {
        assert forall|j: nat| walk.reaches(j, MAX_INDEX as nat + 1) implies (#[trigger] walk.found(
            j,
        )) is Ok && (walk.found(j) matches Ok(Some(_)) ==> has_entry(out@, from, base + j)) by {
            assert(j < s);
        }
        assert forall|a: int| from <= a < out@.len() implies (#[trigger] out@[a]).0 < MAX_INDEX
            as nat + 1 by {
            assert(walk.holds(out@[a]));
        }
    }
    Ok(None)
}

/// The node `child` is what lies below slot `s` of the node that is walked.
pub open spec fn stands_for(walk: Walk, s: nat, child: NodeView) -> bool {
    &&& walk.height >= 1
    &&& walk.node is Link
    &&& walk.node->Link_links.len() == width(walk.bit_width)
    &&& s < width(walk.bit_width)
    &&& forall|r: nat| #[trigger]
        lookup_link(
            walk.node->Link_links[s as int],
            walk.blocks,
            walk.bit_width,
            (walk.height - 1) as nat,
            r,
        ) == lookup(child, walk.blocks, walk.bit_width, (walk.height - 1) as nat, r)
}

/// A place below slot `s` lies between the first place of that slot and the
/// first of the next.
pub proof fn lemma_slot_bounds(bit_width: nat, height: nat, j: nat)
    ensures
        slot_of(bit_width, height, j) * span(bit_width, height) <= j,
        j < (slot_of(bit_width, height, j) + 1) * span(bit_width, height),
        j == slot_of(bit_width, height, j) * span(bit_width, height) + rest_of(
            bit_width,
            height,
            j,
        ),
        rest_of(bit_width, height, j) < span(bit_width, height),
{
    lemma_span_pos(bit_width, height);
    let d = span(bit_width, height) as int;
    let n = j as int;
    assert((n / d) * d <= n && n < (n / d + 1) * d && n == (n / d) * d + n % d && 0 <= n % d < d)
        by (nonlinear_arith)
        requires
            d > 0,
            n >= 0,
    ;
}

/// A place of the walked node below slot `s` is a place of the child, with
/// the same index, and holds what the child holds there.
pub proof fn lemma_child_place(walk: Walk, s: nat, child: NodeView, j: nat, bound: nat)
    requires
        stands_for(walk, s, child),
        j < capacity(walk.bit_width, walk.height),
        slot_of(walk.bit_width, walk.height, j) == s,
    ensures
        walk.found(j) == walk.child(s, child).found(rest_of(walk.bit_width, walk.height, j)),
        walk.reaches(j, bound) == walk.child(s, child).reaches(
            rest_of(walk.bit_width, walk.height, j),
            bound,
        ),
        walk.base + j == walk.child(s, child).base + rest_of(walk.bit_width, walk.height, j),
{
    let w = walk.bit_width;
    let h = walk.height;
    lemma_slot_bounds(w, h, j);
    lemma_split(w, h, j);
    lemma_capacity_step(w, h);
    let rest = rest_of(w, h, j);
    let links = walk.node->Link_links;
    assert(walk.found(j) == lookup_link(links[s as int], walk.blocks, w, (h - 1) as nat, rest));
    assert(capacity(w, (h - 1) as nat) == span(w, h));
}

/// An entry of the child is an entry of the walked node.
pub proof fn lemma_child_holds(walk: Walk, s: nat, child: NodeView, entry: (u64, Vec<u8>))
    requires
        stands_for(walk, s, child),
        walk.child(s, child).holds(entry),
    ensures
        walk.holds(entry),
        walk.base + s * span(walk.bit_width, walk.height) <= entry.0 < walk.base + (s + 1) * span(
            walk.bit_width,
            walk.height,
        ),
{
    let d = span(walk.bit_width, walk.height);
    let below = walk.child(s, child);
    let r = (entry.0 - below.base) as nat;
    let j = s * d + r;
    lemma_capacity_step(walk.bit_width, walk.height);
    assert(capacity(walk.bit_width, (walk.height - 1) as nat) == d);
    lemma_compose(walk.bit_width, walk.height, s, r);
    assert(j < capacity(walk.bit_width, walk.height)) by (nonlinear_arith)
        requires
            j == s * d + r,
            r < d,
            s < width(walk.bit_width),
            capacity(walk.bit_width, walk.height) == width(walk.bit_width) * d,
    ;
    assert((s + 1) * d == s * d + d) by (nonlinear_arith);
    assert((entry.0 - walk.base) as nat == j);
    lemma_child_place(walk, s, child, j, MAX_INDEX as nat + 1);
}

impl Node {
    /// Puts behind `out` the entries below this node whose index is `start` or
    /// greater, in the order of their indices, until `out` holds `limit`
    /// entries. The node stands at `height`, and its first place has the index
    /// `base`. Returns the index of the entry that would come next, if the
    /// limit cut the walk short. Children whose places all lie before `start`
    /// are passed over unread.
    #[verifier::rlimit(30)]
    pub fn collect<BS: Blockstore>(
        &self,
        bs: &BS,
        height: u32,
        bit_width: u32,
        base: u64,
        start: u64,
        limit: u64,
        out: &mut Vec<(u64, Vec<u8>)>,
    ) -> (r: Result<Option<u64>, Error>)
        requires
            valid_bit_width(bit_width),
            wf(self@, bit_width as nat, height as nat),
            base <= MAX_INDEX,
            start <= MAX_INDEX,
            old(out)@.len() <= limit,
        ensures
            walked(
                Walk {
                    node: self@,
                    blocks: bs.blocks(),
                    bit_width: bit_width as nat,
                    height: height as nat,
                    base: base as nat,
                    start: start as nat,
                },
                old(out)@,
                final(out)@,
                limit,
                r,
            ),
            bs.reliable() ==> !(r matches Err(Error::BlockStore(_))),
            resident(self@, height as nat) ==> r is Ok,
        decreases height,
    {
        let ghost walk = Walk {
            node: self@,
            blocks: bs.blocks(),
            bit_width: bit_width as nat,
            height: height as nat,
            base: base as nat,
            start: start as nat,
        };
        let ghost before = out@;
        let ghost from = out@.len() as int;
        let ghost w = bit_width as nat;
        let ghost h = height as nat;
        let ghost d = span(w, h);
        let ghost top = MAX_INDEX as nat + 1;
        match self {
            Node::Leaf { vals } => {
                proof {
                    assert(self@->Leaf_vals =~= Seq::new(vals@.len(), |i: int| value_view(vals@[i])));
                }
                collect_leaf(vals, bit_width, base, start, limit, out, Ghost(bs.blocks()))
            },
            Node::Link { links } => {
                let below = nodes_for_height(bit_width, height);
                let n = links.len();
                proof {
                    lemma_capacity_step(w, h);
                    lemma_capacity_step(w, (h - 1) as nat);
                    lemma_span_pos(w, h);
                    lemma_bmap_len(w);
                    assert(d * 0 == 0);
                    assert forall|j: nat| slot_of(w, h, j) < 0 implies false by {}
                }
                proof {
                    assert(out@.subrange(0, from) =~= before);
                }
                let mut s: usize = 0;
                while s < n
                    invariant
                        s <= n,
                        capacity(w, h) == width(w) * d,
                        n == links@.len(),
                        n == width(w),
                        n <= 256,
                        height >= 1,
                        valid_bit_width(bit_width),
                        w == bit_width as nat,
                        h == height as nat,
                        d == span(w, h),
                        d > 0,
                        d == capacity(w, (h - 1) as nat),
                        top == MAX_INDEX as nat + 1,
                        w * h < 64 ==> below == d,
                        w * h >= 64 ==> below == u64::MAX && d > u64::MAX,
                        base <= MAX_INDEX,
                        start <= MAX_INDEX,
                        wf(self@, w, h),
                        self@ is Link,
                        self@->Link_links.len() == n,
                        forall|k: int| 0 <= k < n ==> (#[trigger] self@->Link_links[k])
                            == slot_view(links@[k]),
                        walk == (Walk {
                            node: self@,
                            blocks: bs.blocks(),
                            bit_width: w,
                            height: h,
                            base: base as nat,
                            start: start as nat,
                        }),
                        before == old(out)@,
                        from == before.len(),
                        walked_upto(walk, s as nat, before, out@, limit, Ok(None)),
                    decreases n - s,
                {
                    let ghost prev = out@;
                    let ghost slot = self@->Link_links[s as int];
                    // The index of the first place below this slot, if it is one.
                    let reach = match (s as u64).checked_mul(below) {
                        Some(off) => match base.checked_add(off) {
                            Some(first) => if first <= MAX_INDEX {
                                Some(first)
                            } else {
                                None
                            },
                            None => None,
                        },
                        None => None,
                    };
                    let sub_base = match reach {
                        Some(first) => first,
                        None => {
                            proof {
                                assert(base + s * d > MAX_INDEX) by (nonlinear_arith)
                                    requires
                                        s >= 1,
                                        (below == d && base + s * below > MAX_INDEX) || d > u64::MAX,
                                        base >= 0,
                                ;
                                lemma_walk_done(walk, s as nat, before, out@, limit);
                            }
                            return Ok(None);
                        },
                    };
                    proof {
                        assert(sub_base == base + s * d) by (nonlinear_arith)
                            requires
                                sub_base == base + s * below,
                                below == d || s == 0,
                        ;
                        assert((s + 1) * d == s * d + d) by (nonlinear_arith);
                    }
                    let skipped = start >= sub_base && below <= start - sub_base;
                    if !skipped {
                        let outcome = match &links[s] {
                            None => Ok(None),
                            Some(Link::Dirty(child)) => {
                                proof {
                                    assert(stands_for(walk, s as nat, child@));
                                }
                                let r = child.collect(
                                    bs,
                                    height - 1,
                                    bit_width,
                                    sub_base,
                                    start,
                                    limit,
                                    out,
                                );
                                proof {
                                    lemma_merge(walk, s as nat, child@, before, prev, out@, limit, r);
                                }
                                r
                            },
                            Some(Link::Cid { cid, cache: Some(child) }) => {
                                proof {
                                    assert(stands_for(walk, s as nat, child@));
                                }
                                let r = child.collect(
                                    bs,
                                    height - 1,
                                    bit_width,
                                    sub_base,
                                    start,
                                    limit,
                                    out,
                                );
                                proof {
                                    lemma_merge(walk, s as nat, child@, before, prev, out@, limit, r);
                                }
                                r
                            },
                            Some(Link::Cid { cid, cache: None }) => {
                                match Node::load(bs, cid, bit_width, height - 1) {
                                    Ok(child) => {
                                        proof {
                                            assert(stands_for(walk, s as nat, child@));
                                        }
                                        let r = child.collect(
                                            bs,
                                            height - 1,
                                            bit_width,
                                            sub_base,
                                            start,
                                            limit,
                                            out,
                                        );
                                        proof {
                                            lemma_merge(
                                                walk,
                                                s as nat,
                                                child@,
                                                before,
                                                prev,
                                                out@,
                                                limit,
                                                r,
                                            );
                                        }
                                        r
                                    },
                                    Err(e) => {
                                        proof {
                                            let r: nat = if start > sub_base {
                                                (start - sub_base) as nat
                                            } else {
                                                0
                                            };
                                            let j = s as nat * d + r;
                                            lemma_compose(w, h, s as nat, r);
                                            assert(j < capacity(w, h)) by (nonlinear_arith)
                                                requires
                                                    j == s * d + r,
                                                    r < d,
                                                    s < width(w),
                                                    capacity(w, h) == width(w) * d,
                                            ;
                                            if !(e@ is BlockStore) {
                                                assert(walk.reaches(j, top));
                                                assert(walk.found(j) == Err::<
                                                    Option<Seq<u8>>,
                                                    ErrorView,
                                                >(e@));
                                            }
                                        }
                                        Err(e)
                                    },
                                }
                            },
                        };
                        match outcome {
                            Err(e) => {
                                return Err(e);
                            },
                            Ok(Some(next)) => {
                                return Ok(Some(next));
                            },
                            Ok(None) => {},
                        }
                    }
                    proof {
                        if skipped || slot is None {
                            assert(out@ == prev);
                            assert forall|j: nat|
                                slot_of(w, h, j) < s + 1 && walk.reaches(j, top) implies (
                            #[trigger] walk.found(j)) is Ok && (walk.found(j) matches Ok(Some(_))
                                ==> has_entry(out@, from, base + j)) by {
                                if slot_of(w, h, j) == s {
                                    lemma_slot_bounds(w, h, j);
                                    lemma_split(w, h, j);
                                    if !skipped {
                                        assert(walk.found(j) == lookup_link(
                                            slot,
                                            walk.blocks,
                                            w,
                                            (h - 1) as nat,
                                            rest_of(w, h, j),
                                        ));
                                    }
                                }
                            }
                        }
                    }
                    s += 1;
                }
                proof {
                    assert(base + s * d >= base + width(w) * d) by (nonlinear_arith)
                        requires
                            s == width(w),
                    ;
                    lemma_walk_done(walk, s as nat, before, out@, limit);
                }
                Ok(None)
            },
        }
    }
}

/// A walk that has no more slots to walk, or has come past the largest index,
/// has walked the node.
proof fn lemma_walk_done(
    walk: Walk,
    s: nat,
    before: Seq<(u64, Vec<u8>)>,
    after: Seq<(u64, Vec<u8>)>,
    limit: u64,
)
    requires
        walk.height >= 1,
        walked_upto(walk, s, before, after, limit, Ok(None)),
        walk.base + s * span(walk.bit_width, walk.height) > MAX_INDEX || walk.base + s * span(
            walk.bit_width,
            walk.height,
        ) >= walk.base + capacity(walk.bit_width, walk.height),
    ensures
        walked(walk, before, after, limit, Ok(None)),
{
    let w = walk.bit_width;
    let h = walk.height;
    let d = span(w, h);
    let from = before.len() as int;
    let top = MAX_INDEX as nat + 1;
    lemma_span_pos(w, h);
    assert forall|j: nat| walk.reaches(j, top) implies (#[trigger] walk.found(j)) is Ok && (
    walk.found(j) matches Ok(Some(_)) ==> has_entry(after, from, (walk.base + j) as int)) by {
        lemma_slot_bounds(w, h, j);
        if slot_of(w, h, j) >= s {
            assert(slot_of(w, h, j) * d >= s * d) by (nonlinear_arith)
                requires
                    slot_of(w, h, j) >= s,
                    d > 0,
            ;
        }
    }
    assert forall|a: int| from <= a < after.len() implies (#[trigger] after[a]).0 < top by {
        assert(walk.holds(after[a]));
    }
}

/// What a walk promises once the slots before `slots` are behind it and the
/// last child walked gave `r`: where `r` ends the walk, what `walked` asks for;
/// else the same of the places below those slots.
pub open spec fn walked_upto(
    walk: Walk,
    slots: nat,
    before: Seq<(u64, Vec<u8>)>,
    after: Seq<(u64, Vec<u8>)>,
    limit: u64,
    r: Result<Option<u64>, Error>,
) -> bool {
    if r matches Ok(None) {
        &&& before.len() <= after.len() <= limit
        &&& after.subrange(0, before.len() as int) == before
        &&& forall|k: int| before.len() <= k < after.len() ==> walk.holds(#[trigger] after[k])
        &&& ascending(
            after,
            before.len() as int,
            walk.base + slots * span(walk.bit_width, walk.height),
        )
        &&& forall|j: nat|
            slot_of(walk.bit_width, walk.height, j) < slots && walk.reaches(
                j,
                MAX_INDEX as nat + 1,
            ) ==> (#[trigger] walk.found(j)) is Ok && (walk.found(j) matches Ok(Some(_))
                ==> has_entry(after, before.len() as int, (walk.base + j) as int))
    } else {
        walked(walk, before, after, limit, r)
    }
}

/// What the walk of a child adds to the walk of its parent.
proof fn lemma_merge(
    walk: Walk,
    s: nat,
    child: NodeView,
    before: Seq<(u64, Vec<u8>)>,
    prev: Seq<(u64, Vec<u8>)>,
    after: Seq<(u64, Vec<u8>)>,
    limit: u64,
    r: Result<Option<u64>, Error>,
)
    requires
        stands_for(walk, s, child),
        walked(walk.child(s, child), prev, after, limit, r),
        walked_upto(walk, s, before, prev, limit, Ok(None)),
    ensures
        walked_upto(walk, s + 1, before, after, limit, r),
{
    let cw = walk.child(s, child);
    let w = walk.bit_width;
    let h = walk.height;
    let d = span(w, h);
    let from = before.len() as int;
    let mid = prev.len() as int;
    let top = MAX_INDEX as nat + 1;
    lemma_capacity_step(w, h);
    lemma_span_pos(w, h);
    assert(capacity(w, (h - 1) as nat) == d);
    assert((s + 1) * d == s * d + d) by (nonlinear_arith);
    assert(after.subrange(0, from) =~= before) by {
        assert forall|k: int| 0 <= k < from implies after.subrange(0, from)[k] == before[k] by {
            assert(after.subrange(0, mid)[k] == after[k]);
            assert(prev.subrange(0, from)[k] == prev[k]);
        }
    }
    match r {
        Err(e) => {
            if !(e@ is BlockStore) {
                let r = choose|r: nat|
                    cw.reaches(r, top) && #[trigger] cw.found(r) == Err::<
                        Option<Seq<u8>>,
                        ErrorView,
                    >(e@);
                let j = s * d + r;
                lemma_compose(w, h, s, r);
                assert(j < capacity(w, h)) by (nonlinear_arith)
                    requires
                        j == s * d + r,
                        r < d,
                        s < width(w),
                        capacity(w, h) == width(w) * d,
                ;
                lemma_child_place(walk, s, child, j, top);
                assert(walk.reaches(j, top) && walk.found(j) == Err::<Option<Seq<u8>>, ErrorView>(
                    e@,
                ));
            }
        },
        Ok(next) => {
            let bound = match next {
                Some(n) => n as nat,
                None => top,
            };
            assert forall|k: int| from <= k < after.len() implies walk.holds(
                #[trigger] after[k],
            ) && (k >= mid ==> walk.base + s * d <= after[k].0 < walk.base + (s + 1) * d) && (k
                < mid ==> after[k] == prev[k]) by {
                if k < mid {
                    assert(after.subrange(0, mid)[k] == after[k]);
                } else {
                    lemma_child_holds(walk, s, child, after[k]);
                }
            }
            assert forall|j: nat|
                slot_of(w, h, j) < s + 1 && walk.reaches(j, bound) implies (#[trigger] walk.found(
                    j,
                )) is Ok && (walk.found(j) matches Ok(Some(_)) ==> has_entry(after, from, (walk.base + j) as int)) by {
                if slot_of(w, h, j) < s {
                    if walk.found(j) matches Ok(Some(_)) {
                        lemma_entry_stays(prev, after, from, (walk.base + j) as int);
                    }
                } else {
                    let rest = rest_of(w, h, j);
                    lemma_child_place(walk, s, child, j, bound);
                    assert(cw.found(rest) is Ok);
                    if cw.found(rest) matches Ok(Some(_)) {
                        assert(has_entry(after, mid, (cw.base + rest) as int));
                        let k = choose|k: int|
                            mid <= k < after.len() && (#[trigger] after[k]).0 == cw.base + rest;
                        assert(after[k].0 == walk.base + j);
                    }
                }
            }
            match next {
                None => {
                    assert forall|a: int, b: int| from <= a < b < after.len() implies (
                    #[trigger] after[a]).0 < (#[trigger] after[b]).0 by {
                        if b < mid {
                            assert(prev[a].0 < prev[b].0);
                        } else if a < mid {
                            assert(prev[a].0 < walk.base + s * d);
                        }
                    }
                    assert forall|a: int| from <= a < after.len() implies (#[trigger] after[a]).0
                        < walk.base + (s + 1) * d by {
                        if a < mid {
                            assert(prev[a].0 < walk.base + s * d);
                        }
                    }
                },
                Some(n) => {
                    let r = (n - cw.base) as nat;
                    let j = s * d + r;
                    lemma_compose(w, h, s, r);
                    assert(j < capacity(w, h)) by (nonlinear_arith)
                        requires
                            j == s * d + r,
                            r < d,
                            s < width(w),
                            capacity(w, h) == width(w) * d,
                    ;
                    lemma_child_place(walk, s, child, j, top);
                    assert((n - walk.base) as nat == j);
                    assert forall|a: int, b: int| from <= a < b < after.len() implies (
                    #[trigger] after[a]).0 < (#[trigger] after[b]).0 by {
                        if b < mid {
                            assert(prev[a].0 < prev[b].0);
                        } else if a < mid {
                            assert(prev[a].0 < walk.base + s * d);
                        }
                    }
                    assert forall|a: int| from <= a < after.len() implies (#[trigger] after[a]).0
                        < n by {
                        if a < mid {
                            assert(prev[a].0 < walk.base + s * d);
                        }
                    }
                    assert forall|j: nat| walk.reaches(j, n as nat) implies (#[trigger] walk.found(
                        j,
                    )) is Ok && (walk.found(j) matches Ok(Some(_)) ==> has_entry(after, from, (walk.base + j) as int)) by {
                        lemma_slot_bounds(w, h, j);
                        if slot_of(w, h, j) > s {
                            assert(slot_of(w, h, j) * d >= (s + 1) * d) by (nonlinear_arith)
                                requires
                                    slot_of(w, h, j) >= s + 1,
                                    d > 0,
                            ;
                        }
                    }
                },
            }
        },
    }
}

} // verus!
