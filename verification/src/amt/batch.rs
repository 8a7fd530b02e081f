//! Setting and deleting many values at once.

use crate::amt::count::{
    count_values, lemma_count_bound, lemma_count_none, lemma_count_prefix, lemma_count_update,
    lemma_count_values_below, lemma_count_values_same,
};
use crate::amt::{root_cid, AmtImpl};
use crate::content_id::Cid;
use crate::error::{Error, ErrorView};
use crate::index::{capacity, valid_bit_width, DEFAULT_BIT_WIDTH, MAX_INDEX};
use crate::node::{is_value, lookup, NodeView};
use crate::node::edit::lemma_resident_in_memory;
use crate::node::flush::{flush_writes, flushed, persisted, store_step};
use crate::node::pack::collapse_spec;
use crate::node::shape::{resident, tight};
use crate::node::wf;
use crate::root::{root_bytes, Version};
use crate::store::{Blocks, Blockstore};
use vstd::prelude::*;

verus! {

/// Sorts with `sorted` of the `itertools` crate: the result holds what the
/// argument holds, each index as often, in ascending order.
#[verifier::external_body]
fn sorted_indices(indices: Vec<u64>) -> (sorted: Vec<u64>)
    ensures
        sorted@.to_multiset() == indices@.to_multiset(),
        forall|a: int, b: int| 0 <= a <= b < sorted@.len() ==> sorted@[a] <= sorted@[b],
{
    itertools::sorted(indices).collect()
}

/// The count of a trie that had `count` and has got `added` values more: it
/// stops at the largest number there is.
pub open spec fn count_after(count: u64, added: nat) -> nat {
    if count + added > u64::MAX {
        u64::MAX as nat
    } else {
        (count + added) as nat
    }
}

/// The count of a trie that had `count` and has lost `removed` values: it
/// stops at 0.
pub open spec fn count_less(count: u64, removed: nat) -> nat {
    if removed > count {
        0
    } else {
        (count - removed) as nat
    }
}

/// Whether index `j` is among `indices`.
pub open spec fn listed(indices: Seq<u64>, j: nat) -> bool {
    exists|k: int| 0 <= k < indices.len() && #[trigger] indices[k] == j
}

impl<BS: Blockstore, Ver: Version> AmtImpl<BS, Ver> {
    /// Puts the values at the indices from 0 on, one after the other. The
    /// first error ends it: the values before are in the trie, the others not.
    pub fn batch_set(&mut self, vals: Vec<Vec<u8>>) -> (r: Result<(), Error>)
        requires
            old(self).wf(),
        ensures
            final(self).wf(),
            old(self).flushed_cid is None ==> final(self).flushed_cid is None,
            final(self).block_store == old(self).block_store,
            final(self).root.bit_width == old(self).root.bit_width,
            old(self).resident() ==> final(self).resident(),
            old(self).count_exact() ==> final(self).count_exact(),
            old(self).canonical() ==> final(self).canonical(),
            old(self).dense() ==> final(self).dense(),
            old(self).minimal() ==> final(self).minimal(),
            old(self).block_store.reliable() ==> !(r matches Err(Error::BlockStore(_))),
            old(self).resident() && vals@.len() <= MAX_INDEX + 1 ==> r is Ok,
            final(self).flushed_cid is None || (final(self).root@ == old(self).root@
                && final(self).flushed_cid == old(self).flushed_cid),
            r is Ok && vals@.len() > 0 ==> final(self).flushed_cid is None,
            final(self).root.height >= old(self).root.height,
            r is Ok && final(self).root.height > old(self).root.height ==> vals@.len() > capacity(
                final(self).root.bit_width as nat,
                (final(self).root.height - 1) as nat,
            ),
            r is Ok ==> vals@.len() <= MAX_INDEX + 1,
            r is Ok ==> final(self).root.count == count_after(
                old(self).root.count,
                (vals@.len() - old(self).population(vals@.len())) as nat,
            ),
            r is Ok ==> forall|j: nat| #[trigger]
                final(self).at(j) == (if j < vals@.len() {
                    Ok::<Option<Seq<u8>>, ErrorView>(Some(vals@[j as int]@))
                } else {
                    old(self).at(j)
                }),
            r matches Err(e) ==> exists|done: nat|
                {
                    &&& done < vals@.len()
                    &&& e@ is BlockStore || (e@ == ErrorView::OutOfRange(done as u64) && done
                        > MAX_INDEX) || old(self).at(done) == Err::<Option<Seq<u8>>, ErrorView>(e@)
                    &&& forall|j: nat| #[trigger]
                        final(self).at(j) == (if j < done {
                            Ok::<Option<Seq<u8>>, ErrorView>(Some(vals@[j as int]@))
                        } else {
                            old(self).at(j)
                        })
                    &&& final(self).root.count == count_after(
                        old(self).root.count,
                        (done - old(self).population(done)) as nat,
                    )
                },
    {
        let mut k: usize = 0;
        while k < vals.len()
            invariant
                k <= vals@.len(),
                k <= MAX_INDEX + 1,
                self.wf(),
                old(self).flushed_cid is None ==> self.flushed_cid is None,
                self.block_store == old(self).block_store,
                self.root.bit_width == old(self).root.bit_width,
                old(self).resident() ==> self.resident(),
                old(self).count_exact() ==> self.count_exact(),
                old(self).canonical() ==> self.canonical(),
                old(self).dense() ==> self.dense(),
                old(self).minimal() ==> self.minimal(),
                self.root.count == count_after(
                    old(self).root.count,
                    (k - old(self).population(k as nat)) as nat,
                ),
                k > 0 ==> self.flushed_cid is None,
                k == 0 ==> self.root@ == old(self).root@ && self.flushed_cid == old(
                    self,
                ).flushed_cid,
                self.root.height >= old(self).root.height,
                self.root.height > old(self).root.height ==> k > capacity(
                    self.root.bit_width as nat,
                    (self.root.height - 1) as nat,
                ),
                forall|j: nat| #[trigger]
                    self.at(j) == (if j < k {
                        Ok::<Option<Seq<u8>>, ErrorView>(Some(vals@[j as int]@))
                    } else {
                        old(self).at(j)
                    }),
            decreases vals@.len() - k,
        {
            let ghost pre = *self;
            proof {
                if self.resident() {
                    lemma_resident_in_memory(
                        self.root.node@,
                        self.root.bit_width as nat,
                        self.root.height as nat,
                        k as nat,
                    );
                }
                lemma_count_bound(|j: nat| old(self).at(j), k as nat);
                lemma_count_bound(|j: nat| old(self).at(j), (k + 1) as nat);
                assert(pre.at(k as nat) == old(self).at(k as nat));
            }
            let val = vals[k].clone();
            match self.set(k as u64, val) {
                Ok(()) => {
                    proof {
                        assert forall|j: nat| #[trigger]
                            self.at(j) == (if j < k + 1 {
                                Ok::<Option<Seq<u8>>, ErrorView>(Some(vals@[j as int]@))
                            } else {
                                old(self).at(j)
                            }) by {
                            assert(pre.at(j) == (if j < k {
                                Ok::<Option<Seq<u8>>, ErrorView>(Some(vals@[j as int]@))
                            } else {
                                old(self).at(j)
                            }));
                        }
                    }
                },
                Err(e) => {
                    proof {
                        let done = k as nat;
                        assert(pre.at(done) == old(self).at(done));
                        assert forall|j: nat| #[trigger]
                            self.at(j) == (if j < done {
                                Ok::<Option<Seq<u8>>, ErrorView>(Some(vals@[j as int]@))
                            } else {
                                old(self).at(j)
                            }) by {
                            assert(pre.at(j) == (if j < k {
                                Ok::<Option<Seq<u8>>, ErrorView>(Some(vals@[j as int]@))
                            } else {
                                old(self).at(j)
                            }));
                            assert(self.root@ == pre.root@);
                        }
                    }
                    return Err(e);
                },
            }
            k += 1;
        }
        Ok(())
    }

    /// Takes out what is at index `i` and says whether anything was there.
    fn delete_one(&mut self, i: u64) -> (r: Result<bool, Error>)
        requires
            old(self).wf(),
        ensures
            final(self).wf(),
            final(self).block_store == old(self).block_store,
            final(self).root.bit_width == old(self).root.bit_width,
            old(self).resident() ==> final(self).resident(),
            old(self).count_exact() ==> final(self).count_exact(),
            r is Ok && old(self).canonical() ==> final(self).canonical(),
            old(self).dense() ==> final(self).dense(),
            old(self).dense() && old(self).minimal() ==> final(self).minimal(),
            final(self).root.height <= old(self).root.height,
            final(self).root.count <= old(self).root.count,
            old(self).block_store.reliable() ==> !(r matches Err(Error::BlockStore(_))),
            i <= MAX_INDEX && old(self).resident() ==> r is Ok,
            final(self).flushed_cid is None || (final(self).root@ == old(self).root@
                && final(self).flushed_cid == old(self).flushed_cid),
            r == Ok::<bool, Error>(true) ==> final(self).flushed_cid is None,
            r == Ok::<bool, Error>(false) ==> final(self).root@ == old(self).root@
                && final(self).flushed_cid == old(self).flushed_cid,
            r is Ok ==> i <= MAX_INDEX,
            final(self).root.count == (if r == Ok::<bool, Error>(true) {
                count_less(old(self).root.count, 1)
            } else {
                old(self).root.count as nat
            }),
            r matches Ok(found) ==> found == is_value(old(self).at(i as nat)) && old(self).at(
                i as nat,
            ) is Ok,
            forall|j: nat| #[trigger]
                final(self).at(j) == (if j == i && r == Ok::<bool, Error>(true) {
                    Ok::<Option<Seq<u8>>, ErrorView>(None)
                } else {
                    old(self).at(j)
                }),
            r matches Err(e) ==> e@ is BlockStore || old(self).at(0) == Err::<
                Option<Seq<u8>>,
                ErrorView,
            >(e@) || batch_failure(e@, i, old(self).at(i as nat), false),
    {
        match self.delete(i) {
            Ok(found) => {
                proof {
                    if found is None {
                        assert forall|j: nat| #[trigger] self.at(j) == old(self).at(j) by {}
                    }
                }
                Ok(found.is_some())
            },
            Err(e) => Err(e),
        }
    }

    /// Takes out what is at each of the indices, in ascending order and each
    /// index once, and says whether anything was there. Where `strict` is set,
    /// an index with nothing at it is an error. The first error ends it: what
    /// was taken out before stays out.
    #[verifier::rlimit(60)]
    pub fn batch_delete(&mut self, indices: Vec<u64>, strict: bool) -> (r: Result<bool, Error>)
        requires
            old(self).wf(),
        ensures
            final(self).wf(),
            final(self).block_store == old(self).block_store,
            final(self).root.bit_width == old(self).root.bit_width,
            old(self).resident() ==> final(self).resident(),
            old(self).count_exact() ==> final(self).count_exact(),
            r is Ok && old(self).canonical() ==> final(self).canonical(),
            old(self).dense() ==> final(self).dense(),
            old(self).dense() && old(self).minimal() ==> final(self).minimal(),
            final(self).root.height <= old(self).root.height,
            final(self).root.count <= old(self).root.count,
            old(self).block_store.reliable() ==> !(r matches Err(Error::BlockStore(_))),
            old(self).resident() && (forall|k: int|
                0 <= k < indices@.len() ==> #[trigger] indices@[k] <= MAX_INDEX) && (strict
                ==> all_hit(old(self), indices@)) ==> r is Ok,
            final(self).flushed_cid is None || (final(self).root@ == old(self).root@
                && final(self).flushed_cid == old(self).flushed_cid),
            r matches Ok(modified) ==> (if modified {
                final(self).flushed_cid is None
            } else {
                final(self).root@ == old(self).root@ && final(self).flushed_cid == old(
                    self,
                ).flushed_cid
            }),
            forall|j: nat| #[trigger]
                final(self).at(j) == old(self).at(j) || (listed(indices@, j) && final(self).at(j)
                    == Ok::<Option<Seq<u8>>, ErrorView>(None)),
            r matches Ok(modified) ==> {
                &&& forall|j: nat|
                    listed(indices@, j) ==> #[trigger] final(self).at(j) == Ok::<
                        Option<Seq<u8>>,
                        ErrorView,
                    >(None)
                &&& modified == any_hit(old(self), indices@)
                &&& strict ==> all_hit(old(self), indices@)
                &&& final(self).root.count == count_less(
                    old(self).root.count,
                    hits(old(self), indices@, MAX_INDEX as nat + 1),
                )
            },
            r matches Err(e) ==> {
                ||| e@ is BlockStore
                ||| old(self).at(0) == Err::<Option<Seq<u8>>, ErrorView>(e@)
                ||| exists|k: int|
                    0 <= k < indices@.len() && batch_failure(
                        e@,
                        #[trigger] indices@[k],
                        old(self).at(indices@[k] as nat),
                        strict,
                    )
            },
            r matches Err(e) ==> exists|k: int|
                0 <= k < indices@.len() && batch_stopped(
                    old(self),
                    final(self),
                    indices@,
                    #[trigger] indices@[k],
                    e@,
                    strict,
                ),
    {
        let order = sorted_indices(indices);
        let ghost given = indices@;
        let ghost start = *self;
        proof {
            lemma_same_indices(given, order@);
            assert(order@.subrange(0, 0) =~= Seq::<u64>::empty());
            reveal(in_order);
            reveal(batch_state);
            assert(batch_state(&start, self, order@.subrange(0, 0)));
            assert(all_read(&start, order@.subrange(0, 0)));
            lemma_removed_none(&start, order@.subrange(0, 0));
        }
        let mut modified = false;
        let mut k: usize = 0;
        while k < order.len()
            invariant
                k <= order@.len(),
                self.wf(),
                start == *old(self),
                self.block_store == old(self).block_store,
                self.root.bit_width == old(self).root.bit_width,
                old(self).resident() ==> self.resident(),
                old(self).count_exact() ==> self.count_exact(),
                old(self).canonical() ==> self.canonical(),
                old(self).dense() ==> self.dense(),
                old(self).dense() && old(self).minimal() ==> self.minimal(),
                self.root.height <= old(self).root.height,
                self.root.count <= old(self).root.count,
                given == indices@,
                in_order(given, order@),
                batch_state(&start, self, order@.subrange(0, k as int)),
                modified == any_hit(&start, order@.subrange(0, k as int)),
                strict ==> all_hit(&start, order@.subrange(0, k as int)),
                all_read(&start, order@.subrange(0, k as int)),
                self.root.count == count_less(
                    start.root.count,
                    removed(&start, order@.subrange(0, k as int)),
                ),
                modified ==> self.flushed_cid is None,
                !modified ==> self.root@ == start.root@ && self.flushed_cid == start.flushed_cid,
            decreases order@.len() - k,
        {
            let i = order[k];
            let ghost pre = *self;
            if k > 0 && order[k - 1] == i {
                proof {
                    lemma_batch_repeat(&start, self, order@, k as int);
                    lemma_removed_repeat(&start, order@, k as int);
                }
            } else {
                proof {
                    lemma_batch_fresh(&start, self, given, order@, k as int);
                    lemma_batch_range(given, order@, k as int);
                }
                let found = match self.delete_one(i) {
                    Ok(found) => found,
                    Err(e) => {
                        proof {
                            lemma_batch_partial(&start, &pre, self, given, order@, k as int);
                            if batch_failure(e@, i, start.at(i as nat), strict) {
                                lemma_batch_blame(&start, given, order@, k as int, e@, strict);
                            }
                            lemma_batch_stopped(
                                &start,
                                &pre,
                                self,
                                given,
                                order@,
                                k as int,
                                e@,
                                strict,
                            );
                        }
                        return Err(e);
                    },
                };
                proof {
                    assert forall|j: nat| #[trigger]
                        self.at(j) == (if j == i && found {
                            Ok::<Option<Seq<u8>>, ErrorView>(None)
                        } else {
                            pre.at(j)
                        }) by {}
                    lemma_batch_step(&start, &pre, self, order@, k as int, found);
                    lemma_removed_step(&start, order@, k as int);
                }
                if strict && !found {
                    proof {
                        lemma_batch_partial(&start, self, self, given, order@, k + 1);
                        lemma_batch_stopped(
                            &start,
                            &pre,
                            self,
                            given,
                            order@,
                            k as int,
                            ErrorView::NotFound(i),
                            strict,
                        );
                        lemma_batch_blame(
                            &start,
                            given,
                            order@,
                            k as int,
                            ErrorView::NotFound(i),
                            strict,
                        );
                    }
                    return Err(Error::NotFound(i));
                }
                modified = modified || found;
            }
            k += 1;
        }
        proof {
            assert(order@.subrange(0, k as int) =~= order@);
            lemma_batch_done(&start, self, given, order@);
        }
        Ok(modified)
    }

    /// Writes a trie of the default bit width with the values at the indices
    /// from 0 on to the store, and returns the identifier of its root with the
    /// store.
    pub fn new_from_iter(block_store: BS, vals: Vec<Vec<u8>>) -> (r: (Result<Cid, Error>, BS))
        ensures
            built(Ver::names_bit_width(), DEFAULT_BIT_WIDTH, block_store, vals@, r.0, r.1),
    {
        Self::new_from_iter_with_bit_width(block_store, DEFAULT_BIT_WIDTH, vals)
    }

    /// Writes a trie of the given bit width with the values at the indices
    /// from 0 on to the store, and returns the identifier of its root with the
    /// store: what an empty trie gives that is filled with `batch_set` and
    /// written with `flush`.
    pub fn new_from_iter_with_bit_width(block_store: BS, bit_width: u32, vals: Vec<Vec<u8>>) -> (r:
        (Result<Cid, Error>, BS))
        requires
            valid_bit_width(bit_width),
        ensures
            built(Ver::names_bit_width(), bit_width, block_store, vals@, r.0, r.1),
    {
        let mut amt: AmtImpl<BS, Ver> = AmtImpl::new_with_bit_width(block_store, bit_width);
        let ghost fresh = amt;
        match amt.batch_set(vals) {
            Ok(()) => {},
            Err(e) => {
                proof {
                    let done = choose|done: nat|
                        {
                            &&& done < vals@.len()
                            &&& e@ is BlockStore || (e@ == ErrorView::OutOfRange(done as u64)
                                && done > MAX_INDEX) || fresh.at(done) == Err::<
                                Option<Seq<u8>>,
                                ErrorView,
                            >(e@)
                            &&& forall|j: nat| #[trigger]
                                amt.at(j) == (if j < done {
                                    Ok::<Option<Seq<u8>>, ErrorView>(Some(vals@[j as int]@))
                                } else {
                                    fresh.at(j)
                                })
                        };
                    assert(fresh.at(done) == Ok::<Option<Seq<u8>>, ErrorView>(None));
                }
                return (Err(e), amt.block_store);
            },
        }
        let ghost full = amt;
        let r = amt.flush();
        proof {
            if r is Ok {
                lemma_filled(&full, vals@);
                lemma_count_prefix(|j: nat| full.at(j), vals@.len(), MAX_INDEX as nat + 1);
                assert(amt.root.count == vals@.len());
                let height = full.root.height;
                let node = full.root.node@;
                assert(amt.spec_cid() == root_cid(
                    Ver::names_bit_width(),
                    bit_width,
                    height,
                    vals@.len() as u64,
                    flushed(node, bit_width as nat, height as nat),
                ));
                assert(written(
                    Ver::names_bit_width(),
                    bit_width,
                    height,
                    node,
                    block_store.blocks(),
                    vals@,
                    r->Ok_0@,
                    amt.block_store.blocks(),
                ));
            }
        }
        (r, amt.block_store)
    }
}

/// A trie that is in its one shape and holds the values at the indices from 0
/// on, and nothing else, has a top node that is filled with them.
proof fn lemma_filled<BS: Blockstore, Ver: Version>(amt: &AmtImpl<BS, Ver>, vals: Seq<Vec<u8>>)
    requires
        amt.wf(),
        amt.canonical(),
        forall|j: nat| #[trigger]
            amt.at(j) == (if j < vals.len() {
                Ok::<Option<Seq<u8>>, ErrorView>(Some(vals[j as int]@))
            } else {
                Ok::<Option<Seq<u8>>, ErrorView>(None)
            }),
    ensures
        filled_with(
            amt.root.node@,
            amt.block_store.blocks(),
            amt.root.bit_width as nat,
            amt.root.height as nat,
            vals,
        ),
{
    let w = amt.root.bit_width as nat;
    let h = amt.root.height as nat;
    let node = amt.root.node@;
    let blocks = amt.block_store.blocks();
    assert forall|j: nat| j < vals.len() implies j < capacity(w, h) && #[trigger] lookup(
        node,
        blocks,
        w,
        h,
        j,
    ) == Ok::<Option<Seq<u8>>, ErrorView>(Some(vals[j as int]@)) by {
        assert(amt.at(j) == Ok::<Option<Seq<u8>>, ErrorView>(Some(vals[j as int]@)));
    }
    assert forall|j: nat| vals.len() <= j < capacity(w, h) implies #[trigger] lookup(
        node,
        blocks,
        w,
        h,
        j,
    ) == Ok::<Option<Seq<u8>>, ErrorView>(None) by {
        assert(amt.at(j) == Ok::<Option<Seq<u8>>, ErrorView>(None));
    }
    if h > 0 {
        let j = choose|j: nat| capacity(w, (h - 1) as nat) <= j && is_value(#[trigger] amt.at(j));
        assert(j < vals.len());
    }
}

/// The list `order` holds the indices of `given`, in ascending order.
#[verifier::opaque]
pub open spec fn in_order(given: Seq<u64>, order: Seq<u64>) -> bool {
    &&& forall|v: u64| order.contains(v) <==> given.contains(v)
    &&& forall|a: int, b: int| 0 <= a <= b < order.len() ==> order[a] <= order[b]
}

/// The trie `cur` is the trie `start` without what was at the indices `done`.
#[verifier::opaque]
pub open spec fn batch_state<BS: Blockstore, Ver: Version>(
    start: &AmtImpl<BS, Ver>,
    cur: &AmtImpl<BS, Ver>,
    done: Seq<u64>,
) -> bool {
    forall|j: nat| #[trigger]
        cur.at(j) == (if listed(done, j) {
            Ok::<Option<Seq<u8>>, ErrorView>(None)
        } else {
            start.at(j)
        })
}

/// The trie holds a value at one of the indices.
pub open spec fn any_hit<BS: Blockstore, Ver: Version>(amt: &AmtImpl<BS, Ver>, indices: Seq<u64>)
    -> bool {
    exists|k: int| 0 <= k < indices.len() && is_value(amt.at(#[trigger] indices[k] as nat))
}

/// The trie holds a value at each of the indices.
pub open spec fn all_hit<BS: Blockstore, Ver: Version>(amt: &AmtImpl<BS, Ver>, indices: Seq<u64>)
    -> bool {
    forall|k: int| 0 <= k < indices.len() ==> is_value(amt.at(#[trigger] indices[k] as nat))
}

/// The number of values that the trie holds at the listed indices below
/// `stop`, each index counted once.
pub open spec fn hits<BS: Blockstore, Ver: Version>(
    amt: &AmtImpl<BS, Ver>,
    indices: Seq<u64>,
    stop: nat,
) -> nat {
    count_values(
        |j: nat|
            if listed(indices, j) && j < stop {
                amt.at(j)
            } else {
                Ok::<Option<Seq<u8>>, ErrorView>(None)
            },
        MAX_INDEX as nat + 1,
    )
}

/// The number of values that the trie holds at the indices `done`.
#[verifier::opaque]
pub open spec fn removed<BS: Blockstore, Ver: Version>(amt: &AmtImpl<BS, Ver>, done: Seq<u64>)
    -> nat {
    hits(amt, done, MAX_INDEX as nat + 1)
}

/// Nothing done, nothing taken out.
proof fn lemma_removed_none<BS: Blockstore, Ver: Version>(start: &AmtImpl<BS, Ver>, done: Seq<u64>)
    requires
        done.len() == 0,
    ensures
        removed(start, done) == 0,
{
    reveal(removed);
    let top = MAX_INDEX as nat + 1;
    let none = |j: nat|
        if listed(done, j) && j < top {
            start.at(j)
        } else {
            Ok::<Option<Seq<u8>>, ErrorView>(None)
        };
    lemma_count_none(none, top);
}

/// An index that was deleted before takes no value out.
proof fn lemma_removed_repeat<BS: Blockstore, Ver: Version>(
    start: &AmtImpl<BS, Ver>,
    order: Seq<u64>,
    k: int,
)
    requires
        0 < k < order.len(),
        order[k - 1] == order[k],
    ensures
        removed(start, order.subrange(0, k + 1)) == removed(start, order.subrange(0, k)),
{
    reveal(removed);
    let seen = order.subrange(0, k);
    let next = order.subrange(0, k + 1);
    let top = MAX_INDEX as nat + 1;
    lemma_listed_push(order, k);
    assert(seen[k - 1] == order[k]);
    assert(listed(seen, order[k] as nat));
    let before = |j: nat|
        if listed(seen, j) && j < top {
            start.at(j)
        } else {
            Ok::<Option<Seq<u8>>, ErrorView>(None)
        };
    let after = |j: nat|
        if listed(next, j) && j < top {
            start.at(j)
        } else {
            Ok::<Option<Seq<u8>>, ErrorView>(None)
        };
    assert forall|j: nat| is_value(#[trigger] after(j)) == is_value(before(j)) by {
        assert(listed(next, j) <==> (listed(seen, j) || j == order[k]));
    }
    lemma_count_values_same(before, after, top);
}

/// An index that is deleted for the first time takes out the value it holds.
proof fn lemma_removed_step<BS: Blockstore, Ver: Version>(
    start: &AmtImpl<BS, Ver>,
    order: Seq<u64>,
    k: int,
)
    requires
        0 <= k < order.len(),
        !listed(order.subrange(0, k), order[k] as nat),
        order[k] <= MAX_INDEX,
    ensures
        removed(start, order.subrange(0, k + 1)) == removed(start, order.subrange(0, k)) + (
        if is_value(start.at(order[k] as nat)) {
            1nat
        } else {
            0nat
        }),
{
    reveal(removed);
    let seen = order.subrange(0, k);
    let next = order.subrange(0, k + 1);
    let top = MAX_INDEX as nat + 1;
    lemma_listed_push(order, k);
    let before = |j: nat|
        if listed(seen, j) && j < top {
            start.at(j)
        } else {
            Ok::<Option<Seq<u8>>, ErrorView>(None)
        };
    let after = |j: nat|
        if listed(next, j) && j < top {
            start.at(j)
        } else {
            Ok::<Option<Seq<u8>>, ErrorView>(None)
        };
    assert forall|j: nat| j != order[k] as nat implies #[trigger] after(j) == before(j) by {
        assert(listed(next, j) <==> (listed(seen, j) || j == order[k]));
    }
    assert(listed(next, order[k] as nat));
    lemma_count_update(before, after, order[k] as nat, top);
}

/// What was taken out at the indices done is what the trie held at the
/// listed indices below `stop`, where the indices done are those.
proof fn lemma_removed_hits<BS: Blockstore, Ver: Version>(
    start: &AmtImpl<BS, Ver>,
    given: Seq<u64>,
    done: Seq<u64>,
    stop: nat,
)
    requires
        forall|j: nat|
            j <= MAX_INDEX ==> (#[trigger] listed(done, j) <==> (listed(given, j) && j < stop)),
    ensures
        removed(start, done) == hits(start, given, stop),
{
    reveal(removed);
    let top = MAX_INDEX as nat + 1;
    let before = |j: nat|
        if listed(done, j) && j < top {
            start.at(j)
        } else {
            Ok::<Option<Seq<u8>>, ErrorView>(None)
        };
    let after = |j: nat|
        if listed(given, j) && j < stop {
            start.at(j)
        } else {
            Ok::<Option<Seq<u8>>, ErrorView>(None)
        };
    assert forall|j: nat| j < top implies is_value(#[trigger] after(j)) == is_value(before(j)) by {
        assert(listed(done, j) <==> (listed(given, j) && j < stop));
    }
    lemma_count_values_below(before, after, top);
}

/// The way to each of the indices ends in no error.
pub open spec fn all_read<BS: Blockstore, Ver: Version>(amt: &AmtImpl<BS, Ver>, indices: Seq<u64>)
    -> bool {
    forall|k: int| 0 <= k < indices.len() ==> amt.at(#[trigger] indices[k] as nat) is Ok
}

/// A batch of deletes on the trie `start` ended at the index `stop` in the
/// error `e` and left the trie `cur`: what was at the listed indices below
/// `stop` is gone and nothing else has changed, the count has gone down by
/// the number of values that were there, none of those indices gave rise to
/// an error, and `stop` did.
pub open spec fn batch_stopped<BS: Blockstore, Ver: Version>(
    start: &AmtImpl<BS, Ver>,
    cur: &AmtImpl<BS, Ver>,
    indices: Seq<u64>,
    stop: u64,
    e: ErrorView,
    strict: bool,
) -> bool {
    &&& forall|j: nat| #[trigger]
        cur.at(j) == (if listed(indices, j) && j < stop {
            Ok::<Option<Seq<u8>>, ErrorView>(None)
        } else {
            start.at(j)
        })
    &&& forall|j: nat|
        listed(indices, j) && j < stop ==> (#[trigger] start.at(j)) is Ok && (strict ==> is_value(
            start.at(j),
        ))
    &&& cur.root.count == count_less(start.root.count, hits(start, indices, stop as nat))
    &&& {
        ||| e is BlockStore
        ||| start.at(0) == Err::<Option<Seq<u8>>, ErrorView>(e)
        ||| batch_failure(e, stop, start.at(stop as nat), strict)
    }
}

/// A batch that ends in an error at an index has deleted the listed indices
/// below it, and has met no error at them.
proof fn lemma_batch_stopped<BS: Blockstore, Ver: Version>(
    start: &AmtImpl<BS, Ver>,
    pre: &AmtImpl<BS, Ver>,
    cur: &AmtImpl<BS, Ver>,
    given: Seq<u64>,
    order: Seq<u64>,
    k: int,
    e: ErrorView,
    strict: bool,
)
    requires
        0 <= k < order.len(),
        in_order(given, order),
        k > 0 ==> order[k - 1] != order[k],
        batch_state(start, pre, order.subrange(0, k)),
        forall|j: nat| #[trigger] cur.at(j) == pre.at(j),
        all_read(start, order.subrange(0, k)),
        strict ==> all_hit(start, order.subrange(0, k)),
        cur.root.count == count_less(start.root.count, removed(start, order.subrange(0, k))),
        e is BlockStore || start.at(0) == Err::<Option<Seq<u8>>, ErrorView>(e) || batch_failure(
            e,
            order[k],
            start.at(order[k] as nat),
            strict,
        ),
    ensures
        exists|g: int|
            0 <= g < given.len() && batch_stopped(start, cur, given, #[trigger] given[g], e, strict),
{
    reveal(batch_state);
    reveal(in_order);
    let seen = order.subrange(0, k);
    let stop = order[k];
    assert(order.contains(stop));
    let g = choose|g: int| 0 <= g < given.len() && given[g] == stop;
    assert forall|j: nat| listed(seen, j) <==> (listed(given, j) && j < stop) by {
        if listed(seen, j) {
            let a = choose|a: int| 0 <= a < seen.len() && #[trigger] seen[a] == j;
            assert(order[a] <= order[k - 1]);
            assert(order[k - 1] <= order[k]);
            lemma_listed_given(given, order, k, j);
        }
        if listed(given, j) && j < stop {
            lemma_listed_order(given, order, j);
            let b = choose|b: int| 0 <= b < order.len() && #[trigger] order[b] == j;
            if b >= k {
                assert(order[k] <= order[b]);
            }
            assert(seen[b] == j);
        }
    }
    assert forall|j: nat| #[trigger]
        cur.at(j) == (if listed(given, j) && j < stop {
            Ok::<Option<Seq<u8>>, ErrorView>(None)
        } else {
            start.at(j)
        }) by {
        assert(cur.at(j) == pre.at(j));
        assert(listed(seen, j) <==> (listed(given, j) && j < stop));
    }
    assert forall|j: nat| listed(given, j) && j < stop implies (#[trigger] start.at(j)) is Ok && (
    strict ==> is_value(start.at(j))) by {
        assert(listed(seen, j) <==> (listed(given, j) && j < stop));
        let a = choose|a: int| 0 <= a < seen.len() && #[trigger] seen[a] == j;
        assert(start.at(seen[a] as nat) is Ok);
    }
    lemma_removed_hits(start, given, seen, stop as nat);
    assert(batch_stopped(start, cur, given, given[g], e, strict));
}

/// An index that repeats the one before it changes nothing.
proof fn lemma_batch_repeat<BS: Blockstore, Ver: Version>(
    start: &AmtImpl<BS, Ver>,
    cur: &AmtImpl<BS, Ver>,
    order: Seq<u64>,
    k: int,
)
    requires
        0 < k < order.len(),
        order[k - 1] == order[k],
        batch_state(start, cur, order.subrange(0, k)),
    ensures
        batch_state(start, cur, order.subrange(0, k + 1)),
        any_hit(start, order.subrange(0, k + 1)) == any_hit(start, order.subrange(0, k)),
        all_hit(start, order.subrange(0, k)) ==> all_hit(start, order.subrange(0, k + 1)),
        all_read(start, order.subrange(0, k)) ==> all_read(start, order.subrange(0, k + 1)),
{
    reveal(batch_state);
    reveal(in_order);
    let seen = order.subrange(0, k);
    let next = order.subrange(0, k + 1);
    lemma_listed_push(order, k);
    assert(seen[k - 1] == order[k]);
    assert(listed(seen, order[k] as nat));
    if any_hit(start, next) {
        let a = choose|a: int| 0 <= a < next.len() && is_value(start.at(#[trigger] next[a] as nat));
        if a < k {
            assert(seen[a] == next[a]);
        } else {
            assert(seen[k - 1] == next[a]);
        }
    }
    if any_hit(start, seen) {
        let a = choose|a: int| 0 <= a < seen.len() && is_value(start.at(#[trigger] seen[a] as nat));
        assert(next[a] == seen[a]);
    }
    if all_hit(start, seen) {
        assert forall|a: int| 0 <= a < next.len() implies is_value(
            start.at(#[trigger] next[a] as nat),
        ) by {
            if a < k {
                assert(seen[a] == next[a]);
            } else {
                assert(seen[k - 1] == next[a]);
            }
        }
    }
    if all_read(start, seen) {
        assert forall|a: int| 0 <= a < next.len() implies start.at(
            #[trigger] next[a] as nat,
        ) is Ok by {
            if a < k {
                assert(seen[a] == next[a]);
            } else {
                assert(seen[k - 1] == next[a]);
            }
        }
    }
}

/// An index that differs from the one before it has not been deleted yet.
proof fn lemma_batch_fresh<BS: Blockstore, Ver: Version>(
    start: &AmtImpl<BS, Ver>,
    cur: &AmtImpl<BS, Ver>,
    given: Seq<u64>,
    order: Seq<u64>,
    k: int,
)
    requires
        0 <= k < order.len(),
        in_order(given, order),
        k > 0 ==> order[k - 1] != order[k],
        batch_state(start, cur, order.subrange(0, k)),
    ensures
        cur.at(order[k] as nat) == start.at(order[k] as nat),
        cur.at(0) == start.at(0) || cur.at(0) == Ok::<Option<Seq<u8>>, ErrorView>(None),
        !listed(order.subrange(0, k), order[k] as nat),
{
    reveal(batch_state);
    reveal(in_order);
    lemma_sorted_fresh(order, k);
}

/// Where every index given is in range, so is every index of the sorted list.
proof fn lemma_batch_range(given: Seq<u64>, order: Seq<u64>, k: int)
    requires
        0 <= k < order.len(),
        in_order(given, order),
    ensures
        (forall|g: int| 0 <= g < given.len() ==> #[trigger] given[g] <= MAX_INDEX) ==> order[k]
            <= MAX_INDEX,
{
    reveal(in_order);
    assert(order.contains(order[k]));
    let g = choose|g: int| 0 <= g < given.len() && given[g] == order[k];
    assert(given[g] == order[k]);
}

/// One more index deleted.
proof fn lemma_batch_step<BS: Blockstore, Ver: Version>(
    start: &AmtImpl<BS, Ver>,
    pre: &AmtImpl<BS, Ver>,
    cur: &AmtImpl<BS, Ver>,
    order: Seq<u64>,
    k: int,
    found: bool,
)
    requires
        0 <= k < order.len(),
        batch_state(start, pre, order.subrange(0, k)),
        pre.at(order[k] as nat) == start.at(order[k] as nat),
        found == is_value(pre.at(order[k] as nat)),
        pre.at(order[k] as nat) is Ok,
        forall|j: nat| #[trigger]
            cur.at(j) == (if j == order[k] && found {
                Ok::<Option<Seq<u8>>, ErrorView>(None)
            } else {
                pre.at(j)
            }),
    ensures
        batch_state(start, cur, order.subrange(0, k + 1)),
        any_hit(start, order.subrange(0, k + 1)) == (any_hit(start, order.subrange(0, k)) || found),
        all_hit(start, order.subrange(0, k)) && found ==> all_hit(
            start,
            order.subrange(0, k + 1),
        ),
        all_read(start, order.subrange(0, k)) ==> all_read(start, order.subrange(0, k + 1)),
{
    reveal(batch_state);
    reveal(in_order);
    let seen = order.subrange(0, k);
    let next = order.subrange(0, k + 1);
    lemma_listed_push(order, k);
    assert forall|j: nat| #[trigger]
        cur.at(j) == (if listed(next, j) {
            Ok::<Option<Seq<u8>>, ErrorView>(None)
        } else {
            start.at(j)
        }) by {
        assert(pre.at(j) == (if listed(seen, j) {
            Ok::<Option<Seq<u8>>, ErrorView>(None)
        } else {
            start.at(j)
        }));
    }
    assert(next[k] == order[k]);
    if any_hit(start, next) {
        let a = choose|a: int| 0 <= a < next.len() && is_value(start.at(#[trigger] next[a] as nat));
        if a < k {
            assert(seen[a] == next[a]);
        }
    }
    if any_hit(start, seen) {
        let a = choose|a: int| 0 <= a < seen.len() && is_value(start.at(#[trigger] seen[a] as nat));
        assert(next[a] == seen[a]);
    }
    if all_hit(start, seen) && found {
        assert forall|a: int| 0 <= a < next.len() implies is_value(
            start.at(#[trigger] next[a] as nat),
        ) by {
            if a < k {
                assert(seen[a] == next[a]);
            }
        }
    }
    if all_read(start, seen) {
        assert forall|a: int| 0 <= a < next.len() implies start.at(
            #[trigger] next[a] as nat,
        ) is Ok by {
            if a < k {
                assert(seen[a] == next[a]);
            }
        }
    }
}

/// A batch that ends early has deleted nothing but what it was given.
proof fn lemma_batch_partial<BS: Blockstore, Ver: Version>(
    start: &AmtImpl<BS, Ver>,
    pre: &AmtImpl<BS, Ver>,
    cur: &AmtImpl<BS, Ver>,
    given: Seq<u64>,
    order: Seq<u64>,
    k: int,
)
    requires
        0 <= k <= order.len(),
        in_order(given, order),
        batch_state(start, pre, order.subrange(0, k)),
        forall|j: nat| #[trigger] cur.at(j) == pre.at(j),
    ensures
        forall|j: nat| #[trigger]
            cur.at(j) == start.at(j) || (listed(given, j) && cur.at(j) == Ok::<
                Option<Seq<u8>>,
                ErrorView,
            >(None)),
{
    reveal(batch_state);
    reveal(in_order);
    assert forall|j: nat| #[trigger]
        cur.at(j) == start.at(j) || (listed(given, j) && cur.at(j) == Ok::<
            Option<Seq<u8>>,
            ErrorView,
        >(None)) by {
        assert(cur.at(j) == pre.at(j));
        lemma_listed_given(given, order, k, j);
    }
}

/// The index a batch failed at is one it was given.
proof fn lemma_batch_blame<BS: Blockstore, Ver: Version>(
    start: &AmtImpl<BS, Ver>,
    given: Seq<u64>,
    order: Seq<u64>,
    k: int,
    e: ErrorView,
    strict: bool,
)
    requires
        0 <= k < order.len(),
        in_order(given, order),
        batch_failure(e, order[k], start.at(order[k] as nat), strict),
    ensures
        exists|g: int|
            0 <= g < given.len() && batch_failure(
                e,
                #[trigger] given[g],
                start.at(given[g] as nat),
                strict,
            ),
{
    reveal(in_order);
    assert(order.contains(order[k]));
    let g = choose|g: int| 0 <= g < given.len() && given[g] == order[k];
    assert(batch_failure(e, given[g], start.at(given[g] as nat), strict));
}

/// A batch that came to its end has deleted all it was given.
proof fn lemma_batch_done<BS: Blockstore, Ver: Version>(
    start: &AmtImpl<BS, Ver>,
    cur: &AmtImpl<BS, Ver>,
    given: Seq<u64>,
    order: Seq<u64>,
)
    requires
        in_order(given, order),
        batch_state(start, cur, order),
    ensures
        forall|j: nat| #[trigger]
            cur.at(j) == start.at(j) || (listed(given, j) && cur.at(j) == Ok::<
                Option<Seq<u8>>,
                ErrorView,
            >(None)),
        forall|j: nat|
            listed(given, j) ==> #[trigger] cur.at(j) == Ok::<Option<Seq<u8>>, ErrorView>(None),
        any_hit(start, order) == any_hit(start, given),
        all_hit(start, order) == all_hit(start, given),
        removed(start, order) == hits(start, given, MAX_INDEX as nat + 1),
{
    reveal(batch_state);
    reveal(in_order);
    assert(order.subrange(0, order.len() as int) =~= order);
    assert forall|j: nat| j <= MAX_INDEX implies (#[trigger] listed(order, j) <==> (listed(
        given,
        j,
    ) && j < MAX_INDEX as nat + 1)) by {
        lemma_listed_order(given, order, j);
        lemma_listed_given(given, order, order.len() as int, j);
    }
    lemma_removed_hits(start, given, order, MAX_INDEX as nat + 1);
    lemma_batch_partial(start, cur, cur, given, order, order.len() as int);
    assert forall|j: nat| listed(given, j) implies #[trigger] cur.at(j) == Ok::<
        Option<Seq<u8>>,
        ErrorView,
    >(None) by {
        lemma_listed_order(given, order, j);
    }
    let hit = |v: u64| is_value(start.at(v as nat));
    lemma_same_hits(given, order, hit);
    assert(any_hit(start, order) == (exists|a: int| 0 <= a < order.len() && hit(#[trigger] order[a])));
    assert(any_hit(start, given) == (exists|g: int| 0 <= g < given.len() && hit(#[trigger] given[g])));
    assert(all_hit(start, order) == (forall|a: int|
        0 <= a < order.len() ==> hit(#[trigger] order[a])));
    assert(all_hit(start, given) == (forall|g: int|
        0 <= g < given.len() ==> hit(#[trigger] given[g])));
}

/// Why deleting index `i`, with `found` at it, ends a batch in the error `e`:
/// the index is out of range, or the way to it ends in `e`, or nothing is at it
/// and the batch is strict.
pub open spec fn batch_failure(
    e: ErrorView,
    i: u64,
    found: Result<Option<Seq<u8>>, ErrorView>,
    strict: bool,
) -> bool {
    ||| e == ErrorView::OutOfRange(i) && i > MAX_INDEX
    ||| found == Err::<Option<Seq<u8>>, ErrorView>(e)
    ||| strict && e == ErrorView::NotFound(i) && found == Ok::<Option<Seq<u8>>, ErrorView>(None)
}

/// Two lists with the same indices, each as often, list the same indices.
proof fn lemma_same_indices(given: Seq<u64>, order: Seq<u64>)
    requires
        order.to_multiset() == given.to_multiset(),
    ensures
        forall|v: u64| order.contains(v) <==> given.contains(v),
{
    given.to_multiset_ensures();
    order.to_multiset_ensures();
    assert forall|v: u64| order.contains(v) <==> given.contains(v) by {
        assert(order.contains(v) <==> order.to_multiset().count(v) > 0);
        assert(given.contains(v) <==> given.to_multiset().count(v) > 0);
    }
}

/// A list holds an index where it lists it.
proof fn lemma_contains_listed(indices: Seq<u64>, v: u64)
    ensures
        indices.contains(v) <==> listed(indices, v as nat),
{
    if indices.contains(v) {
        let k = choose|k: int| 0 <= k < indices.len() && indices[k] == v;
        assert(indices[k] == v as nat);
    }
    if listed(indices, v as nat) {
        let k = choose|k: int| 0 <= k < indices.len() && #[trigger] indices[k] == v as nat;
        assert(indices[k] == v);
    }
}

/// One more index of a list is listed, and nothing else.
proof fn lemma_listed_push(order: Seq<u64>, k: int)
    requires
        0 <= k < order.len(),
    ensures
        forall|j: nat|
            #[trigger] listed(order.subrange(0, k + 1), j) <==> (listed(order.subrange(0, k), j)
                || j == order[k]),
{
    let seen = order.subrange(0, k);
    let next = order.subrange(0, k + 1);
    assert forall|j: nat| #[trigger] listed(next, j) <==> (listed(seen, j) || j == order[k]) by {
        if listed(seen, j) {
            let a = choose|a: int| 0 <= a < seen.len() && #[trigger] seen[a] == j;
            assert(next[a] == j);
        }
        if j == order[k] {
            assert(next[k] == j);
        }
        if listed(next, j) {
            let a = choose|a: int| 0 <= a < next.len() && #[trigger] next[a] == j;
            if a < k {
                assert(seen[a] == j);
            }
        }
    }
}

/// In an ascending list, an index that differs from the one before it was not
/// listed before.
proof fn lemma_sorted_fresh(order: Seq<u64>, k: int)
    requires
        0 <= k < order.len(),
        forall|a: int, b: int| 0 <= a <= b < order.len() ==> order[a] <= order[b],
        k > 0 ==> order[k - 1] != order[k],
    ensures
        !listed(order.subrange(0, k), order[k] as nat),
{
    let seen = order.subrange(0, k);
    if listed(seen, order[k] as nat) {
        let a = choose|a: int| 0 <= a < seen.len() && #[trigger] seen[a] == order[k] as nat;
        assert(order[a] <= order[k - 1]);
        assert(order[k - 1] <= order[k]);
    }
}

/// What the first `k` indices of the sorted list list, the given list lists.
proof fn lemma_listed_given(given: Seq<u64>, order: Seq<u64>, k: int, j: nat)
    requires
        0 <= k <= order.len(),
        forall|v: u64| order.contains(v) <==> given.contains(v),
    ensures
        listed(order.subrange(0, k), j) ==> listed(given, j),
{
    let seen = order.subrange(0, k);
    if listed(seen, j) {
        let a = choose|a: int| 0 <= a < seen.len() && #[trigger] seen[a] == j;
        assert(order.contains(order[a]));
        lemma_contains_listed(given, order[a]);
    }
}

/// What the given list lists, the sorted list lists.
proof fn lemma_listed_order(given: Seq<u64>, order: Seq<u64>, j: nat)
    requires
        forall|v: u64| order.contains(v) <==> given.contains(v),
    ensures
        listed(given, j) ==> listed(order, j),
{
    if listed(given, j) {
        let g = choose|g: int| 0 <= g < given.len() && #[trigger] given[g] == j;
        assert(given.contains(given[g]));
        lemma_contains_listed(order, given[g]);
    }
}

/// Two lists of the same indices hit the same.
proof fn lemma_same_hits(given: Seq<u64>, order: Seq<u64>, hit: spec_fn(u64) -> bool)
    requires
        forall|v: u64| order.contains(v) <==> given.contains(v),
    ensures
        (exists|a: int| 0 <= a < order.len() && hit(#[trigger] order[a])) <==> (exists|g: int|
            0 <= g < given.len() && hit(#[trigger] given[g])),
        (forall|a: int| 0 <= a < order.len() ==> hit(#[trigger] order[a])) <==> (forall|g: int|
            0 <= g < given.len() ==> hit(#[trigger] given[g])),
{
    if exists|a: int| 0 <= a < order.len() && hit(#[trigger] order[a]) {
        let a = choose|a: int| 0 <= a < order.len() && hit(#[trigger] order[a]);
        assert(order.contains(order[a]));
        let g = choose|g: int| 0 <= g < given.len() && given[g] == order[a];
        assert(hit(given[g]));
    }
    if exists|g: int| 0 <= g < given.len() && hit(#[trigger] given[g]) {
        let g = choose|g: int| 0 <= g < given.len() && hit(#[trigger] given[g]);
        assert(given.contains(given[g]));
        let a = choose|a: int| 0 <= a < order.len() && order[a] == given[g];
        assert(hit(order[a]));
    }
    if forall|a: int| 0 <= a < order.len() ==> hit(#[trigger] order[a]) {
        assert forall|g: int| 0 <= g < given.len() implies hit(#[trigger] given[g]) by {
            assert(given.contains(given[g]));
            let a = choose|a: int| 0 <= a < order.len() && order[a] == given[g];
            assert(hit(order[a]));
        }
    }
    if forall|g: int| 0 <= g < given.len() ==> hit(#[trigger] given[g]) {
        assert forall|a: int| 0 <= a < order.len() implies hit(#[trigger] order[a]) by {
            assert(order.contains(order[a]));
            let g = choose|g: int| 0 <= g < given.len() && given[g] == order[a];
            assert(hit(given[g]));
        }
    }
}

/// The node holds the values at the places from 0 on, and nothing else.
pub open spec fn holds_all(
    node: NodeView,
    blocks: Blocks,
    bit_width: nat,
    height: nat,
    vals: Seq<Vec<u8>>,
) -> bool {
    &&& forall|j: nat|
        j < vals.len() ==> j < capacity(bit_width, height) && #[trigger] lookup(
            node,
            blocks,
            bit_width,
            height,
            j,
        ) == Ok::<Option<Seq<u8>>, ErrorView>(Some(vals[j as int]@))
    &&& forall|j: nat|
        vals.len() <= j < capacity(bit_width, height) ==> #[trigger] lookup(
            node,
            blocks,
            bit_width,
            height,
            j,
        ) == Ok::<Option<Seq<u8>>, ErrorView>(None)
}

/// The node is the top node of the trie that holds the values at the indices
/// from 0 on and nothing else: all of it is in memory, no node of it is empty,
/// and it is no higher than the number of the values asks for.
pub open spec fn filled_with(
    node: NodeView,
    blocks: Blocks,
    bit_width: nat,
    height: nat,
    vals: Seq<Vec<u8>>,
) -> bool {
    &&& wf(node, bit_width, height)
    &&& persisted(node, blocks, bit_width, height)
    &&& resident(node, height)
    &&& tight(node, height)
    &&& holds_all(node, blocks, bit_width, height, vals)
    &&& height == 0 || capacity(bit_width, (height - 1) as nat) < vals.len()
}

/// The trie of this height and top node, filled with the values, was written
/// to the store `before`: that gave the store `after`, and `cid` names the
/// root.
pub open spec fn written(
    v3: bool,
    bit_width: u32,
    height: u32,
    node: NodeView,
    before: Blocks,
    vals: Seq<Vec<u8>>,
    cid: Seq<u8>,
    after: Blocks,
) -> bool {
    let clean = flushed(node, bit_width as nat, height as nat);
    &&& filled_with(node, before, bit_width as nat, height as nat, vals)
    &&& cid == root_cid(v3, bit_width, height, vals.len() as u64, clean)
    &&& after == flush_writes(node, before, bit_width as nat, height as nat).insert(
        cid,
        root_bytes(
            v3,
            bit_width,
            height,
            vals.len() as u64,
            collapse_spec(clean, bit_width as nat),
        ),
    )
}

/// What building a trie of `vals` in a store gives: the store has gone on, and
/// where all went well, the trie that holds these values at the indices from 0
/// on, and no others, in the one shape that they give it and with their number
/// for its count, was written to the store, and the identifier returned names
/// its root.
pub open spec fn built<BS: Blockstore>(
    v3: bool,
    bit_width: u32,
    before: BS,
    vals: Seq<Vec<u8>>,
    r: Result<Cid, Error>,
    after: BS,
) -> bool {
    &&& after.reliable() == before.reliable()
    &&& store_step(before.blocks(), after.blocks())
    &&& before.reliable() && vals.len() <= MAX_INDEX + 1 ==> r is Ok
    &&& r matches Err(e) ==> e@ is BlockStore || e@ is OutOfRange
    &&& r is Ok ==> vals.len() <= MAX_INDEX + 1
    &&& r matches Ok(cid) ==> cid.wf() && exists|height: u32, node: NodeView|
        #![trigger written(v3, bit_width, height, node, before.blocks(), vals, cid@, after.blocks())]
        written(v3, bit_width, height, node, before.blocks(), vals, cid@, after.blocks())
}

} // verus!
