//! Walking the values of a trie and changing them on the way.

use crate::amt::AmtImpl;
use crate::error::{Error, ErrorView};
use crate::index::MAX_INDEX;
use crate::node::is_value;
use crate::root::Version;
use crate::store::Blockstore;
use crate::node::edit::lemma_resident_in_memory;
use vstd::prelude::*;

verus! {

/// What `f` made of the value at index `i`: it was handed the value, and the
/// value it gave back, if it gave one back, stands in its place.
pub open spec fn applied<F: Fn(u64, &Vec<u8>) -> (Option<Vec<u8>>, bool)>(
    f: F,
    i: u64,
    before: Result<Option<Seq<u8>>, ErrorView>,
    after: Result<Option<Seq<u8>>, ErrorView>,
) -> bool {
    exists|v: Vec<u8>, ret: (Option<Vec<u8>>, bool)|
        #![trigger call_ensures(f, (i, &v), ret)]
        before == Ok::<Option<Seq<u8>>, ErrorView>(Some(v@)) && call_ensures(f, (i, &v), ret)
            && after == (match ret.0 {
            Some(new) => Ok::<Option<Seq<u8>>, ErrorView>(Some(new@)),
            None => before,
        })
}

/// What `f` made of every value before `bound`, and of none behind it: each
/// value before `bound` was handed to `f`, and nothing else has changed.
pub open spec fn applied_upto<BS: Blockstore, Ver: Version, F: Fn(u64, &Vec<u8>) -> (
    Option<Vec<u8>>,
    bool,
)>(f: F, before: &AmtImpl<BS, Ver>, after: &AmtImpl<BS, Ver>, bound: nat) -> bool {
    forall|j: nat|
        if j < bound && j <= MAX_INDEX && is_value(#[trigger] before.at(j)) {
            applied(f, j as u64, before.at(j), after.at(j))
        } else {
            after.at(j) == before.at(j)
        }
}

/// `f` said no to the value just before `bound`.
pub open spec fn refused<BS: Blockstore, Ver: Version, F: Fn(u64, &Vec<u8>) -> (
    Option<Vec<u8>>,
    bool,
)>(f: F, before: &AmtImpl<BS, Ver>, bound: nat) -> bool {
    bound > 0 && exists|v: Vec<u8>, ret: (Option<Vec<u8>>, bool)|
        #![trigger call_ensures(f, ((bound - 1) as u64, &v), ret)]
        before.at((bound - 1) as nat) == Ok::<Option<Seq<u8>>, ErrorView>(Some(v@))
            && call_ensures(f, ((bound - 1) as u64, &v), ret) && !ret.1
}

/// `f` was handed the value at index `i` and gave a value back, if `gave`
/// says so, or none.
pub open spec fn answered<F: Fn(u64, &Vec<u8>) -> (Option<Vec<u8>>, bool)>(
    f: F,
    i: u64,
    before: Result<Option<Seq<u8>>, ErrorView>,
    gave: bool,
) -> bool {
    exists|v: Vec<u8>, ret: (Option<Vec<u8>>, bool)|
        #![trigger call_ensures(f, (i, &v), ret)]
        before == Ok::<Option<Seq<u8>>, ErrorView>(Some(v@)) && call_ensures(f, (i, &v), ret)
            && (ret.0 is Some) == gave
}

/// Whether the trie remembers its identifier after `f` was handed the values
/// before `bound`: it remembers it if it did before and `f` gave no value
/// back, and has forgotten it once `f` gave one back.
pub open spec fn remembered<BS: Blockstore, Ver: Version, F: Fn(u64, &Vec<u8>) -> (
    Option<Vec<u8>>,
    bool,
)>(f: F, before: &AmtImpl<BS, Ver>, after: &AmtImpl<BS, Ver>, bound: nat) -> bool {
    &&& after.flushed_cid is Some ==> after.flushed_cid == before.flushed_cid && forall|j: u64|
        j < bound && is_value(#[trigger] before.at(j as nat)) ==> answered(
            f,
            j,
            before.at(j as nat),
            false,
        )
    &&& after.flushed_cid is None ==> before.flushed_cid is None || exists|j: u64|
        j < bound && #[trigger] answered(f, j, before.at(j as nat), true)
}

impl<BS: Blockstore, Ver: Version> AmtImpl<BS, Ver> {
    /// Hands the values to `f`, in the order of their indices, until `f` says
    /// no or none is left, puts what `f` gives back in their place, and returns
    /// the index behind the last value handed over.
    fn update_while<F: Fn(u64, &Vec<u8>) -> (Option<Vec<u8>>, bool)>(&mut self, f: &F) -> (r:
        Result<u64, Error>)
        requires
            old(self).wf(),
            forall|i: u64, v: &Vec<u8>| call_requires(*f, (i, v)),
        ensures
            final(self).wf(),
            final(self).block_store == old(self).block_store,
            final(self).root.bit_width == old(self).root.bit_width,
            old(self).resident() ==> final(self).resident(),
            old(self).count_exact() ==> final(self).count_exact(),
            old(self).canonical() ==> final(self).canonical(),
            old(self).dense() ==> final(self).dense(),
            old(self).minimal() ==> final(self).minimal(),
            final(self).root.count == old(self).root.count,
            final(self).root.height == old(self).root.height,
            old(self).block_store.reliable() ==> !(r matches Err(Error::BlockStore(_))),
            old(self).resident() ==> r is Ok,
            r matches Err(e) ==> e@ is BlockStore || exists|j: nat|
                j <= MAX_INDEX && #[trigger] old(self).at(j) == Err::<Option<Seq<u8>>, ErrorView>(
                    e@,
                ),
            r matches Ok(bound) ==> bound <= MAX_INDEX + 1 && applied_upto(
                *f,
                old(self),
                final(self),
                bound as nat,
            ) && (bound <= MAX_INDEX ==> refused(*f, old(self), bound as nat)) && remembered(
                *f,
                old(self),
                final(self),
                bound as nat,
            ),
            r is Err ==> exists|bound: nat| applied_upto(*f, old(self), final(self), bound),
            final(self).flushed_cid is None || (final(self).root@ == old(self).root@
                && final(self).flushed_cid == old(self).flushed_cid),
    {
        let mut cursor: u64 = 0;
        let mut stopped = false;
        let ghost start = *self;
        while !stopped && cursor <= MAX_INDEX
            invariant
                self.wf(),
                start == *old(self),
                cursor <= MAX_INDEX + 1,
                forall|i: u64, v: &Vec<u8>| call_requires(*f, (i, v)),
                self.block_store == start.block_store,
                self.root.bit_width == start.root.bit_width,
                start.resident() ==> self.resident(),
                start.count_exact() ==> self.count_exact(),
                start.canonical() ==> self.canonical(),
                start.dense() ==> self.dense(),
                start.minimal() ==> self.minimal(),
                self.root.count == start.root.count,
                self.root.height == start.root.height,
                applied_upto(*f, &start, self, cursor as nat),
                remembered(*f, &start, self, cursor as nat),
                stopped ==> refused(*f, &start, cursor as nat),
                self.flushed_cid is None || (self.root@ == start.root@ && self.flushed_cid
                    == start.flushed_cid),
            decreases MAX_INDEX + 1 - cursor, if stopped { 0int } else { 1int },
        {
            let ghost pre = *self;
            proof {
                assert forall|j: nat| j >= cursor implies #[trigger] pre.at(j) == start.at(j) by {
                    assert(!is_value(start.at(j)) ==> pre.at(j) == start.at(j));
                }
            }
            let found = match self.next_index(cursor) {
                Ok(found) => found,
                Err(e) => {
                    proof {
                        if !(e@ is BlockStore) {
                            let j = choose|j: nat|
                                cursor <= j <= MAX_INDEX && #[trigger] self.at(j) == Err::<
                                    Option<Seq<u8>>,
                                    ErrorView,
                                >(e@);
                            assert(start.at(j) == self.at(j));
                        }
                    }
                    return Err(e);
                },
            };
            match found {
                None => {
                    proof {
                        assert forall|j: nat|
                            if j < MAX_INDEX as nat + 1 && j <= MAX_INDEX && is_value(
                                #[trigger] start.at(j),
                            ) {
                                applied(*f, j as u64, start.at(j), self.at(j))
                            } else {
                                self.at(j) == start.at(j)
                            } by {
                            if j >= cursor {
                                assert(pre.at(j) == start.at(j));
                            }
                        }
                        assert forall|j: u64|
                            j < MAX_INDEX as nat + 1 && is_value(
                                #[trigger] start.at(j as nat),
                            ) implies j < cursor by {
                            if j >= cursor {
                                assert(pre.at(j as nat) == start.at(j as nat));
                            }
                        }
                    }
                    cursor = MAX_INDEX + 1;
                },
                Some(n) => {
                    proof {
                        if self.resident() {
                            lemma_resident_in_memory(
                                self.root.node@,
                                self.root.bit_width as nat,
                                self.root.height as nat,
                                n as nat,
                            );
                        }
                    }
                    let value = match self.get(n) {
                        Ok(Some(value)) => value,
                        Ok(None) => {
                            // a value was found at `n` a moment ago
                            proof {
                                assert(false);
                            }
                            return Err(Error::NotFound(n));
                        },
                        Err(e) => { return Err(e); },
                    };
                    let ret = f(n, &value);
                    let go = ret.1;
                    match ret.0 {
                        Some(new) => {
                            match self.set(n, new) {
                                Ok(()) => {},
                                Err(e) => {
                                    proof {
                                        assert forall|j: nat|
                                            if j < cursor && j <= MAX_INDEX && is_value(
                                                #[trigger] start.at(j),
                                            ) {
                                                applied(*f, j as u64, start.at(j), self.at(j))
                                            } else {
                                                self.at(j) == start.at(j)
                                            } by {
                                            assert(self.at(j) == pre.at(j));
                                        }
                                        assert(applied_upto(*f, &start, self, cursor as nat));
                                    }
                                    return Err(e);
                                },
                            }
                        },
                        None => {},
                    }
                    proof {
                        assert(pre.at(n as nat) == start.at(n as nat));
                        assert(applied(*f, n, start.at(n as nat), self.at(n as nat))) by {
                            assert(call_ensures(*f, (n, &value), ret));
                        }
                        assert forall|j: nat|
                            if j < n as nat + 1 && j <= MAX_INDEX && is_value(
                                #[trigger] start.at(j),
                            ) {
                                applied(*f, j as u64, start.at(j), self.at(j))
                            } else {
                                self.at(j) == start.at(j)
                            } by {
                            if j != n {
                                assert(self.at(j) == pre.at(j));
                                if j >= cursor {
                                    assert(pre.at(j) == start.at(j));
                                }
                            }
                        }
                        if !go {
                            assert(call_ensures(*f, (((n + 1) - 1) as u64, &value), ret));
                        }
                        assert(answered(*f, n, start.at(n as nat), ret.0 is Some));
                        assert forall|j: u64|
                            j < n as nat + 1 && is_value(
                                #[trigger] start.at(j as nat),
                            ) implies j < cursor || j == n by {
                            if j >= cursor && j < n {
                                assert(pre.at(j as nat) == start.at(j as nat));
                            }
                        }
                    }
                    cursor = n + 1;
                    stopped = !go;
                },
            }
        }
        Ok(cursor)
    }

    /// Hands the values to `f`, in the order of their indices, until `f` says
    /// no, with the second of what it returns, or none is left. Where `f`
    /// returns a value, that value takes the place of the one handed over, and
    /// the trie forgets the identifier it was written under.
    pub fn for_each_while_mut<F: Fn(u64, &Vec<u8>) -> (Option<Vec<u8>>, bool)>(
        &mut self,
        f: F,
    ) -> (r: Result<(), Error>)
        requires
            old(self).wf(),
            forall|i: u64, v: &Vec<u8>| call_requires(f, (i, v)),
        ensures
            final(self).wf(),
            final(self).block_store == old(self).block_store,
            final(self).root.bit_width == old(self).root.bit_width,
            old(self).resident() ==> final(self).resident(),
            old(self).count_exact() ==> final(self).count_exact(),
            old(self).canonical() ==> final(self).canonical(),
            old(self).dense() ==> final(self).dense(),
            old(self).minimal() ==> final(self).minimal(),
            final(self).root.count == old(self).root.count,
            final(self).root.height == old(self).root.height,
            old(self).block_store.reliable() ==> !(r matches Err(Error::BlockStore(_))),
            old(self).resident() ==> r is Ok,
            r matches Err(e) ==> e@ is BlockStore || exists|j: nat|
                j <= MAX_INDEX && #[trigger] old(self).at(j) == Err::<Option<Seq<u8>>, ErrorView>(
                    e@,
                ),
            r is Ok ==> exists|bound: nat|
                #![trigger applied_upto(f, old(self), final(self), bound)]
                applied_upto(f, old(self), final(self), bound) && (bound == MAX_INDEX + 1 || refused(
                    f,
                    old(self),
                    bound,
                )) && remembered(f, old(self), final(self), bound),
            r is Err ==> exists|bound: nat| applied_upto(f, old(self), final(self), bound),
            final(self).flushed_cid is None || (final(self).root@ == old(self).root@
                && final(self).flushed_cid == old(self).flushed_cid),
    {
        match self.update_while(&f) {
            Ok(bound) => {
                proof {
                    let reached = bound as nat;
                    assert(applied_upto(f, old(self), self, reached) && (reached == MAX_INDEX + 1
                        || refused(f, old(self), reached)) && remembered(
                        f,
                        old(self),
                        self,
                        reached,
                    ));
                    assert(exists|b: nat|
                        #![trigger applied_upto(f, old(self), self, b)]
                        applied_upto(f, old(self), self, b) && (b == MAX_INDEX + 1 || refused(
                            f,
                            old(self),
                            b,
                        )) && remembered(f, old(self), self, b));
                }
                Ok(())
            },
            Err(e) => Err(e),
        }
    }

    /// Hands every value to `f`, in the order of the indices. Where `f`
    /// returns a value, that value takes the place of the one handed over, and
    /// the trie forgets the identifier it was written under.
    pub fn for_each_mut<F: Fn(u64, &Vec<u8>) -> Option<Vec<u8>>>(&mut self, f: F) -> (r: Result<
        (),
        Error,
    >)
        requires
            old(self).wf(),
            forall|i: u64, v: &Vec<u8>| call_requires(f, (i, v)),
        ensures
            final(self).wf(),
            final(self).block_store == old(self).block_store,
            final(self).root.bit_width == old(self).root.bit_width,
            old(self).resident() ==> final(self).resident(),
            old(self).count_exact() ==> final(self).count_exact(),
            old(self).canonical() ==> final(self).canonical(),
            old(self).dense() ==> final(self).dense(),
            old(self).minimal() ==> final(self).minimal(),
            final(self).root.count == old(self).root.count,
            final(self).root.height == old(self).root.height,
            old(self).block_store.reliable() ==> !(r matches Err(Error::BlockStore(_))),
            old(self).resident() ==> r is Ok,
            r matches Err(e) ==> e@ is BlockStore || exists|j: nat|
                j <= MAX_INDEX && #[trigger] old(self).at(j) == Err::<Option<Seq<u8>>, ErrorView>(
                    e@,
                ),
            r is Ok ==> forall|j: nat|
                if j <= MAX_INDEX && is_value(#[trigger] old(self).at(j)) {
                    replaced(f, j as u64, old(self).at(j), final(self).at(j))
                } else {
                    final(self).at(j) == old(self).at(j)
                },
            r is Ok && final(self).flushed_cid is Some ==> forall|j: u64|
                j <= MAX_INDEX && is_value(#[trigger] old(self).at(j as nat)) ==> returned(
                    f,
                    j,
                    old(self).at(j as nat),
                    false,
                ),
            r is Ok && final(self).flushed_cid is None ==> old(self).flushed_cid is None || exists|
                j: u64,
            |
                j <= MAX_INDEX && #[trigger] returned(f, j, old(self).at(j as nat), true),
            final(self).flushed_cid is None || (final(self).root@ == old(self).root@
                && final(self).flushed_cid == old(self).flushed_cid),
    {
        let inner = &f;
        let each = |i: u64, v: &Vec<u8>| -> (ret: (Option<Vec<u8>>, bool))
            requires
                call_requires(inner, (i, v)),
            ensures
                call_ensures(inner, (i, v), ret.0),
                ret.1,
            { (inner(i, v), true) };
        match self.update_while(&each) {
            Ok(bound) => {
                proof {
                    assert(bound == MAX_INDEX + 1);
                    assert forall|j: u64, gave: bool|
                        answered(each, j, old(self).at(j as nat), gave) implies returned(
                        f,
                        j,
                        old(self).at(j as nat),
                        gave,
                    ) by {
                        let (v, ret) = choose|v: Vec<u8>, ret: (Option<Vec<u8>>, bool)|
                            #![trigger call_ensures(each, (j, &v), ret)]
                            old(self).at(j as nat) == Ok::<Option<Seq<u8>>, ErrorView>(Some(v@))
                                && call_ensures(each, (j, &v), ret) && (ret.0 is Some) == gave;
                        assert(call_ensures(f, (j, &v), ret.0));
                    }
                    if self.flushed_cid is None && old(self).flushed_cid is Some {
                        let j = choose|j: u64|
                            j < bound as nat && #[trigger] answered(
                                each,
                                j,
                                old(self).at(j as nat),
                                true,
                            );
                        assert(returned(f, j, old(self).at(j as nat), true));
                    }
                    assert forall|j: nat|
                        if j <= MAX_INDEX && is_value(#[trigger] old(self).at(j)) {
                            replaced(f, j as u64, old(self).at(j), self.at(j))
                        } else {
                            self.at(j) == old(self).at(j)
                        } by {
                        if j <= MAX_INDEX && is_value(old(self).at(j)) {
                            let (v, ret) = choose|v: Vec<u8>, ret: (Option<Vec<u8>>, bool)|
                                #![trigger call_ensures(each, (j as u64, &v), ret)]
                                old(self).at(j) == Ok::<Option<Seq<u8>>, ErrorView>(Some(v@))
                                    && call_ensures(each, (j as u64, &v), ret) && self.at(j) == (
                                match ret.0 {
                                    Some(new) => Ok::<Option<Seq<u8>>, ErrorView>(Some(new@)),
                                    None => old(self).at(j),
                                });
                            assert(call_ensures(f, (j as u64, &v), ret.0));
                        }
                    }
                }
                Ok(())
            },
            Err(e) => Err(e),
        }
    }
}

/// `f` was handed the value at index `i` and returned a value, if `gave` says
/// so, or none.
pub open spec fn returned<F: Fn(u64, &Vec<u8>) -> Option<Vec<u8>>>(
    f: F,
    i: u64,
    before: Result<Option<Seq<u8>>, ErrorView>,
    gave: bool,
) -> bool {
    exists|v: Vec<u8>, ret: Option<Vec<u8>>|
        #![trigger call_ensures(f, (i, &v), ret)]
        before == Ok::<Option<Seq<u8>>, ErrorView>(Some(v@)) && call_ensures(f, (i, &v), ret)
            && (ret is Some) == gave
}

/// What `f` made of the value at index `i`: it was handed the value, and the
/// value it gave back, if it gave one back, stands in its place.
pub open spec fn replaced<F: Fn(u64, &Vec<u8>) -> Option<Vec<u8>>>(
    f: F,
    i: u64,
    before: Result<Option<Seq<u8>>, ErrorView>,
    after: Result<Option<Seq<u8>>, ErrorView>,
) -> bool {
    exists|v: Vec<u8>, ret: Option<Vec<u8>>|
        #![trigger call_ensures(f, (i, &v), ret)]
        before == Ok::<Option<Seq<u8>>, ErrorView>(Some(v@)) && call_ensures(f, (i, &v), ret)
            && after == (match ret {
            Some(new) => Ok::<Option<Seq<u8>>, ErrorView>(Some(new@)),
            None => before,
        })
}

} // verus!
