//! Walking the values of a trie in the order of their indices.

use crate::amt::AmtImpl;
use crate::error::{Error, ErrorView};
use crate::index::{capacity, MAX_INDEX};
use crate::node::is_value;
use crate::root::Version;
use crate::store::Blockstore;
use crate::walk::{ascending, has_entry, lemma_entry_stays, Walk};
use crate::node::edit::lemma_resident_in_memory;
use vstd::prelude::*;

verus! {

impl<BS: Blockstore, Ver: Version> AmtImpl<BS, Ver> {
    /// The entries are the values of the trie from index `start` on, in the
    /// order of their indices and without a gap, up to `bound`.
    pub open spec fn lists(&self, entries: Seq<(u64, Vec<u8>)>, start: nat, bound: nat) -> bool {
        &&& forall|k: int|
            0 <= k < entries.len() ==> start <= (#[trigger] entries[k]).0 <= MAX_INDEX && self.at(
                entries[k].0 as nat,
            ) == Ok::<Option<Seq<u8>>, ErrorView>(Some(entries[k].1@))
        &&& ascending(entries, 0, bound)
        &&& forall|j: nat|
            start <= j < bound && j <= MAX_INDEX ==> (#[trigger] self.at(j)) is Ok && (is_value(
                self.at(j),
            ) ==> has_entry(entries, 0, j as int))
    }

    /// The walk of the whole trie from `start` on.
    pub open spec fn walk(&self, start: nat) -> Walk {
        Walk {
            node: self.root.node@,
            blocks: self.block_store.blocks(),
            bit_width: self.root.bit_width as nat,
            height: self.root.height as nat,
            base: 0,
            start,
        }
    }

    /// What a walk of the whole trie lists, the trie lists.
    pub proof fn lemma_walk_lists(&self, entries: Seq<(u64, Vec<u8>)>, start: nat, bound: nat)
        requires
            bound <= MAX_INDEX + 1,
            forall|k: int| 0 <= k < entries.len() ==> self.walk(start).holds(#[trigger] entries[k]),
            ascending(entries, 0, bound),
            self.walk(start).covered(entries, 0, bound),
        ensures
            self.lists(entries, start, bound),
    {
        let walk = self.walk(start);
        assert forall|j: nat| start <= j < bound && j <= MAX_INDEX implies (#[trigger] self.at(j))
            is Ok && (is_value(self.at(j)) ==> has_entry(entries, 0, j as int)) by {
            if j < capacity(walk.bit_width, walk.height) {
                assert(walk.reaches(j, bound));
                assert(walk.found(j) == self.at(j));
            }
        }
        assert forall|k: int| 0 <= k < entries.len() implies start <= (#[trigger] entries[k]).0
            <= MAX_INDEX && self.at(entries[k].0 as nat) == Ok::<Option<Seq<u8>>, ErrorView>(
            Some(entries[k].1@),
        ) by {
            assert(walk.holds(entries[k]));
        }
    }

    /// The values from index `start_at` on, or from the first, in the order of
    /// their indices, and no more than `limit` of them. With them comes the
    /// index of the value that would come next, if the limit left one.
    pub fn for_each_ranged(&self, start_at: Option<u64>, limit: Option<u64>) -> (r: Result<
        (Vec<(u64, Vec<u8>)>, Option<u64>),
        Error,
    >)
        requires
            self.wf(),
        ensures
            self.block_store.reliable() ==> !(r matches Err(Error::BlockStore(_))),
            self.resident() ==> r is Ok,
            r matches Err(e) ==> e@ is BlockStore || exists|j: nat|
                spec_start(start_at) <= j <= MAX_INDEX && #[trigger] self.at(j) == Err::<
                    Option<Seq<u8>>,
                    ErrorView,
                >(e@),
            r matches Ok(page) ==> {
                &&& page.0@.len() <= spec_limit(limit)
                &&& self.lists(
                    page.0@,
                    spec_start(start_at),
                    match page.1 {
                        Some(n) => n as nat,
                        None => MAX_INDEX as nat + 1,
                    },
                )
                &&& page.1 matches Some(n) ==> page.0@.len() == spec_limit(limit) && spec_start(
                    start_at,
                ) <= n <= MAX_INDEX && is_value(self.at(n as nat))
            },
    {
        let start = match start_at {
            Some(s) => s,
            None => 0,
        };
        let limit = match limit {
            Some(l) => l,
            None => u64::MAX,
        };
        let mut out: Vec<(u64, Vec<u8>)> = Vec::new();
        if start > MAX_INDEX {
            return Ok((out, None));
        }
        let ghost walk = self.walk(start as nat);
        match self.root.node.collect(
            &self.block_store,
            self.root.height,
            self.root.bit_width,
            0,
            start,
            limit,
            &mut out,
        ) {
            Err(e) => {
                proof {
                    if !(e@ is BlockStore) {
                        let j = choose|j: nat|
                            walk.reaches(j, MAX_INDEX as nat + 1) && #[trigger] walk.found(j)
                                == Err::<Option<Seq<u8>>, ErrorView>(e@);
                        assert(self.at(j) == walk.found(j));
                    }
                }
                Err(e)
            },
            Ok(next) => {
                proof {
                    let bound = match next {
                        Some(n) => n as nat,
                        None => MAX_INDEX as nat + 1,
                    };
                    self.lemma_walk_lists(out@, start as nat, bound);
                    if let Some(n) = next {
                        assert(walk.found(n as nat) == self.at(n as nat));
                    }
                }
                Ok((out, next))
            },
        }
    }

    /// All values, in the order of their indices.
    pub fn for_each(&self) -> (r: Result<Vec<(u64, Vec<u8>)>, Error>)
        requires
            self.wf(),
        ensures
            self.block_store.reliable() ==> !(r matches Err(Error::BlockStore(_))),
            self.resident() ==> r is Ok,
            r matches Err(e) ==> e@ is BlockStore || exists|j: nat|
                j <= MAX_INDEX && #[trigger] self.at(j) == Err::<Option<Seq<u8>>, ErrorView>(e@),
            r matches Ok(entries) ==> self.lists(entries@, 0, MAX_INDEX as nat + 1),
    {
        match self.for_each_ranged(None, None) {
            Ok((entries, next)) => {
                proof {
                    if next is Some {
                        lemma_all_listed(entries@);
                    }
                }
                Ok(entries)
            },
            Err(e) => Err(e),
        }
    }

    /// The index of the first value at `start` or behind it.
    pub fn next_index(&self, start: u64) -> (r: Result<Option<u64>, Error>)
        requires
            self.wf(),
        ensures
            self.block_store.reliable() ==> !(r matches Err(Error::BlockStore(_))),
            self.resident() ==> r is Ok,
            r matches Err(e) ==> e@ is BlockStore || exists|j: nat|
                start <= j <= MAX_INDEX && #[trigger] self.at(j) == Err::<
                    Option<Seq<u8>>,
                    ErrorView,
                >(e@),
            r matches Ok(Some(n)) ==> start <= n <= MAX_INDEX && is_value(self.at(n as nat))
                && forall|j: nat|
                start <= j < n ==> #[trigger] self.at(j) == Ok::<Option<Seq<u8>>, ErrorView>(None),
            r matches Ok(None) ==> forall|j: nat|
                start <= j <= MAX_INDEX ==> #[trigger] self.at(j) == Ok::<
                    Option<Seq<u8>>,
                    ErrorView,
                >(None),
    {
        match self.for_each_ranged(Some(start), Some(0)) {
            Ok((entries, next)) => {
                proof {
                    let bound = match next {
                        Some(n) => n as nat,
                        None => MAX_INDEX as nat + 1,
                    };
                    assert forall|j: nat| start <= j < bound && j <= MAX_INDEX implies #[trigger] self.at(
                        j,
                    ) == Ok::<Option<Seq<u8>>, ErrorView>(None) by {
                        if is_value(self.at(j)) {
                            assert(has_entry(entries@, 0, j as int));
                        }
                    }
                }
                Ok(next)
            },
            Err(e) => Err(e),
        }
    }

    /// Hands the values from `start` on to `f`, in the order of their indices,
    /// until `f` says no, or `limit` values were handed over, or none is left.
    /// Returns the values handed over, the index behind the last of them, and
    /// whether `f` said no.
    fn visit_while<F: Fn(u64, &Vec<u8>) -> bool>(&self, start: u64, limit: u64, f: &F) -> (r:
        Result<(Vec<(u64, Vec<u8>)>, u64, bool), Error>)
        requires
            self.wf(),
            start <= MAX_INDEX,
            forall|i: u64, v: &Vec<u8>| call_requires(*f, (i, v)),
        ensures
            self.block_store.reliable() ==> !(r matches Err(Error::BlockStore(_))),
            self.resident() ==> r is Ok,
            r matches Err(e) ==> e@ is BlockStore || exists|j: nat|
                start <= j <= MAX_INDEX && #[trigger] self.at(j) == Err::<
                    Option<Seq<u8>>,
                    ErrorView,
                >(e@),
            r matches Ok(seen) ==> {
                &&& seen.0@.len() <= limit
                &&& start <= seen.1 <= MAX_INDEX + 1
                &&& self.lists(seen.0@, start as nat, seen.1 as nat)
                &&& went_on(*f, seen.0@)
                &&& seen.2 ==> stopped_at_last(*f, seen.0@)
                &&& !seen.2 && seen.0@.len() < limit ==> seen.1 == MAX_INDEX + 1
            },
    {
        let mut visited: Vec<(u64, Vec<u8>)> = Vec::new();
        let mut cursor: u64 = start;
        let mut stopped = false;
        while (visited.len() as u64) < limit && !stopped && cursor <= MAX_INDEX
            invariant
                self.wf(),
                visited@.len() <= limit,
                start <= cursor <= MAX_INDEX + 1,
                forall|i: u64, v: &Vec<u8>| call_requires(*f, (i, v)),
                self.lists(visited@, start as nat, cursor as nat),
                went_on(*f, visited@),
                stopped ==> stopped_at_last(*f, visited@),
                !stopped ==> forall|k: int|
                    0 <= k < visited@.len() ==> call_ensures(
                        *f,
                        ((#[trigger] visited@[k]).0, &visited@[k].1),
                        true,
                    ),
            decreases MAX_INDEX + 1 - cursor, if stopped { 0int } else { 1int },
        {
            let found = match self.next_index(cursor) {
                Ok(found) => found,
                Err(e) => { return Err(e); },
            };
            match found {
                None => {
                    proof {
                        lemma_lists_extend(
                            self,
                            visited@,
                            start as nat,
                            cursor as nat,
                            MAX_INDEX as nat + 1,
                        );
                    }
                    cursor = MAX_INDEX + 1;
                },
                Some(n) => {
                    proof {
                        if self.resident() {
                            lemma_resident_in_memory(
                                self.root.node@,
                                self.root.bit_width as nat,
                                self.root.height as nat,
                                n as nat,
                            );
                        }
                    }
                    let value = match self.get(n) {
                        Ok(Some(value)) => value,
                        Ok(None) => {
                            // a value was found at `n` a moment ago
                            proof {
                                assert(false);
                            }
                            return Err(Error::NotFound(n));
                        },
                        Err(e) => { return Err(e); },
                    };
                    let go = f(n, &value);
                    proof {
                        lemma_lists_push(self, visited@, (n, value), start as nat, cursor as nat);
                    }
                    let ghost prev = visited@;
                    visited.push((n, value));
                    proof {
                        assert forall|k: int| 0 <= k < visited@.len() - 1 implies call_ensures(
                            *f,
                            ((#[trigger] visited@[k]).0, &visited@[k].1),
                            true,
                        ) by {
                            assert(visited@[k] == prev[k]);
                        }
                        if go {
                            assert forall|k: int| 0 <= k < visited@.len() implies call_ensures(
                                *f,
                                ((#[trigger] visited@[k]).0, &visited@[k].1),
                                true,
                            ) by {
                                if k < prev.len() {
                                    assert(visited@[k] == prev[k]);
                                }
                            }
                        }
                    }
                    cursor = n + 1;
                    stopped = !go;
                },
            }
        }
        Ok((visited, cursor, stopped))
    }

    /// Hands the values from `start_at` on, or from the first, to `f`, in the
    /// order of their indices, until `f` says no, or `limit` values were
    /// handed over, or none is left. Returns the values handed over and the
    /// index of the value that would come next, if there is one.
    pub fn for_each_while_ranged<F: Fn(u64, &Vec<u8>) -> bool>(
        &self,
        start_at: Option<u64>,
        limit: Option<u64>,
        f: F,
    ) -> (r: Result<(Vec<(u64, Vec<u8>)>, Option<u64>), Error>)
        requires
            self.wf(),
            forall|i: u64, v: &Vec<u8>| call_requires(f, (i, v)),
        ensures
            self.block_store.reliable() ==> !(r matches Err(Error::BlockStore(_))),
            self.resident() ==> r is Ok,
            r matches Err(e) ==> e@ is BlockStore || exists|j: nat|
                spec_start(start_at) <= j <= MAX_INDEX && #[trigger] self.at(j) == Err::<
                    Option<Seq<u8>>,
                    ErrorView,
                >(e@),
            r matches Ok(page) ==> {
                &&& page.0@.len() <= spec_limit(limit)
                &&& self.lists(
                    page.0@,
                    spec_start(start_at),
                    match page.1 {
                        Some(n) => n as nat,
                        None => MAX_INDEX as nat + 1,
                    },
                )
                &&& went_on(f, page.0@)
                &&& page.1 matches Some(n) ==> spec_start(start_at) <= n <= MAX_INDEX && is_value(
                    self.at(n as nat),
                ) && (page.0@.len() == spec_limit(limit) || stopped_at_last(f, page.0@))
            },
    {
        let start = match start_at {
            Some(s) => s,
            None => 0,
        };
        let limit = match limit {
            Some(l) => l,
            None => u64::MAX,
        };
        if start > MAX_INDEX {
            return Ok((Vec::new(), None));
        }
        let (visited, cursor, stopped) = match self.visit_while(start, limit, &f) {
            Ok(seen) => seen,
            Err(e) => { return Err(e); },
        };
        if cursor > MAX_INDEX {
            return Ok((visited, None));
        }
        match self.next_index(cursor) {
            Ok(next) => {
                proof {
                    let bound = match next {
                        Some(n) => n as nat,
                        None => MAX_INDEX as nat + 1,
                    };
                    lemma_lists_extend(self, visited@, start as nat, cursor as nat, bound);
                }
                Ok((visited, next))
            },
            Err(e) => Err(e),
        }
    }

    /// Hands the values to `f`, in the order of their indices, until `f` says
    /// no or none is left, and returns the values handed over.
    pub fn for_each_while<F: Fn(u64, &Vec<u8>) -> bool>(&self, f: F) -> (r: Result<
        Vec<(u64, Vec<u8>)>,
        Error,
    >)
        requires
            self.wf(),
            forall|i: u64, v: &Vec<u8>| call_requires(f, (i, v)),
        ensures
            self.block_store.reliable() ==> !(r matches Err(Error::BlockStore(_))),
            self.resident() ==> r is Ok,
            r matches Err(e) ==> e@ is BlockStore || exists|j: nat|
                j <= MAX_INDEX && #[trigger] self.at(j) == Err::<Option<Seq<u8>>, ErrorView>(e@),
            r matches Ok(visited) ==> {
                &&& went_on(f, visited@)
                &&& self.lists(visited@, 0, MAX_INDEX as nat + 1) || (stopped_at_last(f, visited@)
                    && self.lists(visited@, 0, visited@.last().0 as nat + 1))
            },
    {
        match self.visit_while(0, u64::MAX, &f) {
            Ok((visited, cursor, stopped)) => {
                proof {
                    lemma_all_listed(visited@);
                    if stopped {
                        let last = visited@.last();
                        assert(visited@[visited@.len() - 1] == last);
                        assert forall|a: int| 0 <= a < visited@.len() implies (
                        #[trigger] visited@[a]).0 < last.0 as nat + 1 by {
                            if a < visited@.len() - 1 {
                                assert(visited@[a].0 < visited@[visited@.len() - 1].0);
                            }
                        }
                    }
                }
                Ok(visited)
            },
            Err(e) => Err(e),
        }
    }
}

/// The index a walk begins at.
pub open spec fn spec_start(start_at: Option<u64>) -> nat {
    match start_at {
        Some(s) => s as nat,
        None => 0,
    }
}

/// The number of values a walk may give.
pub open spec fn spec_limit(limit: Option<u64>) -> nat {
    match limit {
        Some(l) => l as nat,
        None => u64::MAX as nat,
    }
}

/// There are never as many entries as there are `u64`.
pub proof fn lemma_all_listed(entries: Seq<(u64, Vec<u8>)>)
    requires
        ascending(entries, 0, MAX_INDEX as nat + 1),
    ensures
        entries.len() <= MAX_INDEX + 1,
{
    lemma_ascending_len(entries, entries.len() as int);
}

/// Ascending entries are no more than their indices allow.
proof fn lemma_ascending_len(entries: Seq<(u64, Vec<u8>)>, n: int)
    requires
        0 <= n <= entries.len(),
        forall|a: int, b: int|
            0 <= a < b < entries.len() ==> (#[trigger] entries[a]).0 < (#[trigger] entries[b]).0,
    ensures
        n > 0 ==> entries[n - 1].0 >= n - 1,
    decreases n,
{
    if n > 1 {
        lemma_ascending_len(entries, n - 1);
        assert(entries[n - 2].0 < entries[n - 1].0);
    }
}

/// Entries with one more behind them list what they listed, and the one more.
proof fn lemma_lists_push<BS: Blockstore, Ver: Version>(
    amt: &AmtImpl<BS, Ver>,
    entries: Seq<(u64, Vec<u8>)>,
    entry: (u64, Vec<u8>),
    start: nat,
    cursor: nat,
)
    requires
        amt.lists(entries, start, cursor),
        start <= cursor <= entry.0 <= MAX_INDEX,
        amt.at(entry.0 as nat) == Ok::<Option<Seq<u8>>, ErrorView>(Some(entry.1@)),
        forall|j: nat| cursor <= j < entry.0 ==> #[trigger] amt.at(j) == Ok::<
            Option<Seq<u8>>,
            ErrorView,
        >(None),
    ensures
        amt.lists(entries.push(entry), start, entry.0 as nat + 1),
{
    let more = entries.push(entry);
    assert(more.subrange(0, entries.len() as int) =~= entries);
    assert forall|j: nat| start <= j < entry.0 + 1 && j <= MAX_INDEX implies (#[trigger] amt.at(j))
        is Ok && (is_value(amt.at(j)) ==> has_entry(more, 0, j as int)) by {
        if j < cursor {
            if is_value(amt.at(j)) {
                lemma_entry_stays(entries, more, 0, j as int);
            }
        } else if j == entry.0 {
            assert(more[entries.len() as int].0 == j);
        }
    }
    assert forall|k: int| 0 <= k < more.len() implies start <= (#[trigger] more[k]).0 <= MAX_INDEX
        && amt.at(more[k].0 as nat) == Ok::<Option<Seq<u8>>, ErrorView>(Some(more[k].1@)) by {
        if k < entries.len() {
            assert(more[k] == entries[k]);
        }
    }
    assert forall|a: int, b: int| 0 <= a < b < more.len() implies (#[trigger] more[a]).0 < (
    #[trigger] more[b]).0 by {
        assert(more[a] == entries[a]);
        if b < entries.len() {
            assert(more[b] == entries[b]);
        }
    }
    assert forall|a: int| 0 <= a < more.len() implies (#[trigger] more[a]).0 < entry.0 as nat
        + 1 by {
        if a < entries.len() {
            assert(more[a] == entries[a]);
        }
    }
}

/// Entries that list the values up to a place, behind which no value lies for
/// a while, list the values up to the end of that while.
proof fn lemma_lists_extend<BS: Blockstore, Ver: Version>(
    amt: &AmtImpl<BS, Ver>,
    entries: Seq<(u64, Vec<u8>)>,
    start: nat,
    cursor: nat,
    bound: nat,
)
    requires
        amt.lists(entries, start, cursor),
        cursor <= bound,
        forall|j: nat|
            cursor <= j < bound && j <= MAX_INDEX ==> #[trigger] amt.at(j) == Ok::<
                Option<Seq<u8>>,
                ErrorView,
            >(None),
    ensures
        amt.lists(entries, start, bound),
{
}

/// Every entry but the last was one to go on from.
pub open spec fn went_on<F: Fn(u64, &Vec<u8>) -> bool>(f: F, entries: Seq<(u64, Vec<u8>)>) -> bool {
    forall|k: int|
        0 <= k < entries.len() - 1 ==> call_ensures(
            f,
            ((#[trigger] entries[k]).0, &entries[k].1),
            true,
        )
}

/// The last entry was one to stop at.
pub open spec fn stopped_at_last<F: Fn(u64, &Vec<u8>) -> bool>(
    f: F,
    entries: Seq<(u64, Vec<u8>)>,
) -> bool {
    entries.len() > 0 && call_ensures(f, (entries.last().0, &entries.last().1), false)
}

} // verus!
