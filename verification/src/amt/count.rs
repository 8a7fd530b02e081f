//! Counting the values of a trie.

use crate::amt::AmtImpl;
use crate::error::ErrorView;
use crate::index::MAX_INDEX;
use crate::node::is_value;
use crate::root::Version;
use crate::store::Blockstore;
use vstd::prelude::*;

verus! {

/// The number of values that `at` gives at the indices below `upto`.
pub open spec fn count_values(at: spec_fn(nat) -> Result<Option<Seq<u8>>, ErrorView>, upto: nat)
    -> nat
    decreases upto,
{
    if upto == 0 {
        0
    } else {
        count_values(at, (upto - 1) as nat) + if is_value(at((upto - 1) as nat)) {
            1nat
        } else {
            0nat
        }
    }
}

/// There are no more values than indices.
pub proof fn lemma_count_bound(at: spec_fn(nat) -> Result<Option<Seq<u8>>, ErrorView>, upto: nat)
    ensures
        count_values(at, upto) <= upto,
    decreases upto,
{
    if upto > 0 {
        lemma_count_bound(at, (upto - 1) as nat);
    }
}

/// A value among the indices counts.
pub proof fn lemma_count_has(
    at: spec_fn(nat) -> Result<Option<Seq<u8>>, ErrorView>,
    upto: nat,
    i: nat,
)
    requires
        i < upto,
        is_value(at(i)),
    ensures
        count_values(at, upto) >= 1,
    decreases upto,
{
    if i < upto - 1 {
        lemma_count_has(at, (upto - 1) as nat, i);
    }
}

/// Where one index alone holds something else, the number of values differs
/// by what that index holds.
pub proof fn lemma_count_update(
    before: spec_fn(nat) -> Result<Option<Seq<u8>>, ErrorView>,
    after: spec_fn(nat) -> Result<Option<Seq<u8>>, ErrorView>,
    i: nat,
    upto: nat,
)
    requires
        forall|j: nat| j != i ==> #[trigger] after(j) == before(j),
    ensures
        count_values(after, upto) + (if i < upto && is_value(before(i)) {
            1nat
        } else {
            0nat
        }) == count_values(before, upto) + (if i < upto && is_value(after(i)) {
            1nat
        } else {
            0nat
        }),
    decreases upto,
{
    if upto > 0 {
        lemma_count_update(before, after, i, (upto - 1) as nat);
        if upto - 1 != i {
            assert(after((upto - 1) as nat) == before((upto - 1) as nat));
        }
    }
}

/// A trie that holds the same at every index as another, with the same count,
/// has an exact count if the other has.
pub proof fn lemma_exact_same<BS: Blockstore, Ver: Version>(
    before: &AmtImpl<BS, Ver>,
    after: &AmtImpl<BS, Ver>,
)
    requires
        before.count_exact(),
        after.root.count == before.root.count,
        forall|j: nat| is_value(#[trigger] after.at(j)) == is_value(before.at(j)),
    ensures
        after.count_exact(),
{
    lemma_count_values_same(|j: nat| before.at(j), |j: nat| after.at(j), MAX_INDEX as nat + 1);
}

/// What holds a value at the same indices holds as many values.
pub proof fn lemma_count_values_same(
    before: spec_fn(nat) -> Result<Option<Seq<u8>>, ErrorView>,
    after: spec_fn(nat) -> Result<Option<Seq<u8>>, ErrorView>,
    upto: nat,
)
    requires
        forall|j: nat| is_value(#[trigger] after(j)) == is_value(before(j)),
    ensures
        count_values(after, upto) == count_values(before, upto),
    decreases upto,
{
    if upto > 0 {
        lemma_count_values_same(before, after, (upto - 1) as nat);
        assert(is_value(after((upto - 1) as nat)) == is_value(before((upto - 1) as nat)));
    }
}

/// What holds a value at the same indices below `upto` holds as many values
/// there.
pub proof fn lemma_count_values_below(
    before: spec_fn(nat) -> Result<Option<Seq<u8>>, ErrorView>,
    after: spec_fn(nat) -> Result<Option<Seq<u8>>, ErrorView>,
    upto: nat,
)
    requires
        forall|j: nat| j < upto ==> is_value(#[trigger] after(j)) == is_value(before(j)),
    ensures
        count_values(after, upto) == count_values(before, upto),
    decreases upto,
{
    if upto > 0 {
        lemma_count_values_below(before, after, (upto - 1) as nat);
        assert(is_value(after((upto - 1) as nat)) == is_value(before((upto - 1) as nat)));
    }
}

/// A trie with an exact count, and one index changed, has an exact count if
/// its count went with the change.
pub proof fn lemma_exact_update<BS: Blockstore, Ver: Version>(
    before: &AmtImpl<BS, Ver>,
    after: &AmtImpl<BS, Ver>,
    i: nat,
)
    requires
        before.count_exact(),
        i <= MAX_INDEX,
        forall|j: nat| j != i ==> #[trigger] after.at(j) == before.at(j),
        after.root.count + (if is_value(before.at(i)) {
            1nat
        } else {
            0nat
        }) == before.root.count + (if is_value(after.at(i)) {
            1nat
        } else {
            0nat
        }),
    ensures
        after.count_exact(),
{
    lemma_count_update(|j: nat| before.at(j), |j: nat| after.at(j), i, MAX_INDEX as nat + 1);
}

/// An exact count has room to go up and, where there is a value, to go down.
pub proof fn lemma_exact_room<BS: Blockstore, Ver: Version>(amt: &AmtImpl<BS, Ver>, i: nat)
    requires
        amt.count_exact(),
        i <= MAX_INDEX,
    ensures
        amt.root.count <= MAX_INDEX + 1,
        is_value(amt.at(i)) ==> amt.root.count >= 1,
{
    lemma_count_bound(|j: nat| amt.at(j), MAX_INDEX as nat + 1);
    if is_value(amt.at(i)) {
        lemma_count_has(|j: nat| amt.at(j), MAX_INDEX as nat + 1, i);
    }
}

/// Where there is no value, the number of values is 0.
pub proof fn lemma_count_none(at: spec_fn(nat) -> Result<Option<Seq<u8>>, ErrorView>, upto: nat)
    requires
        forall|j: nat| !is_value(#[trigger] at(j)),
    ensures
        count_values(at, upto) == 0,
    decreases upto,
{
    if upto > 0 {
        lemma_count_none(at, (upto - 1) as nat);
        assert(!is_value(at((upto - 1) as nat)));
    }
}

/// A trie that holds the same at every index as another, with the same count,
/// has an exact count if the other has.
pub proof fn lemma_exact_kept<BS: Blockstore, Ver: Version>(
    before: &AmtImpl<BS, Ver>,
    after: &AmtImpl<BS, Ver>,
)
    requires
        after.root.count == before.root.count,
        forall|j: nat| #[trigger] after.at(j) == before.at(j),
    ensures
        before.count_exact() ==> after.count_exact(),
{
    if before.count_exact() {
        assert forall|j: nat| is_value(#[trigger] after.at(j)) == is_value(before.at(j)) by {
            assert(after.at(j) == before.at(j));
        }
        lemma_exact_same(before, after);
    }
}

/// Where the values are those at the first `n` indices, there are `n` of them
/// below any index behind them.
pub proof fn lemma_count_prefix(
    at: spec_fn(nat) -> Result<Option<Seq<u8>>, ErrorView>,
    n: nat,
    upto: nat,
)
    requires
        forall|j: nat| is_value(#[trigger] at(j)) == (j < n),
    ensures
        count_values(at, upto) == (if upto < n {
            upto
        } else {
            n
        }),
    decreases upto,
{
    if upto > 0 {
        lemma_count_prefix(at, n, (upto - 1) as nat);
        assert(is_value(at((upto - 1) as nat)) == (upto - 1 < n));
    }
}

} // verus!
