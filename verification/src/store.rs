//! The block store a trie is kept in: blocks of bytes under the identifier of
//! their content.

use crate::content_id::{block_cid, Cid};
use crate::error::StoreError;
use vstd::prelude::*;

verus! {

/// What a store holds: blocks by the binary form of their identifier.
pub type Blocks = Map<Seq<u8>, Seq<u8>>;

/// A store of blocks.
pub trait Blockstore {
    /// The blocks held.
    spec fn blocks(&self) -> Blocks;

    /// Whether the store never fails.
    spec fn reliable(&self) -> bool;

    /// The block held under `k`, if there is one.
    fn get(&self, k: &Cid) -> (r: Result<Option<Vec<u8>>, StoreError>)
        ensures
            self.reliable() ==> r is Ok,
            r matches Ok(found) ==> (found is Some <==> self.blocks().contains_key(k@)),
            r matches Ok(Some(block)) ==> block@ == self.blocks()[k@],
    ;

    /// Puts `block` under `k`, in place of what was there. A store that fails
    /// holds what it held.
    fn put_keyed(&mut self, k: &Cid, block: &[u8]) -> (r: Result<(), StoreError>)
        ensures
            old(self).reliable() ==> r is Ok,
            final(self).reliable() == old(self).reliable(),
            r is Ok ==> final(self).blocks() == old(self).blocks().insert(k@, block@),
            r is Err ==> final(self).blocks() == old(self).blocks(),
    ;
}

/// Puts `block` into the store under the identifier of its content, and
/// returns that identifier.
pub fn put_block<BS: Blockstore>(store: &mut BS, block: &[u8]) -> (r: Result<Cid, StoreError>)
    ensures
        old(store).reliable() ==> r is Ok,
        final(store).reliable() == old(store).reliable(),
        r matches Ok(k) ==> k.wf() && k@ == block_cid(block@) && final(store).blocks() == old(
            store,
        ).blocks().insert(block_cid(block@), block@),
        r is Err ==> final(store).blocks() == old(store).blocks(),
{
    let k = Cid::of_block(block);
    match store.put_keyed(&k, block) {
        Ok(()) => Ok(k),
        Err(e) => Err(e),
    }
}

/// One block of a store in memory.
pub struct Entry {
    pub key: Cid,
    pub block: Vec<u8>,
}

/// What a list of entries holds: of two entries with one key, the later.
pub open spec fn entries_blocks(entries: Seq<Entry>) -> Blocks
    decreases entries.len(),
{
    if entries.len() == 0 {
        Map::empty()
    } else {
        entries_blocks(entries.drop_last()).insert(entries.last().key@, entries.last().block@)
    }
}

/// A store in memory. It never fails.
pub struct MemoryBlockstore {
    pub entries: Vec<Entry>,
}

impl MemoryBlockstore {
    /// A store that holds nothing.
    pub fn new() -> (store: MemoryBlockstore)
        ensures
            store.blocks() == Blocks::empty(),
            store.reliable(),
    {
        MemoryBlockstore { entries: Vec::new() }
    }

    /// How many times a block was put.
    pub fn len(&self) -> (n: usize)
        ensures
            n == self.entries@.len(),
    {
        self.entries.len()
    }
}

/// No entry from `from` on has the key `k`: what the entries hold under `k` is
/// what those before `from` hold.
proof fn lemma_entries_skip(entries: Seq<Entry>, from: int, k: Seq<u8>)
    requires
        0 <= from <= entries.len(),
        forall|j: int| from <= j < entries.len() ==> (#[trigger] entries[j]).key@ != k,
    ensures
        entries_blocks(entries).contains_key(k) == entries_blocks(
            entries.subrange(0, from),
        ).contains_key(k),
        entries_blocks(entries).contains_key(k) ==> entries_blocks(entries)[k] == entries_blocks(
            entries.subrange(0, from),
        )[k],
    decreases entries.len() - from,
{
    if from == entries.len() {
        assert(entries.subrange(0, from) =~= entries);
    } else {
        let shorter = entries.drop_last();
        assert(shorter.subrange(0, from) =~= entries.subrange(0, from));
        lemma_entries_skip(shorter, from, k);
    }
}

impl Blockstore for MemoryBlockstore {
    open spec fn blocks(&self) -> Blocks {
        entries_blocks(self.entries@)
    }

    open spec fn reliable(&self) -> bool {
        true
    }

    fn get(&self, k: &Cid) -> (r: Result<Option<Vec<u8>>, StoreError>) {
        let mut i: usize = self.entries.len();
        while i > 0
            invariant
                i <= self.entries@.len(),
                forall|j: int| i <= j < self.entries@.len() ==> (#[trigger] self.entries@[j]).key@
                    != k@,
            decreases i,
        {
            i -= 1;
            if self.entries[i].key.same(k) {
                proof {
                    lemma_entries_skip(self.entries@, i + 1, k@);
                    assert(self.entries@.subrange(0, i + 1).drop_last() =~= self.entries@.subrange(
                        0,
                        i as int,
                    ));
                }
                return Ok(Some(self.entries[i].block.clone()));
            }
        }
        proof {
            lemma_entries_skip(self.entries@, 0, k@);
            assert(self.entries@.subrange(0, 0) =~= Seq::<Entry>::empty());
        }
        Ok(None)
    }

    fn put_keyed(&mut self, k: &Cid, block: &[u8]) -> (r: Result<(), StoreError>) {
        let ghost before = self.entries@;
        let entry = Entry { key: k.clone(), block: vstd::slice::slice_to_vec(block) };
        self.entries.push(entry);
        proof {
            assert(self.entries@.drop_last() =~= before);
        }
        Ok(())
    }
}

} // verus!
