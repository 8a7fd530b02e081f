use ipld_amt::amt::Amt;
use ipld_amt::content_id::Cid;
use ipld_amt::error::{Error, StoreError};
use ipld_amt::index::MAX_INDEX;
use ipld_amt::store::{Blocks, Blockstore, MemoryBlockstore};

/// A store that holds what it is given until it is told to fail.
struct Flaky {
    inner: MemoryBlockstore,
    puts_left: usize,
    reads: bool,
}

impl Blockstore for Flaky {
    fn blocks(&self) -> Blocks {
        unreachable!("only contracts speak of what a store holds")
    }

    fn reliable(&self) -> bool {
        false
    }

    fn get(&self, k: &Cid) -> Result<Option<Vec<u8>>, StoreError> {
        if self.reads {
            self.inner.get(k)
        } else {
            Err(StoreError { message: "cannot read".to_string() })
        }
    }

    fn put_keyed(&mut self, k: &Cid, block: &[u8]) -> Result<(), StoreError> {
        if self.puts_left == 0 {
            return Err(StoreError { message: "cannot write".to_string() });
        }
        self.puts_left -= 1;
        self.inner.put_keyed(k, block)
    }
}

fn entries() -> Vec<(u64, Vec<u8>)> {
    vec![
        (0, vec![0]),
        (7, vec![7]),
        (8, vec![8]),
        (63, vec![63]),
        (64, vec![6, 4]),
        (4_095, vec![4, 0, 9, 5]),
        (1 << 20, vec![1, 20]),
        (MAX_INDEX, vec![0xff]),
    ]
}

#[test]
fn what_was_set_is_read_after_flush_and_load() {
    let mut amt = Amt::new(MemoryBlockstore::new());
    for (i, v) in entries() {
        amt.set(i, v).unwrap();
    }
    let cid = amt.flush().unwrap();
    let loaded = Amt::load(&cid, amt.into_store()).unwrap();
    for (i, v) in entries() {
        assert_eq!(loaded.get(i).unwrap(), Some(v));
    }
    for i in [1u64, 6, 9, 62, 65, 4_094, 4_096, (1 << 20) - 1, (1 << 20) + 1, MAX_INDEX - 1] {
        assert_eq!(loaded.get(i).unwrap(), None);
    }
    assert_eq!(loaded.for_each().unwrap(), entries());
}

#[test]
fn count_is_the_number_of_values() {
    let mut amt = Amt::new(MemoryBlockstore::new());
    let steps: Vec<(bool, u64)> = vec![
        (true, 5),
        (true, 9),
        (true, 5),
        (false, 6),
        (false, 5),
        (true, 1 << 30),
        (false, 5),
        (true, 5),
        (false, 9),
        (false, 1 << 30),
    ];
    let mut present: Vec<u64> = Vec::new();
    for (set, i) in steps {
        if set {
            amt.set(i, vec![1]).unwrap();
            if !present.contains(&i) {
                present.push(i);
            }
        } else {
            amt.delete(i).unwrap();
            present.retain(|p| *p != i);
        }
        assert_eq!(amt.count(), present.len() as u64);
        assert_eq!(amt.for_each().unwrap().len(), present.len());
    }
    assert_eq!(present, vec![5]);
}

#[test]
fn height_is_the_least_for_the_greatest_index() {
    let mut amt = Amt::new_with_bit_width(MemoryBlockstore::new(), 2);
    let indices: Vec<u64> = vec![3, 4, 15, 16, 255, 256, 1 << 16, 1 << 40, MAX_INDEX];
    for i in indices.iter() {
        amt.set(*i, vec![1]).unwrap();
    }
    for k in (0..indices.len()).rev() {
        // the greatest index left is indices[k]
        let mut height = 0u32;
        while indices[k] >= ipld_amt::index::nodes_for_height(2, height + 1) {
            height += 1;
        }
        assert_eq!(amt.height(), height);
        amt.delete(indices[k]).unwrap();
    }
    assert_eq!(amt.height(), 0);
    assert_eq!(amt.count(), 0);
}

#[test]
fn neither_order_nor_detours_show_in_the_identifier() {
    let mut straight = Amt::new(MemoryBlockstore::new());
    for (i, v) in entries() {
        straight.set(i, v).unwrap();
    }
    let expected = straight.flush().unwrap();

    let mut backwards = Amt::new(MemoryBlockstore::new());
    for (i, v) in entries().into_iter().rev() {
        backwards.set(i, v).unwrap();
    }
    assert_eq!(backwards.flush().unwrap(), expected);

    let mut detour = Amt::new(MemoryBlockstore::new());
    detour.set(1 << 50, vec![9]).unwrap();
    detour.set(3, vec![3]).unwrap();
    detour.flush().unwrap();
    for (i, _) in entries() {
        detour.set(i, vec![0, 0]).unwrap();
    }
    detour.delete(1 << 50).unwrap();
    detour.delete(3).unwrap();
    detour.flush().unwrap();
    for (i, v) in entries().into_iter().rev() {
        detour.set(i, v).unwrap();
    }
    assert_eq!(detour.flush().unwrap(), expected);
}

#[test]
fn a_failing_store_is_reported_and_nothing_is_lost() {
    let flaky = Flaky { inner: MemoryBlockstore::new(), puts_left: 1, reads: true };
    let mut amt = Amt::new(flaky);
    amt.set(1, vec![1]).unwrap();
    amt.set(100, vec![100]).unwrap();
    assert_eq!(
        amt.flush(),
        Err(Error::BlockStore(StoreError { message: "cannot write".to_string() }))
    );
    assert_eq!(amt.flushed_cid, None);
    assert_eq!(amt.get(1).unwrap(), Some(vec![1]));
    assert_eq!(amt.get(100).unwrap(), Some(vec![100]));
    assert_eq!(amt.count(), 2);

    amt.block_store.puts_left = 100;
    let cid = amt.flush().unwrap();
    let mut plain = Amt::new(MemoryBlockstore::new());
    plain.set(1, vec![1]).unwrap();
    plain.set(100, vec![100]).unwrap();
    assert_eq!(plain.flush().unwrap(), cid);

    let mut store = amt.into_store();
    store.reads = false;
    assert_eq!(
        Amt::load(&cid, store).err(),
        Some(Error::BlockStore(StoreError { message: "cannot read".to_string() }))
    );
}

#[test]
fn a_store_that_stops_reading_stops_the_walk() {
    let mut amt = Amt::new(Flaky { inner: MemoryBlockstore::new(), puts_left: 100, reads: true });
    amt.set(1, vec![1]).unwrap();
    amt.set(100, vec![100]).unwrap();
    let cid = amt.flush().unwrap();
    let mut loaded = Amt::load(&cid, amt.into_store()).unwrap();
    loaded.block_store.reads = false;
    let failure = Error::BlockStore(StoreError { message: "cannot read".to_string() });
    assert_eq!(loaded.get(1), Err(Error::BlockStore(StoreError { message: "cannot read".to_string() })));
    assert_eq!(loaded.set(1, vec![2]), Err(Error::BlockStore(StoreError { message: "cannot read".to_string() })));
    assert_eq!(loaded.delete(1).err(), Some(Error::BlockStore(StoreError { message: "cannot read".to_string() })));
    assert_eq!(loaded.for_each().err(), Some(failure));
    assert_eq!(loaded.count(), 2);
    assert_eq!(loaded.flushed_cid, Some(cid));
    // beyond the trie nothing has to be read
    assert_eq!(loaded.get(1 << 40).unwrap(), None);
    loaded.block_store.reads = true;
    assert_eq!(loaded.get(100).unwrap(), Some(vec![100]));
}

#[test]
fn a_delete_that_cannot_collapse_changes_nothing() {
    // 1 lies below slot 0 of the top node, 70 below slot 1
    let mut amt = Amt::new(Flaky { inner: MemoryBlockstore::new(), puts_left: 100, reads: true });
    amt.set(1, vec![1]).unwrap();
    amt.set(70, vec![70]).unwrap();
    assert_eq!(amt.height(), 2);
    let cid = amt.flush().unwrap();
    let written = amt.into_store();

    // a store without the block of the child in slot 0
    let with_both = Amt::load(&cid, written).unwrap();
    let child_of_one = match &with_both.root.node {
        ipld_amt::node::Node::Link { links } => match &links[0] {
            Some(ipld_amt::node::Link::Cid { cid, .. }) => cid.clone(),
            _ => panic!("slot 0 holds a clean link"),
        },
        _ => panic!("the top node is a node of links"),
    };
    let mut partial = MemoryBlockstore::new();
    for entry in with_both.block_store.inner.entries.iter() {
        if entry.key != child_of_one {
            partial.put_keyed(&entry.key, &entry.block).unwrap();
        }
    }

    let mut loaded = Amt::load(&cid, partial).unwrap();
    assert_eq!(loaded.get(70).unwrap(), Some(vec![70]));
    assert!(matches!(loaded.get(1), Err(Error::CidNotFound(_))));
    // without 70 the top node would give way to the child in slot 0, which is not there
    assert_eq!(loaded.delete(70), Err(Error::CidNotFound(child_of_one)));
    assert_eq!(loaded.height(), 2);
    assert_eq!(loaded.count(), 2);
    assert_eq!(loaded.get(70).unwrap(), Some(vec![70]));
    assert_eq!(loaded.flushed_cid, None);
}

/// A small generator of numbers, the same on every run.
struct Lcg(u64);

impl Lcg {
    fn next(&mut self) -> u64 {
        self.0 = self.0.wrapping_mul(6364136223846793005).wrapping_add(1442695040888963407);
        self.0 >> 11
    }
}

#[test]
fn a_trie_behaves_as_a_sorted_map_does() {
    for bit_width in [1u32, 3, 5, 8] {
        let mut rng = Lcg(bit_width as u64);
        let mut amt = Amt::new_with_bit_width(MemoryBlockstore::new(), bit_width);
        let mut model: std::collections::BTreeMap<u64, Vec<u8>> = std::collections::BTreeMap::new();
        for step in 0..600u32 {
            let near = rng.next() % 4 != 0;
            let i = if near { rng.next() % 300 } else { rng.next() % (MAX_INDEX + 1) };
            match rng.next() % 5 {
                0 | 1 => {
                    let v = vec![(step % 251) as u8, bit_width as u8];
                    amt.set(i, v.clone()).unwrap();
                    model.insert(i, v);
                }
                2 => {
                    let i = match model.keys().nth((rng.next() % 8) as usize) {
                        Some(k) => *k,
                        None => i,
                    };
                    assert_eq!(amt.delete(i).unwrap(), model.remove(&i));
                }
                3 => {
                    assert_eq!(amt.get(i).unwrap(), model.get(&i).cloned());
                    let limit = rng.next() % 6;
                    let (page, next) = amt.for_each_ranged(Some(i), Some(limit)).unwrap();
                    let mut expected: Vec<(u64, Vec<u8>)> =
                        model.range(i..).map(|(k, v)| (*k, v.clone())).collect();
                    let rest = expected.split_off(expected.len().min(limit as usize));
                    assert_eq!(page, expected);
                    assert_eq!(next, rest.first().map(|(k, _)| *k));
                }
                _ => {
                    let cid = amt.flush().unwrap();
                    if step % 3 == 0 {
                        amt = Amt::load(&cid, amt.into_store()).unwrap();
                    }
                }
            }
            assert_eq!(amt.count(), model.len() as u64);
            let highest = model.keys().next_back().copied();
            let mut height = 0u32;
            if let Some(k) = highest {
                while k >= ipld_amt::index::nodes_for_height(bit_width, height + 1) {
                    height += 1;
                }
            }
            assert_eq!(amt.height(), height);
        }
        let all: Vec<(u64, Vec<u8>)> = model.iter().map(|(k, v)| (*k, v.clone())).collect();
        assert_eq!(amt.for_each().unwrap(), all);

        // the same values, set in order into a new trie, are written under the same name
        let mut fresh = Amt::new_with_bit_width(MemoryBlockstore::new(), bit_width);
        for (k, v) in all {
            fresh.set(k, v).unwrap();
        }
        assert_eq!(fresh.flush().unwrap(), amt.flush().unwrap());
    }
}

#[test]
fn what_is_in_memory_asks_nothing_of_the_store() {
    let store = Flaky { inner: MemoryBlockstore::new(), puts_left: 0, reads: false };
    let mut amt = Amt::new(store);
    // beyond what the trie has a place for, nothing is read
    assert_eq!(amt.get(5_000), Ok(None));
    assert_eq!(amt.delete(5_000), Ok(None));
    amt.set(5_000, vec![5]).unwrap();
    amt.set(2, vec![2]).unwrap();
    assert_eq!(amt.get(5_000), Ok(Some(vec![5])));
    assert_eq!(amt.get(4_999), Ok(None));
    assert_eq!(amt.for_each(), Ok(vec![(2, vec![2]), (5_000, vec![5])]));
    assert_eq!(amt.next_index(3), Ok(Some(5_000)));
    amt.for_each_mut(|i, _| if i == 2 { Some(vec![2, 2]) } else { None }).unwrap();
    assert_eq!(amt.batch_delete(vec![5_000, 7], false), Ok(true));
    assert_eq!(amt.height(), 0);
    assert_eq!(amt.delete(2), Ok(Some(vec![2, 2])));
    assert_eq!(amt.count(), 0);
    assert!(matches!(amt.flush(), Err(Error::BlockStore(_))));
}

#[test]
fn a_walk_that_changes_a_value_keeps_height_and_count() {
    let mut amt = Amt::new(MemoryBlockstore::new());
    for (i, v) in entries() {
        amt.set(i, v).unwrap();
    }
    let first = amt.flush().unwrap();
    let (height, count) = (amt.height(), amt.count());
    let store = amt.into_store();

    let mut amt = Amt::load(&first, store).unwrap();
    amt.for_each_while_mut(|i, _| if i == 64 { (Some(vec![9]), false) } else { (None, true) })
        .unwrap();
    assert_eq!(amt.height(), height);
    assert_eq!(amt.count(), count);
    assert_eq!(amt.get(64), Ok(Some(vec![9])));
    for (i, v) in entries() {
        if i != 64 {
            assert_eq!(amt.get(i), Ok(Some(v)));
        }
    }
    let second = amt.flush().unwrap();
    assert!(second != first);
    let store = amt.into_store();
    let back = Amt::load(&second, store).unwrap();
    assert_eq!(back.get(64), Ok(Some(vec![9])));
    assert_eq!(back.height(), height);
    assert_eq!(back.count(), count);

    // a walk that changes nothing leaves the identifier as it is: nothing
    // is written for it
    let mut back = back;
    back.for_each_mut(|_, _| None).unwrap();
    let blocks = back.store().len();
    assert_eq!(back.flush().unwrap(), second);
    assert_eq!(back.store().len(), blocks);
    assert_eq!(back.batch_delete(vec![1, 2, 3], false), Ok(false));
    assert_eq!(back.flush().unwrap(), second);
    assert_eq!(back.store().len(), blocks);

    // a value given back, though it is the same, is written again
    back.for_each_mut(|i, v| if i == 0 { Some(v.clone()) } else { None }).unwrap();
    assert_eq!(back.flush().unwrap(), second);
    assert!(back.store().len() > blocks);
}

#[test]
fn a_trie_read_back_comes_down_as_values_leave() {
    let mut amt = Amt::new(MemoryBlockstore::new());
    amt.set(1_000_000, vec![1]).unwrap();
    amt.set(70, vec![2]).unwrap();
    amt.set(3, vec![3]).unwrap();
    let cid = amt.flush().unwrap();
    let mut amt = Amt::load(&cid, amt.into_store()).unwrap();
    assert_eq!(amt.height(), 6);
    assert_eq!(amt.delete(1_000_000), Ok(Some(vec![1])));
    assert_eq!(amt.height(), 2);
    assert_eq!(amt.delete(70), Ok(Some(vec![2])));
    assert_eq!(amt.height(), 0);
    assert_eq!(amt.delete(3), Ok(Some(vec![3])));
    assert_eq!(amt.height(), 0);
    assert_eq!(amt.count(), 0);
    let emptied = amt.flush().unwrap();
    assert_eq!(emptied, Amt::new(MemoryBlockstore::new()).flush().unwrap());
}

#[test]
fn a_strict_batch_fails_at_the_least_absent_index() {
    let mut amt = Amt::new(MemoryBlockstore::new());
    for i in [0u64, 2, 4, 6, 8, 100] {
        amt.set(i, vec![i as u8]).unwrap();
    }
    assert_eq!(amt.batch_delete(vec![100, 9, 4, 7, 0, 4, 8], true), Err(Error::NotFound(7)));
    // the listed indices below 7 are gone, the others are where they were
    assert_eq!(
        amt.for_each().unwrap(),
        vec![(2, vec![2]), (6, vec![6]), (8, vec![8]), (100, vec![100])]
    );
    assert_eq!(amt.count(), 4);
    assert_eq!(amt.height(), 2);
}

#[test]
fn a_built_trie_is_no_higher_than_its_values_ask_for() {
    for n in [0usize, 1, 8, 9, 64, 65] {
        let vals: Vec<Vec<u8>> = (0..n).map(|i| vec![i as u8]).collect();
        let (cid, store) = Amt::new_from_iter(MemoryBlockstore::new(), vals.clone());
        let cid = cid.unwrap();
        let mut amt = Amt::new(MemoryBlockstore::new());
        amt.batch_set(vals).unwrap();
        assert_eq!(amt.flush().unwrap(), cid);
        let height = if n <= 8 { 0 } else if n <= 64 { 1 } else { 2 };
        assert_eq!(amt.height(), height);
        let built = Amt::load(&cid, store).unwrap();
        assert_eq!(built.height(), height);
        assert_eq!(built.count(), n as u64);
        assert_eq!(built.into_store().len(), amt.into_store().len());
    }
}
