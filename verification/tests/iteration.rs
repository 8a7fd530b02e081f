use ipld_amt::amt::{Amt, Amtv0};
use ipld_amt::error::Error;
use ipld_amt::index::MAX_INDEX;
use ipld_amt::store::{Blockstore, MemoryBlockstore};

fn b(s: &str) -> Vec<u8> {
    s.as_bytes().to_vec()
}

fn five() -> Amt<MemoryBlockstore> {
    let mut amt = Amt::new(MemoryBlockstore::new());
    amt.batch_set(vec![b("a"), b("b"), b("c"), b("d"), b("e")]).unwrap();
    amt
}

fn sparse() -> Amt<MemoryBlockstore> {
    let mut amt = Amt::new(MemoryBlockstore::new());
    amt.set(1, b("One")).unwrap();
    amt.set(4, b("Four")).unwrap();
    amt.set(5, b("Five")).unwrap();
    amt.set(6, b("Six")).unwrap();
    amt.set(10, b("Ten")).unwrap();
    amt
}

#[test]
fn batch_set_then_ranged() {
    let amt = five();
    assert_eq!(amt.count(), 5);
    let (entries, next) = amt.for_each_ranged(Some(2), Some(2)).unwrap();
    assert_eq!(entries, vec![(2, b("c")), (3, b("d"))]);
    assert_eq!((entries.len(), next), (2, Some(4)));
}

#[test]
fn ranged_gives_the_next_index() {
    let amt = sparse();
    let (entries, next) = amt.for_each_ranged(Some(4), Some(3)).unwrap();
    assert_eq!(entries, vec![(4, b("Four")), (5, b("Five")), (6, b("Six"))]);
    assert_eq!(next, Some(10));

    let (entries, next) = amt.for_each_ranged(Some(7), Some(3)).unwrap();
    assert_eq!(entries, vec![(10, b("Ten"))]);
    assert_eq!(next, None);

    let (entries, next) = amt.for_each_ranged(None, Some(0)).unwrap();
    assert_eq!(entries, vec![]);
    assert_eq!(next, Some(1));

    let (entries, next) = amt.for_each_ranged(Some(11), None).unwrap();
    assert_eq!(entries, vec![]);
    assert_eq!(next, None);

    let (entries, next) = amt.for_each_ranged(Some(MAX_INDEX + 1), None).unwrap();
    assert_eq!(entries, vec![]);
    assert_eq!(next, None);

    let (entries, next) = amt.for_each_ranged(None, Some(5)).unwrap();
    assert_eq!(entries.len(), 5);
    assert_eq!(next, None);
}

#[test]
fn for_each_ascends() {
    let mut amt = Amt::new_with_bit_width(MemoryBlockstore::new(), 2);
    let indices: Vec<u64> = vec![MAX_INDEX, 77, 3, 1 << 40, 0, 78, 4096, 15, 16];
    for i in indices.iter() {
        amt.set(*i, i.to_le_bytes().to_vec()).unwrap();
    }
    let mut sorted = indices.clone();
    sorted.sort();
    let expected: Vec<(u64, Vec<u8>)> =
        sorted.iter().map(|i| (*i, i.to_le_bytes().to_vec())).collect();
    assert_eq!(amt.for_each().unwrap(), expected);

    // the same from the store alone
    let cid = amt.flush().unwrap();
    let loaded = Amt::load(&cid, amt.into_store()).unwrap();
    assert_eq!(loaded.for_each().unwrap(), expected);
    assert_eq!(loaded.next_index(79).unwrap(), Some(4096));
    assert_eq!(loaded.next_index(MAX_INDEX).unwrap(), Some(MAX_INDEX));
    let (entries, next) = loaded.for_each_ranged(Some(16), Some(2)).unwrap();
    assert_eq!(entries, expected[3..5].to_vec());
    assert_eq!(next, Some(78));
}

#[test]
fn for_each_of_nothing() {
    let amt = Amt::new(MemoryBlockstore::new());
    assert_eq!(amt.for_each().unwrap(), vec![]);
    assert_eq!(amt.next_index(0).unwrap(), None);
    assert_eq!(amt.for_each_while(|_, _| true).unwrap(), vec![]);
}

#[test]
fn for_each_while_stops_where_told() {
    let amt = sparse();
    let seen = amt.for_each_while(|i, _| i < 5).unwrap();
    assert_eq!(seen, vec![(1, b("One")), (4, b("Four")), (5, b("Five"))]);
    let all = amt.for_each_while(|_, v| !v.is_empty()).unwrap();
    assert_eq!(all.len(), 5);
    assert_eq!(all, amt.for_each().unwrap());
}

#[test]
fn for_each_while_ranged_stops_and_looks_ahead() {
    let amt = sparse();
    let (seen, next) = amt.for_each_while_ranged(Some(2), Some(10), |i, _| i != 5).unwrap();
    assert_eq!(seen, vec![(4, b("Four")), (5, b("Five"))]);
    assert_eq!(next, Some(6));

    let (seen, next) = amt.for_each_while_ranged(None, Some(2), |_, _| true).unwrap();
    assert_eq!(seen, vec![(1, b("One")), (4, b("Four"))]);
    assert_eq!(next, Some(5));

    let (seen, next) = amt.for_each_while_ranged(Some(6), None, |_, _| true).unwrap();
    assert_eq!(seen, vec![(6, b("Six")), (10, b("Ten"))]);
    assert_eq!(next, None);

    let (seen, next) = amt.for_each_while_ranged(Some(6), Some(0), |_, _| true).unwrap();
    assert_eq!(seen, vec![]);
    assert_eq!(next, Some(6));
}

#[test]
fn for_each_mut_replaces_what_it_is_given() {
    let mut amt = sparse();
    let cid = amt.flush().unwrap();
    // nothing replaced: the trie stays as it was written
    amt.for_each_mut(|_, _| None).unwrap();
    assert_eq!(amt.flushed_cid, Some(cid.clone()));

    amt.for_each_mut(|i, v| if i % 2 == 0 { Some([v.as_slice(), b"!"].concat()) } else { None })
        .unwrap();
    assert_eq!(amt.flushed_cid, None);
    assert_eq!(amt.count(), 5);
    assert_eq!(
        amt.for_each().unwrap(),
        vec![(1, b("One")), (4, b("Four!")), (5, b("Five")), (6, b("Six!")), (10, b("Ten!"))]
    );
    assert!(amt.flush().unwrap() != cid);
}

#[test]
fn for_each_while_mut_stops_where_told() {
    let mut amt = sparse();
    amt.for_each_while_mut(|i, _| (Some(vec![i as u8]), i < 5)).unwrap();
    assert_eq!(
        amt.for_each().unwrap(),
        vec![(1, vec![1]), (4, vec![4]), (5, vec![5]), (6, b("Six")), (10, b("Ten"))]
    );
}

#[test]
fn batch_delete_sorts_and_passes_over_repeats() {
    let mut amt = Amt::new(MemoryBlockstore::new());
    amt.set(3, b("three")).unwrap();
    amt.set(5, b("five")).unwrap();
    amt.set(9, b("nine")).unwrap();
    assert_eq!(amt.batch_delete(vec![5, 3, 5], true), Ok(true));
    assert_eq!(amt.for_each().unwrap(), vec![(9, b("nine"))]);
    assert_eq!(amt.count(), 1);

    // not strict: what is absent is passed over
    assert_eq!(amt.batch_delete(vec![5, 3, 5], false), Ok(false));
    assert_eq!(amt.batch_delete(vec![1, 9, 9, 1], false), Ok(true));
    assert_eq!(amt.count(), 0);
    assert_eq!(amt.batch_delete(vec![], true), Ok(false));
}

#[test]
fn strict_batch_delete_wants_every_index() {
    let mut amt = five();
    assert_eq!(amt.batch_delete(vec![4, 7, 0, 2], true), Err(Error::NotFound(7)));
    // in ascending order: 0, 2 and 4 went before 7 was missed
    assert_eq!(amt.for_each().unwrap(), vec![(1, b("b")), (3, b("d"))]);
    assert_eq!(
        amt.batch_delete(vec![1, MAX_INDEX + 1], false),
        Err(Error::OutOfRange(MAX_INDEX + 1))
    );
    assert_eq!(amt.for_each().unwrap(), vec![(3, b("d"))]);
}

#[test]
fn new_from_iter_is_batch_set_and_flush() {
    let vals = vec![b("a"), b("b"), b("c"), b("d"), b("e"), b("f"), b("g"), b("h"), b("i")];
    let (cid, store) = Amt::new_from_iter(MemoryBlockstore::new(), vals.clone());
    let cid = cid.unwrap();
    let mut amt = Amt::new(MemoryBlockstore::new());
    amt.batch_set(vals.clone()).unwrap();
    assert_eq!(amt.flush().unwrap(), cid);

    let loaded = Amt::load(&cid, store).unwrap();
    assert_eq!(loaded.count(), 9);
    assert_eq!(loaded.height(), 1);
    let expected: Vec<(u64, Vec<u8>)> =
        vals.iter().enumerate().map(|(i, v)| (i as u64, v.clone())).collect();
    assert_eq!(loaded.for_each().unwrap(), expected);

    let (wide, store) =
        Amt::new_from_iter_with_bit_width(MemoryBlockstore::new(), 5, vals.clone());
    let wide = wide.unwrap();
    assert!(wide != cid);
    let loaded = Amt::load(&wide, store).unwrap();
    assert_eq!(loaded.bit_width(), 5);
    assert_eq!(loaded.height(), 0);
    assert_eq!(loaded.for_each().unwrap(), expected);

    let (legacy, store) = Amtv0::new_from_iter(MemoryBlockstore::new(), vals);
    let loaded = Amtv0::load(&legacy.unwrap(), store).unwrap();
    assert_eq!(loaded.for_each().unwrap(), expected);
}

#[test]
fn iteration_reports_what_is_missing() {
    let mut amt = Amt::new(MemoryBlockstore::new());
    amt.set(1, b("low")).unwrap();
    amt.set(9_000, b("high")).unwrap();
    let cid = amt.flush().unwrap();
    let full = amt.into_store();
    let mut bare = MemoryBlockstore::new();
    bare.put_keyed(&cid, &full.get(&cid).unwrap().unwrap()).unwrap();
    let loaded = Amt::load(&cid, bare).unwrap();
    assert!(matches!(loaded.for_each(), Err(Error::CidNotFound(_))));
    // the child with index 9000 holds the indices from 8192 up to 12287
    assert!(matches!(loaded.for_each_ranged(Some(9_001), None), Err(Error::CidNotFound(_))));
    assert_eq!(loaded.for_each_ranged(Some(12_288), None), Ok((vec![], None)));
}
