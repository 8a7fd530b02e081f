use ipld_amt::amt::{Amt, Amtv0};
use ipld_amt::content_id::Cid;
use ipld_amt::error::Error;
use ipld_amt::index::{max_height, nodes_for_height, MAX_INDEX};
use ipld_amt::node::Node;
use ipld_amt::store::{Blockstore, MemoryBlockstore};

fn b(s: &str) -> Vec<u8> {
    s.as_bytes().to_vec()
}

#[test]
fn set_set_delete() {
    let mut amt = Amt::new(MemoryBlockstore::new());
    amt.set(2, b("foo")).unwrap();
    amt.set(1, b("bar")).unwrap();
    assert_eq!(amt.delete(2).unwrap(), Some(b("foo")));
    assert_eq!(amt.count(), 1);
    assert_eq!(amt.get(1).unwrap(), Some(b("bar")));
    assert_eq!(amt.get(2).unwrap(), None);
    amt.flush().unwrap();
}

#[test]
fn eight_values_fill_one_leaf() {
    let mut amt = Amt::new_with_bit_width(MemoryBlockstore::new(), 3);
    for i in 0..=7u64 {
        amt.set(i, vec![i as u8]).unwrap();
    }
    assert_eq!(amt.height(), 0);
    assert_eq!(amt.count(), 8);
    assert!(matches!(amt.root.node, Node::Leaf { .. }));
    amt.set(8, vec![8]).unwrap();
    assert_eq!(amt.height(), 1);
    assert_eq!(amt.count(), 9);
    for i in 0..=8u64 {
        assert_eq!(amt.get(i).unwrap(), Some(vec![i as u8]));
    }
    assert_eq!(amt.get(9).unwrap(), None);
}

#[test]
fn far_index_grows_and_delete_collapses() {
    let mut amt = Amt::new(MemoryBlockstore::new());
    amt.set(1_000_000, b("x")).unwrap();
    // 8^6 <= 1_000_000 < 8^7
    assert_eq!(amt.height(), 6);
    assert_eq!(amt.count(), 1);
    let cid = amt.flush().unwrap();
    let store = amt.into_store();

    let mut loaded = Amt::load(&cid, store).unwrap();
    assert_eq!(loaded.height(), 6);
    assert_eq!(loaded.get(1_000_000).unwrap(), Some(b("x")));
    assert_eq!(loaded.delete(1_000_000).unwrap(), Some(b("x")));
    assert_eq!(loaded.height(), 0);
    assert_eq!(loaded.count(), 0);
    assert!(matches!(loaded.root.node, Node::Leaf { .. }));
    assert!(loaded.root.node.is_empty());
    let emptied = loaded.flush().unwrap();

    let mut empty = Amt::new(MemoryBlockstore::new());
    assert_eq!(emptied, empty.flush().unwrap());
}

#[test]
fn order_of_insertion_does_not_show() {
    let mut a = Amt::new(MemoryBlockstore::new());
    a.set(0, b("x")).unwrap();
    a.set(7, b("y")).unwrap();
    let cid_a = a.flush().unwrap();

    let mut b_amt = Amt::new(MemoryBlockstore::new());
    b_amt.set(7, b("y")).unwrap();
    b_amt.set(0, b("x")).unwrap();
    let cid_b = b_amt.flush().unwrap();
    assert_eq!(cid_a, cid_b);

    let mut c = Amt::new(MemoryBlockstore::new());
    c.set(7, b("y")).unwrap();
    c.set(0, b("z")).unwrap();
    assert!(cid_a != c.flush().unwrap());
}

#[test]
fn order_of_insertion_does_not_show_in_a_high_trie() {
    let entries: Vec<(u64, Vec<u8>)> =
        vec![(3, b("a")), (70, b("b")), (5000, b("c")), (71, b("d")), (MAX_INDEX, b("e"))];
    let mut a = Amt::new(MemoryBlockstore::new());
    for (i, v) in entries.iter() {
        a.set(*i, v.clone()).unwrap();
    }
    let mut r = Amt::new(MemoryBlockstore::new());
    for (i, v) in entries.iter().rev() {
        r.set(*i, v.clone()).unwrap();
    }
    assert_eq!(a.height(), r.height());
    assert_eq!(a.flush().unwrap(), r.flush().unwrap());
}

#[test]
fn flush_load_round_trip() {
    let mut amt = Amt::new_with_bit_width(MemoryBlockstore::new(), 2);
    let indices: Vec<u64> = vec![0, 1, 5, 17, 300, 301, 4096, 1 << 40, MAX_INDEX];
    for i in indices.iter() {
        amt.set(*i, i.to_be_bytes().to_vec()).unwrap();
    }
    let cid = amt.flush().unwrap();
    let height = amt.height();
    let loaded = Amt::load(&cid, amt.into_store()).unwrap();
    assert_eq!(loaded.bit_width(), 2);
    assert_eq!(loaded.height(), height);
    assert_eq!(loaded.count(), indices.len() as u64);
    for i in indices.iter() {
        assert_eq!(loaded.get(*i).unwrap(), Some(i.to_be_bytes().to_vec()));
        if *i < MAX_INDEX && !indices.contains(&(*i + 1)) {
            assert_eq!(loaded.get(*i + 1).unwrap(), None);
        }
    }
    assert_eq!(loaded.get(2).unwrap(), None);
    assert_eq!(loaded.get(1 << 50).unwrap(), None);
}

#[test]
fn flush_twice_writes_nothing_more() {
    let mut amt = Amt::new(MemoryBlockstore::new());
    amt.set(9, b("nine")).unwrap();
    let first = amt.flush().unwrap();
    let written = amt.store().len();
    assert_eq!(written, 2);
    let second = amt.flush().unwrap();
    assert_eq!(first, second);
    assert_eq!(amt.store().len(), written);
    amt.set(9, b("ten")).unwrap();
    assert!(amt.flush().unwrap() != first);
    assert!(amt.store().len() > written);
}

#[test]
fn out_of_range_is_refused_and_changes_nothing() {
    let mut amt = Amt::new(MemoryBlockstore::new());
    amt.set(3, b("three")).unwrap();
    let cid = amt.flush().unwrap();
    assert_eq!(amt.set(MAX_INDEX + 1, b("no")), Err(Error::OutOfRange(MAX_INDEX + 1)));
    assert_eq!(amt.get(MAX_INDEX + 1), Err(Error::OutOfRange(MAX_INDEX + 1)));
    assert_eq!(amt.delete(MAX_INDEX + 1), Err(Error::OutOfRange(MAX_INDEX + 1)));
    assert_eq!(amt.get(u64::MAX), Err(Error::OutOfRange(u64::MAX)));
    assert_eq!(amt.count(), 1);
    assert_eq!(amt.height(), 0);
    assert_eq!(amt.flushed_cid, Some(cid));
    assert_eq!(amt.get(MAX_INDEX).unwrap(), None);
}

#[test]
fn count_follows_sets_and_deletes() {
    let mut amt = Amt::new(MemoryBlockstore::new());
    amt.set(5, b("a")).unwrap();
    amt.set(5, b("b")).unwrap();
    assert_eq!(amt.count(), 1);
    amt.set(600, b("c")).unwrap();
    assert_eq!(amt.count(), 2);
    assert_eq!(amt.delete(7).unwrap(), None);
    assert_eq!(amt.delete(1 << 30).unwrap(), None);
    assert_eq!(amt.count(), 2);
    assert_eq!(amt.delete(5).unwrap(), Some(b("b")));
    assert_eq!(amt.delete(5).unwrap(), None);
    assert_eq!(amt.count(), 1);
    assert_eq!(amt.delete(600).unwrap(), Some(b("c")));
    assert_eq!(amt.count(), 0);
    assert_eq!(amt.height(), 0);
}

#[test]
fn height_comes_down_with_the_highest_index() {
    let mut amt = Amt::new(MemoryBlockstore::new());
    for i in [1u64, 9, 100, 70_000] {
        amt.set(i, b("v")).unwrap();
    }
    assert_eq!(amt.height(), 5);
    amt.delete(70_000).unwrap();
    assert_eq!(amt.height(), 2);
    amt.delete(100).unwrap();
    assert_eq!(amt.height(), 1);
    amt.delete(9).unwrap();
    assert_eq!(amt.height(), 0);
    amt.delete(1).unwrap();
    assert_eq!(amt.height(), 0);
    assert_eq!(amt.count(), 0);
}

#[test]
fn collapse_reads_what_is_not_in_memory() {
    let mut amt = Amt::new(MemoryBlockstore::new());
    amt.set(1, b("low")).unwrap();
    amt.set(9_000, b("high")).unwrap();
    let cid = amt.flush().unwrap();
    let mut loaded = Amt::load(&cid, amt.into_store()).unwrap();
    assert_eq!(loaded.delete(9_000).unwrap(), Some(b("high")));
    assert_eq!(loaded.height(), 0);
    assert_eq!(loaded.get(1).unwrap(), Some(b("low")));
    assert_eq!(loaded.flushed_cid, None);

    let mut single = Amt::new(MemoryBlockstore::new());
    single.set(1, b("low")).unwrap();
    assert_eq!(loaded.flush().unwrap(), single.flush().unwrap());
}

#[test]
fn missing_block_is_reported_and_nothing_changes() {
    let mut amt = Amt::new(MemoryBlockstore::new());
    amt.set(1, b("low")).unwrap();
    amt.set(9_000, b("high")).unwrap();
    let cid = amt.flush().unwrap();
    let full = amt.into_store();
    // A store with the root alone.
    let mut bare = MemoryBlockstore::new();
    bare.put_keyed(&cid, &full.get(&cid).unwrap().unwrap()).unwrap();

    let mut loaded = Amt::load(&cid, bare).unwrap();
    assert!(matches!(loaded.get(1), Err(Error::CidNotFound(_))));
    assert!(matches!(loaded.set(1, b("other")), Err(Error::CidNotFound(_))));
    assert!(matches!(loaded.delete(9_000), Err(Error::CidNotFound(_))));
    assert_eq!(loaded.get(1 << 20).unwrap(), None);
    assert_eq!(loaded.count(), 2);
    assert_eq!(loaded.height(), 4);
    assert_eq!(loaded.flush().unwrap(), cid);

    let unknown = Cid::of_block(b"nothing under this");
    assert_eq!(
        Amt::load(&unknown, MemoryBlockstore::new()).err(),
        Some(Error::CidNotFound(unknown))
    );
}

#[test]
fn versions_do_not_read_one_another() {
    let mut v3 = Amt::new(MemoryBlockstore::new());
    v3.set(4, b("four")).unwrap();
    let cid3 = v3.flush().unwrap();
    let store3 = v3.into_store();
    assert_eq!(Amtv0::load(&cid3, store3).err(), Some(Error::InvalidEncoding));

    let mut v0 = Amtv0::new(MemoryBlockstore::new());
    v0.set(4, b("four")).unwrap();
    let cid0 = v0.flush().unwrap();
    assert!(cid0 != cid3);
    let store0 = v0.into_store();
    let bytes0 = store0.get(&cid0).unwrap().unwrap();
    assert_eq!(Amt::load(&cid0, store0).err(), Some(Error::InvalidEncoding));

    let mut again = MemoryBlockstore::new();
    again.put_keyed(&cid0, &bytes0).unwrap();
    let back = Amtv0::load(&cid0, again).unwrap();
    assert_eq!(back.bit_width(), 3);
    assert_eq!(back.get(4).unwrap(), Some(b("four")));
}

#[test]
fn load_checks_height_and_bit_width() {
    // [bit_width 3, height 23, count 0, [h'00', []]]
    let too_high: Vec<u8> = vec![0x84, 0x03, 0x17, 0x00, 0x82, 0x41, 0x00, 0x80];
    let cid = Cid::of_block(&too_high);
    let mut store = MemoryBlockstore::new();
    store.put_keyed(&cid, &too_high).unwrap();
    assert_eq!(Amt::load(&cid, store).err(), Some(Error::MaxHeight(23, 22)));

    // [bit_width 3, height 22, count 0, [h'00', []]]
    let highest: Vec<u8> = vec![0x84, 0x03, 0x16, 0x00, 0x82, 0x41, 0x00, 0x80];
    let cid = Cid::of_block(&highest);
    let mut store = MemoryBlockstore::new();
    store.put_keyed(&cid, &highest).unwrap();
    let mut amt = Amt::load(&cid, store).unwrap();
    assert_eq!(amt.height(), 22);
    assert_eq!(amt.get(MAX_INDEX).unwrap(), None);
    amt.set(MAX_INDEX, b("top")).unwrap();
    assert_eq!(amt.get(MAX_INDEX).unwrap(), Some(b("top")));
    assert_eq!(amt.get(0).unwrap(), None);

    // [bit_width 0, height 0, count 0, [h'00', []]]
    let no_width: Vec<u8> = vec![0x84, 0x00, 0x00, 0x00, 0x82, 0x41, 0x00, 0x80];
    let cid = Cid::of_block(&no_width);
    let mut store = MemoryBlockstore::new();
    store.put_keyed(&cid, &no_width).unwrap();
    assert_eq!(Amt::load(&cid, store).err(), Some(Error::InvalidEncoding));

    // not CBOR at all
    let noise: Vec<u8> = vec![0xff, 0x00];
    let cid = Cid::of_block(&noise);
    let mut store = MemoryBlockstore::new();
    store.put_keyed(&cid, &noise).unwrap();
    assert_eq!(Amt::load(&cid, store).err(), Some(Error::Codec));
}

#[test]
fn index_arithmetic() {
    assert_eq!(nodes_for_height(3, 0), 1);
    assert_eq!(nodes_for_height(3, 1), 8);
    assert_eq!(nodes_for_height(3, 7), 2_097_152);
    assert_eq!(nodes_for_height(3, 21), 1 << 63);
    assert_eq!(nodes_for_height(3, 22), u64::MAX);
    assert_eq!(nodes_for_height(8, 8), u64::MAX);
    assert_eq!(max_height(3), 22);
    assert_eq!(max_height(1), 64);
    assert_eq!(max_height(8), 8);
    assert_eq!(MAX_INDEX, (1u64 << 63) - 1);
}

#[test]
fn every_bit_width_holds_its_values() {
    for w in 1..=8u32 {
        let mut amt = Amt::new_with_bit_width(MemoryBlockstore::new(), w);
        let indices: Vec<u64> = vec![0, 1, 2, 255, 256, 257, 65_535, 1 << 33, MAX_INDEX];
        for i in indices.iter() {
            amt.set(*i, vec![w as u8, (*i % 251) as u8]).unwrap();
        }
        let cid = amt.flush().unwrap();
        let mut loaded = Amt::load(&cid, amt.into_store()).unwrap();
        assert_eq!(loaded.count(), indices.len() as u64);
        for i in indices.iter() {
            assert_eq!(loaded.get(*i).unwrap(), Some(vec![w as u8, (*i % 251) as u8]));
        }
        for i in indices.iter() {
            assert!(loaded.delete(*i).unwrap().is_some());
        }
        assert_eq!(loaded.count(), 0);
        assert_eq!(loaded.height(), 0);
    }
}
