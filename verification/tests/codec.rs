use ipld_amt::cbor::{read_head, write_head};
use ipld_amt::codec::{decode_node, encode_node, CollapsedNode};
use ipld_amt::content_id::Cid;
use ipld_amt::error::Error;
use ipld_amt::node::{Link, Node};
use ipld_amt::root::{Root, VersionV0, VersionV3};
use serde_bytes::ByteBuf;

fn head(major: u8, arg: u64) -> Vec<u8> {
    let mut out = Vec::new();
    write_head(&mut out, major, arg);
    out
}

#[test]
fn serialize_symmetric() {
    let mut root: Root<VersionV3> = Root::new(0);
    root.height = 2;
    root.count = 1;
    root.node = Node::Leaf { vals: vec![None] };
    let rbz = root.encode();
    assert_eq!(Root::<VersionV3>::decode(&rbz).unwrap(), root);
}

#[test]
fn heads_are_shortest() {
    assert_eq!(head(0, 0), vec![0x00]);
    assert_eq!(head(0, 23), vec![0x17]);
    assert_eq!(head(0, 24), vec![0x18, 0x18]);
    assert_eq!(head(2, 255), vec![0x58, 0xff]);
    assert_eq!(head(4, 256), vec![0x99, 0x01, 0x00]);
    assert_eq!(head(0, 65_535), vec![0x19, 0xff, 0xff]);
    assert_eq!(head(0, 65_536), vec![0x1a, 0x00, 0x01, 0x00, 0x00]);
    assert_eq!(head(6, 42), vec![0xd8, 0x2a]);
    assert_eq!(
        head(0, u64::MAX),
        vec![0x1b, 0xff, 0xff, 0xff, 0xff, 0xff, 0xff, 0xff, 0xff]
    );
    for arg in [0u64, 1, 23, 24, 255, 256, 65_535, 65_536, 1 << 32, u64::MAX] {
        let bytes = head(4, arg);
        let h = read_head(&bytes, 0).unwrap();
        assert_eq!((h.major, h.arg, h.next), (4, arg, bytes.len()));
    }
    // longer than it has to be
    assert!(read_head(&[0x18, 0x17], 0).is_none());
    assert!(read_head(&[0x19, 0x00, 0xff], 0).is_none());
    // cut short, and reserved
    assert!(read_head(&[0x19, 0x01], 0).is_none());
    assert!(read_head(&[0x1c], 0).is_none());
    assert!(read_head(&[0x5f], 0).is_none());
    assert!(read_head(&[], 0).is_none());
}

#[test]
fn node_bytes_are_dag_cbor() {
    let values = CollapsedNode {
        bmap: vec![0b0000_0101],
        links: false,
        items: vec![b"foo".to_vec(), vec![0u8; 30]],
    };
    let expected = serde_ipld_dagcbor::to_vec(&(
        ByteBuf::from(vec![0b0000_0101u8]),
        vec![ByteBuf::from(b"foo".to_vec()), ByteBuf::from(vec![0u8; 30])],
    ))
    .unwrap();
    assert_eq!(encode_node(&values), expected);
    assert_eq!(decode_node(&expected), Some(values));

    let a = Cid::of_block(b"a");
    let b = Cid::of_block(b"b");
    let links = CollapsedNode {
        bmap: vec![0b1000_0001],
        links: true,
        items: vec![a.to_bytes(), b.to_bytes()],
    };
    let expected = serde_ipld_dagcbor::to_vec(&(
        ByteBuf::from(vec![0b1000_0001u8]),
        vec![
            cid::Cid::try_from(a.to_bytes()).unwrap(),
            cid::Cid::try_from(b.to_bytes()).unwrap(),
        ],
    ))
    .unwrap();
    assert_eq!(encode_node(&links), expected);
    assert_eq!(decode_node(&expected), Some(links));

    let empty = CollapsedNode { bmap: vec![0], links: false, items: vec![] };
    assert_eq!(encode_node(&empty), vec![0x82, 0x41, 0x00, 0x80]);
    assert_eq!(decode_node(&[0x82, 0x41, 0x00, 0x80]), Some(empty));
}

#[test]
fn root_bytes_are_dag_cbor() {
    let mut root: Root<VersionV3> = Root::new(3);
    root.height = 0;
    root.count = 2;
    root.node = Node::Leaf {
        vals: vec![Some(b"x".to_vec()), None, None, None, None, None, None, Some(b"y".to_vec())],
    };
    let node = (
        ByteBuf::from(vec![0b1000_0001u8]),
        vec![ByteBuf::from(b"x".to_vec()), ByteBuf::from(b"y".to_vec())],
    );
    let expected = serde_ipld_dagcbor::to_vec(&(3u32, 0u32, 2u64, &node)).unwrap();
    assert_eq!(root.encode(), expected);

    let mut legacy: Root<VersionV0> = Root::new(3);
    legacy.count = 2;
    legacy.node = Node::Leaf {
        vals: vec![Some(b"x".to_vec()), None, None, None, None, None, None, Some(b"y".to_vec())],
    };
    let expected0 = serde_ipld_dagcbor::to_vec(&(0u32, 2u64, &node)).unwrap();
    assert_eq!(legacy.encode(), expected0);

    assert_eq!(Root::<VersionV0>::decode(&expected).err(), Some(Error::InvalidEncoding));
    assert_eq!(Root::<VersionV3>::decode(&expected0).err(), Some(Error::InvalidEncoding));
    assert_eq!(Root::<VersionV0>::decode(&expected0).unwrap(), legacy);
}

#[test]
fn decode_refuses_what_encode_never_writes() {
    // trailing byte
    assert_eq!(decode_node(&[0x82, 0x41, 0x00, 0x80, 0x00]), None);
    // three fields
    assert_eq!(decode_node(&[0x83, 0x41, 0x00, 0x80, 0x80]), None);
    // bitmap as text
    assert_eq!(decode_node(&[0x82, 0x61, 0x00, 0x80]), None);
    // fewer items than announced
    assert_eq!(decode_node(&[0x82, 0x41, 0x01, 0x82, 0x41, 0x07]), None);
    // a number among the values
    assert_eq!(decode_node(&[0x82, 0x41, 0x01, 0x81, 0x07]), None);
    // a link that is no identifier
    assert_eq!(decode_node(&[0x82, 0x41, 0x01, 0x81, 0xd8, 0x2a, 0x42, 0x00, 0x09]), None);
    // a link without the zero byte in front
    let cid = Cid::of_block(b"a").to_bytes();
    let mut bytes = vec![0x82, 0x41, 0x01, 0x81, 0xd8, 0x2a, 0x58, cid.len() as u8 + 1, 0x01];
    bytes.extend_from_slice(&cid);
    assert_eq!(decode_node(&bytes), None);
    bytes[8] = 0x00;
    assert_eq!(
        decode_node(&bytes),
        Some(CollapsedNode { bmap: vec![1], links: true, items: vec![cid] })
    );
}

#[test]
fn expand_checks_the_bitmap_against_the_items() {
    let two = CollapsedNode {
        bmap: vec![0b0000_0110],
        links: false,
        items: vec![b"a".to_vec(), b"b".to_vec()],
    };
    assert_eq!(
        two.expand(3).unwrap(),
        Node::Leaf {
            vals: vec![None, Some(b"a".to_vec()), Some(b"b".to_vec()), None, None, None, None, None]
        }
    );
    assert_eq!(two.expand(3).unwrap().collapse(3), two);
    // bit width 1: two slots, and the bit of slot 2 is past them
    assert_eq!(two.expand(1).err(), Some(Error::InvalidEncoding));
    // bit width 4 wants two bytes of bitmap
    assert_eq!(two.expand(4).err(), Some(Error::InvalidEncoding));
    let short = CollapsedNode { bmap: vec![0b0000_0111], links: false, items: vec![b"a".to_vec()] };
    assert_eq!(short.expand(3).err(), Some(Error::InvalidEncoding));
    let long = CollapsedNode {
        bmap: vec![0b0000_0001],
        links: false,
        items: vec![b"a".to_vec(), b"b".to_vec()],
    };
    assert_eq!(long.expand(3).err(), Some(Error::InvalidEncoding));

    let cid = Cid::of_block(b"child");
    let link = CollapsedNode { bmap: vec![0, 0b0000_0010], links: true, items: vec![cid.to_bytes()] };
    match link.expand(4).unwrap() {
        Node::Link { links } => {
            assert_eq!(links.len(), 16);
            for (i, slot) in links.iter().enumerate() {
                if i == 9 {
                    assert_eq!(*slot, Some(Link::Cid { cid: cid.clone(), cache: None }));
                } else {
                    assert_eq!(*slot, None);
                }
            }
        }
        Node::Leaf { .. } => panic!("links expand to a node of links"),
    }
}
