//! The bytes of a node: a bitmap of its occupied slots and what those slots
//! hold, in the order of the slots.

use crate::cbor::{
    head, lemma_head_len, lemma_parse_head, parse_head, read_head, write_head, MAJOR_ARRAY,
    MAJOR_BYTES, MAJOR_TAG, TAG_LINK,
};
use crate::content_id::{cid_prefix, is_cid, Cid};
use vstd::prelude::*;

verus! {

/// A node as it is written: the bitmap, whether the items are links, and the
/// items. A node without items counts as a node of values.
#[derive(Debug, PartialEq)]
pub struct CollapsedNode {
    pub bmap: Vec<u8>,
    pub links: bool,
    pub items: Vec<Vec<u8>>,
}

/// A written node as contracts speak of it.
pub struct Collapsed {
    pub bmap: Seq<u8>,
    pub links: bool,
    pub items: Seq<Seq<u8>>,
}

/// The items as contracts speak of them.
pub open spec fn items_view(items: Seq<Vec<u8>>) -> Seq<Seq<u8>> {
    Seq::new(items.len(), |i: int| items[i]@)
}

impl View for CollapsedNode {
    type V = Collapsed;

    open spec fn view(&self) -> Collapsed {
        Collapsed { bmap: self.bmap@, links: self.links, items: items_view(self.items@) }
    }
}

/// A byte string as it is written.
pub open spec fn bytes_item(x: Seq<u8>) -> Seq<u8> {
    head(MAJOR_BYTES, x.len() as u64) + x
}

/// A link as it is written: the tag, then the identifier behind a zero byte.
pub open spec fn link_item(cid: Seq<u8>) -> Seq<u8> {
    head(MAJOR_TAG, TAG_LINK) + bytes_item(seq![0u8] + cid)
}

/// An item as it is written: a link or a byte string.
pub open spec fn item_bytes(links: bool, x: Seq<u8>) -> Seq<u8> {
    if links {
        link_item(x)
    } else {
        bytes_item(x)
    }
}

/// Items as they are written, one after the other.
pub open spec fn items_bytes(links: bool, xs: Seq<Seq<u8>>) -> Seq<u8>
    decreases xs.len(),
{
    if xs.len() == 0 {
        Seq::empty()
    } else {
        item_bytes(links, xs[0]) + items_bytes(links, xs.drop_first())
    }
}

/// A node as it is written: an array of the bitmap and the array of the items.
pub open spec fn node_bytes(c: Collapsed) -> Seq<u8> {
    head(MAJOR_ARRAY, 2) + bytes_item(c.bmap) + head(MAJOR_ARRAY, c.items.len() as u64)
        + items_bytes(c.links, c.items)
}

/// What `node_bytes` can write and `decode_node` gives back: items that fit,
/// links that are identifiers, and no links without items.
pub open spec fn writable(c: Collapsed) -> bool {
    &&& c.bmap.len() < u64::MAX
    &&& c.items.len() <= u64::MAX
    &&& forall|i: int| 0 <= i < c.items.len() ==> (#[trigger] c.items[i]).len() < u64::MAX - 1
    &&& c.links ==> c.items.len() > 0
    &&& c.links ==> forall|i: int| 0 <= i < c.items.len() ==> is_cid(#[trigger] c.items[i])
}

/// What was read at some place, and where it ends.
pub struct Parsed<T> {
    pub value: T,
    pub next: int,
}

/// The byte string that `bytes` holds at `pos`.
pub open spec fn parse_bytes(bytes: Seq<u8>, pos: int) -> Option<Parsed<Seq<u8>>> {
    match parse_head(bytes, pos) {
        Some(h) => if h.major == MAJOR_BYTES && h.next + h.arg <= bytes.len() {
            Some(
                Parsed { value: bytes.subrange(h.next as int, h.next + h.arg), next: h.next + h.arg },
            )
        } else {
            None
        },
        None => None,
    }
}

/// The identifier of the link that `bytes` holds at `pos`, in its binary form.
/// What follows the identifier inside its byte string is passed over.
pub open spec fn parse_link(bytes: Seq<u8>, pos: int) -> Option<Parsed<Seq<u8>>> {
    match parse_head(bytes, pos) {
        Some(h) => if h.major == MAJOR_TAG && h.arg == TAG_LINK {
            match parse_bytes(bytes, h.next as int) {
                Some(p) => if p.value.len() > 0 && p.value[0] == 0 {
                    match cid_prefix(p.value.skip(1)) {
                        Some(cid) => if is_cid(cid) {
                            Some(Parsed { value: cid, next: p.next })
                        } else {
                            None
                        },
                        None => None,
                    }
                } else {
                    None
                },
                None => None,
            }
        } else {
            None
        },
        None => None,
    }
}

/// The item that `bytes` holds at `pos`: a link or a byte string.
pub open spec fn parse_item(links: bool, bytes: Seq<u8>, pos: int) -> Option<Parsed<Seq<u8>>> {
    if links {
        parse_link(bytes, pos)
    } else {
        parse_bytes(bytes, pos)
    }
}

/// The `n` items that `bytes` holds from `pos` on, behind those already read.
pub open spec fn parse_items(links: bool, bytes: Seq<u8>, pos: int, n: nat, read: Seq<Seq<u8>>)
    -> Option<Parsed<Seq<Seq<u8>>>>
    decreases n,
{
    if n == 0 {
        Some(Parsed { value: read, next: pos })
    } else {
        match parse_item(links, bytes, pos) {
            Some(p) => parse_items(links, bytes, p.next, (n - 1) as nat, read.push(p.value)),
            None => None,
        }
    }
}

/// The node that `bytes` holds at `pos`.
pub open spec fn parse_node(bytes: Seq<u8>, pos: int) -> Option<Parsed<Collapsed>> {
    match parse_head(bytes, pos) {
        Some(outer) => if outer.major == MAJOR_ARRAY && outer.arg == 2 {
            match parse_bytes(bytes, outer.next as int) {
                Some(bmap) => match parse_head(bytes, bmap.next) {
                    Some(inner) => if inner.major == MAJOR_ARRAY {
                        let links = inner.arg > 0 && (match parse_head(bytes, inner.next as int) {
                            Some(first) => first.major == MAJOR_TAG,
                            None => false,
                        });
                        match parse_items(
                            links,
                            bytes,
                            inner.next as int,
                            inner.arg as nat,
                            Seq::empty(),
                        ) {
                            Some(items) => Some(
                                Parsed {
                                    value: Collapsed { bmap: bmap.value, links, items: items.value },
                                    next: items.next,
                                },
                            ),
                            None => None,
                        }
                    } else {
                        None
                    },
                    None => None,
                },
                None => None,
            }
        } else {
            None
        },
        None => None,
    }
}

/// The node that `bytes` are the writing of, with nothing behind it.
pub open spec fn decode_node_spec(bytes: Seq<u8>) -> Option<Collapsed> {
    match parse_node(bytes, 0) {
        Some(p) => if p.next == bytes.len() {
            Some(p.value)
        } else {
            None
        },
        None => None,
    }
}

/// Where `a + rest` stands at `pos`, `a` stands at `pos` and `rest` behind it.
pub proof fn lemma_concat_at(bytes: Seq<u8>, pos: int, a: Seq<u8>, rest: Seq<u8>)
    requires
        0 <= pos,
        pos + a.len() + rest.len() <= bytes.len(),
        bytes.subrange(pos, pos + a.len() + rest.len()) == a + rest,
    ensures
        bytes.subrange(pos, pos + a.len()) == a,
        bytes.subrange(pos + a.len(), pos + a.len() + rest.len()) == rest,
{
    let whole = bytes.subrange(pos, pos + a.len() + rest.len());
    assert(bytes.subrange(pos, pos + a.len()) =~= a) by {
        assert forall|k: int| 0 <= k < a.len() implies bytes.subrange(pos, pos + a.len())[k]
            == a[k] by {
            assert(whole[k] == (a + rest)[k]);
        }
    }
    assert(bytes.subrange(pos + a.len(), pos + a.len() + rest.len()) =~= rest) by {
        assert forall|k: int| 0 <= k < rest.len() implies bytes.subrange(
            pos + a.len(),
            pos + a.len() + rest.len(),
        )[k] == rest[k] by {
            assert(whole[a.len() + k] == (a + rest)[a.len() + k]);
        }
    }
}

/// A byte string written is the byte string read.
pub proof fn lemma_parse_bytes(bytes: Seq<u8>, pos: int, x: Seq<u8>)
    requires
        0 <= pos,
        x.len() <= u64::MAX,
        pos + bytes_item(x).len() <= bytes.len() <= usize::MAX,
        bytes.subrange(pos, pos + bytes_item(x).len()) == bytes_item(x),
    ensures
        parse_bytes(bytes, pos) == Some(Parsed { value: x, next: pos + bytes_item(x).len() }),
{
    let h = head(MAJOR_BYTES, x.len() as u64);
    lemma_head_len(MAJOR_BYTES, x.len() as u64);
    lemma_concat_at(bytes, pos, h, x);
    lemma_parse_head(bytes, pos, MAJOR_BYTES, x.len() as u64);
}

/// A link written is the link read.
pub proof fn lemma_parse_link(bytes: Seq<u8>, pos: int, cid: Seq<u8>)
    requires
        0 <= pos,
        is_cid(cid),
        cid.len() < u64::MAX,
        pos + link_item(cid).len() <= bytes.len() <= usize::MAX,
        bytes.subrange(pos, pos + link_item(cid).len()) == link_item(cid),
    ensures
        parse_link(bytes, pos) == Some(Parsed { value: cid, next: pos + link_item(cid).len() }),
{
    let tag = head(MAJOR_TAG, TAG_LINK);
    let payload = seq![0u8] + cid;
    lemma_head_len(MAJOR_TAG, TAG_LINK);
    lemma_concat_at(bytes, pos, tag, bytes_item(payload));
    lemma_parse_head(bytes, pos, MAJOR_TAG, TAG_LINK);
    lemma_parse_bytes(bytes, pos + tag.len(), payload);
    assert(payload.skip(1) =~= cid);
}

/// An item written is the item read.
pub proof fn lemma_parse_item(links: bool, bytes: Seq<u8>, pos: int, x: Seq<u8>)
    requires
        0 <= pos,
        links ==> is_cid(x),
        x.len() < u64::MAX - 1,
        pos + item_bytes(links, x).len() <= bytes.len() <= usize::MAX,
        bytes.subrange(pos, pos + item_bytes(links, x).len()) == item_bytes(links, x),
    ensures
        parse_item(links, bytes, pos) == Some(
            Parsed { value: x, next: pos + item_bytes(links, x).len() },
        ),
{
    if links {
        lemma_parse_link(bytes, pos, x);
    } else {
        lemma_parse_bytes(bytes, pos, x);
    }
}

/// Items written one after the other are the items read.
pub proof fn lemma_parse_items(
    links: bool,
    bytes: Seq<u8>,
    pos: int,
    xs: Seq<Seq<u8>>,
    read: Seq<Seq<u8>>,
)
    requires
        0 <= pos,
        forall|i: int| 0 <= i < xs.len() ==> (#[trigger] xs[i]).len() < u64::MAX - 1,
        links ==> forall|i: int| 0 <= i < xs.len() ==> is_cid(#[trigger] xs[i]),
        pos + items_bytes(links, xs).len() <= bytes.len() <= usize::MAX,
        bytes.subrange(pos, pos + items_bytes(links, xs).len()) == items_bytes(links, xs),
    ensures
        parse_items(links, bytes, pos, xs.len(), read) == Some(
            Parsed { value: read + xs, next: pos + items_bytes(links, xs).len() },
        ),
    decreases xs.len(),
{
    if xs.len() == 0 {
        assert(read + xs =~= read);
    } else {
        let first = item_bytes(links, xs[0]);
        let rest = xs.drop_first();
        lemma_concat_at(bytes, pos, first, items_bytes(links, rest));
        lemma_parse_item(links, bytes, pos, xs[0]);
        assert forall|i: int| 0 <= i < rest.len() implies (#[trigger] rest[i]).len() < u64::MAX
            - 1 by {
            assert(rest[i] == xs[i + 1]);
        }
        if links {
            assert forall|i: int| 0 <= i < rest.len() implies is_cid(#[trigger] rest[i]) by {
                assert(rest[i] == xs[i + 1]);
            }
        }
        lemma_parse_items(links, bytes, pos + first.len(), rest, read.push(xs[0]));
        assert(read.push(xs[0]) + rest =~= read + xs);
    }
}

/// The first byte of an item tells a link from a byte string.
proof fn lemma_first_head(links: bool, bytes: Seq<u8>, pos: int, x: Seq<u8>)
    requires
        0 <= pos,
        x.len() < u64::MAX - 1,
        pos + item_bytes(links, x).len() <= bytes.len() <= usize::MAX,
        bytes.subrange(pos, pos + item_bytes(links, x).len()) == item_bytes(links, x),
    ensures
        parse_head(bytes, pos) is Some,
        (parse_head(bytes, pos)->Some_0.major == MAJOR_TAG) == links,
{
    if links {
        let tag = head(MAJOR_TAG, TAG_LINK);
        lemma_head_len(MAJOR_TAG, TAG_LINK);
        lemma_concat_at(bytes, pos, tag, bytes_item(seq![0u8] + x));
        lemma_parse_head(bytes, pos, MAJOR_TAG, TAG_LINK);
    } else {
        let h = head(MAJOR_BYTES, x.len() as u64);
        lemma_head_len(MAJOR_BYTES, x.len() as u64);
        lemma_concat_at(bytes, pos, h, x);
        lemma_parse_head(bytes, pos, MAJOR_BYTES, x.len() as u64);
    }
}

/// A node written is the node read, whatever stands before and behind it.
pub proof fn lemma_parse_node(bytes: Seq<u8>, pos: int, c: Collapsed)
    requires
        writable(c),
        0 <= pos,
        pos + node_bytes(c).len() <= bytes.len() <= usize::MAX,
        bytes.subrange(pos, pos + node_bytes(c).len()) == node_bytes(c),
    ensures
        parse_node(bytes, pos) == Some(Parsed { value: c, next: pos + node_bytes(c).len() }),
{
    let outer = head(MAJOR_ARRAY, 2);
    let bmap = bytes_item(c.bmap);
    let inner = head(MAJOR_ARRAY, c.items.len() as u64);
    let items = items_bytes(c.links, c.items);
    lemma_head_len(MAJOR_ARRAY, 2);
    lemma_head_len(MAJOR_ARRAY, c.items.len() as u64);
    assert(node_bytes(c) =~= outer + (bmap + (inner + items)));
    lemma_concat_at(bytes, pos, outer, bmap + (inner + items));
    lemma_concat_at(bytes, pos + outer.len(), bmap, inner + items);
    lemma_concat_at(bytes, pos + outer.len() + bmap.len(), inner, items);
    lemma_parse_head(bytes, pos, MAJOR_ARRAY, 2);
    lemma_parse_bytes(bytes, pos + outer.len(), c.bmap);
    lemma_parse_head(bytes, pos + outer.len() + bmap.len(), MAJOR_ARRAY, c.items.len() as u64);
    let at = pos + outer.len() + bmap.len() + inner.len();
    if c.items.len() > 0 {
        lemma_concat_at(
            bytes,
            at,
            item_bytes(c.links, c.items[0]),
            items_bytes(c.links, c.items.drop_first()),
        );
        lemma_first_head(c.links, bytes, at, c.items[0]);
    }
    lemma_parse_items(c.links, bytes, at, c.items, Seq::empty());
    assert(Seq::<Seq<u8>>::empty() + c.items =~= c.items);
}

/// A node written is the node read.
pub proof fn lemma_decode_encode(c: Collapsed)
    requires
        writable(c),
        node_bytes(c).len() <= usize::MAX,
    ensures
        decode_node_spec(node_bytes(c)) == Some(c),
{
    let bytes = node_bytes(c);
    assert(bytes.subrange(0, bytes.len() as int) =~= bytes);
    lemma_parse_node(bytes, 0, c);
}

/// Links that were read are identifiers.
pub proof fn lemma_parsed_links(bytes: Seq<u8>, pos: int, n: nat, read: Seq<Seq<u8>>)
    requires
        parse_items(true, bytes, pos, n, read) is Some,
        forall|i: int| 0 <= i < read.len() ==> is_cid(#[trigger] read[i]),
    ensures
        forall|i: int|
            0 <= i < parse_items(true, bytes, pos, n, read)->Some_0.value.len() ==> is_cid(
                #[trigger] parse_items(true, bytes, pos, n, read)->Some_0.value[i],
            ),
    decreases n,
{
    if n > 0 {
        let p = parse_item(true, bytes, pos)->Some_0;
        lemma_parsed_links(bytes, p.next, (n - 1) as nat, read.push(p.value));
    }
}

/// The links of a node that was read are identifiers.
pub proof fn lemma_decoded_links(bytes: Seq<u8>)
    requires
        decode_node_spec(bytes) is Some,
        decode_node_spec(bytes)->Some_0.links,
    ensures
        forall|i: int|
            0 <= i < decode_node_spec(bytes)->Some_0.items.len() ==> is_cid(
                #[trigger] decode_node_spec(bytes)->Some_0.items[i],
            ),
{
    let outer = parse_head(bytes, 0)->Some_0;
    let bmap = parse_bytes(bytes, outer.next as int)->Some_0;
    let inner = parse_head(bytes, bmap.next)->Some_0;
    lemma_parsed_links(bytes, inner.next as int, inner.arg as nat, Seq::empty());
}

/// Items written behind others stand behind their writing.
pub proof fn lemma_items_bytes_push(links: bool, xs: Seq<Seq<u8>>, x: Seq<u8>)
    ensures
        items_bytes(links, xs.push(x)) == items_bytes(links, xs) + item_bytes(links, x),
    decreases xs.len(),
{
    if xs.len() == 0 {
        assert(xs.push(x).drop_first() =~= Seq::<Seq<u8>>::empty());
        assert(xs.push(x)[0] == x);
        assert(items_bytes(links, xs.push(x).drop_first()) =~= Seq::<u8>::empty());
        assert(items_bytes(links, xs.push(x)) =~= items_bytes(links, xs) + item_bytes(links, x));
    } else {
        assert(xs.push(x).drop_first() =~= xs.drop_first().push(x));
        lemma_items_bytes_push(links, xs.drop_first(), x);
        assert(items_bytes(links, xs.push(x)) =~= items_bytes(links, xs) + item_bytes(links, x));
    }
}

/// Appends a byte string as it is written.
pub fn write_bytes_item(out: &mut Vec<u8>, x: &[u8])
    ensures
        final(out)@ == old(out)@ + bytes_item(x@),
{
    write_head(out, MAJOR_BYTES, x.len() as u64);
    let ghost start = out@;
    let mut k: usize = 0;
    while k < x.len()
        invariant
            k <= x@.len(),
            out@ == start + x@.subrange(0, k as int),
        decreases x@.len() - k,
    {
        out.push(x[k]);
        proof {
            assert(out@ =~= start + x@.subrange(0, k + 1));
        }
        k += 1;
    }
    proof {
        assert(x@.subrange(0, k as int) =~= x@);
        assert(out@ =~= old(out)@ + bytes_item(x@));
    }
}

/// Appends a link as it is written.
pub fn write_link_item(out: &mut Vec<u8>, cid: &[u8])
    ensures
        final(out)@ == old(out)@ + link_item(cid@),
{
    let mut payload: Vec<u8> = Vec::new();
    payload.push(0);
    let mut k: usize = 0;
    while k < cid.len()
        invariant
            k <= cid@.len(),
            payload@ == seq![0u8] + cid@.subrange(0, k as int),
        decreases cid@.len() - k,
    {
        payload.push(cid[k]);
        proof {
            assert(payload@ =~= seq![0u8] + cid@.subrange(0, k + 1));
        }
        k += 1;
    }
    proof {
        assert(cid@.subrange(0, k as int) =~= cid@);
    }
    write_head(out, MAJOR_TAG, TAG_LINK);
    write_bytes_item(out, payload.as_slice());
    proof {
        assert(out@ =~= old(out)@ + link_item(cid@));
    }
}

/// The bytes of a node.
pub fn encode_node(c: &CollapsedNode) -> (bytes: Vec<u8>)
    ensures
        bytes@ == node_bytes(c@),
{
    let mut out: Vec<u8> = Vec::new();
    write_node(&mut out, c);
    out
}

/// Appends the bytes of a node.
pub fn write_node(out: &mut Vec<u8>, c: &CollapsedNode)
    ensures
        final(out)@ == old(out)@ + node_bytes(c@),
{
    write_head(out, MAJOR_ARRAY, 2);
    write_bytes_item(out, c.bmap.as_slice());
    write_head(out, MAJOR_ARRAY, c.items.len() as u64);
    let ghost start = out@;
    let ghost items = c@.items;
    let mut k: usize = 0;
    while k < c.items.len()
        invariant
            k <= c.items@.len(),
            items == c@.items,
            out@ == start + items_bytes(c.links, items.subrange(0, k as int)),
        decreases c.items@.len() - k,
    {
        proof {
            assert(items[k as int] == c.items@[k as int]@);
            lemma_items_bytes_push(c.links, items.subrange(0, k as int), items[k as int]);
            assert(items.subrange(0, k as int).push(items[k as int]) =~= items.subrange(0, k + 1));
        }
        if c.links {
            write_link_item(out, c.items[k].as_slice());
        } else {
            write_bytes_item(out, c.items[k].as_slice());
        }
        proof {
            assert(out@ =~= start + items_bytes(c.links, items.subrange(0, k + 1)));
        }
        k += 1;
    }
    proof {
        assert(items.subrange(0, k as int) =~= items);
        assert(out@ =~= old(out)@ + node_bytes(c@));
    }
}

/// Reads the byte string at `pos`.
pub fn read_bytes_item(bytes: &[u8], pos: usize) -> (r: Option<(Vec<u8>, usize)>)
    ensures
        r is Some <==> parse_bytes(bytes@, pos as int) is Some,
        r matches Some(p) ==> parse_bytes(bytes@, pos as int) == Some(
            Parsed { value: p.0@, next: p.1 as int },
        ) && pos < p.1 <= bytes@.len(),
{
    match read_head(bytes, pos) {
        Some(h) => {
            if h.major == MAJOR_BYTES && h.arg <= (bytes.len() - h.next) as u64 {
                let end = h.next + h.arg as usize;
                let value = vstd::slice::slice_to_vec(
                    vstd::slice::slice_subrange(bytes, h.next, end),
                );
                Some((value, end))
            } else {
                None
            }
        },
        None => None,
    }
}

/// Reads the link at `pos`.
pub fn read_link_item(bytes: &[u8], pos: usize) -> (r: Option<(Vec<u8>, usize)>)
    ensures
        r is Some <==> parse_link(bytes@, pos as int) is Some,
        r matches Some(p) ==> parse_link(bytes@, pos as int) == Some(
            Parsed { value: p.0@, next: p.1 as int },
        ) && pos < p.1 <= bytes@.len() && is_cid(p.0@),
{
    match read_head(bytes, pos) {
        Some(h) => {
            if h.major == MAJOR_TAG && h.arg == TAG_LINK {
                match read_bytes_item(bytes, h.next) {
                    Some((payload, next)) => {
                        if payload.len() > 0 && payload[0] == 0 {
                            let tail = vstd::slice::slice_subrange(
                                payload.as_slice(),
                                1,
                                payload.len(),
                            );
                            proof {
                                assert(tail@ =~= payload@.skip(1));
                            }
                            match Cid::read_bytes(tail) {
                                Some(cid) => Some((cid.to_bytes(), next)),
                                None => None,
                            }
                        } else {
                            None
                        }
                    },
                    None => None,
                }
            } else {
                None
            }
        },
        None => None,
    }
}

/// Reads the node that `bytes` are the writing of.
pub fn decode_node(bytes: &[u8]) -> (r: Option<CollapsedNode>)
    ensures
        r is Some <==> decode_node_spec(bytes@) is Some,
        r matches Some(c) ==> decode_node_spec(bytes@) == Some(c@) && (c.links ==> forall|i: int|
            0 <= i < c@.items.len() ==> is_cid(#[trigger] c@.items[i])),
{
    match read_node(bytes, 0) {
        Some((c, next)) => if next == bytes.len() {
            Some(c)
        } else {
            None
        },
        None => None,
    }
}

/// Reads the node at `pos`.
pub fn read_node(bytes: &[u8], pos: usize) -> (r: Option<(CollapsedNode, usize)>)
    ensures
        r is Some <==> parse_node(bytes@, pos as int) is Some,
        r matches Some(p) ==> parse_node(bytes@, pos as int) == Some(
            Parsed { value: p.0@, next: p.1 as int },
        ) && p.1 <= bytes@.len() && (p.0.links ==> forall|i: int|
            0 <= i < p.0@.items.len() ==> is_cid(#[trigger] p.0@.items[i])),
{
    let outer = match read_head(bytes, pos) {
        Some(h) => h,
        None => { return None; },
    };
    if outer.major != MAJOR_ARRAY || outer.arg != 2 {
        return None;
    }
    let (bmap, after_bmap) = match read_bytes_item(bytes, outer.next) {
        Some(p) => p,
        None => { return None; },
    };
    let inner = match read_head(bytes, after_bmap) {
        Some(h) => h,
        None => { return None; },
    };
    if inner.major != MAJOR_ARRAY {
        return None;
    }
    let links = inner.arg > 0 && (match read_head(bytes, inner.next) {
        Some(first) => first.major == MAJOR_TAG,
        None => false,
    });
    let mut items: Vec<Vec<u8>> = Vec::new();
    let mut cursor: usize = inner.next;
    let mut k: u64 = 0;
    proof {
        assert(items_view(items@) =~= Seq::<Seq<u8>>::empty());
    }
    let ghost all = parse_items(
        links,
        bytes@,
        inner.next as int,
        inner.arg as nat,
        Seq::empty(),
    );
    while k < inner.arg
        invariant
            k <= inner.arg,
            cursor <= bytes@.len(),
            all == parse_items(links, bytes@, inner.next as int, inner.arg as nat, Seq::empty()),
            parse_node(bytes@, pos as int) == (match all {
                Some(p) => Some(
                    Parsed {
                        value: Collapsed { bmap: bmap@, links, items: p.value },
                        next: p.next,
                    },
                ),
                None => None,
            }),
            parse_items(links, bytes@, inner.next as int, inner.arg as nat, Seq::empty())
                == parse_items(
                links,
                bytes@,
                cursor as int,
                (inner.arg - k) as nat,
                items_view(items@),
            ),
            links ==> forall|i: int|
                0 <= i < items@.len() ==> is_cid((#[trigger] items@[i])@),
        decreases inner.arg - k,
    {
        let read = if links {
            read_link_item(bytes, cursor)
        } else {
            read_bytes_item(bytes, cursor)
        };
        match read {
            Some((item, next)) => {
                proof {
                    assert(items_view(items@.push(item)) =~= items_view(items@).push(item@));
                }
                items.push(item);
                cursor = next;
            },
            None => {
                proof {
                    assert(parse_item(links, bytes@, cursor as int) is None);
                    assert(parse_items(
                        links,
                        bytes@,
                        cursor as int,
                        (inner.arg - k) as nat,
                        items_view(items@),
                    ) is None);
                }
                return None;
            },
        }
        k += 1;
    }
    let c = CollapsedNode { bmap, links, items };
    proof {
        assert forall|i: int| 0 <= i < c@.items.len() && c.links implies is_cid(
            #[trigger] c@.items[i],
        ) by {
            assert(c@.items[i] == c.items@[i]@);
        }
    }
    Some((c, cursor))
}

} // verus!
