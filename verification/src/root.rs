//! The root of a trie: its bit width, height and count above its top node, in
//! the two versions it is written in.

use core::marker::PhantomData;
use crate::cbor::{
    head, lemma_head_len, lemma_parse_head, parse_head, read_head, write_head, MAJOR_ARRAY,
    MAJOR_UNSIGNED,
};
use crate::codec::{
    lemma_concat_at, lemma_parse_node, node_bytes, parse_node, read_node, writable, write_node,
    Collapsed,
};
use crate::error::{Error, ErrorView};
use crate::index::{width, DEFAULT_BIT_WIDTH, MAX_BIT_WIDTH};
use crate::node::{empty_leaf, Node, NodeView};
use crate::node::pack::{bare, collapse_spec, expand_spec, links_clean, slots};
use vstd::prelude::*;

verus! {

/// The version whose root does not name its bit width: it is always 3.
#[derive(Debug, PartialEq)]
pub struct VersionV0;

/// The version whose root names its bit width.
#[derive(Debug, PartialEq)]
pub struct VersionV3;

/// A version of the way a root is written.
pub trait Version {
    /// Whether the root names its bit width.
    spec fn names_bit_width() -> bool;

    /// Whether the root names its bit width.
    fn has_bit_width() -> (r: bool)
        ensures
            r == Self::names_bit_width(),
    ;
}

impl Version for VersionV0 {
    open spec fn names_bit_width() -> bool {
        false
    }

    fn has_bit_width() -> (r: bool) {
        false
    }
}

impl Version for VersionV3 {
    open spec fn names_bit_width() -> bool {
        true
    }

    fn has_bit_width() -> (r: bool) {
        true
    }
}

/// The root of a trie.
#[derive(Debug, PartialEq)]
pub struct Root<Ver = VersionV3> {
    pub bit_width: u32,
    pub height: u32,
    pub count: u64,
    pub node: Node,
    pub version: PhantomData<Ver>,
}

/// A root as contracts speak of it.
pub struct RootView {
    pub bit_width: u32,
    pub height: u32,
    pub count: u64,
    pub node: NodeView,
}

impl<Ver> View for Root<Ver> {
    type V = RootView;

    open spec fn view(&self) -> RootView {
        RootView {
            bit_width: self.bit_width,
            height: self.height,
            count: self.count,
            node: self.node@,
        }
    }
}

/// The number of fields a root is written with.
pub open spec fn arity(v3: bool) -> u64 {
    if v3 {
        4
    } else {
        3
    }
}

/// The height, the count and the node of a root as they are written.
pub open spec fn fields_bytes(height: u32, count: u64, node: Collapsed) -> Seq<u8> {
    head(MAJOR_UNSIGNED, height as u64) + (head(MAJOR_UNSIGNED, count) + node_bytes(node))
}

/// A root as it is written: an array of the bit width, where the version names
/// it, the height, the count and the node.
pub open spec fn root_bytes(v3: bool, bit_width: u32, height: u32, count: u64, node: Collapsed)
    -> Seq<u8> {
    if v3 {
        head(MAJOR_ARRAY, 4) + (head(MAJOR_UNSIGNED, bit_width as u64) + fields_bytes(
            height,
            count,
            node,
        ))
    } else {
        head(MAJOR_ARRAY, 3) + fields_bytes(height, count, node)
    }
}

/// The fields of a written root.
pub struct RootParts {
    pub bit_width: u32,
    pub height: u32,
    pub count: u64,
    pub node: Collapsed,
}

/// The unsigned number that `bytes` holds at `pos`, and where it ends.
pub open spec fn parse_unsigned(bytes: Seq<u8>, pos: int, max: u64) -> Option<(u64, int)> {
    match parse_head(bytes, pos) {
        Some(h) => if h.major == MAJOR_UNSIGNED && h.arg <= max {
            Some((h.arg, h.next as int))
        } else {
            None
        },
        None => None,
    }
}

/// The height, the count and the node that `bytes` hold from `pos` to their end.
pub open spec fn parse_fields(bytes: Seq<u8>, pos: int, bit_width: u32) -> Option<RootParts> {
    match parse_unsigned(bytes, pos, u32::MAX as u64) {
        Some((height, after_height)) => match parse_unsigned(bytes, after_height, u64::MAX) {
            Some((count, after_count)) => match parse_node(bytes, after_count) {
                Some(node) => if node.next == bytes.len() {
                    Some(RootParts { bit_width, height: height as u32, count, node: node.value })
                } else {
                    None
                },
                None => None,
            },
            None => None,
        },
        None => None,
    }
}

/// The fields of the root that `bytes` are the writing of. An array of another
/// length is a root of another version.
pub open spec fn parse_root(v3: bool, bytes: Seq<u8>) -> Result<RootParts, ErrorView> {
    match parse_head(bytes, 0) {
        Some(outer) => if outer.major != MAJOR_ARRAY {
            Err(ErrorView::Codec)
        } else if outer.arg != arity(v3) {
            Err(ErrorView::InvalidEncoding)
        } else if v3 {
            match parse_unsigned(bytes, outer.next as int, u32::MAX as u64) {
                Some((bit_width, after)) => match parse_fields(bytes, after, bit_width as u32) {
                    Some(parts) => Ok(parts),
                    None => Err(ErrorView::Codec),
                },
                None => Err(ErrorView::Codec),
            }
        } else {
            match parse_fields(bytes, outer.next as int, DEFAULT_BIT_WIDTH) {
                Some(parts) => Ok(parts),
                None => Err(ErrorView::Codec),
            }
        },
        None => Err(ErrorView::Codec),
    }
}

/// The root that `bytes` are the writing of. Its node must be one of its bit
/// width, and the bit width one that a node can have.
pub open spec fn decode_root_spec(v3: bool, bytes: Seq<u8>) -> Result<RootView, ErrorView> {
    match parse_root(v3, bytes) {
        Ok(parts) => if parts.bit_width > MAX_BIT_WIDTH {
            Err(ErrorView::InvalidEncoding)
        } else {
            match expand_spec(parts.node, parts.bit_width as nat) {
                Some(node) => Ok(
                    RootView {
                        bit_width: parts.bit_width,
                        height: parts.height,
                        count: parts.count,
                        node,
                    },
                ),
                None => Err(ErrorView::InvalidEncoding),
            }
        },
        Err(e) => Err(e),
    }
}

/// Reads the unsigned number at `pos`.
fn read_unsigned(bytes: &[u8], pos: usize, max: u64) -> (r: Option<(u64, usize)>)
    ensures
        r is Some <==> parse_unsigned(bytes@, pos as int, max) is Some,
        r matches Some(p) ==> parse_unsigned(bytes@, pos as int, max) == Some((p.0, p.1 as int))
            && p.0 <= max && p.1 <= bytes@.len(),
{
    match read_head(bytes, pos) {
        Some(h) => if h.major == MAJOR_UNSIGNED && h.arg <= max {
            Some((h.arg, h.next))
        } else {
            None
        },
        None => None,
    }
}

impl<Ver: Version> Root<Ver> {
    /// The root of an empty trie: height 0, count 0 and an empty leaf.
    pub fn new(bit_width: u32) -> (root: Self)
        requires
            bit_width <= MAX_BIT_WIDTH,
        ensures
            root@ == (RootView {
                bit_width,
                height: 0,
                count: 0,
                node: empty_leaf(width(bit_width as nat)),
            }),
    {
        Root { bit_width, count: 0, height: 0, node: Node::empty(bit_width, 0), version: PhantomData }
    }

    /// The bytes of the root. No link of its node may be dirty.
    pub fn encode(&self) -> (bytes: Vec<u8>)
        requires
            self.bit_width <= MAX_BIT_WIDTH,
            links_clean(self.node@),
        ensures
            bytes@ == root_bytes(
                Ver::names_bit_width(),
                self.bit_width,
                self.height,
                self.count,
                collapse_spec(self.node@, self.bit_width as nat),
            ),
    {
        let mut out: Vec<u8> = Vec::new();
        if Ver::has_bit_width() {
            write_head(&mut out, MAJOR_ARRAY, 4);
            write_head(&mut out, MAJOR_UNSIGNED, self.bit_width as u64);
        } else {
            write_head(&mut out, MAJOR_ARRAY, 3);
        }
        write_head(&mut out, MAJOR_UNSIGNED, self.height as u64);
        write_head(&mut out, MAJOR_UNSIGNED, self.count);
        let collapsed = self.node.collapse(self.bit_width);
        write_node(&mut out, &collapsed);
        proof {
            assert(out@ =~= root_bytes(
                Ver::names_bit_width(),
                self.bit_width,
                self.height,
                self.count,
                collapse_spec(self.node@, self.bit_width as nat),
            ));
        }
        out
    }

    /// Reads the root that `bytes` are the writing of.
    pub fn decode(bytes: &[u8]) -> (r: Result<Self, Error>)
        ensures
            r matches Ok(root) ==> decode_root_spec(Ver::names_bit_width(), bytes@) == Ok::<
                RootView,
                ErrorView,
            >(root@) && root.bit_width <= MAX_BIT_WIDTH && bare(root.node@) && slots(root.node@)
                == width(root.bit_width as nat),
            r matches Err(e) ==> decode_root_spec(Ver::names_bit_width(), bytes@) == Err::<
                RootView,
                ErrorView,
            >(e@),
    {
        let v3 = Ver::has_bit_width();
        let outer = match read_head(bytes, 0) {
            Some(h) => h,
            None => { return Err(Error::Codec); },
        };
        if outer.major != MAJOR_ARRAY {
            return Err(Error::Codec);
        }
        if outer.arg != (if v3 {
            4
        } else {
            3
        }) {
            return Err(Error::InvalidEncoding);
        }
        let (bit_width, pos): (u32, usize) = if v3 {
            match read_unsigned(bytes, outer.next, u32::MAX as u64) {
                Some((w, next)) => (w as u32, next),
                None => { return Err(Error::Codec); },
            }
        } else {
            (DEFAULT_BIT_WIDTH, outer.next)
        };
        let (height, pos) = match read_unsigned(bytes, pos, u32::MAX as u64) {
            Some(p) => p,
            None => { return Err(Error::Codec); },
        };
        let (count, pos) = match read_unsigned(bytes, pos, u64::MAX) {
            Some(p) => p,
            None => { return Err(Error::Codec); },
        };
        let (collapsed, end) = match read_node(bytes, pos) {
            Some(p) => p,
            None => { return Err(Error::Codec); },
        };
        if end != bytes.len() {
            return Err(Error::Codec);
        }
        if bit_width > MAX_BIT_WIDTH {
            return Err(Error::InvalidEncoding);
        }
        match collapsed.expand(bit_width) {
            Ok(node) => Ok(
                Root { bit_width, height: height as u32, count, node, version: PhantomData },
            ),
            Err(e) => Err(e),
        }
    }
}

/// A root written in one version is no root of the other.
pub proof fn lemma_version_isolation(
    v3: bool,
    bit_width: u32,
    height: u32,
    count: u64,
    node: Collapsed,
)
    requires
        root_bytes(v3, bit_width, height, count, node).len() <= usize::MAX,
    ensures
        decode_root_spec(!v3, root_bytes(v3, bit_width, height, count, node)) == Err::<
            RootView,
            ErrorView,
        >(ErrorView::InvalidEncoding),
{
    let bytes = root_bytes(v3, bit_width, height, count, node);
    let first = head(MAJOR_ARRAY, arity(v3));
    lemma_head_len(MAJOR_ARRAY, arity(v3));
    assert(bytes.subrange(0, first.len() as int) =~= first);
    lemma_parse_head(bytes, 0, MAJOR_ARRAY, arity(v3));
}

/// A number written is the number read.
proof fn lemma_parse_unsigned(bytes: Seq<u8>, pos: int, value: u64, max: u64)
    requires
        0 <= pos,
        value <= max,
        pos + head(MAJOR_UNSIGNED, value).len() <= bytes.len() <= usize::MAX,
        bytes.subrange(pos, pos + head(MAJOR_UNSIGNED, value).len()) == head(MAJOR_UNSIGNED, value),
    ensures
        parse_unsigned(bytes, pos, max) == Some((value, pos + head(MAJOR_UNSIGNED, value).len())),
{
    lemma_parse_head(bytes, pos, MAJOR_UNSIGNED, value);
}

/// The height, the count and the node written are those read.
proof fn lemma_parse_fields(
    bytes: Seq<u8>,
    pos: int,
    bit_width: u32,
    height: u32,
    count: u64,
    node: Collapsed,
)
    requires
        0 <= pos,
        writable(node),
        bytes.len() <= usize::MAX,
        pos + fields_bytes(height, count, node).len() == bytes.len(),
        bytes.subrange(pos, bytes.len() as int) == fields_bytes(height, count, node),
    ensures
        parse_fields(bytes, pos, bit_width) == Some(RootParts { bit_width, height, count, node }),
{
    let hh = head(MAJOR_UNSIGNED, height as u64);
    let hc = head(MAJOR_UNSIGNED, count);
    let body = node_bytes(node);
    lemma_head_len(MAJOR_UNSIGNED, height as u64);
    lemma_head_len(MAJOR_UNSIGNED, count);
    lemma_concat_at(bytes, pos, hh, hc + body);
    lemma_concat_at(bytes, pos + hh.len(), hc, body);
    lemma_parse_unsigned(bytes, pos, height as u64, u32::MAX as u64);
    lemma_parse_unsigned(bytes, pos + hh.len(), count, u64::MAX);
    lemma_parse_node(bytes, pos + hh.len() + hc.len(), node);
}

/// A root written is the root read.
pub proof fn lemma_parse_root(v3: bool, bit_width: u32, height: u32, count: u64, node: Collapsed)
    requires
        writable(node),
        root_bytes(v3, bit_width, height, count, node).len() <= usize::MAX,
        v3 || bit_width == DEFAULT_BIT_WIDTH,
    ensures
        parse_root(v3, root_bytes(v3, bit_width, height, count, node)) == Ok::<
            RootParts,
            ErrorView,
        >(RootParts { bit_width, height, count, node }),
{
    let bytes = root_bytes(v3, bit_width, height, count, node);
    let outer = head(MAJOR_ARRAY, arity(v3));
    let hw = head(MAJOR_UNSIGNED, bit_width as u64);
    let fields = fields_bytes(height, count, node);
    lemma_head_len(MAJOR_ARRAY, arity(v3));
    lemma_head_len(MAJOR_UNSIGNED, bit_width as u64);
    let after_outer = outer.len() as int;
    assert(bytes.subrange(0, bytes.len() as int) =~= bytes);
    if v3 {
        lemma_concat_at(bytes, 0, outer, hw + fields);
        lemma_concat_at(bytes, after_outer, hw, fields);
        lemma_parse_head(bytes, 0, MAJOR_ARRAY, 4);
        lemma_parse_unsigned(bytes, after_outer, bit_width as u64, u32::MAX as u64);
        lemma_parse_fields(bytes, after_outer + hw.len(), bit_width, height, count, node);
    } else {
        lemma_concat_at(bytes, 0, outer, fields);
        lemma_parse_head(bytes, 0, MAJOR_ARRAY, 3);
        lemma_parse_fields(bytes, after_outer, bit_width, height, count, node);
    }
}

} // verus!
