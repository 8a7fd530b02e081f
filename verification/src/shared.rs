//! What actors hand to one another: blocks of encoded data and the outcome of
//! a send.

use crate::encoding::{CodecProtocol, Decoder, Error, DAG_CBOR};
use vstd::prelude::*;

verus! {

/// A block of encoded data, as actors exchange it: in DAG-CBOR alone.
#[derive(Debug, PartialEq, Eq, Default)]
pub struct IpldBlock {
    pub codec: u64,
    pub data: Vec<u8>,
}

/// How a message ended.
#[derive(Clone, Copy, Debug, PartialEq, Eq, Structural)]
pub struct ExitCode {
    pub value: u32,
}

/// The outcome of a send: how it ended and what it returned.
#[derive(Debug, PartialEq, Eq)]
pub struct Response {
    pub exit_code: ExitCode,
    pub return_data: Option<IpldBlock>,
}

/// The error for a codec that actors do not exchange blocks in.
pub fn unsupported() -> (e: Error)
    ensures
        e.description@ == "unsupported protocol"@,
        e.protocol == CodecProtocol::Cbor,
{
    Error { description: "unsupported protocol".to_owned(), protocol: CodecProtocol::Cbor }
}

impl Clone for IpldBlock {
    fn clone(&self) -> (r: Self)
        ensures
            r.codec == self.codec,
            r.data@ == self.data@,
    {
        IpldBlock { codec: self.codec, data: self.data.clone() }
    }
}

impl IpldBlock {
    /// How the data of this block are to be read: as DAG-CBOR, or not at all.
    pub fn deserialize(&self) -> (r: Result<Decoder, Error>)
        ensures
            self.codec == DAG_CBOR ==> r == Ok::<Decoder, Error>(Decoder::DagCbor),
            self.codec != DAG_CBOR ==> r is Err && r->Err_0.protocol == CodecProtocol::Cbor
                && r->Err_0.description@ == "unsupported protocol"@,
    {
        if self.codec == DAG_CBOR {
            Ok(Decoder::DagCbor)
        } else {
            Err(unsupported())
        }
    }

    /// The block of `data`, which is a value encoded in `codec`.
    pub fn serialize(codec: u64, data: Vec<u8>) -> (r: Result<IpldBlock, Error>)
        ensures
            codec == DAG_CBOR ==> r is Ok && r->Ok_0.codec == codec && r->Ok_0.data == data,
            codec != DAG_CBOR ==> r is Err && r->Err_0.protocol == CodecProtocol::Cbor
                && r->Err_0.description@ == "unsupported protocol"@,
    {
        if codec == DAG_CBOR {
            Ok(IpldBlock { codec, data })
        } else {
            Err(unsupported())
        }
    }

    /// The block of `data`, which is a value encoded in DAG-CBOR.
    pub fn serialize_cbor(data: Vec<u8>) -> (r: Result<IpldBlock, Error>)
        ensures
            r is Ok,
            r->Ok_0.codec == DAG_CBOR,
            r->Ok_0.data == data,
    {
        IpldBlock::serialize(DAG_CBOR, data)
    }
}

} // verus!
