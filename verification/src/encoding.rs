//! Blocks of encoded data, each with the number of its codec.

use vstd::prelude::*;

verus! {

/// The codec number of raw bytes.
pub const IPLD_RAW: u64 = 0x55;

/// The codec number of DAG-CBOR.
pub const DAG_CBOR: u64 = 0x71;

/// The family of codecs an error arose in.
#[derive(Clone, Copy, Debug, PartialEq, Eq, Structural)]
pub enum CodecProtocol {
    Unsupported,
    Cbor,
    Raw,
}

/// An error of encoding or decoding.
#[derive(Debug, PartialEq, Eq)]
pub struct Error {
    pub description: String,
    pub protocol: CodecProtocol,
}

/// How the data of a block is to be read.
#[derive(Clone, Copy, Debug, PartialEq, Eq, Structural)]
pub enum Decoder {
    /// The data are the value, as bytes.
    Raw,
    /// The data are the value in DAG-CBOR.
    DagCbor,
}

/// A block of encoded data.
#[derive(Debug, PartialEq, Eq, Default)]
pub struct IpldBlock {
    pub codec: u64,
    pub data: Vec<u8>,
}

/// The error for a codec that blocks are not read or written in.
pub fn unsupported() -> (e: Error)
    ensures
        e.description@ == "unsupported protocol"@,
        e.protocol == CodecProtocol::Unsupported,
{
    Error { description: "unsupported protocol".to_owned(), protocol: CodecProtocol::Unsupported }
}

impl Clone for IpldBlock {
    fn clone(&self) -> (r: Self)
        ensures
            r.codec == self.codec,
            r.data@ == self.data@,
    {
        IpldBlock { codec: self.codec, data: self.data.clone() }
    }
}

impl IpldBlock {
    /// How the data of this block are to be read: raw bytes and DAG-CBOR are
    /// read, nothing else.
    pub fn deserialize(&self) -> (r: Result<Decoder, Error>)
        ensures
            self.codec == IPLD_RAW ==> r == Ok::<Decoder, Error>(Decoder::Raw),
            self.codec == DAG_CBOR ==> r == Ok::<Decoder, Error>(Decoder::DagCbor),
            self.codec != IPLD_RAW && self.codec != DAG_CBOR ==> r is Err && r->Err_0.protocol
                == CodecProtocol::Unsupported && r->Err_0.description@ == "unsupported protocol"@,
    {
        if self.codec == IPLD_RAW {
            Ok(Decoder::Raw)
        } else if self.codec == DAG_CBOR {
            Ok(Decoder::DagCbor)
        } else {
            Err(unsupported())
        }
    }

    /// The block of `data`, which is a value encoded in `codec`. Blocks are
    /// written in DAG-CBOR alone.
    pub fn serialize(codec: u64, data: Vec<u8>) -> (r: Result<IpldBlock, Error>)
        ensures
            codec == DAG_CBOR ==> r is Ok && r->Ok_0.codec == codec && r->Ok_0.data == data,
            codec != DAG_CBOR ==> r is Err && r->Err_0.protocol == CodecProtocol::Unsupported
                && r->Err_0.description@ == "unsupported protocol"@,
    {
        if codec == DAG_CBOR {
            Ok(IpldBlock { codec, data })
        } else {
            Err(unsupported())
        }
    }

    /// The block of `data`, which is a value encoded in DAG-CBOR.
    pub fn serialize_cbor(data: Vec<u8>) -> (r: Result<IpldBlock, Error>)
        ensures
            r is Ok,
            r->Ok_0.codec == DAG_CBOR,
            r->Ok_0.data == data,
    {
        IpldBlock::serialize(DAG_CBOR, data)
    }

    /// The DAG-CBOR block of `bytes`, or no block where there are no bytes.
    pub fn from_raw_bytes(bytes: Vec<u8>) -> (r: Option<IpldBlock>)
        ensures
            bytes@.len() == 0 ==> r is None,
            bytes@.len() > 0 ==> r is Some && r->Some_0.codec == DAG_CBOR && r->Some_0.data
                == bytes,
    {
        if bytes.len() == 0 {
            None
        } else {
            Some(IpldBlock { codec: DAG_CBOR, data: bytes })
        }
    }
}

} // verus!
