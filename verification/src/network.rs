//! What a guest asks of the network: the circulating supply and the
//! identifier of a tipset.

use crate::content_id::Cid;
use crate::memory::{Memory, SyscallError};
use vstd::prelude::*;

verus! {

/// An amount of tokens as it is handed to a guest: the low and the high 64
/// bits of a 128-bit number.
#[derive(Clone, Copy, Debug, PartialEq, Eq, Structural)]
pub struct TokenAmount {
    pub lo: u64,
    pub hi: u64,
}

impl View for TokenAmount {
    type V = nat;

    open spec fn view(&self) -> nat {
        (self.lo + self.hi * 0x1_0000_0000_0000_0000) as nat
    }
}

/// An error that ends the machine: the circulating supply is no 128-bit number.
#[derive(Clone, Copy, Debug, PartialEq, Eq, Structural)]
pub struct SupplyTooLarge;

impl TokenAmount {
    /// The amount `atto`, split in two.
    pub fn from_atto(atto: u128) -> (amount: TokenAmount)
        ensures
            amount@ == atto,
    {
        let lo = (atto % 0x1_0000_0000_0000_0000) as u64;
        let hi = (atto / 0x1_0000_0000_0000_0000) as u64;
        TokenAmount { lo, hi }
    }
}

/// The circulating supply as it is handed to a guest. The supply comes as a
/// 128-bit number, or as none where it is too large to be one.
pub fn total_fil_circ_supply(supply: Option<u128>) -> (r: Result<TokenAmount, SupplyTooLarge>)
    ensures
        supply matches Some(atto) ==> r is Ok && r->Ok_0@ == atto,
        supply is None ==> r is Err,
{
    match supply {
        Some(atto) => Ok(TokenAmount::from_atto(atto)),
        None => Err(SupplyTooLarge),
    }
}

/// What is known of a write of a tipset's identifier once the buffer is known
/// to lie in memory: what `lookup` gave for the epoch went into the buffer.
pub open spec fn tipset_written(
    found: Result<Cid, SyscallError>,
    before: Seq<u8>,
    after: Seq<u8>,
    obuf_off: u32,
    obuf_len: u32,
    r: Result<u32, SyscallError>,
) -> bool {
    match found {
        Err(e) => r == Err::<u32, SyscallError>(e) && after == before,
        Ok(cid) => if cid@.len() <= obuf_len {
            r == Ok::<u32, SyscallError>(cid@.len() as u32) && after == before.subrange(
                0,
                obuf_off as int,
            ) + cid@ + before.subrange(obuf_off + cid@.len(), before.len() as int)
        } else {
            r == Err::<u32, SyscallError>(SyscallError::CidBufferTooSmall) && after == before
        },
    }
}

/// Writes the identifier of the tipset of `epoch`, which `lookup` finds, into
/// the buffer `obuf_off .. obuf_off + obuf_len`, and returns its length. The
/// buffer is checked before the tipset is looked up.
pub fn tipset_cid<F: FnOnce(i64) -> Result<Cid, SyscallError>>(
    memory: &mut Memory,
    lookup: F,
    epoch: i64,
    obuf_off: u32,
    obuf_len: u32,
) -> (r: Result<u32, SyscallError>)
    requires
        call_requires(lookup, (epoch,)),
    ensures
        !Memory::in_bounds(old(memory)@.len(), obuf_off, obuf_len) ==> r == Err::<
            u32,
            SyscallError,
        >(SyscallError::BufferOutOfBounds { offset: obuf_off, len: obuf_len }) && final(memory)@
            == old(memory)@,
        Memory::in_bounds(old(memory)@.len(), obuf_off, obuf_len) ==> exists|
            found: Result<Cid, SyscallError>,
        |
            call_ensures(lookup, (epoch,), found) && tipset_written(
                found,
                old(memory)@,
                final(memory)@,
                obuf_off,
                obuf_len,
                r,
            ),
{
    match memory.check_bounds(obuf_off, obuf_len) {
        Err(e) => { return Err(e); },
        Ok(()) => {},
    }
    let found = lookup(epoch);
    let r = match &found {
        Err(e) => Err(*e),
        Ok(cid) => memory.write_cid(cid, obuf_off, obuf_len),
    };
    proof {
        assert(tipset_written(found, old(memory)@, memory@, obuf_off, obuf_len, r));
    }
    r
}

} // verus!
