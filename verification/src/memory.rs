//! Bounds-checked access to a guest's linear memory.

use crate::content_id::{cid_prefix, Cid};
use vstd::prelude::*;

verus! {

/// The number a failed memory access is reported under.
#[derive(Clone, Copy, Debug, PartialEq, Eq, Structural)]
pub enum ErrorNumber {
    IllegalArgument,
    BufferTooSmall,
}

/// Why a memory access was refused.
#[derive(Clone, Copy, Debug, PartialEq, Eq, Structural)]
pub enum SyscallError {
    /// The buffer `offset .. offset + len` does not lie inside the memory.
    BufferOutOfBounds { offset: u32, len: u32 },
    /// One of several requested ranges does not lie inside the memory.
    MemoryOutOfBounds,
    /// Two non-empty requested ranges share a byte.
    OverlappingRanges,
    /// No byte of the memory lies at `offset`, where an identifier was to be read.
    CidOutOfBounds { offset: u32 },
    /// The memory at the given offset does not begin with an identifier.
    CidParse,
    /// The buffer for an identifier is shorter than the identifier.
    CidBufferTooSmall,
}

impl SyscallError {
    /// The number this error is reported under.
    pub fn number(&self) -> (n: ErrorNumber)
        ensures
            n == (match *self {
                SyscallError::CidBufferTooSmall => ErrorNumber::BufferTooSmall,
                _ => ErrorNumber::IllegalArgument,
            }),
    {
        match self {
            SyscallError::CidBufferTooSmall => ErrorNumber::BufferTooSmall,
            _ => ErrorNumber::IllegalArgument,
        }
    }
}

/// What a system call works on: the kernel it speaks to and the caller's memory.
pub struct Context<'a, 'm, K> {
    pub kernel: &'a mut K,
    pub memory: &'a mut Memory<'m>,
}

/// A guest's linear memory.
pub struct Memory<'a> {
    pub bytes: &'a mut [u8],
}

impl<'a> Memory<'a> {
    /// The bytes of the memory.
    pub open spec fn view(&self) -> Seq<u8> {
        self.bytes@
    }

    /// Whether `offset .. offset + len` lies inside a memory of `size` bytes.
    pub open spec fn in_bounds(size: nat, offset: u32, len: u32) -> bool {
        offset + len <= size
    }

    /// The memory made of the bytes `m`.
    pub fn new(m: &'a mut [u8]) -> (mem: Memory<'a>)
        ensures
            mem@ == old(m)@,
    {
        Memory { bytes: m }
    }

    /// Whether the buffer `offset .. offset + len` lies inside the memory. The
    /// sum is taken in 64 bits, so that it cannot wrap.
    pub fn check_bounds(&self, offset: u32, len: u32) -> (r: Result<(), SyscallError>)
        ensures
            r is Ok <==> Self::in_bounds(self@.len(), offset, len),
            r is Err ==> r == Err::<(), SyscallError>(SyscallError::BufferOutOfBounds { offset, len }),
    {
        if (offset as u64) + (len as u64) <= (self.bytes.len() as u64) {
            Ok(())
        } else {
            Err(SyscallError::BufferOutOfBounds { offset, len })
        }
    }

    /// The bytes `offset .. offset + len` of the memory.
    pub fn try_slice(&self, offset: u32, len: u32) -> (r: Result<&[u8], SyscallError>)
        ensures
            r is Ok <==> Self::in_bounds(self@.len(), offset, len),
            r is Ok ==> r->Ok_0@ == self@.subrange(offset as int, offset + len),
            r is Err ==> r == Err::<&[u8], SyscallError>(SyscallError::BufferOutOfBounds { offset, len }),
    {
        if (offset as u64) + (len as u64) <= (self.bytes.len() as u64) {
            Ok(vstd::slice::slice_subrange(self.bytes, offset as usize, offset as usize + len as usize))
        } else {
            Err(SyscallError::BufferOutOfBounds { offset, len })
        }
    }

    /// The bytes `offset .. offset + len` of the memory, to be written to:
    /// what is written to them is written to the memory.
    pub fn try_slice_mut(&mut self, offset: u32, len: u32) -> (r: Result<&mut [u8], SyscallError>)
        ensures
            r is Ok <==> Self::in_bounds(old(self)@.len(), offset, len),
            r is Err ==> r == Err::<&mut [u8], SyscallError>(SyscallError::BufferOutOfBounds { offset, len }),
            r is Err ==> final(self)@ == old(self)@,
            r is Ok ==> r->Ok_0@ == old(self)@.subrange(offset as int, offset + len),
            r is Ok ==> final(r->Ok_0)@.len() == len,
            r is Ok ==> final(self)@ == old(self)@.subrange(0, offset as int) + final(r->Ok_0)@
                + old(self)@.subrange(offset + len, old(self)@.len() as int),
    {
        if (offset as u64) + (len as u64) <= (self.bytes.len() as u64) {
            let (_, tail) = split_mut(self.bytes, offset as usize);
            let (out, _) = split_mut(tail, len as usize);
            Ok(out)
        } else {
            Err(SyscallError::BufferOutOfBounds { offset, len })
        }
    }

    /// One mutable slice per range, each at the position of its range. Every
    /// range must lie inside the memory, an empty one too, and no two non-empty
    /// ranges may share a byte. The ranges are looked at by ascending start, of
    /// two with one start the earlier first, and the first at fault gives the
    /// error. A single range is treated as `try_slice_mut` treats it.
    pub fn try_slice_many<'b, const S: usize>(&'b mut self, ranges: [(u32, u32); S]) -> (r: Result<
        Vec<&'b mut [u8]>,
        SyscallError,
    >)
        ensures
            r is Ok <==> ranges_in_bounds(ranges@, old(self)@.len()) && ranges_disjoint(ranges@),
            r matches Err(e) ==> final(self)@ == old(self)@ && (if S == 1 {
                e == (SyscallError::BufferOutOfBounds { offset: ranges@[0].0, len: ranges@[0].1 })
            } else {
                exists|k: int| first_fault(ranges@, old(self)@.len(), k, e)
            }),
            r matches Ok(out) ==> {
                &&& out@.len() == S
                &&& final(self)@.len() == old(self)@.len()
                &&& forall|i: int|
                    0 <= i < S ==> out@[i]@ == old(self)@.subrange(
                        (#[trigger] ranges@[i]).0 as int,
                        range_end(ranges@[i]),
                    )
                &&& forall|i: int|
                    0 <= i < S ==> final(self)@.subrange(
                        (#[trigger] ranges@[i]).0 as int,
                        range_end(ranges@[i]),
                    ) == final(out@[i])@
                &&& forall|p: int|
                    0 <= p < old(self)@.len() && !covered(ranges@, p) ==> final(self)@[p] == old(
                        self,
                    )@[p]
            },
    {
        if S == 1 {
            let (off, len) = ranges[0];
            proof {
                assert(ranges_disjoint(ranges@));
                assert(ranges_in_bounds(ranges@, self@.len()) <==> Self::in_bounds(
                    self@.len(),
                    off,
                    len,
                )) by {
                    if ranges_in_bounds(ranges@, self@.len()) {
                        assert(range_end(ranges@[0]) <= self@.len());
                    }
                }
            }
            let ghost before = self@;
            let ghost origin = self;
            return match self.try_slice_mut(off, len) {
                Ok(slice) => {
                    let mut out: Vec<&'b mut [u8]> = Vec::new();
                    out.push(slice);
                    proof {
                        let fin = final(origin)@;
                        assert(fin.subrange(off as int, off + len) =~= final(out@[0])@);
                        assert forall|p: int|
                            0 <= p < before.len() && !covered(ranges@, p) implies fin[p]
                            == before[p] by {
                            if off <= p < off + len {
                                assert(ranges@[0].0 <= p < range_end(ranges@[0]));
                            }
                        }
                    }
                    Ok(out)
                },
                Err(e) => Err(e),
            };
        }
        let order = start_order(&ranges);
        let size = self.bytes.len();
        match check_ranges(size, &ranges, &order) {
            Ok(()) => Ok(carve(self.bytes, &ranges, &order)),
            Err(e) => Err(e),
        }
    }

    /// The identifier that the memory holds at `offset`. It is read up to the
    /// end of the memory: the identifier says itself where it ends.
    pub fn read_cid(&self, offset: u32) -> (r: Result<Cid, SyscallError>)
        ensures
            r is Ok <==> offset <= self@.len() && cid_prefix(
                self@.subrange(offset as int, self@.len() as int),
            ) is Some,
            r matches Ok(k) ==> k.wf() && Some(k@) == cid_prefix(
                self@.subrange(offset as int, self@.len() as int),
            ),
            r matches Err(e) ==> e == (if offset <= self@.len() {
                SyscallError::CidParse
            } else {
                SyscallError::CidOutOfBounds { offset }
            }),
    {
        let size = self.bytes.len();
        if offset as u64 > size as u64 {
            return Err(SyscallError::CidOutOfBounds { offset });
        }
        let tail = vstd::slice::slice_subrange(self.bytes, offset as usize, size);
        match Cid::read_bytes(tail) {
            Some(k) => Ok(k),
            None => Err(SyscallError::CidParse),
        }
    }

    /// Writes the binary form of `k` to the front of the buffer
    /// `offset .. offset + len` and returns how many bytes that took.
    pub fn write_cid(&mut self, k: &Cid, offset: u32, len: u32) -> (r: Result<u32, SyscallError>)
        ensures
            r is Ok <==> Self::in_bounds(old(self)@.len(), offset, len) && k@.len() <= len,
            r matches Ok(n) ==> n == k@.len() && final(self)@ == old(self)@.subrange(
                0,
                offset as int,
            ) + k@ + old(self)@.subrange(offset + n, old(self)@.len() as int),
            r matches Err(e) ==> final(self)@ == old(self)@ && e == (if Self::in_bounds(
                old(self)@.len(),
                offset,
                len,
            ) {
                SyscallError::CidBufferTooSmall
            } else {
                SyscallError::BufferOutOfBounds { offset, len }
            }),
    {
        let ghost before = self@;
        let ghost origin = self;
        let bytes = k.as_bytes();
        let n = bytes.len();
        match self.try_slice_mut(offset, len) {
            Err(e) => Err(e),
            Ok(out) => {
                if n > out.len() {
                    proof {
                        assert(final(origin)@ =~= before);
                    }
                    return Err(SyscallError::CidBufferTooSmall);
                }
                let mut i: usize = 0;
                while i < n
                    invariant
                        i <= n <= len,
                        n == bytes@.len(),
                        out@.len() == len,
                        out@.subrange(0, i as int) == bytes@.subrange(0, i as int),
                        out@.subrange(n as int, len as int) == before.subrange(
                            offset + n,
                            offset + len,
                        ),
                    decreases n - i,
                {
                    let ghost prev = out@;
                    out[i] = bytes[i];
                    proof {
                        assert(out@.subrange(0, i + 1) =~= prev.subrange(0, i as int).push(
                            bytes@[i as int],
                        ));
                        assert(bytes@.subrange(0, i + 1) =~= bytes@.subrange(0, i as int).push(
                            bytes@[i as int],
                        ));
                        assert(out@.subrange(n as int, len as int) =~= prev.subrange(
                            n as int,
                            len as int,
                        ));
                    }
                    i += 1;
                }
                proof {
                    assert(bytes@ =~= bytes@.subrange(0, n as int));
                    assert(out@ =~= out@.subrange(0, n as int) + out@.subrange(n as int, len as int));
                    assert(final(origin)@ =~= before.subrange(0, offset as int) + k@
                        + before.subrange(offset + n, before.len() as int));
                }
                Ok(n as u32)
            },
        }
    }
}

/// The first byte past the range `r`, which starts at `r.0` and holds `r.1` bytes.
pub open spec fn range_end(r: (u32, u32)) -> int {
    r.0 + r.1
}

/// Every range ends inside a memory of `size` bytes. An empty range must lie
/// inside it too.
pub open spec fn ranges_in_bounds(ranges: Seq<(u32, u32)>, size: nat) -> bool {
    forall|i: int| 0 <= i < ranges.len() ==> range_end(#[trigger] ranges[i]) <= size
}

/// No two non-empty ranges share a byte. An empty range overlaps nothing.
pub open spec fn ranges_disjoint(ranges: Seq<(u32, u32)>) -> bool {
    forall|i: int, j: int|
        0 <= i < ranges.len() && 0 <= j < ranges.len() && i != j && (#[trigger] ranges[i]).1 > 0
            && (#[trigger] ranges[j]).1 > 0 ==> range_end(ranges[i]) <= ranges[j].0 || range_end(
            ranges[j],
        ) <= ranges[i].0
}

/// Byte `p` lies in one of the non-empty ranges.
pub open spec fn covered(ranges: Seq<(u32, u32)>, p: int) -> bool {
    exists|i: int| 0 <= i < ranges.len() && (#[trigger] ranges[i]).0 <= p < range_end(ranges[i])
}

/// The range at position `j` is looked at before the range at position `k`: it
/// starts earlier, or at the same byte and stands earlier among the ranges.
pub open spec fn looked_at_before(ranges: Seq<(u32, u32)>, j: int, k: int) -> bool {
    ranges[j].0 < ranges[k].0 || (ranges[j].0 == ranges[k].0 && j < k)
}

/// The range at position `k` begins inside a non-empty range that is looked at
/// before it.
pub open spec fn clashes(ranges: Seq<(u32, u32)>, k: int) -> bool {
    ranges[k].1 > 0 && exists|j: int|
        0 <= j < ranges.len() && looked_at_before(ranges, j, k) && (#[trigger] ranges[j]).1 > 0
            && range_end(ranges[j]) > ranges[k].0
}

/// The fault of the range at position `k`, if it has one: it leaves a memory of
/// `size` bytes, or else it clashes.
pub open spec fn fault(ranges: Seq<(u32, u32)>, size: nat, k: int) -> Option<SyscallError> {
    if range_end(ranges[k]) > size {
        Some(SyscallError::MemoryOutOfBounds)
    } else if clashes(ranges, k) {
        Some(SyscallError::OverlappingRanges)
    } else {
        None
    }
}

/// The range at position `k` is the first at fault, and `e` is its fault.
pub open spec fn first_fault(ranges: Seq<(u32, u32)>, size: nat, k: int, e: SyscallError) -> bool {
    &&& 0 <= k < ranges.len()
    &&& fault(ranges, size, k) == Some(e)
    &&& forall|j: int|
        0 <= j < ranges.len() && looked_at_before(ranges, j, k) ==> (#[trigger] fault(
            ranges,
            size,
            j,
        )) is None
}

/// `order` lists every position of `ranges` once, in the order in which the
/// ranges are looked at.
pub open spec fn is_start_order(order: Seq<usize>, ranges: Seq<(u32, u32)>) -> bool {
    &&& order.len() == ranges.len()
    &&& forall|k: int| 0 <= k < order.len() ==> (#[trigger] order[k]) < ranges.len()
    &&& forall|i: usize| i < ranges.len() ==> #[trigger] order.contains(i)
    &&& forall|a: int, b: int|
        0 <= a < b < order.len() ==> looked_at_before(
            ranges,
            (#[trigger] order[a]) as int,
            (#[trigger] order[b]) as int,
        )
}

/// Along `order`, each non-empty range ends before the next non-empty one starts.
pub open spec fn is_chain(order: Seq<usize>, ranges: Seq<(u32, u32)>, upto: int) -> bool {
    forall|a: int, b: int|
        0 <= a < b < upto && ranges[(#[trigger] order[a]) as int].1 > 0 && ranges[(
        #[trigger] order[b]) as int].1 > 0 ==> range_end(ranges[order[a] as int])
            <= ranges[order[b] as int].0
}

/// The positions `0 .. S` by ascending start of the range at each: each goes in
/// behind those that start no later.
fn start_order<const S: usize>(ranges: &[(u32, u32); S]) -> (order: Vec<usize>)
    ensures
        is_start_order(order@, ranges@),
{
    let mut order: Vec<usize> = Vec::new();
    let mut i: usize = 0;
    while i < S
        invariant
            i <= S,
            order@.len() == i,
            forall|k: int| 0 <= k < i ==> (#[trigger] order@[k]) < i,
            forall|v: usize| v < i ==> #[trigger] order@.contains(v),
            forall|a: int, b: int|
                0 <= a < b < i ==> looked_at_before(
                    ranges@,
                    (#[trigger] order@[a]) as int,
                    (#[trigger] order@[b]) as int,
                ),
        decreases S - i,
    {
        let ghost sorted = order@;
        order.push(i);
        let mut j: usize = i;
        proof {
            assert forall|v: usize| v < i + 1 implies #[trigger] order@.contains(v) by {
                if v < i {
                    assert(sorted.contains(v));
                    let k = choose|k: int| 0 <= k < sorted.len() && sorted[k] == v;
                    assert(order@[k] == v);
                } else {
                    assert(order@[i as int] == v);
                }
            }
        }
        while j > 0 && ranges[order[j - 1]].0 > ranges[i].0
            invariant
                j <= i < S,
                order@.len() == i + 1,
                order@[j as int] == i,
                forall|k: int| 0 <= k <= i && k != j ==> (#[trigger] order@[k]) < i,
                forall|v: usize| v < i + 1 ==> #[trigger] order@.contains(v),
                forall|a: int, b: int|
                    0 <= a < b <= i && a != j && b != j ==> looked_at_before(
                        ranges@,
                        (#[trigger] order@[a]) as int,
                        (#[trigger] order@[b]) as int,
                    ),
                forall|b: int|
                    j < b <= i ==> ranges@[i as int].0 < ranges@[(#[trigger] order@[b]) as int].0,
            decreases j,
        {
            let ghost prev = order@;
            let moved = order[j - 1];
            order[j] = moved;
            order[j - 1] = i;
            proof {
                assert forall|v: usize| v < i + 1 implies #[trigger] order@.contains(v) by {
                    assert(prev.contains(v));
                    let k = choose|k: int| 0 <= k < prev.len() && prev[k] == v;
                    if k == j {
                        assert(order@[j - 1] == v);
                    } else if k == j - 1 {
                        assert(order@[j as int] == v);
                    } else {
                        assert(order@[k] == v);
                    }
                }
                assert forall|a: int, b: int|
                    0 <= a < b <= i && a != j - 1 && b != j - 1 implies looked_at_before(
                    ranges@,
                    (#[trigger] order@[a]) as int,
                    (#[trigger] order@[b]) as int,
                ) by {
                    let from_a = if a == j {
                        j - 1
                    } else {
                        a
                    };
                    let from_b = if b == j {
                        j - 1
                    } else {
                        b
                    };
                    assert(order@[a] == prev[from_a]);
                    assert(order@[b] == prev[from_b]);
                    assert(looked_at_before(ranges@, prev[from_a] as int, prev[from_b] as int));
                }
                assert forall|b: int| j - 1 < b <= i implies ranges@[i as int].0 < ranges@[(
                #[trigger] order@[b]) as int].0 by {
                    if b > j {
                        assert(order@[b] == prev[b]);
                    }
                }
            }
            j -= 1;
        }
        proof {
            assert forall|a: int, b: int| 0 <= a < b < i + 1 implies looked_at_before(
                ranges@,
                (#[trigger] order@[a]) as int,
                (#[trigger] order@[b]) as int,
            ) by {
                if a == j {
                    assert(ranges@[i as int].0 < ranges@[order@[b] as int].0);
                } else if b == j {
                    assert(order@[a] < i);
                    if a < j - 1 {
                        assert(looked_at_before(
                            ranges@,
                            order@[a] as int,
                            order@[j - 1] as int,
                        ));
                    }
                }
            }
            assert forall|k: int| 0 <= k < i + 1 implies (#[trigger] order@[k]) < i + 1 by {}
        }
        i += 1;
    }
    order
}

/// A range that is looked at before the range at a place of the order stands
/// at an earlier place of the order.
proof fn lemma_looked_at(order: Seq<usize>, ranges: Seq<(u32, u32)>, j: int, k: int)
    requires
        is_start_order(order, ranges),
        ranges.len() <= usize::MAX,
        0 <= k < order.len(),
        0 <= j < ranges.len(),
        looked_at_before(ranges, j, order[k] as int),
    ensures
        exists|p: int| 0 <= p < k && #[trigger] order[p] == j,
{
    assert(order.contains(j as usize));
    let p = choose|p: int| 0 <= p < order.len() && order[p] == j as usize;
    if p > k {
        assert(looked_at_before(ranges, order[k] as int, order[p] as int));
    }
    assert(order[p] == j);
}

/// Walks the ranges by ascending start and refuses the first that leaves the
/// memory or begins before the last non-empty one ended.
fn check_ranges<const S: usize>(size: usize, ranges: &[(u32, u32); S], order: &Vec<usize>) -> (r:
    Result<(), SyscallError>)
    requires
        is_start_order(order@, ranges@),
    ensures
        r is Ok <==> ranges_in_bounds(ranges@, size as nat) && ranges_disjoint(ranges@),
        r is Ok ==> is_chain(order@, ranges@, S as int),
        r matches Err(e) ==> exists|k: int| first_fault(ranges@, size as nat, k, e),
{
    let mut mem_offset: u64 = 0;
    let ghost mut last: int = -1;
    let mut k: usize = 0;
    while k < S
        invariant
            k <= S,
            is_start_order(order@, ranges@),
            is_chain(order@, ranges@, k as int),
            forall|a: int| 0 <= a < k ==> range_end(ranges@[(#[trigger] order@[a]) as int]) <= size,
            forall|a: int|
                0 <= a < k && ranges@[(#[trigger] order@[a]) as int].1 > 0 ==> range_end(
                    ranges@[order@[a] as int],
                ) <= mem_offset,
            -1 <= last < k,
            last == -1 ==> mem_offset == 0,
            last >= 0 ==> ranges@[order@[last] as int].1 > 0 && range_end(
                ranges@[order@[last] as int],
            ) == mem_offset,
            forall|a: int| 0 <= a < k ==> fault(ranges@, size as nat, (#[trigger] order@[a]) as int)
                is None,
        decreases S - k,
    {
        let idx = order[k];
        let (off, len) = ranges[idx];
        let end: u64 = off as u64 + len as u64;
        proof {
            assert forall|j: int|
                0 <= j < ranges@.len() && looked_at_before(ranges@, j, idx as int) implies (
            #[trigger] fault(ranges@, size as nat, j)) is None by {
                lemma_looked_at(order@, ranges@, j, k as int);
                let p = choose|p: int| 0 <= p < k && order@[p] == j;
                assert(fault(ranges@, size as nat, order@[p] as int) is None);
            }
        }
        if end > size as u64 {
            proof {
                assert(first_fault(ranges@, size as nat, idx as int, SyscallError::MemoryOutOfBounds));
            }
            return Err(SyscallError::MemoryOutOfBounds);
        }
        if len != 0 {
            if (off as u64) < mem_offset {
                proof {
                    assert(looked_at_before(ranges@, order@[last] as int, order@[k as int] as int));
                    assert(clashes(ranges@, idx as int));
                    assert(first_fault(
                        ranges@,
                        size as nat,
                        idx as int,
                        SyscallError::OverlappingRanges,
                    ));
                }
                return Err(SyscallError::OverlappingRanges);
            }
            proof {
                if clashes(ranges@, idx as int) {
                    let j = choose|j: int|
                        0 <= j < ranges@.len() && looked_at_before(ranges@, j, idx as int) && (
                        #[trigger] ranges@[j]).1 > 0 && range_end(ranges@[j]) > ranges@[idx as int].0;
                    lemma_looked_at(order@, ranges@, j, k as int);
                    let p = choose|p: int| 0 <= p < k && order@[p] == j;
                    assert(range_end(ranges@[order@[p] as int]) <= mem_offset);
                }
            }
            mem_offset = end;
            proof {
                last = k as int;
            }
        }
        k += 1;
    }
    proof {
        assert forall|i: int| 0 <= i < ranges@.len() implies range_end(#[trigger] ranges@[i])
            <= size by {
            assert(order@.contains(i as usize));
            let a = choose|a: int| 0 <= a < order@.len() && order@[a] == i as usize;
            assert(range_end(ranges@[order@[a] as int]) <= size);
        }
        assert forall|i: int, j: int|
            0 <= i < ranges@.len() && 0 <= j < ranges@.len() && i != j && (#[trigger] ranges@[i]).1
                > 0 && (#[trigger] ranges@[j]).1 > 0 implies range_end(ranges@[i]) <= ranges@[j].0
            || range_end(ranges@[j]) <= ranges@[i].0 by {
            assert(order@.contains(i as usize));
            assert(order@.contains(j as usize));
            let a = choose|a: int| 0 <= a < order@.len() && order@[a] == i as usize;
            let b = choose|b: int| 0 <= b < order@.len() && order@[b] == j as usize;
            if a < b {
                assert(range_end(ranges@[order@[a] as int]) <= ranges@[order@[b] as int].0);
            } else {
                assert(range_end(ranges@[order@[b] as int]) <= ranges@[order@[a] as int].0);
            }
        }
    }
    Ok(())
}

/// `split_at_mut` of the standard library: the two halves are the bytes before
/// and from `mid`, and the slice ends as its halves end, one after the other.
/// To what vstd says of it this adds that neither half can change its length:
/// whatever is written through a mutable slice, the slice stays as long as it
/// is.
#[verifier::external_body]
fn split_mut<'a>(slice: &'a mut [u8], mid: usize) -> (halves: (&'a mut [u8], &'a mut [u8]))
    requires
        mid <= old(slice)@.len(),
    ensures
        halves.0@ == old(slice)@.subrange(0, mid as int),
        halves.1@ == old(slice)@.subrange(mid as int, old(slice)@.len() as int),
        final(slice)@ == final(halves.0)@ + final(halves.1)@,
        final(halves.0)@.len() == mid,
        final(halves.1)@.len() == old(slice)@.len() - mid,
{
    slice.split_at_mut(mid)
}

/// Cuts `mem` into one slice per range, each at the position of its range.
fn carve<'a, const S: usize>(mem: &'a mut [u8], ranges: &[(u32, u32); S], order: &Vec<usize>) -> (out:
    Vec<&'a mut [u8]>)
    requires
        is_start_order(order@, ranges@),
        is_chain(order@, ranges@, S as int),
        ranges_in_bounds(ranges@, old(mem)@.len()),
    ensures
        out@.len() == S,
        final(mem)@.len() == old(mem)@.len(),
        forall|i: int|
            0 <= i < S ==> out@[i]@ == old(mem)@.subrange(
                (#[trigger] ranges@[i]).0 as int,
                range_end(ranges@[i]),
            ),
        forall|i: int|
            0 <= i < S ==> final(mem)@.subrange(
                (#[trigger] ranges@[i]).0 as int,
                range_end(ranges@[i]),
            ) == final(out@[i])@,
        forall|p: int|
            0 <= p < old(mem)@.len() && !covered(ranges@, p) ==> final(mem)@[p] == old(mem)@[p],
{
    let ghost whole = mem@;
    let ghost origin = mem;
    let total: usize = mem.len();
    let (_, all) = split_mut(mem, 0);
    let mut rest: &'a mut [u8] = all;
    let mut out: Vec<&'a mut [u8]> = Vec::new();
    let mut n: usize = 0;
    while n < S
        invariant
            n <= S,
            out@.len() == n,
            rest@ == whole,
            final(origin)@ == final(rest)@,
            final(rest)@.len() == whole.len(),
            forall|i: int|
                #![trigger out@[i]]
                0 <= i < n ==> out@[i]@.len() == 0 && final(out@[i])@.len() == 0,
        decreases S - n,
    {
        let (empty, tail) = split_mut(rest, 0);
        out.push(empty);
        rest = tail;
        n += 1;
    }
    let mut mem_offset: usize = 0;
    let ghost mut last: int = -1;
    let mut k: usize = 0;
    while k < S
        invariant
            k <= S,
            out@.len() == S,
            whole == old(mem)@,
            total == whole.len(),
            -1 <= last < k,
            last == -1 ==> mem_offset == 0,
            last >= 0 ==> ranges@[order@[last] as int].1 > 0 && range_end(
                ranges@[order@[last] as int],
            ) == mem_offset,
            is_start_order(order@, ranges@),
            is_chain(order@, ranges@, S as int),
            ranges_in_bounds(ranges@, whole.len()),
            mem_offset <= whole.len(),
            rest@ == whole.subrange(mem_offset as int, whole.len() as int),
            final(origin)@.len() == whole.len(),
            final(origin)@.subrange(mem_offset as int, whole.len() as int) == final(rest)@,
            forall|a: int|
                0 <= a < k && ranges@[(#[trigger] order@[a]) as int].1 > 0 ==> range_end(
                    ranges@[order@[a] as int],
                ) <= mem_offset,
            forall|a: int|
                0 <= a < k ==> out@[(#[trigger] order@[a]) as int]@ == whole.subrange(
                    ranges@[order@[a] as int].0 as int,
                    range_end(ranges@[order@[a] as int]),
                ),
            forall|a: int|
                0 <= a < k && ranges@[(#[trigger] order@[a]) as int].1 > 0 ==> final(origin)@.subrange(
                    ranges@[order@[a] as int].0 as int,
                    range_end(ranges@[order@[a] as int]),
                ) == final(out@[order@[a] as int])@,
            forall|a: int|
                k <= a < S ==> out@[(#[trigger] order@[a]) as int]@.len() == 0 && final(
                    out@[order@[a] as int])@.len() == 0,
            forall|a: int|
                0 <= a < k && ranges@[(#[trigger] order@[a]) as int].1 == 0 ==> final(
                    out@[order@[a] as int])@.len() == 0,
            forall|p: int|
                0 <= p < mem_offset && !covered(ranges@, p) ==> final(origin)@[p] == whole[p],
        decreases S - k,
    {
        let idx = order[k];
        let (off, len) = ranges[idx];
        if len != 0 {
            let ghost rest_before = rest@;
            assert(range_end(ranges@[idx as int]) <= whole.len());
            let gap_len: usize = off as usize - mem_offset;
            let (gap, tail) = split_mut(rest, gap_len);
            let (slice, after) = split_mut(tail, len as usize);
            proof {
                let fin = final(origin)@;
                let end = off + len;
                assert(final(gap)@ == gap@);
                assert(fin.subrange(mem_offset as int, whole.len() as int) == gap@ + (final(
                    slice)@ + final(after)@));
                assert(slice@ =~= whole.subrange(off as int, end));
                assert(after@ =~= whole.subrange(end, whole.len() as int));
                assert(fin.subrange(off as int, end) =~= final(slice)@) by {
                    assert forall|q: int| 0 <= q < len implies fin.subrange(off as int, end)[q]
                        == final(slice)@[q] by {
                        assert(fin[off + q] == fin.subrange(
                            mem_offset as int,
                            whole.len() as int,
                        )[off + q - mem_offset]);
                    }
                }
                assert(fin.subrange(end, whole.len() as int) =~= final(after)@) by {
                    assert forall|q: int| 0 <= q < whole.len() - end implies fin.subrange(
                        end,
                        whole.len() as int,
                    )[q] == final(after)@[q] by {
                        assert(fin[end + q] == fin.subrange(
                            mem_offset as int,
                            whole.len() as int,
                        )[end + q - mem_offset]);
                    }
                }
                assert forall|p: int| 0 <= p < end && !covered(ranges@, p) implies fin[p]
                    == whole[p] by {
                    if p >= off {
                        assert(ranges@[idx as int].0 <= p < range_end(ranges@[idx as int]));
                    } else if p >= mem_offset {
                        assert(fin[p] == fin.subrange(mem_offset as int, whole.len() as int)[p
                            - mem_offset]);
                        assert(gap@[p - mem_offset] == rest_before[p - mem_offset]);
                    }
                }
                assert forall|a: int| 0 <= a < S && order@[a] == idx implies a == k by {}
            }
            out[idx] = slice;
            rest = after;
            mem_offset = off as usize + len as usize;
            proof {
                last = k as int;
            }
        } else {
            proof {
                assert(out@[idx as int]@ =~= whole.subrange(off as int, off + len));
            }
        }
        k += 1;
    }
    proof {
        let fin = final(origin)@;
        assert(final(rest)@ == rest@);
        assert forall|i: int| 0 <= i < S implies out@[i]@ == whole.subrange(
            (#[trigger] ranges@[i]).0 as int,
            range_end(ranges@[i]),
        ) && fin.subrange(ranges@[i].0 as int, range_end(ranges@[i])) == final(out@[i])@ by {
            assert(order@.contains(i as usize));
            let a = choose|a: int| 0 <= a < order@.len() && order@[a] == i as usize;
            assert(order@[a] == i);
            if ranges@[i].1 == 0 {
                assert(fin.subrange(ranges@[i].0 as int, range_end(ranges@[i])) =~= final(
                    out@[i])@);
            }
        }
        assert forall|p: int| 0 <= p < whole.len() && !covered(ranges@, p) implies fin[p]
            == whole[p] by {
            if p >= mem_offset {
                assert(fin[p] == fin.subrange(mem_offset as int, whole.len() as int)[p
                    - mem_offset]);
            }
        }
    }
    out
}

} // verus!
