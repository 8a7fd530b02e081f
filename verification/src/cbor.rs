//! The few forms of CBOR that blocks are written in: heads in their shortest
//! form, unsigned numbers, byte strings and links.

use vstd::prelude::*;

verus! {

/// The major type of an unsigned number.
pub const MAJOR_UNSIGNED: u8 = 0;

/// The major type of a byte string.
pub const MAJOR_BYTES: u8 = 2;

/// The major type of an array.
pub const MAJOR_ARRAY: u8 = 4;

/// The major type of a tag.
pub const MAJOR_TAG: u8 = 6;

/// The tag of a link.
pub const TAG_LINK: u64 = 42;

/// The number of values of `n` bytes, `256^n`.
pub open spec fn radix(n: nat) -> nat
    decreases n,
{
    if n == 0 {
        1
    } else {
        256 * radix((n - 1) as nat)
    }
}

/// The `n` bytes of `v`, most significant first.
pub open spec fn be_bytes(v: nat, n: nat) -> Seq<u8>
    decreases n,
{
    if n == 0 {
        Seq::empty()
    } else {
        be_bytes(v / 256, (n - 1) as nat).push((v % 256) as u8)
    }
}

/// The number that bytes spell, most significant first.
pub open spec fn be_value(bytes: Seq<u8>) -> nat
    decreases bytes.len(),
{
    if bytes.len() == 0 {
        0
    } else {
        be_value(bytes.drop_last()) * 256 + bytes.last() as nat
    }
}

/// The numbers of values of 1, 2, 4 and 8 bytes.
pub proof fn lemma_radix_values()
    ensures
        radix(1) == 0x100,
        radix(2) == 0x1_0000,
        radix(4) == 0x1_0000_0000,
        radix(8) == 0x1_0000_0000_0000_0000,
{
    reveal_with_fuel(radix, 10);
}

/// The `n` bytes of a number are `n` bytes.
pub proof fn lemma_be_bytes_len(v: nat, n: nat)
    ensures
        be_bytes(v, n).len() == n,
    decreases n,
{
    if n > 0 {
        lemma_be_bytes_len(v / 256, (n - 1) as nat);
    }
}

/// Bytes spell the number they were made of.
pub proof fn lemma_be_round_trip(v: nat, n: nat)
    requires
        v < radix(n),
    ensures
        be_value(be_bytes(v, n)) == v,
    decreases n,
{
    if n > 0 {
        let shorter = be_bytes(v / 256, (n - 1) as nat);
        assert(be_bytes(v, n).drop_last() =~= shorter);
        lemma_be_round_trip(v / 256, (n - 1) as nat);
    }
}

/// What `n` bytes spell is one of the values of `n` bytes.
pub proof fn lemma_be_value_bound(bytes: Seq<u8>)
    ensures
        be_value(bytes) < radix(bytes.len()),
    decreases bytes.len(),
{
    if bytes.len() > 0 {
        lemma_be_value_bound(bytes.drop_last());
    }
}

/// The number of bytes that follow the first byte of the shortest head for `arg`.
pub open spec fn arg_len(arg: u64) -> nat {
    if arg < 24 {
        0
    } else if arg < 0x100 {
        1
    } else if arg < 0x1_0000 {
        2
    } else if arg < 0x1_0000_0000 {
        4
    } else {
        8
    }
}

/// The first byte of the shortest head of `major` for `arg`.
pub open spec fn head_byte(major: u8, arg: u64) -> u8
    recommends
        major < 8,
{
    let low: int = if arg < 24 {
        arg as int
    } else if arg < 0x100 {
        24
    } else if arg < 0x1_0000 {
        25
    } else if arg < 0x1_0000_0000 {
        26
    } else {
        27
    };
    (major * 32 + low) as u8
}

/// The shortest head of `major` for `arg`.
pub open spec fn head(major: u8, arg: u64) -> Seq<u8>
    recommends
        major < 8,
{
    seq![head_byte(major, arg)] + be_bytes(arg as nat, arg_len(arg))
}

/// What a head read at `pos` gives: its major type, its argument and where it ends.
pub struct Head {
    pub major: u8,
    pub arg: u64,
    pub next: usize,
}

/// The head that `bytes` holds at `pos`, if it is in the shortest form.
pub open spec fn parse_head(bytes: Seq<u8>, pos: int) -> Option<Head> {
    if !(0 <= pos < bytes.len()) {
        None
    } else {
        let major = bytes[pos] / 32;
        let low = bytes[pos] % 32;
        let n: int = if low < 24 {
            0
        } else if low == 24 {
            1
        } else if low == 25 {
            2
        } else if low == 26 {
            4
        } else {
            8
        };
        if low > 27 || pos + 1 + n > bytes.len() || pos + 1 + n > usize::MAX {
            None
        } else if low < 24 {
            Some(Head { major, arg: low as u64, next: (pos + 1) as usize })
        } else {
            let arg = be_value(bytes.subrange(pos + 1, pos + 1 + n));
            if arg <= u64::MAX && arg_len(arg as u64) == n {
                Some(Head { major, arg: arg as u64, next: (pos + 1 + n) as usize })
            } else {
                None
            }
        }
    }
}

/// A head is one byte and the bytes of its argument.
pub proof fn lemma_head_len(major: u8, arg: u64)
    ensures
        head(major, arg).len() == 1 + arg_len(arg),
        1 <= head(major, arg).len() <= 9,
{
    lemma_be_bytes_len(arg as nat, arg_len(arg));
}

/// A head written is the head read, whatever stands before and behind it.
pub proof fn lemma_parse_head(bytes: Seq<u8>, pos: int, major: u8, arg: u64)
    requires
        major < 8,
        0 <= pos,
        pos + head(major, arg).len() <= bytes.len() <= usize::MAX,
        bytes.subrange(pos, pos + head(major, arg).len()) == head(major, arg),
    ensures
        parse_head(bytes, pos) == Some(
            Head { major, arg, next: (pos + head(major, arg).len()) as usize },
        ),
{
    lemma_head_len(major, arg);
    lemma_radix_values();
    let h = head(major, arg);
    let n = arg_len(arg);
    assert(bytes[pos] == bytes.subrange(pos, pos + h.len())[0]);
    assert(h[0] == head_byte(major, arg));
    assert(bytes.subrange(pos + 1, pos + 1 + n) =~= be_bytes(arg as nat, n)) by {
        assert forall|k: int| 0 <= k < n implies bytes.subrange(pos + 1, pos + 1 + n)[k]
            == be_bytes(arg as nat, n)[k] by {
            assert(bytes[pos + 1 + k] == bytes.subrange(pos, pos + h.len())[1 + k]);
        }
    }
    if arg >= 24 {
        lemma_be_round_trip(arg as nat, n);
    }
}

/// Appends the `n` bytes of `v`, most significant first.
fn push_be(out: &mut Vec<u8>, v: u64, n: u8)
    requires
        n <= 8,
    ensures
        final(out)@ == old(out)@ + be_bytes(v as nat, n as nat),
    decreases n,
{
    if n > 0 {
        push_be(out, v / 256, n - 1);
        out.push((v % 256) as u8);
        proof {
            assert(out@ =~= old(out)@ + be_bytes(v as nat, n as nat));
        }
    } else {
        proof {
            assert(out@ =~= old(out)@ + be_bytes(v as nat, n as nat));
        }
    }
}

/// Appends the shortest head of `major` for `arg`.
pub fn write_head(out: &mut Vec<u8>, major: u8, arg: u64)
    requires
        major < 8,
    ensures
        final(out)@ == old(out)@ + head(major, arg),
{
    let base: u8 = major * 32;
    if arg < 24 {
        out.push(base + arg as u8);
        proof {
            assert(be_bytes(arg as nat, 0) =~= Seq::<u8>::empty());
            assert(out@ =~= old(out)@ + head(major, arg));
        }
    } else {
        let (low, n): (u8, u8) = if arg < 0x100 {
            (24, 1)
        } else if arg < 0x1_0000 {
            (25, 2)
        } else if arg < 0x1_0000_0000 {
            (26, 4)
        } else {
            (27, 8)
        };
        out.push(base + low);
        push_be(out, arg, n);
        proof {
            assert(out@ =~= old(out)@ + head(major, arg));
        }
    }
}

/// Reads the head at `pos`.
pub fn read_head(bytes: &[u8], pos: usize) -> (r: Option<Head>)
    ensures
        r == parse_head(bytes@, pos as int),
        r matches Some(h) ==> pos < h.next <= bytes@.len() && h.major < 8,
{
    let total = bytes.len();
    if pos >= total {
        return None;
    }
    let first = bytes[pos];
    let major = first / 32;
    let low = first % 32;
    if low < 24 {
        return Some(Head { major, arg: low as u64, next: pos + 1 });
    }
    if low > 27 {
        return None;
    }
    let n: usize = if low == 24 {
        1
    } else if low == 25 {
        2
    } else if low == 26 {
        4
    } else {
        8
    };
    if n > total - pos - 1 {
        return None;
    }
    let ghost field = bytes@.subrange(pos + 1, pos + 1 + n);
    let mut arg: u64 = 0;
    let mut k: usize = 0;
    while k < n
        invariant
            k <= n <= 8,
            total == bytes@.len(),
            pos + 1 + n <= bytes@.len(),
            field == bytes@.subrange(pos + 1, pos + 1 + n),
            arg == be_value(field.subrange(0, k as int)),
        decreases n - k,
    {
        proof {
            let upto = field.subrange(0, k + 1);
            assert(upto.drop_last() =~= field.subrange(0, k as int));
            lemma_be_value_bound(field.subrange(0, k as int));
            lemma_radix_values();
            reveal_with_fuel(radix, 10);
        }
        arg = arg * 256 + bytes[pos + 1 + k] as u64;
        k += 1;
    }
    proof {
        assert(field.subrange(0, n as int) =~= field);
    }
    let shortest = if arg < 24 {
        false
    } else if arg < 0x100 {
        n == 1
    } else if arg < 0x1_0000 {
        n == 2
    } else if arg < 0x1_0000_0000 {
        n == 4
    } else {
        n == 8
    };
    if shortest {
        Some(Head { major, arg, next: pos + 1 + n })
    } else {
        None
    }
}

} // verus!
