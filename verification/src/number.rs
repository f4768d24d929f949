//! Big-endian numbers.

use vstd::arithmetic::power::{lemma_pow_increases, pow};
use vstd::prelude::*;

verus! {

/// The number whose base-256 digits are the bytes, most significant first
pub open spec fn be_value(bytes: Seq<u8>) -> nat
    decreases bytes.len(),
{
    if bytes.len() == 0 {
        0
    } else {
        be_value(bytes.drop_last()) * 0x100 + bytes.last() as nat
    }
}

/// The last `width` base-256 digits of the number, most significant first
pub open spec fn be_bytes(value: nat, width: nat) -> Seq<u8>
    decreases width,
{
    if width == 0 {
        seq![]
    } else {
        be_bytes(value / 0x100, (width - 1) as nat).push((value % 0x100) as u8)
    }
}

/// As many bytes are written as were asked for.
pub proof fn lemma_be_bytes_len(value: nat, width: nat)
    ensures
        be_bytes(value, width).len() == width,
    decreases width,
{
    if width > 0 {
        lemma_be_bytes_len(value / 0x100, (width - 1) as nat);
    }
}

/// A number is read back from its digits if there is room for all of them.
pub proof fn lemma_be_round_trip(value: nat, width: nat)
    requires
        value < pow(0x100, width),
    ensures
        be_value(be_bytes(value, width)) == value,
    decreases width,
{
    reveal(pow);
    if width > 0 {
        let rest = (width - 1) as nat;
        assert(value / 0x100 < pow(0x100, rest)) by (nonlinear_arith)
            requires
                value < 0x100 * pow(0x100, rest),
        ;
        lemma_be_round_trip(value / 0x100, rest);
        lemma_be_bytes_len(value / 0x100, rest);
        assert(be_bytes(value, width).drop_last() =~= be_bytes(value / 0x100, rest));
    }
}

/// Digits make a number below the power of 256 that their count gives.
pub proof fn lemma_be_value_bound(bytes: Seq<u8>)
    ensures
        be_value(bytes) < pow(0x100, bytes.len()),
    decreases bytes.len(),
{
    reveal(pow);
    if bytes.len() > 0 {
        lemma_be_value_bound(bytes.drop_last());
    }
}

/// The powers of 256 that bound the numbers of a frame.
pub proof fn lemma_pow_256()
    ensures
        pow(0x100, 2) == 0x1_0000,
        pow(0x100, 4) == 0x1_0000_0000,
        pow(0x100, 8) == 0x1_0000_0000_0000_0000,
{
    reveal_with_fuel(pow, 9);
}

/// Read `count` bytes from `start` on as one big-endian number
pub(crate) fn read_be(bytes: &[u8], start: usize, count: usize) -> (value: u64)
    requires
        start + count <= bytes.len(),
        count <= 8,
    ensures
        value == be_value(bytes@.subrange(start as int, start + count)),
{
    let mut value: u64 = 0;
    let mut i: usize = 0;
    while i < count
        invariant
            i <= count <= 8,
            start + count <= bytes.len(),
            value == be_value(bytes@.subrange(start as int, start + i)),
        decreases count - i,
    {
        proof {
            let read = bytes@.subrange(start as int, start + i);
            let next = bytes@.subrange(start as int, start + i + 1);
            assert(next.drop_last() =~= read);
            lemma_be_value_bound(next);
            lemma_pow_increases(0x100, next.len(), 8);
            lemma_pow_256();
        }
        value = value * 0x100 + bytes[start + i] as u64;
        i += 1;
    }
    value
}

/// Append the last `width` base-256 digits of the number
pub(crate) fn push_be(out: &mut Vec<u8>, value: u64, width: usize)
    ensures
        final(out)@ == old(out)@ + be_bytes(value as nat, width as nat),
    decreases width,
{
    if width > 0 {
        push_be(out, value / 0x100, width - 1);
        out.push((value % 0x100) as u8);
    }
    proof {
        assert(out@ =~= old(out)@ + be_bytes(value as nat, width as nat));
    }
}

} // verus!
