//! Little-endian integers as byte sequences.
use vstd::prelude::*;

verus! {

/// The `n` low-order bytes of `value`, least significant byte first.
pub open spec fn le_bytes(value: nat, n: nat) -> Seq<u8>
    decreases n,
{
    if n == 0 {
        Seq::empty()
    } else {
        seq![(value % 256) as u8] + le_bytes(value / 256, (n - 1) as nat)
    }
}

/// The number that `bytes` spell, least significant byte first.
pub open spec fn le_value(bytes: Seq<u8>) -> nat
    decreases bytes.len(),
{
    if bytes.len() == 0 {
        0
    } else {
        bytes[0] as nat + 256 * le_value(bytes.drop_first())
    }
}

/// 256 to the power of `n`: how many values `n` bytes can spell.
pub open spec fn le_bound(n: nat) -> nat
    decreases n,
{
    if n == 0 {
        1
    } else {
        256 * le_bound((n - 1) as nat)
    }
}

pub proof fn lemma_le_bytes_len(value: nat, n: nat)
    ensures
        le_bytes(value, n).len() == n,
    decreases n,
{
    if n > 0 {
        lemma_le_bytes_len(value / 256, (n - 1) as nat);
    }
}

/// A number that fits in `n` bytes is the number its bytes spell.
pub proof fn lemma_le_round_trip(value: nat, n: nat)
    requires
        value < le_bound(n),
    ensures
        le_value(le_bytes(value, n)) == value,
    decreases n,
{
    if n > 0 {
        let rest = le_bytes(value / 256, (n - 1) as nat);
        lemma_le_round_trip(value / 256, (n - 1) as nat);
        assert(le_bytes(value, n).drop_first() =~= rest);
    }
}

pub proof fn lemma_le_bounds()
    ensures
        le_bound(4) == 0x1_0000_0000,
        le_bound(8) == 0x1_0000_0000_0000_0000,
{
    reveal_with_fuel(le_bound, 9);
}

/// The bytes of the number that `bytes` spell are `bytes`.
pub proof fn lemma_le_bytes_of_value(bytes: Seq<u8>)
    ensures
        le_bytes(le_value(bytes), bytes.len()) == bytes,
        le_value(bytes) < le_bound(bytes.len()),
    decreases bytes.len(),
{
    if bytes.len() > 0 {
        lemma_le_bytes_of_value(bytes.drop_first());
        assert(le_bytes(le_value(bytes), bytes.len()) =~= bytes);
    }
}

/// The eight bytes of `value`, least significant first.
pub fn u64_to_le(value: u64) -> (bytes: Vec<u8>)
    ensures
        bytes@ == le_bytes(value as nat, 8),
{
    let mut bytes: Vec<u8> = Vec::with_capacity(8);
    let mut rest: u64 = value;
    let mut done: usize = 0;
    while done < 8
        invariant
            done <= 8,
            bytes@ + le_bytes(rest as nat, (8 - done) as nat) == le_bytes(value as nat, 8),
        decreases 8 - done,
    {
        let ghost before = bytes@;
        let ghost left = (8 - done) as nat;
        let low: u64 = rest % 256;
        bytes.push(low as u8);
        proof {
            assert(before + le_bytes(rest as nat, left) =~= bytes@ + le_bytes(
                (rest / 256) as nat,
                (left - 1) as nat,
            ));
        }
        rest = rest / 256;
        done = done + 1;
    }
    assert(bytes@ + le_bytes(rest as nat, 0) =~= bytes@);
    bytes
}

/// The number that the eight bytes of `bytes` starting at `at` spell.
pub fn u64_from_le(bytes: &[u8], at: usize) -> (value: u64)
    requires
        at + 8 <= bytes@.len(),
    ensures
        value as nat == le_value(bytes@.subrange(at as int, at + 8)),
{
    let count: usize = bytes.len();
    let mut value: u64 = 0;
    let mut left: usize = 8;
    proof {
        assert(bytes@.subrange(at + 8, at + 8) =~= Seq::<u8>::empty());
    }
    while left > 0
        invariant
            left <= 8,
            at + 8 <= count == bytes@.len(),
            value as nat == le_value(bytes@.subrange(at + left, at + 8)),
        decreases left,
    {
        let ghost tail = bytes@.subrange(at + left, at + 8);
        left = left - 1;
        let low: u8 = bytes[at + left];
        proof {
            let longer = bytes@.subrange(at + left, at + 8);
            assert(longer.drop_first() =~= tail);
            lemma_le_bytes_of_value(longer);
            lemma_le_bound_grows(longer.len(), 8);
            lemma_le_bounds();
        }
        value = value * 256 + low as u64;
    }
    value
}

proof fn lemma_le_bound_grows(m: nat, n: nat)
    requires
        m <= n,
    ensures
        le_bound(m) <= le_bound(n),
    decreases n,
{
    if m < n {
        lemma_le_bound_grows(m, (n - 1) as nat);
    }
}

/// `bytes` begins with `prefix`.
pub open spec fn begins_with(bytes: Seq<u8>, prefix: Seq<u8>) -> bool {
    prefix.len() <= bytes.len() && bytes.take(prefix.len() as int) == prefix
}

} // verus!
