use vstd::prelude::*;

verus! {

/// Longest encoding of a `u64` as a udInt.
pub const UDINT_MAX_LEN: usize = 10;

/// The `n`-byte big-endian form of `x` modulo `256^n`.
pub open spec fn be_bytes(x: nat, n: nat) -> Seq<u8>
    decreases n,
{
    if n == 0 {
        Seq::empty()
    } else {
        be_bytes(x / 256, (n - 1) as nat).push((x % 256) as u8)
    }
}

/// The number that big-endian bytes `s` stand for.
pub open spec fn be_value(s: Seq<u8>) -> nat
    decreases s.len(),
{
    if s.len() == 0 {
        0
    } else {
        be_value(s.drop_last()) * 256 + s.last() as nat
    }
}

/// Appends the `n`-byte big-endian form of `x`.
pub fn push_be(buf: &mut Vec<u8>, x: u64, n: usize)
    requires
        n <= 8,
    ensures
        final(buf)@ == old(buf)@ + be_bytes(x as nat, n as nat),
    decreases n,
{
    if n > 0 {
        push_be(buf, x / 256, n - 1);
        buf.push((x % 256) as u8);
        proof {
            assert((x / 256) as nat == (x as nat) / 256);
        }
    }
}

/// The udInt form of `v`: groups of seven bits, least significant first; each
/// byte holds its group above a low flag bit that is set on the last byte only.
pub open spec fn udint_bytes(v: nat) -> Seq<u8>
    decreases v,
{
    if v < 128 {
        seq![(v * 2 + 1) as u8]
    } else {
        seq![((v % 128) * 2) as u8] + udint_bytes(v / 128)
    }
}

/// Reads a udInt from the front of `s`, taking at most `budget` bytes:
/// its value and the number of bytes it took, or `None` where `s` ends first
/// or the budget runs out.
pub open spec fn udint_read(s: Seq<u8>, budget: nat) -> Option<(nat, nat)>
    decreases budget,
{
    if budget == 0 || s.len() == 0 {
        None
    } else if s[0] % 2 == 1 {
        Some(((s[0] / 2) as nat, 1))
    } else {
        match udint_read(s.drop_first(), (budget - 1) as nat) {
            Some((v, n)) => Some(((s[0] / 2) as nat + 128 * v, n + 1)),
            None => None,
        }
    }
}

pub proof fn lemma_udint_round_trip(v: nat, rest: Seq<u8>, budget: nat)
    requires
        udint_bytes(v).len() <= budget,
    ensures
        udint_read(udint_bytes(v) + rest, budget) == Some((v, udint_bytes(v).len())),
    decreases v,
{
    let s = udint_bytes(v) + rest;
    if v < 128 {
        assert(s[0] == (v * 2 + 1) as u8);
    } else {
        lemma_udint_round_trip(v / 128, rest, (budget - 1) as nat);
        assert(s.drop_first() =~= udint_bytes(v / 128) + rest);
        assert(s[0] == ((v % 128) * 2) as u8);
    }
}

/// Appends the udInt form of `v`.
pub fn push_udint(buf: &mut Vec<u8>, v: u64)
    ensures
        final(buf)@ == old(buf)@ + udint_bytes(v as nat),
{
    let mut x: u64 = v;
    let ghost start = buf@;
    while x >= 128
        invariant
            buf@ + udint_bytes(x as nat) == start + udint_bytes(v as nat),
        decreases x,
    {
        let ghost before = buf@;
        buf.push(((x % 128) * 2) as u8);
        proof {
            assert(udint_bytes(x as nat) == seq![((x % 128) * 2) as u8] + udint_bytes(
                (x / 128) as nat,
            ));
            assert(buf@ + udint_bytes((x / 128) as nat) =~= before + udint_bytes(x as nat));
        }
        x = x / 128;
    }
    buf.push((x * 2 + 1) as u8);
    proof {
        assert(buf@ =~= start + udint_bytes(v as nat));
    }
}

} // verus!
