//! Interleaving the bits of two bytes and taking them apart again.
use crate::bits::{
    bit_value,
    bits_to_nat,
    evens,
    interleave_bits,
    lemma_bits_to_nat_append,
    lemma_bits_to_nat_bound,
    lemma_bits_to_nat_push,
    lemma_bits_to_nat_short,
    lemma_evens_odds_append,
    lemma_interleave_append,
    lemma_nat_to_bits_concat,
    lemma_nat_to_bits_index,
    lemma_nat_to_bits_len,
    lemma_nat_to_bits_mod,
    lemma_nat_to_bits_of_bits_to_nat,
    lemma_nat_to_bits_small,
    lemma_nat_to_bits_split,
    lemma_nat_to_bits_unfold,
    nat_to_bits,
    odds,
    zeros,
};
use vstd::arithmetic::div_mod::*;
use vstd::arithmetic::power2::*;
use vstd::bits::*;
use vstd::prelude::*;

verus! {

/// The value whose bit `2k` is bit `k` of `v`, for `k < n`, all other bits zero.
pub open spec fn spread_value(v: nat, n: nat) -> nat
    decreases n,
{
    if n == 0 {
        0
    } else {
        spread_value(v, (n - 1) as nat) + ((v / pow2((n - 1) as nat)) % 2) * pow2(
            (2 * (n - 1)) as nat,
        )
    }
}

proof fn lemma_spread_value_bits(v: nat, n: nat)
    ensures
        nat_to_bits(spread_value(v, n), 2 * n) == interleave_bits(zeros(n), nat_to_bits(v, n)),
        spread_value(v, n) < pow2(2 * n),
    decreases n,
{
    if n == 0 {
        lemma2_to64();
        assert(interleave_bits(zeros(0), nat_to_bits(v, 0)) =~= Seq::<bool>::empty());
    } else {
        let m = (n - 1) as nat;
        lemma_spread_value_bits(v, m);
        let b = (v / pow2(m)) % 2;
        lemma_pow2_adds(2, 2 * m);
        lemma2_to64();
        lemma_nat_to_bits_concat(b, spread_value(v, m), 2, 2 * m);
        assert(spread_value(v, n) == b * pow2(2 * m) + spread_value(v, m));
        // the two top bits: a zero, then bit m of v
        lemma_nat_to_bits_unfold(b, 2);
        lemma_nat_to_bits_unfold(b / 2, 1);
        assert(b / 2 / 2 == 0);
        assert(nat_to_bits(b, 2) =~= seq![false, b % 2 == 1]);
        // the bits of v: bit m first, then the m low bits
        lemma_nat_to_bits_split(v, 1, m);
        lemma_nat_to_bits_unfold(v / pow2(m), 1);
        lemma_nat_to_bits_len((v / pow2(m)) / 2, 0);
        assert(nat_to_bits(v / pow2(m), 1) =~= seq![b == 1]);
        assert(zeros(n) =~= seq![false] + zeros(m));
        lemma_nat_to_bits_len(v, m);
        lemma_interleave_append(seq![false], seq![b == 1], zeros(m), nat_to_bits(v, m));
        assert(interleave_bits(seq![false], seq![b == 1]) =~= seq![false, b == 1]);
        assert((2 * m + 2) as nat == 2 * n);
    }
}

proof fn lemma_u16_and1(x: u16)
    by (bit_vector)
    ensures
        x & 1 == x % 2,
{
}

proof fn lemma_u16_spread_step(o: u16, b: u16, s: u16)
    by (bit_vector)
    requires
        o & 0xAAAA == 0,
        o < (1u16 << (s * 2)),
        b <= 1,
        s < 8,
    ensures
        (o | (b << (s * 2))) & 0xAAAA == 0,
        o | (b << (s * 2)) == o + (b << (s * 2)),
{
}

/// Spreads the bits of a byte over the even positions (counted from the
/// least significant end) of a 16-bit word: `abcdefgh -> 0a0b0c0d0e0f0g0h`.
pub fn spread_byte(value: u8) -> (r: u16)
    ensures
        nat_to_bits(r as nat, 16) == interleave_bits(zeros(8), nat_to_bits(value as nat, 8)),
        r & 0xAAAA == 0,
{
    let mut output: u16 = 0;
    let mut bit: u16 = 0;
    assert(0u16 & 0xAAAA == 0) by (bit_vector);
    while bit < 8
        invariant
            bit <= 8,
            output == spread_value(value as nat, bit as nat),
            output & 0xAAAA == 0,
        decreases 8 - bit,
    {
        proof {
            lemma_spread_value_bits(value as nat, bit as nat);
            lemma_u16_shr_is_div(value as u16, bit);
            lemma_u16_and1((value as u16) >> bit);
            lemma_pow2_strictly_increases((2 * bit) as nat, 15);
            lemma2_to64();
            lemma_u16_shl_is_mul(1, (bit * 2) as u16);
            let b = ((value as u16) >> bit) & 1;
            let p = pow2((bit * 2) as nat);
            assert(b <= 1);
            assert(b * p <= 0xFFFF) by {
                if b == 0 {
                    assert(b * p == 0);
                } else {
                    assert(b * p == p);
                }
            }
            lemma_u16_shl_is_mul(b, (bit * 2) as u16);
            lemma_u16_spread_step(output, b, bit);
        }
        output |= (((value as u16) >> bit) & 1) << (bit * 2);
        bit += 1;
    }
    proof {
        lemma_spread_value_bits(value as nat, 8);
    }
    output
}

proof fn lemma_u8_shift_in(u: u8, c: u8)
    by (bit_vector)
    requires
        u < 128,
        c <= 1,
    ensures
        (u << 1) | c == u * 2 + c,
{
}

proof fn lemma_u8_nibbles(u: u8, l: u8)
    by (bit_vector)
    requires
        u < 16,
        l < 16,
    ensures
        (u << 4) | l == u * 16 + l,
{
}

proof fn lemma_u8_and1(x: u8)
    by (bit_vector)
    ensures
        x & 1 == x % 2,
{
}

/// The value of a prefix grows by one bit.
proof fn lemma_bits_to_nat_take_step(s: Seq<bool>, k: int)
    requires
        0 <= k < s.len(),
    ensures
        bits_to_nat(s.take(k + 1)) == 2 * bits_to_nat(s.take(k)) + bit_value(s[k]),
{
    assert(s.take(k + 1) =~= s.take(k).push(s[k]));
    lemma_bits_to_nat_push(s.take(k), s[k]);
}

/// Bit `k` (from the least significant end) of a byte, as a number.
proof fn lemma_u8_bit(x: u8, k: u8)
    requires
        k < 8,
    ensures
        (x >> k) & 1 == bit_value(nat_to_bits(x as nat, 8)[7 - k]),
{
    lemma_u8_shr_is_div(x, k);
    lemma_u8_and1(x >> k);
    lemma_nat_to_bits_index(x as nat, 8, 7 - k);
}

/// Gathers the bits of a byte: the bits at even positions (counted from the
/// most significant end) become the upper nibble, those at odd positions the
/// lower nibble.
pub fn deinterleave_byte(interleaved: u8) -> (r: u8)
    ensures
        nat_to_bits(r as nat, 8) == evens(nat_to_bits(interleaved as nat, 8)) + odds(
            nat_to_bits(interleaved as nat, 8),
        ),
{
    let ghost s = nat_to_bits(interleaved as nat, 8);
    proof {
        lemma_nat_to_bits_len(interleaved as nat, 8);
    }
    let mut upper: u8 = 0;
    let mut lower: u8 = 0;
    let mut bit: u8 = 4;
    while bit > 0
        invariant
            bit <= 4,
            s == nat_to_bits(interleaved as nat, 8),
            s.len() == 8,
            upper == bits_to_nat(evens(s).take(4 - bit)),
            lower == bits_to_nat(odds(s).take(4 - bit)),
        decreases bit,
    {
        bit -= 1;
        proof {
            let j = 3 - bit;
            lemma_bits_to_nat_bound(evens(s).take(j));
            lemma_bits_to_nat_bound(odds(s).take(j));
            lemma_pow2_strictly_increases(j as nat, 7);
            lemma2_to64();
            lemma_bits_to_nat_take_step(evens(s), j);
            lemma_bits_to_nat_take_step(odds(s), j);
            lemma_u8_bit(interleaved, (bit * 2 + 1) as u8);
            lemma_u8_bit(interleaved, (bit * 2) as u8);
            lemma_u8_shift_in(upper, (interleaved >> (bit * 2 + 1)) & 1);
            lemma_u8_shift_in(lower, (interleaved >> (bit * 2)) & 1);
        }
        upper = (upper << 1) | ((interleaved >> (bit * 2 + 1)) & 1);
        lower = (lower << 1) | ((interleaved >> (bit * 2)) & 1);
    }
    proof {
        assert(evens(s).take(4) =~= evens(s));
        assert(odds(s).take(4) =~= odds(s));
        lemma_bits_to_nat_bound(evens(s));
        lemma_bits_to_nat_bound(odds(s));
        lemma2_to64();
        lemma_u8_nibbles(upper, lower);
        lemma_nat_to_bits_concat(upper as nat, lower as nat, 4, 4);
        lemma_nat_to_bits_of_bits_to_nat(evens(s));
        lemma_nat_to_bits_of_bits_to_nat(odds(s));
    }
    (upper << 4) | lower
}

/// The value of an interleaving, in terms of the spread parts.
proof fn lemma_interleave_value(a: Seq<bool>, b: Seq<bool>)
    requires
        a.len() == b.len(),
    ensures
        bits_to_nat(interleave_bits(a, b)) == 2 * bits_to_nat(interleave_bits(zeros(a.len()), a))
            + bits_to_nat(interleave_bits(zeros(a.len()), b)),
    decreases a.len(),
{
    let n = a.len();
    if n == 0 {
        assert(interleave_bits(a, b) =~= Seq::<bool>::empty());
        assert(interleave_bits(zeros(0), a) =~= Seq::<bool>::empty());
        assert(interleave_bits(zeros(0), b) =~= Seq::<bool>::empty());
    } else {
        let m = (n - 1) as nat;
        let a1 = a.drop_last();
        let b1 = b.drop_last();
        lemma_interleave_value(a1, b1);
        assert(a =~= a1 + seq![a.last()]);
        assert(b =~= b1 + seq![b.last()]);
        assert(zeros(n) =~= zeros(m) + seq![false]);
        lemma_interleave_append(a1, b1, seq![a.last()], seq![b.last()]);
        lemma_interleave_append(zeros(m), a1, seq![false], seq![a.last()]);
        lemma_interleave_append(zeros(m), b1, seq![false], seq![b.last()]);
        let t1 = seq![a.last(), b.last()];
        let t2 = seq![false, a.last()];
        let t3 = seq![false, b.last()];
        assert(interleave_bits(seq![a.last()], seq![b.last()]) =~= t1);
        assert(interleave_bits(seq![false], seq![a.last()]) =~= t2);
        assert(interleave_bits(seq![false], seq![b.last()]) =~= t3);
        lemma_bits_to_nat_append(interleave_bits(a1, b1), t1);
        lemma_bits_to_nat_append(interleave_bits(zeros(m), a1), t2);
        lemma_bits_to_nat_append(interleave_bits(zeros(m), b1), t3);
        lemma2_to64();
        assert(t1.drop_last() =~= seq![a.last()]);
        assert(t2.drop_last() =~= seq![false]);
        assert(t3.drop_last() =~= seq![false]);
        assert(seq![a.last()].drop_last() =~= Seq::<bool>::empty());
        assert(seq![false].drop_last() =~= Seq::<bool>::empty());
        assert(seq![b.last()].drop_last() =~= Seq::<bool>::empty());
        let x = bit_value(a.last());
        let y = bit_value(b.last());
        lemma_bits_to_nat_short(a.last(), b.last());
        lemma_bits_to_nat_short(false, a.last());
        lemma_bits_to_nat_short(false, b.last());
        assert(bits_to_nat(t1) == 2 * x + y);
        assert(bits_to_nat(t2) == x);
        assert(bits_to_nat(t3) == y);
        assert(pow2(2) == 4);
        let big = bits_to_nat(interleave_bits(a1, b1));
        let za = bits_to_nat(interleave_bits(zeros(m), a1));
        let zb = bits_to_nat(interleave_bits(zeros(m), b1));
        assert(interleave_bits(a, b) == interleave_bits(a1, b1) + t1);
        assert(bits_to_nat(interleave_bits(a, b)) == big * 4 + 2 * x + y);
        assert(interleave_bits(zeros(n), a) == interleave_bits(zeros(m), a1) + t2);
        assert(interleave_bits(zeros(n), b) == interleave_bits(zeros(m), b1) + t3);
        assert(zeros(a1.len()) == zeros(m));
        assert(big == 2 * za + zb);
        assert(bits_to_nat(interleave_bits(zeros(n), a)) == za * 4 + x);
        assert(bits_to_nat(interleave_bits(zeros(n), b)) == zb * 4 + y);
        assert(big * 4 + 2 * x + y == 2 * (za * 4 + x) + (zb * 4 + y));
    }
}

proof fn lemma_u16_interleave_or(a: u16, b: u16)
    by (bit_vector)
    requires
        a & 0xAAAA == 0,
        b & 0xAAAA == 0,
    ensures
        (a << 1) | b == a * 2 + b,
        a * 2 + b <= 0xFFFF,
{
}

/// Interleaves two bytes: the bits of `upper` take the even positions of the
/// result (counted from the most significant end), those of `lower` the odd.
pub fn interleave(upper: u8, lower: u8) -> (r: u16)
    ensures
        nat_to_bits(r as nat, 16) == interleave_bits(
            nat_to_bits(upper as nat, 8),
            nat_to_bits(lower as nat, 8),
        ),
{
    let su = spread_byte(upper);
    let sl = spread_byte(lower);
    proof {
        lemma_u16_interleave_or(su, sl);
        lemma_nat_to_bits_len(upper as nat, 8);
        lemma_nat_to_bits_len(lower as nat, 8);
        lemma_interleave_value(nat_to_bits(upper as nat, 8), nat_to_bits(lower as nat, 8));
        lemma2_to64();
        lemma_nat_to_bits_small(su as nat, 16);
        lemma_nat_to_bits_small(sl as nat, 16);
        let s = interleave_bits(nat_to_bits(upper as nat, 8), nat_to_bits(lower as nat, 8));
        assert(s.len() == 16);
        lemma_nat_to_bits_of_bits_to_nat(s);
    }
    (su << 1) | sl
}

proof fn lemma_u16_bytes(w: u16)
    by (bit_vector)
    ensures
        w & 0xff == w % 256,
        w >> 8 == w / 256,
        w / 256 < 256,
{
}

proof fn lemma_u8_regroup(p: u8, q: u8)
    by (bit_vector)
    ensures
        (p & 0xf0) | (q >> 4) == (p / 16) * 16 + q / 16,
        ((p & 0x0f) << 4) | (q & 0x0f) == (p % 16) * 16 + q % 16,
{
}

/// The halves of a packed byte from `deinterleave_byte`.
proof fn lemma_packed_parts(x: u8, p: u8)
    requires
        nat_to_bits(p as nat, 8) == evens(nat_to_bits(x as nat, 8)) + odds(nat_to_bits(x as nat, 8)),
    ensures
        p / 16 == bits_to_nat(evens(nat_to_bits(x as nat, 8))),
        p % 16 == bits_to_nat(odds(nat_to_bits(x as nat, 8))),
        evens(nat_to_bits(x as nat, 8)).len() == 4,
        odds(nat_to_bits(x as nat, 8)).len() == 4,
{
    let s = nat_to_bits(x as nat, 8);
    lemma_nat_to_bits_len(x as nat, 8);
    lemma_bits_to_nat_append(evens(s), odds(s));
    lemma2_to64();
    lemma_nat_to_bits_small(p as nat, 8);
    lemma_bits_to_nat_bound(odds(s));
    lemma_fundamental_div_mod_converse(
        p as int,
        16,
        bits_to_nat(evens(s)) as int,
        bits_to_nat(odds(s)) as int,
    );
}

/// Takes a 16-bit word apart: the bits at even positions (counted from the
/// most significant end) form the first byte, those at odd positions the second.
pub fn deinterleave(interleaved: u16) -> (r: (u8, u8))
    ensures
        nat_to_bits(r.0 as nat, 8) == evens(nat_to_bits(interleaved as nat, 16)),
        nat_to_bits(r.1 as nat, 8) == odds(nat_to_bits(interleaved as nat, 16)),
{
    proof {
        lemma_u16_bytes(interleaved);
    }
    let hi = (interleaved >> 8) as u8;
    let lo = (interleaved & 0xff) as u8;
    let upper_packed = deinterleave_byte(hi);
    let lower_packed = deinterleave_byte(lo);
    let upper = (upper_packed & 0xf0) | (lower_packed >> 4);
    let lower = ((upper_packed & 0x0f) << 4) | (lower_packed & 0x0f);
    proof {
        let h = nat_to_bits(hi as nat, 8);
        let l = nat_to_bits(lo as nat, 8);
        lemma_u8_regroup(upper_packed, lower_packed);
        lemma_packed_parts(hi, upper_packed);
        lemma_packed_parts(lo, lower_packed);
        lemma2_to64();
        // the word's bits are those of its high byte, then those of its low byte
        lemma_nat_to_bits_split(interleaved as nat, 8, 8);
        lemma_nat_to_bits_mod(interleaved as nat, 8);
        lemma_nat_to_bits_len(hi as nat, 8);
        lemma_evens_odds_append(h, l);
        lemma_bits_to_nat_bound(evens(h));
        lemma_bits_to_nat_bound(evens(l));
        lemma_bits_to_nat_bound(odds(h));
        lemma_bits_to_nat_bound(odds(l));
        lemma_nat_to_bits_concat(bits_to_nat(evens(h)), bits_to_nat(evens(l)), 4, 4);
        lemma_nat_to_bits_concat(bits_to_nat(odds(h)), bits_to_nat(odds(l)), 4, 4);
        lemma_nat_to_bits_of_bits_to_nat(evens(h));
        lemma_nat_to_bits_of_bits_to_nat(evens(l));
        lemma_nat_to_bits_of_bits_to_nat(odds(h));
        lemma_nat_to_bits_of_bits_to_nat(odds(l));
    }
    (upper, lower)
}

/// Lookup table of `spread_byte` for every byte.
pub fn build_interleave_map() -> (map: [u16; 256])
    ensures
        forall|i: int|
            0 <= i < 256 ==> nat_to_bits(#[trigger] map@[i] as nat, 16) == interleave_bits(
                zeros(8),
                nat_to_bits(i as nat, 8),
            ),
{
    let mut map = [0u16; 256];
    let mut i: usize = 0;
    while i < 256
        invariant
            i <= 256,
            forall|k: int|
                0 <= k < i ==> nat_to_bits(#[trigger] map@[k] as nat, 16) == interleave_bits(
                    zeros(8),
                    nat_to_bits(k as nat, 8),
                ),
        decreases 256 - i,
    {
        map[i] = spread_byte(i as u8);
        i += 1;
    }
    map
}

/// Lookup table of `deinterleave_byte` for every byte.
pub fn build_deinterleave_byte_map() -> (map: [u8; 256])
    ensures
        forall|i: int|
            0 <= i < 256 ==> nat_to_bits(#[trigger] map@[i] as nat, 8) == evens(
                nat_to_bits(i as nat, 8),
            ) + odds(nat_to_bits(i as nat, 8)),
{
    let mut map = [0u8; 256];
    let mut i: usize = 0;
    while i < 256
        invariant
            i <= 256,
            forall|k: int|
                0 <= k < i ==> nat_to_bits(#[trigger] map@[k] as nat, 8) == evens(
                    nat_to_bits(k as nat, 8),
                ) + odds(nat_to_bits(k as nat, 8)),
        decreases 256 - i,
    {
        map[i] = deinterleave_byte(i as u8);
        i += 1;
    }
    map
}

} // verus!
