//! The meaning of a geohash string: the bits that its characters spell.
use crate::base32::{ascii_lower, base32_char, base32_decode, lemma_base32_char_decode};
use crate::bits::{
    bits_to_nat,
    lemma_bits_to_nat_bound,
    lemma_nat_to_bits_len,
    lemma_nat_to_bits_of_bits_to_nat,
    lemma_nat_to_bits_small,
    nat_to_bits,
};
use vstd::arithmetic::power2::*;
use vstd::prelude::*;

verus! {

/// Every byte of the code is a character of the alphabet (in either case).
pub open spec fn valid_geohash(bytes: Seq<u8>) -> bool {
    forall|i: int| 0 <= i < bytes.len() ==> (#[trigger] base32_decode(bytes[i])) is Some
}

/// The digit of a byte (zero outside the alphabet).
pub open spec fn digit_of(b: u8) -> nat {
    match base32_decode(b) {
        Some(v) => v as nat,
        None => 0,
    }
}

/// The bits that a code spells: five per character, most significant first.
pub open spec fn hash_bits(bytes: Seq<u8>) -> Seq<bool>
    decreases bytes.len(),
{
    if bytes.len() == 0 {
        Seq::empty()
    } else {
        hash_bits(bytes.drop_last()) + nat_to_bits(digit_of(bytes.last()), 5)
    }
}

/// The code that spells a bit string, five bits per character; trailing bits
/// that do not fill a character are dropped.
pub open spec fn geohash_bytes(bits: Seq<bool>) -> Seq<u8> {
    Seq::new(
        bits.len() / 5,
        |k: int| base32_char(bits_to_nat(bits.subrange(5 * k, 5 * k + 5))),
    )
}

/// `geohash_bytes` as characters.
pub open spec fn geohash_chars(bits: Seq<bool>) -> Seq<char> {
    geohash_bytes(bits).map_values(|b: u8| b as char)
}

/// A code with its letters in lowercase, as characters.
pub open spec fn lowercase_chars(bytes: Seq<u8>) -> Seq<char> {
    bytes.map_values(|b: u8| ascii_lower(b) as char)
}

pub proof fn lemma_hash_bits_len(bytes: Seq<u8>)
    ensures
        hash_bits(bytes).len() == 5 * bytes.len(),
    decreases bytes.len(),
{
    if bytes.len() > 0 {
        lemma_hash_bits_len(bytes.drop_last());
        lemma_nat_to_bits_len(digit_of(bytes.last()), 5);
    }
}

/// The bits of the first `i + 1` characters.
pub proof fn lemma_hash_bits_take(bytes: Seq<u8>, i: int)
    requires
        0 <= i < bytes.len(),
    ensures
        hash_bits(bytes.take(i + 1)) == hash_bits(bytes.take(i)) + nat_to_bits(
            digit_of(bytes[i]),
            5,
        ),
{
    assert(bytes.take(i + 1).drop_last() =~= bytes.take(i));
}

/// Character `k` spells bits `5k .. 5k + 5`.
pub proof fn lemma_hash_bits_digit(bytes: Seq<u8>, k: int)
    requires
        0 <= k < bytes.len(),
    ensures
        hash_bits(bytes).subrange(5 * k, 5 * k + 5) == nat_to_bits(digit_of(bytes[k]), 5),
    decreases bytes.len(),
{
    let n = bytes.len();
    lemma_hash_bits_len(bytes.drop_last());
    lemma_nat_to_bits_len(digit_of(bytes.last()), 5);
    if k == n - 1 {
        assert(hash_bits(bytes).subrange(5 * k, 5 * k + 5) =~= nat_to_bits(digit_of(bytes[k]), 5));
    } else {
        lemma_hash_bits_digit(bytes.drop_last(), k);
        assert(hash_bits(bytes).subrange(5 * k, 5 * k + 5) =~= hash_bits(
            bytes.drop_last(),
        ).subrange(5 * k, 5 * k + 5));
    }
}

/// Spelling the bits of a valid code gives the code back, in lowercase.
pub proof fn lemma_geohash_of_hash_bits(bytes: Seq<u8>)
    requires
        valid_geohash(bytes),
    ensures
        geohash_bytes(hash_bits(bytes)) == bytes.map_values(|b: u8| ascii_lower(b)),
        geohash_chars(hash_bits(bytes)) == lowercase_chars(bytes),
{
    lemma_hash_bits_len(bytes);
    let g = geohash_bytes(hash_bits(bytes));
    assert forall|k: int| 0 <= k < bytes.len() implies g[k] == ascii_lower(bytes[k]) by {
        lemma_hash_bits_digit(bytes, k);
        assert(base32_decode(bytes[k]) is Some);
        let v = digit_of(bytes[k]);
        assert(v < 32);
        lemma2_to64();
        lemma_nat_to_bits_small(v, 5);
    }
    assert(g =~= bytes.map_values(|b: u8| ascii_lower(b)));
    assert(geohash_chars(hash_bits(bytes)) =~= lowercase_chars(bytes));
}

/// Reading back a spelled bit string gives the bits, when they fill whole characters.
pub proof fn lemma_hash_bits_of_geohash(bits: Seq<bool>)
    requires
        bits.len() % 5 == 0,
    ensures
        valid_geohash(geohash_bytes(bits)),
        hash_bits(geohash_bytes(bits)) == bits,
    decreases bits.len(),
{
    let g = geohash_bytes(bits);
    assert forall|k: int| 0 <= k < g.len() implies (#[trigger] base32_decode(g[k])) is Some by {
        let chunk = bits.subrange(5 * k, 5 * k + 5);
        lemma_bits_to_nat_bound(chunk);
        lemma2_to64();
        lemma_base32_char_decode(bits_to_nat(chunk));
    }
    if bits.len() > 0 {
        let n = bits.len();
        let front = bits.subrange(0, n - 5);
        let last = bits.subrange(n - 5, n as int);
        lemma_hash_bits_of_geohash(front);
        assert(g.drop_last() =~= geohash_bytes(front)) by {
            assert forall|k: int| 0 <= k < g.len() - 1 implies #[trigger] geohash_bytes(front)[k]
                == g.drop_last()[k] by {
                assert(front.subrange(5 * k, 5 * k + 5) =~= bits.subrange(5 * k, 5 * k + 5));
            }
        }
        lemma_bits_to_nat_bound(last);
        lemma2_to64();
        lemma_base32_char_decode(bits_to_nat(last));
        assert(g.last() == base32_char(bits_to_nat(last)));
        assert(digit_of(g.last()) == bits_to_nat(last));
        lemma_nat_to_bits_of_bits_to_nat(last);
        assert(bits =~= front + last);
    } else {
        assert(g =~= Seq::<u8>::empty());
    }
}

} // verus!
