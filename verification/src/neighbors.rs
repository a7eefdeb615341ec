//! The cells around a geohash cell.
use crate::base32::{base32_char, base32_digit, base32_value};
use crate::bits::{
    bit_value,
    bits_to_nat,
    evens,
    interleave_bits,
    lemma_bits_to_nat_append,
    lemma_bits_to_nat_bound,
    lemma_bits_to_nat_five,
    lemma_bits_to_nat_push,
    lemma_bits_to_nat_short,
    lemma_evens_odds_append,
    lemma_interleave_append,
    lemma_interleave_append_odd,
    lemma_nat_to_bits_index,
    lemma_nat_to_bits_len,
    lemma_nat_to_bits_split,
    lemma_shift_in_mod,
    nat_to_bits,
    odds,
};
use crate::code::{
    geohash_bytes,
    geohash_chars,
    hash_bits,
    lemma_hash_bits_len,
    lemma_hash_bits_take,
    valid_geohash,
};
use crate::error::GeohashError;
use vstd::arithmetic::div_mod::*;
use vstd::arithmetic::power2::*;
use vstd::prelude::*;
use vstd::string::StringSliceAdditionalSpecFns;

verus! {

proof fn lemma_bits_to_nat_three(x: bool, y: bool, z: bool)
    ensures
        bits_to_nat(seq![x, y, z]) == 4 * bit_value(x) + 2 * bit_value(y) + bit_value(z),
{
    lemma_bits_to_nat_short(x, y);
    assert(seq![x, y, z] =~= seq![x, y].push(z));
    lemma_bits_to_nat_push(seq![x, y], z);
}

/// The longitude and latitude bits of one digit, for a digit that starts at
/// an even position of the code.
proof fn lemma_digit_halves(v: nat)
    requires
        v < 32,
    ensures
        evens(nat_to_bits(v, 5)).len() == 3,
        odds(nat_to_bits(v, 5)).len() == 2,
        bits_to_nat(evens(nat_to_bits(v, 5))) == (v / 16) * 4 + ((v / 4) % 2) * 2 + v % 2,
        bits_to_nat(odds(nat_to_bits(v, 5))) == ((v / 8) % 2) * 2 + (v / 2) % 2,
{
    let s = nat_to_bits(v, 5);
    lemma_nat_to_bits_len(v, 5);
    lemma2_to64();
    lemma_nat_to_bits_index(v, 5, 0);
    lemma_nat_to_bits_index(v, 5, 1);
    lemma_nat_to_bits_index(v, 5, 2);
    lemma_nat_to_bits_index(v, 5, 3);
    lemma_nat_to_bits_index(v, 5, 4);
    assert(evens(s) =~= seq![s[0], s[2], s[4]]);
    assert(odds(s) =~= seq![s[1], s[3]]);
    lemma_bits_to_nat_three(s[0], s[2], s[4]);
    lemma_bits_to_nat_short(s[1], s[3]);
}

proof fn lemma_u128_digit_parts(v: u128)
    by (bit_vector)
    requires
        v < 32,
    ensures
        ((v >> 2u32) & 4) + ((v >> 1u32) & 2) + (v & 1) == (v / 16) * 4 + ((v / 4) % 2) * 2 + v
            % 2,
        ((v >> 2u32) & 2) + ((v >> 1u32) & 1) == ((v / 8) % 2) * 2 + (v / 2) % 2,
        (v >> 2u32) & 4 <= 4,
        (v >> 1u32) & 2 <= 2,
        v & 1 <= 1,
        (v >> 2u32) & 2 <= 2,
        (v >> 1u32) & 1 <= 1,
{
}

proof fn lemma_u128_shl(o: u128)
    by (bit_vector)
    ensures
        (o << 3u32) == (o % 0x2000_0000_0000_0000_0000_0000_0000_0000) * 8,
        (o << 2u32) == (o % 0x4000_0000_0000_0000_0000_0000_0000_0000) * 4,
{
}

/// Shifting a 128-bit number left by `k` bits (k = 2 or 3), as arithmetic.
proof fn lemma_u128_shl_mod(o: u128, k: nat)
    requires
        k == 2 || k == 3,
    ensures
        (o as nat * pow2(k)) % pow2(128) == if k == 3 {
            (o << 3u32) as nat
        } else {
            (o << 2u32) as nat
        },
        (o as nat * pow2(k)) % pow2(128) + pow2(k) <= pow2(128),
{
    lemma_u128_shl(o);
    lemma2_to64();
    let q = pow2((128 - k) as nat);
    lemma_pow2_adds(k, (128 - k) as nat);
    lemma_pow2_pos((128 - k) as nat);
    lemma_truncate_middle(o as int, pow2(k) as int, q as int);
    vstd::arithmetic::mul::lemma_mul_is_commutative(o as int, pow2(k) as int);
    if k == 3 {
        lemma_pow2_adds(3, 122);
        assert(q == 0x2000_0000_0000_0000_0000_0000_0000_0000) by {
            lemma2_to64_rest();
            lemma_pow2_adds(64, 61);
        }
    } else {
        assert(q == 0x4000_0000_0000_0000_0000_0000_0000_0000) by {
            lemma2_to64_rest();
            lemma_pow2_adds(64, 62);
        }
    }
    lemma_mod_bound(o as int, q as int);
    let r = (o as nat) % q;
    assert(pow2(k) * r <= pow2(k) * (q - 1)) by (nonlinear_arith)
        requires
            r <= q - 1,
    ;
    assert(pow2(k) * (q - 1) == pow2(k) * q - pow2(k)) by (nonlinear_arith);
}

/// The longitude bits (even positions) of a code's bit string.
pub open spec fn lon_bits_of(bytes: Seq<u8>) -> Seq<bool> {
    evens(hash_bits(bytes))
}

/// The latitude bits (odd positions) of a code's bit string.
pub open spec fn lat_bits_of(bytes: Seq<u8>) -> Seq<bool> {
    odds(hash_bits(bytes))
}

/// Splits a code into its latitude and longitude parts, as numbers (the low
/// 128 bits of each are kept) and their bit counts:
/// `(lat, lon, lat_length, lon_length)`.
pub fn decode_c2i(hashcode: &str) -> (r: Result<(u128, u128, usize, usize), GeohashError>)
    requires
        hashcode.spec_bytes().len() * 5 <= usize::MAX,
    ensures
        match r {
            Ok((lat, lon, lat_length, lon_length)) => {
                &&& valid_geohash(hashcode.spec_bytes())
                &&& lat as nat == bits_to_nat(lat_bits_of(hashcode.spec_bytes())) % pow2(128)
                &&& lon as nat == bits_to_nat(lon_bits_of(hashcode.spec_bytes())) % pow2(128)
                &&& lat_length == lat_bits_of(hashcode.spec_bytes()).len()
                &&& lon_length == lon_bits_of(hashcode.spec_bytes()).len()
            },
            Err(e) => !valid_geohash(hashcode.spec_bytes()) && e == GeohashError::InvalidCode,
        },
{
    let bytes = hashcode.as_bytes();
    let ghost bs = bytes@;
    let mut lon: u128 = 0;
    let mut lat: u128 = 0;
    let mut bit_length: usize = 0;
    let mut lat_length: usize = 0;
    let mut lon_length: usize = 0;
    proof {
        assert(bs.take(0) =~= Seq::<u8>::empty());
        assert(evens(hash_bits(bs.take(0))) =~= Seq::<bool>::empty());
        assert(odds(hash_bits(bs.take(0))) =~= Seq::<bool>::empty());
        lemma_pow2_pos(128);
        lemma_small_mod(0, pow2(128));
    }
    for i in 0..bytes.len()
        invariant
            bs == bytes@,
            bs == hashcode.spec_bytes(),
            bs.len() * 5 <= usize::MAX,
            valid_geohash(bs.take(i as int)),
            bit_length == 5 * i,
            lat as nat == bits_to_nat(odds(hash_bits(bs.take(i as int)))) % pow2(128),
            lon as nat == bits_to_nat(evens(hash_bits(bs.take(i as int)))) % pow2(128),
            lat_length == odds(hash_bits(bs.take(i as int))).len(),
            lon_length == evens(hash_bits(bs.take(i as int))).len(),
    {
        let byte = bytes[i];
        let digit = match base32_value(byte) {
            Some(v) => v,
            None => return Err(GeohashError::InvalidCode),
        };
        let value = digit as u128;
        let ghost h = hash_bits(bs.take(i as int));
        let ghost d = nat_to_bits(digit as nat, 5);
        proof {
            lemma_hash_bits_take(bs, i as int);
            assert forall|k: int| 0 <= k < i + 1 implies (#[trigger] crate::base32::base32_decode(
                bs.take(i + 1)[k],
            )) is Some by {
                if k < i {
                    assert(bs.take(i + 1)[k] == bs.take(i as int)[k]);
                }
            }
            lemma_hash_bits_len(bs.take(i as int));
            lemma_evens_odds_append(h, d);
            lemma_digit_halves(digit as nat);
            lemma_u128_digit_parts(value);
            lemma_u128_shl_mod(lon, 3);
            lemma_u128_shl_mod(lon, 2);
            lemma_u128_shl_mod(lat, 3);
            lemma_u128_shl_mod(lat, 2);
            lemma2_to64();
            lemma2_to64_rest();
            lemma_pow2_adds(64, 64);
            assert(pow2(128) == u128::MAX as nat + 1);
        }
        if bit_length % 2 == 0 {
            proof {
                let e = evens(d);
                let o = odds(d);
                lemma_bits_to_nat_append(evens(h), e);
                lemma_bits_to_nat_append(odds(h), o);
                lemma_shift_in_mod(bits_to_nat(evens(h)), lon as nat, 3, bits_to_nat(e), 128);
                lemma_shift_in_mod(bits_to_nat(odds(h)), lat as nat, 2, bits_to_nat(o), 128);
            }
            lon = (lon << 3u32) + ((value >> 2u32) & 4) + ((value >> 1u32) & 2) + (value & 1);
            lat = (lat << 2u32) + ((value >> 2u32) & 2) + ((value >> 1u32) & 1);
            lon_length += 3;
            lat_length += 2;
        } else {
            proof {
                let e = evens(d);
                let o = odds(d);
                lemma_bits_to_nat_append(evens(h), o);
                lemma_bits_to_nat_append(odds(h), e);
                lemma_shift_in_mod(bits_to_nat(evens(h)), lon as nat, 2, bits_to_nat(o), 128);
                lemma_shift_in_mod(bits_to_nat(odds(h)), lat as nat, 3, bits_to_nat(e), 128);
            }
            lon = (lon << 2u32) + ((value >> 2u32) & 2) + ((value >> 1u32) & 1);
            lat = (lat << 3u32) + ((value >> 2u32) & 4) + ((value >> 1u32) & 2) + (value & 1);
            lon_length += 2;
            lat_length += 3;
        }
        bit_length += 5;
    }
    proof {
        assert(bs.take(bs.len() as int) =~= bs);
    }
    Ok((lat, lon, lat_length, lon_length))
}

/// The digit whose five bits are bits 2, 1, 0 of `a` at the even places and
/// bits 1, 0 of `b` at the odd places: `a2 b1 a1 b0 a0`.
pub open spec fn digit3x2(a: nat, b: nat) -> nat {
    16 * ((a / 4) % 2) + 8 * ((b / 2) % 2) + 4 * ((a / 2) % 2) + 2 * (b % 2) + a % 2
}

/// The bits of a `p`-digit code built from two halves, where `a` supplies the
/// three-bit group of the last digit and `b` its two-bit group: the low
/// `(5p + 1) / 2` bits of one half take the even positions, the low `5p / 2`
/// bits of the other the odd positions.
pub open spec fn halves_bits(a: nat, b: nat, p: nat) -> Seq<bool> {
    if p % 2 == 1 {
        interleave_bits(nat_to_bits(a, (5 * p + 1) / 2), nat_to_bits(b, 5 * p / 2))
    } else {
        interleave_bits(nat_to_bits(b, (5 * p + 1) / 2), nat_to_bits(a, 5 * p / 2))
    }
}

/// The digits of `halves_bits`, last digit first consumed.
spec fn halves_code(a: nat, b: nat, p: nat) -> Seq<u8>
    decreases p,
{
    if p == 0 {
        Seq::empty()
    } else {
        halves_code(b / 4, a / 8, (p - 1) as nat).push(base32_char(digit3x2(a, b)))
    }
}

/// The five bits of a digit from its two groups.
proof fn lemma_last_digit_bits(a: nat, b: nat)
    ensures
        interleave_bits(nat_to_bits(a, 3), nat_to_bits(b, 2)).len() == 5,
        bits_to_nat(interleave_bits(nat_to_bits(a, 3), nat_to_bits(b, 2))) == digit3x2(a, b),
{
    let t = interleave_bits(nat_to_bits(a, 3), nat_to_bits(b, 2));
    lemma_nat_to_bits_len(a, 3);
    lemma_nat_to_bits_len(b, 2);
    lemma2_to64();
    lemma_nat_to_bits_index(a, 3, 0);
    lemma_nat_to_bits_index(a, 3, 1);
    lemma_nat_to_bits_index(a, 3, 2);
    lemma_nat_to_bits_index(b, 2, 0);
    lemma_nat_to_bits_index(b, 2, 1);
    assert(t[0] == nat_to_bits(a, 3)[0]);
    assert(t[1] == nat_to_bits(b, 2)[0]);
    assert(t[2] == nat_to_bits(a, 3)[1]);
    assert(t[3] == nat_to_bits(b, 2)[1]);
    assert(t[4] == nat_to_bits(a, 3)[2]);
    lemma_bits_to_nat_five(t);
}

proof fn lemma_geohash_bytes_push(s: Seq<bool>, t: Seq<bool>)
    requires
        s.len() % 5 == 0,
        t.len() == 5,
    ensures
        geohash_bytes(s + t) == geohash_bytes(s).push(base32_char(bits_to_nat(t))),
{
    let g = geohash_bytes(s + t);
    let h = geohash_bytes(s).push(base32_char(bits_to_nat(t)));
    assert forall|k: int| 0 <= k < g.len() implies g[k] == h[k] by {
        if k < s.len() / 5 {
            assert((s + t).subrange(5 * k, 5 * k + 5) =~= s.subrange(5 * k, 5 * k + 5));
        } else {
            assert((s + t).subrange(5 * k, 5 * k + 5) =~= t);
        }
    }
    assert(g =~= h);
}

/// `halves_code` spells `halves_bits`.
proof fn lemma_halves_code(a: nat, b: nat, p: nat)
    ensures
        halves_bits(a, b, p).len() == 5 * p,
        halves_code(a, b, p) == geohash_bytes(halves_bits(a, b, p)),
    decreases p,
{
    let ne = (5 * p + 1) / 2;
    let no = 5 * p / 2;
    lemma_nat_to_bits_len(a, ne);
    lemma_nat_to_bits_len(a, no);
    lemma_nat_to_bits_len(b, ne);
    lemma_nat_to_bits_len(b, no);
    if p == 0 {
        assert(geohash_bytes(halves_bits(a, b, p)) =~= Seq::<u8>::empty());
    } else {
        let p1 = (p - 1) as nat;
        lemma_halves_code(b / 4, a / 8, p1);
        lemma2_to64();
        lemma_last_digit_bits(a, b);
        let t = interleave_bits(nat_to_bits(a, 3), nat_to_bits(b, 2));
        lemma_nat_to_bits_len(a / 8, (ne - 3) as nat);
        lemma_nat_to_bits_len(b / 4, (no - 2) as nat);
        if p % 2 == 1 {
            lemma_nat_to_bits_split(a, (ne - 3) as nat, 3);
            lemma_nat_to_bits_split(b, (no - 2) as nat, 2);
            assert((ne - 3) as nat + 3 == ne);
            assert((no - 2) as nat + 2 == no);
            lemma_interleave_append(
                nat_to_bits(a / 8, (ne - 3) as nat),
                nat_to_bits(b / 4, (no - 2) as nat),
                nat_to_bits(a, 3),
                nat_to_bits(b, 2),
            );
            assert(halves_bits(b / 4, a / 8, p1) == interleave_bits(
                nat_to_bits(a / 8, (ne - 3) as nat),
                nat_to_bits(b / 4, (no - 2) as nat),
            ));
        } else {
            lemma_nat_to_bits_split(b, (ne - 2) as nat, 2);
            lemma_nat_to_bits_split(a, (no - 3) as nat, 3);
            lemma_nat_to_bits_len(b / 4, (ne - 2) as nat);
            lemma_nat_to_bits_len(a / 8, (no - 3) as nat);
            assert((ne - 2) as nat + 2 == ne);
            assert((no - 3) as nat + 3 == no);
            lemma_interleave_append_odd(
                nat_to_bits(b / 4, (ne - 2) as nat),
                nat_to_bits(a / 8, (no - 3) as nat),
                nat_to_bits(b, 2),
                nat_to_bits(a, 3),
            );
            assert(halves_bits(b / 4, a / 8, p1) == interleave_bits(
                nat_to_bits(b / 4, (ne - 2) as nat),
                nat_to_bits(a / 8, (no - 3) as nat),
            ));
        }
        lemma_geohash_bytes_push(halves_bits(b / 4, a / 8, p1), t);
    }
}

/// With consistent bit counts the halves are longitude (even places) and
/// latitude (odd places).
proof fn lemma_halves_bits_cell(lat: nat, lon: nat, lat_length: nat, lon_length: nat)
    requires
        lon_length == lat_length || lon_length == lat_length + 1,
        (lat_length + lon_length) % 5 == 0,
    ensures
        ({
            let p = (lat_length + lon_length) / 5;
            let a = if lat_length < lon_length {
                lon
            } else {
                lat
            };
            let b = if lat_length < lon_length {
                lat
            } else {
                lon
            };
            halves_bits(a, b, p) == interleave_bits(
                nat_to_bits(lon, lon_length),
                nat_to_bits(lat, lat_length),
            )
        }),
{
}

proof fn lemma_u128_low(a: u128)
    by (bit_vector)
    ensures
        a & 7 == a % 8,
        a & 3 == a % 4,
        a >> 3u32 == a / 8,
        a >> 2u32 == a / 4,
{
}

proof fn lemma_u8_low5(v: u8)
    by (bit_vector)
    requires
        v < 32,
    ensures
        v & 0x1f == v,
{
}

proof fn lemma_u128_groups(a: u128, b: u128)
    by (bit_vector)
    ensures
        (a / 4) % 2 == ((a % 8) / 4) % 2,
        (a / 2) % 2 == ((a % 8) / 2) % 2,
        a % 2 == (a % 8) % 2,
        (b / 2) % 2 == ((b % 4) / 2) % 2,
        b % 2 == (b % 4) % 2,
{
}

/// The spreading table gives the digit of the two low groups.
proof fn lemma_digit_table(a: u128, b: u128, table: Seq<u8>)
    requires
        table.len() == 8,
        table[0] == 0 && table[1] == 1 && table[2] == 4 && table[3] == 5,
        table[4] == 16 && table[5] == 17 && table[6] == 20 && table[7] == 21,
    ensures
        table[(a % 8) as int] + 2 * table[(b % 4) as int] == digit3x2(a as nat, b as nat),
{
    lemma_u128_groups(a, b);
    let x = a % 8;
    let y = b % 4;
    assert(table[y as int] * 2 == 8 * ((y / 2) % 2) + 2 * (y % 2)) by {
        if y == 0 {
        } else if y == 1 {
        } else if y == 2 {
        } else {
        }
    }
    assert(table[x as int] == 16 * ((x / 4) % 2) + 4 * ((x / 2) % 2) + x % 2) by {
        if x == 0 {
        } else if x == 1 {
        } else if x == 2 {
        } else if x == 3 {
        } else if x == 4 {
        } else if x == 5 {
        } else if x == 6 {
        } else {
        }
    }
}

/// The code of the cell whose longitude part is `lon` (`lon_length` bits) and
/// whose latitude part is `lat` (`lat_length` bits).
pub open spec fn cell_chars(lat: nat, lon: nat, lat_length: nat, lon_length: nat) -> Seq<char> {
    geohash_chars(interleave_bits(nat_to_bits(lon, lon_length), nat_to_bits(lat, lat_length)))
}

/// Spells a code of `(lat_length + lon_length) / 5` digits from its latitude
/// and longitude parts. The part with more bits (latitude when both have as
/// many) supplies the three-bit group of the last digit.
pub fn encode_i2c(lat: u128, lon: u128, lat_length: usize, lon_length: usize) -> (output: String)
    requires
        lat_length + lon_length <= usize::MAX,
    ensures
        ({
            let p = (lat_length + lon_length) / 5;
            let a = if lat_length < lon_length {
                lon
            } else {
                lat
            };
            let b = if lat_length < lon_length {
                lat
            } else {
                lon
            };
            output@ == geohash_chars(halves_bits(a as nat, b as nat, p as nat))
        }),
        (lon_length == lat_length || lon_length == lat_length + 1) && (lat_length + lon_length)
            % 5 == 0 ==> output@ == cell_chars(
            lat as nat,
            lon as nat,
            lat_length as nat,
            lon_length as nat,
        ),
{
    let precision = (lat_length + lon_length) / 5;
    let (mut a, mut b) = if lat_length < lon_length {
        (lon, lat)
    } else {
        (lat, lon)
    };
    let ghost a0 = a as nat;
    let ghost b0 = b as nat;
    let boost: [u8; 8] = [0u8, 1, 4, 5, 16, 17, 20, 21];
    let mut output: Vec<u8> = Vec::with_capacity(precision);
    let ghost table = boost@;
    proof {
        assert(table[0] == 0 && table[1] == 1 && table[2] == 4 && table[3] == 5);
        assert(table[4] == 16 && table[5] == 17 && table[6] == 20 && table[7] == 21);
    }
    for t in 0..precision
        invariant
            boost@ == table,
            table.len() == 8,
            table[0] == 0 && table[1] == 1 && table[2] == 4 && table[3] == 5,
            table[4] == 16 && table[5] == 17 && table[6] == 20 && table[7] == 21,
            halves_code(a0, b0, precision as nat) == halves_code(
                a as nat,
                b as nat,
                (precision - t) as nat,
            ) + output@.reverse(),
    {
        proof {
            lemma_u128_low(a);
            lemma_u128_low(b);
        }
        let x = (a & 7) as usize;
        let y = (b & 3) as usize;
        let gx = boost[x];
        let gy = boost[y];
        proof {
            assert(gy <= 5);
            lemma_digit_table(a, b, table);
            assert(gx + gy * 2 == digit3x2(a as nat, b as nat));
            assert((gy << 1) == gy * 2) by (bit_vector)
                requires
                    gy <= 5,
            ;
            assert(gx <= 21);
            lemma_u8_low5((gx + (gy << 1)) as u8);
        }
        let value = (gx + (gy << 1)) & 0x1f;
        let c = base32_digit(value);
        let ghost before = output@;
        output.push(c);
        proof {
            let rest = (precision - t - 1) as nat;
            assert(halves_code(a as nat, b as nat, (precision - t) as nat) == halves_code(
                b as nat / 4,
                a as nat / 8,
                rest,
            ).push(c));
            assert(output@.reverse() =~= seq![c] + before.reverse());
        }
        let next_a = a >> 3u32;
        a = b >> 2u32;
        b = next_a;
    }
    let mut result = String::new();
    let mut i = output.len();
    proof {
        assert(halves_code(a as nat, b as nat, 0) =~= Seq::<u8>::empty());
        assert(halves_code(a0, b0, precision as nat) =~= output@.reverse());
    }
    while i > 0
        invariant
            i <= output.len(),
            result@ == Seq::new(
                (output.len() - i) as nat,
                |k: int| output@[output.len() - 1 - k] as char,
            ),
        decreases i,
    {
        i -= 1;
        result.push(output[i] as char);
        proof {
            assert(result@ =~= Seq::new(
                (output.len() - i) as nat,
                |k: int| output@[output.len() - 1 - k] as char,
            ));
        }
    }
    proof {
        lemma_halves_code(a0, b0, precision as nat);
        assert(result@ =~= geohash_chars(halves_bits(a0, b0, precision as nat)));
        if (lon_length == lat_length || lon_length == lat_length + 1) && (lat_length + lon_length)
            % 5 == 0 {
            lemma_halves_bits_cell(lat as nat, lon as nat, lat_length as nat, lon_length as nat);
        }
    }
    result
}

/// Longitude `m` of a neighbor row: the cell's own (0), the one to the west
/// (1) and the one to the east (2), wrapping around.
pub open spec fn neighbor_lon(lon: nat, lon_length: nat, m: int) -> nat {
    let size = pow2(lon_length);
    if m == 0 {
        lon
    } else if m == 1 {
        ((lon + size - 1) % (size as int)) as nat
    } else {
        (lon + 1) % size
    }
}

/// Latitude of neighbor row `i`: the cell's own (0), the one to the south (1)
/// and the one to the north (2); none past the poles.
pub open spec fn neighbor_lat(lat: nat, lat_length: nat, i: int) -> Option<nat> {
    if i == 0 {
        Some(lat)
    } else if i == 1 {
        if lat > 0 {
            Some((lat - 1) as nat)
        } else {
            None
        }
    } else {
        if lat + 1 < pow2(lat_length) {
            Some(lat + 1)
        } else {
            None
        }
    }
}

/// The cells of neighbor row `i`, west before east; the row of the cell
/// itself leaves the cell out.
pub open spec fn neighbor_row(lat: nat, lon: nat, lat_length: nat, lon_length: nat, i: int) -> Seq<
    (nat, nat),
> {
    match neighbor_lat(lat, lat_length, i) {
        None => Seq::empty(),
        Some(la) => {
            let start: int = if i == 0 {
                1
            } else {
                0
            };
            Seq::new((3 - start) as nat, |k: int| (la, neighbor_lon(lon, lon_length, start + k)))
        },
    }
}

/// The neighbor rows before row `i`.
pub open spec fn neighbor_rows(lat: nat, lon: nat, lat_length: nat, lon_length: nat, i: int) -> Seq<
    (nat, nat),
>
    decreases i,
{
    if i <= 0 {
        Seq::empty()
    } else {
        neighbor_rows(lat, lon, lat_length, lon_length, i - 1) + neighbor_row(
            lat,
            lon,
            lat_length,
            lon_length,
            i - 1,
        )
    }
}

/// The cells around a cell, as (latitude part, longitude part): the west and
/// east cells, then the southern row and the northern row (each: south or
/// north, then south-west or north-west, then south-east or north-east).
pub open spec fn neighbor_cells(lat: nat, lon: nat, lat_length: nat, lon_length: nat) -> Seq<
    (nat, nat),
> {
    neighbor_rows(lat, lon, lat_length, lon_length, 3)
}

/// The codes of a list of cells.
pub open spec fn cells_chars(cells: Seq<(nat, nat)>, lat_length: nat, lon_length: nat) -> Seq<
    Seq<char>,
> {
    cells.map_values(|c: (nat, nat)| cell_chars(c.0, c.1, lat_length, lon_length))
}

/// What `neighbors` answers for a code.
pub open spec fn neighbors_spec(bytes: Seq<u8>) -> Result<Seq<Seq<char>>, GeohashError> {
    if !valid_geohash(bytes) {
        Err(GeohashError::InvalidCode)
    } else {
        let lat_bits = lat_bits_of(bytes);
        let lon_bits = lon_bits_of(bytes);
        if lat_bits.len() == 0 && lon_bits.len() == 0 {
            Ok(Seq::empty())
        } else if lat_bits.len() >= 128 || lon_bits.len() >= 128 {
            Err(GeohashError::InvalidArgument)
        } else {
            Ok(
                cells_chars(
                    neighbor_cells(
                        bits_to_nat(lat_bits),
                        bits_to_nat(lon_bits),
                        lat_bits.len(),
                        lon_bits.len(),
                    ),
                    lat_bits.len(),
                    lon_bits.len(),
                ),
            )
        }
    }
}

proof fn lemma_u128_shl_one_step(k: u32)
    by (bit_vector)
    requires
        0 < k < 128,
    ensures
        (1u128 << k) == (1u128 << ((k - 1) as u32)) * 2,
        (1u128 << 0u32) == 1,
{
}

proof fn lemma_u128_shl_one(k: u32)
    requires
        k < 128,
    ensures
        (1u128 << k) as nat == pow2(k as nat),
    decreases k,
{
    if k == 0 {
        lemma_u128_shl_one_step(1);
        lemma2_to64();
    } else {
        lemma_u128_shl_one((k - 1) as u32);
        lemma_u128_shl_one_step(k);
        lemma_pow2_unfold(k as nat);
    }
}

/// The codes of the cells around the cell of `hashcode`: the eight cells
/// next to it, fewer at the poles (none north of the northernmost row, none
/// south of the southernmost); longitude wraps around. An empty code has no
/// neighbors.
pub fn neighbors(hashcode: &str) -> (r: Result<Vec<String>, GeohashError>)
    requires
        hashcode.spec_bytes().len() * 5 <= usize::MAX,
    ensures
        match r {
            Ok(list) => neighbors_spec(hashcode.spec_bytes()) == Ok::<Seq<Seq<char>>, GeohashError>(
                list@.map_values(|s: String| s@),
            ),
            Err(e) => neighbors_spec(hashcode.spec_bytes()) == Err::<Seq<Seq<char>>, GeohashError>(e),
        },
{
    let ghost bs = hashcode.spec_bytes();
    let (lat, lon, lat_length, lon_length) = match decode_c2i(hashcode) {
        Ok(parts) => parts,
        Err(e) => return Err(e),
    };
    proof {
        lemma_hash_bits_len(bs);
    }
    if lat_length == 0 && lon_length == 0 {
        proof {
            assert(Seq::<String>::empty().map_values(|s: String| s@) =~= Seq::<Seq<char>>::empty());
        }
        return Ok(Vec::new());
    }
    if lat_length >= 128 || lon_length >= 128 {
        return Err(GeohashError::InvalidArgument);
    }
    let ghost la_n = bits_to_nat(lat_bits_of(bs));
    let ghost lo_n = bits_to_nat(lon_bits_of(bs));
    proof {
        lemma_bits_to_nat_bound(lat_bits_of(bs));
        lemma_bits_to_nat_bound(lon_bits_of(bs));
        lemma_pow2_strictly_increases(lat_length as nat, 128);
        lemma_pow2_strictly_increases(lon_length as nat, 128);
        lemma_small_mod(la_n, pow2(128));
        lemma_small_mod(lo_n, pow2(128));
        lemma_u128_shl_one(lat_length as u32);
        lemma_u128_shl_one(lon_length as u32);
        lemma_pow2_strictly_increases(lat_length as nat, 127);
        lemma_pow2_strictly_increases(lon_length as nat, 127);
        lemma2_to64();
        lemma2_to64_rest();
        lemma_pow2_adds(64, 63);
        assert(pow2(127) == 0x8000_0000_0000_0000_0000_0000_0000_0000);
        // the code has at least one character, so at least three longitude bits
        assert(lon_length >= 3);
        lemma_pow2_strictly_increases(2, lon_length as nat);
        assert(lat_length < lon_length ==> lat_length + 1 == lon_length);
    }
    let lat_size = 1u128 << (lat_length as u32);
    let lon_size = 1u128 << (lon_length as u32);
    let lats = [
        Some(lat),
        lat.checked_sub(1),
        if lat + 1 < lat_size {
            Some(lat + 1)
        } else {
            None
        },
    ];
    let lons = [lon, (lon + lon_size - 1) % lon_size, (lon + 1) % lon_size];
    let ghost lat_len = lat_length as nat;
    let ghost lon_len = lon_length as nat;
    let ghost lats_v = lats@;
    let ghost lons_v = lons@;
    proof {
        assert(forall|i: int|
            0 <= i < 3 ==> match #[trigger] lats_v[i] {
                Some(c) => neighbor_lat(la_n, lat_len, i) == Some(c as nat),
                None => neighbor_lat(la_n, lat_len, i) is None,
            });
        assert(forall|k1: int, k2: int|
            0 <= k1 < 3 && 0 <= k2 < 3 && k1 != k2 && (#[trigger] lats_v[k1]) is Some && (
            #[trigger] lats_v[k2]) is Some ==> lats_v[k1] != lats_v[k2]);
        assert(forall|m: int| 0 <= m < 3 ==> #[trigger] lons_v[m] as nat == neighbor_lon(lo_n, lon_len, m));
    }
    let mut output: Vec<String> = Vec::with_capacity(8);
    let mut previous_lat: Option<u128> = None;
    for lat_index in 0..3
        invariant
            lats@ == lats_v,
            lons@ == lons_v,
            lats_v.len() == 3,
            lons_v.len() == 3,
            lat_len == lat_length,
            lon_len == lon_length,
            lat_length < 128,
            lon_length < 128,
            lon_length >= 3,
            lon_length == lat_length || lon_length == lat_length + 1,
            (lat_length + lon_length) % 5 == 0,
            lat as nat == la_n,
            lon as nat == lo_n,
            la_n < pow2(lat_len),
            lo_n < pow2(lon_len),
            forall|i: int|
                0 <= i < 3 ==> match #[trigger] lats_v[i] {
                    Some(c) => neighbor_lat(la_n, lat_len, i) == Some(c as nat),
                    None => neighbor_lat(la_n, lat_len, i) is None,
                },
            forall|m: int| 0 <= m < 3 ==> #[trigger] lons_v[m] as nat == neighbor_lon(lo_n, lon_len, m),
            forall|k1: int, k2: int|
                0 <= k1 < 3 && 0 <= k2 < 3 && k1 != k2 && (#[trigger] lats_v[k1]) is Some && (
                #[trigger] lats_v[k2]) is Some ==> lats_v[k1] != lats_v[k2],
            previous_lat matches Some(p) ==> exists|k: int|
                0 <= k < lat_index && #[trigger] lats_v[k] == Some(p),
            output@.map_values(|s: String| s@) == cells_chars(
                neighbor_rows(la_n, lo_n, lat_len, lon_len, lat_index as int),
                lat_len,
                lon_len,
            ),
    {
        let ghost row = neighbor_row(la_n, lo_n, lat_len, lon_len, lat_index as int);
        let ghost before = output@.map_values(|s: String| s@);
        match lats[lat_index] {
            None => {
                proof {
                    assert(row =~= Seq::<(nat, nat)>::empty());
                }
            },
            Some(candidate_lat) => {
                let repeated = previous_lat == Some(candidate_lat);
                if repeated {
                    proof {
                        let k = choose|k: int| 0 <= k < lat_index && #[trigger] lats_v[k] == Some(
                            candidate_lat,
                        );
                        assert(lats_v[lat_index as int] == Some(candidate_lat));
                        assert(false);
                    }
                } else {
                    previous_lat = Some(candidate_lat);
                    proof {
                        assert(lats_v[lat_index as int] == Some(candidate_lat));
                    }
                    let ghost start: int = if lat_index == 0 {
                        1
                    } else {
                        0
                    };
                    let mut previous_lon: Option<u128> = None;
                    proof {
                        lemma_neighbor_lons_distinct(lo_n, lon_len);
                        assert(row.take(0) =~= Seq::<(nat, nat)>::empty());
                        assert(cells_chars(row.take(0), lat_len, lon_len) =~= Seq::<Seq<char>>::empty());
                        assert(before + Seq::<Seq<char>>::empty() =~= before);
                    }
                    for lon_index in 0..3
                        invariant
                            lats@ == lats_v,
                            lons@ == lons_v,
                            lons_v.len() == 3,
                            lat_len == lat_length,
                            lon_len == lon_length,
                            lon_length >= 3,
                            lon_length < 128,
                            lon_length == lat_length || lon_length == lat_length + 1,
                            (lat_length + lon_length) % 5 == 0,
                            lo_n < pow2(lon_len),
                            lo_n == lon as nat,
                            neighbor_lon(lo_n, lon_len, 0) != neighbor_lon(lo_n, lon_len, 1),
                            neighbor_lon(lo_n, lon_len, 1) != neighbor_lon(lo_n, lon_len, 2),
                            forall|m: int|
                                0 <= m < 3 ==> #[trigger] lons_v[m] as nat == neighbor_lon(
                                    lo_n,
                                    lon_len,
                                    m,
                                ),
                            lat_index < 3,
                            start == if lat_index == 0 {
                                1int
                            } else {
                                0int
                            },
                            neighbor_lat(la_n, lat_len, lat_index as int) == Some(
                                candidate_lat as nat,
                            ),
                            row == neighbor_row(la_n, lo_n, lat_len, lon_len, lat_index as int),
                            lon_index == 0 ==> previous_lon is None,
                            lon_index > 0 ==> previous_lon == Some(lons_v[lon_index - 1]),
                            output@.map_values(|s: String| s@) == before + cells_chars(
                                row.take(
                                    if lon_index >= start {
                                        lon_index - start
                                    } else {
                                        0
                                    },
                                ),
                                lat_len,
                                lon_len,
                            ),
                    {
                        let candidate_lon = lons[lon_index];
                        let repeated_lon = previous_lon == Some(candidate_lon);
                        if repeated_lon {
                            proof {
                                assert(lons_v[lon_index - 1] as nat == neighbor_lon(
                                    lo_n,
                                    lon_len,
                                    lon_index - 1,
                                ));
                                assert(false);
                            }
                        } else {
                            previous_lon = Some(candidate_lon);
                            if !(lat_index == 0 && lon_index == 0) {
                                let code = encode_i2c(
                                    candidate_lat,
                                    candidate_lon,
                                    lat_length,
                                    lon_length,
                                );
                                let ghost mid = output@;
                                output.push(code);
                                proof {
                                    let k = lon_index - start;
                                    assert(row[k] == (candidate_lat as nat, candidate_lon as nat));
                                    assert(row.take(k + 1) =~= row.take(k).push(row[k]));
                                    assert(output@ =~= mid.push(code));
                                    assert(output@.map_values(|s: String| s@) =~= mid.map_values(
                                        |s: String| s@,
                                    ).push(code@));
                                    assert(cells_chars(row.take(k + 1), lat_len, lon_len)
                                        =~= cells_chars(row.take(k), lat_len, lon_len).push(
                                        cell_chars(
                                            candidate_lat as nat,
                                            candidate_lon as nat,
                                            lat_len,
                                            lon_len,
                                        ),
                                    ));
                                }
                            }
                        }
                    }
                    proof {
                        assert(row.take(3 - start) =~= row);
                    }
                }
            },
        }
        proof {
            assert(cells_chars(
                neighbor_rows(la_n, lo_n, lat_len, lon_len, lat_index + 1),
                lat_len,
                lon_len,
            ) =~= before + cells_chars(row, lat_len, lon_len));
        }
    }
    Ok(output)
}

/// West, own and east longitudes differ when there are at least eight columns.
proof fn lemma_neighbor_lons_distinct(lon: nat, lon_length: nat)
    requires
        lon < pow2(lon_length),
        lon_length >= 3,
    ensures
        neighbor_lon(lon, lon_length, 0) != neighbor_lon(lon, lon_length, 1),
        neighbor_lon(lon, lon_length, 1) != neighbor_lon(lon, lon_length, 2),
{
    let size = pow2(lon_length);
    lemma_pow2_strictly_increases(2, lon_length);
    lemma2_to64();
    if lon >= 1 {
        lemma_fundamental_div_mod_converse((lon + size - 1) as int, size as int, 1, lon - 1);
    } else {
        lemma_fundamental_div_mod_converse((lon + size - 1) as int, size as int, 0, size - 1);
    }
    if lon + 1 < size {
        lemma_fundamental_div_mod_converse((lon + 1) as int, size as int, 0, (lon + 1) as int);
    } else {
        lemma_fundamental_div_mod_converse((lon + 1) as int, size as int, 1, 0);
    }
}

} // verus!
