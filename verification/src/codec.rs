//! Encoding coordinates into geohashes and 128-bit integers, and decoding
//! them back, in fixed-point form (see `fixed`).
use crate::bits::{
    bits_to_nat,
    evens,
    interleave_bits,
    lemma_bits_to_nat_append,
    lemma_bits_to_nat_bound,
    lemma_evens_odds_append,
    lemma_interleave_append,
    lemma_nat_to_bits_concat,
    lemma_nat_to_bits_len,
    lemma_nat_to_bits_mod,
    lemma_nat_to_bits_of_bits_to_nat,
    lemma_nat_to_bits_small,
    lemma_nat_to_bits_split,
    lemma_nat_to_bits_zero,
    nat_to_bits,
    odds,
    pad_bits,
};
use crate::code::{geohash_chars, hash_bits, lemma_hash_bits_len, valid_geohash};
use crate::error::GeohashError;
use crate::fixed::{double_bits_to_i64, in_unit_range, unit_conversion_defined, unit_to_fixed};
use crate::interleave::{deinterleave, interleave};
use crate::stream::{
    bit_window,
    geohash_to_interleaved,
    interleaved_to_geohash,
    lemma_words_bits_append,
    lemma_words_bits_index,
    lemma_words_bits_len,
    lemma_words_bits_single,
    words_bits,
};
use vstd::arithmetic::div_mod::*;
use vstd::arithmetic::power2::*;
use vstd::bits::*;
use vstd::prelude::*;
use vstd::string::StringSliceAdditionalSpecFns;

verus! {

/// The first 128 bits that a code spells, zero-filled past its end.
pub open spec fn code_stream(bytes: Seq<u8>) -> Seq<bool> {
    pad_bits(hash_bits(bytes), 128)
}

/// The fixed-point latitude of a code: its first 64 latitude bits.
pub open spec fn decoded_lat(bytes: Seq<u8>) -> nat {
    bits_to_nat(odds(code_stream(bytes)))
}

/// The fixed-point longitude of a code: its first 64 longitude bits.
pub open spec fn decoded_lon(bytes: Seq<u8>) -> nat {
    bits_to_nat(evens(code_stream(bytes)))
}

/// The 128-bit interleaving of fixed-point coordinates: longitude bits at
/// the even positions, latitude bits at the odd ones.
pub open spec fn encoded_bits(lat: nat, lon: nat) -> Seq<bool> {
    interleave_bits(nat_to_bits(lon, 64), nat_to_bits(lat, 64))
}

/// The words `0 .. 8` of a stream, zero past its end.
spec fn padded_words(ws: Seq<u16>) -> Seq<u16> {
    Seq::new(8, |i: int| if i < ws.len() { ws[i] } else { 0 })
}

proof fn lemma_padded_words(ws: Seq<u16>)
    ensures
        words_bits(padded_words(ws)) == pad_bits(words_bits(ws), 128),
{
    let p = padded_words(ws);
    lemma_words_bits_len(p);
    lemma_words_bits_len(ws);
    lemma_nat_to_bits_zero(16);
    assert forall|j: int| 0 <= j < 128 implies #[trigger] words_bits(p)[j] == pad_bits(
        words_bits(ws),
        128,
    )[j] by {
        lemma_words_bits_index(p, j);
        if j < 16 * ws.len() {
            lemma_words_bits_index(ws, j);
        }
    }
    assert(words_bits(p) =~= pad_bits(words_bits(ws), 128));
}

/// One more word of the stream, taken apart into its longitude and latitude halves.
proof fn lemma_halves_step(ws: Seq<u16>, i: int, upper: u8, lower: u8, lon: nat, lat: nat)
    requires
        0 <= i < ws.len(),
        lon == bits_to_nat(evens(words_bits(ws.take(i)))),
        lat == bits_to_nat(odds(words_bits(ws.take(i)))),
        nat_to_bits(upper as nat, 8) == evens(nat_to_bits(ws[i] as nat, 16)),
        nat_to_bits(lower as nat, 8) == odds(nat_to_bits(ws[i] as nat, 16)),
    ensures
        bits_to_nat(evens(words_bits(ws.take(i + 1)))) == lon * 256 + upper,
        bits_to_nat(odds(words_bits(ws.take(i + 1)))) == lat * 256 + lower,
        lon < pow2((8 * i) as nat),
        lat < pow2((8 * i) as nat),
{
    let prev = words_bits(ws.take(i));
    let w = nat_to_bits(ws[i] as nat, 16);
    assert(ws.take(i + 1).drop_last() =~= ws.take(i));
    lemma_words_bits_len(ws.take(i));
    lemma_nat_to_bits_len(ws[i] as nat, 16);
    lemma_evens_odds_append(prev, w);
    lemma_bits_to_nat_append(evens(prev), evens(w));
    lemma_bits_to_nat_append(odds(prev), odds(w));
    lemma2_to64();
    lemma_nat_to_bits_small(upper as nat, 8);
    lemma_nat_to_bits_small(lower as nat, 8);
    lemma_bits_to_nat_bound(evens(prev));
    lemma_bits_to_nat_bound(odds(prev));
}

proof fn lemma_u64_append_byte(x: u64, b: u8, i: nat)
    requires
        i < 8,
        x < pow2(8 * i),
    ensures
        (x << 8u64) as nat + b as nat == x * 256 + b,
        x * 256 + b < pow2(8 * i + 8),
{
    lemma2_to64();
    lemma2_to64_rest();
    lemma_pow2_adds(8 * i, 8);
    if 8 * i + 8 < 64 {
        lemma_pow2_strictly_increases(8 * i + 8, 64);
    }
    assert(x * 256 + b < pow2(8 * i + 8)) by (nonlinear_arith)
        requires
            x < pow2(8 * i),
            b < 256,
            pow2(8 * i + 8) == pow2(8 * i) * 256,
    ;
    lemma_u64_shl_is_mul(x, 8);
}

/// Decodes a code into fixed-point coordinates (its first 64 latitude and
/// longitude bits) and the numbers of latitude and longitude bits that it
/// holds: `(lat, lon, lat_bits, lon_bits)`.
pub fn decode_fixed(hashcode: &str) -> (r: Result<(u64, u64, usize, usize), GeohashError>)
    requires
        hashcode.spec_bytes().len() * 5 <= usize::MAX,
    ensures
        match r {
            Ok((lat, lon, lat_bits, lon_bits)) => {
                &&& valid_geohash(hashcode.spec_bytes())
                &&& lat as nat == decoded_lat(hashcode.spec_bytes())
                &&& lon as nat == decoded_lon(hashcode.spec_bytes())
                &&& lat_bits == odds(hash_bits(hashcode.spec_bytes())).len()
                &&& lon_bits == evens(hash_bits(hashcode.spec_bytes())).len()
            },
            Err(e) => !valid_geohash(hashcode.spec_bytes()) && e == GeohashError::InvalidCode,
        },
{
    let interleaved = match geohash_to_interleaved(hashcode) {
        Ok(v) => v,
        Err(e) => return Err(e),
    };
    let ghost bs = hashcode.spec_bytes();
    let ghost p = padded_words(interleaved@);
    let mut lat64: u64 = 0;
    let mut lon64: u64 = 0;
    let mut i: usize = 0;
    proof {
        assert(p.take(0) =~= Seq::<u16>::empty());
        assert(evens(words_bits(p.take(0))) =~= Seq::<bool>::empty());
        assert(odds(words_bits(p.take(0))) =~= Seq::<bool>::empty());
    }
    while i < 8
        invariant
            i <= 8,
            p == padded_words(interleaved@),
            lon64 as nat == bits_to_nat(evens(words_bits(p.take(i as int)))),
            lat64 as nat == bits_to_nat(odds(words_bits(p.take(i as int)))),
        decreases 8 - i,
    {
        let word = if i < interleaved.len() {
            interleaved[i]
        } else {
            0
        };
        let (upper, lower) = deinterleave(word);
        proof {
            assert(word == p[i as int]);
            lemma_halves_step(p, i as int, upper, lower, lon64 as nat, lat64 as nat);
            lemma_u64_append_byte(lon64, upper, i as nat);
            lemma_u64_append_byte(lat64, lower, i as nat);
        }
        lon64 = (lon64 << 8u64) + upper as u64;
        lat64 = (lat64 << 8u64) + lower as u64;
        i += 1;
    }
    let code_len = hashcode.len();
    proof {
        assert(p.take(8) =~= p);
        lemma_padded_words(interleaved@);
        lemma_hash_bits_len(bs);
        lemma_words_bits_len(interleaved@);
        assert(pad_bits(pad_bits(hash_bits(bs), 16 * interleaved.len() as nat), 128) =~= pad_bits(
            hash_bits(bs),
            128,
        ));
    }
    Ok((lat64, lon64, code_len / 2 * 5 + code_len % 2 * 2, code_len / 2 * 5 + code_len % 2 * 3))
}

proof fn lemma_u64_low_byte(x: u64)
    by (bit_vector)
    ensures
        (x as u8) == x % 256,
{
}

/// The fixed-point forms of the coordinates, interleaved into eight 16-bit
/// words: longitude bits at the even positions, latitude bits at the odd.
/// The arguments are the binary64 bit patterns of `latitude / 90` and
/// `longitude / 180`; either outside `[-1, 1)` is an invalid argument.
pub fn interleave_coordinates(lat_unit_bits: u64, lon_unit_bits: u64) -> (r: Result<
    [u16; 8],
    GeohashError,
>)
    requires
        unit_conversion_defined(lat_unit_bits),
        in_unit_range(lat_unit_bits) ==> unit_conversion_defined(lon_unit_bits),
    ensures
        match r {
            Ok(ws) => match (unit_to_fixed(lat_unit_bits), unit_to_fixed(lon_unit_bits)) {
                (Some(lat), Some(lon)) => words_bits(ws@) == encoded_bits(lat, lon),
                _ => false,
            },
            Err(e) => (unit_to_fixed(lat_unit_bits) is None || unit_to_fixed(lon_unit_bits) is None)
                && e == GeohashError::InvalidArgument,
        },
{
    let lat64 = match double_bits_to_i64(lat_unit_bits) {
        Some(v) => v,
        None => return Err(GeohashError::InvalidArgument),
    };
    let lon64 = match double_bits_to_i64(lon_unit_bits) {
        Some(v) => v,
        None => return Err(GeohashError::InvalidArgument),
    };
    let mut interleaved = [0u16; 8];
    proof {
        assert(interleaved@.subrange(8, 8) =~= Seq::<u16>::empty());
        assert(interleave_bits(nat_to_bits(lon64 as nat, 0), nat_to_bits(lat64 as nat, 0))
            =~= Seq::<bool>::empty());
    }
    for i in 0..8
        invariant
            interleaved@.len() == 8,
            words_bits(interleaved@.subrange(8 - i, 8)) == interleave_bits(
                nat_to_bits(lon64 as nat, (8 * i) as nat),
                nat_to_bits(lat64 as nat, (8 * i) as nat),
            ),
    {
        let ghost old_ws = interleaved@;
        let lon_byte = (lon64 >> (i * 8) as u64) as u8;
        let lat_byte = (lat64 >> (i * 8) as u64) as u8;
        let w = interleave(lon_byte, lat_byte);
        interleaved[7 - i] = w;
        proof {
            let k = (8 * i) as nat;
            lemma_u64_shr_is_div(lon64, (i * 8) as u64);
            lemma_u64_shr_is_div(lat64, (i * 8) as u64);
            lemma_u64_low_byte(lon64 >> (i * 8) as u64);
            lemma_u64_low_byte(lat64 >> (i * 8) as u64);
            lemma2_to64();
            lemma_nat_to_bits_split(lon64 as nat, 8, k);
            lemma_nat_to_bits_split(lat64 as nat, 8, k);
            lemma_nat_to_bits_mod(lon64 as nat / pow2(k), 8);
            lemma_nat_to_bits_mod(lat64 as nat / pow2(k), 8);
            lemma_nat_to_bits_len(lon_byte as nat, 8);
            lemma_nat_to_bits_len(lat_byte as nat, 8);
            lemma_nat_to_bits_len(lon64 as nat, k);
            lemma_nat_to_bits_len(lat64 as nat, k);
            lemma_interleave_append(
                nat_to_bits(lon_byte as nat, 8),
                nat_to_bits(lat_byte as nat, 8),
                nat_to_bits(lon64 as nat, k),
                nat_to_bits(lat64 as nat, k),
            );
            assert(interleaved@.subrange(7 - i, 8) =~= seq![w] + old_ws.subrange(8 - i, 8));
            lemma_words_bits_append(seq![w], old_ws.subrange(8 - i, 8));
            lemma_words_bits_single(w);
            assert(8 + k == 8 * (i + 1));
        }
    }
    proof {
        assert(interleaved@.subrange(0, 8) =~= interleaved@);
    }
    Ok(interleaved)
}

/// The geohash of the coordinates: 26 characters (130 bits, the last two
/// zero). The arguments are the binary64 bit patterns of `latitude / 90`
/// and `longitude / 180`. Tokyo Tower (35.658581, 139.745433), for
/// instance, gets `xn76ggrw29731uk987brps0000`.
pub fn encode_normalized_latitude(lat_unit_bits: u64, lon_unit_bits: u64) -> (r: Result<
    String,
    GeohashError,
>)
    requires
        unit_conversion_defined(lat_unit_bits),
        in_unit_range(lat_unit_bits) ==> unit_conversion_defined(lon_unit_bits),
    ensures
        match r {
            Ok(code) => match (unit_to_fixed(lat_unit_bits), unit_to_fixed(lon_unit_bits)) {
                (Some(lat), Some(lon)) => code@ == geohash_chars(
                    pad_bits(encoded_bits(lat, lon), 130),
                ),
                _ => false,
            },
            Err(e) => (unit_to_fixed(lat_unit_bits) is None || unit_to_fixed(lon_unit_bits) is None)
                && e == GeohashError::InvalidArgument,
        },
{
    let interleaved = match interleave_coordinates(lat_unit_bits, lon_unit_bits) {
        Ok(ws) => ws,
        Err(e) => return Err(e),
    };
    let code = interleaved_to_geohash(&interleaved, 26);
    proof {
        lemma_words_bits_len(interleaved@);
        assert(bit_window(interleaved@, 0, 130) =~= pad_bits(words_bits(interleaved@), 130));
    }
    Ok(code)
}

proof fn lemma_u64_four_words(a: u64, b: u64, c: u64, d: u64)
    by (bit_vector)
    requires
        a < 0x10000,
        b < 0x10000,
        c < 0x10000,
        d < 0x10000,
    ensures
        (a << 48u64) | (b << 32u64) | (c << 16u64) | d == ((a * 0x10000 + b) * 0x10000 + c)
            * 0x10000 + d,
{
}

/// The bits of four words packed into one 64-bit number.
proof fn lemma_four_words_bits(ws: Seq<u16>, v: nat)
    requires
        ws.len() == 4,
        v == ((ws[0] * 0x10000nat + ws[1]) * 0x10000nat + ws[2]) * 0x10000nat + ws[3],
    ensures
        nat_to_bits(v, 64) == words_bits(ws),
        v < pow2(64),
{
    lemma2_to64();
    lemma_pow2_adds(16, 16);
    lemma_pow2_adds(32, 16);
    lemma_pow2_adds(48, 16);
    let a = ws[0] as nat;
    let b = ws[1] as nat;
    let c = ws[2] as nat;
    let d = ws[3] as nat;
    lemma_nat_to_bits_concat(a, b, 16, 16);
    lemma_nat_to_bits_concat(a * 0x10000 + b, c, 32, 16);
    lemma_nat_to_bits_concat((a * 0x10000 + b) * 0x10000 + c, d, 48, 16);
    lemma_words_bits_single(ws[0]);
    lemma_words_bits_single(ws[1]);
    lemma_words_bits_single(ws[2]);
    lemma_words_bits_single(ws[3]);
    lemma_words_bits_append(seq![ws[0]], seq![ws[1]]);
    lemma_words_bits_append(seq![ws[0]] + seq![ws[1]], seq![ws[2]]);
    lemma_words_bits_append(seq![ws[0]] + seq![ws[1]] + seq![ws[2]], seq![ws[3]]);
    assert(ws =~= seq![ws[0]] + seq![ws[1]] + seq![ws[2]] + seq![ws[3]]);
}

/// The coordinates' 128-bit interleaving (see `interleave_coordinates`) as a
/// high and a low 64-bit half. The arguments are the binary64 bit patterns of
/// `latitude / 90` and `longitude / 180`.
pub fn encode_uint128_parts_normalized_latitude(lat_unit_bits: u64, lon_unit_bits: u64) -> (r:
    Result<(u64, u64), GeohashError>)
    requires
        unit_conversion_defined(lat_unit_bits),
        in_unit_range(lat_unit_bits) ==> unit_conversion_defined(lon_unit_bits),
    ensures
        match r {
            Ok((high, low)) => match (unit_to_fixed(lat_unit_bits), unit_to_fixed(lon_unit_bits)) {
                (Some(lat), Some(lon)) => nat_to_bits(high as nat, 64) + nat_to_bits(low as nat, 64)
                    == encoded_bits(lat, lon),
                _ => false,
            },
            Err(e) => (unit_to_fixed(lat_unit_bits) is None || unit_to_fixed(lon_unit_bits) is None)
                && e == GeohashError::InvalidArgument,
        },
{
    let interleaved = match interleave_coordinates(lat_unit_bits, lon_unit_bits) {
        Ok(ws) => ws,
        Err(e) => return Err(e),
    };
    let high = ((interleaved[0] as u64) << 48u64) | ((interleaved[1] as u64) << 32u64) | ((
    interleaved[2] as u64) << 16u64) | (interleaved[3] as u64);
    let low = ((interleaved[4] as u64) << 48u64) | ((interleaved[5] as u64) << 32u64) | ((
    interleaved[6] as u64) << 16u64) | (interleaved[7] as u64);
    proof {
        let ws = interleaved@;
        lemma_u64_four_words(ws[0] as u64, ws[1] as u64, ws[2] as u64, ws[3] as u64);
        lemma_u64_four_words(ws[4] as u64, ws[5] as u64, ws[6] as u64, ws[7] as u64);
        lemma_four_words_bits(ws.subrange(0, 4), high as nat);
        lemma_four_words_bits(ws.subrange(4, 8), low as nat);
        assert(ws =~= ws.subrange(0, 4) + ws.subrange(4, 8));
        lemma_words_bits_append(ws.subrange(0, 4), ws.subrange(4, 8));
    }
    Ok((high, low))
}

/// The eight words that a list of parts stands for: two parts hold four
/// words each, four parts two each (their low 32 bits), eight parts one each
/// (their low 16 bits); most significant first.
pub open spec fn unpack_parts(parts: Seq<u64>) -> Seq<u16> {
    if parts.len() == 2 {
        Seq::new(
            8,
            |i: int| ((parts[i / 4] as nat / pow2((16 * (3 - i % 4)) as nat)) % 65536) as u16,
        )
    } else if parts.len() == 4 {
        Seq::new(
            8,
            |i: int| ((parts[i / 2] as nat / pow2((16 * (1 - i % 2)) as nat)) % 65536) as u16,
        )
    } else {
        Seq::new(8, |i: int| (parts[i] as nat % 65536) as u16)
    }
}

proof fn lemma_u64_word(x: u64, k: u64)
    requires
        k < 64,
    ensures
        ((x >> k) as u16) as nat == (x as nat / pow2(k as nat)) % 65536,
{
    lemma_u64_shr_is_div(x, k);
    lemma_u64_low_word(x >> k);
}

proof fn lemma_u64_low_word(x: u64)
    by (bit_vector)
    ensures
        (x as u16) == x % 65536,
        x >> 0u64 == x,
{
}

/// Decodes the 128-bit form of a cell, given as 2, 4 or 8 integer parts,
/// into fixed-point coordinates `(lat, lon)`.
pub fn decode_int_parts_fixed(parts: &[u64]) -> (r: Result<(u64, u64), GeohashError>)
    ensures
        match r {
            Ok((lat, lon)) => {
                &&& parts@.len() == 2 || parts@.len() == 4 || parts@.len() == 8
                &&& lat as nat == bits_to_nat(odds(words_bits(unpack_parts(parts@))))
                &&& lon as nat == bits_to_nat(evens(words_bits(unpack_parts(parts@))))
            },
            Err(e) => !(parts@.len() == 2 || parts@.len() == 4 || parts@.len() == 8) && e
                == GeohashError::InvalidArgument,
        },
{
    let mut interleaved = [0u16; 8];
    let ghost target = unpack_parts(parts@);
    proof {
        lemma2_to64();
    }
    match parts.len() {
        2 => {
            let high = parts[0];
            let low = parts[1];
            proof {
                lemma_u64_word(high, 48);
                lemma_u64_word(high, 32);
                lemma_u64_word(high, 16);
                lemma_u64_word(high, 0);
                lemma_u64_word(low, 48);
                lemma_u64_word(low, 32);
                lemma_u64_word(low, 16);
                lemma_u64_word(low, 0);
                lemma_u64_low_word(high);
                lemma_u64_low_word(low);
            }
            interleaved[0] = (high >> 48u64) as u16;
            interleaved[1] = (high >> 32u64) as u16;
            interleaved[2] = (high >> 16u64) as u16;
            interleaved[3] = high as u16;
            interleaved[4] = (low >> 48u64) as u16;
            interleaved[5] = (low >> 32u64) as u16;
            interleaved[6] = (low >> 16u64) as u16;
            interleaved[7] = low as u16;
            proof {
                assert(interleaved@ =~= target);
            }
        },
        4 => {
            for i in 0..4
                invariant
                    parts@.len() == 4,
                    target == unpack_parts(parts@),
                    interleaved@.len() == 8,
                    forall|j: int| 0 <= j < 2 * i ==> interleaved@[j] == target[j],
            {
                let value = parts[i];
                proof {
                    lemma_u64_word(value, 16);
                    lemma_u64_word(value, 0);
                    lemma_u64_low_word(value);
                    lemma2_to64();
                }
                interleaved[i * 2] = (value >> 16u64) as u16;
                interleaved[i * 2 + 1] = value as u16;
                proof {
                    assert(target[2 * i] == interleaved@[2 * i]);
                    assert(target[2 * i + 1] == interleaved@[2 * i + 1]);
                }
            }
            proof {
                assert(interleaved@ =~= target);
            }
        },
        8 => {
            for i in 0..8
                invariant
                    parts@.len() == 8,
                    target == unpack_parts(parts@),
                    interleaved@.len() == 8,
                    forall|j: int| 0 <= j < i ==> interleaved@[j] == target[j],
            {
                proof {
                    lemma_u64_low_word(parts@[i as int]);
                }
                interleaved[i] = parts[i] as u16;
            }
            proof {
                assert(interleaved@ =~= target);
            }
        },
        _ => {
            return Err(GeohashError::InvalidArgument);
        },
    }
    let mut lat64: u64 = 0;
    let mut lon64: u64 = 0;
    let ghost ws = interleaved@;
    proof {
        assert(ws.take(0) =~= Seq::<u16>::empty());
        assert(evens(words_bits(ws.take(0))) =~= Seq::<bool>::empty());
        assert(odds(words_bits(ws.take(0))) =~= Seq::<bool>::empty());
    }
    for i in 0..8
        invariant
            ws == interleaved@,
            ws.len() == 8,
            lon64 as nat == bits_to_nat(evens(words_bits(ws.take(i as int)))),
            lat64 as nat == bits_to_nat(odds(words_bits(ws.take(i as int)))),
    {
        let (upper, lower) = deinterleave(interleaved[i]);
        proof {
            lemma_halves_step(ws, i as int, upper, lower, lon64 as nat, lat64 as nat);
            lemma_u64_append_byte(lon64, upper, i as nat);
            lemma_u64_append_byte(lat64, lower, i as nat);
        }
        lon64 = (lon64 << 8u64) + upper as u64;
        lat64 = (lat64 << 8u64) + lower as u64;
    }
    proof {
        assert(ws.take(8) =~= ws);
    }
    Ok((lat64, lon64))
}

} // verus!
