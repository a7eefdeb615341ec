//! Properties of the library as a whole, relating its functions' contracts.
use crate::base32::{ascii_lower, base32_char, base32_decode};
use crate::bits::{
    bits_to_nat,
    evens,
    interleave_bits,
    lemma_bits_to_nat_append,
    lemma_bits_to_nat_bound,
    lemma_bits_to_nat_of_nat_to_bits,
    lemma_interleave_of_parts,
    lemma_interleave_parts,
    lemma_nat_to_bits_concat,
    lemma_nat_to_bits_len,
    lemma_nat_to_bits_mod,
    lemma_nat_to_bits_of_bits_to_nat,
    lemma_nat_to_bits_small,
    lemma_nat_to_bits_split,
    lemma_nat_to_bits_subrange_value,
    lemma_nat_to_bits_zero,
    nat_to_bits,
    odds,
    pad_bits,
    zeros,
};
use crate::code::{
    digit_of,
    geohash_bytes,
    geohash_chars,
    hash_bits,
    lemma_geohash_of_hash_bits,
    lemma_hash_bits_len,
    lemma_hash_bits_of_geohash,
    lowercase_chars,
    valid_geohash,
};
use crate::codec::{code_stream, decoded_lat, decoded_lon, encoded_bits};
use crate::codec::unpack_parts;
use crate::error::GeohashError;
use crate::fixed::{
    double_value_scaled,
    floor_log2,
    lemma_floor_log2_bounds,
    fixed_to_double_bits,
    float_exponent,
    float_fraction,
    float_negative,
    in_unit_range,
    lemma_floor_log2_unique,
    scaled_magnitude,
    unit_to_fixed,
    MINUS_ONE_BITS,
};
use crate::neighbors::{
    cells_chars,
    neighbors_spec,
    cell_chars,
    lat_bits_of,
    lon_bits_of,
    neighbor_cells,
    neighbor_lon,
    neighbor_row,
    neighbor_rows,
};
use crate::stream::{
    bit_window,
    lemma_words_bits_append,
    lemma_words_bits_len,
    lemma_words_bits_single,
    or_window,
    words_bits,
};
use vstd::arithmetic::div_mod::*;
use vstd::arithmetic::mul::*;
use vstd::arithmetic::power2::*;
use vstd::prelude::*;
use vstd::string::{is_ascii, is_ascii_spec_bytes, StringSliceAdditionalSpecFns};

verus! {

/// A string whose characters are those of a code spelled by the library has
/// that code as its bytes.
pub proof fn lemma_spelled_str_bytes(code: &str, bits: Seq<bool>)
    requires
        code@ == geohash_chars(bits),
    ensures
        code.spec_bytes() == geohash_bytes(bits),
{
    let g = geohash_bytes(bits);
    assert forall|i: int| 0 <= i < code@.len() implies '\0' <= #[trigger] code@[i] <= '\u{7f}' by {
        let chunk = bits.subrange(5 * i, 5 * i + 5);
        lemma_bits_to_nat_bound(chunk);
        lemma2_to64();
        assert(code@[i] == g[i] as char);
    }
    assert(is_ascii(code));
    is_ascii_spec_bytes(code);
    assert(code.spec_bytes() =~= g);
}

/// Decoding the geohash of fixed-point coordinates gives the coordinates
/// back exactly: the 26-character code holds all 64 bits of each.
pub proof fn law_decode_of_encode(lat: nat, lon: nat, code: &str)
    requires
        lat < pow2(64),
        lon < pow2(64),
        code@ == geohash_chars(pad_bits(encoded_bits(lat, lon), 130)),
    ensures
        valid_geohash(code.spec_bytes()),
        decoded_lat(code.spec_bytes()) == lat,
        decoded_lon(code.spec_bytes()) == lon,
        code.spec_bytes().len() == 26,
        odds(hash_bits(code.spec_bytes())).len() == 65,
        evens(hash_bits(code.spec_bytes())).len() == 65,
{
    let e = encoded_bits(lat, lon);
    let s = pad_bits(e, 130);
    lemma_spelled_str_bytes(code, s);
    lemma_hash_bits_of_geohash(s);
    lemma_nat_to_bits_len(lon, 64);
    lemma_nat_to_bits_len(lat, 64);
    lemma_interleave_parts(nat_to_bits(lon, 64), nat_to_bits(lat, 64));
    assert(code_stream(code.spec_bytes()) =~= e);
    lemma_nat_to_bits_small(lat, 64);
    lemma_nat_to_bits_small(lon, 64);
}

/// Reading a code apart into its latitude and longitude parts and spelling
/// them again gives the code back, in lowercase.
pub proof fn law_cell_of_code(bytes: Seq<u8>)
    requires
        valid_geohash(bytes),
    ensures
        cell_chars(
            bits_to_nat(lat_bits_of(bytes)),
            bits_to_nat(lon_bits_of(bytes)),
            lat_bits_of(bytes).len(),
            lon_bits_of(bytes).len(),
        ) == lowercase_chars(bytes),
{
    let h = hash_bits(bytes);
    lemma_nat_to_bits_of_bits_to_nat(evens(h));
    lemma_nat_to_bits_of_bits_to_nat(odds(h));
    lemma_interleave_of_parts(h);
    lemma_geohash_of_hash_bits(bytes);
}

/// The bits of a 64-bit number are those of its four 16-bit words.
proof fn lemma_u64_words_bits(x: nat)
    ensures
        nat_to_bits(x, 64) == words_bits(
            seq![
                ((x / pow2(48)) % 65536) as u16,
                ((x / pow2(32)) % 65536) as u16,
                ((x / pow2(16)) % 65536) as u16,
                (x % 65536) as u16,
            ],
        ),
{
    let w0 = ((x / pow2(48)) % 65536) as u16;
    let w1 = ((x / pow2(32)) % 65536) as u16;
    let w2 = ((x / pow2(16)) % 65536) as u16;
    let w3 = (x % 65536) as u16;
    lemma2_to64();
    lemma_nat_to_bits_split(x, 16, 48);
    lemma_nat_to_bits_split(x, 16, 32);
    lemma_nat_to_bits_split(x, 16, 16);
    lemma_nat_to_bits_mod(x / pow2(48), 16);
    lemma_nat_to_bits_mod(x / pow2(32), 16);
    lemma_nat_to_bits_mod(x / pow2(16), 16);
    lemma_nat_to_bits_mod(x, 16);
    lemma_words_bits_single(w0);
    lemma_words_bits_single(w1);
    lemma_words_bits_single(w2);
    lemma_words_bits_single(w3);
    lemma_words_bits_append(seq![w2], seq![w3]);
    lemma_words_bits_append(seq![w1], seq![w2] + seq![w3]);
    lemma_words_bits_append(seq![w0], seq![w1] + (seq![w2] + seq![w3]));
    assert(seq![w0, w1, w2, w3] =~= seq![w0] + (seq![w1] + (seq![w2] + seq![w3])));
    assert(nat_to_bits(x, 64) =~= nat_to_bits(x / pow2(48), 16) + (nat_to_bits(x / pow2(32), 16)
        + (nat_to_bits(x / pow2(16), 16) + nat_to_bits(x, 16))));
}

/// The two-part 128-bit form of fixed-point coordinates decodes to them.
pub proof fn law_int_parts_roundtrip(lat: nat, lon: nat, high: u64, low: u64)
    requires
        lat < pow2(64),
        lon < pow2(64),
        nat_to_bits(high as nat, 64) + nat_to_bits(low as nat, 64) == encoded_bits(lat, lon),
    ensures
        bits_to_nat(odds(words_bits(unpack_parts(seq![high, low])))) == lat,
        bits_to_nat(evens(words_bits(unpack_parts(seq![high, low])))) == lon,
{
    let p = seq![high, low];
    let u = unpack_parts(p);
    lemma2_to64();
    lemma_u64_words_bits(high as nat);
    lemma_u64_words_bits(low as nat);
    let hs = seq![
        ((high as nat / pow2(48)) % 65536) as u16,
        ((high as nat / pow2(32)) % 65536) as u16,
        ((high as nat / pow2(16)) % 65536) as u16,
        (high as nat % 65536) as u16,
    ];
    let ls = seq![
        ((low as nat / pow2(48)) % 65536) as u16,
        ((low as nat / pow2(32)) % 65536) as u16,
        ((low as nat / pow2(16)) % 65536) as u16,
        (low as nat % 65536) as u16,
    ];
    assert(u[0] == hs[0] && u[1] == hs[1] && u[2] == hs[2]);
    assert(pow2(0) == 1);
    assert(high as nat / pow2(0) == high as nat);
    assert(low as nat / pow2(0) == low as nat);
    assert(u[3] == hs[3]);
    assert(u[4] == ls[0] && u[5] == ls[1] && u[6] == ls[2]);
    assert(u[7] == ls[3]);
    assert(u =~= hs + ls);
    lemma_words_bits_append(hs, ls);
    lemma_nat_to_bits_len(lon, 64);
    lemma_nat_to_bits_len(lat, 64);
    lemma_interleave_parts(nat_to_bits(lon, 64), nat_to_bits(lat, 64));
    lemma_nat_to_bits_small(lat, 64);
    lemma_nat_to_bits_small(lon, 64);
}

/// Reading back a stretch of the stream that was zero before a write gives
/// the bits that were written.
pub proof fn law_read_after_write(
    old: Seq<u16>,
    new: Seq<u16>,
    bit_index: nat,
    bit_count: nat,
    value: nat,
)
    requires
        new.len() == old.len(),
        bit_index + bit_count <= 16 * old.len(),
        forall|j: int| bit_index <= j < bit_index + bit_count ==> !(#[trigger] words_bits(old)[j]),
        words_bits(new) == or_window(
            words_bits(old),
            bit_index as int,
            nat_to_bits(value, bit_count),
        ),
    ensures
        bits_to_nat(bit_window(new, bit_index as int, bit_count)) == value % pow2(bit_count),
{
    lemma_words_bits_len(old);
    lemma_words_bits_len(new);
    lemma_nat_to_bits_len(value, bit_count);
    assert(bit_window(new, bit_index as int, bit_count) =~= nat_to_bits(value, bit_count));
    lemma_bits_to_nat_of_nat_to_bits(value, bit_count);
}

/// Spelling the stream that a valid code was read into gives the code back,
/// in lowercase.
pub proof fn law_stream_of_code(bytes: Seq<u8>, ws: Seq<u16>)
    requires
        valid_geohash(bytes),
        5 * bytes.len() <= 16 * ws.len(),
        words_bits(ws) == pad_bits(hash_bits(bytes), 16 * ws.len()),
    ensures
        geohash_chars(bit_window(ws, 0, 5 * bytes.len())) == lowercase_chars(bytes),
{
    lemma_hash_bits_len(bytes);
    lemma_words_bits_len(ws);
    assert(bit_window(ws, 0, 5 * bytes.len()) =~= hash_bits(bytes));
    lemma_geohash_of_hash_bits(bytes);
}

/// Taking apart an interleaved word gives back the two bytes.
pub proof fn law_deinterleave_of_interleave(upper: u8, lower: u8, w: u16, r0: u8, r1: u8)
    requires
        nat_to_bits(w as nat, 16) == interleave_bits(
            nat_to_bits(upper as nat, 8),
            nat_to_bits(lower as nat, 8),
        ),
        nat_to_bits(r0 as nat, 8) == evens(nat_to_bits(w as nat, 16)),
        nat_to_bits(r1 as nat, 8) == odds(nat_to_bits(w as nat, 16)),
    ensures
        r0 == upper,
        r1 == lower,
{
    lemma_nat_to_bits_len(upper as nat, 8);
    lemma_nat_to_bits_len(lower as nat, 8);
    lemma_interleave_parts(nat_to_bits(upper as nat, 8), nat_to_bits(lower as nat, 8));
    lemma2_to64();
    lemma_nat_to_bits_small(upper as nat, 8);
    lemma_nat_to_bits_small(lower as nat, 8);
    lemma_nat_to_bits_small(r0 as nat, 8);
    lemma_nat_to_bits_small(r1 as nat, 8);
}

/// The neighbors of a cell are cells of the grid, all different, none the
/// cell itself; there are eight, or five in the southernmost or northernmost
/// row.
pub proof fn law_neighbor_cells(lat: nat, lon: nat, lat_length: nat, lon_length: nat)
    requires
        lat < pow2(lat_length),
        lon < pow2(lon_length),
        lat_length >= 1,
        lon_length >= 2,
    ensures
        ({
            let cells = neighbor_cells(lat, lon, lat_length, lon_length);
            &&& cells.len() == if lat == 0 || lat + 1 == pow2(lat_length) {
                5nat
            } else {
                8nat
            }
            &&& forall|i: int|
                0 <= i < cells.len() ==> (#[trigger] cells[i]).0 < pow2(lat_length) && cells[i].1
                    < pow2(lon_length)
            &&& forall|i: int| 0 <= i < cells.len() ==> #[trigger] cells[i] != (lat, lon)
            &&& forall|i: int, j: int|
                0 <= i < j < cells.len() ==> #[trigger] cells[i] != #[trigger] cells[j]
        }),
{
    let size = pow2(lon_length);
    let west = neighbor_lon(lon, lon_length, 1);
    let east = neighbor_lon(lon, lon_length, 2);
    lemma_pow2_pos(lat_length);
    lemma2_to64();
    if lat_length > 1 {
        lemma_pow2_strictly_increases(1, lat_length);
    }
    if lon_length > 2 {
        lemma_pow2_strictly_increases(2, lon_length);
    }
    if lon >= 1 {
        lemma_fundamental_div_mod_converse((lon + size - 1) as int, size as int, 1, lon - 1);
    } else {
        lemma_fundamental_div_mod_converse((lon + size - 1) as int, size as int, 0, size - 1);
    }
    if lon + 1 < size {
        lemma_fundamental_div_mod_converse((lon + 1) as int, size as int, 0, (lon + 1) as int);
    } else {
        lemma_fundamental_div_mod_converse((lon + 1) as int, size as int, 1, 0);
    }
    assert(west != lon && east != lon && west != east);
    assert(west < size && east < size);
    let row0 = seq![(lat, west), (lat, east)];
    let south = seq![((lat - 1) as nat, lon), ((lat - 1) as nat, west), ((lat - 1) as nat, east)];
    let north = seq![(lat + 1, lon), (lat + 1, west), (lat + 1, east)];
    assert(neighbor_row(lat, lon, lat_length, lon_length, 0) =~= row0);
    if lat > 0 {
        assert(neighbor_row(lat, lon, lat_length, lon_length, 1) =~= south);
    } else {
        assert(neighbor_row(lat, lon, lat_length, lon_length, 1) =~= Seq::<(nat, nat)>::empty());
    }
    if lat + 1 < pow2(lat_length) {
        assert(neighbor_row(lat, lon, lat_length, lon_length, 2) =~= north);
    } else {
        assert(neighbor_row(lat, lon, lat_length, lon_length, 2) =~= Seq::<(nat, nat)>::empty());
    }
    assert(neighbor_rows(lat, lon, lat_length, lon_length, 0) =~= Seq::<(nat, nat)>::empty());
    let r0 = neighbor_row(lat, lon, lat_length, lon_length, 0);
    let r1 = neighbor_row(lat, lon, lat_length, lon_length, 1);
    let r2 = neighbor_row(lat, lon, lat_length, lon_length, 2);
    assert(neighbor_rows(lat, lon, lat_length, lon_length, 1) =~= r0);
    assert(neighbor_rows(lat, lon, lat_length, lon_length, 2) =~= r0 + r1);
    assert(neighbor_rows(lat, lon, lat_length, lon_length, 3) =~= r0 + r1 + r2);
    let cells = neighbor_cells(lat, lon, lat_length, lon_length);
    if lat > 0 && lat + 1 < pow2(lat_length) {
        assert(cells =~= row0 + south + north);
    } else if lat > 0 {
        assert(cells =~= row0 + south);
    } else {
        assert(cells =~= row0 + north);
    }
}

/// A binary64 is its sign, exponent and fraction fields.
proof fn lemma_float_fields(bits: u64)
    ensures
        bits as nat == (if float_negative(bits) {
            pow2(63)
        } else {
            0
        }) + float_exponent(bits) * pow2(52) + float_fraction(bits),
        float_exponent(bits) < 2048,
{
    let b = bits as nat;
    let q = b / pow2(52);
    lemma2_to64();
    lemma2_to64_rest();
    lemma_pow2_pos(52);
    lemma_pow2_adds(52, 11);
    lemma_fundamental_div_mod(b as int, pow2(52) as int);
    lemma_fundamental_div_mod(q as int, 2048);
    lemma_div_denominator(b as int, pow2(52) as int, 2048);
    lemma_mod_bound(q as int, 2048);
    vstd::arithmetic::mul::lemma_mul_is_distributive_add(pow2(52) as int, (2048 * (q / 2048)) as int, (q % 2048) as int);
    vstd::arithmetic::mul::lemma_mul_is_associative(pow2(52) as int, 2048, (q / 2048) as int);
    assert(b < pow2(64));
    lemma_pow2_adds(63, 1);
    assert(q / 2048 == b / pow2(63));
    if b >= pow2(63) {
        lemma_div_non_zero(b as int, pow2(63) as int);
        assert(b / pow2(63) < 2) by {
            lemma_div_strictly_bounded(b as int, pow2(63) as int, 2);
        }
    } else {
        lemma_basic_div(b as int, pow2(63) as int);
    }
    vstd::arithmetic::mul::lemma_mul_is_commutative(pow2(52) as int, (q % 2048) as int);
}

proof fn lemma_div_strictly_bounded(x: int, a: int, b: int)
    requires
        a > 0,
        b >= 0,
        x < a * b,
    ensures
        x / a < b,
{
    lemma_div_by_multiple(b, a);
    vstd::arithmetic::mul::lemma_mul_is_commutative(a, b);
    lemma_div_is_ordered(x, a * b - 1, a);
    lemma_div_by_multiple_is_strongly_ordered(x, a * b, b, a);
}

/// A binary64 in `[-1, 1)` whose value times `2^63` is a nonzero integer
/// comes back unchanged from fixed point: `i64_to_double_bits` undoes
/// `double_bits_to_i64` when the first loses nothing.
pub proof fn law_fixed_roundtrip(bits: u64)
    requires
        in_unit_range(bits),
        float_exponent(bits) >= 1,
        scaled_magnitude(bits) * pow2(1012) == (float_fraction(bits) + pow2(52)) * pow2(
            float_exponent(bits),
        ),
    ensures
        unit_to_fixed(bits) matches Some(v) && v < pow2(64) && fixed_to_double_bits(v as u64)
            == bits,
{
    let e = float_exponent(bits);
    let f = float_fraction(bits);
    let m = f + pow2(52);
    let d = scaled_magnitude(bits);
    lemma_float_fields(bits);
    lemma2_to64();
    lemma2_to64_rest();
    lemma_pow2_pos(52);
    lemma_pow2_pos(1012);
    lemma_pow2_pos(e);
    lemma_mod_bound(bits as int, pow2(52) as int);
    assert(pow2(52) <= m < pow2(53)) by {
        lemma_pow2_adds(52, 1);
    }
    // d = m * 2^(e - 1012), with e at most 1023
    assert(e <= 1023);
    let k = (e - 960) as nat;
    if e >= 1012 {
        let s = (e - 1012) as nat;
        lemma_pow2_adds(s, 1012);
        vstd::arithmetic::mul::lemma_mul_is_associative(m as int, pow2(s) as int, pow2(1012) as int);
        vstd::arithmetic::mul::lemma_mul_is_commutative(d as int, pow2(1012) as int);
        vstd::arithmetic::mul::lemma_mul_is_commutative((m * pow2(s)) as int, pow2(1012) as int);
        vstd::arithmetic::mul::lemma_mul_equality_converse(pow2(1012) as int, d as int, (m * pow2(s)) as int);
        assert(d == m * pow2(s));
        lemma_pow2_adds(52, s);
        lemma_pow2_adds(53, s);
        vstd::arithmetic::mul::lemma_mul_inequality(pow2(52) as int, m as int, pow2(s) as int);
        vstd::arithmetic::mul::lemma_mul_strict_inequality(m as int, pow2(53) as int, pow2(s) as int);
        assert(k == 52 + s);
        lemma_floor_log2_unique(d, k);
        // the 52 bits after the leading one are the fraction
        lemma_pow2_adds(52, k);
        assert(d * pow2(52) == m * pow2(k)) by {
            vstd::arithmetic::mul::lemma_mul_is_associative(m as int, pow2(s) as int, pow2(52) as int);
            vstd::arithmetic::mul::lemma_mul_is_commutative(pow2(s) as int, pow2(52) as int);
        }
        lemma_div_multiples_vanish(m as int, pow2(k) as int);
        vstd::arithmetic::mul::lemma_mul_is_commutative(m as int, pow2(k) as int);
    } else {
        let s = (1012 - e) as nat;
        lemma_pow2_adds(e, s);
        assert(pow2(1012) == pow2(e) * pow2(s));
        // m * 2^e = d * 2^e * 2^s, so m = d * 2^s
        vstd::arithmetic::mul::lemma_mul_is_associative(d as int, pow2(e) as int, pow2(s) as int);
        vstd::arithmetic::mul::lemma_mul_is_commutative(pow2(e) as int, pow2(s) as int);
        vstd::arithmetic::mul::lemma_mul_is_associative(d as int, pow2(s) as int, pow2(e) as int);
        vstd::arithmetic::mul::lemma_mul_equality_converse(pow2(e) as int, (d * pow2(s)) as int, m as int);
        vstd::arithmetic::mul::lemma_mul_is_commutative(pow2(e) as int, (d * pow2(s)) as int);
        vstd::arithmetic::mul::lemma_mul_is_commutative(pow2(e) as int, m as int);
        assert(m == d * pow2(s));
        assert(d >= 1) by {
            if d == 0 {
                vstd::arithmetic::mul::lemma_mul_basics(pow2(s) as int);
                assert(d * pow2(s) == 0);
            }
        }
        assert(s <= 52) by {
            if s > 52 {
                if s > 53 {
                    lemma_pow2_strictly_increases(53, s);
                }
                vstd::arithmetic::mul::lemma_mul_inequality(1, d as int, pow2(s) as int);
            }
        }
        assert(k + s == 52);
        lemma_pow2_adds(k, s);
        lemma_pow2_adds(k + 1, s);
        lemma_pow2_pos(s);
        if d < pow2(k) {
            vstd::arithmetic::mul::lemma_mul_strict_inequality(d as int, pow2(k) as int, pow2(s) as int);
        }
        if d >= pow2(k + 1) {
            vstd::arithmetic::mul::lemma_mul_inequality(pow2(k + 1) as int, d as int, pow2(s) as int);
        }
        lemma_floor_log2_unique(d, k);
        assert(d * pow2(52) == m * pow2(k)) by {
            vstd::arithmetic::mul::lemma_mul_is_associative(d as int, pow2(s) as int, pow2(k) as int);
            vstd::arithmetic::mul::lemma_mul_is_associative(d as int, pow2(k) as int, pow2(s) as int);
            vstd::arithmetic::mul::lemma_mul_is_commutative(pow2(k) as int, pow2(s) as int);
        }
        lemma_div_multiples_vanish(m as int, pow2(k) as int);
        vstd::arithmetic::mul::lemma_mul_is_commutative(m as int, pow2(k) as int);
    }
    assert((d * pow2(52)) / pow2(k) == m);
    lemma_mod_add_multiples_vanish(f as int, pow2(52) as int);
    lemma_small_mod(f, pow2(52));
    assert(m % pow2(52) == f);
    assert(d >= 1) by {
        lemma_pow2_pos(k);
    }
    assert(d <= pow2(63)) by {
        if k < 63 {
            lemma_pow2_strictly_increases(k + 1, 64);
            lemma_pow2_adds(k + 1, (63 - k - 1) as nat);
        }
        if e == 1023 {
            assert(bits == MINUS_ONE_BITS);
            assert(f == 0);
        } else {
            assert(k + 1 <= 63);
            if k + 1 < 63 {
                lemma_pow2_strictly_increases(k + 1, 63);
            }
        }
    }
    assert(e == 1023 ==> float_negative(bits)) by {
        if e == 1023 {
            assert(bits == MINUS_ONE_BITS);
        }
    }
}

/// A code of `n` characters holds `5n / 2` latitude bits and `(5n + 1) / 2`
/// longitude bits.
pub proof fn law_code_bit_counts(bytes: Seq<u8>)
    ensures
        lat_bits_of(bytes).len() == 5 * bytes.len() / 2,
        lon_bits_of(bytes).len() == (5 * bytes.len() + 1) / 2,
{
    lemma_hash_bits_len(bytes);
}

/// Reading back the code of a cell gives the cell's parts, reduced to their
/// bit counts.
pub proof fn law_code_of_cell(lat: nat, lon: nat, lat_length: nat, lon_length: nat)
    requires
        lon_length == lat_length || lon_length == lat_length + 1,
        (lat_length + lon_length) % 5 == 0,
    ensures
        ({
            let bytes = geohash_bytes(
                interleave_bits(nat_to_bits(lon, lon_length), nat_to_bits(lat, lat_length)),
            );
            &&& valid_geohash(bytes)
            &&& bits_to_nat(lat_bits_of(bytes)) == lat % pow2(lat_length)
            &&& bits_to_nat(lon_bits_of(bytes)) == lon % pow2(lon_length)
            &&& lat_bits_of(bytes).len() == lat_length
            &&& lon_bits_of(bytes).len() == lon_length
        }),
{
    let s = interleave_bits(nat_to_bits(lon, lon_length), nat_to_bits(lat, lat_length));
    lemma_nat_to_bits_len(lon, lon_length);
    lemma_nat_to_bits_len(lat, lat_length);
    lemma_interleave_parts(nat_to_bits(lon, lon_length), nat_to_bits(lat, lat_length));
    lemma_hash_bits_of_geohash(s);
    lemma_bits_to_nat_of_nat_to_bits(lat, lat_length);
    lemma_bits_to_nat_of_nat_to_bits(lon, lon_length);
}

/// West of east and east of west is the same column.
proof fn lemma_west_east(lon: nat, lon_length: nat)
    requires
        lon < pow2(lon_length),
        lon_length >= 1,
    ensures
        neighbor_lon(neighbor_lon(lon, lon_length, 2), lon_length, 1) == lon,
        neighbor_lon(neighbor_lon(lon, lon_length, 1), lon_length, 2) == lon,
        neighbor_lon(lon, lon_length, 1) < pow2(lon_length),
        neighbor_lon(lon, lon_length, 2) < pow2(lon_length),
{
    let size = pow2(lon_length);
    lemma2_to64();
    if lon_length > 1 {
        lemma_pow2_strictly_increases(1, lon_length);
    }
    let west = neighbor_lon(lon, lon_length, 1);
    let east = neighbor_lon(lon, lon_length, 2);
    if lon >= 1 {
        lemma_fundamental_div_mod_converse((lon + size - 1) as int, size as int, 1, lon - 1);
        lemma_fundamental_div_mod_converse((west + 1) as int, size as int, 0, lon as int);
    } else {
        lemma_fundamental_div_mod_converse((lon + size - 1) as int, size as int, 0, size - 1);
        lemma_fundamental_div_mod_converse((west + 1) as int, size as int, 1, 0);
    }
    if lon + 1 < size {
        lemma_fundamental_div_mod_converse((lon + 1) as int, size as int, 0, (lon + 1) as int);
        lemma_fundamental_div_mod_converse((east + size - 1) as int, size as int, 1, lon as int);
    } else {
        lemma_fundamental_div_mod_converse((lon + 1) as int, size as int, 1, 0);
        lemma_fundamental_div_mod_converse((east + size - 1) as int, size as int, 0, lon as int);
    }
}

/// The neighbors of a cell are exactly the other cells at most one row and
/// one column away, longitude wrapping around.
pub proof fn law_neighbor_cells_members(lat: nat, lon: nat, lat_length: nat, lon_length: nat)
    requires
        lat < pow2(lat_length),
        lon < pow2(lon_length),
        lat_length >= 1,
        lon_length >= 2,
    ensures
        forall|c: (nat, nat)|
            #![trigger neighbor_cells(lat, lon, lat_length, lon_length).contains(c)]
            neighbor_cells(lat, lon, lat_length, lon_length).contains(c) <==> {
                &&& c != (lat, lon)
                &&& (c.0 == lat || (lat > 0 && c.0 == lat - 1) || (lat + 1 < pow2(lat_length) && c.0
                    == lat + 1))
                &&& (c.1 == lon || c.1 == neighbor_lon(lon, lon_length, 1) || c.1 == neighbor_lon(
                    lon,
                    lon_length,
                    2,
                ))
            },
{
    law_neighbor_cells(lat, lon, lat_length, lon_length);
    let west = neighbor_lon(lon, lon_length, 1);
    let east = neighbor_lon(lon, lon_length, 2);
    let row0 = seq![(lat, west), (lat, east)];
    let south = seq![((lat - 1) as nat, lon), ((lat - 1) as nat, west), ((lat - 1) as nat, east)];
    let north = seq![(lat + 1, lon), (lat + 1, west), (lat + 1, east)];
    let r0 = neighbor_row(lat, lon, lat_length, lon_length, 0);
    let r1 = neighbor_row(lat, lon, lat_length, lon_length, 1);
    let r2 = neighbor_row(lat, lon, lat_length, lon_length, 2);
    assert(r0 =~= row0);
    if lat > 0 {
        assert(r1 =~= south);
    } else {
        assert(r1 =~= Seq::<(nat, nat)>::empty());
    }
    if lat + 1 < pow2(lat_length) {
        assert(r2 =~= north);
    } else {
        assert(r2 =~= Seq::<(nat, nat)>::empty());
    }
    assert(neighbor_rows(lat, lon, lat_length, lon_length, 0) =~= Seq::<(nat, nat)>::empty());
    assert(neighbor_rows(lat, lon, lat_length, lon_length, 1) =~= r0);
    assert(neighbor_rows(lat, lon, lat_length, lon_length, 2) =~= r0 + r1);
    let cells = neighbor_cells(lat, lon, lat_length, lon_length);
    assert(cells =~= r0 + r1 + r2);
    assert forall|c: (nat, nat)| #[trigger] cells.contains(c) <==> {
        &&& c != (lat, lon)
        &&& (c.0 == lat || (lat > 0 && c.0 == lat - 1) || (lat + 1 < pow2(lat_length) && c.0 == lat
            + 1))
        &&& (c.1 == lon || c.1 == west || c.1 == east)
    } by {
        if cells.contains(c) {
            let i = choose|i: int| 0 <= i < cells.len() && cells[i] == c;
            assert(cells[i] == c);
        } else {
            if c != (lat, lon) && (c.0 == lat || (lat > 0 && c.0 == lat - 1) || (lat + 1 < pow2(
                lat_length,
            ) && c.0 == lat + 1)) && (c.1 == lon || c.1 == west || c.1 == east) {
                if c.0 == lat {
                    if c.1 == west {
                        assert(cells[0] == c);
                    } else {
                        assert(cells[1] == c);
                    }
                } else if lat > 0 && c.0 == lat - 1 {
                    if c.1 == lon {
                        assert(cells[2] == c);
                    } else if c.1 == west {
                        assert(cells[3] == c);
                    } else {
                        assert(cells[4] == c);
                    }
                } else {
                    let b = (r0.len() + r1.len()) as int;
                    if c.1 == lon {
                        assert(cells[b] == c);
                    } else if c.1 == west {
                        assert(cells[b + 1] == c);
                    } else {
                        assert(cells[b + 2] == c);
                    }
                }
            }
        }
    }
}

/// Being neighbors is symmetric.
pub proof fn law_neighbor_symmetry(
    lat: nat,
    lon: nat,
    other: (nat, nat),
    lat_length: nat,
    lon_length: nat,
)
    requires
        lat < pow2(lat_length),
        lon < pow2(lon_length),
        lat_length >= 1,
        lon_length >= 2,
        neighbor_cells(lat, lon, lat_length, lon_length).contains(other),
    ensures
        other.0 < pow2(lat_length),
        other.1 < pow2(lon_length),
        neighbor_cells(other.0, other.1, lat_length, lon_length).contains((lat, lon)),
{
    law_neighbor_cells_members(lat, lon, lat_length, lon_length);
    lemma_west_east(lon, lon_length);
    assert(other.0 < pow2(lat_length));
    assert(other.1 < pow2(lon_length));
    law_neighbor_cells_members(other.0, other.1, lat_length, lon_length);
    lemma_west_east(other.1, lon_length);
    assert(neighbor_cells(other.0, other.1, lat_length, lon_length).contains((lat, lon)));
}

/// The 16-bit words of a 32-bit half of a number.
proof fn lemma_half_words(x: nat)
    ensures
        ((x / pow2(32)) / pow2(16)) % 65536 == (x / pow2(48)) % 65536,
        ((x / pow2(32)) / pow2(0)) % 65536 == (x / pow2(32)) % 65536,
        ((x % pow2(32)) / pow2(16)) % 65536 == (x / pow2(16)) % 65536,
        ((x % pow2(32)) / pow2(0)) % 65536 == x % 65536,
{
    lemma2_to64();
    lemma_pow2_adds(32, 16);
    lemma_pow2_adds(16, 16);
    lemma_div_denominator(x as int, pow2(32) as int, pow2(16) as int);
    lemma_mod_breakdown(x as int, 65536, 65536);
    lemma_mod_bound((x / 65536) as int, 65536);
    lemma_mod_bound(x as int, 65536);
    lemma_fundamental_div_mod_converse(
        (x % pow2(32)) as int,
        65536,
        ((x / 65536) % 65536) as int,
        (x % 65536) as int,
    );
    lemma_small_mod((x / 65536) % 65536, 65536);
    lemma_mod_mod(x as int, 65536, 65536);
}

proof fn lemma_four_form(high: u64, low: u64)
    ensures
        unpack_parts(
            seq![
                (high as nat / pow2(32)) as u64,
                (high as nat % pow2(32)) as u64,
                (low as nat / pow2(32)) as u64,
                (low as nat % pow2(32)) as u64,
            ],
        ) == unpack_parts(seq![high, low]),
{
    let h = high as nat;
    let l = low as nat;
    lemma2_to64();
    lemma2_to64_rest();
    lemma_pow2_pos(32);
    lemma_half_words(h);
    lemma_half_words(l);
    lemma_div_is_ordered_by_denominator(h as int, 1, pow2(32) as int);
    lemma_div_is_ordered_by_denominator(l as int, 1, pow2(32) as int);
    lemma_mod_bound(h as int, pow2(32) as int);
    lemma_mod_bound(l as int, pow2(32) as int);
    let parts = seq![
        (h / pow2(32)) as u64,
        (h % pow2(32)) as u64,
        (l / pow2(32)) as u64,
        (l % pow2(32)) as u64,
    ];
    assert(parts[0] as nat == h / pow2(32));
    assert(parts[1] as nat == h % pow2(32));
    assert(parts[2] as nat == l / pow2(32));
    assert(parts[3] as nat == l % pow2(32));
    let p2 = unpack_parts(seq![high, low]);
    let p4 = unpack_parts(parts);
    assert(p4 =~= p2);
}

proof fn lemma_eight_form(high: u64, low: u64)
    ensures
        unpack_parts(
            seq![
                ((high as nat / pow2(48)) % 65536) as u64,
                ((high as nat / pow2(32)) % 65536) as u64,
                ((high as nat / pow2(16)) % 65536) as u64,
                (high as nat % 65536) as u64,
                ((low as nat / pow2(48)) % 65536) as u64,
                ((low as nat / pow2(32)) % 65536) as u64,
                ((low as nat / pow2(16)) % 65536) as u64,
                (low as nat % 65536) as u64,
            ],
        ) == unpack_parts(seq![high, low]),
{
    let h = high as nat;
    let l = low as nat;
    lemma2_to64();
    let ws = seq![
        ((h / pow2(48)) % 65536) as u64,
        ((h / pow2(32)) % 65536) as u64,
        ((h / pow2(16)) % 65536) as u64,
        (h % 65536) as u64,
        ((l / pow2(48)) % 65536) as u64,
        ((l / pow2(32)) % 65536) as u64,
        ((l / pow2(16)) % 65536) as u64,
        (l % 65536) as u64,
    ];
    let p2 = unpack_parts(seq![high, low]);
    let p8 = unpack_parts(ws);
    assert(h / pow2(0) == h);
    assert(l / pow2(0) == l);
    assert(p8 =~= p2);
}

/// The two-, four- and eight-part forms of a 128-bit number stand for the
/// same words.
pub proof fn law_int_parts_forms(high: u64, low: u64)
    ensures
        unpack_parts(
            seq![
                (high as nat / pow2(32)) as u64,
                (high as nat % pow2(32)) as u64,
                (low as nat / pow2(32)) as u64,
                (low as nat % pow2(32)) as u64,
            ],
        ) == unpack_parts(seq![high, low]),
        unpack_parts(
            seq![
                ((high as nat / pow2(48)) % 65536) as u64,
                ((high as nat / pow2(32)) % 65536) as u64,
                ((high as nat / pow2(16)) % 65536) as u64,
                (high as nat % 65536) as u64,
                ((low as nat / pow2(48)) % 65536) as u64,
                ((low as nat / pow2(32)) % 65536) as u64,
                ((low as nat / pow2(16)) % 65536) as u64,
                (low as nat % 65536) as u64,
            ],
        ) == unpack_parts(seq![high, low]),
{
    lemma_four_form(high, low);
    lemma_eight_form(high, low);
}

/// A code and its lowercase form spell the same bits (letters of the alphabet
/// count in either case), so every function that reads a code answers both
/// alike; in particular they have the same neighbors.
pub proof fn law_code_ignores_case(bytes: Seq<u8>)
    ensures
        valid_geohash(bytes.map_values(|b: u8| ascii_lower(b))) == valid_geohash(bytes),
        hash_bits(bytes.map_values(|b: u8| ascii_lower(b))) == hash_bits(bytes),
        neighbors_spec(bytes.map_values(|b: u8| ascii_lower(b))) == neighbors_spec(bytes),
    decreases bytes.len(),
{
    let lower = bytes.map_values(|b: u8| ascii_lower(b));
    assert forall|i: int| 0 <= i < bytes.len() implies base32_decode(lower[i]) == base32_decode(
        bytes[i],
    ) by {
        assert(lower[i] == ascii_lower(bytes[i]));
    }
    if bytes.len() > 0 {
        let init = bytes.drop_last();
        law_code_ignores_case(init);
        assert(lower.drop_last() =~= init.map_values(|b: u8| ascii_lower(b)));
        assert(digit_of(lower.last()) == digit_of(bytes.last()));
    }
    assert(valid_geohash(lower) == valid_geohash(bytes));
}

/// The 26 characters of the geohash of fixed-point coordinates spell the 128
/// bits of their two-part integer form, followed by two zero bits: digit `k`
/// (`k < 25`) is bits `123 - 5k .. 128 - 5k` of `high * 2^64 + low`, and the
/// last digit is its lowest three bits times four.
pub proof fn law_code_digits_of_parts(
    lat: nat,
    lon: nat,
    high: u64,
    low: u64,
    code: Seq<char>,
)
    requires
        lat < pow2(64),
        lon < pow2(64),
        nat_to_bits(high as nat, 64) + nat_to_bits(low as nat, 64) == encoded_bits(lat, lon),
        code == geohash_chars(pad_bits(encoded_bits(lat, lon), 130)),
    ensures
        code.len() == 26,
        forall|k: int|
            0 <= k < 25 ==> #[trigger] code[k] == base32_char(
                ((high as nat * pow2(64) + low as nat) / pow2((123 - 5 * k) as nat)) % 32,
            ) as char,
        code[25] == base32_char(((high as nat * pow2(64) + low as nat) % 8) * 4) as char,
{
    let n = high as nat * pow2(64) + low as nat;
    let e = encoded_bits(lat, lon);
    let p = pad_bits(e, 130);
    lemma2_to64();
    lemma2_to64_rest();
    lemma_nat_to_bits_concat(high as nat, low as nat, 64, 64);
    lemma_nat_to_bits_len(n, 128);
    assert(e.len() == 128);
    assert forall|k: int| 0 <= k < 25 implies #[trigger] code[k] == base32_char(
        (n / pow2((123 - 5 * k) as nat)) % 32,
    ) as char by {
        assert(p.subrange(5 * k, 5 * k + 5) =~= e.subrange(5 * k, 5 * k + 5));
        lemma_nat_to_bits_subrange_value(n, 128, (5 * k) as nat, (5 * k + 5) as nat);
        assert((128 - (5 * k + 5)) as nat == (123 - 5 * k) as nat);
    }
    let tail = e.subrange(125, 128);
    assert(p.subrange(125, 130) =~= tail + seq![false, false]);
    lemma_nat_to_bits_subrange_value(n, 128, 125, 128);
    lemma_bits_to_nat_append(tail, seq![false, false]);
    assert(bits_to_nat(seq![false, false]) == 0) by {
        lemma_nat_to_bits_zero(2);
        lemma_nat_to_bits_small(0, 2);
        assert(seq![false, false] =~= zeros(2));
    }
    assert(n / pow2(0) == n);
}

/// Digit `k` of the code spelled from a stream is the alphabet character of
/// the five bits read at position `5k`.
pub proof fn law_spelled_digits(ws: Seq<u16>, precision: nat, k: int)
    requires
        0 <= k < precision,
    ensures
        geohash_chars(bit_window(ws, 0, 5 * precision)).len() == precision,
        bits_to_nat(bit_window(ws, 5 * k, 5)) < 32,
        geohash_chars(bit_window(ws, 0, 5 * precision))[k] == base32_char(
            bits_to_nat(bit_window(ws, 5 * k, 5)),
        ) as char,
{
    let w = bit_window(ws, 0, 5 * precision);
    assert(w.subrange(5 * k, 5 * k + 5) =~= bit_window(ws, 5 * k, 5));
    lemma_bits_to_nat_bound(bit_window(ws, 5 * k, 5));
    lemma2_to64();
    assert((5 * precision) / 5 == precision);
}

/// Being neighbors is symmetric on codes: a code found among the neighbors of
/// another has that other, in lowercase, among its own neighbors.
pub proof fn law_neighbor_codes_symmetric(code: Seq<u8>, other: Seq<u8>)
    requires
        match neighbors_spec(code) {
            Ok(list) => list.contains(other.map_values(|b: u8| b as char)),
            Err(_) => false,
        },
    ensures
        match neighbors_spec(other) {
            Ok(list) => list.contains(lowercase_chars(code)),
            Err(_) => false,
        },
{
    let lat_bits = lat_bits_of(code);
    let lon_bits = lon_bits_of(code);
    let la = bits_to_nat(lat_bits);
    let lo = bits_to_nat(lon_bits);
    let ll = lat_bits.len();
    let ol = lon_bits.len();
    law_code_bit_counts(code);
    assert(valid_geohash(code));
    let cells = neighbor_cells(la, lo, ll, ol);
    let list = cells_chars(cells, ll, ol);
    assert(!(ll == 0 && ol == 0));
    assert(ll < 128 && ol < 128);
    let g = other.map_values(|b: u8| b as char);
    assert(list.contains(g));
    let i = choose|i: int| 0 <= i < list.len() && list[i] == g;
    let c = cells[i];
    assert(cell_chars(c.0, c.1, ll, ol) == g);
    lemma_bits_to_nat_bound(lat_bits);
    lemma_bits_to_nat_bound(lon_bits);
    law_neighbor_symmetry(la, lo, c, ll, ol);
    // the other code is the code of the cell `c`
    let s = interleave_bits(nat_to_bits(c.1, ol), nat_to_bits(c.0, ll));
    let gb = geohash_bytes(s);
    assert(other =~= gb) by {
        assert(other.len() == gb.len());
        assert forall|j: int| 0 <= j < other.len() implies other[j] == gb[j] by {
            assert(g[j] == other[j] as char);
            assert(geohash_chars(s)[j] == gb[j] as char);
        }
    }
    law_code_of_cell(c.0, c.1, ll, ol);
    lemma_small_mod(c.0, pow2(ll));
    lemma_small_mod(c.1, pow2(ol));
    let cells2 = neighbor_cells(c.0, c.1, ll, ol);
    let j = choose|j: int| 0 <= j < cells2.len() && cells2[j] == (la, lo);
    law_cell_of_code(code);
    let list2 = cells_chars(cells2, ll, ol);
    assert(list2[j] == lowercase_chars(code));
    assert(neighbors_spec(other) == Ok::<Seq<Seq<char>>, GeohashError>(list2));
}

/// The significand that `fixed_to_double_bits` keeps of a distance `d` from
/// the midpoint, and the value that it stands for, `m * 2^k`: between
/// `2^(k + 52)` and `d * 2^52`.
proof fn lemma_kept_significand(d: nat)
    requires
        1 <= d <= pow2(63),
    ensures
        ({
            let k = floor_log2(d);
            let m = (d * pow2(52)) / pow2(k);
            &&& k <= 63
            &&& pow2(52) <= m < pow2(53)
            &&& m * pow2(k) <= d * pow2(52)
            &&& pow2(k) * pow2(52) <= m * pow2(k)
        }),
{
    let k = floor_log2(d);
    lemma_floor_log2_bounds(d);
    lemma_pow2_pos(k);
    lemma_pow2_pos(52);
    if k > 63 {
        lemma_pow2_strictly_increases(63, k);
    }
    let m = (d * pow2(52)) / pow2(k);
    lemma_pow2_adds(k, 1);
    lemma_pow2_adds(52, 1);
    lemma_mul_strict_inequality(d as int, pow2(k + 1) as int, pow2(52) as int);
    lemma2_to64();
    assert(pow2(k + 1) * pow2(52) == pow2(k) * pow2(53)) by (nonlinear_arith)
        requires
            pow2(k + 1) == pow2(k) * 2,
            pow2(53) == pow2(52) * 2,
    ;
    lemma_multiply_divide_lt((d * pow2(52)) as int, pow2(k) as int, pow2(53) as int);
    lemma_mul_inequality(pow2(k) as int, d as int, pow2(52) as int);
    lemma_div_is_ordered((pow2(k) * pow2(52)) as int, (d * pow2(52)) as int, pow2(k) as int);
    lemma_div_multiples_vanish(pow2(52) as int, pow2(k) as int);
    lemma_fundamental_div_mod((d * pow2(52)) as int, pow2(k) as int);
    lemma_mod_bound((d * pow2(52)) as int, pow2(k) as int);
    lemma_mul_is_commutative(m as int, pow2(k) as int);
    lemma_mul_inequality(pow2(52) as int, m as int, pow2(k) as int);
    lemma_mul_is_commutative(pow2(52) as int, pow2(k) as int);
}

/// The value kept of a distance does not decrease as the distance grows.
proof fn lemma_kept_value_monotone(d1: nat, d2: nat)
    requires
        1 <= d1 <= d2 <= pow2(63),
    ensures
        ((d1 * pow2(52)) / pow2(floor_log2(d1))) * pow2(floor_log2(d1)) <= ((d2 * pow2(52))
            / pow2(floor_log2(d2))) * pow2(floor_log2(d2)),
{
    let k1 = floor_log2(d1);
    let k2 = floor_log2(d2);
    lemma_kept_significand(d1);
    lemma_kept_significand(d2);
    lemma_floor_log2_bounds(d1);
    lemma_floor_log2_bounds(d2);
    if k1 > k2 {
        if k2 + 1 < k1 {
            lemma_pow2_strictly_increases(k2 + 1, k1);
        }
        assert(false);
    } else if k1 == k2 {
        lemma_pow2_pos(k1);
        lemma_mul_inequality(d1 as int, d2 as int, pow2(52) as int);
        lemma_div_is_ordered((d1 * pow2(52)) as int, (d2 * pow2(52)) as int, pow2(k1) as int);
        lemma_mul_inequality(
            ((d1 * pow2(52)) / pow2(k1)) as int,
            ((d2 * pow2(52)) / pow2(k1)) as int,
            pow2(k1) as int,
        );
    } else {
        if k1 + 1 < k2 {
            lemma_pow2_strictly_increases(k1 + 1, k2);
        }
        lemma_pow2_pos(52);
        lemma_mul_strict_inequality(d1 as int, pow2(k1 + 1) as int, pow2(52) as int);
        lemma_mul_inequality(pow2(k1 + 1) as int, pow2(k2) as int, pow2(52) as int);
    }
}

/// The value of the binary64 that `fixed_to_double_bits` gives, times
/// `2^1075`: the kept value of the distance from the midpoint, signed.
proof fn lemma_fixed_double_value(x: u64)
    ensures
        ({
            let d: nat = if (x as nat) < pow2(63) {
                (pow2(63) - x) as nat
            } else {
                (x - pow2(63)) as nat
            };
            let k = floor_log2(d);
            let v = ((d * pow2(52)) / pow2(k)) * pow2(k) * pow2(960);
            double_value_scaled(fixed_to_double_bits(x)) == if x as nat == pow2(63) {
                0
            } else if (x as nat) < pow2(63) {
                -v
            } else {
                v as int
            }
        }),
{
    lemma2_to64();
    lemma2_to64_rest();
    let bits = fixed_to_double_bits(x);
    if x as nat == pow2(63) {
        lemma_pow2_pos(52);
        lemma_pow2_pos(63);
        lemma_small_mod(0, pow2(52));
        assert(double_value_scaled(0) == 0) by {
            let e = (0nat / pow2(52)) % 2048;
            assert(0nat / pow2(52) == 0);
            assert(0nat / pow2(63) == 0);
            assert(e == 0);
            assert(0nat % pow2(52) == 0);
            assert(0nat * pow2(1) == 0);
        }
    } else {
        let negative = (x as nat) < pow2(63);
        let d: nat = if negative {
            (pow2(63) - x) as nat
        } else {
            (x - pow2(63)) as nat
        };
        let k = floor_log2(d);
        let m = (d * pow2(52)) / pow2(k);
        lemma_kept_significand(d);
        let e = 960 + k;
        let f = (m - pow2(52)) as nat;
        lemma_fundamental_div_mod_converse(m as int, pow2(52) as int, 1, f as int);
        assert(m % pow2(52) == f);
        let s: nat = if negative {
            2048
        } else {
            0
        };
        lemma_pow2_adds(11, 52);
        assert(bits == (s + e) * pow2(52) + f) by {
            lemma_mul_is_distributive_add(pow2(52) as int, s as int, e as int);
            lemma_mul_is_commutative(pow2(52) as int, (s + e) as int);
            lemma_mul_is_commutative(pow2(52) as int, s as int);
            lemma_mul_is_commutative(pow2(52) as int, e as int);
        }
        lemma_fundamental_div_mod_converse(bits as int, pow2(52) as int, (s + e) as int, f as int);
        lemma_fundamental_div_mod_converse(
            (s + e) as int,
            2048,
            if negative {
                1int
            } else {
                0int
            },
            e as int,
        );
        // the sign bit
        assert(bits / pow2(63) == if negative {
            1nat
        } else {
            0nat
        }) by {
            lemma_div_denominator(bits as int, pow2(52) as int, pow2(11) as int);
            lemma_mul_is_commutative(pow2(52) as int, pow2(11) as int);
        }
        lemma_pow2_adds(k, 960);
        lemma_mul_is_associative(m as int, pow2(k) as int, pow2(960) as int);
        assert(e == k + 960);
    }
}

/// Converting fixed point to binary64 keeps the order: a larger fixed-point
/// value never gives a smaller number.
pub proof fn law_fixed_to_double_monotone(x: u64, y: u64)
    requires
        x <= y,
    ensures
        double_value_scaled(fixed_to_double_bits(x)) <= double_value_scaled(fixed_to_double_bits(y)),
{
    lemma2_to64();
    lemma2_to64_rest();
    lemma_fixed_double_value(x);
    lemma_fixed_double_value(y);
    lemma_pow2_pos(960);
    let p = pow2(63);
    if (x as nat) < p && (y as nat) < p {
        let d1 = (p - y) as nat;
        let d2 = (p - x) as nat;
        lemma_kept_value_monotone(d1, d2);
        lemma_mul_inequality(
            (((d1 * pow2(52)) / pow2(floor_log2(d1))) * pow2(floor_log2(d1))) as int,
            (((d2 * pow2(52)) / pow2(floor_log2(d2))) * pow2(floor_log2(d2))) as int,
            pow2(960) as int,
        );
    } else if (x as nat) > p && (y as nat) > p {
        let d1 = (x - p) as nat;
        let d2 = (y - p) as nat;
        lemma_kept_value_monotone(d1, d2);
        lemma_mul_inequality(
            (((d1 * pow2(52)) / pow2(floor_log2(d1))) * pow2(floor_log2(d1))) as int,
            (((d2 * pow2(52)) / pow2(floor_log2(d2))) * pow2(floor_log2(d2))) as int,
            pow2(960) as int,
        );
    }
}

/// Two codes of the same length name cells at most one row and one column
/// apart (longitude wrapping around), and not the same cell.
pub open spec fn codes_adjacent(code: Seq<u8>, other: Seq<u8>) -> bool {
    let a = bits_to_nat(lat_bits_of(code));
    let b = bits_to_nat(lon_bits_of(code));
    let c = bits_to_nat(lat_bits_of(other));
    let d = bits_to_nat(lon_bits_of(other));
    let size = pow2(lon_bits_of(code).len());
    &&& other.len() == code.len()
    &&& (c, d) != (a, b)
    &&& (c == a || c + 1 == a || a + 1 == c)
    &&& (d == b || (d + 1) % size == b || (b + 1) % size == d)
}

/// The characters are the lowercase form of a valid code adjacent to `code`.
pub open spec fn is_adjacent_code(code: Seq<u8>, chars: Seq<char>) -> bool {
    exists|g: Seq<u8>| valid_geohash(g) && codes_adjacent(code, g) && chars == lowercase_chars(g)
}

/// The column west of `lon` is the one whose east neighbor is `lon`.
proof fn lemma_west_column(lon: nat, w: nat, lon_length: nat)
    requires
        lon < pow2(lon_length),
        w < pow2(lon_length),
        lon_length >= 1,
    ensures
        (w == neighbor_lon(lon, lon_length, 1)) <==> ((w + 1) % pow2(lon_length) == lon),
        neighbor_lon(lon, lon_length, 2) == (lon + 1) % pow2(lon_length),
{
    let size = pow2(lon_length);
    lemma2_to64();
    lemma_pow2_strictly_increases(0, lon_length);
    if lon >= 1 {
        lemma_fundamental_div_mod_converse((lon + size - 1) as int, size as int, 1, lon - 1);
    } else {
        lemma_fundamental_div_mod_converse((lon + size - 1) as int, size as int, 0, size - 1);
    }
    if w + 1 < size {
        lemma_fundamental_div_mod_converse((w + 1) as int, size as int, 0, (w + 1) as int);
    } else {
        lemma_fundamental_div_mod_converse((w + 1) as int, size as int, 1, 0);
    }
}

/// A nonempty code of at most 50 characters has as neighbors the lowercase
/// codes of exactly the cells next to it: eight, or five in the southernmost
/// or northernmost row.
pub proof fn law_neighbors_of_code(code: Seq<u8>)
    requires
        valid_geohash(code),
        1 <= code.len() <= 50,
    ensures
        match neighbors_spec(code) {
            Ok(list) => {
                let lat = bits_to_nat(lat_bits_of(code));
                &&& list.len() == if lat == 0 || lat + 1 == pow2(lat_bits_of(code).len()) {
                    5nat
                } else {
                    8nat
                }
                &&& forall|i: int| 0 <= i < list.len() ==> is_adjacent_code(code, #[trigger] list[i])
                &&& forall|g: Seq<u8>|
                    valid_geohash(g) && codes_adjacent(code, g) ==> list.contains(
                        #[trigger] lowercase_chars(g),
                    )
            },
            Err(_) => false,
        },
{
    let la = bits_to_nat(lat_bits_of(code));
    let lo = bits_to_nat(lon_bits_of(code));
    let ll = lat_bits_of(code).len();
    let ol = lon_bits_of(code).len();
    law_code_bit_counts(code);
    lemma_bits_to_nat_bound(lat_bits_of(code));
    lemma_bits_to_nat_bound(lon_bits_of(code));
    let cells = neighbor_cells(la, lo, ll, ol);
    let list = cells_chars(cells, ll, ol);
    assert(neighbors_spec(code) == Ok::<Seq<Seq<char>>, GeohashError>(list));
    law_neighbor_cells(la, lo, ll, ol);
    law_neighbor_cells_members(la, lo, ll, ol);
    assert forall|i: int| 0 <= i < list.len() implies is_adjacent_code(code, #[trigger] list[i]) by {
        let c = cells[i];
        assert(cells.contains(c));
        let bits = interleave_bits(nat_to_bits(c.1, ol), nat_to_bits(c.0, ll));
        let g = geohash_bytes(bits);
        law_code_of_cell(c.0, c.1, ll, ol);
        lemma_small_mod(c.0, pow2(ll));
        lemma_small_mod(c.1, pow2(ol));
        lemma_nat_to_bits_len(c.1, ol);
        lemma_nat_to_bits_len(c.0, ll);
        lemma_hash_bits_of_geohash(bits);
        lemma_geohash_of_hash_bits(g);
        law_code_bit_counts(g);
        lemma_west_column(lo, c.1, ol);
        assert(list[i] == lowercase_chars(g));
        assert(codes_adjacent(code, g));
    }
    assert forall|g: Seq<u8>| valid_geohash(g) && codes_adjacent(code, g) implies list.contains(
        #[trigger] lowercase_chars(g),
    ) by {
        let c = (bits_to_nat(lat_bits_of(g)), bits_to_nat(lon_bits_of(g)));
        law_code_bit_counts(g);
        lemma_bits_to_nat_bound(lat_bits_of(g));
        lemma_bits_to_nat_bound(lon_bits_of(g));
        lemma_west_column(lo, c.1, ol);
        assert(cells.contains(c));
        let j = choose|j: int| 0 <= j < cells.len() && cells[j] == c;
        law_cell_of_code(g);
        assert(list[j] == lowercase_chars(g));
    }
    assert(list.len() == cells.len());
    assert(list.len() == if la == 0 || la + 1 == pow2(ll) {
        5nat
    } else {
        8nat
    });
}

/// The value of the top `k` of 64 bits of `x`, the rest cleared.
proof fn lemma_top_bits_value(x: nat, k: nat)
    requires
        x < pow2(64),
        k <= 64,
    ensures
        bits_to_nat(nat_to_bits(x, 64).take(k as int) + zeros((64 - k) as nat)) == (x / pow2(
            (64 - k) as nat,
        )) * pow2((64 - k) as nat),
{
    let c = (64 - k) as nat;
    lemma_nat_to_bits_len(x, 64);
    lemma_nat_to_bits_subrange_value(x, 64, 0, k);
    assert(nat_to_bits(x, 64).take(k as int) =~= nat_to_bits(x, 64).subrange(0, k as int));
    lemma_bits_to_nat_append(nat_to_bits(x, 64).take(k as int), zeros(c));
    lemma_nat_to_bits_zero(c);
    lemma_pow2_pos(c);
    lemma_nat_to_bits_small(0, c);
    lemma_pow2_adds(k, c);
    lemma_pow2_pos(k);
    assert(x / pow2(c) < pow2(k)) by {
        lemma_mul_is_commutative(pow2(k) as int, pow2(c) as int);
        lemma_multiply_divide_lt(x as int, pow2(c) as int, pow2(k) as int);
    }
    lemma_small_mod(x / pow2(c), pow2(k));
    assert(zeros(c).len() == c);
}

/// The first `n` characters of the geohash of fixed-point coordinates
/// decode to the south-west corner of the cell of `5n / 2` latitude and
/// `(5n + 1) / 2` longitude bits (64 at most of each) that holds them: the
/// coordinates with their bits past those cleared.
pub proof fn law_decode_of_prefix(lat: nat, lon: nat, n: nat)
    requires
        lat < pow2(64),
        lon < pow2(64),
        n <= 26,
    ensures
        ({
            let code = geohash_bytes(pad_bits(encoded_bits(lat, lon), 130)).take(n as int);
            let lat_cut: nat = if 5 * n / 2 < 64 {
                (64 - 5 * n / 2) as nat
            } else {
                0
            };
            let lon_cut: nat = if (5 * n + 1) / 2 < 64 {
                (64 - (5 * n + 1) / 2) as nat
            } else {
                0
            };
            &&& valid_geohash(code)
            &&& code.len() == n
            &&& decoded_lat(code) == (lat / pow2(lat_cut)) * pow2(lat_cut)
            &&& decoded_lon(code) == (lon / pow2(lon_cut)) * pow2(lon_cut)
            &&& decoded_lat(code) <= lat < decoded_lat(code) + pow2(lat_cut)
            &&& decoded_lon(code) <= lon < decoded_lon(code) + pow2(lon_cut)
        }),
{
    let e = encoded_bits(lat, lon);
    let p = pad_bits(e, 130);
    let code = geohash_bytes(p).take(n as int);
    let lb: nat = if 5 * n / 2 < 64 {
        5 * n / 2
    } else {
        64
    };
    let ob: nat = if (5 * n + 1) / 2 < 64 {
        (5 * n + 1) / 2
    } else {
        64
    };
    let lat_cut = (64 - lb) as nat;
    let lon_cut = (64 - ob) as nat;
    lemma_nat_to_bits_len(lat, 64);
    lemma_nat_to_bits_len(lon, 64);
    let q = p.take(5 * n as int);
    assert(code =~= geohash_bytes(q)) by {
        assert forall|k: int| 0 <= k < n implies code[k] == geohash_bytes(q)[k] by {
            assert(q.subrange(5 * k, 5 * k + 5) =~= p.subrange(5 * k, 5 * k + 5));
        }
    }
    lemma_hash_bits_of_geohash(q);
    let st = code_stream(code);
    assert(odds(st) =~= nat_to_bits(lat, 64).take(lb as int) + zeros(lat_cut));
    assert(evens(st) =~= nat_to_bits(lon, 64).take(ob as int) + zeros(lon_cut));
    lemma_top_bits_value(lat, lb);
    lemma_top_bits_value(lon, ob);
    lemma_pow2_pos(lat_cut);
    lemma_pow2_pos(lon_cut);
    lemma_fundamental_div_mod(lat as int, pow2(lat_cut) as int);
    lemma_fundamental_div_mod(lon as int, pow2(lon_cut) as int);
    lemma_mod_bound(lat as int, pow2(lat_cut) as int);
    lemma_mod_bound(lon as int, pow2(lon_cut) as int);
    lemma_mul_is_commutative((lat / pow2(lat_cut)) as int, pow2(lat_cut) as int);
    lemma_mul_is_commutative((lon / pow2(lon_cut)) as int, pow2(lon_cut) as int);
}

/// Every valid code decodes to a point whose geohash starts with the code, in
/// lowercase, up to its 25th character (the decoded coordinates keep 64 bits
/// of each, 128 in all, and 25 characters spell 125 bits).
pub proof fn law_code_prefix_of_decoded(code: Seq<u8>)
    requires
        valid_geohash(code),
    ensures
        ({
            let n: int = if code.len() < 25 {
                code.len() as int
            } else {
                25
            };
            &&& decoded_lat(code) < pow2(64)
            &&& decoded_lon(code) < pow2(64)
            &&& geohash_bytes(
                pad_bits(encoded_bits(decoded_lat(code), decoded_lon(code)), 130),
            ).take(n) == code.map_values(|b: u8| ascii_lower(b)).take(n)
        }),
{
    let n: int = if code.len() < 25 {
        code.len() as int
    } else {
        25
    };
    let h = hash_bits(code);
    let st = code_stream(code);
    lemma_hash_bits_len(code);
    lemma_bits_to_nat_bound(odds(st));
    lemma_bits_to_nat_bound(evens(st));
    lemma_nat_to_bits_of_bits_to_nat(odds(st));
    lemma_nat_to_bits_of_bits_to_nat(evens(st));
    lemma_interleave_of_parts(st);
    let p = pad_bits(encoded_bits(decoded_lat(code), decoded_lon(code)), 130);
    assert(p =~= pad_bits(st, 130));
    lemma_geohash_of_hash_bits(code);
    let lower = code.map_values(|b: u8| ascii_lower(b));
    assert forall|k: int| 0 <= k < n implies geohash_bytes(p).take(n)[k] == lower.take(n)[k] by {
        assert(p.subrange(5 * k, 5 * k + 5) =~= h.subrange(5 * k, 5 * k + 5));
        assert(geohash_bytes(h)[k] == lower[k]);
    }
    assert(geohash_bytes(p).take(n) =~= lower.take(n));
}

/// The lowercase code of the cell `dlat` rows north and `dlon` columns east of
/// the cell of `code` (longitude wrapping around), of the same length.
pub open spec fn shifted_code(code: Seq<u8>, dlat: int, dlon: int) -> Seq<char> {
    let ll = lat_bits_of(code).len();
    let ol = lon_bits_of(code).len();
    let size = pow2(ol) as int;
    cell_chars(
        (bits_to_nat(lat_bits_of(code)) + dlat) as nat,
        ((bits_to_nat(lon_bits_of(code)) + dlon + size) % size) as nat,
        ll,
        ol,
    )
}

/// The neighbors of a nonempty code of at most 50 characters come in this
/// order: west, east; then, unless the cell is in the southernmost row,
/// south, south-west, south-east; then, unless it is in the northernmost row,
/// north, north-west, north-east.
pub proof fn law_neighbors_order(code: Seq<u8>)
    requires
        valid_geohash(code),
        1 <= code.len() <= 50,
    ensures
        ({
            let lat = bits_to_nat(lat_bits_of(code));
            let south = if lat > 0 {
                seq![
                    shifted_code(code, -1, 0),
                    shifted_code(code, -1, -1),
                    shifted_code(code, -1, 1),
                ]
            } else {
                Seq::empty()
            };
            let north = if lat + 1 < pow2(lat_bits_of(code).len()) {
                seq![
                    shifted_code(code, 1, 0),
                    shifted_code(code, 1, -1),
                    shifted_code(code, 1, 1),
                ]
            } else {
                Seq::empty()
            };
            neighbors_spec(code) == Ok::<Seq<Seq<char>>, GeohashError>(
                seq![shifted_code(code, 0, -1), shifted_code(code, 0, 1)] + south + north,
            )
        }),
{
    let la = bits_to_nat(lat_bits_of(code));
    let lo = bits_to_nat(lon_bits_of(code));
    let ll = lat_bits_of(code).len();
    let ol = lon_bits_of(code).len();
    let size = pow2(ol) as int;
    law_code_bit_counts(code);
    lemma_bits_to_nat_bound(lon_bits_of(code));
    lemma2_to64();
    lemma_pow2_strictly_increases(1, ol);
    let w = neighbor_lon(lo, ol, 1);
    let e = neighbor_lon(lo, ol, 2);
    assert(w == ((lo + -1 + size) % size) as nat);
    assert(e == ((lo + 1 + size) % size) as nat) by {
        lemma_mod_add_multiples_vanish((lo + 1) as int, size);
    }
    assert(lo == ((lo + 0 + size) % size) as nat) by {
        lemma_mod_add_multiples_vanish(lo as int, size);
        lemma_small_mod(lo, size as nat);
    }
    let cells = neighbor_cells(la, lo, ll, ol);
    let row0 = neighbor_row(la, lo, ll, ol, 0);
    let row1 = neighbor_row(la, lo, ll, ol, 1);
    let row2 = neighbor_row(la, lo, ll, ol, 2);
    assert(neighbor_rows(la, lo, ll, ol, 0) =~= Seq::<(nat, nat)>::empty());
    assert(cells == row0 + row1 + row2) by {
        assert(neighbor_rows(la, lo, ll, ol, 1) == neighbor_rows(la, lo, ll, ol, 0) + row0);
        assert(neighbor_rows(la, lo, ll, ol, 1) =~= row0);
        assert(neighbor_rows(la, lo, ll, ol, 2) == neighbor_rows(la, lo, ll, ol, 1) + row1);
        assert(cells == neighbor_rows(la, lo, ll, ol, 2) + row2);
    }
    assert(row0 =~= seq![(la, w), (la, e)]);
    if la > 0 {
        assert(row1 =~= seq![((la - 1) as nat, lo), ((la - 1) as nat, w), ((la - 1) as nat, e)]);
    } else {
        assert(row1 =~= Seq::<(nat, nat)>::empty());
    }
    if la + 1 < pow2(ll) {
        assert(row2 =~= seq![(la + 1, lo), (la + 1, w), (la + 1, e)]);
    } else {
        assert(row2 =~= Seq::<(nat, nat)>::empty());
    }
    let list = cells_chars(cells, ll, ol);
    assert(neighbors_spec(code) == Ok::<Seq<Seq<char>>, GeohashError>(list));
    let south = if la > 0 {
        seq![shifted_code(code, -1, 0), shifted_code(code, -1, -1), shifted_code(code, -1, 1)]
    } else {
        Seq::empty()
    };
    let north = if la + 1 < pow2(ll) {
        seq![shifted_code(code, 1, 0), shifted_code(code, 1, -1), shifted_code(code, 1, 1)]
    } else {
        Seq::empty()
    };
    assert(list =~= seq![shifted_code(code, 0, -1), shifted_code(code, 0, 1)] + south + north);
}

} // verus!
