//! Bit streams held in 16-bit words, most significant bit first, and the
//! conversions between such streams and geohash strings.
use crate::base32::{base32_char, base32_decode, base32_digit, base32_value, push_geohash_digit};
use crate::code::{
    geohash_chars,
    hash_bits,
    lemma_hash_bits_len,
    lemma_hash_bits_take,
    valid_geohash,
};
use crate::error::GeohashError;
use crate::bits::{
    bits_to_nat,
    lemma_bits_to_nat_append,
    lemma_bits_to_nat_bound,
    lemma_nat_to_bits_index,
    lemma_nat_to_bits_concat,
    lemma_nat_to_bits_len,
    lemma_nat_to_bits_mod,
    lemma_nat_to_bits_of_bits_to_nat,
    lemma_nat_to_bits_widen,
    lemma_nat_to_bits_small,
    lemma_nat_to_bits_subrange_value,
    lemma_nat_to_bits_zero,
    lemma_shift_in_mod,
    nat_to_bits,
    pad_bits,
    zeros,
};
use vstd::arithmetic::div_mod::*;
use vstd::arithmetic::mul::*;
use vstd::arithmetic::power2::*;
use vstd::bits::*;
use vstd::prelude::*;
use vstd::string::StringSliceAdditionalSpecFns;

verus! {

/// The bits of a sequence of words, sixteen per word, most significant first.
pub open spec fn words_bits(ws: Seq<u16>) -> Seq<bool>
    decreases ws.len(),
{
    if ws.len() == 0 {
        Seq::empty()
    } else {
        words_bits(ws.drop_last()) + nat_to_bits(ws.last() as nat, 16)
    }
}

/// `n` bits of the stream from position `start` on; positions past the last
/// word read as zero.
pub open spec fn bit_window(ws: Seq<u16>, start: int, n: nat) -> Seq<bool> {
    Seq::new(n, |i: int| start + i < 16 * ws.len() && words_bits(ws)[start + i])
}

/// Word `i` of the stream, zero past the last word.
pub open spec fn word_at(ws: Seq<u16>, i: int) -> u16 {
    if 0 <= i < ws.len() {
        ws[i]
    } else {
        0
    }
}

pub proof fn lemma_words_bits_len(ws: Seq<u16>)
    ensures
        words_bits(ws).len() == 16 * ws.len(),
    decreases ws.len(),
{
    if ws.len() > 0 {
        lemma_words_bits_len(ws.drop_last());
        lemma_nat_to_bits_len(ws.last() as nat, 16);
    }
}

/// Bit `j` of the stream is bit `j % 16` of word `j / 16`.
pub proof fn lemma_words_bits_index(ws: Seq<u16>, j: int)
    requires
        0 <= j < 16 * ws.len(),
    ensures
        words_bits(ws)[j] == nat_to_bits(ws[j / 16] as nat, 16)[j % 16],
    decreases ws.len(),
{
    let n = ws.len();
    lemma_words_bits_len(ws.drop_last());
    lemma_nat_to_bits_len(ws.last() as nat, 16);
    if j < 16 * (n - 1) {
        lemma_words_bits_index(ws.drop_last(), j);
    } else {
        assert(j / 16 == n - 1);
        assert(j % 16 == j - 16 * (n - 1));
    }
}

pub proof fn lemma_words_bits_append(a: Seq<u16>, b: Seq<u16>)
    ensures
        words_bits(a + b) == words_bits(a) + words_bits(b),
    decreases b.len(),
{
    if b.len() == 0 {
        assert(a + b =~= a);
        assert(words_bits(a) + words_bits(b) =~= words_bits(a));
    } else {
        assert((a + b).drop_last() =~= a + b.drop_last());
        lemma_words_bits_append(a, b.drop_last());
        assert(words_bits(a + b) =~= words_bits(a) + words_bits(b));
    }
}

pub proof fn lemma_words_bits_single(w: u16)
    ensures
        words_bits(seq![w]) == nat_to_bits(w as nat, 16),
{
    assert(seq![w].drop_last() =~= Seq::<u16>::empty());
    assert(words_bits(Seq::<u16>::empty()) == Seq::<bool>::empty());
    assert(words_bits(seq![w]) =~= Seq::<bool>::empty() + nat_to_bits(w as nat, 16));
}

/// The bits of the stream that lie in one word.
proof fn lemma_window_in_word(ws: Seq<u16>, wi: int, off: int, take: int)
    requires
        0 <= wi,
        0 <= off,
        0 <= take,
        off + take <= 16,
    ensures
        bit_window(ws, 16 * wi + off, take as nat) == nat_to_bits(word_at(ws, wi) as nat, 16).subrange(
            off,
            off + take,
        ),
{
    let w = word_at(ws, wi);
    lemma_words_bits_len(ws);
    lemma_nat_to_bits_len(w as nat, 16);
    lemma_nat_to_bits_zero(16);
    assert forall|i: int| 0 <= i < take implies #[trigger] bit_window(
        ws,
        16 * wi + off,
        take as nat,
    )[i] == nat_to_bits(w as nat, 16)[off + i] by {
        let j = 16 * wi + off + i;
        assert(j / 16 == wi);
        assert(j % 16 == off + i);
        if wi < ws.len() {
            lemma_words_bits_index(ws, j);
        }
    }
    assert(bit_window(ws, 16 * wi + off, take as nat) =~= nat_to_bits(w as nat, 16).subrange(
        off,
        off + take,
    ));
}

proof fn lemma_window_split(ws: Seq<u16>, start: int, n: nat, m: nat)
    ensures
        bit_window(ws, start, n + m) == bit_window(ws, start, n) + bit_window(ws, start + n, m),
{
    assert(bit_window(ws, start, n + m) =~= bit_window(ws, start, n) + bit_window(
        ws,
        start + n,
        m,
    ));
}

proof fn lemma_u32_to_u16(x: u32)
    by (bit_vector)
    ensures
        (x as u16) == x % 65536,
{
}

/// A mask of the low `bit_count` bits, as a 16-bit word.
pub fn bit_mask(bit_count: usize) -> (r: u16)
    requires
        bit_count < 32,
    ensures
        r as nat == (pow2(bit_count as nat) - 1) % 65536,
{
    proof {
        lemma_u32_pow2_no_overflow(bit_count as nat);
        lemma_u32_shl_is_mul(1, bit_count as u32);
        lemma_pow2_pos(bit_count as nat);
        lemma_u32_to_u16(((1u32 << (bit_count as u32)) - 1) as u32);
    }
    ((1u32 << (bit_count as u32)) - 1) as u16
}

proof fn lemma_u32_shift_in(o: u32, c: u32, t: u32)
    by (bit_vector)
    requires
        t < 32,
        c < (1u32 << t),
    ensures
        (o << t) | c == (o << t) + c,
        (o << t) == (o * (1u32 << t)) % 0x1_0000_0000,
{
}

proof fn lemma_u16_all(x: u16)
    by (bit_vector)
    ensures
        x & 0xffff == x,
{
}

/// `take` bits of a word from offset `off` (counted from the most significant
/// end), as computed by shifting and masking.
proof fn lemma_word_chunk(w: u16, off: nat, take: nat)
    requires
        1 <= take,
        off + take <= 16,
    ensures
        ((w >> ((16 - off - take) as u16)) & (((pow2(take) - 1) % 65536) as u16)) as nat
            == bits_to_nat(nat_to_bits(w as nat, 16).subrange(off as int, (off + take) as int)),
        bits_to_nat(nat_to_bits(w as nat, 16).subrange(off as int, (off + take) as int)) < pow2(
            take,
        ),
{
    let s = (16 - off - take) as nat;
    lemma_u16_shr_is_div(w, s as u16);
    lemma_nat_to_bits_subrange_value(w as nat, 16, off, off + take);
    lemma_pow2_pos(take);
    lemma_mod_bound((w as nat / pow2(s)) as int, pow2(take) as int);
    let x = w >> (s as u16);
    lemma2_to64();
    if take < 16 {
        lemma_u16_pow2_no_overflow(take);
        lemma_small_mod((pow2(take) - 1) as nat, 65536);
        lemma_u16_low_bits_mask_is_mod(x, take);
    } else {
        assert(take == 16 && s == 0);
        lemma_u16_all(x);
        lemma_small_mod(x as nat, 65536);
        assert(((pow2(16) - 1) % 65536) as u16 == 0xffff);
    }
}

/// Reads `bit_count` bits of the stream from `bit_index` on, as a number
/// (most significant bit first); positions past the last word read as zero,
/// and only the low 32 bits of the number are kept.
pub fn read_interleaved_bits(interleaved: &[u16], bit_index: usize, bit_count: usize) -> (r: u32)
    ensures
        r as nat == bits_to_nat(bit_window(interleaved@, bit_index as int, bit_count as nat))
            % pow2(32),
{
    let ghost ws = interleaved@;
    let mut output: u32 = 0;
    let mut remaining = bit_count;
    let mut word_index = bit_index / 16;
    let mut word_offset = bit_index % 16;
    proof {
        assert(bit_window(ws, bit_index as int, 0) =~= Seq::<bool>::empty());
        lemma_pow2_pos(32);
        lemma_small_mod(0, pow2(32));
    }
    while remaining > 0
        invariant
            ws == interleaved@,
            remaining <= bit_count,
            word_offset < 16,
            remaining > 0 ==> word_index * 16 + word_offset == bit_index + (bit_count
                - remaining),
            output as nat == bits_to_nat(
                bit_window(ws, bit_index as int, (bit_count - remaining) as nat),
            ) % pow2(32),
        decreases remaining,
    {
        let available = 16 - word_offset;
        let take = if remaining < available {
            remaining
        } else {
            available
        };
        let shift = available - take;
        let word = if word_index < interleaved.len() {
            interleaved[word_index]
        } else {
            0
        };
        let chunk = (word >> (shift as u16)) & bit_mask(take);
        proof {
            let c = (bit_count - remaining) as nat;
            let pos = bit_index + c;
            assert(word == word_at(ws, word_index as int));
            lemma_word_chunk(word, word_offset as nat, take as nat);
            lemma_window_in_word(ws, word_index as int, word_offset as int, take as int);
            lemma_window_split(ws, bit_index as int, c, take as nat);
            let prev = bit_window(ws, bit_index as int, c);
            let next = bit_window(ws, pos, take as nat);
            lemma_bits_to_nat_append(prev, next);
            lemma_shift_in_mod(bits_to_nat(prev), output as nat, take as nat, chunk as nat, 32);
            lemma_u32_pow2_no_overflow(take as nat);
            lemma_u32_shl_is_mul(1, take as u32);
            lemma_u32_shift_in(output, chunk as u32, take as u32);
            lemma2_to64();
        }
        output = (output << (take as u32)) | (chunk as u32);
        remaining -= take;
        word_index += 1;
        word_offset = 0;
    }
    output
}

/// `bits` with the bit string `src` OR-ed in from position `start` on.
pub open spec fn or_window(bits: Seq<bool>, start: int, src: Seq<bool>) -> Seq<bool> {
    Seq::new(
        bits.len(),
        |j: int| bits[j] || (start <= j < start + src.len() && src[j - start]),
    )
}

proof fn lemma_u16_or_bit(a: u16, b: u16, k: u16)
    by (bit_vector)
    requires
        k < 16,
    ensures
        (((a | b) >> k) & 1 == 1) == (((a >> k) & 1 == 1) || ((b >> k) & 1 == 1)),
{
}

proof fn lemma_u16_and1(x: u16)
    by (bit_vector)
    ensures
        x & 1 == x % 2,
{
}

/// Bit `15 - k` (from the most significant end) of a word, by shifting.
proof fn lemma_u16_bit(x: u16, k: u16)
    requires
        k < 16,
    ensures
        ((x >> k) & 1 == 1) == nat_to_bits(x as nat, 16)[15 - k],
{
    lemma_u16_shr_is_div(x, k);
    lemma_u16_and1(x >> k);
    lemma_nat_to_bits_index(x as nat, 16, 15 - k);
}

/// The bits of an OR of two words.
proof fn lemma_u16_or_bits(a: u16, b: u16)
    ensures
        nat_to_bits((a | b) as nat, 16) == Seq::new(
            16,
            |i: int| nat_to_bits(a as nat, 16)[i] || nat_to_bits(b as nat, 16)[i],
        ),
{
    lemma_nat_to_bits_len((a | b) as nat, 16);
    assert forall|i: int| 0 <= i < 16 implies #[trigger] nat_to_bits((a | b) as nat, 16)[i] == (
    nat_to_bits(a as nat, 16)[i] || nat_to_bits(b as nat, 16)[i]) by {
        let k = (15 - i) as u16;
        lemma_u16_or_bit(a, b, k);
        lemma_u16_bit(a | b, k);
        lemma_u16_bit(a, k);
        lemma_u16_bit(b, k);
    }
    assert(nat_to_bits((a | b) as nat, 16) =~= Seq::new(
        16,
        |i: int| nat_to_bits(a as nat, 16)[i] || nat_to_bits(b as nat, 16)[i],
    ));
}

/// OR-ing into one word ORs its bits into the stream.
proof fn lemma_word_or_update(ws: Seq<u16>, wi: int, y: u16, off: int, t: Seq<bool>)
    requires
        0 <= wi < ws.len(),
        0 <= off,
        off + t.len() <= 16,
        nat_to_bits(y as nat, 16) == zeros(off as nat) + t + zeros((16 - off - t.len()) as nat),
    ensures
        words_bits(ws.update(wi, ws[wi] | y)) == or_window(words_bits(ws), 16 * wi + off, t),
{
    let ws2 = ws.update(wi, ws[wi] | y);
    lemma_words_bits_len(ws);
    lemma_words_bits_len(ws2);
    lemma_u16_or_bits(ws[wi], y);
    let start = 16 * wi + off;
    assert forall|j: int| 0 <= j < 16 * ws.len() implies #[trigger] words_bits(ws2)[j] == or_window(
        words_bits(ws),
        start,
        t,
    )[j] by {
        lemma_words_bits_index(ws, j);
        lemma_words_bits_index(ws2, j);
        if j / 16 == wi {
            let i = j % 16;
            assert(nat_to_bits(y as nat, 16)[i] == (off <= i < off + t.len() && t[i - off]));
        }
    }
    assert(words_bits(ws2) =~= or_window(words_bits(ws), start, t));
}

proof fn lemma_or_window_extend(bits: Seq<bool>, start: int, src: Seq<bool>, c: int, take: int)
    requires
        0 <= c,
        0 <= take,
        c + take <= src.len(),
    ensures
        or_window(or_window(bits, start, src.take(c)), start + c, src.subrange(c, c + take))
            == or_window(bits, start, src.take(c + take)),
{
    assert(or_window(or_window(bits, start, src.take(c)), start + c, src.subrange(c, c + take))
        =~= or_window(bits, start, src.take(c + take)));
}

proof fn lemma_u32_shr_to_u16(x: u32)
    by (bit_vector)
    ensures
        (x as u16) == x % 65536,
{
}

/// ORs the low `bit_count` bits of `value` (most significant first) into the
/// stream from position `bit_index` on.
pub fn write_interleaved_bits(interleaved: &mut [u16], bit_index: usize, bit_count: usize, value: u32)
    requires
        bit_count + bit_index % 16 < 48,
        bit_count == 0 || bit_index + bit_count <= 16 * old(interleaved)@.len(),
    ensures
        final(interleaved)@.len() == old(interleaved)@.len(),
        words_bits(final(interleaved)@) == or_window(
            words_bits(old(interleaved)@),
            bit_index as int,
            nat_to_bits(value as nat, bit_count as nat),
        ),
{
    let ghost old_bits = words_bits(interleaved@);
    let ghost src = nat_to_bits(value as nat, bit_count as nat);
    proof {
        lemma_nat_to_bits_len(value as nat, bit_count as nat);
        lemma_words_bits_len(interleaved@);
        assert(or_window(old_bits, bit_index as int, src.take(0)) =~= old_bits);
    }
    let mut remaining = bit_count;
    let mut source_shift = bit_count;
    let mut word_index = bit_index / 16;
    let mut word_offset = bit_index % 16;
    while remaining > 0
        invariant
            interleaved@.len() == old(interleaved)@.len(),
            old_bits == words_bits(old(interleaved)@),
            src == nat_to_bits(value as nat, bit_count as nat),
            src.len() == bit_count,
            source_shift == remaining,
            remaining <= bit_count,
            word_offset < 16,
            remaining + word_offset < 48,
            bit_count == 0 || bit_index + bit_count <= 16 * interleaved@.len(),
            remaining > 0 ==> word_index * 16 + word_offset == bit_index + (bit_count
                - remaining),
            words_bits(interleaved@) == or_window(
                old_bits,
                bit_index as int,
                src.take((bit_count - remaining) as int),
            ),
        decreases remaining,
    {
        let available = 16 - word_offset;
        let take = if remaining < available {
            remaining
        } else {
            available
        };
        source_shift -= take;
        let bits = ((value >> (source_shift as u32)) as u16) & bit_mask(take);
        let ghost c = (bit_count - remaining) as int;
        let sh = available - take;
        proof {
            // the chunk of the source that this word receives
            lemma_u32_shr_is_div(value, source_shift as u32);
            lemma_u32_shr_to_u16(value >> (source_shift as u32));
            lemma2_to64();
            lemma_pow2_pos(take as nat);
            if take < 16 {
                lemma_u16_pow2_no_overflow(take as nat);
                lemma_small_mod((pow2(take as nat) - 1) as nat, 65536);
                lemma_u16_low_bits_mask_is_mod((value >> (source_shift as u32)) as u16, take as nat);
                lemma_pow2_strictly_increases(take as nat, 16);
                lemma_pow2_pos((16 - take) as nat);
                lemma_pow2_adds(take as nat, (16 - take) as nat);
                lemma_mod_mod(
                    (value as nat / pow2(source_shift as nat)) as int,
                    pow2(take as nat) as int,
                    pow2((16 - take) as nat) as int,
                );
            } else {
                lemma_u16_all((value >> (source_shift as u32)) as u16);
                assert(((pow2(16) - 1) % 65536) as u16 == 0xffff);
            }
            assert(bits as nat == (value as nat / pow2(source_shift as nat)) % pow2(take as nat));
            lemma_nat_to_bits_subrange_value(
                value as nat,
                bit_count as nat,
                c as nat,
                (c + take) as nat,
            );
            lemma_nat_to_bits_mod(value as nat / pow2(source_shift as nat), take as nat);
            let t = src.subrange(c, c + take);
            assert(nat_to_bits(bits as nat, take as nat) == t);
            // the chunk placed in the word
            lemma_mod_bound((value as nat / pow2(source_shift as nat)) as int, pow2(take as nat) as int);
            lemma_pow2_adds(take as nat, sh as nat);
            lemma_pow2_pos(sh as nat);
            lemma_pow2_strictly_increases((take + sh) as nat, 17);
            lemma_mul_strict_inequality(bits as int, pow2(take as nat) as int, pow2(sh as nat) as int);
            lemma_mul_is_commutative(bits as int, pow2(sh as nat) as int);
            if take + sh < 16 {
                lemma_pow2_strictly_increases((take + sh) as nat, 16);
            }
            lemma_u16_shl_is_mul(bits, sh as u16);
            lemma_nat_to_bits_concat(bits as nat, 0, take as nat, sh as nat);
            lemma_nat_to_bits_zero(sh as nat);
            lemma_nat_to_bits_widen((bits as nat) * pow2(sh as nat), 16, (take + sh) as nat);
            assert(nat_to_bits((bits << (sh as u16)) as nat, 16) == zeros(word_offset as nat) + t
                + zeros(sh as nat));
            assert(word_index < interleaved@.len());
            lemma_word_or_update(
                interleaved@,
                word_index as int,
                bits << (sh as u16),
                word_offset as int,
                t,
            );
            lemma_or_window_extend(old_bits, bit_index as int, src, c, take as int);
        }
        let cur = interleaved[word_index];
        interleaved[word_index] = cur | (bits << (sh as u16));
        remaining -= take;
        word_index += 1;
        word_offset = 0;
    }
    proof {
        assert(src.take(bit_count as int) =~= src);
    }
}

/// The digit that bits `5k .. 5k + 5` of the stream spell.
pub open spec fn stream_digit(ws: Seq<u16>, k: int) -> nat {
    bits_to_nat(bit_window(ws, 5 * k, 5))
}

proof fn lemma_geohash_chars_window(ws: Seq<u16>, n: nat, k: int)
    requires
        0 <= k < n,
    ensures
        geohash_chars(bit_window(ws, 0, 5 * n)).len() == n,
        geohash_chars(bit_window(ws, 0, 5 * n))[k] == base32_char(stream_digit(ws, k)) as char,
{
    assert(bit_window(ws, 0, 5 * n).subrange(5 * k, 5 * k + 5) =~= bit_window(ws, 5 * k, 5));
}

proof fn lemma_u32_low16(x: u32)
    by (bit_vector)
    ensures
        (x as u16) == x % 65536,
        x >> 0 == x,
{
}

/// Digit `q` of a 20-bit chunk read at position `20 c`.
proof fn lemma_chunk_digit(ws: Seq<u16>, c: int, value: u32, q: int)
    requires
        0 <= c,
        0 <= q < 4,
        value as nat == bits_to_nat(bit_window(ws, 20 * c, 20)),
    ensures
        (((value >> ((15 - 5 * q) as u32)) as u16) % 32) as nat == stream_digit(ws, 4 * c + q),
        q == 3 ==> (((value as u16) % 32) as nat == stream_digit(ws, 4 * c + q)),
{
    lemma_u32_low16(value);
    let w = bit_window(ws, 20 * c, 20);
    let k = (15 - 5 * q) as u32;
    lemma_nat_to_bits_of_bits_to_nat(w);
    lemma_nat_to_bits_subrange_value(value as nat, 20, (5 * q) as nat, (5 * q + 5) as nat);
    assert(w.subrange(5 * q, 5 * q + 5) =~= bit_window(ws, 5 * (4 * c + q), 5));
    lemma_u32_shr_is_div(value, k);
    lemma_u32_low16(value >> k);
    lemma2_to64();
    lemma_mod_mod((value >> k) as int, 32, 2048);
}

/// Spells the first `precision` digits of the stream (five bits each, most
/// significant first); positions past the last word read as zero.
pub fn interleaved_to_geohash(interleaved: &[u16], precision: usize) -> (output: String)
    requires
        precision <= usize::MAX / 5,
    ensures
        output@ == geohash_chars(bit_window(interleaved@, 0, 5 * precision as nat)),
{
    let ghost ws = interleaved@;
    let ghost target = geohash_chars(bit_window(ws, 0, 5 * precision as nat));
    let mut output = String::new();
    let full_chunks = precision / 4;
    proof {
        lemma2_to64();
    }
    for chunk in 0..full_chunks
        invariant
            ws == interleaved@,
            full_chunks == precision / 4,
            precision <= usize::MAX / 5,
            target == geohash_chars(bit_window(ws, 0, 5 * precision as nat)),
            output@ == target.take(4 * chunk),
    {
        let value = read_interleaved_bits(interleaved, chunk * 20, 20);
        proof {
            let w = bit_window(ws, 20 * chunk, 20);
            lemma_bits_to_nat_bound(w);
            lemma_pow2_strictly_increases(20, 32);
            lemma_small_mod(bits_to_nat(w), pow2(32));
            lemma_chunk_digit(ws, chunk as int, value, 0);
            lemma_chunk_digit(ws, chunk as int, value, 1);
            lemma_chunk_digit(ws, chunk as int, value, 2);
            lemma_chunk_digit(ws, chunk as int, value, 3);
            lemma_geohash_chars_window(ws, precision as nat, 4 * chunk);
            lemma_geohash_chars_window(ws, precision as nat, 4 * chunk + 1);
            lemma_geohash_chars_window(ws, precision as nat, 4 * chunk + 2);
            lemma_geohash_chars_window(ws, precision as nat, 4 * chunk + 3);
        }
        push_geohash_digit(&mut output, (value >> 15u32) as u16);
        push_geohash_digit(&mut output, (value >> 10u32) as u16);
        push_geohash_digit(&mut output, (value >> 5u32) as u16);
        push_geohash_digit(&mut output, value as u16);
        proof {
            assert(output@ =~= target.take(4 * chunk + 4));
        }
    }
    for digit in full_chunks * 4..precision
        invariant
            ws == interleaved@,
            precision <= usize::MAX / 5,
            target == geohash_chars(bit_window(ws, 0, 5 * precision as nat)),
            output@ == target.take(digit as int),
    {
        let value = read_interleaved_bits(interleaved, digit * 5, 5);
        proof {
            let w = bit_window(ws, 5 * digit, 5);
            lemma_bits_to_nat_bound(w);
            lemma2_to64();
            lemma_pow2_strictly_increases(5, 32);
            lemma_small_mod(bits_to_nat(w), pow2(32));
            lemma_geohash_chars_window(ws, precision as nat, digit as int);
        }
        let c = base32_digit(value as u8);
        output.push(c as char);
        proof {
            assert(output@ =~= target.take(digit + 1));
        }
    }
    proof {
        assert(target.len() == precision);
        assert(target.take(precision as int) =~= target);
    }
    output
}

proof fn lemma_words_bits_zero(ws: Seq<u16>)
    requires
        forall|i: int| 0 <= i < ws.len() ==> ws[i] == 0,
    ensures
        words_bits(ws) == zeros(16 * ws.len()),
{
    lemma_words_bits_len(ws);
    lemma_nat_to_bits_zero(16);
    assert forall|j: int| 0 <= j < 16 * ws.len() implies #[trigger] words_bits(ws)[j] == false by {
        lemma_words_bits_index(ws, j);
    }
    assert(words_bits(ws) =~= zeros(16 * ws.len()));
}

proof fn lemma_pad_or_extend(h: Seq<bool>, t: Seq<bool>, n: nat)
    requires
        h.len() + t.len() <= n,
    ensures
        or_window(pad_bits(h, n), h.len() as int, t) == pad_bits(h + t, n),
{
    assert(or_window(pad_bits(h, n), h.len() as int, t) =~= pad_bits(h + t, n));
}

proof fn lemma_u32_four_digits(a: u32, b: u32, c: u32, d: u32)
    by (bit_vector)
    requires
        a < 32,
        b < 32,
        c < 32,
        d < 32,
    ensures
        (a << 15) | (b << 10) | (c << 5) | d == ((a * 32 + b) * 32 + c) * 32 + d,
{
}

/// The bits of four digits, packed into one 20-bit number.
proof fn lemma_four_digits_bits(a: nat, b: nat, c: nat, d: nat)
    requires
        a < 32,
        b < 32,
        c < 32,
        d < 32,
    ensures
        nat_to_bits(((a * 32 + b) * 32 + c) * 32 + d, 20) == nat_to_bits(a, 5) + nat_to_bits(b, 5)
            + nat_to_bits(c, 5) + nat_to_bits(d, 5),
{
    lemma2_to64();
    lemma_nat_to_bits_concat(a, b, 5, 5);
    lemma_nat_to_bits_concat(a * 32 + b, c, 10, 5);
    lemma_nat_to_bits_concat((a * 32 + b) * 32 + c, d, 15, 5);
}

/// One more digit of a valid prefix.
proof fn lemma_extend_prefix(bytes: Seq<u8>, i: int, v: u8)
    requires
        0 <= i < bytes.len(),
        valid_geohash(bytes.take(i)),
        base32_decode(bytes[i]) == Some(v),
    ensures
        valid_geohash(bytes.take(i + 1)),
        hash_bits(bytes.take(i + 1)) == hash_bits(bytes.take(i)) + nat_to_bits(v as nat, 5),
{
    lemma_hash_bits_take(bytes, i);
    assert forall|k: int| 0 <= k < i + 1 implies (#[trigger] base32_decode(
        bytes.take(i + 1)[k],
    )) is Some by {
        if k < i {
            assert(bytes.take(i + 1)[k] == bytes.take(i)[k]);
        }
    }
}

/// Four more digits of a valid prefix, written into its zero-padded stream.
proof fn lemma_chunk_written(
    bs: Seq<u8>,
    s: int,
    d0: u8,
    d1: u8,
    d2: u8,
    d3: u8,
    value: u32,
    n: nat,
)
    requires
        0 <= s,
        s + 4 <= bs.len(),
        valid_geohash(bs.take(s)),
        base32_decode(bs[s]) == Some(d0),
        base32_decode(bs[s + 1]) == Some(d1),
        base32_decode(bs[s + 2]) == Some(d2),
        base32_decode(bs[s + 3]) == Some(d3),
        d0 < 32 && d1 < 32 && d2 < 32 && d3 < 32,
        value as nat == ((d0 * 32 + d1) * 32 + d2) * 32 + d3,
        5 * s + 20 <= n,
    ensures
        valid_geohash(bs.take(s + 4)),
        or_window(pad_bits(hash_bits(bs.take(s)), n), 5 * s, nat_to_bits(value as nat, 20))
            == pad_bits(hash_bits(bs.take(s + 4)), n),
{
    lemma_extend_prefix(bs, s, d0);
    lemma_extend_prefix(bs, s + 1, d1);
    lemma_extend_prefix(bs, s + 2, d2);
    lemma_extend_prefix(bs, s + 3, d3);
    lemma_four_digits_bits(d0 as nat, d1 as nat, d2 as nat, d3 as nat);
    lemma_hash_bits_len(bs.take(s));
    lemma_hash_bits_len(bs.take(s + 4));
    let t = nat_to_bits(d0 as nat, 5) + nat_to_bits(d1 as nat, 5) + nat_to_bits(d2 as nat, 5)
        + nat_to_bits(d3 as nat, 5);
    assert(hash_bits(bs.take(s + 4)) =~= hash_bits(bs.take(s)) + t);
    lemma_pad_or_extend(hash_bits(bs.take(s)), t, n);
}

/// The stream of a geohash: five bits per character, most significant first,
/// in `5 n / 16 + 1` words, the bits past the code zero.
pub fn geohash_to_interleaved(hashcode: &str) -> (r: Result<Vec<u16>, GeohashError>)
    requires
        hashcode.spec_bytes().len() * 5 <= usize::MAX,
    ensures
        match r {
            Ok(v) => {
                &&& valid_geohash(hashcode.spec_bytes())
                &&& v.len() == hashcode.spec_bytes().len() * 5 / 16 + 1
                &&& words_bits(v@) == pad_bits(hash_bits(hashcode.spec_bytes()), 16 * v.len() as nat)
            },
            Err(e) => !valid_geohash(hashcode.spec_bytes()) && e == GeohashError::InvalidCode,
        },
{
    let bytes = hashcode.as_bytes();
    let ghost bs = bytes@;
    let len = bytes.len() * 5 / 16 + 1;
    let mut interleaved = vec![0u16; len];
    let full_chunks = bytes.len() / 4;
    proof {
        lemma_words_bits_zero(interleaved@);
        assert(bs.take(0) =~= Seq::<u8>::empty());
        assert(pad_bits(hash_bits(bs.take(0)), 16 * len as nat) =~= zeros(16 * len as nat));
        lemma2_to64();
    }
    for chunk in 0..full_chunks
        invariant
            bs == bytes@,
            bs == hashcode.spec_bytes(),
            bs.len() * 5 <= usize::MAX,
            len == bs.len() * 5 / 16 + 1,
            full_chunks == bs.len() / 4,
            interleaved.len() == len,
            valid_geohash(bs.take(4 * chunk)),
            words_bits(interleaved@) == pad_bits(hash_bits(bs.take(4 * chunk)), 16 * len as nat),
    {
        let src = chunk * 4;
        let d0 = match base32_value(bytes[src]) {
            Some(v) => v,
            None => return Err(GeohashError::InvalidCode),
        };
        let d1 = match base32_value(bytes[src + 1]) {
            Some(v) => v,
            None => return Err(GeohashError::InvalidCode),
        };
        let d2 = match base32_value(bytes[src + 2]) {
            Some(v) => v,
            None => return Err(GeohashError::InvalidCode),
        };
        let d3 = match base32_value(bytes[src + 3]) {
            Some(v) => v,
            None => return Err(GeohashError::InvalidCode),
        };
        let value = ((d0 as u32) << 15) | ((d1 as u32) << 10) | ((d2 as u32) << 5) | (d3 as u32);
        proof {
            lemma_u32_four_digits(d0 as u32, d1 as u32, d2 as u32, d3 as u32);
            lemma_chunk_written(bs, src as int, d0, d1, d2, d3, value, 16 * len as nat);
        }
        write_interleaved_bits(interleaved.as_mut_slice(), chunk * 20, 20, value);
    }
    let tail = bytes.len() - full_chunks * 4;
    for offset in 0..tail
        invariant
            bs == bytes@,
            bs == hashcode.spec_bytes(),
            bs.len() * 5 <= usize::MAX,
            len == bs.len() * 5 / 16 + 1,
            full_chunks == bs.len() / 4,
            tail == bs.len() - full_chunks * 4,
            interleaved.len() == len,
            valid_geohash(bs.take(4 * full_chunks + offset)),
            words_bits(interleaved@) == pad_bits(
                hash_bits(bs.take(4 * full_chunks + offset)),
                16 * len as nat,
            ),
    {
        let char_index = full_chunks * 4 + offset;
        let value = match base32_value(bytes[char_index]) {
            Some(v) => v,
            None => return Err(GeohashError::InvalidCode),
        };
        proof {
            let s = char_index as int;
            lemma_extend_prefix(bs, s, value);
            lemma_hash_bits_len(bs.take(s));
            lemma_nat_to_bits_len(value as nat, 5);
            lemma_pad_or_extend(hash_bits(bs.take(s)), nat_to_bits(value as nat, 5), 16 * len as nat);
        }
        write_interleaved_bits(interleaved.as_mut_slice(), char_index * 5, 5, value as u32);
    }
    proof {
        assert(bs.take(bs.len() as int) =~= bs);
    }
    Ok(interleaved)
}

} // verus!
