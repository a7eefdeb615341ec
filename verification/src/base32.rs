//! The geohash base-32 alphabet `0123456789bcdefghjkmnpqrstuvwxyz`.
use vstd::prelude::*;

verus! {

/// The ASCII byte of digit `v` (`v < 32`) of the alphabet
/// `0123456789bcdefghjkmnpqrstuvwxyz`: the digits, then the lowercase
/// letters without `a`, `i`, `l` and `o`.
pub open spec fn base32_char(v: nat) -> u8 {
    if v < 10 {
        (48 + v) as u8  // '0'..'9'

    } else if v < 17 {
        (88 + v) as u8  // 'b'..'h'

    } else if v < 19 {
        (89 + v) as u8  // 'j', 'k'

    } else if v < 21 {
        (90 + v) as u8  // 'm', 'n'

    } else {
        (91 + v) as u8  // 'p'..'z'

    }
}

/// An ASCII uppercase letter turned lowercase; any other byte unchanged.
pub open spec fn ascii_lower(b: u8) -> u8 {
    if 65 <= b && b <= 90 {
        (b + 32) as u8
    } else {
        b
    }
}

/// The digit that a byte stands for: its position in the alphabet, letters
/// taken without regard to case; `None` for a byte outside the alphabet.
pub open spec fn base32_decode(b: u8) -> Option<u8> {
    let c = ascii_lower(b);
    if 48 <= c && c <= 57 {
        Some((c - 48) as u8)
    } else if 98 <= c && c <= 104 {
        Some((c - 88) as u8)
    } else if 106 <= c && c <= 107 {
        Some((c - 89) as u8)
    } else if 109 <= c && c <= 110 {
        Some((c - 90) as u8)
    } else if 112 <= c && c <= 122 {
        Some((c - 91) as u8)
    } else {
        None
    }
}

/// `base32_decode` finds a byte's digit in the alphabet, and only there.
pub proof fn lemma_base32_decode_alphabet(b: u8)
    ensures
        base32_decode(b) matches Some(v) ==> v < 32 && base32_char(v as nat) == ascii_lower(b),
        base32_decode(b) is None ==> forall|v: nat| v < 32 ==> base32_char(v) != ascii_lower(b),
{
}

/// Each character of the alphabet decodes to its own position.
pub proof fn lemma_base32_char_decode(v: nat)
    requires
        v < 32,
    ensures
        base32_decode(base32_char(v)) == Some(v as u8),
        ascii_lower(base32_char(v)) == base32_char(v),
        48 <= base32_char(v) <= 122,
{
}

/// The byte of digit `value` of the alphabet.
pub fn base32_digit(value: u8) -> (c: u8)
    requires
        value < 32,
    ensures
        c == base32_char(value as nat),
{
    if value < 10 {
        48 + value
    } else if value < 17 {
        88 + value
    } else if value < 19 {
        89 + value
    } else if value < 21 {
        90 + value
    } else {
        91 + value
    }
}

/// The digit of a geohash byte, or `None` if the byte is outside the
/// alphabet. Uppercase letters are accepted as their lowercase forms.
pub fn base32_value(byte: u8) -> (r: Option<u8>)
    ensures
        r == base32_decode(byte),
        r matches Some(v) ==> v < 32,
{
    let c = if 65 <= byte && byte <= 90 {
        byte + 32
    } else {
        byte
    };
    if 48 <= c && c <= 57 {
        Some(c - 48)
    } else if 98 <= c && c <= 104 {
        Some(c - 88)
    } else if 106 <= c && c <= 107 {
        Some(c - 89)
    } else if 109 <= c && c <= 110 {
        Some(c - 90)
    } else if 112 <= c && c <= 122 {
        Some(c - 91)
    } else {
        None
    }
}

/// Appends the alphabet character of the low five bits of `value`.
pub fn push_geohash_digit(output: &mut String, value: u16)
    ensures
        final(output)@ == old(output)@.push(base32_char((value % 32) as nat) as char),
{
    let v = (value & 0x1f) as u8;
    assert(value & 0x1f == value % 32) by (bit_vector);
    let c = base32_digit(v);
    output.push(c as char);
}

/// Lookup table from byte to digit: the digit for each byte of the alphabet
/// (either case for letters), `0xff` for every other byte below 128.
pub fn build_base32_decode_map() -> (map: [u8; 128])
    ensures
        forall|b: int|
            0 <= b < 128 ==> #[trigger] map@[b] == match base32_decode(b as u8) {
                Some(v) => v,
                None => 0xffu8,
            },
{
    let mut map = [0xffu8; 128];
    let mut i: usize = 0;
    while i < 128
        invariant
            i <= 128,
            forall|b: int|
                0 <= b < i ==> #[trigger] map@[b] == match base32_decode(b as u8) {
                    Some(v) => v,
                    None => 0xffu8,
                },
        decreases 128 - i,
    {
        let entry = match base32_value(i as u8) {
            Some(v) => v,
            None => 0xff,
        };
        map[i] = entry;
        i += 1;
    }
    map
}

} // verus!
