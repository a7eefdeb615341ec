use geohash::base32::{base32_digit, base32_value, build_base32_decode_map, push_geohash_digit};
use geohash::fixed::MIDPOINT;
use geohash::interleave::{
    build_deinterleave_byte_map, build_interleave_map, deinterleave, deinterleave_byte, interleave,
    spread_byte,
};
use geohash::stream::{
    bit_mask, geohash_to_interleaved, interleaved_to_geohash, read_interleaved_bits,
    write_interleaved_bits,
};
use geohash::{
    decode_c2i, decode_fixed, decode_int_parts_fixed, double_bits_to_i64, encode_i2c,
    encode_normalized_latitude, encode_uint128_parts_normalized_latitude, i64_to_double_bits,
    interleave_coordinates, neighbors, unit_bits_supported, GeohashError, INT_UNIT,
};

fn unit(latitude: f64, longitude: f64) -> (u64, u64) {
    ((latitude / 90.0).to_bits(), (longitude / 180.0).to_bits())
}

#[test]
fn encode_tokyo_tower() {
    let (la, lo) = unit(35.658581, 139.745433);
    assert_eq!(
        encode_normalized_latitude(la, lo).unwrap(),
        "xn76ggrw29731uk987brps0000"
    );
}

#[test]
fn encode_origin() {
    let (la, lo) = unit(0.0, 0.0);
    assert_eq!(
        encode_normalized_latitude(la, lo).unwrap(),
        "s0000000000000000000000000"
    );
}

#[test]
fn encode_south_west_corner() {
    let (la, lo) = unit(-90.0, -180.0);
    assert_eq!(
        encode_normalized_latitude(la, lo).unwrap(),
        "00000000000000000000000000"
    );
}

#[test]
fn encode_north_pole_adjacent() {
    // nextafter(90.0, -inf)
    let lat = f64::from_bits(0x4056_7fff_ffff_ffff);
    let (la, lo) = unit(lat, 0.0);
    assert_eq!(
        encode_normalized_latitude(la, lo).unwrap(),
        "upbpbpbpbpbpbpbpbpbpbn0000"
    );
}

#[test]
fn encode_longitude_180_is_invalid() {
    let (la, lo) = unit(0.0, 180.0);
    assert_eq!(
        encode_normalized_latitude(la, lo),
        Err(GeohashError::InvalidArgument)
    );
}

#[test]
fn encode_nan_is_invalid() {
    let (la, lo) = unit(f64::NAN, 0.0);
    assert_eq!(
        encode_normalized_latitude(la, lo),
        Err(GeohashError::InvalidArgument)
    );
}

#[test]
fn decode_fixed_example() {
    assert_eq!(
        decode_fixed("xn76urx6k"),
        Ok((12880053041721507840, 16385177363815596032, 22, 23))
    );
}

#[test]
fn decode_fixed_uppercase() {
    assert_eq!(decode_fixed("XN76URX6K"), decode_fixed("xn76urx6k"));
}

#[test]
fn decode_fixed_empty() {
    assert_eq!(decode_fixed(""), Ok((0, 0, 0, 0)));
}

#[test]
fn decode_fixed_single_character() {
    assert_eq!(decode_fixed("s"), Ok((MIDPOINT, MIDPOINT, 2, 3)));
}

#[test]
fn decode_fixed_invalid_character() {
    assert_eq!(decode_fixed("xn7a"), Err(GeohashError::InvalidCode));
    assert_eq!(decode_fixed("é"), Err(GeohashError::InvalidCode));
}

#[test]
fn decode_of_encode_is_exact() {
    let (la, lo) = unit(35.658581, 139.745433);
    let code = encode_normalized_latitude(la, lo).unwrap();
    let lat64 = double_bits_to_i64(la).unwrap();
    let lon64 = double_bits_to_i64(lo).unwrap();
    assert_eq!(lat64, 12877731579847231488);
    assert_eq!(lon64, 16384061586912345088);
    assert_eq!(decode_fixed(&code), Ok((lat64, lon64, 65, 65)));
}

#[test]
fn neighbors_of_a_cell() {
    assert_eq!(
        neighbors("xn76urx6k").unwrap(),
        vec![
            "xn76urx67",
            "xn76urx6m",
            "xn76urx6h",
            "xn76urx65",
            "xn76urx6j",
            "xn76urx6s",
            "xn76urx6e",
            "xn76urx6t"
        ]
    );
}

#[test]
fn neighbors_uppercase_gives_lowercase() {
    assert_eq!(neighbors("XN76URX6K"), neighbors("xn76urx6k"));
}

#[test]
fn neighbors_single_character() {
    assert_eq!(
        neighbors("s").unwrap(),
        vec!["e", "t", "k", "7", "m", "u", "g", "v"]
    );
}

#[test]
fn neighbors_at_the_south_pole() {
    assert_eq!(neighbors("0").unwrap(), vec!["p", "1", "2", "r", "3"]);
}

#[test]
fn neighbors_at_the_north_pole() {
    assert_eq!(neighbors("z").unwrap(), vec!["y", "b", "x", "w", "8"]);
}

#[test]
fn neighbors_of_empty_code() {
    assert_eq!(neighbors(""), Ok(Vec::<String>::new()));
}

#[test]
fn neighbors_invalid_character() {
    assert_eq!(neighbors("a"), Err(GeohashError::InvalidCode));
}

#[test]
fn neighbors_too_long() {
    let long = "0".repeat(51);
    assert_eq!(neighbors(&long), Err(GeohashError::InvalidArgument));
    let longest = "0".repeat(50);
    let list = neighbors(&longest).unwrap();
    assert_eq!(list.len(), 5);
    assert_eq!(
        list[0],
        "pbpbpbpbpbpbpbpbpbpbpbpbpbpbpbpbpbpbpbpbpbpbpbpbpb"
    );
    assert_eq!(
        list[1],
        "00000000000000000000000000000000000000000000000002"
    );
}

#[test]
fn neighbors_are_distinct_and_exclude_the_cell() {
    for code in ["xn76urx6k", "s", "0", "z", "ezs42", "u4pruydqqvj"] {
        let list = neighbors(code).unwrap();
        assert!(list.len() == 8 || list.len() == 5);
        for (i, a) in list.iter().enumerate() {
            assert_eq!(a.len(), code.len());
            assert_ne!(a, code);
            for b in list.iter().skip(i + 1) {
                assert_ne!(a, b);
            }
        }
    }
}

#[test]
fn neighbors_of_longer_codes() {
    assert_eq!(
        neighbors("ezs42").unwrap(),
        vec!["ezefr", "ezs43", "ezs40", "ezefp", "ezs41", "ezs48", "ezefx", "ezs49"]
    );
    assert_eq!(
        neighbors("u4pruydqqvj").unwrap(),
        vec![
            "u4pruydqqvh",
            "u4pruydqqvn",
            "u4pruydqquv",
            "u4pruydqquu",
            "u4pruydqquy",
            "u4pruydqqvm",
            "u4pruydqqvk",
            "u4pruydqqvq"
        ]
    );
}

#[test]
fn decode_c2i_and_encode_i2c_roundtrip() {
    for code in ["xn76urx6k", "s", "ezs42", "u4pruydqqvj", "EZS42"] {
        let (lat, lon, lat_length, lon_length) = decode_c2i(code).unwrap();
        assert_eq!(lat_length, code.len() * 5 / 2);
        assert_eq!(lon_length, (code.len() * 5 + 1) / 2);
        assert_eq!(
            encode_i2c(lat, lon, lat_length, lon_length),
            code.to_lowercase()
        );
    }
}

#[test]
fn neighbors_are_symmetric() {
    for code in ["xn76urx6k", "s", "0", "z", "ezs42"] {
        for other in neighbors(code).unwrap() {
            assert!(neighbors(&other).unwrap().iter().any(|n| n == code));
        }
    }
}

#[test]
fn encode_i2c_then_decode_c2i_reduces_parts() {
    // a 5-bit latitude and 5-bit longitude part make two characters
    let code = encode_i2c(0b1_01101, 0b11_10010, 5, 5);
    assert_eq!(code.len(), 2);
    assert_eq!(decode_c2i(&code), Ok((0b01101, 0b10010, 5, 5)));
}

#[test]
fn decode_c2i_values() {
    assert_eq!(decode_c2i("s"), Ok((2, 4, 2, 3)));
    assert_eq!(decode_c2i(""), Ok((0, 0, 0, 0)));
    assert_eq!(decode_c2i("o"), Err(GeohashError::InvalidCode));
}

#[test]
fn encode_i2c_swaps_roles_with_lengths() {
    // two latitude bits, three longitude bits: one character
    assert_eq!(encode_i2c(2, 4, 2, 3), "s");
    // equal lengths: two characters from five bits each
    assert_eq!(encode_i2c(0, 0, 5, 5), "00");
}

#[test]
fn int_parts_of_tokyo_tower() {
    let (la, lo) = unit(35.658581, 139.745433);
    assert_eq!(
        encode_uint128_parts_normalized_latitude(la, lo),
        Ok((0xed0e_67be_fc12_4e30, 0xea49_41d5_7ae0_0000))
    );
}

#[test]
fn int_parts_roundtrip() {
    let (la, lo) = unit(35.658581, 139.745433);
    let (high, low) = encode_uint128_parts_normalized_latitude(la, lo).unwrap();
    let expected = (12877731579847231488, 16384061586912345088);
    assert_eq!(decode_int_parts_fixed(&[high, low]), Ok(expected));
    let four = [high >> 32, high & 0xffff_ffff, low >> 32, low & 0xffff_ffff];
    assert_eq!(decode_int_parts_fixed(&four), Ok(expected));
    let eight = [
        high >> 48,
        (high >> 32) & 0xffff,
        (high >> 16) & 0xffff,
        high & 0xffff,
        low >> 48,
        (low >> 32) & 0xffff,
        (low >> 16) & 0xffff,
        low & 0xffff,
    ];
    assert_eq!(decode_int_parts_fixed(&eight), Ok(expected));
}

#[test]
fn int_parts_ignore_high_bits_of_short_parts() {
    let eight = [0x1_0000u64, 0, 0, 0, 0, 0, 0, 0];
    assert_eq!(decode_int_parts_fixed(&eight), Ok((0, 0)));
}

#[test]
fn int_parts_wrong_count() {
    assert_eq!(
        decode_int_parts_fixed(&[1, 2, 3]),
        Err(GeohashError::InvalidArgument)
    );
    assert_eq!(decode_int_parts_fixed(&[]), Err(GeohashError::InvalidArgument));
}

#[test]
fn int_parts_invalid_coordinates() {
    let (la, lo) = unit(0.0, 180.0);
    assert_eq!(
        encode_uint128_parts_normalized_latitude(la, lo),
        Err(GeohashError::InvalidArgument)
    );
}

#[test]
fn interleave_coordinates_words() {
    let (la, lo) = unit(0.0, 0.0);
    assert_eq!(
        interleave_coordinates(la, lo),
        Ok([0xc000, 0, 0, 0, 0, 0, 0, 0])
    );
    let (la, lo) = unit(f64::INFINITY, 0.0);
    assert_eq!(interleave_coordinates(la, lo), Err(GeohashError::InvalidArgument));
}

#[test]
fn double_to_fixed_values() {
    assert_eq!(double_bits_to_i64(0.0f64.to_bits()), Some(MIDPOINT));
    assert_eq!(double_bits_to_i64((-0.0f64).to_bits()), Some(MIDPOINT));
    assert_eq!(double_bits_to_i64(0.5f64.to_bits()), Some(0xc000_0000_0000_0000));
    assert_eq!(double_bits_to_i64((-0.5f64).to_bits()), Some(0x4000_0000_0000_0000));
    assert_eq!(double_bits_to_i64((-1.0f64).to_bits()), Some(0));
    assert_eq!(double_bits_to_i64(1.0f64.to_bits()), None);
    assert_eq!(double_bits_to_i64((-1.5f64).to_bits()), None);
    assert_eq!(double_bits_to_i64(f64::NAN.to_bits()), None);
    assert_eq!(double_bits_to_i64(f64::NEG_INFINITY.to_bits()), None);
    // a subnormal value is below the resolution
    assert_eq!(double_bits_to_i64(f64::from_bits(1).to_bits()), Some(MIDPOINT));
    // the largest value below 1 keeps 53 bits of precision
    assert_eq!(
        double_bits_to_i64((1.0f64 - f64::EPSILON / 2.0).to_bits()),
        Some(0xffff_ffff_ffff_fc00)
    );
}

#[test]
fn tiny_values_are_unsupported() {
    assert!(!unit_bits_supported((1e-30f64 / 90.0).to_bits()));
    assert!(unit_bits_supported(0.0f64.to_bits()));
    assert!(unit_bits_supported(0.25f64.to_bits()));
    assert!(unit_bits_supported(2.0f64.to_bits()));
    assert!(unit_bits_supported(f64::from_bits(1).to_bits()));
    assert!(unit_bits_supported(2f64.powi(-74).to_bits()));
    assert!(!unit_bits_supported(2f64.powi(-75).to_bits()));
}

#[test]
fn fixed_to_double_values() {
    assert_eq!(i64_to_double_bits(MIDPOINT), 0);
    assert_eq!(i64_to_double_bits(0), (-1.0f64).to_bits());
    assert_eq!(i64_to_double_bits(0xc000_0000_0000_0000), 0.5f64.to_bits());
    assert_eq!(i64_to_double_bits(1), 0xbfef_ffff_ffff_ffff);
    assert_eq!(i64_to_double_bits(MIDPOINT + 1), 0x3c00_0000_0000_0000);
    assert_eq!(i64_to_double_bits(u64::MAX), 0x3fef_ffff_ffff_ffff);
}

#[test]
fn fixed_roundtrip_for_exact_values() {
    for x in [0.5f64, -0.25, 0.75, -1.0, 0.1, -0.3] {
        let fixed = double_bits_to_i64(x.to_bits()).unwrap();
        assert_eq!(f64::from_bits(i64_to_double_bits(fixed)), x);
    }
}

#[test]
fn spread_and_gather_bytes() {
    assert_eq!(spread_byte(0xff), 0x5555);
    assert_eq!(spread_byte(0xa5), 0x4411);
    assert_eq!(spread_byte(0), 0);
    assert_eq!(deinterleave_byte(0xaa), 0xf0);
    assert_eq!(deinterleave_byte(0x55), 0x0f);
    assert_eq!(deinterleave_byte(0b1001_0110), 0b1001_0110);
}

#[test]
fn interleave_then_deinterleave() {
    assert_eq!(interleave(0xff, 0), 0xaaaa);
    assert_eq!(interleave(0x12, 0x34), 0x0718);
    for upper in [0u8, 1, 0x12, 0x7f, 0x80, 0xa5, 0xff] {
        for lower in [0u8, 1, 0x34, 0x5a, 0xc3, 0xff] {
            assert_eq!(deinterleave(interleave(upper, lower)), (upper, lower));
        }
    }
}

#[test]
fn lookup_tables() {
    let map = build_interleave_map();
    for i in 0..256usize {
        assert_eq!(map[i], spread_byte(i as u8));
    }
    let dmap = build_deinterleave_byte_map();
    for i in 0..256usize {
        assert_eq!(dmap[i], deinterleave_byte(i as u8));
    }
    let bmap = build_base32_decode_map();
    assert_eq!(bmap[b'0' as usize], 0);
    assert_eq!(bmap[b'z' as usize], 31);
    assert_eq!(bmap[b'Z' as usize], 31);
    assert_eq!(bmap[b'a' as usize], 0xff);
    assert_eq!(bmap[b'A' as usize], 0xff);
    assert_eq!(bmap[b'!' as usize], 0xff);
}

#[test]
fn base32_alphabet() {
    let alphabet = b"0123456789bcdefghjkmnpqrstuvwxyz";
    for (i, c) in alphabet.iter().enumerate() {
        assert_eq!(base32_digit(i as u8), *c);
        assert_eq!(base32_value(*c), Some(i as u8));
        assert_eq!(base32_value(c.to_ascii_uppercase()), Some(i as u8));
    }
    for c in [b'a', b'i', b'l', b'o', b'A', b'I', b'L', b'O', b' ', 0x80, 0xff] {
        assert_eq!(base32_value(c), None);
    }
}

#[test]
fn push_digit_uses_low_five_bits() {
    let mut s = String::new();
    push_geohash_digit(&mut s, 0);
    push_geohash_digit(&mut s, 31);
    push_geohash_digit(&mut s, 32 + 10);
    assert_eq!(s, "0zb");
}

#[test]
fn masks() {
    assert_eq!(bit_mask(0), 0);
    assert_eq!(bit_mask(5), 0x1f);
    assert_eq!(bit_mask(16), 0xffff);
    assert_eq!(bit_mask(20), 0xffff);
}

#[test]
fn read_after_write() {
    let mut words = [0u16; 4];
    write_interleaved_bits(&mut words, 13, 20, 0xabcde);
    assert_eq!(read_interleaved_bits(&words, 13, 20), 0xabcde);
    assert_eq!(read_interleaved_bits(&words, 0, 13), 0);
    assert_eq!(read_interleaved_bits(&words, 33, 31), 0);
    write_interleaved_bits(&mut words, 0, 5, 0b10110);
    assert_eq!(read_interleaved_bits(&words, 0, 5), 0b10110);
    assert_eq!(words[0], 0b1011_0000_0000_0101);
}

#[test]
fn read_past_the_end_is_zero() {
    let words = [0xffffu16];
    assert_eq!(read_interleaved_bits(&words, 8, 16), 0xff00);
    assert_eq!(read_interleaved_bits(&words, 100, 5), 0);
}

#[test]
fn read_keeps_low_32_bits() {
    let words = [0xffffu16, 0xffff, 0xffff];
    assert_eq!(read_interleaved_bits(&words, 0, 40), 0xffff_ffff);
    assert_eq!(read_interleaved_bits(&words, 8, 40), 0xffff_ffff);
    let words = [0u16, 0xffff, 0xffff];
    assert_eq!(read_interleaved_bits(&words, 0, 40), 0x00ff_ffff);
}

#[test]
fn write_wide_field_keeps_value_bits() {
    let mut words = [0u16; 3];
    write_interleaved_bits(&mut words, 0, 40, 0xffff_ffff);
    assert_eq!(words, [0x00ff, 0xffff, 0xff00]);
}

#[test]
fn stream_roundtrip() {
    for code in ["xn76urx6k", "s", "ezs42", "U4PRUYDQQVJ", ""] {
        let words = geohash_to_interleaved(code).unwrap();
        assert_eq!(words.len(), code.len() * 5 / 16 + 1);
        assert_eq!(
            interleaved_to_geohash(&words, code.len()),
            code.to_lowercase()
        );
    }
    assert_eq!(geohash_to_interleaved("abc"), Err(GeohashError::InvalidCode));
}

#[test]
fn spelling_past_the_stream_gives_zeros() {
    assert_eq!(interleaved_to_geohash(&[0xffff], 5), "zzzh0");
    assert_eq!(interleaved_to_geohash(&[], 3), "000");
}

#[test]
fn error_messages() {
    assert_eq!(
        GeohashError::InvalidCode.message(),
        "geohash code is [0123456789bcdefghjkmnpqrstuvwxyz]+"
    );
    assert_eq!(GeohashError::InvalidArgument.message(), "Invalid argument");
}

#[test]
fn int_unit() {
    assert_eq!(INT_UNIT, 64);
}

#[test]
fn encode_tokyo_station_cell() {
    // the centre of the cell xn76urx6k lies some 3 km from Tokyo Tower
    let (la, lo) = unit(35.681254863739014, 139.76722955703735);
    assert_eq!(
        encode_normalized_latitude(la, lo).unwrap(),
        "xn76urx6ks0000000000000000"
    );
    let (la, lo) = unit(35.658581, 139.745433);
    assert!(!encode_normalized_latitude(la, lo)
        .unwrap()
        .starts_with("xn76urx6k"));
}

#[test]
fn code_digits_spell_int_parts() {
    let alphabet = b"0123456789bcdefghjkmnpqrstuvwxyz";
    let (la, lo) = unit(35.658581, 139.745433);
    let code = encode_normalized_latitude(la, lo).unwrap();
    let (high, low) = encode_uint128_parts_normalized_latitude(la, lo).unwrap();
    let n = ((high as u128) << 64) | (low as u128);
    let bytes = code.as_bytes();
    assert_eq!(bytes.len(), 26);
    for k in 0..25 {
        assert_eq!(bytes[k], alphabet[((n >> (123 - 5 * k)) & 31) as usize]);
    }
    assert_eq!(bytes[25], alphabet[((n & 7) << 2) as usize]);
}

#[test]
fn fixed_to_double_keeps_order() {
    let inputs: [u64; 10] = [
        0,
        1,
        0x7fff_ffff_ffff_f000,
        0x7fff_ffff_ffff_ffff,
        MIDPOINT,
        MIDPOINT + 1,
        MIDPOINT + 0xfff,
        MIDPOINT + 0x1000,
        MIDPOINT + 0x1001,
        u64::MAX,
    ];
    for pair in inputs.windows(2) {
        let a = f64::from_bits(i64_to_double_bits(pair[0]));
        let b = f64::from_bits(i64_to_double_bits(pair[1]));
        assert!(a <= b, "{} > {}", a, b);
    }
    // distances that differ only below the kept 53 bits give the same number
    assert_eq!(
        i64_to_double_bits(MIDPOINT + 0x1000_0000_0000_0800),
        i64_to_double_bits(MIDPOINT + 0x1000_0000_0000_0801)
    );
}

#[test]
fn codes_ignore_case() {
    assert_eq!(neighbors("XN76G"), neighbors("xn76g"));
    assert_eq!(neighbors("Xn76Gg"), neighbors("xn76gg"));
    assert_eq!(neighbors("XA"), Err(GeohashError::InvalidCode));
    assert_eq!(decode_fixed("XN76GGRW2"), decode_fixed("xn76ggrw2"));
}

#[test]
fn neighbor_codes_are_symmetric() {
    for code in ["Xn76G", "s0", "zzz", "00000"] {
        let lower = code.to_ascii_lowercase();
        for other in neighbors(code).unwrap() {
            assert!(neighbors(&other).unwrap().contains(&lower), "{} {}", code, other);
        }
    }
}

#[test]
fn spelled_digits_are_five_bit_reads() {
    let words = [0x1234u16, 0xfedc, 0xa5a5];
    let code = interleaved_to_geohash(&words, 11);
    let alphabet = b"0123456789bcdefghjkmnpqrstuvwxyz";
    assert_eq!(code.len(), 11);
    for k in 0..11 {
        let v = read_interleaved_bits(&words, 5 * k, 5);
        assert_eq!(code.as_bytes()[k], alphabet[v as usize]);
    }
}
