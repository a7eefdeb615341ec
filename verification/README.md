# geohash

Geohash encoding, decoding and neighbor search, with the logic verified by
Verus.

A geohash spells the bits of a cell five at a time in the alphabet
`0123456789bcdefghjkmnpqrstuvwxyz`; longitude bits take the even positions
and latitude bits the odd ones. The library works on fixed-point
coordinates (`2^63 + x * 2^63` for `x` = latitude / 90 or longitude / 180 in
`[-1, 1)`), and converts them to and from the bit patterns of IEEE-754
doubles.

- `src/bits.rs`: bit strings (`Seq<bool>`) and their lemmas.
- `src/base32.rs`: the alphabet.
- `src/code.rs`: the bits that a code spells.
- `src/interleave.rs`: interleaving the bits of two bytes.
- `src/stream.rs`: bit streams in 16-bit words, read and write, and their
  conversion to and from codes.
- `src/fixed.rs`: doubles to fixed point and back.
- `src/codec.rs`: encoding coordinates, decoding codes and 128-bit forms.
- `src/neighbors.rs`: the cells around a cell.
- `src/laws.rs`: properties that relate these functions.
- `app/`: the Python module (pyo3) and the `f64` edges.

For example, Tokyo Tower at latitude 35.658581, longitude 139.745433 has
the code `xn76ggrw29731uk987brps0000`. The nine-character code `xn76urx6k`
belongs to a different cell: its centre is 35.681255, 139.767230, near
Tokyo Station, some 3 km away.
