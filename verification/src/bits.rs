//! Bit strings: the mathematical model behind every geohash value.
//!
//! A geohash is a string of bits read most significant first. Longitude
//! bits stand at the even positions, latitude bits at the odd ones. This
//! module gives that model (`Seq<bool>`, most significant bit first), the
//! conversions between bit strings and numbers, and the lemmas that the
//! rest of the crate proves its contracts with.
use vstd::arithmetic::div_mod::*;
use vstd::arithmetic::mul::*;
use vstd::arithmetic::power2::*;
use vstd::prelude::*;

verus! {

/// The numeric value of one bit.
pub open spec fn bit_value(b: bool) -> nat {
    if b {
        1
    } else {
        0
    }
}

/// The number that a bit string denotes, most significant bit first.
pub open spec fn bits_to_nat(s: Seq<bool>) -> nat
    decreases s.len(),
{
    if s.len() == 0 {
        0
    } else {
        2 * bits_to_nat(s.drop_last()) + bit_value(s.last())
    }
}

/// The `n` low bits of `x`, most significant first.
pub open spec fn nat_to_bits(x: nat, n: nat) -> Seq<bool>
    decreases n,
{
    if n == 0 {
        Seq::empty()
    } else {
        nat_to_bits(x / 2, (n - 1) as nat).push(x % 2 == 1)
    }
}

/// The bits at even positions (0, 2, 4, ...).
pub open spec fn evens(s: Seq<bool>) -> Seq<bool> {
    Seq::new((s.len() + 1) / 2, |i: int| s[2 * i])
}

/// The bits at odd positions (1, 3, 5, ...).
pub open spec fn odds(s: Seq<bool>) -> Seq<bool> {
    Seq::new(s.len() / 2, |i: int| s[2 * i + 1])
}

/// The bit string `a[0] b[0] a[1] b[1] ...`, of length `|a| + |b|`.
pub open spec fn interleave_bits(a: Seq<bool>, b: Seq<bool>) -> Seq<bool> {
    Seq::new(a.len() + b.len(), |j: int| if j % 2 == 0 { a[j / 2] } else { b[j / 2] })
}

/// `n` zero bits.
pub open spec fn zeros(n: nat) -> Seq<bool> {
    Seq::new(n, |i: int| false)
}

/// The first `n` bits of `s`, followed by zero bits where `s` is shorter.
pub open spec fn pad_bits(s: Seq<bool>, n: nat) -> Seq<bool> {
    Seq::new(n, |j: int| j < s.len() && s[j])
}

pub proof fn lemma_nat_to_bits_len(x: nat, n: nat)
    ensures
        #[trigger] nat_to_bits(x, n).len() == n,
    decreases n,
{
    if n > 0 {
        lemma_nat_to_bits_len(x / 2, (n - 1) as nat);
    }
}

pub proof fn lemma_nat_to_bits_unfold(x: nat, n: nat)
    requires
        n > 0,
    ensures
        nat_to_bits(x, n) == nat_to_bits(x / 2, (n - 1) as nat).push(x % 2 == 1),
{
}

pub proof fn lemma_bits_to_nat_bound(s: Seq<bool>)
    ensures
        bits_to_nat(s) < pow2(s.len()),
    decreases s.len(),
{
    if s.len() == 0 {
        lemma2_to64();
    } else {
        lemma_bits_to_nat_bound(s.drop_last());
        lemma_pow2_unfold(s.len());
    }
}

pub proof fn lemma_bits_to_nat_append(a: Seq<bool>, b: Seq<bool>)
    ensures
        bits_to_nat(a + b) == bits_to_nat(a) * pow2(b.len()) + bits_to_nat(b),
    decreases b.len(),
{
    if b.len() == 0 {
        assert(a + b =~= a);
        lemma2_to64();
        assert(bits_to_nat(a) * 1 == bits_to_nat(a));
    } else {
        let b1 = b.drop_last();
        assert((a + b).drop_last() =~= a + b1);
        assert((a + b).last() == b.last());
        lemma_bits_to_nat_append(a, b1);
        lemma_pow2_unfold(b.len());
        let x = bits_to_nat(a);
        let p = pow2(b1.len());
        assert(bits_to_nat(a + b) == 2 * bits_to_nat(a + b1) + bit_value(b.last()));
        assert(bits_to_nat(b) == 2 * bits_to_nat(b1) + bit_value(b.last()));
        assert(2 * (x * p) == x * (2 * p)) by (nonlinear_arith);
    }
}

pub proof fn lemma_bits_to_nat_push(s: Seq<bool>, b: bool)
    ensures
        bits_to_nat(s.push(b)) == 2 * bits_to_nat(s) + bit_value(b),
{
    assert(s.push(b).drop_last() =~= s);
}

pub proof fn lemma_bits_to_nat_short(x: bool, y: bool)
    ensures
        bits_to_nat(Seq::<bool>::empty()) == 0,
        bits_to_nat(seq![x]) == bit_value(x),
        bits_to_nat(seq![x, y]) == 2 * bit_value(x) + bit_value(y),
{
    let e = Seq::<bool>::empty();
    let s1 = seq![x];
    let s2 = seq![x, y];
    assert(s1.drop_last() =~= e);
    assert(s2.drop_last() =~= s1);
    assert(s1.len() == 1 && s1.last() == x);
    assert(s2.len() == 2 && s2.last() == y);
    assert(bits_to_nat(e) == 0);
    assert(bits_to_nat(s1) == 2 * bits_to_nat(s1.drop_last()) + bit_value(s1.last()));
    assert(bits_to_nat(s2) == 2 * bits_to_nat(s2.drop_last()) + bit_value(s2.last()));
}

pub proof fn lemma_bits_to_nat_of_nat_to_bits(x: nat, n: nat)
    ensures
        bits_to_nat(nat_to_bits(x, n)) == x % pow2(n),
    decreases n,
{
    lemma_pow2_pos(n);
    if n == 0 {
        lemma2_to64();
    } else {
        let m = (n - 1) as nat;
        lemma_bits_to_nat_of_nat_to_bits(x / 2, m);
        lemma_nat_to_bits_len(x / 2, m);
        lemma_bits_to_nat_push(nat_to_bits(x / 2, m), x % 2 == 1);
        lemma_pow2_unfold(n);
        lemma_pow2_pos(m);
        lemma_mod_breakdown(x as int, 2, pow2(m) as int);
    }
}

pub proof fn lemma_nat_to_bits_of_bits_to_nat(s: Seq<bool>)
    ensures
        nat_to_bits(bits_to_nat(s), s.len()) == s,
    decreases s.len(),
{
    if s.len() == 0 {
        assert(nat_to_bits(bits_to_nat(s), 0) =~= s);
    } else {
        let s1 = s.drop_last();
        lemma_nat_to_bits_of_bits_to_nat(s1);
        let v = bits_to_nat(s);
        assert(v / 2 == bits_to_nat(s1));
        assert((v % 2 == 1) == s.last());
        assert(s1.push(s.last()) =~= s);
    }
}

/// Splitting the low `n + m` bits of `x` into the upper `n` and the lower `m`.
pub proof fn lemma_nat_to_bits_split(x: nat, n: nat, m: nat)
    ensures
        nat_to_bits(x, n + m) == nat_to_bits(x / pow2(m), n) + nat_to_bits(x, m),
    decreases m,
{
    if m == 0 {
        lemma2_to64();
        assert(nat_to_bits(x, n) + nat_to_bits(x, 0) =~= nat_to_bits(x, n));
    } else {
        let m1 = (m - 1) as nat;
        lemma_nat_to_bits_split(x / 2, n, m1);
        lemma_pow2_unfold(m);
        lemma_pow2_pos(m1);
        lemma_div_denominator(x as int, 2, pow2(m1) as int);
        assert(nat_to_bits(x, n + m) == nat_to_bits(x / 2, (n + m1) as nat).push(x % 2 == 1));
        assert(nat_to_bits(x / pow2(m), n) + nat_to_bits(x, m) =~= (nat_to_bits(
            (x / 2) / pow2(m1),
            n,
        ) + nat_to_bits(x / 2, m1)).push(x % 2 == 1));
    }
}

/// Only the low `n` bits of `x` matter.
pub proof fn lemma_nat_to_bits_mod(x: nat, n: nat)
    ensures
        nat_to_bits(x, n) == nat_to_bits(x % pow2(n), n),
{
    lemma_bits_to_nat_of_nat_to_bits(x, n);
    lemma_nat_to_bits_len(x, n);
    lemma_nat_to_bits_of_bits_to_nat(nat_to_bits(x, n));
}

/// Bit `i` (counted from the most significant end) of the low `n` bits of `x`.
pub proof fn lemma_nat_to_bits_index(x: nat, n: nat, i: int)
    requires
        0 <= i < n,
    ensures
        nat_to_bits(x, n)[i] == ((x / pow2((n - 1 - i) as nat)) % 2 == 1),
{
    let k = (n - 1 - i) as nat;
    lemma_nat_to_bits_split(x, (i + 1) as nat, k);
    lemma_nat_to_bits_len(x / pow2(k), (i + 1) as nat);
    lemma_nat_to_bits_len(x, k);
    assert(nat_to_bits(x, n)[i] == nat_to_bits(x / pow2(k), (i + 1) as nat)[i]);
    let y = x / pow2(k);
    lemma_nat_to_bits_len(y / 2, i as nat);
    lemma_nat_to_bits_unfold(y, (i + 1) as nat);
}

/// The low `n` bits of `x` are the same as those of `x % 2^n`; in number form.
pub proof fn lemma_nat_to_bits_small(x: nat, n: nat)
    requires
        x < pow2(n),
    ensures
        bits_to_nat(nat_to_bits(x, n)) == x,
{
    lemma_bits_to_nat_of_nat_to_bits(x, n);
    lemma_small_mod(x, pow2(n));
}

/// Joining the bits of `hi` (n bits) and `lo` (m bits) gives the bits of `hi * 2^m + lo`.
pub proof fn lemma_nat_to_bits_concat(hi: nat, lo: nat, n: nat, m: nat)
    requires
        hi < pow2(n),
        lo < pow2(m),
    ensures
        nat_to_bits(hi * pow2(m) + lo, n + m) == nat_to_bits(hi, n) + nat_to_bits(lo, m),
        hi * pow2(m) + lo < pow2(n + m),
{
    let s = nat_to_bits(hi, n) + nat_to_bits(lo, m);
    lemma_nat_to_bits_len(hi, n);
    lemma_nat_to_bits_len(lo, m);
    lemma_bits_to_nat_append(nat_to_bits(hi, n), nat_to_bits(lo, m));
    lemma_nat_to_bits_small(hi, n);
    lemma_nat_to_bits_small(lo, m);
    lemma_nat_to_bits_of_bits_to_nat(s);
    lemma_bits_to_nat_bound(s);
}

/// Splitting a bit string splits its even and odd positions.
pub proof fn lemma_evens_odds_append(a: Seq<bool>, b: Seq<bool>)
    ensures
        a.len() % 2 == 0 ==> evens(a + b) == evens(a) + evens(b) && odds(a + b) == odds(a) + odds(
            b,
        ),
        a.len() % 2 == 1 ==> evens(a + b) == evens(a) + odds(b) && odds(a + b) == odds(a) + evens(
            b,
        ),
{
    if a.len() % 2 == 0 {
        assert(evens(a + b) =~= evens(a) + evens(b));
        assert(odds(a + b) =~= odds(a) + odds(b));
    } else {
        assert(evens(a + b) =~= evens(a) + odds(b));
        assert(odds(a + b) =~= odds(a) + evens(b));
    }
}

/// Taking the even and odd positions of an interleaving gives back its parts.
pub proof fn lemma_interleave_parts(a: Seq<bool>, b: Seq<bool>)
    requires
        b.len() <= a.len() <= b.len() + 1,
    ensures
        evens(interleave_bits(a, b)) == a,
        odds(interleave_bits(a, b)) == b,
        interleave_bits(a, b).len() == a.len() + b.len(),
{
    assert(evens(interleave_bits(a, b)) =~= a);
    assert(odds(interleave_bits(a, b)) =~= b);
}

/// A bit string is the interleaving of its even and odd positions.
pub proof fn lemma_interleave_of_parts(s: Seq<bool>)
    ensures
        interleave_bits(evens(s), odds(s)) == s,
{
    assert(interleave_bits(evens(s), odds(s)) =~= s);
}

/// Interleaving distributes over concatenation of equally long front parts.
pub proof fn lemma_interleave_append(a1: Seq<bool>, b1: Seq<bool>, a2: Seq<bool>, b2: Seq<bool>)
    requires
        a1.len() == b1.len(),
        b2.len() <= a2.len() <= b2.len() + 1,
    ensures
        interleave_bits(a1 + a2, b1 + b2) == interleave_bits(a1, b1) + interleave_bits(a2, b2),
{
    let l = interleave_bits(a1 + a2, b1 + b2);
    let r = interleave_bits(a1, b1) + interleave_bits(a2, b2);
    let n1 = a1.len();
    assert forall|j: int| 0 <= j < l.len() implies l[j] == r[j] by {
        if j >= 2 * n1 {
            let k = j - 2 * n1;
            assert(k % 2 == j % 2);
            assert(k / 2 == j / 2 - n1);
        }
    }
    assert(l =~= r);
}

/// Zero has only zero bits.
pub proof fn lemma_nat_to_bits_zero(n: nat)
    ensures
        nat_to_bits(0, n) == zeros(n),
    decreases n,
{
    if n > 0 {
        lemma_nat_to_bits_zero((n - 1) as nat);
        assert(nat_to_bits(0, n) =~= zeros(n));
    } else {
        assert(nat_to_bits(0, n) =~= zeros(n));
    }
}

/// The value of bits `a .. b` of the low `n` bits of `x`.
pub proof fn lemma_nat_to_bits_subrange_value(x: nat, n: nat, a: nat, b: nat)
    requires
        a <= b <= n,
    ensures
        bits_to_nat(nat_to_bits(x, n).subrange(a as int, b as int)) == (x / pow2(
            (n - b) as nat,
        )) % pow2((b - a) as nat),
        nat_to_bits(x, n).subrange(a as int, b as int) == nat_to_bits(
            x / pow2((n - b) as nat),
            (b - a) as nat,
        ),
{
    let y = x / pow2((n - b) as nat);
    lemma_nat_to_bits_split(x, b, (n - b) as nat);
    lemma_nat_to_bits_split(y, a, (b - a) as nat);
    lemma_nat_to_bits_len(y, b);
    lemma_nat_to_bits_len(y / pow2((b - a) as nat), a);
    lemma_nat_to_bits_len(y, (b - a) as nat);
    lemma_nat_to_bits_len(x, (n - b) as nat);
    assert(nat_to_bits(x, n).subrange(a as int, b as int) =~= nat_to_bits(y, (b - a) as nat));
    lemma_bits_to_nat_of_nat_to_bits(y, (b - a) as nat);
}

/// A value that fits in `m` bits has zero bits above them.
pub proof fn lemma_nat_to_bits_widen(x: nat, n: nat, m: nat)
    requires
        x < pow2(m),
        m <= n,
    ensures
        nat_to_bits(x, n) == zeros((n - m) as nat) + nat_to_bits(x, m),
{
    lemma_nat_to_bits_split(x, (n - m) as nat, m);
    lemma_pow2_pos(m);
    lemma_basic_div(x as int, pow2(m) as int);
    lemma_nat_to_bits_zero((n - m) as nat);
    assert((n - m) as nat + m == n);
}

/// Appending `take` bits `c` to a number kept modulo `2^width`.
pub proof fn lemma_shift_in_mod(v: nat, o: nat, take: nat, c: nat, width: nat)
    requires
        take <= width,
        o == v % pow2(width),
        c < pow2(take),
    ensures
        (o * pow2(take)) % pow2(width) + c == (v * pow2(take) + c) % pow2(width),
        (o * pow2(take)) % pow2(width) + c < pow2(width),
{
    let p = pow2(take);
    let q = pow2((width - take) as nat);
    let m = pow2(width);
    lemma_pow2_adds(take, (width - take) as nat);
    lemma_pow2_pos(take);
    lemma_pow2_pos((width - take) as nat);
    lemma_pow2_pos(width);
    assert(m == p * q);
    lemma_mul_mod_noop_left(v as int, p as int, m as int);
    lemma_mul_is_commutative(o as int, p as int);
    lemma_mul_is_commutative(v as int, p as int);
    lemma_truncate_middle(v as int, p as int, q as int);
    assert((v * p) % m == p * (v % q));
    lemma_mod_bound(v as int, q as int);
    assert(p * (v % q) <= p * (q - 1)) by {
        lemma_mul_inequality((v % q) as int, (q - 1) as int, p as int);
        lemma_mul_is_commutative(p as int, (v % q) as int);
        lemma_mul_is_commutative(p as int, (q - 1) as int);
    }
    assert(p * (q - 1) == m - p) by {
        lemma_mul_is_distributive_sub(p as int, q as int, 1);
    }
    lemma_add_mod_noop((v * p) as int, c as int, m as int);
    lemma_small_mod(c, m);
    lemma_small_mod(((v * p) % m + c) as nat, m);
}

/// Interleaving when the front part of the first string is one bit longer.
pub proof fn lemma_interleave_append_odd(
    a1: Seq<bool>,
    b1: Seq<bool>,
    a2: Seq<bool>,
    b2: Seq<bool>,
)
    requires
        a1.len() == b1.len() + 1,
        a2.len() <= b2.len() <= a2.len() + 1,
    ensures
        interleave_bits(a1 + a2, b1 + b2) == interleave_bits(a1, b1) + interleave_bits(b2, a2),
{
    let l = interleave_bits(a1 + a2, b1 + b2);
    let r = interleave_bits(a1, b1) + interleave_bits(b2, a2);
    let n1 = a1.len() + b1.len();
    assert forall|j: int| 0 <= j < l.len() implies l[j] == r[j] by {
        if j >= n1 {
            let k = j - n1;
            assert(k % 2 != j % 2);
            if j % 2 == 0 {
                assert(k / 2 == j / 2 - a1.len());
            } else {
                assert(k / 2 == j / 2 - b1.len());
            }
        }
    }
    assert(l =~= r);
}

/// The value of a five-bit string.
pub proof fn lemma_bits_to_nat_five(s: Seq<bool>)
    requires
        s.len() == 5,
    ensures
        bits_to_nat(s) == 16 * bit_value(s[0]) + 8 * bit_value(s[1]) + 4 * bit_value(s[2]) + 2
            * bit_value(s[3]) + bit_value(s[4]),
{
    let s1 = s.drop_last();
    let s2 = s1.drop_last();
    let s3 = s2.drop_last();
    let s4 = s3.drop_last();
    assert(s4 =~= seq![s[0]]);
    lemma_bits_to_nat_short(s[0], s[1]);
    assert(s =~= s1.push(s[4]));
    assert(s1 =~= s2.push(s[3]));
    assert(s2 =~= s3.push(s[2]));
    assert(s3 =~= s4.push(s[1]));
    lemma_bits_to_nat_push(s1, s[4]);
    lemma_bits_to_nat_push(s2, s[3]);
    lemma_bits_to_nat_push(s3, s[2]);
    lemma_bits_to_nat_push(s4, s[1]);
}

} // verus!
