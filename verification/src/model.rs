//! The mathematical model of the bit stream.
//!
//! A byte buffer is viewed as a sequence of bits addressed by an absolute
//! bit position. Two numbering conventions exist: under Lsb0 the first bit
//! of each byte is its least significant bit, under Msb0 its most
//! significant one. `lsb_value` and `msb_value` give the unsigned value of
//! a run of bits under each convention; all executable code is specified
//! against these functions.

use vstd::prelude::*;
use vstd::arithmetic::power2::{
    pow2,
    lemma_pow2_adds,
    lemma_pow2_unfold,
    lemma_pow2_pos,
    lemma_pow2_strictly_increases,
    lemma2_to64,
    lemma2_to64_rest,
};
use vstd::arithmetic::div_mod::{
    lemma_fundamental_div_mod,
    lemma_fundamental_div_mod_converse,
    lemma_fundamental_div_mod_converse_div,
    lemma_div_denominator,
    lemma_mod_breakdown,
    lemma_mod_mod,
    lemma_mod_multiples_basic,
    lemma_mod_multiples_vanish,
    lemma_mod_bound,
    lemma_basic_div,
    lemma_truncate_middle,
};
use vstd::arithmetic::mul::{
    lemma_mul_inequality,
    lemma_mul_strict_inequality,
    lemma_mul_is_associative,
    lemma_mul_is_commutative,
    lemma_mul_is_distributive_add,
    lemma_mul_nonnegative,
};

verus! {

/// Bit `i` of the byte `b`, counting the least significant bit as bit 0.
pub open spec fn byte_bit(b: u8, i: nat) -> nat {
    (b as nat / pow2(i)) % 2
}

/// The stream bit at absolute bit position `p` under the Lsb0 convention:
/// within each byte the least significant bit comes first.
pub open spec fn lsb_bit(data: Seq<u8>, p: nat) -> nat {
    byte_bit(data[(p / 8) as int], p % 8)
}

/// The stream bit at absolute bit position `p` under the Msb0 convention:
/// within each byte the most significant bit comes first.
pub open spec fn msb_bit(data: Seq<u8>, p: nat) -> nat {
    byte_bit(data[(p / 8) as int], (7 - p % 8) as nat)
}

/// The value of the `len` stream bits starting at position `p`, read Lsb0:
/// the first stream bit is the least significant bit of the value.
pub open spec fn lsb_value(data: Seq<u8>, p: nat, len: nat) -> nat
    decreases len,
{
    if len == 0 {
        0
    } else {
        lsb_bit(data, p) + 2 * lsb_value(data, p + 1, (len - 1) as nat)
    }
}

/// The value of the `len` stream bits starting at position `p`, read Msb0:
/// the first stream bit is the most significant bit of the value.
pub open spec fn msb_value(data: Seq<u8>, p: nat, len: nat) -> nat
    decreases len,
{
    if len == 0 {
        0
    } else {
        2 * msb_value(data, p, (len - 1) as nat) + msb_bit(data, (p + len - 1) as nat)
    }
}

/// The value of `x` after its bits `[start, start + len)` are replaced by
/// the low `len` bits of `v`, all other bits kept.
pub open spec fn set_slice_val(x: nat, start: nat, len: nat, v: nat) -> nat {
    x % pow2(start) + (v % pow2(len)) * pow2(start) + (x / pow2(start + len)) * pow2(start + len)
}

/// Remainders by one vanish.
pub proof fn lemma_mod_one(x: nat)
    ensures
        x % 1 == 0,
{
    lemma_mod_multiples_basic(x as int, 1);
}

/// `pow2` is monotonic.
pub proof fn lemma_pow2_le(a: nat, b: nat)
    requires
        a <= b,
    ensures
        pow2(a) <= pow2(b),
{
    if a < b {
        lemma_pow2_strictly_increases(a, b);
    }
}

/// The concrete powers of two at the supported integer widths.
pub proof fn lemma_pow2_widths()
    ensures
        pow2(8) == 0x100,
        pow2(16) == 0x1_0000,
        pow2(32) == 0x1_0000_0000,
        pow2(64) == 0x1_0000_0000_0000_0000,
        pow2(128) == 0x1_0000_0000_0000_0000_0000_0000_0000_0000,
{
    lemma2_to64();
    lemma2_to64_rest();
    lemma_pow2_adds(64, 64);
}

/// Taking a value modulo `pow2(c)` splits into its lowest bit and the rest.
pub proof fn lemma_mod_pow2_split(x: nat, c: nat)
    requires
        c >= 1,
    ensures
        x % pow2(c) == x % 2 + 2 * ((x / 2) % pow2((c - 1) as nat)),
{
    lemma_pow2_unfold(c);
    lemma_pow2_pos((c - 1) as nat);
    lemma_mod_breakdown(x as int, 2, pow2((c - 1) as nat) as int);
}

/// Dividing twice by powers of two is dividing by their product.
pub proof fn lemma_div_pow2_add(x: nat, a: nat, b: nat)
    ensures
        (x / pow2(a)) / pow2(b) == x / pow2(a + b),
{
    lemma_pow2_pos(a);
    lemma_pow2_pos(b);
    lemma_div_denominator(x as int, pow2(a) as int, pow2(b) as int);
    lemma_pow2_adds(a, b);
}

/// A remainder by a larger power of two keeps the smaller one intact.
pub proof fn lemma_mod_pow2_mod(x: nat, a: nat, b: nat)
    requires
        a <= b,
    ensures
        (x % pow2(b)) % pow2(a) == x % pow2(a),
{
    lemma_pow2_pos(a);
    lemma_pow2_pos((b - a) as nat);
    lemma_pow2_adds(a, (b - a) as nat);
    lemma_mod_mod(x as int, pow2(a) as int, pow2((b - a) as nat) as int);
}

/// Decomposing an absolute bit position into byte and bit coordinates.
pub proof fn lemma_pos_index(byte: nat, bit: nat)
    requires
        bit < 8,
    ensures
        (8 * byte + bit) / 8 == byte,
        (8 * byte + bit) % 8 == bit,
{
    lemma_fundamental_div_mod_converse((8 * byte + bit) as int, 8, byte as int, bit as int);
}

/// Advancing a normalized position by `delta` bits renormalizes as expected.
pub proof fn lemma_pos_advance(byte: nat, bit: nat, delta: nat)
    ensures
        (8 * byte + bit + delta) / 8 == byte + (bit + delta) / 8,
        (8 * byte + bit + delta) % 8 == (bit + delta) % 8,
{
    lemma_fundamental_div_mod((bit + delta) as int, 8);
    lemma_fundamental_div_mod_converse(
        (8 * byte + bit + delta) as int,
        8,
        (byte + (bit + delta) / 8) as int,
        ((bit + delta) % 8) as int,
    );
}

/// A run of bits that stays inside one byte has, under Lsb0, the value of
/// the byte's bit field `[p % 8, p % 8 + c)`.
pub proof fn lemma_lsb_chunk(data: Seq<u8>, p: nat, c: nat)
    requires
        p % 8 + c <= 8,
        p / 8 < data.len(),
    ensures
        lsb_value(data, p, c) == (data[(p / 8) as int] as nat / pow2(p % 8)) % pow2(c),
    decreases c,
{
    let b = data[(p / 8) as int] as nat;
    let k = p % 8;
    lemma_pow2_pos(k);
    if c == 0 {
        lemma2_to64();
        lemma_mod_one(b / pow2(k));
    } else if c == 1 {
        lemma2_to64();
        assert(lsb_value(data, p + 1, 0) == 0);
        assert(lsb_value(data, p, 1) == lsb_bit(data, p));
        assert(lsb_bit(data, p) == (b / pow2(k)) % 2);
    } else {
        lemma_fundamental_div_mod(p as int, 8);
        lemma_fundamental_div_mod_converse((p + 1) as int, 8, (p / 8) as int, (k + 1) as int);
        assert((p + 1) / 8 == p / 8 && (p + 1) % 8 == k + 1);
        lemma_lsb_chunk(data, p + 1, (c - 1) as nat);
        assert(b / pow2(k + 1) == (b / pow2(k)) / 2) by {
            lemma_pow2_adds(k, 1);
            lemma2_to64();
            lemma_div_denominator(b as int, pow2(k) as int, 2);
        };
        lemma_mod_pow2_split(b / pow2(k), c);
    }
}

/// A run of bits that stays inside one byte has, under Msb0, the value of
/// the byte's bit field `[8 - p % 8 - c, 8 - p % 8)`.
pub proof fn lemma_msb_chunk(data: Seq<u8>, p: nat, c: nat)
    requires
        p % 8 + c <= 8,
        p / 8 < data.len(),
    ensures
        msb_value(data, p, c) == (data[(p / 8) as int] as nat / pow2((8 - p % 8 - c) as nat))
            % pow2(c),
    decreases c,
{
    let b = data[(p / 8) as int] as nat;
    let k = p % 8;
    let s = (8 - k - c) as nat;
    lemma_pow2_pos(s);
    if c == 0 {
        lemma2_to64();
        lemma_mod_one(b / pow2(s));
    } else {
        lemma_fundamental_div_mod(p as int, 8);
        lemma_fundamental_div_mod_converse(
            (p + c - 1) as int,
            8,
            (p / 8) as int,
            (k + c - 1) as int,
        );
        assert(((p + c - 1) as nat) / 8 == p / 8 && ((p + c - 1) as nat) % 8 == k + c - 1);
        assert(msb_bit(data, (p + c - 1) as nat) == (b / pow2(s)) % 2);
        lemma_msb_chunk(data, p, (c - 1) as nat);
        assert(b / pow2(s + 1) == (b / pow2(s)) / 2) by {
            lemma_pow2_adds(s, 1);
            lemma2_to64();
            lemma_div_denominator(b as int, pow2(s) as int, 2);
        };
        lemma_mod_pow2_split(b / pow2(s), c);
    }
}

/// Under Lsb0 a run splits into a low part and a high part: the first `a`
/// bits carry the low weights, the remaining `b` bits are scaled by `2^a`.
pub proof fn lemma_lsb_split(data: Seq<u8>, p: nat, a: nat, b: nat)
    ensures
        lsb_value(data, p, a + b) == lsb_value(data, p, a) + pow2(a) * lsb_value(data, p + a, b),
    decreases a,
{
    if a == 0 {
        lemma2_to64();
    } else {
        lemma_lsb_split(data, p + 1, (a - 1) as nat, b);
        lemma_pow2_unfold(a);
        lemma_mul_is_associative(2, pow2((a - 1) as nat) as int, lsb_value(data, p + a, b) as int);
    }
}

/// Under Msb0 a run splits into a high part and a low part: the first `a`
/// bits are scaled by `2^b`, the remaining `b` bits carry the low weights.
pub proof fn lemma_msb_split(data: Seq<u8>, p: nat, a: nat, b: nat)
    ensures
        msb_value(data, p, a + b) == msb_value(data, p, a) * pow2(b) + msb_value(data, p + a, b),
    decreases b,
{
    if b == 0 {
        lemma2_to64();
    } else {
        lemma_msb_split(data, p, a, (b - 1) as nat);
        lemma_pow2_unfold(b);
        let m = msb_value(data, p, a) as int;
        let q = pow2((b - 1) as nat) as int;
        assert(2 * (m * q) == m * (2 * q)) by {
            lemma_mul_is_associative(2, m, q);
            lemma_mul_is_commutative(2, m);
            lemma_mul_is_associative(m, 2, q);
        };
    }
}

/// A run of `len` bits always carries a value below `2^len` (Lsb0).
pub proof fn lemma_lsb_value_bound(data: Seq<u8>, p: nat, len: nat)
    ensures
        lsb_value(data, p, len) < pow2(len),
    decreases len,
{
    if len == 0 {
        lemma2_to64();
    } else {
        lemma_lsb_value_bound(data, p + 1, (len - 1) as nat);
        lemma_pow2_unfold(len);
    }
}

/// A run of `len` bits always carries a value below `2^len` (Msb0).
pub proof fn lemma_msb_value_bound(data: Seq<u8>, p: nat, len: nat)
    ensures
        msb_value(data, p, len) < pow2(len),
    decreases len,
{
    if len == 0 {
        lemma2_to64();
    } else {
        lemma_msb_value_bound(data, p, (len - 1) as nat);
        lemma_pow2_unfold(len);
    }
}

/// Two buffers that agree on every bit of a run carry the same Lsb0 value.
pub proof fn lemma_lsb_congruence(d1: Seq<u8>, d2: Seq<u8>, p: nat, len: nat)
    requires
        forall|i: nat| i < len ==> #[trigger] lsb_bit(d1, p + i) == lsb_bit(d2, p + i),
    ensures
        lsb_value(d1, p, len) == lsb_value(d2, p, len),
    decreases len,
{
    if len != 0 {
        assert(lsb_bit(d1, p + 0) == lsb_bit(d2, p + 0));
        assert forall|i: nat| i < (len - 1) as nat implies #[trigger] lsb_bit(d1, (p + 1) + i)
            == lsb_bit(d2, (p + 1) + i) by {
            assert(lsb_bit(d1, p + (i + 1)) == lsb_bit(d2, p + (i + 1)));
        };
        lemma_lsb_congruence(d1, d2, p + 1, (len - 1) as nat);
    }
}

/// Two buffers that agree on every bit of a run carry the same Msb0 value.
pub proof fn lemma_msb_congruence(d1: Seq<u8>, d2: Seq<u8>, p: nat, len: nat)
    requires
        forall|i: nat| i < len ==> #[trigger] msb_bit(d1, p + i) == msb_bit(d2, p + i),
    ensures
        msb_value(d1, p, len) == msb_value(d2, p, len),
    decreases len,
{
    if len != 0 {
        assert(msb_bit(d1, p + ((len - 1) as nat)) == msb_bit(d2, p + ((len - 1) as nat)));
        lemma_msb_congruence(d1, d2, p, (len - 1) as nat);
    }
}

/// The three fields of a composed byte value: the kept low bits, the
/// inserted slice, and the kept high bits.
pub proof fn lemma_set_slice_parts(x: nat, start: nat, len: nat, v: nat)
    ensures
        set_slice_val(x, start, len, v) % pow2(start) == x % pow2(start),
        (set_slice_val(x, start, len, v) / pow2(start)) % pow2(len) == v % pow2(len),
        set_slice_val(x, start, len, v) / pow2(start + len) == x / pow2(start + len),
{
    lemma_pow2_pos(start);
    lemma_pow2_pos(len);
    lemma_pow2_pos(start + len);
    lemma_pow2_adds(start, len);
    let lo: nat = x % pow2(start);
    let mid: nat = v % pow2(len);
    let hi: nat = x / pow2(start + len);
    let s: nat = set_slice_val(x, start, len, v);
    let q: nat = mid + hi * pow2(len);
    lemma_mod_bound(x as int, pow2(start) as int);
    lemma_mod_bound(v as int, pow2(len) as int);
    assert(s == pow2(start) * q + lo) by {
        lemma_mul_is_distributive_add(pow2(start) as int, mid as int, (hi * pow2(len)) as int);
        lemma_mul_is_commutative(mid as int, pow2(start) as int);
        assert(hi * (pow2(start) * pow2(len)) == pow2(start) * (hi * pow2(len)))
            by (nonlinear_arith);
    };
    lemma_fundamental_div_mod_converse(s as int, pow2(start) as int, q as int, lo as int);
    lemma_mul_nonnegative(hi as int, pow2(len) as int);
    lemma_fundamental_div_mod_converse(q as int, pow2(len) as int, hi as int, mid as int);
    lemma_div_denominator(s as int, pow2(start) as int, pow2(len) as int);
}

/// Quotients by one are the value itself.
pub proof fn lemma_div_one(x: nat)
    ensures
        x / 1 == x,
{
    lemma_fundamental_div_mod_converse(x as int, 1, x as int, 0);
}

/// Composing a byte value keeps it below `2^n` when the slice fits; the
/// intermediate sums stay in bounds as well.
pub proof fn lemma_set_slice_fits(x: nat, start: nat, len: nat, v: nat, n: nat)
    requires
        start + len <= n,
        x < pow2(n),
    ensures
        set_slice_val(x, start, len, v) < pow2(n),
        x % pow2(start) < pow2(start),
        x % pow2(start) + (v % pow2(len)) * pow2(start) < pow2(start + len),
        (x / pow2(start + len)) * pow2(start + len) <= x,
        pow2(start + len) <= pow2(n),
{
    let lo = x % pow2(start);
    let mid = v % pow2(len);
    let t = start + len;
    let hi = x / pow2(t);
    lemma_pow2_pos(start);
    lemma_pow2_pos(len);
    lemma_pow2_pos(t);
    lemma_pow2_adds(start, len);
    lemma_pow2_adds(t, (n - t) as nat);
    // mid * pow2(start) <= pow2(t) - pow2(start)
    lemma_mul_inequality(mid as int, (pow2(len) - 1) as int, pow2(start) as int);
    lemma_mul_is_distributive_add(pow2(start) as int, (pow2(len) - 1) as int, 1);
    lemma_mul_is_commutative((pow2(len) - 1) as int, pow2(start) as int);
    // hi < pow2(n - t)
    assert(hi < pow2((n - t) as nat)) by {
        if hi >= pow2((n - t) as nat) {
            lemma_mul_inequality(pow2((n - t) as nat) as int, hi as int, pow2(t) as int);
            lemma_fundamental_div_mod(x as int, pow2(t) as int);
            lemma_mod_bound(x as int, pow2(t) as int);
            lemma_mul_is_commutative(hi as int, pow2(t) as int);
            lemma_mul_is_commutative(pow2((n - t) as nat) as int, pow2(t) as int);
        }
    };
    lemma_mul_inequality(hi as int, (pow2((n - t) as nat) - 1) as int, pow2(t) as int);
    lemma_mul_is_distributive_add(pow2(t) as int, (pow2((n - t) as nat) - 1) as int, 1);
    lemma_mul_is_commutative((pow2((n - t) as nat) - 1) as int, pow2(t) as int);
    lemma_mod_bound(x as int, pow2(start) as int);
    lemma_mod_bound(v as int, pow2(len) as int);
    assert((x / pow2(t)) * pow2(t) <= x) by {
        lemma_fundamental_div_mod(x as int, pow2(t) as int);
        lemma_mod_bound(x as int, pow2(t) as int);
        lemma_mul_is_commutative(hi as int, pow2(t) as int);
    };
    lemma_pow2_le(t, n);
}

/// Two values occupying disjoint bit ranges sum to a value that still fits.
pub proof fn lemma_disjoint_fits(x: nat, y: nat, k: nat, n: nat)
    requires
        k <= n,
        x < pow2(n),
        x % pow2(k) == 0,
        y < pow2(k),
    ensures
        x + y < pow2(n),
{
    let q = x / pow2(k);
    lemma_pow2_pos(k);
    lemma_pow2_adds(k, (n - k) as nat);
    lemma_fundamental_div_mod(x as int, pow2(k) as int);
    assert(q < pow2((n - k) as nat)) by {
        if q >= pow2((n - k) as nat) {
            lemma_mul_inequality(pow2((n - k) as nat) as int, q as int, pow2(k) as int);
            lemma_mul_is_commutative(q as int, pow2(k) as int);
            lemma_mul_is_commutative(pow2((n - k) as nat) as int, pow2(k) as int);
        }
    };
    lemma_mul_inequality(q as int, (pow2((n - k) as nat) - 1) as int, pow2(k) as int);
    lemma_mul_is_distributive_add(pow2(k) as int, (pow2((n - k) as nat) - 1) as int, 1);
    lemma_mul_is_commutative((pow2((n - k) as nat) - 1) as int, pow2(k) as int);
    lemma_mul_is_commutative(pow2(k) as int, q as int);
}

/// A value below `2^a`, scaled by `2^b`, stays below `2^(a + b)`.
pub proof fn lemma_mul_pow2_bound(x: nat, a: nat, b: nat)
    requires
        x < pow2(a),
    ensures
        x * pow2(b) < pow2(a + b),
{
    lemma_pow2_pos(b);
    lemma_pow2_adds(a, b);
    lemma_mul_strict_inequality(x as int, pow2(a) as int, pow2(b) as int);
}

/// Multiplying by `2^s` and wrapping at `2^w` is the same as first trimming
/// the argument to its low `w - s` bits.
pub proof fn lemma_shl_truncate(x: nat, s: nat, w: nat)
    requires
        s < w,
    ensures
        (x % pow2((w - s) as nat)) * pow2(s) == (x * pow2(s)) % pow2(w),
        (x % pow2((w - s) as nat)) * pow2(s) < pow2(w),
{
    let c = (w - s) as nat;
    lemma_pow2_pos(s);
    lemma_pow2_pos(c);
    lemma_truncate_middle(x as int, pow2(s) as int, pow2(c) as int);
    lemma_pow2_adds(s, c);
    lemma_mul_is_commutative(pow2(s) as int, x as int);
    lemma_mul_is_commutative(pow2(s) as int, (x % pow2(c)) as int);
    lemma_mul_strict_inequality((x % pow2(c)) as int, pow2(c) as int, pow2(s) as int);
    lemma_mul_is_commutative(pow2(c) as int, pow2(s) as int);
}

/// Multiplying by `2^s` with `s >= w` leaves no residue modulo `2^w`.
pub proof fn lemma_shl_vanish(x: nat, s: nat, w: nat)
    requires
        s >= w,
    ensures
        (x * pow2(s)) % pow2(w) == 0,
{
    lemma_pow2_pos(w);
    lemma_pow2_adds((s - w) as nat, w);
    lemma_mul_is_associative(x as int, pow2((s - w) as nat) as int, pow2(w) as int);
    lemma_mod_multiples_basic((x * pow2((s - w) as nat)) as int, pow2(w) as int);
}

/// Dividing a value below `2^w` by `2^s` with `s >= w` yields zero.
pub proof fn lemma_shr_vanish(x: nat, s: nat, w: nat)
    requires
        s >= w,
        x < pow2(w),
    ensures
        x / pow2(s) == 0,
{
    lemma_pow2_le(w, s);
    lemma_pow2_pos(s);
    lemma_basic_div(x as int, pow2(s) as int);
}

/// Bit `t + i` of a value is bit `i` of the value shifted down by `t`.
pub proof fn lemma_bit_of_div(x: nat, i: nat, t: nat)
    ensures
        (x / pow2(t + i)) % 2 == ((x / pow2(t)) / pow2(i)) % 2,
{
    lemma_div_pow2_add(x, t, i);
}

/// A bit below position `m` survives trimming the value to its low `m` bits.
pub proof fn lemma_bit_of_mod(x: nat, i: nat, m: nat)
    requires
        i < m,
    ensures
        ((x % pow2(m)) / pow2(i)) % 2 == (x / pow2(i)) % 2,
{
    let r = x % pow2(m);
    let q = x / pow2(m);
    lemma_pow2_pos(i);
    lemma_pow2_pos(m);
    lemma_pow2_pos((m - i) as nat);
    lemma_fundamental_div_mod(x as int, pow2(m) as int);
    lemma_fundamental_div_mod(r as int, pow2(i) as int);
    lemma_pow2_adds(i, (m - i) as nat);
    let d = q * pow2((m - i) as nat) + r / pow2(i);
    assert(x == d * pow2(i) + (r % pow2(i))) by {
        assert(pow2(m) * q == (q * pow2((m - i) as nat)) * pow2(i)) by {
            lemma_mul_is_commutative(pow2(m) as int, q as int);
            lemma_mul_is_associative(q as int, pow2(i) as int, pow2((m - i) as nat) as int);
            lemma_mul_is_commutative(pow2(i) as int, pow2((m - i) as nat) as int);
            lemma_mul_is_associative(q as int, pow2((m - i) as nat) as int, pow2(i) as int);
        };
        lemma_mul_is_distributive_add(
            pow2(i) as int,
            (q * pow2((m - i) as nat)) as int,
            (r / pow2(i)) as int,
        );
        lemma_mul_is_commutative(pow2(i) as int, d as int);
        lemma_mul_is_commutative(pow2(i) as int, (r / pow2(i)) as int);
    };
    lemma_fundamental_div_mod_converse_div(
        x as int,
        pow2(i) as int,
        d as int,
        (r % pow2(i)) as int,
    );
    // x / pow2(i) == q * pow2(m - i) + r / pow2(i); the first addend is even
    lemma_pow2_unfold((m - i) as nat);
    lemma_mul_is_associative(q as int, 2, pow2((m - i - 1) as nat) as int);
    lemma_mul_is_commutative(q as int, 2);
    lemma_mul_is_associative(2, q as int, pow2((m - i - 1) as nat) as int);
    lemma_mod_multiples_vanish((q * pow2((m - i - 1) as nat)) as int, (r / pow2(i)) as int, 2);
}

/// Writing the bit field `[bit, bit + c)` of one byte changes exactly the
/// Lsb0 stream positions `[8*byte + bit, 8*byte + bit + c)`: they take the
/// low `c` bits of `chunk`; every other stream bit is kept.
pub proof fn lemma_lsb_write_chunk(
    s0: Seq<u8>,
    s1: Seq<u8>,
    byte: nat,
    bit: nat,
    c: nat,
    chunk: nat,
)
    requires
        c >= 1,
        bit + c <= 8,
        byte < s0.len(),
        s1.len() == s0.len(),
        forall|j: int| 0 <= j < s0.len() && j != byte ==> s1[j] == s0[j],
        s1[byte as int] as nat == set_slice_val(s0[byte as int] as nat, bit, c, chunk),
    ensures
        lsb_value(s1, 8 * byte + bit, c) == chunk % pow2(c),
        forall|q: nat|
            q < 8 * s0.len() && !(8 * byte + bit <= q < 8 * byte + bit + c)
                ==> #[trigger] lsb_bit(s1, q) == lsb_bit(s0, q),
{
    let p = 8 * byte + bit;
    let b0 = s0[byte as int] as nat;
    let b1 = s1[byte as int] as nat;
    lemma_pos_index(byte, bit);
    lemma_set_slice_parts(b0, bit, c, chunk);
    lemma_lsb_chunk(s1, p, c);
    assert forall|q: nat|
        q < 8 * s0.len() && !(p <= q < p + c) implies #[trigger] lsb_bit(s1, q) == lsb_bit(
        s0,
        q,
    ) by {
        let qb = q / 8;
        let qi = q % 8;
        lemma_fundamental_div_mod(q as int, 8);
        lemma_mod_bound(q as int, 8);
        if qb != byte {
            assert(s1[qb as int] == s0[qb as int]);
        } else {
            if qi < bit {
                lemma_bit_of_mod(b1, qi, bit);
                lemma_bit_of_mod(b0, qi, bit);
            } else {
                lemma_bit_of_div(b1, (qi - (bit + c)) as nat, bit + c);
                lemma_bit_of_div(b0, (qi - (bit + c)) as nat, bit + c);
            }
        }
    };
}

/// Writing the bit field `[8 - bit - c, 8 - bit)` of one byte changes
/// exactly the Msb0 stream positions `[8*byte + bit, 8*byte + bit + c)`:
/// they take the low `c` bits of `chunk`; every other stream bit is kept.
pub proof fn lemma_msb_write_chunk(
    s0: Seq<u8>,
    s1: Seq<u8>,
    byte: nat,
    bit: nat,
    c: nat,
    chunk: nat,
)
    requires
        c >= 1,
        bit + c <= 8,
        byte < s0.len(),
        s1.len() == s0.len(),
        forall|j: int| 0 <= j < s0.len() && j != byte ==> s1[j] == s0[j],
        s1[byte as int] as nat == set_slice_val(
            s0[byte as int] as nat,
            (8 - bit - c) as nat,
            c,
            chunk,
        ),
    ensures
        msb_value(s1, 8 * byte + bit, c) == chunk % pow2(c),
        forall|q: nat|
            q < 8 * s0.len() && !(8 * byte + bit <= q < 8 * byte + bit + c)
                ==> #[trigger] msb_bit(s1, q) == msb_bit(s0, q),
{
    let p = 8 * byte + bit;
    let b0 = s0[byte as int] as nat;
    let b1 = s1[byte as int] as nat;
    let start = (8 - bit - c) as nat;
    let stop = (8 - bit) as nat;
    lemma_pos_index(byte, bit);
    lemma_set_slice_parts(b0, start, c, chunk);
    lemma_msb_chunk(s1, p, c);
    assert forall|q: nat|
        q < 8 * s0.len() && !(p <= q < p + c) implies #[trigger] msb_bit(s1, q) == msb_bit(
        s0,
        q,
    ) by {
        let qb = q / 8;
        let qi = q % 8;
        lemma_fundamental_div_mod(q as int, 8);
        lemma_mod_bound(q as int, 8);
        if qb != byte {
            assert(s1[qb as int] == s0[qb as int]);
        } else {
            let j = (7 - qi) as nat;
            if qi < bit {
                lemma_bit_of_div(b1, (j - stop) as nat, stop);
                lemma_bit_of_div(b0, (j - stop) as nat, stop);
            } else {
                lemma_bit_of_mod(b1, j, start);
                lemma_bit_of_mod(b0, j, start);
            }
        }
    };
}

} // verus!
