//! The width-polymorphic unsigned-integer capability.
//!
//! `Uint` is the closed set of operations the codec needs from an unsigned
//! integer type: bit-slice extraction and insertion, saturating shifts, and
//! conversions to and from single bytes. It is implemented for `u8`, `u16`,
//! `u32`, `u64` and `u128`, and every operation is specified against the
//! mathematical value `as_nat`.

use vstd::prelude::*;
use vstd::arithmetic::power2::{pow2, lemma_pow2_pos, lemma_pow2_adds, lemma2_to64, lemma2_to64_rest};
use vstd::arithmetic::div_mod::{lemma_small_mod, lemma_basic_div};
use vstd::arithmetic::mul::lemma_mul_basics;
use vstd::bits::{
    lemma_u8_shl_is_mul,
    lemma_u16_shl_is_mul,
    lemma_u32_shl_is_mul,
    lemma_u64_shl_is_mul,
    lemma_u8_pow2_no_overflow,
    lemma_u16_pow2_no_overflow,
    lemma_u32_pow2_no_overflow,
    lemma_u64_pow2_no_overflow,
};
use crate::model::{
    set_slice_val,
    lemma_set_slice_fits,
    lemma_shl_truncate,
    lemma_shl_vanish,
    lemma_shr_vanish,
    lemma_disjoint_fits,
    lemma_mod_one,
    lemma_div_one,
    lemma_pow2_widths,
    lemma_pow2_le,
};

verus! {

/// The capability the codec needs from an unsigned integer type of a fixed
/// bit width. Implementations exist for the primitive unsigned types; the
/// contracts speak of the mathematical value `as_nat` and the width
/// `spec_width`.
pub trait Uint: Sized + Copy {
    /// The bit width of the type.
    spec fn spec_width() -> nat;

    /// The mathematical value.
    spec fn as_nat(self) -> nat;

    /// The width is at least one byte and every value fits in it.
    proof fn lemma_well_formed(self)
        ensures
            Self::spec_width() >= 8,
            self.as_nat() < pow2(Self::spec_width()),
    ;

    /// The bit width as a run-time value.
    fn width() -> (w: usize)
        ensures
            w as nat == Self::spec_width(),
    ;

    /// The zero value.
    fn zero() -> (r: Self)
        ensures
            r.as_nat() == 0,
    ;

    /// Widening conversion from a byte.
    fn from_u8(b: u8) -> (r: Self)
        ensures
            r.as_nat() == b as nat,
    ;

    /// The low byte of the value.
    fn as_u8(self) -> (r: u8)
        ensures
            r as nat == self.as_nat() % pow2(8),
    ;

    /// Bits `[start, stop)` of the value, shifted down so that bit `start`
    /// becomes bit zero.
    fn get_bit_slice(self, start: usize, stop: usize) -> (r: Self)
        requires
            start <= stop,
            stop as nat <= Self::spec_width(),
        ensures
            r.as_nat() == (self.as_nat() / pow2(start as nat)) % pow2((stop - start) as nat),
    ;

    /// The value with bits `[start, stop)` replaced by the low `stop - start`
    /// bits of `val`, all other bits kept.
    fn set_bit_slice(self, start: usize, stop: usize, val: Self) -> (r: Self)
        requires
            start <= stop,
            stop as nat <= Self::spec_width(),
        ensures
            r.as_nat() == set_slice_val(
                self.as_nat(),
                start as nat,
                (stop - start) as nat,
                val.as_nat(),
            ),
    ;

    /// Left shift that discards bits pushed past the width and yields zero
    /// once the shift amount reaches it.
    fn saturating_shl(self, n: usize) -> (r: Self)
        ensures
            r.as_nat() == (self.as_nat() * pow2(n as nat)) % pow2(Self::spec_width()),
    ;

    /// Right shift that yields zero once the shift amount reaches the width.
    fn saturating_shr(self, n: usize) -> (r: Self)
        ensures
            r.as_nat() == self.as_nat() / pow2(n as nat),
    ;

    /// Combine two values whose set bits do not overlap: `self` holds only
    /// bits at or above `split`, `other` only bits below it.
    fn or_disjoint(self, other: Self, split: Ghost<nat>) -> (r: Self)
        requires
            split@ <= Self::spec_width(),
            self.as_nat() % pow2(split@) == 0,
            other.as_nat() < pow2(split@),
        ensures
            r.as_nat() == self.as_nat() + other.as_nat(),
    ;
}

/// The power of two `2^k` as a `u8`. Relies on the vstd correspondence
/// between left shift and multiplication.
fn pow2_u8(k: usize) -> (r: u8)
    requires
        k < 8,
    ensures
        r as nat == pow2(k as nat),
        r >= 1,
{
    proof {
        lemma_u8_pow2_no_overflow(k as nat);
        lemma_u8_shl_is_mul(1u8, k as u8);
        lemma_pow2_pos(k as nat);
    }
    1u8 << (k as u8)
}

impl Uint for u8 {
    open spec fn spec_width() -> nat {
        8
    }

    open spec fn as_nat(self) -> nat {
        self as nat
    }

    proof fn lemma_well_formed(self) {
        lemma_pow2_widths();
    }

    fn width() -> (w: usize) {
        8
    }

    fn zero() -> (r: Self) {
        0
    }

    fn from_u8(b: u8) -> (r: Self) {
        b
    }

    fn as_u8(self) -> (r: u8) {
        proof {
            lemma_pow2_widths();
            lemma_small_mod(self as nat, pow2(8));
        }
        self
    }

    fn get_bit_slice(self, start: usize, stop: usize) -> (r: Self) {
        proof {
            lemma_pow2_widths();
            lemma_pow2_pos(start as nat);
        }
        if start == stop {
            proof {
                lemma2_to64();
                lemma_mod_one(self as nat / pow2(start as nat));
            }
            return 0;
        }
        let len = stop - start;
        let shifted = self / pow2_u8(start);
        if len == 8 {
            proof {
                lemma2_to64();
                lemma_div_one(self as nat);
                lemma_small_mod(self as nat, pow2(8));
            }
            shifted
        } else {
            shifted % pow2_u8(len)
        }
    }

    fn set_bit_slice(self, start: usize, stop: usize, val: Self) -> (r: Self) {
        let len = stop - start;
        proof {
            lemma_pow2_widths();
            lemma_pow2_pos(start as nat);
            lemma_pow2_pos(len as nat);
            lemma_pow2_pos(stop as nat);
            lemma_set_slice_fits(self as nat, start as nat, len as nat, val as nat, 8);
        }
        if start == 8 {
            proof {
                lemma2_to64();
                lemma_mod_one(val as nat);
                lemma_small_mod(self as nat, pow2(8));
                lemma_basic_div(self as int, pow2(8) as int);
            }
            return self;
        }
        let p_start = pow2_u8(start);
        let low = self % p_start;
        let mid: u8 = if len == 0 {
            proof {
                lemma2_to64();
                lemma_mod_one(val as nat);
            }
            0
        } else if len == 8 {
            proof {
                lemma_small_mod(val as nat, pow2(8));
            }
            val
        } else {
            val % pow2_u8(len)
        };
        let high: u8 = if stop == 8 {
            proof {
                lemma_basic_div(self as int, pow2(8) as int);
            }
            0
        } else {
            (self / pow2_u8(stop)) * pow2_u8(stop)
        };
        proof {
            lemma_mul_basics(pow2(start as nat) as int);
            lemma_mul_basics(pow2(stop as nat) as int);
            lemma_mul_basics(pow2(start as nat + len as nat) as int);
        }
        low + mid * p_start + high
    }

    fn saturating_shl(self, n: usize) -> (r: Self) {
        proof {
            lemma_pow2_widths();
        }
        if n >= 8 {
            proof {
                lemma_shl_vanish(self as nat, n as nat, 8);
            }
            0
        } else if n == 0 {
            proof {
                lemma2_to64();
                lemma_small_mod(self as nat, pow2(8));
            }
            self
        } else {
            proof {
                lemma_shl_truncate(self as nat, n as nat, 8);
            }
            (self % pow2_u8(8 - n)) * pow2_u8(n)
        }
    }

    fn saturating_shr(self, n: usize) -> (r: Self) {
        if n >= 8 {
            proof {
                lemma_pow2_widths();
                lemma_shr_vanish(self as nat, n as nat, 8);
            }
            0
        } else {
            self / pow2_u8(n)
        }
    }

    fn or_disjoint(self, other: Self, split: Ghost<nat>) -> (r: Self) {
        proof {
            lemma_pow2_widths();
            lemma_disjoint_fits(self as nat, other as nat, split@, 8);
        }
        // On disjoint bit ranges, bitwise or coincides with addition.
        self + other
    }
}

/// The power of two `2^k` as a `u16`. Relies on the vstd correspondence
/// between left shift and multiplication.
fn pow2_u16(k: usize) -> (r: u16)
    requires
        k < 16,
    ensures
        r as nat == pow2(k as nat),
        r >= 1,
{
    proof {
        lemma_u16_pow2_no_overflow(k as nat);
        lemma_u16_shl_is_mul(1u16, k as u16);
        lemma_pow2_pos(k as nat);
    }
    1u16 << (k as u16)
}

impl Uint for u16 {
    open spec fn spec_width() -> nat {
        16
    }

    open spec fn as_nat(self) -> nat {
        self as nat
    }

    proof fn lemma_well_formed(self) {
        lemma_pow2_widths();
    }

    fn width() -> (w: usize) {
        16
    }

    fn zero() -> (r: Self) {
        0
    }

    fn from_u8(b: u8) -> (r: Self) {
        b as u16
    }

    fn as_u8(self) -> (r: u8) {
        proof {
            lemma_pow2_widths();
        }
        (self % 256) as u8
    }

    fn get_bit_slice(self, start: usize, stop: usize) -> (r: Self) {
        proof {
            lemma_pow2_widths();
            lemma_pow2_pos(start as nat);
        }
        if start == stop {
            proof {
                lemma2_to64();
                lemma_mod_one(self as nat / pow2(start as nat));
            }
            return 0;
        }
        let len = stop - start;
        let shifted = self / pow2_u16(start);
        if len == 16 {
            proof {
                lemma2_to64();
                lemma_div_one(self as nat);
                lemma_small_mod(self as nat, pow2(16));
            }
            shifted
        } else {
            shifted % pow2_u16(len)
        }
    }

    fn set_bit_slice(self, start: usize, stop: usize, val: Self) -> (r: Self) {
        let len = stop - start;
        proof {
            lemma_pow2_widths();
            lemma_pow2_pos(start as nat);
            lemma_pow2_pos(len as nat);
            lemma_pow2_pos(stop as nat);
            lemma_set_slice_fits(self as nat, start as nat, len as nat, val as nat, 16);
        }
        if start == 16 {
            proof {
                lemma2_to64();
                lemma_mod_one(val as nat);
                lemma_small_mod(self as nat, pow2(16));
                lemma_basic_div(self as int, pow2(16) as int);
            }
            return self;
        }
        let p_start = pow2_u16(start);
        let low = self % p_start;
        let mid: u16 = if len == 0 {
            proof {
                lemma2_to64();
                lemma_mod_one(val as nat);
            }
            0
        } else if len == 16 {
            proof {
                lemma_small_mod(val as nat, pow2(16));
            }
            val
        } else {
            val % pow2_u16(len)
        };
        let high: u16 = if stop == 16 {
            proof {
                lemma_basic_div(self as int, pow2(16) as int);
            }
            0
        } else {
            (self / pow2_u16(stop)) * pow2_u16(stop)
        };
        proof {
            lemma_mul_basics(pow2(start as nat) as int);
            lemma_mul_basics(pow2(stop as nat) as int);
            lemma_mul_basics(pow2(start as nat + len as nat) as int);
        }
        low + mid * p_start + high
    }

    fn saturating_shl(self, n: usize) -> (r: Self) {
        proof {
            lemma_pow2_widths();
        }
        if n >= 16 {
            proof {
                lemma_shl_vanish(self as nat, n as nat, 16);
            }
            0
        } else if n == 0 {
            proof {
                lemma2_to64();
                lemma_small_mod(self as nat, pow2(16));
            }
            self
        } else {
            proof {
                lemma_shl_truncate(self as nat, n as nat, 16);
            }
            (self % pow2_u16(16 - n)) * pow2_u16(n)
        }
    }

    fn saturating_shr(self, n: usize) -> (r: Self) {
        if n >= 16 {
            proof {
                lemma_pow2_widths();
                lemma_shr_vanish(self as nat, n as nat, 16);
            }
            0
        } else {
            self / pow2_u16(n)
        }
    }

    fn or_disjoint(self, other: Self, split: Ghost<nat>) -> (r: Self) {
        proof {
            lemma_pow2_widths();
            lemma_disjoint_fits(self as nat, other as nat, split@, 16);
        }
        // On disjoint bit ranges, bitwise or coincides with addition.
        self + other
    }
}

/// The power of two `2^k` as a `u32`. Relies on the vstd correspondence
/// between left shift and multiplication.
fn pow2_u32(k: usize) -> (r: u32)
    requires
        k < 32,
    ensures
        r as nat == pow2(k as nat),
        r >= 1,
{
    proof {
        lemma_u32_pow2_no_overflow(k as nat);
        lemma_u32_shl_is_mul(1u32, k as u32);
        lemma_pow2_pos(k as nat);
    }
    1u32 << (k as u32)
}

impl Uint for u32 {
    open spec fn spec_width() -> nat {
        32
    }

    open spec fn as_nat(self) -> nat {
        self as nat
    }

    proof fn lemma_well_formed(self) {
        lemma_pow2_widths();
    }

    fn width() -> (w: usize) {
        32
    }

    fn zero() -> (r: Self) {
        0
    }

    fn from_u8(b: u8) -> (r: Self) {
        b as u32
    }

    fn as_u8(self) -> (r: u8) {
        proof {
            lemma_pow2_widths();
        }
        (self % 256) as u8
    }

    fn get_bit_slice(self, start: usize, stop: usize) -> (r: Self) {
        proof {
            lemma_pow2_widths();
            lemma_pow2_pos(start as nat);
        }
        if start == stop {
            proof {
                lemma2_to64();
                lemma_mod_one(self as nat / pow2(start as nat));
            }
            return 0;
        }
        let len = stop - start;
        let shifted = self / pow2_u32(start);
        if len == 32 {
            proof {
                lemma2_to64();
                lemma_div_one(self as nat);
                lemma_small_mod(self as nat, pow2(32));
            }
            shifted
        } else {
            shifted % pow2_u32(len)
        }
    }

    fn set_bit_slice(self, start: usize, stop: usize, val: Self) -> (r: Self) {
        let len = stop - start;
        proof {
            lemma_pow2_widths();
            lemma_pow2_pos(start as nat);
            lemma_pow2_pos(len as nat);
            lemma_pow2_pos(stop as nat);
            lemma_set_slice_fits(self as nat, start as nat, len as nat, val as nat, 32);
        }
        if start == 32 {
            proof {
                lemma2_to64();
                lemma_mod_one(val as nat);
                lemma_small_mod(self as nat, pow2(32));
                lemma_basic_div(self as int, pow2(32) as int);
            }
            return self;
        }
        let p_start = pow2_u32(start);
        let low = self % p_start;
        let mid: u32 = if len == 0 {
            proof {
                lemma2_to64();
                lemma_mod_one(val as nat);
            }
            0
        } else if len == 32 {
            proof {
                lemma_small_mod(val as nat, pow2(32));
            }
            val
        } else {
            val % pow2_u32(len)
        };
        let high: u32 = if stop == 32 {
            proof {
                lemma_basic_div(self as int, pow2(32) as int);
            }
            0
        } else {
            (self / pow2_u32(stop)) * pow2_u32(stop)
        };
        proof {
            lemma_mul_basics(pow2(start as nat) as int);
            lemma_mul_basics(pow2(stop as nat) as int);
            lemma_mul_basics(pow2(start as nat + len as nat) as int);
        }
        low + mid * p_start + high
    }

    fn saturating_shl(self, n: usize) -> (r: Self) {
        proof {
            lemma_pow2_widths();
        }
        if n >= 32 {
            proof {
                lemma_shl_vanish(self as nat, n as nat, 32);
            }
            0
        } else if n == 0 {
            proof {
                lemma2_to64();
                lemma_small_mod(self as nat, pow2(32));
            }
            self
        } else {
            proof {
                lemma_shl_truncate(self as nat, n as nat, 32);
            }
            (self % pow2_u32(32 - n)) * pow2_u32(n)
        }
    }

    fn saturating_shr(self, n: usize) -> (r: Self) {
        if n >= 32 {
            proof {
                lemma_pow2_widths();
                lemma_shr_vanish(self as nat, n as nat, 32);
            }
            0
        } else {
            self / pow2_u32(n)
        }
    }

    fn or_disjoint(self, other: Self, split: Ghost<nat>) -> (r: Self) {
        proof {
            lemma_pow2_widths();
            lemma_disjoint_fits(self as nat, other as nat, split@, 32);
        }
        // On disjoint bit ranges, bitwise or coincides with addition.
        self + other
    }
}

/// The power of two `2^k` as a `u64`. Relies on the vstd correspondence
/// between left shift and multiplication.
fn pow2_u64(k: usize) -> (r: u64)
    requires
        k < 64,
    ensures
        r as nat == pow2(k as nat),
        r >= 1,
{
    proof {
        lemma_u64_pow2_no_overflow(k as nat);
        lemma_u64_shl_is_mul(1u64, k as u64);
        lemma_pow2_pos(k as nat);
    }
    1u64 << (k as u64)
}

impl Uint for u64 {
    open spec fn spec_width() -> nat {
        64
    }

    open spec fn as_nat(self) -> nat {
        self as nat
    }

    proof fn lemma_well_formed(self) {
        lemma_pow2_widths();
    }

    fn width() -> (w: usize) {
        64
    }

    fn zero() -> (r: Self) {
        0
    }

    fn from_u8(b: u8) -> (r: Self) {
        b as u64
    }

    fn as_u8(self) -> (r: u8) {
        proof {
            lemma_pow2_widths();
        }
        (self % 256) as u8
    }

    fn get_bit_slice(self, start: usize, stop: usize) -> (r: Self) {
        proof {
            lemma_pow2_widths();
            lemma_pow2_pos(start as nat);
        }
        if start == stop {
            proof {
                lemma2_to64();
                lemma_mod_one(self as nat / pow2(start as nat));
            }
            return 0;
        }
        let len = stop - start;
        let shifted = self / pow2_u64(start);
        if len == 64 {
            proof {
                lemma2_to64();
                lemma_div_one(self as nat);
                lemma_small_mod(self as nat, pow2(64));
            }
            shifted
        } else {
            shifted % pow2_u64(len)
        }
    }

    fn set_bit_slice(self, start: usize, stop: usize, val: Self) -> (r: Self) {
        let len = stop - start;
        proof {
            lemma_pow2_widths();
            lemma_pow2_pos(start as nat);
            lemma_pow2_pos(len as nat);
            lemma_pow2_pos(stop as nat);
            lemma_set_slice_fits(self as nat, start as nat, len as nat, val as nat, 64);
        }
        if start == 64 {
            proof {
                lemma2_to64();
                lemma_mod_one(val as nat);
                lemma_small_mod(self as nat, pow2(64));
                lemma_basic_div(self as int, pow2(64) as int);
            }
            return self;
        }
        let p_start = pow2_u64(start);
        let low = self % p_start;
        let mid: u64 = if len == 0 {
            proof {
                lemma2_to64();
                lemma_mod_one(val as nat);
            }
            0
        } else if len == 64 {
            proof {
                lemma_small_mod(val as nat, pow2(64));
            }
            val
        } else {
            val % pow2_u64(len)
        };
        let high: u64 = if stop == 64 {
            proof {
                lemma_basic_div(self as int, pow2(64) as int);
            }
            0
        } else {
            (self / pow2_u64(stop)) * pow2_u64(stop)
        };
        proof {
            lemma_mul_basics(pow2(start as nat) as int);
            lemma_mul_basics(pow2(stop as nat) as int);
            lemma_mul_basics(pow2(start as nat + len as nat) as int);
        }
        low + mid * p_start + high
    }

    fn saturating_shl(self, n: usize) -> (r: Self) {
        proof {
            lemma_pow2_widths();
        }
        if n >= 64 {
            proof {
                lemma_shl_vanish(self as nat, n as nat, 64);
            }
            0
        } else if n == 0 {
            proof {
                lemma2_to64();
                lemma_small_mod(self as nat, pow2(64));
            }
            self
        } else {
            proof {
                lemma_shl_truncate(self as nat, n as nat, 64);
            }
            (self % pow2_u64(64 - n)) * pow2_u64(n)
        }
    }

    fn saturating_shr(self, n: usize) -> (r: Self) {
        if n >= 64 {
            proof {
                lemma_pow2_widths();
                lemma_shr_vanish(self as nat, n as nat, 64);
            }
            0
        } else {
            self / pow2_u64(n)
        }
    }

    fn or_disjoint(self, other: Self, split: Ghost<nat>) -> (r: Self) {
        proof {
            lemma_pow2_widths();
            lemma_disjoint_fits(self as nat, other as nat, split@, 64);
        }
        // On disjoint bit ranges, bitwise or coincides with addition.
        self + other
    }
}

/// The power of two `2^k` as a `u128`, assembled from 64-bit halves.
/// Relies on the vstd correspondence between left shift and multiplication.
fn pow2_u128(k: usize) -> (r: u128)
    requires
        k < 128,
    ensures
        r as nat == pow2(k as nat),
        r >= 1,
{
    proof {
        lemma_pow2_pos(k as nat);
    }
    if k < 64 {
        proof {
            lemma_u64_pow2_no_overflow(k as nat);
            lemma_u64_shl_is_mul(1u64, k as u64);
        }
        (1u64 << (k as u64)) as u128
    } else {
        let lo: u64 = {
            proof {
                lemma_u64_pow2_no_overflow((k - 64) as nat);
                lemma_u64_shl_is_mul(1u64, (k - 64) as u64);
            }
            1u64 << ((k - 64) as u64)
        };
        proof {
            lemma_pow2_adds((k - 64) as nat, 64);
            lemma_pow2_widths();
            lemma_pow2_le((k - 64) as nat, 63);
            lemma2_to64_rest();
        }
        (lo as u128) * 0x1_0000_0000_0000_0000u128
    }
}

impl Uint for u128 {
    open spec fn spec_width() -> nat {
        128
    }

    open spec fn as_nat(self) -> nat {
        self as nat
    }

    proof fn lemma_well_formed(self) {
        lemma_pow2_widths();
    }

    fn width() -> (w: usize) {
        128
    }

    fn zero() -> (r: Self) {
        0
    }

    fn from_u8(b: u8) -> (r: Self) {
        b as u128
    }

    fn as_u8(self) -> (r: u8) {
        proof {
            lemma_pow2_widths();
        }
        (self % 256) as u8
    }

    fn get_bit_slice(self, start: usize, stop: usize) -> (r: Self) {
        proof {
            lemma_pow2_widths();
            lemma_pow2_pos(start as nat);
        }
        if start == stop {
            proof {
                lemma2_to64();
                lemma_mod_one(self as nat / pow2(start as nat));
            }
            return 0;
        }
        let len = stop - start;
        let shifted = self / pow2_u128(start);
        if len == 128 {
            proof {
                lemma2_to64();
                lemma_div_one(self as nat);
                lemma_small_mod(self as nat, pow2(128));
            }
            shifted
        } else {
            shifted % pow2_u128(len)
        }
    }

    fn set_bit_slice(self, start: usize, stop: usize, val: Self) -> (r: Self) {
        let len = stop - start;
        proof {
            lemma_pow2_widths();
            lemma_pow2_pos(start as nat);
            lemma_pow2_pos(len as nat);
            lemma_pow2_pos(stop as nat);
            lemma_set_slice_fits(self as nat, start as nat, len as nat, val as nat, 128);
        }
        if start == 128 {
            proof {
                lemma2_to64();
                lemma_mod_one(val as nat);
                lemma_small_mod(self as nat, pow2(128));
                lemma_basic_div(self as int, pow2(128) as int);
                lemma_mul_basics(pow2(128) as int);
            }
            return self;
        }
        let p_start = pow2_u128(start);
        let low = self % p_start;
        let mid: u128 = if len == 0 {
            proof {
                lemma2_to64();
                lemma_mod_one(val as nat);
            }
            0
        } else if len == 128 {
            proof {
                lemma_small_mod(val as nat, pow2(128));
            }
            val
        } else {
            val % pow2_u128(len)
        };
        let high: u128 = if stop == 128 {
            proof {
                lemma_basic_div(self as int, pow2(128) as int);
            }
            0
        } else {
            (self / pow2_u128(stop)) * pow2_u128(stop)
        };
        proof {
            lemma_mul_basics(pow2(start as nat) as int);
            lemma_mul_basics(pow2(stop as nat) as int);
            lemma_mul_basics(pow2(start as nat + len as nat) as int);
        }
        low + mid * p_start + high
    }

    fn saturating_shl(self, n: usize) -> (r: Self) {
        proof {
            lemma_pow2_widths();
        }
        if n >= 128 {
            proof {
                lemma_shl_vanish(self as nat, n as nat, 128);
            }
            0
        } else if n == 0 {
            proof {
                lemma2_to64();
                lemma_small_mod(self as nat, pow2(128));
            }
            self
        } else {
            proof {
                lemma_shl_truncate(self as nat, n as nat, 128);
            }
            (self % pow2_u128(128 - n)) * pow2_u128(n)
        }
    }

    fn saturating_shr(self, n: usize) -> (r: Self) {
        if n >= 128 {
            proof {
                lemma_pow2_widths();
                lemma_shr_vanish(self as nat, n as nat, 128);
            }
            0
        } else {
            self / pow2_u128(n)
        }
    }

    fn or_disjoint(self, other: Self, split: Ghost<nat>) -> (r: Self) {
        proof {
            lemma_pow2_widths();
            lemma_disjoint_fits(self as nat, other as nat, split@, 128);
        }
        // On disjoint bit ranges, bitwise or coincides with addition.
        self + other
    }
}

} // verus!
