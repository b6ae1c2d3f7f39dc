/*!
A bit-granular binary codec: read and write unsigned integers of arbitrary
bit width from or into a byte buffer, in either Lsb0 or Msb0 bit order,
with no byte-alignment requirement.

The bit stream is addressed by an absolute bit position `p`. Under Lsb0 the
first bit of each byte is its least significant bit; under Msb0 it is the
most significant one. The value carried by a run of bits is pinned down by
the spec functions [`model::lsb_value`] and [`model::msb_value`], and every
read and write is specified against them.
*/

use vstd::prelude::*;
use vstd::arithmetic::power2::{pow2, lemma_pow2_pos, lemma_pow2_adds, lemma2_to64};
use vstd::arithmetic::div_mod::{
    lemma_small_mod,
    lemma_mod_bound,
    lemma_mod_breakdown,
    lemma_mod_multiples_basic,
    lemma_fundamental_div_mod,
};
use vstd::arithmetic::mul::lemma_mul_is_commutative;
use crate::bits::Uint;
use crate::model::{
    lsb_bit,
    msb_bit,
    lsb_value,
    msb_value,
    lemma_lsb_chunk,
    lemma_msb_chunk,
    lemma_lsb_split,
    lemma_msb_split,
    lemma_lsb_value_bound,
    lemma_msb_value_bound,
    lemma_lsb_congruence,
    lemma_msb_congruence,
    lemma_lsb_write_chunk,
    lemma_msb_write_chunk,
    lemma_pos_index,
    lemma_pos_advance,
    lemma_mod_pow2_mod,
    lemma_mul_pow2_bound,
    lemma_pow2_le,
    lemma_div_pow2_add,
    lemma_div_one,
    lemma_mod_one,
};

pub mod bits;
pub mod container;
pub mod model;
pub mod reader;
pub mod writer;

verus! {

/// The recoverable failures of a read or write operation.
#[derive(Debug, Clone, Copy, PartialEq, Eq, Structural)]
pub enum BitError {
    /// The requested length was zero bits.
    ZeroLengthOperation,
    /// The operation would run past the end of the buffer.
    BufferExhausted,
    /// The requested length exceeds the bit width of the integer type.
    WidthExceeded { requested: usize, type_width: usize },
}

/// True when a `len`-bit span starting at the normalized cursor
/// `(byte_index, bit_index)` lies inside a buffer of `data_len` bytes.
fn span_fits(data_len: usize, byte_index: usize, bit_index: usize, len: usize) -> (b: bool)
    requires
        bit_index < 8,
    ensures
        b <==> 8 * (byte_index as nat) + (bit_index as nat) + (len as nat) <= 8 * (
        data_len as nat),
{
    (byte_index as u128) * 8 + (bit_index as u128) + (len as u128) <= (data_len as u128) * 8
}

/// A bit ordering: the rule that says which bit of the buffer is the
/// stream bit at a given absolute position, and therefore what value a run
/// of bits carries. The two implementations are [`Lsb0`] and [`Msb0`].
pub trait BitOrder {
    /// The stream bit at absolute position `p` under this ordering.
    spec fn stream_bit(data: Seq<u8>, p: nat) -> nat;

    /// The value of the `len` stream bits starting at `p` under this
    /// ordering.
    spec fn value_of(data: Seq<u8>, p: nat, len: nat) -> nat;

    /// Read `len` bits of `data` starting at the normalized position
    /// `(byte_index, bit_index)`. Fails on a zero-length request, a length
    /// beyond the width of `T`, or a span past the end of the buffer; on
    /// success the result is exactly the value of those stream bits.
    fn read_bits<T: Uint>(data: &[u8], byte_index: usize, bit_index: usize, len: usize) -> (r:
        Result<T, BitError>)
        requires
            bit_index < 8,
        ensures
            ({
                let pos = 8 * (byte_index as nat) + (bit_index as nat);
                let total = 8 * data@.len();
                &&& (len == 0 ==> r == Err::<T, BitError>(BitError::ZeroLengthOperation))
                &&& (len != 0 && (len as nat) > T::spec_width() ==> r == Err::<T, BitError>(
                    BitError::WidthExceeded { requested: len, type_width: T::spec_width() as usize },
                ))
                &&& (len != 0 && (len as nat) <= T::spec_width() && pos + len > total ==> r
                    == Err::<T, BitError>(BitError::BufferExhausted))
                &&& (len != 0 && (len as nat) <= T::spec_width() && pos + len <= total ==> (
                r matches Ok(v) && v.as_nat() == Self::value_of(data@, pos, len as nat)))
            }),
    ;

    /// Write the low `len` bits of `bits` into `data` starting at the
    /// normalized position `(byte_index, bit_index)`. Fails on a zero-length
    /// request, a length beyond the width of `T`, or a span past the end of
    /// the buffer, leaving the buffer untouched; on success exactly the
    /// `len` target stream bits take the value of `bits`, every other bit
    /// of the buffer is kept.
    fn write_bits<T: Uint>(
        data: &mut Vec<u8>,
        byte_index: usize,
        bit_index: usize,
        len: usize,
        bits: T,
    ) -> (r: Result<(), BitError>)
        requires
            bit_index < 8,
        ensures
            ({
                let pos = 8 * (byte_index as nat) + (bit_index as nat);
                let total = 8 * old(data)@.len();
                &&& final(data)@.len() == old(data)@.len()
                &&& (len == 0 ==> r == Err::<(), BitError>(BitError::ZeroLengthOperation)
                    && final(data)@ == old(data)@)
                &&& (len != 0 && (len as nat) > T::spec_width() ==> r == Err::<(), BitError>(
                    BitError::WidthExceeded { requested: len, type_width: T::spec_width() as usize },
                ) && final(data)@ == old(data)@)
                &&& (len != 0 && (len as nat) <= T::spec_width() && pos + len > total ==> r
                    == Err::<(), BitError>(BitError::BufferExhausted)
                    && final(data)@ == old(data)@)
                &&& (len != 0 && (len as nat) <= T::spec_width() && pos + len <= total ==> {
                    &&& r == Ok::<(), BitError>(())
                    &&& Self::value_of(final(data)@, pos, len as nat) == bits.as_nat() % pow2(
                        len as nat,
                    )
                    &&& forall|q: nat|
                        q < total && !(pos <= q < pos + len)
                            ==> #[trigger] Self::stream_bit(final(data)@, q)
                            == Self::stream_bit(old(data)@, q)
                })
            }),
    ;
}

/// The least-significant-bit-first ordering: within each byte, bit 0 is
/// the first bit of the stream.
#[derive(Debug, Clone, Copy)]
pub struct Lsb0;

/// The most-significant-bit-first ordering: within each byte, bit 7 is
/// the first bit of the stream.
#[derive(Debug, Clone, Copy)]
pub struct Msb0;

impl BitOrder for Lsb0 {
    open spec fn stream_bit(data: Seq<u8>, p: nat) -> nat {
        lsb_bit(data, p)
    }

    open spec fn value_of(data: Seq<u8>, p: nat, len: nat) -> nat {
        lsb_value(data, p, len)
    }

    fn read_bits<T: Uint>(data: &[u8], byte_index: usize, bit_index: usize, len: usize) -> (r:
        Result<T, BitError>) {
        let w = T::width();
        if len == 0 {
            return Err(BitError::ZeroLengthOperation);
        }
        if len > w {
            return Err(BitError::WidthExceeded { requested: len, type_width: w });
        }
        if !span_fits(data.len(), byte_index, bit_index, len) {
            return Err(BitError::BufferExhausted);
        }
        let ghost pos: nat = 8 * (byte_index as nat) + (bit_index as nat);
        let mut bits: T = T::zero();
        let mut byte: usize = byte_index;
        let mut bit: usize = bit_index;
        let mut rem: usize = len;
        proof {
            lemma2_to64();
        }
        while rem != 0
            invariant
                bit < 8,
                rem <= len,
                len as nat <= T::spec_width(),
                8 * (byte as nat) + (bit as nat) == pos + ((len - rem) as nat),
                pos + (len as nat) <= 8 * data@.len(),
                bits.as_nat() == lsb_value(data@, pos, (len - rem) as nat),
                bits.as_nat() < pow2((len - rem) as nat),
            decreases rem,
        {
            let ghost done: nat = (len - rem) as nat;
            let ghost p: nat = pos + done;
            assert(byte < data@.len());
            let avail = 8 - bit;
            let chunk_size = if rem < avail {
                rem
            } else {
                avail
            };
            let b = data[byte];
            let chunk = b.get_bit_slice(bit, bit + chunk_size);
            proof {
                lemma_pos_index(byte as nat, bit as nat);
                lemma_lsb_chunk(data@, p, chunk_size as nat);
                lemma_pow2_pos(bit as nat);
                lemma_pow2_pos(chunk_size as nat);
                lemma_mod_bound((b as nat / pow2(bit as nat)) as int, pow2(chunk_size as nat) as int);
            }
            let chunk_t: T = T::from_u8(chunk);
            let shifted = chunk_t.saturating_shl(len - rem);
            proof {
                lemma_mul_pow2_bound(chunk_t.as_nat(), chunk_size as nat, done);
                lemma_pow2_le(done + (chunk_size as nat), T::spec_width());
                lemma_small_mod(chunk_t.as_nat() * pow2(done), pow2(T::spec_width()));
                lemma_mod_multiples_basic(chunk_t.as_nat() as int, pow2(done) as int);
            }
            bits = shifted.or_disjoint(bits, Ghost(done));
            proof {
                lemma_lsb_split(data@, pos, done, chunk_size as nat);
                lemma_mul_is_commutative(
                    pow2(done) as int,
                    lsb_value(data@, p, chunk_size as nat) as int,
                );
                lemma_lsb_value_bound(data@, pos, done + (chunk_size as nat));
            }
            let ghost ob: nat = byte as nat;
            let ghost obit: nat = bit as nat;
            bit = bit + chunk_size;
            byte = byte + bit / 8;
            bit = bit % 8;
            rem = rem - chunk_size;
            proof {
                lemma_pos_advance(ob, obit, chunk_size as nat);
                lemma_fundamental_div_mod((obit + chunk_size) as int, 8);
            }
        }
        Ok(bits)
    }

    fn write_bits<T: Uint>(
        data: &mut Vec<u8>,
        byte_index: usize,
        bit_index: usize,
        len: usize,
        bits: T,
    ) -> (r: Result<(), BitError>) {
        let w = T::width();
        if len == 0 {
            return Err(BitError::ZeroLengthOperation);
        }
        if len > w {
            return Err(BitError::WidthExceeded { requested: len, type_width: w });
        }
        if !span_fits(data.len(), byte_index, bit_index, len) {
            return Err(BitError::BufferExhausted);
        }
        let ghost pos: nat = 8 * (byte_index as nat) + (bit_index as nat);
        let ghost data0: Seq<u8> = data@;
        let mut cur: T = bits;
        let mut byte: usize = byte_index;
        let mut bit: usize = bit_index;
        let mut rem: usize = len;
        proof {
            lemma2_to64();
            lemma_div_one(bits.as_nat());
            lemma_mod_one(bits.as_nat());
        }
        while rem != 0
            invariant
                bit < 8,
                rem <= len,
                len as nat <= T::spec_width(),
                8 * (byte as nat) + (bit as nat) == pos + ((len - rem) as nat),
                pos + (len as nat) <= 8 * data0.len(),
                data0.len() <= usize::MAX,
                data@.len() == data0.len(),
                cur.as_nat() == bits.as_nat() / pow2((len - rem) as nat),
                lsb_value(data@, pos, (len - rem) as nat) == bits.as_nat() % pow2(
                    (len - rem) as nat,
                ),
                forall|q: nat|
                    q < 8 * data0.len() && !(pos <= q < pos + ((len - rem) as nat))
                        ==> #[trigger] lsb_bit(data@, q) == lsb_bit(data0, q),
            decreases rem,
        {
            let ghost done: nat = (len - rem) as nat;
            let ghost p: nat = pos + done;
            assert(byte < data@.len());
            let avail = 8 - bit;
            let chunk_size = if rem < avail {
                rem
            } else {
                avail
            };
            let chunk = cur.as_u8();
            let b_old = data[byte];
            let b_new = b_old.set_bit_slice(bit, bit + chunk_size, chunk);
            let ghost prev: Seq<u8> = data@;
            data.set(byte, b_new);
            proof {
                lemma_pos_index(byte as nat, bit as nat);
                lemma_lsb_write_chunk(
                    prev,
                    data@,
                    byte as nat,
                    bit as nat,
                    chunk_size as nat,
                    chunk as nat,
                );
                lemma_mod_pow2_mod(cur.as_nat(), chunk_size as nat, 8);
                // the bits already written are untouched by this chunk
                assert forall|i: nat| i < done implies #[trigger] lsb_bit(data@, pos + i)
                    == lsb_bit(prev, pos + i) by {
                    assert(lsb_bit(data@, pos + i) == lsb_bit(prev, pos + i));
                };
                lemma_lsb_congruence(data@, prev, pos, done);
                lemma_lsb_split(data@, pos, done, chunk_size as nat);
                lemma_pow2_pos(done);
                lemma_pow2_pos(chunk_size as nat);
                lemma_mod_breakdown(
                    bits.as_nat() as int,
                    pow2(done) as int,
                    pow2(chunk_size as nat) as int,
                );
                lemma_pow2_adds(done, chunk_size as nat);
                lemma_mul_is_commutative(
                    pow2(done) as int,
                    ((bits.as_nat() / pow2(done)) % pow2(chunk_size as nat)) as int,
                );
                // every stream bit outside the grown span is still the original
                assert forall|q: nat|
                    q < 8 * data0.len() && !(pos <= q < pos + (done + (chunk_size as nat)))
                        implies #[trigger] lsb_bit(data@, q) == lsb_bit(data0, q) by {
                    assert(lsb_bit(data@, q) == lsb_bit(prev, q));
                    assert(lsb_bit(prev, q) == lsb_bit(data0, q));
                };
            }
            cur = cur.saturating_shr(chunk_size);
            proof {
                lemma_div_pow2_add(bits.as_nat(), done, chunk_size as nat);
            }
            let ghost ob: nat = byte as nat;
            let ghost obit: nat = bit as nat;
            bit = bit + chunk_size;
            byte = byte + bit / 8;
            bit = bit % 8;
            rem = rem - chunk_size;
            proof {
                lemma_pos_advance(ob, obit, chunk_size as nat);
                lemma_fundamental_div_mod((obit + chunk_size) as int, 8);
            }
        }
        Ok(())
    }
}

impl BitOrder for Msb0 {
    open spec fn stream_bit(data: Seq<u8>, p: nat) -> nat {
        msb_bit(data, p)
    }

    open spec fn value_of(data: Seq<u8>, p: nat, len: nat) -> nat {
        msb_value(data, p, len)
    }

    fn read_bits<T: Uint>(data: &[u8], byte_index: usize, bit_index: usize, len: usize) -> (r:
        Result<T, BitError>) {
        let w = T::width();
        if len == 0 {
            return Err(BitError::ZeroLengthOperation);
        }
        if len > w {
            return Err(BitError::WidthExceeded { requested: len, type_width: w });
        }
        if !span_fits(data.len(), byte_index, bit_index, len) {
            return Err(BitError::BufferExhausted);
        }
        let ghost pos: nat = 8 * (byte_index as nat) + (bit_index as nat);
        let mut bits: T = T::zero();
        let mut byte: usize = byte_index;
        let mut bit: usize = bit_index;
        let mut rem: usize = len;
        proof {
            lemma2_to64();
        }
        while rem != 0
            invariant
                bit < 8,
                rem <= len,
                len as nat <= T::spec_width(),
                8 * (byte as nat) + (bit as nat) == pos + ((len - rem) as nat),
                pos + (len as nat) <= 8 * data@.len(),
                bits.as_nat() == msb_value(data@, pos, (len - rem) as nat),
                bits.as_nat() < pow2((len - rem) as nat),
            decreases rem,
        {
            let ghost done: nat = (len - rem) as nat;
            let ghost p: nat = pos + done;
            assert(byte < data@.len());
            let avail = 8 - bit;
            let chunk_size = if rem < avail {
                rem
            } else {
                avail
            };
            let b = data[byte];
            let stop_b = 8 - bit;
            let chunk = b.get_bit_slice(stop_b - chunk_size, stop_b);
            proof {
                lemma_pos_index(byte as nat, bit as nat);
                lemma_msb_chunk(data@, p, chunk_size as nat);
                lemma_pow2_pos((stop_b - chunk_size) as nat);
                lemma_pow2_pos(chunk_size as nat);
                lemma_mod_bound(
                    (b as nat / pow2((stop_b - chunk_size) as nat)) as int,
                    pow2(chunk_size as nat) as int,
                );
            }
            let chunk_t: T = T::from_u8(chunk);
            let shifted = bits.saturating_shl(chunk_size);
            proof {
                lemma_mul_pow2_bound(bits.as_nat(), done, chunk_size as nat);
                lemma_pow2_le(done + (chunk_size as nat), T::spec_width());
                lemma_small_mod(bits.as_nat() * pow2(chunk_size as nat), pow2(T::spec_width()));
                lemma_mod_multiples_basic(bits.as_nat() as int, pow2(chunk_size as nat) as int);
            }
            bits = shifted.or_disjoint(chunk_t, Ghost(chunk_size as nat));
            proof {
                lemma_msb_split(data@, pos, done, chunk_size as nat);
                lemma_msb_value_bound(data@, pos, done + (chunk_size as nat));
            }
            let ghost ob: nat = byte as nat;
            let ghost obit: nat = bit as nat;
            bit = bit + chunk_size;
            byte = byte + bit / 8;
            bit = bit % 8;
            rem = rem - chunk_size;
            proof {
                lemma_pos_advance(ob, obit, chunk_size as nat);
                lemma_fundamental_div_mod((obit + chunk_size) as int, 8);
            }
        }
        Ok(bits)
    }

    fn write_bits<T: Uint>(
        data: &mut Vec<u8>,
        byte_index: usize,
        bit_index: usize,
        len: usize,
        bits: T,
    ) -> (r: Result<(), BitError>) {
        let w = T::width();
        if len == 0 {
            return Err(BitError::ZeroLengthOperation);
        }
        if len > w {
            return Err(BitError::WidthExceeded { requested: len, type_width: w });
        }
        if !span_fits(data.len(), byte_index, bit_index, len) {
            return Err(BitError::BufferExhausted);
        }
        let ghost pos: nat = 8 * (byte_index as nat) + (bit_index as nat);
        let ghost data0: Seq<u8> = data@;
        let mut byte: usize = byte_index;
        let mut bit: usize = bit_index;
        let mut rem: usize = len;
        proof {
            lemma2_to64();
            lemma_pow2_pos(len as nat);
            lemma_mod_one(bits.as_nat() / pow2(len as nat));
        }
        while rem != 0
            invariant
                bit < 8,
                rem <= len,
                len as nat <= T::spec_width(),
                8 * (byte as nat) + (bit as nat) == pos + ((len - rem) as nat),
                pos + (len as nat) <= 8 * data0.len(),
                data0.len() <= usize::MAX,
                data@.len() == data0.len(),
                msb_value(data@, pos, (len - rem) as nat) == (bits.as_nat() / pow2(rem as nat))
                    % pow2((len - rem) as nat),
                forall|q: nat|
                    q < 8 * data0.len() && !(pos <= q < pos + ((len - rem) as nat))
                        ==> #[trigger] msb_bit(data@, q) == msb_bit(data0, q),
            decreases rem,
        {
            let ghost done: nat = (len - rem) as nat;
            let ghost p: nat = pos + done;
            let ghost v: nat = bits.as_nat();
            assert(byte < data@.len());
            let avail = 8 - bit;
            let chunk_size = if rem < avail {
                rem
            } else {
                avail
            };
            let chunk_t = bits.get_bit_slice(rem - chunk_size, rem);
            let chunk = chunk_t.as_u8();
            proof {
                lemma_pow2_pos((rem - chunk_size) as nat);
                lemma_pow2_pos(chunk_size as nat);
                lemma_mod_bound(
                    (v / pow2((rem - chunk_size) as nat)) as int,
                    pow2(chunk_size as nat) as int,
                );
                lemma_pow2_le(chunk_size as nat, 8);
                lemma_small_mod(chunk_t.as_nat(), pow2(8));
                lemma_small_mod(chunk_t.as_nat(), pow2(chunk_size as nat));
            }
            let b_old = data[byte];
            let stop_b = 8 - bit;
            let b_new = b_old.set_bit_slice(stop_b - chunk_size, stop_b, chunk);
            let ghost prev: Seq<u8> = data@;
            data.set(byte, b_new);
            proof {
                lemma_pos_index(byte as nat, bit as nat);
                lemma_msb_write_chunk(
                    prev,
                    data@,
                    byte as nat,
                    bit as nat,
                    chunk_size as nat,
                    chunk as nat,
                );
                // the bits already written are untouched by this chunk
                assert forall|i: nat| i < done implies #[trigger] msb_bit(data@, pos + i)
                    == msb_bit(prev, pos + i) by {
                    assert(msb_bit(data@, pos + i) == msb_bit(prev, pos + i));
                };
                lemma_msb_congruence(data@, prev, pos, done);
                lemma_msb_split(data@, pos, done, chunk_size as nat);
                // the grown prefix of the value splits the same way
                let x = v / pow2((rem - chunk_size) as nat);
                lemma_div_pow2_add(v, (rem - chunk_size) as nat, chunk_size as nat);
                lemma_pow2_pos(done);
                lemma_mod_breakdown(
                    x as int,
                    pow2(chunk_size as nat) as int,
                    pow2(done) as int,
                );
                lemma_pow2_adds(chunk_size as nat, done);
                lemma_mul_is_commutative(
                    pow2(chunk_size as nat) as int,
                    ((x / pow2(chunk_size as nat)) % pow2(done)) as int,
                );
                // every stream bit outside the grown span is still the original
                assert forall|q: nat|
                    q < 8 * data0.len() && !(pos <= q < pos + (done + (chunk_size as nat)))
                        implies #[trigger] msb_bit(data@, q) == msb_bit(data0, q) by {
                    assert(msb_bit(data@, q) == msb_bit(prev, q));
                    assert(msb_bit(prev, q) == msb_bit(data0, q));
                };
            }
            let ghost ob: nat = byte as nat;
            let ghost obit: nat = bit as nat;
            bit = bit + chunk_size;
            byte = byte + bit / 8;
            bit = bit % 8;
            rem = rem - chunk_size;
            proof {
                lemma_pos_advance(ob, obit, chunk_size as nat);
                lemma_fundamental_div_mod((obit + chunk_size) as int, 8);
            }
        }
        proof {
            lemma_div_one(bits.as_nat());
        }
        Ok(())
    }
}

/// Advance a normalized cursor by `delta` bits, carrying whole bytes into
/// the byte index.
pub(crate) fn advance_cursor(byte_index: usize, bit_index: usize, delta: usize) -> (r: (
    usize,
    usize,
))
    requires
        bit_index < 8,
        8 * (byte_index as nat) + (bit_index as nat) + (delta as nat) <= 8 * (usize::MAX as nat)
            + 7,
    ensures
        8 * (r.0 as nat) + (r.1 as nat) == 8 * (byte_index as nat) + (bit_index as nat) + (
        delta as nat),
        r.1 < 8,
{
    let s: u128 = bit_index as u128 + delta as u128;
    let b2: u128 = byte_index as u128 + s / 8;
    proof {
        lemma_pos_advance(byte_index as nat, bit_index as nat, delta as nat);
        lemma_fundamental_div_mod(s as int, 8);
        lemma_mod_bound(s as int, 8);
    }
    (b2 as usize, (s % 8) as usize)
}

/// Round trip under Lsb0: a buffer that holds, at position `pos`, the
/// `len`-bit image of a value `v` — the state in which `write_bits` leaves
/// it — yields exactly `v` when the same `len` bits are read back at `pos`.
pub proof fn lemma_round_trip_lsb(data: Seq<u8>, pos: nat, len: nat, v: nat)
    requires
        v < pow2(len),
        lsb_value(data, pos, len) == v % pow2(len),
    ensures
        lsb_value(data, pos, len) == v,
{
    lemma_pow2_pos(len);
    lemma_small_mod(v, pow2(len));
}

/// Round trip under Msb0: a buffer that holds, at position `pos`, the
/// `len`-bit image of a value `v` — the state in which `write_bits` leaves
/// it — yields exactly `v` when the same `len` bits are read back at `pos`.
pub proof fn lemma_round_trip_msb(data: Seq<u8>, pos: nat, len: nat, v: nat)
    requires
        v < pow2(len),
        msb_value(data, pos, len) == v % pow2(len),
    ensures
        msb_value(data, pos, len) == v,
{
    lemma_pow2_pos(len);
    lemma_small_mod(v, pow2(len));
}

} // verus!
