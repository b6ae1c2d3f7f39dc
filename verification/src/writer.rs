//! Order-specific stateful writers, and stateless write entry points for
//! callers that keep their own cursor.

use vstd::prelude::*;
use vstd::arithmetic::power2::pow2;
use crate::bits::Uint;
use crate::model::{lsb_bit, msb_bit, lsb_value, msb_value};
use crate::{advance_cursor, BitError, BitOrder, Lsb0, Msb0};

verus! {

/// Write bits into an owned byte buffer in Msb0 order. The buffer is taken
/// over at construction and handed back by [`BitWriterMsb::into_inner`].
pub struct BitWriterMsb {
    data: Vec<u8>,
    index: usize,
    bit_index: usize,
}

impl BitWriterMsb {
    /// The bit index stays inside one byte. It counts downward: the next
    /// stream bit within the current byte is the byte's bit `bit_index`.
    pub closed spec fn wf(self) -> bool {
        self.bit_index < 8
    }

    /// The buffer the writer fills.
    pub closed spec fn buf(self) -> Seq<u8> {
        self.data@
    }

    /// The absolute bit position of the cursor.
    pub closed spec fn pos(self) -> nat {
        8 * (self.index as nat) + ((7 - self.bit_index) as nat)
    }

    /// A writer over `data` with the cursor at the first bit: the most
    /// significant bit of the first byte.
    pub fn new(data: Vec<u8>) -> (r: BitWriterMsb)
        ensures
            r.wf(),
            r.buf() == data@,
            r.pos() == 0,
    {
        BitWriterMsb { data, index: 0, bit_index: 7 }
    }

    /// Write the low `len` bits of `n` at the cursor and advance it by
    /// exactly `len` on success: those stream bits take the value of `n`
    /// in Msb0 order, every other bit of the buffer is kept. On failure
    /// the cursor and the buffer are kept and the error says why.
    pub fn write_bits<T: Uint>(&mut self, n: T, len: usize) -> (r: Result<(), BitError>)
        requires
            old(self).wf(),
        ensures
            final(self).wf(),
            final(self).buf().len() == old(self).buf().len(),
            ({
                let pos = old(self).pos();
                let total = 8 * old(self).buf().len();
                &&& (len == 0 ==> r == Err::<(), BitError>(BitError::ZeroLengthOperation)
                    && final(self).pos() == pos && final(self).buf() == old(self).buf())
                &&& (len != 0 && (len as nat) > T::spec_width() ==> r == Err::<(), BitError>(
                    BitError::WidthExceeded { requested: len, type_width: T::spec_width() as usize },
                ) && final(self).pos() == pos && final(self).buf() == old(self).buf())
                &&& (len != 0 && (len as nat) <= T::spec_width() && pos + len > total ==> r
                    == Err::<(), BitError>(BitError::BufferExhausted) && final(self).pos() == pos
                    && final(self).buf() == old(self).buf())
                &&& (len != 0 && (len as nat) <= T::spec_width() && pos + len <= total ==> {
                    &&& r == Ok::<(), BitError>(())
                    &&& msb_value(final(self).buf(), pos, len as nat) == n.as_nat() % pow2(
                        len as nat,
                    )
                    &&& forall|q: nat|
                        q < total && !(pos <= q < pos + len) ==> #[trigger] msb_bit(
                            final(self).buf(),
                            q,
                        ) == msb_bit(old(self).buf(), q)
                    &&& final(self).pos() == pos + len
                })
            }),
    {
        // the length call pins the buffer length below usize::MAX
        let dl = self.data.len();
        proof {
            assert(dl as nat == self.data@.len());
        }
        let res = Msb0::write_bits::<T>(&mut self.data, self.index, 7 - self.bit_index, len, n);
        match res {
            Ok(_) => {
                proof {
                    assert forall|q: nat|
                        q < 8 * old(self).buf().len() && !(old(self).pos() <= q < old(self).pos()
                            + len) implies #[trigger] msb_bit(self.data@, q) == msb_bit(
                        old(self).buf(),
                        q,
                    ) by {
                        assert(Msb0::stream_bit(self.data@, q) == Msb0::stream_bit(
                            old(self).buf(),
                            q,
                        ));
                    };
                }
                self.advance(len);
                Ok(())
            },
            Err(e) => Err(e),
        }
    }

    /// Move the cursor forward by `bits` bit positions.
    pub fn advance(&mut self, bits: usize)
        requires
            old(self).wf(),
            old(self).pos() + bits <= 8 * (usize::MAX as nat) + 7,
        ensures
            final(self).wf(),
            final(self).buf() == old(self).buf(),
            final(self).pos() == old(self).pos() + bits,
    {
        let (b, i) = advance_cursor(self.index, 7 - self.bit_index, bits);
        self.index = b;
        self.bit_index = 7 - i;
    }

    /// Hand the buffer back to the caller.
    pub fn into_inner(self) -> (r: Vec<u8>)
        ensures
            r@ == self.buf(),
    {
        self.data
    }
}

/// Write bits into an owned byte buffer in Lsb0 order. The buffer is taken
/// over at construction and handed back by [`BitWriterLsb::into_inner`].
pub struct BitWriterLsb {
    data: Vec<u8>,
    index: usize,
    bit_index: usize,
}

impl BitWriterLsb {
    /// The bit index stays inside one byte: the next stream bit within the
    /// current byte is the byte's bit `bit_index`.
    pub closed spec fn wf(self) -> bool {
        self.bit_index < 8
    }

    /// The buffer the writer fills.
    pub closed spec fn buf(self) -> Seq<u8> {
        self.data@
    }

    /// The absolute bit position of the cursor.
    pub closed spec fn pos(self) -> nat {
        8 * (self.index as nat) + (self.bit_index as nat)
    }

    /// A writer over `data` with the cursor at the first bit: the least
    /// significant bit of the first byte.
    pub fn new(data: Vec<u8>) -> (r: BitWriterLsb)
        ensures
            r.wf(),
            r.buf() == data@,
            r.pos() == 0,
    {
        BitWriterLsb { data, index: 0, bit_index: 0 }
    }

    /// Write the low `len` bits of `n` at the cursor and advance it by
    /// exactly `len` on success: those stream bits take the value of `n`
    /// in Lsb0 order, every other bit of the buffer is kept. On failure
    /// the cursor and the buffer are kept and the error says why.
    pub fn write_bits<T: Uint>(&mut self, n: T, len: usize) -> (r: Result<(), BitError>)
        requires
            old(self).wf(),
        ensures
            final(self).wf(),
            final(self).buf().len() == old(self).buf().len(),
            ({
                let pos = old(self).pos();
                let total = 8 * old(self).buf().len();
                &&& (len == 0 ==> r == Err::<(), BitError>(BitError::ZeroLengthOperation)
                    && final(self).pos() == pos && final(self).buf() == old(self).buf())
                &&& (len != 0 && (len as nat) > T::spec_width() ==> r == Err::<(), BitError>(
                    BitError::WidthExceeded { requested: len, type_width: T::spec_width() as usize },
                ) && final(self).pos() == pos && final(self).buf() == old(self).buf())
                &&& (len != 0 && (len as nat) <= T::spec_width() && pos + len > total ==> r
                    == Err::<(), BitError>(BitError::BufferExhausted) && final(self).pos() == pos
                    && final(self).buf() == old(self).buf())
                &&& (len != 0 && (len as nat) <= T::spec_width() && pos + len <= total ==> {
                    &&& r == Ok::<(), BitError>(())
                    &&& lsb_value(final(self).buf(), pos, len as nat) == n.as_nat() % pow2(
                        len as nat,
                    )
                    &&& forall|q: nat|
                        q < total && !(pos <= q < pos + len) ==> #[trigger] lsb_bit(
                            final(self).buf(),
                            q,
                        ) == lsb_bit(old(self).buf(), q)
                    &&& final(self).pos() == pos + len
                })
            }),
    {
        // the length call pins the buffer length below usize::MAX
        let dl = self.data.len();
        proof {
            assert(dl as nat == self.data@.len());
        }
        let res = Lsb0::write_bits::<T>(&mut self.data, self.index, self.bit_index, len, n);
        match res {
            Ok(_) => {
                proof {
                    assert forall|q: nat|
                        q < 8 * old(self).buf().len() && !(old(self).pos() <= q < old(self).pos()
                            + len) implies #[trigger] lsb_bit(self.data@, q) == lsb_bit(
                        old(self).buf(),
                        q,
                    ) by {
                        assert(Lsb0::stream_bit(self.data@, q) == Lsb0::stream_bit(
                            old(self).buf(),
                            q,
                        ));
                    };
                }
                self.advance(len);
                Ok(())
            },
            Err(e) => Err(e),
        }
    }

    /// Move the cursor forward by `bits` bit positions.
    pub fn advance(&mut self, bits: usize)
        requires
            old(self).wf(),
            old(self).pos() + bits <= 8 * (usize::MAX as nat) + 7,
        ensures
            final(self).wf(),
            final(self).buf() == old(self).buf(),
            final(self).pos() == old(self).pos() + bits,
    {
        let (b, i) = advance_cursor(self.index, self.bit_index, bits);
        self.index = b;
        self.bit_index = i;
    }

    /// Hand the buffer back to the caller.
    pub fn into_inner(self) -> (r: Vec<u8>)
        ensures
            r@ == self.buf(),
    {
        self.data
    }
}

/// Write the low `len` bits of `bits` in Lsb0 order at an explicit
/// normalized position; the caller keeps its own cursor.
pub fn write_bits_lsb<T: Uint>(
    data: &mut Vec<u8>,
    byte_index: usize,
    bit_index: usize,
    len: usize,
    bits: T,
) -> (r: Result<(), BitError>)
    requires
        bit_index < 8,
    ensures
        ({
            let pos = 8 * (byte_index as nat) + (bit_index as nat);
            let total = 8 * old(data)@.len();
            &&& final(data)@.len() == old(data)@.len()
            &&& (len == 0 ==> r == Err::<(), BitError>(BitError::ZeroLengthOperation)
                && final(data)@ == old(data)@)
            &&& (len != 0 && (len as nat) > T::spec_width() ==> r == Err::<(), BitError>(
                BitError::WidthExceeded { requested: len, type_width: T::spec_width() as usize },
            ) && final(data)@ == old(data)@)
            &&& (len != 0 && (len as nat) <= T::spec_width() && pos + len > total ==> r == Err::<
                (),
                BitError,
            >(BitError::BufferExhausted) && final(data)@ == old(data)@)
            &&& (len != 0 && (len as nat) <= T::spec_width() && pos + len <= total ==> {
                &&& r == Ok::<(), BitError>(())
                &&& lsb_value(final(data)@, pos, len as nat) == bits.as_nat() % pow2(len as nat)
                &&& forall|q: nat|
                    q < total && !(pos <= q < pos + len) ==> #[trigger] lsb_bit(final(data)@, q)
                        == lsb_bit(old(data)@, q)
            })
        }),
{
    let r = Lsb0::write_bits::<T>(data, byte_index, bit_index, len, bits);
    proof {
        assert forall|q: nat|
            q < 8 * old(data)@.len() && !(8 * (byte_index as nat) + (bit_index as nat) <= q < 8 * (
            byte_index as nat) + (bit_index as nat) + len) implies #[trigger] lsb_bit(data@, q)
            == lsb_bit(old(data)@, q) by {
            assert(Lsb0::stream_bit(data@, q) == Lsb0::stream_bit(old(data)@, q));
        };
    }
    r
}

/// Write the low `len` bits of `bits` in Msb0 order at an explicit
/// normalized position; the caller keeps its own cursor.
pub fn write_bits_msb<T: Uint>(
    data: &mut Vec<u8>,
    byte_index: usize,
    bit_index: usize,
    len: usize,
    bits: T,
) -> (r: Result<(), BitError>)
    requires
        bit_index < 8,
    ensures
        ({
            let pos = 8 * (byte_index as nat) + (bit_index as nat);
            let total = 8 * old(data)@.len();
            &&& final(data)@.len() == old(data)@.len()
            &&& (len == 0 ==> r == Err::<(), BitError>(BitError::ZeroLengthOperation)
                && final(data)@ == old(data)@)
            &&& (len != 0 && (len as nat) > T::spec_width() ==> r == Err::<(), BitError>(
                BitError::WidthExceeded { requested: len, type_width: T::spec_width() as usize },
            ) && final(data)@ == old(data)@)
            &&& (len != 0 && (len as nat) <= T::spec_width() && pos + len > total ==> r == Err::<
                (),
                BitError,
            >(BitError::BufferExhausted) && final(data)@ == old(data)@)
            &&& (len != 0 && (len as nat) <= T::spec_width() && pos + len <= total ==> {
                &&& r == Ok::<(), BitError>(())
                &&& msb_value(final(data)@, pos, len as nat) == bits.as_nat() % pow2(len as nat)
                &&& forall|q: nat|
                    q < total && !(pos <= q < pos + len) ==> #[trigger] msb_bit(final(data)@, q)
                        == msb_bit(old(data)@, q)
            })
        }),
{
    let r = Msb0::write_bits::<T>(data, byte_index, bit_index, len, bits);
    proof {
        assert forall|q: nat|
            q < 8 * old(data)@.len() && !(8 * (byte_index as nat) + (bit_index as nat) <= q < 8 * (
            byte_index as nat) + (bit_index as nat) + len) implies #[trigger] msb_bit(data@, q)
            == msb_bit(old(data)@, q) by {
            assert(Msb0::stream_bit(data@, q) == Msb0::stream_bit(old(data)@, q));
        };
    }
    r
}

} // verus!
