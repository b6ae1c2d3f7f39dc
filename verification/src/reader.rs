//! Order-specific stateful readers, and stateless read entry points for
//! callers that keep their own cursor.

use vstd::prelude::*;
use crate::bits::Uint;
use crate::model::{lsb_value, msb_value};
use crate::{advance_cursor, BitError, BitOrder, Lsb0, Msb0};

verus! {

/// Read bits from a borrowed byte buffer in Msb0 order.
pub struct BitReaderMsb<'a> {
    data: &'a [u8],
    index: usize,
    bit_index: usize,
}

impl<'a> BitReaderMsb<'a> {
    /// The bit index stays inside one byte. It counts downward: the next
    /// stream bit within the current byte is the byte's bit `bit_index`.
    pub closed spec fn wf(self) -> bool {
        self.bit_index < 8
    }

    /// The buffer the reader walks.
    pub closed spec fn buf(self) -> Seq<u8> {
        self.data@
    }

    /// The absolute bit position of the cursor.
    pub closed spec fn pos(self) -> nat {
        8 * (self.index as nat) + ((7 - self.bit_index) as nat)
    }

    /// A reader over `data` with the cursor at the first bit: the most
    /// significant bit of the first byte.
    pub fn new(data: &'a [u8]) -> (r: BitReaderMsb<'a>)
        ensures
            r.wf(),
            r.buf() == data@,
            r.pos() == 0,
    {
        BitReaderMsb { data, index: 0, bit_index: 7 }
    }

    /// Read `len` bits at the cursor and advance it by exactly `len` on
    /// success; the result is the Msb0 value of those stream bits. On
    /// failure the cursor is kept and the error says why.
    pub fn read_bits<T: Uint>(&mut self, len: usize) -> (r: Result<T, BitError>)
        requires
            old(self).wf(),
        ensures
            final(self).wf(),
            final(self).buf() == old(self).buf(),
            ({
                let pos = old(self).pos();
                let total = 8 * old(self).buf().len();
                &&& (len == 0 ==> r == Err::<T, BitError>(BitError::ZeroLengthOperation)
                    && final(self).pos() == pos)
                &&& (len != 0 && (len as nat) > T::spec_width() ==> r == Err::<T, BitError>(
                    BitError::WidthExceeded { requested: len, type_width: T::spec_width() as usize },
                ) && final(self).pos() == pos)
                &&& (len != 0 && (len as nat) <= T::spec_width() && pos + len > total ==> r
                    == Err::<T, BitError>(BitError::BufferExhausted) && final(self).pos() == pos)
                &&& (len != 0 && (len as nat) <= T::spec_width() && pos + len <= total ==> (
                r matches Ok(v) && v.as_nat() == msb_value(old(self).buf(), pos, len as nat)
                    && final(self).pos() == pos + len))
            }),
    {
        // the length call pins the buffer length below usize::MAX
        let dl = self.data.len();
        proof {
            assert(dl as nat == self.data@.len());
        }
        let res = Msb0::read_bits::<T>(self.data, self.index, 7 - self.bit_index, len);
        match res {
            Ok(v) => {
                self.advance(len);
                Ok(v)
            },
            Err(e) => Err(e),
        }
    }

    /// Move the cursor forward by `bits` bit positions.
    pub fn advance(&mut self, bits: usize)
        requires
            old(self).wf(),
            old(self).pos() + bits <= 8 * (usize::MAX as nat) + 7,
        ensures
            final(self).wf(),
            final(self).buf() == old(self).buf(),
            final(self).pos() == old(self).pos() + bits,
    {
        let (b, i) = advance_cursor(self.index, 7 - self.bit_index, bits);
        self.index = b;
        self.bit_index = 7 - i;
    }
}

/// Read bits from a borrowed byte buffer in Lsb0 order.
pub struct BitReaderLsb<'a> {
    data: &'a [u8],
    index: usize,
    bit_index: usize,
}

impl<'a> BitReaderLsb<'a> {
    /// The bit index stays inside one byte: the next stream bit within the
    /// current byte is the byte's bit `bit_index`.
    pub closed spec fn wf(self) -> bool {
        self.bit_index < 8
    }

    /// The buffer the reader walks.
    pub closed spec fn buf(self) -> Seq<u8> {
        self.data@
    }

    /// The absolute bit position of the cursor.
    pub closed spec fn pos(self) -> nat {
        8 * (self.index as nat) + (self.bit_index as nat)
    }

    /// A reader over `data` with the cursor at the first bit: the least
    /// significant bit of the first byte.
    pub fn new(data: &'a [u8]) -> (r: BitReaderLsb<'a>)
        ensures
            r.wf(),
            r.buf() == data@,
            r.pos() == 0,
    {
        BitReaderLsb { data, index: 0, bit_index: 0 }
    }

    /// Read `len` bits at the cursor and advance it by exactly `len` on
    /// success; the result is the Lsb0 value of those stream bits. On
    /// failure the cursor is kept and the error says why.
    pub fn read_bits<T: Uint>(&mut self, len: usize) -> (r: Result<T, BitError>)
        requires
            old(self).wf(),
        ensures
            final(self).wf(),
            final(self).buf() == old(self).buf(),
            ({
                let pos = old(self).pos();
                let total = 8 * old(self).buf().len();
                &&& (len == 0 ==> r == Err::<T, BitError>(BitError::ZeroLengthOperation)
                    && final(self).pos() == pos)
                &&& (len != 0 && (len as nat) > T::spec_width() ==> r == Err::<T, BitError>(
                    BitError::WidthExceeded { requested: len, type_width: T::spec_width() as usize },
                ) && final(self).pos() == pos)
                &&& (len != 0 && (len as nat) <= T::spec_width() && pos + len > total ==> r
                    == Err::<T, BitError>(BitError::BufferExhausted) && final(self).pos() == pos)
                &&& (len != 0 && (len as nat) <= T::spec_width() && pos + len <= total ==> (
                r matches Ok(v) && v.as_nat() == lsb_value(old(self).buf(), pos, len as nat)
                    && final(self).pos() == pos + len))
            }),
    {
        // the length call pins the buffer length below usize::MAX
        let dl = self.data.len();
        proof {
            assert(dl as nat == self.data@.len());
        }
        let res = Lsb0::read_bits::<T>(self.data, self.index, self.bit_index, len);
        match res {
            Ok(v) => {
                self.advance(len);
                Ok(v)
            },
            Err(e) => Err(e),
        }
    }

    /// Move the cursor forward by `bits` bit positions.
    pub fn advance(&mut self, bits: usize)
        requires
            old(self).wf(),
            old(self).pos() + bits <= 8 * (usize::MAX as nat) + 7,
        ensures
            final(self).wf(),
            final(self).buf() == old(self).buf(),
            final(self).pos() == old(self).pos() + bits,
    {
        let (b, i) = advance_cursor(self.index, self.bit_index, bits);
        self.index = b;
        self.bit_index = i;
    }
}

/// Read `len` bits in Lsb0 order at an explicit normalized position; the
/// caller keeps its own cursor.
pub fn read_bits_lsb<T: Uint>(data: &[u8], byte_index: usize, bit_index: usize, len: usize) -> (r:
    Result<T, BitError>)
    requires
        bit_index < 8,
    ensures
        ({
            let pos = 8 * (byte_index as nat) + (bit_index as nat);
            let total = 8 * data@.len();
            &&& (len == 0 ==> r == Err::<T, BitError>(BitError::ZeroLengthOperation))
            &&& (len != 0 && (len as nat) > T::spec_width() ==> r == Err::<T, BitError>(
                BitError::WidthExceeded { requested: len, type_width: T::spec_width() as usize },
            ))
            &&& (len != 0 && (len as nat) <= T::spec_width() && pos + len > total ==> r == Err::<
                T,
                BitError,
            >(BitError::BufferExhausted))
            &&& (len != 0 && (len as nat) <= T::spec_width() && pos + len <= total ==> (
            r matches Ok(v) && v.as_nat() == lsb_value(data@, pos, len as nat)))
        }),
{
    Lsb0::read_bits::<T>(data, byte_index, bit_index, len)
}

/// Read `len` bits in Msb0 order at an explicit normalized position; the
/// caller keeps its own cursor.
pub fn read_bits_msb<T: Uint>(data: &[u8], byte_index: usize, bit_index: usize, len: usize) -> (r:
    Result<T, BitError>)
    requires
        bit_index < 8,
    ensures
        ({
            let pos = 8 * (byte_index as nat) + (bit_index as nat);
            let total = 8 * data@.len();
            &&& (len == 0 ==> r == Err::<T, BitError>(BitError::ZeroLengthOperation))
            &&& (len != 0 && (len as nat) > T::spec_width() ==> r == Err::<T, BitError>(
                BitError::WidthExceeded { requested: len, type_width: T::spec_width() as usize },
            ))
            &&& (len != 0 && (len as nat) <= T::spec_width() && pos + len > total ==> r == Err::<
                T,
                BitError,
            >(BitError::BufferExhausted))
            &&& (len != 0 && (len as nat) <= T::spec_width() && pos + len <= total ==> (
            r matches Ok(v) && v.as_nat() == msb_value(data@, pos, len as nat)))
        }),
{
    Msb0::read_bits::<T>(data, byte_index, bit_index, len)
}

} // verus!
