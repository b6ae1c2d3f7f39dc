//! Stateful cursor wrappers, generic over the bit ordering.
//!
//! `BitReader` borrows a byte buffer and `BitWriter` owns one; each keeps
//! a normalized `(byte_index, bit_index)` cursor that advances by exactly
//! the number of bits consumed or produced by a successful operation, and
//! stands still on failure.

use core::marker::PhantomData;
use vstd::prelude::*;
use vstd::arithmetic::power2::pow2;
use crate::bits::Uint;
use crate::{advance_cursor, BitError, BitOrder};

verus! {

/// Read bits from a borrowed byte buffer in the order `B`, with a cursor
/// that starts at the first bit.
pub struct BitReader<'a, B: BitOrder> {
    data: &'a [u8],
    byte_index: usize,
    bit_index: usize,
    order: PhantomData<B>,
}

impl<'a, B: BitOrder> BitReader<'a, B> {
    /// The cursor is normalized: the bit index stays inside one byte.
    pub closed spec fn wf(self) -> bool {
        self.bit_index < 8
    }

    /// The buffer the reader walks.
    pub closed spec fn buf(self) -> Seq<u8> {
        self.data@
    }

    /// The absolute bit position of the cursor.
    pub closed spec fn pos(self) -> nat {
        8 * (self.byte_index as nat) + (self.bit_index as nat)
    }

    /// A reader over `data` with the cursor at the first bit.
    pub fn new(data: &'a [u8]) -> (r: BitReader<'a, B>)
        ensures
            r.wf(),
            r.buf() == data@,
            r.pos() == 0,
    {
        BitReader { data, byte_index: 0, bit_index: 0, order: PhantomData }
    }

    /// Read `len` bits at the cursor and advance it by exactly `len` on
    /// success; on failure the cursor is kept and the error says why.
    pub fn read_bits<T: Uint>(&mut self, len: usize) -> (r: Result<T, BitError>)
        requires
            old(self).wf(),
        ensures
            final(self).wf(),
            final(self).buf() == old(self).buf(),
            ({
                let pos = old(self).pos();
                let total = 8 * old(self).buf().len();
                &&& (len == 0 ==> r == Err::<T, BitError>(BitError::ZeroLengthOperation) && final(self).pos() == pos)
                &&& (len != 0 && (len as nat) > T::spec_width() ==> r == Err::<T, BitError>(
                    BitError::WidthExceeded { requested: len, type_width: T::spec_width() as usize },
                ) && final(self).pos() == pos)
                &&& (len != 0 && (len as nat) <= T::spec_width() && pos + len > total ==> r
                    == Err::<T, BitError>(BitError::BufferExhausted) && final(self).pos() == pos)
                &&& (len != 0 && (len as nat) <= T::spec_width() && pos + len <= total ==> (
                r matches Ok(v) && v.as_nat() == B::value_of(old(self).buf(), pos, len as nat)
                    && final(self).pos() == pos + len))
            }),
    {
        // the length call pins the buffer length below usize::MAX
        let dl = self.data.len();
        proof {
            assert(dl as nat == self.data@.len());
        }
        let res = B::read_bits::<T>(self.data, self.byte_index, self.bit_index, len);
        match res {
            Ok(v) => {
                let (b, i) = advance_cursor(self.byte_index, self.bit_index, len);
                self.byte_index = b;
                self.bit_index = i;
                Ok(v)
            },
            Err(e) => Err(e),
        }
    }
}

/// Write bits into an owned byte buffer in the order `B`, with a cursor
/// that starts at the first bit. The buffer is taken over at construction
/// and handed back by [`BitWriter::into_inner`].
pub struct BitWriter<B: BitOrder> {
    data: Vec<u8>,
    byte_index: usize,
    bit_index: usize,
    order: PhantomData<B>,
}

impl<B: BitOrder> BitWriter<B> {
    /// The cursor is normalized: the bit index stays inside one byte.
    pub closed spec fn wf(self) -> bool {
        self.bit_index < 8
    }

    /// The buffer the writer fills.
    pub closed spec fn buf(self) -> Seq<u8> {
        self.data@
    }

    /// The absolute bit position of the cursor.
    pub closed spec fn pos(self) -> nat {
        8 * (self.byte_index as nat) + (self.bit_index as nat)
    }

    /// A writer over `data` with the cursor at the first bit.
    pub fn new(data: Vec<u8>) -> (r: BitWriter<B>)
        ensures
            r.wf(),
            r.buf() == data@,
            r.pos() == 0,
    {
        BitWriter { data, byte_index: 0, bit_index: 0, order: PhantomData }
    }

    /// Write the low `len` bits of `bits` at the cursor and advance it by
    /// exactly `len` on success; on failure the cursor and the buffer are
    /// kept and the error says why.
    pub fn write_bits<T: Uint>(&mut self, len: usize, bits: T) -> (r: Result<(), BitError>)
        requires
            old(self).wf(),
        ensures
            final(self).wf(),
            final(self).buf().len() == old(self).buf().len(),
            ({
                let pos = old(self).pos();
                let total = 8 * old(self).buf().len();
                &&& (len == 0 ==> r == Err::<(), BitError>(BitError::ZeroLengthOperation) && final(self).pos() == pos && final(self).buf() == old(self).buf())
                &&& (len != 0 && (len as nat) > T::spec_width() ==> r == Err::<(), BitError>(
                    BitError::WidthExceeded { requested: len, type_width: T::spec_width() as usize },
                ) && final(self).pos() == pos && final(self).buf() == old(self).buf())
                &&& (len != 0 && (len as nat) <= T::spec_width() && pos + len > total ==> r
                    == Err::<(), BitError>(BitError::BufferExhausted) && final(self).pos() == pos
                    && final(self).buf() == old(self).buf())
                &&& (len != 0 && (len as nat) <= T::spec_width() && pos + len <= total ==> {
                    &&& r == Ok::<(), BitError>(())
                    &&& B::value_of(final(self).buf(), pos, len as nat) == bits.as_nat() % pow2(
                        len as nat,
                    )
                    &&& forall|q: nat|
                        q < total && !(pos <= q < pos + len)
                            ==> #[trigger] B::stream_bit(final(self).buf(), q)
                            == B::stream_bit(old(self).buf(), q)
                    &&& final(self).pos() == pos + len
                })
            }),
    {
        // the length call pins the buffer length below usize::MAX
        let dl = self.data.len();
        proof {
            assert(dl as nat == self.data@.len());
        }
        let res = B::write_bits::<T>(&mut self.data, self.byte_index, self.bit_index, len, bits);
        match res {
            Ok(_) => {
                let (b, i) = advance_cursor(self.byte_index, self.bit_index, len);
                self.byte_index = b;
                self.bit_index = i;
                Ok(())
            },
            Err(e) => Err(e),
        }
    }

    /// Hand the buffer back to the caller.
    pub fn into_inner(self) -> (r: Vec<u8>)
        ensures
            r@ == self.buf(),
    {
        self.data
    }
}

} // verus!
