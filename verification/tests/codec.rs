use bitorder::bits::Uint;
use bitorder::container::{BitReader, BitWriter};
use bitorder::reader::{read_bits_lsb, read_bits_msb, BitReaderLsb, BitReaderMsb};
use bitorder::writer::{write_bits_lsb, write_bits_msb, BitWriterLsb, BitWriterMsb};
use bitorder::{BitError, Lsb0, Msb0};

#[test]
fn msb_read_works() {
    let mut b = BitReader::<Msb0>::new(b"\xCD\x0A");
    assert_eq!(b.read_bits::<u8>(1).unwrap(), 1u8);
    assert_eq!(b.read_bits::<u16>(2).unwrap(), 2u16);
    assert_eq!(b.read_bits::<u32>(3).unwrap(), 3u32);
    assert_eq!(b.read_bits::<u64>(4).unwrap(), 4u64);
    assert_eq!(b.read_bits::<u128>(5).unwrap(), 5u128);
}

#[test]
fn msb_write_works() {
    let data = vec![0u8; 2];
    let mut b = BitWriter::<Msb0>::new(data);
    b.write_bits(1, 1u8).unwrap();
    b.write_bits(2, 2u8).unwrap();
    b.write_bits(3, 3u8).unwrap();
    b.write_bits(4, 4u8).unwrap();
    b.write_bits(5, 5u8).unwrap();
    let data = b.into_inner();

    assert_eq!(&data, b"\xCD\x0A");
}

#[test]
fn msb_stress() {
    let output = vec![0u8; 128];
    let mut b = BitWriter::<Msb0>::new(output);
    for i in 1..=32 {
        b.write_bits(i, i as u32).unwrap();
    }
    let output = b.into_inner();

    let mut b = BitReader::<Msb0>::new(&output);
    for i in 1..=32 {
        assert_eq!(b.read_bits::<u32>(i).unwrap(), i as u32);
    }
}

#[test]
fn lsb_read_works() {
    let mut b = BitReader::<Lsb0>::new(b"\x1D\x15");
    assert_eq!(b.read_bits::<u8>(1).unwrap(), 1u8);
    assert_eq!(b.read_bits::<u16>(2).unwrap(), 2u16);
    assert_eq!(b.read_bits::<u32>(3).unwrap(), 3u32);
    assert_eq!(b.read_bits::<u64>(4).unwrap(), 4u64);
    assert_eq!(b.read_bits::<u128>(5).unwrap(), 5u128);
}

#[test]
fn lsb_write_works() {
    let data = vec![0u8; 2];
    let mut b = BitWriter::<Lsb0>::new(data);
    b.write_bits(1, 1u8).unwrap();
    b.write_bits(2, 2u8).unwrap();
    b.write_bits(3, 3u8).unwrap();
    b.write_bits(4, 4u8).unwrap();
    b.write_bits(5, 5u8).unwrap();
    let data = b.into_inner();

    assert_eq!(&data, b"\x1D\x15");
}

#[test]
fn lsb_stress() {
    let output = vec![0u8; 128];
    let mut b = BitWriter::<Lsb0>::new(output);
    for i in 1..=32 {
        b.write_bits(i, i as u32).unwrap();
    }
    let output = b.into_inner();

    let mut b = BitReader::<Lsb0>::new(&output);
    for i in 1..=32 {
        assert_eq!(b.read_bits::<u32>(i).unwrap(), i as u32);
    }
}

#[test]
fn b8() {
    let mut output = vec![0u8; 128];
    for i in 0..=16usize {
        write_bits_lsb(&mut output, i / 8, i % 8, 8, 0xABu8).unwrap();
        assert_eq!(read_bits_lsb::<u8>(&output, i / 8, i % 8, 8).unwrap(), 0xABu8);
        output.clear();
        output.resize(128, 0);

        write_bits_msb(&mut output, i / 8, i % 8, 8, 0xABu8).unwrap();
        assert_eq!(read_bits_msb::<u8>(&output, i / 8, i % 8, 8).unwrap(), 0xABu8);
        output.clear();
        output.resize(128, 0);
    }
}

#[test]
fn b16() {
    let mut output = vec![0u8; 128];
    for i in 0..=16usize {
        write_bits_lsb(&mut output, i / 8, i % 8, 16, 0xCAFEu16).unwrap();
        assert_eq!(read_bits_lsb::<u16>(&output, i / 8, i % 8, 16).unwrap(), 0xCAFEu16);
        output.clear();
        output.resize(128, 0);

        write_bits_msb(&mut output, i / 8, i % 8, 16, 0xCAFEu16).unwrap();
        assert_eq!(read_bits_msb::<u16>(&output, i / 8, i % 8, 16).unwrap(), 0xCAFEu16);
        output.clear();
        output.resize(128, 0);
    }
}

#[test]
fn b32() {
    let mut output = vec![0u8; 128];
    for i in 0..=16usize {
        write_bits_lsb(&mut output, i / 8, i % 8, 32, 0xDEADBEEFu32).unwrap();
        assert_eq!(read_bits_lsb::<u32>(&output, i / 8, i % 8, 32).unwrap(), 0xDEADBEEFu32);
        output.clear();
        output.resize(128, 0);

        write_bits_msb(&mut output, i / 8, i % 8, 32, 0xDEADBEEFu32).unwrap();
        assert_eq!(read_bits_msb::<u32>(&output, i / 8, i % 8, 32).unwrap(), 0xDEADBEEFu32);
        output.clear();
        output.resize(128, 0);
    }
}

#[test]
fn b64() {
    let mut output = vec![0u8; 128];
    for i in 0..=16usize {
        write_bits_lsb(&mut output, i / 8, i % 8, 64, 0x31415926_53589793u64).unwrap();
        assert_eq!(
            read_bits_lsb::<u64>(&output, i / 8, i % 8, 64).unwrap(),
            0x31415926_53589793u64
        );
        output.clear();
        output.resize(128, 0);

        write_bits_msb(&mut output, i / 8, i % 8, 64, 0x31415926_53589793u64).unwrap();
        assert_eq!(
            read_bits_msb::<u64>(&output, i / 8, i % 8, 64).unwrap(),
            0x31415926_53589793u64
        );
        output.clear();
        output.resize(128, 0);
    }
}

#[test]
fn b128() {
    let v = 0x0123_4567_89AB_CDEF_FEDC_BA98_7654_3210u128;
    let mut output = vec![0u8; 128];
    for i in 0..=16usize {
        write_bits_lsb(&mut output, i / 8, i % 8, 128, v).unwrap();
        assert_eq!(read_bits_lsb::<u128>(&output, i / 8, i % 8, 128).unwrap(), v);
        output.clear();
        output.resize(128, 0);

        write_bits_msb(&mut output, i / 8, i % 8, 128, v).unwrap();
        assert_eq!(read_bits_msb::<u128>(&output, i / 8, i % 8, 128).unwrap(), v);
        output.clear();
        output.resize(128, 0);
    }
}

#[test]
fn width_exceeded_on_read() {
    let data = vec![0u8; 16];
    let mut b = BitReader::<Msb0>::new(&data);
    assert_eq!(
        b.read_bits::<u32>(33),
        Err(BitError::WidthExceeded { requested: 33, type_width: 32 })
    );
    let mut b = BitReader::<Lsb0>::new(&data);
    assert_eq!(
        b.read_bits::<u8>(9),
        Err(BitError::WidthExceeded { requested: 9, type_width: 8 })
    );
}

#[test]
fn width_exceeded_on_write() {
    let data = vec![0u8; 16];
    let mut b = BitWriter::<Msb0>::new(data);
    assert_eq!(
        b.write_bits(129, 0u128),
        Err(BitError::WidthExceeded { requested: 129, type_width: 128 })
    );
    let data = b.into_inner();
    assert_eq!(data, vec![0u8; 16]);
}

#[test]
fn exhausted_at_end_of_buffer() {
    let mut b = BitReader::<Msb0>::new(b"");
    assert_eq!(b.read_bits::<u8>(1), Err(BitError::BufferExhausted));

    let mut b = BitReader::<Lsb0>::new(b"\xFF");
    assert_eq!(b.read_bits::<u8>(8).unwrap(), 0xFF);
    assert_eq!(b.read_bits::<u8>(1), Err(BitError::BufferExhausted));

    let mut b = BitReader::<Lsb0>::new(b"\xFF");
    assert_eq!(b.read_bits::<u16>(9), Err(BitError::BufferExhausted));
}

#[test]
fn exhausted_on_write() {
    let data = vec![0u8; 1];
    let mut b = BitWriter::<Lsb0>::new(data);
    b.write_bits(6, 0u8).unwrap();
    assert_eq!(b.write_bits(3, 0u8), Err(BitError::BufferExhausted));
    b.write_bits(2, 3u8).unwrap();
    assert_eq!(b.into_inner(), vec![0xC0]);
}

#[test]
fn zero_length_is_an_error() {
    let data = vec![0u8; 4];
    let mut b = BitReader::<Msb0>::new(&data);
    assert_eq!(b.read_bits::<u8>(0), Err(BitError::ZeroLengthOperation));

    let mut w = BitWriter::<Lsb0>::new(data.clone());
    assert_eq!(w.write_bits(0, 0u8), Err(BitError::ZeroLengthOperation));

    let mut buf = vec![0u8; 4];
    assert_eq!(
        read_bits_msb::<u32>(&buf, 0, 0, 0),
        Err(BitError::ZeroLengthOperation)
    );
    assert_eq!(
        write_bits_msb(&mut buf, 0, 0, 0, 0u32),
        Err(BitError::ZeroLengthOperation)
    );
}

#[test]
fn msb_reader_and_advance() {
    let mut b = BitReaderMsb::new(b"\xCD\x0A");
    assert_eq!(b.read_bits::<u8>(1).unwrap(), 1u8);
    b.advance(2);
    assert_eq!(b.read_bits::<u8>(3).unwrap(), 3u8);
    assert_eq!(b.read_bits::<u8>(4).unwrap(), 4u8);
    assert_eq!(b.read_bits::<u8>(5).unwrap(), 5u8);
}

#[test]
fn lsb_reader_and_advance() {
    let mut b = BitReaderLsb::new(b"\x1D\x15");
    assert_eq!(b.read_bits::<u8>(1).unwrap(), 1u8);
    b.advance(2);
    assert_eq!(b.read_bits::<u8>(3).unwrap(), 3u8);
    assert_eq!(b.read_bits::<u8>(4).unwrap(), 4u8);
    assert_eq!(b.read_bits::<u8>(5).unwrap(), 5u8);
}

#[test]
fn msb_writer_standalone() {
    let mut w = BitWriterMsb::new(vec![0u8; 2]);
    w.write_bits(1u8, 1).unwrap();
    w.write_bits(2u8, 2).unwrap();
    w.write_bits(3u8, 3).unwrap();
    w.write_bits(4u8, 4).unwrap();
    w.write_bits(5u8, 5).unwrap();
    assert_eq!(w.into_inner(), vec![0xCD, 0x0A]);
}

#[test]
fn lsb_writer_standalone() {
    let mut w = BitWriterLsb::new(vec![0u8; 2]);
    w.write_bits(1u8, 1).unwrap();
    w.write_bits(2u8, 2).unwrap();
    w.write_bits(3u8, 3).unwrap();
    w.write_bits(4u8, 4).unwrap();
    w.write_bits(5u8, 5).unwrap();
    assert_eq!(w.into_inner(), vec![0x1D, 0x15]);
}

#[test]
fn writer_advance_skips_bits() {
    let mut w = BitWriterMsb::new(vec![0u8; 1]);
    w.advance(4);
    w.write_bits(0xFu8, 4).unwrap();
    assert_eq!(w.into_inner(), vec![0x0F]);

    let mut w = BitWriterLsb::new(vec![0u8; 1]);
    w.advance(4);
    w.write_bits(0xFu8, 4).unwrap();
    assert_eq!(w.into_inner(), vec![0xF0]);
}

#[test]
fn write_touches_only_the_requested_bits() {
    let mut data = vec![0xFFu8; 2];
    write_bits_msb(&mut data, 0, 3, 6, 0u8).unwrap();
    assert_eq!(data, vec![0b1110_0000, 0b0111_1111]);

    let mut data = vec![0xFFu8; 2];
    write_bits_lsb(&mut data, 0, 3, 6, 0u8).unwrap();
    assert_eq!(data, vec![0b0000_0111, 0b1111_1110]);
}

#[test]
fn get_bit_slice_examples() {
    assert_eq!(0xABu8.get_bit_slice(0, 4), 0xB);
    assert_eq!(0xABu8.get_bit_slice(4, 8), 0xA);
    assert_eq!(0xDEADBEEFu32.get_bit_slice(8, 24), 0xADBE);
    assert_eq!(0xFFu8.get_bit_slice(3, 3), 0);
}

#[test]
fn set_bit_slice_examples() {
    assert_eq!(0u8.set_bit_slice(2, 5, 0b111), 0b0001_1100);
    assert_eq!(0xFFu8.set_bit_slice(2, 5, 0), 0b1110_0011);
    assert_eq!(0x0000u16.set_bit_slice(4, 12, 0xAB), 0x0AB0);
    assert_eq!(0xFFu8.set_bit_slice(0, 8, 0x12), 0x12);
}

#[test]
fn saturating_shifts_vanish_at_the_width() {
    assert_eq!(1u8.saturating_shl(8), 0);
    assert_eq!(1u32.saturating_shl(40), 0);
    assert_eq!(3u32.saturating_shl(2), 12);
    assert_eq!(0x80u8.saturating_shr(7), 1);
    assert_eq!(0xFFu8.saturating_shr(8), 0);
    assert_eq!(1u128.saturating_shl(127), 1u128 << 127);
    assert_eq!((1u128 << 127).saturating_shr(127), 1);
}

#[test]
fn low_byte_conversion() {
    assert_eq!(0xCAFEu16.as_u8(), 0xFE);
    assert_eq!(0x12u8.as_u8(), 0x12);
    assert_eq!(0xDEADBEEFu32.as_u8(), 0xEF);
    assert_eq!(u64::from_u8(0xAB), 0xABu64);
    assert_eq!(<u32 as Uint>::width(), 32);
    assert_eq!(<u128 as Uint>::width(), 128);
    assert_eq!(<u16 as Uint>::zero(), 0);
}

#[test]
fn free_functions_at_unaligned_offsets() {
    let mut data = vec![0u8; 4];
    write_bits_msb(&mut data, 1, 5, 7, 0b1010101u8).unwrap();
    assert_eq!(read_bits_msb::<u8>(&data, 1, 5, 7).unwrap(), 0b1010101);

    let mut data = vec![0u8; 4];
    write_bits_lsb(&mut data, 1, 5, 7, 0b1010101u8).unwrap();
    assert_eq!(read_bits_lsb::<u8>(&data, 1, 5, 7).unwrap(), 0b1010101);
}

#[test]
fn written_value_is_truncated_to_len_bits() {
    let mut data = vec![0u8; 1];
    write_bits_lsb(&mut data, 0, 0, 3, 0xFFu8).unwrap();
    assert_eq!(data, vec![0b0000_0111]);

    let mut data = vec![0u8; 1];
    write_bits_msb(&mut data, 0, 0, 3, 0xFFu8).unwrap();
    assert_eq!(data, vec![0b1110_0000]);
}
