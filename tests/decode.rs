use binser::{Decode, Error, Reader};

#[test]
fn u32_from_little_endian_bytes() {
    let data = [0x01u8, 0x00, 0x00, 0x00];
    let mut reader = Reader::new(&data);
    assert_eq!(reader.read::<u32>(), Ok(1));
    assert_eq!(reader.offset(), 4);
}

#[test]
fn i16_all_ones_is_minus_one() {
    let data = [0xFFu8, 0xFF];
    let mut reader = Reader::new(&data);
    assert_eq!(reader.read::<i16>(), Ok(-1));
}

#[test]
fn array_of_four_bytes() {
    let data = [0x01u8, 0x02, 0x03, 0x04];
    let mut reader = Reader::new(&data);
    assert_eq!(reader.read::<[u8; 4]>(), Ok([1, 2, 3, 4]));
}

#[test]
fn two_byte_integer_from_one_byte_overflows() {
    let data = [0x01u8];
    let mut reader = Reader::new(&data);
    assert_eq!(reader.read::<u16>(), Err(Error::Overflow));
    assert_eq!(reader.offset(), 0);
    assert_eq!(reader.read::<i16>(), Err(Error::Overflow));
}

#[test]
fn every_width_and_sign() {
    let data = [
        0x80u8, // u8
        0x80, // i8
        0x34, 0x12, // u16
        0x00, 0x80, // i16
        0x78, 0x56, 0x34, 0x12, // u32
        0xFE, 0xFF, 0xFF, 0xFF, // i32
        0xEF, 0xCD, 0xAB, 0x89, 0x67, 0x45, 0x23, 0x01, // u64
        0xFF, 0xFF, 0xFF, 0xFF, 0xFF, 0xFF, 0xFF, 0x7F, // i64
    ];
    let mut reader = Reader::new(&data);
    assert_eq!(reader.read::<u8>(), Ok(0x80));
    assert_eq!(reader.read::<i8>(), Ok(-128));
    assert_eq!(reader.read::<u16>(), Ok(0x1234));
    assert_eq!(reader.read::<i16>(), Ok(i16::MIN));
    assert_eq!(reader.read::<u32>(), Ok(0x1234_5678));
    assert_eq!(reader.read::<i32>(), Ok(-2));
    assert_eq!(reader.read::<u64>(), Ok(0x0123_4567_89AB_CDEF));
    assert_eq!(reader.read::<i64>(), Ok(i64::MAX));
    assert_eq!(reader.offset(), data.len());
    assert_eq!(reader.read::<u8>(), Err(Error::Overflow));
}

#[test]
fn largest_and_smallest_values() {
    let ones = [0xFFu8; 8];
    assert_eq!(u64::decode_in_place(&ones), Ok(u64::MAX));
    assert_eq!(i64::decode_in_place(&ones), Ok(-1));
    let mut min = [0u8; 8];
    min[7] = 0x80;
    assert_eq!(i64::decode_in_place(&min), Ok(i64::MIN));
    assert_eq!(u32::decode_in_place(&ones), Ok(u32::MAX));
    assert_eq!(i8::decode_in_place(&[0x7F]), Ok(127));
}

#[test]
fn decoding_round_trips_through_to_le_bytes() {
    let samples: [[u8; 8]; 4] = [
        [0, 0, 0, 0, 0, 0, 0, 0],
        [1, 2, 3, 4, 5, 6, 7, 8],
        [0xFF, 0, 0x80, 0x7F, 0x01, 0xFE, 0x10, 0x90],
        [0xFF; 8],
    ];
    for bytes in samples.iter() {
        assert_eq!(u64::decode_in_place(bytes).unwrap().to_le_bytes(), *bytes);
        assert_eq!(i64::decode_in_place(bytes).unwrap().to_le_bytes(), *bytes);
        assert_eq!(u32::decode_in_place(bytes).unwrap().to_le_bytes()[..], bytes[..4]);
        assert_eq!(i32::decode_in_place(bytes).unwrap().to_le_bytes()[..], bytes[..4]);
        assert_eq!(u16::decode_in_place(bytes).unwrap().to_le_bytes()[..], bytes[..2]);
        assert_eq!(i16::decode_in_place(bytes).unwrap().to_le_bytes()[..], bytes[..2]);
        assert_eq!(u8::decode_in_place(bytes).unwrap().to_le_bytes()[..], bytes[..1]);
        assert_eq!(i8::decode_in_place(bytes).unwrap().to_le_bytes()[..], bytes[..1]);
    }
}

#[test]
fn read_bytes_copies_and_advances() {
    let data = [10u8, 20, 30, 40, 50];
    let mut reader = Reader::new(&data);
    let mut first = [0u8; 2];
    assert_eq!(reader.read_bytes(&mut first), Ok(()));
    assert_eq!(first, [10, 20]);
    assert_eq!(reader.offset(), 2);
    let mut rest = [0u8; 3];
    assert_eq!(reader.read_bytes(&mut rest), Ok(()));
    assert_eq!(rest, [30, 40, 50]);
    assert_eq!(reader.offset(), 5);
}

#[test]
fn read_bytes_short_leaves_everything() {
    let data = [10u8, 20, 30];
    let mut reader = Reader::new(&data);
    let mut one = [0u8; 1];
    assert_eq!(reader.read_bytes(&mut one), Ok(()));
    let mut too_many = [7u8; 3];
    assert_eq!(reader.read_bytes(&mut too_many), Err(Error::Overflow));
    assert_eq!(too_many, [7, 7, 7]);
    assert_eq!(reader.offset(), 1);
}

#[test]
fn read_bytes_empty_destination() {
    let data: [u8; 0] = [];
    let mut reader = Reader::new(&data);
    let mut nothing: [u8; 0] = [];
    assert_eq!(reader.read_bytes(&mut nothing), Ok(()));
    assert_eq!(reader.offset(), 0);
}

#[test]
fn empty_buffer_fails_every_integer() {
    let data: [u8; 0] = [];
    let mut reader = Reader::new(&data);
    assert_eq!(reader.read::<u8>(), Err(Error::Overflow));
    assert_eq!(reader.read::<i8>(), Err(Error::Overflow));
    assert_eq!(reader.read::<u16>(), Err(Error::Overflow));
    assert_eq!(reader.read::<i16>(), Err(Error::Overflow));
    assert_eq!(reader.read::<u32>(), Err(Error::Overflow));
    assert_eq!(reader.read::<i32>(), Err(Error::Overflow));
    assert_eq!(reader.read::<u64>(), Err(Error::Overflow));
    assert_eq!(reader.read::<i64>(), Err(Error::Overflow));
    assert_eq!(reader.read::<[u8; 1]>(), Err(Error::Overflow));
    assert_eq!(reader.offset(), 0);
}

#[test]
fn array_from_exact_buffer() {
    let data = [0x01u8, 0x00, 0x02, 0x00, 0xFF, 0xFF];
    let mut reader = Reader::new(&data);
    assert_eq!(reader.read::<[u16; 3]>(), Ok([1, 2, 0xFFFF]));
    assert_eq!(reader.offset(), 6);
    assert_eq!(<[i16; 3]>::decode_in_place(&data), Ok([1, 2, -1]));
}

#[test]
fn array_one_byte_short_keeps_earlier_elements_consumed() {
    let data = [0x01u8, 0x00, 0x02, 0x00, 0xFF];
    let mut reader = Reader::new(&data);
    assert_eq!(reader.read::<[u16; 3]>(), Err(Error::Overflow));
    assert_eq!(reader.offset(), 4);
}

#[test]
fn nested_array_failure_consumes_whole_inner_elements() {
    // Two pairs of u16 take eight bytes; seven remain, so the first pair and
    // the first u16 of the second are read before the second u16 fails.
    let data = [1u8, 0, 2, 0, 3, 0, 4];
    let mut reader = Reader::new(&data);
    assert_eq!(reader.read::<[[u16; 2]; 2]>(), Err(Error::Overflow));
    assert_eq!(reader.offset(), 6);
    let mut fresh = Reader::new(&data[..]);
    assert_eq!(fresh.read::<[[u8; 2]; 3]>(), Ok([[1, 0], [2, 0], [3, 0]]));
    assert_eq!(fresh.offset(), 6);
}

#[test]
fn array_of_thirty_two() {
    let mut data = [0u8; 32];
    for (i, b) in data.iter_mut().enumerate() {
        *b = i as u8;
    }
    let mut reader = Reader::new(&data);
    let values = reader.read::<[u8; 32]>().unwrap();
    assert_eq!(values, data);
    assert_eq!(reader.offset(), 32);
}

#[test]
fn read_at_leaves_cursor() {
    let data = [0x01u8, 0x02, 0x03, 0x04];
    let mut reader = Reader::new(&data);
    assert_eq!(reader.read::<u8>(), Ok(1));
    assert_eq!(reader.read_at::<u16>(2), Ok(0x0403));
    assert_eq!(reader.read_at::<u8>(0), Ok(1));
    assert_eq!(reader.offset(), 1);
    assert_eq!(reader.read::<u8>(), Ok(2));
}

#[test]
fn read_at_last_byte() {
    let data = [0x01u8, 0x02, 0x03];
    let reader = Reader::new(&data);
    assert_eq!(reader.read_at::<u8>(2), Ok(3));
    assert_eq!(reader.read_at::<u16>(2), Err(Error::Overflow));
    assert_eq!(reader.read_at::<i32>(2), Err(Error::Overflow));
}

#[test]
fn read_at_end_always_fails() {
    let data = [0x01u8, 0x02, 0x03];
    let reader = Reader::new(&data);
    assert_eq!(reader.read_at::<u8>(3), Err(Error::Overflow));
    assert_eq!(reader.read_at::<u8>(100), Err(Error::Overflow));
    // Even a value of no bytes cannot be read at the end by offset...
    assert_eq!(reader.read_at::<[u8; 0]>(3), Err(Error::Overflow));
    // ...though it can at the cursor.
    let mut at_end = Reader::new(&data);
    let mut skip = [0u8; 3];
    assert_eq!(at_end.read_bytes(&mut skip), Ok(()));
    assert_eq!(at_end.read::<[u8; 0]>(), Ok([]));
    let empty: [u8; 0] = [];
    assert_eq!(Reader::new(&empty).read_at::<u8>(0), Err(Error::Overflow));
}

#[test]
fn decode_in_place_reads_from_the_start() {
    let data = [0x2Au8, 0x00, 0x00, 0x00, 0x99];
    assert_eq!(u32::decode_in_place(&data), Ok(42));
    assert_eq!(u32::decode_in_place(&data[..3]), Err(Error::Overflow));
    assert_eq!(<[u8; 2]>::decode_in_place(&data), Ok([0x2A, 0x00]));
}

#[test]
fn float_bits_through_unsigned_integers() {
    let data = 1.5f32.to_le_bytes();
    let bits = u32::decode_in_place(&data).unwrap();
    assert_eq!(f32::from_bits(bits), 1.5f32);
    let data = (-0.25f64).to_le_bytes();
    let bits = u64::decode_in_place(&data).unwrap();
    assert_eq!(f64::from_bits(bits), -0.25f64);
}
