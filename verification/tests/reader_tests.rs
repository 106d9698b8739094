//! The byte cursor: primitive reads in both byte orders, on both the plain
//! and the unchecked-path interfaces, and the array and string reads.

use shen_nbt5::NbtReader;

/// Bytes 0, 1, 2, ... for array reads.
fn gen_datas(len: usize) -> Vec<u8> {
    let mut datas = Vec::with_capacity(len);
    for i in 0..len {
        datas.push(i as u8);
    }
    datas
}

#[test]
fn basic_init() {
    let data = vec![0x01, 0x02, 0x03, 0x04];
    let reader = NbtReader::new(data);
    assert_eq!(reader.cursor, 0);
    let same_data = vec![0x01, 0x02, 0x03, 0x04];
    assert_eq!(reader.data, same_data);
}

#[test]
fn read_x8() {
    let data: Vec<u8> = vec![0x01, 0x02, i8::MIN as u8, u8::MAX];
    let mut reader = NbtReader::new(data);
    assert_eq!(reader.read_i8(), 0x01);
    assert_eq!(reader.cursor, 1);
    assert_eq!(reader.read_u8(), 0x02);
    assert_eq!(reader.cursor, 2);
    assert_eq!(reader.read_i8(), i8::MIN);
    assert_eq!(reader.cursor, 3);
    assert_eq!(reader.read_u8(), u8::MAX);
}

#[test]
fn read_x16() {
    let mut data = vec![0x01, 0x02, 0x03, 0x04, 0x01, 0x02, 0x03, 0x04];
    data.extend(i16::MIN.to_be_bytes());
    data.extend(i16::MAX.to_be_bytes());
    let mut reader = NbtReader::new(data);
    assert_eq!(reader.read_be_i16(), 0x0102);
    assert_eq!(reader.cursor, 2);
    assert_eq!(reader.read_be_u16(), 0x0304);
    assert_eq!(reader.cursor, 4);
    assert_eq!(reader.read_le_i16(), 0x0201);
    assert_eq!(reader.cursor, 6);
    assert_eq!(reader.read_le_u16(), 0x0403);
    assert_eq!(reader.cursor, 8);
    assert_eq!(reader.read_be_i16(), i16::MIN);
    assert_eq!(reader.cursor, 10);
    assert_eq!(reader.read_be_i16(), i16::MAX);
    assert_eq!(reader.cursor, 12);
}

#[test]
fn read_x32() {
    let data = vec![
        0x01, 0x02, 0x03, 0x04, 0x01, 0x02, 0x03, 0x04, 0x01, 0x02, 0x03, 0x04, 0x01, 0x02, 0x03,
        0x04,
    ];
    let mut reader = NbtReader::new(data);
    assert_eq!(reader.read_be_i32(), 0x01020304);
    assert_eq!(reader.cursor, 4);
    assert_eq!(reader.read_be_u32(), 0x01020304);
    assert_eq!(reader.cursor, 8);
    assert_eq!(reader.read_le_i32(), 0x04030201);
    assert_eq!(reader.cursor, 12);
    assert_eq!(reader.read_le_u32(), 0x04030201);
    assert_eq!(reader.cursor, 16);
}

#[test]
fn read_x64() {
    let data = vec![
        0x01, 0x02, 0x03, 0x04, 0x01, 0x02, 0x03, 0x04, 0x01, 0x02, 0x03, 0x04, 0x01, 0x02, 0x03,
        0x04, 0x01, 0x02, 0x03, 0x04, 0x01, 0x02, 0x03, 0x04, 0x01, 0x02, 0x03, 0x04, 0x01, 0x02,
        0x03, 0x04,
    ];
    let mut reader = NbtReader::new(data);
    assert_eq!(reader.read_be_i64(), 0x0102030401020304);
    assert_eq!(reader.cursor, 8);
    assert_eq!(reader.read_be_u64(), 0x0102030401020304);
    assert_eq!(reader.cursor, 16);
    assert_eq!(reader.read_le_i64(), 0x0403020104030201);
    assert_eq!(reader.cursor, 24);
    assert_eq!(reader.read_le_u64(), 0x0403020104030201);
    assert_eq!(reader.cursor, 32);
}

#[test]
fn read_fxx() {
    let mut data = Vec::with_capacity(12);
    data.extend_from_slice(&std::f32::consts::PI.to_be_bytes());
    data.extend_from_slice(&std::f64::consts::PI.to_be_bytes());
    data.extend_from_slice(&std::f32::consts::PI.to_le_bytes());
    data.extend_from_slice(&std::f64::consts::PI.to_le_bytes());
    println!("{:?}", data);
    let mut reader = NbtReader::new(data);
    assert_eq!(f32::from_bits(reader.read_be_f32_bits()), std::f32::consts::PI);
    assert_eq!(reader.cursor, 4);
    assert_eq!(f64::from_bits(reader.read_be_f64_bits()), std::f64::consts::PI);
    assert_eq!(reader.cursor, 12);
    assert_eq!(f32::from_bits(reader.read_le_f32_bits()), std::f32::consts::PI);
    assert_eq!(reader.cursor, 16);
    assert_eq!(f64::from_bits(reader.read_le_f64_bits()), std::f64::consts::PI);
    assert_eq!(reader.cursor, 24);
}

#[test]
fn read_string() {
    let mut data = Vec::with_capacity(20);
    data.extend("Hello world!\u{554a}\u{ff1f}".as_bytes());
    let len = data.len();
    println!("{:?}", data);
    let mut reader = NbtReader::new(data);
    assert_eq!(reader.read_string(len), Ok("Hello world!\u{554a}\u{ff1f}".to_string()));
    assert_eq!(reader.cursor, 18);
}

#[test]
fn tests_read_x16() {
    let data = vec![0x01, 0x02, 0x03, 0x04];
    let mut reader = NbtReader::new(data);
    let value = reader.read_be_i16_unsafe();
    reader.roll_back(2);
    let safe_value = reader.read_be_i16();
    assert_eq!(value, safe_value);
    assert_eq!(reader.cursor, 2);
    let value = reader.read_be_u16_unsafe();
    reader.roll_back(2);
    let safe_value = reader.read_be_u16();
    assert_eq!(value, safe_value);
    assert_eq!(reader.cursor, 4);
}

#[test]
fn tests_read_x32() {
    let data = vec![0x01, 0x02, 0x03, 0x04, 0x01, 0x02, 0x03, 0x04];
    let mut reader = NbtReader::new(data);
    let value = reader.read_be_i32_unsafe();
    reader.roll_back(4);
    let safe_value = reader.read_be_i32();
    assert_eq!(value, safe_value);
    assert_eq!(reader.cursor, 4);
    let value = reader.read_be_u32_unsafe();
    reader.roll_back(4);
    let safe_value = reader.read_be_u32();
    assert_eq!(value, safe_value);
    assert_eq!(reader.cursor, 8);
}

#[test]
fn tests_read_x64() {
    let data = vec![
        0x01, 0x02, 0x03, 0x04, 0x01, 0x02, 0x03, 0x04, 0x01, 0x02, 0x03, 0x04, 0x01, 0x02, 0x03,
        0x04, 0x01, 0x02, 0x03, 0x04, 0x01, 0x02, 0x03, 0x04, 0x01, 0x02, 0x03, 0x04, 0x01, 0x02,
        0x03, 0x04,
    ];
    let mut reader = NbtReader::new(data);
    let value = reader.read_be_i64_unsafe();
    reader.roll_back(8);
    let safe_value = reader.read_be_i64();
    assert_eq!(value, safe_value);
    assert_eq!(reader.cursor, 8);

    let value = reader.read_be_u64_unsafe();
    reader.roll_back(8);
    let safe_value = reader.read_be_u64();
    assert_eq!(value, safe_value);
    assert_eq!(reader.cursor, 16);

    let value = reader.read_le_i64_unsafe();
    reader.roll_back(8);
    let safe_value = reader.read_le_i64();
    assert_eq!(value, safe_value);
    assert_eq!(reader.cursor, 24);

    let value = reader.read_le_u64_unsafe();
    reader.roll_back(8);
    let safe_value = reader.read_le_u64();
    assert_eq!(value, safe_value);
    assert_eq!(reader.cursor, 32);
}

#[test]
fn tests_read_fxx() {
    let mut data = Vec::with_capacity(12);
    data.extend_from_slice(&std::f32::consts::PI.to_be_bytes());
    data.extend_from_slice(&std::f64::consts::PI.to_be_bytes());
    data.extend_from_slice(&std::f32::consts::PI.to_le_bytes());
    data.extend_from_slice(&std::f64::consts::PI.to_le_bytes());
    println!("{:?}", data);
    let mut reader = NbtReader::new(data);
    let value = f32::from_bits(reader.read_be_f32_bits_unsafe());
    reader.roll_back(4);
    let safe_value = f32::from_bits(reader.read_be_f32_bits());
    assert_eq!(value, safe_value);
    assert_eq!(reader.cursor, 4);

    let value = f64::from_bits(reader.read_be_f64_bits_unsafe());
    reader.roll_back(8);
    let safe_value = f64::from_bits(reader.read_be_f64_bits());
    assert_eq!(value, safe_value);
    assert_eq!(reader.cursor, 12);

    let value = f32::from_bits(reader.read_le_f32_bits_unsafe());
    reader.roll_back(4);
    let safe_value = f32::from_bits(reader.read_le_f32_bits());
    assert_eq!(value, safe_value);
    assert_eq!(reader.cursor, 16);

    let value = f64::from_bits(reader.read_le_f64_bits_unsafe());
    reader.roll_back(8);
    let safe_value = f64::from_bits(reader.read_le_f64_bits());
    assert_eq!(value, safe_value);
    assert_eq!(reader.cursor, 24);
}

#[test]
fn read_array() {
    let data = gen_datas(100);
    let mut reader = NbtReader::new(data);
    let value = reader.read_i8_array_unsafe(100);
    reader.roll_back(100);
    let safe_value = reader.read_i8_array(100);
    assert_eq!(value, safe_value);
    assert_eq!(reader.cursor, 100);
}

#[test]
fn read_i32_array() {
    let value = gen_datas(4 * 100);
    let mut reader = NbtReader::new(value);
    let value = reader.read_i32_array_unsafe(100);
    reader.roll_back(100 * 4);
    let safe_value = reader.read_i32_array(100);
    assert_eq!(value, safe_value);
    assert_eq!(reader.cursor, 100 * 4);
}

#[test]
fn read_i64_array() {
    let value = gen_datas(8 * 100);
    let mut reader = NbtReader::new(value);
    let value = reader.read_i64_array_unsafe(100);
    reader.roll_back(100 * 8);
    let safe_value = reader.read_i64_array(100);
    assert_eq!(value, safe_value);
    assert_eq!(reader.cursor, 100 * 8);
}

#[test]
fn read_u8_array_and_roll_down() {
    let data = gen_datas(10);
    let mut reader = NbtReader::new(data);
    reader.roll_down(2);
    assert_eq!(reader.cursor, 2);
    let got = reader.read_u8_array(3);
    assert_eq!(got, vec![2, 3, 4]);
    assert_eq!(reader.cursor, 5);
}

#[test]
fn read_varint_values() {
    let mut reader = NbtReader::new(vec![0xC8, 0x01, 0x05, 0xFF]);
    assert_eq!(reader.read_varint(), Ok(200));
    assert_eq!(reader.cursor, 2);
    assert_eq!(reader.read_varint(), Ok(5));
    assert_eq!(reader.cursor, 3);
    // the buffer ends inside the last number
    assert!(reader.read_varint().is_err());
}

#[test]
fn read_string_eof() {
    let mut reader = NbtReader::new(vec![0x61, 0x62]);
    assert!(reader.read_string(3).is_err());
    assert_eq!(reader.cursor, 0);
    assert_eq!(reader.read_string(2), Ok("ab".to_string()));
}
