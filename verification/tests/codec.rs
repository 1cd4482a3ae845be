use ggnet::encode::{decode, encode, Cursor, SerializeError};

fn bytes_of_u8(v: u8) -> Vec<u8> {
    let mut out = Vec::new();
    encode(&mut out, &v).unwrap();
    out
}

#[test]
fn u8_is_one_byte() {
    assert_eq!(bytes_of_u8(0xab), vec![0xab]);
    let mut cur = Cursor::new(vec![0xab]);
    let back: u8 = decode(&mut cur).unwrap();
    assert_eq!(back, 0xab);
}

#[test]
fn i8_is_its_bit_pattern() {
    let mut out = Vec::new();
    encode(&mut out, &-5i8).unwrap();
    assert_eq!(out, vec![0xfb]);
    let mut cur = Cursor::new(out);
    let back: i8 = decode(&mut cur).unwrap();
    assert_eq!(back, -5);
}

#[test]
fn u16_is_written_big_endian() {
    let mut out = Vec::new();
    encode(&mut out, &517u16).unwrap();
    assert_eq!(out, vec![2, 5]);
    let mut cur = Cursor::new(out);
    let back: u16 = decode(&mut cur).unwrap();
    assert_eq!(back, 517);
}

#[test]
fn i16_is_written_big_endian() {
    let mut out = Vec::new();
    encode(&mut out, &-2i16).unwrap();
    assert_eq!(out, vec![0xff, 0xfe]);
    let mut cur = Cursor::new(out);
    let back: i16 = decode(&mut cur).unwrap();
    assert_eq!(back, -2);
}

#[test]
fn u32_is_written_big_endian() {
    let mut out: Vec<u8> = Vec::new();
    encode(&mut out, &0x12345678u32).unwrap();
    assert_eq!(out, vec![0x12, 0x34, 0x56, 0x78]);
    let mut cur = Cursor::new(out);
    let back: u32 = decode(&mut cur).unwrap();
    assert_eq!(back, 0x12345678);
}

#[test]
fn i32_is_written_big_endian() {
    let mut out: Vec<u8> = Vec::new();
    encode(&mut out, &-0x12345678i32).unwrap();
    assert_eq!(out, vec![0xed, 0xcb, 0xa9, 0x88]);
    let mut cur = Cursor::new(out);
    let back: i32 = decode(&mut cur).unwrap();
    assert_eq!(back, -0x12345678);
}

#[test]
fn u64_is_written_big_endian() {
    let mut out: Vec<u8> = Vec::new();
    encode(&mut out, &0x0102030405060708u64).unwrap();
    assert_eq!(out, vec![1, 2, 3, 4, 5, 6, 7, 8]);
    let mut cur = Cursor::new(out);
    let back: u64 = decode(&mut cur).unwrap();
    assert_eq!(back, 0x0102030405060708);
}

#[test]
fn i64_is_written_big_endian() {
    let mut out: Vec<u8> = Vec::new();
    encode(&mut out, &-2i64).unwrap();
    assert_eq!(out, vec![0xff, 0xff, 0xff, 0xff, 0xff, 0xff, 0xff, 0xfe]);
    let mut cur = Cursor::new(out);
    let back: i64 = decode(&mut cur).unwrap();
    assert_eq!(back, -2);
}

#[test]
fn extreme_integers_come_back() {
    let mut out: Vec<u8> = Vec::new();
    encode(&mut out, &u64::MAX).unwrap();
    encode(&mut out, &i64::MIN).unwrap();
    encode(&mut out, &i32::MIN).unwrap();
    encode(&mut out, &i16::MIN).unwrap();
    encode(&mut out, &i8::MIN).unwrap();
    encode(&mut out, &u16::MAX).unwrap();
    let mut cur = Cursor::new(out);
    assert_eq!(decode::<u64>(&mut cur).unwrap(), u64::MAX);
    assert_eq!(decode::<i64>(&mut cur).unwrap(), i64::MIN);
    assert_eq!(decode::<i32>(&mut cur).unwrap(), i32::MIN);
    assert_eq!(decode::<i16>(&mut cur).unwrap(), i16::MIN);
    assert_eq!(decode::<i8>(&mut cur).unwrap(), i8::MIN);
    assert_eq!(decode::<u16>(&mut cur).unwrap(), u16::MAX);
    assert_eq!(cur.available(), 0);
}

#[test]
fn bool_is_one_byte_and_any_nonzero_byte_is_true() {
    let mut out: Vec<u8> = Vec::new();
    encode(&mut out, &true).unwrap();
    encode(&mut out, &false).unwrap();
    assert_eq!(out, vec![1, 0]);
    let mut cur = Cursor::new(vec![1, 0, 7]);
    assert!(decode::<bool>(&mut cur).unwrap());
    assert!(!decode::<bool>(&mut cur).unwrap());
    assert!(decode::<bool>(&mut cur).unwrap());
}

#[test]
fn string_is_length_then_utf8() {
    let mut out: Vec<u8> = Vec::new();
    encode(&mut out, &String::from("hé")).unwrap();
    assert_eq!(out, vec![0, 0, 0, 3, b'h', 0xc3, 0xa9]);
    let mut cur = Cursor::new(out);
    let back: String = decode(&mut cur).unwrap();
    assert_eq!(back, "hé");
}

#[test]
fn empty_string_is_just_a_zero_count() {
    let mut out: Vec<u8> = Vec::new();
    encode(&mut out, &String::new()).unwrap();
    assert_eq!(out, vec![0, 0, 0, 0]);
    let mut cur = Cursor::new(out);
    let back: String = decode(&mut cur).unwrap();
    assert_eq!(back, "");
}

#[test]
fn vector_is_count_then_items() {
    let mut out: Vec<u8> = Vec::new();
    encode(&mut out, &vec![1u16, 2, 3]).unwrap();
    assert_eq!(out, vec![0, 0, 0, 3, 0, 1, 0, 2, 0, 3]);
    let mut cur = Cursor::new(out);
    let back: Vec<u16> = decode(&mut cur).unwrap();
    assert_eq!(back, vec![1, 2, 3]);
}

#[test]
fn vector_of_strings_comes_back() {
    let v = vec![String::from("a"), String::from(""), String::from("xyz")];
    let mut out: Vec<u8> = Vec::new();
    encode(&mut out, &v).unwrap();
    let mut cur = Cursor::new(out);
    let back: Vec<String> = decode(&mut cur).unwrap();
    assert_eq!(back, v);
}

#[test]
fn truncated_integer_is_an_io_error() {
    let mut cur = Cursor::new(vec![1, 2, 3]);
    let r: Result<u32, SerializeError> = decode(&mut cur);
    match r {
        Err(SerializeError::IOError(e)) => {
            assert_eq!(e.kind(), std::io::ErrorKind::UnexpectedEof)
        }
        _ => panic!("expected an I/O error"),
    }
}

#[test]
fn truncated_string_is_an_io_error() {
    let mut cur = Cursor::new(vec![0, 0, 0, 5, b'a', b'b']);
    let r: Result<String, SerializeError> = decode(&mut cur);
    assert!(matches!(r, Err(SerializeError::IOError(_))));
}

#[test]
fn truncated_vector_is_an_io_error() {
    let mut cur = Cursor::new(vec![0, 0, 0, 2, 0, 1, 0]);
    let r: Result<Vec<u16>, SerializeError> = decode(&mut cur);
    assert!(matches!(r, Err(SerializeError::IOError(_))));
}

#[test]
fn invalid_utf8_is_a_utf_error() {
    let mut cur = Cursor::new(vec![0, 0, 0, 2, 0xff, 0xfe]);
    let r: Result<String, SerializeError> = decode(&mut cur);
    assert!(matches!(r, Err(SerializeError::UTFError(_))));
}

#[test]
fn cursor_reads_front_to_back() {
    let mut cur = Cursor::new(vec![9, 8, 7, 6]);
    assert_eq!(cur.available(), 4);
    assert_eq!(cur.read_byte().unwrap(), 9);
    assert_eq!(cur.read_bytes(2).unwrap(), vec![8, 7]);
    assert_eq!(cur.offset(), 3);
    assert!(cur.read_bytes(2).is_err());
    assert_eq!(cur.offset(), 3);
    assert_eq!(cur.into_rest(1), vec![8, 7, 6]);
}
