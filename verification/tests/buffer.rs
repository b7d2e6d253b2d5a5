use chain_clusterizer::buffer_operations::{
    read_slice, read_u16, read_u32, read_u64, read_u8, read_var_int, write_var_int,
};
use chain_clusterizer::error::{EofError, ParseError};

#[test]
fn read_u8_takes_one_byte() {
    let data = [0x7fu8, 0x01];
    let mut cursor: &[u8] = &data;
    assert_eq!(read_u8(&mut cursor), Ok(0x7f));
    assert_eq!(cursor, &[0x01u8][..]);
}

#[test]
fn read_u8_fails_on_empty() {
    let mut cursor: &[u8] = &[];
    assert_eq!(read_u8(&mut cursor), Err(EofError));
}

#[test]
fn read_u16_is_little_endian() {
    let data = [0x34u8, 0x12, 0xff];
    let mut cursor: &[u8] = &data;
    assert_eq!(read_u16(&mut cursor), Ok(0x1234));
    assert_eq!(cursor, &[0xffu8][..]);
}

#[test]
fn read_u32_is_little_endian() {
    let data = [0xf9u8, 0xbe, 0xb4, 0xd9, 0x00];
    let mut cursor: &[u8] = &data;
    assert_eq!(read_u32(&mut cursor), Ok(0xd9b4bef9));
    assert_eq!(cursor.len(), 1);
}

#[test]
fn read_u64_is_little_endian() {
    let data = [0x08u8, 0x07, 0x06, 0x05, 0x04, 0x03, 0x02, 0x01];
    let mut cursor: &[u8] = &data;
    assert_eq!(read_u64(&mut cursor), Ok(0x0102030405060708));
    assert!(cursor.is_empty());
}

#[test]
fn fixed_reads_fail_when_short() {
    let data = [1u8, 2, 3];
    let mut cursor: &[u8] = &data;
    assert_eq!(read_u32(&mut cursor), Err(EofError));
    let mut cursor: &[u8] = &data[..1];
    assert_eq!(read_u16(&mut cursor), Err(EofError));
    let mut cursor: &[u8] = &data;
    assert_eq!(read_u64(&mut cursor), Err(EofError));
}

#[test]
fn read_slice_carves_prefix() {
    let data = [1u8, 2, 3, 4, 5];
    let mut cursor: &[u8] = &data;
    assert_eq!(read_slice(&mut cursor, 2), Ok(&data[..2]));
    assert_eq!(cursor, &data[2..]);
    assert_eq!(read_slice(&mut cursor, 0), Ok(&data[..0]));
    assert_eq!(read_slice(&mut cursor, 4), Err(EofError));
    assert_eq!(read_slice(&mut cursor, 3), Ok(&data[2..]));
    assert!(cursor.is_empty());
}

#[test]
fn var_int_single_byte() {
    let data = [0xfcu8, 0xaa];
    let mut cursor: &[u8] = &data;
    assert_eq!(read_var_int(&mut cursor), Ok(0xfc));
    assert_eq!(cursor, &[0xaau8][..]);
}

#[test]
fn var_int_two_bytes() {
    let data = [0xfdu8, 0xfd, 0x00];
    let mut cursor: &[u8] = &data;
    assert_eq!(read_var_int(&mut cursor), Ok(0xfd));
    assert!(cursor.is_empty());
}

#[test]
fn var_int_four_bytes() {
    let data = [0xfeu8, 0x00, 0x00, 0x01, 0x00, 0x99];
    let mut cursor: &[u8] = &data;
    assert_eq!(read_var_int(&mut cursor), Ok(0x10000));
    assert_eq!(cursor, &[0x99u8][..]);
}

#[test]
fn var_int_eight_bytes() {
    let data = [0xffu8, 0, 0, 0, 0, 1, 0, 0, 0];
    let mut cursor: &[u8] = &data;
    assert_eq!(read_var_int(&mut cursor), Ok(0x1_0000_0000));
    assert!(cursor.is_empty());
}

#[test]
fn var_int_accepts_long_form_of_small_value() {
    let data = [0xfdu8, 0x05, 0x00];
    let mut cursor: &[u8] = &data;
    assert_eq!(read_var_int(&mut cursor), Ok(5));
}

#[test]
fn var_int_fails_when_short() {
    for data in [&[][..], &[0xfd, 0x01][..], &[0xfe, 1, 2, 3][..], &[0xff, 1, 2, 3, 4, 5, 6, 7][..]] {
        let mut cursor: &[u8] = data;
        assert_eq!(read_var_int(&mut cursor), Err(EofError));
    }
}

#[test]
fn var_int_encoding_is_shortest() {
    let cases: [(u64, Vec<u8>); 7] = [
        (0, vec![0x00]),
        (0xfc, vec![0xfc]),
        (0xfd, vec![0xfd, 0xfd, 0x00]),
        (0xffff, vec![0xfd, 0xff, 0xff]),
        (0x10000, vec![0xfe, 0x00, 0x00, 0x01, 0x00]),
        (0xffff_ffff, vec![0xfe, 0xff, 0xff, 0xff, 0xff]),
        (0x1_0000_0000, vec![0xff, 0, 0, 0, 0, 1, 0, 0, 0]),
    ];
    for (value, bytes) in cases {
        let mut out = Vec::new();
        write_var_int(&mut out, value);
        assert_eq!(out, bytes);
    }
}

#[test]
fn var_int_round_trip() {
    let values = [
        0u64,
        1,
        0xfc,
        0xfd,
        0xfe,
        0xff,
        0x100,
        0xffff,
        0x10000,
        0xffff_ffff,
        0x1_0000_0000,
        0x0123_4567_89ab_cdef,
        u64::MAX,
    ];
    for v in values {
        let mut out = vec![0xeeu8];
        write_var_int(&mut out, v);
        out.push(0x55);
        let mut cursor: &[u8] = &out[1..];
        assert_eq!(read_var_int(&mut cursor), Ok(v));
        assert_eq!(cursor, &[0x55u8][..]);
    }
}

#[test]
fn parse_error_names() {
    assert_eq!(ParseError::Eof.name(), "Eof");
    assert_eq!(ParseError::Invalid.name(), "Invalid");
    assert_eq!(ParseError::from_eof(EofError), ParseError::Eof);
}
