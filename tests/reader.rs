use anim_to_vtk::reader::{
    read_bytes, read_f32_bits, read_f32_bits_vec, read_i32, read_i32_vec, read_text,
    read_u16_vec, replace_underscore, DecodeError, Reader,
};

#[test]
fn reads_big_endian_scalars() {
    let data = [0x00, 0x00, 0x54, 0x2c, 0xff, 0xff, 0xff, 0xfe, 0x3f, 0x80, 0x00, 0x00];
    let mut r = Reader::new(&data);
    assert_eq!(read_i32(&mut r), Ok(0x542c));
    assert_eq!(read_i32(&mut r), Ok(-2));
    assert_eq!(read_f32_bits(&mut r), Ok(1.0f32.to_bits()));
    assert_eq!(read_i32(&mut r), Err(DecodeError::Truncated));
    assert_eq!(r.pos, 12);
}

#[test]
fn reads_vectors() {
    let data = [0, 0, 0, 1, 0, 0, 1, 0, 0x12, 0x34, 0xab, 0xcd];
    let mut r = Reader::new(&data);
    assert_eq!(read_i32_vec(&mut r, 2), Ok(vec![1, 256]));
    assert_eq!(read_u16_vec(&mut r, 2), Ok(vec![0x1234, 0xabcd]));
    let mut r = Reader::new(&data);
    assert_eq!(read_f32_bits_vec(&mut r, 3), Ok(vec![1, 256, 0x1234abcd]));
    assert_eq!(read_f32_bits_vec(&mut r, 1), Err(DecodeError::Truncated));
    let mut r = Reader::new(&data);
    assert_eq!(read_i32_vec(&mut r, 4), Err(DecodeError::Truncated));
    assert_eq!(r.pos, 0);
    assert_eq!(read_bytes(&mut r, 3), Ok(vec![0, 0, 0]));
    assert_eq!(read_bytes(&mut r, 10), Err(DecodeError::Truncated));
    assert_eq!(read_i32_vec(&mut r, usize::MAX), Err(DecodeError::Truncated));
}

#[test]
fn text_strips_nul_padding() {
    let data = b"abc\0\0\0xyz";
    let mut r = Reader::new(data);
    assert_eq!(read_text(&mut r, 6), Ok("abc".to_string()));
    assert_eq!(read_text(&mut r, 3), Ok("xyz".to_string()));
    assert_eq!(read_text(&mut r, 1), Err(DecodeError::Truncated));
}

#[test]
fn text_keeps_inner_nul() {
    let data = b"a\0b\0";
    let mut r = Reader::new(data);
    assert_eq!(read_text(&mut r, 4), Ok("a\0b".to_string()));
}

#[test]
fn text_decodes_permissively() {
    let data = [b'x', 0xff, b'y', 0, 0];
    let mut r = Reader::new(&data);
    assert_eq!(read_text(&mut r, 5), Ok("x\u{fffd}y".to_string()));
    let data = "é1".as_bytes();
    let mut r = Reader::new(data);
    assert_eq!(read_text(&mut r, 3), Ok("é1".to_string()));
}

#[test]
fn underscores_replace_spaces() {
    assert_eq!(replace_underscore("Von Mises stress"), "Von_Mises_stress");
    assert_eq!(replace_underscore(""), "");
    assert_eq!(replace_underscore("  "), "__");
    assert_eq!(replace_underscore("Ü x"), "Ü_x");
}
