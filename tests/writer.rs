use anim_to_vtk::writer::VtkWriter;

fn ascii() -> VtkWriter {
    VtkWriter::new(false, false)
}

fn binary() -> VtkWriter {
    VtkWriter::new(true, false)
}

#[test]
fn i32_ascii_and_binary() {
    let mut w = ascii();
    w.write_i32(-5);
    w.write_i32(17);
    assert_eq!(w.take_output(), b"-5\n17\n".to_vec());
    let mut w = binary();
    w.write_i32(-2);
    w.write_i32(0x01020304);
    assert_eq!(w.take_output(), vec![0xff, 0xff, 0xff, 0xfe, 1, 2, 3, 4]);
}

#[test]
fn slice_equals_repeated_single_writes() {
    let values: Vec<i32> = (0..20000).map(|i| i * 7919 - 5000000).collect();
    for mode in [false, true] {
        let mut a = VtkWriter::new(mode, false);
        a.write_i32_slice(&values);
        let mut b = VtkWriter::new(mode, false);
        for &v in values.iter() {
            b.write_i32(v);
        }
        assert_eq!(a.take_output(), b.take_output());
    }
}

#[test]
fn i32_line_ascii_and_binary() {
    let mut w = ascii();
    w.write_i32_line(&[4, 1, -2, 3, 4]);
    w.write_i32_line(&[1, 9]);
    w.flush_scratch();
    assert_eq!(w.take_output(), b"4 1 -2 3 4\n1 9\n".to_vec());
    let mut w = binary();
    w.write_i32_line(&[2, 7]);
    assert_eq!(w.take_output(), vec![0, 0, 0, 2, 0, 0, 0, 7]);
}

#[test]
fn batched_and_direct_writes_keep_order() {
    let mut w = ascii();
    w.write_raw(b"a\n");
    w.write_header("b");
    w.write_repeated_line(b"3\n", 3);
    w.newline();
    assert_eq!(w.take_output(), b"a\nb\n3\n3\n3\n\n".to_vec());
}

#[test]
fn scratch_moves_at_threshold() {
    let mut w = ascii();
    let chunk = vec![b'z'; 40000];
    w.write_raw(&chunk);
    w.write_raw(&chunk);
    w.write_raw(b"!");
    let out = w.take_output();
    assert_eq!(out.len(), 80001);
    assert_eq!(out[80000], b'!');
    assert!(w.take_output().is_empty());
}

#[test]
fn zero_padding() {
    let mut w = ascii();
    w.write_zeros_f32(3);
    assert_eq!(w.take_output(), b"0\n0\n0\n".to_vec());
    let mut w = binary();
    w.write_zeros_f32(2);
    assert_eq!(w.take_output(), vec![0u8; 8]);
    let mut w = VtkWriter::new(false, true);
    w.write_zero_tensor();
    assert_eq!(w.take_output(), b"0 0 0\n0 0 0\n0 0 0\n".to_vec());
    let mut w = ascii();
    w.write_zero_tensor();
    assert_eq!(w.take_output(), b"0 0 0\n0 0 0\n0 0 0\n".to_vec());
    let mut w = binary();
    w.write_zero_tensor();
    assert_eq!(w.take_output(), vec![0u8; 36]);
}

#[test]
fn header_lines() {
    let mut w = binary();
    w.write_header("ASCII");
    w.write_header_parts(&["SCALARS ", "temp", " float 1"]);
    w.write_header_name_suffix("TENSORS ", "2DELEM_stress", " float");
    w.write_header_usize("POINTS ", 12345, " float");
    w.write_header_two_usize("CELLS ", 100, " ", 500, "");
    let text = String::from_utf8(w.take_output()).unwrap();
    assert_eq!(
        text,
        "ASCII\nSCALARS temp float 1\nTENSORS 2DELEM_stress float\nPOINTS 12345 float\nCELLS 100 500\n"
    );
}

#[test]
fn big_endian_words() {
    let mut w = ascii();
    w.write_be_words(&[1.5f32.to_bits(), 0xdeadbeef]);
    w.write_be_u64(2.0f64.to_bits());
    let out = w.take_output();
    assert_eq!(&out[..4], &1.5f32.to_be_bytes());
    assert_eq!(&out[4..8], &[0xde, 0xad, 0xbe, 0xef]);
    assert_eq!(&out[8..], &2.0f64.to_be_bytes());
}

#[test]
fn modes_are_reported() {
    let w = VtkWriter::new(false, true);
    assert!(!w.is_binary());
    assert!(w.is_legacy());
    let mut w = binary();
    w.flush();
    assert!(w.is_binary());
    assert!(w.take_output().is_empty());
}
