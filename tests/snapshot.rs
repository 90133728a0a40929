use anim_to_vtk::cells::{build_cells, VTK_HEXAHEDRON, VTK_LINE, VTK_QUAD, VTK_TETRA, VTK_TRIANGLE, VTK_VERTEX};
use anim_to_vtk::decode::decode_anim;
use anim_to_vtk::emit::{
    cell_int_count, erosion_status, write_cell_i32_values, write_cell_types, write_cells,
    write_element_ids, write_erosion_status, write_part_ids,
};
use anim_to_vtk::reader::DecodeError;
use anim_to_vtk::writer::VtkWriter;

struct Stream {
    bytes: Vec<u8>,
}

impl Stream {
    fn i32(&mut self, v: i32) {
        self.bytes.extend_from_slice(&v.to_be_bytes());
    }
    fn i32s(&mut self, vs: &[i32]) {
        for &v in vs {
            self.i32(v);
        }
    }
    fn f32s(&mut self, vs: &[f32]) {
        for &v in vs {
            self.bytes.extend_from_slice(&v.to_be_bytes());
        }
    }
    fn text(&mut self, s: &str, width: usize) {
        let mut b = s.as_bytes().to_vec();
        b.resize(width, 0);
        self.bytes.extend_from_slice(&b);
    }
}

/// A small snapshot with every class present: 4 nodes, one 1D element,
/// two 2D elements (a quad and a triangle), two 3D elements (a tetrahedron
/// and a hexahedron) and one SPH particle.
fn sample() -> Vec<u8> {
    let mut s = Stream { bytes: Vec::new() };
    s.i32(0x542c);
    s.f32s(&[0.5]);
    s.text("time", 81);
    s.text("model", 81);
    s.text("run", 81);
    s.i32s(&[0, 1, 1, 1, 0, 0, 0, 1, 0, 0]);
    // 2D section: nodes, facets, parts, nodal scalars, elemental scalars,
    // vectors, tensors, skews
    s.i32s(&[4, 2, 1, 1, 1, 1, 1, 0]);
    s.f32s(&[0.0, 0.0, 0.0, 1.0, 0.0, 0.0, 1.0, 1.0, 0.0, 0.0, 1.0, 0.0]);
    s.i32s(&[0, 1, 2, 3, 0, 0, 1, 2]);
    s.bytes.extend_from_slice(&[0, 1]);
    s.i32s(&[0]);
    s.text("7", 50);
    s.bytes.extend_from_slice(&[0u8; 24]);
    s.text("node temp", 81);
    s.text("elem energy", 81);
    s.f32s(&[1.0, 2.0, 3.0, 4.0]);
    s.f32s(&[5.0, 6.0]);
    s.text("velocity", 81);
    s.f32s(&[0.0; 12]);
    s.text("stress", 81);
    s.f32s(&[1.0, 2.0, 3.0, 4.0, 5.0, 6.0]);
    s.i32s(&[101, 102, 103, 104]);
    s.i32s(&[201, 202]);
    // 3D section
    s.i32s(&[2, 1, 0, 0]);
    s.i32s(&[1, 1, 2, 2, 3, 3, 4, 4, 0, 1, 2, 3, 4, 5, 6, 7]);
    s.bytes.extend_from_slice(&[1, 0]);
    s.i32s(&[0]);
    s.text("3", 50);
    s.i32s(&[301, 302]);
    // 1D section
    s.i32s(&[1, 0, 0, 0, 0]);
    s.i32s(&[2, 3]);
    s.bytes.extend_from_slice(&[0]);
    s.i32s(&[401]);
    // SPH section
    s.i32s(&[1, 0, 0, 0]);
    s.i32s(&[3]);
    s.bytes.extend_from_slice(&[1]);
    s.i32s(&[501]);
    s.bytes
}

#[test]
fn decodes_sample_snapshot() {
    let data = sample();
    let m = decode_anim(&data).unwrap();
    assert_eq!(m.time_bits, 0.5f32.to_bits());
    assert_eq!(m.flags, vec![0, 1, 1, 1, 0, 0, 0, 1, 0, 0]);
    assert_eq!(m.nodes.count, 4);
    assert_eq!(m.nodes.coords.len(), 12);
    assert_eq!(m.nodes.scalar_names, vec!["node_temp".to_string()]);
    assert_eq!(m.nodes.scalars, vec![1.0f32.to_bits(), 2.0f32.to_bits(), 3.0f32.to_bits(), 4.0f32.to_bits()]);
    assert_eq!(m.nodes.vector_names, vec!["velocity".to_string()]);
    assert_eq!(m.nodes.ids, vec![101, 102, 103, 104]);
    assert_eq!(m.shells.count, 2);
    assert_eq!(m.shells.connect, vec![0, 1, 2, 3, 0, 0, 1, 2]);
    assert_eq!(m.shells.deleted, vec![0, 1]);
    assert_eq!(m.shells.part_names, vec!["7".to_string()]);
    assert_eq!(m.shells.scalar_names, vec!["elem_energy".to_string()]);
    assert_eq!(m.shells.tensor_names, vec!["stress".to_string()]);
    assert_eq!(m.shells.tensors.len(), 6);
    assert_eq!(m.shells.ids, vec![201, 202]);
    assert_eq!(m.solids.count, 2);
    assert_eq!(m.solids.ids, vec![301, 302]);
    assert_eq!(m.beams.count, 1);
    assert_eq!(m.beams.connect, vec![2, 3]);
    assert_eq!(m.sph.count, 1);
    assert_eq!(m.sph.connect, vec![3]);
    assert_eq!(m.sph.ids, vec![501]);
}

#[test]
fn unset_flags_skip_sections() {
    let mut data = sample();
    // clear the 3D, 1D and SPH flags: the stream then ends after the 2D
    // section and the rest is not read
    for k in [2usize, 3, 7] {
        let at = 251 + 4 * k;
        data[at..at + 4].copy_from_slice(&0i32.to_be_bytes());
    }
    let m = decode_anim(&data).unwrap();
    assert_eq!(m.solids.count, 0);
    assert_eq!(m.beams.count, 0);
    assert_eq!(m.sph.count, 0);
    assert_eq!(m.shells.count, 2);
}

#[test]
fn rejects_unknown_magic() {
    let mut data = sample();
    data[3] = 0x2d;
    assert_eq!(decode_anim(&data).err(), Some(DecodeError::UnsupportedFormat));
}

#[test]
fn rejects_truncated_streams() {
    let data = sample();
    assert_eq!(decode_anim(&[]).err(), Some(DecodeError::Truncated));
    assert_eq!(decode_anim(&data[..2]).err(), Some(DecodeError::Truncated));
    for cut in [4usize, 100, 291, 300, 600, data.len() - 1] {
        assert_eq!(decode_anim(&data[..cut]).err(), Some(DecodeError::Truncated));
    }
}

#[test]
fn rejects_negative_counts() {
    let mut data = sample();
    data[291..295].copy_from_slice(&(-1i32).to_be_bytes());
    assert_eq!(decode_anim(&data).err(), Some(DecodeError::Truncated));
}

#[test]
fn cell_table_of_sample() {
    let data = sample();
    let m = decode_anim(&data).unwrap();
    let t = build_cells(&m);
    let rows: Vec<Vec<i32>> = t.rows.clone();
    assert_eq!(
        rows,
        vec![
            vec![2, 2, 3],
            vec![4, 0, 1, 2, 3],
            vec![3, 0, 1, 2],
            vec![4, 1, 2, 3, 4],
            vec![8, 0, 1, 2, 3, 4, 5, 6, 7],
            vec![1, 3],
        ]
    );
    assert_eq!(
        t.types,
        vec![VTK_LINE, VTK_QUAD, VTK_TRIANGLE, VTK_TETRA, VTK_HEXAHEDRON, VTK_VERTEX]
    );
}

#[test]
fn cell_counts_match_rows() {
    let data = sample();
    let m = decode_anim(&data).unwrap();
    let t = build_cells(&m);
    let total = m.beams.count + m.shells.count + m.solids.count + m.sph.count;
    assert_eq!(t.rows.len(), total);
    assert_eq!(total, 6);
    let declared = cell_int_count(&t).unwrap();
    let summed: usize = t.rows.iter().map(|r| r[0] as usize + 1).sum();
    assert_eq!(declared, summed);
    assert_eq!(declared, 3 + 5 + 4 + 5 + 9 + 2);
}

#[test]
fn cells_section_ascii() {
    let data = sample();
    let m = decode_anim(&data).unwrap();
    let t = build_cells(&m);
    let mut w = VtkWriter::new(false, false);
    write_cells(&mut w, &t, cell_int_count(&t).unwrap());
    write_cell_types(&mut w, &t);
    let text = String::from_utf8(w.take_output()).unwrap();
    assert_eq!(
        text,
        "CELLS 6 28\n2 2 3\n4 0 1 2 3\n3 0 1 2\n4 1 2 3 4\n8 0 1 2 3 4 5 6 7\n1 3\n\n\
         CELL_TYPES 6\n3\n9\n5\n10\n12\n1\n\n"
    );
}

#[test]
fn empty_cell_table_writes_separators() {
    let mut s = sample();
    // no facets and no classes beyond the 2D one
    s.truncate(291);
    let mut w = Vec::new();
    w.extend_from_slice(&s);
    for v in [0i32, 0, 0, 0, 0, 0, 0, 0] {
        w.extend_from_slice(&v.to_be_bytes());
    }
    for k in [2usize, 3, 7] {
        let at = 251 + 4 * k;
        w[at..at + 4].copy_from_slice(&0i32.to_be_bytes());
    }
    let m = decode_anim(&w).unwrap();
    let t = build_cells(&m);
    let mut out = VtkWriter::new(false, false);
    write_cells(&mut out, &t, cell_int_count(&t).unwrap());
    write_cell_types(&mut out, &t);
    assert_eq!(out.take_output(), b"\n\n".to_vec());
}

fn parse_ascii_ints(text: &str) -> Vec<i32> {
    text.split_whitespace().filter_map(|w| w.parse::<i32>().ok()).collect()
}

fn parse_binary_ints(bytes: &[u8]) -> Vec<i32> {
    bytes.chunks_exact(4).map(|c| i32::from_be_bytes([c[0], c[1], c[2], c[3]])).collect()
}

#[test]
fn binary_and_ascii_cells_agree() {
    let data = sample();
    let m = decode_anim(&data).unwrap();
    let t = build_cells(&m);
    let size = cell_int_count(&t).unwrap();
    let mut a = VtkWriter::new(false, false);
    write_cells(&mut a, &t, size);
    let ascii = String::from_utf8(a.take_output()).unwrap();
    let mut b = VtkWriter::new(true, false);
    write_cells(&mut b, &t, size);
    let bin = b.take_output();
    let header = b"CELLS 6 28\n";
    assert!(bin.starts_with(header));
    let body = &bin[header.len()..bin.len() - 1];
    let ascii_body = &ascii["CELLS 6 28\n".len()..];
    assert_eq!(parse_binary_ints(body), parse_ascii_ints(ascii_body));
    assert_eq!(parse_binary_ints(body).len(), size);
}

#[test]
fn element_ids_and_erosion() {
    let data = sample();
    let m = decode_anim(&data).unwrap();
    let mut w = VtkWriter::new(false, false);
    write_cell_i32_values(&mut w, &[&m.beams.ids, &m.shells.ids, &m.solids.ids, &m.sph.ids]);
    assert_eq!(w.take_output(), b"401\n201\n202\n301\n302\n501\n\n".to_vec());
    assert_eq!(erosion_status(&m.shells.deleted), vec![0, 1]);
    assert_eq!(erosion_status(&[2, 1, 0, 255]), vec![0, 1, 0, 0]);
}

/// A snapshot with every optional table: masses, numbering, part
/// hierarchy, time-history references, a 1D skew table and skew frames.
fn full_sample() -> Vec<u8> {
    let mut s = Stream { bytes: Vec::new() };
    s.i32(0x542c);
    s.f32s(&[2.25]);
    s.text("t", 81);
    s.text("m", 81);
    s.text("r", 81);
    s.i32s(&[1, 1, 1, 1, 1, 1, 0, 1, 0, 0]);
    // 2D: 2 nodes, 1 facet, 1 part, no fields, 1 skew frame
    s.i32s(&[2, 1, 1, 0, 0, 0, 0, 1]);
    s.bytes.extend_from_slice(&[0u8; 12]);
    s.f32s(&[0.0; 6]);
    s.i32s(&[0, 1, 1, 1]);
    s.bytes.extend_from_slice(&[0]);
    s.i32s(&[0]);
    s.text("12", 50);
    s.bytes.extend_from_slice(&[0u8; 12]);
    s.f32s(&[1.0]);
    s.f32s(&[1.0, 1.0]);
    s.i32s(&[11, 12]);
    s.i32s(&[21]);
    s.i32s(&[5, 6, 7]);
    // 3D: 1 element, 1 part, 1 scalar, 1 tensor
    s.i32s(&[1, 1, 1, 1]);
    s.i32s(&[0, 1, 2, 3, 4, 5, 6, 7]);
    s.bytes.extend_from_slice(&[0]);
    s.i32s(&[0]);
    s.text("30", 50);
    s.text("pressure", 81);
    s.f32s(&[3.5]);
    s.text("stress", 81);
    s.f32s(&[1.0, 2.0, 3.0, 4.0, 5.0, 6.0]);
    s.f32s(&[9.0]);
    s.i32s(&[31]);
    s.i32s(&[1, 2, 3]);
    // 1D: 1 element, no parts, no scalars, 1 force/moment set, skew table
    s.i32s(&[1, 0, 0, 1, 1]);
    s.i32s(&[0, 1]);
    s.bytes.extend_from_slice(&[1]);
    s.text("force", 81);
    s.f32s(&[1.0, 2.0, 3.0, 4.0, 5.0, 6.0, 7.0, 8.0, 9.0]);
    s.i32s(&[4]);
    s.f32s(&[0.5]);
    s.i32s(&[41]);
    // part hierarchy: 1 subset with 1 child, 1 2D part, no 3D or 1D parts
    s.i32s(&[1]);
    s.text("root", 50);
    s.i32s(&[0, 1, 9, 1, 1, 0, 0]);
    s.i32s(&[1, 1]);
    s.text("steel", 50);
    s.i32s(&[2]);
    s.text("shell", 50);
    s.i32s(&[3]);
    // time-history references: 1 node, none else
    s.i32s(&[1, 0, 0, 0]);
    s.i32s(&[7]);
    s.text("node 7", 50);
    // SPH: 2 particles, no parts or fields
    s.i32s(&[2, 0, 0, 0]);
    s.i32s(&[0, 1]);
    s.bytes.extend_from_slice(&[0, 0]);
    s.f32s(&[1.0, 1.0]);
    s.i32s(&[51, 52]);
    s.bytes
}

#[test]
fn decodes_every_optional_table() {
    let data = full_sample();
    let m = decode_anim(&data).unwrap();
    assert_eq!(m.time_bits, 2.25f32.to_bits());
    assert_eq!(m.nodes.ids, vec![11, 12]);
    assert_eq!(m.shells.ids, vec![21]);
    assert_eq!(m.shells.part_names, vec!["12".to_string()]);
    assert_eq!(m.solids.scalar_names, vec!["pressure".to_string()]);
    assert_eq!(m.solids.scalars, vec![3.5f32.to_bits()]);
    assert_eq!(m.solids.tensors.len(), 6);
    assert_eq!(m.solids.ids, vec![31]);
    assert_eq!(m.beams.tensor_names, vec!["force".to_string()]);
    assert_eq!(m.beams.tensors.len(), 9);
    assert_eq!(m.beams.deleted, vec![1]);
    assert_eq!(m.beams.ids, vec![41]);
    assert_eq!(m.sph.count, 2);
    assert_eq!(m.sph.ids, vec![51, 52]);
}

#[test]
fn trailing_bytes_are_ignored() {
    let mut data = full_sample();
    data.extend_from_slice(&[1, 2, 3]);
    assert!(decode_anim(&data).is_ok());
}

#[test]
fn every_cut_of_a_full_stream_is_truncated() {
    let data = full_sample();
    for cut in 0..data.len() {
        assert_eq!(decode_anim(&data[..cut]).err(), Some(DecodeError::Truncated), "cut at {}", cut);
    }
    assert!(decode_anim(&data).is_ok());
}

#[test]
fn cell_scalar_sections() {
    let data = sample();
    let m = decode_anim(&data).unwrap();
    let mut w = VtkWriter::new(false, false);
    write_element_ids(&mut w, &m.beams, &m.shells, &m.solids, &m.sph);
    write_part_ids(&mut w, &m.beams, &m.shells, &m.solids, &m.sph);
    write_erosion_status(&mut w, &m.beams, &m.shells, &m.solids, &m.sph);
    let text = String::from_utf8(w.take_output()).unwrap();
    assert_eq!(
        text,
        "SCALARS ELEMENT_ID int 1\nLOOKUP_TABLE default\n401\n201\n202\n301\n302\n501\n\n\
         SCALARS PART_ID int 1\nLOOKUP_TABLE default\n0\n7\n7\n3\n3\n0\n\n\
         SCALARS EROSION_STATUS int 1\nLOOKUP_TABLE default\n0\n0\n1\n1\n0\n1\n\n"
    );
}

#[test]
fn part_id_section_binary() {
    let data = sample();
    let m = decode_anim(&data).unwrap();
    let mut w = VtkWriter::new(true, false);
    write_part_ids(&mut w, &m.beams, &m.shells, &m.solids, &m.sph);
    let out = w.take_output();
    let header = b"SCALARS PART_ID int 1\nLOOKUP_TABLE default\n";
    assert!(out.starts_with(header));
    assert_eq!(parse_binary_ints(&out[header.len()..out.len() - 1]), vec![0, 7, 7, 3, 3, 0]);
    assert_eq!(out[out.len() - 1], b'\n');
}
