use mapcombine::bytes::{push_u32, push_u64, read_u32, read_u64};
use mapcombine::{
    load_falkvbo, load_lit_falkvbo, write_falkvbo, write_lit_falkvbo, ReadError, Vertex,
};

fn lit_numbers(vs: &Vec<Vertex>) -> Vec<(u32, u32, u32, u32)> {
    vs.iter().map(|v| (v.0, v.1, v.2, v.3)).collect()
}

#[test]
fn numbers_are_written_least_significant_byte_first() {
    let mut out = vec![0xaa];
    push_u32(&mut out, 0x0403_0201);
    assert_eq!(out, vec![0xaa, 1, 2, 3, 4]);
    push_u64(&mut out, 0x0c0b_0a09_0807_0605);
    assert_eq!(out, vec![0xaa, 1, 2, 3, 4, 5, 6, 7, 8, 9, 10, 11, 12]);
    assert_eq!(read_u32(&out, 1), 0x0403_0201);
    assert_eq!(read_u64(&out, 5), 0x0c0b_0a09_0807_0605);
    assert_eq!(read_u32(&out, 0), 0x0302_01aa);
}

#[test]
fn numbers_agree_with_std() {
    for x in [0u32, 1, 255, 256, 0x1234_5678, 0x8000_0000, u32::MAX] {
        let mut out = Vec::new();
        push_u32(&mut out, x);
        assert_eq!(out, x.to_le_bytes().to_vec());
        assert_eq!(read_u32(&out, 0), x);
    }
    for x in [0u64, 1, 0xffff_ffff, 0x1_0000_0000, 0x0123_4567_89ab_cdef, u64::MAX] {
        let mut out = Vec::new();
        push_u64(&mut out, x);
        assert_eq!(out, x.to_le_bytes().to_vec());
        assert_eq!(read_u64(&out, 0), x);
    }
}

#[test]
fn file_of_positions_has_the_fixed_layout() {
    let vs = vec![(1.0f32.to_bits(), (-2.0f32).to_bits(), 0.5f32.to_bits())];
    let is = vec![(0, 0, 0), (7, 8, 0x0102_0304)];
    let mut expected: Vec<u8> = Vec::new();
    expected.extend_from_slice(&1u64.to_le_bytes());
    expected.extend_from_slice(&1.0f32.to_le_bytes());
    expected.extend_from_slice(&(-2.0f32).to_le_bytes());
    expected.extend_from_slice(&0.5f32.to_le_bytes());
    expected.extend_from_slice(&2u64.to_le_bytes());
    for i in [0u32, 0, 0, 7, 8, 0x0102_0304] {
        expected.extend_from_slice(&i.to_le_bytes());
    }
    assert_eq!(write_falkvbo(&vs, &is), expected);
    assert_eq!(expected.len(), 8 + 12 + 8 + 24);
    assert_eq!(
        &expected[..20],
        &[1, 0, 0, 0, 0, 0, 0, 0, 0, 0, 0x80, 0x3f, 0, 0, 0, 0xc0, 0, 0, 0, 0x3f]
    );
}

#[test]
fn file_of_lit_vertices_has_the_fixed_layout() {
    let vs = vec![
        Vertex(1.0f32.to_bits(), (-2.0f32).to_bits(), 0.5f32.to_bits(), 0.25f32.to_bits()),
        Vertex(1, 2, 3, 4),
    ];
    let is = vec![(1, 0, 1)];
    let mut expected: Vec<u8> = Vec::new();
    expected.extend_from_slice(&2u64.to_le_bytes());
    for x in [1.0f32, -2.0, 0.5, 0.25] {
        expected.extend_from_slice(&x.to_le_bytes());
    }
    for x in [1u32, 2, 3, 4] {
        expected.extend_from_slice(&x.to_le_bytes());
    }
    expected.extend_from_slice(&1u64.to_le_bytes());
    for i in [1u32, 0, 1] {
        expected.extend_from_slice(&i.to_le_bytes());
    }
    assert_eq!(write_lit_falkvbo(&vs, &is), expected);
    assert_eq!(expected.len(), 8 + 2 * 16 + 8 + 12);
}

#[test]
fn empty_lists_are_two_zero_counts() {
    assert_eq!(write_falkvbo(&vec![], &vec![]), vec![0u8; 16]);
    assert_eq!(write_lit_falkvbo(&vec![], &vec![]), vec![0u8; 16]);
    assert_eq!(load_falkvbo(&[0u8; 16]), Ok((vec![], vec![])));
    let (vs, is) = load_lit_falkvbo(&[0u8; 16]).unwrap();
    assert!(vs.is_empty() && is.is_empty());
}

#[test]
fn positions_round_trip() {
    let vs = vec![
        (0, 0, 0),
        (1.0f32.to_bits(), 2.0f32.to_bits(), 3.0f32.to_bits()),
        (f32::NAN.to_bits(), 0x8000_0000, u32::MAX),
        (0x7fc0_0001, 0xffc0_0001, 0x0000_0001),
    ];
    let is = vec![(0, 1, 2), (3, 3, 3), (u32::MAX, 0, 0x8000_0000)];
    let bytes = write_falkvbo(&vs, &is);
    assert_eq!(load_falkvbo(&bytes), Ok((vs.clone(), is.clone())));
    let (v2, i2) = load_falkvbo(&bytes).unwrap();
    assert_eq!(write_falkvbo(&v2, &i2), bytes);
    assert_eq!(load_falkvbo(&write_falkvbo(&vs, &vec![])), Ok((vs.clone(), vec![])));
    assert_eq!(load_falkvbo(&write_falkvbo(&vec![], &is)), Ok((vec![], is.clone())));
}

#[test]
fn lit_vertices_round_trip() {
    let vs = vec![Vertex(0, 0, 0, 0), Vertex(1, 2, 3, 4), Vertex(u32::MAX, 0x7fc0_0000, 5, 0x3f00_0000)];
    let is = vec![(0, 1, 2), (2, 1, 0)];
    let bytes = write_lit_falkvbo(&vs, &is);
    let (v2, i2) = load_lit_falkvbo(&bytes).unwrap();
    assert_eq!(lit_numbers(&v2), lit_numbers(&vs));
    assert_eq!(i2, is);
    assert_eq!(write_lit_falkvbo(&v2, &i2), bytes);
}

#[test]
fn the_two_layouts_differ_in_the_vertices_only() {
    let lit = vec![Vertex(1, 2, 3, 4), Vertex(5, 6, 7, 8)];
    let plain = vec![(1, 2, 3), (5, 6, 7)];
    let is = vec![(0, 1, 0)];
    let a = write_lit_falkvbo(&lit, &is);
    let b = write_falkvbo(&plain, &is);
    assert_eq!(a.len(), b.len() + 2 * 4);
    assert_eq!(a[..8], b[..8]);
    assert_eq!(a[a.len() - 20..], b[b.len() - 20..]);
}

#[test]
fn bytes_behind_the_file_are_not_read() {
    let vs = vec![(1, 2, 3)];
    let is = vec![(0, 0, 0)];
    let mut bytes = write_falkvbo(&vs, &is);
    let len = bytes.len();
    bytes.extend_from_slice(&[9, 9, 9, 9, 9]);
    let (v2, i2) = load_falkvbo(&bytes).unwrap();
    assert_eq!((v2.clone(), i2.clone()), (vs, is));
    assert_eq!(write_falkvbo(&v2, &i2), bytes[..len].to_vec());
}

#[test]
fn truncated_files_are_refused() {
    let vs = vec![(1, 2, 3), (4, 5, 6)];
    let is = vec![(0, 1, 0), (1, 0, 1), (1, 1, 1)];
    let bytes = write_falkvbo(&vs, &is);
    assert_eq!(bytes.len(), 8 + 24 + 8 + 36);
    for cut in 0..bytes.len() {
        let expected = if cut < 8 {
            ReadError::VertexCount
        } else if cut < 8 + 24 + 8 {
            ReadError::Vertices
        } else {
            ReadError::Triangles
        };
        assert_eq!(load_falkvbo(&bytes[..cut]), Err(expected), "cut at {}", cut);
    }
    assert!(load_falkvbo(&bytes).is_ok());
}

#[test]
fn truncated_lit_files_are_refused() {
    let vs = vec![Vertex(1, 2, 3, 4), Vertex(4, 5, 6, 7)];
    let is = vec![(0, 1, 0)];
    let bytes = write_lit_falkvbo(&vs, &is);
    assert_eq!(bytes.len(), 8 + 32 + 8 + 12);
    for cut in 0..bytes.len() {
        let expected = if cut < 8 {
            ReadError::VertexCount
        } else if cut < 8 + 32 + 8 {
            ReadError::Vertices
        } else {
            ReadError::Triangles
        };
        assert_eq!(load_lit_falkvbo(&bytes[..cut]).unwrap_err(), expected, "cut at {}", cut);
    }
    assert!(load_lit_falkvbo(&bytes).is_ok());
}

#[test]
fn counts_larger_than_the_file_are_refused() {
    let mut bytes = u64::MAX.to_le_bytes().to_vec();
    bytes.extend_from_slice(&[0u8; 64]);
    assert_eq!(load_falkvbo(&bytes), Err(ReadError::Vertices));
    assert_eq!(load_lit_falkvbo(&bytes).unwrap_err(), ReadError::Vertices);
    let mut bytes = 0u64.to_le_bytes().to_vec();
    bytes.extend_from_slice(&(u64::MAX / 12 + 1).to_le_bytes());
    bytes.extend_from_slice(&[0u8; 64]);
    assert_eq!(load_falkvbo(&bytes), Err(ReadError::Triangles));
    let mut bytes = (1u64 << 32).to_le_bytes().to_vec();
    bytes.extend_from_slice(&[0u8; 8]);
    assert_eq!(load_falkvbo(&bytes), Err(ReadError::Vertices));
}

#[test]
fn a_file_of_one_layout_read_as_the_other() {
    // Nothing in a file tells the layout: three vertices of four numbers
    // are as long as four vertices of three.
    let lit = vec![Vertex(1, 2, 3, 4), Vertex(5, 6, 7, 8), Vertex(9, 10, 11, 12)];
    let mut bytes = write_lit_falkvbo(&lit, &vec![]);
    bytes[0] = 4;
    let (vs, is) = load_falkvbo(&bytes).unwrap();
    assert_eq!(vs, vec![(1, 2, 3), (4, 5, 6), (7, 8, 9), (10, 11, 12)]);
    assert!(is.is_empty());
}
