use mapcombine::{load_falkvbo, scan, ObjFile, Record, Statement, Vertex};

fn number(field: &[u8]) -> Option<u32> {
    let text = std::str::from_utf8(field).ok()?;
    let value: f32 = text.parse().ok()?;
    Some(value.to_bits())
}

fn records(text: &str) -> Option<Vec<Record>> {
    let mut out = Vec::new();
    for statement in scan(text.as_bytes()).ok()? {
        out.push(match statement {
            Statement::Vertex(x, y, z) => Record::Vertex(number(&x)?, number(&y)?, number(&z)?),
            Statement::Face(a, b, c) => Record::Face(a, b, c),
        });
    }
    Some(out)
}

fn positions(vs: &Vec<Vertex>) -> Vec<(f32, f32, f32)> {
    vs.iter().map(|v| (f32::from_bits(v.0), f32::from_bits(v.1), f32::from_bits(v.2))).collect()
}

#[test]
fn one_triangle_from_text_to_file() {
    let records = records("v 0 0 0\nv 1 0 0\nv 0 1 0\nf 1 2 3\n").unwrap();
    let mut mesh = ObjFile::new();
    assert!(mesh.load(&records).is_ok());
    assert_eq!(mesh.len(), 1);
    let (vs, is) = mesh.to_indexed_buffers().unwrap();
    assert_eq!(positions(&vs), vec![(0., 0., 0.), (1., 0., 0.), (0., 1., 0.)]);
    assert_eq!(is, vec![(0, 1, 2)]);
    let bytes = mesh.write_vbo_index().unwrap();
    assert_eq!(bytes.len(), 8 + 3 * 12 + 8 + 1 * 12);
    assert_eq!(u64::from_le_bytes(bytes[0..8].try_into().unwrap()), 3);
    assert_eq!(u64::from_le_bytes(bytes[44..52].try_into().unwrap()), 1);
    let (ps, js) = load_falkvbo(&bytes).unwrap();
    assert_eq!(
        ps,
        vec![
            (0f32.to_bits(), 0f32.to_bits(), 0f32.to_bits()),
            (1f32.to_bits(), 0f32.to_bits(), 0f32.to_bits()),
            (0f32.to_bits(), 1f32.to_bits(), 0f32.to_bits()),
        ]
    );
    assert_eq!(js, vec![(0, 1, 2)]);
}

#[test]
fn a_line_with_a_missing_number_fails_the_load() {
    assert!(records("v 1.0 2.0").is_none());
    assert!(records("v 0 0 0\nv 1.0 2.0\nv 0 1 0\nf 1 2 3\n").is_none());
}

#[test]
fn a_malformed_number_fails_the_load() {
    assert!(records("v 1.0 2.0 x\n").is_none());
    assert!(records("v 1.0  2.0\n").is_none());
    assert!(records("v 1.0 2.0 3.0\n").is_some());
}

#[test]
fn two_files_make_one_mesh() {
    let first = records("v 0 0 0\nv 1 0 0\nv 0 1 0\nf 1 2 3\n").unwrap();
    let second = records("v 0 1 0\nv 0 0 0\nv 1 0 0\nv 0 0 1\nf 2 3 1\nf 2 3 4\n").unwrap();
    let mut mesh = ObjFile::new();
    assert!(mesh.load(&first).is_ok());
    assert!(mesh.load(&second).is_ok());
    assert_eq!(mesh.len(), 2);
    let (vs, is) = mesh.to_indexed_buffers().unwrap();
    assert_eq!(
        positions(&vs),
        vec![(0., 0., 0.), (1., 0., 0.), (0., 0., 1.), (0., 1., 0.)]
    );
    assert_eq!(is, vec![(0, 1, 2), (0, 1, 3)]);
}

#[test]
fn numbers_in_any_writing_are_one_vertex() {
    let records = records("v 1 0 0\nv 1.0 0.0 -0\nv 1e0 0e5 0\nv 0 2 0\nf 1 2 4\nf 3 1 4\n").unwrap();
    let mut mesh = ObjFile::new();
    assert!(mesh.load(&records).is_ok());
    assert_eq!(mesh.len(), 1);
    let (vs, is) = mesh.to_indexed_buffers().unwrap();
    assert_eq!(vs.len(), 2);
    assert_eq!(is, vec![(0, 0, 1)]);
}
