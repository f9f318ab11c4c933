use mapcombine::buffers::positions_of;
use mapcombine::{load_falkvbo, BufferError, ObjFile, Record, Vertex};

fn v(x: f32, y: f32, z: f32) -> Record {
    Record::Vertex(x.to_bits(), y.to_bits(), z.to_bits())
}

fn numbers(vs: &Vec<Vertex>) -> Vec<(f32, f32, f32, f32)> {
    vs.iter()
        .map(|v| (f32::from_bits(v.0), f32::from_bits(v.1), f32::from_bits(v.2), f32::from_bits(v.3)))
        .collect()
}

fn two_triangles() -> ObjFile {
    let mut mesh = ObjFile::new();
    let records = vec![
        v(0., 0., 0.),
        v(1., 0., 0.),
        v(0., 1., 0.),
        v(-1., 0., 0.),
        Record::Face(1, 2, 3),
        Record::Face(4, 1, 3),
    ];
    assert!(mesh.load(&records).is_ok());
    mesh
}

#[test]
fn empty_mesh_gives_empty_buffers() {
    let mesh = ObjFile::new();
    let (vs, is) = mesh.to_indexed_buffers().unwrap();
    assert!(vs.is_empty());
    assert!(is.is_empty());
    let (vs, is) = mesh.vbo_and_triangles(&vec![]).unwrap();
    assert!(vs.is_empty());
    assert!(is.is_empty());
}

#[test]
fn empty_mesh_is_written_as_two_zero_counts() {
    let bytes = ObjFile::new().write_vbo_index().unwrap();
    assert_eq!(bytes, vec![0u8; 16]);
}

#[test]
fn one_triangle_gives_three_vertices() {
    let mut mesh = ObjFile::new();
    let records = vec![v(0., 0., 0.), v(1., 0., 0.), v(0., 1., 0.), Record::Face(1, 2, 3)];
    assert!(mesh.load(&records).is_ok());
    let (vs, is) = mesh.to_indexed_buffers().unwrap();
    assert_eq!(
        numbers(&vs),
        vec![(0., 0., 0., 0.5), (1., 0., 0., 0.5), (0., 1., 0., 0.5)]
    );
    assert_eq!(is, vec![(0, 1, 2)]);
}

#[test]
fn shared_vertices_are_listed_once() {
    let mesh = two_triangles();
    let (vs, is) = mesh.to_indexed_buffers().unwrap();
    // The triangle with the corner at -1 comes first in the mesh.
    assert_eq!(
        numbers(&vs),
        vec![(-1., 0., 0., 0.5), (0., 0., 0., 0.5), (0., 1., 0., 0.5), (1., 0., 0., 0.5)]
    );
    assert_eq!(is, vec![(0, 1, 2), (1, 3, 2)]);
}

#[test]
fn a_corner_used_twice_in_a_triangle_has_one_index() {
    let mut mesh = ObjFile::new();
    let records = vec![v(3., 0., 0.), v(4., 0., 0.), Record::Face(2, 1, 2), Record::Face(1, 1, 1)];
    assert!(mesh.load(&records).is_ok());
    let (vs, is) = mesh.to_indexed_buffers().unwrap();
    assert_eq!(numbers(&vs), vec![(3., 0., 0., 0.5), (4., 0., 0., 0.5)]);
    assert_eq!(is, vec![(0, 0, 0), (1, 0, 1)]);
}

#[test]
fn indices_name_vertices_of_the_list() {
    let mut mesh = ObjFile::new();
    let mut records = Vec::new();
    for i in 0..20 {
        records.push(v((i % 5) as f32, (i % 3) as f32, (i % 2) as f32));
    }
    for i in 0..18 {
        records.push(Record::Face(i + 1, i + 2, (i * 7) % 20 + 1));
    }
    assert!(mesh.load(&records).is_ok());
    let triangles = mesh.triangles();
    let (vs, is) = mesh.to_indexed_buffers().unwrap();
    assert_eq!(is.len(), mesh.len());
    for (t, i) in triangles.iter().zip(is.iter()) {
        assert!((i.0 as usize) < vs.len() && (i.1 as usize) < vs.len() && (i.2 as usize) < vs.len());
        assert!(vs[i.0 as usize] == t.0);
        assert!(vs[i.1 as usize] == t.1);
        assert!(vs[i.2 as usize] == t.2);
    }
    for a in 0..vs.len() {
        for b in 0..a {
            assert!(vs[a] != vs[b]);
        }
    }
}

#[test]
fn conversion_is_deterministic() {
    let mesh = two_triangles();
    let (v1, i1) = mesh.to_indexed_buffers().unwrap();
    let (v2, i2) = mesh.to_indexed_buffers().unwrap();
    assert_eq!(numbers(&v1), numbers(&v2));
    assert_eq!(i1, i2);
    let brightness = vec![0.25f32.to_bits(), 0.75f32.to_bits()];
    let (l1, j1) = mesh.vbo_and_triangles(&brightness).unwrap();
    let (l2, j2) = mesh.vbo_and_triangles(&brightness).unwrap();
    assert_eq!(numbers(&l1), numbers(&l2));
    assert_eq!(j1, j2);
    assert_eq!(i1, j1);
    assert_eq!(mesh.write_vbo_index().unwrap(), mesh.write_vbo_index().unwrap());
}

#[test]
fn the_last_triangle_decides_the_brightness() {
    let mesh = two_triangles();
    let brightness = vec![0.25f32.to_bits(), 0.75f32.to_bits()];
    let (vs, is) = mesh.vbo_and_triangles(&brightness).unwrap();
    assert_eq!(is, vec![(0, 1, 2), (1, 3, 2)]);
    assert_eq!(
        numbers(&vs),
        vec![(-1., 0., 0., 0.25), (0., 0., 0., 0.75), (0., 1., 0., 0.75), (1., 0., 0., 0.75)]
    );
    let brightness = vec![1.0f32.to_bits(), 0.0f32.to_bits()];
    let (vs, _) = mesh.vbo_and_triangles(&brightness).unwrap();
    assert_eq!(
        numbers(&vs),
        vec![(-1., 0., 0., 1.), (0., 0., 0., 0.), (0., 1., 0., 0.), (1., 0., 0., 0.)]
    );
}

#[test]
fn brightness_is_carried_bit_for_bit() {
    let mesh = two_triangles();
    let brightness = vec![0x7fc0_1234, 0x8000_0000];
    let (vs, _) = mesh.vbo_and_triangles(&brightness).unwrap();
    assert_eq!(vs[0].3, 0x7fc0_1234);
    assert_eq!(vs[1].3, 0x8000_0000);
    assert_eq!(vs[2].3, 0x8000_0000);
    assert_eq!(vs[3].3, 0x8000_0000);
}

#[test]
fn brightness_must_match_the_triangles() {
    let mesh = two_triangles();
    assert_eq!(mesh.vbo_and_triangles(&vec![]).unwrap_err(), BufferError::BrightnessCount);
    assert_eq!(mesh.vbo_and_triangles(&vec![1]).unwrap_err(), BufferError::BrightnessCount);
    assert_eq!(mesh.vbo_and_triangles(&vec![1, 2, 3]).unwrap_err(), BufferError::BrightnessCount);
    assert_eq!(
        ObjFile::new().vbo_and_triangles(&vec![1]).unwrap_err(),
        BufferError::BrightnessCount
    );
}

#[test]
fn the_first_writing_of_a_vertex_is_kept() {
    let mut mesh = ObjFile::new();
    let records = vec![
        v(-0., 0., 0.),
        v(1., 0., 0.),
        v(0., 1., 0.),
        v(0., -0., 0.),
        v(2., 0., 0.),
        Record::Face(1, 2, 3),
        Record::Face(5, 4, 3),
    ];
    assert!(mesh.load(&records).is_ok());
    let (vs, is) = mesh.to_indexed_buffers().unwrap();
    assert_eq!(is, vec![(0, 1, 2), (3, 0, 2)]);
    assert_eq!(vs.len(), 4);
    assert_eq!((vs[0].0, vs[0].1, vs[0].2), ((-0f32).to_bits(), 0f32.to_bits(), 0f32.to_bits()));
}

#[test]
fn positions_drop_the_brightness() {
    let vs = vec![Vertex(1, 2, 3, 4), Vertex(5, 6, 7, 8)];
    assert_eq!(positions_of(&vs), vec![(1, 2, 3), (5, 6, 7)]);
    assert_eq!(positions_of(&vec![]), vec![]);
}

#[test]
fn written_mesh_reads_back_as_its_buffers() {
    let mesh = two_triangles();
    let (vs, is) = mesh.to_indexed_buffers().unwrap();
    let bytes = mesh.write_vbo_index().unwrap();
    assert_eq!(bytes.len(), 8 + 4 * 12 + 8 + 2 * 12);
    let (ps, js) = load_falkvbo(&bytes).unwrap();
    assert_eq!(ps, positions_of(&vs));
    assert_eq!(js, is);
}
