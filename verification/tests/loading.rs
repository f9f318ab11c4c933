use mapcombine::scalar::HALF_BITS;
use mapcombine::{Fault, LoadError, ObjFile, Record, Vertex};

fn v(x: f32, y: f32, z: f32) -> Record {
    Record::Vertex(x.to_bits(), y.to_bits(), z.to_bits())
}

fn corner(x: f32, y: f32, z: f32) -> (u32, u32, u32, u32) {
    (x.to_bits(), y.to_bits(), z.to_bits(), HALF_BITS)
}

fn bits(v: Vertex) -> (u32, u32, u32, u32) {
    (v.0, v.1, v.2, v.3)
}

fn content(mesh: &ObjFile) -> Vec<[(u32, u32, u32, u32); 3]> {
    mesh.triangles().into_iter().map(|t| [bits(t.0), bits(t.1), bits(t.2)]).collect()
}

#[test]
fn new_mesh_is_empty() {
    assert_eq!(ObjFile::new().len(), 0);
    assert_eq!(ObjFile::default().len(), 0);
    assert!(ObjFile::new().triangles().is_empty());
}

#[test]
fn load_resolves_faces() {
    let mut mesh = ObjFile::new();
    let records = vec![v(0., 0., 0.), v(1., 0., 0.), v(0., 1., 0.), Record::Face(1, 2, 3)];
    assert_eq!(mesh.load(&records), Ok(()));
    assert_eq!(
        content(&mesh),
        vec![[corner(0., 0., 0.), corner(1., 0., 0.), corner(0., 1., 0.)]]
    );
    let t = mesh.triangles()[0];
    assert_eq!(bits(t.1), corner(1., 0., 0.));
}

#[test]
fn loading_a_triangle_twice_keeps_one() {
    let mut mesh = ObjFile::new();
    let records = vec![
        v(0., 0., 0.),
        v(1., 0., 0.),
        v(0., 1., 0.),
        Record::Face(1, 2, 3),
        Record::Face(1, 2, 3),
        v(1., 0., 0.),
        Record::Face(1, 4, 3),
    ];
    assert_eq!(mesh.load(&records), Ok(()));
    assert_eq!(mesh.len(), 1);
    assert_eq!(mesh.load(&records), Ok(()));
    assert_eq!(mesh.len(), 1);
}

#[test]
fn winding_is_not_canonicalised() {
    let mut mesh = ObjFile::new();
    let records = vec![
        v(0., 0., 0.),
        v(1., 0., 0.),
        v(0., 1., 0.),
        Record::Face(1, 2, 3),
        Record::Face(2, 3, 1),
        Record::Face(3, 1, 2),
        Record::Face(3, 2, 1),
    ];
    assert_eq!(mesh.load(&records), Ok(()));
    assert_eq!(mesh.len(), 4);
}

#[test]
fn rotation_of_three_equal_corners_is_the_same_triangle() {
    let mut mesh = ObjFile::new();
    let records = vec![
        v(2., 2., 2.),
        v(2., 2., 2.),
        v(2., 2., 2.),
        Record::Face(1, 2, 3),
        Record::Face(2, 3, 1),
    ];
    assert_eq!(mesh.load(&records), Ok(()));
    assert_eq!(mesh.len(), 1);
}

#[test]
fn triangles_are_kept_in_the_order_of_numbers() {
    let mut mesh = ObjFile::new();
    let records = vec![
        v(1., 0., 0.),
        v(0., 0., 0.),
        v(0., 1., 0.),
        v(-1., 0., 0.),
        v(0., -3., 0.),
        Record::Face(1, 2, 3),
        Record::Face(2, 3, 1),
        Record::Face(4, 2, 3),
        Record::Face(2, 5, 1),
        Record::Face(2, 2, 4),
        Record::Face(2, 2, 5),
    ];
    assert_eq!(mesh.load(&records), Ok(()));
    let a = corner(1., 0., 0.);
    let o = corner(0., 0., 0.);
    let y = corner(0., 1., 0.);
    let m = corner(-1., 0., 0.);
    let d = corner(0., -3., 0.);
    assert_eq!(
        content(&mesh),
        vec![[m, o, y], [o, d, a], [o, o, m], [o, o, d], [o, y, a], [a, o, y]]
    );
}

#[test]
fn order_does_not_depend_on_the_order_of_loading() {
    let points = vec![v(1., 0., 0.), v(0., 0., 0.), v(0., 1., 0.), v(-1., 0., 0.)];
    let faces = vec![
        Record::Face(1, 2, 3),
        Record::Face(4, 2, 3),
        Record::Face(2, 3, 1),
        Record::Face(3, 3, 4),
        Record::Face(2, 1, 4),
    ];
    let mut forward = points.clone();
    forward.extend(faces.iter().cloned());
    let mut backward = points.clone();
    backward.extend(faces.iter().rev().cloned());
    let mut one = ObjFile::new();
    let mut two = ObjFile::new();
    assert_eq!(one.load(&forward), Ok(()));
    assert_eq!(two.load(&backward), Ok(()));
    assert_eq!(content(&one), content(&two));
    assert_eq!(one.len(), 5);
}

#[test]
fn the_two_zeros_are_one_vertex() {
    let mut mesh = ObjFile::new();
    let records = vec![
        v(0., 0., 0.),
        v(1., 0., 0.),
        v(0., 1., 0.),
        v(-0., -0., 0.),
        Record::Face(4, 2, 3),
        Record::Face(1, 2, 3),
    ];
    assert_eq!(mesh.load(&records), Ok(()));
    assert_eq!(mesh.len(), 1);
    // The triangle that came first stays as it was written.
    assert_eq!(
        content(&mesh),
        vec![[corner(-0., -0., 0.), corner(1., 0., 0.), corner(0., 1., 0.)]]
    );
}

#[test]
fn several_loads_fill_one_mesh() {
    let mut mesh = ObjFile::new();
    let first = vec![v(0., 0., 0.), v(1., 0., 0.), v(0., 1., 0.), Record::Face(1, 2, 3)];
    let second = vec![v(5., 5., 5.), v(1., 0., 0.), v(0., 1., 0.), Record::Face(1, 2, 3)];
    let third = vec![v(0., 1., 0.), v(0., 0., 0.), v(1., 0., 0.), Record::Face(2, 3, 1)];
    assert_eq!(mesh.load(&first), Ok(()));
    assert_eq!(mesh.load(&second), Ok(()));
    assert_eq!(mesh.load(&third), Ok(()));
    assert_eq!(mesh.len(), 2);
    assert_eq!(
        content(&mesh),
        vec![
            [corner(0., 0., 0.), corner(1., 0., 0.), corner(0., 1., 0.)],
            [corner(5., 5., 5.), corner(1., 0., 0.), corner(0., 1., 0.)],
        ]
    );
}

#[test]
fn vertex_numbers_start_anew_in_each_load() {
    let mut mesh = ObjFile::new();
    let first = vec![v(0., 0., 0.), v(1., 0., 0.), v(0., 1., 0.), Record::Face(1, 2, 3)];
    assert_eq!(mesh.load(&first), Ok(()));
    let second = vec![Record::Face(1, 2, 3)];
    assert_eq!(
        mesh.load(&second),
        Err(LoadError { record: 0, fault: Fault::IndexOutOfRange })
    );
    assert_eq!(mesh.len(), 1);
}

#[test]
fn face_index_zero_is_refused() {
    let mut mesh = ObjFile::new();
    let records = vec![v(0., 0., 0.), v(1., 0., 0.), v(0., 1., 0.), Record::Face(0, 2, 3)];
    assert_eq!(
        mesh.load(&records),
        Err(LoadError { record: 3, fault: Fault::IndexOutOfRange })
    );
    assert_eq!(mesh.len(), 0);
}

#[test]
fn face_index_beyond_the_vertices_is_refused() {
    let mut mesh = ObjFile::new();
    let records = vec![v(0., 0., 0.), v(1., 0., 0.), v(0., 1., 0.), Record::Face(1, 2, 4)];
    assert_eq!(
        mesh.load(&records),
        Err(LoadError { record: 3, fault: Fault::IndexOutOfRange })
    );
    let records = vec![v(0., 0., 0.), Record::Face(1, usize::MAX, 1)];
    assert_eq!(
        mesh.load(&records),
        Err(LoadError { record: 1, fault: Fault::IndexOutOfRange })
    );
}

#[test]
fn face_may_not_name_a_later_vertex() {
    let mut mesh = ObjFile::new();
    let records = vec![v(0., 0., 0.), v(1., 0., 0.), Record::Face(1, 2, 3), v(0., 1., 0.)];
    assert_eq!(
        mesh.load(&records),
        Err(LoadError { record: 2, fault: Fault::IndexOutOfRange })
    );
}

#[test]
fn nan_in_a_face_is_refused() {
    let mut mesh = ObjFile::new();
    let records = vec![v(0., 0., 0.), v(1., f32::NAN, 0.), v(0., 1., 0.), Record::Face(1, 2, 3)];
    assert_eq!(
        mesh.load(&records),
        Err(LoadError { record: 3, fault: Fault::NotANumber })
    );
    assert_eq!(mesh.len(), 0);
    let records = vec![v(0., 0., 0.), v(0., 1., f32::NAN), Record::Face(1, 1, 2)];
    assert_eq!(
        mesh.load(&records),
        Err(LoadError { record: 2, fault: Fault::NotANumber })
    );
    // An index that is out of range is told before a NaN.
    let records = vec![v(f32::NAN, 0., 0.), Record::Face(1, 1, 2)];
    assert_eq!(
        mesh.load(&records),
        Err(LoadError { record: 1, fault: Fault::IndexOutOfRange })
    );
}

#[test]
fn nan_that_no_face_names_is_harmless() {
    let mut mesh = ObjFile::new();
    let records = vec![
        v(f32::NAN, 0., 0.),
        v(0., 0., 0.),
        v(1., 0., 0.),
        v(0., 1., 0.),
        Record::Face(2, 3, 4),
    ];
    assert_eq!(mesh.load(&records), Ok(()));
    assert_eq!(mesh.len(), 1);
}

#[test]
fn infinite_positions_are_loaded() {
    let mut mesh = ObjFile::new();
    let records = vec![
        v(f32::INFINITY, 0., 0.),
        v(f32::NEG_INFINITY, 0., 0.),
        v(0., 0., 0.),
        Record::Face(1, 2, 3),
        Record::Face(2, 1, 3),
    ];
    assert_eq!(mesh.load(&records), Ok(()));
    assert_eq!(
        content(&mesh),
        vec![
            [corner(f32::NEG_INFINITY, 0., 0.), corner(f32::INFINITY, 0., 0.), corner(0., 0., 0.)],
            [corner(f32::INFINITY, 0., 0.), corner(f32::NEG_INFINITY, 0., 0.), corner(0., 0., 0.)],
        ]
    );
}

#[test]
fn a_failed_load_leaves_the_mesh_as_it_was() {
    let mut mesh = ObjFile::new();
    let good = vec![v(0., 0., 0.), v(1., 0., 0.), v(0., 1., 0.), Record::Face(1, 2, 3)];
    assert_eq!(mesh.load(&good), Ok(()));
    let before = content(&mesh);
    let bad = vec![
        v(7., 0., 0.),
        v(8., 0., 0.),
        v(9., 1., 0.),
        Record::Face(1, 2, 3),
        Record::Face(3, 2, 1),
        Record::Face(1, 2, 9),
        Record::Face(0, 0, 0),
    ];
    assert_eq!(
        mesh.load(&bad),
        Err(LoadError { record: 5, fault: Fault::IndexOutOfRange })
    );
    assert_eq!(content(&mesh), before);
}

#[test]
fn loaded_vertices_have_brightness_one_half() {
    let mut mesh = ObjFile::new();
    let records = vec![v(0., 0., 0.), v(1., 0., 0.), v(0., 1., 0.), Record::Face(1, 2, 3)];
    assert_eq!(mesh.load(&records), Ok(()));
    let t = mesh.triangles()[0];
    assert_eq!(f32::from_bits(t.0 .3), 0.5);
    assert_eq!(f32::from_bits(t.1 .3), 0.5);
    assert_eq!(f32::from_bits(t.2 .3), 0.5);
}

#[test]
fn load_of_no_records_changes_nothing() {
    let mut mesh = ObjFile::new();
    assert_eq!(mesh.load(&vec![]), Ok(()));
    assert_eq!(mesh.len(), 0);
    assert_eq!(mesh.load(&vec![v(1., 2., 3.)]), Ok(()));
    assert_eq!(mesh.len(), 0);
}

#[test]
fn triangles_of_reads_faces_in_order() {
    let records = vec![
        v(0., 0., 0.),
        v(1., 0., 0.),
        Record::Face(2, 1, 2),
        v(0., 1., 0.),
        Record::Face(3, 3, 1),
        Record::Face(2, 1, 2),
    ];
    let found: Vec<[(u32, u32, u32, u32); 3]> = mapcombine::loader::triangles_of(&records)
        .unwrap()
        .into_iter()
        .map(|t| [bits(t.0), bits(t.1), bits(t.2)])
        .collect();
    let o = corner(0., 0., 0.);
    let a = corner(1., 0., 0.);
    let y = corner(0., 1., 0.);
    assert_eq!(found, vec![[a, o, a], [y, y, o], [a, o, a]]);
    let bad = vec![v(0., 0., 0.), Record::Face(1, 1, 1), Record::Face(1, 2, 1)];
    assert_eq!(
        mapcombine::loader::triangles_of(&bad).unwrap_err(),
        LoadError { record: 2, fault: Fault::IndexOutOfRange }
    );
}
