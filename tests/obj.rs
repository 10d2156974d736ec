use renderer::obj::{scan_face, scan_vertex, Face, LoadError, ObjModel};

fn load(lines: &[&str]) -> Result<ObjModel, LoadError> {
    let mut m = ObjModel::new();
    for l in lines {
        m.read_line(l)?;
    }
    Ok(m)
}

fn words(m: &ObjModel, i: usize) -> (String, String, String) {
    let v = m.vertex(i);
    (
        String::from_utf8(v.x.clone()).unwrap(),
        String::from_utf8(v.y.clone()).unwrap(),
        String::from_utf8(v.z.clone()).unwrap(),
    )
}

fn faces(m: &ObjModel) -> Vec<Face> {
    (0..m.face_count()).map(|i| m.face(i)).collect()
}

#[test]
fn minimal_source_gives_one_face() {
    let m = load(&["v 1.0 2.0 3.0", "v -4 0.5 0", "v 0 0 2", "f 1 2 3"]).unwrap();
    assert_eq!(m.vertex_count(), 3);
    assert_eq!(faces(&m), vec![Face { a: 0, b: 1, c: 2, seen: 3 }]);
    assert_eq!(words(&m, 1), ("-4".to_string(), "0.5".to_string(), "0".to_string()));
    let f = m.face(0);
    let coords: Vec<[f64; 3]> = (0..f.seen)
        .map(|i| {
            let (x, y, z) = words(&m, i);
            [x.parse().unwrap(), y.parse().unwrap(), z.parse().unwrap()]
        })
        .collect();
    let max_abs = coords.iter().flat_map(|c| c.iter()).fold(0.0f64, |a, &b| a.max(b.abs()));
    assert_eq!(max_abs, 4.0);
    let corner: Vec<f64> = coords[f.a].iter().map(|v| v / max_abs).collect();
    assert_eq!(corner, vec![0.25, 0.5, 0.75]);
}

#[test]
fn faces_record_vertices_seen_so_far() {
    let m = load(&["v 1 0 0", "v 0 1 0", "v 0 0 1", "f 3 2 1", "v 8 8 8", "f 4 1 2"]).unwrap();
    assert_eq!(faces(&m), vec![Face { a: 2, b: 1, c: 0, seen: 3 }, Face { a: 3, b: 0, c: 1, seen: 4 }]);
}

#[test]
fn malformed_lines_are_skipped() {
    let clean = ["v 1 0 0", "v 0 1 0", "v 0 0 1", "f 1 2 3"];
    let noisy = ["v 1 0 0", "# comment", "v 0 1 0", "vn 0 0 1", "v 0 0 1", "vt 0.5 0.5", "", "v 1 2", "f 1 2", "f 1 2 3", "v x y z"];
    let a = load(&clean).unwrap();
    let b = load(&noisy).unwrap();
    assert_eq!(a.vertex_count(), b.vertex_count());
    assert_eq!(faces(&a), faces(&b));
    for i in 0..a.vertex_count() {
        assert_eq!(words(&a, i), words(&b, i));
    }
}

#[test]
fn face_groups_with_attributes() {
    assert_eq!(scan_face("f 1/2/3 4/5/6 7/8/9"), Some((1, 4, 7)));
    assert_eq!(scan_face("f 1//3 4//6 7//9"), Some((1, 4, 7)));
    assert_eq!(scan_face("f 1/2 4 7/1"), Some((1, 4, 7)));
    assert_eq!(scan_face("  f\t10 20 30\r"), Some((10, 20, 30)));
    assert_eq!(scan_face("f 1/2/3/4 4 7"), None);
    assert_eq!(scan_face("f /2 4 7"), None);
    assert_eq!(scan_face("f 1 2 3 4"), None);
    assert_eq!(scan_face("f -1 2 3"), None);
    assert_eq!(scan_face("v 1 2 3"), None);
    assert_eq!(scan_face("f 99999999999999999999999 1 2"), Some((usize::MAX, 1, 2)));
}

#[test]
fn vertex_literals() {
    for line in ["v 1 2 3", "v -1.5 +2. .5", "v 1e3 -2.5E-2 inf", "v NaN -Infinity 0.0e+1"] {
        assert!(scan_vertex(line).is_some(), "{}", line);
    }
    for line in ["v 1 2", "v 1 2 3 4", "v . 1 2", "v 1e 2 3", "v 1..2 3 4", "v e5 1 2", "v 1 2 infinite", "vn 1 2 3", "v 0x1 2 3"] {
        assert!(scan_vertex(line).is_none(), "{}", line);
    }
    let v = scan_vertex("v  -1.5\t+2. .5 ").unwrap();
    assert_eq!(v.x, b"-1.5".to_vec());
    assert_eq!(v.y, b"+2.".to_vec());
    assert_eq!(v.z, b".5".to_vec());
}

#[test]
fn bad_index_fails_the_load() {
    assert_eq!(load(&["v 1 0 0", "f 1 1 2"]).err(), Some(LoadError::BadIndex));
    assert_eq!(load(&["v 1 0 0", "v 0 1 0", "v 0 0 1", "f 0 1 2"]).err(), Some(LoadError::BadIndex));
    assert_eq!(load(&["f 1 2 3", "v 1 0 0", "v 0 1 0", "v 0 0 1"]).err(), Some(LoadError::BadIndex));
    let mut m = ObjModel::new();
    m.read_line("v 1 0 0").unwrap();
    assert_eq!(m.read_line("f 1 1 9"), Err(LoadError::BadIndex));
    assert_eq!(m.vertex_count(), 1);
    assert_eq!(m.face_count(), 0);
    assert_eq!(m.read_line("f 1 1 1"), Ok(()));
    assert_eq!(faces(&m), vec![Face { a: 0, b: 0, c: 0, seen: 1 }]);
}
