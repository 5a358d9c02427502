use mesh_generation::meshes::polymesh::{ObjLine, PolyMesh};
use mesh_generation::scalar::{Vec2, Vec3, SCALE};

#[test]
fn test_2x2() {
    let mesh = PolyMesh::new(2, 2, 1, 1);
    assert_eq!(mesh.vertices.len(), 9);
    assert_eq!(mesh.face_array.len(), 4);
}

#[test]
fn test_4x4() {
    let mesh = PolyMesh::new(4, 4, 1, 1);
    assert_eq!(mesh.vertices.len(), 25);
    assert_eq!(mesh.face_array.len(), 16);
}

#[test]
fn test_rectangular_grid() {
    // Width and height subdivisions differ, pinning which count drives
    // which loop.
    let mesh = PolyMesh::new(2, 3, 1, 1);
    assert_eq!(mesh.vertices.len(), 12);
    assert_eq!(mesh.st.len(), 12);
    assert_eq!(mesh.normals.len(), 12);
    assert_eq!(mesh.face_array.len(), 6);
    assert_eq!(mesh.vertices_array.len(), 24);
    assert_eq!(mesh.num_vertices, 12);
    assert_eq!(mesh.num_faces, 6);
    for &arity in mesh.face_array.iter() {
        assert_eq!(arity, 4);
    }
    for &idx in mesh.vertices_array.iter() {
        assert!(idx < 12);
    }
    // Second row, first cell: corners in winding order.
    assert_eq!(&mesh.vertices_array[8..12], &[3, 4, 7, 6]);
}

#[test]
fn test_face_indices_1x1() {
    let mesh = PolyMesh::new(1, 1, 1, 1);
    assert_eq!(mesh.vertices.len(), 4);
    assert_eq!(mesh.face_array, vec![4]);
    assert_eq!(mesh.vertices_array, vec![0, 1, 3, 2]);
}

#[test]
fn test_face_indices_distinct_and_in_bounds() {
    let mesh = PolyMesh::new(3, 2, 1, 1);
    let n = mesh.vertices.len() as u32;
    for k in 0..mesh.face_array.len() {
        let face = &mesh.vertices_array[4 * k..4 * k + 4];
        for a in 0..4 {
            assert!(face[a] < n);
            for b in 0..4 {
                if a != b {
                    assert_ne!(face[a], face[b]);
                }
            }
        }
    }
}

#[test]
fn test_degenerate_mesh() {
    let mesh = PolyMesh::new(0, 5, 1, 1);
    assert_eq!(mesh.num_vertices, 0);
    assert_eq!(mesh.num_faces, 0);
    assert!(mesh.vertices.is_empty());
    assert!(mesh.vertices_array.is_empty());
}

#[test]
fn test_grid_positions_centered() {
    let mesh = PolyMesh::new(2, 2, 2, 2);
    // Corner vertices of a 2x2-unit grid sit at +-1 world unit.
    assert_eq!(mesh.vertices[0], Vec3 { x: -SCALE, y: 0, z: -SCALE });
    assert_eq!(mesh.vertices[8], Vec3 { x: SCALE, y: 0, z: SCALE });
    // Center vertex sits at the origin.
    assert_eq!(mesh.vertices[4], Vec3 { x: 0, y: 0, z: 0 });
    // Texture coordinates span [0, 1].
    assert_eq!(mesh.st[0], Vec2 { x: 0, y: 0 });
    assert_eq!(mesh.st[4], Vec2 { x: SCALE / 2, y: SCALE / 2 });
    assert_eq!(mesh.st[8], Vec2 { x: SCALE, y: SCALE });
}

#[test]
fn test_uv_rounding() {
    let mesh = PolyMesh::new(3, 1, 1, 1);
    // 1/3 and 2/3 in fixed point round down; 3/3 is exact.
    assert_eq!(mesh.st[1].x, 21845);
    assert_eq!(mesh.st[2].x, 43690);
    assert_eq!(mesh.st[3].x, 65536);
}

#[test]
fn test_largest_extent() {
    let mesh = PolyMesh::new(1, 1, 16384, 16384);
    // Corners of the largest supported grid sit at half the extent in
    // either direction.
    assert_eq!(mesh.vertices[0].x, -16384 * (SCALE / 2));
    assert_eq!(mesh.vertices[3].x, 16384 * (SCALE / 2));
    assert_eq!(mesh.vertices[0].z, -16384 * (SCALE / 2));
}

#[test]
fn test_displacement_exact_values() {
    let mut mesh = PolyMesh::new(1, 1, 1, 1);
    // One-pixel map holding the maximum: every vertex reads it and is
    // raised to 2 * 1 - 1 = 1 world unit.
    mesh.displace_with_noise_map(vec![SCALE], 1, 1);
    for v in mesh.vertices.iter() {
        assert_eq!(v.y, SCALE);
    }
    // A zero pixel lowers everything to -1.
    mesh.displace_with_noise_map(vec![0], 1, 1);
    for v in mesh.vertices.iter() {
        assert_eq!(v.y, -SCALE);
    }
}

#[test]
fn test_displacement_pixel_lookup() {
    let mut mesh = PolyMesh::new(1, 1, 1, 1);
    // 2x2 map: vertex (0,0) reads pixel 0, (1,0) pixel 1, (0,1) pixel
    // 2, (1,1) pixel 3 (texture coordinate 1.0 clamps to the last row
    // and column).
    let map: Vec<i64> = vec![0, SCALE / 4, SCALE / 2, SCALE];
    mesh.displace_with_noise_map(map, 2, 2);
    assert_eq!(mesh.vertices[0].y, -SCALE);
    assert_eq!(mesh.vertices[1].y, 2 * (SCALE / 4) - SCALE);
    assert_eq!(mesh.vertices[2].y, 2 * (SCALE / 2) - SCALE);
    assert_eq!(mesh.vertices[3].y, SCALE);
}

#[test]
fn test_displacement_idempotent() {
    let mut mesh = PolyMesh::new(4, 3, 2, 2);
    let mut map: Vec<i64> = Vec::new();
    for p in 0..(8 * 8) {
        map.push(((p * 1237) % 65537) as i64 % (SCALE + 1));
    }
    let map2 = map.clone();
    mesh.displace_with_noise_map(map, 8, 8);
    let once: Vec<Vec3> = mesh.vertices.clone();
    mesh.displace_with_noise_map(map2, 8, 8);
    assert_eq!(mesh.vertices, once);
}

#[test]
fn test_flat_mesh_normals_point_up() {
    let mut mesh = PolyMesh::new(2, 2, 1, 1);
    mesh.calculate_normals();
    for n in mesh.normals.iter() {
        assert_eq!(*n, Vec3 { x: 0, y: SCALE, z: 0 });
    }
}

#[test]
fn test_degenerate_face_normal_defaults_up() {
    // More columns than fixed-point steps: neighbouring vertices share
    // an x coordinate, the first face collapses, and its normal falls
    // back to the up vector.
    let mut mesh = PolyMesh::new(65537, 1, 1, 1);
    mesh.calculate_normals();
    assert_eq!(mesh.normals[0], Vec3 { x: 0, y: SCALE, z: 0 });
}

#[test]
fn test_displaced_normal_tilts() {
    // Raise one side of a single quad and check the normal leans away
    // from x while keeping a positive y component.
    let mut mesh = PolyMesh::new(1, 1, 1, 1);
    mesh.displace_with_noise_map(vec![0, SCALE, 0, SCALE], 2, 2);
    mesh.calculate_normals();
    let n = mesh.normals[0];
    assert!(n.x < 0);
    assert!(n.y > 0);
    assert_eq!(n.z, 0);
    // Unit length within fixed-point rounding.
    let len2 = (n.x as i128) * (n.x as i128) + (n.y as i128) * (n.y as i128)
        + (n.z as i128) * (n.z as i128);
    let one = (SCALE as i128) * (SCALE as i128);
    assert!((len2 - one).abs() < 8 * (SCALE as i128));
}

#[test]
fn test_export_round_trip_1x1() {
    let mut mesh = PolyMesh::new(1, 1, 1, 1);
    mesh.calculate_normals();
    let lines = mesh.export_to_obj();
    assert_eq!(lines.len(), 13);
    let mut v_count = 0;
    let mut vt_count = 0;
    let mut vn_count = 0;
    let mut f_count = 0;
    for line in lines.iter() {
        match line {
            ObjLine::V { .. } => v_count += 1,
            ObjLine::Vt { .. } => vt_count += 1,
            ObjLine::Vn { .. } => vn_count += 1,
            ObjLine::F { a, b, c, d } => {
                f_count += 1;
                for idx in [*a, *b, *c, *d] {
                    assert!((1..=4).contains(&idx));
                }
            }
        }
    }
    assert_eq!(v_count, 4);
    assert_eq!(vt_count, 4);
    assert_eq!(vn_count, 4);
    assert_eq!(f_count, 1);
}

#[test]
fn test_export_order_and_indices() {
    let mesh = PolyMesh::new(2, 1, 1, 1);
    let lines = mesh.export_to_obj();
    assert_eq!(lines.len(), 3 * 6 + 2);
    for p in 0..6 {
        assert!(matches!(lines[p], ObjLine::V { .. }));
        assert!(matches!(lines[6 + p], ObjLine::Vt { .. }));
        assert!(matches!(lines[12 + p], ObjLine::Vn { .. }));
    }
    assert_eq!(lines[18], ObjLine::F { a: 1, b: 2, c: 5, d: 4 });
    assert_eq!(lines[19], ObjLine::F { a: 2, b: 3, c: 6, d: 5 });
}
