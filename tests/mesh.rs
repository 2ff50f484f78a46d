use sw_mc::mesh::{Face, Material, Mesh, MeshParseError};

const HEADER: [u8; 8] = [0x6D, 0x65, 0x73, 0x68, 0x07, 0x00, 0x01, 0x00];

fn u16le(v: &mut Vec<u8>, x: u16) {
    v.extend_from_slice(&x.to_le_bytes());
}

fn u32le(v: &mut Vec<u8>, x: u32) {
    v.extend_from_slice(&x.to_le_bytes());
}

/// A mesh with three vertices, `faces` triangles and the given submeshes
/// (start index, index count, material).
fn mesh_bytes(n_indices: u32, faces: &[[u16; 3]], submeshes: &[(u32, u32, u16)]) -> Vec<u8> {
    let mut v = HEADER.to_vec();
    u16le(&mut v, 3);
    v.extend_from_slice(&[0x13, 0, 0, 0]);
    for i in 0..3u32 {
        for c in [1.0f32 * i as f32, 2.0, 3.0] {
            u32le(&mut v, c.to_bits());
        }
        v.extend_from_slice(&[10, 20, 30, 255]);
        for c in [0.0f32, 1.0, 0.0] {
            u32le(&mut v, c.to_bits());
        }
    }
    u32le(&mut v, n_indices);
    for f in faces {
        for x in f {
            u16le(&mut v, *x);
        }
    }
    u16le(&mut v, submeshes.len() as u16);
    for (start, count, material) in submeshes {
        u32le(&mut v, *start);
        u32le(&mut v, *count);
        v.extend_from_slice(&[0, 0]);
        u16le(&mut v, *material);
        for _ in 0..6 {
            u32le(&mut v, 0.5f32.to_bits());
        }
        u16le(&mut v, 7);
        u16le(&mut v, 4);
        v.extend_from_slice(&[0xAA, 0xBB]);
        v.extend_from_slice(&[0; 14]);
    }
    v
}

#[test]
fn corrupted_header_reports_actual_bytes() {
    let mut b = mesh_bytes(3, &[[0, 1, 2]], &[]);
    b[1] = 0x00;
    match Mesh::from_bytes(&b) {
        Err(MeshParseError::InvalidHeader { expected, actual }) => {
            assert_eq!(expected, HEADER);
            assert_eq!(actual, [0x6D, 0x00, 0x73, 0x68, 0x07, 0x00, 0x01, 0x00]);
        },
        other => panic!("unexpected {other:?}"),
    }
}

#[test]
fn face_count_not_multiple_of_three() {
    let b = mesh_bytes(4, &[[0, 1, 2]], &[]);
    assert_eq!(Mesh::from_bytes(&b).unwrap_err(), MeshParseError::InvalidFaceCount { actual: 4 });
}

#[test]
fn submeshes_slice_the_faces() {
    let faces = [[0, 1, 2], [2, 1, 0], [1, 1, 1]];
    let b = mesh_bytes(9, &faces, &[(3, 6, 1), (0, 3, 3)]);
    let m = Mesh::from_bytes(&b).unwrap();
    assert_eq!(m.vertices.len(), 3);
    assert_eq!(m.vertices[2].position.x, 2.0f32.to_bits());
    assert_eq!(m.vertices[0].color.a, 255);
    assert_eq!(m.faces.len(), 3);
    assert_eq!(m.submeshes.len(), 2);
    assert_eq!(m.submeshes[0].material, Material::Glass);
    assert_eq!(m.submeshes[0].tris, vec![Face { a: 2, b: 1, c: 0 }, Face { a: 1, b: 1, c: 1 }]);
    assert_eq!(m.submeshes[1].material, Material::Unknown);
    assert_eq!(m.submeshes[1].tris, vec![Face { a: 0, b: 1, c: 2 }]);
    assert_eq!(m.submeshes[1].cull_max.z, 0.5f32.to_bits());
}

#[test]
fn tolerated_triangle_count_remainder() {
    let faces = [[0, 1, 2], [2, 1, 0]];
    let b = mesh_bytes(6, &faces, &[(0, 5, 0)]);
    let m = Mesh::from_bytes(&b).unwrap();
    assert_eq!(m.submeshes[0].tris.len(), 1);
}

#[test]
fn submesh_errors() {
    let faces = [[0, 1, 2]];
    let b = mesh_bytes(3, &faces, &[(1, 3, 0)]);
    assert_eq!(Mesh::from_bytes(&b).unwrap_err(), MeshParseError::InvalidSubmeshPosition { actual: 1 });
    let b = mesh_bytes(3, &faces, &[(0, 3, 4)]);
    assert_eq!(Mesh::from_bytes(&b).unwrap_err(), MeshParseError::InvalidSubmeshMaterial { actual: 4 });
    let b = mesh_bytes(3, &faces, &[(3, 3, 0)]);
    assert_eq!(
        Mesh::from_bytes(&b).unwrap_err(),
        MeshParseError::TriangleRangeOutOfBounds { start: 1, count: 1 }
    );
    let mut b = mesh_bytes(3, &faces, &[(0, 3, 0)]);
    let pad = b.len() - 56 + 8;
    b[pad] = 1;
    assert_eq!(
        Mesh::from_bytes(&b).unwrap_err(),
        MeshParseError::WrongSubmeshPadding { actual: [1, 0] }
    );
    let mut b = mesh_bytes(3, &faces, &[]);
    b[11] = 1;
    assert!(matches!(Mesh::from_bytes(&b), Err(MeshParseError::InvalidBlockHeader { .. })));
    assert_eq!(Mesh::from_bytes(&b[..5].to_vec()).unwrap_err(), MeshParseError::UnexpectedEnd);
}
