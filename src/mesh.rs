//! Decoder for the binary mesh format: vertices, triangles and submeshes.
//!
//! Floating-point fields are kept as their IEEE-754 bit patterns.

use vstd::prelude::*;

use byteorder::ByteOrder;

verus! {

/// Relies on byteorder's `LittleEndian::read_u16`: the two bytes at `pos`,
/// least significant first.
#[verifier::external_body]
fn read_le_u16(b: &Vec<u8>, pos: usize) -> (r: u16)
    requires
        pos + 2 <= b@.len(),
    ensures
        r == le16(b@, pos as int),
{
    byteorder::LittleEndian::read_u16(&b[pos..])
}

/// Relies on byteorder's `LittleEndian::read_u32`: the four bytes at `pos`,
/// least significant first.
#[verifier::external_body]
fn read_le_u32(b: &Vec<u8>, pos: usize) -> (r: u32)
    requires
        pos + 4 <= b@.len(),
    ensures
        r == le32(b@, pos as int),
{
    byteorder::LittleEndian::read_u32(&b[pos..])
}

/// The little-endian 16-bit number at `p`.
pub open spec fn le16(b: Seq<u8>, p: int) -> int {
    b[p] as int + 256 * b[p + 1] as int
}

/// The little-endian 32-bit number at `p`.
pub open spec fn le32(b: Seq<u8>, p: int) -> int {
    le16(b, p) + 65536 * le16(b, p + 2)
}

/// The magic header of a mesh file.
pub open spec fn mesh_header() -> Seq<u8> {
    seq![0x6Du8, 0x65, 0x73, 0x68, 0x07, 0x00, 0x01, 0x00]
}

/// The marker after the vertex count.
pub open spec fn block_header() -> Seq<u8> {
    seq![0x13u8, 0x00, 0x00, 0x00]
}

/// Three 32-bit values: the bit patterns of an `f32` vector.
#[derive(Clone, Copy, Debug, PartialEq, Eq, Structural)]
pub struct Vector3Bits {
    pub x: u32,
    pub y: u32,
    pub z: u32,
}

/// An RGBA colour.
#[derive(Clone, Copy, Debug, PartialEq, Eq, Structural)]
pub struct Color {
    pub r: u8,
    pub g: u8,
    pub b: u8,
    pub a: u8,
}

/// A vertex: position, colour and normal.
#[derive(Clone, Copy, Debug, PartialEq, Eq, Structural)]
pub struct Vertex {
    pub position: Vector3Bits,
    pub color: Color,
    pub normal: Vector3Bits,
}

/// A triangle: three indices into the vertex list.
#[derive(Clone, Copy, Debug, PartialEq, Eq, Structural)]
pub struct Face {
    pub a: u16,
    pub b: u16,
    pub c: u16,
}

/// The material of a submesh.
#[derive(Clone, Copy, Debug, PartialEq, Eq, Structural)]
pub enum Material {
    Normal,
    Glass,
    Emissive,
    /// A material of unknown use, seen in a few files.
    Unknown,
}

/// A submesh: a material, a bounding box, and a run of the mesh's
/// triangles.
#[derive(Debug, PartialEq)]
pub struct Submesh {
    pub material: Material,
    pub cull_min: Vector3Bits,
    pub cull_max: Vector3Bits,
    pub tris: Vec<Face>,
}

/// A decoded mesh.
#[derive(Debug, PartialEq)]
pub struct Mesh {
    pub vertices: Vec<Vertex>,
    pub faces: Vec<Face>,
    pub submeshes: Vec<Submesh>,
}

/// Why a byte stream is not a mesh.
#[derive(Clone, Copy, Debug, PartialEq, Eq)]
#[allow(inconsistent_fields)]
pub enum MeshParseError {
    /// The stream ended before a field that had to be read.
    UnexpectedEnd,
    InvalidHeader { expected: [u8; 8], actual: [u8; 8] },
    InvalidBlockHeader { expected: [u8; 4], actual: [u8; 4] },
    /// The triangle index count is not a multiple of 3.
    InvalidFaceCount { actual: u32 },
    /// A submesh triangle count that is not a multiple of 3 (tolerated
    /// when decoding; kept for callers that want to be strict).
    InvalidTriangleCount { actual: u32 },
    /// A submesh start index that is not a multiple of 3.
    InvalidSubmeshPosition { actual: u32 },
    WrongSubmeshPadding { actual: [u8; 2] },
    InvalidSubmeshMaterial { actual: u16 },
    /// A submesh's triangle run reaches past the mesh's triangles.
    TriangleRangeOutOfBounds { start: u32, count: u32 },
}

// ---------------------------------------------------------------------------
// Layout.
// ---------------------------------------------------------------------------

/// The three 32-bit values at `p`.
pub open spec fn vec3_at(b: Seq<u8>, p: int) -> Vector3Bits {
    Vector3Bits { x: le32(b, p) as u32, y: le32(b, p + 4) as u32, z: le32(b, p + 8) as u32 }
}

/// The vertex record at `p`.
pub open spec fn vertex_at(b: Seq<u8>, p: int) -> Vertex {
    Vertex {
        position: vec3_at(b, p),
        color: Color { r: b[p + 12], g: b[p + 13], b: b[p + 14], a: b[p + 15] },
        normal: vec3_at(b, p + 16),
    }
}

/// The triangle record at `p`.
pub open spec fn face_at(b: Seq<u8>, p: int) -> Face {
    Face { a: le16(b, p) as u16, b: le16(b, p + 2) as u16, c: le16(b, p + 4) as u16 }
}

/// Number of vertices.
pub open spec fn vertex_count(b: Seq<u8>) -> int {
    le16(b, 8)
}

/// Offset of the triangle index count.
pub open spec fn face_count_offset(b: Seq<u8>) -> int {
    14 + 28 * vertex_count(b)
}

/// The triangle index count (three per triangle).
pub open spec fn face_index_count(b: Seq<u8>) -> int {
    le32(b, face_count_offset(b))
}

/// Offset of the submesh count.
pub open spec fn submesh_count_offset(b: Seq<u8>) -> int {
    face_count_offset(b) + 4 + 2 * face_index_count(b)
}

/// Offset of submesh `k`: each record is 52 bytes plus its own skip
/// length, read at offset 38 of the record.
pub open spec fn submesh_offset(b: Seq<u8>, k: int) -> int
    decreases k,
{
    if k <= 0 {
        submesh_count_offset(b) + 2
    } else {
        let p = submesh_offset(b, k - 1);
        p + 52 + le16(b, p + 38)
    }
}

/// The material with code `code` (codes above 2 are the unknown one).
pub open spec fn material_of(code: int) -> Material {
    if code == 0 {
        Material::Normal
    } else if code == 1 {
        Material::Glass
    } else if code == 2 {
        Material::Emissive
    } else {
        Material::Unknown
    }
}

/// The submesh record at `p` can be read and is sound for a mesh of `n`
/// triangles.
pub open spec fn submesh_ok(b: Seq<u8>, p: int, n: int) -> bool {
    &&& p + 40 <= b.len()
    &&& le32(b, p) % 3 == 0
    &&& b[p + 8] == 0 && b[p + 9] == 0
    &&& le16(b, p + 10) <= 3
    &&& le32(b, p) / 3 + le32(b, p + 4) / 3 <= n
}

/// The stream is a sound mesh.
pub open spec fn mesh_ok(b: Seq<u8>) -> bool {
    &&& b.len() >= 14
    &&& b.subrange(0, 8) == mesh_header()
    &&& b.subrange(10, 14) == block_header()
    &&& face_count_offset(b) + 4 <= b.len()
    &&& face_index_count(b) % 3 == 0
    &&& submesh_count_offset(b) + 2 <= b.len()
    &&& forall|k: int|
        0 <= k < le16(b, submesh_count_offset(b)) ==> submesh_ok(
            b,
            #[trigger] submesh_offset(b, k),
            face_index_count(b) / 3,
        )
}

/// Everything before the submesh records is sound.
pub open spec fn prefix_ok(b: Seq<u8>) -> bool {
    &&& b.len() >= 14
    &&& b.subrange(0, 8) == mesh_header()
    &&& b.subrange(10, 14) == block_header()
    &&& face_count_offset(b) + 4 <= b.len()
    &&& face_index_count(b) % 3 == 0
    &&& submesh_count_offset(b) + 2 <= b.len()
}

/// Submesh `k` is the first one that is not sound.
pub open spec fn first_bad_submesh(b: Seq<u8>, k: int) -> bool {
    &&& prefix_ok(b)
    &&& 0 <= k < le16(b, submesh_count_offset(b))
    &&& forall|x: int|
        0 <= x < k ==> submesh_ok(b, #[trigger] submesh_offset(b, x), face_index_count(b) / 3)
    &&& !submesh_ok(b, submesh_offset(b, k), face_index_count(b) / 3)
}

/// Where decoding runs out of bytes: before the header, the block header,
/// the triangle count, the submesh count, or the first unsound submesh
/// record's fixed part.
pub open spec fn ends_early(b: Seq<u8>) -> bool {
    ||| b.len() < 8
    ||| (b.subrange(0, 8) == mesh_header() && b.len() < 14)
    ||| (b.len() >= 14 && b.subrange(0, 8) == mesh_header() && b.subrange(10, 14) == block_header()
        && face_count_offset(b) + 4 > b.len())
    ||| (b.len() >= 14 && b.subrange(0, 8) == mesh_header() && b.subrange(10, 14) == block_header()
        && face_count_offset(b) + 4 <= b.len() && face_index_count(b) % 3 == 0
        && submesh_count_offset(b) + 2 > b.len())
    ||| exists|k: int| first_bad_submesh(b, k) && submesh_offset(b, k) + 40 > b.len()
}

/// The submesh record at `p` as decoded, for a mesh whose triangles are
/// `faces`.
pub open spec fn submesh_matches(s: Submesh, b: Seq<u8>, p: int, faces: Seq<Face>) -> bool {
    let start = le32(b, p) / 3;
    let count = le32(b, p + 4) / 3;
    &&& s.material == material_of(le16(b, p + 10))
    &&& s.cull_min == vec3_at(b, p + 12)
    &&& s.cull_max == vec3_at(b, p + 24)
    &&& s.tris@ == faces.subrange(start, start + count)
}

/// `m` is what the sound mesh stream `b` holds.
pub open spec fn mesh_matches(m: Mesh, b: Seq<u8>) -> bool {
    &&& m.vertices@.len() == vertex_count(b)
    &&& forall|i: int|
        0 <= i < m.vertices@.len() ==> #[trigger] m.vertices@[i] == vertex_at(b, 14 + 28 * i)
    &&& m.faces@.len() == face_index_count(b) / 3
    &&& forall|j: int|
        0 <= j < m.faces@.len() ==> #[trigger] m.faces@[j] == face_at(
            b,
            face_count_offset(b) + 4 + 6 * j,
        )
    &&& m.submeshes@.len() == le16(b, submesh_count_offset(b))
    &&& forall|k: int|
        0 <= k < m.submeshes@.len() ==> submesh_matches(
            #[trigger] m.submeshes@[k],
            b,
            submesh_offset(b, k),
            m.faces@,
        )
}

fn read_vec3(b: &Vec<u8>, p: usize) -> (r: Vector3Bits)
    requires
        p + 12 <= b@.len(),
    ensures
        r == vec3_at(b@, p as int),
{
    let n = b.len();
    assert(p + 12 <= n);
    Vector3Bits { x: read_le_u32(b, p), y: read_le_u32(b, p + 4), z: read_le_u32(b, p + 8) }
}

fn read_vertex(b: &Vec<u8>, p: usize) -> (r: Vertex)
    requires
        p + 28 <= b@.len(),
    ensures
        r == vertex_at(b@, p as int),
{
    let n = b.len();
    assert(p + 28 <= n);
    Vertex {
        position: read_vec3(b, p),
        color: Color { r: b[p + 12], g: b[p + 13], b: b[p + 14], a: b[p + 15] },
        normal: read_vec3(b, p + 16),
    }
}

fn read_face(b: &Vec<u8>, p: usize) -> (r: Face)
    requires
        p + 6 <= b@.len(),
    ensures
        r == face_at(b@, p as int),
{
    let n = b.len();
    assert(p + 6 <= n);
    Face { a: read_le_u16(b, p), b: read_le_u16(b, p + 2), c: read_le_u16(b, p + 4) }
}

impl Mesh {
    /// Decodes a mesh from its bytes.
    pub fn from_bytes(b: &Vec<u8>) -> (r: Result<Mesh, MeshParseError>)
        ensures
            r is Ok <==> mesh_ok(b@),
            r matches Ok(m) ==> mesh_matches(m, b@),
            b@.len() >= 8 && b@.subrange(0, 8) != mesh_header() ==> (r matches Err(
                MeshParseError::InvalidHeader { expected, actual },
            ) && expected@ == mesh_header() && actual@ == b@.subrange(0, 8)),
            b@.len() >= 14 && b@.subrange(0, 8) == mesh_header() && b@.subrange(10, 14)
                == block_header() && face_count_offset(b@) + 4 <= b@.len() && face_index_count(b@)
                % 3 != 0 ==> r == Err::<Mesh, MeshParseError>(
                MeshParseError::InvalidFaceCount { actual: face_index_count(b@) as u32 },
            ),
            r == Err::<Mesh, MeshParseError>(MeshParseError::UnexpectedEnd) ==> ends_early(b@),
            r matches Err(MeshParseError::InvalidHeader { .. }) ==> b@.len() >= 8 && b@.subrange(
                0,
                8,
            ) != mesh_header(),
            r matches Err(MeshParseError::InvalidFaceCount { actual }) ==> b@.len() >= 14
                && b@.subrange(0, 8) == mesh_header() && b@.subrange(10, 14) == block_header()
                && face_count_offset(b@) + 4 <= b@.len() && face_index_count(b@) % 3 != 0 && actual
                == face_index_count(b@),
            r matches Err(MeshParseError::InvalidBlockHeader { expected, actual }) ==> b@.len()
                >= 14 && b@.subrange(0, 8) == mesh_header() && b@.subrange(10, 14)
                != block_header() && expected@ == block_header() && actual@ == b@.subrange(10, 14),
            r matches Err(MeshParseError::InvalidSubmeshPosition { actual }) ==> exists|k: int|
                first_bad_submesh(b@, k) && submesh_offset(b@, k) + 40 <= b@.len() && actual
                    == le32(b@, submesh_offset(b@, k)) && actual % 3 != 0,
            r matches Err(MeshParseError::WrongSubmeshPadding { actual }) ==> exists|k: int|
                first_bad_submesh(b@, k) && submesh_offset(b@, k) + 40 <= b@.len() && le32(
                    b@,
                    submesh_offset(b@, k),
                ) % 3 == 0 && actual@ == b@.subrange(
                    submesh_offset(b@, k) + 8,
                    submesh_offset(b@, k) + 10,
                ) && (actual[0] != 0 || actual[1] != 0),
            r matches Err(MeshParseError::InvalidSubmeshMaterial { actual }) ==> exists|k: int|
                first_bad_submesh(b@, k) && submesh_offset(b@, k) + 40 <= b@.len() && le32(
                    b@,
                    submesh_offset(b@, k),
                ) % 3 == 0 && b@[submesh_offset(b@, k) + 8] == 0 && b@[submesh_offset(b@, k) + 9]
                    == 0 && actual == le16(b@, submesh_offset(b@, k) + 10) && actual > 3,
            r matches Err(MeshParseError::TriangleRangeOutOfBounds { start, count }) ==> exists|
                k: int,
            |
                first_bad_submesh(b@, k) && submesh_offset(b@, k) + 40 <= b@.len() && le32(
                    b@,
                    submesh_offset(b@, k),
                ) % 3 == 0 && b@[submesh_offset(b@, k) + 8] == 0 && b@[submesh_offset(b@, k) + 9]
                    == 0 && le16(b@, submesh_offset(b@, k) + 10) <= 3 && start == le32(
                    b@,
                    submesh_offset(b@, k),
                ) / 3 && count == le32(b@, submesh_offset(b@, k) + 4) / 3 && start + count
                    > face_index_count(b@) / 3,
            !(r matches Err(MeshParseError::InvalidTriangleCount { .. })),
    {
        let len = b.len();
        if len < 8 {
            return Err(MeshParseError::UnexpectedEnd);
        }
        let header: [u8; 8] = [b[0], b[1], b[2], b[3], b[4], b[5], b[6], b[7]];
        let expected: [u8; 8] = [0x6D, 0x65, 0x73, 0x68, 0x07, 0x00, 0x01, 0x00];
        assert(header@ =~= b@.subrange(0, 8));
        assert(expected@ =~= mesh_header());
        if b[0] != 0x6D || b[1] != 0x65 || b[2] != 0x73 || b[3] != 0x68 || b[4] != 0x07 || b[5]
            != 0x00 || b[6] != 0x01 || b[7] != 0x00 {
            return Err(MeshParseError::InvalidHeader { expected, actual: header });
        }
        assert(b@.subrange(0, 8) =~= mesh_header());
        if len < 14 {
            return Err(MeshParseError::UnexpectedEnd);
        }
        let n_vertices = read_le_u16(b, 8);
        let block: [u8; 4] = [b[10], b[11], b[12], b[13]];
        let expected_block: [u8; 4] = [0x13, 0x00, 0x00, 0x00];
        if b[10] != 0x13 || b[11] != 0x00 || b[12] != 0x00 || b[13] != 0x00 {
            proof {
                assert(block_header()[0] == 0x13u8);
                if b@.subrange(10, 14) == block_header() {
                    assert(b@.subrange(10, 14)[0] == b@[10]);
                    assert(b@.subrange(10, 14)[1] == b@[11]);
                    assert(b@.subrange(10, 14)[2] == b@[12]);
                    assert(b@.subrange(10, 14)[3] == b@[13]);
                }
            }
            return Err(
                MeshParseError::InvalidBlockHeader { expected: expected_block, actual: block },
            );
        }
        assert(b@.subrange(10, 14) =~= block_header());
        let mut vertices: Vec<Vertex> = Vec::new();
        let mut i: usize = 0;
        while i < n_vertices as usize
            invariant
                b@.subrange(0, 8) == mesh_header(),
                b@.subrange(10, 14) == block_header(),
                len == b@.len(),
                len >= 14,
                n_vertices == vertex_count(b@),
                i <= n_vertices,
                vertices@.len() == i,
                forall|j: int| 0 <= j < i ==> #[trigger] vertices@[j] == vertex_at(b@, 14 + 28 * j),
            decreases n_vertices - i,
        {
            let p = 14 + 28 * i;
            if p + 28 > len {
                proof {
                    assert(face_count_offset(b@) == 14 + 28 * n_vertices);
                    assert(28 * i + 28 <= 28 * n_vertices) by (nonlinear_arith)
                        requires
                            i < n_vertices,
                    ;
                }
                return Err(MeshParseError::UnexpectedEnd);
            }
            vertices.push(read_vertex(b, p));
            i += 1;
        }
        let fpos: usize = 14 + 28 * n_vertices as usize;
        assert(fpos == face_count_offset(b@));
        if fpos + 4 > len {
            return Err(MeshParseError::UnexpectedEnd);
        }
        let n_indices = read_le_u32(b, fpos);
        if n_indices % 3 != 0 {
            return Err(MeshParseError::InvalidFaceCount { actual: n_indices });
        }
        let n_faces = n_indices / 3;
        let spos_wide: u64 = fpos as u64 + 4 + 2 * n_indices as u64;
        assert(spos_wide == submesh_count_offset(b@));
        if spos_wide + 2 > len as u64 {
            return Err(MeshParseError::UnexpectedEnd);
        }
        let spos = spos_wide as usize;
        let mut faces: Vec<Face> = Vec::new();
        let mut j: usize = 0;
        while j < n_faces as usize
            invariant
                b@.subrange(0, 8) == mesh_header(),
                b@.subrange(10, 14) == block_header(),
                len >= 14,
                len == b@.len(),
                fpos == face_count_offset(b@),
                n_indices == face_index_count(b@),
                n_faces == n_indices / 3,
                n_indices % 3 == 0,
                spos == submesh_count_offset(b@),
                spos + 2 <= len,
                j <= n_faces,
                faces@.len() == j,
                forall|k: int|
                    0 <= k < j ==> #[trigger] faces@[k] == face_at(b@, fpos + 4 + 6 * k),
            decreases n_faces - j,
        {
            proof {
                assert(6 * j + 6 <= 2 * n_indices) by (nonlinear_arith)
                    requires
                        j < n_faces,
                        n_faces == n_indices / 3,
                        n_indices % 3 == 0,
                ;
            }
            let p = fpos + 4 + 6 * j;
            faces.push(read_face(b, p));
            j += 1;
        }
        let n_submeshes = read_le_u16(b, spos);
        let mut submeshes: Vec<Submesh> = Vec::new();
        let mut p: u128 = spos as u128 + 2;
        let mut k: usize = 0;
        while k < n_submeshes as usize
            invariant
                b@.subrange(0, 8) == mesh_header(),
                b@.subrange(10, 14) == block_header(),
                len >= 14,
                face_count_offset(b@) + 4 <= len,
                n_indices % 3 == 0,
                submesh_count_offset(b@) + 2 <= len,
                len == b@.len(),
                n_indices == face_index_count(b@),
                faces@.len() == n_indices / 3,
                n_submeshes == le16(b@, submesh_count_offset(b@)),
                k <= n_submeshes,
                p == submesh_offset(b@, k as int),
                p <= len + 65600,
                submeshes@.len() == k,
                forall|x: int|
                    0 <= x < k ==> submesh_ok(
                        b@,
                        #[trigger] submesh_offset(b@, x),
                        face_index_count(b@) / 3,
                    ),
                forall|x: int|
                    0 <= x < k ==> submesh_matches(
                        #[trigger] submeshes@[x],
                        b@,
                        submesh_offset(b@, x),
                        faces@,
                    ),
            decreases n_submeshes - k,
        {
            if p + 40 > len as u128 {
                proof {
                    assert(prefix_ok(b@));
                    assert(first_bad_submesh(b@, k as int));
                }
                return Err(MeshParseError::UnexpectedEnd);
            }
            let q = p as usize;
            let pos = read_le_u32(b, q);
            if pos % 3 != 0 {
                proof {
                    assert(prefix_ok(b@));
                    assert(first_bad_submesh(b@, k as int));
                }
                return Err(MeshParseError::InvalidSubmeshPosition { actual: pos });
            }
            let n_tris = read_le_u32(b, q + 4);
            if b[q + 8] != 0 || b[q + 9] != 0 {
                let actual: [u8; 2] = [b[q + 8], b[q + 9]];
                proof {
                    assert(actual@ =~= b@.subrange(q + 8, q + 10));
                    assert(prefix_ok(b@));
                    assert(first_bad_submesh(b@, k as int));
                }
                return Err(MeshParseError::WrongSubmeshPadding { actual });
            }
            let code = read_le_u16(b, q + 10);
            let material = if code == 0 {
                Material::Normal
            } else if code == 1 {
                Material::Glass
            } else if code == 2 {
                Material::Emissive
            } else if code == 3 {
                Material::Unknown
            } else {
                    proof {
                        assert(prefix_ok(b@));
                        assert(first_bad_submesh(b@, k as int));
                    }
                    return Err(MeshParseError::InvalidSubmeshMaterial { actual: code });
            };
            let cull_min = read_vec3(b, q + 12);
            let cull_max = read_vec3(b, q + 24);
            let skip = read_le_u16(b, q + 38);
            let start = pos / 3;
            let count = n_tris / 3;
            if start as u64 + count as u64 > faces.len() as u64 {
                proof {
                    assert(prefix_ok(b@));
                    assert(first_bad_submesh(b@, k as int));
                }
                return Err(MeshParseError::TriangleRangeOutOfBounds { start, count });
            }
            let mut tris: Vec<Face> = Vec::new();
            let mut t: usize = 0;
            let total = faces.len();
            while t < count as usize
                invariant
                    total == faces@.len(),
                    start + count <= faces@.len(),
                    t <= count,
                    tris@ == faces@.subrange(start as int, start + t),
                decreases count - t,
            {
                tris.push(faces[start as usize + t]);
                t += 1;
                assert(tris@ =~= faces@.subrange(start as int, start + t));
            }
            submeshes.push(Submesh { material, cull_min, cull_max, tris });
            p = p + 52 + skip as u128;
            k += 1;
        }
        Ok(Mesh { vertices, faces, submeshes })
    }
}

} // verus!
