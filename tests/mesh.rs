use voxel_core::buffer::Buffer;
use voxel_core::cell::{PbrProps, Rgba};
use voxel_core::coords::{IVec3, WorldCoord};
use voxel_core::mesh::{greedy_slice, Indices, MeshData, Quad};

fn mat() -> PbrProps {
    PbrProps {
        color: Rgba { r: 200, g: 100, b: 50, a: 255 },
        metallic: 3,
        roughness: 23,
        reflectance: 128,
        emission: 7,
    }
}

#[test]
fn single_voxel_gives_six_quads() {
    let mut b = Buffer::default();
    b.set(WorldCoord(IVec3::new(5, 6, 7)), mat());
    let m = MeshData::from_buffer(&b).unwrap();
    assert_eq!(m.quads.len(), 6);
    assert_eq!(m.positions.len(), 24);
    assert_eq!(m.indices.len(), 36);
    assert_eq!(&m.indices[0..12], &[0, 1, 2, 0, 2, 3, 4, 5, 6, 4, 6, 7]);
    // Face -X comes first: corners (5,6,7), (5,6,8), (5,7,8), (5,7,7).
    assert_eq!(&m.positions[0..4], &[(5, 6, 7), (5, 6, 8), (5, 7, 8), (5, 7, 7)]);
    assert_eq!(m.pbr_norm[0], (3, 23, 128, 0));
    assert_eq!(m.pbr_norm[23], (3, 23, 128, 5));
    // Nothing occludes an isolated voxel.
    assert!(m.color_emissive.iter().all(|c| *c == (200, 100, 50, 7)));
    match m.index_buffer() {
        Indices::U16(v) => assert_eq!(v.len(), 36),
        Indices::U32(_) => panic!("expected 16-bit indices"),
    }
}

#[test]
fn meshing_is_deterministic() {
    let mut b = Buffer::default();
    for i in 0..50 {
        b.set(WorldCoord(IVec3::new(i * 3 - 70, i % 7, (i * 5) % 40 - 20)), mat());
    }
    let m1 = MeshData::from_buffer(&b).unwrap();
    let m2 = MeshData::from_buffer(&b).unwrap();
    assert_eq!(m1.quads, m2.quads);
    assert_eq!(m1.positions, m2.positions);
    assert_eq!(m1.pbr_norm, m2.pbr_norm);
    assert_eq!(m1.color_emissive, m2.color_emissive);
    assert_eq!(m1.indices, m2.indices);
}

#[test]
fn row_of_equal_voxels_merges() {
    let mut b = Buffer::default();
    for x in 0..3 {
        b.set(WorldCoord(IVec3::new(x, 0, 0)), mat());
    }
    let qs = Quad::from_buffer(&b);
    // Two end caps and one 3x1 quad on each of the four long sides.
    assert_eq!(qs.len(), 6);
    assert_eq!(qs.iter().filter(|q| q.width * q.height == 3).count(), 4);
}

#[test]
fn flat_square_merges_into_one_quad_per_side() {
    let mut b = Buffer::default();
    for x in 0..4 {
        for z in 0..4 {
            b.set(WorldCoord(IVec3::new(x, 0, z)), mat());
        }
    }
    let qs = Quad::from_buffer(&b);
    assert_eq!(qs.len(), 6);
    let top: Vec<&Quad> = qs.iter().filter(|q| q.face == 4).collect();
    assert_eq!(top.len(), 1);
    assert_eq!((top[0].width, top[0].height), (4, 4));
}

#[test]
fn blocked_row_stops_vertical_growth() {
    // Slice: a 2-wide row at v = 0 and a 1-wide row at v = 1.
    let e = PbrProps::default();
    let mut cells = vec![e; 1024];
    let open = vec![true; 1024];
    cells[0] = mat();
    cells[1] = mat();
    cells[32] = mat();
    let qs = greedy_slice(&cells, &open);
    assert_eq!(qs.len(), 2);
    assert_eq!((qs[0].u, qs[0].v, qs[0].w, qs[0].h), (0, 0, 2, 1));
    assert_eq!((qs[1].u, qs[1].v, qs[1].w, qs[1].h), (0, 1, 1, 1));
}

#[test]
fn different_materials_do_not_merge() {
    let mut cells = vec![PbrProps::default(); 1024];
    let open = vec![true; 1024];
    cells[0] = mat();
    cells[1] = PbrProps { metallic: 1, ..mat() };
    let qs = greedy_slice(&cells, &open);
    assert_eq!(qs.len(), 2);
}

#[test]
fn covered_faces_are_culled() {
    let mut b = Buffer::default();
    b.set(WorldCoord(IVec3::new(0, 0, 0)), mat());
    b.set(WorldCoord(IVec3::new(0, 1, 0)), PbrProps { roughness: 1, ..mat() });
    let qs = Quad::from_buffer(&b);
    // 12 faces minus the two touching ones.
    assert_eq!(qs.len(), 10);
}

#[test]
fn occluded_corners_are_darkened() {
    let mut b = Buffer::default();
    b.set(WorldCoord(IVec3::new(0, 0, 0)), mat());
    // Occupies the cell beside the +Y face's neighbour along +X.
    b.set(WorldCoord(IVec3::new(1, 1, 0)), PbrProps { roughness: 1, ..mat() });
    let m = MeshData::from_buffer(&b).unwrap();
    let i = m
        .quads
        .iter()
        .position(|q| q.face == 4 && q.u == 0 && q.v == 0 && q.pbr_props == mat())
        .unwrap();
    let colors = &m.color_emissive[4 * i..4 * i + 4];
    // +Y face: tangent +Z, bitangent +X. Corners 2 and 3 look along +X.
    assert_eq!(colors[0], (200, 100, 50, 7));
    assert_eq!(colors[1], (200, 100, 50, 7));
    assert_eq!(colors[2], (100, 50, 25, 7));
    assert_eq!(colors[3], (100, 50, 25, 7));
}

#[test]
fn many_vertices_use_wide_indices() {
    let mut b = Buffer::default();
    for x in 0..32 {
        for y in 0..32 {
            for z in 0..16 {
                if (x + y + z) % 2 == 0 {
                    b.set(WorldCoord(IVec3::new(x, y, z)), mat());
                }
            }
        }
    }
    let m = MeshData::from_buffer(&b).unwrap();
    assert!(m.positions.len() > 65535);
    match m.index_buffer() {
        Indices::U32(v) => assert_eq!(v, m.indices),
        Indices::U16(_) => panic!("expected 32-bit indices"),
    }
}
