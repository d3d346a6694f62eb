use voxel_core::coords::{ChunkCoord, IVec3, LocalCoord, UVec3, WorldCoord, WorldCoordOffset, COUNT};

#[test]
fn test_world_to_chunk_coord() {
    let c = WorldCoord(IVec3::new(0, 0, 0));
    assert_eq!(ChunkCoord::from(c), ChunkCoord(IVec3::new(0, 0, 0)));

    let c = WorldCoord(IVec3::new(-1, -1, -1));
    assert_eq!(ChunkCoord::from(c), ChunkCoord(IVec3::new(-1, -1, -1)));

    let c = WorldCoord(IVec3::new(31, 31, 31));
    assert_eq!(ChunkCoord::from(c), ChunkCoord(IVec3::new(0, 0, 0)));

    let c = WorldCoord(IVec3::new(32, 32, 32));
    assert_eq!(ChunkCoord::from(c), ChunkCoord(IVec3::new(1, 1, 1)));
}

#[test]
fn test_chunk_coord() {
    let c = ChunkCoord(IVec3::new(0, 0, 0));
    assert_eq!(c.first_cell_coord(), WorldCoord(IVec3::new(0, 0, 0)));
    assert_eq!(c.last_cell_coord(), WorldCoord(IVec3::new(31, 31, 31)));

    let c = ChunkCoord(IVec3::new(-1, -1, -1));
    assert_eq!(c.first_cell_coord(), WorldCoord(IVec3::new(-32, -32, -32)));
    assert_eq!(c.last_cell_coord(), WorldCoord(IVec3::new(-1, -1, -1)));

    let c = ChunkCoord(IVec3::new(10, 10, 10));
    assert_eq!(c.first_cell_coord(), WorldCoord(IVec3::new(320, 320, 320)));
    assert_eq!(c.last_cell_coord(), WorldCoord(IVec3::new(351, 351, 351)));
}

#[test]
fn test_local_coord() {
    let c = LocalCoord(UVec3::new(0, 0, 0));
    assert_eq!(c.linearize(), 0);

    let c = LocalCoord(UVec3::new(1, 0, 0));
    assert_eq!(c.linearize(), 1);

    let c = LocalCoord(UVec3::new(0, 1, 0));
    assert_eq!(c.linearize(), 32);

    let c = LocalCoord(UVec3::new(0, 0, 1));
    assert_eq!(c.linearize(), 1024);

    let c = LocalCoord(UVec3::new(1, 1, 1));
    assert_eq!(c.linearize(), 1057);
}

#[test]
fn local_coord_in_range_and_first_cell_round_trip() {
    let samples = [
        i32::MIN,
        i32::MIN + 1,
        -1000,
        -33,
        -32,
        -31,
        -1,
        0,
        1,
        31,
        32,
        33,
        1000,
        i32::MAX - 1,
        i32::MAX,
    ];
    for &x in samples.iter() {
        for &y in samples.iter() {
            let c = WorldCoord(IVec3::new(x, y, 7));
            let l = LocalCoord::from(c);
            assert!(l.0.x < 32 && l.0.y < 32 && l.0.z < 32);
            let k = ChunkCoord::from(c);
            assert_eq!(ChunkCoord::from(k.first_cell_coord()), k);
            assert_eq!(l.to_cell_coord(&k), c);
            assert_eq!(l.0.x as i64, (x as i64).rem_euclid(32));
            assert_eq!(k.0.x as i64, (x as i64).div_euclid(32));
        }
    }
}

#[test]
fn negative_world_coord_splits_by_floor() {
    let c = WorldCoord(IVec3::new(-1, -33, -64));
    assert_eq!(ChunkCoord::from(c), ChunkCoord(IVec3::new(-1, -2, -2)));
    assert_eq!(LocalCoord::from(c), LocalCoord(UVec3::new(31, 31, 0)));
}

#[test]
fn linearize_is_a_bijection() {
    let mut seen = vec![false; COUNT];
    for z in 0..32u32 {
        for y in 0..32u32 {
            for x in 0..32u32 {
                let i = LocalCoord(UVec3::new(x, y, z)).linearize();
                assert!(i < COUNT);
                assert!(!seen[i]);
                seen[i] = true;
            }
        }
    }
    assert!(seen.iter().all(|s| *s));
}

#[test]
fn iter_world_coords_follows_linear_order() {
    let k = ChunkCoord(IVec3::new(-1, 2, 0));
    let cells = k.iter_world_coords();
    assert_eq!(cells.len(), COUNT);
    assert_eq!(cells[0], WorldCoord(IVec3::new(-32, 64, 0)));
    assert_eq!(cells[1057], WorldCoord(IVec3::new(-31, 65, 1)));
    assert_eq!(cells[COUNT - 1], k.last_cell_coord());
    assert_eq!(
        WorldCoord::from_offset_into_chunk(&k, 1, 1, 1),
        WorldCoord(IVec3::new(-31, 65, 1))
    );
}

#[test]
fn offset_moves_anchor() {
    let o = WorldCoordOffset::from((1, -2, 3));
    assert_eq!(
        o.to_cell_coord(WorldCoord::from((10, 10, 10))),
        WorldCoord(IVec3::new(11, 8, 13))
    );
}
