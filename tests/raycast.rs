use voxel_core::buffer::Buffer;
use voxel_core::cell::{PbrProps, Rgba};
use voxel_core::coords::{ChunkCoord, IVec3, WorldCoord};
use voxel_core::raycast::first_hit_on_path;

fn mat() -> PbrProps {
    PbrProps {
        color: Rgba { r: 9, g: 9, b: 9, a: 255 },
        ..Default::default()
    }
}

#[test]
fn path_stops_at_first_occupied_cell() {
    let mut b = Buffer::default();
    b.set(WorldCoord(IVec3::new(37, 2, 3)), mat());
    b.set(WorldCoord(IVec3::new(39, 2, 3)), mat());
    let k = ChunkCoord(IVec3::new(1, 0, 0));
    let chunk = b.chunk(&k).unwrap();
    let path: Vec<IVec3> = (-2..10).map(|x| IVec3::new(x, 2, 3)).collect();
    let hit = first_hit_on_path(chunk, &k, &path).unwrap();
    assert_eq!(hit.index, 7);
    assert_eq!(hit.world_coord, WorldCoord(IVec3::new(37, 2, 3)));
    // Approaching along +X, the face hit faces -X.
    assert_eq!(hit.normal, Some(IVec3::new(-1, 0, 0)));
}

#[test]
fn path_through_empty_space_misses() {
    let mut b = Buffer::default();
    b.set(WorldCoord(IVec3::new(5, 5, 5)), mat());
    let k = ChunkCoord(IVec3::new(0, 0, 0));
    let chunk = b.chunk(&k).unwrap();
    let path: Vec<IVec3> = (0..32).map(|y| IVec3::new(5, y, 6)).collect();
    assert!(first_hit_on_path(chunk, &k, &path).is_none());
}

#[test]
fn path_starting_inside_solid_has_no_normal() {
    let mut b = Buffer::default();
    b.set(WorldCoord(IVec3::new(5, 5, 5)), mat());
    let k = ChunkCoord(IVec3::new(0, 0, 0));
    let chunk = b.chunk(&k).unwrap();
    let path = vec![IVec3::new(5, 5, 5), IVec3::new(5, 5, 6)];
    let hit = first_hit_on_path(chunk, &k, &path).unwrap();
    assert_eq!(hit.index, 0);
    assert_eq!(hit.normal, None);
}
