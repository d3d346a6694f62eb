use std::collections::HashMap;

use voxel_core::buffer::{Buffer, FastBufferReader};
use voxel_core::cell::{PbrProps, Rgba};
use voxel_core::coords::{ChunkCoord, IVec3, WorldCoord};

fn mat(r: u8) -> PbrProps {
    PbrProps {
        color: Rgba { r, g: 10, b: 20, a: 255 },
        metallic: 3,
        roughness: 23,
        reflectance: 128,
        emission: 0,
    }
}

#[test]
fn absent_cells_read_empty() {
    let b = Buffer::default();
    assert_eq!(b.get(WorldCoord(IVec3::new(5, -7, 100))), PbrProps::default());
    assert_eq!(b.count(), 0);
    assert!(b.chunk_aabb().is_none());
}

#[test]
fn count_tracks_last_written_values() {
    let mut b = Buffer::default();
    let mut model: HashMap<(i32, i32, i32), PbrProps> = HashMap::new();
    let mut seed: u64 = 12345;
    for step in 0..2000 {
        seed = seed.wrapping_mul(6364136223846793005).wrapping_add(1442695040888963407);
        let x = ((seed >> 33) % 80) as i32 - 40;
        let y = ((seed >> 20) % 5) as i32 - 2;
        let z = ((seed >> 45) % 70) as i32 - 35;
        let cell = if step % 3 == 0 { PbrProps::default() } else { mat((seed % 4) as u8) };
        b.set(WorldCoord(IVec3::new(x, y, z)), cell);
        model.insert((x, y, z), cell);
    }
    let expected = model.values().filter(|c| **c != PbrProps::default()).count();
    assert_eq!(b.count(), expected);
    for ((x, y, z), cell) in model.iter() {
        assert_eq!(b.get(WorldCoord(IVec3::new(*x, *y, *z))), *cell);
    }
}

#[test]
fn chunk_is_removed_when_emptied() {
    let mut b = Buffer::default();
    let c = WorldCoord(IVec3::new(40, 3, -5));
    b.set(c, mat(1));
    let k = ChunkCoord::from(c);
    assert!(b.contains_chunk(&k));
    assert_eq!(b.count(), 1);
    b.set(c, PbrProps::default());
    assert!(!b.contains_chunk(&k));
    assert_eq!(b.count(), 0);
    assert!(b.chunk_coords().is_empty());
}

#[test]
fn writing_empty_to_absent_chunk_stores_nothing() {
    let mut b = Buffer::default();
    b.set(WorldCoord(IVec3::new(1, 2, 3)), PbrProps::default());
    assert!(b.chunk_coords().is_empty());
}

#[test]
fn clone_is_an_independent_snapshot() {
    let mut b = Buffer::default();
    let c = WorldCoord(IVec3::new(0, 0, 0));
    b.set(c, mat(1));
    let snapshot = b.clone();
    b.set(c, mat(2));
    b.set(WorldCoord(IVec3::new(100, 0, 0)), mat(3));
    assert_eq!(snapshot.get(c), mat(1));
    assert_eq!(snapshot.count(), 1);
    assert_eq!(b.get(c), mat(2));
    assert_eq!(b.count(), 2);
}

#[test]
fn chunk_aabb_is_componentwise() {
    let mut b = Buffer::default();
    b.set(WorldCoord(IVec3::new(-1, 0, 70)), mat(1));
    b.set(WorldCoord(IVec3::new(64, -100, 0)), mat(1));
    let (lo, hi) = b.chunk_aabb().unwrap();
    assert_eq!(lo, ChunkCoord(IVec3::new(-1, -4, 0)));
    assert_eq!(hi, ChunkCoord(IVec3::new(2, 0, 2)));
}

#[test]
fn fast_reader_matches_get() {
    let mut b = Buffer::default();
    for i in -40..40 {
        b.set(WorldCoord(IVec3::new(i, i / 3, -i)), mat((i & 3) as u8));
    }
    let mut r = FastBufferReader::new(&b);
    for x in -45..45 {
        for y in -15..15 {
            let c = WorldCoord(IVec3::new(x, y, -x));
            assert_eq!(r.get(c), b.get(c));
        }
    }
    assert_eq!(r.get_pos(i64::from(i32::MAX) + 1, 0, 0), PbrProps::default());
}

#[test]
fn chunk_occupancy_probe() {
    let mut b = Buffer::default();
    b.set(WorldCoord(IVec3::new(33, 1, 2)), mat(1));
    let k = ChunkCoord(IVec3::new(1, 0, 0));
    let ch = b.chunk(&k).unwrap();
    assert_eq!(ch.count, 1);
    assert!(ch.occupied_at(1, 1, 2));
    assert!(!ch.occupied_at(0, 1, 2));
    assert!(!ch.occupied_at(32, 1, 2));
    assert!(!ch.occupied_at(-1, 1, 2));
}

#[test]
fn shadow_halves_rgb_keeps_alpha() {
    let c = Rgba { r: 201, g: 100, b: 3, a: 77 };
    assert_eq!(c.shadow(true), Rgba { r: 100, g: 50, b: 1, a: 77 });
    assert_eq!(c.shadow(false), c);
}

#[test]
fn sorted_chunk_coords_are_increasing() {
    let mut b = Buffer::default();
    for &(x, y, z) in [(100, 0, 0), (-40, 5, 5), (-40, -5, 90), (0, 0, 0), (-40, -5, 3)].iter() {
        b.set(WorldCoord(IVec3::new(x, y, z)), mat(1));
    }
    let cs = b.sorted_chunk_coords();
    let expected = vec![
        ChunkCoord(IVec3::new(-2, -1, 0)),
        ChunkCoord(IVec3::new(-2, -1, 2)),
        ChunkCoord(IVec3::new(-2, 0, 0)),
        ChunkCoord(IVec3::new(0, 0, 0)),
        ChunkCoord(IVec3::new(3, 0, 0)),
    ];
    assert_eq!(cs, expected);
    assert_eq!(b.chunk_coords().len(), 5);
}
