use voxel_core::buffer::Buffer;
use voxel_core::cell::PbrProps;
use voxel_core::chunk::Chunk;
use voxel_core::codec::{CompressedBuffer, CompressedChunk, DecompressError, Run};
use voxel_core::coords::{IVec3, LocalCoord, UVec3, WorldCoord, COUNT};

#[test]
fn test_compression() {
    let mut buffer = Buffer::default();
    let p = PbrProps {
        metallic: 255,
        ..Default::default()
    };

    buffer.set(WorldCoord(IVec3::new(0, 0, 0)), p);
    buffer.set(WorldCoord(IVec3::new(1, 0, 0)), p);
    buffer.set(WorldCoord(IVec3::new(-1, 0, 0)), p);
    buffer.set(WorldCoord(IVec3::new(40, 40, 40)), p);

    let compressed_buffer = CompressedBuffer::from_buffer(&buffer);
    let buffer = Buffer::from_compressed(&compressed_buffer).unwrap();

    assert_eq!(buffer.count(), 4);
    assert_eq!(buffer.get(WorldCoord(IVec3::new(0, 0, 0))), p);
    assert_eq!(buffer.get(WorldCoord(IVec3::new(1, 0, 0))), p);
    assert_eq!(buffer.get(WorldCoord(IVec3::new(-1, 0, 0))), p);
    assert_eq!(buffer.get(WorldCoord(IVec3::new(40, 40, 40))), p);
}

#[test]
fn empty_chunk_is_one_run() {
    let c = CompressedChunk::from_chunk(&Chunk::default());
    assert_eq!(c.runs.len(), 1);
    assert_eq!(c.runs[0].len as usize, COUNT);
    assert_eq!(c.runs[0].pbr_props, PbrProps::default());
}

#[test]
fn runs_are_shortest() {
    let p = PbrProps { roughness: 9, ..Default::default() };
    let mut ch = Chunk::default();
    ch.set(LocalCoord(UVec3::new(0, 0, 0)), p);
    ch.set(LocalCoord(UVec3::new(1, 0, 0)), p);
    ch.set(LocalCoord(UVec3::new(31, 31, 31)), p);
    let c = CompressedChunk::from_chunk(&ch);
    let lens: Vec<u32> = c.runs.iter().map(|r| r.len).collect();
    assert_eq!(lens, vec![2, COUNT as u32 - 3, 1]);
    let back = Chunk::from_compressed(&c).unwrap();
    assert_eq!(back.count, 3);
    assert_eq!(back.voxels, ch.voxels);
}

#[test]
fn wrong_run_total_is_rejected() {
    let c = CompressedChunk { runs: vec![Run { len: 5, pbr_props: PbrProps::default() }] };
    assert_eq!(Chunk::from_compressed(&c).unwrap_err(), DecompressError::RunLength);
    let long = CompressedChunk {
        runs: vec![
            Run { len: u32::MAX, pbr_props: PbrProps::default() },
            Run { len: 2, pbr_props: PbrProps::default() },
        ],
    };
    assert_eq!(Chunk::from_compressed(&long).unwrap_err(), DecompressError::RunLength);
    let cb = CompressedBuffer { chunks: vec![(IVec3::new(0, 0, 0), c)] };
    assert_eq!(Buffer::from_compressed(&cb).err(), Some(DecompressError::RunLength));
}

#[test]
fn duplicate_chunk_is_rejected() {
    let full = || CompressedChunk { runs: vec![Run { len: COUNT as u32, pbr_props: PbrProps::default() }] };
    let cb = CompressedBuffer {
        chunks: vec![(IVec3::new(1, 2, 3), full()), (IVec3::new(1, 2, 3), full())],
    };
    assert_eq!(Buffer::from_compressed(&cb).err(), Some(DecompressError::DuplicateChunk));
}

#[test]
fn out_of_range_chunk_is_rejected() {
    let full = CompressedChunk { runs: vec![Run { len: COUNT as u32, pbr_props: PbrProps::default() }] };
    let cb = CompressedBuffer { chunks: vec![(IVec3::new(1 << 26, 0, 0), full)] };
    assert_eq!(Buffer::from_compressed(&cb).err(), Some(DecompressError::ChunkOutOfRange));
}

#[test]
fn all_empty_chunk_is_not_stored() {
    let full = CompressedChunk { runs: vec![Run { len: COUNT as u32, pbr_props: PbrProps::default() }] };
    let cb = CompressedBuffer { chunks: vec![(IVec3::new(0, 0, 0), full)] };
    let b = Buffer::from_compressed(&cb).unwrap();
    assert_eq!(b.count(), 0);
    assert!(b.chunk_coords().is_empty());
}
