use voxelbuilder_server::chunk::{Chunk, ChunkError, CompressedSet};
use voxelbuilder_server::chunk_column::ChunkColumn;
use voxelbuilder_server::vector_types::{Vec2, Vec3};

#[test]
fn test_xyz_to_i() {
    let mut i = 0;
    for z in 0..16 {
        for y in 0..16 {
            for x in 0..16 {
                assert_eq!(Chunk::xyz_to_i(x, y, z), i);
                i += 1;
            }
        }
    }
}

#[test]
fn test_chunk_compression() {
    let mut chunk = Chunk::new(Vec3::new(0, 0, 0), 0);
    // All air
    let set = chunk.compress();
    assert_eq!(set.len(), 1);
    assert_eq!(set[0].count, 4096);
    assert_eq!(set[0].id, 0);

    // Single block
    chunk.set_block_i(0, 1).unwrap();
    let set = chunk.compress();
    assert_eq!(set.len(), 2);
    assert_eq!(set[0].count, 1);
    assert_eq!(set[0].id, 1);
    assert_eq!(set[1].count, 4095);
    assert_eq!(set[1].id, 0);

    // Alternating double
    for i in 0..4096 {
        if i % 4 == 0 || i % 4 == 1 {
            chunk.set_block_i(i, 1).unwrap();
        }
    }

    let set = chunk.compress();
    assert_eq!(set.len(), 2048);
    for i in 0..2048 {
        assert_eq!(set[i].count, 2);
        if i % 2 == 1 {
            assert_eq!(set[i].id, 0);
        } else {
            assert_eq!(set[i].id, 1);
        }
    }
}

fn blocks_of(chunk: &Chunk) -> Vec<i32> {
    let mut out = Vec::new();
    for z in 0..16u8 {
        for y in 0..16u8 {
            for x in 0..16u8 {
                out.push(chunk.get_block(x, y, z).unwrap());
            }
        }
    }
    out
}

fn round_trip(chunk: &Chunk) {
    let runs = chunk.compress();
    let total: i64 = runs.iter().map(|r| r.count as i64).sum();
    assert_eq!(total, 4096);
    for w in runs.windows(2) {
        assert_ne!(w[0].id, w[1].id);
    }
    let mut restored = Chunk::new(Vec3::new(9, 9, 9), 77);
    restored.decompress(&runs).unwrap();
    assert_eq!(blocks_of(&restored), blocks_of(chunk));
}

#[test]
fn compression_round_trips_air_single_and_checkerboard() {
    let mut chunk = Chunk::new(Vec3::new(0, 0, 0), 0);
    round_trip(&chunk);
    chunk.set_block(3, 4, 5, 9).unwrap();
    round_trip(&chunk);
    for i in 0..4096usize {
        chunk.set_block_i(i, if i % 4 < 2 { 1 } else { 0 }).unwrap();
    }
    round_trip(&chunk);
    for i in 0..4096usize {
        chunk.set_block_i(i, (i % 7) as i32).unwrap();
    }
    round_trip(&chunk);
}

#[test]
fn decompress_rejects_runs_longer_than_a_chunk() {
    let mut chunk = Chunk::new(Vec3::new(0, 0, 0), 5);
    let runs = vec![CompressedSet { id: 1, count: 4000 }, CompressedSet { id: 2, count: 97 }];
    assert_eq!(chunk.decompress(&runs), Err(ChunkError::OutOfRange));
    assert_eq!(chunk.get_block(0, 0, 0), Ok(5));
}

#[test]
fn decompress_of_a_prefix_keeps_the_rest() {
    let mut chunk = Chunk::new(Vec3::new(0, 0, 0), 5);
    let runs = vec![CompressedSet { id: 1, count: 3 }, CompressedSet { id: 2, count: -4 }];
    chunk.decompress(&runs).unwrap();
    assert_eq!(chunk.get_block(0, 0, 0), Ok(1));
    assert_eq!(chunk.get_block(2, 0, 0), Ok(1));
    assert_eq!(chunk.get_block(3, 0, 0), Ok(5));
}

#[test]
fn chunk_access_out_of_range_fails() {
    let mut chunk = Chunk::new(Vec3::new(1, 2, 3), 0);
    assert_eq!(chunk.set_block(16, 0, 0, 1), Err(ChunkError::OutOfRange));
    assert_eq!(chunk.get_block(0, 16, 0), Err(ChunkError::OutOfRange));
    assert_eq!(chunk.set_block_i(4096, 1), Err(ChunkError::OutOfRange));
    assert_eq!(chunk.position(), Vec3::new(1, 2, 3));
}

#[test]
fn column_layers_and_blocks() {
    let mut col = ChunkColumn::new(&Vec2::new(4, -2), 0);
    col.set_layers(10, 20, 3);
    assert_eq!(col.get_block(&Vec3::new(0, 9, 0)), Ok(0));
    assert_eq!(col.get_block(&Vec3::new(15, 10, 15)), Ok(3));
    assert_eq!(col.get_block(&Vec3::new(7, 16, 2)), Ok(3));
    assert_eq!(col.get_block(&Vec3::new(7, 20, 2)), Ok(3));
    assert_eq!(col.get_block(&Vec3::new(7, 21, 2)), Ok(0));
    col.set_block(&Vec3::new(1, 255, 2), 8).unwrap();
    assert_eq!(col.get_block(&Vec3::new(1, 255, 2)), Ok(8));
    assert_eq!(col.set_block(&Vec3::new(1, 256, 2), 8), Err(ChunkError::OutOfRange));
    assert_eq!(col.get_block(&Vec3::new(-1, 0, 0)), Err(ChunkError::OutOfRange));
    let chunks = col.get_chunks();
    assert_eq!(chunks.len(), 16);
    for (i, c) in chunks.iter().enumerate() {
        assert_eq!(c.position(), Vec3::new(4, i as i32, -2));
    }
    assert_eq!(col.get_chunk(15).get_block(1, 15, 2), Ok(8));
}
