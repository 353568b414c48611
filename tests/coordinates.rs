use voxelbuilder_server::vector_types::{Vec2, Vec3};
use voxelbuilder_server::world::World;

#[test]
fn test_world_to_column_position() {
    // Positive
    for x in 0..48 {
        for z in 0..48 {
            assert_eq!(
                World::world_to_column_position(&Vec2::new(x, z)),
                Vec2::new(x / 16, z / 16)
            );
        }
    }

    // Negative
    for x in -49..0 {
        for z in -49..0 {
            let mut correct_x = x / 16;
            if x < 0 && -x % 16 != 0 {
                correct_x -= 1;
            }
            let mut correct_z = z / 16;
            if z < 0 && -z % 16 != 0 {
                correct_z -= 1;
            }
            assert_eq!(
                World::world_to_column_position(&Vec2::new(x, z)),
                Vec2::new(correct_x, correct_z)
            );
        }
    }
}

#[test]
fn test_world_to_chunk_position() {
    // Positive
    for x in 0..48 {
        for y in 0..48 {
            for z in 0..48 {
                assert_eq!(
                    World::world_to_chunk_position(&Vec3::new(x, y, z)),
                    Vec3::new(x / 16, y / 16, z / 16)
                );
            }
        }
    }

    // Negative
    for x in -49..0 {
        for y in -49..0 {
            for z in -49..0 {
                let mut correct_x = x / 16;
                if x < 0 && -x % 16 != 0 {
                    correct_x -= 1;
                }
                let mut correct_y = y / 16;
                if y < 0 && -y % 16 != 0 {
                    correct_y -= 1;
                }
                let mut correct_z = z / 16;
                if z < 0 && -z % 16 != 0 {
                    correct_z -= 1;
                }
                assert_eq!(
                    World::world_to_chunk_position(&Vec3::new(x, y, z)),
                    Vec3::new(correct_x, correct_y, correct_z)
                );
            }
        }
    }
}

#[test]
fn test_world_to_position_in_chunk() {
    // Chunk at 0,0,0
    for x in 0..16 {
        for y in 0..16 {
            for z in 0..16 {
                assert_eq!(
                    World::world_to_position_in_chunk(&Vec3::new(x, y, z)),
                    Vec3::new(x, y, z)
                );
            }
        }
    }

    // Chunk at 16,16,16
    for x in 16..32 {
        for y in 16..32 {
            for z in 16..32 {
                assert_eq!(
                    World::world_to_position_in_chunk(&Vec3::new(x, y, z)),
                    Vec3::new(x - 16, y - 16, z - 16)
                );
            }
        }
    }

    // Chunk at -15,-15,-15
    for x in -16..0 {
        for y in -16..0 {
            for z in -16..0 {
                assert_eq!(
                    World::world_to_position_in_chunk(&Vec3::new(x, y, z)),
                    Vec3::new(x + 16, y + 16, z + 16)
                );
            }
        }
    }
}

#[test]
fn chunk_and_local_recombine_for_extreme_coordinates() {
    for w in [i32::MIN, i32::MIN + 1, -17, -16, -15, -1, 0, 1, 15, 16, 17, i32::MAX - 1, i32::MAX] {
        let chunk = World::world_to_chunk_position(&Vec3::new(w, w, w));
        let local = World::world_to_position_in_chunk(&Vec3::new(w, w, w));
        assert!(local.x >= 0 && local.x < 16);
        assert_eq!(chunk.x as i64 * 16 + local.x as i64, w as i64);
        assert_eq!(chunk.y as i64 * 16 + local.y as i64, w as i64);
        assert_eq!(chunk.z as i64 * 16 + local.z as i64, w as i64);
    }
}

#[test]
fn minus_one_is_last_block_of_chunk_minus_one() {
    let chunk = World::world_to_chunk_position(&Vec3::new(-1, -1, -1));
    let local = World::world_to_position_in_chunk(&Vec3::new(-1, -1, -1));
    assert_eq!(chunk, Vec3::new(-1, -1, -1));
    assert_eq!(local, Vec3::new(15, 15, 15));
    assert_eq!(World::world_to_column_position(&Vec2::new(-1, -33)), Vec2::new(-1, -3));
}
