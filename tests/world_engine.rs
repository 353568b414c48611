use voxelbuilder_server::chunk_column::ChunkColumn;
use voxelbuilder_server::generation::{apply_generation, ColumnEdits, ColumnGenerator, GenerationCommand};
use voxelbuilder_server::items::{ItemData, ItemManager, ItemType};
use voxelbuilder_server::packets::ChunkAction;
use voxelbuilder_server::save_file::SaveFile;
use voxelbuilder_server::save_format::{SaveError, SAVE_FORMAT_VERSION};
use voxelbuilder_server::vector_types::{Vec2, Vec3};
use voxelbuilder_server::world::{BlockToPlace, UpdateOutcome, World, NOT_FOUND};

fn item(name: &str) -> ItemData {
    ItemData {
        item_type: ItemType::BlockCube,
        is_transparent: false,
        show_in_inventory: true,
        name: name.to_string(),
        top_tex_coords: Vec2::new(0, 0),
        side_tex_coords: Vec2::new(0, 0),
        bottom_tex_coords: Vec2::new(0, 0),
    }
}

fn registry() -> ItemManager {
    let mut items = ItemManager::new();
    for name in ["air", "stone", "dirt", "grass"] {
        items.put_new_item(item(name));
    }
    items
}

/// Stone up to Y 10, a dirt block at the column's (0, 11, 0), and a grass
/// block one column to the east at its (0, 12, 0).
struct CountingGenerator {
    calls: usize,
}

impl ColumnGenerator for CountingGenerator {
    fn generate_column(&mut self, _column: Vec2<i32>, items: &ItemManager, edits: &mut ColumnEdits) {
        self.calls += 1;
        let stone = items.get_id_by_name("stone".to_string()).unwrap();
        let dirt = items.get_id_by_name("dirt".to_string()).unwrap();
        let grass = items.get_id_by_name("grass".to_string()).unwrap();
        edits.set_layers(0, 10, stone);
        edits.set_block(0, 11, 0, dirt);
        edits.set_block(16, 12, 0, grass);
    }
}

fn new_world() -> World {
    World::new(registry(), SaveFile::with_seed(Some("save".to_string()), 7))
}

#[test]
fn get_block_outside_height_is_not_found_and_generates_nothing() {
    let mut world = new_world();
    let mut gen = CountingGenerator { calls: 0 };
    assert_eq!(world.get_block(&Vec3::new(5, 256, 5), &mut gen), NOT_FOUND);
    assert_eq!(world.get_block(&Vec3::new(5, -1, 5), &mut gen), NOT_FOUND);
    assert_eq!(gen.calls, 0);
    assert!(!world.does_column_exist(&Vec2::new(0, 0)));
}

#[test]
fn set_block_with_unknown_id_leaves_block_unchanged() {
    let mut world = new_world();
    let mut gen = CountingGenerator { calls: 0 };
    let p = Vec3::new(3, 5, 3);
    assert_eq!(world.get_block(&p, &mut gen), 1);
    world.set_block(&p, 99, &mut gen);
    world.set_block(&p, -3, &mut gen);
    assert_eq!(world.get_block(&p, &mut gen), 1);
    world.set_block(&p, 2, &mut gen);
    assert_eq!(world.get_block(&p, &mut gen), 2);
}

#[test]
fn column_is_generated_once() {
    let mut world = new_world();
    let mut gen = CountingGenerator { calls: 0 };
    let first: Vec<i32> = {
        let col = world.get_column(&Vec2::new(2, 3), &mut gen);
        (0..256).map(|y| col.get_block(&Vec3::new(0, y, 0)).unwrap()).collect()
    };
    // the column and the neighbour its grass goes to
    assert_eq!(gen.calls, 2);
    let second: Vec<i32> = {
        let col = world.get_column(&Vec2::new(2, 3), &mut gen);
        (0..256).map(|y| col.get_block(&Vec3::new(0, y, 0)).unwrap()).collect()
    };
    assert_eq!(gen.calls, 2);
    assert_eq!(first, second);
    assert_eq!(first[10], 1);
    assert_eq!(first[11], 2);
    assert_eq!(first[12], 0);
}

#[test]
fn block_for_a_neighbour_generates_it() {
    let mut world = new_world();
    let mut gen = CountingGenerator { calls: 0 };
    world.get_column(&Vec2::new(0, 0), &mut gen);
    // the grass for column (1, 0) made it resident and was placed there
    assert!(world.does_column_exist(&Vec2::new(1, 0)));
    assert_eq!(gen.calls, 2);
    assert_eq!(world.get_block(&Vec3::new(16, 12, 0), &mut gen), 3);
    assert_eq!(world.get_block(&Vec3::new(16, 11, 0), &mut gen), 2);
    // the neighbour's own grass for column (2, 0) waits: building stops there
    assert!(!world.does_column_exist(&Vec2::new(2, 0)));
    // building (2, 0) builds (3, 0) for its own grass
    assert_eq!(world.get_block(&Vec3::new(32, 12, 0), &mut gen), 3);
    assert_eq!(gen.calls, 4);
}

#[test]
fn block_for_a_resident_neighbour_is_placed_at_once() {
    let mut world = new_world();
    let mut gen = CountingGenerator { calls: 0 };
    world.get_column(&Vec2::new(1, 0), &mut gen);
    assert_eq!(world.get_block(&Vec3::new(16, 12, 0), &mut gen), 0);
    world.get_column(&Vec2::new(0, 0), &mut gen);
    assert_eq!(world.get_block(&Vec3::new(16, 12, 0), &mut gen), 3);
}

#[test]
fn save_then_load_restores_every_probed_block() {
    let mut world = new_world();
    let mut gen = CountingGenerator { calls: 0 };
    world.get_column(&Vec2::new(2, 3), &mut gen);
    let edits = [
        (Vec3::new(32, 0, 48), 2),
        (Vec3::new(47, 255, 63), 3),
        (Vec3::new(40, 100, 50), 1),
        (Vec3::new(33, 5, 49), 0),
    ];
    for (p, id) in edits.iter() {
        world.set_block(p, *id, &mut gen);
    }
    let bytes = world.save_to_file().unwrap();

    let mut save = SaveFile::with_seed(Some("save".to_string()), 0);
    save.load(&bytes).unwrap();
    assert_eq!(save.world_seed(), 7);
    let mut fresh = World::new(registry(), save);
    let mut fresh_gen = CountingGenerator { calls: 0 };
    for (p, id) in edits.iter() {
        assert_eq!(fresh.get_block(p, &mut fresh_gen), *id);
    }
    for y in 0..256 {
        for (x, z) in [(32, 48), (39, 55), (47, 63)] {
            let p = Vec3::new(x, y, z);
            assert_eq!(fresh.get_block(&p, &mut fresh_gen), world.get_block(&p, &mut gen));
        }
    }
    assert_eq!(fresh_gen.calls, 0);
}

#[test]
fn saving_twice_replaces_chunk_records() {
    let mut world = new_world();
    let mut gen = CountingGenerator { calls: 0 };
    world.get_column(&Vec2::new(0, 0), &mut gen);
    let first = world.save_to_file().unwrap();
    let second = world.save_to_file().unwrap();
    assert_eq!(first, second);
    world.set_block(&Vec3::new(0, 200, 0), 2, &mut gen);
    let third = world.save_to_file().unwrap();
    assert!(third.len() > first.len());
    assert_eq!(third.iter().filter(|b| **b == b'C').count() >= 16, true);
    let mut save = SaveFile::with_seed(None, 0);
    save.load(&third).unwrap();
    let runs = &save.get_chunk(Vec3::new(0, 12, 0)).unwrap().data;
    assert_eq!(runs.len(), 3);
    assert_eq!(runs[1].id, 2);
}

#[test]
fn world_without_directory_is_not_saved() {
    let mut world = World::new(registry(), SaveFile::with_seed(None, 1));
    assert!(world.save_to_file().is_none());
}

#[test]
fn save_data_round_trips_and_reports_bad_input() {
    let mut world = new_world();
    let mut gen = CountingGenerator { calls: 0 };
    world.get_column(&Vec2::new(-1, 0), &mut gen);
    let bytes = world.save_to_file().unwrap();
    assert_eq!(bytes[0], SAVE_FORMAT_VERSION);
    assert_eq!(&bytes[1..5], &7i32.to_le_bytes());
    assert_eq!(bytes[5], b'C');

    let mut save = SaveFile::with_seed(None, 0);
    save.load(&bytes).unwrap();
    assert_eq!(save.write_save(), bytes);
    let chunk = save.get_chunk(Vec3::new(-1, 0, 0)).unwrap();
    assert_eq!(chunk.data[0].id, 1);
    assert!(save.get_chunk(Vec3::new(-1, 16, 0)).is_none());

    let mut truncated = SaveFile::with_seed(None, 3);
    assert_eq!(truncated.load(&bytes[..bytes.len() - 1].to_vec()), Err(SaveError::Truncated));
    assert_eq!(truncated.load(&vec![SAVE_FORMAT_VERSION, 2]), Err(SaveError::Truncated));
    assert_eq!(truncated.load(&vec![]), Err(SaveError::Truncated));
    assert_eq!(truncated.load(&vec![SAVE_FORMAT_VERSION + 1, 0, 0, 0, 0]), Err(SaveError::UnsupportedVersion(SAVE_FORMAT_VERSION + 1)));
    assert_eq!(
        truncated.load(&vec![SAVE_FORMAT_VERSION, 0, 0, 0, 0, b'X']),
        Err(SaveError::UnknownRecord(b'X'))
    );
    assert_eq!(truncated.world_seed(), 3);

    let mut placed = vec![SAVE_FORMAT_VERSION, 5, 0, 0, 0, b'N'];
    for v in [1i32, -2, 3, 4, 5, 6] {
        placed.extend_from_slice(&v.to_le_bytes());
    }
    let mut save = SaveFile::with_seed(None, 0);
    save.load(&placed).unwrap();
    assert_eq!(save.world_seed(), 5);
    assert_eq!(save.write_save(), placed);
}

#[test]
fn chunk_updates_follow_place_and_destroy_rules() {
    let mut world = new_world();
    let mut gen = CountingGenerator { calls: 0 };
    let stone = Vec3::new(1, 3, 1);
    let air = Vec3::new(1, 50, 1);
    assert_eq!(world.handle_chunk_update(&stone, ChunkAction::Place(2), &mut gen), UpdateOutcome::Occupied(1));
    assert_eq!(world.handle_chunk_update(&air, ChunkAction::Destroy, &mut gen), UpdateOutcome::AlreadyEmpty(0));
    assert_eq!(world.handle_chunk_update(&air, ChunkAction::Place(3), &mut gen), UpdateOutcome::Placed);
    assert_eq!(world.get_block(&air, &mut gen), 3);
    assert_eq!(world.handle_chunk_update(&stone, ChunkAction::Destroy, &mut gen), UpdateOutcome::Destroyed);
    assert_eq!(world.get_block(&stone, &mut gen), 0);
    assert_eq!(world.handle_chunk_update(&stone, ChunkAction::Unknown(9), &mut gen), UpdateOutcome::UnknownAction(9));
    assert_eq!(world.handle_chunk_update(&stone, ChunkAction::Place(42), &mut gen), UpdateOutcome::UnknownBlock(42));
    assert_eq!(world.get_block(&stone, &mut gen), 0);
    assert_eq!(world.handle_chunk_update(&Vec3::new(1, 256, 1), ChunkAction::Place(2), &mut gen), UpdateOutcome::OutOfHeight);
    assert_eq!(world.handle_chunk_update(&Vec3::new(1, -1, 1), ChunkAction::Destroy, &mut gen), UpdateOutcome::OutOfHeight);
}

#[test]
fn generation_commands_apply_in_order() {
    let mut col = ChunkColumn::new(&Vec2::new(5, -6), 0);
    let mut edits = ColumnEdits::new();
    edits.set_layers(250, 400, 4);
    edits.set_block(2, 300, 2, 7);
    edits.set_block(3, 251, 3, 6);
    edits.set_block(-1, 10, 17, 8);
    assert_eq!(edits.commands()[0], GenerationCommand::SetLayers { lower: 250, upper: 400, id: 4 });
    let placed = apply_generation(&mut col, edits.commands());
    assert_eq!(col.get_block(&Vec3::new(0, 249, 0)), Ok(0));
    assert_eq!(col.get_block(&Vec3::new(0, 255, 0)), Ok(4));
    assert_eq!(col.get_block(&Vec3::new(3, 251, 3)), Ok(6));
    assert_eq!(placed.len(), 1);
    assert_eq!(
        placed[0],
        BlockToPlace {
            column_position: Vec2::new(4, -5),
            position_in_column: Vec3::new(15, 10, 1),
            block_id: 8,
        }
    );
}

#[test]
fn generated_column_is_inserted_with_its_commands() {
    let mut world = new_world();
    let mut gen = CountingGenerator { calls: 0 };
    world.get_column(&Vec2::new(1, 0), &mut gen);
    let mut edits = ColumnEdits::new();
    edits.set_layers(0, 3, 2);
    edits.set_block(20, 5, 1, 3);
    edits.set_block(0, 4, -1, 1);
    world.insert_generated_column(ChunkColumn::new(&Vec2::new(0, 0), 0), edits.commands());
    assert_eq!(gen.calls, 2);
    assert_eq!(world.get_block(&Vec3::new(7, 3, 7), &mut gen), 2);
    assert_eq!(world.get_block(&Vec3::new(7, 4, 7), &mut gen), 0);
    // resident neighbour gets its block at once
    assert_eq!(world.get_block(&Vec3::new(20, 5, 1), &mut gen), 3);
    // the column at (0, -1) is built later and then holds the waiting block
    assert_eq!(world.get_block(&Vec3::new(0, 4, -1), &mut gen), 1);
    assert_eq!(gen.calls, 4);
}

#[test]
fn fully_saved_column_does_not_run_the_generator() {
    let mut world = new_world();
    let mut gen = CountingGenerator { calls: 0 };
    world.get_column(&Vec2::new(2, 3), &mut gen);
    let bytes = world.save_to_file().unwrap();
    let mut save = SaveFile::with_seed(None, 0);
    save.load(&bytes).unwrap();
    let mut fresh = World::new(registry(), save);
    let mut fresh_gen = CountingGenerator { calls: 0 };
    fresh.get_column(&Vec2::new(2, 3), &mut fresh_gen);
    fresh.get_column(&Vec2::new(2, 3), &mut fresh_gen);
    assert_eq!(fresh_gen.calls, 0);
    fresh.get_column(&Vec2::new(9, 9), &mut fresh_gen);
    assert_eq!(fresh_gen.calls, 2);
}

#[test]
fn columns_are_saved_in_ascending_order() {
    let mut world = new_world();
    let mut gen = CountingGenerator { calls: 0 };
    world.get_column(&Vec2::new(5, 1), &mut gen);
    world.get_column(&Vec2::new(-4, 7), &mut gen);
    world.get_column(&Vec2::new(-4, -2), &mut gen);
    let bytes = world.save_to_file().unwrap();
    let mut save = SaveFile::with_seed(None, 0);
    save.load(&bytes).unwrap();
    // records follow in the file; read their positions back in order
    let mut positions = Vec::new();
    let mut p = 5;
    while p < bytes.len() && bytes[p] == b'C' {
        let x = i32::from_le_bytes([bytes[p + 1], bytes[p + 2], bytes[p + 3], bytes[p + 4]]);
        let y = i32::from_le_bytes([bytes[p + 5], bytes[p + 6], bytes[p + 7], bytes[p + 8]]);
        let z = i32::from_le_bytes([bytes[p + 9], bytes[p + 10], bytes[p + 11], bytes[p + 12]]);
        let n = u32::from_le_bytes([bytes[p + 13], bytes[p + 14], bytes[p + 15], bytes[p + 16]]) as usize;
        positions.push((x, z, y));
        p += 17 + 8 * n;
    }
    let mut sorted = positions.clone();
    sorted.sort();
    assert_eq!(positions, sorted);
    assert_eq!(positions.len() % 16, 0);
    assert_eq!(positions[0], (-4, -2, 0));
}
