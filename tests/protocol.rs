use voxelbuilder_server::chunk_column::ChunkColumn;
use voxelbuilder_server::items::{ItemData, ItemManager, ItemType};
use voxelbuilder_server::packets::{
    assemble_chunk_contents_packet, assemble_player_info_data, read_request, ChunkAction,
    ChunkUpdateType, PacketType, ProtocolError, Request,
};
use voxelbuilder_server::save_file::{check_save_directory, SaveFile};
use voxelbuilder_server::vector_types::{Vec2, Vec3};

#[test]
fn chunk_contents_packet_of_an_air_column() {
    let col = ChunkColumn::new(&Vec2::new(2, -3), 0);
    let packet = assemble_chunk_contents_packet(&col);
    assert_eq!(packet.len(), 1 + 16 * (12 + 8 + 4));
    assert_eq!(packet[0], PacketType::ChunkContents.to_byte());
    let section = &packet[1..25];
    assert_eq!(&section[0..4], &2i32.to_le_bytes());
    assert_eq!(&section[4..8], &0i32.to_le_bytes());
    assert_eq!(&section[8..12], &(-3i32).to_le_bytes());
    assert_eq!(&section[12..16], &0i32.to_le_bytes());
    assert_eq!(&section[16..20], &4096i32.to_le_bytes());
    assert_eq!(&section[20..24], &(-1i32).to_le_bytes());
    assert_eq!(&packet[25 + 4..25 + 8], &1i32.to_le_bytes());
}

#[test]
fn chunk_contents_packet_carries_runs() {
    let mut col = ChunkColumn::new(&Vec2::new(0, 0), 0);
    col.set_block(&Vec3::new(0, 0, 0), 5).unwrap();
    let packet = assemble_chunk_contents_packet(&col);
    assert_eq!(packet.len(), 1 + 16 * 24 + 8);
    assert_eq!(&packet[13..17], &5i32.to_le_bytes());
    assert_eq!(&packet[17..21], &1i32.to_le_bytes());
    assert_eq!(&packet[21..25], &0i32.to_le_bytes());
    assert_eq!(&packet[25..29], &4095i32.to_le_bytes());
}

#[test]
fn requests_are_read() {
    let mut data = vec![PacketType::ChunkRequest.to_byte()];
    data.extend_from_slice(&(-4i32).to_le_bytes());
    data.extend_from_slice(&9i32.to_le_bytes());
    match read_request(&data) {
        Ok(Request::ChunkRequest { column }) => assert_eq!(column, Vec2::new(-4, 9)),
        _ => panic!("not a chunk request"),
    }

    let mut data = vec![PacketType::ChunkUpdate.to_byte()];
    for v in [1i32, 2, -3] {
        data.extend_from_slice(&v.to_le_bytes());
    }
    data.push(ChunkUpdateType::PlaceBlockEvent.to_byte());
    data.extend_from_slice(&7u32.to_le_bytes());
    match read_request(&data) {
        Ok(Request::ChunkUpdate { position, action }) => {
            assert_eq!(position, Vec3::new(1, 2, -3));
            assert_eq!(action, ChunkAction::Place(7));
        }
        _ => panic!("not a chunk update"),
    }
    data[13] = ChunkUpdateType::DestroyBlockEvent.to_byte();
    data.truncate(14);
    match read_request(&data) {
        Ok(Request::ChunkUpdate { action, .. }) => assert_eq!(action, ChunkAction::Destroy),
        _ => panic!("not a chunk update"),
    }
    data[13] = 0;
    assert!(matches!(read_request(&data), Err(ProtocolError::Truncated)));

    let data = vec![PacketType::PlayerInfoRequest.to_byte(), b'b', b'o', b'b', 0];
    match read_request(&data) {
        Ok(Request::PlayerInfoRequest { username }) => assert_eq!(username, b"bob".to_vec()),
        _ => panic!("not a player info request"),
    }
    assert!(matches!(read_request(&vec![]), Err(ProtocolError::Empty)));
    assert!(matches!(read_request(&vec![9]), Err(ProtocolError::UnknownPacketType(9))));
    assert!(matches!(read_request(&vec![2, 1, 2]), Err(ProtocolError::Truncated)));
}

#[test]
fn player_info_packet_layout() {
    let position: Vec<u8> = (1..=12).collect();
    let rotation: Vec<u8> = (20..28).collect();
    let packet = assemble_player_info_data(&position, &rotation, &b"ann".to_vec());
    assert_eq!(packet[0], PacketType::PlayerInfoData.to_byte());
    assert_eq!(&packet[1..13], &position[..]);
    assert_eq!(&packet[13..21], &rotation[..]);
    assert_eq!(&packet[21..24], b"ann");
    assert_eq!(packet[24], 0);
    match read_request(&packet) {
        Ok(Request::PlayerInfoData { position: p, rotation: r, username }) => {
            assert_eq!(p, position);
            assert_eq!(r, rotation);
            assert_eq!(username, b"ann".to_vec());
        }
        _ => panic!("not player info data"),
    }
}

#[test]
fn registry_lookups() {
    let mut items = ItemManager::new();
    for name in ["air", "stone", "stone"] {
        items.put_new_item(ItemData {
            item_type: ItemType::from_name(&"BlockCube".to_string()),
            is_transparent: false,
            show_in_inventory: true,
            name: name.to_string(),
            top_tex_coords: Vec2::new(1, 2),
            side_tex_coords: Vec2::new(3, 4),
            bottom_tex_coords: Vec2::new(5, 6),
        });
    }
    assert_eq!(items.get_id_by_name("stone".to_string()), Some(1));
    assert_eq!(items.get_id_by_name("glass".to_string()), None);
    assert!(items.get_item_by_id(2).is_some());
    assert!(items.get_item_by_id(3).is_none());
    assert!(items.get_item_by_id(-1).is_none());
    assert_eq!(items.get_item_by_id(0).unwrap().item_type, ItemType::BlockCube);
    assert_eq!(ItemType::from_name(&"Air".to_string()), ItemType::Air);
    assert_eq!(ItemType::from_name(&"BlockCross".to_string()), ItemType::BlockCross);
    assert_eq!(ItemType::from_name(&"Torch".to_string()), ItemType::UserItem);
}

#[test]
fn save_directories_are_checked() {
    assert!(check_save_directory(&"./save".to_string()));
    assert!(!check_save_directory(&"".to_string()));
    assert!(!check_save_directory(&"./save/".to_string()));
    assert!(!check_save_directory(&"a\\b".to_string()));
    let save = SaveFile::new(Some("./save".to_string()));
    assert_eq!(save.save_directory(), &Some("./save".to_string()));
}
