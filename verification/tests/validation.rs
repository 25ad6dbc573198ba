use tmx2rms::error::ValidationError;
use tmx2rms::source::{Layer, MapObject, ObjectGroup, Property, SourceMap, Tileset};
use tmx2rms::validate::{cell_of, translate_tiles, validate_tmx};

fn tileset(name: &str, first_gid: u32) -> Tileset {
    Tileset { name: name.to_string(), first_gid }
}

fn group(name: &str, objects: Vec<MapObject>) -> ObjectGroup {
    ObjectGroup { name: name.to_string(), objects }
}

fn property(name: &str, value: &str) -> Property {
    Property { name: name.to_string(), value: value.to_string() }
}

fn at(gid: u32, x: u32, y: u32) -> MapObject {
    MapObject { gid: Some(gid), x, y }
}

/// Tiles start at gid 1, objects at 85, monsters at 105; every tile is 5.
fn plain_map() -> SourceMap {
    SourceMap {
        width: 20,
        height: 8,
        tile_width: 15,
        tile_height: 15,
        properties: Vec::new(),
        tilesets: vec![tileset("Tiles", 1), tileset("Objects", 85), tileset("Monsters", 105)],
        layers: vec![Layer { name: "Tiles".to_string(), data: Some(vec![5; 160]) }],
        object_groups: vec![group("Objects", Vec::new()), group("Monsters", Vec::new())],
    }
}

#[test]
fn plain_map_is_accepted() {
    let room = validate_tmx(&plain_map()).unwrap();
    assert_eq!(room.id, 0);
    assert_eq!(room.tiles, vec![5u8; 160]);
    assert_eq!(room.objects, vec![0u8; 160]);
    assert_eq!(room.monster_id, 0);
    assert_eq!(room.monster_count, 0);
    assert_eq!(room.name, None);
    assert_eq!(room.north, None);
    assert_eq!(room.east, None);
    assert_eq!(room.south, None);
    assert_eq!(room.west, None);
    assert_eq!(room.up, None);
    assert_eq!(room.down, None);
}

#[test]
fn rejects_bad_map_dimensions() {
    let mut map = plain_map();
    map.width = 21;
    assert_eq!(validate_tmx(&map), Err(ValidationError::BadMapDimensions));
    let mut map = plain_map();
    map.height = 7;
    assert_eq!(validate_tmx(&map), Err(ValidationError::BadMapDimensions));
}

#[test]
fn rejects_bad_tile_dimensions() {
    let mut map = plain_map();
    map.tile_width = 16;
    assert_eq!(validate_tmx(&map), Err(ValidationError::BadTileDimensions));
    let mut map = plain_map();
    map.tile_height = 14;
    assert_eq!(validate_tmx(&map), Err(ValidationError::BadTileDimensions));
}

#[test]
fn map_dimensions_are_checked_first() {
    let mut map = plain_map();
    map.width = 0;
    map.tile_width = 0;
    map.tilesets.clear();
    assert_eq!(validate_tmx(&map), Err(ValidationError::BadMapDimensions));
}

#[test]
fn rejects_159_tiles() {
    let mut map = plain_map();
    map.layers[0].data = Some(vec![5; 159]);
    assert_eq!(validate_tmx(&map), Err(ValidationError::TileCountMismatch));
}

#[test]
fn rejects_161_tiles() {
    let mut map = plain_map();
    map.layers[0].data = Some(vec![5; 161]);
    assert_eq!(validate_tmx(&map), Err(ValidationError::TileCountMismatch));
}

#[test]
fn rejects_two_monster_species() {
    let mut map = plain_map();
    map.object_groups[1].objects = vec![at(105, 0, 15), at(106, 15, 15)];
    assert_eq!(validate_tmx(&map), Err(ValidationError::MultipleMonsterSpecies));
}

#[test]
fn rejects_missing_objects_tileset() {
    let mut map = plain_map();
    map.tilesets.remove(1);
    assert_eq!(validate_tmx(&map), Err(ValidationError::MissingObjectsTileset));
}

#[test]
fn rejects_missing_tiles_and_monsters_tilesets() {
    let mut map = plain_map();
    map.tilesets.remove(0);
    assert_eq!(validate_tmx(&map), Err(ValidationError::MissingTilesTileset));
    let mut map = plain_map();
    map.tilesets.remove(2);
    assert_eq!(validate_tmx(&map), Err(ValidationError::MissingMonstersTileset));
}

#[test]
fn rejects_tile_code_0() {
    let mut map = plain_map();
    let mut data = vec![5; 160];
    data[77] = 0;
    map.layers[0].data = Some(data);
    assert_eq!(validate_tmx(&map), Err(ValidationError::TileOutOfBounds));
}

#[test]
fn rejects_tile_code_85() {
    let mut map = plain_map();
    let mut data = vec![5; 160];
    data[159] = 85;
    map.layers[0].data = Some(data);
    assert_eq!(validate_tmx(&map), Err(ValidationError::TileOutOfBounds));
}

#[test]
fn accepts_tile_codes_1_and_84() {
    let mut map = plain_map();
    let mut data = vec![1; 160];
    data[159] = 84;
    map.layers[0].data = Some(data);
    let room = validate_tmx(&map).unwrap();
    assert_eq!(room.tiles[0], 1);
    assert_eq!(room.tiles[159], 84);
}

#[test]
fn tiles_are_translated_by_the_first_gid() {
    let mut map = plain_map();
    map.tilesets[0].first_gid = 200;
    map.layers[0].data = Some((0..160).map(|i| 200 + (i % 84)).collect());
    let room = validate_tmx(&map).unwrap();
    assert_eq!(room.tiles[0], 1);
    assert_eq!(room.tiles[83], 84);
    assert_eq!(room.tiles[84], 1);
    map.layers[0].data = Some(vec![199; 160]);
    assert_eq!(validate_tmx(&map), Err(ValidationError::TileOutOfBounds));
}

#[test]
fn out_of_range_tile_is_reported_before_the_count() {
    let mut map = plain_map();
    map.layers[0].data = Some(vec![0; 3]);
    assert_eq!(validate_tmx(&map), Err(ValidationError::TileOutOfBounds));
}

#[test]
fn translate_tiles_handles_extreme_ids() {
    assert_eq!(translate_tiles(&vec![i32::MIN; 160], u32::MAX), Err(ValidationError::TileOutOfBounds));
    assert_eq!(translate_tiles(&vec![i32::MAX; 160], 0), Err(ValidationError::TileOutOfBounds));
    assert_eq!(translate_tiles(&vec![-1; 160], u32::MAX), Err(ValidationError::TileOutOfBounds));
    assert_eq!(translate_tiles(&vec![10; 160], 3), Ok(vec![8u8; 160]));
    assert_eq!(translate_tiles(&Vec::new(), 1), Err(ValidationError::TileCountMismatch));
}

#[test]
fn rejects_missing_or_doubled_tiles_layer() {
    let mut map = plain_map();
    map.layers[0].name = "Ground".to_string();
    assert_eq!(validate_tmx(&map), Err(ValidationError::MissingTilesLayer));
    let mut map = plain_map();
    map.layers.push(Layer { name: "Tiles".to_string(), data: Some(vec![5; 160]) });
    assert_eq!(validate_tmx(&map), Err(ValidationError::DuplicateTilesLayer));
}

#[test]
fn other_layers_are_ignored() {
    let mut map = plain_map();
    map.layers.insert(0, Layer { name: "Notes".to_string(), data: None });
    map.layers.push(Layer { name: "tiles".to_string(), data: Some(vec![0; 2]) });
    assert_eq!(validate_tmx(&map).unwrap().tiles, vec![5u8; 160]);
}

#[test]
fn rejects_tiles_layer_without_data() {
    let mut map = plain_map();
    map.layers[0].data = None;
    assert_eq!(validate_tmx(&map), Err(ValidationError::TilesLayerMissingData));
}

#[test]
fn rejects_missing_or_doubled_groups() {
    let mut map = plain_map();
    map.object_groups.remove(0);
    assert_eq!(validate_tmx(&map), Err(ValidationError::MissingObjectsGroup));
    let mut map = plain_map();
    map.object_groups.remove(1);
    assert_eq!(validate_tmx(&map), Err(ValidationError::MissingMonstersGroup));
    let mut map = plain_map();
    map.object_groups.push(group("Objects", Vec::new()));
    assert_eq!(validate_tmx(&map), Err(ValidationError::DuplicateObjectsGroup));
    let mut map = plain_map();
    map.object_groups.push(group("Monsters", Vec::new()));
    assert_eq!(validate_tmx(&map), Err(ValidationError::DuplicateMonstersGroup));
}

#[test]
fn objects_land_one_row_above_their_anchor() {
    let mut map = plain_map();
    map.object_groups[0].objects = vec![at(85, 0, 15), at(104, 299, 134), at(89, 45, 30)];
    let room = validate_tmx(&map).unwrap();
    let mut expected = vec![0u8; 160];
    expected[0] = b'd';
    expected[7 * 20 + 19] = b'w';
    expected[1 * 20 + 3] = b'h';
    assert_eq!(room.objects, expected);
}

#[test]
fn rejects_objects_outside_the_code_range() {
    let mut map = plain_map();
    map.object_groups[0].objects = vec![at(105, 0, 15)];
    assert_eq!(validate_tmx(&map), Err(ValidationError::ObjectOutOfBounds));
    map.object_groups[0].objects = vec![at(84, 0, 15)];
    assert_eq!(validate_tmx(&map), Err(ValidationError::ObjectOutOfBounds));
    map.object_groups[0].objects = vec![at(u32::MAX, 0, 15)];
    assert_eq!(validate_tmx(&map), Err(ValidationError::ObjectOutOfBounds));
}

#[test]
fn rejects_objects_without_a_tile() {
    let mut map = plain_map();
    map.object_groups[0].objects = vec![MapObject { gid: None, x: 0, y: 15 }];
    assert_eq!(validate_tmx(&map), Err(ValidationError::ObjectMissingTile));
    let mut map = plain_map();
    map.object_groups[1].objects = vec![MapObject { gid: None, x: 0, y: 15 }];
    assert_eq!(validate_tmx(&map), Err(ValidationError::MonsterMissingTile));
}

#[test]
fn rejects_objects_outside_the_room() {
    let mut map = plain_map();
    map.object_groups[0].objects = vec![at(85, 0, 14)];
    assert_eq!(validate_tmx(&map), Err(ValidationError::ObjectOutsideRoom));
    map.object_groups[0].objects = vec![at(85, 300, 15)];
    assert_eq!(validate_tmx(&map), Err(ValidationError::ObjectOutsideRoom));
    map.object_groups[0].objects = vec![at(85, 0, 135)];
    assert_eq!(validate_tmx(&map), Err(ValidationError::ObjectOutsideRoom));
    let mut map = plain_map();
    map.object_groups[1].objects = vec![at(105, 0, 0)];
    assert_eq!(validate_tmx(&map), Err(ValidationError::MonsterOutsideRoom));
}

#[test]
fn cells_by_pixel_position() {
    assert_eq!(cell_of(0, 15), Some(0));
    assert_eq!(cell_of(14, 29), Some(0));
    assert_eq!(cell_of(15, 30), Some(21));
    assert_eq!(cell_of(299, 134), Some(159));
    assert_eq!(cell_of(0, 0), None);
    assert_eq!(cell_of(0, 14), None);
    assert_eq!(cell_of(300, 15), None);
    assert_eq!(cell_of(0, 135), None);
    assert_eq!(cell_of(u32::MAX, u32::MAX), None);
}

#[test]
fn monsters_mark_cells_and_are_counted() {
    let mut map = plain_map();
    map.object_groups[1].objects = vec![at(107, 0, 15), at(107, 30, 15), at(107, 30, 15)];
    let room = validate_tmx(&map).unwrap();
    assert_eq!(room.monster_id, 3);
    assert_eq!(room.monster_count, 3);
    let mut expected = vec![0u8; 160];
    expected[0] = 1;
    expected[2] = 1;
    assert_eq!(room.objects, expected);
}

#[test]
fn rejects_monsters_outside_the_species_range() {
    let mut map = plain_map();
    map.object_groups[1].objects = vec![at(104, 0, 15)];
    assert_eq!(validate_tmx(&map), Err(ValidationError::MonsterOutOfBounds));
    map.object_groups[1].objects = vec![at(105 + 255, 0, 15)];
    assert_eq!(validate_tmx(&map), Err(ValidationError::MonsterOutOfBounds));
    map.object_groups[1].objects = vec![at(105 + 254, 0, 15)];
    assert_eq!(validate_tmx(&map).unwrap().monster_id, 255);
}

#[test]
fn rejects_more_monsters_than_a_byte_counts() {
    let mut map = plain_map();
    map.object_groups[1].objects = vec![at(105, 0, 15); 255];
    assert_eq!(validate_tmx(&map).unwrap().monster_count, 255);
    map.object_groups[1].objects = vec![at(105, 0, 15); 256];
    assert_eq!(validate_tmx(&map), Err(ValidationError::TooManyMonsters));
}

#[test]
fn the_group_that_comes_later_overwrites() {
    let mut map = plain_map();
    map.object_groups[0].objects = vec![at(86, 0, 15)];
    map.object_groups[1].objects = vec![at(105, 0, 15)];
    assert_eq!(validate_tmx(&map).unwrap().objects[0], 1);
    map.object_groups.swap(0, 1);
    assert_eq!(validate_tmx(&map).unwrap().objects[0], b'e');
}

#[test]
fn the_first_failure_in_map_order_is_reported() {
    let mut map = plain_map();
    map.object_groups[0].objects = vec![at(85, 0, 15), at(300, 0, 15), MapObject { gid: None, x: 0, y: 0 }];
    map.object_groups[1].objects = vec![MapObject { gid: None, x: 0, y: 15 }];
    assert_eq!(validate_tmx(&map), Err(ValidationError::ObjectOutOfBounds));
    map.object_groups.swap(0, 1);
    assert_eq!(validate_tmx(&map), Err(ValidationError::MonsterMissingTile));
}

#[test]
fn properties_give_name_and_links() {
    let mut map = plain_map();
    map.properties = vec![
        property("name", "Old Name"),
        property("north", "n"),
        property("east", "e"),
        property("south", "s"),
        property("west", "w"),
        property("up", "u"),
        property("down", "d"),
        property("colour", "red"),
        property("name", "Great Hall"),
    ];
    let room = validate_tmx(&map).unwrap();
    assert_eq!(room.name, Some("Great Hall".to_string()));
    assert_eq!(room.north, Some("n".to_string()));
    assert_eq!(room.east, Some("e".to_string()));
    assert_eq!(room.south, Some("s".to_string()));
    assert_eq!(room.west, Some("w".to_string()));
    assert_eq!(room.up, Some("u".to_string()));
    assert_eq!(room.down, Some("d".to_string()));
}

#[test]
fn lookups_on_the_map() {
    let mut map = plain_map();
    map.tilesets.push(tileset("Objects", 500));
    map.properties = vec![property("east", "a"), property("east", "b")];
    assert_eq!(map.first_gid("Objects"), Some(500));
    assert_eq!(map.first_gid("Tiles"), Some(1));
    assert_eq!(map.first_gid("Traps"), None);
    assert_eq!(map.property("east"), Some("b".to_string()));
    assert_eq!(map.property("west"), None);
    assert_eq!(map.find_layer("Tiles", 0), 0);
    assert_eq!(map.find_layer("Tiles", 1), 1);
    assert_eq!(map.find_layer("Tiles", 9), 1);
    assert_eq!(map.find_group("Monsters", 0), 1);
    assert_eq!(map.find_group("Monsters", 2), 2);
    assert_eq!(map.find_group("Nothing", 0), 2);
}
