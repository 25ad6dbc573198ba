use tmx2rms::convert::{convert, find_map, finish, traverse, NamedMap};
use tmx2rms::error::{ConversionError, ResolutionError, TraversalError, ValidationError};
use tmx2rms::pascal::to_pascal_string;
use tmx2rms::rms::{decode_many, Room};
use tmx2rms::source::{Layer, ObjectGroup, Property, SourceMap, Tileset};
use tmx2rms::validate::{validate_tmx, RmsTmxIntermediate};
use tmx2rms::world::{default_room_name, digit, position, sort_rooms, write_rooms, Loader};

fn linked_map(tile: i32, links: &[(&str, &str)]) -> SourceMap {
    SourceMap {
        width: 20,
        height: 8,
        tile_width: 15,
        tile_height: 15,
        properties: links
            .iter()
            .map(|(name, value)| Property { name: name.to_string(), value: value.to_string() })
            .collect(),
        tilesets: vec![
            Tileset { name: "Tiles".to_string(), first_gid: 1 },
            Tileset { name: "Objects".to_string(), first_gid: 85 },
            Tileset { name: "Monsters".to_string(), first_gid: 105 },
        ],
        layers: vec![Layer { name: "Tiles".to_string(), data: Some(vec![tile; 160]) }],
        object_groups: vec![
            ObjectGroup { name: "Objects".to_string(), objects: Vec::new() },
            ObjectGroup { name: "Monsters".to_string(), objects: Vec::new() },
        ],
    }
}

fn named(name: &str, map: SourceMap) -> NamedMap {
    NamedMap { name: name.to_string(), map }
}

fn blank_room(links: &[(&str, &str)]) -> RmsTmxIntermediate {
    validate_tmx(&linked_map(5, links)).unwrap()
}

/// A chain of maps m1 -> m2 -> ... -> m<count>, linked to the east.
fn chain(count: usize) -> Vec<NamedMap> {
    (1..=count)
        .map(|i| {
            let next = format!("m{}", i + 1);
            if i < count {
                named(&format!("m{}", i), linked_map(5, &[("east", next.as_str())]))
            } else {
                named(&format!("m{}", i), linked_map(5, &[]))
            }
        })
        .collect()
}

#[test]
fn single_isolated_room() {
    let maps = vec![named("start", linked_map(5, &[]))];
    let bytes = convert("start", &maps).unwrap();
    assert_eq!(bytes.len(), 360);
    assert_eq!(bytes[0], 0);
    assert!(bytes[0x001..0x0A1].iter().all(|b| *b == 5));
    assert!(bytes[0x0A1..0x141].iter().all(|b| *b == 0));
    assert_eq!(&bytes[0x141..0x143], &[0, 0]);
    assert_eq!(&bytes[0x143..0x149], &[0, 0, 0, 0, 0, 0]);
    assert_eq!(bytes[0x149], 1);
    assert_eq!(&bytes[0x14A..0x14D], &[0, 0, 0]);
    let mut name = to_pascal_string("Room #1", 27);
    assert_eq!(name, vec![7, b'R', b'o', b'o', b'm', b' ', b'#', b'1']);
    name.resize(27, 0);
    assert_eq!(&bytes[0x14D..], &name[..]);
}

#[test]
fn two_rooms_linked_one_way() {
    let maps = vec![named("a", linked_map(5, &[("east", "b")])), named("b", linked_map(6, &[]))];
    let bytes = convert("a", &maps).unwrap();
    let rooms = decode_many(&bytes).unwrap();
    assert_eq!(rooms.len(), 2);
    assert_eq!(rooms[0].id(), 1);
    assert_eq!(rooms[0].nav_east, 2);
    assert_eq!(rooms[0].tiles[0], 5);
    assert_eq!(rooms[1].id(), 2);
    assert_eq!(rooms[1].nav_west, 0);
    assert_eq!(rooms[1].tiles[0], 6);
    assert_eq!(rooms[1].name, "Room #2");
    assert_eq!(
        (rooms[1].nav_north, rooms[1].nav_east, rooms[1].nav_south, rooms[1].nav_up, rooms[1].nav_down),
        (0, 0, 0, 0, 0)
    );
}

#[test]
fn room_129_is_refused() {
    let maps = chain(129);
    assert_eq!(convert("m1", &maps), Err(ConversionError::Traversal(TraversalError::TooManyRooms)));
}

#[test]
fn world_of_128_rooms_is_written() {
    let maps = chain(128);
    let bytes = convert("m1", &maps).unwrap();
    assert_eq!(bytes.len(), 128 * 360);
    let rooms = decode_many(&bytes).unwrap();
    for (i, room) in rooms.iter().enumerate() {
        assert_eq!(room.id() as usize, i + 1);
        assert_eq!(room.nav_east as usize, if i < 127 { i + 2 } else { 0 });
    }
    assert_eq!(rooms[127].name, "Room #128");
    assert_eq!(rooms[9].name, "Room #10");
    assert_eq!(rooms[98].name, "Room #99");
    assert_eq!(rooms[99].name, "Room #100");
}

#[test]
fn conversion_is_repeatable() {
    let maps = vec![
        named("hall", linked_map(5, &[("north", "tower"), ("down", "cellar"), ("name", "Hall")])),
        named("tower", linked_map(9, &[("south", "hall")])),
        named("cellar", linked_map(2, &[("up", "hall"), ("east", "tower")])),
    ];
    let first = convert("hall", &maps).unwrap();
    let second = convert("hall", &maps).unwrap();
    assert_eq!(first, second);
    assert_eq!(first.len(), 3 * 360);
}

#[test]
fn records_come_in_ascending_id_order() {
    let maps = vec![
        named("hall", linked_map(5, &[("north", "tower"), ("down", "cellar"), ("name", "Hall")])),
        named("tower", linked_map(9, &[("south", "hall")])),
        named("cellar", linked_map(2, &[("up", "hall"), ("east", "tower")])),
    ];
    let rooms = decode_many(&convert("hall", &maps).unwrap()).unwrap();
    let ids: Vec<u8> = rooms.iter().map(|room| room.id()).collect();
    assert_eq!(ids, vec![1, 2, 3]);
    // the worklist is a stack: of hall's links, `down` is followed first
    assert_eq!(rooms[0].name, "Hall");
    assert_eq!(rooms[1].tiles[0], 2);
    assert_eq!(rooms[2].tiles[0], 9);
    assert_eq!((rooms[0].nav_north, rooms[0].nav_down), (3, 2));
    assert_eq!((rooms[1].nav_up, rooms[1].nav_east), (1, 3));
    assert_eq!(rooms[2].nav_south, 1);
}

#[test]
fn converging_links_load_a_room_once() {
    let maps = vec![
        named("a", linked_map(5, &[("north", "c"), ("east", "c"), ("south", "b"), ("west", "a")])),
        named("b", linked_map(6, &[("up", "c")])),
        named("c", linked_map(7, &[])),
    ];
    let rooms = decode_many(&convert("a", &maps).unwrap()).unwrap();
    assert_eq!(rooms.len(), 3);
    assert_eq!(rooms[0].nav_west, 1);
    assert_eq!(rooms[0].nav_south, 2);
    assert_eq!(rooms[0].nav_north, 3);
    assert_eq!(rooms[0].nav_east, 3);
    assert_eq!(rooms[1].nav_up, 3);
}

#[test]
fn missing_map_ends_the_conversion() {
    let maps = vec![named("a", linked_map(5, &[("east", "b")]))];
    assert_eq!(convert("a", &maps), Err(ConversionError::Traversal(TraversalError::MapUnavailable)));
    assert_eq!(convert("z", &maps), Err(ConversionError::Traversal(TraversalError::MapUnavailable)));
    assert_eq!(
        convert("a", &Vec::new()),
        Err(ConversionError::Traversal(TraversalError::MapUnavailable))
    );
}

#[test]
fn invalid_linked_map_ends_the_conversion() {
    let mut bad = linked_map(5, &[]);
    bad.layers[0].data = Some(vec![5; 159]);
    let maps = vec![named("a", linked_map(5, &[("east", "b")])), named("b", bad)];
    assert_eq!(
        convert("a", &maps),
        Err(ConversionError::Validation(ValidationError::TileCountMismatch))
    );
}

#[test]
fn first_map_of_a_name_is_taken() {
    let maps = vec![named("a", linked_map(5, &[])), named("a", linked_map(6, &[]))];
    assert_eq!(find_map(&maps, "a"), 0);
    assert_eq!(find_map(&maps, "b"), 2);
    assert_eq!(convert("a", &maps).unwrap()[1], 5);
}

#[test]
fn traverse_then_finish_is_convert() {
    let maps = chain(4);
    let loader = traverse("m2", &maps).unwrap();
    assert_eq!(loader.discovered.len(), 3);
    assert!(loader.pending.is_empty());
    assert_eq!(loader.discovered[0].key, "m2");
    assert_eq!(finish(&loader), convert("m2", &maps));
}

#[test]
fn loader_hands_out_names_last_in_first_out() {
    let mut loader = Loader::new("a".to_string());
    assert_eq!(loader.next(), Some("a".to_string()));
    assert_eq!(loader.next(), None);
    let id = loader.register("a".to_string(), blank_room(&[("north", "b"), ("east", "c"), ("up", "a")]));
    assert_eq!(id, Ok(1));
    assert_eq!(loader.pending, vec!["b".to_string(), "c".to_string()]);
    assert_eq!(loader.next(), Some("c".to_string()));
    assert_eq!(loader.register("c".to_string(), blank_room(&[("west", "b"), ("down", "d")])), Ok(2));
    assert_eq!(loader.pending, vec!["b".to_string(), "b".to_string(), "d".to_string()]);
    assert_eq!(loader.next(), Some("d".to_string()));
    assert_eq!(loader.register("d".to_string(), blank_room(&[])), Ok(3));
    assert_eq!(loader.next(), Some("b".to_string()));
    assert_eq!(loader.register("b".to_string(), blank_room(&[])), Ok(4));
    assert_eq!(loader.pending, vec!["b".to_string()]);
    assert_eq!(loader.next(), None);
    assert!(loader.pending.is_empty());
    let ids: Vec<u8> = loader.discovered.iter().map(|d| d.room.id).collect();
    assert_eq!(ids, vec![1, 2, 3, 4]);
    assert_eq!(position(&loader.discovered, "d"), Some(2));
    assert_eq!(position(&loader.discovered, "e"), None);
}

#[test]
fn registering_a_name_twice_changes_nothing() {
    let mut loader = Loader::new("a".to_string());
    assert_eq!(loader.register("a".to_string(), blank_room(&[])), Ok(1));
    let before = loader.clone();
    assert_eq!(
        loader.register("a".to_string(), blank_room(&[("east", "b")])),
        Err(TraversalError::AlreadyLoaded)
    );
    assert_eq!(loader, before);
}

#[test]
fn registering_room_129_changes_nothing() {
    let mut loader = Loader::new("r1".to_string());
    for i in 1..=128u32 {
        assert_eq!(loader.register(format!("r{}", i), blank_room(&[])), Ok(i as u8));
    }
    let before = loader.clone();
    assert_eq!(
        loader.register("r129".to_string(), blank_room(&[])),
        Err(TraversalError::TooManyRooms)
    );
    assert_eq!(loader, before);
    let rooms = loader.resolve().unwrap();
    assert_eq!(rooms.len(), 128);
    assert_eq!(rooms[127].id(), 128);
}

#[test]
fn dangling_link_is_a_resolution_error() {
    let mut loader = Loader::new("a".to_string());
    assert_eq!(loader.register("a".to_string(), blank_room(&[("south", "nowhere")])), Ok(1));
    assert_eq!(loader.resolve_link(&Some("nowhere".to_string())), Err(ResolutionError::DanglingLink));
    assert_eq!(loader.resolve_link(&Some("a".to_string())), Ok(1));
    assert_eq!(loader.resolve_link(&None), Ok(0));
    assert_eq!(loader.resolve_room(0), Err(ResolutionError::DanglingLink));
    assert_eq!(loader.resolve(), Err(ResolutionError::DanglingLink));
    assert_eq!(finish(&loader), Err(ConversionError::Resolution(ResolutionError::DanglingLink)));
}

#[test]
fn resolved_room_carries_the_map() {
    let mut map = linked_map(8, &[("name", "Armoury"), ("up", "a")]);
    map.object_groups[0].objects =
        vec![tmx2rms::source::MapObject { gid: Some(85 + 4), x: 30, y: 45 }];
    map.object_groups[1].objects =
        vec![tmx2rms::source::MapObject { gid: Some(105 + 6), x: 0, y: 15 }];
    let mut loader = Loader::new("a".to_string());
    assert_eq!(loader.register("a".to_string(), validate_tmx(&map).unwrap()), Ok(1));
    let room = loader.resolve_room(0).unwrap();
    let mut expected = Room::new(1, "Armoury");
    expected.tiles = [8; 160];
    expected.objects[0] = 1;
    expected.objects[2 * 20 + 2] = b'h';
    expected.monster_id = 7;
    expected.monster_count = 1;
    expected.nav_up = 1;
    assert_eq!(room, expected);
}

#[test]
fn default_names() {
    assert_eq!(default_room_name(1), "Room #1");
    assert_eq!(default_room_name(0), "Room #0");
    assert_eq!(default_room_name(9), "Room #9");
    assert_eq!(default_room_name(10), "Room #10");
    assert_eq!(default_room_name(42), "Room #42");
    assert_eq!(default_room_name(100), "Room #100");
    assert_eq!(default_room_name(128), "Room #128");
    assert_eq!(default_room_name(255), "Room #255");
    assert_eq!(digit(0), "0");
    assert_eq!(digit(9), "9");
}

#[test]
fn rooms_are_sorted_by_id() {
    let mut rooms: Vec<Room> =
        [5u8, 3, 128, 1, 4, 2].iter().map(|id| Room::new(*id, &format!("r{}", id))).collect();
    sort_rooms(&mut rooms);
    let ids: Vec<u8> = rooms.iter().map(|room| room.id()).collect();
    assert_eq!(ids, vec![1, 2, 3, 4, 5, 128]);
    let names: Vec<&str> = rooms.iter().map(|room| room.name.as_str()).collect();
    assert_eq!(names, vec!["r1", "r2", "r3", "r4", "r5", "r128"]);
    let mut none: Vec<Room> = Vec::new();
    sort_rooms(&mut none);
    assert!(none.is_empty());
}

#[test]
fn output_is_written_in_id_order_whatever_the_order_given() {
    let a = Room::new(1, "a");
    let b = Room::new(2, "b");
    let c = Room::new(3, "c");
    let mut shuffled = vec![c.clone(), a.clone(), b.clone()];
    let bytes = write_rooms(&mut shuffled);
    assert_eq!(shuffled, vec![a.clone(), b.clone(), c.clone()]);
    let mut expected = a.encode();
    expected.extend(b.encode());
    expected.extend(c.encode());
    assert_eq!(bytes, expected);
    assert_eq!(bytes[0x149], 1);
    assert_eq!(bytes[360 + 0x149], 2);
    assert_eq!(bytes[720 + 0x149], 3);
}

#[test]
fn rooms_of_one_id_keep_their_order() {
    let mut rooms = vec![
        Room::new(2, "first two"),
        Room::new(1, "first one"),
        Room::new(2, "second two"),
        Room::new(1, "second one"),
    ];
    sort_rooms(&mut rooms);
    let names: Vec<&str> = rooms.iter().map(|room| room.name.as_str()).collect();
    assert_eq!(names, vec!["first one", "second one", "first two", "second two"]);
}

#[test]
fn rooms_in_order_are_left_alone() {
    let mut rooms = vec![Room::new(1, "a"), Room::new(1, "b"), Room::new(3, "c")];
    let before = rooms.clone();
    sort_rooms(&mut rooms);
    assert_eq!(rooms, before);
}
