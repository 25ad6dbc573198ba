//! Checks a source map against the room geometry and the code ranges, and
//! folds it into a room that still names its neighbours by file.

use vstd::prelude::*;

use crate::error::ValidationError;
use crate::rms::{MAX_TILE, ROOM_AREA, ROOM_HEIGHT, ROOM_WIDTH};
use crate::source::{
    next_group,
    next_layer,
    property_value,
    text_of,
    tileset_first_gid,
    Layer,
    MapObject,
    ObjectGroup,
    SourceMap,
};

verus! {

/// Width and height of a tile in pixels.
pub const TILE_DIMENSIONS: u32 = 15;

/// The lowest tile code.
pub const MIN_TILE: u8 = 1;

/// The object code `'d'`, which the first tile of the object palette
/// stands for.
pub const FIRST_OBJECT: u32 = 100;

/// The object code `'w'`, the last one.
pub const LAST_OBJECT: u32 = 119;

/// What the object grid holds in a cell that a monster occupies, whatever
/// its species.
pub const MONSTER_MARKER: u8 = 1;

/// A room as one map describes it: its neighbours are still the names of
/// their files, and its id is not yet assigned.
#[derive(Debug, Clone, PartialEq, Eq)]
pub struct RmsTmxIntermediate {
    pub id: u8,
    pub tiles: Vec<u8>,
    pub objects: Vec<u8>,
    pub monster_id: u8,
    pub monster_count: u8,
    pub name: Option<String>,
    pub north: Option<String>,
    pub east: Option<String>,
    pub south: Option<String>,
    pub west: Option<String>,
    pub up: Option<String>,
    pub down: Option<String>,
}

/// An intermediate room as a mathematical value.
pub struct IntermediateView {
    pub id: u8,
    pub tiles: Seq<u8>,
    pub objects: Seq<u8>,
    pub monster_id: u8,
    pub monster_count: u8,
    pub name: Option<Seq<char>>,
    pub north: Option<Seq<char>>,
    pub east: Option<Seq<char>>,
    pub south: Option<Seq<char>>,
    pub west: Option<Seq<char>>,
    pub up: Option<Seq<char>>,
    pub down: Option<Seq<char>>,
}

impl View for RmsTmxIntermediate {
    type V = IntermediateView;

    open spec fn view(&self) -> IntermediateView {
        IntermediateView {
            id: self.id,
            tiles: self.tiles@,
            objects: self.objects@,
            monster_id: self.monster_id,
            monster_count: self.monster_count,
            name: text_of(self.name),
            north: text_of(self.north),
            east: text_of(self.east),
            south: text_of(self.south),
            west: text_of(self.west),
            up: text_of(self.up),
            down: text_of(self.down),
        }
    }
}

/// The local tile code that a global tile id stands for.
pub open spec fn tile_code(gid: i32, first_gid: u32) -> int {
    gid as int - first_gid as int + 1
}

/// The tile codes of a layer's cells: refused where a cell's code lies
/// outside 1..=84, then where the cells are not 160.
pub open spec fn tile_grid(data: Seq<i32>, first_gid: u32) -> Result<Seq<u8>, ValidationError> {
    if exists|i: int|
        0 <= i < data.len() && !(MIN_TILE <= #[trigger] tile_code(data[i], first_gid) <= MAX_TILE) {
        Err(ValidationError::TileOutOfBounds)
    } else if data.len() != ROOM_AREA {
        Err(ValidationError::TileCountMismatch)
    } else {
        Ok(Seq::new(data.len(), |i: int| tile_code(data[i], first_gid) as u8))
    }
}

/// The tile grid of the one layer called `Tiles`.
pub open spec fn tiles_layer(layers: Seq<Layer>, first_gid: u32) -> Result<
    Seq<u8>,
    ValidationError,
> {
    let i = next_layer(layers, "Tiles"@, 0);
    if i >= layers.len() {
        Err(ValidationError::MissingTilesLayer)
    } else if next_layer(layers, "Tiles"@, i + 1) < layers.len() {
        Err(ValidationError::DuplicateTilesLayer)
    } else {
        match layers[i].data {
            None => Err(ValidationError::TilesLayerMissingData),
            Some(data) => tile_grid(data@, first_gid),
        }
    }
}

/// The cell that holds an object at a pixel position. An object is
/// anchored one row below the cell it occupies.
pub open spec fn object_cell(x: u32, y: u32) -> Option<int> {
    let column = x as int / TILE_DIMENSIONS as int;
    let row = y as int / TILE_DIMENSIONS as int - 1;
    if column < ROOM_WIDTH && 0 <= row < ROOM_HEIGHT {
        Some(row * ROOM_WIDTH + column)
    } else {
        None
    }
}

/// The room after one more object was placed.
pub open spec fn with_object(v: IntermediateView, object: MapObject, first_gid: u32) -> Result<
    IntermediateView,
    ValidationError,
> {
    match object.gid {
        None => Err(ValidationError::ObjectMissingTile),
        Some(gid) => {
            let code = FIRST_OBJECT + gid - first_gid;
            if code < FIRST_OBJECT || code > LAST_OBJECT {
                Err(ValidationError::ObjectOutOfBounds)
            } else {
                match object_cell(object.x, object.y) {
                    None => Err(ValidationError::ObjectOutsideRoom),
                    Some(cell) => Ok(
                        IntermediateView { objects: v.objects.update(cell, code as u8), ..v },
                    ),
                }
            }
        },
    }
}

/// The room after the objects were placed one after the other, up to the
/// first that is refused.
pub open spec fn with_objects(v: IntermediateView, objects: Seq<MapObject>, first_gid: u32) -> Result<
    IntermediateView,
    ValidationError,
>
    decreases objects.len(),
{
    if objects.len() == 0 {
        Ok(v)
    } else {
        match with_objects(v, objects.drop_last(), first_gid) {
            Err(e) => Err(e),
            Ok(w) => with_object(w, objects.last(), first_gid),
        }
    }
}

/// The room after one more monster was placed: its cell is marked, its
/// species becomes the room's, and it is counted.
pub open spec fn with_monster(v: IntermediateView, monster: MapObject, first_gid: u32) -> Result<
    IntermediateView,
    ValidationError,
> {
    match monster.gid {
        None => Err(ValidationError::MonsterMissingTile),
        Some(gid) => {
            let species = 1 + gid - first_gid;
            if species < 1 || species > u8::MAX {
                Err(ValidationError::MonsterOutOfBounds)
            } else {
                match object_cell(monster.x, monster.y) {
                    None => Err(ValidationError::MonsterOutsideRoom),
                    Some(cell) => if v.monster_id != 0 && v.monster_id != species {
                        Err(ValidationError::MultipleMonsterSpecies)
                    } else if v.monster_count == u8::MAX {
                        Err(ValidationError::TooManyMonsters)
                    } else {
                        Ok(
                            IntermediateView {
                                objects: v.objects.update(cell, MONSTER_MARKER),
                                monster_id: species as u8,
                                monster_count: (v.monster_count + 1) as u8,
                                ..v
                            },
                        )
                    },
                }
            }
        },
    }
}

/// The room after the monsters were placed one after the other, up to the
/// first that is refused.
pub open spec fn with_monsters(
    v: IntermediateView,
    monsters: Seq<MapObject>,
    first_gid: u32,
) -> Result<IntermediateView, ValidationError>
    decreases monsters.len(),
{
    if monsters.len() == 0 {
        Ok(v)
    } else {
        match with_monsters(v, monsters.drop_last(), first_gid) {
            Err(e) => Err(e),
            Ok(w) => with_monster(w, monsters.last(), first_gid),
        }
    }
}

/// The room after the group called `Objects` and the group called
/// `Monsters` were placed, the one that comes first in the map first.
/// Each of the two must be there exactly once.
pub open spec fn populated(
    v: IntermediateView,
    groups: Seq<ObjectGroup>,
    first_gid_objects: u32,
    first_gid_monsters: u32,
) -> Result<IntermediateView, ValidationError> {
    let o = next_group(groups, "Objects"@, 0);
    let m = next_group(groups, "Monsters"@, 0);
    if o >= groups.len() {
        Err(ValidationError::MissingObjectsGroup)
    } else if next_group(groups, "Objects"@, o + 1) < groups.len() {
        Err(ValidationError::DuplicateObjectsGroup)
    } else if m >= groups.len() {
        Err(ValidationError::MissingMonstersGroup)
    } else if next_group(groups, "Monsters"@, m + 1) < groups.len() {
        Err(ValidationError::DuplicateMonstersGroup)
    } else if o < m {
        match with_objects(v, groups[o].objects@, first_gid_objects) {
            Err(e) => Err(e),
            Ok(w) => with_monsters(w, groups[m].objects@, first_gid_monsters),
        }
    } else {
        match with_monsters(v, groups[m].objects@, first_gid_monsters) {
            Err(e) => Err(e),
            Ok(w) => with_objects(w, groups[o].objects@, first_gid_objects),
        }
    }
}

/// The room of a map before anything is placed in it: the tiles, an empty
/// object grid, and the name and the links that the map's properties give.
pub open spec fn unpopulated(map: SourceMap, tiles: Seq<u8>) -> IntermediateView {
    IntermediateView {
        id: 0,
        tiles,
        objects: Seq::new(ROOM_AREA as nat, |i: int| 0u8),
        monster_id: 0,
        monster_count: 0,
        name: property_value(map.properties@, "name"@),
        north: property_value(map.properties@, "north"@),
        east: property_value(map.properties@, "east"@),
        south: property_value(map.properties@, "south"@),
        west: property_value(map.properties@, "west"@),
        up: property_value(map.properties@, "up"@),
        down: property_value(map.properties@, "down"@),
    }
}

/// What validation makes of a map. The checks come in this order, and the
/// first that fails decides: the map's dimensions, the tiles' dimensions,
/// the three tilesets, the tile layer, the two object groups, and then
/// each object and monster in the map's order.
pub open spec fn validated(map: SourceMap) -> Result<IntermediateView, ValidationError> {
    if map.width != ROOM_WIDTH || map.height != ROOM_HEIGHT {
        Err(ValidationError::BadMapDimensions)
    } else if map.tile_width != TILE_DIMENSIONS || map.tile_height != TILE_DIMENSIONS {
        Err(ValidationError::BadTileDimensions)
    } else {
        match tileset_first_gid(map.tilesets@, "Tiles"@) {
            None => Err(ValidationError::MissingTilesTileset),
            Some(first_gid_tiles) => match tileset_first_gid(map.tilesets@, "Objects"@) {
                None => Err(ValidationError::MissingObjectsTileset),
                Some(first_gid_objects) => match tileset_first_gid(map.tilesets@, "Monsters"@) {
                    None => Err(ValidationError::MissingMonstersTileset),
                    Some(first_gid_monsters) => match tiles_layer(map.layers@, first_gid_tiles) {
                        Err(e) => Err(e),
                        Ok(tiles) => populated(
                            unpopulated(map, tiles),
                            map.object_groups@,
                            first_gid_objects,
                            first_gid_monsters,
                        ),
                    },
                },
            },
        }
    }
}

/// Translates a layer's global tile ids into tile codes.
pub fn translate_tiles(data: &Vec<i32>, first_gid: u32) -> (r: Result<Vec<u8>, ValidationError>)
    ensures
        match r {
            Ok(tiles) => tile_grid(data@, first_gid) == Ok::<Seq<u8>, ValidationError>(tiles@)
                && tiles@.len() == ROOM_AREA,
            Err(e) => tile_grid(data@, first_gid) == Err::<Seq<u8>, ValidationError>(e),
        },
{
    let mut tiles: Vec<u8> = Vec::new();
    let mut i: usize = 0;
    while i < data.len()
        invariant
            i <= data.len(),
            tiles@.len() == i,
            forall|j: int|
                0 <= j < i ==> MIN_TILE <= #[trigger] tile_code(data@[j], first_gid) <= MAX_TILE,
            forall|j: int| 0 <= j < i ==> tiles@[j] == tile_code(data@[j], first_gid) as u8,
        decreases data.len() - i,
    {
        let tile: i64 = data[i] as i64 - first_gid as i64 + 1;
        if tile < MIN_TILE as i64 || tile > MAX_TILE as i64 {
            assert(!(MIN_TILE <= tile_code(data@[i as int], first_gid) <= MAX_TILE));
            return Err(ValidationError::TileOutOfBounds);
        }
        tiles.push(tile as u8);
        i += 1;
    }
    if tiles.len() != ROOM_AREA {
        return Err(ValidationError::TileCountMismatch);
    }
    assert(tiles@ =~= Seq::new(data@.len(), |i: int| tile_code(data@[i], first_gid) as u8));
    Ok(tiles)
}

/// The index of the cell that holds an object at a pixel position, where
/// there is one.
pub fn cell_of(x: u32, y: u32) -> (r: Option<usize>)
    ensures
        match r {
            Some(cell) => object_cell(x, y) == Some(cell as int) && cell < ROOM_AREA,
            None => object_cell(x, y) is None,
        },
{
    let column: u32 = x / TILE_DIMENSIONS;
    let below: u32 = y / TILE_DIMENSIONS;
    if column >= ROOM_WIDTH || below < 1 || below > ROOM_HEIGHT {
        return None;
    }
    Some(((below - 1) * ROOM_WIDTH + column) as usize)
}

/// Places the objects of a group in the room's object grid.
pub fn place_objects(room: RmsTmxIntermediate, objects: &Vec<MapObject>, first_gid: u32) -> (r:
    Result<RmsTmxIntermediate, ValidationError>)
    requires
        room.objects@.len() == ROOM_AREA,
    ensures
        match r {
            Ok(placed) => with_objects(room@, objects@, first_gid) == Ok::<
                IntermediateView,
                ValidationError,
            >(placed@) && placed.objects@.len() == ROOM_AREA && placed.tiles@ == room.tiles@,
            Err(e) => with_objects(room@, objects@, first_gid) == Err::<
                IntermediateView,
                ValidationError,
            >(e),
        },
{
    let mut current = room;
    let mut i: usize = 0;
    while i < objects.len()
        invariant
            i <= objects.len(),
            current.tiles@ == room.tiles@,
            current.objects@.len() == ROOM_AREA,
            with_objects(room@, objects@.subrange(0, i as int), first_gid) == Ok::<
                IntermediateView,
                ValidationError,
            >(current@),
        decreases objects.len() - i,
    {
        assert(objects@.subrange(0, i + 1).drop_last() =~= objects@.subrange(0, i as int));
        assert(objects@.subrange(0, i + 1).last() == objects@[i as int]);
        let ghost before = current@;
        let object = objects[i];
        let outcome: Result<(u8, usize), ValidationError> = match object.gid {
            None => Err(ValidationError::ObjectMissingTile),
            Some(gid) => if gid < first_gid || gid - first_gid > LAST_OBJECT - FIRST_OBJECT {
                Err(ValidationError::ObjectOutOfBounds)
            } else {
                let code: u8 = (FIRST_OBJECT + (gid - first_gid)) as u8;
                match cell_of(object.x, object.y) {
                    None => Err(ValidationError::ObjectOutsideRoom),
                    Some(cell) => Ok((code, cell)),
                }
            },
        };
        match outcome {
            Err(e) => {
                proof {
                    assert(with_object(before, object, first_gid) == Err::<
                        IntermediateView,
                        ValidationError,
                    >(e));
                    assert(with_objects(room@, objects@.subrange(0, i + 1), first_gid) == Err::<
                        IntermediateView,
                        ValidationError,
                    >(e));
                    lemma_with_objects_fails(room@, objects@, first_gid, i + 1);
                }
                return Err(e);
            },
            Ok((code, cell)) => {
                current.objects.set(cell, code);
            },
        }
        i += 1;
    }
    assert(objects@.subrange(0, i as int) =~= objects@);
    Ok(current)
}

/// Once a prefix of the objects is refused, so is the whole, for the same
/// reason.
pub proof fn lemma_with_objects_fails(
    v: IntermediateView,
    objects: Seq<MapObject>,
    first_gid: u32,
    n: int,
)
    requires
        0 <= n <= objects.len(),
        with_objects(v, objects.subrange(0, n), first_gid) is Err,
    ensures
        with_objects(v, objects, first_gid) == with_objects(v, objects.subrange(0, n), first_gid),
    decreases objects.len() - n,
{
    if n == objects.len() {
        assert(objects.subrange(0, n) =~= objects);
    } else {
        assert(objects.subrange(0, n + 1).drop_last() =~= objects.subrange(0, n));
        lemma_with_objects_fails(v, objects, first_gid, n + 1);
    }
}

/// Once a prefix of the monsters is refused, so is the whole, for the same
/// reason.
pub proof fn lemma_with_monsters_fails(
    v: IntermediateView,
    monsters: Seq<MapObject>,
    first_gid: u32,
    n: int,
)
    requires
        0 <= n <= monsters.len(),
        with_monsters(v, monsters.subrange(0, n), first_gid) is Err,
    ensures
        with_monsters(v, monsters, first_gid) == with_monsters(
            v,
            monsters.subrange(0, n),
            first_gid,
        ),
    decreases monsters.len() - n,
{
    if n == monsters.len() {
        assert(monsters.subrange(0, n) =~= monsters);
    } else {
        assert(monsters.subrange(0, n + 1).drop_last() =~= monsters.subrange(0, n));
        lemma_with_monsters_fails(v, monsters, first_gid, n + 1);
    }
}

/// Places the monsters of a group: marks their cells, fixes the room's
/// species and counts them.
pub fn place_monsters(room: RmsTmxIntermediate, monsters: &Vec<MapObject>, first_gid: u32) -> (r:
    Result<RmsTmxIntermediate, ValidationError>)
    requires
        room.objects@.len() == ROOM_AREA,
    ensures
        match r {
            Ok(placed) => with_monsters(room@, monsters@, first_gid) == Ok::<
                IntermediateView,
                ValidationError,
            >(placed@) && placed.objects@.len() == ROOM_AREA && placed.tiles@ == room.tiles@,
            Err(e) => with_monsters(room@, monsters@, first_gid) == Err::<
                IntermediateView,
                ValidationError,
            >(e),
        },
{
    let mut current = room;
    let mut i: usize = 0;
    while i < monsters.len()
        invariant
            i <= monsters.len(),
            current.tiles@ == room.tiles@,
            current.objects@.len() == ROOM_AREA,
            with_monsters(room@, monsters@.subrange(0, i as int), first_gid) == Ok::<
                IntermediateView,
                ValidationError,
            >(current@),
        decreases monsters.len() - i,
    {
        assert(monsters@.subrange(0, i + 1).drop_last() =~= monsters@.subrange(0, i as int));
        assert(monsters@.subrange(0, i + 1).last() == monsters@[i as int]);
        let ghost before = current@;
        let monster = monsters[i];
        let outcome: Result<(u8, usize), ValidationError> = match monster.gid {
            None => Err(ValidationError::MonsterMissingTile),
            Some(gid) => if gid < first_gid || gid - first_gid > 254 {
                Err(ValidationError::MonsterOutOfBounds)
            } else {
                let species: u8 = (1 + (gid - first_gid)) as u8;
                match cell_of(monster.x, monster.y) {
                    None => Err(ValidationError::MonsterOutsideRoom),
                    Some(cell) => if current.monster_id != 0 && current.monster_id != species {
                        Err(ValidationError::MultipleMonsterSpecies)
                    } else if current.monster_count == u8::MAX {
                        Err(ValidationError::TooManyMonsters)
                    } else {
                        Ok((species, cell))
                    },
                }
            },
        };
        match outcome {
            Err(e) => {
                proof {
                    assert(with_monster(before, monster, first_gid) == Err::<
                        IntermediateView,
                        ValidationError,
                    >(e));
                    assert(with_monsters(room@, monsters@.subrange(0, i + 1), first_gid) == Err::<
                        IntermediateView,
                        ValidationError,
                    >(e));
                    lemma_with_monsters_fails(room@, monsters@, first_gid, i + 1);
                }
                return Err(e);
            },
            Ok((species, cell)) => {
                current.objects.set(cell, MONSTER_MARKER);
                current.monster_id = species;
                current.monster_count = current.monster_count + 1;
            },
        }
        i += 1;
    }
    assert(monsters@.subrange(0, i as int) =~= monsters@);
    Ok(current)
}

/// Validates a map and builds its room. The room's id is left 0.
pub fn validate_tmx(map: &SourceMap) -> (r: Result<RmsTmxIntermediate, ValidationError>)
    ensures
        match r {
            Ok(room) => validated(*map) == Ok::<IntermediateView, ValidationError>(room@)
                && room.tiles@.len() == ROOM_AREA && room.objects@.len() == ROOM_AREA,
            Err(e) => validated(*map) == Err::<IntermediateView, ValidationError>(e),
        },
{
    if map.width != ROOM_WIDTH || map.height != ROOM_HEIGHT {
        return Err(ValidationError::BadMapDimensions);
    }
    if map.tile_width != TILE_DIMENSIONS || map.tile_height != TILE_DIMENSIONS {
        return Err(ValidationError::BadTileDimensions);
    }
    let first_gid_tiles: u32 = match map.first_gid("Tiles") {
        Some(gid) => gid,
        None => {
            return Err(ValidationError::MissingTilesTileset);
        },
    };
    let first_gid_objects: u32 = match map.first_gid("Objects") {
        Some(gid) => gid,
        None => {
            return Err(ValidationError::MissingObjectsTileset);
        },
    };
    let first_gid_monsters: u32 = match map.first_gid("Monsters") {
        Some(gid) => gid,
        None => {
            return Err(ValidationError::MissingMonstersTileset);
        },
    };

    let layer: usize = map.find_layer("Tiles", 0);
    if layer >= map.layers.len() {
        return Err(ValidationError::MissingTilesLayer);
    }
    if map.find_layer("Tiles", layer + 1) < map.layers.len() {
        return Err(ValidationError::DuplicateTilesLayer);
    }
    let tiles = match &map.layers[layer].data {
        None => {
            return Err(ValidationError::TilesLayerMissingData);
        },
        Some(data) => match translate_tiles(data, first_gid_tiles) {
            Ok(tiles) => tiles,
            Err(e) => {
                return Err(e);
            },
        },
    };

    let groups: usize = map.object_groups.len();
    let objects: usize = map.find_group("Objects", 0);
    if objects >= groups {
        return Err(ValidationError::MissingObjectsGroup);
    }
    if map.find_group("Objects", objects + 1) < groups {
        return Err(ValidationError::DuplicateObjectsGroup);
    }
    let monsters: usize = map.find_group("Monsters", 0);
    if monsters >= groups {
        return Err(ValidationError::MissingMonstersGroup);
    }
    if map.find_group("Monsters", monsters + 1) < groups {
        return Err(ValidationError::DuplicateMonstersGroup);
    }

    let mut grid: Vec<u8> = Vec::new();
    let mut i: usize = 0;
    while i < ROOM_AREA
        invariant
            i <= ROOM_AREA,
            grid@.len() == i,
            forall|j: int| 0 <= j < i ==> grid@[j] == 0,
        decreases ROOM_AREA - i,
    {
        grid.push(0);
        i += 1;
    }
    assert(grid@ =~= Seq::new(ROOM_AREA as nat, |i: int| 0u8));
    let room = RmsTmxIntermediate {
        id: 0,
        tiles,
        objects: grid,
        monster_id: 0,
        monster_count: 0,
        name: map.property("name"),
        north: map.property("north"),
        east: map.property("east"),
        south: map.property("south"),
        west: map.property("west"),
        up: map.property("up"),
        down: map.property("down"),
    };
    assert(room@ == unpopulated(*map, room.tiles@));
    if objects < monsters {
        match place_objects(room, &map.object_groups[objects].objects, first_gid_objects) {
            Err(e) => Err(e),
            Ok(room) => place_monsters(
                room,
                &map.object_groups[monsters].objects,
                first_gid_monsters,
            ),
        }
    } else {
        match place_monsters(room, &map.object_groups[monsters].objects, first_gid_monsters) {
            Err(e) => Err(e),
            Ok(room) => place_objects(room, &map.object_groups[objects].objects, first_gid_objects),
        }
    }
}

/// Placing objects leaves the room's id and tiles as they were, and the
/// object grid at a room's area.
pub proof fn lemma_with_objects_keeps(v: IntermediateView, objects: Seq<MapObject>, first_gid: u32)
    requires
        v.objects.len() == ROOM_AREA,
    ensures
        with_objects(v, objects, first_gid) matches Ok(w) ==> w.id == v.id && w.tiles == v.tiles
            && w.objects.len() == ROOM_AREA,
    decreases objects.len(),
{
    if objects.len() > 0 {
        lemma_with_objects_keeps(v, objects.drop_last(), first_gid);
    }
}

/// Placing monsters leaves the room's id and tiles as they were, and the
/// object grid at a room's area.
pub proof fn lemma_with_monsters_keeps(
    v: IntermediateView,
    monsters: Seq<MapObject>,
    first_gid: u32,
)
    requires
        v.objects.len() == ROOM_AREA,
    ensures
        with_monsters(v, monsters, first_gid) matches Ok(w) ==> w.id == v.id && w.tiles == v.tiles
            && w.objects.len() == ROOM_AREA,
    decreases monsters.len(),
{
    if monsters.len() > 0 {
        lemma_with_monsters_keeps(v, monsters.drop_last(), first_gid);
    }
}

/// A room that validation accepts has grids of a room's area, and no id
/// yet.
pub proof fn lemma_validated_grids(map: SourceMap)
    ensures
        validated(map) matches Ok(v) ==> v.id == 0 && v.tiles.len() == ROOM_AREA
            && v.objects.len() == ROOM_AREA,
{
    if let Ok(v) = validated(map) {
        let first_gid_tiles = tileset_first_gid(map.tilesets@, "Tiles"@)->0;
        let first_gid_objects = tileset_first_gid(map.tilesets@, "Objects"@)->0;
        let first_gid_monsters = tileset_first_gid(map.tilesets@, "Monsters"@)->0;
        let tiles = tiles_layer(map.layers@, first_gid_tiles)->Ok_0;
        let blank = unpopulated(map, tiles);
        let groups = map.object_groups@;
        let o = next_group(groups, "Objects"@, 0);
        let m = next_group(groups, "Monsters"@, 0);
        assert(tiles.len() == ROOM_AREA);
        if o < m {
            lemma_with_objects_keeps(blank, groups[o].objects@, first_gid_objects);
            let w = with_objects(blank, groups[o].objects@, first_gid_objects)->Ok_0;
            lemma_with_monsters_keeps(w, groups[m].objects@, first_gid_monsters);
        } else {
            lemma_with_monsters_keeps(blank, groups[m].objects@, first_gid_monsters);
            let w = with_monsters(blank, groups[m].objects@, first_gid_monsters)->Ok_0;
            lemma_with_objects_keeps(w, groups[o].objects@, first_gid_objects);
        }
    }
}

} // verus!
