//! Rooms and their fixed-size binary records.

use vstd::prelude::*;
use vstd::slice::*;
use vstd::string::*;
use vstd::utf8::*;

use crate::error::CodecError;
use crate::pascal::{from_pascal_string, pascal_bytes, pascal_text, to_pascal_string};

verus! {

pub const ROOM_WIDTH: u32 = 20;

pub const ROOM_HEIGHT: u32 = 8;

pub const ROOM_AREA: usize = 160;

pub const ROOM_RECORD_SIZE: usize = 0x168;

pub const ROOM_RECORD_UNKNOWN_A_OFFSET: usize = 0x0;

pub const ROOM_RECORD_TILE_OFFSET: usize = 0x1;

pub const ROOM_RECORD_OBJECT_OFFSET: usize = 0xA1;

pub const ROOM_RECORD_MONSTER_ID_OFFSET: usize = 0x141;

pub const ROOM_RECORD_MONSTER_COUNT_OFFSET: usize = 0x142;

pub const ROOM_RECORD_NORTH_OFFSET: usize = 0x143;

pub const ROOM_RECORD_ID_OFFSET: usize = 0x149;

pub const ROOM_RECORD_UNKNOWN_B_OFFSET: usize = 0x14A;

pub const ROOM_RECORD_UNKNOWN_C_OFFSET: usize = 0x14B;

pub const ROOM_RECORD_UNKNOWN_D_OFFSET: usize = 0x14C;

pub const ROOM_RECORD_NAME_OFFSET: usize = 0x14D;

/// Width of the name field, its length byte included.
pub const ROOM_RECORD_NAME_MAX_LENGTH: u8 = 27;

/// Stored tile values above this one are trap glyphs.
pub const MAX_TILE: u8 = 84;

/// The tile drawn in place of a trap glyph.
pub const TRAP_TILE: u8 = 21;

/// Object cells up to this value mark a monster.
pub const LAST_MONSTER_MARKER: u8 = 99;

/// What an object cell holds.
#[derive(Debug, Clone, Copy, PartialEq, Eq, Structural)]
pub enum ObjectType {
    Empty,
    Monster,
    Object,
}

/// One room of the dungeon. The four `unknown` fields are carried through
/// unread.
#[derive(Debug, Clone, PartialEq, Eq)]
pub struct Room {
    pub unknown_a: u8,
    pub tiles: [u8; ROOM_AREA],
    pub objects: [u8; ROOM_AREA],
    pub monster_id: u8,
    pub monster_count: u8,
    pub nav_north: u8,
    pub nav_east: u8,
    pub nav_south: u8,
    pub nav_west: u8,
    pub nav_up: u8,
    pub nav_down: u8,
    pub id: u8,
    pub unknown_b: u8,
    pub unknown_c: u8,
    pub unknown_d: u8,
    pub name: String,
}

/// A room as a mathematical value.
pub struct RoomView {
    pub unknown_a: u8,
    pub tiles: Seq<u8>,
    pub objects: Seq<u8>,
    pub monster_id: u8,
    pub monster_count: u8,
    pub nav_north: u8,
    pub nav_east: u8,
    pub nav_south: u8,
    pub nav_west: u8,
    pub nav_up: u8,
    pub nav_down: u8,
    pub id: u8,
    pub unknown_b: u8,
    pub unknown_c: u8,
    pub unknown_d: u8,
    pub name: Seq<char>,
}

impl View for Room {
    type V = RoomView;

    open spec fn view(&self) -> RoomView {
        RoomView {
            unknown_a: self.unknown_a,
            tiles: self.tiles@,
            objects: self.objects@,
            monster_id: self.monster_id,
            monster_count: self.monster_count,
            nav_north: self.nav_north,
            nav_east: self.nav_east,
            nav_south: self.nav_south,
            nav_west: self.nav_west,
            nav_up: self.nav_up,
            nav_down: self.nav_down,
            id: self.id,
            unknown_b: self.unknown_b,
            unknown_c: self.unknown_c,
            unknown_d: self.unknown_d,
            name: self.name@,
        }
    }
}

/// The views of a sequence of rooms.
pub open spec fn room_views(rooms: Seq<Room>) -> Seq<RoomView> {
    Seq::new(rooms.len(), |i: int| rooms[i]@)
}

/// Index of the cell in column `x` of row `y`.
pub open spec fn cell_index(x: u32, y: u32) -> int {
    y * ROOM_WIDTH + x
}

/// The tile that is drawn for a stored tile value.
pub open spec fn drawn_tile(tile: u8) -> u8 {
    if tile > MAX_TILE {
        TRAP_TILE
    } else {
        tile
    }
}

/// The kind of thing that an object cell's value stands for.
pub open spec fn object_type_of(cell: u8) -> ObjectType {
    if cell == 0 {
        ObjectType::Empty
    } else if cell <= LAST_MONSTER_MARKER {
        ObjectType::Monster
    } else {
        ObjectType::Object
    }
}

/// The tiles drawn for the object codes `'d'` to `'w'`, in that order;
/// 0 where none is known.
pub open spec fn object_tiles() -> Seq<u8> {
    seq![47u8, 21, 46, 29, 37, 36, 0, 0, 42, 18, 22, 17, 49, 54, 0, 0, 0, 0, 82, 0]
}

/// The tile drawn for an object code; 0 for every other character.
pub open spec fn object_tile_of(object: char) -> u8 {
    if 'd' <= object && object <= 'w' {
        object_tiles()[object as u32 - 'd' as u32]
    } else {
        0
    }
}

/// The name as it stands in a record: length-prefixed, cut to the field's
/// width and filled up with zeros.
pub open spec fn name_field(name: Seq<char>) -> Seq<u8> {
    let p = pascal_bytes(encode_utf8(name), ROOM_RECORD_NAME_MAX_LENGTH);
    Seq::new(
        ROOM_RECORD_NAME_MAX_LENGTH as nat,
        |i: int|
            if i < p.len() {
                p[i]
            } else {
                0u8
            },
    )
}

/// The 360 bytes of a room's record.
pub open spec fn record_bytes(v: RoomView) -> Seq<u8> {
    seq![v.unknown_a] + v.tiles + v.objects + seq![
        v.monster_id,
        v.monster_count,
        v.nav_north,
        v.nav_east,
        v.nav_south,
        v.nav_west,
        v.nav_up,
        v.nav_down,
        v.id,
        v.unknown_b,
        v.unknown_c,
        v.unknown_d,
    ] + name_field(v.name)
}

/// The room that a record holds.
pub open spec fn record_room(bytes: Seq<u8>) -> Result<RoomView, CodecError> {
    if bytes.len() != ROOM_RECORD_SIZE {
        Err(CodecError::TruncatedRecord)
    } else {
        match pascal_text(
            bytes.subrange(ROOM_RECORD_NAME_OFFSET as int, ROOM_RECORD_SIZE as int),
        ) {
            None => Err(CodecError::MalformedString),
            Some(name) => Ok(
                RoomView {
                    unknown_a: bytes[ROOM_RECORD_UNKNOWN_A_OFFSET as int],
                    tiles: bytes.subrange(
                        ROOM_RECORD_TILE_OFFSET as int,
                        ROOM_RECORD_TILE_OFFSET + ROOM_AREA,
                    ),
                    objects: bytes.subrange(
                        ROOM_RECORD_OBJECT_OFFSET as int,
                        ROOM_RECORD_OBJECT_OFFSET + ROOM_AREA,
                    ),
                    monster_id: bytes[ROOM_RECORD_MONSTER_ID_OFFSET as int],
                    monster_count: bytes[ROOM_RECORD_MONSTER_COUNT_OFFSET as int],
                    nav_north: bytes[ROOM_RECORD_NORTH_OFFSET as int],
                    nav_east: bytes[ROOM_RECORD_NORTH_OFFSET + 1],
                    nav_south: bytes[ROOM_RECORD_NORTH_OFFSET + 2],
                    nav_west: bytes[ROOM_RECORD_NORTH_OFFSET + 3],
                    nav_up: bytes[ROOM_RECORD_NORTH_OFFSET + 4],
                    nav_down: bytes[ROOM_RECORD_NORTH_OFFSET + 5],
                    id: bytes[ROOM_RECORD_ID_OFFSET as int],
                    unknown_b: bytes[ROOM_RECORD_UNKNOWN_B_OFFSET as int],
                    unknown_c: bytes[ROOM_RECORD_UNKNOWN_C_OFFSET as int],
                    unknown_d: bytes[ROOM_RECORD_UNKNOWN_D_OFFSET as int],
                    name,
                },
            ),
        }
    }
}

/// The records of `rooms`, one after the other.
pub open spec fn records_bytes(rooms: Seq<RoomView>) -> Seq<u8>
    decreases rooms.len(),
{
    if rooms.len() == 0 {
        Seq::empty()
    } else {
        records_bytes(rooms.drop_last()) + record_bytes(rooms.last())
    }
}

/// The `i`-th record of a buffer.
pub open spec fn record_at(bytes: Seq<u8>, i: int) -> Seq<u8> {
    bytes.subrange(i * ROOM_RECORD_SIZE, (i + 1) * ROOM_RECORD_SIZE)
}

/// The rooms that a buffer of records holds, in the buffer's order.
pub open spec fn records_rooms(bytes: Seq<u8>) -> Result<Seq<RoomView>, CodecError> {
    let n = bytes.len() as int / ROOM_RECORD_SIZE as int;
    if bytes.len() as int % ROOM_RECORD_SIZE as int != 0 {
        Err(CodecError::TruncatedRecord)
    } else if exists|i: int| 0 <= i < n && #[trigger] record_room(record_at(bytes, i)) is Err {
        Err(CodecError::MalformedString)
    } else {
        Ok(Seq::new(n as nat, |i: int| record_room(record_at(bytes, i))->Ok_0))
    }
}

impl Room {
    /// A room without neighbours, monsters or objects, every tile 1.
    pub fn new(id: u8, name: &str) -> (r: Room)
        ensures
            r@ == (RoomView {
                unknown_a: 0,
                tiles: Seq::new(ROOM_AREA as nat, |i: int| 1u8),
                objects: Seq::new(ROOM_AREA as nat, |i: int| 0u8),
                monster_id: 0,
                monster_count: 0,
                nav_north: 0,
                nav_east: 0,
                nav_south: 0,
                nav_west: 0,
                nav_up: 0,
                nav_down: 0,
                id,
                unknown_b: 0,
                unknown_c: 0,
                unknown_d: 0,
                name: name@,
            }),
    {
        let r = Room {
            unknown_a: 0,
            tiles: [1; ROOM_AREA],
            objects: [0; ROOM_AREA],
            monster_id: 0,
            monster_count: 0,
            nav_north: 0,
            nav_east: 0,
            nav_south: 0,
            nav_west: 0,
            nav_up: 0,
            nav_down: 0,
            id,
            unknown_b: 0,
            unknown_c: 0,
            unknown_d: 0,
            name: String::from_str(name),
        };
        assert(r.tiles@ =~= Seq::new(ROOM_AREA as nat, |i: int| 1u8));
        assert(r.objects@ =~= Seq::new(ROOM_AREA as nat, |i: int| 0u8));
        r
    }

    /// The tile to draw at a cell. 0 is the null tile, which is not drawn;
    /// a trap glyph is drawn as tile 21.
    pub fn get_tile(&self, x: u32, y: u32) -> (r: u8)
        requires
            x < ROOM_WIDTH,
            y < ROOM_HEIGHT,
        ensures
            r == drawn_tile(self@.tiles[cell_index(x, y)]),
    {
        let tile: u8 = self.tiles[(y * ROOM_WIDTH + x) as usize];
        if tile > MAX_TILE {
            TRAP_TILE
        } else {
            tile
        }
    }

    /// Stores a tile value at a cell, as it is.
    pub fn set_tile(&mut self, x: u32, y: u32, tile: u8)
        requires
            x < ROOM_WIDTH,
            y < ROOM_HEIGHT,
        ensures
            final(self)@ == (RoomView {
                tiles: old(self)@.tiles.update(cell_index(x, y), tile),
                ..old(self)@
            }),
    {
        self.tiles[(y * ROOM_WIDTH + x) as usize] = tile;
    }

    /// Stores an object code at a cell, as it is.
    pub fn set_object(&mut self, x: u32, y: u32, object: u8)
        requires
            x < ROOM_WIDTH,
            y < ROOM_HEIGHT,
        ensures
            final(self)@ == (RoomView {
                objects: old(self)@.objects.update(cell_index(x, y), object),
                ..old(self)@
            }),
    {
        self.objects[(y * ROOM_WIDTH + x) as usize] = object;
    }

    /// Whether a cell is empty, holds a monster or holds an object.
    pub fn get_object_type(&self, x: u32, y: u32) -> (r: ObjectType)
        requires
            x < ROOM_WIDTH,
            y < ROOM_HEIGHT,
        ensures
            r == object_type_of(self@.objects[cell_index(x, y)]),
    {
        let cell: u8 = self.objects[(y * ROOM_WIDTH + x) as usize];
        if cell == 0 {
            return ObjectType::Empty;
        }
        if cell <= LAST_MONSTER_MARKER {
            return ObjectType::Monster;
        }
        ObjectType::Object
    }

    /// The tile to draw for the object at a cell.
    pub fn get_object(&self, x: u32, y: u32) -> (r: u8)
        requires
            x < ROOM_WIDTH,
            y < ROOM_HEIGHT,
        ensures
            r == object_tile_of(self@.objects[cell_index(x, y)] as char),
    {
        let cell: u8 = self.objects[(y * ROOM_WIDTH + x) as usize];
        get_object_tile(cell as char)
    }

    pub fn id(&self) -> (r: u8)
        ensures
            r == self@.id,
    {
        self.id
    }
}

/// The tile to draw for an object code.
pub fn get_object_tile(object: char) -> (r: u8)
    ensures
        r == object_tile_of(object),
{
    match object {
        'd' => 47,  // magical darkness
        'e' => 21,  // treasure chest
        'f' => 46,  // smoke
        'g' => 29,  // movable block
        'h' => 37,  // door (vertical)
        'i' => 36,  // door (horizontal)
        'l' => 42,  // soft piece of wall
        'm' => 18,  // soft pile of rubble
        'n' => 22,  // old body
        'o' => 17,  // old bones
        'p' => 49,  // old stone coffin
        'q' => 54,  // old grave
        'v' => 82,  // "just some blood"
        _ => 0,
    }
}

impl Room {
    /// The room's record: the fields at their offsets, then the name,
    /// length-prefixed and zero-filled to the end of the record.
    pub fn encode(&self) -> (r: Vec<u8>)
        ensures
            r@ == record_bytes(self@),
            r@.len() == ROOM_RECORD_SIZE,
    {
        let mut out: Vec<u8> = Vec::new();
        out.push(self.unknown_a);
        let mut i: usize = 0;
        while i < ROOM_AREA
            invariant
                i <= ROOM_AREA,
                out@ == seq![self.unknown_a] + self.tiles@.subrange(0, i as int),
            decreases ROOM_AREA - i,
        {
            out.push(self.tiles[i]);
            i += 1;
            assert(out@ =~= seq![self.unknown_a] + self.tiles@.subrange(0, i as int));
        }
        assert(self.tiles@.subrange(0, ROOM_AREA as int) =~= self.tiles@);
        let mut j: usize = 0;
        while j < ROOM_AREA
            invariant
                j <= ROOM_AREA,
                out@ == seq![self.unknown_a] + self.tiles@ + self.objects@.subrange(0, j as int),
            decreases ROOM_AREA - j,
        {
            out.push(self.objects[j]);
            j += 1;
            assert(out@ =~= seq![self.unknown_a] + self.tiles@ + self.objects@.subrange(
                0,
                j as int,
            ));
        }
        assert(self.objects@.subrange(0, ROOM_AREA as int) =~= self.objects@);
        out.push(self.monster_id);
        out.push(self.monster_count);
        out.push(self.nav_north);
        out.push(self.nav_east);
        out.push(self.nav_south);
        out.push(self.nav_west);
        out.push(self.nav_up);
        out.push(self.nav_down);
        out.push(self.id);
        out.push(self.unknown_b);
        out.push(self.unknown_c);
        out.push(self.unknown_d);
        let ghost head = out@;
        let name = to_pascal_string(self.name.as_str(), ROOM_RECORD_NAME_MAX_LENGTH);
        let mut k: usize = 0;
        while k < ROOM_RECORD_NAME_MAX_LENGTH as usize
            invariant
                k <= ROOM_RECORD_NAME_MAX_LENGTH as usize,
                name@ == pascal_bytes(encode_utf8(self.name@), ROOM_RECORD_NAME_MAX_LENGTH),
                out@ == head + name_field(self.name@).subrange(0, k as int),
            decreases ROOM_RECORD_NAME_MAX_LENGTH as usize - k,
        {
            let b: u8 = if k < name.len() {
                name[k]
            } else {
                0
            };
            out.push(b);
            k += 1;
            assert(out@ =~= head + name_field(self.name@).subrange(0, k as int));
        }
        assert(name_field(self.name@).subrange(0, ROOM_RECORD_NAME_MAX_LENGTH as int)
            =~= name_field(self.name@));
        assert(out@ =~= record_bytes(self@));
        out
    }

    /// Reads one record. A buffer of another length than a record's is
    /// refused as truncated, a name that does not fit its field or is not
    /// text as malformed.
    pub fn decode(bytes: &[u8]) -> (r: Result<Room, CodecError>)
        ensures
            match r {
                Ok(room) => record_room(bytes@) == Ok::<RoomView, CodecError>(room@),
                Err(e) => record_room(bytes@) == Err::<RoomView, CodecError>(e),
            },
    {
        if bytes.len() != ROOM_RECORD_SIZE {
            return Err(CodecError::TruncatedRecord);
        }
        let name = match from_pascal_string(
            slice_subrange(bytes, ROOM_RECORD_NAME_OFFSET, ROOM_RECORD_SIZE),
        ) {
            Ok(name) => name,
            Err(e) => {
                return Err(e);
            },
        };
        let mut tiles: [u8; ROOM_AREA] = [0; ROOM_AREA];
        let mut objects: [u8; ROOM_AREA] = [0; ROOM_AREA];
        let mut i: usize = 0;
        while i < ROOM_AREA
            invariant
                i <= ROOM_AREA,
                bytes@.len() == ROOM_RECORD_SIZE,
                forall|j: int| 0 <= j < i ==> tiles@[j] == bytes@[ROOM_RECORD_TILE_OFFSET + j],
                forall|j: int| 0 <= j < i ==> objects@[j] == bytes@[ROOM_RECORD_OBJECT_OFFSET + j],
            decreases ROOM_AREA - i,
        {
            tiles[i] = bytes[ROOM_RECORD_TILE_OFFSET + i];
            objects[i] = bytes[ROOM_RECORD_OBJECT_OFFSET + i];
            i += 1;
        }
        assert(tiles@ =~= bytes@.subrange(
            ROOM_RECORD_TILE_OFFSET as int,
            ROOM_RECORD_TILE_OFFSET + ROOM_AREA,
        ));
        assert(objects@ =~= bytes@.subrange(
            ROOM_RECORD_OBJECT_OFFSET as int,
            ROOM_RECORD_OBJECT_OFFSET + ROOM_AREA,
        ));
        Ok(
            Room {
                unknown_a: bytes[ROOM_RECORD_UNKNOWN_A_OFFSET],
                tiles,
                objects,
                monster_id: bytes[ROOM_RECORD_MONSTER_ID_OFFSET],
                monster_count: bytes[ROOM_RECORD_MONSTER_COUNT_OFFSET],
                nav_north: bytes[ROOM_RECORD_NORTH_OFFSET],
                nav_east: bytes[ROOM_RECORD_NORTH_OFFSET + 1],
                nav_south: bytes[ROOM_RECORD_NORTH_OFFSET + 2],
                nav_west: bytes[ROOM_RECORD_NORTH_OFFSET + 3],
                nav_up: bytes[ROOM_RECORD_NORTH_OFFSET + 4],
                nav_down: bytes[ROOM_RECORD_NORTH_OFFSET + 5],
                id: bytes[ROOM_RECORD_ID_OFFSET],
                unknown_b: bytes[ROOM_RECORD_UNKNOWN_B_OFFSET],
                unknown_c: bytes[ROOM_RECORD_UNKNOWN_C_OFFSET],
                unknown_d: bytes[ROOM_RECORD_UNKNOWN_D_OFFSET],
                name,
            },
        )
    }
}

/// The records of `rooms` in the order given, with nothing before, between
/// or after them.
pub fn encode_many(rooms: &Vec<Room>) -> (r: Vec<u8>)
    ensures
        r@ == records_bytes(room_views(rooms@)),
{
    let mut out: Vec<u8> = Vec::new();
    let mut i: usize = 0;
    while i < rooms.len()
        invariant
            i <= rooms.len(),
            out@ == records_bytes(room_views(rooms@.subrange(0, i as int))),
        decreases rooms.len() - i,
    {
        let mut record = rooms[i].encode();
        out.append(&mut record);
        proof {
            let next = room_views(rooms@.subrange(0, i + 1));
            assert(next.drop_last() =~= room_views(rooms@.subrange(0, i as int)));
            assert(next.last() == rooms@[i as int]@);
        }
        i += 1;
    }
    assert(rooms@.subrange(0, i as int) =~= rooms@);
    out
}

/// Cuts a buffer into records and reads each, in the buffer's order.
pub fn decode_many(bytes: &[u8]) -> (r: Result<Vec<Room>, CodecError>)
    ensures
        match r {
            Ok(rooms) => records_rooms(bytes@) == Ok::<Seq<RoomView>, CodecError>(
                room_views(rooms@),
            ),
            Err(e) => records_rooms(bytes@) == Err::<Seq<RoomView>, CodecError>(e),
        },
{
    if bytes.len() % ROOM_RECORD_SIZE != 0 {
        return Err(CodecError::TruncatedRecord);
    }
    let len: usize = bytes.len();
    let n: usize = len / ROOM_RECORD_SIZE;
    let mut rooms: Vec<Room> = Vec::new();
    let mut i: usize = 0;
    while i < n
        invariant
            i <= n,
            len == bytes@.len(),
            n == bytes@.len() as int / ROOM_RECORD_SIZE as int,
            bytes@.len() as int % ROOM_RECORD_SIZE as int == 0,
            rooms@.len() == i,
            forall|j: int|
                0 <= j < i ==> #[trigger] record_room(record_at(bytes@, j)) == Ok::<
                    RoomView,
                    CodecError,
                >(rooms@[j]@),
        decreases n - i,
    {
        assert(0 <= i * ROOM_RECORD_SIZE <= (i + 1) * ROOM_RECORD_SIZE <= bytes@.len())
            by (nonlinear_arith)
            requires
                0 <= i < n,
                ROOM_RECORD_SIZE == 360,
                n == bytes@.len() as int / ROOM_RECORD_SIZE as int,
        ;
        let chunk = slice_subrange(bytes, i * ROOM_RECORD_SIZE, (i + 1) * ROOM_RECORD_SIZE);
        assert(chunk@ == record_at(bytes@, i as int));
        match Room::decode(chunk) {
            Ok(room) => {
                rooms.push(room);
            },
            Err(e) => {
                assert(e == CodecError::MalformedString);
                return Err(e);
            },
        }
        i += 1;
    }
    assert(room_views(rooms@) =~= Seq::new(
        n as nat,
        |i: int| record_room(record_at(bytes@, i))->Ok_0,
    ));
    Ok(rooms)
}

/// A room whose grids have a room's area and whose name takes
/// at most 26 bytes, the most that fit behind the length byte, is read back
/// from its record field for field.
pub proof fn lemma_record_round_trip(v: RoomView)
    requires
        v.tiles.len() == ROOM_AREA,
        v.objects.len() == ROOM_AREA,
        encode_utf8(v.name).len() < ROOM_RECORD_NAME_MAX_LENGTH,
    ensures
        record_room(record_bytes(v)) == Ok::<RoomView, CodecError>(v),
{
    let text = encode_utf8(v.name);
    let bytes = record_bytes(v);
    let field = bytes.subrange(ROOM_RECORD_NAME_OFFSET as int, ROOM_RECORD_SIZE as int);
    assert(bytes.len() == ROOM_RECORD_SIZE);
    assert(field =~= name_field(v.name));
    assert(field[0] == text.len() as u8);
    assert(field.subrange(1, 1 + field[0] as int) =~= text);
    encode_utf8_valid_utf8(v.name);
    encode_utf8_decode_utf8(v.name);
    assert(pascal_text(field) == Some(v.name));
    assert(bytes.subrange(
        ROOM_RECORD_TILE_OFFSET as int,
        ROOM_RECORD_TILE_OFFSET + ROOM_AREA,
    ) =~= v.tiles);
    assert(bytes.subrange(
        ROOM_RECORD_OBJECT_OFFSET as int,
        ROOM_RECORD_OBJECT_OFFSET + ROOM_AREA,
    ) =~= v.objects);
}

/// A name of 27 bytes or more fills its field with the length byte 27 and
/// the name's first 26 bytes, and such a record is refused as malformed
/// when it is read.
pub proof fn lemma_record_of_long_name(v: RoomView)
    requires
        v.tiles.len() == ROOM_AREA,
        v.objects.len() == ROOM_AREA,
        encode_utf8(v.name).len() >= ROOM_RECORD_NAME_MAX_LENGTH,
    ensures
        name_field(v.name) == seq![ROOM_RECORD_NAME_MAX_LENGTH] + encode_utf8(v.name).subrange(
            0,
            ROOM_RECORD_NAME_MAX_LENGTH - 1,
        ),
        record_room(record_bytes(v)) == Err::<RoomView, CodecError>(CodecError::MalformedString),
{
    let bytes = record_bytes(v);
    let field = bytes.subrange(ROOM_RECORD_NAME_OFFSET as int, ROOM_RECORD_SIZE as int);
    assert(bytes.len() == ROOM_RECORD_SIZE);
    assert(field =~= name_field(v.name));
    assert(field[0] == ROOM_RECORD_NAME_MAX_LENGTH);
    assert(name_field(v.name) =~= seq![ROOM_RECORD_NAME_MAX_LENGTH] + encode_utf8(
        v.name,
    ).subrange(0, ROOM_RECORD_NAME_MAX_LENGTH - 1));
}

/// In the records of rooms whose grids have a room's area, each room's
/// record stands at its place, and nothing else is there.
pub proof fn lemma_records_bytes_layout(rooms: Seq<RoomView>)
    requires
        forall|j: int|
            0 <= j < rooms.len() ==> (#[trigger] rooms[j]).tiles.len() == ROOM_AREA
                && rooms[j].objects.len() == ROOM_AREA,
    ensures
        records_bytes(rooms).len() == ROOM_RECORD_SIZE * rooms.len(),
        forall|i: int|
            0 <= i < rooms.len() ==> #[trigger] record_at(records_bytes(rooms), i) == record_bytes(
                rooms[i],
            ),
    decreases rooms.len(),
{
    if rooms.len() > 0 {
        let front = rooms.drop_last();
        lemma_records_bytes_layout(front);
        let all = records_bytes(rooms);
        assert(record_bytes(rooms.last()).len() == ROOM_RECORD_SIZE);
        assert forall|i: int| 0 <= i < rooms.len() implies #[trigger] record_at(all, i)
            == record_bytes(rooms[i]) by {
            if i < front.len() {
                assert(record_at(records_bytes(front), i) == record_bytes(front[i]));
                assert(record_at(all, i) =~= record_at(records_bytes(front), i));
            } else {
                assert(record_at(all, i) =~= record_bytes(rooms.last()));
            }
        }
    }
}

/// Rooms whose grids have a room's area and
/// whose names take at most 26 bytes are read back from their records, in
/// their order.
pub proof fn lemma_records_round_trip(rooms: Seq<RoomView>)
    requires
        forall|j: int|
            0 <= j < rooms.len() ==> (#[trigger] rooms[j]).tiles.len() == ROOM_AREA
                && rooms[j].objects.len() == ROOM_AREA && encode_utf8(rooms[j].name).len()
                < ROOM_RECORD_NAME_MAX_LENGTH,
    ensures
        records_rooms(records_bytes(rooms)) == Ok::<Seq<RoomView>, CodecError>(rooms),
{
    let bytes = records_bytes(rooms);
    lemma_records_bytes_layout(rooms);
    let n = bytes.len() as int / ROOM_RECORD_SIZE as int;
    assert(n == rooms.len() && bytes.len() as int % ROOM_RECORD_SIZE as int == 0) by {
        assert(bytes.len() == 360 * rooms.len());
    }
    assert forall|i: int| 0 <= i < n implies #[trigger] record_room(record_at(bytes, i)) == Ok::<
        RoomView,
        CodecError,
    >(rooms[i]) by {
        assert(record_at(bytes, i) == record_bytes(rooms[i]));
        lemma_record_round_trip(rooms[i]);
    }
    assert(Seq::new(n as nat, |i: int| record_room(record_at(bytes, i))->Ok_0) =~= rooms);
}

} // verus!
