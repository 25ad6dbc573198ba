//! Discovery of the rooms that links connect, the resolution of their
//! links into room ids, and the order in which rooms are written.

use vstd::prelude::*;
use vstd::seq_lib::*;
use vstd::string::*;

use crate::error::{ResolutionError, TraversalError};
use crate::rms::{encode_many, records_bytes, room_views, Room, RoomView, ROOM_AREA};
use crate::source::text_of;
use crate::validate::{IntermediateView, RmsTmxIntermediate};

verus! {

/// The most rooms that a world holds; room ids run from 1 to this.
pub const MAX_ROOMS: u8 = 128;

/// A room that was loaded, under the base name of its file.
#[derive(Debug, Clone, PartialEq, Eq)]
pub struct Discovered {
    pub key: String,
    pub room: RmsTmxIntermediate,
}

/// The state of a traversal: the names still to load, last in first out,
/// and the rooms loaded so far in the order of their ids.
#[derive(Debug, Clone, PartialEq, Eq)]
pub struct Loader {
    pub pending: Vec<String>,
    pub discovered: Vec<Discovered>,
}

/// The texts of a list of strings.
pub open spec fn names(list: Seq<String>) -> Seq<Seq<char>> {
    Seq::new(list.len(), |i: int| list[i]@)
}

/// The names under which rooms are registered, in the order of their ids.
pub open spec fn keys_of(discovered: Seq<Discovered>) -> Seq<Seq<char>> {
    Seq::new(discovered.len(), |i: int| discovered[i].key@)
}

/// No name is registered twice, and no more rooms than a world holds; the
/// room at position `i` has the id `i + 1` and grids of a room's area.
pub open spec fn registry_wf(discovered: Seq<Discovered>) -> bool {
    &&& discovered.len() <= MAX_ROOMS
    &&& forall|i: int|
        0 <= i < discovered.len() ==> {
            &&& (#[trigger] discovered[i]).room.id == i + 1
            &&& discovered[i].room.tiles@.len() == ROOM_AREA
            &&& discovered[i].room.objects@.len() == ROOM_AREA
        }
    &&& forall|i: int, j: int|
        0 <= i < j < discovered.len() ==> #[trigger] discovered[i].key@
            != #[trigger] discovered[j].key@
}

/// The worklist after a link was looked at: its name is added unless the
/// link is empty or a room is registered under the name.
pub open spec fn with_link(
    pending: Seq<Seq<char>>,
    keys: Seq<Seq<char>>,
    link: Option<Seq<char>>,
) -> Seq<Seq<char>> {
    match link {
        Some(name) => if keys.contains(name) {
            pending
        } else {
            pending.push(name)
        },
        None => pending,
    }
}

/// The worklist after the six links of a room were looked at: north, east,
/// south, west, up, down.
pub open spec fn with_links(
    pending: Seq<Seq<char>>,
    keys: Seq<Seq<char>>,
    room: IntermediateView,
) -> Seq<Seq<char>> {
    let n = with_link(pending, keys, room.north);
    let e = with_link(n, keys, room.east);
    let s = with_link(e, keys, room.south);
    let w = with_link(s, keys, room.west);
    let u = with_link(w, keys, room.up);
    with_link(u, keys, room.down)
}

/// The id that a link resolves to: 0 for an empty link, the id of the room
/// registered under the link's name, nothing where there is no such room.
pub open spec fn resolved_link(keys: Seq<Seq<char>>, link: Option<Seq<char>>) -> Option<u8> {
    match link {
        None => Some(0u8),
        Some(name) => if keys.contains(name) {
            Some((keys.index_of(name) + 1) as u8)
        } else {
            None
        },
    }
}

/// The text of a digit.
pub open spec fn digit_text(d: nat) -> Seq<char> {
    if d == 0 {
        "0"@
    } else if d == 1 {
        "1"@
    } else if d == 2 {
        "2"@
    } else if d == 3 {
        "3"@
    } else if d == 4 {
        "4"@
    } else if d == 5 {
        "5"@
    } else if d == 6 {
        "6"@
    } else if d == 7 {
        "7"@
    } else if d == 8 {
        "8"@
    } else {
        "9"@
    }
}

/// A number in decimal, without leading zeros.
pub open spec fn decimal_text(n: nat) -> Seq<char>
    decreases n,
{
    if n < 10 {
        digit_text(n)
    } else {
        decimal_text(n / 10) + digit_text(n % 10)
    }
}

/// The name of a room that its map gives none.
pub open spec fn default_name(id: u8) -> Seq<char> {
    "Room #"@ + decimal_text(id as nat)
}

/// The room that an intermediate room becomes once its links are resolved;
/// nothing where one of them dangles.
pub open spec fn resolved_room(v: IntermediateView, keys: Seq<Seq<char>>) -> Option<RoomView> {
    let north = resolved_link(keys, v.north);
    let east = resolved_link(keys, v.east);
    let south = resolved_link(keys, v.south);
    let west = resolved_link(keys, v.west);
    let up = resolved_link(keys, v.up);
    let down = resolved_link(keys, v.down);
    if north is None || east is None || south is None || west is None || up is None
        || down is None {
        None
    } else {
        Some(
            RoomView {
                unknown_a: 0,
                tiles: v.tiles,
                objects: v.objects,
                monster_id: v.monster_id,
                monster_count: v.monster_count,
                nav_north: north->0,
                nav_east: east->0,
                nav_south: south->0,
                nav_west: west->0,
                nav_up: up->0,
                nav_down: down->0,
                id: v.id,
                unknown_b: 0,
                unknown_c: 0,
                unknown_d: 0,
                name: match v.name {
                    Some(name) => name,
                    None => default_name(v.id),
                },
            },
        )
    }
}

/// The ids of the rooms never fall from one room to the next.
pub open spec fn ascending(rooms: Seq<Room>) -> bool {
    forall|i: int, j: int| 0 <= i < j < rooms.len() ==> rooms[i].id <= rooms[j].id
}

/// The position of the room registered under a name.
pub fn position(discovered: &Vec<Discovered>, name: &str) -> (r: Option<usize>)
    ensures
        match r {
            Some(i) => i < discovered@.len() && discovered@[i as int].key@ == name@ && forall|
                j: int,
            |
                0 <= j < i ==> keys_of(discovered@)[j] != name@,
            None => !keys_of(discovered@).contains(name@),
        },
{
    let wanted = name.to_owned();
    let mut i: usize = 0;
    while i < discovered.len()
        invariant
            i <= discovered.len(),
            wanted@ == name@,
            forall|j: int| 0 <= j < i ==> keys_of(discovered@)[j] != name@,
        decreases discovered.len() - i,
    {
        if discovered[i].key == wanted {
            return Some(i);
        }
        i += 1;
    }
    None
}

/// Takes names off the end of the worklist until one comes that no room is
/// registered under, and hands that one out.
pub fn pop_unregistered(pending: &mut Vec<String>, discovered: &Vec<Discovered>) -> (r: Option<
    String,
>)
    ensures
        match r {
            Some(name) => {
                let k = final(pending)@.len() as int;
                &&& k < old(pending)@.len()
                &&& name == old(pending)@[k]
                &&& final(pending)@ == old(pending)@.subrange(0, k)
                &&& !keys_of(discovered@).contains(name@)
                &&& forall|j: int|
                    k < j < old(pending)@.len() ==> keys_of(discovered@).contains(
                        #[trigger] old(pending)@[j]@,
                    )
            },
            None => {
                &&& final(pending)@.len() == 0
                &&& forall|j: int|
                    0 <= j < old(pending)@.len() ==> keys_of(discovered@).contains(
                        #[trigger] old(pending)@[j]@,
                    )
            },
        },
{
    let ghost before = pending@;
    loop
        invariant
            before == old(pending)@,
            pending@.len() <= before.len(),
            pending@ == before.subrange(0, pending@.len() as int),
            forall|j: int|
                pending@.len() <= j < before.len() ==> keys_of(discovered@).contains(
                    #[trigger] before[j]@,
                ),
        decreases pending@.len(),
    {
        match pending.pop() {
            None => {
                return None;
            },
            Some(name) => {
                assert(pending@ =~= before.subrange(0, pending@.len() as int));
                match position(discovered, name.as_str()) {
                    None => {
                        return Some(name);
                    },
                    Some(i) => {
                        assert(keys_of(discovered@)[i as int] == name@);
                    },
                }
            },
        }
    }
}

/// Adds the name of a link to the worklist, unless the link is empty or a
/// room is registered under the name.
pub fn enqueue_link(pending: &mut Vec<String>, discovered: &Vec<Discovered>, link: &Option<String>)
    ensures
        names(final(pending)@) == with_link(
            names(old(pending)@),
            keys_of(discovered@),
            text_of(*link),
        ),
{
    match link {
        Some(name) => {
            match position(discovered, name.as_str()) {
                None => {
                    pending.push(name.clone());
                    assert(names(pending@) =~= names(old(pending)@).push(name@));
                },
                Some(i) => {
                    assert(keys_of(discovered@)[i as int] == name@);
                },
            }
        },
        None => {},
    }
}

/// The text of a digit.
pub fn digit(d: u8) -> (r: &'static str)
    requires
        d < 10,
    ensures
        r@ == digit_text(d as nat),
{
    if d == 0 {
        "0"
    } else if d == 1 {
        "1"
    } else if d == 2 {
        "2"
    } else if d == 3 {
        "3"
    } else if d == 4 {
        "4"
    } else if d == 5 {
        "5"
    } else if d == 6 {
        "6"
    } else if d == 7 {
        "7"
    } else if d == 8 {
        "8"
    } else {
        "9"
    }
}

/// The name of a room that its map gives none: `Room #` and the id.
pub fn default_room_name(id: u8) -> (r: String)
    ensures
        r@ == default_name(id),
{
    let mut name = String::from_str("Room #");
    if id >= 100 {
        name.append(digit(id / 100));
    }
    if id >= 10 {
        name.append(digit((id / 10) % 10));
    }
    name.append(digit(id % 10));
    proof {
        let n = id as nat;
        if n >= 100 {
            assert(decimal_text(n / 100) == digit_text(n / 100));
            assert(decimal_text(n / 10) == decimal_text(n / 100) + digit_text((n / 10) % 10));
            assert(decimal_text(n) == decimal_text(n / 10) + digit_text(n % 10));
        } else if n >= 10 {
            assert(decimal_text(n / 10) == digit_text(n / 10));
            assert(decimal_text(n) == decimal_text(n / 10) + digit_text(n % 10));
        }
        assert(name@ =~= default_name(id));
    }
    name
}

impl Loader {
    /// The names under which rooms are registered.
    pub open spec fn keys(&self) -> Seq<Seq<char>> {
        keys_of(self.discovered@)
    }

    /// The invariant of a traversal.
    pub open spec fn wf(&self) -> bool {
        registry_wf(self.discovered@)
    }

    /// A traversal that starts at the map called `entry`.
    pub fn new(entry: String) -> (r: Loader)
        ensures
            r.wf(),
            r.pending@ == seq![entry],
            r.discovered@.len() == 0,
    {
        let mut pending: Vec<String> = Vec::new();
        pending.push(entry);
        assert(pending@ =~= seq![entry]);
        Loader { pending, discovered: Vec::new() }
    }

    /// The name of the map to load next: the last name of the worklist
    /// that no room is registered under. It leaves the worklist together
    /// with the names behind it. `None` when nothing is left to load.
    pub fn next(&mut self) -> (r: Option<String>)
        requires
            old(self).wf(),
        ensures
            final(self).wf(),
            final(self).discovered == old(self).discovered,
            match r {
                Some(name) => {
                    let k = final(self).pending@.len() as int;
                    &&& k < old(self).pending@.len()
                    &&& name == old(self).pending@[k]
                    &&& final(self).pending@ == old(self).pending@.subrange(0, k)
                    &&& !old(self).keys().contains(name@)
                    &&& forall|j: int|
                        k < j < old(self).pending@.len() ==> old(self).keys().contains(
                            #[trigger] old(self).pending@[j]@,
                        )
                },
                None => {
                    &&& final(self).pending@.len() == 0
                    &&& forall|j: int|
                        0 <= j < old(self).pending@.len() ==> old(self).keys().contains(
                            #[trigger] old(self).pending@[j]@,
                        )
                },
            },
    {
        pop_unregistered(&mut self.pending, &self.discovered)
    }

    /// Registers a loaded room under the base name of its file. The room
    /// gets the next id, and those of its links that name no registered
    /// room go onto the worklist. Nothing changes where the world is full
    /// or the name is registered already.
    pub fn register(&mut self, key: String, room: RmsTmxIntermediate) -> (r: Result<
        u8,
        TraversalError,
    >)
        requires
            old(self).wf(),
            room.tiles@.len() == ROOM_AREA,
            room.objects@.len() == ROOM_AREA,
        ensures
            final(self).wf(),
            match r {
                Ok(id) => {
                    &&& old(self).discovered@.len() < MAX_ROOMS
                    &&& !old(self).keys().contains(key@)
                    &&& id == old(self).discovered@.len() + 1
                    &&& final(self).discovered@.len() == id
                    &&& final(self).discovered@.drop_last() == old(self).discovered@
                    &&& final(self).discovered@.last().key == key
                    &&& final(self).discovered@.last().room@ == (IntermediateView { id, ..room@ })
                    &&& names(final(self).pending@) == with_links(
                        names(old(self).pending@),
                        final(self).keys(),
                        room@,
                    )
                },
                Err(e) => {
                    &&& *final(self) == *old(self)
                    &&& e == if old(self).discovered@.len() >= MAX_ROOMS {
                        TraversalError::TooManyRooms
                    } else {
                        TraversalError::AlreadyLoaded
                    }
                    &&& old(self).discovered@.len() >= MAX_ROOMS || old(self).keys().contains(key@)
                },
            },
    {
        if self.discovered.len() >= MAX_ROOMS as usize {
            return Err(TraversalError::TooManyRooms);
        }
        match position(&self.discovered, key.as_str()) {
            Some(i) => {
                assert(self.keys()[i as int] == key@);
                return Err(TraversalError::AlreadyLoaded);
            },
            None => {},
        }
        let id: u8 = (self.discovered.len() + 1) as u8;
        let mut room = room;
        room.id = id;
        let ghost before = self.discovered@;
        self.discovered.push(Discovered { key, room });
        proof {
            assert(self.discovered@.drop_last() =~= before);
            assert forall|i: int, j: int| 0 <= i < j < self.discovered@.len() implies (
            #[trigger] self.discovered@[i].key@) != (#[trigger] self.discovered@[j].key@) by {
                if j == before.len() {
                    assert(keys_of(before)[i] == before[i].key@);
                }
            }
        }
        let entry = &self.discovered[self.discovered.len() - 1].room;
        enqueue_link(&mut self.pending, &self.discovered, &entry.north);
        enqueue_link(&mut self.pending, &self.discovered, &entry.east);
        enqueue_link(&mut self.pending, &self.discovered, &entry.south);
        enqueue_link(&mut self.pending, &self.discovered, &entry.west);
        enqueue_link(&mut self.pending, &self.discovered, &entry.up);
        enqueue_link(&mut self.pending, &self.discovered, &entry.down);
        Ok(id)
    }

    /// The id that a link stands for.
    pub fn resolve_link(&self, link: &Option<String>) -> (r: Result<u8, ResolutionError>)
        requires
            self.wf(),
        ensures
            match r {
                Ok(id) => resolved_link(self.keys(), text_of(*link)) == Some(id),
                Err(e) => resolved_link(self.keys(), text_of(*link)) is None,
            },
    {
        match link {
            None => Ok(0),
            Some(name) => match position(&self.discovered, name.as_str()) {
                None => Err(ResolutionError::DanglingLink),
                Some(i) => {
                    proof {
                        let keys = self.keys();
                        assert(keys[i as int] == name@);
                        assert(keys.contains(name@));
                        let j = keys.index_of(name@);
                        assert(0 <= j < keys.len() && keys[j] == name@);
                        assert(self.discovered@[j].key@ == self.discovered@[i as int].key@);
                        assert(j == i);
                    }
                    Ok(self.discovered[i].room.id)
                },
            },
        }
    }

    /// The room at a position with its links resolved.
    pub fn resolve_room(&self, i: usize) -> (r: Result<Room, ResolutionError>)
        requires
            self.wf(),
            i < self.discovered@.len(),
        ensures
            match r {
                Ok(room) => resolved_room(self.discovered@[i as int].room@, self.keys()) == Some(
                    room@,
                ),
                Err(e) => resolved_room(self.discovered@[i as int].room@, self.keys()) is None,
            },
    {
        let source = &self.discovered[i].room;
        let nav_north: u8 = match self.resolve_link(&source.north) {
            Ok(id) => id,
            Err(e) => {
                return Err(e);
            },
        };
        let nav_east: u8 = match self.resolve_link(&source.east) {
            Ok(id) => id,
            Err(e) => {
                return Err(e);
            },
        };
        let nav_south: u8 = match self.resolve_link(&source.south) {
            Ok(id) => id,
            Err(e) => {
                return Err(e);
            },
        };
        let nav_west: u8 = match self.resolve_link(&source.west) {
            Ok(id) => id,
            Err(e) => {
                return Err(e);
            },
        };
        let nav_up: u8 = match self.resolve_link(&source.up) {
            Ok(id) => id,
            Err(e) => {
                return Err(e);
            },
        };
        let nav_down: u8 = match self.resolve_link(&source.down) {
            Ok(id) => id,
            Err(e) => {
                return Err(e);
            },
        };
        let name: String = match &source.name {
            Some(name) => name.clone(),
            None => default_room_name(source.id),
        };
        let mut room = Room::new(source.id, name.as_str());
        let mut k: usize = 0;
        while k < ROOM_AREA
            invariant
                k <= ROOM_AREA,
                source.tiles@.len() == ROOM_AREA,
                source.objects@.len() == ROOM_AREA,
                forall|j: int| 0 <= j < k ==> room.tiles@[j] == source.tiles@[j],
                forall|j: int| 0 <= j < k ==> room.objects@[j] == source.objects@[j],
                room.name@ == name@,
                room.id == source.id,
                room.unknown_a == 0 && room.unknown_b == 0 && room.unknown_c == 0
                    && room.unknown_d == 0,
            decreases ROOM_AREA - k,
        {
            room.tiles[k] = source.tiles[k];
            room.objects[k] = source.objects[k];
            k += 1;
        }
        room.monster_id = source.monster_id;
        room.monster_count = source.monster_count;
        room.nav_north = nav_north;
        room.nav_east = nav_east;
        room.nav_south = nav_south;
        room.nav_west = nav_west;
        room.nav_up = nav_up;
        room.nav_down = nav_down;
        assert(room.tiles@ =~= source.tiles@);
        assert(room.objects@ =~= source.objects@);
        Ok(room)
    }

    /// The rooms in the order of their ids, each with its links resolved.
    /// It fails where a room names a neighbour that was never registered.
    pub fn resolve(&self) -> (r: Result<Vec<Room>, ResolutionError>)
        requires
            self.wf(),
        ensures
            match r {
                Ok(rooms) => {
                    &&& rooms@.len() == self.discovered@.len()
                    &&& forall|i: int|
                        0 <= i < rooms@.len() ==> resolved_room(
                            (#[trigger] self.discovered@[i]).room@,
                            self.keys(),
                        ) == Some(rooms@[i]@)
                    &&& forall|i: int| 0 <= i < rooms@.len() ==> (#[trigger] rooms@[i]).id == i + 1
                },
                Err(e) => exists|i: int|
                    0 <= i < self.discovered@.len() && resolved_room(
                        (#[trigger] self.discovered@[i]).room@,
                        self.keys(),
                    ) is None,
            },
    {
        let mut rooms: Vec<Room> = Vec::new();
        let mut i: usize = 0;
        while i < self.discovered.len()
            invariant
                self.wf(),
                i <= self.discovered@.len(),
                rooms@.len() == i,
                forall|j: int|
                    0 <= j < i ==> resolved_room(
                        (#[trigger] self.discovered@[j]).room@,
                        self.keys(),
                    ) == Some(rooms@[j]@),
                forall|j: int| 0 <= j < i ==> (#[trigger] rooms@[j]).id == j + 1,
            decreases self.discovered@.len() - i,
        {
            match self.resolve_room(i) {
                Ok(room) => {
                    assert(room@.id == self.discovered@[i as int].room@.id);
                    rooms.push(room);
                },
                Err(e) => {
                    return Err(e);
                },
            }
            i += 1;
        }
        Ok(rooms)
    }
}

/// Rooms in the order of their ids with one more room put in: behind
/// every room whose id is not above its own.
pub open spec fn inserted_by_id(rooms: Seq<Room>, room: Room) -> Seq<Room>
    decreases rooms.len(),
{
    if rooms.len() == 0 || rooms.last().id <= room.id {
        rooms.push(room)
    } else {
        inserted_by_id(rooms.drop_last(), room).push(rooms.last())
    }
}

/// The rooms in the order of their ids; rooms of one id stay in the order
/// in which they came.
pub open spec fn sorted_by_id(rooms: Seq<Room>) -> Seq<Room>
    decreases rooms.len(),
{
    if rooms.len() == 0 {
        rooms
    } else {
        inserted_by_id(sorted_by_id(rooms.drop_last()), rooms.last())
    }
}

/// In rooms that are in the order of their ids, a room is put in before
/// the first room whose id is above its own.
pub proof fn lemma_inserted_by_id(rooms: Seq<Room>, room: Room, p: int)
    requires
        ascending(rooms),
        0 <= p <= rooms.len(),
        forall|j: int| 0 <= j < p ==> rooms[j].id <= room.id,
        p < rooms.len() ==> rooms[p].id > room.id,
    ensures
        inserted_by_id(rooms, room) == rooms.insert(p, room),
    decreases rooms.len(),
{
    if rooms.len() == 0 || rooms.last().id <= room.id {
        if p < rooms.len() {
            assert(rooms[p].id <= rooms[rooms.len() - 1].id);
        }
        assert(rooms.push(room) =~= rooms.insert(p, room));
    } else {
        let front = rooms.drop_last();
        assert(ascending(front)) by {
            assert forall|i: int, j: int| 0 <= i < j < front.len() implies front[i].id
                <= front[j].id by {
                assert(rooms[i].id <= rooms[j].id);
            }
        }
        lemma_inserted_by_id(front, room, p);
        assert(front.insert(p, room).push(rooms.last()) =~= rooms.insert(p, room));
    }
}

/// Brings rooms into the order of their ids. Rooms of one id stay in the
/// order in which they came, so rooms that are in order are left as they
/// are.
pub fn sort_rooms(rooms: &mut Vec<Room>)
    ensures
        final(rooms)@ == sorted_by_id(old(rooms)@),
        ascending(final(rooms)@),
        final(rooms)@.to_multiset() == old(rooms)@.to_multiset(),
        ascending(old(rooms)@) ==> final(rooms)@ == old(rooms)@,
{
    if rooms.len() == 0 {
        return ;
    }
    assert(rooms@.subrange(0, 1).drop_last() =~= Seq::<Room>::empty());
    assert(sorted_by_id(rooms@.subrange(0, 1).drop_last()) =~= Seq::<Room>::empty());
    assert(sorted_by_id(rooms@.subrange(0, 1)) =~= rooms@.subrange(0, 1));
    let mut i: usize = 1;
    while i < rooms.len()
        invariant
            1 <= i <= rooms@.len(),
            rooms@.len() == old(rooms)@.len(),
            rooms@.to_multiset() == old(rooms)@.to_multiset(),
            ascending(old(rooms)@) ==> rooms@ == old(rooms)@,
            ascending(rooms@.subrange(0, i as int)),
            rooms@.subrange(0, i as int) == sorted_by_id(old(rooms)@.subrange(0, i as int)),
            rooms@.subrange(i as int, rooms@.len() as int) == old(rooms)@.subrange(
                i as int,
                rooms@.len() as int,
            ),
        decreases rooms@.len() - i,
    {
        let ghost whole = rooms@;
        let ghost front = whole.subrange(0, i as int);
        let room = rooms.remove(i);
        let ghost rest = rooms@;
        let mut p: usize = 0;
        while p < i && rooms[p].id <= room.id
            invariant
                p <= i,
                i <= rooms@.len(),
                rooms@ == rest,
                forall|j: int| 0 <= j < p ==> rooms@[j].id <= room.id,
            decreases i - p,
        {
            p += 1;
        }
        rooms.insert(p, room);
        proof {
            broadcast use vstd::multiset::group_multiset_axioms;

            to_multiset_remove(whole, i as int);
            to_multiset_insert(rest, p as int, room);
            assert(whole.contains(whole[i as int]));
            to_multiset_contains(whole, whole[i as int]);
            assert(rooms@.to_multiset() =~= whole.to_multiset());
            if ascending(whole) {
                assert(p == i) by {
                    if p < i {
                        assert(whole[p as int].id <= whole[i as int].id);
                    }
                }
                assert(rooms@ =~= whole);
            }
            assert forall|j: int| 0 <= j < i implies rest[j] == front[j] by {}
            assert(old(rooms)@[i as int] == room) by {
                assert(whole.subrange(i as int, whole.len() as int)[0] == whole[i as int]);
            }
            lemma_inserted_by_id(front, room, p as int);
            let taken = old(rooms)@.subrange(0, i + 1);
            assert(taken.drop_last() =~= old(rooms)@.subrange(0, i as int));
            assert(taken.last() == room);
            assert(rooms@.subrange(0, i + 1) =~= front.insert(p as int, room));
            assert(rooms@.subrange(i + 1, rooms@.len() as int) =~= old(rooms)@.subrange(
                i + 1,
                rooms@.len() as int,
            )) by {
                assert forall|j: int| i + 1 <= j < whole.len() implies rooms@[j] == old(rooms)@[j] by {
                    assert(whole.subrange(i as int, whole.len() as int)[j - i] == whole[j]);
                }
            }
            let grown = rooms@.subrange(0, i + 1);
            assert forall|a: int, b: int| 0 <= a < b < grown.len() implies grown[a].id
                <= grown[b].id by {
                if a != p && b != p {
                    let fa = if a < p { a } else { a - 1 };
                    let fb = if b < p { b } else { b - 1 };
                    assert(front[fa].id <= front[fb].id);
                } else if b == p {
                    assert(grown[a] == front[a]);
                } else {
                    assert(grown[b] == front[b - 1]);
                    assert(front[p as int].id <= front[b - 1].id);
                }
            }
        }
        i += 1;
    }
    assert(rooms@.subrange(0, i as int) =~= rooms@);
    assert(old(rooms)@.subrange(0, i as int) =~= old(rooms)@);
}

/// The bytes of the output: the records of the rooms in the order of
/// their ids. The rooms are left in that order.
pub fn write_rooms(rooms: &mut Vec<Room>) -> (r: Vec<u8>)
    ensures
        final(rooms)@ == sorted_by_id(old(rooms)@),
        ascending(final(rooms)@),
        final(rooms)@.to_multiset() == old(rooms)@.to_multiset(),
        ascending(old(rooms)@) ==> final(rooms)@ == old(rooms)@,
        r@ == records_bytes(room_views(final(rooms)@)),
{
    sort_rooms(rooms);
    encode_many(rooms)
}

/// Position of the name that a worklist hands out next: the last one that
/// is no key.
pub open spec fn next_name(pending: Seq<Seq<char>>, keys: Seq<Seq<char>>) -> Option<int>
    decreases pending.len(),
{
    if pending.len() == 0 {
        None
    } else if keys.contains(pending.last()) {
        next_name(pending.drop_last(), keys)
    } else {
        Some(pending.len() - 1)
    }
}

/// Where every name behind position `k` is a key, the worklist hands out
/// the name at `k` if that is no key, and nothing if `k` is -1.
pub proof fn lemma_next_name(pending: Seq<Seq<char>>, keys: Seq<Seq<char>>, k: int)
    requires
        -1 <= k < pending.len(),
        forall|j: int| k < j < pending.len() ==> keys.contains(#[trigger] pending[j]),
        k >= 0 ==> !keys.contains(pending[k]),
    ensures
        next_name(pending, keys) == if k >= 0 {
            Some(k)
        } else {
            None
        },
    decreases pending.len(),
{
    if pending.len() > 0 && k < pending.len() - 1 {
        assert(keys.contains(pending[pending.len() - 1]));
        lemma_next_name(pending.drop_last(), keys, k);
    }
}

/// In every state of a traversal the rooms carry the
/// ids 1, 2, 3, ... in the order of their registration, none above 128 and
/// none twice, and no name is registered twice.
pub proof fn lemma_ids_dense_and_unique(loader: Loader)
    requires
        loader.wf(),
    ensures
        loader.discovered@.len() <= MAX_ROOMS,
        forall|i: int|
            0 <= i < loader.discovered@.len() ==> (#[trigger] loader.discovered@[i]).room.id == i
                + 1,
        forall|i: int, j: int|
            0 <= i < loader.discovered@.len() && 0 <= j < loader.discovered@.len() && i != j ==> (
            #[trigger] loader.discovered@[i]).room.id != (#[trigger] loader.discovered@[j]).room.id,
        forall|i: int, j: int|
            0 <= i < j < loader.discovered@.len() ==> #[trigger] loader.keys()[i]
                != #[trigger] loader.keys()[j],
{
    assert forall|i: int, j: int| 0 <= i < j < loader.discovered@.len() implies (
    #[trigger] loader.keys()[i]) != (#[trigger] loader.keys()[j]) by {
        assert(loader.discovered@[i].key@ != loader.discovered@[j].key@);
    }
}

/// Rooms in the order of their ids, no two with the same id, are in
/// strictly ascending order.
pub proof fn lemma_ascending_is_strict(rooms: Seq<Room>)
    requires
        ascending(rooms),
        forall|i: int, j: int| 0 <= i < j < rooms.len() ==> rooms[i].id != rooms[j].id,
    ensures
        forall|i: int, j: int| 0 <= i < j < rooms.len() ==> rooms[i].id < rooms[j].id,
{
}

/// A link is followed: it is empty, or a room is registered under its
/// name, or its name waits on the worklist.
pub open spec fn link_followed(
    link: Option<Seq<char>>,
    keys: Seq<Seq<char>>,
    pending: Seq<Seq<char>>,
) -> bool {
    match link {
        None => true,
        Some(name) => keys.contains(name) || pending.contains(name),
    }
}

/// Each of a room's six links is followed.
pub open spec fn links_followed(
    room: IntermediateView,
    keys: Seq<Seq<char>>,
    pending: Seq<Seq<char>>,
) -> bool {
    &&& link_followed(room.north, keys, pending)
    &&& link_followed(room.east, keys, pending)
    &&& link_followed(room.south, keys, pending)
    &&& link_followed(room.west, keys, pending)
    &&& link_followed(room.up, keys, pending)
    &&& link_followed(room.down, keys, pending)
}

/// The name that a worklist hands out is no key, and every name behind it
/// is one; where it hands out none, every name on it is a key.
pub proof fn lemma_next_name_found(pending: Seq<Seq<char>>, keys: Seq<Seq<char>>)
    ensures
        match next_name(pending, keys) {
            Some(k) => 0 <= k < pending.len() && !keys.contains(pending[k]) && forall|j: int|
                k < j < pending.len() ==> keys.contains(#[trigger] pending[j]),
            None => forall|j: int| 0 <= j < pending.len() ==> keys.contains(#[trigger] pending[j]),
        },
    decreases pending.len(),
{
    if pending.len() > 0 && keys.contains(pending.last()) {
        lemma_next_name_found(pending.drop_last(), keys);
        let front = pending.drop_last();
        match next_name(front, keys) {
            Some(k) => {
                assert forall|j: int| k < j < pending.len() implies keys.contains(
                    #[trigger] pending[j],
                ) by {
                    if j < front.len() {
                        assert(front[j] == pending[j]);
                    }
                }
            },
            None => {
                assert forall|j: int| 0 <= j < pending.len() implies keys.contains(
                    #[trigger] pending[j],
                ) by {
                    if j < front.len() {
                        assert(front[j] == pending[j]);
                    }
                }
            },
        }
    }
}

/// Looking at a link takes no name off the worklist, and leaves the link
/// followed.
pub proof fn lemma_with_link_follows(
    pending: Seq<Seq<char>>,
    keys: Seq<Seq<char>>,
    link: Option<Seq<char>>,
)
    ensures
        link_followed(link, keys, with_link(pending, keys, link)),
        forall|name: Seq<char>|
            pending.contains(name) ==> #[trigger] with_link(pending, keys, link).contains(name),
{
    let after = with_link(pending, keys, link);
    assert forall|name: Seq<char>| pending.contains(name) implies #[trigger] after.contains(
        name,
    ) by {
        let i = pending.index_of(name);
        assert(after[i] == name);
    }
    match link {
        Some(name) => {
            if !keys.contains(name) {
                assert(after[pending.len() as int] == name);
            }
        },
        None => {},
    }
}

/// Looking at the six links of a room takes no name off the worklist, and
/// leaves each of the six followed.
pub proof fn lemma_with_links_follows(
    pending: Seq<Seq<char>>,
    keys: Seq<Seq<char>>,
    room: IntermediateView,
)
    ensures
        links_followed(room, keys, with_links(pending, keys, room)),
        forall|name: Seq<char>|
            pending.contains(name) ==> #[trigger] with_links(pending, keys, room).contains(name),
{
    let n = with_link(pending, keys, room.north);
    let e = with_link(n, keys, room.east);
    let s = with_link(e, keys, room.south);
    let w = with_link(s, keys, room.west);
    let u = with_link(w, keys, room.up);
    let d = with_link(u, keys, room.down);
    lemma_with_link_follows(pending, keys, room.north);
    lemma_with_link_follows(n, keys, room.east);
    lemma_with_link_follows(e, keys, room.south);
    lemma_with_link_follows(s, keys, room.west);
    lemma_with_link_follows(w, keys, room.up);
    lemma_with_link_follows(u, keys, room.down);
    assert forall|name: Seq<char>| pending.contains(name) implies d.contains(name) by {
        assert(n.contains(name));
        assert(e.contains(name));
        assert(s.contains(name));
        assert(w.contains(name));
        assert(u.contains(name));
    }
    assert(link_followed(room.north, keys, d)) by {
        if room.north is Some && !keys.contains(room.north->0) {
            let name = room.north->0;
            assert(n.contains(name));
            assert(e.contains(name));
            assert(s.contains(name));
            assert(w.contains(name));
            assert(u.contains(name));
        }
    }
    assert(link_followed(room.east, keys, d)) by {
        if room.east is Some && !keys.contains(room.east->0) {
            let name = room.east->0;
            assert(e.contains(name));
            assert(s.contains(name));
            assert(w.contains(name));
            assert(u.contains(name));
        }
    }
    assert(link_followed(room.south, keys, d)) by {
        if room.south is Some && !keys.contains(room.south->0) {
            let name = room.south->0;
            assert(s.contains(name));
            assert(w.contains(name));
            assert(u.contains(name));
        }
    }
    assert(link_followed(room.west, keys, d)) by {
        if room.west is Some && !keys.contains(room.west->0) {
            let name = room.west->0;
            assert(w.contains(name));
            assert(u.contains(name));
        }
    }
    assert(link_followed(room.up, keys, d)) by {
        if room.up is Some && !keys.contains(room.up->0) {
            let name = room.up->0;
            assert(u.contains(name));
        }
    }
}

/// A room's links stay followed while no key is lost and every name that
/// leaves the worklist is a key.
pub proof fn lemma_links_stay_followed(
    room: IntermediateView,
    keys: Seq<Seq<char>>,
    pending: Seq<Seq<char>>,
    later_keys: Seq<Seq<char>>,
    later_pending: Seq<Seq<char>>,
)
    requires
        links_followed(room, keys, pending),
        forall|name: Seq<char>| #[trigger] keys.contains(name) ==> later_keys.contains(name),
        forall|name: Seq<char>| #[trigger]
            pending.contains(name) ==> later_keys.contains(name) || later_pending.contains(name),
    ensures
        links_followed(room, later_keys, later_pending),
{
}

} // verus!
