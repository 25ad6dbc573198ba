//! The conversion of a set of maps that is held in memory: traversal from
//! the entry map, resolution of the links, and the bytes of the output.

use vstd::prelude::*;

use crate::error::{ConversionError, ResolutionError, TraversalError};
use crate::rms::{
    lemma_records_bytes_layout,
    record_at,
    record_bytes,
    records_bytes,
    room_views,
    RoomView,
    ROOM_AREA,
    ROOM_RECORD_ID_OFFSET,
    ROOM_RECORD_SIZE,
};
use crate::source::SourceMap;
use crate::validate::{lemma_validated_grids, validate_tmx, validated, IntermediateView};
use crate::world::{
    keys_of,
    lemma_links_stay_followed,
    lemma_next_name,
    lemma_next_name_found,
    lemma_with_links_follows,
    links_followed,
    names,
    next_name,
    resolved_room,
    with_links,
    write_rooms,
    Discovered,
    Loader,
    MAX_ROOMS,
};

verus! {

/// A map under the base name of its file.
#[derive(Debug, Clone, PartialEq, Eq)]
pub struct NamedMap {
    pub name: String,
    pub map: SourceMap,
}

/// A traversal as a mathematical value: the worklist, and the names and
/// the rooms that are registered, in the order of their ids.
pub struct Traversal {
    pub pending: Seq<Seq<char>>,
    pub keys: Seq<Seq<char>>,
    pub rooms: Seq<IntermediateView>,
}

/// Index of the first map called `name` at or after `from`; the number of
/// maps where there is none.
pub open spec fn map_index(maps: Seq<NamedMap>, name: Seq<char>, from: int) -> int
    decreases maps.len() - from,
{
    if from < 0 || from >= maps.len() {
        maps.len() as int
    } else if maps[from].name@ == name {
        from
    } else {
        map_index(maps, name, from + 1)
    }
}

/// The traversal run to its end. Each step takes the next name off the
/// worklist, validates the map of that name, gives its room the next id,
/// registers it under the name and queues its links. A missing map, an
/// invalid one and a room beyond the last id each end it.
pub open spec fn traversed(t: Traversal, maps: Seq<NamedMap>) -> Result<Traversal, ConversionError>
    decreases MAX_ROOMS - t.rooms.len(),
{
    match next_name(t.pending, t.keys) {
        None => Ok(Traversal { pending: Seq::empty(), keys: t.keys, rooms: t.rooms }),
        Some(k) => {
            let name = t.pending[k];
            let m = map_index(maps, name, 0);
            if m >= maps.len() {
                Err(ConversionError::Traversal(TraversalError::MapUnavailable))
            } else {
                match validated(maps[m].map) {
                    Err(e) => Err(ConversionError::Validation(e)),
                    Ok(v) => if t.rooms.len() >= MAX_ROOMS {
                        Err(ConversionError::Traversal(TraversalError::TooManyRooms))
                    } else {
                        let keys = t.keys.push(name);
                        traversed(
                            Traversal {
                                pending: with_links(t.pending.subrange(0, k), keys, v),
                                keys,
                                rooms: t.rooms.push(
                                    IntermediateView { id: (t.rooms.len() + 1) as u8, ..v },
                                ),
                            },
                            maps,
                        )
                    },
                }
            }
        },
    }
}

/// The rooms of a finished traversal with their links resolved, in the
/// order of their ids.
pub open spec fn resolved_rooms(t: Traversal) -> Seq<RoomView> {
    Seq::new(t.rooms.len(), |i: int| resolved_room(t.rooms[i], t.keys)->0)
}

/// The output of a finished traversal: the records of its rooms in the
/// order of their ids, unless a link dangles.
pub open spec fn written(t: Traversal) -> Result<Seq<u8>, ConversionError> {
    if exists|i: int| 0 <= i < t.rooms.len() && (#[trigger] resolved_room(t.rooms[i], t.keys)) is None {
        Err(ConversionError::Resolution(ResolutionError::DanglingLink))
    } else {
        Ok(records_bytes(resolved_rooms(t)))
    }
}

/// The output of the conversion that starts at the map called `entry`.
pub open spec fn converted(entry: Seq<char>, maps: Seq<NamedMap>) -> Result<
    Seq<u8>,
    ConversionError,
> {
    match traversed(start_of(entry), maps) {
        Err(e) => Err(e),
        Ok(t) => written(t),
    }
}

/// The rooms of a registry as mathematical values.
pub open spec fn rooms_of(discovered: Seq<Discovered>) -> Seq<IntermediateView> {
    Seq::new(discovered.len(), |i: int| discovered[i].room@)
}

/// A loader's state as a mathematical value.
pub open spec fn traversal_of(loader: Loader) -> Traversal {
    Traversal {
        pending: names(loader.pending@),
        keys: keys_of(loader.discovered@),
        rooms: rooms_of(loader.discovered@),
    }
}

/// Position of the first map with the name.
pub fn find_map(maps: &Vec<NamedMap>, name: &str) -> (r: usize)
    ensures
        r == map_index(maps@, name@, 0),
        r <= maps@.len(),
{
    let wanted = name.to_owned();
    let mut i: usize = 0;
    while i < maps.len()
        invariant
            wanted@ == name@,
            map_index(maps@, name@, 0) == map_index(maps@, name@, i as int),
        decreases maps.len() - i,
    {
        if maps[i].name == wanted {
            return i;
        }
        i += 1;
    }
    maps.len()
}

/// The state in which a traversal starts.
pub open spec fn start_of(entry: Seq<char>) -> Traversal {
    Traversal { pending: seq![entry], keys: Seq::empty(), rooms: Seq::empty() }
}

/// Runs the traversal from the map called `entry` to its end.
pub fn traverse(entry: &str, maps: &Vec<NamedMap>) -> (r: Result<Loader, ConversionError>)
    ensures
        match r {
            Ok(loader) => loader.wf() && traversed(start_of(entry@), maps@) == Ok::<
                Traversal,
                ConversionError,
            >(traversal_of(loader)),
            Err(e) => traversed(start_of(entry@), maps@) == Err::<Traversal, ConversionError>(e),
        },
{
    let mut loader = Loader::new(entry.to_owned());
    proof {
        let first = traversal_of(loader);
        assert(first.pending =~= start_of(entry@).pending);
        assert(first.keys =~= start_of(entry@).keys);
        assert(first.rooms =~= start_of(entry@).rooms);
    }
    loop
        invariant
            loader.wf(),
            traversed(traversal_of(loader), maps@) == traversed(start_of(entry@), maps@),
        ensures
            traversed(start_of(entry@), maps@) == Ok::<Traversal, ConversionError>(
                traversal_of(loader),
            ),
        decreases MAX_ROOMS - loader.discovered@.len(),
    {
        let ghost before = traversal_of(loader);
        let name = match loader.next() {
            Some(name) => name,
            None => {
                proof {
                    lemma_next_name(before.pending, before.keys, -1);
                    assert(traversal_of(loader).pending =~= Seq::<Seq<char>>::empty());
                }
                break ;
            },
        };
        let ghost k = loader.pending@.len() as int;
        proof {
            lemma_next_name(before.pending, before.keys, k);
            assert(before.pending[k] == name@);
            assert(traversal_of(loader).pending =~= before.pending.subrange(0, k));
        }
        let m: usize = find_map(maps, name.as_str());
        if m >= maps.len() {
            return Err(ConversionError::Traversal(TraversalError::MapUnavailable));
        }
        let room = match validate_tmx(&maps[m].map) {
            Ok(room) => room,
            Err(e) => {
                return Err(ConversionError::Validation(e));
            },
        };
        let ghost v = room@;
        match loader.register(name, room) {
            Err(e) => {
                return Err(ConversionError::Traversal(e));
            },
            Ok(id) => {
                proof {
                    let after = traversal_of(loader);
                    assert(after.keys =~= before.keys.push(name@));
                    assert(after.rooms =~= before.rooms.push(IntermediateView { id, ..v }));
                }
            },
        }
    }
    Ok(loader)
}

/// Resolves the links of the rooms of a traversal and writes their
/// records in the order of their ids.
pub fn finish(loader: &Loader) -> (r: Result<Vec<u8>, ConversionError>)
    requires
        loader.wf(),
    ensures
        match r {
            Ok(bytes) => written(traversal_of(*loader)) == Ok::<Seq<u8>, ConversionError>(bytes@),
            Err(e) => written(traversal_of(*loader)) == Err::<Seq<u8>, ConversionError>(e),
        },
{
    let ghost end = traversal_of(*loader);
    match loader.resolve() {
        Err(e) => {
            proof {
                let i = choose|i: int|
                    0 <= i < loader.discovered@.len() && resolved_room(
                        (#[trigger] loader.discovered@[i]).room@,
                        loader.keys(),
                    ) is None;
                assert(resolved_room(end.rooms[i], end.keys) is None);
            }
            Err(ConversionError::Resolution(e))
        },
        Ok(rooms) => {
            let mut rooms = rooms;
            let ghost resolved = rooms@;
            let bytes = write_rooms(&mut rooms);
            proof {
                assert(rooms@ == resolved);
                assert forall|i: int| 0 <= i < end.rooms.len() implies !(#[trigger] resolved_room(
                    end.rooms[i],
                    end.keys,
                ) is None) by {
                    assert(resolved_room(loader.discovered@[i].room@, loader.keys()) == Some(
                        resolved[i]@,
                    ));
                }
                assert(room_views(rooms@) =~= resolved_rooms(end)) by {
                    assert forall|i: int| 0 <= i < resolved.len() implies room_views(resolved)[i]
                        == resolved_rooms(end)[i] by {
                        assert(resolved_room(loader.discovered@[i].room@, loader.keys()) == Some(
                            resolved[i]@,
                        ));
                    }
                }
            }
            Ok(bytes)
        },
    }
}

/// Converts the world that is reached from the map called `entry`: the
/// bytes of the output file, or the first failure. The result depends on
/// the arguments alone, so the same maps give the same bytes every time.
pub fn convert(entry: &str, maps: &Vec<NamedMap>) -> (r: Result<Vec<u8>, ConversionError>)
    ensures
        match r {
            Ok(bytes) => converted(entry@, maps@) == Ok::<Seq<u8>, ConversionError>(bytes@),
            Err(e) => converted(entry@, maps@) == Err::<Seq<u8>, ConversionError>(e),
        },
{
    match traverse(entry, maps) {
        Err(e) => Err(e),
        Ok(loader) => finish(&loader),
    }
}

/// The rooms of a traversal carry the ids 1, 2, 3, ... in their order,
/// none above 128, and have grids of a room's area; each is registered
/// under a name of its own.
pub open spec fn orderly(t: Traversal) -> bool {
    &&& t.rooms.len() <= MAX_ROOMS
    &&& t.keys.len() == t.rooms.len()
    &&& forall|i: int, j: int| 0 <= i < j < t.keys.len() ==> t.keys[i] != t.keys[j]
    &&& forall|i: int|
        0 <= i < t.rooms.len() ==> (#[trigger] t.rooms[i]).id == i + 1 && t.rooms[i].tiles.len()
            == ROOM_AREA && t.rooms[i].objects.len() == ROOM_AREA
}

/// A traversal that is orderly stays so to its end.
pub proof fn lemma_traversed_orderly(t: Traversal, maps: Seq<NamedMap>)
    requires
        orderly(t),
    ensures
        traversed(t, maps) matches Ok(u) ==> orderly(u),
    decreases MAX_ROOMS - t.rooms.len(),
{
    lemma_next_name_found(t.pending, t.keys);
    match next_name(t.pending, t.keys) {
        None => {},
        Some(k) => {
            let name = t.pending[k];
            let m = map_index(maps, name, 0);
            if m < maps.len() && t.rooms.len() < MAX_ROOMS {
                if let Ok(v) = validated(maps[m].map) {
                    lemma_validated_grids(maps[m].map);
                    let keys = t.keys.push(name);
                    let next = Traversal {
                        pending: with_links(t.pending.subrange(0, k), keys, v),
                        keys,
                        rooms: t.rooms.push(
                            IntermediateView { id: (t.rooms.len() + 1) as u8, ..v },
                        ),
                    };
                    assert forall|i: int, j: int| 0 <= i < j < keys.len() implies keys[i]
                        != keys[j] by {
                        if j == t.keys.len() {
                            assert(t.keys[i] == keys[i]);
                            assert(t.keys.contains(keys[i]));
                        } else {
                            assert(t.keys[i] != t.keys[j]);
                        }
                    }
                    assert(orderly(next));
                    lemma_traversed_orderly(next, maps);
                }
            }
        },
    }
}

/// Whatever the maps and their
/// links, the output holds at most 128 whole records, and the record at
/// position `i` carries the id `i + 1`. So the ids rise strictly from
/// record to record, start at 1 and leave no gap.
pub proof fn lemma_converted_in_id_order(entry: Seq<char>, maps: Seq<NamedMap>)
    ensures
        converted(entry, maps) matches Ok(bytes) ==> {
            &&& bytes.len() as int % ROOM_RECORD_SIZE as int == 0
            &&& bytes.len() as int / ROOM_RECORD_SIZE as int <= MAX_ROOMS
            &&& forall|i: int|
                0 <= i < bytes.len() as int / ROOM_RECORD_SIZE as int ==> (#[trigger] record_at(
                    bytes,
                    i,
                ))[ROOM_RECORD_ID_OFFSET as int] == i + 1
        },
{
    if let Ok(bytes) = converted(entry, maps) {
        let t = traversed(start_of(entry), maps)->Ok_0;
        lemma_traversed_orderly(start_of(entry), maps);
        let rooms = resolved_rooms(t);
        assert forall|j: int| 0 <= j < rooms.len() implies (#[trigger] rooms[j]).tiles.len()
            == ROOM_AREA && rooms[j].objects.len() == ROOM_AREA && rooms[j].id == j + 1 by {
            assert(!(resolved_room(t.rooms[j], t.keys) is None));
        }
        lemma_records_bytes_layout(rooms);
        assert(bytes.len() == 360 * rooms.len());
        assert forall|i: int| 0 <= i < bytes.len() as int / ROOM_RECORD_SIZE as int implies (
        #[trigger] record_at(bytes, i))[ROOM_RECORD_ID_OFFSET as int] == i + 1 by {
            assert(record_at(bytes, i) == record_bytes(rooms[i]));
        }
    }
}

/// Every link of every room of a traversal is followed.
pub open spec fn all_followed(t: Traversal) -> bool {
    forall|i: int|
        0 <= i < t.rooms.len() ==> links_followed(#[trigger] t.rooms[i], t.keys, t.pending)
}

/// A traversal in which every link is followed ends, if it ends well, with
/// an empty worklist and a room registered under the name of every link.
/// If it fails, then not in resolution.
pub proof fn lemma_traversed_follows(t: Traversal, maps: Seq<NamedMap>)
    requires
        all_followed(t),
    ensures
        traversed(t, maps) matches Ok(u) ==> all_followed(u) && u.pending.len() == 0,
        !(traversed(t, maps) matches Err(ConversionError::Resolution(_))),
    decreases MAX_ROOMS - t.rooms.len(),
{
    lemma_next_name_found(t.pending, t.keys);
    match next_name(t.pending, t.keys) {
        None => {
            let u = Traversal { pending: Seq::empty(), keys: t.keys, rooms: t.rooms };
            assert forall|name: Seq<char>| #[trigger] t.pending.contains(name) implies t.keys.contains(
                name,
            ) by {
                let j = t.pending.index_of(name);
                assert(t.keys.contains(t.pending[j]));
            }
            assert forall|i: int| 0 <= i < u.rooms.len() implies links_followed(
                #[trigger] u.rooms[i],
                u.keys,
                u.pending,
            ) by {
                lemma_links_stay_followed(t.rooms[i], t.keys, t.pending, u.keys, u.pending);
            }
        },
        Some(k) => {
            let name = t.pending[k];
            let m = map_index(maps, name, 0);
            if m < maps.len() && t.rooms.len() < MAX_ROOMS {
                if let Ok(v) = validated(maps[m].map) {
                    let keys = t.keys.push(name);
                    let front = t.pending.subrange(0, k);
                    let pending = with_links(front, keys, v);
                    let room = IntermediateView { id: (t.rooms.len() + 1) as u8, ..v };
                    let next = Traversal { pending, keys, rooms: t.rooms.push(room) };
                    lemma_with_links_follows(front, keys, v);
                    assert(keys[t.keys.len() as int] == name);
                    assert forall|other: Seq<char>| #[trigger]
                        t.keys.contains(other) implies keys.contains(other) by {
                        let j = t.keys.index_of(other);
                        assert(keys[j] == other);
                    }
                    assert forall|other: Seq<char>| #[trigger]
                        t.pending.contains(other) implies keys.contains(other) || pending.contains(
                        other,
                    ) by {
                        let j = t.pending.index_of(other);
                        if j < k {
                            assert(front[j] == other);
                            assert(front.contains(other));
                        } else if j > k {
                            assert(t.keys.contains(t.pending[j]));
                        }
                    }
                    assert forall|i: int| 0 <= i < next.rooms.len() implies links_followed(
                        #[trigger] next.rooms[i],
                        next.keys,
                        next.pending,
                    ) by {
                        if i < t.rooms.len() {
                            lemma_links_stay_followed(t.rooms[i], t.keys, t.pending, keys, pending);
                        }
                    }
                    lemma_traversed_follows(next, maps);
                }
            }
        },
    }
}

/// No conversion ends on a dangling link: when the traversal has come to
/// its end, a room is registered under the name of every link.
pub proof fn lemma_converted_never_dangles(entry: Seq<char>, maps: Seq<NamedMap>)
    ensures
        !(converted(entry, maps) matches Err(ConversionError::Resolution(_))),
{
    lemma_traversed_follows(start_of(entry), maps);
    if let Ok(t) = traversed(start_of(entry), maps) {
        assert forall|i: int| 0 <= i < t.rooms.len() implies !(#[trigger] resolved_room(
            t.rooms[i],
            t.keys,
        ) is None) by {
            assert(links_followed(t.rooms[i], t.keys, t.pending));
            assert forall|name: Seq<char>| !t.pending.contains(name) by {}
        }
    }
}

} // verus!
