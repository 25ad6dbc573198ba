//! A parsed source map, reduced to the plain values that conversion reads.

use vstd::prelude::*;

verus! {

/// A named string property of the map.
#[derive(Debug, Clone, PartialEq, Eq)]
pub struct Property {
    pub name: String,
    pub value: String,
}

/// A tile palette and the first global id that refers into it.
#[derive(Debug, Clone, PartialEq, Eq)]
pub struct Tileset {
    pub name: String,
    pub first_gid: u32,
}

/// A tile layer; `data` holds the global tile id of each cell, row by row,
/// where the layer carries dense data.
#[derive(Debug, Clone, PartialEq, Eq)]
pub struct Layer {
    pub name: String,
    pub data: Option<Vec<i32>>,
}

/// An object of an object group: the tile it shows, if any, and its
/// position in whole pixels.
#[derive(Debug, Clone, Copy, PartialEq, Eq)]
pub struct MapObject {
    pub gid: Option<u32>,
    pub x: u32,
    pub y: u32,
}

#[derive(Debug, Clone, PartialEq, Eq)]
pub struct ObjectGroup {
    pub name: String,
    pub objects: Vec<MapObject>,
}

#[derive(Debug, Clone, PartialEq, Eq)]
pub struct SourceMap {
    pub width: u32,
    pub height: u32,
    pub tile_width: u32,
    pub tile_height: u32,
    pub properties: Vec<Property>,
    pub tilesets: Vec<Tileset>,
    pub layers: Vec<Layer>,
    pub object_groups: Vec<ObjectGroup>,
}

/// The value of the last property called `name`.
pub open spec fn property_value(properties: Seq<Property>, name: Seq<char>) -> Option<Seq<char>>
    decreases properties.len(),
{
    if properties.len() == 0 {
        None
    } else if properties.last().name@ == name {
        Some(properties.last().value@)
    } else {
        property_value(properties.drop_last(), name)
    }
}

/// The first global id of the last tileset called `name`.
pub open spec fn tileset_first_gid(tilesets: Seq<Tileset>, name: Seq<char>) -> Option<u32>
    decreases tilesets.len(),
{
    if tilesets.len() == 0 {
        None
    } else if tilesets.last().name@ == name {
        Some(tilesets.last().first_gid)
    } else {
        tileset_first_gid(tilesets.drop_last(), name)
    }
}

/// Index of the first layer called `name` at or after `from`; the number of
/// layers where there is none.
pub open spec fn next_layer(layers: Seq<Layer>, name: Seq<char>, from: int) -> int
    decreases layers.len() - from,
{
    if from < 0 || from >= layers.len() {
        layers.len() as int
    } else if layers[from].name@ == name {
        from
    } else {
        next_layer(layers, name, from + 1)
    }
}

/// Index of the first object group called `name` at or after `from`; the
/// number of groups where there is none.
pub open spec fn next_group(groups: Seq<ObjectGroup>, name: Seq<char>, from: int) -> int
    decreases groups.len() - from,
{
    if from < 0 || from >= groups.len() {
        groups.len() as int
    } else if groups[from].name@ == name {
        from
    } else {
        next_group(groups, name, from + 1)
    }
}

/// The view of an optional string.
pub open spec fn text_of(text: Option<String>) -> Option<Seq<char>> {
    match text {
        Some(s) => Some(s@),
        None => None,
    }
}

impl SourceMap {
    /// The value of a map property, the last one where several carry the
    /// name.
    pub fn property(&self, name: &str) -> (r: Option<String>)
        ensures
            text_of(r) == property_value(self.properties@, name@),
    {
        let wanted = name.to_owned();
        let mut found: Option<String> = None;
        let mut i: usize = 0;
        while i < self.properties.len()
            invariant
                i <= self.properties.len(),
                wanted@ == name@,
                text_of(found) == property_value(self.properties@.subrange(0, i as int), name@),
            decreases self.properties.len() - i,
        {
            assert(self.properties@.subrange(0, i + 1).drop_last() =~= self.properties@.subrange(
                0,
                i as int,
            ));
            if self.properties[i].name == wanted {
                found = Some(self.properties[i].value.clone());
            }
            i += 1;
        }
        assert(self.properties@.subrange(0, i as int) =~= self.properties@);
        found
    }

    /// The first global id of a tileset, the last one where several carry
    /// the name.
    pub fn first_gid(&self, name: &str) -> (r: Option<u32>)
        ensures
            r == tileset_first_gid(self.tilesets@, name@),
    {
        let wanted = name.to_owned();
        let mut found: Option<u32> = None;
        let mut i: usize = 0;
        while i < self.tilesets.len()
            invariant
                i <= self.tilesets.len(),
                wanted@ == name@,
                found == tileset_first_gid(self.tilesets@.subrange(0, i as int), name@),
            decreases self.tilesets.len() - i,
        {
            assert(self.tilesets@.subrange(0, i + 1).drop_last() =~= self.tilesets@.subrange(
                0,
                i as int,
            ));
            if self.tilesets[i].name == wanted {
                found = Some(self.tilesets[i].first_gid);
            }
            i += 1;
        }
        assert(self.tilesets@.subrange(0, i as int) =~= self.tilesets@);
        found
    }

    /// Index of the first layer with the name at or after `from`.
    pub fn find_layer(&self, name: &str, from: usize) -> (r: usize)
        ensures
            r == next_layer(self.layers@, name@, from as int),
            r <= self.layers@.len(),
            r < self.layers@.len() ==> from <= r && self.layers@[r as int].name@ == name@,
    {
        let wanted = name.to_owned();
        let mut i: usize = from;
        while i < self.layers.len()
            invariant
                from <= i,
                wanted@ == name@,
                next_layer(self.layers@, name@, from as int) == next_layer(
                    self.layers@,
                    name@,
                    i as int,
                ),
            decreases self.layers.len() - i,
        {
            if self.layers[i].name == wanted {
                return i;
            }
            i += 1;
        }
        self.layers.len()
    }

    /// Index of the first object group with the name at or after `from`.
    pub fn find_group(&self, name: &str, from: usize) -> (r: usize)
        ensures
            r == next_group(self.object_groups@, name@, from as int),
            r <= self.object_groups@.len(),
            r < self.object_groups@.len() ==> from <= r && self.object_groups@[r as int].name@
                == name@,
    {
        let wanted = name.to_owned();
        let mut i: usize = from;
        while i < self.object_groups.len()
            invariant
                from <= i,
                wanted@ == name@,
                next_group(self.object_groups@, name@, from as int) == next_group(
                    self.object_groups@,
                    name@,
                    i as int,
                ),
            decreases self.object_groups.len() - i,
        {
            if self.object_groups[i].name == wanted {
                return i;
            }
            i += 1;
        }
        self.object_groups.len()
    }
}

} // verus!
