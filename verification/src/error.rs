//! Failure reasons of the codec, the validator and the world assembly.

use vstd::prelude::*;

verus! {

/// Why a byte buffer could not be read as room records.
#[derive(Debug, Clone, Copy, PartialEq, Eq, Structural)]
pub enum CodecError {
    /// A length-prefixed string announces more bytes than remain, or its
    /// bytes are not text.
    MalformedString,
    /// The buffer's length is not a whole number of records.
    TruncatedRecord,
}

/// Why a source map was refused. Validation stops at the first failure.
#[derive(Debug, Clone, Copy, PartialEq, Eq, Structural)]
pub enum ValidationError {
    /// The map is not 20 cells wide and 8 cells high.
    BadMapDimensions,
    /// The map's tiles are not 15 by 15 pixels.
    BadTileDimensions,
    MissingTilesTileset,
    MissingObjectsTileset,
    MissingMonstersTileset,
    MissingTilesLayer,
    DuplicateTilesLayer,
    /// The tile layer carries no dense tile data.
    TilesLayerMissingData,
    /// A tile translates to a code outside 1..=84.
    TileOutOfBounds,
    /// The tile layer does not hold exactly 160 tiles.
    TileCountMismatch,
    MissingObjectsGroup,
    DuplicateObjectsGroup,
    MissingMonstersGroup,
    DuplicateMonstersGroup,
    ObjectMissingTile,
    /// An object's tile translates to a code outside `'d'..='w'`.
    ObjectOutOfBounds,
    /// An object's position lies in no cell of the room.
    ObjectOutsideRoom,
    MonsterMissingTile,
    /// A monster's tile translates to a species outside 1..=255.
    MonsterOutOfBounds,
    /// A monster's position lies in no cell of the room.
    MonsterOutsideRoom,
    /// The room's monsters are of more than one species.
    MultipleMonsterSpecies,
    /// The room holds more monsters than its count byte can tell.
    TooManyMonsters,
}

/// Why the traversal of the linked maps was given up.
#[derive(Debug, Clone, Copy, PartialEq, Eq, Structural)]
pub enum TraversalError {
    /// A linked map could not be had.
    MapUnavailable,
    /// More than 128 rooms were discovered.
    TooManyRooms,
    /// A room was handed in under a name that is registered already.
    AlreadyLoaded,
}

/// An internal failure of link resolution.
#[derive(Debug, Clone, Copy, PartialEq, Eq, Structural)]
pub enum ResolutionError {
    /// A room names a neighbour that was never registered.
    DanglingLink,
}

/// Why a conversion was given up. The first failure ends it, and nothing
/// is written.
#[derive(Debug, Clone, Copy, PartialEq, Eq)]
pub enum ConversionError {
    Validation(ValidationError),
    Traversal(TraversalError),
    Resolution(ResolutionError),
}

} // verus!
