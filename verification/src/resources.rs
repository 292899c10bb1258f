//! Resources and tags that the game world keeps: the allocator of entity ids, the record of
//! destroyed entities, and marker components.
use vstd::prelude::*;
use std::sync::Arc;
use std::sync::atomic::AtomicU32;
use std::sync::atomic::Ordering;
use crate::protocol::EntityId;

verus! {

/// Manages the creation of new `EntityId`s. Clones share the counter.
#[derive(Debug, Clone)]
pub struct EntityAllocator {
    /// The id of the next entity that may be created.
    next: Arc<AtomicU32>,
}

impl Default for EntityAllocator {
    /// An allocator whose first id is 1.
    fn default() -> (a: EntityAllocator) {
        EntityAllocator { next: Arc::new(AtomicU32::new(1)) }
    }
}

impl EntityAllocator {
    /// Get a new `EntityId`: the counter's value, which is then increased (wrapping around).
    /// Another clone may take ids at the same time, so nothing is stated of the value.
    pub fn allocate(&self) -> (id: EntityId) {
        EntityId(self.next.fetch_add(1, Ordering::Relaxed))
    }
}

/// A list of all entities that have been destroyed.
#[derive(Debug, Clone)]
pub struct DeadEntities {
    /// A list of all entities that have been destroyed.
    pub entities: Vec<EntityId>,
}

impl Default for DeadEntities {
    fn default() -> (d: DeadEntities)
        ensures
            d.entities@ == Seq::<EntityId>::empty(),
    {
        DeadEntities { entities: Vec::new() }
    }
}

/// Marks the entity of a player.
#[derive(Debug, Copy, Clone, PartialEq, Eq, Structural)]
pub struct Player;

/// An entity that will never move/change.
#[derive(Debug, Copy, Clone, PartialEq, Eq, Structural)]
pub struct Static;

/// An entity that responds to collisions.
#[derive(Debug, Copy, Clone, PartialEq, Eq, Structural)]
pub struct Moveable;

/// What a tile is made of.
#[derive(Debug, Copy, Clone)]
pub enum TileKind {
    Water,
    Grass,
    Sand,
}

/// What may stand on a tile.
#[derive(Debug, Clone)]
pub struct Slot {}

/// A tile of the map.
#[derive(Debug, Clone)]
pub struct Tile {
    pub slot: Option<Slot>,
    pub kind: TileKind,
}

impl Default for Tile {
    /// An empty water tile.
    fn default() -> (t: Tile)
        ensures
            t.slot is None,
            t.kind is Water,
    {
        Tile { slot: None, kind: TileKind::Water }
    }
}

impl Tile {
    /// The same tile, of another kind.
    pub fn with_kind(self, kind: TileKind) -> (t: Tile)
        ensures
            t.slot == self.slot,
            t.kind == kind,
    {
        Tile { kind, ..self }
    }
}


/// The current health of an entity.
#[derive(Debug, Clone)]
pub struct Health {
    pub max_points: u32,
    pub points: u32,
}

impl Health {
    /// Create a full health bar with a maximum amount of health points.
    pub fn with_max(points: u32) -> (h: Health)
        ensures
            h.max_points == points,
            h.points == points,
    {
        Health { max_points: points, points }
    }

    /// Take `damage` points, stopping at zero; returns whether the entity died.
    pub fn take_damage(&mut self, damage: u32) -> (dead: bool)
        ensures
            final(self).max_points == old(self).max_points,
            final(self).points == (if old(self).points > damage { old(self).points - damage } else { 0 }),
            dead == (final(self).points == 0),
    {
        self.points = self.points.saturating_sub(damage);
        self.points == 0
    }
}

/// An entity that deals damage.
#[derive(Debug, Clone)]
pub struct Projectile {
    /// The amount of damage dealt upon impact.
    pub damage: u32,
}

/// The player that controls an entity.
#[derive(Debug, Copy, Clone)]
pub struct Owner(pub crate::protocol::PlayerId);

/// The model to render an entity with.
#[derive(Debug, Copy, Clone, PartialEq, Eq, Structural, Hash)]
pub enum Model {
    Rect,
    Circle,
    Tree,
    Player,
    Mushroom,
    Cube,
}

} // verus!
