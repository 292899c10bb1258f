use rabbit_net::resources::{DeadEntities, EntityAllocator, Health, Tile, TileKind};

#[test]
fn health_takes_damage_down_to_zero() {
    let mut health = Health::with_max(5);
    assert_eq!((health.points, health.max_points), (5, 5));
    assert!(!health.take_damage(2));
    assert_eq!(health.points, 3);
    assert!(health.take_damage(10));
    assert_eq!(health.points, 0);
    assert_eq!(health.max_points, 5);
}

#[test]
fn allocator_hands_out_increasing_ids_shared_by_clones() {
    let allocator = EntityAllocator::default();
    let other = allocator.clone();
    assert_eq!(allocator.allocate().0, 1);
    assert_eq!(other.allocate().0, 2);
    assert_eq!(allocator.allocate().0, 3);
}

#[test]
fn tiles_change_kind_and_start_as_water() {
    let tile = Tile::default();
    assert!(matches!(tile.kind, TileKind::Water));
    assert!(tile.slot.is_none());
    let sand = tile.with_kind(TileKind::Sand);
    assert!(matches!(sand.kind, TileKind::Sand));
    assert!(DeadEntities::default().entities.is_empty());
}
