use verdant::broadphase::SpatialHash;
use verdant::collision::{BodyKind, Collider, CollisionFlags};
use verdant::entity::Entity;
use verdant::fixed::{fx, Fx};
use verdant::geometry::Rect;
use verdant::grid::{OpenGrid, SolidGrid, TestGrid};
use verdant::layers;
use verdant::solver::{is_position_clear, move_and_slide};
use verdant::vec2::{IVec2, Vec2};

/// A one-unit body, small enough to fit between the test grid's tiles.
fn body() -> Collider {
    Collider::centred(Fx::one(), Fx::one())
}

fn entity(index: u32) -> Entity {
    Entity::from_parts(index, 0)
}

#[test]
    fn feet_anchored_colliders_sit_above_the_position() {
        let collider = Collider::feet_anchored(fx(2), fx(4));
        let bounds = collider.world_bounds(Vec2::from_ints(10, 10));
        assert_eq!(
            bounds.bottom(),
            fx(10),
            "the box's base is at the entity's feet"
        );
        assert_eq!(bounds.top(), fx(6));
        assert_eq!(bounds.left(), fx(9), "and it is centred horizontally");
        assert_eq!(bounds.right(), fx(11));
    }

#[test]
    fn centred_colliders_surround_the_position() {
        let bounds = Collider::centred(fx(2), fx(2)).world_bounds(Vec2::zero());
        assert_eq!(bounds.centre(), Vec2::zero());
    }

#[test]
    fn interaction_requires_both_masks_to_agree() {
        let player = Collider::centred(fx(1), fx(1)).with_layers(layers::PLAYER, layers::TERRAIN);
        let wall = Collider::centred(fx(1), fx(1)).with_layers(layers::TERRAIN, layers::PLAYER);
        assert!(player.interacts_with(&wall));
        assert!(wall.interacts_with(&player));

        // The wall stops considering the player: neither direction interacts.
        let deaf_wall = wall.with_layers(layers::TERRAIN, layers::ENEMY);
        assert!(!player.interacts_with(&deaf_wall));
        assert!(!deaf_wall.interacts_with(&player));
    }

#[test]
    fn collision_flags_merge_without_losing_sides() {
        let horizontal = CollisionFlags {
            left: true,
            ..CollisionFlags::default()
        };
        let vertical = CollisionFlags {
            down: true,
            ..CollisionFlags::default()
        };
        let merged = horizontal.merge(vertical);
        assert!(merged.left && merged.down);
        assert!(merged.any() && merged.horizontal() && merged.vertical());
        assert!(!CollisionFlags::default().any());
    }

#[test]
    fn builders_compose() {
        let sensor = Collider::centred(fx(1), fx(1))
            .with_kind(BodyKind::Kinematic)
            .with_layers(layers::PLAYER, layers::ITEM)
            .as_sensor();
        assert_eq!(sensor.kind, BodyKind::Kinematic);
        assert_eq!(sensor.layer, layers::PLAYER);
        assert!(sensor.sensor);
    }

#[test]
    fn an_open_grid_is_never_solid() {
        let grid = OpenGrid::new(fx(16));
        assert_eq!(grid.tile_size(), fx(16));
        assert!(!grid.is_solid(IVec2::new(0, 0)));
        assert!(!grid.is_solid(IVec2::new(-99, 99)));
    }

#[test]
    fn a_test_grid_reports_only_its_listed_cells() {
        let mut grid = TestGrid::with_solids(fx(8), &[IVec2::new(1, 1)]);
        assert!(grid.is_solid(IVec2::new(1, 1)));
        assert!(!grid.is_solid(IVec2::new(0, 0)));

        grid.set_solid(IVec2::new(0, 0));
        grid.set_solid(IVec2::new(0, 0));
        assert!(grid.is_solid(IVec2::new(0, 0)));
    }

#[test]
    fn unobstructed_movement_is_applied_exactly() {
        let grid = TestGrid::empty(fx(16));
        let result = move_and_slide(&body(), Vec2::zero(), Vec2::from_ints(5, 3), &grid, &[]);
        assert_eq!(result.position, Vec2::from_ints(5, 3));
        assert!(!result.flags.any());
        assert_eq!(result.applied, Vec2::from_ints(5, 3));
    }

#[test]
    fn zero_displacement_is_a_no_op() {
        let grid = TestGrid::empty(fx(16));
        let result = move_and_slide(&body(), Vec2::from_ints(3, 3), Vec2::zero(), &grid, &[]);
        assert_eq!(result.position, Vec2::from_ints(3, 3));
        assert_eq!(result.applied, Vec2::zero());
    }

#[test]
    fn a_body_stops_against_a_solid_tile() {
        // Tile (1, 0) spans x in [16, 32).
        let grid = TestGrid::with_solids(fx(16), &[IVec2::new(1, 0)]);
        let start = Vec2::new(fx(8), fx(8));
        let result = move_and_slide(&body(), start, Vec2::from_ints(20, 0), &grid, &[]);

        assert!(result.flags.right, "the right side should report blocked");
        // The body's right edge stops at the tile's left edge.
        let right_edge = result.position.x + body().bounds.right();
        assert!(
            right_edge <= fx(16),
            "penetrated to {:?}",
            right_edge
        );
        assert!(
            right_edge > fx(16) - Fx::from_ratio(1, 100),
            "stopped short at {:?}",
            right_edge
        );
    }

#[test]
    fn a_body_slides_along_a_wall_instead_of_stopping() {
        let grid = TestGrid::with_solids(fx(16), &[IVec2::new(1, 0), IVec2::new(1, 1)]);
        let start = Vec2::new(fx(8), fx(8));
        // Diagonal into the wall: the x component is blocked, y must survive.
        let result = move_and_slide(&body(), start, Vec2::from_ints(20, 4), &grid, &[]);

        assert!(result.flags.right);
        assert_eq!(
            result.position.y,
            fx(12),
            "the tangential component slid freely"
        );
    }

#[test]
    fn a_fast_body_cannot_tunnel_through_a_thin_wall() {
        // One solid tile, and a body moving many tiles in a single call.
        let grid = TestGrid::with_solids(fx(16), &[IVec2::new(4, 0)]);
        let start = Vec2::new(fx(8), fx(8));
        let result = move_and_slide(&body(), start, Vec2::from_ints(500, 0), &grid, &[]);

        assert!(result.flags.right, "the sweep must catch the wall");
        assert!(
            result.position.x < fx(64),
            "tunnelled to x = {:?}",
            result.position.x
        );
    }

#[test]
    fn movement_is_blocked_in_every_direction() {
        let grid = TestGrid::with_solids(
            fx(16),
            &[
                IVec2::new(1, 0),
                IVec2::new(-1, 0),
                IVec2::new(0, 1),
                IVec2::new(0, -1),
            ],
        );
        let start = Vec2::new(fx(8), fx(8));

        let right = move_and_slide(&body(), start, Vec2::from_ints(30, 0), &grid, &[]);
        assert!(right.flags.right);
        let left = move_and_slide(&body(), start, Vec2::from_ints(-30, 0), &grid, &[]);
        assert!(left.flags.left);
        let down = move_and_slide(&body(), start, Vec2::from_ints(0, 30), &grid, &[]);
        assert!(down.flags.down);
        let up = move_and_slide(&body(), start, Vec2::from_ints(0, -30), &grid, &[]);
        assert!(up.flags.up);
    }

#[test]
    fn entity_blockers_stop_a_body_like_tiles_do() {
        let grid = TestGrid::empty(fx(16));
        let wall = Rect::from_ints(10, -10, 4, 40);
        let result = move_and_slide(
            &body(),
            Vec2::new(fx(0), fx(0)),
            Vec2::from_ints(20, 0),
            &grid,
            &[wall],
        );
        assert!(result.flags.right);
        assert!(result.position.x + body().bounds.right() <= fx(10));
    }

#[test]
    fn a_body_never_moves_backwards_when_resolving() {
        // Start already overlapping a tile; the solver must not fling it away.
        let grid = TestGrid::with_solids(fx(16), &[IVec2::new(0, 0)]);
        let start = Vec2::new(fx(8), fx(8));
        let result = move_and_slide(&body(), start, Vec2::from_ints(4, 0), &grid, &[]);
        assert!(
            result.position.x >= start.x,
            "the body was pushed backwards to {:?}",
            result.position.x
        );
    }

#[test]
    fn resting_against_a_wall_stays_stable_over_many_ticks() {
        let grid = TestGrid::with_solids(fx(16), &[IVec2::new(1, 0)]);
        let mut position = Vec2::new(fx(8), fx(8));
        // Push into the wall every tick; the position must converge and stop
        // changing rather than creeping or jittering.
        for _ in 0..10 {
            position = move_and_slide(&body(), position, Vec2::new(Fx::one(), Fx::zero()), &grid, &[])
                .position;
        }
        let settled = position;
        for _ in 0..10 {
            position = move_and_slide(&body(), position, Vec2::new(Fx::one(), Fx::zero()), &grid, &[])
                .position;
        }
        assert_eq!(position, settled, "a body resting on a wall must not drift");
    }

#[test]
    fn clearance_testing_agrees_with_the_solver() {
        let grid = TestGrid::with_solids(fx(16), &[IVec2::new(1, 0)]);
        assert!(is_position_clear(
            &body(),
            Vec2::new(fx(8), fx(8)),
            &grid,
            &[]
        ));
        assert!(!is_position_clear(
            &body(),
            Vec2::new(fx(20), fx(8)),
            &grid,
            &[]
        ));
    }

#[test]
    fn determinism_the_same_motion_produces_the_same_path() {
        let grid = TestGrid::with_solids(
            fx(16),
            &[
                IVec2::new(2, 0),
                IVec2::new(2, 1),
                IVec2::new(3, 2),
                IVec2::new(-1, 1),
            ],
        );
        let run = || {
            let mut position = Vec2::new(fx(8), fx(8));
            let mut trace = Vec::new();
            for step in 0..200i32 {
                let angle = Fx::tau() * Fx::from_ratio(step, 37);
                let displacement = Vec2::from_angle(angle, Fx::from_ratio(3, 2));
                position = move_and_slide(&body(), position, displacement, &grid, &[]).position;
                trace.push((position.x.to_raw(), position.y.to_raw()));
            }
            trace
        };
        assert_eq!(
            run(),
            run(),
            "identical inputs must trace an identical path"
        );
    }

#[test]
    fn a_query_finds_overlapping_bodies() {
        let mut hash = SpatialHash::new(fx(32));
        hash.insert(entity(1), Rect::from_ints(0, 0, 10, 10), 1);
        hash.insert(entity(2), Rect::from_ints(100, 100, 10, 10), 1);

        let found = hash.query(Rect::from_ints(5, 5, 10, 10), 1);
        assert_eq!(found.len(), 1);
        assert_eq!(found[0].entity, entity(1));
    }

#[test]
    fn a_query_respects_the_layer_mask() {
        let mut hash = SpatialHash::new(fx(32));
        hash.insert(entity(1), Rect::from_ints(0, 0, 10, 10), 0b001);
        hash.insert(entity(2), Rect::from_ints(0, 0, 10, 10), 0b010);

        assert_eq!(hash.query(Rect::from_ints(0, 0, 10, 10), 0b001).len(), 1);
        assert_eq!(hash.query(Rect::from_ints(0, 0, 10, 10), 0b011).len(), 2);
        assert_eq!(hash.query(Rect::from_ints(0, 0, 10, 10), 0b100).len(), 0);
    }

#[test]
    fn a_body_spanning_several_cells_is_reported_once() {
        let mut hash = SpatialHash::new(fx(8));
        // 40 units wide across a cell size of 8: five cells.
        hash.insert(entity(1), Rect::from_ints(0, 0, 40, 40), 1);
        let found = hash.query(Rect::from_ints(0, 0, 40, 40), 1);
        assert_eq!(found.len(), 1, "duplicates across buckets must be filtered");
    }

#[test]
    fn bodies_that_only_share_a_cell_are_not_reported() {
        let mut hash = SpatialHash::new(fx(64));
        // Both land in cell (0, 0) but their bounds are far apart.
        hash.insert(entity(1), Rect::from_ints(0, 0, 4, 4), 1);
        let found = hash.query(Rect::from_ints(50, 50, 4, 4), 1);
        assert!(
            found.is_empty(),
            "the broadphase must still confirm the overlap"
        );
    }

#[test]
    fn query_results_are_sorted_for_determinism() {
        let mut hash = SpatialHash::new(fx(32));
        for index in [7u32, 2, 9, 1, 5] {
            hash.insert(entity(index), Rect::from_ints(0, 0, 10, 10), 1);
        }
        let found = hash.query(Rect::from_ints(0, 0, 10, 10), 1);
        let ids: Vec<u64> = found.iter().map(|entry| entry.entity.to_bits()).collect();
        let mut sorted = ids.clone();
        sorted.sort_unstable();
        assert_eq!(ids, sorted);
    }

#[test]
    fn blockers_exclude_the_querying_body() {
        let mut hash = SpatialHash::new(fx(32));
        hash.insert(entity(1), Rect::from_ints(0, 0, 10, 10), 1);
        hash.insert(entity(2), Rect::from_ints(2, 2, 10, 10), 1);

        let blockers = hash.blockers_for(Rect::from_ints(0, 0, 10, 10), 1, entity(1));
        assert_eq!(blockers.len(), 1, "a body must not block itself");
        assert_eq!(blockers[0], Rect::from_ints(2, 2, 10, 10));
    }

#[test]
    fn clearing_empties_the_hash_but_keeps_it_usable() {
        let mut hash = SpatialHash::new(fx(32));
        hash.insert(entity(1), Rect::from_ints(0, 0, 10, 10), 1);
        hash.clear();
        assert!(hash.is_empty());
        assert!(hash.query(Rect::from_ints(0, 0, 10, 10), 1).is_empty());

        hash.insert(entity(2), Rect::from_ints(0, 0, 10, 10), 1);
        assert_eq!(hash.query(Rect::from_ints(0, 0, 10, 10), 1).len(), 1);
    }

#[test]
    fn negative_coordinates_are_bucketed_correctly() {
        let mut hash = SpatialHash::new(fx(16));
        hash.insert(entity(1), Rect::from_ints(-40, -40, 8, 8), 1);
        let found = hash.query(Rect::from_ints(-40, -40, 8, 8), 1);
        assert_eq!(found.len(), 1, "flooring must handle negative cells");
    }
