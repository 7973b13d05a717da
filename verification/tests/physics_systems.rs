use verdant::collision::{BodyKind, Collider, Transform, Velocity};
use verdant::entity::Entity;
use verdant::fixed::{fx, Fx};
use verdant::grid::{OpenGrid, TestGrid};
use verdant::layers;
use verdant::physics::{seek, PhysicsConfig, PhysicsWorld, SensorOverlap};
use verdant::vec2::{IVec2, Vec2};

fn walking_body() -> Collider {
    Collider::centred(Fx::one(), Fx::one())
        .with_kind(BodyKind::Kinematic)
        .with_layers(layers::PLAYER, layers::ALL)
}

fn wall_body() -> Collider {
    Collider::centred(fx(4), fx(4)).with_layers(layers::TERRAIN, layers::ALL)
}

fn e(index: u32) -> Entity {
    Entity::from_parts(index, 0)
}

#[test]
fn the_default_configuration() {
    let config = PhysicsConfig::default();
    assert_eq!(config.cell_size, fx(32));
    assert_eq!(config.sleep_threshold, Fx::from_ratio(1, 1000));
}

#[test]
fn a_moving_body_advances_by_its_velocity() {
    let physics = PhysicsWorld::default();
    let grid = OpenGrid::new(fx(16));
    let body = (e(0), Transform::at(Vec2::zero()), Velocity::new(fx(10), Fx::zero()), walking_body());
    let result = physics
        .move_body(body, Fx::from_ratio(1, 2), &grid, &[(e(0), walking_body())]);
    assert_eq!(result.position.x, fx(5), "10 units/s for half a second is 5 units");
}

#[test]
fn static_sensor_and_sleeping_bodies_do_not_move() {
    let physics = PhysicsWorld::default();
    let bodies = [
        (e(0), Transform::at(Vec2::zero()), Velocity::new(fx(1), Fx::zero()), walking_body()),
        (e(1), Transform::at(Vec2::zero()), Velocity::new(fx(1), Fx::zero()), wall_body()),
        (e(2), Transform::at(Vec2::zero()), Velocity::new(fx(1), Fx::zero()), walking_body().as_sensor()),
        (e(3), Transform::at(Vec2::zero()), Velocity::zero(), walking_body()),
        (e(4), Transform::at(Vec2::zero()), Velocity::new(Fx::from_ratio(1, 10000), Fx::zero()), walking_body()),
    ];
    let movers = physics.movers(&bodies);
    assert_eq!(movers.len(), 1);
    assert_eq!(movers[0].0, e(0));
}

#[test]
fn a_wall_body_stops_a_walker() {
    let mut physics = PhysicsWorld::default();
    let grid = OpenGrid::new(fx(16));
    let walker = (e(0), Transform::at(Vec2::zero()), Velocity::new(fx(20), Fx::zero()), walking_body());
    let wall = (e(1), Transform::at_ints(6, 0), wall_body());
    physics.rebuild_broadphase(&[(e(0), walker.1, walker.3), wall]);
    let colliders = [(e(0), walker.3), (e(1), wall.2)];
    let result = physics.move_body(walker, Fx::one(), &grid, &colliders);
    assert!(result.position.x < fx(4), "stopped at the wall, got {:?}", result.position.x);
    assert!(result.flags.right);
}

#[test]
fn a_tile_stops_a_walker() {
    let physics = PhysicsWorld::default();
    let grid = TestGrid::with_solids(fx(16), &[IVec2::new(1, 0)]);
    let walker = (e(0), Transform::at_ints(8, 8), Velocity::new(fx(40), Fx::zero()), walking_body());
    let result = physics.move_body(walker, Fx::one(), &grid, &[]);
    assert!(result.position.x < fx(16));
    assert!(result.flags.right);
}

#[test]
fn sensors_report_what_is_inside_in_order() {
    let mut physics = PhysicsWorld::default();
    let sensor = Collider::centred(fx(10), fx(10)).as_sensor().with_layers(layers::INTERACTABLE, layers::ALL);
    let inside_b = walking_body();
    let outside = walking_body();
    let transforms = [
        (e(5), Transform::at(Vec2::zero()), sensor),
        (e(2), Transform::at_ints(1, 1), inside_b),
        (e(7), Transform::at_ints(2, -1), inside_b),
        (e(3), Transform::at_ints(100, 100), outside),
    ];
    physics.rebuild_broadphase(&transforms);
    let colliders: Vec<(Entity, Collider)> = transforms.iter().map(|(e, _, c)| (*e, *c)).collect();
    let bounds = sensor.world_bounds(Vec2::zero());
    physics.collect_overlaps(&[(e(5), bounds, sensor)], &colliders);
    assert_eq!(
        physics.overlaps(),
        &[
            SensorOverlap { sensor: e(5), other: e(2) },
            SensorOverlap { sensor: e(5), other: e(7) },
        ]
    );
    assert!(physics.is_overlapping(e(5), e(7)));
    assert!(!physics.is_overlapping(e(5), e(3)));
    assert_eq!(physics.contents_of(e(5)), vec![e(2), e(7)]);
    assert!(physics.contents_of(e(2)).is_empty());
}

#[test]
fn a_sensor_ignores_layers_it_does_not_watch() {
    let mut physics = PhysicsWorld::default();
    let sensor = Collider::centred(fx(10), fx(10)).as_sensor().with_layers(layers::INTERACTABLE, layers::PLAYER);
    let npc = walking_body().with_layers(layers::NPC, layers::ALL);
    let bodies = [(e(0), Transform::at(Vec2::zero()), sensor), (e(1), Transform::at(Vec2::zero()), npc)];
    physics.rebuild_broadphase(&bodies);
    physics.collect_overlaps(&[(e(0), sensor.world_bounds(Vec2::zero()), sensor)], &[(e(0), sensor), (e(1), npc)]);
    assert!(physics.overlaps().is_empty());
}

#[test]
fn blockers_leave_out_sensors_and_the_body_itself() {
    let mut physics = PhysicsWorld::default();
    let wall = wall_body();
    let trigger = wall_body().as_sensor();
    let body = walking_body();
    let bodies = [
        (e(0), Transform::at(Vec2::zero()), body),
        (e(1), Transform::at_ints(2, 0), wall),
        (e(2), Transform::at_ints(2, 0), trigger),
    ];
    physics.rebuild_broadphase(&bodies);
    let colliders: Vec<(Entity, Collider)> = bodies.iter().map(|(e, _, c)| (*e, *c)).collect();
    let area = body.world_bounds(Vec2::zero()).union(body.world_bounds(Vec2::from_ints(4, 0)));
    let blockers = physics.solid_blockers(&body, area, e(0), &colliders);
    assert_eq!(blockers, vec![wall.world_bounds(Vec2::from_ints(2, 0))]);
}

#[test]
fn seeking_heads_for_the_target_at_the_given_speed() {
    let velocity = seek(Vec2::zero(), Vec2::from_ints(10, 0), fx(3));
    assert_eq!(velocity, Velocity::new(fx(3), Fx::zero()));
    assert_eq!(seek(Vec2::from_ints(4, 4), Vec2::from_ints(4, 4), fx(3)), Velocity::zero());
}

#[test]
fn an_enormous_displacement_is_moved_in_the_most_sub_steps() {
    let physics = PhysicsWorld::default();
    let grid = OpenGrid::new(fx(16));
    let body = (e(0), Transform::at(Vec2::zero()), Velocity::new(Fx::max_value(), Fx::zero()), walking_body());
    let result = physics.move_body(body, Fx::one(), &grid, &[]);
    assert_eq!(result.position.x, Fx::max_value(), "an open grid lets the whole move through");
}
