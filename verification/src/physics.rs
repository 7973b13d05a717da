//! The physics stage's own state and decisions, between ticks and within one.
//!
//! Each tick the stage rebuilds the broadphase from every collider's bounds,
//! moves each awake non-static body with [`move_and_slide`] against the
//! tiles and the bodies that block it, rebuilds the broadphase again, and
//! recomputes which bodies are inside which sensors. The world hands this
//! module the bodies as plain values and writes the results back.
use crate::broadphase::{hash_hit, sorted_by_entity, BroadphaseEntry, SpatialHash};
use crate::collision::{world_box, BodyKind, Collider, Transform, Velocity};
use crate::entity::Entity;
use crate::fixed::{fx_int, fx_ratio, Fx};
use crate::geometry::Rect;
use crate::grid::SolidGrid;
use crate::rng::lemma_swap_preserves_multiset;
use crate::solver::{move_and_slide, slide, MoveResult};
use crate::vec2::{v2, v2_length_squared, v2_normalize, v2_scale, v2_sub, Vec2};
use vstd::prelude::*;

verus! {

/// Tunable constants for the physics stage.
#[derive(Clone, Copy, Debug, PartialEq, Eq, Structural)]
pub struct PhysicsConfig {
    /// Broadphase cell size.
    pub cell_size: Fx,
    /// Bodies whose squared speed is below this are treated as stationary.
    pub sleep_threshold: Fx,
}

impl Default for PhysicsConfig {
    /// Cells of 32 units; a sleep threshold of a thousandth.
    fn default() -> (r: PhysicsConfig)
        ensures
            r == (PhysicsConfig { cell_size: fx_int(32), sleep_threshold: fx_ratio(1, 1000) }),
    {
        PhysicsConfig { cell_size: Fx::from_num(32), sleep_threshold: Fx::from_ratio(1, 1000) }
    }
}

/// A body inside a sensor.
#[derive(Clone, Copy, Debug, PartialEq, Eq, Structural)]
pub struct SensorOverlap {
    /// The sensor.
    pub sensor: Entity,
    /// The body inside it.
    pub other: Entity,
}

/// The order overlaps are reported in: by sensor, then by the body inside,
/// each by its packed handle.
pub open spec fn overlap_key(p: SensorOverlap) -> (int, int) {
    (
        p.sensor.generation * 0x1_0000_0000 + p.sensor.index,
        p.other.generation * 0x1_0000_0000 + p.other.index,
    )
}

/// `a` comes no later than `b` in report order.
pub open spec fn overlap_le(a: SensorOverlap, b: SensorOverlap) -> bool {
    let (a1, a2) = overlap_key(a);
    let (b1, b2) = overlap_key(b);
    a1 < b1 || (a1 == b1 && a2 <= b2)
}

/// The collider recorded for `e`: the first entry for it.
pub open spec fn collider_of(colliders: Seq<(Entity, Collider)>, e: Entity) -> Option<Collider>
    decreases colliders.len(),
{
    if colliders.len() == 0 {
        None
    } else if colliders[0].0 == e {
        Some(colliders[0].1)
    } else {
        collider_of(colliders.drop_first(), e)
    }
}

/// Each collider's mask accepts the other's layer.
pub open spec fn interact(a: Collider, b: Collider) -> bool {
    (a.mask & b.layer) != 0 && (b.mask & a.layer) != 0
}

/// The body moves this tick: it is neither static nor a sensor, and its
/// squared speed reaches the sleep threshold.
pub open spec fn wakes(body: (Entity, Transform, Velocity, Collider), threshold: Fx) -> bool {
    &&& body.3.kind != BodyKind::Static
    &&& !body.3.sensor
    &&& !(v2_length_squared(body.2.0).0 < threshold.0)
}

/// A broadphase entry blocks a body: it is another entity, with a collider
/// that is not a sensor and interacts with the body's.
pub open spec fn blocks(
    e: BroadphaseEntry,
    collider: Collider,
    exclude: Entity,
    colliders: Seq<(Entity, Collider)>,
) -> bool {
    &&& e.entity != exclude
    &&& collider_of(colliders, e.entity) matches Some(other)
    &&& !other.sensor
    &&& interact(collider, other)
}

/// `other` is inside `sensor`, which has `bounds` and `collider`: the
/// broadphase reports it there, it is not the sensor itself, and the two
/// colliders interact.
pub open spec fn senses(
    entries: Seq<BroadphaseEntry>,
    cell_size: Fx,
    sensor: (Entity, Rect, Collider),
    colliders: Seq<(Entity, Collider)>,
    other: Entity,
) -> bool {
    &&& exists|k: int|
        0 <= k < entries.len() && #[trigger] entries[k].entity == other && hash_hit(
            entries[k],
            sensor.1,
            sensor.2.mask,
            cell_size,
        )
    &&& other != sensor.0
    &&& collider_of(colliders, other) matches Some(c)
    &&& interact(sensor.2, c)
}

/// Physics state kept between ticks: the configuration, the broadphase
/// (so its allocations are reused) and the overlaps of the last step.
pub struct PhysicsWorld {
    config: PhysicsConfig,
    broadphase: SpatialHash,
    overlaps: Vec<SensorOverlap>,
}

impl PhysicsWorld {
    /// The configuration.
    pub closed spec fn config_spec(&self) -> PhysicsConfig {
        self.config
    }

    /// What the broadphase holds.
    pub closed spec fn entries(&self) -> Seq<BroadphaseEntry> {
        self.broadphase.entries()
    }

    /// The overlaps of the last step.
    pub closed spec fn overlaps_spec(&self) -> Seq<SensorOverlap> {
        self.overlaps@
    }

    /// The broadphase is well formed and uses the configured cell size.
    pub closed spec fn wf(&self) -> bool {
        &&& self.broadphase.wf()
        &&& self.broadphase.cell_size_spec() == self.config.cell_size
    }

    /// Physics state with the given configuration; the cell size
    /// must be positive.
    pub fn new(config: PhysicsConfig) -> (r: PhysicsWorld)
        requires
            config.cell_size.0 > 0,
        ensures
            r.wf(),
            r.config_spec() == config,
            r.entries() == Seq::<BroadphaseEntry>::empty(),
            r.overlaps_spec() == Seq::<SensorOverlap>::empty(),
    {
        PhysicsWorld { broadphase: SpatialHash::new(config.cell_size), config, overlaps: Vec::new() }
    }

    /// The broadphase, for gameplay queries such as what is near the player.
    pub fn broadphase(&self) -> (r: &SpatialHash)
        ensures
            r.entries() == self.entries(),
            self.wf() ==> r.wf() && r.cell_size_spec() == self.config_spec().cell_size,
    {
        &self.broadphase
    }

    /// The overlaps of the last step, in report order.
    pub fn overlaps(&self) -> (r: &[SensorOverlap])
        ensures
            r@ == self.overlaps_spec(),
    {
        self.overlaps.as_slice()
    }

    /// True when `sensor` currently contains `other`.
    pub fn is_overlapping(&self, sensor: Entity, other: Entity) -> (r: bool)
        ensures
            r == self.overlaps_spec().contains(SensorOverlap { sensor, other }),
    {
        let mut i: usize = 0;
        while i < self.overlaps.len()
            invariant
                i <= self.overlaps@.len(),
                forall|k: int| 0 <= k < i ==> self.overlaps@[k] != (SensorOverlap { sensor, other }),
            decreases self.overlaps@.len() - i,
        {
            let pair = self.overlaps[i];
            if pair.sensor == sensor && pair.other == other {
                return true;
            }
            i = i + 1;
        }
        false
    }

    /// Everything currently inside `sensor`, in report order.
    pub fn contents_of(&self, sensor: Entity) -> (r: Vec<Entity>)
        ensures
            r@ == self.overlaps_spec().filter(|p: SensorOverlap| p.sensor == sensor).map_values(
                |p: SensorOverlap| p.other,
            ),
    {
        let ghost keep = |p: SensorOverlap| p.sensor == sensor;
        let mut out: Vec<Entity> = Vec::new();
        let mut i: usize = 0;
        while i < self.overlaps.len()
            invariant
                i <= self.overlaps@.len(),
                keep == (|p: SensorOverlap| p.sensor == sensor),
                out@ == self.overlaps@.take(i as int).filter(keep).map_values(|p: SensorOverlap| p.other),
            decreases self.overlaps@.len() - i,
        {
            proof {
                reveal(Seq::filter);
                assert(self.overlaps@.take(i + 1).drop_last() =~= self.overlaps@.take(i as int));
                assert(self.overlaps@.take(i + 1).last() == self.overlaps@[i as int]);
            }
            let pair = self.overlaps[i];
            if pair.sensor == sensor {
                out.push(pair.other);
                proof {
                    assert(out@ =~= self.overlaps@.take(i + 1).filter(keep).map_values(|p: SensorOverlap| p.other));
                }
            } else {
                proof {
                    assert(out@ =~= self.overlaps@.take(i + 1).filter(keep).map_values(|p: SensorOverlap| p.other));
                }
            }
            i = i + 1;
        }
        proof {
            assert(self.overlaps@.take(self.overlaps@.len() as int) =~= self.overlaps@);
        }
        out
    }

    /// Refills the broadphase with one entry per body: its collider's bounds
    /// at its position, on its layer.
    pub fn rebuild_broadphase(&mut self, bodies: &[(Entity, Transform, Collider)])
        requires
            old(self).wf(),
        ensures
            final(self).wf(),
            final(self).entries() == bodies@.map_values(
                |b: (Entity, Transform, Collider)| BroadphaseEntry {
                    entity: b.0,
                    bounds: world_box(b.2, b.1.position),
                    layer: b.2.layer,
                },
            ),
            final(self).config_spec() == old(self).config_spec(),
            final(self).overlaps_spec() == old(self).overlaps_spec(),
    {
        let ghost entry_of = |b: (Entity, Transform, Collider)| BroadphaseEntry {
            entity: b.0,
            bounds: world_box(b.2, b.1.position),
            layer: b.2.layer,
        };
        self.broadphase.clear();
        let mut i: usize = 0;
        while i < bodies.len()
            invariant
                i <= bodies@.len(),
                self.wf(),
                self.config == old(self).config,
                self.overlaps@ == old(self).overlaps@,
                entry_of == (|b: (Entity, Transform, Collider)| BroadphaseEntry {
                    entity: b.0,
                    bounds: world_box(b.2, b.1.position),
                    layer: b.2.layer,
                }),
                self.broadphase.entries() == bodies@.take(i as int).map_values(entry_of),
            decreases bodies@.len() - i,
        {
            let (entity, transform, collider) = bodies[i];
            self.broadphase.insert(entity, collider.world_bounds(transform.position), collider.layer);
            proof {
                assert(self.broadphase.entries() =~= bodies@.take(i + 1).map_values(entry_of));
            }
            i = i + 1;
        }
        proof {
            assert(bodies@.take(bodies@.len() as int) =~= bodies@);
        }
    }

    /// The bodies that move this tick, in the order given.
    pub fn movers(&self, bodies: &[(Entity, Transform, Velocity, Collider)]) -> (r: Vec<
        (Entity, Transform, Velocity, Collider),
    >)
        ensures
            r@ == moving_bodies(bodies@, self.config_spec().sleep_threshold),
    {
        let ghost keep = |b: (Entity, Transform, Velocity, Collider)| wakes(b, self.config.sleep_threshold);
        let mut out: Vec<(Entity, Transform, Velocity, Collider)> = Vec::new();
        let mut i: usize = 0;
        while i < bodies.len()
            invariant
                i <= bodies@.len(),
                keep == (|b: (Entity, Transform, Velocity, Collider)| wakes(b, self.config.sleep_threshold)),
                out@ == bodies@.take(i as int).filter(keep),
            decreases bodies@.len() - i,
        {
            proof {
                reveal(Seq::filter);
                assert(bodies@.take(i + 1).drop_last() =~= bodies@.take(i as int));
                assert(bodies@.take(i + 1).last() == bodies@[i as int]);
            }
            let body = bodies[i];
            let moving = match body.3.kind {
                BodyKind::Static => false,
                _ => true,
            };
            if moving && !body.3.sensor && !(body.2.0.length_squared().0 < self.config.sleep_threshold.0) {
                out.push(body);
            }
            i = i + 1;
        }
        proof {
            assert(bodies@.take(bodies@.len() as int) =~= bodies@);
        }
        out
    }

    /// The bounds of every body that blocks `collider` within `area`, for
    /// the solver: what the broadphase reports there, in its order, less the
    /// body itself, sensors and bodies it does not interact with.
    pub fn solid_blockers(
        &self,
        collider: &Collider,
        area: Rect,
        exclude: Entity,
        colliders: &[(Entity, Collider)],
    ) -> (r: Vec<Rect>)
        requires
            self.wf(),
        ensures
            exists|found: Seq<BroadphaseEntry>|
                {
                    &&& sorted_by_entity(found)
                    &&& found.to_multiset() == self.entries().filter(
                        |e: BroadphaseEntry| hash_hit(e, area, collider.mask, self.config_spec().cell_size),
                    ).to_multiset()
                    &&& r@ == found.filter(
                        |e: BroadphaseEntry| blocks(e, *collider, exclude, colliders@),
                    ).map_values(|e: BroadphaseEntry| e.bounds)
                },
    {
        let found = self.broadphase.query(area, collider.mask);
        let ghost keep = |e: BroadphaseEntry| blocks(e, *collider, exclude, colliders@);
        let mut out: Vec<Rect> = Vec::new();
        let mut i: usize = 0;
        while i < found.len()
            invariant
                i <= found@.len(),
                keep == (|e: BroadphaseEntry| blocks(e, *collider, exclude, colliders@)),
                out@ == found@.take(i as int).filter(keep).map_values(|e: BroadphaseEntry| e.bounds),
            decreases found@.len() - i,
        {
            proof {
                reveal(Seq::filter);
                assert(found@.take(i + 1).drop_last() =~= found@.take(i as int));
                assert(found@.take(i + 1).last() == found@[i as int]);
            }
            let entry = found[i];
            let mut blocking = false;
            if entry.entity != exclude {
                match lookup_collider(colliders, entry.entity) {
                    Some(other) => {
                        blocking = !other.sensor && collider.interacts_with(&other);
                    },
                    None => {},
                }
            }
            if blocking {
                out.push(entry.bounds);
            }
            proof {
                assert(out@ =~= found@.take(i + 1).filter(keep).map_values(|e: BroadphaseEntry| e.bounds));
            }
            i = i + 1;
        }
        proof {
            assert(found@.take(found@.len() as int) =~= found@);
        }
        out
    }

    /// Moves one body by its velocity over `dt`, against the tiles and the
    /// bodies that block it anywhere along its sweep.
    pub fn move_body<G: SolidGrid>(
        &self,
        body: (Entity, Transform, Velocity, Collider),
        dt: Fx,
        solids: &G,
        colliders: &[(Entity, Collider)],
    ) -> (r: MoveResult)
        requires
            self.wf(),
        ensures
            exists|blockers: Seq<Rect>| r == slide(
                body.3,
                body.1.position,
                v2_scale(body.2.0, dt),
                solids,
                blockers,
            ),
    {
        let (entity, transform, velocity, collider) = body;
        let displacement = velocity.0 * dt;
        let swept = collider.world_bounds(transform.position).union(
            collider.world_bounds(transform.position + displacement),
        );
        let blockers = self.solid_blockers(&collider, swept, entity, colliders);
        move_and_slide(&collider, transform.position, displacement, solids, blockers.as_slice())
    }

    /// The bodies inside one sensor, in the broadphase's order.
    fn sensed_by(&self, sensor: (Entity, Rect, Collider), colliders: &[(Entity, Collider)]) -> (r: Vec<
        SensorOverlap,
    >)
        requires
            self.wf(),
        ensures
            forall|p: SensorOverlap|
                #[trigger] r@.contains(p) <==> p.sensor == sensor.0 && senses(
                    self.entries(),
                    self.config_spec().cell_size,
                    sensor,
                    colliders@,
                    p.other,
                ),
    {
        let (entity, bounds, collider) = sensor;
        let ghost entries = self.broadphase.entries();
        let ghost cell = self.config.cell_size;
        let ghost hit = |e: BroadphaseEntry| hash_hit(e, bounds, collider.mask, cell);
        let found = self.broadphase.query(bounds, collider.mask);
        let mut out: Vec<SensorOverlap> = Vec::new();
        let mut j: usize = 0;
        while j < found.len()
            invariant
                j <= found@.len(),
                forall|p: SensorOverlap|
                    #[trigger] out@.contains(p) <==> (p.sensor == entity && reported(found@, j as int, p.other)
                        && inside(collider, entity, colliders@, p.other)),
            decreases found@.len() - j,
        {
            let e = found[j];
            let mut keep = false;
            if e.entity != entity {
                match lookup_collider(colliders, e.entity) {
                    Some(other) => {
                        keep = collider.interacts_with(&other);
                    },
                    None => {},
                }
            }
            let ghost prev = out@;
            let pair = SensorOverlap { sensor: entity, other: e.entity };
            if keep {
                out.push(pair);
            }
            proof {
                assert forall|p: SensorOverlap| #[trigger] out@.contains(p) <==> (p.sensor == entity
                    && reported(found@, j + 1, p.other) && inside(collider, entity, colliders@, p.other)) by {
                    if keep {
                        vstd::seq_lib::lemma_seq_contains_after_push(prev, pair, p);
                    }
                    assert(prev.contains(p) <==> (p.sensor == entity && reported(found@, j as int, p.other)
                        && inside(collider, entity, colliders@, p.other)));
                }
            }
            j = j + 1;
        }
        proof {
            assert forall|p: SensorOverlap| #[trigger] out@.contains(p) <==> p.sensor == entity && senses(
                entries,
                cell,
                sensor,
                colliders@,
                p.other,
            ) by {
                let o = p.other;
                if reported(found@, found@.len() as int, o) {
                    let m = lemma_reported_witness(found@, found@.len() as int, o);
                    lemma_found_in_entries(found@, entries, hit, found@[m]);
                    let k = choose|k: int| 0 <= k < entries.len() && entries[k] == found@[m];
                    assert(entries[k].entity == o);
                }
                if exists|k: int| 0 <= k < entries.len() && #[trigger] entries[k].entity == o && hash_hit(
                    entries[k],
                    bounds,
                    collider.mask,
                    cell,
                ) {
                    let k = choose|k: int| 0 <= k < entries.len() && #[trigger] entries[k].entity == o && hash_hit(
                        entries[k],
                        bounds,
                        collider.mask,
                        cell,
                    );
                    lemma_entry_in_found(found@, entries, hit, k);
                    let m = choose|m: int| 0 <= m < found@.len() && found@[m] == entries[k];
                    lemma_reported_at(found@, found@.len() as int, m);
                }
            }
        }
        out
    }

    /// Recomputes which bodies are inside which sensors: for each sensor,
    /// with its world bounds and collider, every other body the broadphase
    /// reports there whose collider interacts with it; then sorted into
    /// report order.
    pub fn collect_overlaps(
        &mut self,
        sensors: &[(Entity, Rect, Collider)],
        colliders: &[(Entity, Collider)],
    )
        requires
            old(self).wf(),
        ensures
            final(self).wf(),
            final(self).entries() == old(self).entries(),
            final(self).config_spec() == old(self).config_spec(),
            forall|a: int, b: int|
                0 <= a < b < final(self).overlaps_spec().len() ==> overlap_le(
                    final(self).overlaps_spec()[a],
                    final(self).overlaps_spec()[b],
                ),
            forall|p: SensorOverlap|
                #[trigger] final(self).overlaps_spec().contains(p) <==> exists|k: int|
                    0 <= k < sensors@.len() && (#[trigger] sensors@[k]).0 == p.sensor && senses(
                        old(self).entries(),
                        old(self).config_spec().cell_size,
                        sensors@[k],
                        colliders@,
                        p.other,
                    ),
    {
        let ghost entries = self.broadphase.entries();
        let ghost cell = self.config.cell_size;
        let mut pairs: Vec<SensorOverlap> = Vec::new();
        let mut i: usize = 0;
        while i < sensors.len()
            invariant
                i <= sensors@.len(),
                self.wf(),
                entries == self.broadphase.entries(),
                cell == self.config.cell_size,
                self.config == old(self).config,
                entries == old(self).entries(),
                forall|p: SensorOverlap|
                    #[trigger] pairs@.contains(p) <==> exists|k: int|
                        0 <= k < i && (#[trigger] sensors@[k]).0 == p.sensor && senses(
                            entries,
                            cell,
                            sensors@[k],
                            colliders@,
                            p.other,
                        ),
            decreases sensors@.len() - i,
        {
            let inside_one = self.sensed_by(sensors[i], colliders);
            let ghost prev = pairs@;
            let mut j: usize = 0;
            while j < inside_one.len()
                invariant
                    j <= inside_one@.len(),
                    forall|p: SensorOverlap|
                        #[trigger] pairs@.contains(p) <==> (prev.contains(p) || inside_one@.take(j as int).contains(p)),
                decreases inside_one@.len() - j,
            {
                let ghost before = pairs@;
                pairs.push(inside_one[j]);
                proof {
                    assert forall|p: SensorOverlap| #[trigger] pairs@.contains(p) <==> (prev.contains(p)
                        || inside_one@.take(j + 1).contains(p)) by {
                        vstd::seq_lib::lemma_seq_contains_after_push(before, inside_one@[j as int], p);
                        assert(inside_one@.take(j + 1) =~= inside_one@.take(j as int).push(inside_one@[j as int]));
                        vstd::seq_lib::lemma_seq_contains_after_push(
                            inside_one@.take(j as int),
                            inside_one@[j as int],
                            p,
                        );
                    }
                }
                j = j + 1;
            }
            proof {
                assert(inside_one@.take(inside_one@.len() as int) =~= inside_one@);
                assert forall|p: SensorOverlap| #[trigger] pairs@.contains(p) <==> exists|k: int|
                    0 <= k < i + 1 && (#[trigger] sensors@[k]).0 == p.sensor && senses(
                        entries,
                        cell,
                        sensors@[k],
                        colliders@,
                        p.other,
                    ) by {
                    if inside_one@.contains(p) {
                        assert(sensors@[i as int].0 == p.sensor);
                    }
                    if exists|k: int|
                        0 <= k < i + 1 && (#[trigger] sensors@[k]).0 == p.sensor && senses(
                            entries,
                            cell,
                            sensors@[k],
                            colliders@,
                            p.other,
                        ) {
                        let k = choose|k: int|
                            0 <= k < i + 1 && (#[trigger] sensors@[k]).0 == p.sensor && senses(
                                entries,
                                cell,
                                sensors@[k],
                                colliders@,
                                p.other,
                            );
                        if k == i {
                            assert(inside_one@.contains(p));
                        } else {
                            assert(prev.contains(p));
                        }
                    }
                }
            }
            i = i + 1;
        }
        let ghost unsorted = pairs@;
        sort_overlaps(&mut pairs);
        proof {
            assert forall|p: SensorOverlap| #[trigger] pairs@.contains(p) <==> unsorted.contains(p) by {
                pairs@.to_multiset_ensures();
                unsorted.to_multiset_ensures();
                assert(pairs@.to_multiset().count(p) == unsorted.to_multiset().count(p));
            }
        }
        self.overlaps = pairs;
    }
}

/// Some of the first `n` entries is for `other`.
pub open spec fn reported(found: Seq<BroadphaseEntry>, n: int, other: Entity) -> bool
    decreases n,
{
    if n <= 0 {
        false
    } else {
        found[n - 1].entity == other || reported(found, n - 1, other)
    }
}

/// `other` is another body whose collider interacts with the sensor's.
pub open spec fn inside(
    collider: Collider,
    sensor: Entity,
    colliders: Seq<(Entity, Collider)>,
    other: Entity,
) -> bool {
    &&& other != sensor
    &&& collider_of(colliders, other) matches Some(c)
    &&& interact(collider, c)
}

/// A reported entity has an entry among the first `n`.
proof fn lemma_reported_witness(found: Seq<BroadphaseEntry>, n: int, other: Entity) -> (m: int)
    requires
        reported(found, n, other),
    ensures
        0 <= m < n,
        found[m].entity == other,
    decreases n,
{
    if found[n - 1].entity == other {
        n - 1
    } else {
        lemma_reported_witness(found, n - 1, other)
    }
}

/// An entry among the first `n` is reported.
proof fn lemma_reported_at(found: Seq<BroadphaseEntry>, n: int, m: int)
    requires
        0 <= m < n,
    ensures
        reported(found, n, found[m].entity),
    decreases n,
{
    if m < n - 1 {
        lemma_reported_at(found, n - 1, m);
    }
}

/// What a query returns is among the entries it was taken from.
proof fn lemma_found_in_entries(
    found: Seq<BroadphaseEntry>,
    entries: Seq<BroadphaseEntry>,
    hit: spec_fn(BroadphaseEntry) -> bool,
    x: BroadphaseEntry,
)
    requires
        found.to_multiset() == entries.filter(hit).to_multiset(),
        found.contains(x),
    ensures
        entries.contains(x),
        hit(x),
{
    found.to_multiset_ensures();
    entries.filter(hit).to_multiset_ensures();
    assert(found.to_multiset().count(x) > 0);
    assert(entries.filter(hit).to_multiset().count(x) > 0);
    assert(entries.filter(hit).contains(x));
    entries.lemma_filter_contains_rev(hit, x);
    let k = choose|k: int| 0 <= k < entries.filter(hit).len() && entries.filter(hit)[k] == x;
    broadcast use vstd::seq_lib::group_filter_ensures;

}

/// Every entry the query matches is in what it returns.
proof fn lemma_entry_in_found(
    found: Seq<BroadphaseEntry>,
    entries: Seq<BroadphaseEntry>,
    hit: spec_fn(BroadphaseEntry) -> bool,
    k: int,
)
    requires
        found.to_multiset() == entries.filter(hit).to_multiset(),
        0 <= k < entries.len(),
        hit(entries[k]),
    ensures
        found.contains(entries[k]),
{
    broadcast use vstd::seq_lib::group_filter_ensures;

    found.to_multiset_ensures();
    entries.filter(hit).to_multiset_ensures();
    assert(entries.filter(hit).contains(entries[k]));
    assert(entries.filter(hit).to_multiset().count(entries[k]) > 0);
    assert(found.to_multiset().count(entries[k]) > 0);
}

/// The bodies that move this tick, in the order given.
pub open spec fn moving_bodies(
    bodies: Seq<(Entity, Transform, Velocity, Collider)>,
    threshold: Fx,
) -> Seq<(Entity, Transform, Velocity, Collider)> {
    bodies.filter(|b: (Entity, Transform, Velocity, Collider)| wakes(b, threshold))
}

/// Static bodies never move: none of the bodies that move in a tick is
/// static.
pub proof fn lemma_static_bodies_never_move(
    bodies: Seq<(Entity, Transform, Velocity, Collider)>,
    threshold: Fx,
)
    ensures
        forall|i: int|
            0 <= i < moving_bodies(bodies, threshold).len() ==> (#[trigger] moving_bodies(
                bodies,
                threshold,
            )[i]).3.kind != BodyKind::Static,
{
    broadcast use vstd::seq_lib::group_filter_ensures;

}

impl Default for PhysicsWorld {
    fn default() -> (r: PhysicsWorld)
        ensures
            r.wf(),
            r.config_spec() == (PhysicsConfig {
                cell_size: fx_int(32),
                sleep_threshold: fx_ratio(1, 1000),
            }),
            r.entries() == Seq::<BroadphaseEntry>::empty(),
            r.overlaps_spec() == Seq::<SensorOverlap>::empty(),
    {
        PhysicsWorld::new(PhysicsConfig::default())
    }
}

/// The velocity that moves `position` toward `target` at `speed`: zero when
/// already there. Shared by steering and homing so both move alike.
pub fn seek(position: Vec2, target: Vec2, speed: Fx) -> (r: Velocity)
    ensures
        r == if v2_sub(target, position) == v2(Fx(0), Fx(0)) {
            Velocity(v2(Fx(0), Fx(0)))
        } else {
            Velocity(v2_scale(v2_normalize(v2_sub(target, position)), speed))
        },
{
    let offset = target - position;
    if offset.is_zero() {
        return Velocity::zero();
    }
    Velocity(offset.normalize() * speed)
}

/// The collider recorded for `entity`, if any.
fn lookup_collider(colliders: &[(Entity, Collider)], entity: Entity) -> (r: Option<Collider>)
    ensures
        r == collider_of(colliders@, entity),
{
    let mut i: usize = 0;
    proof {
        assert(colliders@.skip(0) =~= colliders@);
    }
    while i < colliders.len()
        invariant
            i <= colliders@.len(),
            collider_of(colliders@, entity) == collider_of(colliders@.skip(i as int), entity),
        decreases colliders@.len() - i,
    {
        proof {
            assert(colliders@.skip(i as int)[0] == colliders@[i as int]);
            assert(colliders@.skip(i as int).drop_first() =~= colliders@.skip(i + 1));
        }
        if colliders[i].0 == entity {
            return Some(colliders[i].1);
        }
        i = i + 1;
    }
    None
}

/// Sorts overlaps into report order.
fn sort_overlaps(items: &mut Vec<SensorOverlap>)
    ensures
        forall|a: int, b: int|
            0 <= a < b < final(items)@.len() ==> overlap_le(final(items)@[a], final(items)@[b]),
        final(items)@.to_multiset() == old(items)@.to_multiset(),
{
    let n = items.len();
    let mut i: usize = 0;
    while i < n
        invariant
            n == items@.len(),
            i <= n,
            items@.to_multiset() == old(items)@.to_multiset(),
            forall|a: int, b: int| 0 <= a < b < i ==> overlap_le(items@[a], items@[b]),
            forall|a: int, b: int| 0 <= a < i <= b < n ==> overlap_le(items@[a], items@[b]),
        decreases n - i,
    {
        let mut best: usize = i;
        let mut j: usize = i + 1;
        while j < n
            invariant
                n == items@.len(),
                i < n,
                i <= best < n,
                i < j <= n,
                forall|b: int| i <= b < j ==> overlap_le(items@[best as int], items@[b]),
            decreases n - j,
        {
            let candidate = items[j];
            let current = items[best];
            let (c1, c2) = (candidate.sensor.to_bits(), candidate.other.to_bits());
            let (b1, b2) = (current.sensor.to_bits(), current.other.to_bits());
            if c1 < b1 || (c1 == b1 && c2 < b2) {
                best = j;
            }
            j = j + 1;
        }
        let ghost before = items@;
        let a = items[i];
        let b = items[best];
        items.set(i, b);
        items.set(best, a);
        proof {
            lemma_swap_preserves_multiset(before, i as int, best as int);
        }
        i = i + 1;
    }
}

} // verus!
