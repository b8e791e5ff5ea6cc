//! The simulation field: both particle containers, the binding
//! configuration, and the per-tick orchestration of motion and
//! attachment.

use vstd::prelude::*;
use crate::vector::Vector;
use crate::vector::in_bounds;
use crate::vector::COORD_LIMIT;
use crate::vector::div_trunc;
use crate::particle::MovingParticle;
use crate::particle::StaticParticle;
use crate::particle::BindingConfiguration;
use crate::particle::AttachmentAlignment;
use crate::particle::BindingResult;
use crate::particle::binding_of;
use crate::particle::fused_particle;
use crate::particle::port_bit;
use crate::particle::port_free;
use crate::particle::busy_count;
use crate::particle::br_wf;
use crate::particle::cfg_wf;
use crate::particle::close_enough;
use crate::container::MovingParticleContainer;
use crate::container::StaticParticleContainer;
use crate::container::Particle;
use crate::container::Positionable;
use crate::container::remove_desc;
use crate::container::sorted_desc;

verus! {

/// Capacity of the moving-particle container.
pub const MAX_MOVING: usize = 1000;

/// Capacity of the static-particle container.
pub const MAX_STATIC: usize = 5000;

/// The position lies within the elliptical field of the given
/// half-extents (boundary included): the division-free form of
/// `x²/hw² + y²/hh² <= 1`.
pub open spec fn in_field_spec(pos: Vector, dims: Vector) -> bool {
    (pos.x * pos.x) * (dims.y * dims.y) + (pos.y * pos.y) * (dims.x * dims.x) <= (dims.x * dims.x)
        * (dims.y * dims.y)
}

/// Whether a position lies within the elliptical field (boundary
/// included).
pub fn in_field(pos: Vector, dims: Vector) -> (r: bool)
    requires
        in_bounds(pos, COORD_LIMIT as int),
        1 <= dims.x <= COORD_LIMIT,
        1 <= dims.y <= COORD_LIMIT,
    ensures
        r == in_field_spec(pos, dims),
{
    proof {
        crate::vector::lemma_mul_bounds(pos.x as int, pos.x as int, 1_000_000_000);
        crate::vector::lemma_mul_bounds(pos.y as int, pos.y as int, 1_000_000_000);
        crate::vector::lemma_mul_bounds(dims.x as int, dims.x as int, 1_000_000_000);
        crate::vector::lemma_mul_bounds(dims.y as int, dims.y as int, 1_000_000_000);
        assert(pos.x as int * pos.x as int >= 0 && pos.y as int * pos.y as int >= 0
            && dims.x as int * dims.x as int >= 0 && dims.y as int * dims.y as int >= 0)
            by (nonlinear_arith);
    }
    let xx: i128 = (pos.x as i128) * (pos.x as i128);
    let yy: i128 = (pos.y as i128) * (pos.y as i128);
    let wx: i128 = (dims.x as i128) * (dims.x as i128);
    let wy: i128 = (dims.y as i128) * (dims.y as i128);
    proof {
        assert(xx * wy <= 1_000_000_000_000_000_000_000_000_000_000_000_000
            && xx * wy >= 0) by (nonlinear_arith)
            requires
                0 <= xx <= 1_000_000_000_000_000_000,
                0 <= wy <= 1_000_000_000_000_000_000,
        ;
        assert(yy * wx <= 1_000_000_000_000_000_000_000_000_000_000_000_000
            && yy * wx >= 0) by (nonlinear_arith)
            requires
                0 <= yy <= 1_000_000_000_000_000_000,
                0 <= wx <= 1_000_000_000_000_000_000,
        ;
        assert(wx * wy <= 1_000_000_000_000_000_000_000_000_000_000_000_000
            && wx * wy >= 0) by (nonlinear_arith)
            requires
                0 <= wx <= 1_000_000_000_000_000_000,
                0 <= wy <= 1_000_000_000_000_000_000,
        ;
    }
    xx * wy + yy * wx <= wx * wy
}

/// The renderable field: moving and static particles over an elliptical
/// area from `-dimensions` to `+dimensions`, fusing under one binding
/// configuration.
pub struct Field {
    mp_container: MovingParticleContainer,
    sp_container: StaticParticleContainer,
    bind_cfgs: [BindingConfiguration; 1],
    dimensions: Vector,
}

impl Field {
    /// The moving particles, in storage order.
    pub closed spec fn spec_moving(self) -> Seq<MovingParticle> {
        self.mp_container.spec_particles()
    }

    /// The static particles, in storage order.
    pub closed spec fn spec_statics(self) -> Seq<StaticParticle> {
        self.sp_container.spec_particles()
    }

    /// The moving-particle container.
    pub closed spec fn spec_mp(self) -> MovingParticleContainer {
        self.mp_container
    }

    /// The static-particle container.
    pub closed spec fn spec_sp(self) -> StaticParticleContainer {
        self.sp_container
    }

    /// The binding configuration in force.
    pub closed spec fn spec_cfg(self) -> BindingConfiguration {
        self.bind_cfgs@[0]
    }

    /// The field half-extents.
    pub closed spec fn spec_dimensions(self) -> Vector {
        self.dimensions
    }

    /// The field invariant: both containers are consistent, the binding
    /// configuration is well-formed, and the extents are in range.
    pub open spec fn wf(self) -> bool {
        &&& self.spec_mp().inv()
        &&& self.spec_sp().inv()
        &&& self.spec_mp().spec_capacity() == MAX_MOVING
        &&& self.spec_sp().spec_capacity() == MAX_STATIC
        &&& cfg_wf(self.spec_cfg())
        &&& 1 <= self.spec_dimensions().x <= COORD_LIMIT
        &&& 1 <= self.spec_dimensions().y <= COORD_LIMIT
    }

    /// A field of the given half-extents, with hexagonal binding
    /// geometry and empty containers.
    pub fn new(half_width: i64, half_height: i64) -> (r: Field)
        requires
            1 <= half_width <= COORD_LIMIT,
            1 <= half_height <= COORD_LIMIT,
        ensures
            r.wf(),
            r.spec_moving().len() == 0,
            r.spec_statics().len() == 0,
            r.spec_cfg().segments@ =~= seq![60i64, 60, 60, 60, 60, 60],
            r.spec_cfg().radius == 5 && r.spec_cfg().max_binds == 5,
            r.spec_cfg().attachment_site_mask == 0b111111,
            r.spec_cfg().align == AttachmentAlignment::Zero,
            r.spec_dimensions() == (Vector { x: half_width, y: half_height }),
    {
        let dimensions = Vector::new(half_width, half_height);
        Field {
            mp_container: MovingParticleContainer::new(MAX_MOVING, &dimensions),
            sp_container: StaticParticleContainer::new(MAX_STATIC, &dimensions),
            bind_cfgs: [BindingConfiguration::make_hexa()],
            dimensions,
        }
    }

    /// Replace the binding configuration (the containers are untouched).
    pub fn set_binding_configuration(&mut self, cfg: BindingConfiguration)
        requires
            old(self).wf(),
            cfg_wf(cfg),
        ensures
            final(self).wf(),
            final(self).spec_cfg() == cfg,
            final(self).spec_moving() == old(self).spec_moving(),
            final(self).spec_statics() == old(self).spec_statics(),
            final(self).spec_mp() == old(self).spec_mp(),
            final(self).spec_sp() == old(self).spec_sp(),
            final(self).spec_dimensions() == old(self).spec_dimensions(),
    {
        self.bind_cfgs = [cfg];
    }

    /// The binding configuration in force.
    pub fn binding_configuration(&self) -> (r: BindingConfiguration)
        ensures
            r == self.spec_cfg(),
    {
        self.bind_cfgs[0]
    }

    /// Whether a position lies within this field's elliptical area
    /// (boundary included).  Spawn positions must satisfy it.
    pub fn is_in_field(&self, pos: Vector) -> (r: bool)
        requires
            self.wf(),
            in_bounds(pos, COORD_LIMIT as int),
        ensures
            r == in_field_spec(pos, self.spec_dimensions()),
    {
        in_field(pos, self.dimensions)
    }

    pub fn moving_particles_count(&self) -> (r: usize)
        ensures
            r == self.spec_moving().len(),
    {
        self.mp_container.size()
    }

    pub fn static_particles_count(&self) -> (r: usize)
        ensures
            r == self.spec_statics().len(),
    {
        self.sp_container.size()
    }

    /// Bounds-checked read of a moving particle.
    pub fn moving_particle_at(&self, index: usize) -> (r: Option<MovingParticle>)
        ensures
            match r {
                Some(p) => index < self.spec_moving().len() && p == self.spec_moving()[index as int],
                None => index >= self.spec_moving().len(),
            },
    {
        match self.mp_container.at(index) {
            Some(p) => Some(*p),
            None => None,
        }
    }

    /// Bounds-checked read of a static particle.
    pub fn static_particle_at(&self, index: usize) -> (r: Option<StaticParticle>)
        ensures
            match r {
                Some(p) => index < self.spec_statics().len() && p == self.spec_statics()[index as int],
                None => index >= self.spec_statics().len(),
            },
    {
        match self.sp_container.at(index) {
            Some(p) => Some(*p),
            None => None,
        }
    }

    /// Add a moving particle at `pos` with unit-scale velocity `vel`
    /// (the host draws both at random); silently ignored when the moving
    /// container is full.  The spawn position must lie within the
    /// elliptical field.
    pub fn add_particle(&mut self, pos: Vector, vel: Vector)
        requires
            old(self).wf(),
            in_bounds(pos, COORD_LIMIT as int),
            in_field_spec(pos, old(self).spec_dimensions()),
            in_bounds(vel, COORD_LIMIT as int),
        ensures
            final(self).wf(),
            final(self).spec_statics() == old(self).spec_statics(),
            final(self).spec_cfg() == old(self).spec_cfg(),
            final(self).spec_dimensions() == old(self).spec_dimensions(),
            if old(self).spec_moving().len() < MAX_MOVING {
                final(self).spec_moving() =~= old(self).spec_moving().push(
                    MovingParticle { pos, vel, since: 0, flags: 0 },
                )
            } else {
                final(self).spec_moving() == old(self).spec_moving()
            },
    {
        if !self.mp_container.is_full() {
            let _ = self.mp_container.add_particle(
                MovingParticle { pos, vel, since: 0, flags: 0 },
            );
        }
    }

    /// Add a moving particle on the field boundary, stamped with the
    /// engine time `since`; silently ignored when the container is full.
    /// The host draws a point on the elliptical boundary and rounds its
    /// coordinates toward zero, which keeps it within the closed field.
    pub fn add_boundary_particle(&mut self, since: i64, pos: Vector, vel: Vector)
        requires
            old(self).wf(),
            in_bounds(pos, COORD_LIMIT as int),
            in_field_spec(pos, old(self).spec_dimensions()),
            in_bounds(vel, COORD_LIMIT as int),
        ensures
            final(self).wf(),
            final(self).spec_statics() == old(self).spec_statics(),
            final(self).spec_cfg() == old(self).spec_cfg(),
            final(self).spec_dimensions() == old(self).spec_dimensions(),
            if old(self).spec_moving().len() < MAX_MOVING {
                final(self).spec_moving() =~= old(self).spec_moving().push(
                    MovingParticle { pos, vel, since, flags: 0 },
                )
            } else {
                final(self).spec_moving() == old(self).spec_moving()
            },
    {
        if !self.mp_container.is_full() {
            let _ = self.mp_container.add_particle(
                MovingParticle { pos, vel, since, flags: 0 },
            );
        }
    }

    /// Advance every moving particle by its velocity over `delta`.
    pub fn update_positions(&mut self, delta: i64)
        requires
            old(self).wf(),
            0 <= delta <= 1_000_000,
        ensures
            final(self).wf(),
            final(self).spec_statics() == old(self).spec_statics(),
            final(self).spec_cfg() == old(self).spec_cfg(),
            final(self).spec_dimensions() == old(self).spec_dimensions(),
            final(self).spec_moving().len() == old(self).spec_moving().len(),
            forall|i: int|
                0 <= i < old(self).spec_moving().len() ==> final(self).spec_moving()[i]
                    == crate::container::moved_particle(
                    #[trigger] old(self).spec_moving()[i],
                    delta as int,
                ),
    {
        self.mp_container.update_positions(delta);
    }

    /// Recompute every moving particle's velocity: each becomes the
    /// normalized sum of its prior velocity, a host-drawn random unit
    /// direction, and a center-seeking attractor that strengthens as the
    /// static population grows.  `rand_dirs` supplies one direction of
    /// length `unit` per moving particle; `delta_milli` is the time step
    /// in thousandths.
    pub fn update_velocities(&mut self, delta_milli: i64, unit: i64, rand_dirs: &Vec<Vector>)
        requires
            old(self).wf(),
            0 <= delta_milli <= 1000,
            1 <= unit <= 1_000_000,
            rand_dirs@.len() == old(self).spec_moving().len(),
            forall|i: int|
                0 <= i < rand_dirs@.len() ==> in_bounds(#[trigger] rand_dirs@[i], unit as int),
        ensures
            final(self).wf(),
            final(self).spec_statics() == old(self).spec_statics(),
            final(self).spec_cfg() == old(self).spec_cfg(),
            final(self).spec_dimensions() == old(self).spec_dimensions(),
            final(self).spec_moving().len() == old(self).spec_moving().len(),
            forall|i: int|
                0 <= i < old(self).spec_moving().len() ==> final(self).spec_moving()[i]
                    == (MovingParticle {
                    vel: next_velocity_spec(
                        old(self).spec_moving()[i].pos,
                        old(self).spec_moving()[i].vel,
                        rand_dirs@[i],
                        old(self).spec_dimensions(),
                        old(self).spec_statics().len() as int,
                        delta_milli as int,
                        unit as int,
                    ),
                    ..(#[trigger] old(self).spec_moving()[i])
                }),
    {
        let n = self.mp_container.size();
        let num_static = self.sp_container.size();
        let dims = self.dimensions;
        let mut i: usize = 0;
        while i < n
            invariant
                i <= n,
                self.wf(),
                0 <= delta_milli <= 1000,
                1 <= unit <= 1_000_000,
                dims == old(self).spec_dimensions(),
                num_static == old(self).spec_statics().len(),
                num_static <= MAX_STATIC,
                n == old(self).spec_moving().len(),
                n == self.spec_moving().len(),
                rand_dirs@.len() == n,
                forall|k: int|
                    0 <= k < rand_dirs@.len() ==> in_bounds(#[trigger] rand_dirs@[k], unit as int),
                self.spec_statics() == old(self).spec_statics(),
                self.spec_cfg() == old(self).spec_cfg(),
                self.spec_dimensions() == old(self).spec_dimensions(),
                forall|k: int|
                    0 <= k < i ==> self.spec_moving()[k] == (MovingParticle {
                        vel: next_velocity_spec(
                            old(self).spec_moving()[k].pos,
                            old(self).spec_moving()[k].vel,
                            rand_dirs@[k],
                            old(self).spec_dimensions(),
                            old(self).spec_statics().len() as int,
                            delta_milli as int,
                            unit as int,
                        ),
                        ..(#[trigger] old(self).spec_moving()[k])
                    }),
                forall|k: int|
                    i <= k < n ==> #[trigger] self.spec_moving()[k] == old(self).spec_moving()[k],
            decreases n - i,
        {
            let p = match self.mp_container.at(i) {
                Some(p) => *p,
                None => {
                    proof {
                        assert(false);
                    }
                    MovingParticle {
                        pos: Vector { x: 0, y: 0 },
                        vel: Vector { x: 0, y: 0 },
                        since: 0,
                        flags: 0,
                    }
                },
            };
            proof {
                assert(self.spec_moving()[i as int].wf_value());
            }
            let vel = next_velocity(
                p.pos,
                p.vel,
                rand_dirs[i],
                dims,
                num_static,
                delta_milli,
                unit,
            );
            let copy = Particle { particle: MovingParticle { vel, ..p }, index: i };
            self.mp_container.update(&copy);
            i = i + 1;
        }
    }

    /// Write back a mutated copy of a moving particle (the host's
    /// velocity pass uses this); the position must be unchanged and the
    /// index in range, else the call is a no-op.
    pub fn update_moving_particle(&mut self, particle: &Particle<MovingParticle>)
        requires
            old(self).wf(),
            in_bounds(particle.particle.pos, COORD_LIMIT as int),
            in_bounds(particle.particle.vel, COORD_LIMIT as int),
            particle.index < old(self).spec_moving().len() ==> old(self).spec_moving()[particle.index as int].pos
                == particle.particle.pos,
        ensures
            final(self).wf(),
            final(self).spec_statics() == old(self).spec_statics(),
            final(self).spec_cfg() == old(self).spec_cfg(),
            final(self).spec_dimensions() == old(self).spec_dimensions(),
            if particle.index < old(self).spec_moving().len() {
                final(self).spec_moving() =~= old(self).spec_moving().update(
                    particle.index as int,
                    particle.particle,
                )
            } else {
                final(self).spec_moving() == old(self).spec_moving()
            },
    {
        self.mp_container.update(particle);
    }

    /// Remove a set of moving particles by index (descending internally).
    pub fn remove_moving_particles(&mut self, items: Vec<usize>)
        requires
            old(self).wf(),
            items@.no_duplicates(),
        ensures
            final(self).wf(),
            final(self).spec_statics() == old(self).spec_statics(),
            final(self).spec_cfg() == old(self).spec_cfg(),
            final(self).spec_dimensions() == old(self).spec_dimensions(),
            exists|sorted: Seq<usize>|
                #![all_triggers]
                sorted_desc(sorted) && sorted.to_multiset() == items@.to_multiset()
                    && final(self).spec_moving() == remove_desc(old(self).spec_moving(), sorted),
    {
        self.mp_container.remove_multiple_by_index(items);
    }
}

/// The candidates within the circular binding distance of `pos`, kept in
/// order (the box query over-approximates; attachment uses the circle).
pub open spec fn close_filter_upto(
    cands: Seq<Particle<StaticParticle>>,
    pos: Vector,
    cfg: BindingConfiguration,
    k: int,
) -> Seq<Particle<StaticParticle>>
    decreases k,
{
    if k <= 0 {
        Seq::empty()
    } else {
        let prev = close_filter_upto(cands, pos, cfg, k - 1);
        if close_enough(cfg, cands[k - 1].particle.pos, pos) {
            prev.push(cands[k - 1])
        } else {
            prev
        }
    }
}

/// The first candidate, scanning from `j`, that the matching algorithm
/// accepts: its position in the candidate sequence and the decision
/// `(rotation, static port, moving port)`; `None` when every candidate
/// is rejected.
pub open spec fn first_match_from(
    cands: Seq<Particle<StaticParticle>>,
    mp: MovingParticle,
    cfg: BindingConfiguration,
    j: int,
) -> Option<(int, (int, int, int))>
    decreases cands.len() - j,
{
    if j < 0 || j >= cands.len() {
        None
    } else {
        match binding_of(mp, cands[j].particle, cfg, cfg) {
            Some(t) => Some((j, t)),
            None => first_match_from(cands, mp, cfg, j + 1),
        }
    }
}

/// A positive matching decision was only reached past the distance,
/// bind-limit, free-port and range checks.
pub proof fn lemma_binding_of_accepts(
    mp: MovingParticle,
    sp: StaticParticle,
    c1: BindingConfiguration,
    c2: BindingConfiguration,
)
    ensures
        match binding_of(mp, sp, c1, c2) {
            Some(t) => port_free(sp.binding_cfg_id, t.1) && busy_count(sp.binding_cfg_id)
                < c2.max_binds && 0 <= t.1 < 6 && 0 <= t.2 < 6 && (c2.align
                is Port ==> t.0 == 0) && (c2.align
                is Zero ==> t.0 == sp.rot as int) && (
            c2.align is Free ==> 0 <= t.0 < 360),
            None => true,
        },
{
    let ang = crate::trig::atan2_deg_s(mp.pos.y - sp.pos.y, mp.pos.x - sp.pos.x);
    let heading = crate::trig::atan2_deg_s(mp.vel.y as int, mp.vel.x as int);
    crate::trig::lemma_atan2_range(mp.vel.y as int, mp.vel.x as int);
    if binding_of(mp, sp, c1, c2) is Some {
        lemma_port_of_in_range(c2.segments@, ang - sp.rot);
        let target = if c2.align is Free {
            180 + ang - heading
        } else {
            180 + ang - sp.rot
        };
        lemma_port_of_in_range(c1.segments@, target);
    }
}

/// A port the lookup returns is one of the six slots.
pub proof fn lemma_port_of_in_range(segs: Seq<i64>, a: int)
    ensures
        match crate::particle::port_of(segs, a) {
            Some(p) => 0 <= p < 6,
            None => true,
        },
{
    lemma_port_from_in_range(segs, crate::trig::norm360(a), 0);
}

proof fn lemma_port_from_in_range(segs: Seq<i64>, ca: int, j: int)
    ensures
        match crate::particle::port_from(segs, ca, j) {
            Some(p) => j <= p < 6,
            None => true,
        },
    decreases 6 - j,
{
    if 0 <= j < 6 {
        lemma_port_from_in_range(segs, ca, j + 1);
    }
}

/// Every candidate a radius query returns is a live `(index, particle)`
/// pair of the container, lying within the query box.
pub proof fn lemma_bin_matches_sound(
    c: StaticParticleContainer,
    target: Vector,
    range: int,
    b: int,
    k: int,
)
    requires
        c.inv(),
        0 <= b < 1296,
        0 <= k <= c.spec_bin(b).len(),
    ensures
        forall|j: int|
            0 <= j < c.bin_matches_upto(target, range, b, k).len()
                ==> ((#[trigger] c.bin_matches_upto(target, range, b, k)[j]).index
                < c.spec_particles().len() && c.bin_matches_upto(target, range, b, k)[j].particle
                == c.spec_particles()[c.bin_matches_upto(target, range, b, k)[j].index as int]
                && crate::container::within_box(
                c.bin_matches_upto(target, range, b, k)[j].particle.pos,
                target,
                range,
            )),
    decreases k,
{
    if k > 0 {
        lemma_bin_matches_sound(c, target, range, b, k - 1);
        let id = c.spec_bin(b)[k - 1];
        assert(id < c.spec_particles().len());
        let prev = c.bin_matches_upto(target, range, b, k - 1);
        let cur = c.bin_matches_upto(target, range, b, k);
        assert forall|j: int| 0 <= j < cur.len() implies ((#[trigger] cur[j]).index
            < c.spec_particles().len() && cur[j].particle
            == c.spec_particles()[cur[j].index as int] && crate::container::within_box(
            cur[j].particle.pos,
            target,
            range,
        )) by {
            if j < prev.len() {
                assert(cur[j] == prev[j]);
            }
        }
    }
}

/// Soundness of the whole radius query.
pub proof fn lemma_query_matches_sound(c: StaticParticleContainer, target: Vector, range: int, b: int)
    requires
        c.inv(),
        0 <= b <= 1296,
    ensures
        forall|j: int|
            0 <= j < c.query_matches_upto(target, range, b).len()
                ==> ((#[trigger] c.query_matches_upto(target, range, b)[j]).index
                < c.spec_particles().len() && c.query_matches_upto(target, range, b)[j].particle
                == c.spec_particles()[c.query_matches_upto(target, range, b)[j].index as int]
                && crate::container::within_box(
                c.query_matches_upto(target, range, b)[j].particle.pos,
                target,
                range,
            )),
    decreases b,
{
    if b > 0 {
        lemma_query_matches_sound(c, target, range, b - 1);
        let prev = c.query_matches_upto(target, range, b - 1);
        let cur = c.query_matches_upto(target, range, b);
        if crate::container::is_query_bin(c.spec_offset(), target, range, b - 1) {
            lemma_bin_matches_sound(c, target, range, b - 1, c.spec_bin(b - 1).len() as int);
            let tail = c.bin_matches(target, range, b - 1);
            assert(cur == prev + tail);
            assert forall|j: int| 0 <= j < cur.len() implies ((#[trigger] cur[j]).index
                < c.spec_particles().len() && cur[j].particle
                == c.spec_particles()[cur[j].index as int] && crate::container::within_box(
                cur[j].particle.pos,
                target,
                range,
            )) by {
                if j < prev.len() {
                    assert(cur[j] == prev[j]);
                } else {
                    assert(cur[j] == tail[j - prev.len()]);
                }
            }
        }
    }
}

/// Entries surviving the circular-distance filter are entries of the
/// candidate list, in range of `pos`.
pub proof fn lemma_close_filter_sound(
    cands: Seq<Particle<StaticParticle>>,
    pos: Vector,
    cfg: BindingConfiguration,
    k: int,
)
    requires
        0 <= k <= cands.len(),
    ensures
        forall|j: int|
            0 <= j < close_filter_upto(cands, pos, cfg, k).len() ==> cands.contains(
                #[trigger] close_filter_upto(cands, pos, cfg, k)[j],
            ) && close_enough(cfg, close_filter_upto(cands, pos, cfg, k)[j].particle.pos, pos),
    decreases k,
{
    let cur = close_filter_upto(cands, pos, cfg, k);
    if k > 0 {
        lemma_close_filter_sound(cands, pos, cfg, k - 1);
        let prev = close_filter_upto(cands, pos, cfg, k - 1);
        assert forall|j: int| 0 <= j < cur.len() implies cands.contains(#[trigger] cur[j])
            && close_enough(cfg, cur[j].particle.pos, pos) by {
            if j < prev.len() {
                assert(cur[j] == prev[j]);
            } else {
                assert(cur[j] == cands[k - 1]);
            }
        }
    }
}

impl Field {
    /// Fuse a moving particle onto the static particle held in
    /// `static_particle` (a copy at a recorded index): commit the
    /// binding, write the anchor back, and append the new static
    /// particle.  `false`, with the store unchanged, when the static
    /// container is full or the match has gone stale.
    fn convert_mp_to_static(
        &mut self,
        moving_particle: &MovingParticle,
        static_particle: &mut Particle<StaticParticle>,
        binding_result: BindingResult,
    ) -> (r: bool)
        requires
            old(self).wf(),
            br_wf(binding_result),
            0 <= binding_result.spec_rot() < 360,
            in_bounds(moving_particle.pos, COORD_LIMIT as int),
            old(static_particle).index < old(self).spec_statics().len(),
            old(static_particle).particle == old(self).spec_statics()[old(static_particle).index as int],
        ensures
            final(self).wf(),
            final(self).spec_moving() == old(self).spec_moving(),
            final(self).spec_mp() == old(self).spec_mp(),
            final(self).spec_cfg() == old(self).spec_cfg(),
            final(self).spec_dimensions() == old(self).spec_dimensions(),
            ({
                let idx = old(static_particle).index as int;
                let cur = old(static_particle).particle;
                let ps = binding_result.spec_site_at_static() as int;
                let pm = binding_result.spec_site_at_moving() as int;
                let rot = binding_result.spec_rot() as int;
                let cfg = old(self).spec_cfg();
                if old(self).spec_statics().len() < MAX_STATIC && port_free(
                    cur.binding_cfg_id,
                    ps,
                ) && busy_count(cur.binding_cfg_id) < cfg.max_binds {
                    r == true && final(self).spec_statics() =~= old(self).spec_statics().update(
                        idx,
                        StaticParticle {
                            binding_cfg_id: cur.binding_cfg_id | port_bit(ps),
                            ..cur
                        },
                    ).push(fused_particle(rot, ps, pm, *moving_particle, cur, cfg, cfg))
                } else {
                    r == false && final(self).spec_statics() == old(self).spec_statics()
                }
            }),
    {
        if self.sp_container.is_full() {
            return false;
        }
        let cfg = self.bind_cfgs[0];
        proof {
            assert(old(self).spec_statics()[old(static_particle).index as int].wf_value());
        }
        match binding_result.apply_binding(
            moving_particle,
            &mut static_particle.particle,
            &cfg,
            &cfg,
        ) {
            Some(new_static_particle) => {
                proof {
                    assert(new_static_particle.wf_value()) by {
                        assert(0 <= new_static_particle.rot < 360) by {
                            if cfg.align is Port {
                                assert(0 <= crate::trig::norm360(
                                    180 + crate::particle::site_world_angle(
                                        cfg,
                                        old(static_particle).particle,
                                        binding_result.spec_site_at_static() as int,
                                    ) - (match crate::particle::port_center(
                                        cfg.segments@,
                                        binding_result.spec_site_at_moving() as int,
                                    ) {
                                        Some(mc) => mc,
                                        None => 0,
                                    }),
                                ) < 360);
                            }
                        }
                    }
                }
                self.sp_container.update(static_particle);
                let added = self.sp_container.add_particle(new_static_particle);
                match added {
                    Some(_) => true,
                    None => false,
                }
            },
            None => false,
        }
    }

    /// Try adding a static particle directly at `pos`, respecting the
    /// binding sites already in the area: with no static particle within
    /// binding distance a free-standing seed is placed; with neighbours,
    /// the new particle must attach to the first one the matching
    /// algorithm accepts, and is refused when every neighbouring site is
    /// busy or mismatched.  `vel` plays the role a drawn velocity plays
    /// for any arriving particle.
    #[verifier::rlimit(100)]
    pub fn add_static_particle(&mut self, pos: Vector, vel: Vector) -> (r: bool)
        requires
            old(self).wf(),
            in_bounds(pos, COORD_LIMIT as int),
            in_bounds(vel, COORD_LIMIT as int),
        ensures
            final(self).wf(),
            final(self).spec_moving() == old(self).spec_moving(),
            final(self).spec_cfg() == old(self).spec_cfg(),
            final(self).spec_dimensions() == old(self).spec_dimensions(),
            ({
                let cfg = old(self).spec_cfg();
                let mp = MovingParticle { pos, vel, since: 0, flags: 0 };
                let cands = old(self).spec_sp().query_matches(pos, cfg.radius as int);
                let close = close_filter_upto(cands, pos, cfg, cands.len() as int);
                if old(self).spec_moving().len() >= MAX_MOVING || old(self).spec_statics().len()
                    >= MAX_STATIC {
                    r == false && final(self).spec_statics() == old(self).spec_statics()
                } else if close.len() == 0 {
                    r == true && final(self).spec_statics() =~= old(self).spec_statics().push(
                        StaticParticle { pos, rot: 0, binding_cfg_id: 0 },
                    )
                } else {
                    match first_match_from(close, mp, cfg, 0) {
                        Some(jt) => {
                            let target = close[jt.0];
                            r == true && final(self).spec_statics() =~= old(
                                self,
                            ).spec_statics().update(
                                target.index as int,
                                StaticParticle {
                                    binding_cfg_id: target.particle.binding_cfg_id | port_bit(
                                        jt.1.1,
                                    ),
                                    ..target.particle
                                },
                            ).push(
                                fused_particle(
                                    jt.1.0,
                                    jt.1.1,
                                    jt.1.2,
                                    mp,
                                    target.particle,
                                    cfg,
                                    cfg,
                                ),
                            )
                        },
                        None => r == false && final(self).spec_statics() == old(
                            self,
                        ).spec_statics(),
                    }
                }
            }),
    {
        if self.mp_container.is_full() || self.sp_container.is_full() {
            return false;
        }
        let cfg = self.bind_cfgs[0];
        let new_particle = MovingParticle { pos, vel, since: 0, flags: 0 };
        let cands = self.sp_container.select_for_binding(&pos, cfg.radius());
        proof {
            lemma_query_matches_sound(self.spec_sp(), pos, cfg.radius as int, 1296);
        }
        let mut close: Vec<Particle<StaticParticle>> = Vec::new();
        let nc = cands.len();
        let mut k: usize = 0;
        while k < nc
            invariant
                k <= nc,
                *self == *old(self),
                self.wf(),
                in_bounds(pos, COORD_LIMIT as int),
                cfg == self.spec_cfg(),
                nc == cands@.len(),
                cands@ == self.spec_sp().query_matches(pos, cfg.radius as int),
                forall|j: int|
                    0 <= j < nc ==> (#[trigger] cands@[j]).index < self.spec_statics().len()
                        && cands@[j].particle == self.spec_statics()[cands@[j].index as int],
                close@ =~= close_filter_upto(cands@, pos, cfg, k as int),
            decreases nc - k,
        {
            let cand = cands[k];
            proof {
                assert(self.spec_statics()[cand.index as int].wf_value());
            }
            if cfg.close_enough_to_bind(&cand.particle.pos, &pos) {
                close.push(cand);
            }
            k = k + 1;
        }
        let ghost close_s = close_filter_upto(
            cands@,
            pos,
            cfg,
            cands@.len() as int,
        );
        proof {
            lemma_close_filter_sound(cands@, pos, cfg, cands@.len() as int);
        }
        if close.len() == 0 {
            // no static particles in the vicinity: place a free seed
            let added = self.sp_container.add_particle(
                StaticParticle { pos, rot: 0, binding_cfg_id: 0 },
            );
            return match added {
                Some(_) => true,
                None => false,
            };
        }
        match self.find_first_binding(&close, &new_particle) {
            Some(jb) => {
                let j = jb.0;
                let binding = jb.1;
                let cand = close[j];
                proof {
                    assert(self.spec_statics()[cand.index as int].wf_value());
                    lemma_binding_of_accepts(new_particle, cand.particle, cfg, cfg);
                }
                let mut target = cand;
                let ok = self.convert_mp_to_static(&new_particle, &mut target, binding);
                ok
            },
            None => false,
        }
    }

    /// Scan the candidates in order for the first one the matching
    /// algorithm accepts.
    fn find_first_binding(
        &self,
        close: &Vec<Particle<StaticParticle>>,
        mp: &MovingParticle,
    ) -> (r: Option<(usize, BindingResult)>)
        requires
            self.wf(),
            in_bounds(mp.pos, COORD_LIMIT as int),
            in_bounds(mp.vel, COORD_LIMIT as int),
            forall|q: int|
                0 <= q < close@.len() ==> (#[trigger] close@[q]).index
                    < self.spec_statics().len() && close@[q].particle
                    == self.spec_statics()[close@[q].index as int],
        ensures
            match r {
                Some(jb) => jb.0 < close@.len() && br_wf(jb.1) && first_match_from(
                    close@,
                    *mp,
                    self.spec_cfg(),
                    0,
                ) == Some(
                    (jb.0 as int, (jb.1.spec_rot() as int, jb.1.spec_site_at_static() as int,
                    jb.1.spec_site_at_moving() as int)),
                ) && binding_of(*mp, close@[jb.0 as int].particle, self.spec_cfg(), self.spec_cfg())
                    == Some(
                    (jb.1.spec_rot() as int, jb.1.spec_site_at_static() as int,
                    jb.1.spec_site_at_moving() as int),
                ),
                None => first_match_from(close@, *mp, self.spec_cfg(), 0) is None,
            },
    {
        let cfg = self.bind_cfgs[0];
        let nj = close.len();
        let mut j: usize = 0;
        while j < nj
            invariant
                j <= nj,
                self.wf(),
                in_bounds(mp.pos, COORD_LIMIT as int),
                in_bounds(mp.vel, COORD_LIMIT as int),
                cfg == self.spec_cfg(),
                nj == close@.len(),
                forall|q: int|
                    0 <= q < close@.len() ==> (#[trigger] close@[q]).index
                        < self.spec_statics().len() && close@[q].particle
                        == self.spec_statics()[close@[q].index as int],
                first_match_from(close@, *mp, cfg, 0) == first_match_from(
                    close@,
                    *mp,
                    cfg,
                    j as int,
                ),
            decreases nj - j,
        {
            let cand = &close[j];
            proof {
                assert(self.spec_statics()[cand.index as int].wf_value());
            }
            match BindingResult::get_binding(mp, &cand.particle, &cfg, &cfg) {
                Some(binding) => {
                    return Some((j, binding));
                },
                None => {},
            }
            j = j + 1;
        }
        None
    }
}


/// Scan entries carry strictly increasing moving indices, all within the
/// store.
pub proof fn lemma_attach_scan_increasing(f: Field, i: int)
    ensures
        forall|k: int|
            0 <= k < f.attach_scan_from(i).len() ==> i <= (#[trigger] f.attach_scan_from(i)[k]).0
                < f.spec_moving().len() && 0 <= f.attach_scan_from(i)[k].1,
        forall|k1: int, k2: int|
            0 <= k1 < k2 < f.attach_scan_from(i).len() ==> (#[trigger] f.attach_scan_from(
                i,
            )[k1]).0 < (#[trigger] f.attach_scan_from(i)[k2]).0,
    decreases f.spec_moving().len() - i,
{
    if 0 <= i < f.spec_moving().len() {
        lemma_attach_scan_increasing(f, i + 1);
        let cur = f.attach_scan_from(i);
        let rest = f.attach_scan_from(i + 1);
        let mp = f.spec_moving()[i];
        let cands = f.spec_sp().query_matches(mp.pos, f.spec_cfg().radius as int);
        match first_match_from(cands, mp, f.spec_cfg(), 0) {
            Some(jt) => {
                let head = (i, cands[jt.0].index as int, jt.1);
                assert(cur == seq![head] + rest);
                assert forall|k: int| 0 <= k < cur.len() implies i <= (#[trigger] cur[k]).0
                    < f.spec_moving().len() && 0 <= cur[k].1 by {
                    if k > 0 {
                        assert(cur[k] == rest[k - 1]);
                    }
                }
                assert forall|k1: int, k2: int| 0 <= k1 < k2 < cur.len() implies (
                #[trigger] cur[k1]).0 < (#[trigger] cur[k2]).0 by {
                    if k1 > 0 {
                        assert(cur[k1] == rest[k1 - 1] && cur[k2] == rest[k2 - 1]);
                    } else {
                        assert(cur[k2] == rest[k2 - 1]);
                    }
                }
            },
            None => {},
        }
    }
}

/// The attractor component saturated: far outside the field the pull no
/// longer grows.
pub open spec fn clamp_att(c: int, unit: int) -> int {
    if c > 8 * unit {
        8 * unit
    } else if c < -(8 * unit) {
        -(8 * unit)
    } else {
        c
    }
}

/// One particle's next velocity: the prior velocity, plus the normalized
/// sum of a random unit direction and a center attractor whose strength
/// grows with the static population, scaled by the time step — then
/// renormalized to length `unit`.  All arithmetic is fixed-point with
/// `unit` as one; a zero-length sum leaves the zero vector.
pub open spec fn next_velocity_spec(
    pos: Vector,
    vel: Vector,
    rand_dir: Vector,
    dims: Vector,
    n_static: int,
    delta_milli: int,
    unit: int,
) -> Vector {
    let avx = clamp_att(-crate::vector::div_tz(pos.x * unit, dims.x as int), unit);
    let avy = clamp_att(-crate::vector::div_tz(pos.y * unit, dims.y as int), unit);
    let alen = crate::vector::sqrt_floor(avx * avx + avy * avy);
    let am = if alen >= unit {
        alen
    } else {
        unit
    };
    let force = crate::vector::div_tz(unit * unit, unit + 5 * am) + crate::vector::div_tz(
        unit * n_static,
        10000,
    );
    let sx = crate::vector::div_tz(avx * force, unit) + rand_dir.x;
    let sy = crate::vector::div_tz(avy * force, unit) + rand_dir.y;
    let n1 = crate::vector::normalize_spec(Vector { x: sx as i64, y: sy as i64 }, unit);
    let wx = vel.x + crate::vector::div_tz(n1.x as int * delta_milli, 1000);
    let wy = vel.y + crate::vector::div_tz(n1.y as int * delta_milli, 1000);
    crate::vector::normalize_spec(Vector { x: wx as i64, y: wy as i64 }, unit)
}

/// Compute one particle's next velocity (see `next_velocity_spec`).
/// `rand_dir` is the host's random direction of length `unit`;
/// `delta_milli` is the time step in thousandths.
pub fn next_velocity(
    pos: Vector,
    vel: Vector,
    rand_dir: Vector,
    dims: Vector,
    n_static: usize,
    delta_milli: i64,
    unit: i64,
) -> (r: Vector)
    requires
        in_bounds(pos, COORD_LIMIT as int),
        in_bounds(vel, COORD_LIMIT as int),
        in_bounds(rand_dir, unit as int),
        1 <= dims.x <= COORD_LIMIT,
        1 <= dims.y <= COORD_LIMIT,
        n_static <= 10000,
        0 <= delta_milli <= 1000,
        1 <= unit <= 1_000_000,
    ensures
        r == next_velocity_spec(
            pos,
            vel,
            rand_dir,
            dims,
            n_static as int,
            delta_milli as int,
            unit as int,
        ),
        in_bounds(r, unit as int),
{
    proof {
        crate::vector::lemma_mul_bounds(pos.x as int, unit as int, 1_000_000_000);
        crate::vector::lemma_mul_bounds(pos.y as int, unit as int, 1_000_000_000);
    }
    let rawx = div_trunc(pos.x * unit, dims.x);
    let rawy = div_trunc(pos.y * unit, dims.y);
    let avx = clamp_to(-rawx, 8 * unit);
    let avy = clamp_to(-rawy, 8 * unit);
    proof {
        crate::vector::lemma_mul_bounds(avx as int, avx as int, 8_000_000);
        crate::vector::lemma_mul_bounds(avy as int, avy as int, 8_000_000);
        assert(avx as int * avx as int >= 0 && avy as int * avy as int >= 0) by (nonlinear_arith);
    }
    let alen = crate::vector::isqrt((avx * avx) as u64 + (avy * avy) as u64) as i64;
    let am: i64 = if alen >= unit {
        alen
    } else {
        unit
    };
    proof {
        crate::vector::lemma_sqrt_dominates(
            avx as int * avx as int + avy as int * avy as int,
            alen as int,
            avx as int,
        );
        assert(alen as int * alen as int <= avx as int * avx as int + avy as int * avy as int);
        assert(alen <= 12_000_000) by (nonlinear_arith)
            requires
                0 <= alen,
                alen as int * alen as int <= 128_000_000_000_000,
        ;
        // the first force term is at most `unit`
        assert(unit as int * unit as int <= unit as int * (unit as int + 5 * am as int))
            by (nonlinear_arith)
            requires
                1 <= unit,
                am >= unit,
        ;
        crate::vector::lemma_div_tz_bound(
            unit as int * unit as int,
            unit as int + 5 * am as int,
            unit as int,
        );
        // the second force term is at most `unit`
        assert(unit as int * n_static as int <= unit as int * 10000) by (nonlinear_arith)
            requires
                0 <= n_static <= 10000,
                1 <= unit,
        ;
        assert(unit as int * n_static as int >= 0) by (nonlinear_arith)
            requires
                0 <= n_static,
                1 <= unit,
        ;
        crate::vector::lemma_div_tz_bound(unit as int * n_static as int, 10000, unit as int);
    }
    proof {
        crate::vector::lemma_mul_bounds(unit as int, unit as int, 1_000_000);
        crate::vector::lemma_mul_bounds(unit as int, n_static as int, 1_000_000_000);
    }
    let f1 = div_trunc(unit * unit, unit + 5 * am);
    let f2 = div_trunc(unit * (n_static as i64), 10000);
    let force = f1 + f2;
    proof {
        crate::vector::lemma_mul_bounds(avx as int, force as int, 16_000_000);
        crate::vector::lemma_mul_bounds(avy as int, force as int, 16_000_000);
        assert(-(16 * unit as int * unit as int) <= avx as int * force as int <= 16 * unit as int
            * unit as int) by (nonlinear_arith)
            requires
                -(8 * unit as int) <= avx <= 8 * unit as int,
                -(2 * unit as int) <= force <= 2 * unit as int,
                1 <= unit,
        ;
        assert(-(16 * unit as int * unit as int) <= avy as int * force as int <= 16 * unit as int
            * unit as int) by (nonlinear_arith)
            requires
                -(8 * unit as int) <= avy <= 8 * unit as int,
                -(2 * unit as int) <= force <= 2 * unit as int,
                1 <= unit,
        ;
        crate::vector::lemma_div_tz_bound(avx as int * force as int, unit as int, 16 * unit as int);
        crate::vector::lemma_div_tz_bound(avy as int * force as int, unit as int, 16 * unit as int);
    }
    let sx = div_trunc(avx * force, unit) + rand_dir.x;
    let sy = div_trunc(avy * force, unit) + rand_dir.y;
    let n1 = Vector::normalize(Vector { x: sx, y: sy }, unit);
    proof {
        crate::vector::lemma_mul_bounds(n1.x as int, delta_milli as int, 1_000_000_000);
        assert(-(unit as int * 1000) <= n1.x as int * delta_milli as int <= unit as int * 1000)
            by (nonlinear_arith)
            requires
                -(unit as int) <= n1.x <= unit as int,
                0 <= delta_milli <= 1000,
                1 <= unit,
        ;
        assert(-(unit as int * 1000) <= n1.y as int * delta_milli as int <= unit as int * 1000)
            by (nonlinear_arith)
            requires
                -(unit as int) <= n1.y <= unit as int,
                0 <= delta_milli <= 1000,
                1 <= unit,
        ;
        crate::vector::lemma_div_tz_bound(n1.x as int * delta_milli as int, 1000, unit as int);
        crate::vector::lemma_div_tz_bound(n1.y as int * delta_milli as int, 1000, unit as int);
    }
    let wx = vel.x + div_trunc(n1.x * delta_milli, 1000);
    let wy = vel.y + div_trunc(n1.y * delta_milli, 1000);
    Vector::normalize(Vector { x: wx, y: wy }, unit)
}

/// Saturate `c` into `[-bound, bound]`.
fn clamp_to(c: i64, bound: i64) -> (r: i64)
    requires
        0 <= bound,
    ensures
        r == (if (c as int) > bound as int {
            bound as int
        } else if (c as int) < -(bound as int) {
            -(bound as int)
        } else {
            c as int
        }),
        -bound <= r <= bound,
{
    if c > bound {
        bound
    } else if c < -bound {
        -bound
    } else {
        c
    }
}

impl Field {
    /// The matches one attachment pass discovers, scanning moving
    /// particles from `i` in storage order: for each, the first nearby
    /// static candidate the matching algorithm accepts, as
    /// `(moving index, static index, decision)`.
    pub open spec fn attach_scan_from(self, i: int) -> Seq<(int, int, (int, int, int))>
        decreases self.spec_moving().len() - i,
    {
        if i < 0 || i >= self.spec_moving().len() {
            Seq::empty()
        } else {
            let mp = self.spec_moving()[i];
            let cands = self.spec_sp().query_matches(mp.pos, self.spec_cfg().radius as int);
            let rest = self.attach_scan_from(i + 1);
            match first_match_from(cands, mp, self.spec_cfg(), 0) {
                Some(jt) => seq![(i, cands[jt.0].index as int, jt.1)] + rest,
                None => rest,
            }
        }
    }

    /// The matches one pass commits: the scan, cut at the per-tick cap
    /// of four conversions.
    pub open spec fn capped_matches(self) -> Seq<(int, int, (int, int, int))> {
        let s = self.attach_scan_from(0);
        if s.len() <= 4 {
            s
        } else {
            s.subrange(0, 4)
        }
    }

    /// The static store and the list of converted moving indices after
    /// committing the first `k` matches in order.  Each match is
    /// re-validated against the store as it then stands: a port filled by
    /// an earlier conversion of the batch silently drops the match.
    pub open spec fn convert_fold(
        statics: Seq<StaticParticle>,
        moving: Seq<MovingParticle>,
        cfg: BindingConfiguration,
        matches: Seq<(int, int, (int, int, int))>,
        k: int,
    ) -> (Seq<StaticParticle>, Seq<usize>)
        decreases k,
    {
        if k <= 0 {
            (statics, Seq::empty())
        } else {
            let prev = Self::convert_fold(statics, moving, cfg, matches, k - 1);
            let st = prev.0;
            let conv = prev.1;
            let e = matches[k - 1];
            let cur = st[e.1];
            if st.len() < MAX_STATIC && port_free(cur.binding_cfg_id, e.2.1) && busy_count(
                cur.binding_cfg_id,
            ) < cfg.max_binds {
                (
                    st.update(
                        e.1,
                        StaticParticle {
                            binding_cfg_id: cur.binding_cfg_id | port_bit(e.2.1),
                            ..cur
                        },
                    ).push(fused_particle(e.2.0, e.2.1, e.2.2, moving[e.0], cur, cfg, cfg)),
                    conv.push(e.0 as usize),
                )
            } else {
                (st, conv)
            }
        }
    }

    /// One static particle is appended, and one moving index recorded,
    /// for each committed match; never more than the number of matches.
    pub proof fn lemma_convert_fold_counts(
        statics: Seq<StaticParticle>,
        moving: Seq<MovingParticle>,
        cfg: BindingConfiguration,
        matches: Seq<(int, int, (int, int, int))>,
        k: int,
    )
        requires
            forall|j: int|
                0 <= j < k ==> 0 <= (#[trigger] matches[j]).0 < moving.len() && 0 <= matches[j].1
                    < statics.len(),
            0 <= k <= matches.len(),
        ensures
            Self::convert_fold(statics, moving, cfg, matches, k).0.len() == statics.len()
                + Self::convert_fold(statics, moving, cfg, matches, k).1.len(),
            Self::convert_fold(statics, moving, cfg, matches, k).1.len() <= k,
            forall|j: int|
                0 <= j < Self::convert_fold(statics, moving, cfg, matches, k).1.len() ==> (
                #[trigger] Self::convert_fold(statics, moving, cfg, matches, k).1[j] as int)
                    < moving.len(),
        decreases k,
    {
        if k > 0 {
            Self::lemma_convert_fold_counts(statics, moving, cfg, matches, k - 1);
            let prev = Self::convert_fold(statics, moving, cfg, matches, k - 1);
            assert(0 <= matches[k - 1].1 < prev.0.len());
        }
    }

    /// Collect up to four `(moving, static, decision)` matches: moving
    /// particles are scanned in storage order, and for each one the
    /// nearby static candidates are tried until the first match.
    pub fn check_mp_attachment(&self) -> (r: Vec<
        (Particle<MovingParticle>, Particle<StaticParticle>, BindingResult),
    >)
        requires
            self.wf(),
        ensures
            r@.len() == (if self.attach_scan_from(0).len() <= 4 {
                self.attach_scan_from(0).len()
            } else {
                4
            }),
            forall|k: int|
                0 <= k < r@.len() ==> {
                    let e = self.attach_scan_from(0)[k];
                    &&& (#[trigger] r@[k]).0.index == e.0
                    &&& r@[k].0.particle == self.spec_moving()[e.0]
                    &&& r@[k].1.index == e.1
                    &&& e.1 < self.spec_statics().len()
                    &&& r@[k].1.particle == self.spec_statics()[e.1]
                    &&& r@[k].2.spec_rot() as int == e.2.0
                    &&& r@[k].2.spec_site_at_static() as int == e.2.1
                    &&& r@[k].2.spec_site_at_moving() as int == e.2.2
                    &&& br_wf(r@[k].2)
                    &&& 0 <= r@[k].2.spec_rot() < 360
                },
            forall|k1: int, k2: int|
                0 <= k1 < k2 < r@.len() ==> (#[trigger] r@[k1]).0.index < (#[trigger] r@[k2]).0.index,
    {
        let cfg = self.bind_cfgs[0];
        let mut results: Vec<(Particle<MovingParticle>, Particle<StaticParticle>, BindingResult)> =
            Vec::new();
        let n = self.mp_container.size();
        let ghost scan0 = self.attach_scan_from(0);
        let mut i: usize = 0;
        while i < n && results.len() < 4
            invariant
                i <= n,
                self.wf(),
                cfg == self.spec_cfg(),
                n == self.spec_moving().len(),
                scan0 == self.attach_scan_from(0),
                results@.len() <= 4,
                results@.len() <= scan0.len(),
                results@.len() < 4 ==> scan0 =~= scan0.subrange(0, results@.len() as int)
                    + self.attach_scan_from(i as int),
                results@.len() == 4 ==> scan0.len() >= 4,
                forall|k: int|
                    0 <= k < results@.len() ==> {
                        let e = scan0[k];
                        &&& (#[trigger] results@[k]).0.index == e.0
                        &&& results@[k].0.particle == self.spec_moving()[e.0]
                        &&& results@[k].1.index == e.1
                        &&& e.1 < self.spec_statics().len()
                        &&& results@[k].1.particle == self.spec_statics()[e.1]
                        &&& results@[k].2.spec_rot() as int == e.2.0
                        &&& results@[k].2.spec_site_at_static() as int == e.2.1
                        &&& results@[k].2.spec_site_at_moving() as int == e.2.2
                        &&& br_wf(results@[k].2)
                        &&& 0 <= results@[k].2.spec_rot() < 360
                        &&& e.0 < i
                    },
            decreases n - i,
        {
            let mp = match self.mp_container.at(i) {
                Some(p) => *p,
                None => {
                    proof {
                        assert(false);
                    }
                    MovingParticle { pos: Vector { x: 0, y: 0 }, vel: Vector { x: 0, y: 0 }, since: 0, flags: 0 }
                },
            };
            proof {
                assert(self.spec_moving()[i as int].wf_value());
            }
            let cands = self.sp_container.select_for_binding(&mp.pos, cfg.radius());
            proof {
                lemma_query_matches_sound(self.spec_sp(), mp.pos, cfg.radius as int, 1296);
            }
            let ghost res_before = results@;
            match self.find_first_binding(&cands, &mp) {
                Some(jb) => {
                    let j = jb.0;
                    let binding = jb.1;
                    let cand = cands[j];
                    proof {
                        assert(self.spec_statics()[cand.index as int].wf_value());
                        lemma_binding_of_accepts(mp, cand.particle, cfg, cfg);
                    }
                    results.push((Particle { particle: mp, index: i }, cand, binding));
                    proof {
                        let e = (i as int, cand.index as int, (binding.spec_rot() as int,
                            binding.spec_site_at_static() as int,
                            binding.spec_site_at_moving() as int));
                        assert(self.attach_scan_from(i as int) == seq![e]
                            + self.attach_scan_from(i as int + 1));
                        assert(scan0 =~= scan0.subrange(0, res_before.len() as int) + (seq![e]
                            + self.attach_scan_from(i as int + 1)));
                        assert(scan0.subrange(0, res_before.len() as int).len()
                            == res_before.len());
                        assert(scan0.len() == res_before.len() + 1 + self.attach_scan_from(
                            i as int + 1,
                        ).len());
                        assert(scan0[res_before.len() as int] == e);
                        assert(scan0.subrange(0, res_before.len() as int + 1)
                            =~= scan0.subrange(0, res_before.len() as int).push(e));
                        if results@.len() < 4 {
                            assert(scan0 =~= scan0.subrange(0, results@.len() as int)
                                + self.attach_scan_from(i as int + 1));
                        }
                        // the new entry realizes the scan's next match
                        // against a live candidate; the earlier entries
                        // are untouched by the push
                        let rb = res_before.len() as int;
                        assert(cand.index < self.spec_statics().len());
                        assert(cand.particle == self.spec_statics()[cand.index as int]);
                        assert(0 <= binding.spec_rot() < 360);
                        assert(results@[rb].0.index == i && results@[rb].1 == cand
                            && results@[rb].2 == binding);
                        assert forall|k: int| 0 <= k < rb implies results@[k]
                            == res_before[k] && scan0[k] == scan0.subrange(0, rb)[k] by {
                        }
                    }
                },
                None => {
                    proof {
                        assert(self.attach_scan_from(i as int) == self.attach_scan_from(
                            i as int + 1,
                        ));
                    }
                },
            }
            i = i + 1;
        }
        proof {
            lemma_attach_scan_increasing(*self, 0);
            if results@.len() < 4 {
                assert(i == n);
                assert(self.attach_scan_from(n as int) =~= Seq::empty());
                assert(scan0 =~= scan0.subrange(0, results@.len() as int));
                assert(scan0.len() == results@.len());
            }
        }
        results
    }

    /// One attachment pass: collect up to four matches, commit each
    /// against the current static store, and batch-remove the converted
    /// moving particles.
    pub fn update_attachments(&mut self)
        requires
            old(self).wf(),
        ensures
            final(self).wf(),
            final(self).spec_cfg() == old(self).spec_cfg(),
            final(self).spec_dimensions() == old(self).spec_dimensions(),
            ({
                let matches = old(self).capped_matches();
                let folded = Self::convert_fold(
                    old(self).spec_statics(),
                    old(self).spec_moving(),
                    old(self).spec_cfg(),
                    matches,
                    matches.len() as int,
                );
                &&& final(self).spec_statics() == folded.0
                &&& folded.1.len() <= 4
                &&& final(self).spec_statics().len() == old(self).spec_statics().len()
                    + folded.1.len()
                &&& final(self).spec_moving().len() + folded.1.len() == old(
                    self,
                ).spec_moving().len()
                &&& exists|sorted: Seq<usize>|
                    #![all_triggers]
                    sorted_desc(sorted) && sorted.to_multiset() == folded.1.to_multiset()
                        && final(self).spec_moving() == remove_desc(
                        old(self).spec_moving(),
                        sorted,
                    )
            }),
    {
        let results = self.check_mp_attachment();
        let ghost matches = old(self).capped_matches();
        let ghost scan0 = old(self).attach_scan_from(0);
        proof {
            lemma_attach_scan_increasing(*old(self), 0);
            assert(matches.len() == results@.len());
            assert forall|k: int| 0 <= k < matches.len() implies #[trigger] matches[k]
                == scan0[k] by {
                if scan0.len() > 4 {
                    assert(matches == scan0.subrange(0, 4));
                }
            }
        }
        let mut converted: Vec<usize> = Vec::new();
        let n = results.len();
        let mut t: usize = 0;
        while t < n
            invariant
                t <= n,
                self.wf(),
                n == results@.len(),
                n == matches.len(),
                matches == old(self).capped_matches(),
                self.spec_moving() == old(self).spec_moving(),
                self.spec_mp() == old(self).spec_mp(),
                self.spec_cfg() == old(self).spec_cfg(),
                self.spec_dimensions() == old(self).spec_dimensions(),
                self.spec_statics().len() >= old(self).spec_statics().len(),
                forall|k: int|
                    0 <= k < n ==> {
                        let e = matches[k];
                        &&& (#[trigger] results@[k]).0.index == e.0
                        &&& 0 <= e.0 < old(self).spec_moving().len()
                        &&& results@[k].0.particle == old(self).spec_moving()[e.0]
                        &&& results@[k].1.index == e.1
                        &&& 0 <= e.1 < old(self).spec_statics().len()
                        &&& results@[k].2.spec_rot() as int == e.2.0
                        &&& results@[k].2.spec_site_at_static() as int == e.2.1
                        &&& results@[k].2.spec_site_at_moving() as int == e.2.2
                        &&& br_wf(results@[k].2)
                        &&& 0 <= results@[k].2.spec_rot() < 360
                    },
                forall|k1: int, k2: int|
                    0 <= k1 < k2 < n ==> (#[trigger] results@[k1]).0.index < (
                    #[trigger] results@[k2]).0.index,
                self.spec_statics() == Self::convert_fold(
                    old(self).spec_statics(),
                    old(self).spec_moving(),
                    old(self).spec_cfg(),
                    matches,
                    t as int,
                ).0,
                converted@ == Self::convert_fold(
                    old(self).spec_statics(),
                    old(self).spec_moving(),
                    old(self).spec_cfg(),
                    matches,
                    t as int,
                ).1,
                forall|k1: int, k2: int|
                    0 <= k1 < k2 < converted@.len() ==> converted@[k1] < converted@[k2],
                forall|k: int|
                    0 <= k < converted@.len() && t > 0 ==> (#[trigger] converted@[k]) as int
                        <= results@[t as int - 1].0.index,
            decreases n - t,
        {
            let m = results[t].0;
            let f = results[t].1;
            let brr = results[t].2;
            proof {
                assert(old(self).spec_moving()[matches[t as int].0].wf_value());
            }
            match self.sp_container.at(f.index) {
                Some(p) => {
                    let mut fresh = Particle { particle: *p, index: f.index };
                    let ok = self.convert_mp_to_static(&m.particle, &mut fresh, brr);
                    if ok {
                        converted.push(m.index);
                    }
                },
                None => {
                    proof {
                        assert(false);
                    }
                },
            }
            t = t + 1;
        }
        let ghost conv = converted@;
        self.mp_container.remove_multiple_by_index(converted);
        proof {
            broadcast use vstd::seq_lib::group_to_multiset_ensures;

            let folded = Self::convert_fold(
                old(self).spec_statics(),
                old(self).spec_moving(),
                old(self).spec_cfg(),
                matches,
                matches.len() as int,
            );
            assert(conv == folded.1);
            if scan0.len() > 4 {
                assert(matches == scan0.subrange(0, 4));
            }
            assert(matches.len() <= 4);
            assert forall|j: int|
                0 <= j < matches.len() implies 0 <= (#[trigger] matches[j]).0 < old(
                self,
            ).spec_moving().len() && 0 <= matches[j].1 < old(self).spec_statics().len() by {
                assert(results@[j].0.index == matches[j].0);
            }
            Self::lemma_convert_fold_counts(
                old(self).spec_statics(),
                old(self).spec_moving(),
                old(self).spec_cfg(),
                matches,
                matches.len() as int,
            );
            // the batch removed exactly the converted movers: their
            // indices descend strictly and are all in range
            let sorted = choose|sorted: Seq<usize>|
                #![all_triggers]
                sorted_desc(sorted) && sorted.to_multiset() == conv.to_multiset()
                    && self.spec_moving() == remove_desc(old(self).spec_moving(), sorted);
            assert(sorted.len() == conv.len()) by {
                assert(sorted.to_multiset().len() == sorted.len());
                assert(conv.to_multiset().len() == conv.len());
            }
            assert forall|j: int|
                0 <= j < sorted.len() implies (#[trigger] sorted[j] as int) < old(
                self,
            ).spec_moving().len() by {
                assert(sorted[j] == sorted[j] && sorted.contains(sorted[j]));
                assert(sorted.to_multiset().count(sorted[j]) > 0);
                assert(conv.to_multiset().count(sorted[j]) > 0);
                assert(conv.contains(sorted[j]));
                let w = choose|w: int| 0 <= w < conv.len() && conv[w] == sorted[j];
                assert((conv[w] as int) < old(self).spec_moving().len());
            }
            crate::container::lemma_remove_desc_len(old(self).spec_moving(), sorted);
        }
    }
}

} // verus!
