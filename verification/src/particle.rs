//! Particles and the port-based binding state machine.
//!
//! A static particle carries a packed binding word: the low 32 bits name its
//! binding configuration, and bit `32 + p` records that angular port `p` is
//! already occupied by a fused partner.  The busy mask only ever gains bits.

use vstd::prelude::*;
use crate::vector::Vector;
use crate::vector::in_bounds;
use crate::vector::dist_sq;
use crate::vector::COORD_LIMIT;
use crate::vector::lemma_mul_bounds;
use crate::vector::clamp_spec;
use crate::vector::clamp_coord;
use crate::trig::div_trig;
use crate::trig::scale_by_trig;
use crate::trig::norm360;
use crate::trig::normalize_deg;
use crate::trig::cos_deg;
use crate::trig::sin_deg;
use crate::trig::cos_of_deg;
use crate::trig::sin_of_deg;
use crate::trig::atan2_deg_s;
use crate::trig::atan2_deg;

verus! {

/// Largest rotation magnitude, in degrees, accepted for a stored particle:
/// keeps every angle sum inside `i64`.
pub const ROT_LIMIT: i64 = 1_000_000_000;

/// A free particle drifting over the field.  `vel` is its velocity in the
/// same fixed-point unit as positions; `since` is the engine time at which
/// it appeared.
#[derive(Copy, Clone, PartialEq, Eq, Structural, Debug)]
pub struct MovingParticle {
    pub pos: Vector,
    pub vel: Vector,
    pub since: i64,
    pub flags: u64,
}

impl Default for MovingParticle {
    fn default() -> (r: MovingParticle)
        ensures
            r.pos.x == 0 && r.pos.y == 0,
            r.vel.x == 0 && r.vel.y == 0,
            r.since == 0 && r.flags == 0,
    {
        MovingParticle {
            pos: Vector { x: 0, y: 0 },
            vel: Vector { x: 0, y: 0 },
            since: 0,
            flags: 0,
        }
    }
}

/// A fused, immobile particle: position, rotation in degrees, and the
/// packed binding word.
#[derive(Copy, Clone, PartialEq, Eq, Structural, Debug)]
pub struct StaticParticle {
    pub pos: Vector,
    /// Rotation relative to the binding configuration, degrees.
    pub rot: i64,
    /// Packed binding state: `[busy port mask: high 32 bits, cfg id: low 32]`.
    pub binding_cfg_id: u64,
}

impl Default for StaticParticle {
    fn default() -> (r: StaticParticle)
        ensures
            r.pos.x == 0 && r.pos.y == 0,
            r.rot == 0 && r.binding_cfg_id == 0,
    {
        StaticParticle { pos: Vector { x: 0, y: 0 }, rot: 0, binding_cfg_id: 0 }
    }
}

/// The bit of the packed word that marks port `port` busy.
pub open spec fn port_bit(port: int) -> u64 {
    1u64 << ((32 + port) as u64)
}

/// Port `port` is not yet occupied in packed word `w`.
pub open spec fn port_free(w: u64, port: int) -> bool {
    w & port_bit(port) == 0
}

/// Number of busy ports among the first `n` of packed word `w`.
pub open spec fn busy_upto(w: u64, n: nat) -> nat
    decreases n,
{
    if n == 0 {
        0
    } else {
        busy_upto(w, (n - 1) as nat) + if port_free(w, n - 1) { 0nat } else { 1nat }
    }
}

/// Number of busy ports of packed word `w` (eight mask bits are tracked,
/// as in the packed layout; configurations use at most six).
pub open spec fn busy_count(w: u64) -> nat {
    busy_upto(w, 8)
}

/// Setting one port bit frees no port, occupies exactly the named one.
pub proof fn lemma_port_bit_or(w: u64, p: u64, q: u64)
    requires
        p < 8,
        q < 8,
    ensures
        port_free(w | port_bit(p as int), q as int) <==> (port_free(w, q as int) && p != q),
{
    assert((32 + p as int) as u64 == 32 + p);
    assert((32 + q as int) as u64 == 32 + q);
    assert(((w | (1u64 << (32 + p))) & (1u64 << (32 + q)) == 0) <==> ((w & (1u64 << (32 + q))
        == 0) && p != q)) by (bit_vector)
        requires
            p < 8,
            q < 8,
    ;
}

/// Setting port `p` busy raises the busy count by one when `p` was free,
/// and leaves it unchanged when `p` was already busy.
pub proof fn lemma_busy_upto_or(w: u64, p: u64, n: nat)
    requires
        p < 8,
        n <= 8,
    ensures
        busy_upto(w | port_bit(p as int), n) == busy_upto(w, n) + if p < n && port_free(
            w,
            p as int,
        ) {
            1nat
        } else {
            0nat
        },
    decreases n,
{
    if n > 0 {
        lemma_busy_upto_or(w, p, (n - 1) as nat);
        lemma_port_bit_or(w, p, (n - 1) as u64);
    }
}

/// The busy mask is monotonic: marking a port busy keeps every busy port
/// busy and adds at most one to the count.
pub proof fn lemma_busy_monotonic(w: u64, p: u64)
    requires
        p < 8,
    ensures
        forall|q: int| 0 <= q < 8 && !port_free(w, q) ==> !port_free(w | port_bit(p as int), q),
        busy_count(w | port_bit(p as int)) <= busy_count(w) + 1,
        port_free(w, p as int) ==> busy_count(w | port_bit(p as int)) == busy_count(w) + 1,
        !port_free(w, p as int) ==> w | port_bit(p as int) == w,
{
    assert forall|q: int| 0 <= q < 8 && !port_free(w, q) implies !port_free(
        w | port_bit(p as int),
        q,
    ) by {
        lemma_port_bit_or(w, p, q as u64);
    }
    lemma_busy_upto_or(w, p, 8);
    if !port_free(w, p as int) {
        assert((32 + p as int) as u64 == 32 + p);
        assert(w & (1u64 << (32 + p)) != 0 ==> (w | (1u64 << (32 + p))) == w) by (bit_vector);
    }
}

impl StaticParticle {
    /// Pack a configuration id (masked to its low eight bits) together with
    /// one pre-occupied port.
    pub fn bind_config_and_port(cfg_id: u64, port: u8) -> (r: u64)
        requires
            port < 8,
        ensures
            r == (cfg_id & 0xff) | port_bit(port as int),
    {
        proof {
            assert((32 + port as int) as u64 == 32 + port as u64);
        }
        (cfg_id & 0xff) | (1u64 << (32 + port as u64))
    }

    /// Whether port `port` is still free in this particle's packed word.
    pub fn is_port_free(&self, port: u8) -> (r: bool)
        requires
            port < 8,
        ensures
            r == port_free(self.binding_cfg_id, port as int),
    {
        proof {
            assert((32 + port as int) as u64 == 32 + port as u64);
        }
        self.binding_cfg_id & (1u64 << (32 + port as u64)) == 0
    }

    /// Number of ports of this particle already occupied.
    pub fn count_busy_ports(&self) -> (r: u8)
        ensures
            r == busy_count(self.binding_cfg_id),
    {
        let mut count: u8 = 0;
        let mut p: u8 = 0;
        while p < 8
            invariant
                p <= 8,
                count == busy_upto(self.binding_cfg_id, p as nat),
                count <= p,
            decreases 8 - p as int,
        {
            if !self.is_port_free(p) {
                count = count + 1;
            }
            p = p + 1;
        }
        count
    }

    /// Mark port `port` busy; every other bit of the packed word is kept.
    pub fn set_port_busy(&mut self, port: u8)
        requires
            port < 8,
        ensures
            final(self).binding_cfg_id == old(self).binding_cfg_id | port_bit(port as int),
            final(self).pos == old(self).pos,
            final(self).rot == old(self).rot,
    {
        proof {
            assert((32 + port as int) as u64 == 32 + port as u64);
        }
        self.binding_cfg_id = self.binding_cfg_id | (1u64 << (32 + port as u64));
    }
}

/// How a newly fused particle is oriented.
#[derive(Copy, Clone, PartialEq, Eq, Structural, Debug)]
pub enum AttachmentAlignment {
    /// Inherit the anchor's orientation; arrival direction is irrelevant.
    Zero,
    /// Align the arriving particle's own port to face the anchor's site.
    Port,
    /// Inherit the arrival heading: non-crystalline growth.
    Free,
}

/// Binding sites of a particle kind and their parameters.
///
/// The full circle is split into up to six consecutive angular segments
/// ("ports") starting at 0 degrees; a zero-width segment is a disabled
/// port.  Constructors establish `cfg_wf`; code that builds a value by
/// hand must keep it.
#[derive(Copy, Clone, Debug)]
pub struct BindingConfiguration {
    /// Consecutive segment widths, degrees, summing to at most 360.
    pub segments: [i64; 6],
    /// Attachment radius, in the fixed-point coordinate unit.
    pub radius: i64,
    /// Limit on simultaneous binds to one particle.
    pub max_binds: u8,
    /// Which ports may serve as the arriving particle's own site.
    pub attachment_site_mask: u8,
    /// How a newly fused particle is oriented.
    pub align: AttachmentAlignment,
}

/// Sum of the first `p` segment widths: where port `p`'s range begins.
pub open spec fn seg_start(segs: Seq<i64>, p: int) -> int
    decreases p,
{
    if p <= 0 {
        0
    } else {
        seg_start(segs, p - 1) + segs[p - 1]
    }
}

/// First port, from `p` upward, whose angular range contains `ca`
/// (an angle already reduced into [0, 360)).
pub open spec fn port_from(segs: Seq<i64>, ca: int, p: int) -> Option<int>
    decreases 6 - p,
{
    if p < 0 || p >= 6 {
        None
    } else if seg_start(segs, p) <= ca < seg_start(segs, p) + segs[p] {
        Some(p)
    } else {
        port_from(segs, ca, p + 1)
    }
}

/// The port whose angular range contains angle `a`, if any.
pub open spec fn port_of(segs: Seq<i64>, a: int) -> Option<int> {
    port_from(segs, norm360(a), 0)
}

/// The angular center of port `p`: defined only for an existing port of
/// positive width.  With whole-degree widths an odd width centers on the
/// lower whole degree.
pub open spec fn port_center(segs: Seq<i64>, p: int) -> Option<int> {
    if 0 <= p < 6 && segs[p] > 0 {
        Some(seg_start(segs, p) + segs[p] / 2)
    } else {
        None
    }
}

/// Port `p` may serve as an attachment site under `mask`.
pub open spec fn site_allowed(mask: u8, p: int) -> bool {
    mask & (1u8 << (p as u8)) != 0
}

/// Well-formed configuration: non-negative widths covering at most the
/// full circle, and a positive in-range radius.
pub open spec fn cfg_wf(cfg: BindingConfiguration) -> bool {
    &&& forall|i: int| 0 <= i < 6 ==> 0 <= #[trigger] cfg.segments@[i]
    &&& seg_start(cfg.segments@, 6) <= 360
    &&& 1 <= cfg.radius <= COORD_LIMIT
}

/// The two positions are within the configuration's attachment radius
/// (inclusive).
pub open spec fn close_enough(cfg: BindingConfiguration, p1: Vector, p2: Vector) -> bool {
    dist_sq(p1, p2) <= cfg.radius * cfg.radius
}

/// Segment starts grow with the port index while widths are non-negative.
pub proof fn lemma_seg_start_mono(segs: Seq<i64>, p: int, q: int)
    requires
        forall|i: int| 0 <= i < 6 ==> 0 <= #[trigger] segs[i],
        0 <= p <= q <= 6,
    ensures
        seg_start(segs, p) <= seg_start(segs, q),
    decreases q - p,
{
    if p < q {
        lemma_seg_start_mono(segs, p, q - 1);
    }
}

impl BindingConfiguration {
    /// Three ports of 120 degrees.
    pub fn make_tri() -> (r: BindingConfiguration)
        ensures
            cfg_wf(r),
            r.segments@ =~= seq![120i64, 120, 120, 0, 0, 0],
            r.radius == 5 && r.max_binds == 2 && r.attachment_site_mask == 0b111,
            r.align == AttachmentAlignment::Zero,
    {
        let r = BindingConfiguration {
            segments: [120, 120, 120, 0, 0, 0],
            radius: 5,
            max_binds: 2,
            attachment_site_mask: 0b00_000111,
            align: AttachmentAlignment::Zero,
        };
        proof {
            reveal_with_fuel(seg_start, 8);
        }
        r
    }

    /// Four ports of 90 degrees.
    pub fn make_square() -> (r: BindingConfiguration)
        ensures
            cfg_wf(r),
            r.segments@ =~= seq![90i64, 90, 90, 90, 0, 0],
            r.radius == 5 && r.max_binds == 3 && r.attachment_site_mask == 0b1111,
            r.align == AttachmentAlignment::Zero,
    {
        let r = BindingConfiguration {
            segments: [90, 90, 90, 90, 0, 0],
            radius: 5,
            max_binds: 3,
            attachment_site_mask: 0b00_001111,
            align: AttachmentAlignment::Zero,
        };
        proof {
            reveal_with_fuel(seg_start, 8);
        }
        r
    }

    /// Five ports of 72 degrees.
    pub fn make_penta() -> (r: BindingConfiguration)
        ensures
            cfg_wf(r),
            r.segments@ =~= seq![72i64, 72, 72, 72, 72, 0],
            r.radius == 5 && r.max_binds == 4 && r.attachment_site_mask == 0b11111,
            r.align == AttachmentAlignment::Zero,
    {
        let r = BindingConfiguration {
            segments: [72, 72, 72, 72, 72, 0],
            radius: 5,
            max_binds: 4,
            attachment_site_mask: 0b00_011111,
            align: AttachmentAlignment::Zero,
        };
        proof {
            reveal_with_fuel(seg_start, 8);
        }
        r
    }

    /// Six ports of 60 degrees.
    pub fn make_hexa() -> (r: BindingConfiguration)
        ensures
            cfg_wf(r),
            r.segments@ =~= seq![60i64, 60, 60, 60, 60, 60],
            r.radius == 5 && r.max_binds == 5 && r.attachment_site_mask == 0b111111,
            r.align == AttachmentAlignment::Zero,
    {
        let r = BindingConfiguration {
            segments: [60, 60, 60, 60, 60, 60],
            radius: 5,
            max_binds: 5,
            attachment_site_mask: 0b00_111111,
            align: AttachmentAlignment::Zero,
        };
        proof {
            reveal_with_fuel(seg_start, 8);
        }
        r
    }

    pub fn set_max_binds(&mut self, max_binds: u8)
        ensures
            *final(self) == (BindingConfiguration { max_binds, ..*old(self) }),
    {
        self.max_binds = max_binds;
    }

    pub fn set_radius(&mut self, radius: i64)
        requires
            1 <= radius <= COORD_LIMIT,
        ensures
            *final(self) == (BindingConfiguration { radius, ..*old(self) }),
    {
        self.radius = radius;
    }

    /// The same configuration under another alignment policy.
    pub fn with_alignment(self, align: AttachmentAlignment) -> (r: BindingConfiguration)
        ensures
            r == (BindingConfiguration { align, ..self }),
    {
        BindingConfiguration { align, ..self }
    }

    /// The attachment radius.
    pub fn radius(&self) -> (r: i64)
        ensures
            r == self.radius,
    {
        self.radius
    }

    /// The port whose angular range contains `angle`, or `None` if the
    /// angle falls in an unassigned remainder of the circle.
    pub fn angle_to_port(&self, angle: i64) -> (r: Option<usize>)
        requires
            cfg_wf(*self),
        ensures
            match r {
                Some(p) => p < 6 && port_of(self.segments@, angle as int) == Some(p as int),
                None => port_of(self.segments@, angle as int) is None,
            },
    {
        let ca = normalize_deg(angle);
        let mut start: i64 = 0;
        let mut p: usize = 0;
        while p < 6
            invariant
                cfg_wf(*self),
                p <= 6,
                0 <= ca < 360,
                ca == norm360(angle as int),
                start == seg_start(self.segments@, p as int),
                port_from(self.segments@, ca as int, 0) == port_from(
                    self.segments@,
                    ca as int,
                    p as int,
                ),
            decreases 6 - p as int,
        {
            proof {
                lemma_seg_start_mono(self.segments@, p as int, 6);
                lemma_seg_start_mono(self.segments@, p as int + 1, 6);
            }
            let width = self.segments[p];
            if start <= ca && ca < start + width {
                return Some(p);
            }
            start = start + width;
            p = p + 1;
        }
        None
    }

    /// The angular center of `port`, or `None` for an absent or disabled
    /// port.
    pub fn port_to_angle(&self, port: usize) -> (r: Option<i64>)
        requires
            cfg_wf(*self),
        ensures
            match r {
                Some(a) => port_center(self.segments@, port as int) == Some(a as int) && 0 <= a
                    <= 360,
                None => port_center(self.segments@, port as int) is None,
            },
    {
        if port >= 6 {
            return None;
        }
        let width = self.segments[port];
        if width <= 0 {
            return None;
        }
        let mut start: i64 = 0;
        let mut p: usize = 0;
        while p < port
            invariant
                cfg_wf(*self),
                p <= port < 6,
                start == seg_start(self.segments@, p as int),
            decreases port - p as int,
        {
            proof {
                lemma_seg_start_mono(self.segments@, p as int, 6);
                lemma_seg_start_mono(self.segments@, p as int + 1, 6);
            }
            start = start + self.segments[p];
            p = p + 1;
        }
        proof {
            lemma_seg_start_mono(self.segments@, 0, port as int);
            lemma_seg_start_mono(self.segments@, port as int, 6);
            lemma_seg_start_mono(self.segments@, port as int + 1, 6);
            assert(seg_start(self.segments@, port as int + 1) == seg_start(
                self.segments@,
                port as int,
            ) + self.segments@[port as int]);
            assert(width as int / 2 <= width as int);
        }
        Some(start + ((width as u64 / 2) as i64))
    }

    /// Whether `port` is open for an arriving particle under this
    /// configuration's site mask.
    pub fn is_port_attachable(&self, port: usize) -> (r: bool)
        requires
            port < 8,
        ensures
            r == site_allowed(self.attachment_site_mask, port as int),
    {
        proof {
            assert((port as int) as u8 == port as u8);
        }
        self.attachment_site_mask & (1u8 << (port as u8)) != 0
    }

    /// The two positions are within the attachment radius of each other.
    pub fn close_enough_to_bind(&self, pos1: &Vector, pos2: &Vector) -> (r: bool)
        requires
            cfg_wf(*self),
            in_bounds(*pos1, COORD_LIMIT as int),
            in_bounds(*pos2, COORD_LIMIT as int),
        ensures
            r == close_enough(*self, *pos1, *pos2),
    {
        proof {
            lemma_mul_bounds(self.radius as int, self.radius as int, 1_000_000_000);
        }
        Vector::distance_squared(pos1, pos2) <= self.radius * self.radius
    }
}

/// Outcome of a successful geometric match: the rotation to apply and the
/// chosen ports on either side.  Values of this type come only out of
/// `get_binding`; they are never hand-built.
#[derive(Copy, Clone, PartialEq, Eq, Structural, Debug)]
pub struct BindingResult {
    /// Rotation applied to the arriving particle (ignored until
    /// application under `Port` alignment).
    rot: i64,
    /// Chosen port at the static particle.
    site_at_static: u8,
    /// Chosen port at the moving particle.
    site_at_moving: u8,
}

/// The fields a matching decision settles on, as mathematical integers:
/// `(rotation, port at the static side, port at the moving side)`; `None`
/// when the pair is rejected (too far, ports busy, no port at the angle,
/// or the site not attachable).
pub open spec fn binding_of(
    mp: MovingParticle,
    sp: StaticParticle,
    mp_bind_cfg: BindingConfiguration,
    sp_bind_cfg: BindingConfiguration,
) -> Option<(int, int, int)> {
    if !close_enough(sp_bind_cfg, mp.pos, sp.pos) || busy_count(sp.binding_cfg_id)
        >= sp_bind_cfg.max_binds {
        None
    } else {
        let ang = atan2_deg_s(mp.pos.y - sp.pos.y, mp.pos.x - sp.pos.x);
        match port_of(sp_bind_cfg.segments@, ang - sp.rot) {
            None => None,
            Some(ps) => if !site_allowed(sp_bind_cfg.attachment_site_mask, ps) || !port_free(
                sp.binding_cfg_id,
                ps,
            ) {
                None
            } else {
                let heading = atan2_deg_s(mp.vel.y as int, mp.vel.x as int);
                let target = if sp_bind_cfg.align is Free {
                    180 + ang - heading
                } else {
                    180 + ang - sp.rot
                };
                let rot = if sp_bind_cfg.align is Zero {
                    sp.rot as int
                } else if sp_bind_cfg.align is Port {
                    0
                } else {
                    heading
                };
                match port_of(mp_bind_cfg.segments@, target) {
                    None => None,
                    Some(pm) => if site_allowed(mp_bind_cfg.attachment_site_mask, pm) {
                        Some((rot, ps, pm))
                    } else {
                        None
                    },
                }
            },
        }
    }
}

/// The world angle of the static particle's binding site: the port center
/// turned by the particle's rotation, or `0` for an absent port.
pub open spec fn site_world_angle(sp_bind_cfg: BindingConfiguration, sp: StaticParticle, ps: int) -> int {
    match port_center(sp_bind_cfg.segments@, ps) {
        Some(c) => c + sp.rot,
        None => 0,
    }
}

/// Where a fused particle comes to rest: snapped onto the anchor's
/// port-center direction at the attachment radius (saturated into the
/// coordinate range), except under `Free` alignment, which keeps the
/// arriving particle's own position.
pub open spec fn snap_pos(
    sp_bind_cfg: BindingConfiguration,
    sp: StaticParticle,
    ps: int,
    mp_pos: Vector,
) -> Vector {
    if sp_bind_cfg.align is Free {
        mp_pos
    } else {
        let a = site_world_angle(sp_bind_cfg, sp, ps);
        Vector {
            x: clamp_spec(sp.pos.x + div_trig(sp_bind_cfg.radius * cos_deg(a))) as i64,
            y: clamp_spec(sp.pos.y + div_trig(sp_bind_cfg.radius * sin_deg(a))) as i64,
        }
    }
}

/// The rotation of a fused particle: under `Port` alignment the deferred
/// rotation resolves so the particle's own port faces the anchor's site
/// (reduced into [0, 360)); otherwise the rotation matched earlier stands.
pub open spec fn fused_rot(
    mp_bind_cfg: BindingConfiguration,
    sp_bind_cfg: BindingConfiguration,
    sp: StaticParticle,
    rot: int,
    ps: int,
    pm: int,
) -> int {
    if sp_bind_cfg.align is Port {
        match port_center(mp_bind_cfg.segments@, pm) {
            Some(mc) => norm360(180 + site_world_angle(sp_bind_cfg, sp, ps) - mc),
            None => 0,
        }
    } else {
        rot
    }
}

/// The static particle a successful application creates: resting place,
/// resolved rotation, and a fresh packed word with the arriving side's
/// own port already busy.
pub open spec fn fused_particle(
    rot: int,
    ps: int,
    pm: int,
    mp: MovingParticle,
    sp: StaticParticle,
    mp_bind_cfg: BindingConfiguration,
    sp_bind_cfg: BindingConfiguration,
) -> StaticParticle {
    StaticParticle {
        pos: snap_pos(sp_bind_cfg, sp, ps, mp.pos),
        rot: fused_rot(mp_bind_cfg, sp_bind_cfg, sp, rot, ps, pm) as i64,
        binding_cfg_id: port_bit(pm),
    }
}

/// A binding result as the matching algorithm shapes it: ports below six
/// and a rotation within the accepted range.
pub open spec fn br_wf(br: BindingResult) -> bool {
    &&& br.spec_site_at_static() < 6
    &&& br.spec_site_at_moving() < 6
    &&& -ROT_LIMIT <= br.spec_rot() <= ROT_LIMIT
}

impl BindingResult {
    /// The rotation this match would apply.
    pub fn rotation(&self) -> (r: i64)
        ensures
            r == self.spec_rot(),
    {
        self.rot
    }

    /// The chosen port at the static particle.
    pub fn site_at_static(&self) -> (r: u8)
        ensures
            r == self.spec_site_at_static(),
    {
        self.site_at_static
    }

    /// The chosen port at the moving particle.
    pub fn site_at_moving(&self) -> (r: u8)
        ensures
            r == self.spec_site_at_moving(),
    {
        self.site_at_moving
    }

    pub closed spec fn spec_rot(self) -> i64 {
        self.rot
    }

    pub closed spec fn spec_site_at_static(self) -> u8 {
        self.site_at_static
    }

    pub closed spec fn spec_site_at_moving(self) -> u8 {
        self.site_at_moving
    }

    /// Find the port at the static particle that the moving particle can
    /// attach to, and match it to a port at the moving particle according
    /// to the two configurations; `None` if no match is possible.
    pub fn get_binding(
        mp: &MovingParticle,
        sp: &StaticParticle,
        mp_bind_cfg: &BindingConfiguration,
        sp_bind_cfg: &BindingConfiguration,
    ) -> (r: Option<BindingResult>)
        requires
            cfg_wf(*mp_bind_cfg),
            cfg_wf(*sp_bind_cfg),
            in_bounds(mp.pos, COORD_LIMIT as int),
            in_bounds(mp.vel, COORD_LIMIT as int),
            in_bounds(sp.pos, COORD_LIMIT as int),
            -ROT_LIMIT <= sp.rot <= ROT_LIMIT,
        ensures
            match r {
                Some(br) => {
                    &&& binding_of(*mp, *sp, *mp_bind_cfg, *sp_bind_cfg) == Some(
                        (br.spec_rot() as int, br.spec_site_at_static() as int,
                        br.spec_site_at_moving() as int),
                    )
                    &&& br_wf(br)
                },
                None => binding_of(*mp, *sp, *mp_bind_cfg, *sp_bind_cfg) is None,
            },
    {
        if !sp_bind_cfg.close_enough_to_bind(&mp.pos, &sp.pos) || sp.count_busy_ports()
            >= sp_bind_cfg.max_binds {
            return None;
        }
        let diff_to_mp = Vector::diff(&mp.pos, &sp.pos);
        let angle_to_mp = atan2_deg(diff_to_mp.y, diff_to_mp.x);
        let port_at_sp = match sp_bind_cfg.angle_to_port(angle_to_mp - sp.rot) {
            Some(p) => p,
            None => {
                return None;
            },
        };
        if !sp_bind_cfg.is_port_attachable(port_at_sp) {
            return None;
        }
        if !sp.is_port_free(port_at_sp as u8) {
            return None;
        }
        match sp_bind_cfg.align {
            AttachmentAlignment::Zero => {
                // The particle movement direction is irrelevant: the
                // particle is considered pulled up to the rendezvous point.
                match mp_bind_cfg.angle_to_port(180 + angle_to_mp - sp.rot) {
                    Some(port_at_mp) => if mp_bind_cfg.is_port_attachable(port_at_mp) {
                        Some(
                            BindingResult {
                                rot: sp.rot,
                                site_at_static: port_at_sp as u8,
                                site_at_moving: port_at_mp as u8,
                            },
                        )
                    } else {
                        None
                    },
                    None => None,
                }
            },
            AttachmentAlignment::Port => {
                // Align port centers of the moving and static particles:
                // the same lookup as under zero alignment, but the
                // rotation is resolved only at application time.
                match mp_bind_cfg.angle_to_port(180 + angle_to_mp - sp.rot) {
                    Some(port_at_mp) => if mp_bind_cfg.is_port_attachable(port_at_mp) {
                        Some(
                            BindingResult {
                                rot: 0,
                                site_at_static: port_at_sp as u8,
                                site_at_moving: port_at_mp as u8,
                            },
                        )
                    } else {
                        None
                    },
                    None => None,
                }
            },
            AttachmentAlignment::Free => {
                // Use the movement direction as the rotation:
                // non-crystalline, freely growing attachments.
                let heading = atan2_deg(mp.vel.y, mp.vel.x);
                match mp_bind_cfg.angle_to_port(180 + angle_to_mp - heading) {
                    Some(port_at_mp) => if mp_bind_cfg.is_port_attachable(port_at_mp) {
                        Some(
                            BindingResult {
                                rot: heading,
                                site_at_static: port_at_sp as u8,
                                site_at_moving: port_at_mp as u8,
                            },
                        )
                    } else {
                        None
                    },
                    None => None,
                }
            },
        }
    }

    /// Commit this match: re-validate that the chosen static port is still
    /// free and the particle still under its bind limit (a match computed
    /// earlier in a batch may have been overtaken), mark the port busy,
    /// and return the newly fused static particle; `None`, with the
    /// anchor unchanged, if the match went stale.
    pub fn apply_binding(
        self,
        mp: &MovingParticle,
        sp: &mut StaticParticle,
        mp_bind_cfg: &BindingConfiguration,
        sp_bind_cfg: &BindingConfiguration,
    ) -> (r: Option<StaticParticle>)
        requires
            br_wf(self),
            cfg_wf(*mp_bind_cfg),
            cfg_wf(*sp_bind_cfg),
            in_bounds(mp.pos, COORD_LIMIT as int),
            in_bounds(old(sp).pos, COORD_LIMIT as int),
            -ROT_LIMIT <= old(sp).rot <= ROT_LIMIT,
        ensures
            ({
                let ps = self.spec_site_at_static() as int;
                if port_free(old(sp).binding_cfg_id, ps) && busy_count(old(sp).binding_cfg_id)
                    < sp_bind_cfg.max_binds {
                    &&& r == Some(
                        fused_particle(
                            self.spec_rot() as int,
                            ps,
                            self.spec_site_at_moving() as int,
                            *mp,
                            *old(sp),
                            *mp_bind_cfg,
                            *sp_bind_cfg,
                        ),
                    )
                    &&& final(sp).binding_cfg_id == old(sp).binding_cfg_id | port_bit(ps)
                    &&& final(sp).pos == old(sp).pos
                    &&& final(sp).rot == old(sp).rot
                    &&& busy_count(final(sp).binding_cfg_id) == busy_count(old(sp).binding_cfg_id)
                        + 1
                    &&& busy_count(final(sp).binding_cfg_id) <= sp_bind_cfg.max_binds
                } else {
                    r is None && *final(sp) == *old(sp)
                }
            }),
            // the busy mask is monotonic: no port is ever freed
            forall|q: int|
                0 <= q < 8 && !port_free(old(sp).binding_cfg_id, q) ==> !port_free(
                    final(sp).binding_cfg_id,
                    q,
                ),
    {
        if !sp.is_port_free(self.site_at_static) || sp.count_busy_ports() >= sp_bind_cfg.max_binds {
            return None;
        }
        proof {
            lemma_busy_monotonic(sp.binding_cfg_id, self.site_at_static as u64);
        }
        sp.set_port_busy(self.site_at_static);

        // world angle of the chosen binding site
        let angle: i64 = match sp_bind_cfg.port_to_angle(self.site_at_static as usize) {
            Some(a) => a + sp.rot,
            None => 0,
        };
        let pos: Vector = match sp_bind_cfg.align {
            AttachmentAlignment::Free => mp.pos,
            _ => {
                let c = cos_of_deg(angle);
                let s = sin_of_deg(angle);
                Vector {
                    x: clamp_coord(sp.pos.x + scale_by_trig(sp_bind_cfg.radius, c)),
                    y: clamp_coord(sp.pos.y + scale_by_trig(sp_bind_cfg.radius, s)),
                }
            },
        };
        let rot: i64 = match sp_bind_cfg.align {
            AttachmentAlignment::Port => {
                // rotate the new particle so its own port faces the site
                match mp_bind_cfg.port_to_angle(self.site_at_moving as usize) {
                    Some(mp_angle) => normalize_deg(180 + angle - mp_angle),
                    None => 0,
                }
            },
            _ => self.rot,
        };
        proof {
            let pb = port_bit(self.site_at_moving as int);
            assert(0u64 & 0xff == 0u64) by (bit_vector);
            assert(0u64 | pb == pb) by (bit_vector);
        }
        Some(
            StaticParticle {
                pos,
                rot,
                binding_cfg_id: StaticParticle::bind_config_and_port(0, self.site_at_moving),
            },
        )
    }
}

/// The packed word of a static particle after a sequence of attempted
/// bindings, each marking its port only when that port is free and the
/// particle is still under `max_binds`.
pub open spec fn mask_after(w: u64, ports: Seq<u64>, max_binds: u8) -> u64
    decreases ports.len(),
{
    if ports.len() == 0 {
        w
    } else {
        let w1 = if port_free(w, ports[0] as int) && busy_count(w) < max_binds {
            w | port_bit(ports[0] as int)
        } else {
            w
        };
        mask_after(w1, ports.drop_first(), max_binds)
    }
}

/// Busy-port monotonicity: over any sequence of bindings to the same
/// static particle the busy mask only grows — no busy port is ever freed
/// — and its count never exceeds `max_binds`.
pub proof fn lemma_busy_port_monotonicity(w: u64, ports: Seq<u64>, max_binds: u8)
    requires
        forall|i: int| 0 <= i < ports.len() ==> #[trigger] ports[i] < 8,
        busy_count(w) <= max_binds,
    ensures
        forall|q: int|
            0 <= q < 8 && !port_free(w, q) ==> !port_free(mask_after(w, ports, max_binds), q),
        busy_count(mask_after(w, ports, max_binds)) <= max_binds,
    decreases ports.len(),
{
    if ports.len() > 0 {
        let w1 = if port_free(w, ports[0] as int) && busy_count(w) < max_binds {
            w | port_bit(ports[0] as int)
        } else {
            w
        };
        lemma_busy_monotonic(w, ports[0]);
        lemma_busy_port_monotonicity(w1, ports.drop_first(), max_binds);
    }
}

} // verus!
