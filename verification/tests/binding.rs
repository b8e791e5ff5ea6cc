//! Port geometry and the binding state machine.

use particle_field::Vector;
use particle_field::particle::AttachmentAlignment;
use particle_field::particle::BindingConfiguration;
use particle_field::particle::BindingResult;
use particle_field::particle::MovingParticle;
use particle_field::particle::StaticParticle;
use particle_field::trig::atan2_deg;
use particle_field::trig::cos_of_deg;
use particle_field::trig::sin_of_deg;
use particle_field::trig::normalize_deg;

#[test]
fn port_angle() {
    let cfg = BindingConfiguration::make_square();
    assert_eq!(cfg.angle_to_port(0), Some(0));
    assert_eq!(cfg.angle_to_port(30), Some(0));
    assert_eq!(cfg.angle_to_port(90), Some(1));
    assert_eq!(cfg.angle_to_port(145), Some(1));
    assert_eq!(cfg.angle_to_port(175), Some(1));
    assert_eq!(cfg.angle_to_port(180), Some(2));
    assert_eq!(cfg.angle_to_port(270), Some(3));
    assert_eq!(cfg.angle_to_port(355), Some(3));
    assert_eq!(cfg.angle_to_port(365), Some(0));
    assert_eq!(cfg.angle_to_port(-20), Some(3));

    assert_eq!(cfg.port_to_angle(0), Some(45));
    assert_eq!(cfg.port_to_angle(1), Some(135));
    assert_eq!(cfg.port_to_angle(2), Some(225));
    assert_eq!(cfg.port_to_angle(3), Some(315));
    assert_eq!(cfg.port_to_angle(4), None);
    assert_eq!(cfg.port_to_angle(12), None);
}

#[test]
fn port_angle_partial_circle() {
    // trailing zero-width segments are absent ports, and an angle in the
    // unassigned remainder matches nothing
    let cfg = BindingConfiguration::make_tri();
    assert_eq!(cfg.angle_to_port(0), Some(0));
    assert_eq!(cfg.angle_to_port(130), Some(1));
    assert_eq!(cfg.angle_to_port(359), Some(2));
    assert_eq!(cfg.port_to_angle(3), None);
    let mut narrow = BindingConfiguration::make_tri();
    narrow.segments = [90, 90, 0, 0, 0, 0];
    assert_eq!(narrow.angle_to_port(200), None, "unassigned remainder");
    assert_eq!(narrow.port_to_angle(2), None, "zero-width port disabled");
}

#[test]
fn trig_against_host_float() {
    // the integer tables stand within one degree (and one fixed-point
    // step) of the host's floating-point trigonometry
    let samples: [(i64, i64); 8] = [
        (0, 1000),
        (707, 707),
        (1000, 0),
        (999, -1),
        (-3, -997),
        (250, -433),
        (-1, 2),
        (12345, -67890),
    ];
    for (dy, dx) in samples.iter() {
        let got = atan2_deg(*dy, *dx);
        let float_deg = (*dy as f64).atan2(*dx as f64).to_degrees().rem_euclid(360.0);
        let diff = (got as f64 - float_deg).rem_euclid(360.0).min(
            (float_deg - got as f64).rem_euclid(360.0),
        );
        assert!(diff <= 1.0, "atan2_deg({dy},{dx}) = {got}, float {float_deg}");
    }
    for a in [-725i64, -90, 0, 30, 45, 270, 359, 1000].iter() {
        let c = cos_of_deg(*a);
        let s = sin_of_deg(*a);
        let fc = (*a as f64).to_radians().cos() * 1_000_000.0;
        let fs = (*a as f64).to_radians().sin() * 1_000_000.0;
        assert!((c as f64 - fc).abs() <= 1.0, "cos {a}: {c} vs {fc}");
        assert!((s as f64 - fs).abs() <= 1.0, "sin {a}: {s} vs {fs}");
        assert_eq!(normalize_deg(*a), (*a).rem_euclid(360));
    }
}

fn square_with(align: AttachmentAlignment) -> BindingConfiguration {
    BindingConfiguration::make_square().with_alignment(align)
}

#[test]
fn bind_align() {
    // receiving and moving ports follow the relative position and the
    // anchor's rotation; the fused rotation under port alignment faces
    // the particle's own port at the anchor's site
    let bind_port = square_with(AttachmentAlignment::Port);
    let bind_zero = square_with(AttachmentAlignment::Zero);

    let mut sp = StaticParticle {
        pos: Vector::new(0, 0),
        rot: 0,
        binding_cfg_id: 0,
    };
    let mut mp = MovingParticle {
        pos: Vector::new(1, 1),
        vel: Vector::new(1, 0),
        since: 0,
        flags: 0,
    };
    for ro in 0..4i64 {
        sp.rot = 90 * ro;
        // a unit heading at 90*ro degrees
        mp.vel = match ro {
            0 => Vector::new(1, 0),
            1 => Vector::new(0, 1),
            2 => Vector::new(-1, 0),
            _ => Vector::new(0, -1),
        };
        let bind_result =
            BindingResult::get_binding(&mp, &sp, &bind_port, &bind_port).expect("port align bind");
        assert_eq!(bind_result.rotation(), 0, "deferred rotation at ro {ro}");
        assert_eq!(bind_result.site_at_static() as i64, (4 - ro) % 4, "static site at ro {ro}");
        assert_eq!(bind_result.site_at_moving() as i64, (6 - ro) % 4, "moving site at ro {ro}");
        let mut sp_copy = sp;
        let particle = bind_result
            .apply_binding(&mp, &mut sp_copy, &bind_port, &bind_port)
            .expect("port align apply");
        assert_eq!(particle.rot.rem_euclid(360), 90 * ro, "fused rotation at ro {ro}");

        let bind_result =
            BindingResult::get_binding(&mp, &sp, &bind_zero, &bind_zero).expect("zero align bind");
        assert_eq!(bind_result.rotation(), sp.rot, "inherited rotation at ro {ro}");
        assert_eq!(bind_result.site_at_static() as i64, (4 - ro) % 4);
        assert_eq!(bind_result.site_at_moving() as i64, (6 - ro) % 4);
    }
}

#[test]
fn port_alignment_ignores_heading() {
    // under port alignment the moving-side lookup follows the relative
    // position and the anchor's rotation, exactly as under zero
    // alignment; the arrival heading plays no part
    let cfg = square_with(AttachmentAlignment::Port);
    let sp = StaticParticle::default();
    let mp = MovingParticle {
        pos: Vector::new(1, 0),
        vel: Vector::new(0, 1),  // heading north, away from the lookup angle
        since: 0,
        flags: 0,
    };
    let binding = BindingResult::get_binding(&mp, &sp, &cfg, &cfg).expect("must match");
    assert_eq!(binding.site_at_static(), 0);
    assert_eq!(binding.site_at_moving(), 2, "lookup uses 180 + angle - rotation");
}

#[test]
fn square_geometry_contact() {
    // static particle at the origin with square configuration; a moving
    // particle at (1, 0) matches static port 0 under zero alignment,
    // produces rotation 0, and consumes exactly one port
    let cfg = BindingConfiguration::make_square();
    let mut sp = StaticParticle::default();
    let mp = MovingParticle {
        pos: Vector::new(1, 0),
        vel: Vector::new(1, 0),
        since: 0,
        flags: 0,
    };
    assert_eq!(sp.count_busy_ports(), 0);
    let binding = BindingResult::get_binding(&mp, &sp, &cfg, &cfg).expect("contact must match");
    assert_eq!(binding.site_at_static(), 0);
    assert_eq!(binding.rotation(), 0);
    let fused = binding.apply_binding(&mp, &mut sp, &cfg, &cfg).expect("apply must succeed");
    assert_eq!(sp.count_busy_ports(), 1, "exactly one port consumed");
    assert!(!sp.is_port_free(0));
    assert!(sp.is_port_free(1) && sp.is_port_free(2) && sp.is_port_free(3));
    assert_eq!(fused.rot, 0);
    // the fused particle's own arrival port (180 degrees, port 2) starts busy
    assert!(!fused.is_port_free(2));
    assert_eq!(fused.count_busy_ports(), 1);
    // snapped onto the port-0 center direction (45 degrees) at radius 5
    assert_eq!(fused.pos, Vector::new(3, 3));
}

#[test]
fn busy_port_monotonicity() {
    // over successive bindings the busy mask only grows and its count
    // never exceeds the bind limit
    let mut cfg = BindingConfiguration::make_square();
    cfg.set_max_binds(2);
    let mut sp = StaticParticle::default();
    let approaches = [
        Vector::new(1, 0),
        Vector::new(0, 1),
        Vector::new(-1, 0),
        Vector::new(0, -1),
    ];
    let mut masks: Vec<u64> = vec![sp.binding_cfg_id];
    let mut bound: usize = 0;
    for pos in approaches.iter() {
        let mp = MovingParticle { pos: *pos, vel: Vector::new(1, 0), since: 0, flags: 0 };
        if let Some(binding) = BindingResult::get_binding(&mp, &sp, &cfg, &cfg) {
            let applied = binding.apply_binding(&mp, &mut sp, &cfg, &cfg);
            if applied.is_some() {
                bound += 1;
            }
        }
        masks.push(sp.binding_cfg_id);
    }
    for w in masks.windows(2) {
        assert_eq!(w[0] & w[1], w[0], "mask only grows");
    }
    assert_eq!(bound, 2, "bind limit caps successful bindings");
    assert!(sp.count_busy_ports() <= 2);
}

#[test]
fn rejection_reasons() {
    let cfg = BindingConfiguration::make_square();
    let sp = StaticParticle::default();
    // too far: outside the attachment radius
    let far = MovingParticle { pos: Vector::new(6, 0), vel: Vector::new(1, 0), since: 0, flags: 0 };
    assert!(BindingResult::get_binding(&far, &sp, &cfg, &cfg).is_none());
    // port busy: the port covering the approach is already occupied
    let mut busy = sp;
    busy.set_port_busy(0);
    let mp = MovingParticle { pos: Vector::new(1, 0), vel: Vector::new(1, 0), since: 0, flags: 0 };
    assert!(BindingResult::get_binding(&mp, &busy, &cfg, &cfg).is_none());
    // no port at the angle: an approach into an unassigned remainder
    let mut half = cfg;
    half.segments = [90, 90, 0, 0, 0, 0];
    let below = MovingParticle {
        pos: Vector::new(0, -1),
        vel: Vector::new(1, 0),
        since: 0,
        flags: 0,
    };
    assert!(BindingResult::get_binding(&below, &sp, &half, &half).is_none());
    // site not attachable: the moving side's own port is outside the mask
    let mut masked = cfg;
    masked.attachment_site_mask = 0b0011;  // ports 2 and 3 cannot arrive
    assert!(BindingResult::get_binding(&mp, &sp, &masked, &cfg).is_none());
    // bind limit: a particle at its limit accepts nothing
    let mut limited = cfg;
    limited.set_max_binds(0);
    assert!(BindingResult::get_binding(&mp, &sp, &cfg, &limited).is_none());
}

#[test]
fn stale_result_apply_fails_silently() {
    let cfg = BindingConfiguration::make_square();
    let mut sp = StaticParticle::default();
    let mp = MovingParticle { pos: Vector::new(1, 0), vel: Vector::new(1, 0), since: 0, flags: 0 };
    let binding = BindingResult::get_binding(&mp, &sp, &cfg, &cfg).expect("bind");
    // another conversion lands first on the same port
    sp.set_port_busy(0);
    let before = sp;
    assert!(binding.apply_binding(&mp, &mut sp, &cfg, &cfg).is_none());
    assert_eq!(sp, before, "failed application leaves the anchor unchanged");
}

#[test]
fn packed_word_helpers() {
    let w = StaticParticle::bind_config_and_port(0x1f07, 3);
    assert_eq!(w & 0xff, 0x07, "configuration id masked to eight bits");
    assert_eq!(w >> 32, 0b1000, "port three busy");
    let mut sp = StaticParticle::default();
    sp.binding_cfg_id = w;
    assert!(!sp.is_port_free(3));
    assert!(sp.is_port_free(0));
    assert_eq!(sp.count_busy_ports(), 1);
    sp.set_port_busy(5);
    assert_eq!(sp.count_busy_ports(), 2);
    assert!(!sp.is_port_free(3), "older bits are kept");
}
