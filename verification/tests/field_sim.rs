//! The field orchestrator: seeding, attachment scans, capped batch
//! conversion, and capacity behaviour.

use particle_field::Vector;
use particle_field::field::Field;
use particle_field::particle::BindingConfiguration;
use particle_field::field::next_velocity;

fn unit_east() -> Vector {
    Vector::new(1, 0)
}

#[test]
fn isolated_seed() {
    // with no static particles, a seed at an empty location succeeds and
    // raises the static count to one; the moving count is untouched
    let mut f = Field::new(200, 200);
    f.add_particle(Vector::new(120, 120), unit_east());
    assert_eq!(f.moving_particles_count(), 1);
    assert_eq!(f.static_particles_count(), 0);
    assert!(f.add_static_particle(Vector::new(0, 0), unit_east()));
    assert_eq!(f.static_particles_count(), 1);
    assert_eq!(f.moving_particles_count(), 1);
    let seed = f.static_particle_at(0).unwrap();
    assert_eq!(seed.pos, Vector::new(0, 0));
    assert_eq!(seed.rot, 0);
    assert_eq!(seed.binding_cfg_id, 0);
}

#[test]
fn attachment() {
    let mut f = Field::new(200, 200);
    f.set_binding_configuration(BindingConfiguration::make_square());
    assert!(f.add_static_particle(Vector::new(0, 0), unit_east()));

    f.add_particle(Vector::new(1, 0), unit_east());
    f.add_particle(Vector::new(-5, 1), unit_east());
    f.add_particle(Vector::new(2, 2), unit_east());
    f.add_particle(Vector::new(-5, 6), unit_east());

    let att = f.check_mp_attachment();
    assert_eq!(att[0].0.index, 0);
    assert_eq!(att[1].0.index, 2);
    assert_eq!(att.len(), 2);

    f.update_attachments();

    // the first match fused; the second targeted the same port of the
    // same anchor, went stale mid-batch, and silently stayed moving
    assert_eq!(f.moving_particles_count(), 3);
    assert_eq!(f.static_particles_count(), 2);

    let att = f.check_mp_attachment();
    assert!(att.is_empty(), "attachments found on second pass");
}

#[test]
fn attachment_is_committed() {
    let mut f = Field::new(200, 200);
    f.set_binding_configuration(BindingConfiguration::make_square());
    assert!(f.add_static_particle(Vector::new(0, 0), unit_east()));
    f.add_particle(Vector::new(1, 0), unit_east());
    f.update_attachments();
    // the mover fused: one moving particle gone, one static added, and
    // the anchor's port-0 bit set
    assert_eq!(f.moving_particles_count(), 0);
    assert_eq!(f.static_particles_count(), 2);
    let anchor = f.static_particle_at(0).unwrap();
    assert!(!anchor.is_port_free(0));
    assert_eq!(anchor.count_busy_ports(), 1);
    // the fused particle snapped to port 0's center (45 degrees, radius 5)
    let fused = f.static_particle_at(1).unwrap();
    assert_eq!(fused.pos, Vector::new(3, 3));
    assert_eq!(fused.rot, 0);
}

#[test]
fn capped_batch_conversion() {
    // five simultaneously eligible moving particles: at most four convert
    // in one tick; the fifth follows on the next tick
    let mut f = Field::new(200_000, 200_000);
    assert!(f.add_static_particle(Vector::new(0, 0), unit_east()));
    // headings toward five distinct hexagonal ports, at distance 2000
    // (radius is 5 in configuration units; positions are scaled by 1000)
    let mut cfg = BindingConfiguration::make_hexa();
    cfg.set_radius(5000);
    f.set_binding_configuration(cfg);
    let spots = [
        Vector::new(1732, 1000),
        Vector::new(0, 2000),
        Vector::new(-1732, 1000),
        Vector::new(-1732, -1000),
        Vector::new(0, -2000),
    ];
    for pos in spots.iter() {
        f.add_particle(*pos, unit_east());
    }
    assert_eq!(f.moving_particles_count(), 5);

    f.update_attachments();
    assert_eq!(f.moving_particles_count(), 1, "at most four conversions per tick");
    assert_eq!(f.static_particles_count(), 5);

    f.update_attachments();
    assert_eq!(f.moving_particles_count(), 0, "the fifth converts next tick");
    assert_eq!(f.static_particles_count(), 6);
}

#[test]
fn full_container_add_is_a_noop() {
    // addParticle on a full moving container leaves the count unchanged
    // and signals nothing
    let mut f = Field::new(10_000, 10_000);
    let mut k: i64 = 0;
    while k < 1001 {
        f.add_particle(Vector::new(k % 100, (k * 7) % 100), unit_east());
        k += 1;
    }
    assert_eq!(f.moving_particles_count(), 1000);
    f.add_particle(Vector::new(0, 0), unit_east());
    assert_eq!(f.moving_particles_count(), 1000);
}

#[test]
fn custom_initial_static() {
    // four particles arranged in a square, connected on their sides;
    // a fifth in the middle is rejected because every facing port is busy
    // (coordinates are scaled by 1000; radius 1415 covers the diagonal
    // distance sqrt(2) between neighbours)
    let mut f = Field::new(512_000, 512_000);
    let mut cfg = BindingConfiguration::make_square();
    cfg.set_max_binds(2);
    cfg.set_radius(1415);
    f.set_binding_configuration(cfg);

    assert!(f.add_static_particle(Vector::new(1000, 0), unit_east()));
    assert_eq!(f.static_particles_count(), 1);
    assert!(f.add_static_particle(Vector::new(0, 1000), unit_east()));
    assert_eq!(f.static_particles_count(), 2);
    assert!(f.add_static_particle(Vector::new(-1000, 0), unit_east()));
    assert_eq!(f.static_particles_count(), 3);
    assert!(f.add_static_particle(Vector::new(0, -1000), unit_east()));
    assert_eq!(f.static_particles_count(), 4);

    assert!(
        !f.add_static_particle(Vector::new(-100, 100), unit_east()),
        "no free facing port left"
    );
    assert_eq!(f.static_particles_count(), 4);
}

#[test]
fn field_membership() {
    // the spawn-region predicate: inside, on the boundary, and outside
    // the elliptical field
    let f = Field::new(200, 100);
    assert!(f.is_in_field(Vector::new(0, 0)));
    assert!(f.is_in_field(Vector::new(200, 0)), "boundary included");
    assert!(f.is_in_field(Vector::new(0, -100)), "boundary included");
    assert!(f.is_in_field(Vector::new(120, 60)));
    assert!(!f.is_in_field(Vector::new(200, 1)));
    assert!(!f.is_in_field(Vector::new(150, 90)));
    assert!(!f.is_in_field(Vector::new(0, 101)));
}

#[test]
fn boundary_particle_keeps_timestamp() {
    let mut f = Field::new(200, 200);
    f.add_boundary_particle(42, Vector::new(200, 0), unit_east());
    assert_eq!(f.moving_particles_count(), 1);
    assert_eq!(f.moving_particle_at(0).unwrap().since, 42);
}

#[test]
fn positions_update_over_ticks() {
    let mut f = Field::new(1000, 1000);
    f.add_particle(Vector::new(-10, 4), Vector::new(2, -1));
    f.update_positions(3);
    let p = f.moving_particle_at(0).unwrap();
    assert_eq!(p.pos, Vector::new(-4, 1));
    assert_eq!(p.vel, Vector::new(2, -1));
    f.update_positions(0);
    assert_eq!(f.moving_particle_at(0).unwrap().pos, Vector::new(-4, 1));
}

#[test]
fn velocity_writeback() {
    let mut f = Field::new(1000, 1000);
    f.add_particle(Vector::new(5, 5), Vector::new(1, 0));
    let mut copy = particle_field::container::Particle {
        particle: f.moving_particle_at(0).unwrap(),
        index: 0,
    };
    copy.particle.vel = Vector::new(-3, 4);
    f.update_moving_particle(&copy);
    assert_eq!(f.moving_particle_at(0).unwrap().vel, Vector::new(-3, 4));
}

#[test]
fn remove_moving_particles_by_index() {
    let mut f = Field::new(1000, 1000);
    for k in 0..5i64 {
        f.add_boundary_particle(k, Vector::new(k, k), unit_east());
    }
    f.remove_moving_particles(vec![0, 3]);
    assert_eq!(f.moving_particles_count(), 3);
    let mut stamps: Vec<i64> = (0..3usize)
        .map(|i| f.moving_particle_at(i).unwrap().since)
        .collect();
    stamps.sort();
    assert_eq!(stamps, vec![1, 2, 4]);
}

#[test]
fn velocity_pass_at_the_center() {
    // at the field center the attractor vanishes: the new velocity is the
    // normalized sum of the old one and the random direction scaled by
    // the time step
    let mut f = Field::new(1000, 1000);
    f.add_particle(Vector::new(0, 0), Vector::new(0, 1000));
    let dirs = vec![Vector::new(1000, 0)];
    f.update_velocities(16, 1000, &dirs);
    let p = f.moving_particle_at(0).unwrap();
    assert_eq!(p.pos, Vector::new(0, 0), "position untouched");
    // unit step of 16/1000 east onto a north-pointing unit velocity:
    // (16, 1000) has length floor sqrt(1000256) = 1000, so it is already
    // normalized
    assert_eq!(p.vel, Vector::new(16, 1000));
}

#[test]
fn velocity_pass_next_velocity_formula() {
    // away from the center, the attractor pulls back toward the origin
    let dims = Vector::new(1000, 1000);
    let v = next_velocity(
        Vector::new(1000, 0),   // at the +x field edge
        Vector::new(0, 0),      // at rest
        Vector::new(0, 1000),   // random direction north
        dims,
        0,
        1000,                   // a full one-second step
        1000,
    );
    // attractor (-1000, 0), length 1000 = one unit; force 1000/6 = 166;
    // sum (-166, 1000) has length floor sqrt(1027556) = 1013;
    // normalized: (-163, 987); after the step the velocity renormalizes
    // to unit length again
    let dx = v.x as f64;
    let dy = v.y as f64;
    let len = (dx * dx + dy * dy).sqrt();
    assert!((len - 1000.0).abs() <= 2.0, "unit length after the pass: {len}");
    assert!(v.x < 0 && v.y > 0, "pulled west, pushed north: {v:?}");
}

#[test]
fn velocity_pass_zero_sum_stays_zero() {
    let dims = Vector::new(1000, 1000);
    let v = next_velocity(
        Vector::new(0, 0),
        Vector::new(0, 0),
        Vector::new(0, 0),  // degenerate: no random push at all
        dims,
        0,
        16,
        1000,
    );
    assert_eq!(v, Vector::new(0, 0));
}
