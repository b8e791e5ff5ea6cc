//! The index-stable container: stability until removal, swap-removal
//! ordering, writeback, and iteration.

use particle_field::Vector;
use particle_field::container::MovingParticleContainer;
use particle_field::container::Particle;
use particle_field::container::ParticleRef;
use particle_field::particle::MovingParticle;

fn mk(tag: i64) -> MovingParticle {
    MovingParticle {
        pos: Vector::new(tag, tag),
        vel: Vector::new(1, 0),
        since: tag,
        flags: 0,
    }
}

fn filled(k: i64) -> MovingParticleContainer {
    let mut c = MovingParticleContainer::new(64, &Vector::new(100, 100));
    let mut tag: i64 = 0;
    while tag < k {
        assert!(c.add_particle(mk(tag)).is_some());
        tag += 1;
    }
    c
}

fn live_tags(c: &MovingParticleContainer) -> Vec<i64> {
    let mut tags: Vec<i64> = Vec::new();
    let mut i: usize = 0;
    while let Some(p) = c.at(i) {
        tags.push(p.since);
        i += 1;
    }
    tags.sort();
    tags
}

#[test]
fn index_stability_until_removal() {
    // after adding k particles, at(i) returns the i-th added particle
    let mut c = filled(6);
    for i in 0..6usize {
        assert_eq!(c.at(i).unwrap().since, i as i64);
    }
    assert!(c.at(6).is_none());
    // after removing index 2, at(2) returns what was the last particle,
    // and the previous last index is out of range
    c.remove_multiple_by_index(vec![2]);
    assert_eq!(c.size(), 5);
    assert_eq!(c.at(2).unwrap().since, 5);
    assert!(c.at(5).is_none());
    // the untouched slots still hold their original particles
    assert_eq!(c.at(0).unwrap().since, 0);
    assert_eq!(c.at(1).unwrap().since, 1);
    assert_eq!(c.at(3).unwrap().since, 3);
    assert_eq!(c.at(4).unwrap().since, 4);
}

#[test]
fn removal_order_is_irrelevant() {
    // removeMany with arbitrary ordering produces the same final live
    // set as removing individually from highest to lowest index
    let orderings: [[usize; 3]; 4] = [[1, 3, 5], [5, 3, 1], [3, 5, 1], [5, 1, 3]];
    let mut expected = filled(7);
    expected.remove_multiple_by_index(vec![5]);
    expected.remove_multiple_by_index(vec![3]);
    expected.remove_multiple_by_index(vec![1]);
    let expected_tags = live_tags(&expected);
    assert_eq!(expected.size(), 4);
    for order in orderings.iter() {
        let mut c = filled(7);
        c.remove_multiple_by_index(order.to_vec());
        assert_eq!(c.size(), 4);
        assert_eq!(live_tags(&c), expected_tags);
    }
}

#[test]
fn removal_ignores_stale_indices() {
    let mut c = filled(4);
    c.remove_multiple_by_index(vec![9, 2, 17]);
    assert_eq!(c.size(), 3);
    assert_eq!(live_tags(&c), vec![0, 1, 3]);
    c.remove_multiple_by_index(Vec::new());
    assert_eq!(c.size(), 3);
}

#[test]
fn removing_last_slot() {
    let mut c = filled(3);
    c.remove_multiple_by_index(vec![2]);
    assert_eq!(live_tags(&c), vec![0, 1]);
    assert_eq!(c.at(0).unwrap().since, 0);
    assert_eq!(c.at(1).unwrap().since, 1);
}

#[test]
fn container_capacity() {
    let mut c = MovingParticleContainer::new(2, &Vector::new(100, 100));
    assert!(!c.is_full());
    assert!(c.add_particle(mk(0)).is_some());
    assert!(c.add_particle(mk(1)).is_some());
    assert!(c.is_full());
    assert_eq!(c.max_size(), 2);
    // a full container refuses the particle and keeps its contents
    assert!(c.add_particle(mk(2)).is_none());
    assert_eq!(c.size(), 2);
    assert_eq!(live_tags(&c), vec![0, 1]);
}

#[test]
fn update_writes_back_a_copy() {
    let mut c = filled(3);
    let mut copy = Particle { particle: *c.at(1).unwrap(), index: 1 };
    copy.particle.vel = Vector::new(0, 1);
    c.update(&copy);
    assert_eq!(c.at(1).unwrap().vel, Vector::new(0, 1));
    // a stale index is a silent no-op
    let stale = Particle { particle: mk(99), index: 42 };
    c.update(&stale);
    assert_eq!(c.size(), 3);
    assert_eq!(live_tags(&c), vec![0, 1, 2]);
}

#[test]
fn values_iterator_walks_in_storage_order() {
    let c = filled(4);
    let mut it = c.values();
    let mut seen: Vec<(usize, i64)> = Vec::new();
    while let Some(p) = it.next() {
        seen.push((p.index, p.particle.since));
    }
    assert_eq!(seen, vec![(0, 0), (1, 1), (2, 2), (3, 3)]);
}

#[test]
fn clusters_iterator_covers_every_particle_once() {
    // one group per non-empty bucket; over all groups every live index
    // appears exactly once
    let c = filled(5);
    let mut it = c.clusters();
    let mut groups: usize = 0;
    let mut seen: Vec<i64> = Vec::new();
    while let Some(group) = it.next() {
        groups += 1;
        assert!(!group.is_empty(), "only non-empty buckets yield groups");
        for p in group.iter() {
            assert_eq!(c.at(p.index).unwrap().since, p.particle.since);
            seen.push(p.particle.since);
        }
    }
    assert!(groups >= 1 && groups <= 5);
    seen.sort();
    assert_eq!(seen, vec![0, 1, 2, 3, 4]);
}

#[test]
fn clusters_iterator_empty_container_has_no_groups() {
    let c = MovingParticleContainer::new(8, &Vector::new(100, 100));
    let mut it = c.clusters();
    assert!(it.next().is_none());
}

#[test]
fn particle_ref_as_copy() {
    let p = mk(7);
    let r = ParticleRef { particle: &p, index: 3 };
    let copy = r.as_copy();
    assert_eq!(copy.index, 3);
    assert_eq!(copy.particle.since, 7);
    assert_eq!(copy.particle.pos, Vector::new(7, 7));
}

#[test]
fn positions_advance_and_queries_follow() {
    let mut c = MovingParticleContainer::new(8, &Vector::new(100, 100));
    let p = MovingParticle {
        pos: Vector::new(-90, 0),
        vel: Vector::new(1, 0),
        since: 0,
        flags: 0,
    };
    assert!(c.add_particle(p).is_some());
    c.update_positions(60);
    let moved = *c.at(0).unwrap();
    assert_eq!(moved.pos, Vector::new(-30, 0));
    assert_eq!(moved.vel, Vector::new(1, 0));
}
