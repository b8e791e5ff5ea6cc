//! The spatial grid: bucket mapping, boundary clamping, and
//! neighbourhood queries.

use particle_field::Vector;
use particle_field::container::Binnery;
use particle_field::container::StaticParticleContainer;
use particle_field::particle::StaticParticle;

#[test]
fn bin_index() {
    let binnery = Binnery::new(&Vector::new(10, 10));
    assert_eq!(binnery.index(&Vector::new(-10, -10)), 0, "Min field");
    assert_eq!(binnery.index(&Vector::new(10, 10)), 36 * 36 - 1, "Max field");
    assert_eq!(
        binnery.index(&Vector::new(-200, -200)),
        0,
        "Out of bounds min field"
    );
    assert_eq!(
        binnery.index(&Vector::new(200, 200)),
        36 * 36 - 1,
        "Out of bounds max field"
    );
}

#[test]
fn bin_index_interior() {
    let binnery = Binnery::new(&Vector::new(10, 10));
    // position (0, 0) sits at the start of column/row 18
    assert_eq!(binnery.index(&Vector::new(0, 0)), 18 + 18 * 36);
    // one step into the field from the lower-left corner stays in bucket 0
    assert_eq!(binnery.index(&Vector::new(-10, -10)), 0);
    assert_eq!(binnery.index(&Vector::new(-10, 10)), 35 * 36);
    assert_eq!(binnery.index(&Vector::new(10, -10)), 35);
}

#[test]
fn to_linear_saturates() {
    assert_eq!(Binnery::to_linear(0, 0), 0);
    assert_eq!(Binnery::to_linear(35, 35), 36 * 36 - 1);
    assert_eq!(Binnery::to_linear(36, 0), 35);
    assert_eq!(Binnery::to_linear(40, 40), 36 * 36 - 1);
}

#[test]
fn choose_containers() {
    let st: StaticParticleContainer = StaticParticleContainer::new(10, &Vector::new(200, 200));
    assert_eq!(
        st.select_nearby_clusters(&Vector::new(-205, -205), 10),
        vec![0, 1, 36, 37],
        "Bins at start"
    );
    assert_eq!(
        st.select_nearby_clusters(&Vector::new(0, 0), 10).len(),
        9,
        "Center bins"
    );
    assert_eq!(
        st.select_nearby_clusters(&Vector::new(205, 205), 10),
        vec![
            36 * 35 - 2,
            36 * 35 - 1,
            36 * 36 - 2,
            36 * 36 - 1
        ],
        "Bins at end"
    );
}

#[test]
fn neighbor_cardinality() {
    // a centered query returns 9 buckets; a corner query returns 4
    let st: StaticParticleContainer = StaticParticleContainer::new(10, &Vector::new(100, 100));
    assert_eq!(st.select_nearby_clusters(&Vector::new(0, 0), 5).len(), 9);
    assert_eq!(st.select_nearby_clusters(&Vector::new(-100, -100), 5).len(), 4);
    assert_eq!(st.select_nearby_clusters(&Vector::new(100, 100), 5).len(), 4);
    assert_eq!(st.select_nearby_clusters(&Vector::new(100, -100), 5).len(), 4);
    assert_eq!(st.select_nearby_clusters(&Vector::new(-100, 100), 5).len(), 4);
    // an edge (not corner) query returns 6
    assert_eq!(st.select_nearby_clusters(&Vector::new(0, -100), 5).len(), 6);
}

#[test]
fn query_finds_particles_in_corner_buckets() {
    let mut st: StaticParticleContainer = StaticParticleContainer::new(10, &Vector::new(100, 100));
    let mut a = StaticParticle::default();
    a.pos = Vector::new(3, 0);
    let mut b = StaticParticle::default();
    b.pos = Vector::new(-3, 0);
    let mut far = StaticParticle::default();
    far.pos = Vector::new(50, 50);
    assert!(st.add_particle(a).is_some());
    assert!(st.add_particle(b).is_some());
    assert!(st.add_particle(far).is_some());
    let found = st.select_for_binding(&Vector::new(0, 0), 5);
    let mut indices: Vec<usize> = found.iter().map(|p| p.index).collect();
    indices.sort();
    assert_eq!(indices, vec![0, 1]);
    for p in found.iter() {
        assert!(p.particle.pos.x.abs() <= 5 && p.particle.pos.y.abs() <= 5);
    }
}
