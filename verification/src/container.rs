//! Index-stable particle containers and the spatial grid behind them.
//!
//! `ParticleContainer` holds up to `capacity` particles, each addressable
//! by an index that stays valid until that particle — or the current last
//! one — is removed (removal swaps the last particle into the freed slot).
//! A `Binnery` maps positions onto a fixed 36×36 bucket grid and is kept
//! consistent with the container across every mutation, so neighbour
//! queries stay sub-linear.

use vstd::prelude::*;
use crate::vector::Vector;
use crate::vector::in_bounds;
use crate::vector::COORD_LIMIT;

verus! {

/// Buckets along each axis of the spatial grid.
pub const BIN_DIMENSIONS: usize = 36;

/// Total bucket count of the grid.
pub const BIN_COUNT: usize = 1296;

/// A particle kind that can tell the container where it is.
pub trait Positionable: Sized + Copy {
    /// The particle's position, for specifications.
    spec fn spec_pos(&self) -> Vector;

    /// The particle value is acceptable to a container: its coordinates
    /// (and any angle it carries) are within the library's ranges.
    spec fn wf_value(&self) -> bool;

    /// A well-formed particle value sits within the coordinate range.
    proof fn wf_value_bounds(&self)
        requires
            self.wf_value(),
        ensures
            in_bounds(self.spec_pos(), COORD_LIMIT as int),
    ;

    /// The particle's current position.
    fn position(&self) -> (r: Vector)
        ensures
            r == self.spec_pos(),
    ;
}

impl Positionable for crate::particle::MovingParticle {
    open spec fn spec_pos(&self) -> Vector {
        self.pos
    }

    open spec fn wf_value(&self) -> bool {
        in_bounds(self.pos, COORD_LIMIT as int) && in_bounds(self.vel, COORD_LIMIT as int)
    }

    proof fn wf_value_bounds(&self) {
    }

    fn position(&self) -> (r: Vector) {
        self.pos
    }
}

impl Positionable for crate::particle::StaticParticle {
    open spec fn spec_pos(&self) -> Vector {
        self.pos
    }

    open spec fn wf_value(&self) -> bool {
        in_bounds(self.pos, COORD_LIMIT as int) && 0 <= self.rot < 360
    }

    proof fn wf_value_bounds(&self) {
    }

    fn position(&self) -> (r: Vector) {
        self.pos
    }
}

/// Reference to a particle of a certain type, together with the index it
/// occupies in its container.
pub struct ParticleRef<'a, T> {
    pub particle: &'a T,
    pub index: usize,
}

/// Copied reference, used when keeping a live reference is not
/// convenient.  Copies are merged back with the container's `update`
/// method or discarded.
#[derive(Clone, Copy)]
pub struct Particle<T> where T: Copy {
    pub particle: T,
    pub index: usize,
}

impl<'a, T> ParticleRef<'a, T> where T: Copy {
    /// Create a particle copy from a reference; the copy still logically
    /// denotes the same slot of the container.
    pub fn as_copy(&self) -> (r: Particle<T>)
        ensures
            r.particle == *self.particle,
            r.index == self.index,
    {
        Particle::<T> { particle: *self.particle, index: self.index }
    }
}

/// One coordinate's bucket: `clamp(floor((c + offset) * 36 / (2 * offset)))`,
/// saturating into [0, 35] so off-field positions land in edge buckets.
pub open spec fn axis_bin(offset: int, c: int) -> int {
    if c + offset <= 0 {
        0
    } else if (c + offset) * 36 / (2 * offset) >= 36 {
        35
    } else {
        (c + offset) * 36 / (2 * offset)
    }
}

/// The grid bucket a position falls in.
pub open spec fn bin_of(offset: int, pos: Vector) -> int {
    axis_bin(offset, pos.x as int) + 36 * axis_bin(offset, pos.y as int)
}

/// Row-major bucket id from axis buckets, saturating at the last bucket.
pub open spec fn lin_spec(x: int, y: int) -> int {
    (if x < 35 { x } else { 35 }) + 36 * (if y < 35 { y } else { 35 })
}

/// A bucket index is always within the grid.
pub proof fn lemma_bin_of_range(offset: int, pos: Vector)
    requires
        1 <= offset,
    ensures
        0 <= bin_of(offset, pos) < 1296,
        0 <= axis_bin(offset, pos.x as int) < 36,
        0 <= axis_bin(offset, pos.y as int) < 36,
{
    lemma_axis_bin_range(offset, pos.x as int);
    lemma_axis_bin_range(offset, pos.y as int);
}

/// Bucket-mapping boundaries: a coordinate at or beyond the field's
/// extent maps to the same boundary bucket as the extreme itself, so
/// off-field positions degrade to edge buckets rather than erring.
pub proof fn lemma_bucket_boundaries(offset: int, pos: Vector)
    requires
        1 <= offset,
    ensures
        pos.x <= -offset && pos.y <= -offset ==> bin_of(offset, pos) == 0,
        pos.x >= offset && pos.y >= offset ==> bin_of(offset, pos) == 1295,
{
    lemma_axis_bin_clamps(offset, pos.x as int);
    lemma_axis_bin_clamps(offset, pos.y as int);
}

/// One axis of the bucket mapping saturates: everything at or below
/// `-offset` lands in bucket 0, everything at or above `offset` in
/// bucket 35.
pub proof fn lemma_axis_bin_clamps(offset: int, c: int)
    requires
        1 <= offset,
    ensures
        c <= -offset ==> axis_bin(offset, c) == 0,
        c >= offset ==> axis_bin(offset, c) == 35,
{
    if c >= offset {
        let s = c + offset;
        assert(s >= 2 * offset);
        assert(s * 36 >= (2 * offset) * 36) by (nonlinear_arith)
            requires
                s >= 2 * offset,
                offset >= 1,
        ;
        vstd::arithmetic::div_mod::lemma_div_multiples_vanish(36, 2 * offset);
        assert((2 * offset) * 36 == 36 * (2 * offset)) by (nonlinear_arith);
        vstd::arithmetic::div_mod::lemma_div_is_ordered(36 * (2 * offset), s * 36, 2 * offset);
        assert(s * 36 / (2 * offset) >= 36);
    }
}

pub proof fn lemma_axis_bin_range(offset: int, c: int)
    requires
        1 <= offset,
    ensures
        0 <= axis_bin(offset, c) < 36,
{
    if c + offset > 0 && (c + offset) * 36 / (2 * offset) < 36 {
        vstd::arithmetic::div_mod::lemma_div_pos_is_pos((c + offset) * 36, 2 * offset);
        assert((c + offset) * 36 > 0) by (nonlinear_arith)
            requires
                c + offset > 0,
        ;
    }
}

/// The binning structure: a fixed 36×36 grid of buckets holding container
/// indices, with the offset that centres the field on the grid.
pub struct Binnery {
    /// buckets of container indices
    bins: Vec<Vec<usize>>,
    /// half-extent of the field: positions from `-offset` to `offset` span
    /// the grid
    offset: i64,
}

impl Binnery {
    /// The grid has its full complement of buckets and a positive extent.
    pub closed spec fn wf(self) -> bool {
        self.bins@.len() == 1296 && 1 <= self.offset <= COORD_LIMIT
    }

    /// The contents of bucket `i`.
    pub closed spec fn bin_at(self, i: int) -> Seq<usize> {
        self.bins@[i]@
    }

    /// The field half-extent the grid was built for.
    pub closed spec fn spec_offset(self) -> int {
        self.offset as int
    }

    /// Create a grid for a field spanning `-dim` to `dim` on each axis;
    /// the larger half-extent rules both axes.
    pub fn new(field_dimensions: &Vector) -> (r: Binnery)
        requires
            1 <= field_dimensions.x <= COORD_LIMIT,
            1 <= field_dimensions.y <= COORD_LIMIT,
        ensures
            r.wf(),
            r.spec_offset() == (if field_dimensions.x >= field_dimensions.y {
                field_dimensions.x
            } else {
                field_dimensions.y
            }),
            forall|i: int| 0 <= i < 1296 ==> #[trigger] r.bin_at(i) =~= Seq::<usize>::empty(),
    {
        let mut bins: Vec<Vec<usize>> = Vec::new();
        let mut i: usize = 0;
        while i < 1296
            invariant
                i <= 1296,
                bins@.len() == i,
                forall|j: int| 0 <= j < i ==> #[trigger] bins@[j]@ =~= Seq::<usize>::empty(),
            decreases 1296 - i,
        {
            bins.push(Vec::new());
            i = i + 1;
        }
        let offset: i64 = if field_dimensions.x >= field_dimensions.y {
            field_dimensions.x
        } else {
            field_dimensions.y
        };
        Binnery { bins, offset }
    }

    /// Row-major bucket id from axis buckets, saturating at the edge.
    pub fn to_linear(x: usize, y: usize) -> (r: usize)
        ensures
            r == lin_spec(x as int, y as int),
            r < 1296,
    {
        let xc: usize = if x < 35 {
            x
        } else {
            35
        };
        let yc: usize = if y < 35 {
            y
        } else {
            35
        };
        xc + yc * 36
    }

    /// The bucket a position falls in.
    pub fn index(&self, pos: &Vector) -> (r: usize)
        requires
            self.wf(),
            in_bounds(*pos, 2 * COORD_LIMIT as int),
        ensures
            r == bin_of(self.spec_offset(), *pos),
            r < 1296,
    {
        let x = Self::axis_index(self.offset, pos.x);
        let y = Self::axis_index(self.offset, pos.y);
        proof {
            lemma_bin_of_range(self.spec_offset(), *pos);
        }
        x + y * 36
    }

    /// One coordinate's bucket.
    fn axis_index(offset: i64, c: i64) -> (r: usize)
        requires
            1 <= offset <= COORD_LIMIT,
            -2 * COORD_LIMIT <= c <= 2 * COORD_LIMIT,
        ensures
            r == axis_bin(offset as int, c as int),
            r < 36,
    {
        proof {
            lemma_axis_bin_range(offset as int, c as int);
        }
        let shifted: i64 = c + offset;
        if shifted <= 0 {
            0
        } else {
            let q: u64 = ((shifted as u64) * 36) / ((2 * offset) as u64);
            if q >= 36 {
                35
            } else {
                q as usize
            }
        }
    }

    /// Append `what` to the bucket for `pos`.  The caller guarantees the
    /// id is not already present anywhere in the grid.
    pub fn add(&mut self, what: usize, pos: &Vector)
        requires
            old(self).wf(),
            in_bounds(*pos, 2 * COORD_LIMIT as int),
        ensures
            final(self).wf(),
            final(self).spec_offset() == old(self).spec_offset(),
            final(self).bin_at(bin_of(old(self).spec_offset(), *pos)) =~= old(self).bin_at(
                bin_of(old(self).spec_offset(), *pos),
            ).push(what),
            forall|i: int|
                0 <= i < 1296 && i != bin_of(old(self).spec_offset(), *pos)
                    ==> #[trigger] final(self).bin_at(i) =~= old(self).bin_at(i),
    {
        let b = self.index(pos);
        let mut row: Vec<usize> = Vec::new();
        let ghost old_row = self.bins@[b as int]@;
        let n = self.bins[b].len();
        let mut k: usize = 0;
        while k < n
            invariant
                k <= n,
                self == old(self),
                b < 1296,
                old(self).wf(),
                n == old_row.len(),
                old_row == self.bins@[b as int]@,
                row@ =~= old_row.subrange(0, k as int),
            decreases n - k,
        {
            let v = self.bins[b][k];
            row.push(v);
            k = k + 1;
        }
        row.push(what);
        self.bins.set(b, row);
    }

    /// The bucket's contents without every occurrence of `v`.
    pub open spec fn seq_without(s: Seq<usize>, v: usize) -> Seq<usize>
        decreases s.len(),
    {
        if s.len() == 0 {
            s
        } else {
            let rest = Self::seq_without(s.drop_last(), v);
            if s.last() == v {
                rest
            } else {
                rest.push(s.last())
            }
        }
    }

    /// Remove `what` from the bucket for `pos`; a no-op if it is absent.
    pub fn remove(&mut self, what: usize, pos: &Vector)
        requires
            old(self).wf(),
            in_bounds(*pos, 2 * COORD_LIMIT as int),
        ensures
            final(self).wf(),
            final(self).spec_offset() == old(self).spec_offset(),
            final(self).bin_at(bin_of(old(self).spec_offset(), *pos)) =~= Self::seq_without(
                old(self).bin_at(bin_of(old(self).spec_offset(), *pos)),
                what,
            ),
            forall|i: int|
                0 <= i < 1296 && i != bin_of(old(self).spec_offset(), *pos)
                    ==> #[trigger] final(self).bin_at(i) =~= old(self).bin_at(i),
    {
        let b = self.index(pos);
        let mut row: Vec<usize> = Vec::new();
        let ghost old_row = self.bins@[b as int]@;
        let n = self.bins[b].len();
        let mut k: usize = 0;
        while k < n
            invariant
                k <= n,
                self == old(self),
                b < 1296,
                old(self).wf(),
                n == old_row.len(),
                old_row == self.bins@[b as int]@,
                row@ =~= Self::seq_without(old_row.subrange(0, k as int), what),
            decreases n - k,
        {
            let v = self.bins[b][k];
            proof {
                assert(old_row.subrange(0, k as int + 1).drop_last() =~= old_row.subrange(
                    0,
                    k as int,
                ));
            }
            if v != what {
                row.push(v);
            }
            k = k + 1;
        }
        proof {
            assert(old_row.subrange(0, n as int) =~= old_row);
        }
        self.bins.set(b, row);
    }

    /// Replace every occurrence of `what` with `new_value` in the bucket
    /// for `pos` — used when a swap-removal renumbers the last live index
    /// down to a freed slot.
    pub fn update_index(&mut self, what: usize, new_value: usize, pos: &Vector)
        requires
            old(self).wf(),
            in_bounds(*pos, 2 * COORD_LIMIT as int),
        ensures
            final(self).wf(),
            final(self).spec_offset() == old(self).spec_offset(),
            ({
                let b = bin_of(old(self).spec_offset(), *pos);
                &&& final(self).bin_at(b).len() == old(self).bin_at(b).len()
                &&& forall|k: int|
                    0 <= k < old(self).bin_at(b).len() ==> #[trigger] final(self).bin_at(b)[k]
                        == (if old(self).bin_at(b)[k] == what {
                        new_value
                    } else {
                        old(self).bin_at(b)[k]
                    })
            }),
            forall|i: int|
                0 <= i < 1296 && i != bin_of(old(self).spec_offset(), *pos)
                    ==> #[trigger] final(self).bin_at(i) =~= old(self).bin_at(i),
    {
        let b = self.index(pos);
        let mut row: Vec<usize> = Vec::new();
        let ghost old_row = self.bins@[b as int]@;
        let n = self.bins[b].len();
        let mut k: usize = 0;
        while k < n
            invariant
                k <= n,
                self == old(self),
                b < 1296,
                old(self).wf(),
                n == old_row.len(),
                old_row == self.bins@[b as int]@,
                row@.len() == k,
                forall|j: int|
                    0 <= j < k ==> #[trigger] row@[j] == (if old_row[j] == what {
                        new_value
                    } else {
                        old_row[j]
                    }),
            decreases n - k,
        {
            let v = self.bins[b][k];
            if v == what {
                row.push(new_value);
            } else {
                row.push(v);
            }
            k = k + 1;
        }
        self.bins.set(b, row);
    }

    /// A copy of the bucket's id list — a snapshot, not a live view, so a
    /// caller may mutate the grid while iterating it.
    pub fn get_bin(&self, bin: usize) -> (r: Vec<usize>)
        requires
            self.wf(),
            bin < 1296,
        ensures
            r@ =~= self.bin_at(bin as int),
    {
        let mut row: Vec<usize> = Vec::new();
        let n = self.bins[bin].len();
        let mut k: usize = 0;
        while k < n
            invariant
                k <= n,
                self.wf(),
                bin < 1296,
                n == self.bins@[bin as int]@.len(),
                row@ =~= self.bins@[bin as int]@.subrange(0, k as int),
            decreases n - k,
        {
            let v = self.bins[bin][k];
            row.push(v);
            k = k + 1;
        }
        proof {
            assert(self.bins@[bin as int]@.subrange(0, n as int) =~= self.bins@[bin as int]@);
        }
        row
    }

    /// Empty every bucket.
    pub fn clear(&mut self)
        requires
            old(self).wf(),
        ensures
            final(self).wf(),
            final(self).spec_offset() == old(self).spec_offset(),
            forall|i: int|
                0 <= i < 1296 ==> #[trigger] final(self).bin_at(i) =~= Seq::<usize>::empty(),
    {
        let mut i: usize = 0;
        while i < 1296
            invariant
                i <= 1296,
                self.bins@.len() == 1296,
                self.offset == old(self).offset,
                old(self).wf(),
                forall|j: int| 0 <= j < i ==> #[trigger] self.bins@[j]@ =~= Seq::<usize>::empty(),
            decreases 1296 - i,
        {
            self.bins.set(i, Vec::new());
            i = i + 1;
        }
    }
}

/// Container for particles: a capacity-bounded ordered store whose
/// indices are stable until a removal, kept consistent with a spatial
/// grid of its indices.
pub struct ParticleContainer<T> where T: Copy + Positionable {
    particles: Vec<T>,
    bins: Binnery,
    capacity: usize,
}

pub type MovingParticleContainer = ParticleContainer<crate::particle::MovingParticle>;

pub type StaticParticleContainer = ParticleContainer<crate::particle::StaticParticle>;

impl<T> ParticleContainer<T> where T: Copy + Positionable {
    /// The stored particles, in storage order.
    pub closed spec fn spec_particles(self) -> Seq<T> {
        self.particles@
    }

    /// The fixed capacity.
    pub closed spec fn spec_capacity(self) -> int {
        self.capacity as int
    }

    /// The spatial grid.
    pub closed spec fn spec_bins(self) -> Binnery {
        self.bins
    }

    /// The grid's field half-extent.
    pub open spec fn spec_offset(self) -> int {
        self.spec_bins().spec_offset()
    }

    /// The contents of grid bucket `b`.
    pub open spec fn spec_bin(self, b: int) -> Seq<usize> {
        self.spec_bins().bin_at(b)
    }

    /// Number of live particles.
    pub open spec fn spec_size(self) -> int {
        self.spec_particles().len() as int
    }

    /// The container invariant: the count is bounded by the capacity,
    /// every stored particle is within the library's ranges, and the grid
    /// is consistent — every bucket entry is a live index sitting in the
    /// bucket of its particle's current position, no bucket repeats an
    /// index, and every live index appears in its particle's bucket.
    pub open spec fn inv(self) -> bool {
        &&& self.spec_bins().wf()
        &&& self.spec_particles().len() <= self.spec_capacity()
        &&& forall|i: int|
            0 <= i < self.spec_particles().len() ==> (#[trigger] self.spec_particles()[i]).wf_value()
        &&& forall|b: int, k: int|
            0 <= b < 1296 && 0 <= k < self.spec_bin(b).len() ==> (#[trigger] self.spec_bin(b)[k])
                < self.spec_particles().len() && bin_of(
                self.spec_offset(),
                self.spec_particles()[self.spec_bin(b)[k] as int].spec_pos(),
            ) == b
        &&& forall|b: int, k1: int, k2: int|
            #![trigger self.spec_bin(b)[k1], self.spec_bin(b)[k2]]
            0 <= b < 1296 && 0 <= k1 < k2 < self.spec_bin(b).len() ==> self.spec_bin(b)[k1]
                != self.spec_bin(b)[k2]
        &&& forall|i: int|
            0 <= i < self.spec_particles().len() ==> #[trigger] self.spec_bin(
                bin_of(self.spec_offset(), self.spec_particles()[i].spec_pos()),
            ).contains(i as usize)
    }

    /// Create a container with the given capacity over a field spanning
    /// `-dim` to `dim` on each axis.
    pub fn new(capacity: usize, field_dimensions: &Vector) -> (r: ParticleContainer<T>)
        requires
            1 <= field_dimensions.x <= COORD_LIMIT,
            1 <= field_dimensions.y <= COORD_LIMIT,
        ensures
            r.inv(),
            r.spec_size() == 0,
            r.spec_capacity() == capacity,
            r.spec_offset() == (if field_dimensions.x >= field_dimensions.y {
                field_dimensions.x
            } else {
                field_dimensions.y
            }),
    {
        ParticleContainer { particles: Vec::new(), bins: Binnery::new(field_dimensions), capacity }
    }

    /// The container cannot take any more particles.
    pub fn is_full(&self) -> (r: bool)
        ensures
            r == (self.spec_size() == self.spec_capacity()),
    {
        self.particles.len() == self.capacity
    }

    /// Current number of particles.
    pub fn size(&self) -> (r: usize)
        ensures
            r == self.spec_size(),
    {
        self.particles.len()
    }

    /// Maximum number of particles.
    pub fn max_size(&self) -> (r: usize)
        ensures
            r == self.spec_capacity(),
    {
        self.capacity
    }

    /// Bounds-checked read of the particle at `index`.
    pub fn at(&self, index: usize) -> (r: Option<&T>)
        ensures
            match r {
                Some(p) => index < self.spec_size() && *p == self.spec_particles()[index as int],
                None => index >= self.spec_size(),
            },
    {
        if index < self.particles.len() {
            Some(&self.particles[index])
        } else {
            None
        }
    }

    /// Add a particle; `None` (and no change) when the container is full.
    /// The new particle takes the next index and is registered in the
    /// grid.
    pub fn add_particle(&mut self, particle: T) -> (r: Option<()>)
        requires
            old(self).inv(),
            particle.wf_value(),
        ensures
            final(self).inv(),
            final(self).spec_capacity() == old(self).spec_capacity(),
            final(self).spec_offset() == old(self).spec_offset(),
            if old(self).spec_size() < old(self).spec_capacity() {
                r == Some(()) && final(self).spec_particles() =~= old(self).spec_particles().push(
                    particle,
                )
            } else {
                r is None && *final(self) == *old(self)
            },
    {
        if self.is_full() {
            None
        } else {
            let pos = particle.position();
            proof {
                particle.wf_value_bounds();
            }
            let ghost n = self.particles@.len() as int;
            let ghost old_self = *self;
            self.particles.push(particle);
            let idx = self.particles.len() - 1;
            self.bins.add(idx, &pos);
            proof {
                let fs = *self;
                let target = bin_of(old_self.spec_offset(), pos);
                lemma_bin_of_range(old_self.spec_offset(), pos);
                assert(fs.spec_particles() =~= old_self.spec_particles().push(particle));
                // grid contents and uniqueness
                assert forall|b: int, k: int|
                    0 <= b < 1296 && 0 <= k < fs.spec_bin(b).len() implies (#[trigger] fs.spec_bin(
                    b,
                )[k]) < fs.spec_particles().len() && bin_of(
                    fs.spec_offset(),
                    fs.spec_particles()[fs.spec_bin(b)[k] as int].spec_pos(),
                ) == b by {
                    if b == target && k == fs.spec_bin(b).len() - 1 {
                        assert(fs.spec_bin(b)[k] == n as usize);
                    } else {
                        assert(fs.spec_bin(b)[k] == old_self.spec_bin(b)[k]);
                    }
                }
                assert forall|b: int, k1: int, k2: int|
                    0 <= b < 1296 && 0 <= k1 < k2 < fs.spec_bin(b).len() implies fs.spec_bin(
                    b,
                )[k1] != fs.spec_bin(b)[k2] by {
                    if b == target && k2 == fs.spec_bin(b).len() - 1 {
                        assert(fs.spec_bin(b)[k1] == old_self.spec_bin(b)[k1]);
                        assert(old_self.spec_bin(b)[k1] < n);
                        assert(fs.spec_bin(b)[k2] == n as usize);
                    } else {
                        assert(fs.spec_bin(b)[k1] == old_self.spec_bin(b)[k1]);
                        assert(fs.spec_bin(b)[k2] == old_self.spec_bin(b)[k2]);
                    }
                }
                // coverage
                assert forall|i: int| 0 <= i < fs.spec_particles().len() implies #[trigger] fs
                    .spec_bin(
                    bin_of(fs.spec_offset(), fs.spec_particles()[i].spec_pos()),
                ).contains(i as usize) by {
                    if i < n {
                        let bi = bin_of(old_self.spec_offset(), old_self.spec_particles()[i].spec_pos());
                        assert(old_self.spec_bin(bi).contains(i as usize));
                        let k = choose|k: int|
                            0 <= k < old_self.spec_bin(bi).len() && old_self.spec_bin(bi)[k] == i as usize;
                        assert(fs.spec_bin(bi)[k] == i as usize);
                        assert(fs.spec_particles()[i] == old_self.spec_particles()[i]);
                    } else {
                        assert(fs.spec_bin(target)[fs.spec_bin(target).len() - 1] == n as usize);
                    }
                }
            }
            Some(())
        }
    }

    /// Write a previously copied-and-mutated particle back into its
    /// recorded index; a silent no-op when the index is out of range.
    /// The copy must not have moved: position changes go through the
    /// operations that keep the grid consistent.
    pub fn update(&mut self, particle: &Particle<T>)
        requires
            old(self).inv(),
            particle.particle.wf_value(),
            particle.index < old(self).spec_size() ==> old(self).spec_particles()[particle.index as int].spec_pos()
                == particle.particle.spec_pos(),
        ensures
            final(self).inv(),
            final(self).spec_capacity() == old(self).spec_capacity(),
            final(self).spec_offset() == old(self).spec_offset(),
            final(self).spec_bins() == old(self).spec_bins(),
            if particle.index < old(self).spec_size() {
                final(self).spec_particles() =~= old(self).spec_particles().update(
                    particle.index as int,
                    particle.particle,
                )
            } else {
                *final(self) == *old(self)
            },
    {
        let ghost old_self = *self;
        if particle.index < self.particles.len() {
            self.particles.set(particle.index, particle.particle);
            proof {
                let fs = *self;
                assert(fs.spec_bins() == old_self.spec_bins());
                assert forall|b: int, k1: int, k2: int|
                    0 <= b < 1296 && 0 <= k1 < k2 < fs.spec_bin(b).len() implies fs.spec_bin(
                    b,
                )[k1] != fs.spec_bin(b)[k2] by {
                    assert(old_self.spec_bin(b)[k1] == fs.spec_bin(b)[k1]);
                    assert(old_self.spec_bin(b)[k2] == fs.spec_bin(b)[k2]);
                }
                assert forall|b: int, k: int|
                    0 <= b < 1296 && 0 <= k < fs.spec_bin(b).len() implies (#[trigger] fs.spec_bin(
                    b,
                )[k]) < fs.spec_particles().len() && bin_of(
                    fs.spec_offset(),
                    fs.spec_particles()[fs.spec_bin(b)[k] as int].spec_pos(),
                ) == b by {
                    assert(old_self.spec_bin(b)[k] == fs.spec_bin(b)[k]);
                    let id = fs.spec_bin(b)[k];
                    assert(id < old_self.spec_particles().len());
                    assert(fs.spec_particles()[id as int].spec_pos()
                        == old_self.spec_particles()[id as int].spec_pos());
                }
                assert forall|i: int| 0 <= i < fs.spec_particles().len() implies #[trigger] fs
                    .spec_bin(
                    bin_of(fs.spec_offset(), fs.spec_particles()[i].spec_pos()),
                ).contains(i as usize) by {
                    assert(fs.spec_particles()[i].spec_pos()
                        == old_self.spec_particles()[i].spec_pos());
                    assert(old_self.spec_bin(
                        bin_of(old_self.spec_offset(), old_self.spec_particles()[i].spec_pos()),
                    ).contains(i as usize));
                }
            }
        }
    }
}

/// One swap-removal: the last particle moves into slot `i` and the store
/// shrinks by one.
pub open spec fn swap_remove_seq<T>(s: Seq<T>, i: int) -> Seq<T> {
    s.update(i, s.last()).drop_last()
}

/// The store after swap-removing a descending run of indices, each
/// skipped when it is out of range at its turn.
pub open spec fn remove_desc<T>(s: Seq<T>, idxs: Seq<usize>) -> Seq<T>
    decreases idxs.len(),
{
    if idxs.len() == 0 {
        s
    } else {
        let s1 = if (idxs[0] as int) < s.len() {
            swap_remove_seq(s, idxs[0] as int)
        } else {
            s
        };
        remove_desc(s1, idxs.drop_first())
    }
}

/// Strictly descending.
pub open spec fn sorted_desc(s: Seq<usize>) -> bool {
    forall|k1: int, k2: int| 0 <= k1 < k2 < s.len() ==> s[k1] > s[k2]
}

/// What `Binnery::remove` leaves of a bucket: membership and order of the
/// other ids are kept, duplicates stay absent, and every survivor comes
/// from the original bucket.
pub proof fn lemma_seq_without_props(s: Seq<usize>, v: usize)
    ensures
        forall|x: usize| Binnery::seq_without(s, v).contains(x) <==> (s.contains(x) && x != v),
        forall|k: int|
            0 <= k < Binnery::seq_without(s, v).len() ==> s.contains(
                #[trigger] Binnery::seq_without(s, v)[k],
            ) && Binnery::seq_without(s, v)[k] != v,
        (forall|k1: int, k2: int| 0 <= k1 < k2 < s.len() ==> s[k1] != s[k2]) ==> (forall|
            k1: int,
            k2: int,
        |
            0 <= k1 < k2 < Binnery::seq_without(s, v).len() ==> Binnery::seq_without(s, v)[k1]
                != Binnery::seq_without(s, v)[k2]),
    decreases s.len(),
{
    let w = Binnery::seq_without(s, v);
    if s.len() > 0 {
        let p = s.drop_last();
        lemma_seq_without_props(p, v);
        let wp = Binnery::seq_without(p, v);
        assert forall|x: usize| w.contains(x) implies (s.contains(x) && x != v) by {
            let k = choose|k: int| 0 <= k < w.len() && w[k] == x;
            if k < wp.len() {
                assert(wp.contains(x));
                let kp = choose|kp: int| 0 <= kp < p.len() && p[kp] == x;
                assert(s[kp] == x);
            } else {
                assert(x == s.last());
                assert(s[s.len() - 1] == x);
            }
        }
        assert forall|x: usize| s.contains(x) && x != v implies w.contains(x) by {
            let k = choose|k: int| 0 <= k < s.len() && s[k] == x;
            if k < s.len() - 1 {
                assert(p[k] == x);
                assert(p.contains(x));
                let kw = choose|kw: int| 0 <= kw < wp.len() && wp[kw] == x;
                assert(w[kw] == x);
            } else {
                assert(s.last() == x);
                assert(w[w.len() - 1] == x);
            }
        }
        assert forall|k: int| 0 <= k < w.len() implies s.contains(#[trigger] w[k]) && w[k]
            != v by {
            assert(w.contains(w[k]));
        }
        if forall|k1: int, k2: int| 0 <= k1 < k2 < s.len() ==> s[k1] != s[k2] {
            assert forall|k1: int, k2: int| 0 <= k1 < k2 < p.len() implies p[k1] != p[k2] by {
                assert(s[k1] == p[k1] && s[k2] == p[k2]);
            }
            assert forall|k1: int, k2: int| 0 <= k1 < k2 < w.len() implies w[k1] != w[k2] by {
                if s.last() != v && k2 == w.len() - 1 {
                    // w == wp.push(s.last()); the prefix holds old values
                    assert(w[k2] == s.last());
                    assert(wp.contains(w[k1]));
                    let kp = choose|kp: int| 0 <= kp < p.len() && p[kp] == w[k1];
                    assert(s[kp] == w[k1]);
                    assert(s[kp] != s[s.len() - 1]);
                }
            }
        }
    }
}

/// Swap-removal removes exactly the particle at `i` from the multiset of
/// stored particles.
pub proof fn lemma_swap_remove_multiset<T>(s: Seq<T>, i: int)
    requires
        0 <= i < s.len(),
    ensures
        swap_remove_seq(s, i).to_multiset() =~= s.to_multiset().remove(s[i]),
        swap_remove_seq(s, i).len() == s.len() - 1,
{
    let n = s.len() as int;
    let u = s.update(i, s.last());
    vstd::seq_lib::to_multiset_update(s, i, s.last());
    vstd::seq_lib::to_multiset_remove(u, n - 1);
    assert(u.remove(n - 1) =~= u.drop_last());
    assert(u[n - 1] == s.last());
    vstd::seq_lib::to_multiset_contains(s, s[i]);
    assert(s.contains(s[i]));
}

impl<T> ParticleContainer<T> where T: Copy + Positionable {
    /// Swap-remove the particle at `idx`: the last particle takes its
    /// slot and the grid is told of the renumbering.
    fn remove_one(&mut self, idx: usize)
        requires
            old(self).inv(),
            idx < old(self).spec_size(),
        ensures
            final(self).inv(),
            final(self).spec_capacity() == old(self).spec_capacity(),
            final(self).spec_offset() == old(self).spec_offset(),
            final(self).spec_particles() =~= swap_remove_seq(old(self).spec_particles(), idx as int),
    {
        let ghost old_self = *self;
        let ghost n = self.particles@.len() as int;
        let ghost off = old_self.spec_offset();
        // the removed particle leaves its bucket
        let removed_pos = self.particles[idx].position();
        proof {
            (&self.particles@[idx as int]).wf_value_bounds();
            (&self.particles@[n - 1]).wf_value_bounds();
        }
        self.bins.remove(idx, &removed_pos);
        // the last particle is renumbered down to `idx`, found in the
        // bucket of its own (old) position
        let last_pos = self.particles[self.particles.len() - 1].position();
        self.particles.swap_remove(idx);
        let new_len = self.particles.len();
        self.bins.update_index(new_len, idx, &last_pos);
        proof {
            let fs = *self;
            let b_rm = bin_of(off, old_self.spec_particles()[idx as int].spec_pos());
            let b_last = bin_of(off, old_self.spec_particles()[n - 1].spec_pos());
            let m = n - 1;
            lemma_bin_of_range(off, old_self.spec_particles()[idx as int].spec_pos());
            lemma_bin_of_range(off, old_self.spec_particles()[m].spec_pos());
            lemma_seq_without_props(old_self.spec_bin(b_rm), idx);
            let mid = Binnery::seq_without(old_self.spec_bin(b_rm), idx);
            // bucket contents of the intermediate state
            let ghost mid_bin = |b: int|
                if b == b_rm {
                    mid
                } else {
                    old_self.spec_bin(b)
                };
            assert forall|b: int| 0 <= b < 1296 implies fs.spec_bin(b).len() == mid_bin(b).len()
                && (forall|k: int|
                0 <= k < mid_bin(b).len() ==> #[trigger] fs.spec_bin(b)[k] == (if b == b_last
                    && mid_bin(b)[k] == m as usize {
                    idx
                } else {
                    mid_bin(b)[k]
                })) by {
            }
            // every id of the old grid other than idx and m keeps its slot;
            // m's occurrences (all in b_last) now read idx
            // --- contents condition
            assert forall|b: int, k: int|
                0 <= b < 1296 && 0 <= k < fs.spec_bin(b).len() implies (#[trigger] fs.spec_bin(
                b,
            )[k]) < fs.spec_particles().len() && bin_of(
                fs.spec_offset(),
                fs.spec_particles()[fs.spec_bin(b)[k] as int].spec_pos(),
            ) == b by {
                let e = fs.spec_bin(b)[k];
                let em = mid_bin(b)[k];
                assert(old_self.spec_bin(b).contains(em) || (b == b_rm && mid.contains(em)));
                if b == b_rm {
                    assert(mid[k] == em);
                    assert(old_self.spec_bin(b).contains(em) && em != idx);
                } else {
                    assert(em == old_self.spec_bin(b)[k]);
                    assert(old_self.spec_bin(b).contains(em));
                }
                let ko = choose|ko: int|
                    0 <= ko < old_self.spec_bin(b).len() && old_self.spec_bin(b)[ko] == em;
                assert(em < n && bin_of(off, old_self.spec_particles()[em as int].spec_pos())
                    == b);
                if b == b_last && em == m as usize {
                    assert(e == idx);
                    assert(fs.spec_particles()[idx as int] == old_self.spec_particles()[m]);
                } else {
                    assert(e == em);
                    if em == m as usize {
                        // m only sits in the bucket of its own position
                        assert(b == b_last);
                        assert(false);
                    }
                    if b == b_rm {
                        assert(em != idx);
                        assert(fs.spec_particles()[em as int] == old_self.spec_particles()[em as int]);
                    } else {
                        if em == idx {
                            // idx sits only in b_rm, from which it was removed
                            assert(bin_of(off, old_self.spec_particles()[idx as int].spec_pos())
                                == b);
                            assert(b == b_rm);
                            assert(false);
                        }
                        assert(fs.spec_particles()[em as int] == old_self.spec_particles()[em as int]);
                    }
                }
            }
            // --- no duplicates within a bucket
            assert forall|b: int, k1: int, k2: int|
                0 <= b < 1296 && 0 <= k1 < k2 < fs.spec_bin(b).len() implies fs.spec_bin(b)[k1]
                != fs.spec_bin(b)[k2] by {
                let e1m = mid_bin(b)[k1];
                let e2m = mid_bin(b)[k2];
                if b == b_rm {
                    assert(e1m != e2m);
                    assert(mid.contains(e1m) && mid.contains(e2m));
                } else {
                    assert(e1m == old_self.spec_bin(b)[k1] && e2m == old_self.spec_bin(b)[k2]);
                    assert(e1m != e2m);
                }
                // after renumbering, a collision could only pair idx with
                // an old idx entry, which no bucket still holds
                if b == b_last {
                    if e1m == m as usize || e2m == m as usize {
                        if b == b_rm {
                            assert(!mid.contains(idx));
                        } else {
                            if old_self.spec_bin(b).contains(idx) {
                                let kx = choose|kx: int|
                                    0 <= kx < old_self.spec_bin(b).len() && old_self.spec_bin(
                                        b,
                                    )[kx] == idx;
                                assert(bin_of(off, old_self.spec_particles()[idx as int].spec_pos())
                                    == b);
                                assert(false);
                            }
                        }
                    }
                }
            }
            // --- coverage: every live index is in its particle's bucket
            assert forall|i: int| 0 <= i < fs.spec_particles().len() implies #[trigger] fs.spec_bin(
                bin_of(fs.spec_offset(), fs.spec_particles()[i].spec_pos()),
            ).contains(i as usize) by {
                if i == idx {
                    // slot idx now holds the old last particle; its bucket
                    // entry was renumbered from m to idx in b_last
                    assert(fs.spec_particles()[i] == old_self.spec_particles()[m]);
                    assert(old_self.spec_bin(b_last).contains(m as usize));
                    let km = choose|km: int|
                        0 <= km < old_self.spec_bin(b_last).len() && old_self.spec_bin(b_last)[km]
                            == m as usize;
                    if b_last == b_rm {
                        assert(mid.contains(m as usize));
                        let kq = choose|kq: int| 0 <= kq < mid.len() && mid[kq] == m as usize;
                        assert(fs.spec_bin(b_last)[kq] == idx);
                    } else {
                        assert(mid_bin(b_last)[km] == m as usize);
                        assert(fs.spec_bin(b_last)[km] == idx);
                    }
                } else {
                    let bi = bin_of(off, old_self.spec_particles()[i].spec_pos());
                    assert(old_self.spec_bin(bi).contains(i as usize));
                    assert(fs.spec_particles()[i] == old_self.spec_particles()[i]);
                    if bi == b_rm {
                        assert(mid.contains(i as usize));
                        let kq = choose|kq: int| 0 <= kq < mid.len() && mid[kq] == i as usize;
                        assert(mid_bin(bi)[kq] == i as usize);
                        assert(fs.spec_bin(bi)[kq] == i as usize);
                    } else {
                        let kq = choose|kq: int|
                            0 <= kq < old_self.spec_bin(bi).len() && old_self.spec_bin(bi)[kq]
                                == i as usize;
                        assert(mid_bin(bi)[kq] == i as usize);
                        assert(fs.spec_bin(bi)[kq] == i as usize);
                    }
                }
            }
        }
    }
}

/// Sort ids into descending order (insertion sort): same multiset,
/// non-increasing order.
fn sort_ids_desc(items: &Vec<usize>) -> (r: Vec<usize>)
    ensures
        r@.to_multiset() =~= items@.to_multiset(),
        r@.len() == items@.len(),
        forall|k1: int, k2: int| 0 <= k1 < k2 < r@.len() ==> r@[k1] >= r@[k2],
{
    let mut r: Vec<usize> = Vec::new();
    let n = items.len();
    proof {
        assert(r@ =~= items@.subrange(0, 0));
    }
    let mut t: usize = 0;
    while t < n
        invariant
            t <= n,
            n == items@.len(),
            r@.len() == t,
            r@.to_multiset() =~= items@.subrange(0, t as int).to_multiset(),
            forall|k1: int, k2: int| 0 <= k1 < k2 < r@.len() ==> r@[k1] >= r@[k2],
        decreases n - t,
    {
        let x = items[t];
        let mut pos: usize = 0;
        while pos < r.len() && r[pos] >= x
            invariant
                pos <= r@.len(),
                forall|j: int| 0 <= j < pos ==> r@[j] >= x,
                forall|k1: int, k2: int| 0 <= k1 < k2 < r@.len() ==> r@[k1] >= r@[k2],
            decreases r@.len() - pos,
        {
            pos = pos + 1;
        }
        let ghost r_old = r@;
        r.insert(pos, x);
        proof {
            vstd::seq_lib::to_multiset_insert(r_old, pos as int, x);
            assert(items@.subrange(0, t as int + 1).drop_last() =~= items@.subrange(0, t as int));
            vstd::seq_lib::to_multiset_remove(
                items@.subrange(0, t as int + 1),
                t as int,
            );
            assert(items@.subrange(0, t as int + 1).remove(t as int) =~= items@.subrange(
                0,
                t as int,
            ));
            assert(items@.subrange(0, t as int + 1)[t as int] == x);
            assert(items@.subrange(0, t as int + 1).to_multiset().remove(x) =~= items@.subrange(
                0,
                t as int,
            ).to_multiset());
            vstd::seq_lib::to_multiset_contains(items@.subrange(0, t as int + 1), x);
            assert(r@.to_multiset() =~= items@.subrange(0, t as int + 1).to_multiset());
            assert forall|k1: int, k2: int| 0 <= k1 < k2 < r@.len() implies r@[k1] >= r@[k2] by {
                if k2 < pos {
                    assert(r@[k1] == r_old[k1] && r@[k2] == r_old[k2]);
                } else if k1 > pos {
                    assert(r@[k1] == r_old[k1 - 1] && r@[k2] == r_old[k2 - 1]);
                } else if k1 == pos {
                    assert(r@[k1] == x && r@[k2] == r_old[k2 - 1]);
                    assert(!(r_old[pos as int] >= x));
                    assert(r_old[k2 - 1] <= r_old[pos as int]);
                } else if k2 == pos {
                    assert(r@[k1] == r_old[k1] && r@[k2] == x);
                } else {
                    assert(r@[k1] == r_old[k1] && r@[k2] == r_old[k2 - 1]);
                    assert(!(r_old[pos as int] >= x));
                    assert(r_old[k2 - 1] <= r_old[pos as int]);
                    assert(r@[k1] >= x);
                }
            }
        }
        t = t + 1;
    }
    proof {
        assert(items@.subrange(0, n as int) =~= items@);
    }
    r
}

/// A multiset of distinct values has exactly one descending arrangement.
pub proof fn lemma_sorted_desc_unique(s1: Seq<usize>, s2: Seq<usize>)
    requires
        sorted_desc(s1),
        sorted_desc(s2),
        s1.to_multiset() =~= s2.to_multiset(),
    ensures
        s1 =~= s2,
    decreases s1.len(),
{
    broadcast use vstd::seq_lib::group_to_multiset_ensures;

    if s1.len() == 0 {
        assert(s2.to_multiset().len() == 0);
    } else {
        assert(s1.to_multiset().count(s1[0]) > 0);
        assert(s2.contains(s1[0]));
        assert(s2.to_multiset().count(s2[0]) > 0);
        assert(s1.contains(s2[0]));
        let k1 = choose|k: int| 0 <= k < s1.len() && s1[k] == s2[0];
        let k2 = choose|k: int| 0 <= k < s2.len() && s2[k] == s1[0];
        assert(s1[k1] <= s1[0]);
        assert(s2[k2] <= s2[0]);
        assert(s1[0] == s2[0]);
        let t1 = s1.drop_first();
        let t2 = s2.drop_first();
        assert(s1 =~= seq![s1[0]].add(t1));
        assert(s2 =~= seq![s2[0]].add(t2));
        assert(t1.to_multiset() =~= s1.to_multiset().remove(s1[0])) by {
            assert(s1.drop_first() =~= s1.remove(0));
        }
        assert(t2.to_multiset() =~= s2.to_multiset().remove(s2[0])) by {
            assert(s2.drop_first() =~= s2.remove(0));
        }
        assert forall|j1: int, j2: int| 0 <= j1 < j2 < t1.len() implies t1[j1] > t1[j2] by {
            assert(s1[j1 + 1] > s1[j2 + 1]);
        }
        assert forall|j1: int, j2: int| 0 <= j1 < j2 < t2.len() implies t2[j1] > t2[j2] by {
            assert(s2[j1 + 1] > s2[j2 + 1]);
        }
        lemma_sorted_desc_unique(t1, t2);
    }
}

/// Index stability until removal: the particles below the removed slot
/// keep their indices, the slot itself takes over what was the last
/// particle, and the previous last index falls out of range.
pub proof fn lemma_swap_remove_stability<T>(s: Seq<T>, j: int)
    requires
        0 <= j < s.len(),
    ensures
        swap_remove_seq(s, j).len() == s.len() - 1,
        forall|k: int| 0 <= k < s.len() - 1 && k != j ==> #[trigger] swap_remove_seq(s, j)[k]
            == s[k],
        j < s.len() - 1 ==> swap_remove_seq(s, j)[j] == s.last(),
{
}

/// A strictly descending run of in-range indices removes one particle
/// per index.
pub proof fn lemma_remove_desc_len<T>(s: Seq<T>, idxs: Seq<usize>)
    requires
        sorted_desc(idxs),
        forall|j: int| 0 <= j < idxs.len() ==> (#[trigger] idxs[j] as int) < s.len(),
    ensures
        remove_desc(s, idxs).len() == s.len() - idxs.len(),
    decreases idxs.len(),
{
    if idxs.len() > 0 {
        let s1 = swap_remove_seq(s, idxs[0] as int);
        assert(s1.len() == s.len() - 1);
        let rest = idxs.drop_first();
        assert forall|j1: int, j2: int| 0 <= j1 < j2 < rest.len() implies rest[j1] > rest[j2] by {
            assert(idxs[j1 + 1] > idxs[j2 + 1]);
        }
        assert forall|j: int| 0 <= j < rest.len() implies (#[trigger] rest[j] as int)
            < s1.len() by {
            assert(rest[j] == idxs[j + 1]);
            assert(idxs[j + 1] < idxs[0]);
        }
        lemma_remove_desc_len(s1, rest);
    }
}

/// A removal step unfolds: a batch is the single removal of its first
/// (largest) index followed by the batch of the rest — removing a set is
/// removing its members one by one from the highest index down.
pub proof fn lemma_remove_desc_step<T>(s: Seq<T>, idxs: Seq<usize>)
    requires
        idxs.len() > 0,
    ensures
        remove_desc(s, idxs) == remove_desc(remove_desc(s, seq![idxs[0]]), idxs.drop_first()),
{
    reveal_with_fuel(remove_desc, 3);
    let single = seq![idxs[0]];
    assert(single.len() == 1 && single[0] == idxs[0]);
    assert(single.drop_first() =~= Seq::<usize>::empty());
    assert(remove_desc(s, single) == (if (idxs[0] as int) < s.len() {
        swap_remove_seq(s, idxs[0] as int)
    } else {
        s
    }));
}

impl<T> ParticleContainer<T> where T: Copy + Positionable {
    /// Remove a set of indices.  Internally the indices are removed in
    /// descending order — each removal swaps the current last particle
    /// into the freed slot, so ascending order would invalidate the
    /// not-yet-processed indices.  Ids out of range are ignored.
    pub fn remove_multiple_by_index(&mut self, items: Vec<usize>)
        requires
            old(self).inv(),
            items@.no_duplicates(),
        ensures
            final(self).inv(),
            final(self).spec_capacity() == old(self).spec_capacity(),
            final(self).spec_offset() == old(self).spec_offset(),
            exists|sorted: Seq<usize>|
                #![all_triggers]
                sorted_desc(sorted) && sorted.to_multiset() == items@.to_multiset()
                    && final(self).spec_particles() == remove_desc(
                    old(self).spec_particles(),
                    sorted,
                ),
    {
        broadcast use vstd::seq_lib::group_to_multiset_ensures;

        let sorted = sort_ids_desc(&items);
        proof {
            // distinct ids sorted in non-increasing order descend strictly
            assert forall|k1: int, k2: int|
                0 <= k1 < k2 < sorted@.len() implies sorted@[k1] > sorted@[k2] by {
                if sorted@[k1] == sorted@[k2] {
                    let ghost x = sorted@[k1];
                    vstd::seq_lib::to_multiset_remove(sorted@, k2);
                    assert(sorted@.remove(k2)[k1] == x);
                    assert(sorted@.remove(k2).contains(x));
                    assert(sorted@.remove(k2).to_multiset().count(x) > 0);
                    assert(sorted@.to_multiset().count(x) >= 2);
                    assert(items@.to_multiset().count(x) >= 2);
                    items@.lemma_multiset_has_no_duplicates();
                    assert(items@.contains(x));
                    assert(false);
                }
            }
        }
        let ghost orig = self.particles@;
        let ghost ssq = sorted@;
        let own_size = self.particles.len();
        let n = sorted.len();
        let mut t: usize = 0;
        while t < n
            invariant
                self.inv(),
                self.spec_capacity() == old(self).spec_capacity(),
                self.spec_offset() == old(self).spec_offset(),
                n == ssq.len(),
                ssq == sorted@,
                own_size == orig.len(),
                sorted_desc(ssq),
                self.spec_particles().len() <= orig.len(),
                self.spec_particles() == remove_desc(orig, ssq.subrange(0, t as int)),
                t <= n,
                forall|j: int|
                    t <= j < n && (ssq[j] as int) < orig.len() ==> (#[trigger] ssq[j] as int)
                        < self.spec_particles().len(),
            decreases n - t,
        {
            let idx = sorted[t];
            let ghost before = self.spec_particles();
            if idx < own_size {
                self.remove_one(idx);
            }
            proof {
                lemma_remove_desc_prefix(orig, ssq, t as int);
                assert(before == remove_desc(orig, ssq.subrange(0, t as int)));
                if (idx as int) < own_size {
                    assert(self.spec_particles() =~= swap_remove_seq(before, idx as int));
                    assert(self.spec_particles() == remove_desc(orig, ssq.subrange(0, t as int + 1)));
                } else {
                    assert(!((idx as int) < before.len()));
                    assert(self.spec_particles() == remove_desc(orig, ssq.subrange(0, t as int + 1)));
                }
                // later valid ids stay valid: they are strictly below idx
                assert forall|j: int|
                    t + 1 <= j < n && (ssq[j] as int) < orig.len() implies (#[trigger] ssq[j] as int)
                        < self.spec_particles().len() by {
                    if idx < own_size {
                        assert(ssq[j] < ssq[t as int]);
                    }
                }
            }
            t = t + 1;
        }
        proof {
            assert(ssq.subrange(0, n as int) =~= ssq);
        }
    }
}

/// Folding one more index into the processed prefix matches one more
/// removal step.
proof fn lemma_remove_desc_prefix<T>(s: Seq<T>, idxs: Seq<usize>, t: int)
    requires
        0 <= t < idxs.len(),
    ensures
        remove_desc(s, idxs.subrange(0, t + 1)) == (if (idxs[t] as int) < remove_desc(
            s,
            idxs.subrange(0, t),
        ).len() {
            swap_remove_seq(remove_desc(s, idxs.subrange(0, t)), idxs[t] as int)
        } else {
            remove_desc(s, idxs.subrange(0, t))
        }),
    decreases t,
{
    reveal_with_fuel(remove_desc, 3);
    if t == 0 {
        assert(idxs.subrange(0, 0) =~= Seq::<usize>::empty());
        assert(idxs.subrange(0, 1).drop_first() =~= Seq::<usize>::empty());
        assert(idxs.subrange(0, 1)[0] == idxs[0]);
    } else {
        let p1 = idxs.subrange(0, t + 1);
        let p0 = idxs.subrange(0, t);
        let q = idxs.subrange(1, idxs.len() as int);
        assert(p1.drop_first() =~= q.subrange(0, t));
        assert(p0.drop_first() =~= q.subrange(0, t - 1));
        lemma_remove_desc_prefix(
            if (idxs[0] as int) < s.len() {
                swap_remove_seq(s, idxs[0] as int)
            } else {
                s
            },
            q,
            t - 1,
        );
        assert(q.subrange(0, t)[t - 1] == q[t - 1]);
        assert(q[t - 1] == idxs[t]);
    }
}


/// A lazy, finite, restartable walk over an `(index, particle)` snapshot
/// of a container in storage order.
pub struct ContainerIterator<T> where T: Copy {
    items: Vec<Particle<T>>,
    at: usize,
}

impl<T> ContainerIterator<T> where T: Copy {
    /// The snapshot being walked.
    pub closed spec fn spec_items(self) -> Seq<Particle<T>> {
        self.items@
    }

    /// The cursor.
    pub closed spec fn spec_at(self) -> int {
        self.at as int
    }

    /// The next `(index, particle)` pair, if any.
    pub fn next(&mut self) -> (r: Option<Particle<T>>)
        ensures
            final(self).spec_items() == old(self).spec_items(),
            if old(self).spec_at() < old(self).spec_items().len() {
                r == Some(old(self).spec_items()[old(self).spec_at()]) && final(self).spec_at()
                    == old(self).spec_at() + 1
            } else {
                r is None && final(self).spec_at() == old(self).spec_at()
            },
    {
        if self.at < self.items.len() {
            let item = self.items[self.at];
            self.at = self.at + 1;
            Some(item)
        } else {
            None
        }
    }
}

/// A lazy walk over per-bucket groups of `(index, particle)` snapshots,
/// one group per grid bucket.
pub struct ContainerClusterIterator<T> where T: Copy {
    groups: Vec<Vec<Particle<T>>>,
    at: usize,
}

impl<T> ContainerClusterIterator<T> where T: Copy {
    /// The per-bucket groups being walked.
    pub closed spec fn spec_groups(self) -> Seq<Seq<Particle<T>>> {
        Seq::new(self.groups@.len(), |b: int| self.groups@[b]@)
    }

    /// The cursor.
    pub closed spec fn spec_at(self) -> int {
        self.at as int
    }

    /// The next bucket's group, if any.
    pub fn next(&mut self) -> (r: Option<Vec<Particle<T>>>)
        ensures
            final(self).spec_groups() == old(self).spec_groups(),
            if old(self).spec_at() < old(self).spec_groups().len() {
                r matches Some(g) && g@ == old(self).spec_groups()[old(self).spec_at()]
                    && final(self).spec_at() == old(self).spec_at() + 1
            } else {
                r is None && final(self).spec_at() == old(self).spec_at()
            },
    {
        if self.at < self.groups.len() {
            let src = &self.groups[self.at];
            let mut g: Vec<Particle<T>> = Vec::new();
            let n = src.len();
            let mut k: usize = 0;
            while k < n
                invariant
                    k <= n,
                    n == src@.len(),
                    g@ =~= src@.subrange(0, k as int),
                decreases n - k,
            {
                g.push(src[k]);
                k = k + 1;
            }
            proof {
                assert(src@.subrange(0, n as int) =~= src@);
            }
            self.at = self.at + 1;
            Some(g)
        } else {
            None
        }
    }
}

/// A moving particle advanced by its velocity over `delta`, saturating
/// into the coordinate range.
pub open spec fn moved_particle(p: crate::particle::MovingParticle, delta: int)
    -> crate::particle::MovingParticle {
    crate::particle::MovingParticle {
        pos: Vector {
            x: crate::vector::clamp_spec(p.pos.x + p.vel.x * delta) as i64,
            y: crate::vector::clamp_spec(p.pos.y + p.vel.y * delta) as i64,
        },
        ..p
    }
}

impl<T> ParticleContainer<T> where T: Copy + Positionable {
    /// An iterator of `(index, particle)` snapshots over the container in
    /// current storage order (not insertion order after any removal).
    pub fn values(&self) -> (r: ContainerIterator<T>)
        ensures
            r.spec_at() == 0,
            r.spec_items().len() == self.spec_size(),
            forall|k: int|
                0 <= k < self.spec_size() ==> (#[trigger] r.spec_items()[k]).index == k
                    && r.spec_items()[k].particle == self.spec_particles()[k],
    {
        let mut items: Vec<Particle<T>> = Vec::new();
        let n = self.particles.len();
        let mut i: usize = 0;
        while i < n
            invariant
                i <= n,
                n == self.spec_particles().len(),
                items@.len() == i,
                forall|k: int|
                    0 <= k < i ==> (#[trigger] items@[k]).index == k && items@[k].particle
                        == self.spec_particles()[k],
            decreases n - i,
        {
            items.push(Particle { particle: self.particles[i], index: i });
            i = i + 1;
        }
        ContainerIterator { items, at: 0 }
    }

    /// The occupied grid buckets below `b`, in ascending order.
    pub open spec fn occupied_bins_upto(self, b: int) -> Seq<int>
        decreases b,
    {
        if b <= 0 {
            Seq::empty()
        } else {
            let prev = self.occupied_bins_upto(b - 1);
            if self.spec_bin(b - 1).len() > 0 {
                prev.push(b - 1)
            } else {
                prev
            }
        }
    }

    /// An iterator of particle groups, one per non-empty grid bucket in
    /// ascending bucket order, used to process spatially local
    /// candidates together.
    pub fn clusters(&self) -> (r: ContainerClusterIterator<T>)
        requires
            self.inv(),
        ensures
            r.spec_at() == 0,
            r.spec_groups().len() == self.occupied_bins_upto(1296).len(),
            forall|gi: int|
                0 <= gi < r.spec_groups().len() ==> {
                    let bb = self.occupied_bins_upto(1296)[gi];
                    &&& (#[trigger] r.spec_groups()[gi]).len() == self.spec_bin(bb).len()
                    &&& r.spec_groups()[gi].len() > 0
                    &&& forall|k: int|
                        0 <= k < self.spec_bin(bb).len() ==> (#[trigger] r.spec_groups()[gi][k]).index
                            == self.spec_bin(bb)[k] && r.spec_groups()[gi][k].particle
                            == self.spec_particles()[self.spec_bin(bb)[k] as int]
                },
    {
        let mut groups: Vec<Vec<Particle<T>>> = Vec::new();
        let mut b: usize = 0;
        while b < 1296
            invariant
                b <= 1296,
                self.inv(),
                groups@.len() == self.occupied_bins_upto(b as int).len(),
                forall|gi: int|
                    0 <= gi < groups@.len() ==> {
                        let bb = self.occupied_bins_upto(b as int)[gi];
                        &&& (#[trigger] groups@[gi]@).len() == self.spec_bin(bb).len()
                        &&& groups@[gi]@.len() > 0
                        &&& forall|k: int|
                            0 <= k < self.spec_bin(bb).len() ==> (#[trigger] groups@[gi]@[k]).index
                                == self.spec_bin(bb)[k] && groups@[gi]@[k].particle
                                == self.spec_particles()[self.spec_bin(bb)[k] as int]
                    },
            decreases 1296 - b,
        {
            let ghost occ_before = self.occupied_bins_upto(b as int);
            let ids = self.bins.get_bin(b);
            if ids.len() > 0 {
                let mut g: Vec<Particle<T>> = Vec::new();
                let n = ids.len();
                let mut k: usize = 0;
                while k < n
                    invariant
                        k <= n,
                        self.inv(),
                        b < 1296,
                        ids@ =~= self.spec_bin(b as int),
                        n == ids@.len(),
                        g@.len() == k,
                        forall|j: int|
                            0 <= j < k ==> (#[trigger] g@[j]).index == self.spec_bin(b as int)[j]
                                && g@[j].particle == self.spec_particles()[self.spec_bin(b as int)[j] as int],
                    decreases n - k,
                {
                    let id = ids[k];
                    proof {
                        assert(self.spec_bin(b as int)[k as int] < self.spec_particles().len());
                    }
                    g.push(Particle { particle: self.particles[id], index: id });
                    k = k + 1;
                }
                groups.push(g);
                proof {
                    assert(self.occupied_bins_upto(b as int + 1) =~= occ_before.push(b as int));
                    assert forall|gi: int| 0 <= gi < groups@.len() implies {
                        let bb = self.occupied_bins_upto(b as int + 1)[gi];
                        &&& (#[trigger] groups@[gi]@).len() == self.spec_bin(bb).len()
                        &&& groups@[gi]@.len() > 0
                        &&& forall|k2: int|
                            0 <= k2 < self.spec_bin(bb).len() ==> (#[trigger] groups@[gi]@[k2]).index
                                == self.spec_bin(bb)[k2] && groups@[gi]@[k2].particle
                                == self.spec_particles()[self.spec_bin(bb)[k2] as int]
                    } by {
                        if gi < occ_before.len() {
                            assert(self.occupied_bins_upto(b as int + 1)[gi] == occ_before[gi]);
                        } else {
                            assert(self.occupied_bins_upto(b as int + 1)[gi] == b as int);
                        }
                    }
                }
            } else {
                proof {
                    assert(self.spec_bin(b as int).len() == 0);
                    assert(self.occupied_bins_upto(b as int + 1) == occ_before);
                }
            }
            b = b + 1;
        }
        ContainerClusterIterator { groups, at: 0 }
    }
}

impl ParticleContainer<crate::particle::MovingParticle> {
    /// Advance every particle's position by its velocity times `delta`,
    /// then rebuild the grid, since in-place motion cannot incrementally
    /// relocate bucket entries.
    pub fn update_positions(&mut self, delta: i64)
        requires
            old(self).inv(),
            0 <= delta <= 1_000_000,
        ensures
            final(self).inv(),
            final(self).spec_capacity() == old(self).spec_capacity(),
            final(self).spec_offset() == old(self).spec_offset(),
            final(self).spec_particles().len() == old(self).spec_particles().len(),
            forall|i: int|
                0 <= i < old(self).spec_particles().len() ==> final(self).spec_particles()[i]
                    == moved_particle(#[trigger] old(self).spec_particles()[i], delta as int),
    {
        let ghost old_self = *self;
        let n = self.particles.len();
        let mut i: usize = 0;
        while i < n
            invariant
                i <= n,
                0 <= delta <= 1_000_000,
                self.spec_bins() == old_self.spec_bins(),
                self.capacity == old_self.capacity,
                n == self.spec_particles().len(),
                n == old_self.spec_particles().len(),
                old_self.inv(),
                forall|j: int|
                    0 <= j < i ==> self.spec_particles()[j] == moved_particle(
                        #[trigger] old_self.spec_particles()[j],
                        delta as int,
                    ),
                forall|j: int|
                    i <= j < n ==> self.spec_particles()[j] == old_self.spec_particles()[j],
            decreases n - i,
        {
            let p = self.particles[i];
            proof {
                assert(old_self.spec_particles()[i as int].wf_value());
                assert(-1_000_000_000_000_000 <= p.vel.x as int * delta as int
                    <= 1_000_000_000_000_000) by (nonlinear_arith)
                    requires
                        -1_000_000_000 <= p.vel.x <= 1_000_000_000,
                        0 <= delta <= 1_000_000,
                ;
                assert(-1_000_000_000_000_000 <= p.vel.y as int * delta as int
                    <= 1_000_000_000_000_000) by (nonlinear_arith)
                    requires
                        -1_000_000_000 <= p.vel.y <= 1_000_000_000,
                        0 <= delta <= 1_000_000,
                ;
            }
            let moved = crate::particle::MovingParticle {
                pos: Vector {
                    x: crate::vector::clamp_coord(p.pos.x + p.vel.x * delta),
                    y: crate::vector::clamp_coord(p.pos.y + p.vel.y * delta),
                },
                ..p
            };
            self.particles.set(i, moved);
            i = i + 1;
        }
        proof {
            assert forall|j: int|
                0 <= j < self.spec_particles().len() implies (#[trigger] self.spec_particles(
            )[j]).wf_value() by {
                assert(old_self.spec_particles()[j].wf_value());
                assert(self.spec_particles()[j] == moved_particle(
                    old_self.spec_particles()[j],
                    delta as int,
                ));
            }
        }
        self.rebuild_bins();
    }

    /// Clear the grid and re-register every particle under its current
    /// position.
    fn rebuild_bins(&mut self)
        requires
            old(self).spec_bins().wf(),
            old(self).spec_particles().len() <= old(self).spec_capacity(),
            forall|i: int|
                0 <= i < old(self).spec_particles().len() ==> (#[trigger] old(self).spec_particles(
                )[i]).wf_value(),
        ensures
            final(self).inv(),
            final(self).spec_capacity() == old(self).spec_capacity(),
            final(self).spec_offset() == old(self).spec_offset(),
            final(self).spec_particles() == old(self).spec_particles(),
    {
        self.bins.clear();
        let n = self.particles.len();
        let ghost off = self.spec_offset();
        let mut i: usize = 0;
        while i < n
            invariant
                i <= n,
                self.spec_bins().wf(),
                self.spec_offset() == old(self).spec_offset(),
                self.capacity == old(self).capacity,
                self.spec_particles() == old(self).spec_particles(),
                off == self.spec_offset(),
                n == self.spec_particles().len(),
                n <= self.spec_capacity(),
                forall|j: int|
                    0 <= j < n ==> (#[trigger] self.spec_particles()[j]).wf_value(),
                forall|b: int, k: int|
                    0 <= b < 1296 && 0 <= k < self.spec_bin(b).len() ==> (#[trigger] self.spec_bin(
                        b,
                    )[k]) < i && bin_of(
                        off,
                        self.spec_particles()[self.spec_bin(b)[k] as int].spec_pos(),
                    ) == b,
                forall|b: int, k1: int, k2: int|
                    #![trigger self.spec_bin(b)[k1], self.spec_bin(b)[k2]]
                    0 <= b < 1296 && 0 <= k1 < k2 < self.spec_bin(b).len() ==> self.spec_bin(b)[k1]
                        != self.spec_bin(b)[k2],
                forall|j: int|
                    0 <= j < i ==> #[trigger] self.spec_bin(
                        bin_of(off, self.spec_particles()[j].spec_pos()),
                    ).contains(j as usize),
            decreases n - i,
        {
            let ghost before = *self;
            let pos = self.particles[i].position();
            proof {
                (&self.particles@[i as int]).wf_value_bounds();
            }
            self.bins.add(i, &pos);
            proof {
                let target = bin_of(off, self.spec_particles()[i as int].spec_pos());
                lemma_bin_of_range(off, self.spec_particles()[i as int].spec_pos());
                assert forall|b: int, k: int|
                    0 <= b < 1296 && 0 <= k < self.spec_bin(b).len() implies (
                #[trigger] self.spec_bin(b)[k]) < i + 1 && bin_of(
                    off,
                    self.spec_particles()[self.spec_bin(b)[k] as int].spec_pos(),
                ) == b by {
                    if b == target && k == self.spec_bin(b).len() - 1 {
                        assert(self.spec_bin(b)[k] == i);
                    } else {
                        assert(self.spec_bin(b)[k] == before.spec_bin(b)[k]);
                    }
                }
                assert forall|b: int, k1: int, k2: int|
                    0 <= b < 1296 && 0 <= k1 < k2 < self.spec_bin(b).len() implies self.spec_bin(
                    b,
                )[k1] != self.spec_bin(b)[k2] by {
                    if b == target && k2 == self.spec_bin(b).len() - 1 {
                        assert(self.spec_bin(b)[k1] == before.spec_bin(b)[k1]);
                        assert(before.spec_bin(b)[k1] < i);
                        assert(self.spec_bin(b)[k2] == i as usize);
                    } else {
                        assert(self.spec_bin(b)[k1] == before.spec_bin(b)[k1]);
                        assert(self.spec_bin(b)[k2] == before.spec_bin(b)[k2]);
                    }
                }
                assert forall|j: int| 0 <= j < i + 1 implies #[trigger] self.spec_bin(
                    bin_of(off, self.spec_particles()[j].spec_pos()),
                ).contains(j as usize) by {
                    if j < i {
                        let bj = bin_of(off, self.spec_particles()[j].spec_pos());
                        assert(before.spec_bin(bj).contains(j as usize));
                        let k = choose|k: int|
                            0 <= k < before.spec_bin(bj).len() && before.spec_bin(bj)[k]
                                == j as usize;
                        assert(self.spec_bin(bj)[k] == j as usize);
                    } else {
                        assert(self.spec_bin(target)[self.spec_bin(target).len() - 1]
                            == i as usize);
                    }
                }
            }
            i = i + 1;
        }
    }
}


/// A position lies within the axis-aligned query box around `target`.
pub open spec fn within_box(p: Vector, target: Vector, range: int) -> bool {
    -range <= p.x - target.x <= range && -range <= p.y - target.y <= range
}

/// `b` is one of the four buckets covering the corners of the query box.
pub open spec fn is_query_bin(offset: int, target: Vector, range: int, b: int) -> bool {
    ||| b == bin_of(offset, Vector { x: (target.x - range) as i64, y: (target.y - range) as i64 })
    ||| b == bin_of(offset, Vector { x: (target.x - range) as i64, y: (target.y + range) as i64 })
    ||| b == bin_of(offset, Vector { x: (target.x + range) as i64, y: (target.y - range) as i64 })
    ||| b == bin_of(offset, Vector { x: (target.x + range) as i64, y: (target.y + range) as i64 })
}

/// `b` is one of the (up to nine) buckets of the 3×3 neighbourhood of
/// `target`'s bucket, saturating at the grid boundary.
pub open spec fn is_neighbor_bin(offset: int, target: Vector, b: int) -> bool {
    let ti = bin_of(offset, target);
    let tx = ti % 36;
    let ty = ti / 36;
    let xm = if tx == 0 { 0 } else { tx - 1 };
    let ym = if ty == 0 { 0 } else { ty - 1 };
    ||| b == lin_spec(xm, ym)
    ||| b == lin_spec(tx, ym)
    ||| b == lin_spec(tx + 1, ym)
    ||| b == lin_spec(xm, ty)
    ||| b == lin_spec(tx, ty)
    ||| b == lin_spec(tx + 1, ty)
    ||| b == lin_spec(xm, ty + 1)
    ||| b == lin_spec(tx, ty + 1)
    ||| b == lin_spec(tx + 1, ty + 1)
}

/// The neighbourhood buckets below `b`, in ascending order.
pub open spec fn nearby_upto(offset: int, target: Vector, b: int) -> Seq<usize>
    decreases b,
{
    if b <= 0 {
        Seq::empty()
    } else {
        let prev = nearby_upto(offset, target, b - 1);
        if is_neighbor_bin(offset, target, b - 1) {
            prev.push((b - 1) as usize)
        } else {
            prev
        }
    }
}


/// How many neighbourhood buckets lie below `b`.
pub open spec fn nb_count(offset: int, target: Vector, b: int) -> int
    decreases b,
{
    if b <= 0 {
        0
    } else {
        nb_count(offset, target, b - 1) + if is_neighbor_bin(offset, target, b - 1) {
            1int
        } else {
            0
        }
    }
}

/// How many of the values fall into `[0, b)`.
pub open spec fn count_lt(vs: Seq<int>, b: int) -> int
    decreases vs.len(),
{
    if vs.len() == 0 {
        0
    } else {
        count_lt(vs.drop_last(), b) + if 0 <= vs.last() < b {
            1int
        } else {
            0
        }
    }
}

proof fn lemma_nearby_len_is_count(offset: int, target: Vector, b: int)
    requires
        0 <= b,
    ensures
        nearby_upto(offset, target, b).len() == nb_count(offset, target, b),
    decreases b,
{
    if b > 0 {
        lemma_nearby_len_is_count(offset, target, b - 1);
    }
}

proof fn lemma_count_lt_step(vs: Seq<int>, b: int)
    requires
        vs.no_duplicates(),
        1 <= b,
    ensures
        count_lt(vs, b) == count_lt(vs, b - 1) + if vs.contains(b - 1) {
            1int
        } else {
            0
        },
    decreases vs.len(),
{
    if vs.len() > 0 {
        let w = vs.drop_last();
        assert(w.no_duplicates()) by {
            assert forall|i: int, j: int| 0 <= i < j < w.len() implies w[i] != w[j] by {
                assert(vs[i] == w[i] && vs[j] == w[j]);
            }
        }
        lemma_count_lt_step(w, b);
        if vs.last() == b - 1 {
            // the last element is counted exactly once: it cannot recur
            // in the prefix
            if w.contains(b - 1) {
                let k = choose|k: int| 0 <= k < w.len() && w[k] == b - 1;
                assert(vs[k] == b - 1 && vs[vs.len() - 1] == b - 1);
                assert(false);
            }
        } else {
            assert(vs.contains(b - 1) <==> w.contains(b - 1)) by {
                if vs.contains(b - 1) {
                    let k = choose|k: int| 0 <= k < vs.len() && vs[k] == b - 1;
                    assert(w[k] == b - 1);
                }
                if w.contains(b - 1) {
                    let k = choose|k: int| 0 <= k < w.len() && w[k] == b - 1;
                    assert(vs[k] == b - 1);
                }
            }
        }
    }
}

proof fn lemma_nb_count_by_values(offset: int, target: Vector, vs: Seq<int>, b: int)
    requires
        vs.no_duplicates(),
        forall|x: int| is_neighbor_bin(offset, target, x) <==> vs.contains(x),
        0 <= b,
    ensures
        nb_count(offset, target, b) == count_lt(vs, b),
    decreases b,
{
    if b == 0 {
        assert(count_lt(vs, 0) == 0) by {
            lemma_count_lt_empty(vs);
        }
    } else {
        lemma_nb_count_by_values(offset, target, vs, b - 1);
        lemma_count_lt_step(vs, b);
    }
}

proof fn lemma_count_lt_empty(vs: Seq<int>)
    ensures
        count_lt(vs, 0) == 0,
    decreases vs.len(),
{
    if vs.len() > 0 {
        lemma_count_lt_empty(vs.drop_last());
    }
}

/// Neighbour-set cardinality: a query whose bucket lies in the grid's
/// interior sees the full 3×3 neighbourhood of nine buckets; a query in
/// the lower-left or upper-right corner bucket sees four.
pub proof fn lemma_neighbor_cardinality(offset: int, target: Vector)
    requires
        1 <= offset,
    ensures
        ({
            let ax = axis_bin(offset, target.x as int);
            let ay = axis_bin(offset, target.y as int);
            &&& (1 <= ax <= 34 && 1 <= ay <= 34) ==> nearby_upto(offset, target, 1296).len() == 9
            &&& (ax == 0 && ay == 0) ==> nearby_upto(offset, target, 1296).len() == 4
            &&& (ax == 35 && ay == 35) ==> nearby_upto(offset, target, 1296).len() == 4
            &&& (ax == 0 && ay == 35) ==> nearby_upto(offset, target, 1296).len() == 4
            &&& (ax == 35 && ay == 0) ==> nearby_upto(offset, target, 1296).len() == 4
        }),
{
    let ax = axis_bin(offset, target.x as int);
    let ay = axis_bin(offset, target.y as int);
    lemma_axis_bin_range(offset, target.x as int);
    lemma_axis_bin_range(offset, target.y as int);
    let ti = bin_of(offset, target);
    assert(ti == ax + 36 * ay);
    assert(ti % 36 == ax) by {
        vstd::arithmetic::div_mod::lemma_mod_multiples_vanish(ay, ax, 36);
        vstd::arithmetic::div_mod::lemma_small_mod(ax as nat, 36nat);
        assert(36 * ay + ax == ax + 36 * ay);
    }
    assert(ti / 36 == ay) by {
        vstd::arithmetic::div_mod::lemma_div_multiples_vanish_fancy(ay, ax, 36);
        assert(36 * ay + ax == ax + 36 * ay);
    }
    lemma_nearby_len_is_count(offset, target, 1296);
    if 1 <= ax <= 34 && 1 <= ay <= 34 {
        let vs: Seq<int> = seq![
            (ax - 1) + 36 * (ay - 1),
            ax + 36 * (ay - 1),
            (ax + 1) + 36 * (ay - 1),
            (ax - 1) + 36 * ay,
            ax + 36 * ay,
            (ax + 1) + 36 * ay,
            (ax - 1) + 36 * (ay + 1),
            ax + 36 * (ay + 1),
            (ax + 1) + 36 * (ay + 1),
        ];
        assert(vs.no_duplicates());
        assert forall|x: int| is_neighbor_bin(offset, target, x) <==> vs.contains(x) by {
            if is_neighbor_bin(offset, target, x) {
                assert(vs.contains(x)) by {
                    if x == lin_spec(ax - 1, ay - 1) {
                        assert(vs[0] == x);
                    } else if x == lin_spec(ax, ay - 1) {
                        assert(vs[1] == x);
                    } else if x == lin_spec(ax + 1, ay - 1) {
                        assert(vs[2] == x);
                    } else if x == lin_spec(ax - 1, ay) {
                        assert(vs[3] == x);
                    } else if x == lin_spec(ax, ay) {
                        assert(vs[4] == x);
                    } else if x == lin_spec(ax + 1, ay) {
                        assert(vs[5] == x);
                    } else if x == lin_spec(ax - 1, ay + 1) {
                        assert(vs[6] == x);
                    } else if x == lin_spec(ax, ay + 1) {
                        assert(vs[7] == x);
                    } else {
                        assert(vs[8] == x);
                    }
                }
            }
            if vs.contains(x) {
                assert(is_neighbor_bin(offset, target, x));
            }
        }
        lemma_nb_count_by_values(offset, target, vs, 1296);
        reveal_with_fuel(count_lt, 11);
        assert(count_lt(vs, 1296) == 9);
    }
    if ax == 0 && ay == 0 {
        let vs: Seq<int> = seq![0int, 1, 36, 37];
        assert(vs.no_duplicates());
        assert forall|x: int| is_neighbor_bin(offset, target, x) <==> vs.contains(x) by {
            if is_neighbor_bin(offset, target, x) {
                assert(vs.contains(x)) by {
                    if x == 0 {
                        assert(vs[0] == x);
                    } else if x == 1 {
                        assert(vs[1] == x);
                    } else if x == 36 {
                        assert(vs[2] == x);
                    } else {
                        assert(vs[3] == x);
                    }
                }
            }
            if vs.contains(x) {
                assert(x == 0 || x == 1 || x == 36 || x == 37);
                assert(is_neighbor_bin(offset, target, x));
            }
        }
        lemma_nb_count_by_values(offset, target, vs, 1296);
        reveal_with_fuel(count_lt, 6);
        assert(count_lt(vs, 1296) == 4);
    }
    if ax == 0 && ay == 35 {
        let vs: Seq<int> = seq![0int + 36 * 34, 1int + 36 * 34, 0int + 36 * 35, 1int + 36 * 35];
        assert(vs.no_duplicates());
        assert forall|x: int| is_neighbor_bin(offset, target, x) <==> vs.contains(x) by {
            if is_neighbor_bin(offset, target, x) {
                assert(vs.contains(x)) by {
                    if x == lin_spec(0, 34) {
                        assert(vs[0] == x);
                    } else if x == lin_spec(1, 34) {
                        assert(vs[1] == x);
                    } else if x == lin_spec(0, 35) {
                        assert(vs[2] == x);
                    } else {
                        assert(vs[3] == x);
                    }
                }
            }
            if vs.contains(x) {
                assert(is_neighbor_bin(offset, target, x)) by {
                    assert(lin_spec(0, 36) == 0 + 36 * 35);
                    assert(lin_spec(1, 36) == 1 + 36 * 35);
                }
            }
        }
        lemma_nb_count_by_values(offset, target, vs, 1296);
        reveal_with_fuel(count_lt, 6);
        assert(count_lt(vs, 1296) == 4);
    }
    if ax == 35 && ay == 0 {
        let vs: Seq<int> = seq![34int + 36 * 0, 35int + 36 * 0, 34int + 36 * 1, 35int + 36 * 1];
        assert(vs.no_duplicates());
        assert forall|x: int| is_neighbor_bin(offset, target, x) <==> vs.contains(x) by {
            if is_neighbor_bin(offset, target, x) {
                assert(vs.contains(x)) by {
                    if x == lin_spec(34, 0) {
                        assert(vs[0] == x);
                    } else if x == lin_spec(35, 0) {
                        assert(vs[1] == x);
                    } else if x == lin_spec(34, 1) {
                        assert(vs[2] == x);
                    } else {
                        assert(vs[3] == x);
                    }
                }
            }
            if vs.contains(x) {
                assert(is_neighbor_bin(offset, target, x)) by {
                    assert(lin_spec(36, 0) == 35 + 36 * 0);
                    assert(lin_spec(36, 1) == 35 + 36 * 1);
                }
            }
        }
        lemma_nb_count_by_values(offset, target, vs, 1296);
        reveal_with_fuel(count_lt, 6);
        assert(count_lt(vs, 1296) == 4);
    }
    if ax == 35 && ay == 35 {
        let vs: Seq<int> = seq![34int + 36 * 34, 35int + 36 * 34, 34int + 36 * 35, 35int + 36 * 35];
        assert(vs.no_duplicates());
        assert forall|x: int| is_neighbor_bin(offset, target, x) <==> vs.contains(x) by {
            if is_neighbor_bin(offset, target, x) {
                assert(vs.contains(x)) by {
                    if x == lin_spec(34, 34) {
                        assert(vs[0] == x);
                    } else if x == lin_spec(35, 34) {
                        assert(vs[1] == x);
                    } else if x == lin_spec(34, 35) {
                        assert(vs[2] == x);
                    } else {
                        assert(vs[3] == x);
                    }
                }
            }
            if vs.contains(x) {
                assert(is_neighbor_bin(offset, target, x)) by {
                    assert(lin_spec(35, 35) == 35 + 36 * 35);
                    assert(lin_spec(36, 35) == 35 + 36 * 35);
                    assert(lin_spec(34, 35) == 34 + 36 * 35);
                    assert(lin_spec(35, 36) == 35 + 36 * 35);
                }
            }
        }
        lemma_nb_count_by_values(offset, target, vs, 1296);
        reveal_with_fuel(count_lt, 6);
        assert(count_lt(vs, 1296) == 4);
    }
}

impl<T> ParticleContainer<T> where T: Copy + Positionable {
    /// The `(index, particle)` entries of bucket `b`'s first `k` slots
    /// whose particles lie within the query box.
    pub open spec fn bin_matches_upto(self, target: Vector, range: int, b: int, k: int) -> Seq<
        Particle<T>,
    >
        decreases k,
    {
        if k <= 0 {
            Seq::empty()
        } else {
            let prev = self.bin_matches_upto(target, range, b, k - 1);
            let id = self.spec_bin(b)[k - 1];
            let p = self.spec_particles()[id as int];
            if within_box(p.spec_pos(), target, range) {
                prev.push(Particle { particle: p, index: id })
            } else {
                prev
            }
        }
    }

    /// All of bucket `b`'s entries within the query box.
    pub open spec fn bin_matches(self, target: Vector, range: int, b: int) -> Seq<Particle<T>> {
        self.bin_matches_upto(target, range, b, self.spec_bin(b).len() as int)
    }

    /// Candidates of the corner buckets below `b`, in ascending bucket
    /// order (each qualifying bucket contributes once).
    pub open spec fn query_matches_upto(self, target: Vector, range: int, b: int) -> Seq<
        Particle<T>,
    >
        decreases b,
    {
        if b <= 0 {
            Seq::empty()
        } else {
            let prev = self.query_matches_upto(target, range, b - 1);
            if is_query_bin(self.spec_offset(), target, range, b - 1) {
                prev + self.bin_matches(target, range, b - 1)
            } else {
                prev
            }
        }
    }

    /// Everything a radius query returns: the in-box entries of the four
    /// corner buckets, in ascending bucket order.
    pub open spec fn query_matches(self, target: Vector, range: int) -> Seq<Particle<T>> {
        self.query_matches_upto(target, range, 1296)
    }

    /// Candidates gathered from the first `j` of the given buckets, in
    /// that order.
    pub open spec fn gather_matches_upto(
        self,
        target: Vector,
        range: int,
        bins: Seq<usize>,
        j: int,
    ) -> Seq<Particle<T>>
        decreases j,
    {
        if j <= 0 {
            Seq::empty()
        } else {
            self.gather_matches_upto(target, range, bins, j - 1) + self.bin_matches(
                target,
                range,
                bins[j - 1] as int,
            )
        }
    }

    /// Scan one bucket for particles within the query box, appending the
    /// matches to `out`.
    fn scan_bin(&self, target: &Vector, range: i64, b: usize, out: &mut Vec<Particle<T>>)
        requires
            self.inv(),
            in_bounds(*target, COORD_LIMIT as int),
            0 <= range <= COORD_LIMIT,
            b < 1296,
        ensures
            final(out)@ =~= old(out)@ + self.bin_matches(*target, range as int, b as int),
    {
        let ids = self.bins.get_bin(b);
        let n = ids.len();
        let mut k: usize = 0;
        while k < n
            invariant
                k <= n,
                self.inv(),
                in_bounds(*target, COORD_LIMIT as int),
                0 <= range <= COORD_LIMIT,
                b < 1296,
                ids@ =~= self.spec_bin(b as int),
                n == ids@.len(),
                out@ =~= old(out)@ + self.bin_matches_upto(*target, range as int, b as int, k as int),
            decreases n - k,
        {
            let id = ids[k];
            proof {
                assert(self.spec_bin(b as int)[k as int] < self.spec_particles().len());
                (&self.particles@[id as int]).wf_value_bounds();
            }
            let p = self.particles[id];
            let pos = p.position();
            if pos.x - target.x <= range && target.x - pos.x <= range && pos.y - target.y <= range
                && target.y - pos.y <= range {
                out.push(Particle { particle: p, index: id });
            }
            k = k + 1;
        }
    }
}

impl ParticleContainer<crate::particle::StaticParticle> {
    /// The deduplicated, ascending list of grid buckets in the 3×3
    /// neighbourhood of `target`'s bucket; edge positions see fewer
    /// buckets because the neighbourhood saturates at the boundary.
    pub fn select_nearby_clusters(&self, target: &Vector, _range: i64) -> (r: Vec<usize>)
        requires
            self.inv(),
            in_bounds(*target, 2 * COORD_LIMIT as int),
        ensures
            r@ == nearby_upto(self.spec_offset(), *target, 1296),
    {
        let this_index = self.bins.index(target);
        let this_x = this_index % 36;
        let this_y = this_index / 36;
        let xm: usize = if this_x == 0 {
            0
        } else {
            this_x - 1
        };
        let ym: usize = if this_y == 0 {
            0
        } else {
            this_y - 1
        };
        let v0 = Binnery::to_linear(xm, ym);
        let v1 = Binnery::to_linear(this_x, ym);
        let v2 = Binnery::to_linear(this_x + 1, ym);
        let v3 = Binnery::to_linear(xm, this_y);
        let v4 = Binnery::to_linear(this_x, this_y);
        let v5 = Binnery::to_linear(this_x + 1, this_y);
        let v6 = Binnery::to_linear(xm, this_y + 1);
        let v7 = Binnery::to_linear(this_x, this_y + 1);
        let v8 = Binnery::to_linear(this_x + 1, this_y + 1);
        let mut r: Vec<usize> = Vec::new();
        let mut b: usize = 0;
        while b < 1296
            invariant
                b <= 1296,
                r@ == nearby_upto(self.spec_offset(), *target, b as int),
                forall|bb: int|
                    is_neighbor_bin(self.spec_offset(), *target, bb) <==> (bb == v0 || bb == v1
                        || bb == v2 || bb == v3 || bb == v4 || bb == v5 || bb == v6 || bb == v7
                        || bb == v8),
            decreases 1296 - b,
        {
            if b == v0 || b == v1 || b == v2 || b == v3 || b == v4 || b == v5 || b == v6 || b == v7
                || b == v8 {
                r.push(b);
            }
            b = b + 1;
        }
        r
    }

    /// The candidate static particles for a binding attempt around
    /// `target`: the contents of the buckets covering the corners of the
    /// query box, narrowed to particles within the box.
    pub fn select_for_binding(&self, target: &Vector, range: i64) -> (r: Vec<
        Particle<crate::particle::StaticParticle>,
    >)
        requires
            self.inv(),
            in_bounds(*target, COORD_LIMIT as int),
            0 <= range <= COORD_LIMIT,
        ensures
            r@ == self.query_matches(*target, range as int),
    {
        let c1 = self.bins.index(&Vector::new(target.x - range, target.y - range));
        let c2 = self.bins.index(&Vector::new(target.x - range, target.y + range));
        let c3 = self.bins.index(&Vector::new(target.x + range, target.y - range));
        let c4 = self.bins.index(&Vector::new(target.x + range, target.y + range));
        let mut r: Vec<Particle<crate::particle::StaticParticle>> = Vec::new();
        let mut b: usize = 0;
        while b < 1296
            invariant
                b <= 1296,
                self.inv(),
                in_bounds(*target, COORD_LIMIT as int),
                0 <= range <= COORD_LIMIT,
                r@ =~= self.query_matches_upto(*target, range as int, b as int),
                forall|bb: int|
                    is_query_bin(self.spec_offset(), *target, range as int, bb) <==> (bb == c1
                        || bb == c2 || bb == c3 || bb == c4),
            decreases 1296 - b,
        {
            if b == c1 || b == c2 || b == c3 || b == c4 {
                self.scan_bin(target, range, b, &mut r);
            }
            b = b + 1;
        }
        r
    }

    /// The candidates found in the given buckets, in their order,
    /// narrowed to particles within the query box.
    pub fn select_for_binding_from_clusters(
        &self,
        target: &Vector,
        range: i64,
        from_bins: &Vec<usize>,
    ) -> (r: Vec<Particle<crate::particle::StaticParticle>>)
        requires
            self.inv(),
            in_bounds(*target, COORD_LIMIT as int),
            0 <= range <= COORD_LIMIT,
            forall|j: int| 0 <= j < from_bins@.len() ==> (#[trigger] from_bins@[j]) < 1296,
        ensures
            r@ == self.gather_matches_upto(
                *target,
                range as int,
                from_bins@,
                from_bins@.len() as int,
            ),
    {
        let mut r: Vec<Particle<crate::particle::StaticParticle>> = Vec::new();
        let n = from_bins.len();
        let mut j: usize = 0;
        while j < n
            invariant
                j <= n,
                self.inv(),
                in_bounds(*target, COORD_LIMIT as int),
                0 <= range <= COORD_LIMIT,
                n == from_bins@.len(),
                forall|jj: int| 0 <= jj < n ==> (#[trigger] from_bins@[jj]) < 1296,
                r@ =~= self.gather_matches_upto(*target, range as int, from_bins@, j as int),
            decreases n - j,
        {
            let b = from_bins[j];
            self.scan_bin(target, range, b, &mut r);
            j = j + 1;
        }
        r
    }
}

} // verus!
