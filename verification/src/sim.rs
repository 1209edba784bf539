//! Particles, systems of particles, and the operations that advance and
//! measure them.

use vstd::prelude::*;
use crate::grid::advanced;
use crate::grid::lemma_advanced_shape;
use crate::grid::rectangular;
use crate::grid::zeros_like;
use crate::grid::rows_view;
use crate::grid::Grid;
use crate::model::gravitational_constant;
use crate::model::half;
use crate::model::one;
use crate::model::weighted;
use crate::model::softening_length;
use crate::model::State;
use crate::number::Real;
use crate::vector::vector_difference;
use crate::vector::vector_sum_of_squares;
use crate::vector::vector_norm;
use crate::vector::vector_sum;
use crate::vector::zero_vector;
use rayon::iter::IntoParallelIterator;
use rayon::iter::ParallelIterator;

verus! {

/// A point mass in `D` dimensions: position in metres, velocity in metres
/// per second, mass in kilograms.
#[derive(Debug)]
pub struct Particle<const D: usize> {
    x: Vec<Real>,
    v: Vec<Real>,
    m: Real,
}

impl<const D: usize> Particle<D> {
    #[verifier::type_invariant]
    spec fn shaped(self) -> bool {
        self.x.len() == D && self.v.len() == D
    }

    /// The position vector.
    pub closed spec fn position(self) -> Seq<Real> {
        self.x@
    }

    /// The velocity vector.
    pub closed spec fn velocity(self) -> Seq<Real> {
        self.v@
    }

    /// The mass.
    pub closed spec fn mass(self) -> Real {
        self.m
    }

    /// A particle at position `r` with velocity `v` and mass `m`.
    pub fn new(r: Vec<Real>, v: Vec<Real>, m: Real) -> (p: Particle<D>)
        requires
            r.len() == D,
            v.len() == D,
        ensures
            p.position() == r@,
            p.velocity() == v@,
            p.mass() == m,
    {
        Particle { x: r, v, m }
    }
}

/// The positions of a list of particles, one row each.
pub open spec fn positions_of<const D: usize>(particles: Seq<Particle<D>>) -> Seq<Seq<Real>> {
    Seq::new(particles.len(), |i: int| particles[i].position())
}

/// The velocities of a list of particles, one row each.
pub open spec fn velocities_of<const D: usize>(particles: Seq<Particle<D>>) -> Seq<Seq<Real>> {
    Seq::new(particles.len(), |i: int| particles[i].velocity())
}

/// The masses of a list of particles.
pub open spec fn masses_of<const D: usize>(particles: Seq<Particle<D>>) -> Seq<Real> {
    Seq::new(particles.len(), |i: int| particles[i].mass())
}

/// A copy of a vector.
fn copy_of(a: &Vec<Real>) -> (r: Vec<Real>)
    ensures
        r@ == a@,
{
    let mut r: Vec<Real> = Vec::new();
    let mut k: usize = 0;
    while k < a.len()
        invariant
            k <= a.len(),
            r@ == a@.take(k as int),
        decreases a.len() - k,
    {
        r.push(a[k]);
        k = k + 1;
        assert(r@ =~= a@.take(k as int));
    }
    assert(a@.take(a.len() as int) =~= a@);
    r
}

/// A fixed collection of particles in `D` dimensions, stored by column:
/// a table of positions, a table of velocities and a list of masses with
/// one entry per particle in one order.
pub struct System<const D: usize> {
    x: Grid,
    v: Grid,
    m: Vec<Real>,
    zoom: Real,
}

impl<const D: usize> View for System<D> {
    type V = State;

    closed spec fn view(&self) -> State {
        State { x: self.x@, v: self.v@, m: self.m@ }
    }
}

impl<const D: usize> System<D> {
    #[verifier::type_invariant]
    spec fn shaped(self) -> bool {
        self@.shaped(D as nat)
    }

    /// The display scale in pixels per metre; it plays no part in the
    /// physics.
    pub closed spec fn display_scale(self) -> Real {
        self.zoom
    }

    /// The system of the given particles, in their order, with display
    /// scale one.
    pub fn from_particles(particles: Vec<Particle<D>>) -> (system: System<D>)
        ensures
            system@.x == positions_of(particles@),
            system@.v == velocities_of(particles@),
            system@.m == masses_of(particles@),
            system.display_scale() == Real::spec_from_int(1),
            system@.shaped(D as nat),
    {
        let mut xs: Vec<Vec<Real>> = Vec::new();
        let mut vs: Vec<Vec<Real>> = Vec::new();
        let mut m: Vec<Real> = Vec::new();
        let mut i: usize = 0;
        while i < particles.len()
            invariant
                i <= particles.len(),
                xs.len() == i,
                vs.len() == i,
                rows_view(xs@) == positions_of(particles@).take(i as int),
                rows_view(vs@) == velocities_of(particles@).take(i as int),
                m@ == masses_of(particles@).take(i as int),
                rectangular(rows_view(xs@), D as nat),
                rectangular(rows_view(vs@), D as nat),
            decreases particles.len() - i,
        {
            let p: &Particle<D> = &particles[i];
            proof {
                use_type_invariant(p);
            }
            let ghost xs_before = xs@;
            let ghost vs_before = vs@;
            xs.push(copy_of(&p.x));
            vs.push(copy_of(&p.v));
            m.push(p.m);
            i = i + 1;
            assert forall|k: int| 0 <= k < i implies #[trigger] rows_view(xs@)[k] == positions_of(
                particles@,
            )[k] by {
                if k < i - 1 {
                    assert(rows_view(xs_before)[k] == positions_of(particles@).take(i - 1)[k]);
                    assert(xs@[k] == xs_before[k]);
                } else {
                    assert(xs@[k]@ == p.x@);
                }
            }
            assert forall|k: int| 0 <= k < i implies #[trigger] rows_view(vs@)[k] == velocities_of(
                particles@,
            )[k] by {
                if k < i - 1 {
                    assert(rows_view(vs_before)[k] == velocities_of(particles@).take(i - 1)[k]);
                    assert(vs@[k] == vs_before[k]);
                } else {
                    assert(vs@[k]@ == p.v@);
                }
            }
            assert(rows_view(xs@) =~= positions_of(particles@).take(i as int));
            assert(rows_view(vs@) =~= velocities_of(particles@).take(i as int));
            assert(m@ =~= masses_of(particles@).take(i as int));
        }
        assert(positions_of(particles@).take(particles.len() as int) =~= positions_of(
            particles@,
        ));
        assert(velocities_of(particles@).take(particles.len() as int) =~= velocities_of(
            particles@,
        ));
        assert(masses_of(particles@).take(particles.len() as int) =~= masses_of(particles@));
        let x: Grid = Grid::from_rows(&xs, D);
        let v: Grid = Grid::from_rows(&vs, D);
        System { x, v, m, zoom: Real::from_int(1) }
    }

    /// The number of particles.
    pub fn len(&self) -> (n: usize)
        ensures
            n == self@.count(),
    {
        self.m.len()
    }

    /// The acceleration that particle `j` gives to particle `i`.
    pub fn pull(&self, i: usize, j: usize) -> (a: Vec<Real>)
        requires
            i < self@.count(),
            j < self@.count(),
        ensures
            a@ == self@.pull(i as int, j as int),
            a.len() == D,
    {
        proof {
            use_type_invariant(self);
        }
        let here: Vec<Real> = self.x.row(i);
        let there: Vec<Real> = self.x.row(j);
        let d: Vec<Real> = vector_difference(&there, &here);
        let r: Real = vector_norm(&d);
        if i == j || r.lt(softening()) {
            zero_vector(D)
        } else {
            let cube: Real = r.mul(r).mul(r);
            let g: Real = gravity();
            let mass: Real = self.m[j];
            let mut a: Vec<Real> = Vec::new();
            let mut k: usize = 0;
            while k < D
                invariant
                    k <= D,
                    d.len() == D,
                    a@ == self@.pull(i as int, j as int).take(k as int),
                    self@.pull(i as int, j as int).len() == D,
                    forall|c: int|
                        0 <= c < D ==> #[trigger] self@.pull(i as int, j as int)[c] == d@[c].spec_mul(
                            g,
                        ).spec_mul(mass).spec_div(cube),
                decreases D - k,
            {
                a.push(d[k].mul(g).mul(mass).div(cube));
                k = k + 1;
                assert(a@ =~= self@.pull(i as int, j as int).take(k as int));
            }
            assert(self@.pull(i as int, j as int).take(D as int) =~= self@.pull(
                i as int,
                j as int,
            ));
            a
        }
    }

    /// The net acceleration of particle `i`: the sum of the pulls of all
    /// particles on it.
    pub fn acceleration_of(&self, i: usize) -> (a: Vec<Real>)
        requires
            i < self@.count(),
        ensures
            a@ == self@.acceleration(i as int),
            a.len() == D,
    {
        proof {
            use_type_invariant(self);
        }
        let n: usize = self.m.len();
        let mut a: Vec<Real> = zero_vector(D);
        let mut j: usize = 0;
        assert(self@.x[i as int].len() == D);
        while j < n
            invariant
                j <= n,
                n == self@.count(),
                i < n,
                self@.x[i as int].len() == D,
                a.len() == D,
                a@ == self@.pulls_before(i as int, j as nat),
            decreases n - j,
        {
            let p: Vec<Real> = self.pull(i, j);
            a = vector_sum(&a, &p);
            j = j + 1;
        }
        a
    }

    /// `rayon`'s parallel `map` and `collect` over the range of particle
    /// indices: the vector whose entry `i` is what `acceleration_of(i)`
    /// returns, in the order of `i`. That the workers hand their results
    /// back in index order is taken from `rayon` without proof; every
    /// worker reads the same unchanging state.
    #[verifier::external_body]
    fn accelerations_in_parallel(&self) -> (rows: Vec<Vec<Real>>)
        ensures
            rows_view(rows@) == self@.accelerations(),
    {
        (0..self.m.len()).into_par_iter().map(|i| self.acceleration_of(i)).collect()
    }

    /// The net gravitational acceleration of every particle, one row each.
    pub fn gravitational_accel(&self) -> (a: Grid)
        ensures
            a@ == self@.accelerations(),
            a@.len() == self@.count(),
            rectangular(a@, D as nat),
    {
        proof {
            use_type_invariant(self);
        }
        let rows: Vec<Vec<Real>> = self.accelerations_in_parallel();
        proof {
            assert forall|i: int| 0 <= i < rows_view(rows@).len() implies (#[trigger] rows_view(
                rows@,
            )[i]).len() == D by {
                lemma_pulls_shape(self@, i, self@.count());
            }
        }
        Grid::from_rows(&rows, D)
    }

    /// Advances the system by one semi-implicit Euler step of size
    /// `time_step`.
    pub fn euler(&mut self, time_step: Real)
        ensures
            final(self)@ == old(self)@.euler(time_step),
            final(self).display_scale() == old(self).display_scale(),
    {
        proof {
            use_type_invariant(&*self);
        }
        let a: Grid = self.gravitational_accel();
        let v: Grid = Grid::advance(&self.v, time_step, &a);
        proof {
            lemma_advanced_shape(self.v@, time_step, a@, D as nat);
            lemma_advanced_shape(self.x@, time_step, v@, D as nat);
        }
        let x: Grid = Grid::advance(&self.x, time_step, &v);
        self.v = v;
        self.x = x;
    }

    /// Advances the system by one classical fourth-order Runge-Kutta step
    /// of size `time_step`.
    pub fn runge_kutta(&mut self, time_step: Real)
        ensures
            final(self)@ == old(self)@.runge_kutta(time_step),
            final(self).display_scale() == old(self).display_scale(),
    {
        proof {
            use_type_invariant(&*self);
        }
        let ghost start = self@;
        let x0: Grid = self.x.duplicate();
        let v0: Grid = self.v.duplicate();
        let dx0: Grid = self.v.duplicate();
        let dv0: Grid = self.gravitational_accel();

        let h1: Real = time_step.mul(half_value());
        proof {
            lemma_advanced_shape(x0@, h1, dx0@, D as nat);
            lemma_advanced_shape(v0@, h1, dv0@, D as nat);
        }
        self.x = Grid::advance(&x0, h1, &dx0);
        assert(self@ == start.moved_to(advanced(start.x, h1, dx0@)));
        let dx1: Grid = Grid::advance(&v0, h1, &dv0);
        let dv1: Grid = self.gravitational_accel();

        let h2: Real = time_step.mul(half_value());
        proof {
            lemma_advanced_shape(x0@, h2, dx1@, D as nat);
            lemma_advanced_shape(v0@, h2, dv1@, D as nat);
        }
        self.x = Grid::advance(&x0, h2, &dx1);
        assert(self@ == start.moved_to(advanced(start.x, h2, dx1@)));
        let dx2: Grid = Grid::advance(&v0, h2, &dv1);
        let dv2: Grid = self.gravitational_accel();

        let h3: Real = time_step.mul(Real::from_int(1));
        proof {
            lemma_advanced_shape(x0@, h3, dx2@, D as nat);
            lemma_advanced_shape(v0@, h3, dv2@, D as nat);
        }
        self.x = Grid::advance(&x0, h3, &dx2);
        assert(self@ == start.moved_to(advanced(start.x, h3, dx2@)));
        let dx3: Grid = Grid::advance(&v0, h3, &dv2);
        let dv3: Grid = self.gravitational_accel();

        let x_delta: Grid = weighted_sum(&dx0, &dx1, &dx2, &dx3, D);
        let v_delta: Grid = weighted_sum(&dv0, &dv1, &dv2, &dv3, D);
        proof {
            lemma_advanced_shape(x0@, time_step, x_delta@, D as nat);
            lemma_advanced_shape(v0@, time_step, v_delta@, D as nat);
        }
        self.x = Grid::advance(&x0, time_step, &x_delta);
        self.v = Grid::advance(&v0, time_step, &v_delta);
    }

    /// Advances the system by `time_step` seconds with the integrator of
    /// choice, the fourth-order Runge-Kutta step.
    pub fn advance(&mut self, time_step: Real)
        ensures
            final(self)@ == old(self)@.runge_kutta(time_step),
            final(self).display_scale() == old(self).display_scale(),
    {
        self.runge_kutta(time_step);
    }

    /// The total mechanical energy: the kinetic energy of every particle
    /// less the binding energy of every unordered pair.
    pub fn total_energy(&self) -> (e: Real)
        ensures
            e == self@.total_energy(),
    {
        proof {
            use_type_invariant(self);
        }
        let n: usize = self.m.len();
        let g: Real = gravity();
        let one_half: Real = half_value();
        let mut e: Real = Real::zero();
        let mut i: usize = 0;
        while i < n
            invariant
                i <= n,
                n == self@.count(),
                self@.shaped(D as nat),
                g == gravitational_constant(),
                one_half == half(),
                e == self@.energy_before(i as nat),
            decreases n - i,
        {
            let m: Real = self.m[i];
            let here: Vec<Real> = self.x.row(i);
            let speed: Vec<Real> = self.v.row(i);
            e = e.add(one_half.mul(m).mul(vector_sum_of_squares(&speed)));
            let ghost base = e;
            let mut j: usize = i + 1;
            while j < n
                invariant
                    i < n,
                    i + 1 <= j <= n,
                    n == self@.count(),
                    self@.shaped(D as nat),
                    g == gravitational_constant(),
                    m == self@.m[i as int],
                    here@ == self@.x[i as int],
                    e == self@.less_bindings(base, i as int, j as int),
                decreases n - j,
            {
                let there: Vec<Real> = self.x.row(j);
                let gap: Vec<Real> = vector_difference(&here, &there);
                e = e.sub(g.mul(m).mul(self.m[j]).div(vector_norm(&gap)));
                j = j + 1;
            }
            i = i + 1;
        }
        e
    }

    /// A copy of the position of particle `i`.
    pub fn position(&self, i: usize) -> (x: Vec<Real>)
        requires
            i < self@.count(),
        ensures
            x@ == self@.x[i as int],
            x.len() == D,
    {
        proof {
            use_type_invariant(self);
        }
        self.x.row(i)
    }

    /// A copy of the velocity of particle `i`.
    pub fn velocity(&self, i: usize) -> (v: Vec<Real>)
        requires
            i < self@.count(),
        ensures
            v@ == self@.v[i as int],
            v.len() == D,
    {
        proof {
            use_type_invariant(self);
        }
        self.v.row(i)
    }

    /// The mass of particle `i`.
    pub fn mass(&self, i: usize) -> (m: Real)
        requires
            i < self@.count(),
        ensures
            m == self@.m[i as int],
    {
        self.m[i]
    }

    /// The display scale in pixels per metre.
    pub fn zoom(&self) -> (z: Real)
        ensures
            z == self.display_scale(),
    {
        self.zoom
    }

    /// Sets the display scale; the physical state stays as it is.
    pub fn set_zoom(&mut self, zoom: Real)
        ensures
            final(self)@ == old(self)@,
            final(self).display_scale() == zoom,
    {
        proof {
            use_type_invariant(&*self);
        }
        self.zoom = zoom;
    }

    /// The system with the given positions, velocities and masses, and
    /// display scale one.
    pub fn new(x: Grid, v: Grid, m: Vec<Real>) -> (system: System<D>)
        requires
            x@.len() == m.len(),
            v@.len() == m.len(),
            rectangular(x@, D as nat),
            rectangular(v@, D as nat),
        ensures
            system@ == (State { x: x@, v: v@, m: m@ }),
            system.display_scale() == Real::spec_from_int(1),
    {
        System { x, v, m, zoom: Real::from_int(1) }
    }
}

/// The weighted sum of the four stage tables of a Runge-Kutta step.
fn weighted_sum(a: &Grid, b: &Grid, c: &Grid, d: &Grid, cols: usize) -> (total: Grid)
    requires
        b@.len() == a@.len(),
        c@.len() == a@.len(),
        d@.len() == a@.len(),
        rectangular(a@, cols as nat),
        rectangular(b@, cols as nat),
        rectangular(c@, cols as nat),
        rectangular(d@, cols as nat),
    ensures
        total@ == weighted(a@, b@, c@, d@),
        total@.len() == a@.len(),
{
    let outer: Real = Real::from_int(1).div(Real::from_int(6));
    let inner: Real = Real::from_int(2).div(Real::from_int(6));
    let zero: Grid = Grid::zeros(a.nrows(), cols);
    assert(zero@ =~= zeros_like(a@));
    proof {
        lemma_advanced_shape(zero@, outer, a@, cols as nat);
    }
    let first: Grid = Grid::advance(&zero, outer, a);
    proof {
        lemma_advanced_shape(first@, inner, b@, cols as nat);
    }
    let second: Grid = Grid::advance(&first, inner, b);
    proof {
        lemma_advanced_shape(second@, inner, c@, cols as nat);
    }
    let third: Grid = Grid::advance(&second, inner, c);
    Grid::advance(&third, outer, d)
}

/// One half.
fn half_value() -> (r: Real)
    ensures
        r == half(),
{
    Real::from_int(1).div(Real::from_int(2))
}

/// A sum of pulls on particle `i` has the dimension of that particle's
/// position.
pub proof fn lemma_pulls_shape(state: State, i: int, n: nat)
    ensures
        state.pulls_before(i, n).len() == state.x[i].len(),
    decreases n,
{
    if n > 0 {
        lemma_pulls_shape(state, i, (n - 1) as nat);
    }
}

/// The relative energy drift between two instants:
/// `(initial - last) / initial`.
pub fn energy_drift(initial: Real, last: Real) -> (drift: Real)
    ensures
        drift == initial.spec_sub(last).spec_div(initial),
{
    initial.sub(last).div(initial)
}

/// The gravitational constant.
fn gravity() -> (g: Real)
    ensures
        g == gravitational_constant(),
{
    Real::from_int(66743).div(Real::from_int(1_000_000_000_000_000))
}

/// The softening length.
fn softening() -> (r: Real)
    ensures
        r == softening_length(),
{
    Real::from_int(1).div(Real::from_int(1000))
}

} // verus!
