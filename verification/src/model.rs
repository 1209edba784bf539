//! The mathematical model of a system of point masses under mutual
//! gravity: its state, the acceleration field, the two integrators and the
//! total energy, all over the rounded arithmetic of `Real`.

use vstd::prelude::*;
use crate::grid::advanced;
use crate::grid::rectangular;
use crate::grid::zeros_like;
use crate::number::Real;
use crate::vector::difference;
use crate::vector::norm;
use crate::vector::sum;
use crate::vector::sum_of_squares;
use crate::vector::zeros;

verus! {

/// The gravitational constant, `66743 / 10^15` in SI units.
pub open spec fn gravitational_constant() -> Real {
    Real::spec_from_int(66743).spec_div(Real::spec_from_int(1_000_000_000_000_000))
}

/// The distance below which two particles exert no pull on each other:
/// one thousandth of a length unit.
pub open spec fn softening_length() -> Real {
    Real::spec_from_int(1).spec_div(Real::spec_from_int(1000))
}

/// One half.
pub open spec fn half() -> Real {
    Real::spec_from_int(1).spec_div(Real::spec_from_int(2))
}

/// The whole number one.
pub open spec fn one() -> Real {
    Real::spec_from_int(1)
}

/// The weight of the first and the last Runge-Kutta stage: one sixth.
pub open spec fn outer_weight() -> Real {
    Real::spec_from_int(1).spec_div(Real::spec_from_int(6))
}

/// The weight of the two middle Runge-Kutta stages: two sixths.
pub open spec fn inner_weight() -> Real {
    Real::spec_from_int(2).spec_div(Real::spec_from_int(6))
}

/// The state of a system at one instant: positions and velocities, one
/// row per particle, and the masses.
pub struct State {
    pub x: Seq<Seq<Real>>,
    pub v: Seq<Seq<Real>>,
    pub m: Seq<Real>,
}

impl State {
    /// The number of particles.
    pub open spec fn count(self) -> nat {
        self.m.len()
    }

    /// Whether the state holds one position and one velocity of dimension
    /// `d` for each mass.
    pub open spec fn shaped(self, d: nat) -> bool {
        &&& self.x.len() == self.m.len()
        &&& self.v.len() == self.m.len()
        &&& rectangular(self.x, d)
        &&& rectangular(self.v, d)
    }

    /// The same state with other positions.
    pub open spec fn moved_to(self, x: Seq<Seq<Real>>) -> State {
        State { x, v: self.v, m: self.m }
    }

    /// The acceleration that particle `j` gives to particle `i`:
    /// `G · m_j · (x_j - x_i) / |x_j - x_i|^3`, and exactly zero where the
    /// two are the same particle or closer than the softening length.
    pub open spec fn pull(self, i: int, j: int) -> Seq<Real> {
        let d = difference(self.x[j], self.x[i]);
        let r = norm(d);
        if i == j || r.spec_lt(softening_length()) {
            zeros(d.len())
        } else {
            let cube = r.spec_mul(r).spec_mul(r);
            Seq::new(
                d.len(),
                |k: int|
                    d[k].spec_mul(gravitational_constant()).spec_mul(self.m[j]).spec_div(cube),
            )
        }
    }

    /// The sum of the pulls on particle `i` from particles `0` to `n - 1`,
    /// added in that order.
    pub open spec fn pulls_before(self, i: int, n: nat) -> Seq<Real>
        decreases n,
    {
        if n == 0 {
            zeros(self.x[i].len())
        } else {
            sum(self.pulls_before(i, (n - 1) as nat), self.pull(i, n - 1))
        }
    }

    /// The net acceleration of particle `i`.
    pub open spec fn acceleration(self, i: int) -> Seq<Real> {
        self.pulls_before(i, self.count())
    }

    /// The net acceleration of every particle.
    pub open spec fn accelerations(self) -> Seq<Seq<Real>> {
        Seq::new(self.count(), |i: int| self.acceleration(i))
    }

    /// One semi-implicit Euler step: the velocities advance by the
    /// accelerations, then the positions advance by the new velocities.
    pub open spec fn euler(self, dt: Real) -> State {
        let v = advanced(self.v, dt, self.accelerations());
        State { x: advanced(self.x, dt, v), v, m: self.m }
    }

    /// One classical fourth-order Runge-Kutta step of the system
    /// `dx/dt = v`, `dv/dt = a(x)`, with stage fractions 0, 1/2, 1/2, 1 and
    /// weights 1/6, 2/6, 2/6, 1/6.
    pub open spec fn runge_kutta(self, dt: Real) -> State {
        let dx0 = self.v;
        let dv0 = self.accelerations();
        let h1 = dt.spec_mul(half());
        let dx1 = advanced(self.v, h1, dv0);
        let dv1 = self.moved_to(advanced(self.x, h1, dx0)).accelerations();
        let h2 = dt.spec_mul(half());
        let dx2 = advanced(self.v, h2, dv1);
        let dv2 = self.moved_to(advanced(self.x, h2, dx1)).accelerations();
        let h3 = dt.spec_mul(one());
        let dx3 = advanced(self.v, h3, dv2);
        let dv3 = self.moved_to(advanced(self.x, h3, dx2)).accelerations();
        State {
            x: advanced(self.x, dt, weighted(dx0, dx1, dx2, dx3)),
            v: advanced(self.v, dt, weighted(dv0, dv1, dv2, dv3)),
            m: self.m,
        }
    }

    /// The state after `n` Euler steps of size `dt`.
    pub open spec fn euler_steps(self, dt: Real, n: nat) -> State
        decreases n,
    {
        if n == 0 {
            self
        } else {
            self.euler_steps(dt, (n - 1) as nat).euler(dt)
        }
    }

    /// The state after `n` Runge-Kutta steps of size `dt`.
    pub open spec fn runge_kutta_steps(self, dt: Real, n: nat) -> State
        decreases n,
    {
        if n == 0 {
            self
        } else {
            self.runge_kutta_steps(dt, (n - 1) as nat).runge_kutta(dt)
        }
    }

    /// The kinetic energy of particle `i`: `1/2 · m_i · |v_i|^2`.
    pub open spec fn kinetic(self, i: int) -> Real {
        half().spec_mul(self.m[i]).spec_mul(sum_of_squares(self.v[i]))
    }

    /// The magnitude of the potential energy of the pair `i`, `j`:
    /// `G · m_i · m_j / |x_i - x_j|`.
    pub open spec fn binding(self, i: int, j: int) -> Real {
        gravitational_constant().spec_mul(self.m[i]).spec_mul(self.m[j]).spec_div(
            norm(difference(self.x[i], self.x[j])),
        )
    }

    /// `e` less the binding energies of the pairs `i`, `j` with
    /// `i < j < n`, subtracted in the order of `j`.
    pub open spec fn less_bindings(self, e: Real, i: int, n: int) -> Real
        decreases n - i,
    {
        if n <= i + 1 {
            e
        } else {
            self.less_bindings(e, i, n - 1).spec_sub(self.binding(i, n - 1))
        }
    }

    /// The energy of the first `k` particles: their kinetic energies less
    /// the binding energy of each pair `i < j` with `i < k`.
    pub open spec fn energy_before(self, k: nat) -> Real
        decreases k,
    {
        if k == 0 {
            Real::spec_zero()
        } else {
            self.less_bindings(
                self.energy_before((k - 1) as nat).spec_add(self.kinetic(k - 1)),
                k - 1,
                self.count() as int,
            )
        }
    }

    /// The total mechanical energy: the kinetic energy of every particle
    /// less the binding energy of every unordered pair.
    pub open spec fn total_energy(self) -> Real {
        self.energy_before(self.count())
    }
}

/// The weighted sum of four stage tables, `1/6 · a + 2/6 · b + 2/6 · c +
/// 1/6 · d`, accumulated from a table of zeros in that order.
pub open spec fn weighted(
    a: Seq<Seq<Real>>,
    b: Seq<Seq<Real>>,
    c: Seq<Seq<Real>>,
    d: Seq<Seq<Real>>,
) -> Seq<Seq<Real>> {
    advanced(
        advanced(
            advanced(advanced(zeros_like(a), outer_weight(), a), inner_weight(), b),
            inner_weight(),
            c,
        ),
        outer_weight(),
        d,
    )
}

} // verus!
