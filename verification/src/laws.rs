//! Laws of the model: what holds of every system, whatever its size and
//! whatever the step.

use vstd::prelude::*;
use crate::algebra::lemma_add_neg;
use crate::algebra::lemma_add_opposite;
use crate::algebra::lemma_div_neg;
use crate::algebra::lemma_mul_neg;
use crate::algebra::lemma_results_wf;
use crate::algebra::lemma_sub_swaps;
use crate::algebra::lemma_zero_laws;
use crate::grid::advanced;
use crate::grid::lemma_advanced_shape;
use crate::grid::zeros_like;
use crate::model::gravitational_constant;
use crate::model::half;
use crate::model::inner_weight;
use crate::model::one;
use crate::model::outer_weight;
use crate::model::softening_length;
use crate::model::weighted;
use crate::model::State;
use crate::number::Real;
use crate::vector::difference;
use crate::vector::negated;
use crate::vector::norm;
use crate::vector::sum;
use crate::vector::sum_of_squares;
use crate::vector::zeros;

verus! {

/// Whether every entry of the vector is in normal form.
pub open spec fn all_wf(a: Seq<Real>) -> bool {
    forall|k: int| 0 <= k < a.len() ==> (#[trigger] a[k]).wf()
}

/// Whether every entry of the table is in normal form.
pub open spec fn table_wf(t: Seq<Seq<Real>>) -> bool {
    forall|i: int| 0 <= i < t.len() ==> all_wf(#[trigger] t[i])
}

/// Two particles closer than the softening length, or one particle and
/// itself, exert exactly no pull on each other.
pub proof fn lemma_near_pair_exerts_nothing(state: State, i: int, j: int)
    requires
        i == j || norm(difference(state.x[j], state.x[i])).spec_lt(softening_length()),
    ensures
        state.pull(i, j) == zeros(state.x[j].len()),
{
}

/// Every component of every pull is a number in normal form: there is no
/// pair of positions for which the pull is not finite.
pub proof fn lemma_pull_wf(state: State, i: int, j: int)
    ensures
        all_wf(state.pull(i, j)),
        state.pull(i, j).len() == state.x[j].len(),
{
    let d = difference(state.x[j], state.x[i]);
    let r = norm(d);
    let cube = r.spec_mul(r).spec_mul(r);
    assert forall|k: int| 0 <= k < state.pull(i, j).len() implies (#[trigger] state.pull(
        i,
        j,
    )[k]).wf() by {
        lemma_results_wf(
            d[k].spec_mul(gravitational_constant()).spec_mul(state.m[j]),
            cube,
        );
    }
}

/// Every component of every acceleration is a number in normal form.
pub proof fn lemma_acceleration_wf(state: State, i: int, n: nat)
    ensures
        all_wf(state.pulls_before(i, n)),
    decreases n,
{
    if n > 0 {
        let before = state.pulls_before(i, (n - 1) as nat);
        let p = state.pull(i, n - 1);
        assert forall|k: int| 0 <= k < sum(before, p).len() implies (#[trigger] sum(
            before,
            p,
        )[k]).wf() by {
            lemma_results_wf(before[k], p[k]);
        }
    }
}

/// In a system of no particle or of one, the acceleration of every
/// particle is exactly zero.
pub proof fn lemma_degenerate_accelerations(state: State, i: int)
    requires
        state.count() <= 1,
        0 <= i < state.count(),
        state.x.len() == state.count(),
    ensures
        state.acceleration(i) == zeros(state.x[i].len()),
        state.accelerations()[i] == zeros(state.x[i].len()),
{
    let d = state.x[0].len();
    assert(state.pulls_before(0, 0) == zeros(d));
    assert(state.pull(0, 0) =~= zeros(d));
    assert(state.pulls_before(0, 1) == sum(zeros(d), zeros(d)));
    assert forall|k: int| 0 <= k < d implies #[trigger] sum(zeros(d), zeros(d))[k]
        == Real::spec_zero() by {
        lemma_zero_laws(Real::spec_zero());
    }
    assert(sum(zeros(d), zeros(d)) =~= zeros(d));
}

/// Advancing a table by a table of zeros leaves it as it is, where its
/// entries are in normal form.
pub proof fn lemma_advanced_by_zeros(base: Seq<Seq<Real>>, h: Real, rate: Seq<Seq<Real>>)
    requires
        table_wf(base),
        rate.len() == base.len(),
        forall|i: int| 0 <= i < base.len() ==> #[trigger] rate[i] == zeros(base[i].len()),
    ensures
        advanced(base, h, rate) == base,
{
    assert forall|i: int| 0 <= i < base.len() implies #[trigger] advanced(base, h, rate)[i]
        == base[i] by {
        assert(all_wf(base[i]));
        assert forall|k: int| 0 <= k < base[i].len() implies #[trigger] advanced(
            base,
            h,
            rate,
        )[i][k] == base[i][k] by {
            assert(rate[i][k] == Real::spec_zero());
            assert(h.spec_mul(Real::spec_zero()) == Real::spec_zero()) by {
                assert(h.significand * 0 == 0) by (nonlinear_arith);
                reveal(Real::rounded);
            }
            assert(base[i][k].wf());
            lemma_zero_laws(base[i][k]);
        }
        assert(advanced(base, h, rate)[i] =~= base[i]);
    }
    assert(advanced(base, h, rate) =~= base);
}

/// A lone particle under the Euler step keeps its velocity exactly and
/// moves by the step times that velocity: a straight line at constant
/// velocity.
pub proof fn lemma_lone_particle_euler(state: State, d: nat, dt: Real)
    requires
        state.shaped(d),
        state.count() == 1,
        table_wf(state.v),
    ensures
        state.euler(dt).v == state.v,
        state.euler(dt).x == advanced(state.x, dt, state.v),
        state.euler(dt).m == state.m,
{
    lemma_lone_accelerations(state, d);
    lemma_advanced_by_zeros(state.v, dt, state.accelerations());
}

/// The accelerations of a lone particle form a table of zeros.
proof fn lemma_lone_accelerations(state: State, d: nat)
    requires
        state.shaped(d),
        state.count() == 1,
    ensures
        state.accelerations().len() == 1,
        forall|i: int| 0 <= i < 1 ==> #[trigger] state.accelerations()[i] == zeros(d),
{
    lemma_degenerate_accelerations(state, 0);
    assert(state.x[0].len() == d);
}

/// A lone particle under the Runge-Kutta step keeps its velocity exactly,
/// and moves by the step times the weighted sum of four copies of that
/// velocity: a straight line at constant velocity.
pub proof fn lemma_lone_particle_runge_kutta(state: State, d: nat, dt: Real)
    requires
        state.shaped(d),
        state.count() == 1,
        table_wf(state.v),
    ensures
        state.runge_kutta(dt).v == state.v,
        state.runge_kutta(dt).x == advanced(
            state.x,
            dt,
            weighted(state.v, state.v, state.v, state.v),
        ),
        state.runge_kutta(dt).m == state.m,
{
    let v = state.v;
    let h1 = dt.spec_mul(half());
    let h3 = dt.spec_mul(one());
    assert(v[0].len() == d);
    let dv0 = state.accelerations();
    lemma_lone_accelerations(state, d);
    lemma_advanced_by_zeros(v, h1, dv0);
    let s1 = state.moved_to(advanced(state.x, h1, v));
    lemma_advanced_shape(state.x, h1, v, d);
    lemma_lone_accelerations(s1, d);
    let dv1 = s1.accelerations();
    lemma_advanced_by_zeros(v, h1, dv1);
    let s2 = state.moved_to(advanced(state.x, h1, v));
    let dv2 = s2.accelerations();
    lemma_advanced_by_zeros(v, h3, dv2);
    let s3 = state.moved_to(advanced(state.x, h3, v));
    lemma_advanced_shape(state.x, h3, v, d);
    lemma_lone_accelerations(s3, d);
    let dv3 = s3.accelerations();
    // The weighted sum of four tables of zeros is a table of zeros.
    let z = zeros_like(dv0);
    assert(z =~= dv0);
    assert(dv1 =~= dv0);
    assert(dv2 =~= dv0);
    assert(dv3 =~= dv0);
    assert(table_wf(dv0)) by {
        assert forall|i: int| 0 <= i < dv0.len() implies all_wf(#[trigger] dv0[i]) by {
            assert(dv0[i] == zeros(d));
        }
    }
    assert forall|i: int| 0 <= i < dv0.len() implies #[trigger] dv0[i] == zeros(
        dv0[i].len(),
    ) by {
        assert(dv0[i] == zeros(d));
    }
    lemma_advanced_by_zeros(dv0, outer_weight(), dv0);
    lemma_advanced_by_zeros(dv0, inner_weight(), dv0);
    assert(weighted(dv0, dv0, dv0, dv0) == dv0);
    lemma_advanced_by_zeros(v, dt, dv0);
}

/// The sum of squares of a vector does not change when the vector is
/// negated.
pub proof fn lemma_sum_of_squares_even(a: Seq<Real>)
    ensures
        sum_of_squares(negated(a)) == sum_of_squares(a),
    decreases a.len(),
{
    if a.len() > 0 {
        lemma_sum_of_squares_even(a.drop_last());
        assert(negated(a).drop_last() =~= negated(a.drop_last()));
        lemma_mul_neg(a.last(), a.last());
    }
}

/// Two particles of equal mass pull on each other with exactly opposite
/// accelerations.
pub proof fn lemma_pull_opposite(state: State, i: int, j: int)
    requires
        state.m[i] == state.m[j],
        state.x[i].len() == state.x[j].len(),
    ensures
        state.pull(j, i) == negated(state.pull(i, j)),
{
    let d = difference(state.x[j], state.x[i]);
    let e = difference(state.x[i], state.x[j]);
    assert(e =~= negated(d)) by {
        assert forall|k: int| 0 <= k < d.len() implies e[k] == #[trigger] d[k].spec_neg() by {
            lemma_sub_swaps(state.x[j][k], state.x[i][k]);
        }
    }
    lemma_sum_of_squares_even(d);
    let r = norm(d);
    let cube = r.spec_mul(r).spec_mul(r);
    let g = gravitational_constant();
    let m = state.m[j];
    if i == j || r.spec_lt(softening_length()) {
        assert(negated(zeros(d.len())) =~= zeros(d.len()));
    } else {
        assert forall|k: int| 0 <= k < d.len() implies #[trigger] state.pull(j, i)[k]
            == state.pull(i, j)[k].spec_neg() by {
            lemma_mul_neg(d[k], g);
            lemma_mul_neg(d[k].spec_mul(g), m);
            lemma_div_neg(d[k].spec_mul(g).spec_mul(m), cube);
        }
        assert(state.pull(j, i) =~= negated(state.pull(i, j)));
    }
}

/// The two pulls of any pair of particles that are neither the same nor
/// closer than the softening length are built from one direction term
/// `(x_j - x_i) · G`, with opposite signs, and one distance term
/// `|x_j - x_i|^3`; they differ only by the sign and by the mass of the
/// particle that pulls.
pub proof fn lemma_pair_pulls_share_kernel(state: State, i: int, j: int, k: int)
    requires
        i != j,
        state.x[i].len() == state.x[j].len(),
        0 <= k < state.x[i].len(),
        !norm(difference(state.x[j], state.x[i])).spec_lt(softening_length()),
    ensures
        ({
            let r = norm(difference(state.x[j], state.x[i]));
            let cube = r.spec_mul(r).spec_mul(r);
            let kernel = state.x[j][k].spec_sub(state.x[i][k]).spec_mul(gravitational_constant());
            &&& state.pull(i, j)[k] == kernel.spec_mul(state.m[j]).spec_div(cube)
            &&& state.pull(j, i)[k] == kernel.spec_neg().spec_mul(state.m[i]).spec_div(cube)
        }),
{
    let d = difference(state.x[j], state.x[i]);
    let e = difference(state.x[i], state.x[j]);
    assert(e =~= negated(d)) by {
        assert forall|c: int| 0 <= c < d.len() implies e[c] == #[trigger] d[c].spec_neg() by {
            lemma_sub_swaps(state.x[j][c], state.x[i][c]);
        }
    }
    lemma_sum_of_squares_even(d);
    lemma_mul_neg(d[k], gravitational_constant());
}

/// Whether a table holds two rows of `d` entries of which the second is
/// the first negated: two vectors placed symmetrically about the origin.
pub open spec fn mirrored(t: Seq<Seq<Real>>, d: nat) -> bool {
    t.len() == 2 && t[0].len() == d && t[1] == negated(t[0])
}

/// Whether the state holds two particles of equal mass in `d` dimensions
/// with opposite positions and opposite velocities.
pub open spec fn balanced(state: State, d: nat) -> bool {
    &&& state.count() == 2
    &&& state.m[0] == state.m[1]
    &&& mirrored(state.x, d)
    &&& mirrored(state.v, d)
}

/// In a system of two particles of equal mass, wherever they are, the
/// two accelerations are exactly opposite: what one particle gains in
/// momentum per unit of time, the other loses.
pub proof fn lemma_equal_pair_accelerations_opposite(state: State, d: nat)
    requires
        state.count() == 2,
        state.m[0] == state.m[1],
        state.x.len() == 2,
        state.x[0].len() == d,
        state.x[1].len() == d,
    ensures
        mirrored(state.accelerations(), d),
{
    let z = zeros(d);
    let p01 = state.pull(0, 1);
    let p10 = state.pull(1, 0);
    lemma_pull_opposite(state, 0, 1);
    lemma_pull_wf(state, 0, 1);
    lemma_pull_wf(state, 1, 0);
    assert(state.pull(0, 0) =~= z);
    assert(state.pull(1, 1) =~= z);
    assert(state.pulls_before(0, 0) == z);
    assert(state.pulls_before(1, 0) =~= z);
    assert(sum(z, z) =~= z) by {
        assert forall|k: int| 0 <= k < d implies #[trigger] sum(z, z)[k] == z[k] by {
            lemma_zero_laws(Real::spec_zero());
        }
    }
    assert(state.pulls_before(0, 1) == sum(z, z));
    assert(state.pulls_before(0, 2) == sum(state.pulls_before(0, 1), p01));
    assert(sum(z, p01) =~= p01) by {
        assert forall|k: int| 0 <= k < d implies #[trigger] sum(z, p01)[k] == p01[k] by {
            assert(p01[k].wf());
            lemma_zero_laws(p01[k]);
        }
    }
    assert(state.pulls_before(1, 1) == sum(z, p10));
    assert(sum(z, p10) =~= p10) by {
        assert forall|k: int| 0 <= k < d implies #[trigger] sum(z, p10)[k] == p10[k] by {
            assert(p10[k].wf());
            lemma_zero_laws(p10[k]);
        }
    }
    assert(state.pulls_before(1, 2) == sum(state.pulls_before(1, 1), z));
    assert(sum(p10, z) =~= p10) by {
        assert forall|k: int| 0 <= k < d implies #[trigger] sum(p10, z)[k] == p10[k] by {
            assert(p10[k].wf());
            lemma_zero_laws(p10[k]);
        }
    }
    assert(state.accelerations()[0] == p01);
    assert(state.accelerations()[1] == p10);
}

/// Advancing a mirrored table by a mirrored table gives a mirrored table.
pub proof fn lemma_advanced_mirrored(
    base: Seq<Seq<Real>>,
    h: Real,
    rate: Seq<Seq<Real>>,
    d: nat,
)
    requires
        mirrored(base, d),
        mirrored(rate, d),
    ensures
        mirrored(advanced(base, h, rate), d),
{
    let next = advanced(base, h, rate);
    assert forall|k: int| 0 <= k < base[0].len() implies #[trigger] next[1][k]
        == next[0][k].spec_neg() by {
        lemma_mul_neg(h, rate[0][k]);
        lemma_add_neg(base[0][k], h.spec_mul(rate[0][k]));
    }
    assert(next[1] =~= negated(next[0]));
}

/// The weighted sum of four mirrored tables is mirrored.
pub proof fn lemma_weighted_mirrored(
    a: Seq<Seq<Real>>,
    b: Seq<Seq<Real>>,
    c: Seq<Seq<Real>>,
    d: Seq<Seq<Real>>,
    width: nat,
)
    requires
        mirrored(a, width),
        mirrored(b, width),
        mirrored(c, width),
        mirrored(d, width),
    ensures
        mirrored(weighted(a, b, c, d), width),
{
    let z = zeros_like(a);
    assert(z[1] =~= negated(z[0]));
    let outer = outer_weight();
    let inner = inner_weight();
    lemma_advanced_mirrored(z, outer, a, width);
    lemma_advanced_mirrored(advanced(z, outer, a), inner, b, width);
    lemma_advanced_mirrored(advanced(advanced(z, outer, a), inner, b), inner, c, width);
    lemma_advanced_mirrored(
        advanced(advanced(advanced(z, outer, a), inner, b), inner, c),
        outer,
        d,
        width,
    );
}

/// Two-body symmetry under the Euler step: two particles of equal mass
/// with opposite positions and opposite velocities have them again after
/// a step of any size.
pub proof fn lemma_balance_kept_by_euler(state: State, d: nat, dt: Real)
    requires
        balanced(state, d),
    ensures
        balanced(state.euler(dt), d),
{
    lemma_equal_pair_accelerations_opposite(state, d);
    lemma_advanced_mirrored(state.v, dt, state.accelerations(), d);
    lemma_advanced_mirrored(state.x, dt, advanced(state.v, dt, state.accelerations()), d);
}

/// Two-body symmetry under the Runge-Kutta step: two particles of equal
/// mass with opposite positions and opposite velocities have them again
/// after a step of any size.
pub proof fn lemma_balance_kept_by_runge_kutta(state: State, d: nat, dt: Real)
    requires
        balanced(state, d),
    ensures
        balanced(state.runge_kutta(dt), d),
{
    let dx0 = state.v;
    let dv0 = state.accelerations();
    lemma_equal_pair_accelerations_opposite(state, d);
    let h1 = dt.spec_mul(half());
    let dx1 = advanced(state.v, h1, dv0);
    lemma_advanced_mirrored(state.v, h1, dv0, d);
    lemma_advanced_mirrored(state.x, h1, dx0, d);
    let s1 = state.moved_to(advanced(state.x, h1, dx0));
    lemma_equal_pair_accelerations_opposite(s1, d);
    let dv1 = s1.accelerations();
    let dx2 = advanced(state.v, h1, dv1);
    lemma_advanced_mirrored(state.v, h1, dv1, d);
    lemma_advanced_mirrored(state.x, h1, dx1, d);
    let s2 = state.moved_to(advanced(state.x, h1, dx1));
    lemma_equal_pair_accelerations_opposite(s2, d);
    let dv2 = s2.accelerations();
    let h3 = dt.spec_mul(one());
    let dx3 = advanced(state.v, h3, dv2);
    lemma_advanced_mirrored(state.v, h3, dv2, d);
    lemma_advanced_mirrored(state.x, h3, dx2, d);
    let s3 = state.moved_to(advanced(state.x, h3, dx2));
    lemma_equal_pair_accelerations_opposite(s3, d);
    let dv3 = s3.accelerations();
    lemma_weighted_mirrored(dx0, dx1, dx2, dx3, d);
    lemma_weighted_mirrored(dv0, dv1, dv2, dv3, d);
    lemma_advanced_mirrored(state.x, dt, weighted(dx0, dx1, dx2, dx3), d);
    lemma_advanced_mirrored(state.v, dt, weighted(dv0, dv1, dv2, dv3), d);
}

/// In a balanced state the positions of the two particles add up to
/// exactly zero, and so do their velocities: the centre of mass rests at
/// the origin.
pub proof fn lemma_balanced_centre_at_rest(state: State, d: nat)
    requires
        balanced(state, d),
    ensures
        sum(state.x[0], state.x[1]) == zeros(d),
        sum(state.v[0], state.v[1]) == zeros(d),
{
    assert forall|k: int| 0 <= k < state.x[0].len() implies #[trigger] sum(
        state.x[0],
        state.x[1],
    )[k] == Real::spec_zero() by {
        lemma_add_opposite(state.x[0][k]);
    }
    assert forall|k: int| 0 <= k < state.v[0].len() implies #[trigger] sum(
        state.v[0],
        state.v[1],
    )[k] == Real::spec_zero() by {
        lemma_add_opposite(state.v[0][k]);
    }
    assert(sum(state.x[0], state.x[1]) =~= zeros(d));
    assert(sum(state.v[0], state.v[1]) =~= zeros(d));
}

/// In a system of two particles of equal mass, the momenta that the two
/// gain in one velocity update of size `dt` add up to exactly zero,
/// component by component.
pub proof fn lemma_equal_pair_impulses_cancel(state: State, d: nat, dt: Real, k: int)
    requires
        state.count() == 2,
        state.m[0] == state.m[1],
        state.x.len() == 2,
        state.x[0].len() == d,
        state.x[1].len() == d,
        0 <= k < d,
    ensures
        state.m[0].spec_mul(dt.spec_mul(state.accelerations()[0][k])).spec_add(
            state.m[1].spec_mul(dt.spec_mul(state.accelerations()[1][k])),
        ) == Real::spec_zero(),
{
    lemma_equal_pair_accelerations_opposite(state, d);
    let a = state.accelerations()[0][k];
    assert(state.accelerations()[1][k] == a.spec_neg());
    lemma_mul_neg(dt, a);
    lemma_mul_neg(state.m[0], dt.spec_mul(a));
    lemma_add_opposite(state.m[0].spec_mul(dt.spec_mul(a)));
}

/// Momentum of a balanced pair: the momenta `m · v` of the two particles
/// are exactly opposite, component by component, so that the total
/// momentum is exactly zero.
pub proof fn lemma_balanced_momentum_zero(state: State, d: nat, k: int)
    requires
        balanced(state, d),
        0 <= k < d,
    ensures
        state.m[0].spec_mul(state.v[0][k]).spec_add(state.m[1].spec_mul(state.v[1][k]))
            == Real::spec_zero(),
{
    lemma_mul_neg(state.m[0], state.v[0][k]);
    lemma_add_opposite(state.m[0].spec_mul(state.v[0][k]));
}

/// Two-body symmetry for every number of steps: a balanced pair stays
/// balanced, and its centre of mass at the origin, after any number of
/// Euler steps and after any number of Runge-Kutta steps of any size.
pub proof fn lemma_balance_kept_for_all_steps(state: State, d: nat, dt: Real, n: nat)
    requires
        balanced(state, d),
    ensures
        balanced(state.euler_steps(dt, n), d),
        balanced(state.runge_kutta_steps(dt, n), d),
        sum(state.euler_steps(dt, n).x[0], state.euler_steps(dt, n).x[1]) == zeros(d),
        sum(state.runge_kutta_steps(dt, n).x[0], state.runge_kutta_steps(dt, n).x[1]) == zeros(d),
    decreases n,
{
    if n > 0 {
        lemma_balance_kept_for_all_steps(state, d, dt, (n - 1) as nat);
        lemma_balance_kept_by_euler(state.euler_steps(dt, (n - 1) as nat), d, dt);
        lemma_balance_kept_by_runge_kutta(state.runge_kutta_steps(dt, (n - 1) as nat), d, dt);
    }
    lemma_balanced_centre_at_rest(state.euler_steps(dt, n), d);
    lemma_balanced_centre_at_rest(state.runge_kutta_steps(dt, n), d);
}

/// A lone particle keeps its velocity exactly for every number of steps
/// of either integrator.
pub proof fn lemma_lone_particle_keeps_velocity(state: State, d: nat, dt: Real, n: nat)
    requires
        state.shaped(d),
        state.count() == 1,
        table_wf(state.v),
    ensures
        state.euler_steps(dt, n).v == state.v,
        state.runge_kutta_steps(dt, n).v == state.v,
        state.euler_steps(dt, n).shaped(d),
        state.runge_kutta_steps(dt, n).shaped(d),
        state.euler_steps(dt, n).m == state.m,
        state.runge_kutta_steps(dt, n).m == state.m,
    decreases n,
{
    if n > 0 {
        lemma_lone_particle_keeps_velocity(state, d, dt, (n - 1) as nat);
        let e = state.euler_steps(dt, (n - 1) as nat);
        let r = state.runge_kutta_steps(dt, (n - 1) as nat);
        lemma_lone_particle_euler(e, d, dt);
        lemma_lone_particle_runge_kutta(r, d, dt);
        lemma_advanced_shape(e.x, dt, e.v, d);
        lemma_advanced_shape(r.x, dt, weighted(r.v, r.v, r.v, r.v), d);
    }
}

} // verus!
