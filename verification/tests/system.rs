use nbody::grid::Grid;
use nbody::number::Real;
use nbody::sim::energy_drift;
use nbody::sim::Particle;
use nbody::sim::System;

fn num(x: f64) -> Real {
    Real::from_bits(x.to_bits())
}

fn float(r: Real) -> f64 {
    f64::from_bits(r.to_bits())
}

fn nums(xs: &[f64]) -> Vec<Real> {
    xs.iter().map(|x| num(*x)).collect()
}

fn floats(rs: &[Real]) -> Vec<f64> {
    rs.iter().map(|r| float(*r)).collect()
}

fn pair_on_a_line() -> System<1> {
    System::<1>::from_particles(vec![
        Particle::new(nums(&[200.0]), nums(&[0.0]), num(1.0e10)),
        Particle::new(nums(&[300.0]), nums(&[0.0]), num(1.0e10)),
    ])
}

fn close(a: f64, b: f64, relative: f64) -> bool {
    (a - b).abs() <= relative * b.abs()
}

#[test]
fn from_particles_keeps_order_and_values() {
    let system = System::<2>::from_particles(vec![
        Particle::new(nums(&[1.0, 2.0]), nums(&[3.0, 4.0]), num(5.0)),
        Particle::new(nums(&[-1.0, -2.0]), nums(&[-3.0, -4.0]), num(6.0)),
        Particle::new(nums(&[0.5, 0.25]), nums(&[0.0, 0.0]), num(7.0)),
    ]);
    assert_eq!(system.len(), 3);
    assert_eq!(floats(&system.position(0)), vec![1.0, 2.0]);
    assert_eq!(floats(&system.position(1)), vec![-1.0, -2.0]);
    assert_eq!(floats(&system.position(2)), vec![0.5, 0.25]);
    assert_eq!(floats(&system.velocity(0)), vec![3.0, 4.0]);
    assert_eq!(floats(&system.velocity(1)), vec![-3.0, -4.0]);
    assert_eq!(floats(&system.velocity(2)), vec![0.0, 0.0]);
    assert_eq!(float(system.mass(0)), 5.0);
    assert_eq!(float(system.mass(1)), 6.0);
    assert_eq!(float(system.mass(2)), 7.0);
    assert_eq!(float(system.zoom()), 1.0);
}

#[test]
fn new_takes_tables_and_masses() {
    let x = Grid::of_rows(&vec![nums(&[1.0, 2.0, 3.0]), nums(&[4.0, 5.0, 6.0])], 3).unwrap();
    let v = Grid::of_rows(&vec![nums(&[0.0, 0.0, 1.0]), nums(&[0.0, -1.0, 0.0])], 3).unwrap();
    assert!(x.has_shape(2, 3));
    assert!(v.has_shape(2, 3));
    let system = System::<3>::new(x, v, nums(&[10.0, 20.0]));
    assert_eq!(system.len(), 2);
    assert_eq!(floats(&system.position(1)), vec![4.0, 5.0, 6.0]);
    assert_eq!(floats(&system.velocity(0)), vec![0.0, 0.0, 1.0]);
    assert_eq!(float(system.mass(1)), 20.0);
    assert_eq!(float(system.zoom()), 1.0);
}

#[test]
fn grid_of_rows_refuses_ragged_rows() {
    assert!(Grid::of_rows(&vec![nums(&[1.0, 2.0]), nums(&[3.0])], 2).is_none());
    assert!(Grid::of_rows(&vec![nums(&[1.0, 2.0])], 3).is_none());
    assert!(Grid::of_rows(&Vec::new(), 3).is_some());
}

#[test]
fn grid_tells_its_shape() {
    let g = Grid::of_rows(&vec![nums(&[1.0, 2.0]), nums(&[3.0, 4.0]), nums(&[5.0, 6.0])], 2)
        .unwrap();
    assert!(g.has_shape(3, 2));
    assert!(!g.has_shape(2, 3));
    assert!(!g.has_shape(3, 3));
    assert!(!g.has_shape(2, 2));
    assert_eq!(floats(&g.row(0)), vec![1.0, 2.0]);
    assert_eq!(floats(&g.row(2)), vec![5.0, 6.0]);
    let z = Grid::zeros(2, 4);
    assert!(z.has_shape(2, 4));
    assert_eq!(floats(&z.row(1)), vec![0.0, 0.0, 0.0, 0.0]);
    assert!(Grid::zeros(0, 4).has_shape(0, 9));
}

#[test]
fn grid_advance_adds_the_scaled_rate() {
    let base = Grid::of_rows(&vec![nums(&[1.0, 2.0]), nums(&[3.0, 4.0])], 2).unwrap();
    let rate = Grid::of_rows(&vec![nums(&[10.0, 20.0]), nums(&[-30.0, 40.0])], 2).unwrap();
    let next = Grid::advance(&base, num(0.5), &rate);
    assert_eq!(floats(&next.row(0)), vec![6.0, 12.0]);
    assert_eq!(floats(&next.row(1)), vec![-12.0, 24.0]);
    // The operands are left as they were.
    assert_eq!(floats(&base.row(0)), vec![1.0, 2.0]);
    assert_eq!(floats(&rate.row(1)), vec![-30.0, 40.0]);
}

#[test]
fn zoom_can_be_set_without_touching_the_physics() {
    let mut system = pair_on_a_line();
    system.set_zoom(num(2.5));
    assert_eq!(float(system.zoom()), 2.5);
    assert_eq!(floats(&system.position(1)), vec![300.0]);
    system.euler(num(0.1));
    assert_eq!(float(system.zoom()), 2.5);
}

#[test]
fn pull_between_two_masses_on_a_line() {
    let system = pair_on_a_line();
    // G * 1e10 / 100^2, towards the other particle.
    let on_first = system.pull(0, 1);
    let on_second = system.pull(1, 0);
    assert_eq!(float(on_first[0]), 6.6743e-5);
    assert_eq!(float(on_second[0]), -6.6743e-5);
    assert_eq!(on_first[0].to_bits(), 0x3f117f0c024a65b2);
    assert_eq!(on_second[0], on_first[0].neg());
    assert_eq!(floats(&system.pull(0, 0)), vec![0.0]);
    assert_eq!(floats(&system.pull(1, 1)), vec![0.0]);
}

#[test]
fn accelerations_of_all_particles_come_in_index_order() {
    let system = System::<2>::from_particles(vec![
        Particle::new(nums(&[0.0, 0.0]), nums(&[0.0, 0.0]), num(1.0e10)),
        Particle::new(nums(&[100.0, 0.0]), nums(&[0.0, 0.0]), num(2.0e10)),
        Particle::new(nums(&[0.0, 50.0]), nums(&[0.0, 0.0]), num(4.0e10)),
    ]);
    let all = system.gravitational_accel();
    assert!(all.has_shape(3, 2));
    for i in 0..3 {
        assert_eq!(all.row(i), system.acceleration_of(i));
    }
    // Particle 0 is pulled along +x by particle 1 and along +y by particle 2.
    let a0 = floats(&all.row(0));
    assert!(close(a0[0], 6.6743e-11 * 2.0e10 / 1.0e4, 1.0e-14));
    assert!(close(a0[1], 6.6743e-11 * 4.0e10 / 2.5e3, 1.0e-14));
    // Particle 1 is pulled along -x by both others.
    let a1 = floats(&all.row(1));
    assert!(a1[0] < 0.0);
    assert!(a1[1] > 0.0);
    let r = (100.0f64 * 100.0 + 50.0 * 50.0).sqrt();
    let expected = -6.6743e-11 * 1.0e10 / 1.0e4 - 6.6743e-11 * 4.0e10 * 100.0 / (r * r * r);
    assert!(close(a1[0], expected, 1.0e-14));
}

#[test]
fn euler_step_of_two_masses_at_rest() {
    let mut system = pair_on_a_line();
    let a = system.gravitational_accel();
    let a0 = a.row(0)[0];
    let a1 = a.row(1)[0];
    assert_eq!(float(a0), 6.6743e-5);
    assert_eq!(float(a1), -6.6743e-5);
    let dt = num(0.1);
    system.euler(dt);
    // The velocity is the acceleration times the step.
    assert_eq!(system.velocity(0)[0], dt.mul(a0));
    assert_eq!(system.velocity(1)[0], dt.mul(a1));
    assert_eq!(float(system.velocity(0)[0]), 6.6743e-5 * 0.1);
    assert_eq!(float(system.velocity(1)[0]), -6.6743e-5 * 0.1);
    assert_eq!(system.velocity(0)[0].to_bits(), 0x3edbfe799d43d5ea);
    assert!(close(float(system.velocity(0)[0]), 6.6743e-6, 1.0e-15));
    // The position moves by the new velocity.
    assert_eq!(float(system.position(0)[0]), 200.0 + 0.1 * (6.6743e-5 * 0.1));
    assert_eq!(float(system.position(1)[0]), 300.0 - 0.1 * (6.6743e-5 * 0.1));
    assert_eq!(system.position(0)[0].to_bits(), 0x40690000016652e1);
}

#[test]
fn euler_uses_the_updated_velocity_for_the_position() {
    let mut system = System::<1>::from_particles(vec![
        Particle::new(nums(&[0.0]), nums(&[1.0]), num(1.0)),
        Particle::new(nums(&[1.0e6]), nums(&[0.0]), num(1.0e22)),
    ]);
    let a0 = float(system.acceleration_of(0)[0]);
    system.euler(num(2.0));
    let v0 = float(system.velocity(0)[0]);
    assert!(close(v0, 1.0 + 2.0 * a0, 1.0e-15));
    assert!(close(float(system.position(0)[0]), 2.0 * v0, 1.0e-15));
}

#[test]
fn total_energy_of_two_masses_at_rest() {
    let system = pair_on_a_line();
    let e = system.total_energy();
    // -G m^2 / r
    assert_eq!(float(e), -6.6743e7);
}

#[test]
fn total_energy_counts_each_pair_once() {
    let system = System::<2>::from_particles(vec![
        Particle::new(nums(&[0.0, 0.0]), nums(&[3.0, 4.0]), num(2.0e10)),
        Particle::new(nums(&[30.0, 40.0]), nums(&[0.0, -2.0]), num(1.0e10)),
        Particle::new(nums(&[-60.0, 80.0]), nums(&[1.0, 0.0]), num(4.0e10)),
    ]);
    let g = 6.6743e-11;
    let kinetic = 0.5 * 2.0e10 * 25.0 + 0.5 * 1.0e10 * 4.0 + 0.5 * 4.0e10 * 1.0;
    let r12 = (90.0f64 * 90.0 + 40.0 * 40.0).sqrt();
    let potential =
        g * 2.0e10 * 1.0e10 / 50.0 + g * 2.0e10 * 4.0e10 / 100.0 + g * 1.0e10 * 4.0e10 / r12;
    assert!(close(float(system.total_energy()), kinetic - potential, 1.0e-14));
}

#[test]
fn total_energy_of_an_empty_system_is_zero() {
    let system = System::<3>::from_particles(Vec::new());
    assert_eq!(system.total_energy(), Real::zero());
    assert_eq!(system.len(), 0);
}

#[test]
fn energy_drift_is_relative_to_the_initial_energy() {
    assert_eq!(float(energy_drift(num(-200.0), num(-150.0))), 0.25);
    assert_eq!(float(energy_drift(num(8.0), num(10.0))), -0.25);
    assert_eq!(float(energy_drift(num(8.0), num(8.0))), 0.0);
}

#[test]
fn runge_kutta_step_of_a_free_pair_matches_the_formula() {
    // Far apart and light: the pull is below the last bit of the velocity,
    // so the step is the weighted sum of four equal stage velocities.
    let mut system = System::<1>::from_particles(vec![
        Particle::new(nums(&[0.0]), nums(&[2.0]), num(1.0e-10)),
        Particle::new(nums(&[1.0e12]), nums(&[-2.0]), num(1.0e-10)),
    ]);
    system.runge_kutta(num(3.0));
    assert_eq!(float(system.velocity(0)[0]), 2.0);
    assert_eq!(float(system.velocity(1)[0]), -2.0);
    assert!(close(float(system.position(0)[0]), 6.0, 1.0e-15));
    assert!(close(float(system.position(1)[0]), 1.0e12 - 6.0, 1.0e-15));
}

#[test]
fn runge_kutta_step_follows_free_fall_to_fourth_order() {
    // A light particle falling towards a heavy one from rest: over a short
    // step the fall is a * t^2 / 2 to within the change of the pull.
    let mut system = System::<1>::from_particles(vec![
        Particle::new(nums(&[0.0]), nums(&[0.0]), num(1.0)),
        Particle::new(nums(&[1.0e7]), nums(&[0.0]), num(6.0e24)),
    ]);
    let a = float(system.acceleration_of(0)[0]);
    assert!(close(a, 6.6743e-11 * 6.0e24 / 1.0e14, 1.0e-14));
    system.runge_kutta(num(1.0));
    assert!(close(float(system.position(0)[0]), 0.5 * a, 1.0e-6));
    assert!(close(float(system.velocity(0)[0]), a, 1.0e-6));
}

#[test]
fn advance_takes_a_runge_kutta_step() {
    let mut stepped = pair_on_a_line();
    let mut advanced = pair_on_a_line();
    for _ in 0..10 {
        stepped.runge_kutta(num(2.5));
        advanced.advance(num(2.5));
    }
    for i in 0..2 {
        assert_eq!(advanced.position(i), stepped.position(i));
        assert_eq!(advanced.velocity(i), stepped.velocity(i));
    }
    assert!(float(advanced.position(0)[0]) > 200.0);
}
