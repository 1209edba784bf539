use nbody::number::Real;
use nbody::sim::energy_drift;
use nbody::sim::Particle;
use nbody::sim::System;

fn num(x: f64) -> Real {
    Real::from_bits(x.to_bits())
}

fn float(r: Real) -> f64 {
    f64::from_bits(r.to_bits())
}

fn nums(xs: &[f64]) -> Vec<Real> {
    xs.iter().map(|x| num(*x)).collect()
}

fn floats(rs: &[Real]) -> Vec<f64> {
    rs.iter().map(|r| float(*r)).collect()
}

fn balanced_pair() -> System<2> {
    System::<2>::from_particles(vec![
        Particle::new(nums(&[-50.0, 7.0]), nums(&[0.01, -0.05]), num(1.0e10)),
        Particle::new(nums(&[50.0, -7.0]), nums(&[-0.01, 0.05]), num(1.0e10)),
    ])
}

fn unequal_pair() -> System<2> {
    System::<2>::from_particles(vec![
        Particle::new(nums(&[-60.0, 0.0]), nums(&[0.0, -0.06]), num(1.0e10)),
        Particle::new(nums(&[20.0, 0.0]), nums(&[0.0, 0.02]), num(3.0e10)),
    ])
}

fn three_bodies() -> System<3> {
    System::<3>::from_particles(vec![
        Particle::new(nums(&[0.0, 0.0, 0.0]), nums(&[0.0, 0.01, 0.0]), num(5.0e10)),
        Particle::new(nums(&[80.0, 0.0, 10.0]), nums(&[0.0, 0.15, 0.02]), num(1.0e9)),
        Particle::new(nums(&[-40.0, 60.0, -5.0]), nums(&[-0.1, -0.05, 0.0]), num(3.0e9)),
    ])
}

fn momentum(system: &System<3>) -> Vec<f64> {
    let mut p = vec![0.0; 3];
    for i in 0..system.len() {
        let v = floats(&system.velocity(i));
        let m = float(system.mass(i));
        for k in 0..3 {
            p[k] += m * v[k];
        }
    }
    p
}

fn drift_after(steps: usize, runge_kutta: bool) -> f64 {
    let mut system = unequal_pair();
    let initial = system.total_energy();
    let h = num(400.0 / steps as f64);
    for _ in 0..steps {
        if runge_kutta {
            system.runge_kutta(h);
        } else {
            system.euler(h);
        }
    }
    float(energy_drift(initial, system.total_energy()))
}

#[test]
fn two_body_symmetry_under_euler() {
    let mut system = balanced_pair();
    for step in 0..200 {
        system.euler(num(0.5 + step as f64 * 0.25));
        let a = system.position(0);
        let b = system.position(1);
        let va = system.velocity(0);
        let vb = system.velocity(1);
        for k in 0..2 {
            assert_eq!(b[k], a[k].neg());
            assert_eq!(vb[k], va[k].neg());
            assert_eq!(a[k].add(b[k]), Real::zero());
        }
    }
    // The particles did move.
    assert!(float(system.position(0)[0]) != -50.0);
}

#[test]
fn two_body_symmetry_under_runge_kutta() {
    let mut system = balanced_pair();
    for step in 0..200 {
        system.runge_kutta(num(0.5 + step as f64 * 0.25));
        let a = system.position(0);
        let b = system.position(1);
        let va = system.velocity(0);
        let vb = system.velocity(1);
        for k in 0..2 {
            assert_eq!(b[k], a[k].neg());
            assert_eq!(vb[k], va[k].neg());
            assert_eq!(a[k].add(b[k]), Real::zero());
        }
    }
    assert!(float(system.position(0)[0]) != -50.0);
}

#[test]
fn equal_masses_pull_each_other_oppositely() {
    let system = System::<3>::from_particles(vec![
        Particle::new(nums(&[1.0, 2.0, 3.0]), nums(&[0.0, 0.0, 0.0]), num(2.0e10)),
        Particle::new(nums(&[-4.0, 0.5, 9.0]), nums(&[0.0, 0.0, 0.0]), num(2.0e10)),
    ]);
    let forth = system.pull(0, 1);
    let back = system.pull(1, 0);
    for k in 0..3 {
        assert_eq!(back[k], forth[k].neg());
        assert!(float(forth[k]) != 0.0);
    }
}

#[test]
fn momentum_is_conserved_by_euler() {
    let mut system = three_bodies();
    let before = momentum(&system);
    for _ in 0..100 {
        system.euler(num(5.0));
    }
    let after = momentum(&system);
    for k in 0..3 {
        assert!((after[k] - before[k]).abs() <= 1.0e-12 * 5.0e10, "{:?} {:?}", before, after);
    }
    assert!(floats(&system.velocity(1)) != vec![0.0, 0.15, 0.02]);
}

#[test]
fn momentum_is_conserved_by_runge_kutta() {
    let mut system = three_bodies();
    let before = momentum(&system);
    for _ in 0..100 {
        system.runge_kutta(num(5.0));
    }
    let after = momentum(&system);
    for k in 0..3 {
        assert!((after[k] - before[k]).abs() <= 1.0e-12 * 5.0e10, "{:?} {:?}", before, after);
    }
    assert!(floats(&system.velocity(1)) != vec![0.0, 0.15, 0.02]);
}

#[test]
fn runge_kutta_energy_drift_shrinks_with_the_fourth_power() {
    let coarse = drift_after(16, true).abs();
    let fine = drift_after(32, true).abs();
    assert!(coarse > 1.0e-7 && coarse < 1.0e-4, "{}", coarse);
    let ratio = coarse / fine;
    assert!(ratio > 10.0 && ratio < 24.0, "{}", ratio);
}

#[test]
fn euler_energy_drift_shrinks_with_the_first_power() {
    let coarse = drift_after(16, false).abs();
    let fine = drift_after(32, false).abs();
    assert!(coarse > 1.0e-3 && coarse < 0.5, "{}", coarse);
    let ratio = coarse / fine;
    assert!(ratio > 1.6 && ratio < 2.6, "{}", ratio);
}

#[test]
fn runge_kutta_is_more_accurate_than_euler() {
    assert!(drift_after(32, true).abs() < 1.0e-3 * drift_after(32, false).abs());
}

#[test]
fn near_coincident_particles_do_not_pull() {
    let system = System::<3>::from_particles(vec![
        Particle::new(nums(&[1.0, 2.0, 3.0]), nums(&[0.0, 0.0, 0.0]), num(1.0e30)),
        Particle::new(nums(&[1.0, 2.0, 3.0005]), nums(&[0.0, 0.0, 0.0]), num(1.0e30)),
    ]);
    assert_eq!(system.pull(0, 1), vec![Real::zero(); 3]);
    assert_eq!(system.pull(1, 0), vec![Real::zero(); 3]);
    assert_eq!(system.acceleration_of(0), vec![Real::zero(); 3]);
    assert_eq!(system.acceleration_of(1), vec![Real::zero(); 3]);
}

#[test]
fn coincident_particles_do_not_pull() {
    let mut system = System::<2>::from_particles(vec![
        Particle::new(nums(&[5.0, 5.0]), nums(&[1.0, 0.0]), num(1.0e30)),
        Particle::new(nums(&[5.0, 5.0]), nums(&[1.0, 0.0]), num(1.0e30)),
    ]);
    assert_eq!(system.acceleration_of(0), vec![Real::zero(); 2]);
    system.runge_kutta(num(1.0));
    assert_eq!(floats(&system.velocity(0)), vec![1.0, 0.0]);
    assert_eq!(floats(&system.velocity(1)), vec![1.0, 0.0]);
}

#[test]
fn particles_just_beyond_the_softening_length_do_pull() {
    let system = System::<1>::from_particles(vec![
        Particle::new(nums(&[0.0]), nums(&[0.0]), num(1.0)),
        Particle::new(nums(&[0.002]), nums(&[0.0]), num(1.0)),
    ]);
    let a = float(system.pull(0, 1)[0]);
    assert!((a - 6.6743e-11 / 4.0e-6).abs() <= 1.0e-14 * a.abs());
}

#[test]
fn extreme_inputs_give_finite_accelerations() {
    let system = System::<1>::from_particles(vec![
        Particle::new(nums(&[0.0]), nums(&[0.0]), num(1.0e300)),
        Particle::new(nums(&[0.0011]), nums(&[0.0]), num(1.0e300)),
        Particle::new(nums(&[1.0e200]), nums(&[0.0]), num(1.0e300)),
    ]);
    for i in 0..3 {
        let a = float(system.acceleration_of(i)[0]);
        assert!(a.is_finite());
    }
}

#[test]
fn empty_system_advances_without_effect() {
    let mut system = System::<3>::from_particles(Vec::new());
    system.euler(num(1.0));
    system.runge_kutta(num(1.0));
    assert_eq!(system.len(), 0);
    assert!(system.gravitational_accel().has_shape(0, 3));
}

#[test]
fn lone_particle_has_no_acceleration() {
    let system = System::<3>::from_particles(vec![Particle::new(
        nums(&[1.0, -2.0, 3.0]),
        nums(&[0.5, 0.25, -1.0]),
        num(1.0e30),
    )]);
    assert_eq!(system.acceleration_of(0), vec![Real::zero(); 3]);
    assert_eq!(system.gravitational_accel().row(0), vec![Real::zero(); 3]);
}

#[test]
fn lone_particle_moves_in_a_straight_line_under_euler() {
    let mut system = System::<3>::from_particles(vec![Particle::new(
        nums(&[1.0, -2.0, 3.0]),
        nums(&[0.5, 0.25, -1.0]),
        num(1.0e30),
    )]);
    for step in 1..=100 {
        system.euler(num(2.0));
        assert_eq!(floats(&system.velocity(0)), vec![0.5, 0.25, -1.0]);
        let t = 2.0 * step as f64;
        assert_eq!(floats(&system.position(0)), vec![1.0 + 0.5 * t, -2.0 + 0.25 * t, 3.0 - t]);
    }
}

#[test]
fn lone_particle_moves_in_a_straight_line_under_runge_kutta() {
    let mut system = System::<3>::from_particles(vec![Particle::new(
        nums(&[1.0, -2.0, 3.0]),
        nums(&[0.5, 0.25, -1.0]),
        num(1.0e30),
    )]);
    for step in 1..=100 {
        system.runge_kutta(num(2.0));
        assert_eq!(floats(&system.velocity(0)), vec![0.5, 0.25, -1.0]);
        let t = 2.0 * step as f64;
        let x = floats(&system.position(0));
        for (got, want) in x.iter().zip([1.0 + 0.5 * t, -2.0 + 0.25 * t, 3.0 - t]) {
            assert!((got - want).abs() <= 1.0e-13 * (1.0 + want.abs()), "{} {}", got, want);
        }
    }
}

#[test]
fn runge_kutta_round_trip_returns_close_to_the_start() {
    let mut system = unequal_pair();
    for _ in 0..50 {
        system.runge_kutta(num(10.0));
    }
    // The system did move away.
    assert!((float(system.position(0)[0]) + 60.0).abs() > 1.0);
    for _ in 0..50 {
        system.runge_kutta(num(-10.0));
    }
    let x0 = floats(&system.position(0));
    let x1 = floats(&system.position(1));
    let v0 = floats(&system.velocity(0));
    let v1 = floats(&system.velocity(1));
    assert!((x0[0] + 60.0).abs() < 1.0e-3 && x0[1].abs() < 1.0e-3, "{:?}", x0);
    assert!((x1[0] - 20.0).abs() < 1.0e-3 && x1[1].abs() < 1.0e-3, "{:?}", x1);
    assert!(v0[0].abs() < 1.0e-5 && (v0[1] + 0.06).abs() < 1.0e-5, "{:?}", v0);
    assert!(v1[0].abs() < 1.0e-5 && (v1[1] - 0.02).abs() < 1.0e-5, "{:?}", v1);
}
