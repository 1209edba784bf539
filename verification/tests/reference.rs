// The library against the same formulas written with hardware floats, in
// the same order of operations: the two agree bit for bit as long as no
// intermediate result leaves the range of normal doubles.

use nbody::number::Real;
use nbody::sim::Particle;
use nbody::sim::System;

const G: f64 = 66743.0 / 1.0e15;
const SOFTENING: f64 = 1.0 / 1000.0;

type Table = Vec<Vec<f64>>;

fn accelerations(x: &Table, m: &[f64]) -> Table {
    let n = x.len();
    let mut all = Vec::new();
    for i in 0..n {
        let mut a = vec![0.0; x[i].len()];
        for j in 0..n {
            let d: Vec<f64> = (0..x[i].len()).map(|k| x[j][k] - x[i][k]).collect();
            let mut squares = 0.0;
            for c in &d {
                squares = squares + c * c;
            }
            let r = squares.sqrt();
            for k in 0..d.len() {
                let pull = if i == j || r < SOFTENING {
                    0.0
                } else {
                    d[k] * G * m[j] / (r * r * r)
                };
                a[k] = a[k] + pull;
            }
        }
        all.push(a);
    }
    all
}

fn advanced(base: &Table, h: f64, rate: &Table) -> Table {
    base.iter()
        .zip(rate)
        .map(|(b, r)| b.iter().zip(r).map(|(b, r)| b + h * r).collect())
        .collect()
}

fn weighted(a: &Table, b: &Table, c: &Table, d: &Table) -> Table {
    let zero: Table = a.iter().map(|row| vec![0.0; row.len()]).collect();
    let outer = 1.0 / 6.0;
    let inner = 2.0 / 6.0;
    advanced(&advanced(&advanced(&advanced(&zero, outer, a), inner, b), inner, c), outer, d)
}

struct Reference {
    x: Table,
    v: Table,
    m: Vec<f64>,
}

impl Reference {
    fn euler(&mut self, dt: f64) {
        let a = accelerations(&self.x, &self.m);
        self.v = advanced(&self.v, dt, &a);
        self.x = advanced(&self.x, dt, &self.v);
    }

    fn runge_kutta(&mut self, dt: f64) {
        let dx0 = self.v.clone();
        let dv0 = accelerations(&self.x, &self.m);
        let h1 = dt * 0.5;
        let dx1 = advanced(&self.v, h1, &dv0);
        let dv1 = accelerations(&advanced(&self.x, h1, &dx0), &self.m);
        let dx2 = advanced(&self.v, h1, &dv1);
        let dv2 = accelerations(&advanced(&self.x, h1, &dx1), &self.m);
        let h3 = dt * 1.0;
        let dx3 = advanced(&self.v, h3, &dv2);
        let dv3 = accelerations(&advanced(&self.x, h3, &dx2), &self.m);
        self.x = advanced(&self.x, dt, &weighted(&dx0, &dx1, &dx2, &dx3));
        self.v = advanced(&self.v, dt, &weighted(&dv0, &dv1, &dv2, &dv3));
    }

    fn total_energy(&self) -> f64 {
        let mut e = 0.0;
        for i in 0..self.m.len() {
            let mut squares = 0.0;
            for c in &self.v[i] {
                squares = squares + c * c;
            }
            e = e + 0.5 * self.m[i] * squares;
            for j in i + 1..self.m.len() {
                let mut gap = 0.0;
                for k in 0..self.x[i].len() {
                    let d = self.x[i][k] - self.x[j][k];
                    gap = gap + d * d;
                }
                e = e - G * self.m[i] * self.m[j] / gap.sqrt();
            }
        }
        e
    }
}

fn num(x: f64) -> Real {
    Real::from_bits(x.to_bits())
}

fn floats(rs: &[Real]) -> Vec<f64> {
    rs.iter().map(|r| f64::from_bits(r.to_bits())).collect()
}

fn build<const D: usize>(x: &Table, v: &Table, m: &[f64]) -> (System<D>, Reference) {
    let mut particles = Vec::new();
    for i in 0..m.len() {
        particles.push(Particle::<D>::new(
            x[i].iter().map(|c| num(*c)).collect(),
            v[i].iter().map(|c| num(*c)).collect(),
            num(m[i]),
        ));
    }
    (
        System::<D>::from_particles(particles),
        Reference { x: x.clone(), v: v.clone(), m: m.to_vec() },
    )
}

fn assert_same<const D: usize>(system: &System<D>, reference: &Reference) {
    for i in 0..system.len() {
        assert_eq!(floats(&system.position(i)), reference.x[i], "position {}", i);
        assert_eq!(floats(&system.velocity(i)), reference.v[i], "velocity {}", i);
    }
    assert_eq!(
        f64::from_bits(system.total_energy().to_bits()),
        reference.total_energy()
    );
}

fn five_bodies() -> (Table, Table, Vec<f64>) {
    let x = vec![
        vec![0.0, 0.0, 0.0],
        vec![120.0, 0.0, 15.0],
        vec![-75.0, 90.0, -5.0],
        vec![10.0, -140.0, 30.0],
        vec![-200.0, -35.0, 60.0],
    ];
    let v = vec![
        vec![0.0, 0.001, 0.0],
        vec![0.0, 0.17, 0.02],
        vec![-0.12, -0.09, 0.0],
        vec![0.15, 0.01, -0.01],
        vec![0.02, -0.1, 0.0],
    ];
    let m = vec![8.0e10, 1.0e9, 3.0e9, 5.0e8, 2.5e9];
    (x, v, m)
}

#[test]
fn accelerations_agree_with_hardware_floats() {
    let (x, v, m) = five_bodies();
    let (system, reference) = build::<3>(&x, &v, &m);
    let expected = accelerations(&reference.x, &reference.m);
    let all = system.gravitational_accel();
    for i in 0..5 {
        assert_eq!(floats(&system.acceleration_of(i)), expected[i]);
        assert_eq!(floats(&all.row(i)), expected[i]);
        assert!(expected[i].iter().all(|c| *c != 0.0));
    }
}

#[test]
fn euler_agrees_with_hardware_floats() {
    let (x, v, m) = five_bodies();
    let (mut system, mut reference) = build::<3>(&x, &v, &m);
    assert_same(&system, &reference);
    for step in 0..60 {
        let dt = 0.5 + 0.125 * step as f64;
        system.euler(num(dt));
        reference.euler(dt);
        assert_same(&system, &reference);
    }
    assert!(reference.x[1] != x[1]);
}

#[test]
fn runge_kutta_agrees_with_hardware_floats() {
    let (x, v, m) = five_bodies();
    let (mut system, mut reference) = build::<3>(&x, &v, &m);
    for step in 0..40 {
        let dt = 0.5 + 0.125 * step as f64;
        system.runge_kutta(num(dt));
        reference.runge_kutta(dt);
        assert_same(&system, &reference);
    }
    assert!(reference.x[1] != x[1]);
}

#[test]
fn runge_kutta_backwards_agrees_with_hardware_floats() {
    let x = vec![vec![-60.0, 0.0], vec![20.0, 0.0]];
    let v = vec![vec![0.0, -0.06], vec![0.0, 0.02]];
    let m = vec![1.0e10, 3.0e10];
    let (mut system, mut reference) = build::<2>(&x, &v, &m);
    for _ in 0..30 {
        system.runge_kutta(num(10.0));
        reference.runge_kutta(10.0);
    }
    assert_same(&system, &reference);
    for _ in 0..30 {
        system.runge_kutta(num(-10.0));
        reference.runge_kutta(-10.0);
    }
    assert_same(&system, &reference);
}

#[test]
fn one_dimension_agrees_with_hardware_floats() {
    let x = vec![vec![200.0], vec![300.0], vec![-50.0]];
    let v = vec![vec![0.0], vec![0.0], vec![0.25]];
    let m = vec![1.0e10, 1.0e10, 4.0e11];
    let (mut system, mut reference) = build::<1>(&x, &v, &m);
    for _ in 0..50 {
        system.euler(num(0.1));
        reference.euler(0.1);
        system.runge_kutta(num(0.3));
        reference.runge_kutta(0.3);
    }
    assert_same(&system, &reference);
}
