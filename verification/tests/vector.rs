use nbody::number::Real;
use nbody::vector::vector_difference;
use nbody::vector::vector_norm;
use nbody::vector::vector_scaled;
use nbody::vector::vector_sum;
use nbody::vector::vector_sum_of_squares;
use nbody::vector::zero_vector;

fn nums(xs: &[f64]) -> Vec<Real> {
    xs.iter().map(|x| Real::from_bits(x.to_bits())).collect()
}

fn floats(rs: &[Real]) -> Vec<f64> {
    rs.iter().map(|r| f64::from_bits(r.to_bits())).collect()
}

#[test]
fn zero_vector_has_the_asked_length() {
    assert_eq!(floats(&zero_vector(3)), vec![0.0, 0.0, 0.0]);
    assert_eq!(zero_vector(0).len(), 0);
}

#[test]
fn sum_and_difference_work_by_component() {
    let a = nums(&[1.0, 2.0, -3.5]);
    let b = nums(&[0.5, -2.0, 1.5]);
    assert_eq!(floats(&vector_sum(&a, &b)), vec![1.5, 0.0, -2.0]);
    assert_eq!(floats(&vector_difference(&a, &b)), vec![0.5, 4.0, -5.0]);
}

#[test]
fn scaling_multiplies_every_component() {
    let a = nums(&[1.0, -2.0, 0.25]);
    let s = Real::from_int(1000);
    assert_eq!(floats(&vector_scaled(&a, s)), vec![1000.0, -2000.0, 250.0]);
}

#[test]
fn norm_of_a_pythagorean_triple() {
    let a = nums(&[3.0, -4.0]);
    assert_eq!(f64::from_bits(vector_sum_of_squares(&a).to_bits()), 25.0);
    assert_eq!(f64::from_bits(vector_norm(&a).to_bits()), 5.0);
    let b = nums(&[2.0, 3.0, 6.0]);
    assert_eq!(f64::from_bits(vector_norm(&b).to_bits()), 7.0);
}

#[test]
fn norm_of_the_empty_vector_is_zero() {
    let a: Vec<Real> = Vec::new();
    assert_eq!(vector_norm(&a), Real::zero());
}
