//! Arithmetic on vectors of numbers: component-wise sums, differences and
//! scalings, and the Euclidean norm.

use vstd::prelude::*;
use crate::number::Real;

verus! {

/// The vector of `n` zeros.
pub open spec fn zeros(n: nat) -> Seq<Real> {
    Seq::new(n, |k: int| Real::spec_zero())
}

/// The component-wise sum `a + b`.
pub open spec fn sum(a: Seq<Real>, b: Seq<Real>) -> Seq<Real> {
    Seq::new(a.len(), |k: int| a[k].spec_add(b[k]))
}

/// The component-wise difference `a - b`.
pub open spec fn difference(a: Seq<Real>, b: Seq<Real>) -> Seq<Real> {
    Seq::new(a.len(), |k: int| a[k].spec_sub(b[k]))
}

/// The vector `a` with every component multiplied by `s`.
pub open spec fn scaled(a: Seq<Real>, s: Real) -> Seq<Real> {
    Seq::new(a.len(), |k: int| a[k].spec_mul(s))
}

/// The vector `a` with every component negated.
pub open spec fn negated(a: Seq<Real>) -> Seq<Real> {
    Seq::new(a.len(), |k: int| a[k].spec_neg())
}

/// The sum of the squares of the components, added from the first
/// component to the last.
pub open spec fn sum_of_squares(a: Seq<Real>) -> Real
    decreases a.len(),
{
    if a.len() == 0 {
        Real::spec_zero()
    } else {
        sum_of_squares(a.drop_last()).spec_add(a.last().spec_mul(a.last()))
    }
}

/// The Euclidean length of `a`.
pub open spec fn norm(a: Seq<Real>) -> Real {
    sum_of_squares(a).spec_sqrt()
}

/// The vector of `n` zeros.
pub fn zero_vector(n: usize) -> (r: Vec<Real>)
    ensures
        r@ == zeros(n as nat),
{
    let mut r: Vec<Real> = Vec::new();
    let mut k: usize = 0;
    while k < n
        invariant
            k <= n,
            r@ == zeros(k as nat),
        decreases n - k,
    {
        r.push(Real::zero());
        k = k + 1;
        assert(r@ =~= zeros(k as nat));
    }
    r
}

/// The component-wise sum of two vectors of one length.
pub fn vector_sum(a: &Vec<Real>, b: &Vec<Real>) -> (r: Vec<Real>)
    requires
        a.len() == b.len(),
    ensures
        r@ == sum(a@, b@),
{
    let mut r: Vec<Real> = Vec::new();
    let mut k: usize = 0;
    while k < a.len()
        invariant
            k <= a.len(),
            a.len() == b.len(),
            r@ == sum(a@, b@).take(k as int),
        decreases a.len() - k,
    {
        r.push(a[k].add(b[k]));
        k = k + 1;
        assert(r@ =~= sum(a@, b@).take(k as int));
    }
    assert(sum(a@, b@).take(a.len() as int) =~= sum(a@, b@));
    r
}

/// The component-wise difference of two vectors of one length.
pub fn vector_difference(a: &Vec<Real>, b: &Vec<Real>) -> (r: Vec<Real>)
    requires
        a.len() == b.len(),
    ensures
        r@ == difference(a@, b@),
{
    let mut r: Vec<Real> = Vec::new();
    let mut k: usize = 0;
    while k < a.len()
        invariant
            k <= a.len(),
            a.len() == b.len(),
            r@ == difference(a@, b@).take(k as int),
        decreases a.len() - k,
    {
        r.push(a[k].sub(b[k]));
        k = k + 1;
        assert(r@ =~= difference(a@, b@).take(k as int));
    }
    assert(difference(a@, b@).take(a.len() as int) =~= difference(a@, b@));
    r
}

/// A vector with every component multiplied by `s`.
pub fn vector_scaled(a: &Vec<Real>, s: Real) -> (r: Vec<Real>)
    ensures
        r@ == scaled(a@, s),
{
    let mut r: Vec<Real> = Vec::new();
    let mut k: usize = 0;
    while k < a.len()
        invariant
            k <= a.len(),
            r@ == scaled(a@, s).take(k as int),
        decreases a.len() - k,
    {
        r.push(a[k].mul(s));
        k = k + 1;
        assert(r@ =~= scaled(a@, s).take(k as int));
    }
    assert(scaled(a@, s).take(a.len() as int) =~= scaled(a@, s));
    r
}

/// The sum of the squares of the components.
pub fn vector_sum_of_squares(a: &Vec<Real>) -> (r: Real)
    ensures
        r == sum_of_squares(a@),
{
    let mut total: Real = Real::zero();
    let mut k: usize = 0;
    while k < a.len()
        invariant
            k <= a.len(),
            total == sum_of_squares(a@.take(k as int)),
        decreases a.len() - k,
    {
        assert(a@.take(k + 1).drop_last() =~= a@.take(k as int));
        total = total.add(a[k].mul(a[k]));
        k = k + 1;
    }
    assert(a@.take(a.len() as int) =~= a@);
    total
}

/// The Euclidean length of a vector.
pub fn vector_norm(a: &Vec<Real>) -> (r: Real)
    ensures
        r == norm(a@),
{
    vector_sum_of_squares(a).sqrt()
}

} // verus!
