//! Initial-condition records as they are exchanged with the outside:
//! positions in kilometres, velocities in kilometres per second.

use vstd::prelude::*;
use crate::number::Real;
use crate::sim::Particle;
use crate::vector::scaled;
use crate::vector::vector_scaled;

verus! {

/// The number of metres in a kilometre.
pub open spec fn metres_per_kilometre() -> Real {
    Real::spec_from_int(1000)
}

/// One particle of an initial-condition record.
#[derive(Debug)]
pub struct SerializedParticle<const D: usize> {
    pub x: Vec<Real>,
    pub v: Vec<Real>,
    pub m: Real,
}

impl<const D: usize> SerializedParticle<D> {
    /// The particle that the record describes, its numbers taken as they
    /// are.
    pub fn into_particle(self) -> (p: Particle<D>)
        requires
            self.x.len() == D,
            self.v.len() == D,
        ensures
            p.position() == self.x@,
            p.velocity() == self.v@,
            p.mass() == self.m,
    {
        Particle::new(self.x, self.v, self.m)
    }

    /// The record with its position and velocity converted from
    /// kilometres to metres; the mass stays as it is.
    pub fn in_metres(&self) -> (r: SerializedParticle<D>)
        ensures
            r.x@ == scaled(self.x@, metres_per_kilometre()),
            r.v@ == scaled(self.v@, metres_per_kilometre()),
            r.m == self.m,
    {
        let factor: Real = Real::from_int(1000);
        SerializedParticle {
            x: vector_scaled(&self.x, factor),
            v: vector_scaled(&self.v, factor),
            m: self.m,
        }
    }

    /// Every record of the list converted from kilometres to metres, in
    /// the order of the list.
    pub fn all_in_metres(records: &Vec<SerializedParticle<D>>) -> (r: Vec<SerializedParticle<D>>)
        ensures
            r.len() == records.len(),
            forall|i: int|
                0 <= i < records.len() ==> {
                    &&& (#[trigger] r[i]).x@ == scaled(records[i].x@, metres_per_kilometre())
                    &&& r[i].v@ == scaled(records[i].v@, metres_per_kilometre())
                    &&& r[i].m == records[i].m
                },
    {
        let mut r: Vec<SerializedParticle<D>> = Vec::new();
        let mut i: usize = 0;
        while i < records.len()
            invariant
                i <= records.len(),
                r.len() == i,
                forall|k: int|
                    0 <= k < i ==> {
                        &&& (#[trigger] r[k]).x@ == scaled(records[k].x@, metres_per_kilometre())
                        &&& r[k].v@ == scaled(records[k].v@, metres_per_kilometre())
                        &&& r[k].m == records[k].m
                    },
            decreases records.len() - i,
        {
            r.push(records[i].in_metres());
            i = i + 1;
        }
        r
    }
}

} // verus!
