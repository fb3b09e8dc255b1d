//! Finite compartments and boundary accounts: the two structural kinds of endpoint.

use vstd::prelude::*;

use crate::identity::CompartmentId;

verus! {

/// An identity-bearing finite compartment endpoint.
#[derive(Debug, PartialEq, Eq, Hash, PartialOrd, Ord)]
pub struct FiniteCompartment(CompartmentId);

impl View for FiniteCompartment {
    type V = Seq<char>;

    closed spec fn view(&self) -> Seq<char> {
        self.0@
    }
}

impl FiniteCompartment {
    /// Constructs a finite compartment endpoint.
    pub fn new(id: CompartmentId) -> (r: Self)
        ensures
            r@ == id@,
    {
        FiniteCompartment(id)
    }

    /// Returns the endpoint's compartment identity.
    pub fn id(&self) -> (r: &CompartmentId)
        ensures
            r@ == self@,
    {
        &self.0
    }

    /// Consumes the endpoint and returns its compartment identity.
    pub fn into_id(self) -> (r: CompartmentId)
        ensures
            r@ == self@,
    {
        self.0
    }
}

impl Clone for FiniteCompartment {
    fn clone(&self) -> (r: Self)
        ensures
            r == *self,
    {
        FiniteCompartment(self.0.clone())
    }
}

/// An identity-bearing boundary account endpoint.
#[derive(Debug, PartialEq, Eq, Hash, PartialOrd, Ord)]
pub struct BoundaryAccount(CompartmentId);

impl View for BoundaryAccount {
    type V = Seq<char>;

    closed spec fn view(&self) -> Seq<char> {
        self.0@
    }
}

impl BoundaryAccount {
    /// Constructs a boundary account endpoint.
    pub fn new(id: CompartmentId) -> (r: Self)
        ensures
            r@ == id@,
    {
        BoundaryAccount(id)
    }

    /// Returns the endpoint's compartment identity.
    pub fn id(&self) -> (r: &CompartmentId)
        ensures
            r@ == self@,
    {
        &self.0
    }

    /// Consumes the endpoint and returns its compartment identity.
    pub fn into_id(self) -> (r: CompartmentId)
        ensures
            r@ == self@,
    {
        self.0
    }
}

impl Clone for BoundaryAccount {
    fn clone(&self) -> (r: Self)
        ensures
            r == *self,
    {
        BoundaryAccount(self.0.clone())
    }
}

} // verus!
