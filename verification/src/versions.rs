//! The closed protocol versions that participate in a model's identity.

use vstd::prelude::*;

verus! {

/// The selected rule intermediate-representation version.
#[derive(Clone, Copy, Debug, Eq, Hash, Ord, PartialEq, PartialOrd, Structural)]
pub enum RuleIrVersion {
    /// The first rule intermediate-representation contract.
    V1,
}

/// The selected interpreter version.
#[derive(Clone, Copy, Debug, Eq, Hash, Ord, PartialEq, PartialOrd, Structural)]
pub enum InterpreterVersion {
    /// The first interpreter contract.
    V1,
}

/// The selected canonical-encoding version.
#[derive(Clone, Copy, Debug, Eq, Hash, Ord, PartialEq, PartialOrd, Structural)]
pub enum CanonicalEncodingVersion {
    /// The first canonical-encoding contract.
    V1,
}

} // verus!
