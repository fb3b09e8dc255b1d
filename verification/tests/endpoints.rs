use std::any::TypeId;

use incidence_core::endpoints::{BoundaryAccount, FiniteCompartment};
use incidence_core::identity::CompartmentId;

#[test]
fn endpoint_types_preserve_identity_and_are_structurally_distinct() {
    let id = CompartmentId::parse("reservoir").expect("fixture identity must be valid");
    let finite = FiniteCompartment::new(id.clone());
    let boundary = BoundaryAccount::new(id);

    assert_eq!(finite.id().as_str(), "reservoir");
    assert_eq!(boundary.id().as_str(), "reservoir");
    assert_eq!(
        finite.into_id(),
        CompartmentId::parse("reservoir").expect("fixture identity must be valid")
    );
    assert_eq!(
        boundary.into_id(),
        CompartmentId::parse("reservoir").expect("fixture identity must be valid")
    );
    assert_ne!(
        TypeId::of::<FiniteCompartment>(),
        TypeId::of::<BoundaryAccount>()
    );
}
