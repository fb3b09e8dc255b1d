use incidence_core::identity::SubstanceId;
use incidence_core::substance_registry::{SubstanceRegistry, SubstanceRegistryError};

fn parse_ids(values: &[&str]) -> Vec<SubstanceId> {
    values
        .iter()
        .map(|value| SubstanceId::parse(value).expect("fixture identity must be valid"))
        .collect()
}

#[test]
fn canonical_order_is_independent_of_insertion_order() {
    let first = SubstanceRegistry::new(parse_ids(&["water", "nitrate", "salt"]))
        .expect("fixture registry must be valid");
    let first_order: Vec<_> = first.iter().iter().map(SubstanceId::as_str).collect();
    assert_eq!(first_order, ["nitrate", "salt", "water"]);

    let second = SubstanceRegistry::new(parse_ids(&["salt", "water", "nitrate"]))
        .expect("fixture registry must be valid");
    let second_order: Vec<_> = second.iter().iter().map(SubstanceId::as_str).collect();

    assert_eq!(second, first);
    assert_eq!(second_order, ["nitrate", "salt", "water"]);
}

#[test]
fn rejects_first_repeated_identity() {
    let result = SubstanceRegistry::new(parse_ids(&["water", "salt", "water"]));
    let expected_duplicate = SubstanceId::parse("water").expect("fixture identity must be valid");

    assert_eq!(
        result,
        Err(SubstanceRegistryError::DuplicateSubstance {
            substance: expected_duplicate,
        })
    );
    assert_eq!(
        result
            .expect_err("duplicate fixture must be rejected")
            .message(),
        "duplicate substance identity `water`"
    );
}

#[test]
fn exposes_size_and_membership_queries() {
    let registry = SubstanceRegistry::new(parse_ids(&["water", "nitrate", "salt"]))
        .expect("fixture registry must be valid");
    let water = SubstanceId::parse("water").expect("fixture identity must be valid");
    let phosphorus = SubstanceId::parse("phosphorus").expect("fixture identity must be valid");

    assert_eq!(registry.len(), 3);
    assert!(!registry.is_empty());
    assert!(registry.contains(&water));
    assert!(!registry.contains(&phosphorus));
}

#[test]
fn permits_empty_registry() {
    let registry =
        SubstanceRegistry::new(Vec::<SubstanceId>::new()).expect("empty registry must be valid");

    assert_eq!(registry.len(), 0);
    assert!(registry.is_empty());
    assert_eq!(registry.iter().iter().next(), None);
}
