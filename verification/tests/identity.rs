use incidence_core::identity::{CompartmentId, IdentityError, IdentityKind, SubstanceId};

#[test]
fn accepts_and_preserves_valid_compartment_identity() {
    let identity = CompartmentId::parse("reservoir_01").expect("fixture identity must be valid");

    assert_eq!(identity.as_str(), "reservoir_01");
    assert_eq!(identity.to_text(), "reservoir_01");
}

#[test]
fn accepts_and_preserves_valid_substance_identity() {
    let identity = SubstanceId::parse("salt-2").expect("fixture identity must be valid");

    assert_eq!(identity.as_str(), "salt-2");
    assert_eq!(identity.to_text(), "salt-2");
}

#[test]
fn rejects_empty_compartment_identity() {
    let result = CompartmentId::parse("");

    assert_eq!(
        result,
        Err(IdentityError::Empty {
            kind: IdentityKind::Compartment,
        })
    );
    assert_eq!(
        result
            .expect_err("empty fixture must be rejected")
            .message(),
        "compartment identity must not be empty"
    );
}

#[test]
fn rejects_compartment_identity_with_invalid_start() {
    assert_eq!(
        CompartmentId::parse("1reservoir"),
        Err(IdentityError::InvalidStart {
            kind: IdentityKind::Compartment,
            value: "1reservoir".to_owned(),
        })
    );
}

#[test]
fn rejects_substance_identity_with_invalid_start() {
    let result = SubstanceId::parse("Salt");

    assert_eq!(
        result,
        Err(IdentityError::InvalidStart {
            kind: IdentityKind::Substance,
            value: "Salt".to_owned(),
        })
    );
    assert_eq!(
        result
            .expect_err("uppercase fixture must be rejected")
            .message(),
        "substance identity `Salt` must start with an ASCII lowercase letter"
    );
}

#[test]
fn rejects_invalid_ascii_character() {
    let result = SubstanceId::parse("sea salt");

    assert_eq!(
        result,
        Err(IdentityError::InvalidCharacter {
            kind: IdentityKind::Substance,
            value: "sea salt".to_owned(),
            byte_index: 3,
            character: ' ',
        })
    );
    assert_eq!(
        result
            .expect_err("space fixture must be rejected")
            .message(),
        "substance identity `sea salt` contains invalid character ` ` at byte 3"
    );
}

#[test]
fn reports_non_ascii_character_at_utf8_byte_offset() {
    assert_eq!(
        SubstanceId::parse("naïve"),
        Err(IdentityError::InvalidCharacter {
            kind: IdentityKind::Substance,
            value: "naïve".to_owned(),
            byte_index: 2,
            character: 'ï',
        })
    );
}

#[test]
fn permits_trailing_and_repeated_separators() {
    assert!(CompartmentId::parse("reservoir-").is_ok());
    assert!(SubstanceId::parse("salt__2").is_ok());
}

#[test]
fn orders_identities_by_exact_stored_bytes() {
    let compartment_a = CompartmentId::parse("a").expect("fixture identity must be valid");
    let compartment_b = CompartmentId::parse("b").expect("fixture identity must be valid");
    let substance_a = SubstanceId::parse("a").expect("fixture identity must be valid");
    let substance_b = SubstanceId::parse("b").expect("fixture identity must be valid");

    assert!(compartment_a < compartment_b);
    assert!(substance_a < substance_b);
}

#[test]
fn identities_parse_from_str_and_expose_their_text() {
    let compartment: CompartmentId = "reservoir".parse().expect("valid identity");
    assert_eq!(AsRef::<str>::as_ref(&compartment), "reservoir");
    let substance: SubstanceId = "salt".parse().expect("valid identity");
    assert_eq!(AsRef::<str>::as_ref(&substance), "salt");
    assert!("Salt".parse::<SubstanceId>().is_err());
}
