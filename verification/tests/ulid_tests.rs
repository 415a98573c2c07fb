use rod::ulid::Ulid;

#[test]
fn bits_round_trip() {
    let id = Ulid::from_bits(0xDEAD_BEEF);
    assert_eq!(id.bits(), 0xDEAD_BEEF);
    assert_eq!(id, Ulid(0xDEAD_BEEF));
}

#[test]
fn fresh_identifiers_are_distinct() {
    let a = Ulid::new();
    let b = Ulid::new();
    assert_ne!(a, b);
    assert_ne!(a.bits(), 0);
}

#[test]
fn text_form_is_26_base32_digits() {
    assert_eq!(Ulid(0).to_text(), "00000000000000000000000000");
    assert_eq!(Ulid(1).to_text(), "00000000000000000000000001");
    assert_eq!(Ulid(31).to_text(), "0000000000000000000000000Z");
    assert_eq!(Ulid(32).to_text(), "00000000000000000000000010");
    assert_eq!(Ulid(u128::MAX).to_text(), "7ZZZZZZZZZZZZZZZZZZZZZZZZZ");
}

#[test]
fn text_form_matches_the_reference_implementation() {
    for bits in [0u128, 1, 31, 32, 0xDEAD_BEEF, u128::MAX / 3, u128::MAX] {
        assert_eq!(Ulid(bits).to_text(), ulid::Ulid::from(bits).to_string());
    }
}

#[test]
fn text_round_trip() {
    for bits in [0u128, 1, 0xDEAD_BEEF, u128::MAX] {
        let text = Ulid(bits).to_text();
        assert_eq!(Ulid::from_text(text.as_str()), Some(Ulid(bits)));
    }
    let fresh = Ulid::new();
    assert_eq!(Ulid::from_text(fresh.to_text().as_str()), Some(fresh));
}

#[test]
fn text_parse_rejects_malformed_input() {
    // Wrong length.
    assert_eq!(Ulid::from_text(""), None);
    assert_eq!(Ulid::from_text("0123"), None);
    // A character outside the alphabet (L is excluded).
    assert_eq!(Ulid::from_text("0000000000000000000000000L"), None);
    // A first digit too large for 128 bits.
    assert_eq!(Ulid::from_text("80000000000000000000000000"), None);
}
