use xlxscraper::digest::{sha256, to_hex_lower};

#[test]
fn sha256_of_known_inputs() {
    assert_eq!(
        sha256(""),
        "e3b0c44298fc1c149afbf4c8996fb92427ae41e4649b934ca495991b7852b855"
    );
    assert_eq!(
        sha256("abc"),
        "ba7816bf8f01cfea414140de5dae2223b00361a396177a9cb410ff61f20015ad"
    );
}

#[test]
fn sha256_is_sixty_four_lower_hex_digits() {
    for s in ["", "é", "[\n  {\n    \"Callsign\": \"W1AW\"\n  }\n]"] {
        let h = sha256(s);
        assert_eq!(h.len(), 64);
        assert!(h.chars().all(|c| c.is_ascii_digit() || ('a'..='f').contains(&c)));
    }
}

#[test]
fn hex_is_lower_case_two_digits_per_byte() {
    assert_eq!(to_hex_lower(&[0x00, 0x0f, 0xa0, 0xff]), "000fa0ff".chars().collect::<Vec<_>>());
    assert_eq!(to_hex_lower(&[]), Vec::<char>::new());
}

#[test]
fn same_content_same_fingerprint_different_content_different_fingerprint() {
    assert_eq!(sha256("[\n  {}\n]"), sha256("[\n  {}\n]"));
    assert_ne!(sha256("[\n  {}\n]"), sha256("[]"));
}
