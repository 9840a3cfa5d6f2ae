use rswatson::ident::generate_id;

#[test]
fn test_gen_id() {
    let id = generate_id();
    assert_eq!(id.len(), 32);
}

#[test]
fn test_gen_id_unique() {
    let id1 = generate_id();
    let id2 = generate_id();
    assert_ne!(id1, id2);
}

#[test]
fn test_gen_id_spacer() {
    let id = generate_id();
    assert!(!id.contains('-'));
    assert!(!id.contains('_'));
    assert!(!id.contains(' '));
}

#[test]
fn test_gen_id_is_lower_hex() {
    let id = generate_id();
    assert!(id.chars().all(|c| c.is_ascii_hexdigit() && !c.is_ascii_uppercase()));
}
