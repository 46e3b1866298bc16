//! The token that writing takes.

use throughline::gate::Gate;

#[test]
fn only_the_exact_token_is_allowed() {
    let g = Gate::with_token("abc123");
    assert!(g.allows(Some("abc123")));
    assert!(!g.allows(Some("abc124")));
    assert!(!g.allows(Some("abc12")), "a prefix is not the token");
    assert!(!g.allows(Some("abc1234")));
    assert!(!g.allows(Some("")));
    assert!(!g.allows(None), "absent is not allowed");
}

#[test]
fn a_server_without_randomness_refuses_every_write() {
    let g = Gate::with_token("");
    assert!(!g.allows(Some("")));
    assert!(!g.allows(Some("anything")));
    assert!(!g.allows(None));
}

#[test]
fn a_real_token_is_long_and_different_every_time() {
    let a = Gate::new(Some([0, 1, 2, 3, 4, 5, 6, 7, 8, 9, 10, 11, 12, 13, 14, 15]));
    let b = Gate::new(Some([0, 1, 2, 3, 4, 5, 6, 7, 8, 9, 10, 11, 12, 13, 14, 255]));
    assert_eq!(a.token().len(), 32, "128 bits of hex");
    assert_ne!(a.token(), b.token());
    assert!(a.token().chars().all(|c| c.is_ascii_hexdigit()));
    assert_eq!(a.token(), "000102030405060708090a0b0c0d0e0f");
    assert!(a.allows(Some("000102030405060708090a0b0c0d0e0f")));
    assert!(!a.allows(Some(b.token())));
    assert_eq!(Gate::new(None).token(), "");
    assert!(!Gate::new(None).allows(Some("")));
}
