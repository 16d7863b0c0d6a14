//! Operator authentication against the shared password hash.

use restreamer::auth::authorize;

#[test]
fn no_hash_means_open_access() {
    assert!(authorize(&None, &None));
    assert!(authorize(&None, &Some("anything".to_string())));
}

#[test]
fn hash_requires_the_matching_password() {
    let cfg = argon2::Config::default();
    let hash = argon2::hash_encoded(b"secret", b"somesaltsomesalt", &cfg).unwrap();
    assert!(authorize(&Some(hash.clone()), &Some("secret".to_string())));
    assert!(!authorize(&Some(hash.clone()), &Some("wrong".to_string())));
    assert!(!authorize(&Some(hash), &None));
}

#[test]
fn malformed_hash_rejects() {
    assert!(!authorize(&Some("not-a-hash".to_string()), &Some("secret".to_string())));
}
