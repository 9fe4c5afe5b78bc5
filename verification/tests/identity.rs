use agentos_domain::identity::{
    PUBLIC_KEY_LEN, PublicKey, PublicKeyError, SIGNING_KEY_NAME, jwks, signing_key_ref,
};
use agentos_domain::ids::{EmployeeId, TenantId};
use agentos_domain::time::Timestamp;

fn key() -> PublicKey {
    PublicKey::new([7u8; PUBLIC_KEY_LEN])
}

#[test]
fn a_public_key_is_exactly_thirty_two_bytes() {
    assert_eq!(
        PublicKey::from_slice(&[0u8; 32]),
        Ok(PublicKey::new([0; 32]))
    );
    assert_eq!(
        PublicKey::from_slice(&[0u8; 31]),
        Err(PublicKeyError::Length { got: 31 })
    );
    assert_eq!(
        PublicKey::from_slice(&[0u8; 33]),
        Err(PublicKeyError::Length { got: 33 })
    );
    assert_eq!(
        PublicKey::from_slice(&[]),
        Err(PublicKeyError::Length { got: 0 })
    );
}

#[test]
fn the_kid_is_derived_and_therefore_stable_without_being_stored() {
    assert_eq!(key().key_id(), key().key_id());
    assert_ne!(key().key_id(), PublicKey::new([8u8; 32]).key_id());

    let kid = key().key_id();
    assert!(!kid.as_str().contains(['=', '+', '/']), "{kid:?}");
    assert_eq!(
        kid.as_str(),
        "BwcHBwcHBwcHBwcHBwcHBwcHBwcHBwcHBwcHBwcHBwc"
    );
}

#[test]
fn the_jwk_is_rfc8037_and_round_trips_through_its_x_member() {
    let jwk = key().jwk();
    assert_eq!(jwk.kty, "OKP");
    assert_eq!(jwk.crv, "Ed25519");
    assert_eq!(jwk.alg, "EdDSA");
    assert_eq!(jwk.usage, "sig");
    assert_eq!(jwk.kid, key().key_id().as_str());
    assert_eq!(PublicKey::from_jwk_x(&jwk.x), Ok(key()));
}

#[test]
fn the_jwks_is_a_key_set_even_for_one_key() {
    let set = jwks(&[key()]);
    assert_eq!(set.len(), 1);
    assert_eq!(set[0], key().jwk());
    assert_eq!(jwks(&[]).len(), 0);
}

#[test]
fn the_signing_key_ref_is_scoped_to_one_employee() {
    let now = Timestamp::from_parts(1_700_000_000, 0).unwrap();
    let (tenant, employee) = (TenantId::new_v7(now), EmployeeId::new_v7(now));
    let secret_ref = signing_key_ref(tenant, employee).expect("valid name");

    assert_eq!(secret_ref.tenant_id(), tenant);
    assert_eq!(secret_ref.employee_id(), employee);
    assert_eq!(secret_ref.name(), SIGNING_KEY_NAME);
}

#[test]
fn what_is_not_base64url_is_no_key() {
    assert_eq!(
        PublicKey::from_jwk_x("not base64!"),
        Err(PublicKeyError::Encoding)
    );
    assert_eq!(
        PublicKey::from_jwk_x("BwcH"),
        Err(PublicKeyError::Length { got: 3 })
    );
    assert_eq!(PublicKey::from_decoded(None), Err(PublicKeyError::Encoding));
    assert_eq!(
        PublicKey::from_decoded(Some(vec![7; 32])),
        Ok(key())
    );
}
