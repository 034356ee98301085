use keygate::admin_api;
use keygate::codec::Status;
use keygate::engine::Keygate;
use keygate::errors::KeygateError;
use keygate::public_api;
use keygate::storage::MemStorage;

const GRACE: u64 = 500;
const DEFAULT_TTL: u64 = 3600;

fn fresh(now: u64) -> Keygate<MemStorage> {
    Keygate::new(MemStorage::new(), DEFAULT_TTL, GRACE, 0x1234_5678_9abc_def0, now)
}

fn attrs(pairs: &[(&str, &str)]) -> Vec<(Vec<u8>, Vec<u8>)> {
    pairs
        .iter()
        .map(|(k, v)| (k.as_bytes().to_vec(), v.as_bytes().to_vec()))
        .collect()
}

#[test]
fn issue_then_verify_immediately() {
    let mut kg = fresh(0);
    let alice = kg
        .create(b"alice@example.com".to_vec(), attrs(&[("name", "Alice")]), 10)
        .unwrap();
    let issued = kg.issue(alice.id, 3600, 1000).unwrap();
    assert_eq!(kg.verify(&issued.token, 1000), Ok(alice.id));
    assert_eq!(kg.verify(&issued.token, 1001), Ok(alice.id));
}

#[test]
fn verify_reports_expired_once_ttl_elapses() {
    let mut kg = fresh(0);
    let alice = kg.create(b"alice@example.com".to_vec(), attrs(&[]), 10).unwrap();
    let issued = kg.issue(alice.id, 100, 1000).unwrap();
    assert_eq!(kg.verify(&issued.token, 1099), Ok(alice.id));
    assert_eq!(kg.verify(&issued.token, 1100), Err(KeygateError::Expired));
    assert_eq!(kg.verify(&issued.token, 5000), Err(KeygateError::Expired));
    // expiry dominates revocation: still Expired, never a valid identity
    kg.revoke(issued.session.session_id).unwrap();
    assert_eq!(kg.verify(&issued.token, 1100), Err(KeygateError::Expired));
}

#[test]
fn revoke_is_idempotent() {
    let mut kg = fresh(0);
    let alice = kg.create(b"alice@example.com".to_vec(), attrs(&[]), 10).unwrap();
    let issued = kg.issue(alice.id, 3600, 1000).unwrap();
    assert_eq!(kg.revoke(issued.session.session_id), Ok(()));
    assert_eq!(kg.verify(&issued.token, 1001), Err(KeygateError::Revoked));
    // a second revocation is not an error and observable state is the same
    assert_eq!(kg.revoke(issued.session.session_id), Ok(()));
    assert_eq!(kg.verify(&issued.token, 1001), Err(KeygateError::Revoked));
    let s = kg.get_session(issued.session.session_id).unwrap();
    assert!(s.revoked);
}

#[test]
fn second_create_with_same_natural_key_conflicts() {
    let mut kg = fresh(0);
    let first = kg.create(b"alice@example.com".to_vec(), attrs(&[]), 10).unwrap();
    let second = kg.create(b"alice@example.com".to_vec(), attrs(&[("x", "y")]), 20);
    assert_eq!(second.unwrap_err(), KeygateError::Conflict);
    // the natural key still resolves to the one winner
    let found = kg.find_by_natural_key(b"alice@example.com").unwrap();
    assert_eq!(found.id, first.id);
    let listed = kg.list_identities().unwrap();
    assert_eq!(listed.len(), 1);
}

#[test]
fn rotation_honours_grace_period() {
    let mut kg = fresh(0);
    let alice = kg.create(b"alice@example.com".to_vec(), attrs(&[]), 10).unwrap();
    let issued = kg.issue(alice.id, 100_000, 1000).unwrap();
    let new_key_id = kg.rotate(0xdead_beef_0000_0001, 2000);
    assert_eq!(new_key_id, 1);
    // within the grace period the old key still verifies
    assert_eq!(kg.verify(&issued.token, 2000 + GRACE - 1), Ok(alice.id));
    // once the grace period elapses the signature check fails
    assert_eq!(kg.verify(&issued.token, 2000 + GRACE), Err(KeygateError::Invalid));
    // tokens issued under the new key are unaffected
    let fresh_issued = kg.issue(alice.id, 100_000, 3000).unwrap();
    assert_eq!(fresh_issued.session.key_id, new_key_id);
    assert_eq!(kg.verify(&fresh_issued.token, 9000), Ok(alice.id));
}

#[test]
fn alice_scenario_revoke_all() {
    let mut kg = fresh(0);
    let alice = kg
        .create(b"alice@example.com".to_vec(), attrs(&[("name", "Alice")]), 10)
        .unwrap();
    let issued = kg.issue(alice.id, 3600, 1000).unwrap();
    assert_eq!(kg.verify(&issued.token, 1000), Ok(alice.id));
    let count = kg.revoke_all(alice.id, 1200).unwrap();
    assert_eq!(count, 1);
    assert_eq!(kg.verify(&issued.token, 1200), Err(KeygateError::Revoked));
}

#[test]
fn bob_scenario_disable_blocks_verification() {
    let mut kg = fresh(0);
    let bob = kg.create(b"bob@example.com".to_vec(), attrs(&[]), 10).unwrap();
    let issued = kg.issue(bob.id, 3600, 1000).unwrap();
    assert_eq!(kg.verify(&issued.token, 1001), Ok(bob.id));
    kg.update_status(bob.id, Status::Disabled).unwrap();
    assert_eq!(kg.verify(&issued.token, 1002), Err(KeygateError::IdentityDisabled));
}

#[test]
fn status_transitions_are_monotonic() {
    let mut kg = fresh(0);
    let a = kg.create(b"a@example.com".to_vec(), attrs(&[]), 10).unwrap();
    assert_eq!(kg.update_status(a.id, Status::Disabled), Ok(()));
    assert_eq!(
        kg.update_status(a.id, Status::Active),
        Err(KeygateError::InvalidTransition)
    );
    assert_eq!(kg.update_status(a.id, Status::Deleted), Ok(()));
    assert_eq!(
        kg.update_status(a.id, Status::Disabled),
        Err(KeygateError::InvalidTransition)
    );
    // idempotent at the same rank
    assert_eq!(kg.update_status(a.id, Status::Deleted), Ok(()));
}

#[test]
fn missing_entities_report_not_found() {
    let mut kg = fresh(0);
    assert_eq!(kg.get(7).unwrap_err(), KeygateError::NotFound);
    assert_eq!(
        kg.find_by_natural_key(b"nobody@example.com").unwrap_err(),
        KeygateError::NotFound
    );
    assert_eq!(kg.issue(7, 3600, 1000).unwrap_err(), KeygateError::NotFound);
    assert_eq!(kg.revoke(7).unwrap_err(), KeygateError::NotFound);
    assert_eq!(kg.get_session(7).unwrap_err(), KeygateError::NotFound);
    assert_eq!(
        kg.update_status(7, Status::Disabled).unwrap_err(),
        KeygateError::NotFound
    );
}

#[test]
fn issuance_requires_an_active_identity() {
    let mut kg = fresh(0);
    let a = kg.create(b"a@example.com".to_vec(), attrs(&[]), 10).unwrap();
    kg.update_status(a.id, Status::Disabled).unwrap();
    assert_eq!(
        kg.issue(a.id, 3600, 1000).unwrap_err(),
        KeygateError::IdentityDisabled
    );
}

#[test]
fn malformed_and_tampered_tokens_are_invalid() {
    let mut kg = fresh(0);
    let a = kg.create(b"a@example.com".to_vec(), attrs(&[]), 10).unwrap();
    let issued = kg.issue(a.id, 3600, 1000).unwrap();
    assert_eq!(kg.verify(b"not a token", 1000), Err(KeygateError::Invalid));
    assert_eq!(kg.verify(b"", 1000), Err(KeygateError::Invalid));
    // flip one payload byte: the tag no longer matches
    let mut tampered = issued.token.clone();
    tampered[8] ^= 0xff;
    assert_eq!(kg.verify(&tampered, 1000), Err(KeygateError::Invalid));
    // flip one tag byte
    let mut tag_tampered = issued.token.clone();
    tag_tampered[47] ^= 0x01;
    assert_eq!(kg.verify(&tag_tampered, 1000), Err(KeygateError::Invalid));
    // a token dated before its own issuance is invalid
    assert_eq!(kg.verify(&issued.token, 999), Err(KeygateError::Invalid));
}

#[test]
fn revoke_all_counts_only_eligible_sessions() {
    let mut kg = fresh(0);
    let a = kg.create(b"a@example.com".to_vec(), attrs(&[]), 10).unwrap();
    let b = kg.create(b"b@example.com".to_vec(), attrs(&[]), 10).unwrap();
    let a1 = kg.issue(a.id, 100, 1000).unwrap(); // expires 1100
    let _a2 = kg.issue(a.id, 10_000, 1000).unwrap();
    let a3 = kg.issue(a.id, 10_000, 1000).unwrap();
    let b1 = kg.issue(b.id, 10_000, 1000).unwrap();
    kg.revoke(a3.session.session_id).unwrap();
    // at 2000: a1 expired, a2 live, a3 already revoked, b1 not owned
    let count = kg.revoke_all(a.id, 2000).unwrap();
    assert_eq!(count, 1);
    assert_eq!(kg.verify(&b1.token, 2000), Ok(b.id));
    assert_eq!(kg.verify(&a1.token, 2000), Err(KeygateError::Expired));
    // a second sweep finds nothing left to revoke
    assert_eq!(kg.revoke_all(a.id, 2000), Ok(0));
}

#[test]
fn attributes_survive_storage() {
    let mut kg = fresh(0);
    let made = kg
        .create(
            b"carol@example.com".to_vec(),
            attrs(&[("name", "Carol"), ("team", "identity")]),
            42,
        )
        .unwrap();
    let read = kg.get(made.id).unwrap();
    assert_eq!(read.id, made.id);
    assert_eq!(read.created_at, 42);
    assert_eq!(read.natural_key, b"carol@example.com".to_vec());
    assert_eq!(read.attributes.len(), 2);
    assert_eq!(read.attributes[0].0, b"name".to_vec());
    assert_eq!(read.attributes[0].1, b"Carol".to_vec());
    assert_eq!(read.attributes[1].0, b"team".to_vec());
    assert_eq!(read.attributes[1].1, b"identity".to_vec());
}

#[test]
fn public_surface_is_scoped_to_the_caller() {
    let mut kg = fresh(0);
    let alice = kg.create(b"alice@example.com".to_vec(), attrs(&[]), 10).unwrap();
    let bob = kg.create(b"bob@example.com".to_vec(), attrs(&[]), 10).unwrap();
    let alice_issued = public_api::issue_own(&mut kg, alice.id, 3600, 1000).unwrap();
    // bob cannot revoke alice's session through the public surface
    assert_eq!(
        public_api::revoke_own(&mut kg, bob.id, alice_issued.session.session_id),
        Err(KeygateError::NotFound)
    );
    assert_eq!(
        public_api::verify_token(&kg, &alice_issued.token, 1001),
        Ok(alice.id)
    );
    // alice can
    assert_eq!(
        public_api::revoke_own(&mut kg, alice.id, alice_issued.session.session_id),
        Ok(())
    );
    assert_eq!(
        public_api::verify_token(&kg, &alice_issued.token, 1001),
        Err(KeygateError::Revoked)
    );
    let own = public_api::read_own_identity(&kg, alice.id).unwrap();
    assert_eq!(own.id, alice.id);
}

#[test]
fn issue_own_default_uses_configured_ttl() {
    let mut kg = fresh(0);
    let alice = kg.create(b"alice@example.com".to_vec(), attrs(&[]), 10).unwrap();
    let issued = public_api::issue_own_default(&mut kg, alice.id, 1000).unwrap();
    assert_eq!(issued.session.expires_at, 1000 + DEFAULT_TTL);
    assert_eq!(public_api::verify_token(&kg, &issued.token, 1000), Ok(alice.id));
}

#[test]
fn admin_surface_round_trip() {
    let mut kg = fresh(0);
    let alice =
        admin_api::create_identity(&mut kg, b"alice@example.com".to_vec(), attrs(&[]), 10).unwrap();
    let dup = admin_api::create_identity(&mut kg, b"alice@example.com".to_vec(), attrs(&[]), 11);
    assert_eq!(dup.unwrap_err(), KeygateError::Conflict);
    let found = admin_api::find_identity(&kg, b"alice@example.com").unwrap();
    assert_eq!(found.id, alice.id);
    let got = admin_api::get_identity(&kg, alice.id).unwrap();
    assert_eq!(got.id, alice.id);
    let issued = public_api::issue_own(&mut kg, alice.id, 3600, 1000).unwrap();
    assert_eq!(admin_api::revoke_session(&mut kg, issued.session.session_id), Ok(()));
    admin_api::update_status(&mut kg, alice.id, Status::Disabled).unwrap();
    let count = admin_api::revoke_all_sessions(&mut kg, alice.id, 1200).unwrap();
    assert_eq!(count, 0);
    let listed = admin_api::list_identities(&kg).unwrap();
    assert_eq!(listed.len(), 1);
    assert_eq!(listed[0].id, alice.id);
    let kid = admin_api::rotate_signing_key(&mut kg, 0xfeed_0000_0000_0001, 2000);
    assert_eq!(kid, 1);
}

#[test]
fn tokens_bind_their_own_session() {
    let mut kg = fresh(0);
    let a = kg.create(b"a@example.com".to_vec(), attrs(&[]), 10).unwrap();
    let s1 = kg.issue(a.id, 3600, 1000).unwrap();
    let s2 = kg.issue(a.id, 3600, 1000).unwrap();
    kg.revoke(s1.session.session_id).unwrap();
    // revoking one session leaves the other verifiable
    assert_eq!(kg.verify(&s1.token, 1001), Err(KeygateError::Revoked));
    assert_eq!(kg.verify(&s2.token, 1001), Ok(a.id));
}

#[test]
fn reattach_resumes_engine_written_state() {
    let material: u64 = 0x1234_5678_9abc_def0;
    let mut kg = Keygate::new(MemStorage::new(), DEFAULT_TTL, GRACE, material, 0);
    let alice = kg.create(b"alice@example.com".to_vec(), attrs(&[]), 10).unwrap();
    let issued = kg.issue(alice.id, 3600, 1000).unwrap();
    let next_identity_id = kg.next_identity_id();
    let next_session_id = kg.next_session_id();
    let store = kg.into_store();
    // same key material supplied again: the old token still verifies
    let mut kg2 = Keygate::attach(
        store,
        next_identity_id,
        next_session_id,
        DEFAULT_TTL,
        GRACE,
        material,
        2000,
    );
    assert_eq!(kg2.verify(&issued.token, 1001), Ok(alice.id));
    let found = kg2.find_by_natural_key(b"alice@example.com").unwrap();
    assert_eq!(found.id, alice.id);
    // the natural key stays claimed across the restart
    assert_eq!(
        kg2.create(b"alice@example.com".to_vec(), attrs(&[]), 20).unwrap_err(),
        KeygateError::Conflict
    );
    // counters resume past every assigned identifier
    let bob = kg2.create(b"bob@example.com".to_vec(), attrs(&[]), 20).unwrap();
    assert!(bob.id >= next_identity_id);
    let store2 = kg2.into_store();
    // key material is process-lifetime and never persisted: with fresh
    // material the old token fails as Invalid
    let kg3: Keygate<MemStorage> =
        Keygate::attach(store2, next_identity_id + 1, next_session_id, DEFAULT_TTL, GRACE, 0x1111, 3000);
    assert_eq!(kg3.verify(&issued.token, 1001), Err(KeygateError::Invalid));
}

#[test]
fn listing_is_ascending_and_duplicate_free() {
    let mut kg = fresh(0);
    let a = kg.create(b"a@example.com".to_vec(), attrs(&[]), 10).unwrap();
    let b = kg.create(b"b@example.com".to_vec(), attrs(&[]), 11).unwrap();
    let c = kg.create(b"c@example.com".to_vec(), attrs(&[]), 12).unwrap();
    let listed = kg.list_identities().unwrap();
    let listed_ids: Vec<u64> = listed.iter().map(|i| i.id).collect();
    assert_eq!(listed_ids, vec![a.id, b.id, c.id]);
    assert!(listed_ids.windows(2).all(|w| w[0] < w[1]));
}
