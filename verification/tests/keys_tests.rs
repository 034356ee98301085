use keygate::keys::{compute_tag, KeyManager};

const GRACE: u64 = 500;

#[test]
fn active_key_signs_and_verifies() {
    let km = KeyManager::new(GRACE, 0xabcd, 100);
    let key = km.active_key();
    assert_eq!(key.key_id, 0);
    let payload = b"payload bytes";
    let tag = compute_tag(key.material, payload);
    assert!(km.verify_tag(key.key_id, 100, payload, tag));
    assert!(!km.verify_tag(key.key_id, 100, payload, tag ^ 1));
    assert!(!km.verify_tag(key.key_id, 100, b"other payload", tag));
    assert!(!km.verify_tag(99, 100, payload, tag));
}

#[test]
fn tag_depends_on_the_key() {
    let payload = b"payload bytes";
    assert_ne!(compute_tag(1, payload), compute_tag(2, payload));
    assert_eq!(compute_tag(7, payload), compute_tag(7, payload));
}

#[test]
fn rotation_retires_the_old_key_after_its_grace_period() {
    let mut km = KeyManager::new(GRACE, 0xabcd, 100);
    let old_key = km.active_key();
    let payload = b"payload bytes";
    let tag = compute_tag(old_key.material, payload);
    let new_id = km.rotate(0x9999, 1000);
    assert_eq!(new_id, 1);
    assert_eq!(km.active_key().key_id, 1);
    // within the grace period the retired key still verifies
    assert!(km.verify_tag(old_key.key_id, 1000 + GRACE - 1, payload, tag));
    // afterwards it does not
    assert!(!km.verify_tag(old_key.key_id, 1000 + GRACE, payload, tag));
    // the new key is unaffected
    let new_tag = compute_tag(0x9999, payload);
    assert!(km.verify_tag(new_id, 1000 + GRACE + 1, payload, new_tag));
}
