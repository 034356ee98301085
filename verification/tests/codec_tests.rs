use keygate::codec::{
    decode_identity, decode_index, decode_session, decode_token, encode_identity, encode_index,
    encode_session, encode_token, Identity, Session, Status, Token,
};

fn sample_session() -> Session {
    Session {
        session_id: 7,
        identity_id: 3,
        issued_at: 1000,
        expires_at: 4600,
        revoked: false,
        key_id: 2,
    }
}

#[test]
fn session_record_round_trips() {
    let s = sample_session();
    let bytes = encode_session(&s);
    assert_eq!(bytes.len(), 41);
    assert_eq!(decode_session(&bytes), Some(s));
    let mut revoked = s;
    revoked.revoked = true;
    let bytes2 = encode_session(&revoked);
    assert_eq!(decode_session(&bytes2), Some(revoked));
    assert_ne!(bytes, bytes2);
}

#[test]
fn session_decode_rejects_corrupt_payloads() {
    assert_eq!(decode_session(b""), None);
    assert_eq!(decode_session(&[0u8; 40]), None);
    assert_eq!(decode_session(&[0u8; 42]), None);
    let mut bad_flag = encode_session(&sample_session());
    bad_flag[32] = 9; // the revocation flag must be 0 or 1
    assert_eq!(decode_session(&bad_flag), None);
}

#[test]
fn token_round_trips() {
    let t = Token {
        session_id: 7,
        identity_id: 3,
        issued_at: 1000,
        expires_at: 4600,
        key_id: 2,
        tag: 0x0123_4567_89ab_cdef,
    };
    let bytes = encode_token(&t);
    assert_eq!(bytes.len(), 48);
    assert_eq!(decode_token(&bytes), Some(t));
    assert_eq!(decode_token(&bytes[..47]), None);
}

#[test]
fn index_round_trips() {
    let bytes = encode_index(42);
    assert_eq!(bytes.len(), 8);
    assert_eq!(decode_index(&bytes), Some(42));
    assert_eq!(decode_index(b"short"), None);
}

#[test]
fn identity_record_round_trips() {
    let idn = Identity {
        id: 5,
        created_at: 99,
        status: Status::Disabled,
        natural_key: b"dora@example.com".to_vec(),
        attributes: vec![
            (b"name".to_vec(), b"Dora".to_vec()),
            (b"empty".to_vec(), b"".to_vec()),
        ],
    };
    let bytes = encode_identity(&idn);
    let back = decode_identity(&bytes).unwrap();
    assert_eq!(back.id, idn.id);
    assert_eq!(back.created_at, idn.created_at);
    assert_eq!(back.status, idn.status);
    assert_eq!(back.natural_key, idn.natural_key);
    assert_eq!(back.attributes, idn.attributes);
}

#[test]
fn identity_without_attributes_round_trips() {
    let idn = Identity {
        id: 0,
        created_at: 0,
        status: Status::Active,
        natural_key: Vec::new(),
        attributes: Vec::new(),
    };
    let bytes = encode_identity(&idn);
    let back = decode_identity(&bytes).unwrap();
    assert_eq!(back.id, 0);
    assert_eq!(back.natural_key, Vec::<u8>::new());
    assert_eq!(back.attributes.len(), 0);
}

#[test]
fn identity_decode_rejects_corrupt_payloads() {
    assert!(decode_identity(b"").is_none());
    assert!(decode_identity(&[0u8; 16]).is_none());
    let idn = Identity {
        id: 1,
        created_at: 2,
        status: Status::Active,
        natural_key: b"k".to_vec(),
        attributes: vec![(b"a".to_vec(), b"b".to_vec())],
    };
    let good = encode_identity(&idn);
    // truncation is detected
    assert!(decode_identity(&good[..good.len() - 1]).is_none());
    // trailing garbage is detected
    let mut padded = good.clone();
    padded.push(0);
    assert!(decode_identity(&padded).is_none());
    // an unknown status byte is detected
    let mut bad_status = good.clone();
    bad_status[16] = 7;
    assert!(decode_identity(&bad_status).is_none());
}
