//! The engine-wide guarantees, stated and proved once over the spec-level
//! model; every clause here follows from what the operations' own
//! contracts state, never from their bodies.

use crate::codec::{
    dec_token, enc_session, session_key, token_payload, Session, Status, Token,
};
use crate::engine::Keygate;
use crate::errors::KeygateError;
use crate::keys::{retire, tag_of, KeyRecord};
use crate::storage::Storage;
use vstd::prelude::*;

verus! {

/// Once `now` has reached a token's expiry, verification never reports a
/// valid identity, whatever the revocation state: with an accepted key and
/// a matching tag the outcome is exactly `Expired`, and in every other
/// case it is some other error, never `Ok`.
pub proof fn law_expiry_dominates<S: Storage>(kg: Keygate<S>, token: Seq<u8>, now: u64)
    requires
        dec_token(token) matches Some(t) && now >= t.expires_at,
    ensures
        !(kg.verify_outcome(token, now) is Ok),
        (dec_token(token) matches Some(t) && kg.key_manager().accepts(t.key_id, now) matches Some(
            m,
        ) && t.tag == tag_of(m, token_payload(t))) ==> kg.verify_outcome(token, now) == Err::<
            u64,
            _,
        >(KeygateError::Expired),
{
}

/// Revocation is idempotent at the byte level: a session already revoked
/// re-encodes to the very bytes stored, so writing it back changes nothing
/// observable in the backend.
pub proof fn law_revoke_idempotent<S: Storage>(kg: Keygate<S>, session_id: u64)
    requires
        kg.wf(),
        kg.session_at(session_id) matches Some(s) && s.revoked,
    ensures
        kg.contents().insert(
            session_key(session_id),
            enc_session(Session { revoked: true, ..kg.session_at(session_id)->Some_0 }),
        ) == kg.contents(),
{
    let s = kg.session_at(session_id)->Some_0;
    crate::codec::lemma_session_canonical(kg.contents()[session_key(session_id)]);
    assert(Session { revoked: true, ..s } == s);
    assert(kg.contents().insert(session_key(session_id), enc_session(s)) =~= kg.contents());
}

/// No natural key ever has two identities: any two stored identities that
/// share one natural key are the same identity.  Together with `create`'s
/// contract — success exactly when the key was unbound, `Conflict` exactly
/// when it was bound — at most one of two racing registrations can win.
pub proof fn law_natural_key_unique<S: Storage>(kg: Keygate<S>, id1: u64, id2: u64)
    requires
        kg.wf(),
        kg.identity_at(id1) is Some,
        kg.identity_at(id2) is Some,
        kg.identity_at(id1)->Some_0.natural_key == kg.identity_at(id2)->Some_0.natural_key,
    ensures
        id1 == id2,
{
    assert(kg.contents().contains_key(crate::codec::identity_key(id1)));
    assert(kg.contents().contains_key(crate::codec::identity_key(id2)));
    let nk = kg.identity_at(id1)->Some_0.natural_key;
    assert(kg.nat_bound(nk) == Some(id1));
    assert(kg.nat_bound(nk) == Some(id2));
}

/// Key rotation is grace-bounded: after rotating at `tr`, a token signed
/// under the previously active key verifies exactly as before while `now`
/// is inside the grace period, and fails with `Invalid` — at the signature
/// check, before any storage round-trip — once the grace period has
/// elapsed.
pub proof fn law_rotation_grace<S: Storage>(
    pre: Keygate<S>,
    post: Keygate<S>,
    material: u64,
    tr: u64,
    token: Seq<u8>,
    now: u64,
)
    requires
        pre.wf(),
        post.contents() == pre.contents(),
        post.key_manager().model() == pre.key_manager().model().drop_last().push(
            retire(pre.key_manager().active(), tr),
        ).push(
            KeyRecord {
                key_id: pre.key_manager().spec_next_key_id(),
                material,
                activated_at: tr,
                retired_at: None,
            },
        ),
        post.key_manager().grace() == pre.key_manager().grace(),
        dec_token(token) matches Some(t) && t.key_id == pre.key_manager().active().key_id,
    ensures
        (now as int) < tr + pre.key_manager().grace() ==> post.verify_outcome(token, now)
            == pre.verify_outcome(token, now),
        (now as int) >= tr + pre.key_manager().grace() ==> post.verify_outcome(token, now)
            == Err::<u64, _>(KeygateError::Invalid),
{
    let t = dec_token(token)->Some_0;
    let kid = t.key_id;
    let m0 = pre.key_manager().model();
    let active = pre.key_manager().active();
    let retired = retire(active, tr);
    let fresh = KeyRecord {
        key_id: pre.key_manager().spec_next_key_id(),
        material,
        activated_at: tr,
        retired_at: None,
    };
    let m1 = m0.drop_last().push(retired).push(fresh);
    assert(m0[m0.len() - 1].key_id < pre.key_manager().spec_next_key_id());
    assert(active.key_id < pre.key_manager().spec_next_key_id());
    assert(fresh.key_id != kid);
    assert(m1.last() == fresh);
    assert(m1.drop_last() =~= m0.drop_last().push(retired));
    assert(crate::keys::find_key(m1, kid) == crate::keys::find_key(m1.drop_last(), kid));
    assert(m1.drop_last().last() == retired);
    assert(retired.key_id == kid);
    assert(crate::keys::find_key(m1.drop_last(), kid) == Some(retired));
    assert(crate::keys::find_key(m1, kid) == Some(retired));
    pre.key_manager().lemma_active_accepted(now);
    assert(pre.key_manager().accepts(kid, now) == Some(active.material));
    if (now as int) < tr + pre.key_manager().grace() {
        assert(post.key_manager().accepts(kid, now) == Some(active.material));
        assert(post.session_at(t.session_id) == pre.session_at(t.session_id));
        if post.session_at(t.session_id) is Some {
            let s = post.session_at(t.session_id)->Some_0;
            assert(post.identity_at(s.identity_id) == pre.identity_at(s.identity_id));
        }
    } else {
        assert(post.key_manager().accepts(kid, now) is None);
    }
}

/// Once an identity is not `active`, verifying any token bound to it never
/// reports a valid identity; when every earlier check passes the outcome
/// is exactly `IdentityDisabled`.
pub proof fn law_disabled_identity<S: Storage>(kg: Keygate<S>, token: Seq<u8>, now: u64, id: u64)
    requires
        kg.wf(),
        kg.identity_at(id) matches Some(v) && v.status != Status::Active,
        dec_token(token) matches Some(t) && t.identity_id == id,
    ensures
        !(kg.verify_outcome(token, now) is Ok),
        (verifiable_until_status(kg, token, now)) ==> kg.verify_outcome(token, now) == Err::<
            u64,
            _,
        >(KeygateError::IdentityDisabled),
{
}

/// Every check `verify` makes before it consults the owning identity's
/// status: parse, key acceptance, tag, time bounds, session lookup, field
/// agreement, revocation.
pub open spec fn verifiable_until_status<S: Storage>(
    kg: Keygate<S>,
    token: Seq<u8>,
    now: u64,
) -> bool {
    &&& dec_token(token) matches Some(t)
    &&& kg.key_manager().accepts(dec_token(token)->Some_0.key_id, now) matches Some(m) && (
    dec_token(token)->Some_0).tag == tag_of(m, token_payload(dec_token(token)->Some_0))
    &&& dec_token(token)->Some_0.issued_at <= now < dec_token(token)->Some_0.expires_at
    &&& kg.session_at(dec_token(token)->Some_0.session_id) matches Some(s) && s.identity_id
        == dec_token(token)->Some_0.identity_id && s.issued_at == dec_token(
        token,
    )->Some_0.issued_at && s.expires_at == dec_token(token)->Some_0.expires_at && s.key_id
        == dec_token(token)->Some_0.key_id && !s.revoked
}

} // verus!
