//! The public capability set: self-service operations scoped to the
//! caller's own identity.
//!
//! A transport layer binds this set to its own separately authenticated
//! surface and hands in the authenticated caller's identifier; the engine
//! performs no authorization itself.  Nothing here takes an arbitrary
//! identity identifier to act on, so a caller of this set cannot escalate
//! by naming someone else's identity: the partition from [`crate::admin_api`]
//! is by construction, not by a runtime check.

use crate::codec::{dec_token, token_payload, Identity, Session, Status};
use crate::engine::{is_transient, Issued, Keygate};
use crate::errors::KeygateError;
use crate::keys::tag_of;
use crate::storage::Storage;
use vstd::prelude::*;

verus! {

/// Reads the caller's own identity record.
pub fn read_own_identity<S: Storage>(kg: &Keygate<S>, caller_id: u64) -> (r: Result<
    Identity,
    KeygateError,
>)
    requires
        kg.wf(),
    ensures
        match r {
            Ok(idn) => kg.identity_at(caller_id) == Some(idn@) && idn.id == caller_id,
            Err(e) => if e == KeygateError::NotFound {
                kg.identity_at(caller_id) is None
            } else {
                is_transient(e)
            },
        },
{
    kg.get(caller_id)
}

/// Issues a session for the caller's own identity with an explicit
/// lifetime.
pub fn issue_own<S: Storage>(kg: &mut Keygate<S>, caller_id: u64, ttl: u64, now: u64) -> (r: Result<
    Issued,
    KeygateError,
>)
    requires
        old(kg).wf(),
        old(kg).spec_next_session_id() < 0xffff_ffff_ffff_ffff,
        now + ttl <= 0xffff_ffff_ffff_ffff,
    ensures
        final (kg).wf(),
        final (kg).key_manager() == old(kg).key_manager(),
        forall|i: u64| final (kg).identity_at(i) == old(kg).identity_at(i),
        forall|nk: Seq<u8>| final (kg).nat_bound(nk) == old(kg).nat_bound(nk),
        match r {
            Ok(iss) => {
                &&& old(kg).identity_at(caller_id) matches Some(v) && v.status
                    == Status::Active
                &&& iss.session.identity_id == caller_id
                &&& iss.session.issued_at == now && iss.session.expires_at == now + ttl
                &&& final (kg).session_at(iss.session.session_id) == Some(iss.session)
                &&& ttl > 0 ==> final (kg).verify_outcome(iss.token@, now) == Ok::<
                    u64,
                    KeygateError,
                >(caller_id)
            },
            Err(e) => if e == KeygateError::NotFound {
                old(kg).identity_at(caller_id) is None
            } else if e == KeygateError::IdentityDisabled {
                old(kg).identity_at(caller_id) matches Some(v) && v.status
                    != Status::Active
            } else {
                is_transient(e)
            },
        },
{
    kg.issue(caller_id, ttl, now)
}

/// Issues a session for the caller's own identity with the configured
/// default lifetime.
pub fn issue_own_default<S: Storage>(kg: &mut Keygate<S>, caller_id: u64, now: u64) -> (r: Result<
    Issued,
    KeygateError,
>)
    requires
        old(kg).wf(),
        old(kg).spec_next_session_id() < 0xffff_ffff_ffff_ffff,
        now + old(kg).spec_default_ttl() <= 0xffff_ffff_ffff_ffff,
    ensures
        final (kg).wf(),
        final (kg).key_manager() == old(kg).key_manager(),
        forall|i: u64| final (kg).identity_at(i) == old(kg).identity_at(i),
        forall|nk: Seq<u8>| final (kg).nat_bound(nk) == old(kg).nat_bound(nk),
        match r {
            Ok(iss) => {
                &&& iss.session.identity_id == caller_id
                &&& iss.session.expires_at == now + old(kg).spec_default_ttl()
                &&& final (kg).session_at(iss.session.session_id) == Some(iss.session)
                &&& old(kg).spec_default_ttl() > 0 ==> final (kg).verify_outcome(iss.token@, now)
                    == Ok::<u64, KeygateError>(caller_id)
            },
            Err(e) => if e == KeygateError::NotFound {
                old(kg).identity_at(caller_id) is None
            } else if e == KeygateError::IdentityDisabled {
                old(kg).identity_at(caller_id) matches Some(v) && v.status
                    != Status::Active
            } else {
                is_transient(e)
            },
        },
{
    let ttl = kg.default_ttl();
    kg.issue(caller_id, ttl, now)
}

/// Verifies a presented token.  As with [`Keygate::verify`], a transient
/// error can only arise at the storage round-trip; every earlier check's
/// outcome is unconditional.
pub fn verify_token<S: Storage>(kg: &Keygate<S>, token: &[u8], now: u64) -> (r: Result<
    u64,
    KeygateError,
>)
    requires
        kg.wf(),
    ensures
        r == kg.verify_outcome(token@, now) || (r matches Err(e) && is_transient(e)),
        dec_token(token@) is None ==> r == Err::<u64, KeygateError>(KeygateError::Invalid),
        dec_token(token@) matches Some(t) ==> {
            &&& kg.key_manager().accepts(t.key_id, now) is None ==> r == Err::<u64, KeygateError>(
                KeygateError::Invalid,
            )
            &&& kg.key_manager().accepts(t.key_id, now) matches Some(m) ==> {
                &&& t.tag != tag_of(m, token_payload(t)) ==> r == Err::<u64, KeygateError>(
                    KeygateError::Invalid,
                )
                &&& t.tag == tag_of(m, token_payload(t)) ==> {
                    &&& now >= t.expires_at ==> r == Err::<u64, KeygateError>(KeygateError::Expired)
                    &&& now < t.expires_at && now < t.issued_at ==> r == Err::<u64, KeygateError>(
                        KeygateError::Invalid,
                    )
                }
            }
        },
{
    kg.verify(token, now)
}

/// Revokes one of the caller's own sessions.  A session owned by someone
/// else is reported `NotFound`, exactly as an absent one: this surface
/// does not reveal other identities' sessions.
pub fn revoke_own<S: Storage>(kg: &mut Keygate<S>, caller_id: u64, session_id: u64) -> (r: Result<
    (),
    KeygateError,
>)
    requires
        old(kg).wf(),
    ensures
        final (kg).wf(),
        final (kg).key_manager() == old(kg).key_manager(),
        forall|i: u64| final (kg).identity_at(i) == old(kg).identity_at(i),
        forall|nk: Seq<u8>| final (kg).nat_bound(nk) == old(kg).nat_bound(nk),
        match r {
            Ok(_) => {
                &&& old(kg).session_at(session_id) matches Some(s) && s.identity_id == caller_id
                &&& final (kg).session_at(session_id) == Some(
                    Session { revoked: true, ..old(kg).session_at(session_id)->Some_0 },
                )
                &&& forall|sid: u64|
                    sid != session_id ==> final (kg).session_at(sid) == old(kg).session_at(sid)
            },
            Err(e) => if e == KeygateError::NotFound {
                &&& (old(kg).session_at(session_id) is None || old(
                    kg,
                ).session_at(session_id)->Some_0.identity_id != caller_id)
                &&& final (kg).contents() == old(kg).contents()
            } else {
                is_transient(e) && final (kg).contents() == old(kg).contents()
            },
        },
{
    let s = match kg.get_session(session_id) {
        Err(e) => {
            return Err(e);
        },
        Ok(s) => s,
    };
    if s.identity_id != caller_id {
        return Err(KeygateError::NotFound);
    }
    kg.revoke(session_id)
}

} // verus!
