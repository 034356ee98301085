//! The administrative capability set: operations over arbitrary
//! identities — registration, status management, enumeration, bulk
//! revocation, key rotation.
//!
//! A transport layer binds this set to a separately addressable, separately
//! authenticated surface; handing a caller this module's functions is what
//! grants administrative capability.  The partition from
//! [`crate::public_api`] is by construction: nothing reachable from the
//! public set takes an arbitrary identity identifier.

use crate::codec::{Identity, Session, Status};
use crate::engine::{is_transient, Keygate};
use crate::errors::KeygateError;
use crate::keys::KeyRecord;
use crate::storage::Storage;
use vstd::prelude::*;

verus! {

/// Registers a new identity under a natural key; `Conflict` exactly when
/// the natural key is already claimed.
pub fn create_identity<S: Storage>(
    kg: &mut Keygate<S>,
    natural_key: Vec<u8>,
    attributes: Vec<(Vec<u8>, Vec<u8>)>,
    now: u64,
) -> (r: Result<Identity, KeygateError>)
    requires
        old(kg).wf(),
        old(kg).spec_next_identity_id() < 0xffff_ffff_ffff_ffff,
    ensures
        final (kg).wf(),
        final (kg).key_manager() == old(kg).key_manager(),
        forall|sid: u64| final (kg).session_at(sid) == old(kg).session_at(sid),
        match r {
            Ok(idn) => {
                &&& old(kg).nat_bound(natural_key@) is None
                &&& final (kg).identity_at(idn.id) == Some(idn@)
                &&& final (kg).nat_bound(natural_key@) == Some(idn.id)
                &&& idn@.natural_key == natural_key@ && idn@.status == Status::Active
                    && idn@.created_at == now
                &&& forall|i: u64|
                    i != idn.id ==> final (kg).identity_at(i) == old(kg).identity_at(i)
            },
            Err(e) => if e == KeygateError::Conflict {
                old(kg).nat_bound(natural_key@) is Some && *final (kg) == *old(kg)
            } else {
                is_transient(e) && forall|i: u64|
                    final (kg).identity_at(i) == old(kg).identity_at(i)
            },
        },
{
    kg.create(natural_key, attributes, now)
}

/// Reads any identity by identifier.
pub fn get_identity<S: Storage>(kg: &Keygate<S>, id: u64) -> (r: Result<Identity, KeygateError>)
    requires
        kg.wf(),
    ensures
        match r {
            Ok(idn) => kg.identity_at(id) == Some(idn@) && idn.id == id,
            Err(e) => if e == KeygateError::NotFound {
                kg.identity_at(id) is None
            } else {
                is_transient(e)
            },
        },
{
    kg.get(id)
}

/// Looks any identity up by its natural key.
pub fn find_identity<S: Storage>(kg: &Keygate<S>, natural_key: &[u8]) -> (r: Result<
    Identity,
    KeygateError,
>)
    requires
        kg.wf(),
    ensures
        match r {
            Ok(idn) => {
                &&& kg.nat_bound(natural_key@) == Some(idn.id)
                &&& kg.identity_at(idn.id) == Some(idn@)
                &&& idn@.natural_key == natural_key@
            },
            Err(e) => if e == KeygateError::NotFound {
                kg.nat_bound(natural_key@) is None || kg.identity_at(
                    kg.nat_bound(natural_key@)->Some_0,
                ) is None
            } else {
                is_transient(e)
            },
        },
{
    kg.find_by_natural_key(natural_key)
}

/// Enumerates every stored identity, in ascending identifier order.
pub fn list_identities<S: Storage>(kg: &Keygate<S>) -> (r: Result<Vec<Identity>, KeygateError>)
    requires
        kg.wf(),
    ensures
        match r {
            Ok(ids) => {
                &&& forall|j: int|
                    0 <= j < ids@.len() ==> kg.identity_at((#[trigger] ids@[j]).id) == Some(
                        ids@[j]@,
                    )
                &&& forall|id: u64|
                    #[trigger] kg.identity_at(id) is Some ==> exists|j: int|
                        0 <= j < ids@.len() && (#[trigger] ids@[j]).id == id
                &&& forall|j: int, k: int|
                    0 <= j < k < ids@.len() ==> (#[trigger] ids@[j]).id < (#[trigger] ids@[k]).id
            },
            Err(e) => is_transient(e),
        },
{
    kg.list_identities()
}

/// Changes any identity's lifecycle status, monotonically toward
/// `Deleted`.
pub fn update_status<S: Storage>(kg: &mut Keygate<S>, id: u64, status: Status) -> (r: Result<
    (),
    KeygateError,
>)
    requires
        old(kg).wf(),
    ensures
        final (kg).wf(),
        final (kg).key_manager() == old(kg).key_manager(),
        forall|sid: u64| final (kg).session_at(sid) == old(kg).session_at(sid),
        forall|nk: Seq<u8>| final (kg).nat_bound(nk) == old(kg).nat_bound(nk),
        match r {
            Ok(_) => {
                &&& old(kg).identity_at(id) matches Some(v) && crate::codec::status_rank(v.status)
                    <= crate::codec::status_rank(status)
                &&& final (kg).identity_at(id) == Some(
                    crate::codec::IdentityV { status, ..old(kg).identity_at(id)->Some_0 },
                )
                &&& forall|i: u64| i != id ==> final (kg).identity_at(i) == old(kg).identity_at(i)
            },
            Err(e) => if e == KeygateError::NotFound {
                old(kg).identity_at(id) is None && *final (kg) == *old(kg)
            } else if e == KeygateError::InvalidTransition {
                &&& old(kg).identity_at(id) matches Some(v) && crate::codec::status_rank(status)
                    < crate::codec::status_rank(v.status)
                &&& *final (kg) == *old(kg)
            } else {
                is_transient(e) && final (kg).contents() == old(kg).contents()
            },
        },
{
    kg.update_status(id, status)
}

/// Revokes any session by identifier.
pub fn revoke_session<S: Storage>(kg: &mut Keygate<S>, session_id: u64) -> (r: Result<
    (),
    KeygateError,
>)
    requires
        old(kg).wf(),
    ensures
        final (kg).wf(),
        final (kg).key_manager() == old(kg).key_manager(),
        forall|i: u64| final (kg).identity_at(i) == old(kg).identity_at(i),
        forall|nk: Seq<u8>| final (kg).nat_bound(nk) == old(kg).nat_bound(nk),
        match r {
            Ok(_) => {
                &&& old(kg).session_at(session_id) is Some
                &&& final (kg).session_at(session_id) == Some(
                    Session { revoked: true, ..old(kg).session_at(session_id)->Some_0 },
                )
                &&& forall|sid: u64|
                    sid != session_id ==> final (kg).session_at(sid) == old(kg).session_at(sid)
                &&& (old(kg).session_at(session_id)->Some_0.revoked ==> final (kg).contents()
                    == old(kg).contents())
            },
            Err(e) => if e == KeygateError::NotFound {
                old(kg).session_at(session_id) is None && *final (kg) == *old(kg)
            } else {
                is_transient(e) && final (kg).contents() == old(kg).contents()
            },
        },
{
    kg.revoke(session_id)
}

/// Revokes every non-expired session of any identity; reports how many.
pub fn revoke_all_sessions<S: Storage>(kg: &mut Keygate<S>, identity_id: u64, now: u64) -> (r:
    Result<u64, KeygateError>)
    requires
        old(kg).wf(),
    ensures
        final (kg).wf(),
        final (kg).key_manager() == old(kg).key_manager(),
        forall|i: u64| final (kg).identity_at(i) == old(kg).identity_at(i),
        forall|nk: Seq<u8>| final (kg).nat_bound(nk) == old(kg).nat_bound(nk),
        match r {
            Ok(count) => {
                &&& forall|sid: u64|
                    old(kg).revoke_all_eligible(identity_id, now, sid) ==> final (kg).session_at(
                        sid,
                    ) == Some(Session { revoked: true, ..old(kg).session_at(sid)->Some_0 })
                &&& forall|sid: u64|
                    !old(kg).revoke_all_eligible(identity_id, now, sid) ==> final (kg).session_at(
                        sid,
                    ) == old(kg).session_at(sid)
                &&& count == old(kg).count_eligible(
                    identity_id,
                    now,
                    old(kg).spec_next_session_id() as nat,
                )
            },
            Err(e) => is_transient(e),
        },
{
    kg.revoke_all(identity_id, now)
}

/// Rotates the signing key with caller-supplied fresh material.
pub fn rotate_signing_key<S: Storage>(kg: &mut Keygate<S>, material: u64, now: u64) -> (r: u64)
    requires
        old(kg).wf(),
        old(kg).key_manager().spec_next_key_id() < 0xffff_ffff_ffff_ffff,
    ensures
        final (kg).wf(),
        final (kg).contents() == old(kg).contents(),
        r == old(kg).key_manager().spec_next_key_id(),
        final (kg).key_manager().model() == old(kg).key_manager().model().drop_last().push(
            crate::keys::retire(old(kg).key_manager().active(), now),
        ).push(KeyRecord { key_id: r, material, activated_at: now, retired_at: None }),
        final (kg).key_manager().grace() == old(kg).key_manager().grace(),
{
    kg.rotate(material, now)
}

} // verus!
