//! The identity store and the session/token engine, one struct over a
//! pluggable storage backend.
//!
//! All durable state lives in the backend as single-key records: identity
//! records, session records, and a natural-key index enforcing uniqueness
//! with check-then-set semantics.  The engine keeps no in-process session
//! registry; every verification reads the backend, so several engine
//! instances may share one backend.  The only in-memory mutable state is
//! the key manager.
//!
//! Mutations are ordered so that the write which makes the new state
//! observable comes last: a session record is durable before its token is
//! returned, and a natural key is claimed in the index before its identity
//! record is written — an abandoned `create` can at worst leave the key
//! claimed, never two identities under one natural key.

use crate::codec::{
    attrs_view, dec_identity, dec_index, dec_session, dec_token, decode_identity, decode_index,
    decode_session, decode_token, enc_identity, encode_payload, enc_index, enc_session, enc_token, encode_identity,
    encode_index, encode_session, encode_token, identity_encodable, identity_key,
    identity_key_bytes, lemma_identity_round_trip, lemma_index_round_trip, lemma_keys_injective,
    lemma_session_canonical, lemma_session_round_trip, lemma_token_round_trip,
    lemma_vectors_encodable, natural_key_key,
    natural_key_key_bytes, session_key, session_key_bytes, status_rank, token_payload, Identity,
    IdentityV, Session, Status, Token,
};
use crate::errors::KeygateError;
use crate::keys::{compute_tag, tag_of, KeyManager, KeyRecord};
use crate::storage::{Storage, StorageError};
use vstd::prelude::*;

verus! {

/// How a backend failure surfaces to engine callers.
pub open spec fn storage_failure(e: StorageError) -> KeygateError {
    match e {
        StorageError::Unavailable => KeygateError::Unavailable,
        StorageError::Timeout => KeygateError::Timeout,
    }
}

/// The retryable error kinds: a transient backend fault, nothing decided.
pub open spec fn is_transient(e: KeygateError) -> bool {
    e == KeygateError::Unavailable || e == KeygateError::Timeout
}

fn store_err(e: StorageError) -> (r: KeygateError)
    ensures
        r == storage_failure(e),
{
    match e {
        StorageError::Unavailable => KeygateError::Unavailable,
        StorageError::Timeout => KeygateError::Timeout,
    }
}

/// The shape a backend's contents must have for an engine with the given
/// counters to operate on it: exactly the storage half of [`Keygate::wf`].
/// Every operation of an engine preserves it, so any contents a `Keygate`
/// produced satisfy it under counters at least as large as every
/// identifier that engine assigned.  [`Keygate::attach`] asks for it to
/// resume over a durable backend that an earlier engine instance wrote.
pub open spec fn store_invariant(
    contents: Map<Seq<u8>, Seq<u8>>,
    next_identity_id: u64,
    next_session_id: u64,
) -> bool {
    &&& forall|k: Seq<u8>|
        #[trigger] contents.contains_key(k) ==> contents[k].len() <= 0xffff_ffff_ffff_ffff
    &&& forall|id: u64|
        contents.contains_key(#[trigger] identity_key(id)) ==> (dec_identity(
            contents[identity_key(id)],
        ) matches Some(v) && v.id == id && identity_encodable(v) && contents.contains_key(
            natural_key_key(v.natural_key),
        ) && dec_index(contents[natural_key_key(v.natural_key)]) == Some(id))
    &&& forall|nk: Seq<u8>|
        contents.contains_key(#[trigger] natural_key_key(nk)) ==> (dec_index(
            contents[natural_key_key(nk)],
        ) matches Some(id) && id < next_identity_id)
    &&& forall|nk: Seq<u8>|
        contents.contains_key(#[trigger] natural_key_key(nk)) ==> (dec_index(
            contents[natural_key_key(nk)],
        ) matches Some(id) ==> (contents.contains_key(identity_key(id)) ==> (dec_identity(
            contents[identity_key(id)],
        ) matches Some(v) ==> v.natural_key == nk)))
    &&& forall|id: u64|
        id >= next_identity_id ==> !contents.contains_key(#[trigger] identity_key(id))
    &&& forall|sid: u64|
        sid >= next_session_id ==> !contents.contains_key(#[trigger] session_key(sid))
    &&& forall|sid: u64|
        contents.contains_key(#[trigger] session_key(sid)) ==> (dec_session(
            contents[session_key(sid)],
        ) matches Some(s) && s.session_id == sid && s.issued_at <= s.expires_at
            && contents.contains_key(identity_key(s.identity_id)))
}

/// The identity/session credential engine over a storage backend `S`.
pub struct Keygate<S: Storage> {
    store: S,
    keys: KeyManager,
    next_identity_id: u64,
    next_session_id: u64,
    default_ttl: u64,
}

impl<S: Storage> Keygate<S> {
    /// The backend's abstract contents.
    pub closed spec fn contents(self) -> Map<Seq<u8>, Seq<u8>> {
        self.store.contents()
    }

    /// The in-memory key manager.
    pub closed spec fn key_manager(self) -> KeyManager {
        self.keys
    }

    /// The identifier the next `create` will assign.
    pub closed spec fn spec_next_identity_id(self) -> u64 {
        self.next_identity_id
    }

    /// The identifier the next `issue` will assign.
    pub closed spec fn spec_next_session_id(self) -> u64 {
        self.next_session_id
    }

    /// The ttl used when a caller asks for the configured default.
    pub closed spec fn spec_default_ttl(self) -> u64 {
        self.default_ttl
    }

    /// The identity record stored under `id`, decoded.
    pub open spec fn identity_at(self, id: u64) -> Option<IdentityV> {
        if self.contents().contains_key(identity_key(id)) {
            dec_identity(self.contents()[identity_key(id)])
        } else {
            None
        }
    }

    /// The session record stored under `sid`, decoded.
    pub open spec fn session_at(self, sid: u64) -> Option<Session> {
        if self.contents().contains_key(session_key(sid)) {
            dec_session(self.contents()[session_key(sid)])
        } else {
            None
        }
    }

    /// The identity identifier the natural-key index binds `nk` to.
    pub open spec fn nat_bound(self, nk: Seq<u8>) -> Option<u64> {
        if self.contents().contains_key(natural_key_key(nk)) {
            dec_index(self.contents()[natural_key_key(nk)])
        } else {
            None
        }
    }

    /// The engine's well-formedness invariant: every constructor
    /// establishes it and every operation preserves it.
    ///
    /// - every stored payload is bounded and decodes;
    /// - an identity record's id matches its key, its sizes fit back into
    ///   an encoding, and the index binds its natural key to it — so no two
    ///   identities ever share a natural key;
    /// - the index only binds to already-allocated identifiers, and an
    ///   existing target record carries exactly that natural key;
    /// - unallocated identity and session identifiers are unbound;
    /// - a session record's id matches its key, its bounds are ordered, and
    ///   its owning identity record exists.
    pub open spec fn wf(self) -> bool {
        &&& self.key_manager().wf()
        &&& forall|k: Seq<u8>|
            #[trigger] self.contents().contains_key(k) ==> self.contents()[k].len()
                <= 0xffff_ffff_ffff_ffff
        &&& forall|id: u64|
            self.contents().contains_key(#[trigger] identity_key(id)) ==> (self.identity_at(id)
                matches Some(v) && v.id == id && identity_encodable(v) && self.nat_bound(
                v.natural_key,
            ) == Some(id))
        &&& forall|nk: Seq<u8>|
            self.contents().contains_key(#[trigger] natural_key_key(nk)) ==> (self.nat_bound(nk)
                matches Some(id) && id < self.spec_next_identity_id())
        &&& forall|nk: Seq<u8>|
            #[trigger] self.nat_bound(nk) matches Some(id) ==> (self.identity_at(id) matches Some(
            v) ==> v.natural_key == nk)
        &&& forall|id: u64|
            id >= self.spec_next_identity_id() ==> !self.contents().contains_key(
                #[trigger] identity_key(id),
            )
        &&& forall|sid: u64|
            sid >= self.spec_next_session_id() ==> !self.contents().contains_key(
                #[trigger] session_key(sid),
            )
        &&& forall|sid: u64|
            self.contents().contains_key(#[trigger] session_key(sid)) ==> (self.session_at(sid)
                matches Some(s) && s.session_id == sid && s.issued_at <= s.expires_at
                && self.contents().contains_key(identity_key(s.identity_id)))
    }

    /// A fresh engine over an empty backend, with one active signing key
    /// made from caller-supplied material, and the configured default token
    /// ttl and key-rotation grace period.
    pub fn new(store: S, default_ttl: u64, grace_period: u64, key_material: u64, now: u64) -> (r:
        Keygate<S>)
        requires
            store.contents() == Map::<Seq<u8>, Seq<u8>>::empty(),
        ensures
            r.wf(),
            r.contents() == Map::<Seq<u8>, Seq<u8>>::empty(),
            r.key_manager().wf(),
            r.key_manager().grace() == grace_period,
            r.key_manager().model() == seq![
                KeyRecord { key_id: 0u64, material: key_material, activated_at: now, retired_at: None },
            ],
            r.spec_next_identity_id() == 0,
            r.spec_next_session_id() == 0,
            r.spec_default_ttl() == default_ttl,
    {
        let keys = KeyManager::new(grace_period, key_material, now);
        Keygate { store, keys, next_identity_id: 0, next_session_id: 0, default_ttl }
    }

    /// Resumes over a durable backend that an earlier engine instance
    /// wrote: the caller supplies counters bounding every identifier ever
    /// assigned there, and vouches — this is the verified/unverified
    /// boundary for durable state — that the contents are engine-written,
    /// which [`lemma_wf_store_invariant`] shows is enough.  Key material is
    /// process-lifetime and never persisted, so tokens signed by the
    /// earlier instance verify only if the same material is supplied
    /// again; otherwise they fail as `Invalid`.
    pub fn attach(
        store: S,
        next_identity_id: u64,
        next_session_id: u64,
        default_ttl: u64,
        grace_period: u64,
        key_material: u64,
        now: u64,
    ) -> (r: Keygate<S>)
        requires
            store_invariant(store.contents(), next_identity_id, next_session_id),
        ensures
            r.wf(),
            r.contents() == store.contents(),
            r.key_manager().grace() == grace_period,
            r.key_manager().model() == seq![
                KeyRecord { key_id: 0u64, material: key_material, activated_at: now, retired_at: None },
            ],
            r.spec_next_identity_id() == next_identity_id,
            r.spec_next_session_id() == next_session_id,
            r.spec_default_ttl() == default_ttl,
    {
        let keys = KeyManager::new(grace_period, key_material, now);
        let kg = Keygate { store, keys, next_identity_id, next_session_id, default_ttl };
        proof {
            let c = kg.contents();
            assert forall|id: u64|
                c.contains_key(#[trigger] identity_key(id)) implies (kg.identity_at(id)
                matches Some(v) && v.id == id && identity_encodable(v) && kg.nat_bound(
                v.natural_key,
            ) == Some(id)) by {}
            assert forall|nk: Seq<u8>|
                (#[trigger] kg.nat_bound(nk) matches Some(id) ==> (kg.identity_at(id)
                matches Some(v) ==> v.natural_key == nk)) by {
                if kg.nat_bound(nk) is Some {
                    assert(c.contains_key(natural_key_key(nk)));
                }
            }
        }
        kg
    }

    /// Hands the backend back, for instance to persist it or to re-attach
    /// later; what it holds is exactly what the engine last observed.
    pub fn into_store(self) -> (r: S)
        ensures
            r.contents() == self.contents(),
    {
        self.store
    }

    /// The configured default token lifetime.
    pub fn default_ttl(&self) -> (r: u64)
        ensures
            r == self.spec_default_ttl(),
    {
        self.default_ttl
    }

    /// The identity identifier the next registration would be assigned.
    pub fn next_identity_id(&self) -> (r: u64)
        ensures
            r == self.spec_next_identity_id(),
    {
        self.next_identity_id
    }

    /// The session identifier the next issuance would be assigned.
    pub fn next_session_id(&self) -> (r: u64)
        ensures
            r == self.spec_next_session_id(),
    {
        self.next_session_id
    }

    /// The key identifier the next rotation would assign.
    pub fn next_key_id(&self) -> (r: u64)
        ensures
            r == self.key_manager().spec_next_key_id(),
    {
        self.keys.next_key_id()
    }

    /// What an engine holds always satisfies the condition [`Keygate::attach`]
    /// asks for, under its own counters: re-attaching to engine-written
    /// contents is sound.
    pub proof fn lemma_wf_store_invariant(self)
        requires
            self.wf(),
        ensures
            store_invariant(
                self.contents(),
                self.spec_next_identity_id(),
                self.spec_next_session_id(),
            ),
    {
        let c = self.contents();
        assert forall|id: u64|
            c.contains_key(#[trigger] identity_key(id)) implies (dec_identity(
            c[identity_key(id)],
        ) matches Some(v) && v.id == id && identity_encodable(v) && c.contains_key(
            natural_key_key(v.natural_key),
        ) && dec_index(c[natural_key_key(v.natural_key)]) == Some(id)) by {
            assert(self.identity_at(id) is Some);
            let v = self.identity_at(id)->Some_0;
            assert(self.nat_bound(v.natural_key) == Some(id));
        }
        assert forall|nk: Seq<u8>|
            c.contains_key(#[trigger] natural_key_key(nk)) implies (dec_index(
            c[natural_key_key(nk)],
        ) matches Some(id) ==> (c.contains_key(identity_key(id)) ==> (dec_identity(
            c[identity_key(id)],
        ) matches Some(v) ==> v.natural_key == nk))) by {
            assert(self.nat_bound(nk) == dec_index(c[natural_key_key(nk)]));
        }
    }

    /// Registers a new identity under a natural key, enforcing uniqueness
    /// with optimistic check-then-set against the index: read the index
    /// key, fail with `Conflict` when it is already claimed, claim it,
    /// re-read to detect a lost race on a concurrent backend, then write
    /// the identity record.  On a best-effort basis over a
    /// non-transactional backend, an abandoned call can leave the natural
    /// key claimed but never a second identity under it.
    pub fn create(&mut self, natural_key: Vec<u8>, attributes: Vec<(Vec<u8>, Vec<u8>)>, now: u64)
        -> (r: Result<Identity, KeygateError>)
        requires
            old(self).wf(),
            old(self).spec_next_identity_id() < 0xffff_ffff_ffff_ffff,
        ensures
            final (self).wf(),
            final (self).key_manager() == old(self).key_manager(),
            final (self).spec_next_session_id() == old(self).spec_next_session_id(),
            final (self).spec_default_ttl() == old(self).spec_default_ttl(),
            forall|sid: u64| final (self).session_at(sid) == old(self).session_at(sid),
            match r {
                Ok(idn) => {
                    &&& old(self).nat_bound(natural_key@) is None
                    &&& idn.id == old(self).spec_next_identity_id()
                    &&& idn@ == IdentityV {
                        id: idn.id,
                        created_at: now,
                        status: Status::Active,
                        natural_key: natural_key@,
                        attributes: attrs_view(attributes@),
                    }
                    &&& final (self).identity_at(idn.id) == Some(idn@)
                    &&& final (self).nat_bound(natural_key@) == Some(idn.id)
                    &&& final (self).spec_next_identity_id() == old(self).spec_next_identity_id()
                        + 1
                    &&& forall|i: u64|
                        i != idn.id ==> final (self).identity_at(i) == old(self).identity_at(i)
                    &&& forall|nk: Seq<u8>|
                        nk != natural_key@ ==> final (self).nat_bound(nk) == old(self).nat_bound(nk)
                },
                Err(e) => if e == KeygateError::Conflict {
                    &&& old(self).nat_bound(natural_key@) is Some
                    &&& *final (self) == *old(self)
                } else {
                    &&& is_transient(e)
                    &&& forall|i: u64| final (self).identity_at(i) == old(self).identity_at(i)
                    &&& forall|nk: Seq<u8>|
                        nk != natural_key@ ==> final (self).nat_bound(nk) == old(self).nat_bound(nk)
                },
            },
    {
        let nk_key = natural_key_key_bytes(natural_key.as_slice());
        match self.store.get(nk_key.as_slice()) {
            Err(e) => {
                return Err(store_err(e));
            },
            Ok(Some(_)) => {
                return Err(KeygateError::Conflict);
            },
            Ok(None) => {},
        }
        let id = self.next_identity_id;
        self.next_identity_id = id + 1;
        proof {
            lemma_keys_injective();
        }
        // claim the natural key first: a lost write here blocks the key,
        // never duplicates an identity
        match self.store.set(nk_key.as_slice(), encode_index(id)) {
            Err(e) => {
                return Err(store_err(e));
            },
            Ok(_) => {},
        }
        proof {
            lemma_index_round_trip(id);
        }
        // re-read: on a shared backend the slot may have been taken by a
        // concurrent registration; exactly one caller proceeds
        match self.store.get(nk_key.as_slice()) {
            Err(e) => {
                proof {
                    lemma_wf_after_claim(*old(self), *self, natural_key@, id);
                }
                return Err(store_err(e));
            },
            Ok(None) => {
                proof {
                    // the claim was just written; a get cannot miss it
                    assert(false);
                }
                return Err(KeygateError::Unavailable);
            },
            Ok(Some(b2)) => {
                match decode_index(b2.as_slice()) {
                    None => {
                        proof {
                            // the claim decodes: it is the index record written above
                            assert(false);
                        }
                        return Err(KeygateError::Corrupt);
                    },
                    Some(bound) => {
                        if bound != id {
                            proof {
                                // sequentially unreachable: the re-read returned our own claim;
                                // on a shared backend this is where a lost race surfaces
                                assert(false);
                            }
                            return Err(KeygateError::Conflict);
                        }
                    },
                }
            },
        }
        let idn = Identity { id, created_at: now, status: Status::Active, natural_key, attributes };
        let rec = encode_identity(&idn);
        proof {
            lemma_vectors_encodable(&idn.natural_key, &idn.attributes);
            assert(identity_encodable(idn@));
            lemma_identity_round_trip(idn@);
            vstd::std_specs::vec::axiom_spec_len(&rec);
        }
        let id_key = identity_key_bytes(id);
        match self.store.set(id_key.as_slice(), rec) {
            Err(e) => {
                proof {
                    lemma_wf_after_claim(*old(self), *self, idn.natural_key@, id);
                }
                return Err(store_err(e));
            },
            Ok(_) => {},
        }
        proof {
            let pre = *old(self);
            let post = *self;
            let nk = idn.natural_key@;
            assert(post.contents() == pre.contents().insert(natural_key_key(nk), enc_index(id)).insert(
                identity_key(id),
                enc_identity(idn@),
            ));
            lemma_wf_after_create(pre, post, nk, id, idn@);
        }
        Ok(idn)
    }

    /// Reads an identity by identifier.
    pub fn get(&self, id: u64) -> (r: Result<Identity, KeygateError>)
        requires
            self.wf(),
        ensures
            match r {
                Ok(idn) => self.identity_at(id) == Some(idn@) && idn.id == id,
                Err(e) => if e == KeygateError::NotFound {
                    self.identity_at(id) is None
                } else {
                    is_transient(e)
                },
            },
    {
        let id_key = identity_key_bytes(id);
        match self.store.get(id_key.as_slice()) {
            Err(e) => Err(store_err(e)),
            Ok(None) => Err(KeygateError::NotFound),
            Ok(Some(b)) => match decode_identity(b.as_slice()) {
                None => {
                    proof {
                        // the invariant says every stored identity record decodes
                        assert(false);
                    }
                    Err(KeygateError::Corrupt)
                },
                Some(idn) => Ok(idn),
            },
        }
    }

    /// Looks an identity up by its natural key.
    pub fn find_by_natural_key(&self, natural_key: &[u8]) -> (r: Result<Identity, KeygateError>)
        requires
            self.wf(),
        ensures
            match r {
                Ok(idn) => {
                    &&& self.nat_bound(natural_key@) == Some(idn.id)
                    &&& self.identity_at(idn.id) == Some(idn@)
                    &&& idn@.natural_key == natural_key@
                },
                Err(e) => if e == KeygateError::NotFound {
                    self.nat_bound(natural_key@) is None || self.identity_at(
                        self.nat_bound(natural_key@)->Some_0,
                    ) is None
                } else {
                    is_transient(e)
                },
            },
    {
        let nk_key = natural_key_key_bytes(natural_key);
        let id = match self.store.get(nk_key.as_slice()) {
            Err(e) => {
                return Err(store_err(e));
            },
            Ok(None) => {
                return Err(KeygateError::NotFound);
            },
            Ok(Some(b)) => match decode_index(b.as_slice()) {
                None => {
                    proof {
                        // the invariant says every stored index record decodes
                        assert(false);
                    }
                    return Err(KeygateError::Corrupt);
                },
                Some(id) => id,
            },
        };
        match self.get(id) {
            Err(e) => Err(e),
            Ok(idn) => Ok(idn),
        }
    }

    /// Changes an identity's lifecycle status.  Transitions are monotonic
    /// toward `Deleted`; an attempt to move backwards — resurrecting a
    /// deleted identity, re-enabling past a disable — fails with
    /// `InvalidTransition` and changes nothing.
    pub fn update_status(&mut self, id: u64, status: Status) -> (r: Result<(), KeygateError>)
        requires
            old(self).wf(),
        ensures
            final (self).wf(),
            final (self).key_manager() == old(self).key_manager(),
            final (self).spec_next_identity_id() == old(self).spec_next_identity_id(),
            final (self).spec_next_session_id() == old(self).spec_next_session_id(),
            final (self).spec_default_ttl() == old(self).spec_default_ttl(),
            forall|sid: u64| final (self).session_at(sid) == old(self).session_at(sid),
            forall|nk: Seq<u8>| final (self).nat_bound(nk) == old(self).nat_bound(nk),
            match r {
                Ok(_) => {
                    &&& old(self).identity_at(id) matches Some(v) && status_rank(v.status)
                        <= status_rank(status) && final (self).identity_at(id) == Some(
                        IdentityV { status, ..v },
                    )
                    &&& forall|i: u64|
                        i != id ==> final (self).identity_at(i) == old(self).identity_at(i)
                },
                Err(e) => if e == KeygateError::NotFound {
                    old(self).identity_at(id) is None && *final (self) == *old(self)
                } else if e == KeygateError::InvalidTransition {
                    &&& old(self).identity_at(id) matches Some(v) && status_rank(status)
                        < status_rank(v.status)
                    &&& *final (self) == *old(self)
                } else {
                    is_transient(e) && final (self).contents() == old(self).contents()
                },
            },
    {
        let id_key = identity_key_bytes(id);
        let idn = match self.store.get(id_key.as_slice()) {
            Err(e) => {
                return Err(store_err(e));
            },
            Ok(None) => {
                return Err(KeygateError::NotFound);
            },
            Ok(Some(b)) => match decode_identity(b.as_slice()) {
                None => {
                    proof {
                        // the invariant says every stored identity record decodes
                        assert(false);
                    }
                    return Err(KeygateError::Corrupt);
                },
                Some(idn) => idn,
            },
        };
        if status_rank_exec(status) < status_rank_exec(idn.status) {
            return Err(KeygateError::InvalidTransition);
        }
        let ghost v = idn@;
        let updated = Identity { status, ..idn };
        let rec = encode_identity(&updated);
        proof {
            assert(identity_encodable(v));
            assert(updated@ == IdentityV { status, ..v });
            assert(identity_encodable(updated@));
            lemma_identity_round_trip(updated@);
            vstd::std_specs::vec::axiom_spec_len(&rec);
        }
        match self.store.set(id_key.as_slice(), rec) {
            Err(e) => {
                return Err(store_err(e));
            },
            Ok(_) => {},
        }
        proof {
            lemma_keys_injective();
            lemma_identity_round_trip(updated@);
            let pre = *old(self);
            let post = *self;
            assert(post.contents() == pre.contents().insert(identity_key(id), enc_identity(updated@)));
            lemma_wf_after_update(pre, post, id, updated@);
        }
        Ok(())
    }
}

/// What a successful issuance hands back: the durably recorded session and
/// its signed, transmissible token.  The record is written before the
/// token is returned, never the other way round.
#[derive(Debug)]
pub struct Issued {
    pub session: Session,
    pub token: Vec<u8>,
}

/// The token that signing session `s` under `material` produces.
pub open spec fn sign_token(s: Session, material: u64) -> Token {
    let unsigned = Token {
        session_id: s.session_id,
        identity_id: s.identity_id,
        issued_at: s.issued_at,
        expires_at: s.expires_at,
        key_id: s.key_id,
        tag: 0,
    };
    Token { tag: tag_of(material, token_payload(unsigned)), ..unsigned }
}

impl<S: Storage> Keygate<S> {
    /// What verifying `token` at `now` must report, checked cheapest
    /// first: parse, key acceptance, tag, time bounds, and only then the
    /// storage round-trip for the revocation flag and the identity status.
    pub open spec fn verify_outcome(self, token: Seq<u8>, now: u64) -> Result<u64, KeygateError> {
        match dec_token(token) {
            None => Err(KeygateError::Invalid),
            Some(t) => match self.key_manager().accepts(t.key_id, now) {
                None => Err(KeygateError::Invalid),
                Some(material) => if t.tag != tag_of(material, token_payload(t)) {
                    Err(KeygateError::Invalid)
                } else if now >= t.expires_at {
                    Err(KeygateError::Expired)
                } else if now < t.issued_at {
                    Err(KeygateError::Invalid)
                } else {
                    match self.session_at(t.session_id) {
                        None => Err(KeygateError::Invalid),
                        Some(s) => if s.identity_id != t.identity_id || s.issued_at != t.issued_at
                            || s.expires_at != t.expires_at || s.key_id != t.key_id {
                            Err(KeygateError::Invalid)
                        } else if s.revoked {
                            Err(KeygateError::Revoked)
                        } else {
                            match self.identity_at(s.identity_id) {
                                None => Err(KeygateError::Invalid),
                                Some(v) => if v.status == Status::Active {
                                    Ok(s.identity_id)
                                } else {
                                    Err(KeygateError::IdentityDisabled)
                                },
                            }
                        },
                    }
                },
            },
        }
    }

    /// Whether `sid` is a session `revoke_all(identity_id)` at `now` must
    /// revoke: owned by the identity, not yet revoked, not yet expired.
    pub open spec fn revoke_all_eligible(self, identity_id: u64, now: u64, sid: u64) -> bool {
        self.session_at(sid) matches Some(s) && s.identity_id == identity_id && !s.revoked && now
            < s.expires_at
    }

    /// How many sessions below `n` are eligible.
    pub open spec fn count_eligible(self, identity_id: u64, now: u64, n: nat) -> nat
        decreases n,
    {
        if n == 0 {
            0
        } else {
            self.count_eligible(identity_id, now, (n - 1) as nat) + if self.revoke_all_eligible(
                identity_id,
                now,
                (n - 1) as u64,
            ) {
                1nat
            } else {
                0nat
            }
        }
    }

    /// Issues a session for an existing, active identity: computes the
    /// expiry from `ttl`, signs the payload under the active key, persists
    /// the session record, and only then returns the signed token.
    pub fn issue(&mut self, identity_id: u64, ttl: u64, now: u64) -> (r: Result<
        Issued,
        KeygateError,
    >)
        requires
            old(self).wf(),
            old(self).spec_next_session_id() < 0xffff_ffff_ffff_ffff,
            now + ttl <= 0xffff_ffff_ffff_ffff,
        ensures
            final (self).wf(),
            final (self).key_manager() == old(self).key_manager(),
            final (self).spec_next_identity_id() == old(self).spec_next_identity_id(),
            final (self).spec_default_ttl() == old(self).spec_default_ttl(),
            forall|i: u64| final (self).identity_at(i) == old(self).identity_at(i),
            forall|nk: Seq<u8>| final (self).nat_bound(nk) == old(self).nat_bound(nk),
            match r {
                Ok(iss) => {
                    &&& old(self).identity_at(identity_id) matches Some(v) && v.status
                        == Status::Active
                    &&& iss.session == Session {
                        session_id: old(self).spec_next_session_id(),
                        identity_id,
                        issued_at: now,
                        expires_at: (now + ttl) as u64,
                        revoked: false,
                        key_id: old(self).key_manager().active().key_id,
                    }
                    &&& iss.token@ == enc_token(
                        sign_token(iss.session, old(self).key_manager().active().material),
                    )
                    &&& final (self).session_at(iss.session.session_id) == Some(iss.session)
                    &&& final (self).spec_next_session_id() == old(self).spec_next_session_id() + 1
                    &&& forall|sid: u64|
                        sid != iss.session.session_id ==> final (self).session_at(sid) == old(self).session_at(sid)
                    &&& ttl > 0 ==> final (self).verify_outcome(iss.token@, now) == Ok::<
                        u64,
                        KeygateError,
                    >(identity_id)
                },
                Err(e) => if e == KeygateError::NotFound {
                    old(self).identity_at(identity_id) is None && *final (self) == *old(self)
                } else if e == KeygateError::IdentityDisabled {
                    &&& old(self).identity_at(identity_id) matches Some(v) && v.status
                        != Status::Active
                    &&& *final (self) == *old(self)
                } else {
                    is_transient(e) && final (self).contents() == old(self).contents()
                },
            },
    {
        let idn = match self.get(identity_id) {
            Err(e) => {
                return Err(e);
            },
            Ok(idn) => idn,
        };
        match idn.status {
            Status::Active => {},
            _ => {
                return Err(KeygateError::IdentityDisabled);
            },
        }
        let sid = self.next_session_id;
        self.next_session_id = sid + 1;
        let active = self.keys.active_key();
        let session = Session {
            session_id: sid,
            identity_id,
            issued_at: now,
            expires_at: now + ttl,
            revoked: false,
            key_id: active.key_id,
        };
        let unsigned = Token {
            session_id: sid,
            identity_id,
            issued_at: now,
            expires_at: session.expires_at,
            key_id: active.key_id,
            tag: 0,
        };
        let payload = encode_payload(&unsigned);
        let tag = compute_tag(active.material, payload.as_slice());
        let token = Token { tag, ..unsigned };
        let token_bytes = encode_token(&token);
        let rec = encode_session(&session);
        let s_key = session_key_bytes(sid);
        match self.store.set(s_key.as_slice(), rec) {
            Err(e) => {
                return Err(store_err(e));
            },
            Ok(_) => {},
        }
        proof {
            let pre = *old(self);
            let post = *self;
            lemma_session_round_trip(session);
            lemma_wf_after_session_write(pre, post, sid, session);
            assert(token == sign_token(session, active.material));
            if ttl > 0 {
                lemma_token_round_trip(token);
                assert(dec_token(token_bytes@) == Some(token));
                pre.key_manager().lemma_active_accepted(now);
                assert(post.key_manager().accepts(token.key_id, now) == Some(active.material));
                assert(token_payload(token) == token_payload(unsigned));
                assert(post.session_at(sid) == Some(session));
                assert(post.identity_at(identity_id) == pre.identity_at(identity_id));
                assert(post.verify_outcome(token_bytes@, now) == Ok::<u64, KeygateError>(
                    identity_id,
                ));
            }
        }
        Ok(Issued { session, token: token_bytes })
    }

    /// Verifies a presented token at `now` and reports the owning identity
    /// or the exact reason the token is not acceptable.  A transient
    /// backend failure is surfaced as such and decides nothing — and can
    /// only arise at the storage round-trip: every check before it (parse,
    /// key acceptance, tag, time bounds) is the engine's own and its
    /// outcome is unconditional.
    pub fn verify(&self, token: &[u8], now: u64) -> (r: Result<u64, KeygateError>)
        requires
            self.wf(),
        ensures
            r == self.verify_outcome(token@, now) || (r matches Err(e) && is_transient(e)),
            dec_token(token@) is None ==> r == Err::<u64, KeygateError>(KeygateError::Invalid),
            dec_token(token@) matches Some(t) ==> {
                &&& self.key_manager().accepts(t.key_id, now) is None ==> r == Err::<
                    u64,
                    KeygateError,
                >(KeygateError::Invalid)
                &&& self.key_manager().accepts(t.key_id, now) matches Some(m) ==> {
                    &&& t.tag != tag_of(m, token_payload(t)) ==> r == Err::<u64, KeygateError>(
                        KeygateError::Invalid,
                    )
                    &&& t.tag == tag_of(m, token_payload(t)) ==> {
                        &&& now >= t.expires_at ==> r == Err::<u64, KeygateError>(
                            KeygateError::Expired,
                        )
                        &&& now < t.expires_at && now < t.issued_at ==> r == Err::<
                            u64,
                            KeygateError,
                        >(KeygateError::Invalid)
                    }
                }
            },
    {
        let t = match decode_token(token) {
            None => {
                return Err(KeygateError::Invalid);
            },
            Some(t) => t,
        };
        let material = match self.keys.accepted_material(t.key_id, now) {
            None => {
                return Err(KeygateError::Invalid);
            },
            Some(m) => m,
        };
        let payload = encode_payload(&t);
        let tag = compute_tag(material, payload.as_slice());
        if t.tag != tag {
            return Err(KeygateError::Invalid);
        }
        if now >= t.expires_at {
            return Err(KeygateError::Expired);
        }
        if now < t.issued_at {
            return Err(KeygateError::Invalid);
        }
        let s_key = session_key_bytes(t.session_id);
        let s = match self.store.get(s_key.as_slice()) {
            Err(e) => {
                return Err(store_err(e));
            },
            Ok(None) => {
                return Err(KeygateError::Invalid);
            },
            Ok(Some(b)) => match decode_session(b.as_slice()) {
                None => {
                    proof {
                        // the invariant says every stored session record decodes
                        assert(false);
                    }
                    return Err(KeygateError::Corrupt);
                },
                Some(s) => s,
            },
        };
        if s.identity_id != t.identity_id || s.issued_at != t.issued_at || s.expires_at
            != t.expires_at || s.key_id != t.key_id {
            return Err(KeygateError::Invalid);
        }
        if s.revoked {
            return Err(KeygateError::Revoked);
        }
        match self.get(s.identity_id) {
            Err(e) => {
                if matches!(e, KeygateError::NotFound) {
                    proof {
                        // the invariant says every stored session record decodes
                        assert(false);
                    }
                }
                Err(e)
            },
            Ok(idn) => match idn.status {
                Status::Active => Ok(s.identity_id),
                _ => Err(KeygateError::IdentityDisabled),
            },
        }
    }

    /// Reads a session record by identifier.
    pub fn get_session(&self, session_id: u64) -> (r: Result<Session, KeygateError>)
        requires
            self.wf(),
        ensures
            match r {
                Ok(s) => self.session_at(session_id) == Some(s),
                Err(e) => if e == KeygateError::NotFound {
                    self.session_at(session_id) is None
                } else {
                    is_transient(e)
                },
            },
    {
        let s_key = session_key_bytes(session_id);
        match self.store.get(s_key.as_slice()) {
            Err(e) => Err(store_err(e)),
            Ok(None) => Err(KeygateError::NotFound),
            Ok(Some(b)) => match decode_session(b.as_slice()) {
                None => {
                    proof {
                        // the invariant says every stored session record decodes
                        assert(false);
                    }
                    Err(KeygateError::Corrupt)
                },
                Some(s) => Ok(s),
            },
        }
    }

    /// Sets a session's revocation flag.  Idempotent: revoking an already
    /// revoked session is not an error and changes nothing observable.
    pub fn revoke(&mut self, session_id: u64) -> (r: Result<(), KeygateError>)
        requires
            old(self).wf(),
        ensures
            final (self).wf(),
            final (self).key_manager() == old(self).key_manager(),
            final (self).spec_next_identity_id() == old(self).spec_next_identity_id(),
            final (self).spec_next_session_id() == old(self).spec_next_session_id(),
            final (self).spec_default_ttl() == old(self).spec_default_ttl(),
            forall|i: u64| final (self).identity_at(i) == old(self).identity_at(i),
            forall|nk: Seq<u8>| final (self).nat_bound(nk) == old(self).nat_bound(nk),
            match r {
                Ok(_) => {
                    &&& old(self).session_at(session_id) matches Some(s)
                    &&& final (self).session_at(session_id) == Some(
                        Session { revoked: true, ..old(self).session_at(session_id)->Some_0 },
                    )
                    &&& forall|sid: u64|
                        sid != session_id ==> final (self).session_at(sid) == old(self).session_at(
                            sid,
                        )
                    &&& (old(self).session_at(session_id)->Some_0.revoked ==> final (
                    self).contents() == old(self).contents())
                },
                Err(e) => if e == KeygateError::NotFound {
                    old(self).session_at(session_id) is None && *final (self) == *old(self)
                } else {
                    is_transient(e) && final (self).contents() == old(self).contents()
                },
            },
    {
        let s_key = session_key_bytes(session_id);
        let s = match self.store.get(s_key.as_slice()) {
            Err(e) => {
                return Err(store_err(e));
            },
            Ok(None) => {
                return Err(KeygateError::NotFound);
            },
            Ok(Some(b)) => match decode_session(b.as_slice()) {
                None => {
                    proof {
                        // a session's owning identity record always exists
                        assert(false);
                    }
                    return Err(KeygateError::Corrupt);
                },
                Some(s) => s,
            },
        };
        let revoked = Session { revoked: true, ..s };
        let rec = encode_session(&revoked);
        match self.store.set(s_key.as_slice(), rec) {
            Err(e) => {
                return Err(store_err(e));
            },
            Ok(_) => {},
        }
        proof {
            let pre = *old(self);
            let post = *self;
            lemma_session_round_trip(revoked);
            lemma_wf_after_session_write(pre, post, session_id, revoked);
            if s.revoked {
                lemma_session_canonical(pre.contents()[session_key(session_id)]);
                assert(enc_session(revoked) == pre.contents()[session_key(session_id)]);
                assert(post.contents() =~= pre.contents());
            }
        }
        Ok(())
    }

    /// Revokes every non-expired, not yet revoked session owned by
    /// `identity_id` and reports how many there were.  Used on account
    /// disable as defence in depth; verification independently checks the
    /// identity's status on every call either way.  An abandoned or failed
    /// run leaves each record either untouched or fully revoked.
    pub fn revoke_all(&mut self, identity_id: u64, now: u64) -> (r: Result<u64, KeygateError>)
        requires
            old(self).wf(),
        ensures
            final (self).wf(),
            final (self).key_manager() == old(self).key_manager(),
            final (self).spec_next_identity_id() == old(self).spec_next_identity_id(),
            final (self).spec_next_session_id() == old(self).spec_next_session_id(),
            final (self).spec_default_ttl() == old(self).spec_default_ttl(),
            forall|i: u64| final (self).identity_at(i) == old(self).identity_at(i),
            forall|nk: Seq<u8>| final (self).nat_bound(nk) == old(self).nat_bound(nk),
            match r {
                Ok(count) => {
                    &&& forall|sid: u64|
                        old(self).revoke_all_eligible(identity_id, now, sid) ==> final (self).session_at(sid) == Some(
                            Session { revoked: true, ..old(self).session_at(sid)->Some_0 },
                        )
                    &&& forall|sid: u64|
                        !old(self).revoke_all_eligible(identity_id, now, sid) ==> final (self).session_at(sid) == old(self).session_at(sid)
                    &&& count == old(self).count_eligible(
                        identity_id,
                        now,
                        old(self).spec_next_session_id() as nat,
                    )
                },
                Err(e) => {
                    &&& is_transient(e)
                    &&& forall|sid: u64|
                        final (self).session_at(sid) == old(self).session_at(sid) || (old(self).revoke_all_eligible(identity_id, now, sid) && final (self).session_at(
                            sid,
                        ) == Some(Session { revoked: true, ..old(self).session_at(sid)->Some_0 }))
                },
            },
    {
        let mut count: u64 = 0;
        let mut sid: u64 = 0;
        let n = self.next_session_id;
        while sid < n
            invariant
                self.wf(),
                sid <= n,
                count <= sid,
                n == old(self).spec_next_session_id(),
                self.key_manager() == old(self).key_manager(),
                self.spec_next_identity_id() == old(self).spec_next_identity_id(),
                self.spec_next_session_id() == old(self).spec_next_session_id(),
                self.spec_default_ttl() == old(self).spec_default_ttl(),
                forall|i: u64| self.identity_at(i) == old(self).identity_at(i),
                forall|nk: Seq<u8>| self.nat_bound(nk) == old(self).nat_bound(nk),
                forall|s2: u64| s2 >= sid ==> self.session_at(s2) == old(self).session_at(s2),
                forall|s2: u64|
                    s2 < sid && old(self).revoke_all_eligible(identity_id, now, s2) ==> self.session_at(
                        s2,
                    ) == Some(Session { revoked: true, ..old(self).session_at(s2)->Some_0 }),
                forall|s2: u64|
                    s2 < sid && !old(self).revoke_all_eligible(identity_id, now, s2)
                        ==> self.session_at(s2) == old(self).session_at(s2),
                count == old(self).count_eligible(identity_id, now, sid as nat),
            decreases n - sid,
        {
            let s_key = session_key_bytes(sid);
            let found = match self.store.get(s_key.as_slice()) {
                Err(e) => {
                    return Err(store_err(e));
                },
                Ok(None) => None,
                Ok(Some(b)) => match decode_session(b.as_slice()) {
                    None => {
                        proof {
                            // the invariant says every stored session record decodes
                            assert(false);
                        }
                        return Err(KeygateError::Corrupt);
                    },
                    Some(s) => Some(s),
                },
            };
            match found {
                Some(s) if s.identity_id == identity_id && !s.revoked && now < s.expires_at => {
                    let revoked = Session { revoked: true, ..s };
                    let rec = encode_session(&revoked);
                    let ghost mid = *self;
                    match self.store.set(s_key.as_slice(), rec) {
                        Err(e) => {
                            return Err(store_err(e));
                        },
                        Ok(_) => {},
                    }
                    proof {
                        lemma_session_round_trip(revoked);
                        lemma_wf_after_session_write(mid, *self, sid, revoked);
                    }
                    count = count + 1;
                },
                _ => {},
            }
            proof {
                assert(old(self).count_eligible(identity_id, now, (sid + 1) as nat) == old(self).count_eligible(identity_id, now, sid as nat) + if old(self).revoke_all_eligible(
                    identity_id,
                    now,
                    sid,
                ) {
                    1nat
                } else {
                    0nat
                });
            }
            sid = sid + 1;
        }
        Ok(count)
    }

    /// Enumerates every stored identity, in ascending identifier order.
    #[verifier::loop_isolation(false)]
    pub fn list_identities(&self) -> (r: Result<Vec<Identity>, KeygateError>)
        requires
            self.wf(),
        ensures
            match r {
                Ok(ids) => {
                    &&& forall|j: int|
                        0 <= j < ids@.len() ==> self.identity_at((#[trigger] ids@[j]).id) == Some(
                            ids@[j]@,
                        )
                    &&& forall|id: u64|
                        #[trigger] self.identity_at(id) is Some ==> exists|j: int|
                            0 <= j < ids@.len() && (#[trigger] ids@[j]).id == id
                    &&& forall|j: int, k: int|
                        0 <= j < k < ids@.len() ==> (#[trigger] ids@[j]).id < (
                        #[trigger] ids@[k]).id
                },
                Err(e) => is_transient(e),
            },
    {
        let mut ids: Vec<Identity> = Vec::new();
        let n = self.next_identity_id;
        let mut i: u64 = 0;
        while i < n
            invariant
                i <= n,
                n == self.spec_next_identity_id(),
                forall|j: int|
                    0 <= j < ids@.len() ==> self.identity_at((#[trigger] ids@[j]).id) == Some(
                        ids@[j]@,
                    ),
                forall|id: u64|
                    id < i && #[trigger] self.identity_at(id) is Some ==> exists|j: int|
                        0 <= j < ids@.len() && (#[trigger] ids@[j]).id == id,
                forall|j: int| 0 <= j < ids@.len() ==> (#[trigger] ids@[j]).id < i,
                forall|j: int, k: int|
                    0 <= j < k < ids@.len() ==> (#[trigger] ids@[j]).id < (#[trigger] ids@[k]).id,
            decreases n - i,
        {
            match self.get(i) {
                Ok(idn) => {
                    let ghost prev = ids@;
                    ids.push(idn);
                    proof {
                        assert(ids@[prev.len() as int].id == i);
                        assert forall|id: u64|
                            id < i + 1 && #[trigger] self.identity_at(id) is Some implies exists|
                            j: int,
                        |
                            0 <= j < ids@.len() && (#[trigger] ids@[j]).id == id by {
                            if id < i {
                                let j = choose|j: int|
                                    0 <= j < prev.len() && (#[trigger] prev[j]).id == id;
                                assert(ids@[j].id == id);
                            } else {
                                assert(ids@[prev.len() as int].id == id);
                            }
                        }
                    }
                },
                Err(KeygateError::NotFound) => {},
                Err(e) => {
                    return Err(e);
                },
            }
            i = i + 1;
        }
        proof {
            assert forall|id: u64| #[trigger] self.identity_at(id) is Some implies id < n by {
                assert(self.contents().contains_key(identity_key(id)));
            }
        }
        Ok(ids)
    }

    /// Rotates the signing key: installs caller-supplied fresh material as
    /// the active key and starts the previous key's grace clock at `now`.
    /// Durable state is untouched; tokens signed under the previous key
    /// keep verifying until the grace period elapses.
    pub fn rotate(&mut self, material: u64, now: u64) -> (r: u64)
        requires
            old(self).wf(),
            old(self).key_manager().spec_next_key_id() < 0xffff_ffff_ffff_ffff,
        ensures
            final (self).wf(),
            final (self).contents() == old(self).contents(),
            final (self).spec_next_identity_id() == old(self).spec_next_identity_id(),
            final (self).spec_next_session_id() == old(self).spec_next_session_id(),
            final (self).spec_default_ttl() == old(self).spec_default_ttl(),
            r == old(self).key_manager().spec_next_key_id(),
            final (self).key_manager().model() == old(self).key_manager().model().drop_last().push(
                crate::keys::retire(old(self).key_manager().active(), now),
            ).push(KeyRecord { key_id: r, material, activated_at: now, retired_at: None }),
            final (self).key_manager().grace() == old(self).key_manager().grace(),
            final (self).key_manager().spec_next_key_id() == r + 1,
    {
        self.keys.rotate(material, now)
    }
}

/// After writing one session record under its own key the invariant holds
/// and nothing else observable moved.
proof fn lemma_wf_after_session_write<S: Storage>(
    pre: Keygate<S>,
    post: Keygate<S>,
    sid: u64,
    s: Session,
)
    requires
        pre.wf(),
        s.session_id == sid,
        sid < post.spec_next_session_id(),
        s.issued_at <= s.expires_at,
        pre.contents().contains_key(identity_key(s.identity_id)),
        dec_session(enc_session(s)) == Some(s),
        enc_session(s).len() == 41,
        post.contents() == pre.contents().insert(session_key(sid), enc_session(s)),
        post.key_manager() == pre.key_manager(),
        post.spec_next_identity_id() == pre.spec_next_identity_id(),
        post.spec_next_session_id() >= pre.spec_next_session_id(),
    ensures
        post.wf(),
        post.session_at(sid) == Some(s),
        forall|s2: u64| s2 != sid ==> post.session_at(s2) == pre.session_at(s2),
        forall|i: u64| post.identity_at(i) == pre.identity_at(i),
        forall|n: Seq<u8>| post.nat_bound(n) == pre.nat_bound(n),
{
    lemma_keys_injective();
    assert forall|i: u64| post.identity_at(i) == pre.identity_at(i) by {
        assert(identity_key(i) != session_key(sid));
    }
    assert forall|n: Seq<u8>| post.nat_bound(n) == pre.nat_bound(n) by {
        assert(natural_key_key(n) != session_key(sid));
    }
    assert forall|s2: u64| s2 != sid implies post.session_at(s2) == pre.session_at(s2) by {
        assert(session_key(s2) != session_key(sid));
    }
    assert forall|i: u64|
        post.contents().contains_key(#[trigger] identity_key(i)) implies (post.identity_at(i)
        matches Some(v) && v.id == i && identity_encodable(v) && post.nat_bound(v.natural_key)
        == Some(i)) by {
        assert(identity_key(i) != session_key(sid));
        assert(pre.contents().contains_key(identity_key(i)));
    }
    assert forall|s2: u64|
        post.contents().contains_key(#[trigger] session_key(s2)) implies (post.session_at(s2)
        matches Some(w) && w.session_id == s2 && w.issued_at <= w.expires_at
        && post.contents().contains_key(identity_key(w.identity_id))) by {
        if s2 == sid {
            assert(post.session_at(sid) == Some(s));
        } else {
            assert(pre.contents().contains_key(session_key(s2)));
            let w = pre.session_at(s2)->Some_0;
            assert(pre.contents().contains_key(identity_key(w.identity_id)));
            assert(identity_key(w.identity_id) != session_key(sid));
        }
    }
}

/// The exec form of [`status_rank`].
pub fn status_rank_exec(s: Status) -> (r: u8)
    ensures
        r as int == status_rank(s),
{
    match s {
        Status::Active => 0,
        Status::Disabled => 1,
        Status::Deleted => 2,
    }
}

/// After the index claim alone (the identity record not yet written) the
/// invariant still holds and nothing observable but the one binding moved.
proof fn lemma_wf_after_claim<S: Storage>(pre: Keygate<S>, post: Keygate<S>, nk: Seq<u8>, id: u64)
    requires
        pre.wf(),
        pre.nat_bound(nk) is None,
        !pre.contents().contains_key(identity_key(id)),
        id < post.spec_next_identity_id(),
        pre.spec_next_identity_id() <= post.spec_next_identity_id(),
        post.contents() == pre.contents().insert(natural_key_key(nk), enc_index(id)),
        post.key_manager() == pre.key_manager(),
        post.spec_next_session_id() == pre.spec_next_session_id(),
    ensures
        post.wf(),
        forall|i: u64| post.identity_at(i) == pre.identity_at(i),
        forall|n: Seq<u8>| n != nk ==> post.nat_bound(n) == pre.nat_bound(n),
        forall|sid: u64| post.session_at(sid) == pre.session_at(sid),
        post.nat_bound(nk) == Some(id),
{
    lemma_keys_injective();
    lemma_index_round_trip(id);
    assert forall|i: u64| post.identity_at(i) == pre.identity_at(i) by {
        assert(identity_key(i) != natural_key_key(nk));
    }
    assert forall|sid: u64| post.session_at(sid) == pre.session_at(sid) by {
        assert(session_key(sid) != natural_key_key(nk));
    }
    assert forall|n: Seq<u8>| n != nk implies post.nat_bound(n) == pre.nat_bound(n) by {
        assert(natural_key_key(n) != natural_key_key(nk));
    }
    assert(enc_index(id).len() == 8) by {
        vstd::bytes::lemma_auto_spec_u64_to_from_le_bytes();
    }
    assert forall|i: u64|
        post.contents().contains_key(#[trigger] identity_key(i)) implies (post.identity_at(i)
        matches Some(v) && v.id == i && identity_encodable(v) && post.nat_bound(v.natural_key)
        == Some(i)) by {
        assert(pre.contents().contains_key(identity_key(i)));
        let v = pre.identity_at(i)->Some_0;
        assert(pre.nat_bound(v.natural_key) == Some(i));
        assert(v.natural_key != nk);
    }
}

/// After both writes of a successful registration the invariant holds and
/// only the new identity and its binding are observable.
proof fn lemma_wf_after_create<S: Storage>(
    pre: Keygate<S>,
    post: Keygate<S>,
    nk: Seq<u8>,
    id: u64,
    v: IdentityV,
)
    requires
        pre.wf(),
        pre.nat_bound(nk) is None,
        pre.spec_next_identity_id() == id,
        post.spec_next_identity_id() == id + 1,
        v.id == id,
        v.natural_key == nk,
        identity_encodable(v),
        dec_identity(enc_identity(v)) == Some(v),
        enc_identity(v).len() <= 0xffff_ffff_ffff_ffff,
        post.contents() == pre.contents().insert(natural_key_key(nk), enc_index(id)).insert(
            identity_key(id),
            enc_identity(v),
        ),
        post.key_manager() == pre.key_manager(),
        post.spec_next_session_id() == pre.spec_next_session_id(),
    ensures
        post.wf(),
        post.identity_at(id) == Some(v),
        post.nat_bound(nk) == Some(id),
        forall|i: u64| i != id ==> post.identity_at(i) == pre.identity_at(i),
        forall|n: Seq<u8>| n != nk ==> post.nat_bound(n) == pre.nat_bound(n),
        forall|sid: u64| post.session_at(sid) == pre.session_at(sid),
{
    lemma_keys_injective();
    lemma_index_round_trip(id);
    assert(enc_index(id).len() == 8) by {
        vstd::bytes::lemma_auto_spec_u64_to_from_le_bytes();
    }
    assert forall|i: u64| i != id implies post.identity_at(i) == pre.identity_at(i) by {
        assert(identity_key(i) != natural_key_key(nk));
        assert(identity_key(i) != identity_key(id));
    }
    assert forall|sid: u64| post.session_at(sid) == pre.session_at(sid) by {
        assert(session_key(sid) != natural_key_key(nk));
        assert(session_key(sid) != identity_key(id));
    }
    assert forall|n: Seq<u8>| n != nk implies post.nat_bound(n) == pre.nat_bound(n) by {
        assert(natural_key_key(n) != natural_key_key(nk));
        assert(natural_key_key(n) != identity_key(id));
    }
    assert(post.identity_at(id) == Some(v));
    assert(post.nat_bound(nk) == Some(id));
    assert forall|i: u64|
        post.contents().contains_key(#[trigger] identity_key(i)) implies (post.identity_at(i)
        matches Some(w) && w.id == i && identity_encodable(w) && post.nat_bound(w.natural_key)
        == Some(i)) by {
        if i == id {
            assert(post.identity_at(i) == Some(v));
        } else {
            assert(pre.contents().contains_key(identity_key(i)));
            let w = pre.identity_at(i)->Some_0;
            assert(pre.nat_bound(w.natural_key) == Some(i));
            assert(w.natural_key != nk);
        }
    }
    assert forall|n: Seq<u8>|
        (#[trigger] post.nat_bound(n) matches Some(i) ==> (post.identity_at(i) matches Some(w)
        ==> w.natural_key == n)) by {
        if post.nat_bound(n) is Some && n != nk {
            assert(post.nat_bound(n) == pre.nat_bound(n));
            let i = pre.nat_bound(n)->Some_0;
            assert(i < pre.spec_next_identity_id());
            assert(i != id);
        }
    }
}

/// After rewriting one identity record in place the invariant holds and
/// only that identity's decoded view moved.
proof fn lemma_wf_after_update<S: Storage>(pre: Keygate<S>, post: Keygate<S>, id: u64, v: IdentityV)
    requires
        pre.wf(),
        pre.identity_at(id) matches Some(w) && w.id == v.id && w.natural_key == v.natural_key,
        v.id == id,
        identity_encodable(v),
        dec_identity(enc_identity(v)) == Some(v),
        enc_identity(v).len() <= 0xffff_ffff_ffff_ffff,
        post.contents() == pre.contents().insert(identity_key(id), enc_identity(v)),
        post.key_manager() == pre.key_manager(),
        post.spec_next_identity_id() == pre.spec_next_identity_id(),
        post.spec_next_session_id() == pre.spec_next_session_id(),
    ensures
        post.wf(),
        post.identity_at(id) == Some(v),
        forall|i: u64| i != id ==> post.identity_at(i) == pre.identity_at(i),
        forall|n: Seq<u8>| post.nat_bound(n) == pre.nat_bound(n),
        forall|sid: u64| post.session_at(sid) == pre.session_at(sid),
{
    lemma_keys_injective();
    assert forall|i: u64| i != id implies post.identity_at(i) == pre.identity_at(i) by {
        assert(identity_key(i) != identity_key(id));
    }
    assert forall|sid: u64| post.session_at(sid) == pre.session_at(sid) by {
        assert(session_key(sid) != identity_key(id));
    }
    assert forall|n: Seq<u8>| post.nat_bound(n) == pre.nat_bound(n) by {
        assert(natural_key_key(n) != identity_key(id));
    }
    assert forall|i: u64|
        post.contents().contains_key(#[trigger] identity_key(i)) implies (post.identity_at(i)
        matches Some(w) && w.id == i && identity_encodable(w) && post.nat_bound(w.natural_key)
        == Some(i)) by {
        if i == id {
            assert(pre.nat_bound(v.natural_key) == Some(id));
        } else {
            assert(pre.contents().contains_key(identity_key(i)));
            let w = pre.identity_at(i)->Some_0;
            assert(pre.nat_bound(w.natural_key) == Some(i));
        }
    }
    assert forall|n: Seq<u8>|
        (#[trigger] post.nat_bound(n) matches Some(i) ==> (post.identity_at(i) matches Some(w)
        ==> w.natural_key == n)) by {
        assert(pre.nat_bound(n) == post.nat_bound(n));
        if post.nat_bound(n) == Some(id) {
            assert(pre.identity_at(id) matches Some(w2) && w2.natural_key == v.natural_key);
        }
    }
}

} // verus!
