//! Byte encodings of the records the engine persists and of the signed
//! token, together with the proofs that decoding inverts encoding.
//!
//! The storage backend offers an opaque byte-addressed keyspace, so every
//! record has one canonical encoding, and the engine's well-formedness
//! invariant speaks of these encodings.  Little-endian `u64` fields come
//! from `vstd::bytes`; variable-length fields are length-prefixed.

use vstd::bytes::*;
use vstd::prelude::*;
use vstd::seq_lib::*;

verus! {

broadcast use vstd::seq_lib::group_seq_properties;

// ---------------------------------------------------------------------------
// Record types
// ---------------------------------------------------------------------------

/// The lifecycle state of an identity.  Transitions are monotonic toward
/// `Deleted`: an identity never returns to an earlier state.
#[derive(Clone, Copy, Debug, PartialEq, Eq, Structural)]
pub enum Status {
    Active,
    Disabled,
    Deleted,
}

/// How far along the lifecycle a status is; transitions may only increase it.
pub open spec fn status_rank(s: Status) -> int {
    match s {
        Status::Active => 0,
        Status::Disabled => 1,
        Status::Deleted => 2,
    }
}

/// A stored session record: a time-bounded, revocable authorization
/// artifact bound to one identity (by reference, never ownership).
#[derive(Clone, Copy, Debug, PartialEq, Eq, Structural)]
pub struct Session {
    pub session_id: u64,
    pub identity_id: u64,
    pub issued_at: u64,
    pub expires_at: u64,
    pub revoked: bool,
    pub key_id: u64,
}

/// The parsed form of a signed token: the payload fields plus the tag
/// computed under the signing key named by `key_id`.
#[derive(Clone, Copy, Debug, PartialEq, Eq, Structural)]
pub struct Token {
    pub session_id: u64,
    pub identity_id: u64,
    pub issued_at: u64,
    pub expires_at: u64,
    pub key_id: u64,
    pub tag: u64,
}

// ---------------------------------------------------------------------------
// Session records: fixed 41-byte layout
// ---------------------------------------------------------------------------

pub open spec fn enc_session(s: Session) -> Seq<u8> {
    spec_u64_to_le_bytes(s.session_id) + spec_u64_to_le_bytes(s.identity_id)
        + spec_u64_to_le_bytes(s.issued_at) + spec_u64_to_le_bytes(s.expires_at)
        + seq![if s.revoked { 1u8 } else { 0u8 }] + spec_u64_to_le_bytes(s.key_id)
}

pub open spec fn dec_session(b: Seq<u8>) -> Option<Session> {
    if b.len() == 41 && (b[32] == 0 || b[32] == 1) {
        Some(
            Session {
                session_id: spec_u64_from_le_bytes(b.subrange(0, 8)),
                identity_id: spec_u64_from_le_bytes(b.subrange(8, 16)),
                issued_at: spec_u64_from_le_bytes(b.subrange(16, 24)),
                expires_at: spec_u64_from_le_bytes(b.subrange(24, 32)),
                revoked: b[32] == 1,
                key_id: spec_u64_from_le_bytes(b.subrange(33, 41)),
            },
        )
    } else {
        None
    }
}

/// Decoding inverts encoding on every session record.
pub proof fn lemma_session_round_trip(s: Session)
    ensures
        enc_session(s).len() == 41,
        dec_session(enc_session(s)) == Some(s),
{
    lemma_auto_spec_u64_to_from_le_bytes();
    let b = enc_session(s);
    assert(b[32] == (if s.revoked { 1u8 } else { 0u8 }));
    assert(b.subrange(0, 8) =~= spec_u64_to_le_bytes(s.session_id));
    assert(b.subrange(8, 16) =~= spec_u64_to_le_bytes(s.identity_id));
    assert(b.subrange(16, 24) =~= spec_u64_to_le_bytes(s.issued_at));
    assert(b.subrange(24, 32) =~= spec_u64_to_le_bytes(s.expires_at));
    assert(b.subrange(33, 41) =~= spec_u64_to_le_bytes(s.key_id));
}

/// Every decodable byte string is the encoding of what it decodes to, so a
/// record rewritten unchanged stores the very same bytes.
pub proof fn lemma_session_canonical(b: Seq<u8>)
    requires
        dec_session(b) is Some,
    ensures
        enc_session(dec_session(b)->Some_0) == b,
{
    lemma_auto_spec_u64_to_from_le_bytes();
    let s = dec_session(b)->Some_0;
    assert(enc_session(s) =~= b);
}

/// Builds the canonical bytes of a session record.
pub fn encode_session(s: &Session) -> (r: Vec<u8>)
    ensures
        r@ == enc_session(*s),
{
    let mut buf: Vec<u8> = Vec::new();
    let mut w = u64_to_le_bytes(s.session_id);
    buf.append(&mut w);
    let mut w = u64_to_le_bytes(s.identity_id);
    buf.append(&mut w);
    let mut w = u64_to_le_bytes(s.issued_at);
    buf.append(&mut w);
    let mut w = u64_to_le_bytes(s.expires_at);
    buf.append(&mut w);
    buf.push(if s.revoked { 1u8 } else { 0u8 });
    let mut w = u64_to_le_bytes(s.key_id);
    buf.append(&mut w);
    proof {
        assert(buf@ =~= enc_session(*s));
    }
    buf
}

/// Parses a stored session record; `None` marks a corrupt payload.
pub fn decode_session(b: &[u8]) -> (r: Option<Session>)
    ensures
        r == dec_session(b@),
{
    if b.len() != 41 {
        return None;
    }
    let flag = *vstd::slice::slice_index_get(b, 32);
    if flag != 0 && flag != 1 {
        return None;
    }
    let s = Session {
        session_id: u64_from_le_bytes(vstd::slice::slice_subrange(b, 0, 8)),
        identity_id: u64_from_le_bytes(vstd::slice::slice_subrange(b, 8, 16)),
        issued_at: u64_from_le_bytes(vstd::slice::slice_subrange(b, 16, 24)),
        expires_at: u64_from_le_bytes(vstd::slice::slice_subrange(b, 24, 32)),
        revoked: flag == 1,
        key_id: u64_from_le_bytes(vstd::slice::slice_subrange(b, 33, 41)),
    };
    Some(s)
}

// ---------------------------------------------------------------------------
// Natural-key index records: the bound identity identifier, 8 bytes
// ---------------------------------------------------------------------------

pub open spec fn enc_index(id: u64) -> Seq<u8> {
    spec_u64_to_le_bytes(id)
}

pub open spec fn dec_index(b: Seq<u8>) -> Option<u64> {
    if b.len() == 8 {
        Some(spec_u64_from_le_bytes(b))
    } else {
        None
    }
}

pub proof fn lemma_index_round_trip(id: u64)
    ensures
        dec_index(enc_index(id)) == Some(id),
{
    lemma_auto_spec_u64_to_from_le_bytes();
}

/// Builds the canonical bytes of a natural-key index record.
pub fn encode_index(id: u64) -> (r: Vec<u8>)
    ensures
        r@ == enc_index(id),
{
    u64_to_le_bytes(id)
}

/// Parses a natural-key index record; `None` marks a corrupt payload.
pub fn decode_index(b: &[u8]) -> (r: Option<u64>)
    ensures
        r == dec_index(b@),
{
    if b.len() != 8 {
        return None;
    }
    Some(u64_from_le_bytes(b))
}

// ---------------------------------------------------------------------------
// Tokens: 40 payload bytes plus an 8-byte tag
// ---------------------------------------------------------------------------

/// The bytes the tag is computed over: everything the token binds.
pub open spec fn token_payload(t: Token) -> Seq<u8> {
    spec_u64_to_le_bytes(t.session_id) + spec_u64_to_le_bytes(t.identity_id)
        + spec_u64_to_le_bytes(t.issued_at) + spec_u64_to_le_bytes(t.expires_at)
        + spec_u64_to_le_bytes(t.key_id)
}

pub open spec fn enc_token(t: Token) -> Seq<u8> {
    token_payload(t) + spec_u64_to_le_bytes(t.tag)
}

pub open spec fn dec_token(b: Seq<u8>) -> Option<Token> {
    if b.len() == 48 {
        Some(
            Token {
                session_id: spec_u64_from_le_bytes(b.subrange(0, 8)),
                identity_id: spec_u64_from_le_bytes(b.subrange(8, 16)),
                issued_at: spec_u64_from_le_bytes(b.subrange(16, 24)),
                expires_at: spec_u64_from_le_bytes(b.subrange(24, 32)),
                key_id: spec_u64_from_le_bytes(b.subrange(32, 40)),
                tag: spec_u64_from_le_bytes(b.subrange(40, 48)),
            },
        )
    } else {
        None
    }
}

pub proof fn lemma_token_round_trip(t: Token)
    ensures
        enc_token(t).len() == 48,
        dec_token(enc_token(t)) == Some(t),
        enc_token(t).subrange(0, 40) == token_payload(t),
{
    lemma_auto_spec_u64_to_from_le_bytes();
    let b = enc_token(t);
    assert(b.subrange(0, 8) =~= spec_u64_to_le_bytes(t.session_id));
    assert(b.subrange(8, 16) =~= spec_u64_to_le_bytes(t.identity_id));
    assert(b.subrange(16, 24) =~= spec_u64_to_le_bytes(t.issued_at));
    assert(b.subrange(24, 32) =~= spec_u64_to_le_bytes(t.expires_at));
    assert(b.subrange(32, 40) =~= spec_u64_to_le_bytes(t.key_id));
    assert(b.subrange(40, 48) =~= spec_u64_to_le_bytes(t.tag));
    assert(b.subrange(0, 40) =~= token_payload(t));
}

/// Builds the tag-covered payload bytes of a token; the tag field itself
/// is not part of them.
pub fn encode_payload(t: &Token) -> (r: Vec<u8>)
    ensures
        r@ == token_payload(*t),
{
    let mut buf: Vec<u8> = Vec::new();
    let mut w = u64_to_le_bytes(t.session_id);
    buf.append(&mut w);
    let mut w = u64_to_le_bytes(t.identity_id);
    buf.append(&mut w);
    let mut w = u64_to_le_bytes(t.issued_at);
    buf.append(&mut w);
    let mut w = u64_to_le_bytes(t.expires_at);
    buf.append(&mut w);
    let mut w = u64_to_le_bytes(t.key_id);
    buf.append(&mut w);
    proof {
        assert(buf@ =~= token_payload(*t));
    }
    buf
}

/// Builds the transmissible bytes of a token.
pub fn encode_token(t: &Token) -> (r: Vec<u8>)
    ensures
        r@ == enc_token(*t),
{
    let mut buf: Vec<u8> = Vec::new();
    let mut w = u64_to_le_bytes(t.session_id);
    buf.append(&mut w);
    let mut w = u64_to_le_bytes(t.identity_id);
    buf.append(&mut w);
    let mut w = u64_to_le_bytes(t.issued_at);
    buf.append(&mut w);
    let mut w = u64_to_le_bytes(t.expires_at);
    buf.append(&mut w);
    let mut w = u64_to_le_bytes(t.key_id);
    buf.append(&mut w);
    let mut w = u64_to_le_bytes(t.tag);
    buf.append(&mut w);
    proof {
        assert(buf@ =~= enc_token(*t));
    }
    buf
}

/// Parses presented token bytes; `None` marks a malformed token.
pub fn decode_token(b: &[u8]) -> (r: Option<Token>)
    ensures
        r == dec_token(b@),
{
    if b.len() != 48 {
        return None;
    }
    let t = Token {
        session_id: u64_from_le_bytes(vstd::slice::slice_subrange(b, 0, 8)),
        identity_id: u64_from_le_bytes(vstd::slice::slice_subrange(b, 8, 16)),
        issued_at: u64_from_le_bytes(vstd::slice::slice_subrange(b, 16, 24)),
        expires_at: u64_from_le_bytes(vstd::slice::slice_subrange(b, 24, 32)),
        key_id: u64_from_le_bytes(vstd::slice::slice_subrange(b, 32, 40)),
        tag: u64_from_le_bytes(vstd::slice::slice_subrange(b, 40, 48)),
    };
    Some(t)
}

// ---------------------------------------------------------------------------
// Storage keys: one tag byte keeps the three keyspaces disjoint
// ---------------------------------------------------------------------------

pub open spec fn identity_key(id: u64) -> Seq<u8> {
    seq![1u8] + spec_u64_to_le_bytes(id)
}

pub open spec fn session_key(sid: u64) -> Seq<u8> {
    seq![2u8] + spec_u64_to_le_bytes(sid)
}

pub open spec fn natural_key_key(nk: Seq<u8>) -> Seq<u8> {
    seq![3u8] + nk
}

/// The three keyspaces never collide, and each key determines its entity.
pub proof fn lemma_keys_injective()
    ensures
        forall|a: u64, b: u64| identity_key(a) == identity_key(b) ==> a == b,
        forall|a: u64, b: u64| session_key(a) == session_key(b) ==> a == b,
        forall|a: Seq<u8>, b: Seq<u8>| natural_key_key(a) == natural_key_key(b) ==> a == b,
        forall|a: u64, b: u64| identity_key(a) != session_key(b),
        forall|a: u64, b: Seq<u8>| identity_key(a) != natural_key_key(b),
        forall|a: u64, b: Seq<u8>| session_key(a) != natural_key_key(b),
{
    lemma_auto_spec_u64_to_from_le_bytes();
    assert forall|a: u64, b: u64| identity_key(a) == identity_key(b) implies a == b by {
        assert(identity_key(a).subrange(1, 9) =~= spec_u64_to_le_bytes(a));
        assert(identity_key(b).subrange(1, 9) =~= spec_u64_to_le_bytes(b));
    }
    assert forall|a: u64, b: u64| session_key(a) == session_key(b) implies a == b by {
        assert(session_key(a).subrange(1, 9) =~= spec_u64_to_le_bytes(a));
        assert(session_key(b).subrange(1, 9) =~= spec_u64_to_le_bytes(b));
    }
    assert forall|a: Seq<u8>, b: Seq<u8>| natural_key_key(a) == natural_key_key(b) implies a
        == b by {
        assert(natural_key_key(a).subrange(1, natural_key_key(a).len() as int) =~= a);
        assert(natural_key_key(b).subrange(1, natural_key_key(b).len() as int) =~= b);
    }
    assert forall|a: u64, b: u64| identity_key(a) != session_key(b) by {
        assert(identity_key(a)[0] == 1u8);
        assert(session_key(b)[0] == 2u8);
    }
    assert forall|a: u64, b: Seq<u8>| identity_key(a) != natural_key_key(b) by {
        assert(identity_key(a)[0] == 1u8);
        assert(natural_key_key(b)[0] == 3u8);
    }
    assert forall|a: u64, b: Seq<u8>| session_key(a) != natural_key_key(b) by {
        assert(session_key(a)[0] == 2u8);
        assert(natural_key_key(b)[0] == 3u8);
    }
}

/// Builds the storage key of an identity record.
pub fn identity_key_bytes(id: u64) -> (r: Vec<u8>)
    ensures
        r@ == identity_key(id),
{
    let mut buf: Vec<u8> = Vec::new();
    buf.push(1u8);
    let mut w = u64_to_le_bytes(id);
    buf.append(&mut w);
    proof {
        assert(buf@ =~= identity_key(id));
    }
    buf
}

/// Builds the storage key of a session record.
pub fn session_key_bytes(sid: u64) -> (r: Vec<u8>)
    ensures
        r@ == session_key(sid),
{
    let mut buf: Vec<u8> = Vec::new();
    buf.push(2u8);
    let mut w = u64_to_le_bytes(sid);
    buf.append(&mut w);
    proof {
        assert(buf@ =~= session_key(sid));
    }
    buf
}

/// Builds the storage key of a natural-key index record.
pub fn natural_key_key_bytes(nk: &[u8]) -> (r: Vec<u8>)
    ensures
        r@ == natural_key_key(nk@),
{
    let mut buf: Vec<u8> = Vec::new();
    buf.push(3u8);
    let mut w = vstd::slice::slice_to_vec(nk);
    buf.append(&mut w);
    proof {
        assert(buf@ =~= natural_key_key(nk@));
    }
    buf
}

// ---------------------------------------------------------------------------
// Length-prefixed chunks: the unit of every variable-length field
// ---------------------------------------------------------------------------

pub open spec fn enc_chunk(c: Seq<u8>) -> Seq<u8> {
    spec_u64_to_le_bytes(c.len() as u64) + c
}

/// Splits one length-prefixed chunk off the front of `b`.
pub open spec fn dec_chunk(b: Seq<u8>) -> Option<(Seq<u8>, Seq<u8>)> {
    if b.len() < 8 {
        None
    } else {
        let l = spec_u64_from_le_bytes(b.subrange(0, 8)) as int;
        if b.len() - 8 < l {
            None
        } else {
            Some((b.subrange(8, 8 + l), b.subrange(8 + l, b.len() as int)))
        }
    }
}

pub proof fn lemma_chunk_round_trip(c: Seq<u8>, rest: Seq<u8>)
    requires
        c.len() <= 0xffff_ffff_ffff_ffff,
    ensures
        dec_chunk(enc_chunk(c) + rest) == Some((c, rest)),
{
    lemma_auto_spec_u64_to_from_le_bytes();
    let b = enc_chunk(c) + rest;
    assert(b.subrange(0, 8) =~= spec_u64_to_le_bytes(c.len() as u64));
    let l = c.len() as int;
    assert(b.subrange(8, 8 + l) =~= c);
    assert(b.subrange(8 + l, b.len() as int) =~= rest);
}

/// Appends one length-prefixed chunk to `buf`.
pub fn push_chunk(buf: &mut Vec<u8>, data: &[u8])
    ensures
        final(buf)@ == old(buf)@ + enc_chunk(data@),
{
    let mut w = u64_to_le_bytes(data.len() as u64);
    buf.append(&mut w);
    let mut d = vstd::slice::slice_to_vec(data);
    buf.append(&mut d);
    proof {
        assert(buf@ =~= old(buf)@ + enc_chunk(data@));
    }
}

/// Reads one length-prefixed chunk starting at `off`; `None` marks a
/// truncated or over-long length field.
pub fn read_chunk(b: &[u8], off: usize) -> (r: Option<(Vec<u8>, usize)>)
    requires
        off <= b@.len(),
    ensures
        match r {
            Some(p) => {
                &&& dec_chunk(b@.skip(off as int)) matches Some(q)
                &&& p.0@ == q.0
                &&& p.1 <= b@.len()
                &&& b@.skip(p.1 as int) == q.1
                &&& off < p.1
            },
            None => dec_chunk(b@.skip(off as int)) is None,
        },
{
    let n = b.len();
    if n - off < 8 {
        return None;
    }
    let lb = vstd::slice::slice_subrange(b, off, off + 8);
    proof {
        assert(lb@ =~= b@.skip(off as int).subrange(0, 8));
    }
    let l = u64_from_le_bytes(lb);
    let remaining = n - off - 8;
    if l > remaining as u64 {
        proof {
            assert(b@.skip(off as int).len() - 8 < l as int);
        }
        return None;
    }
    let lu = l as usize;
    let data = vstd::slice::slice_to_vec(vstd::slice::slice_subrange(b, off + 8, off + 8 + lu));
    proof {
        let s = b@.skip(off as int);
        assert(data@ =~= s.subrange(8, 8 + l as int));
        assert(b@.skip((off + 8 + lu) as int) =~= s.subrange(8 + l as int, s.len() as int));
    }
    Some((data, off + 8 + lu))
}

// ---------------------------------------------------------------------------
// Attribute lists: a sequence of key/value chunk pairs
// ---------------------------------------------------------------------------

pub open spec fn enc_attrs(attrs: Seq<(Seq<u8>, Seq<u8>)>) -> Seq<u8>
    decreases attrs.len(),
{
    if attrs.len() == 0 {
        Seq::empty()
    } else {
        enc_chunk(attrs[0].0) + enc_chunk(attrs[0].1) + enc_attrs(attrs.skip(1))
    }
}

/// Splits `n` attribute pairs off the front of `b`.
pub open spec fn dec_attrs(b: Seq<u8>, n: nat) -> Option<(Seq<(Seq<u8>, Seq<u8>)>, Seq<u8>)>
    decreases n,
{
    if n == 0 {
        Some((Seq::empty(), b))
    } else {
        match dec_chunk(b) {
            None => None,
            Some(kr) => match dec_chunk(kr.1) {
                None => None,
                Some(vr) => match dec_attrs(vr.1, (n - 1) as nat) {
                    None => None,
                    Some(tail) => Some((seq![(kr.0, vr.0)] + tail.0, tail.1)),
                },
            },
        }
    }
}

/// All the size bounds a record must meet so its length prefixes fit.
pub open spec fn attrs_encodable(attrs: Seq<(Seq<u8>, Seq<u8>)>) -> bool {
    &&& attrs.len() <= 0xffff_ffff_ffff_ffff
    &&& forall|i: int|
        0 <= i < attrs.len() ==> (#[trigger] attrs[i]).0.len() <= 0xffff_ffff_ffff_ffff
            && attrs[i].1.len() <= 0xffff_ffff_ffff_ffff
}

pub proof fn lemma_attrs_round_trip(attrs: Seq<(Seq<u8>, Seq<u8>)>, rest: Seq<u8>)
    requires
        attrs_encodable(attrs),
    ensures
        dec_attrs(enc_attrs(attrs) + rest, attrs.len()) == Some((attrs, rest)),
    decreases attrs.len(),
{
    if attrs.len() == 0 {
        assert(enc_attrs(attrs) + rest =~= rest);
        assert(dec_attrs(rest, 0) == Some((Seq::<(Seq<u8>, Seq<u8>)>::empty(), rest)));
        assert(Seq::<(Seq<u8>, Seq<u8>)>::empty() =~= attrs);
    } else {
        let k0 = attrs[0].0;
        let v0 = attrs[0].1;
        let tail = attrs.skip(1);
        let b = enc_attrs(attrs) + rest;
        let r1 = enc_chunk(v0) + enc_attrs(tail) + rest;
        assert(b =~= enc_chunk(k0) + r1);
        lemma_chunk_round_trip(k0, r1);
        let r2 = enc_attrs(tail) + rest;
        assert(r1 =~= enc_chunk(v0) + r2);
        lemma_chunk_round_trip(v0, r2);
        assert(attrs_encodable(tail));
        lemma_attrs_round_trip(tail, rest);
        assert(seq![(k0, v0)] + tail =~= attrs);
    }
}

pub proof fn lemma_enc_attrs_push(attrs: Seq<(Seq<u8>, Seq<u8>)>, x: (Seq<u8>, Seq<u8>))
    ensures
        enc_attrs(attrs.push(x)) == enc_attrs(attrs) + enc_chunk(x.0) + enc_chunk(x.1),
    decreases attrs.len(),
{
    if attrs.len() == 0 {
        assert(attrs.push(x).skip(1) =~= Seq::<(Seq<u8>, Seq<u8>)>::empty());
        assert(enc_attrs(attrs.push(x)) =~= enc_attrs(attrs) + enc_chunk(x.0) + enc_chunk(x.1));
    } else {
        assert(attrs.push(x).skip(1) =~= attrs.skip(1).push(x));
        lemma_enc_attrs_push(attrs.skip(1), x);
        assert(enc_attrs(attrs.push(x)) =~= enc_attrs(attrs) + enc_chunk(x.0) + enc_chunk(x.1));
    }
}

// ---------------------------------------------------------------------------
// Identity records
// ---------------------------------------------------------------------------

/// A durable principal record: a unique immutable identifier, a natural key
/// (a human-meaningful unique attribute such as an email), further
/// attributes, a creation timestamp and a mutable lifecycle status.
#[derive(Debug)]
pub struct Identity {
    pub id: u64,
    pub created_at: u64,
    pub status: Status,
    pub natural_key: Vec<u8>,
    pub attributes: Vec<(Vec<u8>, Vec<u8>)>,
}

/// The mathematical model of an [`Identity`].
pub struct IdentityV {
    pub id: u64,
    pub created_at: u64,
    pub status: Status,
    pub natural_key: Seq<u8>,
    pub attributes: Seq<(Seq<u8>, Seq<u8>)>,
}

pub open spec fn attrs_view(a: Seq<(Vec<u8>, Vec<u8>)>) -> Seq<(Seq<u8>, Seq<u8>)> {
    a.map_values(|p: (Vec<u8>, Vec<u8>)| (p.0@, p.1@))
}

impl View for Identity {
    type V = IdentityV;

    open spec fn view(&self) -> IdentityV {
        IdentityV {
            id: self.id,
            created_at: self.created_at,
            status: self.status,
            natural_key: self.natural_key@,
            attributes: attrs_view(self.attributes@),
        }
    }
}

pub open spec fn status_byte(s: Status) -> u8 {
    match s {
        Status::Active => 0,
        Status::Disabled => 1,
        Status::Deleted => 2,
    }
}

pub open spec fn byte_status(b: u8) -> Option<Status> {
    if b == 0 {
        Some(Status::Active)
    } else if b == 1 {
        Some(Status::Disabled)
    } else if b == 2 {
        Some(Status::Deleted)
    } else {
        None
    }
}

/// Concrete vectors always fit the length prefixes: their lengths are
/// bounded by the machine word.
pub proof fn lemma_vectors_encodable(natural_key: &Vec<u8>, attributes: &Vec<(Vec<u8>, Vec<u8>)>)
    ensures
        natural_key@.len() <= 0xffff_ffff_ffff_ffff,
        attrs_encodable(attrs_view(attributes@)),
{
    vstd::std_specs::vec::axiom_spec_len(natural_key);
    vstd::std_specs::vec::axiom_spec_len(attributes);
    assert forall|i: int| 0 <= i < attrs_view(attributes@).len() implies (#[trigger] attrs_view(
        attributes@,
    )[i]).0.len() <= 0xffff_ffff_ffff_ffff && attrs_view(attributes@)[i].1.len()
        <= 0xffff_ffff_ffff_ffff by {
        vstd::std_specs::vec::axiom_spec_len(&attributes@[i].0);
        vstd::std_specs::vec::axiom_spec_len(&attributes@[i].1);
        assert(attrs_view(attributes@)[i] == (attributes@[i].0@, attributes@[i].1@));
    }
}

/// The size bounds under which an identity's length prefixes fit.
pub open spec fn identity_encodable(v: IdentityV) -> bool {
    &&& v.natural_key.len() <= 0xffff_ffff_ffff_ffff
    &&& attrs_encodable(v.attributes)
}

pub open spec fn enc_identity(v: IdentityV) -> Seq<u8> {
    spec_u64_to_le_bytes(v.id) + spec_u64_to_le_bytes(v.created_at) + seq![status_byte(v.status)]
        + enc_chunk(v.natural_key) + spec_u64_to_le_bytes(v.attributes.len() as u64) + enc_attrs(
        v.attributes,
    )
}

pub open spec fn dec_identity(b: Seq<u8>) -> Option<IdentityV> {
    if b.len() < 17 {
        None
    } else {
        match byte_status(b[16]) {
            None => None,
            Some(st) => match dec_chunk(b.skip(17)) {
                None => None,
                Some(nkr) => if nkr.1.len() < 8 {
                    None
                } else {
                    let n = spec_u64_from_le_bytes(nkr.1.subrange(0, 8));
                    match dec_attrs(nkr.1.skip(8), n as nat) {
                        None => None,
                        Some(ar) => if ar.1.len() == 0 {
                            Some(
                                IdentityV {
                                    id: spec_u64_from_le_bytes(b.subrange(0, 8)),
                                    created_at: spec_u64_from_le_bytes(b.subrange(8, 16)),
                                    status: st,
                                    natural_key: nkr.0,
                                    attributes: ar.0,
                                },
                            )
                        } else {
                            None
                        },
                    }
                },
            },
        }
    }
}

/// Decoding inverts encoding on every identity record within bounds.
pub proof fn lemma_identity_round_trip(v: IdentityV)
    requires
        identity_encodable(v),
    ensures
        dec_identity(enc_identity(v)) matches Some(w) && w =~~= v,
{
    lemma_auto_spec_u64_to_from_le_bytes();
    let b = enc_identity(v);
    assert(b.len() >= 17 + 8 + 8);
    assert(b.subrange(0, 8) =~= spec_u64_to_le_bytes(v.id));
    assert(b.subrange(8, 16) =~= spec_u64_to_le_bytes(v.created_at));
    assert(b[16] == status_byte(v.status));
    let r1 = spec_u64_to_le_bytes(v.attributes.len() as u64) + enc_attrs(v.attributes);
    assert(b.skip(17) =~= enc_chunk(v.natural_key) + r1);
    lemma_chunk_round_trip(v.natural_key, r1);
    assert(r1.subrange(0, 8) =~= spec_u64_to_le_bytes(v.attributes.len() as u64));
    assert(r1.skip(8) =~= enc_attrs(v.attributes) + Seq::<u8>::empty());
    lemma_attrs_round_trip(v.attributes, Seq::<u8>::empty());
}

/// Builds the canonical bytes of an identity record.
pub fn encode_identity(idn: &Identity) -> (r: Vec<u8>)
    ensures
        r@ == enc_identity(idn@),
{
    let mut buf: Vec<u8> = Vec::new();
    let mut w = u64_to_le_bytes(idn.id);
    buf.append(&mut w);
    let mut w = u64_to_le_bytes(idn.created_at);
    buf.append(&mut w);
    buf.push(
        match idn.status {
            Status::Active => 0u8,
            Status::Disabled => 1u8,
            Status::Deleted => 2u8,
        },
    );
    push_chunk(&mut buf, idn.natural_key.as_slice());
    let mut w = u64_to_le_bytes(idn.attributes.len() as u64);
    buf.append(&mut w);
    let ghost head = buf@;
    let n = idn.attributes.len();
    for i in 0..n
        invariant
            n == idn.attributes.len(),
            buf@ == head + enc_attrs(attrs_view(idn.attributes@.take(i as int))),
    {
        let pair = &idn.attributes[i];
        push_chunk(&mut buf, pair.0.as_slice());
        push_chunk(&mut buf, pair.1.as_slice());
        proof {
            let prev = attrs_view(idn.attributes@.take(i as int));
            let cur = attrs_view(idn.attributes@.take(i + 1));
            assert(cur =~= prev.push((idn.attributes@[i as int].0@, idn.attributes@[i as int].1@)));
            lemma_enc_attrs_push(prev, (idn.attributes@[i as int].0@, idn.attributes@[i as int].1@));
            assert(buf@ =~= head + enc_attrs(cur));
        }
    }
    proof {
        assert(idn.attributes@.take(n as int) =~= idn.attributes@);
        assert(buf@ =~= enc_identity(idn@));
    }
    buf
}

/// Parses a stored identity record; `None` marks a corrupt payload.
#[verifier::loop_isolation(false)]
pub fn decode_identity(b: &[u8]) -> (r: Option<Identity>)
    ensures
        match r {
            Some(idn) => dec_identity(b@) matches Some(w) && idn@ =~~= w,
            None => dec_identity(b@) is None,
        },
{
    if b.len() < 17 {
        return None;
    }
    let id = u64_from_le_bytes(vstd::slice::slice_subrange(b, 0, 8));
    let created_at = u64_from_le_bytes(vstd::slice::slice_subrange(b, 8, 16));
    let sb = *vstd::slice::slice_index_get(b, 16);
    let status = if sb == 0 {
        Status::Active
    } else if sb == 1 {
        Status::Disabled
    } else if sb == 2 {
        Status::Deleted
    } else {
        return None;
    };
    let nk = match read_chunk(b, 17) {
        None => {
            return None;
        },
        Some(p) => p,
    };
    let (natural_key, off_n) = nk;
    proof {
        assert(dec_chunk(b@.skip(17)) matches Some(q) && q.1 == b@.skip(off_n as int));
    }
    if b.len() - off_n < 8 {
        return None;
    }
    let cb = vstd::slice::slice_subrange(b, off_n, off_n + 8);
    proof {
        assert(cb@ =~= b@.skip(off_n as int).subrange(0, 8));
    }
    let n = u64_from_le_bytes(cb);
    let mut attributes: Vec<(Vec<u8>, Vec<u8>)> = Vec::new();
    let mut off = off_n + 8;
    proof {
        assert(b@.skip(off as int) =~= b@.skip(off_n as int).skip(8));
    }
    let ghost tail0 = b@.skip(off as int);
    let mut i: u64 = 0;
    while i < n
        invariant
            i <= n,
            off <= b@.len(),
            dec_attrs(tail0, n as nat) == match dec_attrs(b@.skip(off as int), (n - i) as nat) {
                None => None::<(Seq<(Seq<u8>, Seq<u8>)>, Seq<u8>)>,
                Some(t) => Some((attrs_view(attributes@) + t.0, t.1)),
            },
        decreases n - i,
    {
        let k = match read_chunk(b, off) {
            None => {
                return None;
            },
            Some(p) => p,
        };
        let v = match read_chunk(b, k.1) {
            None => {
                return None;
            },
            Some(p) => p,
        };
        let ghost old_attrs = attrs_view(attributes@);
        attributes.push((k.0, v.0));
        proof {
            assert(attrs_view(attributes@) =~= old_attrs.push((k.0@, v.0@)));
            assert forall|t0: Seq<(Seq<u8>, Seq<u8>)>|
                old_attrs.push((k.0@, v.0@)) + t0 =~= old_attrs + (seq![(k.0@, v.0@)] + t0) by {}
        }
        off = v.1;
        i = i + 1;
    }
    if off != b.len() {
        proof {
            assert(b@.skip(off as int).len() != 0);
        }
        return None;
    }
    proof {
        assert(b@.skip(off as int) =~= Seq::<u8>::empty());
        assert(attrs_view(attributes@) + Seq::<(Seq<u8>, Seq<u8>)>::empty() =~= attrs_view(
            attributes@,
        ));
    }
    Some(Identity { id, created_at, status, natural_key, attributes })
}

} // verus!
