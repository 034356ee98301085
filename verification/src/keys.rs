//! The key material manager: it holds the signing keypairs for the process
//! lifetime, signs token payloads under the active key, and accepts
//! verification under retired keys until their grace period elapses, so a
//! rotation never invalidates live tokens at once.
//!
//! Key material is supplied by the caller from an external entropy source;
//! when that source fails the caller has nothing to pass, so no rotation
//! happens and no weaker key is ever installed — the manager fails closed
//! by construction.

use vstd::prelude::*;

verus! {

/// One keypair's worth of signing material, tagged with its identifier and
/// lifecycle timestamps.  `retired_at` is `None` while the key is the
/// active signing key.  `material` stands for the keypair itself: the
/// manager consults it both to sign and to verify.
#[derive(Clone, Copy, Debug)]
pub struct KeyRecord {
    pub key_id: u64,
    pub material: u64,
    pub activated_at: u64,
    pub retired_at: Option<u64>,
}

/// Whether `k` is still accepted for verification at `now`: the active key
/// always, a retired key until its grace period has elapsed.
pub open spec fn key_live(k: KeyRecord, now: u64, grace: u64) -> bool {
    match k.retired_at {
        None => true,
        Some(r) => (now as int) < r + grace,
    }
}

/// The key a manager resolves `key_id` to, searching newest first.
pub open spec fn find_key(keys: Seq<KeyRecord>, key_id: u64) -> Option<KeyRecord>
    decreases keys.len(),
{
    if keys.len() == 0 {
        None
    } else if keys.last().key_id == key_id {
        Some(keys.last())
    } else {
        find_key(keys.drop_last(), key_id)
    }
}

/// `k` with its retirement grace clock started at `now`.
pub open spec fn retire(k: KeyRecord, now: u64) -> KeyRecord {
    KeyRecord { retired_at: Some(now), ..k }
}

// ---------------------------------------------------------------------------
// The tag construction
// ---------------------------------------------------------------------------

/// One step of the keyed mixing fold.
pub open spec fn mix(h: u64, x: u8) -> u64 {
    ((h << 7) | (h >> 57)) ^ (x as u64) ^ 0x9e37_79b9_7f4a_7c15
}

/// The tag of `payload` under `material`: a keyed fold over the payload
/// bytes.  It stands in for the signature primitive of a deployed gateway;
/// what the engine proves concerns which key the manager accepts, never the
/// strength of this function.
pub open spec fn tag_of(material: u64, payload: Seq<u8>) -> u64
    decreases payload.len(),
{
    if payload.len() == 0 {
        material
    } else {
        mix(tag_of(material, payload.drop_last()), payload.last())
    }
}

/// Computes [`tag_of`] over concrete bytes.
pub fn compute_tag(material: u64, payload: &[u8]) -> (r: u64)
    ensures
        r == tag_of(material, payload@),
{
    let mut h = material;
    let n = payload.len();
    for i in 0..n
        invariant
            n == payload@.len(),
            h == tag_of(material, payload@.take(i as int)),
    {
        let x = *vstd::slice::slice_index_get(payload, i);
        h = ((h << 7u64) | (h >> 57u64)) ^ (x as u64) ^ 0x9e37_79b9_7f4a_7c15;
        proof {
            assert(payload@.take(i + 1).drop_last() =~= payload@.take(i as int));
            assert(payload@.take(i + 1).last() == payload@[i as int]);
        }
    }
    proof {
        assert(payload@.take(n as int) =~= payload@);
    }
    h
}

// ---------------------------------------------------------------------------
// The manager
// ---------------------------------------------------------------------------

/// The process-lifetime key set.  The sequence is append-only; exactly the
/// last record is active for signing, every earlier one is retired with a
/// grace clock running.  Nothing here is ever persisted.
pub struct KeyManager {
    keys: Vec<KeyRecord>,
    next_key_id: u64,
    grace_period: u64,
}

impl KeyManager {
    /// The keys held, oldest first.
    pub closed spec fn model(self) -> Seq<KeyRecord> {
        self.keys@
    }

    /// The configured retirement grace period.
    pub closed spec fn grace(self) -> u64 {
        self.grace_period
    }

    /// The identifier the next rotation will assign.
    pub closed spec fn spec_next_key_id(self) -> u64 {
        self.next_key_id
    }

    /// At least one key; identifiers strictly increasing and all below the
    /// next to be assigned; exactly the last key unretired.
    pub open spec fn wf(self) -> bool {
        &&& self.model().len() >= 1
        &&& forall|i: int|
            0 <= i < self.model().len() ==> (#[trigger] self.model()[i]).key_id
                < self.spec_next_key_id()
        &&& forall|i: int, j: int|
            0 <= i < j < self.model().len() ==> (#[trigger] self.model()[i]).key_id < (
            #[trigger] self.model()[j]).key_id
        &&& forall|i: int|
            0 <= i < self.model().len() - 1 ==> (#[trigger] self.model()[i]).retired_at is Some
        &&& self.model().last().retired_at is None
    }

    /// The active signing key.
    pub open spec fn active(self) -> KeyRecord {
        self.model().last()
    }

    /// The verification material accepted for `key_id` at `now`, if any.
    pub open spec fn accepts(self, key_id: u64, now: u64) -> Option<u64> {
        match find_key(self.model(), key_id) {
            None => None,
            Some(k) => if key_live(k, now, self.grace()) {
                Some(k.material)
            } else {
                None
            },
        }
    }

    /// A fresh manager with one active key and the configured grace period.
    pub fn new(grace_period: u64, material: u64, now: u64) -> (r: KeyManager)
        ensures
            r.wf(),
            r.model() == seq![
                KeyRecord { key_id: 0u64, material, activated_at: now, retired_at: None },
            ],
            r.grace() == grace_period,
            r.spec_next_key_id() == 1,
    {
        let mut keys: Vec<KeyRecord> = Vec::new();
        keys.push(KeyRecord { key_id: 0, material, activated_at: now, retired_at: None });
        proof {
            assert(keys@ =~= seq![
                KeyRecord { key_id: 0u64, material, activated_at: now, retired_at: None },
            ]);
        }
        KeyManager { keys, next_key_id: 1, grace_period }
    }

    /// The identifier the next rotation will assign, so a caller can test
    /// for identifier exhaustion before asking for a rotation.
    pub fn next_key_id(&self) -> (r: u64)
        ensures
            r == self.spec_next_key_id(),
    {
        self.next_key_id
    }

    /// The `(key_id, material)` pair to sign with now.
    pub fn active_key(&self) -> (r: KeyRecord)
        requires
            self.wf(),
        ensures
            r == self.active(),
    {
        self.keys[self.keys.len() - 1]
    }

    /// Installs `material` as the new active key and starts the retirement
    /// grace clock of the previous active key at `now`.  Applied in one
    /// `&mut` step, so no reader ever observes a half-updated key set.
    pub fn rotate(&mut self, material: u64, now: u64) -> (r: u64)
        requires
            old(self).wf(),
            old(self).spec_next_key_id() < 0xffff_ffff_ffff_ffff,
        ensures
            final (self).wf(),
            r == old(self).spec_next_key_id(),
            final (self).model() == old(self).model().drop_last().push(
                retire(old(self).active(), now),
            ).push(KeyRecord { key_id: r, material, activated_at: now, retired_at: None }),
            final (self).grace() == old(self).grace(),
            final (self).spec_next_key_id() == r + 1,
    {
        let id = self.next_key_id;
        self.next_key_id = self.next_key_id + 1;
        let mut last = match self.keys.pop() {
            Some(k) => k,
            None => {
                proof {
                    assert(false);
                }
                KeyRecord { key_id: 0, material: 0, activated_at: 0, retired_at: None }
            },
        };
        last.retired_at = Some(now);
        self.keys.push(last);
        self.keys.push(KeyRecord { key_id: id, material, activated_at: now, retired_at: None });
        proof {
            let m = self.keys@;
            let o = old(self).model();
            assert(m =~= o.drop_last().push(retire(old(self).active(), now)).push(
                KeyRecord { key_id: id, material, activated_at: now, retired_at: None },
            ));
            assert forall|i: int, j: int| 0 <= i < j < m.len() implies (#[trigger] m[i]).key_id < (
            #[trigger] m[j]).key_id by {
                if j < m.len() - 1 {
                    assert(m[i] == o[i] || (i == o.len() - 1 && m[i] == retire(o[i], now)));
                }
            }
        }
        id
    }

    /// The verification material for `key_id` at `now`; `None` once the
    /// key is unknown or its grace period has elapsed.
    pub fn accepted_material(&self, key_id: u64, now: u64) -> (r: Option<u64>)
        ensures
            r == self.accepts(key_id, now),
    {
        let mut i = self.keys.len();
        while i > 0
            invariant
                i <= self.keys.len(),
                forall|j: int|
                    i <= j < self.keys@.len() ==> (#[trigger] self.keys@[j]).key_id != key_id,
            decreases i,
        {
            i = i - 1;
            if self.keys[i].key_id == key_id {
                proof {
                    lemma_find_key_found(self.keys@, i as int);
                }
                let k = self.keys[i];
                match k.retired_at {
                    None => {
                        return Some(k.material);
                    },
                    Some(retired_at) => {
                        if (now as u128) < (retired_at as u128) + (self.grace_period as u128) {
                            return Some(k.material);
                        } else {
                            return None;
                        }
                    },
                }
            }
        }
        proof {
            lemma_find_key_prefix(self.keys@, key_id, 0);
        }
        None
    }

    /// Whether `tag` is the valid tag for `payload` under the key named
    /// `key_id`, consulting only keys still accepted at `now`: the active
    /// key, and retired keys inside their grace period.
    pub fn verify_tag(&self, key_id: u64, now: u64, payload: &[u8], tag: u64) -> (r: bool)
        ensures
            r == (self.accepts(key_id, now) matches Some(m) && tag == tag_of(m, payload@)),
    {
        match self.accepted_material(key_id, now) {
            None => false,
            Some(m) => compute_tag(m, payload) == tag,
        }
    }

    /// The active key is accepted at every instant.
    pub proof fn lemma_active_accepted(self, now: u64)
        requires
            self.wf(),
        ensures
            self.accepts(self.active().key_id, now) == Some(self.active().material),
    {
    }
}

proof fn lemma_find_key_found(s: Seq<KeyRecord>, i: int)
    requires
        0 <= i < s.len(),
        forall|j: int| i < j < s.len() ==> (#[trigger] s[j]).key_id != s[i].key_id,
    ensures
        find_key(s, s[i].key_id) == Some(s[i]),
    decreases s.len(),
{
    if i < s.len() - 1 {
        lemma_find_key_found(s.drop_last(), i);
    }
}

proof fn lemma_find_key_prefix(s: Seq<KeyRecord>, key_id: u64, i: int)
    requires
        0 <= i <= s.len(),
        forall|j: int| i <= j < s.len() ==> (#[trigger] s[j]).key_id != key_id,
    ensures
        find_key(s, key_id) == find_key(s.take(i), key_id),
    decreases s.len() - i,
{
    if i < s.len() {
        lemma_find_key_prefix(s.drop_last(), key_id, i);
        assert(s.take(i) =~= s.drop_last().take(i));
    } else {
        assert(s.take(i) =~= s);
    }
}

} // verus!
