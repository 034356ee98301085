//! The capability contract for durable key/value persistence, independent
//! of backend, and an in-memory implementation of it.
//!
//! The engine is backend-agnostic: it only ever reads and writes through
//! [`Storage`], so swapping backends changes no identity or session logic.
//! An implementation over a remote store surfaces `Unavailable` or
//! `Timeout` for transient faults; the engine never retries internally and
//! never downgrades either to success.

use vstd::prelude::*;

verus! {

/// A transient backend failure; both kinds are retryable by the caller
/// with backoff.
#[derive(Clone, Copy, Debug, PartialEq, Eq, Structural)]
pub enum StorageError {
    /// The backend is unreachable.
    Unavailable,
    /// The backend did not answer in time.
    Timeout,
}

/// Durable byte get/set over an opaque byte-addressed keyspace.
///
/// `contents()` is the abstract state: the map from bound keys to their
/// values.  No transactional multi-key atomicity is assumed anywhere; the
/// engine is written against exactly these two operations.
///
/// An implementation written outside the verified world is held to nothing
/// by any proof: the engine's guarantees transfer to such a backend only
/// insofar as it actually honours these contracts for some contents model —
/// a byte store that answers `get` with anything but the last `set` value
/// voids them.  The defaults of [`Storage::contents`] and
/// [`Storage::infallible`] stand for such backends, whose state no proof
/// can see.
pub trait Storage: Sized {
    /// What the backend currently holds.  A verified implementation
    /// overrides this with its real model.
    open spec fn contents(&self) -> Map<Seq<u8>, Seq<u8>> {
        Map::empty()
    }

    /// Whether this backend can never fail transiently.  A remote backend
    /// leaves this `false`; the in-memory one overrides it, which pins its
    /// operations to the `Ok` branch of their contracts.
    open spec fn infallible(&self) -> bool {
        false
    }

    /// Reads the value bound to `key`; `Ok(None)` when the key is unbound.
    fn get(&self, key: &[u8]) -> (r: Result<Option<Vec<u8>>, StorageError>)
        ensures
            match r {
                Ok(Some(v)) => self.contents().contains_key(key@) && v@ == self.contents()[key@],
                Ok(None) => !self.contents().contains_key(key@),
                Err(_) => true,
            },
            self.infallible() ==> r is Ok,
    ;

    /// Binds `key` to `value`, replacing any earlier binding.  On a
    /// transient failure nothing is changed.
    fn set(&mut self, key: &[u8], value: Vec<u8>) -> (r: Result<(), StorageError>)
        ensures
            match r {
                Ok(_) => final (self).contents() == old(self).contents().insert(key@, value@),
                Err(_) => final (self).contents() == old(self).contents(),
            },
            old(self).infallible() ==> r is Ok,
            final (self).infallible() == old(self).infallible(),
    ;
}

// ---------------------------------------------------------------------------
// An in-memory backend
// ---------------------------------------------------------------------------

/// The map described by an append-only association list where the latest
/// binding of a key wins.
pub open spec fn assoc_contents(s: Seq<(Vec<u8>, Vec<u8>)>) -> Map<Seq<u8>, Seq<u8>>
    decreases s.len(),
{
    if s.len() == 0 {
        Map::empty()
    } else {
        assoc_contents(s.drop_last()).insert(s.last().0@, s.last().1@)
    }
}

proof fn lemma_assoc_found(s: Seq<(Vec<u8>, Vec<u8>)>, i: int)
    requires
        0 <= i < s.len(),
        forall|j: int| i < j < s.len() ==> (#[trigger] s[j]).0@ != s[i].0@,
    ensures
        assoc_contents(s).contains_key(s[i].0@),
        assoc_contents(s)[s[i].0@] == s[i].1@,
    decreases s.len(),
{
    if i < s.len() - 1 {
        lemma_assoc_found(s.drop_last(), i);
    }
}

proof fn lemma_assoc_missing(s: Seq<(Vec<u8>, Vec<u8>)>, k: Seq<u8>)
    requires
        forall|j: int| 0 <= j < s.len() ==> (#[trigger] s[j]).0@ != k,
    ensures
        !assoc_contents(s).contains_key(k),
    decreases s.len(),
{
    if s.len() > 0 {
        lemma_assoc_missing(s.drop_last(), k);
    }
}

/// Byte-string equality, the comparison the in-memory backend keys on.
pub fn bytes_eq(a: &[u8], b: &[u8]) -> (r: bool)
    ensures
        r == (a@ == b@),
{
    if a.len() != b.len() {
        return false;
    }
    let n = a.len();
    for i in 0..n
        invariant
            n == a@.len() == b@.len(),
            forall|j: int| 0 <= j < i ==> a@[j] == b@[j],
    {
        if *vstd::slice::slice_index_get(a, i) != *vstd::slice::slice_index_get(b, i) {
            return false;
        }
    }
    proof {
        assert(a@ =~= b@);
    }
    true
}

/// An in-memory [`Storage`] backend: an append-only association list.
/// Useful on its own for a single-process gateway, and the verified model
/// every remote backend must behave like.
pub struct MemStorage {
    entries: Vec<(Vec<u8>, Vec<u8>)>,
}

impl MemStorage {
    /// An empty backend.
    pub fn new() -> (r: MemStorage)
        ensures
            r.contents() == Map::<Seq<u8>, Seq<u8>>::empty(),
    {
        MemStorage { entries: Vec::new() }
    }
}

impl Storage for MemStorage {
    closed spec fn contents(&self) -> Map<Seq<u8>, Seq<u8>> {
        assoc_contents(self.entries@)
    }

    open spec fn infallible(&self) -> bool {
        true
    }

    fn get(&self, key: &[u8]) -> (r: Result<Option<Vec<u8>>, StorageError>) {
        let mut i = self.entries.len();
        while i > 0
            invariant
                i <= self.entries.len(),
                forall|j: int|
                    i <= j < self.entries@.len() ==> (#[trigger] self.entries@[j]).0@ != key@,
            decreases i,
        {
            i = i - 1;
            if bytes_eq(self.entries[i].0.as_slice(), key) {
                proof {
                    lemma_assoc_found(self.entries@, i as int);
                }
                return Ok(Some(vstd::slice::slice_to_vec(self.entries[i].1.as_slice())));
            }
        }
        proof {
            lemma_assoc_missing(self.entries@, key@);
        }
        Ok(None)
    }

    fn set(&mut self, key: &[u8], value: Vec<u8>) -> (r: Result<(), StorageError>) {
        let owned = vstd::slice::slice_to_vec(key);
        self.entries.push((owned, value));
        proof {
            assert(self.entries@.drop_last() =~= old(self).entries@);
        }
        Ok(())
    }
}

} // verus!
