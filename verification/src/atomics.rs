//! Atomic operations: increment and optimistic compare-and-swap.
//!
//! `increment` is a single read-modify-write on a key's numeric value.
//! A `Cas` handle captures a key's present-or-absent state and version at
//! read time (`current`) and is consumed exactly once by `swap`, which
//! commits only if the captured version is still the key's current
//! version.  A handle that never read commits unconditionally (a blind
//! write).  A failed swap carries a fresh handle that has already
//! recaptured the now-current state, so the caller can retry without a
//! further read round trip.

use crate::codec::{decode_value, encode_i64, encode_value, is_valid_i64, decode_i64};
use crate::store::{Error, Store};
use vstd::map::*;
use vstd::prelude::*;
use vstd::wrapping::i64_specs;

verus! {

/// The numeric value an increment starts from: `0` where the key is
/// absent, the decoded integer where the stored bytes are a valid
/// representation, and nothing — a type mismatch — otherwise.
pub open spec fn numeric_of(m: Map<Seq<char>, (Seq<u8>, u64)>, k: Seq<char>) -> Option<i64> {
    if !m.contains_key(k) {
        Some(0i64)
    } else if is_valid_i64(m[k].0) {
        Some(decode_i64(m[k].0))
    } else {
        None
    }
}

/// Atomically adds `delta` to the key's numeric value (an absent key
/// counts as `0`), stores the result and returns it.  The read, the
/// addition and the write are one operation on the store; the sum wraps
/// as `i64` addition does.  Fails with `TypeMismatch`, leaving the store
/// untouched, exactly when the stored value is not a valid integer
/// representation.
pub fn increment(store: &mut Store, key: &str, delta: i64) -> (r: Result<i64, Error>)
    requires
        old(store).inv(),
        old(store).version_bound() < u64::MAX,
    ensures
        final(store).inv(),
        final(store).namespace() == old(store).namespace(),
        match r {
            Ok(n) => match numeric_of(old(store)@, key@) {
                Some(cur) => {
                    &&& n == i64_specs::wrapping_add(cur, delta)
                    &&& final(store)@ == old(store)@.insert(
                        key@,
                        (encode_i64(n), old(store).version_bound()),
                    )
                    &&& final(store).version_bound() == old(store).version_bound() + 1
                },
                None => false,
            },
            Err(e) => {
                &&& e == Error::TypeMismatch
                &&& numeric_of(old(store)@, key@) is None
                &&& *final(store) == *old(store)
            },
        },
{
    let cur: i64 = match store.record(key) {
        Some(p) => match decode_value(p.0.as_slice()) {
            Some(n) => n,
            None => {
                return Err(Error::TypeMismatch);
            },
        },
        None => 0,
    };
    let n = cur.wrapping_add(delta);
    let bytes = encode_value(n);
    store.write(key, bytes);
    Ok(n)
}

/// What a handle has captured: nothing yet, the key's absence, or the
/// key's value and version at capture time.
#[derive(Debug)]
enum CaptureState {
    NotRead,
    Absent,
    Present(Vec<u8>, u64),
}

/// A compare-and-swap handle: a key bound for one later conditional
/// write, together with the state captured for it, if any.
#[derive(Debug)]
pub struct Cas {
    key: String,
    state: CaptureState,
}

/// The failures of a swap.  `CasFailed` is the sole logical failure: the
/// captured version was stale, and the payload is a fresh handle that has
/// already recaptured the now-current state for a retry.  `Backend` wraps
/// the plain failures of the store; this in-memory engine never produces
/// it.
#[derive(Debug)]
pub enum CasError {
    CasFailed(Cas),
    Backend(Error),
}

/// Does a capture still match the store?  A handle that never read
/// matches any state; an absent capture matches while the key is absent;
/// a version capture matches while the key is present with exactly that
/// version.
pub open spec fn cas_matches(
    m: Map<Seq<char>, (Seq<u8>, u64)>,
    cap: Option<Option<(Seq<u8>, u64)>>,
    k: Seq<char>,
) -> bool {
    match cap {
        None => true,
        Some(None) => !m.contains_key(k),
        Some(Some(c)) => m.contains_key(k) && m[k].1 == c.1,
    }
}

/// The capture a fresh read of the store would take for the key.
pub open spec fn recapture(m: Map<Seq<char>, (Seq<u8>, u64)>, k: Seq<char>) -> Option<
    Option<(Seq<u8>, u64)>,
> {
    if m.contains_key(k) {
        Some(Some(m[k]))
    } else {
        Some(None::<(Seq<u8>, u64)>)
    }
}

impl Cas {
    /// The key the handle is bound to.
    pub closed spec fn key_view(&self) -> Seq<char> {
        self.key@
    }

    /// The handle's captured state: `None` before any read, `Some(None)`
    /// for a captured absence, `Some(Some((value, version)))` for a
    /// captured record.
    pub closed spec fn capture(&self) -> Option<Option<(Seq<u8>, u64)>> {
        match self.state {
            CaptureState::NotRead => None,
            CaptureState::Absent => Some(None::<(Seq<u8>, u64)>),
            CaptureState::Present(v, ver) => Some(Some((v@, ver))),
        }
    }

    /// Binds a handle to a store and key.  It performs no read: the
    /// handle starts with nothing captured.
    pub fn new(_store: &Store, key: &str) -> (c: Cas)
        ensures
            c.key_view() == key@,
            c.capture() is None,
    {
        Cas { key: key.to_owned(), state: CaptureState::NotRead }
    }

    /// Reads the key's current state into the handle and returns the
    /// value, or `None` where the key is absent.  The first call captures
    /// the key's state and version at that instant; once captured, the
    /// state is immutable for the life of the handle, and later calls
    /// return the captured value unchanged.
    pub fn current(&mut self, store: &Store) -> (r: Result<Option<Vec<u8>>, Error>)
        requires
            store.inv(),
        ensures
            final(self).key_view() == old(self).key_view(),
            old(self).capture() is Some ==> *final(self) == *old(self),
            old(self).capture() is None ==> final(self).capture() == recapture(
                store@,
                old(self).key_view(),
            ),
            match r {
                Ok(v) => match final(self).capture() {
                    Some(Some(c)) => match v {
                        Some(b) => b@ == c.0,
                        None => false,
                    },
                    Some(None) => v is None,
                    None => false,
                },
                Err(_) => false,
            },
    {
        match &self.state {
            CaptureState::Absent => {
                return Ok(None);
            },
            CaptureState::Present(v, _) => {
                return Ok(Some(vstd::slice::slice_to_vec(v.as_slice())));
            },
            CaptureState::NotRead => {},
        }
        match store.record(self.key.as_str()) {
            Some(p) => {
                let value = vstd::slice::slice_to_vec(p.0.as_slice());
                self.state = CaptureState::Present(p.0, p.1);
                Ok(Some(value))
            },
            None => {
                self.state = CaptureState::Absent;
                Ok(None)
            },
        }
    }
}

/// Consumes the handle and conditionally writes `value` under its key.
/// A handle that never read commits unconditionally; a handle with a
/// capture commits exactly when the capture still matches the store, and
/// a commit advances the key's version.  When the capture is stale the
/// store is left untouched and the failure carries a fresh handle that
/// has already recaptured the now-current state.
pub fn swap(cas: Cas, store: &mut Store, value: &[u8]) -> (r: Result<(), CasError>)
    requires
        old(store).inv(),
        old(store).version_bound() < u64::MAX,
    ensures
        final(store).inv(),
        final(store).namespace() == old(store).namespace(),
        cas_matches(old(store)@, cas.capture(), cas.key_view()) ==> ({
            &&& r is Ok
            &&& final(store)@ == old(store)@.insert(
                cas.key_view(),
                (value@, old(store).version_bound()),
            )
            &&& final(store).version_bound() == old(store).version_bound() + 1
        }),
        !cas_matches(old(store)@, cas.capture(), cas.key_view()) ==> ({
            &&& *final(store) == *old(store)
            &&& match r {
                Err(CasError::CasFailed(c2)) => c2.key_view() == cas.key_view()
                    && c2.capture() == recapture(old(store)@, cas.key_view()),
                _ => false,
            }
        }),
{
    let Cas { key, state } = cas;
    match state {
        CaptureState::NotRead => {
            store.set(key.as_str(), value);
            Ok(())
        },
        CaptureState::Absent => {
            match store.record(key.as_str()) {
                None => {
                    store.set(key.as_str(), value);
                    Ok(())
                },
                Some(p) => {
                    Err(
                        CasError::CasFailed(
                            Cas { key, state: CaptureState::Present(p.0, p.1) },
                        ),
                    )
                },
            }
        },
        CaptureState::Present(_, ver) => {
            match store.record(key.as_str()) {
                Some(p) => {
                    if p.1 == ver {
                        store.set(key.as_str(), value);
                        Ok(())
                    } else {
                        Err(
                            CasError::CasFailed(
                                Cas { key, state: CaptureState::Present(p.0, p.1) },
                            ),
                        )
                    }
                },
                None => Err(CasError::CasFailed(Cas { key, state: CaptureState::Absent })),
            }
        },
    }
}

/// Increments compound: starting from an absent key, an increment by `d1`
/// yields `d1`, and a second increment by `d2` on what the first stored
/// yields `d1 + d2`, as long as the running total stays in range.
pub proof fn lemma_increment_twice(
    m: Map<Seq<char>, (Seq<u8>, u64)>,
    k: Seq<char>,
    nv: u64,
    d1: i64,
    d2: i64,
)
    requires
        !m.contains_key(k),
        i64::MIN <= d1 + d2 <= i64::MAX,
    ensures
        numeric_of(m, k) == Some(0i64),
        i64_specs::wrapping_add(0i64, d1) == d1,
        numeric_of(m.insert(k, (encode_i64(d1), nv)), k) == Some(d1),
        i64_specs::wrapping_add(d1, d2) == d1 + d2,
{
    crate::codec::lemma_codec_round_trip(d1);
}

/// Blind-write race: a swap whose handle never read matches any state, so
/// two such swaps on one key both succeed, and the store ends exactly as
/// if only the second write had happened — last write wins, which is not
/// a failure: no read means no version check.
pub proof fn lemma_blind_swaps_both_succeed(
    m: Map<Seq<char>, (Seq<u8>, u64)>,
    k: Seq<char>,
    v1: Seq<u8>,
    v2: Seq<u8>,
    nv1: u64,
    nv2: u64,
)
    ensures
        cas_matches(m, None::<Option<(Seq<u8>, u64)>>, k),
        cas_matches(m.insert(k, (v1, nv1)), None::<Option<(Seq<u8>, u64)>>, k),
        m.insert(k, (v1, nv1)).insert(k, (v2, nv2)) == m.insert(k, (v2, nv2)),
{
    assert_maps_equal!(m.insert(k, (v1, nv1)).insert(k, (v2, nv2)) , m.insert(k, (v2, nv2)));
}

/// Versioned race: two handles capture the key's same present version;
/// the first swap commits and gives the key a fresh version, so the
/// second handle's capture no longer matches and its swap fails; the
/// refreshed handle the failure carries has recaptured the new state, and
/// the retried swap with it matches.  Exactly one of two same-capture
/// swaps succeeds.
pub proof fn lemma_versioned_race(
    m: Map<Seq<char>, (Seq<u8>, u64)>,
    k: Seq<char>,
    v1: Seq<u8>,
    nv: u64,
)
    requires
        m.contains_key(k),
        m[k].1 < nv,
    ensures
        cas_matches(m, recapture(m, k), k),
        !cas_matches(m.insert(k, (v1, nv)), recapture(m, k), k),
        cas_matches(m.insert(k, (v1, nv)), recapture(m.insert(k, (v1, nv)), k), k),
{
}

/// Cross-deletion race: with the key absent, two handles both capture
/// "absent"; the first swap creates the key, so the second handle's
/// capture no longer matches and its swap fails; the refreshed handle
/// carries the first swap's value and version — its `current` returns
/// that value — and the retried swap with it matches.
pub proof fn lemma_absent_capture_race(
    m: Map<Seq<char>, (Seq<u8>, u64)>,
    k: Seq<char>,
    v1: Seq<u8>,
    nv: u64,
)
    requires
        !m.contains_key(k),
    ensures
        cas_matches(m, Some(None::<(Seq<u8>, u64)>), k),
        !cas_matches(m.insert(k, (v1, nv)), Some(None::<(Seq<u8>, u64)>), k),
        recapture(m.insert(k, (v1, nv)), k) == Some(Some((v1, nv))),
        cas_matches(m.insert(k, (v1, nv)), Some(Some((v1, nv))), k),
{
}

} // verus!
