//! Opaque byte payloads.

use std::sync::Arc;
use vstd::prelude::*;

verus! {

/// Reference-counted opaque application-defined byte payload.
///
/// Cloning this type shares the underlying bytes. This is useful for Raft command payloads
/// and snapshot payloads, which are normally passed around as immutable byte strings.
#[derive(Debug, PartialEq, Eq, PartialOrd, Ord, Hash)]
pub struct Bytes {
    inner: Arc<[u8]>,
}

impl View for Bytes {
    type V = Seq<u8>;

    closed spec fn view(&self) -> Seq<u8> {
        self.inner@
    }
}

/// `<Arc<[u8]> as From<Vec<u8>>>::from`: the shared slice holds the bytes of the vector.
#[verifier::external_body]
fn arc_from_vec(bytes: Vec<u8>) -> (shared: Arc<[u8]>)
    ensures
        shared@ == bytes@,
{
    Arc::from(bytes)
}

/// `<Arc<[u8]> as From<&[u8]>>::from`: the shared slice holds a copy of the bytes.
#[verifier::external_body]
fn arc_from_slice(bytes: &[u8]) -> (shared: Arc<[u8]>)
    ensures
        shared@ == bytes@,
{
    Arc::from(bytes)
}

impl Bytes {
    /// Makes a new payload from owned bytes.
    pub fn new(bytes: Vec<u8>) -> (payload: Self)
        ensures
            payload@ == bytes@,
    {
        Self { inner: arc_from_vec(bytes) }
    }

    /// Makes a new payload from shared bytes without copying.
    pub fn from_arc(bytes: Arc<[u8]>) -> (payload: Self)
        ensures
            payload@ == bytes@,
    {
        Self { inner: bytes }
    }

    /// Returns the payload as bytes.
    pub fn as_slice(&self) -> (bytes: &[u8])
        ensures
            bytes@ == self@,
    {
        &self.inner
    }

    /// Returns the shared payload.
    pub fn as_arc(&self) -> (shared: &Arc<[u8]>)
        ensures
            shared@ == self@,
    {
        &self.inner
    }

    /// Returns the payload length in bytes.
    pub fn len(&self) -> (len: usize)
        ensures
            len == self@.len(),
    {
        self.inner.len()
    }

    /// Returns `true` if this payload is empty.
    pub fn is_empty(&self) -> (empty: bool)
        ensures
            empty == (self@.len() == 0),
    {
        self.inner.len() == 0
    }

    /// Copies this payload into owned bytes.
    pub fn into_vec(self) -> (bytes: Vec<u8>)
        ensures
            bytes@ == self@,
    {
        let mut bytes: Vec<u8> = Vec::new();
        bytes.extend_from_slice(&self.inner);
        assert(bytes@ =~= self@);
        bytes
    }

    /// Converts this payload into shared bytes without copying.
    pub fn into_arc(self) -> (shared: Arc<[u8]>)
        ensures
            shared@ == self@,
    {
        self.inner
    }
}

impl Default for Bytes {
    fn default() -> (payload: Self)
        ensures
            payload@ == Seq::<u8>::empty(),
    {
        Self::new(Vec::new())
    }
}

impl Clone for Bytes {
    fn clone(&self) -> (copy: Self)
        ensures
            copy@ == self@,
    {
        Self { inner: self.inner.clone() }
    }
}

impl From<Vec<u8>> for Bytes {
    fn from(value: Vec<u8>) -> (payload: Self)
        ensures
            payload@ == value@,
    {
        Self::new(value)
    }
}

impl vstd::std_specs::convert::FromSpecImpl<Vec<u8>> for Bytes {
    open spec fn obeys_from_spec() -> bool {
        false
    }

    open spec fn from_spec(value: Vec<u8>) -> Self {
        arbitrary()
    }
}

impl From<Arc<[u8]>> for Bytes {
    fn from(value: Arc<[u8]>) -> (payload: Self)
        ensures
            payload@ == value@,
    {
        Self::from_arc(value)
    }
}

impl vstd::std_specs::convert::FromSpecImpl<Arc<[u8]>> for Bytes {
    open spec fn obeys_from_spec() -> bool {
        false
    }

    open spec fn from_spec(value: Arc<[u8]>) -> Self {
        arbitrary()
    }
}

impl From<&[u8]> for Bytes {
    fn from(value: &[u8]) -> (payload: Self)
        ensures
            payload@ == value@,
    {
        Self { inner: arc_from_slice(value) }
    }
}

impl vstd::std_specs::convert::FromSpecImpl<&[u8]> for Bytes {
    open spec fn obeys_from_spec() -> bool {
        false
    }

    open spec fn from_spec(value: &[u8]) -> Self {
        arbitrary()
    }
}

impl From<Bytes> for Arc<[u8]> {
    fn from(value: Bytes) -> (shared: Self)
        ensures
            shared@ == value@,
    {
        value.into_arc()
    }
}

impl vstd::std_specs::convert::FromSpecImpl<Bytes> for Arc<[u8]> {
    open spec fn obeys_from_spec() -> bool {
        false
    }

    open spec fn from_spec(value: Bytes) -> Self {
        arbitrary()
    }
}

impl AsRef<[u8]> for Bytes {
    fn as_ref(&self) -> (bytes: &[u8])
        ensures
            bytes@ == self@,
    {
        self.as_slice()
    }
}

} // verus!
