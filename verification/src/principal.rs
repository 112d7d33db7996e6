//! Caller identities.
//!
//! A [`Principal`] is the opaque identifier that the execution boundary
//! attaches to each incoming call. The service never inspects it beyond
//! equality; it only stores it as a proposal's owner and in the set of
//! identities that have voted.

use vstd::prelude::*;

verus! {

/// The longest identity the registry accepts, in bytes.
pub const MAX_PRINCIPAL_BYTES: usize = 29;

/// An authenticated caller identity: an opaque byte string compared
/// only for equality. Well-formed identities ([`Principal::wf`]) hold
/// at most [`MAX_PRINCIPAL_BYTES`] bytes, and [`Principal::from_bytes`]
/// builds nothing longer.
pub struct Principal {
    bytes: Vec<u8>,
}

impl View for Principal {
    type V = Seq<u8>;

    closed spec fn view(&self) -> Seq<u8> {
        self.bytes@
    }
}

impl Principal {
    /// An identity the registry accepts: one within the length bound.
    pub open spec fn wf(&self) -> bool {
        self@.len() <= MAX_PRINCIPAL_BYTES
    }

    /// Wraps raw identity bytes; anything longer than
    /// [`MAX_PRINCIPAL_BYTES`] bytes is rejected.
    pub fn from_bytes(bytes: Vec<u8>) -> (r: Option<Principal>)
        ensures
            bytes@.len() <= MAX_PRINCIPAL_BYTES ==> (r matches Some(p) && p@ == bytes@ && p.wf()),
            bytes@.len() > MAX_PRINCIPAL_BYTES ==> r is None,
    {
        if bytes.len() <= MAX_PRINCIPAL_BYTES {
            Some(Principal { bytes })
        } else {
            None
        }
    }

    /// The length of the identity in bytes.
    pub fn byte_len(&self) -> (r: usize)
        ensures
            r == self@.len(),
    {
        self.bytes.len()
    }

    /// A copy of the identity's raw bytes.
    pub fn to_bytes(&self) -> (r: Vec<u8>)
        ensures
            r@ == self@,
    {
        copy_bytes(&self.bytes)
    }

    /// An identical, independently owned identity.
    pub fn dup(&self) -> (r: Principal)
        ensures
            r@ == self@,
    {
        Principal { bytes: copy_bytes(&self.bytes) }
    }

    /// Identities are equal exactly when their bytes are.
    pub fn same_as(&self, other: &Principal) -> (r: bool)
        ensures
            r == (self@ == other@),
    {
        bytes_eq(&self.bytes, &other.bytes)
    }
}

/// A fresh vector holding the same bytes.
pub fn copy_bytes(v: &Vec<u8>) -> (r: Vec<u8>)
    ensures
        r@ == v@,
{
    let mut out: Vec<u8> = Vec::new();
    let mut i: usize = 0;
    while i < v.len()
        invariant
            i <= v@.len(),
            out@ == v@.take(i as int),
        decreases v@.len() - i,
    {
        out.push(v[i]);
        i = i + 1;
        proof {
            assert(out@ =~= v@.take(i as int));
        }
    }
    proof {
        assert(v@.take(v@.len() as int) =~= v@);
    }
    out
}

/// Whether two byte vectors hold the same bytes.
pub fn bytes_eq(a: &Vec<u8>, b: &Vec<u8>) -> (r: bool)
    ensures
        r == (a@ == b@),
{
    if a.len() != b.len() {
        proof {
            assert(a@.len() != b@.len());
        }
        return false;
    }
    let mut i: usize = 0;
    while i < a.len()
        invariant
            i <= a@.len(),
            a@.len() == b@.len(),
            forall|j: int| 0 <= j < i ==> a@[j] == b@[j],
        decreases a@.len() - i,
    {
        if a[i] != b[i] {
            return false;
        }
        i = i + 1;
    }
    proof {
        assert(a@ =~= b@);
    }
    true
}

} // verus!
