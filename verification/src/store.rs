//! Durable record store.
//!
//! [`RawStore`] holds the backing `StableBTreeMap` from the
//! `ic_stable_structures` crate behind a handful of trusted wrappers;
//! Verus sees it only through the uninterpreted contents map
//! [`raw_contents`]. [`ProposalStore`] is the verified layer on top:
//! it keeps every stored byte string the exact encoding of a valid
//! record within the byte cap, so reads always decode.

use vstd::prelude::*;
use crate::codec::{
    decode_proposal, encode_proposal, encode, encoded_len, lemma_decode_encode, lemma_encode_len,
    lemma_enc_voted_len, MAX_RECORD_BYTES,
};
use crate::proposal::{Proposal, ProposalView, VoteError};
use ic_stable_structures::DefaultMemoryImpl;
use ic_stable_structures::StableBTreeMap;

verus! {

/// What the raw store holds: a map from key to stored byte string.
pub uninterp spec fn raw_contents(s: RawStore) -> Map<u64, Seq<u8>>;

/// The backing durable map. Its entries survive for as long as the
/// memory handed to it does; this crate sees it only through the
/// trusted wrappers below.
#[verifier::external_body]
pub struct RawStore {
    map: StableBTreeMap<u64, Vec<u8>, DefaultMemoryImpl>,
}

impl RawStore {
    /// Relies on StableBTreeMap::new: a freshly created map over fresh
    /// memory holds no entries.
    #[verifier::external_body]
    pub(crate) fn new() -> (r: RawStore)
        ensures
            raw_contents(r).dom() == Set::<u64>::empty(),
    {
        RawStore { map: StableBTreeMap::new(DefaultMemoryImpl::default()) }
    }

    /// Relies on StableBTreeMap::get: returns a copy of the value
    /// stored under the key, or nothing if the key is absent.
    #[verifier::external_body]
    pub(crate) fn get(&self, key: u64) -> (r: Option<Vec<u8>>)
        ensures
            match r {
                Some(v) => raw_contents(*self).contains_key(key) && v@ == raw_contents(*self)[key],
                None => !raw_contents(*self).contains_key(key),
            },
    {
        self.map.get(&key)
    }

    /// Relies on StableBTreeMap::insert: stores the value under the
    /// key and returns the previous value if one existed.
    #[verifier::external_body]
    pub(crate) fn insert(&mut self, key: u64, value: Vec<u8>) -> (r: Option<Vec<u8>>)
        ensures
            raw_contents(*final(self)) == raw_contents(*old(self)).insert(key, value@),
            match r {
                Some(prev) => raw_contents(*old(self)).contains_key(key) && prev@ == raw_contents(
                    *old(self),
                )[key],
                None => !raw_contents(*old(self)).contains_key(key),
            },
    {
        self.map.insert(key, value)
    }

    /// Relies on StableBTreeMap::len: returns the number of entries.
    #[verifier::external_body]
    pub(crate) fn len(&self) -> (r: u64)
        ensures
            r as nat == raw_contents(*self).dom().len(),
    {
        self.map.len()
    }
}

/// The verified record store: a durable mapping from keys to proposal
/// records. Its view is the mathematical map of the records it holds.
pub struct ProposalStore {
    raw: RawStore,
    model: Ghost<Map<u64, ProposalView>>,
}

impl View for ProposalStore {
    type V = Map<u64, ProposalView>;

    closed spec fn view(&self) -> Map<u64, ProposalView> {
        self.model@
    }
}

impl ProposalStore {
    /// The store's internal soundness: every stored byte string is the
    /// encoding of the valid record the model holds for that key, and
    /// stays within the byte cap.
    pub closed spec fn wf(&self) -> bool {
        &&& self.model@.dom().finite()
        &&& raw_contents(self.raw).dom() == self.model@.dom()
        &&& forall|k: u64| self.model@.dom().contains(k) ==> {
            &&& raw_contents(self.raw)[k] == encode(#[trigger] self.model@[k])
            &&& self.model@[k].valid()
            &&& encoded_len(self.model@[k]) <= MAX_RECORD_BYTES
        }
    }

    /// An empty store.
    pub fn new() -> (r: ProposalStore)
        ensures
            r.wf(),
            r@ == Map::<u64, ProposalView>::empty(),
    {
        let raw = RawStore::new();
        let r = ProposalStore { raw, model: Ghost(Map::empty()) };
        proof {
            assert(raw_contents(r.raw).dom() =~= r.model@.dom());
        }
        r
    }

    /// The number of records held.
    pub fn count(&self) -> (r: u64)
        requires
            self.wf(),
        ensures
            r as nat == self@.dom().len(),
    {
        self.raw.len()
    }

    /// A copy of the record under `key`, or nothing if the key was
    /// never written.
    pub fn get(&self, key: u64) -> (r: Option<Proposal>)
        requires
            self.wf(),
        ensures
            match r {
                Some(p) => self@.contains_key(key) && p@ == self@[key] && p@.valid()
                    && encoded_len(p@) <= MAX_RECORD_BYTES,
                None => !self@.contains_key(key),
            },
    {
        match self.raw.get(key) {
            None => None,
            Some(bytes) => {
                proof {
                    lemma_store_fits(self@[key]);
                    lemma_decode_encode(self@[key]);
                }
                match decode_proposal(&bytes) {
                    Some(p) => Some(p),
                    None => {
                        proof {
                            assert(false);
                        }
                        None
                    },
                }
            },
        }
    }

    /// Writes the record under `key`, returning the previous record if
    /// the key was occupied, or refuses a record over the byte cap and
    /// leaves the store unchanged.
    pub fn put(&mut self, key: u64, p: Proposal) -> (r: Result<Option<Proposal>, VoteError>)
        requires
            old(self).wf(),
            p@.valid(),
        ensures
            final(self).wf(),
            match r {
                Ok(prev) => {
                    &&& encoded_len(p@) <= MAX_RECORD_BYTES
                    &&& final(self)@ == old(self)@.insert(key, p@)
                    &&& match prev {
                        Some(q) => old(self)@.contains_key(key) && q@ == old(self)@[key],
                        None => !old(self)@.contains_key(key),
                    }
                },
                Err(e) => {
                    &&& e == VoteError::RecordTooLarge
                    &&& encoded_len(p@) > MAX_RECORD_BYTES
                    &&& final(self)@ == old(self)@
                },
            },
    {
        let ghost v = p@;
        match encode_proposal(&p) {
            None => Err(VoteError::RecordTooLarge),
            Some(bytes) => {
                let prev_bytes = self.raw.insert(key, bytes);
                proof {
                    self.model@ = self.model@.insert(key, v);
                    assert(raw_contents(self.raw).dom() =~= self.model@.dom());
                    lemma_encode_len(v);
                }
                match prev_bytes {
                    None => Ok(None),
                    Some(pb) => {
                        proof {
                            lemma_store_fits(old(self)@[key]);
                            lemma_decode_encode(old(self)@[key]);
                        }
                        match decode_proposal(&pb) {
                            Some(q) => Ok(Some(q)),
                            None => {
                                proof {
                                    assert(false);
                                }
                                Ok(None)
                            },
                        }
                    },
                }
            },
        }
    }
}

/// A valid record within the byte cap is one the wire format carries.
pub proof fn lemma_store_fits(v: ProposalView)
    requires
        v.valid(),
        encoded_len(v) <= MAX_RECORD_BYTES,
    ensures
        crate::codec::fits(v),
{
    lemma_enc_voted_len(v.voted);
}

} // verus!
