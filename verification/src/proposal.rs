//! The proposal record and its invariants.

use vstd::prelude::*;
use crate::principal::{Principal, MAX_PRINCIPAL_BYTES};

verus! {

/// A ballot choice. `Approve` and `Reject` raise their counters by one;
/// `Pass` lowers its counter by one, matching the registry's historical
/// counting rule for abstentions.
#[derive(PartialEq, Eq, Structural, Clone, Copy, Debug)]
pub enum Choice {
    Approve,
    Reject,
    Pass,
}

/// Why an operation was refused. Every variant is reported to the
/// caller; none is fatal.
#[derive(PartialEq, Eq, Structural, Clone, Copy, Debug)]
pub enum VoteError {
    /// The caller already appears in the proposal's voter set.
    AlreadyVoted,
    /// The proposal has been closed, so no further votes are taken.
    ProposalIsNotActive,
    /// No record exists under the given key.
    NoSuchProposal,
    /// The caller is not the owner of the record.
    AccessRejected,
    /// The store reported that a confirmed-existing record was missing
    /// during the write-back: a store-level consistency failure.
    UpdateError,
    /// The record's serialized form would exceed the store's byte cap.
    RecordTooLarge,
}

/// A votable record. The owner is fixed at creation; the counters and
/// the voter set change only through voting, and `is_active` only ever
/// falls from `true` to `false`.
pub struct Proposal {
    pub description: Vec<char>,
    pub approve: i32,
    pub reject: i32,
    pub pass: i32,
    pub is_active: bool,
    pub voted: Vec<Principal>,
    pub owner: Principal,
}

/// The mathematical image of a [`Proposal`]: identities as byte
/// sequences, the description as its characters.
pub struct ProposalView {
    pub description: Seq<char>,
    pub approve: i32,
    pub reject: i32,
    pub pass: i32,
    pub is_active: bool,
    pub voted: Seq<Seq<u8>>,
    pub owner: Seq<u8>,
}

impl View for Proposal {
    type V = ProposalView;

    open spec fn view(&self) -> ProposalView {
        ProposalView {
            description: self.description@,
            approve: self.approve,
            reject: self.reject,
            pass: self.pass,
            is_active: self.is_active,
            voted: self.voted@.map_values(|p: Principal| p@),
            owner: self.owner@,
        }
    }
}

impl ProposalView {
    /// The structural invariant every stored record satisfies: bounded
    /// identities, no identity voting twice, and counters that cannot
    /// have moved further from zero than one step per recorded voter.
    pub open spec fn valid(self) -> bool {
        &&& self.owner.len() <= MAX_PRINCIPAL_BYTES
        &&& forall|i: int| 0 <= i < self.voted.len() ==> (#[trigger] self.voted[i]).len()
            <= MAX_PRINCIPAL_BYTES
        &&& forall|i: int, j: int|
            0 <= i < j < self.voted.len() ==> self.voted[i] != self.voted[j]
        &&& -(self.voted.len() as int) <= self.approve as int <= self.voted.len() as int
        &&& -(self.voted.len() as int) <= self.reject as int <= self.voted.len() as int
        &&& -(self.voted.len() as int) <= self.pass as int <= self.voted.len() as int
    }
}

/// Whether `x` appears among `voted`.
pub fn contains_principal(voted: &Vec<Principal>, x: &Principal) -> (r: bool)
    ensures
        r == voted@.map_values(|p: Principal| p@).contains(x@),
{
    let ghost ids = voted@.map_values(|p: Principal| p@);
    let mut i: usize = 0;
    while i < voted.len()
        invariant
            i <= voted@.len(),
            ids == voted@.map_values(|p: Principal| p@),
            ids.len() == voted@.len(),
            forall|j: int| 0 <= j < i ==> ids[j] != x@,
        decreases voted@.len() - i,
    {
        if voted[i].same_as(x) {
            proof {
                assert(ids[i as int] == x@);
            }
            return true;
        }
        i = i + 1;
    }
    proof {
        assert(forall|j: int| 0 <= j < ids.len() ==> ids[j] != x@);
    }
    false
}

} // verus!
