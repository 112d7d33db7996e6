//! Proposal service operations.
//!
//! Each operation reads the current record (if any), validates the
//! caller and the record's state, computes the new record and writes it
//! back as a single store operation. A failed check leaves the store
//! unchanged. The caller identity is supplied by the hosting execution
//! boundary and passed in explicitly.

use vstd::prelude::*;
use crate::codec::{encoded_len, lemma_enc_voted_len, MAX_RECORD_BYTES};
use crate::principal::Principal;
use crate::proposal::{contains_principal, Choice, Proposal, ProposalView, VoteError};
use crate::store::ProposalStore;

verus! {

/// The record a create operation writes: counters zeroed, no voters,
/// owned by the caller.
pub open spec fn created_view(description: Seq<char>, is_active: bool, owner: Seq<u8>) -> ProposalView {
    ProposalView {
        description: description,
        approve: 0,
        reject: 0,
        pass: 0,
        is_active: is_active,
        voted: Seq::empty(),
        owner: owner,
    }
}

/// The record an edit writes: description and activity replaced,
/// owner, counters and voters kept.
pub open spec fn edited_view(rec: ProposalView, description: Seq<char>, is_active: bool) -> ProposalView {
    ProposalView {
        description: description,
        approve: rec.approve,
        reject: rec.reject,
        pass: rec.pass,
        is_active: is_active,
        voted: rec.voted,
        owner: rec.owner,
    }
}

/// The record a close writes: only the activity flag falls to false.
pub open spec fn closed_view(rec: ProposalView) -> ProposalView {
    ProposalView {
        description: rec.description,
        approve: rec.approve,
        reject: rec.reject,
        pass: rec.pass,
        is_active: false,
        voted: rec.voted,
        owner: rec.owner,
    }
}

/// The record a vote writes: the chosen counter stepped (approve and
/// reject up by one, pass down by one), the voter recorded.
pub open spec fn voted_view(rec: ProposalView, voter: Seq<u8>, choice: Choice) -> ProposalView {
    ProposalView {
        description: rec.description,
        approve: if choice == Choice::Approve {
            (rec.approve + 1) as i32
        } else {
            rec.approve
        },
        reject: if choice == Choice::Reject {
            (rec.reject + 1) as i32
        } else {
            rec.reject
        },
        pass: if choice == Choice::Pass {
            (rec.pass - 1) as i32
        } else {
            rec.pass
        },
        is_active: rec.is_active,
        voted: rec.voted.push(voter),
        owner: rec.owner,
    }
}

/// A copy of the record under `key`, or nothing if the key was never
/// written. Reading is public: no authorization check.
pub fn get_proposal(store: &ProposalStore, key: u64) -> (r: Option<Proposal>)
    requires
        store.wf(),
    ensures
        match r {
            Some(p) => store@.contains_key(key) && p@ == store@[key],
            None => !store@.contains_key(key),
        },
{
    store.get(key)
}

/// The number of proposals held.
pub fn get_proposal_count(store: &ProposalStore) -> (r: u64)
    requires
        store.wf(),
    ensures
        r as nat == store@.dom().len(),
{
    store.count()
}

/// Writes a fresh record under `key`, owned by the caller, returning
/// the record previously under the key if one existed (overwrite
/// semantics: a second create on the same key replaces the record).
/// Refused only where the fresh record would exceed the byte cap.
pub fn create_proposal(
    store: &mut ProposalStore,
    caller: &Principal,
    key: u64,
    description: Vec<char>,
    is_active: bool,
) -> (r: Result<Option<Proposal>, VoteError>)
    requires
        old(store).wf(),
        caller.wf(),
    ensures
        final(store).wf(),
        ({
            let new_rec = created_view(description@, is_active, caller@);
            match r {
                Ok(prev) => {
                    &&& encoded_len(new_rec) <= MAX_RECORD_BYTES
                    &&& final(store)@ == old(store)@.insert(key, new_rec)
                    &&& match prev {
                        Some(q) => old(store)@.contains_key(key) && q@ == old(store)@[key],
                        None => !old(store)@.contains_key(key),
                    }
                },
                Err(e) => {
                    &&& e == VoteError::RecordTooLarge
                    &&& encoded_len(new_rec) > MAX_RECORD_BYTES
                    &&& final(store)@ == old(store)@
                },
            }
        }),
{
    let value = Proposal {
        description: description,
        approve: 0,
        reject: 0,
        pass: 0,
        is_active: is_active,
        voted: Vec::new(),
        owner: caller.dup(),
    };
    proof {
        assert(value@.voted =~= Seq::<Seq<u8>>::empty());
        assert(value@ == created_view(value.description@, is_active, caller@));
    }
    store.put(key, value)
}

/// Rewrites the record under `key` with a new description and activity
/// flag, preserving its owner, counters and voters. Only the owner may
/// edit; a missing record, a foreign caller or an oversized result
/// each leave the store unchanged and name their error.
pub fn edit_proposal(
    store: &mut ProposalStore,
    caller: &Principal,
    key: u64,
    description: Vec<char>,
    is_active: bool,
) -> (r: Result<(), VoteError>)
    requires
        old(store).wf(),
    ensures
        final(store).wf(),
        ({
            let old_map = old(store)@;
            let new_rec = edited_view(old_map[key], description@, is_active);
            match r {
                Ok(u) => {
                    &&& old_map.contains_key(key)
                    &&& old_map[key].owner == caller@
                    &&& encoded_len(new_rec) <= MAX_RECORD_BYTES
                    &&& final(store)@ == old_map.insert(key, new_rec)
                },
                Err(e) => {
                    &&& final(store)@ == old_map
                    &&& if !old_map.contains_key(key) {
                        e == VoteError::NoSuchProposal
                    } else if old_map[key].owner != caller@ {
                        e == VoteError::AccessRejected
                    } else {
                        e == VoteError::RecordTooLarge && encoded_len(new_rec) > MAX_RECORD_BYTES
                    }
                },
            }
        }),
{
    let old_p = match store.get(key) {
        None => {
            return Err(VoteError::NoSuchProposal);
        },
        Some(p) => p,
    };
    if !old_p.owner.same_as(caller) {
        return Err(VoteError::AccessRejected);
    }
    let value = Proposal {
        description: description,
        approve: old_p.approve,
        reject: old_p.reject,
        pass: old_p.pass,
        is_active: is_active,
        voted: old_p.voted,
        owner: old_p.owner,
    };
    match store.put(key, value) {
        Err(e) => Err(e),
        Ok(prev) => match prev {
            Some(q) => Ok(()),
            None => {
                proof {
                    assert(false);
                }
                Err(VoteError::UpdateError)
            },
        },
    }
}

/// Closes the record under `key`: sets it inactive, leaving every
/// other field unchanged. Only the owner may close; closing an already
/// closed record succeeds and rewrites it unchanged.
pub fn end_proposal(store: &mut ProposalStore, caller: &Principal, key: u64) -> (r: Result<
    (),
    VoteError,
>)
    requires
        old(store).wf(),
    ensures
        final(store).wf(),
        ({
            let old_map = old(store)@;
            match r {
                Ok(u) => {
                    &&& old_map.contains_key(key)
                    &&& old_map[key].owner == caller@
                    &&& final(store)@ == old_map.insert(key, closed_view(old_map[key]))
                },
                Err(e) => {
                    &&& final(store)@ == old_map
                    &&& if !old_map.contains_key(key) {
                        e == VoteError::NoSuchProposal
                    } else {
                        old_map[key].owner != caller@ && e == VoteError::AccessRejected
                    }
                },
            }
        }),
{
    let old_p = match store.get(key) {
        None => {
            return Err(VoteError::NoSuchProposal);
        },
        Some(p) => p,
    };
    if !old_p.owner.same_as(caller) {
        return Err(VoteError::AccessRejected);
    }
    let value = Proposal {
        description: old_p.description,
        approve: old_p.approve,
        reject: old_p.reject,
        pass: old_p.pass,
        is_active: false,
        voted: old_p.voted,
        owner: old_p.owner,
    };
    match store.put(key, value) {
        Err(e) => {
            proof {
                assert(false);
            }
            Err(e)
        },
        Ok(prev) => match prev {
            Some(q) => Ok(()),
            None => {
                proof {
                    assert(false);
                }
                Err(VoteError::UpdateError)
            },
        },
    }
}

/// Records the caller's one-time vote on the active record under
/// `key`, stepping the counter its choice names. An absent record, a
/// repeated voter, a closed record or an oversized result each leave
/// the store unchanged and name their error; the repeat check comes
/// before the activity check.
pub fn vote(store: &mut ProposalStore, caller: &Principal, key: u64, choice: Choice) -> (r: Result<
    (),
    VoteError,
>)
    requires
        old(store).wf(),
        caller.wf(),
    ensures
        final(store).wf(),
        ({
            let old_map = old(store)@;
            let new_rec = voted_view(old_map[key], caller@, choice);
            match r {
                Ok(u) => {
                    &&& old_map.contains_key(key)
                    &&& !old_map[key].voted.contains(caller@)
                    &&& old_map[key].is_active
                    &&& encoded_len(new_rec) <= MAX_RECORD_BYTES
                    &&& final(store)@ == old_map.insert(key, new_rec)
                    &&& final(store)@[key].approve == old_map[key].approve + (
                    if choice == Choice::Approve {
                        1int
                    } else {
                        0int
                    })
                    &&& final(store)@[key].reject == old_map[key].reject + (
                    if choice == Choice::Reject {
                        1int
                    } else {
                        0int
                    })
                    &&& final(store)@[key].pass == old_map[key].pass - (
                    if choice == Choice::Pass {
                        1int
                    } else {
                        0int
                    })
                    &&& final(store)@[key].voted == old_map[key].voted.push(caller@)
                },
                Err(e) => {
                    &&& final(store)@ == old_map
                    &&& if !old_map.contains_key(key) {
                        e == VoteError::NoSuchProposal
                    } else if old_map[key].voted.contains(caller@) {
                        e == VoteError::AlreadyVoted
                    } else if !old_map[key].is_active {
                        e == VoteError::ProposalIsNotActive
                    } else {
                        e == VoteError::RecordTooLarge && encoded_len(new_rec) > MAX_RECORD_BYTES
                    }
                },
            }
        }),
{
    let old_p = match store.get(key) {
        None => {
            return Err(VoteError::NoSuchProposal);
        },
        Some(p) => p,
    };
    if contains_principal(&old_p.voted, caller) {
        return Err(VoteError::AlreadyVoted);
    }
    if !old_p.is_active {
        return Err(VoteError::ProposalIsNotActive);
    }
    proof {
        lemma_enc_voted_len(old_p@.voted);
        assert(4 * old_p@.voted.len() <= encoded_len(old_p@) - 25);
        assert(old_p@.voted.len() <= 1243);
    }
    let mut value = Proposal {
        description: old_p.description,
        approve: old_p.approve,
        reject: old_p.reject,
        pass: old_p.pass,
        is_active: old_p.is_active,
        voted: old_p.voted,
        owner: old_p.owner,
    };
    match choice {
        Choice::Approve => {
            value.approve = value.approve + 1;
        },
        Choice::Pass => {
            value.pass = value.pass - 1;
        },
        Choice::Reject => {
            value.reject = value.reject + 1;
        },
    }
    let ghost voted_before = value.voted@;
    value.voted.push(caller.dup());
    proof {
        assert(value@.voted =~= voted_before.map_values(|pr: Principal| pr@).push(caller@));
        assert(value@ == voted_view(old_p@, caller@, choice));
        lemma_vote_valid(old_p@, caller@, choice);
    }
    match store.put(key, value) {
        Err(e) => Err(e),
        Ok(prev) => match prev {
            Some(q) => Ok(()),
            None => {
                proof {
                    assert(false);
                }
                Err(VoteError::UpdateError)
            },
        },
    }
}

/// A vote by a fresh, well-formed identity on a valid record yields a
/// valid record: the voter set stays duplicate-free and the counters
/// stay within one step per recorded voter.
pub proof fn lemma_vote_valid(rec: ProposalView, voter: Seq<u8>, choice: Choice)
    requires
        rec.valid(),
        voter.len() <= crate::principal::MAX_PRINCIPAL_BYTES,
        !rec.voted.contains(voter),
        rec.voted.len() < 0x7fff_ffff,
    ensures
        voted_view(rec, voter, choice).valid(),
{
    let new_rec = voted_view(rec, voter, choice);
    assert forall|i: int| 0 <= i < new_rec.voted.len() implies (#[trigger] new_rec.voted[i]).len()
        <= crate::principal::MAX_PRINCIPAL_BYTES by {
        if i < rec.voted.len() {
            assert(new_rec.voted[i] == rec.voted[i]);
        } else {
            assert(new_rec.voted[i] == voter);
        }
    }
    assert forall|i: int, j: int| 0 <= i < j < new_rec.voted.len() implies new_rec.voted[i]
        != new_rec.voted[j] by {
        if j < rec.voted.len() {
            assert(rec.voted[i] != rec.voted[j]);
        } else {
            assert(new_rec.voted[j] == voter);
            assert(rec.voted[i] == new_rec.voted[i]);
            assert(!rec.voted.contains(voter));
            assert(rec.voted[i] != voter);
        }
    }
}

/// Closing is idempotent on the record: closing an already closed
/// record writes it back unchanged, with the counters and voters it
/// had.
pub proof fn lemma_close_idempotent(rec: ProposalView)
    ensures
        closed_view(closed_view(rec)) == closed_view(rec),
        closed_view(rec).approve == rec.approve,
        closed_view(rec).reject == rec.reject,
        closed_view(rec).pass == rec.pass,
        closed_view(rec).voted == rec.voted,
        closed_view(rec).owner == rec.owner,
{
}

/// A successful vote records the voter, so the same identity is
/// refused on any later vote for that record.
pub proof fn lemma_vote_marks_voter(rec: ProposalView, voter: Seq<u8>, choice: Choice)
    ensures
        voted_view(rec, voter, choice).voted.contains(voter),
{
    assert(voted_view(rec, voter, choice).voted[rec.voted.len() as int] == voter);
}

} // verus!


