//! End-to-end tests of the proposal registry.

use proposal_registry::codec::{decode_proposal, encode_proposal, encoded_size};
use proposal_registry::principal::Principal;
use proposal_registry::proposal::{Choice, Proposal, VoteError};
use proposal_registry::service::{
    create_proposal, edit_proposal, end_proposal, get_proposal, get_proposal_count, vote,
};
use proposal_registry::store::ProposalStore;

fn principal(tag: &[u8]) -> Principal {
    Principal::from_bytes(tag.to_vec()).expect("identity within the length bound")
}

fn chars(s: &str) -> Vec<char> {
    s.chars().collect()
}

fn sample(desc: &str, active: bool, owner: &Principal) -> Proposal {
    Proposal {
        description: chars(desc),
        approve: 3,
        reject: -2,
        pass: -1,
        is_active: active,
        voted: vec![principal(b"ann"), principal(b"bob"), principal(b"cyd")],
        owner: owner.dup(),
    }
}

#[test]
fn absent_key_reads_absent_and_mutations_report_no_such_proposal() {
    let mut store = ProposalStore::new();
    let a = principal(b"alice");
    assert!(get_proposal(&store, 7).is_none());
    assert_eq!(get_proposal_count(&store), 0);
    assert_eq!(
        edit_proposal(&mut store, &a, 7, chars("x"), true),
        Err(VoteError::NoSuchProposal)
    );
    assert_eq!(end_proposal(&mut store, &a, 7), Err(VoteError::NoSuchProposal));
    assert_eq!(vote(&mut store, &a, 7, Choice::Approve), Err(VoteError::NoSuchProposal));
    assert!(get_proposal(&store, 7).is_none());
}

#[test]
fn codec_round_trips_record() {
    let owner = principal(b"owner");
    let record = sample("a description, with punctuation \u{e9}\u{4e16}\u{1f600}", true, &owner);
    let bytes = encode_proposal(&record).expect("record fits the cap");
    let back = decode_proposal(&bytes).expect("an encoding decodes");
    assert_eq!(back.description, record.description);
    assert_eq!(back.approve, 3);
    assert_eq!(back.reject, -2);
    assert_eq!(back.pass, -1);
    assert!(back.is_active);
    assert_eq!(back.voted.len(), 3);
    for (x, y) in back.voted.iter().zip(record.voted.iter()) {
        assert!(x.same_as(y));
    }
    assert!(back.owner.same_as(&record.owner));
}

#[test]
fn codec_round_trips_bytes() {
    let owner = principal(b"o");
    let record = sample("plain", false, &owner);
    let bytes = encode_proposal(&record).expect("record fits the cap");
    let back = decode_proposal(&bytes).expect("an encoding decodes");
    let again = encode_proposal(&back).expect("still fits");
    assert_eq!(again, bytes);
}

#[test]
fn codec_exact_size_and_layout() {
    let owner = principal(b"ow");
    let record = Proposal {
        description: chars("AB"),
        approve: 1,
        reject: 0,
        pass: -1,
        is_active: true,
        voted: vec![principal(b"v")],
        owner,
    };
    // 13 fixed + (4 + 2) owner + (4 + 4*2) description + 4 count + (4 + 1) entry
    assert_eq!(encoded_size(&record), Some(40));
    let bytes = encode_proposal(&record).unwrap();
    assert_eq!(bytes.len(), 40);
    assert_eq!(bytes[0], 1); // active flag
    assert_eq!(&bytes[1..5], &[1u8, 0, 0, 0][..]); // approve = 1
    assert_eq!(&bytes[9..13], &[255u8, 255, 255, 255][..]); // pass = -1
    assert_eq!(&bytes[13..17], &[2u8, 0, 0, 0][..]); // owner length
    assert_eq!(&bytes[17..19], &b"ow"[..]);
    assert_eq!(&bytes[19..23], &[2u8, 0, 0, 0][..]); // description length
    assert_eq!(&bytes[23..27], &[b'A', 0, 0, 0][..]);
}

#[test]
fn decode_rejects_malformed_bytes() {
    assert!(decode_proposal(&vec![]).is_none());
    assert!(decode_proposal(&vec![2]).is_none()); // bad flag
    assert!(decode_proposal(&vec![1, 0, 0]).is_none()); // truncated
    let owner = principal(b"q");
    let record = sample("d", true, &owner);
    let mut bytes = encode_proposal(&record).unwrap();
    bytes.push(0); // trailing byte
    assert!(decode_proposal(&bytes).is_none());
    let bytes2 = encode_proposal(&record).unwrap();
    let mut truncated = bytes2.clone();
    truncated.pop();
    assert!(decode_proposal(&truncated).is_none());
}

#[test]
fn create_then_read_back() {
    let mut store = ProposalStore::new();
    let a = principal(b"A");
    let prev = create_proposal(&mut store, &a, 1, chars("D"), true).expect("fits");
    assert!(prev.is_none());
    assert_eq!(get_proposal_count(&store), 1);
    let p = get_proposal(&store, 1).expect("present");
    assert_eq!(p.description, chars("D"));
    assert_eq!(p.approve, 0);
    assert_eq!(p.reject, 0);
    assert_eq!(p.pass, 0);
    assert!(p.is_active);
    assert!(p.voted.is_empty());
    assert!(p.owner.same_as(&a));
}

#[test]
fn create_overwrites_and_returns_previous() {
    let mut store = ProposalStore::new();
    let a = principal(b"A");
    let b = principal(b"B");
    create_proposal(&mut store, &a, 5, chars("first"), true).unwrap();
    let prev = create_proposal(&mut store, &b, 5, chars("second"), false).unwrap();
    let prev = prev.expect("key was occupied");
    assert_eq!(prev.description, chars("first"));
    assert!(prev.owner.same_as(&a));
    let now = get_proposal(&store, 5).unwrap();
    assert_eq!(now.description, chars("second"));
    assert!(now.owner.same_as(&b));
    assert_eq!(get_proposal_count(&store), 1);
}

#[test]
fn oversized_description_is_refused() {
    let mut store = ProposalStore::new();
    let a = principal(b"A");
    let long: Vec<char> = std::iter::repeat('x').take(2000).collect();
    assert!(matches!(
        create_proposal(&mut store, &a, 1, long.clone(), true),
        Err(VoteError::RecordTooLarge)
    ));
    assert!(get_proposal(&store, 1).is_none());
    // the same description is refused on edit, leaving the record alone
    create_proposal(&mut store, &a, 1, chars("short"), true).unwrap();
    assert_eq!(
        edit_proposal(&mut store, &a, 1, long, true),
        Err(VoteError::RecordTooLarge)
    );
    assert_eq!(get_proposal(&store, 1).unwrap().description, chars("short"));
}

#[test]
fn only_the_owner_edits() {
    let mut store = ProposalStore::new();
    let a = principal(b"A");
    let b = principal(b"B");
    create_proposal(&mut store, &a, 1, chars("D"), true).unwrap();
    vote(&mut store, &b, 1, Choice::Approve).unwrap();
    let before = encode_proposal(&get_proposal(&store, 1).unwrap()).unwrap();
    assert_eq!(
        edit_proposal(&mut store, &b, 1, chars("E"), false),
        Err(VoteError::AccessRejected)
    );
    assert_eq!(end_proposal(&mut store, &b, 1), Err(VoteError::AccessRejected));
    let after = encode_proposal(&get_proposal(&store, 1).unwrap()).unwrap();
    assert_eq!(before, after);
}

#[test]
fn edit_preserves_counters_and_voters() {
    let mut store = ProposalStore::new();
    let a = principal(b"A");
    let b = principal(b"B");
    create_proposal(&mut store, &a, 1, chars("D"), true).unwrap();
    vote(&mut store, &b, 1, Choice::Reject).unwrap();
    edit_proposal(&mut store, &a, 1, chars("E"), false).unwrap();
    let p = get_proposal(&store, 1).unwrap();
    assert_eq!(p.description, chars("E"));
    assert!(!p.is_active);
    assert_eq!(p.reject, 1);
    assert_eq!(p.voted.len(), 1);
    assert!(p.voted[0].same_as(&b));
    assert!(p.owner.same_as(&a));
}

#[test]
fn vote_rejected_on_repeat_and_counts_once() {
    let mut store = ProposalStore::new();
    let a = principal(b"A");
    let b = principal(b"B");
    create_proposal(&mut store, &a, 1, chars("D"), true).unwrap();
    assert_eq!(vote(&mut store, &b, 1, Choice::Approve), Ok(()));
    assert_eq!(vote(&mut store, &b, 1, Choice::Approve), Err(VoteError::AlreadyVoted));
    let p = get_proposal(&store, 1).unwrap();
    assert_eq!(p.approve, 1);
    assert_eq!(p.voted.len(), 1);
    // a different choice by the same identity is still a repeat
    assert_eq!(vote(&mut store, &b, 1, Choice::Reject), Err(VoteError::AlreadyVoted));
    assert_eq!(get_proposal(&store, 1).unwrap().reject, 0);
}

#[test]
fn pass_vote_decrements_its_counter() {
    let mut store = ProposalStore::new();
    let a = principal(b"A");
    create_proposal(&mut store, &a, 1, chars("D"), true).unwrap();
    vote(&mut store, &principal(b"p1"), 1, Choice::Pass).unwrap();
    vote(&mut store, &principal(b"p2"), 1, Choice::Pass).unwrap();
    let p = get_proposal(&store, 1).unwrap();
    assert_eq!(p.pass, -2);
    assert_eq!(p.approve, 0);
    assert_eq!(p.reject, 0);
}

#[test]
fn closing_twice_succeeds_and_changes_nothing_else() {
    let mut store = ProposalStore::new();
    let a = principal(b"A");
    let b = principal(b"B");
    create_proposal(&mut store, &a, 1, chars("D"), true).unwrap();
    vote(&mut store, &b, 1, Choice::Approve).unwrap();
    assert_eq!(end_proposal(&mut store, &a, 1), Ok(()));
    let first = get_proposal(&store, 1).unwrap();
    assert!(!first.is_active);
    assert_eq!(end_proposal(&mut store, &a, 1), Ok(()));
    let second = get_proposal(&store, 1).unwrap();
    assert!(!second.is_active);
    assert_eq!(second.approve, 1);
    assert_eq!(second.reject, 0);
    assert_eq!(second.pass, 0);
    assert_eq!(second.voted.len(), 1);
    assert_eq!(
        encode_proposal(&first).unwrap(),
        encode_proposal(&second).unwrap()
    );
}

#[test]
fn voting_on_closed_proposal_is_refused() {
    let mut store = ProposalStore::new();
    let a = principal(b"A");
    create_proposal(&mut store, &a, 1, chars("D"), false).unwrap();
    assert_eq!(
        vote(&mut store, &principal(b"C"), 1, Choice::Reject),
        Err(VoteError::ProposalIsNotActive)
    );
    assert_eq!(get_proposal(&store, 1).unwrap().reject, 0);
}

#[test]
fn full_scenario() {
    let mut store = ProposalStore::new();
    let a = principal(b"A");
    let b = principal(b"B");
    let c = principal(b"C");
    create_proposal(&mut store, &a, 1, chars("D"), true).unwrap();
    let p = get_proposal(&store, 1).unwrap();
    assert!(p.owner.same_as(&a));
    assert_eq!(p.approve, 0);
    assert!(p.voted.is_empty());
    assert_eq!(vote(&mut store, &b, 1, Choice::Approve), Ok(()));
    let p = get_proposal(&store, 1).unwrap();
    assert_eq!(p.approve, 1);
    assert_eq!(p.voted.len(), 1);
    assert!(p.voted[0].same_as(&b));
    assert_eq!(vote(&mut store, &b, 1, Choice::Approve), Err(VoteError::AlreadyVoted));
    assert_eq!(get_proposal(&store, 1).unwrap().approve, 1);
    assert_eq!(end_proposal(&mut store, &a, 1), Ok(()));
    assert!(!get_proposal(&store, 1).unwrap().is_active);
    assert_eq!(vote(&mut store, &c, 1, Choice::Reject), Err(VoteError::ProposalIsNotActive));
}

#[test]
fn principal_length_bound_enforced() {
    assert!(Principal::from_bytes(vec![7u8; 29]).is_some());
    assert!(Principal::from_bytes(vec![7u8; 30]).is_none());
    let p = Principal::from_bytes(vec![1, 2, 3]).unwrap();
    assert_eq!(p.to_bytes(), vec![1, 2, 3]);
    assert_eq!(p.byte_len(), 3);
    assert!(p.same_as(&p.dup()));
    assert!(!p.same_as(&principal(b"zz")));
}

#[test]
fn count_tracks_distinct_keys() {
    let mut store = ProposalStore::new();
    let a = principal(b"A");
    for key in 0..5u64 {
        create_proposal(&mut store, &a, key, chars("d"), true).unwrap();
    }
    assert_eq!(get_proposal_count(&store), 5);
    create_proposal(&mut store, &a, 3, chars("again"), true).unwrap();
    assert_eq!(get_proposal_count(&store), 5);
}

#[test]
fn byte_cap_boundary() {
    let mut store = ProposalStore::new();
    let a = principal(b"A");
    // 13 fixed + (4 + 1) owner + 4 + 4*len description + 4 count
    let at_cap: Vec<char> = std::iter::repeat('x').take(1243).collect();
    assert!(create_proposal(&mut store, &a, 1, at_cap, true).is_ok());
    let over_cap: Vec<char> = std::iter::repeat('x').take(1244).collect();
    assert!(matches!(
        create_proposal(&mut store, &a, 2, over_cap, true),
        Err(VoteError::RecordTooLarge)
    ));
}

#[test]
fn vote_refused_when_record_would_exceed_cap() {
    let mut store = ProposalStore::new();
    let a = principal(b"A");
    let near_cap: Vec<char> = std::iter::repeat('x').take(1243).collect();
    create_proposal(&mut store, &a, 1, near_cap, true).unwrap();
    let voter = principal(&[9u8; 29]);
    assert_eq!(
        vote(&mut store, &voter, 1, Choice::Approve),
        Err(VoteError::RecordTooLarge)
    );
    let p = get_proposal(&store, 1).unwrap();
    assert_eq!(p.approve, 0);
    assert!(p.voted.is_empty());
}
