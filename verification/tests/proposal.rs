use deip::deip_proposal::encode_batch;
use deip::deip_proposal::encode_bytes;
use deip::deip_proposal::proposal_id_source;
use deip::deip_proposal::BatchItemOf;
use deip::deip_proposal::BatchItemX;
use deip::deip_proposal::DeipProposal;
use deip::deip_proposal::MemberDecisionState;
use deip::deip_proposal::Pallet;
use deip::deip_proposal::ProposalState;
use deip::primitives::ensure_signed;
use deip::primitives::DispatchError;
use deip::primitives::Origin;
use deip::primitives::Pays;
use deip::primitives::PostDispatchInfo;
use parity_scale_codec::Compact;
use parity_scale_codec::Encode;
use sp_crypto_hashing::twox_256;

fn item(account: u64, call: &[u8]) -> BatchItemOf {
    BatchItemX { account, extrinsic: call.to_vec() }
}

fn batch() -> Vec<BatchItemOf> {
    vec![item(1, &[0xaa, 0xbb]), item(2, &[]), item(1, &[0x01])]
}

fn scale_batch(items: &[BatchItemOf]) -> Vec<u8> {
    let mut v = Compact(items.len() as u32).encode();
    for it in items {
        v.extend(it.account.encode());
        v.extend(it.extrinsic.iter().copied());
    }
    v
}

#[test]
fn new_proposal_is_pending_with_one_pending_decision_per_item() {
    let p = DeipProposal::new(batch(), 7);
    assert_eq!(p.state(), ProposalState::Pending);
    assert_eq!(p.author(), 7);
    assert_eq!(p.batch(), &batch());
    assert_eq!(p.decisions(), &vec![MemberDecisionState::Pending; 3]);
}

#[test]
fn builder_holds_the_batch() {
    let b = DeipProposal::builder(batch());
    assert_eq!(b.batch(), &batch());
}

#[test]
fn decide_refuses_a_non_member() {
    let mut p = DeipProposal::new(batch(), 7);
    match p.decide(3) {
        Err(msg) => assert_eq!(msg, "Not a member"),
        Ok(_) => panic!("account 3 is not a member"),
    }
    assert_eq!(p.decisions(), &vec![MemberDecisionState::Pending; 3]);
}

#[test]
fn decide_takes_the_first_item_of_the_member() {
    let mut p = DeipProposal::new(batch(), 7);
    let d = p.decide(1).unwrap();
    assert_eq!(d.0.extrinsic, vec![0xaa, 0xbb]);
    assert_eq!(d.approve(), Ok(MemberDecisionState::Approve));
    assert_eq!(
        p.decisions(),
        &vec![MemberDecisionState::Approve, MemberDecisionState::Pending, MemberDecisionState::Pending]
    );
}

#[test]
fn a_decision_is_made_once() {
    let mut p = DeipProposal::new(batch(), 7);
    assert_eq!(p.decide(2).unwrap().decline(), Ok(MemberDecisionState::Decline));
    assert_eq!(p.decide(2).unwrap().approve(), Err(MemberDecisionState::Decline));
    assert_eq!(p.decide(2).unwrap().decline(), Err(MemberDecisionState::Decline));
    assert_eq!(p.decisions()[1], MemberDecisionState::Decline);
}

#[test]
fn batch_encoding_is_scale() {
    let b = batch();
    let enc = encode_batch(&b);
    assert_eq!(enc, scale_batch(&b));
    assert_eq!(
        enc,
        vec![12, 1, 0, 0, 0, 0, 0, 0, 0, 0xaa, 0xbb, 2, 0, 0, 0, 0, 0, 0, 0, 1, 0, 0, 0, 0, 0, 0, 0, 0x01]
    );
}

#[test]
fn batch_encoding_uses_two_byte_length_from_64_items() {
    let b: Vec<BatchItemOf> = (0..64).map(|i| item(i, &[])).collect();
    let enc = encode_batch(&b);
    assert_eq!(&enc[0..2], &[0x01, 0x01]);
    assert_eq!(enc, scale_batch(&b));
    assert_eq!(encode_batch(&Vec::new()), vec![0]);
}

#[test]
fn proposal_id_is_the_digest_of_author_and_batch_digests() {
    let p = DeipProposal::new(batch(), 7);
    let author_hash = twox_256(&7u64.encode());
    let batch_hash = twox_256(&scale_batch(&batch()).encode());
    let expected = twox_256(&[author_hash, batch_hash].concat().encode());
    assert_eq!(p.id(), expected);
    assert_ne!(p.id(), DeipProposal::new(batch(), 8).id());
}

#[test]
fn byte_vectors_are_encoded_with_their_length() {
    let v = vec![9u8; 64];
    let enc = encode_bytes(&v);
    assert_eq!(&enc[0..2], &[0x01, 0x01]);
    assert_eq!(enc.len(), 66);
    assert_eq!(enc, v.encode());
    assert_eq!(encode_bytes(&vec![5u8, 6]), vec![8, 5, 6]);
}

#[test]
fn id_source_is_both_digests_in_order() {
    let a = [1u8; 32];
    let b = [2u8; 32];
    let src = proposal_id_source(&a, &b);
    assert_eq!(src.len(), 64);
    assert_eq!(&src[0..32], &a);
    assert_eq!(&src[32..64], &b);
}

#[test]
fn ensure_signed_accepts_only_signed_origins() {
    assert!(matches!(ensure_signed(Origin::Signed(5)), Ok(5)));
    assert!(matches!(ensure_signed(Origin::Root), Err(DispatchError::BadOrigin)));
    assert!(matches!(ensure_signed(Origin::Unsigned), Err(DispatchError::BadOrigin)));
}

#[test]
fn propose_from_an_unsigned_origin_is_refused() {
    let mut pallet = Pallet::new();
    let res = pallet.propose(Origin::Unsigned, batch());
    assert!(matches!(res, Err(DispatchError::BadOrigin)));
    assert!(pallet.pending_proposals(1).is_empty());
}

#[test]
fn propose_stores_the_proposal_and_marks_it_pending_for_members() {
    let mut pallet = Pallet::new();
    let id = DeipProposal::new(batch(), 7).id();
    let res = pallet.propose(Origin::Signed(7), batch());
    assert!(matches!(res, Ok(PostDispatchInfo { actual_weight: Some(0), pays_fee: Pays::Yes })));
    assert!(pallet.contains_proposal(7, &id));
    assert!(!pallet.contains_proposal(8, &id));
    let stored = pallet.proposal(7, &id).unwrap();
    assert_eq!(stored.batch(), &batch());
    assert_eq!(stored.author(), 7);
    assert_eq!(pallet.pending_proposals(1), vec![id]);
    assert_eq!(pallet.pending_proposals(2), vec![id]);
    assert!(pallet.pending_proposals(7).is_empty());
}

#[test]
fn proposing_the_same_batch_twice_is_refused() {
    let mut pallet = Pallet::new();
    assert!(pallet.propose(Origin::Signed(7), batch()).is_ok());
    match pallet.propose(Origin::Signed(7), batch()) {
        Err(DispatchError::Other(msg)) => assert_eq!(msg, "exists"),
        _ => panic!("a second identical proposal must be refused"),
    }
    assert_eq!(pallet.pending_proposals(1).len(), 1);
    assert!(pallet.propose(Origin::Signed(8), batch()).is_ok());
    assert_eq!(pallet.pending_proposals(1).len(), 2);
}

#[test]
fn store_proposal_keeps_ids_of_each_member_once_in_ascending_order() {
    let mut pallet = Pallet::new();
    let a = [3u8; 32];
    let mut b = [3u8; 32];
    b[31] = 4;
    let c = [4u8; 32];
    assert!(pallet.store_proposal(9, c, DeipProposal::new(batch(), 9)).is_ok());
    assert!(pallet.store_proposal(9, a, DeipProposal::new(vec![item(1, &[])], 9)).is_ok());
    assert!(pallet.store_proposal(8, b, DeipProposal::new(vec![item(1, &[]), item(1, &[])], 8)).is_ok());
    assert_eq!(pallet.pending_proposals(1), vec![a, b, c]);
    assert_eq!(pallet.pending_proposals(2), vec![c]);
    match pallet.store_proposal(9, a, DeipProposal::new(vec![item(5, &[])], 9)) {
        Err(DispatchError::Other(msg)) => assert_eq!(msg, "exists"),
        _ => panic!("the same author and id must be refused"),
    }
    assert!(pallet.pending_proposals(5).is_empty());
}

#[test]
fn hash_below_compares_bytes_from_the_first() {
    let mut a = [0u8; 32];
    let mut b = [0u8; 32];
    a[0] = 1;
    b[31] = 0xff;
    assert!(deip::primitives::hash_below(&b, &a));
    assert!(!deip::primitives::hash_below(&a, &b));
    assert!(!deip::primitives::hash_below(&a, &a));
    a[0] = 0;
    a[17] = 1;
    assert!(deip::primitives::hash_below(&b, &a));
}

#[test]
fn approve_refuses_unsigned_and_root_origins() {
    let mut pallet = Pallet::new();
    assert!(matches!(pallet.approve(Origin::Unsigned), Err(DispatchError::BadOrigin)));
    assert!(matches!(pallet.approve(Origin::Root), Err(DispatchError::BadOrigin)));
}

#[test]
fn explore_reports_no_weight_for_any_origin() {
    let pallet = Pallet::new();
    let expected = PostDispatchInfo { actual_weight: None, pays_fee: Pays::Yes };
    assert!(matches!(pallet.explore(Origin::Signed(1)), Ok(info) if info == expected));
    assert!(matches!(pallet.explore(Origin::Unsigned), Ok(info) if info == expected));
}
