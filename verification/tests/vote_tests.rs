use trie_rcv::vote::RankedVote;
use trie_rcv::vote::SpecialVotes;

use trie_rcv::vote::ToVotes;
use trie_rcv::vote::VoteErrors;
use trie_rcv::vote::VoteValues;
#[test]
fn test_empty_vote_not_allowed() {
    let cast_result = RankedVote::from_vector(&vec![]);
    assert!(cast_result.is_err());
}

#[test]
fn test_duplicate_vote_not_allowed() {
    let cast_result = RankedVote::from_vector(&vec![1, 2, 1]);
    assert!(cast_result.is_err());
}

#[test]
fn test_special_vote_enum_consistency() {
    let withhold_vote_val = SpecialVotes::from_int(SpecialVotes::WITHHOLD.to_int()).unwrap();
    let abstain_vote_val = SpecialVotes::from_int(SpecialVotes::ABSTAIN.to_int()).unwrap();

    assert_ne!(withhold_vote_val, abstain_vote_val);
    assert_eq!(withhold_vote_val, SpecialVotes::WITHHOLD);
    assert_eq!(abstain_vote_val, SpecialVotes::ABSTAIN);
}

#[test]
fn test_non_final_special_votes_not_allowed() {
    let cast_result = RankedVote::from_vector(&vec![1, 2, 4, SpecialVotes::WITHHOLD.to_int(), 1]);
    assert!(cast_result.is_err());
}

#[test]
fn test_from_to_vector() {
    // converting from a raw vector and back yields the same raw vector
    let raw_ranked_vote = vec![1, 2, 6, 3];
    assert_eq!(
        RankedVote::from_vector(&raw_ranked_vote).unwrap().to_vector(),
        raw_ranked_vote
    )
}

#[test]
fn test_from_vector_zero_candidate_allowed() {
    let vote = RankedVote::from_vector(&vec![0, 3]).unwrap();
    assert_eq!(vote.to_vector(), vec![0, 3]);
}

#[test]
fn test_from_vector_error_kinds() {
    assert_eq!(
        RankedVote::from_vector(&vec![]).unwrap_err(),
        VoteErrors::VoteIsEmpty
    );
    assert_eq!(
        RankedVote::from_vector(&vec![5, 5]).unwrap_err(),
        VoteErrors::DuplicateVotes
    );
    assert_eq!(
        RankedVote::from_vector(&vec![-1, 2]).unwrap_err(),
        VoteErrors::NonFinalSpecialVote
    );
    assert_eq!(
        RankedVote::from_vector(&vec![1, -7]).unwrap_err(),
        VoteErrors::InvalidCastToSpecialVote
    );
    assert_eq!(
        RankedVote::from_vector(&vec![1, 100000]).unwrap_err(),
        VoteErrors::InvalidCastToSpecialVote
    );
}

#[test]
fn test_vote_value_round_trip() {
    let candidate = VoteValues::from_int(42).unwrap();
    assert_eq!(candidate.to_int(), 42);
    let withhold = VoteValues::from_int(-1).unwrap();
    assert_eq!(withhold, VoteValues::SpecialVote(SpecialVotes::WITHHOLD));
    let abstain = VoteValues::from_int(-2).unwrap();
    assert_eq!(abstain, VoteValues::SpecialVote(SpecialVotes::ABSTAIN));
    assert_eq!(
        VoteValues::from_int(-3).unwrap_err(),
        VoteErrors::InvalidCastToCandidate
    );
    assert_eq!(
        VoteValues::from_int(1 << 20).unwrap_err(),
        VoteErrors::InvalidCastToCandidate
    );
}

#[test]
fn test_len_get_and_iter() {
    let vote = RankedVote::from_vector(&vec![4, 7, -1]).unwrap();
    assert_eq!(vote.len(), 3);
    assert!(!vote.is_empty());
    assert_eq!(vote.get(0).unwrap(), VoteValues::Candidate(4));
    assert_eq!(vote.get(1).unwrap(), VoteValues::Candidate(7));
    assert_eq!(
        vote.get(2).unwrap(),
        VoteValues::SpecialVote(SpecialVotes::WITHHOLD)
    );
    assert_eq!(vote.get(3).unwrap_err(), VoteErrors::ReadOutOfBounds);

    let mut iter = vote.iter();
    assert_eq!(iter.next(), Some(VoteValues::Candidate(4)));
    assert_eq!(iter.next(), Some(VoteValues::Candidate(7)));
    assert_eq!(
        iter.next(),
        Some(VoteValues::SpecialVote(SpecialVotes::WITHHOLD))
    );
    assert_eq!(iter.next(), None);
}

#[test]
fn test_from_candidates_and_vectors() {
    let vote = RankedVote::from_candidates(&[9, 8, 7]).unwrap();
    assert_eq!(vote.to_vector(), vec![9, 8, 7]);

    let raws = vec![vec![1, 2], vec![2, 1]];
    let votes = RankedVote::from_vectors(&raws).unwrap();
    assert_eq!(votes.len(), 2);
    let votes2 = raws.to_votes().unwrap();
    assert_eq!(votes2.len(), 2);
    assert!(vec![vec![1, 1]].to_votes().is_err());
}
