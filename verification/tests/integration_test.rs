use trie_rcv::{EliminationStrategies, RankedChoiceVoteTrie};
use trie_rcv::vote::{RankedVote, SpecialVotes};

use trie_rcv::TrieNode;
use trie_rcv::vote::VoteValues;
#[test]
fn test_basic_scenario() {
    let votes = RankedVote::from_vectors(&vec![
        vec![1, 2, 3, 4],
        vec![1, 2, 3],
        vec![3],
        vec![3, 2, 4],
        vec![4, 1],
    ])
    .unwrap();

    let rcv = RankedChoiceVoteTrie::new();
    let winner = rcv.run_election(votes);
    println!("WINNER = {:?}", winner);
    assert_eq!(
        winner,
        Some(1),
        "Vote 4 > 1 should go to 1, leading to Candidate 1 winning"
    );
}

#[test]
fn test_vote_insert() {
    let mut rcv = RankedChoiceVoteTrie::new();
    rcv.set_elimination_strategy(EliminationStrategies::EliminateAll);

    rcv.insert_vote(RankedVote::from_vector(&vec![1, 2, 3, 4]).unwrap());
    rcv.insert_vote(RankedVote::from_vector(&vec![1, 2, 3]).unwrap());
    rcv.insert_vote(RankedVote::from_vector(&vec![3]).unwrap());
    rcv.insert_vote(RankedVote::from_vector(&vec![3, 2, 4]).unwrap());
    rcv.insert_vote(RankedVote::from_vector(&vec![4, 1]).unwrap());
    let winner = rcv.determine_winner();
    println!("WINNER = {:?}", winner);
    assert_eq!(
        winner,
        Some(1),
        "Vote 4 > 1 should go to 1, leading to Candidate 1 winning"
    );
}

#[test]
fn test_simple_majority() {
    let votes = RankedVote::from_vectors(&vec![
        vec![1, 2, 3, 4],
        vec![1, 2, 3],
        vec![3],
        vec![3, 2, 4],
        vec![1, 2],
    ])
    .unwrap();

    let rcv = RankedChoiceVoteTrie::new();
    let winner = rcv.run_election(votes);
    println!("WINNER = {:?}", winner);
    assert_eq!(winner, Some(1), "Candidate 1 has majority");
}

#[test]
fn test_tie_scenario() {
    let votes = RankedVote::from_vectors(&vec![vec![1, 2], vec![2, 1]]).unwrap();

    let rcv = RankedChoiceVoteTrie::new();
    let winner = rcv.run_election(votes);
    println!("WINNER = {:?}", winner);
    assert_eq!(winner, None, "There should be a tie");
}

#[test]
fn test_withold_vote_end() {
    let withhold_vote_val: i32 = SpecialVotes::WITHHOLD.to_int();
    let votes = RankedVote::from_vectors(&vec![
        vec![1, withhold_vote_val],
        vec![2, 1],
        vec![3, 2],
        vec![3],
    ])
    .unwrap();

    let rcv = RankedChoiceVoteTrie::new();
    let winner = rcv.run_election(votes);
    println!("WINNER = {:?}", winner);
    assert_eq!(
        winner, None,
        "Candidate 1's vote should not count after round 1, no one should have majority"
    );
}

#[test]
fn test_abstain_vote_end() {
    let abstain_vote_val: i32 = SpecialVotes::ABSTAIN.to_int();
    let votes = RankedVote::from_vectors(&vec![
        vec![1, abstain_vote_val],
        vec![2, 1],
        vec![3, 2],
        vec![3],
    ])
    .unwrap();

    let rcv = RankedChoiceVoteTrie::new();
    let winner = rcv.run_election(votes);
    println!("WINNER = {:?}", winner);
    assert_eq!(
        winner,
        Some(3),
        "First vote is ignored in round 2, candidate 3 wins"
    );
}

#[test]
fn test_withhold_votes_only() {
    let withhold_vote_val: i32 = SpecialVotes::WITHHOLD.to_int();
    let abstain_vote_val: i32 = SpecialVotes::ABSTAIN.to_int();
    let votes = RankedVote::from_vectors(&vec![
        vec![withhold_vote_val],
        vec![withhold_vote_val],
        vec![withhold_vote_val],
        vec![abstain_vote_val],
    ])
    .unwrap();

    let rcv = RankedChoiceVoteTrie::new();
    let winner = rcv.run_election(votes);
    println!("WINNER = {:?}", winner);
    assert_eq!(winner, None);
}

#[test]
fn test_dowdall_elimination() {
    let votes = RankedVote::from_vectors(&vec![
        vec![1, 6, 15],
        vec![1, 2, 6, 15, 5, 4, 7, 3, 11],
        vec![6, 15, 1, 11, 10, 16, 17, 8, 2, 3, 5, 7],
        vec![9, 8, 6, 11, 13, 3, 1],
        vec![13, 14, 16, 6, 3, 4, 5, 2, 1, 8, 9],
    ])
    .unwrap();

    let rcv = RankedChoiceVoteTrie::new();
    let winner = rcv.run_election(votes);
    println!("WINNER = {:?}", winner);
    assert_eq!(winner, Some(6));
}

#[test]
fn test_all_elimination() {
    let votes = RankedVote::from_vectors(&vec![
        vec![1, 6, 15],
        vec![1, 2, 6, 15, 5, 4, 7, 3, 11],
        vec![6, 15, 1, 11, 10, 16, 17, 8, 2, 3, 5, 7],
        vec![9, 8, 6, 11, 13, 3, 1],
        vec![13, 14, 16, 6, 3, 4, 5, 2, 1, 8, 9],
    ])
    .unwrap();

    let mut rcv = RankedChoiceVoteTrie::new();
    rcv.set_elimination_strategy(EliminationStrategies::EliminateAll);
    let winner = rcv.run_election(votes);
    println!("WINNER = {:?}", winner);
    assert_eq!(winner, Some(1));
}

#[test]
fn test_spoiler_vote() {
    let t: i32 = 3;
    let s: i32 = 2;
    let b: i32 = 1;

    let mut raw_votes: Vec<Vec<i32>> = vec![];
    let mut k: u64 = 0;
    while k < 35 {
        raw_votes.push(vec![s, b, t]);
        k += 1;
    }
    let mut k: u64 = 0;
    while k < 10 {
        raw_votes.push(vec![b, s, t]);
        k += 1;
    }
    let mut k: u64 = 0;
    while k < 10 {
        raw_votes.push(vec![b, t, s]);
        k += 1;
    }
    let mut k: u64 = 0;
    while k < 45 {
        raw_votes.push(vec![t, b, s]);
        k += 1;
    }

    let votes = RankedVote::from_vectors(&raw_votes).unwrap();
    let mut rcv = RankedChoiceVoteTrie::new();
    rcv.set_elimination_strategy(EliminationStrategies::RankedPairs);
    let winner = rcv.run_election(votes);
    println!("WINNER = {:?}", winner);
    assert_eq!(winner, Some(t as u16));
}

#[test]
fn test_condorcet_vote() {
    let t: i32 = 3;
    let s: i32 = 2;
    let b: i32 = 1;

    let mut raw_votes: Vec<Vec<i32>> = vec![];
    let mut k: u64 = 0;
    while k < 35 {
        raw_votes.push(vec![s, b, t]);
        k += 1;
    }
    let mut k: u64 = 0;
    while k < 10 {
        raw_votes.push(vec![b, s, t]);
        k += 1;
    }
    let mut k: u64 = 0;
    while k < 10 {
        raw_votes.push(vec![b, t, s]);
        k += 1;
    }
    let mut k: u64 = 0;
    while k < 45 {
        raw_votes.push(vec![t, b, s]);
        k += 1;
    }

    let votes = RankedVote::from_vectors(&raw_votes).unwrap();
    let mut rcv = RankedChoiceVoteTrie::new();
    rcv.set_elimination_strategy(EliminationStrategies::CondorcetRankedPairs);
    let winner = rcv.run_election(votes);
    println!("WINNER = {:?}", winner);
    assert_eq!(winner, Some(b as u16));
}

#[test]
fn test_get_num_votes_counts_inserts() {
    let mut rcv = RankedChoiceVoteTrie::new();
    assert_eq!(rcv.get_num_votes(), 0);
    rcv.insert_vote(RankedVote::from_vector(&vec![1, 2]).unwrap());
    rcv.insert_vote(RankedVote::from_vector(&vec![2]).unwrap());
    assert_eq!(rcv.get_num_votes(), 2);
}

#[test]
fn test_insert_votes_matches_one_by_one() {
    let raws = vec![vec![1, 2, 3], vec![2, 3], vec![3, 1], vec![1]];
    let mut a = RankedChoiceVoteTrie::new();
    a.insert_votes(RankedVote::from_vectors(&raws).unwrap());
    let mut b = RankedChoiceVoteTrie::new();
    for raw in &raws {
        b.insert_vote(RankedVote::from_vector(raw).unwrap());
    }
    assert_eq!(a.get_num_votes(), b.get_num_votes());
    assert_eq!(a.determine_winner(), b.determine_winner());
}

#[test]
fn test_search_nodes_follows_prefixes() {
    let mut rcv = RankedChoiceVoteTrie::new();
    rcv.insert_vote(RankedVote::from_vector(&vec![1, 2, 3]).unwrap());
    rcv.insert_vote(RankedVote::from_vector(&vec![1, 2]).unwrap());
    rcv.insert_vote(RankedVote::from_vector(&vec![2, 1]).unwrap());

    let prefix = RankedVote::from_vector(&vec![1, 2]).unwrap();
    let path = rcv.search_nodes(prefix).expect("prefix must be present");
    assert_eq!(path.len(), 3);
    assert_eq!(path[0].get_num_votes(), 3);
    assert_eq!(path[1].get_num_votes(), 2);
    assert_eq!(path[2].get_num_votes(), 2);

    let missing = RankedVote::from_vector(&vec![3, 1]).unwrap();
    assert!(rcv.search_nodes(missing).is_none());
}

#[test]
fn test_trie_node_api() {
    let mut node = TrieNode::new();
    assert_eq!(node.get_num_votes(), 0);
    assert!(node.search_child(VoteValues::Candidate(5)).is_none());
    let idx = node.search_or_create_child(VoteValues::Candidate(5));
    assert_eq!(idx, 0);
    let idx2 = node.search_or_create_child(VoteValues::Candidate(5));
    assert_eq!(idx2, 0);
    assert!(node.search_child(VoteValues::Candidate(5)).is_some());
}

#[test]
fn test_insertion_order_does_not_change_outcome() {
    let raws_one = vec![vec![1, 2], vec![2, 1], vec![2], vec![3, 2], vec![2, 3]];
    let mut raws_two = raws_one.clone();
    raws_two.reverse();

    let mut a = RankedChoiceVoteTrie::new();
    a.insert_votes(RankedVote::from_vectors(&raws_one).unwrap());
    let mut b = RankedChoiceVoteTrie::new();
    b.insert_votes(RankedVote::from_vectors(&raws_two).unwrap());
    assert_eq!(a.determine_winner(), b.determine_winner());
    assert_eq!(a.determine_winner(), Some(2));
}

#[test]
fn test_ranked_pairs_differs_from_eliminate_all() {
    // three candidates tie at the bottom; head-to-head they form a chain, so
    // ranked pairs eliminates only its end while plain elimination drops all
    // three at once and the election unwinds differently
    let mut raws: Vec<Vec<i32>> = vec![];
    let mut k: u64 = 0;
    while k < 3 {
        raws.push(vec![9, 1, 2, 3]);
        k += 1;
    }
    let mut k: u64 = 0;
    while k < 2 {
        raws.push(vec![1, 2, 3, 9]);
        k += 1;
    }
    let mut k: u64 = 0;
    while k < 2 {
        raws.push(vec![2, 3, 1, 9]);
        k += 1;
    }
    let mut k: u64 = 0;
    while k < 2 {
        raws.push(vec![3, 2, 1, 9]);
        k += 1;
    }

    let mut plain = RankedChoiceVoteTrie::new();
    plain.set_elimination_strategy(EliminationStrategies::EliminateAll);
    let plain_winner = plain.run_election(RankedVote::from_vectors(&raws).unwrap());

    let mut rp = RankedChoiceVoteTrie::new();
    rp.set_elimination_strategy(EliminationStrategies::RankedPairs);
    let rp_winner = rp.run_election(RankedVote::from_vectors(&raws).unwrap());
    println!("PLAIN = {:?}, RANKED_PAIRS = {:?}", plain_winner, rp_winner);
    assert_ne!(plain_winner, rp_winner);
}

#[test]
fn test_pairwise_table_counts() {
    // full ballots: every pair's two counts split the hundred ballots
    let t: i32 = 3;
    let s: i32 = 2;
    let b: i32 = 1;
    let mut raws: Vec<Vec<i32>> = vec![];
    let mut k: u64 = 0;
    while k < 35 {
        raws.push(vec![s, b, t]);
        k += 1;
    }
    let mut k: u64 = 0;
    while k < 10 {
        raws.push(vec![b, s, t]);
        k += 1;
    }
    let mut k: u64 = 0;
    while k < 10 {
        raws.push(vec![b, t, s]);
        k += 1;
    }
    let mut k: u64 = 0;
    while k < 45 {
        raws.push(vec![t, b, s]);
        k += 1;
    }

    let mut rcv = RankedChoiceVoteTrie::new();
    rcv.insert_votes(RankedVote::from_vectors(&raws).unwrap());

    let mut search_path: Vec<u16> = Vec::new();
    let mut table: Vec<((u16, u16), u64)> = Vec::new();
    trie_rcv::pairs::build_ranked_pairs_map(
        &rcv.root,
        &mut search_path,
        &mut table,
        &rcv.unique_candidates,
    );

    let lookup = |want: (u16, u16)| -> u64 {
        let mut found: u64 = 0;
        for entry in &table {
            if entry.0 == want {
                found = entry.1;
            }
        }
        found
    };
    assert_eq!(lookup((1, 2)), 65);
    assert_eq!(lookup((2, 1)), 35);
    assert_eq!(lookup((1, 3)), 55);
    assert_eq!(lookup((3, 1)), 45);
    assert_eq!(lookup((3, 2)), 55);
    assert_eq!(lookup((2, 3)), 45);
    let total = rcv.get_num_votes();
    assert!(lookup((1, 2)) + lookup((2, 1)) <= total);
    assert!(lookup((1, 3)) + lookup((3, 1)) <= total);
    assert!(lookup((2, 3)) + lookup((3, 2)) <= total);
}
