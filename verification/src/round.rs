//! Round-scoped tally state: per-candidate vote counts, the frontier of trie
//! sub-roots credited to each candidate, and the two running totals of the
//! majority check.

use vstd::prelude::*;

use crate::counts::entry_has;
use crate::counts::entry_keys;
use crate::counts::entry_index;
use crate::counts::entry_val;
use crate::counts::find_entry;
use crate::counts::lemma_entry_index_of;
use crate::counts::lemma_entry_update;
use crate::engine::is_engine_insert_seq;
use crate::engine::trie_cands_in;
use crate::engine::EliminationStrategies;
use crate::engine::RankedChoiceVoteTrie;
use crate::engine::MAX_TOTAL_VOTES;
use crate::graph::find_condorcet_ranked_pairs_weakest;
use crate::graph::find_ranked_pairs_weakest;
use crate::graph::lemma_filter_sinks_members;
use crate::graph::lemma_keys_with_val_le;
use crate::graph::spec_ranked_pairs_weakest;
use crate::pairs::build_ranked_pairs_map;
use crate::pairs::node_pair_count;
use crate::pairs::pair_keys;
use crate::pairs::pair_val;
use crate::vote::RankedVote;
use crate::trie::sum_child_votes;
use crate::trie::TrieNode;
use crate::vote::SpecialVotes;
use crate::vote::VoteValues;

verus! {

/// Per-round tally state. `frontier` runs parallel to `votes`: the entry at
/// each position belongs to the same candidate, and the candidate's count
/// equals the total of its frontier nodes' counters.
pub struct RoundState<'a> {
    pub votes: Vec<(u16, u64)>,
    pub frontier: Vec<(u16, Vec<&'a TrieNode>)>,
    pub effective_total: u64,
    pub candidate_total: u64,
}

/// The total of a list of frontier nodes' counters.
pub open spec fn sum_node_votes(ns: Seq<&TrieNode>) -> int
    decreases ns.len(),
{
    if ns.len() == 0 {
        0
    } else {
        sum_node_votes(ns.drop_last()) + ns.last().num_votes
    }
}

/// The total of all candidates' counts.
pub open spec fn sum_vals(s: Seq<(u16, u64)>) -> int
    decreases s.len(),
{
    if s.len() == 0 {
        0
    } else {
        sum_vals(s.drop_last()) + s.last().1
    }
}

pub proof fn lemma_sum_vals_nonneg(s: Seq<(u16, u64)>)
    ensures
        sum_vals(s) >= 0,
    decreases s.len(),
{
    if s.len() > 0 {
        lemma_sum_vals_nonneg(s.drop_last());
    }
}

pub proof fn lemma_sum_vals_each(s: Seq<(u16, u64)>, i: int)
    requires
        0 <= i < s.len(),
    ensures
        s[i].1 <= sum_vals(s),
    decreases s.len(),
{
    if i == s.len() - 1 {
        lemma_sum_vals_nonneg(s.drop_last());
    } else {
        lemma_sum_vals_each(s.drop_last(), i);
    }
}

/// Two distinct entries together count no more than the whole.
pub proof fn lemma_sum_vals_pair(s: Seq<(u16, u64)>, i: int, j: int)
    requires
        0 <= i < s.len(),
        0 <= j < s.len(),
        i != j,
    ensures
        s[i].1 + s[j].1 <= sum_vals(s),
    decreases s.len(),
{
    if i == s.len() - 1 {
        lemma_sum_vals_each(s.drop_last(), j);
    } else if j == s.len() - 1 {
        lemma_sum_vals_each(s.drop_last(), i);
    } else {
        lemma_sum_vals_pair(s.drop_last(), i, j);
    }
}

impl<'a> RoundState<'a> {
    /// One frontier node list is attributed to candidate `c` per entry, at
    /// the position of `c`'s count.
    pub open spec fn aligned(self) -> bool {
        &&& self.frontier@.len() == self.votes@.len()
        &&& forall|i: int|
            0 <= i < self.votes@.len() ==> (#[trigger] self.frontier@[i]).0 == self.votes@[i].0
        &&& forall|i: int|
            0 <= i < self.votes@.len() ==> sum_node_votes((#[trigger] self.frontier@[i]).1@)
                == self.votes@[i].1
    }

    /// Every frontier node is a well-formed sub-trie whose candidates are
    /// all drawn from `uniq`.
    pub open spec fn nodes_ok(self, uniq: Seq<u16>) -> bool {
        forall|i: int, j: int|
            0 <= i < self.frontier@.len() && 0 <= j < self.frontier@[i].1@.len() ==> ({
                let n = *(#[trigger] self.frontier@[i].1@[j]);
                &&& n.wf()
                &&& n.nodes_positive()
                &&& n.num_votes >= 1
                &&& trie_cands_in(n, uniq)
            })
    }

    /// The round invariant. Candidate counts are keyed uniquely, every
    /// count is positive and backed by its frontier, every counted candidate
    /// is in `uniq`, and the counts never exceed `candidate_total`, which
    /// never exceeds `effective_total`.
    pub open spec fn wf(self, uniq: Seq<u16>) -> bool {
        &&& entry_keys(self.votes@).no_duplicates()
        &&& self.aligned()
        &&& self.nodes_ok(uniq)
        &&& forall|i: int| 0 <= i < self.votes@.len() ==> (#[trigger] self.votes@[i]).1 >= 1
        &&& forall|i: int| 0 <= i < self.votes@.len() ==> uniq.contains((#[trigger] self.votes@[i]).0)
        &&& sum_vals(self.votes@) <= self.candidate_total <= self.effective_total
    }
}

/// The initial per-candidate counts: one entry per `Candidate` child of the
/// root, in child order, counting that child's ballots.
pub open spec fn init_votes(children: Seq<(VoteValues, TrieNode)>) -> Seq<(u16, u64)>
    decreases children.len(),
{
    if children.len() == 0 {
        Seq::empty()
    } else {
        let rest = init_votes(children.drop_last());
        match children.last().0 {
            VoteValues::Candidate(c) => rest.push((c, children.last().1.num_votes)),
            VoteValues::SpecialVote(_) => rest,
        }
    }
}

/// The ballots counted by the root's `Candidate` children.
pub open spec fn init_cand_total(children: Seq<(VoteValues, TrieNode)>) -> int
    decreases children.len(),
{
    if children.len() == 0 {
        0
    } else {
        init_cand_total(children.drop_last()) + match children.last().0 {
            VoteValues::Candidate(_) => children.last().1.num_votes as int,
            VoteValues::SpecialVote(_) => 0,
        }
    }
}

/// The ballots counted by the root's child for marker `sp`.
pub open spec fn init_special_total(
    children: Seq<(VoteValues, TrieNode)>,
    sp: SpecialVotes,
) -> int
    decreases children.len(),
{
    if children.len() == 0 {
        0
    } else {
        init_special_total(children.drop_last(), sp) + if children.last().0
            == VoteValues::SpecialVote(sp) {
            children.last().1.num_votes as int
        } else {
            0
        }
    }
}

/// Splitting the root's children by kind loses nothing: candidate ballots,
/// withheld ballots and abstained ballots add up to all of them.
pub proof fn lemma_init_conservation(children: Seq<(VoteValues, TrieNode)>)
    ensures
        init_cand_total(children) + init_special_total(children, SpecialVotes::WITHHOLD)
            + init_special_total(children, SpecialVotes::ABSTAIN) == sum_child_votes(children),
    decreases children.len(),
{
    if children.len() > 0 {
        lemma_init_conservation(children.drop_last());
    }
}

/// The least count among the candidates, the whole range if there are none.
pub open spec fn min_val(s: Seq<(u16, u64)>) -> int
    decreases s.len(),
{
    if s.len() == 0 {
        u64::MAX as int
    } else {
        let rest = min_val(s.drop_last());
        if s.last().1 < rest {
            s.last().1 as int
        } else {
            rest
        }
    }
}

/// The candidates whose count equals `m`, in entry order.
pub open spec fn keys_with_val(s: Seq<(u16, u64)>, m: int) -> Seq<u16>
    decreases s.len(),
{
    if s.len() == 0 {
        Seq::empty()
    } else {
        let rest = keys_with_val(s.drop_last(), m);
        if s.last().1 == m {
            rest.push(s.last().0)
        } else {
            rest
        }
    }
}

/// Members of `keys_with_val` are entries of `s` with count `m`.
pub proof fn lemma_keys_with_val(s: Seq<(u16, u64)>, m: int)
    ensures
        forall|k: int|
            0 <= k < keys_with_val(s, m).len() ==> entry_has(s, #[trigger] keys_with_val(s, m)[k]),
        entry_keys(s).no_duplicates() ==> keys_with_val(s, m).no_duplicates(),
        entry_keys(s).no_duplicates() ==> forall|k: int|
            0 <= k < keys_with_val(s, m).len() ==> entry_val(
                s,
                #[trigger] keys_with_val(s, m)[k],
            ) == m,
    decreases s.len(),
{
    let r = keys_with_val(s, m);
    if s.len() == 0 {
    } else {
        let t = s.drop_last();
        lemma_keys_with_val(t, m);
        assert(entry_keys(s).no_duplicates() ==> entry_keys(t).no_duplicates()) by {
            if entry_keys(s).no_duplicates() {
                assert forall|a: int, b: int| 0 <= a < b < entry_keys(t).len() implies entry_keys(
                    t,
                )[a] != entry_keys(t)[b] by {
                    assert(entry_keys(s)[a] == t[a].0 && entry_keys(s)[b] == t[b].0);
                    assert(entry_keys(t)[a] == t[a].0 && entry_keys(t)[b] == t[b].0);
                }
            }
        }
        assert forall|k: int| 0 <= k < r.len() implies entry_has(s, #[trigger] r[k]) by {
            if s.last().1 == m && k == r.len() - 1 {
                assert(s[s.len() - 1].0 == r[k]);
            } else {
                assert(r[k] == keys_with_val(t, m)[k]);
                assert(entry_has(t, r[k]));
                let j = entry_index(t, r[k]);
                assert(s[j].0 == r[k]);
            }
        }
        if entry_keys(s).no_duplicates() {
            assert forall|k: int| 0 <= k < r.len() implies entry_val(s, #[trigger] r[k]) == m by {
                if s.last().1 == m && k == r.len() - 1 {
                    lemma_entry_index_of(s, s.len() - 1);
                } else {
                    assert(r[k] == keys_with_val(t, m)[k]);
                    assert(entry_val(t, r[k]) == m);
                    let j = entry_index(t, r[k]);
                    assert(t[j].0 == r[k] && t[j].1 == m);
                    assert(s[j] == t[j]);
                    lemma_entry_index_of(s, j);
                }
            }
            assert(r.no_duplicates()) by {
                if s.last().1 == m {
                    assert forall|a: int, b: int| 0 <= a < b < r.len() implies r[a] != r[b] by {
                        if b == r.len() - 1 {
                            let rt = keys_with_val(t, m);
                            assert(r[a] == rt[a]);
                            assert(entry_has(t, rt[a]));
                            let j = entry_index(t, rt[a]);
                            assert(entry_keys(s)[j] == t[j].0);
                            assert(entry_keys(s)[s.len() - 1] == s.last().0);
                        }
                    }
                }
            }
        }
    }
}

/// Build the first round's state from the root's children: each candidate
/// child starts its candidate's count and frontier; a withheld child counts
/// only toward the effective total; an abstained child is ignored.
pub fn init_round_state<'a>(rcv: &'a RankedChoiceVoteTrie) -> (r: RoundState<'a>)
    requires
        rcv.wf(),
    ensures
        r.wf(rcv.unique_candidates@),
        r.votes@ == init_votes(rcv.root.children@),
        r.candidate_total == init_cand_total(rcv.root.children@),
        r.effective_total == init_cand_total(rcv.root.children@) + init_special_total(
            rcv.root.children@,
            SpecialVotes::WITHHOLD,
        ),
        r.candidate_total + init_special_total(rcv.root.children@, SpecialVotes::WITHHOLD)
            + init_special_total(rcv.root.children@, SpecialVotes::ABSTAIN)
            == rcv.root.num_votes,
        frontier_vw(r.frontier@) == init_frontier(rcv.root.children@),
        round_vw(r) == spec_init_round(*rcv),
{
    let mut votes: Vec<(u16, u64)> = Vec::new();
    let mut frontier: Vec<(u16, Vec<&TrieNode>)> = Vec::new();
    let mut effective_total: u64 = 0;
    let mut candidate_total: u64 = 0;
    let n = rcv.root.children.len();
    let mut i: usize = 0;
    proof {
        assert(rcv.root.children@.take(0) =~= Seq::<(VoteValues, TrieNode)>::empty());
    }
    while i < n
        invariant
            0 <= i <= n == rcv.root.children@.len(),
            rcv.wf(),
            votes@ == init_votes(rcv.root.children@.take(i as int)),
            candidate_total == init_cand_total(rcv.root.children@.take(i as int)),
            effective_total == init_cand_total(rcv.root.children@.take(i as int))
                + init_special_total(rcv.root.children@.take(i as int), SpecialVotes::WITHHOLD),
            candidate_total <= effective_total <= sum_child_votes(rcv.root.children@.take(i as int)),
            sum_vals(votes@) == candidate_total,
            frontier@.len() == votes@.len(),
            frontier_vw(frontier@) == init_frontier(rcv.root.children@.take(i as int)),
            forall|k: int|
                0 <= k < votes@.len() ==> (#[trigger] frontier@[k]).0 == votes@[k].0,
            forall|k: int|
                0 <= k < votes@.len() ==> sum_node_votes((#[trigger] frontier@[k]).1@)
                    == votes@[k].1,
            forall|k: int| 0 <= k < votes@.len() ==> (#[trigger] votes@[k]).1 >= 1,
            forall|k: int|
                0 <= k < votes@.len() ==> rcv.unique_candidates@.contains(
                    (#[trigger] votes@[k]).0,
                ),
            forall|k: int, j: int|
                0 <= k < frontier@.len() && 0 <= j < frontier@[k].1@.len() ==> ({
                    let nd = *(#[trigger] frontier@[k].1@[j]);
                    &&& nd.wf()
                    &&& nd.nodes_positive()
                    &&& nd.num_votes >= 1
                    &&& trie_cands_in(nd, rcv.unique_candidates@)
                }),
            entry_keys(votes@).no_duplicates(),
            forall|k: int, j: int|
                0 <= k < votes@.len() && i <= j < n ==> VoteValues::Candidate(
                    (#[trigger] votes@[k]).0,
                ) != (#[trigger] rcv.root.children@[j]).0,
        decreases n - i,
    {
        let ghost pre_votes = votes@;
        let ghost take_i = rcv.root.children@.take(i as int);
        let ghost take_i1 = rcv.root.children@.take(i as int + 1);
        proof {
            assert(take_i1.drop_last() =~= take_i);
            assert(take_i1.last() == rcv.root.children@[i as int]);
            assert(sum_child_votes(rcv.root.children@) <= rcv.root.num_votes);
            lemma_take_sum_le(rcv.root.children@, i as int + 1);
        }
        let child = &rcv.root.children[i];
        let node = &child.1;
        proof {
            assert(rcv.root.wf() && rcv.root.nodes_positive() && trie_cands_in(
                rcv.root,
                rcv.unique_candidates@,
            ));
            assert(node.wf() && node.nodes_positive() && node.num_votes >= 1);
            assert(trie_cands_in(*node, rcv.unique_candidates@));
        }
        match child.0 {
            VoteValues::SpecialVote(SpecialVotes::ABSTAIN) => {},
            VoteValues::SpecialVote(SpecialVotes::WITHHOLD) => {
                effective_total = effective_total + node.get_num_votes();
            },
            VoteValues::Candidate(candidate) => {
                let num = node.get_num_votes();
                let mut ns: Vec<&TrieNode> = Vec::new();
                ns.push(node);
                proof {
                    assert(ns@.drop_last() =~= Seq::<&TrieNode>::empty());
                    assert(sum_node_votes(Seq::<&TrieNode>::empty()) == 0);
                    assert(ns@.last() == &rcv.root.children@[i as int].1);
                    assert(sum_node_votes(ns@) == num);
                    assert(rcv.unique_candidates@.contains(candidate));
                    assert forall|a: int, b: int|
                        0 <= a < b < entry_keys(pre_votes.push((candidate, num))).len() implies
                        entry_keys(pre_votes.push((candidate, num)))[a] != entry_keys(
                        pre_votes.push((candidate, num)),
                    )[b] by {
                        let ks = entry_keys(pre_votes.push((candidate, num)));
                        assert(ks =~= entry_keys(pre_votes).push(candidate));
                        if b == ks.len() - 1 {
                            assert(entry_keys(pre_votes)[a] == pre_votes[a].0);
                            assert(VoteValues::Candidate(pre_votes[a].0)
                                != rcv.root.children@[i as int].0);
                        } else {
                            assert(entry_keys(pre_votes)[a] == pre_votes[a].0);
                            assert(entry_keys(pre_votes)[b] == pre_votes[b].0);
                        }
                    }
                    assert(sum_vals(pre_votes.push((candidate, num))) == sum_vals(pre_votes)
                        + num) by {
                        assert(pre_votes.push((candidate, num)).drop_last() =~= pre_votes);
                    }
                }
                let ghost pre_frontier = frontier@;
                votes.push((candidate, num));
                frontier.push((candidate, ns));
                candidate_total = candidate_total + num;
                effective_total = effective_total + num;
                proof {
                    assert(frontier_vw(frontier@) =~= frontier_vw(pre_frontier).push(
                        (candidate, seq![rcv.root.children@[i as int].1]),
                    )) by {
                        assert(ns@.map_values(|n2: &TrieNode| *n2) =~= seq![
                            rcv.root.children@[i as int].1,
                        ]);
                    }
                }
            },
        }
        proof {
            assert(votes@ == init_votes(take_i1));
            assert(frontier_vw(frontier@) == init_frontier(take_i1));
            assert forall|k: int, j: int|
                0 <= k < votes@.len() && i + 1 <= j < n implies VoteValues::Candidate(
                (#[trigger] votes@[k]).0,
            ) != (#[trigger] rcv.root.children@[j]).0 by {
                if k < pre_votes.len() {
                    assert(votes@[k] == pre_votes[k]);
                } else {
                    assert(votes@[k].0 == rcv.root.children@[i as int].0->Candidate_0);
                    assert(rcv.root.child_keys()[i as int] == rcv.root.children@[i as int].0);
                    assert(rcv.root.child_keys()[j] == rcv.root.children@[j].0);
                }
            }
        }
        i = i + 1;
    }
    proof {
        assert(rcv.root.children@.take(n as int) =~= rcv.root.children@);
        lemma_init_conservation(rcv.root.children@);
    }
    RoundState { votes, frontier, effective_total, candidate_total }
}

/// A prefix of the children counts at most the whole.
pub proof fn lemma_take_sum_le(s: Seq<(VoteValues, TrieNode)>, i: int)
    requires
        0 <= i <= s.len(),
    ensures
        sum_child_votes(s.take(i)) <= sum_child_votes(s),
        sum_child_votes(s.take(i)) >= 0,
    decreases s.len() - i,
{
    crate::trie::lemma_sum_nonneg(s.take(i));
    if i == s.len() {
        assert(s.take(i) =~= s);
    } else {
        assert(s.take(i + 1).drop_last() =~= s.take(i));
        assert(sum_child_votes(s.take(i + 1)) == sum_child_votes(s.take(i)) + s[i].1.num_votes);
        lemma_take_sum_le(s, i + 1);
    }
}

/// The ballots a node hands to the marker `sp` when its candidate is
/// eliminated: the counter of its `sp`-keyed child.
pub open spec fn child_special(children: Seq<(VoteValues, TrieNode)>, sp: SpecialVotes) -> int
    decreases children.len(),
{
    if children.len() == 0 {
        0
    } else {
        child_special(children.drop_last(), sp) + if children.last().0 == VoteValues::SpecialVote(
            sp,
        ) {
            children.last().1.num_votes as int
        } else {
            0
        }
    }
}

/// The ballots a node hands to candidate `c`: the counter of its child keyed
/// `Candidate(c)`.
pub open spec fn child_transfer(children: Seq<(VoteValues, TrieNode)>, c: u16) -> int
    decreases children.len(),
{
    if children.len() == 0 {
        0
    } else {
        child_transfer(children.drop_last(), c) + if children.last().0 == VoteValues::Candidate(c) {
            children.last().1.num_votes as int
        } else {
            0
        }
    }
}

/// A node's candidate-keyed children, as candidate and sub-trie, in order.
pub open spec fn cand_children(children: Seq<(VoteValues, TrieNode)>) -> Seq<(u16, TrieNode)>
    decreases children.len(),
{
    if children.len() == 0 {
        Seq::empty()
    } else {
        let rest = cand_children(children.drop_last());
        match children.last().0 {
            VoteValues::Candidate(c) => rest.push((c, children.last().1)),
            VoteValues::SpecialVote(_) => rest,
        }
    }
}

/// The ballots a node hands to all candidates together.
pub open spec fn child_cand_total(children: Seq<(VoteValues, TrieNode)>) -> int
    decreases children.len(),
{
    if children.len() == 0 {
        0
    } else {
        child_cand_total(children.drop_last()) + match children.last().0 {
            VoteValues::Candidate(_) => children.last().1.num_votes as int,
            VoteValues::SpecialVote(_) => 0,
        }
    }
}

/// A node's children split exactly into candidate transfers, withheld and
/// abstained ballots, and each part is non-negative.
pub proof fn lemma_child_split(children: Seq<(VoteValues, TrieNode)>)
    ensures
        child_cand_total(children) + child_special(children, SpecialVotes::WITHHOLD)
            + child_special(children, SpecialVotes::ABSTAIN) == sum_child_votes(children),
        child_cand_total(children) >= 0,
        child_special(children, SpecialVotes::WITHHOLD) >= 0,
        child_special(children, SpecialVotes::ABSTAIN) >= 0,
    decreases children.len(),
{
    if children.len() > 0 {
        lemma_child_split(children.drop_last());
    }
}

/// What a flat transfer list hands to candidate `c`.
pub open spec fn ts_to(ts: Seq<(u16, &TrieNode)>, c: u16) -> int
    decreases ts.len(),
{
    if ts.len() == 0 {
        0
    } else {
        ts_to(ts.drop_last(), c) + if ts.last().0 == c {
            ts.last().1.num_votes as int
        } else {
            0
        }
    }
}

/// What a flat transfer list hands out in total.
pub open spec fn ts_total(ts: Seq<(u16, &TrieNode)>) -> int
    decreases ts.len(),
{
    if ts.len() == 0 {
        0
    } else {
        ts_total(ts.drop_last()) + ts.last().1.num_votes
    }
}

/// The number of trie nodes in the sub-trie rooted at `n`.
pub open spec fn node_size(n: TrieNode) -> int
    decreases n,
{
    1 + children_sizes(n.children@)
}

pub open spec fn children_sizes(s: Seq<(VoteValues, TrieNode)>) -> int
    decreases s,
{
    if s.len() == 0 {
        0
    } else {
        children_sizes(s.drop_last()) + node_size(s.last().1)
    }
}

pub proof fn lemma_node_size_pos(n: TrieNode)
    ensures
        node_size(n) >= 1,
        children_sizes(n.children@) >= 0,
    decreases n,
{
    lemma_children_sizes_nonneg(n.children@);
}

pub proof fn lemma_children_sizes_nonneg(s: Seq<(VoteValues, TrieNode)>)
    ensures
        children_sizes(s) >= 0,
    decreases s,
{
    if s.len() > 0 {
        lemma_children_sizes_nonneg(s.drop_last());
        lemma_node_size_pos(s.last().1);
    }
}

/// Total size of a list of frontier nodes.
pub open spec fn nodes_sizes(ns: Seq<&TrieNode>) -> int
    decreases ns.len(),
{
    if ns.len() == 0 {
        0
    } else {
        nodes_sizes(ns.drop_last()) + node_size(*ns.last())
    }
}

pub proof fn lemma_nodes_sizes_nonneg(ns: Seq<&TrieNode>)
    ensures
        nodes_sizes(ns) >= 0,
    decreases ns.len(),
{
    if ns.len() > 0 {
        lemma_nodes_sizes_nonneg(ns.drop_last());
        lemma_node_size_pos(*ns.last());
    }
}

/// Total size of every frontier node in the state.
pub open spec fn frontier_size(f: Seq<(u16, Vec<&TrieNode>)>) -> int
    decreases f.len(),
{
    if f.len() == 0 {
        0
    } else {
        frontier_size(f.drop_last()) + nodes_sizes(f.last().1@)
    }
}

pub proof fn lemma_frontier_size_nonneg(f: Seq<(u16, Vec<&TrieNode>)>)
    ensures
        frontier_size(f) >= 0,
    decreases f.len(),
{
    if f.len() > 0 {
        lemma_frontier_size_nonneg(f.drop_last());
        lemma_nodes_sizes_nonneg(f.last().1@);
    }
}

/// A transfer list that mirrors the candidate children of `children` hands
/// each candidate, and all candidates together, exactly what the children
/// count, and its sub-tries are together smaller than the node itself.
pub proof fn lemma_ts_matches_cand_children(
    ts: Seq<(u16, &TrieNode)>,
    children: Seq<(VoteValues, TrieNode)>,
)
    requires
        ts.map_values(|t: (u16, &TrieNode)| (t.0, *t.1)) == cand_children(children),
    ensures
        forall|c: u16| #[trigger] ts_to(ts, c) == child_transfer(children, c),
        ts_total(ts) == child_cand_total(children),
        ts_sizes(ts) <= children_sizes(children),
    decreases children.len(),
{
    lemma_children_sizes_nonneg(children);
    lemma_ts_sizes_nonneg(ts);
    if children.len() == 0 {
        assert(ts.map_values(|t: (u16, &TrieNode)| (t.0, *t.1)).len() == 0);
        assert(ts.len() == 0);
    } else {
        let rest = children.drop_last();
        match children.last().0 {
            VoteValues::SpecialVote(_) => {
                lemma_node_size_pos(children.last().1);
                lemma_ts_matches_cand_children(ts, rest);
                assert forall|c: u16| #[trigger] ts_to(ts, c) == child_transfer(children, c) by {
                    assert(ts_to(ts, c) == child_transfer(rest, c));
                }
            },
            VoteValues::Candidate(c0) => {
                assert(cand_children(children).len() >= 1);
                assert(ts.len() == cand_children(children).len());
                let tss = ts.drop_last();
                assert(tss.map_values(|t: (u16, &TrieNode)| (t.0, *t.1)) =~= cand_children(
                    rest,
                )) by {
                    assert(ts.map_values(|t: (u16, &TrieNode)| (t.0, *t.1)).drop_last()
                        =~= tss.map_values(|t: (u16, &TrieNode)| (t.0, *t.1)));
                }
                lemma_ts_matches_cand_children(tss, rest);
                assert(ts.map_values(|t: (u16, &TrieNode)| (t.0, *t.1)).last() == (
                    ts.last().0,
                    *ts.last().1,
                ));
                assert(ts.last().0 == c0 && *ts.last().1 == children.last().1);
                assert forall|c: u16| #[trigger] ts_to(ts, c) == child_transfer(children, c) by {
                    assert(ts_to(tss, c) == child_transfer(rest, c));
                    assert(ts_to(ts, c) == ts_to(tss, c) + if ts.last().0 == c {
                        ts.last().1.num_votes as int
                    } else {
                        0
                    });
                }
            },
        }
    }
}

/// Total size of the sub-tries a transfer list points at.
pub open spec fn ts_sizes(ts: Seq<(u16, &TrieNode)>) -> int
    decreases ts.len(),
{
    if ts.len() == 0 {
        0
    } else {
        ts_sizes(ts.drop_last()) + node_size(*ts.last().1)
    }
}

pub proof fn lemma_ts_sizes_nonneg(ts: Seq<(u16, &TrieNode)>)
    ensures
        ts_sizes(ts) >= 0,
        forall|j: int| 0 <= j <= ts.len() ==> #[trigger] ts_sizes(ts.take(j)) <= ts_sizes(ts),
        forall|j: int| 0 <= j <= ts.len() ==> #[trigger] ts_sizes(ts.take(j)) >= 0,
    decreases ts.len(),
{
    if ts.len() > 0 {
        lemma_ts_sizes_nonneg(ts.drop_last());
        lemma_node_size_pos(*ts.last().1);
        assert(ts.drop_last() =~= ts.take(ts.len() - 1));
        assert forall|j: int| 0 <= j <= ts.len() implies #[trigger] ts_sizes(ts.take(j))
            <= ts_sizes(ts) && ts_sizes(ts.take(j)) >= 0 by {
            if j < ts.len() {
                assert(ts.take(j) =~= ts.drop_last().take(j));
            } else {
                assert(ts.take(j) =~= ts);
            }
        }
    }
}

/// The number of candidate-keyed children.
pub open spec fn child_cand_count(children: Seq<(VoteValues, TrieNode)>) -> int
    decreases children.len(),
{
    if children.len() == 0 {
        0
    } else {
        child_cand_count(children.drop_last()) + match children.last().0 {
            VoteValues::Candidate(_) => 1int,
            VoteValues::SpecialVote(_) => 0int,
        }
    }
}

pub open spec fn frontier_keys(f: Seq<(u16, Vec<&TrieNode>)>) -> Seq<u16> {
    f.map_values(|p: (u16, Vec<&TrieNode>)| p.0)
}

pub open spec fn frontier_has(f: Seq<(u16, Vec<&TrieNode>)>, w: u16) -> bool {
    exists|i: int| 0 <= i < f.len() && (#[trigger] f[i]).0 == w
}

pub open spec fn frontier_index(f: Seq<(u16, Vec<&TrieNode>)>, w: u16) -> int {
    choose|i: int| 0 <= i < f.len() && (#[trigger] f[i]).0 == w
}

/// The frontier nodes attributed to `w`, none when `w` holds no entry.
pub open spec fn frontier_nodes(f: Seq<(u16, Vec<&TrieNode>)>, w: u16) -> Seq<&TrieNode> {
    if frontier_has(f, w) {
        f[frontier_index(f, w)].1@
    } else {
        Seq::empty()
    }
}

pub proof fn lemma_frontier_index_of(f: Seq<(u16, Vec<&TrieNode>)>, i: int)
    requires
        frontier_keys(f).no_duplicates(),
        0 <= i < f.len(),
    ensures
        frontier_has(f, f[i].0),
        frontier_index(f, f[i].0) == i,
        frontier_nodes(f, f[i].0) == f[i].1@,
{
    let w = f[i].0;
    assert(frontier_has(f, w));
    let j = frontier_index(f, w);
    assert(frontier_keys(f)[i] == w && frontier_keys(f)[j] == w);
}

/// What a list of frontier nodes hands to candidate `c`.
pub open spec fn nodes_transfer(ns: Seq<&TrieNode>, c: u16) -> int
    decreases ns.len(),
{
    if ns.len() == 0 {
        0
    } else {
        nodes_transfer(ns.drop_last(), c) + child_transfer(ns.last().children@, c)
    }
}

/// What a list of frontier nodes hands to the marker `sp`.
pub open spec fn nodes_special(ns: Seq<&TrieNode>, sp: SpecialVotes) -> int
    decreases ns.len(),
{
    if ns.len() == 0 {
        0
    } else {
        nodes_special(ns.drop_last(), sp) + child_special(ns.last().children@, sp)
    }
}

pub open spec fn nodes_cand_total(ns: Seq<&TrieNode>) -> int
    decreases ns.len(),
{
    if ns.len() == 0 {
        0
    } else {
        nodes_cand_total(ns.drop_last()) + child_cand_total(ns.last().children@)
    }
}

pub open spec fn nodes_cand_count(ns: Seq<&TrieNode>) -> int
    decreases ns.len(),
{
    if ns.len() == 0 {
        0
    } else {
        nodes_cand_count(ns.drop_last()) + child_cand_count(ns.last().children@)
    }
}

/// What eliminating every candidate of `ws` hands to candidate `c`.
pub open spec fn weakest_transfer(f: Seq<(u16, Vec<&TrieNode>)>, ws: Seq<u16>, c: u16) -> int
    decreases ws.len(),
{
    if ws.len() == 0 {
        0
    } else {
        weakest_transfer(f, ws.drop_last(), c) + nodes_transfer(frontier_nodes(f, ws.last()), c)
    }
}

/// What eliminating every candidate of `ws` hands to the marker `sp`.
pub open spec fn weakest_special(f: Seq<(u16, Vec<&TrieNode>)>, ws: Seq<u16>, sp: SpecialVotes) -> int
    decreases ws.len(),
{
    if ws.len() == 0 {
        0
    } else {
        weakest_special(f, ws.drop_last(), sp) + nodes_special(frontier_nodes(f, ws.last()), sp)
    }
}

/// How many pending transfers eliminating `ws` produces.
pub open spec fn weakest_cand_count(f: Seq<(u16, Vec<&TrieNode>)>, ws: Seq<u16>) -> int
    decreases ws.len(),
{
    if ws.len() == 0 {
        0
    } else {
        weakest_cand_count(f, ws.drop_last()) + nodes_cand_count(frontier_nodes(f, ws.last()))
    }
}

pub open spec fn weakest_sizes(f: Seq<(u16, Vec<&TrieNode>)>, ws: Seq<u16>) -> int
    decreases ws.len(),
{
    if ws.len() == 0 {
        0
    } else {
        weakest_sizes(f, ws.drop_last()) + nodes_sizes(frontier_nodes(f, ws.last()))
    }
}

/// The counts the candidates of `ws` hold in `votes`.
pub open spec fn ws_vals(votes: Seq<(u16, u64)>, ws: Seq<u16>) -> int
    decreases ws.len(),
{
    if ws.len() == 0 {
        0
    } else {
        ws_vals(votes, ws.drop_last()) + entry_val(votes, ws.last())
    }
}

/// Concatenating transfer lists adds their hand-outs, totals and sizes.
pub proof fn lemma_ts_concat(a: Seq<(u16, &TrieNode)>, b: Seq<(u16, &TrieNode)>)
    ensures
        forall|c: u16| #[trigger] ts_to(a + b, c) == ts_to(a, c) + ts_to(b, c),
        ts_total(a + b) == ts_total(a) + ts_total(b),
        ts_sizes(a + b) == ts_sizes(a) + ts_sizes(b),
    decreases b.len(),
{
    if b.len() == 0 {
        assert(a + b =~= a);
    } else {
        lemma_ts_concat(a, b.drop_last());
        assert((a + b).drop_last() =~= a + b.drop_last());
        assert((a + b).last() == b.last());
        assert forall|c: u16| #[trigger] ts_to(a + b, c) == ts_to(a, c) + ts_to(b, c) by {
            assert(ts_to(a + b.drop_last(), c) == ts_to(a, c) + ts_to(b.drop_last(), c));
        }
    }
}

/// Removing the entry at `i` forgets exactly that key.
pub proof fn lemma_entry_remove(s: Seq<(u16, u64)>, i: int)
    requires
        entry_keys(s).no_duplicates(),
        0 <= i < s.len(),
    ensures
        entry_keys(s.remove(i)) == entry_keys(s).remove(i),
        entry_keys(s.remove(i)).no_duplicates(),
        !entry_has(s.remove(i), s[i].0),
        forall|c: u16| c != s[i].0 ==> entry_has(s.remove(i), c) == entry_has(s, c),
        forall|c: u16| c != s[i].0 ==> entry_val(s.remove(i), c) == entry_val(s, c),
        sum_vals(s.remove(i)) == sum_vals(s) - s[i].1,
{
    let t = s.remove(i);
    assert(entry_keys(t) =~= entry_keys(s).remove(i));
    assert forall|a: int, b: int| 0 <= a < b < entry_keys(t).len() implies entry_keys(t)[a]
        != entry_keys(t)[b] by {
        let a2: int = if a < i {
            a
        } else {
            a + 1
        };
        let b2: int = if b < i {
            b
        } else {
            b + 1
        };
        assert(entry_keys(s)[a2] == t[a].0 && entry_keys(s)[b2] == t[b].0);
    }
    assert(!entry_has(t, s[i].0)) by {
        if entry_has(t, s[i].0) {
            let j = choose|j: int| 0 <= j < t.len() && (#[trigger] t[j]).0 == s[i].0;
            let j2: int = if j < i {
                j
            } else {
                j + 1
            };
            assert(entry_keys(s)[j2] == s[i].0 && entry_keys(s)[i] == s[i].0);
        }
    }
    assert forall|c: u16| c != s[i].0 implies entry_has(t, c) == entry_has(s, c) && entry_val(
        t,
        c,
    ) == entry_val(s, c) by {
        if entry_has(s, c) {
            let j = entry_index(s, c);
            let j2: int = if j < i {
                j
            } else {
                j - 1
            };
            assert(s[j].0 == c && j != i);
            assert(t[j2].0 == c && t[j2].1 == s[j].1);
            lemma_entry_index_of(t, j2);
            lemma_entry_index_of(s, j);
        } else {
            if entry_has(t, c) {
                let j = choose|j: int| 0 <= j < t.len() && (#[trigger] t[j]).0 == c;
                let j2: int = if j < i {
                    j
                } else {
                    j + 1
                };
                assert(s[j2].0 == c);
            }
        }
    }
    lemma_sum_vals_remove(s, i);
}

pub proof fn lemma_sum_vals_remove(s: Seq<(u16, u64)>, i: int)
    requires
        0 <= i < s.len(),
    ensures
        sum_vals(s.remove(i)) == sum_vals(s) - s[i].1,
    decreases s.len(),
{
    if i == s.len() - 1 {
        assert(s.remove(i) =~= s.drop_last());
    } else {
        assert(s.remove(i).drop_last() =~= s.drop_last().remove(i));
        assert(s.remove(i).last() == s.last());
        lemma_sum_vals_remove(s.drop_last(), i);
    }
}

pub proof fn lemma_sum_vals_update(s: Seq<(u16, u64)>, i: int, p: (u16, u64))
    requires
        0 <= i < s.len(),
    ensures
        sum_vals(s.update(i, p)) == sum_vals(s) - s[i].1 + p.1,
    decreases s.len(),
{
    if i == s.len() - 1 {
        assert(s.update(i, p).drop_last() =~= s.drop_last());
    } else {
        assert(s.update(i, p).drop_last() =~= s.drop_last().update(i, p));
        lemma_sum_vals_update(s.drop_last(), i, p);
    }
}

pub proof fn lemma_sum_vals_push(s: Seq<(u16, u64)>, p: (u16, u64))
    ensures
        sum_vals(s.push(p)) == sum_vals(s) + p.1,
{
    assert(s.push(p).drop_last() =~= s);
}

pub proof fn lemma_frontier_size_remove(f: Seq<(u16, Vec<&TrieNode>)>, i: int)
    requires
        0 <= i < f.len(),
    ensures
        frontier_size(f.remove(i)) == frontier_size(f) - nodes_sizes(f[i].1@),
    decreases f.len(),
{
    if i == f.len() - 1 {
        assert(f.remove(i) =~= f.drop_last());
    } else {
        assert(f.remove(i).drop_last() =~= f.drop_last().remove(i));
        assert(f.remove(i).last() == f.last());
        lemma_frontier_size_remove(f.drop_last(), i);
    }
}

pub proof fn lemma_frontier_size_update(f: Seq<(u16, Vec<&TrieNode>)>, i: int, p: (u16, Vec<&TrieNode>))
    requires
        0 <= i < f.len(),
    ensures
        frontier_size(f.update(i, p)) == frontier_size(f) - nodes_sizes(f[i].1@) + nodes_sizes(
            p.1@,
        ),
    decreases f.len(),
{
    if i == f.len() - 1 {
        assert(f.update(i, p).drop_last() =~= f.drop_last());
    } else {
        assert(f.update(i, p).drop_last() =~= f.drop_last().update(i, p));
        lemma_frontier_size_update(f.drop_last(), i, p);
    }
}

pub proof fn lemma_frontier_size_push(f: Seq<(u16, Vec<&TrieNode>)>, p: (u16, Vec<&TrieNode>))
    ensures
        frontier_size(f.push(p)) == frontier_size(f) + nodes_sizes(p.1@),
{
    assert(f.push(p).drop_last() =~= f);
}

/// Every candidate child is one of the node's children.
pub proof fn lemma_cand_children_elems(children: Seq<(VoteValues, TrieNode)>)
    ensures
        forall|k: int|
            0 <= k < cand_children(children).len() ==> exists|i: int|
                0 <= i < children.len() && #[trigger] children[i] == (
                VoteValues::Candidate((#[trigger] cand_children(children)[k]).0),
                cand_children(children)[k].1,
                ),
    decreases children.len(),
{
    if children.len() > 0 {
        let rest = children.drop_last();
        lemma_cand_children_elems(rest);
        let cc = cand_children(children);
        assert forall|k: int| 0 <= k < cc.len() implies exists|i: int|
            0 <= i < children.len() && #[trigger] children[i] == (
            VoteValues::Candidate((#[trigger] cc[k]).0),
            cc[k].1,
            ) by {
            match children.last().0 {
                VoteValues::Candidate(c0) => {
                    if k == cc.len() - 1 {
                        assert(children[children.len() - 1] == (
                            VoteValues::Candidate(cc[k].0),
                            cc[k].1,
                        ));
                    } else {
                        assert(cc[k] == cand_children(rest)[k]);
                        let i = choose|i: int|
                            0 <= i < rest.len() && #[trigger] rest[i] == (
                            VoteValues::Candidate(cand_children(rest)[k].0),
                            cand_children(rest)[k].1,
                            );
                        assert(children[i] == rest[i]);
                    }
                },
                VoteValues::SpecialVote(_) => {
                    assert(cc[k] == cand_children(rest)[k]);
                    let i = choose|i: int|
                        0 <= i < rest.len() && #[trigger] rest[i] == (
                        VoteValues::Candidate(cand_children(rest)[k].0),
                        cand_children(rest)[k].1,
                        );
                    assert(children[i] == rest[i]);
                },
            }
        }
    }
}

/// The pending transfers of one eliminated frontier node: ballots falling to
/// withhold, ballots falling to abstain, and one entry per candidate child.
pub fn transfer_next_votes<'x>(node: &'x TrieNode) -> (r: (u64, u64, Vec<(u16, &'x TrieNode)>))
    requires
        node.wf(),
    ensures
        r.0 == child_special(node.children@, SpecialVotes::WITHHOLD),
        r.1 == child_special(node.children@, SpecialVotes::ABSTAIN),
        r.2@.map_values(|t: (u16, &TrieNode)| (t.0, *t.1)) == cand_children(node.children@),
{
    let mut withhold_votes: u64 = 0;
    let mut abstain_votes: u64 = 0;
    let mut vote_transfers: Vec<(u16, &TrieNode)> = Vec::new();
    let n = node.children.len();
    let mut i: usize = 0;
    proof {
        assert(node.children@.take(0) =~= Seq::<(VoteValues, TrieNode)>::empty());
        assert(vote_transfers@.map_values(|t: (u16, &TrieNode)| (t.0, *t.1)) =~= cand_children(
            node.children@.take(0),
        ));
    }
    while i < n
        invariant
            0 <= i <= n == node.children@.len(),
            node.wf(),
            withhold_votes == child_special(
                node.children@.take(i as int),
                SpecialVotes::WITHHOLD,
            ),
            abstain_votes == child_special(node.children@.take(i as int), SpecialVotes::ABSTAIN),
            vote_transfers@.map_values(|t: (u16, &TrieNode)| (t.0, *t.1)) == cand_children(
                node.children@.take(i as int),
            ),
        decreases n - i,
    {
        let ghost take_i = node.children@.take(i as int);
        let ghost take_i1 = node.children@.take(i as int + 1);
        proof {
            assert(take_i1.drop_last() =~= take_i);
            assert(take_i1.last() == node.children@[i as int]);
            lemma_child_split(take_i1);
            lemma_take_sum_le(node.children@, i as int + 1);
            assert(sum_child_votes(node.children@) <= node.num_votes);
        }
        let entry = &node.children[i];
        match entry.0 {
            VoteValues::SpecialVote(SpecialVotes::WITHHOLD) => {
                withhold_votes = withhold_votes + entry.1.get_num_votes();
            },
            VoteValues::SpecialVote(SpecialVotes::ABSTAIN) => {
                abstain_votes = abstain_votes + entry.1.get_num_votes();
            },
            VoteValues::Candidate(next_candidate) => {
                vote_transfers.push((next_candidate, &entry.1));
                proof {
                    assert(vote_transfers@.map_values(|t: (u16, &TrieNode)| (t.0, *t.1))
                        =~= cand_children(take_i).push((next_candidate, node.children@[i as int].1)));
                }
            },
        }
        i = i + 1;
    }
    proof {
        assert(node.children@.take(n as int) =~= node.children@);
    }
    (withhold_votes, abstain_votes, vote_transfers)
}

pub proof fn lemma_ts_total_nonneg(ts: Seq<(u16, &TrieNode)>)
    ensures
        ts_total(ts) >= 0,
        forall|j: int| 0 <= j <= ts.len() ==> #[trigger] ts_total(ts.take(j)) <= ts_total(ts),
        forall|j: int| 0 <= j <= ts.len() ==> #[trigger] ts_total(ts.take(j)) >= 0,
    decreases ts.len(),
{
    if ts.len() > 0 {
        lemma_ts_total_nonneg(ts.drop_last());
        assert(ts.drop_last() =~= ts.take(ts.len() - 1));
        assert forall|j: int| 0 <= j <= ts.len() implies #[trigger] ts_total(ts.take(j))
            <= ts_total(ts) && ts_total(ts.take(j)) >= 0 by {
            if j < ts.len() {
                assert(ts.take(j) =~= ts.drop_last().take(j));
            } else {
                assert(ts.take(j) =~= ts);
            }
        }
    }
}

/// The number of candidate children equals the length of the candidate
/// child list.
pub proof fn lemma_cand_children_len(children: Seq<(VoteValues, TrieNode)>)
    ensures
        cand_children(children).len() == child_cand_count(children),
        child_cand_count(children) >= 0,
    decreases children.len(),
{
    if children.len() > 0 {
        lemma_cand_children_len(children.drop_last());
    }
}

/// `ws_vals` reads only the counts of the keys in `ws`.
pub proof fn lemma_ws_vals_congruence(a: Seq<(u16, u64)>, b: Seq<(u16, u64)>, ws: Seq<u16>)
    requires
        forall|k: int|
            0 <= k < ws.len() ==> entry_val(a, #[trigger] ws[k]) == entry_val(b, ws[k]),
    ensures
        ws_vals(a, ws) == ws_vals(b, ws),
    decreases ws.len(),
{
    if ws.len() > 0 {
        assert forall|k: int| 0 <= k < ws.drop_last().len() implies entry_val(
            a,
            #[trigger] ws.drop_last()[k],
        ) == entry_val(b, ws.drop_last()[k]) by {
            assert(ws.drop_last()[k] == ws[k]);
        }
        lemma_ws_vals_congruence(a, b, ws.drop_last());
        assert(ws.last() == ws[ws.len() - 1]);
    }
}

/// Distinct candidates together hold at most the whole count.
pub proof fn lemma_ws_vals_bound(votes: Seq<(u16, u64)>, ws: Seq<u16>)
    requires
        entry_keys(votes).no_duplicates(),
        ws.no_duplicates(),
        forall|k: int| 0 <= k < ws.len() ==> entry_has(votes, #[trigger] ws[k]),
    ensures
        0 <= ws_vals(votes, ws) <= sum_vals(votes),
    decreases ws.len(),
{
    lemma_sum_vals_nonneg(votes);
    if ws.len() > 0 {
        let w = ws.last();
        assert(entry_has(votes, w)) by {
            assert(ws[ws.len() - 1] == w);
        }
        let i = entry_index(votes, w);
        lemma_entry_index_of(votes, i);
        let rest = votes.remove(i);
        lemma_entry_remove(votes, i);
        assert forall|k: int| 0 <= k < ws.drop_last().len() implies entry_has(
            rest,
            #[trigger] ws.drop_last()[k],
        ) by {
            assert(ws.drop_last()[k] == ws[k]);
            assert(ws[k] != w);
        }
        lemma_ws_vals_bound(rest, ws.drop_last());
        assert forall|k: int| 0 <= k < ws.drop_last().len() implies entry_val(
            votes,
            #[trigger] ws.drop_last()[k],
        ) == entry_val(rest, ws.drop_last()[k]) by {
            assert(ws.drop_last()[k] == ws[k]);
            assert(ws[k] != w);
        }
        lemma_ws_vals_congruence(votes, rest, ws.drop_last());
        assert(entry_val(votes, w) == votes[i].1);
    }
}

/// The spec image of a frontier entry sits at the same position under the
/// same key.
pub proof fn lemma_fv_entry(f: Seq<(u16, Vec<&TrieNode>)>, i: int)
    requires
        frontier_keys(f).no_duplicates(),
        0 <= i < f.len(),
    ensures
        fv_has(frontier_vw(f), f[i].0),
        fv_index(frontier_vw(f), f[i].0) == i,
        fv_nodes(frontier_vw(f), f[i].0) == f[i].1@.map_values(|n: &TrieNode| *n),
{
    let fv = frontier_vw(f);
    assert(fv[i].0 == f[i].0);
    assert(fv_has(fv, f[i].0));
    let m = fv_index(fv, f[i].0);
    assert(fv[m].0 == f[m].0);
    assert(frontier_keys(f)[m] == f[m].0 && frontier_keys(f)[i] == f[i].0);
}

/// Eliminate the candidates of `weakest`: drop their counts, collect their
/// frontier nodes' children as pending transfers, move ballots falling to a
/// marker out of the totals, and credit each transfer to its next candidate.
/// Returns whether any transfer was pending; when none is, the totals are
/// left as they were, as the caller ends the election.
pub fn eliminate_and_transfer<'a>(
    state: &mut RoundState<'a>,
    weakest: &Vec<u16>,
    Ghost(uniq): Ghost<Seq<u16>>,
) -> (made: bool)
    requires
        old(state).wf(uniq),
        weakest@.no_duplicates(),
        forall|k: int|
            0 <= k < weakest@.len() ==> entry_has(old(state).votes@, #[trigger] weakest@[k]),
    ensures
        final(state).wf(uniq),
        made == (weakest_cand_count(old(state).frontier@, weakest@) > 0),
        made ==> final(state).candidate_total == old(state).candidate_total - weakest_special(
            old(state).frontier@,
            weakest@,
            SpecialVotes::WITHHOLD,
        ) - weakest_special(old(state).frontier@, weakest@, SpecialVotes::ABSTAIN),
        made ==> final(state).effective_total == old(state).effective_total - weakest_special(
            old(state).frontier@,
            weakest@,
            SpecialVotes::ABSTAIN,
        ),
        !made ==> final(state).candidate_total == old(state).candidate_total
            && final(state).effective_total == old(state).effective_total,
        final(state).effective_total <= old(state).effective_total,
        forall|c: u16|
            #[trigger] entry_val(final(state).votes@, c) == (if weakest@.contains(c) {
                0int
            } else {
                entry_val(old(state).votes@, c)
            }) + weakest_transfer(old(state).frontier@, weakest@, c),
        frontier_size(final(state).frontier@) <= frontier_size(old(state).frontier@),
        weakest@.len() >= 1 ==> frontier_size(final(state).frontier@) < frontier_size(
            old(state).frontier@,
        ),
        made == spec_eliminate(round_vw(*old(state)), weakest@).1,
        round_vw(*final(state)) == spec_eliminate(round_vw(*old(state)), weakest@).0,
    {
    let ghost v0 = old(state).votes@;
    let ghost f0 = old(state).frontier@;
    proof {
        assert(frontier_keys(f0) =~= entry_keys(v0));
        assert(weakest@.take(0) =~= Seq::<u16>::empty());
    }

    // Collect the pending transfers and the ballots falling to markers.
    let mut new_withhold: u64 = 0;
    let mut new_abstain: u64 = 0;
    let mut all_transfers: Vec<(u16, &'a TrieNode)> = Vec::new();
    let ghost mut processed_nodes: int = 0;
    let wn = weakest.len();
    let mut wi: usize = 0;
    while wi < wn
        invariant
            0 <= wi <= wn == weakest@.len(),
            *state == *old(state),
            old(state).wf(uniq),
            weakest@.no_duplicates(),
            forall|k: int|
                0 <= k < weakest@.len() ==> entry_has(v0, #[trigger] weakest@[k]),
            v0 == old(state).votes@,
            f0 == old(state).frontier@,
            frontier_keys(f0).no_duplicates(),
            new_withhold == weakest_special(f0, weakest@.take(wi as int), SpecialVotes::WITHHOLD),
            new_abstain == weakest_special(f0, weakest@.take(wi as int), SpecialVotes::ABSTAIN),
            new_withhold == collect_special(
                frontier_vw(f0),
                weakest@.take(wi as int),
                SpecialVotes::WITHHOLD,
            ),
            new_abstain == collect_special(
                frontier_vw(f0),
                weakest@.take(wi as int),
                SpecialVotes::ABSTAIN,
            ),
            all_transfers@.map_values(|t: (u16, &TrieNode)| (t.0, *t.1)) == spec_collect(
                frontier_vw(f0),
                weakest@.take(wi as int),
            ),
            forall|c: u16|
                #[trigger] ts_to(all_transfers@, c) == weakest_transfer(
                    f0,
                    weakest@.take(wi as int),
                    c,
                ),
            all_transfers@.len() == weakest_cand_count(f0, weakest@.take(wi as int)),
            new_withhold + new_abstain + ts_total(all_transfers@) <= ws_vals(
                v0,
                weakest@.take(wi as int),
            ),
            ts_total(all_transfers@) >= 0,
            ts_sizes(all_transfers@) + processed_nodes <= weakest_sizes(
                f0,
                weakest@.take(wi as int),
            ),
            ts_sizes(all_transfers@) >= 0,
            processed_nodes >= 0,
            wi >= 1 ==> processed_nodes >= 1,
            forall|m: int|
                0 <= m < all_transfers@.len() ==> ({
                    let t = #[trigger] all_transfers@[m];
                    &&& t.1.wf()
                    &&& t.1.nodes_positive()
                    &&& t.1.num_votes >= 1
                    &&& trie_cands_in(*t.1, uniq)
                    &&& uniq.contains(t.0)
                }),
        decreases wn - wi,
    {
        let ghost wtake = weakest@.take(wi as int);
        let ghost wtake1 = weakest@.take(wi as int + 1);
        proof {
            assert(wtake1.drop_last() =~= wtake);
            assert(wtake1.last() == weakest@[wi as int]);
        }
        let w = weakest[wi];
        let fi = match find_entry(&state.votes, w) {
            Some(fi) => fi,
            None => {
                proof {
                    assert(entry_has(v0, weakest@[wi as int]));
                    assert(false);
                }
                0
            },
        };
        proof {
            assert(state.frontier@[fi as int].0 == w);
            lemma_frontier_index_of(f0, fi as int);
            assert(frontier_nodes(f0, w) == f0[fi as int].1@);
        }
        let ghost ns = f0[fi as int].1@;
        let ghost nsv = ns.map_values(|n: &TrieNode| *n);
        proof {
            lemma_fv_entry(f0, fi as int);
            assert(fv_nodes(frontier_vw(f0), w) == nsv);
            assert(nsv.take(0) =~= Seq::<TrieNode>::empty());
        }
        let ghost base_wh = new_withhold;
        let ghost base_ab = new_abstain;
        let ghost base_ts = all_transfers@;
        let ghost base_pn = processed_nodes;
        let nn = state.frontier[fi].1.len();
        let mut j: usize = 0;
        proof {
            assert(ns.take(0) =~= Seq::<&TrieNode>::empty());
            assert(state.votes@[fi as int].1 >= 1);
            assert(sum_node_votes(ns) == v0[fi as int].1);
            assert(ns.len() >= 1) by {
                if ns.len() == 0 {
                    assert(sum_node_votes(ns) == 0);
                }
            }
            assert(wtake1.no_duplicates()) by {
                assert forall|a: int, b: int| 0 <= a < b < wtake1.len() implies wtake1[a]
                    != wtake1[b] by {
                    assert(weakest@[a] == wtake1[a] && weakest@[b] == wtake1[b]);
                }
            }
            assert forall|k: int| 0 <= k < wtake1.len() implies entry_has(
                v0,
                #[trigger] wtake1[k],
            ) by {
                assert(wtake1[k] == weakest@[k]);
            }
            lemma_ws_vals_bound(v0, wtake1);
            assert(ws_vals(v0, wtake1) == ws_vals(v0, wtake) + entry_val(v0, w)) by {
                assert(entry_val(v0, weakest@[wi as int]) == entry_val(v0, w));
            }
            assert(entry_val(v0, w) == v0[fi as int].1) by {
                lemma_entry_index_of(v0, fi as int);
            }
            assert(ws_vals(v0, wtake) + sum_node_votes(ns) <= sum_vals(v0));
            assert(sum_vals(v0) <= old(state).candidate_total);
            lemma_ts_total_nonneg(base_ts);
        }
        while j < nn
            invariant
                0 <= j <= nn == ns.len(),
                *state == *old(state),
                old(state).wf(uniq),
                v0 == old(state).votes@,
                f0 == old(state).frontier@,
                0 <= fi < f0.len(),
                ns == f0[fi as int].1@,
                new_withhold == base_wh + nodes_special(ns.take(j as int), SpecialVotes::WITHHOLD),
                new_abstain == base_ab + nodes_special(ns.take(j as int), SpecialVotes::ABSTAIN),
                nsv == ns.map_values(|n: &TrieNode| *n),
                base_wh == collect_special(frontier_vw(f0), wtake, SpecialVotes::WITHHOLD),
                base_ab == collect_special(frontier_vw(f0), wtake, SpecialVotes::ABSTAIN),
                new_withhold == base_wh + entry_special(
                    nsv.take(j as int),
                    SpecialVotes::WITHHOLD,
                ),
                new_abstain == base_ab + entry_special(nsv.take(j as int), SpecialVotes::ABSTAIN),
                base_ts.map_values(|t: (u16, &TrieNode)| (t.0, *t.1)) == spec_collect(
                    frontier_vw(f0),
                    wtake,
                ),
                all_transfers@.map_values(|t: (u16, &TrieNode)| (t.0, *t.1)) == base_ts.map_values(
                    |t: (u16, &TrieNode)| (t.0, *t.1),
                ) + entry_ts(nsv.take(j as int)),
                base_wh + base_ab + ts_total(base_ts) <= ws_vals(v0, wtake),
                ts_total(base_ts) >= 0,
                ws_vals(v0, wtake) + sum_node_votes(ns) <= sum_vals(v0),
                sum_vals(v0) <= old(state).candidate_total,
                forall|c: u16|
                    #[trigger] ts_to(all_transfers@, c) == ts_to(base_ts, c) + nodes_transfer(
                        ns.take(j as int),
                        c,
                    ),
                all_transfers@.len() == base_ts.len() + nodes_cand_count(ns.take(j as int)),
                new_withhold + new_abstain + ts_total(all_transfers@) <= base_wh + base_ab
                    + ts_total(base_ts) + sum_node_votes(ns.take(j as int)),
                ts_total(all_transfers@) >= ts_total(base_ts),
                ts_sizes(all_transfers@) + processed_nodes <= ts_sizes(base_ts) + base_pn
                    + nodes_sizes(ns.take(j as int)),
                ts_sizes(all_transfers@) >= ts_sizes(base_ts),
                processed_nodes == base_pn + j,
                forall|m: int|
                    0 <= m < all_transfers@.len() ==> ({
                        let t = #[trigger] all_transfers@[m];
                        &&& t.1.wf()
                        &&& t.1.nodes_positive()
                        &&& t.1.num_votes >= 1
                        &&& trie_cands_in(*t.1, uniq)
                        &&& uniq.contains(t.0)
                    }),
            decreases nn - j,
        {
            let ghost ntake = ns.take(j as int);
            let ghost ntake1 = ns.take(j as int + 1);
            let ghost ntakev = nsv.take(j as int);
            let ghost ntake1v = nsv.take(j as int + 1);
            proof {
                assert(ntake1.drop_last() =~= ntake);
                assert(ntake1.last() == ns[j as int]);
                assert(ntake1v.drop_last() =~= ntakev);
                assert(ntake1v.last() == nsv[j as int]);
                assert(nsv[j as int] == *ns[j as int]);
            }
            let node: &TrieNode = state.frontier[fi].1[j];
            proof {
                assert(node == f0[fi as int].1@[j as int]);
                assert(node.wf() && node.nodes_positive() && node.num_votes >= 1
                    && trie_cands_in(*node, uniq));
                lemma_child_split(node.children@);
                assert(sum_child_votes(node.children@) <= node.num_votes);
                lemma_nodes_sizes_nonneg(ntake);
                lemma_sum_node_take_le(ns, j as int + 1);
            }
            let (wh, ab, mut tsn) = transfer_next_votes(node);
            proof {
                lemma_ts_matches_cand_children(tsn@, node.children@);
                lemma_cand_children_len(node.children@);
                lemma_cand_children_elems(node.children@);
                lemma_ts_total_nonneg(tsn@);
                lemma_ts_sizes_nonneg(tsn@);
                assert(ts_total(tsn@) == child_cand_total(node.children@));
                assert(ts_sizes(tsn@) <= children_sizes(node.children@));
                assert(node_size(*node) == 1 + children_sizes(node.children@));
                assert forall|m: int| 0 <= m < tsn@.len() implies ({
                    let t = #[trigger] tsn@[m];
                    &&& t.1.wf()
                    &&& t.1.nodes_positive()
                    &&& t.1.num_votes >= 1
                    &&& trie_cands_in(*t.1, uniq)
                    &&& uniq.contains(t.0)
                }) by {
                    let cc = cand_children(node.children@);
                    assert(tsn@.map_values(|t: (u16, &TrieNode)| (t.0, *t.1))[m] == (
                        tsn@[m].0,
                        *tsn@[m].1,
                    ));
                    assert(cc[m] == (tsn@[m].0, *tsn@[m].1));
                    let ci = choose|ci: int|
                        0 <= ci < node.children@.len() && #[trigger] node.children@[ci] == (
                        VoteValues::Candidate(cc[m].0),
                        cc[m].1,
                        );
                    assert(node.children@[ci].1.wf());
                    assert(node.children@[ci].1.nodes_positive() && node.children@[ci].1.num_votes
                        >= 1) by {
                        assert(node.nodes_positive());
                    }
                    assert(trie_cands_in(node.children@[ci].1, uniq) && uniq.contains(
                        tsn@[m].0,
                    )) by {
                        assert(trie_cands_in(*node, uniq));
                    }
                }
                lemma_ts_concat(all_transfers@, tsn@);
                assert(wh + ab + ts_total(tsn@) <= ns[j as int].num_votes) by {
                    assert(child_cand_total(node.children@) + child_special(
                        node.children@,
                        SpecialVotes::WITHHOLD,
                    ) + child_special(node.children@, SpecialVotes::ABSTAIN) <= node.num_votes);
                }
                assert(sum_node_votes(ntake1) == sum_node_votes(ntake) + ns[j as int].num_votes);
                assert(new_withhold + wh + new_abstain + ab + ts_total(all_transfers@) + ts_total(
                    tsn@,
                ) <= base_wh + base_ab + ts_total(base_ts) + sum_node_votes(ntake1));
                assert(base_wh + base_ab + ts_total(base_ts) + sum_node_votes(ntake1) <= ws_vals(
                    v0,
                    wtake,
                ) + sum_node_votes(ns)) by {
                    lemma_sum_node_take_le(ns, j as int + 1);
                }
            }
            let ghost before = all_transfers@;
            let ghost tsn0 = tsn@;
            new_withhold = new_withhold + wh;
            new_abstain = new_abstain + ab;
            all_transfers.append(&mut tsn);
            proof {
                assert(all_transfers@ == before + tsn0);
                processed_nodes = processed_nodes + 1;
                let dm = |t: (u16, &TrieNode)| (t.0, *t.1);
                assert(all_transfers@.map_values(dm) =~= before.map_values(dm) + tsn0.map_values(
                    dm,
                ));
                assert(tsn0.map_values(dm) == cand_children_of(nsv[j as int])) by {
                    assert(cand_children_of(*node) == cand_children(node.children@));
                }
                assert(entry_ts(ntake1v) == entry_ts(ntakev) + cand_children_of(nsv[j as int]));
                assert(all_transfers@.map_values(dm) =~= base_ts.map_values(dm) + entry_ts(
                    ntake1v,
                ));
                assert(child_special(nsv[j as int].children@, SpecialVotes::WITHHOLD)
                    == child_special(node.children@, SpecialVotes::WITHHOLD));
                assert(child_special(nsv[j as int].children@, SpecialVotes::ABSTAIN)
                    == child_special(node.children@, SpecialVotes::ABSTAIN));
                assert(entry_special(ntake1v, SpecialVotes::WITHHOLD) == entry_special(
                    ntakev,
                    SpecialVotes::WITHHOLD,
                ) + child_special(node.children@, SpecialVotes::WITHHOLD));
                assert(entry_special(ntake1v, SpecialVotes::ABSTAIN) == entry_special(
                    ntakev,
                    SpecialVotes::ABSTAIN,
                ) + child_special(node.children@, SpecialVotes::ABSTAIN));
            }
            j = j + 1;
        }
        proof {
            assert(ns.take(nn as int) =~= ns);
            assert(nsv.take(nn as int) =~= nsv);
            assert(spec_collect(frontier_vw(f0), wtake1) == spec_collect(frontier_vw(f0), wtake)
                + entry_ts(nsv)) by {
                assert(fv_nodes(frontier_vw(f0), wtake1.last()) == nsv);
            }
            assert(collect_special(frontier_vw(f0), wtake1, SpecialVotes::WITHHOLD)
                == collect_special(frontier_vw(f0), wtake, SpecialVotes::WITHHOLD)
                + entry_special(nsv, SpecialVotes::WITHHOLD)) by {
                assert(fv_nodes(frontier_vw(f0), wtake1.last()) == nsv);
            }
            assert(collect_special(frontier_vw(f0), wtake1, SpecialVotes::ABSTAIN)
                == collect_special(frontier_vw(f0), wtake, SpecialVotes::ABSTAIN) + entry_special(
                nsv,
                SpecialVotes::ABSTAIN,
            )) by {
                assert(fv_nodes(frontier_vw(f0), wtake1.last()) == nsv);
            }
            assert(ws_vals(v0, wtake1) == ws_vals(v0, wtake) + entry_val(v0, w)) by {
                assert(entry_val(v0, weakest@[wi as int]) == entry_val(v0, w));
            }
            assert(entry_val(v0, w) == v0[fi as int].1) by {
                lemma_entry_index_of(v0, fi as int);
            }
            assert(sum_node_votes(ns) == v0[fi as int].1);
            assert(frontier_nodes(f0, wtake1.last()) == ns);
            assert forall|c: u16| #[trigger] ts_to(all_transfers@, c) == weakest_transfer(
                f0,
                wtake1,
                c,
            ) by {
                assert(ts_to(base_ts, c) == weakest_transfer(f0, wtake, c));
            }
        }
        wi = wi + 1;
    }
    proof {
        assert(weakest@.take(wn as int) =~= weakest@);
    }

    // Remove every eliminated candidate's count and frontier entry.
    proof {
        assert(weakest@.skip(0) =~= weakest@);
    }
    let ghost sum0 = sum_vals(v0);
    let ghost fs0 = frontier_size(f0);
    let mut wi2: usize = 0;
    while wi2 < wn
        invariant
            0 <= wi2 <= wn == weakest@.len(),
            weakest@.no_duplicates(),
            forall|k: int|
                0 <= k < weakest@.len() ==> entry_has(v0, #[trigger] weakest@[k]),
            frontier_keys(f0) == entry_keys(v0),
            entry_keys(v0).no_duplicates(),
            entry_keys(state.votes@).no_duplicates(),
            state.aligned(),
            state.nodes_ok(uniq),
            forall|i: int|
                0 <= i < state.votes@.len() ==> (#[trigger] state.votes@[i]).1 >= 1,
            forall|i: int|
                0 <= i < state.votes@.len() ==> uniq.contains((#[trigger] state.votes@[i]).0),
            state.candidate_total == old(state).candidate_total,
            state.effective_total == old(state).effective_total,
            sum_vals(state.votes@) <= state.candidate_total <= state.effective_total,
            forall|c: u16|
                #[trigger] entry_has(state.votes@, c) == (entry_has(v0, c)
                    && !weakest@.take(wi2 as int).contains(c)),
            forall|c: u16|
                !weakest@.take(wi2 as int).contains(c) ==> #[trigger] entry_val(state.votes@, c)
                    == entry_val(v0, c),
            forall|c: u16|
                !weakest@.take(wi2 as int).contains(c) && frontier_has(f0, c)
                    ==> #[trigger] frontier_has(state.frontier@, c) && frontier_nodes(
                    state.frontier@,
                    c,
                ) == frontier_nodes(f0, c),
            sum_vals(state.votes@) == sum0 - ws_vals(v0, weakest@.take(wi2 as int)),
            frontier_size(state.frontier@) == fs0 - weakest_sizes(f0, weakest@.take(wi2 as int)),
            spec_remove_keys(v0, frontier_vw(f0), weakest@) == spec_remove_keys(
                state.votes@,
                frontier_vw(state.frontier@),
                weakest@.skip(wi2 as int),
            ),
        decreases wn - wi2,
    {
        let ghost wtake = weakest@.take(wi2 as int);
        let ghost wtake1 = weakest@.take(wi2 as int + 1);
        let ghost vcur = state.votes@;
        let ghost fcur = state.frontier@;
        proof {
            assert(wtake1.drop_last() =~= wtake);
            assert(wtake1.last() == weakest@[wi2 as int]);
        }
        let w = weakest[wi2];
        proof {
            assert(entry_has(v0, weakest@[wi2 as int]));
            assert(!wtake.contains(weakest@[wi2 as int])) by {
                if wtake.contains(weakest@[wi2 as int]) {
                    let m = choose|m: int|
                        0 <= m < wtake.len() && wtake[m] == weakest@[wi2 as int];
                    assert(weakest@[m] == weakest@[wi2 as int]);
                }
            }
            assert(entry_has(vcur, w));
        }
        let i = match find_entry(&state.votes, w) {
            Some(i) => i,
            None => {
                proof {
                    assert(false);
                }
                0
            },
        };
        proof {
            assert(frontier_keys(fcur) =~= entry_keys(vcur));
            lemma_entry_remove(vcur, i as int);
            lemma_frontier_index_of(fcur, i as int);
            lemma_frontier_size_remove(fcur, i as int);
            lemma_entry_index_of(vcur, i as int);
        }
        let removed_nodes = state.frontier.remove(i);
        let removed_vote = state.votes.remove(i);
        proof {
            assert(state.votes@ == vcur.remove(i as int));
            assert(state.frontier@ == fcur.remove(i as int));
            assert(frontier_vw(state.frontier@) =~= frontier_vw(fcur).remove(i as int)) by {
                assert forall|m: int| 0 <= m < state.frontier@.len() implies frontier_vw(
                    state.frontier@,
                )[m] == frontier_vw(fcur).remove(i as int)[m] by {
                    let m2: int = if m < i {
                        m
                    } else {
                        m + 1
                    };
                    assert(state.frontier@[m] == fcur[m2]);
                    assert(frontier_vw(fcur).remove(i as int)[m] == frontier_vw(fcur)[m2]);
                }
            }
            assert(spec_remove_keys(v0, frontier_vw(f0), weakest@) == spec_remove_keys(
                state.votes@,
                frontier_vw(state.frontier@),
                weakest@.skip(wi2 as int + 1),
            )) by {
                assert(weakest@.skip(wi2 as int).drop_first() =~= weakest@.skip(wi2 as int + 1));
                assert(weakest@.skip(wi2 as int)[0] == weakest@[wi2 as int]);
                assert(weakest@.skip(wi2 as int)[0] == w);
                assert(entry_index(vcur, w) == i);
            }
            // alignment is preserved index by index
            assert forall|m: int| 0 <= m < state.votes@.len() implies (
            #[trigger] state.frontier@[m]).0 == state.votes@[m].0 && sum_node_votes(
                state.frontier@[m].1@,
            ) == state.votes@[m].1 by {
                let m2: int = if m < i {
                    m
                } else {
                    m + 1
                };
                assert(state.frontier@[m] == fcur[m2] && state.votes@[m] == vcur[m2]);
                assert(fcur[m2].0 == vcur[m2].0 && sum_node_votes(fcur[m2].1@) == vcur[m2].1);
            }
            assert forall|m: int, jj: int|
                0 <= m < state.frontier@.len() && 0 <= jj < state.frontier@[m].1@.len() implies ({
                let nd = *(#[trigger] state.frontier@[m].1@[jj]);
                &&& nd.wf()
                &&& nd.nodes_positive()
                &&& nd.num_votes >= 1
                &&& trie_cands_in(nd, uniq)
            }) by {
                let m2: int = if m < i {
                    m
                } else {
                    m + 1
                };
                assert(state.frontier@[m] == fcur[m2]);
                assert(fcur[m2].1@[jj] == fcur[m2].1@[jj]);
            }
            assert forall|m: int| 0 <= m < state.votes@.len() implies (
            #[trigger] state.votes@[m]).1 >= 1 && uniq.contains(state.votes@[m].0) by {
                let m2: int = if m < i {
                    m
                } else {
                    m + 1
                };
                assert(state.votes@[m] == vcur[m2]);
            }
            // the removed key is exactly wtake1.last()
            assert(vcur[i as int].0 == w);
            assert forall|c: u16| #[trigger] entry_has(state.votes@, c) == (entry_has(v0, c)
                && !wtake1.contains(c)) by {
                assert(wtake1.contains(c) == (wtake.contains(c) || c == w)) by {
                    if wtake1.contains(c) {
                        let m = choose|m: int| 0 <= m < wtake1.len() && wtake1[m] == c;
                        if m < wtake.len() {
                            assert(wtake[m] == c);
                        }
                    }
                    if wtake.contains(c) {
                        let m = choose|m: int| 0 <= m < wtake.len() && wtake[m] == c;
                        assert(wtake1[m] == c);
                    }
                    if c == w {
                        assert(wtake1[wtake1.len() - 1] == c);
                    }
                }
                assert(entry_has(vcur, c) == (entry_has(v0, c) && !wtake.contains(c)));
                if c != w {
                    assert(entry_has(state.votes@, c) == entry_has(vcur, c));
                } else {
                    assert(!entry_has(state.votes@, c));
                }
            }
            assert forall|c: u16| !wtake1.contains(c) implies #[trigger] entry_val(
                state.votes@,
                c,
            ) == entry_val(v0, c) by {
                assert(!wtake.contains(c) && c != w) by {
                    if wtake.contains(c) {
                        let m = choose|m: int| 0 <= m < wtake.len() && wtake[m] == c;
                        assert(wtake1[m] == c);
                    }
                    assert(wtake1[wtake1.len() - 1] == w);
                }
                assert(entry_val(vcur, c) == entry_val(v0, c));
                assert(entry_val(state.votes@, c) == entry_val(vcur, c));
            }
            // frontier lookups for the surviving keys
            assert forall|c: u16|
                !wtake1.contains(c) && frontier_has(f0, c) implies #[trigger] frontier_has(
                state.frontier@,
                c,
            ) && frontier_nodes(state.frontier@, c) == frontier_nodes(f0, c) by {
                assert(!wtake.contains(c) && c != w) by {
                    if wtake.contains(c) {
                        let m = choose|m: int| 0 <= m < wtake.len() && wtake[m] == c;
                        assert(wtake1[m] == c);
                    }
                    assert(wtake1[wtake1.len() - 1] == w);
                }
                assert(frontier_has(fcur, c) && frontier_nodes(fcur, c) == frontier_nodes(f0, c))
                    by {
                    assert(entry_has(v0, c)) by {
                        let m = frontier_index(f0, c);
                        assert(0 <= m < f0.len() && f0[m].0 == c);
                        assert(frontier_keys(f0).len() == f0.len());
                        assert(entry_keys(v0).len() == v0.len());
                        assert(0 <= m < v0.len());
                        assert(frontier_keys(f0)[m] == f0[m].0);
                        assert(entry_keys(v0)[m] == v0[m].0);
                        assert(v0[m].0 == c);
                    }
                    assert(entry_has(vcur, c));
                }
                let m = frontier_index(fcur, c);
                assert(fcur[m].0 == c && m != i);
                let m2: int = if m < i {
                    m
                } else {
                    m - 1
                };
                assert(state.frontier@[m2] == fcur[m]);
                assert(frontier_keys(state.frontier@).no_duplicates()) by {
                    assert(frontier_keys(state.frontier@) =~= entry_keys(state.votes@));
                }
                lemma_frontier_index_of(state.frontier@, m2);
            }
            assert(ws_vals(v0, wtake1) == ws_vals(v0, wtake) + entry_val(v0, w));
            assert(entry_val(vcur, w) == vcur[i as int].1);
            assert(entry_val(v0, w) == entry_val(vcur, w)) by {
                assert(!wtake.contains(w));
            }
            assert(frontier_nodes(fcur, w) == frontier_nodes(f0, w)) by {
                assert(frontier_has(f0, w)) by {
                    assert(entry_has(v0, w));
                    let m = entry_index(v0, w);
                    assert(0 <= m < v0.len() && v0[m].0 == w);
                    assert(entry_keys(v0).len() == v0.len());
                    assert(frontier_keys(f0).len() == f0.len());
                    assert(0 <= m < f0.len());
                    assert(entry_keys(v0)[m] == v0[m].0);
                    assert(frontier_keys(f0)[m] == f0[m].0);
                    assert(f0[m].0 == w);
                }
            }
            assert(frontier_nodes(fcur, w) == fcur[i as int].1@);
            lemma_sum_vals_nonneg(state.votes@);
        }
        wi2 = wi2 + 1;
    }
    proof {
        assert(weakest@.take(wn as int) =~= weakest@);
        assert(weakest@.skip(wn as int) =~= Seq::<u16>::empty());
        assert(spec_remove_keys(v0, frontier_vw(f0), weakest@) == (
            state.votes@,
            frontier_vw(state.frontier@),
        ));
    }
    let ghost vrem = state.votes@;
    let ghost fvrem = frontier_vw(state.frontier@);
    let ghost ts_spec = spec_collect(frontier_vw(f0), weakest@);
    proof {
        assert(all_transfers@.map_values(|t: (u16, &TrieNode)| (t.0, *t.1)) == ts_spec);
        assert(ts_spec.len() == all_transfers@.len());
    }

    // Without a single pending transfer the election cannot progress; the
    // caller returns no winner, so the totals stay untouched.
    if all_transfers.len() == 0 {
        proof {
            lemma_frontier_size_nonneg(state.frontier@);
            assert(weakest_cand_count(f0, weakest@) == 0);
            assert forall|c: u16| #[trigger] entry_val(state.votes@, c) == (if weakest@.contains(
                c,
            ) {
                0int
            } else {
                entry_val(v0, c)
            }) + weakest_transfer(f0, weakest@, c) by {
                assert(ts_to(all_transfers@, c) == weakest_transfer(f0, weakest@, c));
                assert(all_transfers@ =~= Seq::<(u16, &TrieNode)>::empty());
                if weakest@.contains(c) {
                    assert(!entry_has(state.votes@, c));
                } else {
                }
            }
            if weakest@.len() >= 1 {
                assert(processed_nodes >= 1);
                lemma_ts_sizes_nonneg(all_transfers@);
                assert(weakest_sizes(f0, weakest@) >= 1);
            }
            assert(ts_spec.len() == 0);
            assert(spec_eliminate(round_vw(*old(state)), weakest@).1 == false);
            assert(spec_apply(vrem, fvrem, ts_spec) == (vrem, fvrem)) by {
                assert(ts_spec =~= Seq::<(u16, TrieNode)>::empty());
            }
            assert(round_vw(*state) == spec_eliminate(round_vw(*old(state)), weakest@).0);
        }
        return false;
    }

    // Apply the totals: ballots falling to a marker leave the candidate
    // total, abstained ballots leave the effective total as well.
    proof {
        lemma_ws_vals_bound(v0, weakest@);
        lemma_sum_vals_nonneg(state.votes@);
        assert(new_withhold + new_abstain + ts_total(all_transfers@) <= ws_vals(v0, weakest@));
        lemma_ts_total_nonneg(all_transfers@);
    }
    let spent = new_withhold + new_abstain;
    state.candidate_total = state.candidate_total - spent;
    state.effective_total = state.effective_total - new_abstain;
    let ghost ct1 = state.candidate_total;

    // Credit every pending transfer to its next candidate and adopt its
    // sub-trie into that candidate's frontier.
    let ghost vmid = state.votes@;
    let ghost fmid = state.frontier@;
    let ghost summid = sum_vals(vmid);
    let ghost fsmid = frontier_size(fmid);
    let tn = all_transfers.len();
    let mut ti: usize = 0;
    proof {
        assert(all_transfers@.take(0) =~= Seq::<(u16, &TrieNode)>::empty());
        assert(summid + ts_total(all_transfers@) <= ct1) by {
            assert(summid == sum0 - ws_vals(v0, weakest@));
        }
        assert(ts_spec.skip(0) =~= ts_spec);
        assert(vmid == vrem && frontier_vw(fmid) == fvrem);
    }
    while ti < tn
        invariant
            0 <= ti <= tn == all_transfers@.len(),
            entry_keys(state.votes@).no_duplicates(),
            state.aligned(),
            state.nodes_ok(uniq),
            forall|i: int|
                0 <= i < state.votes@.len() ==> (#[trigger] state.votes@[i]).1 >= 1,
            forall|i: int|
                0 <= i < state.votes@.len() ==> uniq.contains((#[trigger] state.votes@[i]).0),
            state.candidate_total == ct1,
            state.effective_total == old(state).effective_total - new_abstain,
            forall|m: int|
                0 <= m < all_transfers@.len() ==> ({
                    let t = #[trigger] all_transfers@[m];
                    &&& t.1.wf()
                    &&& t.1.nodes_positive()
                    &&& t.1.num_votes >= 1
                    &&& trie_cands_in(*t.1, uniq)
                    &&& uniq.contains(t.0)
                }),
            forall|c: u16|
                #[trigger] entry_val(state.votes@, c) == entry_val(vmid, c) + ts_to(
                    all_transfers@.take(ti as int),
                    c,
                ),
            sum_vals(state.votes@) == summid + ts_total(all_transfers@.take(ti as int)),
            summid + ts_total(all_transfers@) <= ct1,
            ts_total(all_transfers@.take(ti as int)) <= ts_total(all_transfers@),
            ts_total(all_transfers@.take(ti as int)) >= 0,
            frontier_size(state.frontier@) == fsmid + ts_sizes(all_transfers@.take(ti as int)),
            ts_sizes(all_transfers@.take(ti as int)) <= ts_sizes(all_transfers@),
            ts_spec == all_transfers@.map_values(|t: (u16, &TrieNode)| (t.0, *t.1)),
            spec_apply(vmid, frontier_vw(fmid), ts_spec) == spec_apply(
                state.votes@,
                frontier_vw(state.frontier@),
                ts_spec.skip(ti as int),
            ),
        decreases tn - ti,
    {
        let ghost ttake = all_transfers@.take(ti as int);
        let ghost ttake1 = all_transfers@.take(ti as int + 1);
        let ghost vcur = state.votes@;
        let ghost fcur = state.frontier@;
        proof {
            assert(ttake1.drop_last() =~= ttake);
            assert(ttake1.last() == all_transfers@[ti as int]);
            lemma_ts_total_nonneg(all_transfers@);
            lemma_ts_sizes_nonneg(all_transfers@);
            assert(ts_total(ttake1) == ts_total(ttake) + all_transfers@[ti as int].1.num_votes);
            assert(ts_sizes(ttake1) == ts_sizes(ttake) + node_size(*all_transfers@[ti as int].1));
            assert forall|jj: int| 0 <= jj <= all_transfers@.len() implies #[trigger] ts_total(
                all_transfers@.take(jj),
            ) <= ts_total(all_transfers@) && ts_total(all_transfers@.take(jj)) >= 0 by {}
            assert(ts_spec.skip(ti as int).drop_first() =~= ts_spec.skip(ti as int + 1));
            assert(ts_spec.skip(ti as int)[0] == ts_spec[ti as int]);
            assert(ts_spec[ti as int] == (
                all_transfers@[ti as int].0,
                *all_transfers@[ti as int].1,
            ));
        }
        let t = all_transfers[ti];
        let next_candidate = t.0;
        let next_node = t.1;
        let vote_allocation = next_node.get_num_votes();
        proof {
            assert(all_transfers@[ti as int].1.num_votes >= 1);
            assert(vote_allocation >= 1);
        }
        match find_entry(&state.votes, next_candidate) {
            Some(i) => {
                let e = state.votes[i];
                proof {
                    lemma_entry_index_of(vcur, i as int);
                    lemma_sum_vals_each(vcur, i as int);
                    assert(e.1 <= sum_vals(vcur));
                    assert(sum_vals(vcur) + vote_allocation <= ct1);
                }
                let bumped = e.1 + vote_allocation;
                state.votes.remove(i);
                state.votes.insert(i, (e.0, bumped));
                let mut fentry = state.frontier.remove(i);
                fentry.1.push(next_node);
                state.frontier.insert(i, fentry);
                proof {
                    assert(state.votes@ =~= vcur.update(i as int, (e.0, bumped)));
                    lemma_entry_update(vcur, i as int, bumped);
                    lemma_sum_vals_update(vcur, i as int, (e.0, bumped));
                    assert(state.frontier@ =~= fcur.update(
                        i as int,
                        (fcur[i as int].0, fentry.1),
                    ));
                    lemma_frontier_size_update(fcur, i as int, (fcur[i as int].0, fentry.1));
                    assert(fentry.1@ =~= fcur[i as int].1@.push(next_node));
                    assert(nodes_sizes(fentry.1@) == nodes_sizes(fcur[i as int].1@) + node_size(
                        *next_node,
                    )) by {
                        assert(fentry.1@.drop_last() =~= fcur[i as int].1@);
                    }
                    assert(sum_node_votes(fentry.1@) == sum_node_votes(fcur[i as int].1@)
                        + vote_allocation) by {
                        assert(fentry.1@.drop_last() =~= fcur[i as int].1@);
                    }
                    assert forall|m: int, jj: int|
                        0 <= m < state.frontier@.len() && 0 <= jj < state.frontier@[m].1@.len()
                            implies ({
                        let nd = *(#[trigger] state.frontier@[m].1@[jj]);
                        &&& nd.wf()
                        &&& nd.nodes_positive()
                        &&& nd.num_votes >= 1
                        &&& trie_cands_in(nd, uniq)
                    }) by {
                        if m == i {
                            if jj < fcur[i as int].1@.len() {
                                assert(state.frontier@[m].1@[jj] == fcur[m].1@[jj]);
                            } else {
                                assert(state.frontier@[m].1@[jj] == next_node);
                            }
                        } else {
                            assert(state.frontier@[m] == fcur[m]);
                        }
                    }
                    assert forall|c: u16| #[trigger] entry_val(state.votes@, c) == entry_val(
                        vmid,
                        c,
                    ) + ts_to(ttake1, c) by {
                        if c == next_candidate {
                            assert(entry_val(state.votes@, c) == bumped);
                            assert(entry_val(vcur, c) == e.1);
                        } else {
                            assert(entry_val(state.votes@, c) == entry_val(vcur, c));
                        }
                    }
                    let fvcur = frontier_vw(fcur);
                    assert(frontier_vw(state.frontier@) =~= fvcur.update(
                        i as int,
                        (fvcur[i as int].0, fvcur[i as int].1.push(*next_node)),
                    )) by {
                        assert forall|m: int|
                            0 <= m < state.frontier@.len() implies frontier_vw(
                            state.frontier@,
                        )[m] == fvcur.update(
                            i as int,
                            (fvcur[i as int].0, fvcur[i as int].1.push(*next_node)),
                        )[m] by {
                            if m == i {
                                assert(state.frontier@[m] == (fcur[i as int].0, fentry.1));
                                assert(fentry.1@.map_values(|n2: &TrieNode| *n2) =~= fcur[
                                    i as int
                                ].1@.map_values(|n2: &TrieNode| *n2).push(*next_node));
                            } else {
                                assert(state.frontier@[m] == fcur[m]);
                            }
                        }
                    }
                    assert(spec_apply(vmid, frontier_vw(fmid), ts_spec) == spec_apply(
                        state.votes@,
                        frontier_vw(state.frontier@),
                        ts_spec.skip(ti as int + 1),
                    )) by {
                        assert(entry_index(vcur, next_candidate) == i);
                        assert(vcur[i as int] == e);
                        assert((vcur[i as int].1 + ts_spec.skip(ti as int)[0].1.num_votes) as u64
                            == bumped);
                        assert(state.votes@ == vcur.update(i as int, (e.0, bumped)));
                    }
                }
            },
            None => {
                proof {
                    lemma_sum_vals_nonneg(vcur);
                    assert(sum_vals(vcur) + vote_allocation <= ct1);
                    assert(entry_keys(vcur.push((next_candidate, vote_allocation)))
                        =~= entry_keys(vcur).push(next_candidate));
                    crate::counts::lemma_entry_push(vcur, next_candidate, vote_allocation);
                }
                state.votes.push((next_candidate, vote_allocation));
                let mut ns2: Vec<&TrieNode> = Vec::new();
                ns2.push(next_node);
                proof {
                    assert(ns2@.drop_last() =~= Seq::<&TrieNode>::empty());
                    assert(sum_node_votes(Seq::<&TrieNode>::empty()) == 0);
                    assert(nodes_sizes(Seq::<&TrieNode>::empty()) == 0);
                    assert(ns2@.last() == next_node);
                    assert(sum_node_votes(ns2@) == vote_allocation);
                    assert(nodes_sizes(ns2@) == node_size(*next_node));
                }
                state.frontier.push((next_candidate, ns2));
                proof {
                    lemma_sum_vals_push(vcur, (next_candidate, vote_allocation));
                    assert(state.frontier@ =~= fcur.push(state.frontier@.last()));
                    lemma_frontier_size_push(fcur, state.frontier@.last());
                    assert forall|m: int, jj: int|
                        0 <= m < state.frontier@.len() && 0 <= jj < state.frontier@[m].1@.len()
                            implies ({
                        let nd = *(#[trigger] state.frontier@[m].1@[jj]);
                        &&& nd.wf()
                        &&& nd.nodes_positive()
                        &&& nd.num_votes >= 1
                        &&& trie_cands_in(nd, uniq)
                    }) by {
                        if m == state.frontier@.len() - 1 {
                            assert(state.frontier@[m].1@[jj] == next_node);
                        } else {
                            assert(state.frontier@[m] == fcur[m]);
                        }
                    }
                    assert forall|c: u16| #[trigger] entry_val(state.votes@, c) == entry_val(
                        vmid,
                        c,
                    ) + ts_to(ttake1, c) by {
                        if c == next_candidate {
                            assert(entry_val(vcur, c) == 0);
                        } else {
                            assert(entry_val(state.votes@, c) == entry_val(vcur, c));
                        }
                    }
                    let fvcur = frontier_vw(fcur);
                    assert(frontier_vw(state.frontier@) =~= fvcur.push(
                        (next_candidate, seq![*next_node]),
                    )) by {
                        assert forall|m: int|
                            0 <= m < state.frontier@.len() implies frontier_vw(
                            state.frontier@,
                        )[m] == fvcur.push((next_candidate, seq![*next_node]))[m] by {
                            if m == state.frontier@.len() - 1 {
                                assert(state.frontier@[m] == (next_candidate, ns2));
                                assert(ns2@.map_values(|n2: &TrieNode| *n2) =~= seq![*next_node]);
                            } else {
                                assert(state.frontier@[m] == fcur[m]);
                            }
                        }
                    }
                    assert(spec_apply(vmid, frontier_vw(fmid), ts_spec) == spec_apply(
                        state.votes@,
                        frontier_vw(state.frontier@),
                        ts_spec.skip(ti as int + 1),
                    )) by {
                        assert(!entry_has(vcur, next_candidate));
                        assert(state.votes@ == vcur.push((next_candidate, vote_allocation)));
                    }
                }
            },
        }
        ti = ti + 1;
    }
    proof {
        assert(all_transfers@.take(tn as int) =~= all_transfers@);
        assert forall|c: u16| #[trigger] entry_val(state.votes@, c) == (if weakest@.contains(c) {
            0int
        } else {
            entry_val(v0, c)
        }) + weakest_transfer(f0, weakest@, c) by {
            assert(entry_val(state.votes@, c) == entry_val(vmid, c) + ts_to(all_transfers@, c));
            if weakest@.contains(c) {
                assert(!entry_has(vmid, c));
            }
        }
        assert(weakest_cand_count(f0, weakest@) == all_transfers@.len());
        // the frontier lost whole eliminated sub-tries and gained only their
        // strictly smaller children
        assert(frontier_size(state.frontier@) == fs0 - weakest_sizes(f0, weakest@) + ts_sizes(
            all_transfers@,
        ));
        assert(ts_sizes(all_transfers@) + processed_nodes <= weakest_sizes(f0, weakest@));
        if weakest@.len() >= 1 {
            assert(processed_nodes >= 1);
        }
        lemma_ts_sizes_nonneg(all_transfers@);
        lemma_sum_vals_nonneg(state.votes@);
        assert(sum_vals(state.votes@) <= state.candidate_total);
        assert(ts_spec.skip(tn as int) =~= Seq::<(u16, TrieNode)>::empty());
        assert(spec_apply(vmid, frontier_vw(fmid), ts_spec) == (
            state.votes@,
            frontier_vw(state.frontier@),
        ));
        assert(ts_spec.len() > 0);
        assert(spec_eliminate(round_vw(*old(state)), weakest@).1 == true);
        assert(round_vw(*state) == spec_eliminate(round_vw(*old(state)), weakest@).0) by {
            assert(spec_remove_keys(v0, frontier_vw(f0), weakest@) == (vmid, frontier_vw(fmid)));
            assert(new_withhold == collect_special(
                frontier_vw(f0),
                weakest@,
                SpecialVotes::WITHHOLD,
            ));
            assert(new_abstain == collect_special(
                frontier_vw(f0),
                weakest@,
                SpecialVotes::ABSTAIN,
            ));
        }
    }
    true
}

/// A prefix of a node list counts at most the whole list.
pub proof fn lemma_sum_node_take_le(ns: Seq<&TrieNode>, i: int)
    requires
        0 <= i <= ns.len(),
    ensures
        sum_node_votes(ns.take(i)) <= sum_node_votes(ns),
        sum_node_votes(ns.take(i)) >= 0,
    decreases ns.len() - i,
{
    lemma_sum_node_nonneg(ns.take(i));
    if i == ns.len() {
        assert(ns.take(i) =~= ns);
    } else {
        assert(ns.take(i + 1).drop_last() =~= ns.take(i));
        assert(sum_node_votes(ns.take(i + 1)) == sum_node_votes(ns.take(i)) + ns[i].num_votes);
        lemma_sum_node_take_le(ns, i + 1);
    }
}

pub proof fn lemma_sum_node_nonneg(ns: Seq<&TrieNode>)
    ensures
        sum_node_votes(ns) >= 0,
    decreases ns.len(),
{
    if ns.len() > 0 {
        lemma_sum_node_nonneg(ns.drop_last());
    }
}

/// One pass over the counts: the least count, and a candidate holding a
/// strict majority of `effective_total` if one does.
pub fn scan_votes(votes: &Vec<(u16, u64)>, effective_total: u64) -> (r: (u64, Option<u16>))
    requires
        entry_keys(votes@).no_duplicates(),
        sum_vals(votes@) <= effective_total,
    ensures
        r.0 == min_val(votes@),
        r.1 matches Some(w) ==> entry_has(votes@, w) && entry_val(votes@, w) > effective_total
            as int / 2,
        r.1 is None ==> forall|k: int|
            0 <= k < votes@.len() ==> (#[trigger] votes@[k]).1 <= effective_total as int / 2,
{
    let n = votes.len();
    let mut min_candidate_votes: u64 = u64::MAX;
    let mut winner: Option<u16> = None;
    let mut i: usize = 0;
    while i < n
        invariant
            0 <= i <= n == votes@.len(),
            entry_keys(votes@).no_duplicates(),
            min_candidate_votes == min_val(votes@.take(i as int)),
            winner matches Some(w) ==> entry_has(votes@, w) && entry_val(votes@, w)
                > effective_total as int / 2,
            winner is None ==> forall|k: int|
                0 <= k < i ==> (#[trigger] votes@[k]).1 <= effective_total as int / 2,
        decreases n - i,
    {
        proof {
            assert(votes@.take(i as int + 1).drop_last() =~= votes@.take(i as int));
            assert(votes@.take(i as int + 1).last() == votes@[i as int]);
        }
        let e = votes[i];
        if e.1 < min_candidate_votes {
            min_candidate_votes = e.1;
        }
        if winner.is_none() && e.1 > effective_total / 2 {
            proof {
                lemma_entry_index_of(votes@, i as int);
            }
            winner = Some(e.0);
        }
        i = i + 1;
    }
    proof {
        assert(votes@.take(n as int) =~= votes@);
    }
    (min_candidate_votes, winner)
}

/// The candidates holding exactly `m` votes, in entry order.
pub fn find_lowest(votes: &Vec<(u16, u64)>, m: u64) -> (r: Vec<u16>)
    ensures
        r@ == keys_with_val(votes@, m as int),
{
    let n = votes.len();
    let mut r: Vec<u16> = Vec::new();
    let mut i: usize = 0;
    proof {
        assert(votes@.take(0) =~= Seq::<(u16, u64)>::empty());
    }
    while i < n
        invariant
            0 <= i <= n == votes@.len(),
            r@ == keys_with_val(votes@.take(i as int), m as int),
        decreases n - i,
    {
        proof {
            assert(votes@.take(i as int + 1).drop_last() =~= votes@.take(i as int));
            assert(votes@.take(i as int + 1).last() == votes@[i as int]);
        }
        let e = votes[i];
        if e.1 == m {
            r.push(e.0);
        }
        i = i + 1;
    }
    proof {
        assert(votes@.take(n as int) =~= votes@);
    }
    r
}



/// The spec-level image of the frontier: each entry's nodes by value.
pub open spec fn frontier_vw(f: Seq<(u16, Vec<&TrieNode>)>) -> Seq<(u16, Seq<TrieNode>)> {
    f.map_values(|p: (u16, Vec<&TrieNode>)| (p.0, p.1@.map_values(|n: &TrieNode| *n)))
}

/// The round state as mathematics: counts, frontier contents and the two
/// totals. `spec_round_step` runs the election on it.
pub struct SpecRound {
    pub votes: Seq<(u16, u64)>,
    pub frontier: Seq<(u16, Seq<TrieNode>)>,
    pub effective_total: int,
    pub candidate_total: int,
}

/// The spec image of a round state.
pub open spec fn round_vw(s: RoundState) -> SpecRound {
    SpecRound {
        votes: s.votes@,
        frontier: frontier_vw(s.frontier@),
        effective_total: s.effective_total as int,
        candidate_total: s.candidate_total as int,
    }
}

/// The initial frontier: one singleton node list per candidate child of the
/// root, in child order.
pub open spec fn init_frontier(children: Seq<(VoteValues, TrieNode)>) -> Seq<(u16, Seq<TrieNode>)>
    decreases children.len(),
{
    if children.len() == 0 {
        Seq::empty()
    } else {
        let rest = init_frontier(children.drop_last());
        match children.last().0 {
            VoteValues::Candidate(c) => rest.push((c, seq![children.last().1])),
            VoteValues::SpecialVote(_) => rest,
        }
    }
}

/// The first round's state for an engine.
pub open spec fn spec_init_round(rcv: RankedChoiceVoteTrie) -> SpecRound {
    SpecRound {
        votes: init_votes(rcv.root.children@),
        frontier: init_frontier(rcv.root.children@),
        effective_total: init_cand_total(rcv.root.children@) + init_special_total(
            rcv.root.children@,
            SpecialVotes::WITHHOLD,
        ),
        candidate_total: init_cand_total(rcv.root.children@),
    }
}

/// The candidate holding a strict majority of `et`, if one does; the round
/// invariant (counts sum to at most `et`) lets at most one.
pub open spec fn spec_majority(votes: Seq<(u16, u64)>, et: int) -> Option<u16> {
    if exists|i: int| 0 <= i < votes.len() && (#[trigger] votes[i]).1 > et / 2 {
        Some(votes[choose|i: int| 0 <= i < votes.len() && (#[trigger] votes[i]).1 > et / 2].0)
    } else {
        None
    }
}

/// Drop the counts and frontier entries of the candidates in `ws`, in order.
pub open spec fn spec_remove_keys(
    votes: Seq<(u16, u64)>,
    fv: Seq<(u16, Seq<TrieNode>)>,
    ws: Seq<u16>,
) -> (Seq<(u16, u64)>, Seq<(u16, Seq<TrieNode>)>)
    decreases ws.len(),
{
    if ws.len() == 0 {
        (votes, fv)
    } else {
        let i = entry_index(votes, ws[0]);
        spec_remove_keys(votes.remove(i), fv.remove(i), ws.drop_first())
    }
}

/// A node's pending transfers: its candidate children and their sub-tries.
pub open spec fn cand_children_of(n: TrieNode) -> Seq<(u16, TrieNode)> {
    cand_children(n.children@)
}

/// The pending transfers of one eliminated entry's node list, in node order.
pub open spec fn entry_ts(ns: Seq<TrieNode>) -> Seq<(u16, TrieNode)>
    decreases ns.len(),
{
    if ns.len() == 0 {
        Seq::empty()
    } else {
        entry_ts(ns.drop_last()) + cand_children_of(ns.last())
    }
}

pub open spec fn fv_has(fv: Seq<(u16, Seq<TrieNode>)>, w: u16) -> bool {
    exists|i: int| 0 <= i < fv.len() && (#[trigger] fv[i]).0 == w
}

pub open spec fn fv_index(fv: Seq<(u16, Seq<TrieNode>)>, w: u16) -> int {
    choose|i: int| 0 <= i < fv.len() && (#[trigger] fv[i]).0 == w
}

pub open spec fn fv_nodes(fv: Seq<(u16, Seq<TrieNode>)>, w: u16) -> Seq<TrieNode> {
    if fv_has(fv, w) {
        fv[fv_index(fv, w)].1
    } else {
        Seq::empty()
    }
}

/// All pending transfers of eliminating the candidates of `ws`, in order.
pub open spec fn spec_collect(fv: Seq<(u16, Seq<TrieNode>)>, ws: Seq<u16>) -> Seq<(u16, TrieNode)>
    decreases ws.len(),
{
    if ws.len() == 0 {
        Seq::empty()
    } else {
        spec_collect(fv, ws.drop_last()) + entry_ts(fv_nodes(fv, ws.last()))
    }
}

/// The ballots one node list hands to the marker `sp`.
pub open spec fn entry_special(ns: Seq<TrieNode>, sp: SpecialVotes) -> int
    decreases ns.len(),
{
    if ns.len() == 0 {
        0
    } else {
        entry_special(ns.drop_last(), sp) + child_special(ns.last().children@, sp)
    }
}

/// The ballots eliminating the candidates of `ws` hands to the marker `sp`.
pub open spec fn collect_special(
    fv: Seq<(u16, Seq<TrieNode>)>,
    ws: Seq<u16>,
    sp: SpecialVotes,
) -> int
    decreases ws.len(),
{
    if ws.len() == 0 {
        0
    } else {
        collect_special(fv, ws.drop_last(), sp) + entry_special(fv_nodes(fv, ws.last()), sp)
    }
}

/// Credit the pending transfers to their next candidates in order, merging
/// into existing counts and appending new ones. The cast never truncates on
/// states the engine reaches: the counts stay below the candidate total.
pub open spec fn spec_apply(
    votes: Seq<(u16, u64)>,
    fv: Seq<(u16, Seq<TrieNode>)>,
    ts: Seq<(u16, TrieNode)>,
) -> (Seq<(u16, u64)>, Seq<(u16, Seq<TrieNode>)>)
    decreases ts.len(),
{
    if ts.len() == 0 {
        (votes, fv)
    } else {
        let t = ts[0];
        if entry_has(votes, t.0) {
            let i = entry_index(votes, t.0);
            spec_apply(
                votes.update(i, (votes[i].0, (votes[i].1 + t.1.num_votes) as u64)),
                fv.update(i, (fv[i].0, fv[i].1.push(t.1))),
                ts.drop_first(),
            )
        } else {
            spec_apply(
                votes.push((t.0, t.1.num_votes)),
                fv.push((t.0, seq![t.1])),
                ts.drop_first(),
            )
        }
    }
}

/// One elimination-and-transfer step on the spec state: the outcome of
/// `eliminate_and_transfer`, including whether any transfer was pending.
pub open spec fn spec_eliminate(s: SpecRound, ws: Seq<u16>) -> (SpecRound, bool) {
    let removed = spec_remove_keys(s.votes, s.frontier, ws);
    let ts = spec_collect(s.frontier, ws);
    let wh = collect_special(s.frontier, ws, SpecialVotes::WITHHOLD);
    let ab = collect_special(s.frontier, ws, SpecialVotes::ABSTAIN);
    let applied = spec_apply(removed.0, removed.1, ts);
    if ts.len() > 0 {
        (
            SpecRound {
                votes: applied.0,
                frontier: applied.1,
                effective_total: s.effective_total - ab,
                candidate_total: s.candidate_total - wh - ab,
            },
            true,
        )
    } else {
        (
            SpecRound {
                votes: applied.0,
                frontier: applied.1,
                effective_total: s.effective_total,
                candidate_total: s.candidate_total,
            },
            false,
        )
    }
}

/// What one round decides: a final outcome, or the state of the next round.
pub enum RoundStep {
    Done(Option<u16>),
    Next(SpecRound),
}

/// One round of the tally, exactly as `determine_winner` runs it: give up
/// when no candidate can reach a strict majority, return a candidate holding
/// one, otherwise eliminate the weakest set under the strategy and transfer;
/// a round with no pending transfer ends the election without a winner.
pub open spec fn spec_round_step(
    s: SpecRound,
    rcv: RankedChoiceVoteTrie,
    table: Seq<((u16, u16), u64)>,
) -> RoundStep {
    if s.votes.len() == 0 {
        RoundStep::Done(None)
    } else if s.candidate_total <= s.effective_total / 2 {
        RoundStep::Done(None)
    } else if spec_majority(s.votes, s.effective_total) is Some {
        RoundStep::Done(spec_majority(s.votes, s.effective_total))
    } else {
        let lowest = keys_with_val(s.votes, min_val(s.votes));
        let ws = match rcv.elimination_strategy {
            EliminationStrategies::EliminateAll => lowest,
            EliminationStrategies::DowdallScoring => rcv.cands_with_score(
                lowest,
                rcv.min_score(lowest),
            ),
            EliminationStrategies::RankedPairs => spec_ranked_pairs_weakest(lowest, table).0,
            EliminationStrategies::CondorcetRankedPairs => crate::graph::spec_condorcet_weakest(
                s.votes,
                table,
                lowest,
            ),
        };
        let stepped = spec_eliminate(s, ws);
        if stepped.1 {
            RoundStep::Next(stepped.0)
        } else {
            RoundStep::Done(None)
        }
    }
}

/// Run the rounds for at most `fuel` steps: the election's outcome, or
/// nothing when the fuel runs out first. The outcome is the same under every
/// fuel that suffices, so `determine_winner`'s result is fixed by it.
pub open spec fn spec_election(
    s: SpecRound,
    rcv: RankedChoiceVoteTrie,
    table: Seq<((u16, u16), u64)>,
    fuel: nat,
) -> Option<Option<u16>>
    decreases fuel,
{
    if fuel == 0 {
        None
    } else {
        match spec_round_step(s, rcv, table) {
            RoundStep::Done(r) => Some(r),
            RoundStep::Next(s2) => spec_election(s2, rcv, table, (fuel - 1) as nat),
        }
    }
}

/// The election's outcome does not depend on how much fuel was offered, once
/// it was enough.
pub proof fn lemma_election_deterministic(
    s: SpecRound,
    rcv: RankedChoiceVoteTrie,
    table: Seq<((u16, u16), u64)>,
    fuel1: nat,
    fuel2: nat,
)
    requires
        spec_election(s, rcv, table, fuel1) is Some,
        spec_election(s, rcv, table, fuel2) is Some,
    ensures
        spec_election(s, rcv, table, fuel1) == spec_election(s, rcv, table, fuel2),
    decreases fuel1,
{
    match spec_round_step(s, rcv, table) {
        RoundStep::Done(r) => {},
        RoundStep::Next(s2) => {
            lemma_election_deterministic(s2, rcv, table, (fuel1 - 1) as nat, (fuel2 - 1) as nat);
        },
    }
}

/// A fresh engine: no ballots, no scores, no candidates, the given strategy.
pub open spec fn fresh_engine(rcv: RankedChoiceVoteTrie, strategy: EliminationStrategies) -> bool {
    &&& rcv.root.num_votes == 0
    &&& rcv.root.children@.len() == 0
    &&& rcv.dowdall_score_map@.len() == 0
    &&& rcv.unique_candidates@.len() == 0
    &&& rcv.elimination_strategy == strategy
}

/// The table holds, for every ordered pair, exactly the trie's pairwise
/// preference count. Only the two head-to-head strategies read it.
pub open spec fn table_ok(rcv: RankedChoiceVoteTrie, table: Seq<((u16, u16), u64)>) -> bool {
    &&& pair_keys(table).no_duplicates()
    &&& ((rcv.elimination_strategy == EliminationStrategies::RankedPairs
        || rcv.elimination_strategy == EliminationStrategies::CondorcetRankedPairs) ==> forall|
        a: u16,
        b: u16,
    |
        #[trigger] pair_val(table, (a, b)) == node_pair_count(
            rcv.root,
            Seq::empty(),
            rcv.unique_candidates@,
            a,
            b,
        ))
}

/// The candidate holding a strict majority of the effective total at the
/// first round, if one does. At most one can.
pub open spec fn spec_initial_majority(rcv: RankedChoiceVoteTrie) -> Option<u16> {
    let vs = init_votes(rcv.root.children@);
    let et = init_cand_total(rcv.root.children@) + init_special_total(
        rcv.root.children@,
        SpecialVotes::WITHHOLD,
    );
    if exists|i: int| 0 <= i < vs.len() && (#[trigger] vs[i]).1 > et / 2 {
        Some(vs[choose|i: int| 0 <= i < vs.len() && (#[trigger] vs[i]).1 > et / 2].0)
    } else {
        None
    }
}

impl RankedChoiceVoteTrie {
    /// Run the rounds over the inserted ballots and return the winner, or
    /// nothing when no candidate can reach a strict majority of the
    /// effective votes. The result equals the value of the round recursion
    /// `spec_election` on the initial state, under any table carrying the
    /// trie's pairwise counts; `lemma_election_deterministic` makes that
    /// value unique. In particular, a candidate holding a strict first-
    /// preference majority wins at once, an election whose ballots all open
    /// with a marker has no winner, and any winner is a known candidate.
    pub fn determine_winner(&self) -> (r: Option<u16>)
        requires
            self.wf(),
        ensures
            init_votes(self.root.children@).len() == 0 ==> r is None,
            spec_initial_majority(*self) matches Some(w) ==> r == Some(w),
            r matches Some(w) ==> self.unique_candidates@.contains(w),
            exists|table: Seq<((u16, u16), u64)>, fuel: nat|
                table_ok(*self, table) && #[trigger] spec_election(
                    spec_init_round(*self),
                    *self,
                    table,
                    fuel,
                ) == Some(r),
    {
        let ghost uniq = self.unique_candidates@;
        let mut state = init_round_state(self);
        let ghost init_state = state;
        let ghost vs0 = init_votes(self.root.children@);
        let ghost et0 = init_cand_total(self.root.children@) + init_special_total(
            self.root.children@,
            SpecialVotes::WITHHOLD,
        );
        let mut ranked_pairs_map: Vec<((u16, u16), u64)> = Vec::new();
        let strategy = self.elimination_strategy;
        if strategy == EliminationStrategies::RankedPairs || strategy
            == EliminationStrategies::CondorcetRankedPairs {
            let mut search_path: Vec<u16> = Vec::new();
            proof {
                assert forall|a: u16, b: u16| pair_val(
                    Seq::<((u16, u16), u64)>::empty(),
                    (a, b),
                ) + node_pair_count(self.root, Seq::empty(), uniq, a, b) <= u64::MAX by {
                    crate::pairs::lemma_pair_le(self.root, Seq::empty(), uniq, a, b, Seq::empty());
                    assert(!crate::pairs::pair_has(Seq::<((u16, u16), u64)>::empty(), (a, b)));
                }
                assert(pair_keys(Seq::<((u16, u16), u64)>::empty()).no_duplicates());
                assert(Seq::<u16>::empty().no_duplicates());
            }
            build_ranked_pairs_map(
                &self.root,
                &mut search_path,
                &mut ranked_pairs_map,
                &self.unique_candidates,
            );
        }
        let ghost s0 = spec_init_round(*self);
        let ghost mut steps: nat = 0;
        proof {
            lemma_frontier_size_nonneg(state.frontier@);
            assert(round_vw(state) == s0);
            assert(table_ok(*self, ranked_pairs_map@)) by {
                if strategy == EliminationStrategies::RankedPairs || strategy
                    == EliminationStrategies::CondorcetRankedPairs {
                    assert forall|a: u16, b: u16| #[trigger] pair_val(ranked_pairs_map@, (a, b))
                        == node_pair_count(self.root, Seq::empty(), uniq, a, b) by {
                        assert(!crate::pairs::pair_has(
                            Seq::<((u16, u16), u64)>::empty(),
                            (a, b),
                        ));
                    }
                }
            }
        }
        while state.votes.len() > 0
            invariant
                self.wf(),
                uniq == self.unique_candidates@,
                state.wf(uniq),
                pair_keys(ranked_pairs_map@).no_duplicates(),
                strategy == self.elimination_strategy,
                vs0 == init_votes(self.root.children@),
                et0 == init_cand_total(self.root.children@) + init_special_total(
                    self.root.children@,
                    SpecialVotes::WITHHOLD,
                ),
                init_state.votes@ == vs0,
                init_state.effective_total == et0,
                spec_initial_majority(*self) is Some ==> state == init_state,
                vs0.len() == 0 ==> state.votes@.len() == 0,
                s0 == spec_init_round(*self),
                table_ok(*self, ranked_pairs_map@),
                forall|fu: nat|
                    (#[trigger] spec_election(round_vw(state), *self, ranked_pairs_map@, fu))
                        is Some ==> spec_election(s0, *self, ranked_pairs_map@, (fu + steps) as nat)
                        == spec_election(round_vw(state), *self, ranked_pairs_map@, fu),
            decreases frontier_size(state.frontier@),
        {
            let ghost pre_loop = state;
            let ghost cur = round_vw(state);
            if state.candidate_total <= state.effective_total / 2 {
                proof {
                    if spec_initial_majority(*self) is Some {
                        let i0 = choose|i: int|
                            0 <= i < vs0.len() && (#[trigger] vs0[i]).1 > et0 / 2;
                        lemma_sum_vals_each(state.votes@, i0);
                        assert(false);
                    }
                    assert(spec_round_step(cur, *self, ranked_pairs_map@) == RoundStep::Done(
                        None,
                    ));
                    assert(spec_election(cur, *self, ranked_pairs_map@, 1nat) == Some(
                        Option::<u16>::None,
                    ));
                    assert(spec_election(s0, *self, ranked_pairs_map@, (1nat + steps) as nat)
                        == Some(Option::<u16>::None));
                }
                return None;
            }
            let (min_votes, winner) = scan_votes(&state.votes, state.effective_total);
            if let Some(w) = winner {
                proof {
                    let iw = entry_index(state.votes@, w);
                    lemma_entry_index_of(state.votes@, iw);
                    assert(uniq.contains(state.votes@[iw].0));
                    if spec_initial_majority(*self) is Some {
                        let i0 = choose|i: int|
                            0 <= i < vs0.len() && (#[trigger] vs0[i]).1 > et0 / 2;
                        if iw != i0 {
                            lemma_sum_vals_pair(state.votes@, iw, i0);
                            assert(false);
                        }
                        assert(spec_initial_majority(*self) == Some(vs0[i0].0));
                    }
                    assert(cur.candidate_total > cur.effective_total / 2);
                    assert(spec_majority(cur.votes, cur.effective_total) == Some(w)) by {
                        assert(cur.votes[iw].1 > cur.effective_total / 2);
                        let i1 = choose|i: int|
                            0 <= i < cur.votes.len() && (#[trigger] cur.votes[i]).1
                                > cur.effective_total / 2;
                        if i1 != iw {
                            lemma_sum_vals_pair(cur.votes, i1, iw);
                            assert(false);
                        }
                    }
                    assert(spec_round_step(cur, *self, ranked_pairs_map@) == RoundStep::Done(
                        Some(w),
                    ));
                    assert(spec_election(cur, *self, ranked_pairs_map@, 1nat) == Some(
                        Some(w),
                    ));
                    assert(spec_election(s0, *self, ranked_pairs_map@, (1nat + steps) as nat)
                        == Some(Some(w)));
                }
                return Some(w);
            }
            proof {
                if spec_initial_majority(*self) is Some {
                    let i0 = choose|i: int|
                        0 <= i < vs0.len() && (#[trigger] vs0[i]).1 > et0 / 2;
                    assert(state.votes@[i0].1 <= et0 / 2);
                    assert(false);
                }
                assert(spec_majority(cur.votes, cur.effective_total) is None);
            }
            let lowest_vote_candidates = find_lowest(&state.votes, min_votes);
            let ghost votes_now = state.votes@;
            proof {
                lemma_keys_with_val(votes_now, min_votes as int);
            }
            let weakest_candidates: Vec<u16> = match self.elimination_strategy {
                EliminationStrategies::EliminateAll => lowest_vote_candidates,
                EliminationStrategies::DowdallScoring => {
                    proof {
                        assert forall|k: int|
                            0 <= k < lowest_vote_candidates@.len() implies uniq.contains(
                            #[trigger] lowest_vote_candidates@[k],
                        ) by {
                            assert(entry_has(votes_now, lowest_vote_candidates@[k]));
                            let j = entry_index(votes_now, lowest_vote_candidates@[k]);
                            assert(uniq.contains(votes_now[j].0));
                        }
                    }
                    let w = self.find_dowdall_weakest(lowest_vote_candidates);
                    proof {
                        self.lemma_cands_with_score_members(
                            keys_with_val(votes_now, min_votes as int),
                            self.min_score(keys_with_val(votes_now, min_votes as int)),
                        );
                    }
                    w
                },
                EliminationStrategies::RankedPairs => {
                    let w = find_ranked_pairs_weakest(lowest_vote_candidates, &ranked_pairs_map);
                    proof {
                        let lows = keys_with_val(votes_now, min_votes as int);
                        if spec_ranked_pairs_weakest(lows, ranked_pairs_map@).1 {
                            lemma_filter_sinks_members(
                                lows,
                                ranked_pairs_map@,
                                lows.len() as int,
                            );
                        }
                    }
                    w.0
                },
                EliminationStrategies::CondorcetRankedPairs => {
                    let w = find_condorcet_ranked_pairs_weakest(
                        &state.votes,
                        &ranked_pairs_map,
                        lowest_vote_candidates,
                    );
                    proof {
                        let weak = crate::graph::keys_with_val_le(
                            votes_now,
                            crate::graph::second_threshold(votes_now),
                        );
                        lemma_keys_with_val_le(
                            votes_now,
                            crate::graph::second_threshold(votes_now),
                        );
                        if spec_ranked_pairs_weakest(weak, ranked_pairs_map@).1 {
                            lemma_filter_sinks_members(
                                weak,
                                ranked_pairs_map@,
                                weak.len() as int,
                            );
                        }
                    }
                    w
                },
            };
            proof {
                assert(weakest_candidates@.no_duplicates());
                assert(forall|k: int|
                    0 <= k < weakest_candidates@.len() ==> entry_has(
                        state.votes@,
                        #[trigger] weakest_candidates@[k],
                    ));
                assert(weakest_candidates@ == ({
                    let lowest = keys_with_val(cur.votes, min_val(cur.votes));
                    match self.elimination_strategy {
                        EliminationStrategies::EliminateAll => lowest,
                        EliminationStrategies::DowdallScoring => self.cands_with_score(
                            lowest,
                            self.min_score(lowest),
                        ),
                        EliminationStrategies::RankedPairs => spec_ranked_pairs_weakest(
                            lowest,
                            ranked_pairs_map@,
                        ).0,
                        EliminationStrategies::CondorcetRankedPairs
                            => crate::graph::spec_condorcet_weakest(
                            cur.votes,
                            ranked_pairs_map@,
                            lowest,
                        ),
                    }
                }));
            }
            let made = eliminate_and_transfer(&mut state, &weakest_candidates, Ghost(uniq));
            if !made {
                proof {
                    assert(spec_round_step(cur, *self, ranked_pairs_map@) == RoundStep::Done(
                        None,
                    ));
                    assert(spec_election(cur, *self, ranked_pairs_map@, 1nat) == Some(
                        Option::<u16>::None,
                    ));
                    assert(spec_election(s0, *self, ranked_pairs_map@, (1nat + steps) as nat)
                        == Some(Option::<u16>::None));
                }
                return None;
            }
            proof {
                assert(weakest_candidates@.len() >= 1) by {
                    if weakest_candidates@.len() == 0 {
                        assert(weakest_cand_count(pre_loop.frontier@, weakest_candidates@) == 0);
                    }
                }
                lemma_frontier_size_nonneg(state.frontier@);
                assert(vs0.len() == 0 ==> state.votes@.len() == 0) by {
                    if vs0.len() == 0 {
                        assert(pre_loop.votes@.len() > 0);
                        assert(false);
                    }
                }
                assert(spec_round_step(cur, *self, ranked_pairs_map@) == RoundStep::Next(
                    round_vw(state),
                ));
                assert forall|fu: nat|
                    (#[trigger] spec_election(round_vw(state), *self, ranked_pairs_map@, fu))
                        is Some implies spec_election(
                    s0,
                    *self,
                    ranked_pairs_map@,
                    (fu + steps + 1) as nat,
                ) == spec_election(round_vw(state), *self, ranked_pairs_map@, fu) by {
                    assert(spec_election(cur, *self, ranked_pairs_map@, (fu + 1) as nat)
                        == spec_election(round_vw(state), *self, ranked_pairs_map@, fu));
                }
                steps = steps + 1;
            }
        }
        proof {
            if spec_initial_majority(*self) is Some {
                let i0 = choose|i: int| 0 <= i < vs0.len() && (#[trigger] vs0[i]).1 > et0 / 2;
                assert(state.votes@.len() > 0);
                assert(false);
            }
            assert(spec_round_step(round_vw(state), *self, ranked_pairs_map@) == RoundStep::Done(
                None,
            ));
            assert(spec_election(round_vw(state), *self, ranked_pairs_map@, 1nat) == Some(
                Option::<u16>::None,
            ));
            assert(spec_election(s0, *self, ranked_pairs_map@, (1nat + steps) as nat) == Some(
                Option::<u16>::None,
            ));
        }
        None
    }

    /// Run a complete election over `votes` with this engine's strategy,
    /// leaving this engine untouched: insert the ballots into a fresh engine
    /// and return `determine_winner`'s outcome on it, which the round
    /// recursion fixes. A winner, if any, is a candidate some ballot ranked.
    pub fn run_election(&self, votes: Vec<RankedVote>) -> (r: Option<u16>)
        requires
            self.wf(),
            forall|i: int| 0 <= i < votes@.len() ==> (#[trigger] votes@[i]).wf(),
            votes@.len() <= MAX_TOTAL_VOTES,
        ensures
            r matches Some(w) ==> exists|i: int, j: int|
                0 <= i < votes@.len() && 0 <= j < votes@[i].spec_values().len() && #[trigger] votes@[i].spec_values()[j]
                    == VoteValues::Candidate(w),
            exists|
                e0: RankedChoiceVoteTrie,
                e: RankedChoiceVoteTrie,
                table: Seq<((u16, u16), u64)>,
                fuel: nat,
            |
                fresh_engine(e0, self.elimination_strategy) && #[trigger] is_engine_insert_seq(
                    e0,
                    votes@,
                    e,
                ) && table_ok(e, table) && #[trigger] spec_election(
                    spec_init_round(e),
                    e,
                    table,
                    fuel,
                ) == Some(r),
    {
        let ghost all = votes@;
        let mut rcv = RankedChoiceVoteTrie {
            root: crate::trie::TrieNode::new(),
            dowdall_score_map: Vec::new(),
            elimination_strategy: self.elimination_strategy,
            unique_candidates: Vec::new(),
        };
        let ghost fresh = rcv;
        proof {
            assert(entry_keys(rcv.dowdall_score_map@) =~= rcv.unique_candidates@);
            assert(crate::trie::sum_child_votes(rcv.root.children@) == 0);
            assert(rcv.wf());
        }
        rcv.insert_votes(votes);
        let r = rcv.determine_winner();
        proof {
            if r is Some {
                let w = r->0;
                assert(rcv.unique_candidates@.contains(w));
                lemma_chain_unique(fresh, all, rcv, w);
            }
            assert(fresh_engine(fresh, self.elimination_strategy));
            let (table, fuel) = choose|table: Seq<((u16, u16), u64)>, fuel: nat|
                table_ok(rcv, table) && #[trigger] spec_election(
                    spec_init_round(rcv),
                    rcv,
                    table,
                    fuel,
                ) == Some(r);
            assert(fresh_engine(fresh, self.elimination_strategy) && is_engine_insert_seq(
                fresh,
                all,
                rcv,
            ) && table_ok(rcv, table) && spec_election(spec_init_round(rcv), rcv, table, fuel)
                == Some(r));
        }
        r
    }
}

/// A candidate recorded after a run of insertions was either known before or
/// ranked by one of the inserted ballots.
pub proof fn lemma_chain_unique(
    pre: RankedChoiceVoteTrie,
    votes: Seq<RankedVote>,
    post: RankedChoiceVoteTrie,
    w: u16,
)
    requires
        is_engine_insert_seq(pre, votes, post),
        post.unique_candidates@.contains(w),
    ensures
        pre.unique_candidates@.contains(w) || exists|i: int, j: int|
            0 <= i < votes.len() && 0 <= j < votes[i].spec_values().len() && #[trigger] votes[i].spec_values()[j]
                == VoteValues::Candidate(w),
    decreases votes.len(),
{
    if votes.len() == 0 {
        assert(post == pre);
    } else {
        let mid = choose|mid: RankedChoiceVoteTrie|
            is_engine_insert_seq(pre, votes.drop_last(), mid) && crate::engine::is_engine_insert(
                mid,
                votes.last(),
                post,
            );
        crate::engine::lemma_with_new_cands(mid.unique_candidates@, votes.last().spec_values());
        if mid.unique_candidates@.contains(w) {
            lemma_chain_unique(pre, votes.drop_last(), mid, w);
            if !pre.unique_candidates@.contains(w) {
                let (i, j) = choose|i: int, j: int|
                    0 <= i < votes.drop_last().len() && 0 <= j
                        < votes.drop_last()[i].spec_values().len() && #[trigger] votes.drop_last()[i].spec_values()[j]
                        == VoteValues::Candidate(w);
                assert(votes[i] == votes.drop_last()[i]);
                assert(votes[i].spec_values()[j] == VoteValues::Candidate(w));
            }
        } else {
            assert(votes.last().spec_values().contains(VoteValues::Candidate(w)));
            let j = choose|j: int|
                0 <= j < votes.last().spec_values().len() && votes.last().spec_values()[j]
                    == VoteValues::Candidate(w);
            assert(votes[votes.len() - 1].spec_values()[j] == VoteValues::Candidate(w));
        }
    }
}

} // verus!

